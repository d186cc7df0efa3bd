use vstd::prelude::*;
use crate::ripgrep_output::{
    all_digits, content_end, digits_value, first_colon, leading_numbers, leading_numbers_from,
    lemma_next_newline, next_newline, parsed_usize,
};

verus! {

/// The bytes of `b1` from `p` up to `q` are those of `b2` from `p + d` on.
pub open spec fn same_bytes(b1: Seq<u8>, b2: Seq<u8>, p: int, q: int, d: int) -> bool {
    &&& 0 <= p <= q <= b1.len()
    &&& 0 <= p + d
    &&& q + d <= b2.len()
    &&& forall|k: int| p <= k < q ==> #[trigger] b1[k] == b2[k + d]
}

proof fn lemma_field_frame(b1: Seq<u8>, b2: Seq<u8>, p: int, q: int, d: int)
    requires
        same_bytes(b1, b2, p, q, d),
    ensures
        first_colon(b1, p, q) + d == first_colon(b2, p + d, q + d),
        p <= first_colon(b1, p, q) <= q,
        parsed_usize(b1, p, q) == parsed_usize(b2, p + d, q + d),
    decreases q - p,
{
    if p < q {
        assert(b1[p] == b2[p + d]);
        if b1[p] != 58 {
            lemma_field_frame(b1, b2, p + 1, q, d);
        }
    }
    lemma_digits_frame(b1, b2, p, q, d);
    if p < q {
        lemma_digits_frame(b1, b2, p + 1, q, d);
    }
}

proof fn lemma_digits_frame(b1: Seq<u8>, b2: Seq<u8>, p: int, q: int, d: int)
    requires
        same_bytes(b1, b2, p, q, d),
    ensures
        all_digits(b1, p, q) == all_digits(b2, p + d, q + d),
        digits_value(b1, p, q) == digits_value(b2, p + d, q + d),
    decreases q - p,
{
    if p < q {
        lemma_digits_frame(b1, b2, p, q - 1, d);
        assert(b1[q - 1] == b2[q - 1 + d]);
        if all_digits(b2, p + d, q + d) {
            assert forall|k: int| p <= k < q implies 48 <= #[trigger] b1[k] <= 57 by {
                assert(b2[k + d] == b1[k]);
            }
        }
        if all_digits(b1, p, q) {
            assert forall|k: int| p + d <= k < q + d implies 48 <= #[trigger] b2[k] <= 57 by {
                assert(b1[k - d] == b2[k]);
            }
        }
    }
}

proof fn lemma_newline_in_prefix(t: Seq<u8>, u: Seq<u8>, p: int)
    requires
        0 <= p < t.len(),
        t.last() == 10,
    ensures
        next_newline(t + u, p) == next_newline(t, p),
        next_newline(t, p) < t.len(),
    decreases t.len() - p,
{
    assert((t + u)[p] == t[p]);
    if t[p] != 10 {
        lemma_newline_in_prefix(t, u, p + 1);
    }
}

proof fn lemma_newline_shift(t: Seq<u8>, u: Seq<u8>, p: int)
    requires
        0 <= p <= u.len(),
    ensures
        next_newline(t + u, t.len() + p) == t.len() + next_newline(u, p),
    decreases u.len() - p,
{
    if p < u.len() {
        assert((t + u)[t.len() + p] == u[p]);
        if u[p] != 10 {
            lemma_newline_shift(t, u, p + 1);
        }
    }
}

proof fn lemma_numbers_shift(t: Seq<u8>, u: Seq<u8>, p: int)
    requires
        0 <= p <= u.len() + 1,
    ensures
        leading_numbers_from(t + u, t.len() + p) == leading_numbers_from(u, p),
    decreases u.len() + 1 - p,
{
    let b = t + u;
    let o = t.len() as int;
    if p < u.len() {
        lemma_newline_shift(t, u, p);
        lemma_next_newline(u, p);
        let e = next_newline(u, p);
        assert(next_newline(b, o + p) == o + e);
        if p < e && e < u.len() {
            assert(b[o + e - 1] == u[e - 1]);
        }
        let q = content_end(u, p, e);
        assert(content_end(b, o + p, o + e) == o + q);
        assert(same_bytes(u, b, p, q, o)) by {
            assert forall|k: int| p <= k < q implies #[trigger] u[k] == b[k + o] by {}
        }
        lemma_field_frame(u, b, p, q, o);
        let f = first_colon(u, p, q);
        assert(same_bytes(u, b, p, f, o)) by {
            assert forall|k: int| p <= k < f implies #[trigger] u[k] == b[k + o] by {}
        }
        lemma_field_frame(u, b, p, f, o);
        lemma_numbers_shift(t, u, e + 1);
    } else {
        assert(leading_numbers_from(b, o + p) =~= Seq::<nat>::empty());
        assert(leading_numbers_from(u, p) =~= Seq::<nat>::empty());
    }
}

proof fn lemma_numbers_split(t: Seq<u8>, u: Seq<u8>, p: int)
    requires
        t.len() > 0,
        t.last() == 10,
        0 <= p <= t.len(),
    ensures
        leading_numbers_from(t + u, p) == leading_numbers_from(t, p) + leading_numbers(u),
    decreases t.len() - p,
{
    let b = t + u;
    if p < t.len() {
        lemma_newline_in_prefix(t, u, p);
        lemma_next_newline(t, p);
        let e = next_newline(t, p);
        if p < e {
            assert(b[e - 1] == t[e - 1]);
        }
        let q = content_end(t, p, e);
        assert(content_end(b, p, e) == q);
        assert(same_bytes(t, b, p, q, 0)) by {
            assert forall|k: int| p <= k < q implies #[trigger] t[k] == b[k + 0] by {}
        }
        lemma_field_frame(t, b, p, q, 0);
        let f = first_colon(t, p, q);
        assert(same_bytes(t, b, p, f, 0)) by {
            assert forall|k: int| p <= k < f implies #[trigger] t[k] == b[k + 0] by {}
        }
        lemma_field_frame(t, b, p, f, 0);
        lemma_numbers_split(t, u, e + 1);
        let rest_b = leading_numbers_from(b, e + 1);
        let rest_t = leading_numbers_from(t, e + 1);
        match parsed_usize(t, p, f) {
            Some(v) => {
                assert(seq![v] + (rest_t + leading_numbers(u)) =~= (seq![v] + rest_t) + leading_numbers(
                    u,
                ));
            },
            None => {},
        }
    } else {
        lemma_numbers_shift(t, u, 0);
        assert(leading_numbers_from(t, p) =~= Seq::<nat>::empty());
        assert(b =~= t + u);
        assert(leading_numbers_from(b, t.len() as int) == leading_numbers_from(u, 0));
        assert(Seq::<nat>::empty() + leading_numbers(u) =~= leading_numbers(u));
    }
}

/// Output lines are read one by one: the numbers read from two texts, the
/// first ending with a newline, put together are the numbers read from
/// each, in order.
pub proof fn output_lines_are_read_in_order(t: Seq<u8>, u: Seq<u8>)
    requires
        t.len() > 0,
        t.last() == 10,
    ensures
        leading_numbers(t + u) == leading_numbers(t) + leading_numbers(u),
{
    lemma_numbers_split(t, u, 0);
}

/// The decimal value of a string of digit bytes.
pub open spec fn decimal_bytes_value(d: Seq<u8>) -> nat
    decreases d.len(),
{
    if d.len() == 0 {
        0
    } else {
        decimal_bytes_value(d.drop_last()) * 10 + (d.last() - 48) as nat
    }
}

proof fn lemma_value_prefix(b: Seq<u8>, d: Seq<u8>, k: int)
    requires
        0 <= k <= d.len() <= b.len(),
        forall|i: int| 0 <= i < d.len() ==> #[trigger] b[i] == d[i],
    ensures
        digits_value(b, 0, k) == decimal_bytes_value(d.take(k)),
    decreases k,
{
    if k > 0 {
        lemma_value_prefix(b, d, k - 1);
        assert(d.take(k).drop_last() =~= d.take(k - 1));
        assert(d.take(k).last() == b[k - 1]);
    }
}

proof fn lemma_colon_after_digits(b: Seq<u8>, p: int, c: int, q: int)
    requires
        0 <= p <= c < q,
        b[c] == 58,
        forall|k: int| p <= k < c ==> 48 <= #[trigger] b[k] <= 57,
    ensures
        first_colon(b, p, q) == c,
    decreases c - p,
{
    if p < c {
        assert(48 <= b[p] <= 57);
        lemma_colon_after_digits(b, p + 1, c, q);
    }
}

proof fn lemma_newline_at_end(b: Seq<u8>, p: int)
    requires
        0 <= p < b.len(),
        b.last() == 10,
        forall|k: int| p <= k < b.len() - 1 ==> #[trigger] b[k] != 10,
    ensures
        next_newline(b, p) == b.len() - 1,
    decreases b.len() - p,
{
    if p < b.len() - 1 {
        lemma_newline_at_end(b, p + 1);
    }
}

/// An output line made of decimal digits, a `:` and any text without a
/// newline gives the number that the digits spell, when it fits in a
/// `usize`; a carriage return before the newline makes no difference.
pub proof fn output_line_gives_its_number(d: Seq<u8>, r: Seq<u8>, cr: bool)
    requires
        d.len() > 0,
        forall|i: int| 0 <= i < d.len() ==> 48 <= #[trigger] d[i] <= 57,
        decimal_bytes_value(d) <= usize::MAX,
        forall|i: int| 0 <= i < r.len() ==> #[trigger] r[i] != 10,
    ensures
        leading_numbers(d + seq![58u8] + r + (if cr { seq![13u8, 10u8] } else { seq![10u8] }))
            == seq![decimal_bytes_value(d)],
{
    let end = if cr {
        seq![13u8, 10u8]
    } else {
        seq![10u8]
    };
    let b = d + seq![58u8] + r + end;
    let n = d.len() as int;
    assert(b[n] == 58);
    assert forall|k: int| 0 <= k < n implies #[trigger] b[k] == d[k] by {}
    assert forall|k: int| 0 <= k < b.len() - 1 implies #[trigger] b[k] != 10 by {
        if k < n {
            assert(b[k] == d[k]);
        } else if k > n && k < n + 1 + r.len() {
            assert(b[k] == r[k - n - 1]);
        }
    }
    lemma_newline_at_end(b, 0);
    let e = b.len() - 1;
    let q = content_end(b, 0, e);
    assert(q >= n + 1);
    lemma_colon_after_digits(b, 0, n, q);
    assert(48 <= b[0] <= 57);
    lemma_value_prefix(b, d, n);
    assert(d.take(n) =~= d);
    assert(all_digits(b, 0, n));
    assert(leading_numbers_from(b, e + 1) =~= Seq::<nat>::empty());
    assert(parsed_usize(b, 0, n) == Some(decimal_bytes_value(d)));
    assert(leading_numbers(b) =~= seq![decimal_bytes_value(d)]);
}

/// An output line that does not start with a digit or `+` gives no number.
pub proof fn output_line_without_number(l: Seq<u8>)
    requires
        forall|i: int| 0 <= i < l.len() ==> #[trigger] l[i] != 10,
        l.len() > 0 ==> !(48 <= l[0] <= 57) && l[0] != 43,
    ensures
        leading_numbers(l + seq![10u8]) == Seq::<nat>::empty(),
{
    let b = l + seq![10u8];
    assert forall|k: int| 0 <= k < b.len() - 1 implies #[trigger] b[k] != 10 by {
        assert(b[k] == l[k]);
    }
    lemma_newline_at_end(b, 0);
    let e = b.len() - 1;
    let q = content_end(b, 0, e);
    lemma_field_frame(b, b, 0, q, 0);
    if l.len() > 0 {
        assert(b[0] == l[0]);
    }
    assert(leading_numbers_from(b, e + 1) =~= Seq::<nat>::empty());
}

} // verus!
