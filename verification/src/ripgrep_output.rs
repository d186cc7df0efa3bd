use vstd::prelude::*;
use vstd::string::StringSliceAdditionalSpecFns;

verus! {

/// Position of the first newline byte at or after `p`, or the length of `b`
/// where none follows.
pub open spec fn next_newline(b: Seq<u8>, p: int) -> int
    decreases b.len() - p,
{
    if 0 <= p < b.len() {
        if b[p] == 10 {
            p
        } else {
            next_newline(b, p + 1)
        }
    } else {
        b.len() as int
    }
}

/// End of the text of the line from `p` to the line ending at `e`: a carriage
/// return just before a newline is not part of the line.
pub open spec fn content_end(b: Seq<u8>, p: int, e: int) -> int {
    if p < e && e < b.len() && b[e - 1] == 13 {
        e - 1
    } else {
        e
    }
}

/// Position of the first `:` from `p` up to `q`, or `q` where there is none.
pub open spec fn first_colon(b: Seq<u8>, p: int, q: int) -> int
    decreases q - p,
{
    if p < q {
        if b[p] == 58 {
            p
        } else {
            first_colon(b, p + 1, q)
        }
    } else {
        q
    }
}

/// Every byte from `p` up to `q` is an ASCII digit.
pub open spec fn all_digits(b: Seq<u8>, p: int, q: int) -> bool {
    forall|k: int| p <= k < q ==> 48 <= #[trigger] b[k] <= 57
}

/// The decimal value of the digits from `p` up to `q`.
pub open spec fn digits_value(b: Seq<u8>, p: int, q: int) -> nat
    decreases q - p,
{
    if p < q {
        digits_value(b, p, q - 1) * 10 + (b[q - 1] - 48) as nat
    } else {
        0
    }
}

/// What parsing the text from `p` up to `q` as a `usize` gives: an optional
/// `+` sign followed by at least one decimal digit, with a value that fits
/// in a `usize`.
pub open spec fn parsed_usize(b: Seq<u8>, p: int, q: int) -> Option<nat> {
    let start = if p < q && b[p] == 43 {
        p + 1
    } else {
        p
    };
    if start < q && all_digits(b, start, q) && digits_value(b, start, q) <= usize::MAX {
        Some(digits_value(b, start, q))
    } else {
        None
    }
}

/// The numbers in front of the first `:` of the lines of `b` from position
/// `p` on, where that part of a line parses as a `usize`; other lines give
/// nothing.
pub open spec fn leading_numbers_from(b: Seq<u8>, p: int) -> Seq<nat>
    decreases b.len() + 1 - p,
    via leading_numbers_terminates
{
    if 0 <= p < b.len() {
        let e = next_newline(b, p);
        let f = first_colon(b, p, content_end(b, p, e));
        let rest = leading_numbers_from(b, e + 1);
        match parsed_usize(b, p, f) {
            Some(v) => seq![v] + rest,
            None => rest,
        }
    } else {
        Seq::empty()
    }
}

#[via_fn]
proof fn leading_numbers_terminates(b: Seq<u8>, p: int) {
    if 0 <= p < b.len() {
        lemma_next_newline(b, p);
    }
}

/// The numbers in front of the first `:` of each line of the text `b`.
pub open spec fn leading_numbers(b: Seq<u8>) -> Seq<nat> {
    leading_numbers_from(b, 0)
}

/// The line after each line number that a search printed at the start of
/// its output lines.
pub open spec fn following_lines(b: Seq<u8>) -> Seq<usize> {
    leading_numbers(b).map_values(|v: nat| (v + 1) as usize)
}

/// The next newline lies between `p` and the end of the text.
pub proof fn lemma_next_newline(b: Seq<u8>, p: int)
    requires
        0 <= p <= b.len(),
    ensures
        p <= next_newline(b, p) <= b.len(),
        next_newline(b, p) < b.len() ==> b[next_newline(b, p)] == 10,
    decreases b.len() - p,
{
    if p < b.len() && b[p] != 10 {
        lemma_next_newline(b, p + 1);
    }
}

/// More digits never give a smaller value.
pub proof fn lemma_digits_value_grows(b: Seq<u8>, p: int, k: int, q: int)
    requires
        p <= k <= q,
        all_digits(b, p, q),
    ensures
        digits_value(b, p, k) <= digits_value(b, p, q),
    decreases q - k,
{
    if k < q {
        lemma_digits_value_grows(b, p, k, q - 1);
    }
}

/// Parses the text from `p` up to `q` as a `usize`.
fn parse_usize_field(b: &[u8], p: usize, q: usize) -> (res: Option<usize>)
    requires
        p <= q <= b@.len(),
    ensures
        match parsed_usize(b@, p as int, q as int) {
            Some(v) => res == Some(v as usize),
            None => res is None,
        },
{
    let mut start = p;
    if p < q && b[p] == 43 {
        start = p + 1;
    }
    if start >= q {
        return None;
    }
    let mut value: usize = 0;
    let mut k = start;
    while k < q
        invariant
            start <= k <= q <= b@.len(),
            start as int == (if p < q && b@[p as int] == 43 { p + 1 } else { p as int }),
            all_digits(b@, start as int, k as int),
            value == digits_value(b@, start as int, k as int),
        decreases q - k,
    {
        let c = b[k];
        if c < 48 || c > 57 {
            assert(!all_digits(b@, start as int, q as int));
            return None;
        }
        let d = (c - 48) as usize;
        assert(digits_value(b@, start as int, k + 1) == value * 10 + d);
        match value.checked_mul(10) {
            Some(times_ten) => match times_ten.checked_add(d) {
                Some(next) => {
                    value = next;
                },
                None => {
                    proof {
                        if all_digits(b@, start as int, q as int) {
                            lemma_digits_value_grows(b@, start as int, k + 1, q as int);
                        }
                    }
                    return None;
                },
            },
            None => {
                proof {
                    if all_digits(b@, start as int, q as int) {
                        lemma_digits_value_grows(b@, start as int, k + 1, q as int);
                    }
                }
                return None;
            },
        }
        k += 1;
    }
    Some(value)
}

/// The line after each line number that a search printed in front of a `:`
/// at the start of its output lines; lines whose text before the first `:`
/// is no number are passed over.
pub fn parse_ripgrep_output(output: &str) -> (res: Vec<usize>)
    requires
        forall|k: int|
            0 <= k < leading_numbers(output.spec_bytes()).len() ==> #[trigger] leading_numbers(
                output.spec_bytes(),
            )[k] < usize::MAX,
    ensures
        res@ == following_lines(output.spec_bytes()),
{
    let b = output.as_bytes();
    let ghost bs = b@;
    let n = b.len();
    let mut res: Vec<usize> = Vec::new();
    let mut p: usize = 0;
    while p < n
        invariant
            bs == b@,
            n == bs.len(),
            p <= n,
            forall|k: int|
                0 <= k < leading_numbers(bs).len() ==> #[trigger] leading_numbers(bs)[k]
                    < usize::MAX,
            res@ + leading_numbers_from(bs, p as int).map_values(|v: nat| (v + 1) as usize)
                == following_lines(bs),
            leading_numbers(bs) == res@.map_values(|v: usize| (v - 1) as nat) + leading_numbers_from(
                bs,
                p as int,
            ),
        decreases n - p,
    {
        let mut e = p;
        while e < n && b[e] != 10
            invariant
                p <= e <= n,
                n == bs.len(),
                bs == b@,
                next_newline(bs, e as int) == next_newline(bs, p as int),
            decreases n - e,
        {
            e += 1;
        }
        assert(e == next_newline(bs, p as int));
        let mut q = e;
        if p < e && e < n && b[e - 1] == 13 {
            q = e - 1;
        }
        let mut f = p;
        while f < q && b[f] != 58
            invariant
                p <= f <= q <= n,
                n == bs.len(),
                bs == b@,
                first_colon(bs, f as int, q as int) == first_colon(bs, p as int, q as int),
            decreases q - f,
        {
            f += 1;
        }
        let ghost rest = leading_numbers_from(bs, e + 1);
        let ghost done = res@;
        let parsed = parse_usize_field(b, p, f);
        match parsed {
            Some(v) => {
                assert(leading_numbers(bs) == done.map_values(|v: usize| (v - 1) as nat) + (seq![
                    v as nat,
                ] + rest));
                assert(leading_numbers(bs)[done.len() as int] == v as nat);
                res.push(v + 1);
                assert(res@.map_values(|v: usize| (v - 1) as nat) =~= done.map_values(
                    |v: usize| (v - 1) as nat,
                ).push(v as nat));
                assert(leading_numbers(bs) =~= res@.map_values(|v: usize| (v - 1) as nat) + rest);
                assert((seq![v as nat] + rest).map_values(|v: nat| (v + 1) as usize) =~= seq![
                    (v + 1) as usize,
                ] + rest.map_values(|v: nat| (v + 1) as usize));
                assert(res@ + rest.map_values(|v: nat| (v + 1) as usize) =~= done + (seq![
                    v as nat,
                ] + rest).map_values(|v: nat| (v + 1) as usize));
            },
            None => {},
        }
        if e < n {
            p = e + 1;
        } else {
            assert(leading_numbers_from(bs, e + 1) =~= Seq::<nat>::empty());
            assert(leading_numbers_from(bs, n as int) =~= Seq::<nat>::empty());
            p = n;
        }
    }
    proof {
        assert(leading_numbers_from(bs, p as int) =~= Seq::<nat>::empty());
        assert(res@ =~= following_lines(bs));
    }
    res
}

} // verus!
