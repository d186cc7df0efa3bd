use vstd::prelude::*;
use vstd::relations::{sorted_by, total_ordering};
use crate::ripgrep_lines::{
    gap_excess, gap_round, has_wide_gap, is_sorted, sorted_lines, thin_from, total_excess, filtered_lines,
};

verus! {

/// The order `<=` on line numbers, as a relation.
pub open spec fn line_leq() -> spec_fn(usize, usize) -> bool {
    |a: usize, b: usize| a <= b
}

/// `<=` is a total order on line numbers.
pub proof fn lemma_line_leq_total()
    ensures
        total_ordering(line_leq()),
{
}

/// Two sorted sequences with the same elements are equal.
pub proof fn lemma_sorted_unique(a: Seq<usize>, b: Seq<usize>)
    requires
        is_sorted(a),
        is_sorted(b),
        a.to_multiset() == b.to_multiset(),
    ensures
        a == b,
    decreases a.len(),
{
    a.to_multiset_ensures();
    b.to_multiset_ensures();
    if a.len() == 0 {
        assert(b.len() == 0);
        assert(a =~= b);
    } else {
        assert(b.len() == a.len());
        assert(a.contains(a[0]));
        assert(a.to_multiset().count(a[0]) > 0);
        assert(b.to_multiset().count(a[0]) > 0);
        assert(b.contains(a[0]));
        let jb = choose|j: int| 0 <= j < b.len() && b[j] == a[0];
        assert(b[0] <= b[jb]);
        assert(b.contains(b[0]));
        assert(b.to_multiset().count(b[0]) > 0);
        assert(a.to_multiset().count(b[0]) > 0);
        assert(a.contains(b[0]));
        let ja = choose|j: int| 0 <= j < a.len() && a[j] == b[0];
        assert(a[0] <= a[ja]);
        assert(a[0] == b[0]);
        let ta = a.remove(0);
        let tb = b.remove(0);
        assert(ta.to_multiset() == tb.to_multiset());
        assert(is_sorted(ta));
        assert(is_sorted(tb));
        lemma_sorted_unique(ta, tb);
        assert forall|i: int| 0 <= i < a.len() implies a[i] == b[i] by {
            if i > 0 {
                assert(ta[i - 1] == a[i]);
                assert(tb[i - 1] == b[i]);
            }
        }
        assert(a =~= b);
    }
}

/// The sorted form of a sequence of line numbers is sorted and holds the
/// same elements.
pub proof fn lemma_sorted_lines(s: Seq<usize>)
    ensures
        is_sorted(sorted_lines(s)),
        sorted_lines(s).to_multiset() == s.to_multiset(),
{
    lemma_line_leq_total();
    s.lemma_sort_by_ensures(line_leq());
    let t = s.sort_by(line_leq());
    assert(sorted_by(t, line_leq()));
    assert forall|i: int, j: int| 0 <= i < j < t.len() implies t[i] <= t[j] by {
        assert(line_leq()(t[i], t[j]));
    }
}

/// A sorted sequence with the same elements as `s` is the sorted form of `s`.
pub proof fn lemma_is_sorted_lines(s: Seq<usize>, t: Seq<usize>)
    requires
        is_sorted(t),
        t.to_multiset() == s.to_multiset(),
    ensures
        t == sorted_lines(s),
{
    lemma_sorted_lines(s);
    lemma_sorted_unique(t, sorted_lines(s));
}

/// Any two lines two places apart lie more than 50 lines apart.
pub open spec fn spaced(s: Seq<usize>) -> bool {
    forall|a: int, b: int| 0 <= a && b == a + 2 && b < s.len() ==> #[trigger] s[b] - #[trigger] s[a] > 50
}

/// A pass over a sorted sequence whose part before `i` is already spaced
/// leaves a sorted, spaced sequence.
pub proof fn lemma_thin_sorted_spaced(s: Seq<usize>, i: int)
    requires
        0 <= i,
        is_sorted(s),
        forall|a: int, b: int|
            0 <= a < i && b == a + 2 && b < s.len() ==> #[trigger] s[b] - #[trigger] s[a] > 50,
    ensures
        is_sorted(thin_from(s, i)),
        spaced(thin_from(s, i)),
    decreases s.len() - i,
{
    if i + 2 < s.len() {
        if s[i + 2] - s[i] <= 50 {
            let t = s.remove(i + 1);
            s.remove_ensures(i + 1);
            assert forall|a: int, b: int| 0 <= a < b < t.len() implies t[a] <= t[b] by {
                let oa = if a <= i { a } else { a + 1 };
                let ob = if b <= i { b } else { b + 1 };
                assert(t[a] == s[oa]);
                assert(t[b] == s[ob]);
            }
            assert forall|a: int, b: int| 0 <= a < i && b == a + 2 && b < t.len() implies
                #[trigger] t[b] - #[trigger] t[a] > 50 by {
                assert(t[a] == s[a]);
                if b <= i {
                    assert(t[b] == s[b]);
                    assert(s[b] - s[a] > 50);
                } else {
                    assert(t[b] == s[b + 1]);
                    assert(s[b] <= s[b + 1]);
                    assert(s[b] - s[a] > 50);
                }
            }
            lemma_thin_sorted_spaced(t, i);
        } else {
            lemma_thin_sorted_spaced(s, i + 1);
        }
    }
}

/// A pass over a spaced sequence changes nothing.
pub proof fn lemma_thin_spaced_identity(s: Seq<usize>, i: int)
    requires
        0 <= i,
        spaced(s),
    ensures
        thin_from(s, i) == s,
    decreases s.len() - i,
{
    if i + 2 < s.len() {
        assert(s[i + 2] - s[i] > 50);
        lemma_thin_spaced_identity(s, i + 1);
    }
}

/// Some pair of neighbouring lines starting before position `i` lies more
/// than 50 lines apart.
pub open spec fn wide_gap_before(s: Seq<usize>, i: int) -> bool {
    exists|k: int| 0 <= k < i && k + 1 < s.len() && #[trigger] s[k + 1] - s[k] > 50
}

/// The total excess of a sequence with one more line in front.
pub proof fn lemma_excess_cons(x: usize, r: Seq<usize>)
    requires
        r.len() > 0,
    ensures
        total_excess(seq![x] + r) == gap_excess(x, r[0]) + total_excess(r),
{
    assert((seq![x] + r).drop_first() =~= r);
}

/// A round starts with the first line of the sequence, ends with its last
/// line, and is no shorter.
pub proof fn lemma_round_ends(s: Seq<usize>)
    ensures
        gap_round(s).len() >= s.len(),
        s.len() > 0 ==> gap_round(s)[0] == s[0],
        s.len() > 0 ==> gap_round(s).last() == s.last(),
    decreases s.len(),
{
    if s.len() >= 2 {
        let t = s.drop_first();
        lemma_round_ends(t);
    }
}

/// A round never raises the total excess, and lowers it where some gap is
/// wider than 50 lines.
pub proof fn lemma_round_excess(s: Seq<usize>)
    ensures
        total_excess(gap_round(s)) <= total_excess(s),
        has_wide_gap(s) ==> total_excess(gap_round(s)) < total_excess(s),
    decreases s.len(),
{
    if s.len() >= 2 {
        let t = s.drop_first();
        let r = gap_round(t);
        lemma_round_excess(t);
        lemma_round_ends(t);
        assert(r[0] == s[1]);
        if s[1] - s[0] > 50 {
            let m = ((s[0] + s[1]) / 2) as usize;
            assert(gap_round(s) == seq![s[0], m] + r);
            assert(seq![s[0], m] + r =~= seq![s[0]] + (seq![m] + r));
            lemma_excess_cons(m, r);
            lemma_excess_cons(s[0], seq![m] + r);
            assert(gap_excess(s[0], m) + gap_excess(m, s[1]) < gap_excess(s[0], s[1]));
        } else {
            assert(gap_round(s) == seq![s[0]] + r);
            lemma_excess_cons(s[0], r);
            if has_wide_gap(s) {
                let k = choose|k: int| 0 <= k && k + 1 < s.len() && #[trigger] s[k + 1] - s[k] > 50;
                assert(k != 0);
                assert(t[k] - t[k - 1] > 50);
                assert(has_wide_gap(t));
            }
        }
    } else {
        assert(!has_wide_gap(s));
    }
}

/// A round of a sorted sequence is sorted.
pub proof fn lemma_round_sorted(s: Seq<usize>)
    requires
        is_sorted(s),
    ensures
        is_sorted(gap_round(s)),
    decreases s.len(),
{
    if s.len() >= 2 {
        let t = s.drop_first();
        let r = gap_round(t);
        lemma_round_sorted(t);
        lemma_round_ends(t);
        let front = if s[1] - s[0] > 50 {
            seq![s[0], ((s[0] + s[1]) / 2) as usize]
        } else {
            seq![s[0]]
        };
        assert(gap_round(s) == front + r);
        let g = front + r;
        assert forall|a: int, b: int| 0 <= a < b < g.len() implies g[a] <= g[b] by {
            if b >= front.len() {
                assert(g[b] == r[b - front.len()]);
                assert(r[0] <= r[b - front.len()]);
            }
        }
    }
}

/// A round changes nothing where no gap is wider than 50 lines.
pub proof fn lemma_round_identity(s: Seq<usize>)
    requires
        !has_wide_gap(s),
    ensures
        gap_round(s) == s,
    decreases s.len(),
{
    if s.len() >= 2 {
        let t = s.drop_first();
        if s[1] - s[0] > 50 {
            assert(s[0int + 1] - s[0int] > 50);
            assert(has_wide_gap(s));
        }
        assert(!has_wide_gap(t)) by {
            if has_wide_gap(t) {
                let k = choose|k: int| 0 <= k && k + 1 < t.len() && #[trigger] t[k + 1] - t[k] > 50;
                assert(s[k + 2] - s[k + 1] > 50);
            }
        }
        lemma_round_identity(t);
        assert(seq![s[0]] + t =~= s);
    }
}

/// Sorting sorted line numbers changes nothing, so filtering the sorted form
/// of line numbers gives what filtering them gives.
pub proof fn lemma_filtered_of_sorted(s: Seq<usize>)
    ensures
        sorted_lines(sorted_lines(s)) == sorted_lines(s),
        filtered_lines(sorted_lines(s)) == filtered_lines(s),
{
    lemma_sorted_lines(s);
    lemma_is_sorted_lines(sorted_lines(s), sorted_lines(s));
}

/// A pass only drops lines, and keeps the first and the last one.
pub proof fn lemma_thin_keeps_ends(s: Seq<usize>, i: int)
    requires
        0 <= i,
    ensures
        thin_from(s, i).len() <= s.len(),
        forall|x: usize| thin_from(s, i).contains(x) ==> s.contains(x),
        s.len() > 0 ==> thin_from(s, i).len() > 0 && thin_from(s, i)[0] == s[0] && thin_from(s, i).last()
            == s.last(),
    decreases s.len() - i,
{
    if i + 2 < s.len() {
        if s[i + 2] - s[i] <= 50 {
            let t = s.remove(i + 1);
            s.remove_ensures(i + 1);
            lemma_thin_keeps_ends(t, i);
            assert forall|x: usize| t.contains(x) implies s.contains(x) by {
                let k = choose|k: int| 0 <= k < t.len() && t[k] == x;
                if k <= i {
                    assert(s[k] == x);
                } else {
                    assert(s[k + 1] == x);
                }
            }
            assert(t.last() == t[t.len() - 1]);
            assert(t[t.len() - 1] == s[s.len() - 1]);
        } else {
            lemma_thin_keeps_ends(s, i + 1);
        }
    }
}

/// A round keeps every line.
pub proof fn lemma_round_keeps(s: Seq<usize>)
    ensures
        forall|x: usize| s.contains(x) ==> gap_round(s).contains(x),
    decreases s.len(),
{
    if s.len() >= 2 {
        let t = s.drop_first();
        lemma_round_keeps(t);
        let r = gap_round(t);
        let front = if s[1] - s[0] > 50 {
            seq![s[0], ((s[0] + s[1]) / 2) as usize]
        } else {
            seq![s[0]]
        };
        assert(gap_round(s) == front + r);
        assert forall|x: usize| s.contains(x) implies gap_round(s).contains(x) by {
            let k = choose|k: int| 0 <= k < s.len() && s[k] == x;
            if k == 0 {
                assert((front + r)[0] == x);
            } else {
                assert(t[k - 1] == x);
                assert(t.contains(x));
                assert(r.contains(x));
                let m = choose|m: int| 0 <= m < r.len() && r[m] == x;
                assert((front + r)[front.len() + m] == x);
            }
        }
    }
}

/// Interval filtering leaves a sorted, spaced sequence.
pub proof fn lemma_filtered_sorted(s: Seq<usize>)
    ensures
        is_sorted(filtered_lines(s)),
        spaced(filtered_lines(s)),
{
    lemma_sorted_lines(s);
    lemma_thin_sorted_spaced(sorted_lines(s), 0);
}

} // verus!
