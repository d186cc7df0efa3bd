use vstd::prelude::*;
use crate::ripgrep_lines::{
    cut_lines, filled_lines, filtered_lines, gap_round, has_wide_gap, is_sorted, merge_from,
    merged_lines, sorted_lines, thin_from, total_excess, window_lines,
};
use crate::line_lemmas::{
    lemma_filtered_of_sorted, lemma_filtered_sorted, lemma_is_sorted_lines, lemma_round_ends,
    lemma_round_excess, lemma_round_identity, lemma_round_keeps, lemma_round_sorted,
    lemma_sorted_lines, lemma_thin_keeps_ends, lemma_thin_spaced_identity, spaced,
};

verus! {

/// Interval filtering leaves sorted lines, any two of them two places apart
/// more than 50 lines apart; it keeps only lines of the input, and keeps
/// the smallest and the largest of them.
pub proof fn filtering_leaves_spaced_lines(s: Seq<usize>)
    ensures
        is_sorted(filtered_lines(s)),
        spaced(filtered_lines(s)),
        filtered_lines(s).len() <= s.len(),
        forall|x: usize| filtered_lines(s).contains(x) ==> s.contains(x),
        s.len() > 0 ==> {
            &&& filtered_lines(s).len() > 0
            &&& filtered_lines(s)[0] == sorted_lines(s)[0]
            &&& filtered_lines(s).last() == sorted_lines(s).last()
        },
{
    lemma_filtered_sorted(s);
    lemma_sorted_lines(s);
    let t = sorted_lines(s);
    lemma_thin_keeps_ends(t, 0);
    t.to_multiset_ensures();
    s.to_multiset_ensures();
    assert forall|x: usize| filtered_lines(s).contains(x) implies s.contains(x) by {
        assert(t.contains(x));
        assert(t.to_multiset().count(x) > 0);
        assert(s.to_multiset().count(x) > 0);
    }
}

/// Filtering lines that were filtered already changes nothing.
pub proof fn filtering_is_idempotent(s: Seq<usize>)
    ensures
        filtered_lines(filtered_lines(s)) == filtered_lines(s),
{
    let f = filtered_lines(s);
    lemma_filtered_sorted(s);
    lemma_is_sorted_lines(f, f);
    lemma_thin_spaced_identity(f, 0);
}

/// The lines after `lo` up to `hi`.
pub open spec fn in_window(lo: usize, hi: usize) -> spec_fn(usize) -> bool {
    |x: usize| lo < x && x <= hi
}

/// Each pair of neighbouring lines of `s` from position `i` on, followed,
/// where the two lie more than 50 lines apart, by the lines of `l` that
/// fall after the first and up to the second.
pub open spec fn merge_by_windows(s: Seq<usize>, l: Seq<usize>, i: int) -> Seq<usize>
    decreases s.len() - i,
{
    if 0 <= i && i + 1 < s.len() {
        seq![s[i], s[i + 1]] + (if s[i + 1] - s[i] > 50 {
            l.filter(in_window(s[i], s[i + 1]))
        } else {
            Seq::empty()
        }) + merge_by_windows(s, l, i + 1)
    } else {
        Seq::empty()
    }
}

proof fn lemma_window_tail(l: Seq<usize>, j: int, lo: usize, hi: usize)
    requires
        is_sorted(l),
        0 <= j <= l.len(),
        lo <= hi,
    ensures
        window_lines(l, j, lo, hi).0 == l.subrange(j, l.len() as int).filter(in_window(lo, hi)),
        j <= window_lines(l, j, lo, hi).1 <= l.len(),
        forall|t: int| j <= t < window_lines(l, j, lo, hi).1 ==> #[trigger] l[t] <= hi,
    decreases l.len() - j,
{
    let pred = in_window(lo, hi);
    let tail = l.subrange(j, l.len() as int);
    if j < l.len() {
        let next = l.subrange(j + 1, l.len() as int);
        assert(tail =~= seq![l[j]] + next);
        next.lemma_filter_prepend(l[j], pred);
        if l[j] <= lo {
            lemma_window_tail(l, j + 1, lo, hi);
        } else if l[j] > hi {
            assert forall|t: int| 0 <= t < tail.len() implies !pred(#[trigger] tail[t]) by {
                assert(tail[t] == l[j + t]);
                assert(l[j] <= l[j + t]);
            }
            tail.lemma_all_neg_filter_empty(pred);
            assert(tail.filter(pred) =~= Seq::<usize>::empty());
        } else {
            lemma_window_tail(l, j + 1, lo, hi);
        }
    } else {
        assert(tail =~= Seq::<usize>::empty());
        assert(tail.filter(pred) =~= Seq::<usize>::empty()) by {
            tail.lemma_all_neg_filter_empty(pred);
        }
    }
}

proof fn lemma_merge_windows_from(s: Seq<usize>, l: Seq<usize>, i: int, j: int)
    requires
        is_sorted(s),
        is_sorted(l),
        0 <= i,
        0 <= j <= l.len(),
        i < s.len() ==> forall|t: int| 0 <= t < j ==> #[trigger] l[t] <= s[i],
    ensures
        merge_from(s, l, i, j) == merge_by_windows(s, l, i),
    decreases s.len() - i,
{
    if i + 1 < s.len() {
        if s[i + 1] - s[i] > 50 {
            let lo = s[i];
            let hi = s[i + 1];
            let pred = in_window(lo, hi);
            lemma_window_tail(l, j, lo, hi);
            let w = window_lines(l, j, lo, hi);
            let head = l.subrange(0, j);
            assert(l =~= head + l.subrange(j, l.len() as int));
            Seq::filter_distributes_over_add(head, l.subrange(j, l.len() as int), pred);
            assert forall|t: int| 0 <= t < head.len() implies !pred(#[trigger] head[t]) by {
                assert(head[t] == l[t]);
            }
            head.lemma_all_neg_filter_empty(pred);
            assert(head.filter(pred) =~= Seq::<usize>::empty());
            assert(w.0 =~= l.filter(pred));
            assert forall|t: int| 0 <= t < w.1 implies #[trigger] l[t] <= s[i + 1] by {
                if t < j {
                    assert(l[t] <= s[i]);
                }
            }
            lemma_merge_windows_from(s, l, i + 1, w.1);
        } else {
            assert forall|t: int| 0 <= t < j implies #[trigger] l[t] <= s[i + 1] by {
                assert(l[t] <= s[i]);
            }
            lemma_merge_windows_from(s, l, i + 1, j);
        }
    }
}

/// Merging sorted lines into sorted lines writes out every pair of
/// neighbouring lines, each followed, where the two lie more than 50 lines
/// apart, by exactly those merged-in lines that fall after the first and up
/// to the second.
pub proof fn merge_fills_wide_gaps(s: Seq<usize>, l: Seq<usize>)
    requires
        is_sorted(s),
        is_sorted(l),
    ensures
        merged_lines(s, l) == merge_by_windows(s, l, 0),
{
    lemma_merge_windows_from(s, l, 0, 0);
}

/// Gap filling leaves sorted lines with no two neighbours more than 50
/// lines apart; it keeps every line, and the first and the last line stay
/// first and last. Lines without such a gap are left as they are.
pub proof fn filling_closes_gaps(s: Seq<usize>)
    requires
        is_sorted(s),
    ensures
        is_sorted(filled_lines(s)),
        !has_wide_gap(filled_lines(s)),
        forall|x: usize| s.contains(x) ==> filled_lines(s).contains(x),
        s.len() > 0 ==> filled_lines(s).len() > 0 && filled_lines(s)[0] == s[0]
            && filled_lines(s).last() == s.last(),
        !has_wide_gap(s) ==> filled_lines(s) == s,
    decreases total_excess(s),
{
    if has_wide_gap(s) {
        let r = gap_round(s);
        lemma_round_excess(s);
        lemma_round_sorted(s);
        lemma_round_keeps(s);
        lemma_round_ends(s);
        filling_closes_gaps(r);
    }
}

/// The lines at which a file is cut are sorted, and no two neighbours lie
/// more than 50 lines apart.
pub proof fn cut_lines_close_gaps(first: Seq<usize>, second: Seq<usize>)
    ensures
        is_sorted(cut_lines(first, second)),
        !has_wide_gap(cut_lines(first, second)),
{
    let merged = merged_lines(filtered_lines(first), filtered_lines(second));
    lemma_filtered_sorted(merged);
    filling_closes_gaps(filtered_lines(merged));
}

/// A round over one line, or none, changes nothing.
pub proof fn round_of_one_line(s: Seq<usize>)
    requires
        s.len() <= 1,
    ensures
        gap_round(s) == s,
{
}

/// A round over two lines more than 50 lines apart puts in the line
/// halfway between them, rounded down; between closer lines it puts in
/// nothing.
pub proof fn round_of_two_lines(a: usize, b: usize)
    ensures
        gap_round(seq![a, b]) == if b - a > 50 {
            seq![a, ((a + b) / 2) as usize, b]
        } else {
            seq![a, b]
        },
{
    let s = seq![a, b];
    assert(s.drop_first() =~= seq![b]);
    assert(s[0] == a && s[1] == b);
    assert(gap_round(seq![b]) == seq![b]);
    if b - a > 50 {
        assert(seq![a, ((a + b) / 2) as usize] + seq![b] =~= seq![a, ((a + b) / 2) as usize, b]);
    } else {
        assert(seq![a] + seq![b] =~= seq![a, b]);
    }
}

/// A round treats each pair of neighbours on its own: a round over `s1`
/// followed by `s2` is the round over `s1` with the first line of `s2`
/// put after it, without that last line, followed by the round over `s2`.
pub proof fn round_splits_between_lines(s1: Seq<usize>, s2: Seq<usize>)
    requires
        s1.len() > 0,
        s2.len() > 0,
    ensures
        gap_round(s1 + s2) == gap_round(s1.push(s2[0])).drop_last() + gap_round(s2),
    decreases s1.len(),
{
    let x = s1[0];
    let front = if s2[0] - x > 50 {
        seq![x, ((x + s2[0]) / 2) as usize]
    } else {
        seq![x]
    };
    if s1.len() == 1 {
        assert((s1 + s2).drop_first() =~= s2);
        assert(s1.push(s2[0]) =~= seq![x, s2[0]]);
        round_of_two_lines(x, s2[0]);
        assert(gap_round(s1.push(s2[0])).drop_last() =~= front);
    } else {
        let rest = s1.drop_first();
        round_splits_between_lines(rest, s2);
        assert((s1 + s2).drop_first() =~= rest + s2);
        assert(s1.push(s2[0]).drop_first() =~= rest.push(s2[0]));
        let front1 = if s1[1] - x > 50 {
            seq![x, ((x + s1[1]) / 2) as usize]
        } else {
            seq![x]
        };
        assert((s1 + s2)[1] == s1[1]);
        assert(s1.push(s2[0])[1] == s1[1]);
        let r = gap_round(rest.push(s2[0]));
        lemma_round_ends(rest.push(s2[0]));
        assert((front1 + r).drop_last() =~= front1 + r.drop_last());
        assert(front1 + (r.drop_last() + gap_round(s2)) =~= front1 + r.drop_last() + gap_round(s2));
    }
}

/// Filling repeats rounds: where some neighbours lie more than 50 lines
/// apart, filling gives what filling the result of one round gives.
pub proof fn filling_repeats_rounds(s: Seq<usize>)
    requires
        has_wide_gap(s),
    ensures
        filled_lines(s) == filled_lines(gap_round(s)),
{
}

proof fn lemma_thin_shift(s: Seq<usize>, i: int)
    requires
        0 <= i,
        s.len() > 0,
    ensures
        thin_from(s, i + 1) == seq![s[0]] + thin_from(s.drop_first(), i),
    decreases s.len() - i,
{
    let t = s.drop_first();
    if i + 3 < s.len() {
        assert(t[i + 2] == s[i + 3] && t[i] == s[i + 1]);
        if s[i + 3] - s[i + 1] <= 50 {
            let r = s.remove(i + 2);
            assert(r.len() > 0);
            assert(r.drop_first() =~= t.remove(i + 1));
            assert(r[0] == s[0]);
            lemma_thin_shift(r, i);
        } else {
            lemma_thin_shift(s, i + 1);
        }
    } else {
        assert(seq![s[0]] + t =~= s);
    }
}

/// Filtering walks the sorted lines from the front: where the third line
/// lies more than 50 lines after the first, the first line is kept and
/// filtering goes on from the second; otherwise the second line is dropped
/// and filtering starts over on what is left.
pub proof fn filtering_walks_from_the_front(s: Seq<usize>)
    requires
        is_sorted(s),
        s.len() >= 3,
    ensures
        s[2] - s[0] > 50 ==> thin_from(s, 0) == seq![s[0]] + thin_from(s.drop_first(), 0),
        s[2] - s[0] <= 50 ==> thin_from(s, 0) == thin_from(s.remove(1), 0),
        filtered_lines(s) == thin_from(s, 0),
{
    if s[2] - s[0] > 50 {
        lemma_thin_shift(s, 0);
    }
    lemma_is_sorted_lines(s, s);
}

} // verus!
