use vstd::prelude::*;
use crate::line_lemmas::{
    lemma_is_sorted_lines, lemma_thin_sorted_spaced, lemma_round_excess, lemma_round_sorted,
    lemma_round_identity, wide_gap_before, lemma_filtered_sorted, lemma_filtered_of_sorted, lemma_thin_spaced_identity, spaced,
};

verus! {

/// Line numbers are kept in non-decreasing order.
pub open spec fn is_sorted(s: Seq<usize>) -> bool {
    forall|i: int, j: int| 0 <= i < j < s.len() ==> s[i] <= s[j]
}

/// The line numbers of `s` in non-decreasing order: the one sorted
/// rearrangement of `s` (see `lemma_is_sorted_lines`).
pub open spec fn sorted_lines(s: Seq<usize>) -> Seq<usize> {
    s.sort_by(crate::line_lemmas::line_leq())
}

/// One left-to-right pass of interval filtering from position `i` on: where
/// the line two places ahead lies at most 50 lines further, the line in
/// between is dropped and the same position is looked at again; otherwise
/// the pass moves on to the next position.
pub open spec fn thin_from(s: Seq<usize>, i: int) -> Seq<usize>
    decreases s.len() - i,
{
    if 0 <= i && i + 2 < s.len() {
        if s[i + 2] - s[i] <= 50 {
            thin_from(s.remove(i + 1), i)
        } else {
            thin_from(s, i + 1)
        }
    } else {
        s
    }
}

/// What interval filtering leaves of the line numbers `s`: their sorted
/// form, thinned by one pass.
pub open spec fn filtered_lines(s: Seq<usize>) -> Seq<usize> {
    thin_from(sorted_lines(s), 0)
}

/// The lines of `l` that the merge cursor collects for the window from `lo`
/// to `hi`, starting at position `j` of `l`, and the position where the
/// cursor stops: lines up to `lo` are passed over, lines after `lo` up to
/// `hi` are collected, and the cursor stops at the first line after `hi`.
pub open spec fn window_lines(l: Seq<usize>, j: int, lo: usize, hi: usize) -> (Seq<usize>, int)
    decreases l.len() - j,
{
    if 0 <= j < l.len() {
        if l[j] <= lo {
            window_lines(l, j + 1, lo, hi)
        } else if l[j] > hi {
            (Seq::empty(), j)
        } else {
            let rest = window_lines(l, j + 1, lo, hi);
            (seq![l[j]] + rest.0, rest.1)
        }
    } else {
        (Seq::empty(), j)
    }
}

/// The merge of `l` into `s` from the pair at position `i` of `s` on, with
/// the cursor into `l` at position `j`: every pair of neighbouring lines of
/// `s` is written out, and after a pair more than 50 lines apart come the
/// lines of `l` that the cursor collects for that pair.
pub open spec fn merge_from(s: Seq<usize>, l: Seq<usize>, i: int, j: int) -> Seq<usize>
    decreases s.len() - i,
{
    if 0 <= i && i + 1 < s.len() {
        let pair = seq![s[i], s[i + 1]];
        if s[i + 1] - s[i] > 50 {
            let w = window_lines(l, j, s[i], s[i + 1]);
            pair + w.0 + merge_from(s, l, i + 1, w.1)
        } else {
            pair + merge_from(s, l, i + 1, j)
        }
    } else {
        Seq::empty()
    }
}

/// The result of merging the lines `l` into the lines `s`.
pub open spec fn merged_lines(s: Seq<usize>, l: Seq<usize>) -> Seq<usize> {
    merge_from(s, l, 0, 0)
}

/// Two neighbouring lines more than 50 lines apart.
pub open spec fn has_wide_gap(s: Seq<usize>) -> bool {
    exists|i: int| 0 <= i && i + 1 < s.len() && #[trigger] s[i + 1] - s[i] > 50
}

/// One round of gap filling: between every two neighbouring lines more than
/// 50 lines apart, the line halfway between them is put in.
pub open spec fn gap_round(s: Seq<usize>) -> Seq<usize>
    decreases s.len(),
{
    if s.len() < 2 {
        s
    } else if s[1] - s[0] > 50 {
        seq![s[0], ((s[0] + s[1]) / 2) as usize] + gap_round(s.drop_first())
    } else {
        seq![s[0]] + gap_round(s.drop_first())
    }
}

/// How far the gap between `a` and `b` exceeds 50 lines.
pub open spec fn gap_excess(a: usize, b: usize) -> nat {
    if b - a > 50 {
        (b - a - 50) as nat
    } else {
        0
    }
}

/// The sum of the gap excesses of all neighbouring pairs.
pub open spec fn total_excess(s: Seq<usize>) -> nat
    decreases s.len(),
{
    if s.len() < 2 {
        0
    } else {
        gap_excess(s[0], s[1]) + total_excess(s.drop_first())
    }
}

/// Gap filling: rounds are repeated for as long as two neighbouring lines lie
/// more than 50 lines apart.
pub open spec fn filled_lines(s: Seq<usize>) -> Seq<usize>
    decreases total_excess(s),
    via filled_lines_terminates
{
    if has_wide_gap(s) {
        filled_lines(gap_round(s))
    } else {
        s
    }
}

#[via_fn]
proof fn filled_lines_terminates(s: Seq<usize>) {
    if has_wide_gap(s) {
        lemma_round_excess(s);
    }
}

/// Sorts line numbers in place with the standard library's slice sort.
/// Its documentation promises that the slice comes out in non-decreasing
/// order and holds the same elements, each as often as before.
#[verifier::external_body]
fn sort_line_numbers(v: &mut Vec<usize>)
    ensures
        is_sorted(final(v)@),
        final(v)@.to_multiset() == old(v)@.to_multiset(),
{
    v.sort();
}

/// A list of line numbers of a source file.
#[derive(Debug)]
pub struct SortedLineNumbers {
    lines: Vec<usize>,
}

impl View for SortedLineNumbers {
    type V = Seq<usize>;

    closed spec fn view(&self) -> Seq<usize> {
        self.lines@
    }
}

impl SortedLineNumbers {
    /// An empty list.
    pub fn new() -> (res: Self)
        ensures
            res@ == Seq::<usize>::empty(),
    {
        SortedLineNumbers { lines: Vec::new() }
    }

    /// The given line numbers, sorted.
    pub fn from_vec(lines: Vec<usize>) -> (res: Self)
        ensures
            res@ == sorted_lines(lines@),
    {
        let mut sorted_lines = SortedLineNumbers::new();
        sorted_lines.lines = lines;
        sort_line_numbers(&mut sorted_lines.lines);
        proof {
            lemma_is_sorted_lines(lines@, sorted_lines.lines@);
        }
        sorted_lines
    }
}

impl SortedLineNumbers {
    /// The lines of the list.
    pub fn get_lines(&self) -> (res: &Vec<usize>)
        ensures
            res@ == self@,
    {
        &self.lines
    }

    /// A copy of the lines of the list.
    pub fn to_vec(&self) -> (res: Vec<usize>)
        ensures
            res@ == self@,
    {
        let res = self.lines.clone();
        assert(res@ =~= self.lines@);
        res
    }

    /// Rebuilds the list from its neighbouring pairs: each pair of
    /// neighbouring lines is written out, and where the two lie more than 50
    /// lines apart, the lines of `lines` that fall after the first and up to
    /// the second are written after the pair. One cursor walks through
    /// `lines` for the whole merge.
    pub fn merge(&mut self, lines: SortedLineNumbers)
        requires
            is_sorted(old(self)@),
        ensures
            final(self)@ == merged_lines(old(self)@, lines@),
    {
        let mut merged: Vec<usize> = Vec::new();
        let n = self.lines.len();
        let m = lines.lines.len();
        let ghost s = self.lines@;
        let ghost l = lines.lines@;
        let mut j: usize = 0;
        let mut i: usize = 0;
        while i < n
            invariant
                n == s.len(),
                m == l.len(),
                s == self.lines@,
                l == lines.lines@,
                is_sorted(s),
                i <= n,
                j <= m,
                merged@ + merge_from(s, l, i as int, j as int) == merged_lines(s, l),
            decreases n - i,
        {
            if i + 1 < n {
                let self_val = self.lines[i];
                let next_self = self.lines[i + 1];
                let ghost before = merged@;
                let ghost j0 = j as int;
                merged.push(self_val);
                merged.push(next_self);
                let ghost pair = seq![self_val, next_self];
                assert(merged@ == before + pair);
                let diff = next_self - self_val;
                if diff > 50 {
                    let ghost w = window_lines(l, j0, self_val, next_self);
                    let ghost base = merged@;
                    while j < m
                        invariant
                            m == l.len(),
                            l == lines.lines@,
                            j <= m,
                            window_lines(l, j as int, self_val, next_self).1 == w.1,
                            merged@ + window_lines(l, j as int, self_val, next_self).0 == base
                                + w.0,
                        ensures
                            j == w.1,
                            j <= m,
                            merged@ == base + w.0,
                        decreases m - j,
                    {
                        let lines_val = lines.lines[j];
                        if lines_val <= self_val {
                            j += 1;
                        } else {
                            if lines_val > next_self {
                                assert(merged@ =~= base + w.0);
                                break;
                            }
                            let ghost rest = window_lines(l, j + 1, self_val, next_self);
                            let ghost m0 = merged@;
                            merged.push(lines_val);
                            assert(merged@ + rest.0 =~= m0 + (seq![lines_val] + rest.0));
                            j += 1;
                        }
                    }
                    proof {
                        assert(merge_from(s, l, i as int, j0) == pair + w.0 + merge_from(
                            s,
                            l,
                            i + 1,
                            w.1,
                        ));
                        assert(merged@ + merge_from(s, l, i + 1, j as int) =~= before + merge_from(
                            s,
                            l,
                            i as int,
                            j0,
                        ));
                    }
                } else {
                    assert(merged@ + merge_from(s, l, i + 1, j as int) =~= before + merge_from(
                        s,
                        l,
                        i as int,
                        j0,
                    ));
                }
            }
            i += 1;
        }
        proof {
            assert(merged@ =~= merged_lines(s, l));
        }
        self.lines = merged;
    }

    /// Puts in the line halfway between any two neighbouring lines more than
    /// 50 lines apart, round after round, until no two neighbouring lines
    /// are more than 50 lines apart.
    pub fn fill_line_gaps(&mut self)
        requires
            is_sorted(old(self)@),
        ensures
            final(self)@ == filled_lines(old(self)@),
    {
        let ghost orig = self.lines@;
        let mut is_gap_greater_than_50 = true;
        while is_gap_greater_than_50
            invariant
                is_sorted(self.lines@),
                filled_lines(self.lines@) == filled_lines(orig),
                !is_gap_greater_than_50 ==> !has_wide_gap(self.lines@),
            decreases total_excess(self.lines@) + (if is_gap_greater_than_50 {
                1int
            } else {
                0int
            }),
        {
            let mut merged: Vec<usize> = Vec::new();
            let n = self.lines.len();
            let ghost s = self.lines@;
            is_gap_greater_than_50 = false;
            let mut i: usize = 0;
            assert(s.subrange(0, n as int) =~= s);
            assert(merged@ + gap_round(s.subrange(0, n as int)) =~= gap_round(s));
            while i < n
                invariant
                    s == self.lines@,
                    n == s.len(),
                    i <= n,
                    is_sorted(s),
                    merged@ + gap_round(s.subrange(i as int, n as int)) == gap_round(s),
                    is_gap_greater_than_50 <==> wide_gap_before(s, i as int),
                decreases n - i,
            {
                let ghost before = merged@;
                let ghost rest = s.subrange(i as int, n as int);
                assert(rest.drop_first() =~= s.subrange(i + 1, n as int));
                let self_val = self.lines[i];
                merged.push(self_val);
                if i + 1 < n {
                    let next_self = self.lines[i + 1];
                    let diff = next_self - self_val;
                    if diff > 50 {
                        let new_element = self_val + diff / 2;
                        assert(new_element == ((self_val + next_self) / 2) as usize);
                        merged.push(new_element);
                        is_gap_greater_than_50 = true;
                        assert(merged@ =~= before + seq![self_val, new_element]);
                    } else {
                        assert(merged@ =~= before + seq![self_val]);
                    }
                    assert(merged@ + gap_round(s.subrange(i + 1, n as int)) =~= before + gap_round(
                        rest,
                    ));
                } else {
                    assert(rest =~= seq![self_val]);
                    assert(s.subrange(i + 1, n as int) =~= Seq::<usize>::empty());
                    assert(merged@ + gap_round(s.subrange(i + 1, n as int)) =~= before + gap_round(
                        rest,
                    ));
                }
                i += 1;
            }
            proof {
                assert(s.subrange(n as int, n as int) =~= Seq::<usize>::empty());
                assert(merged@ =~= gap_round(s));
                lemma_round_sorted(s);
                if is_gap_greater_than_50 {
                    assert(has_wide_gap(s));
                    lemma_round_excess(s);
                } else {
                    assert(!has_wide_gap(s));
                    lemma_round_identity(s);
                }
            }
            self.lines = merged;
        }
    }

    /// Sorts the lines, then, going from the first line on, drops a line
    /// wherever the line before it and the line after it lie at most 50
    /// lines apart, until no such line is left. The list keeps the result
    /// and a copy of it is returned.
    pub fn filter_line_intervals(&mut self) -> (res: SortedLineNumbers)
        ensures
            final(self)@ == filtered_lines(old(self)@),
            res@ == final(self)@,
    {
        let ghost orig = self.lines@;
        sort_line_numbers(&mut self.lines);
        proof {
            lemma_is_sorted_lines(orig, self.lines@);
            lemma_thin_sorted_spaced(self.lines@, 0);
        }
        let ghost target = thin_from(self.lines@, 0);
        let mut is_changed = true;
        while is_changed
            invariant
                is_sorted(self.lines@),
                target == filtered_lines(orig),
                is_sorted(target),
                spaced(target),
                is_changed ==> thin_from(self.lines@, 0) == target,
                !is_changed ==> self.lines@ == target,
            decreases self.lines@.len() + (if is_changed { 1int } else { 0int }),
        {
            is_changed = false;
            let ghost start = self.lines@;
            let mut i: usize = 0;
            while i < self.lines.len()
                invariant
                    is_sorted(self.lines@),
                    thin_from(self.lines@, i as int) == thin_from(start, 0),
                    is_changed ==> self.lines@.len() < start.len(),
                    !is_changed ==> self.lines@ == start,
                decreases self.lines@.len() - i,
            {
                let current_line = self.lines[i];
                if self.lines.len() - i > 2 {
                    let next_line = self.lines[i + 2];
                    if next_line - current_line <= 50 {
                        let ghost before = self.lines@;
                        self.lines.remove(i + 1);
                        proof {
                            assert(self.lines@ == before.remove(i + 1));
                            before.remove_ensures(i + 1);
                            assert(is_sorted(self.lines@)) by {
                                assert forall|a: int, b: int|
                                    0 <= a < b < self.lines@.len() implies
                                    self.lines@[a] <= self.lines@[b] by {
                                    let oa = if a <= i { a } else { a + 1 };
                                    let ob = if b <= i { b } else { b + 1 };
                                    assert(self.lines@[a] == before[oa]);
                                    assert(self.lines@[b] == before[ob]);
                                }
                            }
                        }
                        is_changed = true;
                    } else {
                        i += 1;
                    }
                } else {
                    i += 1;
                }
            }
            proof {
                assert(self.lines@ == thin_from(start, 0));
                if is_changed {
                    lemma_thin_spaced_identity(target, 0);
                }
            }
        }
        let copy = self.lines.clone();
        proof {
            assert(copy@ =~= self.lines@);
            lemma_is_sorted_lines(self.lines@, self.lines@);
        }
        SortedLineNumbers::from_vec(copy)
    }
}

/// The line numbers worked out for one file, with the filtered lists of both
/// patterns along the way.
pub struct LineReport {
    /// Lines of the first pattern after interval filtering.
    pub first_filtered: Vec<usize>,
    /// Lines of the second pattern after interval filtering.
    pub second_filtered: Vec<usize>,
    /// The final line numbers.
    pub result: Vec<usize>,
}

/// The line numbers at which a file is cut, from the lines matched by the
/// pattern of top-level closing braces and by the pattern of indented ones.
pub open spec fn cut_lines(first: Seq<usize>, second: Seq<usize>) -> Seq<usize> {
    filled_lines(filtered_lines(merged_lines(filtered_lines(first), filtered_lines(second))))
}

/// Works out where to cut a file from the lines that the two patterns
/// matched: both lists are sorted and filtered, the second is merged into
/// the gaps of the first, the merge is filtered again, and the gaps of the
/// result are filled.
pub fn process_line_numbers(first_pattern_lines: Vec<usize>, second_pattern_lines: Vec<usize>) -> (report: LineReport)
    ensures
        report.first_filtered@ == filtered_lines(first_pattern_lines@),
        report.second_filtered@ == filtered_lines(second_pattern_lines@),
        report.result@ == cut_lines(first_pattern_lines@, second_pattern_lines@),
        report.result@ == filled_lines(
            filtered_lines(merged_lines(report.first_filtered@, report.second_filtered@)),
        ),
{
    let mut first_lines = SortedLineNumbers::from_vec(first_pattern_lines);
    let first_filtered = first_lines.filter_line_intervals();
    let mut second_lines = SortedLineNumbers::from_vec(second_pattern_lines);
    let second_filtered = second_lines.filter_line_intervals();
    let first_copy = first_filtered.to_vec();
    let second_copy = second_filtered.to_vec();
    proof {
        lemma_filtered_of_sorted(first_pattern_lines@);
        lemma_filtered_of_sorted(second_pattern_lines@);
        lemma_filtered_sorted(first_pattern_lines@);
    }
    first_lines.merge(second_filtered);
    let mut final_lines = first_lines.filter_line_intervals();
    proof {
        lemma_filtered_sorted(merged_lines(first_filtered@, second_copy@));
    }
    final_lines.fill_line_gaps();
    LineReport { first_filtered: first_copy, second_filtered: second_copy, result: final_lines.to_vec() }
}

/// The line numbers that a search found, with line 0 put in front; an empty
/// list where the search failed.
pub fn get_fileline_numbers(ripgrep_result: Result<Vec<usize>, String>) -> (res: Vec<usize>)
    ensures
        match ripgrep_result {
            Ok(lines) => res@ == seq![0usize] + lines@,
            Err(_) => res@ == Seq::<usize>::empty(),
        },
{
    match ripgrep_result {
        Ok(lines) => {
            let mut lines = lines;
            let ghost found = lines@;
            lines.insert(0, 0);
            assert(lines@ =~= seq![0usize] + found);
            lines
        },
        Err(_) => Vec::new(),
    }
}

} // verus!
