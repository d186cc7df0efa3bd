use vstd::prelude::*;
use vstd::utf8::encode_utf8;
use crate::code_chunk::CodeChunk;
use crate::chunk_order::{
    bytes_lt, chunk_key, chunks_sorted, has_key, key_lt, stably_sorted, with_key, lemma_bytes_lt_total,
    lemma_key_lt_asymmetric,
};
use crate::file_chunks::{chunk_end, chunk_start, ends_in_order, holds_lines, kept_chunk_ids};
use crate::load_chunks::{chunk_count, documented_count, documented_named, file_names, named};

verus! {

proof fn lemma_tiling_prefix(lines: Seq<usize>, total: nat, n: int)
    requires
        ends_in_order(lines, total),
        0 <= n <= lines.len(),
    ensures
        ({
            let kept = Seq::new(n as nat, |k: int| k).filter(holds_lines(lines, total));
            &&& kept.len() == 0 ==> chunk_start(lines, total, n) == 0
            &&& kept.len() > 0 ==> chunk_start(lines, total, kept[0]) == 0
            &&& kept.len() > 0 ==> chunk_end(lines[kept.last()], total) == chunk_start(lines, total, n)
            &&& forall|t: int|
                0 <= t < kept.len() ==> 0 <= #[trigger] kept[t] < n && chunk_start(lines, total, kept[t])
                    < chunk_end(lines[kept[t]], total)
            &&& forall|t: int|
                0 <= t < kept.len() - 1 ==> chunk_start(lines, total, #[trigger] kept[t + 1])
                    == chunk_end(lines[kept[t]], total)
        }),
    decreases n,
{
    let pred = holds_lines(lines, total);
    if n > 0 {
        let m = n - 1;
        lemma_tiling_prefix(lines, total, m);
        let prev = Seq::new(m as nat, |k: int| k);
        assert(Seq::new(n as nat, |k: int| k) =~= prev.push(m));
        prev.lemma_filter_push(m, pred);
        if m > 0 {
            assert(chunk_end(lines[m - 1], total) <= chunk_end(lines[m], total));
        }
    } else {
        let none = Seq::new(0, |k: int| k);
        assert(none =~= Seq::<int>::empty());
        none.lemma_all_neg_filter_empty(pred);
    }
}

/// The chunks of a file leave no line out and take no line twice: the first
/// chunk starts at the top of the file, each further chunk starts where the
/// one before it ends, every chunk holds lines, and the last one ends where
/// the chunk of the last cut line would end.
pub proof fn file_chunks_tile_the_file(lines: Seq<usize>, total: nat)
    requires
        ends_in_order(lines, total),
    ensures
        ({
            let kept = kept_chunk_ids(lines, total);
            &&& kept.len() > 0 ==> chunk_start(lines, total, kept[0]) == 0
            &&& forall|t: int|
                0 <= t < kept.len() - 1 ==> chunk_start(lines, total, #[trigger] kept[t + 1])
                    == chunk_end(lines[kept[t]], total)
            &&& forall|t: int|
                0 <= t < kept.len() ==> chunk_start(lines, total, #[trigger] kept[t]) < chunk_end(
                    lines[kept[t]],
                    total,
                )
            &&& kept.len() > 0 ==> chunk_end(lines[kept.last()], total) == chunk_end(lines.last(), total)
            &&& kept.len() == 0 && lines.len() > 0 ==> chunk_end(lines.last(), total) == 0
        }),
{
    lemma_tiling_prefix(lines, total, lines.len() as int);
}

/// The file names of chunks are each named once, every chunk's file name is
/// among them, and each of them has at least one chunk.
pub proof fn file_names_cover_chunks(s: Seq<CodeChunk>)
    ensures
        file_names(s).no_duplicates(),
        forall|i: int| 0 <= i < s.len() ==> file_names(s).contains(#[trigger] s[i].filename@),
        forall|t: int| 0 <= t < file_names(s).len() ==> chunk_count(s, #[trigger] file_names(s)[t]) > 0,
    decreases s.len(),
{
    if s.len() > 0 {
        let d = s.drop_last();
        file_names_cover_chunks(d);
        let last = s.last();
        assert(s =~= d.push(last));
        let names = file_names(s);
        let earlier = file_names(d);
        assert forall|i: int| 0 <= i < s.len() implies names.contains(#[trigger] s[i].filename@) by {
            if i < s.len() - 1 {
                assert(d[i] == s[i]);
                assert(earlier.contains(d[i].filename@));
                if !earlier.contains(last.filename@) {
                    let u = choose|u: int| 0 <= u < earlier.len() && earlier[u] == s[i].filename@;
                    assert(names[u] == s[i].filename@);
                }
            } else if !earlier.contains(last.filename@) {
                assert(names[earlier.len() as int] == last.filename@);
            }
        }
        assert forall|t: int| 0 <= t < names.len() implies chunk_count(s, #[trigger] names[t]) > 0 by {
            d.lemma_filter_push(last, named(names[t]));
            if t < earlier.len() {
                assert(names[t] == earlier[t]);
                assert(chunk_count(d, earlier[t]) > 0);
            }
        }
    }
}

/// The numbers of chunks of the files `names`, added up.
pub open spec fn counts_total(s: Seq<CodeChunk>, names: Seq<Seq<char>>) -> nat
    decreases names.len(),
{
    if names.len() == 0 {
        0
    } else {
        counts_total(s, names.drop_last()) + chunk_count(s, names.last())
    }
}

proof fn lemma_counts_total_push_chunk(d: Seq<CodeChunk>, c: CodeChunk, names: Seq<Seq<char>>)
    requires
        names.no_duplicates(),
    ensures
        counts_total(d.push(c), names) == counts_total(d, names) + if names.contains(c.filename@) {
            1nat
        } else {
            0nat
        },
    decreases names.len(),
{
    if names.len() > 0 {
        let init = names.drop_last();
        let f = names.last();
        assert(init.no_duplicates());
        lemma_counts_total_push_chunk(d, c, init);
        d.lemma_filter_push(c, named(f));
        assert(names =~= init.push(f));
        if init.contains(c.filename@) {
            let u = choose|u: int| 0 <= u < init.len() && init[u] == c.filename@;
            assert(names[u] == init[u]);
            assert(names[names.len() - 1] == f);
        }
        if f == c.filename@ {
            assert(names.contains(c.filename@));
        }
        if names.contains(c.filename@) && f != c.filename@ {
            let u = choose|u: int| 0 <= u < names.len() && names[u] == c.filename@;
            assert(init[u] == names[u]);
        }
    }
}

/// Every chunk is counted once: the chunk numbers of all file names add up
/// to the number of chunks.
pub proof fn chunk_counts_add_up(s: Seq<CodeChunk>)
    ensures
        counts_total(s, file_names(s)) == s.len(),
    decreases s.len(),
{
    if s.len() > 0 {
        let d = s.drop_last();
        let c = s.last();
        chunk_counts_add_up(d);
        file_names_cover_chunks(d);
        assert(s =~= d.push(c));
        let names = file_names(d);
        lemma_counts_total_push_chunk(d, c, names);
        if !names.contains(c.filename@) {
            assert(file_names(s) == names.push(c.filename@));
            assert(names.push(c.filename@).drop_last() =~= names);
            d.lemma_filter_push(c, named(c.filename@));
            assert forall|i: int| 0 <= i < d.len() implies !named(c.filename@)(#[trigger] d[i]) by {
                assert(names.contains(d[i].filename@));
            }
            d.lemma_all_neg_filter_empty(named(c.filename@));
        }
    }
}

proof fn lemma_filter_count(s: Seq<CodeChunk>, p: spec_fn(CodeChunk) -> bool, c: CodeChunk)
    ensures
        s.filter(p).to_multiset().count(c) == if p(c) {
            s.to_multiset().count(c)
        } else {
            0
        },
    decreases s.len(),
{
    if s.len() == 0 {
        s.lemma_all_neg_filter_empty(p);
        assert(s.filter(p) =~= Seq::<CodeChunk>::empty());
        s.to_multiset_ensures();
        s.filter(p).to_multiset_ensures();
    } else {
        let d = s.drop_last();
        lemma_filter_count(d, p, c);
        assert(s =~= d.push(s.last()));
        d.lemma_filter_push(s.last(), p);
        d.to_multiset_ensures();
        d.filter(p).to_multiset_ensures();
    }
}

/// Sorting keeps the chunks: each chunk occurs as often as before.
pub proof fn sorting_keeps_chunks(r: Seq<CodeChunk>, s: Seq<CodeChunk>)
    requires
        stably_sorted(r, s),
    ensures
        r.to_multiset() == s.to_multiset(),
{
    assert forall|c: CodeChunk| r.to_multiset().count(c) == s.to_multiset().count(c) by {
        let k = chunk_key(c);
        lemma_filter_count(r, has_key(k), c);
        lemma_filter_count(s, has_key(k), c);
        assert(with_key(r, k) == with_key(s, k));
    }
    assert(r.to_multiset() =~= s.to_multiset());
}

proof fn lemma_filter_has(s: Seq<CodeChunk>, p: spec_fn(CodeChunk) -> bool, i: int)
    requires
        0 <= i < s.len(),
        p(s[i]),
    ensures
        s.filter(p).contains(s[i]),
{
    s.lemma_filter_contains(p, i);
}

proof fn lemma_filter_only(s: Seq<CodeChunk>, p: spec_fn(CodeChunk) -> bool, c: CodeChunk)
    requires
        s.filter(p).contains(c),
    ensures
        exists|i: int| 0 <= i < s.len() && s[i] == c,
{
    s.lemma_filter_contains_rev(p, c);
}

proof fn lemma_key_eq(x: (Seq<u8>, usize), y: (Seq<u8>, usize))
    requires
        !key_lt(x, y),
        !key_lt(y, x),
    ensures
        x == y,
{
    lemma_bytes_lt_total(x.0, y.0);
}

/// Two sequences sorted by key that hold, for every key, the same chunks in
/// the same order are equal.
pub proof fn sorted_chunks_unique(a: Seq<CodeChunk>, b: Seq<CodeChunk>)
    requires
        chunks_sorted(a),
        chunks_sorted(b),
        forall|k: (Seq<u8>, usize)| #[trigger] with_key(a, k) == with_key(b, k),
    ensures
        a == b,
    decreases a.len(),
{
    if a.len() == 0 || b.len() == 0 {
        if b.len() > 0 {
            lemma_filter_has(b, has_key(chunk_key(b[0])), 0);
            a.lemma_all_neg_filter_empty(has_key(chunk_key(b[0])));
            assert(with_key(a, chunk_key(b[0])) == with_key(b, chunk_key(b[0])));
        }
        if a.len() > 0 {
            lemma_filter_has(a, has_key(chunk_key(a[0])), 0);
            b.lemma_all_neg_filter_empty(has_key(chunk_key(a[0])));
            assert(with_key(a, chunk_key(a[0])) == with_key(b, chunk_key(a[0])));
        }
        assert(a =~= b);
    } else {
        let ka = chunk_key(a[0]);
        let kb = chunk_key(b[0]);
        lemma_filter_has(a, has_key(ka), 0);
        assert(with_key(a, ka) == with_key(b, ka));
        lemma_filter_only(b, has_key(ka), a[0]);
        let jb = choose|i: int| 0 <= i < b.len() && b[i] == a[0];
        if jb > 0 {
            assert(!key_lt(chunk_key(b[jb]), chunk_key(b[0])));
        }
        lemma_filter_has(b, has_key(kb), 0);
        assert(with_key(a, kb) == with_key(b, kb));
        lemma_filter_only(a, has_key(kb), b[0]);
        let ja = choose|i: int| 0 <= i < a.len() && a[i] == b[0];
        if ja > 0 {
            assert(!key_lt(chunk_key(a[ja]), chunk_key(a[0])));
        }
        lemma_key_lt_asymmetric(ka, ka);
        lemma_key_lt_asymmetric(kb, kb);
        assert(b[jb] == a[0] && a[ja] == b[0]);
        lemma_key_eq(ka, kb);
        let ta = a.drop_first();
        let tb = b.drop_first();
        assert(a =~= seq![a[0]] + ta);
        assert(b =~= seq![b[0]] + tb);
        ta.lemma_filter_prepend(a[0], has_key(ka));
        tb.lemma_filter_prepend(b[0], has_key(ka));
        assert(a[0] == b[0]) by {
            assert(with_key(a, ka)[0] == a[0]);
            assert(with_key(b, ka)[0] == b[0]);
        }
        assert forall|k: (Seq<u8>, usize)| #[trigger] with_key(ta, k) == with_key(tb, k) by {
            ta.lemma_filter_prepend(a[0], has_key(k));
            tb.lemma_filter_prepend(b[0], has_key(k));
            assert(with_key(a, k) == with_key(b, k));
            if ka == k {
                assert(with_key(ta, k) =~= with_key(a, k).drop_first());
                assert(with_key(tb, k) =~= with_key(b, k).drop_first());
            } else {
                assert(with_key(ta, k) =~= with_key(a, k));
                assert(with_key(tb, k) =~= with_key(b, k));
            }
        }
        assert(chunks_sorted(ta)) by {
            assert forall|i: int, j: int| 0 <= i < j < ta.len() implies !key_lt(
                chunk_key(#[trigger] ta[j]),
                chunk_key(#[trigger] ta[i]),
            ) by {
                assert(ta[i] == a[i + 1] && ta[j] == a[j + 1]);
            }
        }
        assert(chunks_sorted(tb)) by {
            assert forall|i: int, j: int| 0 <= i < j < tb.len() implies !key_lt(
                chunk_key(#[trigger] tb[j]),
                chunk_key(#[trigger] tb[i]),
            ) by {
                assert(tb[i] == b[i + 1] && tb[j] == b[j + 1]);
            }
        }
        sorted_chunks_unique(ta, tb);
        assert(a =~= b);
    }
}

/// Sorting chunks that are sorted already changes nothing.
pub proof fn sorting_sorted_chunks_changes_nothing(r: Seq<CodeChunk>, s: Seq<CodeChunk>)
    requires
        chunks_sorted(s),
        stably_sorted(r, s),
    ensures
        r == s,
{
    sorted_chunks_unique(r, s);
}

/// Chunks with the same elements have, for any property, as many chunks
/// with that property.
proof fn lemma_filter_len_same_elements(
    s1: Seq<CodeChunk>,
    s2: Seq<CodeChunk>,
    p: spec_fn(CodeChunk) -> bool,
)
    requires
        s1.to_multiset() == s2.to_multiset(),
    ensures
        s1.filter(p).len() == s2.filter(p).len(),
{
    assert forall|c: CodeChunk| s1.filter(p).to_multiset().count(c) == s2.filter(p).to_multiset().count(c) by {
        lemma_filter_count(s1, p, c);
        lemma_filter_count(s2, p, c);
    }
    assert(s1.filter(p).to_multiset() =~= s2.filter(p).to_multiset());
    s1.filter(p).to_multiset_ensures();
    s2.filter(p).to_multiset_ensures();
}

/// A file name is listed exactly when some chunk belongs to that file.
proof fn lemma_listed_iff_counted(s: Seq<CodeChunk>, f: Seq<char>)
    ensures
        file_names(s).contains(f) <==> chunk_count(s, f) > 0,
{
    file_names_cover_chunks(s);
    if file_names(s).contains(f) {
        let t = choose|t: int| 0 <= t < file_names(s).len() && file_names(s)[t] == f;
        assert(chunk_count(s, file_names(s)[t]) > 0);
    }
    if chunk_count(s, f) > 0 {
        let c = s.filter(named(f))[0];
        assert(s.filter(named(f)).contains(c));
        s.lemma_filter_contains_rev(named(f), c);
        s.lemma_filter_pred(named(f), 0);
        let i = choose|i: int| 0 <= i < s.len() && s[i] == c;
        assert(file_names(s).contains(s[i].filename@));
    }
}

/// The per-file counts do not depend on the order of the chunks: for two
/// lists holding the same chunks, a file name is listed for one exactly when
/// it is listed for the other, with the same number of chunks and the same
/// number of documented chunks.
pub proof fn chunk_counts_ignore_order(s1: Seq<CodeChunk>, s2: Seq<CodeChunk>)
    requires
        s1.to_multiset() == s2.to_multiset(),
    ensures
        forall|f: Seq<char>| #[trigger] file_names(s1).contains(f) <==> file_names(s2).contains(f),
        forall|f: Seq<char>| #[trigger] chunk_count(s1, f) == chunk_count(s2, f),
        forall|f: Seq<char>| #[trigger] documented_count(s1, f) == documented_count(s2, f),
{
    assert forall|f: Seq<char>| #[trigger] chunk_count(s1, f) == chunk_count(s2, f) by {
        lemma_filter_len_same_elements(s1, s2, named(f));
    }
    assert forall|f: Seq<char>| #[trigger] documented_count(s1, f) == documented_count(s2, f) by {
        lemma_filter_len_same_elements(s1, s2, documented_named(f));
    }
    assert forall|f: Seq<char>| #[trigger] file_names(s1).contains(f) <==> file_names(s2).contains(f) by {
        lemma_listed_iff_counted(s1, f);
        lemma_listed_iff_counted(s2, f);
        lemma_filter_len_same_elements(s1, s2, named(f));
    }
}

proof fn lemma_bytes_lt_explicit(a: Seq<u8>, b: Seq<u8>)
    ensures
        bytes_lt(a, b) <==> {
            ||| a.len() < b.len() && a == b.take(a.len() as int)
            ||| exists|k: int|
                #![trigger a.take(k), b.take(k)]
                0 <= k < a.len() && k < b.len() && a.take(k) == b.take(k) && a[k] < b[k]
        },
    decreases a.len(),
{
    if a.len() == 0 {
        assert(a =~= b.take(0));
    } else if b.len() == 0 {
    } else if a[0] != b[0] {
        if a[0] < b[0] {
            assert(a.take(0) =~= b.take(0));
        }
        if a.len() < b.len() && a == b.take(a.len() as int) {
            assert(a[0] == b.take(a.len() as int)[0]);
        }
        assert forall|k: int| 0 <= k < a.len() && k < b.len() && #[trigger] a.take(k) == b.take(k) implies !(a[k]
            < b[k]) || k == 0 by {
            if k > 0 {
                assert(a.take(k)[0] == b.take(k)[0]);
            }
        }
    } else {
        let a1 = a.drop_first();
        let b1 = b.drop_first();
        lemma_bytes_lt_explicit(a1, b1);
        if a.len() < b.len() && a == b.take(a.len() as int) {
            assert(a1 =~= b1.take(a1.len() as int));
        }
        if a1.len() < b1.len() && a1 == b1.take(a1.len() as int) {
            assert(a =~= b.take(a.len() as int)) by {
                assert forall|i: int| 0 <= i < a.len() implies #[trigger] a[i] == b.take(a.len() as int)[i] by {
                    if i > 0 {
                        assert(a1[i - 1] == b1.take(a1.len() as int)[i - 1]);
                    }
                }
            }
        }
        if exists|k: int|
            #![trigger a1.take(k), b1.take(k)]
            0 <= k < a1.len() && k < b1.len() && a1.take(k) == b1.take(k) && a1[k] < b1[k] {
            let k = choose|k: int|
                #![trigger a1.take(k), b1.take(k)]
                0 <= k < a1.len() && k < b1.len() && a1.take(k) == b1.take(k) && a1[k] < b1[k];
            assert(a.take(k + 1) =~= b.take(k + 1)) by {
                assert forall|i: int| 0 <= i < k + 1 implies #[trigger] a.take(k + 1)[i] == b.take(k + 1)[i] by {
                    if i > 0 {
                        assert(a1.take(k)[i - 1] == b1.take(k)[i - 1]);
                    }
                }
            }
            assert(a[k + 1] < b[k + 1]);
        }
        if exists|k: int|
            #![trigger a.take(k), b.take(k)]
            0 <= k < a.len() && k < b.len() && a.take(k) == b.take(k) && a[k] < b[k] {
            let k = choose|k: int|
                #![trigger a.take(k), b.take(k)]
                0 <= k < a.len() && k < b.len() && a.take(k) == b.take(k) && a[k] < b[k];
            assert(k > 0);
            assert(a1.take(k - 1) =~= b1.take(k - 1)) by {
                assert forall|i: int| 0 <= i < k - 1 implies #[trigger] a1.take(k - 1)[i] == b1.take(k - 1)[i] by {
                    assert(a.take(k)[i + 1] == b.take(k)[i + 1]);
                }
            }
            assert(a1[k - 1] < b1[k - 1]);
        }
    }
}

/// Sorted chunks come in the order of their file names, compared byte by
/// byte from the first byte with a proper prefix first (the order of
/// `String::cmp`), and chunks of the same file come in the order of their
/// numbers.
pub proof fn sorted_chunks_follow_name_order(r: Seq<CodeChunk>)
    requires
        chunks_sorted(r),
    ensures
        forall|i: int, j: int|
            0 <= i < j < r.len() ==> {
                let a = encode_utf8((#[trigger] r[i]).filename@);
                let b = encode_utf8((#[trigger] r[j]).filename@);
                ||| a == b && r[i].id <= r[j].id
                ||| a.len() < b.len() && a == b.take(a.len() as int)
                ||| exists|k: int|
                    #![trigger a.take(k), b.take(k)]
                    0 <= k < a.len() && k < b.len() && a.take(k) == b.take(k) && a[k] < b[k]
            },
{
    assert forall|i: int, j: int| 0 <= i < j < r.len() implies {
        let a = encode_utf8((#[trigger] r[i]).filename@);
        let b = encode_utf8((#[trigger] r[j]).filename@);
        ||| a == b && r[i].id <= r[j].id
        ||| a.len() < b.len() && a == b.take(a.len() as int)
        ||| exists|k: int|
            #![trigger a.take(k), b.take(k)]
            0 <= k < a.len() && k < b.len() && a.take(k) == b.take(k) && a[k] < b[k]
    } by {
        let a = encode_utf8(r[i].filename@);
        let b = encode_utf8(r[j].filename@);
        assert(!key_lt(chunk_key(r[j]), chunk_key(r[i])));
        lemma_bytes_lt_total(a, b);
        lemma_bytes_lt_explicit(a, b);
    }
}

} // verus!
