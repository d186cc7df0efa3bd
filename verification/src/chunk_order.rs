use vstd::prelude::*;
use vstd::utf8::encode_utf8;
use crate::code_chunk::CodeChunk;

verus! {

/// Lexicographic order on byte strings, where a proper prefix comes first.
pub open spec fn bytes_lt(a: Seq<u8>, b: Seq<u8>) -> bool
    decreases a.len(),
{
    if a.len() == 0 {
        b.len() > 0
    } else if b.len() == 0 {
        false
    } else if a[0] != b[0] {
        a[0] < b[0]
    } else {
        bytes_lt(a.drop_first(), b.drop_first())
    }
}

/// What chunks are ordered by: the bytes of the file name, then the number
/// of the chunk.
pub open spec fn chunk_key(c: CodeChunk) -> (Seq<u8>, usize) {
    (encode_utf8(c.filename@), c.id)
}

/// Strict order on chunk keys: by file name, then by number.
pub open spec fn key_lt(x: (Seq<u8>, usize), y: (Seq<u8>, usize)) -> bool {
    bytes_lt(x.0, y.0) || (x.0 == y.0 && x.1 < y.1)
}

/// No chunk comes after a chunk with a smaller key.
pub open spec fn chunks_sorted(s: Seq<CodeChunk>) -> bool {
    forall|i: int, j: int|
        0 <= i < j < s.len() ==> !key_lt(chunk_key(#[trigger] s[j]), chunk_key(#[trigger] s[i]))
}

/// Chunks with the key `k`.
pub open spec fn has_key(k: (Seq<u8>, usize)) -> spec_fn(CodeChunk) -> bool {
    |c: CodeChunk| chunk_key(c) == k
}

/// The chunks of `s` with the key `k`, in their order in `s`.
pub open spec fn with_key(s: Seq<CodeChunk>, k: (Seq<u8>, usize)) -> Seq<CodeChunk> {
    s.filter(has_key(k))
}

/// `r` is `s` sorted by key, with chunks of equal keys in their order in `s`.
pub open spec fn stably_sorted(r: Seq<CodeChunk>, s: Seq<CodeChunk>) -> bool {
    &&& chunks_sorted(r)
    &&& forall|k: (Seq<u8>, usize)| #[trigger] with_key(r, k) == with_key(s, k)
}

/// The byte order is irreflexive.
pub proof fn lemma_bytes_lt_irreflexive(a: Seq<u8>)
    ensures
        !bytes_lt(a, a),
    decreases a.len(),
{
    if a.len() > 0 {
        lemma_bytes_lt_irreflexive(a.drop_first());
    }
}

/// Of two different byte strings exactly one comes first.
pub proof fn lemma_bytes_lt_total(a: Seq<u8>, b: Seq<u8>)
    ensures
        a != b ==> (bytes_lt(a, b) || bytes_lt(b, a)),
        !(bytes_lt(a, b) && bytes_lt(b, a)),
    decreases a.len(),
{
    if a.len() > 0 && b.len() > 0 && a[0] == b[0] {
        lemma_bytes_lt_total(a.drop_first(), b.drop_first());
        if a.drop_first() == b.drop_first() {
            assert forall|i: int| 0 <= i < a.len() implies a[i] == b[i] by {
                if i > 0 {
                    assert(a.drop_first()[i - 1] == b.drop_first()[i - 1]);
                }
            }
            assert(a =~= b);
        }
    } else if a.len() == 0 && b.len() == 0 {
        assert(a =~= b);
    }
}

/// The byte order is transitive.
pub proof fn lemma_bytes_lt_transitive(a: Seq<u8>, b: Seq<u8>, c: Seq<u8>)
    requires
        bytes_lt(a, b),
        bytes_lt(b, c),
    ensures
        bytes_lt(a, c),
    decreases a.len(),
{
    if a.len() > 0 && b.len() > 0 && c.len() > 0 && a[0] == b[0] && b[0] == c[0] {
        lemma_bytes_lt_transitive(a.drop_first(), b.drop_first(), c.drop_first());
    }
}

/// Not coming after is transitive for chunk keys.
pub proof fn lemma_key_le_transitive(x: (Seq<u8>, usize), y: (Seq<u8>, usize), z: (Seq<u8>, usize))
    requires
        !key_lt(y, x),
        !key_lt(z, y),
    ensures
        !key_lt(z, x),
{
    lemma_bytes_lt_total(x.0, y.0);
    lemma_bytes_lt_total(y.0, z.0);
    lemma_bytes_lt_total(x.0, z.0);
    if bytes_lt(z.0, x.0) {
        if bytes_lt(x.0, y.0) {
            lemma_bytes_lt_transitive(z.0, x.0, y.0);
        }
    }
}

/// Of two keys, at most one comes first.
pub proof fn lemma_key_lt_asymmetric(x: (Seq<u8>, usize), y: (Seq<u8>, usize))
    ensures
        !(key_lt(x, y) && key_lt(y, x)),
{
    lemma_bytes_lt_total(x.0, y.0);
    lemma_bytes_lt_irreflexive(x.0);
}

/// Putting `x` into a sorted sequence after the chunks that do not come
/// after it and before those that do keeps the sequence sorted, and keeps
/// each key's chunks in the order of `p` followed by `x`.
pub proof fn lemma_insert_sorted(p: Seq<CodeChunk>, j: int, x: CodeChunk)
    requires
        chunks_sorted(p),
        0 <= j <= p.len(),
        j > 0 ==> !key_lt(chunk_key(x), chunk_key(p[j - 1])),
        forall|t: int| j <= t < p.len() ==> key_lt(chunk_key(x), #[trigger] chunk_key(p[t])),
    ensures
        chunks_sorted(p.insert(j, x)),
        forall|k: (Seq<u8>, usize)| #[trigger] with_key(p.insert(j, x), k) == with_key(p.push(x), k),
{
    let q = p.insert(j, x);
    p.insert_ensures(j, x);
    assert forall|a: int, b: int| 0 <= a < b < q.len() implies !key_lt(
        chunk_key(#[trigger] q[b]),
        chunk_key(#[trigger] q[a]),
    ) by {
        if b < j {
            assert(q[a] == p[a] && q[b] == p[b]);
        } else if b == j {
            assert(q[a] == p[a]);
            if a < j - 1 {
                assert(!key_lt(chunk_key(p[j - 1]), chunk_key(p[a])));
                lemma_key_le_transitive(chunk_key(p[a]), chunk_key(p[j - 1]), chunk_key(x));
            }
        } else if a == j {
            assert(q[b] == p[b - 1]);
            lemma_key_lt_asymmetric(chunk_key(x), chunk_key(p[b - 1]));
        } else if a < j {
            assert(q[a] == p[a] && q[b] == p[b - 1]);
        } else {
            assert(q[a] == p[a - 1] && q[b] == p[b - 1]);
        }
    }
    let left = p.subrange(0, j);
    let right = p.subrange(j, p.len() as int);
    assert(q =~= left.push(x) + right);
    assert(p =~= left + right);
    assert forall|k: (Seq<u8>, usize)| #[trigger] with_key(q, k) == with_key(p.push(x), k) by {
        let pred = has_key(k);
        Seq::filter_distributes_over_add(left.push(x), right, pred);
        Seq::filter_distributes_over_add(left, right, pred);
        left.lemma_filter_push(x, pred);
        p.lemma_filter_push(x, pred);
        if chunk_key(x) == k {
            assert forall|t: int| 0 <= t < right.len() implies !pred(#[trigger] right[t]) by {
                assert(right[t] == p[j + t]);
                assert(key_lt(chunk_key(x), chunk_key(p[j + t])));
                lemma_bytes_lt_irreflexive(k.0);
            }
            right.lemma_all_neg_filter_empty(pred);
            assert(right.filter(pred) =~= Seq::<CodeChunk>::empty());
            assert(with_key(q, k) =~= left.filter(pred).push(x));
            assert(with_key(p.push(x), k) =~= left.filter(pred).push(x));
        } else {
            assert(with_key(q, k) =~= left.filter(pred) + right.filter(pred));
        }
    }
}

} // verus!
