use vstd::prelude::*;
use vstd::string::StringSliceAdditionalSpecFns;
use crate::code_chunk::CodeChunk;
use crate::chunk_order::{
    bytes_lt, chunk_key, key_lt, stably_sorted, with_key, lemma_insert_sorted,
};

verus! {

/// Compares two byte strings: whether `a` comes before `b`, and whether they
/// are equal.
fn compare_bytes(a: &[u8], b: &[u8]) -> (res: (bool, bool))
    ensures
        res.0 == bytes_lt(a@, b@),
        res.1 == (a@ == b@),
{
    let mut i: usize = 0;
    assert(a@.skip(0) =~= a@);
    assert(b@.skip(0) =~= b@);
    assert(a@.subrange(0, 0) =~= b@.subrange(0, 0));
    while i < a.len() && i < b.len() && a[i] == b[i]
        invariant
            i <= a@.len(),
            i <= b@.len(),
            a@.subrange(0, i as int) == b@.subrange(0, i as int),
            bytes_lt(a@, b@) == bytes_lt(a@.skip(i as int), b@.skip(i as int)),
        decreases a@.len() - i,
    {
        assert(a@.skip(i as int).drop_first() =~= a@.skip(i + 1));
        assert(b@.skip(i as int).drop_first() =~= b@.skip(i + 1));
        assert(a@.subrange(0, i + 1) =~= a@.subrange(0, i as int).push(a@[i as int]));
        assert(b@.subrange(0, i + 1) =~= b@.subrange(0, i as int).push(b@[i as int]));
        i += 1;
    }
    if i == a.len() && i == b.len() {
        assert(a@ =~= a@.subrange(0, i as int));
        assert(b@ =~= b@.subrange(0, i as int));
        (false, true)
    } else if i == a.len() {
        assert(a@.subrange(0, i as int).len() != b@.len());
        (true, false)
    } else if i == b.len() {
        assert(a@.len() != b@.len());
        (false, false)
    } else {
        assert(a@[i as int] == a@.skip(i as int)[0]);
        assert(b@[i as int] == b@.skip(i as int)[0]);
        (a[i] < b[i], false)
    }
}

/// Whether the key of chunk `a` comes after the key of chunk `b`.
fn comes_after(a: &CodeChunk, b: &CodeChunk) -> (res: bool)
    ensures
        res == key_lt(chunk_key(*b), chunk_key(*a)),
{
    let (before, equal) = compare_bytes(b.filename.as_str().as_bytes(), a.filename.as_str().as_bytes());
    before || (equal && b.id < a.id)
}

/// Sorts chunks by file name, then by number, keeping chunks of equal keys
/// in their order.
fn sort_chunks(v: &mut Vec<CodeChunk>)
    ensures
        stably_sorted(final(v)@, old(v)@),
{
    let ghost orig = v@;
    let n = v.len();
    let mut i: usize = 0;
    while i < n
        invariant
            n == v@.len(),
            n == orig.len(),
            i <= n,
            stably_sorted(v@.take(i as int), orig.take(i as int)),
            v@.skip(i as int) == orig.skip(i as int),
        decreases n - i,
    {
        let ghost before = v@;
        let ghost prefix = before.take(i as int);
        let x = v.remove(i);
        assert(x == orig[i as int]) by {
            assert(before.skip(i as int)[0] == orig.skip(i as int)[0]);
        }
        assert(v@.take(i as int) =~= prefix);
        let mut j = i;
        while j > 0 && comes_after(&v[j - 1], &x)
            invariant
                j <= i,
                i < n,
                v@.len() == n - 1,
                v@.take(i as int) == prefix,
                forall|t: int| j <= t < i ==> key_lt(chunk_key(x), #[trigger] chunk_key(prefix[t])),
            decreases j,
        {
            assert(v@[j - 1] == prefix[j - 1]);
            j -= 1;
        }
        proof {
            if j > 0 {
                assert(v@[j - 1] == prefix[j - 1]);
            }
            lemma_insert_sorted(prefix, j as int, x);
        }
        let ghost rest = v@.skip(i as int);
        v.insert(j, x);
        proof {
            assert(v@.take(i + 1) =~= prefix.insert(j as int, x));
            assert(v@.skip(i + 1) =~= rest);
            assert(rest =~= orig.skip(i + 1)) by {
                assert(before.skip(i as int).drop_first() =~= rest);
                assert(orig.skip(i as int).drop_first() =~= orig.skip(i + 1));
            }
            assert(orig.take(i + 1) =~= orig.take(i as int).push(x));
            assert forall|k: (Seq<u8>, usize)| #[trigger] with_key(v@.take(i + 1), k) == with_key(
                orig.take(i + 1),
                k,
            ) by {
                prefix.lemma_filter_push(x, crate::chunk_order::has_key(k));
                orig.take(i as int).lemma_filter_push(x, crate::chunk_order::has_key(k));
                assert(with_key(prefix, k) == with_key(orig.take(i as int), k));
            }
        }
        i += 1;
    }
    assert(v@.take(n as int) =~= v@);
    assert(orig.take(n as int) =~= orig);
}

/// Chunks of the file named `f`.
pub open spec fn named(f: Seq<char>) -> spec_fn(CodeChunk) -> bool {
    |c: CodeChunk| c.filename@ == f
}

/// Documented chunks of the file named `f`.
pub open spec fn documented_named(f: Seq<char>) -> spec_fn(CodeChunk) -> bool {
    |c: CodeChunk| c.documented && c.filename@ == f
}

/// How many chunks of `s` belong to the file named `f`.
pub open spec fn chunk_count(s: Seq<CodeChunk>, f: Seq<char>) -> nat {
    s.filter(named(f)).len()
}

/// How many chunks of `s` that belong to the file named `f` are documented.
pub open spec fn documented_count(s: Seq<CodeChunk>, f: Seq<char>) -> nat {
    s.filter(documented_named(f)).len()
}

/// The file names of the chunks, each once, in the order of their first
/// chunk.
pub open spec fn file_names(s: Seq<CodeChunk>) -> Seq<Seq<char>>
    decreases s.len(),
{
    if s.len() == 0 {
        Seq::empty()
    } else {
        let earlier = file_names(s.drop_last());
        if earlier.contains(s.last().filename@) {
            earlier
        } else {
            earlier.push(s.last().filename@)
        }
    }
}

/// Counts the chunks of the file named `name`, and the documented ones
/// among them.
fn count_named(chunks: &[CodeChunk], name: &String) -> (res: (usize, usize))
    ensures
        res.0 == chunk_count(chunks@, name@),
        res.1 == documented_count(chunks@, name@),
        res.1 <= res.0,
{
    let ghost s = chunks@;
    let ghost p = named(name@);
    let ghost q = documented_named(name@);
    let mut total: usize = 0;
    let mut documented: usize = 0;
    let mut j: usize = 0;
    assert(s.take(0) =~= Seq::<CodeChunk>::empty());
    while j < chunks.len()
        invariant
            s == chunks@,
            j <= s.len(),
            p == named(name@),
            q == documented_named(name@),
            total == s.take(j as int).filter(p).len(),
            documented == s.take(j as int).filter(q).len(),
            documented <= total <= j,
        decreases s.len() - j,
    {
        assert(s.take(j + 1) =~= s.take(j as int).push(s[j as int]));
        proof {
            s.take(j as int).lemma_filter_push(s[j as int], p);
            s.take(j as int).lemma_filter_push(s[j as int], q);
        }
        if chunks[j].filename == *name {
            total += 1;
            if chunks[j].is_documented() {
                documented += 1;
            }
        }
        j += 1;
    }
    assert(s.take(s.len() as int) =~= s);
    (total, documented)
}

/// What is shown of one file: its name, how many chunks it has, and how
/// many of those are undocumented and documented.
pub struct FileStats {
    pub filename: String,
    pub total: usize,
    pub undocumented: usize,
    pub documented: usize,
}

/// The chunks of a whole source tree.
pub struct CodeChunksJson {
    chunks: Vec<CodeChunk>,
}

impl CodeChunksJson {
    /// The chunks, sorted by file name and then by number; chunks of equal
    /// file name and number keep their order.
    pub fn from_chunks(chunks: Vec<CodeChunk>) -> (res: CodeChunksJson)
        ensures
            stably_sorted(res.chunks()@, chunks@),
    {
        let mut code_chunks = chunks;
        sort_chunks(&mut code_chunks);
        CodeChunksJson { chunks: code_chunks }
    }

    /// The chunks held.
    pub closed spec fn chunks(&self) -> Vec<CodeChunk> {
        self.chunks
    }

    /// The chunks held.
    pub fn get_chunks(&self) -> (res: &Vec<CodeChunk>)
        ensures
            res == self.chunks(),
    {
        &self.chunks
    }

    /// Each file name of the chunks, once, in the order of its first chunk,
    /// with the number of chunks of that file.
    pub fn summarize_with_chunk_count(code_chunks: &[CodeChunk]) -> (res: Vec<(String, usize)>)
        ensures
            res@.len() == file_names(code_chunks@).len(),
            forall|t: int|
                0 <= t < res@.len() ==> {
                    &&& (#[trigger] res@[t]).0@ == file_names(code_chunks@)[t]
                    &&& res@[t].1 == chunk_count(code_chunks@, file_names(code_chunks@)[t])
                },
    {
        let ghost s = code_chunks@;
        let mut res: Vec<(String, usize)> = Vec::new();
        let n = code_chunks.len();
        let mut i: usize = 0;
        while i < n
            invariant
                s == code_chunks@,
                n == s.len(),
                i <= n,
                res@.len() == file_names(s.take(i as int)).len(),
                forall|t: int|
                    0 <= t < res@.len() ==> {
                        &&& (#[trigger] res@[t]).0@ == file_names(s.take(i as int))[t]
                        &&& res@[t].1 == chunk_count(s, file_names(s.take(i as int))[t])
                    },
            decreases n - i,
        {
            let ghost names = file_names(s.take(i as int));
            assert(s.take(i + 1).drop_last() =~= s.take(i as int));
            let name = &code_chunks[i].filename;
            let mut found = false;
            let mut t: usize = 0;
            while t < res.len()
                invariant
                    t <= res@.len(),
                    res@.len() == names.len(),
                    forall|u: int| 0 <= u < res@.len() ==> (#[trigger] res@[u]).0@ == names[u],
                    found <==> exists|u: int| 0 <= u < t && names[u] == name@,
                decreases res@.len() - t,
            {
                if res[t].0 == *name {
                    found = true;
                }
                t += 1;
            }
            if found {
                assert(names.contains(name@));
            } else {
                assert(!names.contains(name@));
                let (count, _) = count_named(code_chunks, name);
                res.push((name.clone(), count));
            }
            i += 1;
        }
        assert(s.take(n as int) =~= s);
        res
    }

    /// For each file name, once, in the order of its first chunk: the number
    /// of chunks of that file, and how many of them are undocumented and
    /// documented.
    pub fn file_stats(&self) -> (res: Vec<FileStats>)
        ensures
            res@.len() == file_names(self.chunks()@).len(),
            forall|t: int|
                0 <= t < res@.len() ==> {
                    let f = file_names(self.chunks()@)[t];
                    &&& (#[trigger] res@[t]).filename@ == f
                    &&& res@[t].total == chunk_count(self.chunks()@, f)
                    &&& res@[t].documented == documented_count(self.chunks()@, f)
                    &&& res@[t].undocumented == chunk_count(self.chunks()@, f) - documented_count(
                        self.chunks()@,
                        f,
                    )
                },
    {
        let code_chunks = self.chunks.as_slice();
        let summary = Self::summarize_with_chunk_count(code_chunks);
        let mut res: Vec<FileStats> = Vec::new();
        let mut t: usize = 0;
        while t < summary.len()
            invariant
                code_chunks@ == self.chunks()@,
                t <= summary@.len(),
                summary@.len() == file_names(self.chunks()@).len(),
                forall|u: int|
                    0 <= u < summary@.len() ==> {
                        &&& (#[trigger] summary@[u]).0@ == file_names(self.chunks()@)[u]
                        &&& summary@[u].1 == chunk_count(self.chunks()@, file_names(self.chunks()@)[u])
                    },
                res@.len() == t,
                forall|u: int|
                    0 <= u < t ==> {
                        let f = file_names(self.chunks()@)[u];
                        &&& (#[trigger] res@[u]).filename@ == f
                        &&& res@[u].total == chunk_count(self.chunks()@, f)
                        &&& res@[u].documented == documented_count(self.chunks()@, f)
                        &&& res@[u].undocumented == chunk_count(self.chunks()@, f)
                            - documented_count(self.chunks()@, f)
                    },
            decreases summary@.len() - t,
        {
            let filename = &summary[t].0;
            let chunk_count = summary[t].1;
            let (_, documented) = count_named(code_chunks, filename);
            res.push(
                FileStats {
                    filename: filename.clone(),
                    total: chunk_count,
                    undocumented: chunk_count - documented,
                    documented,
                },
            );
            t += 1;
        }
        res
    }

    /// Sorts the chunks by file name, then by number; chunks of equal file
    /// name and number keep their order.
    pub fn sort(&mut self)
        ensures
            stably_sorted(final(self).chunks()@, old(self).chunks()@),
    {
        sort_chunks(&mut self.chunks);
    }
}

} // verus!
