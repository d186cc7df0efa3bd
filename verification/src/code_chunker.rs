use vstd::prelude::*;
use crate::ripgrep_lines::{filtered_lines, SortedLineNumbers};
use crate::line_lemmas::lemma_filtered_of_sorted;

verus! {

/// A chunk of a source file, with its lines joined into one text.
#[derive(Debug)]
pub struct CodeChunk {
    pub filename: String,
    pub start_line: usize,
    pub end_line: usize,
    pub chunk: String,
}

impl CodeChunk {
    /// A chunk with the given fields.
    pub fn new(filename: &str, start_line: usize, end_line: usize, chunk: &str) -> (res: CodeChunk)
        ensures
            res.filename@ == filename@,
            res.start_line == start_line,
            res.end_line == end_line,
            res.chunk@ == chunk@,
    {
        CodeChunk { filename: filename.to_string(), start_line, end_line, chunk: chunk.to_string() }
    }
}

/// The lines joined with newlines between them.
pub open spec fn joined_lines(lines: Seq<String>) -> Seq<char>
    decreases lines.len(),
{
    if lines.len() == 0 {
        Seq::empty()
    } else if lines.len() == 1 {
        lines[0]@
    } else {
        joined_lines(lines.drop_last()) + "\n"@ + lines.last()@
    }
}

/// Where the chunk ending at the cut line `e` stops, counted past its last
/// line: one line after `e`, but never past the end of the file.
pub open spec fn text_chunk_end(e: usize, total: nat) -> int {
    if e < total {
        e + 1
    } else {
        total as int
    }
}

/// Where the `k`-th chunk starts: one line after the cut line before it,
/// taken no further than the end of the file, or at the top of the file.
pub open spec fn text_chunk_start(cuts: Seq<usize>, total: nat, k: int) -> int {
    if k == 0 {
        0
    } else if cuts[k - 1] < total {
        cuts[k - 1] + 1
    } else {
        total + 1int
    }
}

/// No chunk starts after it ends.
pub open spec fn text_chunks_fit(cuts: Seq<usize>, total: nat) -> bool {
    forall|k: int|
        0 < k < cuts.len() ==> text_chunk_start(cuts, total, k) <= #[trigger] text_chunk_end(
            cuts[k],
            total,
        )
}

/// The chunk of lines `start_line` up to `end_line`, joined into one text.
fn create_code_chunk(file_path: &str, file_lines: &Vec<String>, start_line: usize, end_line: usize) -> (res: CodeChunk)
    requires
        start_line <= (if end_line < file_lines@.len() { end_line as int } else { file_lines@.len() as int }),
    ensures
        res.filename@ == file_path@,
        res.start_line == start_line,
        res.end_line == (if end_line < file_lines@.len() { end_line as int } else { file_lines@.len() as int }),
        res.chunk@ == joined_lines(file_lines@.subrange(start_line as int, res.end_line as int)),
{
    let end_line = if end_line < file_lines.len() {
        end_line
    } else {
        file_lines.len()
    };
    let mut chunk = String::new();
    let mut i = start_line;
    while i < end_line
        invariant
            start_line <= i <= end_line <= file_lines@.len(),
            chunk@ == joined_lines(file_lines@.subrange(start_line as int, i as int)),
        decreases end_line - i,
    {
        if i > start_line {
            chunk.append("\n");
        }
        chunk.append(file_lines[i].as_str());
        assert(file_lines@.subrange(start_line as int, i + 1).drop_last() =~= file_lines@.subrange(
            start_line as int,
            i as int,
        ));
        assert(chunk@ =~= joined_lines(file_lines@.subrange(start_line as int, i + 1)));
        i += 1;
    }
    CodeChunk::new(file_path, start_line, end_line, chunk.as_str())
}

/// Cuts a file into chunks at its filtered cut lines: the `k`-th chunk runs
/// from the line after the cut before it through the `k`-th cut line, and
/// every such chunk is returned, in order. `file_lines` are the lines of
/// the file.
pub fn process_lines(file_path: &str, filename: &str, lines: Vec<usize>, file_lines: &Vec<String>) -> (res: Vec<CodeChunk>)
    requires
        file_lines@.len() < usize::MAX,
        text_chunks_fit(filtered_lines(lines@), file_lines@.len()),
    ensures
        res@.len() == filtered_lines(lines@).len(),
        forall|k: int|
            0 <= k < res@.len() ==> {
                let cuts = filtered_lines(lines@);
                let start = text_chunk_start(cuts, file_lines@.len(), k);
                let end = text_chunk_end(cuts[k], file_lines@.len());
                &&& (#[trigger] res@[k]).filename@ == file_path@
                &&& res@[k].start_line == start
                &&& res@[k].end_line == end
                &&& res@[k].chunk@ == joined_lines(file_lines@.subrange(start, end))
            },
{
    let mut cut_lines = SortedLineNumbers::from_vec(lines);
    let filtered = cut_lines.filter_line_intervals().to_vec();
    proof {
        lemma_filtered_of_sorted(lines@);
    }
    let ghost cuts = filtered@;
    let ghost total = file_lines@.len();
    let mut chunks: Vec<CodeChunk> = Vec::new();
    let mut start_line: usize = 0;
    let mut k: usize = 0;
    while k < filtered.len()
        invariant
            cuts == filtered@,
            total == file_lines@.len(),
            total < usize::MAX,
            text_chunks_fit(cuts, total),
            k <= cuts.len(),
            chunks@.len() == k,
            start_line == text_chunk_start(cuts, total, k as int),
            forall|j: int|
                0 <= j < k ==> {
                    let start = text_chunk_start(cuts, total, j);
                    let end = text_chunk_end(cuts[j], total);
                    &&& (#[trigger] chunks@[j]).filename@ == file_path@
                    &&& chunks@[j].start_line == start
                    &&& chunks@[j].end_line == end
                    &&& chunks@[j].chunk@ == joined_lines(file_lines@.subrange(start, end))
                },
        decreases cuts.len() - k,
    {
        let total_lines = file_lines.len();
        let end_line = if filtered[k] < total_lines {
            filtered[k]
        } else {
            total_lines
        };
        proof {
            if k > 0 {
                assert(text_chunk_start(cuts, total, k as int) <= text_chunk_end(cuts[k as int], total));
            }
        }
        let chunk = create_code_chunk(file_path, file_lines, start_line, end_line + 1);
        chunks.push(chunk);
        start_line = end_line + 1;
        k += 1;
    }
    chunks
}

} // verus!
