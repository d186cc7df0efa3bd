use vstd::prelude::*;
use crate::code_chunk::CodeChunk;

verus! {

/// Where the chunk that ends at the matched line `e` stops: the line before
/// `e`, but never past the end of the file.
pub open spec fn chunk_end(e: usize, total: nat) -> int {
    let adjusted: int = if e > 0 {
        e - 1
    } else {
        0
    };
    if adjusted < total {
        adjusted
    } else {
        total as int
    }
}

/// Where the `k`-th chunk starts: at the end of the chunk before it, or at
/// the top of the file.
pub open spec fn chunk_start(lines: Seq<usize>, total: nat, k: int) -> int {
    if k == 0 {
        0
    } else {
        chunk_end(lines[k - 1], total)
    }
}

/// The chunk ends never go back.
pub open spec fn ends_in_order(lines: Seq<usize>, total: nat) -> bool {
    forall|k: int| 0 < k < lines.len() ==> chunk_end(lines[k - 1], total) <= #[trigger] chunk_end(lines[k], total)
}

/// The `k`-th chunk holds at least one line.
pub open spec fn holds_lines(lines: Seq<usize>, total: nat) -> spec_fn(int) -> bool {
    |k: int| chunk_start(lines, total, k) < chunk_end(lines[k], total)
}

/// The numbers of the chunks that hold at least one line.
pub open spec fn kept_chunk_ids(lines: Seq<usize>, total: nat) -> Seq<int> {
    Seq::new(lines.len(), |k: int| k).filter(holds_lines(lines, total))
}

/// `c` is the `k`-th chunk of the file `file_path` whose lines are
/// `file_lines`, cut at the matched lines `lines`.
pub open spec fn is_file_chunk(
    c: CodeChunk,
    k: int,
    file_path: Seq<char>,
    lines: Seq<usize>,
    file_lines: Seq<String>,
) -> bool {
    let start = chunk_start(lines, file_lines.len(), k);
    let end = chunk_end(lines[k], file_lines.len());
    &&& c.id == k
    &&& c.filename@ == file_path
    &&& c.start_line == start
    &&& c.end_line == end
    &&& !c.documented
    &&& c.chunks@ == file_lines.subrange(start, end)
}

/// The chunk of lines `start_line` up to `end_line` of a file.
fn create_code_chunk(
    file_path: &str,
    file_lines: &Vec<String>,
    id: usize,
    start_line: usize,
    end_line: usize,
) -> (res: CodeChunk)
    requires
        start_line <= end_line <= file_lines@.len(),
    ensures
        res.id == id,
        res.filename@ == file_path@,
        res.start_line == start_line,
        res.end_line == end_line,
        !res.documented,
        res.chunks@ == file_lines@.subrange(start_line as int, end_line as int),
{
    let end_line = if end_line < file_lines.len() {
        end_line
    } else {
        file_lines.len()
    };
    let mut chunk_lines: Vec<String> = Vec::new();
    let mut i = start_line;
    while i < end_line
        invariant
            start_line <= i <= end_line <= file_lines@.len(),
            chunk_lines@ == file_lines@.subrange(start_line as int, i as int),
        decreases end_line - i,
    {
        chunk_lines.push(file_lines[i].clone());
        assert(chunk_lines@ =~= file_lines@.subrange(start_line as int, i + 1));
        i += 1;
    }
    CodeChunk::new(id, file_path, start_line, end_line, chunk_lines, false)
}

/// Cuts a file into chunks: the `k`-th chunk runs from the end of the chunk
/// before it up to the line before the `k`-th matched line, and only chunks
/// that hold lines are kept. `file_lines` are the lines of the file.
pub fn file_to_chunks(file_path: &str, filename: &str, lines: Vec<usize>, file_lines: &Vec<String>) -> (res: Vec<CodeChunk>)
    requires
        ends_in_order(lines@, file_lines@.len()),
    ensures
        res@.len() == kept_chunk_ids(lines@, file_lines@.len()).len(),
        forall|t: int|
            0 <= t < res@.len() ==> is_file_chunk(
                #[trigger] res@[t],
                kept_chunk_ids(lines@, file_lines@.len())[t],
                file_path@,
                lines@,
                file_lines@,
            ),
{
    let total_lines = file_lines.len();
    let ghost total = file_lines@.len();
    let ghost pred = holds_lines(lines@, total);
    let mut start_line: usize = 0;
    let mut id: usize = 0;
    let mut chunks: Vec<CodeChunk> = Vec::new();
    while id < lines.len()
        invariant
            total_lines == total,
            total == file_lines@.len(),
            id <= lines@.len(),
            start_line == chunk_start(lines@, total, id as int),
            ends_in_order(lines@, total),
            pred == holds_lines(lines@, total),
            chunks@.len() == Seq::new(id as nat, |k: int| k).filter(pred).len(),
            forall|t: int|
                0 <= t < chunks@.len() ==> is_file_chunk(
                    #[trigger] chunks@[t],
                    Seq::new(id as nat, |k: int| k).filter(pred)[t],
                    file_path@,
                    lines@,
                    file_lines@,
                ),
        decreases lines@.len() - id,
    {
        let line = lines[id];
        let adjusted_end_line = if line > 0 {
            line - 1
        } else {
            0
        };
        let end_line = if adjusted_end_line < total_lines {
            adjusted_end_line
        } else {
            total_lines
        };
        assert(end_line == chunk_end(lines@[id as int], total));
        proof {
            if id > 0 {
                assert(chunk_end(lines@[id - 1], total) <= chunk_end(lines@[id as int], total));
            }
        }
        let chunk = create_code_chunk(file_path, file_lines, id, start_line, end_line);
        let ghost prev = Seq::new(id as nat, |k: int| k);
        let ghost next = Seq::new((id + 1) as nat, |k: int| k);
        assert(next =~= prev.push(id as int));
        proof {
            prev.lemma_filter_push(id as int, pred);
        }
        if !chunk.chunks.is_empty() {
            assert(pred(id as int));
            chunks.push(chunk);
            assert(next.filter(pred) == prev.filter(pred).push(id as int));
        } else {
            assert(!pred(id as int));
            assert(next.filter(pred) == prev.filter(pred));
        }
        start_line = end_line;
        id += 1;
    }
    chunks
}

} // verus!
