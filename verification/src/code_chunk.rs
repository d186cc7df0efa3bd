use vstd::prelude::*;

verus! {

/// The character of the decimal digit `d`.
pub open spec fn digit_char(d: nat) -> char {
    (d + 48) as char
}

/// The decimal representation of `n`, without leading zeros.
pub open spec fn decimal(n: nat) -> Seq<char>
    decreases n,
{
    if n < 10 {
        seq![digit_char(n)]
    } else {
        decimal(n / 10) + seq![digit_char(n % 10)]
    }
}

/// `true` or `false`, spelled out.
pub open spec fn bool_text(b: bool) -> Seq<char> {
    if b {
        "true"@
    } else {
        "false"@
    }
}

/// Each of the lines followed by a newline.
pub open spec fn lines_text(lines: Seq<String>) -> Seq<char>
    decreases lines.len(),
{
    if lines.len() == 0 {
        Seq::empty()
    } else {
        lines_text(lines.drop_last()) + lines.last()@ + "\n"@
    }
}

/// A chunk of a source file: lines `start_line` up to `end_line` of the file
/// `filename`, numbered by `id` within that file.
#[derive(Debug)]
pub struct CodeChunk {
    pub id: usize,
    pub filename: String,
    pub start_line: usize,
    pub end_line: usize,
    pub documented: bool,
    pub chunks: Vec<String>,
}

/// How a chunk is shown: a header with its number, file, documentation flag
/// and line range, then its lines.
pub open spec fn chunk_text(c: CodeChunk) -> Seq<char> {
    "ID: "@ + decimal(c.id as nat) + "\nFile: "@ + c.filename@ + "\nDocumented: "@ + bool_text(
        c.documented,
    ) + "\nStart Line: "@ + decimal(c.start_line as nat) + "\nEnd Line: "@ + decimal(
        c.end_line as nat,
    ) + "\nChunks:\n"@ + lines_text(c.chunks@)
}

/// The text of the decimal digit `d`.
fn digit_text(d: usize) -> (res: &'static str)
    requires
        d < 10,
    ensures
        res@ == seq![digit_char(d as nat)],
{
    proof {
        reveal_strlit("0");
        reveal_strlit("1");
        reveal_strlit("2");
        reveal_strlit("3");
        reveal_strlit("4");
        reveal_strlit("5");
        reveal_strlit("6");
        reveal_strlit("7");
        reveal_strlit("8");
        reveal_strlit("9");
    }
    if d == 0 {
        "0"
    } else if d == 1 {
        "1"
    } else if d == 2 {
        "2"
    } else if d == 3 {
        "3"
    } else if d == 4 {
        "4"
    } else if d == 5 {
        "5"
    } else if d == 6 {
        "6"
    } else if d == 7 {
        "7"
    } else if d == 8 {
        "8"
    } else {
        "9"
    }
}

/// Appends the decimal representation of `n`.
fn append_decimal(out: &mut String, n: usize)
    ensures
        final(out)@ == old(out)@ + decimal(n as nat),
    decreases n,
{
    if n >= 10 {
        append_decimal(out, n / 10);
    }
    out.append(digit_text(n % 10));
    assert(final(out)@ =~= old(out)@ + decimal(n as nat));
}

impl CodeChunk {
    /// A chunk with the given fields.
    pub fn new(
        id: usize,
        filename: &str,
        start_line: usize,
        end_line: usize,
        chunks: Vec<String>,
        documented: bool,
    ) -> (res: CodeChunk)
        ensures
            res.id == id,
            res.filename@ == filename@,
            res.start_line == start_line,
            res.end_line == end_line,
            res.chunks == chunks,
            res.documented == documented,
    {
        CodeChunk { id, filename: filename.to_string(), start_line, end_line, chunks, documented }
    }

    /// Whether the chunk is documented.
    pub fn is_documented(&self) -> (res: bool)
        ensures
            res == self.documented,
    {
        self.documented
    }

    /// The text by which the chunk is shown.
    pub fn display_string(&self) -> (res: String)
        ensures
            res@ == chunk_text(*self),
    {
        let mut out = String::new();
        out.append("ID: ");
        append_decimal(&mut out, self.id);
        out.append("\nFile: ");
        out.append(self.filename.as_str());
        out.append("\nDocumented: ");
        if self.documented {
            out.append("true");
        } else {
            out.append("false");
        }
        out.append("\nStart Line: ");
        append_decimal(&mut out, self.start_line);
        out.append("\nEnd Line: ");
        append_decimal(&mut out, self.end_line);
        out.append("\nChunks:\n");
        let ghost head = out@;
        let mut i: usize = 0;
        while i < self.chunks.len()
            invariant
                i <= self.chunks@.len(),
                out@ == head + lines_text(self.chunks@.take(i as int)),
            decreases self.chunks@.len() - i,
        {
            out.append(self.chunks[i].as_str());
            out.append("\n");
            assert(self.chunks@.take(i + 1).drop_last() =~= self.chunks@.take(i as int));
            assert(out@ =~= head + lines_text(self.chunks@.take(i + 1)));
            i += 1;
        }
        assert(self.chunks@.take(self.chunks@.len() as int) =~= self.chunks@);
        assert(out@ =~= chunk_text(*self));
        out
    }
}

} // verus!
