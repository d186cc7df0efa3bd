use vstd::prelude::*;
use crate::code_chunk::{bool_text, chunk_text, decimal, digit_char, lines_text, CodeChunk};
use crate::code_chunker::joined_lines;

verus! {

/// Each line followed by a newline.
pub open spec fn line_with_newline(l: String) -> Seq<char> {
    l@ + "\n"@
}

/// The lines of a shown chunk are all its lines, in order, blank ones too,
/// each followed by one newline.
pub proof fn shown_lines_end_with_newlines(lines: Seq<String>)
    ensures
        lines_text(lines) == lines.map_values(|l: String| line_with_newline(l)).flatten(),
    decreases lines.len(),
{
    let f = |l: String| line_with_newline(l);
    if lines.len() > 0 {
        let init = lines.drop_last();
        shown_lines_end_with_newlines(init);
        assert(lines.map_values(f) =~= init.map_values(f).push(line_with_newline(lines.last())));
        init.map_values(f).lemma_flatten_push(line_with_newline(lines.last()));
        assert(lines_text(lines) =~= lines.map_values(f).flatten());
    } else {
        assert(lines.map_values(f) =~= Seq::<Seq<char>>::empty());
    }
}

/// A chunk is shown as the header lines with its number, file name,
/// documentation flag and line range, followed by all its lines, each
/// ending with a newline.
pub proof fn chunk_is_shown_as_header_and_lines(c: CodeChunk)
    ensures
        chunk_text(c) == "ID: "@ + decimal(c.id as nat) + "\nFile: "@ + c.filename@ + "\nDocumented: "@
            + bool_text(c.documented) + "\nStart Line: "@ + decimal(c.start_line as nat)
            + "\nEnd Line: "@ + decimal(c.end_line as nat) + "\nChunks:\n"@ + c.chunks@.map_values(
            |l: String| line_with_newline(l),
        ).flatten(),
{
    shown_lines_end_with_newlines(c.chunks@);
}

/// Joined lines with a newline after them are all the lines, in order,
/// blank ones too, each followed by one newline; no lines join to nothing.
pub proof fn joined_lines_keep_every_line(lines: Seq<String>)
    ensures
        lines.len() > 0 ==> joined_lines(lines) + "\n"@ == lines.map_values(
            |l: String| line_with_newline(l),
        ).flatten(),
        lines.len() == 0 ==> joined_lines(lines) == Seq::<char>::empty(),
    decreases lines.len(),
{
    let f = |l: String| line_with_newline(l);
    if lines.len() > 0 {
        let init = lines.drop_last();
        assert(lines.map_values(f) =~= init.map_values(f).push(line_with_newline(lines.last())));
        init.map_values(f).lemma_flatten_push(line_with_newline(lines.last()));
        if lines.len() == 1 {
            assert(init.map_values(f) =~= Seq::<Seq<char>>::empty());
            assert(lines[0] == lines.last());
            assert(joined_lines(lines) + "\n"@ =~= lines.map_values(f).flatten());
        } else {
            joined_lines_keep_every_line(init);
            assert(joined_lines(lines) + "\n"@ =~= lines.map_values(f).flatten());
        }
    }
}

/// The value of a string of decimal digits.
pub open spec fn digits_number(s: Seq<char>) -> nat
    decreases s.len(),
{
    if s.len() == 0 {
        0
    } else {
        digits_number(s.drop_last()) * 10 + ((s.last() as int) - 48) as nat
    }
}

/// The decimal text of a number is a string of digits with that value,
/// without a leading zero.
pub proof fn decimal_text_reads_back(n: nat)
    ensures
        decimal(n).len() > 0,
        forall|i: int| 0 <= i < decimal(n).len() ==> '0' <= #[trigger] decimal(n)[i] <= '9',
        digits_number(decimal(n)) == n,
        decimal(n).len() > 1 ==> decimal(n)[0] != '0',
    decreases n,
{
    let d = decimal(n);
    if n < 10 {
        assert(d == seq![digit_char(n)]);
        assert(d.drop_last() =~= Seq::<char>::empty());
        assert((digit_char(n) as int) == n + 48);
        assert(digits_number(d.drop_last()) == 0);
        assert(d.last() == digit_char(n));
        assert(digits_number(d) == n);
    } else {
        decimal_text_reads_back(n / 10);
        let h = decimal(n / 10);
        assert(d == h + seq![digit_char(n % 10)]);
        assert(d.drop_last() =~= h);
        assert((digit_char(n % 10) as int) == n % 10 + 48);
        assert(d.last() == digit_char(n % 10));
        assert(digits_number(d) == digits_number(h) * 10 + n % 10);
        assert((n / 10) * 10 + n % 10 == n) by (nonlinear_arith);
        assert(digits_number(d) == n);
        assert(h.len() > 0);
        assert(d[0] == h[0]);
        if h.len() == 1 {
            assert(digits_number(h.drop_last()) == 0);
            assert(h[0] != '0');
        }
        assert forall|i: int| 0 <= i < d.len() implies '0' <= #[trigger] d[i] <= '9' by {
            if i < h.len() {
                assert(d[i] == h[i]);
            }
        }
    }
}

} // verus!
