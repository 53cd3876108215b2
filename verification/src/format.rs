//! The unified textual form of a patch, as a grammar over lines.
//!
//! A patch is written as up to two label lines (`--- ` and `+++ `), then
//! for each hunk a range line (`@@ -start,len +start,len @@`) and one line
//! for each tagged line, led by a space, `-` or `+`. A tagged line whose
//! text lacks a newline is written with one, followed by a line that says
//! so. Reading accepts, besides what writing produces, a range without its
//! length (which then is 1), an empty line for an empty context line, and a
//! last line that lacks its newline.

use vstd::prelude::*;
use crate::lines::{is_terminated, join, split, NEWLINE};
use crate::patch::{HunkModel, LineKind, LineModel, PatchModel};

verus! {

/// The space that leads a context line.
pub const SPACE: u8 = 32;

/// The `+` that leads an insertion line.
pub const PLUS: u8 = 43;

/// The comma between the start and the length of a range.
pub const COMMA: u8 = 44;

/// The `-` that leads a deletion line.
pub const MINUS: u8 = 45;

/// The digit `0`.
pub const ZERO: u8 = 48;

/// The `@` of a range line.
pub const AT: u8 = 64;

/// The backslash that leads the note on a missing newline.
pub const BACKSLASH: u8 = 92;

/// What was wrong with a text that is no patch.
#[derive(Clone, Copy, Debug, PartialEq, Eq, Structural)]
pub enum ParseError {
    /// The label line at this 0-based line index is cut off before its
    /// newline.
    BadHeader { line: usize },
    /// A range line was expected at this 0-based line index, and the line
    /// there is none.
    BadHunkHeader { line: usize },
    /// The line at this 0-based line index stands where a hunk still
    /// expects a tagged line, and starts with none of space, `-` and `+`.
    BadMarker { line: usize },
    /// The hunk with this 0-based index has more or fewer lines than its
    /// range line declares: the text or the hunk ends before the declared
    /// lines are read, a line goes beyond what is declared for its side, or
    /// another tagged line follows the declared ones.
    LineCountMismatch { hunk: usize },
}

/// The mathematical value of a [`ParseError`].
pub enum ParseFault {
    BadHeader { line: int },
    BadHunkHeader { line: int },
    BadMarker { line: int },
    LineCountMismatch { hunk: int },
}

impl View for ParseError {
    type V = ParseFault;

    open spec fn view(&self) -> ParseFault {
        match *self {
            ParseError::BadHeader { line } => ParseFault::BadHeader { line: line as int },
            ParseError::BadHunkHeader { line } => ParseFault::BadHunkHeader { line: line as int },
            ParseError::BadMarker { line } => ParseFault::BadMarker { line: line as int },
            ParseError::LineCountMismatch { hunk } => ParseFault::LineCountMismatch {
                hunk: hunk as int,
            },
        }
    }
}

/// `--- `, which leads the label of the original.
pub open spec fn original_prefix() -> Seq<u8> {
    seq![MINUS, MINUS, MINUS, SPACE]
}

/// `+++ `, which leads the label of the modified text.
pub open spec fn modified_prefix() -> Seq<u8> {
    seq![PLUS, PLUS, PLUS, SPACE]
}

/// `@@ -`, which opens a range line.
pub open spec fn range_open() -> Seq<u8> {
    seq![AT, AT, SPACE, MINUS]
}

/// ` +`, which stands between the two ranges.
pub open spec fn range_middle() -> Seq<u8> {
    seq![SPACE, PLUS]
}

/// ` @@` and a newline, which close a range line.
pub open spec fn range_close() -> Seq<u8> {
    seq![SPACE, AT, AT, NEWLINE]
}

/// `\ No newline at end of file`, which follows a line whose text has no
/// newline.
pub open spec fn no_newline_note() -> Seq<u8> {
    seq![
        92u8, 32u8, 78u8, 111u8, 32u8, 110u8, 101u8, 119u8, 108u8, 105u8, 110u8, 101u8, 32u8,
        97u8, 116u8, 32u8, 101u8, 110u8, 100u8, 32u8, 111u8, 102u8, 32u8, 102u8, 105u8, 108u8,
        101u8,
    ]
}

/// `line` begins with `prefix`.
pub open spec fn starts_with(line: Seq<u8>, prefix: Seq<u8>) -> bool {
    prefix.len() <= line.len() && line.subrange(0, prefix.len() as int) == prefix
}

/// The byte is a decimal digit.
pub open spec fn is_digit(byte: u8) -> bool {
    ZERO <= byte <= ZERO + 9
}

/// The decimal digits of a number, without leading zeros.
pub open spec fn decimal(n: nat) -> Seq<u8>
    decreases n,
{
    if n < 10 {
        seq![(ZERO + n) as u8]
    } else {
        decimal(n / 10).push((ZERO + n % 10) as u8)
    }
}

/// The number that a string of decimal digits stands for.
pub open spec fn number(digits: Seq<u8>) -> nat
    decreases digits.len(),
{
    if digits.len() == 0 {
        0
    } else {
        number(digits.drop_last()) * 10 + (digits.last() - ZERO) as nat
    }
}

/// The index at which the run of digits that starts at `from` ends.
pub open spec fn digits_end(line: Seq<u8>, from: int) -> int
    decreases line.len() - from,
{
    if 0 <= from < line.len() && is_digit(line[from]) {
        digits_end(line, from + 1)
    } else {
        from
    }
}

/// A range as it is written: start, comma, length.
pub open spec fn range_text(start: nat, len: nat) -> Seq<u8> {
    decimal(start) + seq![COMMA] + decimal(len)
}

/// A range read at index `from` of a line: its start, its length (1 where
/// none is written) and the index after it. `None` where no number stands
/// there or a number does not fit a machine word.
pub open spec fn range_at(line: Seq<u8>, from: int) -> Option<(nat, nat, int)> {
    let start_end = digits_end(line, from);
    let start = number(line.subrange(from, start_end));
    if start_end == from || start > usize::MAX {
        None
    } else if start_end < line.len() && line[start_end] == COMMA {
        let len_end = digits_end(line, start_end + 1);
        let len = number(line.subrange(start_end + 1, len_end));
        if len_end == start_end + 1 || len > usize::MAX {
            None
        } else {
            Some((start, len, len_end))
        }
    } else {
        Some((start, 1, start_end))
    }
}

/// The four numbers of a range line, or `None` if the line is none.
pub open spec fn ranges_of(line: Seq<u8>) -> Option<(nat, nat, nat, nat)> {
    if !starts_with(line, range_open()) {
        None
    } else {
        match range_at(line, 4) {
            None => None,
            Some((original_start, original_len, middle)) => {
                if !(middle + 2 <= line.len() && line.subrange(middle, middle + 2)
                    == range_middle()) {
                    None
                } else {
                    match range_at(line, middle + 2) {
                        None => None,
                        Some((modified_start, modified_len, close)) => {
                            if line.subrange(close, line.len() as int) == range_close() {
                                Some((original_start, original_len, modified_start, modified_len))
                            } else {
                                None
                            }
                        },
                    }
                }
            },
        }
    }
}

/// The byte that leads a tagged line of each kind.
pub open spec fn marker(kind: LineKind) -> u8 {
    match kind {
        LineKind::Context => SPACE,
        LineKind::Deletion => MINUS,
        LineKind::Insertion => PLUS,
    }
}

/// The kind that a written line's first byte gives it; an empty line is an
/// empty context line.
pub open spec fn kind_of(line: Seq<u8>) -> Option<LineKind> {
    if line.len() == 0 {
        None
    } else if line[0] == SPACE || line[0] == NEWLINE {
        Some(LineKind::Context)
    } else if line[0] == MINUS {
        Some(LineKind::Deletion)
    } else if line[0] == PLUS {
        Some(LineKind::Insertion)
    } else {
        None
    }
}

/// The text that a written line carries: the line without its marker, or
/// all of it where it has none.
pub open spec fn content_of(line: Seq<u8>) -> Seq<u8> {
    if line.len() > 0 && line[0] == NEWLINE {
        line
    } else {
        line.subrange(1, line.len() as int)
    }
}

/// The line or two lines that a tagged line is written as.
pub open spec fn written_line(line: LineModel) -> Seq<Seq<u8>> {
    if is_terminated(line.text) {
        seq![seq![marker(line.kind)] + line.text]
    } else {
        seq![seq![marker(line.kind)] + line.text + seq![NEWLINE], no_newline_note() + seq![NEWLINE]]
    }
}

/// The lines that the tagged lines of a hunk are written as.
pub open spec fn written_body(lines: Seq<LineModel>) -> Seq<Seq<u8>> {
    lines.map_values(|line: LineModel| written_line(line)).flatten()
}

/// The range line of a hunk.
pub open spec fn written_ranges(hunk: HunkModel) -> Seq<u8> {
    range_open() + range_text(hunk.original_start, hunk.original_len) + range_middle()
        + range_text(hunk.modified_start, hunk.modified_len) + range_close()
}

/// The lines that a hunk is written as.
pub open spec fn written_hunk(hunk: HunkModel) -> Seq<Seq<u8>> {
    seq![written_ranges(hunk)] + written_body(hunk.lines)
}

/// The lines that a sequence of hunks is written as.
pub open spec fn written_hunks(hunks: Seq<HunkModel>) -> Seq<Seq<u8>> {
    hunks.map_values(|hunk: HunkModel| written_hunk(hunk)).flatten()
}

/// The line that a label is written as, if there is one.
pub open spec fn written_label(prefix: Seq<u8>, label: Option<Seq<u8>>) -> Seq<Seq<u8>> {
    match label {
        Some(name) => seq![prefix + name + seq![NEWLINE]],
        None => Seq::empty(),
    }
}

/// The lines that a patch is written as.
pub open spec fn written_lines(patch: PatchModel) -> Seq<Seq<u8>> {
    written_label(original_prefix(), patch.original) + written_label(
        modified_prefix(),
        patch.modified,
    ) + written_hunks(patch.hunks)
}

/// The text that a patch is written as.
pub open spec fn written(patch: PatchModel) -> Seq<u8> {
    join(written_lines(patch))
}

/// The tagged lines read from index `at` on, until `need_original` lines of
/// the original side and `need_modified` of the modified side are read,
/// with the index after them.
pub open spec fn read_body(
    lines: Seq<Seq<u8>>,
    at: int,
    need_original: nat,
    need_modified: nat,
    hunk: nat,
) -> Result<(Seq<LineModel>, int), ParseFault>
    decreases lines.len() - at,
{
    if need_original == 0 && need_modified == 0 {
        Ok((Seq::empty(), at))
    } else if at < 0 || at >= lines.len() {
        Err(ParseFault::LineCountMismatch { hunk: hunk as int })
    } else {
        match kind_of(lines[at]) {
            None => if lines[at].len() > 0 && lines[at][0] == AT {
                Err(ParseFault::LineCountMismatch { hunk: hunk as int })
            } else {
                Err(ParseFault::BadMarker { line: at })
            },
            Some(kind) => {
                let noted = at + 1 < lines.len() && starts_with(lines[at + 1], no_newline_note());
                let content = content_of(lines[at]);
                let text = if noted && content.len() > 0 {
                    content.drop_last()
                } else {
                    content
                };
                let next = if noted {
                    at + 2
                } else {
                    at + 1
                };
                let uses_original: nat = if kind == LineKind::Insertion {
                    0
                } else {
                    1
                };
                let uses_modified: nat = if kind == LineKind::Deletion {
                    0
                } else {
                    1
                };
                if need_original < uses_original || need_modified < uses_modified {
                    Err(ParseFault::LineCountMismatch { hunk: hunk as int })
                } else {
                    match read_body(
                        lines,
                        next,
                        (need_original - uses_original) as nat,
                        (need_modified - uses_modified) as nat,
                        hunk,
                    ) {
                        Err(error) => Err(error),
                        Ok((rest, end)) => Ok((seq![LineModel { kind, text }] + rest, end)),
                    }
                }
            },
        }
    }
}

/// The line could be a tagged line or the note that follows one.
pub open spec fn looks_tagged(line: Seq<u8>) -> bool {
    kind_of(line) is Some || (line.len() > 0 && line[0] == BACKSLASH)
}

/// The hunks read from index `at` to the end of the lines; `hunk` is the
/// index of the first of them.
pub open spec fn read_hunks(lines: Seq<Seq<u8>>, at: int, hunk: nat) -> Result<
    Seq<HunkModel>,
    ParseFault,
>
    decreases lines.len() - at,
{
    if at < 0 || at >= lines.len() {
        Ok(Seq::empty())
    } else {
        match ranges_of(lines[at]) {
            None => if hunk > 0 && looks_tagged(lines[at]) {
                Err(ParseFault::LineCountMismatch { hunk: hunk - 1 })
            } else {
                Err(ParseFault::BadHunkHeader { line: at })
            },
            Some((original_start, original_len, modified_start, modified_len)) => {
                match read_body(lines, at + 1, original_len, modified_len, hunk) {
                    Err(error) => Err(error),
                    Ok((body, next)) => {
                        if next <= at || next > lines.len() {
                            Err(ParseFault::BadHunkHeader { line: at })
                        } else {
                            match read_hunks(lines, next, hunk + 1) {
                                Err(error) => Err(error),
                                Ok(rest) => Ok(
                                    seq![
                                        HunkModel {
                                            original_start,
                                            original_len,
                                            modified_start,
                                            modified_len,
                                            lines: body,
                                        },
                                    ] + rest,
                                ),
                            }
                        }
                    },
                }
            },
        }
    }
}

/// The label read at index `at`, if a label line with this prefix stands
/// there, and the index after it.
pub open spec fn read_label(lines: Seq<Seq<u8>>, at: int, prefix: Seq<u8>) -> Result<
    (Option<Seq<u8>>, int),
    ParseFault,
> {
    if 0 <= at < lines.len() && starts_with(lines[at], prefix) {
        if is_terminated(lines[at]) {
            Ok((Some(lines[at].subrange(prefix.len() as int, lines[at].len() - 1)), at + 1))
        } else {
            Err(ParseFault::BadHeader { line: at })
        }
    } else {
        Ok((None, at))
    }
}

/// The patch that a sequence of lines is read as.
pub open spec fn read_lines(lines: Seq<Seq<u8>>) -> Result<PatchModel, ParseFault> {
    match read_label(lines, 0, original_prefix()) {
        Err(error) => Err(error),
        Ok((original, second)) => match read_label(lines, second, modified_prefix()) {
            Err(error) => Err(error),
            Ok((modified, first_hunk)) => match read_hunks(lines, first_hunk, 0) {
                Err(error) => Err(error),
                Ok(hunks) => Ok(PatchModel { original, modified, hunks }),
            },
        },
    }
}

/// The patch that a text is read as.
pub open spec fn read(text: Seq<u8>) -> Result<PatchModel, ParseFault> {
    read_lines(split(text))
}

} // verus!
