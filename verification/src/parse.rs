//! Reading a patch from its textual form.

use vstd::prelude::*;
use vstd::slice::{slice_subrange, slice_to_vec};
use crate::format::{
    content_of, digits_end, is_digit, kind_of, modified_prefix, no_newline_note, number,
    original_prefix, range_at, range_close, range_middle, range_open, ranges_of, read, read_body,
    read_hunks, read_label, read_lines, starts_with, ParseError, ParseFault, AT, BACKSLASH, COMMA,
    MINUS, PLUS, SPACE, ZERO,
};
use crate::lines::{same_bytes, split_lines, views, NEWLINE};
use crate::well_formed::read_patch_is_well_formed;
use crate::patch::{
    hunk_models, label_model, line_models, Hunk, HunkModel, Line, LineKind, LineModel, Patch,
    PatchModel,
};

verus! {

/// Tells whether `line` begins with `prefix`.
fn has_prefix(line: &[u8], prefix: &[u8]) -> (yes: bool)
    ensures
        yes == starts_with(line@, prefix@),
{
    if prefix.len() > line.len() {
        return false;
    }
    same_bytes(slice_subrange(line, 0, prefix.len()), prefix)
}

/// A longer string of digits stands for no smaller a number.
proof fn lemma_number_grows(digits: Seq<u8>, digit: u8)
    requires
        is_digit(digit),
    ensures
        number(digits.push(digit)) == number(digits) * 10 + (digit - ZERO),
        number(digits.push(digit)) >= number(digits),
{
    assert(digits.push(digit).drop_last() =~= digits);
}

/// Reads the run of digits at `from`: the index at which it ends and the
/// number it stands for, if that fits a machine word.
fn scan_number(line: &[u8], from: usize) -> (found: (usize, Option<usize>))
    requires
        from <= line.len(),
    ensures
        found.0 == digits_end(line@, from as int),
        from <= found.0 <= line.len(),
        match found.1 {
            Some(value) => value == number(line@.subrange(from as int, found.0 as int)),
            None => number(line@.subrange(from as int, found.0 as int)) > usize::MAX,
        },
{
    let mut end: usize = from;
    let mut value: Option<usize> = Some(0);
    proof {
        assert(line@.subrange(from as int, from as int) =~= Seq::<u8>::empty());
    }
    while end < line.len() && ZERO <= line[end] && line[end] <= ZERO + 9
        invariant
            from <= end <= line.len(),
            digits_end(line@, from as int) == digits_end(line@, end as int),
            match value {
                Some(v) => v == number(line@.subrange(from as int, end as int)),
                None => number(line@.subrange(from as int, end as int)) > usize::MAX,
            },
        decreases line.len() - end,
    {
        let digit: usize = (line[end] - ZERO) as usize;
        proof {
            assert(line@.subrange(from as int, end + 1) =~= line@.subrange(
                from as int,
                end as int,
            ).push(line@[end as int]));
            lemma_number_grows(line@.subrange(from as int, end as int), line@[end as int]);
        }
        value =
        match value {
            Some(v) => {
                if v > (usize::MAX - digit) / 10 {
                    None
                } else {
                    Some(v * 10 + digit)
                }
            },
            None => None,
        };
        end += 1;
    }
    (end, value)
}

/// Reads a range at `from`: its start, its length (1 where none is
/// written) and the index after it.
fn scan_range(line: &[u8], from: usize) -> (found: Option<(usize, usize, usize)>)
    requires
        from <= line.len(),
    ensures
        match found {
            Some((start, len, end)) => range_at(line@, from as int) == Some(
                (start as nat, len as nat, end as int),
            ) && from <= end <= line.len(),
            None => range_at(line@, from as int) is None,
        },
{
    let (start_end, start) = scan_number(line, from);
    if start_end == from {
        return None;
    }
    match start {
        None => None,
        Some(start) => {
            if start_end < line.len() && line[start_end] == COMMA {
                let (len_end, len) = scan_number(line, start_end + 1);
                if len_end == start_end + 1 {
                    return None;
                }
                match len {
                    None => None,
                    Some(len) => Some((start, len, len_end)),
                }
            } else {
                Some((start, 1, start_end))
            }
        },
    }
}

/// Reads a range line: the four numbers, or `None` if the line is none.
fn scan_ranges(line: &[u8]) -> (found: Option<(usize, usize, usize, usize)>)
    ensures
        match found {
            Some((a, b, c, d)) => ranges_of(line@) == Some((a as nat, b as nat, c as nat, d as nat)),
            None => ranges_of(line@) is None,
        },
{
    let open = vec![AT, AT, SPACE, MINUS];
    let middle_mark = vec![SPACE, PLUS];
    let close_mark = vec![SPACE, AT, AT, NEWLINE];
    proof {
        assert(open@ =~= range_open());
        assert(middle_mark@ =~= range_middle());
        assert(close_mark@ =~= range_close());
    }
    if !has_prefix(line, open.as_slice()) {
        return None;
    }
    match scan_range(line, 4) {
        None => None,
        Some((original_start, original_len, middle)) => {
            if line.len() - middle < 2 || !same_bytes(
                slice_subrange(line, middle, middle + 2),
                middle_mark.as_slice(),
            ) {
                return None;
            }
            match scan_range(line, middle + 2) {
                None => None,
                Some((modified_start, modified_len, close)) => {
                    if same_bytes(slice_subrange(line, close, line.len()), close_mark.as_slice()) {
                        Some((original_start, original_len, modified_start, modified_len))
                    } else {
                        None
                    }
                },
            }
        },
    }
}

/// The kind that a written line's first byte gives it.
fn scan_kind(line: &[u8]) -> (kind: Option<LineKind>)
    ensures
        kind == kind_of(line@),
{
    if line.len() == 0 {
        None
    } else if line[0] == SPACE || line[0] == NEWLINE {
        Some(LineKind::Context)
    } else if line[0] == MINUS {
        Some(LineKind::Deletion)
    } else if line[0] == PLUS {
        Some(LineKind::Insertion)
    } else {
        None
    }
}

/// The tagged lines of one hunk, read from index `at` on, and the index
/// after them.
fn parse_body(
    lines: &Vec<Vec<u8>>,
    at: usize,
    need_original: usize,
    need_modified: usize,
    hunk: usize,
) -> (result: Result<(Vec<Line>, usize), ParseError>)
    requires
        at <= lines.len(),
    ensures
        match result {
            Ok((body, end)) => read_body(
                views(lines@),
                at as int,
                need_original as nat,
                need_modified as nat,
                hunk as nat,
            ) == Ok::<(Seq<LineModel>, int), ParseFault>((line_models(body@), end as int)) && at
                <= end <= lines.len() && (need_original > 0 || need_modified > 0 ==> at < end),
            Err(error) => read_body(
                views(lines@),
                at as int,
                need_original as nat,
                need_modified as nat,
                hunk as nat,
            ) == Err::<(Seq<LineModel>, int), ParseFault>(error@),
        },
{
    let ghost source = views(lines@);
    let ghost whole = read_body(
        source,
        at as int,
        need_original as nat,
        need_modified as nat,
        hunk as nat,
    );
    let note = vec![
        92u8, 32u8, 78u8, 111u8, 32u8, 110u8, 101u8, 119u8, 108u8, 105u8, 110u8, 101u8, 32u8,
        97u8, 116u8, 32u8, 101u8, 110u8, 100u8, 32u8, 111u8, 102u8, 32u8, 102u8, 105u8, 108u8,
        101u8,
    ];
    let mut body: Vec<Line> = Vec::new();
    let mut next: usize = at;
    let mut left_original: usize = need_original;
    let mut left_modified: usize = need_modified;
    proof {
        assert(note@ =~= no_newline_note());
        match whole {
            Ok((rest, end)) => {
                assert(line_models(body@) + rest =~= rest);
            },
            Err(_) => {},
        }
    }
    while left_original > 0 || left_modified > 0
        invariant
            at <= next <= lines.len(),
            source == views(lines@),
            note@ == no_newline_note(),
            (left_original < need_original || left_modified < need_modified) ==> at < next,
            left_original <= need_original,
            left_modified <= need_modified,
            whole == read_body(
                source,
                at as int,
                need_original as nat,
                need_modified as nat,
                hunk as nat,
            ),
            whole == match read_body(
                source,
                next as int,
                left_original as nat,
                left_modified as nat,
                hunk as nat,
            ) {
                Ok((rest, end)) => Ok::<(Seq<LineModel>, int), ParseFault>(
                    (line_models(body@) + rest, end),
                ),
                Err(error) => Err(error),
            },
        decreases lines.len() - next,
    {
        if next >= lines.len() {
            return Err(ParseError::LineCountMismatch { hunk });
        }
        let line = lines[next].as_slice();
        assert(source[next as int] == line@);
        match scan_kind(line) {
            None => {
                if line.len() > 0 && line[0] == AT {
                    return Err(ParseError::LineCountMismatch { hunk });
                } else {
                    return Err(ParseError::BadMarker { line: next });
                }
            },
            Some(kind) => {
                let noted = lines.len() - next > 1 && has_prefix(
                    lines[next + 1].as_slice(),
                    note.as_slice(),
                );
                let from: usize = if line[0] == NEWLINE {
                    0
                } else {
                    1
                };
                let to: usize = if noted && line.len() > from {
                    (line.len() - 1) as usize
                } else {
                    line.len()
                };
                let text = slice_to_vec(slice_subrange(line, from, to));
                let uses_original: usize = if kind == LineKind::Insertion {
                    0
                } else {
                    1
                };
                let uses_modified: usize = if kind == LineKind::Deletion {
                    0
                } else {
                    1
                };
                if left_original < uses_original || left_modified < uses_modified {
                    return Err(ParseError::LineCountMismatch { hunk });
                }
                let tagged = Line { kind, text };
                proof {
                    if next + 1 < lines.len() {
                        assert(source[next + 1] == lines@[next + 1]@);
                    }
                    let content = content_of(line@);
                    assert(content =~= line@.subrange(from as int, line.len() as int));
                    assert(tagged@.text =~= if noted && content.len() > 0 {
                        content.drop_last()
                    } else {
                        content
                    });
                    let after: int = if noted {
                        next + 2
                    } else {
                        next + 1
                    };
                    match read_body(
                        source,
                        after,
                        (left_original - uses_original) as nat,
                        (left_modified - uses_modified) as nat,
                        hunk as nat,
                    ) {
                        Ok((rest, end)) => {
                            assert(line_models(body@.push(tagged)) + rest =~= line_models(body@) + (
                            seq![tagged@] + rest));
                        },
                        Err(_) => {},
                    }
                }
                body.push(tagged);
                left_original = left_original - uses_original;
                left_modified = left_modified - uses_modified;
                next = if noted {
                    next + 2
                } else {
                    next + 1
                };
            },
        }
    }
    proof {
        assert(line_models(body@) + Seq::<LineModel>::empty() =~= line_models(body@));
    }
    Ok((body, next))
}

/// The hunks read from index `at` to the end of the lines.
fn parse_hunks(lines: &Vec<Vec<u8>>, at: usize) -> (result: Result<Vec<Hunk>, ParseError>)
    requires
        at <= lines.len(),
    ensures
        match result {
            Ok(hunks) => read_hunks(views(lines@), at as int, 0) == Ok::<
                Seq<HunkModel>,
                ParseFault,
            >(hunk_models(hunks@)),
            Err(error) => read_hunks(views(lines@), at as int, 0) == Err::<
                Seq<HunkModel>,
                ParseFault,
            >(error@),
        },
{
    let ghost source = views(lines@);
    let ghost whole = read_hunks(source, at as int, 0);
    let mut hunks: Vec<Hunk> = Vec::new();
    let mut next: usize = at;
    proof {
        match whole {
            Ok(rest) => {
                assert(hunk_models(hunks@) + rest =~= rest);
            },
            Err(_) => {},
        }
    }
    while next < lines.len()
        invariant
            at <= next <= lines.len(),
            source == views(lines@),
            whole == read_hunks(source, at as int, 0),
            whole == match read_hunks(source, next as int, hunks.len() as nat) {
                Ok(rest) => Ok::<Seq<HunkModel>, ParseFault>(hunk_models(hunks@) + rest),
                Err(error) => Err(error),
            },
        decreases lines.len() - next,
    {
        let line = lines[next].as_slice();
        assert(source[next as int] == line@);
        match scan_ranges(line) {
            None => {
                if hunks.len() > 0 && (scan_kind(line).is_some() || (line.len() > 0 && line[0]
                    == BACKSLASH)) {
                    return Err(ParseError::LineCountMismatch { hunk: hunks.len() - 1 });
                } else {
                    return Err(ParseError::BadHunkHeader { line: next });
                }
            },
            Some((original_start, original_len, modified_start, modified_len)) => {
                match parse_body(lines, next + 1, original_len, modified_len, hunks.len()) {
                    Err(error) => {
                        return Err(error);
                    },
                    Ok((body, end)) => {
                        let hunk = Hunk {
                            original_start,
                            original_len,
                            modified_start,
                            modified_len,
                            lines: body,
                        };
                        proof {
                            match read_hunks(source, end as int, (hunks.len() + 1) as nat) {
                                Ok(rest) => {
                                    assert(hunk_models(hunks@.push(hunk)) + rest =~= hunk_models(
                                        hunks@,
                                    ) + (seq![hunk@] + rest));
                                },
                                Err(_) => {},
                            }
                        }
                        hunks.push(hunk);
                        next = end;
                    },
                }
            },
        }
    }
    proof {
        assert(hunk_models(hunks@) + Seq::<HunkModel>::empty() =~= hunk_models(hunks@));
    }
    Ok(hunks)
}

/// The label read at index `at`, if a label line led by three `lead` bytes
/// and a space stands there, and the index after it.
fn parse_label(lines: &Vec<Vec<u8>>, at: usize, lead: u8) -> (result: Result<
    (Option<Vec<u8>>, usize),
    ParseError,
>)
    requires
        at <= lines.len(),
        lead != NEWLINE,
    ensures
        match result {
            Ok((label, next)) => read_label(
                views(lines@),
                at as int,
                seq![lead, lead, lead, SPACE],
            ) == Ok::<(Option<Seq<u8>>, int), ParseFault>((label_model(label), next as int))
                && at <= next <= lines.len(),
            Err(error) => read_label(views(lines@), at as int, seq![lead, lead, lead, SPACE])
                == Err::<(Option<Seq<u8>>, int), ParseFault>(error@),
        },
{
    let prefix = vec![lead, lead, lead, SPACE];
    proof {
        assert(prefix@ =~= seq![lead, lead, lead, SPACE]);
    }
    if at < lines.len() && has_prefix(lines[at].as_slice(), prefix.as_slice()) {
        let line = lines[at].as_slice();
        assert(views(lines@)[at as int] == line@);
        let n = line.len();
        if line[n - 1] == NEWLINE {
            assert(line@.subrange(0, 4)[3] == SPACE);
            let label = slice_to_vec(slice_subrange(line, 4, n - 1));
            Ok((Some(label), at + 1))
        } else {
            Err(ParseError::BadHeader { line: at })
        }
    } else {
        Ok((None, at))
    }
}

/// Reads a patch from its lines.
pub fn parse_lines(lines: &Vec<Vec<u8>>) -> (result: Result<Patch, ParseError>)
    ensures
        match result {
            Ok(patch) => read_lines(views(lines@)) == Ok::<PatchModel, ParseFault>(patch@),
            Err(error) => read_lines(views(lines@)) == Err::<PatchModel, ParseFault>(error@),
        },
{
    proof {
        assert(seq![MINUS, MINUS, MINUS, SPACE] =~= original_prefix());
        assert(seq![PLUS, PLUS, PLUS, SPACE] =~= modified_prefix());
    }
    let (original, second) = match parse_label(lines, 0, MINUS) {
        Ok(found) => found,
        Err(error) => {
            return Err(error);
        },
    };
    let (modified, first_hunk) = match parse_label(lines, second, PLUS) {
        Ok(found) => found,
        Err(error) => {
            return Err(error);
        },
    };
    match parse_hunks(lines, first_hunk) {
        Ok(hunks) => Ok(Patch { original, modified, hunks }),
        Err(error) => Err(error),
    }
}

/// Reads a patch from its textual form.
///
/// The text is taken line by line: the label lines that it has, then
/// hunks to the end of the text. A line where a range line must stand and
/// does not, a tagged line with an unknown first byte, and a hunk with more
/// or fewer lines than it declares are each reported with their place.
pub fn parse(text: &[u8]) -> (result: Result<Patch, ParseError>)
    ensures
        match result {
            Ok(patch) => read(text@) == Ok::<PatchModel, ParseFault>(patch@)
                && patch@.well_formed(),
            Err(error) => read(text@) == Err::<PatchModel, ParseFault>(error@),
        },
{
    proof {
        read_patch_is_well_formed(text@);
    }
    let lines = split_lines(text);
    parse_lines(&lines)
}

} // verus!
