//! Patches that are read from a text, and patches that are computed
//! between two buffers, are well formed.

use vstd::prelude::*;
use crate::diff::{
    checked, diff_of, lemma_tagged_sides, modified_label, original_label, replacement, tagged,
};
use crate::format::{
    content_of, kind_of, modified_prefix, original_prefix, ranges_of, read, read_body, read_hunks,
    read_label, read_lines,
};
use crate::lines::{has_no_newline, is_line, lemma_split_lines, split, NEWLINE};
use crate::patch::{is_line_text, modified_side, original_side, HunkModel, LineKind, LineModel};
use crate::round_trip::lemma_sides_prepend;

verus! {

/// Every line is a line of a buffer.
pub open spec fn all_lines(lines: Seq<Seq<u8>>) -> bool {
    forall|i: int| 0 <= i < lines.len() ==> is_line(#[trigger] lines[i])
}

/// A part of a line of a buffer that stops before its last byte holds no
/// newline.
proof fn lemma_inner_part(line: Seq<u8>, from: int, to: int)
    requires
        is_line(line),
        0 <= from <= to < line.len(),
    ensures
        has_no_newline(line.subrange(from, to)),
{
    assert forall|i: int| 0 <= i < to - from implies line.subrange(from, to)[i] != NEWLINE by {
        assert(line.drop_last()[from + i] == line[from + i]);
    }
}

/// What a written line of a buffer carries fits on one line, with or
/// without its last byte.
proof fn lemma_content_is_line_text(line: Seq<u8>)
    requires
        is_line(line),
    ensures
        is_line_text(content_of(line)),
        content_of(line).len() > 0 ==> is_line_text(content_of(line).drop_last()),
{
    let content = content_of(line);
    let from: int = if line[0] == NEWLINE {
        0
    } else {
        1
    };
    assert(content =~= line.subrange(from, line.len() as int));
    if content.len() > 0 {
        lemma_inner_part(line, from, line.len() - 1);
        assert(content.drop_last() =~= line.subrange(from, line.len() - 1));
        let shorter = content.drop_last();
        if shorter.len() > 0 {
            lemma_inner_part(line, from, line.len() - 2);
            assert(shorter.drop_last() =~= line.subrange(from, line.len() - 2));
        }
    }
}

/// The tagged lines that are read for a hunk are as many on each side as
/// were asked for, and their texts fit on one line each.
pub proof fn lemma_read_body_well_formed(
    lines: Seq<Seq<u8>>,
    at: int,
    need_original: nat,
    need_modified: nat,
    hunk: nat,
)
    requires
        all_lines(lines),
        0 <= at,
    ensures
        match read_body(lines, at, need_original, need_modified, hunk) {
            Ok((body, end)) => {
                &&& original_side(body).len() == need_original
                &&& modified_side(body).len() == need_modified
                &&& forall|i: int| 0 <= i < body.len() ==> is_line_text(#[trigger] body[i].text)
            },
            Err(_) => true,
        },
    decreases lines.len() - at,
{
    if need_original == 0 && need_modified == 0 {
    } else if at < lines.len() {
        let line = lines[at];
        assert(is_line(line));
        match kind_of(line) {
            None => {},
            Some(kind) => {
                let noted = at + 1 < lines.len() && crate::format::starts_with(
                    lines[at + 1],
                    crate::format::no_newline_note(),
                );
                let content = content_of(line);
                let text = if noted && content.len() > 0 {
                    content.drop_last()
                } else {
                    content
                };
                let next = if noted {
                    at + 2
                } else {
                    at + 1
                };
                let uses_original: nat = if kind == LineKind::Insertion {
                    0
                } else {
                    1
                };
                let uses_modified: nat = if kind == LineKind::Deletion {
                    0
                } else {
                    1
                };
                lemma_content_is_line_text(line);
                if need_original >= uses_original && need_modified >= uses_modified {
                    lemma_read_body_well_formed(
                        lines,
                        next,
                        (need_original - uses_original) as nat,
                        (need_modified - uses_modified) as nat,
                        hunk,
                    );
                    match read_body(
                        lines,
                        next,
                        (need_original - uses_original) as nat,
                        (need_modified - uses_modified) as nat,
                        hunk,
                    ) {
                        Ok((rest, end)) => {
                            let head = LineModel { kind, text };
                            let body = seq![head] + rest;
                            lemma_sides_prepend(head, rest);
                            assert forall|i: int| 0 <= i < body.len() implies is_line_text(
                                #[trigger] body[i].text,
                            ) by {
                                if i > 0 {
                                    assert(body[i] == rest[i - 1]);
                                }
                            }
                        },
                        Err(_) => {},
                    }
                }
            },
        }
    }
}

/// The hunks that are read from lines of a buffer are well formed.
pub proof fn lemma_read_hunks_well_formed(lines: Seq<Seq<u8>>, at: int, index: nat)
    requires
        all_lines(lines),
        0 <= at,
    ensures
        match read_hunks(lines, at, index) {
            Ok(hunks) => forall|i: int|
                0 <= i < hunks.len() ==> (#[trigger] hunks[i]).well_formed(),
            Err(_) => true,
        },
    decreases lines.len() - at,
{
    if at < lines.len() {
        match ranges_of(lines[at]) {
            None => {},
            Some((original_start, original_len, modified_start, modified_len)) => {
                lemma_read_body_well_formed(lines, at + 1, original_len, modified_len, index);
                match read_body(lines, at + 1, original_len, modified_len, index) {
                    Err(_) => {},
                    Ok((body, next)) => {
                        if next > at && next <= lines.len() {
                            lemma_read_hunks_well_formed(lines, next, index + 1);
                            match read_hunks(lines, next, index + 1) {
                                Err(_) => {},
                                Ok(rest) => {
                                    let head = HunkModel {
                                        original_start,
                                        original_len,
                                        modified_start,
                                        modified_len,
                                        lines: body,
                                    };
                                    let hunks = seq![head] + rest;
                                    assert(head.well_formed());
                                    assert forall|i: int| 0 <= i < hunks.len() implies (
                                    #[trigger] hunks[i]).well_formed() by {
                                        if i > 0 {
                                            assert(hunks[i] == rest[i - 1]);
                                        }
                                    }
                                },
                            }
                        }
                    },
                }
            },
        }
    }
}

/// The label that is read from a line of a buffer holds no newline.
proof fn lemma_read_label_well_formed(lines: Seq<Seq<u8>>, at: int, prefix: Seq<u8>)
    requires
        all_lines(lines),
        0 <= at,
        prefix.len() == 4,
        prefix[3] != NEWLINE,
    ensures
        match read_label(lines, at, prefix) {
            Ok((label, next)) => (label is Some ==> has_no_newline(label->0)) && 0 <= next,
            Err(_) => true,
        },
{
    match read_label(lines, at, prefix) {
        Ok((Some(label), next)) => {
            let line = lines[at];
            assert(is_line(line));
            assert(line.len() >= 5) by {
                assert(line.subrange(0, 4)[3] == prefix[3]);
                if line.len() == 4 {
                    assert(line.last() == line[3]);
                }
            }
            lemma_inner_part(line, 4, line.len() - 1);
        },
        _ => {},
    }
}

/// A patch that is read from lines of a buffer is well formed.
pub proof fn lemma_read_lines_well_formed(lines: Seq<Seq<u8>>)
    requires
        all_lines(lines),
    ensures
        match read_lines(lines) {
            Ok(patch) => patch.well_formed(),
            Err(_) => true,
        },
{
    lemma_read_label_well_formed(lines, 0, original_prefix());
    match read_label(lines, 0, original_prefix()) {
        Err(_) => {},
        Ok((original, second)) => {
            lemma_read_label_well_formed(lines, second, modified_prefix());
            match read_label(lines, second, modified_prefix()) {
                Err(_) => {},
                Ok((modified, first_hunk)) => {
                    lemma_read_hunks_well_formed(lines, first_hunk, 0);
                },
            }
        },
    }
}

/// A patch that is read from a text is well formed.
pub proof fn read_patch_is_well_formed(text: Seq<u8>)
    ensures
        match read(text) {
            Ok(patch) => patch.well_formed(),
            Err(_) => true,
        },
{
    lemma_split_lines(text);
    lemma_read_lines_well_formed(split(text));
}

/// A buffer has no more lines than bytes.
pub proof fn lemma_split_len(text: Seq<u8>)
    ensures
        split(text).len() <= text.len(),
    decreases text.len(),
{
    if text.len() > 0 {
        lemma_split_len(text.drop_last());
    }
}

/// The replacement of the lines of one buffer by those of another is well
/// formed.
pub proof fn lemma_replacement_well_formed(original: Seq<Seq<u8>>, modified: Seq<Seq<u8>>)
    requires
        all_lines(original),
        all_lines(modified),
        original.len() <= usize::MAX,
        modified.len() <= usize::MAX,
    ensures
        replacement(original, modified).well_formed(),
{
    let patch = replacement(original, modified);
    lemma_labels();
    if patch.hunks.len() > 0 {
        let hunk = patch.hunks[0];
        lemma_tagged_sides(original, modified);
        assert forall|i: int| 0 <= i < hunk.lines.len() implies is_line_text(
            #[trigger] hunk.lines[i].text,
        ) by {
            if i < original.len() {
                assert(hunk.lines[i].text == original[i]);
            } else {
                assert(hunk.lines[i].text == modified[i - original.len()]);
            }
        }
        assert(hunk.well_formed());
    }
}

/// The labels of a computed patch hold no newline.
pub proof fn lemma_labels()
    ensures
        has_no_newline(original_label()),
        has_no_newline(modified_label()),
{
}

/// The patch between two buffers is well formed.
pub proof fn diff_is_well_formed(original: Seq<u8>, modified: Seq<u8>)
    requires
        original.len() <= usize::MAX,
        modified.len() <= usize::MAX,
    ensures
        diff_of(original, modified).well_formed(),
{
    lemma_labels();
    lemma_split_lines(original);
    lemma_split_lines(modified);
    lemma_split_len(original);
    lemma_split_len(modified);
    lemma_replacement_well_formed(split(original), split(modified));
    read_patch_is_well_formed(crate::diff::diffy_patch_text(original, modified));
}

/// The patch made of a candidate text is well formed.
pub proof fn checked_is_well_formed(candidate: Seq<u8>, original: Seq<u8>, modified: Seq<u8>)
    requires
        original.len() <= usize::MAX,
        modified.len() <= usize::MAX,
    ensures
        checked(candidate, original, modified).well_formed(),
{
    lemma_split_lines(original);
    lemma_split_lines(modified);
    lemma_split_len(original);
    lemma_split_len(modified);
    lemma_replacement_well_formed(split(original), split(modified));
    read_patch_is_well_formed(candidate);
}

} // verus!
