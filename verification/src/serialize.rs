//! Writing a patch in its textual form.

use vstd::prelude::*;
use crate::format::{
    decimal, modified_prefix, no_newline_note, original_prefix, range_text, written, written_body,
    written_hunk, written_hunks, written_label, written_line, written_ranges, AT, COMMA, MINUS,
    PLUS, SPACE, ZERO,
};
use crate::lines::{join, lemma_join_concat, lemma_join_push, push_bytes, NEWLINE};
use crate::patch::{Hunk, HunkModel, Line, LineKind, LineModel, Patch};

verus! {

/// Writing one more tagged line appends its lines to the body.
pub proof fn lemma_written_body_push(lines: Seq<LineModel>, line: LineModel)
    ensures
        written_body(lines.push(line)) == written_body(lines) + written_line(line),
{
    let each = |line: LineModel| written_line(line);
    assert(lines.push(line).map_values(each) =~= lines.map_values(each).push(each(line)));
    lines.map_values(each).lemma_flatten_push(each(line));
}

/// Writing one more hunk appends its lines to those of the hunks before.
pub proof fn lemma_written_hunks_push(hunks: Seq<HunkModel>, hunk: HunkModel)
    ensures
        written_hunks(hunks.push(hunk)) == written_hunks(hunks) + written_hunk(hunk),
{
    let each = |hunk: HunkModel| written_hunk(hunk);
    assert(hunks.push(hunk).map_values(each) =~= hunks.map_values(each).push(each(hunk)));
    hunks.map_values(each).lemma_flatten_push(each(hunk));
}

/// The byte that leads a tagged line of the given kind.
fn marker_byte(kind: LineKind) -> (byte: u8)
    ensures
        byte == crate::format::marker(kind),
{
    match kind {
        LineKind::Context => SPACE,
        LineKind::Deletion => MINUS,
        LineKind::Insertion => PLUS,
    }
}

/// Appends the decimal digits of `n`.
fn write_decimal(output: &mut Vec<u8>, n: usize)
    ensures
        final(output)@ == old(output)@ + decimal(n as nat),
    decreases n,
{
    if n >= 10 {
        write_decimal(output, n / 10);
    }
    let digit: u8 = (n % 10) as u8;
    proof {
        if n >= 10 {
            assert((old(output)@ + decimal((n / 10) as nat)).push((ZERO + digit) as u8) =~= old(
                output,
            )@ + decimal(n as nat));
        } else {
            assert(old(output)@.push((ZERO + digit) as u8) =~= old(output)@ + decimal(n as nat));
        }
    }
    output.push(ZERO + digit);
}

/// Appends a range: start, comma, length.
fn write_range(output: &mut Vec<u8>, start: usize, len: usize)
    ensures
        final(output)@ == old(output)@ + range_text(start as nat, len as nat),
{
    write_decimal(output, start);
    output.push(COMMA);
    write_decimal(output, len);
    proof {
        assert(output@ =~= old(output)@ + range_text(start as nat, len as nat));
    }
}

/// Appends the note that the line before it has no newline.
fn write_note(output: &mut Vec<u8>)
    ensures
        final(output)@ == old(output)@ + (no_newline_note() + seq![NEWLINE]),
{
    let note = vec![
        92u8, 32u8, 78u8, 111u8, 32u8, 110u8, 101u8, 119u8, 108u8, 105u8, 110u8, 101u8, 32u8,
        97u8, 116u8, 32u8, 101u8, 110u8, 100u8, 32u8, 111u8, 102u8, 32u8, 102u8, 105u8, 108u8,
        101u8, 10u8,
    ];
    proof {
        assert(note@ =~= no_newline_note() + seq![NEWLINE]);
    }
    push_bytes(output, note.as_slice());
}

/// Appends one tagged line as it is written.
fn write_line(output: &mut Vec<u8>, line: &Line)
    ensures
        final(output)@ == old(output)@ + join(written_line(line@)),
{
    let n = line.text.len();
    output.push(marker_byte(line.kind));
    push_bytes(output, line.text.as_slice());
    let ghost first = seq![crate::format::marker(line.kind)] + line.text@;
    if n > 0 && line.text[n - 1] == NEWLINE {
        proof {
            lemma_join_push(Seq::empty(), first);
            assert(Seq::<Seq<u8>>::empty().push(first) =~= written_line(line@));
            assert(join(Seq::<Seq<u8>>::empty()) =~= Seq::<u8>::empty());
            assert(output@ =~= old(output)@ + join(written_line(line@)));
        }
    } else {
        output.push(NEWLINE);
        write_note(output);
        proof {
            let one = first + seq![NEWLINE];
            let two = no_newline_note() + seq![NEWLINE];
            lemma_join_push(Seq::empty(), one);
            lemma_join_push(seq![one], two);
            assert(Seq::<Seq<u8>>::empty().push(one) =~= seq![one]);
            assert(seq![one].push(two) =~= written_line(line@));
            assert(join(Seq::<Seq<u8>>::empty()) =~= Seq::<u8>::empty());
            assert(output@ =~= old(output)@ + join(written_line(line@)));
        }
    }
}

/// Appends one hunk as it is written.
fn write_hunk(output: &mut Vec<u8>, hunk: &Hunk)
    ensures
        final(output)@ == old(output)@ + join(written_hunk(hunk@)),
{
    output.push(AT);
    output.push(AT);
    output.push(SPACE);
    output.push(MINUS);
    write_range(output, hunk.original_start, hunk.original_len);
    output.push(SPACE);
    output.push(PLUS);
    write_range(output, hunk.modified_start, hunk.modified_len);
    output.push(SPACE);
    output.push(AT);
    output.push(AT);
    output.push(NEWLINE);
    let ghost top = old(output)@ + written_ranges(hunk@);
    proof {
        assert(output@ =~= top);
        assert(hunk@.lines.take(0) =~= Seq::<LineModel>::empty());
        assert(written_body(Seq::<LineModel>::empty()) =~= Seq::<Seq<u8>>::empty());
        assert(join(Seq::<Seq<u8>>::empty()) =~= Seq::<u8>::empty());
        assert(top + join(Seq::<Seq<u8>>::empty()) =~= top);
    }
    let mut i: usize = 0;
    while i < hunk.lines.len()
        invariant
            i <= hunk.lines.len(),
            output@ == top + join(written_body(hunk@.lines.take(i as int))),
        decreases hunk.lines.len() - i,
    {
        proof {
            let done = hunk@.lines.take(i as int);
            assert(hunk@.lines.take(i + 1) =~= done.push(hunk.lines[i as int]@));
            lemma_written_body_push(done, hunk.lines[i as int]@);
            lemma_join_concat(written_body(done), written_line(hunk.lines[i as int]@));
            assert(top + join(written_body(done)) + join(written_line(hunk.lines[i as int]@))
                =~= top + (join(written_body(done)) + join(written_line(hunk.lines[i as int]@))));
        }
        write_line(output, &hunk.lines[i]);
        i += 1;
    }
    proof {
        assert(hunk@.lines.take(i as int) =~= hunk@.lines);
        lemma_join_push(Seq::empty(), written_ranges(hunk@));
        assert(Seq::<Seq<u8>>::empty().push(written_ranges(hunk@)) =~= seq![written_ranges(hunk@)]);
        lemma_join_concat(seq![written_ranges(hunk@)], written_body(hunk@.lines));
        assert(join(seq![written_ranges(hunk@)]) =~= written_ranges(hunk@));
        assert(output@ =~= old(output)@ + join(written_hunk(hunk@)));
    }
}

/// Appends a label line, if there is a label.
fn write_label(output: &mut Vec<u8>, lead: u8, label: &Option<Vec<u8>>)
    ensures
        final(output)@ == old(output)@ + join(
            written_label(seq![lead, lead, lead, SPACE], crate::patch::label_model(*label)),
        ),
{
    match label {
        Some(name) => {
            output.push(lead);
            output.push(lead);
            output.push(lead);
            output.push(SPACE);
            push_bytes(output, name.as_slice());
            output.push(NEWLINE);
            proof {
                let line = seq![lead, lead, lead, SPACE] + name@ + seq![NEWLINE];
                lemma_join_push(Seq::empty(), line);
                assert(Seq::<Seq<u8>>::empty().push(line) =~= seq![line]);
                assert(join(Seq::<Seq<u8>>::empty()) =~= Seq::<u8>::empty());
                assert(output@ =~= old(output)@ + join(seq![line]));
            }
        },
        None => {
            proof {
                assert(join(Seq::<Seq<u8>>::empty()) =~= Seq::<u8>::empty());
                assert(output@ =~= old(output)@ + join(Seq::<Seq<u8>>::empty()));
            }
        },
    }
}

/// Writes a patch in its textual form: the label lines that it has, then
/// each hunk's range line and tagged lines.
pub fn serialize(patch: &Patch) -> (text: Vec<u8>)
    ensures
        text@ == written(patch@),
{
    let mut text: Vec<u8> = Vec::new();
    write_label(&mut text, MINUS, &patch.original);
    write_label(&mut text, PLUS, &patch.modified);
    let ghost labels = written_label(original_prefix(), patch@.original) + written_label(
        modified_prefix(),
        patch@.modified,
    );
    proof {
        assert(seq![MINUS, MINUS, MINUS, SPACE] =~= original_prefix());
        assert(seq![PLUS, PLUS, PLUS, SPACE] =~= modified_prefix());
        lemma_join_concat(
            written_label(original_prefix(), patch@.original),
            written_label(modified_prefix(), patch@.modified),
        );
        assert(text@ =~= join(labels));
        assert(patch@.hunks.take(0) =~= Seq::<HunkModel>::empty());
        assert(written_hunks(Seq::<HunkModel>::empty()) =~= Seq::<Seq<u8>>::empty());
        assert(join(Seq::<Seq<u8>>::empty()) =~= Seq::<u8>::empty());
        assert(join(labels) + join(Seq::<Seq<u8>>::empty()) =~= join(labels));
    }
    let mut i: usize = 0;
    while i < patch.hunks.len()
        invariant
            i <= patch.hunks.len(),
            text@ == join(labels) + join(written_hunks(patch@.hunks.take(i as int))),
        decreases patch.hunks.len() - i,
    {
        proof {
            let done = patch@.hunks.take(i as int);
            assert(patch@.hunks.take(i + 1) =~= done.push(patch.hunks[i as int]@));
            lemma_written_hunks_push(done, patch.hunks[i as int]@);
            lemma_join_concat(written_hunks(done), written_hunk(patch.hunks[i as int]@));
            assert(join(labels) + join(written_hunks(done)) + join(
                written_hunk(patch.hunks[i as int]@),
            ) =~= join(labels) + (join(written_hunks(done)) + join(
                written_hunk(patch.hunks[i as int]@),
            )));
        }
        write_hunk(&mut text, &patch.hunks[i]);
        i += 1;
    }
    proof {
        assert(patch@.hunks.take(i as int) =~= patch@.hunks);
        lemma_join_concat(labels, written_hunks(patch@.hunks));
    }
    text
}

} // verus!
