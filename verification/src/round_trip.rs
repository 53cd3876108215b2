//! Reading back what was written: the proof that a patch is read from its
//! textual form as the patch that was written.

use vstd::prelude::*;
use crate::format::{
    content_of, decimal, digits_end, is_digit, kind_of, marker, modified_prefix, no_newline_note,
    number, original_prefix, range_at, range_close, range_middle, range_open, range_text, ranges_of,
    read, read_body, read_hunks, read_label, read_lines, starts_with, written, written_body,
    written_hunk, written_hunks, written_label, written_line, written_lines, written_ranges,
    ParseFault, AT, BACKSLASH, COMMA, MINUS, PLUS, SPACE,
};
use crate::lines::{has_no_newline, is_line, is_terminated, lemma_split_join, NEWLINE};
use crate::patch::{
    is_line_text, lemma_sides_push, modified_side, original_side, HunkModel, LineKind, LineModel,
    PatchModel,
};

verus! {

/// The decimal digits of a number are digits, and stand for the number.
pub proof fn lemma_decimal(n: nat)
    ensures
        decimal(n).len() >= 1,
        forall|i: int| 0 <= i < decimal(n).len() ==> is_digit(#[trigger] decimal(n)[i]),
        number(decimal(n)) == n,
    decreases n,
{
    if n < 10 {
        assert(decimal(n).drop_last() =~= Seq::<u8>::empty());
        assert(number(Seq::<u8>::empty()) == 0);
    } else {
        lemma_decimal(n / 10);
        assert(decimal(n).drop_last() =~= decimal(n / 10));
    }
}

/// A run of digits that is followed by no digit ends where it ends.
pub proof fn lemma_digits_end_run(line: Seq<u8>, from: int, to: int)
    requires
        0 <= from <= to <= line.len(),
        forall|i: int| from <= i < to ==> is_digit(#[trigger] line[i]),
        to == line.len() || !is_digit(line[to]),
    ensures
        digits_end(line, from) == to,
    decreases to - from,
{
    if from < to {
        lemma_digits_end_run(line, from + 1, to);
    }
}

/// A written range that is followed by no digit is read as it was written.
pub proof fn lemma_range_at_written(line: Seq<u8>, from: int, start: nat, len: nat)
    requires
        0 <= from,
        from + range_text(start, len).len() < line.len(),
        line.subrange(from, from + range_text(start, len).len()) == range_text(start, len),
        !is_digit(line[from + range_text(start, len).len()]),
        start <= usize::MAX,
        len <= usize::MAX,
    ensures
        range_at(line, from) == Some((start, len, from + range_text(start, len).len())),
{
    let first = decimal(start);
    let second = decimal(len);
    let whole = range_text(start, len);
    lemma_decimal(start);
    lemma_decimal(len);
    assert(whole.len() == first.len() + 1 + second.len());
    let comma = from + first.len();
    let end = from + whole.len();
    assert forall|i: int| from <= i < end implies line[i] == whole[i - from] by {
        assert(line.subrange(from, end)[i - from] == line[i]);
    }
    assert forall|i: int| from <= i < comma implies is_digit(#[trigger] line[i]) by {
        assert(whole[i - from] == first[i - from]);
    }
    assert(line[comma] == COMMA) by {
        assert(whole[first.len() as int] == COMMA);
    }
    lemma_digits_end_run(line, from, comma);
    assert(line.subrange(from, comma) =~= first) by {
        assert forall|i: int| 0 <= i < first.len() implies line.subrange(from, comma)[i]
            == first[i] by {
            assert(whole[i] == first[i]);
        }
    }
    assert forall|i: int| comma + 1 <= i < end implies is_digit(#[trigger] line[i]) by {
        assert(whole[i - from] == second[i - comma - 1]);
    }
    lemma_digits_end_run(line, comma + 1, end);
    assert(line.subrange(comma + 1, end) =~= second) by {
        assert forall|i: int| 0 <= i < second.len() implies line.subrange(comma + 1, end)[i]
            == second[i] by {
            assert(whole[first.len() + 1 + i] == second[i]);
        }
    }
}

/// A written range holds digits and one comma.
pub proof fn lemma_range_text_bytes(start: nat, len: nat)
    ensures
        range_text(start, len).len() >= 3,
        forall|i: int|
            0 <= i < range_text(start, len).len() ==> {
                let byte = #[trigger] range_text(start, len)[i];
                is_digit(byte) || byte == COMMA
            },
{
    let first = decimal(start);
    let second = decimal(len);
    let whole = range_text(start, len);
    lemma_decimal(start);
    lemma_decimal(len);
    assert forall|i: int| 0 <= i < whole.len() implies {
        let byte = #[trigger] whole[i];
        is_digit(byte) || byte == COMMA
    } by {
        if i < first.len() {
            assert(whole[i] == first[i]);
        } else if i > first.len() {
            assert(whole[i] == second[i - first.len() - 1]);
        }
    }
}

/// The parts of a range line, by their places in it.
pub proof fn lemma_written_ranges_parts(hunk: HunkModel)
    ensures
        ({
            let line = written_ranges(hunk);
            let first = range_text(hunk.original_start, hunk.original_len);
            let second = range_text(hunk.modified_start, hunk.modified_len);
            let middle: int = 4 + first.len() as int;
            let close: int = middle + 2 + second.len();
            &&& line.len() == close + 4
            &&& line.subrange(0, 4) == range_open()
            &&& line.subrange(4, middle) == first
            &&& line.subrange(middle, middle + 2) == range_middle()
            &&& line.subrange(middle + 2, close) == second
            &&& line.subrange(close, line.len() as int) == range_close()
        }),
{
    let line = written_ranges(hunk);
    let first = range_text(hunk.original_start, hunk.original_len);
    let second = range_text(hunk.modified_start, hunk.modified_len);
    let middle: int = 4 + first.len() as int;
    let close: int = middle + 2 + second.len();
    assert(line.len() == close + 4);
    assert(line.subrange(0, 4) =~= range_open());
    assert(line.subrange(4, middle) =~= first);
    assert(line.subrange(middle, middle + 2) =~= range_middle());
    assert(line.subrange(middle + 2, close) =~= second);
    assert(line.subrange(close, line.len() as int) =~= range_close());
}

/// A range line is one terminated line that starts with `@`.
pub proof fn lemma_written_ranges_line(hunk: HunkModel)
    ensures
        written_ranges(hunk).len() > 0,
        written_ranges(hunk)[0] == AT,
        is_terminated(written_ranges(hunk)),
        has_no_newline(written_ranges(hunk).drop_last()),
{
    let line = written_ranges(hunk);
    let first = range_text(hunk.original_start, hunk.original_len);
    let second = range_text(hunk.modified_start, hunk.modified_len);
    let middle: int = 4 + first.len() as int;
    let close: int = middle + 2 + second.len();
    lemma_written_ranges_parts(hunk);
    lemma_range_text_bytes(hunk.original_start, hunk.original_len);
    lemma_range_text_bytes(hunk.modified_start, hunk.modified_len);
    assert(line[0] == line.subrange(0, 4)[0]);
    assert(line.last() == line.subrange(close, line.len() as int)[3]);
    assert forall|i: int| 0 <= i < line.len() - 1 implies line[i] != NEWLINE by {
        if i < 4 {
            assert(line[i] == line.subrange(0, 4)[i]);
        } else if i < middle {
            assert(line[i] == line.subrange(4, middle)[i - 4]);
            assert(line[i] == first[i - 4]);
        } else if i < middle + 2 {
            assert(line[i] == line.subrange(middle, middle + 2)[i - middle]);
        } else if i < close {
            assert(line[i] == line.subrange(middle + 2, close)[i - middle - 2]);
            assert(line[i] == second[i - middle - 2]);
        } else {
            assert(line[i] == line.subrange(close, line.len() as int)[i - close]);
        }
    }
    assert(has_no_newline(line.drop_last())) by {
        assert forall|i: int| 0 <= i < line.drop_last().len() implies line.drop_last()[i]
            != NEWLINE by {
            assert(line.drop_last()[i] == line[i]);
        }
    }
}

/// The range line of a hunk is read as the hunk's four numbers.
pub proof fn lemma_ranges_of_written(hunk: HunkModel)
    requires
        hunk.original_start <= usize::MAX,
        hunk.original_len <= usize::MAX,
        hunk.modified_start <= usize::MAX,
        hunk.modified_len <= usize::MAX,
    ensures
        ranges_of(written_ranges(hunk)) == Some(
            (hunk.original_start, hunk.original_len, hunk.modified_start, hunk.modified_len),
        ),
        written_ranges(hunk).len() > 0,
        written_ranges(hunk)[0] == AT,
        is_terminated(written_ranges(hunk)),
        has_no_newline(written_ranges(hunk).drop_last()),
{
    let line = written_ranges(hunk);
    let first = range_text(hunk.original_start, hunk.original_len);
    let second = range_text(hunk.modified_start, hunk.modified_len);
    let middle: int = 4 + first.len() as int;
    let close: int = middle + 2 + second.len();
    lemma_written_ranges_parts(hunk);
    lemma_written_ranges_line(hunk);
    assert(line[middle] == SPACE) by {
        assert(line[middle] == line.subrange(middle, middle + 2)[0]);
    }
    assert(line[close] == SPACE) by {
        assert(line[close] == line.subrange(close, line.len() as int)[0]);
    }
    lemma_range_at_written(line, 4, hunk.original_start, hunk.original_len);
    lemma_range_at_written(line, middle + 2, hunk.modified_start, hunk.modified_len);
}

/// A line put before others adds its text before their sides, unless it
/// is of the other side alone.
pub proof fn lemma_sides_prepend(line: LineModel, rest: Seq<LineModel>)
    ensures
        original_side(seq![line] + rest) == if line.kind == LineKind::Insertion {
            original_side(rest)
        } else {
            seq![line.text] + original_side(rest)
        },
        modified_side(seq![line] + rest) == if line.kind == LineKind::Deletion {
            modified_side(rest)
        } else {
            seq![line.text] + modified_side(rest)
        },
    decreases rest.len(),
{
    if rest.len() == 0 {
        assert(seq![line] + rest =~= Seq::<LineModel>::empty().push(line));
        lemma_sides_push(Seq::<LineModel>::empty(), line);
        assert(Seq::<Seq<u8>>::empty().push(line.text) =~= seq![line.text] + Seq::<
            Seq<u8>,
        >::empty());
    } else {
        let shorter = rest.drop_last();
        let last = rest.last();
        lemma_sides_prepend(line, shorter);
        assert(seq![line] + rest =~= (seq![line] + shorter).push(last));
        assert(rest =~= shorter.push(last));
        lemma_sides_push(seq![line] + shorter, last);
        lemma_sides_push(shorter, last);
        assert((seq![line.text] + original_side(shorter)).push(last.text) =~= seq![line.text]
            + original_side(shorter).push(last.text));
        assert((seq![line.text] + modified_side(shorter)).push(last.text) =~= seq![line.text]
            + modified_side(shorter).push(last.text));
    }
}

/// The body of a line put before others is that line as written, then the
/// body of the others.
pub proof fn lemma_written_body_prepend(line: LineModel, rest: Seq<LineModel>)
    ensures
        written_body(seq![line] + rest) == written_line(line) + written_body(rest),
{
    let each = |line: LineModel| written_line(line);
    let mapped = (seq![line] + rest).map_values(each);
    assert(mapped.first() == written_line(line));
    assert(mapped.drop_first() =~= rest.map_values(each));
}

/// The lines of a hunk put before others are that hunk as written, then
/// the lines of the others.
pub proof fn lemma_written_hunks_prepend(hunk: HunkModel, rest: Seq<HunkModel>)
    ensures
        written_hunks(seq![hunk] + rest) == written_hunk(hunk) + written_hunks(rest),
{
    let each = |hunk: HunkModel| written_hunk(hunk);
    let mapped = (seq![hunk] + rest).map_values(each);
    assert(mapped.first() == written_hunk(hunk));
    assert(mapped.drop_first() =~= rest.map_values(each));
}

/// A line that does not start with a backslash does not start with the
/// note.
pub proof fn lemma_not_a_note(line: Seq<u8>)
    requires
        line.len() == 0 || line[0] != BACKSLASH,
    ensures
        !starts_with(line, no_newline_note()),
{
    if starts_with(line, no_newline_note()) {
        assert(line.subrange(0, no_newline_note().len() as int)[0] == no_newline_note()[0]);
    }
}

/// The body of some tagged lines starts, if it has a line, with a marker.
pub proof fn lemma_written_body_first(lines: Seq<LineModel>)
    ensures
        written_body(lines).len() > 0 ==> written_body(lines)[0].len() > 0 && written_body(
            lines,
        )[0][0] != BACKSLASH,
        lines.len() > 0 ==> written_body(lines).len() > 0,
        lines.len() == 0 ==> written_body(lines).len() == 0,
{
    if lines.len() > 0 {
        let line = lines[0];
        assert(lines =~= seq![line] + lines.drop_first());
        lemma_written_body_prepend(line, lines.drop_first());
        assert(written_body(lines)[0] == written_line(line)[0]);
    }
}

/// The written body of tagged lines, wherever it stands among other
/// lines, is read as those tagged lines.
pub proof fn lemma_read_written_body(lines: Seq<Seq<u8>>, at: int, body: Seq<LineModel>, hunk: nat)
    requires
        0 <= at,
        at + written_body(body).len() <= lines.len(),
        lines.subrange(at, at + written_body(body).len()) == written_body(body),
        at + written_body(body).len() < lines.len() ==> !starts_with(
            lines[at + written_body(body).len()],
            no_newline_note(),
        ),
    ensures
        read_body(lines, at, original_side(body).len(), modified_side(body).len(), hunk) == Ok::<
            (Seq<LineModel>, int),
            ParseFault,
        >((body, at + written_body(body).len())),
    decreases body.len(),
{
    lemma_written_body_first(body);
    if body.len() == 0 {
        assert(body =~= Seq::<LineModel>::empty());
    } else {
        let head = body[0];
        let rest = body.drop_first();
        assert(body =~= seq![head] + rest);
        lemma_sides_prepend(head, rest);
        lemma_written_body_prepend(head, rest);
        let one = written_line(head);
        let others = written_body(rest);
        let all = written_body(body);
        let part = lines.subrange(at, at + all.len());
        assert(lines[at] == part[0]);
        let line = lines[at];
        assert(line == one[0]);
        assert(line[0] == marker(head.kind));
        assert(kind_of(line) == Some(head.kind));
        let next = at + one.len();
        assert(lines.subrange(next, next + others.len()) =~= others) by {
            assert forall|i: int| 0 <= i < others.len() implies lines.subrange(
                next,
                next + others.len(),
            )[i] == others[i] by {
                assert(part[one.len() + i] == all[one.len() + i]);
            }
        }
        lemma_written_body_first(rest);
        if one.len() == 1 {
            assert(content_of(line) =~= head.text);
            if at + 1 < lines.len() {
                if others.len() > 0 {
                    assert(lines[at + 1] == part[1]);
                    assert(all[1] == others[0]);
                    lemma_not_a_note(lines[at + 1]);
                }
            }
        } else {
            assert(lines[at + 1] == part[1]);
            assert(lines[at + 1] == no_newline_note() + seq![NEWLINE]);
            assert(lines[at + 1].subrange(0, no_newline_note().len() as int)
                =~= no_newline_note());
            assert(content_of(line) =~= head.text + seq![NEWLINE]);
            assert(content_of(line).drop_last() =~= head.text);
        }
        lemma_read_written_body(lines, next, rest, hunk);
        assert(seq![LineModel { kind: head.kind, text: head.text }] + rest =~= body);
    }
}

/// One step of reading hunks: a range line, the body it declares, and the
/// hunks after it.
proof fn lemma_read_hunks_step(
    lines: Seq<Seq<u8>>,
    at: int,
    index: nat,
    head: HunkModel,
    after: int,
    rest: Seq<HunkModel>,
)
    requires
        0 <= at < lines.len(),
        ranges_of(lines[at]) == Some(
            (head.original_start, head.original_len, head.modified_start, head.modified_len),
        ),
        read_body(lines, at + 1, head.original_len, head.modified_len, index) == Ok::<
            (Seq<LineModel>, int),
            ParseFault,
        >((head.lines, after)),
        at < after <= lines.len(),
        read_hunks(lines, after, index + 1) == Ok::<Seq<HunkModel>, ParseFault>(rest),
    ensures
        read_hunks(lines, at, index) == Ok::<Seq<HunkModel>, ParseFault>(seq![head] + rest),
{
    let built = HunkModel {
        original_start: head.original_start,
        original_len: head.original_len,
        modified_start: head.modified_start,
        modified_len: head.modified_len,
        lines: head.lines,
    };
    assert(built == head);
}

/// The lines of some hunks as written: the first hunk's range line, its
/// body, and the lines of the others.
proof fn lemma_written_hunks_parts(lines: Seq<Seq<u8>>, at: int, hunks: Seq<HunkModel>)
    requires
        0 <= at <= lines.len(),
        hunks.len() > 0,
        lines.subrange(at, lines.len() as int) == written_hunks(hunks),
    ensures
        at < lines.len(),
        lines[at] == written_ranges(hunks[0]),
        at + 1 + written_body(hunks[0].lines).len() <= lines.len(),
        lines.subrange(at + 1, at + 1 + written_body(hunks[0].lines).len()) == written_body(
            hunks[0].lines,
        ),
        lines.subrange(at + 1 + written_body(hunks[0].lines).len(), lines.len() as int)
            == written_hunks(hunks.drop_first()),
{
    let head = hunks[0];
    let rest = hunks.drop_first();
    assert(hunks =~= seq![head] + rest);
    lemma_written_hunks_prepend(head, rest);
    let body = written_body(head.lines);
    let others = written_hunks(rest);
    let all = written_hunks(hunks);
    let tail = lines.subrange(at, lines.len() as int);
    assert(all.len() == 1 + body.len() + others.len());
    assert(lines[at] == tail[0]);
    assert(all[0] == written_ranges(head));
    let after = at + 1 + body.len();
    assert(lines.subrange(at + 1, after) =~= body) by {
        assert forall|i: int| 0 <= i < body.len() implies lines.subrange(at + 1, after)[i]
            == body[i] by {
            assert(tail[1 + i] == all[1 + i]);
        }
    }
    assert(lines.subrange(after, lines.len() as int) =~= others) by {
        assert forall|i: int| 0 <= i < others.len() implies lines.subrange(
            after,
            lines.len() as int,
        )[i] == others[i] by {
            assert(tail[1 + body.len() + i] == all[1 + body.len() + i]);
        }
    }
}

/// The written form of hunks, standing at the end of some lines, is read
/// as those hunks.
pub proof fn lemma_read_written_hunks(
    lines: Seq<Seq<u8>>,
    at: int,
    hunks: Seq<HunkModel>,
    index: nat,
)
    requires
        0 <= at <= lines.len(),
        lines.subrange(at, lines.len() as int) == written_hunks(hunks),
        forall|i: int| 0 <= i < hunks.len() ==> (#[trigger] hunks[i]).well_formed(),
    ensures
        read_hunks(lines, at, index) == Ok::<Seq<HunkModel>, ParseFault>(hunks),
    decreases hunks.len(),
{
    if hunks.len() == 0 {
        assert(written_hunks(hunks) =~= Seq::<Seq<u8>>::empty());
        assert(lines.subrange(at, lines.len() as int).len() == 0);
        assert(hunks =~= Seq::<HunkModel>::empty());
    } else {
        let head = hunks[0];
        let rest = hunks.drop_first();
        assert(hunks =~= seq![head] + rest);
        assert(head.well_formed());
        lemma_written_hunks_parts(lines, at, hunks);
        lemma_ranges_of_written(head);
        let after = at + 1 + written_body(head.lines).len();
        assert(after < lines.len() ==> !starts_with(lines[after], no_newline_note())) by {
            if after < lines.len() {
                assert(rest.len() > 0) by {
                    if rest.len() == 0 {
                        assert(written_hunks(rest) =~= Seq::<Seq<u8>>::empty());
                        assert(lines.subrange(after, lines.len() as int).len() == 0);
                    }
                }
                lemma_written_hunks_parts(lines, after, rest);
                assert(rest[0] == hunks[1]);
                assert(rest[0].well_formed());
                lemma_ranges_of_written(rest[0]);
                lemma_not_a_note(lines[after]);
            }
        }
        lemma_read_written_body(lines, at + 1, head.lines, index);
        assert forall|i: int| 0 <= i < rest.len() implies (#[trigger] rest[i]).well_formed() by {
            assert(rest[i] == hunks[i + 1]);
        }
        lemma_read_written_hunks(lines, after, rest, index + 1);
        lemma_read_hunks_step(lines, at, index, head, after, rest);
    }
}

/// Every line is a line of a buffer and ends with a newline.
pub open spec fn all_terminated(lines: Seq<Seq<u8>>) -> bool {
    forall|i: int| 0 <= i < lines.len() ==> is_line(#[trigger] lines[i]) && is_terminated(lines[i])
}

/// The written body of tagged lines whose texts fit on one line is made of
/// terminated lines.
pub proof fn lemma_written_body_terminated(body: Seq<LineModel>)
    requires
        forall|i: int| 0 <= i < body.len() ==> is_line_text(#[trigger] body[i].text),
    ensures
        all_terminated(written_body(body)),
    decreases body.len(),
{
    lemma_written_body_first(body);
    if body.len() > 0 {
        let head = body[0];
        let rest = body.drop_first();
        assert(body =~= seq![head] + rest);
        lemma_written_body_prepend(head, rest);
        assert forall|i: int| 0 <= i < rest.len() implies is_line_text(#[trigger] rest[i].text) by {
            assert(rest[i] == body[i + 1]);
        }
        lemma_written_body_terminated(rest);
        let one = written_line(head);
        assert(is_line_text(head.text));
        assert(all_terminated(one)) by {
            let first = one[0];
            if is_terminated(head.text) {
                assert(first.drop_last() =~= seq![marker(head.kind)] + head.text.drop_last());
            } else {
                assert(has_no_newline(head.text)) by {
                    if head.text.len() > 0 {
                        assert(head.text =~= head.text.drop_last().push(head.text.last()));
                    }
                }
                assert(first.drop_last() =~= seq![marker(head.kind)] + head.text);
                let note = one[1];
                assert(note.drop_last() =~= no_newline_note());
            }
        }
        assert forall|i: int| 0 <= i < written_body(body).len() implies is_line(
            #[trigger] written_body(body)[i],
        ) && is_terminated(written_body(body)[i]) by {
            if i < one.len() {
                assert(written_body(body)[i] == one[i]);
            } else {
                assert(written_body(body)[i] == written_body(rest)[i - one.len()]);
            }
        }
    }
}

/// The written form of well-formed hunks is made of terminated lines.
pub proof fn lemma_written_hunks_terminated(hunks: Seq<HunkModel>)
    requires
        forall|i: int| 0 <= i < hunks.len() ==> (#[trigger] hunks[i]).well_formed(),
    ensures
        all_terminated(written_hunks(hunks)),
    decreases hunks.len(),
{
    if hunks.len() == 0 {
        assert(written_hunks(hunks) =~= Seq::<Seq<u8>>::empty());
    } else {
        let head = hunks[0];
        let rest = hunks.drop_first();
        assert(hunks =~= seq![head] + rest);
        assert(head.well_formed());
        lemma_written_hunks_prepend(head, rest);
        assert forall|i: int| 0 <= i < rest.len() implies (#[trigger] rest[i]).well_formed() by {
            assert(rest[i] == hunks[i + 1]);
        }
        lemma_written_hunks_terminated(rest);
        lemma_ranges_of_written(head);
        lemma_written_body_terminated(head.lines);
        let one = written_hunk(head);
        assert forall|i: int| 0 <= i < written_hunks(hunks).len() implies is_line(
            #[trigger] written_hunks(hunks)[i],
        ) && is_terminated(written_hunks(hunks)[i]) by {
            if i == 0 {
                assert(written_hunks(hunks)[i] == written_ranges(head));
            } else if i < one.len() {
                assert(written_hunks(hunks)[i] == written_body(head.lines)[i - 1]);
            } else {
                assert(written_hunks(hunks)[i] == written_hunks(rest)[i - one.len()]);
            }
        }
    }
}

/// A label without a newline is written as one terminated line, and read
/// back from it.
pub proof fn lemma_written_label(lead: u8, label: Option<Seq<u8>>, lines: Seq<Seq<u8>>, at: int)
    requires
        lead == MINUS || lead == PLUS,
        label is Some ==> has_no_newline(label->0),
        0 <= at,
        label is Some ==> at < lines.len() && lines[at] == written_label(
            seq![lead, lead, lead, SPACE],
            label,
        )[0],
        label is None ==> at >= lines.len() || lines[at].len() == 0 || lines[at][0] != lead,
    ensures
        all_terminated(written_label(seq![lead, lead, lead, SPACE], label)),
        read_label(lines, at, seq![lead, lead, lead, SPACE]) == Ok::<
            (Option<Seq<u8>>, int),
            ParseFault,
        >((label, at + written_label(seq![lead, lead, lead, SPACE], label).len())),
{
    let prefix = seq![lead, lead, lead, SPACE];
    match label {
        Some(name) => {
            let line = prefix + name + seq![NEWLINE];
            assert(line.subrange(0, 4) =~= prefix);
            assert(line.subrange(4, line.len() - 1) =~= name);
            assert(line.drop_last() =~= prefix + name);
        },
        None => {
            if at < lines.len() && starts_with(lines[at], prefix) {
                assert(lines[at].subrange(0, 4)[0] == prefix[0]);
            }
        },
    }
}

/// The written form of hunks starts, if it has a line, with a range line.
pub proof fn lemma_written_hunks_first(hunks: Seq<HunkModel>)
    requires
        forall|i: int| 0 <= i < hunks.len() ==> (#[trigger] hunks[i]).well_formed(),
    ensures
        hunks.len() == 0 ==> written_hunks(hunks).len() == 0,
        hunks.len() > 0 ==> written_hunks(hunks).len() > 0 && written_hunks(hunks)[0].len() > 0
            && written_hunks(hunks)[0][0] == AT,
{
    if hunks.len() == 0 {
        assert(written_hunks(hunks) =~= Seq::<Seq<u8>>::empty());
    } else {
        let lines = written_hunks(hunks);
        assert(lines.subrange(0, lines.len() as int) =~= lines);
        lemma_written_hunks_parts(lines, 0, hunks);
        assert(hunks[0].well_formed());
        lemma_ranges_of_written(hunks[0]);
    }
}

/// The lines that a well-formed patch is written as are terminated lines.
pub proof fn lemma_written_lines_terminated(patch: PatchModel)
    requires
        patch.well_formed(),
    ensures
        all_terminated(written_lines(patch)),
{
    let first = written_label(original_prefix(), patch.original);
    let second = written_label(modified_prefix(), patch.modified);
    let rest = written_hunks(patch.hunks);
    let lines = written_lines(patch);
    assert(original_prefix() =~= seq![MINUS, MINUS, MINUS, SPACE]);
    assert(modified_prefix() =~= seq![PLUS, PLUS, PLUS, SPACE]);
    lemma_written_hunks_terminated(patch.hunks);
    let empty = Seq::<Seq<u8>>::empty();
    if patch.original is Some {
        lemma_written_label(MINUS, patch.original, first, 0);
    } else {
        lemma_written_label(MINUS, patch.original, empty, 0);
    }
    if patch.modified is Some {
        lemma_written_label(PLUS, patch.modified, second, 0);
    } else {
        lemma_written_label(PLUS, patch.modified, empty, 0);
    }
    let start = (first.len() + second.len()) as int;
    assert forall|i: int| 0 <= i < lines.len() implies is_line(#[trigger] lines[i])
        && is_terminated(lines[i]) by {
        if i < first.len() {
            assert(lines[i] == first[i]);
        } else if i < start {
            assert(lines[i] == second[i - first.len()]);
        } else {
            assert(lines[i] == rest[i - start]);
        }
    }
}

/// The lines that a well-formed patch is written as are read as that
/// patch.
pub proof fn lemma_read_written_lines(patch: PatchModel)
    requires
        patch.well_formed(),
    ensures
        read_lines(written_lines(patch)) == Ok::<PatchModel, ParseFault>(patch),
{
    let first = written_label(original_prefix(), patch.original);
    let second = written_label(modified_prefix(), patch.modified);
    let rest = written_hunks(patch.hunks);
    let lines = written_lines(patch);
    assert(original_prefix() =~= seq![MINUS, MINUS, MINUS, SPACE]);
    assert(modified_prefix() =~= seq![PLUS, PLUS, PLUS, SPACE]);
    let middle = first.len() as int;
    let start = (first.len() + second.len()) as int;
    assert(lines.subrange(start, lines.len() as int) =~= rest);
    lemma_written_hunks_first(patch.hunks);
    assert(start < lines.len() ==> lines[start] == rest[0]);
    assert(patch.modified is Some ==> lines[middle] == second[0]);
    assert(patch.original is Some ==> lines[0] == first[0]);
    assert(patch.original is None ==> 0 >= lines.len() || lines[0].len() == 0 || lines[0][0]
        != MINUS) by {
        if patch.original is None && lines.len() > 0 {
            if patch.modified is Some {
                assert(second[0][0] == PLUS);
            }
        }
    }
    assert(patch.modified is None ==> middle >= lines.len() || lines[middle].len() == 0
        || lines[middle][0] != PLUS);
    lemma_written_label(MINUS, patch.original, lines, 0);
    lemma_written_label(PLUS, patch.modified, lines, middle);
    lemma_read_written_hunks(lines, start, patch.hunks, 0);
    lemma_read_lines_parts(lines, patch, middle, start);
}

/// Reading the lines of a patch: the two labels, then the hunks.
proof fn lemma_read_lines_parts(lines: Seq<Seq<u8>>, patch: PatchModel, second: int, first_hunk: int)
    requires
        read_label(lines, 0, original_prefix()) == Ok::<(Option<Seq<u8>>, int), ParseFault>(
            (patch.original, second),
        ),
        read_label(lines, second, modified_prefix()) == Ok::<(Option<Seq<u8>>, int), ParseFault>(
            (patch.modified, first_hunk),
        ),
        read_hunks(lines, first_hunk, 0) == Ok::<Seq<HunkModel>, ParseFault>(patch.hunks),
    ensures
        read_lines(lines) == Ok::<PatchModel, ParseFault>(patch),
{
}

/// A well-formed patch is read from its textual form as it was written.
pub proof fn written_patch_reads_back(patch: PatchModel)
    requires
        patch.well_formed(),
    ensures
        read(written(patch)) == Ok::<PatchModel, ParseFault>(patch),
{
    lemma_read_written_lines(patch);
    lemma_written_lines_terminated(patch);
    lemma_split_join(written_lines(patch));
}

} // verus!
