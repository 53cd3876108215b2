//! Splitting a byte buffer into lines and joining lines back.
//!
//! A line keeps its terminating newline, so joining the lines of a buffer
//! gives the buffer back byte for byte; only the last line may lack one.

use vstd::prelude::*;

verus! {

/// The byte that ends a line.
pub const NEWLINE: u8 = 10;

/// The line ends with a newline.
pub open spec fn is_terminated(line: Seq<u8>) -> bool {
    line.len() > 0 && line.last() == NEWLINE
}

/// No byte of the line is a newline.
pub open spec fn has_no_newline(line: Seq<u8>) -> bool {
    forall|i: int| 0 <= i < line.len() ==> line[i] != NEWLINE
}

/// A line as it stands in a buffer: not empty, and with no newline before
/// its last byte.
pub open spec fn is_line(line: Seq<u8>) -> bool {
    line.len() > 0 && has_no_newline(line.drop_last())
}

/// The lines of a buffer, each with its newline.
pub open spec fn split(text: Seq<u8>) -> Seq<Seq<u8>>
    decreases text.len(),
{
    if text.len() == 0 {
        Seq::empty()
    } else {
        let before = split(text.drop_last());
        if before.len() > 0 && !is_terminated(before.last()) {
            before.drop_last().push(before.last().push(text.last()))
        } else {
            before.push(seq![text.last()])
        }
    }
}

/// The buffer that a sequence of lines makes up.
pub open spec fn join(lines: Seq<Seq<u8>>) -> Seq<u8> {
    lines.flatten()
}

/// The contents of a vector of byte vectors.
pub open spec fn views(lines: Seq<Vec<u8>>) -> Seq<Seq<u8>> {
    Seq::new(lines.len(), |i: int| lines[i]@)
}

/// Every line is a line of a buffer, and all but the last are terminated.
pub open spec fn are_lines(lines: Seq<Seq<u8>>) -> bool {
    &&& forall|i: int| 0 <= i < lines.len() ==> is_line(#[trigger] lines[i])
    &&& forall|i: int| 0 <= i < lines.len() - 1 ==> is_terminated(#[trigger] lines[i])
}

/// The contents of a vector with one more element.
pub proof fn lemma_views_push(lines: Seq<Vec<u8>>, line: Vec<u8>)
    ensures
        views(lines.push(line)) == views(lines).push(line@),
{
    assert(views(lines.push(line)) =~= views(lines).push(line@));
}

/// Joining a sequence with one more line appends that line.
pub proof fn lemma_join_push(lines: Seq<Seq<u8>>, line: Seq<u8>)
    ensures
        join(lines.push(line)) == join(lines) + line,
{
    lines.lemma_flatten_push(line);
}

/// Joining two sequences of lines joins their buffers.
pub proof fn lemma_join_concat(a: Seq<Seq<u8>>, b: Seq<Seq<u8>>)
    ensures
        join(a + b) == join(a) + join(b),
{
    vstd::seq_lib::lemma_flatten_concat(a, b);
    assert(join(a + b) =~= join(a) + join(b));
}

/// Joining the lines of a buffer gives the buffer back.
pub proof fn lemma_join_split(text: Seq<u8>)
    ensures
        join(split(text)) == text,
    decreases text.len(),
{
    if text.len() == 0 {
        assert(join(Seq::<Seq<u8>>::empty()) =~= Seq::<u8>::empty());
        assert(text =~= Seq::<u8>::empty());
    } else {
        let before = split(text.drop_last());
        lemma_join_split(text.drop_last());
        if before.len() > 0 && !is_terminated(before.last()) {
            let head = before.drop_last();
            assert(before =~= head.push(before.last()));
            lemma_join_push(head, before.last());
            lemma_join_push(head, before.last().push(text.last()));
            assert(join(split(text)) =~= text.drop_last().push(text.last()));
        } else {
            lemma_join_push(before, seq![text.last()]);
            assert(join(split(text)) =~= text.drop_last().push(text.last()));
        }
        assert(text =~= text.drop_last().push(text.last()));
    }
}

/// The lines of a buffer are lines, all but the last terminated, and the
/// last one ends with the buffer's last byte.
pub proof fn lemma_split_lines(text: Seq<u8>)
    ensures
        are_lines(split(text)),
        text.len() > 0 ==> split(text).len() > 0 && split(text).last().last() == text.last(),
        text.len() == 0 ==> split(text).len() == 0,
    decreases text.len(),
{
    if text.len() > 0 {
        let before = split(text.drop_last());
        lemma_split_lines(text.drop_last());
        let after = split(text);
        if before.len() > 0 && !is_terminated(before.last()) {
            let line = before.last().push(text.last());
            assert(line.drop_last() =~= before.last());
            assert(has_no_newline(before.last())) by {
                assert(before.last() =~= before.last().drop_last().push(before.last().last()));
            }
            assert forall|i: int| 0 <= i < after.len() implies is_line(#[trigger] after[i]) by {
                if i < after.len() - 1 {
                    assert(after[i] == before[i]);
                }
            }
            assert forall|i: int| 0 <= i < after.len() - 1 implies is_terminated(
                #[trigger] after[i],
            ) by {
                assert(after[i] == before[i]);
            }
        } else {
            let line = seq![text.last()];
            assert(line.drop_last() =~= Seq::<u8>::empty());
            assert forall|i: int| 0 <= i < after.len() implies is_line(#[trigger] after[i]) by {
                if i < after.len() - 1 {
                    assert(after[i] == before[i]);
                }
            }
            assert forall|i: int| 0 <= i < after.len() - 1 implies is_terminated(
                #[trigger] after[i],
            ) by {
                assert(after[i] == before[i]);
            }
        }
    }
}

/// Appending one line to a buffer that ends a line appends it to the lines.
pub proof fn lemma_split_append_line(text: Seq<u8>, line: Seq<u8>)
    requires
        text.len() == 0 || text.last() == NEWLINE,
        is_line(line),
    ensures
        split(text + line) == split(text).push(line),
    decreases line.len(),
{
    let whole = text + line;
    let shorter = line.drop_last();
    assert(whole.drop_last() =~= text + shorter);
    assert(whole.last() == line.last());
    lemma_split_lines(text);
    if shorter.len() == 0 {
        assert(text + shorter =~= text);
        assert(line =~= seq![line.last()]);
    } else {
        assert(is_line(shorter)) by {
            assert forall|i: int| 0 <= i < shorter.drop_last().len() implies shorter.drop_last()[i]
                != NEWLINE by {
                assert(shorter.drop_last()[i] == shorter[i]);
            }
        }
        lemma_split_append_line(text, shorter);
        let before = split(text + shorter);
        assert(before == split(text).push(shorter));
        assert(before.last() == shorter);
        assert(shorter.last() == line.drop_last()[shorter.len() - 1]);
        assert(!is_terminated(shorter));
        assert(before.drop_last() =~= split(text));
        assert(shorter.push(line.last()) =~= line);
    }
}

/// Splitting the buffer that a sequence of lines makes up gives the lines
/// back.
pub proof fn lemma_split_join(lines: Seq<Seq<u8>>)
    requires
        are_lines(lines),
    ensures
        split(join(lines)) == lines,
    decreases lines.len(),
{
    if lines.len() == 0 {
        assert(join(lines) =~= Seq::<u8>::empty());
        assert(lines =~= Seq::<Seq<u8>>::empty());
    } else {
        let head = lines.drop_last();
        assert(lines =~= head.push(lines.last()));
        lemma_join_push(head, lines.last());
        assert(are_lines(head)) by {
            assert forall|i: int| 0 <= i < head.len() implies is_line(#[trigger] head[i]) by {
                assert(head[i] == lines[i]);
            }
            assert forall|i: int| 0 <= i < head.len() - 1 implies is_terminated(
                #[trigger] head[i],
            ) by {
                assert(head[i] == lines[i]);
            }
        }
        lemma_split_join(head);
        let text = join(head);
        if head.len() > 0 {
            assert(is_terminated(lines[head.len() - 1]));
            assert(head.last() == lines[head.len() - 1]);
            lemma_split_lines(text);
            assert(text.len() > 0) by {
                if text.len() == 0 {
                    assert(split(text).len() == 0);
                }
            }
            assert(text.last() == NEWLINE);
        } else {
            assert(text =~= Seq::<u8>::empty());
        }
        lemma_split_append_line(text, lines.last());
    }
}

/// Splits a buffer into its lines.
pub fn split_lines(text: &[u8]) -> (lines: Vec<Vec<u8>>)
    ensures
        views(lines@) == split(text@),
{
    let mut lines: Vec<Vec<u8>> = Vec::new();
    let mut current: Vec<u8> = Vec::new();
    let mut i: usize = 0;
    proof {
        assert(text@.take(0) =~= Seq::<u8>::empty());
        assert(views(lines@) =~= Seq::<Seq<u8>>::empty());
    }
    while i < text.len()
        invariant
            i <= text.len(),
            current@.len() > 0 ==> split(text@.take(i as int)) == views(lines@).push(current@),
            current@.len() > 0 ==> !is_terminated(current@),
            current@.len() == 0 ==> split(text@.take(i as int)) == views(lines@),
            lines@.len() > 0 ==> is_terminated(lines@.last()@),
        decreases text.len() - i,
    {
        let byte = text[i];
        let ghost earlier = current@;
        current.push(byte);
        proof {
            let shorter = text@.take(i as int);
            let longer = text@.take(i + 1);
            assert(longer.drop_last() =~= shorter);
            assert(longer.last() == byte);
            if earlier.len() > 0 {
                assert(views(lines@).push(earlier).drop_last() =~= views(lines@));
                assert(earlier.push(byte) =~= current@);
            } else {
                if lines@.len() > 0 {
                    assert(views(lines@).last() == lines@.last()@);
                }
                assert(seq![byte] =~= current@);
            }
            assert(split(longer) == views(lines@).push(current@));
        }
        if byte == NEWLINE {
            proof {
                assert(views(lines@.push(current)) =~= views(lines@).push(current@));
            }
            lines.push(current);
            current = Vec::new();
        }
        i += 1;
    }
    proof {
        assert(text@.take(i as int) =~= text@);
    }
    if current.len() > 0 {
        proof {
            assert(views(lines@.push(current)) =~= views(lines@).push(current@));
        }
        lines.push(current);
    }
    lines
}

/// Tells whether two byte strings are equal.
pub fn same_bytes(a: &[u8], b: &[u8]) -> (same: bool)
    ensures
        same == (a@ == b@),
{
    if a.len() != b.len() {
        return false;
    }
    let mut i: usize = 0;
    while i < a.len()
        invariant
            i <= a.len(),
            a.len() == b.len(),
            forall|j: int| 0 <= j < i ==> a@[j] == b@[j],
        decreases a.len() - i,
    {
        if a[i] != b[i] {
            return false;
        }
        i += 1;
    }
    proof {
        assert(a@ =~= b@);
    }
    true
}

/// Appends the bytes of `source` to `output`.
pub fn push_bytes(output: &mut Vec<u8>, source: &[u8])
    ensures
        final(output)@ == old(output)@ + source@,
{
    let mut i: usize = 0;
    proof {
        assert(output@ =~= old(output)@ + source@.take(0));
    }
    while i < source.len()
        invariant
            i <= source.len(),
            output@ == old(output)@ + source@.take(i as int),
        decreases source.len() - i,
    {
        proof {
            assert((old(output)@ + source@.take(i as int)).push(source@[i as int]) =~= old(
                output,
            )@ + source@.take(i + 1));
        }
        output.push(source[i]);
        i += 1;
    }
    proof {
        assert(source@.take(i as int) =~= source@);
    }
}

/// Joins lines into one buffer.
pub fn join_lines(lines: &Vec<Vec<u8>>) -> (text: Vec<u8>)
    ensures
        text@ == join(views(lines@)),
{
    let mut text: Vec<u8> = Vec::new();
    let mut i: usize = 0;
    proof {
        assert(views(lines@).take(0) =~= Seq::<Seq<u8>>::empty());
        assert(join(Seq::<Seq<u8>>::empty()) =~= Seq::<u8>::empty());
    }
    while i < lines.len()
        invariant
            i <= lines.len(),
            text@ == join(views(lines@).take(i as int)),
        decreases lines.len() - i,
    {
        proof {
            assert(views(lines@).take(i + 1) =~= views(lines@).take(i as int).push(
                lines@[i as int]@,
            ));
            lemma_join_push(views(lines@).take(i as int), lines@[i as int]@);
        }
        push_bytes(&mut text, lines[i].as_slice());
        i += 1;
    }
    proof {
        assert(views(lines@).take(i as int) =~= views(lines@));
    }
    text
}

} // verus!
