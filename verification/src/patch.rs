//! The patch data model: tagged lines, hunks and patches, with their
//! mathematical views and the two line sequences a hunk stands for.

use vstd::prelude::*;
use vstd::slice::slice_to_vec;
use crate::lines::{has_no_newline, views};

verus! {

/// How a line of a hunk relates the original to the modified text.
#[derive(Clone, Copy, Debug, PartialEq, Eq, Structural)]
pub enum LineKind {
    /// Present in both texts.
    Context,
    /// Present in the original only.
    Deletion,
    /// Present in the modified text only.
    Insertion,
}

/// One tagged line of a hunk. The text keeps its newline; a text without
/// one is the last line of a buffer that does not end with a newline.
#[derive(Clone, Debug, PartialEq, Eq)]
pub struct Line {
    pub kind: LineKind,
    pub text: Vec<u8>,
}

/// A contiguous change region. Starts are 1-based line numbers; a region of
/// no lines starts at the number of the line before it.
#[derive(Clone, Debug, PartialEq, Eq)]
pub struct Hunk {
    pub original_start: usize,
    pub original_len: usize,
    pub modified_start: usize,
    pub modified_len: usize,
    pub lines: Vec<Line>,
}

/// An ordered sequence of hunks with optional labels for the two sides.
#[derive(Clone, Debug, PartialEq, Eq)]
pub struct Patch {
    pub original: Option<Vec<u8>>,
    pub modified: Option<Vec<u8>>,
    pub hunks: Vec<Hunk>,
}

/// The mathematical value of a [`Line`].
pub struct LineModel {
    pub kind: LineKind,
    pub text: Seq<u8>,
}

/// The mathematical value of a [`Hunk`].
pub struct HunkModel {
    pub original_start: nat,
    pub original_len: nat,
    pub modified_start: nat,
    pub modified_len: nat,
    pub lines: Seq<LineModel>,
}

/// The mathematical value of a [`Patch`].
pub struct PatchModel {
    pub original: Option<Seq<u8>>,
    pub modified: Option<Seq<u8>>,
    pub hunks: Seq<HunkModel>,
}

impl View for Line {
    type V = LineModel;

    open spec fn view(&self) -> LineModel {
        LineModel { kind: self.kind, text: self.text@ }
    }
}

/// The values of a vector of lines.
pub open spec fn line_models(lines: Seq<Line>) -> Seq<LineModel> {
    Seq::new(lines.len(), |i: int| lines[i]@)
}

impl View for Hunk {
    type V = HunkModel;

    open spec fn view(&self) -> HunkModel {
        HunkModel {
            original_start: self.original_start as nat,
            original_len: self.original_len as nat,
            modified_start: self.modified_start as nat,
            modified_len: self.modified_len as nat,
            lines: line_models(self.lines@),
        }
    }
}

/// The values of a vector of hunks.
pub open spec fn hunk_models(hunks: Seq<Hunk>) -> Seq<HunkModel> {
    Seq::new(hunks.len(), |i: int| hunks[i]@)
}

/// The contents of an optional label.
pub open spec fn label_model(label: Option<Vec<u8>>) -> Option<Seq<u8>> {
    match label {
        Some(bytes) => Some(bytes@),
        None => None,
    }
}

impl View for Patch {
    type V = PatchModel;

    open spec fn view(&self) -> PatchModel {
        PatchModel {
            original: label_model(self.original),
            modified: label_model(self.modified),
            hunks: hunk_models(self.hunks@),
        }
    }
}

/// The lines that a hunk expects in the original: its context and deletion
/// lines, in order.
pub open spec fn original_side(lines: Seq<LineModel>) -> Seq<Seq<u8>>
    decreases lines.len(),
{
    if lines.len() == 0 {
        Seq::empty()
    } else if lines.last().kind == LineKind::Insertion {
        original_side(lines.drop_last())
    } else {
        original_side(lines.drop_last()).push(lines.last().text)
    }
}

/// The lines that a hunk leaves in the modified text: its context and
/// insertion lines, in order.
pub open spec fn modified_side(lines: Seq<LineModel>) -> Seq<Seq<u8>>
    decreases lines.len(),
{
    if lines.len() == 0 {
        Seq::empty()
    } else if lines.last().kind == LineKind::Deletion {
        modified_side(lines.drop_last())
    } else {
        modified_side(lines.drop_last()).push(lines.last().text)
    }
}

/// The 0-based index of the line at which a range starts.
pub open spec fn range_offset(start: nat, len: nat) -> nat {
    if len == 0 || start == 0 {
        start
    } else {
        (start - 1) as nat
    }
}

/// The text of a hunk line can be written on one line: it holds no newline
/// but possibly as its last byte.
pub open spec fn is_line_text(text: Seq<u8>) -> bool {
    text.len() == 0 || has_no_newline(text.drop_last())
}

impl HunkModel {
    /// The 0-based index in the original at which the hunk expects its lines.
    pub open spec fn original_offset(self) -> nat {
        range_offset(self.original_start, self.original_len)
    }

    /// The 0-based index in the modified text at which the hunk's lines stand.
    pub open spec fn modified_offset(self) -> nat {
        range_offset(self.modified_start, self.modified_len)
    }

    /// The declared lengths are the numbers of lines on each side, each
    /// line's text fits on one line, and the four numbers fit a machine word.
    pub open spec fn well_formed(self) -> bool {
        &&& self.original_start <= usize::MAX
        &&& self.original_len <= usize::MAX
        &&& self.modified_start <= usize::MAX
        &&& self.modified_len <= usize::MAX
        &&& self.original_len == original_side(self.lines).len()
        &&& self.modified_len == modified_side(self.lines).len()
        &&& forall|i: int| 0 <= i < self.lines.len() ==> is_line_text(#[trigger] self.lines[i].text)
    }
}

impl PatchModel {
    /// Every hunk is well formed and no label holds a newline.
    pub open spec fn well_formed(self) -> bool {
        &&& forall|i: int| 0 <= i < self.hunks.len() ==> (#[trigger] self.hunks[i]).well_formed()
        &&& self.original is Some ==> has_no_newline(self.original->0)
        &&& self.modified is Some ==> has_no_newline(self.modified->0)
    }
}

/// One more line adds its text to the original side unless it is an
/// insertion, and to the modified side unless it is a deletion.
pub proof fn lemma_sides_push(lines: Seq<LineModel>, line: LineModel)
    ensures
        original_side(lines.push(line)) == if line.kind == LineKind::Insertion {
            original_side(lines)
        } else {
            original_side(lines).push(line.text)
        },
        modified_side(lines.push(line)) == if line.kind == LineKind::Deletion {
            modified_side(lines)
        } else {
            modified_side(lines).push(line.text)
        },
{
    assert(lines.push(line).drop_last() =~= lines);
}

impl Hunk {
    /// The 0-based index in the original at which the hunk expects its lines.
    pub fn original_offset(&self) -> (offset: usize)
        ensures
            offset == self@.original_offset(),
    {
        if self.original_len == 0 || self.original_start == 0 {
            self.original_start
        } else {
            self.original_start - 1
        }
    }

    /// The 0-based index in the modified text at which the hunk's lines stand.
    pub fn modified_offset(&self) -> (offset: usize)
        ensures
            offset == self@.modified_offset(),
    {
        if self.modified_len == 0 || self.modified_start == 0 {
            self.modified_start
        } else {
            self.modified_start - 1
        }
    }

    /// The context and deletion lines of the hunk, in order.
    pub fn original_side(&self) -> (side: Vec<Vec<u8>>)
        ensures
            views(side@) == original_side(self@.lines),
    {
        let mut side: Vec<Vec<u8>> = Vec::new();
        let mut i: usize = 0;
        proof {
            assert(self@.lines.take(0) =~= Seq::<LineModel>::empty());
            assert(views(side@) =~= Seq::<Seq<u8>>::empty());
        }
        while i < self.lines.len()
            invariant
                i <= self.lines.len(),
                views(side@) == original_side(self@.lines.take(i as int)),
            decreases self.lines.len() - i,
        {
            proof {
                let done = self@.lines.take(i as int);
                assert(self@.lines.take(i + 1) =~= done.push(self.lines[i as int]@));
                lemma_sides_push(done, self.lines[i as int]@);
            }
            if self.lines[i].kind != LineKind::Insertion {
                let text = slice_to_vec(self.lines[i].text.as_slice());
                proof {
                    assert(views(side@.push(text)) =~= views(side@).push(text@));
                }
                side.push(text);
            }
            i += 1;
        }
        proof {
            assert(self@.lines.take(i as int) =~= self@.lines);
        }
        side
    }

    /// The context and insertion lines of the hunk, in order.
    pub fn modified_side(&self) -> (side: Vec<Vec<u8>>)
        ensures
            views(side@) == modified_side(self@.lines),
    {
        let mut side: Vec<Vec<u8>> = Vec::new();
        let mut i: usize = 0;
        proof {
            assert(self@.lines.take(0) =~= Seq::<LineModel>::empty());
            assert(views(side@) =~= Seq::<Seq<u8>>::empty());
        }
        while i < self.lines.len()
            invariant
                i <= self.lines.len(),
                views(side@) == modified_side(self@.lines.take(i as int)),
            decreases self.lines.len() - i,
        {
            proof {
                let done = self@.lines.take(i as int);
                assert(self@.lines.take(i + 1) =~= done.push(self.lines[i as int]@));
                lemma_sides_push(done, self.lines[i as int]@);
            }
            if self.lines[i].kind != LineKind::Deletion {
                let text = slice_to_vec(self.lines[i].text.as_slice());
                proof {
                    assert(views(side@.push(text)) =~= views(side@).push(text@));
                }
                side.push(text);
            }
            i += 1;
        }
        proof {
            assert(self@.lines.take(i as int) =~= self@.lines);
        }
        side
    }
}

} // verus!
