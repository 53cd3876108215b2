//! Computing the patch between two buffers.
//!
//! The line alignment is computed by the `diffy` crate. What it returns is
//! read and checked here against both buffers before it is used, so that
//! the patch handed out turns the original into the modified text whatever
//! the alignment was.

use vstd::prelude::*;
use vstd::slice::slice_to_vec;
use crate::apply::{lines_match_at, matches_at};
use crate::format::read;
use crate::lines::{same_bytes, split, split_lines, views};
use crate::parse::parse;
use crate::well_formed::{checked_is_well_formed, diff_is_well_formed};
use crate::patch::{
    lemma_sides_push, line_models, modified_side, original_side, Hunk, HunkModel, Line, LineKind,
    LineModel, Patch, PatchModel,
};

verus! {

/// The text of the patch that `diffy` computes between two buffers.
pub uninterp spec fn diffy_patch_text(original: Seq<u8>, modified: Seq<u8>) -> Seq<u8>;

/// Calls `diffy::create_patch_bytes` on the two buffers and writes the
/// patch it returns with `diffy::Patch::to_bytes`.
///
/// Nothing is claimed of the text but that it is a function of the two
/// buffers: the alignment is computed from the lines alone, and the text
/// is written from the patch alone.
#[verifier::external_body]
fn diffy_create_patch(original: &[u8], modified: &[u8]) -> (text: Vec<u8>)
    ensures
        text@ == diffy_patch_text(original@, modified@),
{
    diffy::create_patch_bytes(original, modified).to_bytes()
}

/// The label that a computed patch gives the original.
pub open spec fn original_label() -> Seq<u8> {
    seq![111u8, 114u8, 105u8, 103u8, 105u8, 110u8, 97u8, 108u8]
}

/// The label that a computed patch gives the modified text.
pub open spec fn modified_label() -> Seq<u8> {
    seq![109u8, 111u8, 100u8, 105u8, 102u8, 105u8, 101u8, 100u8]
}

/// The hunk stands between the two texts at its declared places: the lines
/// since the hunk before (which ended at `original_floor` and
/// `modified_floor`) are the same in both, the hunk's original side stands
/// in the original and its modified side in the modified text, and the
/// declared lengths are those of the two sides.
pub open spec fn hunk_fits(
    hunk: HunkModel,
    original: Seq<Seq<u8>>,
    modified: Seq<Seq<u8>>,
    original_floor: int,
    modified_floor: int,
) -> bool {
    let original_at = hunk.original_offset() as int;
    let modified_at = hunk.modified_offset() as int;
    &&& original_floor <= original_at
    &&& modified_floor <= modified_at
    &&& original_at - original_floor == modified_at - modified_floor
    &&& original_at <= original.len()
    &&& modified_at <= modified.len()
    &&& original.subrange(original_floor, original_at) == modified.subrange(
        modified_floor,
        modified_at,
    )
    &&& hunk.original_len == original_side(hunk.lines).len()
    &&& hunk.modified_len == modified_side(hunk.lines).len()
    &&& matches_at(original, original_side(hunk.lines), original_at)
    &&& matches_at(modified, modified_side(hunk.lines), modified_at)
}

/// The hunks from `index` on stand between the two texts, and the lines
/// after the last of them are the same in both.
pub open spec fn transforms_from(
    hunks: Seq<HunkModel>,
    original: Seq<Seq<u8>>,
    modified: Seq<Seq<u8>>,
    index: nat,
    original_floor: int,
    modified_floor: int,
) -> bool
    decreases hunks.len() - index,
{
    if index >= hunks.len() {
        &&& 0 <= original_floor <= original.len()
        &&& 0 <= modified_floor <= modified.len()
        &&& original.subrange(original_floor, original.len() as int) == modified.subrange(
            modified_floor,
            modified.len() as int,
        )
    } else {
        let hunk = hunks[index as int];
        &&& hunk_fits(hunk, original, modified, original_floor, modified_floor)
        &&& transforms_from(
            hunks,
            original,
            modified,
            index + 1,
            (hunk.original_offset() + original_side(hunk.lines).len()) as int,
            (hunk.modified_offset() + modified_side(hunk.lines).len()) as int,
        )
    }
}

/// The patch describes exactly how the lines of `modified` differ from
/// those of `original`: its hunks stand in order at their declared places,
/// and everything outside them is the same in both.
pub open spec fn transforms(patch: PatchModel, original: Seq<Seq<u8>>, modified: Seq<Seq<u8>>) -> bool {
    transforms_from(patch.hunks, original, modified, 0, 0, 0)
}

/// Tells whether `count` lines of `a` from `a_from` equal those of `b` from
/// `b_from`.
fn same_lines(a: &Vec<Vec<u8>>, a_from: usize, b: &Vec<Vec<u8>>, b_from: usize, count: usize) -> (same:
    bool)
    requires
        a_from + count <= a.len(),
        b_from + count <= b.len(),
    ensures
        same == (views(a@).subrange(a_from as int, a_from + count) == views(b@).subrange(
            b_from as int,
            b_from + count,
        )),
{
    let ghost left = views(a@).subrange(a_from as int, a_from + count);
    let ghost right = views(b@).subrange(b_from as int, b_from + count);
    let mut i: usize = 0;
    while i < count
        invariant
            i <= count,
            a_from + count <= a.len(),
            b_from + count <= b.len(),
            left == views(a@).subrange(a_from as int, a_from + count),
            right == views(b@).subrange(b_from as int, b_from + count),
            forall|j: int| 0 <= j < i ==> left[j] == right[j],
        decreases count - i,
    {
        assert(left[i as int] == a@[a_from + i]@);
        assert(right[i as int] == b@[b_from + i]@);
        if !same_bytes(a[a_from + i].as_slice(), b[b_from + i].as_slice()) {
            return false;
        }
        i += 1;
    }
    proof {
        assert(left =~= right);
    }
    true
}

/// Tells whether the patch describes exactly how `modified` differs from
/// `original`.
pub fn check_transforms(patch: &Patch, original: &Vec<Vec<u8>>, modified: &Vec<Vec<u8>>) -> (valid:
    bool)
    ensures
        valid == transforms(patch@, views(original@), views(modified@)),
{
    let ghost hunks = patch@.hunks;
    let ghost from = views(original@);
    let ghost to = views(modified@);
    let mut original_floor: usize = 0;
    let mut modified_floor: usize = 0;
    let mut index: usize = 0;
    while index < patch.hunks.len()
        invariant
            index <= patch.hunks.len(),
            original_floor <= original.len(),
            modified_floor <= modified.len(),
            hunks == patch@.hunks,
            from == views(original@),
            to == views(modified@),
            transforms(patch@, from, to) == transforms_from(
                hunks,
                from,
                to,
                index as nat,
                original_floor as int,
                modified_floor as int,
            ),
        decreases patch.hunks.len() - index,
    {
        let hunk = &patch.hunks[index];
        assert(hunk@ == hunks[index as int]);
        let original_at = hunk.original_offset();
        let modified_at = hunk.modified_offset();
        if original_at < original_floor || modified_at < modified_floor || original_at
            > original.len() || modified_at > modified.len() || original_at - original_floor
            != modified_at - modified_floor {
            return false;
        }
        if !same_lines(
            original,
            original_floor,
            modified,
            modified_floor,
            original_at - original_floor,
        ) {
            return false;
        }
        let removed = hunk.original_side();
        let added = hunk.modified_side();
        if hunk.original_len != removed.len() || hunk.modified_len != added.len() {
            return false;
        }
        if !lines_match_at(original, &removed, original_at) || !lines_match_at(
            modified,
            &added,
            modified_at,
        ) {
            return false;
        }
        original_floor = original_at + removed.len();
        modified_floor = modified_at + added.len();
        index += 1;
    }
    if original.len() - original_floor != modified.len() - modified_floor {
        proof {
            assert(from.subrange(original_floor as int, from.len() as int).len() != to.subrange(
                modified_floor as int,
                to.len() as int,
            ).len());
        }
        return false;
    }
    same_lines(original, original_floor, modified, modified_floor, original.len() - original_floor)
}

/// The given texts as lines of one kind.
pub open spec fn tagged(kind: LineKind, texts: Seq<Seq<u8>>) -> Seq<LineModel> {
    Seq::new(texts.len(), |i: int| LineModel { kind, text: texts[i] })
}

/// The start that is written for a range of `len` lines at the top of a
/// text.
pub open spec fn top_start(len: nat) -> nat {
    if len == 0 {
        0
    } else {
        1
    }
}

/// The patch with no hunks and the labels of a computed patch.
pub open spec fn unchanged() -> PatchModel {
    PatchModel {
        original: Some(original_label()),
        modified: Some(modified_label()),
        hunks: Seq::empty(),
    }
}

/// The patch that replaces every line of `original` by the lines of
/// `modified` in one hunk; the patch with no hunks where both are empty.
pub open spec fn replacement(original: Seq<Seq<u8>>, modified: Seq<Seq<u8>>) -> PatchModel {
    PatchModel {
        original: Some(original_label()),
        modified: Some(modified_label()),
        hunks: if original.len() == 0 && modified.len() == 0 {
            Seq::empty()
        } else {
            seq![
                HunkModel {
                    original_start: top_start(original.len()),
                    original_len: original.len(),
                    modified_start: top_start(modified.len()),
                    modified_len: modified.len(),
                    lines: tagged(LineKind::Deletion, original) + tagged(
                        LineKind::Insertion,
                        modified,
                    ),
                },
            ]
        },
    }
}

/// The patch made of a candidate text: the patch that the text reads as
/// where it turns `original` into `modified`, else the replacement of the
/// one by the other.
pub open spec fn checked(candidate: Seq<u8>, original: Seq<u8>, modified: Seq<u8>) -> PatchModel {
    match read(candidate) {
        Ok(patch) => if transforms(patch, split(original), split(modified)) {
            patch
        } else {
            replacement(split(original), split(modified))
        },
        Err(_) => replacement(split(original), split(modified)),
    }
}

/// The patch between two buffers.
pub open spec fn diff_of(original: Seq<u8>, modified: Seq<u8>) -> PatchModel {
    if original == modified {
        unchanged()
    } else {
        checked(diffy_patch_text(original, modified), original, modified)
    }
}

/// The label that a computed patch gives the original.
fn make_original_label() -> (label: Vec<u8>)
    ensures
        label@ == original_label(),
{
    let label = vec![111u8, 114u8, 105u8, 103u8, 105u8, 110u8, 97u8, 108u8];
    proof {
        assert(label@ =~= original_label());
    }
    label
}

/// The label that a computed patch gives the modified text.
fn make_modified_label() -> (label: Vec<u8>)
    ensures
        label@ == modified_label(),
{
    let label = vec![109u8, 111u8, 100u8, 105u8, 102u8, 105u8, 101u8, 100u8];
    proof {
        assert(label@ =~= modified_label());
    }
    label
}

/// Appends the given texts to `lines` as lines of one kind.
fn push_tagged(lines: &mut Vec<Line>, kind: LineKind, texts: &Vec<Vec<u8>>)
    ensures
        line_models(final(lines)@) == line_models(old(lines)@) + tagged(kind, views(texts@)),
{
    let mut i: usize = 0;
    proof {
        assert(line_models(lines@) =~= line_models(old(lines)@) + tagged(
            kind,
            views(texts@).take(0),
        ));
    }
    while i < texts.len()
        invariant
            i <= texts.len(),
            line_models(lines@) == line_models(old(lines)@) + tagged(
                kind,
                views(texts@).take(i as int),
            ),
        decreases texts.len() - i,
    {
        let text = slice_to_vec(texts[i].as_slice());
        let line = Line { kind, text };
        proof {
            assert(line_models(lines@.push(line)) =~= line_models(lines@).push(line@));
            assert(views(texts@).take(i + 1) =~= views(texts@).take(i as int).push(text@));
            assert(tagged(kind, views(texts@).take(i + 1)) =~= tagged(
                kind,
                views(texts@).take(i as int),
            ).push(line@));
            assert(line_models(lines@).push(line@) =~= line_models(old(lines)@) + tagged(
                kind,
                views(texts@).take(i + 1),
            ));
        }
        lines.push(line);
        i += 1;
    }
    proof {
        assert(views(texts@).take(i as int) =~= views(texts@));
    }
}

/// Builds the patch that replaces every line of `original` by the lines of
/// `modified` in one hunk.
pub fn replacement_patch(original: &Vec<Vec<u8>>, modified: &Vec<Vec<u8>>) -> (patch: Patch)
    ensures
        patch@ == replacement(views(original@), views(modified@)),
{
    let mut hunks: Vec<Hunk> = Vec::new();
    if original.len() > 0 || modified.len() > 0 {
        let mut lines: Vec<Line> = Vec::new();
        push_tagged(&mut lines, LineKind::Deletion, original);
        push_tagged(&mut lines, LineKind::Insertion, modified);
        let hunk = Hunk {
            original_start: if original.len() == 0 {
                0
            } else {
                1
            },
            original_len: original.len(),
            modified_start: if modified.len() == 0 {
                0
            } else {
                1
            },
            modified_len: modified.len(),
            lines,
        };
        proof {
            assert(hunk@.lines =~= tagged(LineKind::Deletion, views(original@)) + tagged(
                LineKind::Insertion,
                views(modified@),
            ));
        }
        hunks.push(hunk);
    }
    let patch = Patch {
        original: Some(make_original_label()),
        modified: Some(make_modified_label()),
        hunks,
    };
    proof {
        assert(patch@.hunks =~= replacement(views(original@), views(modified@)).hunks);
    }
    patch
}

/// Makes a patch between two buffers out of a candidate text.
///
/// The candidate is read as a patch. If it reads as one that turns
/// `original` into `modified`, that patch is returned; otherwise the patch
/// that replaces the whole of the one by the other.
pub fn checked_diff(candidate: &[u8], original: &[u8], modified: &[u8]) -> (patch: Patch)
    ensures
        patch@ == checked(candidate@, original@, modified@),
        transforms(patch@, split(original@), split(modified@)),
        patch@.well_formed(),
{
    let from = split_lines(original);
    let to = split_lines(modified);
    proof {
        lemma_replacement_transforms(views(from@), views(to@));
        assert(original@.len() == original.len() && modified@.len() == modified.len());
        checked_is_well_formed(candidate@, original@, modified@);
    }
    match parse(candidate) {
        Ok(patch) => {
            if check_transforms(&patch, &from, &to) {
                patch
            } else {
                replacement_patch(&from, &to)
            }
        },
        Err(_) => replacement_patch(&from, &to),
    }
}

/// Computes the patch that turns `original` into `modified`.
///
/// Equal buffers give the patch with no hunks. Otherwise the alignment of
/// the lines is taken from `diffy` and checked against both buffers. The
/// patch returned always turns the one into the other: applying it to
/// `original` gives `modified` byte for byte.
pub fn diff(original: &[u8], modified: &[u8]) -> (patch: Patch)
    ensures
        patch@ == diff_of(original@, modified@),
        transforms(patch@, split(original@), split(modified@)),
        patch@.well_formed(),
        original@ == modified@ ==> patch@.hunks.len() == 0,
{
    proof {
        assert(original@.len() == original.len() && modified@.len() == modified.len());
        diff_is_well_formed(original@, modified@);
    }
    if same_bytes(original, modified) {
        let patch = Patch {
            original: Some(make_original_label()),
            modified: Some(make_modified_label()),
            hunks: Vec::new(),
        };
        proof {
            assert(patch@.hunks =~= Seq::<HunkModel>::empty());
            lemma_unchanged_transforms(split(original@));
        }
        patch
    } else {
        let candidate = diffy_create_patch(original, modified);
        checked_diff(candidate.as_slice(), original, modified)
    }
}

/// The deletions of one text followed by the insertions of another have
/// the first as their original side and the second as their modified side.
pub proof fn lemma_tagged_sides(original: Seq<Seq<u8>>, modified: Seq<Seq<u8>>)
    ensures
        original_side(
            tagged(LineKind::Deletion, original) + tagged(LineKind::Insertion, modified),
        ) == original,
        modified_side(
            tagged(LineKind::Deletion, original) + tagged(LineKind::Insertion, modified),
        ) == modified,
    decreases original.len() + modified.len(),
{
    let lines = tagged(LineKind::Deletion, original) + tagged(LineKind::Insertion, modified);
    if modified.len() > 0 {
        let shorter = modified.drop_last();
        lemma_tagged_sides(original, shorter);
        let line = LineModel { kind: LineKind::Insertion, text: modified.last() };
        let before = tagged(LineKind::Deletion, original) + tagged(LineKind::Insertion, shorter);
        assert(lines =~= before.push(line));
        lemma_sides_push(before, line);
        assert(shorter.push(modified.last()) =~= modified);
    } else if original.len() > 0 {
        let shorter = original.drop_last();
        lemma_tagged_sides(shorter, modified);
        let line = LineModel { kind: LineKind::Deletion, text: original.last() };
        let before = tagged(LineKind::Deletion, shorter) + tagged(LineKind::Insertion, modified);
        assert(lines =~= before.push(line));
        lemma_sides_push(before, line);
        assert(shorter.push(original.last()) =~= original);
    } else {
        assert(lines =~= Seq::<LineModel>::empty());
        assert(original =~= Seq::<Seq<u8>>::empty());
        assert(modified =~= Seq::<Seq<u8>>::empty());
    }
}

/// The replacement of one text by another turns the one into the other.
pub proof fn lemma_replacement_transforms(original: Seq<Seq<u8>>, modified: Seq<Seq<u8>>)
    ensures
        transforms(replacement(original, modified), original, modified),
{
    let patch = replacement(original, modified);
    if original.len() == 0 && modified.len() == 0 {
        assert(original.subrange(0, 0) =~= modified.subrange(0, 0));
    } else {
        lemma_tagged_sides(original, modified);
        let hunk = patch.hunks[0];
        assert(original.subrange(0, 0) =~= modified.subrange(0, 0));
        assert(original.subrange(0, original.len() as int) =~= original);
        assert(modified.subrange(0, modified.len() as int) =~= modified);
        assert(original.subrange(original.len() as int, original.len() as int)
            =~= modified.subrange(modified.len() as int, modified.len() as int));
        assert(hunk_fits(hunk, original, modified, 0, 0));
        assert(transforms_from(
            patch.hunks,
            original,
            modified,
            1,
            original.len() as int,
            modified.len() as int,
        ));
    }
}

/// The patch with no hunks turns a text into itself.
pub proof fn lemma_unchanged_transforms(lines: Seq<Seq<u8>>)
    ensures
        transforms(unchanged(), lines, lines),
{
}

} // verus!
