//! Patching the contents of files.
//!
//! These are the operations on whole files, stated on their contents: the
//! caller reads the files, and writes what the outcome asks for.

use vstd::prelude::*;
use vstd::slice::slice_to_vec;
use crate::apply::{apply, applied, apply_to_text, ApplyError, ApplyErrorModel, DEFAULT_FUZZ_WINDOW};
use crate::diff::{diff, diff_of};
use crate::format::{read, written, ParseError, ParseFault};
use crate::lines::{has_no_newline, push_bytes, same_bytes, views, NEWLINE};
use crate::parse::parse;
use crate::patch::PatchModel;
use crate::round_trip::written_patch_reads_back;
use crate::serialize::serialize;

verus! {

/// The byte that separates the names of a path in a label.
pub const SLASH: u8 = 47;

/// The byte that stands for the current directory at the start of a label.
pub const DOT: u8 = 46;

/// What is to be done with the target file after a patch was applied.
#[derive(Clone, Debug, PartialEq, Eq)]
pub enum Outcome {
    /// The target already holds the patched content: nothing is written.
    Unchanged,
    /// The target is to hold this content.
    Write(Vec<u8>),
}

/// Why a file could not be patched.
#[derive(Clone, Debug, PartialEq, Eq)]
pub enum PatchError {
    /// The patch file holds no patch.
    Parse(ParseError),
    /// The patch does not apply to the original.
    Apply(ApplyError),
}

/// The mathematical value of an [`Outcome`].
pub enum OutcomeModel {
    Unchanged,
    Write(Seq<u8>),
}

/// The mathematical value of a [`PatchError`].
pub enum PatchErrorModel {
    Parse(ParseFault),
    Apply(ApplyErrorModel),
}

impl View for Outcome {
    type V = OutcomeModel;

    open spec fn view(&self) -> OutcomeModel {
        match *self {
            Outcome::Unchanged => OutcomeModel::Unchanged,
            Outcome::Write(content) => OutcomeModel::Write(content@),
        }
    }
}

impl View for PatchError {
    type V = PatchErrorModel;

    open spec fn view(&self) -> PatchErrorModel {
        match *self {
            PatchError::Parse(error) => PatchErrorModel::Parse(error@),
            PatchError::Apply(error) => PatchErrorModel::Apply(error@),
        }
    }
}

/// The contents of an optional buffer.
pub open spec fn content_model(content: Option<&[u8]>) -> Option<Seq<u8>> {
    match content {
        Some(bytes) => Some(bytes@),
        None => None,
    }
}

/// What applying the text of a patch to an original asks of the target:
/// nothing where the target already holds the result, else to write it.
pub open spec fn file_patch_outcome(
    patch_text: Seq<u8>,
    original: Seq<u8>,
    target: Option<Seq<u8>>,
) -> Result<OutcomeModel, PatchErrorModel> {
    match read(patch_text) {
        Err(fault) => Err(PatchErrorModel::Parse(fault)),
        Ok(patch) => match apply_to_text(patch, original, DEFAULT_FUZZ_WINDOW as nat) {
            Err(error) => Err(PatchErrorModel::Apply(error)),
            Ok(patched) => if target == Some(patched) {
                Ok(OutcomeModel::Unchanged)
            } else {
                Ok(OutcomeModel::Write(patched))
            },
        },
    }
}

/// Applies the text of a patch to the content of the original file and
/// says what the target file is to hold.
///
/// `target` is the present content of the target file, if it exists. Where
/// it already equals the patched content the outcome is
/// [`Outcome::Unchanged`], so that an unchanged file is not rewritten.
pub fn apply_file_patch(patch_text: &[u8], original: &[u8], target: Option<&[u8]>) -> (result:
    Result<Outcome, PatchError>)
    ensures
        match result {
            Ok(outcome) => file_patch_outcome(patch_text@, original@, content_model(target))
                == Ok::<OutcomeModel, PatchErrorModel>(outcome@),
            Err(error) => file_patch_outcome(patch_text@, original@, content_model(target))
                == Err::<OutcomeModel, PatchErrorModel>(error@),
        },
{
    let patch = match parse(patch_text) {
        Ok(patch) => patch,
        Err(error) => {
            return Err(PatchError::Parse(error));
        },
    };
    let patched = match apply(&patch, original) {
        Ok(patched) => patched,
        Err(error) => {
            return Err(PatchError::Apply(error));
        },
    };
    match target {
        Some(present) => {
            if same_bytes(patched.as_slice(), present) {
                Ok(Outcome::Unchanged)
            } else {
                Ok(Outcome::Write(patched))
            }
        },
        None => Ok(Outcome::Write(patched)),
    }
}

/// Applies the text of a patch to the content of a file that is both the
/// original and the target.
pub fn apply_file_patch_in_place(patch_text: &[u8], target: &[u8]) -> (result: Result<
    Outcome,
    PatchError,
>)
    ensures
        match result {
            Ok(outcome) => file_patch_outcome(patch_text@, target@, Some(target@)) == Ok::<
                OutcomeModel,
                PatchErrorModel,
            >(outcome@),
            Err(error) => file_patch_outcome(patch_text@, target@, Some(target@)) == Err::<
                OutcomeModel,
                PatchErrorModel,
            >(error@),
        },
{
    apply_file_patch(patch_text, target, Some(target))
}

/// The text of a patch reads as a patch that, applied to `original`, gives
/// `target`.
pub open spec fn file_patch_applied(patch_text: Seq<u8>, original: Seq<u8>, target: Seq<u8>) -> bool {
    match read(patch_text) {
        Ok(patch) => applied(patch, original, target, DEFAULT_FUZZ_WINDOW as nat),
        Err(_) => false,
    }
}

/// Tells whether the text of a patch, applied to the content of the
/// original file, gives exactly the content of the target file. A text that
/// is no patch, and a patch that does not apply, count as not applied.
pub fn is_file_patch_applied(patch_text: &[u8], original: &[u8], target: &[u8]) -> (yes: bool)
    ensures
        yes == file_patch_applied(patch_text@, original@, target@),
{
    match parse(patch_text) {
        Ok(patch) => crate::apply::is_applied(&patch, original, target),
        Err(_) => false,
    }
}

/// The number of names that two paths share at their ends.
pub open spec fn common_tail_len(first: Seq<Seq<u8>>, second: Seq<Seq<u8>>) -> nat
    decreases first.len(),
{
    if first.len() == 0 || second.len() == 0 || first.last() != second.last() {
        0
    } else {
        1 + common_tail_len(first.drop_last(), second.drop_last())
    }
}

/// The names that two paths share at their ends.
pub open spec fn common_tail(first: Seq<Seq<u8>>, second: Seq<Seq<u8>>) -> Seq<Seq<u8>> {
    first.subrange(first.len() - common_tail_len(first, second), first.len() as int)
}

/// The names of a path, each led by a slash.
pub open spec fn slashed(names: Seq<Seq<u8>>) -> Seq<u8> {
    names.map_values(|name: Seq<u8>| seq![SLASH] + name).flatten()
}

/// The label for the names that two paths share: a dot, then each name led
/// by a slash.
pub open spec fn tail_label(names: Seq<Seq<u8>>) -> Seq<u8> {
    seq![DOT] + slashed(names)
}

/// The label that the patch between two files gets from their paths, each
/// given by the names that follow its root: the shared end of the two, as
/// a path from the current directory. There is none where the paths share
/// no name at their ends, where they are the same path (the shared end is
/// then the whole path and starts at the root), and where the label would
/// hold a newline.
pub open spec fn path_label(first: Seq<Seq<u8>>, second: Seq<Seq<u8>>) -> Option<Seq<u8>> {
    let tail = common_tail(first, second);
    if tail.len() == 0 || (tail.len() == first.len() && tail.len() == second.len())
        || !has_no_newline(tail_label(tail)) {
        None
    } else {
        Some(tail_label(tail))
    }
}

/// The patch with both labels replaced, where there is a label to use.
pub open spec fn labelled(patch: PatchModel, label: Option<Seq<u8>>) -> PatchModel {
    match label {
        Some(name) => PatchModel { original: Some(name), modified: Some(name), hunks: patch.hunks },
        None => patch,
    }
}

/// The patch between two files, labelled with the shared end of their
/// paths.
pub open spec fn file_patch_of(
    original: Seq<u8>,
    modified: Seq<u8>,
    original_path: Seq<Seq<u8>>,
    modified_path: Seq<Seq<u8>>,
) -> PatchModel {
    labelled(diff_of(original, modified), path_label(original_path, modified_path))
}

/// The shared end of two paths is an end of both, and the names before it
/// differ where both paths have one.
pub proof fn common_tail_is_longest(first: Seq<Seq<u8>>, second: Seq<Seq<u8>>)
    ensures
        common_tail_len(first, second) <= first.len(),
        common_tail_len(first, second) <= second.len(),
        common_tail(first, second) == second.subrange(
            second.len() - common_tail_len(first, second),
            second.len() as int,
        ),
        common_tail_len(first, second) < first.len() && common_tail_len(first, second)
            < second.len() ==> first[first.len() - common_tail_len(first, second) - 1]
            != second[second.len() - common_tail_len(first, second) - 1],
    decreases first.len(),
{
    if first.len() == 0 || second.len() == 0 || first.last() != second.last() {
        assert(common_tail(first, second) =~= second.subrange(
            second.len() as int,
            second.len() as int,
        ));
    } else {
        common_tail_is_longest(first.drop_last(), second.drop_last());
        let n = common_tail_len(first, second);
        assert(common_tail(first, second) =~= common_tail(
            first.drop_last(),
            second.drop_last(),
        ).push(first.last()));
        assert(second.subrange(second.len() - n, second.len() as int) =~= second.drop_last().subrange(
            second.len() - n,
            second.len() - 1,
        ).push(second.last()));
    }
}

/// Counts the names that two paths share at their ends.
pub fn count_common_tail(first: &Vec<Vec<u8>>, second: &Vec<Vec<u8>>) -> (count: usize)
    ensures
        count == common_tail_len(views(first@), views(second@)),
        count <= first.len(),
        count <= second.len(),
{
    let ghost one = views(first@);
    let ghost two = views(second@);
    let mut count: usize = 0;
    proof {
        assert(one.take(one.len() as int) =~= one);
        assert(two.take(two.len() as int) =~= two);
    }
    while count < first.len() && count < second.len()
        invariant
            count <= first.len(),
            count <= second.len(),
            one == views(first@),
            two == views(second@),
            common_tail_len(one, two) == count + common_tail_len(
                one.take(one.len() - count),
                two.take(two.len() - count),
            ),
        decreases first.len() - count,
    {
        let ghost left = one.take(one.len() - count);
        let ghost right = two.take(two.len() - count);
        proof {
            assert(left.last() == first@[first.len() - 1 - count]@);
            assert(right.last() == second@[second.len() - 1 - count]@);
            assert(left.drop_last() =~= one.take(one.len() - count - 1));
            assert(right.drop_last() =~= two.take(two.len() - count - 1));
        }
        if !same_bytes(
            first[first.len() - 1 - count].as_slice(),
            second[second.len() - 1 - count].as_slice(),
        ) {
            return count;
        }
        count += 1;
    }
    count
}

/// The names of a path with one more name.
pub proof fn lemma_slashed_push(names: Seq<Seq<u8>>, name: Seq<u8>)
    ensures
        slashed(names.push(name)) == slashed(names) + (seq![SLASH] + name),
{
    let each = |name: Seq<u8>| seq![SLASH] + name;
    assert(names.push(name).map_values(each) =~= names.map_values(each).push(each(name)));
    names.map_values(each).lemma_flatten_push(each(name));
}

/// Tells whether a buffer holds no newline.
fn holds_no_newline(bytes: &[u8]) -> (none: bool)
    ensures
        none == has_no_newline(bytes@),
{
    let mut i: usize = 0;
    while i < bytes.len()
        invariant
            i <= bytes.len(),
            forall|j: int| 0 <= j < i ==> bytes@[j] != NEWLINE,
        decreases bytes.len() - i,
    {
        if bytes[i] == NEWLINE {
            return false;
        }
        i += 1;
    }
    true
}

/// Computes the label that the patch between two files gets from their
/// paths, each given by the names that follow its root.
pub fn make_path_label(first: &Vec<Vec<u8>>, second: &Vec<Vec<u8>>) -> (label: Option<Vec<u8>>)
    ensures
        crate::patch::label_model(label) == path_label(views(first@), views(second@)),
{
    let count = count_common_tail(first, second);
    if count == 0 || (count == first.len() && count == second.len()) {
        return None;
    }
    let ghost tail = common_tail(views(first@), views(second@));
    let start = first.len() - count;
    let mut label: Vec<u8> = Vec::new();
    label.push(DOT);
    let mut i: usize = start;
    proof {
        assert(tail.take(0) =~= Seq::<Seq<u8>>::empty());
        assert(slashed(Seq::<Seq<u8>>::empty()) =~= Seq::<u8>::empty());
        assert(label@ =~= seq![DOT] + slashed(tail.take(0)));
    }
    while i < first.len()
        invariant
            start <= i <= first.len(),
            start == first.len() - count,
            tail == views(first@).subrange(start as int, first.len() as int),
            label@ == seq![DOT] + slashed(tail.take(i - start)),
        decreases first.len() - i,
    {
        proof {
            assert(tail.take(i - start + 1) =~= tail.take(i - start).push(first@[i as int]@));
            lemma_slashed_push(tail.take(i - start), first@[i as int]@);
        }
        label.push(SLASH);
        push_bytes(&mut label, first[i].as_slice());
        proof {
            assert(label@ =~= seq![DOT] + slashed(tail.take(i - start + 1)));
        }
        i += 1;
    }
    proof {
        assert(tail.take(i - start) =~= tail);
    }
    if holds_no_newline(label.as_slice()) {
        Some(label)
    } else {
        None
    }
}

/// Computes the text of the patch between the contents of two files.
///
/// The paths are given by the names that follow their roots. Where they
/// share names at their ends without being the same path, both sides of
/// the patch are labelled with that shared end; otherwise the labels are
/// `original` and `modified`. The text reads back as the patch it was
/// written from.
pub fn create_file_patch(
    original: &[u8],
    modified: &[u8],
    original_path: &Vec<Vec<u8>>,
    modified_path: &Vec<Vec<u8>>,
) -> (text: Vec<u8>)
    ensures
        text@ == written(
            file_patch_of(original@, modified@, views(original_path@), views(modified_path@)),
        ),
        read(text@) == Ok::<PatchModel, ParseFault>(
            file_patch_of(original@, modified@, views(original_path@), views(modified_path@)),
        ),
{
    let mut patch = diff(original, modified);
    match make_path_label(original_path, modified_path) {
        Some(label) => {
            patch.original = Some(slice_to_vec(label.as_slice()));
            patch.modified = Some(label);
        },
        None => {},
    }
    proof {
        written_patch_reads_back(patch@);
    }
    serialize(&patch)
}

} // verus!
