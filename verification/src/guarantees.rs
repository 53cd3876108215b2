//! What holds of computing, applying and checking patches together.

use vstd::prelude::*;
use crate::apply::{
    applied, apply_from, apply_to_lines, apply_to_text, fits, locate, matches_at, locate_from,
    nearby, ApplyErrorModel, DEFAULT_FUZZ_WINDOW,
};
use crate::diff::{
    diff_of, lemma_replacement_transforms, lemma_unchanged_transforms, transforms, transforms_from,
};
use crate::files::{file_patch_applied, file_patch_of};
use crate::format::{looks_tagged, ranges_of, read, read_hunks, written, ParseFault};
use crate::round_trip::written_patch_reads_back;
use crate::well_formed::diff_is_well_formed;
use crate::lines::{lemma_join_split, split};
use crate::patch::{modified_side, original_side, HunkModel, PatchModel};

verus! {

/// Hunks that stand between two texts are each found at their declared
/// place, and applying them gives the second text.
pub proof fn lemma_fitting_hunks_apply(
    hunks: Seq<HunkModel>,
    original: Seq<Seq<u8>>,
    modified: Seq<Seq<u8>>,
    window: nat,
    index: nat,
    original_floor: int,
    modified_floor: int,
)
    requires
        0 <= original_floor,
        0 <= modified_floor,
        transforms_from(hunks, original, modified, index, original_floor, modified_floor),
    ensures
        apply_from(hunks, original, window, index, original_floor) == Ok::<
            Seq<Seq<u8>>,
            ApplyErrorModel,
        >(modified.subrange(modified_floor, modified.len() as int)),
    decreases hunks.len() - index,
{
    if index < hunks.len() {
        let hunk = hunks[index as int];
        let removed = original_side(hunk.lines);
        let added = modified_side(hunk.lines);
        let original_at = hunk.original_offset() as int;
        let modified_at = hunk.modified_offset() as int;
        assert(fits(original, removed, original_floor, original_at - 0));
        assert(locate(original, removed, original_at, original_floor, window) == Some(
            original_at,
        ));
        lemma_fitting_hunks_apply(
            hunks,
            original,
            modified,
            window,
            index + 1,
            original_at + removed.len(),
            modified_at + added.len(),
        );
        assert(modified.subrange(modified_floor, modified_at) + added + modified.subrange(
            modified_at + added.len(),
            modified.len() as int,
        ) =~= modified.subrange(modified_floor, modified.len() as int));
    }
}

/// A patch that turns one text into another, applied to the first, gives
/// the second, whatever the fuzz window.
pub proof fn lemma_transforming_patch_applies(
    patch: PatchModel,
    original: Seq<Seq<u8>>,
    modified: Seq<Seq<u8>>,
    window: nat,
)
    requires
        transforms(patch, original, modified),
    ensures
        apply_to_lines(patch, original, window) == Ok::<Seq<Seq<u8>>, ApplyErrorModel>(modified),
{
    lemma_fitting_hunks_apply(patch.hunks, original, modified, window, 0, 0, 0);
    assert(modified.subrange(0, modified.len() as int) =~= modified);
}

/// The patch between two buffers turns the lines of the first into the
/// lines of the second.
pub proof fn diff_transforms(original: Seq<u8>, modified: Seq<u8>)
    ensures
        transforms(diff_of(original, modified), split(original), split(modified)),
{
    if original == modified {
        lemma_unchanged_transforms(split(original));
    } else {
        lemma_replacement_transforms(split(original), split(modified));
    }
}

/// Applying the patch between two buffers to the first gives the second,
/// byte for byte and whatever the fuzz window.
pub proof fn diff_then_apply(original: Seq<u8>, modified: Seq<u8>, window: nat)
    ensures
        apply_to_text(diff_of(original, modified), original, window) == Ok::<
            Seq<u8>,
            ApplyErrorModel,
        >(modified),
{
    diff_transforms(original, modified);
    lemma_transforming_patch_applies(
        diff_of(original, modified),
        split(original),
        split(modified),
        window,
    );
    lemma_join_split(modified);
}

/// The patch between a buffer and itself has no hunks.
pub proof fn diff_of_equal_is_empty(text: Seq<u8>)
    ensures
        diff_of(text, text).hunks.len() == 0,
{
}

/// A patch with no hunks, applied to a buffer, gives that buffer.
pub proof fn empty_patch_changes_nothing(patch: PatchModel, original: Seq<u8>, window: nat)
    requires
        patch.hunks.len() == 0,
    ensures
        apply_to_text(patch, original, window) == Ok::<Seq<u8>, ApplyErrorModel>(original),
{
    let lines = split(original);
    assert(lines.subrange(0, lines.len() as int) =~= lines);
    lemma_join_split(original);
}

/// The patch between two buffers counts as applied for the first and the
/// second, and for the first and no other buffer.
pub proof fn applied_exactly_to_modified(
    original: Seq<u8>,
    modified: Seq<u8>,
    target: Seq<u8>,
    window: nat,
)
    ensures
        applied(diff_of(original, modified), original, target, window) <==> target == modified,
{
    diff_then_apply(original, modified, window);
}

/// The distance of a place from the expected one.
pub open spec fn distance(at: int, expected: int) -> int {
    if at >= expected {
        at - expected
    } else {
        expected - at
    }
}

/// A hunk whose lines stand within the fuzz window of its expected place
/// is placed, at a place no farther from the expected one than any other
/// at which they stand.
pub proof fn shift_within_window_is_found(
    original: Seq<Seq<u8>>,
    wanted: Seq<Seq<u8>>,
    expected: int,
    floor: int,
    window: nat,
    at: int,
)
    requires
        fits(original, wanted, floor, at),
        distance(at, expected) <= window,
    ensures
        match locate(original, wanted, expected, floor, window) {
            Some(found) => fits(original, wanted, floor, found) && distance(found, expected)
                <= distance(at, expected),
            None => false,
        },
{
    located_place_is_nearest(original, wanted, expected, floor, window);
}

/// A hunk whose lines stand nowhere within the fuzz window of its expected
/// place is not placed.
pub proof fn shift_beyond_window_is_not_found(
    original: Seq<Seq<u8>>,
    wanted: Seq<Seq<u8>>,
    expected: int,
    floor: int,
    window: nat,
)
    requires
        forall|at: int|
            distance(at, expected) <= window ==> !#[trigger] fits(original, wanted, floor, at),
    ensures
        locate(original, wanted, expected, floor, window) is None,
{
    located_place_is_nearest(original, wanted, expected, floor, window);
}

/// Applying a patch fails with a mismatch at a hunk whose lines stand
/// nowhere within the fuzz window of its expected place, and reports that
/// hunk's index, the lines it expects and the lines found there.
pub proof fn unplaced_hunk_fails(
    hunks: Seq<HunkModel>,
    original: Seq<Seq<u8>>,
    window: nat,
    index: nat,
    floor: int,
)
    requires
        index < hunks.len(),
        forall|at: int|
            distance(at, hunks[index as int].original_offset() as int) <= window ==> !#[trigger] fits(
                original,
                original_side(hunks[index as int].lines),
                floor,
                at,
            ),
    ensures
        apply_from(hunks, original, window, index, floor) == Err::<Seq<Seq<u8>>, ApplyErrorModel>(
            ApplyErrorModel::HunkMismatch {
                hunk: index,
                expected: original_side(hunks[index as int].lines),
                found: nearby(
                    original,
                    hunks[index as int].original_offset(),
                    original_side(hunks[index as int].lines).len(),
                ),
            },
        ),
{
    let hunk = hunks[index as int];
    shift_beyond_window_is_not_found(
        original,
        original_side(hunk.lines),
        hunk.original_offset() as int,
        floor,
        window,
    );
}

/// The patch between two buffers, written and read back, is the same
/// patch: it gives the same result wherever it is applied.
pub proof fn written_diff_reads_back(original: Seq<u8>, modified: Seq<u8>)
    requires
        original.len() <= usize::MAX,
        modified.len() <= usize::MAX,
    ensures
        read(written(diff_of(original, modified))) == Ok::<PatchModel, ParseFault>(
            diff_of(original, modified),
        ),
{
    diff_is_well_formed(original, modified);
    written_patch_reads_back(diff_of(original, modified));
}

/// The patch between two buffers, written, read back and applied to the
/// first, gives the second.
pub proof fn written_diff_applies(original: Seq<u8>, modified: Seq<u8>, window: nat)
    requires
        original.len() <= usize::MAX,
        modified.len() <= usize::MAX,
    ensures
        match read(written(diff_of(original, modified))) {
            Ok(patch) => apply_to_text(patch, original, window) == Ok::<Seq<u8>, ApplyErrorModel>(
                modified,
            ),
            Err(_) => false,
        },
{
    written_diff_reads_back(original, modified);
    diff_then_apply(original, modified, window);
}

/// Within `shift` lines of the expected place, the lines stand `shift`
/// lines after it and nowhere else.
pub open spec fn stands_only_shifted(
    original: Seq<Seq<u8>>,
    wanted: Seq<Seq<u8>>,
    expected: int,
    shift: nat,
) -> bool {
    forall|at: int|
        distance(at, expected) <= shift && #[trigger] matches_at(original, wanted, at) ==> at
            == expected + shift
}

/// From hunk `index` on, every hunk's lines stand, within `shift` lines of
/// the expected place, `shift` lines after it and nowhere else.
pub open spec fn hunks_stand_only_shifted(
    hunks: Seq<HunkModel>,
    original: Seq<Seq<u8>>,
    shift: nat,
    index: nat,
) -> bool {
    forall|i: int|
        index <= i < hunks.len() ==> stands_only_shifted(
            original,
            original_side((#[trigger] hunks[i]).lines),
            hunks[i].original_offset() as int,
            shift,
        )
}

/// Hunks that stand between two texts are still placed where they belong
/// after lines were added before them, as long as no more lines were added
/// than the fuzz window holds.
proof fn lemma_shifted_hunks_apply(
    hunks: Seq<HunkModel>,
    original: Seq<Seq<u8>>,
    modified: Seq<Seq<u8>>,
    added: Seq<Seq<u8>>,
    window: nat,
    index: nat,
    original_floor: int,
    modified_floor: int,
    floor: int,
)
    requires
        0 <= original_floor,
        0 <= modified_floor,
        0 <= floor <= original_floor + added.len(),
        added.len() <= window,
        transforms_from(hunks, original, modified, index, original_floor, modified_floor),
        hunks_stand_only_shifted(hunks, added + original, added.len(), index),
    ensures
        original_floor <= original.len(),
        apply_from(hunks, added + original, window, index, floor) == Ok::<
            Seq<Seq<u8>>,
            ApplyErrorModel,
        >(
            (added + original).subrange(floor, original_floor + added.len()) + modified.subrange(
                modified_floor,
                modified.len() as int,
            ),
        ),
    decreases hunks.len() - index,
{
    let shifted = added + original;
    let shift = added.len() as int;
    if index >= hunks.len() {
        assert(shifted.subrange(floor, shifted.len() as int) =~= shifted.subrange(
            floor,
            original_floor + shift,
        ) + original.subrange(original_floor, original.len() as int));
    } else {
        let hunk = hunks[index as int];
        let removed = original_side(hunk.lines);
        let inserted = modified_side(hunk.lines);
        let original_at = hunk.original_offset() as int;
        let modified_at = hunk.modified_offset() as int;
        assert(shifted.subrange(original_at + shift, original_at + shift + removed.len())
            =~= original.subrange(original_at, original_at + removed.len()));
        assert(fits(shifted, removed, floor, original_at + shift));
        shift_within_window_is_found(
            shifted,
            removed,
            original_at,
            floor,
            window,
            original_at + shift,
        );
        assert(stands_only_shifted(shifted, removed, original_at, added.len()));
        assert(locate(shifted, removed, original_at, floor, window) == Some(original_at + shift));
        lemma_shifted_hunks_apply(
            hunks,
            original,
            modified,
            added,
            window,
            index + 1,
            original_at + removed.len(),
            modified_at + inserted.len(),
            original_at + shift + removed.len(),
        );
        let rest = modified.subrange(modified_at + inserted.len(), modified.len() as int);
        let after = original_at + shift + removed.len();
        assert(shifted.subrange(after, after) + rest =~= rest);
        assert(shifted.subrange(floor, original_at + shift) =~= shifted.subrange(
            floor,
            original_floor + shift,
        ) + original.subrange(original_floor, original_at));
        assert(shifted.subrange(floor, original_floor + shift) + modified.subrange(
            modified_floor,
            modified_at,
        ) + inserted + rest =~= shifted.subrange(floor, original_floor + shift)
            + modified.subrange(modified_floor, modified.len() as int));
    }
}

/// A patch that turns one text into another still turns the first into
/// the second after lines were added at its start, as long as no more lines
/// were added than the fuzz window holds and every hunk's lines stand, that
/// near to the expected place, only where they were moved to. The added
/// lines are kept.
pub proof fn shifted_original_still_applies(
    patch: PatchModel,
    original: Seq<Seq<u8>>,
    modified: Seq<Seq<u8>>,
    added: Seq<Seq<u8>>,
    window: nat,
)
    requires
        transforms(patch, original, modified),
        added.len() <= window,
        hunks_stand_only_shifted(patch.hunks, added + original, added.len(), 0),
    ensures
        apply_to_lines(patch, added + original, window) == Ok::<Seq<Seq<u8>>, ApplyErrorModel>(
            added + modified,
        ),
{
    lemma_shifted_hunks_apply(patch.hunks, original, modified, added, window, 0, 0, 0, 0);
    assert((added + original).subrange(0, added.len() as int) + modified.subrange(
        0,
        modified.len() as int,
    ) =~= added + modified);
}

/// In a patch that turns one text into another, a hunk ends in the
/// original before the next one starts.
pub proof fn hunks_do_not_overlap(
    hunks: Seq<HunkModel>,
    original: Seq<Seq<u8>>,
    modified: Seq<Seq<u8>>,
    index: nat,
    original_floor: int,
    modified_floor: int,
    later: int,
)
    requires
        transforms_from(hunks, original, modified, index, original_floor, modified_floor),
        index <= later < hunks.len(),
    ensures
        original_floor <= hunks[later].original_offset(),
        later + 1 < hunks.len() ==> hunks[later].original_offset() + hunks[later].original_len
            <= hunks[later + 1].original_offset(),
        hunks[later].original_offset() + hunks[later].original_len <= original.len(),
    decreases hunks.len() - index,
{
    let hunk = hunks[index as int];
    if index < later {
        hunks_do_not_overlap(
            hunks,
            original,
            modified,
            index + 1,
            (hunk.original_offset() + original_side(hunk.lines).len()) as int,
            (hunk.modified_offset() + modified_side(hunk.lines).len()) as int,
            later,
        );
    } else if later + 1 < hunks.len() {
        hunks_do_not_overlap(
            hunks,
            original,
            modified,
            index + 1,
            (hunk.original_offset() + original_side(hunk.lines).len()) as int,
            (hunk.modified_offset() + modified_side(hunk.lines).len()) as int,
            later + 1,
        );
    }
}

/// The text of the patch between two files counts as applied for the
/// original and the modified content, and for the original and no other
/// content.
pub proof fn file_patch_applied_exactly_to_modified(
    original: Seq<u8>,
    modified: Seq<u8>,
    original_path: Seq<Seq<u8>>,
    modified_path: Seq<Seq<u8>>,
    target: Seq<u8>,
)
    requires
        original.len() <= usize::MAX,
        modified.len() <= usize::MAX,
    ensures
        file_patch_applied(
            written(file_patch_of(original, modified, original_path, modified_path)),
            original,
            target,
        ) <==> target == modified,
{
    let patch = file_patch_of(original, modified, original_path, modified_path);
    diff_is_well_formed(original, modified);
    written_patch_reads_back(patch);
    diff_then_apply(original, modified, DEFAULT_FUZZ_WINDOW as nat);
    assert(patch.hunks == diff_of(original, modified).hunks);
}

/// Where a range line must stand and the line there is none, reading
/// fails at that line: with a bad range line, unless the line could be one
/// more tagged line of the hunk before.
pub proof fn line_that_is_no_range_line_is_rejected(lines: Seq<Seq<u8>>, at: int, index: nat)
    requires
        0 <= at < lines.len(),
        ranges_of(lines[at]) is None,
    ensures
        read_hunks(lines, at, index) == Err::<Seq<HunkModel>, ParseFault>(
            if index > 0 && looks_tagged(lines[at]) {
                ParseFault::LineCountMismatch { hunk: index - 1 }
            } else {
                ParseFault::BadHunkHeader { line: at }
            },
        ),
{
}

/// The first place comes before the second in the search: it is nearer to
/// the expected place, or as near and not after it.
pub open spec fn searched_before(first: int, second: int, expected: int) -> bool {
    distance(first, expected) < distance(second, expected) || (distance(first, expected)
        == distance(second, expected) && first <= second)
}

/// What a search from distance `from` on finds comes before every other
/// place at such a distance at which the lines fit.
proof fn lemma_locate_nearest(
    original: Seq<Seq<u8>>,
    wanted: Seq<Seq<u8>>,
    expected: int,
    floor: int,
    window: nat,
    from: nat,
)
    ensures
        match locate_from(original, wanted, expected, floor, window, from) {
            Some(found) => {
                &&& fits(original, wanted, floor, found)
                &&& from <= distance(found, expected) <= window
                &&& forall|at: int|
                    from <= distance(at, expected) <= window && #[trigger] fits(
                        original,
                        wanted,
                        floor,
                        at,
                    ) ==> searched_before(found, at, expected)
            },
            None => forall|at: int|
                from <= distance(at, expected) <= window ==> !#[trigger] fits(
                    original,
                    wanted,
                    floor,
                    at,
                ),
        },
    decreases window + 1 - from,
{
    if from <= window && !fits(original, wanted, floor, expected - from) && !fits(
        original,
        wanted,
        floor,
        expected + from,
    ) {
        lemma_locate_nearest(original, wanted, expected, floor, window, from + 1);
    }
}

/// The place at which a hunk's lines are found is, of all places within
/// the fuzz window at which they fit, the one nearest to the expected
/// place, and of two as near the earlier one. They are found nowhere
/// exactly when they fit nowhere within the window.
pub proof fn located_place_is_nearest(
    original: Seq<Seq<u8>>,
    wanted: Seq<Seq<u8>>,
    expected: int,
    floor: int,
    window: nat,
)
    ensures
        match locate(original, wanted, expected, floor, window) {
            Some(found) => {
                &&& fits(original, wanted, floor, found)
                &&& distance(found, expected) <= window
                &&& forall|at: int|
                    distance(at, expected) <= window && #[trigger] fits(
                        original,
                        wanted,
                        floor,
                        at,
                    ) ==> searched_before(found, at, expected)
            },
            None => forall|at: int|
                distance(at, expected) <= window ==> !#[trigger] fits(original, wanted, floor, at),
        },
{
    lemma_locate_nearest(original, wanted, expected, floor, window, 0);
}

} // verus!
