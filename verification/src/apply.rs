//! Replaying a patch onto a buffer.
//!
//! Hunks are placed in order. Each is looked for at the line its header
//! names, then at growing distances before and after it, up to the fuzz
//! window. A hunk that finds no place fails the whole call.

use vstd::prelude::*;
use vstd::slice::slice_to_vec;
use crate::lines::{join, join_lines, lemma_views_push, same_bytes, split, split_lines, views};
use crate::patch::{modified_side, original_side, HunkModel, Patch, PatchModel};

verus! {

/// The distance, in lines, searched on either side of a hunk's expected
/// position when no other window is asked for.
pub const DEFAULT_FUZZ_WINDOW: usize = 3;

/// How far from its expected position a hunk is looked for.
#[derive(Clone, Copy, Debug, PartialEq, Eq)]
pub struct ApplyOptions {
    /// Lines searched before and after the expected position on a mismatch.
    pub fuzz_window: usize,
}

/// Why a patch could not be applied.
#[derive(Clone, Debug, PartialEq, Eq)]
pub enum ApplyError {
    /// A hunk's original lines were found nowhere within the fuzz window.
    HunkMismatch {
        /// The 0-based index of the hunk in the patch.
        hunk: usize,
        /// The lines that the hunk expects.
        expected: Vec<Vec<u8>>,
        /// The lines of the buffer at the hunk's expected position.
        found: Vec<Vec<u8>>,
    },
}

/// The mathematical value of an [`ApplyError`].
pub enum ApplyErrorModel {
    HunkMismatch { hunk: nat, expected: Seq<Seq<u8>>, found: Seq<Seq<u8>> },
}

impl View for ApplyError {
    type V = ApplyErrorModel;

    open spec fn view(&self) -> ApplyErrorModel {
        match *self {
            ApplyError::HunkMismatch { hunk, expected, found } => ApplyErrorModel::HunkMismatch {
                hunk: hunk as nat,
                expected: views(expected@),
                found: views(found@),
            },
        }
    }
}

/// `wanted` stands in `original` at index `at`.
pub open spec fn matches_at(original: Seq<Seq<u8>>, wanted: Seq<Seq<u8>>, at: int) -> bool {
    &&& 0 <= at
    &&& at + wanted.len() <= original.len()
    &&& original.subrange(at, at + wanted.len()) == wanted
}

/// `wanted` stands in `original` at index `at`, not before `floor`.
pub open spec fn fits(original: Seq<Seq<u8>>, wanted: Seq<Seq<u8>>, floor: int, at: int) -> bool {
    floor <= at && matches_at(original, wanted, at)
}

/// The first place at which `wanted` fits, looking at distances `distance`
/// to `window` from `expected`, nearer first and, at one distance, before
/// `expected` first.
pub open spec fn locate_from(
    original: Seq<Seq<u8>>,
    wanted: Seq<Seq<u8>>,
    expected: int,
    floor: int,
    window: nat,
    distance: nat,
) -> Option<int>
    decreases window + 1 - distance,
{
    if distance > window {
        None
    } else if fits(original, wanted, floor, expected - distance) {
        Some(expected - distance)
    } else if fits(original, wanted, floor, expected + distance) {
        Some(expected + distance)
    } else {
        locate_from(original, wanted, expected, floor, window, distance + 1)
    }
}

/// The place at which a hunk's lines are found: the nearest to `expected`
/// within `window` at which they fit.
pub open spec fn locate(
    original: Seq<Seq<u8>>,
    wanted: Seq<Seq<u8>>,
    expected: int,
    floor: int,
    window: nat,
) -> Option<int> {
    locate_from(original, wanted, expected, floor, window, 0)
}

/// The lines of `original` that stand where `count` lines were expected at
/// `expected`.
pub open spec fn nearby(original: Seq<Seq<u8>>, expected: nat, count: nat) -> Seq<Seq<u8>> {
    let from = if expected <= original.len() {
        expected
    } else {
        original.len()
    };
    let to = if from + count <= original.len() {
        from + count
    } else {
        original.len()
    };
    original.subrange(from as int, to as int)
}

/// The lines that result from placing the hunks from `index` on, given
/// that the lines of `original` before `floor` are already used up.
pub open spec fn apply_from(
    hunks: Seq<HunkModel>,
    original: Seq<Seq<u8>>,
    window: nat,
    index: nat,
    floor: int,
) -> Result<Seq<Seq<u8>>, ApplyErrorModel>
    decreases hunks.len() - index,
{
    if index >= hunks.len() {
        Ok(original.subrange(floor, original.len() as int))
    } else {
        let hunk = hunks[index as int];
        let wanted = original_side(hunk.lines);
        match locate(original, wanted, hunk.original_offset() as int, floor, window) {
            None => Err(
                ApplyErrorModel::HunkMismatch {
                    hunk: index,
                    expected: wanted,
                    found: nearby(original, hunk.original_offset(), wanted.len()),
                },
            ),
            Some(at) => match apply_from(hunks, original, window, index + 1, at + wanted.len()) {
                Ok(rest) => Ok(original.subrange(floor, at) + modified_side(hunk.lines) + rest),
                Err(error) => Err(error),
            },
        }
    }
}

/// The lines that result from applying a patch to the lines of a buffer.
pub open spec fn apply_to_lines(patch: PatchModel, original: Seq<Seq<u8>>, window: nat) -> Result<
    Seq<Seq<u8>>,
    ApplyErrorModel,
> {
    apply_from(patch.hunks, original, window, 0, 0)
}

/// The buffer that results from applying a patch to a buffer.
pub open spec fn apply_to_text(patch: PatchModel, original: Seq<u8>, window: nat) -> Result<
    Seq<u8>,
    ApplyErrorModel,
> {
    match apply_to_lines(patch, split(original), window) {
        Ok(lines) => Ok(join(lines)),
        Err(error) => Err(error),
    }
}

/// Past every distance at which a place could still fit, the search finds
/// nothing.
proof fn lemma_locate_exhausted(
    original: Seq<Seq<u8>>,
    wanted: Seq<Seq<u8>>,
    expected: int,
    floor: int,
    window: nat,
    distance: nat,
)
    requires
        0 <= floor,
        expected - distance < floor,
        expected + distance + wanted.len() > original.len(),
    ensures
        locate_from(original, wanted, expected, floor, window, distance) is None,
    decreases window + 1 - distance,
{
    if distance <= window {
        lemma_locate_exhausted(original, wanted, expected, floor, window, distance + 1);
    }
}

/// Distances at which the lines fit on neither side are passed over.
proof fn lemma_locate_skips(
    original: Seq<Seq<u8>>,
    wanted: Seq<Seq<u8>>,
    expected: int,
    floor: int,
    window: nat,
    from: nat,
    to: nat,
)
    requires
        from <= to <= window + 1,
        forall|at: int|
            expected - to < at < expected + to && (at <= expected - from || at >= expected + from)
                ==> !#[trigger] fits(original, wanted, floor, at),
    ensures
        locate_from(original, wanted, expected, floor, window, from) == if to > window {
            None
        } else {
            locate_from(original, wanted, expected, floor, window, to)
        },
    decreases to - from,
{
    if from < to {
        assert(!fits(original, wanted, floor, expected - from));
        assert(!fits(original, wanted, floor, expected + from));
        lemma_locate_skips(original, wanted, expected, floor, window, from + 1, to);
    }
}

/// A place that the search finds is one at which the lines fit.
pub proof fn lemma_locate_fits(
    original: Seq<Seq<u8>>,
    wanted: Seq<Seq<u8>>,
    expected: int,
    floor: int,
    window: nat,
    distance: nat,
)
    ensures
        match locate_from(original, wanted, expected, floor, window, distance) {
            Some(at) => fits(original, wanted, floor, at) && expected - window <= at <= expected
                + window,
            None => true,
        },
    decreases window + 1 - distance,
{
    if distance <= window && !fits(original, wanted, floor, expected - distance) && !fits(
        original,
        wanted,
        floor,
        expected + distance,
    ) {
        lemma_locate_fits(original, wanted, expected, floor, window, distance + 1);
    }
}

/// Tells whether `wanted` stands in `original` at index `at`.
pub fn lines_match_at(original: &Vec<Vec<u8>>, wanted: &Vec<Vec<u8>>, at: usize) -> (found: bool)
    ensures
        found == matches_at(views(original@), views(wanted@), at as int),
{
    if wanted.len() > original.len() || at > original.len() - wanted.len() {
        return false;
    }
    let mut i: usize = 0;
    while i < wanted.len()
        invariant
            i <= wanted.len(),
            at + wanted.len() <= original.len(),
            forall|j: int| 0 <= j < i ==> original@[at + j]@ == wanted@[j]@,
        decreases wanted.len() - i,
    {
        if !same_bytes(original[at + i].as_slice(), wanted[i].as_slice()) {
            proof {
                let part = views(original@).subrange(at as int, at + wanted.len());
                assert(part[i as int] == original@[at + i]@);
                assert(views(wanted@)[i as int] == wanted@[i as int]@);
            }
            return false;
        }
        i += 1;
    }
    proof {
        assert(views(original@).subrange(at as int, at + wanted.len()) =~= views(wanted@));
    }
    true
}

/// Finds the place for a hunk's lines: the nearest to `expected`, within
/// `window` lines of it and not before `floor`, at which they stand.
pub fn locate_lines(
    original: &Vec<Vec<u8>>,
    wanted: &Vec<Vec<u8>>,
    expected: usize,
    floor: usize,
    window: usize,
) -> (place: Option<usize>)
    ensures
        match place {
            Some(at) => locate(
                views(original@),
                views(wanted@),
                expected as int,
                floor as int,
                window as nat,
            ) == Some(at as int),
            None => locate(
                views(original@),
                views(wanted@),
                expected as int,
                floor as int,
                window as nat,
            ) is None,
        },
{
    let ghost lines = views(original@);
    let ghost side = views(wanted@);
    if wanted.len() > original.len() {
        proof {
            lemma_locate_skips(
                lines,
                side,
                expected as int,
                floor as int,
                window as nat,
                0,
                window as nat + 1,
            );
        }
        return None;
    }
    let last = original.len() - wanted.len();
    let start = if expected > last {
        expected - last
    } else if expected < floor {
        floor - expected
    } else {
        0
    };
    if start > window {
        proof {
            lemma_locate_skips(
                lines,
                side,
                expected as int,
                floor as int,
                window as nat,
                0,
                window as nat + 1,
            );
        }
        return None;
    }
    proof {
        lemma_locate_skips(lines, side, expected as int, floor as int, window as nat, 0, start as nat);
    }
    let mut distance: usize = start;
    loop
        invariant
            distance <= window,
            wanted.len() <= original.len(),
            last == original.len() - wanted.len(),
            lines == views(original@),
            side == views(wanted@),
            locate(lines, side, expected as int, floor as int, window as nat) == locate_from(
                lines,
                side,
                expected as int,
                floor as int,
                window as nat,
                distance as nat,
            ),
        decreases window - distance,
    {
        if distance <= expected && expected - distance >= floor && expected - distance <= last
            && lines_match_at(original, wanted, expected - distance) {
            return Some(expected - distance);
        }
        let beyond = expected > last || distance > last - expected;
        if !beyond && expected + distance >= floor && lines_match_at(
            original,
            wanted,
            expected + distance,
        ) {
            return Some(expected + distance);
        }
        if distance == window {
            return None;
        }
        let below = distance >= expected || expected - distance <= floor;
        let above = expected > last || distance >= last - expected;
        if below && above {
            proof {
                lemma_locate_exhausted(
                    lines,
                    side,
                    expected as int,
                    floor as int,
                    window as nat,
                    (distance + 1) as nat,
                );
            }
            return None;
        }
        distance += 1;
    }
}

/// The lines of `original` that stand where `count` lines were expected at
/// `expected`.
fn nearby_lines(original: &Vec<Vec<u8>>, expected: usize, count: usize) -> (found: Vec<Vec<u8>>)
    ensures
        views(found@) == nearby(views(original@), expected as nat, count as nat),
{
    let from = if expected <= original.len() {
        expected
    } else {
        original.len()
    };
    let to = if count <= original.len() - from {
        from + count
    } else {
        original.len()
    };
    let mut found: Vec<Vec<u8>> = Vec::new();
    let mut i: usize = from;
    while i < to
        invariant
            from <= i <= to <= original.len(),
            views(found@) == views(original@).subrange(from as int, i as int),
        decreases to - i,
    {
        let line = slice_to_vec(original[i].as_slice());
        proof {
            lemma_views_push(found@, line);
            assert(views(original@).subrange(from as int, i + 1) =~= views(original@).subrange(
                from as int,
                i as int,
            ).push(line@));
        }
        found.push(line);
        i += 1;
    }
    found
}

/// Appends copies of the lines `from..to` of `source` to `output`.
fn copy_lines(output: &mut Vec<Vec<u8>>, source: &Vec<Vec<u8>>, from: usize, to: usize)
    requires
        from <= to <= source.len(),
    ensures
        views(final(output)@) == views(old(output)@) + views(source@).subrange(
            from as int,
            to as int,
        ),
{
    let mut i: usize = from;
    proof {
        assert(views(output@) =~= views(old(output)@) + views(source@).subrange(
            from as int,
            from as int,
        ));
    }
    while i < to
        invariant
            from <= i <= to <= source.len(),
            views(output@) == views(old(output)@) + views(source@).subrange(
                from as int,
                i as int,
            ),
        decreases to - i,
    {
        let line = slice_to_vec(source[i].as_slice());
        proof {
            lemma_views_push(output@, line);
            assert(views(source@).subrange(from as int, i + 1) =~= views(source@).subrange(
                from as int,
                i as int,
            ).push(line@));
            assert((views(old(output)@) + views(source@).subrange(from as int, i as int)).push(
                line@,
            ) =~= views(old(output)@) + views(source@).subrange(from as int, i + 1));
        }
        output.push(line);
        i += 1;
    }
}

/// Applies a patch to the lines of a buffer.
///
/// Each hunk is placed where its context and deletion lines stand, nearest
/// to its expected position and within `window` lines of it, after the
/// place of the hunk before it. The lines between the places are kept; the
/// lines at each place are replaced by the hunk's context and insertion
/// lines. The first hunk that finds no place fails the call with its index.
pub fn apply_lines(patch: &Patch, original: &Vec<Vec<u8>>, window: usize) -> (result: Result<
    Vec<Vec<u8>>,
    ApplyError,
>)
    ensures
        match result {
            Ok(lines) => apply_to_lines(patch@, views(original@), window as nat) == Ok::<
                Seq<Seq<u8>>,
                ApplyErrorModel,
            >(views(lines@)),
            Err(error) => apply_to_lines(patch@, views(original@), window as nat) == Err::<
                Seq<Seq<u8>>,
                ApplyErrorModel,
            >(error@),
        },
{
    let ghost hunks = patch@.hunks;
    let ghost source = views(original@);
    let ghost whole = apply_to_lines(patch@, source, window as nat);
    let mut output: Vec<Vec<u8>> = Vec::new();
    let mut floor: usize = 0;
    let mut index: usize = 0;
    proof {
        assert(views(output@) =~= Seq::<Seq<u8>>::empty());
        match apply_from(hunks, source, window as nat, 0, 0) {
            Ok(rest) => {
                assert(views(output@) + rest =~= rest);
            },
            Err(_) => {},
        }
    }
    while index < patch.hunks.len()
        invariant
            index <= patch.hunks.len(),
            floor <= original.len(),
            hunks == patch@.hunks,
            source == views(original@),
            whole == apply_to_lines(patch@, source, window as nat),
            whole == match apply_from(hunks, source, window as nat, index as nat, floor as int) {
                Ok(rest) => Ok::<Seq<Seq<u8>>, ApplyErrorModel>(views(output@) + rest),
                Err(error) => Err(error),
            },
        decreases patch.hunks.len() - index,
    {
        let hunk = &patch.hunks[index];
        assert(hunk@ == hunks[index as int]);
        let wanted = hunk.original_side();
        let expected = hunk.original_offset();
        match locate_lines(original, &wanted, expected, floor, window) {
            None => {
                let found = nearby_lines(original, expected, wanted.len());
                return Err(ApplyError::HunkMismatch { hunk: index, expected: wanted, found });
            },
            Some(at) => {
                let ghost before = views(output@);
                let ghost start = floor as int;
                proof {
                    lemma_locate_fits(
                        source,
                        views(wanted@),
                        expected as int,
                        floor as int,
                        window as nat,
                        0,
                    );
                }
                copy_lines(&mut output, original, floor, at);
                let mut added = hunk.modified_side();
                let ghost middle = views(added@);
                proof {
                    assert(views(output@ + added@) =~= views(output@) + views(added@));
                }
                output.append(&mut added);
                floor = at + wanted.len();
                proof {
                    assert(views(output@) == before + source.subrange(start, at as int) + middle);
                    match apply_from(hunks, source, window as nat, (index + 1) as nat, floor as int) {
                        Ok(rest) => {
                            assert(before + (source.subrange(start, at as int) + middle + rest)
                                =~= views(output@) + rest);
                        },
                        Err(_) => {},
                    }
                }
            },
        }
        index += 1;
    }
    proof {
        assert(apply_from(hunks, source, window as nat, index as nat, floor as int) == Ok::<
            Seq<Seq<u8>>,
            ApplyErrorModel,
        >(source.subrange(floor as int, source.len() as int)));
    }
    copy_lines(&mut output, original, floor, original.len());
    Ok(output)
}

impl ApplyOptions {
    /// The options with the default fuzz window.
    pub fn new() -> (options: ApplyOptions)
        ensures
            options.fuzz_window == DEFAULT_FUZZ_WINDOW,
    {
        ApplyOptions { fuzz_window: DEFAULT_FUZZ_WINDOW }
    }

    /// The options with the given fuzz window.
    pub fn with_fuzz_window(fuzz_window: usize) -> (options: ApplyOptions)
        ensures
            options.fuzz_window == fuzz_window,
    {
        ApplyOptions { fuzz_window }
    }
}

/// Applies a patch to a buffer, searching `options.fuzz_window` lines around
/// each hunk's expected position.
///
/// The result is the buffer made of the patched lines, each with the
/// terminator it had in the original or in the patch. On failure nothing
/// of the output is returned.
pub fn apply_with(patch: &Patch, original: &[u8], options: &ApplyOptions) -> (result: Result<
    Vec<u8>,
    ApplyError,
>)
    ensures
        match result {
            Ok(text) => apply_to_text(patch@, original@, options.fuzz_window as nat) == Ok::<
                Seq<u8>,
                ApplyErrorModel,
            >(text@),
            Err(error) => apply_to_text(patch@, original@, options.fuzz_window as nat) == Err::<
                Seq<u8>,
                ApplyErrorModel,
            >(error@),
        },
{
    let lines = split_lines(original);
    match apply_lines(patch, &lines, options.fuzz_window) {
        Ok(patched) => Ok(join_lines(&patched)),
        Err(error) => Err(error),
    }
}

/// Applies a patch to a buffer with the default fuzz window.
pub fn apply(patch: &Patch, original: &[u8]) -> (result: Result<Vec<u8>, ApplyError>)
    ensures
        match result {
            Ok(text) => apply_to_text(patch@, original@, DEFAULT_FUZZ_WINDOW as nat) == Ok::<
                Seq<u8>,
                ApplyErrorModel,
            >(text@),
            Err(error) => apply_to_text(patch@, original@, DEFAULT_FUZZ_WINDOW as nat) == Err::<
                Seq<u8>,
                ApplyErrorModel,
            >(error@),
        },
{
    apply_with(patch, original, &ApplyOptions::new())
}

/// A patch applied to `original` gives exactly `target`.
pub open spec fn applied(patch: PatchModel, original: Seq<u8>, target: Seq<u8>, window: nat) -> bool {
    apply_to_text(patch, original, window) == Ok::<Seq<u8>, ApplyErrorModel>(target)
}

/// Tells whether applying the patch to `original` succeeds and gives
/// `target` byte for byte. A failure to apply counts as not applied.
pub fn is_applied_with(patch: &Patch, original: &[u8], target: &[u8], options: &ApplyOptions) -> (yes:
    bool)
    ensures
        yes == applied(patch@, original@, target@, options.fuzz_window as nat),
{
    match apply_with(patch, original, options) {
        Ok(text) => same_bytes(text.as_slice(), target),
        Err(_) => false,
    }
}

/// Tells whether applying the patch to `original` with the default fuzz
/// window succeeds and gives `target` byte for byte.
pub fn is_applied(patch: &Patch, original: &[u8], target: &[u8]) -> (yes: bool)
    ensures
        yes == applied(patch@, original@, target@, DEFAULT_FUZZ_WINDOW as nat),
{
    is_applied_with(patch, original, target, &ApplyOptions::new())
}

} // verus!
