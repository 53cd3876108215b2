//! Deciding whether an archive has to be fetched, and under which name it
//! is kept while it is unpacked.

use vstd::prelude::*;
use vstd::slice::{slice_subrange, slice_to_vec};

verus! {

/// Whether the archive is fetched: always when forced; otherwise unless
/// the unpacked output is there and no archive is left beside it.
pub open spec fn download_needed(force: bool, output_exists: bool, archive_exists: bool) -> bool {
    force || !(output_exists && !archive_exists)
}

/// Decides whether the archive is to be fetched and unpacked.
pub fn should_download(force: bool, output_exists: bool, archive_exists: bool) -> (needed: bool)
    ensures
        needed == download_needed(force, output_exists, archive_exists),
{
    if force {
        true
    } else if output_exists && !archive_exists {
        false
    } else {
        true
    }
}

/// The index after the last `separator` in `text`, and 0 where there is
/// none.
pub open spec fn last_part_start(text: Seq<u8>, separator: u8) -> int
    decreases text.len(),
{
    if text.len() == 0 {
        0
    } else if text.last() == separator {
        text.len() as int
    } else {
        last_part_start(text.drop_last(), separator)
    }
}

/// What follows the last `separator` in `text`: all of `text` where there
/// is none.
pub open spec fn last_part(text: Seq<u8>, separator: u8) -> Seq<u8> {
    text.subrange(last_part_start(text, separator), text.len() as int)
}

/// The last part starts within the text, right after a separator or at
/// the start, and holds no separator.
pub proof fn last_part_is_last(text: Seq<u8>, separator: u8)
    ensures
        0 <= last_part_start(text, separator) <= text.len(),
        last_part_start(text, separator) > 0 ==> text[last_part_start(text, separator) - 1]
            == separator,
        forall|i: int|
            last_part_start(text, separator) <= i < text.len() ==> text[i] != separator,
    decreases text.len(),
{
    if text.len() > 0 && text.last() != separator {
        last_part_is_last(text.drop_last(), separator);
        let start = last_part_start(text, separator);
        assert forall|i: int| start <= i < text.len() implies text[i] != separator by {
            if i < text.len() - 1 {
                assert(text.drop_last()[i] == text[i]);
            }
        }
        if start > 0 {
            assert(text.drop_last()[start - 1] == text[start - 1]);
        }
    }
}

/// Takes what follows the last `separator` in `text`: the file name of a
/// URL after its last slash, its extension after its last period.
pub fn after_last(text: &[u8], separator: u8) -> (part: Vec<u8>)
    ensures
        part@ == last_part(text@, separator),
{
    let mut start: usize = text.len();
    proof {
        assert(text@.take(text.len() as int) =~= text@);
    }
    while start > 0 && text[start - 1] != separator
        invariant
            start <= text.len(),
            last_part_start(text@, separator) == last_part_start(
                text@.take(start as int),
                separator,
            ),
        decreases start,
    {
        proof {
            assert(text@.take(start as int).drop_last() =~= text@.take(start - 1));
        }
        start -= 1;
    }
    slice_to_vec(slice_subrange(text, start, text.len()))
}

} // verus!
