//! File names in a tree of patches.
//!
//! A patch for a file is kept under the file's name with `.patch` added.
//! A copy of a file from before it was patched in place is kept under the
//! file's name with `.original` added to its extension.

use vstd::prelude::*;
use vstd::slice::{slice_subrange, slice_to_vec};
use crate::lines::{push_bytes, same_bytes};

verus! {

/// The byte that leads an extension.
pub const PERIOD: u8 = 46;

/// `.patch`, which ends the name of a patch file.
pub open spec fn patch_suffix() -> Seq<u8> {
    seq![46u8, 112u8, 97u8, 116u8, 99u8, 104u8]
}

/// `.original`, which ends the name of a kept copy.
pub open spec fn original_suffix() -> Seq<u8> {
    seq![46u8, 111u8, 114u8, 105u8, 103u8, 105u8, 110u8, 97u8, 108u8]
}

/// `name` ends with `suffix`.
pub open spec fn ends_with(name: Seq<u8>, suffix: Seq<u8>) -> bool {
    suffix.len() <= name.len() && name.subrange(name.len() - suffix.len(), name.len() as int)
        == suffix
}

/// The file name has an extension: a period that is not its first byte.
pub open spec fn has_extension(name: Seq<u8>) -> bool {
    exists|i: int| 0 < i < name.len() && name[i] == PERIOD
}

/// The name under which the copy of a file is kept: `.original` is added
/// to the file's extension, and becomes the extension, after a period of
/// its own, of a file that has none.
pub open spec fn original_copy_of(name: Seq<u8>) -> Seq<u8> {
    if has_extension(name) {
        name + original_suffix()
    } else {
        name + seq![PERIOD] + original_suffix()
    }
}

/// The name of the patch file for a file.
pub fn patch_file_name(name: &[u8]) -> (patch_name: Vec<u8>)
    ensures
        patch_name@ == name@ + patch_suffix(),
{
    let suffix = vec![46u8, 112u8, 97u8, 116u8, 99u8, 104u8];
    let mut patch_name = slice_to_vec(name);
    push_bytes(&mut patch_name, suffix.as_slice());
    proof {
        assert(suffix@ =~= patch_suffix());
    }
    patch_name
}

/// The name of the file that a patch file is for: the patch file's name
/// without its `.patch`, and none where the name does not end so.
pub fn patched_file_name(patch_name: &[u8]) -> (name: Option<Vec<u8>>)
    ensures
        match name {
            Some(name) => patch_name@ == name@ + patch_suffix(),
            None => !ends_with(patch_name@, patch_suffix()),
        },
{
    let suffix = vec![46u8, 112u8, 97u8, 116u8, 99u8, 104u8];
    proof {
        assert(suffix@ =~= patch_suffix());
    }
    let n = patch_name.len();
    if n < 6 {
        return None;
    }
    if same_bytes(slice_subrange(patch_name, n - 6, n), suffix.as_slice()) {
        let name = slice_to_vec(slice_subrange(patch_name, 0, n - 6));
        proof {
            assert(patch_name@ =~= name@ + patch_suffix());
        }
        Some(name)
    } else {
        None
    }
}

/// Tells whether a file name has an extension.
pub fn name_has_extension(name: &[u8]) -> (yes: bool)
    ensures
        yes == has_extension(name@),
{
    let mut i: usize = 1;
    while i < name.len()
        invariant
            1 <= i,
            forall|j: int| 0 < j < i && j < name.len() ==> name@[j] != PERIOD,
        decreases name.len() - i,
    {
        if name[i] == PERIOD {
            return true;
        }
        i += 1;
    }
    false
}

/// The name under which the copy of a file is kept.
pub fn original_copy_name(name: &[u8]) -> (copy_name: Vec<u8>)
    ensures
        copy_name@ == original_copy_of(name@),
{
    let suffix = vec![46u8, 111u8, 114u8, 105u8, 103u8, 105u8, 110u8, 97u8, 108u8];
    proof {
        assert(suffix@ =~= original_suffix());
    }
    let mut copy_name = slice_to_vec(name);
    if !name_has_extension(name) {
        copy_name.push(PERIOD);
    }
    push_bytes(&mut copy_name, suffix.as_slice());
    copy_name
}

/// Where the original comes from when a file is patched in place.
#[derive(Clone, Copy, Debug, PartialEq, Eq, Structural)]
pub enum InPlaceSource {
    /// The file itself is the original.
    Target,
    /// The kept copy is the original; it exists.
    Copy,
    /// The kept copy is the original; the file is copied to it first.
    NewCopy,
}

/// Says where the original comes from when a file is patched in place:
/// from the file itself unless a copy is asked for, else from the kept
/// copy, which is made first where there is none yet.
pub fn in_place_source(copy_original: bool, copy_exists: bool) -> (source: InPlaceSource)
    ensures
        source == if !copy_original {
            InPlaceSource::Target
        } else if copy_exists {
            InPlaceSource::Copy
        } else {
            InPlaceSource::NewCopy
        },
{
    if !copy_original {
        InPlaceSource::Target
    } else if copy_exists {
        InPlaceSource::Copy
    } else {
        InPlaceSource::NewCopy
    }
}

} // verus!
