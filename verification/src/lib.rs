//! Line-level diffing and patching of text buffers.
//!
//! A patch is computed between two byte buffers, written in the unified
//! format, read back, and replayed onto a buffer. Every function here is
//! pure: callers load and store the buffers themselves.

pub mod apply;
pub mod diff;
pub mod download;
pub mod env;
pub mod files;
pub mod format;
pub mod guarantees;
pub mod lines;
pub mod parse;
pub mod patch;
pub mod round_trip;
pub mod serialize;
pub mod symlink;
pub mod tree;
pub mod well_formed;

pub use apply::{apply, apply_with, is_applied, ApplyError, ApplyOptions};
pub use diff::diff;
pub use env::parse_bool_env;
pub use files::{
    apply_file_patch, apply_file_patch_in_place, create_file_patch, is_file_patch_applied,
};
pub use format::ParseError;
pub use parse::parse;
pub use patch::{Hunk, Line, LineKind, Patch};
pub use serialize::serialize;
