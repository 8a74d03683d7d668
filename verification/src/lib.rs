//! A fixed-size, self-contained time-series file format and its update
//! engine: a stack of circular archives at progressively coarser
//! resolutions, updated in place by a cascading write path.
//!
//! The library works on an in-memory image of the file's bytes; reading
//! the image from disk and writing it back is left to the caller.

use vstd::prelude::*;

pub mod archive_info;
pub mod error;
pub mod file;
pub mod header;
pub mod metadata;
pub mod point;
pub mod schema;
pub mod value;
pub mod write_op;

verus! {

} // verus!
