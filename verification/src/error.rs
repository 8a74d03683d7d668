//! The error kinds of the library. I/O failures never arise here: the
//! library works on an in-memory image, and whatever reads or writes the
//! backing file reports its own failures.

use vstd::prelude::*;

verus! {

#[derive(Clone, Copy, PartialEq, Eq, Structural, Debug)]
pub enum WhisperError {
    /// The header fails validation; fatal for the handle.
    HeaderCorrupt,
    /// A retention schema violates ordering or divisibility at creation.
    SchemaInvalid,
    /// The point's timestamp lies after the current time; nothing written.
    PointInFuture,
    /// No archive's retention covers the point's age; nothing written.
    PointOutsideRetention,
}

impl WhisperError {
    /// A one-line description, for callers that print errors.
    pub fn describe(&self) -> (r: &'static str)
    {
        match self {
            WhisperError::HeaderCorrupt => "header is corrupt",
            WhisperError::SchemaInvalid => "retention schema is invalid",
            WhisperError::PointInFuture => "point timestamp is in the future",
            WhisperError::PointOutsideRetention => "point is outside of every archive's retention",
        }
    }
}

} // verus!
