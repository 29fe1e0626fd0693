//! Error kinds of the normalization pipeline.

use vstd::prelude::*;

verus! {

/// Why processing of a single file was aborted. Every failure is
/// recoverable at the request level: it aborts that file only.
#[derive(Clone, Copy, Debug, PartialEq, Eq, Structural)]
pub enum NormalizeError {
    /// The source vanished between the event and the dispatch.
    NotFound,
    /// The codec could not parse the bytes, even after the bounded retries.
    DecodeFailed,
    /// The configured output format names no supported codec.
    UnsupportedFormat,
    /// The codec could not encode the finished canvas.
    EncodeFailed,
    /// Creating, renaming or removing a file failed.
    IoFailed,
}

} // verus!
