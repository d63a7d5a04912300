//! Error taxonomy of the codec and the coarse result code handed to callers.
use vstd::prelude::*;

verus! {

/// Coarse result code for a whole codec operation.
#[derive(Clone, Copy, Debug, PartialEq, Eq, Structural)]
pub enum BlpResult {
    Success,
    InvalidInput,
    ParseError,
    MemoryError,
    UnknownError,
}

/// Typed error of the codec's own operations.
///
/// `InvalidInput` is returned for arguments rejected before any buffer
/// content is read (zero-size rasters, a mip count outside 1..=16, a
/// quality above 100, an empty source buffer handed to `decode`).
/// `ParseError` covers malformed or truncated BLP bytes, `EncodeError`
/// a failure while producing compressed output, and `ExportError` a
/// request to export a mip that is not available.
#[derive(Clone, Copy, Debug, PartialEq, Eq, Structural)]
pub enum BlpError {
    InvalidInput,
    ParseError,
    EncodeError,
    ExportError,
}

impl BlpError {
    /// Maps a typed error to the coarse result code reported at the
    /// library's boundary: export failures surface as `UnknownError`,
    /// everything else keeps its own name.
    pub fn to_result(&self) -> (r: BlpResult)
        ensures
            r == (match *self {
                BlpError::InvalidInput => BlpResult::InvalidInput,
                BlpError::ParseError => BlpResult::ParseError,
                BlpError::EncodeError => BlpResult::UnknownError,
                BlpError::ExportError => BlpResult::UnknownError,
            }),
    {
        match self {
            BlpError::InvalidInput => BlpResult::InvalidInput,
            BlpError::ParseError => BlpResult::ParseError,
            BlpError::EncodeError => BlpResult::UnknownError,
            BlpError::ExportError => BlpResult::UnknownError,
        }
    }
}

} // verus!
