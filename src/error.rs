//! The errors that the library reports.
use vstd::prelude::*;

verus! {

/// Why a header block, a status line, a response framing or a receive failed.
#[derive(Debug, Clone, Copy, PartialEq, Eq, Structural)]
pub enum HttpError {
    /// The header block is not valid UTF-8.
    HeaderNotUtf8,
    /// A non-empty line follows the blank line that ends the header block.
    HeaderDataAfterEnd,
    /// A header line has no `:`.
    HeaderLineWithoutColon,
    /// The status line does not have exactly three space-separated parts.
    StatusLineShape,
    /// The status code is not a number.
    StatusCodeNotNumber,
    /// The status code is outside `[100, 600)`.
    StatusCodeOutOfRange,
    /// The `content-length` value is not a number.
    ContentLengthInvalid,
    /// A `transfer-encoding` other than `chunked`.
    TransferEncodingUnsupported,
    /// A chunk-size line is not valid UTF-8 or not a number.
    ChunkSizeInvalid,
    /// The stream ended before the awaited byte sequence.
    StreamEnded,
    /// The awaited byte sequence did not come within the allowed bytes.
    SequenceTooFar,
}

} // verus!
