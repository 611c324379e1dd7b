//! The ways in which decoding or encoding a message can fail.
use vstd::prelude::*;

verus! {

/// Why a message was rejected. Every kind is final for the message at hand:
/// nothing is guessed or repaired.
#[derive(Clone, Copy, Debug, PartialEq, Eq, Structural)]
pub enum CodecError {
    /// The first line is not a request line or status line.
    MalformedStartLine,
    /// A header line has no colon, a bad name, or is not terminated.
    MalformedHeader,
    /// The length headers are not numeric, disagree, or clash with a
    /// transfer coding.
    InvalidContentLength,
    /// A chunk has a bad size line or lacks its closing line break.
    MalformedChunk,
    /// The input ended inside the body.
    UnexpectedEof,
    /// A line or a header block is longer than the configured limit.
    MessageTooLarge,
    /// The body handed to the serializer does not have the declared length.
    LengthMismatch,
}

} // verus!
