//! Why a decode failed.

use vstd::prelude::*;

verus! {

/// The ways in which decoding a message fails. A failure anywhere in a message
/// fails the whole message; nothing is recovered.
#[derive(Debug, Clone, Copy, PartialEq, Eq, Structural)]
pub enum Error {
    /// The tag byte is none of the message tags. Carries the byte.
    InvalidTypeCode(u8),
    /// The emoticon byte is none of the emoticon codes. Carries the byte.
    InvalidEmoCode(u8),
    /// The bytes of a text slice are not UTF-8.
    MalformedText,
    /// A field needs more bytes than the buffer still holds.
    TruncatedBuffer,
    /// The tag is the image tag, for which no payload format is defined.
    UnimplementedPayload,
}

} // verus!
