//! The fixed codes of the wire format.

use vstd::prelude::*;

verus! {

/// Tag of a message without payload.
pub const MESSAGE_TYPE_CODE_NOP: u8 = 0xfc;

/// Tag of a text message.
pub const MESSAGE_TYPE_CODE_TEXT: u8 = 0x80;

/// Tag of an image message. The tag is reserved: no payload format is defined for it.
pub const MESSAGE_TYPE_CODE_IMAGE: u8 = 0x81;

/// Tag of an emoticon message.
pub const MESSAGE_TYPE_CODE_EMO: u8 = 0x82;

/// Tag of a compound message.
pub const MESSAGE_TYPE_CODE_COMPOUND: u8 = 0xfa;

/// Code of [`Emo::Nop`](crate::message::Emo).
pub const MESSAGE_EMO_CODE_NOP: u8 = 0x00;

/// Code of [`Emo::Laugh`](crate::message::Emo).
pub const MESSAGE_EMO_CODE_LAUGH: u8 = 0x01;

/// Code of [`Emo::Cry`](crate::message::Emo).
pub const MESSAGE_EMO_CODE_CRY: u8 = 0x02;

/// Length prefix that announces a full text slice with another slice after it.
/// It is never the length of a slice.
pub const TEXT_OVERFLOW_FLAG: u16 = 0xffff;

/// Number of bytes in a full text slice: the largest length a prefix can hold
/// without being [`TEXT_OVERFLOW_FLAG`].
pub const TEXT_SLICE_MAX_LENGTH: u16 = 0xfffe;

/// [`TEXT_SLICE_MAX_LENGTH`] as a buffer size.
pub const TEXT_SLICE_MAX_LENGTH_S: usize = 0xfffe;

/// Count prefix that announces a full chunk of nested messages with another
/// chunk after it. It is never the count of a chunk.
pub const COMPOUND_OVERFLOW_FLAG: u8 = 0xff;

/// Number of messages in a full chunk: the largest count a prefix can hold
/// without being [`COMPOUND_OVERFLOW_FLAG`].
pub const COMPOUND_SLICE_MAX_LENGTH: u8 = 0xfe;

/// [`COMPOUND_SLICE_MAX_LENGTH`] as a number of elements.
pub const COMPOUND_SLICE_MAX_LENGTH_S: usize = 0xfe;

} // verus!
