//! Decoder for the ITRE message wire format.
//!
//! A message arrives as a tag byte followed by a payload whose shape the tag
//! decides. Text and compound payloads are chunked: a reserved marker in the
//! length (or count) prefix announces a full chunk with more to follow, any
//! other value announces the last chunk.
//!
//! [`wire`] defines the format as functions on byte sequences. [`decoder`]
//! reads it off a `bytes::BytesMut` and is proved to return what those
//! functions say, without ever reading past the end of the buffer.
//! [`framing`] and [`encoding`] hold what is proved of the format itself.

pub mod buffer;
pub mod consts;
pub mod decoder;
pub mod encoding;
pub mod error;
pub mod framing;
pub mod message;
pub mod wire;

pub use decoder::Decoder;
pub use error::Error;
pub use message::{Emo, Message};
