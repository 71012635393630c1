//! Reading values off a byte buffer.

use crate::buffer::{read_u16_be, remaining};
use crate::consts::{
    COMPOUND_OVERFLOW_FLAG, COMPOUND_SLICE_MAX_LENGTH_S, MESSAGE_EMO_CODE_CRY,
    MESSAGE_EMO_CODE_LAUGH, MESSAGE_EMO_CODE_NOP, MESSAGE_TYPE_CODE_COMPOUND,
    MESSAGE_TYPE_CODE_EMO, MESSAGE_TYPE_CODE_IMAGE, MESSAGE_TYPE_CODE_NOP,
    MESSAGE_TYPE_CODE_TEXT, TEXT_OVERFLOW_FLAG, TEXT_SLICE_MAX_LENGTH_S,
};
use crate::error::Error;
use crate::message::{lemma_compound_view, lemma_views_push, views, Emo, Message, MessageView};
use crate::wire::{
    after, lemma_after_after, lemma_after_nothing, lemma_chunks_step, lemma_message_shrinks,
    parse_chunks, parse_elements, parse_emo, parse_message, parse_text, Parsed,
};
use bytes::BytesMut;
use vstd::prelude::*;
use vstd::utf8::{decode_utf8, encode_utf8_decode_utf8};

verus! {

/// What a decoder returns: the value, or why there is none.
pub type Result<T> = std::result::Result<T, Error>;

/// What a call of [`Decoder::decode_from`] amounts to: the value it returned,
/// as a mathematical value, with the bytes it left in the buffer; or the error.
pub open spec fn outcome<T: View>(returned: Result<T>, left: Seq<u8>) -> Parsed<T::V> {
    match returned {
        Ok(value) => Ok((value@, left)),
        Err(e) => Err(e),
    }
}

/// A value that can be read off the front of a byte buffer.
pub trait Decoder: Sized + View {
    /// The wire format of the value: what the front of `bytes` encodes and the
    /// bytes after it, or why it encodes nothing.
    spec fn parse(bytes: Seq<u8>) -> Parsed<Self::V>;

    /// Reads one value off the front of `buf` and advances `buf` past it.
    ///
    /// Returns what [`Self::parse`] finds in the bytes of `buf`: on success
    /// that value, with `buf` left holding the bytes after it; else that
    /// error, with `buf` left anywhere.
    fn decode_from(buf: &mut BytesMut) -> (returned: Result<Self>)
        ensures
            outcome(returned, remaining(*final(buf))) == Self::parse(remaining(*old(buf))),
    ;
}

impl Decoder for Emo {
    open spec fn parse(bytes: Seq<u8>) -> Parsed<Emo> {
        parse_emo(bytes)
    }

    /// Reads one emoticon code off the front of `buf`.
    fn decode_from(buf: &mut BytesMut) -> (returned: Result<Emo>)
        ensures
            outcome(returned, remaining(*final(buf))) == parse_emo(remaining(*old(buf))),
    {
        if buf.len() < 1 {
            return Err(Error::TruncatedBuffer);
        }
        let emo_code = buf[0];
        buf.advance(1);
        let msg = match emo_code {
            MESSAGE_EMO_CODE_NOP => Emo::Nop,
            MESSAGE_EMO_CODE_LAUGH => Emo::Laugh,
            MESSAGE_EMO_CODE_CRY => Emo::Cry,
            _ => return Err(Error::InvalidEmoCode(emo_code)),
        };
        Ok(msg)
    }
}

impl Decoder for String {
    open spec fn parse(bytes: Seq<u8>) -> Parsed<Seq<char>> {
        parse_text(bytes)
    }

    /// Reads one text off the front of `buf`, slice by slice.
    fn decode_from(buf: &mut BytesMut) -> (returned: Result<String>)
        ensures
            outcome(returned, remaining(*final(buf))) == parse_text(remaining(*old(buf))),
    {
        let mut result = String::new();
        loop
            invariant
                parse_text(remaining(*old(buf))) == after(result@, parse_text(remaining(*buf))),
            decreases remaining(*buf).len(),
        {
            let ghost slices = remaining(*buf);
            let ghost before = result@;
            if buf.len() < 2 {
                return Err(Error::TruncatedBuffer);
            }
            let len = read_u16_be(&buf[0..2]);
            buf.advance(2);
            let more = len == TEXT_OVERFLOW_FLAG;
            let size = if more {
                TEXT_SLICE_MAX_LENGTH_S
            } else {
                len as usize
            };
            if buf.len() < size {
                return Err(Error::TruncatedBuffer);
            }
            let ghost slice = slices.subrange(2, 2 + size);
            assert(remaining(*buf).subrange(0, size as int) == slice);
            match std::str::from_utf8(&buf[0..size]) {
                Ok(s) => {
                    proof {
                        encode_utf8_decode_utf8(s@);
                    }
                    result.append(s);
                },
                Err(_) => {
                    return Err(Error::MalformedText);
                },
            }
            buf.advance(size);
            assert(remaining(*buf) == slices.skip(2 + size));
            if !more {
                return Ok(result);
            }
            proof {
                lemma_after_after(before, decode_utf8(slice), parse_text(remaining(*buf)));
            }
        }
    }
}

impl Decoder for Message {
    open spec fn parse(bytes: Seq<u8>) -> Parsed<MessageView> {
        parse_message(bytes)
    }

    /// Reads one message off the front of `buf`, with all that is nested in
    /// it.
    fn decode_from(buf: &mut BytesMut) -> (returned: Result<Message>)
        ensures
            outcome(returned, remaining(*final(buf))) == parse_message(remaining(*old(buf))),
        decreases remaining(*old(buf)).len(),
    {
        if buf.len() < 1 {
            return Err(Error::TruncatedBuffer);
        }
        let type_code = buf[0];
        buf.advance(1);
        let msg = match type_code {
            MESSAGE_TYPE_CODE_NOP => Message::Nop,
            MESSAGE_TYPE_CODE_TEXT => {
                match String::decode_from(buf) {
                    Ok(s) => Message::Text(s),
                    Err(e) => return Err(e),
                }
            },
            MESSAGE_TYPE_CODE_EMO => {
                match Emo::decode_from(buf) {
                    Ok(s) => Message::Emo(s),
                    Err(e) => return Err(e),
                }
            },
            MESSAGE_TYPE_CODE_IMAGE => {
                return Err(Error::UnimplementedPayload);
            },
            MESSAGE_TYPE_CODE_COMPOUND => {
                let ghost payload = remaining(*buf);
                if buf.len() < 1 {
                    return Err(Error::TruncatedBuffer);
                }
                let mut length = buf[0];
                buf.advance(1);
                let mut msgs: Vec<Message> = Vec::new();
                let ghost mut chunks = payload;
                proof {
                    lemma_after_nothing(parse_chunks(chunks));
                }
                while length == COMPOUND_OVERFLOW_FLAG
                    invariant
                        payload == remaining(*old(buf)).skip(1),
                        remaining(*old(buf)).len() >= 1,
                        remaining(*old(buf))[0] == MESSAGE_TYPE_CODE_COMPOUND,
                        chunks.len() >= 1,
                        chunks.len() <= payload.len(),
                        chunks[0] == length,
                        remaining(*buf) == chunks.skip(1),
                        parse_chunks(payload) == after(views(msgs@), parse_chunks(chunks)),
                    decreases chunks.len(),
                {
                    let ghost before = views(msgs@);
                    let ghost elements = remaining(*buf);
                    let ghost full = COMPOUND_SLICE_MAX_LENGTH_S as nat;
                    proof {
                        lemma_after_nothing(parse_elements(elements, full));
                        lemma_after_after(before, Seq::empty(), parse_elements(elements, full));
                    }
                    for i in 0..COMPOUND_SLICE_MAX_LENGTH_S
                        invariant
                            payload == remaining(*old(buf)).skip(1),
                            remaining(*old(buf)).len() >= 1,
                            remaining(*old(buf))[0] == MESSAGE_TYPE_CODE_COMPOUND,
                            chunks.len() >= 1,
                            chunks.len() <= payload.len(),
                            chunks[0] == COMPOUND_OVERFLOW_FLAG,
                            elements == chunks.skip(1),
                            remaining(*buf).len() <= elements.len(),
                            parse_chunks(payload) == after(before, parse_chunks(chunks)),
                            full == COMPOUND_SLICE_MAX_LENGTH_S,
                            after(before, parse_elements(elements, full)) == after(
                                views(msgs@),
                                parse_elements(remaining(*buf), (full - i) as nat),
                            ),
                    {
                        let ghost here = remaining(*buf);
                        let ghost so_far = views(msgs@);
                        proof {
                            lemma_message_shrinks(here);
                        }
                        match Self::decode_from(buf) {
                            Ok(msg) => {
                                proof {
                                    lemma_views_push(msgs@, msg);
                                    lemma_after_after(
                                        so_far,
                                        seq![msg@],
                                        parse_elements(remaining(*buf), (full - i - 1) as nat),
                                    );
                                }
                                msgs.push(msg);
                            },
                            Err(e) => {
                                return Err(e);
                            },
                        }
                    }
                    proof {
                        lemma_chunks_step(chunks);
                        lemma_after_after(
                            before,
                            parse_elements(elements, full)->Ok_0.0,
                            parse_chunks(remaining(*buf)),
                        );
                        chunks = remaining(*buf);
                    }
                    if buf.len() < 1 {
                        return Err(Error::TruncatedBuffer);
                    }
                    length = buf[0];
                    buf.advance(1);
                }
                let ghost before = views(msgs@);
                let ghost elements = remaining(*buf);
                proof {
                    lemma_after_nothing(parse_elements(elements, length as nat));
                    lemma_after_after(
                        before,
                        Seq::empty(),
                        parse_elements(elements, length as nat),
                    );
                }
                for i in 0..length
                    invariant
                        payload == remaining(*old(buf)).skip(1),
                        remaining(*old(buf)).len() >= 1,
                        remaining(*old(buf))[0] == MESSAGE_TYPE_CODE_COMPOUND,
                        chunks.len() >= 1,
                        chunks.len() <= payload.len(),
                        chunks[0] == length,
                        length != COMPOUND_OVERFLOW_FLAG,
                        elements == chunks.skip(1),
                        remaining(*buf).len() <= elements.len(),
                        parse_chunks(payload) == after(before, parse_chunks(chunks)),
                        after(before, parse_elements(elements, length as nat)) == after(
                            views(msgs@),
                            parse_elements(remaining(*buf), (length - i) as nat),
                        ),
                {
                    let ghost here = remaining(*buf);
                    let ghost so_far = views(msgs@);
                    proof {
                        lemma_message_shrinks(here);
                    }
                    let msg = Self::decode_from(buf);
                    match msg {
                        Ok(msg) => {
                            proof {
                                lemma_views_push(msgs@, msg);
                                lemma_after_after(
                                    so_far,
                                    seq![msg@],
                                    parse_elements(remaining(*buf), (length - i - 1) as nat),
                                );
                            }
                            msgs.push(msg);
                        },
                        Err(e) => {
                            return Err(e);
                        },
                    }
                }
                proof {
                    lemma_compound_view(msgs);
                }
                Message::Compound(msgs)
            },
            _ => return Err(Error::InvalidTypeCode(type_code)),
        };
        Ok(msg)
    }
}

} // verus!
