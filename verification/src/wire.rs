//! The wire format, as functions from bytes to what they encode.
//!
//! Each function reads one item off the front of a byte sequence and yields
//! the item together with the bytes after it, or the reason why there is no
//! item. The functions are total and look at nothing beyond the item they read.

use crate::consts::{
    COMPOUND_OVERFLOW_FLAG, COMPOUND_SLICE_MAX_LENGTH, MESSAGE_EMO_CODE_CRY,
    MESSAGE_EMO_CODE_LAUGH, MESSAGE_EMO_CODE_NOP, MESSAGE_TYPE_CODE_COMPOUND,
    MESSAGE_TYPE_CODE_EMO, MESSAGE_TYPE_CODE_IMAGE, MESSAGE_TYPE_CODE_NOP,
    MESSAGE_TYPE_CODE_TEXT, TEXT_OVERFLOW_FLAG, TEXT_SLICE_MAX_LENGTH,
};
use crate::error::Error;
use crate::message::{image_free, Emo, MessageView};
use vstd::prelude::*;
use vstd::utf8::{decode_utf8, valid_utf8};

verus! {

/// One item read off the front of a byte sequence, with the bytes that follow
/// it; or why no item could be read.
pub type Parsed<T> = Result<(T, Seq<u8>), Error>;

/// The outcome of reading `item` and leaving `rest`.
pub open spec fn found<T>(item: T, rest: Seq<u8>) -> Parsed<T> {
    Ok((item, rest))
}

/// The outcome of failing with `error`.
pub open spec fn failed<T>(error: Error) -> Parsed<T> {
    Err(error)
}

/// The number that two bytes stand for, most significant byte first.
pub open spec fn be_u16(high: u8, low: u8) -> int {
    high * 256 + low
}

/// `parsed` with `front` put before the sequence it found.
pub open spec fn after<T>(front: Seq<T>, parsed: Parsed<Seq<T>>) -> Parsed<Seq<T>> {
    match parsed {
        Ok((items, rest)) => Ok((front + items, rest)),
        Err(e) => Err(e),
    }
}

/// Putting two fronts before a sequence, one after the other, puts their
/// concatenation before it.
pub proof fn lemma_after_after<T>(first: Seq<T>, second: Seq<T>, parsed: Parsed<Seq<T>>)
    ensures
        after(first, after(second, parsed)) == after(first + second, parsed),
{
    if let Ok((items, rest)) = parsed {
        assert(first + (second + items) =~= (first + second) + items);
    }
}

/// Putting nothing before a sequence leaves it as it is.
pub proof fn lemma_after_nothing<T>(parsed: Parsed<Seq<T>>)
    ensures
        after(Seq::empty(), parsed) == parsed,
{
    if let Ok((items, rest)) = parsed {
        assert(Seq::<T>::empty() + items =~= items);
    }
}

/// Whether a text slice with the prefix `high`, `low` has another slice after
/// it.
pub open spec fn announces_more(high: u8, low: u8) -> bool {
    be_u16(high, low) == TEXT_OVERFLOW_FLAG
}

/// The number of bytes in a text slice with the prefix `high`, `low`.
pub open spec fn slice_size(high: u8, low: u8) -> int {
    if announces_more(high, low) {
        TEXT_SLICE_MAX_LENGTH as int
    } else {
        be_u16(high, low)
    }
}

/// A text: slices, each a two-byte length prefix and that many bytes of UTF-8.
/// A prefix of [`TEXT_OVERFLOW_FLAG`] stands for a slice of
/// [`TEXT_SLICE_MAX_LENGTH`] bytes with another slice after it; any other
/// prefix is the length of the last slice. The text is the slices' texts in a
/// row.
pub open spec fn parse_text(bytes: Seq<u8>) -> Parsed<Seq<char>>
    decreases bytes.len(),
{
    if bytes.len() < 2 {
        Err(Error::TruncatedBuffer)
    } else {
        let more = announces_more(bytes[0], bytes[1]);
        let size = slice_size(bytes[0], bytes[1]);
        if bytes.len() < 2 + size {
            Err(Error::TruncatedBuffer)
        } else {
            let slice = bytes.subrange(2, 2 + size);
            let rest = bytes.skip(2 + size);
            if !valid_utf8(slice) {
                Err(Error::MalformedText)
            } else if more {
                after(decode_utf8(slice), parse_text(rest))
            } else {
                Ok((decode_utf8(slice), rest))
            }
        }
    }
}

/// The emoticon that a code stands for, if any.
pub open spec fn emo_of_code(code: u8) -> Option<Emo> {
    if code == MESSAGE_EMO_CODE_NOP {
        Some(Emo::Nop)
    } else if code == MESSAGE_EMO_CODE_LAUGH {
        Some(Emo::Laugh)
    } else if code == MESSAGE_EMO_CODE_CRY {
        Some(Emo::Cry)
    } else {
        None
    }
}

/// An emoticon: one byte, its code.
pub open spec fn parse_emo(bytes: Seq<u8>) -> Parsed<Emo> {
    if bytes.len() < 1 {
        Err(Error::TruncatedBuffer)
    } else {
        match emo_of_code(bytes[0]) {
            Some(emo) => Ok((emo, bytes.skip(1))),
            None => Err(Error::InvalidEmoCode(bytes[0])),
        }
    }
}

/// A message: a tag byte, then the payload that the tag calls for.
pub open spec fn parse_message(bytes: Seq<u8>) -> Parsed<MessageView>
    decreases bytes.len(), 0nat,
{
    if bytes.len() < 1 {
        Err(Error::TruncatedBuffer)
    } else {
        let tag = bytes[0];
        let payload = bytes.skip(1);
        if tag == MESSAGE_TYPE_CODE_NOP {
            Ok((MessageView::Nop, payload))
        } else if tag == MESSAGE_TYPE_CODE_TEXT {
            match parse_text(payload) {
                Ok((text, rest)) => Ok((MessageView::Text(text), rest)),
                Err(e) => Err(e),
            }
        } else if tag == MESSAGE_TYPE_CODE_EMO {
            match parse_emo(payload) {
                Ok((emo, rest)) => Ok((MessageView::Emo(emo), rest)),
                Err(e) => Err(e),
            }
        } else if tag == MESSAGE_TYPE_CODE_IMAGE {
            Err(Error::UnimplementedPayload)
        } else if tag == MESSAGE_TYPE_CODE_COMPOUND {
            match parse_chunks(payload) {
                Ok((parts, rest)) => Ok((MessageView::Compound(parts), rest)),
                Err(e) => Err(e),
            }
        } else {
            Err(Error::InvalidTypeCode(tag))
        }
    }
}

/// The payload of a compound message: chunks, each a count byte and that many
/// messages. A count of [`COMPOUND_OVERFLOW_FLAG`] stands for a chunk of
/// [`COMPOUND_SLICE_MAX_LENGTH`] messages with another chunk after it; any
/// other count is the size of the last chunk. The payload is the chunks'
/// messages in a row.
///
/// The test on the length of what a chunk leaves makes the recursion well
/// founded and always succeeds: [`lemma_chunks_step`] is the definition
/// without it.
pub open spec fn parse_chunks(bytes: Seq<u8>) -> Parsed<Seq<MessageView>>
    decreases bytes.len(), 0nat,
{
    if bytes.len() < 1 {
        Err(Error::TruncatedBuffer)
    } else {
        let more = bytes[0] == COMPOUND_OVERFLOW_FLAG;
        let count = if more {
            COMPOUND_SLICE_MAX_LENGTH
        } else {
            bytes[0]
        };
        match parse_elements(bytes.skip(1), count as nat) {
            Ok((chunk, rest)) => if more && rest.len() < bytes.len() {
                after(chunk, parse_chunks(rest))
            } else {
                Ok((chunk, rest))
            },
            Err(e) => Err(e),
        }
    }
}

/// `count` messages in a row.
///
/// The test on the length of what a message leaves makes the recursion well
/// founded and always succeeds: [`lemma_elements_step`] is the definition
/// without it.
pub open spec fn parse_elements(bytes: Seq<u8>, count: nat) -> Parsed<Seq<MessageView>>
    decreases bytes.len(), count + 1,
{
    if count == 0 {
        Ok((Seq::empty(), bytes))
    } else {
        match parse_message(bytes) {
            Ok((first, rest)) => if rest.len() < bytes.len() {
                after(seq![first], parse_elements(rest, (count - 1) as nat))
            } else {
                Ok((seq![first], rest))
            },
            Err(e) => Err(e),
        }
    }
}

/// `rest` is what remains of `bytes` once at least `least` bytes are taken off
/// its front.
pub open spec fn left_of(bytes: Seq<u8>, rest: Seq<u8>, least: nat) -> bool {
    &&& rest.len() + least <= bytes.len()
    &&& rest == bytes.skip(bytes.len() - rest.len())
}

/// A text takes at least its two-byte prefix off the front and leaves the
/// bytes behind it untouched.
pub proof fn lemma_text_shrinks(bytes: Seq<u8>)
    ensures
        parse_text(bytes) matches Ok((_, rest)) ==> left_of(bytes, rest, 2),
    decreases bytes.len(),
{
    if let Ok((_, rest)) = parse_text(bytes) {
        let size = slice_size(bytes[0], bytes[1]);
        let next = bytes.skip(2 + size);
        if announces_more(bytes[0], bytes[1]) {
            lemma_text_shrinks(next);
            assert(rest == bytes.skip(bytes.len() - rest.len()));
        }
    }
}

/// A message takes at least its tag off the front and leaves the bytes behind
/// it untouched.
pub proof fn lemma_message_shrinks(bytes: Seq<u8>)
    ensures
        parse_message(bytes) matches Ok((_, rest)) ==> left_of(bytes, rest, 1),
    decreases bytes.len(), 0nat,
{
    if let Ok((_, rest)) = parse_message(bytes) {
        let payload = bytes.skip(1);
        if bytes[0] == MESSAGE_TYPE_CODE_TEXT {
            lemma_text_shrinks(payload);
        } else if bytes[0] == MESSAGE_TYPE_CODE_COMPOUND {
            lemma_chunks_shrink(payload);
        }
        assert(rest == bytes.skip(bytes.len() - rest.len()));
    }
}

/// The chunks of a compound message take at least a count byte off the front
/// and leave the bytes behind them untouched.
pub proof fn lemma_chunks_shrink(bytes: Seq<u8>)
    ensures
        parse_chunks(bytes) matches Ok((_, rest)) ==> left_of(bytes, rest, 1),
    decreases bytes.len(), 0nat,
{
    if let Ok((_, rest)) = parse_chunks(bytes) {
        let more = bytes[0] == COMPOUND_OVERFLOW_FLAG;
        let count = if more {
            COMPOUND_SLICE_MAX_LENGTH
        } else {
            bytes[0]
        };
        lemma_elements_shrink(bytes.skip(1), count as nat);
        let next = parse_elements(bytes.skip(1), count as nat)->Ok_0.1;
        if more {
            lemma_chunks_shrink(next);
        }
        assert(rest == bytes.skip(bytes.len() - rest.len()));
    }
}

/// `count` messages take at least `count` bytes off the front and leave the
/// bytes behind them untouched.
pub proof fn lemma_elements_shrink(bytes: Seq<u8>, count: nat)
    ensures
        parse_elements(bytes, count) matches Ok((_, rest)) ==> left_of(bytes, rest, count),
    decreases bytes.len(), count + 1,
{
    if let Ok((_, rest)) = parse_elements(bytes, count) {
        if count > 0 {
            lemma_message_shrinks(bytes);
            let next = parse_message(bytes)->Ok_0.1;
            lemma_elements_shrink(next, (count - 1) as nat);
        }
        assert(rest == bytes.skip(bytes.len() - rest.len()));
    }
}

/// [`parse_elements`] without its test: more than no messages in a row are a
/// message and then one message fewer in a row.
pub proof fn lemma_elements_step(bytes: Seq<u8>, count: nat)
    requires
        count > 0,
    ensures
        parse_elements(bytes, count) == match parse_message(bytes) {
            Ok((first, rest)) => after(seq![first], parse_elements(rest, (count - 1) as nat)),
            Err(e) => Err(e),
        },
{
    lemma_message_shrinks(bytes);
}

/// [`parse_chunks`] without its test: a full chunk is its messages and then
/// the chunks after it, the last chunk is its messages.
pub proof fn lemma_chunks_step(bytes: Seq<u8>)
    requires
        bytes.len() >= 1,
    ensures
        parse_chunks(bytes) == if bytes[0] == COMPOUND_OVERFLOW_FLAG {
            match parse_elements(bytes.skip(1), COMPOUND_SLICE_MAX_LENGTH as nat) {
                Ok((chunk, rest)) => after(chunk, parse_chunks(rest)),
                Err(e) => Err(e),
            }
        } else {
            parse_elements(bytes.skip(1), bytes[0] as nat)
        },
{
    if bytes[0] == COMPOUND_OVERFLOW_FLAG {
        lemma_elements_shrink(bytes.skip(1), COMPOUND_SLICE_MAX_LENGTH as nat);
    }
}

/// Reading `count` messages in a row yields `count` messages.
pub proof fn theorem_elements_count(bytes: Seq<u8>, count: nat)
    ensures
        parse_elements(bytes, count) matches Ok((messages, _)) ==> messages.len() == count,
    decreases count,
{
    if count > 0 {
        if let Ok((_, rest)) = parse_message(bytes) {
            lemma_message_shrinks(bytes);
            theorem_elements_count(rest, (count - 1) as nat);
        }
    }
}

/// No message that is read holds an image: the image tag is refused wherever
/// it stands.
pub proof fn theorem_no_image_is_read(bytes: Seq<u8>)
    ensures
        parse_message(bytes) matches Ok((message, _)) ==> image_free(message),
    decreases bytes.len(), 0nat,
{
    if parse_message(bytes) is Ok && bytes[0] == MESSAGE_TYPE_CODE_COMPOUND {
        lemma_chunks_no_image(bytes.skip(1));
    }
}

/// No message among the chunks of a compound message holds an image.
pub proof fn lemma_chunks_no_image(bytes: Seq<u8>)
    ensures
        parse_chunks(bytes) matches Ok((messages, _)) ==> forall|i: int|
            0 <= i < messages.len() ==> image_free(#[trigger] messages[i]),
    decreases bytes.len(), 0nat,
{
    if parse_chunks(bytes) is Ok {
        let more = bytes[0] == COMPOUND_OVERFLOW_FLAG;
        let count = (if more {
            COMPOUND_SLICE_MAX_LENGTH
        } else {
            bytes[0]
        }) as nat;
        lemma_elements_no_image(bytes.skip(1), count);
        lemma_elements_shrink(bytes.skip(1), count);
        if more {
            lemma_chunks_no_image(parse_elements(bytes.skip(1), count)->Ok_0.1);
        }
    }
}

/// No message among messages in a row holds an image.
pub proof fn lemma_elements_no_image(bytes: Seq<u8>, count: nat)
    ensures
        parse_elements(bytes, count) matches Ok((messages, _)) ==> forall|i: int|
            0 <= i < messages.len() ==> image_free(#[trigger] messages[i]),
    decreases bytes.len(), count + 1,
{
    if parse_elements(bytes, count) is Ok && count > 0 {
        theorem_no_image_is_read(bytes);
        lemma_message_shrinks(bytes);
        lemma_elements_no_image(parse_message(bytes)->Ok_0.1, (count - 1) as nat);
    }
}

} // verus!
