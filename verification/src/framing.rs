//! How an item sits in the bytes around it.
//!
//! Reading an item depends on the bytes of the item alone: not on what follows
//! them, and on all of them. So an item can be followed by anything, and an
//! item cut short is never mistaken for another one.

use crate::consts::{
    COMPOUND_OVERFLOW_FLAG, COMPOUND_SLICE_MAX_LENGTH, MESSAGE_TYPE_CODE_COMPOUND,
    MESSAGE_TYPE_CODE_EMO, MESSAGE_TYPE_CODE_TEXT,
};
use crate::error::Error;
use crate::message::{Emo, MessageView};
use crate::wire::{
    announces_more, failed, found, lemma_chunks_shrink, lemma_elements_shrink,
    lemma_message_shrinks, lemma_text_shrinks, parse_chunks, parse_elements, parse_emo,
    parse_message, parse_text, slice_size, Parsed,
};
use vstd::prelude::*;

verus! {

/// The two sequences have the same first `n` bytes.
pub open spec fn agree(a: Seq<u8>, b: Seq<u8>, n: int) -> bool {
    &&& 0 <= n <= a.len()
    &&& n <= b.len()
    &&& a.take(n) == b.take(n)
}

/// Sequences that agree on their first `n` bytes hold the same byte at each of
/// the first `n` places.
pub proof fn lemma_agree_bytes(a: Seq<u8>, b: Seq<u8>, n: int)
    requires
        agree(a, b, n),
    ensures
        forall|i: int| 0 <= i < n ==> a[i] == b[i],
{
    assert forall|i: int| 0 <= i < n implies a[i] == b[i] by {
        assert(a.take(n)[i] == b.take(n)[i]);
    }
}

/// The number of bytes that reading took off the front of `bytes`, where it
/// left `parsed`.
pub open spec fn taken<T>(bytes: Seq<u8>, parsed: Parsed<T>) -> int {
    match parsed {
        Ok((_, rest)) => bytes.len() - rest.len(),
        Err(_) => 0,
    }
}

/// What reading yields on `other` if it yields `parsed` on bytes that agree
/// with `other` on all that was taken: the same item, and the rest of `other`.
pub open spec fn carried<T>(parsed: Parsed<T>, other: Seq<u8>, n: int) -> Parsed<T> {
    match parsed {
        Ok((item, _)) => Ok((item, other.skip(n))),
        Err(e) => Err(e),
    }
}

/// A text is read from its own bytes alone: bytes that agree with `bytes` on
/// the text hold the same text.
pub proof fn lemma_text_local(bytes: Seq<u8>, other: Seq<u8>)
    requires
        parse_text(bytes) is Ok,
        agree(bytes, other, taken(bytes, parse_text(bytes))),
    ensures
        parse_text(other) == carried(parse_text(bytes), other, taken(bytes, parse_text(bytes))),
    decreases bytes.len(),
{
    let n = taken(bytes, parse_text(bytes));
    lemma_text_shrinks(bytes);
    lemma_agree_bytes(bytes, other, n);
    let more = announces_more(bytes[0], bytes[1]);
    let size = slice_size(bytes[0], bytes[1]);
    let next = bytes.skip(2 + size);
    if more {
        lemma_text_shrinks(next);
    }
    assert(other.subrange(2, 2 + size) =~= bytes.subrange(2, 2 + size));
    if more {
        let m = taken(next, parse_text(next));
        assert(next.take(m) =~= other.skip(2 + size).take(m));
        lemma_text_local(next, other.skip(2 + size));
        assert(other.skip(2 + size).skip(m) =~= other.skip(n));
    }
}

/// A message is read from its own bytes alone: bytes that agree with `bytes`
/// on the message hold the same message.
pub proof fn lemma_message_local(bytes: Seq<u8>, other: Seq<u8>)
    requires
        parse_message(bytes) is Ok,
        agree(bytes, other, taken(bytes, parse_message(bytes))),
    ensures
        parse_message(other) == carried(
            parse_message(bytes),
            other,
            taken(bytes, parse_message(bytes)),
        ),
    decreases bytes.len(), 0nat,
{
    let n = taken(bytes, parse_message(bytes));
    lemma_message_shrinks(bytes);
    lemma_agree_bytes(bytes, other, n);
    let payload = bytes.skip(1);
    assert(payload.take(n - 1) =~= other.skip(1).take(n - 1));
    if bytes[0] == MESSAGE_TYPE_CODE_TEXT {
        lemma_text_local(payload, other.skip(1));
    } else if bytes[0] == MESSAGE_TYPE_CODE_EMO {
        assert(other.skip(1).skip(1) =~= other.skip(2));
    } else if bytes[0] == MESSAGE_TYPE_CODE_COMPOUND {
        lemma_chunks_local(payload, other.skip(1));
    }
    assert(other.skip(1).skip(n - 1) =~= other.skip(n));
}

/// The chunks of a compound message are read from their own bytes alone.
pub proof fn lemma_chunks_local(bytes: Seq<u8>, other: Seq<u8>)
    requires
        parse_chunks(bytes) is Ok,
        agree(bytes, other, taken(bytes, parse_chunks(bytes))),
    ensures
        parse_chunks(other) == carried(
            parse_chunks(bytes),
            other,
            taken(bytes, parse_chunks(bytes)),
        ),
    decreases bytes.len(), 0nat,
{
    let n = taken(bytes, parse_chunks(bytes));
    lemma_chunks_shrink(bytes);
    lemma_agree_bytes(bytes, other, n);
    let more = bytes[0] == COMPOUND_OVERFLOW_FLAG;
    let count = (if more {
        COMPOUND_SLICE_MAX_LENGTH
    } else {
        bytes[0]
    }) as nat;
    let elements = bytes.skip(1);
    let chunk = parse_elements(elements, count);
    let k = taken(elements, chunk);
    let next = chunk->Ok_0.1;
    lemma_elements_shrink(elements, count);
    if more {
        lemma_chunks_shrink(next);
    }
    assert(elements.take(k) =~= other.skip(1).take(k));
    lemma_elements_local(elements, other.skip(1), count);
    let other_next = other.skip(1).skip(k);
    lemma_elements_shrink(other.skip(1), count);
    if more {
        let m = taken(next, parse_chunks(next));
        assert(next.take(m) =~= other_next.take(m));
        lemma_chunks_local(next, other_next);
        assert(other_next.skip(m) =~= other.skip(n));
    } else {
        assert(other_next =~= other.skip(n));
    }
}

/// Messages in a row are read from their own bytes alone.
pub proof fn lemma_elements_local(bytes: Seq<u8>, other: Seq<u8>, count: nat)
    requires
        parse_elements(bytes, count) is Ok,
        agree(bytes, other, taken(bytes, parse_elements(bytes, count))),
    ensures
        parse_elements(other, count) == carried(
            parse_elements(bytes, count),
            other,
            taken(bytes, parse_elements(bytes, count)),
        ),
    decreases bytes.len(), count + 1,
{
    let n = taken(bytes, parse_elements(bytes, count));
    lemma_elements_shrink(bytes, count);
    if count == 0 {
        assert(other.skip(0) =~= other);
    } else {
        let first = parse_message(bytes);
        let k = taken(bytes, first);
        let next = first->Ok_0.1;
        lemma_message_shrinks(bytes);
        lemma_elements_shrink(next, (count - 1) as nat);
        assert(bytes.take(k) =~= bytes.take(n).take(k));
        assert(other.take(k) =~= other.take(n).take(k));
        lemma_message_local(bytes, other);
        let other_next = other.skip(k);
        lemma_message_shrinks(other);
        let m = taken(next, parse_elements(next, (count - 1) as nat));
        assert(next.take(m) =~= other_next.take(m)) by {
            lemma_agree_bytes(bytes, other, n);
        }
        lemma_elements_local(next, other_next, (count - 1) as nat);
        assert(other_next.skip(m) =~= other.skip(n));
    }
}

/// What follows a message does not change it: with `extra` behind the bytes,
/// the same message is read and `extra` is behind what is left.
pub proof fn lemma_message_followed(bytes: Seq<u8>, extra: Seq<u8>)
    requires
        parse_message(bytes) is Ok,
    ensures
        parse_message(bytes + extra) == match parse_message(bytes) {
            Ok((message, rest)) => found(message, rest + extra),
            Err(e) => failed(e),
        },
{
    let n = taken(bytes, parse_message(bytes));
    lemma_message_shrinks(bytes);
    assert(bytes.take(n) =~= (bytes + extra).take(n));
    lemma_message_local(bytes, bytes + extra);
    assert((bytes + extra).skip(n) =~= bytes.skip(n) + extra);
}

/// A text cut short is a truncated buffer: with fewer bytes than the text
/// takes, reading fails for want of bytes and for no other reason.
pub proof fn lemma_text_cut(bytes: Seq<u8>, n: int)
    requires
        parse_text(bytes) is Ok,
        0 <= n < taken(bytes, parse_text(bytes)),
    ensures
        parse_text(bytes.take(n)) == failed::<Seq<char>>(Error::TruncatedBuffer),
    decreases bytes.len(),
{
    lemma_text_shrinks(bytes);
    let cut = bytes.take(n);
    if n >= 2 {
        let more = announces_more(bytes[0], bytes[1]);
        let size = slice_size(bytes[0], bytes[1]);
        if n >= 2 + size {
            let next = bytes.skip(2 + size);
            assert(cut.subrange(2, 2 + size) =~= bytes.subrange(2, 2 + size));
            assert(cut.skip(2 + size) =~= next.take(n - 2 - size));
            if more {
                lemma_text_shrinks(next);
                lemma_text_cut(next, n - 2 - size);
            }
        }
    }
}

/// A message cut short is a truncated buffer: from fewer bytes than the
/// message takes, however many and whatever the message, reading fails for
/// want of bytes and for no other reason.
pub proof fn theorem_message_cut_short(bytes: Seq<u8>, n: int)
    requires
        parse_message(bytes) is Ok,
        0 <= n < taken(bytes, parse_message(bytes)),
    ensures
        parse_message(bytes.take(n)) == failed::<MessageView>(Error::TruncatedBuffer),
    decreases bytes.len(), 0nat,
{
    lemma_message_shrinks(bytes);
    let cut = bytes.take(n);
    if n >= 1 {
        let payload = bytes.skip(1);
        assert(cut.skip(1) =~= payload.take(n - 1));
        if bytes[0] == MESSAGE_TYPE_CODE_TEXT {
            lemma_text_cut(payload, n - 1);
        } else if bytes[0] == MESSAGE_TYPE_CODE_COMPOUND {
            lemma_chunks_cut(payload, n - 1);
        }
    }
}

/// The chunks of a compound message, cut short, are a truncated buffer.
pub proof fn lemma_chunks_cut(bytes: Seq<u8>, n: int)
    requires
        parse_chunks(bytes) is Ok,
        0 <= n < taken(bytes, parse_chunks(bytes)),
    ensures
        parse_chunks(bytes.take(n)) == failed::<Seq<MessageView>>(Error::TruncatedBuffer),
    decreases bytes.len(), 0nat,
{
    lemma_chunks_shrink(bytes);
    let cut = bytes.take(n);
    if n >= 1 {
        let more = bytes[0] == COMPOUND_OVERFLOW_FLAG;
        let count = (if more {
            COMPOUND_SLICE_MAX_LENGTH
        } else {
            bytes[0]
        }) as nat;
        let elements = bytes.skip(1);
        let chunk = parse_elements(elements, count);
        let k = taken(elements, chunk);
        let next = chunk->Ok_0.1;
        lemma_elements_shrink(elements, count);
        assert(cut.skip(1) =~= elements.take(n - 1));
        if n - 1 < k {
            lemma_elements_cut(elements, count, n - 1);
        } else {
            assert(elements.take(k) =~= elements.take(n - 1).take(k));
            lemma_elements_local(elements, elements.take(n - 1), count);
            assert(elements.take(n - 1).skip(k) =~= next.take(n - 1 - k));
            lemma_chunks_shrink(next);
            lemma_chunks_cut(next, n - 1 - k);
        }
    }
}

/// Messages in a row, cut short, are a truncated buffer.
pub proof fn lemma_elements_cut(bytes: Seq<u8>, count: nat, n: int)
    requires
        parse_elements(bytes, count) is Ok,
        0 <= n < taken(bytes, parse_elements(bytes, count)),
    ensures
        parse_elements(bytes.take(n), count) == failed::<Seq<MessageView>>(
            Error::TruncatedBuffer,
        ),
    decreases bytes.len(), count + 1,
{
    lemma_elements_shrink(bytes, count);
    let cut = bytes.take(n);
    let first = parse_message(bytes);
    let k = taken(bytes, first);
    let next = first->Ok_0.1;
    lemma_message_shrinks(bytes);
    if n < k {
        theorem_message_cut_short(bytes, n);
    } else {
        assert(bytes.take(k) =~= cut.take(k));
        lemma_message_local(bytes, cut);
        assert(cut.skip(k) =~= next.take(n - k));
        lemma_elements_shrink(next, (count - 1) as nat);
        lemma_elements_cut(next, (count - 1) as nat, n - k);
    }
}

/// A field that is not all there is a truncated buffer: a message without its
/// tag, a text without its two-byte prefix or with fewer bytes than the prefix
/// announces, whatever those bytes are, an emoticon without its code, and a
/// compound message without its count.
pub proof fn theorem_missing_bytes(bytes: Seq<u8>)
    ensures
        bytes.len() < 1 ==> parse_message(bytes) == failed::<MessageView>(Error::TruncatedBuffer),
        bytes.len() < 1 ==> parse_emo(bytes) == failed::<Emo>(Error::TruncatedBuffer),
        bytes.len() < 1 ==> parse_chunks(bytes) == failed::<Seq<MessageView>>(
            Error::TruncatedBuffer,
        ),
        bytes.len() < 2 ==> parse_text(bytes) == failed::<Seq<char>>(Error::TruncatedBuffer),
        bytes.len() >= 2 && bytes.len() < 2 + slice_size(bytes[0], bytes[1]) ==> parse_text(bytes)
            == failed::<Seq<char>>(Error::TruncatedBuffer),
{
}

} // verus!
