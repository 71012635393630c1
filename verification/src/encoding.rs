//! Encodings, and the theorems that reading inverts them.
//!
//! The encoders here are specifications: they say which byte strings stand for
//! a value. A text may be cut into slices and a compound message into chunks
//! in more than one way, so the encoders take the cut as given. Every byte
//! string that the format admits is the image of some cut.

use crate::consts::{
    COMPOUND_OVERFLOW_FLAG, COMPOUND_SLICE_MAX_LENGTH, MESSAGE_EMO_CODE_CRY,
    MESSAGE_EMO_CODE_LAUGH, MESSAGE_EMO_CODE_NOP, MESSAGE_TYPE_CODE_COMPOUND,
    MESSAGE_TYPE_CODE_EMO, MESSAGE_TYPE_CODE_IMAGE, MESSAGE_TYPE_CODE_NOP,
    MESSAGE_TYPE_CODE_TEXT, TEXT_OVERFLOW_FLAG, TEXT_SLICE_MAX_LENGTH,
};
use crate::error::Error;
use crate::framing::lemma_message_followed;
use crate::message::{Emo, MessageView};
use crate::wire::{
    be_u16, failed, found, lemma_elements_step, parse_chunks, parse_elements, parse_emo,
    parse_message, parse_text,
};
use vstd::prelude::*;
use vstd::utf8::{encode_utf8, encode_utf8_decode_utf8, encode_utf8_valid_utf8};

verus! {

/// The two bytes that stand for `n`, most significant byte first.
pub open spec fn u16_bytes(n: int) -> Seq<u8> {
    seq![(n / 256) as u8, (n % 256) as u8]
}

/// The pieces can be the slices of one text: there is a last piece, of at most
/// [`TEXT_SLICE_MAX_LENGTH`] bytes of UTF-8, and each piece before it has
/// exactly that many.
pub open spec fn sliced(pieces: Seq<Seq<char>>) -> bool {
    &&& pieces.len() >= 1
    &&& encode_utf8(pieces.last()).len() <= TEXT_SLICE_MAX_LENGTH
    &&& forall|i: int|
        0 <= i < pieces.len() - 1 ==> (#[trigger] encode_utf8(pieces[i])).len()
            == TEXT_SLICE_MAX_LENGTH
}

/// The bytes of a text sent in the given pieces, one slice for each.
pub open spec fn text_bytes(pieces: Seq<Seq<char>>) -> Seq<u8>
    decreases pieces.len(),
{
    if pieces.len() == 0 {
        Seq::empty()
    } else if pieces.len() == 1 {
        u16_bytes(encode_utf8(pieces[0]).len() as int) + encode_utf8(pieces[0])
    } else {
        u16_bytes(TEXT_OVERFLOW_FLAG as int) + encode_utf8(pieces[0]) + text_bytes(
            pieces.drop_first(),
        )
    }
}

/// A text sent in one slice is read back as it was, and what follows it is
/// left: for every text of at most [`TEXT_SLICE_MAX_LENGTH`] bytes of UTF-8.
pub proof fn theorem_text_in_one_slice(text: Seq<char>, rest: Seq<u8>)
    requires
        encode_utf8(text).len() <= TEXT_SLICE_MAX_LENGTH,
    ensures
        parse_text(u16_bytes(encode_utf8(text).len() as int) + encode_utf8(text) + rest) == found(
            text,
            rest,
        ),
        parse_message(
            seq![MESSAGE_TYPE_CODE_TEXT] + u16_bytes(encode_utf8(text).len() as int) + encode_utf8(
                text,
            ) + rest,
        ) == found(MessageView::Text(text), rest),
{
    let payload = encode_utf8(text);
    let size = payload.len() as int;
    let bytes = u16_bytes(size) + payload + rest;
    encode_utf8_valid_utf8(text);
    encode_utf8_decode_utf8(text);
    assert(be_u16(bytes[0], bytes[1]) == size);
    assert(bytes.subrange(2, 2 + size) =~= payload);
    assert(bytes.skip(2 + size) =~= rest);
    let message = seq![MESSAGE_TYPE_CODE_TEXT] + u16_bytes(size) + payload + rest;
    assert(message.skip(1) =~= bytes);
}

/// A text sent in any number of slices is read back as the pieces in a row,
/// and what follows it is left.
pub proof fn theorem_text_in_slices(pieces: Seq<Seq<char>>, rest: Seq<u8>)
    requires
        sliced(pieces),
    ensures
        parse_text(text_bytes(pieces) + rest) == found(pieces.flatten(), rest),
        parse_message(seq![MESSAGE_TYPE_CODE_TEXT] + text_bytes(pieces) + rest) == found(
            MessageView::Text(pieces.flatten()),
            rest,
        ),
    decreases pieces.len(),
{
    let first = pieces[0];
    let payload = encode_utf8(first);
    let size = payload.len() as int;
    let bytes = text_bytes(pieces) + rest;
    encode_utf8_valid_utf8(first);
    encode_utf8_decode_utf8(first);
    if pieces.len() == 1 {
        theorem_text_in_one_slice(first, rest);
        pieces.lemma_flatten_one_element();
    } else {
        let others = pieces.drop_first();
        assert(sliced(others)) by {
            assert(others.last() == pieces.last());
            assert forall|i: int| 0 <= i < others.len() - 1 implies (#[trigger] encode_utf8(
                others[i],
            )).len() == TEXT_SLICE_MAX_LENGTH by {
                assert(others[i] == pieces[i + 1]);
            }
        }
        theorem_text_in_slices(others, rest);
        assert(be_u16(bytes[0], bytes[1]) == TEXT_OVERFLOW_FLAG);
        assert(bytes.subrange(2, 2 + size) =~= payload);
        assert(bytes.skip(2 + size) =~= text_bytes(others) + rest);
    }
    let message = seq![MESSAGE_TYPE_CODE_TEXT] + text_bytes(pieces) + rest;
    assert(message.skip(1) =~= bytes);
}

/// The code of an emoticon.
pub open spec fn emo_code(emo: Emo) -> u8 {
    match emo {
        Emo::Nop => MESSAGE_EMO_CODE_NOP,
        Emo::Laugh => MESSAGE_EMO_CODE_LAUGH,
        Emo::Cry => MESSAGE_EMO_CODE_CRY,
    }
}

/// Each emoticon is read back from its code, and what follows the code is
/// left.
pub proof fn theorem_emo_round_trip(emo: Emo, rest: Seq<u8>)
    ensures
        parse_emo(seq![emo_code(emo)] + rest) == found(emo, rest),
        parse_message(seq![MESSAGE_TYPE_CODE_EMO, emo_code(emo)] + rest) == found(
            MessageView::Emo(emo),
            rest,
        ),
{
    let code = emo_code(emo);
    assert((seq![code] + rest).skip(1) =~= rest);
    assert((seq![MESSAGE_TYPE_CODE_EMO, code] + rest).skip(1) =~= seq![code] + rest);
}

/// Every byte that is not the code of an emoticon is refused where a code is
/// due, whatever follows it, with that byte in the error.
pub proof fn theorem_refused_emo_codes(code: u8, rest: Seq<u8>)
    requires
        forall|emo: Emo| code != #[trigger] emo_code(emo),
    ensures
        parse_emo(seq![code] + rest) == failed::<Emo>(Error::InvalidEmoCode(code)),
        parse_message(seq![MESSAGE_TYPE_CODE_EMO, code] + rest) == failed::<MessageView>(
            Error::InvalidEmoCode(code),
        ),
{
    assert(code != emo_code(Emo::Nop));
    assert(code != emo_code(Emo::Laugh));
    assert(code != emo_code(Emo::Cry));
    assert((seq![MESSAGE_TYPE_CODE_EMO, code] + rest).skip(1) =~= seq![code] + rest);
}

/// `bytes` is an encoding of `message`: reading a message off it yields
/// `message` and leaves nothing.
pub open spec fn encodes(bytes: Seq<u8>, message: MessageView) -> bool {
    parse_message(bytes) == found(message, Seq::empty())
}

/// Each of `parts` is an encoding of the message at the same place in
/// `messages`.
pub open spec fn encode_each(parts: Seq<Seq<u8>>, messages: Seq<MessageView>) -> bool {
    &&& parts.len() == messages.len()
    &&& forall|i: int| 0 <= i < parts.len() ==> encodes(#[trigger] parts[i], messages[i])
}

/// Encodings in a row are read back as the messages they encode, in the same
/// order, and what follows them is left.
pub proof fn lemma_elements_round_trip(
    parts: Seq<Seq<u8>>,
    messages: Seq<MessageView>,
    rest: Seq<u8>,
)
    requires
        encode_each(parts, messages),
    ensures
        parse_elements(parts.flatten() + rest, parts.len()) == found(messages, rest),
    decreases parts.len(),
{
    if parts.len() == 0 {
        assert(parts.flatten() + rest =~= rest);
        assert(messages =~= Seq::empty());
    } else {
        let others = parts.drop_first();
        let tail = others.flatten() + rest;
        assert(encodes(parts[0], messages[0]));
        assert(encode_each(others, messages.drop_first())) by {
            assert forall|i: int| 0 <= i < others.len() implies encodes(
                #[trigger] others[i],
                messages.drop_first()[i],
            ) by {
                assert(encodes(parts[i + 1], messages[i + 1]));
            }
        }
        lemma_elements_round_trip(others, messages.drop_first(), rest);
        lemma_message_followed(parts[0], tail);
        assert(parts.flatten() + rest =~= parts[0] + tail);
        assert(Seq::<u8>::empty() + tail =~= tail);
        lemma_elements_step(parts[0] + tail, parts.len());
        assert(seq![messages[0]] + messages.drop_first() =~= messages);
    }
}

/// `parts` can be sent in chunks of which the last holds `last` of them: the
/// last chunk holds at most [`COMPOUND_SLICE_MAX_LENGTH`] messages, and the
/// messages before it fill chunks of exactly that many.
pub open spec fn chunked(parts: Seq<Seq<u8>>, last: nat) -> bool {
    &&& last <= COMPOUND_SLICE_MAX_LENGTH
    &&& last <= parts.len()
    &&& (parts.len() - last) % (COMPOUND_SLICE_MAX_LENGTH as int) == 0
}

/// The payload of a compound message whose nested messages have the encodings
/// `parts`, sent in chunks of which the last holds `last` of them: while more
/// than `last` are left, a full chunk; then the last chunk. (Fewer than a full
/// chunk are a last chunk whatever `last` is; with [`chunked`] there are never
/// fewer.)
pub open spec fn chunk_bytes(parts: Seq<Seq<u8>>, last: nat) -> Seq<u8>
    decreases parts.len(),
{
    if parts.len() <= last || parts.len() < COMPOUND_SLICE_MAX_LENGTH {
        seq![parts.len() as u8] + parts.flatten()
    } else {
        seq![COMPOUND_OVERFLOW_FLAG] + parts.take(COMPOUND_SLICE_MAX_LENGTH as int).flatten()
            + chunk_bytes(parts.skip(COMPOUND_SLICE_MAX_LENGTH as int), last)
    }
}

/// A compound message is read back as the messages that were encoded, in the
/// order in which they were encoded, whether they were sent in one chunk or in
/// many; and what follows it is left.
pub proof fn theorem_compound_in_chunks(
    parts: Seq<Seq<u8>>,
    messages: Seq<MessageView>,
    last: nat,
    rest: Seq<u8>,
)
    requires
        encode_each(parts, messages),
        chunked(parts, last),
    ensures
        parse_chunks(chunk_bytes(parts, last) + rest) == found(messages, rest),
        parse_message(seq![MESSAGE_TYPE_CODE_COMPOUND] + chunk_bytes(parts, last) + rest) == found(
            MessageView::Compound(messages),
            rest,
        ),
    decreases parts.len(),
{
    let bytes = chunk_bytes(parts, last) + rest;
    if parts.len() <= last {
        lemma_elements_round_trip(parts, messages, rest);
        assert(bytes.skip(1) =~= parts.flatten() + rest);
    } else {
        let full = COMPOUND_SLICE_MAX_LENGTH as int;
        let head = parts.take(full);
        let others = parts.skip(full);
        let tail = chunk_bytes(others, last) + rest;
        assert(encode_each(head, messages.take(full))) by {
            assert forall|i: int| 0 <= i < head.len() implies encodes(
                #[trigger] head[i],
                messages.take(full)[i],
            ) by {
                assert(encodes(parts[i], messages[i]));
            }
        }
        assert(encode_each(others, messages.skip(full))) by {
            assert forall|i: int| 0 <= i < others.len() implies encodes(
                #[trigger] others[i],
                messages.skip(full)[i],
            ) by {
                assert(encodes(parts[i + full], messages[i + full]));
            }
        }
        lemma_elements_round_trip(head, messages.take(full), tail);
        theorem_compound_in_chunks(others, messages.skip(full), last, rest);
        assert(bytes.skip(1) =~= head.flatten() + tail);
        assert(messages.take(full) + messages.skip(full) =~= messages);
    }
    let message = seq![MESSAGE_TYPE_CODE_COMPOUND] + chunk_bytes(parts, last) + rest;
    assert(message.skip(1) =~= bytes);
}

/// The message can be sent as it is: it holds no image, and each text in it
/// fits one slice.
pub open spec fn plain(message: MessageView) -> bool
    decreases message,
{
    match message {
        MessageView::Nop => true,
        MessageView::Text(text) => encode_utf8(text).len() <= TEXT_SLICE_MAX_LENGTH,
        MessageView::Emo(_) => true,
        MessageView::Image(_) => false,
        MessageView::Compound(parts) => forall|i: int|
            0 <= i < parts.len() ==> plain(#[trigger] parts[i]),
    }
}

/// The encodings of the nested messages of a compound message, in order.
pub open spec fn part_bytes(parts: Seq<MessageView>) -> Seq<Seq<u8>>
    decreases parts, 1nat,
{
    Seq::new(
        parts.len(),
        |i: int|
            if 0 <= i < parts.len() {
                message_bytes(parts[i])
            } else {
                Seq::empty()
            },
    )
}

/// The encoding of a plain message: its tag; then a text in one slice, an
/// emoticon as its code, and nested messages in as many full chunks as they
/// fill and a last chunk of those left over.
pub open spec fn message_bytes(message: MessageView) -> Seq<u8>
    decreases message, 0nat,
{
    match message {
        MessageView::Nop => seq![MESSAGE_TYPE_CODE_NOP],
        MessageView::Text(text) => seq![MESSAGE_TYPE_CODE_TEXT] + u16_bytes(
            encode_utf8(text).len() as int,
        ) + encode_utf8(text),
        MessageView::Emo(emo) => seq![MESSAGE_TYPE_CODE_EMO, emo_code(emo)],
        MessageView::Image(_) => seq![MESSAGE_TYPE_CODE_IMAGE],
        MessageView::Compound(parts) => seq![MESSAGE_TYPE_CODE_COMPOUND] + chunk_bytes(
            part_bytes(parts),
            parts.len() % (COMPOUND_SLICE_MAX_LENGTH as nat),
        ),
    }
}

/// Every plain message is read back from its encoding as it was, however many
/// nested messages it holds and however deep they are nested; and what follows
/// it is left.
pub proof fn theorem_round_trip(message: MessageView, rest: Seq<u8>)
    requires
        plain(message),
    ensures
        parse_message(message_bytes(message) + rest) == found(message, rest),
    decreases message,
{
    let bytes = message_bytes(message) + rest;
    match message {
        MessageView::Nop => {
            assert(bytes.skip(1) =~= rest);
        },
        MessageView::Text(text) => {
            theorem_text_in_one_slice(text, rest);
        },
        MessageView::Emo(emo) => {
            theorem_emo_round_trip(emo, rest);
        },
        MessageView::Image(_) => {},
        MessageView::Compound(parts) => {
            let encoded = part_bytes(parts);
            assert forall|i: int| 0 <= i < encoded.len() implies encodes(
                #[trigger] encoded[i],
                parts[i],
            ) by {
                assert(plain(parts[i]));
                theorem_round_trip(parts[i], Seq::empty());
                assert(message_bytes(parts[i]) + Seq::<u8>::empty() =~= message_bytes(parts[i]));
            }
            theorem_compound_in_chunks(
                encoded,
                parts,
                parts.len() % (COMPOUND_SLICE_MAX_LENGTH as nat),
                rest,
            );
        },
    }
}

/// The tag is one of the five message tags.
pub open spec fn known_tag(tag: u8) -> bool {
    ||| tag == MESSAGE_TYPE_CODE_NOP
    ||| tag == MESSAGE_TYPE_CODE_TEXT
    ||| tag == MESSAGE_TYPE_CODE_EMO
    ||| tag == MESSAGE_TYPE_CODE_IMAGE
    ||| tag == MESSAGE_TYPE_CODE_COMPOUND
}

/// A byte that is no message tag is refused whatever follows it, with that
/// byte in the error; and the image tag is refused as not implemented.
pub proof fn theorem_refused_tags(tag: u8, rest: Seq<u8>)
    ensures
        !known_tag(tag) ==> parse_message(seq![tag] + rest) == failed::<MessageView>(
            Error::InvalidTypeCode(tag),
        ),
        tag == MESSAGE_TYPE_CODE_IMAGE ==> parse_message(seq![tag] + rest) == failed::<
            MessageView,
        >(Error::UnimplementedPayload),
{
}

} // verus!
