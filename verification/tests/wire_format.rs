use bytes::BytesMut;
use itre_message::consts::{
    COMPOUND_OVERFLOW_FLAG, COMPOUND_SLICE_MAX_LENGTH, COMPOUND_SLICE_MAX_LENGTH_S,
    MESSAGE_EMO_CODE_CRY, MESSAGE_EMO_CODE_LAUGH, MESSAGE_EMO_CODE_NOP,
    MESSAGE_TYPE_CODE_COMPOUND, MESSAGE_TYPE_CODE_EMO, MESSAGE_TYPE_CODE_IMAGE,
    MESSAGE_TYPE_CODE_NOP, MESSAGE_TYPE_CODE_TEXT, TEXT_OVERFLOW_FLAG, TEXT_SLICE_MAX_LENGTH,
    TEXT_SLICE_MAX_LENGTH_S,
};
use itre_message::{Decoder, Emo, Error, Message};

fn buffer(bytes: &[u8]) -> BytesMut {
    BytesMut::from(bytes)
}

fn decode(bytes: &[u8]) -> Result<Message, Error> {
    Message::decode_from(&mut buffer(bytes))
}

/// A text message whose text is `payload`, sent in one slice.
fn text_message(payload: &[u8]) -> Vec<u8> {
    assert!(payload.len() <= TEXT_SLICE_MAX_LENGTH_S);
    let mut bytes = vec![MESSAGE_TYPE_CODE_TEXT, (payload.len() >> 8) as u8, payload.len() as u8];
    bytes.extend_from_slice(payload);
    bytes
}

#[test]
fn codes_have_their_values() {
    assert_eq!(MESSAGE_TYPE_CODE_NOP, 0xfc);
    assert_eq!(MESSAGE_TYPE_CODE_TEXT, 0x80);
    assert_eq!(MESSAGE_TYPE_CODE_IMAGE, 0x81);
    assert_eq!(MESSAGE_TYPE_CODE_EMO, 0x82);
    assert_eq!(MESSAGE_TYPE_CODE_COMPOUND, 0xfa);
    assert_eq!(MESSAGE_EMO_CODE_NOP, 0);
    assert_eq!(MESSAGE_EMO_CODE_LAUGH, 1);
    assert_eq!(MESSAGE_EMO_CODE_CRY, 2);
    assert_eq!(TEXT_OVERFLOW_FLAG, 0xffff);
    assert_eq!(TEXT_SLICE_MAX_LENGTH, 0xfffe);
    assert_eq!(TEXT_SLICE_MAX_LENGTH_S, 0xfffe);
    assert_eq!(COMPOUND_OVERFLOW_FLAG, 0xff);
    assert_eq!(COMPOUND_SLICE_MAX_LENGTH, 0xfe);
    assert_eq!(COMPOUND_SLICE_MAX_LENGTH_S, 0xfe);
}

#[test]
fn nop_has_no_payload() {
    let mut bm = buffer(&[0xfc, 0x82, 0x01]);
    assert_eq!(Message::decode_from(&mut bm), Ok(Message::Nop));
    assert_eq!(&bm[..], &[0x82, 0x01]);
}

#[test]
fn empty_text() {
    assert_eq!(decode(&[0x80, 0x00, 0x00]), Ok(Message::Text(String::new())));
}

#[test]
fn text_leaves_what_follows_it() {
    let mut bm = buffer(b"\x80\x00\x03abcdef");
    assert_eq!(Message::decode_from(&mut bm), Ok(Message::Text(String::from("abc"))));
    assert_eq!(&bm[..], b"def");
}

#[test]
fn text_length_is_big_endian() {
    let payload = vec![b'x'; 0x0102];
    let mut bytes = vec![0x80, 0x01, 0x02];
    bytes.extend_from_slice(&payload);
    bytes.push(b'!');
    let mut bm = buffer(&bytes);
    assert_eq!(
        Message::decode_from(&mut bm),
        Ok(Message::Text(String::from_utf8(payload).unwrap()))
    );
    assert_eq!(&bm[..], b"!");
}

#[test]
fn string_decoder_reads_a_bare_text() {
    let mut bm = buffer(b"\x00\x02hi\x00\x01!");
    assert_eq!(String::decode_from(&mut bm), Ok(String::from("hi")));
    assert_eq!(String::decode_from(&mut bm), Ok(String::from("!")));
    assert_eq!(bm.len(), 0);
    assert_eq!(String::decode_from(&mut bm), Err(Error::TruncatedBuffer));
}

#[test]
fn text_in_two_slices() {
    let mut bytes = vec![0x80, 0xff, 0xff];
    bytes.extend(std::iter::repeat(b'a').take(0xfffe));
    bytes.extend_from_slice(b"\x00\x03xyz");
    let mut expected = "a".repeat(0xfffe);
    expected.push_str("xyz");
    assert_eq!(decode(&bytes), Ok(Message::Text(expected)));
}

#[test]
fn text_in_three_slices_with_empty_last_slice() {
    let mut bytes = vec![0x80];
    for fill in [b'a', b'b'] {
        bytes.extend_from_slice(&[0xff, 0xff]);
        bytes.extend(std::iter::repeat(fill).take(0xfffe));
    }
    bytes.extend_from_slice(&[0x00, 0x00]);
    bytes.push(0xfc);
    let mut bm = buffer(&bytes);
    let mut expected = "a".repeat(0xfffe);
    expected.push_str(&"b".repeat(0xfffe));
    assert_eq!(Message::decode_from(&mut bm), Ok(Message::Text(expected)));
    assert_eq!(&bm[..], &[0xfc]);
}

#[test]
fn text_slice_of_full_length_without_the_flag_is_the_last() {
    let mut bytes = vec![0x80, 0xff, 0xfe];
    bytes.extend(std::iter::repeat(b'z').take(0xfffe));
    bytes.extend_from_slice(b"\x00\x01!");
    let mut bm = buffer(&bytes);
    assert_eq!(Message::decode_from(&mut bm), Ok(Message::Text("z".repeat(0xfffe))));
    assert_eq!(&bm[..], b"\x00\x01!");
}

#[test]
fn text_with_multibyte_characters_in_each_slice() {
    let unit = "解码";
    let mut first = unit.repeat(0xfffe / 6);
    first.push_str("ab");
    assert_eq!(first.len(), 0xfffe);
    let mut bytes = vec![0x80, 0xff, 0xff];
    bytes.extend_from_slice(first.as_bytes());
    bytes.extend_from_slice(&[0x00, 0x06]);
    bytes.extend_from_slice("测试".as_bytes());
    let mut expected = first.clone();
    expected.push_str("测试");
    assert_eq!(decode(&bytes), Ok(Message::Text(expected)));
}

#[test]
fn text_that_is_not_utf8_is_malformed() {
    assert_eq!(decode(&[0x80, 0x00, 0x01, 0xff]), Err(Error::MalformedText));
    assert_eq!(decode(&[0x80, 0x00, 0x02, 0xe8, 0xa7]), Err(Error::MalformedText));
    assert_eq!(decode(&[0x80, 0x00, 0x02, 0xc0, 0x80]), Err(Error::MalformedText));
}

#[test]
fn character_cut_by_a_slice_boundary_is_malformed() {
    let mut bytes = vec![0x80, 0xff, 0xff];
    bytes.extend(std::iter::repeat(b'a').take(0xfffd));
    bytes.push(0xc3);
    bytes.extend_from_slice(&[0x00, 0x01, 0xa9]);
    assert_eq!(decode(&bytes), Err(Error::MalformedText));
}

#[test]
fn text_shorter_than_its_length_is_truncated() {
    assert_eq!(decode(&[0x80]), Err(Error::TruncatedBuffer));
    assert_eq!(decode(&[0x80, 0x00]), Err(Error::TruncatedBuffer));
    assert_eq!(decode(&[0x80, 0x00, 0x04, b'a', b'b', b'c']), Err(Error::TruncatedBuffer));
    // Too few bytes are reported before the bytes that are there are looked at.
    assert_eq!(decode(&[0x80, 0x00, 0x04, 0xff, 0xff, 0xff]), Err(Error::TruncatedBuffer));
}

#[test]
fn full_slice_shorter_than_a_slice_is_truncated() {
    let mut bytes = vec![0x80, 0xff, 0xff];
    bytes.extend(std::iter::repeat(b'a').take(0xfffd));
    assert_eq!(decode(&bytes), Err(Error::TruncatedBuffer));
    bytes.push(b'a');
    // The full slice is there, the prefix of the next one is not.
    assert_eq!(decode(&bytes), Err(Error::TruncatedBuffer));
    bytes.extend_from_slice(&[0x00, 0x00]);
    assert_eq!(decode(&bytes), Ok(Message::Text("a".repeat(0xfffe))));
}

#[test]
fn emo_decoder_reads_each_code() {
    assert_eq!(Emo::decode_from(&mut buffer(&[0x00])), Ok(Emo::Nop));
    assert_eq!(Emo::decode_from(&mut buffer(&[0x01])), Ok(Emo::Laugh));
    assert_eq!(Emo::decode_from(&mut buffer(&[0x02])), Ok(Emo::Cry));
}

#[test]
fn every_other_emo_code_is_invalid() {
    for code in 3..=255u8 {
        assert_eq!(Emo::decode_from(&mut buffer(&[code])), Err(Error::InvalidEmoCode(code)));
        assert_eq!(decode(&[0x82, code]), Err(Error::InvalidEmoCode(code)));
    }
}

#[test]
fn emo_without_its_code_is_truncated() {
    assert_eq!(decode(&[0x82]), Err(Error::TruncatedBuffer));
    assert_eq!(Emo::decode_from(&mut buffer(&[])), Err(Error::TruncatedBuffer));
}

#[test]
fn unknown_tag_is_invalid() {
    assert_eq!(decode(&[0xff]), Err(Error::InvalidTypeCode(0xff)));
    assert_eq!(decode(&[0xff, 0x82, 0x01]), Err(Error::InvalidTypeCode(0xff)));
}

#[test]
fn every_byte_that_is_no_tag_is_invalid() {
    for tag in 0..=255u8 {
        if ![0xfc, 0x80, 0x81, 0x82, 0xfa].contains(&tag) {
            assert_eq!(decode(&[tag, 0x00, 0x00]), Err(Error::InvalidTypeCode(tag)));
        }
    }
}

#[test]
fn image_is_not_implemented() {
    assert_eq!(decode(&[0x81]), Err(Error::UnimplementedPayload));
    assert_eq!(decode(&[0x81, 0x00, 0x00]), Err(Error::UnimplementedPayload));
    assert_eq!(decode(&[0xfa, 0x02, 0xfc, 0x81]), Err(Error::UnimplementedPayload));
}

#[test]
fn empty_buffer_is_truncated() {
    assert_eq!(decode(&[]), Err(Error::TruncatedBuffer));
}

#[test]
fn empty_compound() {
    let mut bm = buffer(&[0xfa, 0x00, 0xfc]);
    assert_eq!(Message::decode_from(&mut bm), Ok(Message::Compound(vec![])));
    assert_eq!(&bm[..], &[0xfc]);
}

#[test]
fn compound_keeps_the_order() {
    assert_eq!(
        decode(&[0xfa, 0x03, 0x82, 0x02, 0xfc, 0x82, 0x00]),
        Ok(Message::Compound(vec![
            Message::Emo(Emo::Cry),
            Message::Nop,
            Message::Emo(Emo::Nop)
        ]))
    );
}

#[test]
fn compound_without_its_count_or_its_parts_is_truncated() {
    assert_eq!(decode(&[0xfa]), Err(Error::TruncatedBuffer));
    assert_eq!(decode(&[0xfa, 0x01]), Err(Error::TruncatedBuffer));
    assert_eq!(decode(&[0xfa, 0x02, 0xfc]), Err(Error::TruncatedBuffer));
    assert_eq!(decode(&[0xfa, 0x02, 0xfc, 0x82]), Err(Error::TruncatedBuffer));
}

#[test]
fn first_failure_in_a_compound_fails_it() {
    assert_eq!(decode(&[0xfa, 0x03, 0xfc, 0x82, 0x09, 0xff]), Err(Error::InvalidEmoCode(0x09)));
    assert_eq!(decode(&[0xfa, 0x03, 0xfc, 0x07, 0x82, 0x09]), Err(Error::InvalidTypeCode(0x07)));
    assert_eq!(
        decode(&[0xfa, 0x02, 0x80, 0x00, 0x01, 0x80, 0x81]),
        Err(Error::MalformedText)
    );
}

/// `count` emoticon messages, laugh and cry in turn, as bytes and as values.
fn emos(count: usize) -> (Vec<u8>, Vec<Message>) {
    let mut bytes = Vec::new();
    let mut values = Vec::new();
    for i in 0..count {
        if i % 2 == 0 {
            bytes.extend_from_slice(&[0x82, 0x01]);
            values.push(Message::Emo(Emo::Laugh));
        } else {
            bytes.extend_from_slice(&[0x82, 0x02]);
            values.push(Message::Emo(Emo::Cry));
        }
    }
    (bytes, values)
}

#[test]
fn compound_of_a_full_count_in_one_chunk() {
    let (parts, values) = emos(0xfe);
    let mut bytes = vec![0xfa, 0xfe];
    bytes.extend_from_slice(&parts);
    bytes.push(0xfc);
    let mut bm = buffer(&bytes);
    assert_eq!(Message::decode_from(&mut bm), Ok(Message::Compound(values)));
    assert_eq!(&bm[..], &[0xfc]);
}

#[test]
fn compound_in_two_chunks() {
    let (parts, values) = emos(0xfe + 3);
    let mut bytes = vec![0xfa, 0xff];
    bytes.extend_from_slice(&parts[..2 * 0xfe]);
    bytes.push(0x03);
    bytes.extend_from_slice(&parts[2 * 0xfe..]);
    assert_eq!(decode(&bytes), Ok(Message::Compound(values)));
}

#[test]
fn compound_in_three_chunks_with_empty_last_chunk() {
    let (parts, values) = emos(2 * 0xfe);
    let mut bytes = vec![0xfa, 0xff];
    bytes.extend_from_slice(&parts[..2 * 0xfe]);
    bytes.push(0xff);
    bytes.extend_from_slice(&parts[2 * 0xfe..]);
    bytes.push(0x00);
    bytes.push(0x82);
    let mut bm = buffer(&bytes);
    assert_eq!(Message::decode_from(&mut bm), Ok(Message::Compound(values)));
    assert_eq!(&bm[..], &[0x82]);
}

#[test]
fn full_chunk_without_a_next_count_is_truncated() {
    let (parts, _) = emos(0xfe);
    let mut bytes = vec![0xfa, 0xff];
    bytes.extend_from_slice(&parts);
    assert_eq!(decode(&bytes), Err(Error::TruncatedBuffer));
    assert_eq!(decode(&bytes[..bytes.len() - 1]), Err(Error::TruncatedBuffer));
}

#[test]
fn compound_in_a_compound() {
    assert_eq!(
        decode(&[0xfa, 0x02, 0xfa, 0x01, 0x82, 0x01, 0xfc]),
        Ok(Message::Compound(vec![
            Message::Compound(vec![Message::Emo(Emo::Laugh)]),
            Message::Nop
        ]))
    );
    assert_eq!(
        decode(&[0xfa, 0x01, 0xfa, 0x01, 0xfa, 0x00]),
        Ok(Message::Compound(vec![Message::Compound(vec![Message::Compound(vec![])])]))
    );
}

#[test]
fn compound_nested_fifty_deep() {
    let mut bytes = Vec::new();
    let mut expected = Message::Text(String::from("core"));
    for _ in 0..50 {
        bytes.extend_from_slice(&[0xfa, 0x01]);
    }
    bytes.extend_from_slice(&text_message(b"core"));
    for _ in 0..50 {
        expected = Message::Compound(vec![expected]);
    }
    assert_eq!(decode(&bytes), Ok(expected));
}

#[test]
fn messages_in_a_row_are_read_one_by_one() {
    let mut bm = buffer(b"\x82\x02\x80\x00\x02ok\xfa\x01\xfc\xfc");
    assert_eq!(Message::decode_from(&mut bm), Ok(Message::Emo(Emo::Cry)));
    assert_eq!(bm.len(), 9);
    assert_eq!(Message::decode_from(&mut bm), Ok(Message::Text(String::from("ok"))));
    assert_eq!(bm.len(), 4);
    assert_eq!(Message::decode_from(&mut bm), Ok(Message::Compound(vec![Message::Nop])));
    assert_eq!(Message::decode_from(&mut bm), Ok(Message::Nop));
    assert_eq!(bm.len(), 0);
    assert_eq!(Message::decode_from(&mut bm), Err(Error::TruncatedBuffer));
}

#[test]
fn every_message_cut_short_is_truncated() {
    let whole = b"\xfa\x04\
        \x80\x00\x10ITRE\xe8\xa7\xa3\xe7\xa0\x81\xe6\xb5\x8b\xe8\xaf\x95\
        \x82\x01\
        \xfa\x02\xfc\x80\x00\x02ok\
        \x82\x02";
    assert!(decode(whole).is_ok());
    for n in 0..whole.len() {
        assert_eq!(decode(&whole[..n]), Err(Error::TruncatedBuffer), "cut at {}", n);
    }
}

#[test]
fn what_follows_a_message_does_not_change_it() {
    let whole = b"\xfa\x02\x80\x00\x02ok\x82\x02";
    let alone = decode(whole);
    assert_eq!(
        alone,
        Ok(Message::Compound(vec![Message::Text(String::from("ok")), Message::Emo(Emo::Cry)]))
    );
    for extra in [&b"\xff"[..], &b"\x80\x00"[..], &b"\xfa\xff\x00\x00"[..]] {
        let mut bytes = whole.to_vec();
        bytes.extend_from_slice(extra);
        let mut bm = buffer(&bytes);
        assert_eq!(Message::decode_from(&mut bm), alone);
        assert_eq!(&bm[..], extra);
    }
}

#[test]
fn decoded_messages_hold_no_image() {
    fn image_free(message: &Message) -> bool {
        match message {
            Message::Image(_) => false,
            Message::Compound(parts) => parts.iter().all(image_free),
            _ => true,
        }
    }
    let decoded = decode(&[0xfa, 0x02, 0xfa, 0x01, 0xfc, 0x82, 0x00]).unwrap();
    assert!(image_free(&decoded));
    assert!(!image_free(&Message::Compound(vec![Message::Image(vec![1, 2, 3])])));
}

#[test]
fn clone_copies_all_that_is_nested() {
    let message = Message::Compound(vec![
        Message::Text(String::from("解码")),
        Message::Compound(vec![Message::Emo(Emo::Cry), Message::Nop]),
        Message::Image(vec![1, 2, 3]),
    ]);
    let copy = message.clone();
    assert_eq!(copy, message);
    assert_eq!(
        copy,
        Message::Compound(vec![
            Message::Text(String::from("解码")),
            Message::Compound(vec![Message::Emo(Emo::Cry), Message::Nop]),
            Message::Image(vec![1, 2, 3]),
        ])
    );
}

#[test]
fn error_carries_the_offending_byte() {
    match decode(&[0x7f]) {
        Err(Error::InvalidTypeCode(byte)) => assert_eq!(byte, 0x7f),
        other => panic!("unexpected {:?}", other),
    }
    match decode(&[0x82, 0x7f]) {
        Err(Error::InvalidEmoCode(byte)) => assert_eq!(byte, 0x7f),
        other => panic!("unexpected {:?}", other),
    }
}
