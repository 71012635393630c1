//! The byte cursor the decoder reads from, and the outside functions it calls.
//!
//! The cursor is a `bytes::BytesMut`: what it holds is what is still unread,
//! and reading advances it. Nothing in this module is proved. Each item states
//! what the named outside function is documented to do, and the decoder's
//! proofs rest on these statements.

use byteorder::{BigEndian, ByteOrder};
use bytes::BytesMut;
use vstd::prelude::*;
use vstd::utf8::{encode_utf8, valid_utf8};

verus! {

/// `bytes::BytesMut`, held as an opaque value.
#[verifier::external_type_specification]
#[verifier::external_body]
pub struct ExBytesMut(BytesMut);

/// `std::str::Utf8Error`, held as an opaque value.
#[verifier::external_type_specification]
#[verifier::external_body]
pub struct ExUtf8Error(std::str::Utf8Error);

/// The bytes a buffer holds, first unread byte first.
pub uninterp spec fn remaining(buf: BytesMut) -> Seq<u8>;

/// `BytesMut::len` returns the number of bytes the buffer holds.
pub assume_specification[ BytesMut::len ](buf: &BytesMut) -> (n: usize)
    ensures
        n == remaining(*buf).len(),
;

/// `BytesMut::advance` drops the first `cnt` bytes and keeps the rest. It
/// panics when `cnt` exceeds the length, so that is required not to happen.
pub assume_specification[ BytesMut::advance ](buf: &mut BytesMut, cnt: usize)
    requires
        cnt <= remaining(*old(buf)).len(),
    ensures
        remaining(*final(buf)) == remaining(*old(buf)).skip(cnt as int),
;

/// `Deref::deref` of a `BytesMut` returns the bytes it holds as a slice.
pub assume_specification<'a>[ <BytesMut as std::ops::Deref>::deref ](buf: &'a BytesMut) -> (bytes:
    &'a [u8])
    ensures
        bytes@ == remaining(*buf),
;

/// `std::str::from_utf8` accepts exactly the byte strings that are UTF-8, and
/// the string it returns is made of the bytes it was given.
pub assume_specification<'a>[ std::str::from_utf8 ](bytes: &'a [u8]) -> (r: std::result::Result<
    &'a str,
    std::str::Utf8Error,
>)
    ensures
        r is Ok <==> valid_utf8(bytes@),
        r matches Ok(s) ==> encode_utf8(s@) == bytes@,
;

/// `BigEndian::read_u16` of byteorder reads the first two bytes as an unsigned
/// number, most significant byte first. It panics on fewer than two bytes, so
/// two are required.
#[verifier::external_body]
pub(crate) fn read_u16_be(bytes: &[u8]) -> (value: u16)
    requires
        bytes@.len() >= 2,
    ensures
        value == bytes@[0] * 256 + bytes@[1],
{
    BigEndian::read_u16(bytes)
}

} // verus!
