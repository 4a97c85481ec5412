use crate::{DecodeError, Serializable};
use byteorder::{BigEndian, ByteOrder};
use vstd::prelude::*;
use vstd::slice::slice_subrange;
use vstd::utf8::{decode_utf8, encode_utf8, valid_utf8};

verus! {

/// The two bytes of `v`, most significant first.
pub open spec fn u16_be_bytes(v: u16) -> Seq<u8> {
    seq![(v / 0x100) as u8, (v % 0x100) as u8]
}

/// The number whose big-endian form is the first two bytes of `b`.
pub open spec fn u16_from_be(b: Seq<u8>) -> u16 {
    (b[0] as int * 0x100 + b[1] as int) as u16
}

/// The four bytes of `v`, most significant first.
pub open spec fn u32_be_bytes(v: u32) -> Seq<u8> {
    seq![
        (v / 0x100_0000) as u8,
        (v / 0x1_0000 % 0x100) as u8,
        (v / 0x100 % 0x100) as u8,
        (v % 0x100) as u8,
    ]
}

/// The number whose big-endian form is the first four bytes of `b`.
pub open spec fn u32_from_be(b: Seq<u8>) -> u32 {
    (b[0] as int * 0x100_0000 + b[1] as int * 0x1_0000 + b[2] as int * 0x100 + b[3] as int) as u32
}

/// The eight bytes of `v`, most significant first.
pub open spec fn u64_be_bytes(v: u64) -> Seq<u8> {
    seq![
        (v / 0x100_0000_0000_0000) as u8,
        (v / 0x1_0000_0000_0000 % 0x100) as u8,
        (v / 0x100_0000_0000 % 0x100) as u8,
        (v / 0x1_0000_0000 % 0x100) as u8,
        (v / 0x100_0000 % 0x100) as u8,
        (v / 0x1_0000 % 0x100) as u8,
        (v / 0x100 % 0x100) as u8,
        (v % 0x100) as u8,
    ]
}

/// The number whose big-endian form is the first eight bytes of `b`.
pub open spec fn u64_from_be(b: Seq<u8>) -> u64 {
    (b[0] as int * 0x100_0000_0000_0000 + b[1] as int * 0x1_0000_0000_0000 + b[2] as int
        * 0x100_0000_0000 + b[3] as int * 0x1_0000_0000 + b[4] as int * 0x100_0000 + b[5] as int
        * 0x1_0000 + b[6] as int * 0x100 + b[7] as int) as u64
}

/// The two's complement bit pattern of `v`, as an unsigned number.
pub open spec fn i32_bits(v: i32) -> u32 {
    if v >= 0 {
        v as u32
    } else {
        (v + 0x1_0000_0000) as u32
    }
}

/// The signed number with the two's complement bit pattern `u`.
pub open spec fn i32_from_bits(u: u32) -> i32 {
    if u < 0x8000_0000 {
        u as i32
    } else {
        (u - 0x1_0000_0000) as i32
    }
}

/// The four bytes of `v` in two's complement, most significant first.
pub open spec fn i32_be_bytes(v: i32) -> Seq<u8> {
    u32_be_bytes(i32_bits(v))
}

/// The signed number whose big-endian two's complement form is the first
/// four bytes of `b`.
pub open spec fn i32_from_be(b: Seq<u8>) -> i32 {
    i32_from_bits(u32_from_be(b))
}

/// Reading the big-endian form of a `u16` gives the number back, whatever
/// follows the two bytes.
pub proof fn lemma_u16_be_round_trip(v: u16, rest: Seq<u8>)
    ensures
        u16_be_bytes(v).len() == 2,
        u16_from_be(u16_be_bytes(v) + rest) == v,
{
}

/// Reading the big-endian form of a `u32` gives the number back, whatever
/// follows the four bytes.
pub proof fn lemma_u32_be_round_trip(v: u32, rest: Seq<u8>)
    ensures
        u32_be_bytes(v).len() == 4,
        u32_from_be(u32_be_bytes(v) + rest) == v,
{
}

/// Reading the big-endian form of a `u64` gives the number back, whatever
/// follows the eight bytes.
pub proof fn lemma_u64_be_round_trip(v: u64, rest: Seq<u8>)
    ensures
        u64_be_bytes(v).len() == 8,
        u64_from_be(u64_be_bytes(v) + rest) == v,
{
    let q1 = v as int / 0x100;
    let q2 = q1 / 0x100;
    let q3 = q2 / 0x100;
    let q4 = q3 / 0x100;
    let q5 = q4 / 0x100;
    let q6 = q5 / 0x100;
    let q7 = q6 / 0x100;
    assert(q2 == v as int / 0x1_0000);
    assert(q3 == v as int / 0x100_0000);
    assert(q4 == v as int / 0x1_0000_0000);
    assert(q5 == v as int / 0x100_0000_0000);
    assert(q6 == v as int / 0x1_0000_0000_0000);
    assert(q7 == v as int / 0x100_0000_0000_0000);
    assert(v == q1 * 0x100 + v as int % 0x100);
    assert(q1 == q2 * 0x100 + q1 % 0x100);
    assert(q2 == q3 * 0x100 + q2 % 0x100);
    assert(q3 == q4 * 0x100 + q3 % 0x100);
    assert(q4 == q5 * 0x100 + q4 % 0x100);
    assert(q5 == q6 * 0x100 + q5 % 0x100);
    assert(q6 == q7 * 0x100 + q6 % 0x100);
    assert(0 <= q7 < 0x100);
    let b = u64_be_bytes(v) + rest;
    assert(b[0] == q7 && b[1] == q6 % 0x100 && b[2] == q5 % 0x100 && b[3] == q4 % 0x100);
    assert(b[4] == q3 % 0x100 && b[5] == q2 % 0x100 && b[6] == q1 % 0x100 && b[7] == v as int
        % 0x100);
}

/// Reading the big-endian form of an `i32` gives the number back, whatever
/// follows the four bytes.
pub proof fn lemma_i32_be_round_trip(v: i32, rest: Seq<u8>)
    ensures
        i32_be_bytes(v).len() == 4,
        i32_from_be(i32_be_bytes(v) + rest) == v,
{
    lemma_u32_be_round_trip(i32_bits(v), rest);
}

/// `byteorder::BigEndian::read_u16`: the number that the first two bytes of
/// `buf` hold, most significant byte first. It panics on a shorter slice.
#[verifier::external_body]
pub(crate) fn read_u16_be(buf: &[u8]) -> (v: u16)
    requires
        buf@.len() >= 2,
    ensures
        v == u16_from_be(buf@),
{
    BigEndian::read_u16(buf)
}

/// `byteorder::BigEndian::read_u32`: the number that the first four bytes of
/// `buf` hold, most significant byte first. It panics on a shorter slice.
#[verifier::external_body]
pub(crate) fn read_u32_be(buf: &[u8]) -> (v: u32)
    requires
        buf@.len() >= 4,
    ensures
        v == u32_from_be(buf@),
{
    BigEndian::read_u32(buf)
}

/// `byteorder::BigEndian::read_i32`: the signed number that the first four
/// bytes of `buf` hold in two's complement, most significant byte first. It
/// panics on a shorter slice.
#[verifier::external_body]
pub(crate) fn read_i32_be(buf: &[u8]) -> (v: i32)
    requires
        buf@.len() >= 4,
    ensures
        v == i32_from_be(buf@),
{
    BigEndian::read_i32(buf)
}

/// `byteorder::BigEndian::read_u64`: the number that the first eight bytes
/// of `buf` hold, most significant byte first. It panics on a shorter slice.
#[verifier::external_body]
pub(crate) fn read_u64_be(buf: &[u8]) -> (v: u64)
    requires
        buf@.len() >= 8,
    ensures
        v == u64_from_be(buf@),
{
    BigEndian::read_u64(buf)
}

/// `byteorder::BigEndian::write_u16` on a buffer of two bytes: the bytes of
/// `v`, most significant first.
#[verifier::external_body]
pub(crate) fn write_u16_be(v: u16) -> (bytes: Vec<u8>)
    ensures
        bytes@ == u16_be_bytes(v),
{
    let mut buf = [0u8; 2];
    BigEndian::write_u16(&mut buf, v);
    buf.to_vec()
}

/// `byteorder::BigEndian::write_u32` on a buffer of four bytes: the bytes of
/// `v`, most significant first.
#[verifier::external_body]
pub(crate) fn write_u32_be(v: u32) -> (bytes: Vec<u8>)
    ensures
        bytes@ == u32_be_bytes(v),
{
    let mut buf = [0u8; 4];
    BigEndian::write_u32(&mut buf, v);
    buf.to_vec()
}

/// `byteorder::BigEndian::write_i32` on a buffer of four bytes: the bytes of
/// `v` in two's complement, most significant first.
#[verifier::external_body]
pub(crate) fn write_i32_be(v: i32) -> (bytes: Vec<u8>)
    ensures
        bytes@ == i32_be_bytes(v),
{
    let mut buf = [0u8; 4];
    BigEndian::write_i32(&mut buf, v);
    buf.to_vec()
}

/// `byteorder::BigEndian::write_u64` on a buffer of eight bytes: the bytes
/// of `v`, most significant first.
#[verifier::external_body]
pub(crate) fn write_u64_be(v: u64) -> (bytes: Vec<u8>)
    ensures
        bytes@ == u64_be_bytes(v),
{
    let mut buf = [0u8; 8];
    BigEndian::write_u64(&mut buf, v);
    buf.to_vec()
}

/// `String::from_utf8`: the string that `bytes` encode in UTF-8, or nothing
/// where they are not valid UTF-8.
#[verifier::external_body]
pub(crate) fn string_from_utf8(bytes: Vec<u8>) -> (s: Option<String>)
    ensures
        match s {
            Some(s) => valid_utf8(bytes@) && s@ == decode_utf8(bytes@),
            None => !valid_utf8(bytes@),
        },
{
    String::from_utf8(bytes).ok()
}

/// Takes the first `n` bytes from the front of `bytes`, or fails, leaving
/// `bytes` as it is, where fewer are left.
pub fn take_bytes<'a>(bytes: &mut &'a [u8], n: usize) -> (r: Result<&'a [u8], DecodeError>)
    ensures
        old(bytes)@.len() >= n ==> (r matches Ok(head) && head@ == old(bytes)@.take(n as int)
            && final(bytes)@ == old(bytes)@.skip(n as int)),
        old(bytes)@.len() < n ==> r == Err::<&[u8], DecodeError>(DecodeError::ShortRead)
            && final(bytes)@ == old(bytes)@,
{
    let len = bytes.len();
    if len < n {
        return Err(DecodeError::ShortRead);
    }
    let head = slice_subrange(*bytes, 0, n);
    *bytes = slice_subrange(*bytes, n, len);
    Ok(head)
}

/// Appends the bytes of `src` to `out`.
pub fn put_bytes(out: &mut Vec<u8>, src: &[u8])
    ensures
        final(out)@ == old(out)@ + src@,
{
    out.extend_from_slice(src);
    assert(out@ =~= old(out)@ + src@);
}

impl Serializable for u64 {
    open spec fn encode(value: u64) -> Seq<u8> {
        u64_be_bytes(value)
    }

    open spec fn decode(bytes: Seq<u8>) -> Result<(u64, nat), DecodeError> {
        if bytes.len() < 8 {
            Err(DecodeError::ShortRead)
        } else {
            Ok((u64_from_be(bytes), 8))
        }
    }

    open spec fn encodable(value: u64) -> bool {
        true
    }

    proof fn lemma_decode_encode(value: u64, rest: Seq<u8>) {
        lemma_u64_be_round_trip(value, rest);
    }

    proof fn lemma_decode_length(bytes: Seq<u8>) {
    }

    fn serialize(&self, bytes: &mut Vec<u8>) {
        let mut encoded = write_u64_be(*self);
        bytes.append(&mut encoded);
        assert(bytes@ =~= old(bytes)@ + Self::encode(self@));
    }

    fn deserialize(bytes: &mut &[u8]) -> (r: Result<u64, DecodeError>) {
        let head = take_bytes(bytes, 8)?;
        Ok(read_u64_be(head))
    }
}

impl Serializable for u32 {
    open spec fn encode(value: u32) -> Seq<u8> {
        u32_be_bytes(value)
    }

    open spec fn decode(bytes: Seq<u8>) -> Result<(u32, nat), DecodeError> {
        if bytes.len() < 4 {
            Err(DecodeError::ShortRead)
        } else {
            Ok((u32_from_be(bytes), 4))
        }
    }

    open spec fn encodable(value: u32) -> bool {
        true
    }

    proof fn lemma_decode_encode(value: u32, rest: Seq<u8>) {
        lemma_u32_be_round_trip(value, rest);
    }

    proof fn lemma_decode_length(bytes: Seq<u8>) {
    }

    fn serialize(&self, bytes: &mut Vec<u8>) {
        let mut encoded = write_u32_be(*self);
        bytes.append(&mut encoded);
        assert(bytes@ =~= old(bytes)@ + Self::encode(self@));
    }

    fn deserialize(bytes: &mut &[u8]) -> (r: Result<u32, DecodeError>) {
        let head = take_bytes(bytes, 4)?;
        Ok(read_u32_be(head))
    }
}

impl Serializable for i32 {
    open spec fn encode(value: i32) -> Seq<u8> {
        i32_be_bytes(value)
    }

    open spec fn decode(bytes: Seq<u8>) -> Result<(i32, nat), DecodeError> {
        if bytes.len() < 4 {
            Err(DecodeError::ShortRead)
        } else {
            Ok((i32_from_be(bytes), 4))
        }
    }

    open spec fn encodable(value: i32) -> bool {
        true
    }

    proof fn lemma_decode_encode(value: i32, rest: Seq<u8>) {
        lemma_i32_be_round_trip(value, rest);
    }

    proof fn lemma_decode_length(bytes: Seq<u8>) {
    }

    fn serialize(&self, bytes: &mut Vec<u8>) {
        let mut encoded = write_i32_be(*self);
        bytes.append(&mut encoded);
        assert(bytes@ =~= old(bytes)@ + Self::encode(self@));
    }

    fn deserialize(bytes: &mut &[u8]) -> (r: Result<i32, DecodeError>) {
        let head = take_bytes(bytes, 4)?;
        Ok(read_i32_be(head))
    }
}

/// The length of a string's UTF-8 form as its length prefix holds it: the
/// length cut to 32 bits.
pub open spec fn length_prefix(len: nat) -> u32 {
    (len % 0x1_0000_0000) as u32
}

impl Serializable for String {
    open spec fn encode(value: Seq<char>) -> Seq<u8> {
        u32_be_bytes(length_prefix(encode_utf8(value).len())) + encode_utf8(value)
    }

    open spec fn decode(bytes: Seq<u8>) -> Result<(Seq<char>, nat), DecodeError> {
        if bytes.len() < 4 {
            Err(DecodeError::ShortRead)
        } else if bytes.len() < 4 + u32_from_be(bytes) {
            Err(DecodeError::ShortRead)
        } else if !valid_utf8(bytes.subrange(4, 4 + u32_from_be(bytes))) {
            Err(DecodeError::InvalidData)
        } else {
            Ok(
                (
                    decode_utf8(bytes.subrange(4, 4 + u32_from_be(bytes))),
                    (4 + u32_from_be(bytes)) as nat,
                ),
            )
        }
    }

    open spec fn encodable(value: Seq<char>) -> bool {
        encode_utf8(value).len() <= u32::MAX
    }

    proof fn lemma_decode_encode(value: Seq<char>, rest: Seq<u8>) {
        let body = encode_utf8(value);
        let prefix = length_prefix(body.len());
        let all = Self::encode(value) + rest;
        lemma_u32_be_round_trip(prefix, body + rest);
        assert(all =~= u32_be_bytes(prefix) + (body + rest));
        assert(all.subrange(4, 4 + body.len() as int) =~= body);
        vstd::utf8::encode_utf8_valid_utf8(value);
        vstd::utf8::encode_utf8_decode_utf8(value);
    }

    proof fn lemma_decode_length(bytes: Seq<u8>) {
    }

    fn serialize(&self, bytes: &mut Vec<u8>) {
        let body = self.as_str().as_bytes();
        let len = body.len();
        let prefix: u32 = #[verifier::truncate]
        (len as u32);
        assert(prefix == length_prefix(len as nat)) by (bit_vector)
            requires
                prefix == len as u32,
        ;
        let mut encoded = write_u32_be(prefix);
        bytes.append(&mut encoded);
        put_bytes(bytes, body);
    }

    fn deserialize(bytes: &mut &[u8]) -> (r: Result<String, DecodeError>) {
        let saved: &[u8] = *bytes;
        let ghost start = bytes@;
        let head = take_bytes(bytes, 4)?;
        let len = read_u32_be(head);
        assert(head@.take(4) =~= start.take(4));
        let body = match take_bytes(bytes, len as usize) {
            Ok(body) => body,
            Err(e) => {
                *bytes = saved;
                return Err(e);
            },
        };
        assert(body@ =~= start.subrange(4, 4 + len));
        assert(bytes@ =~= start.skip(4 + len));
        match string_from_utf8(vstd::slice::slice_to_vec(body)) {
            Some(s) => Ok(s),
            None => {
                *bytes = saved;
                Err(DecodeError::InvalidData)
            },
        }
    }
}

} // verus!
