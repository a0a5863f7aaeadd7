//! Encoding of primitive and length-prefixed values into a byte buffer.
use byteorder::ByteOrder;
use vstd::prelude::*;
use vstd::utf8::{decode_utf8, encode_utf8, valid_utf8};

verus! {

/// Bytes of the little-endian length prefix in front of a byte string.
pub const RESERVED_SIZE_FOR_BYTE_SLICE: usize = 2;

/// Largest payload a length-prefixed byte string can carry.
pub const MAX_BYTE_SLICE_LENGTH: usize = 65535;

/// The two little-endian bytes of `v`.
pub open spec fn le_u16_bytes(v: u16) -> Seq<u8> {
    seq![(v % 256) as u8, (v / 256) as u8]
}

/// The four little-endian bytes of `v`.
pub open spec fn le_u32_bytes(v: u32) -> Seq<u8> {
    seq![
        (v % 256) as u8,
        ((v / 256) % 256) as u8,
        ((v / 65536) % 256) as u8,
        (v / 16777216) as u8,
    ]
}

/// The `u16` stored little-endian in `b` at `at`.
pub open spec fn le_u16_at(b: Seq<u8>, at: int) -> u16 {
    (b[at] + 256 * b[at + 1]) as u16
}

/// The `u32` stored little-endian in `b` at `at`.
pub open spec fn le_u32_at(b: Seq<u8>, at: int) -> u32 {
    (b[at] + 256 * b[at + 1] + 65536 * b[at + 2] + 16777216 * b[at + 3]) as u32
}

/// `b` with `data` written over it from `at` on.
pub open spec fn overwrite(b: Seq<u8>, at: int, data: Seq<u8>) -> Seq<u8> {
    b.subrange(0, at) + data + b.subrange(at + data.len(), b.len() as int)
}

/// Length prefix followed by the payload.
pub open spec fn framed(payload: Seq<u8>) -> Seq<u8> {
    le_u16_bytes(payload.len() as u16) + payload
}

pub proof fn lemma_le_u16_round_trip(v: u16, b: Seq<u8>, at: int)
    requires
        0 <= at,
        at + 2 <= b.len(),
        b.subrange(at, at + 2) == le_u16_bytes(v),
    ensures
        le_u16_at(b, at) == v,
{
    assert(b[at] == le_u16_bytes(v)[0]);
    assert(b[at + 1] == le_u16_bytes(v)[1]);
}

pub proof fn lemma_le_u32_round_trip(v: u32, b: Seq<u8>, at: int)
    requires
        0 <= at,
        at + 4 <= b.len(),
        b.subrange(at, at + 4) == le_u32_bytes(v),
    ensures
        le_u32_at(b, at) == v,
{
    assert(b[at] == le_u32_bytes(v)[0]);
    assert(b[at + 1] == le_u32_bytes(v)[1]);
    assert(b[at + 2] == le_u32_bytes(v)[2]);
    assert(b[at + 3] == le_u32_bytes(v)[3]);
}

/// Relies on byteorder's `LittleEndian::write_u16`: it stores `n` low byte
/// first in the first two bytes of the slice it is given.
#[verifier::external_body]
pub(crate) fn write_u16_le(buffer: &mut Vec<u8>, at: usize, n: u16)
    requires
        at + 2 <= old(buffer).len(),
    ensures
        final(buffer)@ == overwrite(old(buffer)@, at as int, le_u16_bytes(n)),
{
    byteorder::LittleEndian::write_u16(&mut buffer[at..], n);
}

/// Relies on byteorder's `LittleEndian::write_u32`: it stores `n` low byte
/// first in the first four bytes of the slice it is given.
#[verifier::external_body]
pub(crate) fn write_u32_le(buffer: &mut Vec<u8>, at: usize, n: u32)
    requires
        at + 4 <= old(buffer).len(),
    ensures
        final(buffer)@ == overwrite(old(buffer)@, at as int, le_u32_bytes(n)),
{
    byteorder::LittleEndian::write_u32(&mut buffer[at..], n);
}

/// Relies on byteorder's `LittleEndian::read_u16`: the first two bytes of the
/// slice it is given, low byte first.
#[verifier::external_body]
pub(crate) fn read_u16_le(buffer: &[u8], at: usize) -> (r: u16)
    requires
        at + 2 <= buffer@.len(),
    ensures
        r == le_u16_at(buffer@, at as int),
{
    byteorder::LittleEndian::read_u16(&buffer[at..])
}

/// Relies on byteorder's `LittleEndian::read_u32`: the first four bytes of the
/// slice it is given, low byte first.
#[verifier::external_body]
pub(crate) fn read_u32_le(buffer: &[u8], at: usize) -> (r: u32)
    requires
        at + 4 <= buffer@.len(),
    ensures
        r == le_u32_at(buffer@, at as int),
{
    byteorder::LittleEndian::read_u32(&buffer[at..])
}

/// Relies on `std::str::from_utf8`: it accepts exactly the valid UTF-8 byte
/// strings, and the text it returns is made of those very bytes.
#[verifier::external_body]
pub(crate) fn str_from_utf8(bytes: &[u8]) -> (r: Option<&str>)
    ensures
        r is Some <==> valid_utf8(bytes@),
        r is Some ==> encode_utf8(r->Some_0@) == bytes@,
{
    std::str::from_utf8(bytes).ok()
}

/// Copies `source` into `destination` from `at` on.
pub(crate) fn copy_into(destination: &mut Vec<u8>, at: usize, source: &[u8])
    requires
        at + source.len() <= old(destination).len(),
    ensures
        final(destination)@ == overwrite(old(destination)@, at as int, source@),
{
    let ghost start = destination@;
    let mut i: usize = 0;
    while i < source.len()
        invariant
            i <= source@.len(),
            at + source.len() <= destination.len(),
            destination@.len() == start.len(),
            destination@ == overwrite(start, at as int, source@.subrange(0, i as int)),
        decreases source@.len() - i,
    {
        destination.set(at + i, source[i]);
        i = i + 1;
        assert(destination@ =~= overwrite(start, at as int, source@.subrange(0, i as int)));
    }
    assert(source@.subrange(0, i as int) =~= source@);
}

/// Codec for a single byte.
pub struct U8EncoderDecoder;

impl U8EncoderDecoder {
    pub fn bytes_needed_for_encoding(&self, source: &u8) -> (r: usize)
        ensures
            r == 1,
    {
        1
    }

    /// Writes `source` at `destination_starting_offset`; returns the bytes used.
    pub fn encode(&self, source: &u8, destination: &mut Vec<u8>, destination_starting_offset: usize) -> (r: usize)
        requires
            destination_starting_offset < old(destination).len(),
        ensures
            r == 1,
            final(destination)@ == overwrite(old(destination)@, destination_starting_offset as int, seq![*source]),
    {
        destination.set(destination_starting_offset, *source);
        assert(final(destination)@ =~= overwrite(old(destination)@, destination_starting_offset as int, seq![*source]));
        1
    }

    /// The byte at `from_offset` and the offset just past it.
    pub fn decode<'a>(&self, encoded: &'a [u8], from_offset: usize) -> (r: (&'a u8, usize))
        requires
            from_offset < encoded.len(),
        ensures
            *r.0 == encoded@[from_offset as int],
            r.1 == from_offset + 1,
    {
        (&encoded[from_offset], from_offset + 1)
    }
}

/// Codec for a little-endian `u16`.
pub struct U16EncoderDecoder;

impl U16EncoderDecoder {
    pub fn bytes_needed_for_encoding(&self, source: &u16) -> (r: usize)
        ensures
            r == 2,
    {
        2
    }

    pub fn encode(&self, source: &u16, destination: &mut Vec<u8>, destination_starting_offset: usize) -> (r: usize)
        requires
            destination_starting_offset + 2 <= old(destination).len(),
        ensures
            r == 2,
            final(destination)@ == overwrite(old(destination)@, destination_starting_offset as int, le_u16_bytes(*source)),
    {
        write_u16_le(destination, destination_starting_offset, *source);
        2
    }

    pub fn decode(&self, encoded: &[u8], from_offset: usize) -> (r: (u16, usize))
        requires
            from_offset + 2 <= encoded.len(),
        ensures
            r.0 == le_u16_at(encoded@, from_offset as int),
            r.1 == from_offset + 2,
    {
        (read_u16_le(encoded, from_offset), from_offset + 2)
    }
}

/// Codec for a little-endian `u32`.
pub struct U32EncoderDecoder;

impl U32EncoderDecoder {
    pub fn bytes_needed_for_encoding(&self, source: &u32) -> (r: usize)
        ensures
            r == 4,
    {
        4
    }

    pub fn encode(&self, source: &u32, destination: &mut Vec<u8>, destination_starting_offset: usize) -> (r: usize)
        requires
            destination_starting_offset + 4 <= old(destination).len(),
        ensures
            r == 4,
            final(destination)@ == overwrite(old(destination)@, destination_starting_offset as int, le_u32_bytes(*source)),
    {
        write_u32_le(destination, destination_starting_offset, *source);
        4
    }

    pub fn decode(&self, encoded: &[u8], from_offset: usize) -> (r: (u32, usize))
        requires
            from_offset + 4 <= encoded.len(),
        ensures
            r.0 == le_u32_at(encoded@, from_offset as int),
            r.1 == from_offset + 4,
    {
        (read_u32_le(encoded, from_offset), from_offset + 4)
    }
}

/// Codec for a byte string: a little-endian `u16` length, then the bytes.
pub struct BytesEncoderDecoder;

impl BytesEncoderDecoder {
    pub fn bytes_needed_for_encoding(&self, source: &[u8]) -> (r: usize)
        requires
            source@.len() <= MAX_BYTE_SLICE_LENGTH,
        ensures
            r == RESERVED_SIZE_FOR_BYTE_SLICE + source@.len(),
    {
        RESERVED_SIZE_FOR_BYTE_SLICE + source.len()
    }

    pub fn encode(&self, source: &[u8], destination: &mut Vec<u8>, destination_starting_offset: usize) -> (r: usize)
        requires
            source@.len() <= MAX_BYTE_SLICE_LENGTH,
            destination_starting_offset + RESERVED_SIZE_FOR_BYTE_SLICE + source@.len() <= old(destination).len(),
        ensures
            r == RESERVED_SIZE_FOR_BYTE_SLICE + source@.len(),
            final(destination)@ == overwrite(old(destination)@, destination_starting_offset as int, framed(source@)),
    {
        let ghost start = destination@;
        write_u16_le(destination, destination_starting_offset, source.len() as u16);
        copy_into(destination, destination_starting_offset + RESERVED_SIZE_FOR_BYTE_SLICE, source);
        assert(destination@ =~= overwrite(start, destination_starting_offset as int, framed(source@)));
        RESERVED_SIZE_FOR_BYTE_SLICE + source.len()
    }

    /// The payload that starts at `from_offset`, as a view into `encoded`,
    /// and the offset just past it.
    pub fn decode<'a>(&self, encoded: &'a [u8], from_offset: usize) -> (r: (&'a [u8], usize))
        requires
            from_offset + 2 <= encoded.len(),
            from_offset + 2 + le_u16_at(encoded@, from_offset as int) <= encoded.len(),
        ensures
            r.1 == from_offset + 2 + le_u16_at(encoded@, from_offset as int),
            r.0@ == encoded@.subrange(from_offset + 2, r.1 as int),
    {
        let length = read_u16_le(encoded, from_offset);
        let end_offset = from_offset + RESERVED_SIZE_FOR_BYTE_SLICE + length as usize;
        (&encoded[from_offset + RESERVED_SIZE_FOR_BYTE_SLICE..end_offset], end_offset)
    }
}

/// Codec for text: its UTF-8 bytes, framed as a byte string.
pub struct StrEncoderDecoder;

impl StrEncoderDecoder {
    pub fn bytes_needed_for_encoding(&self, source: &str) -> (r: usize)
        requires
            encode_utf8(source@).len() <= MAX_BYTE_SLICE_LENGTH,
        ensures
            r == RESERVED_SIZE_FOR_BYTE_SLICE + encode_utf8(source@).len(),
    {
        BytesEncoderDecoder.bytes_needed_for_encoding(source.as_bytes())
    }

    pub fn encode(&self, source: &str, destination: &mut Vec<u8>, destination_starting_offset: usize) -> (r: usize)
        requires
            encode_utf8(source@).len() <= MAX_BYTE_SLICE_LENGTH,
            destination_starting_offset + RESERVED_SIZE_FOR_BYTE_SLICE + encode_utf8(source@).len() <= old(destination).len(),
        ensures
            r == RESERVED_SIZE_FOR_BYTE_SLICE + encode_utf8(source@).len(),
            final(destination)@ == overwrite(old(destination)@, destination_starting_offset as int, framed(encode_utf8(source@))),
    {
        BytesEncoderDecoder.encode(source.as_bytes(), destination, destination_starting_offset)
    }

    /// The text that starts at `from_offset`, as a view into `encoded`, and the
    /// offset just past it.
    pub fn decode<'a>(&self, encoded: &'a [u8], from_offset: usize) -> (r: (&'a str, usize))
        requires
            from_offset + 2 <= encoded.len(),
            from_offset + 2 + le_u16_at(encoded@, from_offset as int) <= encoded.len(),
            valid_utf8(encoded@.subrange(from_offset + 2, from_offset + 2 + le_u16_at(encoded@, from_offset as int))),
        ensures
            r.1 == from_offset + 2 + le_u16_at(encoded@, from_offset as int),
            r.0@ == decode_utf8(encoded@.subrange(from_offset + 2, r.1 as int)),
    {
        let (bytes, end_offset) = BytesEncoderDecoder.decode(encoded, from_offset);
        let text = str_from_utf8(bytes);
        let text = match text {
            Some(t) => t,
            None => "",
        };
        proof {
            vstd::utf8::encode_utf8_decode_utf8(text@);
        }
        (text, end_offset)
    }
}

} // verus!
