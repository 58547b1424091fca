//! Fixed-width integer encodings and a small fixed-layout record format.
use vstd::prelude::*;

verus! {

/// The little-endian encoding of a `u16`: least significant byte first.
pub open spec fn spec_u16_le(v: u16) -> Seq<u8> {
    seq![(v % 256) as u8, (v / 256) as u8]
}

/// The big-endian encoding of a `u16`: most significant byte first.
pub open spec fn spec_u16_be(v: u16) -> Seq<u8> {
    seq![(v / 256) as u8, (v % 256) as u8]
}

/// The little-endian encoding of a `u32`: least significant byte first.
pub open spec fn spec_u32_le(v: u32) -> Seq<u8> {
    seq![
        (v % 256) as u8,
        ((v / 256) % 256) as u8,
        ((v / 65536) % 256) as u8,
        (v / 16777216) as u8,
    ]
}

/// The big-endian encoding of a `u32`: most significant byte first.
pub open spec fn spec_u32_be(v: u32) -> Seq<u8> {
    seq![
        (v / 16777216) as u8,
        ((v / 65536) % 256) as u8,
        ((v / 256) % 256) as u8,
        (v % 256) as u8,
    ]
}

/// The number whose base-256 digits, least significant first, are `b0, b1`.
pub open spec fn le_value2(b0: u8, b1: u8) -> int {
    b0 + 256 * b1
}

/// The number whose base-256 digits, least significant first, are `b0 .. b3`.
pub open spec fn le_value4(b0: u8, b1: u8, b2: u8, b3: u8) -> int {
    b0 + 256 * b1 + 65536 * b2 + 16777216 * b3
}

pub fn u16_to_le_bytes(value: u16) -> (bytes: [u8; 2])
    ensures
        bytes@ == spec_u16_le(value),
{
    proof {
        assert((value & 0xff) == value % 256) by (bit_vector);
        assert(((value >> 8u16) & 0xff) == value / 256) by (bit_vector);
    }
    let bytes = [(value & 0xff) as u8, ((value >> 8) & 0xff) as u8];
    assert(bytes@ =~= spec_u16_le(value));
    bytes
}

pub fn u16_to_be_bytes(value: u16) -> (bytes: [u8; 2])
    ensures
        bytes@ == spec_u16_be(value),
{
    proof {
        assert((value & 0xff) == value % 256) by (bit_vector);
        assert(((value >> 8u16) & 0xff) == value / 256) by (bit_vector);
    }
    let bytes = [((value >> 8) & 0xff) as u8, (value & 0xff) as u8];
    assert(bytes@ =~= spec_u16_be(value));
    bytes
}

proof fn lemma_u32_bytes(value: u32)
    ensures
        (value & 0xff) == value % 256,
        ((value >> 8u32) & 0xff) == (value / 256) % 256,
        ((value >> 16u32) & 0xff) == (value / 65536) % 256,
        ((value >> 24u32) & 0xff) == value / 16777216,
{
    assert((value & 0xff) == value % 256) by (bit_vector);
    assert(((value >> 8u32) & 0xff) == (value / 256) % 256) by (bit_vector);
    assert(((value >> 16u32) & 0xff) == (value / 65536) % 256) by (bit_vector);
    assert(((value >> 24u32) & 0xff) == value / 16777216) by (bit_vector);
}

pub fn u32_to_le_bytes(value: u32) -> (bytes: [u8; 4])
    ensures
        bytes@ == spec_u32_le(value),
{
    proof {
        lemma_u32_bytes(value);
    }
    let bytes = [
        (value & 0xff) as u8,
        ((value >> 8) & 0xff) as u8,
        ((value >> 16) & 0xff) as u8,
        ((value >> 24) & 0xff) as u8,
    ];
    assert(bytes@ =~= spec_u32_le(value));
    bytes
}

pub fn u32_to_be_bytes(value: u32) -> (bytes: [u8; 4])
    ensures
        bytes@ == spec_u32_be(value),
{
    proof {
        lemma_u32_bytes(value);
    }
    let bytes = [
        ((value >> 24) & 0xff) as u8,
        ((value >> 16) & 0xff) as u8,
        ((value >> 8) & 0xff) as u8,
        (value & 0xff) as u8,
    ];
    assert(bytes@ =~= spec_u32_be(value));
    bytes
}

/// Reads a `u16` from the first two bytes, least significant first;
/// `None` when fewer than two bytes are given.
pub fn u16_from_le_bytes(bytes: &[u8]) -> (value: Option<u16>)
    ensures
        bytes@.len() < 2 <==> value is None,
        value matches Some(v) ==> v == le_value2(bytes@[0], bytes@[1]),
{
    if bytes.len() < 2 {
        return None;
    }
    let b0 = bytes[0];
    let b1 = bytes[1];
    assert(((b0 as u16) | (b1 as u16) << 8u16) == b0 + 256 * b1) by (bit_vector);
    Some((b0 as u16) | (b1 as u16) << 8)
}

/// Reads a `u16` from the first two bytes, most significant first;
/// `None` when fewer than two bytes are given.
pub fn u16_from_be_bytes(bytes: &[u8]) -> (value: Option<u16>)
    ensures
        bytes@.len() < 2 <==> value is None,
        value matches Some(v) ==> v == le_value2(bytes@[1], bytes@[0]),
{
    if bytes.len() < 2 {
        return None;
    }
    let b0 = bytes[0];
    let b1 = bytes[1];
    assert(((b0 as u16) << 8u16 | (b1 as u16)) == b1 + 256 * b0) by (bit_vector);
    Some((b0 as u16) << 8 | (b1 as u16))
}

/// Reads a `u32` from the first four bytes, least significant first;
/// `None` when fewer than four bytes are given.
pub fn u32_from_le_bytes(bytes: &[u8]) -> (value: Option<u32>)
    ensures
        bytes@.len() < 4 <==> value is None,
        value matches Some(v) ==> v == le_value4(bytes@[0], bytes@[1], bytes@[2], bytes@[3]),
{
    if bytes.len() < 4 {
        return None;
    }
    let b0 = bytes[0];
    let b1 = bytes[1];
    let b2 = bytes[2];
    let b3 = bytes[3];
    assert((b0 as u32) | ((b1 as u32) << 8u32) | ((b2 as u32) << 16u32) | ((b3 as u32) << 24u32)
        == b0 + 256 * b1 + 65536 * b2 + 16777216 * b3) by (bit_vector);
    Some((b0 as u32) | ((b1 as u32) << 8) | ((b2 as u32) << 16) | ((b3 as u32) << 24))
}

/// Reads a `u32` from the first four bytes, most significant first;
/// `None` when fewer than four bytes are given.
pub fn u32_from_be_bytes(bytes: &[u8]) -> (value: Option<u32>)
    ensures
        bytes@.len() < 4 <==> value is None,
        value matches Some(v) ==> v == le_value4(bytes@[3], bytes@[2], bytes@[1], bytes@[0]),
{
    if bytes.len() < 4 {
        return None;
    }
    let b0 = bytes[0];
    let b1 = bytes[1];
    let b2 = bytes[2];
    let b3 = bytes[3];
    assert(((b0 as u32) << 24u32) | ((b1 as u32) << 16u32) | ((b2 as u32) << 8u32) | (b3 as u32)
        == b3 + 256 * b2 + 65536 * b1 + 16777216 * b0) by (bit_vector);
    Some(((b0 as u32) << 24) | ((b1 as u32) << 16) | ((b2 as u32) << 8) | (b3 as u32))
}

/// A fixed-size record: a 32-bit id, 16 bits of flags and a one-byte kind.
#[derive(Debug, Clone, Copy, PartialEq, Eq, Structural)]
pub struct Record {
    pub id: u32,
    pub flags: u16,
    pub kind: u8,
}

/// The on-disk form of a record: `id` little-endian, then `flags`
/// little-endian, then `kind` (seven bytes in all).
pub open spec fn spec_record_bytes(record: Record) -> Seq<u8> {
    spec_u32_le(record.id) + spec_u16_le(record.flags) + seq![record.kind]
}

pub fn serialize_record(record: &Record) -> (output: Vec<u8>)
    ensures
        output@ == spec_record_bytes(*record),
{
    let mut output: Vec<u8> = Vec::with_capacity(7);
    let id_bytes = u32_to_le_bytes(record.id);
    let flag_bytes = u16_to_le_bytes(record.flags);
    output.extend_from_slice(id_bytes.as_slice());
    output.extend_from_slice(flag_bytes.as_slice());
    output.push(record.kind);
    assert(output@ =~= spec_record_bytes(*record));
    output
}

/// Decodes the seven-byte record layout from the start of `bytes`;
/// `None` when fewer than seven bytes are given. Bytes after the seventh
/// are ignored.
pub fn deserialize_record(bytes: &[u8]) -> (record: Option<Record>)
    ensures
        bytes@.len() < 7 <==> record is None,
        record matches Some(r) ==> {
            &&& r.id == le_value4(bytes@[0], bytes@[1], bytes@[2], bytes@[3])
            &&& r.flags == le_value2(bytes@[4], bytes@[5])
            &&& r.kind == bytes@[6]
        },
{
    if bytes.len() < 7 {
        return None;
    }
    let id = match u32_from_le_bytes(&bytes[0..4]) {
        Some(id) => id,
        None => return None,
    };
    let flags = match u16_from_le_bytes(&bytes[4..6]) {
        Some(flags) => flags,
        None => return None,
    };
    let kind = bytes[6];
    Some(Record { id, flags, kind })
}

/// Decoding gives back what encoding wrote: for every `u16` and every
/// `u32`, reading the little-endian (or big-endian) encoding yields the
/// value that was encoded.
pub proof fn lemma_integer_round_trip(a: u16, b: u32)
    ensures
        le_value2(spec_u16_le(a)[0], spec_u16_le(a)[1]) == a,
        le_value2(spec_u16_be(a)[1], spec_u16_be(a)[0]) == a,
        le_value4(spec_u32_le(b)[0], spec_u32_le(b)[1], spec_u32_le(b)[2], spec_u32_le(b)[3]) == b,
        le_value4(spec_u32_be(b)[3], spec_u32_be(b)[2], spec_u32_be(b)[1], spec_u32_be(b)[0]) == b,
{
}

/// Every byte sequence of the right length is the encoding of the value
/// it decodes to: encoding after decoding gives the bytes back.
pub proof fn lemma_bytes_round_trip(b0: u8, b1: u8, b2: u8, b3: u8)
    ensures
        spec_u16_le(le_value2(b0, b1) as u16) == seq![b0, b1],
        spec_u32_le(le_value4(b0, b1, b2, b3) as u32) == seq![b0, b1, b2, b3],
{
    let v2 = le_value2(b0, b1);
    vstd::arithmetic::div_mod::lemma_fundamental_div_mod_converse(v2, 256, b1 as int, b0 as int);
    let v4 = le_value4(b0, b1, b2, b3);
    let q1 = b1 + 256 * b2 + 65536 * b3;
    let q2 = b2 + 256 * b3;
    vstd::arithmetic::div_mod::lemma_fundamental_div_mod_converse(v4, 256, q1, b0 as int);
    vstd::arithmetic::div_mod::lemma_fundamental_div_mod_converse(q1, 256, q2, b1 as int);
    vstd::arithmetic::div_mod::lemma_fundamental_div_mod_converse(q2, 256, b3 as int, b2 as int);
    vstd::arithmetic::div_mod::lemma_fundamental_div_mod_converse(v4, 65536, q2, b0 + 256 * b1);
    vstd::arithmetic::div_mod::lemma_fundamental_div_mod_converse(
        v4, 16777216, b3 as int, b0 + 256 * b1 + 65536 * b2);
    assert(spec_u16_le(le_value2(b0, b1) as u16) =~= seq![b0, b1]);
    assert(spec_u32_le(le_value4(b0, b1, b2, b3) as u32) =~= seq![b0, b1, b2, b3]);
}

/// Deserializing a serialized record gives the record back.
pub proof fn lemma_record_round_trip(record: Record)
    ensures
        spec_record_bytes(record).len() == 7,
        le_value4(spec_record_bytes(record)[0], spec_record_bytes(record)[1],
            spec_record_bytes(record)[2], spec_record_bytes(record)[3]) == record.id,
        le_value2(spec_record_bytes(record)[4], spec_record_bytes(record)[5]) == record.flags,
        spec_record_bytes(record)[6] == record.kind,
{
    lemma_integer_round_trip(record.flags, record.id);
}

} // verus!
