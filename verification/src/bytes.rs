//! Integer codecs of the on-disk format: little-endian for records and
//! next-pointers, big-endian for directory entries.

use vstd::prelude::*;
use vstd::bytes::{spec_u64_from_le_bytes, spec_u64_to_le_bytes, u64_from_le_bytes, u64_to_le_bytes,
    lemma_auto_spec_u64_to_from_le_bytes};

verus! {

/// Little-endian bytes of a 16-bit integer: the low byte, then the high one.
pub open spec fn spec_u16_to_le_bytes(value: u16) -> Seq<u8> {
    seq![(value % 256) as u8, (value / 256) as u8]
}

/// The 16-bit integer that two little-endian bytes hold.
pub open spec fn spec_u16_from_le_bytes(bytes: Seq<u8>) -> u16 {
    (bytes[0] + 256 * bytes[1]) as u16
}

/// Little-endian bytes of a 32-bit integer, the lowest byte first.
pub open spec fn spec_u32_to_le_bytes(value: u32) -> Seq<u8> {
    seq![
        (value % 256) as u8,
        (value / 256 % 256) as u8,
        (value / 65536 % 256) as u8,
        (value / 16777216) as u8,
    ]
}

/// The 32-bit integer that four little-endian bytes hold.
pub open spec fn spec_u32_from_le_bytes(bytes: Seq<u8>) -> u32 {
    (bytes[0] + 256 * bytes[1] + 65536 * bytes[2] + 16777216 * bytes[3]) as u32
}

/// The 16-bit codec gives two bytes and loses nothing either way.
pub proof fn lemma_auto_spec_u16_to_from_le_bytes()
    ensures
        forall|value: u16|
            {
                &&& #[trigger] spec_u16_to_le_bytes(value).len() == 2
                &&& spec_u16_from_le_bytes(spec_u16_to_le_bytes(value)) == value
            },
        forall|bytes: Seq<u8>|
            bytes.len() == 2 ==> #[trigger] spec_u16_to_le_bytes(spec_u16_from_le_bytes(bytes))
                == bytes,
{
    assert forall|bytes: Seq<u8>| bytes.len() == 2 implies #[trigger] spec_u16_to_le_bytes(
        spec_u16_from_le_bytes(bytes),
    ) == bytes by {
        assert(spec_u16_to_le_bytes(spec_u16_from_le_bytes(bytes)) =~= bytes);
    }
}

/// The 32-bit codec gives four bytes and loses nothing either way.
pub proof fn lemma_auto_spec_u32_to_from_le_bytes()
    ensures
        forall|value: u32|
            {
                &&& #[trigger] spec_u32_to_le_bytes(value).len() == 4
                &&& spec_u32_from_le_bytes(spec_u32_to_le_bytes(value)) == value
            },
        forall|bytes: Seq<u8>|
            bytes.len() == 4 ==> #[trigger] spec_u32_to_le_bytes(spec_u32_from_le_bytes(bytes))
                == bytes,
{
    assert forall|bytes: Seq<u8>| bytes.len() == 4 implies #[trigger] spec_u32_to_le_bytes(
        spec_u32_from_le_bytes(bytes),
    ) == bytes by {
        assert(spec_u32_to_le_bytes(spec_u32_from_le_bytes(bytes)) =~= bytes);
    }
}

/// Encodes a 16-bit integer in two little-endian bytes.
pub fn u16_to_le_bytes(value: u16) -> (bytes: Vec<u8>)
    ensures
        bytes@ == spec_u16_to_le_bytes(value),
        bytes@.len() == 2,
{
    let mut bytes: Vec<u8> = Vec::new();
    bytes.push((value % 256) as u8);
    bytes.push((value / 256) as u8);
    assert(bytes@ =~= spec_u16_to_le_bytes(value));
    bytes
}

/// Decodes two little-endian bytes.
pub fn u16_from_le_bytes(bytes: &[u8]) -> (value: u16)
    requires
        bytes@.len() == 2,
    ensures
        value == spec_u16_from_le_bytes(bytes@),
{
    bytes[0] as u16 + 256 * (bytes[1] as u16)
}

/// Encodes a 32-bit integer in four little-endian bytes.
pub fn u32_to_le_bytes(value: u32) -> (bytes: Vec<u8>)
    ensures
        bytes@ == spec_u32_to_le_bytes(value),
        bytes@.len() == 4,
{
    let mut bytes: Vec<u8> = Vec::new();
    bytes.push((value % 256) as u8);
    bytes.push((value / 256 % 256) as u8);
    bytes.push((value / 65536 % 256) as u8);
    bytes.push((value / 16777216) as u8);
    assert(bytes@ =~= spec_u32_to_le_bytes(value));
    bytes
}

/// Decodes four little-endian bytes.
pub fn u32_from_le_bytes(bytes: &[u8]) -> (value: u32)
    requires
        bytes@.len() == 4,
    ensures
        value == spec_u32_from_le_bytes(bytes@),
{
    bytes[0] as u32 + 256 * (bytes[1] as u32) + 65536 * (bytes[2] as u32) + 16777216 * (
    bytes[3] as u32)
}

/// Big-endian bytes of a 64-bit integer.
pub open spec fn spec_u64_to_be_bytes(value: u64) -> Seq<u8> {
    spec_u64_to_le_bytes(value).reverse()
}

/// The 64-bit integer that eight big-endian bytes hold.
pub open spec fn spec_u64_from_be_bytes(bytes: Seq<u8>) -> u64 {
    spec_u64_from_le_bytes(bytes.reverse())
}

/// Big-endian bytes of a 16-bit integer.
pub open spec fn spec_u16_to_be_bytes(value: u16) -> Seq<u8> {
    spec_u16_to_le_bytes(value).reverse()
}

/// The 16-bit integer that two big-endian bytes hold.
pub open spec fn spec_u16_from_be_bytes(bytes: Seq<u8>) -> u16 {
    spec_u16_from_le_bytes(bytes.reverse())
}

/// Reversing twice gives the sequence back, and reversing keeps the length.
pub proof fn lemma_reverse_twice(bytes: Seq<u8>)
    ensures
        bytes.reverse().reverse() == bytes,
        bytes.reverse().len() == bytes.len(),
{
    assert(bytes.reverse().reverse() =~= bytes);
}

/// Decoding the encoding of an integer gives the integer, in either byte order.
pub proof fn lemma_codec_round_trip()
    ensures
        forall|value: u64| #[trigger]
            spec_u64_to_le_bytes(value).len() == 8 && spec_u64_from_le_bytes(
                spec_u64_to_le_bytes(value),
            ) == value,
        forall|value: u64| #[trigger]
            spec_u64_to_be_bytes(value).len() == 8 && spec_u64_from_be_bytes(
                spec_u64_to_be_bytes(value),
            ) == value,
        forall|value: u16| #[trigger]
            spec_u16_to_le_bytes(value).len() == 2 && spec_u16_from_le_bytes(
                spec_u16_to_le_bytes(value),
            ) == value,
        forall|value: u16| #[trigger]
            spec_u16_to_be_bytes(value).len() == 2 && spec_u16_from_be_bytes(
                spec_u16_to_be_bytes(value),
            ) == value,
{
    lemma_auto_spec_u64_to_from_le_bytes();
    lemma_auto_spec_u16_to_from_le_bytes();
    assert forall|value: u64| #[trigger]
        spec_u64_to_be_bytes(value).len() == 8 && spec_u64_from_be_bytes(
            spec_u64_to_be_bytes(value),
        ) == value by {
        lemma_reverse_twice(spec_u64_to_le_bytes(value));
    }
    assert forall|value: u16| #[trigger]
        spec_u16_to_be_bytes(value).len() == 2 && spec_u16_from_be_bytes(
            spec_u16_to_be_bytes(value),
        ) == value by {
        lemma_reverse_twice(spec_u16_to_le_bytes(value));
    }
}

/// Copies `bytes` in reverse order.
pub fn reversed(bytes: &[u8]) -> (result: Vec<u8>)
    ensures
        result@ == bytes@.reverse(),
{
    let mut result: Vec<u8> = Vec::new();
    let length = bytes.len();
    let mut taken: usize = 0;
    while taken < length
        invariant
            length == bytes@.len(),
            taken <= length,
            result@.len() == taken,
            forall|at: int| 0 <= at < taken ==> result@[at] == bytes@[length - 1 - at],
        decreases length - taken,
    {
        result.push(bytes[length - 1 - taken]);
        taken += 1;
    }
    assert(result@ =~= bytes@.reverse());
    result
}

/// Encodes a 64-bit integer in big-endian order.
pub fn u64_to_be_bytes(value: u64) -> (bytes: Vec<u8>)
    ensures
        bytes@ == spec_u64_to_be_bytes(value),
        bytes@.len() == 8,
{
    let little = u64_to_le_bytes(value);
    let bytes = reversed(little.as_slice());
    proof {
        lemma_reverse_twice(little@);
    }
    bytes
}

/// Decodes eight big-endian bytes.
pub fn u64_from_be_bytes(bytes: &[u8]) -> (value: u64)
    requires
        bytes@.len() == 8,
    ensures
        value == spec_u64_from_be_bytes(bytes@),
{
    let little = reversed(bytes);
    proof {
        lemma_reverse_twice(bytes@);
    }
    u64_from_le_bytes(little.as_slice())
}

/// Encodes a 16-bit integer in big-endian order.
pub fn u16_to_be_bytes(value: u16) -> (bytes: Vec<u8>)
    ensures
        bytes@ == spec_u16_to_be_bytes(value),
        bytes@.len() == 2,
{
    let little = u16_to_le_bytes(value);
    let bytes = reversed(little.as_slice());
    proof {
        lemma_reverse_twice(little@);
    }
    bytes
}

/// Decodes two big-endian bytes.
pub fn u16_from_be_bytes(bytes: &[u8]) -> (value: u16)
    requires
        bytes@.len() == 2,
    ensures
        value == spec_u16_from_be_bytes(bytes@),
{
    let little = reversed(bytes);
    proof {
        lemma_reverse_twice(bytes@);
    }
    u16_from_le_bytes(little.as_slice())
}

/// `count` zero bytes.
pub open spec fn zeros(count: nat) -> Seq<u8> {
    Seq::new(count, |at: int| 0u8)
}

} // verus!
