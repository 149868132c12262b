//! Byte encodings of integers and the hash functions the collections use.
use std::collections::hash_map::DefaultHasher;
use std::hash::Hasher;

use byteorder::{BigEndian, ByteOrder, LittleEndian};
use bytehash::{Blake2b, ByteHash, State, Wrapped};
use vstd::prelude::*;

verus! {

/// The big-endian bytes of `n`.
pub open spec fn u64_be(n: u64) -> Seq<u8> {
    seq![
        (n >> 56u64) as u8,
        (n >> 48u64) as u8,
        (n >> 40u64) as u8,
        (n >> 32u64) as u8,
        (n >> 24u64) as u8,
        (n >> 16u64) as u8,
        (n >> 8u64) as u8,
        n as u8,
    ]
}

/// The little-endian bytes of `n`.
pub open spec fn u64_le(n: u64) -> Seq<u8> {
    seq![
        n as u8,
        (n >> 8u64) as u8,
        (n >> 16u64) as u8,
        (n >> 24u64) as u8,
        (n >> 32u64) as u8,
        (n >> 40u64) as u8,
        (n >> 48u64) as u8,
        (n >> 56u64) as u8,
    ]
}

/// The big-endian bytes of `n`.
pub open spec fn u32_be(n: u32) -> Seq<u8> {
    seq![(n >> 24u32) as u8, (n >> 16u32) as u8, (n >> 8u32) as u8, n as u8]
}

/// The big-endian bytes of `n`.
pub open spec fn u16_be(n: u16) -> Seq<u8> {
    seq![(n >> 8u16) as u8, n as u8]
}

/// Distinct numbers have distinct big-endian bytes.
pub proof fn lemma_u64_be_injective(a: u64, b: u64)
    requires
        u64_be(a) == u64_be(b),
    ensures
        a == b,
{
    assert(u64_be(a)[0] == u64_be(b)[0]);
    assert(u64_be(a)[1] == u64_be(b)[1]);
    assert(u64_be(a)[2] == u64_be(b)[2]);
    assert(u64_be(a)[3] == u64_be(b)[3]);
    assert(u64_be(a)[4] == u64_be(b)[4]);
    assert(u64_be(a)[5] == u64_be(b)[5]);
    assert(u64_be(a)[6] == u64_be(b)[6]);
    assert(u64_be(a)[7] == u64_be(b)[7]);
    assert(((a >> 56u64) as u8 == (b >> 56u64) as u8 && (a >> 48u64) as u8 == (b >> 48u64) as u8
        && (a >> 40u64) as u8 == (b >> 40u64) as u8 && (a >> 32u64) as u8 == (b >> 32u64) as u8
        && (a >> 24u64) as u8 == (b >> 24u64) as u8 && (a >> 16u64) as u8 == (b >> 16u64) as u8
        && (a >> 8u64) as u8 == (b >> 8u64) as u8 && a as u8 == b as u8) ==> a == b) by (bit_vector);
}

/// Distinct numbers have distinct big-endian bytes.
pub proof fn lemma_u32_be_injective(a: u32, b: u32)
    requires
        u32_be(a) == u32_be(b),
    ensures
        a == b,
{
    assert(u32_be(a)[0] == u32_be(b)[0]);
    assert(u32_be(a)[1] == u32_be(b)[1]);
    assert(u32_be(a)[2] == u32_be(b)[2]);
    assert(u32_be(a)[3] == u32_be(b)[3]);
    assert(((a >> 24u32) as u8 == (b >> 24u32) as u8 && (a >> 16u32) as u8 == (b >> 16u32) as u8
        && (a >> 8u32) as u8 == (b >> 8u32) as u8 && a as u8 == b as u8) ==> a == b) by (bit_vector);
}

/// Distinct numbers have distinct big-endian bytes.
pub proof fn lemma_u16_be_injective(a: u16, b: u16)
    requires
        u16_be(a) == u16_be(b),
    ensures
        a == b,
{
    assert(u16_be(a)[0] == u16_be(b)[0]);
    assert(u16_be(a)[1] == u16_be(b)[1]);
    assert(((a >> 8u16) as u8 == (b >> 8u16) as u8 && a as u8 == b as u8) ==> a == b) by (bit_vector);
}

/// Writes `n` big-endian into a fresh 2-byte array.
///
/// Calls `byteorder::BigEndian::write_u16`, which writes the two big-endian
/// bytes of `n` to the start of the buffer.
#[verifier::external_body]
pub(crate) fn write_u16_be(n: u16) -> (r: [u8; 2])
    ensures
        r@ == u16_be(n),
{
    let mut buf = [0u8; 2];
    BigEndian::write_u16(&mut buf, n);
    buf
}

/// Writes `n` big-endian into a fresh 4-byte array.
///
/// Calls `byteorder::BigEndian::write_u32`, which writes the four big-endian
/// bytes of `n` to the start of the buffer.
#[verifier::external_body]
pub(crate) fn write_u32_be(n: u32) -> (r: [u8; 4])
    ensures
        r@ == u32_be(n),
{
    let mut buf = [0u8; 4];
    BigEndian::write_u32(&mut buf, n);
    buf
}

/// Reads a big-endian `u16` from the first two bytes of `buf`.
///
/// Calls `byteorder::BigEndian::read_u16`, which reads the number whose
/// big-endian bytes start the buffer and panics on a shorter buffer.
#[verifier::external_body]
pub(crate) fn read_u16_be(buf: &[u8]) -> (r: u16)
    requires
        buf@.len() >= 2,
    ensures
        u16_be(r) == buf@.take(2),
{
    BigEndian::read_u16(buf)
}

/// Reads a big-endian `u32` from the first four bytes of `buf`.
///
/// Calls `byteorder::BigEndian::read_u32`, which reads the number whose
/// big-endian bytes start the buffer and panics on a shorter buffer.
#[verifier::external_body]
pub(crate) fn read_u32_be(buf: &[u8]) -> (r: u32)
    requires
        buf@.len() >= 4,
    ensures
        u32_be(r) == buf@.take(4),
{
    BigEndian::read_u32(buf)
}

/// Reads a big-endian `u64` from the first eight bytes of `buf`.
///
/// Calls `byteorder::BigEndian::read_u64`, which reads the number whose
/// big-endian bytes start the buffer and panics on a shorter buffer.
#[verifier::external_body]
pub(crate) fn read_u64_be(buf: &[u8]) -> (r: u64)
    requires
        buf@.len() >= 8,
    ensures
        u64_be(r) == buf@.take(8),
{
    BigEndian::read_u64(buf)
}

/// The 32-byte Blake2b digest of `bytes`.
pub uninterp spec fn blake2b_digest(bytes: Seq<u8>) -> Seq<u8>;

/// Hashes `bytes` with Blake2b through `bytehash`.
///
/// Calls `Blake2b::state`, `Hasher::write` and `State::fin`: the contract
/// names the digest as a function of the bytes written, and says nothing
/// more of it.
#[verifier::external_body]
pub(crate) fn blake2b_hash(bytes: &[u8]) -> (r: [u8; 32])
    ensures
        r@ == blake2b_digest(bytes@),
{
    let mut state = Blake2b::state();
    state.write(bytes);
    state.fin()
}

/// Writes `n` big-endian into a fresh 8-byte array.
///
/// Calls `byteorder::BigEndian::write_u64`, which the crate documents as
/// writing the eight big-endian bytes of `n` to the start of the buffer.
#[verifier::external_body]
pub(crate) fn write_u64_be(n: u64) -> (r: [u8; 8])
    ensures
        r@ == u64_be(n),
{
    let mut buf = [0u8; 8];
    BigEndian::write_u64(&mut buf, n);
    buf
}

/// Writes `n` little-endian into a fresh 8-byte array.
///
/// Calls `byteorder::LittleEndian::write_u64`, which the crate documents as
/// writing the eight little-endian bytes of `n` to the start of the buffer.
#[verifier::external_body]
pub(crate) fn write_u64_le(n: u64) -> (r: [u8; 8])
    ensures
        r@ == u64_le(n),
{
    let mut buf = [0u8; 8];
    LittleEndian::write_u64(&mut buf, n);
    buf
}

/// The digest that `DefaultHasher` (SipHash with fixed keys) computes over
/// `bytes`, written big-endian.
pub uninterp spec fn sip_digest(bytes: Seq<u8>) -> Seq<u8>;

/// Hashes `bytes` with `DefaultHasher` through `bytehash::Wrapped`.
///
/// Calls `Wrapped::<DefaultHasher>::state`, `Hasher::write` and `State::fin`:
/// the contract only names the digest as a function of the bytes written.
#[verifier::external_body]
pub(crate) fn sip_hash(bytes: &[u8]) -> (r: [u8; 8])
    ensures
        r@ == sip_digest(bytes@),
{
    let mut state = Wrapped::<DefaultHasher>::state();
    state.write(bytes);
    state.fin()
}

/// The hash under which a `u64` key is placed in the hash tries: the
/// `DefaultHasher` digest of the key's bytes in the order in which `Hash`
/// feeds them to the hasher on a little-endian machine.
pub open spec fn key_digest(k: u64) -> Seq<u8> {
    sip_digest(u64_le(k))
}

/// Computes `key_digest(k)`.
pub fn key_hash(k: u64) -> (r: [u8; 8])
    ensures
        r@ == key_digest(k),
{
    let bytes = write_u64_le(k);
    sip_hash(&bytes)
}

} // verus!
