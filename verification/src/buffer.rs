//! Appending to a byte buffer, and the big-endian form of a 64-bit integer.

use bytes::BufMut;
use vstd::prelude::*;

verus! {

/// The eight bytes of `v`, most significant first.
pub open spec fn be_u64(v: u64) -> Seq<u8> {
    seq![
        (v >> 56) as u8,
        (v >> 48) as u8,
        (v >> 40) as u8,
        (v >> 32) as u8,
        (v >> 24) as u8,
        (v >> 16) as u8,
        (v >> 8) as u8,
        v as u8,
    ]
}

/// The integer whose big-endian form is the first eight bytes of `b`.
pub open spec fn u64_of_be(b: Seq<u8>) -> u64
    recommends
        b.len() >= 8,
{
    (b[0] as u64) << 56 | (b[1] as u64) << 48 | (b[2] as u64) << 40 | (b[3] as u64) << 32 | (
    b[4] as u64) << 24 | (b[5] as u64) << 16 | (b[6] as u64) << 8 | (b[7] as u64)
}

/// Decoding undoes encoding.
pub proof fn lemma_be_u64_round_trip(v: u64)
    ensures
        be_u64(v).len() == 8,
        u64_of_be(be_u64(v)) == v,
{
    let b = be_u64(v);
    assert(((v >> 56) as u8 as u64) << 56 | ((v >> 48) as u8 as u64) << 48 | ((v >> 40) as u8 as u64)
        << 40 | ((v >> 32) as u8 as u64) << 32 | ((v >> 24) as u8 as u64) << 24 | ((v >> 16) as u8 as u64)
        << 16 | ((v >> 8) as u8 as u64) << 8 | (v as u8 as u64) == v) by (bit_vector);
}

/// Encoding undoes decoding.
pub proof fn lemma_u64_of_be_round_trip(b: Seq<u8>)
    requires
        b.len() == 8,
    ensures
        be_u64(u64_of_be(b)) == b,
{
    let (b0, b1, b2, b3, b4, b5, b6, b7) = (b[0], b[1], b[2], b[3], b[4], b[5], b[6], b[7]);
    let v = u64_of_be(b);
    assert({
        let v = (b0 as u64) << 56 | (b1 as u64) << 48 | (b2 as u64) << 40 | (b3 as u64) << 32 | (
        b4 as u64) << 24 | (b5 as u64) << 16 | (b6 as u64) << 8 | (b7 as u64);
        &&& (v >> 56) as u8 == b0
        &&& (v >> 48) as u8 == b1
        &&& (v >> 40) as u8 == b2
        &&& (v >> 32) as u8 == b3
        &&& (v >> 24) as u8 == b4
        &&& (v >> 16) as u8 == b5
        &&& (v >> 8) as u8 == b6
        &&& v as u8 == b7
    }) by (bit_vector);
    assert(be_u64(v) =~= b);
}

/// Reads a big-endian 64-bit integer at `at`.
pub fn read_u64(bytes: &[u8], at: usize) -> (v: u64)
    requires
        at + 8 <= bytes.len(),
    ensures
        v == u64_of_be(bytes@.subrange(at as int, at + 8)),
{
    let v = (bytes[at] as u64) << 56 | (bytes[at + 1] as u64) << 48 | (bytes[at + 2] as u64) << 40 | (
    bytes[at + 3] as u64) << 32 | (bytes[at + 4] as u64) << 24 | (bytes[at + 5] as u64) << 16 | (
    bytes[at + 6] as u64) << 8 | (bytes[at + 7] as u64);
    v
}

/// Calls `BufMut::put_slice` on a vector, which appends the bytes of `src`.
/// A vector has no fixed capacity: the call fails only where the vector
/// itself cannot grow.
#[verifier::external_body]
pub(crate) fn put_slice(buf: &mut Vec<u8>, src: &[u8])
    ensures
        final(buf)@ == old(buf)@ + src@,
{
    buf.put_slice(src)
}

/// Calls `BufMut::put_u64` on a vector, which appends the eight bytes of
/// `n` in big-endian order.
#[verifier::external_body]
pub(crate) fn put_u64(buf: &mut Vec<u8>, n: u64)
    ensures
        final(buf)@ == old(buf)@ + be_u64(n),
{
    buf.put_u64(n)
}

/// Calls `BufMut::put_u8` on a vector, which appends the byte `n`.
#[verifier::external_body]
pub(crate) fn put_u8(buf: &mut Vec<u8>, n: u8)
    ensures
        final(buf)@ == old(buf)@.push(n),
{
    buf.put_u8(n)
}

} // verus!
