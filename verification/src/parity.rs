//! Namespaces: four-byte identifiers under the XOR metric.

use vstd::prelude::*;
use vstd::std_specs::bits::u32_leading_zeros;

verus! {

/// A namespace: four bytes, compared under the XOR metric of their
/// big-endian value.
#[derive(Debug, Copy, Clone, PartialEq, Eq)]
pub struct Namespace(pub [u8; 4]);

/// The value of four bytes read as a big-endian unsigned integer.
pub open spec fn be_u32(b: Seq<u8>) -> int {
    b[0] * 16777216 + b[1] * 65536 + b[2] * 256 + b[3]
}

/// Reads four bytes as a big-endian `u32` with
/// `byteorder::BigEndian::read_u32`.
///
/// The result is the big-endian value of the bytes, as byteorder
/// documents (it is `u32::from_be_bytes` of them).
#[verifier::external_body]
fn read_u32_be(buf: &[u8; 4]) -> (r: u32)
    ensures
        r as int == be_u32(buf@),
{
    <byteorder::BigEndian as byteorder::ByteOrder>::read_u32(buf)
}

impl Namespace {
    /// The namespace of one byte, padded with zeros.
    pub fn from_one(bytes: [u8; 1]) -> (r: Namespace)
        ensures
            r.0@ == seq![bytes@[0], 0u8, 0u8, 0u8],
    {
        let r = Namespace([bytes[0], 0, 0, 0]);
        assert(r.0@ =~= seq![bytes@[0], 0u8, 0u8, 0u8]);
        r
    }

    /// The namespace of two bytes, padded with zeros.
    pub fn from_two(bytes: [u8; 2]) -> (r: Namespace)
        ensures
            r.0@ == seq![bytes@[0], bytes@[1], 0u8, 0u8],
    {
        let r = Namespace([bytes[0], bytes[1], 0, 0]);
        assert(r.0@ =~= seq![bytes@[0], bytes@[1], 0u8, 0u8]);
        r
    }

    /// The namespace of three bytes, padded with a zero.
    pub fn from_three(bytes: [u8; 3]) -> (r: Namespace)
        ensures
            r.0@ == seq![bytes@[0], bytes@[1], bytes@[2], 0u8],
    {
        let r = Namespace([bytes[0], bytes[1], bytes[2], 0]);
        assert(r.0@ =~= seq![bytes@[0], bytes@[1], bytes@[2], 0u8]);
        r
    }

    /// The namespace of four bytes.
    pub fn from_four(bytes: [u8; 4]) -> (r: Namespace)
        ensures
            r.0@ == bytes@,
    {
        Namespace(bytes)
    }

    /// The distance to `other`: the number of significant bits of the XOR
    /// of their big-endian values.
    pub fn distance_with(&self, other: &Self) -> (r: u32)
        ensures
            r == 32 - u32_leading_zeros(((be_u32(self.0@) as u32) ^ (be_u32(other.0@) as u32)) as u32),
    {
        broadcast use vstd::std_specs::bits::axiom_u32_leading_zeros;
        let my_val = read_u32_be(&self.0);
        let other_val = read_u32_be(&other.0);
        let xor = my_val ^ other_val;
        32 - xor.leading_zeros()
    }

    /// The largest distance between two namespaces.
    pub fn max_distance() -> (r: usize)
        ensures
            r == 32,
    {
        32
    }
}

/// A namespace is at distance zero from itself, and the distance is
/// symmetric.
pub proof fn lemma_namespace_distance(a: Namespace, b: Namespace)
    ensures
        32 - u32_leading_zeros(((be_u32(a.0@) as u32) ^ (be_u32(a.0@) as u32)) as u32) == 0,
        u32_leading_zeros(((be_u32(a.0@) as u32) ^ (be_u32(b.0@) as u32)) as u32)
            == u32_leading_zeros(((be_u32(b.0@) as u32) ^ (be_u32(a.0@) as u32)) as u32),
{
    broadcast use vstd::std_specs::bits::axiom_u32_leading_zeros;
    let x = be_u32(a.0@) as u32;
    let y = be_u32(b.0@) as u32;
    assert(x ^ x == 0) by (bit_vector);
    assert(x ^ y == y ^ x) by (bit_vector);
}

/// A signature of a peer record: 64 bytes.
#[derive(Debug, Copy, Clone, PartialEq, Eq)]
pub struct KadSignature(pub [u8; 64]);

/// The listening side of the namespaced protocol: it holds nothing.
#[derive(Debug, Copy, Clone, PartialEq, Eq)]
pub struct KadListen {}

} // verus!
