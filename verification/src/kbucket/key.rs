//! Keys of the DHT keyspace and the XOR metric on them.

use vstd::prelude::*;
use sha2::{Digest, Sha256};

verus! {

/// The raw bytes of a key in the DHT keyspace: 32 bytes, the most
/// significant first.
#[derive(Clone, Copy, Debug, PartialEq, Eq, Hash)]
pub struct KeyBytes {
    pub(crate) bytes: [u8; 32],
}

impl View for KeyBytes {
    type V = Seq<u8>;

    closed spec fn view(&self) -> Seq<u8> {
        self.bytes@
    }
}

impl KeyBytes {
    /// Builds `KeyBytes` from 32 bytes, taken as they are.
    pub fn from_unchecked(bytes: [u8; 32]) -> (r: Self)
        ensures
            r@ == bytes@,
    {
        KeyBytes { bytes }
    }

    /// The 32 bytes of the key.
    pub fn to_bytes(&self) -> (r: [u8; 32])
        ensures
            r@ == self@,
    {
        self.bytes
    }

    /// Whether two keys have the same bytes.
    pub fn same_as(&self, other: &KeyBytes) -> (r: bool)
        ensures
            r == (self@ == other@),
    {
        let mut i: usize = 0;
        while i < 32
            invariant
                0 <= i <= 32,
                self@.len() == 32,
                other@.len() == 32,
                forall|j: int| 0 <= j < i ==> self@[j] == other@[j],
            decreases 32 - i,
        {
            if self.bytes[i] != other.bytes[i] {
                return false;
            }
            i += 1;
        }
        assert(self@ =~= other@);
        true
    }
}

/// A type whose values identify a position in the DHT keyspace.
///
/// Two values are the same peer (or record) exactly when their key bytes
/// are equal.
pub trait KadKey: Sized + View {
    /// The 32 key bytes of the value.
    spec fn key_view(&self) -> Seq<u8>;

    /// Borrows the key bytes.
    fn key_bytes(&self) -> (r: &KeyBytes)
        ensures
            r@ == self.key_view(),
    ;

    /// A copy of the value.
    fn clone_key(&self) -> (r: Self)
        ensures
            r@ == self@,
            r.key_view() == self.key_view(),
    ;
}

/// `a` and `b` have the same model and the same key bytes.
pub open spec fn same_key<K: KadKey>(a: K, b: K) -> bool {
    &&& a@ == b@
    &&& a.key_view() == b.key_view()
}

impl KadKey for KeyBytes {
    open spec fn key_view(&self) -> Seq<u8> {
        self@
    }

    fn key_bytes(&self) -> (r: &KeyBytes) {
        self
    }

    fn clone_key(&self) -> (r: Self) {
        *self
    }
}

/// A key of the DHT keyspace together with the bytes it was made from.
#[derive(Debug, Clone, PartialEq, Eq, Hash)]
pub struct Key {
    preimage: Vec<u8>,
    bytes: KeyBytes,
}

impl View for Key {
    type V = (Seq<u8>, Seq<u8>);

    closed spec fn view(&self) -> (Seq<u8>, Seq<u8>) {
        (self.preimage@, self.bytes@)
    }
}

impl KadKey for Key {
    closed spec fn key_view(&self) -> Seq<u8> {
        self.bytes@
    }

    fn key_bytes(&self) -> (r: &KeyBytes) {
        &self.bytes
    }

    fn clone_key(&self) -> (r: Self)
        ensures
            r.spec_preimage() == self.spec_preimage(),
    {
        let preimage = self.preimage.clone();
        proof {
            assert(preimage@ =~= self.preimage@);
        }
        Key { preimage, bytes: self.bytes }
    }
}

/// The SHA-256 digest of `data`.
pub uninterp spec fn sha256_digest(data: Seq<u8>) -> Seq<u8>;

/// Hashes `data` with `sha2::Sha256::digest`.
///
/// The result is the SHA-256 digest of the bytes, the same for the same
/// bytes; the digest itself is not computed here.
#[verifier::external_body]
pub(crate) fn sha256(data: &[u8]) -> (r: [u8; 32])
    ensures
        r@ == sha256_digest(data@),
{
    Sha256::digest(data).into()
}

/// The bytewise XOR of two sequences of bytes.
pub open spec fn xor_bytes(a: Seq<u8>, b: Seq<u8>) -> Seq<u8> {
    Seq::new(a.len(), |i: int| a[i] ^ b[i])
}

/// The value of bytes read as an unsigned integer, the most significant
/// byte first.
pub open spec fn be_value(s: Seq<u8>) -> nat
    decreases s.len(),
{
    if s.len() == 0 {
        0
    } else {
        be_value(s.drop_last()) * 256 + s.last() as nat
    }
}

/// `a` comes before `b` in lexicographic order: at the first byte where
/// they differ, `a` has the smaller one.
pub open spec fn lex_lt(a: Seq<u8>, b: Seq<u8>) -> bool {
    exists|k: int| 0 <= k < a.len() && k < b.len() && a[k] < b[k] && forall|m: int| 0 <= m < k ==> a[m] == b[m]
}

/// Bit `i` (`0` the least significant, `255` the most) of 32 bytes, the
/// most significant byte first.
pub open spec fn bit_at(s: Seq<u8>, i: int) -> bool {
    (s[31 - i / 8] >> ((i % 8) as u8)) & 1u8 == 1u8
}

/// The distance between two keys of the DHT keyspace under the XOR metric:
/// the XOR of their bytes, read as an unsigned 256-bit integer.
#[derive(Copy, Clone, Debug, PartialEq, Eq, PartialOrd, Ord)]
pub struct Distance {
    bytes: [u8; 32],
}

impl View for Distance {
    type V = Seq<u8>;

    closed spec fn view(&self) -> Seq<u8> {
        self.bytes@
    }
}

/// The 32 bytes of a key.
pub proof fn lemma_key_bytes_len(k: KeyBytes)
    ensures
        k@.len() == 32,
{
}

/// The 32 bytes of a distance.
pub proof fn lemma_distance_len(d: Distance)
    ensures
        d@.len() == 32,
{
}

impl KeyBytes {
    /// The distance to `other` under the XOR metric.
    pub fn distance<U: KadKey>(&self, other: &U) -> (r: Distance)
        ensures
            r@ == xor_bytes(self@, other.key_view()),
    {
        xor_distance(self, other.key_bytes())
    }

    /// The key whose distance to `self` is `d`: `self xor other = d` exactly
    /// when `other = self xor d`.
    pub fn for_distance(&self, d: Distance) -> (r: Self)
        ensures
            r@ == xor_bytes(self@, d@),
    {
        let x = xor_arrays(&self.bytes, &d.bytes);
        KeyBytes { bytes: x }
    }
}

/// The XOR of two arrays of 32 bytes.
fn xor_arrays(a: &[u8; 32], b: &[u8; 32]) -> (r: [u8; 32])
    ensures
        r@ == xor_bytes(a@, b@),
{
    let mut out: [u8; 32] = [0u8; 32];
    let mut i: usize = 0;
    while i < 32
        invariant
            0 <= i <= 32,
            a@.len() == 32,
            b@.len() == 32,
            out@.len() == 32,
            forall|j: int| 0 <= j < i ==> out@[j] == a@[j] ^ b@[j],
        decreases 32 - i,
    {
        out[i] = a[i] ^ b[i];
        i += 1;
    }
    assert(out@ =~= xor_bytes(a@, b@));
    out
}

/// The distance between two keys.
fn xor_distance(a: &KeyBytes, b: &KeyBytes) -> (r: Distance)
    ensures
        r@ == xor_bytes(a@, b@),
{
    Distance { bytes: xor_arrays(&a.bytes, &b.bytes) }
}

impl Distance {
    /// The distance zero.
    pub fn zero() -> (r: Self)
        ensures
            r@ == Seq::new(32, |i: int| 0u8),
    {
        let r = Distance { bytes: [0u8; 32] };
        assert(r@ =~= Seq::new(32, |i: int| 0u8));
        r
    }

    /// The distance with the given bytes, the most significant first.
    pub fn from_bytes(bytes: [u8; 32]) -> (r: Self)
        ensures
            r@ == bytes@,
    {
        Distance { bytes }
    }

    /// The bytes of the distance, the most significant first.
    pub fn to_bytes(&self) -> (r: [u8; 32])
        ensures
            r@ == self@,
    {
        self.bytes
    }

    /// Whether two distances are equal.
    pub fn same_as(&self, other: &Distance) -> (r: bool)
        ensures
            r == (self@ == other@),
    {
        let mut i: usize = 0;
        while i < 32
            invariant
                0 <= i <= 32,
                self@.len() == 32,
                other@.len() == 32,
                forall|j: int| 0 <= j < i ==> self@[j] == other@[j],
            decreases 32 - i,
        {
            if self.bytes[i] != other.bytes[i] {
                return false;
            }
            i += 1;
        }
        assert(self@ =~= other@);
        true
    }

    /// Whether `self` is smaller than `other`.
    pub fn lt(&self, other: &Distance) -> (r: bool)
        ensures
            r == lex_lt(self@, other@),
    {
        let mut i: usize = 0;
        while i < 32
            invariant
                0 <= i <= 32,
                self@.len() == 32,
                other@.len() == 32,
                forall|m: int| 0 <= m < i ==> self@[m] == other@[m],
            decreases 32 - i,
        {
            if self.bytes[i] < other.bytes[i] {
                return true;
            }
            if self.bytes[i] > other.bytes[i] {
                proof {
                    assert forall|k: int| 0 <= k < 32 && self@[k] < other@[k] implies exists|m: int| 0 <= m < k && self@[m] != other@[m] by {
                        if k < i {
                        } else if k == i {
                        } else {
                            assert(self@[i as int] != other@[i as int]);
                        }
                    }
                }
                return false;
            }
            i += 1;
        }
        false
    }

    /// Whether bit `i` (`0` the least significant) is set.
    pub fn bit(&self, i: usize) -> (r: bool)
        requires
            i < 256,
        ensures
            r == bit_at(self@, i as int),
    {
        let byte = self.bytes[31 - i / 8];
        let shift: u8 = (i % 8) as u8;
        (byte >> shift) & 1u8 == 1u8
    }

    /// The integer part of the base-2 logarithm: the index of the most
    /// significant set bit. `None` for the distance zero.
    pub fn ilog2(&self) -> (r: Option<u32>)
        ensures
            r == spec_ilog2(self@),
    {
        let mut i: usize = 256;
        while i > 0
            invariant
                0 <= i <= 256,
                self@.len() == 32,
                forall|j: int| i <= j < 256 ==> !bit_at(self@, j),
            decreases i,
        {
            if self.bit(i - 1) {
                proof {
                    lemma_highest_bit(self@, i - 1);
                }
                return Some((i - 1) as u32);
            }
            i -= 1;
        }
        proof {
            lemma_no_bit(self@);
        }
        None
    }
}

/// `i` is the most significant set bit of `s`.
pub open spec fn is_highest_bit(s: Seq<u8>, i: int) -> bool {
    &&& 0 <= i < 256
    &&& bit_at(s, i)
    &&& forall|j: int| i < j < 256 ==> !bit_at(s, j)
}

/// The index of the most significant set bit of 32 bytes, or `None` if no
/// bit is set.
pub open spec fn spec_ilog2(s: Seq<u8>) -> Option<u32> {
    if exists|i: int| is_highest_bit(s, i) {
        Some((choose|i: int| is_highest_bit(s, i)) as u32)
    } else {
        None
    }
}

/// The most significant set bit is unique.
pub proof fn lemma_highest_bit(s: Seq<u8>, i: int)
    requires
        is_highest_bit(s, i),
    ensures
        spec_ilog2(s) == Some(i as u32),
{
    let c = choose|j: int| is_highest_bit(s, j);
    assert(is_highest_bit(s, c));
    if c < i {
        assert(!bit_at(s, i));
    } else if i < c {
        assert(!bit_at(s, c));
    }
}

/// Without set bits there is no most significant one.
pub proof fn lemma_no_bit(s: Seq<u8>)
    requires
        forall|j: int| 0 <= j < 256 ==> !bit_at(s, j),
    ensures
        spec_ilog2(s) is None,
{
}

impl Key {
    /// The bytes the key was made from.
    pub closed spec fn spec_preimage(&self) -> Seq<u8> {
        self.preimage@
    }

    /// Keys with the same model have the same preimage.
    pub proof fn lemma_same_preimage(&self, other: Key)
        requires
            self@ == other@,
        ensures
            self.spec_preimage() == other.spec_preimage(),
    {
    }

    /// The key bytes of a key are 32 bytes.
    pub proof fn lemma_key_view_len(&self)
        ensures
            self.key_view().len() == 32,
    {
    }

    /// Makes a key from `preimage`: its key bytes are the SHA-256 digest of
    /// the preimage, which is kept.
    pub fn new(preimage: Vec<u8>) -> (r: Self)
        ensures
            r.spec_preimage() == preimage@,
            r.key_view() == sha256_digest(preimage@),
    {
        let digest = sha256(preimage.as_slice());
        Key { preimage, bytes: KeyBytes { bytes: digest } }
    }

    /// Borrows the preimage.
    pub fn preimage(&self) -> (r: &Vec<u8>)
        ensures
            r@ == self.spec_preimage(),
    {
        &self.preimage
    }

    /// The preimage.
    pub fn into_preimage(self) -> (r: Vec<u8>)
        ensures
            r@ == self.spec_preimage(),
    {
        self.preimage
    }

    /// The distance to `other` under the XOR metric.
    pub fn distance<U: KadKey>(&self, other: &U) -> (r: Distance)
        ensures
            r@ == xor_bytes(self.key_view(), other.key_view()),
    {
        self.bytes.distance(other)
    }

    /// The key whose distance to `self` is `d`.
    pub fn for_distance(&self, d: Distance) -> (r: KeyBytes)
        ensures
            r@ == xor_bytes(self.key_view(), d@),
    {
        self.bytes.for_distance(d)
    }

    /// A key with the given preimage and key bytes, taken as they are.
    pub fn from_unchecked(preimage: Vec<u8>, bytes: KeyBytes) -> (r: Self)
        ensures
            r.spec_preimage() == preimage@,
            r.key_view() == bytes@,
    {
        Key { preimage, bytes }
    }

    /// The key bytes.
    pub fn into_key_bytes(self) -> (r: KeyBytes)
        ensures
            r@ == self.key_view(),
    {
        self.bytes
    }
}

/// The distance of a key to itself is zero.
pub proof fn lemma_distance_identity(a: Seq<u8>)
    ensures
        forall|i: int| 0 <= i < a.len() ==> #[trigger] xor_bytes(a, a)[i] == 0u8,
        be_value(xor_bytes(a, a)) == 0,
{
    assert forall|i: int| 0 <= i < a.len() implies #[trigger] xor_bytes(a, a)[i] == 0u8 by {
        let x = a[i];
        assert(x ^ x == 0u8) by (bit_vector);
    }
    lemma_zero_value(xor_bytes(a, a));
}

/// Bytes that are all zero have the value zero.
pub proof fn lemma_zero_value(s: Seq<u8>)
    requires
        forall|i: int| 0 <= i < s.len() ==> s[i] == 0u8,
    ensures
        be_value(s) == 0,
    decreases s.len(),
{
    if s.len() > 0 {
        lemma_zero_value(s.drop_last());
    }
}

/// The distance is symmetric.
pub proof fn lemma_distance_symmetry(a: Seq<u8>, b: Seq<u8>)
    requires
        a.len() == b.len(),
    ensures
        xor_bytes(a, b) == xor_bytes(b, a),
{
    assert forall|i: int| 0 <= i < a.len() implies xor_bytes(a, b)[i] == xor_bytes(b, a)[i] by {
        let x = a[i];
        let y = b[i];
        assert(x ^ y == y ^ x) by (bit_vector);
    }
    assert(xor_bytes(a, b) =~= xor_bytes(b, a));
}

/// For a key and a distance there is exactly one other key at that
/// distance: equal distances from `a` mean equal keys.
pub proof fn lemma_distance_unidirectional(a: Seq<u8>, b: Seq<u8>, c: Seq<u8>)
    requires
        a.len() == b.len(),
        a.len() == c.len(),
        xor_bytes(a, b) == xor_bytes(a, c),
    ensures
        b == c,
{
    assert forall|i: int| 0 <= i < a.len() implies b[i] == c[i] by {
        let x = a[i];
        let y = b[i];
        let z = c[i];
        assert(xor_bytes(a, b)[i] == xor_bytes(a, c)[i]);
        assert(xor_bytes(a, b)[i] == x ^ y);
        assert(xor_bytes(a, c)[i] == x ^ z);
        assert(x ^ y == x ^ z ==> y == z) by (bit_vector);
    }
    assert(b =~= c);
}

/// `for_distance` inverts `distance`: the key at distance `d` from `a` is at
/// distance `d` from `a`.
pub proof fn lemma_for_distance(a: Seq<u8>, d: Seq<u8>)
    requires
        a.len() == d.len(),
    ensures
        xor_bytes(a, xor_bytes(a, d)) == d,
{
    assert forall|i: int| 0 <= i < a.len() implies xor_bytes(a, xor_bytes(a, d))[i] == d[i] by {
        let x = a[i];
        let y = d[i];
        assert(x ^ (x ^ y) == y) by (bit_vector);
    }
    assert(xor_bytes(a, xor_bytes(a, d)) =~= d);
}

/// The XOR of two values is at most their sum.
pub proof fn lemma_xor_value_le_sum(x: Seq<u8>, y: Seq<u8>)
    requires
        x.len() == y.len(),
    ensures
        be_value(xor_bytes(x, y)) <= be_value(x) + be_value(y),
    decreases x.len(),
{
    if x.len() > 0 {
        let z = xor_bytes(x, y);
        assert(z.drop_last() =~= xor_bytes(x.drop_last(), y.drop_last()));
        lemma_xor_value_le_sum(x.drop_last(), y.drop_last());
        let a = x.last();
        let b = y.last();
        assert(a ^ b <= a + b) by (bit_vector);
        assert(z.last() == a ^ b);
    }
}

/// The distance obeys the triangle inequality.
pub proof fn lemma_triangle_inequality(a: Seq<u8>, b: Seq<u8>, c: Seq<u8>)
    requires
        a.len() == b.len(),
        a.len() == c.len(),
    ensures
        be_value(xor_bytes(a, c)) <= be_value(xor_bytes(a, b)) + be_value(xor_bytes(b, c)),
{
    let ab = xor_bytes(a, b);
    let bc = xor_bytes(b, c);
    assert forall|i: int| 0 <= i < a.len() implies xor_bytes(ab, bc)[i] == xor_bytes(a, c)[i] by {
        let x = a[i];
        let y = b[i];
        let z = c[i];
        assert((x ^ y) ^ (y ^ z) == x ^ z) by (bit_vector);
    }
    assert(xor_bytes(ab, bc) =~= xor_bytes(a, c));
    lemma_xor_value_le_sum(ab, bc);
}

/// The value of bytes is below `256` to the power of their number.
pub proof fn lemma_value_bound(s: Seq<u8>)
    ensures
        be_value(s) < vstd::arithmetic::power::pow(256, s.len()),
    decreases s.len(),
{
    vstd::arithmetic::power::lemma_pow_positive(256, s.len());
    if s.len() > 0 {
        lemma_value_bound(s.drop_last());
        vstd::arithmetic::power::lemma_pow_adds(256, (s.len() - 1) as nat, 1);
        vstd::arithmetic::power::lemma_pow1(256);
    }
}

/// Lexicographic order on bytes of equal length is the order of their
/// values: `Distance::lt` compares distances as integers.
pub proof fn lemma_lex_lt_value(a: Seq<u8>, b: Seq<u8>)
    requires
        a.len() == b.len(),
        lex_lt(a, b),
    ensures
        be_value(a) < be_value(b),
    decreases a.len(),
{
    let n = a.len() - 1;
    let a1 = a.drop_last();
    let b1 = b.drop_last();
    let k = choose|k: int| 0 <= k < a.len() && k < b.len() && a[k] < b[k] && forall|m: int| 0 <= m < k ==> a[m] == b[m];
    if k == n {
        assert(a1 =~= b1);
    } else {
        assert(a1[k] < b1[k]);
        assert(forall|m: int| 0 <= m < k ==> a1[m] == b1[m]);
        assert(lex_lt(a1, b1));
        lemma_lex_lt_value(a1, b1);
        assert(be_value(a) == be_value(a1) * 256 + a[n] as nat);
        assert(be_value(b) == be_value(b1) * 256 + b[n] as nat);
    }
}

/// Bytes of equal length of which neither comes first are equal: the
/// lexicographic order is total.
pub proof fn lemma_lex_total(a: Seq<u8>, b: Seq<u8>)
    requires
        a.len() == b.len(),
        !lex_lt(a, b),
        !lex_lt(b, a),
    ensures
        a == b,
{
    assert forall|i: int| 0 <= i < a.len() implies a[i] == b[i] by {
        if a[i] != b[i] {
            lemma_first_difference(a, b, i);
        }
    }
    assert(a =~= b);
}

/// Two sequences that differ somewhere have a first difference, at which
/// one of them comes first.
proof fn lemma_first_difference(a: Seq<u8>, b: Seq<u8>, i: int)
    requires
        a.len() == b.len(),
        0 <= i < a.len(),
        a[i] != b[i],
    ensures
        lex_lt(a, b) || lex_lt(b, a),
    decreases i,
{
    if exists|j: int| 0 <= j < i && a[j] != b[j] {
        let j = choose|j: int| 0 <= j < i && a[j] != b[j];
        lemma_first_difference(a, b, j);
    } else {
        if a[i] < b[i] {
            assert(lex_lt(a, b));
        } else {
            assert(lex_lt(b, a));
        }
    }
}

} // verus!
