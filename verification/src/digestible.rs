//! Defines a trait [`Digestible`] which can be hashed via [`Digest`] functions.
use std::marker::PhantomData;
use vstd::std_specs::cmp::{PartialEqSpec, PartialEqSpecImpl};
use vstd::prelude::*;

verus! {

/// A hash function that takes its input piece by piece.
pub trait Digest: Sized {
    /// The input that was taken so far. An implementation inside Verus states it; the default, one fixed byte
    /// string of which nothing is known, serves implementations outside, whose contracts Verus does not check.
    closed spec fn absorbed(&self) -> Seq<u8> {
        arbitrary()
    }

    /// The hash of an input. An implementation inside Verus states it; the default, one fixed byte string of which
    /// nothing is known, serves implementations outside, whose contracts Verus does not check.
    closed spec fn hash(input: Seq<u8>) -> Seq<u8> {
        arbitrary()
    }

    /// Create a hasher that has taken no input.
    fn new() -> (hasher: Self)
        ensures
            hasher.absorbed() == Seq::<u8>::empty(),
    ;

    /// Take the next piece of the input.
    fn update(&mut self, data: &[u8])
        ensures
            final(self).absorbed() == old(self).absorbed() + data@,
    ;

    /// Return the hash of the whole input.
    fn finalize(self) -> (out: Vec<u8>)
        ensures
            out@ == Self::hash(self.absorbed()),
    ;
}

/// Given a [`Digest`]-compatible hash, return the hash of the empty byte string.
pub fn empty_hash<H: Digest>() -> (out: Vec<u8>)
    ensures
        out@ == H::hash(Seq::empty()),
{
    H::new().finalize()
}

/// Type that can serialized for use in a cryptographic [`Digest`].
pub trait Digestible {
    /// The bytes that stand for this value. An implementation inside Verus states them; the default, one fixed byte
    /// string of which nothing is known, serves implementations outside, whose contracts Verus does not check.
    closed spec fn encoding(&self) -> Seq<u8> {
        arbitrary()
    }

    /// Serialize self and update hasher.
    fn update_hasher<D: Digest>(&self, hasher: &mut D)
        ensures
            final(hasher).absorbed() == old(hasher).absorbed() + self.encoding(),
    ;
}

/// The digest of a leaf. The key and the value are hashed each on its own, so that both can be told from what is
/// hashed for the leaf.
pub open spec fn leaf_digest<H: Digest>(key: Seq<u8>, encoding: Seq<u8>) -> Seq<u8> {
    H::hash(H::hash(key) + H::hash(encoding))
}

/// Return the digest of a leaf.
pub fn hash_leaf<T: Digestible, H: Digest>(key: &[u8], value: &T) -> (out: Vec<u8>)
    ensures
        out@ == leaf_digest::<H>(key@, value.encoding()),
{
    let mut key_hasher: H = H::new();
    key_hasher.update(key);
    assert(key_hasher.absorbed() =~= key@);
    let mut value_hasher: H = H::new();
    value.update_hasher(&mut value_hasher);
    assert(value_hasher.absorbed() =~= value.encoding());
    let mut hasher: H = H::new();
    hasher.update(key_hasher.finalize().as_slice());
    hasher.update(value_hasher.finalize().as_slice());
    assert(hasher.absorbed() =~= H::hash(key@) + H::hash(value.encoding()));
    hasher.finalize()
}

// ---------------------------------------------------------------------------
// SHA-256
// ---------------------------------------------------------------------------

/// The SHA-256 hash of a byte string.
pub uninterp spec fn sha256_digest(data: Seq<u8>) -> Seq<u8>;

/// Calls `digest::Digest::digest` of [`sha2::Sha256`], which hashes the byte string it is given in one
/// step. The contract says that the hash is a function of the byte string and has 32 bytes; it does not say
/// which function. The length of the byte string in bits is one that 64 bits can express, as no memory holds
/// a longer one.
#[verifier::external_body]
fn sha256(data: &[u8]) -> (out: Vec<u8>)
    ensures
        out@ == sha256_digest(data@),
        out@.len() == 32,
{
    <sha2::Sha256 as digest::Digest>::digest(data).to_vec()
}

/// The SHA-256 hash function. The input is collected and hashed in the end.
pub struct Sha256 {
    pending: Vec<u8>,
}

impl Digest for Sha256 {
    closed spec fn absorbed(&self) -> Seq<u8> {
        self.pending@
    }

    open spec fn hash(input: Seq<u8>) -> Seq<u8> {
        sha256_digest(input)
    }

    fn new() -> (hasher: Self) {
        Sha256 { pending: Vec::new() }
    }

    fn update(&mut self, data: &[u8]) {
        self.pending.extend_from_slice(data);
        assert(self.absorbed() =~= old(self).absorbed() + data@);
    }

    fn finalize(self) -> (out: Vec<u8>) {
        sha256(self.pending.as_slice())
    }
}

// ---------------------------------------------------------------------------
// Values that stand for others
// ---------------------------------------------------------------------------

/// A value that is known by its digest only.
pub struct HashWitnessValue<H: Digest> {
    /// the digest
    pub digest: Vec<u8>,
    /// zero-sized type that exists to record the hash algorithm
    pub _phantom: PhantomData<H>,
}

impl<H: Digest> HashWitnessValue<H> {
    /// Stand for a value that has the given digest
    pub fn new(digest: Vec<u8>) -> (value: Self)
        ensures
            value.digest == digest,
    {
        HashWitnessValue { digest, _phantom: PhantomData }
    }
}

impl<H: Digest> Digestible for HashWitnessValue<H> {
    open spec fn encoding(&self) -> Seq<u8> {
        self.digest@
    }

    fn update_hasher<D: Digest>(&self, hasher: &mut D) {
        hasher.update(self.digest.as_slice());
    }
}

// ---------------------------------------------------------------------------
// Numbers
// ---------------------------------------------------------------------------

/// The `n` lowest bytes of a number, the lowest one first.
pub open spec fn le_bytes(v: nat, n: nat) -> Seq<u8>
    decreases n,
{
    if n == 0 {
        Seq::empty()
    } else {
        seq![(v % 256) as u8] + le_bytes(v / 256, (n - 1) as nat)
    }
}

/// Return the `n` lowest bytes of a number, the lowest one first.
fn to_le_bytes(v: u128, n: usize) -> (out: Vec<u8>)
    ensures
        out@ == le_bytes(v as nat, n as nat),
{
    let mut out: Vec<u8> = Vec::new();
    let mut left: u128 = v;
    let mut i: usize = 0;
    while i < n
        invariant
            i <= n,
            out@ + le_bytes(left as nat, (n - i) as nat) == le_bytes(v as nat, n as nat),
        decreases n - i,
    {
        proof {
            assert(le_bytes(left as nat, (n - i) as nat) == seq![(left as nat % 256) as u8] + le_bytes(
                left as nat / 256,
                (n - i - 1) as nat,
            ));
            assert(out@ + (seq![(left as nat % 256) as u8] + le_bytes(left as nat / 256, (n - i - 1) as nat))
                =~= out@.push((left % 256) as u8) + le_bytes((left / 256) as nat, (n - i - 1) as nat));
        }
        out.push((left % 256) as u8);
        left = left / 256;
        i += 1;
    }
    assert(out@ + le_bytes(left as nat, 0) =~= out@);
    out
}

/// Wrapper type for [`Digestible`] impls of plain values.
///
/// NOTE: This is used because we do not want to commit users of this
///       crate to our particular digest implementations.
pub struct W<T>(pub T);

impl<T: std::fmt::Debug> std::fmt::Debug for W<T> {
    /// Calls `std::fmt::Debug::fmt` of the wrapped value, which writes the value to where the formatter writes. Nothing
    /// is claimed of the result: it is what that call returns, and whether it fails depends on where the text goes.
    #[verifier::external_body]
    fn fmt(&self, f: &mut std::fmt::Formatter<'_>) -> std::fmt::Result {
        self.0.fmt(f)
    }
}

impl<T: Clone> Clone for W<T> {
    fn clone(&self) -> (copy: Self)
        ensures
            cloned(self.0, copy.0),
    {
        W(self.0.clone())
    }
}

impl<T: PartialEq> PartialEq for W<T> {
    fn eq(&self, other: &Self) -> (same: bool) {
        self.0 == other.0
    }
}

impl<T: PartialEq> PartialEqSpecImpl for W<T> {
    open spec fn obeys_eq_spec() -> bool {
        T::obeys_eq_spec()
    }

    open spec fn eq_spec(&self, other: &Self) -> bool {
        self.0.eq_spec(&other.0)
    }
}

impl<T: Eq> Eq for W<T> {

}

impl Digestible for W<u8> {
    open spec fn encoding(&self) -> Seq<u8> {
        le_bytes(self.0 as nat, 1)
    }

    fn update_hasher<D: Digest>(&self, hasher: &mut D) {
        hasher.update(to_le_bytes(self.0 as u128, 1).as_slice());
    }
}

impl Digestible for W<u16> {
    open spec fn encoding(&self) -> Seq<u8> {
        le_bytes(self.0 as nat, 2)
    }

    fn update_hasher<D: Digest>(&self, hasher: &mut D) {
        hasher.update(to_le_bytes(self.0 as u128, 2).as_slice());
    }
}

impl Digestible for W<u32> {
    open spec fn encoding(&self) -> Seq<u8> {
        le_bytes(self.0 as nat, 4)
    }

    fn update_hasher<D: Digest>(&self, hasher: &mut D) {
        hasher.update(to_le_bytes(self.0 as u128, 4).as_slice());
    }
}

impl Digestible for W<u64> {
    open spec fn encoding(&self) -> Seq<u8> {
        le_bytes(self.0 as nat, 8)
    }

    fn update_hasher<D: Digest>(&self, hasher: &mut D) {
        hasher.update(to_le_bytes(self.0 as u128, 8).as_slice());
    }
}

impl Digestible for W<u128> {
    open spec fn encoding(&self) -> Seq<u8> {
        le_bytes(self.0 as nat, 16)
    }

    fn update_hasher<D: Digest>(&self, hasher: &mut D) {
        hasher.update(to_le_bytes(self.0, 16).as_slice());
    }
}

impl Digestible for W<i8> {
    open spec fn encoding(&self) -> Seq<u8> {
        le_bytes(self.0 as u8 as nat, 1)
    }

    fn update_hasher<D: Digest>(&self, hasher: &mut D) {
        hasher.update(to_le_bytes(self.0 as u8 as u128, 1).as_slice());
    }
}

impl Digestible for W<i16> {
    open spec fn encoding(&self) -> Seq<u8> {
        le_bytes(self.0 as u16 as nat, 2)
    }

    fn update_hasher<D: Digest>(&self, hasher: &mut D) {
        hasher.update(to_le_bytes(self.0 as u16 as u128, 2).as_slice());
    }
}

impl Digestible for W<i32> {
    open spec fn encoding(&self) -> Seq<u8> {
        le_bytes(self.0 as u32 as nat, 4)
    }

    fn update_hasher<D: Digest>(&self, hasher: &mut D) {
        hasher.update(to_le_bytes(self.0 as u32 as u128, 4).as_slice());
    }
}

impl Digestible for W<i64> {
    open spec fn encoding(&self) -> Seq<u8> {
        le_bytes(self.0 as u64 as nat, 8)
    }

    fn update_hasher<D: Digest>(&self, hasher: &mut D) {
        hasher.update(to_le_bytes(self.0 as u64 as u128, 8).as_slice());
    }
}

impl Digestible for W<i128> {
    open spec fn encoding(&self) -> Seq<u8> {
        le_bytes(self.0 as u128 as nat, 16)
    }

    fn update_hasher<D: Digest>(&self, hasher: &mut D) {
        hasher.update(to_le_bytes(self.0 as u128, 16).as_slice());
    }
}

impl Digestible for W<usize> {
    open spec fn encoding(&self) -> Seq<u8> {
        le_bytes(self.0 as nat, (usize::BITS / 8) as nat)
    }

    fn update_hasher<D: Digest>(&self, hasher: &mut D) {
        hasher.update(to_le_bytes(self.0 as u128, (usize::BITS / 8) as usize).as_slice());
    }
}

impl Digestible for W<isize> {
    open spec fn encoding(&self) -> Seq<u8> {
        le_bytes(self.0 as usize as nat, (usize::BITS / 8) as nat)
    }

    fn update_hasher<D: Digest>(&self, hasher: &mut D) {
        hasher.update(to_le_bytes(self.0 as usize as u128, (usize::BITS / 8) as usize).as_slice());
    }
}

impl Digestible for W<bool> {
    open spec fn encoding(&self) -> Seq<u8> {
        seq![if self.0 { 1u8 } else { 0u8 }]
    }

    fn update_hasher<D: Digest>(&self, hasher: &mut D) {
        let byte: u8 = if self.0 {
            1
        } else {
            0
        };
        proof {
            reveal_with_fuel(le_bytes, 2);
            assert(le_bytes(byte as nat, 1) =~= seq![byte]);
        }
        W(byte).update_hasher(hasher);
    }
}

// ---------------------------------------------------------------------------
// What encodings tell
// ---------------------------------------------------------------------------

/// The number that bytes spell, the lowest one first.
pub open spec fn le_value(bytes: Seq<u8>) -> nat
    decreases bytes.len(),
{
    if bytes.len() == 0 {
        0
    } else {
        bytes[0] as nat + 256 * le_value(bytes.skip(1))
    }
}

/// How many numbers `n` bytes can spell.
pub open spec fn byte_range(n: nat) -> nat
    decreases n,
{
    if n == 0 {
        1
    } else {
        256 * byte_range((n - 1) as nat)
    }
}

/// The lowest bytes of a number spell it, if there are enough of them.
proof fn lemma_le_value(v: nat, n: nat)
    requires
        v < byte_range(n),
    ensures
        le_bytes(v, n).len() == n,
        le_value(le_bytes(v, n)) == v,
    decreases n,
{
    if n > 0 {
        lemma_le_value(v / 256, (n - 1) as nat);
        let bytes = le_bytes(v, n);
        assert(bytes.skip(1) =~= le_bytes(v / 256, (n - 1) as nat));
        assert(bytes[0] as nat == v % 256);
    }
}

/// The ranges of the machine's numbers.
proof fn lemma_byte_ranges()
    ensures
        byte_range(1) == 0x100,
        byte_range(2) == 0x1_0000,
        byte_range(4) == 0x1_0000_0000,
        byte_range(8) == 0x1_0000_0000_0000_0000,
        byte_range(16) == 0x1_0000_0000_0000_0000_0000_0000_0000_0000,
{
    assert(byte_range(1) == 256 * byte_range(0));
    assert(byte_range(2) == 256 * byte_range(1));
    assert(byte_range(3) == 256 * byte_range(2));
    assert(byte_range(4) == 256 * byte_range(3));
    assert(byte_range(5) == 256 * byte_range(4));
    assert(byte_range(6) == 256 * byte_range(5));
    assert(byte_range(7) == 256 * byte_range(6));
    assert(byte_range(8) == 256 * byte_range(7));
    assert(byte_range(9) == 256 * byte_range(8));
    assert(byte_range(10) == 256 * byte_range(9));
    assert(byte_range(11) == 256 * byte_range(10));
    assert(byte_range(12) == 256 * byte_range(11));
    assert(byte_range(13) == 256 * byte_range(12));
    assert(byte_range(14) == 256 * byte_range(13));
    assert(byte_range(15) == 256 * byte_range(14));
    assert(byte_range(16) == 256 * byte_range(15));
}

/// The encoding of an unsigned number has the bytes of its type, and they spell the number, the lowest one first.
pub proof fn law_unsigned_encodings(a: u8, b: u16, c: u32, d: u64, e: u128, f: usize)
    ensures
        W(a).encoding().len() == 1 && le_value(W(a).encoding()) == a,
        W(b).encoding().len() == 2 && le_value(W(b).encoding()) == b,
        W(c).encoding().len() == 4 && le_value(W(c).encoding()) == c,
        W(d).encoding().len() == 8 && le_value(W(d).encoding()) == d,
        W(e).encoding().len() == 16 && le_value(W(e).encoding()) == e,
        W(f).encoding().len() * 8 == usize::BITS && le_value(W(f).encoding()) == f,
{
    lemma_byte_ranges();
    lemma_le_value(a as nat, 1);
    lemma_le_value(b as nat, 2);
    lemma_le_value(c as nat, 4);
    lemma_le_value(d as nat, 8);
    lemma_le_value(e as nat, 16);
    lemma_le_value(f as nat, (usize::BITS / 8) as nat);
}

/// The encoding of a signed number has the bytes of its type, and they spell the number, or for a negative one what is
/// left of the range of so many bytes, the lowest one first.
pub proof fn law_signed_encodings(a: i8, b: i16, c: i32, d: i64, e: i128, f: isize)
    ensures
        W(a).encoding().len() == 1 && le_value(W(a).encoding()) == a + if a < 0 {
            0x100int
        } else {
            0
        },
        W(b).encoding().len() == 2 && le_value(W(b).encoding()) == b + if b < 0 {
            0x1_0000int
        } else {
            0
        },
        W(c).encoding().len() == 4 && le_value(W(c).encoding()) == c + if c < 0 {
            0x1_0000_0000int
        } else {
            0
        },
        W(d).encoding().len() == 8 && le_value(W(d).encoding()) == d + if d < 0 {
            0x1_0000_0000_0000_0000int
        } else {
            0
        },
        W(e).encoding().len() == 16 && le_value(W(e).encoding()) == e + if e < 0 {
            0x1_0000_0000_0000_0000_0000_0000_0000_0000int
        } else {
            0
        },
        W(f).encoding().len() * 8 == usize::BITS && le_value(W(f).encoding()) == f + if f < 0 {
            usize::MAX + 1
        } else {
            0
        },
{
    lemma_byte_ranges();
    lemma_le_value(a as u8 as nat, 1);
    lemma_le_value(b as u16 as nat, 2);
    lemma_le_value(c as u32 as nat, 4);
    lemma_le_value(d as u64 as nat, 8);
    lemma_le_value(e as u128 as nat, 16);
    lemma_le_value(f as usize as nat, (usize::BITS / 8) as nat);
    assert(a as u8 == if a < 0 { a + 0x100 } else { a + 0 }) by (bit_vector);
    assert(b as u16 == if b < 0 { b + 0x1_0000 } else { b + 0 }) by (bit_vector);
    assert(c as u32 == if c < 0 { c + 0x1_0000_0000 } else { c + 0 }) by (bit_vector);
    assert(d as u64 == if d < 0 { d + 0x1_0000_0000_0000_0000 } else { d + 0 }) by (bit_vector);
    assert(e as u128 == if e < 0 { e + 0x1_0000_0000_0000_0000_0000_0000_0000_0000 } else { e + 0 }) by (bit_vector);
    assert(usize::BITS == 32 ==> f as usize == if f < 0 { f + 0x1_0000_0000 } else { f + 0 }) by (bit_vector);
    assert(usize::BITS == 64 ==> f as usize == if f < 0 { f + 0x1_0000_0000_0000_0000 } else { f + 0 }) by (bit_vector);
}

/// The encoding of a truth value is one byte, 1 for true and 0 for false.
pub proof fn law_bool_encoding(a: bool)
    ensures
        W(a).encoding().len() == 1,
        W(a).encoding()[0] == 1 <==> a,
        W(a).encoding()[0] == 0 <==> !a,
{
}

/// A value that is known by its digest only is hashed as that digest.
pub proof fn law_hash_witness_encoding<H: Digest>(value: HashWitnessValue<H>)
    ensures
        value.encoding() == value.digest@,
{
}

}
