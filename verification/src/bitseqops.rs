//! Operations on bit strings.
//!
//! A byte string is read as a bit string: bit `i` of it is bit `i % 8` of
//! byte `i / 8`, where bit 0 of a byte is its least significant one.
use vstd::prelude::*;

verus! {

/// Bit `j` of a byte, counted from the least significant one.
pub open spec fn byte_bit(b: u8, j: u8) -> bool {
    (b >> j) & 1u8 == 1u8
}

/// Bit `i` of a byte string.
pub open spec fn bit_at(s: Seq<u8>, i: int) -> bool {
    byte_bit(s[i / 8], (i % 8) as u8)
}

/// The number of bits of a byte string.
#[verifier::inline]
pub open spec fn bit_len(s: Seq<u8>) -> int {
    s.len() as int * 8
}

/// The two byte strings hold the same bits at the positions `from <= i < to`.
pub open spec fn same_bits(a: Seq<u8>, b: Seq<u8>, from: int, to: int) -> bool {
    forall|i: int|
        #![trigger bit_at(a, i)]
        #![trigger bit_at(b, i)]
        from <= i < to ==> bit_at(a, i) == bit_at(b, i)
}

/// The branching factors that bit operations are defined for: the powers of two from 2 to 256.
pub open spec fn valid_radix(k: int) -> bool {
    k == 2 || k == 4 || k == 8 || k == 16 || k == 32 || k == 64 || k == 128 || k == 256
}

/// The number of bits needed to encode a choice among `k`.
pub open spec fn radix_bits(k: int) -> int {
    if k == 2 {
        1
    } else if k == 4 {
        2
    } else if k == 8 {
        3
    } else if k == 16 {
        4
    } else if k == 32 {
        5
    } else if k == 64 {
        6
    } else if k == 128 {
        7
    } else {
        8
    }
}

/// The byte whose bits below `n` are set, and no others.
pub open spec fn low_bits(n: int) -> u8 {
    if n >= 8 {
        0xffu8
    } else {
        ((1u8 << (n as u8)) - 1) as u8
    }
}

/// The first bit of the chunk of `width` bits that holds the bit `bit`.
pub open spec fn chunk_start(bit: int, width: int) -> int {
    (bit / width) * width
}

/// The mask that selects the chunk of `width` bits of a byte that starts at bit `start`.
pub open spec fn chunk_mask(start: int, width: int) -> u8 {
    low_bits(width) << (start as u8)
}

/// The number that the `width` bits of `b` from bit `start` on spell.
pub open spec fn chunk_value(b: u8, start: int, width: int) -> u8 {
    (b >> (start as u8)) & low_bits(width)
}

// ---------------------------------------------------------------------------
// Facts about single bytes
// ---------------------------------------------------------------------------

pub proof fn lemma_low_bits(n: int)
    requires
        0 <= n,
    ensures
        forall|j: u8| j < 8 ==> (#[trigger] byte_bit(low_bits(n), j) <==> j < n),
        forall|j: u8| j < 8 ==> (#[trigger] byte_bit(!low_bits(n), j) <==> j >= n),
        n == 0 ==> low_bits(n) == 0,
{
    if n >= 8 {
        assert(forall|j: u8| j < 8 ==> (0xffu8 >> j) & 1u8 == 1u8) by (bit_vector);
        assert(forall|j: u8| j < 8 ==> ((!0xffu8) >> j) & 1u8 != 1u8) by (bit_vector);
    } else {
        let m = n as u8;
        assert((1u8 << m) >= 1) by (bit_vector)
            requires
                m < 8,
        ;
        let low = ((1u8 << m) - 1) as u8;
        assert(forall|j: u8| j < 8 ==> ((low >> j) & 1u8 == 1u8 <==> j < m)) by (bit_vector)
            requires
                m < 8,
                low == ((1u8 << m) - 1) as u8,
        ;
        assert(forall|j: u8| j < 8 ==> (((!low) >> j) & 1u8 == 1u8 <==> j >= m)) by (bit_vector)
            requires
                m < 8,
                low == ((1u8 << m) - 1) as u8,
        ;
        if n == 0 {
            assert(1u8 << 0u8 == 1u8) by (bit_vector);
        }
    }
}

/// How the bitwise operators act on single bits.
pub proof fn lemma_byte_ops(a: u8, b: u8)
    ensures
        forall|j: u8| j < 8 ==> (#[trigger] byte_bit(a & b, j) <==> byte_bit(a, j) && byte_bit(b, j)),
        forall|j: u8| j < 8 ==> (#[trigger] byte_bit(a | b, j) <==> byte_bit(a, j) || byte_bit(b, j)),
        forall|j: u8| j < 8 ==> (#[trigger] byte_bit(a ^ b, j) <==> byte_bit(a, j) != byte_bit(b, j)),
{
    assert(forall|j: u8| j < 8 ==> (((a & b) >> j) & 1u8 == 1u8 <==> (a >> j) & 1u8 == 1u8 && (b >> j)
        & 1u8 == 1u8)) by (bit_vector);
    assert(forall|j: u8| j < 8 ==> (((a | b) >> j) & 1u8 == 1u8 <==> (a >> j) & 1u8 == 1u8 || (b >> j)
        & 1u8 == 1u8)) by (bit_vector);
    assert(forall|j: u8| j < 8 ==> (((a ^ b) >> j) & 1u8 == 1u8 <==> ((a >> j) & 1u8 == 1u8) != ((b
        >> j) & 1u8 == 1u8))) by (bit_vector);
}

/// How shifts act on single bits.
pub proof fn lemma_byte_shifts(a: u8, n: u8)
    requires
        n < 8,
    ensures
        forall|j: u8| j < 8 ==> (#[trigger] byte_bit(a << n, j) <==> j >= n && byte_bit(a, (j - n) as u8)),
        forall|j: u8| j < 8 ==> (#[trigger] byte_bit(a >> n, j) <==> j + n < 8 && byte_bit(a, (j + n) as u8)),
{
    assert forall|j: u8| j < 8 implies (#[trigger] byte_bit(a << n, j) <==> j >= n && byte_bit(a, (j
        - n) as u8)) by {
        if j >= n {
            let d = (j - n) as u8;
            assert(((a << n) >> j) & 1u8 == (a >> d) & 1u8) by (bit_vector)
                requires
                    n <= j < 8,
                    d == (j - n) as u8,
            ;
        } else {
            assert(((a << n) >> j) & 1u8 == 0u8) by (bit_vector)
                requires
                    j < n < 8,
            ;
        }
    }
    assert forall|j: u8| j < 8 implies (#[trigger] byte_bit(a >> n, j) <==> j + n < 8 && byte_bit(a, (j
        + n) as u8)) by {
        let d = (j + n) as u8;
        if j + n < 8 {
            assert(((a >> n) >> j) & 1u8 == (a >> d) & 1u8) by (bit_vector)
                requires
                    j + n < 8,
                    d == (j + n) as u8,
            ;
        } else {
            assert(((a >> n) >> j) & 1u8 == 0u8) by (bit_vector)
                requires
                    j + n >= 8,
                    n < 8,
                    j < 8,
            ;
        }
    }
}

/// A byte is determined by its bits.
pub proof fn lemma_byte_ext(a: u8, b: u8)
    requires
        forall|j: u8| j < 8 ==> #[trigger] byte_bit(a, j) == byte_bit(b, j),
    ensures
        a == b,
{
    assert(byte_bit(a, 0) == byte_bit(b, 0));
    assert(byte_bit(a, 1) == byte_bit(b, 1));
    assert(byte_bit(a, 2) == byte_bit(b, 2));
    assert(byte_bit(a, 3) == byte_bit(b, 3));
    assert(byte_bit(a, 4) == byte_bit(b, 4));
    assert(byte_bit(a, 5) == byte_bit(b, 5));
    assert(byte_bit(a, 6) == byte_bit(b, 6));
    assert(byte_bit(a, 7) == byte_bit(b, 7));
    assert(a == b) by (bit_vector)
        requires
            ((a >> 0u8) & 1u8 == 1u8) == ((b >> 0u8) & 1u8 == 1u8),
            ((a >> 1u8) & 1u8 == 1u8) == ((b >> 1u8) & 1u8 == 1u8),
            ((a >> 2u8) & 1u8 == 1u8) == ((b >> 2u8) & 1u8 == 1u8),
            ((a >> 3u8) & 1u8 == 1u8) == ((b >> 3u8) & 1u8 == 1u8),
            ((a >> 4u8) & 1u8 == 1u8) == ((b >> 4u8) & 1u8 == 1u8),
            ((a >> 5u8) & 1u8 == 1u8) == ((b >> 5u8) & 1u8 == 1u8),
            ((a >> 6u8) & 1u8 == 1u8) == ((b >> 6u8) & 1u8 == 1u8),
            ((a >> 7u8) & 1u8 == 1u8) == ((b >> 7u8) & 1u8 == 1u8),
    ;
}


/// The bits of a chunk mask, and where they start.
pub proof fn lemma_chunk_mask(start: int, width: int)
    requires
        0 <= start < 8,
        1 <= width <= 8,
    ensures
        forall|j: u8| j < 8 ==> (#[trigger] byte_bit(chunk_mask(start, width), j) <==> start <= j < start + width),
        chunk_mask(start, width) != 0,
        chunk_mask(start, width).trailing_zeros() == start,
{
    let m = chunk_mask(start, width);
    lemma_low_bits(width);
    lemma_byte_shifts(low_bits(width), start as u8);
    assert(byte_bit(m, start as u8));
    lemma_bits_of_zero();
    lemma_trailing_zeros(m);
}

/// The byte 0 has no bit set.
pub proof fn lemma_bits_of_zero()
    ensures
        forall|j: u8| j < 8 ==> !#[trigger] byte_bit(0u8, j),
{
    assert(forall|j: u8| j < 8 ==> (0u8 >> j) & 1u8 != 1u8) by (bit_vector);
}

/// The trailing zeros of a byte end at its lowest bit that is set.
pub proof fn lemma_trailing_zeros(b: u8)
    ensures
        0 <= b.trailing_zeros() <= 8,
        b.trailing_zeros() == 8 <==> b == 0,
        b != 0 ==> byte_bit(b, b.trailing_zeros() as u8),
        forall|j: u8| j < b.trailing_zeros() ==> !#[trigger] byte_bit(b, j),
{
    vstd::std_specs::bits::axiom_u8_trailing_zeros(b);
    assert forall|j: u8| j < b.trailing_zeros() implies !#[trigger] byte_bit(b, j) by {
        assert((b >> j) & 1u8 == 0u8);
    }
}

/// The leading zeros of a byte start after its highest bit that is set.
pub proof fn lemma_leading_zeros(b: u8)
    ensures
        0 <= b.leading_zeros() <= 8,
        b.leading_zeros() < 8 ==> byte_bit(b, (7 - b.leading_zeros()) as u8),
        forall|j: u8| 8 - b.leading_zeros() <= j < 8 ==> !#[trigger] byte_bit(b, j),
{
    vstd::std_specs::bits::axiom_u8_leading_zeros(b);
    if b.leading_zeros() < 8 {
        let j = (7 - b.leading_zeros()) as u8;
        assert((b >> j) & 1u8 != 0u8);
        assert((b >> j) & 1u8 == 0u8 || (b >> j) & 1u8 == 1u8) by (bit_vector);
    }
    assert forall|j: u8| 8 - b.leading_zeros() <= j < 8 implies !#[trigger] byte_bit(b, j) by {
        assert((b >> j) & 1u8 == 0u8);
    }
}

/// The bits of the number that a chunk spells, and its range.
pub proof fn lemma_chunk_value(b: u8, start: int, width: int)
    requires
        0 <= start < 8,
        1 <= width <= 8,
    ensures
        forall|j: u8|
            j < 8 ==> (#[trigger] byte_bit(chunk_value(b, start, width), j) <==> j < width && j + start < 8
                && byte_bit(b, (j + start) as u8)),
        chunk_value(b, start, width) <= low_bits(width),
{
    lemma_low_bits(width);
    lemma_byte_shifts(b, start as u8);
    let x = b >> (start as u8);
    let m = low_bits(width);
    lemma_byte_ops(x, m);
    assert((x & m) <= m) by (bit_vector);
}

/// The largest number that a chunk can spell is one less than the branching factor.
pub proof fn lemma_radix(k: int)
    requires
        valid_radix(k),
    ensures
        1 <= radix_bits(k) <= 8,
        low_bits(radix_bits(k)) == k - 1,
{
    assert((1u8 << 1u8) == 2 && (1u8 << 2u8) == 4 && (1u8 << 3u8) == 8 && (1u8 << 4u8) == 16 && (1u8
        << 5u8) == 32 && (1u8 << 6u8) == 64 && (1u8 << 7u8) == 128) by (bit_vector);
}

/// Two bytes spell the same number in a chunk exactly where they agree on its bits.
pub proof fn lemma_chunk_value_eq(a: u8, b: u8, start: int, width: int)
    requires
        0 <= start,
        1 <= width,
        start + width <= 8,
    ensures
        chunk_value(a, start, width) == chunk_value(b, start, width) <==> (forall|j: u8|
            start <= j < start + width ==> #[trigger] byte_bit(a, j) == byte_bit(b, j)),
{
    lemma_chunk_value(a, start, width);
    lemma_chunk_value(b, start, width);
    let va = chunk_value(a, start, width);
    let vb = chunk_value(b, start, width);
    if va == vb {
        assert forall|j: u8| start <= j < start + width implies #[trigger] byte_bit(a, j) == byte_bit(b, j) by {
            let i = (j - start) as u8;
            assert(byte_bit(va, i) == byte_bit(vb, i));
        }
    }
    if forall|j: u8| start <= j < start + width ==> #[trigger] byte_bit(a, j) == byte_bit(b, j) {
        assert forall|j: u8| j < 8 implies #[trigger] byte_bit(va, j) == byte_bit(vb, j) by {
            if j < width {
                assert(byte_bit(a, (j + start) as u8) == byte_bit(b, (j + start) as u8));
            }
        }
        lemma_byte_ext(va, vb);
    }
}

/// The chunk that holds a bit.
pub proof fn lemma_chunk_start(bit: int, width: int)
    requires
        0 <= bit < 8,
        1 <= width <= 8,
    ensures
        0 <= chunk_start(bit, width) <= bit < chunk_start(bit, width) + width,
        8int % width == 0 ==> chunk_start(bit, width) + width <= 8,
        chunk_start(bit, width) % width == 0,
{
    assert(0 <= (bit / width) * width <= bit < (bit / width) * width + width) by (nonlinear_arith)
        requires
            0 <= bit,
            1 <= width,
    ;
    assert(((bit / width) * width) % width == 0) by (nonlinear_arith)
        requires
            1 <= width,
    ;
    if 8int % width == 0 {
        assert(width == 1 || width == 2 || width == 3 || width == 4 || width == 5 || width == 6 || width == 7 || width
            == 8);
        assert(8int % 3 == 2 && 8int % 5 == 3 && 8int % 6 == 2 && 8int % 7 == 1);
    }
}

// ---------------------------------------------------------------------------
// Masks
// ---------------------------------------------------------------------------

/// Given a bit index `bits` in a byte, create a mask that selects indices `j` s.t. `0 <= j <= bits`
pub fn isolate_prefix_mask(bits: usize) -> (mask: u8)
    requires
        bits < 8,
    ensures
        mask == low_bits(bits + 1),
        forall|j: u8| j < 8 ==> (#[trigger] byte_bit(mask, j) <==> j <= bits),
{
    proof {
        lemma_low_bits(bits + 1);
    }
    if bits == 7 {
        return 0xff;
    }
    let n: u8 = bits as u8 + 1;
    assert((1u8 << n) >= 1) by (bit_vector)
        requires
            n < 8,
    ;
    (1u8 << n) - 1
}

/// Given a bit index `bits` in a byte, create a mask that selects indices `j` s.t. `bits < j <= 7`
pub fn isolate_suffix_mask(bits: usize) -> (mask: u8)
    requires
        bits < 8,
    ensures
        mask == !low_bits(bits + 1),
        forall|j: u8| j < 8 ==> (#[trigger] byte_bit(mask, j) <==> bits < j),
{
    proof {
        lemma_low_bits(bits + 1);
    }
    !isolate_prefix_mask(bits)
}

/// The mask that selects the leading zeros of `mask`.
pub fn lz_mask(mask: u8) -> (leading: u8)
    ensures
        leading == !low_bits(8 - mask.leading_zeros()),
        forall|j: u8|
            j < 8 ==> (#[trigger] byte_bit(leading, j) <==> (forall|i: u8|
                j <= i < 8 ==> !#[trigger] byte_bit(mask, i))),
{
    proof {
        lemma_leading_zeros(mask);
        lemma_low_bits(8 - mask.leading_zeros());
        lemma_bits_of_zero();
    }
    let non_leading: u32 = 8 - mask.leading_zeros();
    let leading: u8 = if non_leading == 0 {
        assert(!0u8 == 0xffu8) by (bit_vector);
        0xff
    } else {
        isolate_suffix_mask(non_leading as usize - 1)
    };
    proof {
        assert forall|j: u8| j < 8 implies (#[trigger] byte_bit(leading, j) <==> (forall|i: u8|
            j <= i < 8 ==> !#[trigger] byte_bit(mask, i))) by {
            if j < non_leading {
                assert(byte_bit(mask, (7 - mask.leading_zeros()) as u8));
            }
        }
    }
    leading
}

/// The mask that selects the trailing zeros of `mask`.
pub fn tz_mask(mask: u8) -> (trailing: u8)
    ensures
        trailing == low_bits(mask.trailing_zeros() as int),
        forall|j: u8|
            j < 8 ==> (#[trigger] byte_bit(trailing, j) <==> (forall|i: u8|
                0 <= i <= j ==> !#[trigger] byte_bit(mask, i))),
{
    proof {
        lemma_trailing_zeros(mask);
        lemma_low_bits(mask.trailing_zeros() as int);
    }
    let zeros: u32 = mask.trailing_zeros();
    let trailing: u8 = if zeros == 0 {
        0
    } else {
        isolate_prefix_mask(zeros as usize - 1)
    };
    proof {
        assert(trailing == low_bits(zeros as int));
        assert forall|j: u8| j < 8 implies (#[trigger] byte_bit(trailing, j) <==> (forall|i: u8|
            0 <= i <= j ==> !#[trigger] byte_bit(mask, i))) by {
            assert(byte_bit(low_bits(zeros as int), j) <==> j < zeros);
            if j >= zeros {
                assert(byte_bit(mask, zeros as u8));
            }
        }
    }
    trailing
}


// ---------------------------------------------------------------------------
// Bit positions
// ---------------------------------------------------------------------------

/// Bit position in a byte string
#[derive(Clone, Copy, Default, PartialEq, Eq)]
pub struct BitPosition {
    /// index of a whole byte
    pub index: usize,
    /// bit index inside a byte
    pub bits: usize,
}

impl BitPosition {
    /// The position as the number of bits before it.
    pub open spec fn as_bit(self) -> int {
        self.index * 8 + self.bits
    }

    /// Return the position behind the chunk of log2(K) bits that holds this one. It stays in the same byte:
    /// the end of the byte is bit 8 of it.
    pub fn increment<const K: usize>(&self) -> (next: BitPosition)
        requires
            valid_radix(K as int),
            self.bits < 8,
        ensures
            next.index == self.index,
            next.bits == chunk_start(self.bits as int, radix_bits(K as int)) + radix_bits(K as int),
    {
        let bits: usize = BitSeqOps::<K>::k_bits();
        proof {
            lemma_radix(K as int);
            lemma_chunk_start(self.bits as int, bits as int);
        }
        BitPosition { index: self.index, bits: (self.bits / bits) * bits + bits }
    }
}

/// The location of the first bit that distinguishes two bit strings
#[derive(Clone, Copy, Debug, PartialEq, Eq)]
pub struct BitDiff {
    /// The first bit position that distinguishes two bitstrings
    pub pos: BitPosition,
    /// The index of the prefix bitstring (if it exists)
    pub prefix: Option<usize>,
}

/// The number of bits of `s` after `offset` that are compared, where `bits` overrides it.
pub open spec fn compared_bits(s: Seq<u8>, offset: int, bits: Option<usize>) -> int {
    match bits {
        Some(n) => n as int,
        None => s.len() * 8 - offset,
    }
}

/// What it means that `found` is the first place where the bits of `a` and `b` after `offset` differ,
/// if `a` has `a_bits` and `b` has `b_bits` of them.
pub open spec fn is_first_diff(
    a: Seq<u8>,
    b: Seq<u8>,
    offset: int,
    a_bits: int,
    b_bits: int,
    found: Option<BitDiff>,
) -> bool {
    let end = offset + if a_bits <= b_bits {
        a_bits
    } else {
        b_bits
    };
    match found {
        None => a_bits == b_bits && same_bits(a, b, offset, end),
        Some(diff) => {
            &&& diff.pos.bits < 8
            &&& same_bits(a, b, offset, diff.pos.as_bit())
            &&& match diff.prefix {
                None => {
                    &&& offset <= diff.pos.as_bit() < end
                    &&& bit_at(a, diff.pos.as_bit()) != bit_at(b, diff.pos.as_bit())
                },
                Some(which) => {
                    &&& a_bits != b_bits
                    &&& diff.pos.as_bit() == end
                    &&& which == if a_bits > b_bits {
                        1usize
                    } else {
                        0usize
                    }
                },
            }
        },
    }
}

/// Return the first bit position, after the offset bits, that distinguishes the two input strings.
/// If one bit string is a prefix of the other, the extra bits are considered to be distinct.
pub fn find_first_distinct_bits(
    a: &[u8],
    b: &[u8],
    offset: usize,
    a_bits: Option<usize>,
    b_bits: Option<usize>,
) -> (found: Option<BitDiff>)
    requires
        a_bits is None ==> offset <= a@.len() * 8,
        b_bits is None ==> offset <= b@.len() * 8,
        offset + compared_bits(a@, offset as int, a_bits) <= a@.len() * 8 || offset + compared_bits(
            b@,
            offset as int,
            b_bits,
        ) <= a@.len() * 8,
        offset + compared_bits(a@, offset as int, a_bits) <= b@.len() * 8 || offset + compared_bits(
            b@,
            offset as int,
            b_bits,
        ) <= b@.len() * 8,
    ensures
        is_first_diff(
            a@,
            b@,
            offset as int,
            compared_bits(a@, offset as int, a_bits),
            compared_bits(b@, offset as int, b_bits),
            found,
        ),
{
    // set default lengths
    let a_len: u128 = match a_bits {
        Some(n) => n as u128,
        None => a.len() as u128 * 8 - offset as u128,
    };
    let b_len: u128 = match b_bits {
        Some(n) => n as u128,
        None => b.len() as u128 * 8 - offset as u128,
    };
    find_distinct(a, b, offset, a_len, b_len)
}

/// Return the first bit position, after the offset bits, that distinguishes the two input strings, of which the
/// given numbers of bits are compared. The bits of any byte string can be counted with 128 bits.
pub(crate) fn find_distinct(a: &[u8], b: &[u8], offset: usize, a_len: u128, b_len: u128) -> (found: Option<BitDiff>)
    requires
        offset + a_len <= a@.len() * 8 || offset + b_len <= a@.len() * 8,
        offset + a_len <= b@.len() * 8 || offset + b_len <= b@.len() * 8,
    ensures
        is_first_diff(a@, b@, offset as int, a_len as int, b_len as int, found),
{
    assert(a.len() <= usize::MAX && b.len() <= usize::MAX);
    let wanted_bits: u128 = if a_len <= b_len {
        a_len
    } else {
        b_len
    };
    let end: u128 = offset as u128 + wanted_bits;
    let mut i: usize = offset / 8;
    while (i as u128) * 8 < end
        invariant
            end <= a@.len() * 8,
            end <= b@.len() * 8,
            a@.len() <= usize::MAX,
            offset <= end,
            offset / 8 <= i,
            i * 8 <= end + 7,
            end == offset + if a_len <= b_len {
                a_len
            } else {
                b_len
            },
            same_bits(a@, b@, offset as int, if i * 8 <= end { i * 8 } else { end as int }),
        decreases end + 8 - i * 8,
    {
        let mut v: u8 = a[i] ^ b[i];
        proof {
            lemma_byte_ops(a@[i as int], b@[i as int]);
        }
        // drop the bits of the first byte before the offset
        if i == offset / 8 && offset % 8 > 0 {
            let from: u8 = isolate_suffix_mask(offset % 8 - 1);
            proof {
                lemma_byte_ops(v, from);
            }
            v = v & from;
        }
        // drop the bits of the last byte after the end
        let left: u128 = end - (i as u128) * 8;
        if left < 8 {
            let to: u8 = isolate_prefix_mask(left as usize - 1);
            proof {
                lemma_byte_ops(v, to);
            }
            v = v & to;
        }
        assert(forall|j: u8|
            j < 8 ==> (#[trigger] byte_bit(v, j) <==> offset <= i * 8 + j < end && byte_bit(a@[i as int], j)
                != byte_bit(b@[i as int], j)));
        proof {
            lemma_trailing_zeros(v);
            lemma_bits_of_zero();
        }
        if v != 0 {
            let bits: usize = v.trailing_zeros() as usize;
            proof {
                let p = i * 8 + bits;
                assert(byte_bit(v, bits as u8));
                assert(p / 8 == i && p % 8 == bits);
                assert forall|q: int| offset <= q < p implies #[trigger] bit_at(a@, q) == bit_at(b@, q) by {
                    if q >= i * 8 {
                        assert(q / 8 == i);
                        assert(!byte_bit(v, (q % 8) as u8));
                    }
                }
            }
            return Some(BitDiff { pos: BitPosition { index: i, bits }, prefix: None });
        }
        proof {
            assert forall|q: int| offset <= q < end && q < i * 8 + 8 implies #[trigger] bit_at(a@, q) == bit_at(
                b@,
                q,
            ) by {
                if q >= i * 8 {
                    assert(q / 8 == i);
                    assert(!byte_bit(v, (q % 8) as u8));
                }
            }
        }
        i += 1;
    }
    // if the lengths differ, the extra bits are different
    if a_len != b_len {
        let which: usize = if a_len > b_len {
            1
        } else {
            0
        };
        return Some(
            BitDiff { pos: BitPosition { index: (end / 8) as usize, bits: (end % 8) as usize }, prefix: Some(which) },
        );
    }
    None
}

/// All bits of a byte string behind the offset are compared, unless another number of them is given.
pub proof fn law_compared_bits(s: Seq<u8>, offset: int, bits: Option<usize>)
    ensures
        bits is None ==> offset + compared_bits(s, offset, bits) == bit_len(s),
        bits is Some ==> compared_bits(s, offset, bits) == bits->0,
{
}

/// What is found when bit strings are compared: nothing exactly where they have as many bits and each bit is the same;
/// else the first position behind the offset at which they have different bits or at which just one of them ends, which
/// is then told.
pub proof fn law_first_diff(a: Seq<u8>, b: Seq<u8>, offset: int, a_bits: int, b_bits: int, found: Option<BitDiff>)
    requires
        is_first_diff(a, b, offset, a_bits, b_bits, found),
        a_bits >= 0 && b_bits >= 0,
    ensures
        found is None <==> a_bits == b_bits && forall|i: int|
            offset <= i < offset + a_bits ==> #[trigger] bit_at(a, i) == bit_at(b, i),
        found matches Some(diff) ==> {
            let p = diff.pos.index * 8 + diff.pos.bits;
            &&& diff.pos.bits < 8
            &&& offset <= p <= offset + a_bits && p <= offset + b_bits
            &&& forall|i: int| offset <= i < p ==> #[trigger] bit_at(a, i) == bit_at(b, i)
            &&& diff.prefix is None ==> p < offset + a_bits && p < offset + b_bits && bit_at(a, p) != bit_at(b, p)
            &&& diff.prefix == Some(0usize) <==> p == offset + a_bits && p < offset + b_bits
            &&& diff.prefix == Some(1usize) <==> p == offset + b_bits && p < offset + a_bits
            &&& diff.prefix matches Some(which) ==> which <= 1
        },
{
    if found is Some {
        let diff = found->0;
        let p = diff.pos.as_bit();
        if diff.prefix is None && a_bits == b_bits {
            assert(bit_at(a, p) != bit_at(b, p));
        }
    }
}

/// Comparing two bit strings the other way round finds the same position, and the other one to be the prefix.
pub proof fn law_first_diff_mirrors(
    a: Seq<u8>,
    b: Seq<u8>,
    offset: int,
    a_bits: int,
    b_bits: int,
    found: Option<BitDiff>,
    mirrored: Option<BitDiff>,
)
    requires
        is_first_diff(a, b, offset, a_bits, b_bits, found),
        is_first_diff(b, a, offset, b_bits, a_bits, mirrored),
    ensures
        match (found, mirrored) {
            (None, None) => true,
            (Some(x), Some(y)) => x.pos == y.pos && match (x.prefix, y.prefix) {
                (None, None) => true,
                (Some(i), Some(j)) => i + j == 1,
                _ => false,
            },
            _ => false,
        },
{
    match (found, mirrored) {
        (Some(x), Some(y)) => {
            let p = x.pos.as_bit();
            let q = y.pos.as_bit();
            if x.prefix is None {
                assert(bit_at(a, p) != bit_at(b, p));
            }
            if y.prefix is None {
                assert(bit_at(a, q) != bit_at(b, q));
            }
            assert(p == q);
            assert(x.pos.index == y.pos.index && x.pos.bits == y.pos.bits);
        },
        (Some(x), None) => {
            if x.prefix is None {
                assert(bit_at(a, x.pos.as_bit()) != bit_at(b, x.pos.as_bit()));
            }
        },
        (None, Some(y)) => {
            if y.prefix is None {
                assert(bit_at(a, y.pos.as_bit()) != bit_at(b, y.pos.as_bit()));
            }
        },
        (None, None) => {},
    }
}

// ---------------------------------------------------------------------------
// Splitting a bit string at a chunk, and joining it again
// ---------------------------------------------------------------------------

/// The bits of `src` before bit `start` of byte `index`. The last byte is written whole: its other bits are 0.
pub open spec fn split_prefix(src: Seq<u8>, index: int, start: int) -> Seq<u8> {
    src.take(index).push(src[index] & low_bits(start))
}

/// The bits of `src` from bit `end` of byte `index` on. The first byte is written whole: its other bits are 0.
pub open spec fn split_suffix(src: Seq<u8>, index: int, end: int) -> Seq<u8> {
    if index < src.len() {
        seq![src[index] & !low_bits(end)] + src.skip(index + 1)
    } else {
        Seq::empty()
    }
}

/// The byte string whose bits are those of `prefix` up to bit `start` of its last byte, then those of the
/// number `value`, then those of `suffix` behind them in its first byte.
pub open spec fn joined(prefix: Seq<u8>, start: int, value: u8, suffix: Seq<u8>) -> Seq<u8> {
    prefix.drop_last().push(prefix.last() | (value << (start as u8)) | suffix[0]) + suffix.skip(1)
}

/// The bits of a split prefix.
pub proof fn lemma_split_prefix_bits(src: Seq<u8>, index: int, start: int)
    requires
        0 <= index < src.len(),
        0 <= start <= 8,
    ensures
        split_prefix(src, index, start).len() == index + 1,
        forall|p: int|
            0 <= p < index * 8 + 8 ==> (#[trigger] bit_at(split_prefix(src, index, start), p) <==> p < index * 8
                + start && bit_at(src, p)),
{
    lemma_low_bits(start);
    lemma_byte_ops(src[index], low_bits(start));
    let out = split_prefix(src, index, start);
    assert forall|p: int| 0 <= p < index * 8 + 8 implies (#[trigger] bit_at(out, p) <==> p < index * 8 + start
        && bit_at(src, p)) by {
        if p / 8 < index {
            assert(out[p / 8] == src[p / 8]);
        } else {
            assert(p / 8 == index);
        }
    }
}

/// The bits of a split suffix.
pub proof fn lemma_split_suffix_bits(src: Seq<u8>, index: int, end: int)
    requires
        0 <= index < src.len(),
        0 <= end,
    ensures
        split_suffix(src, index, end).len() == src.len() - index,
        forall|p: int|
            0 <= p < (src.len() - index) * 8 ==> (#[trigger] bit_at(split_suffix(src, index, end), p) <==> (p >= end
                || p >= 8) && bit_at(src, index * 8 + p)),
{
    lemma_low_bits(end);
    lemma_byte_ops(src[index], !low_bits(end));
    let out = split_suffix(src, index, end);
    assert forall|p: int| 0 <= p < (src.len() - index) * 8 implies (#[trigger] bit_at(out, p) <==> (p >= end || p
        >= 8) && bit_at(src, index * 8 + p)) by {
        assert((index * 8 + p) / 8 == index + p / 8);
        assert((index * 8 + p) % 8 == p % 8);
        if p / 8 > 0 {
            assert(out[p / 8] == src[index + p / 8]);
        }
    }
}

/// Recovering what a split at a chunk gave restores the byte string.
pub proof fn law_recover_undoes_split(src: Seq<u8>, index: int, start: int, width: int)
    requires
        0 <= index < src.len(),
        0 <= start < 8,
        1 <= width <= 8,
    ensures
        joined(
            split_prefix(src, index, start),
            start,
            chunk_value(src[index], start, width),
            split_suffix(src, index, start + width),
        ) == src,
{
    let b = src[index];
    let lo = b & low_bits(start);
    let v = chunk_value(b, start, width);
    let mid = v << (start as u8);
    let hi = b & !low_bits(start + width);
    lemma_low_bits(start);
    lemma_low_bits(start + width);
    lemma_byte_ops(b, low_bits(start));
    lemma_byte_ops(b, !low_bits(start + width));
    lemma_chunk_value(b, start, width);
    lemma_byte_shifts(v, start as u8);
    lemma_byte_ops(lo, mid);
    lemma_byte_ops(lo | mid, hi);
    assert forall|j: u8| j < 8 implies #[trigger] byte_bit(lo | mid | hi, j) == byte_bit(b, j) by {
        if start <= j {
            assert(byte_bit(mid, j) <==> byte_bit(v, (j - start) as u8));
        }
    }
    lemma_byte_ext(lo | mid | hi, b);
    assert(joined(
        split_prefix(src, index, start),
        start,
        v,
        split_suffix(src, index, start + width),
    ) =~= src);
}

/// Splitting what was joined at a chunk gives the parts back.
pub proof fn lemma_split_of_join(prefix: Seq<u8>, start: int, width: int, value: u8, suffix: Seq<u8>)
    requires
        prefix.len() > 0,
        suffix.len() > 0,
        0 <= start,
        1 <= width,
        start + width <= 8,
        value <= low_bits(width),
        forall|j: u8| start <= j < 8 ==> !#[trigger] byte_bit(prefix.last(), j),
        forall|j: u8| j < start + width ==> !#[trigger] byte_bit(suffix[0], j),
    ensures
        ({
            let out = joined(prefix, start, value, suffix);
            let index = prefix.len() - 1;
            &&& out.len() == prefix.len() + suffix.len() - 1
            &&& split_prefix(out, index, start) == prefix
            &&& split_suffix(out, index, start + width) == suffix
            &&& chunk_value(out[index], start, width) == value
        }),
{
    let out = joined(prefix, start, value, suffix);
    let index = prefix.len() - 1;
    let lo = prefix.last();
    let mid = value << (start as u8);
    let hi = suffix[0];
    let b = out[index];
    assert(b == lo | mid | hi);
    lemma_low_bits(width);
    lemma_low_bits(start);
    lemma_low_bits(start + width);
    lemma_byte_shifts(value, start as u8);
    lemma_byte_ops(lo, mid);
    lemma_byte_ops(lo | mid, hi);
    lemma_byte_ops(b, low_bits(start));
    lemma_byte_ops(b, !low_bits(start + width));
    lemma_chunk_value(b, start, width);
    lemma_small_value(value, width);
    assert forall|j: u8| j < 8 implies #[trigger] byte_bit(b & low_bits(start), j) == byte_bit(lo, j) by {}
    lemma_byte_ext(b & low_bits(start), lo);
    assert forall|j: u8| j < 8 implies #[trigger] byte_bit(b & !low_bits(start + width), j) == byte_bit(hi, j) by {
        if j >= start + width {
            assert(byte_bit(mid, j) <==> byte_bit(value, (j - start) as u8));
        }
    }
    lemma_byte_ext(b & !low_bits(start + width), hi);
    let c = chunk_value(b, start, width);
    assert forall|j: u8| j < 8 implies #[trigger] byte_bit(c, j) == byte_bit(value, j) by {
        if j < width {
            let i = (j + start) as u8;
            assert(byte_bit(mid, i) <==> byte_bit(value, (i - start) as u8));
            assert(byte_bit(b, i) <==> byte_bit(lo, i) || byte_bit(mid, i) || byte_bit(hi, i));
        }
    }
    lemma_byte_ext(c, value);
    assert(split_prefix(out, index, start) =~= prefix);
    assert(split_suffix(out, index, start + width) =~= suffix);
}

/// A number below a power of two has no higher bits.
pub proof fn lemma_small_value(value: u8, width: int)
    requires
        value <= low_bits(width),
        0 <= width <= 8,
    ensures
        forall|j: u8| width <= j < 8 ==> !#[trigger] byte_bit(value, j),
{
    if width < 8 {
        let w = width as u8;
        let m = low_bits(width);
        assert((1u8 << w) >= 1) by (bit_vector)
            requires
                w < 8,
        ;
        assert(forall|j: u8| w <= j < 8 ==> (value >> j) & 1u8 != 1u8) by (bit_vector)
            requires
                value <= m,
                m == ((1u8 << w) - 1) as u8,
                w < 8,
        ;
    }
}

/// Copy a byte string from the byte `from` on.
pub(crate) fn copy_bytes(src: &[u8], from: usize) -> (dst: Vec<u8>)
    requires
        from <= src@.len(),
    ensures
        dst@ == src@.skip(from as int),
{
    let mut dst: Vec<u8> = Vec::new();
    let mut i: usize = from;
    while i < src.len()
        invariant
            from <= i <= src@.len(),
            dst@ == src@.subrange(from as int, i as int),
        decreases src@.len() - i,
    {
        dst.push(src[i]);
        i += 1;
        assert(dst@ =~= src@.subrange(from as int, i as int));
    }
    assert(src@.subrange(from as int, i as int) =~= src@.skip(from as int));
    dst
}

impl BitDiff {
    /// Given a bit diff, find the unique bitmask of length log2(K),
    /// aligned on a log2(K) bit offset, that contains diff.bits
    pub fn mask<const K: usize>(&self) -> (mask: u8)
        requires
            valid_radix(K as int),
            self.pos.bits < 8,
        ensures
            mask == chunk_mask(chunk_start(self.pos.bits as int, radix_bits(K as int)), radix_bits(K as int)),
    {
        BitSeqOps::<K>::mask(self.pos.bits)
    }

    /// Given a bit diff and src buffer, find the number below K obtained from
    /// applying the diff-derived bitmask to src at the diff's position
    pub fn mask_value<const K: usize>(&self, src: &[u8]) -> (value: usize)
        requires
            valid_radix(K as int),
            self.pos.bits < 8,
            self.pos.index < src@.len(),
        ensures
            value < K,
            value == chunk_value(
                src@[self.pos.index as int],
                chunk_start(self.pos.bits as int, radix_bits(K as int)),
                radix_bits(K as int),
            ),
    {
        BitSeqOps::<K>::mask_value(src, self.pos.index, self.pos.bits)
    }

    /// Given a bit diff and src bitstring, copy the bits from src in the range [0,align(log2(K),diff.pos)).
    /// In order to account for non-byte-aligned bitlengths, we write an extra final byte.
    /// Any bits in this final byte which are not contained in the prefix will be zeroed out.
    pub fn write_prefix<const K: usize>(&self, src: &[u8]) -> (dst: Vec<u8>)
        requires
            valid_radix(K as int),
            self.prefix is None,
            self.pos.bits < 8,
            self.pos.index < src@.len(),
        ensures
            dst@ == split_prefix(
                src@,
                self.pos.index as int,
                chunk_start(self.pos.bits as int, radix_bits(K as int)),
            ),
    {
        BitSeqOps::<K>::write_aligned_prefix(self, src)
    }

    /// Given a bit diff and src bitstring, copy the bits from src behind the aligned log2(K) bits that hold diff.pos:
    /// the range [align(log2(K),diff.pos)+log2(K),src.len()*8). The first byte is written whole: the bits of it
    /// before the range are zeroed out.
    pub fn write_suffix<const K: usize>(&self, src: &[u8]) -> (dst: Vec<u8>)
        requires
            valid_radix(K as int),
            self.pos.bits < 8,
            self.pos.index <= src@.len(),
        ensures
            dst@ == split_suffix(
                src@,
                self.pos.index as int,
                chunk_start(self.pos.bits as int, radix_bits(K as int)) + radix_bits(K as int),
            ),
    {
        BitSeqOps::<K>::write_aligned_suffix(&self.pos, src)
    }
}

/// An attachment point for bit-level operations that depend on a constant power-of-two K in the range \[2,256\].
/// This struct is never constructed, and is only used for its const parameter to guide function monomorphization.
pub struct BitSeqOps<const K: usize>;

impl<const K: usize> BitSeqOps<K> {
    /// The number of bits needed to encode a K-valued choice
    pub fn k_bits() -> (bits: usize)
        requires
            valid_radix(K as int),
        ensures
            bits == radix_bits(K as int),
    {
        if K == 2 {
            1
        } else if K == 4 {
            2
        } else if K == 8 {
            3
        } else if K == 16 {
            4
        } else if K == 32 {
            5
        } else if K == 64 {
            6
        } else if K == 128 {
            7
        } else {
            8
        }
    }

    /// Given a bit offset in a byte, find the unique bitmask of length log2(K),
    /// aligned on a log2(K) bit offset, that contains the bit offset
    pub fn mask(bit_index: usize) -> (mask: u8)
        requires
            valid_radix(K as int),
            bit_index < 8,
        ensures
            mask == chunk_mask(chunk_start(bit_index as int, radix_bits(K as int)), radix_bits(K as int)),
            forall|j: u8|
                j < 8 ==> (#[trigger] byte_bit(mask, j) <==> j as int / radix_bits(K as int) == bit_index as int
                    / radix_bits(K as int)),
    {
        let bits: usize = Self::k_bits();
        proof {
            lemma_radix(K as int);
            lemma_chunk_start(bit_index as int, bits as int);
            let start = chunk_start(bit_index as int, bits as int);
            lemma_chunk_mask(start, bits as int);
            assert forall|j: u8| j < 8 implies (start <= j < start + bits <==> #[trigger] (j as int / bits as int)
                == bit_index as int / bits as int) by {
                lemma_chunk_start(j as int, bits as int);
                lemma_same_chunk(j as int, bit_index as int, bits as int);
            }
        }
        let start: usize = (bit_index / bits) * bits;
        let full: u8 = (K - 1) as u8;
        full << (start as u8)
    }

    /// Given a src buffer, a byte index, and a bit offset, find the number
    /// below K obtained from applying the offset-derived bitmask to src\[index\]
    pub fn mask_value(src: &[u8], index: usize, bit_index: usize) -> (value: usize)
        requires
            valid_radix(K as int),
            index < src@.len(),
            bit_index < 8,
        ensures
            value < K,
            value == chunk_value(
                src@[index as int],
                chunk_start(bit_index as int, radix_bits(K as int)),
                radix_bits(K as int),
            ),
    {
        let mask: u8 = Self::mask(bit_index);
        let byte: u8 = src[index];
        proof {
            let width = radix_bits(K as int);
            lemma_radix(K as int);
            lemma_chunk_start(bit_index as int, width);
            let start = chunk_start(bit_index as int, width);
            lemma_chunk_mask(start, width);
            lemma_byte_ops(byte, mask);
            lemma_byte_shifts(byte & mask, start as u8);
            lemma_chunk_value(byte, start, width);
            let v = (byte & mask) >> (start as u8);
            let c = chunk_value(byte, start, width);
            assert forall|j: u8| j < 8 implies #[trigger] byte_bit(v, j) == byte_bit(c, j) by {
                if j + start < 8 {
                    let i = (j + start) as u8;
                    assert(byte_bit(byte & mask, i) <==> byte_bit(byte, i) && byte_bit(mask, i));
                }
            }
            lemma_byte_ext(v, c);
        }
        let value: u8 = (byte & mask) >> (mask.trailing_zeros() as u8);
        value as usize
    }

    /// Given a bit diff and src bitstring, copy the bits from src in the range [0,align(log2(K),diff.pos)).
    /// In order to account for non-byte-aligned bitlengths, we write an extra final byte.
    pub fn write_aligned_prefix(diff: &BitDiff, src: &[u8]) -> (dst: Vec<u8>)
        requires
            valid_radix(K as int),
            diff.prefix is None,
            diff.pos.bits < 8,
            diff.pos.index < src@.len(),
        ensures
            dst@ == split_prefix(
                src@,
                diff.pos.index as int,
                chunk_start(diff.pos.bits as int, radix_bits(K as int)),
            ),
    {
        let index: usize = diff.pos.index;
        assert(index < src.len());
        // since there may be diff bits in the final byte, we must include it
        let mut dst: Vec<u8> = copy_bytes(vstd::slice::slice_subrange(src, 0, index + 1), 0);
        // we isolate the bits that precede the diff
        let keep: u8 = tz_mask(Self::mask(diff.pos.bits));
        proof {
            lemma_radix(K as int);
            lemma_chunk_start(diff.pos.bits as int, radix_bits(K as int));
            lemma_chunk_mask(chunk_start(diff.pos.bits as int, radix_bits(K as int)), radix_bits(K as int));
        }
        let last: u8 = dst[index];
        dst.set(index, last & keep);
        assert(dst@ =~= split_prefix(
            src@,
            index as int,
            chunk_start(diff.pos.bits as int, radix_bits(K as int)),
        ));
        dst
    }

    /// Given a bit position and src bitstring, copy the bits from src behind the aligned log2(K) bits that hold pos:
    /// the range [align(log2(K),pos)+log2(K),src.len()*8). The first byte is written whole: the bits of it before
    /// the range are zeroed out.
    pub fn write_aligned_suffix(pos: &BitPosition, src: &[u8]) -> (dst: Vec<u8>)
        requires
            valid_radix(K as int),
            pos.index <= src@.len(),
            pos.index < src@.len() ==> pos.bits < 8,
        ensures
            dst@ == split_suffix(
                src@,
                pos.index as int,
                chunk_start(pos.bits as int, radix_bits(K as int)) + radix_bits(K as int),
            ),
    {
        if src.len() == pos.index {
            return Vec::new();
        }
        let mut dst: Vec<u8> = copy_bytes(src, pos.index);
        // we isolate the bits that succeed the diff
        let mask: u8 = Self::mask(pos.bits);
        let keep: u8 = lz_mask(mask);
        let first: u8 = dst[0];
        dst.set(0, first & keep);
        proof {
            let width = radix_bits(K as int);
            lemma_radix(K as int);
            lemma_chunk_start(pos.bits as int, width);
            let start = chunk_start(pos.bits as int, width);
            lemma_chunk_mask(start, width);
            lemma_low_bits(start + width);
            lemma_low_bits(8 - mask.leading_zeros());
            assert forall|j: u8| j < 8 implies #[trigger] byte_bit(keep, j) == byte_bit(
                !low_bits(start + width),
                j,
            ) by {
                if j >= start + width {
                    assert(forall|i: u8| j <= i < 8 ==> !byte_bit(mask, i));
                } else {
                    let top = if start + width <= 8 {
                        (start + width - 1) as u8
                    } else {
                        7u8
                    };
                    assert(byte_bit(mask, top));
                }
            }
            lemma_byte_ext(keep, !low_bits(start + width));
            assert(dst@ =~= split_suffix(src@, pos.index as int, start + width));
        }
        dst
    }

    /// Given a prefix, mask, mask_value, and suffix generated by the same [`BitDiff`] and src buffer,
    /// reverse the split to recover a byte string whose contents equal the src buffer
    pub fn recover(prefix: &[u8], mask: u8, mask_value: u8, suffix: &[u8]) -> (merged: Vec<u8>)
        requires
            prefix@.len() > 0,
            suffix@.len() > 0,
            prefix@.len() + suffix@.len() - 1 <= usize::MAX,
            mask != 0,
        ensures
            merged@ == joined(prefix@, mask.trailing_zeros() as int, mask_value, suffix@),
    {
        proof {
            lemma_trailing_zeros(mask);
        }
        let mut merged: Vec<u8> = copy_bytes(prefix, 0);
        let last: usize = merged.len() - 1;
        let bridge: u8 = merged[last] | (mask_value << (mask.trailing_zeros() as u8)) | suffix[0];
        merged.set(last, bridge);
        let mut rest: Vec<u8> = copy_bytes(suffix, 1);
        merged.append(&mut rest);
        assert(merged@ =~= joined(prefix@, mask.trailing_zeros() as int, mask_value, suffix@));
        merged
    }
}

/// Two bits are in the same chunk exactly where their quotients by its width agree.
proof fn lemma_same_chunk(a: int, b: int, width: int)
    requires
        0 <= a,
        0 <= b,
        1 <= width,
    ensures
        chunk_start(b, width) <= a < chunk_start(b, width) + width <==> a / width == b / width,
{
    let q = b / width;
    assert(q * width <= a < q * width + width <==> a / width == q) by (nonlinear_arith)
        requires
            0 <= a,
            1 <= width,
    ;
}

}
