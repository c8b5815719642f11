//! The mathematical model of a trie: a tree of key fragments.
use crate::bitseqops::{
    bit_at, bit_len, byte_bit, chunk_mask, chunk_start, chunk_value, joined, lemma_byte_ext, lemma_byte_ops,
    lemma_byte_shifts, lemma_chunk_mask, lemma_chunk_start, lemma_chunk_value, lemma_chunk_value_eq,
    lemma_low_bits, lemma_small_value, lemma_split_of_join, lemma_split_prefix_bits, lemma_split_suffix_bits,
    lemma_trailing_zeros, low_bits, same_bits, split_prefix, split_suffix,
};
use crate::digestible::{leaf_digest, Digest, Digestible};
use vstd::prelude::*;
use vstd::std_specs::cmp::PartialEqSpec;

verus! {

/// A part of a trie that is hidden behind its digest: all that is known of the keys in it is the bits that
/// they start with.
#[verifier::ext_equal]
pub struct Stub {
    /// the digest that stands for the part
    pub digest: Seq<u8>,
    /// the mask of the branch that was hidden, or 0
    pub mask: u8,
    /// how many bits the keys in it are known to start with
    pub bits: int,
}

/// What a probe for a key meets.
pub enum Fate {
    /// nothing: a value may be stored under the key
    Vacant,
    /// the leaf of the key
    Occupied,
    /// a branch or a hidden part that the key leads to exactly
    Inner,
    /// a key of which the probed one is a prefix, or the other way round
    Prefix,
}

/// A trie, or a part of one.
///
/// A node's `key` is the fragment of the true keys that is stored at it, as whole bytes: it starts with
/// the byte in which the fragment starts, and the bits of that byte before the fragment are 0.
#[verifier::ext_equal]
pub enum Tree<T> {
    /// no node
    Empty,
    /// a value
    Leaf { digest: Seq<u8>, key: Seq<u8>, value: T },
    /// nodes that differ in the chunk of bits that `mask` selects in the last byte of `key`
    Branch { key: Seq<u8>, mask: u8, children: Seq<Tree<T>> },
    /// a hidden part
    Opaque { digest: Seq<u8>, key: Seq<u8>, mask: u8 },
}

/// The widths of the chunks by which a trie branches.
pub open spec fn valid_width(w: int) -> bool {
    w == 1 || w == 2 || w == 4 || w == 8
}

/// A place inside a byte at which a fragment can start.
pub open spec fn aligned(w: int, off: int) -> bool {
    valid_width(w) && 0 <= off <= 8 && off % w == 0
}

/// The two byte strings have the same length and the same bits from `off` on.
pub open spec fn same_key(off: int, a: Seq<u8>, b: Seq<u8>) -> bool {
    a.len() == b.len() && same_bits(a, b, off, bit_len(a))
}

impl<T> Tree<T> {
    pub open spec fn key(self) -> Seq<u8> {
        match self {
            Tree::Empty => Seq::empty(),
            Tree::Leaf { key, .. } => key,
            Tree::Branch { key, .. } => key,
            Tree::Opaque { key, .. } => key,
        }
    }

    /// The mask that cuts the last byte of the key off, or 0 where the byte counts whole.
    pub open spec fn tail(self) -> u8 {
        match self {
            Tree::Branch { mask, .. } => mask,
            Tree::Opaque { mask, .. } => mask,
            _ => 0,
        }
    }

    /// The bit of the last byte of the key at which the fragment ends.
    pub open spec fn start(self) -> int {
        self.tail().trailing_zeros() as int
    }

    /// The bit of the key at which the fragment ends.
    pub open spec fn key_bits(self) -> int {
        self.key().len() * 8 - 8 + self.start()
    }

    /// The key `k` starts with this node's fragment, which starts at bit `off`.
    pub open spec fn covers(self, off: int, k: Seq<u8>) -> bool {
        self.key_bits() <= k.len() * 8 && same_bits(k, self.key(), off, self.key_bits())
    }

    /// The child that the key `k` leads to.
    pub open spec fn slot(self, w: int, k: Seq<u8>) -> int {
        chunk_value(k[self.key().len() - 1], self.start(), w) as int
    }

    /// What is left of the key `k` at the children of this node.
    pub open spec fn rest(self, k: Seq<u8>) -> Seq<u8> {
        k.skip(self.key().len() - 1)
    }

    /// The value that is stored under the key `k`, of which the bits before `off` do not count.
    pub open spec fn value_at(self, w: int, off: int, k: Seq<u8>) -> Option<T>
        decreases self,
    {
        match self {
            Tree::Leaf { digest, key, value } => if self.covers(off, k) && k.len() == key.len() {
                Some(value)
            } else {
                None
            },
            Tree::Branch { key, mask, children } => if self.covers(off, k) && k.len() >= key.len() && self.slot(
                w,
                k,
            ) < children.len() {
                children[self.slot(w, k)].value_at(w, self.start() + w, self.rest(k))
            } else {
                None
            },
            _ => None,
        }
    }

    /// The hidden part that the key `k` leads into.
    pub open spec fn stub_at(self, w: int, off: int, k: Seq<u8>) -> Option<Stub>
        decreases self,
    {
        match self {
            Tree::Opaque { digest, key, mask } => if self.covers(off, k) {
                Some(Stub { digest, mask, bits: self.key_bits() })
            } else {
                None
            },
            Tree::Branch { key, mask, children } => if self.covers(off, k) && k.len() >= key.len() && self.slot(
                w,
                k,
            ) < children.len() {
                match children[self.slot(w, k)].stub_at(w, self.start() + w, self.rest(k)) {
                    Some(stub) => Some(
                        Stub { digest: stub.digest, mask: stub.mask, bits: stub.bits + key.len() * 8 - 8 },
                    ),
                    None => None,
                }
            } else {
                None
            },
            _ => None,
        }
    }

    /// Whether a value is stored under the key `k`, or `None` where a hidden part leaves that open.
    pub open spec fn presence(self, w: int, off: int, k: Seq<u8>) -> Option<bool> {
        if self.stub_at(w, off, k) is Some {
            None
        } else {
            Some(self.value_at(w, off, k) is Some)
        }
    }

    /// What a probe for the key `k` meets.
    pub open spec fn fate(self, w: int, off: int, k: Seq<u8>) -> Fate
        decreases self,
    {
        if self is Empty {
            Fate::Vacant
        } else if self.covers(off, k) {
            if k.len() * 8 == self.key_bits() {
                if self is Leaf {
                    Fate::Occupied
                } else {
                    Fate::Inner
                }
            } else {
                match self {
                    Tree::Branch { key, mask, children } => if self.slot(w, k) < children.len() {
                        children[self.slot(w, k)].fate(w, self.start() + w, self.rest(k))
                    } else {
                        Fate::Prefix
                    },
                    _ => Fate::Prefix,
                }
            }
        } else if k.len() * 8 < self.key_bits() && same_bits(k, self.key(), off, bit_len(k)) {
            Fate::Prefix
        } else {
            Fate::Vacant
        }
    }

    /// The fragment of this node is well formed: it starts at bit `off`, takes at most `room` bytes, and the
    /// bits of its bytes outside it are 0.
    pub open spec fn fragment_wf(self, w: int, off: int, room: int) -> bool {
        &&& 1 <= self.key().len() <= room
        &&& off <= self.key_bits()
        &&& forall|j: u8| j < off ==> !#[trigger] byte_bit(self.key()[0], j)
        &&& self.tail() != 0 ==> {
            &&& self.tail() == chunk_mask(self.start(), w)
            &&& self.start() % w == 0
            &&& forall|j: u8| self.start() <= j < 8 ==> !#[trigger] byte_bit(self.key().last(), j)
        }
    }

    /// This is a compressed trie: every fragment is well formed, every branch has a child for each value of
    /// its chunk, and at least two of them hold something. Only a partial trie has hidden parts.
    pub open spec fn wf(self, w: int, off: int, room: int, partial: bool) -> bool
        decreases self,
    {
        match self {
            Tree::Empty => true,
            Tree::Leaf { .. } => self.fragment_wf(w, off, room),
            Tree::Opaque { .. } => partial && self.fragment_wf(w, off, room),
            Tree::Branch { key, mask, children } => {
                &&& self.fragment_wf(w, off, room)
                &&& mask != 0
                &&& children.len() == low_bits(w) + 1
                &&& forall|i: int|
                    0 <= i < children.len() ==> (#[trigger] children[i]).wf(
                        w,
                        self.start() + w,
                        room - (key.len() - 1),
                        partial,
                    )
                &&& two_occupied(children)
            },
        }
    }
}

/// At least two of the trees hold something.
pub open spec fn two_occupied<T>(children: Seq<Tree<T>>) -> bool {
    exists|i: int, j: int|
        #![trigger children[i], children[j]]
        0 <= i < j < children.len() && !(children[i] is Empty) && !(children[j] is Empty)
}

// ---------------------------------------------------------------------------
// Basic facts
// ---------------------------------------------------------------------------

/// Bits of a byte string behind its first bytes.
pub proof fn lemma_skip_bits(k: Seq<u8>, i: int)
    requires
        0 <= i <= k.len(),
    ensures
        forall|p: int| 0 <= p < (k.len() - i) * 8 ==> #[trigger] bit_at(k.skip(i), p) == bit_at(k, i * 8 + p),
{
    assert forall|p: int| 0 <= p < (k.len() - i) * 8 implies #[trigger] bit_at(k.skip(i), p) == bit_at(
        k,
        i * 8 + p,
    ) by {
        assert((i * 8 + p) / 8 == i + p / 8);
        assert((i * 8 + p) % 8 == p % 8);
    }
}

/// Byte strings of one length that agree on all bits are equal.
pub proof fn lemma_bits_ext(a: Seq<u8>, b: Seq<u8>)
    requires
        a.len() == b.len(),
        same_bits(a, b, 0, bit_len(a)),
    ensures
        a == b,
{
    assert forall|i: int| 0 <= i < a.len() implies a[i] == b[i] by {
        assert forall|j: u8| j < 8 implies #[trigger] byte_bit(a[i], j) == byte_bit(b[i], j) by {
            let p = i * 8 + j;
            assert(p / 8 == i && p % 8 == j);
            assert(bit_at(a, p) == bit_at(b, p));
        }
        lemma_byte_ext(a[i], b[i]);
    }
    assert(a =~= b);
}

/// The bits of one byte, as bits of the byte string that holds it.
pub proof fn lemma_byte_in_seq(s: Seq<u8>, i: int)
    requires
        0 <= i < s.len(),
    ensures
        forall|j: u8| j < 8 ==> #[trigger] byte_bit(s[i], j) == bit_at(s, i * 8 + j),
{
    assert forall|j: u8| j < 8 implies #[trigger] byte_bit(s[i], j) == bit_at(s, i * 8 + j) by {
        let p = i * 8 + j;
        assert(p / 8 == i && p % 8 == j);
    }
}

/// Two byte strings spell the same number in a chunk of a byte exactly where they agree on its bits.
pub proof fn lemma_chunk_in_seq(a: Seq<u8>, b: Seq<u8>, i: int, start: int, w: int)
    requires
        0 <= i < a.len(),
        i < b.len(),
        0 <= start,
        1 <= w,
        start + w <= 8,
    ensures
        chunk_value(a[i], start, w) == chunk_value(b[i], start, w) <==> same_bits(
            a,
            b,
            i * 8 + start,
            i * 8 + start + w,
        ),
{
    lemma_chunk_value_eq(a[i], b[i], start, w);
    lemma_byte_in_seq(a, i);
    lemma_byte_in_seq(b, i);
    if same_bits(a, b, i * 8 + start, i * 8 + start + w) {
        assert forall|j: u8| start <= j < start + w implies #[trigger] byte_bit(a[i], j) == byte_bit(b[i], j) by {
            assert(bit_at(a, i * 8 + j) == bit_at(b, i * 8 + j));
        }
    }
    if chunk_value(a[i], start, w) == chunk_value(b[i], start, w) {
        assert forall|p: int| i * 8 + start <= p < i * 8 + start + w implies #[trigger] bit_at(a, p) == bit_at(
            b,
            p,
        ) by {
            let j = (p - i * 8) as u8;
            assert(byte_bit(a[i], j) == byte_bit(b[i], j));
        }
        assert forall|p: int| i * 8 + start <= p < i * 8 + start + w implies bit_at(a, p) == #[trigger] bit_at(
            b,
            p,
        ) by {
            assert(bit_at(a, p) == bit_at(b, p));
        }
    }
}

/// Chunks of a valid width do not straddle bytes.
pub proof fn lemma_aligned(w: int, start: int, bytes: int)
    requires
        valid_width(w),
        start % w == 0,
    ensures
        (start + w) % w == 0,
        (bytes * 8 + start) % w == 0,
        0 <= start < 8 ==> start + w <= 8,
{
    if w == 1 {
        assert((start + 1) % 1 == 0 && (bytes * 8 + start) % 1 == 0);
    } else if w == 2 {
        assert(start % 2 == 0);
        assert((start + 2) % 2 == 0);
        assert((bytes * 8 + start) % 2 == 0);
    } else if w == 4 {
        assert(start % 4 == 0);
        assert((start + 4) % 4 == 0);
        assert((bytes * 8 + start) % 4 == 0);
    } else {
        assert(start % 8 == 0);
        assert((start + 8) % 8 == 0);
        assert((bytes * 8 + start) % 8 == 0);
    }
}

/// The chunk that ends at a multiple of its width.
pub proof fn lemma_chunk_end(end: int, w: int)
    requires
        valid_width(w),
        0 < end <= 8,
        end % w == 0,
    ensures
        chunk_start(end - 1, w) + w == end,
{
    lemma_chunk_start(end - 1, w);
    let a = chunk_start(end - 1, w);
    if w == 1 {
    } else if w == 2 {
        assert(a % 2 == 0 && end % 2 == 0);
    } else if w == 4 {
        assert(a % 4 == 0 && end % 4 == 0);
    } else {
        assert(a % 8 == 0 && end % 8 == 0);
    }
}

/// The chunk that starts at a multiple of its width.
pub proof fn lemma_chunk_at(start: int, w: int)
    requires
        valid_width(w),
        0 <= start < 8,
        start % w == 0,
    ensures
        chunk_start(start, w) == start,
{
    lemma_aligned(w, start, 0);
    lemma_chunk_end(start + w, w);
    lemma_chunk_start(start, w);
    lemma_chunk_start(start + w - 1, w);
    let a = chunk_start(start, w);
    if w == 1 {
    } else if w == 2 {
        assert(a % 2 == 0 && start % 2 == 0);
    } else if w == 4 {
        assert(a % 4 == 0 && start % 4 == 0);
    } else {
        assert(a % 8 == 0 && start % 8 == 0);
    }
}

impl<T> Tree<T> {
    /// The bounds of a branch's chunk.
    pub proof fn lemma_branch_bounds(self, w: int, off: int, room: int, partial: bool)
        requires
            aligned(w, off),
            self is Branch,
            self.wf(w, off, room, partial),
        ensures
            0 <= self.start(),
            self.start() + w <= 8,
            self.start() % w == 0,
            aligned(w, self.start() + w),
            self.key_bits() < self.key().len() * 8,
            self.key_bits() % w == 0,
            forall|k: Seq<u8>| #[trigger] self.slot(w, k) <= low_bits(w),
            forall|k: Seq<u8>| #[trigger] self.slot(w, k) < self->children.len(),
    {
        lemma_trailing_zeros(self.tail());
        let s = self.start();
        lemma_aligned(w, s, self.key().len() - 1);
        assert forall|k: Seq<u8>| #[trigger] self.slot(w, k) <= low_bits(w) by {
            lemma_chunk_value(k[self.key().len() - 1], s, w);
        }
    }

    /// More room does no harm.
    pub proof fn lemma_room(self, w: int, off: int, room: int, more: int, partial: bool)
        requires
            self.wf(w, off, room, partial),
            room <= more,
        ensures
            self.wf(w, off, more, partial),
        decreases self,
    {
        match self {
            Tree::Branch { key, mask, children } => {
                assert forall|i: int| 0 <= i < children.len() implies (#[trigger] children[i]).wf(
                    w,
                    self.start() + w,
                    more - (key.len() - 1),
                    partial,
                ) by {
                    children[i].lemma_room(
                        w,
                        self.start() + w,
                        room - (key.len() - 1),
                        more - (key.len() - 1),
                        partial,
                    );
                }
            },
            _ => {},
        }
    }

    /// A trie that hides nothing is one that may.
    pub proof fn lemma_partial(self, w: int, off: int, room: int)
        requires
            self.wf(w, off, room, false),
        ensures
            self.wf(w, off, room, true),
        decreases self,
    {
        match self {
            Tree::Branch { key, mask, children } => {
                assert forall|i: int| 0 <= i < children.len() implies (#[trigger] children[i]).wf(
                    w,
                    self.start() + w,
                    room - (key.len() - 1),
                    true,
                ) by {
                    children[i].lemma_partial(w, self.start() + w, room - (key.len() - 1));
                }
            },
            _ => {},
        }
    }

    /// Where a key leads depends on its bits from the node on only.
    pub proof fn lemma_same_key(self, w: int, off: int, room: int, partial: bool, a: Seq<u8>, b: Seq<u8>)
        requires
            aligned(w, off),
            self.wf(w, off, room, partial),
            same_key(off, a, b),
        ensures
            self.value_at(w, off, a) == self.value_at(w, off, b),
            self.stub_at(w, off, a) == self.stub_at(w, off, b),
            self.fate(w, off, a) == self.fate(w, off, b),
        decreases self,
    {
        if !(self is Empty) {
            lemma_trailing_zeros(self.tail());
            assert(self.covers(off, a) == self.covers(off, b));
            if a.len() * 8 < self.key_bits() {
                assert(same_bits(a, self.key(), off, bit_len(a)) == same_bits(b, self.key(), off, bit_len(a)));
            }
        }
        if self is Branch && self.covers(off, a) && a.len() >= self.key().len() {
            self.lemma_branch_bounds(w, off, room, partial);
            let i = self.key().len() - 1;
            lemma_chunk_in_seq(a, b, i, self.start(), w);
            assert(self.slot(w, a) == self.slot(w, b));
            lemma_skip_bits(a, i);
            lemma_skip_bits(b, i);
            assert(same_key(self.start() + w, self.rest(a), self.rest(b)));
            self->children[self.slot(w, a)].lemma_same_key(
                w,
                self.start() + w,
                room - i,
                partial,
                self.rest(a),
                self.rest(b),
            );
        }
    }
}


// ---------------------------------------------------------------------------
// Cutting a fragment in two
// ---------------------------------------------------------------------------

/// The two nodes differ in their key, and in the digest of a leaf, at most.
pub open spec fn same_body<T>(x: Tree<T>, y: Tree<T>) -> bool {
    match (x, y) {
        (Tree::Leaf { value: a, .. }, Tree::Leaf { value: b, .. }) => a == b,
        (Tree::Branch { mask: m, children: c, .. }, Tree::Branch { mask: n, children: d, .. }) => m == n && c == d,
        (Tree::Opaque { digest: a, mask: m, .. }, Tree::Opaque { digest: b, mask: n, .. }) => a == b && m == n,
        _ => false,
    }
}

/// The key `k` agrees with the fragment `key` up to the end of the chunk at bit `start` of byte `index`.
pub open spec fn passes(key: Seq<u8>, off: int, index: int, start: int, w: int, k: Seq<u8>) -> bool {
    k.len() > index && same_bits(k, key, off, index * 8 + start + w)
}

/// The hidden part `stub`, seen from `bytes` bytes further up.
pub open spec fn lift_stub(stub: Option<Stub>, bytes: int) -> Option<Stub> {
    match stub {
        Some(s) => Some(Stub { digest: s.digest, mask: s.mask, bits: s.bits + bytes * 8 }),
        None => None,
    }
}

/// What a node holds is what it holds below a chunk of its fragment, for the keys that agree with the
/// fragment that far.
pub proof fn lemma_cut<T>(
    x: Tree<T>,
    y: Tree<T>,
    w: int,
    off: int,
    room: int,
    partial: bool,
    index: int,
    start: int,
)
    requires
        aligned(w, off),
        !(x is Empty),
        x.wf(w, off, room, partial),
        same_body(x, y),
        0 <= index < x.key().len(),
        0 <= start,
        start % w == 0,
        start + w <= 8,
        off <= index * 8 + start,
        index * 8 + start + w <= x.key_bits(),
        y.key() == split_suffix(x.key(), index, start + w),
    ensures
        y.wf(w, start + w, room - index, partial),
        y.key().len() == x.key().len() - index,
        forall|k: Seq<u8>| #[trigger]
            x.value_at(w, off, k) == if passes(x.key(), off, index, start, w, k) {
                y.value_at(w, start + w, k.skip(index))
            } else {
                None
            },
        forall|k: Seq<u8>| #[trigger]
            x.stub_at(w, off, k) == if passes(x.key(), off, index, start, w, k) {
                lift_stub(y.stub_at(w, start + w, k.skip(index)), index)
            } else {
                None
            },
{
    let key = x.key();
    let cut = index * 8 + start + w;
    let end = start + w;
    lemma_trailing_zeros(x.tail());
    lemma_split_suffix_bits(key, index, end);
    lemma_cut_wf(x, y, w, off, room, partial, index, start);
    assert forall|k: Seq<u8>|
        k.len() >= index implies (x.covers(off, k) <==> passes(key, off, index, start, w, k) && #[trigger] y.covers(
        end,
        k.skip(index),
    )) by {
        let r = k.skip(index);
        lemma_skip_bits(k, index);
        assert(y.key_bits() == x.key_bits() - index * 8);
        if x.covers(off, k) {
            assert forall|p: int| end <= p < y.key_bits() implies #[trigger] bit_at(r, p) == bit_at(y.key(), p) by {
                assert(bit_at(k, index * 8 + p) == bit_at(key, index * 8 + p));
            }
        }
        if passes(key, off, index, start, w, k) && y.covers(end, r) {
            assert forall|p: int| off <= p < x.key_bits() implies #[trigger] bit_at(k, p) == bit_at(key, p) by {
                if p >= cut {
                    let q = p - index * 8;
                    assert(bit_at(r, q) == bit_at(y.key(), q));
                    assert(bit_at(y.key(), q) == bit_at(key, index * 8 + q));
                }
            }
        }
    }
    assert forall|k: Seq<u8>| #[trigger]
        x.value_at(w, off, k) == if passes(key, off, index, start, w, k) {
            y.value_at(w, end, k.skip(index))
        } else {
            None
        } by {
        let r = k.skip(index);
        if k.len() >= index {
            assert(x.covers(off, k) <==> passes(key, off, index, start, w, k) && y.covers(end, r));
            if x is Branch && k.len() >= key.len() {
                assert(r[y.key().len() - 1] == k[key.len() - 1]);
                assert(y.rest(r) =~= x.rest(k));
            }
        }
    }
    assert forall|k: Seq<u8>| #[trigger]
        x.stub_at(w, off, k) == if passes(key, off, index, start, w, k) {
            lift_stub(y.stub_at(w, end, k.skip(index)), index)
        } else {
            None
        } by {
        let r = k.skip(index);
        if k.len() >= index {
            assert(x.covers(off, k) <==> passes(key, off, index, start, w, k) && y.covers(end, r));
            if x is Branch && k.len() >= key.len() {
                assert(r[y.key().len() - 1] == k[key.len() - 1]);
                assert(y.rest(r) =~= x.rest(k));
            }
        }
    }
}

/// The lower part of a fragment that is cut in two is well formed.
proof fn lemma_cut_wf<T>(
    x: Tree<T>,
    y: Tree<T>,
    w: int,
    off: int,
    room: int,
    partial: bool,
    index: int,
    start: int,
)
    requires
        aligned(w, off),
        !(x is Empty),
        x.wf(w, off, room, partial),
        same_body(x, y),
        0 <= index < x.key().len(),
        0 <= start,
        start % w == 0,
        start + w <= 8,
        off <= index * 8 + start,
        index * 8 + start + w <= x.key_bits(),
        y.key() == split_suffix(x.key(), index, start + w),
    ensures
        y.wf(w, start + w, room - index, partial),
        y.key().len() == x.key().len() - index,
{
    let key = x.key();
    let end = start + w;
    lemma_trailing_zeros(x.tail());
    lemma_split_suffix_bits(key, index, end);
    lemma_low_bits(end);
    lemma_byte_ops(key[index], !low_bits(end));
    assert(y.tail() == x.tail());
    assert(y.key().len() == key.len() - index);
    assert(y.key()[0] == key[index] & !low_bits(end));
    if x.tail() != 0 {
        if index < key.len() - 1 {
            assert(y.key().last() == key.last());
        } else {
            assert(y.key().last() == key.last() & !low_bits(end));
        }
    }
    assert(y.fragment_wf(w, end, room - index));
}

/// A fragment that is put together from two parts is well formed.
pub proof fn lemma_join_wf<T>(
    x: Tree<T>,
    y: Tree<T>,
    w: int,
    off: int,
    room: int,
    partial: bool,
    prefix: Seq<u8>,
    start: int,
    value: u8,
)
    requires
        aligned(w, off),
        same_body(x, y),
        prefix.len() >= 1,
        0 <= start,
        start % w == 0,
        start + w <= 8,
        off <= (prefix.len() - 1) * 8 + start,
        forall|j: u8| j < off ==> !#[trigger] byte_bit(prefix[0], j),
        forall|j: u8| start <= j < 8 ==> !#[trigger] byte_bit(prefix.last(), j),
        value <= low_bits(w),
        y.wf(w, start + w, room - (prefix.len() - 1), partial),
        x.key() == joined(prefix, start, value, y.key()),
    ensures
        x.wf(w, off, room, partial),
        y.key() == split_suffix(x.key(), prefix.len() - 1, start + w),
        prefix == split_prefix(x.key(), prefix.len() - 1, start),
        chunk_value(x.key()[prefix.len() - 1], start, w) == value,
        x.key().len() == prefix.len() - 1 + y.key().len(),
        (prefix.len() - 1) * 8 + start + w <= x.key_bits(),
{
    let key = x.key();
    let index = prefix.len() - 1;
    lemma_trailing_zeros(x.tail());
    lemma_split_of_join(prefix, start, w, value, y.key());
    assert(!(y is Empty));
    assert(x.tail() == y.tail());
    lemma_byte_shifts(value, start as u8);
    let lo = prefix.last();
    let mid = value << (start as u8);
    let hi = y.key()[0];
    lemma_byte_ops(lo, mid);
    lemma_byte_ops(lo | mid, hi);
    assert forall|j: u8| j < off implies !#[trigger] byte_bit(key[0], j) by {
        if index == 0 {
            assert(key[0] == lo | mid | hi);
            assert(!byte_bit(prefix[0], j));
        } else {
            assert(key[0] == prefix[0]);
        }
    }
    if x.tail() != 0 {
        assert forall|j: u8| x.start() <= j < 8 implies !#[trigger] byte_bit(key.last(), j) by {
            if y.key().len() == 1 {
                assert(key.last() == lo | mid | hi);
                assert(!byte_bit(y.key().last(), j));
                assert(j >= start + w);
                lemma_small_value(value, w);
                assert(byte_bit(mid, j) <==> byte_bit(value, (j - start) as u8));
            } else {
                assert(key.last() == y.key().last());
            }
        }
    }
    assert(x.fragment_wf(w, off, room));
}


// ---------------------------------------------------------------------------
// Changing what is stored under one key
// ---------------------------------------------------------------------------

/// `now` holds `v` under the key `k`, and under every other key what `was` holds. It hides what `was` hides.
pub open spec fn changed_at<T>(
    was: Tree<T>,
    now: Tree<T>,
    w: int,
    off: int,
    k: Seq<u8>,
    v: Option<T>,
) -> bool {
    &&& forall|j: Seq<u8>| #[trigger]
        now.value_at(w, off, j) == if same_key(off, k, j) {
            v
        } else {
            was.value_at(w, off, j)
        }
    &&& forall|j: Seq<u8>| #[trigger] now.stub_at(w, off, j) == was.stub_at(w, off, j)
}

/// Nothing was changed.
pub proof fn lemma_unchanged<T>(t: Tree<T>, w: int, off: int, room: int, partial: bool, k: Seq<u8>)
    requires
        aligned(w, off),
        t.wf(w, off, room, partial),
    ensures
        changed_at(t, t, w, off, k, t.value_at(w, off, k)),
{
    assert forall|j: Seq<u8>| same_key(off, k, j) implies #[trigger] t.value_at(w, off, j) == t.value_at(w, off, k) by {
        t.lemma_same_key(w, off, room, partial, k, j);
    }
}

/// A leaf is made for a key where there was nothing.
pub proof fn lemma_new_leaf<T>(z: Tree<T>, w: int, off: int, room: int, partial: bool, k: Seq<u8>)
    requires
        aligned(w, off),
        z is Leaf,
        1 <= k.len() <= room,
        z.key() == split_suffix(k, 0, off),
    ensures
        z.wf(w, off, room, partial),
        changed_at(Tree::Empty, z, w, off, k, Some(z->value)),
{
    lemma_trailing_zeros(0u8);
    lemma_split_suffix_bits(k, 0, off);
    lemma_low_bits(off);
    lemma_byte_ops(k[0], !low_bits(off));
    assert(z.key()[0] == k[0] & !low_bits(off));
    assert(z.fragment_wf(w, off, room));
    assert(z.key_bits() == bit_len(k));
    assert(same_key(off, k, z.key()));
    lemma_leaf_keys(z, w, off, k);
}

/// A leaf is for the keys that agree with its own from its fragment on.
pub proof fn lemma_leaf_keys<T>(t: Tree<T>, w: int, off: int, k: Seq<u8>)
    requires
        t is Leaf,
        same_key(off, k, t.key()),
        off <= bit_len(k),
    ensures
        forall|j: Seq<u8>| #[trigger]
            t.value_at(w, off, j) == if same_key(off, k, j) {
                Some(t->value)
            } else {
                None
            },
        t.covers(off, k),
        k.len() == t.key().len(),
{
    lemma_trailing_zeros(0u8);
    assert(t.key_bits() == bit_len(k));
    assert forall|j: Seq<u8>| #[trigger]
        t.value_at(w, off, j) == if same_key(off, k, j) {
            Some(t->value)
        } else {
            None
        } by {
        if j.len() == k.len() {
            if same_key(off, k, j) {
                assert forall|q: int| off <= q < bit_len(k) implies #[trigger] bit_at(j, q) == bit_at(t.key(), q) by {
                    assert(bit_at(k, q) == bit_at(j, q));
                }
            }
            if t.covers(off, j) {
                assert forall|q: int| off <= q < bit_len(k) implies #[trigger] bit_at(k, q) == bit_at(j, q) by {
                    assert(bit_at(j, q) == bit_at(t.key(), q));
                }
            }
        }
    }
}

/// The key `k` parts from the fragment `key` at the bit `p`.
pub open spec fn parts_at(key: Seq<u8>, off: int, k: Seq<u8>, p: int) -> bool {
    off <= p < bit_len(k) && same_bits(k, key, off, p) && bit_at(k, p) != bit_at(key, p)
}

/// The chunk in which a key parts from a fragment lies inside the fragment.
pub proof fn lemma_parting_chunk<T>(x: Tree<T>, w: int, off: int, room: int, partial: bool, p: int)
    requires
        aligned(w, off),
        !(x is Empty),
        x.wf(w, off, room, partial),
        off <= p < x.key_bits(),
    ensures
        ({
            let index = p / 8;
            let start = chunk_start(p % 8, w);
            &&& 0 <= index < x.key().len()
            &&& 0 <= start
            &&& start % w == 0
            &&& start + w <= 8
            &&& off <= index * 8 + start <= p < index * 8 + start + w <= x.key_bits()
        }),
{
    lemma_chunk_start(p % 8, w);
    lemma_trailing_zeros(x.tail());
    let index = p / 8;
    let start = chunk_start(p % 8, w);
    let a = index * 8 + start;
    lemma_aligned(w, x.start(), x.key().len() - 1);
    lemma_aligned(w, start, index);
    if w == 1 {
    } else if w == 2 {
        assert(off % 2 == 0 && a % 2 == 0 && x.key_bits() % 2 == 0);
    } else if w == 4 {
        assert(off % 4 == 0 && a % 4 == 0 && x.key_bits() % 4 == 0);
    } else {
        assert(off % 8 == 0 && a % 8 == 0 && x.key_bits() % 8 == 0);
    }
}

/// `b` is the branch at which a new leaf `z` for the key `k` stands beside `y`, which is `x` below the chunk in
/// which `k` parts from its fragment.
pub open spec fn is_split<T>(
    x: Tree<T>,
    y: Tree<T>,
    z: Tree<T>,
    b: Tree<T>,
    w: int,
    k: Seq<u8>,
    index: int,
    start: int,
    v: T,
) -> bool {
    &&& same_body(x, y)
    &&& y.key() == split_suffix(x.key(), index, start + w)
    &&& z matches Tree::Leaf { key, value, .. }
    &&& key == split_suffix(k, index, start + w)
    &&& value == v
    &&& b matches Tree::Branch { key, mask, children }
    &&& key == split_prefix(x.key(), index, start)
    &&& mask == chunk_mask(start, w)
    &&& children.len() == low_bits(w) + 1
    &&& children[chunk_value(x.key()[index], start, w) as int] == y
    &&& children[chunk_value(k[index], start, w) as int] == z
    &&& forall|i: int|
        0 <= i < children.len() && i != chunk_value(x.key()[index], start, w) && i != chunk_value(
            k[index],
            start,
            w,
        ) ==> #[trigger] children[i] is Empty
}

/// A leaf for a new key is put beside a node from whose fragment the key parts.
pub proof fn lemma_split<T>(
    x: Tree<T>,
    y: Tree<T>,
    z: Tree<T>,
    b: Tree<T>,
    w: int,
    off: int,
    room: int,
    partial: bool,
    k: Seq<u8>,
    p: int,
    v: T,
)
    requires
        aligned(w, off),
        !(x is Empty),
        x.wf(w, off, room, partial),
        k.len() <= room,
        p < x.key_bits(),
        parts_at(x.key(), off, k, p),
        is_split(x, y, z, b, w, k, p / 8, chunk_start(p % 8, w), v),
    ensures
        b.wf(w, off, room, partial),
        changed_at(x, b, w, off, k, Some(v)),
        x.value_at(w, off, k) is None,
        x.fate(w, off, k) is Vacant,
{
    let index = p / 8;
    let start = chunk_start(p % 8, w);
    let end = start + w;
    let key = x.key();
    let sx = chunk_value(key[index], start, w) as int;
    let sk = chunk_value(k[index], start, w) as int;
    let children = b->children;
    lemma_parting_chunk(x, w, off, room, partial, p);
    lemma_chunk_mask(start, w);
    lemma_chunk_value(key[index], start, w);
    lemma_chunk_value(k[index], start, w);
    lemma_chunk_in_seq(k, key, index, start, w);
    assert(sx != sk) by {
        assert(bit_at(k, p) != bit_at(key, p));
    }
    lemma_cut(x, y, w, off, room, partial, index, start);
    lemma_split_wf(x, y, z, b, w, off, room, partial, k, index, start, v);
    assert forall|j: Seq<u8>|
        b.covers(off, j) implies (b.value_at(w, off, j) == if j.len() > index {
            children[b.slot(w, j)].value_at(w, end, j.skip(index))
        } else {
            None
        }) && (#[trigger] b.stub_at(w, off, j) == if j.len() > index {
            lift_stub(children[b.slot(w, j)].stub_at(w, end, j.skip(index)), index)
        } else {
            None
        }) by {
        if j.len() > index {
            lemma_chunk_value(j[index], start, w);
            assert(b.rest(j) =~= j.skip(index));
        }
    }
    assert forall|j: Seq<u8>|
        #![trigger b.value_at(w, off, j)]
        #![trigger b.stub_at(w, off, j)]
        b.value_at(w, off, j) == (if same_key(off, k, j) {
            Some(v)
        } else {
            x.value_at(w, off, j)
        }) && b.stub_at(w, off, j) == x.stub_at(w, off, j) by {
        if j.len() > index {
            lemma_split_path(x, y, z, b, w, off, k, index, start, v, j);
            lemma_chunk_value(j[index], start, w);
            let s = b.slot(w, j);
            if s != sk && s != sx {
                assert(children[s] is Empty);
            }
        } else {
            assert(!same_key(off, k, j));
            assert(!passes(key, off, index, start, w, j));
        }
    }
    lemma_trailing_zeros(x.tail());
    assert(!x.covers(off, k));
    assert(!same_bits(k, key, off, bit_len(k)));
}

/// The branch that a split makes is well formed.
proof fn lemma_split_wf<T>(
    x: Tree<T>,
    y: Tree<T>,
    z: Tree<T>,
    b: Tree<T>,
    w: int,
    off: int,
    room: int,
    partial: bool,
    k: Seq<u8>,
    index: int,
    start: int,
    v: T,
)
    requires
        aligned(w, off),
        !(x is Empty),
        x.wf(w, off, room, partial),
        is_split(x, y, z, b, w, k, index, start, v),
        0 <= index < x.key().len(),
        index < k.len() <= room,
        0 <= start,
        start % w == 0,
        start + w <= 8,
        off <= index * 8 + start,
        y.wf(w, start + w, room - index, partial),
        chunk_value(x.key()[index], start, w) != chunk_value(k[index], start, w),
    ensures
        b.wf(w, off, room, partial),
{
    let end = start + w;
    let key = x.key();
    let sx = chunk_value(key[index], start, w) as int;
    let sk = chunk_value(k[index], start, w) as int;
    let children = b->children;
    lemma_chunk_mask(start, w);
    lemma_chunk_value(key[index], start, w);
    lemma_chunk_value(k[index], start, w);
    lemma_split_prefix_bits(key, index, start);
    lemma_split_suffix_bits(k, index, end);
    lemma_low_bits(end);
    lemma_low_bits(start);
    lemma_byte_ops(k[index], !low_bits(end));
    lemma_byte_ops(key[index], low_bits(start));
    lemma_trailing_zeros(0u8);
    assert(z.fragment_wf(w, end, room - index)) by {
        assert(z.key()[0] == k[index] & !low_bits(end));
    }
    assert(b.fragment_wf(w, off, room)) by {
        assert(b.key().last() == key[index] & low_bits(start));
        assert forall|j: u8| j < off implies !#[trigger] byte_bit(b.key()[0], j) by {
            assert(!byte_bit(key[0], j));
            if index == 0 {
                assert(b.key()[0] == key[0] & low_bits(start));
            } else {
                assert(b.key()[0] == key[0]);
            }
        }
    }
    assert(two_occupied(children)) by {
        if sx < sk {
            assert(!(children[sx] is Empty) && !(children[sk] is Empty));
        } else {
            assert(!(children[sk] is Empty) && !(children[sx] is Empty));
        }
    }
    assert forall|i: int| 0 <= i < children.len() implies (#[trigger] children[i]).wf(
        w,
        end,
        room - index,
        partial,
    ) by {
        if i != sx && i != sk {
            assert(children[i] is Empty);
        }
    }
}

/// Which way a key goes at the branch that a split makes.
proof fn lemma_split_path<T>(
    x: Tree<T>,
    y: Tree<T>,
    z: Tree<T>,
    b: Tree<T>,
    w: int,
    off: int,
    k: Seq<u8>,
    index: int,
    start: int,
    v: T,
    j: Seq<u8>,
)
    requires
        is_split(x, y, z, b, w, k, index, start, v),
        valid_width(w),
        0 <= off,
        0 <= index < x.key().len(),
        index < k.len(),
        index < j.len(),
        0 <= start,
        start + w <= 8,
        off <= index * 8 + start,
        same_bits(k, x.key(), off, index * 8 + start),
    ensures
        b.key_bits() == index * 8 + start,
        b.key().len() == index + 1,
        b.start() == start,
        b.slot(w, j) == chunk_value(j[index], start, w),
        passes(x.key(), off, index, start, w, j) <==> b.covers(off, j) && b.slot(w, j) == chunk_value(
            x.key()[index],
            start,
            w,
        ),
        same_key(off, k, j) <==> b.covers(off, j) && b.slot(w, j) == chunk_value(k[index], start, w)
            && z.value_at(w, start + w, j.skip(index)) is Some,
{
    let end = start + w;
    let key = x.key();
    let r = j.skip(index);
    lemma_chunk_mask(start, w);
    lemma_split_prefix_bits(key, index, start);
    lemma_split_suffix_bits(k, index, end);
    lemma_skip_bits(j, index);
    lemma_trailing_zeros(0u8);
    assert(b.covers(off, j) <==> same_bits(j, key, off, index * 8 + start)) by {
        assert forall|q: int| off <= q < index * 8 + start implies #[trigger] bit_at(b.key(), q) == bit_at(key, q) by {}
        if b.covers(off, j) {
            assert forall|q: int| off <= q < index * 8 + start implies #[trigger] bit_at(j, q) == bit_at(key, q) by {
                assert(bit_at(b.key(), q) == bit_at(key, q));
            }
        }
        if same_bits(j, key, off, index * 8 + start) {
            assert forall|q: int| off <= q < index * 8 + start implies #[trigger] bit_at(j, q) == bit_at(
                b.key(),
                q,
            ) by {
                assert(bit_at(b.key(), q) == bit_at(key, q));
            }
        }
    }
    lemma_chunk_in_seq(j, key, index, start, w);
    lemma_chunk_in_seq(k, j, index, start, w);
    if passes(key, off, index, start, w, j) {
        assert(same_bits(j, key, index * 8 + start, index * 8 + end));
    }
    if b.covers(off, j) && b.slot(w, j) == chunk_value(key[index], start, w) {
        assert(same_bits(j, key, index * 8 + start, index * 8 + end));
        assert forall|q: int| off <= q < index * 8 + end implies #[trigger] bit_at(j, q) == bit_at(key, q) by {
            assert(q < index * 8 + start || q >= index * 8 + start);
        }
    }
    assert(z.key_bits() == bit_len(z.key()));
    if same_key(off, k, j) {
        assert forall|q: int| off <= q < index * 8 + start implies #[trigger] bit_at(j, q) == bit_at(key, q) by {
            assert(bit_at(k, q) == bit_at(key, q));
        }
        assert forall|q: int| end <= q < z.key_bits() implies #[trigger] bit_at(r, q) == bit_at(z.key(), q) by {
            assert(bit_at(j, index * 8 + q) == bit_at(k, index * 8 + q));
        }
    }
    if b.covers(off, j) && b.slot(w, j) == chunk_value(k[index], start, w) && z.value_at(w, end, r) is Some {
        assert(same_bits(k, j, index * 8 + start, index * 8 + end));
        assert forall|q: int| off <= q < bit_len(k) implies #[trigger] bit_at(k, q) == bit_at(j, q) by {
            if q < index * 8 + start {
                assert(bit_at(k, q) == bit_at(key, q));
                assert(bit_at(j, q) == bit_at(key, q));
            } else if q < index * 8 + end {
            } else {
                let u = q - index * 8;
                assert(bit_at(r, u) == bit_at(z.key(), u));
                assert(bit_at(z.key(), u) == bit_at(k, index * 8 + u));
            }
        }
    }
}

/// A child of a branch is replaced by one that differs from it in what is stored under one key.
pub proof fn lemma_descend<T>(
    was: Tree<T>,
    now: Tree<T>,
    w: int,
    off: int,
    room: int,
    partial: bool,
    k: Seq<u8>,
    v: Option<T>,
)
    requires
        aligned(w, off),
        was is Branch,
        was.wf(w, off, room, partial),
        was.covers(off, k),
        k.len() >= was.key().len(),
        now matches Tree::Branch { key, mask, children } && key == was.key() && mask == was.tail() && children
            == was->children.update(was.slot(w, k), children[was.slot(w, k)]),
        changed_at(
            was->children[was.slot(w, k)],
            now->children[was.slot(w, k)],
            w,
            was.start() + w,
            was.rest(k),
            v,
        ),
    ensures
        changed_at(was, now, w, off, k, v),
        was.value_at(w, off, k) == was->children[was.slot(w, k)].value_at(w, was.start() + w, was.rest(k)),
        was.fate(w, off, k) == was->children[was.slot(w, k)].fate(w, was.start() + w, was.rest(k)),
{
    was.lemma_branch_bounds(w, off, room, partial);
    let s = was.slot(w, k);
    let i = was.key().len() - 1;
    let end = was.start() + w;
    assert(now.start() == was.start());
    assert(forall|j: Seq<u8>| #[trigger] now.slot(w, j) == was.slot(w, j));
    assert(forall|j: Seq<u8>| #[trigger] now.rest(j) == was.rest(j));
    assert forall|j: Seq<u8>|
        #![trigger same_key(off, k, j)]
        was.covers(off, j) && j.len() >= was.key().len() && was.slot(w, j) == s implies (same_key(off, k, j)
        <==> same_key(was.start() + w, was.rest(k), was.rest(j))) by {
        lemma_skip_bits(k, i);
        lemma_skip_bits(j, i);
        lemma_chunk_in_seq(k, j, i, was.start(), w);
        if same_key(was.start() + w, was.rest(k), was.rest(j)) {
            assert forall|q: int| off <= q < bit_len(k) implies #[trigger] bit_at(k, q) == bit_at(j, q) by {
                if q < was.key_bits() {
                    assert(bit_at(k, q) == bit_at(was.key(), q));
                    assert(bit_at(j, q) == bit_at(was.key(), q));
                } else if q >= was.key_bits() + w {
                    assert(bit_at(was.rest(k), q - i * 8) == bit_at(was.rest(j), q - i * 8));
                }
            }
        }
    }
    assert forall|j: Seq<u8>| same_key(off, k, j) implies was.covers(off, j) && j.len() >= was.key().len()
        && was.slot(w, j) == s by {
        lemma_chunk_in_seq(k, j, i, was.start(), w);
        assert forall|q: int| off <= q < was.key_bits() implies #[trigger] bit_at(j, q) == bit_at(was.key(), q) by {
            assert(bit_at(k, q) == bit_at(j, q));
            assert(bit_at(k, q) == bit_at(was.key(), q));
        }
    }
    assert forall|j: Seq<u8>| #[trigger]
        now.value_at(w, off, j) == if same_key(off, k, j) {
            v
        } else {
            was.value_at(w, off, j)
        } by {
        assert(now.covers(off, j) == was.covers(off, j));
        if was.covers(off, j) && j.len() >= was.key().len() {
            let u = was.slot(w, j);
            assert(now.value_at(w, off, j) == now->children[u].value_at(w, end, was.rest(j)));
            assert(was.value_at(w, off, j) == was->children[u].value_at(w, end, was.rest(j)));
        }
    }
    assert forall|j: Seq<u8>| #[trigger] now.stub_at(w, off, j) == was.stub_at(w, off, j) by {
        assert(now.covers(off, j) == was.covers(off, j));
        if was.covers(off, j) && j.len() >= was.key().len() {
            let u = was.slot(w, j);
            assert(now->children[u].stub_at(w, end, was.rest(j)) == was->children[u].stub_at(
                w,
                end,
                was.rest(j),
            ));
            assert(now.stub_at(w, off, j) == lift_stub(now->children[u].stub_at(w, end, was.rest(j)), i));
            assert(was.stub_at(w, off, j) == lift_stub(was->children[u].stub_at(w, end, was.rest(j)), i));
        }
    }
}

/// A branch of which one child is left is the same as that child, with the fragments put together.
pub proof fn lemma_merge<T>(
    was: Tree<T>,
    x: Tree<T>,
    w: int,
    off: int,
    room: int,
    partial: bool,
    s: int,
)
    requires
        aligned(w, off),
        was is Branch,
        was.fragment_wf(w, off, room),
        was.tail() != 0,
        was->children.len() == low_bits(w) + 1,
        0 <= s < was->children.len(),
        was->children[s].wf(w, was.start() + w, room - (was.key().len() - 1), partial),
        forall|i: int| 0 <= i < was->children.len() && i != s ==> #[trigger] was->children[i] is Empty,
        same_body(x, was->children[s]),
        x.key() == joined(was.key(), was.start(), s as u8, was->children[s].key()),
    ensures
        x.wf(w, off, room, partial),
        forall|j: Seq<u8>| #[trigger] x.value_at(w, off, j) == was.value_at(w, off, j),
        forall|j: Seq<u8>| #[trigger] x.stub_at(w, off, j) == was.stub_at(w, off, j),
{
    lemma_trailing_zeros(was.tail());
    let y = was->children[s];
    let key = x.key();
    let index = was.key().len() - 1;
    let start = was.start();
    let end = start + w;
    lemma_join_wf(x, y, w, off, room, partial, was.key(), start, s as u8);
    lemma_cut(x, y, w, off, room, partial, index, start);
    lemma_split_prefix_bits(key, index, start);
    assert forall|j: Seq<u8>| j.len() > index implies (passes(key, off, index, start, w, j) <==> #[trigger] was.covers(
        off,
        j,
    ) && was.slot(w, j) == s) by {
        lemma_chunk_in_seq(j, key, index, start, w);
        if passes(key, off, index, start, w, j) {
            assert forall|q: int| off <= q < index * 8 + start implies #[trigger] bit_at(j, q) == bit_at(
                was.key(),
                q,
            ) by {
                assert(bit_at(was.key(), q) == bit_at(key, q));
                assert(bit_at(j, q) == bit_at(key, q));
            }
            assert(same_bits(j, key, index * 8 + start, index * 8 + end));
        }
        if was.covers(off, j) && was.slot(w, j) == s {
            assert(same_bits(j, key, index * 8 + start, index * 8 + end));
            assert forall|q: int| off <= q < index * 8 + end implies #[trigger] bit_at(j, q) == bit_at(key, q) by {
                if q < index * 8 + start {
                    assert(bit_at(was.key(), q) == bit_at(key, q));
                    assert(bit_at(j, q) == bit_at(was.key(), q));
                }
            }
        }
    }
    assert forall|j: Seq<u8>| #[trigger] x.value_at(w, off, j) == was.value_at(w, off, j) by {
        if j.len() > index {
            assert(passes(key, off, index, start, w, j) <==> was.covers(off, j) && was.slot(w, j) == s);
            lemma_chunk_value(j[index], start, w);
            if was.covers(off, j) {
                let u = was.slot(w, j);
                assert(was.value_at(w, off, j) == was->children[u].value_at(w, end, j.skip(index)));
                if u != s {
                    assert(was->children[u] is Empty);
                }
            }
        }
    }
    assert forall|j: Seq<u8>| #[trigger] x.stub_at(w, off, j) == was.stub_at(w, off, j) by {
        if j.len() > index {
            assert(passes(key, off, index, start, w, j) <==> was.covers(off, j) && was.slot(w, j) == s);
            lemma_chunk_value(j[index], start, w);
            if was.covers(off, j) {
                let u = was.slot(w, j);
                assert(was.stub_at(w, off, j) == lift_stub(
                    was->children[u].stub_at(w, end, j.skip(index)),
                    index,
                ));
                if u != s {
                    assert(was->children[u] is Empty);
                }
            }
        }
    }
}

/// All that is left is the tree `s`.
pub open spec fn only_occupied<T>(children: Seq<Tree<T>>, s: int) -> bool {
    &&& 0 <= s < children.len()
    &&& !(children[s] is Empty)
    &&& forall|i: int| 0 <= i < children.len() && i != s ==> #[trigger] children[i] is Empty
}

/// Where a child of a branch is replaced, two children are left, or one.
pub proof fn lemma_occupied<T>(was: Seq<Tree<T>>, now: Seq<Tree<T>>, s: int)
    requires
        two_occupied(was),
        0 <= s < was.len(),
        now == was.update(s, now[s]),
    ensures
        !(now[s] is Empty) || was[s] is Empty ==> two_occupied(now),
        two_occupied(now) || exists|only: int| only_occupied(now, only),
{
    let (i, j) = choose|i: int, j: int|
        #![trigger was[i], was[j]]
        0 <= i < j < was.len() && !(was[i] is Empty) && !(was[j] is Empty);
    if !(now[s] is Empty) || was[s] is Empty {
        assert(!(now[i] is Empty) && !(now[j] is Empty));
    } else {
        let left = if i == s {
            j
        } else {
            i
        };
        assert(!(now[left] is Empty));
        if !two_occupied(now) {
            assert forall|q: int| 0 <= q < now.len() && q != left implies #[trigger] now[q] is Empty by {
                if !(now[q] is Empty) {
                    if q < left {
                        assert(!(now[q] is Empty) && !(now[left] is Empty));
                    } else {
                        assert(!(now[left] is Empty) && !(now[q] is Empty));
                    }
                }
            }
            assert(only_occupied(now, left));
        }
    }
}

// ---------------------------------------------------------------------------
// Digests
// ---------------------------------------------------------------------------

/// The byte strings one after the other.
pub open spec fn concat(parts: Seq<Seq<u8>>) -> Seq<u8>
    decreases parts.len(),
{
    if parts.len() == 0 {
        Seq::empty()
    } else {
        concat(parts.drop_last()) + parts.last()
    }
}

/// What is hashed for a branch: its key, its mask, and the digests of its children.
pub open spec fn branch_encoding(key: Seq<u8>, mask: u8, digests: Seq<Seq<u8>>) -> Seq<u8> {
    key.push(mask) + concat(digests)
}

/// The digest of a trie.
pub open spec fn digest_of<T, H: Digest>(t: Tree<T>) -> Seq<u8>
    decreases t,
{
    match t {
        Tree::Empty => H::hash(Seq::empty()),
        Tree::Leaf { digest, .. } => digest,
        Tree::Opaque { digest, .. } => digest,
        Tree::Branch { key, mask, children } => H::hash(
            branch_encoding(key, mask, digests_of::<T, H>(children)),
        ),
    }
}

/// The digests of several tries.
pub open spec fn digests_of<T, H: Digest>(trees: Seq<Tree<T>>) -> Seq<Seq<u8>>
    decreases trees,
{
    Seq::new(
        trees.len(),
        |i: int|
            if 0 <= i < trees.len() {
                digest_of::<T, H>(trees[i])
            } else {
                Seq::empty()
            },
    )
}

/// The digests of the leaves are those of their keys and values.
pub open spec fn fresh<T: Digestible, H: Digest>(t: Tree<T>) -> bool
    decreases t,
{
    match t {
        Tree::Leaf { digest, key, value } => digest == leaf_digest::<H>(
            key,
            value.encoding(),
        ),
        Tree::Branch { key, mask, children } => forall|i: int|
            0 <= i < children.len() ==> fresh::<T, H>(#[trigger] children[i]),
        _ => true,
    }
}

// ---------------------------------------------------------------------------
// Copies
// ---------------------------------------------------------------------------

/// `b` is `a` with clones of its values.
pub open spec fn cloned_tree<T: Clone>(a: Tree<T>, b: Tree<T>) -> bool
    decreases a,
{
    match a {
        Tree::Leaf { digest, key, value } => b matches Tree::Leaf { digest: d, key: k, value: v } && d == digest && k
            == key && cloned(value, v),
        Tree::Branch { key, mask, children } => {
            &&& b matches Tree::Branch { key: k, mask: m, children: c }
            &&& k == key
            &&& m == mask
            &&& c.len() == children.len()
            &&& forall|i: int|
                #![trigger c[i]]
                #![trigger children[i]]
                0 <= i < children.len() ==> cloned_tree(children[i], c[i])
        },
        _ => a == b,
    }
}

/// A copy has the right digests where what was copied has, if clones have the encodings of what they are clones of.
pub proof fn lemma_cloned_fresh<T: Digestible + Clone, H: Digest>(a: Tree<T>, b: Tree<T>)
    requires
        cloned_tree(a, b),
        fresh::<T, H>(a),
        forall|x: T, y: T| #[trigger] cloned(x, y) ==> x.encoding() == y.encoding(),
    ensures
        fresh::<T, H>(b),
    decreases a,
{
    match a {
        Tree::Branch { key, mask, children } => {
            let c = b->children;
            assert forall|i: int| 0 <= i < c.len() implies fresh::<T, H>(#[trigger] c[i]) by {
                lemma_cloned_fresh::<T, H>(children[i], c[i]);
            }
        },
        _ => {},
    }
}

/// A copy has the digest of what was copied.
pub proof fn lemma_cloned_digest<T: Clone, H: Digest>(a: Tree<T>, b: Tree<T>)
    requires
        cloned_tree(a, b),
    ensures
        digest_of::<T, H>(a) == digest_of::<T, H>(b),
    decreases a,
{
    match a {
        Tree::Branch { key, mask, children } => {
            let c = b->children;
            assert forall|i: int| 0 <= i < children.len() implies digest_of::<T, H>(#[trigger] c[i]) == digest_of::<
                T,
                H,
            >(children[i]) by {
                lemma_cloned_digest::<T, H>(children[i], c[i]);
            }
            assert(digests_of::<T, H>(c) =~= digests_of::<T, H>(children));
        },
        _ => {},
    }
}

/// A copy holds clones of the values of what was copied under the same keys, and hides the same parts.
pub proof fn lemma_cloned_contents<T: Clone>(a: Tree<T>, b: Tree<T>, w: int, off: int, k: Seq<u8>)
    requires
        cloned_tree(a, b),
    ensures
        b.stub_at(w, off, k) == a.stub_at(w, off, k),
        b.fate(w, off, k) == a.fate(w, off, k),
        match a.value_at(w, off, k) {
            Some(v) => b.value_at(w, off, k) is Some && cloned(v, b.value_at(w, off, k)->0),
            None => b.value_at(w, off, k) is None,
        },
    decreases a,
{
    assert(a.covers(off, k) == b.covers(off, k));
    match a {
        Tree::Branch { key, mask, children } => {
            let s = a.slot(w, k);
            if 0 <= s < children.len() {
                lemma_cloned_contents(children[s], b->children[s], w, a.start() + w, a.rest(k));
            }
        },
        _ => {},
    }
}

/// A copy of a well formed trie is well formed.
pub proof fn lemma_cloned_wf<T: Clone>(a: Tree<T>, b: Tree<T>, w: int, off: int, room: int, partial: bool)
    requires
        cloned_tree(a, b),
        a.wf(w, off, room, partial),
    ensures
        b.wf(w, off, room, partial),
    decreases a,
{
    match a {
        Tree::Branch { key, mask, children } => {
            let c = b->children;
            assert(b.fragment_wf(w, off, room));
            assert(b.start() == a.start());
            assert forall|i: int| 0 <= i < children.len() implies (#[trigger] c[i]).wf(
                w,
                b.start() + w,
                room - (key.len() - 1),
                partial,
            ) && (c[i] is Empty <==> children[i] is Empty) by {
                assert(children[i].wf(w, a.start() + w, room - (key.len() - 1), partial));
                lemma_cloned_wf(children[i], c[i], w, a.start() + w, room - (key.len() - 1), partial);
            }
            let (i, j) = choose|i: int, j: int|
                #![trigger children[i], children[j]]
                0 <= i < j < children.len() && !(children[i] is Empty) && !(children[j] is Empty);
            assert(!(c[i] is Empty) && !(c[j] is Empty));
        },
        Tree::Leaf { .. } => {
            assert(b.fragment_wf(w, off, room));
        },
        _ => {},
    }
}

/// The two tries have the same structure and equal values.
pub open spec fn equal_trees<T: PartialEq>(a: Tree<T>, b: Tree<T>) -> bool
    decreases a,
{
    match (a, b) {
        (Tree::Empty, Tree::Empty) => true,
        (Tree::Leaf { key: k, value: v, .. }, Tree::Leaf { key: l, value: u, .. }) => k == l && v.eq_spec(&u),
        (Tree::Opaque { digest: d, key: k, .. }, Tree::Opaque { digest: e, key: l, .. }) => d == e && k == l,
        (Tree::Branch { key: k, mask: m, children: c }, Tree::Branch { key: l, mask: n, children: d }) => {
            &&& k == l
            &&& m == n
            &&& c.len() == d.len()
            &&& forall|i: int|
                #![trigger c[i]]
                #![trigger d[i]]
                0 <= i < c.len() ==> equal_trees(c[i], d[i])
        },
        _ => false,
    }
}

}
