//! Internal Merkle trie node representation and algorithms.
use crate::bitseqops::{
    bit_at, chunk_start, find_distinct, is_first_diff, joined, lemma_chunk_start, lemma_low_bits, lemma_radix,
    lemma_trailing_zeros, low_bits, radix_bits, split_suffix, BitDiff, BitPosition, BitSeqOps,
};
use crate::digestible::{empty_hash, hash_leaf, leaf_digest, Digest, Digestible};
use crate::sealed::SealedTrieMode;
use crate::tree::{
    aligned, branch_encoding, changed_at, cloned_tree, concat, digest_of, digests_of, equal_trees, fresh, is_split,
    lemma_chunk_at, lemma_chunk_end, lemma_chunk_in_seq, lemma_cloned_digest, lemma_descend, lemma_leaf_keys,
    lemma_merge, lemma_new_leaf, lemma_occupied, lemma_parting_chunk, lemma_split, lemma_unchanged, only_occupied,
    parts_at, same_body, same_key, two_occupied, Fate, Tree,
};
use crate::trie::{updated, NodeUpdate, TrieError};
use crate::utils::{copy_slice_into_box, same_bytes};
use std::marker::PhantomData;
use vstd::prelude::*;
use vstd::std_specs::cmp::{PartialEqSpec, PartialEqSpecImpl};

verus! {

// ---------------------------------------------------------------------------
// Modes
// ---------------------------------------------------------------------------

/// Trait that describes whether a trie may be partial
/// (i.e., may contain opaque nodes).
pub trait TrieMode: SealedTrieMode {
    /// Tag stored in opaque nodes.
    /// In [`Complete`] tries, resolves to the empty type
    /// (preventing construction of opaque nodes).
    type Marker: Clone;

    /// Whether the tries of this mode may contain opaque nodes.
    spec fn allows_opaque() -> bool;
}

/// Marker type that forces a trie to be complete (i.e., it _cannot_ contain opaque nodes).
#[derive(Clone, Copy)]
pub struct Complete;

/// Marker type that permits a trie to be partial (i.e., it _may_ contain opaque nodes).
#[derive(Clone, Copy)]
pub struct Partial;

/// The tag of an opaque node of a [`Partial`] trie.
#[derive(Clone, Copy)]
pub struct Hidden;

impl SealedTrieMode for Complete {

}

impl SealedTrieMode for Partial {

}

impl TrieMode for Complete {
    type Marker = std::convert::Infallible;

    open spec fn allows_opaque() -> bool {
        false
    }
}

impl TrieMode for Partial {
    type Marker = Hidden;

    open spec fn allows_opaque() -> bool {
        true
    }
}

// ---------------------------------------------------------------------------
// Nodes
// ---------------------------------------------------------------------------

/// A node in a Merkleized, compressed trie.
pub struct Node<T: Digestible, const N: usize, const K: usize, H: Digest, M: TrieMode> {
    /// the whole bytes that must be matched to visit this node
    pub key: Vec<u8>,
    /// the node's kind-specific data
    pub kind: Kind<T, N, K, H, M>,
}

/// A generic Merkle trie node payload
pub enum Kind<T: Digestible, const N: usize, const K: usize, H: Digest, M: TrieMode> {
    /// A trie branch
    Branch {
        /// Encodes the log2(`K`) bits in the last byte of [`Node::key`] that distinguish the keys of child nodes
        mask: u8,
        /// Stores the `K` child nodes of this branch
        children: Vec<NodeLink<T, N, K, H, M>>,
    },
    /// A trie leaf
    Leaf {
        /// the data stored at this leaf
        value: T,
        /// zero-sized type that exists to record the hash algorithm used by this trie
        _phantom: PhantomData<H>,
    },
    /// Witness for a subtrie of unknown shape (only constructible if [`TrieMode`] is set to [`Partial`]).
    Opaque {
        /// the digest of the subtrie
        digest: Vec<u8>,
        /// the mask of the branch that the subtrie starts with, or 0 where it is a leaf
        mask: u8,
        /// the tag that only partial tries have
        marker: M::Marker,
    },
}

/// A nullable link between [`Node`]s in a trie, with the digest of the node that it leads to
pub struct NodeLink<T: Digestible, const N: usize, const K: usize, H: Digest, M: TrieMode>(
    pub Option<(Vec<u8>, Box<Node<T, N, K, H, M>>)>,
);

/// The branching factors of tries.
pub open spec fn trie_radix(k: int) -> bool {
    k == 2 || k == 4 || k == 16 || k == 256
}

/// The tries that several links lead to.
pub open spec fn trees<T: Digestible, const N: usize, const K: usize, H: Digest, M: TrieMode>(
    links: Seq<NodeLink<T, N, K, H, M>>,
) -> Seq<Tree<T>>
    decreases links,
{
    Seq::new(
        links.len(),
        |i: int|
            if 0 <= i < links.len() {
                links[i].tree()
            } else {
                Tree::Empty
            },
    )
}

/// The digests that are stored at several links.
pub open spec fn stored_digests<T: Digestible, const N: usize, const K: usize, H: Digest, M: TrieMode>(
    links: Seq<NodeLink<T, N, K, H, M>>,
) -> Seq<Seq<u8>> {
    Seq::new(links.len(), |i: int| links[i].stored())
}

impl<T: Digestible, const N: usize, const K: usize, H: Digest, M: TrieMode> NodeLink<T, N, K, H, M> {
    /// The trie that this link leads to.
    pub open spec fn tree(self) -> Tree<T>
        decreases self,
    {
        match self.0 {
            None => Tree::Empty,
            Some((hash, node)) => match node.kind {
                Kind::Leaf { value, _phantom } => Tree::Leaf { digest: hash@, key: node.key@, value },
                Kind::Branch { mask, children } => Tree::Branch {
                    key: node.key@,
                    mask,
                    children: trees(children@),
                },
                Kind::Opaque { digest, mask, marker } => Tree::Opaque { digest: digest@, key: node.key@, mask },
            },
        }
    }

    /// The first node of the trie that this link leads to.
    pub open spec fn leads_to(self, node: Node<T, N, K, H, M>) -> bool {
        self.0 matches Some((hash, first)) && *first == node
    }

    /// The digest that is stored at this link.
    pub open spec fn stored(self) -> Seq<u8> {
        match self.0 {
            None => H::hash(Seq::empty()),
            Some((hash, node)) => hash@,
        }
    }

    /// Every digest that is stored in the trie is that of the part that it is stored for.
    pub open spec fn sealed(self) -> bool
        decreases self,
    {
        &&& self.stored() == digest_of::<T, H>(self.tree())
        &&& match self.0 {
            None => true,
            Some((hash, node)) => match node.kind {
                Kind::Branch { mask, children } => forall|i: int|
                    0 <= i < children@.len() ==> (#[trigger] children@[i]).sealed(),
                _ => true,
            },
        }
    }

    /// The part of a trie that this link leads to is well formed, where its fragments start at bit `off` and
    /// take at most `room` bytes.
    pub open spec fn inv(self, off: int, room: int) -> bool {
        &&& self.tree().wf(radix_bits(K as int), off, room, M::allows_opaque())
        &&& self.sealed()
    }
}

impl<T: Digestible, const N: usize, const K: usize, H: Digest, M: TrieMode> Node<T, N, K, H, M> {
    /// The trie that starts with this node, where `hash` is stored for it.
    pub open spec fn tree(self, hash: Seq<u8>) -> Tree<T> {
        match self.kind {
            Kind::Leaf { value, _phantom } => Tree::Leaf { digest: hash, key: self.key@, value },
            Kind::Branch { mask, children } => Tree::Branch {
                key: self.key@,
                mask,
                children: trees(children@),
            },
            Kind::Opaque { digest, mask, marker } => Tree::Opaque { digest: digest@, key: self.key@, mask },
        }
    }

    /// The digest of this node, as far as it can be told from the node itself and the digests that are stored
    /// for its children.
    pub open spec fn local_digest(self) -> Seq<u8> {
        match self.kind {
            Kind::Leaf { value, _phantom } => leaf_digest::<H>(self.key@, value.encoding()),
            Kind::Branch { mask, children } => H::hash(
                branch_encoding(self.key@, mask, stored_digests(children@)),
            ),
            Kind::Opaque { digest, mask, marker } => digest@,
        }
    }

    /// The children of this node are sealed.
    pub open spec fn children_sealed(self) -> bool {
        match self.kind {
            Kind::Branch { mask, children } => forall|i: int|
                0 <= i < children@.len() ==> (#[trigger] children@[i]).sealed(),
            _ => true,
        }
    }

    /// A link that stores a node's local digest is sealed where the node's children are.
    proof fn lemma_sealed(self, hash: Vec<u8>, link: NodeLink<T, N, K, H, M>)
        requires
            hash@ == self.local_digest(),
            self.children_sealed(),
            link.0 == Some((hash, Box::new(self))),
        ensures
            link.sealed(),
            link.tree() == self.tree(hash@),
    {
        match self.kind {
            Kind::Branch { mask, children } => {
                let below = trees(children@);
                assert forall|i: int| 0 <= i < children@.len() implies stored_digests(children@)[i] == digests_of::<
                    T,
                    H,
                >(below)[i] by {
                    assert(children@[i].sealed());
                    assert(below[i] == children@[i].tree());
                }
                assert(stored_digests(children@) =~= digests_of::<T, H>(below));
            },
            _ => {},
        }
    }
}

// ---------------------------------------------------------------------------
// Probing
// ---------------------------------------------------------------------------

/// A probe result to be handled by a probe action
#[derive(Debug)]
pub enum ProbeResult<L, N> {
    /// An empty child slot corresponding to the probe key was found at N
    EmptySlot(L),
    /// An exact match for the probe key was found at N
    ExactMatch(N),
    /// A disagreement between the probe key and an existing node key was found at N
    Disagreement(N, BitDiff),
    /// A child slot corresponding to the probe key was found
    /// but could not be explored due to the depth bound
    /// being reached
    Bounded(N, BitPosition, usize),
}

/// What is found at the first node of the trie `t` for the key `k`, of which the bits before `off` do not count.
pub open spec fn meets<T, L, N>(t: Tree<T>, w: int, off: int, k: Seq<u8>, found: ProbeResult<L, N>) -> bool {
    match found {
        ProbeResult::EmptySlot(_) => t is Empty,
        ProbeResult::ExactMatch(_) => {
            &&& !(t is Empty)
            &&& t.covers(off, k)
            &&& k.len() * 8 == t.key_bits()
        },
        ProbeResult::Disagreement(_, diff) => {
            &&& !(t is Empty)
            &&& is_first_diff(k, t.key(), off, k.len() * 8 - off, t.key_bits() - off, Some(diff))
            &&& t is Branch ==> diff.prefix != Some(1usize)
        },
        ProbeResult::Bounded(_, pos, slot) => {
            &&& t is Branch
            &&& t.covers(off, k)
            &&& k.len() >= t.key().len()
            &&& slot == t.slot(w, k)
        },
    }
}

/// What the first node of a trie tells of a key.
proof fn lemma_meets<T, L, N>(
    t: Tree<T>,
    w: int,
    off: int,
    room: int,
    partial: bool,
    k: Seq<u8>,
    found: ProbeResult<L, N>,
)
    requires
        aligned(w, off),
        t.wf(w, off, room, partial),
        off <= k.len() * 8,
        meets(t, w, off, k, found),
    ensures
        match found {
            ProbeResult::EmptySlot(_) => t.value_at(w, off, k) is None && t.stub_at(w, off, k) is None && t.fate(
                w,
                off,
                k,
            ) is Vacant,
            ProbeResult::ExactMatch(_) => {
                &&& t.value_at(w, off, k) == match t {
                    Tree::Leaf { value, .. } => Some(value),
                    _ => None,
                }
                &&& t.stub_at(w, off, k) is Some <==> t is Opaque
                &&& t.fate(w, off, k) == if t is Leaf {
                    Fate::Occupied
                } else {
                    Fate::Inner
                }
            },
            ProbeResult::Disagreement(_, diff) => {
                &&& t.value_at(w, off, k) is None
                &&& t.stub_at(w, off, k) is Some <==> t is Opaque && diff.prefix == Some(1usize)
                &&& t.fate(w, off, k) == if diff.prefix is Some {
                    Fate::Prefix
                } else {
                    Fate::Vacant
                }
                &&& diff.prefix is None ==> parts_at(t.key(), off, k, diff.pos.as_bit())
                    && diff.pos.as_bit() < t.key_bits()
            },
            ProbeResult::Bounded(_, pos, slot) => {
                let child = t->children[slot as int];
                &&& slot < t->children.len()
                &&& t.value_at(w, off, k) == child.value_at(w, t.start() + w, t.rest(k))
                &&& t.stub_at(w, off, k) is Some <==> child.stub_at(w, t.start() + w, t.rest(k)) is Some
                &&& t.fate(w, off, k) == child.fate(w, t.start() + w, t.rest(k))
            },
        },
{
    if !(t is Empty) {
        lemma_trailing_zeros(t.tail());
    }
    if t is Branch {
        t.lemma_branch_bounds(w, off, room, partial);
    }
    match found {
        ProbeResult::Disagreement(_, diff) => {
            let p = diff.pos.as_bit();
            match diff.prefix {
                None => {
                    assert(bit_at(k, p) != bit_at(t.key(), p));
                    assert(!t.covers(off, k));
                },
                Some(_) => {},
            }
        },
        _ => {},
    }
}

impl<T: Digestible, const N: usize, const K: usize, H: Digest, M: TrieMode> Node<T, N, K, H, M> {
    /// Return the number of bits which participate in key comparisons against this node.
    ///
    /// For [`Kind::Leaf`] nodes, this is just all bits in the key.
    /// For [`Kind::Branch`] nodes, perform the same calculation but subtract all bits in the final byte that
    /// overlap/succeed the mask. For [`Kind::Opaque`] nodes, do what was done for the node that is hidden.
    pub fn get_key_bits(&self) -> (bits: u128)
        requires
            1 <= self.key@.len(),
        ensures
            forall|hash: Seq<u8>| bits == (#[trigger] self.tree(hash)).key_bits(),
    {
        let mask: u8 = match &self.kind {
            Kind::Branch { mask, .. } => *mask,
            Kind::Opaque { mask, .. } => *mask,
            Kind::Leaf { .. } => 0,
        };
        proof {
            lemma_trailing_zeros(mask);
        }
        self.key.len() as u128 * 8 - (8 - mask.trailing_zeros() as u128)
    }

    /// Return a reference to the value
    pub fn value_ref(&self) -> (value: Option<&T>)
        ensures
            value == match self.kind {
                Kind::Leaf { value, .. } => Some(&value),
                _ => None,
            },
    {
        match &self.kind {
            Kind::Leaf { value, .. } => Some(value),
            _ => None,
        }
    }

    /// Return whether this node is terminal (i.e., has no children to recurse into)
    pub fn is_terminal(&self) -> (terminal: bool)
        ensures
            terminal == !(self.kind is Branch),
    {
        match &self.kind {
            Kind::Branch { .. } => false,
            _ => true,
        }
    }
}

impl<T: Digestible, const N: usize, const K: usize, H: Digest, M: TrieMode> NodeLink<T, N, K, H, M> {
    /// Compare a key with the first node of this trie, from a position in the key on.
    fn meet<'a>(&'a self, key: &[u8], pos: BitPosition) -> (found: ProbeResult<(), &'a Node<T, N, K, H, M>>)
        requires
            trie_radix(K as int),
            aligned(radix_bits(K as int), pos.bits as int),
            self.inv(pos.bits as int, N as int),
            pos.index * 8 + pos.bits <= key@.len() * 8,
        ensures
            found_at(*self, key@, pos.index as int, pos.bits as int, found),
    {
        let ghost w = radix_bits(K as int);
        let ghost off = pos.bits as int;
        let ghost t = self.tree();
        let ghost k = key@.skip(pos.index as int);
        match &self.0 {
            None => ProbeResult::EmptySlot(()),
            Some((_hash, node)) => {
                proof {
                    lemma_trailing_zeros(t.tail());
                    assert(t == node.tree(_hash@));
                }
                let rest: &[u8] = vstd::slice::slice_subrange(key, pos.index, key.len());
                assert(rest@ =~= k);
                let key_bits: u128 = rest.len() as u128 * 8 - pos.bits as u128;
                let node_bits: u128 = node.get_key_bits() - pos.bits as u128;
                match find_distinct(rest, node.key.as_slice(), pos.bits, key_bits, node_bits) {
                    None => ProbeResult::ExactMatch(node),
                    Some(split) => {
                        match (&node.kind, split.prefix) {
                            (Kind::Branch { .. }, Some(1)) => {
                                proof {
                                    t.lemma_branch_bounds(w, off, N as int, M::allows_opaque());
                                    lemma_radix(K as int);
                                    let p = split.pos.as_bit();
                                    assert(p == t.key_bits());
                                    assert(split.pos.index == t.key().len() - 1);
                                    assert(split.pos.bits == t.start());
                                    lemma_chunk_at(t.start(), w);
                                }
                                let slot: usize = BitSeqOps::<K>::mask_value(rest, split.pos.index, split.pos.bits);
                                let next: BitPosition = split.pos.increment::<K>();
                                ProbeResult::Bounded(
                                    node,
                                    BitPosition { index: pos.index + next.index, bits: next.bits },
                                    slot,
                                )
                            },
                            _ => ProbeResult::Disagreement(node, split),
                        }
                    },
                }
            },
        }
    }
}

/// What a probe finds at the first node that the link leads to, for a key whose part from the byte `index` on is
/// compared with that node and of which the bits before `off` in that part do not count.
pub open spec fn found_at<T: Digestible, const N: usize, const K: usize, H: Digest, M: TrieMode>(
    link: NodeLink<T, N, K, H, M>,
    key: Seq<u8>,
    index: int,
    off: int,
    found: ProbeResult<(), &Node<T, N, K, H, M>>,
) -> bool {
    &&& meets(link.tree(), radix_bits(K as int), off, key.skip(index), found)
    &&& match found {
        ProbeResult::EmptySlot(_) => true,
        ProbeResult::ExactMatch(node) => link.leads_to(*node),
        ProbeResult::Disagreement(node, _) => link.leads_to(*node),
        ProbeResult::Bounded(node, next, _) => {
            &&& link.leads_to(*node)
            &&& next.index == index + link.tree().key().len() - 1
            &&& next.bits == link.tree().start() + radix_bits(K as int)
        },
    }
}

/// Where a probe ends, and what it finds there: it goes through the branches that cover the key, at most as many of
/// them as the bound allows, and ends at the first link at which it cannot go on.
pub open spec fn ends_with<T: Digestible, const N: usize, const K: usize, H: Digest, M: TrieMode>(
    link: NodeLink<T, N, K, H, M>,
    bound: Option<usize>,
    key: Seq<u8>,
    index: int,
    off: int,
    found: ProbeResult<(), &Node<T, N, K, H, M>>,
) -> bool
    decreases link,
{
    let w = radix_bits(K as int);
    let t = link.tree();
    let k = key.skip(index);
    match link.0 {
        Some((_, node)) => match node.kind {
            Kind::Branch { mask, children } => if t.covers(off, k) && k.len() >= t.key().len() && bound != Some(
                0usize,
            ) && t.slot(w, k) < children@.len() {
                ends_with(
                    children@[t.slot(w, k)],
                    match bound {
                        Some(n) => Some((n - 1) as usize),
                        None => None,
                    },
                    key,
                    index + t.key().len() - 1,
                    t.start() + w,
                    found,
                )
            } else {
                found_at(link, key, index, off, found)
            },
            _ => found_at(link, key, index, off, found),
        },
        None => found_at(link, key, index, off, found),
    }
}

/// The bound ends a probe for the key `k`: the key leads through more branches of the trie `t` than the bound allows.
pub open spec fn cut_off<T>(t: Tree<T>, w: int, off: int, k: Seq<u8>, bound: Option<usize>) -> bool
    decreases t,
{
    match (t, bound) {
        (Tree::Branch { key, mask, children }, Some(n)) => {
            &&& t.covers(off, k)
            &&& k.len() >= key.len()
            &&& t.slot(w, k) < children.len()
            &&& n > 0 ==> cut_off(children[t.slot(w, k)], w, t.start() + w, t.rest(k), Some((n - 1) as usize))
        },
        _ => false,
    }
}

/// What a probe tells of the key `k`, of which the bits before `off` do not count, in the trie `t`. The next
/// position of a bounded probe is one in `key`.
pub open spec fn told<T: Digestible, const N: usize, const K: usize, H: Digest, M: TrieMode>(
    t: Tree<T>,
    off: int,
    k: Seq<u8>,
    key: Seq<u8>,
    found: ProbeResult<(), &Node<T, N, K, H, M>>,
) -> bool {
    let w = radix_bits(K as int);
    match found {
        ProbeResult::EmptySlot(_) => {
            &&& t.value_at(w, off, k) is None
            &&& t.stub_at(w, off, k) is None
            &&& t.fate(w, off, k) is Vacant
        },
        ProbeResult::ExactMatch(node) => {
            &&& t.value_at(w, off, k) == match node.kind {
                Kind::Leaf { value, .. } => Some(value),
                _ => None,
            }
            &&& t.stub_at(w, off, k) is Some <==> node.kind is Opaque
            &&& t.fate(w, off, k) == if node.kind is Leaf {
                Fate::Occupied
            } else {
                Fate::Inner
            }
        },
        ProbeResult::Disagreement(node, diff) => {
            &&& t.value_at(w, off, k) is None
            &&& t.stub_at(w, off, k) is Some <==> node.kind is Opaque && diff.prefix == Some(1usize)
            &&& t.fate(w, off, k) == if diff.prefix is Some {
                Fate::Prefix
            } else {
                Fate::Vacant
            }
        },
        ProbeResult::Bounded(node, next, slot) => {
            &&& node.kind matches Kind::Branch { mask, children }
            &&& slot < children@.len()
            &&& {
                let child = children@[slot as int].tree();
                let rest = key.skip(next.index as int);
                &&& t.value_at(w, off, k) == child.value_at(w, next.bits as int, rest)
                &&& t.stub_at(w, off, k) is Some <==> child.stub_at(w, next.bits as int, rest) is Some
                &&& t.fate(w, off, k) == child.fate(w, next.bits as int, rest)
            }
        },
    }
}

impl<T: Digestible, const N: usize, const K: usize, H: Digest, M: TrieMode> NodeLink<T, N, K, H, M> {
    /// Probe the trie, optionally with a bound, returning where the probe terminates
    pub fn probe<'a>(&'a self, bound: Option<usize>, key: &[u8], pos: BitPosition) -> (found: ProbeResult<
        (),
        &'a Node<T, N, K, H, M>,
    >)
        requires
            trie_radix(K as int),
            aligned(radix_bits(K as int), pos.bits as int),
            self.inv(pos.bits as int, N as int),
            pos.index * 8 + pos.bits <= key@.len() * 8,
        ensures
            told(self.tree(), pos.bits as int, key@.skip(pos.index as int), key@, found),
            ends_with(*self, bound, key@, pos.index as int, pos.bits as int, found),
            found is Bounded <==> cut_off(
                self.tree(),
                radix_bits(K as int),
                pos.bits as int,
                key@.skip(pos.index as int),
                bound,
            ),
        decreases self,
    {
        let found: ProbeResult<(), &'a Node<T, N, K, H, M>> = self.meet(key, pos);
        let ghost w = radix_bits(K as int);
        let ghost off = pos.bits as int;
        let ghost t = self.tree();
        let ghost k = key@.skip(pos.index as int);
        proof {
            lemma_meets(t, w, off, N as int, M::allows_opaque(), k, found);
        }
        match found {
            ProbeResult::Bounded(node, next, slot) => {
                let fewer: Option<usize> = match bound {
                    Some(n) => {
                        if n == 0 {
                            assert(key@.skip(next.index as int) =~= t.rest(k));
                            return found;
                        }
                        Some(n - 1)
                    },
                    None => None,
                };
                match &node.kind {
                    Kind::Branch { mask, children } => {
                        proof {
                            t.lemma_branch_bounds(w, off, N as int, M::allows_opaque());
                            assert(key@.skip(next.index as int) =~= t.rest(k));
                            assert(t->children[slot as int] == children@[slot as int].tree());
                            assert(children@[slot as int].sealed());
                            t->children[slot as int].lemma_room(
                                w,
                                t.start() + w,
                                N - (t.key().len() - 1),
                                N as int,
                                M::allows_opaque(),
                            );
                        }
                        children[slot].probe(fewer, key, next)
                    },
                    _ => found,
                }
            },
            _ => found,
        }
    }

    /// Return a reference to the value that is stored under a key.
    pub fn get<'a>(&'a self, search_key: &[u8]) -> (value: Option<&'a T>)
        requires
            trie_radix(K as int),
            self.inv(0, N as int),
        ensures
            match value {
                Some(v) => self.tree().value_at(radix_bits(K as int), 0, search_key@) == Some(*v),
                None => self.tree().value_at(radix_bits(K as int), 0, search_key@) is None,
            },
    {
        assert(search_key@.skip(0) =~= search_key@);
        match self.probe(None, search_key, BitPosition { index: 0, bits: 0 }) {
            ProbeResult::ExactMatch(node) => node.value_ref(),
            _ => None,
        }
    }

    /// Given a search key, return:
    /// `None` - if the key's presence in the trie is unknowable (due to opaque nodes),
    /// `Some(true)` - if the key is in the trie,
    /// `Some(false)` - if the key is NOT in the trie.
    pub fn verify(&self, search_key: &[u8]) -> (presence: Option<bool>)
        requires
            trie_radix(K as int),
            self.inv(0, N as int),
        ensures
            presence == self.tree().presence(radix_bits(K as int), 0, search_key@),
    {
        assert(search_key@.skip(0) =~= search_key@);
        match self.probe(None, search_key, BitPosition { index: 0, bits: 0 }) {
            ProbeResult::EmptySlot(_) => Some(false),
            ProbeResult::ExactMatch(node) => {
                match &node.kind {
                    Kind::Leaf { .. } => Some(true),
                    Kind::Branch { .. } => Some(false),
                    Kind::Opaque { .. } => None,
                }
            },
            // if disagreement is such that we could continue exploration
            // from an opaque, give up; otherwise, we found a true negative
            ProbeResult::Disagreement(node, diff) => {
                match (&node.kind, diff.prefix) {
                    (Kind::Opaque { .. }, Some(1)) => None,
                    _ => Some(false),
                }
            },
            ProbeResult::Bounded(..) => None,
        }
    }

    /// Return whether this link is terminal
    pub fn is_terminal(&self) -> (terminal: bool)
        ensures
            terminal == !(self.tree() is Branch),
    {
        match &self.0 {
            None => true,
            Some((_, node)) => node.is_terminal(),
        }
    }

    /// Return the digest stored at this [`NodeLink`]
    pub fn stored_digest(&self) -> (digest: Vec<u8>)
        ensures
            digest@ == self.stored(),
    {
        match &self.0 {
            None => empty_hash::<H>(),
            Some((hash, _)) => copy_slice_into_box(hash.as_slice()),
        }
    }
}

// ---------------------------------------------------------------------------
// Building and hashing nodes
// ---------------------------------------------------------------------------

impl<T: Digestible, const N: usize, const K: usize, H: Digest, M: TrieMode> Node<T, N, K, H, M> {
    /// Construct a new branch node without children for this trie
    pub fn new_branch(key: Vec<u8>, mask: u8) -> (node: Self)
        ensures
            node.key == key,
            node.kind matches Kind::Branch { mask: m, children } && m == mask && children@.len() == K
                && forall|i: int| 0 <= i < K ==> (#[trigger] children@[i]).0 is None,
    {
        let mut children: Vec<NodeLink<T, N, K, H, M>> = Vec::new();
        let mut i: usize = 0;
        while i < K
            invariant
                i <= K,
                children@.len() == i,
                forall|j: int| 0 <= j < i ==> (#[trigger] children@[j]).0 is None,
            decreases K - i,
        {
            children.push(NodeLink(None));
            i += 1;
        }
        Node { key, kind: Kind::Branch { mask, children } }
    }

    /// Construct a new leaf node for this trie
    pub fn new_leaf(key: Vec<u8>, value: T) -> (node: Self)
        ensures
            node.key == key,
            node.kind matches Kind::Leaf { value: v, .. } && v == value,
    {
        Node { key, kind: Kind::Leaf { value, _phantom: PhantomData } }
    }

    /// Compute the digest of this node in a way that only requires examining the local node.
    pub fn digest(&self) -> (digest: Vec<u8>)
        ensures
            digest@ == self.local_digest(),
    {
        match &self.kind {
            Kind::Opaque { digest, .. } => copy_slice_into_box(digest.as_slice()),
            Kind::Leaf { value, .. } => hash_leaf::<T, H>(self.key.as_slice(), value),
            Kind::Branch { mask, children } => {
                let mut hasher: H = H::new();
                hasher.update(self.key.as_slice());
                let tag: Vec<u8> = vec![*mask];
                hasher.update(tag.as_slice());
                let ghost stored = stored_digests(children@);
                assert(stored.take(0) =~= Seq::empty());
                assert(hasher.absorbed() =~= self.key@.push(*mask) + concat(stored.take(0)));
                let mut i: usize = 0;
                while i < children.len()
                    invariant
                        i <= children@.len(),
                        stored == stored_digests(children@),
                        hasher.absorbed() == self.key@.push(*mask) + concat(stored.take(i as int)),
                    decreases children@.len() - i,
                {
                    let child: Vec<u8> = children[i].stored_digest();
                    hasher.update(child.as_slice());
                    proof {
                        let longer = stored.take(i + 1);
                        assert(longer.drop_last() =~= stored.take(i as int));
                        assert(longer.last() == child@);
                        assert(hasher.absorbed() =~= self.key@.push(*mask) + concat(longer));
                    }
                    i += 1;
                }
                assert(stored.take(i as int) =~= stored);
                hasher.finalize()
            },
        }
    }
}

impl<T: Digestible, const N: usize, const K: usize, H: Digest, M: TrieMode> NodeLink<T, N, K, H, M> {
    /// Link to a node, storing its digest.
    pub fn to(node: Node<T, N, K, H, M>) -> (link: Self)
        requires
            node.children_sealed(),
        ensures
            link.leads_to(node),
            link.stored() == node.local_digest(),
            link.sealed(),
            link.tree() == node.tree(node.local_digest()),
    {
        let hash: Vec<u8> = node.digest();
        let ghost inner = node;
        let link: Self = NodeLink(Some((hash, Box::new(node))));
        proof {
            inner.lemma_sealed(hash, link);
        }
        link
    }
}

// ---------------------------------------------------------------------------
// Changing a trie
// ---------------------------------------------------------------------------

/// A trie may be changed by a probe for `key` that has come to `link` at the position `pos`.
pub open spec fn probe_at<T: Digestible, const N: usize, const K: usize, H: Digest, M: TrieMode>(
    link: NodeLink<T, N, K, H, M>,
    key: Seq<u8>,
    pos: BitPosition,
) -> bool {
    &&& trie_radix(K as int)
    &&& aligned(radix_bits(K as int), pos.bits as int)
    &&& pos.index < key.len() <= N
    &&& link.inv(pos.bits as int, N - pos.index)
}

/// `was` became `now` where a probe for `key` changed what is stored under the key, if anything.
pub open spec fn probed<T: Digestible, const N: usize, const K: usize, H: Digest, M: TrieMode>(
    was: NodeLink<T, N, K, H, M>,
    now: NodeLink<T, N, K, H, M>,
    key: Seq<u8>,
    pos: BitPosition,
) -> bool {
    let w = radix_bits(K as int);
    let off = pos.bits as int;
    let k = key.skip(pos.index as int);
    &&& now.inv(off, N - pos.index)
    &&& changed_at(was.tree(), now.tree(), w, off, k, now.tree().value_at(w, off, k))
    &&& fresh::<T, H>(was.tree()) ==> fresh::<T, H>(now.tree())
}

/// What is done at the place where a probe terminates.
pub trait ProbeAction<T: Digestible, const N: usize, const K: usize, H: Digest, M: TrieMode>: Sized {
    /// What the action reports.
    type Output;

    /// The action may be run where a bound ends the probe.
    spec fn takes_bounds() -> bool;

    /// Where the probe meets `fate`, the action may replace what is stored under the key, `before`, by `after`
    /// and report `out`. If `cut` is set, the probe was ended by a bound.
    spec fn outcome(self, cut: bool, fate: Fate, before: Option<T>, after: Option<T>, out: Self::Output) -> bool;

    /// The action reports that it changed nothing.
    spec fn idle(out: Self::Output) -> bool;

    /// Act on the link at which the probe for a key terminates, where `found` was met.
    fn act(
        self,
        key: &[u8],
        pos: BitPosition,
        found: ProbeResult<(), ()>,
        link: &mut NodeLink<T, N, K, H, M>,
    ) -> (out: Self::Output)
        requires
            probe_at(*old(link), key@, pos),
            meets(
                old(link).tree(),
                radix_bits(K as int),
                pos.bits as int,
                key@.skip(pos.index as int),
                found,
            ),
            found is Bounded ==> Self::takes_bounds(),
        ensures
            probed(*old(link), *final(link), key@, pos),
            self.outcome(
                found is Bounded,
                old(link).tree().fate(radix_bits(K as int), pos.bits as int, key@.skip(pos.index as int)),
                old(link).tree().value_at(radix_bits(K as int), pos.bits as int, key@.skip(pos.index as int)),
                final(link).tree().value_at(radix_bits(K as int), pos.bits as int, key@.skip(pos.index as int)),
                out,
            ),
            Self::idle(out) ==> final(link).tree() == old(link).tree(),
    ;
}

/// All that is left is the child `s`.
pub open spec fn only_linked<T: Digestible, const N: usize, const K: usize, H: Digest, M: TrieMode>(
    children: Seq<NodeLink<T, N, K, H, M>>,
    s: int,
) -> bool {
    &&& 0 <= s < children.len()
    &&& children[s].0 is Some
    &&& forall|i: int| 0 <= i < children.len() && i != s ==> (#[trigger] children[i]).0 is None
}

/// Find the only child that is left, if there is just one.
fn only_child<T: Digestible, const N: usize, const K: usize, H: Digest, M: TrieMode>(
    children: &Vec<NodeLink<T, N, K, H, M>>,
) -> (only: Option<usize>)
    ensures
        match only {
            Some(s) => only_linked(children@, s as int),
            None => forall|s: int| !#[trigger] only_linked(children@, s),
        },
{
    let mut only: Option<usize> = None;
    let mut i: usize = 0;
    while i < children.len()
        invariant
            i <= children@.len(),
            match only {
                Some(s) => {
                    &&& s < i
                    &&& children@[s as int].0 is Some
                    &&& forall|j: int| 0 <= j < i && j != s ==> (#[trigger] children@[j]).0 is None
                },
                None => forall|j: int| 0 <= j < i ==> (#[trigger] children@[j]).0 is None,
            },
        decreases children@.len() - i,
    {
        if children[i].0.is_some() {
            if let Some(s) = only {
                assert forall|q: int| !#[trigger] only_linked(children@, q) by {
                    assert(children@[s as int].0 is Some && children@[i as int].0 is Some);
                }
                return None;
            }
            only = Some(i);
        }
        i += 1;
    }
    only
}

impl<T: Digestible, const N: usize, const K: usize, H: Digest, M: TrieMode> Node<T, N, K, H, M> {
    /// Merge this branch with its child, if it is left with a single one.
    fn compress(&mut self)
        requires
            old(self).kind matches Kind::Branch { mask, children } && mask != 0 && forall|s: int| #[trigger]
                only_linked(children@, s) ==> 1 <= trees(children@)[s].key().len() && old(self).key@.len()
                    + trees(children@)[s].key().len() - 1 <= usize::MAX && s <= 255,
            old(self).key@.len() >= 1,
        ensures
            forall|s: int| #[trigger]
                only_linked(old(self).kind->children@, s) ==> {
                    let child = *(old(self).kind->children@[s].0->0).1;
                    &&& final(self).key@ == joined(
                        old(self).key@,
                        old(self).kind->Branch_mask.trailing_zeros() as int,
                        s as u8,
                        child.key@,
                    )
                    &&& final(self).kind == child.kind
                },
            (forall|s: int| !#[trigger] only_linked(old(self).kind->children@, s)) ==> *final(self) == *old(self),
    {
        let mut cut: u8 = 0;
        let mut orphan: Option<(Vec<u8>, Box<Node<T, N, K, H, M>>)> = None;
        let mut slot: usize = 0;
        match &mut self.kind {
            Kind::Branch { mask, children } => {
                if let Some(s) = only_child(children) {
                    cut = *mask;
                    slot = s;
                    orphan = children[s].0.take();
                }
            },
            _ => {},
        }
        if let Some((_hash, child)) = orphan {
            let Node { key, kind } = *child;
            self.key = BitSeqOps::<K>::recover(self.key.as_slice(), cut, slot as u8, key.as_slice());
            self.kind = kind;
        }
    }
}

/// `mid` is the branch `was` with another child in one slot, which is well formed.
spec fn refilled<T: Digestible, const N: usize, const K: usize, H: Digest, M: TrieMode>(
    was: Node<T, N, K, H, M>,
    mid: Node<T, N, K, H, M>,
    slot: int,
    off: int,
    room: int,
) -> bool {
    let w = radix_bits(K as int);
    let t = was.tree(Seq::empty());
    &&& trie_radix(K as int)
    &&& aligned(w, off)
    &&& room <= usize::MAX
    &&& was.kind is Branch
    &&& mid.kind is Branch
    &&& t.wf(w, off, room, M::allows_opaque())
    &&& was.children_sealed()
    &&& mid.key@ == was.key@
    &&& mid.kind->Branch_mask == was.kind->Branch_mask
    &&& 0 <= slot < was.kind->children@.len()
    &&& mid.kind->children@ == was.kind->children@.update(slot, mid.kind->children@[slot])
    &&& mid.kind->children@[slot].inv(t.start() + w, room - (t.key().len() - 1))
}

/// A branch that was left with one child can be merged with it.
proof fn lemma_compress_ready<T: Digestible, const N: usize, const K: usize, H: Digest, M: TrieMode>(
    was: Node<T, N, K, H, M>,
    mid: Node<T, N, K, H, M>,
    slot: int,
    off: int,
    room: int,
    s: int,
)
    requires
        refilled(was, mid, slot, off, room),
        only_linked(mid.kind->children@, s),
    ensures
        mid.kind->Branch_mask != 0,
        mid.key@.len() >= 1,
        s <= 255,
        1 <= trees(mid.kind->children@)[s].key().len(),
        mid.key@.len() + trees(mid.kind->children@)[s].key().len() - 1 <= room,
        trees(mid.kind->children@)[s].wf(
            radix_bits(K as int),
            was.tree(Seq::empty()).start() + radix_bits(K as int),
            room - (was.key@.len() - 1),
            M::allows_opaque(),
        ),
        mid.kind->children@[s].sealed(),
{
    let t = was.tree(Seq::empty());
    let below = trees(mid.kind->children@);
    assert(below[s] == mid.kind->children@[s].tree());
    if s != slot {
        assert(below[s] == t->children[s]);
        assert(was.kind->children@[s].sealed());
    }
    lemma_radix(K as int);
    let w = radix_bits(K as int);
    assert(below[s].wf(w, t.start() + w, room - (was.key@.len() - 1), M::allows_opaque()));
    assert(below[s].fragment_wf(w, t.start() + w, room - (was.key@.len() - 1)));
}

/// A branch in which one child was replaced is well formed again, once it is merged with the child that it was
/// left with, if it was left with one.
proof fn lemma_refilled<T: Digestible, const N: usize, const K: usize, H: Digest, M: TrieMode>(
    was: Node<T, N, K, H, M>,
    mid: Node<T, N, K, H, M>,
    end: NodeLink<T, N, K, H, M>,
    slot: int,
    off: int,
    room: int,
    k: Seq<u8>,
)
    requires
        refilled(was, mid, slot, off, room),
        was.tree(Seq::empty()).covers(off, k),
        k.len() >= was.key@.len(),
        slot == was.tree(Seq::empty()).slot(radix_bits(K as int), k),
        ({
            let t = was.tree(Seq::empty());
            let w = radix_bits(K as int);
            let now = mid.kind->children@[slot].tree();
            changed_at(
                t->children[slot],
                now,
                w,
                t.start() + w,
                t.rest(k),
                now.value_at(w, t.start() + w, t.rest(k)),
            )
        }),
        fresh::<T, H>(was.kind->children@[slot].tree()) ==> fresh::<T, H>(mid.kind->children@[slot].tree()),
        end.0 matches Some((hash, node)) && hash@ == node.local_digest() && {
            if was.kind->children@[slot].0 is Some && mid.kind->children@[slot].0 is None {
                &&& forall|s: int| #[trigger]
                    only_linked(mid.kind->children@, s) ==> {
                        let child = *(mid.kind->children@[s].0->0).1;
                        &&& node.key@ == joined(
                            mid.key@,
                            mid.kind->Branch_mask.trailing_zeros() as int,
                            s as u8,
                            child.key@,
                        )
                        &&& node.kind == child.kind
                    }
                &&& (forall|s: int| !#[trigger] only_linked(mid.kind->children@, s)) ==> *node == mid
            } else {
                *node == mid
            }
        },
    ensures
        end.inv(off, room),
        changed_at(
            was.tree(Seq::empty()),
            end.tree(),
            radix_bits(K as int),
            off,
            k,
            end.tree().value_at(radix_bits(K as int), off, k),
        ),
        end.tree().value_at(radix_bits(K as int), off, k) == mid.kind->children@[slot].tree().value_at(
            radix_bits(K as int),
            was.tree(Seq::empty()).start() + radix_bits(K as int),
            was.tree(Seq::empty()).rest(k),
        ),
        fresh::<T, H>(was.tree(Seq::empty())) ==> fresh::<T, H>(end.tree()),
        mid.kind->children@[slot].tree() == was.kind->children@[slot].tree() ==> end.tree() == was.tree(Seq::empty()),
{
    let w = radix_bits(K as int);
    let partial = M::allows_opaque();
    let t = was.tree(Seq::empty());
    let m = mid.tree(Seq::empty());
    let (hash, node) = end.0->0;
    let v = m->children[slot].value_at(w, t.start() + w, t.rest(k));
    t.lemma_branch_bounds(w, off, room, partial);
    assert(m->children[slot] == mid.kind->children@[slot].tree());
    assert(t->children[slot] == was.kind->children@[slot].tree());
    assert(m->children =~= t->children.update(slot, m->children[slot]));
    lemma_descend(t, m, w, off, room, partial, k, v);
    lemma_occupied(t->children, m->children, slot);
    assert(mid.children_sealed()) by {
        assert forall|i: int| 0 <= i < mid.kind->children@.len() implies (
        #[trigger] mid.kind->children@[i]).sealed() by {
            if i != slot {
                assert(was.kind->children@[i].sealed());
            }
        }
    }
    assert(fresh::<T, H>(t) ==> fresh::<T, H>(m)) by {
        if fresh::<T, H>(t) {
            assert forall|i: int| 0 <= i < m->children.len() implies fresh::<T, H>(#[trigger] m->children[i]) by {
                assert(fresh::<T, H>(t->children[i]));
            }
        }
    }
    let emptied = was.kind->children@[slot].0 is Some && mid.kind->children@[slot].0 is None;
    if emptied && exists|s: int| only_linked(mid.kind->children@, s) {
        let s = choose|s: int| only_linked(mid.kind->children@, s);
        lemma_compress_ready(was, mid, slot, off, room, s);
        let child = *(mid.kind->children@[s].0->0).1;
        assert(mid.kind->children@[s].sealed());
        assert(node.children_sealed());
        node.lemma_sealed(hash, end);
        let x = end.tree();
        assert(m->children[s] == mid.kind->children@[s].tree());
        lemma_merge(m, x, w, off, room, partial, s);
        if fresh::<T, H>(t) {
            assert(fresh::<T, H>(m->children[s]));
            assert(fresh::<T, H>(x));
        }
    } else {
        node.lemma_sealed(hash, end);
        assert(end.tree() == m);
        if mid.kind->children@[slot].tree() == was.kind->children@[slot].tree() {
            assert(m->children =~= t->children);
        }
        if !two_occupied(m->children) {
            let s = choose|only: int| only_occupied(m->children, only);
            assert forall|i: int| 0 <= i < mid.kind->children@.len() && i != s implies (
            #[trigger] mid.kind->children@[i]).0 is None by {
                assert(m->children[i] is Empty);
            }
            assert(only_linked(mid.kind->children@, s));
        }
        assert forall|i: int| 0 <= i < m->children.len() implies (#[trigger] m->children[i]).wf(
            w,
            m.start() + w,
            room - (m.key().len() - 1),
            partial,
        ) by {
            if i != slot {
                assert(m->children[i] == t->children[i]);
            }
        }
    }
}

impl<T: Digestible, const N: usize, const K: usize, H: Digest, M: TrieMode> NodeLink<T, N, K, H, M> {
    /// Probe the trie mutably, optionally with a bound, applying a user-specified action when the probe terminates that
    /// may modify the trie
    pub fn probe_mut<A: ProbeAction<T, N, K, H, M>>(
        &mut self,
        bound: Option<usize>,
        key: &[u8],
        pos: BitPosition,
        action: A,
    ) -> (out: A::Output)
        requires
            probe_at(*old(self), key@, pos),
            cut_off(
                old(self).tree(),
                radix_bits(K as int),
                pos.bits as int,
                key@.skip(pos.index as int),
                bound,
            ) ==> A::takes_bounds(),
        ensures
            probed(*old(self), *final(self), key@, pos),
            action.outcome(
                cut_off(
                    old(self).tree(),
                    radix_bits(K as int),
                    pos.bits as int,
                    key@.skip(pos.index as int),
                    bound,
                ),
                old(self).tree().fate(radix_bits(K as int), pos.bits as int, key@.skip(pos.index as int)),
                old(self).tree().value_at(radix_bits(K as int), pos.bits as int, key@.skip(pos.index as int)),
                final(self).tree().value_at(radix_bits(K as int), pos.bits as int, key@.skip(pos.index as int)),
                out,
            ),
            A::idle(out) ==> final(self).tree() == old(self).tree(),
        decreases *old(self),
    {
        let ghost w = radix_bits(K as int);
        let ghost off = pos.bits as int;
        let ghost room = N - pos.index;
        let ghost t = self.tree();
        let ghost k = key@.skip(pos.index as int);
        proof {
            t.lemma_room(w, off, room, N as int, M::allows_opaque());
        }
        let found: ProbeResult<(), ()> = match self.meet(key, pos) {
            ProbeResult::EmptySlot(_) => ProbeResult::EmptySlot(()),
            ProbeResult::ExactMatch(_) => ProbeResult::ExactMatch(()),
            ProbeResult::Disagreement(_, diff) => ProbeResult::Disagreement((), diff),
            ProbeResult::Bounded(_, next, slot) => ProbeResult::Bounded((), next, slot),
        };
        proof {
            lemma_meets(t, w, off, room, M::allows_opaque(), k, found);
        }
        match found {
            ProbeResult::Bounded(_, next, slot) => {
                proof {
                    t.lemma_branch_bounds(w, off, room, M::allows_opaque());
                    assert(key@.skip(next.index as int) =~= t.rest(k));
                }
                let fewer: Option<usize> = match bound {
                    Some(n) => {
                        if n == 0 {
                            return action.act(key, pos, found, self);
                        }
                        Some(n - 1)
                    },
                    None => None,
                };
                match &mut self.0 {
                    Some((hash, node)) => {
                        let ghost was = **node;
                        let (out, emptied): (A::Output, bool) = match &mut node.kind {
                            Kind::Branch { mask, children } => {
                                proof {
                                    assert(t->children[slot as int] == children@[slot as int].tree());
                                    assert(children@[slot as int].sealed());
                                }
                                let full_before: bool = children[slot].0.is_some();
                                let out: A::Output = children[slot].probe_mut(fewer, key, next, action);
                                // perform post-deletion cleanup, if necessary
                                (out, full_before && children[slot].0.is_none())
                            },
                            _ => vstd::pervasive::unreached(),
                        };
                        let ghost mid = **node;
                        proof {
                            assert(was.tree(Seq::empty()) == t);
                            assert forall|s: int| #[trigger] only_linked(mid.kind->children@, s) implies {
                                &&& 1 <= trees(mid.kind->children@)[s].key().len()
                                &&& mid.key@.len() + trees(mid.kind->children@)[s].key().len() - 1 <= usize::MAX
                                &&& s <= 255
                            } by {
                                lemma_compress_ready(was, mid, slot as int, off, room, s);
                            }
                        }
                        if emptied {
                            node.compress();
                        }
                        *hash = node.digest();
                        proof {
                            let link: NodeLink<T, N, K, H, M> = NodeLink(Some((*hash, *node)));
                            lemma_refilled(was, mid, link, slot as int, off, room, k);
                        }
                        out
                    },
                    None => vstd::pervasive::unreached(),
                }
            },
            _ => action.act(key, pos, found, self),
        }
    }
}

/// Sets the value of a key as an updater says.
pub struct Update<U> {
    /// how to update the value
    pub updater: U,
}

impl<T: Digestible, const N: usize, const K: usize, H: Digest, M: TrieMode, U: NodeUpdate<T>> ProbeAction<
    T,
    N,
    K,
    H,
    M,
> for Update<U> {
    type Output = Result<(), TrieError>;

    open spec fn takes_bounds() -> bool {
        false
    }

    open spec fn outcome(
        self,
        cut: bool,
        fate: Fate,
        before: Option<T>,
        after: Option<T>,
        out: Result<(), TrieError>,
    ) -> bool {
        updated(self.updater, fate, before, after, out)
    }

    open spec fn idle(out: Result<(), TrieError>) -> bool {
        out is Err
    }

    fn act(
        self,
        key: &[u8],
        pos: BitPosition,
        found: ProbeResult<(), ()>,
        link: &mut NodeLink<T, N, K, H, M>,
    ) -> (out: Result<(), TrieError>) {
        let ghost w = radix_bits(K as int);
        let ghost off = pos.bits as int;
        let ghost room = N - pos.index;
        let ghost partial = M::allows_opaque();
        let ghost t = link.tree();
        let ghost k = key@.skip(pos.index as int);
        proof {
            lemma_meets(t, w, off, room, partial, k, found);
            lemma_unchanged(t, w, off, room, partial, k);
        }
        match found {
            ProbeResult::EmptySlot(_) => {
                match self.updater.on_vacant() {
                    Some(value) => {
                        let leaf: Node<T, N, K, H, M> = Node::new_leaf(key_from::<K>(key, pos), value);
                        *link = NodeLink::to(leaf);
                        proof {
                            lemma_new_leaf(link.tree(), w, off, room, partial, k);
                            assert(same_key(off, k, k));
                        }
                        Ok(())
                    },
                    None => Err(TrieError::MissingInitializer),
                }
            },
            ProbeResult::ExactMatch(_) => {
                match &mut link.0 {
                    Some((hash, node)) => {
                        match &mut node.kind {
                            Kind::Leaf { value, .. } => self.updater.on_occupied(value),
                            _ => {
                                return Err(TrieError::UnsupportedSet);
                            },
                        }
                        *hash = node.digest();
                    },
                    None => {},
                }
                proof {
                    let now = link.tree();
                    let (hash, node) = link.0->0;
                    node.lemma_sealed(hash, *link);
                    lemma_trailing_zeros(0u8);
                    assert(same_key(off, k, t.key()));
                    lemma_leaf_keys(t, w, off, k);
                    lemma_leaf_keys(now, w, off, k);
                    assert(same_key(off, k, k));
                }
                Ok(())
            },
            ProbeResult::Disagreement(_, split) => {
                if split.prefix.is_some() {
                    return Err(TrieError::SetOnPrefix);
                }
                match self.updater.on_vacant() {
                    Some(value) => {
                        split_node(link, key, pos, split, value);
                        proof {
                            assert(same_key(off, k, k));
                        }
                        Ok(())
                    },
                    None => Err(TrieError::MissingInitializer),
                }
            },
            ProbeResult::Bounded(..) => vstd::pervasive::unreached(),
        }
    }
}

/// Return what is left of a key from a position on, where the bits of the first byte before the position are 0.
fn key_from<const K: usize>(key: &[u8], pos: BitPosition) -> (rest: Vec<u8>)
    requires
        trie_radix(K as int),
        aligned(radix_bits(K as int), pos.bits as int),
        pos.index < key@.len(),
    ensures
        rest@ == split_suffix(key@.skip(pos.index as int), 0, pos.bits as int),
{
    let ghost k = key@.skip(pos.index as int);
    let ghost w = radix_bits(K as int);
    let tail: &[u8] = vstd::slice::slice_subrange(key, pos.index, key.len());
    assert(tail@ =~= k);
    if pos.bits == 0 {
        let rest: Vec<u8> = copy_slice_into_box(tail);
        proof {
            lemma_low_bits(0);
            let b = k[0];
            assert(low_bits(0) == 0u8);
            assert(b & !0u8 == b) by (bit_vector);
            assert(rest@ =~= split_suffix(k, 0, 0));
        }
        rest
    } else {
        proof {
            let p = pos.bits - 1;
            lemma_chunk_start(p, w);
            lemma_chunk_end(pos.bits as int, w);
        }
        BitSeqOps::<K>::write_aligned_suffix(&BitPosition { index: 0, bits: pos.bits - 1 }, tail)
    }
}

/// Put a leaf for a key beside the node from whose fragment the key parts, below a new branch.
fn split_node<T: Digestible, const N: usize, const K: usize, H: Digest, M: TrieMode>(
    link: &mut NodeLink<T, N, K, H, M>,
    key: &[u8],
    pos: BitPosition,
    split: BitDiff,
    value: T,
)
    requires
        probe_at(*old(link), key@, pos),
        split.prefix is None,
        meets(
            old(link).tree(),
            radix_bits(K as int),
            pos.bits as int,
            key@.skip(pos.index as int),
            ProbeResult::<(), ()>::Disagreement((), split),
        ),
    ensures
        final(link).inv(pos.bits as int, N - pos.index),
        changed_at(
            old(link).tree(),
            final(link).tree(),
            radix_bits(K as int),
            pos.bits as int,
            key@.skip(pos.index as int),
            Some(value),
        ),
        fresh::<T, H>(old(link).tree()) ==> fresh::<T, H>(final(link).tree()),
{
    let ghost w = radix_bits(K as int);
    let ghost off = pos.bits as int;
    let ghost room = N - pos.index;
    let ghost partial = M::allows_opaque();
    let ghost x = link.tree();
    let ghost k = key@.skip(pos.index as int);
    let ghost p = split.pos.as_bit();
    proof {
        lemma_meets(x, w, off, room, partial, k, ProbeResult::<(), ()>::Disagreement((), split));
        lemma_parting_chunk(x, w, off, room, partial, p);
        assert(p / 8 == split.pos.index && p % 8 == split.pos.bits);
        lemma_radix(K as int);
    }
    let rest: &[u8] = vstd::slice::slice_subrange(key, pos.index, key.len());
    assert(rest@ =~= k);
    match link.0.take() {
        Some((_hash, mut evicted)) => {
            let ghost first = *evicted;
            // create keys/slots for to to-be-installed branch
            let branch_key: Vec<u8> = split.write_prefix::<K>(evicted.key.as_slice());
            let existing_key: Vec<u8> = split.write_suffix::<K>(evicted.key.as_slice());
            let inserted_key: Vec<u8> = split.write_suffix::<K>(rest);
            let existing_slot: usize = split.mask_value::<K>(evicted.key.as_slice());
            let inserted_slot: usize = split.mask_value::<K>(rest);
            // ready nodes for insertion
            evicted.key = existing_key;
            let existing: NodeLink<T, N, K, H, M> = NodeLink::to(*evicted);
            let inserted: NodeLink<T, N, K, H, M> = NodeLink::to(Node::new_leaf(inserted_key, value));
            let ghost y = existing.tree();
            let ghost z = inserted.tree();
            // install new branch
            let mut branch: Node<T, N, K, H, M> = Node::new_branch(branch_key, split.mask::<K>());
            let ghost bare = branch;
            match &mut branch.kind {
                Kind::Branch { children, .. } => {
                    children.set(existing_slot, existing);
                    children.set(inserted_slot, inserted);
                },
                _ => {},
            }
            let ghost full = branch;
            *link = NodeLink::to(branch);
            proof {
                let start = chunk_start(p % 8, w);
                let sx = existing_slot as int;
                let sk = inserted_slot as int;
                let children = full.kind->children@;
                let b = link.tree();
                assert(first.tree(_hash@) == x);
                lemma_chunk_in_seq(k, x.key(), p / 8, start, w);
                assert(sx != sk) by {
                    assert(bit_at(k, p) != bit_at(x.key(), p));
                }
                assert(children == bare.kind->children@.update(sx, existing).update(sk, inserted));
                assert(b->children[sx] == y);
                assert(b->children[sk] == z);
                assert forall|i: int|
                    0 <= i < b->children.len() && i != sx && i != sk implies #[trigger] b->children[i] is Empty by {
                    assert(children[i] == bare.kind->children@[i]);
                }
                assert(same_body(x, y));
                assert(is_split(x, y, z, b, w, k, p / 8, start, value));
                lemma_split(x, y, z, b, w, off, room, partial, k, p, value);
                if fresh::<T, H>(x) {
                    assert(fresh::<T, H>(y));
                    assert(fresh::<T, H>(z));
                    assert forall|i: int| 0 <= i < b->children.len() implies fresh::<T, H>(
                        #[trigger] b->children[i],
                    ) by {
                        if i != sx && i != sk {
                            assert(b->children[i] is Empty);
                        }
                    }
                }
            }
        },
        None => {},
    }
}

/// Deletes the value of a key.
pub struct Delete;

impl<T: Digestible, const N: usize, const K: usize, H: Digest, M: TrieMode> ProbeAction<T, N, K, H, M> for Delete {
    type Output = Option<T>;

    open spec fn takes_bounds() -> bool {
        true
    }

    open spec fn outcome(self, cut: bool, fate: Fate, before: Option<T>, after: Option<T>, out: Option<T>) -> bool {
        if cut {
            out is None && after == before
        } else {
            out == before && after is None
        }
    }

    open spec fn idle(out: Option<T>) -> bool {
        out is None
    }

    fn act(
        self,
        key: &[u8],
        pos: BitPosition,
        found: ProbeResult<(), ()>,
        link: &mut NodeLink<T, N, K, H, M>,
    ) -> (out: Option<T>) {
        let ghost w = radix_bits(K as int);
        let ghost off = pos.bits as int;
        let ghost room = N - pos.index;
        let ghost t = link.tree();
        let ghost k = key@.skip(pos.index as int);
        proof {
            lemma_meets(t, w, off, room, M::allows_opaque(), k, found);
            lemma_unchanged(t, w, off, room, M::allows_opaque(), k);
        }
        match found {
            ProbeResult::ExactMatch(_) => {
                match &link.0 {
                    Some((_hash, node)) => {
                        match &node.kind {
                            Kind::Leaf { .. } => {},
                            _ => {
                                return None;
                            },
                        }
                    },
                    None => {
                        return None;
                    },
                }
                proof {
                    lemma_trailing_zeros(0u8);
                    assert(same_key(off, k, t.key()));
                    lemma_leaf_keys(t, w, off, k);
                }
                match link.0.take() {
                    Some((_hash, leaf)) => {
                        let Node { key: _fragment, kind } = *leaf;
                        match kind {
                            Kind::Leaf { value, .. } => Some(value),
                            _ => None,
                        }
                    },
                    None => None,
                }
            },
            _ => None,
        }
    }
}

impl<T: Digestible, const N: usize, const K: usize, H: Digest, M: TrieMode> NodeLink<T, N, K, H, M> {
    /// Set the value of a key as the updater says.
    pub fn update<U: NodeUpdate<T>>(&mut self, target_key: &[u8], updater: U) -> (out: Result<(), TrieError>)
        requires
            probe_at(*old(self), target_key@, (BitPosition { index: 0, bits: 0 })),
        ensures
            probed(*old(self), *final(self), target_key@, (BitPosition { index: 0, bits: 0 })),
            updated(
                updater,
                old(self).tree().fate(radix_bits(K as int), 0, target_key@),
                old(self).tree().value_at(radix_bits(K as int), 0, target_key@),
                final(self).tree().value_at(radix_bits(K as int), 0, target_key@),
                out,
            ),
            out is Err ==> final(self).tree() == old(self).tree(),
    {
        assert(target_key@.skip(0) =~= target_key@);
        self.probe_mut(None, target_key, BitPosition { index: 0, bits: 0 }, Update { updater })
    }

    /// Delete the value of a key and return it.
    pub fn delete(&mut self, target_key: &[u8]) -> (value: Option<T>)
        requires
            probe_at(*old(self), target_key@, (BitPosition { index: 0, bits: 0 })),
        ensures
            probed(*old(self), *final(self), target_key@, (BitPosition { index: 0, bits: 0 })),
            value == old(self).tree().value_at(radix_bits(K as int), 0, target_key@),
            final(self).tree().value_at(radix_bits(K as int), 0, target_key@) is None,
            value is None ==> final(self).tree() == old(self).tree(),
    {
        assert(target_key@.skip(0) =~= target_key@);
        self.probe_mut(None, target_key, BitPosition { index: 0, bits: 0 }, Delete)
    }
}

// ---------------------------------------------------------------------------
// Copying and comparing
// ---------------------------------------------------------------------------

impl<T: Digestible + Clone, const N: usize, const K: usize, H: Digest, M: TrieMode> Clone for NodeLink<
    T,
    N,
    K,
    H,
    M,
> {
    fn clone(&self) -> (copy: Self)
        ensures
            cloned_tree(self.tree(), copy.tree()),
            copy.stored() == self.stored(),
            self.sealed() ==> copy.sealed(),
        decreases self,
    {
        match &self.0 {
            None => NodeLink(None),
            Some((hash, node)) => {
                let kind: Kind<T, N, K, H, M> = match &node.kind {
                    Kind::Leaf { value, .. } => Kind::Leaf { value: value.clone(), _phantom: PhantomData },
                    Kind::Opaque { digest, mask, marker } => Kind::Opaque {
                        digest: copy_slice_into_box(digest.as_slice()),
                        mask: *mask,
                        marker: marker.clone(),
                    },
                    Kind::Branch { mask, children } => {
                        let mut copies: Vec<NodeLink<T, N, K, H, M>> = Vec::new();
                        let mut i: usize = 0;
                        while i < children.len()
                            invariant
                                i <= children@.len(),
                                copies@.len() == i,
                                decreases_to!(self => children@),
                                forall|j: int|
                                    0 <= j < i ==> cloned_tree(children@[j].tree(), (#[trigger] copies@[j]).tree())
                                        && copies@[j].stored() == children@[j].stored() && (children@[j].sealed()
                                        ==> copies@[j].sealed()),
                            decreases children@.len() - i,
                        {
                            copies.push(children[i].clone());
                            i += 1;
                        }
                        Kind::Branch { mask: *mask, children: copies }
                    },
                };
                let ghost copied = kind;
                let copy: Self = NodeLink(
                    Some(
                        (
                            copy_slice_into_box(hash.as_slice()),
                            Box::new(Node { key: copy_slice_into_box(node.key.as_slice()), kind }),
                        ),
                    ),
                );
                proof {
                    let a = self.tree();
                    let b = copy.tree();
                    if a is Branch {
                        assert forall|i: int| 0 <= i < a->children.len() implies cloned_tree(
                            a->children[i],
                            #[trigger] b->children[i],
                        ) by {
                            assert(b->children[i] == copied->children@[i].tree());
                        }
                    }
                    assert(cloned_tree(a, b));
                    lemma_cloned_digest::<T, H>(a, b);
                }
                copy
            },
        }
    }
}

impl<T: Digestible + PartialEq, const N: usize, const K: usize, H: Digest, M: TrieMode> NodeLink<T, N, K, H, M> {
    /// Return whether two tries have the same structure and equal values.
    pub fn same_structure(&self, other: &Self) -> (same: bool)
        ensures
            T::obeys_eq_spec() ==> same == equal_trees(self.tree(), other.tree()),
        decreases self,
    {
        match (&self.0, &other.0) {
            (None, None) => true,
            (Some((_h1, node1)), Some((_h2, node2))) => {
                if !same_bytes(node1.key.as_slice(), node2.key.as_slice()) {
                    return false;
                }
                match (&node1.kind, &node2.kind) {
                    (Kind::Leaf { value: v1, .. }, Kind::Leaf { value: v2, .. }) => v1 == v2,
                    (Kind::Opaque { digest: d1, .. }, Kind::Opaque { digest: d2, .. }) => same_bytes(
                        d1.as_slice(),
                        d2.as_slice(),
                    ),
                    (Kind::Branch { mask: m1, children: c1 }, Kind::Branch { mask: m2, children: c2 }) => {
                        if *m1 != *m2 || c1.len() != c2.len() {
                            return false;
                        }
                        let ghost a = self.tree()->children;
                        let ghost b = other.tree()->children;
                        let mut i: usize = 0;
                        while i < c1.len()
                            invariant
                                i <= c1@.len(),
                                c1@.len() == c2@.len(),
                                decreases_to!(self => c1@),
                                a == trees(c1@),
                                b == trees(c2@),
                                self.tree() is Branch,
                                other.tree() is Branch,
                                a == self.tree()->children,
                                b == other.tree()->children,
                                T::obeys_eq_spec() ==> forall|j: int|
                                    0 <= j < i ==> equal_trees(#[trigger] a[j], b[j]),
                            decreases c1@.len() - i,
                        {
                            assert(a[i as int] == c1@[i as int].tree());
                            assert(b[i as int] == c2@[i as int].tree());
                            if !c1[i].same_structure(&c2[i]) {
                                return false;
                            }
                            i += 1;
                        }
                        true
                    },
                    _ => false,
                }
            },
            _ => false,
        }
    }
}

/// Node equality is just equality of its node structure.
impl<T: Digestible + PartialEq + Eq, const N: usize, const K: usize, H: Digest, M: TrieMode> PartialEq for NodeLink<
    T,
    N,
    K,
    H,
    M,
> {
    fn eq(&self, other: &Self) -> (same: bool) {
        self.same_structure(other)
    }
}

impl<T: Digestible + PartialEq + Eq, const N: usize, const K: usize, H: Digest, M: TrieMode> PartialEqSpecImpl for NodeLink<
    T,
    N,
    K,
    H,
    M,
> {
    open spec fn obeys_eq_spec() -> bool {
        T::obeys_eq_spec()
    }

    open spec fn eq_spec(&self, other: &Self) -> bool {
        equal_trees(self.tree(), other.tree())
    }
}

}
