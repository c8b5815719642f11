//! Where searches for keys end.
use crate::bitseqops::{bit_at, bit_len, law_first_diff, lemma_trailing_zeros, radix_bits, BitDiff};
use crate::digestible::{Digest, Digestible};
use crate::node::{cut_off, ends_with, Kind, Node, NodeLink, ProbeResult, TrieMode};
use crate::tree::{aligned, Tree};
use crate::trie::Trie;
use vstd::prelude::*;

verus! {

/// The part of the trie `t` at which the search for the key `k` ends, the bit at which its fragment starts, and what is
/// left of the key there.
pub open spec fn end_of<T>(t: Tree<T>, w: int, off: int, k: Seq<u8>) -> (Tree<T>, int, Seq<u8>)
    decreases t,
{
    match t {
        Tree::Branch { key, mask, children } => if t.covers(off, k) && k.len() >= key.len() && t.slot(w, k)
            < children.len() {
            end_of(children[t.slot(w, k)], w, t.start() + w, t.rest(k))
        } else {
            (t, off, k)
        },
        _ => (t, off, k),
    }
}

/// The number of branches that the search for the key `k` goes through.
pub open spec fn passed<T>(t: Tree<T>, w: int, off: int, k: Seq<u8>) -> nat
    decreases t,
{
    match t {
        Tree::Branch { key, mask, children } => if t.covers(off, k) && k.len() >= key.len() && t.slot(w, k)
            < children.len() {
            1 + passed(children[t.slot(w, k)], w, t.start() + w, t.rest(k))
        } else {
            0
        },
        _ => 0,
    }
}

/// The first place at which the rest of a key and a fragment differ, behind the bit `off`: they have the same bits up
/// to it, and there they have different bits, or just one of them ends.
pub open spec fn parts_from(k: Seq<u8>, fragment: Seq<u8>, off: int, bits: int, diff: BitDiff) -> bool {
    let p = diff.pos.index * 8 + diff.pos.bits;
    &&& diff.pos.bits < 8
    &&& off <= p <= bit_len(k) && p <= bits
    &&& forall|i: int| off <= i < p ==> #[trigger] bit_at(k, i) == bit_at(fragment, i)
    &&& match diff.prefix {
        None => p < bit_len(k) && p < bits && bit_at(k, p) != bit_at(fragment, p),
        Some(which) => which == (if p < bits {
            0usize
        } else {
            1usize
        }) && bit_len(k) != bits && (p == bit_len(k) || p == bits),
    }
}

/// What is found where the search for a key ends: `e` is the part of the trie there, whose fragment starts at the bit
/// `off`, and `k` is what is left of the key.
pub open spec fn found_in<T: Digestible, const N: usize, const K: usize, H: Digest, M: TrieMode>(
    e: Tree<T>,
    off: int,
    k: Seq<u8>,
    found: ProbeResult<(), &Node<T, N, K, H, M>>,
) -> bool {
    let agrees = bit_len(k) == e.key_bits() && forall|i: int|
        off <= i < bit_len(k) ==> #[trigger] bit_at(k, i) == bit_at(e.key(), i);
    &&& !(found is Bounded)
    &&& found is EmptySlot <==> e is Empty
    &&& found is ExactMatch <==> !(e is Empty) && agrees
    &&& found is Disagreement <==> !(e is Empty) && !agrees
    &&& found matches ProbeResult::ExactMatch(node) ==> {
        &&& node.key@ == e.key()
        &&& node.kind is Leaf <==> e is Leaf
        &&& node.kind is Branch <==> e is Branch
        &&& node.kind matches Kind::Leaf { value, .. } ==> e->value == value
    }
    &&& found matches ProbeResult::Disagreement(node, diff) ==> {
        &&& node.key@ == e.key()
        &&& node.kind is Leaf <==> e is Leaf
        &&& node.kind is Branch <==> e is Branch
        &&& parts_from(k, e.key(), off, e.key_bits(), diff)
    }
}

proof fn lemma_found_in<T: Digestible, const N: usize, const K: usize, H: Digest, M: TrieMode>(
    link: NodeLink<T, N, K, H, M>,
    key: Seq<u8>,
    index: int,
    off: int,
    room: int,
    found: ProbeResult<(), &Node<T, N, K, H, M>>,
)
    requires
        aligned(radix_bits(K as int), off),
        link.tree().wf(radix_bits(K as int), off, room, M::allows_opaque()),
        0 <= index,
        index * 8 + off <= key.len() * 8,
        ends_with(link, None, key, index, off, found),
    ensures
        ({
            let (e, at, k) = end_of(link.tree(), radix_bits(K as int), off, key.skip(index));
            found_in(e, at, k, found)
        }),
    decreases link,
{
    let w = radix_bits(K as int);
    let t = link.tree();
    let k = key.skip(index);
    lemma_trailing_zeros(t.tail());
    if let Some((hash, node)) = link.0 {
        if let Kind::Branch { mask, children } = node.kind {
            t.lemma_branch_bounds(w, off, room, M::allows_opaque());
            let s = t.slot(w, k);
            if t.covers(off, k) && k.len() >= t.key().len() {
                let next = index + t.key().len() - 1;
                assert(t->children[s] == children@[s].tree());
                assert(key.skip(next) =~= t.rest(k));
                lemma_found_in(
                    children@[s],
                    key,
                    next,
                    t.start() + w,
                    room - (t.key().len() - 1),
                    found,
                );
            }
        }
        if let ProbeResult::Disagreement(_, diff) = found {
            if end_of(t, w, off, k) == (t, off, k) && !(t.covers(off, k) && t is Branch && k.len() >= t.key().len()) {
                law_first_diff(k, t.key(), off, k.len() * 8 - off, t.key_bits() - off, Some(diff));
            }
        }
    }
}

/// Where a probe without a bound ends, and what it finds there. It finds an empty slot exactly where the search ends at
/// one; an exact match exactly where what is left of the key is the fragment of the node there; and else where the two
/// part first.
pub proof fn law_probe_ends<T: Digestible, const N: usize, const K: usize, H: Digest, M: TrieMode>(
    t: Trie<T, N, K, H, M>,
    key: Seq<u8>,
    found: ProbeResult<(), &Node<T, N, K, H, M>>,
)
    requires
        t.wf(),
        ends_with(t.link(), None, key, 0, 0, found),
    ensures
        ({
            let (e, off, k) = end_of(t.tree(), radix_bits(K as int), 0, key);
            found_in(e, off, k, found)
        }),
{
    assert(key.skip(0) =~= key);
    lemma_found_in(t.link(), key, 0, 0, N as int, found);
}

proof fn lemma_cut_off<T>(t: Tree<T>, w: int, off: int, k: Seq<u8>, n: usize)
    ensures
        cut_off(t, w, off, k, Some(n)) <==> n < passed(t, w, off, k),
    decreases t,
{
    if t is Branch && t.slot(w, k) < t->children.len() && n > 0 {
        lemma_cut_off(t->children[t.slot(w, k)], w, t.start() + w, t.rest(k), (n - 1) as usize);
    }
}

/// A bound ends a probe exactly where the search goes through more branches than it allows; without a bound, a probe is
/// never ended by one.
pub proof fn law_bounds<T: Digestible, const N: usize, const K: usize, H: Digest, M: TrieMode>(
    link: NodeLink<T, N, K, H, M>,
    off: int,
    k: Seq<u8>,
    n: usize,
)
    ensures
        cut_off(link.tree(), radix_bits(K as int), off, k, Some(n)) <==> n < passed(
            link.tree(),
            radix_bits(K as int),
            off,
            k,
        ),
        !cut_off(link.tree(), radix_bits(K as int), off, k, None),
{
    lemma_cut_off(link.tree(), radix_bits(K as int), off, k, n);
}

proof fn lemma_wide_bound<T: Digestible, const N: usize, const K: usize, H: Digest, M: TrieMode>(
    link: NodeLink<T, N, K, H, M>,
    n: usize,
    key: Seq<u8>,
    index: int,
    off: int,
    room: int,
    found: ProbeResult<(), &Node<T, N, K, H, M>>,
)
    requires
        aligned(radix_bits(K as int), off),
        link.tree().wf(radix_bits(K as int), off, room, M::allows_opaque()),
        0 <= index,
        index * 8 + off <= key.len() * 8,
        passed(link.tree(), radix_bits(K as int), off, key.skip(index)) <= n,
    ensures
        ends_with(link, Some(n), key, index, off, found) <==> ends_with(link, None, key, index, off, found),
    decreases link,
{
    let w = radix_bits(K as int);
    let t = link.tree();
    let k = key.skip(index);
    if let Some((hash, node)) = link.0 {
        if let Kind::Branch { mask, children } = node.kind {
            t.lemma_branch_bounds(w, off, room, M::allows_opaque());
            let s = t.slot(w, k);
            if t.covers(off, k) && k.len() >= t.key().len() {
                let next = index + t.key().len() - 1;
                assert(t->children[s] == children@[s].tree());
                assert(key.skip(next) =~= t.rest(k));
                lemma_wide_bound(
                    children@[s],
                    (n - 1) as usize,
                    key,
                    next,
                    t.start() + w,
                    room - (t.key().len() - 1),
                    found,
                );
            }
        }
    }
}

/// A bound that does not end a probe makes no difference.
pub proof fn law_wide_bounds_make_no_difference<
    T: Digestible,
    const N: usize,
    const K: usize,
    H: Digest,
    M: TrieMode,
>(t: Trie<T, N, K, H, M>, n: usize, key: Seq<u8>, found: ProbeResult<(), &Node<T, N, K, H, M>>)
    requires
        t.wf(),
        passed(t.tree(), radix_bits(K as int), 0, key) <= n,
    ensures
        ends_with(t.link(), Some(n), key, 0, 0, found) <==> ends_with(t.link(), None, key, 0, 0, found),
{
    assert(key.skip(0) =~= key);
    lemma_wide_bound(t.link(), n, key, 0, 0, N as int, found);
}

/// The part of the trie `t` that the search for the key `k` comes to when it has gone through `n` branches, the bit at
/// which its fragment starts, and what is left of the key there.
pub open spec fn part_after<T>(t: Tree<T>, w: int, off: int, k: Seq<u8>, n: nat) -> (Tree<T>, int, Seq<u8>)
    decreases n,
{
    if n > 0 && t is Branch {
        part_after(t->children[t.slot(w, k)], w, t.start() + w, t.rest(k), (n - 1) as nat)
    } else {
        (t, off, k)
    }
}

proof fn lemma_cut_probe<T: Digestible, const N: usize, const K: usize, H: Digest, M: TrieMode>(
    link: NodeLink<T, N, K, H, M>,
    n: usize,
    key: Seq<u8>,
    index: int,
    off: int,
    room: int,
    found: ProbeResult<(), &Node<T, N, K, H, M>>,
)
    requires
        aligned(radix_bits(K as int), off),
        link.tree().wf(radix_bits(K as int), off, room, M::allows_opaque()),
        0 <= index,
        index * 8 + off <= key.len() * 8,
        n < passed(link.tree(), radix_bits(K as int), off, key.skip(index)),
        ends_with(link, Some(n), key, index, off, found),
    ensures
        ({
            let w = radix_bits(K as int);
            let (e, at, k) = part_after(link.tree(), w, off, key.skip(index), n as nat);
            &&& found matches ProbeResult::Bounded(node, next, slot)
            &&& e is Branch && node.kind is Branch && node.key@ == e.key()
            &&& slot == e.slot(w, k)
            &&& key.skip(next.index as int) == e.rest(k)
            &&& next.bits == e.start() + w
        }),
    decreases link,
{
    let w = radix_bits(K as int);
    let t = link.tree();
    let k = key.skip(index);
    lemma_trailing_zeros(t.tail());
    if let Some((hash, node)) = link.0 {
        if let Kind::Branch { mask, children } = node.kind {
            t.lemma_branch_bounds(w, off, room, M::allows_opaque());
            let s = t.slot(w, k);
            let next = index + t.key().len() - 1;
            assert(t->children[s] == children@[s].tree());
            assert(key.skip(next) =~= t.rest(k));
            if n > 0 {
                lemma_cut_probe(
                    children@[s],
                    (n - 1) as usize,
                    key,
                    next,
                    t.start() + w,
                    room - (t.key().len() - 1),
                    found,
                );
            } else {
                if let ProbeResult::Disagreement(_, diff) = found {
                    law_first_diff(k, t.key(), off, k.len() * 8 - off, t.key_bits() - off, Some(diff));
                    let p = diff.pos.index * 8 + diff.pos.bits;
                    if p < t.key_bits() {
                        assert(bit_at(k, p) == bit_at(t.key(), p));
                    }
                }
            }
        }
    }
}

/// A probe that is ended by its bound ends at the branch that comes after as many others as the bound allows, and tells
/// the child that the key goes to from there and where in the key the fragment of that child starts.
pub proof fn law_cut_probe<T: Digestible, const N: usize, const K: usize, H: Digest, M: TrieMode>(
    t: Trie<T, N, K, H, M>,
    n: usize,
    key: Seq<u8>,
    found: ProbeResult<(), &Node<T, N, K, H, M>>,
)
    requires
        t.wf(),
        n < passed(t.tree(), radix_bits(K as int), 0, key),
        ends_with(t.link(), Some(n), key, 0, 0, found),
    ensures
        ({
            let w = radix_bits(K as int);
            let (e, off, k) = part_after(t.tree(), w, 0, key, n as nat);
            &&& found matches ProbeResult::Bounded(node, next, slot)
            &&& e is Branch && node.kind is Branch && node.key@ == e.key()
            &&& slot == e.slot(w, k)
            &&& key.skip(next.index as int) == e.rest(k)
            &&& next.bits == e.start() + w
        }),
{
    assert(key.skip(0) =~= key);
    lemma_cut_probe(t.link(), n, key, 0, 0, N as int, found);
}

}
