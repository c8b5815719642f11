//! Witnesses: partial tries that prove what a trie holds under some keys.
use crate::bitseqops::{
    bit_at, bit_len, lemma_radix, lemma_trailing_zeros, radix_bits, same_bits, BitPosition, BitSeqOps,
};
use crate::canonical::{holds, lemma_held, lemma_lifted, lemma_member, lifted, member};
use crate::conflicts::lemma_no_stub;
use crate::digestible::{hash_leaf, leaf_digest, Digest, Digestible, HashWitnessValue};
use crate::node::{trees, trie_radix, Complete, Hidden, Kind, Node, NodeLink, Partial, ProbeResult, TrieMode};
use crate::tree::{
    aligned, digest_of, digests_of, lemma_chunk_in_seq, lemma_skip_bits, lift_stub, two_occupied, valid_width,
    Tree,
};
use crate::utils::copy_slice_into_box;
use vstd::prelude::*;

verus! {

// ---------------------------------------------------------------------------
// What a witness is
// ---------------------------------------------------------------------------

/// The key `k` goes to the child `slot` of the branch `t`.
pub open spec fn goes_to<T>(t: Tree<T>, w: int, off: int, slot: int, k: Seq<u8>) -> bool {
    t.covers(off, k) && k.len() >= t.key().len() && t.slot(w, k) == slot
}

/// What is left of the keys that go to the child `slot` of the branch `t`.
pub open spec fn reached<T>(t: Tree<T>, w: int, off: int, slot: int, keys: Set<Seq<u8>>) -> Set<Seq<u8>> {
    Set::new(
        |r: Seq<u8>|
            exists|k: Seq<u8>| #[trigger] keys.contains(k) && goes_to(t, w, off, slot, k) && r == t.rest(k),
    )
}

/// Some key goes to the child `slot` of the branch `t`.
pub open spec fn is_reached<T>(t: Tree<T>, w: int, off: int, slot: int, keys: Set<Seq<u8>>) -> bool {
    exists|k: Seq<u8>| #[trigger] keys.contains(k) && goes_to(t, w, off, slot, k)
}

/// `p` hides `t` behind its digest.
pub open spec fn hides<T, V, H: Digest>(t: Tree<T>, p: Tree<V>) -> bool {
    match t {
        Tree::Empty => p is Empty,
        _ => p matches Tree::Opaque { digest, key, mask } && digest == digest_of::<T, H>(t) && key == t.key() && mask
            == t.tail(),
    }
}

/// `p` is the minimal witness of `t` for the keys `keys`: it holds the nodes that the keys lead to and hides
/// the others. A value `v` of `t` that is kept at a leaf of key fragment `k` is represented by some `c` for
/// which `rel(k, v, c)` holds.
pub open spec fn witness_of<T, V, H: Digest>(
    t: Tree<T>,
    p: Tree<V>,
    w: int,
    off: int,
    keys: Set<Seq<u8>>,
    rel: spec_fn(Seq<u8>, T, V) -> bool,
) -> bool
    decreases t,
{
    match t {
        Tree::Empty => p is Empty,
        Tree::Leaf { digest, key, value } => p matches Tree::Leaf { digest: d, key: k, value: v } && d == digest && k
            == key && rel(key, value, v),
        Tree::Opaque { digest, key, mask } => p matches Tree::Opaque { digest: d, key: k, mask: m } && d == digest && k
            == key && m == mask,
        Tree::Branch { key, mask, children } => {
            &&& p matches Tree::Branch { key: k, mask: m, children: c }
            &&& k == key
            &&& m == mask
            &&& c.len() == children.len()
            &&& forall|i: int|
                #![trigger c[i]]
                #![trigger children[i]]
                0 <= i < children.len() ==> if is_reached(t, w, off, i, keys) {
                    witness_of::<T, V, H>(children[i], c[i], w, t.start() + w, reached(t, w, off, i, keys), rel)
                } else {
                    hides::<T, V, H>(children[i], c[i])
                }
        },
    }
}

// ---------------------------------------------------------------------------
// What witnesses prove
// ---------------------------------------------------------------------------

/// A witness has the digest of what it is a witness of.
pub proof fn lemma_witness_digest<T, V, H: Digest>(
    t: Tree<T>,
    p: Tree<V>,
    w: int,
    off: int,
    keys: Set<Seq<u8>>,
    rel: spec_fn(Seq<u8>, T, V) -> bool,
)
    requires
        witness_of::<T, V, H>(t, p, w, off, keys, rel),
    ensures
        digest_of::<V, H>(p) == digest_of::<T, H>(t),
    decreases t,
{
    match t {
        Tree::Branch { key, mask, children } => {
            let c = p->children;
            assert forall|i: int| 0 <= i < children.len() implies digest_of::<V, H>(#[trigger] c[i]) == digest_of::<
                T,
                H,
            >(children[i]) by {
                if is_reached(t, w, off, i, keys) {
                    lemma_witness_digest::<T, V, H>(
                        children[i],
                        c[i],
                        w,
                        t.start() + w,
                        reached(t, w, off, i, keys),
                        rel,
                    );
                }
            }
            assert(digests_of::<V, H>(c) =~= digests_of::<T, H>(children));
        },
        _ => {},
    }
}

/// A witness is empty where its trie is, and nowhere else.
proof fn lemma_witness_empty<T, V, H: Digest>(
    t: Tree<T>,
    p: Tree<V>,
    w: int,
    off: int,
    keys: Set<Seq<u8>>,
    rel: spec_fn(Seq<u8>, T, V) -> bool,
)
    requires
        witness_of::<T, V, H>(t, p, w, off, keys, rel),
    ensures
        p is Empty <==> t is Empty,
{
}

/// A witness of a well formed trie is a well formed partial trie.
pub proof fn lemma_witness_wf<T, V, H: Digest>(
    t: Tree<T>,
    p: Tree<V>,
    w: int,
    off: int,
    room: int,
    partial: bool,
    keys: Set<Seq<u8>>,
    rel: spec_fn(Seq<u8>, T, V) -> bool,
)
    requires
        witness_of::<T, V, H>(t, p, w, off, keys, rel),
        t.wf(w, off, room, partial),
    ensures
        p.wf(w, off, room, true),
    decreases t,
{
    match t {
        Tree::Branch { key, mask, children } => {
            let c = p->children;
            assert(p.fragment_wf(w, off, room));
            assert(p.start() == t.start());
            assert forall|i: int| 0 <= i < children.len() implies (#[trigger] c[i]).wf(
                w,
                p.start() + w,
                room - (key.len() - 1),
                true,
            ) && (c[i] is Empty <==> children[i] is Empty) by {
                let inner = room - (key.len() - 1);
                assert(children[i].wf(w, t.start() + w, inner, partial));
                if is_reached(t, w, off, i, keys) {
                    lemma_witness_wf::<T, V, H>(
                        children[i],
                        c[i],
                        w,
                        t.start() + w,
                        inner,
                        partial,
                        reached(t, w, off, i, keys),
                        rel,
                    );
                    lemma_witness_empty::<T, V, H>(
                        children[i],
                        c[i],
                        w,
                        t.start() + w,
                        reached(t, w, off, i, keys),
                        rel,
                    );
                } else if !(children[i] is Empty) {
                    assert(children[i].fragment_wf(w, t.start() + w, inner));
                    assert(c[i].tail() == children[i].tail());
                    assert(c[i].fragment_wf(w, t.start() + w, inner));
                }
            }
            let (i, j) = choose|i: int, j: int|
                #![trigger children[i], children[j]]
                0 <= i < j < children.len() && !(children[i] is Empty) && !(children[j] is Empty);
            assert(!(c[i] is Empty) && !(c[j] is Empty));
            assert(two_occupied(c));
        },
        Tree::Empty => {},
        _ => {
            assert(p.fragment_wf(w, off, room));
        },
    }
}

/// What a witness tells of a key is true of the trie that it is a witness of; of the keys that it was made for
/// it tells all that the trie does.
pub proof fn lemma_witness_contents<T, V, H: Digest>(
    t: Tree<T>,
    p: Tree<V>,
    w: int,
    off: int,
    room: int,
    partial: bool,
    keys: Set<Seq<u8>>,
    rel: spec_fn(Seq<u8>, T, V) -> bool,
    j: Seq<u8>,
)
    requires
        aligned(w, off),
        witness_of::<T, V, H>(t, p, w, off, keys, rel),
        t.wf(w, off, room, partial),
    ensures
        p.value_at(w, off, j) is Some ==> t.value_at(w, off, j) is Some && exists|k: Seq<u8>| #[trigger]
            rel(k, t.value_at(w, off, j)->0, p.value_at(w, off, j)->0),
        p.stub_at(w, off, j) is None ==> t.stub_at(w, off, j) is None && (t.value_at(w, off, j) is Some
            ==> p.value_at(w, off, j) is Some),
        keys.contains(j) ==> p.stub_at(w, off, j) == t.stub_at(w, off, j) && (t.value_at(w, off, j) is Some
            ==> p.value_at(w, off, j) is Some),
    decreases t,
{
    match t {
        Tree::Leaf { digest, key, value } => {
            assert(p.covers(off, j) == t.covers(off, j));
            if p.value_at(w, off, j) is Some {
                assert(rel(key, t.value_at(w, off, j)->0, p.value_at(w, off, j)->0));
            }
        },
        Tree::Branch { key, mask, children } => {
            t.lemma_branch_bounds(w, off, room, partial);
            let c = p->children;
            assert(p.covers(off, j) == t.covers(off, j));
            if t.covers(off, j) && j.len() >= key.len() {
                let s = t.slot(w, j);
                let end = t.start() + w;
                let r = t.rest(j);
                assert(p.slot(w, j) == s && p.rest(j) == r);
                assert(p.value_at(w, off, j) == c[s].value_at(w, end, r));
                assert(p.stub_at(w, off, j) == lift_stub(c[s].stub_at(w, end, r), key.len() - 1));
                assert(t.value_at(w, off, j) == children[s].value_at(w, end, r));
                assert(t.stub_at(w, off, j) == lift_stub(children[s].stub_at(w, end, r), key.len() - 1));
                if is_reached(t, w, off, s, keys) {
                    let below = reached(t, w, off, s, keys);
                    if keys.contains(j) {
                        assert(goes_to(t, w, off, s, j));
                        assert(below.contains(r));
                    }
                    lemma_witness_contents::<T, V, H>(
                        children[s],
                        c[s],
                        w,
                        end,
                        room - (key.len() - 1),
                        partial,
                        below,
                        rel,
                        r,
                    );
                } else {
                    assert(!keys.contains(j)) by {
                        assert(goes_to(t, w, off, s, j));
                    }
                    if !(children[s] is Empty) {
                        assert(c[s].covers(end, r) == children[s].covers(end, r));
                    }
                }
            }
        },
        Tree::Opaque { digest, key, mask } => {
            assert(p.covers(off, j) == t.covers(off, j));
        },
        Tree::Empty => {},
    }
}

/// A probe meets the same in a witness as in the trie, for the keys that the witness was made for.
pub proof fn lemma_witness_fate<T, V, H: Digest>(
    t: Tree<T>,
    p: Tree<V>,
    w: int,
    off: int,
    room: int,
    partial: bool,
    keys: Set<Seq<u8>>,
    rel: spec_fn(Seq<u8>, T, V) -> bool,
    k: Seq<u8>,
)
    requires
        aligned(w, off),
        witness_of::<T, V, H>(t, p, w, off, keys, rel),
        t.wf(w, off, room, partial),
        keys.contains(k),
    ensures
        p.fate(w, off, k) == t.fate(w, off, k),
    decreases t,
{
    assert(p.covers(off, k) == t.covers(off, k));
    if t is Branch {
        t.lemma_branch_bounds(w, off, room, partial);
        if t.covers(off, k) && k.len() * 8 != t.key_bits() {
            let s = t.slot(w, k);
            assert(k.len() >= t.key().len());
            assert(p.slot(w, k) == s && p.rest(k) == t.rest(k));
            assert(goes_to(t, w, off, s, k));
            assert(is_reached(t, w, off, s, keys));
            assert(reached(t, w, off, s, keys).contains(t.rest(k)));
            lemma_witness_fate::<T, V, H>(
                t->children[s],
                p->children[s],
                w,
                t.start() + w,
                room - (t.key().len() - 1),
                partial,
                reached(t, w, off, s, keys),
                rel,
                t.rest(k),
            );
        }
    }
}

/// The end of the chunk that holds a bit is less than a chunk away from it.
proof fn lemma_chunk_ends(w: int, at: int, d: int, end: int)
    requires
        valid_width(w),
        at % w == 0,
        end % w == 0,
        end - w <= d < end,
    ensures
        at <= d < at + w ==> end == at + w,
        d >= at + w ==> end >= at + 2 * w,
{
    if w == 1 {
    } else if w == 2 {
        assert(at % 2 == 0 && end % 2 == 0);
    } else if w == 4 {
        assert(at % 4 == 0 && end % 4 == 0);
    } else {
        assert(at % 8 == 0 && end % 8 == 0);
    }
}

/// Whole bytes are whole chunks.
proof fn lemma_byte_chunks(w: int, bytes: int, end: int)
    requires
        valid_width(w),
        end % w == 0,
    ensures
        (end - bytes * 8) % w == 0,
{
    if w == 1 {
    } else if w == 2 {
        assert(end % 2 == 0);
    } else if w == 4 {
        assert(end % 4 == 0);
    } else {
        assert(end % 8 == 0);
    }
}

/// No key agrees with `j` up to bit `end`.
pub open spec fn parted_before(keys: Set<Seq<u8>>, j: Seq<u8>, off: int, end: int) -> bool {
    forall|k: Seq<u8>| #[trigger] keys.contains(k) ==> bit_len(k) < end || !same_bits(k, j, off, end)
}

/// Keys that a branch holds, the chunk in which they part, and keys of which one goes where `j` does.
proof fn lemma_parts_below<T>(
    t: Tree<T>,
    w: int,
    off: int,
    room: int,
    partial: bool,
    keys: Set<Seq<u8>>,
    i: Seq<u8>,
    j: Seq<u8>,
    d: int,
    end: int,
)
    requires
        aligned(w, off),
        t is Branch,
        t.wf(w, off, room, partial),
        t.covers(off, i) && i.len() >= t.key().len(),
        t.covers(off, j) && j.len() >= t.key().len(),
        off <= d,
        bit_at(i, d) != bit_at(j, d),
        same_bits(i, j, off, d),
        end % w == 0,
        end - w <= d < end,
        parted_before(keys, j, off, end),
        is_reached(t, w, off, t.slot(w, j), keys),
    ensures
        d >= t.key_bits() + w,
        end >= t.key_bits() + 2 * w,
        t.slot(w, i) == t.slot(w, j),
{
    t.lemma_branch_bounds(w, off, room, partial);
    let s = t.slot(w, j);
    let index = t.key().len() - 1;
    assert(t.key_bits() == index * 8 + t.start());
    assert(d >= t.key_bits()) by {
        if d < t.key_bits() {
            assert(bit_at(i, d) == bit_at(t.key(), d));
            assert(bit_at(j, d) == bit_at(t.key(), d));
        }
    }
    lemma_chunk_ends(w, t.key_bits(), d, end);
    if d < t.key_bits() + w {
        let x = choose|x: Seq<u8>| #[trigger] keys.contains(x) && goes_to(t, w, off, s, x);
        lemma_agrees(t, w, off, room, partial, x, j, end);
    }
    lemma_chunk_in_seq(i, j, index, t.start(), w);
    assert(same_bits(i, j, t.key_bits(), t.key_bits() + w));
}

/// Keys of which none agrees with `j` up to bit `end` do not at a child either.
proof fn lemma_parted_below<T>(
    t: Tree<T>,
    w: int,
    off: int,
    room: int,
    partial: bool,
    keys: Set<Seq<u8>>,
    j: Seq<u8>,
    end: int,
)
    requires
        aligned(w, off),
        t is Branch,
        t.wf(w, off, room, partial),
        t.covers(off, j) && j.len() >= t.key().len(),
        t.key_bits() + w <= end <= bit_len(j),
        parted_before(keys, j, off, end),
    ensures
        parted_before(
            reached(t, w, off, t.slot(w, j), keys),
            t.rest(j),
            t.start() + w,
            end - (t.key().len() - 1) * 8,
        ),
{
    let index = t.key().len() - 1;
    let s = t.slot(w, j);
    let r = t.rest(j);
    let next = t.start() + w;
    assert forall|y: Seq<u8>| #[trigger] reached(t, w, off, s, keys).contains(y) implies bit_len(y) < end - index * 8
        || !same_bits(y, r, next, end - index * 8) by {
        let k = choose|k: Seq<u8>| #[trigger] keys.contains(k) && goes_to(t, w, off, s, k) && y == t.rest(k);
        if bit_len(y) >= end - index * 8 && same_bits(y, r, next, end - index * 8) {
            lemma_rests_agree(t, w, off, room, partial, k, j, end);
        }
    }
}

/// A bit string of whole bytes holds the whole chunk of each of its bits.
proof fn lemma_chunk_within(w: int, j: Seq<u8>, d: int, end: int)
    requires
        valid_width(w),
        d < bit_len(j),
        end % w == 0,
        end - w <= d < end,
    ensures
        end <= bit_len(j),
{
    lemma_byte_chunks(w, j.len() as int, end);
    lemma_chunk_ends(w, 0, d - bit_len(j), end - bit_len(j));
    if end > bit_len(j) {
        if w == 1 {
        } else if w == 2 {
            assert((end - bit_len(j)) % 2 == 0);
        } else if w == 4 {
            assert((end - bit_len(j)) % 4 == 0);
        } else {
            assert((end - bit_len(j)) % 8 == 0);
        }
    }
}

/// A witness hides what no key leads to: where the keys `i` and `j` part in the chunk that ends at bit `end`, and no
/// key that the witness was made for agrees with `j` that far, `j` leads into a hidden part.
pub proof fn lemma_witness_hides<T, V, H: Digest>(
    t: Tree<T>,
    p: Tree<V>,
    w: int,
    off: int,
    room: int,
    partial: bool,
    keys: Set<Seq<u8>>,
    rel: spec_fn(Seq<u8>, T, V) -> bool,
    i: Seq<u8>,
    j: Seq<u8>,
    d: int,
    end: int,
)
    requires
        aligned(w, off),
        witness_of::<T, V, H>(t, p, w, off, keys, rel),
        t.wf(w, off, room, partial),
        holds(t, w, off, i),
        holds(t, w, off, j),
        off <= d < bit_len(i),
        d < bit_len(j),
        same_bits(i, j, off, d),
        bit_at(i, d) != bit_at(j, d),
        end % w == 0,
        end - w <= d < end,
        parted_before(keys, j, off, end),
    ensures
        p.stub_at(w, off, j) is Some,
    decreases t,
{
    lemma_held(t, w, off, room, partial, i);
    lemma_held(t, w, off, room, partial, j);
    assert(p.covers(off, j) == t.covers(off, j));
    match t {
        Tree::Branch { key, mask, children } => {
            t.lemma_branch_bounds(w, off, room, partial);
            let s = t.slot(w, j);
            let index = key.len() - 1;
            let next = t.start() + w;
            let r = t.rest(j);
            let c = p->children;
            assert(p.slot(w, j) == s && p.rest(j) == r);
            assert(p.stub_at(w, off, j) == lift_stub(c[s].stub_at(w, next, r), index));
            if is_reached(t, w, off, s, keys) {
                lemma_parts_below(t, w, off, room, partial, keys, i, j, d, end);
                lemma_rests_part(t, w, off, room, partial, i, j, d);
                lemma_chunk_within(w, j, d, end);
                lemma_parted_below(t, w, off, room, partial, keys, j, end);
                lemma_byte_chunks(w, index, end);
                lemma_witness_hides::<T, V, H>(
                    children[s],
                    c[s],
                    w,
                    next,
                    room - index,
                    partial,
                    reached(t, w, off, s, keys),
                    rel,
                    t.rest(i),
                    r,
                    d - index * 8,
                    end - index * 8,
                );
            } else {
                assert(hides::<T, V, H>(children[s], c[s]));
                lemma_held(children[s], w, next, room - index, partial, r);
                assert(c[s].covers(next, r) == children[s].covers(next, r));
            }
        },
        Tree::Leaf { key, .. } => {
            assert(bit_at(i, d) == bit_at(key, d));
            assert(bit_at(j, d) == bit_at(key, d));
        },
        _ => {},
    }
}

/// Keys that go to the same child of a branch and part behind its chunk part there at the child too.
proof fn lemma_rests_part<T>(
    t: Tree<T>,
    w: int,
    off: int,
    room: int,
    partial: bool,
    i: Seq<u8>,
    j: Seq<u8>,
    d: int,
)
    requires
        aligned(w, off),
        t is Branch,
        t.wf(w, off, room, partial),
        i.len() >= t.key().len(),
        j.len() >= t.key().len(),
        t.key_bits() + w <= d < bit_len(i),
        d < bit_len(j),
        off <= t.key_bits(),
        same_bits(i, j, off, d),
        bit_at(i, d) != bit_at(j, d),
    ensures
        same_bits(t.rest(i), t.rest(j), t.start() + w, d - (t.key().len() - 1) * 8),
        bit_at(t.rest(i), d - (t.key().len() - 1) * 8) != bit_at(t.rest(j), d - (t.key().len() - 1) * 8),
        bit_len(t.rest(i)) == bit_len(i) - (t.key().len() - 1) * 8,
        bit_len(t.rest(j)) == bit_len(j) - (t.key().len() - 1) * 8,
{
    t.lemma_branch_bounds(w, off, room, partial);
    let index = t.key().len() - 1;
    let next = t.start() + w;
    let q = t.rest(i);
    let r = t.rest(j);
    lemma_skip_bits(i, index);
    lemma_skip_bits(j, index);
    assert(t.key_bits() == index * 8 + t.start());
    assert forall|b: int| next <= b < d - index * 8 implies #[trigger] bit_at(q, b) == bit_at(r, b) by {
        assert(bit_at(i, index * 8 + b) == bit_at(j, index * 8 + b));
    }
    assert forall|b: int| next <= b < d - index * 8 implies bit_at(q, b) == #[trigger] bit_at(r, b) by {
        assert(bit_at(q, b) == bit_at(r, b));
    }
}

/// Keys that go to the same child of a branch agree as far as they do there.
proof fn lemma_rests_agree<T>(
    t: Tree<T>,
    w: int,
    off: int,
    room: int,
    partial: bool,
    k: Seq<u8>,
    j: Seq<u8>,
    end: int,
)
    requires
        aligned(w, off),
        t is Branch,
        t.wf(w, off, room, partial),
        goes_to(t, w, off, t.slot(w, j), k),
        t.covers(off, j),
        j.len() >= t.key().len(),
        end <= bit_len(j),
        end >= t.key_bits() + w,
        bit_len(t.rest(k)) >= end - (t.key().len() - 1) * 8,
        same_bits(t.rest(k), t.rest(j), t.start() + w, end - (t.key().len() - 1) * 8),
    ensures
        bit_len(k) >= end,
        same_bits(k, j, off, end),
{
    t.lemma_branch_bounds(w, off, room, partial);
    let index = t.key().len() - 1;
    let y = t.rest(k);
    let r = t.rest(j);
    lemma_skip_bits(k, index);
    lemma_skip_bits(j, index);
    lemma_agrees(t, w, off, room, partial, k, j, t.key_bits() + w);
    assert(t.key_bits() == index * 8 + t.start());
    assert forall|b: int| off <= b < end implies #[trigger] bit_at(k, b) == bit_at(j, b) by {
        if b >= t.key_bits() + w {
            assert(bit_at(y, b - index * 8) == bit_at(r, b - index * 8));
        }
    }
    assert forall|b: int| off <= b < end implies bit_at(k, b) == #[trigger] bit_at(j, b) by {
        assert(bit_at(k, b) == bit_at(j, b));
    }
}

/// Keys that go to the same child of a branch agree up to the end of its chunk.
proof fn lemma_agrees<T>(
    t: Tree<T>,
    w: int,
    off: int,
    room: int,
    partial: bool,
    k: Seq<u8>,
    j: Seq<u8>,
    end: int,
)
    requires
        aligned(w, off),
        t is Branch,
        t.wf(w, off, room, partial),
        goes_to(t, w, off, t.slot(w, j), k),
        t.covers(off, j),
        j.len() >= t.key().len(),
        end == t.key_bits() + w,
    ensures
        bit_len(k) >= end,
        same_bits(k, j, off, end),
{
    t.lemma_branch_bounds(w, off, room, partial);
    let index = t.key().len() - 1;
    lemma_chunk_in_seq(k, j, index, t.start(), w);
    assert(t.key_bits() == index * 8 + t.start());
    assert forall|b: int| off <= b < end implies #[trigger] bit_at(k, b) == bit_at(j, b) by {
        if b < t.key_bits() {
            assert(bit_at(k, b) == bit_at(t.key(), b));
            assert(bit_at(j, b) == bit_at(t.key(), b));
        }
    }
    assert forall|b: int| off <= b < end implies bit_at(k, b) == #[trigger] bit_at(j, b) by {
        assert(bit_at(k, b) == bit_at(j, b));
    }
}

/// A key of a child that agrees with what is left of the key `j` there is, at the branch, a key that agrees with `j` as
/// far.
proof fn lemma_lift_agrees<T>(
    t: Tree<T>,
    w: int,
    off: int,
    room: int,
    j: Seq<u8>,
    r: Seq<u8>,
    to: int,
) -> (x: Seq<u8>)
    requires
        aligned(w, off),
        t is Branch,
        t.wf(w, off, room, false),
        t.covers(off, j),
        j.len() >= t.key().len(),
        t->children[t.slot(w, j)].value_at(w, t.start() + w, r) is Some,
        t.start() + w <= to <= bit_len(r),
        to <= bit_len(t.rest(j)),
        same_bits(r, t.rest(j), t.start() + w, to),
    ensures
        t.value_at(w, off, x) is Some,
        bit_len(x) == (t.key().len() - 1) * 8 + bit_len(r),
        same_bits(x, j, off, (t.key().len() - 1) * 8 + to),
        forall|b: int|
            t.start() + w <= b < bit_len(r) ==> #[trigger] bit_at(r, b) == bit_at(x, (t.key().len() - 1) * 8 + b),
{
    t.lemma_branch_bounds(w, off, room, false);
    let s = t.slot(w, j);
    let index = t.key().len() - 1;
    let next = t.start() + w;
    let c = t->children[s];
    assert(holds(c, w, next, r));
    lemma_held(c, w, next, room - index, false, r);
    let x = lifted(t, w, s, r);
    lemma_lifted(t, w, off, room, false, s, r);
    lemma_skip_bits(x, index);
    lemma_skip_bits(j, index);
    assert forall|b: int| next <= b < bit_len(r) implies #[trigger] bit_at(r, b) == bit_at(x, index * 8 + b) by {
        assert(bit_at(t.rest(x), b) == bit_at(r, b));
    }
    lemma_agrees(t, w, off, room, false, x, j, t.key_bits() + w);
    assert(t.key_bits() == index * 8 + t.start());
    let rest = t.rest(j);
    assert forall|b: int| off <= b < index * 8 + to implies #[trigger] bit_at(x, b) == bit_at(j, b) by {
        if b >= t.key_bits() + w {
            let q = b - index * 8;
            assert(bit_at(r, q) == bit_at(x, index * 8 + q));
            assert(bit_at(r, q) == bit_at(rest, q));
            assert(bit_at(rest, q) == bit_at(j, index * 8 + q));
        }
    }
    assert forall|b: int| off <= b < index * 8 + to implies bit_at(x, b) == #[trigger] bit_at(j, b) by {
        assert(bit_at(x, b) == bit_at(j, b));
    }
    x
}

/// The keys `i` and `l` start with the first `bits` bits of the key `j`, and have no more bits in common that a
/// fragment could hold: they are one key that ends there, or part in the chunk that follows.
pub open spec fn common_start(i: Seq<u8>, l: Seq<u8>, j: Seq<u8>, off: int, bits: int, w: int) -> bool {
    &&& bits <= bit_len(j)
    &&& same_bits(i, j, off, bits)
    &&& same_bits(l, j, off, bits)
    &&& if i == l {
        bit_len(i) == bits
    } else {
        &&& bit_len(i) >= bits + w && bit_len(l) >= bits + w
        &&& !same_bits(i, l, bits, bits + w)
    }
}

/// The fragment of a trie that is not empty is the common start of two keys that it holds.
proof fn lemma_starts_with<T>(t: Tree<T>, w: int, off: int, room: int, j: Seq<u8>) -> (pair: (Seq<u8>, Seq<u8>))
    requires
        aligned(w, off),
        t.wf(w, off, room, false),
        !(t is Empty),
        t.covers(off, j),
    ensures
        t.value_at(w, off, pair.0) is Some,
        t.value_at(w, off, pair.1) is Some,
        common_start(pair.0, pair.1, j, off, t.key_bits(), w),
{
    lemma_trailing_zeros(t.tail());
    if t is Leaf {
        let k = t.key();
        assert(t.covers(off, k));
        assert(same_bits(k, j, off, t.key_bits())) by {
            assert forall|b: int| off <= b < t.key_bits() implies #[trigger] bit_at(k, b) == bit_at(j, b) by {
                assert(bit_at(j, b) == bit_at(t.key(), b));
            }
        }
        (k, k)
    } else {
        t.lemma_branch_bounds(w, off, room, false);
        let children = t->children;
        let index = t.key().len() - 1;
        let next = t.start() + w;
        let inner = room - index;
        let (a, b) = choose|a: int, b: int|
            #![trigger children[a], children[b]]
            0 <= a < b < children.len() && !(children[a] is Empty) && !(children[b] is Empty);
        let x = member(children[a], w);
        let y = member(children[b], w);
        lemma_member(children[a], w, next, inner, false);
        lemma_member(children[b], w, next, inner, false);
        lemma_no_stub(children[a], w, next, inner, x);
        lemma_no_stub(children[b], w, next, inner, y);
        let i = lifted(t, w, a, x);
        let l = lifted(t, w, b, y);
        lemma_lifted(t, w, off, room, false, a, x);
        lemma_lifted(t, w, off, room, false, b, y);
        lemma_held(t, w, off, room, false, i);
        lemma_held(t, w, off, room, false, l);
        lemma_chunk_in_seq(i, l, index, t.start(), w);
        assert(t.key_bits() == index * 8 + t.start());
        assert(same_bits(i, j, off, t.key_bits())) by {
            assert forall|q: int| off <= q < t.key_bits() implies #[trigger] bit_at(i, q) == bit_at(j, q) by {
                assert(bit_at(i, q) == bit_at(t.key(), q));
                assert(bit_at(j, q) == bit_at(t.key(), q));
            }
            assert forall|q: int| off <= q < t.key_bits() implies bit_at(i, q) == #[trigger] bit_at(j, q) by {
                assert(bit_at(i, q) == bit_at(j, q));
            }
        }
        assert(same_bits(l, j, off, t.key_bits())) by {
            assert forall|q: int| off <= q < t.key_bits() implies #[trigger] bit_at(l, q) == bit_at(j, q) by {
                assert(bit_at(l, q) == bit_at(t.key(), q));
                assert(bit_at(j, q) == bit_at(t.key(), q));
            }
            assert forall|q: int| off <= q < t.key_bits() implies bit_at(l, q) == #[trigger] bit_at(j, q) by {
                assert(bit_at(l, q) == bit_at(j, q));
            }
        }
        (i, l)
    }
}

/// The common start of two keys of a child is that of two keys of the branch.
proof fn lemma_lift_start<T>(
    t: Tree<T>,
    w: int,
    off: int,
    room: int,
    j: Seq<u8>,
    i: Seq<u8>,
    l: Seq<u8>,
    bits: int,
) -> (pair: (Seq<u8>, Seq<u8>))
    requires
        aligned(w, off),
        t is Branch,
        t.wf(w, off, room, false),
        t.covers(off, j),
        j.len() >= t.key().len(),
        t->children[t.slot(w, j)].value_at(w, t.start() + w, i) is Some,
        t->children[t.slot(w, j)].value_at(w, t.start() + w, l) is Some,
        t.start() + w <= bits,
        common_start(i, l, t.rest(j), t.start() + w, bits, w),
    ensures
        t.value_at(w, off, pair.0) is Some,
        t.value_at(w, off, pair.1) is Some,
        common_start(pair.0, pair.1, j, off, bits + (t.key().len() - 1) * 8, w),
{
    t.lemma_branch_bounds(w, off, room, false);
    let index = t.key().len() - 1;
    let x = lemma_lift_agrees(t, w, off, room, j, i, bits);
    if i == l {
        (x, x)
    } else {
        let y = lemma_lift_agrees(t, w, off, room, j, l, bits);
        let b = choose|b: int| bits <= b < bits + w && #[trigger] bit_at(i, b) != bit_at(l, b);
        assert(exists|b: int| bits <= b < bits + w && #[trigger] bit_at(i, b) != bit_at(l, b)) by {
            if forall|b: int| bits <= b < bits + w ==> #[trigger] bit_at(i, b) == bit_at(l, b) {
                assert forall|b: int| bits <= b < bits + w implies bit_at(i, b) == #[trigger] bit_at(l, b) by {
                    assert(bit_at(i, b) == bit_at(l, b));
                }
                assert(same_bits(i, l, bits, bits + w));
            }
        }
        assert(bit_at(i, b) == bit_at(x, index * 8 + b));
        assert(bit_at(l, b) == bit_at(y, index * 8 + b));
        assert(bit_at(x, index * 8 + b) != bit_at(y, index * 8 + b));
        (x, y)
    }
}

/// What a witness of a complete trie hides behind a digest starts as far as the keys in it have a common start, and no
/// less far.
pub proof fn lemma_hidden_start<T, V, H: Digest>(
    t: Tree<T>,
    p: Tree<V>,
    w: int,
    off: int,
    room: int,
    keys: Set<Seq<u8>>,
    rel: spec_fn(Seq<u8>, T, V) -> bool,
    j: Seq<u8>,
) -> (pair: (Seq<u8>, Seq<u8>))
    requires
        aligned(w, off),
        witness_of::<T, V, H>(t, p, w, off, keys, rel),
        t.wf(w, off, room, false),
        p.stub_at(w, off, j) is Some,
    ensures
        t.value_at(w, off, pair.0) is Some,
        t.value_at(w, off, pair.1) is Some,
        off <= p.stub_at(w, off, j)->0.bits,
        common_start(pair.0, pair.1, j, off, p.stub_at(w, off, j)->0.bits, w),
    decreases t,
{
    match t {
        Tree::Branch { key, mask, children } => {
            t.lemma_branch_bounds(w, off, room, false);
            assert(p.covers(off, j) == t.covers(off, j));
            let s = t.slot(w, j);
            let index = key.len() - 1;
            let next = t.start() + w;
            let r = t.rest(j);
            let c = p->children[s];
            assert(p.slot(w, j) == s && p.rest(j) == r);
            assert(p.stub_at(w, off, j) == lift_stub(c.stub_at(w, next, r), index));
            let bits = c.stub_at(w, next, r)->0.bits;
            if is_reached(t, w, off, s, keys) {
                let pair = lemma_hidden_start::<T, V, H>(
                    children[s],
                    c,
                    w,
                    next,
                    room - index,
                    reached(t, w, off, s, keys),
                    rel,
                    r,
                );
                lemma_lift_start(t, w, off, room, j, pair.0, pair.1, bits)
            } else {
                assert(hides::<T, V, H>(children[s], c));
                assert(c.covers(next, r) == children[s].covers(next, r));
                assert(children[s].wf(w, next, room - index, false));
                assert(!(children[s] is Empty) && !(children[s] is Opaque));
                assert(children[s].fragment_wf(w, next, room - index));
                assert(bits == children[s].key_bits());
                let pair = lemma_starts_with(children[s], w, next, room - index, r);
                lemma_lift_start(t, w, off, room, j, pair.0, pair.1, bits)
            }
        },
        _ => {
            (j, j)
        },
    }
}

// ---------------------------------------------------------------------------
// Following keys
// ---------------------------------------------------------------------------

/// The keys of a list.
pub open spec fn key_set(keys: Seq<&[u8]>) -> Set<Seq<u8>> {
    Set::new(|k: Seq<u8>| exists|i: int| 0 <= i < keys.len() && (#[trigger] keys[i])@ == k)
}

/// The keys of a list can be followed from bit `bits` on.
pub open spec fn keys_ready(keys: Seq<&[u8]>, bits: int) -> bool {
    forall|i: int| 0 <= i < keys.len() ==> bits <= (#[trigger] keys[i])@.len() * 8
}

/// A key more is reached where it goes.
proof fn lemma_reached_push<T>(t: Tree<T>, w: int, off: int, slot: int, keys: Seq<&[u8]>, n: int)
    requires
        0 <= n < keys.len(),
    ensures
        goes_to(t, w, off, slot, keys[n]@) ==> reached(t, w, off, slot, key_set(keys.take(n + 1))) == reached(
            t,
            w,
            off,
            slot,
            key_set(keys.take(n)),
        ).insert(t.rest(keys[n]@)),
        !goes_to(t, w, off, slot, keys[n]@) ==> reached(t, w, off, slot, key_set(keys.take(n + 1))) == reached(
            t,
            w,
            off,
            slot,
            key_set(keys.take(n)),
        ),
{
    let was = key_set(keys.take(n));
    let now = key_set(keys.take(n + 1));
    assert forall|k: Seq<u8>| now.contains(k) <==> was.contains(k) || k == keys[n]@ by {
        if was.contains(k) {
            let i = choose|i: int| 0 <= i < keys.take(n).len() && (#[trigger] keys.take(n)[i])@ == k;
            assert(keys.take(n + 1)[i]@ == k);
        }
        if k == keys[n]@ {
            assert(keys.take(n + 1)[n]@ == k);
        }
        if now.contains(k) {
            let i = choose|i: int| 0 <= i < keys.take(n + 1).len() && (#[trigger] keys.take(n + 1)[i])@ == k;
            if i < n {
                assert(keys.take(n)[i]@ == k);
            }
        }
    }
    let a = reached(t, w, off, slot, now);
    let b = reached(t, w, off, slot, was);
    assert forall|r: Seq<u8>| a.contains(r) <==> b.contains(r) || goes_to(t, w, off, slot, keys[n]@) && r == t.rest(
        keys[n]@,
    ) by {
        if b.contains(r) {
            let k = choose|k: Seq<u8>| #[trigger] was.contains(k) && goes_to(t, w, off, slot, k) && r == t.rest(k);
            assert(now.contains(k));
        }
        if goes_to(t, w, off, slot, keys[n]@) && r == t.rest(keys[n]@) {
            assert(now.contains(keys[n]@));
        }
        if a.contains(r) {
            let k = choose|k: Seq<u8>| #[trigger] now.contains(k) && goes_to(t, w, off, slot, k) && r == t.rest(k);
            if k != keys[n]@ {
                assert(was.contains(k));
            }
        }
    }
    if goes_to(t, w, off, slot, keys[n]@) {
        assert(a =~= b.insert(t.rest(keys[n]@)));
    } else {
        assert(a =~= b);
    }
}

/// A list with a key more.
proof fn lemma_key_set_push(keys: Seq<&[u8]>, key: &[u8])
    ensures
        key_set(keys.push(key)) == key_set(keys).insert(key@),
{
    let now = key_set(keys.push(key));
    assert forall|k: Seq<u8>| now.contains(k) <==> key_set(keys).contains(k) || k == key@ by {
        if key_set(keys).contains(k) {
            let i = choose|i: int| 0 <= i < keys.len() && (#[trigger] keys[i])@ == k;
            assert(keys.push(key)[i]@ == k);
        }
        if k == key@ {
            assert(keys.push(key)[keys.len() as int]@ == k);
        }
        if now.contains(k) {
            let i = choose|i: int| 0 <= i < keys.push(key).len() && (#[trigger] keys.push(key)[i])@ == k;
            if i < keys.len() {
                assert(keys[i]@ == k);
            }
        }
    }
    assert(now =~= key_set(keys).insert(key@));
}

impl<T: Digestible, const N: usize, const K: usize, H: Digest, M: TrieMode> NodeLink<T, N, K, H, M> {
    /// Compute a mapping from the child slots of a branch to the suffixes of the keys that reach them.
    fn follow<'k>(&self, keys: &Vec<&'k [u8]>, bits: usize) -> (per_slot: Vec<Vec<&'k [u8]>>)
        requires
            trie_radix(K as int),
            aligned(radix_bits(K as int), bits as int),
            self.inv(bits as int, N as int),
            self.tree() is Branch,
            keys_ready(keys@, bits as int),
        ensures
            per_slot@.len() == K,
            forall|i: int|
                0 <= i < K ==> key_set((#[trigger] per_slot@[i])@) == reached(
                    self.tree(),
                    radix_bits(K as int),
                    bits as int,
                    i,
                    key_set(keys@),
                ) && keys_ready(per_slot@[i]@, self.tree().start() + radix_bits(K as int)),
    {
        let ghost t = self.tree();
        let ghost w = radix_bits(K as int);
        let ghost off = bits as int;
        proof {
            t.lemma_branch_bounds(w, off, N as int, M::allows_opaque());
        }
        let mut per_slot: Vec<Vec<&'k [u8]>> = Vec::new();
        let mut i: usize = 0;
        while i < K
            invariant
                i <= K,
                per_slot@.len() == i,
                forall|j: int| 0 <= j < i ==> (#[trigger] per_slot@[j])@.len() == 0,
            decreases K - i,
        {
            per_slot.push(Vec::new());
            i += 1;
        }
        proof {
            assert forall|j: int| 0 <= j < K implies key_set((#[trigger] per_slot@[j])@) == reached(
                t,
                w,
                off,
                j,
                key_set(keys@.take(0)),
            ) by {
                assert(key_set(per_slot@[j]@) =~= reached(t, w, off, j, key_set(keys@.take(0))));
            }
        }
        let mut n: usize = 0;
        while n < keys.len()
            invariant
                n <= keys@.len(),
                per_slot@.len() == K,
                t == self.tree(),
                w == radix_bits(K as int),
                off == bits as int,
                trie_radix(K as int),
                aligned(w, off),
                self.inv(off, N as int),
                t is Branch,
                keys_ready(keys@, off),
                forall|j: int|
                    0 <= j < K ==> key_set((#[trigger] per_slot@[j])@) == reached(
                        t,
                        w,
                        off,
                        j,
                        key_set(keys@.take(n as int)),
                    ) && keys_ready(per_slot@[j]@, t.start() + w),
            decreases keys@.len() - n,
        {
            let key: &'k [u8] = keys[n];
            let ghost was = per_slot@;
            proof {
                t.lemma_branch_bounds(w, off, N as int, M::allows_opaque());
                lemma_radix(K as int);
                assert(key@.skip(0) =~= key@);
            }
            // check whether the key can reach a particular child slot by running a probe with a zero-bound
            // (disabling recursion into child nodes)
            match self.probe(Some(0), key, BitPosition { index: 0, bits }) {
                // this key reached a child slot
                ProbeResult::Bounded(_, next, slot) => {
                    let rest: &'k [u8] = vstd::slice::slice_subrange(key, next.index, key.len());
                    assert(rest@ =~= t.rest(key@));
                    per_slot[slot].push(rest);
                    proof {
                        lemma_key_set_push(was[slot as int]@, rest);
                        assert forall|j: int| 0 <= j < K implies key_set((#[trigger] per_slot@[j])@) == reached(
                            t,
                            w,
                            off,
                            j,
                            key_set(keys@.take(n + 1)),
                        ) && keys_ready(per_slot@[j]@, t.start() + w) by {
                            lemma_reached_push(t, w, off, j, keys@, n as int);
                            if j == slot {
                                assert(per_slot@[j]@ == was[j]@.push(rest));
                            } else {
                                assert(per_slot@[j] == was[j]);
                            }
                        }
                    }
                },
                // in any other case, we have determined conclusively
                // whether or not the key exists in the trie
                _ => {
                    proof {
                        assert forall|j: int| 0 <= j < K implies key_set((#[trigger] per_slot@[j])@) == reached(
                            t,
                            w,
                            off,
                            j,
                            key_set(keys@.take(n + 1)),
                        ) by {
                            lemma_reached_push(t, w, off, j, keys@, n as int);
                        }
                    }
                },
            }
            n += 1;
        }
        assert(keys@.take(n as int) =~= keys@);
        per_slot
    }
}

// ---------------------------------------------------------------------------
// Pruning a partial trie
// ---------------------------------------------------------------------------

/// A slot is reached where there are keys for it.
proof fn lemma_is_reached<T>(t: Tree<T>, w: int, off: int, slot: int, keys: Set<Seq<u8>>, below: Seq<&[u8]>)
    requires
        key_set(below) == reached(t, w, off, slot, keys),
    ensures
        is_reached(t, w, off, slot, keys) <==> below.len() > 0,
{
    if below.len() > 0 {
        assert(key_set(below).contains(below[0]@));
        assert(reached(t, w, off, slot, keys).contains(below[0]@));
    }
    if is_reached(t, w, off, slot, keys) {
        let k = choose|k: Seq<u8>| #[trigger] keys.contains(k) && goes_to(t, w, off, slot, k);
        assert(reached(t, w, off, slot, keys).contains(t.rest(k)));
        assert(key_set(below).contains(t.rest(k)));
    }
}

/// The children of a branch are well formed.
proof fn lemma_children_ready<T: Digestible, const N: usize, const K: usize, H: Digest, M: TrieMode>(
    node: Node<T, N, K, H, M>,
    off: int,
)
    requires
        node.kind is Branch,
        node.children_sealed(),
        node.tree(Seq::empty()).wf(radix_bits(K as int), off, N as int, M::allows_opaque()),
    ensures
        forall|i: int|
            0 <= i < node.kind->children@.len() ==> (#[trigger] node.kind->children@[i]).inv(
                node.tree(Seq::empty()).start() + radix_bits(K as int),
                N as int,
            ),
{
    let t = node.tree(Seq::empty());
    let w = radix_bits(K as int);
    assert forall|i: int| 0 <= i < node.kind->children@.len() implies (#[trigger] node.kind->children@[i]).inv(
        t.start() + w,
        N as int,
    ) by {
        assert(t->children[i] == node.kind->children@[i].tree());
        t->children[i].lemma_room(
            w,
            t.start() + w,
            N - (t.key().len() - 1),
            N as int,
            M::allows_opaque(),
        );
    }
}

/// The two values are the same.
pub open spec fn kept<T>() -> spec_fn(Seq<u8>, T, T) -> bool {
    |key: Seq<u8>, value: T, copy: T| value == copy
}

impl<T: Digestible, const N: usize, const K: usize, H: Digest> NodeLink<T, N, K, H, Partial> {
    /// Hide the trie that this link leads to behind its digest.
    fn obscure(&mut self)
        requires
            old(self).sealed(),
        ensures
            hides::<T, T, H>(old(self).tree(), final(self).tree()),
            final(self).stored() == old(self).stored(),
            final(self).sealed(),
    {
        match &mut self.0 {
            None => {},
            Some((hash, node)) => {
                let mask: u8 = match &node.kind {
                    Kind::Branch { mask, .. } => *mask,
                    Kind::Opaque { mask, .. } => *mask,
                    Kind::Leaf { .. } => 0,
                };
                node.kind = Kind::Opaque { digest: copy_slice_into_box(hash.as_slice()), mask, marker: Hidden };
            },
        }
    }

    /// Prune what the given keys do not lead to, from bit `bits` of them on.
    fn prune_from(&mut self, keys: &Vec<&[u8]>, bits: usize)
        requires
            trie_radix(K as int),
            aligned(radix_bits(K as int), bits as int),
            old(self).inv(bits as int, N as int),
            keys_ready(keys@, bits as int),
        ensures
            witness_of::<T, T, H>(
                old(self).tree(),
                final(self).tree(),
                radix_bits(K as int),
                bits as int,
                key_set(keys@),
                kept::<T>(),
            ),
            final(self).stored() == old(self).stored(),
            final(self).sealed(),
        decreases *old(self), 1int,
    {
        let ghost t = self.tree();
        let ghost w = radix_bits(K as int);
        let ghost off = bits as int;
        if self.is_terminal() {
            return;
        }
        proof {
            t.lemma_branch_bounds(w, off, N as int, true);
            lemma_radix(K as int);
        }
        let per_slot: Vec<Vec<&[u8]>> = self.follow(keys, bits);
        match &mut self.0 {
            Some((_hash, node)) => {
                let ghost before = **node;
                match &mut node.kind {
                    Kind::Branch { mask, children } => {
                        let next: usize = mask.trailing_zeros() as usize + BitSeqOps::<K>::k_bits();
                        proof {
                            lemma_children_ready(before, bits as int);
                        }
                        prune_children(children, &per_slot, next);
                    },
                    _ => {},
                }
                proof {
                    let below = before.kind->children@;
                    let left = node.kind->children@;
                    assert(t == before.tree(Seq::empty()));
                    let p = node.tree(Seq::empty());
                    assert forall|i: int| 0 <= i < below.len() implies {
                        &&& (#[trigger] left[i]).sealed()
                        &&& left[i].stored() == below[i].stored()
                        &&& if is_reached(t, w, off, i, key_set(keys@)) {
                            witness_of::<T, T, H>(
                                t->children[i],
                                p->children[i],
                                w,
                                t.start() + w,
                                reached(t, w, off, i, key_set(keys@)),
                                kept::<T>(),
                            )
                        } else {
                            hides::<T, T, H>(t->children[i], p->children[i])
                        }
                    } by {
                        lemma_is_reached(t, w, off, i, key_set(keys@), per_slot@[i]@);
                        assert(t->children[i] == below[i].tree());
                        assert(p->children[i] == left[i].tree());
                    }
                    assert(witness_of::<T, T, H>(t, p, w, off, key_set(keys@), kept::<T>()));
                    lemma_witness_digest::<T, T, H>(t, p, w, off, key_set(keys@), kept::<T>());
                }
            },
            None => {},
        }
    }

    /// Visit every node reachable by a key in `keys` and then prune all nodes that are not reachable in this manner
    pub fn prune_for_keys(&mut self, keys: Vec<&[u8]>)
        requires
            trie_radix(K as int),
            old(self).inv(0, N as int),
        ensures
            witness_of::<T, T, H>(
                old(self).tree(),
                final(self).tree(),
                radix_bits(K as int),
                0,
                key_set(keys@),
                kept::<T>(),
            ),
            final(self).inv(0, N as int),
            final(self).stored() == old(self).stored(),
    {
        self.prune_from(&keys, 0);
        proof {
            lemma_witness_wf::<T, T, H>(
                old(self).tree(),
                self.tree(),
                radix_bits(K as int),
                0,
                N as int,
                true,
                key_set(keys@),
                kept::<T>(),
            );
        }
    }
}

/// Prune the children of a branch, given the keys that lead to each of them.
fn prune_children<T: Digestible, const N: usize, const K: usize, H: Digest>(
    children: &mut Vec<NodeLink<T, N, K, H, Partial>>,
    per_slot: &Vec<Vec<&[u8]>>,
    bits: usize,
)
    requires
        trie_radix(K as int),
        aligned(radix_bits(K as int), bits as int),
        old(children)@.len() == per_slot@.len(),
        forall|i: int| 0 <= i < old(children)@.len() ==> (#[trigger] old(children)@[i]).inv(bits as int, N as int),
        forall|i: int| 0 <= i < per_slot@.len() ==> keys_ready((#[trigger] per_slot@[i])@, bits as int),
    ensures
        final(children)@.len() == old(children)@.len(),
        forall|i: int|
            0 <= i < old(children)@.len() ==> (#[trigger] final(children)@[i]).stored() == old(children)@[i].stored()
                && final(children)@[i].sealed() && if per_slot@[i]@.len() > 0 {
                witness_of::<T, T, H>(
                    old(children)@[i].tree(),
                    final(children)@[i].tree(),
                    radix_bits(K as int),
                    bits as int,
                    key_set(per_slot@[i]@),
                    kept::<T>(),
                )
            } else {
                hides::<T, T, H>(old(children)@[i].tree(), final(children)@[i].tree())
            },
    decreases *old(children), 0int,
{
    let ghost was = children@;
    let mut i: usize = 0;
    while i < children.len()
        invariant
            i <= children@.len(),
            was == old(children)@,
            children@.len() == was.len(),
            was.len() == per_slot@.len(),
            trie_radix(K as int),
            aligned(radix_bits(K as int), bits as int),
            forall|j: int| 0 <= j < was.len() ==> (#[trigger] was[j]).inv(bits as int, N as int),
            forall|j: int| 0 <= j < per_slot@.len() ==> keys_ready((#[trigger] per_slot@[j])@, bits as int),
            forall|j: int| i <= j < was.len() ==> #[trigger] children@[j] == was[j],
            forall|j: int|
                0 <= j < i ==> (#[trigger] children@[j]).stored() == was[j].stored() && children@[j].sealed()
                    && if per_slot@[j]@.len() > 0 {
                    witness_of::<T, T, H>(
                        was[j].tree(),
                        children@[j].tree(),
                        radix_bits(K as int),
                        bits as int,
                        key_set(per_slot@[j]@),
                        kept::<T>(),
                    )
                } else {
                    hides::<T, T, H>(was[j].tree(), children@[j].tree())
                },
        decreases was.len() - i,
    {
        assert(was[i as int].inv(bits as int, N as int));
        assert(children@[i as int] == was[i as int]);
        if per_slot[i].len() == 0 {
            children[i].obscure();
        } else {
            children[i].prune_from(&per_slot[i], bits);
        }
        i += 1;
    }
}

// ---------------------------------------------------------------------------
// Building a witness beside a trie
// ---------------------------------------------------------------------------

/// How the leaves of a trie are represented in a witness.
pub trait LeafWitness<T: Digestible, H: Digest> {
    /// what the witness stores at its leaves
    type Value: Digestible;

    /// `copy` may represent the value `value` of a leaf of key fragment `key`.
    spec fn stands_for(key: Seq<u8>, value: T, copy: Self::Value) -> bool;

    /// Represent the value of a leaf.
    fn represent(key: &[u8], value: &T) -> (copy: Self::Value)
        ensures
            Self::stands_for(key@, *value, copy),
    ;
}

/// Represents values by clones of them.
pub struct ByClone;

impl<T: Digestible + Clone, H: Digest> LeafWitness<T, H> for ByClone {
    type Value = T;

    open spec fn stands_for(key: Seq<u8>, value: T, copy: T) -> bool {
        cloned(value, copy)
    }

    fn represent(key: &[u8], value: &T) -> (copy: T) {
        value.clone()
    }
}

/// Represents values by the digests of their leaves.
pub struct ByHash;

impl<T: Digestible, H: Digest> LeafWitness<T, H> for ByHash {
    type Value = HashWitnessValue<H>;

    open spec fn stands_for(key: Seq<u8>, value: T, copy: HashWitnessValue<H>) -> bool {
        copy.digest@ == leaf_digest::<H>(key, value.encoding())
    }

    fn represent(key: &[u8], value: &T) -> (copy: HashWitnessValue<H>) {
        HashWitnessValue::new(hash_leaf::<T, H>(key, value))
    }
}

/// The relation between the values of a trie and those of a witness that represents them by `L`.
pub open spec fn represented<T: Digestible, H: Digest, L: LeafWitness<T, H>>() -> spec_fn(
    Seq<u8>,
    T,
    L::Value,
) -> bool {
    |key: Seq<u8>, value: T, copy: L::Value| L::stands_for(key, value, copy)
}

impl<T: Digestible, const N: usize, const K: usize, H: Digest, M: TrieMode> NodeLink<T, N, K, H, M> {
    /// Return a link to an opaque node that hides the trie that this link leads to behind its digest.
    fn as_opaque<V: Digestible>(&self) -> (stub: NodeLink<V, N, K, H, Partial>)
        requires
            self.sealed(),
        ensures
            hides::<T, V, H>(self.tree(), stub.tree()),
            stub.stored() == self.stored(),
            stub.sealed(),
    {
        match &self.0 {
            None => NodeLink(None),
            Some((hash, node)) => {
                let mask: u8 = match &node.kind {
                    Kind::Branch { mask, .. } => *mask,
                    Kind::Opaque { mask, .. } => *mask,
                    Kind::Leaf { .. } => 0,
                };
                let stub: Node<V, N, K, H, Partial> = Node {
                    key: copy_slice_into_box(node.key.as_slice()),
                    kind: Kind::Opaque { digest: copy_slice_into_box(hash.as_slice()), mask, marker: Hidden },
                };
                NodeLink(Some((copy_slice_into_box(hash.as_slice()), Box::new(stub))))
            },
        }
    }

    /// Build the witness of this trie for the given keys, from bit `bits` of them on.
    fn witness_from<L: LeafWitness<T, H>>(&self, keys: &Vec<&[u8]>, bits: usize) -> (witness: NodeLink<
        L::Value,
        N,
        K,
        H,
        Partial,
    >)
        requires
            trie_radix(K as int),
            aligned(radix_bits(K as int), bits as int),
            self.inv(bits as int, N as int),
            keys_ready(keys@, bits as int),
        ensures
            witness_of::<T, L::Value, H>(
                self.tree(),
                witness.tree(),
                radix_bits(K as int),
                bits as int,
                key_set(keys@),
                represented::<T, H, L>(),
            ),
            witness.stored() == self.stored(),
            witness.sealed(),
        decreases self,
    {
        let ghost t = self.tree();
        let ghost w = radix_bits(K as int);
        let ghost off = bits as int;
        match &self.0 {
            None => NodeLink(None),
            Some((hash, node)) => {
                let digest: Vec<u8> = copy_slice_into_box(hash.as_slice());
                let key: Vec<u8> = copy_slice_into_box(node.key.as_slice());
                match &node.kind {
                    Kind::Leaf { value, .. } => {
                        let copy: L::Value = L::represent(node.key.as_slice(), value);
                        NodeLink(Some((digest, Box::new(Node::new_leaf(key, copy)))))
                    },
                    Kind::Opaque { .. } => self.as_opaque(),
                    Kind::Branch { mask, children } => {
                        proof {
                            t.lemma_branch_bounds(w, off, N as int, M::allows_opaque());
                            lemma_radix(K as int);
                            assert(t == node.tree(Seq::empty()));
                            lemma_children_ready(**node, off);
                        }
                        let per_slot: Vec<Vec<&[u8]>> = self.follow(keys, bits);
                        let next: usize = mask.trailing_zeros() as usize + BitSeqOps::<K>::k_bits();
                        let mut copies: Vec<NodeLink<L::Value, N, K, H, Partial>> = Vec::new();
                        let mut i: usize = 0;
                        while i < children.len()
                            invariant
                                i <= children@.len(),
                                copies@.len() == i,
                                children@.len() == per_slot@.len(),
                                decreases_to!(self => children@),
                                trie_radix(K as int),
                                w == radix_bits(K as int),
                                aligned(w, next as int),
                                forall|j: int|
                                    0 <= j < children@.len() ==> (#[trigger] children@[j]).inv(
                                        next as int,
                                        N as int,
                                    ),
                                forall|j: int|
                                    0 <= j < per_slot@.len() ==> keys_ready((#[trigger] per_slot@[j])@, next as int),
                                forall|j: int|
                                    0 <= j < i ==> (#[trigger] copies@[j]).stored() == children@[j].stored()
                                        && copies@[j].sealed() && if per_slot@[j]@.len() > 0 {
                                        witness_of::<T, L::Value, H>(
                                            children@[j].tree(),
                                            copies@[j].tree(),
                                            w,
                                            next as int,
                                            key_set(per_slot@[j]@),
                                            represented::<T, H, L>(),
                                        )
                                    } else {
                                        hides::<T, L::Value, H>(children@[j].tree(), copies@[j].tree())
                                    },
                            decreases children@.len() - i,
                        {
                            assert(children@[i as int].inv(next as int, N as int));
                            let copy: NodeLink<L::Value, N, K, H, Partial> = if per_slot[i].len() == 0 {
                                children[i].as_opaque()
                            } else {
                                children[i].witness_from::<L>(&per_slot[i], next)
                            };
                            copies.push(copy);
                            i += 1;
                        }
                        let kind: Kind<L::Value, N, K, H, Partial> = Kind::Branch { mask: *mask, children: copies };
                        let copy: Node<L::Value, N, K, H, Partial> = Node { key, kind };
                        let ghost left = copy.kind->children@;
                        let ghost p = copy.tree(Seq::empty());
                        proof {
                            assert forall|i: int| 0 <= i < children@.len() implies {
                                if is_reached(t, w, off, i, key_set(keys@)) {
                                    witness_of::<T, L::Value, H>(
                                        #[trigger] t->children[i],
                                        p->children[i],
                                        w,
                                        t.start() + w,
                                        reached(t, w, off, i, key_set(keys@)),
                                        represented::<T, H, L>(),
                                    )
                                } else {
                                    hides::<T, L::Value, H>(t->children[i], p->children[i])
                                }
                            } by {
                                lemma_is_reached(t, w, off, i, key_set(keys@), per_slot@[i]@);
                                assert(t->children[i] == children@[i].tree());
                                assert(left[i].stored() == children@[i].stored());
                                assert(p->children[i] == left[i].tree());
                            }
                            assert(witness_of::<T, L::Value, H>(
                                t,
                                p,
                                w,
                                off,
                                key_set(keys@),
                                represented::<T, H, L>(),
                            ));
                            lemma_witness_digest::<T, L::Value, H>(
                                t,
                                p,
                                w,
                                off,
                                key_set(keys@),
                                represented::<T, H, L>(),
                            );
                        }
                        NodeLink(Some((digest, Box::new(copy))))
                    },
                }
            },
        }
    }
}

impl<T: Digestible + Clone, const N: usize, const K: usize, H: Digest> NodeLink<T, N, K, H, Complete> {
    /// Build the minimal partial trie that proves the non/existence of each of the given keys in this trie
    pub fn to_witness_for_keys(&self, keys: Vec<&[u8]>) -> (witness: NodeLink<T, N, K, H, Partial>)
        requires
            trie_radix(K as int),
            self.inv(0, N as int),
        ensures
            witness_of::<T, T, H>(
                self.tree(),
                witness.tree(),
                radix_bits(K as int),
                0,
                key_set(keys@),
                represented::<T, H, ByClone>(),
            ),
            witness.inv(0, N as int),
            witness.stored() == self.stored(),
    {
        let witness: NodeLink<T, N, K, H, Partial> = self.witness_from::<ByClone>(&keys, 0);
        proof {
            lemma_witness_wf::<T, T, H>(
                self.tree(),
                witness.tree(),
                radix_bits(K as int),
                0,
                N as int,
                false,
                key_set(keys@),
                represented::<T, H, ByClone>(),
            );
        }
        witness
    }
}

impl<T: Digestible, const N: usize, const K: usize, H: Digest> NodeLink<T, N, K, H, Complete> {
    /// Build the minimal partial trie that proves the non/existence of each of the given keys in this trie,
    /// where values are represented by the digests of their leaves
    pub fn to_hash_witness_for_keys(&self, keys: Vec<&[u8]>) -> (witness: NodeLink<
        HashWitnessValue<H>,
        N,
        K,
        H,
        Partial,
    >)
        requires
            trie_radix(K as int),
            self.inv(0, N as int),
        ensures
            witness_of::<T, HashWitnessValue<H>, H>(
                self.tree(),
                witness.tree(),
                radix_bits(K as int),
                0,
                key_set(keys@),
                represented::<T, H, ByHash>(),
            ),
            witness.inv(0, N as int),
            witness.stored() == self.stored(),
    {
        let witness: NodeLink<HashWitnessValue<H>, N, K, H, Partial> = self.witness_from::<ByHash>(&keys, 0);
        proof {
            lemma_witness_wf::<T, HashWitnessValue<H>, H>(
                self.tree(),
                witness.tree(),
                radix_bits(K as int),
                0,
                N as int,
                false,
                key_set(keys@),
                represented::<T, H, ByHash>(),
            );
        }
        witness
    }

    /// Reinterpret a [`NodeLink`] of a complete trie as one of a partial trie
    pub fn into_partial(self) -> (partial: NodeLink<T, N, K, H, Partial>)
        ensures
            partial.tree() == self.tree(),
            partial.stored() == self.stored(),
            self.sealed() ==> partial.sealed(),
        decreases self,
    {
        match self.0 {
            None => NodeLink(None),
            Some((hash, node)) => {
                let Node { key, kind } = *node;
                let kind: Kind<T, N, K, H, Partial> = match kind {
                    Kind::Leaf { value, _phantom } => Kind::Leaf { value, _phantom },
                    Kind::Opaque { digest, mask, .. } => Kind::Opaque { digest, mask, marker: Hidden },
                    Kind::Branch { mask, children } => {
                        let mut children: Vec<NodeLink<T, N, K, H, Complete>> = children;
                        let ghost was = children@;
                        let mut partial: Vec<NodeLink<T, N, K, H, Partial>> = Vec::new();
                        let mut i: usize = 0;
                        while i < children.len()
                            invariant
                                i <= children@.len(),
                                children@.len() == was.len(),
                                partial@.len() == i,
                                decreases_to!(self => was),
                                forall|j: int| i <= j < was.len() ==> #[trigger] children@[j] == was[j],
                                forall|j: int|
                                    0 <= j < i ==> (#[trigger] partial@[j]).tree() == was[j].tree()
                                        && partial@[j].stored() == was[j].stored() && (was[j].sealed()
                                        ==> partial@[j].sealed()),
                            decreases was.len() - i,
                        {
                            assert(children@[i as int] == was[i as int]);
                            let child: NodeLink<T, N, K, H, Complete> = NodeLink(children[i].0.take());
                            assert(child == was[i as int]);
                            partial.push(child.into_partial());
                            i += 1;
                        }
                        proof {
                            assert(trees(partial@) =~= trees(was));
                        }
                        Kind::Branch { mask, children: partial }
                    },
                };
                NodeLink(Some((hash, Box::new(Node { key, kind }))))
            },
        }
    }
}

}
