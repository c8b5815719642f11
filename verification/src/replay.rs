//! Setting a key in a trie and in a witness of it.
use crate::bitseqops::{
    bit_at, bit_len, chunk_mask, chunk_start, chunk_value, lemma_chunk_value, lemma_trailing_zeros, low_bits,
    same_bits, split_prefix, split_suffix,
};
use crate::digestible::{leaf_digest, Digest, Digestible};
use crate::tree::{
    aligned, changed_at, digest_of, digests_of, fresh, is_split, lemma_chunk_in_seq, lemma_descend,
    lemma_leaf_keys, lemma_new_leaf, lemma_occupied, lemma_parting_chunk, lemma_split, parts_at, same_key, Tree,
};
use crate::witness::{goes_to, hides, is_reached, kept, lemma_witness_digest, reached, witness_of};
use vstd::prelude::*;

verus! {

/// The trie `t` with `v` in place of the value that is stored under the key `k`.
pub open spec fn replaced<T: Digestible, H: Digest>(t: Tree<T>, w: int, k: Seq<u8>, v: T) -> Tree<T>
    decreases t,
{
    match t {
        Tree::Leaf { digest, key, value } => Tree::Leaf { digest: leaf_digest::<H>(key, v.encoding()), key, value: v },
        Tree::Branch { key, mask, children } => {
            let s = t.slot(w, k);
            if 0 <= s < children.len() {
                Tree::Branch {
                    key,
                    mask,
                    children: children.update(s, replaced::<T, H>(children[s], w, t.rest(k), v)),
                }
            } else {
                t
            }
        },
        _ => t,
    }
}

/// Replacing a value changes what is stored under its key, and nothing else.
pub proof fn lemma_replaced<T: Digestible, H: Digest>(
    t: Tree<T>,
    w: int,
    off: int,
    room: int,
    partial: bool,
    k: Seq<u8>,
    v: T,
)
    requires
        aligned(w, off),
        t.wf(w, off, room, partial),
        t.value_at(w, off, k) is Some,
    ensures
        replaced::<T, H>(t, w, k, v).wf(w, off, room, partial),
        changed_at(t, replaced::<T, H>(t, w, k, v), w, off, k, Some(v)),
        fresh::<T, H>(t) ==> fresh::<T, H>(replaced::<T, H>(t, w, k, v)),
        replaced::<T, H>(t, w, k, v) is Empty <==> t is Empty,
    decreases t,
{
    let now = replaced::<T, H>(t, w, k, v);
    match t {
        Tree::Leaf { digest, key, value } => {
            lemma_trailing_zeros(0u8);
            assert(same_key(off, k, key));
            lemma_leaf_keys(t, w, off, k);
            lemma_leaf_keys(now, w, off, k);
            assert(now.fragment_wf(w, off, room));
        },
        Tree::Branch { key, mask, children } => {
            t.lemma_branch_bounds(w, off, room, partial);
            let s = t.slot(w, k);
            let end = t.start() + w;
            let inner = room - (key.len() - 1);
            let c = now->children;
            lemma_replaced::<T, H>(children[s], w, end, inner, partial, t.rest(k), v);
            assert(c[s] == replaced::<T, H>(children[s], w, t.rest(k), v));
            lemma_descend(t, now, w, off, room, partial, k, Some(v));
            lemma_occupied(children, c, s);
            assert(now.fragment_wf(w, off, room) && now.start() == t.start());
            assert forall|i: int| 0 <= i < c.len() implies (#[trigger] c[i]).wf(w, end, inner, partial) by {
                if i != s {
                    assert(c[i] == children[i]);
                }
            }
            if fresh::<T, H>(t) {
                assert forall|i: int| 0 <= i < c.len() implies fresh::<T, H>(#[trigger] c[i]) by {
                    assert(fresh::<T, H>(children[i]));
                }
            }
        },
        _ => {},
    }
}

/// A witness has the right digests where the trie that it was made from has, if its values have the encodings of those
/// that they represent.
pub proof fn lemma_witness_fresh<T: Digestible, V: Digestible, H: Digest>(
    t: Tree<T>,
    p: Tree<V>,
    w: int,
    off: int,
    keys: Set<Seq<u8>>,
    rel: spec_fn(Seq<u8>, T, V) -> bool,
)
    requires
        witness_of::<T, V, H>(t, p, w, off, keys, rel),
        fresh::<T, H>(t),
        forall|k: Seq<u8>, x: T, y: V| #[trigger] rel(k, x, y) ==> x.encoding() == y.encoding(),
    ensures
        fresh::<V, H>(p),
    decreases t,
{
    match t {
        Tree::Branch { key, mask, children } => {
            let c = p->children;
            assert forall|i: int| 0 <= i < c.len() implies fresh::<V, H>(#[trigger] c[i]) by {
                assert(fresh::<T, H>(children[i]));
                if is_reached(t, w, off, i, keys) {
                    lemma_witness_fresh::<T, V, H>(
                        children[i],
                        c[i],
                        w,
                        t.start() + w,
                        reached(t, w, off, i, keys),
                        rel,
                    );
                } else {
                    assert(hides::<T, V, H>(children[i], c[i]));
                }
            }
        },
        _ => {},
    }
}

/// Replacing a value in a trie and in a witness for its key gives a trie and a witness of it.
pub proof fn lemma_replaced_witness<T: Digestible, H: Digest>(
    t: Tree<T>,
    p: Tree<T>,
    w: int,
    off: int,
    room: int,
    partial: bool,
    keys: Set<Seq<u8>>,
    k: Seq<u8>,
    v: T,
)
    requires
        aligned(w, off),
        t.wf(w, off, room, partial),
        witness_of::<T, T, H>(t, p, w, off, keys, kept::<T>()),
        keys.contains(k),
        t.value_at(w, off, k) is Some,
    ensures
        witness_of::<T, T, H>(
            replaced::<T, H>(t, w, k, v),
            replaced::<T, H>(p, w, k, v),
            w,
            off,
            keys,
            kept::<T>(),
        ),
    decreases t,
{
    let a = replaced::<T, H>(t, w, k, v);
    let b = replaced::<T, H>(p, w, k, v);
    match t {
        Tree::Branch { key, mask, children } => {
            t.lemma_branch_bounds(w, off, room, partial);
            let s = t.slot(w, k);
            let end = t.start() + w;
            let c = p->children;
            assert(goes_to(t, w, off, s, k));
            assert(is_reached(t, w, off, s, keys));
            assert(reached(t, w, off, s, keys).contains(t.rest(k)));
            lemma_replaced_witness::<T, H>(
                children[s],
                c[s],
                w,
                end,
                room - (key.len() - 1),
                partial,
                reached(t, w, off, s, keys),
                t.rest(k),
                v,
            );
            assert(p.slot(w, k) == s && p.rest(k) == t.rest(k));
            assert forall|i: int| 0 <= i < a->children.len() implies if is_reached(a, w, off, i, keys) {
                witness_of::<T, T, H>(
                    #[trigger] a->children[i],
                    b->children[i],
                    w,
                    a.start() + w,
                    reached(a, w, off, i, keys),
                    kept::<T>(),
                )
            } else {
                hides::<T, T, H>(a->children[i], b->children[i])
            } by {
                assert(forall|j: Seq<u8>| goes_to(a, w, off, i, j) == #[trigger] goes_to(t, w, off, i, j));
                assert(forall|j: Seq<u8>| #[trigger] a.rest(j) == t.rest(j));
                assert(is_reached(a, w, off, i, keys) == is_reached(t, w, off, i, keys)) by {
                    if is_reached(t, w, off, i, keys) {
                        let j = choose|j: Seq<u8>| #[trigger] keys.contains(j) && goes_to(t, w, off, i, j);
                        assert(keys.contains(j) && goes_to(a, w, off, i, j));
                    }
                    if is_reached(a, w, off, i, keys) {
                        let j = choose|j: Seq<u8>| #[trigger] keys.contains(j) && goes_to(a, w, off, i, j);
                        assert(keys.contains(j) && goes_to(t, w, off, i, j));
                    }
                }
                assert(reached(a, w, off, i, keys) =~= reached(t, w, off, i, keys)) by {
                    assert forall|r: Seq<u8>| reached(a, w, off, i, keys).contains(r) == reached(
                        t,
                        w,
                        off,
                        i,
                        keys,
                    ).contains(r) by {
                        if reached(t, w, off, i, keys).contains(r) {
                            let j = choose|j: Seq<u8>| #[trigger]
                                keys.contains(j) && goes_to(t, w, off, i, j) && r == t.rest(j);
                            assert(keys.contains(j) && goes_to(a, w, off, i, j) && r == a.rest(j));
                        }
                        if reached(a, w, off, i, keys).contains(r) {
                            let j = choose|j: Seq<u8>| #[trigger]
                                keys.contains(j) && goes_to(a, w, off, i, j) && r == a.rest(j);
                            assert(keys.contains(j) && goes_to(t, w, off, i, j) && r == t.rest(j));
                        }
                    }
                }
                if i != s {
                    assert(a->children[i] == children[i] && b->children[i] == c[i]);
                }
            }
        },
        _ => {},
    }
}

// ---------------------------------------------------------------------------
// Adding a key
// ---------------------------------------------------------------------------

/// The trie `x` with another fragment at its first node.
pub open spec fn rekeyed<T: Digestible, H: Digest>(x: Tree<T>, key: Seq<u8>) -> Tree<T> {
    match x {
        Tree::Empty => x,
        Tree::Leaf { value, .. } => Tree::Leaf { digest: leaf_digest::<H>(key, value.encoding()), key, value },
        Tree::Opaque { digest, mask, .. } => Tree::Opaque { digest, key, mask },
        Tree::Branch { mask, children, .. } => Tree::Branch { key, mask, children },
    }
}

/// A leaf that holds `v`.
pub open spec fn leaf_of<T: Digestible, H: Digest>(key: Seq<u8>, v: T) -> Tree<T> {
    Tree::Leaf { digest: leaf_digest::<H>(key, v.encoding()), key, value: v }
}

/// A branch that holds the trie `x` and a leaf with the value `v` for the key `k`, which parts from the fragment of `x`
/// at the bit `p`.
pub open spec fn parted<T: Digestible, H: Digest>(x: Tree<T>, w: int, k: Seq<u8>, p: int, v: T) -> Tree<T> {
    let index = p / 8;
    let start = chunk_start(p % 8, w);
    Tree::Branch {
        key: split_prefix(x.key(), index, start),
        mask: chunk_mask(start, w),
        children: Seq::new(
            (low_bits(w) + 1) as nat,
            |i: int|
                if i == chunk_value(x.key()[index], start, w) {
                    rekeyed::<T, H>(x, split_suffix(x.key(), index, start + w))
                } else if i == chunk_value(k[index], start, w) {
                    leaf_of::<T, H>(split_suffix(k, index, start + w), v)
                } else {
                    Tree::Empty
                },
        ),
    }
}

/// The bit at which the key `k` parts from the fragment of the trie `t`.
pub open spec fn parting<T>(t: Tree<T>, off: int, k: Seq<u8>) -> int {
    choose|p: int| #[trigger] parts_at(t.key(), off, k, p) && p < t.key_bits()
}

/// The trie `t` with the value `v` under the key `k`, which has nothing in its way.
pub open spec fn added<T: Digestible, H: Digest>(t: Tree<T>, w: int, off: int, k: Seq<u8>, v: T) -> Tree<T>
    decreases t,
{
    match t {
        Tree::Empty => leaf_of::<T, H>(split_suffix(k, 0, off), v),
        Tree::Branch { key, mask, children } => if t.covers(off, k) {
            let s = t.slot(w, k);
            if 0 <= s < children.len() {
                Tree::Branch {
                    key,
                    mask,
                    children: children.update(s, added::<T, H>(children[s], w, t.start() + w, t.rest(k), v)),
                }
            } else {
                t
            }
        } else {
            parted::<T, H>(t, w, k, parting(t, off, k), v)
        },
        _ => parted::<T, H>(t, w, k, parting(t, off, k), v),
    }
}

/// Byte strings that do not agree on some bits part at the first bit on which they differ.
proof fn lemma_parts(key: Seq<u8>, off: int, k: Seq<u8>, end: int)
    requires
        off <= end <= bit_len(k),
        !same_bits(k, key, off, end),
    ensures
        exists|p: int| #[trigger] parts_at(key, off, k, p) && p < end,
    decreases end - off,
{
    if off < end {
        if !same_bits(k, key, off, end - 1) {
            lemma_parts(key, off, k, end - 1);
            let p = choose|p: int| #[trigger] parts_at(key, off, k, p) && p < end - 1;
            assert(parts_at(key, off, k, p) && p < end);
        } else {
            assert(bit_at(k, end - 1) != bit_at(key, end - 1));
            assert(parts_at(key, off, k, end - 1));
        }
    }
}

/// A key that is neither covered by a fragment nor ends within it parts from it.
proof fn lemma_parting<T>(t: Tree<T>, off: int, k: Seq<u8>)
    requires
        !t.covers(off, k),
        !(k.len() * 8 < t.key_bits() && same_bits(k, t.key(), off, bit_len(k))),
        off <= bit_len(k),
        off <= t.key_bits(),
    ensures
        parts_at(t.key(), off, k, parting(t, off, k)),
        parting(t, off, k) < t.key_bits(),
{
    let end = if k.len() * 8 < t.key_bits() {
        bit_len(k)
    } else {
        t.key_bits()
    };
    lemma_parts(t.key(), off, k, end);
    let p = choose|p: int| #[trigger] parts_at(t.key(), off, k, p) && p < end;
    assert(parts_at(t.key(), off, k, p) && p < t.key_bits());
}

/// Adding a key changes what is stored under it, and nothing else.
pub proof fn lemma_added<T: Digestible, H: Digest>(
    t: Tree<T>,
    w: int,
    off: int,
    room: int,
    partial: bool,
    k: Seq<u8>,
    v: T,
)
    requires
        aligned(w, off),
        t.wf(w, off, room, partial),
        t.fate(w, off, k) is Vacant,
        1 <= k.len() <= room,
    ensures
        added::<T, H>(t, w, off, k, v).wf(w, off, room, partial),
        changed_at(t, added::<T, H>(t, w, off, k, v), w, off, k, Some(v)),
        fresh::<T, H>(t) ==> fresh::<T, H>(added::<T, H>(t, w, off, k, v)),
        !(added::<T, H>(t, w, off, k, v) is Empty),
    decreases t,
{
    let now = added::<T, H>(t, w, off, k, v);
    lemma_trailing_zeros(t.tail());
    if t is Empty {
        lemma_new_leaf(now, w, off, room, partial, k);
    } else if t.covers(off, k) {
        t.lemma_branch_bounds(w, off, room, partial);
        let children = t->children;
        let s = t.slot(w, k);
        let end = t.start() + w;
        let inner = room - (t.key().len() - 1);
        let c = now->children;
        lemma_added::<T, H>(children[s], w, end, inner, partial, t.rest(k), v);
        assert(c[s] == added::<T, H>(children[s], w, end, t.rest(k), v));
        lemma_descend(t, now, w, off, room, partial, k, Some(v));
        lemma_occupied(children, c, s);
        assert(now.fragment_wf(w, off, room) && now.start() == t.start());
        assert forall|i: int| 0 <= i < c.len() implies (#[trigger] c[i]).wf(w, end, inner, partial) by {
            if i != s {
                assert(c[i] == children[i]);
            }
        }
        if fresh::<T, H>(t) {
            assert forall|i: int| 0 <= i < c.len() implies fresh::<T, H>(#[trigger] c[i]) by {
                assert(fresh::<T, H>(children[i]));
            }
        }
    } else {
        lemma_parting(t, off, k);
        let p = parting(t, off, k);
        let index = p / 8;
        let start = chunk_start(p % 8, w);
        let y = rekeyed::<T, H>(t, split_suffix(t.key(), index, start + w));
        let z = leaf_of::<T, H>(split_suffix(k, index, start + w), v);
        let sx = chunk_value(t.key()[index], start, w) as int;
        let sk = chunk_value(k[index], start, w) as int;
        lemma_parting_chunk(t, w, off, room, partial, p);
        lemma_chunk_value(t.key()[index], start, w);
        lemma_chunk_value(k[index], start, w);
        lemma_chunk_in_seq(k, t.key(), index, start, w);
        assert(sx != sk) by {
            assert(bit_at(k, p) != bit_at(t.key(), p));
        }
        assert(now->children[sx] == y && now->children[sk] == z);
        assert(is_split(t, y, z, now, w, k, index, start, v));
        lemma_split(t, y, z, now, w, off, room, partial, k, p, v);
        if fresh::<T, H>(t) {
            assert(fresh::<T, H>(y) && fresh::<T, H>(z));
            assert forall|i: int| 0 <= i < now->children.len() implies fresh::<T, H>(#[trigger] now->children[i]) by {
                if i != sx && i != sk {
                    assert(now->children[i] is Empty);
                }
            }
        }
    }
}

/// The children of a trie and of a witness of it have the same digests.
proof fn lemma_witness_children<T: Digestible, H: Digest>(
    t: Tree<T>,
    p: Tree<T>,
    w: int,
    off: int,
    keys: Set<Seq<u8>>,
    i: int,
)
    requires
        t is Branch,
        witness_of::<T, T, H>(t, p, w, off, keys, kept::<T>()),
        0 <= i < t->children.len(),
    ensures
        digest_of::<T, H>(p->children[i]) == digest_of::<T, H>(t->children[i]),
{
    let a = t->children[i];
    let b = p->children[i];
    if is_reached(t, w, off, i, keys) {
        lemma_witness_digest::<T, T, H>(a, b, w, t.start() + w, reached(t, w, off, i, keys), kept::<T>());
    } else {
        assert(hides::<T, T, H>(a, b));
    }
}

/// Adding a key to a trie and to a witness for that key gives them the same digest; nothing is in the way of the key
/// in the witness either.
pub proof fn lemma_added_digest<T: Digestible, H: Digest>(
    t: Tree<T>,
    p: Tree<T>,
    w: int,
    off: int,
    room: int,
    partial: bool,
    keys: Set<Seq<u8>>,
    k: Seq<u8>,
    v: T,
)
    requires
        aligned(w, off),
        t.wf(w, off, room, partial),
        witness_of::<T, T, H>(t, p, w, off, keys, kept::<T>()),
        keys.contains(k),
        t.fate(w, off, k) is Vacant,
    ensures
        p.fate(w, off, k) is Vacant,
        digest_of::<T, H>(added::<T, H>(p, w, off, k, v)) == digest_of::<T, H>(added::<T, H>(t, w, off, k, v)),
    decreases t,
{
    if t is Branch {
        let a = added::<T, H>(t, w, off, k, v);
        let b = added::<T, H>(p, w, off, k, v);
        t.lemma_branch_bounds(w, off, room, partial);
        lemma_trailing_zeros(t.tail());
        assert forall|i: int| 0 <= i < t->children.len() implies digest_of::<T, H>(#[trigger] p->children[i])
            == digest_of::<T, H>(t->children[i]) by {
            lemma_witness_children::<T, H>(t, p, w, off, keys, i);
        }
        assert(p.covers(off, k) == t.covers(off, k));
        if t.covers(off, k) {
            let s = t.slot(w, k);
            let end = t.start() + w;
            assert(p.slot(w, k) == s && p.rest(k) == t.rest(k));
            assert(goes_to(t, w, off, s, k));
            assert(is_reached(t, w, off, s, keys));
            assert(reached(t, w, off, s, keys).contains(t.rest(k)));
            lemma_added_digest::<T, H>(
                t->children[s],
                p->children[s],
                w,
                end,
                room - (t.key().len() - 1),
                partial,
                reached(t, w, off, s, keys),
                t.rest(k),
                v,
            );
            assert(digests_of::<T, H>(b->children) =~= digests_of::<T, H>(a->children)) by {
                assert forall|i: int| 0 <= i < a->children.len() implies digest_of::<T, H>(#[trigger] b->children[i])
                    == digest_of::<T, H>(a->children[i]) by {
                    if i != s {
                        assert(b->children[i] == p->children[i] && a->children[i] == t->children[i]);
                    }
                }
            }
        } else {
            assert(digests_of::<T, H>(p->children) =~= digests_of::<T, H>(t->children));
            assert(parting(p, off, k) == parting(t, off, k));
            assert(digests_of::<T, H>(b->children) =~= digests_of::<T, H>(a->children));
        }
    }
}

}
