//! The true keys of a trie: the concatenations of the key fragments along its paths.
use crate::bitseqops::{
    bit_at, bit_len, byte_bit, joined, lemma_byte_ops, lemma_low_bits, lemma_split_of_join,
    lemma_split_prefix_bits, lemma_split_suffix_bits, lemma_trailing_zeros, low_bits, split_prefix, split_suffix,
};
use crate::canonical::{lemma_lifted, lifted};
use crate::tree::{aligned, lemma_bits_ext, lemma_byte_in_seq, lemma_chunk_in_seq, lemma_skip_bits, same_key, Tree};
use vstd::prelude::*;
use vstd::relations::injective_on;
use vstd::set_lib::{lemma_map_size, lemma_set_disjoint_lens};

verus! {

/// The key `k` is one of a leaf of the trie: at each branch on the way, the fragment of the branch, the number of
/// the child and a key of the child are put together.
pub open spec fn spells<T>(t: Tree<T>, w: int, k: Seq<u8>) -> bool
    decreases t,
{
    match t {
        Tree::Leaf { key, .. } => k == key,
        Tree::Branch { key, mask, children } => exists|i: int, r: Seq<u8>|
            #![trigger joined(key, t.start(), i as u8, r), children[i]]
            0 <= i < children.len() && spells(children[i], w, r) && k == joined(key, t.start(), i as u8, r),
        _ => false,
    }
}

/// The bits of a key before bit `off` are 0.
pub open spec fn starts_at(off: int, k: Seq<u8>) -> bool {
    k.len() >= 1 && forall|j: u8| j < off ==> !#[trigger] byte_bit(k[0], j)
}

/// The key `k` with the bits before bit `off` cleared.
pub open spec fn cleared(off: int, k: Seq<u8>) -> Seq<u8> {
    split_suffix(k, 0, off)
}

/// Clearing the bits before `off` does not change the key from there on.
proof fn lemma_cleared(off: int, k: Seq<u8>)
    requires
        0 <= off <= 8,
        k.len() >= 1,
    ensures
        starts_at(off, cleared(off, k)),
        same_key(off, k, cleared(off, k)),
        cleared(off, k).len() == k.len(),
{
    lemma_split_suffix_bits(k, 0, off);
    lemma_low_bits(off);
    lemma_byte_ops(k[0], !low_bits(off));
    assert(cleared(off, k)[0] == k[0] & !low_bits(off));
}

/// Keys that start at `off` are equal where they are the same from there on.
proof fn lemma_started(off: int, a: Seq<u8>, b: Seq<u8>)
    requires
        0 <= off <= 8,
        starts_at(off, a),
        starts_at(off, b),
        same_key(off, a, b),
    ensures
        a == b,
{
    lemma_byte_in_seq(a, 0);
    lemma_byte_in_seq(b, 0);
    assert forall|i: int| 0 <= i < bit_len(a) implies #[trigger] bit_at(a, i) == bit_at(b, i) by {
        if i < off {
            let j = i as u8;
            assert(!byte_bit(a[0], j) && !byte_bit(b[0], j));
        }
    }
    lemma_bits_ext(a, b);
}

/// A lifted key starts where the branch does.
proof fn lemma_lifted_starts<T>(t: Tree<T>, w: int, off: int, room: int, partial: bool, slot: int, r: Seq<u8>)
    requires
        aligned(w, off),
        t is Branch,
        t.wf(w, off, room, partial),
        0 <= slot < t->children.len(),
        r.len() >= 1,
    ensures
        starts_at(off, lifted(t, w, slot, r)),
{
    t.lemma_branch_bounds(w, off, room, partial);
    let j = lifted(t, w, slot, r);
    let start = t.start();
    let end = start + w;
    let index = t.key().len() - 1;
    let suffix = split_suffix(r, 0, end);
    lemma_cleared(end, r);
    lemma_split_of_join(t.key(), start, w, slot as u8, suffix);
    lemma_split_prefix_bits(j, index, start);
    lemma_byte_in_seq(j, 0);
    lemma_byte_in_seq(t.key(), 0);
    assert forall|i: u8| i < off implies !#[trigger] byte_bit(j[0], i) by {
        assert(!byte_bit(t.key()[0], i));
        assert(bit_at(split_prefix(j, index, start), i as int) == bit_at(t.key(), i as int));
    }
}

/// The keys that are spelled by the fragments start where the trie does.
pub proof fn lemma_spelled_starts<T>(t: Tree<T>, w: int, off: int, room: int, partial: bool, k: Seq<u8>)
    requires
        aligned(w, off),
        t.wf(w, off, room, partial),
        spells(t, w, k),
    ensures
        starts_at(off, k),
    decreases t,
{
    match t {
        Tree::Branch { key, mask, children } => {
            t.lemma_branch_bounds(w, off, room, partial);
            let (i, r) = choose|i: int, r: Seq<u8>|
                #![trigger joined(key, t.start(), i as u8, r), children[i]]
                0 <= i < children.len() && spells(children[i], w, r) && k == joined(
                    key,
                    t.start(),
                    i as u8,
                    r,
                );
            let end = t.start() + w;
            lemma_spelled_starts(children[i], w, end, room - (key.len() - 1), partial, r);
            lemma_cleared(end, r);
            lemma_started(end, r, cleared(end, r));
            lemma_lifted_starts(t, w, off, room, partial, i, r);
        },
        _ => {},
    }
}

/// A part of a trie holds values under the keys that its fragments spell, and no others.
pub proof fn lemma_spelled<T>(t: Tree<T>, w: int, off: int, room: int, partial: bool, k: Seq<u8>)
    requires
        aligned(w, off),
        t.wf(w, off, room, partial),
        k.len() >= 1,
    ensures
        t.value_at(w, off, k) is Some <==> spells(t, w, cleared(off, k)),
    decreases t,
{
    let c = cleared(off, k);
    lemma_cleared(off, k);
    t.lemma_same_key(w, off, room, partial, k, c);
    lemma_trailing_zeros(t.tail());
    match t {
        Tree::Leaf { key, .. } => {
            assert(starts_at(off, key));
            if t.value_at(w, off, c) is Some {
                lemma_started(off, c, key);
            }
        },
        Tree::Branch { key, mask, children } => {
            t.lemma_branch_bounds(w, off, room, partial);
            let end = t.start() + w;
            let index = key.len() - 1;
            if t.value_at(w, off, c) is Some {
                let s = t.slot(w, c);
                let r = t.rest(c);
                lemma_spelled(children[s], w, end, room - index, partial, r);
                let j = lifted(t, w, s, r);
                lemma_lifted(t, w, off, room, partial, s, r);
                lemma_lifted_starts(t, w, off, room, partial, s, r);
                lemma_skip_bits(c, index);
                lemma_skip_bits(j, index);
                lemma_chunk_in_seq(c, j, index, t.start(), w);
                assert forall|i: int| off <= i < bit_len(c) implies #[trigger] bit_at(c, i) == bit_at(j, i) by {
                    if i < t.key_bits() {
                        assert(bit_at(c, i) == bit_at(key, i));
                        assert(bit_at(j, i) == bit_at(key, i));
                    } else if i >= t.key_bits() + w {
                        let p = i - index * 8;
                        assert(bit_at(t.rest(j), p) == bit_at(r, p));
                    }
                }
                lemma_started(off, c, j);
                assert(spells(children[s], w, cleared(end, r)));
                assert(c == joined(key, t.start(), s as u8, cleared(end, r)));
            }
            if spells(t, w, c) {
                let (i, r) = choose|i: int, r: Seq<u8>|
                    #![trigger joined(key, t.start(), i as u8, r), children[i]]
                    0 <= i < children.len() && spells(children[i], w, r) && c == joined(
                        key,
                        t.start(),
                        i as u8,
                        r,
                    );
                lemma_spelled_starts(children[i], w, end, room - index, partial, r);
                lemma_cleared(end, r);
                lemma_started(end, r, cleared(end, r));
                lemma_spelled(children[i], w, end, room - index, partial, r);
                lemma_lifted(t, w, off, room, partial, i, r);
                assert(c == lifted(t, w, i, r));
            }
        },
        _ => {},
    }
}

// ---------------------------------------------------------------------------
// How many keys there are
// ---------------------------------------------------------------------------

/// The number of leaves of a trie.
pub open spec fn leaves<T>(t: Tree<T>) -> nat
    decreases t, 0nat,
{
    match t {
        Tree::Leaf { .. } => 1,
        Tree::Branch { key, mask, children } => leaves_below(children, children.len()),
        _ => 0,
    }
}

/// The number of leaves of the first `n` of several tries.
pub open spec fn leaves_below<T>(children: Seq<Tree<T>>, n: nat) -> nat
    decreases children, n,
{
    if n == 0 || n > children.len() {
        0
    } else {
        leaves_below(children, (n - 1) as nat) + leaves(children[n - 1])
    }
}

/// The keys that the fragments of a trie spell.
pub open spec fn spelled<T>(t: Tree<T>, w: int) -> Set<Seq<u8>> {
    Set::new(|k: Seq<u8>| spells(t, w, k))
}

/// The keys of the branch `t` that go to one of its first `n` children.
spec fn spelled_below<T>(t: Tree<T>, w: int, n: nat) -> Set<Seq<u8>> {
    Set::new(
        |k: Seq<u8>|
            exists|i: int, r: Seq<u8>|
                #![trigger joined(t.key(), t.start(), i as u8, r), t->children[i]]
                0 <= i < n && spells(t->children[i], w, r) && k == joined(t.key(), t.start(), i as u8, r),
    )
}

/// A key that is put together from the fragment of a branch and a key of a child goes to that child, and tells the key
/// of the child.
proof fn lemma_put_together<T>(t: Tree<T>, w: int, off: int, room: int, partial: bool, i: int, r: Seq<u8>)
    requires
        aligned(w, off),
        t is Branch,
        t.wf(w, off, room, partial),
        0 <= i < t->children.len(),
        spells(t->children[i], w, r),
    ensures
        t.slot(w, joined(t.key(), t.start(), i as u8, r)) == i,
        same_key(t.start() + w, t.rest(joined(t.key(), t.start(), i as u8, r)), r),
        starts_at(t.start() + w, r),
{
    t.lemma_branch_bounds(w, off, room, partial);
    let end = t.start() + w;
    lemma_spelled_starts(t->children[i], w, end, room - (t.key().len() - 1), partial, r);
    lemma_cleared(end, r);
    lemma_started(end, r, cleared(end, r));
    lemma_lifted(t, w, off, room, partial, i, r);
}

/// A trie has as many keys as leaves.
pub proof fn lemma_spelled_len<T>(t: Tree<T>, w: int, off: int, room: int, partial: bool)
    requires
        aligned(w, off),
        t.wf(w, off, room, partial),
    ensures
        spelled(t, w).finite(),
        spelled(t, w).len() == leaves(t),
    decreases t, 0nat,
{
    match t {
        Tree::Leaf { key, .. } => {
            assert(spelled(t, w) =~= Set::<Seq<u8>>::empty().insert(key));
        },
        Tree::Branch { key, mask, children } => {
            lemma_spelled_below_len(t, w, off, room, partial, children.len());
            assert(spelled(t, w) =~= spelled_below(t, w, children.len()));
        },
        _ => {
            assert(spelled(t, w) =~= Set::<Seq<u8>>::empty());
        },
    }
}

proof fn lemma_spelled_below_len<T>(t: Tree<T>, w: int, off: int, room: int, partial: bool, n: nat)
    requires
        aligned(w, off),
        t is Branch,
        t.wf(w, off, room, partial),
        n <= t->children.len(),
    ensures
        spelled_below(t, w, n).finite(),
        spelled_below(t, w, n).len() == leaves_below(t->children, n),
    decreases t->children, n,
{
    if n == 0 {
        assert(spelled_below(t, w, n) =~= Set::<Seq<u8>>::empty());
    } else {
        t.lemma_branch_bounds(w, off, room, partial);
        let m = (n - 1) as nat;
        let i = n - 1;
        let c = t->children[i];
        let end = t.start() + w;
        let f = |r: Seq<u8>| joined(t.key(), t.start(), i as u8, r);
        let a = spelled_below(t, w, m);
        let own = spelled(c, w);
        let b = own.map(f);
        lemma_spelled_below_len(t, w, off, room, partial, m);
        lemma_spelled_len(c, w, end, room - (t.key().len() - 1), partial);
        assert(injective_on(f, own)) by {
            assert forall|x: Seq<u8>, y: Seq<u8>|
                own.contains(x) && own.contains(y) && #[trigger] f(x) == #[trigger] f(y) implies x == y by {
                lemma_put_together(t, w, off, room, partial, i, x);
                lemma_put_together(t, w, off, room, partial, i, y);
                let j = t.rest(f(x));
                assert forall|p: int| end <= p < bit_len(x) implies #[trigger] bit_at(x, p) == bit_at(y, p) by {
                    assert(bit_at(j, p) == bit_at(x, p));
                    assert(bit_at(j, p) == bit_at(y, p));
                }
                assert forall|p: int| end <= p < bit_len(x) implies bit_at(x, p) == #[trigger] bit_at(y, p) by {
                    assert(bit_at(x, p) == bit_at(y, p));
                }
                lemma_started(end, x, y);
            }
        }
        lemma_map_size(own, b, f);
        assert(a.disjoint(b)) by {
            assert forall|k: Seq<u8>| a.contains(k) implies !#[trigger] b.contains(k) by {
                let (g, r) = choose|g: int, r: Seq<u8>|
                    #![trigger joined(t.key(), t.start(), g as u8, r), t->children[g]]
                    0 <= g < m && spells(t->children[g], w, r) && k == joined(t.key(), t.start(), g as u8, r);
                lemma_put_together(t, w, off, room, partial, g, r);
                if b.contains(k) {
                    let q = choose|q: Seq<u8>| own.contains(q) && k == f(q);
                    lemma_put_together(t, w, off, room, partial, i, q);
                }
            }
        }
        assert(spelled_below(t, w, n) =~= a + b) by {
            assert forall|k: Seq<u8>| spelled_below(t, w, n).contains(k) == (a + b).contains(k) by {
                if spelled_below(t, w, n).contains(k) {
                    let (g, r) = choose|g: int, r: Seq<u8>|
                        #![trigger joined(t.key(), t.start(), g as u8, r), t->children[g]]
                        0 <= g < n && spells(t->children[g], w, r) && k == joined(t.key(), t.start(), g as u8, r);
                    if g < m {
                        assert(a.contains(k));
                    } else {
                        assert(own.contains(r) && k == f(r));
                    }
                }
                if b.contains(k) {
                    let q = choose|q: Seq<u8>| own.contains(q) && k == f(q);
                    assert(spells(t->children[i], w, q) && k == joined(t.key(), t.start(), i as u8, q));
                }
                if a.contains(k) {
                    let (g, r) = choose|g: int, r: Seq<u8>|
                        #![trigger joined(t.key(), t.start(), g as u8, r), t->children[g]]
                        0 <= g < m && spells(t->children[g], w, r) && k == joined(t.key(), t.start(), g as u8, r);
                    assert(0 <= g < n && spells(t->children[g], w, r));
                }
            }
        }
        lemma_set_disjoint_lens(a, b);
    }
}

}
