//! The structure of a trie is determined by what it holds.
use crate::bitseqops::{
    bit_at, bit_len, byte_bit, joined, lemma_byte_ops, lemma_low_bits, lemma_split_of_join,
    lemma_split_prefix_bits, lemma_split_suffix_bits, lemma_trailing_zeros, low_bits, same_bits, split_prefix,
    split_suffix,
};
use crate::digestible::{Digest, Digestible};
use crate::tree::{
    aligned, fresh, lemma_bits_ext, lemma_byte_in_seq, lemma_chunk_in_seq, lemma_skip_bits, lift_stub, same_key,
    Stub, Tree,
};
use vstd::prelude::*;

verus! {

// ---------------------------------------------------------------------------
// Keys of a child as keys of its parent
// ---------------------------------------------------------------------------

/// A key of the branch `t` that goes to the child `slot` and continues as `r` there.
pub open spec fn lifted<T>(t: Tree<T>, w: int, slot: int, r: Seq<u8>) -> Seq<u8> {
    joined(t.key(), t.start(), slot as u8, split_suffix(r, 0, t.start() + w))
}

/// What a branch holds under a lifted key is what its child holds.
pub proof fn lemma_lifted<T>(t: Tree<T>, w: int, off: int, room: int, partial: bool, slot: int, r: Seq<u8>)
    requires
        aligned(w, off),
        t is Branch,
        t.wf(w, off, room, partial),
        0 <= slot < t->children.len(),
        r.len() >= 1,
    ensures
        ({
            let j = lifted(t, w, slot, r);
            let child = t->children[slot];
            let end = t.start() + w;
            &&& j.len() == t.key().len() - 1 + r.len()
            &&& t.covers(off, j)
            &&& t.slot(w, j) == slot
            &&& same_key(end, t.rest(j), r)
            &&& t.value_at(w, off, j) == child.value_at(w, end, r)
            &&& t.stub_at(w, off, j) == lift_stub(child.stub_at(w, end, r), t.key().len() - 1)
            &&& t.fate(w, off, j) == child.fate(w, end, r)
        }),
{
    t.lemma_branch_bounds(w, off, room, partial);
    let j = lifted(t, w, slot, r);
    let child = t->children[slot];
    let start = t.start();
    let end = start + w;
    let index = t.key().len() - 1;
    let suffix = split_suffix(r, 0, end);
    lemma_split_suffix_bits(r, 0, end);
    lemma_low_bits(end);
    lemma_byte_ops(r[0], !low_bits(end));
    assert(suffix[0] == r[0] & !low_bits(end));
    assert forall|i: u8| i < end implies !#[trigger] byte_bit(suffix[0], i) by {}
    lemma_split_of_join(t.key(), start, w, slot as u8, suffix);
    lemma_split_prefix_bits(j, index, start);
    lemma_split_suffix_bits(j, index, end);
    assert(j.len() == index + r.len());
    assert forall|p: int| off <= p < t.key_bits() implies #[trigger] bit_at(j, p) == bit_at(t.key(), p) by {
        assert(bit_at(split_prefix(j, index, start), p) == bit_at(t.key(), p));
    }
    assert(t.covers(off, j));
    assert(t.slot(w, j) == slot);
    let rest = t.rest(j);
    lemma_skip_bits(j, index);
    assert forall|p: int| end <= p < bit_len(rest) implies #[trigger] bit_at(rest, p) == bit_at(r, p) by {
        assert(bit_at(split_suffix(j, index, end), p) == bit_at(suffix, p));
    }
    assert(same_key(end, rest, r));
    child.lemma_same_key(w, end, room - index, partial, rest, r);
}

// ---------------------------------------------------------------------------
// Members
// ---------------------------------------------------------------------------

/// The trie holds a value under the key `j`, or hides whether it does.
pub open spec fn holds<T>(t: Tree<T>, w: int, off: int, j: Seq<u8>) -> bool {
    t.value_at(w, off, j) is Some || t.stub_at(w, off, j) is Some
}

/// A key under which a well formed trie holds something.
pub open spec fn member<T>(t: Tree<T>, w: int) -> Seq<u8>
    decreases t,
{
    match t {
        Tree::Branch { key, mask, children } => {
            let i = choose|i: int| 0 <= i < children.len() && !(#[trigger] children[i] is Empty);
            if 0 <= i < children.len() {
                lifted(t, w, i, member(children[i], w))
            } else {
                Seq::empty()
            }
        },
        _ => t.key(),
    }
}

/// A trie that is not empty holds something.
pub proof fn lemma_member<T>(t: Tree<T>, w: int, off: int, room: int, partial: bool)
    requires
        aligned(w, off),
        t.wf(w, off, room, partial),
        !(t is Empty),
    ensures
        holds(t, w, off, member(t, w)),
        member(t, w).len() >= 1,
    decreases t,
{
    match t {
        Tree::Branch { key, mask, children } => {
            t.lemma_branch_bounds(w, off, room, partial);
            let i = choose|i: int| 0 <= i < children.len() && !(#[trigger] children[i] is Empty);
            lemma_member(children[i], w, t.start() + w, room - (key.len() - 1), partial);
            lemma_lifted(t, w, off, room, partial, i, member(children[i], w));
        },
        _ => {
            lemma_trailing_zeros(t.tail());
            assert(t.covers(off, t.key()));
        },
    }
}

/// A key under which something is held agrees with the fragment of the first node.
pub proof fn lemma_held<T>(t: Tree<T>, w: int, off: int, room: int, partial: bool, j: Seq<u8>)
    requires
        aligned(w, off),
        t.wf(w, off, room, partial),
        holds(t, w, off, j),
    ensures
        t.covers(off, j),
        off >= 1 ==> j.len() >= 1,
        t is Branch ==> j.len() >= t.key().len() && holds(
            t->children[t.slot(w, j)],
            w,
            t.start() + w,
            t.rest(j),
        ),
        t.stub_at(w, off, j) is Some ==> t.key_bits() <= t.stub_at(w, off, j)->0.bits <= bit_len(j),
        t.stub_at(w, off, j) is Some && t is Branch ==> t.key_bits() + w <= t.stub_at(w, off, j)->0.bits,
    decreases t,
{
    lemma_trailing_zeros(t.tail());
    if t is Branch {
        t.lemma_branch_bounds(w, off, room, partial);
        let end = t.start() + w;
        let child = t->children[t.slot(w, j)];
        let index = t.key().len() - 1;
        assert(t.value_at(w, off, j) == child.value_at(w, end, t.rest(j)));
        assert(t.stub_at(w, off, j) == lift_stub(child.stub_at(w, end, t.rest(j)), index));
        lemma_held(child, w, end, room - index, partial, t.rest(j));
        assert(child.wf(w, end, room - index, partial) && !(child is Empty));
        assert(child.fragment_wf(w, end, room - index));
        assert(bit_len(t.rest(j)) == bit_len(j) - index * 8);
    }
}

// ---------------------------------------------------------------------------
// Tries that hold the same
// ---------------------------------------------------------------------------

/// The two tries hold the same values under the same keys, and hide the same parts.
pub open spec fn same_contents<T>(a: Tree<T>, b: Tree<T>, w: int, off: int) -> bool {
    forall|j: Seq<u8>|
        #![trigger a.value_at(w, off, j)]
        #![trigger b.value_at(w, off, j)]
        #![trigger a.stub_at(w, off, j)]
        #![trigger b.stub_at(w, off, j)]
        a.value_at(w, off, j) == b.value_at(w, off, j) && a.stub_at(w, off, j) == b.stub_at(w, off, j)
}

/// The two tries have the same structure: they differ in the digests of their leaves at most.
pub open spec fn same_structure<T>(a: Tree<T>, b: Tree<T>) -> bool
    decreases a,
{
    match (a, b) {
        (Tree::Empty, Tree::Empty) => true,
        (Tree::Leaf { key: k, value: v, .. }, Tree::Leaf { key: l, value: u, .. }) => k == l && v == u,
        (Tree::Opaque { .. }, Tree::Opaque { .. }) => a == b,
        (Tree::Branch { key: k, mask: m, children: c }, Tree::Branch { key: l, mask: n, children: d }) => {
            &&& k == l
            &&& m == n
            &&& c.len() == d.len()
            &&& forall|i: int|
                #![trigger c[i]]
                #![trigger d[i]]
                0 <= i < c.len() ==> same_structure(c[i], d[i])
        },
        _ => false,
    }
}

/// A trie that holds what a branch holds is a branch, and starts to branch no later.
proof fn lemma_parting<T>(a: Tree<T>, b: Tree<T>, w: int, off: int, room: int, more: int, p: bool, q: bool)
    requires
        aligned(w, off),
        a.wf(w, off, room, p),
        b.wf(w, off, more, q),
        same_contents(a, b, w, off),
        a is Branch,
    ensures
        b is Branch,
        b.key_bits() <= a.key_bits(),
{
    a.lemma_branch_bounds(w, off, room, p);
    lemma_trailing_zeros(b.tail());
    let children = a->children;
    let end = a.start() + w;
    let below = room - (a.key().len() - 1);
    let index = a.key().len() - 1;
    let (s, t) = choose|i: int, j: int|
        #![trigger children[i], children[j]]
        0 <= i < j < children.len() && !(children[i] is Empty) && !(children[j] is Empty);
    let x = lifted(a, w, s, member(children[s], w));
    let y = lifted(a, w, t, member(children[t], w));
    lemma_member(children[s], w, end, below, p);
    lemma_member(children[t], w, end, below, p);
    lemma_lifted(a, w, off, room, p, s, member(children[s], w));
    lemma_lifted(a, w, off, room, p, t, member(children[t], w));
    assert(holds(a, w, off, x) && holds(a, w, off, y));
    assert(holds(b, w, off, x) && holds(b, w, off, y)) by {
        assert(a.value_at(w, off, x) == b.value_at(w, off, x) && a.stub_at(w, off, x) == b.stub_at(w, off, x));
        assert(a.value_at(w, off, y) == b.value_at(w, off, y) && a.stub_at(w, off, y) == b.stub_at(w, off, y));
    }
    assert(!(b is Empty));
    lemma_held(a, w, off, room, p, x);
    lemma_held(b, w, off, more, q, x);
    lemma_held(b, w, off, more, q, y);
    assert(!same_bits(x, y, index * 8 + a.start(), index * 8 + end)) by {
        lemma_chunk_in_seq(x, y, index, a.start(), w);
    }
    if b.key_bits() >= a.key_bits() + w {
        assert forall|i: int| index * 8 + a.start() <= i < index * 8 + end implies #[trigger] bit_at(x, i) == bit_at(
            y,
            i,
        ) by {
            assert(bit_at(x, i) == bit_at(b.key(), i));
            assert(bit_at(y, i) == bit_at(b.key(), i));
        }
        assert(false);
    }
    assert(b is Branch) by {
        if b is Leaf {
            assert(b.key_bits() == bit_len(x));
        }
        if b is Opaque {
            assert(a.stub_at(w, off, x) == b.stub_at(w, off, x));
        }
    }
    b.lemma_branch_bounds(w, off, more, q);
    lemma_multiple(a.key_bits(), b.key_bits(), w);
}

/// Multiples of a chunk's width that are less than a chunk apart.
proof fn lemma_multiple(a: int, b: int, w: int)
    requires
        crate::tree::valid_width(w),
        a % w == 0,
        b % w == 0,
        b < a + w,
    ensures
        b <= a,
{
    if w == 1 {
    } else if w == 2 {
        assert(a % 2 == 0 && b % 2 == 0);
    } else if w == 4 {
        assert(a % 4 == 0 && b % 4 == 0);
    } else {
        assert(a % 8 == 0 && b % 8 == 0);
    }
}

/// Fragments of one length that a key agrees with are the same.
proof fn lemma_same_fragment<T>(a: Tree<T>, b: Tree<T>, w: int, off: int, room: int, more: int, j: Seq<u8>)
    requires
        aligned(w, off),
        a.fragment_wf(w, off, room),
        b.fragment_wf(w, off, more),
        a.tail() == b.tail(),
        a.key().len() == b.key().len(),
        a.covers(off, j),
        b.covers(off, j),
    ensures
        a.key() == b.key(),
{
    lemma_trailing_zeros(a.tail());
    let k = a.key();
    let l = b.key();
    let last = k.len() - 1;
    lemma_byte_in_seq(k, 0);
    lemma_byte_in_seq(l, 0);
    lemma_byte_in_seq(k, last);
    lemma_byte_in_seq(l, last);
    assert forall|i: int| 0 <= i < bit_len(k) implies #[trigger] bit_at(k, i) == bit_at(l, i) by {
        if i < off {
            if i < 8 {
                let bit = i as u8;
                assert(!byte_bit(k[0], bit) && !byte_bit(l[0], bit));
            }
        } else if i < a.key_bits() {
            assert(bit_at(j, i) == bit_at(k, i));
            assert(bit_at(j, i) == bit_at(l, i));
        } else {
            let bit = (i - last * 8) as u8;
            assert(!byte_bit(k.last(), bit) && !byte_bit(l.last(), bit));
        }
    }
    lemma_bits_ext(k, l);
}

/// Well formed tries that hold the same have the same structure.
pub proof fn lemma_canonical<T>(a: Tree<T>, b: Tree<T>, w: int, off: int, room: int, more: int, p: bool, q: bool)
    requires
        aligned(w, off),
        a.wf(w, off, room, p),
        b.wf(w, off, more, q),
        same_contents(a, b, w, off),
    ensures
        same_structure(a, b),
    decreases a,
{
    if a is Empty {
        if !(b is Empty) {
            lemma_member(b, w, off, more, q);
            assert(a.value_at(w, off, member(b, w)) == b.value_at(w, off, member(b, w)));
        }
    } else {
        let m = member(a, w);
        lemma_member(a, w, off, room, p);
        assert(a.value_at(w, off, m) == b.value_at(w, off, m) && a.stub_at(w, off, m) == b.stub_at(w, off, m));
        assert(holds(b, w, off, m));
        lemma_held(a, w, off, room, p, m);
        lemma_held(b, w, off, more, q, m);
        lemma_trailing_zeros(a.tail());
        lemma_trailing_zeros(b.tail());
        if a is Branch {
            lemma_parting(a, b, w, off, room, more, p, q);
            lemma_parting(b, a, w, off, more, room, q, p);
            a.lemma_branch_bounds(w, off, room, p);
            b.lemma_branch_bounds(w, off, more, q);
            assert(a.key().len() == b.key().len() && a.start() == b.start());
            lemma_same_fragment(a, b, w, off, room, more, m);
            let end = a.start() + w;
            let index = a.key().len() - 1;
            assert forall|i: int| 0 <= i < a->children.len() implies same_structure(
                #[trigger] a->children[i],
                b->children[i],
            ) by {
                let c = a->children[i];
                let d = b->children[i];
                assert forall|r: Seq<u8>|
                    #![trigger c.value_at(w, end, r)]
                    #![trigger d.value_at(w, end, r)]
                    #![trigger c.stub_at(w, end, r)]
                    #![trigger d.stub_at(w, end, r)]
                    c.value_at(w, end, r) == d.value_at(w, end, r) && c.stub_at(w, end, r) == d.stub_at(w, end, r) by {
                    if r.len() >= 1 {
                        let j = lifted(a, w, i, r);
                        assert(j == lifted(b, w, i, r));
                        lemma_lifted(a, w, off, room, p, i, r);
                        lemma_lifted(b, w, off, more, q, i, r);
                        assert(a.value_at(w, off, j) == b.value_at(w, off, j));
                        assert(a.stub_at(w, off, j) == b.stub_at(w, off, j));
                        lemma_lift_stub(c.stub_at(w, end, r), d.stub_at(w, end, r), index);
                    } else {
                        if holds(c, w, end, r) {
                            lemma_held(c, w, end, room - index, p, r);
                        }
                        if holds(d, w, end, r) {
                            lemma_held(d, w, end, more - index, q, r);
                        }
                    }
                }
                lemma_canonical(c, d, w, end, room - index, more - index, p, q);
            }
        } else {
            if b is Branch {
                lemma_parting(b, a, w, off, more, room, q, p);
            }
            lemma_same_fragment(a, b, w, off, room, more, m);
        }
    }
}

/// Hidden parts that look the same from further up are the same.
proof fn lemma_lift_stub(a: Option<Stub>, b: Option<Stub>, bytes: int)
    requires
        lift_stub(a, bytes) == lift_stub(b, bytes),
    ensures
        a == b,
{
}

/// Tries of the same structure whose leaves have the right digests are equal.
pub proof fn lemma_fresh_equal<T: Digestible, H: Digest>(a: Tree<T>, b: Tree<T>)
    requires
        same_structure(a, b),
        fresh::<T, H>(a),
        fresh::<T, H>(b),
    ensures
        a == b,
    decreases a,
{
    match (a, b) {
        (Tree::Branch { key: k, mask: m, children: c }, Tree::Branch { key: l, mask: n, children: d }) => {
            assert forall|i: int| 0 <= i < c.len() implies c[i] == d[i] by {
                lemma_fresh_equal::<T, H>(c[i], d[i]);
            }
            assert(c =~= d);
        },
        _ => {},
    }
}

}
