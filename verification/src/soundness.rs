//! What follows from equal digests, where the hash function has no collisions.
use crate::bitseqops::{byte_bit, lemma_bits_of_zero, lemma_low_bits, low_bits};
use crate::digestible::{Digest, Digestible};
use crate::tree::{aligned, branch_encoding, concat, digest_of, digests_of, fresh, valid_width, Tree};
use vstd::prelude::*;

verus! {

/// The hash function has no collisions among the byte strings `inputs`, and gives `size` bytes for each of them.
pub open spec fn collision_free<H: Digest>(inputs: Set<Seq<u8>>, size: nat) -> bool {
    &&& forall|x: Seq<u8>, y: Seq<u8>|
        #![trigger H::hash(x), H::hash(y)]
        inputs.contains(x) && inputs.contains(y) && H::hash(x) == H::hash(y) ==> x == y
    &&& forall|x: Seq<u8>| #[trigger] inputs.contains(x) ==> H::hash(x).len() == size
}

/// All that is hashed for the nodes of a trie is among the byte strings `inputs`, and the digests of its hidden
/// parts have `size` bytes.
pub open spec fn hashed_from<T: Digestible, H: Digest>(t: Tree<T>, inputs: Set<Seq<u8>>, size: nat) -> bool
    decreases t,
{
    match t {
        Tree::Empty => inputs.contains(Seq::empty()),
        Tree::Leaf { digest, key, value } => {
            &&& inputs.contains(key)
            &&& inputs.contains(value.encoding())
            &&& inputs.contains(H::hash(key) + H::hash(value.encoding()))
        },
        Tree::Opaque { digest, key, mask } => digest.len() == size,
        Tree::Branch { key, mask, children } => {
            &&& inputs.contains(branch_encoding(key, mask, digests_of::<T, H>(children)))
            &&& forall|i: int|
                0 <= i < children.len() ==> hashed_from::<T, H>(#[trigger] children[i], inputs, size)
        },
    }
}

/// The search for the key `k` ends at an empty slot, at a leaf or at a branch: not at a hidden part.
pub open spec fn settled<T>(t: Tree<T>, w: int, off: int, k: Seq<u8>) -> bool
    decreases t,
{
    match t {
        Tree::Opaque { .. } => false,
        Tree::Branch { key, mask, children } => if t.covers(off, k) && k.len() >= key.len() && t.slot(w, k)
            < children.len() {
            settled(children[t.slot(w, k)], w, t.start() + w, t.rest(k))
        } else {
            true
        },
        _ => true,
    }
}

/// The search for a key that is stored ends at its leaf.
pub proof fn lemma_stored_settled<T>(t: Tree<T>, w: int, off: int, k: Seq<u8>)
    requires
        t.value_at(w, off, k) is Some,
    ensures
        settled(t, w, off, k),
    decreases t,
{
    match t {
        Tree::Branch { key, mask, children } => {
            let s = t.slot(w, k);
            lemma_stored_settled(children[s], w, t.start() + w, t.rest(k));
        },
        _ => {},
    }
}

/// A search that ends at no hidden part tells whether the key is present.
pub proof fn lemma_settled_known<T>(t: Tree<T>, w: int, off: int, k: Seq<u8>)
    requires
        settled(t, w, off, k),
    ensures
        t.stub_at(w, off, k) is None,
    decreases t,
{
    match t {
        Tree::Branch { key, mask, children } => {
            let s = t.slot(w, k);
            if t.covers(off, k) && k.len() >= key.len() && s < children.len() {
                lemma_settled_known(children[s], w, t.start() + w, t.rest(k));
            }
        },
        _ => {},
    }
}

/// The digest of a trie has the size of a digest.
proof fn lemma_digest_size<T: Digestible, H: Digest>(t: Tree<T>, inputs: Set<Seq<u8>>, size: nat)
    requires
        collision_free::<H>(inputs, size),
        hashed_from::<T, H>(t, inputs, size),
        fresh::<T, H>(t),
    ensures
        digest_of::<T, H>(t).len() == size,
{
}

/// The length of several digests one after the other.
proof fn lemma_concat_len(parts: Seq<Seq<u8>>, size: nat)
    requires
        forall|i: int| 0 <= i < parts.len() ==> (#[trigger] parts[i]).len() == size,
    ensures
        concat(parts).len() == parts.len() * size,
    decreases parts.len(),
{
    if parts.len() > 0 {
        lemma_concat_len(parts.drop_last(), size);
        let n = parts.len() as int;
        let d = size as int;
        assert((n - 1) * d + d == n * d) by (nonlinear_arith);
    }
}

/// Byte strings of one size can be told from what they are one after the other.
proof fn lemma_concat_injective(a: Seq<Seq<u8>>, b: Seq<Seq<u8>>, size: nat)
    requires
        a.len() == b.len(),
        forall|i: int| 0 <= i < a.len() ==> (#[trigger] a[i]).len() == size,
        forall|i: int| 0 <= i < b.len() ==> (#[trigger] b[i]).len() == size,
        concat(a) == concat(b),
    ensures
        a == b,
    decreases a.len(),
{
    if a.len() > 0 {
        let x = concat(a.drop_last());
        let y = concat(b.drop_last());
        lemma_concat_len(a.drop_last(), size);
        lemma_concat_len(b.drop_last(), size);
        assert(x =~= (x + a.last()).take(x.len() as int));
        assert(y =~= (y + b.last()).take(y.len() as int));
        assert(a.last() =~= (x + a.last()).skip(x.len() as int));
        assert(b.last() =~= (y + b.last()).skip(y.len() as int));
        lemma_concat_injective(a.drop_last(), b.drop_last(), size);
        assert(a =~= a.drop_last().push(a.last()));
        assert(b =~= b.drop_last().push(b.last()));
    }
    assert(a =~= b);
}

/// What is hashed for branches can be told apart.
proof fn lemma_branch_encoding(
    k: Seq<u8>,
    m: u8,
    a: Seq<Seq<u8>>,
    l: Seq<u8>,
    n: u8,
    b: Seq<Seq<u8>>,
    size: nat,
)
    requires
        a.len() == b.len(),
        forall|i: int| 0 <= i < a.len() ==> (#[trigger] a[i]).len() == size,
        forall|i: int| 0 <= i < b.len() ==> (#[trigger] b[i]).len() == size,
        branch_encoding(k, m, a) == branch_encoding(l, n, b),
    ensures
        k == l,
        m == n,
        a == b,
{
    lemma_concat_len(a, size);
    lemma_concat_len(b, size);
    let x = branch_encoding(k, m, a);
    let y = branch_encoding(l, n, b);
    assert(x.len() == k.len() + 1 + concat(a).len() && y.len() == l.len() + 1 + concat(b).len());
    assert(k.push(m) =~= x.take(k.len() as int + 1));
    assert(l.push(n) =~= y.take(l.len() as int + 1));
    assert(k =~= k.push(m).take(k.len() as int));
    assert(l =~= k.push(m).take(k.len() as int));
    assert(k.push(m)[k.len() as int] == l.push(n)[k.len() as int]);
    assert(concat(a) =~= x.skip(k.len() as int + 1));
    assert(concat(b) =~= y.skip(l.len() as int + 1));
    lemma_concat_injective(a, b, size);
}

/// What is hashed for a leaf is two digests long, which tell its key and the encoding of its value.
proof fn lemma_leaf_input<T: Digestible, H: Digest>(
    t: Tree<T>,
    w: int,
    off: int,
    room: int,
    partial: bool,
    inputs: Set<Seq<u8>>,
    size: nat,
)
    requires
        t is Leaf,
        t.wf(w, off, room, partial),
        collision_free::<H>(inputs, size),
        hashed_from::<T, H>(t, inputs, size),
    ensures
        (H::hash(t.key()) + H::hash(t->value.encoding())).len() == 2 * size,
        inputs.contains(Seq::empty()) ==> size >= 1,
{
    if size == 0 && inputs.contains(Seq::empty()) {
        assert(H::hash(t.key()) =~= H::hash(Seq::empty()));
    }
}

/// A trie that hides nothing holds under a key what every trie with the same digest does, up to its encoding, if the
/// search for the key ends at no hidden part there.
pub proof fn lemma_same_digest<T: Digestible, H: Digest>(
    p: Tree<T>,
    t: Tree<T>,
    w: int,
    off: int,
    room: int,
    partial: bool,
    inputs: Set<Seq<u8>>,
    size: nat,
    k: Seq<u8>,
)
    requires
        aligned(w, off),
        p.wf(w, off, room, partial),
        t.wf(w, off, room, false),
        fresh::<T, H>(p),
        fresh::<T, H>(t),
        collision_free::<H>(inputs, size),
        hashed_from::<T, H>(p, inputs, size),
        hashed_from::<T, H>(t, inputs, size),
        digest_of::<T, H>(p) == digest_of::<T, H>(t),
        settled(p, w, off, k),
    ensures
        match p.value_at(w, off, k) {
            Some(v) => t.value_at(w, off, k) is Some && t.value_at(w, off, k)->0.encoding() == v.encoding(),
            None => t.value_at(w, off, k) is None,
        },
    decreases p,
{
    if p is Leaf {
        lemma_leaf_input::<T, H>(p, w, off, room, partial, inputs, size);
    }
    if t is Leaf {
        lemma_leaf_input::<T, H>(t, w, off, room, false, inputs, size);
    }
    if p is Branch {
        lemma_branch_size::<T, H>(p, w, off, room, partial, inputs, size);
    }
    if t is Branch {
        lemma_branch_size::<T, H>(t, w, off, room, false, inputs, size);
    }
    let x = node_input::<T, H>(p);
    let y = node_input::<T, H>(t);
    assert(inputs.contains(x) && inputs.contains(y));
    assert(H::hash(x) == H::hash(y));
    assert(x == y);
    match (p, t) {
        (Tree::Leaf { key: a, value: v, .. }, Tree::Leaf { key: b, value: u, .. }) => {
            assert(H::hash(a) =~= x.take(size as int));
            assert(H::hash(b) =~= y.take(size as int));
            assert(H::hash(v.encoding()) =~= x.skip(size as int));
            assert(H::hash(u.encoding()) =~= y.skip(size as int));
        },
        (Tree::Branch { key, mask, children }, Tree::Branch { key: l, mask: n, children: d }) => {
            lemma_branch_encoding(key, mask, digests_of::<T, H>(children), l, n, digests_of::<T, H>(d), size);
            p.lemma_branch_bounds(w, off, room, partial);
            assert(t.covers(off, k) == p.covers(off, k));
            if p.covers(off, k) && k.len() >= key.len() {
                let s = p.slot(w, k);
                let end = p.start() + w;
                let index = key.len() - 1;
                assert(t.slot(w, k) == s && t.rest(k) == p.rest(k));
                assert(p.value_at(w, off, k) == children[s].value_at(w, end, p.rest(k)));
                assert(t.value_at(w, off, k) == d[s].value_at(w, end, p.rest(k)));
                assert(digests_of::<T, H>(children)[s] == digests_of::<T, H>(d)[s]);
                lemma_same_digest::<T, H>(
                    children[s],
                    d[s],
                    w,
                    end,
                    room - index,
                    partial,
                    inputs,
                    size,
                    p.rest(k),
                );
            }
        },
        _ => {},
    }
}

/// What is hashed for the first node of a trie.
spec fn node_input<T: Digestible, H: Digest>(t: Tree<T>) -> Seq<u8> {
    match t {
        Tree::Leaf { digest, key, value } => H::hash(key) + H::hash(value.encoding()),
        Tree::Branch { key, mask, children } => branch_encoding(key, mask, digests_of::<T, H>(children)),
        _ => Seq::empty(),
    }
}

/// The digests of the children of a branch, and the length of what is hashed for it.
proof fn lemma_branch_size<T: Digestible, H: Digest>(
    t: Tree<T>,
    w: int,
    off: int,
    room: int,
    partial: bool,
    inputs: Set<Seq<u8>>,
    size: nat,
)
    requires
        valid_width(w),
        t is Branch,
        t.wf(w, off, room, partial),
        fresh::<T, H>(t),
        collision_free::<H>(inputs, size),
        hashed_from::<T, H>(t, inputs, size),
    ensures
        digests_of::<T, H>(t->children).len() == low_bits(w) + 1,
        forall|i: int|
            0 <= i < t->children.len() ==> (#[trigger] digests_of::<T, H>(t->children)[i]).len() == size,
        branch_encoding(t.key(), t.tail(), digests_of::<T, H>(t->children)).len() >= 2 + 2 * size,
{
    let ds = digests_of::<T, H>(t->children);
    assert forall|i: int| 0 <= i < t->children.len() implies (#[trigger] ds[i]).len() == size by {
        assert(fresh::<T, H>(t->children[i]));
        lemma_digest_size::<T, H>(t->children[i], inputs, size);
    }
    lemma_concat_len(ds, size);
    lemma_low_bits(w);
    lemma_bits_of_zero();
    assert(byte_bit(low_bits(w), 0));
    let n = ds.len() as int;
    let d = size as int;
    assert(n * d >= 2 * d) by (nonlinear_arith)
        requires
            n >= 2,
            d >= 0,
    ;
}

}
