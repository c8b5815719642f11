//! Tries that hold the same are equal.
use crate::bitseqops::lemma_trailing_zeros;
use crate::canonical::{holds, lemma_canonical, lemma_held, lemma_lifted, lifted, same_contents, same_structure};
use crate::digestible::W;
use crate::tree::{aligned, equal_trees, lift_stub, two_occupied, Tree};
use vstd::prelude::*;
use vstd::std_specs::cmp::PartialEqSpec;

verus! {

/// A trie without its values and without the digests of its leaves.
pub open spec fn shape<T>(t: Tree<T>) -> Tree<()>
    decreases t,
{
    match t {
        Tree::Empty => Tree::Empty,
        Tree::Leaf { key, .. } => Tree::Leaf { digest: Seq::empty(), key, value: () },
        Tree::Opaque { digest, key, mask } => Tree::Opaque { digest, key, mask },
        Tree::Branch { key, mask, children } => Tree::Branch {
            key,
            mask,
            children: Seq::new(
                children.len(),
                |i: int|
                    if 0 <= i < children.len() {
                        shape(children[i])
                    } else {
                        Tree::Empty
                    },
            ),
        },
    }
}

/// The shape of a well formed trie is well formed.
proof fn lemma_shape_wf<T>(t: Tree<T>, w: int, off: int, room: int, partial: bool)
    requires
        t.wf(w, off, room, partial),
    ensures
        shape(t).wf(w, off, room, partial),
        shape(t) is Empty <==> t is Empty,
    decreases t,
{
    let s = shape(t);
    if !(t is Empty) {
        assert(s.fragment_wf(w, off, room) && s.start() == t.start());
    }
    if t is Branch {
        let children = t->children;
        let inner = room - (t.key().len() - 1);
        assert forall|i: int| 0 <= i < children.len() implies (#[trigger] s->children[i]).wf(
            w,
            t.start() + w,
            inner,
            partial,
        ) && (s->children[i] is Empty <==> children[i] is Empty) by {
            lemma_shape_wf(children[i], w, t.start() + w, inner, partial);
        }
        let (i, j) = choose|i: int, j: int|
            #![trigger children[i], children[j]]
            0 <= i < j < children.len() && !(children[i] is Empty) && !(children[j] is Empty);
        assert(!(s->children[i] is Empty) && !(s->children[j] is Empty));
        assert(two_occupied(s->children));
    }
}

/// The shape of a trie holds something under the keys under which the trie does, and hides the same.
proof fn lemma_shape_contents<T>(t: Tree<T>, w: int, off: int, k: Seq<u8>)
    ensures
        shape(t).value_at(w, off, k) is Some <==> t.value_at(w, off, k) is Some,
        shape(t).stub_at(w, off, k) == t.stub_at(w, off, k),
    decreases t,
{
    let s = shape(t);
    assert(s.covers(off, k) == t.covers(off, k));
    if t is Branch {
        assert(s.slot(w, k) == t.slot(w, k) && s.rest(k) == t.rest(k));
        if t.slot(w, k) < t->children.len() {
            lemma_shape_contents(t->children[t.slot(w, k)], w, t.start() + w, t.rest(k));
            assert(s->children[t.slot(w, k)] == shape(t->children[t.slot(w, k)]));
        }
    }
}

/// Tries of the same shape are equal where the values that they hold under each key are.
proof fn lemma_shape_equal<T: PartialEq>(
    a: Tree<T>,
    b: Tree<T>,
    w: int,
    off: int,
    room: int,
    more: int,
    p: bool,
    q: bool,
)
    requires
        aligned(w, off),
        a.wf(w, off, room, p),
        b.wf(w, off, more, q),
        same_structure(shape(a), shape(b)),
        forall|j: Seq<u8>|
            #![trigger a.value_at(w, off, j)]
            a.value_at(w, off, j) is Some && b.value_at(w, off, j) is Some ==> a.value_at(w, off, j)->0.eq_spec(
                &b.value_at(w, off, j)->0,
            ),
    ensures
        equal_trees(a, b),
    decreases a,
{
    lemma_trailing_zeros(a.tail());
    if a is Leaf {
        let j = a.key();
        assert(a.covers(off, j) && b.covers(off, j));
        assert(a.value_at(w, off, j) == Some(a->value));
        assert(b.value_at(w, off, j) == Some(b->value));
    }
    if a is Branch {
        a.lemma_branch_bounds(w, off, room, p);
        b.lemma_branch_bounds(w, off, more, q);
        let end = a.start() + w;
        let index = a.key().len() - 1;
        assert forall|i: int| 0 <= i < a->children.len() implies equal_trees(
            #[trigger] a->children[i],
            b->children[i],
        ) by {
            let c = a->children[i];
            let d = b->children[i];
            assert(shape(a)->children[i] == shape(c) && shape(b)->children[i] == shape(d));
            assert forall|r: Seq<u8>|
                #![trigger c.value_at(w, end, r)]
                c.value_at(w, end, r) is Some && d.value_at(w, end, r) is Some implies c.value_at(w, end, r)->0.eq_spec(
                &d.value_at(w, end, r)->0,
            ) by {
                assert(holds(c, w, end, r));
                lemma_held(c, w, end, room - index, p, r);
                let j = lifted(a, w, i, r);
                assert(j == lifted(b, w, i, r));
                lemma_lifted(a, w, off, room, p, i, r);
                lemma_lifted(b, w, off, more, q, i, r);
                assert(a.value_at(w, off, j) == c.value_at(w, end, r));
            }
            lemma_shape_equal(c, d, w, end, room - index, more - index, p, q);
        }
    }
}

/// Well formed tries that hold equal values under the same keys, and hide the same, are equal.
pub proof fn lemma_same_equal<T: PartialEq>(
    a: Tree<T>,
    b: Tree<T>,
    w: int,
    off: int,
    room: int,
    more: int,
    p: bool,
    q: bool,
)
    requires
        aligned(w, off),
        a.wf(w, off, room, p),
        b.wf(w, off, more, q),
        forall|j: Seq<u8>| #[trigger] a.stub_at(w, off, j) == b.stub_at(w, off, j),
        forall|j: Seq<u8>|
            #![trigger a.value_at(w, off, j)]
            #![trigger b.value_at(w, off, j)]
            match (a.value_at(w, off, j), b.value_at(w, off, j)) {
                (Some(x), Some(y)) => x.eq_spec(&y),
                (None, None) => true,
                _ => false,
            },
    ensures
        equal_trees(a, b),
{
    let x = shape(a);
    let y = shape(b);
    lemma_shape_wf(a, w, off, room, p);
    lemma_shape_wf(b, w, off, more, q);
    assert(same_contents(x, y, w, off)) by {
        assert forall|j: Seq<u8>|
            #![trigger x.value_at(w, off, j)]
            #![trigger y.value_at(w, off, j)]
            #![trigger x.stub_at(w, off, j)]
            #![trigger y.stub_at(w, off, j)]
            x.value_at(w, off, j) == y.value_at(w, off, j) && x.stub_at(w, off, j) == y.stub_at(w, off, j) by {
            lemma_shape_contents(a, w, off, j);
            lemma_shape_contents(b, w, off, j);
            assert(a.stub_at(w, off, j) == b.stub_at(w, off, j));
            assert(a.value_at(w, off, j) is Some <==> b.value_at(w, off, j) is Some);
        }
    }
    lemma_canonical(x, y, w, off, room, more, p, q);
    lemma_shape_equal(a, b, w, off, room, more, p, q);
}

/// Equal tries hold equal values under the same keys; where both hide a part, its digest is the same.
pub proof fn lemma_equal_same<T: PartialEq>(a: Tree<T>, b: Tree<T>, w: int, off: int, k: Seq<u8>)
    requires
        equal_trees(a, b),
    ensures
        match (a.value_at(w, off, k), b.value_at(w, off, k)) {
            (Some(x), Some(y)) => x.eq_spec(&y),
            (None, None) => true,
            _ => false,
        },
        a.stub_at(w, off, k) is Some && b.stub_at(w, off, k) is Some ==> a.stub_at(w, off, k)->0.digest == b.stub_at(
            w,
            off,
            k,
        )->0.digest,
    decreases a,
{
    if a is Branch {
        assert(a.covers(off, k) == b.covers(off, k));
        assert(a.slot(w, k) == b.slot(w, k) && a.rest(k) == b.rest(k));
        if a.slot(w, k) < a->children.len() {
            lemma_equal_same(
                a->children[a.slot(w, k)],
                b->children[a.slot(w, k)],
                w,
                a.start() + w,
                a.rest(k),
            );
            let c = a->children[a.slot(w, k)];
            let d = b->children[a.slot(w, k)];
            let end = a.start() + w;
            if a.covers(off, k) && k.len() >= a.key().len() {
                assert(a.stub_at(w, off, k) == lift_stub(c.stub_at(w, end, a.rest(k)), a.key().len() - 1));
                assert(b.stub_at(w, off, k) == lift_stub(d.stub_at(w, end, a.rest(k)), a.key().len() - 1));
            }
        }
    } else if a is Leaf {
        assert(a.covers(off, k) == b.covers(off, k));
    }
}

/// Wrapped values are equal where the values are.
pub proof fn law_wrapped_values_equal<T: PartialEq>(a: W<T>, b: W<T>)
    ensures
        a.eq_spec(&b) <==> a.0.eq_spec(&b.0),
{
}

}
