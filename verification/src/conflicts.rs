//! Which keys stand in the way of others.
use crate::bitseqops::{bit_at, bit_len, lemma_trailing_zeros, same_bits};
use crate::canonical::{holds, lemma_held, lemma_lifted, lemma_member, lifted, member};
use crate::tree::{aligned, changed_at, lemma_chunk_in_seq, lemma_skip_bits, same_key, Tree};
use vstd::prelude::*;

verus! {

/// One of the two keys is a proper prefix of the other, where the bits before `off` do not count.
pub open spec fn conflicts(off: int, j: Seq<u8>, k: Seq<u8>) -> bool {
    ||| j.len() < k.len() && same_bits(j, k, off, bit_len(j))
    ||| k.len() < j.len() && same_bits(k, j, off, bit_len(k))
}

/// A trie that may not hide anything hides nothing.
pub proof fn lemma_no_stub<T>(t: Tree<T>, w: int, off: int, room: int, j: Seq<u8>)
    requires
        aligned(w, off),
        t.wf(w, off, room, false),
    ensures
        t.stub_at(w, off, j) is None,
    decreases t,
{
    if t is Branch {
        t.lemma_branch_bounds(w, off, room, false);
        let s = t.slot(w, j);
        lemma_no_stub(t->children[s], w, t.start() + w, room - (t.key().len() - 1), t.rest(j));
    }
}

/// A key of which a key is a prefix that is stored or leads into a hidden part, or that is a prefix of one, cannot be
/// set.
pub proof fn lemma_conflict_met<T>(t: Tree<T>, w: int, off: int, room: int, partial: bool, j: Seq<u8>, k: Seq<u8>)
    requires
        aligned(w, off),
        t.wf(w, off, room, partial),
        holds(t, w, off, j),
        conflicts(off, j, k),
    ensures
        t.fate(w, off, k) is Inner || t.fate(w, off, k) is Prefix,
    decreases t,
{
    lemma_trailing_zeros(t.tail());
    lemma_held(t, w, off, room, partial, j);
    assert forall|i: int| off <= i < bit_len(j) && i < bit_len(k) implies #[trigger] bit_at(j, i) == bit_at(k, i) by {}
    if k.len() * 8 >= t.key_bits() {
        assert(t.covers(off, k)) by {
            assert forall|i: int| off <= i < t.key_bits() implies #[trigger] bit_at(k, i) == bit_at(t.key(), i) by {
                assert(bit_at(j, i) == bit_at(t.key(), i));
            }
        }
        if t is Branch && k.len() * 8 > t.key_bits() {
            t.lemma_branch_bounds(w, off, room, partial);
            let index = t.key().len() - 1;
            lemma_chunk_in_seq(j, k, index, t.start(), w);
            assert(same_bits(j, k, index * 8 + t.start(), index * 8 + t.start() + w));
            assert(t.slot(w, j) == t.slot(w, k));
            lemma_skip_bits(j, index);
            lemma_skip_bits(k, index);
            let r = t.rest(j);
            let q = t.rest(k);
            let end = t.start() + w;
            assert(conflicts(end, r, q)) by {
                assert forall|i: int| end <= i < bit_len(r) && i < bit_len(q) implies #[trigger] bit_at(r, i) == bit_at(
                    q,
                    i,
                ) by {
                    assert(bit_at(j, index * 8 + i) == bit_at(k, index * 8 + i));
                }
                assert forall|i: int| end <= i < bit_len(r) && i < bit_len(q) implies bit_at(r, i) == #[trigger] bit_at(
                    q,
                    i,
                ) by {
                    assert(bit_at(r, i) == bit_at(q, i));
                }
            }
            lemma_conflict_met(t->children[t.slot(w, j)], w, end, room - index, partial, r, q);
        }
    } else {
        assert(same_bits(k, t.key(), off, bit_len(k))) by {
            assert forall|i: int| off <= i < bit_len(k) implies #[trigger] bit_at(k, i) == bit_at(t.key(), i) by {
                assert(bit_at(j, i) == bit_at(t.key(), i));
                assert(bit_at(j, i) == bit_at(k, i));
            }
        }
    }
}

/// A key that stands in the way of the key `k`, where there is one and `k` itself does not lead into a hidden part: it
/// is stored, or leads into a hidden part behind the end of `k`.
pub proof fn lemma_conflict_exists<T>(t: Tree<T>, w: int, off: int, room: int, partial: bool, k: Seq<u8>) -> (j: Seq<
    u8,
>)
    requires
        aligned(w, off),
        t.wf(w, off, room, partial),
        t.fate(w, off, k) is Inner || t.fate(w, off, k) is Prefix,
        t.stub_at(w, off, k) is None,
        off <= bit_len(k),
    ensures
        holds(t, w, off, j),
        conflicts(off, j, k),
        j.len() < k.len() ==> t.value_at(w, off, j) is Some,
        t.fate(w, off, k) is Inner ==> k.len() < j.len(),
    decreases t,
{
    lemma_trailing_zeros(t.tail());
    let m = member(t, w);
    lemma_member(t, w, off, room, partial);
    lemma_held(t, w, off, room, partial, m);
    if t is Branch && t.covers(off, k) && k.len() * 8 > t.key_bits() {
        t.lemma_branch_bounds(w, off, room, partial);
        let s = t.slot(w, k);
        let index = t.key().len() - 1;
        let end = t.start() + w;
        let q = t.rest(k);
        let r = lemma_conflict_exists(t->children[s], w, end, room - index, partial, q);
        lemma_held(t->children[s], w, end, room - index, partial, r);
        let j = lifted(t, w, s, r);
        lemma_lifted(t, w, off, room, partial, s, r);
        lemma_skip_bits(j, index);
        lemma_skip_bits(k, index);
        lemma_chunk_in_seq(j, k, index, t.start(), w);
        assert forall|i: int| off <= i < bit_len(j) && i < bit_len(k) implies #[trigger] bit_at(j, i) == bit_at(
            k,
            i,
        ) by {
            if i < t.key_bits() {
                assert(bit_at(j, i) == bit_at(t.key(), i));
                assert(bit_at(k, i) == bit_at(t.key(), i));
            } else if i >= t.key_bits() + w {
                let p = i - index * 8;
                assert(bit_at(t.rest(j), p) == bit_at(r, p));
                assert(bit_at(r, p) == bit_at(q, p));
            }
        }
        assert forall|i: int| off <= i < bit_len(j) && i < bit_len(k) implies bit_at(j, i) == #[trigger] bit_at(
            k,
            i,
        ) by {
            assert(bit_at(j, i) == bit_at(k, i));
        }
        j
    } else {
        assert forall|i: int| off <= i < bit_len(m) && i < bit_len(k) && i < t.key_bits() implies #[trigger] bit_at(
            m,
            i,
        ) == bit_at(k, i) by {
            assert(bit_at(m, i) == bit_at(t.key(), i));
            assert(bit_at(k, i) == bit_at(t.key(), i));
        }
        assert forall|i: int| off <= i < bit_len(m) && i < bit_len(k) && i < t.key_bits() implies bit_at(m, i)
            == #[trigger] bit_at(k, i) by {
            assert(bit_at(m, i) == bit_at(k, i));
        }
        m
    }
}

/// A probe meets a leaf exactly where the key is stored.
pub proof fn lemma_occupied_fate<T>(t: Tree<T>, w: int, off: int, room: int, partial: bool, k: Seq<u8>)
    requires
        aligned(w, off),
        t.wf(w, off, room, partial),
    ensures
        t.fate(w, off, k) is Occupied <==> t.value_at(w, off, k) is Some,
    decreases t,
{
    lemma_trailing_zeros(t.tail());
    if t is Branch {
        t.lemma_branch_bounds(w, off, room, partial);
        lemma_occupied_fate(
            t->children[t.slot(w, k)],
            w,
            t.start() + w,
            room - (t.key().len() - 1),
            partial,
            t.rest(k),
        );
    }
}

/// A key that starts with a stored key does not lead into a hidden part.
pub proof fn lemma_stored_no_stub<T>(t: Tree<T>, w: int, off: int, room: int, partial: bool, j: Seq<u8>, k: Seq<u8>)
    requires
        aligned(w, off),
        t.wf(w, off, room, partial),
        t.value_at(w, off, j) is Some,
        j.len() <= k.len(),
        same_bits(j, k, off, bit_len(j)),
    ensures
        t.stub_at(w, off, k) is None,
    decreases t,
{
    if t is Branch {
        t.lemma_branch_bounds(w, off, room, partial);
        let index = t.key().len() - 1;
        let end = t.start() + w;
        lemma_chunk_in_seq(j, k, index, t.start(), w);
        assert(same_bits(j, k, index * 8 + t.start(), index * 8 + t.start() + w));
        lemma_skip_bits(j, index);
        lemma_skip_bits(k, index);
        let r = t.rest(j);
        let q = t.rest(k);
        assert(same_bits(r, q, end, bit_len(r))) by {
            assert forall|i: int| end <= i < bit_len(r) implies #[trigger] bit_at(r, i) == bit_at(q, i) by {
                assert(bit_at(j, index * 8 + i) == bit_at(k, index * 8 + i));
            }
            assert forall|i: int| end <= i < bit_len(r) implies bit_at(r, i) == #[trigger] bit_at(q, i) by {
                assert(bit_at(r, i) == bit_at(q, i));
            }
        }
        lemma_stored_no_stub(t->children[t.slot(w, j)], w, end, room - index, partial, r, q);
    }
}

/// A key that leads into a hidden part cannot be set.
pub proof fn lemma_stub_met<T>(t: Tree<T>, w: int, off: int, room: int, partial: bool, k: Seq<u8>)
    requires
        aligned(w, off),
        t.wf(w, off, room, partial),
        t.stub_at(w, off, k) is Some,
    ensures
        t.fate(w, off, k) is Inner || t.fate(w, off, k) is Prefix,
    decreases t,
{
    if t is Branch {
        t.lemma_branch_bounds(w, off, room, partial);
        lemma_stub_met(
            t->children[t.slot(w, k)],
            w,
            t.start() + w,
            room - (t.key().len() - 1),
            partial,
            t.rest(k),
        );
    }
}

/// Nothing stands in the way of a key under which a changed trie holds a value.
pub proof fn lemma_set_fate<T>(was: Tree<T>, now: Tree<T>, w: int, room: int, partial: bool, k: Seq<u8>, v: T)
    requires
        aligned(w, 0),
        was.wf(w, 0, room, partial),
        now.wf(w, 0, room, partial),
        changed_at(was, now, w, 0, k, Some(v)),
    ensures
        was.fate(w, 0, k) is Vacant || was.fate(w, 0, k) is Occupied,
{
    assert(same_key(0, k, k));
    assert(now.value_at(w, 0, k) == Some(v));
    lemma_stored_no_stub(now, w, 0, room, partial, k, k);
    assert(now.stub_at(w, 0, k) == was.stub_at(w, 0, k));
    if was.fate(w, 0, k) is Inner || was.fate(w, 0, k) is Prefix {
        let j = lemma_conflict_exists(was, w, 0, room, partial, k);
        assert(!same_key(0, k, j));
        assert(now.value_at(w, 0, j) == was.value_at(w, 0, j));
        assert(now.stub_at(w, 0, j) == was.stub_at(w, 0, j));
        lemma_occupied_fate(now, w, 0, room, partial, j);
        lemma_occupied_fate(now, w, 0, room, partial, k);
        if k.len() < j.len() {
            lemma_stored_no_stub(now, w, 0, room, partial, k, j);
            lemma_conflict_met(now, w, 0, room, partial, k, j);
        } else {
            lemma_conflict_met(now, w, 0, room, partial, j, k);
        }
    }
}

}
