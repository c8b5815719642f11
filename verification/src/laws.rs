//! What holds of every trie, and of what the operations on tries do in turn.
use crate::bitseqops::{bit_at, bit_len, lemma_low_bits, radix_bits, same_bits, BitPosition};
use crate::canonical::{lemma_canonical, lemma_fresh_equal, lemma_member, member, same_contents};
use crate::conflicts::{
    conflicts, lemma_conflict_exists, lemma_conflict_met, lemma_no_stub, lemma_occupied_fate, lemma_set_fate,
    lemma_stored_no_stub, lemma_stub_met,
};
use crate::digestible::{Digest, Digestible, HashWitnessValue};
use crate::equality::{lemma_equal_same, lemma_same_equal};
use crate::node::{
    ends_with, probe_at, probed, trees, Complete, Kind, Node, NodeLink, Partial, ProbeResult, TrieMode,
};
use crate::replay::{
    added, lemma_added, lemma_added_digest, lemma_replaced, lemma_replaced_witness, lemma_witness_fresh, replaced,
};
use crate::soundness::{
    collision_free, hashed_from, lemma_same_digest, lemma_settled_known, lemma_stored_settled, settled,
};
use crate::spelling::{cleared, lemma_spelled, lemma_spelled_starts, spells};
use crate::tree::{
    aligned, changed_at, cloned_tree, concat, digest_of, digests_of, equal_trees, fresh, lemma_bits_ext,
    lemma_cloned_contents, lemma_cloned_digest, lemma_cloned_fresh, same_key, two_occupied, Tree,
};
use crate::trie::{updated, valid_key, NodeUpdate, Trie, TrieError};
use crate::witness::{
    goes_to, hides, is_reached, kept, key_set, lemma_hidden_start, lemma_witness_contents, lemma_witness_digest,
    lemma_witness_fate, lemma_witness_hides, lemma_witness_wf, parted_before, reached, represented, witness_of,
    ByClone, ByHash,
};
use vstd::prelude::*;
use vstd::std_specs::cmp::PartialEqSpec;

verus! {

// ---------------------------------------------------------------------------
// Keys
// ---------------------------------------------------------------------------

/// The keys under which a part of a trie holds values fit in its room.
proof fn lemma_key_len<T>(t: Tree<T>, w: int, off: int, room: int, partial: bool, k: Seq<u8>)
    requires
        aligned(w, off),
        t.wf(w, off, room, partial),
        t.value_at(w, off, k) is Some,
    ensures
        1 <= k.len() <= room,
    decreases t,
{
    if t is Branch {
        t.lemma_branch_bounds(w, off, room, partial);
        lemma_key_len(
            t->children[t.slot(w, k)],
            w,
            t.start() + w,
            room - (t.key().len() - 1),
            partial,
            t.rest(k),
        );
    }
}

/// Every key of a trie is neither empty nor longer than the maximum key length.
pub proof fn law_keys_are_valid<T: Digestible, const N: usize, const K: usize, H: Digest, M: TrieMode>(
    t: Trie<T, N, K, H, M>,
    k: Seq<u8>,
)
    requires
        t.wf(),
        t@.dom().contains(k),
    ensures
        valid_key(k, N),
{
    lemma_key_len(t.tree(), radix_bits(K as int), 0, N as int, M::allows_opaque(), k);
}

/// The true key of a value is the concatenation of all key fragments along the path from the root to its leaf.
pub proof fn law_keys_are_concatenations<T: Digestible, const N: usize, const K: usize, H: Digest, M: TrieMode>(
    t: Trie<T, N, K, H, M>,
    k: Seq<u8>,
)
    requires
        t.wf(),
    ensures
        t@.dom().contains(k) <==> spells(t.tree(), radix_bits(K as int), k),
{
    let w = radix_bits(K as int);
    if k.len() >= 1 {
        lemma_spelled(t.tree(), w, 0, N as int, M::allows_opaque(), k);
        lemma_low_bits(0);
        let b = k[0];
        assert(b & !0u8 == b) by (bit_vector);
        assert(cleared(0, k) =~= k);
    } else {
        if t@.dom().contains(k) {
            law_keys_are_valid(t, k);
        }
        if spells(t.tree(), w, k) {
            lemma_spelled_starts(t.tree(), w, 0, N as int, M::allows_opaque(), k);
        }
    }
}

/// The byte string `a` is a prefix of `b` and not equal to it.
pub open spec fn proper_prefix(a: Seq<u8>, b: Seq<u8>) -> bool {
    a.len() < b.len() && b.take(a.len() as int) == a
}

/// One of two byte strings is a proper prefix of the other exactly where they agree on the bits of the shorter one.
proof fn lemma_conflicts(a: Seq<u8>, b: Seq<u8>)
    ensures
        conflicts(0, a, b) <==> proper_prefix(a, b) || proper_prefix(b, a),
{
    lemma_prefix_bits(a, b);
    lemma_prefix_bits(b, a);
}

proof fn lemma_prefix_bits(a: Seq<u8>, b: Seq<u8>)
    ensures
        a.len() < b.len() && same_bits(a, b, 0, bit_len(a)) <==> proper_prefix(a, b),
{
    if a.len() < b.len() {
        let c = b.take(a.len() as int);
        assert forall|i: int| 0 <= i < bit_len(a) implies #[trigger] bit_at(c, i) == bit_at(b, i) by {}
        if same_bits(a, b, 0, bit_len(a)) {
            assert(same_bits(a, c, 0, bit_len(a))) by {
                assert forall|i: int| 0 <= i < bit_len(a) implies #[trigger] bit_at(a, i) == bit_at(c, i) by {
                    assert(bit_at(a, i) == bit_at(b, i));
                }
            }
            lemma_bits_ext(a, c);
        }
        if c == a {
            assert forall|i: int| 0 <= i < bit_len(a) implies #[trigger] bit_at(a, i) == bit_at(b, i) by {
                assert(bit_at(c, i) == bit_at(b, i));
            }
            assert forall|i: int| 0 <= i < bit_len(a) implies bit_at(a, i) == #[trigger] bit_at(b, i) by {
                assert(bit_at(c, i) == bit_at(b, i));
            }
        }
    }
}

/// A key can be set in a complete trie exactly where no stored key is a proper prefix of it, and it is not a
/// proper prefix of a stored key.
pub proof fn law_settable_keys<T: Digestible, const N: usize, const K: usize, H: Digest>(
    t: Trie<T, N, K, H, Complete>,
    k: Seq<u8>,
)
    requires
        t.wf(),
    ensures
        t.fate(k) is Vacant || t.fate(k) is Occupied <==> forall|j: Seq<u8>| #[trigger]
            t@.dom().contains(j) ==> !proper_prefix(j, k) && !proper_prefix(k, j),
{
    let w = radix_bits(K as int);
    if t.fate(k) is Inner || t.fate(k) is Prefix {
        lemma_no_stub(t.tree(), w, 0, N as int, k);
        let j = lemma_conflict_exists(t.tree(), w, 0, N as int, false, k);
        lemma_no_stub(t.tree(), w, 0, N as int, j);
        lemma_conflicts(j, k);
        assert(t@.dom().contains(j));
    } else {
        assert forall|j: Seq<u8>| #[trigger] t@.dom().contains(j) implies !proper_prefix(j, k) && !proper_prefix(
            k,
            j,
        ) by {
            lemma_conflicts(j, k);
            if conflicts(0, j, k) {
                lemma_conflict_met(t.tree(), w, 0, N as int, false, j, k);
            }
        }
    }
}

/// A key that leads to a branch of a complete trie exactly is a proper prefix of a stored key.
pub proof fn law_inner_keys<T: Digestible, const N: usize, const K: usize, H: Digest>(
    t: Trie<T, N, K, H, Complete>,
    k: Seq<u8>,
)
    requires
        t.wf(),
        t.fate(k) is Inner,
    ensures
        exists|j: Seq<u8>| #[trigger] t@.dom().contains(j) && proper_prefix(k, j),
{
    let w = radix_bits(K as int);
    lemma_no_stub(t.tree(), w, 0, N as int, k);
    let j = lemma_conflict_exists(t.tree(), w, 0, N as int, false, k);
    lemma_no_stub(t.tree(), w, 0, N as int, j);
    lemma_conflicts(j, k);
    assert(t@.dom().contains(j));
}

/// A key can be set in a trie exactly where it does not lead into a hidden part, is no proper prefix of a key that
/// does, no stored key is a proper prefix of it, and it is not a proper prefix of a stored key.
pub proof fn law_settable_in_partial_tries<T: Digestible, const N: usize, const K: usize, H: Digest, M: TrieMode>(
    t: Trie<T, N, K, H, M>,
    k: Seq<u8>,
)
    requires
        t.wf(),
    ensures
        t.fate(k) is Vacant || t.fate(k) is Occupied <==> {
            &&& t.stub(k) is None
            &&& forall|j: Seq<u8>| #[trigger] t.stub(j) is Some ==> !proper_prefix(k, j)
            &&& forall|j: Seq<u8>| #[trigger]
                t@.dom().contains(j) ==> !proper_prefix(j, k) && !proper_prefix(k, j)
        },
{
    let w = radix_bits(K as int);
    let partial = M::allows_opaque();
    if t.fate(k) is Inner || t.fate(k) is Prefix {
        if t.stub(k) is None {
            let j = lemma_conflict_exists(t.tree(), w, 0, N as int, partial, k);
            lemma_conflicts(j, k);
            assert(t.lookup(j) is Some || t.stub(j) is Some);
            if t.lookup(j) is Some {
                assert(t@.dom().contains(j));
                assert(proper_prefix(j, k) || proper_prefix(k, j));
            } else {
                assert(t.stub(j) is Some && proper_prefix(k, j));
            }
        }
    } else {
        if t.stub(k) is Some {
            lemma_stub_met(t.tree(), w, 0, N as int, partial, k);
        }
        assert forall|j: Seq<u8>| #[trigger] t@.dom().contains(j) implies !proper_prefix(j, k) && !proper_prefix(
            k,
            j,
        ) by {
            lemma_conflicts(j, k);
            if conflicts(0, j, k) {
                lemma_conflict_met(t.tree(), w, 0, N as int, partial, j, k);
            }
        }
        assert forall|j: Seq<u8>| #[trigger] t.stub(j) is Some implies !proper_prefix(k, j) by {
            lemma_conflicts(j, k);
            if conflicts(0, j, k) {
                lemma_conflict_met(t.tree(), w, 0, N as int, partial, j, k);
            }
        }
    }
}

/// The keys that a trie can hold are those of one byte at least and of its maximum key length at most.
pub proof fn law_key_lengths(k: Seq<u8>, n: usize)
    ensures
        valid_key(k, n) <==> k.len() != 0 && k.len() <= n,
{
}

/// An update of a stored key succeeds and makes of its value what the updater does; an update of another key stores
/// what the updater supplies, or fails and changes nothing.
pub proof fn law_updates<
    T: Digestible,
    U: NodeUpdate<T>,
    const N: usize,
    const K: usize,
    H: Digest,
    M: TrieMode,
>(
    before: Trie<T, N, K, H, M>,
    after: Trie<T, N, K, H, M>,
    updater: U,
    k: Seq<u8>,
    out: Result<(), TrieError>,
)
    requires
        before.wf(),
        updated(updater, before.fate(k), before.lookup(k), after.lookup(k), out),
    ensures
        before@.dom().contains(k) ==> out is Ok && after@.dom().contains(k) && updater.occupied(before@[k], after@[k]),
        !before@.dom().contains(k) && out is Ok ==> after@.dom().contains(k) && updater.vacant(Some(after@[k])),
        out is Err ==> !before@.dom().contains(k) && !after@.dom().contains(k),
        out == Err::<(), TrieError>(TrieError::MissingInitializer) ==> updater.vacant(None),
        out != Err::<(), TrieError>(TrieError::InvalidKeyLength),
{
    law_occupied_keys(before, k);
}

/// An update in a complete trie is refused for its key exactly where the key is a proper prefix of a stored key or a
/// stored key is one of it; where a probe for the key ends at a branch, the key is a proper prefix of a stored key.
pub proof fn law_refused_updates<T: Digestible, U: NodeUpdate<T>, const N: usize, const K: usize, H: Digest>(
    before: Trie<T, N, K, H, Complete>,
    after: Trie<T, N, K, H, Complete>,
    updater: U,
    k: Seq<u8>,
    out: Result<(), TrieError>,
)
    requires
        before.wf(),
        updated(updater, before.fate(k), before.lookup(k), after.lookup(k), out),
    ensures
        out == Err::<(), TrieError>(TrieError::SetOnPrefix) || out == Err::<(), TrieError>(TrieError::UnsupportedSet)
            <==> exists|j: Seq<u8>| #[trigger]
            before@.dom().contains(j) && (proper_prefix(j, k) || proper_prefix(k, j)),
        out == Err::<(), TrieError>(TrieError::UnsupportedSet) ==> exists|j: Seq<u8>| #[trigger]
            before@.dom().contains(j) && proper_prefix(k, j),
{
    law_settable_keys(before, k);
    if before.fate(k) is Inner {
        law_inner_keys(before, k);
    }
}

/// A probe meets a leaf exactly where the key is stored.
pub proof fn law_occupied_keys<T: Digestible, const N: usize, const K: usize, H: Digest, M: TrieMode>(
    t: Trie<T, N, K, H, M>,
    k: Seq<u8>,
)
    requires
        t.wf(),
    ensures
        t.fate(k) is Occupied <==> t@.dom().contains(k),
{
    lemma_occupied_fate(t.tree(), radix_bits(K as int), 0, N as int, M::allows_opaque(), k);
}

// ---------------------------------------------------------------------------
// Shape
// ---------------------------------------------------------------------------

/// Every branch has at least two children.
pub open spec fn compressed<T>(t: Tree<T>) -> bool
    decreases t,
{
    match t {
        Tree::Branch { key, mask, children } => two_occupied(children) && forall|i: int|
            0 <= i < children.len() ==> compressed(#[trigger] children[i]),
        _ => true,
    }
}

proof fn lemma_compressed<T>(t: Tree<T>, w: int, off: int, room: int, partial: bool)
    requires
        t.wf(w, off, room, partial),
    ensures
        compressed(t),
    decreases t,
{
    match t {
        Tree::Branch { key, mask, children } => {
            assert forall|i: int| 0 <= i < children.len() implies compressed(#[trigger] children[i]) by {
                lemma_compressed(children[i], w, t.start() + w, room - (key.len() - 1), partial);
            }
        },
        _ => {},
    }
}

/// Tries are compressed: single-child nodes are merged with their parents.
pub proof fn law_tries_are_compressed<T: Digestible, const N: usize, const K: usize, H: Digest, M: TrieMode>(
    t: Trie<T, N, K, H, M>,
)
    requires
        t.wf(),
    ensures
        compressed(t.tree()),
{
    lemma_compressed(t.tree(), radix_bits(K as int), 0, N as int, M::allows_opaque());
}

/// A complete trie hides nothing: the presence of every key is known.
pub proof fn law_complete_tries_hide_nothing<T: Digestible, const N: usize, const K: usize, H: Digest>(
    t: Trie<T, N, K, H, Complete>,
    k: Seq<u8>,
)
    requires
        t.wf(),
    ensures
        t.stub(k) is None,
        t.presence(k) == Some(t@.dom().contains(k)),
{
    lemma_no_stub(t.tree(), radix_bits(K as int), 0, N as int, k);
}

/// A partial trie never tells that a key is present under which nothing is stored, or absent where something is.
pub proof fn law_presence<T: Digestible, const N: usize, const K: usize, H: Digest, M: TrieMode>(
    t: Trie<T, N, K, H, M>,
    k: Seq<u8>,
)
    ensures
        t.presence(k) == Some(true) ==> t@.dom().contains(k),
        t.presence(k) == Some(false) ==> !t@.dom().contains(k),
        t.presence(k) is None <==> t.stub(k) is Some,
{
}

/// What is reported of a key: an error where its length is invalid; that its presence is unknown where it leads into a
/// hidden part and something was expected of it; that its presence is unexpected where it leads into none and is not
/// what was expected; and nothing where all is as expected.
pub proof fn law_verdicts<T: Digestible, const N: usize, const K: usize, H: Digest, M: TrieMode>(
    t: Trie<T, N, K, H, M>,
    k: Seq<u8>,
    expected: Option<bool>,
)
    ensures
        t.verdict(k, expected) is Err <==> k.len() == 0 || k.len() > N,
        t.verdict(k, expected) == Ok::<Option<bool>, TrieError>(Some(false)) <==> 1 <= k.len() <= N && t.stub(k) is Some
            && expected is Some,
        t.verdict(k, expected) == Ok::<Option<bool>, TrieError>(Some(true)) <==> 1 <= k.len() <= N && t.stub(k) is None
            && expected != Some(t@.dom().contains(k)),
        t.verdict(k, expected) == Ok::<Option<bool>, TrieError>(None) <==> 1 <= k.len() <= N && if t.stub(k) is Some {
            expected is None
        } else {
            expected == Some(t@.dom().contains(k))
        },
{
}

/// In a complete trie the presence of no key is unknown: a verdict is an error, or tells whether the key is stored as
/// expected.
pub proof fn law_complete_tries_know_all<T: Digestible, const N: usize, const K: usize, H: Digest>(
    t: Trie<T, N, K, H, Complete>,
    k: Seq<u8>,
    expected: Option<bool>,
)
    requires
        t.wf(),
    ensures
        t.verdict(k, expected) != Ok::<Option<bool>, TrieError>(Some(false)),
        1 <= k.len() <= N ==> t.verdict(k, expected) == Ok::<Option<bool>, TrieError>(
            if expected == Some(t@.dom().contains(k)) {
                None
            } else {
                Some(true)
            },
        ),
{
    law_complete_tries_hide_nothing(t, k);
}

// ---------------------------------------------------------------------------
// Identity
// ---------------------------------------------------------------------------

/// What a trie holds determines its structure and its digest, whatever the order of the operations that led to it.
pub proof fn law_contents_determine_digest<
    T: Digestible,
    const N: usize,
    const K: usize,
    H: Digest,
    A: TrieMode,
    B: TrieMode,
>(a: Trie<T, N, K, H, A>, b: Trie<T, N, K, H, B>)
    requires
        a.wf(),
        b.wf(),
        a.fresh(),
        b.fresh(),
        a@ == b@,
        forall|k: Seq<u8>| #[trigger] a.stub(k) == b.stub(k),
    ensures
        a.tree() == b.tree(),
        a.root_digest() == b.root_digest(),
{
    let w = radix_bits(K as int);
    assert forall|j: Seq<u8>|
        #![trigger a.tree().value_at(w, 0, j)]
        #![trigger b.tree().value_at(w, 0, j)]
        #![trigger a.tree().stub_at(w, 0, j)]
        #![trigger b.tree().stub_at(w, 0, j)]
        a.tree().value_at(w, 0, j) == b.tree().value_at(w, 0, j) && a.tree().stub_at(w, 0, j) == b.tree().stub_at(
            w,
            0,
            j,
        ) by {
        assert(a.stub(j) == b.stub(j));
        assert(a@.dom().contains(j) == b@.dom().contains(j));
        if a@.dom().contains(j) {
            assert(a@[j] == b@[j]);
            assert(a.lookup(j) == Some(a@[j]));
            assert(b.lookup(j) == Some(b@[j]));
        }
    }
    assert(same_contents(a.tree(), b.tree(), w, 0));
    lemma_canonical(
        a.tree(),
        b.tree(),
        w,
        0,
        N as int,
        N as int,
        A::allows_opaque(),
        B::allows_opaque(),
    );
    lemma_fresh_equal::<T, H>(a.tree(), b.tree());
}

/// Complete tries that hold the same values under the same keys have the same digest.
pub proof fn law_equal_contents_equal_digest<T: Digestible, const N: usize, const K: usize, H: Digest>(
    a: Trie<T, N, K, H, Complete>,
    b: Trie<T, N, K, H, Complete>,
)
    requires
        a.wf(),
        b.wf(),
        a.fresh(),
        b.fresh(),
        a@ == b@,
    ensures
        a.tree() == b.tree(),
        a.root_digest() == b.root_digest(),
{
    assert forall|k: Seq<u8>| #[trigger] a.stub(k) == b.stub(k) by {
        law_complete_tries_hide_nothing(a, k);
        law_complete_tries_hide_nothing(b, k);
    }
    law_contents_determine_digest(a, b);
}

/// `p` and `t` have the same digest, and the hash function has no collisions among what is hashed for them.
pub open spec fn same_digest<T: Digestible, const N: usize, const K: usize, H: Digest, A: TrieMode, B: TrieMode>(
    p: Trie<T, N, K, H, A>,
    t: Trie<T, N, K, H, B>,
    inputs: Set<Seq<u8>>,
    size: nat,
) -> bool {
    &&& p.wf() && t.wf()
    &&& p.fresh() && t.fresh()
    &&& p.root_digest() == t.root_digest()
    &&& collision_free::<H>(inputs, size)
    &&& hashed_from::<T, H>(p.tree(), inputs, size)
    &&& hashed_from::<T, H>(t.tree(), inputs, size)
}

/// A value that a trie holds under a key is held under it by every complete trie with the same digest, up to its
/// encoding, where the hash function has no collisions among what is hashed for the two tries.
pub proof fn law_digest_proves_values<T: Digestible, const N: usize, const K: usize, H: Digest, M: TrieMode>(
    p: Trie<T, N, K, H, M>,
    t: Trie<T, N, K, H, Complete>,
    inputs: Set<Seq<u8>>,
    size: nat,
    k: Seq<u8>,
)
    requires
        same_digest(p, t, inputs, size),
        p@.dom().contains(k),
    ensures
        t@.dom().contains(k),
        t@[k].encoding() == p@[k].encoding(),
{
    let w = radix_bits(K as int);
    lemma_stored_settled(p.tree(), w, 0, k);
    lemma_same_digest::<T, H>(p.tree(), t.tree(), w, 0, N as int, M::allows_opaque(), inputs, size, k);
}

/// Where the search for a key in a trie ends at an empty slot, at a leaf or at a branch and finds no value, no
/// complete trie with the same digest holds the key, if the hash function has no collisions among what is hashed for
/// the two tries. A search that ends at a hidden part proves nothing here: what is known of the keys in that part is
/// not hashed.
pub proof fn law_digest_proves_absence<T: Digestible, const N: usize, const K: usize, H: Digest, M: TrieMode>(
    p: Trie<T, N, K, H, M>,
    t: Trie<T, N, K, H, Complete>,
    inputs: Set<Seq<u8>>,
    size: nat,
    k: Seq<u8>,
)
    requires
        same_digest(p, t, inputs, size),
        settled(p.tree(), radix_bits(K as int), 0, k),
        !p@.dom().contains(k),
    ensures
        p.presence(k) == Some(false),
        !t@.dom().contains(k),
{
    let w = radix_bits(K as int);
    lemma_settled_known(p.tree(), w, 0, k);
    lemma_same_digest::<T, H>(p.tree(), t.tree(), w, 0, N as int, M::allows_opaque(), inputs, size, k);
}

/// The node at which a probe ended is not one that stands for a hidden part.
pub open spec fn ends_in_sight<T: Digestible, const N: usize, const K: usize, H: Digest, M: TrieMode>(
    found: ProbeResult<(), &Node<T, N, K, H, M>>,
) -> bool {
    match found {
        ProbeResult::EmptySlot(_) => true,
        ProbeResult::ExactMatch(node) => !(node.kind is Opaque),
        ProbeResult::Disagreement(node, _) => !(node.kind is Opaque),
        ProbeResult::Bounded(node, _, _) => !(node.kind is Opaque),
    }
}

/// What a probe in a part of a trie tells of the end of the search.
proof fn lemma_probe_settles<T: Digestible, const N: usize, const K: usize, H: Digest, M: TrieMode>(
    link: NodeLink<T, N, K, H, M>,
    key: Seq<u8>,
    index: int,
    off: int,
    room: int,
    found: ProbeResult<(), &Node<T, N, K, H, M>>,
)
    requires
        link.tree().wf(radix_bits(K as int), off, room, M::allows_opaque()),
        0 <= index <= key.len(),
        ends_with(link, None, key, index, off, found),
    ensures
        settled(link.tree(), radix_bits(K as int), off, key.skip(index)) <==> ends_in_sight(found),
    decreases link,
{
    let w = radix_bits(K as int);
    let t = link.tree();
    let k = key.skip(index);
    if let Some((hash, node)) = link.0 {
        if let Kind::Branch { mask, children } = node.kind {
            let s = t.slot(w, k);
            if t.covers(off, k) && k.len() >= t.key().len() && s < children@.len() {
                assert(t->children[s] == children@[s].tree());
                let next = index + t.key().len() - 1;
                assert(key.skip(next) =~= t.rest(k));
                lemma_probe_settles(children@[s], key, next, t.start() + w, room - (t.key().len() - 1), found);
            }
        }
    }
}

/// A search ends at an empty slot, at a leaf or at a branch just where a probe without a bound does.
pub proof fn law_probe_settles<T: Digestible, const N: usize, const K: usize, H: Digest, M: TrieMode>(
    t: Trie<T, N, K, H, M>,
    key: Seq<u8>,
    found: ProbeResult<(), &Node<T, N, K, H, M>>,
)
    requires
        t.wf(),
        ends_with(t.link(), None, key, 0, 0, found),
    ensures
        settled(t.tree(), radix_bits(K as int), 0, key) <==> ends_in_sight(found),
{
    assert(key.skip(0) =~= key);
    lemma_probe_settles(t.link(), key, 0, 0, N as int, found);
}

/// Complete tries with the same digest hold the same, where the hash function has no collisions among what is
/// hashed for them and the values are told apart by their encodings.
pub proof fn law_equal_digest_equal_contents<T: Digestible, const N: usize, const K: usize, H: Digest>(
    a: Trie<T, N, K, H, Complete>,
    b: Trie<T, N, K, H, Complete>,
    inputs: Set<Seq<u8>>,
    size: nat,
)
    requires
        same_digest(a, b, inputs, size),
        forall|x: T, y: T| #![trigger x.encoding(), y.encoding()] x.encoding() == y.encoding() ==> x == y,
    ensures
        a@ == b@,
        a.tree() == b.tree(),
{
    assert forall|k: Seq<u8>| #[trigger] a@.dom().contains(k) <==> b@.dom().contains(k) by {
        if a@.dom().contains(k) {
            law_digest_proves_values(a, b, inputs, size, k);
        }
        if b@.dom().contains(k) {
            law_digest_proves_values(b, a, inputs, size, k);
        }
    }
    assert forall|k: Seq<u8>| #[trigger] a@.dom().contains(k) implies a@[k] == b@[k] by {
        law_digest_proves_values(a, b, inputs, size, k);
    }
    assert(a@ =~= b@);
    law_equal_contents_equal_digest(a, b);
}

proof fn lemma_concat_flattens(parts: Seq<Seq<u8>>)
    ensures
        concat(parts) == parts.flatten(),
    decreases parts.len(),
{
    lemma_concat_flattens_alt(parts);
    parts.lemma_flatten_and_flatten_alt_are_equivalent();
}

proof fn lemma_concat_flattens_alt(parts: Seq<Seq<u8>>)
    ensures
        concat(parts) == parts.flatten_alt(),
    decreases parts.len(),
{
    if parts.len() > 0 {
        lemma_concat_flattens_alt(parts.drop_last());
    }
}

/// The digests that are stored in a trie, at any depth: for an empty slot, the hash of nothing; for a hidden part, the
/// digest that it is known by; for a leaf, if it is up to date, the hash of the hashes of its fragment and of its
/// value; and for a branch, the hash of its fragment, its mask and the digests that are stored for its children, in
/// order.
pub proof fn law_stored_digests<T: Digestible, const N: usize, const K: usize, H: Digest, M: TrieMode>(
    link: NodeLink<T, N, K, H, M>,
)
    requires
        link.sealed(),
    ensures
        match link.0 {
            None => link.stored() == H::hash(Seq::empty()),
            Some((hash, node)) => link.stored() == hash@ && match node.kind {
                Kind::Opaque { digest, .. } => hash@ == digest@,
                Kind::Leaf { value, .. } => fresh::<T, H>(link.tree()) ==> hash@ == H::hash(
                    H::hash(node.key@) + H::hash(value.encoding()),
                ),
                Kind::Branch { mask, children } => hash@ == H::hash(
                    node.key@ + seq![mask] + Seq::new(children@.len(), |i: int| children@[i].stored()).flatten(),
                ) && forall|i: int| 0 <= i < children@.len() ==> (#[trigger] children@[i]).sealed(),
            },
        },
{
    if let Some((hash, node)) = link.0 {
        if let Kind::Branch { mask, children } = node.kind {
            let parts = Seq::new(children@.len(), |i: int| children@[i].stored());
            lemma_concat_flattens(parts);
            assert forall|i: int| 0 <= i < children@.len() implies parts[i] == digests_of::<T, H>(
                trees(children@),
            )[i] by {
                assert(children@[i].sealed());
                assert(trees(children@)[i] == children@[i].tree());
            }
            assert(parts =~= digests_of::<T, H>(trees(children@)));
            assert(node.key@ + seq![mask] =~= node.key@.push(mask));
        }
    }
}

/// A trie as a value is hashed as its digest.
pub proof fn law_trie_encoding<T: Digestible, const N: usize, const K: usize, H: Digest, M: TrieMode>(
    t: Trie<T, N, K, H, M>,
)
    requires
        t.wf(),
    ensures
        t.encoding() == t.root_digest(),
{
}

/// A complete trie that holds nothing is empty, and has the digest of the empty byte string.
pub proof fn law_empty_trie<T: Digestible, const N: usize, const K: usize, H: Digest>(t: Trie<T, N, K, H, Complete>)
    requires
        t.wf(),
        t@ == Map::<Seq<u8>, T>::empty(),
    ensures
        t.tree() == Tree::<T>::Empty,
        t.root_digest() == H::hash(Seq::empty()),
{
    let w = radix_bits(K as int);
    if !(t.tree() is Empty) {
        let m = member(t.tree(), w);
        lemma_member(t.tree(), w, 0, N as int, false);
        lemma_no_stub(t.tree(), w, 0, N as int, m);
        assert(t@.dom().contains(m));
    }
}

/// Whatever a probe did at the place where it ended, every stored digest is that of the part that it is stored for,
/// every branch has at least two children, and no other key and no hidden part was changed.
pub proof fn law_probes_keep_tries<T: Digestible, const N: usize, const K: usize, H: Digest, M: TrieMode>(
    was: NodeLink<T, N, K, H, M>,
    now: NodeLink<T, N, K, H, M>,
    key: Seq<u8>,
    pos: BitPosition,
    j: Seq<u8>,
)
    requires
        probe_at(was, key, pos),
        probed(was, now, key, pos),
    ensures
        now.sealed(),
        compressed(now.tree()),
        !same_key(pos.bits as int, key.skip(pos.index as int), j) ==> now.tree().value_at(
            radix_bits(K as int),
            pos.bits as int,
            j,
        ) == was.tree().value_at(radix_bits(K as int), pos.bits as int, j),
        now.tree().stub_at(radix_bits(K as int), pos.bits as int, j) == was.tree().stub_at(
            radix_bits(K as int),
            pos.bits as int,
            j,
        ),
{
    lemma_compressed(
        now.tree(),
        radix_bits(K as int),
        pos.bits as int,
        N - pos.index,
        M::allows_opaque(),
    );
}

// ---------------------------------------------------------------------------
// Operations in turn
// ---------------------------------------------------------------------------

/// `after` is what setting `k` to `v` in `before` makes of it.
pub open spec fn was_set<T: Digestible, const N: usize, const K: usize, H: Digest, M: TrieMode>(
    before: Trie<T, N, K, H, M>,
    after: Trie<T, N, K, H, M>,
    k: Seq<u8>,
    v: T,
) -> bool {
    &&& before.wf()
    &&& after.wf()
    &&& after@ == before@.insert(k, v)
    &&& forall|j: Seq<u8>| #[trigger] after.stub(j) == before.stub(j)
    &&& before.fresh() ==> after.fresh()
}

/// `after` is what deleting `k` from `before` makes of it.
pub open spec fn was_deleted<T: Digestible, const N: usize, const K: usize, H: Digest, M: TrieMode>(
    before: Trie<T, N, K, H, M>,
    after: Trie<T, N, K, H, M>,
    k: Seq<u8>,
) -> bool {
    &&& before.wf()
    &&& after.wf()
    &&& after@ == before@.remove(k)
    &&& forall|j: Seq<u8>| #[trigger] after.stub(j) == before.stub(j)
    &&& before.fresh() ==> after.fresh()
}

/// A key that was set has the value that it was set to; the other keys have the values that they had.
pub proof fn law_get_after_set<T: Digestible, const N: usize, const K: usize, H: Digest, M: TrieMode>(
    before: Trie<T, N, K, H, M>,
    after: Trie<T, N, K, H, M>,
    k: Seq<u8>,
    v: T,
    j: Seq<u8>,
)
    requires
        was_set(before, after, k, v),
    ensures
        after.lookup(k) == Some(v),
        j != k ==> after.lookup(j) == before.lookup(j),
        j != k ==> after.presence(j) == before.presence(j),
{
    assert(after@.dom().contains(k) && after@[k] == v);
    assert(after.stub(j) == before.stub(j));
    if j != k {
        assert(after@.dom().contains(j) == before@.dom().contains(j));
        if before@.dom().contains(j) {
            assert(after@[j] == before@[j]);
        }
    }
}

/// A key that was deleted has no value; the other keys have the values that they had.
pub proof fn law_get_after_delete<T: Digestible, const N: usize, const K: usize, H: Digest, M: TrieMode>(
    before: Trie<T, N, K, H, M>,
    after: Trie<T, N, K, H, M>,
    k: Seq<u8>,
    j: Seq<u8>,
)
    requires
        was_deleted(before, after, k),
    ensures
        after.lookup(k) is None,
        j != k ==> after.lookup(j) == before.lookup(j),
        j != k ==> after.presence(j) == before.presence(j),
{
    assert(!after@.dom().contains(k));
    assert(after.stub(j) == before.stub(j));
    if j != k {
        assert(after@.dom().contains(j) == before@.dom().contains(j));
        if before@.dom().contains(j) {
            assert(after@[j] == before@[j]);
        }
    }
}

/// Deleting a key that was newly set restores the trie and its digest.
pub proof fn law_delete_undoes_set<T: Digestible, const N: usize, const K: usize, H: Digest, M: TrieMode>(
    before: Trie<T, N, K, H, M>,
    between: Trie<T, N, K, H, M>,
    after: Trie<T, N, K, H, M>,
    k: Seq<u8>,
    v: T,
)
    requires
        before.fresh(),
        !before@.dom().contains(k),
        was_set(before, between, k, v),
        was_deleted(between, after, k),
    ensures
        after.tree() == before.tree(),
        after.root_digest() == before.root_digest(),
{
    assert(after@ =~= before@);
    assert forall|j: Seq<u8>| #[trigger] after.stub(j) == before.stub(j) by {
        assert(between.stub(j) == before.stub(j));
    }
    law_contents_determine_digest(after, before);
}

/// Setting a key that was deleted to its old value again restores the trie and its digest.
pub proof fn law_set_undoes_delete<T: Digestible, const N: usize, const K: usize, H: Digest, M: TrieMode>(
    before: Trie<T, N, K, H, M>,
    between: Trie<T, N, K, H, M>,
    after: Trie<T, N, K, H, M>,
    k: Seq<u8>,
)
    requires
        before.fresh(),
        before@.dom().contains(k),
        was_deleted(before, between, k),
        was_set(between, after, k, before@[k]),
    ensures
        after.tree() == before.tree(),
        after.root_digest() == before.root_digest(),
{
    assert(after@ =~= before@);
    assert forall|j: Seq<u8>| #[trigger] after.stub(j) == before.stub(j) by {
        assert(between.stub(j) == before.stub(j));
    }
    law_contents_determine_digest(after, before);
}

/// The order in which two keys are set does not matter.
pub proof fn law_sets_commute<T: Digestible, const N: usize, const K: usize, H: Digest, M: TrieMode>(
    start: Trie<T, N, K, H, M>,
    a1: Trie<T, N, K, H, M>,
    a2: Trie<T, N, K, H, M>,
    b1: Trie<T, N, K, H, M>,
    b2: Trie<T, N, K, H, M>,
    k: Seq<u8>,
    v: T,
    l: Seq<u8>,
    u: T,
)
    requires
        start.fresh(),
        k != l,
        was_set(start, a1, k, v),
        was_set(a1, a2, l, u),
        was_set(start, b1, l, u),
        was_set(b1, b2, k, v),
    ensures
        a2.tree() == b2.tree(),
        a2.root_digest() == b2.root_digest(),
{
    assert(a2@ =~= b2@);
    assert forall|j: Seq<u8>| #[trigger] a2.stub(j) == b2.stub(j) by {
        assert(a1.stub(j) == start.stub(j));
        assert(b1.stub(j) == start.stub(j));
    }
    law_contents_determine_digest(a2, b2);
}

// ---------------------------------------------------------------------------
// Witnesses
// ---------------------------------------------------------------------------

/// A witness has the digest of the trie that it is a witness of.
pub proof fn law_witness_keeps_digest<
    T: Digestible,
    V: Digestible,
    const N: usize,
    const K: usize,
    H: Digest,
    A: TrieMode,
    B: TrieMode,
>(
    t: Trie<T, N, K, H, A>,
    p: Trie<V, N, K, H, B>,
    keys: Set<Seq<u8>>,
    rel: spec_fn(Seq<u8>, T, V) -> bool,
)
    requires
        witness_of::<T, V, H>(t.tree(), p.tree(), radix_bits(K as int), 0, keys, rel),
    ensures
        p.root_digest() == t.root_digest(),
{
    lemma_witness_digest::<T, V, H>(t.tree(), p.tree(), radix_bits(K as int), 0, keys, rel);
}

/// What a witness proves is true: where it tells whether a key is present, so does the trie, and it tells the
/// same; a value that it holds represents the one that the trie holds under the same key.
pub proof fn law_witness_is_sound<
    T: Digestible,
    V: Digestible,
    const N: usize,
    const K: usize,
    H: Digest,
    A: TrieMode,
    B: TrieMode,
>(
    t: Trie<T, N, K, H, A>,
    p: Trie<V, N, K, H, B>,
    keys: Set<Seq<u8>>,
    rel: spec_fn(Seq<u8>, T, V) -> bool,
    k: Seq<u8>,
)
    requires
        t.wf(),
        witness_of::<T, V, H>(t.tree(), p.tree(), radix_bits(K as int), 0, keys, rel),
    ensures
        p.presence(k) is Some ==> t.presence(k) == p.presence(k),
        p.lookup(k) is Some ==> t.lookup(k) is Some && exists|fragment: Seq<u8>| #[trigger]
            rel(fragment, t.lookup(k)->0, p.lookup(k)->0),
{
    lemma_witness_contents::<T, V, H>(
        t.tree(),
        p.tree(),
        radix_bits(K as int),
        0,
        N as int,
        A::allows_opaque(),
        keys,
        rel,
        k,
    );
}

/// A witness proves what it was made for: of the given keys it tells all that the trie does.
pub proof fn law_witness_is_complete<
    T: Digestible,
    V: Digestible,
    const N: usize,
    const K: usize,
    H: Digest,
    A: TrieMode,
    B: TrieMode,
>(
    t: Trie<T, N, K, H, A>,
    p: Trie<V, N, K, H, B>,
    keys: Set<Seq<u8>>,
    rel: spec_fn(Seq<u8>, T, V) -> bool,
    k: Seq<u8>,
)
    requires
        t.wf(),
        witness_of::<T, V, H>(t.tree(), p.tree(), radix_bits(K as int), 0, keys, rel),
        keys.contains(k),
    ensures
        p.presence(k) == t.presence(k),
        t.lookup(k) is Some ==> p.lookup(k) is Some,
{
    lemma_witness_contents::<T, V, H>(
        t.tree(),
        p.tree(),
        radix_bits(K as int),
        0,
        N as int,
        A::allows_opaque(),
        keys,
        rel,
        k,
    );
}

/// A witness of a complete trie proves the existence or the non-existence of each key that it was made for.
pub proof fn law_witness_proves_its_keys<
    T: Digestible,
    V: Digestible,
    const N: usize,
    const K: usize,
    H: Digest,
>(
    t: Trie<T, N, K, H, Complete>,
    p: Trie<V, N, K, H, Partial>,
    keys: Set<Seq<u8>>,
    rel: spec_fn(Seq<u8>, T, V) -> bool,
    k: Seq<u8>,
)
    requires
        t.wf(),
        witness_of::<T, V, H>(t.tree(), p.tree(), radix_bits(K as int), 0, keys, rel),
        keys.contains(k),
    ensures
        p.presence(k) == Some(t@.dom().contains(k)),
{
    law_witness_is_complete(t, p, keys, rel, k);
    law_complete_tries_hide_nothing(t, k);
}

/// A witness is minimal: where two keys `i` and `j` that the trie holds part at the bit `d`, and no key that the
/// witness was made for agrees with `j` up to the end of the chunk of that bit, the witness hides `j`. The chunks are
/// those of as many bits as number the children of a branch.
pub proof fn law_witness_hides_the_rest<
    T: Digestible,
    V: Digestible,
    const N: usize,
    const K: usize,
    H: Digest,
    A: TrieMode,
    B: TrieMode,
>(
    t: Trie<T, N, K, H, A>,
    p: Trie<V, N, K, H, B>,
    keys: Set<Seq<u8>>,
    rel: spec_fn(Seq<u8>, T, V) -> bool,
    i: Seq<u8>,
    j: Seq<u8>,
    d: int,
)
    requires
        t.wf(),
        witness_of::<T, V, H>(t.tree(), p.tree(), radix_bits(K as int), 0, keys, rel),
        t@.dom().contains(i),
        t@.dom().contains(j),
        0 <= d < bit_len(i) && d < bit_len(j),
        same_bits(i, j, 0, d) && bit_at(i, d) != bit_at(j, d),
        parted_before(keys, j, 0, (d / radix_bits(K as int)) * radix_bits(K as int) + radix_bits(K as int)),
    ensures
        p.presence(j) is None,
        !p@.dom().contains(j),
{
    let w = radix_bits(K as int);
    let c = d / w;
    let end = c * w + w;
    assert(end % w == 0 && end - w <= d < end) by (nonlinear_arith)
        requires
            w == 1 || w == 2 || w == 4 || w == 8,
            c == d / w,
            end == c * w + w,
    ;
    lemma_witness_hides::<T, V, H>(
        t.tree(),
        p.tree(),
        w,
        0,
        N as int,
        A::allows_opaque(),
        keys,
        rel,
        i,
        j,
        d,
        end,
    );
    if p@.dom().contains(j) {
        lemma_witness_wf::<T, V, H>(
            t.tree(),
            p.tree(),
            w,
            0,
            N as int,
            A::allows_opaque(),
            keys,
            rel,
        );
        lemma_stored_no_stub(p.tree(), w, 0, N as int, true, j, j);
    }
}

/// What a witness of a complete trie hides: a key leads into a hidden part exactly as far as the keys of that part have
/// a common start, that is, up to the end of the key where it hides a single one, and up to the chunk in which two of
/// them part where it hides more.
pub proof fn law_witness_hides_whole_parts<T: Digestible, V: Digestible, const N: usize, const K: usize, H: Digest>(
    t: Trie<T, N, K, H, Complete>,
    p: Trie<V, N, K, H, Partial>,
    keys: Set<Seq<u8>>,
    rel: spec_fn(Seq<u8>, T, V) -> bool,
    j: Seq<u8>,
) -> (pair: (Seq<u8>, Seq<u8>))
    requires
        t.wf(),
        witness_of::<T, V, H>(t.tree(), p.tree(), radix_bits(K as int), 0, keys, rel),
        p.stub(j) is Some,
    ensures
        t@.dom().contains(pair.0),
        t@.dom().contains(pair.1),
        ({
            let (i, l) = pair;
            let bits = p.stub(j)->0.bits;
            let w = radix_bits(K as int);
            &&& 0 <= bits <= bit_len(j)
            &&& same_bits(i, j, 0, bits) && same_bits(l, j, 0, bits)
            &&& i == l ==> bit_len(i) == bits
            &&& i != l ==> bit_len(i) >= bits + w && bit_len(l) >= bits + w && !same_bits(i, l, bits, bits + w)
        }),
{
    lemma_hidden_start::<T, V, H>(t.tree(), p.tree(), radix_bits(K as int), 0, N as int, keys, rel, j)
}

/// A witness is made for the keys of a list, for all of them and no others.
pub proof fn law_keys_of_a_list(keys: Seq<&[u8]>, k: Seq<u8>)
    ensures
        key_set(keys).contains(k) <==> exists|i: int| 0 <= i < keys.len() && (#[trigger] keys[i])@ == k,
{
}

/// A witness made of clones holds, under each key that it shows, a clone of what the trie holds under it.
pub proof fn law_clone_witness_holds_clones<T: Digestible + Clone, const N: usize, const K: usize, H: Digest>(
    t: Trie<T, N, K, H, Complete>,
    p: Trie<T, N, K, H, Partial>,
    keys: Set<Seq<u8>>,
    k: Seq<u8>,
)
    requires
        t.wf(),
        witness_of::<T, T, H>(
            t.tree(),
            p.tree(),
            radix_bits(K as int),
            0,
            keys,
            represented::<T, H, ByClone>(),
        ),
    ensures
        p@.dom().contains(k) ==> t@.dom().contains(k) && cloned(t@[k], p@[k]),
        keys.contains(k) && t@.dom().contains(k) ==> p@.dom().contains(k),
{
    if p@.dom().contains(k) {
        lemma_leaf_at::<T, T, H>(
            t.tree(),
            p.tree(),
            radix_bits(K as int),
            0,
            keys,
            represented::<T, H, ByClone>(),
            k,
        );
    }
    if keys.contains(k) {
        law_witness_is_complete(t, p, keys, represented::<T, H, ByClone>(), k);
    }
}

/// What a probe for a key that a witness was made for meets in the witness is what it meets in the trie: the key can be
/// set in both or in neither, and is refused for the same reason.
pub proof fn law_witness_keeps_fate<
    T: Digestible,
    V: Digestible,
    const N: usize,
    const K: usize,
    H: Digest,
    A: TrieMode,
    B: TrieMode,
>(
    t: Trie<T, N, K, H, A>,
    p: Trie<V, N, K, H, B>,
    keys: Set<Seq<u8>>,
    rel: spec_fn(Seq<u8>, T, V) -> bool,
    k: Seq<u8>,
)
    requires
        t.wf(),
        witness_of::<T, V, H>(t.tree(), p.tree(), radix_bits(K as int), 0, keys, rel),
        keys.contains(k),
    ensures
        p.fate(k) == t.fate(k),
{
    lemma_witness_fate::<T, V, H>(
        t.tree(),
        p.tree(),
        radix_bits(K as int),
        0,
        N as int,
        A::allows_opaque(),
        keys,
        rel,
        k,
    );
}

/// The leaf that the key `k` leads to.
pub open spec fn leaf_at<T>(t: Tree<T>, w: int, off: int, k: Seq<u8>) -> Tree<T>
    decreases t,
{
    match t {
        Tree::Branch { key, mask, children } => if 0 <= t.slot(w, k) < children.len() {
            leaf_at(children[t.slot(w, k)], w, t.start() + w, t.rest(k))
        } else {
            t
        },
        _ => t,
    }
}

/// The leaf of a key in a trie and in a witness of it.
proof fn lemma_leaf_at<T, V, H: Digest>(
    t: Tree<T>,
    p: Tree<V>,
    w: int,
    off: int,
    keys: Set<Seq<u8>>,
    rel: spec_fn(Seq<u8>, T, V) -> bool,
    k: Seq<u8>,
)
    requires
        witness_of::<T, V, H>(t, p, w, off, keys, rel),
        p.value_at(w, off, k) is Some,
    ensures
        leaf_at(t, w, off, k) is Leaf,
        t.value_at(w, off, k) == Some(leaf_at(t, w, off, k)->value),
        rel(leaf_at(t, w, off, k).key(), t.value_at(w, off, k)->0, p.value_at(w, off, k)->0),
    decreases t,
{
    match t {
        Tree::Branch { key, mask, children } => {
            let s = t.slot(w, k);
            let c = p->children;
            assert(p.slot(w, k) == s && p.rest(k) == t.rest(k));
            assert(p.covers(off, k) == t.covers(off, k));
            assert(p.value_at(w, off, k) == c[s].value_at(w, t.start() + w, t.rest(k)));
            assert(t.value_at(w, off, k) == children[s].value_at(w, t.start() + w, t.rest(k)));
            if is_reached(t, w, off, s, keys) {
                lemma_leaf_at::<T, V, H>(
                    children[s],
                    c[s],
                    w,
                    t.start() + w,
                    reached(t, w, off, s, keys),
                    rel,
                    t.rest(k),
                );
            } else {
                assert(hides::<T, V, H>(children[s], c[s]));
                assert(!(c[s] is Leaf) && !(c[s] is Branch));
            }
        },
        Tree::Leaf { .. } => {
            assert(p.covers(off, k) == t.covers(off, k));
        },
        _ => {},
    }
}

/// The leaf digests of a part of a trie are right where those of the whole are.
proof fn lemma_leaf_fresh<T: Digestible, H: Digest>(t: Tree<T>, w: int, off: int, k: Seq<u8>)
    requires
        fresh::<T, H>(t),
    ensures
        fresh::<T, H>(leaf_at(t, w, off, k)),
    decreases t,
{
    if t is Branch && 0 <= t.slot(w, k) < t->children.len() {
        lemma_leaf_fresh::<T, H>(t->children[t.slot(w, k)], w, t.start() + w, t.rest(k));
    }
}

/// What a hash witness holds under a key is the digest that the trie stores for the leaf of that key: the hash of the
/// hashes of its fragment and of the value that is stored under the key.
pub proof fn law_hash_witness_holds_leaf_digests<T: Digestible, const N: usize, const K: usize, H: Digest>(
    t: Trie<T, N, K, H, Complete>,
    p: Trie<HashWitnessValue<H>, N, K, H, Partial>,
    keys: Set<Seq<u8>>,
    k: Seq<u8>,
)
    requires
        t.fresh(),
        witness_of::<T, HashWitnessValue<H>, H>(
            t.tree(),
            p.tree(),
            radix_bits(K as int),
            0,
            keys,
            represented::<T, H, ByHash>(),
        ),
        p@.dom().contains(k),
    ensures
        t@.dom().contains(k),
        ({
            let leaf = leaf_at(t.tree(), radix_bits(K as int), 0, k);
            &&& leaf matches Tree::Leaf { digest, key, value }
            &&& value == t@[k]
            &&& p@[k].digest@ == digest
            &&& p@[k].digest@ == H::hash(H::hash(key) + H::hash(t@[k].encoding()))
        }),
{
    let w = radix_bits(K as int);
    lemma_leaf_at::<T, HashWitnessValue<H>, H>(
        t.tree(),
        p.tree(),
        w,
        0,
        keys,
        represented::<T, H, ByHash>(),
        k,
    );
    lemma_leaf_fresh::<T, H>(t.tree(), w, 0, k);
}

/// What a leaf contributes to the inputs of the hash function.
proof fn lemma_leaf_hashed<T: Digestible, H: Digest>(
    t: Tree<T>,
    w: int,
    off: int,
    inputs: Set<Seq<u8>>,
    size: nat,
    k: Seq<u8>,
)
    requires
        hashed_from::<T, H>(t, inputs, size),
    ensures
        hashed_from::<T, H>(leaf_at(t, w, off, k), inputs, size),
    decreases t,
{
    if t is Branch && 0 <= t.slot(w, k) < t->children.len() {
        lemma_leaf_hashed::<T, H>(t->children[t.slot(w, k)], w, t.start() + w, inputs, size, t.rest(k));
    }
}

/// Hash witnesses tell values apart: where they hold the same under two keys, the tries that they were made from hold
/// values of the same encoding under these keys, if the hash function has no collisions among what is hashed for the
/// tries.
pub proof fn law_hash_witness_tells_values<T: Digestible, const N: usize, const K: usize, H: Digest>(
    t: Trie<T, N, K, H, Complete>,
    p: Trie<HashWitnessValue<H>, N, K, H, Partial>,
    keys: Set<Seq<u8>>,
    k: Seq<u8>,
    u: Trie<T, N, K, H, Complete>,
    q: Trie<HashWitnessValue<H>, N, K, H, Partial>,
    others: Set<Seq<u8>>,
    j: Seq<u8>,
    inputs: Set<Seq<u8>>,
    size: nat,
)
    requires
        t.fresh() && u.fresh(),
        witness_of::<T, HashWitnessValue<H>, H>(
            t.tree(),
            p.tree(),
            radix_bits(K as int),
            0,
            keys,
            represented::<T, H, ByHash>(),
        ),
        witness_of::<T, HashWitnessValue<H>, H>(
            u.tree(),
            q.tree(),
            radix_bits(K as int),
            0,
            others,
            represented::<T, H, ByHash>(),
        ),
        p@.dom().contains(k) && q@.dom().contains(j),
        collision_free::<H>(inputs, size),
        hashed_from::<T, H>(t.tree(), inputs, size),
        hashed_from::<T, H>(u.tree(), inputs, size),
        p@[k].digest@ == q@[j].digest@,
    ensures
        t@[k].encoding() == u@[j].encoding(),
{
    let w = radix_bits(K as int);
    let a = leaf_at(t.tree(), w, 0, k);
    let b = leaf_at(u.tree(), w, 0, j);
    law_hash_witness_holds_leaf_digests(t, p, keys, k);
    law_hash_witness_holds_leaf_digests(u, q, others, j);
    lemma_leaf_hashed::<T, H>(t.tree(), w, 0, inputs, size, k);
    lemma_leaf_hashed::<T, H>(u.tree(), w, 0, inputs, size, j);
    let v = t@[k].encoding();
    let o = u@[j].encoding();
    let x = H::hash(a.key()) + H::hash(v);
    let y = H::hash(b.key()) + H::hash(o);
    assert(inputs.contains(x) && inputs.contains(y));
    assert(x == y);
    assert(H::hash(v) =~= x.skip(size as int));
    assert(H::hash(o) =~= y.skip(size as int));
}

proof fn lemma_prune_again<T, H: Digest>(
    t: Tree<T>,
    p: Tree<T>,
    q: Tree<T>,
    w: int,
    off: int,
    keys: Set<Seq<u8>>,
)
    requires
        witness_of::<T, T, H>(t, p, w, off, keys, kept::<T>()),
        witness_of::<T, T, H>(p, q, w, off, keys, kept::<T>()),
    ensures
        q == p,
    decreases t,
{
    match t {
        Tree::Branch { key, mask, children } => {
            let c = p->children;
            let d = q->children;
            assert forall|i: int| 0 <= i < c.len() implies c[i] == d[i] by {
                let below = reached(t, w, off, i, keys);
                assert(forall|k: Seq<u8>| goes_to(p, w, off, i, k) == #[trigger] goes_to(t, w, off, i, k));
                assert(reached(p, w, off, i, keys) =~= below) by {
                    assert forall|r: Seq<u8>| reached(p, w, off, i, keys).contains(r) == below.contains(r) by {
                        if below.contains(r) {
                            let k = choose|k: Seq<u8>| #[trigger]
                                keys.contains(k) && goes_to(t, w, off, i, k) && r == t.rest(k);
                            assert(keys.contains(k) && goes_to(p, w, off, i, k) && r == p.rest(k));
                        }
                        if reached(p, w, off, i, keys).contains(r) {
                            let k = choose|k: Seq<u8>| #[trigger]
                                keys.contains(k) && goes_to(p, w, off, i, k) && r == p.rest(k);
                            assert(keys.contains(k) && goes_to(t, w, off, i, k) && r == t.rest(k));
                        }
                    }
                }
                assert(is_reached(p, w, off, i, keys) == is_reached(t, w, off, i, keys)) by {
                    if is_reached(t, w, off, i, keys) {
                        let k = choose|k: Seq<u8>| #[trigger]
                            keys.contains(k) && goes_to(t, w, off, i, k);
                        assert(keys.contains(k) && goes_to(p, w, off, i, k));
                    }
                    if is_reached(p, w, off, i, keys) {
                        let k = choose|k: Seq<u8>| #[trigger]
                            keys.contains(k) && goes_to(p, w, off, i, k);
                        assert(keys.contains(k) && goes_to(t, w, off, i, k));
                    }
                }
                if is_reached(t, w, off, i, keys) {
                    lemma_prune_again::<T, H>(children[i], c[i], d[i], w, t.start() + w, below);
                } else {
                    assert(hides::<T, T, H>(children[i], c[i]));
                    assert(hides::<T, T, H>(c[i], d[i]));
                }
            }
            assert(c =~= d);
        },
        _ => {},
    }
}

/// Pruning for the same keys once more changes nothing.
pub proof fn law_pruning_is_idempotent<T: Digestible, const N: usize, const K: usize, H: Digest>(
    t: Trie<T, N, K, H, Partial>,
    once: Trie<T, N, K, H, Partial>,
    twice: Trie<T, N, K, H, Partial>,
    keys: Set<Seq<u8>>,
)
    requires
        witness_of::<T, T, H>(t.tree(), once.tree(), radix_bits(K as int), 0, keys, kept::<T>()),
        witness_of::<T, T, H>(once.tree(), twice.tree(), radix_bits(K as int), 0, keys, kept::<T>()),
    ensures
        twice.tree() == once.tree(),
{
    lemma_prune_again::<T, H>(t.tree(), once.tree(), twice.tree(), radix_bits(K as int), 0, keys);
}

/// Pruning keeps the digest and only forgets: what is told of a key afterwards is what was told before, or nothing;
/// of the given keys, what was told before is told afterwards.
pub proof fn law_pruning_only_forgets<T: Digestible, const N: usize, const K: usize, H: Digest>(
    before: Trie<T, N, K, H, Partial>,
    after: Trie<T, N, K, H, Partial>,
    keys: Set<Seq<u8>>,
    k: Seq<u8>,
)
    requires
        before.wf(),
        witness_of::<T, T, H>(before.tree(), after.tree(), radix_bits(K as int), 0, keys, kept::<T>()),
    ensures
        after.root_digest() == before.root_digest(),
        after.presence(k) is None || after.presence(k) == before.presence(k),
        keys.contains(k) ==> after.presence(k) == before.presence(k),
        after.lookup(k) is None || after.lookup(k) == before.lookup(k),
        keys.contains(k) ==> after.lookup(k) == before.lookup(k),
{
    law_witness_keeps_digest(before, after, keys, kept::<T>());
    law_witness_is_sound(before, after, keys, kept::<T>(), k);
    if keys.contains(k) {
        law_witness_is_complete(before, after, keys, kept::<T>(), k);
    }
}

/// A witness made of clones has leaf digests that are those of its values where the trie that it was made from has, if
/// clones of values have the encodings of the values.
pub proof fn law_witnesses_stay_fresh<T: Digestible + Clone, const N: usize, const K: usize, H: Digest>(
    t: Trie<T, N, K, H, Complete>,
    p: Trie<T, N, K, H, Partial>,
    keys: Set<Seq<u8>>,
)
    requires
        witness_of::<T, T, H>(
            t.tree(),
            p.tree(),
            radix_bits(K as int),
            0,
            keys,
            represented::<T, H, ByClone>(),
        ),
        t.fresh(),
        forall|x: T, y: T| #[trigger] cloned(x, y) ==> x.encoding() == y.encoding(),
    ensures
        p.fresh(),
{
    lemma_witness_fresh::<T, T, H>(
        t.tree(),
        p.tree(),
        radix_bits(K as int),
        0,
        keys,
        represented::<T, H, ByClone>(),
    );
}

/// A pruned trie has leaf digests that are those of its values where the trie that it was made from has.
pub proof fn law_pruned_tries_stay_fresh<T: Digestible, const N: usize, const K: usize, H: Digest>(
    before: Trie<T, N, K, H, Partial>,
    after: Trie<T, N, K, H, Partial>,
    keys: Set<Seq<u8>>,
)
    requires
        witness_of::<T, T, H>(before.tree(), after.tree(), radix_bits(K as int), 0, keys, kept::<T>()),
        before.fresh(),
    ensures
        after.fresh(),
{
    lemma_witness_fresh::<T, T, H>(before.tree(), after.tree(), radix_bits(K as int), 0, keys, kept::<T>());
}

/// Setting a key changes what is stored under it, and nothing else.
proof fn lemma_set_changes<T: Digestible, const N: usize, const K: usize, H: Digest, M: TrieMode>(
    before: Trie<T, N, K, H, M>,
    after: Trie<T, N, K, H, M>,
    k: Seq<u8>,
    v: T,
)
    requires
        was_set(before, after, k, v),
    ensures
        changed_at(before.tree(), after.tree(), radix_bits(K as int), 0, k, Some(v)),
{
    let w = radix_bits(K as int);
    assert forall|j: Seq<u8>| #[trigger]
        after.tree().value_at(w, 0, j) == if same_key(0, k, j) {
            Some(v)
        } else {
            before.tree().value_at(w, 0, j)
        } by {
        law_get_after_set(before, after, k, v, j);
        if same_key(0, k, j) {
            lemma_bits_ext(k, j);
        }
    }
    assert forall|j: Seq<u8>| #[trigger] after.tree().stub_at(w, 0, j) == before.tree().stub_at(w, 0, j) by {
        assert(after.stub(j) == before.stub(j));
    }
}

/// A trie in which a key was set is the well formed one that differs from what it was by that key.
proof fn lemma_set_is<T: Digestible, const N: usize, const K: usize, H: Digest, M: TrieMode>(
    before: Trie<T, N, K, H, M>,
    after: Trie<T, N, K, H, M>,
    r: Tree<T>,
    k: Seq<u8>,
    v: T,
)
    requires
        before.fresh(),
        was_set(before, after, k, v),
        r.wf(radix_bits(K as int), 0, N as int, M::allows_opaque()),
        changed_at(before.tree(), r, radix_bits(K as int), 0, k, Some(v)),
        fresh::<T, H>(r),
    ensures
        after.tree() == r,
{
    let w = radix_bits(K as int);
    lemma_set_changes(before, after, k, v);
    assert(same_contents(after.tree(), r, w, 0)) by {
        assert forall|j: Seq<u8>|
            #![trigger after.tree().value_at(w, 0, j)]
            #![trigger r.value_at(w, 0, j)]
            #![trigger after.tree().stub_at(w, 0, j)]
            #![trigger r.stub_at(w, 0, j)]
            after.tree().value_at(w, 0, j) == r.value_at(w, 0, j) && after.tree().stub_at(w, 0, j) == r.stub_at(
                w,
                0,
                j,
            ) by {
            assert(after.tree().stub_at(w, 0, j) == before.tree().stub_at(w, 0, j));
            assert(after.tree().value_at(w, 0, j) == if same_key(0, k, j) {
                Some(v)
            } else {
                before.tree().value_at(w, 0, j)
            });
        }
    }
    lemma_canonical(
        after.tree(),
        r,
        w,
        0,
        N as int,
        N as int,
        M::allows_opaque(),
        M::allows_opaque(),
    );
    lemma_fresh_equal::<T, H>(after.tree(), r);
}

/// Setting a stored key replaces its value in the structure of the trie.
proof fn lemma_set_replaces<T: Digestible, const N: usize, const K: usize, H: Digest, M: TrieMode>(
    before: Trie<T, N, K, H, M>,
    after: Trie<T, N, K, H, M>,
    k: Seq<u8>,
    v: T,
)
    requires
        before.fresh(),
        before@.dom().contains(k),
        was_set(before, after, k, v),
    ensures
        after.tree() == replaced::<T, H>(before.tree(), radix_bits(K as int), k, v),
{
    let w = radix_bits(K as int);
    let r = replaced::<T, H>(before.tree(), w, k, v);
    lemma_replaced::<T, H>(before.tree(), w, 0, N as int, M::allows_opaque(), k, v);
    lemma_set_is(before, after, r, k, v);
}

/// Setting a key that was not stored adds it to the structure of the trie.
proof fn lemma_set_adds<T: Digestible, const N: usize, const K: usize, H: Digest, M: TrieMode>(
    before: Trie<T, N, K, H, M>,
    after: Trie<T, N, K, H, M>,
    k: Seq<u8>,
    v: T,
)
    requires
        before.fresh(),
        before.fate(k) is Vacant,
        valid_key(k, N),
        was_set(before, after, k, v),
    ensures
        after.tree() == added::<T, H>(before.tree(), radix_bits(K as int), 0, k, v),
{
    let w = radix_bits(K as int);
    let r = added::<T, H>(before.tree(), w, 0, k, v);
    lemma_added::<T, H>(before.tree(), w, 0, N as int, M::allows_opaque(), k, v);
    lemma_set_is(before, after, r, k, v);
}

/// Setting a key to the same value in a trie and in a pruned trie for that key keeps their digests equal. If the key
/// was stored, the pruned trie stays a witness of the other.
pub proof fn law_pruned_tries_follow_updates<
    T: Digestible,
    const N: usize,
    const K: usize,
    H: Digest,
    A: TrieMode,
    B: TrieMode,
>(
    t: Trie<T, N, K, H, A>,
    t_after: Trie<T, N, K, H, A>,
    p: Trie<T, N, K, H, B>,
    p_after: Trie<T, N, K, H, B>,
    keys: Set<Seq<u8>>,
    k: Seq<u8>,
    v: T,
)
    requires
        t.fresh(),
        witness_of::<T, T, H>(t.tree(), p.tree(), radix_bits(K as int), 0, keys, kept::<T>()),
        keys.contains(k),
        was_set(t, t_after, k, v),
        was_set(p, p_after, k, v),
    ensures
        p_after.root_digest() == t_after.root_digest(),
        t@.dom().contains(k) ==> witness_of::<T, T, H>(
            t_after.tree(),
            p_after.tree(),
            radix_bits(K as int),
            0,
            keys,
            kept::<T>(),
        ),
{
    let w = radix_bits(K as int);
    let partial = A::allows_opaque();
    lemma_witness_fresh::<T, T, H>(t.tree(), p.tree(), w, 0, keys, kept::<T>());
    if t@.dom().contains(k) {
        law_witness_is_complete(t, p, keys, kept::<T>(), k);
        lemma_set_replaces(t, t_after, k, v);
        lemma_set_replaces(p, p_after, k, v);
        lemma_replaced_witness::<T, H>(t.tree(), p.tree(), w, 0, N as int, partial, keys, k, v);
        law_witness_keeps_digest(t_after, p_after, keys, kept::<T>());
    } else {
        lemma_set_changes(t, t_after, k, v);
        lemma_set_fate(t.tree(), t_after.tree(), w, N as int, partial, k, v);
        law_occupied_keys(t, k);
        assert(t_after@.dom().contains(k));
        law_keys_are_valid(t_after, k);
        lemma_added_digest::<T, H>(t.tree(), p.tree(), w, 0, N as int, partial, keys, k, v);
        lemma_set_adds(t, t_after, k, v);
        lemma_set_adds(p, p_after, k, v);
    }
}

// ---------------------------------------------------------------------------
// Copies and equality
// ---------------------------------------------------------------------------

/// A clone of a trie has its digest, and holds clones of its values under the same keys.
pub proof fn law_clone<T: Digestible + Clone, const N: usize, const K: usize, H: Digest, M: TrieMode>(
    t: Trie<T, N, K, H, M>,
    copy: Trie<T, N, K, H, M>,
    k: Seq<u8>,
)
    requires
        cloned_tree(t.tree(), copy.tree()),
    ensures
        copy.root_digest() == t.root_digest(),
        copy@.dom().contains(k) <==> t@.dom().contains(k),
        t@.dom().contains(k) ==> cloned(t@[k], copy@[k]),
        copy.presence(k) == t.presence(k),
{
    lemma_cloned_digest::<T, H>(t.tree(), copy.tree());
    lemma_cloned_contents(t.tree(), copy.tree(), radix_bits(K as int), 0, k);
}

/// A clone of a trie whose leaf digests are those of its values is such a trie too, if clones of values have the
/// encodings of the values.
pub proof fn law_clones_stay_fresh<T: Digestible + Clone, const N: usize, const K: usize, H: Digest, M: TrieMode>(
    t: Trie<T, N, K, H, M>,
    copy: Trie<T, N, K, H, M>,
)
    requires
        cloned_tree(t.tree(), copy.tree()),
        t.fresh(),
        forall|x: T, y: T| #[trigger] cloned(x, y) ==> x.encoding() == y.encoding(),
    ensures
        copy.fresh(),
{
    lemma_cloned_fresh::<T, H>(t.tree(), copy.tree());
}

proof fn lemma_equal_digest<T: Digestible + PartialEq, H: Digest>(a: Tree<T>, b: Tree<T>)
    requires
        equal_trees(a, b),
        fresh::<T, H>(a),
        fresh::<T, H>(b),
        forall|x: T, y: T| #[trigger] x.eq_spec(&y) ==> x.encoding() == y.encoding(),
    ensures
        digest_of::<T, H>(a) == digest_of::<T, H>(b),
    decreases a,
{
    match (a, b) {
        (Tree::Branch { key: k, mask: m, children: c }, Tree::Branch { key: l, mask: n, children: d }) => {
            assert forall|i: int| 0 <= i < c.len() implies digest_of::<T, H>(#[trigger] c[i]) == digest_of::<T, H>(
                d[i],
            ) by {
                lemma_equal_digest::<T, H>(c[i], d[i]);
            }
            assert(digests_of::<T, H>(c) =~= digests_of::<T, H>(d));
        },
        _ => {},
    }
}

/// Equal tries have equal digests, if equal values have equal encodings.
pub proof fn law_equal_tries_equal_digest<
    T: Digestible + PartialEq + Eq,
    const N: usize,
    const K: usize,
    H: Digest,
    M: TrieMode,
>(a: Trie<T, N, K, H, M>, b: Trie<T, N, K, H, M>)
    requires
        equal_trees(a.tree(), b.tree()),
        a.fresh(),
        b.fresh(),
        forall|x: T, y: T| #[trigger] x.eq_spec(&y) ==> x.encoding() == y.encoding(),
    ensures
        a.root_digest() == b.root_digest(),
{
    lemma_equal_digest::<T, H>(a.tree(), b.tree());
}

/// Tries are equal where they hold the same: equal values under the same keys, and the same hidden parts.
pub proof fn law_same_contents_equal_tries<
    T: Digestible + PartialEq + Eq,
    const N: usize,
    const K: usize,
    H: Digest,
    M: TrieMode,
>(a: Trie<T, N, K, H, M>, b: Trie<T, N, K, H, M>)
    requires
        a.wf(),
        b.wf(),
        forall|k: Seq<u8>| #[trigger] a@.dom().contains(k) <==> b@.dom().contains(k),
        forall|k: Seq<u8>| #[trigger] a@.dom().contains(k) ==> a@[k].eq_spec(&b@[k]),
        forall|k: Seq<u8>| #[trigger] a.stub(k) == b.stub(k),
    ensures
        a.eq_spec(&b),
{
    let w = radix_bits(K as int);
    assert forall|j: Seq<u8>|
        #![trigger a.tree().value_at(w, 0, j)]
        #![trigger b.tree().value_at(w, 0, j)]
        match (a.tree().value_at(w, 0, j), b.tree().value_at(w, 0, j)) {
            (Some(x), Some(y)) => x.eq_spec(&y),
            (None, None) => true,
            _ => false,
        } by {
        assert(a@.dom().contains(j) <==> b@.dom().contains(j));
    }
    assert forall|j: Seq<u8>| #[trigger] a.tree().stub_at(w, 0, j) == b.tree().stub_at(w, 0, j) by {
        assert(a.stub(j) == b.stub(j));
    }
    lemma_same_equal(
        a.tree(),
        b.tree(),
        w,
        0,
        N as int,
        N as int,
        M::allows_opaque(),
        M::allows_opaque(),
    );
}

/// Equal tries hold equal values under the same keys, and where both hide a part, its digest is the same.
pub proof fn law_equal_tries_same_contents<
    T: Digestible + PartialEq + Eq,
    const N: usize,
    const K: usize,
    H: Digest,
    M: TrieMode,
>(a: Trie<T, N, K, H, M>, b: Trie<T, N, K, H, M>, k: Seq<u8>)
    requires
        a.eq_spec(&b),
    ensures
        a@.dom().contains(k) <==> b@.dom().contains(k),
        a@.dom().contains(k) ==> a@[k].eq_spec(&b@[k]),
        a.stub(k) is Some && b.stub(k) is Some ==> a.stub(k)->0.digest == b.stub(k)->0.digest,
{
    lemma_equal_same(a.tree(), b.tree(), radix_bits(K as int), 0, k);
}

/// Complete tries are equal exactly where they hold equal values under the same keys.
pub proof fn law_complete_tries_equal<T: Digestible + PartialEq + Eq, const N: usize, const K: usize, H: Digest>(
    a: Trie<T, N, K, H, Complete>,
    b: Trie<T, N, K, H, Complete>,
)
    requires
        a.wf(),
        b.wf(),
    ensures
        a.eq_spec(&b) <==> forall|k: Seq<u8>| #[trigger]
            a@.dom().contains(k) || b@.dom().contains(k) ==> a@.dom().contains(k) && b@.dom().contains(k)
                && a@[k].eq_spec(&b@[k]),
{
    if a.eq_spec(&b) {
        assert forall|k: Seq<u8>| #[trigger] a@.dom().contains(k) || b@.dom().contains(k) implies a@.dom().contains(k)
            && b@.dom().contains(k) && a@[k].eq_spec(&b@[k]) by {
            law_equal_tries_same_contents(a, b, k);
        }
    } else {
        assert forall|k: Seq<u8>| #[trigger] a.stub(k) == b.stub(k) by {
            law_complete_tries_hide_nothing(a, k);
            law_complete_tries_hide_nothing(b, k);
        }
        if forall|k: Seq<u8>| #[trigger]
            a@.dom().contains(k) || b@.dom().contains(k) ==> a@.dom().contains(k) && b@.dom().contains(k)
                && a@[k].eq_spec(&b@[k]) {
            assert forall|k: Seq<u8>| #[trigger] a@.dom().contains(k) <==> b@.dom().contains(k) by {
                assert(a@.dom().contains(k) || b@.dom().contains(k) ==> a@.dom().contains(k) && b@.dom().contains(k));
            }
            law_same_contents_equal_tries(a, b);
        }
    }
}

/// A trie is equal to itself, and to a clone of it, if every value is equal to itself, and to its clones.
pub proof fn law_clones_are_equal<
    T: Digestible + PartialEq + Eq + Clone,
    const N: usize,
    const K: usize,
    H: Digest,
    M: TrieMode,
>(t: Trie<T, N, K, H, M>, copy: Trie<T, N, K, H, M>)
    requires
        t.wf(),
        copy.wf(),
        copy == t || cloned_tree(t.tree(), copy.tree()),
        forall|x: T, y: T| #[trigger] cloned(x, y) ==> x.eq_spec(&y),
    ensures
        t.eq_spec(&copy),
{
    let w = radix_bits(K as int);
    assert forall|k: Seq<u8>| #[trigger] t.stub(k) == copy.stub(k) by {
        if copy != t {
            lemma_cloned_contents(t.tree(), copy.tree(), w, 0, k);
        }
    }
    assert forall|k: Seq<u8>| #[trigger] t@.dom().contains(k) <==> copy@.dom().contains(k) by {
        if copy != t {
            law_clone(t, copy, k);
        }
    }
    assert forall|k: Seq<u8>| #[trigger] t@.dom().contains(k) implies t@[k].eq_spec(&copy@[k]) by {
        if copy != t {
            law_clone(t, copy, k);
        } else {
            assert(cloned(t@[k], t@[k]));
        }
    }
    law_same_contents_equal_tries(t, copy);
}

}
