//! Merkle [`Trie`] type and its public API.
use crate::bitseqops::radix_bits;
use crate::digestible::{Digest, Digestible, HashWitnessValue};
use crate::node::{trie_radix, Complete, NodeLink, Partial, TrieMode};
use crate::tree::{
    cloned_tree, digest_of, equal_trees, fresh, lemma_bits_ext, lemma_cloned_wf, same_key, Fate, Stub, Tree,
};
use crate::utils::{same_bytes, VecArg};
use crate::witness::{kept, key_set, represented, witness_of, ByClone, ByHash};
use vstd::prelude::*;
use vstd::std_specs::cmp::{PartialEqSpec, PartialEqSpecImpl};

verus! {

/// Errors that can occur while performing trie operations.
#[derive(Debug, Clone, Copy, PartialEq, Eq)]
pub enum TrieError {
    /// The provided key was empty or exceeded the trie's maximum key length.
    InvalidKeyLength,
    /// A leaf could not be created because no initial value was supplied.
    MissingInitializer,
    /// The target key resolved to a node whose kind does not support this update.
    UnsupportedSet,
    /// The target key is a prefix of an existing key, or vice versa, so no value can be set there.
    SetOnPrefix,
}

impl TrieError {
    /// Describe the error.
    pub fn message(&self) -> (text: &'static str)
        ensures
            text@ == match self {
                TrieError::InvalidKeyLength => "key length is invalid"@,
                TrieError::MissingInitializer => "cannot create leaf with null initializer"@,
                TrieError::UnsupportedSet => "unsupported trie set"@,
                TrieError::SetOnPrefix => "cannot set a value on a prefix"@,
            },
    {
        match self {
            TrieError::InvalidKeyLength => "key length is invalid",
            TrieError::MissingInitializer => "cannot create leaf with null initializer",
            TrieError::UnsupportedSet => "unsupported trie set",
            TrieError::SetOnPrefix => "cannot set a value on a prefix",
        }
    }
}

/// Trait that describes how to update the value stored in a trie node.
///
/// Returning a mutable reference to a node's value would let callers invalidate
/// previously computed node hashes. Instead, any custom update logic is injected
/// into the execution of [`Trie::update`] itself, so that our update function can
/// recalculate node hashes as needed, once-and-for-all.
pub trait NodeUpdate<T>: Sized {
    /// The update may turn the value `before` into `after`. Any value may result unless an implementation
    /// states more.
    open spec fn occupied(self, before: T, after: T) -> bool {
        true
    }

    /// The update may supply `value` where there is none yet. Any value may be supplied unless an implementation
    /// states more.
    open spec fn vacant(self, value: Option<T>) -> bool {
        true
    }

    /// How to update a node value when a prior value already exists.
    ///
    /// It is the implementor's resposibility to ensure that this function
    /// actually overwrites the mutable input reference.
    ///
    /// If an implementation fails to conform to the above requirement,
    /// it will be sound, but useless for overwriting existing values.
    fn on_occupied(self, existing_value: &mut T)
        ensures
            self.occupied(*old(existing_value), *final(existing_value)),
    ;

    /// The value to insert if no value is currently present;
    /// Returning [None] will cause this operation to fail for non-existent values,
    /// enabling insert-without-overwriting semantics.
    fn on_vacant(self) -> (value: Option<T>)
        ensures
            self.vacant(value),
    ;
}

/// Implements [`NodeUpdate`] by upserting [`Self::value`].
pub struct NodeUpsert<T> {
    /// The value to be upserted.
    pub value: T,
}

/// Updates a node's value by upsertion of the stored value.
impl<T> NodeUpdate<T> for NodeUpsert<T> {
    open spec fn occupied(self, before: T, after: T) -> bool {
        after == self.value
    }

    open spec fn vacant(self, value: Option<T>) -> bool {
        value == Some(self.value)
    }

    fn on_occupied(self, existing_value: &mut T) {
        *existing_value = self.value;
    }

    fn on_vacant(self) -> (value: Option<T>) {
        Some(self.value)
    }
}

/// What an update reports, and what it makes of the value that is stored under the key, where a probe for the
/// key meets `fate`.
pub open spec fn updated<T, U: NodeUpdate<T>>(
    updater: U,
    fate: Fate,
    before: Option<T>,
    after: Option<T>,
    out: Result<(), TrieError>,
) -> bool {
    match fate {
        Fate::Vacant => match out {
            Ok(_) => after is Some && updater.vacant(after),
            Err(e) => e is MissingInitializer && updater.vacant(None) && after == before,
        },
        Fate::Occupied => out is Ok && before is Some && after is Some && updater.occupied(before->0, after->0),
        Fate::Inner => out == Err::<(), TrieError>(TrieError::UnsupportedSet) && after == before,
        Fate::Prefix => out == Err::<(), TrieError>(TrieError::SetOnPrefix) && after == before,
    }
}

/// A key that a trie of maximum key length `n` can hold.
pub open spec fn valid_key(key: Seq<u8>, n: usize) -> bool {
    1 <= key.len() <= n
}

/// A generic, compressed Merkleized trie.
///
/// We describe its generic paramters below:
///
/// | Param | Bounds         | Description                                                                                |
/// | ---   | ---            | ---                                                                                        |
/// | `T`   | [`Digestible`] | The value type stored in this trie                                                         |
/// | `N`   | [`usize`]      | Max key length in bytes                                                                    |
/// | `K`   | [`usize`]      | Node branching factor (must choose 2,4,16, or 256 - powers of two ensure fast bitwise ops) |
/// | `H`   | [`Digest`]     | The hash function used for hash pointers                                                   |
/// | `M`   | [`TrieMode`]   | Either [`Complete`] or [`Partial`] which enables `Opaque` nodes                            |
///
/// For dense tries, higher branching factors can reduce size overhead.
///
/// [`Trie`] implements [`Clone`] only if `T` does.
///
/// [`Trie`] always implements [`Debug`], eliding leaf values as `..`; use
/// [`Trie::debug_with_values`] to print them instead.
pub struct Trie<T: Digestible, const N: usize, const K: usize, H: Digest, M: TrieMode>(NodeLink<T, N, K, H, M>);

impl<T: Digestible, const N: usize, const K: usize, H: Digest, M: TrieMode> Trie<T, N, K, H, M> {
    /// The link to the root node.
    pub closed spec fn link(self) -> NodeLink<T, N, K, H, M> {
        self.0
    }

    /// The structure of the trie.
    pub open spec fn tree(self) -> Tree<T> {
        self.link().tree()
    }

    /// The trie is well formed: it is compressed, its digests are right, and it hides nothing unless its mode
    /// allows that.
    pub open spec fn wf(self) -> bool {
        &&& trie_radix(K as int)
        &&& self.link().inv(0, N as int)
    }

    /// The value that is stored under the key `k`.
    pub open spec fn lookup(self, k: Seq<u8>) -> Option<T> {
        self.tree().value_at(radix_bits(K as int), 0, k)
    }

    /// The hidden part of the trie that the key `k` leads into.
    pub open spec fn stub(self, k: Seq<u8>) -> Option<Stub> {
        self.tree().stub_at(radix_bits(K as int), 0, k)
    }

    /// What a probe for the key `k` meets.
    pub open spec fn fate(self, k: Seq<u8>) -> Fate {
        self.tree().fate(radix_bits(K as int), 0, k)
    }

    /// Whether a value is stored under the key `k`, or `None` where a hidden part leaves that open.
    pub open spec fn presence(self, k: Seq<u8>) -> Option<bool> {
        self.tree().presence(radix_bits(K as int), 0, k)
    }

    /// The digest of the trie.
    pub open spec fn root_digest(self) -> Seq<u8> {
        digest_of::<T, H>(self.tree())
    }

    /// The digest of every leaf is that of its key fragment and value.
    pub open spec fn fresh(self) -> bool {
        fresh::<T, H>(self.tree())
    }

    /// What is reported for a key whose presence was expected to be `expected`.
    pub open spec fn verdict(self, k: Seq<u8>, expected: Option<bool>) -> Result<Option<bool>, TrieError> {
        if !valid_key(k, N) {
            Err(TrieError::InvalidKeyLength)
        } else if self.presence(k) != expected {
            Ok(Some(self.presence(k) is Some))
        } else {
            Ok(None)
        }
    }
}

impl<T: Digestible, const N: usize, const K: usize, H: Digest, M: TrieMode> View for Trie<T, N, K, H, M> {
    type V = Map<Seq<u8>, T>;

    /// The values that are stored in the trie, by their keys.
    open spec fn view(&self) -> Map<Seq<u8>, T> {
        Map::new(|k: Seq<u8>| self.lookup(k) is Some, |k: Seq<u8>| self.lookup(k)->0)
    }
}

/// Where no bits are left out, byte strings are the same key exactly where they are equal.
proof fn lemma_whole_key(a: Seq<u8>, b: Seq<u8>)
    ensures
        same_key(0, a, b) <==> a == b,
{
    if same_key(0, a, b) {
        lemma_bits_ext(a, b);
    }
}

impl<T: Digestible, const N: usize, const K: usize, H: Digest> Trie<T, N, K, H, Complete> {
    /// Create a new compressed Merkle trie
    pub fn new() -> (trie: Self)
        requires
            trie_radix(K as int),
        ensures
            trie.wf(),
            trie@ == Map::<Seq<u8>, T>::empty(),
            trie.tree() == Tree::<T>::Empty,
    {
        let trie: Self = Trie(NodeLink(None));
        assert(trie@ =~= Map::<Seq<u8>, T>::empty());
        trie
    }
}

impl<T: Digestible + PartialEq + Eq, const N: usize, const K: usize, H: Digest> Default for Trie<
    T,
    N,
    K,
    H,
    Complete,
> {
    fn default() -> (trie: Self)
        ensures
            trie_radix(K as int) ==> trie.wf(),
            trie@ == Map::<Seq<u8>, T>::empty(),
            trie.tree() == Tree::<T>::Empty,
    {
        let trie: Self = Trie(NodeLink(None));
        assert(trie@ =~= Map::<Seq<u8>, T>::empty());
        trie
    }
}

impl<T: Digestible, const N: usize, const K: usize, H: Digest, M: TrieMode> Trie<T, N, K, H, M> {
    /// Return the link to the root node
    pub fn root(&self) -> (link: &NodeLink<T, N, K, H, M>)
        ensures
            *link == self.link(),
    {
        &self.0
    }

    /// Set the value of target_key in the trie
    pub fn update<U: NodeUpdate<T>>(&mut self, target_key: &[u8], updater: U) -> (out: Result<(), TrieError>)
        requires
            old(self).wf(),
        ensures
            final(self).wf(),
            out == Err::<(), TrieError>(TrieError::InvalidKeyLength) <==> !valid_key(target_key@, N),
            valid_key(target_key@, N) ==> updated(
                updater,
                old(self).fate(target_key@),
                old(self).lookup(target_key@),
                final(self).lookup(target_key@),
                out,
            ),
            out is Ok ==> final(self)@ == old(self)@.insert(target_key@, final(self).lookup(target_key@)->0),
            out is Err ==> final(self).tree() == old(self).tree(),
            forall|k: Seq<u8>| #[trigger] final(self).stub(k) == old(self).stub(k),
            old(self).fresh() ==> final(self).fresh(),
    {
        if let Err(e) = Self::check_key(target_key) {
            return Err(e);
        }
        let out: Result<(), TrieError> = self.0.update(target_key, updater);
        proof {
            let k = target_key@;
            assert(k.skip(0) =~= k);
            if out is Ok {
                assert forall|j: Seq<u8>| #[trigger] self@.dom().contains(j) <==> old(self)@.insert(
                    k,
                    self.lookup(k)->0,
                ).dom().contains(j) by {
                    lemma_whole_key(k, j);
                }
                assert forall|j: Seq<u8>| #[trigger] self@.dom().contains(j) implies self@[j] == old(self)@.insert(
                    k,
                    self.lookup(k)->0,
                )[j] by {
                    lemma_whole_key(k, j);
                }
                assert(self@ =~= old(self)@.insert(k, self.lookup(k)->0));
            }
        }
        out
    }

    /// Set the value of target_key in the trie
    pub fn set(&mut self, target_key: &[u8], value: T) -> (out: Result<(), TrieError>)
        requires
            old(self).wf(),
        ensures
            final(self).wf(),
            out == if !valid_key(target_key@, N) {
                Err::<(), TrieError>(TrieError::InvalidKeyLength)
            } else {
                match old(self).fate(target_key@) {
                    Fate::Vacant => Ok(()),
                    Fate::Occupied => Ok(()),
                    Fate::Inner => Err(TrieError::UnsupportedSet),
                    Fate::Prefix => Err(TrieError::SetOnPrefix),
                }
            },
            out is Ok ==> final(self)@ == old(self)@.insert(target_key@, value),
            out is Err ==> final(self).tree() == old(self).tree(),
            forall|k: Seq<u8>| #[trigger] final(self).stub(k) == old(self).stub(k),
            old(self).fresh() ==> final(self).fresh(),
    {
        match self.update(target_key, NodeUpsert { value }) {
            Ok(_) => Ok(()),
            Err(e) => Err(e),
        }
    }

    /// Delete a non-opaque node from the tree and return its value
    pub fn delete(&mut self, target_key: &[u8]) -> (out: Result<Option<T>, TrieError>)
        requires
            old(self).wf(),
        ensures
            final(self).wf(),
            out == if !valid_key(target_key@, N) {
                Err::<Option<T>, TrieError>(TrieError::InvalidKeyLength)
            } else {
                Ok(old(self).lookup(target_key@))
            },
            out is Ok ==> final(self)@ == old(self)@.remove(target_key@),
            out matches Ok(Some(_)) || final(self).tree() == old(self).tree(),
            forall|k: Seq<u8>| #[trigger] final(self).stub(k) == old(self).stub(k),
            old(self).fresh() ==> final(self).fresh(),
    {
        if let Err(e) = Self::check_key(target_key) {
            return Err(e);
        }
        let value: Option<T> = self.0.delete(target_key);
        proof {
            let k = target_key@;
            assert(k.skip(0) =~= k);
            assert forall|j: Seq<u8>| #[trigger]
                self@.dom().contains(j) <==> old(self)@.remove(k).dom().contains(j) by {
                lemma_whole_key(k, j);
            }
            assert forall|j: Seq<u8>| #[trigger]
                self@.dom().contains(j) implies self@[j] == old(self)@.remove(k)[j] by {
                lemma_whole_key(k, j);
            }
            assert(self@ =~= old(self)@.remove(k));
        }
        Ok(value)
    }

    /// Return a reference to the value of search_key in the trie, if it exists
    pub fn get<'a>(&'a self, target_key: &[u8]) -> (out: Result<Option<&'a T>, TrieError>)
        requires
            self.wf(),
        ensures
            match out {
                Err(e) => e is InvalidKeyLength && !valid_key(target_key@, N),
                Ok(found) => valid_key(target_key@, N) && match found {
                    Some(value) => self@.dom().contains(target_key@) && self@[target_key@] == *value,
                    None => !self@.dom().contains(target_key@),
                },
            },
    {
        if let Err(e) = Self::check_key(target_key) {
            return Err(e);
        }
        Ok(self.0.get(target_key))
    }

    /// Given a list of (key, expected_presence) pairs,
    /// return a list where each value is either:
    ///
    /// - `Err()` indicating an ill-formed input error,
    /// - `Ok(None)` indicating key's presence/absence was expected
    /// - `Ok(Some(true))` indicating key's presence/absence was unexpected,
    /// - `Ok(Some(false))` indicating key's presence/absence is unknown,
    ///
    /// Note that the final case is only possible for [`Partial`] tries
    /// where some nodes have been pruned.
    pub fn verify_each_key(&self, keys_and_expected: &Vec<(&[u8], Option<bool>)>) -> (out: Vec<
        Result<Option<bool>, TrieError>,
    >)
        requires
            self.wf(),
        ensures
            out@.len() == keys_and_expected@.len(),
            forall|i: int|
                0 <= i < out@.len() ==> #[trigger] out@[i] == self.verdict(
                    keys_and_expected@[i].0@,
                    keys_and_expected@[i].1,
                ),
            forall|i: int|
                0 <= i < out@.len() ==> {
                    let (key, expected) = keys_and_expected@[i];
                    match #[trigger] out@[i] {
                        Err(e) => e is InvalidKeyLength && !(1 <= key@.len() <= N),
                        Ok(None) => expected == if self.stub(key@) is Some {
                            None
                        } else {
                            Some(self@.dom().contains(key@))
                        },
                        Ok(Some(true)) => self.stub(key@) is None && expected != Some(self@.dom().contains(key@)),
                        Ok(Some(false)) => self.stub(key@) is Some && expected is Some,
                    }
                },
    {
        let mut out: Vec<Result<Option<bool>, TrieError>> = Vec::new();
        let mut i: usize = 0;
        while i < keys_and_expected.len()
            invariant
                i <= keys_and_expected@.len(),
                out@.len() == i,
                self.wf(),
                forall|j: int|
                    0 <= j < i ==> #[trigger] out@[j] == self.verdict(
                        keys_and_expected@[j].0@,
                        keys_and_expected@[j].1,
                    ),
            decreases keys_and_expected@.len() - i,
        {
            let (target_key, expected): (&[u8], Option<bool>) = keys_and_expected[i];
            out.push(self.verify_key(target_key, expected));
            i += 1;
        }
        out
    }

    /// Compare the presence of one key with what was expected of it.
    fn verify_key(&self, target_key: &[u8], expected: Option<bool>) -> (out: Result<Option<bool>, TrieError>)
        requires
            self.wf(),
        ensures
            out == self.verdict(target_key@, expected),
    {
        if let Err(e) = Self::check_key(target_key) {
            return Err(e);
        }
        let found: Option<bool> = self.0.verify(target_key);
        if found != expected {
            Ok(Some(found.is_some()))
        } else {
            Ok(None)
        }
    }

    /// Given a target keys vector and an expected presence vector,
    /// return true iff each key's presence in the trie provably matches its expected presence, where:
    /// - Some(false) - indicates a key's absence is expected
    /// - Some(true)  - indicates a key's presence is expected
    /// - None        - indicates a key's presence/absence is unprovable
    /// return false otherwise or if any key has an invalid length.
    pub fn verify_keys<'a, P: VecArg<&'a [u8]>, Q: VecArg<Option<bool>>>(&self, target_keys: P, expected: Q) -> (all:
        bool)
        requires
            self.wf(),
        ensures
            all <==> target_keys.items().len() == expected.items().len() && forall|i: int|
                0 <= i < target_keys.items().len() ==> valid_key((#[trigger] target_keys.items()[i])@, N)
                    && self.presence(target_keys.items()[i]@) == expected.items()[i],
    {
        let keys: &Vec<&'a [u8]> = target_keys.as_vec();
        let presences: &Vec<Option<bool>> = expected.as_vec();
        if keys.len() != presences.len() {
            return false;
        }
        let mut i: usize = 0;
        while i < keys.len()
            invariant
                i <= keys@.len(),
                keys@.len() == presences@.len(),
                keys@ == target_keys.items(),
                presences@ == expected.items(),
                self.wf(),
                forall|j: int|
                    0 <= j < i ==> valid_key((#[trigger] keys@[j])@, N) && self.presence(keys@[j]@) == presences@[j],
            decreases keys@.len() - i,
        {
            match self.verify_key(keys[i], presences[i]) {
                Ok(None) => {},
                _ => {
                    assert(keys@[i as int] == target_keys.items()[i as int]);
                    return false;
                },
            }
            i += 1;
        }
        true
    }

    /// Return the digest of the trie
    pub fn digest(&self) -> (digest: Vec<u8>)
        requires
            self.wf(),
        ensures
            digest@ == self.root_digest(),
    {
        self.0.stored_digest()
    }

    /// Check equality between tries via hash root equality;
    /// unlike true equality, this equality only holds probabilistically
    /// with very high probability (assuming a proper cryptographic hash
    /// function is chosen for H).
    ///
    /// With a properly chosen cryptographic hash function, finding a
    /// collision, i.e., a case where:
    ///
    /// `( self.digest() == other.digest() ) != ( self == other )`
    ///
    /// is effectively impossible.
    pub fn hash_eq(&self, other: &Self) -> (same: bool)
        requires
            self.wf(),
            other.wf(),
        ensures
            same == (self.root_digest() == other.root_digest()),
    {
        same_bytes(self.digest().as_slice(), other.digest().as_slice())
    }

    /// Ensure that argument keys satisfy this [`Trie`]'s length restrictions
    pub fn check_key(key: &[u8]) -> (out: Result<(), TrieError>)
        ensures
            out == if valid_key(key@, N) {
                Ok(())
            } else {
                Err::<(), TrieError>(TrieError::InvalidKeyLength)
            },
    {
        if key.len() == 0 || key.len() > N {
            Err(TrieError::InvalidKeyLength)
        } else {
            Ok(())
        }
    }
}

impl<T: Digestible, const N: usize, const K: usize, H: Digest> Trie<T, N, K, H, Complete> {
    /// Convert a concrete trie to a partial trie
    #[must_use]
    pub fn to_partial(self) -> (partial: Trie<T, N, K, H, Partial>)
        requires
            self.wf(),
        ensures
            partial.wf(),
            partial.tree() == self.tree(),
    {
        proof {
            self.tree().lemma_partial(radix_bits(K as int), 0, N as int);
        }
        Trie(self.0.into_partial())
    }

    /// Given a complete trie and a set of keys, build the minimal partial trie that
    /// proves the non/existence of each key in the set in the trie, representing
    /// values by the digests of their leaves rather than requiring `T: Clone`.
    pub fn to_hash_witness_for_keys(&self, keys: Vec<&[u8]>) -> (witness: Trie<HashWitnessValue<H>, N, K, H, Partial>)
        requires
            self.wf(),
        ensures
            witness.wf(),
            witness_of::<T, HashWitnessValue<H>, H>(
                self.tree(),
                witness.tree(),
                radix_bits(K as int),
                0,
                key_set(keys@),
                represented::<T, H, ByHash>(),
            ),
    {
        Trie(self.0.to_hash_witness_for_keys(keys))
    }
}

impl<T: Digestible + Clone, const N: usize, const K: usize, H: Digest> Trie<T, N, K, H, Complete> {
    /// Given a complete, cloneable trie and a set of keys, build the minimal partial trie
    /// proves the non/existence of each key in the set in the trie
    pub fn to_witness_for_keys(&self, keys: Vec<&[u8]>) -> (witness: Trie<T, N, K, H, Partial>)
        requires
            self.wf(),
        ensures
            witness.wf(),
            witness_of::<T, T, H>(
                self.tree(),
                witness.tree(),
                radix_bits(K as int),
                0,
                key_set(keys@),
                represented::<T, H, ByClone>(),
            ),
    {
        Trie(self.0.to_witness_for_keys(keys))
    }
}

impl<T: Digestible, const N: usize, const K: usize, H: Digest> Trie<T, N, K, H, Partial> {
    /// Given a partial trie and a set of keys, update this trie in-place to obtain a minimal partial trie that
    /// proves the non/existence of each key in the set in the trie
    pub fn prune_for_keys(&mut self, keys: Vec<&[u8]>)
        requires
            old(self).wf(),
        ensures
            final(self).wf(),
            witness_of::<T, T, H>(
                old(self).tree(),
                final(self).tree(),
                radix_bits(K as int),
                0,
                key_set(keys@),
                kept::<T>(),
            ),
    {
        self.0.prune_for_keys(keys);
    }
}

impl<T: Digestible + Clone, const N: usize, const K: usize, H: Digest, M: TrieMode> Clone for Trie<T, N, K, H, M> {
    fn clone(&self) -> (copy: Self)
        ensures
            cloned_tree(self.tree(), copy.tree()),
            self.wf() ==> copy.wf(),
    {
        let copy: Self = Trie(self.0.clone());
        proof {
            if self.wf() {
                lemma_cloned_wf(
                    self.tree(),
                    copy.tree(),
                    radix_bits(K as int),
                    0,
                    N as int,
                    M::allows_opaque(),
                );
            }
        }
        copy
    }
}

/// Trie equality is just equality of its node structure
impl<T: Digestible + PartialEq + Eq, const N: usize, const K: usize, H: Digest, M: TrieMode> PartialEq for Trie<
    T,
    N,
    K,
    H,
    M,
> {
    fn eq(&self, other: &Self) -> (same: bool) {
        self.0.same_structure(&other.0)
    }
}

impl<T: Digestible + PartialEq + Eq, const N: usize, const K: usize, H: Digest, M: TrieMode> PartialEqSpecImpl for Trie<
    T,
    N,
    K,
    H,
    M,
> {
    open spec fn obeys_eq_spec() -> bool {
        T::obeys_eq_spec()
    }

    open spec fn eq_spec(&self, other: &Self) -> bool {
        equal_trees(self.tree(), other.tree())
    }
}

/// The digest of a Merkle trie is just the digest of its root hash
impl<T: Digestible, const N: usize, const K: usize, H: Digest, M: TrieMode> Digestible for Trie<T, N, K, H, M> {
    open spec fn encoding(&self) -> Seq<u8> {
        self.link().stored()
    }

    fn update_hasher<D: Digest>(&self, hasher: &mut D) {
        hasher.update(self.0.stored_digest().as_slice());
    }
}

}
