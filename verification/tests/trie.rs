use merkle_trie::digestible::{empty_hash, Sha256, W};
use merkle_trie::node::{Complete, Node, NodeLink};
use merkle_trie::trie::Trie;
use merkle_trie::{Digest, Digestible};

type U64BinaryTrie = Trie<W<u64>, 4, 2, Sha256, Complete>;

#[test]
fn node_initial_node_has_initial_key() {
    let mut t: U64BinaryTrie = Trie::new();
    let initial_key = &[1, 2, 3];
    println!("Orig: {t:?}");
    t.set(initial_key, W(42)).unwrap();
    println!("Set: {t:?}");
    let (_hash, node) = t.root().0.as_ref().unwrap();
    assert_eq!(&*node.key, initial_key);
}

#[test]
fn internal_initial_node_has_initial_key() {
    let mut t: U64BinaryTrie = Trie::new();
    let initial_key = &[1, 2, 3];
    println!("Orig: {t:?}");
    t.set(initial_key, W(42)).unwrap();
    println!("Set: {t:?}");
    let (_hash, node) = t.root().0.as_ref().unwrap();
    assert_eq!(&*node.key, initial_key);
}

#[test]
fn ops_initial_node_has_initial_key() {
    let mut t: U64BinaryTrie = Trie::new();
    let initial_key = &[1, 2, 3];
    t.set(initial_key, W(42)).unwrap();
    let (_hash, node) = t.root().0.as_ref().unwrap();
    assert_eq!(&*node.key, initial_key);
}

#[test]
fn node_preserves_key_and_digest() {
    let mut t: U64BinaryTrie = Trie::new();
    t.set(&[1, 2, 3], W(42)).unwrap();
    let digest_before = t.digest();
    let witness = t.clone().to_partial();
    assert_eq!(witness.digest(), digest_before);
    assert_eq!(t.get(&[1, 2, 3]), witness.get(&[1, 2, 3]));
}

#[test]
fn internal_preserves_key_and_digest() {
    let mut t: U64BinaryTrie = Trie::new();
    t.set(&[1, 2, 3], W(42)).unwrap();
    let digest_before = t.digest();
    let witness = t.clone().to_partial();
    assert_eq!(witness.digest(), digest_before);
    assert_eq!(t.get(&[1, 2, 3]), witness.get(&[1, 2, 3]));
}

#[test]
fn ops_preserves_key_and_digest() {
    let mut t: U64BinaryTrie = Trie::new();
    t.set(&[1, 2, 3], W(42)).unwrap();
    let leaf: Node<W<u64>, 4, 2, Sha256, Complete> = Node::new_leaf(vec![1, 2, 3], W(42));
    let digest_before = leaf.digest();
    let key_before = leaf.key.to_vec();

    let witness = NodeLink::to(leaf).into_partial();
    let (hash, node) = witness.0.as_ref().unwrap();

    assert_eq!(node.key.to_vec(), key_before);
    assert_eq!(node.digest(), digest_before);
    assert_eq!(*hash, digest_before);
}

#[test]
fn node_test_delete() {
    let mut t: U64BinaryTrie = Trie::new();
    println!("Empty: {t:?}");
    t.set(&[1, 2, 3], W(42)).unwrap();
    let orig = t.clone();
    println!("With 42: {t:?}");
    t.set(&[1, 2, 4], W(43)).unwrap();
    println!("With 43: {t:?}");
    t.delete(&[1, 2, 4]).unwrap();
    assert!(
        orig.hash_eq(&t),
        "Original and Deleted tries are unequal:\n{:?}\n{:?}",
        orig,
        t
    );
    println!("With 42: {t:?}");
    t.delete(&[1, 2, 3]).unwrap();
    assert_eq!(t.digest(), empty_hash::<Sha256>());
    println!("Final: {t:?}");
}

#[test]
fn internal_test_delete() {
    let mut t: U64BinaryTrie = Trie::new();
    println!("Empty: {t:?}");
    t.set(&[1, 2, 3], W(42)).unwrap();
    let orig = t.clone();
    println!("With 42: {t:?}");
    t.set(&[1, 2, 4], W(43)).unwrap();
    println!("With 43: {t:?}");
    t.delete(&[1, 2, 4]).unwrap();
    assert!(
        orig.hash_eq(&t),
        "Original and Deleted tries are unequal:\n{:?}\n{:?}",
        orig,
        t
    );
    println!("With 42: {t:?}");
    t.delete(&[1, 2, 3]).unwrap();
    assert_eq!(t.digest(), empty_hash::<Sha256>());
    println!("Final: {t:?}");
}

#[test]
fn node_witness_shape() {
    let mut t: U64BinaryTrie = Trie::new();
    t.set(&[1, 2, 3], W(42)).unwrap();
    println!("Orignal: {t:?}");
    t.set(&[1, 2, 4], W(43)).unwrap();
    println!("Orignal: {t:?}");
    let mut t = t.to_partial();
    t.prune_for_keys(vec![&[1]]);
    println!("Witness: {t:?}");
}

#[test]
fn internal_witness_shape() {
    let mut t: U64BinaryTrie = Trie::new();
    t.set(&[1, 2, 3], W(42)).unwrap();
    println!("Orignal: {t:?}");
    t.set(&[1, 2, 4], W(43)).unwrap();
    println!("Orignal: {t:?}");
    let mut t = t.to_partial();
    t.prune_for_keys(vec![&[1]]);
    println!("Witness: {t:?}");
}

#[test]
fn ops_witness_shape() {
    let mut t: U64BinaryTrie = Trie::new();
    t.set(&[1, 2, 3], W(42)).unwrap();
    println!("Orignal: {t:?}");
    t.set(&[1, 2, 4], W(43)).unwrap();
    println!("Orignal: {t:?}");
    let mut t = t.to_partial();
    t.prune_for_keys(vec![&[1]]);
    println!("Witness: {t:?}");
}

/// Keys that require a second, nested branch decision within a single byte
/// (e.g. `[1,2,3]`, `[1,2,4]`, `[1,2,5]` in a binary trie) are all kept, as
/// the bit position found by a nested comparison is relative to the slice of
/// the key that was compared.
#[test]
fn nested_branch_keys_survive_insert_and_witness() {
    let mut t: U64BinaryTrie = Trie::new();
    let keys: &[&[u8]] = &[&[1, 2, 3], &[1, 2, 4], &[1, 2, 5], &[1, 2, 6], &[1, 2, 7]];
    for (i, key) in keys.iter().enumerate() {
        t.set(key, W(i as u64)).unwrap();
    }
    for (i, key) in keys.iter().enumerate() {
        assert_eq!(t.get(key), Ok(Some(&W(i as u64))), "key {key:?} lost after insert");
    }

    let all_keys = keys.to_vec();
    let expected = vec![Some(true); keys.len()];
    let clone_witness = t.to_witness_for_keys(all_keys.clone());
    assert!(clone_witness.verify_keys(&all_keys, &expected));
    let hash_witness = t.to_hash_witness_for_keys(all_keys.clone());
    assert!(hash_witness.verify_keys(&all_keys, &expected));
}

#[derive(Clone, Debug)]
struct Data(u64);
impl Digestible for Data {
    fn update_hasher<D: Digest>(&self, hasher: &mut D) {
        hasher.update(&self.0.to_le_bytes())
    }
}

type MyTrie = Trie<Data, 4, 2, Sha256, Complete>;

/// Builds a trie and two witnesses of it.
#[test]
fn readme_example() {
    let mut t: MyTrie = Trie::new();
    t.set(&[1, 2, 3], Data(45)).unwrap();
    t.set(&[1, 2, 4], Data(78)).unwrap();
    t.set(&[1, 2, 5], Data(127)).unwrap();
    let delete_result = t.delete(&[1, 2, 4]);
    match delete_result {
        Ok(v) => println!("Old value at key was {v:?}"),
        Err(e) => println!("Error {} occurred", e.message()),
    };
    let get_result = t.get(&[1, 2, 3]);
    match get_result {
        Ok(v) => println!("Borrow a value: {v:?}"),
        Err(e) => println!("Error {} occurred", e.message()),
    }

    // if Trie data supports Clone, so does Trie
    let trie_clone = t.clone();
    println!("Trie clone: {trie_clone:?}");

    // build witnesses
    // NOTE: these construction techniques require `T: Clone`
    // as the witness tries may actually contain the underlying
    // trie values on leaf nodes
    let witness1 = t.to_witness_for_keys(vec![&[1, 2, 3]]);
    println!("Witness 1: {witness1:?}");

    let mut witness2 = t.clone().to_partial();
    witness2.prune_for_keys(vec![&[1, 2]]);
    println!("Witness 2: {witness2:?}");

    // verify witnesses
    // witness1:
    // - key [1,2,3] is provably present
    // - key [1,2,4] is provably absent (as lookup diverges before reaching the pruned subtrie)
    // - key [1,2,5]'s presence/absence is unprovable
    let witness1_keys: Vec<&[u8]> = vec![&[1, 2, 3], &[1, 2, 4], &[1, 2, 5]];
    let witness1_expected = vec![Some(true), Some(false), None];
    assert_eq!(witness1.verify_keys(&witness1_keys, &witness1_expected), true);

    // witness2:
    // since all of the leaf nodes in the trie are obscured, only
    // the search for key [1,2,4] has a provable absence
    let keys: Vec<&[u8]> = vec![&[1, 2, 3], &[1, 2, 4], &[1, 2, 5]];
    let expected = vec![None, Some(false), None];
    assert_eq!(witness2.verify_keys(keys, expected), true);
    println!("Final: {witness2:?}");
}

#[derive(Debug)]
struct NonCloneData(u64);
impl Digestible for NonCloneData {
    fn update_hasher<D: Digest>(&self, hasher: &mut D) {
        hasher.update(&self.0.to_le_bytes())
    }
}

type NonCloneTrie = Trie<NonCloneData, 4, 2, Sha256, Complete>;

/// Builds a witness of values that cannot be cloned.
#[test]
fn readme_hash_witness_example() {
    let mut t: NonCloneTrie = Trie::new();
    t.set(&[1, 2, 3], NonCloneData(45)).unwrap();
    t.set(&[1, 2, 4], NonCloneData(78)).unwrap();
    t.set(&[1, 2, 5], NonCloneData(127)).unwrap();

    // `t.clone()` and `t.to_witness_for_keys(..)` would both fail to compile here,
    // since `NonCloneData` does not implement `Clone`.
    let keys: Vec<&[u8]> = vec![&[1, 2, 3], &[1, 2, 4], &[1, 2, 5]];
    let witness = t.to_hash_witness_for_keys(keys.clone());
    println!("Hash witness: {witness:?}");

    let expected = vec![Some(true); keys.len()];
    assert_eq!(witness.verify_keys(&keys, &expected), true);
}
