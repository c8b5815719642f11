use merkle_trie::bitseqops::{BitDiff, BitPosition, BitSeqOps};
use merkle_trie::digestible::{empty_hash, Sha256, W};
use merkle_trie::node::{Delete, Kind, NodeLink, ProbeResult};
use merkle_trie::{Complete, NodeUpdate, Trie, TrieError};
use std::collections::BTreeMap;

type Small<const K: usize> = Trie<W<u64>, 4, K, Sha256, Complete>;

/// The keys that the fragments of a trie spell; every branch must have two children at least.
fn spelled<const K: usize>(link: &NodeLink<W<u64>, 4, K, Sha256, Complete>) -> Vec<Vec<u8>> {
    let mut out = Vec::new();
    if let Some((_hash, node)) = &link.0 {
        match &node.kind {
            Kind::Leaf { .. } => out.push(node.key.clone()),
            Kind::Opaque { .. } => unreachable!(),
            Kind::Branch { mask, children } => {
                assert_eq!(children.len(), K);
                assert!(children.iter().filter(|child| child.0.is_some()).count() >= 2);
                for (i, child) in children.iter().enumerate() {
                    for key in spelled(child) {
                        out.push(BitSeqOps::<K>::recover(&node.key, *mask, i as u8, &key));
                    }
                }
            }
        }
    }
    out
}

/// A few hundred keys of two bytes, in a scrambled order.
fn scrambled() -> Vec<[u8; 2]> {
    let mut out = Vec::new();
    let mut x: u32 = 12345;
    for _ in 0..300 {
        x = x.wrapping_mul(1664525).wrapping_add(1013904223);
        out.push([(x >> 24) as u8 & 0x1f, (x >> 12) as u8]);
    }
    out
}

fn behaves_like_a_map<const K: usize>() {
    let mut t: Small<K> = Trie::new();
    let mut m: BTreeMap<[u8; 2], u64> = BTreeMap::new();
    for (i, key) in scrambled().iter().enumerate() {
        if i % 3 == 2 {
            let victim = scrambled()[i / 2];
            assert_eq!(t.delete(&victim), Ok(m.remove(&victim).map(W)));
        } else {
            t.set(key, W(i as u64)).unwrap();
            m.insert(*key, i as u64);
        }
    }
    for key in scrambled() {
        assert_eq!(t.get(&key), Ok(m.get(&key).map(|v| W(*v)).as_ref()));
    }
    // what a trie holds determines its digest, whatever the order of the operations
    let mut again: Small<K> = Trie::new();
    for (key, value) in m.iter() {
        again.set(key, W(*value)).unwrap();
    }
    assert!(t.hash_eq(&again));
    assert!(t == again);
    let mut keys = spelled(t.root());
    keys.sort();
    assert_eq!(keys, m.keys().map(|key| key.to_vec()).collect::<Vec<_>>());
    for key in m.keys() {
        t.delete(key).unwrap();
    }
    assert_eq!(t.digest(), empty_hash::<Sha256>());
}

#[test]
fn binary_trie_behaves_like_a_map() {
    behaves_like_a_map::<2>();
}

#[test]
fn quaternary_trie_behaves_like_a_map() {
    behaves_like_a_map::<4>();
}

#[test]
fn hexadecimal_trie_behaves_like_a_map() {
    behaves_like_a_map::<16>();
}

#[test]
fn bytewise_trie_behaves_like_a_map() {
    behaves_like_a_map::<256>();
}

#[test]
fn get_after_set_and_delete() {
    let mut t: Small<16> = Trie::new();
    t.set(&[1, 2], W(1)).unwrap();
    t.set(&[1, 3], W(2)).unwrap();
    t.set(&[1, 2], W(3)).unwrap();
    assert_eq!(t.get(&[1, 2]), Ok(Some(&W(3))));
    assert_eq!(t.get(&[1, 3]), Ok(Some(&W(2))));
    assert_eq!(t.get(&[1, 4]), Ok(None));
    assert_eq!(t.delete(&[1, 2]), Ok(Some(W(3))));
    assert_eq!(t.delete(&[1, 2]), Ok(None));
    assert_eq!(t.get(&[1, 2]), Ok(None));
    assert_eq!(t.get(&[1, 3]), Ok(Some(&W(2))));
}

#[test]
fn sets_commute() {
    let mut a: Small<4> = Trie::new();
    a.set(&[9], W(1)).unwrap();
    a.set(&[7, 7], W(2)).unwrap();
    let mut b: Small<4> = Trie::new();
    b.set(&[7, 7], W(2)).unwrap();
    b.set(&[9], W(1)).unwrap();
    assert!(a.hash_eq(&b));
}

#[test]
fn delete_undoes_set_and_set_undoes_delete() {
    let mut t: Small<4> = Trie::new();
    t.set(&[0, 1], W(1)).unwrap();
    t.set(&[0, 2], W(2)).unwrap();
    t.set(&[0, 3], W(3)).unwrap();
    let before = t.digest();
    t.set(&[0, 9], W(4)).unwrap();
    assert_ne!(t.digest(), before);
    t.delete(&[0, 9]).unwrap();
    assert_eq!(t.digest(), before);
    t.delete(&[0, 2]).unwrap();
    assert_ne!(t.digest(), before);
    t.set(&[0, 2], W(2)).unwrap();
    assert_eq!(t.digest(), before);
}

#[test]
fn delete_keeps_the_other_children_of_a_branch() {
    let mut t: Small<4> = Trie::new();
    t.set(&[0], W(10)).unwrap();
    t.set(&[1], W(11)).unwrap();
    t.set(&[2], W(12)).unwrap();
    assert_eq!(t.delete(&[1]), Ok(Some(W(11))));
    assert_eq!(t.get(&[0]), Ok(Some(&W(10))));
    assert_eq!(t.get(&[2]), Ok(Some(&W(12))));
    assert_eq!(t.delete(&[0]), Ok(Some(W(10))));
    assert_eq!(t.get(&[2]), Ok(Some(&W(12))));
    let (_hash, node) = t.root().0.as_ref().unwrap();
    assert!(node.is_terminal());
    assert_eq!(node.key, vec![2]);
}

#[test]
fn keys_must_have_a_valid_length() {
    let mut t: Small<2> = Trie::new();
    assert_eq!(t.set(&[], W(1)), Err(TrieError::InvalidKeyLength));
    assert_eq!(t.set(&[1, 2, 3, 4, 5], W(1)), Err(TrieError::InvalidKeyLength));
    assert_eq!(t.get(&[]), Err(TrieError::InvalidKeyLength));
    assert_eq!(t.delete(&[1, 2, 3, 4, 5]), Err(TrieError::InvalidKeyLength));
    assert_eq!(t.set(&[1, 2, 3, 4], W(1)), Ok(()));
    assert_eq!(t.get(&[1, 2, 3, 4]), Ok(Some(&W(1))));
}

#[test]
fn prefixes_of_stored_keys_cannot_be_set() {
    let mut t: Small<2> = Trie::new();
    t.set(&[1, 2, 3], W(1)).unwrap();
    let before = t.digest();
    assert_eq!(t.set(&[1, 2], W(2)), Err(TrieError::SetOnPrefix));
    assert_eq!(t.set(&[1, 2, 3, 4], W(2)), Err(TrieError::SetOnPrefix));
    t.set(&[1, 3, 3], W(3)).unwrap();
    t.delete(&[1, 3, 3]).unwrap();
    assert_eq!(t.digest(), before);
    // a key that leads to a branch exactly
    t.set(&[7, 0], W(4)).unwrap();
    t.set(&[7, 1], W(5)).unwrap();
    let before = t.digest();
    assert_eq!(t.set(&[7], W(6)), Err(TrieError::UnsupportedSet));
    assert_eq!(t.digest(), before);
    assert_eq!(t.get(&[7]), Ok(None));
    assert_eq!(t.delete(&[7]), Ok(None));
}

struct Increment;

impl NodeUpdate<W<u64>> for Increment {
    fn on_occupied(self, existing_value: &mut W<u64>) {
        existing_value.0 += 1;
    }

    fn on_vacant(self) -> Option<W<u64>> {
        None
    }
}

#[test]
fn updates_are_applied_to_existing_values() {
    let mut t: Small<16> = Trie::new();
    assert_eq!(t.update(&[5, 6], Increment), Err(TrieError::MissingInitializer));
    t.set(&[5, 6], W(41)).unwrap();
    assert_eq!(t.update(&[5, 6], Increment), Ok(()));
    assert_eq!(t.get(&[5, 6]), Ok(Some(&W(42))));
    assert_eq!(t.update(&[5, 7], Increment), Err(TrieError::MissingInitializer));
    assert_eq!(t.update(&[5], Increment), Err(TrieError::SetOnPrefix));
    assert_eq!(t.update(&[], Increment), Err(TrieError::InvalidKeyLength));
    let mut same: Small<16> = Trie::new();
    same.set(&[5, 6], W(42)).unwrap();
    assert!(t.hash_eq(&same));
}

#[test]
fn errors_have_messages() {
    assert_eq!(TrieError::InvalidKeyLength.message(), "key length is invalid");
    assert_eq!(
        TrieError::MissingInitializer.message(),
        "cannot create leaf with null initializer"
    );
    assert_eq!(TrieError::UnsupportedSet.message(), "unsupported trie set");
    assert_eq!(TrieError::SetOnPrefix.message(), "cannot set a value on a prefix");
}

#[test]
fn clones_and_equal_tries_have_the_same_digest() {
    let mut t: Small<2> = Trie::new();
    t.set(&[1, 2], W(1)).unwrap();
    t.set(&[1, 3], W(2)).unwrap();
    let copy = t.clone();
    assert!(copy == t);
    assert!(copy.hash_eq(&t));
    t.set(&[1, 3], W(3)).unwrap();
    assert!(copy != t);
    assert!(!copy.hash_eq(&t));
    assert_eq!(copy.get(&[1, 3]), Ok(Some(&W(2))));
    let fresh: Small<2> = Default::default();
    assert!(fresh == Trie::new());
    assert!(fresh != copy);
}

#[test]
fn probes_end_where_the_key_leads() {
    let mut t: Small<2> = Trie::new();
    t.set(&[1, 2, 3], W(42)).unwrap();
    t.set(&[1, 2, 4], W(43)).unwrap();
    let start = BitPosition { index: 0, bits: 0 };
    match t.root().probe(None, &[1, 2, 3], start) {
        ProbeResult::ExactMatch(node) => assert_eq!(node.value_ref(), Some(&W(42))),
        _ => unreachable!(),
    }
    match t.root().probe(None, &[1, 2], start) {
        ProbeResult::ExactMatch(node) => assert_eq!(node.key, vec![1, 2, 0]),
        _ => unreachable!(),
    }
    match t.root().probe(None, &[1, 3], start) {
        ProbeResult::Disagreement(node, diff) => {
            assert_eq!(node.key, vec![1, 2, 0]);
            assert_eq!(diff, BitDiff { pos: BitPosition { index: 1, bits: 0 }, prefix: None });
        }
        _ => unreachable!(),
    }
    match t.root().probe(None, &[1, 2, 3, 0], start) {
        ProbeResult::Disagreement(node, diff) => {
            assert_eq!(node.value_ref(), Some(&W(42)));
            assert_eq!(diff.prefix, Some(1));
        }
        _ => unreachable!(),
    }
    match t.root().probe(Some(0), &[1, 2, 3], start) {
        ProbeResult::Bounded(node, next, slot) => {
            assert_eq!(node.key, vec![1, 2, 0]);
            assert_eq!(next, BitPosition { index: 2, bits: 1 });
            assert_eq!(slot, 1);
        }
        _ => unreachable!(),
    }
    assert!(matches!(t.root().probe(Some(1), &[1, 2, 3], start), ProbeResult::ExactMatch(_)));
    let mut wide: Small<4> = Trie::new();
    assert!(matches!(wide.root().probe(None, &[1], start), ProbeResult::EmptySlot(())));
    wide.set(&[0], W(1)).unwrap();
    wide.set(&[3], W(2)).unwrap();
    assert!(matches!(wide.root().probe(None, &[1], start), ProbeResult::EmptySlot(())));
}

#[test]
fn mutable_probes_stop_at_their_bound() {
    let mut t: Small<2> = Trie::new();
    t.set(&[1, 2, 3], W(42)).unwrap();
    t.set(&[1, 2, 4], W(43)).unwrap();
    let start = BitPosition { index: 0, bits: 0 };
    let mut link = t.root().clone();
    assert_eq!(link.probe_mut(Some(0), &[1, 2, 3], start, Delete), None);
    assert!(link == *t.root());
    assert_eq!(link.probe_mut(Some(1), &[1, 2, 3], start, Delete), Some(W(42)));
    t.delete(&[1, 2, 3]).unwrap();
    assert!(link == *t.root());
    assert_eq!(link.stored_digest(), t.digest());
    assert_eq!(link.probe_mut(Some(0), &[1, 2, 4], start, Delete), Some(W(43)));
    assert_eq!(link.stored_digest(), empty_hash::<Sha256>());
}

#[test]
fn clones_can_be_changed_like_their_originals() {
    let mut t: Small<4> = Trie::new();
    for key in scrambled() {
        t.set(&key, W(key[0] as u64)).unwrap();
    }
    let mut copy = t.clone();
    copy.set(&[0xff, 0xff, 1], W(5)).unwrap();
    assert_ne!(copy.digest(), t.digest());
    assert_eq!(copy.delete(&[0xff, 0xff, 1]), Ok(Some(W(5))));
    assert_eq!(copy.digest(), t.digest());
}
