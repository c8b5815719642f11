use merkle_trie::digestible::{Sha256, W};
use merkle_trie::node::{Hidden, Kind, Node, NodeLink};
use merkle_trie::{Complete, Partial, Trie, TrieError};

type Full<const K: usize> = Trie<W<u64>, 4, K, Sha256, Complete>;
type Part<const K: usize> = Trie<W<u64>, 4, K, Sha256, Partial>;

fn sample<const K: usize>() -> (Full<K>, Vec<[u8; 2]>) {
    let mut t: Full<K> = Trie::new();
    let mut keys = Vec::new();
    for i in 0..40u8 {
        let key = [i.wrapping_mul(37), i.wrapping_mul(11)];
        t.set(&key, W(i as u64)).unwrap();
        keys.push(key);
    }
    (t, keys)
}

fn presence<const K: usize>(t: &Part<K>, key: &[u8]) -> Option<bool> {
    for guess in [Some(true), Some(false), None] {
        if t.verify_keys(&vec![key], &vec![guess]) {
            return guess;
        }
    }
    unreachable!()
}

fn witnesses_prove_their_keys<const K: usize>() {
    let (t, keys) = sample::<K>();
    let asked: Vec<&[u8]> = vec![&keys[3], &keys[17], &[99, 99], &[], &[1, 2, 3, 4, 5, 6]];
    let clones = t.to_witness_for_keys(asked.clone());
    let hashes = t.to_hash_witness_for_keys(asked.clone());
    let mut pruned = t.clone().to_partial();
    pruned.prune_for_keys(asked.clone());
    // the digest is kept
    assert_eq!(clones.digest(), t.digest());
    assert_eq!(hashes.digest(), t.digest());
    assert_eq!(pruned.digest(), t.digest());
    // the keys are proved
    let proved: Vec<&[u8]> = vec![&keys[3], &keys[17], &[99, 99]];
    let expected = vec![Some(true), Some(true), Some(false)];
    assert!(clones.verify_keys(&proved, &expected));
    assert!(hashes.verify_keys(&proved, &expected));
    assert!(pruned.verify_keys(&proved, &expected));
    assert_eq!(clones.get(&keys[3]), Ok(Some(&W(3))));
    assert_eq!(pruned.get(&keys[17]), Ok(Some(&W(17))));
    // nothing false is proved
    let mut hidden = 0;
    for key in keys.iter() {
        assert_ne!(presence(&clones, key), Some(false));
        assert_eq!(presence(&clones, key), presence(&pruned, key));
        if presence(&clones, key).is_none() {
            hidden += 1;
            assert_eq!(clones.get(key), Ok(None));
        }
    }
    assert!(hidden > 20);
    assert!(clones == pruned);
    // pruning for the same keys again changes nothing
    let mut twice = pruned.clone();
    twice.prune_for_keys(asked);
    assert!(twice == pruned);
}

#[test]
fn binary_witnesses_prove_their_keys() {
    witnesses_prove_their_keys::<2>();
}

#[test]
fn quaternary_witnesses_prove_their_keys() {
    witnesses_prove_their_keys::<4>();
}

#[test]
fn hexadecimal_witnesses_prove_their_keys() {
    witnesses_prove_their_keys::<16>();
}

#[test]
fn bytewise_witnesses_prove_their_keys() {
    witnesses_prove_their_keys::<256>();
}

#[test]
fn hidden_branches_leave_their_keys_open() {
    let mut t: Full<2> = Trie::new();
    t.set(&[0b0000_0000], W(1)).unwrap();
    t.set(&[0b0000_0011], W(2)).unwrap();
    t.set(&[0b0000_0101], W(3)).unwrap();
    let mut p = t.to_partial();
    p.prune_for_keys(vec![&[0b0000_0000]]);
    assert_eq!(presence(&p, &[0b0000_0000]), Some(true));
    // both keys are below the branch that was hidden, and so is one that is not stored
    assert_eq!(presence(&p, &[0b0000_0011]), None);
    assert_eq!(presence(&p, &[0b0000_0101]), None);
    assert_eq!(presence(&p, &[0b1111_1111]), None);
    // this one is not
    assert_eq!(presence(&p, &[0b0000_0010]), Some(false));
}

#[test]
fn keys_that_lead_to_a_branch_are_absent() {
    let mut t: Full<2> = Trie::new();
    t.set(&[7, 0], W(1)).unwrap();
    t.set(&[7, 1], W(2)).unwrap();
    let keys: Vec<&[u8]> = vec![&[7], &[7, 0], &[7, 1, 0]];
    assert!(t.verify_keys(&keys, &vec![Some(false), Some(true), Some(false)]));
}

#[test]
fn each_key_is_verified() {
    let mut t: Full<2> = Trie::new();
    t.set(&[0, 1], W(1)).unwrap();
    t.set(&[0, 2], W(2)).unwrap();
    let mut p = t.to_partial();
    p.prune_for_keys(vec![&[0, 1]]);
    let queries: Vec<(&[u8], Option<bool>)> = vec![
        (&[], Some(true)),
        (&[0, 1], Some(true)),
        (&[0, 1], Some(false)),
        (&[0, 2], Some(true)),
        (&[0, 2], None),
        (&[1, 1, 1, 1, 1], None),
    ];
    assert_eq!(
        p.verify_each_key(&queries),
        vec![
            Err(TrieError::InvalidKeyLength),
            Ok(None),
            Ok(Some(true)),
            Ok(Some(false)),
            Ok(None),
            Err(TrieError::InvalidKeyLength),
        ]
    );
    assert!(!p.verify_keys(&vec![&[0, 1][..]], &vec![]));
}

#[test]
fn hash_witness_values_are_leaf_digests() {
    let mut t: Full<2> = Trie::new();
    t.set(&[1, 2, 3], W(42)).unwrap();
    let witness = t.to_hash_witness_for_keys(vec![&[1, 2, 3]]);
    let value = witness.get(&[1, 2, 3]).unwrap().unwrap();
    assert_eq!(value.digest, t.digest());
}

#[test]
fn partial_tries_can_be_changed() {
    let (t, keys) = sample::<4>();
    let mut p = t.clone().to_partial();
    p.prune_for_keys(vec![&keys[5]]);
    p.set(&keys[5], W(500)).unwrap();
    let mut full = t.clone();
    full.set(&keys[5], W(500)).unwrap();
    assert_eq!(p.digest(), full.digest());
    assert_eq!(p.delete(&keys[5]), Ok(Some(W(500))));
    assert_eq!(p.get(&keys[5]), Ok(None));
    assert_eq!(presence(&p, &keys[5]), Some(false));
}

#[test]
fn absent_keys_are_proved_absent() {
    let (t, keys) = sample::<16>();
    let absent = [0xff, 0xff];
    assert!(!keys.contains(&absent));
    let mut p = t.clone().to_partial();
    p.prune_for_keys(vec![&absent, &keys[3]]);
    assert_eq!(p.digest(), t.digest());
    assert_eq!(presence(&p, &absent), Some(false));
    assert_eq!(t.get(&absent), Ok(None));
    for key in &keys {
        let told = presence(&p, key);
        assert!(told.is_none() || told == Some(true));
    }
    assert_eq!(presence(&p, &keys[3]), Some(true));
}

fn stub(key: Vec<u8>, digest: Vec<u8>, mask: u8) -> NodeLink<W<u64>, 4, 2, Sha256, Partial> {
    let kind = Kind::Opaque { digest: digest.clone(), mask, marker: Hidden };
    NodeLink(Some((digest, Box::new(Node { key, kind }))))
}

#[test]
fn stubs_are_equal_where_key_and_digest_are() {
    let one = stub(vec![4], vec![7, 8], 0);
    assert!(one == stub(vec![4], vec![7, 8], 1));
    assert!(one != stub(vec![5], vec![7, 8], 0));
    assert!(one != stub(vec![4], vec![7, 9], 0));
}

fn new_keys_are_followed<const K: usize>() {
    let (t, keys) = sample::<K>();
    // an empty slot or a split, within a fragment and in the first byte
    for key in [[0xff, 0xff], [keys[7][0], 0xfe], [0x03, 0x01], [keys[9][0], keys[9][1] ^ 0x10]] {
        assert!(!keys.contains(&key));
        let mut pruned = t.clone().to_partial();
        pruned.prune_for_keys(vec![&key]);
        let mut cloned = t.to_witness_for_keys(vec![&key]);
        let mut full = t.clone();
        full.set(&key, W(900)).unwrap();
        pruned.set(&key, W(900)).unwrap();
        cloned.set(&key, W(900)).unwrap();
        assert_ne!(full.digest(), t.digest());
        assert_eq!(pruned.digest(), full.digest());
        assert_eq!(cloned.digest(), full.digest());
    }
}

#[test]
fn pruned_tries_follow_new_keys() {
    new_keys_are_followed::<2>();
    new_keys_are_followed::<4>();
    new_keys_are_followed::<16>();
    new_keys_are_followed::<256>();
}

#[test]
fn keys_are_verified_by_value_and_by_reference() {
    let mut t: Full<2> = Trie::new();
    t.set(&[1, 2, 3], W(42)).unwrap();
    let keys: Vec<&[u8]> = vec![&[1, 2, 3], &[4]];
    let expected = vec![Some(true), Some(false)];
    assert!(t.verify_keys(&keys, &expected));
    assert!(t.verify_keys(&keys, expected.clone()));
    assert!(t.verify_keys(keys.clone(), &expected));
    assert!(!t.verify_keys(keys, vec![Some(true), None]));
}
