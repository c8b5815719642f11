use merkle_trie::digestible::{empty_hash, Sha256, W};
use merkle_trie::{Complete, Digest, Digestible, Trie};

fn hex(bytes: &[u8]) -> String {
    bytes.iter().map(|b| format!("{:02x}", b)).collect()
}

fn two_keys<const K: usize>() -> Trie<W<u64>, 4, K, Sha256, Complete> {
    let mut t: Trie<W<u64>, 4, K, Sha256, Complete> = Trie::new();
    t.set(&[1, 2, 3], W(42)).unwrap();
    t.set(&[1, 2, 4], W(43)).unwrap();
    t
}

#[test]
fn empty_trie_has_empty_hash() {
    let t: Trie<W<u64>, 4, 2, Sha256, Complete> = Trie::new();
    assert_eq!(
        hex(&t.digest()),
        "e3b0c44298fc1c149afbf4c8996fb92427ae41e4649b934ca495991b7852b855"
    );
    assert_eq!(t.digest(), empty_hash::<Sha256>());
}

#[test]
fn leaf_digest_covers_key_and_value() {
    let mut t: Trie<W<u64>, 4, 2, Sha256, Complete> = Trie::new();
    t.set(&[1, 2, 3], W(42)).unwrap();
    assert_eq!(
        hex(&t.digest()),
        "a93de95d7fcce14c6dce6e96fcc6c8d99f273511b61df20cdc0c4902c3873d07"
    );
}

struct Bytes(Vec<u8>);

impl Digestible for Bytes {
    fn update_hasher<D: Digest>(&self, hasher: &mut D) {
        hasher.update(&self.0);
    }
}

#[test]
fn leaf_digest_tells_key_and_value_apart() {
    let mut a: Trie<Bytes, 4, 2, Sha256, Complete> = Trie::new();
    let mut b: Trie<Bytes, 4, 2, Sha256, Complete> = Trie::new();
    a.set(&[1, 2], Bytes(vec![3])).unwrap();
    b.set(&[1], Bytes(vec![2, 3])).unwrap();
    assert!(!a.hash_eq(&b));
    b.delete(&[1]).unwrap();
    b.set(&[1, 2], Bytes(vec![3])).unwrap();
    assert!(a.hash_eq(&b));
}

#[test]
fn branch_digest_covers_key_mask_and_children() {
    assert_eq!(
        hex(&two_keys::<2>().digest()),
        "1c2fa14f31842d77441e9b8fabf01f18d28326b45b819be03dcd44ed4fed1f9f"
    );
    assert_eq!(
        hex(&two_keys::<16>().digest()),
        "232574a3bd06c5a1664aa5b0c6b3a5b669ce4ce469c60f80df7007e6a4c5199f"
    );
    assert_eq!(
        hex(&two_keys::<256>().digest()),
        "8c2c5db9fef98fb010f3d4b144056bbba20cdcc73fa9d13673b57b7975ff0638"
    );
}

#[test]
fn hash_function_does_not_depend_on_the_pieces() {
    let mut whole = Sha256::new();
    whole.update(b"abc");
    let mut pieces = Sha256::new();
    pieces.update(b"a");
    pieces.update(b"");
    pieces.update(b"bc");
    let expected = "ba7816bf8f01cfea414140de5dae2223b00361a396177a9cb410ff61f20015ad";
    assert_eq!(hex(&whole.finalize()), expected);
    assert_eq!(hex(&pieces.finalize()), expected);
}

fn encoded<T: Digestible>(value: T) -> Vec<u8> {
    let mut hasher = Sha256::new();
    value.update_hasher(&mut hasher);
    hasher.finalize()
}

fn hashed(bytes: &[u8]) -> Vec<u8> {
    let mut hasher = Sha256::new();
    hasher.update(bytes);
    hasher.finalize()
}

#[test]
fn numbers_are_hashed_as_little_endian_bytes() {
    assert_eq!(encoded(W(0xa1u8)), hashed(&[0xa1]));
    assert_eq!(encoded(W(0xa1b2u16)), hashed(&[0xb2, 0xa1]));
    assert_eq!(encoded(W(0xa1b2c3d4u32)), hashed(&0xa1b2c3d4u32.to_le_bytes()));
    assert_eq!(encoded(W(u64::MAX - 7)), hashed(&(u64::MAX - 7).to_le_bytes()));
    assert_eq!(encoded(W(u128::MAX - 7)), hashed(&(u128::MAX - 7).to_le_bytes()));
    assert_eq!(encoded(W(-2i8)), hashed(&(-2i8).to_le_bytes()));
    assert_eq!(encoded(W(-2i16)), hashed(&(-2i16).to_le_bytes()));
    assert_eq!(encoded(W(i32::MIN)), hashed(&i32::MIN.to_le_bytes()));
    assert_eq!(encoded(W(-300i64)), hashed(&(-300i64).to_le_bytes()));
    assert_eq!(encoded(W(-300i128)), hashed(&(-300i128).to_le_bytes()));
    assert_eq!(encoded(W(70000usize)), hashed(&70000usize.to_le_bytes()));
    assert_eq!(encoded(W(-70000isize)), hashed(&(-70000isize).to_le_bytes()));
    assert_eq!(encoded(W(true)), hashed(&[1]));
    assert_eq!(encoded(W(false)), hashed(&[0]));
}

#[test]
fn trie_is_hashed_as_its_digest() {
    let t = two_keys::<4>();
    let digest = t.digest();
    assert_eq!(encoded(t), hashed(&digest));
}
