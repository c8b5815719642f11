# merkle_trie

A generic, Merkleized, compressed trie, verified with Verus.

1. _Trie_ - Keys are byte strings of some maximum size. Each node stores a fragment of a key; the true key of a
   value is the concatenation of the fragments along the path from the root to its leaf.
2. _Compressed_ - Single-child nodes are merged with their parents, so branches have at least two children.
3. _Merkleized_ - Each node has a digest. That of a leaf is the hash of two hashes, of its key and of its value; that
   of a branch is the hash of its key, its mask and its children's digests. A part of a trie can be replaced by a stub
   that holds its digest; what is left is a partial trie, or witness.
4. _Generic_ - The value type, the maximum key length, the branching factor (2, 4, 16 or 256), the hash function and
   the mode (`Complete` or `Partial`) are parameters.

Values can be set on leaves only: a key cannot be set where it is a proper prefix of a stored key, or a stored key
is a proper prefix of it.

```rust
use merkle_trie::digestible::{Sha256, W};
use merkle_trie::{Complete, Trie};

let mut t: Trie<W<u64>, 4, 2, Sha256, Complete> = Trie::new();
t.set(&[1, 2, 3], W(45)).unwrap();
t.set(&[1, 2, 4], W(78)).unwrap();
let witness = t.to_witness_for_keys(vec![&[1, 2, 3]]);
assert_eq!(witness.digest(), t.digest());
assert!(witness.verify_keys(&vec![&[1, 2, 3][..], &[1, 2, 4][..]], &vec![Some(true), None]));
```

## Layout

| Module       | Contents                                                                            |
| ---          | ---                                                                                 |
| `bitseqops`  | operations on bit strings: comparing, splitting and joining them                    |
| `digestible` | hash functions and the values that can be hashed                                    |
| `tree`       | the mathematical model of a trie, and how a change of one key changes it            |
| `node`       | nodes, and the probes that read and change a trie                                   |
| `witness`    | pruning a trie, and building a witness beside it                                    |
| `trie`       | the trie type and its interface                                                     |
| `debug`      | a nested presentation of a trie as text                                             |
| `utils`      | references to options, copies of bytes, bytes as text                               |
| `canonical`  | what a trie holds determines its structure                                          |
| `conflicts`  | which keys stand in the way of others                                               |
| `spelling`   | the keys that the fragments of a trie spell                                         |
| `replay`     | setting a key in a trie and in a witness of it                                      |
| `sealed`     | the seal of the modes of a trie (private)                                           |
| `soundness`  | what follows from equal digests                                                     |
| `laws`       | what holds of every trie, and of the operations in turn                             |

`app/` holds what needs traits of the standard library or of the `digest` crate: a standard error type, a `Debug` view
that prints leaf values, and an adapter for any hash function of that crate.
