use merkle_trie::bitseqops::{
    find_first_distinct_bits, isolate_prefix_mask, isolate_suffix_mask, BitDiff, BitPosition, BitSeqOps,
};
use merkle_trie::debug::{Elided, ValueText};
use merkle_trie::digestible::{Sha256, W};
use merkle_trie::utils::{
    copy_slice_into_box, pick_mut_unchecked, same_bytes, to_ascii, to_bin, to_hex, NonNone, NonNoneMut,
};
use merkle_trie::{Complete, Trie};

#[test]
fn bytes_as_text() {
    assert_eq!(to_hex::<true>(&[0x1f, 0x02, 0xa0]), "1f 02 a0");
    assert_eq!(to_hex::<false>(&[0x1f, 0x02, 0xa0]), "f1 20 0a");
    assert_eq!(to_hex::<true>(&[]), "");
    assert_eq!(to_bin::<true>(&[0b1100_0001, 1]), "11000001 00000001");
    assert_eq!(to_bin::<false>(&[0b1100_0001, 1]), "10000011 10000000");
    assert_eq!(to_bin::<false>(&[]), "");
    assert_eq!(to_ascii(b"aZ~ '\"\\"), "aZ~ \\'\\\"\\\\");
    assert_eq!(to_ascii(b"\t\n\r"), "\\x09\\x0a\\x0d");
    assert_eq!(to_ascii(&[0, 0x7f, 0xab]), "\\x00\\x7f\\xab");
}

#[test]
fn bytes_that_cannot_be_printed_are_hexadecimal_escapes() {
    for b in 0..=255u8 {
        let expected = match b {
            0x20..=0x7e => std::ascii::escape_default(b).map(|c| c as char).collect(),
            _ => format!("\\x{:02x}", b),
        };
        assert_eq!(to_ascii(&[b]), expected);
    }
}

#[test]
fn bytes_are_copied_and_compared() {
    assert_eq!(copy_slice_into_box(&[3, 1, 2]), vec![3, 1, 2]);
    assert_eq!(copy_slice_into_box(&[]), Vec::<u8>::new());
    assert!(same_bytes(&[1, 2], &[1, 2]));
    assert!(!same_bytes(&[1, 2], &[1, 3]));
    assert!(!same_bytes(&[1, 2], &[1, 2, 3]));
}

#[test]
fn options_that_are_not_none() {
    let none: Option<u8> = None;
    assert!(NonNone::new(&none).is_none());
    let some = Some(5u8);
    let found = NonNone::new(&some).unwrap();
    assert_eq!(*found.get(), 5);
    assert_eq!(*found.into_inner(), Some(5));
}

#[test]
fn mutable_options_that_are_not_none() {
    let mut none: Option<u8> = None;
    assert!(NonNoneMut::new(&mut none).is_none());
    let mut some = Some(5u8);
    {
        let mut found = NonNoneMut::new(&mut some).unwrap();
        assert_eq!(*found.reborrow_ref(), 5);
        *found.reborrow_mut() += 1;
        *found.into_mut() *= 2;
    }
    assert_eq!(some, Some(12));
    *NonNoneMut::new(&mut some).unwrap().into_inner() = None;
    assert_eq!(some, None);
}

#[test]
fn picked_elements_can_be_changed() {
    let mut numbers = [10, 11, 12, 13, 14];
    for (i, number) in pick_mut_unchecked(&mut numbers, &[3, 0, 4]).into_iter().enumerate() {
        *number += 100 * (i as i32 + 1);
    }
    assert_eq!(numbers, [210, 11, 12, 113, 314]);
    assert!(pick_mut_unchecked(&mut numbers, &[]).is_empty());
}

#[test]
fn masks_of_bits() {
    for i in 0..8 {
        assert_eq!(isolate_prefix_mask(i) as u32, (1u32 << (i + 1)) - 1);
        assert_eq!(isolate_suffix_mask(i), !isolate_prefix_mask(i));
    }
    assert_eq!(isolate_prefix_mask(2), 0b0000_0111);
    assert_eq!(isolate_suffix_mask(2), 0b1111_1000);
    assert_eq!(isolate_suffix_mask(7), 0);
    assert_eq!(BitSeqOps::<8>::mask(4), 0b0011_1000);
    assert_eq!(BitSeqOps::<128>::mask(7), 0b1000_0000);
    assert_eq!(BitSeqOps::<16>::mask_value(&[0, 0xa5], 1, 6), 0xa);
}

#[test]
fn positions_move_to_the_end_of_their_chunk() {
    let pos = BitPosition { index: 3, bits: 5 };
    assert_eq!(pos.increment::<2>(), BitPosition { index: 3, bits: 6 });
    assert_eq!(pos.increment::<4>(), BitPosition { index: 3, bits: 6 });
    assert_eq!(pos.increment::<16>(), BitPosition { index: 3, bits: 8 });
    assert_eq!(pos.increment::<256>(), BitPosition { index: 3, bits: 8 });
}

fn diff(index: usize, bits: usize, prefix: Option<usize>) -> Option<BitDiff> {
    Some(BitDiff { pos: BitPosition { index, bits }, prefix })
}

#[test]
fn bits_before_the_offset_and_after_the_end_do_not_count() {
    let a = [0b0000_0001, 0b1000_0000];
    let b = [0b0000_0000, 0b0000_0000];
    assert_eq!(find_first_distinct_bits(&a, &b, 0, None, None), diff(0, 0, None));
    assert_eq!(find_first_distinct_bits(&a, &b, 1, None, None), diff(1, 7, None));
    assert_eq!(find_first_distinct_bits(&a, &b, 1, Some(14), Some(14)), None);
    assert_eq!(find_first_distinct_bits(&a, &b, 1, Some(14), None), diff(1, 7, Some(0)));
    assert_eq!(find_first_distinct_bits(&a, &b, 3, None, Some(4)), diff(0, 7, Some(1)));
    assert_eq!(find_first_distinct_bits(&a, &b, 8, Some(7), Some(7)), None);
    assert_eq!(find_first_distinct_bits(&a, &a, 16, None, None), None);
}

#[test]
fn differences_are_mirrored() {
    let a = [0b0010_1101, 0b1000_0000];
    let b = [0b0010_1101, 0b0100_0000];
    assert_eq!(find_first_distinct_bits(&a, &b, 3, None, None), diff(1, 6, None));
    assert_eq!(find_first_distinct_bits(&b, &a, 3, None, None), diff(1, 6, None));
    assert_eq!(find_first_distinct_bits(&a[..1], &b, 3, None, None), diff(1, 0, Some(0)));
    assert_eq!(find_first_distinct_bits(&b, &a[..1], 3, None, None), diff(1, 0, Some(1)));
}

#[test]
fn recover_undoes_a_split() {
    let src = [0xde, 0xad, 0xbe, 0xef];
    for index in 0..4 {
        for bits in 0..8 {
            let found = BitDiff { pos: BitPosition { index, bits }, prefix: None };
            let prefix = found.write_prefix::<4>(&src);
            let suffix = found.write_suffix::<4>(&src);
            let value = found.mask_value::<4>(&src);
            let merged = BitSeqOps::<4>::recover(&prefix, found.mask::<4>(), value as u8, &suffix);
            assert_eq!(merged, src);
        }
    }
}

struct Numbers;

impl ValueText<W<u64>> for Numbers {
    fn push_value(&self, out: &mut String, value: &W<u64>) {
        out.push_str(&format!("{:?}", value.0));
    }
}

#[test]
fn tries_as_text() {
    let mut t: Trie<W<u64>, 4, 2, Sha256, Complete> = Trie::new();
    assert_eq!(t.debug_text(), "Trie(Empty)");
    assert_eq!(t.root().debug_label(), "Trie(Empty)");
    t.set(&[1, 2, 3], W(42)).unwrap();
    t.set(&[1, 2, 4], W(43)).unwrap();
    assert_eq!(
        t.debug_text(),
        "c1 f2 1a f4 -> B(10000000 01000000 00000000, 10000000, \n    0: 23 fc d4 2c -> L(00100000, ..)\n    1: 64 48 34 f0 -> L(01000000, ..)\n)"
    );
    assert_eq!(
        t.debug_with_values(&Numbers),
        "c1 f2 1a f4 -> B(10000000 01000000 00000000, 10000000, \n    0: 23 fc d4 2c -> L(00100000, 43)\n    1: 64 48 34 f0 -> L(01000000, 42)\n)"
    );
    assert_eq!(t.debug_with_values(&Elided), t.debug_text());
    assert_eq!(
        t.root().debug_label(),
        "c1 f2 1a f4 -> B(10000000 01000000 00000000,10000000,..)"
    );
    let mut p = t.to_partial();
    p.prune_for_keys(vec![&[1, 2, 3]]);
    assert_eq!(
        p.debug_text(),
        "c1 f2 1a f4 -> B(10000000 01000000 00000000, 10000000, \n    0: 23 fc d4 2c -> O(23 fc d4 2c)\n    1: 64 48 34 f0 -> L(01000000, ..)\n)"
    );
}

#[test]
fn empty_children_as_text() {
    let mut t: Trie<W<u64>, 4, 4, Sha256, Complete> = Trie::new();
    t.set(&[0], W(1)).unwrap();
    t.set(&[3], W(2)).unwrap();
    let text = t.debug_text();
    let lines: Vec<&str> = text.split('\n').collect();
    assert_eq!(lines.len(), 6);
    assert_eq!(lines[2], "    1: E");
    assert_eq!(lines[3], "    2: E");
    assert_eq!(lines[5], ")");
}

#[test]
fn child_numbers_are_aligned() {
    let mut t: Trie<W<u64>, 4, 256, Sha256, Complete> = Trie::new();
    t.set(&[0], W(1)).unwrap();
    t.set(&[3], W(2)).unwrap();
    let text = t.debug_text();
    let lines: Vec<&str> = text.split('\n').collect();
    assert_eq!(lines.len(), 258);
    assert_eq!(lines[8], "    7: E");
    assert_eq!(lines[43], "   42: E");
    assert_eq!(lines[256], "  255: E");
}

#[test]
fn debug_texts() {
    let pos = BitPosition { index: 312, bits: 5 };
    assert_eq!(format!("{:?}", pos), "{312:5}");
    assert_eq!(pos.debug_text(), "{312:5}");
    let found = BitDiff { pos, prefix: Some(1) };
    assert_eq!(format!("{:?}", found), "BitDiff { pos: {312:5}, prefix: Some(1) }");
    assert_eq!(format!("{:?}", W(42u64)), "42");
    assert_eq!(format!("{:?}", W(true)), "true");
    let mut t: Trie<W<u64>, 4, 2, Sha256, Complete> = Trie::new();
    assert_eq!(format!("{:?}", t), "Trie(Empty)");
    t.set(&[4], W(43)).unwrap();
    t.set(&[2], W(42)).unwrap();
    assert_eq!(format!("{:?}", t), t.debug_text());
    assert_eq!(format!("{:?}", t.root()), t.debug_text());
    let (_, node) = t.root().0.as_ref().unwrap();
    assert!(format!("{:?}", node).starts_with("B(00000000, 01000000, \n    0: "));
    assert!(t.debug_text().ends_with(&format!("{:?}", node)));
}
