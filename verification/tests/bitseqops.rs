use merkle_trie::bitseqops::{find_first_distinct_bits, lz_mask, tz_mask, BitDiff, BitSeqOps};
use merkle_trie::utils::to_bin;

#[test]
fn test_mask_shift() {
    let masks: &[u8] = &[0b00000000, 0b00000001, 0b00000010, 0b00000100, 0b00001100, 0b00110000, 0b01000000, 0b10000000];
    let mask_leading: &[u8] = &[0b11111111, 0b11111110, 0b11111100, 0b11111000, 0b11110000, 0b11000000, 0b10000000, 0b00000000];
    let mask_trailing: &[u8] = &[0b11111111, 0b00000000, 0b00000001, 0b00000011, 0b00000011, 0b00001111, 0b00111111, 0b01111111];
    for idx in 0..masks.len() {
        let mask = masks[idx];
        let mask_leading = mask_leading[idx];
        let mask_trailing = mask_trailing[idx];
        println!("{:#010b} leading: {} trailing: {}", mask, mask.leading_zeros(), mask.trailing_zeros());
        println!("{:#010b} Expected Leading\n{:#010b} Actual Leading\n{:#010b} Mask\n{:#010b} Actual Trailing\n{:#010b} Expected Trailing", mask_leading, lz_mask(mask), mask, tz_mask(mask), mask_trailing);
        assert_eq!(mask_leading, lz_mask(mask));
        assert_eq!(mask_trailing, tz_mask(mask));
    }
}

#[test]
fn test_find_first_distinct_bits_diff() {
    // Static byte slices used to build expected splits, i.e., prefix/suffix pairs
    const Z:   &[u8] = &[0u8];
    const O:   &[u8] = &[1u8];
    const H:   &[u8] = &[0b10000000u8];
    const Z8:  &[u8] = &[0u8; 8];

    type BitSplit = (bool, u8, Vec<u8>, Vec<u8>, Vec<u8>, usize, usize);
    fn mk_bit_split<const K: usize>(diff: &BitDiff, a: &[u8], b: &[u8]) -> BitSplit {
        let p = BitSeqOps::<K>::write_aligned_prefix(&diff, a).to_vec();
        let a_s = BitSeqOps::<K>::write_aligned_suffix(&diff.pos, a).to_vec();
        let b_s = BitSeqOps::<K>::write_aligned_suffix(&diff.pos, b).to_vec();
        let (mask, a_i, b_i) = if diff.prefix.is_none() {
            println!("a was {}", to_bin::<false>(a));
            println!("b was {}", to_bin::<false>(b));
            println!("mask was {}", to_bin::<false>(&[BitSeqOps::<K>::mask(diff.pos.bits)]));
            let mask = BitSeqOps::<K>::mask(diff.pos.bits);
            let a_i = BitSeqOps::<K>::mask_value(a, diff.pos.index, diff.pos.bits);
            let b_i = BitSeqOps::<K>::mask_value(b, diff.pos.index, diff.pos.bits);
            // check merge works
            assert_eq!(a, &*BitSeqOps::<K>::recover(p.as_slice(), mask, a_i as u8, a_s.as_slice()));
            assert_eq!(b, &*BitSeqOps::<K>::recover(p.as_slice(), mask, b_i as u8, b_s.as_slice()));
            (mask, a_i, b_i)
        } else {
            (0,0,0)
        };
        (diff.prefix.is_some(), mask, p, a_s, b_s, a_i, b_i)
    }

    fn d(pre: &'static [u8], sa: &'static [u8], sb: &'static [u8], mask: u8, values: [usize; 2]) -> Option<BitSplit> {
        Some((false, mask, pre.to_vec(), sa.to_vec(), sb.to_vec(), values[0], values[1]))
    }

    // inputs contains: bitstring: a, bitstring: b
    let inputs: [(&[u8], &[u8]); 10] = [
        // check for splits using 1-bit diffs
        (&[0b00000001], &[0b00000000]),
        (&[0b00000010], &[0b00000000]),
        (&[0b00000100], &[0b00000000]),
        (&[0b00001000], &[0b00000000]),
        (&[0b00010000], &[0b00000000]),
        (&[0b00100000], &[0b00000000]),
        (&[0b01000000], &[0b00000000]),
        (&[0b10000000], &[0b00000000]),
        // check that bits before/after split are NOT masked out
        (&[0b10010001], &[0b10000001]),
        // check that multi-byte striding works
        (&[0,0,0,0,0,0,0, 0b00100], &[0,0,0,0,0,0,0, 0b00000]),
    ];

    // K=2 (K_BITS=1): each 1-bit chunk is the full mask.
    let outs_1: [Option<BitSplit>; 10] = [
        d(Z,   Z, Z, 0b00000001, [1, 0]),   // 0
        d(Z,   Z, Z, 0b00000010, [1, 0]),   // 1
        d(Z,   Z, Z, 0b00000100, [1, 0]),   // 2
        d(Z,   Z, Z, 0b00001000, [1, 0]),   // 3
        d(Z,   Z, Z, 0b00010000, [1, 0]),   // 4
        d(Z,   Z, Z, 0b00100000, [1, 0]),   // 5
        d(Z,   Z, Z, 0b01000000, [1, 0]),   // 6
        d(Z,   Z, Z, 0b10000000, [1, 0]),   // 7
        d(O,   H, H, 0b00010000, [1, 0]),   // 8: noise bits survive in prefix/suffix
        d(Z8,  Z, Z, 0b00000100, [1, 0]),   // 9: diff found via 8-byte SIMD stride
    ];

    // K=4 (K_BITS=2): each 2-bit aligned chunk is the mask.
    let outs_2: [Option<BitSplit>; 10] = [
        d(Z,   Z, Z, 0b00000011, [1, 0]),   // 0
        d(Z,   Z, Z, 0b00000011, [2, 0]),   // 1
        d(Z,   Z, Z, 0b00001100, [1, 0]),   // 2
        d(Z,   Z, Z, 0b00001100, [2, 0]),   // 3
        d(Z,   Z, Z, 0b00110000, [1, 0]),   // 4
        d(Z,   Z, Z, 0b00110000, [2, 0]),   // 5
        d(Z,   Z, Z, 0b11000000, [1, 0]),   // 6
        d(Z,   Z, Z, 0b11000000, [2, 0]),   // 7
        d(O,   H, H, 0b00110000, [1, 0]),   // 8
        d(Z8,  Z, Z, 0b00001100, [1, 0]),   // 9
    ];

    // K=16 (K_BITS=4): each 4-bit aligned chunk is the mask.
    let outs_4: [Option<BitSplit>; 10] = [
        d(Z,   Z, Z, 0b00001111, [1, 0]),   // 0
        d(Z,   Z, Z, 0b00001111, [2, 0]),   // 1
        d(Z,   Z, Z, 0b00001111, [4, 0]),   // 2
        d(Z,   Z, Z, 0b00001111, [8, 0]),   // 3
        d(Z,   Z, Z, 0b11110000, [1, 0]),   // 4
        d(Z,   Z, Z, 0b11110000, [2, 0]),   // 5
        d(Z,   Z, Z, 0b11110000, [4, 0]),   // 6
        d(Z,   Z, Z, 0b11110000, [8, 0]),   // 7
        d(O,   Z, Z, 0b11110000, [9, 8]),   // 8
        d(Z8,  Z, Z, 0b00001111, [4, 0]),   // 9
    ];

    // K=256 (K_BITS=8): the full byte is always the mask.
    let outs_8: [Option<BitSplit>; 10] = [
        d(Z,   Z, Z, 0xFF, [  1,   0]),   // 0
        d(Z,   Z, Z, 0xFF, [  2,   0]),   // 1
        d(Z,   Z, Z, 0xFF, [  4,   0]),   // 2
        d(Z,   Z, Z, 0xFF, [  8,   0]),   // 3
        d(Z,   Z, Z, 0xFF, [ 16,   0]),   // 4
        d(Z,   Z, Z, 0xFF, [ 32,   0]),   // 5
        d(Z,   Z, Z, 0xFF, [ 64,   0]),   // 6
        d(Z,   Z, Z, 0xFF, [128,   0]),   // 7
        d(Z,   Z, Z, 0xFF, [145, 129]),   // 8
        d(Z8,  Z, Z, 0xFF, [  4,   0]),   // 9
    ];

    for (idx, (in1, in2)) in inputs.iter().enumerate() {
        println!("Loop Idx: {idx}");

        let bit_diff = find_first_distinct_bits(in1, in2, 0, Some(in1.len()*8), Some(in2.len()*8));
        println!("BitDiff: {:?}", bit_diff);

        let res_1 = bit_diff.as_ref().map(|v| mk_bit_split::<2>(v, in1, in2));
        println!("1: {:?}", res_1);
        assert_eq!(res_1, outs_1[idx]);

        let res_2 = bit_diff.as_ref().map(|v| mk_bit_split::<4>(v, in1, in2));
        println!("2: {:?}", res_2);
        assert_eq!(res_2, outs_2[idx]);

        let res_4 = bit_diff.as_ref().map(|v| mk_bit_split::<16>(v, in1, in2));
        println!("4: {:?}", res_4);
        assert_eq!(res_4, outs_4[idx]);

        let res_8 = bit_diff.as_ref().map(|v| mk_bit_split::<256>(v, in1, in2));
        println!("8: {:?}", res_8);
        assert_eq!(res_8, outs_8[idx]);
    }
}

#[test]
fn test_find_first_distinct_bits_prefix() {
    let inputs: [(&[u8], &[u8], usize); 6] = [
        (&[], &[0], 0),                             // empty prefix
        (&[0,0], &[0b00000001], 0),                 // truncated-to-empty prefix
        (&[0], &[0b00000010], 1),                   // 1-bit prefix
        (&[0,1], &[0,1,1], 16),                     // whole byte prefix
        (&[0,0b00010000], &[0,0b11110000], 12),     // partial byte prefix with no extra bytes
        (&[0,0b00010000], &[0,0b11110000, 1], 12),  // partial byte prefix with extra bytes
    ];

    for (a,b, a_bits) in inputs.into_iter() {
        let diff = find_first_distinct_bits(a, b, 0, Some(a_bits), None).expect("failed to find prefix");
        let expected_bytes =  a_bits / 8;
        let expected_bits = a_bits % 8;
        assert!(diff.prefix.is_some());
        assert_eq!(diff.pos.index, expected_bytes);
        assert_eq!(diff.pos.bits, expected_bits);
    }
}
