//! Ternary digits in bytes and words, and the fused layout of a layer.

use compute_image::compile::int4_pack::{
    decompress_ternary_u32_tensor, interleave_fused_ternary_layer, pack_5_trits,
    quantize_to_ternary_block32, repack_ternary_tensor, unpack_byte_5_trits,
    AlignedTernaryBlock32, TernaryBlock32,
};

fn word_of(digits: &[u32; 20]) -> u32 {
    let mut val = 0u32;
    let mut mul = 1u32;
    for i in 0..20 {
        val += digits[i] * mul;
        if i < 19 {
            mul *= 3;
        }
    }
    val
}

#[test]
fn test_pack_5_trits_roundtrip() {
    let test_cases = [
        [0u8, 0, 0, 0, 0],
        [1u8, 0, 0, 0, 0],
        [2u8, 2, 2, 2, 2],
        [2u8, 1, 0, 1, 2],
        [2u8, 2, 2, 2, 1],
    ];
    for &digits in &test_cases {
        let packed = pack_5_trits(&digits);
        let mut unpacked = [0u8; 5];
        unpack_byte_5_trits(packed, &mut unpacked);
        assert_eq!(digits, unpacked, "round-trip failed for {:?}", digits);
    }
}

#[test]
fn five_trits_are_a_number_in_base_three() {
    assert_eq!(pack_5_trits(&[2, 1, 0, 1, 2]), 2 + 3 + 27 + 162);
}

#[test]
fn test_quantize_all_positive() {
    let weights = [1.0f32.to_bits(); 32];
    let block = quantize_to_ternary_block32(&weights);
    assert_eq!(block.packed_trits[0], 242, "first byte should be 242");
    assert_eq!(block.block_scale, half::f16::from_f32(1.0).to_bits());
}

#[test]
fn a_block_keeps_the_signs_above_half_its_scale() {
    let mut weights = [0.0f32; 32];
    weights[0] = 4.0;
    weights[1] = -3.0;
    weights[2] = 1.0;
    weights[31] = -4.0;
    let mut words = [0u32; 32];
    for i in 0..32 {
        words[i] = weights[i].to_bits();
    }
    let block = quantize_to_ternary_block32(&words);
    assert_eq!(block.block_scale, half::f16::from_f32(4.0).to_bits());
    let mut digits = [0u8; 5];
    unpack_byte_5_trits(block.packed_trits[0], &mut digits);
    assert_eq!(digits, [2, 0, 1, 1, 1]);
    assert_eq!(block.packed_trits[6], 1);
}

#[test]
fn test_decompress_ternary_u32_tensor() {
    let src = [0u32];
    let f32_vals: Vec<f32> =
        decompress_ternary_u32_tensor(&src).into_iter().map(f32::from_bits).collect();
    assert_eq!(f32_vals.len(), 20);
    for (i, &v) in f32_vals.iter().enumerate() {
        assert_eq!(v, -1.0, "weight {} should be -1.0, got {}", i, v);
    }
}

#[test]
fn test_decompress_mixed_values() {
    let digits: [u32; 20] = [0, 1, 2, 0, 1, 2, 0, 1, 2, 0, 1, 2, 0, 1, 2, 0, 1, 2, 0, 1];
    let src = [word_of(&digits)];
    let f32_vals: Vec<f32> =
        decompress_ternary_u32_tensor(&src).into_iter().map(f32::from_bits).collect();
    assert_eq!(f32_vals.len(), 20);
    for (i, &v) in f32_vals.iter().enumerate() {
        let expected: f32 = match digits[i] {
            0 => -1.0,
            1 => 0.0,
            2 => 1.0,
            _ => unreachable!(),
        };
        assert!((v - expected).abs() < 1e-6, "weight {}: expected {} got {}", i, expected, v);
    }
}

#[test]
fn test_repack_roundtrip_via_decompress() {
    let digits: [u32; 20] = [2, 1, 0, 2, 1, 0, 2, 1, 0, 2, 1, 0, 2, 1, 0, 2, 1, 0, 2, 1];
    let src = vec![word_of(&digits); 33];
    let blocks = repack_ternary_tensor(&src);
    assert_eq!(blocks.len(), 21);
    for block in &blocks {
        let scale = half::f16::from_bits(block.block_scale).to_f32();
        assert!(scale > 0.0, "scale should be positive, got {}", scale);
    }
}

#[test]
fn repacked_blocks_hold_the_decompressed_weights() {
    let digits: [u32; 20] = [2, 1, 0, 2, 1, 0, 2, 1, 0, 2, 1, 0, 2, 1, 0, 2, 1, 0, 2, 1];
    let src = vec![word_of(&digits); 2];
    let blocks = repack_ternary_tensor(&src);
    assert_eq!(blocks.len(), 2);
    for i in 0..30 {
        let mut five = [0u8; 5];
        unpack_byte_5_trits(blocks[0].packed_trits[i / 5], &mut five);
        assert_eq!(five[i % 5] as u32, digits[i % 20], "weight {i}");
    }
}

#[test]
fn test_interleave_fused_ternary_layer() {
    let len = 180 * 32;
    let q = vec![1u8; len];
    let k = vec![2u8; len];
    let v = vec![3u8; len];
    let o = vec![4u8; len];
    let gate = vec![5u8; len];
    let up = vec![6u8; len];
    let down = vec![7u8; len];

    let fused =
        interleave_fused_ternary_layer(&q, &k, &v, &o, &gate, &up, &down, 32, 32, 32, 32, 32);

    assert_eq!(fused.len(), 1260);
    assert_eq!(fused[0], 1, "Q first byte");
    assert_eq!(fused[180], 2, "K first byte");
    assert_eq!(fused[360], 3, "V first byte");
    assert_eq!(fused[540], 4, "O first byte");
    assert_eq!(fused[720], 5, "Gate first byte");
    assert_eq!(fused[900], 6, "Up first byte");
    assert_eq!(fused[1080], 7, "Down first byte");
}

#[test]
fn test_interleave_asymmetric_matrices() {
    let q = vec![0xAAu8; 360];
    let k = vec![0xBBu8; 180];
    let v = vec![0xCCu8; 180];
    let o = vec![0xDDu8; 360];
    let gate = vec![0xEEu8; 180];
    let up = vec![0xFFu8; 180];
    let down = vec![0x00u8; 180];

    let fused =
        interleave_fused_ternary_layer(&q, &k, &v, &o, &gate, &up, &down, 64, 32, 64, 32, 32);

    assert_eq!(fused.len(), 2520);
    assert_eq!(fused[0], 0xAA);
    assert_eq!(fused[180], 0xBB);
    assert_eq!(fused[1260], 0xAA);
    for off in [180, 360, 720, 900, 1080] {
        assert_eq!(fused[1260 + off], 0, "matrix with 1 row should be zero-padded at tile 1");
    }
}

#[test]
fn the_aligned_form_is_padded_with_zeros() {
    let block = TernaryBlock32 { packed_trits: [1, 2, 3, 4, 5, 6, 7], block_scale: 0x3C00 };
    let aligned = AlignedTernaryBlock32::from(block);
    assert_eq!(aligned.packed_trits, [1, 2, 3, 4, 5, 6, 7]);
    assert_eq!(aligned.block_scale, 0x3C00);
    assert_eq!(aligned.padding, [0u8; 7]);
    assert_eq!(std::mem::size_of::<AlignedTernaryBlock32>(), 16);
}
