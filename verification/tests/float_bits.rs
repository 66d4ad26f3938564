//! Arithmetic on the bits of floating-point numbers, held against the machine's.

use compute_image::compile::validation_data::{f32_to_f16_bits, Lcg};
use compute_image::float_bits::{
    digit_of_product, f32_to_fp16_bits, fp16_to_f32, half_to_f32, half_to_single,
    product_exceeds_half, product_rounds_to_one, reciprocal_of, scale_of, ternary_quantize_block,
    to_nearest_half,
};

/// Bits of numbers of all sizes, from a small generator.
fn samples(n: usize) -> Vec<u32> {
    let mut state = 0x1234_5678_9ABC_DEF1u64;
    let mut r = Vec::new();
    for _ in 0..n {
        state = state.wrapping_mul(6364136223846793005).wrapping_add(1442695040888963407);
        r.push((state >> 32) as u32);
    }
    r
}

#[test]
fn halves_widen_as_the_half_crate_widens_them() {
    for h in 0..=u16::MAX {
        let expected = half::f16::from_bits(h).to_f32();
        for bits in [half_to_single(h), half_to_f32(h), fp16_to_f32(h.to_le_bytes())] {
            let got = f32::from_bits(bits);
            assert!(
                got == expected || got.is_nan() && expected.is_nan(),
                "{h:#06x}: {got} and {expected}"
            );
        }
    }
}

#[test]
fn nearest_halves_are_those_of_the_half_crate() {
    let mut all = samples(20000);
    all.extend([
        0, 1, 0x3380_0000, 0x3300_0000, 0x3300_0001, 0x387F_F000, 0x477F_E000, 0x477F_F000,
        0x477F_EFFF, 0x4780_0000, 0x7F80_0000, 0x3F80_1000, 0x3F80_3000,
    ]);
    for b in all {
        let b = b % 0x8000_0000;
        let x = f32::from_bits(b);
        if !x.is_nan() {
            assert_eq!(to_nearest_half(b), half::f16::from_f32(x).to_bits(), "{x}");
        }
    }
}

#[test]
fn stored_halves_are_cut() {
    assert_eq!(f32_to_fp16_bits(1.0f32.to_bits()), 0x3C00);
    assert_eq!(f32_to_fp16_bits((-2.5f32).to_bits()), 0xC100);
    // Below the smallest normal half nothing is left but the sign.
    assert_eq!(f32_to_fp16_bits((-1e-5f32).to_bits()), 0x8000);
    assert_eq!(f32_to_fp16_bits(1e6f32.to_bits()), 0x7C00);
    assert_eq!(f32_to_fp16_bits(f32::NEG_INFINITY.to_bits()), 0xFC00);
    assert_eq!(f32_to_fp16_bits(f32::NAN.to_bits()), 0x7E00);
    // 1 + 2^-10 - 2^-23 is cut to 1.
    assert_eq!(f32_to_fp16_bits(0x3F80_1FFF), 0x3C00);
    assert_eq!(f32_to_f16_bits(0x3F80_1FFF), 0x3C00);
}

#[test]
fn reciprocals_are_those_of_the_machine() {
    for b in samples(20000) {
        let b = b % 0x8000_0000;
        if b >= 0x80_0000 && b <= 0x7F80_0000 {
            let expected = 1.0 / f32::from_bits(b);
            assert_eq!(reciprocal_of(b), expected.to_bits(), "1 / {}", f32::from_bits(b));
        }
    }
    assert_eq!(reciprocal_of(3.0f32.to_bits()), (1.0f32 / 3.0).to_bits());
}

#[test]
fn digits_of_products_are_those_of_the_machine() {
    let s = samples(20000);
    for pair in s.chunks_exact(2) {
        let scale = 0x3F00_0000 + pair[0] % 0x100_0000;
        let value = (0x3E00_0000 + pair[0] % 0x200_0000) | (pair[1] & 0x8000_0000);
        let factor = reciprocal_of(scale);
        let product = f32::from_bits(value) * f32::from_bits(factor);
        assert_eq!(product_rounds_to_one(value, factor), product.abs().round() >= 1.0, "{product}");
        assert_eq!(product_exceeds_half(value, factor), product.abs() > 0.5, "{product}");
        let d = digit_of_product(value, factor);
        let expected = if product > 0.5 {
            1
        } else if product < -0.5 {
            2
        } else {
            0
        };
        assert_eq!(d, expected, "{product}");
    }
}

#[test]
fn the_scale_of_a_block_is_its_greatest_magnitude() {
    let v: Vec<u32> = [0.5f32, -3.0, 2.0].iter().map(|x| x.to_bits()).collect();
    assert_eq!(f32::from_bits(scale_of(&v, 0, 3)), 3.0);
    assert_eq!(f32::from_bits(scale_of(&v, 0, 1)), 0.5);
    // Where nothing stands out the scale is one.
    assert_eq!(f32::from_bits(scale_of(&v, 1, 1)), 1.0);
}

#[test]
fn a_block_becomes_signs_and_a_scale() {
    let mut block = [0u32; 256];
    block[0] = 2.0f32.to_bits();
    block[1] = (-1.5f32).to_bits();
    block[2] = 0.5f32.to_bits();
    block[255] = (-2.0f32).to_bits();
    let (scale, crumbs) = ternary_quantize_block(&block);
    assert_eq!(u16::from_le_bytes(scale), 0x4000);
    assert_eq!(crumbs[0], 0b00_00_10_01);
    assert_eq!(crumbs[63], 0b10_00_00_00);
}

#[test]
fn random_singles_are_those_of_the_formula() {
    let mut a = Lcg::new(7);
    let mut b = Lcg::new(7);
    for _ in 0..2000 {
        let expected = (b.next() as f64 * (1.0 / (1u64 << 63) as f64)) as f32;
        assert_eq!(a.next_f32(), expected.to_bits());
    }
    assert_eq!(Lcg::new(1).next(), 6364136223846793005u64.wrapping_add(1442695040888963407));
}
