//! The swizzled layout of ternary weights.

use compute_image::compile::swizzle::{
    generate_ane_swizzled_weights, repack_ternary_to_swizzled_u8, requantize_kv_to_swizzled_u8,
    swizzled_buffer_size, swizzled_byte_offset,
};
use compute_image::float_bits::{f32_to_fp16_bits, fp16_to_f32, ternary_quantize_block};

fn half_value(bits: u16) -> f32 {
    f32::from_bits(fp16_to_f32(bits.to_le_bytes()))
}

/// The four signs that a byte stands for.
fn signs() -> Vec<[i8; 4]> {
    let mut lut = vec![[0i8; 4]; 81];
    for s in 0u8..81 {
        let mut x = s;
        for j in 0..4 {
            lut[s as usize][j] = match x % 3 {
                1 => 1,
                2 => -1,
                _ => 0,
            };
            x /= 3;
        }
    }
    lut
}

fn set_digit(ternary: &mut [u8], po: usize, vi: usize, d: u32) {
    let mut pk =
        u32::from_le_bytes([ternary[po], ternary[po + 1], ternary[po + 2], ternary[po + 3]]);
    let mut mul = 1u64;
    for _ in 0..vi {
        mul *= 3;
    }
    let wide = pk as u64;
    pk = ((wide / (mul * 3)) * (mul * 3) + d as u64 * mul + wide % mul) as u32;
    ternary[po..po + 4].copy_from_slice(&pk.to_le_bytes());
}

#[test]
fn test_swizzle_bijection() {
    let w = 640;
    let h = 240;
    let tb = ((h + 15) / 16) * (w / 16) * 64;
    let mut seen = vec![[false; 4]; tb];
    for r in 0..h {
        for c in 0..w {
            let (b, sh) = swizzled_byte_offset(r, c, w);
            assert!(b < tb);
            assert!(!seen[b][sh]);
            seen[b][sh] = true;
        }
    }
    for slots in &seen {
        for &u in slots {
            assert!(u);
        }
    }
}

#[test]
fn test_repack_roundtrip() {
    let cols = 640;
    let rows = 32;
    let nt = (cols + 639) / 640;
    let mut ternary = vec![0u8; rows * nt * 32 * 4];
    let mut expected_digits = vec![0u8; rows * cols];
    for r in 0..rows {
        for c in 0..cols {
            let d = ((r * cols + c) % 3) as u8;
            expected_digits[r * cols + c] = d;
            let tile = c / 640;
            let lane = (c % 640) / 20;
            let vi = (c % 640) % 20;
            let po = r * nt * 32 * 4 + tile * 32 * 4 + lane * 4;
            set_digit(&mut ternary, po, vi, d as u32);
        }
    }

    let tb = swizzled_buffer_size(rows, cols);
    let mut slc = vec![0u8; tb];
    repack_ternary_to_swizzled_u8(&ternary, rows, cols, &mut slc, cols);

    let lut = signs();
    for r in 0..rows {
        for c in 0..cols {
            let (b, sh) = swizzled_byte_offset(r, c, cols);
            let decoded = lut[slc[b] as usize][sh];
            let expected = match expected_digits[r * cols + c] {
                1 => 1,
                2 => -1,
                _ => 0,
            };
            assert_eq!(decoded, expected, "Mismatch at ({r},{c})");
        }
    }
}

#[test]
fn a_short_buffer_is_left_alone() {
    let ternary = vec![0xFFu8; 32 * 32 * 4];
    let mut slc = vec![9u8; swizzled_buffer_size(32, 640) - 1];
    repack_ternary_to_swizzled_u8(&ternary, 32, 640, &mut slc, 640);
    assert!(slc.iter().all(|&b| b == 9));
}

#[test]
fn test_generate_ane_swizzled_weights() {
    let mut src = vec![0u8; 640 * 240 * 2];
    for i in 0..640 * 240 {
        let v = ((i as f32 * 1.618) % 6.0) - 3.0;
        let bits = (v.to_bits() >> 16) as u16;
        src[i * 2..i * 2 + 2].copy_from_slice(&bits.to_le_bytes());
    }
    let swz = generate_ane_swizzled_weights(&src, 240, 640);
    assert!(!swz.is_empty());
    let expected = swizzled_buffer_size(240, 640);
    assert_eq!(swz.len(), expected);
}

#[test]
fn test_pump_smoke() {
    let rows = 32;
    let cols = 640;
    let nt = (cols + 639) / 640;
    let mut src = vec![0.0f32; rows * cols];
    for i in 0..rows * cols {
        src[i] = ((i as f32 * 1.618) % 6.0) - 3.0;
    }
    let block_of = |st: usize| -> [u32; 256] {
        let mut blk = [0u32; 256];
        for j in 0..(rows * cols - st).min(256) {
            blk[j] = src[st + j].to_bits();
        }
        blk
    };
    let mut ternary = vec![0u8; rows * nt * 32 * 4];
    let nb = (rows * cols + 255) / 256;
    for bi in 0..nb {
        let st = bi * 256;
        let n = (rows * cols - st).min(256);
        let (_, nib) = ternary_quantize_block(&block_of(st));
        for j in 0..n {
            let d = match (nib[j / 4] >> ((j % 4) * 2)) & 0x03 {
                0b01 => 1,
                0b10 => 2,
                _ => 0,
            };
            let vi = st + j;
            let po = (vi / cols) * nt * 32 * 4
                + ((vi % cols) / 640) * 32 * 4
                + (((vi % cols) % 640) / 20) * 4;
            let sub = (vi % cols) % 640 % 20;
            set_digit(&mut ternary, po, sub, d);
        }
    }
    let tb = swizzled_buffer_size(rows, cols);
    let mut slc = vec![0u8; tb];
    repack_ternary_to_swizzled_u8(&ternary, rows, cols, &mut slc, cols);
    let lut = signs();
    let mut expected_i8 = vec![0i8; rows * cols];
    for vi in 0..rows * cols {
        let st = (vi / 256) * 256;
        let (_, nib) = ternary_quantize_block(&block_of(st));
        let off = vi - st;
        let nibble = (nib[off / 4] >> ((off % 4) * 2)) & 0x03;
        expected_i8[vi] = match nibble {
            0b01 => 1,
            0b10 => -1,
            _ => 0,
        };
    }
    let mut err = 0u32;
    for r in 0..rows {
        for c in 0..cols {
            let (b, sh) = swizzled_byte_offset(r, c, cols);
            let got = lut[slc[b] as usize][sh];
            let exp = expected_i8[r * cols + c];
            if got != exp {
                err += 1;
            }
        }
    }
    assert_eq!(err, 0, "{err} mismatches");
}

#[test]
fn test_kv_requantizer_roundtrip() {
    let seq_len = 64;
    let kv_dim = 256;
    let mut kv = vec![0u8; seq_len * kv_dim * 2];
    for i in 0..seq_len * kv_dim {
        let v = ((i as f32 * 1.618) % 2.0) - 1.0;
        let bits = f32_to_fp16_bits(v.to_bits());
        kv[i * 2..i * 2 + 2].copy_from_slice(&bits.to_le_bytes());
    }
    let mut swz = vec![0u8; swizzled_buffer_size(seq_len, kv_dim)];
    requantize_kv_to_swizzled_u8(&kv, seq_len, kv_dim, &mut swz);
    let lut = signs();
    for i in 0..(seq_len * kv_dim).min(500) {
        let (b, sh) = swizzled_byte_offset(i / kv_dim, i % kv_dim, kv_dim);
        let got = lut[swz[b] as usize][sh];
        let v = half_value(u16::from_le_bytes([kv[i * 2], kv[i * 2 + 1]]));
        let st = (i / 256) * 256;
        let mut max_v = 0.0f32;
        for j in st..(st + 256).min(seq_len * kv_dim) {
            let w = half_value(u16::from_le_bytes([kv[j * 2], kv[j * 2 + 1]]));
            max_v = max_v.max(w.abs());
        }
        let mag = if max_v > 1e-6 { max_v } else { 1.0 };
        let snapped = if v.abs() > mag * 0.5 {
            if v > 0.0 {
                mag
            } else {
                -mag
            }
        } else {
            0.0
        };
        let exp = (snapped / mag).round() as i8;
        assert!((got - exp).abs() <= 1, "Mismatch at {i}: got {got} exp {exp} v={v}");
    }
}

#[test]
fn test_embed_ternary_roundtrip() {
    let vocab: u32 = 512;
    let hd: u32 = 128;
    let total = (vocab * hd) as usize;
    let mut embed = vec![0u8; total * 2];
    for i in 0..total {
        let v = ((i as f32 * 1.618) % 2.0) - 1.0;
        let bits = f32_to_fp16_bits(v.to_bits());
        embed[i * 2..i * 2 + 2].copy_from_slice(&bits.to_le_bytes());
    }
    let swz = generate_ane_swizzled_weights(&embed, vocab, hd);
    assert_eq!(swz.len(), swizzled_buffer_size(vocab as usize, hd as usize));
    let lut = signs();
    let row = 42;
    for c in 0..hd.min(32) {
        let col = c as usize;
        let (b, sh) = swizzled_byte_offset(row, col, hd as usize);
        let decoded = lut[swz[b] as usize][sh];
        let i = row * hd as usize + col;
        let v = half_value(u16::from_le_bytes([embed[i * 2], embed[i * 2 + 1]]));
        let st = (i / 256) * 256;
        let end = (st + 256).min(total);
        let mut max_v = 0.0f32;
        for j in st..end {
            let w = half_value(u16::from_le_bytes([embed[j * 2], embed[j * 2 + 1]]));
            max_v = max_v.max(w.abs());
        }
        let mag = if max_v > 1e-6 { max_v } else { 1.0 };
        let snapped = if v.abs() > mag * 0.5 {
            if v > 0.0 {
                mag
            } else {
                -mag
            }
        } else {
            0.0
        };
        let exp = (snapped / mag).round() as i8;
        assert!(
            (decoded - exp).abs() <= 1,
            "Embed mismatch at [{row},{col}]: got {decoded} exp {exp} v={v}"
        );
    }
}
