//! The draft model: its constants, the packing of its matrices, and the reading
//! of its checkpoint.

use compute_image::compile::draft_loader::{
    is_shard_name, load_and_pack_layer, load_draft_weights, load_tensor_f32,
    pack_matrix_to_fused_ternary, tensor_data_to_f32, Shard, DRAFT_DOWN_SIZE, DRAFT_FFN_INTER,
    DRAFT_FFN_ROWS, DRAFT_GATE_SIZE, DRAFT_HEAD_DIM, DRAFT_HIDDEN, DRAFT_HID_ROWS, DRAFT_KV_ROWS,
    DRAFT_K_SIZE, DRAFT_LAYERS, DRAFT_NUM_KV_HEADS, DRAFT_O_ROWS, DRAFT_O_SIZE, DRAFT_Q_ROWS,
    DRAFT_Q_SIZE, DRAFT_UP_SIZE, DRAFT_V_SIZE,
};
use compute_image::compile::int4_pack::{interleave_fused_ternary_layer, unpack_byte_5_trits};

fn bits(values: &[f32]) -> Vec<u32> {
    values.iter().map(|v| v.to_bits()).collect()
}

/// Synthetic row-major weights with values from -2 to 2.
fn synth_weights(rows: usize, cols: usize) -> Vec<f32> {
    let n = rows * cols;
    (0..n).map(|i| (((i as i32) % 5) - 2) as f32).collect()
}

fn pack(weights: &[f32], rows: usize, cols: usize) -> Vec<u8> {
    pack_matrix_to_fused_ternary(&bits(weights), rows, cols)
}

#[test]
fn test_pack_small_matrix_roundtrip() {
    let rows = 4usize;
    let cols = 16usize;
    let weights = synth_weights(rows, cols);

    let packed = pack(&weights, rows, cols);

    let blocks_per_row = (cols + 31) / 32;
    let bytes_per_row = blocks_per_row * 9;
    assert_eq!(packed.len(), rows * bytes_per_row);

    for r in 0..rows {
        let block_offset = r * bytes_per_row;
        let scale = u16::from_le_bytes([packed[block_offset + 7], packed[block_offset + 8]]);
        let scale_f32 = half::f16::from_bits(scale).to_f32();
        assert!(scale_f32 > 0.0, "block {r} scale should be positive, got {scale_f32}");
    }

    for r in 0..rows {
        let block_offset = r * bytes_per_row;
        let mut packed_trits = [0u8; 7];
        packed_trits.copy_from_slice(&packed[block_offset..block_offset + 7]);
        let scale_bits = u16::from_le_bytes([packed[block_offset + 7], packed[block_offset + 8]]);
        let scale = half::f16::from_bits(scale_bits).to_f32();

        let mut all_trits = [0i8; 32];
        for byte_idx in 0..6 {
            let mut d5 = [0u8; 5];
            unpack_byte_5_trits(packed_trits[byte_idx], &mut d5);
            for (j, &digit) in d5.iter().enumerate() {
                all_trits[byte_idx * 5 + j] = (digit as i8) - 1;
            }
        }
        let last_byte = packed_trits[6];
        all_trits[30] = ((last_byte % 3) as i8) - 1;
        all_trits[31] = ((last_byte / 3) as i8) - 1;

        for i in 0..16 {
            let orig = weights[r * cols + i];
            let recon = (all_trits[i] as f32) * scale;
            if orig.abs() > 0.01 {
                assert!(
                    (recon * orig) >= -1e-6,
                    "row {r}, col {i}: orig={orig}, recon={recon}, sign mismatch"
                );
            }
        }
    }
}

#[test]
fn test_fused_interleave_draft_layer() {
    let q = pack(&synth_weights(DRAFT_Q_ROWS, DRAFT_HIDDEN), DRAFT_Q_ROWS, DRAFT_HIDDEN);
    let k = pack(&synth_weights(DRAFT_KV_ROWS, DRAFT_HIDDEN), DRAFT_KV_ROWS, DRAFT_HIDDEN);
    let v = pack(&synth_weights(DRAFT_KV_ROWS, DRAFT_HIDDEN), DRAFT_KV_ROWS, DRAFT_HIDDEN);
    let o = pack(&synth_weights(DRAFT_O_ROWS, DRAFT_HIDDEN), DRAFT_O_ROWS, DRAFT_HIDDEN);
    let gate = pack(&synth_weights(DRAFT_HID_ROWS, DRAFT_HIDDEN), DRAFT_HID_ROWS, DRAFT_HIDDEN);
    let up = pack(&synth_weights(DRAFT_HID_ROWS, DRAFT_HIDDEN), DRAFT_HID_ROWS, DRAFT_HIDDEN);
    let down = pack(
        &synth_weights(DRAFT_FFN_ROWS, DRAFT_FFN_INTER),
        DRAFT_FFN_ROWS,
        DRAFT_FFN_INTER,
    );

    let fused = interleave_fused_ternary_layer(
        &q,
        &k,
        &v,
        &o,
        &gate,
        &up,
        &down,
        DRAFT_Q_ROWS,
        DRAFT_KV_ROWS,
        DRAFT_O_ROWS,
        DRAFT_HID_ROWS,
        DRAFT_FFN_ROWS,
    );

    let q_tiles = (DRAFT_Q_ROWS + 31) / 32;
    let kv_tiles = (DRAFT_KV_ROWS + 31) / 32;
    let hid_tiles = (DRAFT_HID_ROWS + 31) / 32;
    let ffn_tiles = (DRAFT_FFN_ROWS + 31) / 32;
    let max_tiles = q_tiles.max(kv_tiles).max(hid_tiles).max(ffn_tiles);

    let sub_tile: usize = 180;
    let fused_tile = 7 * sub_tile;
    assert_eq!(fused.len(), max_tiles * fused_tile);

    for m in 0..7 {
        let pos = m * sub_tile;
        let slice = &fused[pos..pos + 7];
        let has_any_nonzero = slice.iter().any(|&b| b != 0);
        assert!(has_any_nonzero, "matrix {m} in tile 0 has all-zero packed trits");
    }

    for t in kv_tiles..max_tiles {
        let base = t * fused_tile;
        let k_pos = base + sub_tile;
        let v_pos = base + 2 * sub_tile;
        for pos in [k_pos, v_pos] {
            assert_eq!(
                fused[pos..pos + sub_tile].iter().all(|&b| b == 0),
                true,
                "tile {t}: K/V beyond kv_tiles should be zero-padded"
            );
        }
    }
}

#[test]
fn test_load_nonexistent_dir() {
    let listing = match std::path::Path::new("/nonexistent/path").exists() {
        true => Ok(vec![]),
        false => Err("draft checkpoint dir not found: /nonexistent/path".to_string()),
    };
    let result = load_draft_weights("/nonexistent/path", listing);
    assert!(result.is_err(), "should error on missing directory");
}

#[test]
fn test_pack_padding_handles_partial_block() {
    let rows = 2usize;
    let cols = 33usize;
    let weights: Vec<f32> = (0..rows * cols).map(|i| ((i as i32) % 7 - 3) as f32).collect();

    let packed = pack(&weights, rows, cols);

    let blocks_per_row = (cols + 31) / 32;
    let bytes_per_row = blocks_per_row * 9;
    assert_eq!(packed.len(), rows * bytes_per_row);

    let scale_bytes: [u8; 2] = [packed[9 + 7], packed[9 + 8]];
    let scale = half::f16::from_bits(u16::from_le_bytes(scale_bytes)).to_f32();
    assert!(scale > 0.0, "partial block scale should be positive");
}

#[test]
fn partial_block_takes_nothing_of_the_next_row() {
    // The second block of the first row holds one weight, 1, and zeros.
    let cols = 33usize;
    let mut weights = vec![2.0f32; 2 * cols];
    weights[32] = 1.0;
    let packed = pack(&weights, 2, cols);
    let scale = half::f16::from_bits(u16::from_le_bytes([packed[16], packed[17]])).to_f32();
    assert_eq!(scale, 1.0);
    let mut digits = [0u8; 5];
    unpack_byte_5_trits(packed[9], &mut digits);
    assert_eq!(digits, [2, 1, 1, 1, 1]);
}

#[test]
fn test_tensor_data_to_f32_f32() {
    let data: Vec<u8> = 1.0f32
        .to_le_bytes()
        .into_iter()
        .chain((-2.5f32).to_le_bytes())
        .chain(3.14f32.to_le_bytes())
        .collect();
    let result: Vec<f32> =
        tensor_data_to_f32(&data, "F32").into_iter().map(f32::from_bits).collect();
    assert_eq!(result.len(), 3);
    assert!((result[0] - 1.0).abs() < 1e-6);
    assert!((result[1] - (-2.5)).abs() < 1e-6);
    assert!((result[2] - 3.14).abs() < 1e-6);
}

#[test]
fn test_tensor_data_to_f32_bf16() {
    let mut data = Vec::new();
    data.extend_from_slice(&u16::to_le_bytes(0x3F80u16));
    data.extend_from_slice(&u16::to_le_bytes(0xC000u16));
    data.extend_from_slice(&u16::to_le_bytes(0x4049u16));

    let result: Vec<f32> =
        tensor_data_to_f32(&data, "BF16").into_iter().map(f32::from_bits).collect();
    assert_eq!(result.len(), 3);
    assert!((result[0] - 1.0).abs() < 0.01, "expected ~1.0, got {}", result[0]);
    assert!((result[1] - (-2.0)).abs() < 0.02, "expected -2.0, got {}", result[1]);
    assert!((result[2] - 3.14).abs() < 0.02, "expected ~3.14, got {}", result[2]);
}

#[test]
fn test_constant_consistency() {
    assert_eq!(DRAFT_HEAD_DIM, 96);
    assert_eq!(DRAFT_Q_SIZE, DRAFT_HIDDEN * DRAFT_HIDDEN);
    assert_eq!(DRAFT_K_SIZE, DRAFT_HIDDEN * (DRAFT_NUM_KV_HEADS * DRAFT_HEAD_DIM));
    assert_eq!(DRAFT_V_SIZE, DRAFT_K_SIZE);
    assert_eq!(DRAFT_O_SIZE, DRAFT_HIDDEN * DRAFT_HIDDEN);
    assert_eq!(DRAFT_GATE_SIZE, DRAFT_HIDDEN * DRAFT_FFN_INTER);
    assert_eq!(DRAFT_UP_SIZE, DRAFT_GATE_SIZE);
    assert_eq!(DRAFT_DOWN_SIZE, DRAFT_FFN_INTER * DRAFT_HIDDEN);
    assert_eq!(DRAFT_LAYERS, 5);
}

#[test]
fn an_empty_directory_has_no_draft() {
    let r = load_draft_weights("/models/draft", Ok(vec![]));
    assert_eq!(r.unwrap_err(), "no safetensors files found in /models/draft");
}

fn shard_with(name: &str, values: &[f32]) -> Vec<u8> {
    let data: Vec<u8> = values.iter().flat_map(|v| v.to_le_bytes()).collect();
    let view = safetensors::tensor::TensorView::new(
        safetensors::Dtype::F32,
        vec![values.len()],
        &data,
    )
    .unwrap();
    safetensors::serialize(vec![(name, view)], &None).unwrap()
}

#[test]
fn a_tensor_is_found_in_the_first_shard_that_has_it() {
    let shards = vec![
        Shard { path: "a.safetensors".to_string(), data: shard_with("other", &[9.0]) },
        Shard { path: "b.safetensors".to_string(), data: shard_with("wanted", &[1.5, -2.0]) },
        Shard { path: "c.safetensors".to_string(), data: shard_with("wanted", &[7.0]) },
    ];
    assert_eq!(load_tensor_f32("wanted", &shards).unwrap(), bits(&[1.5, -2.0]));
    assert_eq!(
        load_tensor_f32("absent", &shards).unwrap_err(),
        "tensor 'absent' not found in any of 3 shard(s)"
    );
}

#[test]
fn a_broken_shard_is_reported() {
    let shards = vec![Shard { path: "bad.safetensors".to_string(), data: vec![1, 2, 3] }];
    let e = load_tensor_f32("wanted", &shards).unwrap_err();
    assert!(e.starts_with("parsing safetensors bad.safetensors: "), "{e}");
    let e = load_and_pack_layer(0, &shards).unwrap_err();
    assert!(e.contains("parsing safetensors bad.safetensors: "), "{e}");
}

#[test]
fn shards_are_known_by_their_ending() {
    assert!(is_shard_name("model-00001.safetensors"));
    assert!(!is_shard_name("config.json"));
}
