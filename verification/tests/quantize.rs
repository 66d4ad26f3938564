//! Quantized weights: packed data, scales, and the marks that they leave.

use compute_image::compile::emit::{dtype_to_array, ArrayData};
use compute_image::compile::gpu_pack::{install_gpu_packed, PackedOutput};
use compute_image::compile::quantize::{
    apply_af8_quantize, apply_nf4_quantize, apply_quantize_to_loaded, apply_ternary_quantize,
    apply_ternary_tile640_quantize, code_groups, fits_mode, group_bounds, is_quantizable, load_weights, pack_nibbles, pack_ternary, pack_tile640,
    weight_names, weight_task, ByteGroup, NibbleLayout, WordGroup,
};
use compute_image::compile::source::SourceTensor;
use compute_image::config::{CompileQuantMode, ExecutionSpec, LayerSpec, TensorBinding};
use compute_image::table::NameTable;

fn bits(v: &[f32]) -> Vec<u32> {
    v.iter().map(|x| x.to_bits()).collect()
}

fn words(bytes: &[u8]) -> Vec<u32> {
    bytes.chunks_exact(4).map(|c| u32::from_le_bytes([c[0], c[1], c[2], c[3]])).collect()
}

fn model(name: &str, dtype: &str, shape: &[u32], data: Vec<u8>) -> (NameTable<SourceTensor>, ExecutionSpec) {
    let mut store = NameTable::new();
    store.insert(
        name.to_string(),
        SourceTensor {
            name: name.to_string(),
            dtype: dtype.to_string(),
            shape: shape.to_vec(),
            data,
            source_filename: String::new(),
            source_sha256: String::new(),
            source_offset: 0,
            source_byte_size: 0,
        },
    );
    let spec = ExecutionSpec {
        global_tensors: vec![],
        layers: vec![LayerSpec {
            index: 0,
            tensors: vec![TensorBinding {
                name: name.to_string(),
                role: "Weight".to_string(),
                logical_shape: shape.to_vec(),
                packed_shape: None,
            }],
        }],
    };
    (store, spec)
}

#[test]
fn ternary_weights_take_two_bits_each() {
    let p = pack_ternary(&bits(&[2.0, -2.0, 0.5, 0.0, 1.5, 0.0, 0.0, -1.5]), 2, 4, 4);
    assert_eq!(p.dtype, "U8");
    assert_eq!(p.shapes.bits, 2);
    assert_eq!(p.shapes.scales, vec![2, 1]);
    assert_eq!(p.shapes.groups, 2);
    assert_eq!(p.data.len(), 2);
    assert_eq!(words(&p.scales), bits(&[2.0, 1.5]));
    assert_eq!(p.biases, vec![0u8; 8]);
    // One byte a row, the first weight in the lowest bits.
    assert_eq!(p.data[0] & 3, 1);
    assert_eq!((p.data[0] >> 2) & 3, 2);
    assert_eq!((p.data[0] >> 4) & 3, 0);
    assert_eq!((p.data[1] >> 6) & 3, 2);
}

#[test]
fn tiles_hold_twenty_digits_a_word() {
    let mut v = vec![0.0f32; 640];
    v[0] = 4.0;
    v[1] = -4.0;
    v[20] = 4.0;
    let p = pack_tile640(&bits(&v), 1, 640, 640);
    assert_eq!(p.dtype, "U32");
    let w = words(&p.data);
    assert_eq!(w.len(), 32);
    // The first weight is the highest digit.
    assert_eq!(w[0], 3u32.pow(19) + 2 * 3u32.pow(18));
    assert_eq!(w[1], 3u32.pow(19));
    assert_eq!(w[2], 0);
    assert_eq!(words(&p.scales), bits(&[4.0]));
}

#[test]
fn applying_leaves_marks_on_the_weight() {
    let (mut store, mut spec) = model("a.weight", "F16", &[1, 4], vec![0; 8]);
    apply_ternary_quantize(&mut store, &mut spec, "a.weight", &bits(&[1.0, 0.0, -1.0, 0.0]), 1, 4, 4);
    assert_eq!(store.get("a.weight").unwrap().dtype, "U8");
    assert_eq!(words(&store.get("a.scales").unwrap().data), bits(&[1.0]));
    assert_eq!(store.get("a.biases").unwrap().data, vec![0u8; 4]);
    let shapes = spec.layers[0].tensors[0].packed_shape.as_ref().unwrap();
    assert_eq!((shapes.bits, shapes.group_size, shapes.groups), (2, 4, 1));

    let (mut store, mut spec) = model("a.weight", "F16", &[1, 640], vec![0; 1280]);
    apply_ternary_tile640_quantize(&mut store, &mut spec, "a.weight", &bits(&[1.0; 640]), 1, 640, 640);
    assert_eq!(store.get("a.weight").unwrap().data.len(), 128);
}

#[test]
fn nibbles_are_packed_from_the_low_end() {
    assert_eq!(pack_nibbles(&[1, 2, 3, 4, 5, 6, 7, 8, 9]), vec![0x8765_4321, 9]);
}

#[test]
fn nibble_groups_go_to_their_places() {
    let layout = NibbleLayout { out_dim: 2, in_dim: 8, group_size: 8, groups_per_row: 1 };
    let groups = vec![
        WordGroup { words: vec![0x1111_1111], scale_bits: 1.0f32.to_bits() },
        WordGroup { words: vec![0x2222_2222], scale_bits: 2.0f32.to_bits() },
    ];
    let (mut store, mut spec) = model("a.weight", "F16", &[2, 8], vec![0; 32]);
    apply_nf4_quantize(&mut store, &mut spec, "a.weight", &groups, layout).unwrap();
    assert_eq!(words(&store.get("a.weight").unwrap().data), vec![0x1111_1111, 0x2222_2222]);
    assert_eq!(words(&store.get("a.scales").unwrap().data), bits(&[1.0, 2.0]));
}

#[test]
fn a_nibble_group_that_does_not_fit_is_refused() {
    let layout = NibbleLayout { out_dim: 1, in_dim: 8, group_size: 8, groups_per_row: 1 };
    let groups = vec![WordGroup { words: vec![1, 2], scale_bits: 0 }];
    let (mut store, mut spec) = model("a.weight", "F16", &[1, 8], vec![0; 16]);
    let e = apply_nf4_quantize(&mut store, &mut spec, "a.weight", &groups, layout).unwrap_err();
    assert_eq!(e, "OOB: row=0 g=0 wi=1 idx=1 len=1 out=1 in=8 packed_in=1 gpr=1");
    assert!(spec.layers[0].tensors[0].packed_shape.is_none());
    assert_eq!(store.get("a.weight").unwrap().dtype, "F16");
}

#[test]
fn byte_groups_are_joined() {
    let groups = vec![
        ByteGroup { codes: vec![1, 2], scale_bits: 3, bias_bits: 4 },
        ByteGroup { codes: vec![5, 6], scale_bits: 7, bias_bits: 8 },
    ];
    let (mut store, mut spec) = model("a.weight", "F16", &[1, 4], vec![0; 8]);
    apply_af8_quantize(&mut store, &mut spec, "a.weight", &groups, 1, 4, 2, 2);
    assert_eq!(store.get("a.weight").unwrap().data, vec![1, 2, 5, 6]);
    assert_eq!(words(&store.get("a.scales").unwrap().data), vec![3, 7]);
    assert_eq!(words(&store.get("a.biases").unwrap().data), vec![4, 8]);
}

#[test]
fn rows_are_cut_into_groups() {
    assert_eq!(group_bounds(2, 5, 2), vec![(0, 2), (2, 4), (4, 5), (5, 7), (7, 9), (9, 10)]);
    assert_eq!(group_bounds(1, 4, 4), vec![(0, 4)]);
    assert!(group_bounds(3, 0, 4).is_empty());
}

#[test]
fn each_group_is_coded_once() {
    let groups = code_groups(&vec![1, 2, 3, 4, 5, 6], 2, 3, 2, &|v: Vec<u32>| v);
    assert_eq!(groups, vec![vec![1, 2], vec![3], vec![4, 5], vec![6]]);
}

#[test]
fn only_half_matrices_are_quantized() {
    for (dtype, shape, wanted) in [
        ("F16", vec![2, 2], true),
        ("BF16", vec![2, 2], true),
        ("F32", vec![2, 2], false),
        ("F16", vec![4], false),
        ("BF16", vec![1, 2, 2], false),
    ] {
        let (store, _) = model("a.weight", dtype, &shape, vec![0; 8]);
        assert_eq!(is_quantizable(store.get("a.weight").unwrap()), wanted);
    }
}

#[test]
fn affine_weights_are_coded_in_the_order_of_need() {
    // One as a brain float.
    let (mut store, mut spec) = model("a.weight", "BF16", &[1, 2], vec![0x80, 0x3F, 0x00, 0x40]);
    let mode = CompileQuantMode::Af8 { group_size: 2 };
    let code = |v: Vec<u32>| {
        assert_eq!(v, bits(&[1.0, 2.0]));
        ByteGroup { codes: vec![0, 255], scale_bits: 5, bias_bits: 6 }
    };
    let none = |_: Vec<u32>| WordGroup { words: vec![], scale_bits: 0 };
    spec.layers[0].tensors.push(TensorBinding {
        name: "b.weight".to_string(),
        role: "Weight".to_string(),
        logical_shape: vec![1, 2],
        packed_shape: None,
    });
    let e = apply_quantize_to_loaded(&mut store, &mut spec, &vec![], mode, &none, &code);
    assert_eq!(e.unwrap_err(), "quantize: missing source tensor 'b.weight'");
    assert_eq!(store.get("a.weight").unwrap().data, vec![0, 255, 0, 0]);
    assert_eq!(words(&store.get("a.scales").unwrap().data), vec![5]);
    assert_eq!(words(&store.get("a.biases").unwrap().data), vec![6]);
    spec.layers[0].tensors.pop();
    // What has been packed is no candidate any more.
    apply_quantize_to_loaded(&mut store, &mut spec, &vec![], mode, &none, &code).unwrap();
    assert_eq!(store.get("a.weight").unwrap().data, vec![0, 255, 0, 0]);
}

#[test]
fn weights_need_their_values() {
    let mode = CompileQuantMode::Ternary { group_size: 2 };
    let (store, _) = model("a.weight", "F16", &[1, 2], vec![0; 4]);
    assert!(fits_mode(store.get("a.weight").unwrap(), mode));
    let (store, _) = model("a.weight", "F16", &[1, 2], vec![0; 3]);
    assert!(!fits_mode(store.get("a.weight").unwrap(), mode));
    assert!(!fits_mode(
        store.get("a.weight").unwrap(),
        CompileQuantMode::TernaryTile640 { group_size: 64 }
    ));
    let (store, _) = model("a.weight", "F32", &[1, 2], vec![]);
    assert!(fits_mode(store.get("a.weight").unwrap(), mode));
    let (store, _) = model("a.weight", "F16", &[0, 2], vec![]);
    assert!(!fits_mode(
        store.get("a.weight").unwrap(),
        CompileQuantMode::Ternary { group_size: 0 }
    ));
}

#[test]
fn weights_are_found_and_read() {
    let (mut store, spec) = model("a.weight", "F16", &[1, 2], vec![]);
    assert_eq!(weight_names(&spec), vec!["a.weight".to_string()]);
    let map: &[u8] = &[0x00, 0x3C, 0x00, 0xC0];
    load_weights(&mut store, &vec!["a.weight".to_string()], &vec![map]);
    let task = weight_task(&store, "a.weight").unwrap().unwrap();
    assert_eq!((task.out_dim, task.in_dim), (1, 2));
    assert_eq!(task.values, bits(&[1.0, -2.0]));
    assert!(weight_task(&store, "b.weight").is_err());
    let (store, _) = model("a.weight", "F32", &[1, 1], vec![0; 4]);
    assert!(weight_task(&store, "a.weight").unwrap().is_none());
}

#[test]
fn what_the_device_packed_is_installed() {
    let (mut store, mut spec) = model("a.weight", "BF16", &[1, 640], vec![0; 1280]);
    install_gpu_packed(
        &mut store,
        &mut spec,
        "a.weight",
        1,
        640,
        PackedOutput::Buffer(vec![7; 32]),
        &bits(&[2.0]),
    );
    let w = store.get("a.weight").unwrap();
    assert_eq!((w.dtype.as_str(), w.shape.as_slice()), ("U32", &[1u32, 32][..]));
    assert_eq!(words(&w.data), vec![7; 32]);
    assert_eq!(words(&store.get("a.scales").unwrap().data), bits(&[2.0]));
    assert!(store.get("a.biases").is_none());

    let (mut store, mut spec) = model("a.weight", "BF16", &[1, 640], vec![1; 1280]);
    install_gpu_packed(&mut store, &mut spec, "a.weight", 1, 640, PackedOutput::InPlace, &vec![0]);
    assert!(store.get("a.weight").unwrap().data.is_empty());
}

#[test]
fn bytes_become_arrays_by_their_type() {
    assert!(matches!(
        dtype_to_array(&[1, 0, 0, 0, 255, 255, 255, 255], "I32"),
        Ok(ArrayData::SignedWords(v)) if v == vec![1, -1]
    ));
    assert!(matches!(dtype_to_array(&[255], "I8"), Ok(ArrayData::SignedBytes(v)) if v == vec![-1]));
    assert!(matches!(
        dtype_to_array(&[0x80, 0x3F], "BF16"),
        Ok(ArrayData::Singles(v)) if v == bits(&[1.0])
    ));
    assert_eq!(
        dtype_to_array(&[1, 2, 3], "U32").unwrap_err(),
        "u32 payload length is not a multiple of 4: 3"
    );
    assert_eq!(dtype_to_array(&[], "F64").unwrap_err(), "unsupported tensor storage dtype: F64");
}
