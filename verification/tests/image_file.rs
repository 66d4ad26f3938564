//! The bytes of image files: headers, artifacts, bindings of matrices.

use compute_image::compile::matrix_binding::{
    read_matrix_weight_binding_v1_le, write_matrix_weight_binding_v1_le, MatrixWeightBindingV1,
};
use compute_image::compile::ternary::{
    read_cimage_header_le, verify_cimage, write_cimage_header_le, ModelArtifactEntry,
    SegmentEntry, SegmentKind, CIMAGE_HEADER_WIRE_SIZE, PRISM_MAGIC,
};
use compute_image::wire::{field, push_le, push_zeros, read_le};

#[test]
fn numbers_are_written_from_the_low_byte_on() {
    let mut out = Vec::new();
    push_le(&mut out, 0x0102_0304, 4);
    push_zeros(&mut out, 2);
    assert_eq!(out, vec![4, 3, 2, 1, 0, 0]);
    assert_eq!(read_le(&out, 0, 4), 0x0102_0304);
    assert_eq!(field(&out, 0, 2, 2), 0x0102);
}

#[test]
fn artifacts_are_read_one_after_the_other() {
    let mut blob = Vec::new();
    ModelArtifactEntry::encode(7, &[1, 2, 3], &mut blob);
    ModelArtifactEntry::encode(9, &[], &mut blob);
    let mut it = ModelArtifactEntry::iter_entries(&blob);
    assert_eq!(it.next(), Some((7, &[1u8, 2, 3][..])));
    assert_eq!(it.next(), Some((9, &[][..])));
    assert_eq!(it.next(), None);
}

#[test]
fn a_cut_artifact_ends_the_list() {
    let mut blob = Vec::new();
    ModelArtifactEntry::encode(7, &[1, 2, 3], &mut blob);
    blob.pop();
    assert_eq!(ModelArtifactEntry::iter_entries(&blob).next(), None);
}

#[test]
fn a_cut_artifact_leaves_those_before_it() {
    let mut blob = Vec::new();
    ModelArtifactEntry::encode(7, &[1, 2, 3], &mut blob);
    ModelArtifactEntry::encode(9, &[4, 5], &mut blob);
    for cut in 1..=10 {
        let part = &blob[..blob.len() - cut];
        let mut it = ModelArtifactEntry::iter_entries(part);
        assert_eq!(it.next(), Some((7, &[1u8, 2, 3][..])));
        assert_eq!(it.next(), None);
    }
}

#[test]
fn short_files_are_no_images() {
    assert!(read_cimage_header_le(&[0u8; 16]).is_err());
    assert!(verify_cimage(&[0u8; 16]).is_err());
}

#[test]
fn headers_read_back() {
    let mut bytes = vec![0u8; CIMAGE_HEADER_WIRE_SIZE];
    assert_eq!(
        read_cimage_header_le(&bytes).unwrap_err(),
        "bad magic: [0, 0, 0, 0, 0, 0, 0, 0]"
    );
    bytes[0..8].copy_from_slice(&PRISM_MAGIC);
    bytes[8] = 3;
    let mut h = read_cimage_header_le(&bytes).unwrap();
    assert_eq!(h.version, 3);
    h.vocab_size = 77;
    h.segment_count = 1;
    h.segments[0] = SegmentEntry::new(SegmentKind::TernaryWeights, 16384, 99);
    let mut out = Vec::new();
    write_cimage_header_le(&mut out, &h);
    assert_eq!(out.len(), CIMAGE_HEADER_WIRE_SIZE);
    let back = read_cimage_header_le(&out).unwrap();
    assert_eq!(back.vocab_size, 77);
    let s = back.segment(SegmentKind::TernaryWeights).unwrap();
    assert_eq!((s.offset, s.length), (16384, 99));
    assert!(back.segment(SegmentKind::BlockScales).is_none());
    assert!(!back.is_nf4_tile640());
    assert_eq!(back.primary_weight_segment().unwrap().offset, 16384);
}

fn binding() -> MatrixWeightBindingV1 {
    MatrixWeightBindingV1 {
        binding_wire_version: 1,
        matrix_id: 42,
        tensor_id: [3; 16],
        representation: 2,
        representation_version: 1,
        kernel_abi_digest: [9; 32],
        in_features: 640,
        out_features: 128,
        reduction_tile_size: 640,
        tiles_per_output_channel: 1,
        tail_reduction_count: 0,
        macro_layout: 1,
        tail_handling: 0,
        code_segment: 2,
        code_offset: 4096,
        code_length: 16384,
        code_tile_stride_bytes: 128,
        metadata_segment: 3,
        metadata_offset: 77,
        metadata_length: 256,
        metadata_tile_stride_bytes: 2,
        sidecar_segment: 0,
        sidecar_offset: 0,
        sidecar_length: 0,
        sidecar_kind: 0,
        sidecar_element_format: 0,
        sidecar_count: 0,
        residual_segment: 0,
        residual_offset: 0,
        residual_length: 0,
        required_alignment_bytes: 64,
    }
}

#[test]
fn bindings_read_back() {
    let b = binding();
    let mut bytes = Vec::new();
    write_matrix_weight_binding_v1_le(&mut bytes, &b);
    let r = read_matrix_weight_binding_v1_le(&bytes).unwrap();
    assert_eq!(r.matrix_id, 42);
    assert_eq!(r.tensor_id, [3; 16]);
    assert_eq!(r.kernel_abi_digest, [9; 32]);
    assert_eq!(r.code_offset, 4096);
    assert_eq!(r.metadata_offset, 77);
    assert_eq!(r.required_alignment_bytes, 64);
    let mut again = Vec::new();
    write_matrix_weight_binding_v1_le(&mut again, &r);
    assert_eq!(again, bytes);
    bytes.pop();
    assert!(read_matrix_weight_binding_v1_le(&bytes).is_err());
}
