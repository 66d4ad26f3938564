//! Whole compilations of small models.

use compute_image::compile::emit::{compute_manifest_hash, seal_manifest, segment_matches};
use compute_image::compile::gguf_source::{infer_attention_shape, GgufTensor, Verdict};
use compute_image::compile::kernel_artifacts::{kernel_artifact, KernelRequest};
use compute_image::compile::pipeline::{
    build_kernel_artifacts, compile_differential, compile_gguf_speculative,
    compile_gguf_unchecked, compile_sequential, compile_unchecked, embed_metallib,
    finish_manifest, finish_receipt, gather_gguf, gather_source, library_candidates, library_step, load_gguf_source, load_source,
    AdapterOutcome, GatheredSource, ImageLabels, LibraryStep, LoadedSource, PreviousImage, Settlement,
    SourceFiles, Timings,
};
use compute_image::compile::quantize::{pack_nibbles, ByteGroup, WordGroup};
use compute_image::compile::receipt::CompiledFacts;
use compute_image::compile::source::{ShardFile, SideFile, SourceTensor};
use compute_image::config::{
    CompileQuantMode, ExecutionSpec, LayerSpec, ModelManifest, NamespaceBinding,
    PackedLinearShapes, TensorBinding, TextArchitecture,
};
use compute_image::manifest::{
    fingerprint, AliasEntry, Fingerprint, LibraryRecord, Segment, SegmentKind, SpeculationPlan,
    TensorDiff, TensorEntry,
};
use compute_image::table::NameTable;

fn no_words(_: Vec<u32>) -> WordGroup {
    panic!("no four-bit code was asked for")
}

fn no_bytes(_: Vec<u32>) -> ByteGroup {
    panic!("no eight-bit code was asked for")
}

fn arch() -> TextArchitecture {
    TextArchitecture {
        hidden_size: 8,
        intermediate_size: 16,
        num_attention_heads: 2,
        num_key_value_heads: 1,
        head_dim: 4,
        num_hidden_layers: 1,
        vocab_size: 10,
        sliding_window: 0,
        max_position_embeddings: 128,
        rms_norm_eps_bits: 1e-6f64.to_bits(),
        tie_word_embeddings: true,
        attention_k_eq_v: false,
        hidden_size_per_layer_input: 8,
        rope_theta_bits: 10000f64.to_bits(),
        rope_type: "default".to_string(),
        model_type: "llama".to_string(),
    }
}

fn model_manifest() -> ModelManifest {
    ModelManifest {
        config_hash: "cfg".to_string(),
        model_type: "llama".to_string(),
        quantization_bits: None,
        quantization_group_size: None,
        quantization_mode: None,
        has_vision: false,
        has_audio: false,
    }
}

fn namespace(aliased: bool) -> NamespaceBinding {
    NamespaceBinding { root: "model".to_string(), lm_head_aliased: aliased }
}

fn binding(name: &str, shape: &[u32]) -> TensorBinding {
    TensorBinding {
        name: name.to_string(),
        role: "Weight".to_string(),
        logical_shape: shape.to_vec(),
        packed_shape: None,
    }
}

fn tensor(name: &str, dtype: &str, shape: &[u32], data: Vec<u8>) -> SourceTensor {
    SourceTensor {
        name: name.to_string(),
        dtype: dtype.to_string(),
        shape: shape.to_vec(),
        data,
        source_filename: "m.safetensors".to_string(),
        source_sha256: "sha".to_string(),
        source_offset: 0,
        source_byte_size: 0,
    }
}

fn store_of(tensors: Vec<SourceTensor>) -> NameTable<SourceTensor> {
    let mut t = NameTable::new();
    for x in tensors {
        t.insert(x.name.clone(), x);
    }
    t
}

fn gathered(tensors: Vec<SourceTensor>) -> GatheredSource {
    GatheredSource {
        tensors: store_of(tensors),
        shard_hashes: vec![],
        tokenizer_hashes: vec![],
        auxiliary_hashes: vec![],
    }
}

fn verdict(executable: bool) -> Verdict {
    Verdict { executable, errors: 3, total_expected: 12 }
}

fn settled(spec: ExecutionSpec, ns: Option<NamespaceBinding>, executable: bool) -> Settlement {
    Settlement {
        arch: arch(),
        manifest: model_manifest(),
        namespace: ns,
        spec,
        verdict: verdict(executable),
        ignored: vec![],
        adapter: AdapterOutcome::Accepted,
    }
}

fn small_spec() -> ExecutionSpec {
    ExecutionSpec {
        global_tensors: vec![binding("model.embed_tokens.weight", &[2, 2])],
        layers: vec![LayerSpec {
            index: 0,
            tensors: vec![binding("model.layers.0.q_proj.weight", &[1, 3])],
        }],
    }
}

fn small_tensors() -> Vec<SourceTensor> {
    vec![
        tensor("model.embed_tokens.weight", "U8", &[2, 2], vec![1, 2, 3, 4]),
        tensor("model.layers.0.q_proj.weight", "U8", &[1, 3], vec![5, 6, 7]),
    ]
}

fn loaded(spec: ExecutionSpec, tensors: Vec<SourceTensor>, aliased: bool) -> LoadedSource {
    load_gguf_source(gathered(tensors), settled(spec, Some(namespace(aliased)), true), true)
        .unwrap()
}

#[test]
fn an_image_holds_the_tensors_of_its_source() {
    let mut source = loaded(small_spec(), small_tensors(), true);
    let image = compile_sequential(&mut source, &vec![], None, &no_words, &no_bytes).unwrap();
    let b = &image.builder;
    assert_eq!(b.segments.len(), 2);
    assert_eq!(b.segments[0].id, "persistent");
    assert_eq!(b.segments[0].payload, vec![1, 2, 3, 4]);
    assert_eq!(b.segments[1].id, "layer_0");
    assert_eq!(b.segments[1].payload, vec![5, 6, 7]);
    assert_eq!(b.tensors.len(), 2);
    assert_eq!((b.tensors[0].id, b.tensors[1].id), (0, 1));
    assert_eq!(b.tensors[1].layer, Some(0));
    assert_eq!(b.tensors[1].byte_size, 3);
    assert_eq!(b.aliases.len(), 1);
    assert_eq!(b.aliases[0].name, "lm_head.weight");
    assert_eq!(b.aliases[0].tensor_id, 0);
    assert_eq!(image.emitted_bytes, 7);
    assert_eq!(image.ids.get("model.layers.0.q_proj.weight"), Some(&1));
    assert_eq!(image.identity.quantization_bits, 8);
    assert_eq!(image.identity.quantization_group_size, 64);
    assert_eq!(image.identity.quantization_mode, "affine");
    assert!(image.kernel_keys.is_empty());
}

#[test]
fn a_missing_tensor_stops_the_compilation() {
    let mut tensors = small_tensors();
    tensors.pop();
    let mut source = loaded(small_spec(), tensors, false);
    let e = compile_sequential(&mut source, &vec![], None, &no_words, &no_bytes).unwrap_err();
    assert_eq!(e, "missing tensor: model.layers.0.q_proj.weight");
}

#[test]
fn a_head_needs_its_embedding() {
    let mut spec = small_spec();
    spec.global_tensors.clear();
    let mut source = loaded(spec, small_tensors(), true);
    let e = compile_sequential(&mut source, &vec![], None, &no_words, &no_bytes).unwrap_err();
    assert_eq!(e, "embed_tokens.weight was not emitted");
}

#[test]
fn encoders_get_segments_of_their_own() {
    let mut tensors = small_tensors();
    tensors.push(tensor("vision_encoder.b", "U8", &[1], vec![8]));
    tensors.push(tensor("vision_encoder.a", "U8", &[1], vec![9]));
    tensors.push(tensor("embed_audio.x", "U8", &[1], vec![7]));
    let mut source = loaded(small_spec(), tensors, false);
    source.manifest.has_vision = true;
    source.manifest.has_audio = true;
    let image = compile_sequential(&mut source, &vec![], None, &no_words, &no_bytes).unwrap();
    let ids: Vec<&str> = image.builder.segments.iter().map(|s| s.id.as_str()).collect();
    assert_eq!(ids, vec!["persistent", "layer_0", "vision_encoder", "audio_encoder"]);
    assert_eq!(image.builder.segments[2].payload, vec![9, 8]);
    assert_eq!(image.builder.segments[3].payload, vec![7]);
}

#[test]
fn weights_are_quantized_on_request() {
    let ones: Vec<u8> = (0..640).flat_map(|_| half::f16::from_f32(1.0).to_bits().to_le_bytes()).collect();
    let spec = ExecutionSpec {
        global_tensors: vec![],
        layers: vec![LayerSpec {
            index: 0,
            tensors: vec![binding("model.layers.0.q_proj.weight", &[1, 640])],
        }],
    };
    let tensors = vec![tensor("model.layers.0.q_proj.weight", "F16", &[1, 640], ones)];
    let mut source = loaded(spec, tensors, false);
    let mode = Some(CompileQuantMode::TernaryTile640 { group_size: 640 });
    let image = compile_sequential(&mut source, &vec![], mode, &no_words, &no_bytes).unwrap();
    // Scales, biases and the packed words: 32 words of twenty digits each.
    assert_eq!(image.builder.tensors.len(), 3);
    assert_eq!(image.builder.tensors[2].byte_size, 128);
    let q = image.builder.tensors[2].quantization.unwrap();
    assert_eq!((q.bits, q.group_size, q.groups), (2, 640, 1));
    assert_eq!((q.scale_tensor_id, q.bias_tensor_id), (0, 1));
    assert_eq!(image.builder.tensors[0].byte_size, 4);
    assert_eq!(image.kernel_keys.len(), 1);
    assert_eq!(
        image.kernel_keys[0],
        "metal:mlx-qmatmul:v1:affine:b2:g640:gpu-m1:shape-k640-n1"
    );
    let artifacts = build_kernel_artifacts(&image, &vec![b"abc".to_vec()]);
    assert_eq!(artifacts.len(), 1);
    assert_eq!(artifacts[0].metallib_byte_length, 3);
    assert_eq!(
        artifacts[0].checksum,
        "ba7816bf8f01cfea414140de5dae2223b00361a396177a9cb410ff61f20015ad"
    );
}

fn halves(values: &[f32]) -> Vec<u8> {
    values.iter().flat_map(|v| half::f16::from_f32(*v).to_bits().to_le_bytes()).collect()
}

/// Two projections and a norm, which is no matrix.
fn affine_source(second: &[f32]) -> LoadedSource {
    let names = ["model.layers.0.q_proj.weight", "model.layers.0.k_proj.weight"];
    let norm = "model.layers.0.input_layernorm.weight";
    let spec = ExecutionSpec {
        global_tensors: vec![],
        layers: vec![LayerSpec {
            index: 0,
            tensors: vec![binding(names[0], &[2, 4]), binding(norm, &[4]), binding(names[1], &[1, 4])],
        }],
    };
    let tensors = vec![
        tensor(names[0], "F16", &[2, 4], halves(&[1.0, 2.0, 3.0, 4.0, 5.0, 6.0, 7.0, 8.0])),
        tensor(norm, "F16", &[4], halves(&[1.0, 1.0, 1.0, 1.0])),
        tensor(names[1], "F16", &[1, 4], halves(second)),
    ];
    loaded(spec, tensors, false)
}

fn whole_words(bits: Vec<u32>) -> WordGroup {
    let codes: Vec<u8> = bits.iter().map(|b| f32::from_bits(*b) as u8).collect();
    WordGroup { words: pack_nibbles(&codes), scale_bits: bits[0] }
}

fn whole_bytes(bits: Vec<u32>) -> ByteGroup {
    let codes = bits.iter().map(|b| f32::from_bits(*b) as u8).collect();
    ByteGroup { codes, scale_bits: bits[0], bias_bits: bits[bits.len() - 1] }
}

fn payload_of(source: &LoadedSource, name: &str) -> Vec<u8> {
    source.source_tensors.get(name).unwrap().data.clone()
}

fn bits_of(values: &[f32]) -> Vec<u8> {
    values.iter().flat_map(|v| v.to_bits().to_le_bytes()).collect()
}

#[test]
fn four_bit_codes_are_asked_for_group_by_group() {
    let mut source = affine_source(&[9.0, 10.0, 11.0, 12.0]);
    let mode = Some(CompileQuantMode::Nf4 { group_size: 4 });
    let image = compile_sequential(&mut source, &vec![], mode, &whole_words, &no_bytes).unwrap();
    assert_eq!(
        payload_of(&source, "model.layers.0.q_proj.weight"),
        vec![0x21, 0x43, 0, 0, 0x65, 0x87, 0, 0]
    );
    assert_eq!(payload_of(&source, "model.layers.0.q_proj.scales"), bits_of(&[1.0, 5.0]));
    assert_eq!(payload_of(&source, "model.layers.0.q_proj.biases"), vec![0; 8]);
    assert_eq!(payload_of(&source, "model.layers.0.k_proj.weight"), vec![0xA9, 0xCB, 0, 0]);
    assert_eq!(
        payload_of(&source, "model.layers.0.input_layernorm.weight"),
        halves(&[1.0, 1.0, 1.0, 1.0])
    );
    let p = source.spec.layers[0].tensors[0].packed_shape.as_ref().unwrap();
    assert_eq!((p.bits, p.group_size, p.groups), (4, 4, 2));
    assert_eq!((&p.weight[..], &p.scales[..]), (&[2, 1][..], &[2, 1][..]));
    assert!(source.spec.layers[0].tensors[1].packed_shape.is_none());
    // Three numbers for each of the matrices and one for the norm.
    assert_eq!(image.builder.tensors.len(), 7);
    assert_eq!(
        image.kernel_keys,
        vec![
            "metal:mlx-qmatmul:v1:affine:b4:g4:gpu-m1:shape-k4-n1",
            "metal:mlx-qmatmul:v1:affine:b4:g4:gpu-m1:shape-k4-n2",
        ]
    );
}

#[test]
fn eight_bit_codes_are_asked_for_group_by_group() {
    let mut source = affine_source(&[9.0, 10.0, 11.0, 12.0]);
    let mode = Some(CompileQuantMode::Af8 { group_size: 3 });
    compile_sequential(&mut source, &vec![], mode, &no_words, &whole_bytes).unwrap();
    assert_eq!(payload_of(&source, "model.layers.0.q_proj.weight"), vec![1, 2, 3, 4, 5, 6, 7, 8]);
    assert_eq!(
        payload_of(&source, "model.layers.0.q_proj.scales"),
        bits_of(&[1.0, 4.0, 5.0, 8.0])
    );
    assert_eq!(
        payload_of(&source, "model.layers.0.q_proj.biases"),
        bits_of(&[3.0, 4.0, 7.0, 8.0])
    );
    assert_eq!(payload_of(&source, "model.layers.0.k_proj.weight"), vec![9, 10, 11, 12]);
    let p = source.spec.layers[0].tensors[2].packed_shape.as_ref().unwrap();
    assert_eq!((p.bits, p.group_size, p.groups), (8, 3, 2));
}

#[test]
fn compilations_stop_at_codes_that_do_not_fit() {
    let mut source = affine_source(&[9.0, 10.0, 11.0, 12.0]);
    let mode = Some(CompileQuantMode::Nf4 { group_size: 4 });
    let long = |bits: Vec<u32>| {
        let n = if bits[0] == 9.0f32.to_bits() { 2 } else { 1 };
        WordGroup { words: vec![7; n], scale_bits: 0 }
    };
    let e = compile_sequential(&mut source, &vec![], mode, &long, &no_bytes).unwrap_err();
    assert_eq!(e, "OOB: row=0 g=0 wi=1 idx=1 len=1 out=1 in=4 packed_in=1 gpr=1");
    // The weight before it has been quantized.
    assert_eq!(payload_of(&source, "model.layers.0.q_proj.weight"), vec![7, 0, 0, 0, 7, 0, 0, 0]);
    assert_eq!(
        payload_of(&source, "model.layers.0.k_proj.weight"),
        halves(&[9.0, 10.0, 11.0, 12.0])
    );
}

#[test]
fn compilations_with_the_same_codes_agree() {
    let mode = Some(CompileQuantMode::Af8 { group_size: 2 });
    let (mut a, mut b) = (affine_source(&[1.0; 4]), affine_source(&[1.0; 4]));
    let i = compile_sequential(&mut a, &vec![], mode, &no_words, &whole_bytes).unwrap();
    let j = compile_sequential(&mut b, &vec![], mode, &no_words, &whole_bytes).unwrap();
    assert_eq!(i.emitted_bytes, j.emitted_bytes);
    for (x, y) in i.builder.segments.iter().zip(&j.builder.segments) {
        assert_eq!(x.payload, y.payload);
    }
    assert_eq!(format!("{:?}", i.builder.tensors), format!("{:?}", j.builder.tensors));
}

#[test]
fn sources_are_turned_away_in_order() {
    let r = load_source(gathered(vec![]), settled(small_spec(), None, false), false);
    assert_eq!(r.unwrap_err(), "namespace not resolved");
    let r = load_gguf_source(gathered(vec![]), settled(small_spec(), None, false), true);
    assert_eq!(r.unwrap_err(), "GGUF: could not resolve namespace");
    let ns = || Some(namespace(false));
    let r = load_source(gathered(vec![]), settled(small_spec(), ns(), false), false);
    assert_eq!(
        r.unwrap_err(),
        "source checkpoint failed validation: 3 errors across 12 expected tensors"
    );
    let r = load_gguf_source(gathered(vec![]), settled(small_spec(), ns(), false), false);
    assert_eq!(r.unwrap_err(), "GGUF source failed validation: 3 errors across 12 expected tensors");
    let mut s = settled(small_spec(), ns(), true);
    s.adapter = AdapterOutcome::Unmatched("why".to_string());
    let e = load_source(gathered(vec![]), s, false).unwrap_err();
    assert!(e.starts_with("unsupported model type 'llama'") && e.contains("Detail: why"), "{e}");
    let mut s = settled(small_spec(), ns(), true);
    s.adapter = AdapterOutcome::Rejected("how".to_string());
    let e = load_source(gathered(vec![]), s, false).unwrap_err();
    assert!(e.contains("how"), "{e}");
    let mut s = settled(small_spec(), ns(), false);
    s.adapter = AdapterOutcome::Unmatched("why".to_string());
    assert!(load_source(gathered(vec![]), s, true).is_ok());
}

#[test]
fn compilations_begin_with_the_source() {
    let g = gathered(small_tensors());
    let s = settled(small_spec(), Some(namespace(true)), false);
    let (source, image) = compile_gguf_unchecked(g, s, &vec![], None, &no_words, &no_bytes).unwrap();
    assert_eq!(source.namespace.root, "model");
    assert_eq!(image.emitted_bytes, 7);
    let g = gathered(small_tensors());
    let s = settled(small_spec(), Some(namespace(true)), false);
    assert!(compile_unchecked(g, s, false, &vec![], None, &no_words, &no_bytes).is_err());
}

fn shard(name: &str, tensor: &str, values: &[f32]) -> ShardFile {
    let data: Vec<u8> = values.iter().flat_map(|v| v.to_le_bytes()).collect();
    let view = safetensors::tensor::TensorView::new(
        safetensors::Dtype::F32,
        vec![values.len()],
        &data,
    )
    .unwrap();
    ShardFile {
        path: format!("/m/{name}"),
        filename: name.to_string(),
        bytes: safetensors::serialize(vec![(tensor, view)], &None).unwrap(),
    }
}

#[test]
fn files_are_gathered() {
    let files = SourceFiles {
        shards: vec![shard("a.safetensors", "x", &[1.0])],
        tokenizer: vec![SideFile {
            filename: "tokenizer.json".to_string(),
            content: Some(b"abc".to_vec()),
        }],
        auxiliary: vec![SideFile { filename: "absent".to_string(), content: None }],
    };
    let g = gather_source(&files).unwrap();
    assert!(g.tensors.contains("x"));
    assert_eq!(g.shard_hashes.len(), 1);
    assert_eq!(g.tokenizer_hashes.len(), 1);
    assert!(g.auxiliary_hashes.is_empty());
}

fn gguf(name: &str, shape: &[u32], offset: u64) -> GgufTensor {
    GgufTensor {
        name: name.to_string(),
        checkpoint_name: Some(format!("model.{name}")),
        dtype: "F32".to_string(),
        shape: shape.to_vec(),
        byte_offset: offset,
        byte_size: 8,
    }
}

#[test]
fn a_single_file_is_gathered() {
    let list = vec![gguf("b", &[2], 8), gguf("a", &[2], 0)];
    let (g, names) = gather_gguf(&list, "m.gguf", b"abc", &vec![]);
    assert_eq!(names, vec!["model.a".to_string(), "model.b".to_string()]);
    assert_eq!(g.shard_hashes[0].filename, "m.gguf");
    assert_eq!(
        g.shard_hashes[0].sha256,
        "ba7816bf8f01cfea414140de5dae2223b00361a396177a9cb410ff61f20015ad"
    );
    let b = g.tensors.get("model.b").unwrap();
    assert_eq!((b.source_offset, b.source_byte_size), (8, 8));
}

#[test]
fn attention_shapes_are_read_off_the_projections() {
    let mut a = arch();
    a.num_attention_heads = 4;
    let list = vec![gguf("blk.0.attn_q.weight", &[64, 64], 0), gguf("blk.0.attn_k.weight", &[64, 32], 0)];
    infer_attention_shape(&mut a, &list);
    assert_eq!(a.head_dim, 16);
    assert_eq!(a.num_key_value_heads, 2);
}

#[test]
fn tensors_are_read_from_the_maps() {
    let mut t = small_tensors();
    t[0].data = vec![];
    t[0].dtype = "U8".to_string();
    t[0].source_offset = 2;
    t[0].source_byte_size = 4;
    let mut source = loaded(small_spec(), t, false);
    let file: &[u8] = &[0, 0, 40, 41, 42, 43, 44];
    let image = compile_sequential(&mut source, &vec![file], None, &no_words, &no_bytes).unwrap();
    assert_eq!(image.builder.segments[0].payload, vec![40, 41, 42, 43]);
}

#[test]
fn a_draft_shares_the_embedding_of_its_target() {
    let target = loaded(small_spec(), small_tensors(), true);
    let mut draft = loaded(small_spec(), small_tensors(), true);
    draft.namespace.root = "draft".to_string();
    let image = compile_gguf_speculative(&target, &draft).unwrap();
    let ids: Vec<&str> = image.builder.segments.iter().map(|s| s.id.as_str()).collect();
    assert_eq!(ids, vec!["persistent", "target_layer_0", "draft_layer_0"]);
    assert!(image.shared_embedding && image.shared_lm_head && image.draft_first_segments);
    assert_eq!(image.speculation_length, 5);
    assert_eq!(image.source_bytes, 14);
    assert_eq!(image.emitted_bytes, 10);
    assert_eq!(image.builder.segments[0].payload, vec![1, 2, 3, 4]);
    assert_eq!(image.builder.segments[1].payload, vec![5, 6, 7]);
    assert_eq!(image.builder.segments[2].payload, vec![5, 6, 7]);
    let shared: Vec<&AliasEntry> = image
        .builder
        .aliases
        .iter()
        .filter(|a| a.reason == "shared_embedding_speculative")
        .collect();
    assert_eq!(shared.len(), 1);
    assert_eq!(shared[0].name, "draft.embed_tokens.weight");
    assert_eq!(shared[0].tensor_id, 0);

    let mut other = loaded(small_spec(), small_tensors(), true);
    other.arch.vocab_size = 11;
    let image = compile_gguf_speculative(&target, &other).unwrap();
    assert!(!image.shared_embedding && !image.shared_lm_head);
}

fn labels() -> ImageLabels {
    ImageLabels {
        image_version: "1".to_string(),
        compiler_version: "0.1.0".to_string(),
        runtime_abi: "compute-image-v1".to_string(),
    }
}

fn shown(f: Fingerprint) -> Vec<u8> {
    format!("{f:?}").into_bytes()
}

fn entry(id: u32, name: &str, segment: &str) -> TensorEntry {
    TensorEntry {
        id,
        name: name.to_string(),
        role: "Weight".to_string(),
        layer: None,
        segment: segment.to_string(),
        offset: 0,
        byte_size: 4,
        source_filename: String::new(),
        source_sha256: String::new(),
        source_offset: 0,
        logical_dtype: "F32".to_string(),
        storage_dtype: "U8".to_string(),
        logical_shape: vec![],
        storage_shape: vec![],
        quantization: None,
    }
}

fn segment(id: &str, filename: &str, tensor: u32, kind: SegmentKind) -> Segment {
    Segment {
        id: id.to_string(),
        filename: filename.to_string(),
        byte_size: 4,
        sha256: "s".to_string(),
        tensor_ids: vec![tensor],
        kind,
        alignment_bytes: 1,
    }
}

#[test]
fn only_what_changed_is_compiled_again() {
    let prev = PreviousImage {
        segments: vec![
            segment("persistent", "segment_000.bin", 0, SegmentKind::Persistent),
            segment("layer_0", "segment_001.bin", 1, SegmentKind::Layer(0)),
        ],
        tensor_table: vec![
            entry(0, "model.embed_tokens.weight", "persistent"),
            entry(1, "model.layers.0.q_proj.weight", "layer_0"),
        ],
        alias_table: vec![],
    };
    let diff = TensorDiff {
        unchanged: vec!["model.embed_tokens.weight".to_string()],
        changed: vec!["model.layers.0.q_proj.weight".to_string()],
        new: vec![],
        removed: vec![],
        elapsed_ms: 0,
    };
    let source = loaded(small_spec(), small_tensors(), false);
    let image = compile_differential(&prev, &diff, &source, &labels(), shown).unwrap();
    assert_eq!(image.kept_files, vec!["segment_000.bin".to_string()]);
    let names: Vec<&str> = image.manifest.tensor_table.iter().map(|t| t.name.as_str()).collect();
    assert_eq!(names, vec!["model.embed_tokens.weight", "model.layers.0.q_proj.weight"]);
    // The new tensor has a number that the earlier image does not use.
    assert_eq!(image.manifest.tensor_table[1].id, 2);
    let files: Vec<&str> = image.manifest.segments.iter().map(|s| s.filename.as_str()).collect();
    assert_eq!(files[0], "segment_000.bin");
    assert!(!files[1..].contains(&"segment_000.bin"));
    assert_eq!(image.drafts.last().unwrap().payload, vec![5, 6, 7]);
    // The hash is that of the combined record.
    assert_eq!(image.manifest.image_hash, compute_manifest_hash(&image.manifest, shown));
    assert_eq!(image.manifest.image_hash.len(), 64);
    let sizes: u64 = image.manifest.segments.iter().map(|s| s.byte_size).sum();
    assert_eq!(image.manifest.residency_plan.total_bytes, sizes);
    assert_eq!(image.manifest.architecture.vocab_size, 10);
    assert_eq!(image.manifest.source.config_hash, "cfg");
    assert!(segment_matches(&[5, 6, 7], image.manifest.segments.last().unwrap()));
    assert!(!segment_matches(&[5, 6, 8], image.manifest.segments.last().unwrap()));
}

#[test]
fn hashes_are_of_what_the_image_is() {
    let mut source = loaded(small_spec(), small_tensors(), true);
    let image = compile_sequential(&mut source, &vec![], None, &no_words, &no_bytes).unwrap();
    let library = LibraryRecord { sha256: "l".to_string(), byte_size: 9 };
    let plan = SpeculationPlan {
        shared_embedding: true,
        shared_lm_head: false,
        draft_first_segments: false,
        speculation_length: 5,
    };
    let mut m = finish_manifest(
        &labels(),
        image.identity,
        &source.arch,
        image.builder,
        Some(library),
        vec![kernel_artifact("k", KernelRequest { bits: 4, group_size: 64, k: 64, n: 33 }, b"abc")],
        Some(plan),
        shown,
    );
    assert_eq!(m.segments[1].filename, "segment_001.bin");
    assert_eq!(m.residency_plan.total_bytes, 7);
    assert_eq!(m.speculation, Some(plan));
    let hash = m.image_hash.clone();
    assert_eq!(compute_manifest_hash(&m, shown), hash);
    let before = shown(fingerprint(&m));
    assert_eq!(m.metal_kernel_artifacts.len(), 1);
    assert_eq!(m.metal_kernel_artifacts[0].artifact_id, "k");
    m.metallib = None;
    m.metal_kernel_artifacts.clear();
    m.speculation = None;
    m.hardware_target = Some("m4".to_string());
    m.image_hash = String::new();
    assert_eq!(shown(fingerprint(&m)), before);
    m = seal_manifest(m, shown);
    assert_eq!(m.image_hash, hash);
    m.compiler_version = "0.2.0".to_string();
    assert_ne!(compute_manifest_hash(&m, shown), hash);
}

#[test]
fn entries_of_changed_tensors_find_their_data() {
    let prev = PreviousImage {
        segments: vec![
            segment("persistent", "segment_000.bin", 0, SegmentKind::Persistent),
            segment("layer_0", "segment_001.bin", 1, SegmentKind::Layer(0)),
        ],
        tensor_table: vec![
            entry(0, "model.embed_tokens.weight", "persistent"),
            entry(1, "model.layers.0.q_proj.weight", "layer_0"),
        ],
        alias_table: vec![],
    };
    let diff = TensorDiff {
        unchanged: vec!["model.embed_tokens.weight".to_string()],
        changed: vec!["model.layers.0.q_proj.weight".to_string()],
        new: vec!["model.norm.weight".to_string()],
        removed: vec![],
        elapsed_ms: 0,
    };
    let mut spec = small_spec();
    spec.layers[0].tensors.push(binding("model.norm.weight", &[2]));
    let mut tensors = small_tensors();
    tensors.push(tensor("model.norm.weight", "U8", &[2], vec![8, 9]));
    let source = loaded(spec, tensors, false);
    let image = compile_differential(&prev, &diff, &source, &labels(), shown).unwrap();
    let kept = image.kept_files.len();
    let fresh: Vec<&TensorEntry> = image.manifest.tensor_table.iter().skip(1).collect();
    let wanted: Vec<(u32, Vec<u8>)> = vec![(2, vec![5, 6, 7]), (3, vec![8, 9])];
    assert_eq!(fresh.len(), wanted.len());
    for (e, (id, data)) in fresh.iter().zip(wanted) {
        assert_eq!(e.id, id);
        let k = image.manifest.segments.iter().position(|s| s.filename == e.segment).unwrap();
        assert!(k >= kept);
        let (start, size) = (e.offset as usize, e.byte_size as usize);
        assert_eq!(image.drafts[k - kept].payload[start..start + size], data[..]);
    }
}

#[test]
fn a_receipt_adds_up() {
    let store = store_of(small_tensors());
    let facts = CompiledFacts {
        config_hash: "cfg".to_string(),
        shard_hashes: vec![],
        compiler_version: "1".to_string(),
        runtime_abi: "2".to_string(),
        image_hash: "ba7816bf8f01cfea414140de5dae2223b00361a396177a9cb410ff61f20015ad".to_string(),
        segments: vec![segment("persistent", "segment_000.bin", 0, SegmentKind::Persistent)],
        tensor_table: vec![entry(0, "model.embed_tokens.weight", "persistent")],
        alias_count: 1,
        executable: true,
        ignored: vec![],
        serialized_architecture: b"abc".to_vec(),
        serialized_plan: vec![],
        serialized_fingerprint: b"abc".to_vec(),
    };
    let t = Timings {
        source_load_ms: 1,
        source_hashing_ms: 2,
        payload_emission_ms: 3,
        finalize_ms: 4,
        elapsed_ms: 10,
        active_bytes: 5,
    };
    let r = finish_receipt(facts, &store, t, None);
    assert_eq!(r.total_source_bytes, 7);
    assert_eq!(r.total_emitted_bytes, 4);
    assert_eq!(r.tensor_count, 1);
    assert_eq!(r.segment_count, 1);
    assert_eq!(r.stage_profile.source_discovery_ms, 1);
    assert_eq!(r.stage_profile.segment_hashing_ms, 4);
    assert_eq!(r.stage_profile.peak_mlx_active_bytes, 5);
    assert_eq!(r.elapsed_ms, 10);
    assert!(r.structural_verification);
}

#[test]
fn kernel_libraries_are_looked_for_and_recorded() {
    let c = library_candidates("llama");
    assert_eq!(c.len(), 4);
    assert_eq!((c[0].in_parent, c[0].filename.as_str()), (false, "model.metallib"));
    assert_eq!((c[3].in_parent, c[3].filename.as_str()), (true, "llama.metallib"));
    let l = embed_metallib(&Some(b"abc".to_vec())).unwrap();
    assert_eq!(l.byte_size, 3);
    assert!(l.sha256.starts_with("ba7816bf"));
    assert!(embed_metallib(&None).is_none());
    assert_eq!(library_step(true, true), LibraryStep::Copy);
    assert_eq!(library_step(false, true), LibraryStep::Keep);
    assert_eq!(library_step(false, false), LibraryStep::Compile);
}

#[test]
fn packed_bindings_go_out_with_their_companions() {
    let packed = PackedLinearShapes {
        weight: vec![1, 1],
        scales: vec![1, 1],
        biases: vec![1, 1],
        bits: 4,
        group_size: 8,
        groups: 1,
    };
    let mut b = binding("w.weight", &[8, 1]);
    b.packed_shape = Some(packed);
    let spec = ExecutionSpec { global_tensors: vec![b], layers: vec![] };
    let tensors = vec![
        tensor("w.weight", "U32", &[1, 1], vec![1, 2, 3, 4]),
        tensor("w.scales", "F32", &[1, 1], vec![5, 6, 7, 8]),
    ];
    let mut source = loaded(spec, tensors, false);
    let e = compile_sequential(&mut source, &vec![], None, &no_words, &no_bytes).unwrap_err();
    assert_eq!(e, "missing tensor: w.biases");
}
