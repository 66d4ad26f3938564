//! Plans for devices, and the reports on what they did.

use compute_image::compile::ane_program::{
    build_mil_program, projection_shape, validate_ane_program, MilFunction, MilOperation,
    MilProgram, MilStep,
};
use compute_image::compile::coreml::{
    candidate_subgraphs, decompose_subgraph, package_meta, plan_island, subgraph_dims,
    subgraph_kind, ConcurrencyPlan, LaneAssignment, SubgraphKind,
};
use compute_image::compile::diagnostics::{report_findings, scan_values, LayerFinding};
use compute_image::compile::gpu_pack::{pad_rows, tile_job};
use compute_image::compile::kernel_dispatch::TernaryProjectionDispatcher;
use compute_image::compile::kernel_registry::{projection_constants, KernelCache};
use compute_image::compile::kernel_types::{KernelReceipt, ProjectionParams};
use compute_image::compile::publish::{
    archive_name, copy_cstr_to_array, failure_marker, is_compiled_model, join_sources,
    publish_image, MoveOutcome,
};
use compute_image::compile_hw::{
    bench_accelerate_candidates, latency_stats, record_lane_hazards, synthetic_base,
    KernelCandidate,
};
use compute_image::config::TextArchitecture;
use compute_image::content_store::mmap::SegmentFile;
use compute_image::content_store::MmapLoader;
use compute_image::table::NameTable;

fn strings(names: &[&str]) -> Vec<String> {
    names.iter().map(|s| s.to_string()).collect()
}

#[test]
fn subgraphs_are_split_between_lanes() {
    let plan = ConcurrencyPlan {
        concurrent_assignments: vec![LaneAssignment {
            lane: "accelerate".to_string(),
            ops: strings(&["rope"]),
            estimated_latency_ns: 1,
        }],
    };
    let d = decompose_subgraph("s", &strings(&["matmul", "rope", "mul"]), &plan);
    let mut all = d.coreml_ops.clone();
    all.extend(d.accelerate_ops.clone());
    all.sort();
    assert_eq!(all, strings(&["matmul", "mul", "rope"]));
    assert!(!d.compiled);
    assert!(!candidate_subgraphs().is_empty());
}

#[test]
fn subgraphs_have_kinds_and_sizes() {
    let mut shapes = NameTable::new();
    shapes.insert("hidden".to_string(), vec![64i64]);
    shapes.insert("num_attention_heads".to_string(), vec![4i64]);
    let d = subgraph_dims(&shapes);
    assert_eq!((d.hidden, d.heads, d.kv_heads, d.head_dim), (64, 4, 4, 16));
    assert_eq!((d.intermediate, d.vocab), (11008, 32000));
    assert!(matches!(
        subgraph_kind("matmul", &shapes),
        Ok(SubgraphKind::Matmul { k: 64, n: 64 })
    ));
    let e = subgraph_kind("mystery", &shapes).unwrap_err();
    assert!(e.contains("unknown subgraph kind 'mystery'"), "{e}");
    let m = package_meta("qkv_bundle", &None, 64);
    assert_eq!(m.model_name, "tribunus-subgraph-qkv_bundle");
    assert_eq!(m.output_name, "output");
    assert_eq!(m.width, 64);
}

fn arch() -> TextArchitecture {
    TextArchitecture {
        hidden_size: 8,
        intermediate_size: 16,
        num_attention_heads: 2,
        num_key_value_heads: 1,
        head_dim: 4,
        num_hidden_layers: 1,
        vocab_size: 10,
        sliding_window: 0,
        max_position_embeddings: 128,
        rms_norm_eps_bits: 0,
        tie_word_embeddings: true,
        attention_k_eq_v: false,
        hidden_size_per_layer_input: 8,
        rope_theta_bits: 0,
        rope_type: "default".to_string(),
        model_type: "llama".to_string(),
    }
}

#[test]
fn islands_list_their_weights() {
    let p = plan_island("i0", "rmsnorm_qkv", &arch()).unwrap();
    let w: Vec<(&str, u32, u32)> =
        p.weights.iter().map(|w| (w.name.as_str(), w.rows, w.cols)).collect();
    assert_eq!(w, vec![("q_w", 8, 8), ("k_w", 8, 4), ("v_w", 8, 4), ("rms_w", 8, 1)]);
    assert_eq!(p.ops, strings(&["q_proj", "k_proj", "v_proj"]));
    assert_eq!(
        plan_island("i0", "odd", &arch()).unwrap_err(),
        "unknown subgraph_kind 'odd' for island 'i0'"
    );
}

#[test]
fn programs_are_built_from_ops() {
    let p = build_mil_program("s", &strings(&["gate_proj", "mul", "residual_add"])).unwrap();
    assert_eq!(p.steps.len(), 3);
    assert!(matches!(&p.steps[0], MilStep::Matmul { input, .. } if input == "x"));
    assert_eq!(p.output, "residual_add");
    assert!(!p.needs_norm);
    assert_eq!(
        build_mil_program("s", &strings(&["conv"])).unwrap_err(),
        "unknown op type 'conv' in subgraph 's'; cannot build MIL program"
    );
    assert_eq!(projection_shape("gate_proj", 8, 16).len(), 2);
}

#[test]
fn a_program_without_operations_has_no_faults() {
    let empty = MilProgram { functions: vec![] };
    assert!(validate_ane_program(&empty).is_ok());
    let hollow = MilProgram {
        functions: vec![MilFunction { name: "main".to_string(), operations: None }],
    };
    assert!(validate_ane_program(&hollow).is_ok());
    let forbidden = MilProgram {
        functions: vec![MilFunction {
            name: "main".to_string(),
            operations: Some(vec![MilOperation {
                kind: "MatMul".to_string(),
                inputs: vec![],
                outputs: vec![],
            }]),
        }],
    };
    let e = validate_ane_program(&forbidden).unwrap_err();
    assert!(e.contains("Function 'main': forbidden op 'MatMul'"), "{e}");
}

#[test]
fn latencies_are_summed_up() {
    let times: Vec<u64> = (0..30).rev().collect();
    let s = latency_stats(&times);
    assert_eq!((s.min, s.median, s.p90), (0, 15, 27));
    assert_eq!(synthetic_base("rope", 4096), 512);
    assert_eq!(synthetic_base("silu_mul", 600), 100);
    assert_eq!(synthetic_base("other", 7), 7);
    assert_eq!(record_lane_hazards(&vec![1, 2, 3]), vec![(1, 2), (2, 3)]);
    let c = vec![KernelCandidate {
        name: "n".to_string(),
        backend: "metal".to_string(),
        op_type: "matmul".to_string(),
    }];
    assert!(bench_accelerate_candidates(&c).is_empty());
}

fn finding(layer: u32, has_nan: bool, has_inf: bool, ms: u64) -> LayerFinding {
    LayerFinding {
        layer_index: layer,
        attention_kind: "full".to_string(),
        has_nan,
        has_inf,
        norm_bits: 1.0f64.to_bits(),
        min_bits: 0,
        max_bits: 0,
        elapsed_ms: ms,
    }
}

#[test]
fn diagnostics_pass_without_issues() {
    let clean = report_findings(&vec![finding(0, false, false, 3)], 9);
    assert!(clean.passed);
    assert!(clean.issues.is_empty());
    assert_eq!(clean.global.memory_peak_bytes, 9);
    let bad = report_findings(
        &vec![finding(0, false, false, 3), finding(1, true, true, 5)],
        9,
    );
    assert!(!bad.passed);
    assert_eq!(bad.issues.len(), 2);
    assert_eq!((bad.global.nan_layers, bad.global.inf_layers), (1, 1));
    assert_eq!((bad.global.total_runtime_ms, bad.global.max_runtime_ms), (8, 5));
    assert!(!bad.layers[1].hidden_finite);
}

#[test]
fn values_are_scanned_by_their_bits() {
    let b = |v: &[f32]| v.iter().map(|x| x.to_bits()).collect::<Vec<u32>>();
    assert_eq!(scan_values(&b(&[1.0, -2.0])), (false, false));
    assert_eq!(scan_values(&b(&[f32::NAN])), (true, false));
    assert_eq!(scan_values(&b(&[f32::NEG_INFINITY, 0.0])), (false, true));
}

#[test]
fn tiles_are_laid_out_for_the_device() {
    let j = tile_job(3, 641);
    assert_eq!((j.tiles, j.padded_in), (2, 1280));
    assert_eq!(j.ingest_bytes, 3 * 1280 * 2);
    assert_eq!(j.packed_bytes, 3 * 2 * 128);
    assert_eq!((j.threads, j.group_threads), (6, 32));
    let rows = pad_rows(&[1, 2, 3, 4], 2, 1);
    assert_eq!(rows.len(), 2 * 1280);
    assert_eq!(rows[0..3], [1, 2, 0]);
    assert_eq!(rows[1280..1283], [3, 4, 0]);
}

#[test]
fn dispatches_are_planned() {
    let d = TernaryProjectionDispatcher::new(());
    let p = ProjectionParams {
        in_dim: 640,
        out_dim: 16,
        page_count: 2,
        page_width: 640,
        mode_flags: 0,
        probe_seed: 0,
        reserved: [0; 5],
    };
    let mut r = KernelReceipt::default();
    let plan = d.dispatch(&p, &mut r, true);
    assert_eq!(plan.kernel_name, "ternary_tile640_gemv");
    assert_eq!((plan.groups, plan.threads), (16, 64));
    assert_eq!(plan.scalars[0].value, 640);
    assert_eq!(r.logical_weight_bytes, 640 * 2 / 8 * 13);
    assert_eq!(r.logical_activation_bytes, 640 * 16 * 2);
    assert_eq!(r.output_elements, 16);
}

#[test]
fn pipelines_are_kept_by_name_and_constants() {
    let a = projection_constants(640, true, false);
    let b = projection_constants(640, false, false);
    assert_ne!(a.digest, b.digest);
    assert_eq!((a.page_width, a.sidecar_enabled, a.instrumented), (640, 1, 0));
    let mut cache = KernelCache::new();
    cache.insert("k", a.digest, 7u32);
    assert_eq!(cache.get("k", a.digest), Some(&7));
    assert_eq!(cache.get("k", b.digest), None);
    assert_eq!(cache.get("other", a.digest), None);
}

#[test]
fn publishing_reports_how_a_move_failed() {
    assert!(publish_image("/s", "/d", &MoveOutcome::Moved).is_ok());
    let e = publish_image(
        "/s",
        "/d",
        &MoveOutcome::Failed { crosses_devices: false, error: "busy".to_string(), marker: Ok(()) },
    )
    .unwrap_err();
    assert!(e.contains("busy"), "{e}");
    assert_eq!(failure_marker("busy"), "rename failed: busy");
    assert_eq!(archive_name("island0"), "island0.ane.tar");
    assert!(is_compiled_model(true, &Some("mlmodelc".to_string())));
    assert!(!is_compiled_model(true, &None));
    assert!(!is_compiled_model(false, &Some("mlmodelc".to_string())));
    assert!(join_sources(&strings(&["a", "b"])).contains("a"));
}

#[test]
fn fields_are_filled_and_ended_with_a_zero() {
    let mut field = vec![9i8; 4];
    copy_cstr_to_array(&mut field, b"abcdef");
    assert_eq!(field, vec![97, 98, 99, 0]);
    let mut field = vec![9i8; 4];
    copy_cstr_to_array(&mut field, b"a");
    assert_eq!(field, vec![97, 0, 9, 9]);
    let mut field = vec![1i8; 3];
    copy_cstr_to_array(&mut field, b"abcd");
    assert_eq!(field, vec![97, 98, 0]);
    let mut field = vec![1i8; 3];
    copy_cstr_to_array(&mut field, b"abc");
    assert_eq!(field, vec![97, 98, 0]);
    let mut field: Vec<i8> = vec![];
    copy_cstr_to_array(&mut field, b"a");
    assert!(field.is_empty());
}

#[test]
fn segments_are_opened_by_what_was_found() {
    let found = SegmentFile::Found { file_name: "seg7.bin".to_string(), bytes: 12 };
    let m = MmapLoader::open_segment("/x/seg7.bin", found).unwrap();
    assert_eq!(m.segment_id, "seg7");
    assert_eq!(m.mapped_bytes, 12);
    let e = MmapLoader::open_segment("/x", SegmentFile::Missing).unwrap_err();
    assert!(e.message().contains("/x"));
    let e = MmapLoader::open_segment("/x", SegmentFile::Unreadable).unwrap_err();
    assert!(e.message().contains("/x"));
}
