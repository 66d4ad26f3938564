//! Programs for Tensix cards.

use compute_image::compile_tensix::{
    build_program_spec_json, compile_tensix, compute_ir_hash, estimate_sram_per_core,
    map_op_to_tensix_kernel, tensor_byte_size,
};
use compute_image::compute_ir::{
    ComputeExecutionIR, IROp, IrRegion, IrTensor, QuantMode, TensorDisposition,
};
use compute_image::table::NameTable;
use compute_image::tensix::{
    CardCoord, DataFormat, GoldenPath, InterconnectType, KernelConfig, KernelType, MathFidelity,
    TensixArch,
};

fn single_card_topology() -> (Vec<CardCoord>, GoldenPath) {
    (
        vec![CardCoord { card_id: 0, noc_x: 0, noc_y: 0 }],
        GoldenPath { ordered_cards: vec![0], interconnect: InterconnectType::Noc },
    )
}

fn make_test_tensor(id: &str, name: &str, shape: Vec<u32>, dtype: &str) -> IrTensor {
    IrTensor {
        id: id.to_string(),
        name: name.to_string(),
        logical_dtype: dtype.to_string(),
        logical_shape: shape.clone(),
        physical_dtype: dtype.to_string(),
        physical_shape: shape,
        strides: vec![],
        quant_mode: QuantMode::Absent,
        disposition: TensorDisposition::Transient,
    }
}

fn make_test_op(
    kind: &str,
    inputs: Vec<&str>,
    outputs: Vec<&str>,
    meta: Vec<(&str, &str)>,
) -> IROp {
    let mut metadata = NameTable::new();
    for (k, v) in meta {
        metadata.insert(k.to_string(), v.to_string());
    }
    IROp {
        kind: kind.to_string(),
        input_tensors: inputs.into_iter().map(String::from).collect(),
        output_tensors: outputs.into_iter().map(String::from).collect(),
        metadata,
    }
}

fn ir_of(tensors: Vec<IrTensor>, ops: Vec<IROp>) -> ComputeExecutionIR {
    ComputeExecutionIR {
        tensors,
        aliases: vec![],
        layers: vec![],
        regions: vec![IrRegion {
            ops,
            dependencies: vec![],
            candidates: vec![],
            state_effects: vec![],
        }],
        metadata: NameTable::new(),
    }
}

#[test]
fn test_matmul_mapping() {
    let op = make_test_op(
        "matmul",
        vec!["a", "b"],
        vec!["c"],
        vec![("m", "64"), ("n", "64"), ("k", "64")],
    );
    let (cfg, cycles, cores) = map_op_to_tensix_kernel(&op, TensixArch::WormholeB0).unwrap();
    assert_eq!(cfg.kernel_type, KernelType::Math);
    assert_eq!(cfg.math_fidelity, MathFidelity::HiFi3);
    assert_eq!(cores, 8);
    assert!(cycles > 0);
}

#[test]
fn test_small_matmul_uses_fewer_cores() {
    let op = make_test_op(
        "matmul",
        vec!["a", "b"],
        vec!["c"],
        vec![("m", "8"), ("n", "8"), ("k", "8")],
    );
    let (_, _, cores) = map_op_to_tensix_kernel(&op, TensixArch::WormholeB0).unwrap();
    assert_eq!(cores, 1);
}

#[test]
fn test_rms_norm_mapping() {
    let op = make_test_op("rms_norm", vec!["x"], vec!["y"], vec![("dim", "4096")]);
    let (cfg, cycles, cores) = map_op_to_tensix_kernel(&op, TensixArch::WormholeB0).unwrap();
    assert_eq!(cfg.kernel_type, KernelType::Math);
    assert_eq!(cfg.math_fidelity, MathFidelity::HiFi4);
    assert_eq!(cores, 1);
    assert_eq!(cycles, 8192);
}

#[test]
fn test_softmax_mapping() {
    let op = make_test_op("softmax", vec!["x"], vec!["y"], vec![("dim", "4096")]);
    let (cfg, _cycles, cores) = map_op_to_tensix_kernel(&op, TensixArch::WormholeB0).unwrap();
    assert_eq!(cfg.kernel_type, KernelType::Math);
    assert_eq!(cfg.math_fidelity, MathFidelity::LoFi);
    assert_eq!(cores, 1);
}

#[test]
fn test_silu_mapping() {
    let op = make_test_op("silu", vec!["x"], vec!["y"], vec![]);
    let (cfg, cycles, _) = map_op_to_tensix_kernel(&op, TensixArch::WormholeB0).unwrap();
    assert_eq!(cfg.kernel_type, KernelType::Math);
    assert_eq!(cfg.math_fidelity, MathFidelity::LoFi);
    assert_eq!(cycles, 10);
}

#[test]
fn test_add_mapping() {
    let op = make_test_op("add", vec!["a", "b"], vec!["c"], vec![]);
    let (cfg, cycles, _) = map_op_to_tensix_kernel(&op, TensixArch::WormholeB0).unwrap();
    assert_eq!(cfg.kernel_type, KernelType::Relu);
    assert_eq!(cfg.math_fidelity, MathFidelity::LoFi);
    assert_eq!(cycles, 2);
}

#[test]
fn test_rope_mapping() {
    let op = make_test_op("rope", vec!["x"], vec!["y"], vec![]);
    let (cfg, cycles, _) = map_op_to_tensix_kernel(&op, TensixArch::WormholeB0).unwrap();
    assert_eq!(cfg.kernel_type, KernelType::Math);
    assert_eq!(cfg.math_fidelity, MathFidelity::HiFi4);
    assert_eq!(cycles, 20);
}

#[test]
fn test_sdpa_mapping() {
    let op = make_test_op("sdpa", vec!["q", "k", "v"], vec!["o"], vec![]);
    let (cfg, cycles, cores) = map_op_to_tensix_kernel(&op, TensixArch::WormholeB0).unwrap();
    assert_eq!(cfg.kernel_type, KernelType::Math);
    assert_eq!(cfg.math_fidelity, MathFidelity::HiFi3);
    assert_eq!(cores, 4);
    assert!(cycles >= 200);
}

#[test]
fn test_kv_cache_mapping() {
    let op = make_test_op("kv_cache", vec!["k", "v"], vec!["k_out", "v_out"], vec![]);
    let (cfg, cycles, _) = map_op_to_tensix_kernel(&op, TensixArch::WormholeB0).unwrap();
    assert_eq!(cfg.kernel_type, KernelType::Relu);
    assert_eq!(cfg.math_fidelity, MathFidelity::LoFi);
    assert_eq!(cycles, 5);
}

#[test]
fn test_unsupported_op_returns_error() {
    let op = make_test_op("conv2d", vec!["x"], vec!["y"], vec![]);
    assert!(map_op_to_tensix_kernel(&op, TensixArch::WormholeB0).is_err());
}

#[test]
fn test_tensor_byte_size_bf16() {
    let tensor = make_test_tensor("t0", "weight", vec![1024, 4096], "bfloat16");
    assert_eq!(tensor_byte_size(&tensor), 1024 * 4096 * 2);
}

#[test]
fn test_tensor_byte_size_f32() {
    let tensor = make_test_tensor("t0", "bias", vec![4096], "float32");
    assert_eq!(tensor_byte_size(&tensor), 4096 * 4);
}

#[test]
fn test_tensor_byte_size_int8() {
    let tensor = make_test_tensor("t0", "quant", vec![1024], "int8");
    assert_eq!(tensor_byte_size(&tensor), 1024);
}

#[test]
fn test_compile_tensix_empty_ir() {
    let ir = ComputeExecutionIR::new();
    let (map, path) = single_card_topology();
    let image = compile_tensix(&ir, TensixArch::WormholeB0, &map, &path).unwrap();
    assert_eq!(image.kernel_configs.len(), 0);
    assert_eq!(image.tensor_bindings.len(), 0);
    assert_eq!(image.core_count, 0);
    assert_eq!(image.dram_bytes, 0);
    assert_eq!(image.card_count, 1);
    assert_eq!(image.interconnect_map.len(), 1);
}

#[test]
fn tensors_are_found_by_id() {
    let mut other = make_test_tensor("y", "second", vec![1], "int8");
    other.strides = vec![3];
    let mut first = make_test_tensor("y", "first", vec![2], "int8");
    first.strides = vec![7];
    let ir = ir_of(vec![make_test_tensor("x", "zero", vec![1], "int8"), first, other], vec![]);
    let t = ir.tensor_by_id("y").unwrap();
    assert_eq!((t.name.as_str(), t.strides.len(), t.strides[0]), ("first", 1, 7));
    assert!(ir.tensor_by_id("z").is_none());
}

#[test]
fn a_single_card_is_assumed() {
    let ir = ComputeExecutionIR::new();
    let (map, mut path) = single_card_topology();
    path.ordered_cards = vec![];
    let image = compile_tensix(&ir, TensixArch::WormholeB0, &[], &path).unwrap();
    assert_eq!(image.card_count, 1);
    let image = compile_tensix(&ir, TensixArch::WormholeB0, &map, &path).unwrap();
    assert_eq!(image.card_count, 1);
    path.ordered_cards = vec![0];
    let image = compile_tensix(&ir, TensixArch::WormholeB0, &[], &path).unwrap();
    assert_eq!(image.card_count, 0);
}

#[test]
fn test_compile_tensix_single_op() {
    let tensor = make_test_tensor("y", "output", vec![64, 64], "bfloat16");
    let op = make_test_op("silu", vec!["x"], vec!["y"], vec![]);
    let ir = ir_of(vec![tensor], vec![op]);
    let (map, path) = single_card_topology();
    let image = compile_tensix(&ir, TensixArch::WormholeB0, &map, &path).unwrap();
    assert_eq!(image.kernel_configs.len(), 1);
    assert_eq!(image.tensor_bindings.len(), 1);
    assert_eq!(image.tensor_bindings[0].tensor_name, "output");
    assert_eq!(image.tensor_bindings[0].byte_size, 64 * 64 * 2);
    assert!(image.program_hash != 0);
    assert_eq!(image.card_count, 1);
}

#[test]
fn test_estimate_sram_minimum() {
    let kernels = vec![KernelConfig {
        name: "test".into(),
        kernel_type: KernelType::Math,
        math_fidelity: MathFidelity::HiFi3,
        tile_dims: (32, 32),
        data_format: DataFormat::BFloat16,
    }];
    let sram = estimate_sram_per_core(&kernels);
    assert!(sram >= 64 * 1024);
}

#[test]
fn test_kernel_name_from_metadata_label() {
    let op = make_test_op("matmul", vec!["q", "k"], vec!["scores"], vec![("name", "layer0_attn")]);
    let (cfg, _, _) = map_op_to_tensix_kernel(&op, TensixArch::WormholeB0).unwrap();
    assert_eq!(cfg.name, "layer0_attn_matmul");
}

#[test]
fn test_kernel_name_fallback() {
    let op = make_test_op("silu", vec!["x"], vec!["y"], vec![]);
    let (cfg, _, _) = map_op_to_tensix_kernel(&op, TensixArch::WormholeB0).unwrap();
    assert!(cfg.name.contains("silu"));
}

#[test]
fn test_dedup_tensor_bindings() {
    let tensor = make_test_tensor("y", "shared_out", vec![32], "bfloat16");
    let op1 = make_test_op("silu", vec!["x"], vec!["y"], vec![]);
    let op2 = make_test_op("silu", vec!["x"], vec!["y"], vec![]);
    let ir = ir_of(vec![tensor], vec![op1, op2]);
    let (map, path) = single_card_topology();
    let image = compile_tensix(&ir, TensixArch::WormholeB0, &map, &path).unwrap();
    assert_eq!(image.tensor_bindings.len(), 1);
}

#[test]
fn bindings_lie_one_after_the_other() {
    let a = make_test_tensor("a", "first", vec![32], "bfloat16");
    let b = make_test_tensor("b", "second", vec![8], "float32");
    let op1 = make_test_op("silu", vec!["x"], vec!["a"], vec![]);
    let op2 = make_test_op("add", vec!["a"], vec!["b"], vec![]);
    let ir = ir_of(vec![a, b], vec![op1, op2]);
    let (map, path) = single_card_topology();
    let image = compile_tensix(&ir, TensixArch::Blackhole, &map, &path).unwrap();
    assert_eq!(image.tensor_bindings[0].byte_offset, 0);
    assert_eq!(image.tensor_bindings[0].byte_size, 64);
    assert_eq!(image.tensor_bindings[1].byte_offset, 64);
    assert_eq!(image.tensor_bindings[1].byte_size, 32);
    assert_eq!(image.kernel_configs.len(), 2);
    assert_eq!(image.estimated_cycles, 12);
}

#[test]
fn the_hash_of_a_program_tells_programs_apart() {
    let one = ir_of(
        vec![make_test_tensor("y", "out", vec![32], "bfloat16")],
        vec![make_test_op("silu", vec!["x"], vec!["y"], vec![])],
    );
    let other = ir_of(
        vec![make_test_tensor("y", "out", vec![32], "bfloat16")],
        vec![make_test_op("rope", vec!["x"], vec!["y"], vec![])],
    );
    assert_eq!(compute_ir_hash(&one), compute_ir_hash(&one));
    assert_ne!(compute_ir_hash(&one), compute_ir_hash(&other));
}

#[test]
fn the_program_is_written_as_json() {
    let kernels = vec![KernelConfig {
        name: "k".into(),
        kernel_type: KernelType::Math,
        math_fidelity: MathFidelity::HiFi3,
        tile_dims: (32, 32),
        data_format: DataFormat::BFloat16,
    }];
    let text = build_program_spec_json(&kernels);
    assert_eq!(
        text,
        "[{\"name\":\"k\",\"kernel_type\":\"Math\",\"math_fidelity\":\"HiFi3\",\"tile_dims\":[32,32],\"data_format\":\"BFloat16\"}]"
    );
    let value: serde_json::Value = serde_json::from_str(&text).unwrap();
    assert!(value.is_array());
}
