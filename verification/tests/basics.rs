//! Texts, numbers, names in order, and tables of names.

use compute_image::compile::differential::{parse_file_number, segment_filename};
use compute_image::compile_hw::{
    assign_lanes, check_sizes, merge_results, place_op, select_kernel, KernelBenchResult,
};
use compute_image::numeral::parse_numeral;
use compute_image::order::{comes_before, sorted_order};
use compute_image::table::{sorted_names, NameTable};
use compute_image::text::{contains, decimal_string, ends_with, replace, starts_with, trim_suffix};

#[test]
fn numbers_and_numerals() {
    assert_eq!(decimal_string(0), "0");
    assert_eq!(decimal_string(u64::MAX), "18446744073709551615");
    assert_eq!(parse_numeral("042", 100), Some(42));
    assert_eq!(parse_numeral("+7", 100), Some(7));
    assert_eq!(parse_numeral("101", 100), None);
    assert_eq!(parse_numeral("", 100), None);
    assert_eq!(parse_numeral("4x", 100), None);
}

#[test]
fn files_of_segments_are_numbered() {
    assert_eq!(segment_filename(7), "segment_007.bin");
    assert_eq!(segment_filename(1234), "segment_1234.bin");
    assert_eq!(parse_file_number("segment_007.bin"), Some(7));
    assert_eq!(parse_file_number("layer_007.bin"), None);
    for n in [0u64, 9, 99, 999, 1000] {
        assert_eq!(parse_file_number(&segment_filename(n)), Some(n as usize));
    }
}

#[test]
fn parts_of_texts() {
    assert!(starts_with("model.layers", "model."));
    assert!(ends_with("a.weight", ".weight"));
    assert!(contains("model.embed_tokens.weight", "embed_tokens"));
    assert!(!contains("abc", "abd"));
    assert_eq!(trim_suffix("a.weight", ".weight"), "a");
    assert_eq!(replace("a.b.a", "a", "xy"), "xy.b.xy");
}

#[test]
fn names_are_ordered_as_strings() {
    assert!(comes_before("a", "b"));
    assert!(comes_before("a", "aa"));
    assert!(!comes_before("b", "a"));
    let names: Vec<String> = ["c", "a", "b"].iter().map(|s| s.to_string()).collect();
    assert_eq!(sorted_order(&names), vec![1, 2, 0]);
}

#[test]
fn a_table_keeps_one_value_a_name() {
    let mut t = NameTable::new();
    t.insert("x".to_string(), 1);
    t.insert("a".to_string(), 2);
    t.insert("x".to_string(), 3);
    assert_eq!(t.get("x"), Some(&3));
    assert_eq!(t.get("y"), None);
    assert_eq!(sorted_names(&t), vec!["a".to_string(), "x".to_string()]);
}

fn result(name: &str, backend: &str, op: &str, median: u64) -> KernelBenchResult {
    KernelBenchResult {
        variant_name: name.to_string(),
        backend: backend.to_string(),
        op_type: op.to_string(),
        shape: vec![1, 64],
        dtype: "f32".to_string(),
        median_latency_ns: median,
        min_latency_ns: median,
        p90_latency_ns: median,
        bandwidth_bits: 0,
        throughput_bits: 0,
        numerical_error_bits: 0,
        compile_time_bits: 0,
    }
}

#[test]
fn the_fastest_backend_wins_an_operation() {
    let all = vec![
        result("slow", "mlx", "matmul", 90),
        result("fast", "accelerate", "matmul", 10),
        result("other", "mlx", "rope", 5),
    ];
    let p = place_op(&all, "matmul");
    assert_eq!(p.winner_latency_ns, 10);
    assert_eq!(p.runner_up_latency_ns, 90);
    assert_eq!(p.lane_results.len(), 2);
    let lanes = assign_lanes(&all);
    assert!(lanes.iter().any(|l| l.op_type == "rope" && l.latency_ns == 5));
    let s = select_kernel("matmul", &all[1], "t");
    assert_eq!(s.selected_variant, "fast");
    assert_eq!(s.expected_latency_ns, 10);
}

#[test]
fn only_winners_are_doubled() {
    let huge = vec![0x8000_0000, 0x8000_0000, 2];
    let mut all = vec![result("fast", "mlx", "matmul", 10), result("slow", "metal", "matmul", 20)];
    all[1].shape = huge.clone();
    assert!(check_sizes(&all));
    assert_eq!(place_op(&all, "matmul").total_transfer_bytes, 128);
    all[0].shape = huge;
    assert!(!check_sizes(&all));
    all[0].shape = vec![1];
    all[1].shape = vec![u32::MAX, u32::MAX, u32::MAX, 0];
    assert!(!check_sizes(&all));
}

#[test]
fn measured_results_replace_synthetic_ones() {
    let synthetic = vec![result("s", "mlx", "matmul", 1), result("m", "metal", "matmul", 2)];
    let measured = vec![result("real", "mlx", "matmul", 3)];
    let merged = merge_results(&synthetic, &vec![], &measured);
    let names: Vec<&str> = merged.iter().map(|r| r.variant_name.as_str()).collect();
    assert_eq!(names.last(), Some(&"real"));
    assert!(names.contains(&"m"));
}
