//! Results of kernel validation, and the data that it runs on.

use compute_image::compile::validation_data::{
    f16_bits_to_f32, f32_to_f16_bits, pack_page, probe_sequence, unpack_page, Lcg,
};
use compute_image::compile::validation_matrix::{
    batch_memory, judge_memory, run_validation_matrix, run_validation_results, KernelMeasures,
    Measure, UnpackMeasures, ValidationMatrix, ValidationResult,
};

#[test]
fn test_validation_result_construction() {
    let r = ValidationResult::new("test_kernel", "test_name");
    assert!(r.passed);
    assert_eq!(r.kernel_name, "test_kernel");
    assert_eq!(r.test_name, "test_name");
    assert_eq!(f64::from_bits(r.max_abs_error), 0.0);
    assert!(r.details.is_empty());
}

#[test]
fn test_validation_result_fail() {
    let mut r = ValidationResult::new("k", "t");
    r.fail(0.5f64.to_bits(), "something went wrong".to_string());
    assert!(!r.passed);
    assert!((f64::from_bits(r.max_abs_error) - 0.5).abs() < 1e-12);
    assert!(r.details.contains("something went wrong"));
}

#[test]
fn test_validation_result_record_error() {
    let mut r = ValidationResult::new("k", "t");
    let error = 1e-5f64;
    r.record_error(error.to_bits(), "mse", &format!("{:.2e}", error));
    assert!(r.passed);
    assert!((f64::from_bits(r.max_abs_error) - 1e-5).abs() < 1e-12);
    assert!(r.details.contains("mse=1"));
}

#[test]
fn details_are_joined_and_zero_errors_leave_none() {
    let mut r = ValidationResult::new("k", "t");
    r.record_error(0, "zero", "0.00e0");
    assert_eq!(r.details, "");
    r.record_error(2.0f64.to_bits(), "a", "2.00e0");
    r.fail(1.0f64.to_bits(), "b".to_string());
    assert_eq!(r.details, "a=2.00e0; b");
    assert_eq!(f64::from_bits(r.max_abs_error), 2.0);
}

#[test]
fn test_validation_matrix() {
    let mut m = ValidationMatrix::new("my_kernel");
    assert_eq!(m.kernel_name, "my_kernel");
    assert!(m.overall_pass);
    assert!(m.results.is_empty());
    m.push(ValidationResult::new("my_kernel", "passing_test"));
    assert!(m.overall_pass);
    m.push(ValidationResult {
        kernel_name: "my_kernel".into(),
        test_name: "failing_test".into(),
        passed: false,
        max_abs_error: 1.0f64.to_bits(),
        details: "failed".into(),
    });
    assert!(!m.overall_pass);
}

#[test]
fn a_failure_stays() {
    let mut m = ValidationMatrix::new("k");
    let mut bad = ValidationResult::new("k", "bad");
    bad.fail(0, "no".to_string());
    m.push(bad);
    m.push(ValidationResult::new("k", "good"));
    assert!(!m.overall_pass);
    assert_eq!(m.results.len(), 2);
}

#[test]
fn test_probe_sequence() {
    let seq = probe_sequence(42, 10, 100);
    assert_eq!(seq.len(), 10);
    for &pos in &seq {
        assert!(pos < 100, "position {} out of range", pos);
    }
    let seq2 = probe_sequence(42, 10, 100);
    assert_eq!(seq, seq2);
}

#[test]
fn test_lcg_deterministic() {
    let mut a = Lcg::new(1);
    let mut b = Lcg::new(1);
    for _ in 0..100 {
        assert_eq!(a.next(), b.next());
    }
}

#[test]
fn test_f16_roundtrip() {
    let vals: [f32; 9] = [0.0, 1.0, -1.0, 0.5, -0.5, 0.125, -3.1415, 65504.0, -65504.0];
    for &v in &vals {
        let bits = f32_to_f16_bits(v.to_bits());
        let back = f32::from_bits(f16_bits_to_f32(bits));
        assert!(
            (back - v).abs() < 0.1 || (back.is_infinite() && v.abs() >= 65504.0),
            "f16 roundtrip failed: {} -> {:#06x} -> {}",
            v,
            bits,
            back
        );
    }
}

#[test]
fn test_probe_sequence_different_seeds() {
    let a = probe_sequence(1, 5, 100);
    let b = probe_sequence(2, 5, 100);
    assert_ne!(a, b, "different seeds produced identical probe sequences");
}

#[test]
fn a_page_unpacks_to_its_digits() {
    let digits: Vec<u8> = (0..640).map(|i| (i % 3) as u8).collect();
    let page = pack_page(&digits);
    assert_eq!(page.len(), 32);
    let values = unpack_page(&page, 2.0f32.to_bits(), 640);
    for (i, &v) in values.iter().enumerate() {
        let expected = [0.0, 2.0, -2.0][digits[i] as usize];
        assert_eq!(half::f16::from_bits(v).to_f32(), expected, "value {i}");
    }
}

fn measure(v: f64) -> Measure {
    Measure { bits: v.to_bits(), shown: format!("{:.2e}", v) }
}

#[test]
fn nothing_measured_gives_no_results() {
    let none = KernelMeasures {
        ternary: None,
        dense: None,
        error_partial: None,
        attention: None,
        candidate: None,
        unpack: None,
        sidecar: None,
        rmsnorm: None,
        mlp: None,
    };
    let results = run_validation_results(&none);
    let matrices = run_validation_matrix(&none);
    let total: usize = matrices.iter().map(|m| m.results.len()).sum();
    assert_eq!(results.len(), total);
}

#[test]
fn an_unpacked_page_is_judged() {
    let ones = vec![half::f16::from_f32(1.0).to_bits(); 640];
    let good = UnpackMeasures {
        decode_error: measure(0.0),
        zero_output: vec![0; 640],
        positive_output: ones,
        tail_error: measure(0.0),
    };
    let m = compute_image::compile::validation_matrix::validate_unpack_verify(&good);
    let failed: Vec<&str> =
        m.results.iter().filter(|r| !r.passed).map(|r| r.test_name.as_str()).collect();
    assert_eq!(m.overall_pass, failed.is_empty(), "{failed:?}");
    let bad = UnpackMeasures { decode_error: measure(5.0), ..good };
    let m = compute_image::compile::validation_matrix::validate_unpack_verify(&bad);
    assert!(!m.overall_pass);
}

#[test]
fn batches_are_judged_by_their_memory() {
    let bytes = batch_memory(4096, 8);
    assert!(bytes > 0);
    let r = judge_memory("k", bytes, &measure(1.0), &measure(0.001));
    assert_eq!(r.kernel_name, "k");
}
