//! Who may compile what, and what a configuration says.

use compute_image::compile::authority::{
    architecture_of_file, check_profile, choose_quant, extract_architecture_from_config,
    image_build_attestation, quantization_label, verify_fixture_ceiling,
    verify_image_build_profile, CompilationAuthority, FixtureFile,
};
use compute_image::compile::pipeline::{admit_compile, admit_speculative};
use compute_image::config::{architecture_name, CompileQuantMode};

fn file(extension: &str, size: u64) -> FixtureFile {
    FixtureFile { extension: extension.to_string(), size: Some(size) }
}

#[test]
fn fixtures_must_not_use_the_profile_of_images() {
    let e = check_profile(CompilationAuthority::TestFixture, "image-build", true).unwrap_err();
    assert_eq!(e, "TestFixture must not use image-build profile. Use cargo test or cargo build.");
    assert!(check_profile(CompilationAuthority::TestFixture, "unknown", true).is_ok());
    assert!(check_profile(CompilationAuthority::SealedComputeImage, "image-build", false).is_ok());
}

#[test]
fn builds_with_debug_assertions_seal_no_images() {
    assert!(verify_image_build_profile(false).is_ok());
    let e = verify_image_build_profile(true).unwrap_err();
    assert_eq!(
        e,
        "image builds require production optimization settings: debug assertions are enabled"
    );
    let sealed = CompilationAuthority::SealedComputeImage;
    assert_eq!(check_profile(sealed, "image-build", true).unwrap_err(), e);
    assert_eq!(admit_compile(sealed, "image-build", true, &None, &vec![]).unwrap_err(), e);
    assert_eq!(admit_speculative(sealed, true, &None, &vec![]).unwrap_err(), e);
}

#[test]
fn fixtures_have_a_ceiling() {
    let small = Some("{\"num_hidden_layers\": 4}".to_string());
    let large = Some("{\"num_hidden_layers\": 5}".to_string());
    assert!(verify_fixture_ceiling(&small, &vec![]).is_ok());
    assert_eq!(
        verify_fixture_ceiling(&large, &vec![]).unwrap_err(),
        "TestFixture ceiling: max 4 layers, found 5. Use SealedComputeImage for production models."
    );
    let wordy = Some("{\"vocab_size\": 65537}".to_string());
    assert_eq!(
        verify_fixture_ceiling(&wordy, &vec![]).unwrap_err(),
        "TestFixture ceiling: max 65536 vocab, found 65537"
    );
    let broken = verify_fixture_ceiling(&Some("{".to_string()), &vec![]).unwrap_err();
    assert!(broken.starts_with("parse config: "), "{broken}");
    let heavy = vec![file("safetensors", 129 * 1024 * 1024)];
    assert!(verify_fixture_ceiling(&small, &heavy).is_err());
    let light = vec![file("safetensors", 1024), file("txt", u64::MAX / 2)];
    assert!(verify_fixture_ceiling(&small, &light).is_ok());
}

#[test]
fn sealed_images_have_none() {
    let large = Some("{\"num_hidden_layers\": 500}".to_string());
    let sealed = CompilationAuthority::SealedComputeImage;
    assert!(admit_compile(sealed, "image-build", false, &large, &vec![]).is_ok());
    assert!(admit_speculative(sealed, false, &large, &vec![]).is_ok());
    let fixture = CompilationAuthority::TestFixture;
    assert!(admit_compile(fixture, "unknown", true, &large, &vec![]).is_err());
    assert!(admit_speculative(fixture, true, &large, &vec![]).is_err());
}

const CONFIG: &str = "{\"model_type\": \"gemma4\", \"hidden_size\": 64, \
    \"num_attention_heads\": 4, \"num_key_value_heads\": 2, \"intermediate_size\": 128, \
    \"num_hidden_layers\": 2, \"vocab_size\": 100, \"rms_norm_eps\": 1e-5, \
    \"tie_word_embeddings\": true, \"rope_theta\": 1000000.0}";

#[test]
fn a_configuration_is_read() {
    let a = extract_architecture_from_config(CONFIG).unwrap().unwrap();
    assert_eq!(a.model_type, "gemma4");
    assert_eq!(a.hidden_size, 64);
    assert_eq!(a.num_attention_heads, 4);
    assert_eq!(a.num_key_value_heads, 2);
    assert_eq!(a.head_dim, 16);
    assert_eq!(a.intermediate_size, 128);
    assert_eq!(a.num_hidden_layers, 2);
    assert_eq!(a.vocab_size, 100);
    assert_eq!(f64::from_bits(a.rms_norm_eps_bits), 1e-5);
    assert!(a.tie_word_embeddings);
    assert_eq!(f64::from_bits(a.rope_theta_bits), 1000000.0);
}

#[test]
fn a_configuration_without_a_width_is_refused() {
    let r = extract_architecture_from_config("{\"model_type\": \"llama\"}").unwrap();
    assert_eq!(r.unwrap_err(), "missing config field: hidden_size");
}

#[test]
fn a_file_that_is_no_configuration_is_reported() {
    let gone = architecture_of_file(&Err("gone".to_string())).unwrap().unwrap_err();
    assert_eq!(gone, "read config.json: gone");
    let broken = architecture_of_file(&Ok("not json".to_string())).unwrap().unwrap_err();
    assert!(broken.starts_with("parse config.json: "), "{broken}");
    let empty = architecture_of_file(&Ok("{}".to_string())).unwrap().unwrap_err();
    assert_eq!(empty, "extract architecture: missing config field: hidden_size");
    // A width cannot be shared out among no heads.
    let no_heads = "{\"hidden_size\": 8, \"num_attention_heads\": 0}".to_string();
    assert!(architecture_of_file(&Ok(no_heads)).is_none());
}

#[test]
fn models_name_their_class() {
    assert_eq!(architecture_name("gemma4"), "Gemma4ForCausalLM");
    assert_eq!(architecture_name("gemma2"), "GemmaForCausalLM");
    assert_eq!(architecture_name("llama"), "LlamaForCausalLM");
    assert_eq!(architecture_name("mystery"), "LlamaForCausalLM");
}

#[test]
fn what_is_settled_wins_over_what_is_asked() {
    let nf4 = CompileQuantMode::Nf4 { group_size: 64 };
    let ternary = CompileQuantMode::Ternary { group_size: 64 };
    assert!(matches!(
        choose_quant(Some(Some(nf4)), Some(ternary), None),
        Some(CompileQuantMode::Nf4 { .. })
    ));
    assert!(choose_quant(Some(None), Some(ternary), None).is_none());
    assert!(matches!(
        choose_quant(None, Some(ternary), Some(nf4)),
        Some(CompileQuantMode::Ternary { .. })
    ));
    assert!(matches!(
        choose_quant(None, None, Some(nf4)),
        Some(CompileQuantMode::Nf4 { .. })
    ));
    assert_eq!(quantization_label(None), "none");
}

#[test]
fn an_attestation_tells_how_the_compiler_was_built() {
    let a = image_build_attestation("image-build", "3", "aarch64-apple-darwin", false);
    assert_eq!(a.profile, "image-build");
    assert_eq!(a.opt_level, "3");
    assert_eq!(a.target, "aarch64-apple-darwin");
    assert!(!a.debug_assertions);
}
