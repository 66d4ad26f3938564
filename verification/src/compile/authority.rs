//! Who may compile what: the profile a compilation must run under, the size up
//! to which a model counts as a fixture, and what a configuration file says of
//! the architecture.

use vstd::prelude::*;
use vstd::string::*;

use crate::config::{CompileQuantMode, TextArchitecture};
use crate::json;
use crate::text;

verus! {

/// On whose authority an image is compiled.
#[derive(Debug, Clone, Copy, PartialEq, Eq, Structural)]
pub enum CompilationAuthority {
    TestFixture,
    SealedComputeImage,
}

/// What a build that is not optimized for production is refused with.
pub open spec fn build_complaint() -> Seq<char> {
    "image builds require production optimization settings: debug assertions are enabled"@
}

/// Accepts a build that was made with production optimization settings: one
/// without debug assertions.
pub fn verify_image_build_profile(debug_assertions: bool) -> (r: Result<(), String>)
    ensures
        r is Err <==> debug_assertions,
        r matches Err(e) ==> e@ == build_complaint(),
{
    if debug_assertions {
        Err(
            "image builds require production optimization settings: debug assertions are enabled".to_owned(),
        )
    } else {
        Ok(())
    }
}

/// Why an authority does not go with the profile and the settings of a build: a
/// fixture must not be compiled under the profile of production images, and a
/// production image must be compiled by a build that is optimized for it.
pub open spec fn profile_complaint(
    authority: CompilationAuthority,
    profile: Seq<char>,
    debug_assertions: bool,
) -> Option<Seq<char>> {
    match authority {
        CompilationAuthority::TestFixture => if profile == "image-build"@ {
            Some("TestFixture must not use image-build profile. Use cargo test or cargo build."@)
        } else {
            None
        },
        CompilationAuthority::SealedComputeImage => if debug_assertions {
            Some(build_complaint())
        } else {
            None
        },
    }
}

/// Checks an authority against the profile and the settings of the build.
pub fn check_profile(
    authority: CompilationAuthority,
    profile: &str,
    debug_assertions: bool,
) -> (r: Result<(), String>)
    ensures
        match r {
            Ok(_) => profile_complaint(authority, profile@, debug_assertions) is None,
            Err(e) => profile_complaint(authority, profile@, debug_assertions) == Some(e@),
        },
{
    match authority {
        CompilationAuthority::TestFixture => {
            if text::same_text(profile, "image-build") {
                return Err(
                    "TestFixture must not use image-build profile. Use cargo test or cargo build.".to_owned(),
                );
            }
            Ok(())
        },
        CompilationAuthority::SealedComputeImage => verify_image_build_profile(debug_assertions),
    }
}

/// A file of a source directory: its extension and its size, where the size is
/// known.
#[derive(Debug)]
pub struct FixtureFile {
    pub extension: String,
    pub size: Option<u64>,
}

/// Whether files of that extension count towards the size of a fixture.
pub open spec fn counts(extension: Seq<char>) -> bool {
    extension == "safetensors"@ || extension == "json"@ || extension == "bin"@
}

/// The size of those files that count.
pub open spec fn counted_size(files: Seq<FixtureFile>) -> nat
    decreases files.len(),
{
    if files.len() == 0 {
        0
    } else {
        let f = files.last();
        counted_size(files.drop_last()) + match f.size {
            Some(n) => if counts(f.extension@) {
                n as nat
            } else {
                0
            },
            None => 0,
        }
    }
}

/// The largest size of a fixture, in bytes.
pub const MAX_FIXTURE_BYTES: u64 = 134_217_728;

/// Why a model is no fixture: its configuration cannot be read, it has more than
/// four layers or a vocabulary of more than 65536, or its files are too large.
pub open spec fn fixture_complaint(config: Option<Seq<char>>, files: Seq<FixtureFile>) -> Option<
    Seq<char>,
> {
    let size = counted_size(files);
    match config {
        Some(c) if json::json_failure(c) is Some => Some(
            "parse config: "@ + json::json_failure(c)->0,
        ),
        Some(c) if json::json_number(c, "num_hidden_layers"@) is Some && json::json_number(
            c,
            "num_hidden_layers"@,
        )->0 > 4 => Some(
            "TestFixture ceiling: max 4 layers, found "@ + text::decimal(
                json::json_number(c, "num_hidden_layers"@)->0 as nat,
            ) + ". Use SealedComputeImage for production models."@,
        ),
        Some(c) if json::json_number(c, "vocab_size"@) is Some && json::json_number(
            c,
            "vocab_size"@,
        )->0 > 65536 => Some(
            "TestFixture ceiling: max 65536 vocab, found "@ + text::decimal(
                json::json_number(c, "vocab_size"@)->0 as nat,
            ),
        ),
        _ => if size > MAX_FIXTURE_BYTES {
            Some(
                "TestFixture source ceiling: "@ + text::decimal(MAX_FIXTURE_BYTES as nat)
                    + " bytes, found "@ + text::decimal(size),
            )
        } else {
            None
        },
    }
}

fn sum_counted(files: &Vec<FixtureFile>) -> (r: u64)
    requires
        counted_size(files@) <= u64::MAX,
    ensures
        r == counted_size(files@),
{
    let mut total: u64 = 0;
    let mut i: usize = 0;
    assert(files@.take(0) =~= Seq::<FixtureFile>::empty());
    while i < files.len()
        invariant
            i <= files@.len(),
            counted_size(files@) <= u64::MAX,
            total == counted_size(files@.take(i as int)),
        decreases files@.len() - i,
    {
        proof {
            assert(files@.take(i + 1).drop_last() =~= files@.take(i as int));
            lemma_counted_grows(files@, i + 1);
        }
        if let Some(n) = files[i].size {
            let e: &str = files[i].extension.as_str();
            if text::same_text(e, "safetensors") || text::same_text(e, "json") || text::same_text(
                e,
                "bin",
            ) {
                total = total + n;
            }
        }
        i = i + 1;
    }
    assert(files@.take(files@.len() as int) =~= files@);
    total
}

proof fn lemma_counted_grows(files: Seq<FixtureFile>, k: int)
    requires
        0 <= k <= files.len(),
    ensures
        counted_size(files.take(k)) <= counted_size(files),
    decreases files.len() - k,
{
    if k < files.len() {
        lemma_counted_grows(files, k + 1);
        assert(files.take(k + 1).drop_last() =~= files.take(k));
    } else {
        assert(files.take(k) =~= files);
    }
}

/// Refuses a model that is too large for a fixture.
pub fn verify_fixture_ceiling(config: &Option<String>, files: &Vec<FixtureFile>) -> (r: Result<
    (),
    String,
>)
    requires
        counted_size(files@) <= u64::MAX,
    ensures
        ({
            let c = match *config {
                Some(s) => Some(s@),
                None => None,
            };
            match r {
                Ok(_) => fixture_complaint(c, files@) is None,
                Err(e) => fixture_complaint(c, files@) == Some(e@),
            }
        }),
{
    if let Some(c) = config {
        if let Some(e) = json::parse_failure(c.as_str()) {
            return Err(text::join2("parse config: ", e.as_str()));
        }
        if let Some(n) = json::member_number(c.as_str(), "num_hidden_layers") {
            if n > 4 {
                let mut e: String = "TestFixture ceiling: max 4 layers, found ".to_owned();
                text::push_decimal(&mut e, n);
                e.append(". Use SealedComputeImage for production models.");
                return Err(e);
            }
        }
        if let Some(n) = json::member_number(c.as_str(), "vocab_size") {
            if n > 65536 {
                let mut e: String = "TestFixture ceiling: max 65536 vocab, found ".to_owned();
                text::push_decimal(&mut e, n);
                return Err(e);
            }
        }
    }
    let total: u64 = sum_counted(files);
    if total > MAX_FIXTURE_BYTES {
        let mut e: String = "TestFixture source ceiling: ".to_owned();
        text::push_decimal(&mut e, MAX_FIXTURE_BYTES);
        e.append(" bytes, found ");
        text::push_decimal(&mut e, total);
        return Err(e);
    }
    Ok(())
}

// ---------------------------------------------------------------------------
// Architecture
// ---------------------------------------------------------------------------

/// The members of a configuration file that settle the architecture.
#[derive(Debug)]
pub struct ConfigFields {
    pub model_type: Option<String>,
    pub hidden_size: Option<u64>,
    pub num_attention_heads: Option<u64>,
    pub num_key_value_heads: Option<u64>,
    pub head_dim: Option<u64>,
    pub intermediate_size: Option<u64>,
    pub num_hidden_layers: Option<u64>,
    pub vocab_size: Option<u64>,
    pub sliding_window: Option<u64>,
    pub max_position_embeddings: Option<u64>,
    pub rms_norm_eps_bits: Option<u64>,
    pub tie_word_embeddings: Option<bool>,
    pub attention_k_eq_v: Option<bool>,
    pub rope_theta_bits: Option<u64>,
}

/// Whether these are the members of the configuration in the text.
pub open spec fn are_fields_of(f: ConfigFields, c: Seq<char>) -> bool {
    &&& match f.model_type {
        Some(s) => json::json_text(c, "model_type"@) == Some(s@),
        None => json::json_text(c, "model_type"@) is None,
    }
    &&& f.hidden_size == json::json_number(c, "hidden_size"@)
    &&& f.num_attention_heads == json::json_number(c, "num_attention_heads"@)
    &&& f.num_key_value_heads == json::json_number(c, "num_key_value_heads"@)
    &&& f.head_dim == json::json_number(c, "head_dim"@)
    &&& f.intermediate_size == json::json_number(c, "intermediate_size"@)
    &&& f.num_hidden_layers == json::json_number(c, "num_hidden_layers"@)
    &&& f.vocab_size == json::json_number(c, "vocab_size"@)
    &&& f.sliding_window == json::json_number(c, "sliding_window"@)
    &&& f.max_position_embeddings == json::json_number(c, "max_position_embeddings"@)
    &&& f.rms_norm_eps_bits == json::json_real_bits(c, "rms_norm_eps"@)
    &&& f.tie_word_embeddings == json::json_truth(c, "tie_word_embeddings"@)
    &&& f.attention_k_eq_v == json::json_truth(c, "attention_k_eq_v"@)
    &&& f.rope_theta_bits == json::json_real_bits(c, "rope_theta"@)
}

/// Reads the members of a configuration that settle the architecture.
pub fn read_config_fields(config: &str) -> (f: ConfigFields)
    ensures
        are_fields_of(f, config@),
{
    ConfigFields {
        model_type: json::member_text(config, "model_type"),
        hidden_size: json::member_number(config, "hidden_size"),
        num_attention_heads: json::member_number(config, "num_attention_heads"),
        num_key_value_heads: json::member_number(config, "num_key_value_heads"),
        head_dim: json::member_number(config, "head_dim"),
        intermediate_size: json::member_number(config, "intermediate_size"),
        num_hidden_layers: json::member_number(config, "num_hidden_layers"),
        vocab_size: json::member_number(config, "vocab_size"),
        sliding_window: json::member_number(config, "sliding_window"),
        max_position_embeddings: json::member_number(config, "max_position_embeddings"),
        rms_norm_eps_bits: json::member_real_bits(config, "rms_norm_eps"),
        tie_word_embeddings: json::member_truth(config, "tie_word_embeddings"),
        attention_k_eq_v: json::member_truth(config, "attention_k_eq_v"),
        rope_theta_bits: json::member_real_bits(config, "rope_theta"),
    }
}

/// The low 32 bits of a number.
pub open spec fn low_word(n: u64) -> u32 {
    (n % 0x1_0000_0000) as u32
}

fn word(n: u64) -> (r: u32)
    ensures
        r == low_word(n),
{
    (n % 0x1_0000_0000) as u32
}

/// A member, or what stands for it where it is not there.
pub open spec fn word_or(n: Option<u64>, other: u32) -> u32 {
    match n {
        Some(n) => low_word(n),
        None => other,
    }
}

fn take_word(n: Option<u64>, other: u32) -> (r: u32)
    ensures
        r == word_or(n, other),
{
    match n {
        Some(n) => word(n),
        None => other,
    }
}

/// The first of the members that must be there and is not.
pub open spec fn missing_field(f: ConfigFields) -> Option<Seq<char>> {
    if f.hidden_size is None {
        Some("hidden_size"@)
    } else if f.num_attention_heads is None {
        Some("num_attention_heads"@)
    } else if f.num_hidden_layers is None {
        Some("num_hidden_layers"@)
    } else if f.vocab_size is None {
        Some("vocab_size"@)
    } else {
        None
    }
}

/// Whether the sizes that are not given can be worked out from those that are.
pub open spec fn sizes_follow(f: ConfigFields) -> bool {
    f.hidden_size is Some && f.num_attention_heads is Some ==> (f.head_dim is None ==> low_word(
        f.num_attention_heads->0,
    ) > 0) && (f.intermediate_size is None ==> low_word(f.hidden_size->0) * 4 <= u32::MAX)
}

/// The bits of 1e-6 as a 64-bit float.
pub const DEFAULT_EPS_BITS: u64 = 0x3EB0_C6F7_A0B5_ED8D;

/// The bits of 10000 as a 64-bit float.
pub const DEFAULT_THETA_BITS: u64 = 0x40C3_8800_0000_0000;

/// Whether the architecture is the one that the members settle.
pub open spec fn is_architecture_of(a: TextArchitecture, f: ConfigFields) -> bool {
    let h = low_word(f.hidden_size->0);
    let heads = low_word(f.num_attention_heads->0);
    &&& a.hidden_size == h
    &&& a.intermediate_size == word_or(f.intermediate_size, (h * 4) as u32)
    &&& a.num_attention_heads == heads
    &&& a.num_key_value_heads == word_or(f.num_key_value_heads, heads)
    &&& a.head_dim == word_or(f.head_dim, h / heads)
    &&& a.num_hidden_layers == low_word(f.num_hidden_layers->0)
    &&& a.vocab_size == low_word(f.vocab_size->0)
    &&& a.sliding_window == word_or(f.sliding_window, 0)
    &&& a.max_position_embeddings == word_or(f.max_position_embeddings, 4096)
    &&& a.rms_norm_eps_bits == (match f.rms_norm_eps_bits {
        Some(b) => b,
        None => DEFAULT_EPS_BITS,
    })
    &&& a.tie_word_embeddings == (f.tie_word_embeddings != Some(false))
    &&& a.attention_k_eq_v == (f.attention_k_eq_v == Some(true))
    &&& a.hidden_size_per_layer_input == h
    &&& a.rope_theta_bits == (match f.rope_theta_bits {
        Some(b) => b,
        None => DEFAULT_THETA_BITS,
    })
    &&& a.rope_type@ == "default"@
    &&& a.model_type@ == (match f.model_type {
        Some(s) => s@,
        None => "unknown"@,
    })
}

fn missing(key: &str) -> (r: Result<TextArchitecture, String>)
    ensures
        r matches Err(e) && e@ == "missing config field: "@ + key@,
{
    Err(text::join2("missing config field: ", key))
}

/// The architecture that the members of a configuration settle, or a report of
/// the first that is missing.
pub fn architecture_from_fields(f: ConfigFields) -> (r: Result<TextArchitecture, String>)
    requires
        sizes_follow(f),
    ensures
        match r {
            Ok(a) => missing_field(f) is None && is_architecture_of(a, f),
            Err(e) => missing_field(f) is Some && e@ == "missing config field: "@
                + missing_field(f)->0,
        },
{
    let h: u32 = match f.hidden_size {
        Some(n) => word(n),
        None => return missing("hidden_size"),
    };
    let heads: u32 = match f.num_attention_heads {
        Some(n) => word(n),
        None => return missing("num_attention_heads"),
    };
    let num_hidden_layers: u32 = match f.num_hidden_layers {
        Some(n) => word(n),
        None => return missing("num_hidden_layers"),
    };
    let vocab_size: u32 = match f.vocab_size {
        Some(n) => word(n),
        None => return missing("vocab_size"),
    };
    let head_dim: u32 = match f.head_dim {
        Some(n) => word(n),
        None => h / heads,
    };
    let intermediate_size: u32 = match f.intermediate_size {
        Some(n) => word(n),
        None => h * 4,
    };
    Ok(
        TextArchitecture {
            hidden_size: h,
            intermediate_size,
            num_attention_heads: heads,
            num_key_value_heads: take_word(f.num_key_value_heads, heads),
            head_dim,
            num_hidden_layers,
            vocab_size,
            sliding_window: take_word(f.sliding_window, 0),
            max_position_embeddings: take_word(f.max_position_embeddings, 4096),
            rms_norm_eps_bits: match f.rms_norm_eps_bits {
                Some(b) => b,
                None => DEFAULT_EPS_BITS,
            },
            tie_word_embeddings: match f.tie_word_embeddings {
                Some(b) => b,
                None => true,
            },
            attention_k_eq_v: match f.attention_k_eq_v {
                Some(b) => b,
                None => false,
            },
            hidden_size_per_layer_input: h,
            rope_theta_bits: match f.rope_theta_bits {
                Some(b) => b,
                None => DEFAULT_THETA_BITS,
            },
            rope_type: "default".to_owned(),
            model_type: match f.model_type {
                Some(s) => s,
                None => "unknown".to_owned(),
            },
        },
    )
}

/// The architecture that the configuration in the text settles, or a report of
/// the first member that is missing; `None` where a size that is not given
/// cannot be worked out.
pub fn extract_architecture_from_config(config: &str) -> (r: Option<
    Result<TextArchitecture, String>,
>)
    ensures
        exists|f: ConfigFields| #[trigger]
            are_fields_of(f, config@) && match r {
                Some(Ok(a)) => sizes_follow(f) && missing_field(f) is None && is_architecture_of(
                    a,
                    f,
                ),
                Some(Err(e)) => sizes_follow(f) && missing_field(f) is Some && e@
                    == "missing config field: "@ + missing_field(f)->0,
                None => !sizes_follow(f),
            },
{
    let f: ConfigFields = read_config_fields(config);
    let ghost fields = f;
    assert(are_fields_of(fields, config@));
    if let (Some(h), Some(heads)) = (f.hidden_size, f.num_attention_heads) {
        if f.head_dim.is_none() && word(heads) == 0 {
            return None;
        }
        if f.intermediate_size.is_none() && word(h) > u32::MAX / 4 {
            return None;
        }
    }
    Some(architecture_from_fields(f))
}

/// The report of a configuration that settles no architecture: the file cannot
/// be read, it is not JSON, or a member is missing.
pub open spec fn config_report(
    read: Result<Seq<char>, Seq<char>>,
    architecture: Option<Seq<char>>,
) -> Option<Seq<char>> {
    match read {
        Err(e) => Some("read config.json: "@ + e),
        Ok(c) => match json::json_failure(c) {
            Some(e) => Some("parse config.json: "@ + e),
            None => match architecture {
                Some(e) => Some("extract architecture: "@ + e),
                None => None,
            },
        },
    }
}

/// The architecture that a configuration file settles, from what reading the
/// file gave; `None` where a size that is not given cannot be worked out.
pub fn architecture_of_file(read: &Result<String, String>) -> (r: Option<
    Result<TextArchitecture, String>,
>)
    ensures
        match *read {
            Err(e) => r matches Some(Err(m)) && Some(m@) == config_report(Err(e@), None),
            Ok(c) => if json::json_failure(c@) is Some {
                r matches Some(Err(m)) && Some(m@) == config_report(Ok(c@), None)
            } else {
                exists|f: ConfigFields| #[trigger]
                    are_fields_of(f, c@) && match r {
                        Some(Ok(a)) => sizes_follow(f) && missing_field(f) is None
                            && is_architecture_of(a, f),
                        Some(Err(m)) => sizes_follow(f) && missing_field(f) is Some && Some(m@)
                            == config_report(
                            Ok(c@),
                            Some("missing config field: "@ + missing_field(f)->0),
                        ),
                        None => !sizes_follow(f),
                    }
            },
        },
{
    match read {
        Err(e) => Some(Err(text::join2("read config.json: ", e.as_str()))),
        Ok(c) => {
            if let Some(e) = json::parse_failure(c.as_str()) {
                return Some(Err(text::join2("parse config.json: ", e.as_str())));
            }
            match extract_architecture_from_config(c.as_str()) {
                None => None,
                Some(Ok(a)) => Some(Ok(a)),
                Some(Err(e)) => {
                    let m: String = text::join2("extract architecture: ", e.as_str());
                    Some(Err(m))
                },
            }
        },
    }
}

/// The quantization scheme to compile with: what the compatibility check
/// settled, else what was asked for, else what the target recommends.
pub fn choose_quant(
    settled: Option<Option<CompileQuantMode>>,
    asked: Option<CompileQuantMode>,
    recommended: Option<CompileQuantMode>,
) -> (r: Option<CompileQuantMode>)
    ensures
        r == (match settled {
            Some(m) => m,
            None => match asked {
                Some(m) => Some(m),
                None => recommended,
            },
        }),
{
    match settled {
        Some(m) => m,
        None => match asked {
            Some(m) => Some(m),
            None => recommended,
        },
    }
}

/// How a quantization scheme is called in messages.
pub fn quantization_label(mode: Option<CompileQuantMode>) -> (r: &'static str)
    ensures
        r@ == (match mode {
            Some(CompileQuantMode::Nf4 { .. }) => "NF4"@,
            Some(CompileQuantMode::Af8 { .. }) => "8bit"@,
            Some(CompileQuantMode::Ternary { .. }) => "ternary"@,
            Some(CompileQuantMode::TernaryTile640 { .. }) => "ternary_tile640"@,
            None => "none"@,
        }),
{
    match mode {
        Some(CompileQuantMode::Nf4 { .. }) => "NF4",
        Some(CompileQuantMode::Af8 { .. }) => "8bit",
        Some(CompileQuantMode::Ternary { .. }) => "ternary",
        Some(CompileQuantMode::TernaryTile640 { .. }) => "ternary_tile640",
        None => "none",
    }
}

/// What a build says of itself.
#[derive(Debug)]
pub struct Attestation {
    pub event: String,
    pub profile: String,
    pub opt_level: String,
    pub lto: String,
    pub codegen_units: String,
    pub debug_assertions: bool,
    pub incremental: String,
    pub target: String,
    pub authorized: bool,
}

/// What a build says of itself. It is authorized where it was optimized fully,
/// without debug assertions, for the device that images are sealed on.
pub fn image_build_attestation(
    profile: &str,
    opt_level: &str,
    target: &str,
    debug_assertions: bool,
) -> (a: Attestation)
    ensures
        a.event@ == "compiler_profile"@,
        a.profile@ == profile@,
        a.opt_level@ == opt_level@,
        a.lto@ == "expected-fat-per-image-build-profile"@,
        a.codegen_units@ == "expected-1-per-image-build-profile"@,
        a.debug_assertions == debug_assertions,
        a.incremental@ == "expected-false-per-image-build-profile"@,
        a.target@ == target@,
        a.authorized == (opt_level@ == "3"@ && !debug_assertions && target@
            == "aarch64-apple-darwin"@),
{
    Attestation {
        event: "compiler_profile".to_owned(),
        profile: profile.to_owned(),
        opt_level: opt_level.to_owned(),
        lto: "expected-fat-per-image-build-profile".to_owned(),
        codegen_units: "expected-1-per-image-build-profile".to_owned(),
        debug_assertions,
        incremental: "expected-false-per-image-build-profile".to_owned(),
        target: target.to_owned(),
        authorized: text::same_text(opt_level, "3") && !debug_assertions && text::same_text(
            target,
            "aarch64-apple-darwin",
        ),
    }
}

// ---------------------------------------------------------------------------
// Laws
// ---------------------------------------------------------------------------

/// A test fixture may be compiled under any profile but that of image builds, with debug
/// assertions or without; a sealed image under any profile, but only without them.
pub proof fn law_profile_is_by_authority(
    authority: CompilationAuthority,
    profile: &str,
    debug_assertions: bool,
    r: Result<(), String>,
)
    requires
        call_ensures(check_profile, (authority, profile, debug_assertions), r),
    ensures
        authority == CompilationAuthority::TestFixture ==> r is Err == (profile@
            == "image-build"@),
        authority == CompilationAuthority::SealedComputeImage ==> r is Err == debug_assertions,
{
}

/// The bytes of the files of a fixture that count: weights, configuration and binaries.
proof fn lemma_counted_is_sum(files: Seq<FixtureFile>)
    ensures
        counted_size(files) == files.fold_left(
            0int,
            |n: int, f: FixtureFile|
                n + if f.size is Some && (f.extension@ == "safetensors"@ || f.extension@ == "json"@
                    || f.extension@ == "bin"@) {
                    f.size->0 as int
                } else {
                    0
                },
        ),
    decreases files.len(),
{
    if files.len() > 0 {
        lemma_counted_is_sum(files.drop_last());
    }
}

/// A fixture is refused exactly where its configuration does not parse, where it asks
/// for more than 4 layers or a vocabulary of more than 65536, or where its weights,
/// configuration and binaries take more than 128 MiB together.
pub proof fn law_fixture_is_small(
    config: &Option<String>,
    files: &Vec<FixtureFile>,
    r: Result<(), String>,
)
    requires
        call_ensures(verify_fixture_ceiling, (config, files), r),
    ensures
        ({
            let size = files@.fold_left(
                0int,
                |n: int, f: FixtureFile|
                    n + if f.size is Some && (f.extension@ == "safetensors"@ || f.extension@
                        == "json"@ || f.extension@ == "bin"@) {
                        f.size->0 as int
                    } else {
                        0
                    },
            );
            let bad = match *config {
                Some(c) => json::json_failure(c@) is Some || (json::json_number(
                    c@,
                    "num_hidden_layers"@,
                ) matches Some(n) && n > 4) || (json::json_number(c@, "vocab_size"@) matches Some(n)
                    && n > 65536),
                None => false,
            };
            r is Err == (bad || size > 128 * 1024 * 1024)
        }),
{
    lemma_counted_is_sum(files@);
}

/// What a configuration leaves open follows from what it gives: four times the width
/// inside the feed-forward layers, as many key and value heads as heads, the width
/// shared out among the heads, no sliding window, 4096 positions, tied embeddings.
/// Without a width, heads, layers or a vocabulary there is no architecture, and the
/// first of these that is missing is named.
pub proof fn law_architecture_follows_the_fields(
    f: ConfigFields,
    r: Result<TextArchitecture, String>,
)
    requires
        call_ensures(architecture_from_fields, (f,), r),
    ensures
        r is Ok == (f.hidden_size is Some && f.num_attention_heads is Some
            && f.num_hidden_layers is Some && f.vocab_size is Some),
        r matches Err(e) ==> e@ == "missing config field: "@ + (if f.hidden_size is None {
            "hidden_size"@
        } else if f.num_attention_heads is None {
            "num_attention_heads"@
        } else if f.num_hidden_layers is None {
            "num_hidden_layers"@
        } else {
            "vocab_size"@
        }),
        r matches Ok(a) ==> {
            let h = f.hidden_size->0 % 0x1_0000_0000;
            let heads = f.num_attention_heads->0 % 0x1_0000_0000;
            &&& a.hidden_size == h
            &&& a.num_attention_heads == heads
            &&& a.num_hidden_layers == f.num_hidden_layers->0 % 0x1_0000_0000
            &&& a.vocab_size == f.vocab_size->0 % 0x1_0000_0000
            &&& f.intermediate_size is None && 4 * h <= u32::MAX ==> a.intermediate_size == 4 * h
            &&& f.intermediate_size matches Some(n) ==> a.intermediate_size == n % 0x1_0000_0000
            &&& f.num_key_value_heads is None ==> a.num_key_value_heads == heads
            &&& f.num_key_value_heads matches Some(n) ==> a.num_key_value_heads == n
                % 0x1_0000_0000
            &&& f.head_dim is None && heads > 0 ==> a.head_dim == h / heads
            &&& f.head_dim matches Some(n) ==> a.head_dim == n % 0x1_0000_0000
            &&& f.sliding_window is None ==> a.sliding_window == 0
            &&& f.sliding_window matches Some(n) ==> a.sliding_window == n % 0x1_0000_0000
            &&& f.max_position_embeddings is None ==> a.max_position_embeddings == 4096
            &&& f.max_position_embeddings matches Some(n) ==> a.max_position_embeddings == n
                % 0x1_0000_0000
            &&& a.tie_word_embeddings == !(f.tie_word_embeddings == Some(false))
            &&& a.attention_k_eq_v == (f.attention_k_eq_v == Some(true))
            &&& a.hidden_size_per_layer_input == h
            &&& f.rms_norm_eps_bits matches Some(b) ==> a.rms_norm_eps_bits == b
            &&& f.rope_theta_bits matches Some(b) ==> a.rope_theta_bits == b
            &&& f.model_type matches Some(s) ==> a.model_type@ == s@
            &&& f.model_type is None ==> a.model_type@ == "unknown"@
        },
{
}

} // verus!
