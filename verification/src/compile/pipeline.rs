//! The pipeline: from a source that was read to an image that can be written.
//!
//! Reading and writing files, planning the execution and compiling for the
//! devices are left to the caller. What is settled there comes in as values.

use vstd::prelude::*;
use vstd::string::*;

use crate::config;
use crate::config::{
    ArchitectureView, CompileQuantMode, ExecutionSpec, ExecutionView, ModelManifest, NamespaceBinding,
    TextArchitecture,
};
use crate::digest;
use crate::image;
use crate::image::{DraftView, ImageBuilder, SegmentDraft};
use crate::manifest;
use crate::manifest::{
    AliasEntry, Fingerprint, LibraryRecord, Manifest, ManifestView, ResidencyPlan, Segment,
    ShardHash, SourceIdentity, SpeculationPlan, TensorDiff, TensorEntry,
};
use crate::order;
use crate::table;
use crate::table::NameTable;

use super::authority;
use super::authority::{CompilationAuthority, FixtureFile};
use super::differential;
use super::differential::CombinedImage;
use super::emission;
use super::emission::{Emission, EmissionStyle};
use super::emit;
use super::gguf_source;
use super::gguf_source::{GgufTensor, Verdict};
use super::kernel_artifacts;
use super::kernel_artifacts::{KernelRequest, MetalKernelArtifact};
use super::quantize;
use super::quantize::{ByteGroup, GroupCodes, Progress, WordGroup};
use super::recorded;
use super::receipt;
use super::receipt::{CompileReceipt, CompiledFacts, IgnoredTensorClassification, StageProfile};
use super::source;
use super::source::{ShardFile, SideFile, SourceTensor, SourceView};

verus! {

// ---------------------------------------------------------------------------
// Admission
// ---------------------------------------------------------------------------

/// Why a compilation is refused: the authority does not go with the build, or a
/// fixture is too large.
pub open spec fn refusal(
    authority: CompilationAuthority,
    profile: Seq<char>,
    debug_assertions: bool,
    config: Option<Seq<char>>,
    files: Seq<FixtureFile>,
) -> Option<Seq<char>> {
    match authority::profile_complaint(authority, profile, debug_assertions) {
        Some(e) => Some(e),
        None => match authority {
            CompilationAuthority::TestFixture => authority::fixture_complaint(config, files),
            CompilationAuthority::SealedComputeImage => None,
        },
    }
}

/// A text in contracts.
pub open spec fn text_of(t: Option<String>) -> Option<Seq<char>> {
    match t {
        Some(s) => Some(s@),
        None => None,
    }
}

/// Decides whether a source may be compiled.
pub fn admit_compile(
    authority: CompilationAuthority,
    profile: &str,
    debug_assertions: bool,
    config: &Option<String>,
    files: &Vec<FixtureFile>,
) -> (r: Result<(), String>)
    requires
        authority::counted_size(files@) <= u64::MAX,
    ensures
        ({
            let e = refusal(authority, profile@, debug_assertions, text_of(*config), files@);
            match r {
                Ok(_) => e is None,
                Err(m) => e == Some(m@),
            }
        }),
{
    match authority::check_profile(authority, profile, debug_assertions) {
        Ok(_) => {},
        Err(e) => return Err(e),
    }
    match authority {
        CompilationAuthority::TestFixture => authority::verify_fixture_ceiling(config, files),
        CompilationAuthority::SealedComputeImage => Ok(()),
    }
}

/// Why a compilation of a target with a draft model is refused: a fixture is too
/// large, or a production image is compiled by a build that is not optimized
/// for it.
pub open spec fn speculative_refusal(
    authority: CompilationAuthority,
    debug_assertions: bool,
    config: Option<Seq<char>>,
    files: Seq<FixtureFile>,
) -> Option<Seq<char>> {
    match authority {
        CompilationAuthority::TestFixture => authority::fixture_complaint(config, files),
        CompilationAuthority::SealedComputeImage => if debug_assertions {
            Some(authority::build_complaint())
        } else {
            None
        },
    }
}

/// Decides whether a target with a draft model may be compiled.
pub fn admit_speculative(
    authority: CompilationAuthority,
    debug_assertions: bool,
    config: &Option<String>,
    files: &Vec<FixtureFile>,
) -> (r: Result<(), String>)
    requires
        authority::counted_size(files@) <= u64::MAX,
    ensures
        ({
            let e = speculative_refusal(authority, debug_assertions, text_of(*config), files@);
            match r {
                Ok(_) => e is None,
                Err(m) => e == Some(m@),
            }
        }),
{
    match authority {
        CompilationAuthority::TestFixture => authority::verify_fixture_ceiling(config, files),
        CompilationAuthority::SealedComputeImage => authority::verify_image_build_profile(
            debug_assertions,
        ),
    }
}

// ---------------------------------------------------------------------------
// Sources
// ---------------------------------------------------------------------------

/// The files of a source.
#[derive(Debug)]
pub struct SourceFiles {
    pub shards: Vec<ShardFile>,
    pub tokenizer: Vec<SideFile>,
    pub auxiliary: Vec<SideFile>,
}

/// What the files of a source hold.
#[derive(Debug)]
pub struct GatheredSource {
    pub tensors: NameTable<SourceTensor>,
    pub shard_hashes: Vec<ShardHash>,
    pub tokenizer_hashes: Vec<ShardHash>,
    pub auxiliary_hashes: Vec<ShardHash>,
}

/// A source that is ready to be compiled.
#[derive(Debug)]
pub struct LoadedSource {
    pub arch: TextArchitecture,
    pub manifest: ModelManifest,
    pub namespace: NamespaceBinding,
    pub spec: ExecutionSpec,
    pub source_tensors: NameTable<SourceTensor>,
    pub shard_hashes: Vec<ShardHash>,
    pub tokenizer_hashes: Vec<ShardHash>,
    pub auxiliary_hashes: Vec<ShardHash>,
    pub verdict: Verdict,
    pub ignored: Vec<IgnoredTensorClassification>,
}

/// Whether the shards can be read together.
pub open spec fn are_sound(shards: Seq<ShardFile>) -> bool {
    source::sound_through(shards, shards.len() as int)
}

/// Gathers the tensors of the shards and the hashes of all files.
pub fn gather_source(files: &SourceFiles) -> (r: Result<GatheredSource, String>)
    ensures
        match r {
            Ok(g) => {
                &&& are_sound(files.shards@)
                &&& g.tensors.wf()
                &&& source::source_views(g.tensors@) == source::all_tensors(files.shards@)
                &&& source::in_shard_order(g.tensors.names@, files.shards@)
                &&& manifest::hash_views(g.shard_hashes@) == source::shard_digests(files.shards@)
                &&& manifest::hash_views(g.tokenizer_hashes@) == source::present_hashes(
                    files.tokenizer@,
                )
                &&& manifest::hash_views(g.auxiliary_hashes@) == source::present_hashes(
                    files.auxiliary@,
                )
            },
            Err(e) => source::is_scan_report(files.shards@, e@),
        },
{
    match source::scan_shards(&files.shards) {
        Ok(scan) => Ok(
            GatheredSource {
                tensors: scan.tensors,
                shard_hashes: scan.shard_hashes,
                tokenizer_hashes: source::hash_present_files(&files.tokenizer),
                auxiliary_hashes: source::hash_present_files(&files.auxiliary),
            },
        ),
        Err(e) => Err(e),
    }
}

/// Gathers the tensors of a single file that lists them in its header.
pub fn gather_gguf(
    tensors: &Vec<GgufTensor>,
    filename: &str,
    content: &[u8],
    tokenizer: &Vec<SideFile>,
) -> (r: (GatheredSource, Vec<String>))
    ensures
        r.0.tensors.wf(),
        source::source_views(r.0.tensors@) == gguf_source::gguf_tensors(
            tensors@,
            filename@,
            digest::sha256_hex(content@),
        ),
        manifest::hash_views(r.0.shard_hashes@) == seq![
            (filename@, digest::sha256_hex(content@)),
        ],
        manifest::hash_views(r.0.tokenizer_hashes@) == source::present_hashes(tokenizer@),
        manifest::hash_views(r.0.auxiliary_hashes@) == Seq::<(Seq<char>, Seq<char>)>::empty(),
        table::lists_in_order(order::views(r.1@), r.0.tensors@.dom()),
{
    let sha256: String = digest::sha256_bytes(content);
    let (gathered, names) = gguf_source::gather_gguf_tensors(tensors, filename, sha256.as_str());
    let mut shard_hashes: Vec<ShardHash> = Vec::new();
    let hash: ShardHash = ShardHash { filename: filename.to_owned(), sha256 };
    let ghost view = hash@;
    shard_hashes.push(hash);
    let auxiliary_hashes: Vec<ShardHash> = Vec::new();
    assert(manifest::hash_views(shard_hashes@) =~= seq![view]);
    assert(manifest::hash_views(auxiliary_hashes@) =~= Seq::<(Seq<char>, Seq<char>)>::empty());
    (
        GatheredSource {
            tensors: gathered,
            shard_hashes,
            tokenizer_hashes: source::hash_present_files(tokenizer),
            auxiliary_hashes,
        },
        names,
    )
}

/// What became of the choice of an adapter for the model.
#[derive(Debug)]
pub enum AdapterOutcome {
    Accepted,
    /// No adapter is for the model.
    Unmatched(String),
    /// The adapter turned the model away.
    Rejected(String),
}

/// What was settled of a source once its tensors were known.
#[derive(Debug)]
pub struct Settlement {
    pub arch: TextArchitecture,
    pub manifest: ModelManifest,
    pub namespace: Option<NamespaceBinding>,
    pub spec: ExecutionSpec,
    pub verdict: Verdict,
    pub ignored: Vec<IgnoredTensorClassification>,
    pub adapter: AdapterOutcome,
}

/// Why a source is turned away.
pub open spec fn source_complaint(s: Settlement, skip_validation: bool) -> Option<Seq<char>> {
    if s.namespace is None {
        Some("namespace not resolved"@)
    } else if skip_validation {
        None
    } else if !s.verdict.executable {
        Some(gguf_source::verdict_report("source checkpoint failed validation: "@, s.verdict))
    } else {
        match s.adapter {
            AdapterOutcome::Accepted => None,
            AdapterOutcome::Unmatched(d) => Some(
                gguf_source::adapter_report(s.arch.model_type@, d@),
            ),
            AdapterOutcome::Rejected(d) => Some(
                gguf_source::normalisation_report(s.arch.model_type@, d@),
            ),
        }
    }
}

/// Why a single file is turned away. Its adapter has no say.
pub open spec fn gguf_complaint(s: Settlement, skip_validation: bool) -> Option<Seq<char>> {
    if s.namespace is None {
        Some("GGUF: could not resolve namespace"@)
    } else if !skip_validation && !s.verdict.executable {
        Some(gguf_source::verdict_report("GGUF source failed validation: "@, s.verdict))
    } else {
        None
    }
}

/// The source is made of what was gathered and settled.
pub open spec fn is_loaded(l: LoadedSource, g: GatheredSource, s: Settlement) -> bool {
    &&& l.arch == s.arch
    &&& l.manifest == s.manifest
    &&& Some(l.namespace) == s.namespace
    &&& l.spec == s.spec
    &&& l.source_tensors == g.tensors
    &&& l.shard_hashes == g.shard_hashes
    &&& l.tokenizer_hashes == g.tokenizer_hashes
    &&& l.auxiliary_hashes == g.auxiliary_hashes
    &&& l.verdict == s.verdict
    &&& l.ignored == s.ignored
}

fn assemble(g: GatheredSource, s: Settlement, namespace: NamespaceBinding) -> (l: LoadedSource)
    requires
        s.namespace == Some(namespace),
    ensures
        is_loaded(l, g, s),
{
    LoadedSource {
        arch: s.arch,
        manifest: s.manifest,
        namespace,
        spec: s.spec,
        source_tensors: g.tensors,
        shard_hashes: g.shard_hashes,
        tokenizer_hashes: g.tokenizer_hashes,
        auxiliary_hashes: g.auxiliary_hashes,
        verdict: s.verdict,
        ignored: s.ignored,
    }
}

fn copy_namespace(n: &NamespaceBinding) -> (r: NamespaceBinding)
    ensures
        r == *n,
{
    NamespaceBinding { root: n.root.clone(), lm_head_aliased: n.lm_head_aliased }
}

/// Makes a source out of what was gathered from its shards and what was settled
/// about it.
pub fn load_source(g: GatheredSource, s: Settlement, skip_validation: bool) -> (r: Result<
    LoadedSource,
    String,
>)
    ensures
        match r {
            Ok(l) => source_complaint(s, skip_validation) is None && is_loaded(l, g, s),
            Err(e) => source_complaint(s, skip_validation) == Some(e@),
        },
{
    let namespace: NamespaceBinding = match &s.namespace {
        Some(n) => copy_namespace(n),
        None => return Err("namespace not resolved".to_owned()),
    };
    match gguf_source::check_checkpoint(skip_validation, &s.verdict) {
        Ok(_) => {},
        Err(e) => return Err(e),
    }
    if !skip_validation {
        match &s.adapter {
            AdapterOutcome::Accepted => {},
            AdapterOutcome::Unmatched(d) => return Err(
                gguf_source::report_adapter(s.arch.model_type.as_str(), d.as_str()),
            ),
            AdapterOutcome::Rejected(d) => return Err(
                gguf_source::report_normalisation(s.arch.model_type.as_str(), d.as_str()),
            ),
        }
    }
    Ok(assemble(g, s, namespace))
}

/// Makes a source out of what was gathered from a single file and what was
/// settled about it.
pub fn load_gguf_source(g: GatheredSource, s: Settlement, skip_validation: bool) -> (r: Result<
    LoadedSource,
    String,
>)
    ensures
        match r {
            Ok(l) => gguf_complaint(s, skip_validation) is None && is_loaded(l, g, s),
            Err(e) => gguf_complaint(s, skip_validation) == Some(e@),
        },
{
    let namespace: NamespaceBinding = match &s.namespace {
        Some(n) => copy_namespace(n),
        None => return Err("GGUF: could not resolve namespace".to_owned()),
    };
    match gguf_source::check_gguf(skip_validation, &s.verdict) {
        Ok(_) => {},
        Err(e) => return Err(e),
    }
    Ok(assemble(g, s, namespace))
}

/// The identity of a source in an image.
pub open spec fn is_identity_of(i: SourceIdentity, l: LoadedSource) -> bool {
    &&& i.config_hash@ == l.manifest.config_hash@
    &&& manifest::hash_views(i.shard_hashes@) == manifest::hash_views(l.shard_hashes@)
    &&& manifest::hash_views(i.tokenizer_hashes@) == manifest::hash_views(l.tokenizer_hashes@)
    &&& manifest::hash_views(i.auxiliary_hashes@) == manifest::hash_views(l.auxiliary_hashes@)
    &&& i.model_type@ == l.manifest.model_type@
    &&& i.quantization_bits == (match l.manifest.quantization_bits {
        Some(b) => b,
        None => 8,
    })
    &&& i.quantization_group_size == (match l.manifest.quantization_group_size {
        Some(g) => g,
        None => 64,
    })
    &&& i.quantization_mode@ == (match l.manifest.quantization_mode {
        Some(m) => m@,
        None => "affine"@,
    })
}

fn identify(l: &LoadedSource) -> (i: SourceIdentity)
    ensures
        is_identity_of(i, *l),
{
    emit::build_source_identity(
        &l.manifest,
        manifest::copy_hashes(&l.shard_hashes),
        manifest::copy_hashes(&l.tokenizer_hashes),
        manifest::copy_hashes(&l.auxiliary_hashes),
    )
}

// ---------------------------------------------------------------------------
// Records of images
// ---------------------------------------------------------------------------

/// What was compiled with, and for what.
#[derive(Debug)]
pub struct ImageLabels {
    pub image_version: String,
    pub compiler_version: String,
    pub runtime_abi: String,
}

/// The record of an image before it has a hash.
pub open spec fn unsealed(
    labels: ImageLabels,
    source: manifest::IdentityView,
    architecture: ArchitectureView,
    segments: Seq<manifest::SegmentView>,
    tensor_table: Seq<manifest::EntryView>,
    alias_table: Seq<manifest::AliasView>,
) -> ManifestView {
    ManifestView {
        image_version: labels.image_version@,
        compiler_version: labels.compiler_version@,
        runtime_abi: labels.runtime_abi@,
        source,
        architecture,
        segments,
        tensor_table,
        alias_table,
        residency_plan: ResidencyPlan { total_bytes: receipt::total_size(segments) as u64 },
        metallib: None,
        metal_kernel_artifacts: Seq::empty(),
        speculation: None,
        hardware_target: None,
        image_hash: Seq::empty(),
    }
}

fn record_of(
    labels: &ImageLabels,
    source: SourceIdentity,
    architecture: &TextArchitecture,
    segments: Vec<Segment>,
    tensor_table: Vec<TensorEntry>,
    alias_table: Vec<AliasEntry>,
) -> (m: Manifest)
    requires
        receipt::total_size(manifest::segment_views(segments@)) <= u64::MAX,
    ensures
        m@ == unsealed(
            *labels,
            source@,
            architecture@,
            manifest::segment_views(segments@),
            manifest::entry_views(tensor_table@),
            manifest::alias_views(alias_table@),
        ),
        m.source == source,
{
    let total_bytes: u64 = receipt::emitted_bytes(&segments);
    Manifest {
        image_version: labels.image_version.clone(),
        compiler_version: labels.compiler_version.clone(),
        runtime_abi: labels.runtime_abi.clone(),
        source,
        architecture: architecture.copy(),
        segments,
        tensor_table,
        alias_table,
        residency_plan: ResidencyPlan { total_bytes },
        metallib: None,
        metal_kernel_artifacts: Vec::new(),
        speculation: None,
        hardware_target: None,
        image_hash: String::new(),
    }
}

/// The record of an image that stands alone, with its hash: its segments lie in
/// files that are numbered from zero on.
pub fn finish_manifest<F: Fn(Fingerprint) -> Vec<u8>>(
    labels: &ImageLabels,
    source: SourceIdentity,
    architecture: &TextArchitecture,
    builder: ImageBuilder,
    metallib: Option<LibraryRecord>,
    metal_kernel_artifacts: Vec<MetalKernelArtifact>,
    speculation: Option<SpeculationPlan>,
    serialize: F,
) -> (r: Manifest)
    requires
        receipt::total_size(differential::all_finished(builder@.segments, 0)) <= u64::MAX,
        forall|f: Fingerprint| #[trigger] call_requires(serialize, (f,)),
    ensures
        r@ == (ManifestView {
            metallib: match metallib {
                Some(l) => Some((l.sha256@, l.byte_size)),
                None => None,
            },
            metal_kernel_artifacts: metal_kernel_artifacts@,
            speculation,
            image_hash: r.image_hash@,
            ..unsealed(
                *labels,
                source@,
                architecture@,
                differential::all_finished(builder@.segments, 0),
                builder@.tensors,
                builder@.aliases,
            )
        }),
        emit::is_manifest_hash(r.image_hash@, r@, serialize),
{
    let segments: Vec<Segment> = differential::finish_segments(&builder.segments, 0);
    let mut m: Manifest = record_of(
        labels,
        source,
        architecture,
        segments,
        builder.tensors,
        builder.aliases,
    );
    m.metallib = metallib;
    m.metal_kernel_artifacts = metal_kernel_artifacts;
    m.speculation = speculation;
    emit::seal_manifest(m, serialize)
}

// ---------------------------------------------------------------------------
// Images of a single model
// ---------------------------------------------------------------------------

/// A source with all its tensors read, and quantized where that is asked for; the
/// groups of codes of its weights are those.
pub open spec fn prepared(
    store: Map<Seq<char>, SourceView>,
    spec: ExecutionView,
    files: Seq<Seq<u8>>,
    mode: Option<CompileQuantMode>,
    codes: Seq<GroupCodes>,
) -> Progress {
    let read = source::all_read(store, files);
    match mode {
        None => Progress { store: read, spec, report: None },
        Some(m) => quantize::weights_quantized(
            quantize::before_quantizing(read, spec, files),
            quantize::weights_of(spec),
            m,
            codes,
        ),
    }
}

/// Whether the groups of codes are what the codes of the schemes can give for the
/// weights of a source.
pub open spec fn can_be_codes<N: Fn(Vec<u32>) -> WordGroup, B: Fn(Vec<u32>) -> ByteGroup>(
    store: Map<Seq<char>, SourceView>,
    spec: ExecutionView,
    files: Seq<Seq<u8>>,
    mode: Option<CompileQuantMode>,
    codes: Seq<GroupCodes>,
    nf4: N,
    af8: B,
) -> bool {
    mode matches Some(m) ==> quantize::is_coding(
        quantize::before_quantizing(source::all_read(store, files), spec, files),
        quantize::weights_of(spec),
        m,
        codes,
        nf4,
        af8,
    )
}

/// An image without content.
pub open spec fn nothing_emitted(first_id: u32) -> Emission {
    Emission { image: image::blank(first_id), ids: Map::empty(), report: None }
}

/// The image of a model: its tensors, and those of its encoders where it has
/// them.
pub open spec fn model_image(
    store: Map<Seq<char>, SourceView>,
    spec: ExecutionView,
    namespace: NamespaceBinding,
    has_vision: bool,
    has_audio: bool,
) -> Emission {
    let e = emission::model_emitted(
        nothing_emitted(0),
        store,
        spec,
        namespace,
        EmissionStyle::Alone,
        None,
    );
    if e.report is Some {
        e
    } else {
        let v = if has_vision {
            emit::vision_compiled(e.image, e.ids, store)
        } else {
            (e.image, e.ids)
        };
        let a = if has_audio {
            emit::audio_compiled(v.0, v.1, store)
        } else {
            v
        };
        Emission { image: a.0, ids: a.1, report: None }
    }
}

/// The bytes of drafts of segments.
pub open spec fn draft_bytes(drafts: Seq<DraftView>) -> nat
    decreases drafts.len(),
{
    if drafts.len() == 0 {
        0
    } else {
        draft_bytes(drafts.drop_last()) + drafts.last().payload.len()
    }
}

proof fn lemma_draft_bytes_grow(drafts: Seq<DraftView>, k: int)
    requires
        0 <= k <= drafts.len(),
    ensures
        draft_bytes(drafts.take(k)) <= draft_bytes(drafts),
    decreases drafts.len(),
{
    if k < drafts.len() {
        lemma_draft_bytes_grow(drafts.drop_last(), k);
        assert(drafts.drop_last().take(k) =~= drafts.take(k));
    } else {
        assert(drafts.take(k) =~= drafts);
    }
}

/// The bytes of drafts of segments.
pub fn count_draft_bytes(drafts: &Vec<SegmentDraft>) -> (r: u64)
    requires
        draft_bytes(image::draft_views(drafts@)) <= u64::MAX,
    ensures
        r == draft_bytes(image::draft_views(drafts@)),
{
    let ghost all = image::draft_views(drafts@);
    let mut r: u64 = 0;
    let mut i: usize = 0;
    assert(all.len() == drafts@.len());
    while i < drafts.len()
        invariant
            i <= drafts@.len(),
            all == image::draft_views(drafts@),
            all.len() == drafts@.len(),
            draft_bytes(all) <= u64::MAX,
            r == draft_bytes(all.take(i as int)),
        decreases drafts@.len() - i,
    {
        proof {
            assert(all.take(i + 1).drop_last() =~= all.take(i as int));
            assert(all.take(i + 1).last() == drafts@[i as int]@);
            lemma_draft_bytes_grow(all, i + 1);
        }
        r = r + drafts[i].payload.len() as u64;
        i = i + 1;
    }
    assert(all.take(all.len() as int) =~= all);
    r
}

/// The image of a source that was prepared stays in range, and every shape that a
/// kernel is chosen by is there.
pub open spec fn is_emittable(
    p: Progress,
    namespace: NamespaceBinding,
    has_vision: bool,
    has_audio: bool,
) -> bool {
    let e = model_image(p.store, p.spec, namespace, has_vision, has_audio);
    p.report is None ==> {
        &&& 3 * emission::binding_count(p.spec) + 2 * p.store.dom().len() <= u32::MAX
        &&& e.report is None ==> draft_bytes(e.image.segments) <= u64::MAX
            && kernel_artifacts::all_shaped(p.spec.layers)
    }
}

/// Every step of the compilation stays in range, whatever groups of codes the
/// schemes give.
pub open spec fn is_compilable<N: Fn(Vec<u32>) -> WordGroup, B: Fn(Vec<u32>) -> ByteGroup>(
    store: Map<Seq<char>, SourceView>,
    spec: ExecutionView,
    namespace: NamespaceBinding,
    has_vision: bool,
    has_audio: bool,
    files: Seq<Seq<u8>>,
    mode: Option<CompileQuantMode>,
    nf4: N,
    af8: B,
) -> bool {
    let read = source::all_read(store, files);
    &&& files.len() > 0 ==> quantize::all_readable(store)
    &&& mode matches Some(m) ==> forall|n: Seq<char>| #[trigger]
        store.dom().contains(n) && quantize::weights_of(spec).contains(n) ==> quantize::suits_mode(
            quantize::weights_read(read, quantize::weights_of(spec), files)[n],
            m,
        )
    &&& forall|v: Vec<u32>| #[trigger] call_requires(nf4, (v,))
    &&& forall|v: Vec<u32>| #[trigger] call_requires(af8, (v,))
    &&& forall|codes: Seq<GroupCodes>| #[trigger]
        can_be_codes(store, spec, files, mode, codes, nf4, af8) ==> is_emittable(
            prepared(store, spec, files, mode, codes),
            namespace,
            has_vision,
            has_audio,
        )
}

/// The image of a single model, and what else was worked out with it.
#[derive(Debug)]
pub struct SequentialImage {
    pub identity: SourceIdentity,
    pub builder: ImageBuilder,
    /// The numbers of the tensors.
    pub ids: NameTable<u32>,
    pub emitted_bytes: u64,
    /// The kernels that the quantized projections need, and their keys in order.
    pub requests: NameTable<KernelRequest>,
    pub kernel_keys: Vec<String>,
}

/// What comes of a source that was prepared, and what it is afterwards.
pub open spec fn is_emitted(
    before: LoadedSource,
    after: LoadedSource,
    p: Progress,
    r: Result<SequentialImage, String>,
) -> bool {
    let e = model_image(
        p.store,
        p.spec,
        before.namespace,
        before.manifest.has_vision,
        before.manifest.has_audio,
    );
    &&& after.source_tensors.wf()
    &&& source::source_views(after.source_tensors@) == p.store
    &&& after.spec@ == p.spec
    &&& after.namespace == before.namespace
    &&& after.manifest == before.manifest
    &&& match r {
        Ok(i) => {
            &&& p.report is None
            &&& e.report is None
            &&& is_identity_of(i.identity, before)
            &&& i.builder@ == e.image
            &&& i.ids.wf()
            &&& i.ids@ == e.ids
            &&& i.emitted_bytes == draft_bytes(e.image.segments)
            &&& i.requests.wf()
            &&& i.requests@ == kernel_artifacts::requests_of(p.spec.layers)
            &&& table::lists_in_order(order::views(i.kernel_keys@), i.requests@.dom())
        },
        Err(m) => p.report == Some(m@) || p.report is None && e.report == Some(m@),
    }
}

/// What becomes of a source in compilation, and what comes of it: it is prepared
/// with groups of codes that the schemes give, and emitted.
pub open spec fn is_compiled<N: Fn(Vec<u32>) -> WordGroup, B: Fn(Vec<u32>) -> ByteGroup>(
    before: LoadedSource,
    after: LoadedSource,
    files: Seq<Seq<u8>>,
    mode: Option<CompileQuantMode>,
    nf4: N,
    af8: B,
    r: Result<SequentialImage, String>,
) -> bool {
    let store = source::source_views(before.source_tensors@);
    exists|codes: Seq<GroupCodes>|
        #![trigger can_be_codes(store, before.spec@, files, mode, codes, nf4, af8)]
        can_be_codes(store, before.spec@, files, mode, codes, nf4, af8) && is_emitted(
            before,
            after,
            prepared(store, before.spec@, files, mode, codes),
            r,
        )
}

proof fn lemma_read_stays_readable(t: SourceView, files: Seq<Seq<u8>>)
    requires
        source::is_readable(t),
    ensures
        source::is_readable(source::read_from_first(t, files)),
    decreases files.len(),
{
    if files.len() > 0 {
        lemma_read_stays_readable(t, files.drop_last());
    }
}

/// Compiles a source into the image of a single model: reads what was not read
/// yet, quantizes where that is asked for, and emits the tensors. `nf4` and `af8`
/// give the groups of codes of the affine schemes.
pub fn compile_sequential<N: Fn(Vec<u32>) -> WordGroup, B: Fn(Vec<u32>) -> ByteGroup>(
    loaded: &mut LoadedSource,
    maps: &Vec<&[u8]>,
    mode: Option<CompileQuantMode>,
    nf4: &N,
    af8: &B,
) -> (r: Result<SequentialImage, String>)
    requires
        old(loaded).source_tensors.wf(),
        is_compilable(
            source::source_views(old(loaded).source_tensors@),
            old(loaded).spec@,
            old(loaded).namespace,
            old(loaded).manifest.has_vision,
            old(loaded).manifest.has_audio,
            source::contents(maps@),
            mode,
            *nf4,
            *af8,
        ),
    ensures
        is_compiled(*old(loaded), *final(loaded), source::contents(maps@), mode, *nf4, *af8, r),
{
    let ghost store0 = source::source_views(loaded.source_tensors@);
    let ghost spec0 = loaded.spec@;
    let ghost files = source::contents(maps@);
    let ghost mut codes: Seq<GroupCodes> = Seq::empty();
    proof {
        assert(files.len() == maps@.len());
        if maps@.len() > 0 {
            assert forall|n: Seq<char>| #[trigger]
                loaded.source_tensors@.dom().contains(n) implies source::is_readable(
                loaded.source_tensors@[n]@,
            ) by {
                assert(store0.dom().contains(n));
                assert(store0[n] == loaded.source_tensors@[n]@);
            }
        }
    }
    source::load_all(&mut loaded.source_tensors, maps);
    let ghost read = source::all_read(store0, files);
    if let Some(m) = mode {
        proof {
            if files.len() > 0 {
                assert forall|n: Seq<char>| #[trigger]
                    read.dom().contains(n) implies source::is_readable(read[n]) by {
                    assert(store0.dom().contains(n));
                    lemma_read_stays_readable(store0[n], files);
                }
            }
            assert forall|n: Seq<char>| #[trigger]
                loaded.source_tensors@.dom().contains(n) && quantize::weights_of(
                    loaded.spec@,
                ).contains(n) implies quantize::suits_mode(
                quantize::weights_read(read, quantize::weights_of(loaded.spec@), files)[n],
                m,
            ) by {
                assert(source::source_views(loaded.source_tensors@).dom().contains(n));
                assert(store0.dom().contains(n));
            }
        }
        let done: Result<(), String> = quantize::apply_quantize_to_loaded(
            &mut loaded.source_tensors,
            &mut loaded.spec,
            maps,
            m,
            nf4,
            af8,
        );
        proof {
            let start = quantize::before_quantizing(read, spec0, files);
            let names = quantize::weights_of(spec0);
            codes = choose|codes: Seq<GroupCodes>|
                #![trigger quantize::is_coding(start, names, m, codes, *nf4, *af8)]
                quantize::is_coding(start, names, m, codes, *nf4, *af8) && quantize::is_quantized(
                    quantize::weights_quantized(start, names, m, codes),
                    source::source_views(loaded.source_tensors@),
                    loaded.spec@,
                    done,
                );
            assert(can_be_codes(store0, spec0, files, mode, codes, *nf4, *af8));
        }
        if let Err(e) = done {
            return Err(e);
        }
    }
    proof {
        assert(can_be_codes(store0, spec0, files, mode, codes, *nf4, *af8));
        assert(loaded.spec@ == prepared(store0, spec0, files, mode, codes).spec);
    }
    let ghost store = source::source_views(loaded.source_tensors@);
    let identity: SourceIdentity = identify(loaded);
    let mut builder: ImageBuilder = ImageBuilder::starting_at(0);
    let mut ids: NameTable<u32> = NameTable::new();
    proof {
        emission::lemma_model_room(
            nothing_emitted(0),
            store,
            loaded.spec@,
            loaded.namespace,
            EmissionStyle::Alone,
            None,
        );
        loaded.source_tensors.lemma_len();
        assert(store.dom() =~= loaded.source_tensors@.dom());
    }
    match emission::emit_model(
        &mut builder,
        &mut ids,
        &loaded.source_tensors,
        &loaded.spec,
        &loaded.namespace,
        EmissionStyle::Alone,
        None,
    ) {
        Ok(_) => {},
        Err(e) => return Err(e),
    }
    if loaded.manifest.has_vision {
        emit::compile_vision_encoder_tensors(&mut builder, &loaded.source_tensors, &mut ids);
    }
    if loaded.manifest.has_audio {
        emit::compile_audio_encoder_tensors(&mut builder, &loaded.source_tensors, &mut ids);
    }
    let emitted_bytes: u64 = count_draft_bytes(&builder.segments);
    let requests: NameTable<KernelRequest> = kernel_artifacts::kernel_requests(&loaded.spec.layers);
    let kernel_keys: Vec<String> = kernel_artifacts::sorted_kernel_keys(&requests);
    Ok(SequentialImage { identity, builder, ids, emitted_bytes, requests, kernel_keys })
}

/// What was gathered and settled can be compiled, where it makes a source.
pub open spec fn can_compile<N: Fn(Vec<u32>) -> WordGroup, B: Fn(Vec<u32>) -> ByteGroup>(
    g: GatheredSource,
    s: Settlement,
    files: Seq<Seq<u8>>,
    mode: Option<CompileQuantMode>,
    nf4: N,
    af8: B,
) -> bool {
    &&& g.tensors.wf()
    &&& s.namespace matches Some(n) ==> is_compilable(
        source::source_views(g.tensors@),
        s.spec@,
        n,
        s.manifest.has_vision,
        s.manifest.has_audio,
        files,
        mode,
        nf4,
        af8,
    )
}

/// What comes of a source that is not turned away.
pub open spec fn is_compiled_from<N: Fn(Vec<u32>) -> WordGroup, B: Fn(Vec<u32>) -> ByteGroup>(
    g: GatheredSource,
    s: Settlement,
    files: Seq<Seq<u8>>,
    mode: Option<CompileQuantMode>,
    nf4: N,
    af8: B,
    r: Result<(LoadedSource, SequentialImage), String>,
) -> bool {
    exists|before: LoadedSource, after: LoadedSource, o: Result<SequentialImage, String>|
        is_loaded(before, g, s) && #[trigger] is_compiled(before, after, files, mode, nf4, af8, o)
            && (
        match r {
            Ok((l, i)) => l == after && o == Ok::<SequentialImage, String>(i),
            Err(m) => o == Err::<SequentialImage, String>(m),
        })
}

/// Compiles a source that was gathered from its shards.
pub fn compile_unchecked<N: Fn(Vec<u32>) -> WordGroup, B: Fn(Vec<u32>) -> ByteGroup>(
    g: GatheredSource,
    s: Settlement,
    skip_validation: bool,
    maps: &Vec<&[u8]>,
    mode: Option<CompileQuantMode>,
    nf4: &N,
    af8: &B,
) -> (r: Result<(LoadedSource, SequentialImage), String>)
    requires
        can_compile(g, s, source::contents(maps@), mode, *nf4, *af8),
    ensures
        match source_complaint(s, skip_validation) {
            Some(c) => r matches Err(m) && m@ == c,
            None => is_compiled_from(g, s, source::contents(maps@), mode, *nf4, *af8, r),
        },
{
    let mut loaded: LoadedSource = match load_source(g, s, skip_validation) {
        Ok(l) => l,
        Err(e) => return Err(e),
    };
    let ghost before = loaded;
    let o: Result<SequentialImage, String> = compile_sequential(&mut loaded, maps, mode, nf4, af8);
    assert(is_compiled(before, loaded, source::contents(maps@), mode, *nf4, *af8, o));
    match o {
        Ok(i) => Ok((loaded, i)),
        Err(e) => Err(e),
    }
}

/// Compiles a source that was gathered from a single file. Its verdict has no
/// say.
pub fn compile_gguf_unchecked<N: Fn(Vec<u32>) -> WordGroup, B: Fn(Vec<u32>) -> ByteGroup>(
    g: GatheredSource,
    s: Settlement,
    maps: &Vec<&[u8]>,
    mode: Option<CompileQuantMode>,
    nf4: &N,
    af8: &B,
) -> (r: Result<(LoadedSource, SequentialImage), String>)
    requires
        can_compile(g, s, source::contents(maps@), mode, *nf4, *af8),
    ensures
        match gguf_complaint(s, true) {
            Some(c) => r matches Err(m) && m@ == c,
            None => is_compiled_from(g, s, source::contents(maps@), mode, *nf4, *af8, r),
        },
{
    let mut loaded: LoadedSource = match load_gguf_source(g, s, true) {
        Ok(l) => l,
        Err(e) => return Err(e),
    };
    let ghost before = loaded;
    let o: Result<SequentialImage, String> = compile_sequential(&mut loaded, maps, mode, nf4, af8);
    assert(is_compiled(before, loaded, source::contents(maps@), mode, *nf4, *af8, o));
    match o {
        Ok(i) => Ok((loaded, i)),
        Err(e) => Err(e),
    }
}

/// The artifacts of the kernels, in the order of their keys, each with the
/// library that was found for it.
pub fn build_kernel_artifacts(image: &SequentialImage, libraries: &Vec<Vec<u8>>) -> (r: Vec<
    MetalKernelArtifact,
>)
    requires
        image.requests.wf(),
        libraries@.len() == image.kernel_keys@.len(),
        forall|i: int|
            0 <= i < image.kernel_keys@.len() ==> image.requests@.dom().contains(
                (#[trigger] image.kernel_keys@[i])@,
            ),
        forall|key: Seq<char>| #[trigger]
            image.requests@.dom().contains(key) ==> image.requests@[key].k <= u32::MAX
                && image.requests@[key].n <= u32::MAX,
    ensures
        r@.len() == image.kernel_keys@.len(),
        forall|i: int|
            0 <= i < r@.len() ==> kernel_artifacts::is_artifact_for(
                #[trigger] r@[i],
                image.kernel_keys@[i]@,
                image.requests@[image.kernel_keys@[i]@],
                libraries@[i]@,
            ),
{
    let mut r: Vec<MetalKernelArtifact> = Vec::new();
    let mut i: usize = 0;
    while i < image.kernel_keys.len()
        invariant
            i <= image.kernel_keys@.len(),
            image.requests.wf(),
            libraries@.len() == image.kernel_keys@.len(),
            forall|j: int|
                0 <= j < image.kernel_keys@.len() ==> image.requests@.dom().contains(
                    (#[trigger] image.kernel_keys@[j])@,
                ),
            forall|key: Seq<char>| #[trigger]
                image.requests@.dom().contains(key) ==> image.requests@[key].k <= u32::MAX
                    && image.requests@[key].n <= u32::MAX,
            r@.len() == i,
            forall|j: int|
                0 <= j < i ==> kernel_artifacts::is_artifact_for(
                    #[trigger] r@[j],
                    image.kernel_keys@[j]@,
                    image.requests@[image.kernel_keys@[j]@],
                    libraries@[j]@,
                ),
        decreases image.kernel_keys@.len() - i,
    {
        let key: &str = image.kernel_keys[i].as_str();
        if let Some(request) = image.requests.get(key) {
            r.push(
                kernel_artifacts::kernel_artifact(key, *request, libraries[i].as_slice()),
            );
        }
        i = i + 1;
    }
    r
}

// ---------------------------------------------------------------------------
// Images of a target with its draft model
// ---------------------------------------------------------------------------

/// The image of a target with its draft model: the target, then the layers of
/// the draft, then, where the two can share it, the names that the embedding has
/// in the draft.
pub open spec fn speculative_image(
    target_store: Map<Seq<char>, SourceView>,
    target_spec: ExecutionView,
    target: NamespaceBinding,
    draft_store: Map<Seq<char>, SourceView>,
    draft_spec: ExecutionView,
    draft: NamespaceBinding,
    shared: bool,
) -> Emission {
    let t = emission::model_emitted(
        nothing_emitted(0),
        target_store,
        target_spec,
        target,
        EmissionStyle::Target,
        None,
    );
    let d = if t.report is Some {
        t
    } else {
        emission::layers_emitted(t, draft_store, draft_spec.layers, "draft_layer_"@, None)
    };
    if d.report is Some || !shared {
        d
    } else {
        let s = emission::embeddings_shared(
            d,
            target_spec.global_tensors,
            target.root@,
            draft.root@,
        );
        if target.lm_head_aliased {
            emission::head_shared(s, draft.root@)
        } else {
            s
        }
    }
}

/// Whether the models can share the embedding: their vocabularies and their
/// widths are the same.
pub open spec fn can_share(target: TextArchitecture, draft: TextArchitecture) -> bool {
    target.vocab_size == draft.vocab_size && target.hidden_size == draft.hidden_size
}

/// The image of a target with its draft model.
#[derive(Debug)]
pub struct SpeculativeImage {
    pub identity: SourceIdentity,
    pub builder: ImageBuilder,
    pub ids: NameTable<u32>,
    pub shared_embedding: bool,
    pub shared_lm_head: bool,
    pub draft_first_segments: bool,
    pub speculation_length: u32,
    pub source_bytes: u64,
    pub emitted_bytes: u64,
}

/// Compiles a target and its draft model into one image.
pub fn compile_gguf_speculative(target: &LoadedSource, draft: &LoadedSource) -> (r: Result<
    SpeculativeImage,
    String,
>)
    requires
        target.source_tensors.wf(),
        draft.source_tensors.wf(),
        3 * emission::binding_count(target.spec@) + 3 * emission::layer_bindings(draft.spec@.layers)
            <= u32::MAX,
        receipt::data_size(target.source_tensors.values@) + receipt::data_size(
            draft.source_tensors.values@,
        ) <= u64::MAX,
        draft_bytes(
            speculative_image(
                source::source_views(target.source_tensors@),
                target.spec@,
                target.namespace,
                source::source_views(draft.source_tensors@),
                draft.spec@,
                draft.namespace,
                can_share(target.arch, draft.arch),
            ).image.segments,
        ) <= u64::MAX,
    ensures
        ({
            let e = speculative_image(
                source::source_views(target.source_tensors@),
                target.spec@,
                target.namespace,
                source::source_views(draft.source_tensors@),
                draft.spec@,
                draft.namespace,
                can_share(target.arch, draft.arch),
            );
            match r {
                Ok(i) => {
                    &&& e.report is None
                    &&& is_identity_of(i.identity, *target)
                    &&& i.builder@ == e.image
                    &&& i.ids.wf()
                    &&& i.ids@ == e.ids
                    &&& i.shared_embedding == can_share(target.arch, draft.arch)
                    &&& i.shared_lm_head == i.shared_embedding
                    &&& i.draft_first_segments
                    &&& i.speculation_length == 5
                    &&& i.source_bytes == receipt::data_size(target.source_tensors.values@)
                        + receipt::data_size(draft.source_tensors.values@)
                    &&& i.emitted_bytes == draft_bytes(e.image.segments)
                },
                Err(m) => e.report == Some(m@),
            }
        }),
{
    let identity: SourceIdentity = identify(target);
    let mut builder: ImageBuilder = ImageBuilder::starting_at(0);
    let mut ids: NameTable<u32> = NameTable::new();
    proof {
        emission::lemma_model_room(
            nothing_emitted(0),
            source::source_views(target.source_tensors@),
            target.spec@,
            target.namespace,
            EmissionStyle::Target,
            None,
        );
    }
    match emission::emit_model(
        &mut builder,
        &mut ids,
        &target.source_tensors,
        &target.spec,
        &target.namespace,
        EmissionStyle::Target,
        None,
    ) {
        Ok(_) => {},
        Err(e) => return Err(e),
    }
    let target_bytes: u64 = receipt::source_bytes(&target.source_tensors);
    match emission::emit_layers(
        &mut builder,
        &mut ids,
        &draft.source_tensors,
        &draft.spec.layers,
        "draft_layer_",
        None,
    ) {
        Ok(_) => {},
        Err(e) => return Err(e),
    }
    let draft_source_bytes: u64 = receipt::source_bytes(&draft.source_tensors);
    let shared: bool = emission::shares_embedding(
        target.arch.vocab_size,
        target.arch.hidden_size,
        draft.arch.vocab_size,
        draft.arch.hidden_size,
    );
    if shared {
        proof {
            emission::lemma_sharing_keeps_report(
                Emission { image: builder@, ids: ids@, report: None },
                target.spec@.global_tensors,
                target.namespace.root@,
                draft.namespace.root@,
            );
        }
        emission::share_embeddings(
            &mut builder,
            &mut ids,
            &target.spec.global_tensors,
            &target.namespace,
            &draft.namespace,
        );
    }
    let emitted_bytes: u64 = count_draft_bytes(&builder.segments);
    Ok(
        SpeculativeImage {
            identity,
            builder,
            ids,
            shared_embedding: shared,
            shared_lm_head: shared,
            draft_first_segments: true,
            speculation_length: 5,
            source_bytes: target_bytes + draft_source_bytes,
            emitted_bytes,
        },
    )
}

// ---------------------------------------------------------------------------
// Images on top of earlier ones
// ---------------------------------------------------------------------------

/// What is known of an earlier image.
#[derive(Debug)]
pub struct PreviousImage {
    pub segments: Vec<Segment>,
    pub tensor_table: Vec<TensorEntry>,
    pub alias_table: Vec<AliasEntry>,
}

/// The tensors that changed or are new, emitted on top of an earlier image.
pub open spec fn changes_emitted(
    prev: PreviousImage,
    diff: TensorDiff,
    store: Map<Seq<char>, SourceView>,
    spec: ExecutionView,
    namespace: NamespaceBinding,
) -> Emission {
    emission::model_emitted(
        nothing_emitted(
            differential::first_free_id(manifest::entry_views(prev.tensor_table@)) as u32,
        ),
        store,
        spec,
        namespace,
        EmissionStyle::Alone,
        Some(order::views(diff.changed@) + order::views(diff.new@)),
    )
}

/// The segments of an earlier image that stay.
pub open spec fn segments_kept(prev: PreviousImage, diff: TensorDiff) -> Seq<manifest::SegmentView> {
    differential::kept_segments(
        manifest::segment_views(prev.segments@),
        manifest::entry_views(prev.tensor_table@),
        order::views(diff.unchanged@),
    )
}

/// An image on top of an earlier one.
#[derive(Debug)]
pub struct DifferentialImage {
    /// The segments of the earlier image whose files stay.
    pub kept_files: Vec<String>,
    /// The payloads of the new segments.
    pub drafts: Vec<SegmentDraft>,
    pub ids: NameTable<u32>,
    pub manifest: Manifest,
}

/// The numbers of the tensors and of the files stay in range, and so does the
/// size of the whole.
pub open spec fn is_combinable(
    prev: PreviousImage,
    diff: TensorDiff,
    store: Map<Seq<char>, SourceView>,
    spec: ExecutionView,
    namespace: NamespaceBinding,
) -> bool {
    let first = differential::first_free_id(manifest::entry_views(prev.tensor_table@));
    let e = changes_emitted(prev, diff, store, spec, namespace);
    let kept = segments_kept(prev, diff);
    &&& first + 3 * emission::binding_count(spec) <= u32::MAX
    &&& e.report is None ==> differential::first_free_file(kept) + e.image.segments.len()
        <= usize::MAX && receipt::total_size(
        differential::combined_segments(kept, e.image.segments),
    ) <= u64::MAX
}

/// The names of the files of segments.
pub open spec fn file_names(segments: Seq<manifest::SegmentView>) -> Seq<Seq<char>> {
    segments.map_values(|s: manifest::SegmentView| s.filename)
}

fn list_files(segments: &Vec<Segment>) -> (r: Vec<String>)
    ensures
        order::views(r@) == file_names(manifest::segment_views(segments@)),
{
    let mut r: Vec<String> = Vec::new();
    let mut i: usize = 0;
    while i < segments.len()
        invariant
            i <= segments@.len(),
            r@.len() == i,
            forall|j: int| 0 <= j < i ==> (#[trigger] r@[j])@ == segments@[j].filename@,
        decreases segments@.len() - i,
    {
        r.push(segments[i].filename.clone());
        i = i + 1;
    }
    assert(order::views(r@) =~= file_names(manifest::segment_views(segments@)));
    r
}

/// Compiles what changed in a source on top of an earlier image.
/// The record of the combined image has the hash of that record.
pub fn compile_differential<F: Fn(Fingerprint) -> Vec<u8>>(
    prev: &PreviousImage,
    diff: &TensorDiff,
    loaded: &LoadedSource,
    labels: &ImageLabels,
    serialize: F,
) -> (r: Result<DifferentialImage, String>)
    requires
        loaded.source_tensors.wf(),
        forall|f: Fingerprint| #[trigger] call_requires(serialize, (f,)),
        is_combinable(
            *prev,
            *diff,
            source::source_views(loaded.source_tensors@),
            loaded.spec@,
            loaded.namespace,
        ),
    ensures
        ({
            let e = changes_emitted(
                *prev,
                *diff,
                source::source_views(loaded.source_tensors@),
                loaded.spec@,
                loaded.namespace,
            );
            let kept = segments_kept(*prev, *diff);
            let segments = differential::combined_segments(kept, e.image.segments);
            match r {
                Ok(i) => {
                    &&& e.report is None
                    &&& is_identity_of(i.manifest.source, *loaded)
                    &&& order::views(i.kept_files@) == file_names(kept)
                    &&& image::draft_views(i.drafts@) == e.image.segments
                    &&& i.ids.wf()
                    &&& i.ids@ == e.ids
                    &&& i.manifest@ == (ManifestView {
                        image_hash: i.manifest.image_hash@,
                        ..unsealed(
                            *labels,
                            i.manifest.source@,
                            loaded.arch@,
                            segments,
                            differential::kept_entries(
                                manifest::entry_views(prev.tensor_table@),
                                order::views(diff.unchanged@),
                            ) + e.image.tensors.map_values(
                                |t: manifest::EntryView| differential::located(t, segments),
                            ),
                            manifest::alias_views(prev.alias_table@) + e.image.aliases,
                        )
                    })
                    &&& emit::is_manifest_hash(i.manifest.image_hash@, i.manifest@, serialize)
                },
                Err(m) => e.report == Some(m@),
            }
        }),
{
    let kept: Vec<Segment> = differential::keep_segments(
        &prev.segments,
        &prev.tensor_table,
        &diff.unchanged,
    );
    let identity: SourceIdentity = identify(loaded);
    let first: u32 = differential::start_tensor_id(&prev.tensor_table);
    let mut builder: ImageBuilder = ImageBuilder::starting_at(first);
    let mut ids: NameTable<u32> = NameTable::new();
    let names: Vec<String> = differential::names_to_compile(diff);
    match emission::emit_model(
        &mut builder,
        &mut ids,
        &loaded.source_tensors,
        &loaded.spec,
        &loaded.namespace,
        EmissionStyle::Alone,
        Some(&names),
    ) {
        Ok(_) => {},
        Err(e) => return Err(e),
    }
    let kept_files: Vec<String> = list_files(&kept);
    let combined: CombinedImage = differential::combine_images(
        kept,
        &prev.tensor_table,
        &prev.alias_table,
        &diff.unchanged,
        &builder.segments,
        &builder.tensors,
        &builder.aliases,
    );
    let manifest: Manifest = emit::seal_manifest(
        record_of(
            labels,
            identity,
            &loaded.arch,
            combined.segments,
            combined.tensor_table,
            combined.alias_table,
        ),
        serialize,
    );
    assert(manifest.source@ == identity@);
    Ok(DifferentialImage { kept_files, drafts: builder.segments, ids, manifest })
}

// ---------------------------------------------------------------------------
// Receipts
// ---------------------------------------------------------------------------

/// How long the stages of a compilation took, and the memory in use at its end.
#[derive(Debug, Clone, Copy, PartialEq, Eq, Structural)]
pub struct Timings {
    pub source_load_ms: u64,
    pub source_hashing_ms: u64,
    pub payload_emission_ms: u64,
    pub finalize_ms: u64,
    pub elapsed_ms: u128,
    pub active_bytes: u64,
}

/// The profile of a compilation.
pub open spec fn profile_of(t: Timings, source_bytes: u64, emitted_bytes: u64) -> StageProfile {
    StageProfile {
        source_discovery_ms: t.source_load_ms,
        header_parsing_ms: 0,
        architecture_normalization_ms: 0,
        binding_validation_ms: 0,
        source_hashing_ms: t.source_hashing_ms,
        layout_planning_ms: 0,
        payload_emission_ms: t.payload_emission_ms,
        segment_hashing_ms: t.finalize_ms,
        manifest_generation_ms: 0,
        verification_ms: 0,
        total_source_bytes: source_bytes,
        total_emitted_bytes: emitted_bytes,
        peak_rss_bytes: 0,
        peak_mlx_active_bytes: t.active_bytes,
        peak_mlx_cache_bytes: 0,
    }
}

/// The receipt of a compilation. The bytes of the source are those given, or
/// else those of its tensors.
pub fn finish_receipt(
    facts: CompiledFacts,
    store: &NameTable<SourceTensor>,
    t: Timings,
    source_bytes: Option<u64>,
) -> (r: CompileReceipt)
    requires
        store.wf(),
        receipt::data_size(store.values@) <= u64::MAX,
        receipt::total_size(manifest::segment_views(facts.segments@)) <= u64::MAX,
    ensures
        ({
            let total = match source_bytes {
                Some(n) => n,
                None => receipt::data_size(store.values@) as u64,
            };
            let emitted = receipt::total_size(manifest::segment_views(facts.segments@)) as u64;
            receipt::is_receipt_of(
                r,
                facts,
                *store,
                t.elapsed_ms,
                profile_of(t, total, emitted),
                source_bytes,
            )
        }),
{
    let total: u64 = match source_bytes {
        Some(n) => n,
        None => receipt::source_bytes(store),
    };
    let emitted: u64 = receipt::emitted_bytes(&facts.segments);
    let profile: StageProfile = receipt::stage_profile(
        t.source_load_ms,
        t.source_hashing_ms,
        t.payload_emission_ms,
        t.finalize_ms,
        total,
        emitted,
        t.active_bytes,
    );
    receipt::build_compile_receipt(facts, store, t.elapsed_ms, profile, source_bytes)
}

// ---------------------------------------------------------------------------
// Kernel libraries
// ---------------------------------------------------------------------------

/// Where a kernel library may lie: in the directory of the source or in the one
/// above it.
#[derive(Debug)]
pub struct LibraryCandidate {
    pub in_parent: bool,
    pub filename: String,
}

/// The places where a kernel library is looked for, in this order. The name of
/// the model's type is given in lower case.
pub fn library_candidates(model_type: &str) -> (r: Vec<LibraryCandidate>)
    ensures
        r@.len() == 4,
        !r@[0].in_parent && r@[0].filename@ == "model.metallib"@,
        r@[1].in_parent && r@[1].filename@ == "model.metallib"@,
        !r@[2].in_parent && r@[2].filename@ == model_type@ + ".metallib"@,
        r@[3].in_parent && r@[3].filename@ == model_type@ + ".metallib"@,
{
    let own: String = crate::text::join2(model_type, ".metallib");
    let mut r: Vec<LibraryCandidate> = Vec::new();
    r.push(LibraryCandidate { in_parent: false, filename: "model.metallib".to_owned() });
    r.push(LibraryCandidate { in_parent: true, filename: "model.metallib".to_owned() });
    r.push(LibraryCandidate { in_parent: false, filename: own.clone() });
    r.push(LibraryCandidate { in_parent: true, filename: own });
    r
}

/// Records a kernel library, where one was found.
pub fn embed_metallib(library: &Option<Vec<u8>>) -> (r: Option<LibraryRecord>)
    ensures
        match *library {
            Some(bytes) => r matches Some(l) && l.sha256@ == digest::sha256_hex(bytes@)
                && l.byte_size == bytes@.len(),
            None => r is None,
        },
{
    match library {
        Some(bytes) => Some(
            LibraryRecord {
                sha256: digest::sha256_bytes(bytes.as_slice()),
                byte_size: bytes.len() as u64,
            },
        ),
        None => None,
    }
}

/// How the library of the inference kernels comes about.
#[derive(Debug, Clone, Copy, PartialEq, Eq, Structural)]
pub enum LibraryStep {
    /// The one that was given is copied.
    Copy,
    /// The one that was captured before stays.
    Keep,
    /// It is compiled.
    Compile,
}

/// Decides how the library of the inference kernels comes about.
pub fn library_step(given: bool, captured: bool) -> (r: LibraryStep)
    ensures
        r == (if given {
            LibraryStep::Copy
        } else if captured {
            LibraryStep::Keep
        } else {
            LibraryStep::Compile
        }),
{
    if given {
        LibraryStep::Copy
    } else if captured {
        LibraryStep::Keep
    } else {
        LibraryStep::Compile
    }
}

// ---------------------------------------------------------------------------
// Laws
// ---------------------------------------------------------------------------

/// Where the codes give the same for the same values, a source is prepared in one
/// way only.
pub proof fn law_preparing_is_deterministic<
    N: Fn(Vec<u32>) -> WordGroup,
    B: Fn(Vec<u32>) -> ByteGroup,
>(
    store: Map<Seq<char>, SourceView>,
    spec: ExecutionView,
    files: Seq<Seq<u8>>,
    mode: Option<CompileQuantMode>,
    a: Seq<GroupCodes>,
    b: Seq<GroupCodes>,
    nf4: N,
    af8: B,
)
    requires
        quantize::is_steady_in_words(nf4),
        quantize::is_steady_in_bytes(af8),
        can_be_codes(store, spec, files, mode, a, nf4, af8),
        can_be_codes(store, spec, files, mode, b, nf4, af8),
    ensures
        prepared(store, spec, files, mode, a) == prepared(store, spec, files, mode, b),
{
    if let Some(m) = mode {
        quantize::law_quantizing_is_deterministic(
            quantize::before_quantizing(source::all_read(store, files), spec, files),
            quantize::weights_of(spec),
            m,
            a,
            b,
            nf4,
            af8,
        );
    }
}

/// Where the codes give the same for the same values, compiling a source twice
/// gives the same image, or the same report.
pub proof fn law_compiling_is_deterministic<
    N: Fn(Vec<u32>) -> WordGroup,
    B: Fn(Vec<u32>) -> ByteGroup,
>(
    before: LoadedSource,
    one: LoadedSource,
    other: LoadedSource,
    files: Seq<Seq<u8>>,
    mode: Option<CompileQuantMode>,
    nf4: N,
    af8: B,
    r: Result<SequentialImage, String>,
    s: Result<SequentialImage, String>,
)
    requires
        quantize::is_steady_in_words(nf4),
        quantize::is_steady_in_bytes(af8),
        is_compiled(before, one, files, mode, nf4, af8, r),
        is_compiled(before, other, files, mode, nf4, af8, s),
    ensures
        source::source_views(one.source_tensors@) == source::source_views(other.source_tensors@),
        one.spec@ == other.spec@,
        match (r, s) {
            (Ok(i), Ok(j)) => {
                &&& i.builder@ == j.builder@
                &&& i.ids@ == j.ids@
                &&& i.emitted_bytes == j.emitted_bytes
                &&& i.requests@ == j.requests@
            },
            (Err(m), Err(n)) => m@ == n@,
            _ => false,
        },
{
    let store = source::source_views(before.source_tensors@);
    let spec = before.spec@;
    let a = choose|codes: Seq<GroupCodes>|
        #![trigger can_be_codes(store, spec, files, mode, codes, nf4, af8)]
        can_be_codes(store, spec, files, mode, codes, nf4, af8) && is_emitted(
            before,
            one,
            prepared(store, spec, files, mode, codes),
            r,
        );
    let b = choose|codes: Seq<GroupCodes>|
        #![trigger can_be_codes(store, spec, files, mode, codes, nf4, af8)]
        can_be_codes(store, spec, files, mode, codes, nf4, af8) && is_emitted(
            before,
            other,
            prepared(store, spec, files, mode, codes),
            s,
        );
    law_preparing_is_deterministic(store, spec, files, mode, a, b, nf4, af8);
}

/// A source that needs no quantization and whose tensors are all read is compiled
/// as it stands.
pub proof fn law_read_source_stays(
    store: Map<Seq<char>, SourceView>,
    spec: ExecutionView,
    files: Seq<Seq<u8>>,
    codes: Seq<GroupCodes>,
)
    requires
        forall|n: Seq<char>| #[trigger]
            store.dom().contains(n) ==> source::is_settled(store[n]) || files.len() == 0,
    ensures
        prepared(store, spec, files, None, codes) == (Progress { store, spec, report: None }),
{
    let read = source::all_read(store, files);
    assert forall|n: Seq<char>| #[trigger] store.dom().contains(n) implies read[n] == store[n] by {
        lemma_settled_stays(store[n], files);
    }
    assert(read =~= store);
}

proof fn lemma_settled_stays(t: SourceView, files: Seq<Seq<u8>>)
    requires
        source::is_settled(t) || files.len() == 0,
    ensures
        source::read_from_first(t, files) == t,
    decreases files.len(),
{
    if files.len() > 0 {
        lemma_settled_stays(t, files.drop_last());
    }
}

proof fn lemma_encoder_keeps_data(
    b: image::BuilderView,
    ids: Map<Seq<char>, u32>,
    store: Map<Seq<char>, SourceView>,
    names: Seq<Seq<char>>,
    role: Seq<char>,
)
    requires
        emission::is_drawn(b, store, store),
        b.segments.len() > 0,
        forall|i: int| 0 <= i < names.len() ==> store.dom().contains(#[trigger] names[i]),
    ensures
        ({
            let r = emit::encoder_emitted(b, ids, store, names, role).0;
            emission::is_drawn(r, store, store) && r.segments.len() > 0
        }),
    decreases names.len(),
{
    if names.len() > 0 {
        lemma_encoder_keeps_data(b, ids, store, names.drop_last(), role);
        let n = names.last();
        let t = store[n];
        emission::lemma_added_stays_faithful(
            emit::encoder_emitted(b, ids, store, names.drop_last(), role).0,
            store,
            store,
            emit::outgoing(t, n, role, None, t.dtype, t.shape, None),
        );
    }
}

proof fn lemma_encoder_stays_faithful(
    b: image::BuilderView,
    ids: Map<Seq<char>, u32>,
    store: Map<Seq<char>, SourceView>,
    set: Set<Seq<char>>,
    segment: Seq<char>,
    role: Seq<char>,
    prefix: Seq<char>,
)
    requires
        emission::is_drawn(b, store, store),
        store.dom().finite(),
        set.subset_of(store.dom()),
    ensures
        emission::is_drawn(
            emit::encoder_compiled(
                b,
                ids,
                store,
                table::in_order(set),
                segment,
                role,
                prefix,
            ).0,
            store,
            store,
        ),
{
    vstd::set_lib::lemma_len_subset(set, store.dom());
    table::lemma_in_order_exists(set);
    let names = table::in_order(set);
    assert(table::lists_in_order(names, set));
    assert forall|i: int| 0 <= i < names.len() implies store.dom().contains(#[trigger] names[i]) by {
        assert(names.contains(names[i]));
    }
    emission::lemma_opened_stays_faithful(b, store, store, segment, manifest::SegmentKind::Persistent);
    lemma_encoder_keeps_data(
        image::with_segment(b, segment, manifest::SegmentKind::Persistent),
        ids,
        store,
        names,
        role,
    );
}

/// Every tensor of an image is one of the source that it was compiled from, and
/// the image holds its data unchanged.
pub proof fn law_image_holds_source_data(
    store: Map<Seq<char>, SourceView>,
    spec: ExecutionView,
    namespace: NamespaceBinding,
    has_vision: bool,
    has_audio: bool,
)
    requires
        store.dom().finite(),
    ensures
        emission::is_faithful(
            model_image(store, spec, namespace, has_vision, has_audio).image,
            store,
        ),
{
    emission::law_model_keeps_data(
        nothing_emitted(0),
        store,
        store,
        spec,
        namespace,
        EmissionStyle::Alone,
        None,
    );
    let e = emission::model_emitted(
        nothing_emitted(0),
        store,
        spec,
        namespace,
        EmissionStyle::Alone,
        None,
    );
    lemma_encoder_stays_faithful(
        e.image,
        e.ids,
        store,
        emit::prefixed(store, "vision_encoder."@, "vision_encoder."@),
        "vision_encoder"@,
        "VisionEncoder"@,
        "vision_encoder."@,
    );
    let v = if has_vision {
        emit::vision_compiled(e.image, e.ids, store)
    } else {
        (e.image, e.ids)
    };
    lemma_encoder_stays_faithful(
        v.0,
        v.1,
        store,
        emit::prefixed(store, "audio_encoder."@, "embed_audio."@),
        "audio_encoder"@,
        "AudioEncoder"@,
        "audio_encoder."@,
    );
}

/// Every tensor of an image of a target with its draft model is one of the two
/// sources, and the image holds its data unchanged.
pub proof fn law_speculative_image_holds_data(
    target_store: Map<Seq<char>, SourceView>,
    target_spec: ExecutionView,
    target: NamespaceBinding,
    draft_store: Map<Seq<char>, SourceView>,
    draft_spec: ExecutionView,
    draft: NamespaceBinding,
    shared: bool,
)
    ensures
        emission::is_drawn(
            speculative_image(
                target_store,
                target_spec,
                target,
                draft_store,
                draft_spec,
                draft,
                shared,
            ).image,
            draft_store,
            target_store,
        ),
{
    let t = emission::model_emitted(
        nothing_emitted(0),
        target_store,
        target_spec,
        target,
        EmissionStyle::Target,
        None,
    );
    emission::law_model_keeps_data(
        nothing_emitted(0),
        target_store,
        draft_store,
        target_spec,
        target,
        EmissionStyle::Target,
        None,
    );
    assert forall|i: int| 0 <= i < t.image.tensors.len() implies #[trigger] emission::is_stored_in(
        t.image,
        i,
        draft_store,
    ) || emission::is_stored_in(t.image, i, target_store) by {
        assert(emission::is_stored_in(t.image, i, target_store) || emission::is_stored_in(
            t.image,
            i,
            draft_store,
        ));
    }
    emission::law_layers_keep_data(
        t,
        draft_store,
        target_store,
        draft_spec.layers,
        "draft_layer_"@,
        None,
    );
    let d = emission::layers_emitted(t, draft_store, draft_spec.layers, "draft_layer_"@, None);
    let emitted = if t.report is Some {
        t
    } else {
        d
    };
    emission::law_sharing_keeps_data(
        emitted,
        draft_store,
        target_store,
        target_spec.global_tensors,
        target.root@,
        draft.root@,
    );
}

/// Every new tensor of a differential image is one of the new source, and the new
/// segments hold its data unchanged.
pub proof fn law_changes_hold_source_data(
    prev: PreviousImage,
    diff: TensorDiff,
    store: Map<Seq<char>, SourceView>,
    spec: ExecutionView,
    namespace: NamespaceBinding,
)
    ensures
        emission::is_faithful(changes_emitted(prev, diff, store, spec, namespace).image, store),
{
    let first = differential::first_free_id(manifest::entry_views(prev.tensor_table@)) as u32;
    emission::law_model_keeps_data(
        nothing_emitted(first),
        store,
        store,
        spec,
        namespace,
        EmissionStyle::Alone,
        Some(order::views(diff.changed@) + order::views(diff.new@)),
    );
}

/// The new tensors of a differential image have numbers that no tensor of the
/// earlier image has, and no two of them have the same.
pub proof fn law_changes_get_free_numbers(
    prev: PreviousImage,
    diff: TensorDiff,
    store: Map<Seq<char>, SourceView>,
    spec: ExecutionView,
    namespace: NamespaceBinding,
)
    requires
        is_combinable(prev, diff, store, spec, namespace),
    ensures
        ({
            let tensors = changes_emitted(prev, diff, store, spec, namespace).image.tensors;
            &&& forall|i: int, j: int|
                0 <= i < prev.tensor_table@.len() && 0 <= j < tensors.len()
                    ==> #[trigger] prev.tensor_table@[i].id != #[trigger] tensors[j].id
            &&& forall|i: int, j: int|
                0 <= i < j < tensors.len() ==> #[trigger] tensors[i].id != #[trigger] tensors[j].id
        }),
{
    let entries = manifest::entry_views(prev.tensor_table@);
    let first = differential::first_free_id(entries) as u32;
    let tensors = changes_emitted(prev, diff, store, spec, namespace).image.tensors;
    emission::law_model_numbers_in_order(
        nothing_emitted(first),
        store,
        spec,
        namespace,
        EmissionStyle::Alone,
        Some(order::views(diff.changed@) + order::views(diff.new@)),
        first,
    );
    differential::lemma_first_free_is_natural(entries);
    assert forall|i: int, j: int| 0 <= i < prev.tensor_table@.len() && 0 <= j
        < tensors.len() implies #[trigger] prev.tensor_table@[i].id != #[trigger] tensors[j].id by {
        differential::law_new_ids_are_free(entries, i, first + j);
        assert(entries[i].id == prev.tensor_table@[i].id);
    }
}

/// The entry of every new tensor of a differential image names the file of a new
/// segment, and what it points at in that segment is the data that the source has
/// of the tensor.
pub proof fn law_changed_entries_find_data(
    prev: PreviousImage,
    diff: TensorDiff,
    store: Map<Seq<char>, SourceView>,
    spec: ExecutionView,
    namespace: NamespaceBinding,
    i: int,
)
    requires
        is_combinable(prev, diff, store, spec, namespace),
        0 <= i < changes_emitted(prev, diff, store, spec, namespace).image.tensors.len(),
        forall|k: int|
            #![trigger changes_emitted(prev, diff, store, spec, namespace).image.segments[k]]
            0 <= k < changes_emitted(prev, diff, store, spec, namespace).image.segments.len()
                ==> changes_emitted(prev, diff, store, spec, namespace).image.segments[k].payload.len()
                <= u64::MAX,
    ensures
        ({
            let b = changes_emitted(prev, diff, store, spec, namespace).image;
            let kept = segments_kept(prev, diff);
            let segments = differential::combined_segments(kept, b.segments);
            let e = differential::located(b.tensors[i], segments);
            store.dom().contains(e.name) && exists|k: int|
                0 <= k < b.segments.len() && e.segment == (#[trigger] segments[kept.len()
                    + k]).filename && e.offset + e.byte_size <= b.segments[k].payload.len()
                    && b.segments[k].payload.subrange(e.offset as int, e.offset + e.byte_size)
                    == store[e.name].data
        }),
{
    let entries = manifest::entry_views(prev.tensor_table@);
    let first = differential::first_free_id(entries) as u32;
    let b = changes_emitted(prev, diff, store, spec, namespace).image;
    let kept = segments_kept(prev, diff);
    differential::lemma_first_free_is_natural(entries);
    emission::law_model_numbers_in_order(
        nothing_emitted(first),
        store,
        spec,
        namespace,
        EmissionStyle::Alone,
        Some(order::views(diff.changed@) + order::views(diff.new@)),
        first,
    );
    law_changes_hold_source_data(prev, diff, store, spec, namespace);
    assert(emission::is_stored_in(b, i, store));
    assert forall|k: int, id: u32| 0 <= k < kept.len() && #[trigger] kept[k].tensor_ids.contains(
        id,
    ) implies id < first by {
        differential::law_kept_numbers_are_used(
            manifest::segment_views(prev.segments@),
            entries,
            order::views(diff.unchanged@),
            k,
            id,
        );
    }
    differential::law_new_entry_finds_data(kept, b, first, i, store[b.tensors[i].name].data);
}

/// The source that was compiled needs what it needed before, and a compiled image
/// records it whole: each tensor of no layer has an entry without a layer in a
/// persistent segment, and each tensor of a layer has an entry with the index of its
/// layer, in a segment of its layer, with the data that the source had when it was
/// emitted.
pub proof fn law_compiled_image_records_the_source<
    N: Fn(Vec<u32>) -> WordGroup,
    B: Fn(Vec<u32>) -> ByteGroup,
>(
    before: LoadedSource,
    after: LoadedSource,
    files: Seq<Seq<u8>>,
    mode: Option<CompileQuantMode>,
    nf4: N,
    af8: B,
    i: SequentialImage,
)
    requires
        is_compiled(
            before,
            after,
            files,
            mode,
            nf4,
            af8,
            Ok::<SequentialImage, String>(i),
        ),
    ensures
        quantize::same_needs(before.spec@, after.spec@),
        mode is None ==> after.spec@ == before.spec@,
        recorded::is_model_recorded(
            i.builder@,
            0,
            after.spec@,
            "layer_"@,
            source::source_views(after.source_tensors@),
            None,
        ),
        forall|j: int|
            0 <= j < before.spec@.global_tensors.len() ==> exists|t: int|
                0 <= t < i.builder@.tensors.len() && (#[trigger] i.builder@.tensors[t]).name == (
                #[trigger] before.spec@.global_tensors[j]).name && i.builder@.tensors[t].layer
                    == None::<u32> && i.builder@.tensors[t].segment == "persistent"@,
        forall|l: int, j: int|
            0 <= l < before.spec@.layers.len() && 0 <= j < before.spec@.layers[l].tensors.len()
                ==> exists|t: int|
                0 <= t < i.builder@.tensors.len() && (#[trigger] i.builder@.tensors[t]).name == (
                #[trigger] before.spec@.layers[l].tensors[j]).name && i.builder@.tensors[t].layer
                    == Some(before.spec@.layers[l].index) && i.builder@.tensors[t].segment
                    == i.builder@.segments[l + 1].id && i.builder@.segments[l + 1].kind
                    == manifest::SegmentKind::Layer(before.spec@.layers[l].index),
{
    let store = source::source_views(before.source_tensors@);
    let spec = before.spec@;
    let codes = choose|codes: Seq<GroupCodes>|
        #![trigger can_be_codes(store, spec, files, mode, codes, nf4, af8)]
        can_be_codes(store, spec, files, mode, codes, nf4, af8) && is_emitted(
            before,
            after,
            prepared(store, spec, files, mode, codes),
            Ok::<SequentialImage, String>(i),
        );
    let p = prepared(store, spec, files, mode, codes);
    if let Some(m) = mode {
        quantize::law_quantizing_keeps_needs(
            quantize::before_quantizing(source::all_read(store, files), spec, files),
            quantize::weights_of(spec),
            m,
            codes,
        );
    }
    lemma_model_image_is_recorded(
        p.store,
        p.spec,
        before.namespace,
        before.manifest.has_vision,
        before.manifest.has_audio,
        after.source_tensors,
    );
    let b = i.builder@;
    assert forall|j: int| 0 <= j < spec.global_tensors.len() implies exists|t: int|
        0 <= t < b.tensors.len() && (#[trigger] b.tensors[t]).name == (
        #[trigger] spec.global_tensors[j]).name && b.tensors[t].layer == None::<u32>
            && b.tensors[t].segment == "persistent"@ by {
        let x = p.spec.global_tensors[j];
        assert(x.name == spec.global_tensors[j].name);
        assert(emission::is_chosen(None, x.name));
        let t = choose|t: int| #[trigger]
            recorded::is_binding_recorded(b, t, 0, x, None, p.store);
        assert(b.tensors[t].name == x.name);
    }
    assert forall|l: int, j: int|
        0 <= l < spec.layers.len() && 0 <= j < spec.layers[l].tensors.len() implies exists|t: int|
        0 <= t < b.tensors.len() && (#[trigger] b.tensors[t]).name == (
        #[trigger] spec.layers[l].tensors[j]).name && b.tensors[t].layer == Some(
            spec.layers[l].index,
        ) && b.tensors[t].segment == b.segments[l + 1].id && b.segments[l + 1].kind
            == manifest::SegmentKind::Layer(spec.layers[l].index) by {
        let layer = p.spec.layers[l];
        let x = layer.tensors[j];
        assert(layer.index == spec.layers[l].index);
        assert(x.name == spec.layers[l].tensors[j].name);
        assert(recorded::is_layer_recorded(b, 1 + l, layer, "layer_"@, p.store, None));
        assert(emission::is_chosen(None, layer.tensors[j].name));
        let t = choose|t: int| #[trigger]
            recorded::is_binding_recorded(b, t, 1 + l, layer.tensors[j], Some(layer.index), p.store);
        assert(b.tensors[t].name == x.name);
    }
}

proof fn lemma_model_image_is_recorded(
    store: Map<Seq<char>, SourceView>,
    spec: ExecutionView,
    namespace: NamespaceBinding,
    has_vision: bool,
    has_audio: bool,
    tensors: NameTable<SourceTensor>,
)
    requires
        tensors.wf(),
        source::source_views(tensors@) == store,
        model_image(store, spec, namespace, has_vision, has_audio).report is None,
    ensures
        recorded::is_model_recorded(
            model_image(store, spec, namespace, has_vision, has_audio).image,
            0,
            spec,
            "layer_"@,
            store,
            None,
        ),
{
    tensors.lemma_len();
    assert(store.dom() =~= tensors@.dom());
    recorded::law_model_is_recorded(
        nothing_emitted(0),
        store,
        spec,
        namespace,
        EmissionStyle::Alone,
        None,
    );
    let e = emission::model_emitted(
        nothing_emitted(0),
        store,
        spec,
        namespace,
        EmissionStyle::Alone,
        None,
    );
    recorded::law_encoder_goes_into_own_segment(
        e.image,
        e.ids,
        store,
        "vision_encoder."@,
        "vision_encoder."@,
        "vision_encoder"@,
        "VisionEncoder"@,
        "vision_encoder."@,
    );
    let v = if has_vision {
        emit::vision_compiled(e.image, e.ids, store)
    } else {
        (e.image, e.ids)
    };
    recorded::lemma_extends_itself(e.image);
    recorded::lemma_extends_itself(v.0);
    recorded::law_encoder_goes_into_own_segment(
        v.0,
        v.1,
        store,
        "audio_encoder."@,
        "embed_audio."@,
        "audio_encoder"@,
        "AudioEncoder"@,
        "audio_encoder."@,
    );
    let a = if has_audio {
        emit::audio_compiled(v.0, v.1, store)
    } else {
        v
    };
    recorded::lemma_model_stays_recorded(e.image, v.0, 0, spec, "layer_"@, store, None);
    recorded::lemma_model_stays_recorded(v.0, a.0, 0, spec, "layer_"@, store, None);
}

/// An image of a target with its draft model records both: the target as a model that
/// stands alone, but for the names of the segments of its layers, and behind it the
/// layers of the draft model, each in a segment of its own.
pub proof fn law_speculative_image_records_both(
    target: &LoadedSource,
    draft: &LoadedSource,
    i: SpeculativeImage,
)
    requires
        call_ensures(
            compile_gguf_speculative,
            (target, draft),
            Ok::<SpeculativeImage, String>(i),
        ),
    ensures
        recorded::is_model_recorded(
            i.builder@,
            0,
            target.spec@,
            "target_layer_"@,
            source::source_views(target.source_tensors@),
            None,
        ),
        i.builder@.segments.len() == 1 + target.spec@.layers.len() + draft.spec@.layers.len(),
        forall|l: int|
            0 <= l < draft.spec@.layers.len() ==> recorded::is_layer_recorded(
                i.builder@,
                1 + target.spec@.layers.len() + l,
                #[trigger] draft.spec@.layers[l],
                "draft_layer_"@,
                source::source_views(draft.source_tensors@),
                None,
            ),
{
    let ts = source::source_views(target.source_tensors@);
    let ds = source::source_views(draft.source_tensors@);
    let t = emission::model_emitted(
        nothing_emitted(0),
        ts,
        target.spec@,
        target.namespace,
        EmissionStyle::Target,
        None,
    );
    recorded::law_model_is_recorded(
        nothing_emitted(0),
        ts,
        target.spec@,
        target.namespace,
        EmissionStyle::Target,
        None,
    );
    recorded::law_layers_are_recorded(t, ds, draft.spec@.layers, "draft_layer_"@, None);
    let d = emission::layers_emitted(t, ds, draft.spec@.layers, "draft_layer_"@, None);
    let shared = emission::embeddings_shared(
        d,
        target.spec@.global_tensors,
        target.namespace.root@,
        draft.namespace.root@,
    );
    recorded::lemma_sharing_extends(
        d,
        target.spec@.global_tensors,
        target.namespace.root@,
        draft.namespace.root@,
    );
    emission::lemma_sharing_keeps_report(
        d,
        target.spec@.global_tensors,
        target.namespace.root@,
        draft.namespace.root@,
    );
    recorded::lemma_head_sharing_extends(shared, draft.namespace.root@);
    recorded::lemma_extends_itself(d.image);
    let b = i.builder@;
    assert(d.report is None);
    assert(t.report is None);
    assert(recorded::extends(d.image, b) && b.segments.len() == d.image.segments.len()) by {
        if can_share(target.arch, draft.arch) {
            let h = emission::head_shared(shared, draft.namespace.root@);
            recorded::lemma_extends_on(d.image, shared.image, h.image);
        }
    }
    recorded::lemma_model_stays_recorded(t.image, d.image, 0, target.spec@, "target_layer_"@, ts, None);
    recorded::lemma_model_stays_recorded(d.image, b, 0, target.spec@, "target_layer_"@, ts, None);
    assert forall|l: int| 0 <= l < draft.spec@.layers.len() implies recorded::is_layer_recorded(
        b,
        1 + target.spec@.layers.len() + l,
        #[trigger] draft.spec@.layers[l],
        "draft_layer_"@,
        ds,
        None,
    ) by {
        recorded::lemma_layer_stays_recorded(
            d.image,
            b,
            1 + target.spec@.layers.len() + l,
            draft.spec@.layers[l],
            "draft_layer_"@,
            ds,
            None,
        );
    }
}

/// Without quantization every tensor of the source is emitted as it is read: with the data
/// that it had, or those that the first file that holds any has at its place.
pub proof fn law_unquantized_tensors_are_read<
    N: Fn(Vec<u32>) -> WordGroup,
    B: Fn(Vec<u32>) -> ByteGroup,
>(
    before: LoadedSource,
    after: LoadedSource,
    files: Seq<Seq<u8>>,
    nf4: N,
    af8: B,
    r: Result<SequentialImage, String>,
    n: Seq<char>,
)
    requires
        is_compiled(before, after, files, None, nf4, af8, r),
        before.source_tensors@.dom().contains(n),
    ensures
        after.source_tensors@.dom() == before.source_tensors@.dom(),
        after.source_tensors@[n]@ == source::read_from_first(before.source_tensors@[n]@, files),
        after.spec@ == before.spec@,
{
    let a = source::source_views(after.source_tensors@);
    let b = source::source_views(before.source_tensors@);
    assert(a == source::all_read(b, files));
    assert(a.dom() =~= after.source_tensors@.dom());
    assert(b.dom() =~= before.source_tensors@.dom());
    assert(after.source_tensors@.dom() =~= before.source_tensors@.dom());
    assert(a[n] == after.source_tensors@[n]@);
    assert(b[n] == before.source_tensors@[n]@);
}

/// With quantization every weight of the source that is a matrix of half-precision values
/// or brain floats is packed by the scheme that was asked for, from groups of codes that
/// the code of the scheme gives for its own values; its scales and biases stand beside it,
/// and its bindings say so.
pub proof fn law_compiled_weights_are_quantized<
    N: Fn(Vec<u32>) -> WordGroup,
    B: Fn(Vec<u32>) -> ByteGroup,
>(
    before: LoadedSource,
    after: LoadedSource,
    files: Seq<Seq<u8>>,
    mode: CompileQuantMode,
    nf4: N,
    af8: B,
    i: SequentialImage,
    w: int,
) -> (c: GroupCodes)
    requires
        is_compiled(
            before,
            after,
            files,
            Some(mode),
            nf4,
            af8,
            Ok::<SequentialImage, String>(i),
        ),
        0 <= w < quantize::weights_of(before.spec@).len(),
    ensures
        ({
            let start = quantize::before_quantizing(
                source::all_read(source::source_views(before.source_tensors@), files),
                before.spec@,
                files,
            );
            let end = Progress {
                store: source::source_views(after.source_tensors@),
                spec: after.spec@,
                report: None,
            };
            let n = quantize::weights_of(before.spec@)[w];
            let t = start.store[n];
            &&& start.store.dom().contains(n)
            &&& (t.dtype == "F16"@ || t.dtype == "BF16"@) && t.shape.len() == 2
                ==> quantize::is_weight_quantized(start, end, n, mode, c)
                && quantize::are_codes_of(t, mode, c, nf4, af8)
            &&& !((t.dtype == "F16"@ || t.dtype == "BF16"@) && t.shape.len() == 2)
                ==> end.store[n] == t
        }),
{
    let store = source::source_views(before.source_tensors@);
    let spec = before.spec@;
    let names = quantize::weights_of(spec);
    let m = Some(mode);
    let codes = choose|codes: Seq<GroupCodes>|
        #![trigger can_be_codes(store, spec, files, m, codes, nf4, af8)]
        can_be_codes(store, spec, files, m, codes, nf4, af8) && is_emitted(
            before,
            after,
            prepared(store, spec, files, m, codes),
            Ok::<SequentialImage, String>(i),
        );
    let start = quantize::before_quantizing(source::all_read(store, files), spec, files);
    let p = prepared(store, spec, files, m, codes);
    assert(p.report is None);
    assert(p == Progress {
        store: source::source_views(after.source_tensors@),
        spec: after.spec@,
        report: None,
    });
    quantize::lemma_every_name_is_a_weight(spec);
    let c = quantize::law_weight_is_quantized_by_its_codes(start, names, mode, codes, nf4, af8, w);
    c
}

/// A source is loaded exactly where its namespace is known and, unless validation is
/// skipped, it can be executed and its adapter takes it; it is then what was gathered and
/// settled.
pub proof fn law_source_loads_if_valid(
    g: GatheredSource,
    s: Settlement,
    skip: bool,
    r: Result<LoadedSource, String>,
    q: Result<LoadedSource, String>,
)
    requires
        call_ensures(load_source, (g, s, skip), r),
        call_ensures(load_gguf_source, (g, s, skip), q),
    ensures
        r is Ok == (s.namespace is Some && (skip || s.verdict.executable && s.adapter
            == AdapterOutcome::Accepted)),
        q is Ok == (s.namespace is Some && (skip || s.verdict.executable)),
        r matches Ok(l) ==> l.source_tensors == g.tensors && l.spec == s.spec && l.arch == s.arch
            && Some(l.namespace) == s.namespace && l.shard_hashes == g.shard_hashes,
        q matches Ok(l) ==> l.source_tensors == g.tensors && l.spec == s.spec && l.arch == s.arch
            && Some(l.namespace) == s.namespace && l.shard_hashes == g.shard_hashes,
{
}

/// A compilation is admitted by its authority: a sealed image without debug assertions, and
/// a fixture that is small enough and not under the profile of image builds.
pub proof fn law_admission_is_by_authority(
    authority: CompilationAuthority,
    profile: &str,
    debug: bool,
    config: &Option<String>,
    files: &Vec<FixtureFile>,
    r: Result<(), String>,
    small: Result<(), String>,
)
    requires
        call_ensures(admit_compile, (authority, profile, debug, config, files), r),
        call_ensures(authority::verify_fixture_ceiling, (config, files), small),
    ensures
        authority == CompilationAuthority::SealedComputeImage ==> r is Err == debug,
        authority == CompilationAuthority::TestFixture ==> r is Ok == (small is Ok && profile@
            != "image-build"@),
{
}

proof fn lemma_draft_bytes_are_sum(drafts: Seq<DraftView>)
    ensures
        draft_bytes(drafts) == drafts.fold_left(0int, |n: int, d: DraftView| n + d.payload.len()),
    decreases drafts.len(),
{
    if drafts.len() > 0 {
        lemma_draft_bytes_are_sum(drafts.drop_last());
    }
}

/// The bytes of an image are those of the payloads of its segments together.
pub proof fn law_bytes_are_those_of_the_payloads(drafts: &Vec<SegmentDraft>, r: u64)
    requires
        call_ensures(count_draft_bytes, (drafts,), r),
    ensures
        r == image::draft_views(drafts@).fold_left(0int, |n: int, d: DraftView| n + d.payload.len()),
{
    lemma_draft_bytes_are_sum(image::draft_views(drafts@));
}

proof fn lemma_total_size_is_sum(drafts: Seq<DraftView>, first: nat)
    requires
        forall|i: int| 0 <= i < drafts.len() ==> (#[trigger] drafts[i]).payload.len() <= u64::MAX,
    ensures
        receipt::total_size(differential::all_finished(drafts, first)) == drafts.fold_left(
            0int,
            |n: int, d: DraftView| n + d.payload.len(),
        ),
    decreases drafts.len(),
{
    if drafts.len() > 0 {
        let rest = drafts.drop_last();
        let all = differential::all_finished(drafts, first);
        lemma_total_size_is_sum(rest, first);
        assert(all.drop_last() =~= differential::all_finished(rest, first));
        assert(all.last().byte_size == drafts.last().payload.len());
    }
}

/// The record of a finished image lists every segment, tensor and alias that was built, in
/// their order, and plans for the bytes of all the payloads together.
pub proof fn law_manifest_lists_what_was_built<F: Fn(Fingerprint) -> Vec<u8>>(
    labels: &ImageLabels,
    source: SourceIdentity,
    architecture: &TextArchitecture,
    builder: ImageBuilder,
    metallib: Option<LibraryRecord>,
    artifacts: Vec<MetalKernelArtifact>,
    speculation: Option<SpeculationPlan>,
    serialize: F,
    r: Manifest,
)
    requires
        call_ensures(
            finish_manifest::<F>,
            (
                labels,
                source,
                architecture,
                builder,
                metallib,
                artifacts,
                speculation,
                serialize,
            ),
            r,
        ),
        receipt::total_size(differential::all_finished(builder@.segments, 0)) <= u64::MAX,
        forall|i: int|
            0 <= i < builder@.segments.len() ==> (#[trigger] builder@.segments[i]).payload.len()
                <= u64::MAX,
    ensures
        r@.image_version == labels.image_version@,
        r@.compiler_version == labels.compiler_version@,
        r@.runtime_abi == labels.runtime_abi@,
        r@.source == source@,
        r@.architecture == architecture@,
        r@.tensor_table == builder@.tensors,
        r@.alias_table == builder@.aliases,
        r@.segments.len() == builder@.segments.len(),
        forall|i: int|
            #![trigger r@.segments[i]]
            0 <= i < builder@.segments.len() ==> {
                &&& r@.segments[i].id == builder@.segments[i].id
                &&& r@.segments[i].kind == builder@.segments[i].kind
                &&& r@.segments[i].tensor_ids == builder@.segments[i].tensor_ids
                &&& r@.segments[i].byte_size == builder@.segments[i].payload.len()
                &&& r@.segments[i].alignment_bytes == 1
            },
        r@.residency_plan.total_bytes == builder@.segments.fold_left(
            0int,
            |n: int, d: DraftView| n + d.payload.len(),
        ),
        r@.speculation == speculation,
        r@.metal_kernel_artifacts == artifacts@,
        r@.hardware_target is None,
        metallib matches Some(l) ==> r@.metallib == Some((l.sha256@, l.byte_size)),
        metallib is None ==> r@.metallib is None,
{
    lemma_total_size_is_sum(builder@.segments, 0);
}

} // verus!
