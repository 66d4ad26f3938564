//! What is written down of a compilation.

use vstd::prelude::*;
use vstd::string::*;

use crate::digest;
use crate::digest::sha256_bytes;
use crate::manifest;
use crate::manifest::{Segment, SegmentView, ShardHash, TensorEntry};
use crate::order;
use crate::table::NameTable;
use crate::text;

use super::source;
use super::source::{SourceTensor, SourceView};

verus! {

/// Where the bytes of a tensor come from and whether they went into the image
/// as they were.
#[derive(Debug)]
pub struct TensorProvenance {
    pub tensor_name: String,
    pub source_sha256: String,
    pub emitted_sha256: String,
    pub preserved_byte_for_byte: bool,
}

#[verifier::ext_equal]
pub struct ProvenanceView {
    pub tensor_name: Seq<char>,
    pub source_sha256: Seq<char>,
    pub emitted_sha256: Seq<char>,
    pub preserved_byte_for_byte: bool,
}

impl TensorProvenance {
    pub open spec fn view(&self) -> ProvenanceView {
        ProvenanceView {
            tensor_name: self.tensor_name@,
            source_sha256: self.source_sha256@,
            emitted_sha256: self.emitted_sha256@,
            preserved_byte_for_byte: self.preserved_byte_for_byte,
        }
    }
}

/// The views of a list of provenances.
pub open spec fn provenance_views(p: Seq<TensorProvenance>) -> Seq<ProvenanceView> {
    p.map_values(|t: TensorProvenance| t@)
}

/// The provenance of a tensor of the source.
pub open spec fn provenance(name: Seq<char>, t: SourceView) -> ProvenanceView {
    ProvenanceView {
        tensor_name: name,
        source_sha256: t.source_sha256,
        emitted_sha256: digest::sha256_hex(t.data),
        preserved_byte_for_byte: t.source_sha256 == digest::sha256_hex(t.data),
    }
}

/// The provenance of those entries that the source has.
pub open spec fn provenances(
    names: Seq<Seq<char>>,
    store: Map<Seq<char>, SourceView>,
) -> Seq<ProvenanceView>
    decreases names.len(),
{
    if names.len() == 0 {
        Seq::empty()
    } else {
        let rest = provenances(names.drop_last(), store);
        if store.dom().contains(names.last()) {
            rest.push(provenance(names.last(), store[names.last()]))
        } else {
            rest
        }
    }
}

/// The names of those tensors that did not go into the image as they were.
pub open spec fn transformed(p: Seq<ProvenanceView>) -> Seq<Seq<char>>
    decreases p.len(),
{
    if p.len() == 0 {
        Seq::empty()
    } else if p.last().preserved_byte_for_byte {
        transformed(p.drop_last())
    } else {
        transformed(p.drop_last()).push(p.last().tensor_name)
    }
}

/// The names of the tensors of an image.
pub open spec fn entry_names(entries: Seq<manifest::EntryView>) -> Seq<Seq<char>> {
    entries.map_values(|e: manifest::EntryView| e.name)
}

fn trace_bytes(entries: &Vec<TensorEntry>, store: &NameTable<SourceTensor>) -> (r: Vec<
    TensorProvenance,
>)
    requires
        store.wf(),
    ensures
        provenance_views(r@) == provenances(
            entry_names(manifest::entry_views(entries@)),
            source::source_views(store@),
        ),
{
    let ghost names = entry_names(manifest::entry_views(entries@));
    let ghost tensors = source::source_views(store@);
    let mut r: Vec<TensorProvenance> = Vec::new();
    let mut i: usize = 0;
    assert(names.len() == entries@.len());
    while i < entries.len()
        invariant
            i <= entries@.len(),
            store.wf(),
            names == entry_names(manifest::entry_views(entries@)),
            tensors == source::source_views(store@),
            provenance_views(r@) =~= provenances(names.take(i as int), tensors),
        decreases entries@.len() - i,
    {
        proof {
            assert(names.take(i + 1).drop_last() =~= names.take(i as int));
            assert(names.take(i + 1).last() == entries@[i as int].name@);
        }
        if let Some(t) = store.get(entries[i].name.as_str()) {
            let emitted: String = sha256_bytes(t.data.as_slice());
            let same: bool = text::same_text(t.source_sha256.as_str(), emitted.as_str());
            let p: TensorProvenance = TensorProvenance {
                tensor_name: entries[i].name.clone(),
                source_sha256: t.source_sha256.clone(),
                emitted_sha256: emitted,
                preserved_byte_for_byte: same,
            };
            assert(p@ == provenance(entries@[i as int].name@, t@));
            r.push(p);
        }
        i = i + 1;
    }
    assert(names.take(names.len() as int) =~= names);
    r
}

fn list_transformed(p: &Vec<TensorProvenance>) -> (r: Vec<String>)
    ensures
        order::views(r@) == transformed(provenance_views(p@)),
{
    let ghost views = provenance_views(p@);
    let mut r: Vec<String> = Vec::new();
    let mut i: usize = 0;
    while i < p.len()
        invariant
            i <= p@.len(),
            views == provenance_views(p@),
            order::views(r@) =~= transformed(views.take(i as int)),
        decreases p@.len() - i,
    {
        proof {
            assert(views.take(i + 1).drop_last() =~= views.take(i as int));
            assert(views.take(i + 1).last() == p@[i as int]@);
        }
        if !p[i].preserved_byte_for_byte {
            r.push(p[i].tensor_name.clone());
        }
        i = i + 1;
    }
    assert(views.take(views.len() as int) =~= views);
    r
}

/// What a receipt says of a segment.
#[derive(Debug)]
pub struct SegmentReceipt {
    pub id: String,
    pub filename: String,
    pub sha256: String,
    pub byte_size: u64,
}

impl SegmentReceipt {
    pub open spec fn view(&self) -> (Seq<char>, Seq<char>, Seq<char>, u64) {
        (self.id@, self.filename@, self.sha256@, self.byte_size)
    }
}

/// What a receipt says of segments.
pub open spec fn segment_facts(segments: Seq<SegmentView>) -> Seq<
    (Seq<char>, Seq<char>, Seq<char>, u64),
> {
    segments.map_values(|s: SegmentView| (s.id, s.filename, s.sha256, s.byte_size))
}

fn list_segments(segments: &Vec<Segment>) -> (r: Vec<SegmentReceipt>)
    ensures
        r@.map_values(|s: SegmentReceipt| s@) == segment_facts(
            manifest::segment_views(segments@),
        ),
{
    let ghost facts = segment_facts(manifest::segment_views(segments@));
    let mut r: Vec<SegmentReceipt> = Vec::new();
    let mut i: usize = 0;
    while i < segments.len()
        invariant
            i <= segments@.len(),
            facts == segment_facts(manifest::segment_views(segments@)),
            r@.len() == i,
            forall|j: int| 0 <= j < i ==> (#[trigger] r@[j])@ == facts[j],
        decreases segments@.len() - i,
    {
        r.push(
            SegmentReceipt {
                id: segments[i].id.clone(),
                filename: segments[i].filename.clone(),
                sha256: segments[i].sha256.clone(),
                byte_size: segments[i].byte_size,
            },
        );
        i = i + 1;
    }
    assert(r@.map_values(|s: SegmentReceipt| s@) =~= facts);
    r
}

/// The size of segments together.
pub open spec fn total_size(segments: Seq<SegmentView>) -> nat
    decreases segments.len(),
{
    if segments.len() == 0 {
        0
    } else {
        total_size(segments.drop_last()) + segments.last().byte_size as nat
    }
}

proof fn lemma_total_grows(segments: Seq<SegmentView>, k: int)
    requires
        0 <= k <= segments.len(),
    ensures
        total_size(segments.take(k)) <= total_size(segments),
    decreases segments.len() - k,
{
    if k < segments.len() {
        assert(segments.take(k + 1).drop_last() =~= segments.take(k));
        lemma_total_grows(segments, k + 1);
    } else {
        assert(segments.take(k) =~= segments);
    }
}

/// The size of segments together.
pub fn emitted_bytes(segments: &Vec<Segment>) -> (r: u64)
    requires
        total_size(manifest::segment_views(segments@)) <= u64::MAX,
    ensures
        r == total_size(manifest::segment_views(segments@)),
{
    let ghost views = manifest::segment_views(segments@);
    let mut r: u64 = 0;
    let mut i: usize = 0;
    while i < segments.len()
        invariant
            i <= segments@.len(),
            views == manifest::segment_views(segments@),
            views.len() == segments@.len(),
            total_size(views) <= u64::MAX,
            r == total_size(views.take(i as int)),
        decreases segments@.len() - i,
    {
        proof {
            assert(views.take(i + 1).drop_last() =~= views.take(i as int));
            assert(views.take(i + 1).last() == segments@[i as int]@);
            lemma_total_grows(views, i + 1);
        }
        r = r + segments[i].byte_size;
        i = i + 1;
    }
    assert(views.take(views.len() as int) =~= views);
    r
}

/// The size of the data of tensors together.
pub open spec fn data_size(tensors: Seq<SourceTensor>) -> nat
    decreases tensors.len(),
{
    if tensors.len() == 0 {
        0
    } else {
        data_size(tensors.drop_last()) + tensors.last().data@.len()
    }
}

proof fn lemma_data_grows(tensors: Seq<SourceTensor>, k: int)
    requires
        0 <= k <= tensors.len(),
    ensures
        data_size(tensors.take(k)) <= data_size(tensors),
    decreases tensors.len() - k,
{
    if k < tensors.len() {
        assert(tensors.take(k + 1).drop_last() =~= tensors.take(k));
        lemma_data_grows(tensors, k + 1);
    } else {
        assert(tensors.take(k) =~= tensors);
    }
}

/// The size of the data of a source.
pub fn source_bytes(store: &NameTable<SourceTensor>) -> (r: u64)
    requires
        data_size(store.values@) <= u64::MAX,
    ensures
        r == data_size(store.values@),
{
    let mut r: u64 = 0;
    let mut i: usize = 0;
    assert(store.values@.take(0) =~= Seq::<SourceTensor>::empty());
    while i < store.values.len()
        invariant
            i <= store.values@.len(),
            data_size(store.values@) <= u64::MAX,
            r == data_size(store.values@.take(i as int)),
        decreases store.values@.len() - i,
    {
        proof {
            assert(store.values@.take(i + 1).drop_last() =~= store.values@.take(i as int));
            lemma_data_grows(store.values@, i + 1);
        }
        r = r + store.values[i].data.len() as u64;
        i = i + 1;
    }
    assert(store.values@.take(store.values@.len() as int) =~= store.values@);
    r
}

/// A tensor of the source that the image does not need.
#[derive(Debug)]
pub struct IgnoredTensorClassification {
    pub name: String,
    pub classification: String,
}

/// How long the stages of a compilation took, and how much it read and wrote.
#[derive(Debug, Clone, Copy, PartialEq, Eq, Structural)]
pub struct StageProfile {
    pub source_discovery_ms: u64,
    pub header_parsing_ms: u64,
    pub architecture_normalization_ms: u64,
    pub binding_validation_ms: u64,
    pub source_hashing_ms: u64,
    pub layout_planning_ms: u64,
    pub payload_emission_ms: u64,
    pub segment_hashing_ms: u64,
    pub manifest_generation_ms: u64,
    pub verification_ms: u64,
    pub total_source_bytes: u64,
    pub total_emitted_bytes: u64,
    pub peak_rss_bytes: u64,
    pub peak_mlx_active_bytes: u64,
    pub peak_mlx_cache_bytes: u64,
}

/// The profile of a compilation of which only loading, hashing of the source,
/// emission and finishing were timed.
pub fn stage_profile(
    source_load_ms: u64,
    source_hashing_ms: u64,
    payload_emission_ms: u64,
    finalize_ms: u64,
    total_source_bytes: u64,
    total_emitted_bytes: u64,
    active_bytes: u64,
) -> (p: StageProfile)
    ensures
        p == (StageProfile {
            source_discovery_ms: source_load_ms,
            header_parsing_ms: 0,
            architecture_normalization_ms: 0,
            binding_validation_ms: 0,
            source_hashing_ms,
            layout_planning_ms: 0,
            payload_emission_ms,
            segment_hashing_ms: finalize_ms,
            manifest_generation_ms: 0,
            verification_ms: 0,
            total_source_bytes,
            total_emitted_bytes,
            peak_rss_bytes: 0,
            peak_mlx_active_bytes: active_bytes,
            peak_mlx_cache_bytes: 0,
        }),
{
    StageProfile {
        source_discovery_ms: source_load_ms,
        header_parsing_ms: 0,
        architecture_normalization_ms: 0,
        binding_validation_ms: 0,
        source_hashing_ms,
        layout_planning_ms: 0,
        payload_emission_ms,
        segment_hashing_ms: finalize_ms,
        manifest_generation_ms: 0,
        verification_ms: 0,
        total_source_bytes,
        total_emitted_bytes,
        peak_rss_bytes: 0,
        peak_mlx_active_bytes: active_bytes,
        peak_mlx_cache_bytes: 0,
    }
}

/// What a receipt needs to know of a compiled image.
#[derive(Debug)]
pub struct CompiledFacts {
    pub config_hash: String,
    pub shard_hashes: Vec<ShardHash>,
    pub compiler_version: String,
    pub runtime_abi: String,
    pub image_hash: String,
    pub segments: Vec<Segment>,
    pub tensor_table: Vec<TensorEntry>,
    pub alias_count: usize,
    pub executable: bool,
    pub ignored: Vec<IgnoredTensorClassification>,
    pub serialized_architecture: Vec<u8>,
    pub serialized_plan: Vec<u8>,
    pub serialized_fingerprint: Vec<u8>,
}

/// The receipt of a compilation.
#[derive(Debug)]
pub struct CompileReceipt {
    pub source_config_hash: String,
    pub source_shard_hashes: Vec<ShardHash>,
    pub compiler_version: String,
    pub runtime_abi: String,
    pub normalized_architecture_hash: String,
    pub execution_plan_hash: String,
    pub complete_image_hash: String,
    pub segment_hashes: Vec<SegmentReceipt>,
    pub tensor_count: usize,
    pub alias_count: usize,
    pub segment_count: usize,
    pub ignored_tensor_classifications: Vec<IgnoredTensorClassification>,
    pub total_source_bytes: u64,
    pub total_emitted_bytes: u64,
    pub elapsed_ms: u128,
    pub transformed_payloads: Vec<String>,
    pub byte_provenance: Vec<TensorProvenance>,
    pub structural_verification: bool,
    pub stage_profile: StageProfile,
}

/// Whether a receipt says what there is to say of a compilation.
pub open spec fn is_receipt_of(
    r: CompileReceipt,
    facts: CompiledFacts,
    store: NameTable<SourceTensor>,
    elapsed_ms: u128,
    profile: StageProfile,
    source_override: Option<u64>,
) -> bool {
    let segments = manifest::segment_views(facts.segments@);
    let traced = provenances(
        entry_names(manifest::entry_views(facts.tensor_table@)),
        source::source_views(store@),
    );
    &&& r.source_config_hash@ == facts.config_hash@
    &&& r.source_shard_hashes == facts.shard_hashes
    &&& r.compiler_version@ == facts.compiler_version@
    &&& r.runtime_abi@ == facts.runtime_abi@
    &&& r.normalized_architecture_hash@ == digest::sha256_hex(facts.serialized_architecture@)
    &&& r.execution_plan_hash@ == digest::sha256_hex(facts.serialized_plan@)
    &&& r.complete_image_hash@ == facts.image_hash@
    &&& r.segment_hashes@.map_values(|s: SegmentReceipt| s@) == segment_facts(segments)
    &&& r.tensor_count == facts.tensor_table@.len()
    &&& r.alias_count == facts.alias_count
    &&& r.segment_count == facts.segments@.len()
    &&& r.ignored_tensor_classifications == facts.ignored
    &&& r.total_source_bytes == (match source_override {
        Some(n) => n as nat,
        None => data_size(store.values@),
    })
    &&& r.total_emitted_bytes == total_size(segments)
    &&& r.elapsed_ms == elapsed_ms
    &&& order::views(r.transformed_payloads@) == transformed(traced)
    &&& provenance_views(r.byte_provenance@) == traced
    &&& r.structural_verification == (facts.executable && facts.image_hash@
        == digest::sha256_hex(facts.serialized_fingerprint@))
    &&& r.stage_profile == profile
}

/// Writes the receipt of a compilation. An image is verified where its source
/// was found executable and its hash is that of its fingerprint.
pub fn build_compile_receipt(
    facts: CompiledFacts,
    store: &NameTable<SourceTensor>,
    elapsed_ms: u128,
    profile: StageProfile,
    source_override: Option<u64>,
) -> (r: CompileReceipt)
    requires
        store.wf(),
        data_size(store.values@) <= u64::MAX,
        total_size(manifest::segment_views(facts.segments@)) <= u64::MAX,
    ensures
        is_receipt_of(r, facts, *store, elapsed_ms, profile, source_override),
{
    let total_source_bytes: u64 = match source_override {
        Some(n) => n,
        None => source_bytes(store),
    };
    let byte_provenance: Vec<TensorProvenance> = trace_bytes(&facts.tensor_table, store);
    let transformed_payloads: Vec<String> = list_transformed(&byte_provenance);
    let fingerprint: String = sha256_bytes(facts.serialized_fingerprint.as_slice());
    let verified: bool = facts.executable && text::same_text(
        facts.image_hash.as_str(),
        fingerprint.as_str(),
    );
    CompileReceipt {
        source_config_hash: facts.config_hash,
        source_shard_hashes: facts.shard_hashes,
        compiler_version: facts.compiler_version,
        runtime_abi: facts.runtime_abi,
        normalized_architecture_hash: sha256_bytes(facts.serialized_architecture.as_slice()),
        execution_plan_hash: sha256_bytes(facts.serialized_plan.as_slice()),
        complete_image_hash: facts.image_hash,
        segment_hashes: list_segments(&facts.segments),
        tensor_count: facts.tensor_table.len(),
        alias_count: facts.alias_count,
        segment_count: facts.segments.len(),
        ignored_tensor_classifications: facts.ignored,
        total_source_bytes,
        total_emitted_bytes: emitted_bytes(&facts.segments),
        elapsed_ms,
        transformed_payloads,
        byte_provenance,
        structural_verification: verified,
        stage_profile: profile,
    }
}

// ---------------------------------------------------------------------------
// Laws
// ---------------------------------------------------------------------------

proof fn lemma_total_is_sum(segments: Seq<SegmentView>)
    ensures
        total_size(segments) == segments.fold_left(0int, |n: int, s: SegmentView| n + s.byte_size),
    decreases segments.len(),
{
    if segments.len() > 0 {
        lemma_total_is_sum(segments.drop_last());
    }
}

proof fn lemma_data_is_sum(tensors: Seq<SourceTensor>)
    ensures
        data_size(tensors) == tensors.fold_left(0int, |n: int, t: SourceTensor| n + t.data@.len()),
    decreases tensors.len(),
{
    if tensors.len() > 0 {
        lemma_data_is_sum(tensors.drop_last());
    }
}

proof fn lemma_traced(names: Seq<Seq<char>>, store: Map<Seq<char>, SourceView>, n: Seq<char>)
    ensures
        ({
            let traced = provenances(names, store);
            &&& forall|k: int|
                0 <= k < traced.len() ==> store.dom().contains((#[trigger] traced[k]).tensor_name)
                    && traced[k].emitted_sha256 == digest::sha256_hex(
                    store[traced[k].tensor_name].data,
                ) && traced[k].source_sha256 == store[traced[k].tensor_name].source_sha256
                    && traced[k].preserved_byte_for_byte == (traced[k].source_sha256
                    == traced[k].emitted_sha256)
            &&& names.contains(n) && store.dom().contains(n) ==> exists|k: int|
                0 <= k < traced.len() && (#[trigger] traced[k]).tensor_name == n
            &&& forall|k: int|
                0 <= k < traced.len() ==> transformed(traced).contains(
                    (#[trigger] traced[k]).tensor_name,
                ) || traced[k].preserved_byte_for_byte
            &&& transformed(traced).contains(n) ==> exists|k: int|
                0 <= k < traced.len() && (#[trigger] traced[k]).tensor_name == n
                    && !traced[k].preserved_byte_for_byte
        }),
    decreases names.len(),
{
    if names.len() > 0 {
        let rest = names.drop_last();
        let last = names.last();
        lemma_traced(rest, store, n);
        let before = provenances(rest, store);
        let traced = provenances(names, store);
        let ta = transformed(before);
        let tb = transformed(traced);
        if store.dom().contains(last) {
            assert(traced.drop_last() =~= before);
            assert(traced[before.len() as int].tensor_name == last);
            if names.contains(n) && store.dom().contains(n) {
                let j = choose|j: int| 0 <= j < names.len() && names[j] == n;
                if j < rest.len() {
                    assert(rest[j] == n);
                    let k = choose|k: int|
                        0 <= k < before.len() && (#[trigger] before[k]).tensor_name == n;
                    assert(traced[k].tensor_name == n);
                }
            }
            assert forall|k: int| 0 <= k < traced.len() implies tb.contains(
                (#[trigger] traced[k]).tensor_name,
            ) || traced[k].preserved_byte_for_byte by {
                if k < before.len() {
                    assert(traced[k] == before[k]);
                    if ta.contains(before[k].tensor_name) {
                        let j = choose|j: int|
                            0 <= j < ta.len() && ta[j] == before[k].tensor_name;
                        assert(tb[j] == before[k].tensor_name);
                    }
                } else if !traced[k].preserved_byte_for_byte {
                    assert(tb[ta.len() as int] == last);
                }
            }
            if tb.contains(n) {
                let j = choose|j: int| 0 <= j < tb.len() && tb[j] == n;
                if j < ta.len() {
                    assert(ta[j] == n);
                    let k = choose|k: int|
                        0 <= k < before.len() && (#[trigger] before[k]).tensor_name == n
                            && !before[k].preserved_byte_for_byte;
                    assert(traced[k] == before[k]);
                }
            }
        } else if names.contains(n) && store.dom().contains(n) {
            let j = choose|j: int| 0 <= j < names.len() && names[j] == n;
            assert(rest[j] == n);
        }
    }
}

/// A receipt counts what was compiled and traces it: the bytes of the segments and of
/// the source are summed up, and every tensor of the image that the source has is traced
/// by the digests of what was read and of what was emitted. A tensor counts as preserved
/// exactly where the two are the same, and the others are listed as transformed.
pub proof fn law_receipt_traces_the_tensors(
    facts: CompiledFacts,
    store: &NameTable<SourceTensor>,
    elapsed_ms: u128,
    profile: StageProfile,
    source_override: Option<u64>,
    r: CompileReceipt,
    i: int,
)
    requires
        call_ensures(
            build_compile_receipt,
            (facts, store, elapsed_ms, profile, source_override),
            r,
        ),
        0 <= i < facts.tensor_table@.len(),
        store@.dom().contains(facts.tensor_table@[i].name@),
    ensures
        r.total_emitted_bytes == manifest::segment_views(facts.segments@).fold_left(
            0int,
            |n: int, s: SegmentView| n + s.byte_size,
        ),
        source_override is None ==> r.total_source_bytes == store.values@.fold_left(
            0int,
            |n: int, t: SourceTensor| n + t.data@.len(),
        ),
        r.tensor_count == facts.tensor_table@.len(),
        r.segment_count == facts.segments@.len(),
        ({
            let n = facts.tensor_table@[i].name@;
            let t = store@[n]@;
            let kept = t.source_sha256 == digest::sha256_hex(t.data);
            &&& exists|k: int|
                0 <= k < r.byte_provenance@.len() && (
                #[trigger] r.byte_provenance@[k]).tensor_name@ == n
                    && r.byte_provenance@[k].source_sha256@ == t.source_sha256
                    && r.byte_provenance@[k].emitted_sha256@ == digest::sha256_hex(t.data)
                    && r.byte_provenance@[k].preserved_byte_for_byte == kept
            &&& (exists|k: int|
                0 <= k < r.transformed_payloads@.len() && (
                #[trigger] r.transformed_payloads@[k])@ == n) == !kept
        }),
        r.structural_verification == (facts.executable && facts.image_hash@ == digest::sha256_hex(
            facts.serialized_fingerprint@,
        )),
{
    lemma_total_is_sum(manifest::segment_views(facts.segments@));
    lemma_data_is_sum(store.values@);
    let names = entry_names(manifest::entry_views(facts.tensor_table@));
    let views = source::source_views(store@);
    let n = facts.tensor_table@[i].name@;
    assert(names[i] == n);
    assert(names.contains(n));
    assert(views.dom().contains(n) && views[n] == store@[n]@);
    lemma_traced(names, views, n);
    let traced = provenances(names, views);
    let k = choose|k: int| 0 <= k < traced.len() && (#[trigger] traced[k]).tensor_name == n;
    assert(provenance_views(r.byte_provenance@)[k] == r.byte_provenance@[k]@);
    assert(r.byte_provenance@[k].tensor_name@ == n);
    let t = transformed(traced);
    let list = order::views(r.transformed_payloads@);
    assert(list == t);
    if t.contains(n) {
        let j = choose|j: int| 0 <= j < t.len() && t[j] == n;
        assert(r.transformed_payloads@[j]@ == list[j]);
    }
    if exists|j: int|
        0 <= j < r.transformed_payloads@.len() && (#[trigger] r.transformed_payloads@[j])@ == n {
        let j = choose|j: int|
            0 <= j < r.transformed_payloads@.len() && (#[trigger] r.transformed_payloads@[j])@ == n;
        assert(list[j] == n);
    }
}

proof fn lemma_data_size_is_sum(tensors: Seq<SourceTensor>)
    ensures
        data_size(tensors) == tensors.fold_left(0int, |n: int, t: SourceTensor| n + t.data@.len()),
    decreases tensors.len(),
{
    if tensors.len() > 0 {
        lemma_data_size_is_sum(tensors.drop_last());
    }
}

/// The bytes of a source are those of the data of its tensors together.
pub proof fn law_source_bytes_are_those_of_the_tensors(store: &NameTable<SourceTensor>, r: u64)
    requires
        call_ensures(source_bytes, (store,), r),
    ensures
        r == store.values@.fold_left(0int, |n: int, t: SourceTensor| n + t.data@.len()),
{
    lemma_data_size_is_sum(store.values@);
}

} // verus!
