//! What a compiled image is made of: its segments, the tensors in them, and
//! the names by which tensors can also be reached.

use vstd::prelude::*;

use crate::compile::kernel_artifacts::MetalKernelArtifact;
use crate::config::{ArchitectureView, TextArchitecture};

verus! {

/// The digest of a file.
#[derive(Debug)]
pub struct ShardHash {
    pub filename: String,
    pub sha256: String,
}

impl ShardHash {
    pub open spec fn view(&self) -> (Seq<char>, Seq<char>) {
        (self.filename@, self.sha256@)
    }
}

/// A copy of a list of digests.
pub fn copy_hashes(hashes: &Vec<ShardHash>) -> (r: Vec<ShardHash>)
    ensures
        hash_views(r@) == hash_views(hashes@),
{
    let mut r: Vec<ShardHash> = Vec::new();
    let mut i: usize = 0;
    while i < hashes.len()
        invariant
            i <= hashes@.len(),
            r@.len() == i,
            forall|j: int| 0 <= j < i ==> (#[trigger] r@[j])@ == hashes@[j]@,
        decreases hashes@.len() - i,
    {
        r.push(
            ShardHash {
                filename: hashes[i].filename.clone(),
                sha256: hashes[i].sha256.clone(),
            },
        );
        i = i + 1;
    }
    assert(hash_views(r@) =~= hash_views(hashes@));
    r
}

/// The views of a list of digests.
pub open spec fn hash_views(hashes: Seq<ShardHash>) -> Seq<(Seq<char>, Seq<char>)> {
    hashes.map_values(|h: ShardHash| h@)
}

/// How a quantized weight is stored, and which tensors hold its scales and
/// biases.
#[derive(Debug, Clone, Copy, PartialEq, Eq, Structural)]
pub struct QuantizationDesc {
    pub bits: u32,
    pub group_size: u32,
    pub groups: u32,
    pub scale_tensor_id: u32,
    pub bias_tensor_id: u32,
}

/// Whether a segment stays resident or belongs to one layer.
#[derive(Debug, Clone, Copy, PartialEq, Eq, Structural)]
pub enum SegmentKind {
    Persistent,
    Layer(u32),
}

/// A tensor of a compiled image: where it stands and where it comes from.
#[derive(Debug)]
pub struct TensorEntry {
    pub id: u32,
    pub name: String,
    pub role: String,
    pub layer: Option<u32>,
    pub segment: String,
    pub offset: u64,
    pub byte_size: u64,
    pub source_filename: String,
    pub source_sha256: String,
    pub source_offset: u64,
    pub logical_dtype: String,
    pub storage_dtype: String,
    pub logical_shape: Vec<u32>,
    pub storage_shape: Vec<u32>,
    pub quantization: Option<QuantizationDesc>,
}

#[verifier::ext_equal]
pub struct EntryView {
    pub id: u32,
    pub name: Seq<char>,
    pub role: Seq<char>,
    pub layer: Option<u32>,
    pub segment: Seq<char>,
    pub offset: u64,
    pub byte_size: u64,
    pub source_filename: Seq<char>,
    pub source_sha256: Seq<char>,
    pub source_offset: u64,
    pub logical_dtype: Seq<char>,
    pub storage_dtype: Seq<char>,
    pub logical_shape: Seq<u32>,
    pub storage_shape: Seq<u32>,
    pub quantization: Option<QuantizationDesc>,
}

impl TensorEntry {
    pub open spec fn view(&self) -> EntryView {
        EntryView {
            id: self.id,
            name: self.name@,
            role: self.role@,
            layer: self.layer,
            segment: self.segment@,
            offset: self.offset,
            byte_size: self.byte_size,
            source_filename: self.source_filename@,
            source_sha256: self.source_sha256@,
            source_offset: self.source_offset,
            logical_dtype: self.logical_dtype@,
            storage_dtype: self.storage_dtype@,
            logical_shape: self.logical_shape@,
            storage_shape: self.storage_shape@,
            quantization: self.quantization,
        }
    }

    pub fn copy(&self) -> (r: Self)
        ensures
            r@ == self@,
    {
        let r: TensorEntry = TensorEntry {
            id: self.id,
            name: self.name.clone(),
            role: self.role.clone(),
            layer: self.layer,
            segment: self.segment.clone(),
            offset: self.offset,
            byte_size: self.byte_size,
            source_filename: self.source_filename.clone(),
            source_sha256: self.source_sha256.clone(),
            source_offset: self.source_offset,
            logical_dtype: self.logical_dtype.clone(),
            storage_dtype: self.storage_dtype.clone(),
            logical_shape: crate::config::copy_dims(&self.logical_shape),
            storage_shape: crate::config::copy_dims(&self.storage_shape),
            quantization: self.quantization,
        };
        r
    }
}

/// The views of a list of tensor entries.
pub open spec fn entry_views(entries: Seq<TensorEntry>) -> Seq<EntryView> {
    entries.map_values(|e: TensorEntry| e@)
}

/// A segment file of a compiled image.
#[derive(Debug)]
pub struct Segment {
    pub id: String,
    pub filename: String,
    pub byte_size: u64,
    pub sha256: String,
    pub tensor_ids: Vec<u32>,
    pub kind: SegmentKind,
    pub alignment_bytes: u64,
}

#[verifier::ext_equal]
pub struct SegmentView {
    pub id: Seq<char>,
    pub filename: Seq<char>,
    pub byte_size: u64,
    pub sha256: Seq<char>,
    pub tensor_ids: Seq<u32>,
    pub kind: SegmentKind,
    pub alignment_bytes: u64,
}

impl Segment {
    pub open spec fn view(&self) -> SegmentView {
        SegmentView {
            id: self.id@,
            filename: self.filename@,
            byte_size: self.byte_size,
            sha256: self.sha256@,
            tensor_ids: self.tensor_ids@,
            kind: self.kind,
            alignment_bytes: self.alignment_bytes,
        }
    }

    pub fn copy(&self) -> (r: Self)
        ensures
            r@ == self@,
    {
        Segment {
            id: self.id.clone(),
            filename: self.filename.clone(),
            byte_size: self.byte_size,
            sha256: self.sha256.clone(),
            tensor_ids: crate::config::copy_dims(&self.tensor_ids),
            kind: self.kind,
            alignment_bytes: self.alignment_bytes,
        }
    }
}

/// The views of a list of segments.
pub open spec fn segment_views(segments: Seq<Segment>) -> Seq<SegmentView> {
    segments.map_values(|s: Segment| s@)
}

/// A further name for a tensor, and why it has it.
#[derive(Debug)]
pub struct AliasEntry {
    pub name: String,
    pub tensor_id: u32,
    pub reason: String,
}

#[verifier::ext_equal]
pub struct AliasView {
    pub name: Seq<char>,
    pub tensor_id: u32,
    pub reason: Seq<char>,
}

impl AliasEntry {
    pub open spec fn view(&self) -> AliasView {
        AliasView { name: self.name@, tensor_id: self.tensor_id, reason: self.reason@ }
    }

    pub fn copy(&self) -> (r: Self)
        ensures
            r@ == self@,
    {
        AliasEntry {
            name: self.name.clone(),
            tensor_id: self.tensor_id,
            reason: self.reason.clone(),
        }
    }
}

/// The views of a list of aliases.
pub open spec fn alias_views(aliases: Seq<AliasEntry>) -> Seq<AliasView> {
    aliases.map_values(|a: AliasEntry| a@)
}

/// Which tensors of a source are as they were at an earlier compilation.
#[derive(Debug)]
pub struct TensorDiff {
    pub unchanged: Vec<String>,
    pub changed: Vec<String>,
    pub new: Vec<String>,
    pub removed: Vec<String>,
    pub elapsed_ms: u128,
}

/// Where the tensors of an image come from.
#[derive(Debug)]
pub struct SourceIdentity {
    pub config_hash: String,
    pub shard_hashes: Vec<ShardHash>,
    pub tokenizer_hashes: Vec<ShardHash>,
    pub auxiliary_hashes: Vec<ShardHash>,
    pub model_type: String,
    pub quantization_bits: u32,
    pub quantization_group_size: u32,
    pub quantization_mode: String,
}

/// Where an image comes from, in contracts.
#[verifier::ext_equal]
pub struct IdentityView {
    pub config_hash: Seq<char>,
    pub shard_hashes: Seq<(Seq<char>, Seq<char>)>,
    pub tokenizer_hashes: Seq<(Seq<char>, Seq<char>)>,
    pub auxiliary_hashes: Seq<(Seq<char>, Seq<char>)>,
    pub model_type: Seq<char>,
    pub quantization_bits: u32,
    pub quantization_group_size: u32,
    pub quantization_mode: Seq<char>,
}

impl SourceIdentity {
    pub open spec fn view(&self) -> IdentityView {
        IdentityView {
            config_hash: self.config_hash@,
            shard_hashes: hash_views(self.shard_hashes@),
            tokenizer_hashes: hash_views(self.tokenizer_hashes@),
            auxiliary_hashes: hash_views(self.auxiliary_hashes@),
            model_type: self.model_type@,
            quantization_bits: self.quantization_bits,
            quantization_group_size: self.quantization_group_size,
            quantization_mode: self.quantization_mode@,
        }
    }

    pub fn copy(&self) -> (r: Self)
        ensures
            r@ == self@,
    {
        SourceIdentity {
            config_hash: self.config_hash.clone(),
            shard_hashes: copy_hashes(&self.shard_hashes),
            tokenizer_hashes: copy_hashes(&self.tokenizer_hashes),
            auxiliary_hashes: copy_hashes(&self.auxiliary_hashes),
            model_type: self.model_type.clone(),
            quantization_bits: self.quantization_bits,
            quantization_group_size: self.quantization_group_size,
            quantization_mode: self.quantization_mode.clone(),
        }
    }
}

// ---------------------------------------------------------------------------
// The record of an image
// ---------------------------------------------------------------------------

/// How much of an image is to be resident.
#[derive(Debug, Clone, Copy, PartialEq, Eq, Structural)]
pub struct ResidencyPlan {
    pub total_bytes: u64,
}

/// The kernel library of an image.
#[derive(Debug)]
pub struct LibraryRecord {
    pub sha256: String,
    pub byte_size: u64,
}

/// How a draft model is used.
#[derive(Debug, Clone, Copy, PartialEq, Eq, Structural)]
pub struct SpeculationPlan {
    pub shared_embedding: bool,
    pub shared_lm_head: bool,
    pub draft_first_segments: bool,
    pub speculation_length: u32,
}

/// The record of an image.
#[derive(Debug)]
pub struct Manifest {
    pub image_version: String,
    pub compiler_version: String,
    pub runtime_abi: String,
    pub source: SourceIdentity,
    pub architecture: TextArchitecture,
    pub segments: Vec<Segment>,
    pub tensor_table: Vec<TensorEntry>,
    pub alias_table: Vec<AliasEntry>,
    pub residency_plan: ResidencyPlan,
    pub metallib: Option<LibraryRecord>,
    pub metal_kernel_artifacts: Vec<MetalKernelArtifact>,
    pub speculation: Option<SpeculationPlan>,
    pub hardware_target: Option<String>,
    pub image_hash: String,
}

/// The record of an image in contracts.
#[verifier::ext_equal]
pub struct ManifestView {
    pub image_version: Seq<char>,
    pub compiler_version: Seq<char>,
    pub runtime_abi: Seq<char>,
    pub source: IdentityView,
    pub architecture: ArchitectureView,
    pub segments: Seq<SegmentView>,
    pub tensor_table: Seq<EntryView>,
    pub alias_table: Seq<AliasView>,
    pub residency_plan: ResidencyPlan,
    pub metallib: Option<(Seq<char>, u64)>,
    pub metal_kernel_artifacts: Seq<MetalKernelArtifact>,
    pub speculation: Option<SpeculationPlan>,
    pub hardware_target: Option<Seq<char>>,
    pub image_hash: Seq<char>,
}

impl Manifest {
    pub open spec fn view(&self) -> ManifestView {
        ManifestView {
            image_version: self.image_version@,
            compiler_version: self.compiler_version@,
            runtime_abi: self.runtime_abi@,
            source: self.source@,
            architecture: self.architecture@,
            segments: segment_views(self.segments@),
            tensor_table: entry_views(self.tensor_table@),
            alias_table: alias_views(self.alias_table@),
            residency_plan: self.residency_plan,
            metallib: match self.metallib {
                Some(l) => Some((l.sha256@, l.byte_size)),
                None => None,
            },
            metal_kernel_artifacts: self.metal_kernel_artifacts@,
            speculation: self.speculation,
            hardware_target: match self.hardware_target {
                Some(t) => Some(t@),
                None => None,
            },
            image_hash: self.image_hash@,
        }
    }
}

/// What of the record of an image its hash is taken of.
#[derive(Debug)]
pub struct Fingerprint {
    pub image_version: String,
    pub compiler_version: String,
    pub runtime_abi: String,
    pub source: SourceIdentity,
    pub architecture: TextArchitecture,
    pub segments: Vec<Segment>,
    pub tensor_table: Vec<TensorEntry>,
    pub alias_table: Vec<AliasEntry>,
    pub residency_plan: ResidencyPlan,
}

/// A fingerprint in contracts.
#[verifier::ext_equal]
pub struct FingerprintView {
    pub image_version: Seq<char>,
    pub compiler_version: Seq<char>,
    pub runtime_abi: Seq<char>,
    pub source: IdentityView,
    pub architecture: ArchitectureView,
    pub segments: Seq<SegmentView>,
    pub tensor_table: Seq<EntryView>,
    pub alias_table: Seq<AliasView>,
    pub residency_plan: ResidencyPlan,
}

impl Fingerprint {
    pub open spec fn view(&self) -> FingerprintView {
        FingerprintView {
            image_version: self.image_version@,
            compiler_version: self.compiler_version@,
            runtime_abi: self.runtime_abi@,
            source: self.source@,
            architecture: self.architecture@,
            segments: segment_views(self.segments@),
            tensor_table: entry_views(self.tensor_table@),
            alias_table: alias_views(self.alias_table@),
            residency_plan: self.residency_plan,
        }
    }
}

/// The parts of a record that say what the image is. How it came about, and its
/// hash, are left out.
pub open spec fn fingerprint_of(m: ManifestView) -> FingerprintView {
    FingerprintView {
        image_version: m.image_version,
        compiler_version: m.compiler_version,
        runtime_abi: m.runtime_abi,
        source: m.source,
        architecture: m.architecture,
        segments: m.segments,
        tensor_table: m.tensor_table,
        alias_table: m.alias_table,
        residency_plan: m.residency_plan,
    }
}

/// A copy of a list of segments.
pub fn copy_segments(segments: &Vec<Segment>) -> (r: Vec<Segment>)
    ensures
        segment_views(r@) == segment_views(segments@),
{
    let mut r: Vec<Segment> = Vec::new();
    let mut i: usize = 0;
    while i < segments.len()
        invariant
            i <= segments@.len(),
            r@.len() == i,
            forall|j: int| 0 <= j < i ==> (#[trigger] r@[j])@ == segments@[j]@,
        decreases segments@.len() - i,
    {
        r.push(segments[i].copy());
        i = i + 1;
    }
    assert(segment_views(r@) =~= segment_views(segments@));
    r
}

/// A copy of a list of tensor entries.
pub fn copy_entries(entries: &Vec<TensorEntry>) -> (r: Vec<TensorEntry>)
    ensures
        entry_views(r@) == entry_views(entries@),
{
    let mut r: Vec<TensorEntry> = Vec::new();
    let mut i: usize = 0;
    while i < entries.len()
        invariant
            i <= entries@.len(),
            r@.len() == i,
            forall|j: int| 0 <= j < i ==> (#[trigger] r@[j])@ == entries@[j]@,
        decreases entries@.len() - i,
    {
        r.push(entries[i].copy());
        i = i + 1;
    }
    assert(entry_views(r@) =~= entry_views(entries@));
    r
}

/// A copy of a list of aliases.
pub fn copy_aliases(aliases: &Vec<AliasEntry>) -> (r: Vec<AliasEntry>)
    ensures
        alias_views(r@) == alias_views(aliases@),
{
    let mut r: Vec<AliasEntry> = Vec::new();
    let mut i: usize = 0;
    while i < aliases.len()
        invariant
            i <= aliases@.len(),
            r@.len() == i,
            forall|j: int| 0 <= j < i ==> (#[trigger] r@[j])@ == aliases@[j]@,
        decreases aliases@.len() - i,
    {
        r.push(aliases[i].copy());
        i = i + 1;
    }
    assert(alias_views(r@) =~= alias_views(aliases@));
    r
}

/// What the hash of an image is taken of.
pub fn fingerprint(m: &Manifest) -> (r: Fingerprint)
    ensures
        r@ == fingerprint_of(m@),
{
    Fingerprint {
        image_version: m.image_version.clone(),
        compiler_version: m.compiler_version.clone(),
        runtime_abi: m.runtime_abi.clone(),
        source: m.source.copy(),
        architecture: m.architecture.copy(),
        segments: copy_segments(&m.segments),
        tensor_table: copy_entries(&m.tensor_table),
        alias_table: copy_aliases(&m.alias_table),
        residency_plan: m.residency_plan,
    }
}

/// Whether two records say the same of what the image is.
pub open spec fn same_image(a: ManifestView, b: ManifestView) -> bool {
    &&& a.image_version == b.image_version
    &&& a.compiler_version == b.compiler_version
    &&& a.runtime_abi == b.runtime_abi
    &&& a.source == b.source
    &&& a.architecture == b.architecture
    &&& a.segments == b.segments
    &&& a.tensor_table == b.tensor_table
    &&& a.alias_table == b.alias_table
    &&& a.residency_plan == b.residency_plan
}

/// Records have the same fingerprint exactly where they say the same of what the
/// image is, whatever else they say.
pub proof fn law_fingerprint_is_of_the_image(a: ManifestView, b: ManifestView)
    ensures
        fingerprint_of(a) == fingerprint_of(b) <==> same_image(a, b),
{
}

/// The fingerprint holds what the record says of the image, each part in its own place.
pub proof fn law_fingerprint_holds_the_record(m: &Manifest, r: Fingerprint)
    requires
        call_ensures(fingerprint, (m,), r),
    ensures
        r@.image_version == m.image_version@,
        r@.compiler_version == m.compiler_version@,
        r@.runtime_abi == m.runtime_abi@,
        r@.source == m.source@,
        r@.architecture == m.architecture@,
        r@.segments.len() == m.segments@.len(),
        forall|i: int| 0 <= i < m.segments@.len() ==> #[trigger] r@.segments[i] == m.segments@[i]@,
        r@.tensor_table.len() == m.tensor_table@.len(),
        forall|i: int|
            0 <= i < m.tensor_table@.len() ==> #[trigger] r@.tensor_table[i] == m.tensor_table@[i]@,
        r@.alias_table.len() == m.alias_table@.len(),
        forall|i: int|
            0 <= i < m.alias_table@.len() ==> #[trigger] r@.alias_table[i] == m.alias_table@[i]@,
        r@.residency_plan == m.residency_plan,
{
}

} // verus!
