//! The index of a content store and the entries of its objects.

use vstd::prelude::*;

use super::aliases::ContentAliasEntry;
use crate::integration::ContentHash;

verus! {

pub type ContentObjectId = String;

pub type SegmentId = String;

pub type TargetLayoutId = String;

pub type TensorShape = Vec<i64>;

pub type TensorStrides = Vec<i64>;

pub type TensorDType = String;

/// A store with everything in it.
#[derive(Debug)]
pub struct ContentAddressedContentStore {
    pub store_version: ContentStoreVersion,
    pub segments: Vec<ImmutableSegment>,
    pub objects: Vec<ContentObjectEntry>,
    pub aliases: Vec<ContentAliasEntry>,
    pub index_hash: ContentHash,
}

impl Default for ContentAddressedContentStore {
    fn default() -> (r: Self)
        ensures
            r.store_version == (ContentStoreVersion { major: 0, minor: 0 }),
            r.segments@ == Seq::<ImmutableSegment>::empty(),
            r.objects@ == Seq::<ContentObjectEntry>::empty(),
            r.aliases@ == Seq::<ContentAliasEntry>::empty(),
            r.index_hash.0 == 0,
    {
        ContentAddressedContentStore {
            store_version: ContentStoreVersion { major: 0, minor: 0 },
            segments: Vec::new(),
            objects: Vec::new(),
            aliases: Vec::new(),
            index_hash: ContentHash(0),
        }
    }
}

/// The version of the layout of a store.
#[derive(Debug, Clone, Copy, PartialEq, Eq, Structural)]
pub struct ContentStoreVersion {
    pub major: u32,
    pub minor: u32,
}

impl Default for ContentStoreVersion {
    fn default() -> (r: Self)
        ensures
            r == (ContentStoreVersion { major: 0, minor: 0 }),
    {
        ContentStoreVersion { major: 0, minor: 0 }
    }
}

/// A segment that is never written again.
#[derive(Debug)]
pub struct ImmutableSegment {
    pub segment_id: SegmentId,
    pub payload_offset: u64,
    pub payload_length: u64,
    pub alignment: u64,
    pub checksum: ContentHash,
}

/// One object of a store.
#[derive(Debug)]
pub struct ContentObjectEntry {
    pub object_id: ContentObjectId,
    pub content_hash: ContentHash,
    pub object_kind: ContentObjectKind,
    pub target_layout_id: TargetLayoutId,
    pub segment_id: SegmentId,
    pub segment_offset: u64,
    pub payload_bytes: u64,
    pub aligned_bytes: u64,
    pub alignment: u64,
    pub logical_shape: TensorShape,
    pub storage_shape: TensorShape,
    pub physical_strides: TensorStrides,
    pub dtype: TensorDType,
    pub quantization: Option<QuantizationDescriptor>,
    pub checksum: ContentHash,
    pub consumers: Vec<ArtifactConsumerRef>,
    pub residency_class: ResidencyClass,
}

/// What an object is.
#[derive(Debug, Clone, Copy, PartialEq, Eq, Structural)]
pub enum ContentObjectKind {
    CanonicalWeight,
    MetalPackedWeight,
    MetalQuantizationMetadata,
    AcceleratePackedWeight,
    CoreMlPackagePayload,
    TokenizerPayload,
    KernelArtifactPayload,
    PhaseProgramPayload,
    ArenaPlanPayload,
    ResidencyPlanPayload,
    VerificationReceiptPayload,
}

/// Who reads an object.
#[derive(Debug)]
pub struct ArtifactConsumerRef {
    pub artifact_id: String,
    pub artifact_kind: String,
    pub consumer_stage: String,
}

/// How the numbers of an object are quantized.
#[derive(Debug)]
pub struct QuantizationDescriptor {
    pub mode: String,
    pub bits: u8,
    pub group_size: u32,
    /// The bits of the single-precision entries.
    pub codebook_bits: Option<Vec<u32>>,
}

/// When an object has to be in memory.
#[derive(Debug, Clone, Copy, PartialEq, Eq, Structural)]
pub enum ResidencyClass {
    MandatoryAtSessionStart,
    MandatoryBeforePhase,
    PrefetchCandidate,
    ReusablePinned,
    EvictableAfterPhase,
    DiskOnly,
}

} // verus!
