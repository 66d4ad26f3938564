//! A store of immutable objects that are found by the hash of their content.

pub mod aliases;
pub mod index;
pub mod integrity;
pub mod mmap;
pub mod packing;
pub mod segment;

pub use aliases::{AliasKind, ContentAliasEntry, ContentDedupTable, DedupEntry};
pub use index::{
    ArtifactConsumerRef, ContentAddressedContentStore, ContentObjectEntry, ContentObjectId,
    ContentObjectKind, ContentStoreVersion, ImmutableSegment, QuantizationDescriptor,
    ResidencyClass, SegmentId, TargetLayoutId, TensorDType, TensorShape, TensorStrides,
};
pub use integrity::{IntegrityRecord, IntegrityResult, IntegrityVerifier};
pub use mmap::{MappedSegment, MmapLoadError, MmapLoader, MmapRegion};
pub use packing::{InterleaveConfig, PackingPolicy, PackingResult, PaddingMode};
pub use segment::{
    DeterministicSegmentWriter, SegmentIndex, SegmentIndexEntry, SegmentWriteReceipt,
};
