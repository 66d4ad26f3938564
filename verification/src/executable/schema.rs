//! The sealed executable.

use vstd::prelude::*;

use super::profile::ExecutableTargetProfile;
use super::provenance::CompilerProvenance;
use super::seal::ExecutableSeal;
use crate::content_store::index::ContentAddressedContentStore;
use crate::integration::ContentHash;

verus! {

/// A model, compiled for its targets, with its receipts and its seal.
#[derive(Debug)]
pub struct SealedComputeImageExecutable {
    pub executable_version: ExecutableFormatVersion,
    pub model_identity: ModelIdentity,
    pub model_graph_hash: ContentHash,
    pub tokenizer_hash: ContentHash,
    pub content_store: ContentAddressedContentStore,
    pub target_profiles: Vec<ExecutableTargetProfile>,
    pub executable_seal: ExecutableSeal,
    pub compile_time_receipts: CompileTimeReceiptBundle,
    pub compiler_provenance: CompilerProvenance,
}

/// The version of the format.
#[derive(Debug, Clone, Copy, PartialEq, Eq, Structural)]
pub struct ExecutableFormatVersion {
    pub major: u32,
    pub minor: u32,
    pub patch: u32,
}

/// Which model it is.
#[derive(Debug)]
pub struct ModelIdentity {
    pub model_name: String,
    pub model_family: String,
    pub model_variant: String,
    pub canonical_graph_hash: ContentHash,
}

/// What was checked at compile time.
#[derive(Debug)]
pub struct CompileTimeReceiptBundle {
    pub numerical_receipts: Vec<NumericalVerificationReceipt>,
    pub resource_fit_receipts: Vec<ResourceFitReceipt>,
    pub phase_graph_receipts: Vec<PhaseGraphVerificationReceipt>,
    pub residency_receipts: Vec<ResidencyVerificationReceipt>,
    pub artifact_selection_receipts: Vec<KernelSelectionReceipt>,
    pub bundle_hash: ContentHash,
}

/// How far an artifact is from its reference. The three measures are the bits
/// of double-precision numbers.
#[derive(Debug)]
pub struct NumericalVerificationReceipt {
    pub artifact_identity: String,
    pub reference_graph_hash: ContentHash,
    pub max_abs_error_bits: u64,
    pub max_rel_error_bits: u64,
    pub cosine_similarity_bits: u64,
    pub passed: bool,
}

/// Whether an artifact fits its resources.
#[derive(Debug)]
pub struct ResourceFitReceipt {
    pub artifact_identity: String,
    pub resource_fit_ok: bool,
    pub peak_memory_bytes: u64,
}

/// Whether a graph of phases holds together.
#[derive(Debug)]
pub struct PhaseGraphVerificationReceipt {
    pub artifact_identity: String,
    pub phase_count: u32,
    pub edge_count: u32,
    pub graph_valid: bool,
}

/// Whether the weights can be resident.
#[derive(Debug)]
pub struct ResidencyVerificationReceipt {
    pub artifact_identity: String,
    pub residency_ok: bool,
    pub total_weight_bytes: u64,
}

/// Which kernel was selected.
#[derive(Debug)]
pub struct KernelSelectionReceipt {
    pub artifact_identity: String,
    pub selected_kernel_id: String,
    pub candidate_count: u32,
    pub selection_valid: bool,
}

} // verus!
