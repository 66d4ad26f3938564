//! Why a runtime turns an executable away.

use vstd::prelude::*;

verus! {

/// Why a runtime turns an executable away.
#[derive(Debug)]
pub enum ExecutableAdmissionError {
    InvalidSeal,
    UnsupportedFormatVersion,
    MissingTargetProfile,
    IncompatibleHardwareProfile,
    IncompatibleRuntimeProfile,
    MissingRequiredFeature(String),
    ArtifactHashMismatch,
    ContentObjectHashMismatch,
    MissingProgramVariant,
    ArenaPlanUnsatisfied,
    ResidencyPlanUnsatisfied,
    KvPlanUnsatisfied,
    CoreMlArtifactUnavailable,
    MetalPipelineUnavailable,
    AccelerateArtifactUnavailable,
    StateDomainUnavailable,
}

} // verus!
