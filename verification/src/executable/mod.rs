//! The sealed executable and what it is made of.

pub mod admission;
pub mod profile;
pub mod provenance;
pub mod receipt;
pub mod schema;
pub mod seal;
pub mod variant;

pub use admission::ExecutableAdmissionError;
pub use profile::{
    CompiledResidencyPlan, DefaultVariantSelection, ExecutableTargetProfile,
    HardwareTargetContract, RuntimeTargetContract, TargetProfileId,
};
pub use provenance::CompilerProvenance;
pub use receipt::{ExecutableCompilationReceipt, ReceiptId};
pub use schema::{
    CompileTimeReceiptBundle, ExecutableFormatVersion, KernelSelectionReceipt, ModelIdentity,
    NumericalVerificationReceipt, PhaseGraphVerificationReceipt, ResidencyVerificationReceipt,
    ResourceFitReceipt, SealedComputeImageExecutable,
};
pub use seal::{ExecutableSeal, ExecutableSignature};
pub use variant::{
    SerializedPhaseProgram, ShapeProfile, ShapeSpecializedProgram, ShapeSpecializedVariantId,
};
