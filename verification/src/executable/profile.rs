//! What an executable asks of the machine and of the runtime.

use vstd::prelude::*;

use super::variant::ShapeSpecializedProgram;
use crate::integration::ContentHash;

verus! {

pub type TargetProfileId = String;

/// One configuration that an executable runs on.
#[derive(Debug)]
pub struct ExecutableTargetProfile {
    pub profile_id: TargetProfileId,
    pub profile_hash: ContentHash,
    pub hardware_contract: HardwareTargetContract,
    pub runtime_contract: RuntimeTargetContract,
    pub shape_variants: Vec<ShapeSpecializedProgram>,
    pub residency_plans: Vec<CompiledResidencyPlan>,
    pub default_variant_selection: DefaultVariantSelection,
}

/// A plan of what is in memory when, as it is stored.
#[derive(Debug)]
pub struct CompiledResidencyPlan {
    pub payload: Vec<u8>,
}

/// What an executable asks of the machine.
#[derive(Debug)]
pub struct HardwareTargetContract {
    pub hardware_family: String,
    pub gpu_core_count: u32,
    pub ane_count: u32,
    pub has_unified_memory: bool,
    pub max_threadgroup_size: u32,
}

/// What an executable asks of the runtime.
#[derive(Debug)]
pub struct RuntimeTargetContract {
    pub min_os_version: String,
    pub feature_flags: Vec<String>,
}

/// The variants that run where nothing else is asked for.
#[derive(Debug)]
pub struct DefaultVariantSelection {
    pub decode_variant_id: String,
    pub prefill_variant_id: String,
}

} // verus!
