//! Where an image comes from.

use vstd::prelude::*;

verus! {

/// What compiled an image, when, and from what.
#[derive(Debug)]
pub struct CompilerProvenance {
    pub compiler_name: String,
    pub compiler_version: String,
    pub compilation_timestamp: String,
    pub source_model_hash: String,
    pub target_profile_ids: Vec<String>,
}

} // verus!
