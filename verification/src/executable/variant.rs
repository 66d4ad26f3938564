//! Programs for inputs of bounded size.

use vstd::prelude::*;

use crate::integration::ContentHash;

verus! {

pub type ShapeSpecializedVariantId = String;

/// A program for inputs of bounded size.
#[derive(Debug)]
pub struct ShapeSpecializedProgram {
    pub variant_id: ShapeSpecializedVariantId,
    pub shape_profile: ShapeProfile,
    pub phase_program: SerializedPhaseProgram,
    pub program_hash: ContentHash,
}

/// A program of phases, as it is stored.
#[derive(Debug)]
pub struct SerializedPhaseProgram {
    pub payload: Vec<u8>,
}

/// The sizes that a program is made for.
#[derive(Debug)]
pub struct ShapeProfile {
    pub max_batch: u32,
    pub max_tokens: u32,
    pub label: String,
}

} // verus!
