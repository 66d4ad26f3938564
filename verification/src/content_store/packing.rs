//! How weights are packed into a store.

use vstd::prelude::*;

verus! {

/// How a weight is packed.
#[derive(Debug, Clone, Copy)]
pub struct PackingPolicy {
    pub alignment: u64,
    pub interleave_config: Option<InterleaveConfig>,
    pub padding_mode: PaddingMode,
}

/// Blocks that are laid out in turn.
#[derive(Debug, Clone, Copy, PartialEq, Eq, Structural)]
pub struct InterleaveConfig {
    pub block_size: u32,
    pub num_blocks: u32,
}

/// What follows a packed weight.
#[derive(Debug, Clone, Copy, PartialEq, Eq, Structural)]
pub enum PaddingMode {
    AlignToPage,
    AlignTo(u64),
    /// No padding.
    Absent,
}

/// A packed weight.
#[derive(Debug)]
pub struct PackingResult {
    pub packed_bytes: Vec<u8>,
    pub original_bytes: u64,
    pub aligned_bytes: u64,
    pub waste_bytes: u64,
}

} // verus!
