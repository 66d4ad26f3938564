//! The slots that kernels find their buffers in.

use vstd::prelude::*;

verus! {

/// Packed weights.
pub const WEIGHTS: u32 = 0;

/// The activations.
pub const INPUT: u32 = 1;

/// The scales of the pages.
pub const PAGE_SCALES: u32 = 2;

/// The scales of the lanes.
pub const CHANNEL_SCALES: u32 = 3;

/// Outliers beside the weights.
pub const SIDECAR: u32 = 4;

/// Where the outliers of a page begin.
pub const SIDECAR_OFFSETS: u32 = 5;

/// The result.
pub const OUTPUT: u32 = 6;

/// The parameters.
pub const PARAMS: u32 = 7;

/// The receipt that the kernel fills.
pub const RECEIPT: u32 = 8;

/// Records of errors.
pub const ERROR_PARTIALS: u32 = 9;

/// Records of probes.
pub const PROBE_OUTPUT: u32 = 10;

/// Scores of pages.
pub const PAGE_SCORES: u32 = 11;

/// The arena of activations.
pub const ACTIVATION_ARENA: u32 = 12;

/// What lies where in the arena.
pub const ARENA_DESCRIPTORS: u32 = 13;

/// The slots in the order of their numbers.
pub open spec fn in_order() -> Seq<u32> {
    seq![
        WEIGHTS,
        INPUT,
        PAGE_SCALES,
        CHANNEL_SCALES,
        SIDECAR,
        SIDECAR_OFFSETS,
        OUTPUT,
        PARAMS,
        RECEIPT,
        ERROR_PARTIALS,
        PROBE_OUTPUT,
        PAGE_SCORES,
        ACTIVATION_ARENA,
        ARENA_DESCRIPTORS,
    ]
}

/// Every buffer has a slot of its own, numbered from zero without a gap.
pub proof fn law_slots_are_numbered_apart(i: int)
    requires
        0 <= i < in_order().len(),
    ensures
        in_order().len() == 14,
        in_order()[i] == i,
{
}

} // verus!
