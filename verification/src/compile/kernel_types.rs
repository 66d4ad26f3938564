//! What is handed to kernels and what they hand back.

use vstd::prelude::*;

verus! {

/// The parameters of a projection kernel.
#[derive(Debug, Clone, Copy)]
pub struct ProjectionParams {
    pub in_dim: u32,
    pub out_dim: u32,
    pub page_count: u32,
    pub page_width: u32,
    pub mode_flags: u32,
    pub probe_seed: u32,
    pub reserved: [u32; 5],
}

/// What is known of a dispatch.
#[derive(Debug, Clone, Copy, PartialEq, Eq, Structural)]
pub struct KernelReceipt {
    pub kernel_id: u32,
    pub phase_id: u32,
    pub page_count: u32,
    pub sidecar_hits: u32,
    pub sidecar_entries_read: u32,
    pub threadgroups: u32,
    pub threads_per_threadgroup: u32,
    pub output_elements: u32,
    pub flags: u32,
    pub pad: u32,
    pub logical_weight_bytes: u64,
    pub logical_sidecar_bytes: u64,
    pub logical_activation_bytes: u64,
}

impl Default for KernelReceipt {
    fn default() -> (r: Self)
        ensures
            r == no_receipt(),
    {
        KernelReceipt {
            kernel_id: 0,
            phase_id: 0,
            page_count: 0,
            sidecar_hits: 0,
            sidecar_entries_read: 0,
            threadgroups: 0,
            threads_per_threadgroup: 0,
            output_elements: 0,
            flags: 0,
            pad: 0,
            logical_weight_bytes: 0,
            logical_sidecar_bytes: 0,
            logical_activation_bytes: 0,
        }
    }
}

/// The receipt of no dispatch.
pub open spec fn no_receipt() -> KernelReceipt {
    KernelReceipt {
        kernel_id: 0,
        phase_id: 0,
        page_count: 0,
        sidecar_hits: 0,
        sidecar_entries_read: 0,
        threadgroups: 0,
        threads_per_threadgroup: 0,
        output_elements: 0,
        flags: 0,
        pad: 0,
        logical_weight_bytes: 0,
        logical_sidecar_bytes: 0,
        logical_activation_bytes: 0,
    }
}

} // verus!
