//! The receipt of an executable.

use vstd::prelude::*;

verus! {

pub type ReceiptId = String;

/// What was compiled, and how long it took.
#[derive(Debug)]
pub struct ExecutableCompilationReceipt {
    pub receipt_id: ReceiptId,
    pub model_name: String,
    pub profile_count: u32,
    pub total_weight_bytes: u64,
    pub compilation_duration_ms: u64,
    pub seal_hash: String,
}

} // verus!
