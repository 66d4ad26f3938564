//! Dispatchers of kernels on the HIP runtime.
//!
//! A dispatcher holds the shared registry of kernels and the name of its own.
//! No kernel is launched yet: a dispatch leaves everything as it is.

use parking_lot::Mutex;
use std::sync::Arc;
use vstd::prelude::*;

verus! {

/// The mutex of `parking_lot`, which is an alias of this type. Nothing is said
/// of what it guards.
#[verifier::external_type_specification]
#[verifier::external_body]
#[verifier::reject_recursive_types(R)]
#[verifier::reject_recursive_types(T)]
pub struct ExMutex<R, T: ?Sized>(parking_lot::lock_api::Mutex<R, T>);

/// The lock inside the mutex of `parking_lot`. Nothing is said of its state.
#[verifier::external_type_specification]
#[verifier::external_body]
pub struct ExRawMutex(parking_lot::RawMutex);

/// A queue of work on the device.
#[derive(Debug, Clone, Copy)]
pub struct Stream;

/// Memory of the device.
#[derive(Debug, Clone, Copy)]
pub struct Buffer;

/// The kernels that were loaded.
#[derive(Debug, Clone, Copy)]
pub struct HipKernelRegistry;

/// The registry, shared between the dispatchers.
pub type RegistryRef = Arc<Mutex<HipKernelRegistry>>;

/// Multiplies a matrix of 8-bit blocks, 32 elements with one scale each, by a
/// vector.
#[allow(non_camel_case_types)]
pub struct Q8_0GemvDispatcher {
    pub registry: RegistryRef,
    pub kernel_name: &'static str,
}

impl Q8_0GemvDispatcher {
    pub fn new(registry: RegistryRef) -> (r: Self)
        ensures
            r.registry == registry,
            r.kernel_name@ == "gemv_q8_0"@,
    {
        Q8_0GemvDispatcher { registry, kernel_name: "gemv_q8_0" }
    }

    /// Launches the kernel on a stream.
    pub fn dispatch(
        &self,
        _stream: &Stream,
        _weights: &Buffer,
        _input: &Buffer,
        _output: &Buffer,
        _in_dim: u32,
        _out_dim: u32,
    ) {
    }
}

/// Multiplies a matrix of 4-bit blocks of 256 elements by a vector.
#[allow(non_camel_case_types)]
pub struct Q4_KGemvDispatcher {
    pub registry: RegistryRef,
    pub kernel_name: &'static str,
}

impl Q4_KGemvDispatcher {
    pub fn new(registry: RegistryRef) -> (r: Self)
        ensures
            r.registry == registry,
            r.kernel_name@ == "gemv_q4_k"@,
    {
        Q4_KGemvDispatcher { registry, kernel_name: "gemv_q4_k" }
    }

    /// Launches the kernel on a stream.
    pub fn dispatch(
        &self,
        _stream: &Stream,
        _weights: &Buffer,
        _input: &Buffer,
        _output: &Buffer,
        _in_dim: u32,
        _out_dim: u32,
    ) {
    }
}

/// Multiplies a matrix of 2-bit blocks of 256 elements by a vector.
#[allow(non_camel_case_types)]
pub struct Q2_KGemvDispatcher {
    pub registry: RegistryRef,
    pub kernel_name: &'static str,
}

impl Q2_KGemvDispatcher {
    pub fn new(registry: RegistryRef) -> (r: Self)
        ensures
            r.registry == registry,
            r.kernel_name@ == "gemv_q2_k"@,
    {
        Q2_KGemvDispatcher { registry, kernel_name: "gemv_q2_k" }
    }

    /// Launches the kernel on a stream.
    pub fn dispatch(
        &self,
        _stream: &Stream,
        _weights: &Buffer,
        _input: &Buffer,
        _output: &Buffer,
        _in_dim: u32,
        _out_dim: u32,
    ) {
    }
}

/// Multiplies a matrix of 2-bit entries of a codebook by a vector.
#[allow(non_camel_case_types)]
pub struct IQ2_XXSGemvDispatcher {
    pub registry: RegistryRef,
    pub kernel_name: &'static str,
}

impl IQ2_XXSGemvDispatcher {
    pub fn new(registry: RegistryRef) -> (r: Self)
        ensures
            r.registry == registry,
            r.kernel_name@ == "gemv_iq2_xxs"@,
    {
        IQ2_XXSGemvDispatcher { registry, kernel_name: "gemv_iq2_xxs" }
    }

    /// Launches the kernel on a stream.
    pub fn dispatch(
        &self,
        _stream: &Stream,
        _weights: &Buffer,
        _input: &Buffer,
        _codebook: &Buffer,
        _output: &Buffer,
        _in_dim: u32,
        _out_dim: u32,
    ) {
    }
}

/// Picks the experts of each token.
#[allow(non_camel_case_types)]
pub struct MoeRouterDispatcher {
    pub registry: RegistryRef,
    pub kernel_name: &'static str,
}

impl MoeRouterDispatcher {
    pub fn new(registry: RegistryRef) -> (r: Self)
        ensures
            r.registry == registry,
            r.kernel_name@ == "moe_router"@,
    {
        MoeRouterDispatcher { registry, kernel_name: "moe_router" }
    }

    /// Launches the kernel on a stream.
    pub fn dispatch(
        &self,
        _stream: &Stream,
        _hidden_states: &Buffer,
        _router_weights: &Buffer,
        _expert_indices: &Buffer,
        _expert_scores: &Buffer,
        _num_tokens: u32,
        _num_experts: u32,
        _top_k: u32,
    ) {
    }
}

/// Multiplies by the weights of the experts that were picked.
#[allow(non_camel_case_types)]
pub struct MoeSparseMatmulDispatcher {
    pub registry: RegistryRef,
    pub kernel_name: &'static str,
}

impl MoeSparseMatmulDispatcher {
    pub fn new(registry: RegistryRef) -> (r: Self)
        ensures
            r.registry == registry,
            r.kernel_name@ == "moe_sparse_matmul"@,
    {
        MoeSparseMatmulDispatcher { registry, kernel_name: "moe_sparse_matmul" }
    }

    /// Launches the kernel on a stream.
    pub fn dispatch(
        &self,
        _stream: &Stream,
        _expert_weights: &Buffer,
        _expert_indices: &Buffer,
        _input: &Buffer,
        _output: &Buffer,
        _hidden_dim: u32,
        _intermediate_dim: u32,
    ) {
    }
}

/// Runs the expert that every token goes through.
#[allow(non_camel_case_types)]
pub struct SharedExpertMlpDispatcher {
    pub registry: RegistryRef,
    pub kernel_name: &'static str,
}

impl SharedExpertMlpDispatcher {
    pub fn new(registry: RegistryRef) -> (r: Self)
        ensures
            r.registry == registry,
            r.kernel_name@ == "shared_expert_mlp"@,
    {
        SharedExpertMlpDispatcher { registry, kernel_name: "shared_expert_mlp" }
    }

    /// Launches the kernel on a stream.
    pub fn dispatch(
        &self,
        _stream: &Stream,
        _gate_weight: &Buffer,
        _up_weight: &Buffer,
        _down_weight: &Buffer,
        _input: &Buffer,
        _output: &Buffer,
        _hidden_dim: u32,
        _intermediate_dim: u32,
    ) {
    }
}

/// Attends to compressed keys and values.
#[allow(non_camel_case_types)]
pub struct CompressedAttentionDispatcher {
    pub registry: RegistryRef,
    pub kernel_name: &'static str,
}

impl CompressedAttentionDispatcher {
    pub fn new(registry: RegistryRef) -> (r: Self)
        ensures
            r.registry == registry,
            r.kernel_name@ == "compressed_attention"@,
    {
        CompressedAttentionDispatcher { registry, kernel_name: "compressed_attention" }
    }

    /// Launches the kernel on a stream.
    pub fn dispatch(
        &self,
        _stream: &Stream,
        _query: &Buffer,
        _key: &Buffer,
        _value: &Buffer,
        _output: &Buffer,
        _num_heads: u32,
        _seq_len: u32,
        _head_dim: u32,
    ) {
    }
}

} // verus!
