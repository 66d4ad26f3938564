//! The compilation pipeline: packing, image layout and device dispatch.

pub mod ane_program;
pub mod authority;
pub mod buffer_slot;
pub mod coreml;
pub mod diagnostics;
pub mod differential;
pub mod draft_loader;
pub mod emission;
pub mod emit;
pub mod execution_graph;
pub mod gguf_source;
pub mod gpu_pack;
pub mod hip_dispatch;
pub mod int4_pack;
pub mod kernel_artifacts;
pub mod kernel_dispatch;
pub mod kernel_registry;
pub mod kernel_types;
pub mod matrix_binding;
pub mod model_artifact_tag;
pub mod pipeline;
pub mod publish;
pub mod quantize;
pub mod receipt;
pub mod recorded;
pub mod safetensors_file;
pub mod source;
pub mod swizzle;
pub mod ternary;
pub mod validation_data;
pub mod validation_matrix;
