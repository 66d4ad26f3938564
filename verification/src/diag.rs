//! Diagnostics, checks and publishing of images.

pub use crate::compile::authority::{image_build_attestation, verify_image_build_profile};
pub use crate::compile::diagnostics::{
    DiagnosticIssue, DiagnosticReport, GlobalDiagnostic, LayerDiagnostic,
};
pub use crate::compile::emit::compute_manifest_hash;
pub use crate::compile::publish::publish_image;
pub use crate::compile::receipt::build_compile_receipt;
