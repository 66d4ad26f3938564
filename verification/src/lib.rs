//! Compilation of model weights into sealed compute images.

pub mod compile;
pub mod compile_hw;
pub mod compile_tensix;
pub mod compute_ir;
pub mod config;
pub mod content_store;
pub mod diag;
pub mod digest;
pub mod executable;
pub mod float_bits;
pub mod hashing;
pub mod image;
pub mod integration;
pub mod json;
pub mod manifest;
pub mod numeral;
pub mod order;
pub mod table;
pub mod tensix;
pub mod text;
pub mod wire;
