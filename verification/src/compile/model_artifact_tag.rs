//! Type tags for ModelArtifacts segment entries.

use vstd::prelude::*;

verus! {

/// SentencePiece .model proto
pub const TOKENIZER: u32 = 0x01;

/// Multimodal special token map (JSON)
pub const TOKEN_MAP: u32 = 0x04;

/// Chat prompt template string
pub const CHAT_TEMPLATE: u32 = 0x05;

/// Sampling params (JSON)
pub const GENERATION_CONFIG: u32 = 0x06;

/// Ternary-packed embedding table (nibbles reordered by cluster)
pub const EMBED_NIBBLES: u32 = 0x10;

/// FP16 block scales for the embedding table
pub const EMBED_SCALES: u32 = 0x11;

/// Ternary-packed centroid table (256 centroids x hidden_dim)
pub const CENTROID_NIBBLES: u32 = 0x12;

/// FP16 block scales for centroids
pub const CENTROID_SCALES: u32 = 0x13;

/// u32 cluster assignments (vocab_size entries)
pub const CLUSTER_MAP: u32 = 0x14;

/// FP16 per-layer RMSNorm weights (all layers x [input, post_attn] x hidden_dim)
pub const AUX_NORMS: u32 = 0x15;

} // verus!
