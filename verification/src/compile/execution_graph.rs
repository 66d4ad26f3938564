//! Execution graph descriptor: per-layer DAG encoded in the cimage.
//!
//! The execution graph is a self-describing binary blob (segment 24)
//! that the runtime reads to understand the model's compute structure
//! without parsing config.json or reverse-engineering tensor names.

use vstd::prelude::*;
use vstd::string::*;

use crate::text;
use crate::wire;

verus! {

/// Magic bytes: "PRMEXEC1"
pub const EXECUTION_GRAPH_MAGIC: [u8; 8] = [80, 82, 77, 69, 88, 69, 67, 49];

/// Declares the per-element encoding of sidecar data payloads.
#[derive(Clone, Copy, Debug, PartialEq, Eq, Structural)]
pub enum SidecarElementFormat {
    Absent,
    F16,
    F32,
}

impl Default for SidecarElementFormat {
    fn default() -> (r: Self)
        ensures
            r == SidecarElementFormat::Absent,
    {
        SidecarElementFormat::Absent
    }
}

/// Declares the logical role of sidecar data.
#[derive(Clone, Copy, Debug, PartialEq, Eq, Structural)]
pub enum SidecarKind {
    Absent,
    ReductionAxisScale,
}

impl Default for SidecarKind {
    fn default() -> (r: Self)
        ensures
            r == SidecarKind::Absent,
    {
        SidecarKind::Absent
    }
}

/// Bytes per sidecar element.
pub open spec fn sidecar_element_size(fmt: SidecarElementFormat) -> int {
    match fmt {
        SidecarElementFormat::Absent => 0,
        SidecarElementFormat::F16 => 2,
        SidecarElementFormat::F32 => 4,
    }
}

/// Compute the byte length of a sidecar payload from its declared element format.
/// A 32-bit count never overflows a 64-bit length.
pub fn sidecar_byte_len(count: u32, fmt: SidecarElementFormat) -> (r: Option<u64>)
    ensures
        r matches Some(n) && n == count * sidecar_element_size(fmt),
{
    let element_size: u64 = match fmt {
        SidecarElementFormat::Absent => 0,
        SidecarElementFormat::F16 => 2,
        SidecarElementFormat::F32 => 4,
    };
    proof {
        assert(0 <= count * element_size <= 0xFFFF_FFFF * 4) by (nonlinear_arith)
            requires
                0 <= count <= 0xFFFF_FFFF,
                0 <= element_size <= 4,
        ;
    }
    (count as u64).checked_mul(element_size)
}

/// Per-matrix weight binding: the full contract between the compiler's
/// packing pass and every runtime dispatch path.
///
/// Each matrix gets its own binding after the admission pipeline selects a
/// format. Offsets are independent per segment so changing one matrix's
/// format never shifts another's address.
#[derive(Clone, Copy, Debug)]
pub struct MatrixWeightBinding {
    /// Byte offset into weights_segment for this matrix's codes.
    pub weights_offset: u64,
    /// Byte length of codes data in weights_segment.
    pub weights_bytes: u64,
    /// Byte offset into tile_metadata_segment for this matrix's tile metadata.
    pub tile_metadata_offset: u64,
    /// Byte length of tile metadata data.
    pub tile_metadata_bytes: u64,
    /// Byte offset into sidecar_segment for reduction scales (0 = no sidecar).
    /// Sentinel: sidecar_kind == Absent means no sidecar (offset may be 0).
    pub sidecar_offset: u64,
    /// Number of sidecar values (element count, not bytes).
    pub sidecar_count: u32,
    /// Index into the bindings array.
    pub matrix_id: u32,
    /// RuntimeRepresentationClass discriminant.
    pub format: u8,
    /// SegmentKind value for the packed codes.
    pub weights_segment: u8,
    /// SegmentKind value for tile metadata (scales + biases).
    pub tile_metadata_segment: u8,
    /// SegmentKind value for the reduction-axis sidecar (0xFF = none).
    pub sidecar_segment: u8,
    /// Logical role of the sidecar data (SidecarKind discriminant).
    pub sidecar_kind: u8,
    /// Per-element encoding format (SidecarElementFormat discriminant).
    pub sidecar_element_format: u8,
    pub _pad: [u8; 3],
    /// Logical matrix dimensions.
    pub rows: u32,
    pub cols: u32,
    /// Tile columns per row of this matrix.
    pub tiles_per_row: u32,
}

impl Default for MatrixWeightBinding {
    fn default() -> (r: Self)
        ensures
            r == (MatrixWeightBinding {
                weights_offset: 0,
                weights_bytes: 0,
                tile_metadata_offset: 0,
                tile_metadata_bytes: 0,
                sidecar_offset: 0,
                sidecar_count: 0,
                matrix_id: 0,
                format: 0,
                weights_segment: 0,
                tile_metadata_segment: 0,
                sidecar_segment: 0,
                sidecar_kind: 0,
                sidecar_element_format: 0,
                _pad: [0u8, 0, 0],
                rows: 0,
                cols: 0,
                tiles_per_row: 0,
            }),
    {
        MatrixWeightBinding {
            weights_offset: 0,
            weights_bytes: 0,
            tile_metadata_offset: 0,
            tile_metadata_bytes: 0,
            sidecar_offset: 0,
            sidecar_count: 0,
            matrix_id: 0,
            format: 0,
            weights_segment: 0,
            tile_metadata_segment: 0,
            sidecar_segment: 0,
            sidecar_kind: 0,
            sidecar_element_format: 0,
            _pad: [0u8, 0, 0],
            rows: 0,
            cols: 0,
            tiles_per_row: 0,
        }
    }
}

/// Attention type for a decoder layer.
#[derive(Clone, Copy, Debug, PartialEq, Eq, Structural)]
pub enum AttentionKind {
    SlidingWindow,
    FullAttention,
}

/// Which backends a layer can execute on.
#[derive(Clone, Copy, Debug, PartialEq, Eq, Structural)]
pub enum DeviceCapability {
    Absent,
    Gpu,
    Ane,
    Both,
}

/// Kind of execution node in the graph.
#[derive(Clone, Copy, Debug, PartialEq, Eq, Structural)]
pub enum NodeKind {
    /// Standard decoder transformer layer
    DecoderLayer,
    /// Vision patch embedding (patch_dense projection)
    VisionPatchEmbed,
    /// Vision final projection into decoder space (embedding_projection)
    VisionFinalProjection,
    /// Audio frame embedding
    AudioFrameEmbed,
    /// Audio projection into decoder space
    AudioProjection,
    /// Embedding assembly: merge text + vision + audio + position
    EmbeddingAssembly,
    /// MTP draft decoder layer
    DraftLayer,
    /// MTP pre-projection: draft hidden to main hidden
    DraftPreProjection,
    /// MTP post-projection: main hidden to draft hidden
    DraftPostProjection,
}

/// Per-layer execution node in the decoder DAG: 48 bytes.
#[derive(Clone, Copy, Debug)]
pub struct LayerExecutionNode {
    /// NodeKind discriminant.
    pub node_kind: u8,
    /// SWA or Full attention.
    pub attention_kind: u8,
    /// DeviceCapability.
    pub device_capability: u8,
    /// Compaction epoch index (0xFF = none).
    pub compaction_epoch: u8,
    /// Layer index (0..num_layers-1 for decoder/draft layers).
    pub layer_index: u32,
    /// Head dimension for this layer.
    pub head_dim: u16,
    /// Number of attention heads.
    pub num_heads: u16,
    /// Hidden dimension for this node.
    pub hidden_dim: u32,
    /// Offset into TernaryWeights segment for this layer's weights.
    pub weight_offset: u64,
    /// Length of ternary weight nibbles for this layer.
    pub weight_length: u64,
    /// Offset into BlockScales segment for this layer's scales.
    pub scale_offset: u64,
    /// Reserved padding to reach 48 bytes.
    pub _reserved: [u8; 8],
}

/// A KV compaction epoch: compresses KV cache at a layer boundary.
#[derive(Clone, Copy, Debug)]
pub struct CompactionEpoch {
    /// Epoch index (0..num_epochs-1).
    pub epoch_index: u8,
    /// Which layer triggers this compaction (KV written after this layer).
    pub trigger_layer: u8,
    /// Number of compression tiers (1=uniform, 3=progressive).
    pub tier_count: u8,
    /// Reserved padding.
    pub _pad: u8,
    /// Compression ratio per tier as numerator (ratio = ratio/256).
    /// e.g. 85 = ~3:1, 51 = ~5:1, 25 = ~10:1.
    pub compression_ratio: [u8; 4],
    /// Token count boundaries between tiers.
    /// Tier 0: 0..tier_boundary[0], Tier 1: tier_boundary[0]..tier_boundary[1],
    /// Tier 2: tier_boundary[1]..
    pub tier_boundaries: [u32; 3],
    /// Access count threshold for adaptive policy (0 = disabled).
    pub access_threshold: u16,
}

/// Reference to the MTP draft decoder sub-graph.
#[derive(Clone, Copy, Debug, PartialEq, Eq, Structural)]
pub struct DraftSubGraph {
    /// Number of layers in the draft decoder.
    pub num_layers: u32,
    /// Hidden dimension of the draft decoder.
    pub hidden_dim: u32,
    /// Offset into TernaryWeights segment for draft weights.
    pub weight_offset: u64,
    /// Length of draft ternary weights.
    pub weight_length: u64,
    /// Offset into BlockScales segment for draft scales.
    pub scale_offset: u64,
    /// Length of draft block scales.
    pub scale_length: u64,
    /// Pre-projection weight offset (draft hidden to main hidden, or 0 if none).
    pub pre_proj_offset: u64,
    /// Post-projection weight offset (main hidden to draft hidden, or 0 if none).
    pub post_proj_offset: u64,
}

/// Complete execution graph descriptor.
#[derive(Clone, Debug)]
pub struct ExecutionGraphDescriptor {
    pub magic: [u8; 8],
    pub version: u16,
    pub num_layers: u16,
    pub num_draft_layers: u16,
    pub num_compaction_epochs: u16,
    pub node_count: u32,
    pub _pad: [u8; 2],
    /// Per-layer execution nodes (num_layers entries).
    pub layers: Vec<LayerExecutionNode>,
    /// Compaction epochs (num_compaction_epochs entries).
    pub compaction_epochs: Vec<CompactionEpoch>,
    /// Draft sub-graph reference (None if no draft model).
    pub draft_sub_graph: Option<DraftSubGraph>,
}

impl LayerExecutionNode {
    /// The 48 bytes of the record's fields.
    pub open spec fn bytes(self) -> Seq<u8> {
        wire::le_bytes(self.node_kind as nat, 1)
            + wire::le_bytes(self.attention_kind as nat, 1)
            + wire::le_bytes(self.device_capability as nat, 1)
            + wire::le_bytes(self.compaction_epoch as nat, 1)
            + wire::le_bytes(self.layer_index as nat, 4)
            + wire::le_bytes(self.head_dim as nat, 2)
            + wire::le_bytes(self.num_heads as nat, 2)
            + wire::le_bytes(self.hidden_dim as nat, 4)
            + wire::le_bytes(self.weight_offset as nat, 8)
            + wire::le_bytes(self.weight_length as nat, 8)
            + wire::le_bytes(self.scale_offset as nat, 8)
            + self._reserved@
    }

    fn write_le(&self, out: &mut Vec<u8>)
        ensures
            final(out)@ == old(out)@ + self.bytes(),
    {
        let ghost start = out@;
        wire::push_le(out, self.node_kind as u64, 1);
        wire::push_le(out, self.attention_kind as u64, 1);
        wire::push_le(out, self.device_capability as u64, 1);
        wire::push_le(out, self.compaction_epoch as u64, 1);
        wire::push_le(out, self.layer_index as u64, 4);
        wire::push_le(out, self.head_dim as u64, 2);
        wire::push_le(out, self.num_heads as u64, 2);
        wire::push_le(out, self.hidden_dim as u64, 4);
        wire::push_le(out, self.weight_offset, 8);
        wire::push_le(out, self.weight_length, 8);
        wire::push_le(out, self.scale_offset, 8);
        out.extend_from_slice(self._reserved.as_slice());
        assert(out@ =~= start + self.bytes());
    }

    fn read_le(data: &[u8], at: usize) -> (r: Self)
        requires
            at + 48 <= data.len(),
        ensures
            r.bytes() == data@.subrange(at as int, at + 48),
    {
        proof {
            wire::lemma_byte_ranges();
        }
        let node_kind: u8 = wire::field(data, at, at + 0, 1) as u8;
        let attention_kind: u8 = wire::field(data, at, at + 1, 1) as u8;
        let device_capability: u8 = wire::field(data, at, at + 2, 1) as u8;
        let compaction_epoch: u8 = wire::field(data, at, at + 3, 1) as u8;
        let layer_index: u32 = wire::field(data, at, at + 4, 4) as u32;
        let head_dim: u16 = wire::field(data, at, at + 8, 2) as u16;
        let num_heads: u16 = wire::field(data, at, at + 10, 2) as u16;
        let hidden_dim: u32 = wire::field(data, at, at + 12, 4) as u32;
        let weight_offset: u64 = wire::field(data, at, at + 16, 8);
        let weight_length: u64 = wire::field(data, at, at + 24, 8);
        let scale_offset: u64 = wire::field(data, at, at + 32, 8);
        let _reserved: [u8; 8] = wire::take8(data, at + 40);
        assert(data@.subrange(at as int, at + 48) =~= data@.subrange(at as int, at + 40) + _reserved@);
        let r: LayerExecutionNode = LayerExecutionNode {
            node_kind,
            attention_kind,
            device_capability,
            compaction_epoch,
            layer_index,
            head_dim,
            num_heads,
            hidden_dim,
            weight_offset,
            weight_length,
            scale_offset,
            _reserved,
        };
        assert(data@.subrange(at as int, at as int) =~= Seq::<u8>::empty());
        assert(r.bytes() =~= data@.subrange(at as int, at + 48));
        r
    }
}

proof fn lemma_node_fields(r: LayerExecutionNode)
    ensures
        r.bytes().len() == 48,
        r.bytes().subrange(0, 1) == wire::le_bytes(r.node_kind as nat, 1),
        r.bytes().subrange(1, 2) == wire::le_bytes(r.attention_kind as nat, 1),
        r.bytes().subrange(2, 3) == wire::le_bytes(r.device_capability as nat, 1),
        r.bytes().subrange(3, 4) == wire::le_bytes(r.compaction_epoch as nat, 1),
        r.bytes().subrange(4, 8) == wire::le_bytes(r.layer_index as nat, 4),
        r.bytes().subrange(8, 10) == wire::le_bytes(r.head_dim as nat, 2),
        r.bytes().subrange(10, 12) == wire::le_bytes(r.num_heads as nat, 2),
        r.bytes().subrange(12, 16) == wire::le_bytes(r.hidden_dim as nat, 4),
        r.bytes().subrange(16, 24) == wire::le_bytes(r.weight_offset as nat, 8),
        r.bytes().subrange(24, 32) == wire::le_bytes(r.weight_length as nat, 8),
        r.bytes().subrange(32, 40) == wire::le_bytes(r.scale_offset as nat, 8),
        r.bytes().subrange(40, 48) == r._reserved@,
{
    wire::lemma_le_bytes_len(r.node_kind as nat, 1);
    wire::lemma_le_bytes_len(r.attention_kind as nat, 1);
    wire::lemma_le_bytes_len(r.device_capability as nat, 1);
    wire::lemma_le_bytes_len(r.compaction_epoch as nat, 1);
    wire::lemma_le_bytes_len(r.layer_index as nat, 4);
    wire::lemma_le_bytes_len(r.head_dim as nat, 2);
    wire::lemma_le_bytes_len(r.num_heads as nat, 2);
    wire::lemma_le_bytes_len(r.hidden_dim as nat, 4);
    wire::lemma_le_bytes_len(r.weight_offset as nat, 8);
    wire::lemma_le_bytes_len(r.weight_length as nat, 8);
    wire::lemma_le_bytes_len(r.scale_offset as nat, 8);
    assert(r.bytes().subrange(0, 1) =~= wire::le_bytes(r.node_kind as nat, 1));
    assert(r.bytes().subrange(1, 2) =~= wire::le_bytes(r.attention_kind as nat, 1));
    assert(r.bytes().subrange(2, 3) =~= wire::le_bytes(r.device_capability as nat, 1));
    assert(r.bytes().subrange(3, 4) =~= wire::le_bytes(r.compaction_epoch as nat, 1));
    assert(r.bytes().subrange(4, 8) =~= wire::le_bytes(r.layer_index as nat, 4));
    assert(r.bytes().subrange(8, 10) =~= wire::le_bytes(r.head_dim as nat, 2));
    assert(r.bytes().subrange(10, 12) =~= wire::le_bytes(r.num_heads as nat, 2));
    assert(r.bytes().subrange(12, 16) =~= wire::le_bytes(r.hidden_dim as nat, 4));
    assert(r.bytes().subrange(16, 24) =~= wire::le_bytes(r.weight_offset as nat, 8));
    assert(r.bytes().subrange(24, 32) =~= wire::le_bytes(r.weight_length as nat, 8));
    assert(r.bytes().subrange(32, 40) =~= wire::le_bytes(r.scale_offset as nat, 8));
    assert(r.bytes().subrange(40, 48) =~= r._reserved@);
}

/// The bytes of a record determine it.
pub proof fn law_node_injective(a: LayerExecutionNode, b: LayerExecutionNode)
    requires
        a.bytes() == b.bytes(),
    ensures
        a == b,
{
    wire::lemma_byte_ranges();
    lemma_node_fields(a);
    lemma_node_fields(b);
    wire::lemma_le_bytes_injective(a.node_kind as nat, b.node_kind as nat, 1);
    wire::lemma_le_bytes_injective(a.attention_kind as nat, b.attention_kind as nat, 1);
    wire::lemma_le_bytes_injective(a.device_capability as nat, b.device_capability as nat, 1);
    wire::lemma_le_bytes_injective(a.compaction_epoch as nat, b.compaction_epoch as nat, 1);
    wire::lemma_le_bytes_injective(a.layer_index as nat, b.layer_index as nat, 4);
    wire::lemma_le_bytes_injective(a.head_dim as nat, b.head_dim as nat, 2);
    wire::lemma_le_bytes_injective(a.num_heads as nat, b.num_heads as nat, 2);
    wire::lemma_le_bytes_injective(a.hidden_dim as nat, b.hidden_dim as nat, 4);
    wire::lemma_le_bytes_injective(a.weight_offset as nat, b.weight_offset as nat, 8);
    wire::lemma_le_bytes_injective(a.weight_length as nat, b.weight_length as nat, 8);
    wire::lemma_le_bytes_injective(a.scale_offset as nat, b.scale_offset as nat, 8);
    assert(a._reserved =~= b._reserved);
}

impl CompactionEpoch {
    /// The 22 bytes of the record's fields, without the two that fill it up.
    pub open spec fn field_bytes(self) -> Seq<u8> {
        wire::le_bytes(self.epoch_index as nat, 1)
            + wire::le_bytes(self.trigger_layer as nat, 1)
            + wire::le_bytes(self.tier_count as nat, 1)
            + wire::le_bytes(self._pad as nat, 1)
            + self.compression_ratio@
            + wire::le_bytes(self.tier_boundaries@[0] as nat, 4)
            + wire::le_bytes(self.tier_boundaries@[1] as nat, 4)
            + wire::le_bytes(self.tier_boundaries@[2] as nat, 4)
            + wire::le_bytes(self.access_threshold as nat, 2)
    }

    /// The 24 bytes of the record.
    pub open spec fn bytes(self) -> Seq<u8> {
        self.field_bytes() + seq![0u8, 0u8]
    }

    fn write_le(&self, out: &mut Vec<u8>)
        ensures
            final(out)@ == old(out)@ + self.bytes(),
    {
        let ghost start = out@;
        wire::push_le(out, self.epoch_index as u64, 1);
        wire::push_le(out, self.trigger_layer as u64, 1);
        wire::push_le(out, self.tier_count as u64, 1);
        wire::push_le(out, self._pad as u64, 1);
        out.extend_from_slice(self.compression_ratio.as_slice());
        wire::push_le(out, self.tier_boundaries[0] as u64, 4);
        wire::push_le(out, self.tier_boundaries[1] as u64, 4);
        wire::push_le(out, self.tier_boundaries[2] as u64, 4);
        wire::push_le(out, self.access_threshold as u64, 2);
        assert(out@ =~= start + self.field_bytes());
        out.push(0);
        out.push(0);
        assert(out@ =~= start + self.bytes());
    }

    fn read_le(data: &[u8], at: usize) -> (r: Self)
        requires
            at + 24 <= data.len(),
        ensures
            r.field_bytes() == data@.subrange(at as int, at + 22),
    {
        proof {
            wire::lemma_byte_ranges();
        }
        let epoch_index: u8 = wire::field(data, at, at + 0, 1) as u8;
        let trigger_layer: u8 = wire::field(data, at, at + 1, 1) as u8;
        let tier_count: u8 = wire::field(data, at, at + 2, 1) as u8;
        let _pad: u8 = wire::field(data, at, at + 3, 1) as u8;
        let compression_ratio: [u8; 4] = [data[at + 4], data[at + 5], data[at + 6], data[at + 7]];
        assert(data@.subrange(at as int, at + 8) =~= data@.subrange(at as int, at + 4) + compression_ratio@);
        let tier_boundaries_0: u32 = wire::field(data, at, at + 8, 4) as u32;
        let tier_boundaries_1: u32 = wire::field(data, at, at + 12, 4) as u32;
        let tier_boundaries_2: u32 = wire::field(data, at, at + 16, 4) as u32;
        let access_threshold: u16 = wire::field(data, at, at + 20, 2) as u16;
        let r: CompactionEpoch = CompactionEpoch {
            epoch_index,
            trigger_layer,
            tier_count,
            _pad,
            compression_ratio,
            tier_boundaries: [tier_boundaries_0, tier_boundaries_1, tier_boundaries_2],
            access_threshold,
        };
        assert(data@.subrange(at as int, at as int) =~= Seq::<u8>::empty());
        assert(r.field_bytes() =~= data@.subrange(at as int, at + 22));
        r
    }
}

proof fn lemma_epoch_fields(r: CompactionEpoch)
    ensures
        r.field_bytes().len() == 22,
        r.field_bytes().subrange(0, 1) == wire::le_bytes(r.epoch_index as nat, 1),
        r.field_bytes().subrange(1, 2) == wire::le_bytes(r.trigger_layer as nat, 1),
        r.field_bytes().subrange(2, 3) == wire::le_bytes(r.tier_count as nat, 1),
        r.field_bytes().subrange(3, 4) == wire::le_bytes(r._pad as nat, 1),
        r.field_bytes().subrange(4, 8) == r.compression_ratio@,
        r.field_bytes().subrange(8, 12) == wire::le_bytes(r.tier_boundaries@[0] as nat, 4),
        r.field_bytes().subrange(12, 16) == wire::le_bytes(r.tier_boundaries@[1] as nat, 4),
        r.field_bytes().subrange(16, 20) == wire::le_bytes(r.tier_boundaries@[2] as nat, 4),
        r.field_bytes().subrange(20, 22) == wire::le_bytes(r.access_threshold as nat, 2),
{
    wire::lemma_le_bytes_len(r.epoch_index as nat, 1);
    wire::lemma_le_bytes_len(r.trigger_layer as nat, 1);
    wire::lemma_le_bytes_len(r.tier_count as nat, 1);
    wire::lemma_le_bytes_len(r._pad as nat, 1);
    wire::lemma_le_bytes_len(r.tier_boundaries@[0] as nat, 4);
    wire::lemma_le_bytes_len(r.tier_boundaries@[1] as nat, 4);
    wire::lemma_le_bytes_len(r.tier_boundaries@[2] as nat, 4);
    wire::lemma_le_bytes_len(r.access_threshold as nat, 2);
    assert(r.field_bytes().subrange(0, 1) =~= wire::le_bytes(r.epoch_index as nat, 1));
    assert(r.field_bytes().subrange(1, 2) =~= wire::le_bytes(r.trigger_layer as nat, 1));
    assert(r.field_bytes().subrange(2, 3) =~= wire::le_bytes(r.tier_count as nat, 1));
    assert(r.field_bytes().subrange(3, 4) =~= wire::le_bytes(r._pad as nat, 1));
    assert(r.field_bytes().subrange(4, 8) =~= r.compression_ratio@);
    assert(r.field_bytes().subrange(8, 12) =~= wire::le_bytes(r.tier_boundaries@[0] as nat, 4));
    assert(r.field_bytes().subrange(12, 16) =~= wire::le_bytes(r.tier_boundaries@[1] as nat, 4));
    assert(r.field_bytes().subrange(16, 20) =~= wire::le_bytes(r.tier_boundaries@[2] as nat, 4));
    assert(r.field_bytes().subrange(20, 22) =~= wire::le_bytes(r.access_threshold as nat, 2));
}

/// The bytes of a record determine it.
pub proof fn law_epoch_injective(a: CompactionEpoch, b: CompactionEpoch)
    requires
        a.field_bytes() == b.field_bytes(),
    ensures
        a == b,
{
    wire::lemma_byte_ranges();
    lemma_epoch_fields(a);
    lemma_epoch_fields(b);
    wire::lemma_le_bytes_injective(a.epoch_index as nat, b.epoch_index as nat, 1);
    wire::lemma_le_bytes_injective(a.trigger_layer as nat, b.trigger_layer as nat, 1);
    wire::lemma_le_bytes_injective(a.tier_count as nat, b.tier_count as nat, 1);
    wire::lemma_le_bytes_injective(a._pad as nat, b._pad as nat, 1);
    assert(a.compression_ratio =~= b.compression_ratio);
    wire::lemma_le_bytes_injective(a.tier_boundaries@[0] as nat, b.tier_boundaries@[0] as nat, 4);
    wire::lemma_le_bytes_injective(a.tier_boundaries@[1] as nat, b.tier_boundaries@[1] as nat, 4);
    wire::lemma_le_bytes_injective(a.tier_boundaries@[2] as nat, b.tier_boundaries@[2] as nat, 4);
    wire::lemma_le_bytes_injective(a.access_threshold as nat, b.access_threshold as nat, 2);
    assert(a.tier_boundaries =~= b.tier_boundaries);
}

impl DraftSubGraph {
    /// The 56 bytes of the record's fields.
    pub open spec fn bytes(self) -> Seq<u8> {
        wire::le_bytes(self.num_layers as nat, 4)
            + wire::le_bytes(self.hidden_dim as nat, 4)
            + wire::le_bytes(self.weight_offset as nat, 8)
            + wire::le_bytes(self.weight_length as nat, 8)
            + wire::le_bytes(self.scale_offset as nat, 8)
            + wire::le_bytes(self.scale_length as nat, 8)
            + wire::le_bytes(self.pre_proj_offset as nat, 8)
            + wire::le_bytes(self.post_proj_offset as nat, 8)
    }

    fn write_le(&self, out: &mut Vec<u8>)
        ensures
            final(out)@ == old(out)@ + self.bytes(),
    {
        let ghost start = out@;
        wire::push_le(out, self.num_layers as u64, 4);
        wire::push_le(out, self.hidden_dim as u64, 4);
        wire::push_le(out, self.weight_offset, 8);
        wire::push_le(out, self.weight_length, 8);
        wire::push_le(out, self.scale_offset, 8);
        wire::push_le(out, self.scale_length, 8);
        wire::push_le(out, self.pre_proj_offset, 8);
        wire::push_le(out, self.post_proj_offset, 8);
        assert(out@ =~= start + self.bytes());
    }

    fn read_le(data: &[u8], at: usize) -> (r: Self)
        requires
            at + 56 <= data.len(),
        ensures
            r.bytes() == data@.subrange(at as int, at + 56),
    {
        proof {
            wire::lemma_byte_ranges();
        }
        let num_layers: u32 = wire::field(data, at, at + 0, 4) as u32;
        let hidden_dim: u32 = wire::field(data, at, at + 4, 4) as u32;
        let weight_offset: u64 = wire::field(data, at, at + 8, 8);
        let weight_length: u64 = wire::field(data, at, at + 16, 8);
        let scale_offset: u64 = wire::field(data, at, at + 24, 8);
        let scale_length: u64 = wire::field(data, at, at + 32, 8);
        let pre_proj_offset: u64 = wire::field(data, at, at + 40, 8);
        let post_proj_offset: u64 = wire::field(data, at, at + 48, 8);
        let r: DraftSubGraph = DraftSubGraph {
            num_layers,
            hidden_dim,
            weight_offset,
            weight_length,
            scale_offset,
            scale_length,
            pre_proj_offset,
            post_proj_offset,
        };
        assert(data@.subrange(at as int, at as int) =~= Seq::<u8>::empty());
        assert(r.bytes() =~= data@.subrange(at as int, at + 56));
        r
    }
}

proof fn lemma_draft_fields(r: DraftSubGraph)
    ensures
        r.bytes().len() == 56,
        r.bytes().subrange(0, 4) == wire::le_bytes(r.num_layers as nat, 4),
        r.bytes().subrange(4, 8) == wire::le_bytes(r.hidden_dim as nat, 4),
        r.bytes().subrange(8, 16) == wire::le_bytes(r.weight_offset as nat, 8),
        r.bytes().subrange(16, 24) == wire::le_bytes(r.weight_length as nat, 8),
        r.bytes().subrange(24, 32) == wire::le_bytes(r.scale_offset as nat, 8),
        r.bytes().subrange(32, 40) == wire::le_bytes(r.scale_length as nat, 8),
        r.bytes().subrange(40, 48) == wire::le_bytes(r.pre_proj_offset as nat, 8),
        r.bytes().subrange(48, 56) == wire::le_bytes(r.post_proj_offset as nat, 8),
{
    wire::lemma_le_bytes_len(r.num_layers as nat, 4);
    wire::lemma_le_bytes_len(r.hidden_dim as nat, 4);
    wire::lemma_le_bytes_len(r.weight_offset as nat, 8);
    wire::lemma_le_bytes_len(r.weight_length as nat, 8);
    wire::lemma_le_bytes_len(r.scale_offset as nat, 8);
    wire::lemma_le_bytes_len(r.scale_length as nat, 8);
    wire::lemma_le_bytes_len(r.pre_proj_offset as nat, 8);
    wire::lemma_le_bytes_len(r.post_proj_offset as nat, 8);
    assert(r.bytes().subrange(0, 4) =~= wire::le_bytes(r.num_layers as nat, 4));
    assert(r.bytes().subrange(4, 8) =~= wire::le_bytes(r.hidden_dim as nat, 4));
    assert(r.bytes().subrange(8, 16) =~= wire::le_bytes(r.weight_offset as nat, 8));
    assert(r.bytes().subrange(16, 24) =~= wire::le_bytes(r.weight_length as nat, 8));
    assert(r.bytes().subrange(24, 32) =~= wire::le_bytes(r.scale_offset as nat, 8));
    assert(r.bytes().subrange(32, 40) =~= wire::le_bytes(r.scale_length as nat, 8));
    assert(r.bytes().subrange(40, 48) =~= wire::le_bytes(r.pre_proj_offset as nat, 8));
    assert(r.bytes().subrange(48, 56) =~= wire::le_bytes(r.post_proj_offset as nat, 8));
}

/// The bytes of a record determine it.
pub proof fn law_draft_injective(a: DraftSubGraph, b: DraftSubGraph)
    requires
        a.bytes() == b.bytes(),
    ensures
        a == b,
{
    wire::lemma_byte_ranges();
    lemma_draft_fields(a);
    lemma_draft_fields(b);
    wire::lemma_le_bytes_injective(a.num_layers as nat, b.num_layers as nat, 4);
    wire::lemma_le_bytes_injective(a.hidden_dim as nat, b.hidden_dim as nat, 4);
    wire::lemma_le_bytes_injective(a.weight_offset as nat, b.weight_offset as nat, 8);
    wire::lemma_le_bytes_injective(a.weight_length as nat, b.weight_length as nat, 8);
    wire::lemma_le_bytes_injective(a.scale_offset as nat, b.scale_offset as nat, 8);
    wire::lemma_le_bytes_injective(a.scale_length as nat, b.scale_length as nat, 8);
    wire::lemma_le_bytes_injective(a.pre_proj_offset as nat, b.pre_proj_offset as nat, 8);
    wire::lemma_le_bytes_injective(a.post_proj_offset as nat, b.post_proj_offset as nat, 8);
}

/// The nodes one after the other.
pub open spec fn nodes_bytes(nodes: Seq<LayerExecutionNode>) -> Seq<u8>
    decreases nodes.len(),
{
    if nodes.len() == 0 {
        Seq::empty()
    } else {
        nodes_bytes(nodes.drop_last()) + nodes.last().bytes()
    }
}

/// The epochs one after the other.
pub open spec fn epochs_bytes(epochs: Seq<CompactionEpoch>) -> Seq<u8>
    decreases epochs.len(),
{
    if epochs.len() == 0 {
        Seq::empty()
    } else {
        epochs_bytes(epochs.drop_last()) + epochs.last().bytes()
    }
}

/// How many bytes are missing from `n` to a multiple of eight.
pub open spec fn pad8(n: int) -> int {
    (8 - n % 8) % 8
}

impl ExecutionGraphDescriptor {
    /// The 20 header bytes.  The draft layer and epoch counts keep one byte
    /// each.
    pub open spec fn header_bytes(self) -> Seq<u8> {
        self.magic@ + wire::le_bytes(self.version as nat, 2) + wire::le_bytes(
            self.num_layers as nat,
            2,
        ) + wire::le_bytes(self.num_draft_layers as nat, 1) + wire::le_bytes(
            self.num_compaction_epochs as nat,
            1,
        ) + wire::le_bytes(self.node_count as nat, 4) + seq![0u8, 0u8]
    }

    /// Header, nodes and epochs.
    pub open spec fn body_bytes(self) -> Seq<u8> {
        self.header_bytes() + nodes_bytes(self.layers@) + epochs_bytes(self.compaction_epochs@)
    }

    /// The whole blob: header, nodes, epochs, a flag and, where there is a
    /// draft sub-graph, its record at the next multiple of eight.
    pub open spec fn bytes(self) -> Seq<u8> {
        match self.draft_sub_graph {
            None => self.body_bytes() + seq![0u8],
            Some(draft) => self.body_bytes() + seq![1u8] + Seq::new(
                pad8((self.body_bytes() + seq![1u8]).len() as int) as nat,
                |i: int| 0u8,
            ) + draft.bytes(),
        }
    }

    /// Serialize to a binary blob for embedding in the cimage.
    /// Format: header (20 bytes) + layer nodes + compaction epochs + draft ref.
    pub fn to_bytes(&self) -> (r: Vec<u8>)
        ensures
            r@ == self.bytes(),
    {
        let mut buf: Vec<u8> = Vec::new();
        buf.extend_from_slice(self.magic.as_slice());
        wire::push_le(&mut buf, self.version as u64, 2);
        wire::push_le(&mut buf, self.num_layers as u64, 2);
        wire::push_le(&mut buf, self.num_draft_layers as u64, 1);
        wire::push_le(&mut buf, self.num_compaction_epochs as u64, 1);
        wire::push_le(&mut buf, self.node_count as u64, 4);
        buf.push(0);
        buf.push(0);
        assert(buf@ =~= self.header_bytes());
        let mut i: usize = 0;
        assert(self.layers@.take(0) =~= Seq::<LayerExecutionNode>::empty());
        assert(buf@ =~= self.header_bytes() + nodes_bytes(self.layers@.take(0)));
        while i < self.layers.len()
            invariant
                i <= self.layers@.len(),
                buf@ == self.header_bytes() + nodes_bytes(self.layers@.take(i as int)),
            decreases self.layers@.len() - i,
        {
            self.layers[i].write_le(&mut buf);
            proof {
                let next = self.layers@.take(i + 1);
                assert(next.drop_last() =~= self.layers@.take(i as int));
                assert(buf@ =~= self.header_bytes() + nodes_bytes(next));
            }
            i = i + 1;
        }
        assert(self.layers@.take(self.layers@.len() as int) =~= self.layers@);
        let mut j: usize = 0;
        assert(self.compaction_epochs@.take(0) =~= Seq::<CompactionEpoch>::empty());
        assert(buf@ =~= self.header_bytes() + nodes_bytes(self.layers@) + epochs_bytes(
            self.compaction_epochs@.take(0),
        ));
        while j < self.compaction_epochs.len()
            invariant
                j <= self.compaction_epochs@.len(),
                buf@ == self.header_bytes() + nodes_bytes(self.layers@) + epochs_bytes(
                    self.compaction_epochs@.take(j as int),
                ),
            decreases self.compaction_epochs@.len() - j,
        {
            self.compaction_epochs[j].write_le(&mut buf);
            proof {
                let next = self.compaction_epochs@.take(j + 1);
                assert(next.drop_last() =~= self.compaction_epochs@.take(j as int));
                assert(buf@ =~= self.header_bytes() + nodes_bytes(self.layers@) + epochs_bytes(
                    next,
                ));
            }
            j = j + 1;
        }
        assert(self.compaction_epochs@.take(self.compaction_epochs@.len() as int)
            =~= self.compaction_epochs@);
        match self.draft_sub_graph {
            None => {
                buf.push(0);
                assert(buf@ =~= self.bytes());
            },
            Some(draft) => {
                buf.push(1);
                assert(buf@ =~= self.body_bytes() + seq![1u8]);
                let pad: usize = (8 - buf.len() % 8) % 8;
                wire::push_zeros(&mut buf, pad);
                draft.write_le(&mut buf);
                assert(buf@ =~= self.bytes());
            },
        }
        buf
    }
}

pub open spec fn smaller(a: int, b: int) -> int {
    if a < b {
        a
    } else {
        b
    }
}

/// How many nodes a blob holds: as many as it declares, or as fit.
pub open spec fn nodes_held(data: Seq<u8>) -> int {
    smaller(wire::le_value(data.subrange(14, 18)) as int, (data.len() - 20) / 48)
}

/// Where the epochs start.
pub open spec fn epochs_start(data: Seq<u8>) -> int {
    20 + 48 * nodes_held(data)
}

/// How many epochs a blob holds: as many as it declares, or as fit.
pub open spec fn epochs_held(data: Seq<u8>) -> int {
    smaller(data[13] as int, (data.len() - epochs_start(data)) / 24)
}

/// Where the draft flag stands.
pub open spec fn flag_position(data: Seq<u8>) -> int {
    epochs_start(data) + 24 * epochs_held(data)
}

/// Where the draft record starts: at the next multiple of eight.
pub open spec fn draft_start(data: Seq<u8>) -> int {
    flag_position(data) + 1 + pad8(flag_position(data) + 1)
}

/// Whether a blob holds a draft record: a flag that is set, and room for it.
pub open spec fn holds_draft(data: Seq<u8>) -> bool {
    &&& flag_position(data) < data.len()
    &&& data[flag_position(data)] != 0
    &&& draft_start(data) + 56 <= data.len()
}

/// What reading a blob gives.
pub open spec fn graph_decodes(data: Seq<u8>, g: ExecutionGraphDescriptor) -> bool {
    &&& g.magic@ == data.subrange(0, 8)
    &&& g.version == wire::le_value(data.subrange(8, 10))
    &&& g.num_layers == wire::le_value(data.subrange(10, 12))
    &&& g.num_draft_layers == data[12]
    &&& g.num_compaction_epochs == data[13]
    &&& g.node_count == wire::le_value(data.subrange(14, 18))
    &&& g._pad@ == seq![0u8, 0u8]
    &&& g.layers@.len() == nodes_held(data)
    &&& forall|i: int|
        0 <= i < g.layers@.len() ==> (#[trigger] g.layers@[i]).bytes() == data.subrange(
            20 + 48 * i,
            20 + 48 * i + 48,
        )
    &&& g.compaction_epochs@.len() == epochs_held(data)
    &&& forall|i: int|
        0 <= i < g.compaction_epochs@.len() ==> (#[trigger] g.compaction_epochs@[i]).field_bytes()
            == data.subrange(epochs_start(data) + 24 * i, epochs_start(data) + 24 * i + 22)
    &&& match g.draft_sub_graph {
        None => !holds_draft(data),
        Some(draft) => holds_draft(data) && draft.bytes() == data.subrange(
            draft_start(data),
            draft_start(data) + 56,
        ),
    }
}

impl ExecutionGraphDescriptor {
    /// Deserialize from the binary blob embedded in the cimage.
    pub fn from_bytes(data: &[u8]) -> (r: Result<Self, String>)
        ensures
            match r {
                Ok(g) => data@.len() >= 20 && data@.subrange(0, 8) == EXECUTION_GRAPH_MAGIC@
                    && graph_decodes(data@, g),
                Err(e) => if data@.len() < 20 {
                    e@ == "execution graph too short"@
                } else {
                    data@.subrange(0, 8) != EXECUTION_GRAPH_MAGIC@ && e@
                        == "bad exec graph magic: "@ + text::byte_list(data@.subrange(0, 8))
                },
            },
    {
        if data.len() < 20 {
            return Err("execution graph too short".to_owned());
        }
        let magic: [u8; 8] = wire::take8(data, 0);
        let expected: [u8; 8] = EXECUTION_GRAPH_MAGIC;
        let mut i: usize = 0;
        while i < 8
            invariant
                i <= 8,
                magic@ == data@.subrange(0, 8),
                expected == EXECUTION_GRAPH_MAGIC,
                data.len() >= 20,
                forall|j: int| 0 <= j < i ==> magic@[j] == expected@[j],
            decreases 8 - i,
        {
            if magic[i] != expected[i] {
                let mut e: String = "bad exec graph magic: ".to_owned();
                text::push_byte_list(&mut e, magic.as_slice());
                return Err(e);
            }
            i = i + 1;
        }
        assert(magic@ =~= expected@);
        proof {
            wire::lemma_byte_ranges();
        }
        let version: u16 = wire::read_le(data, 8, 2) as u16;
        let num_layers: u16 = wire::read_le(data, 10, 2) as u16;
        let num_draft_layers: u16 = data[12] as u16;
        let num_compaction_epochs: u16 = data[13] as u16;
        let node_count: u32 = wire::read_le(data, 14, 4) as u32;
        let mut off: usize = 20;
        let mut layers: Vec<LayerExecutionNode> = Vec::new();
        let mut n: u32 = 0;
        while n < node_count && data.len() - off >= 48
            invariant
                data.len() >= 20,
                n <= node_count,
                off == 20 + 48 * n,
                off <= data.len(),
                layers@.len() == n,
                forall|k: int|
                    0 <= k < n ==> (#[trigger] layers@[k]).bytes() == data@.subrange(
                        20 + 48 * k,
                        20 + 48 * k + 48,
                    ),
            decreases node_count - n,
        {
            layers.push(LayerExecutionNode::read_le(data, off));
            off = off + 48;
            n = n + 1;
        }
        assert(layers@.len() == nodes_held(data@));
        let ghost start = off as int;
        let mut compaction_epochs: Vec<CompactionEpoch> = Vec::new();
        let mut m: u16 = 0;
        while m < num_compaction_epochs && data.len() - off >= 24
            invariant
                data.len() >= 20,
                m <= num_compaction_epochs,
                0 <= start,
                off == start + 24 * m,
                off <= data.len(),
                compaction_epochs@.len() == m,
                forall|k: int|
                    0 <= k < m ==> (#[trigger] compaction_epochs@[k]).field_bytes()
                        == data@.subrange(start + 24 * k, start + 24 * k + 22),
            decreases num_compaction_epochs - m,
        {
            compaction_epochs.push(CompactionEpoch::read_le(data, off));
            off = off + 24;
            m = m + 1;
        }
        assert(compaction_epochs@.len() == epochs_held(data@));
        let flag: bool = off < data.len() && data[off] != 0;
        let draft_sub_graph: Option<DraftSubGraph> = if flag {
            let room: usize = data.len() - off - 1;
            let after: usize = off + 1;
            let pad: usize = (8 - after % 8) % 8;
            if room >= pad && room - pad >= 56 {
                Some(DraftSubGraph::read_le(data, after + pad))
            } else {
                None
            }
        } else {
            None
        };
        let g: ExecutionGraphDescriptor = ExecutionGraphDescriptor {
            magic,
            version,
            num_layers,
            num_draft_layers,
            num_compaction_epochs,
            node_count,
            _pad: [0u8, 0],
            layers,
            compaction_epochs,
            draft_sub_graph,
        };
        assert(g._pad@ =~= seq![0u8, 0u8]);
        Ok(g)
    }

    /// A descriptor whose counts agree with what it holds and fit their
    /// fields, with the right magic.
    pub open spec fn is_consistent(self) -> bool {
        &&& self.magic == EXECUTION_GRAPH_MAGIC
        &&& self._pad@ == seq![0u8, 0u8]
        &&& self.node_count == self.layers@.len()
        &&& self.num_compaction_epochs == self.compaction_epochs@.len()
        &&& self.num_compaction_epochs < 256
        &&& self.num_draft_layers < 256
    }
}

proof fn lemma_nodes_bytes(nodes: Seq<LayerExecutionNode>)
    ensures
        nodes_bytes(nodes).len() == 48 * nodes.len(),
        forall|i: int|
            0 <= i < nodes.len() ==> nodes_bytes(nodes).subrange(48 * i, 48 * i + 48) == (
            #[trigger] nodes[i]).bytes(),
    decreases nodes.len(),
{
    if nodes.len() > 0 {
        let rest = nodes.drop_last();
        lemma_nodes_bytes(rest);
        lemma_node_fields(nodes.last());
        assert forall|i: int| 0 <= i < nodes.len() implies nodes_bytes(nodes).subrange(
            48 * i,
            48 * i + 48,
        ) == (#[trigger] nodes[i]).bytes() by {
            if i < rest.len() {
                assert(rest[i] == nodes[i]);
                assert(nodes_bytes(nodes).subrange(48 * i, 48 * i + 48) =~= nodes_bytes(
                    rest,
                ).subrange(48 * i, 48 * i + 48));
            } else {
                assert(nodes_bytes(nodes).subrange(48 * i, 48 * i + 48) =~= nodes.last().bytes());
            }
        }
    }
}

proof fn lemma_epochs_bytes(epochs: Seq<CompactionEpoch>)
    ensures
        epochs_bytes(epochs).len() == 24 * epochs.len(),
        forall|i: int|
            0 <= i < epochs.len() ==> epochs_bytes(epochs).subrange(24 * i, 24 * i + 22) == (
            #[trigger] epochs[i]).field_bytes(),
    decreases epochs.len(),
{
    if epochs.len() > 0 {
        let rest = epochs.drop_last();
        lemma_epochs_bytes(rest);
        lemma_epoch_fields(epochs.last());
        assert forall|i: int| 0 <= i < epochs.len() implies epochs_bytes(epochs).subrange(
            24 * i,
            24 * i + 22,
        ) == (#[trigger] epochs[i]).field_bytes() by {
            if i < rest.len() {
                assert(rest[i] == epochs[i]);
                assert(epochs_bytes(epochs).subrange(24 * i, 24 * i + 22) =~= epochs_bytes(
                    rest,
                ).subrange(24 * i, 24 * i + 22));
            } else {
                assert(epochs_bytes(epochs).subrange(24 * i, 24 * i + 22)
                    =~= epochs.last().field_bytes());
            }
        }
    }
}

proof fn lemma_graph_header(g: ExecutionGraphDescriptor)
    requires
        g.num_compaction_epochs < 256,
        g.num_draft_layers < 256,
    ensures
        g.header_bytes().len() == 20,
        g.header_bytes().subrange(0, 8) == g.magic@,
        wire::le_value(g.header_bytes().subrange(8, 10)) == g.version,
        wire::le_value(g.header_bytes().subrange(10, 12)) == g.num_layers,
        g.header_bytes()[12] == g.num_draft_layers,
        g.header_bytes()[13] == g.num_compaction_epochs,
        wire::le_value(g.header_bytes().subrange(14, 18)) == g.node_count,
{
    wire::lemma_byte_ranges();
    wire::lemma_le_bytes_len(g.version as nat, 2);
    wire::lemma_le_bytes_len(g.num_layers as nat, 2);
    wire::lemma_le_bytes_len(g.num_draft_layers as nat, 1);
    wire::lemma_le_bytes_len(g.num_compaction_epochs as nat, 1);
    wire::lemma_le_bytes_len(g.node_count as nat, 4);
    let h = g.header_bytes();
    assert(h.subrange(0, 8) =~= g.magic@);
    assert(h.subrange(8, 10) =~= wire::le_bytes(g.version as nat, 2));
    assert(h.subrange(10, 12) =~= wire::le_bytes(g.num_layers as nat, 2));
    assert(h.subrange(14, 18) =~= wire::le_bytes(g.node_count as nat, 4));
    assert(h[12] == wire::le_bytes(g.num_draft_layers as nat, 1)[0]);
    assert(h[13] == wire::le_bytes(g.num_compaction_epochs as nat, 1)[0]);
    wire::lemma_le_value_of_le_bytes(g.version as nat, 2);
    wire::lemma_le_value_of_le_bytes(g.num_layers as nat, 2);
    wire::lemma_le_value_of_le_bytes(g.node_count as nat, 4);
}

/// Reading a serialized graph gives it back: a blob made from a consistent
/// descriptor decodes to the same fields, nodes, epochs and draft reference.
pub proof fn law_graph_round_trip(g: ExecutionGraphDescriptor, r: ExecutionGraphDescriptor)
    requires
        g.is_consistent(),
        graph_decodes(g.bytes(), r),
    ensures
        g.bytes().len() >= 20,
        g.bytes().subrange(0, 8) == EXECUTION_GRAPH_MAGIC@,
        r.magic == g.magic,
        r.version == g.version,
        r.num_layers == g.num_layers,
        r.num_draft_layers == g.num_draft_layers,
        r.num_compaction_epochs == g.num_compaction_epochs,
        r.node_count == g.node_count,
        r.layers@ == g.layers@,
        r.compaction_epochs@ == g.compaction_epochs@,
        r.draft_sub_graph == g.draft_sub_graph,
{
    let data = g.bytes();
    let n = g.layers@.len() as int;
    let m = g.compaction_epochs@.len() as int;
    lemma_graph_header(g);
    lemma_nodes_bytes(g.layers@);
    lemma_epochs_bytes(g.compaction_epochs@);
    let body = g.body_bytes();
    let end = 20 + 48 * n + 24 * m;
    assert(body.len() == end);
    assert(data.subrange(0, 20) =~= g.header_bytes());
    assert(data.subrange(0, 8) =~= g.header_bytes().subrange(0, 8));
    assert(data.subrange(8, 10) =~= g.header_bytes().subrange(8, 10));
    assert(data.subrange(10, 12) =~= g.header_bytes().subrange(10, 12));
    assert(data.subrange(14, 18) =~= g.header_bytes().subrange(14, 18));
    assert(data[12] == g.header_bytes()[12]);
    assert(data[13] == g.header_bytes()[13]);
    assert(r.magic =~= g.magic);
    assert(nodes_held(data) == n);
    assert(epochs_held(data) == m);
    assert(flag_position(data) == end);
    assert forall|i: int| 0 <= i < n implies r.layers@[i] == g.layers@[i] by {
        assert(data.subrange(20 + 48 * i, 20 + 48 * i + 48) =~= nodes_bytes(g.layers@).subrange(
            48 * i,
            48 * i + 48,
        ));
        assert(r.layers@[i].bytes() == g.layers@[i].bytes());
        law_node_injective(r.layers@[i], g.layers@[i]);
    }
    assert(r.layers@ =~= g.layers@);
    let base = 20 + 48 * n;
    assert forall|i: int| 0 <= i < m implies r.compaction_epochs@[i] == g.compaction_epochs@[i] by {
        assert(data.subrange(base + 24 * i, base + 24 * i + 22) =~= epochs_bytes(
            g.compaction_epochs@,
        ).subrange(24 * i, 24 * i + 22));
        assert(r.compaction_epochs@[i].field_bytes() == g.compaction_epochs@[i].field_bytes());
        law_epoch_injective(r.compaction_epochs@[i], g.compaction_epochs@[i]);
    }
    assert(r.compaction_epochs@ =~= g.compaction_epochs@);
    match g.draft_sub_graph {
        None => {
            assert(data[end] == 0);
        },
        Some(draft) => {
            lemma_draft_fields(draft);
            assert(data[end] == 1);
            let at = draft_start(data);
            assert(at == end + 1 + pad8(end + 1));
            assert(data.subrange(at, at + 56) =~= draft.bytes());
            law_draft_injective(r.draft_sub_graph.unwrap(), draft);
        },
    }
}

impl Default for ExecutionGraphDescriptor {
    fn default() -> (r: Self)
        ensures
            r.magic == EXECUTION_GRAPH_MAGIC,
            r.version == 1,
            r.num_layers == 0,
            r.num_draft_layers == 0,
            r.num_compaction_epochs == 0,
            r.node_count == 0,
            r._pad@ == seq![0u8, 0u8],
            r.layers@.len() == 0,
            r.compaction_epochs@.len() == 0,
            r.draft_sub_graph is None,
            r.is_consistent(),
    {
        let r: ExecutionGraphDescriptor = ExecutionGraphDescriptor {
            magic: EXECUTION_GRAPH_MAGIC,
            version: 1,
            num_layers: 0,
            num_draft_layers: 0,
            num_compaction_epochs: 0,
            node_count: 0,
            _pad: [0u8, 0],
            layers: Vec::new(),
            compaction_epochs: Vec::new(),
            draft_sub_graph: None,
        };
        assert(r._pad@ =~= seq![0u8, 0u8]);
        r
    }
}

/// A projection node of the Gemma 4 12B graph: no attention, GPU only.
pub open spec fn projection_node(
    kind: NodeKind,
    head_dim: u16,
    hidden_dim: u32,
    weight_length: u64,
) -> LayerExecutionNode {
    LayerExecutionNode {
        node_kind: kind as u8,
        attention_kind: 2,
        device_capability: DeviceCapability::Gpu as u8,
        compaction_epoch: 0xFF,
        layer_index: 0,
        head_dim,
        num_heads: 8,
        hidden_dim,
        weight_offset: 0,
        weight_length,
        scale_offset: 0,
        _reserved: [0u8, 0, 0, 0, 0, 0, 0, 0],
    }
}

fn make_projection(kind: NodeKind, head_dim: u16, hidden_dim: u32, weight_length: u64) -> (r:
    LayerExecutionNode)
    ensures
        r == projection_node(kind, head_dim, hidden_dim, weight_length),
{
    LayerExecutionNode {
        node_kind: kind as u8,
        attention_kind: 2,
        device_capability: DeviceCapability::Gpu as u8,
        compaction_epoch: 0xFF,
        layer_index: 0,
        head_dim,
        num_heads: 8,
        hidden_dim,
        weight_offset: 0,
        weight_length,
        scale_offset: 0,
        _reserved: [0u8, 0, 0, 0, 0, 0, 0, 0],
    }
}

/// Every sixth decoder layer attends over a sliding window.
pub open spec fn is_windowed(layer: int) -> bool {
    layer % 6 == 5
}

/// Decoder layer `i` of the Gemma 4 12B graph.
pub open spec fn decoder_node(i: int) -> LayerExecutionNode {
    LayerExecutionNode {
        node_kind: NodeKind::DecoderLayer as u8,
        attention_kind: if is_windowed(i) {
            AttentionKind::SlidingWindow as u8
        } else {
            AttentionKind::FullAttention as u8
        },
        device_capability: DeviceCapability::Both as u8,
        compaction_epoch: if is_windowed(i) {
            (i / 6) as u8
        } else {
            0xFF
        },
        layer_index: i as u32,
        head_dim: if is_windowed(i) {
            512
        } else {
            256
        },
        num_heads: 8,
        hidden_dim: 3840,
        weight_offset: 0,
        weight_length: 0,
        scale_offset: 0,
        _reserved: [0u8, 0, 0, 0, 0, 0, 0, 0],
    }
}

/// Draft layer `d` of the Gemma 4 12B graph.
pub open spec fn draft_node(d: int) -> LayerExecutionNode {
    LayerExecutionNode {
        node_kind: NodeKind::DraftLayer as u8,
        attention_kind: 1,
        device_capability: DeviceCapability::Both as u8,
        compaction_epoch: 0xFF,
        layer_index: d as u32,
        head_dim: 128,
        num_heads: 8,
        hidden_dim: 1024,
        weight_offset: 0,
        weight_length: 0,
        scale_offset: 0,
        _reserved: [0u8, 0, 0, 0, 0, 0, 0, 0],
    }
}

/// Node `k` of the Gemma 4 12B graph: 5 multimodal nodes, 48 decoder layers,
/// 2 draft projections, 4 draft layers.
pub open spec fn gemma_node(k: int) -> LayerExecutionNode {
    if k == 0 {
        projection_node(NodeKind::VisionPatchEmbed, 256, 6912, 6635520)
    } else if k == 1 {
        projection_node(NodeKind::VisionFinalProjection, 256, 3840, 3686400)
    } else if k == 2 {
        projection_node(NodeKind::AudioFrameEmbed, 256, 2560, 81920)
    } else if k == 3 {
        projection_node(NodeKind::AudioProjection, 256, 3840, 2457600)
    } else if k == 4 {
        projection_node(NodeKind::EmbeddingAssembly, 256, 3840, 0)
    } else if k < 53 {
        decoder_node(k - 5)
    } else if k == 53 {
        projection_node(NodeKind::DraftPreProjection, 128, 3840, 983040)
    } else if k == 54 {
        projection_node(NodeKind::DraftPostProjection, 256, 1024, 983040)
    } else {
        draft_node(k - 55)
    }
}

/// Compaction epoch `e` of the Gemma 4 12B graph, triggered by the `e`-th
/// windowed layer.
pub open spec fn gemma_epoch(e: int) -> CompactionEpoch {
    CompactionEpoch {
        epoch_index: e as u8,
        trigger_layer: (6 * e + 5) as u8,
        tier_count: 3,
        _pad: 0,
        compression_ratio: [85u8, 51, 25, 0],
        tier_boundaries: [4096u32, 32768, 262144],
        access_threshold: 100,
    }
}

impl ExecutionGraphDescriptor {
    /// Build the execution graph for Gemma 4 12B Unified.
    pub fn gemma4_12b() -> (r: Self)
        ensures
            r.is_consistent(),
            r.magic == EXECUTION_GRAPH_MAGIC,
            r.version == 1,
            r.num_layers == 48,
            r.num_draft_layers == 4,
            r.num_compaction_epochs == 8,
            r.node_count == 59,
            r.layers@ == Seq::new(59, |k: int| gemma_node(k)),
            r.compaction_epochs@ == Seq::new(8, |e: int| gemma_epoch(e)),
            r.draft_sub_graph == Some(
                (DraftSubGraph {
                    num_layers: 4,
                    hidden_dim: 1024,
                    weight_offset: 0,
                    weight_length: 0,
                    scale_offset: 0,
                    scale_length: 0,
                    pre_proj_offset: 0,
                    post_proj_offset: 0,
                }),
            ),
    {
        let mut layers: Vec<LayerExecutionNode> = Vec::new();
        layers.push(make_projection(NodeKind::VisionPatchEmbed, 256, 6912, 3840 * 6912 / 4));
        layers.push(make_projection(NodeKind::VisionFinalProjection, 256, 3840, 3840 * 3840 / 4));
        layers.push(make_projection(NodeKind::AudioFrameEmbed, 256, 2560, 128 * 2560 / 4));
        layers.push(make_projection(NodeKind::AudioProjection, 256, 3840, 2560 * 3840 / 4));
        layers.push(make_projection(NodeKind::EmbeddingAssembly, 256, 3840, 0));
        let mut i: u32 = 0;
        while i < 48
            invariant
                i <= 48,
                layers@.len() == 5 + i,
                forall|k: int| 0 <= k < 5 + i ==> #[trigger] layers@[k] == gemma_node(k),
            decreases 48 - i,
        {
            let windowed: bool = i % 6 == 5;
            layers.push(
                LayerExecutionNode {
                    node_kind: NodeKind::DecoderLayer as u8,
                    attention_kind: if windowed {
                        AttentionKind::SlidingWindow as u8
                    } else {
                        AttentionKind::FullAttention as u8
                    },
                    device_capability: DeviceCapability::Both as u8,
                    compaction_epoch: if windowed {
                        (i / 6) as u8
                    } else {
                        0xFF
                    },
                    layer_index: i,
                    head_dim: if windowed {
                        512
                    } else {
                        256
                    },
                    num_heads: 8,
                    hidden_dim: 3840,
                    weight_offset: 0,
                    weight_length: 0,
                    scale_offset: 0,
                    _reserved: [0u8, 0, 0, 0, 0, 0, 0, 0],
                },
            );
            i = i + 1;
        }
        let mut compaction_epochs: Vec<CompactionEpoch> = Vec::new();
        let mut e: u8 = 0;
        while e < 8
            invariant
                e <= 8,
                compaction_epochs@.len() == e,
                forall|k: int| 0 <= k < e ==> #[trigger] compaction_epochs@[k] == gemma_epoch(k),
            decreases 8 - e,
        {
            compaction_epochs.push(
                CompactionEpoch {
                    epoch_index: e,
                    trigger_layer: 6 * e + 5,
                    tier_count: 3,
                    _pad: 0,
                    compression_ratio: [85u8, 51, 25, 0],
                    tier_boundaries: [4096u32, 32768, 262144],
                    access_threshold: 100,
                },
            );
            e = e + 1;
        }
        layers.push(make_projection(NodeKind::DraftPreProjection, 128, 3840, 1024 * 3840 / 4));
        layers.push(make_projection(NodeKind::DraftPostProjection, 256, 1024, 3840 * 1024 / 4));
        let mut d: u32 = 0;
        while d < 4
            invariant
                d <= 4,
                layers@.len() == 55 + d,
                forall|k: int| 0 <= k < 55 + d ==> #[trigger] layers@[k] == gemma_node(k),
            decreases 4 - d,
        {
            layers.push(
                LayerExecutionNode {
                    node_kind: NodeKind::DraftLayer as u8,
                    attention_kind: 1,
                    device_capability: DeviceCapability::Both as u8,
                    compaction_epoch: 0xFF,
                    layer_index: d,
                    head_dim: 128,
                    num_heads: 8,
                    hidden_dim: 1024,
                    weight_offset: 0,
                    weight_length: 0,
                    scale_offset: 0,
                    _reserved: [0u8, 0, 0, 0, 0, 0, 0, 0],
                },
            );
            d = d + 1;
        }
        assert(layers@ =~= Seq::new(59, |k: int| gemma_node(k)));
        assert(compaction_epochs@ =~= Seq::new(8, |e: int| gemma_epoch(e)));
        let r: ExecutionGraphDescriptor = ExecutionGraphDescriptor {
            magic: EXECUTION_GRAPH_MAGIC,
            version: 1,
            num_layers: 48,
            num_draft_layers: 4,
            num_compaction_epochs: 8,
            node_count: 59,
            _pad: [0u8, 0],
            layers,
            compaction_epochs,
            draft_sub_graph: Some(
                DraftSubGraph {
                    num_layers: 4,
                    hidden_dim: 1024,
                    weight_offset: 0,
                    weight_length: 0,
                    scale_offset: 0,
                    scale_length: 0,
                    pre_proj_offset: 0,
                    post_proj_offset: 0,
                },
            ),
        };
        assert(r._pad@ =~= seq![0u8, 0u8]);
        r
    }
}

/// Node `i` of a graph stands 48 bytes behind the one before it, from byte 20 on, with its
/// fields at fixed places, numbers with the lowest byte first.
#[verifier::spinoff_prover]
pub proof fn law_node_fields_stand_in_place(data: &[u8], g: ExecutionGraphDescriptor, i: int, at: int)
    requires
        call_ensures(
            ExecutionGraphDescriptor::from_bytes,
            (data,),
            Ok::<ExecutionGraphDescriptor, String>(g),
        ),
        0 <= i < g.layers@.len(),
        at == 20 + 48 * i,
    ensures
        g.layers@[i].node_kind == wire::le_value(data@.subrange(at + 0, at + 1)),
        g.layers@[i].attention_kind == wire::le_value(data@.subrange(at + 1, at + 2)),
        g.layers@[i].device_capability == wire::le_value(data@.subrange(at + 2, at + 3)),
        g.layers@[i].compaction_epoch == wire::le_value(data@.subrange(at + 3, at + 4)),
        g.layers@[i].layer_index == wire::le_value(data@.subrange(at + 4, at + 8)),
        g.layers@[i].head_dim == wire::le_value(data@.subrange(at + 8, at + 10)),
        g.layers@[i].num_heads == wire::le_value(data@.subrange(at + 10, at + 12)),
        g.layers@[i].hidden_dim == wire::le_value(data@.subrange(at + 12, at + 16)),
        g.layers@[i].weight_offset == wire::le_value(data@.subrange(at + 16, at + 24)),
        g.layers@[i].weight_length == wire::le_value(data@.subrange(at + 24, at + 32)),
        g.layers@[i].scale_offset == wire::le_value(data@.subrange(at + 32, at + 40)),
        g.layers@[i]._reserved@ == data@.subrange(at + 40, at + 48),
{
    lemma_node_fields(g.layers@[i]);
    wire::lemma_byte_ranges();
    assert(at + 48 <= data@.len());
    assert(g.layers@[i].bytes() == data@.subrange(at, at + 48));
    assert forall|j: int| 0 <= j < 48 implies data@[at + j] == #[trigger] g.layers@[i].bytes()[j] by {
        assert(data@.subrange(at, at + 48)[j] == data@[at + j]);
    }
    assert(data@.subrange(at + 0, at + 1) =~= g.layers@[i].bytes().subrange(0, 1));
    wire::lemma_le_value_of_le_bytes(g.layers@[i].node_kind as nat, 1);
    assert(data@.subrange(at + 1, at + 2) =~= g.layers@[i].bytes().subrange(1, 2));
    wire::lemma_le_value_of_le_bytes(g.layers@[i].attention_kind as nat, 1);
    assert(data@.subrange(at + 2, at + 3) =~= g.layers@[i].bytes().subrange(2, 3));
    wire::lemma_le_value_of_le_bytes(g.layers@[i].device_capability as nat, 1);
    assert(data@.subrange(at + 3, at + 4) =~= g.layers@[i].bytes().subrange(3, 4));
    wire::lemma_le_value_of_le_bytes(g.layers@[i].compaction_epoch as nat, 1);
    assert(data@.subrange(at + 4, at + 8) =~= g.layers@[i].bytes().subrange(4, 8));
    wire::lemma_le_value_of_le_bytes(g.layers@[i].layer_index as nat, 4);
    assert(data@.subrange(at + 8, at + 10) =~= g.layers@[i].bytes().subrange(8, 10));
    wire::lemma_le_value_of_le_bytes(g.layers@[i].head_dim as nat, 2);
    assert(data@.subrange(at + 10, at + 12) =~= g.layers@[i].bytes().subrange(10, 12));
    wire::lemma_le_value_of_le_bytes(g.layers@[i].num_heads as nat, 2);
    assert(data@.subrange(at + 12, at + 16) =~= g.layers@[i].bytes().subrange(12, 16));
    wire::lemma_le_value_of_le_bytes(g.layers@[i].hidden_dim as nat, 4);
    assert(data@.subrange(at + 16, at + 24) =~= g.layers@[i].bytes().subrange(16, 24));
    wire::lemma_le_value_of_le_bytes(g.layers@[i].weight_offset as nat, 8);
    assert(data@.subrange(at + 24, at + 32) =~= g.layers@[i].bytes().subrange(24, 32));
    wire::lemma_le_value_of_le_bytes(g.layers@[i].weight_length as nat, 8);
    assert(data@.subrange(at + 32, at + 40) =~= g.layers@[i].bytes().subrange(32, 40));
    wire::lemma_le_value_of_le_bytes(g.layers@[i].scale_offset as nat, 8);
    assert(data@.subrange(at + 40, at + 48) =~= g.layers@[i].bytes().subrange(40, 48));
}

/// The graph of the model has its decoder layers in order behind the five nodes that
/// prepare its input; of each six the last attends to a window, with heads of twice the
/// width, and ends an epoch of compaction, and the others attend to everything.
pub proof fn law_every_sixth_layer_is_windowed(g: ExecutionGraphDescriptor, i: int)
    requires
        call_ensures(ExecutionGraphDescriptor::gemma4_12b, (), g),
        0 <= i < 48,
    ensures
        g.layers@.len() == 5 + 48 + 2 + 4,
        ({
            let n = g.layers@[5 + i];
            &&& n.node_kind == NodeKind::DecoderLayer as u8
            &&& n.layer_index == i
            &&& n.hidden_dim == 3840
            &&& n.num_heads == 8
            &&& (i + 1) % 6 == 0 ==> n.attention_kind == AttentionKind::SlidingWindow as u8
                && n.head_dim == 512 && n.compaction_epoch == (i + 1) / 6 - 1
            &&& (i + 1) % 6 != 0 ==> n.attention_kind == AttentionKind::FullAttention as u8
                && n.head_dim == 256 && n.compaction_epoch == 0xFF
        }),
        forall|e: int|
            0 <= e < 8 ==> (#[trigger] g.compaction_epochs@[e]).epoch_index == e
                && g.compaction_epochs@[e].trigger_layer == 6 * e + 5,
{
    assert(g.layers@[5 + i] == decoder_node(i));
}

/// The bytes of a sidecar are two for each half-precision element, four for each
/// single-precision one, and none where there are no elements.
pub proof fn law_sidecar_bytes_by_format(
    count: u32,
    fmt: SidecarElementFormat,
    r: Option<u64>,
)
    requires
        call_ensures(sidecar_byte_len, (count, fmt), r),
    ensures
        fmt == SidecarElementFormat::Absent ==> r == Some(0u64),
        fmt == SidecarElementFormat::F16 ==> r == Some((2 * count) as u64),
        fmt == SidecarElementFormat::F32 ==> r == Some((4 * count) as u64),
{
}

} // verus!
