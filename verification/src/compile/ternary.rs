//! The cimage container: header, segment directory, layout metadata, model
//! artifacts and matrix bindings, in their canonical little-endian form.

use vstd::prelude::*;
use vstd::slice::*;
use vstd::string::*;

use crate::text;
use crate::wire;

verus! {

pub const STATE_IDLE: u8 = 0;

pub const STATE_PREFETCHING: u8 = 1;

pub const STATE_READY: u8 = 2;

pub const STATE_EXECUTING: u8 = 3;

/// The eight bytes that open every image: "PRISM" and three zero bytes.
pub const PRISM_MAGIC: [u8; 8] = [80, 82, 73, 83, 77, 0, 0, 0];

pub const CIMAGE_PAGE_SIZE: u64 = 16384;

pub const QUANT_SCHEMA_TERNARY_TILE640: u32 = 0;

pub const QUANT_SCHEMA_NF4_TILE640: u32 = 1;

/// Deprecated alias; use CIMAGE_PAGE_SIZE
pub const PRISM_PAGE_SIZE: u64 = CIMAGE_PAGE_SIZE;

pub const CIMAGE_SEGMENT_CAPACITY: usize = 32;

/// Wire size of the canonical little-endian CimageHeader: 728 bytes.
pub const CIMAGE_HEADER_WIRE_SIZE: usize = 8 + 4 + 4 + 32 + 4 + 4 + 4 + 4 + 4 + 4 + 4 + 4
    + CIMAGE_SEGMENT_CAPACITY * (4 + 8 + 8) + 8;

/// Encodes the type of content in a cimage segment.
#[derive(Debug, Clone, Copy, PartialEq, Eq, Structural)]
pub enum SegmentKind {
    /// Compiled Metal kernel library (.metallib)
    MetalLib,
    /// Ternary tile640 packed weights
    TernaryWeights,
    /// FP16 block scales for ternary weights
    BlockScales,
    /// CimageLayoutMeta: tensor records, per-layer metadata
    LayoutMeta,
    /// Vocabulary / embedding table
    Vocabulary,
    /// Apple ANE .mlmodelc or .ane.tar archive
    AneArchive,
    /// Stride/prefetch topology table
    TopologyTable,
    /// Compiled CUDA kernel blob (.cubin, .fatbin)
    CudaLib,
    /// Compiled ROCm kernel blob (.co, .hsaco)
    RocmLib,
    /// Compiled Level Zero / SPIR-V kernel (.spv)
    LevelZeroLib,
    /// Compiled Vulkan shader (.spv)
    VulkanLib,
    /// Intel NPU compiled model blob
    IntelNpuBlob,
    /// AMD NPU (XDNA) compiled model blob
    AmdNpuBlob,
    /// Qualcomm Hexagon / HTP compiled model
    QualcommNpuBlob,
    /// Google TPU compiled model
    GoogleTpuBlob,
    /// Compiled WebGPU / WGSL shader
    WebGpuLib,
    /// Huawei Ascend NPU (DaVinci) compiled model (.om)
    HuaweiAscendBlob,
    /// Hailo NPU compiled executable (.hef)
    HailoBlob,
    /// Per-layer weight offset table (array of LayerDirectoryEntry).
    /// Enables layer-granular scheduling and ANE/GPU interleaving.
    LayerDirectory,
    /// Packed ternary projection weight matrices for multimodal input adapters.
    MultimodalProjectionWeights,
    /// FP16 block scales corresponding to MultimodalProjectionWeights.
    MultimodalProjectionScales,
    /// Versioned binary descriptor describing modality support, tensor layout,
    /// and processor contract.
    MultimodalInputDescriptor,
    /// Learned two-dimensional position embeddings for image patches.
    MultimodalPositionEmbeddings,
    /// Biases, layer norms, pooling kernels, and small affine parameters
    /// that do not fit the primary projection matrix category.
    MultimodalAuxiliaryWeights,
    /// Binary execution graph descriptor encoding per-layer DAG,
    /// device routing capabilities, KV compaction epochs, and MTP
    /// draft sub-graph references.
    ExecutionGraph,
    /// Tokenizer, multimodal special token map, audio codebook,
    /// and chat template. Type-tagged entries: see ModelArtifactEntry.
    ModelArtifacts,
    /// Canonical NF4Tile640 packed weights (raw U8 resident bytes).
    Nf4Tile640Weights,
    /// FP32 bias metadata corresponding to packed quantized weights.
    BlockBiases,
    /// Multimodal projection biases, laid out byte-parallel to
    /// MultimodalProjectionScales.
    MultimodalProjectionBiases,
    /// JSON-serialized HeterogeneousExecutionImage for tri-lane execution.
    HeterogeneousImage,
    /// TTS Talker (28-layer decoder) nf4tile640 packed weights
    TtsTalkerWeight,
    /// TTS Talker nf4tile640 scales
    TtsTalkerScale,
    /// TTS Talker nf4tile640 biases
    TtsTalkerBias,
    /// TTS Code Predictor weights
    TtsCodePredictorWeight,
    /// TTS Code Predictor scales
    TtsCodePredictorScale,
    /// TTS Code Predictor biases
    TtsCodePredictorBias,
    /// TTS Mimi Codec weights
    TtsCodecWeight,
    /// TTS codebook embeddings (16 codebooks x 2048 entries x 128 dim)
    TtsCodebook,
    /// Raw FP16 weights (for matrices that can't be nf4tile640-quantized).
    RawF16Weights,
    /// Int8Tile640 packed weights (640-byte code stride per tile).
    Int8Tile640Weights,
    /// Quantization sidecars: reduction-axis FP16 scale vectors and future
    /// residual metadata.
    QuantizationSidecars,
    /// Array of MatrixWeightBinding records.
    /// Binary: count (u32) followed by `count` MatrixWeightBinding structs.
    MatrixContract,
}

/// One entry in the cimage segment directory.
#[derive(Debug, Clone, Copy, PartialEq, Eq, Structural)]
pub struct SegmentEntry {
    pub kind: u32,
    pub offset: u64,
    pub length: u64,
}

impl SegmentEntry {
    /// The 20 bytes of a directory entry: kind, offset, length.
    pub open spec fn bytes(self) -> Seq<u8> {
        wire::le_bytes(self.kind as nat, 4) + wire::le_bytes(self.offset as nat, 8) + wire::le_bytes(
            self.length as nat,
            8,
        )
    }

    pub fn new(kind: SegmentKind, offset: u64, length: u64) -> (r: Self)
        ensures
            r.kind == kind as u32,
            r.offset == offset,
            r.length == length,
    {
        Self { kind: kind as u32, offset, length }
    }
}

#[derive(Debug, Clone, Copy)]
pub struct CimageHeader {
    pub magic: [u8; 8],
    pub version: u32,
    pub segment_count: u32,
    pub payload_hash: [u8; 32],
    pub num_layers: u32,
    pub num_heads: u32,
    pub head_dim: u32,
    pub hidden_dim: u32,
    pub intermediate_dim: u32,
    pub vocab_size: u32,
    pub quantization_schema: u32,
    /// Number of layers in the MTP draft decoder (0 = no draft model).
    pub draft_num_layers: u32,
    /// Segment directory
    pub segments: [SegmentEntry; CIMAGE_SEGMENT_CAPACITY],
    pub _pad: [u8; 8],
}

/// The directory entries one after the other.
pub open spec fn directory_bytes(entries: Seq<SegmentEntry>) -> Seq<u8>
    decreases entries.len(),
{
    if entries.len() == 0 {
        Seq::empty()
    } else {
        directory_bytes(entries.drop_last()) + entries.last().bytes()
    }
}

impl CimageHeader {
    /// The fixed-width fields in front of the segment directory.
    pub open spec fn field_bytes(self) -> Seq<u8> {
        self.magic@ + wire::le_bytes(self.version as nat, 4) + wire::le_bytes(self.segment_count as nat, 4)
            + self.payload_hash@ + wire::le_bytes(self.num_layers as nat, 4) + wire::le_bytes(
            self.num_heads as nat,
            4,
        ) + wire::le_bytes(self.head_dim as nat, 4) + wire::le_bytes(self.hidden_dim as nat, 4) + wire::le_bytes(
            self.intermediate_dim as nat,
            4,
        ) + wire::le_bytes(self.vocab_size as nat, 4) + wire::le_bytes(self.quantization_schema as nat, 4)
            + wire::le_bytes(self.draft_num_layers as nat, 4)
    }

    /// Everything in front of the trailing padding.
    pub open spec fn content_bytes(self) -> Seq<u8> {
        self.field_bytes() + directory_bytes(self.segments@)
    }

    /// The whole wire form; the padding is always written as zeros.
    pub open spec fn bytes(self) -> Seq<u8> {
        self.content_bytes() + Seq::new(8, |i: int| 0u8)
    }

    /// Look up a segment by kind: the first directory entry with that code.
    pub fn segment(&self, kind: SegmentKind) -> (r: Option<SegmentEntry>)
        ensures
            r == first_of_kind(self.segments@, kind as u32),
    {
        let code: u32 = kind as u32;
        let mut i: usize = 0;
        assert(self.segments@.skip(0) =~= self.segments@);
        while i < CIMAGE_SEGMENT_CAPACITY
            invariant
                i <= CIMAGE_SEGMENT_CAPACITY,
                code == kind as u32,
                first_of_kind(self.segments@, code) == first_of_kind(
                    self.segments@.skip(i as int),
                    code,
                ),
            decreases CIMAGE_SEGMENT_CAPACITY - i,
        {
            assert(self.segments@.skip(i as int).drop_first() =~= self.segments@.skip(i + 1));
            if self.segments[i].kind == code {
                return Some(self.segments[i]);
            }
            i = i + 1;
        }
        None
    }

    pub fn is_nf4_tile640(&self) -> (r: bool)
        ensures
            r == (self.quantization_schema == QUANT_SCHEMA_NF4_TILE640),
    {
        self.quantization_schema == QUANT_SCHEMA_NF4_TILE640
    }

    pub fn primary_weight_segment_kind(&self) -> (r: SegmentKind)
        ensures
            r == self.primary_kind(),
    {
        if self.is_nf4_tile640() {
            SegmentKind::Nf4Tile640Weights
        } else {
            SegmentKind::TernaryWeights
        }
    }

    /// The kind of segment that holds the weights under this header's schema.
    pub open spec fn primary_kind(self) -> SegmentKind {
        if self.quantization_schema == QUANT_SCHEMA_NF4_TILE640 {
            SegmentKind::Nf4Tile640Weights
        } else {
            SegmentKind::TernaryWeights
        }
    }

    pub fn primary_weight_segment(&self) -> (r: Option<SegmentEntry>)
        ensures
            r == first_of_kind(self.segments@, self.primary_kind() as u32),
    {
        self.segment(self.primary_weight_segment_kind())
    }
}

/// The first entry whose kind is `code`, if there is one.
pub open spec fn first_of_kind(entries: Seq<SegmentEntry>, code: u32) -> Option<SegmentEntry>
    decreases entries.len(),
{
    if entries.len() == 0 {
        None
    } else if entries[0].kind == code {
        Some(entries[0])
    } else {
        first_of_kind(entries.drop_first(), code)
    }
}

/// What reading a header gives: the header whose wire form is the first 720
/// bytes, with zero padding.
pub open spec fn header_decodes(data: Seq<u8>, h: CimageHeader) -> bool {
    &&& data.len() >= CIMAGE_HEADER_WIRE_SIZE
    &&& h.content_bytes() == data.subrange(0, 720)
    &&& h._pad@ == Seq::new(8, |i: int| 0u8)
}

/// Serialize a CimageHeader in canonical little-endian format.
pub fn write_cimage_header_le(writer: &mut Vec<u8>, header: &CimageHeader)
    ensures
        final(writer)@ == old(writer)@ + header.bytes(),
{
    let ghost start = writer@;
    writer.extend_from_slice(header.magic.as_slice());
    wire::push_le(writer, header.version as u64, 4);
    wire::push_le(writer, header.segment_count as u64, 4);
    writer.extend_from_slice(header.payload_hash.as_slice());
    wire::push_le(writer, header.num_layers as u64, 4);
    wire::push_le(writer, header.num_heads as u64, 4);
    wire::push_le(writer, header.head_dim as u64, 4);
    wire::push_le(writer, header.hidden_dim as u64, 4);
    wire::push_le(writer, header.intermediate_dim as u64, 4);
    wire::push_le(writer, header.vocab_size as u64, 4);
    wire::push_le(writer, header.quantization_schema as u64, 4);
    wire::push_le(writer, header.draft_num_layers as u64, 4);
    assert(writer@ =~= start + header.field_bytes());
    let mut i: usize = 0;
    assert(header.segments@.take(0) =~= Seq::<SegmentEntry>::empty());
    assert(writer@ =~= start + header.field_bytes() + directory_bytes(header.segments@.take(0)));
    while i < CIMAGE_SEGMENT_CAPACITY
        invariant
            i <= CIMAGE_SEGMENT_CAPACITY,
            writer@ == start + header.field_bytes() + directory_bytes(
                header.segments@.take(i as int),
            ),
        decreases CIMAGE_SEGMENT_CAPACITY - i,
    {
        let ghost before = writer@;
        wire::push_le(writer, header.segments[i].kind as u64, 4);
        wire::push_le(writer, header.segments[i].offset, 8);
        wire::push_le(writer, header.segments[i].length, 8);
        proof {
            let next = header.segments@.take(i + 1);
            assert(next.drop_last() =~= header.segments@.take(i as int));
            assert(writer@ =~= before + next.last().bytes());
            assert(writer@ =~= start + header.field_bytes() + directory_bytes(next));
        }
        i = i + 1;
    }
    assert(header.segments@.take(32) =~= header.segments@);
    wire::push_zeros(writer, 8);
    assert(writer@ =~= start + header.bytes());
}

/// The message for a header that is cut short.
pub open spec fn header_too_small(len: nat) -> Seq<char> {
    "cimage header too small: "@ + text::decimal(len) + " < "@ + text::decimal(728)
}

/// Parse a CimageHeader from a byte slice (canonical little-endian format).
pub fn read_cimage_header_le(data: &[u8]) -> (r: Result<CimageHeader, String>)
    ensures
        match r {
            Ok(h) => h.magic == PRISM_MAGIC && header_decodes(data@, h),
            Err(e) => if data@.len() < CIMAGE_HEADER_WIRE_SIZE {
                e@ == header_too_small(data@.len())
            } else {
                data@.subrange(0, 8) != PRISM_MAGIC@ && e@ == "bad magic: "@ + text::byte_list(
                    data@.subrange(0, 8),
                )
            },
        },
        r is Ok <==> data@.len() >= CIMAGE_HEADER_WIRE_SIZE && data@.subrange(0, 8) == PRISM_MAGIC@,
{
    if data.len() < CIMAGE_HEADER_WIRE_SIZE {
        let mut e: String = "cimage header too small: ".to_owned();
        text::push_decimal(&mut e, data.len() as u64);
        e.append(" < ");
        text::push_decimal(&mut e, CIMAGE_HEADER_WIRE_SIZE as u64);
        assert(e@ =~= header_too_small(data@.len()));
        return Err(e);
    }
    let magic: [u8; 8] = wire::take8(data, 0);
    let expected: [u8; 8] = PRISM_MAGIC;
    let mut i: usize = 0;
    while i < 8
        invariant
            i <= 8,
            magic@ == data@.subrange(0, 8),
            expected == PRISM_MAGIC,
            data.len() >= CIMAGE_HEADER_WIRE_SIZE,
            forall|j: int| 0 <= j < i ==> magic@[j] == expected@[j],
        decreases 8 - i,
    {
        if magic[i] != expected[i] {
            let mut e: String = "bad magic: ".to_owned();
            text::push_byte_list(&mut e, magic.as_slice());
            return Err(e);
        }
        i = i + 1;
    }
    assert(magic =~= expected);
    let version: u32 = wire::field(data, 0, 8, 4) as u32;
    let segment_count: u32 = wire::field(data, 0, 12, 4) as u32;
    let payload_hash: [u8; 32] = wire::take32(data, 16);
    assert(data@.subrange(0, 48) =~= data@.subrange(0, 16) + payload_hash@);
    let num_layers: u32 = wire::field(data, 0, 48, 4) as u32;
    let num_heads: u32 = wire::field(data, 0, 52, 4) as u32;
    let head_dim: u32 = wire::field(data, 0, 56, 4) as u32;
    let hidden_dim: u32 = wire::field(data, 0, 60, 4) as u32;
    let intermediate_dim: u32 = wire::field(data, 0, 64, 4) as u32;
    let vocab_size: u32 = wire::field(data, 0, 68, 4) as u32;
    let quantization_schema: u32 = wire::field(data, 0, 72, 4) as u32;
    let draft_num_layers: u32 = wire::field(data, 0, 76, 4) as u32;
    proof {
        wire::lemma_byte_ranges();
    }
    let segments: [SegmentEntry; CIMAGE_SEGMENT_CAPACITY] = read_directory(data, 80);
    let header: CimageHeader = CimageHeader {
        magic,
        version,
        segment_count,
        payload_hash,
        num_layers,
        num_heads,
        head_dim,
        hidden_dim,
        intermediate_dim,
        vocab_size,
        quantization_schema,
        draft_num_layers,
        segments,
        _pad: [0u8; 8],
    };
    proof {
        assert(header.field_bytes() =~= data@.subrange(0, 80));
        assert(data@.subrange(0, 720) =~= data@.subrange(0, 80) + data@.subrange(80, 720));
        assert(header._pad@ =~= Seq::new(8, |i: int| 0u8));
    }
    Ok(header)
}

fn read_directory(data: &[u8], at: usize) -> (r: [SegmentEntry; CIMAGE_SEGMENT_CAPACITY])
    requires
        at + 640 <= data.len(),
    ensures
        directory_bytes(r@) == data@.subrange(at as int, at + 640),
{
    let mut arr: [SegmentEntry; CIMAGE_SEGMENT_CAPACITY] = [SegmentEntry {
        kind: 0,
        offset: 0,
        length: 0,
    };CIMAGE_SEGMENT_CAPACITY];
    let mut i: usize = 0;
    assert(arr@.take(0) =~= Seq::<SegmentEntry>::empty());
    assert(data@.subrange(at as int, at as int) =~= Seq::<u8>::empty());
    while i < CIMAGE_SEGMENT_CAPACITY
        invariant
            i <= CIMAGE_SEGMENT_CAPACITY,
            at + 640 <= data.len(),
            directory_bytes(arr@.take(i as int)) == data@.subrange(at as int, at + 20 * i),
        decreases CIMAGE_SEGMENT_CAPACITY - i,
    {
        let off: usize = at + 20 * i;
        let ghost before = arr@;
        let kind: u32 = wire::field(data, off, off, 4) as u32;
        let offset: u64 = wire::field(data, off, off + 4, 8);
        let length: u64 = wire::field(data, off, off + 12, 8);
        arr[i] = SegmentEntry { kind, offset, length };
        proof {
            wire::lemma_byte_ranges();
            let next = arr@.take(i + 1);
            assert(next.drop_last() =~= before.take(i as int));
            assert(data@.subrange(off as int, off as int) =~= Seq::<u8>::empty());
            assert(next.last().bytes() =~= data@.subrange(off as int, off + 20));
            assert(data@.subrange(at as int, off + 20) =~= data@.subrange(at as int, off as int)
                + data@.subrange(off as int, off + 20));
        }
        i = i + 1;
    }
    assert(arr@.take(32) =~= arr@);
    arr
}

/// Where each field of a header stands in its wire form.
proof fn lemma_header_fields(h: CimageHeader)
    ensures
        h.field_bytes().len() == 80,
        h.field_bytes().subrange(0, 8) == h.magic@,
        h.field_bytes().subrange(8, 12) == wire::le_bytes(h.version as nat, 4),
        h.field_bytes().subrange(12, 16) == wire::le_bytes(h.segment_count as nat, 4),
        h.field_bytes().subrange(16, 48) == h.payload_hash@,
        h.field_bytes().subrange(48, 52) == wire::le_bytes(h.num_layers as nat, 4),
        h.field_bytes().subrange(52, 56) == wire::le_bytes(h.num_heads as nat, 4),
        h.field_bytes().subrange(56, 60) == wire::le_bytes(h.head_dim as nat, 4),
        h.field_bytes().subrange(60, 64) == wire::le_bytes(h.hidden_dim as nat, 4),
        h.field_bytes().subrange(64, 68) == wire::le_bytes(h.intermediate_dim as nat, 4),
        h.field_bytes().subrange(68, 72) == wire::le_bytes(h.vocab_size as nat, 4),
        h.field_bytes().subrange(72, 76) == wire::le_bytes(h.quantization_schema as nat, 4),
        h.field_bytes().subrange(76, 80) == wire::le_bytes(h.draft_num_layers as nat, 4),
{
    wire::lemma_le_bytes_len(h.version as nat, 4);
    wire::lemma_le_bytes_len(h.segment_count as nat, 4);
    wire::lemma_le_bytes_len(h.num_layers as nat, 4);
    wire::lemma_le_bytes_len(h.num_heads as nat, 4);
    wire::lemma_le_bytes_len(h.head_dim as nat, 4);
    wire::lemma_le_bytes_len(h.hidden_dim as nat, 4);
    wire::lemma_le_bytes_len(h.intermediate_dim as nat, 4);
    wire::lemma_le_bytes_len(h.vocab_size as nat, 4);
    wire::lemma_le_bytes_len(h.quantization_schema as nat, 4);
    wire::lemma_le_bytes_len(h.draft_num_layers as nat, 4);
    let b = h.field_bytes();
    assert(b.subrange(0, 8) =~= h.magic@);
    assert(b.subrange(8, 12) =~= wire::le_bytes(h.version as nat, 4));
    assert(b.subrange(12, 16) =~= wire::le_bytes(h.segment_count as nat, 4));
    assert(b.subrange(16, 48) =~= h.payload_hash@);
    assert(b.subrange(48, 52) =~= wire::le_bytes(h.num_layers as nat, 4));
    assert(b.subrange(52, 56) =~= wire::le_bytes(h.num_heads as nat, 4));
    assert(b.subrange(56, 60) =~= wire::le_bytes(h.head_dim as nat, 4));
    assert(b.subrange(60, 64) =~= wire::le_bytes(h.hidden_dim as nat, 4));
    assert(b.subrange(64, 68) =~= wire::le_bytes(h.intermediate_dim as nat, 4));
    assert(b.subrange(68, 72) =~= wire::le_bytes(h.vocab_size as nat, 4));
    assert(b.subrange(72, 76) =~= wire::le_bytes(h.quantization_schema as nat, 4));
    assert(b.subrange(76, 80) =~= wire::le_bytes(h.draft_num_layers as nat, 4));
}

proof fn lemma_entry_injective(a: SegmentEntry, b: SegmentEntry)
    requires
        a.bytes() == b.bytes(),
    ensures
        a == b,
{
    wire::lemma_byte_ranges();
    lemma_entry_len(a);
    lemma_entry_len(b);
    assert(a.bytes().subrange(0, 4) =~= wire::le_bytes(a.kind as nat, 4));
    assert(b.bytes().subrange(0, 4) =~= wire::le_bytes(b.kind as nat, 4));
    assert(a.bytes().subrange(4, 12) =~= wire::le_bytes(a.offset as nat, 8));
    assert(b.bytes().subrange(4, 12) =~= wire::le_bytes(b.offset as nat, 8));
    assert(a.bytes().subrange(12, 20) =~= wire::le_bytes(a.length as nat, 8));
    assert(b.bytes().subrange(12, 20) =~= wire::le_bytes(b.length as nat, 8));
    wire::lemma_le_bytes_injective(a.kind as nat, b.kind as nat, 4);
    wire::lemma_le_bytes_injective(a.offset as nat, b.offset as nat, 8);
    wire::lemma_le_bytes_injective(a.length as nat, b.length as nat, 8);
}

proof fn lemma_entry_len(e: SegmentEntry)
    ensures
        e.bytes().len() == 20,
        wire::le_bytes(e.kind as nat, 4).len() == 4,
        wire::le_bytes(e.offset as nat, 8).len() == 8,
        wire::le_bytes(e.length as nat, 8).len() == 8,
{
    wire::lemma_le_bytes_len(e.kind as nat, 4);
    wire::lemma_le_bytes_len(e.offset as nat, 8);
    wire::lemma_le_bytes_len(e.length as nat, 8);
}

proof fn lemma_directory_len(entries: Seq<SegmentEntry>)
    ensures
        directory_bytes(entries).len() == 20 * entries.len(),
    decreases entries.len(),
{
    if entries.len() > 0 {
        lemma_directory_len(entries.drop_last());
        lemma_entry_len(entries.last());
    }
}

proof fn lemma_directory_injective(a: Seq<SegmentEntry>, b: Seq<SegmentEntry>)
    requires
        a.len() == b.len(),
        directory_bytes(a) == directory_bytes(b),
    ensures
        a == b,
    decreases a.len(),
{
    if a.len() > 0 {
        lemma_directory_len(a.drop_last());
        lemma_directory_len(b.drop_last());
        lemma_entry_len(a.last());
        lemma_entry_len(b.last());
        let n = directory_bytes(a.drop_last()).len() as int;
        assert(directory_bytes(a).subrange(0, n) =~= directory_bytes(a.drop_last()));
        assert(directory_bytes(b).subrange(0, n) =~= directory_bytes(b.drop_last()));
        assert(directory_bytes(a).subrange(n, n + 20) =~= a.last().bytes());
        assert(directory_bytes(b).subrange(n, n + 20) =~= b.last().bytes());
        lemma_directory_injective(a.drop_last(), b.drop_last());
        lemma_entry_injective(a.last(), b.last());
        assert(a =~= a.drop_last().push(a.last()));
        assert(b =~= b.drop_last().push(b.last()));
    } else {
        assert(a =~= b);
    }
}

/// Two headers with the same wire form and the same padding are the same.
pub proof fn law_header_injective(a: CimageHeader, b: CimageHeader)
    requires
        a.content_bytes() == b.content_bytes(),
        a._pad@ == b._pad@,
    ensures
        a == b,
{
    lemma_header_fields(a);
    lemma_header_fields(b);
    lemma_directory_len(a.segments@);
    lemma_directory_len(b.segments@);
    assert(a.content_bytes().subrange(0, 80) =~= a.field_bytes());
    assert(b.content_bytes().subrange(0, 80) =~= b.field_bytes());
    assert(a.content_bytes().subrange(80, 720) =~= directory_bytes(a.segments@));
    assert(b.content_bytes().subrange(80, 720) =~= directory_bytes(b.segments@));
    lemma_directory_injective(a.segments@, b.segments@);
    wire::lemma_byte_ranges();
    wire::lemma_le_bytes_injective(a.version as nat, b.version as nat, 4);
    wire::lemma_le_bytes_injective(a.segment_count as nat, b.segment_count as nat, 4);
    wire::lemma_le_bytes_injective(a.num_layers as nat, b.num_layers as nat, 4);
    wire::lemma_le_bytes_injective(a.num_heads as nat, b.num_heads as nat, 4);
    wire::lemma_le_bytes_injective(a.head_dim as nat, b.head_dim as nat, 4);
    wire::lemma_le_bytes_injective(a.hidden_dim as nat, b.hidden_dim as nat, 4);
    wire::lemma_le_bytes_injective(a.intermediate_dim as nat, b.intermediate_dim as nat, 4);
    wire::lemma_le_bytes_injective(a.vocab_size as nat, b.vocab_size as nat, 4);
    wire::lemma_le_bytes_injective(a.quantization_schema as nat, b.quantization_schema as nat, 4);
    wire::lemma_le_bytes_injective(a.draft_num_layers as nat, b.draft_num_layers as nat, 4);
    assert(a.magic =~= b.magic);
    assert(a.payload_hash =~= b.payload_hash);
    assert(a.segments =~= b.segments);
    assert(a._pad =~= b._pad);
}

/// The wire form of a header is 728 bytes long.
pub proof fn law_header_wire_size(h: CimageHeader)
    ensures
        h.content_bytes().len() == 720,
        h.bytes().len() == CIMAGE_HEADER_WIRE_SIZE,
{
    lemma_header_fields(h);
    lemma_directory_len(h.segments@);
}

/// Reading what was written gives the header back: an image that starts with
/// the wire form of a header with the right magic and zero padding decodes to
/// that header and to no other.
pub proof fn law_header_round_trip(h: CimageHeader, rest: Seq<u8>, r: CimageHeader)
    requires
        h.magic == PRISM_MAGIC,
        h._pad@ == Seq::new(8, |i: int| 0u8),
        header_decodes(h.bytes() + rest, r),
    ensures
        (h.bytes() + rest).len() >= CIMAGE_HEADER_WIRE_SIZE,
        (h.bytes() + rest).subrange(0, 8) == PRISM_MAGIC@,
        header_decodes(h.bytes() + rest, h),
        r == h,
{
    law_header_wire_size(h);
    lemma_header_fields(h);
    let data = h.bytes() + rest;
    assert(data.subrange(0, 8) =~= h.field_bytes().subrange(0, 8));
    assert(data.subrange(0, 720) =~= h.content_bytes());
    law_header_injective(r, h);
}

/// One entry in the ModelArtifacts segment. Flat binary: tag + length + data.
#[derive(Debug, Clone, Copy)]
pub struct ModelArtifactEntry;

/// The wire form of one artifact: tag, length modulo 2^32, data.
pub open spec fn artifact_bytes(tag: u32, data: Seq<u8>) -> Seq<u8> {
    wire::le_bytes(tag as nat, 4) + wire::le_bytes(data.len(), 4) + data
}

impl ModelArtifactEntry {
    pub const HEADER_SIZE: usize = 8;

    pub fn encode(tag: u32, data: &[u8], out: &mut Vec<u8>)
        ensures
            final(out)@ == old(out)@ + artifact_bytes(tag, data@),
    {
        let ghost start = out@;
        wire::push_le(out, tag as u64, 4);
        wire::push_le(out, data.len() as u64, 4);
        out.extend_from_slice(data);
        assert(out@ =~= start + artifact_bytes(tag, data@));
    }

    pub fn iter_entries(blob: &[u8]) -> (r: ModelArtifactIter<'_>)
        ensures
            r.blob@ == blob@,
            r.pos == 0,
    {
        ModelArtifactIter { blob, pos: 0 }
    }
}

/// Iterator over ModelArtifacts segment entries.
pub struct ModelArtifactIter<'a> {
    pub blob: &'a [u8],
    pub pos: usize,
}

/// The tag of the artifact at `pos`.
pub open spec fn artifact_tag_at(blob: Seq<u8>, pos: int) -> nat {
    wire::le_value(blob.subrange(pos, pos + 4))
}

/// The data length that the artifact at `pos` declares.
pub open spec fn artifact_len_at(blob: Seq<u8>, pos: int) -> nat {
    wire::le_value(blob.subrange(pos + 4, pos + 8))
}

/// Whether the artifact at `pos` is there in full.
pub open spec fn artifact_complete_at(blob: Seq<u8>, pos: int) -> bool {
    pos + 8 <= blob.len() && pos + 8 + artifact_len_at(blob, pos) <= blob.len()
}

/// The artifacts from `pos` on, up to the first that is cut short.
pub open spec fn artifacts_from(blob: Seq<u8>, pos: int) -> Seq<(nat, Seq<u8>)>
    decreases blob.len() - pos,
{
    if artifact_complete_at(blob, pos) {
        let end = pos + 8 + artifact_len_at(blob, pos);
        seq![(artifact_tag_at(blob, pos), blob.subrange(pos + 8, end))] + artifacts_from(blob, end)
    } else {
        Seq::empty()
    }
}

impl<'a> ModelArtifactIter<'a> {
    /// The cursor never runs past the blob.
    pub open spec fn wf(self) -> bool {
        self.pos <= self.blob@.len()
    }

    /// The next entry.  The cursor moves past an entry that is there in full;
    /// behind the eight header bytes of one that is cut short; and stays put
    /// where not even a header is left.
    pub fn next(&mut self) -> (r: Option<(u32, &'a [u8])>)
        requires
            old(self).wf(),
        ensures
            final(self).wf(),
            final(self).blob@ == old(self).blob@,
            r is Some <==> artifact_complete_at(old(self).blob@, old(self).pos as int),
            r matches Some(e) ==> e.0 as nat == artifact_tag_at(
                old(self).blob@,
                old(self).pos as int,
            ) && e.1@ == old(self).blob@.subrange(old(self).pos + 8, final(self).pos as int),
            final(self).pos == if old(self).pos + 8 > old(self).blob@.len() {
                old(self).pos as int
            } else if artifact_complete_at(old(self).blob@, old(self).pos as int) {
                old(self).pos + 8 + artifact_len_at(old(self).blob@, old(self).pos as int)
            } else {
                old(self).pos + 8
            },
            artifacts_from(old(self).blob@, old(self).pos as int) == match r {
                Some(e) => seq![(e.0 as nat, e.1@)] + artifacts_from(
                    old(self).blob@,
                    final(self).pos as int,
                ),
                None => Seq::empty(),
            },
    {
        if self.blob.len() - self.pos < 8 {
            return None;
        }
        let tag: u64 = wire::read_le(self.blob, self.pos, 4);
        let len: u64 = wire::read_le(self.blob, self.pos + 4, 4);
        proof {
            wire::lemma_byte_ranges();
        }
        self.pos = self.pos + 8;
        if ((self.blob.len() - self.pos) as u64) < len {
            return None;
        }
        let end: usize = self.pos + len as usize;
        let data: &'a [u8] = slice_subrange(self.blob, self.pos, end);
        self.pos = end;
        Some((tag as u32, data))
    }
}

/// The wire form of a list of artifacts.
pub open spec fn artifacts_bytes(entries: Seq<(u32, Seq<u8>)>) -> Seq<u8>
    decreases entries.len(),
{
    if entries.len() == 0 {
        Seq::empty()
    } else {
        artifact_bytes(entries[0].0, entries[0].1) + artifacts_bytes(entries.drop_first())
    }
}

proof fn lemma_artifact_header(pre: Seq<u8>, tag: u32, data: Seq<u8>, post: Seq<u8>)
    requires
        data.len() < 0x1_0000_0000,
    ensures
        ({
            let blob = pre + (artifact_bytes(tag, data) + post);
            let pos = pre.len() as int;
            &&& artifact_complete_at(blob, pos)
            &&& artifact_tag_at(blob, pos) == tag as nat
            &&& artifact_len_at(blob, pos) == data.len()
            &&& blob.subrange(pos + 8, pos + 8 + data.len()) == data
        }),
{
    let blob = pre + (artifact_bytes(tag, data) + post);
    let pos = pre.len() as int;
    wire::lemma_byte_ranges();
    wire::lemma_le_bytes_len(tag as nat, 4);
    wire::lemma_le_bytes_len(data.len(), 4);
    assert(blob.subrange(pos, pos + 4) =~= wire::le_bytes(tag as nat, 4));
    assert(blob.subrange(pos + 4, pos + 8) =~= wire::le_bytes(data.len(), 4));
    assert(blob.subrange(pos + 8, pos + 8 + data.len()) =~= data);
    wire::lemma_le_value_of_le_bytes(tag as nat, 4);
    wire::lemma_le_value_of_le_bytes(data.len(), 4);
}

/// Iterating over encoded artifacts gives them back, in order, provided that
/// each length fits its 32-bit field.
pub proof fn law_artifacts_round_trip(pre: Seq<u8>, entries: Seq<(u32, Seq<u8>)>)
    requires
        forall|i: int| 0 <= i < entries.len() ==> (#[trigger] entries[i]).1.len() < 0x1_0000_0000,
    ensures
        artifacts_from(pre + artifacts_bytes(entries), pre.len() as int) == entries.map_values(
            |e: (u32, Seq<u8>)| (e.0 as nat, e.1),
        ),
    decreases entries.len(),
{
    let blob = pre + artifacts_bytes(entries);
    let f = |e: (u32, Seq<u8>)| (e.0 as nat, e.1);
    if entries.len() == 0 {
        assert(entries.map_values(f) =~= Seq::<(nat, Seq<u8>)>::empty());
    } else {
        let (tag, data) = entries[0];
        let tail = entries.drop_first();
        lemma_artifact_header(pre, tag, data, artifacts_bytes(tail));
        let pre2 = pre + artifact_bytes(tag, data);
        wire::lemma_le_bytes_len(tag as nat, 4);
        wire::lemma_le_bytes_len(data.len(), 4);
        assert(pre2 + artifacts_bytes(tail) =~= blob);
        assert forall|i: int| 0 <= i < tail.len() implies (#[trigger] tail[i]).1.len()
            < 0x1_0000_0000 by {
            assert(tail[i] == entries[i + 1]);
        }
        law_artifacts_round_trip(pre2, tail);
        assert(entries.map_values(f) =~= seq![f(entries[0])] + tail.map_values(f));
    }
}

/// Encoding one more artifact appends to the wire form of those before it.
pub proof fn law_encoding_appends(entries: Seq<(u32, Seq<u8>)>, tag: u32, data: Seq<u8>)
    ensures
        artifacts_bytes(entries.push((tag, data))) == artifacts_bytes(entries) + artifact_bytes(
            tag,
            data,
        ),
    decreases entries.len(),
{
    let all = entries.push((tag, data));
    if entries.len() == 0 {
        assert(all.drop_first() =~= entries);
        assert(artifacts_bytes(entries) =~= Seq::<u8>::empty());
        assert(artifacts_bytes(all) =~= artifact_bytes(tag, data));
        assert(artifacts_bytes(entries) + artifact_bytes(tag, data) =~= artifact_bytes(tag, data));
    } else {
        law_encoding_appends(entries.drop_first(), tag, data);
        assert(all.drop_first() =~= entries.drop_first().push((tag, data)));
        assert(artifacts_bytes(all) =~= artifacts_bytes(entries) + artifact_bytes(tag, data));
    }
}

proof fn lemma_last_artifact_fits(entries: Seq<(u32, Seq<u8>)>)
    requires
        entries.len() > 0,
    ensures
        artifacts_bytes(entries).len() >= 8 + entries.last().1.len(),
    decreases entries.len(),
{
    wire::lemma_le_bytes_len(entries[0].0 as nat, 4);
    wire::lemma_le_bytes_len(entries[0].1.len(), 4);
    if entries.len() > 1 {
        assert(entries.drop_first().last() == entries.last());
        lemma_last_artifact_fits(entries.drop_first());
    }
}

/// Iterating over encoded artifacts whose end is cut off, inside the last of them,
/// gives all but that one.
pub proof fn law_cut_artifact_is_left_out(pre: Seq<u8>, entries: Seq<(u32, Seq<u8>)>, cut: int)
    requires
        entries.len() > 0,
        forall|i: int| 0 <= i < entries.len() ==> (#[trigger] entries[i]).1.len() < 0x1_0000_0000,
        1 <= cut <= 8 + entries.last().1.len(),
    ensures
        ({
            let whole = artifacts_bytes(entries);
            artifacts_from(pre + whole.take(whole.len() - cut), pre.len() as int)
                == entries.drop_last().map_values(|e: (u32, Seq<u8>)| (e.0 as nat, e.1))
        }),
    decreases entries.len(),
{
    let whole = artifacts_bytes(entries);
    let f = |e: (u32, Seq<u8>)| (e.0 as nat, e.1);
    let (tag, data) = entries[0];
    let tail = entries.drop_first();
    let pos = pre.len() as int;
    let blob = pre + whole.take(whole.len() - cut);
    wire::lemma_le_bytes_len(tag as nat, 4);
    wire::lemma_le_bytes_len(data.len(), 4);
    lemma_last_artifact_fits(entries);
    if entries.len() == 1 {
        assert(artifacts_bytes(tail) =~= Seq::<u8>::empty());
        assert(whole =~= artifact_bytes(tag, data));
        lemma_artifact_header(pre, tag, data, Seq::empty());
        let full = pre + (artifact_bytes(tag, data) + Seq::<u8>::empty());
        if pos + 8 <= blob.len() {
            assert(blob.subrange(pos + 4, pos + 8) =~= full.subrange(pos + 4, pos + 8));
        }
        assert(!artifact_complete_at(blob, pos));
        assert(entries.drop_last().map_values(f) =~= Seq::<(nat, Seq<u8>)>::empty());
    } else {
        let rest = artifacts_bytes(tail);
        assert(tail.last() == entries.last());
        lemma_last_artifact_fits(tail);
        let post = rest.take(rest.len() - cut);
        let pre2 = pre + artifact_bytes(tag, data);
        assert(blob =~= pre + (artifact_bytes(tag, data) + post));
        assert(blob =~= pre2 + post);
        lemma_artifact_header(pre, tag, data, post);
        assert forall|i: int| 0 <= i < tail.len() implies (#[trigger] tail[i]).1.len()
            < 0x1_0000_0000 by {
            assert(tail[i] == entries[i + 1]);
        }
        law_cut_artifact_is_left_out(pre2, tail, cut);
        assert(entries.drop_last().map_values(f) =~= seq![f(entries[0])]
            + tail.drop_last().map_values(f));
    }
}

/// One entry in the layer directory: exact byte range of a single
/// transformer layer's packed weights, block scales, layer kind, and flags.
///
/// Enables the orchestrator to schedule per-layer Metal barriers and
/// run the ANE MTP model concurrently with GPU weight streaming.
///
/// Total size: 6 x u64 = 48 bytes, alignment-friendly.
#[derive(Debug, Clone, Copy, PartialEq, Eq, Structural)]
pub struct LayerDirectoryEntry {
    /// Byte offset from start of TernaryWeights segment data.
    pub weights_offset: u64,
    /// Byte length of this layer's packed u32 weights.
    pub weights_length: u64,
    /// Byte offset from start of BlockScales segment data.
    pub scales_offset: u64,
    /// Byte length of this layer's FP16 block scales.
    pub scales_length: u64,
    /// Kind identifier for this layer (e.g. attention vs. feed-forward).
    pub layer_kind: u64,
    /// Flags for this layer entry.
    pub flags: u64,
}

impl Default for LayerDirectoryEntry {
    fn default() -> (r: Self)
        ensures
            r == (LayerDirectoryEntry {
                weights_offset: 0,
                weights_length: 0,
                scales_offset: 0,
                scales_length: 0,
                layer_kind: 0,
                flags: 0,
            }),
    {
        Self::new(0, 0, 0, 0, 0, 0)
    }
}

impl LayerDirectoryEntry {
    pub fn new(
        weights_offset: u64,
        weights_length: u64,
        scales_offset: u64,
        scales_length: u64,
        layer_kind: u64,
        flags: u64,
    ) -> (r: Self)
        ensures
            r == (LayerDirectoryEntry {
                weights_offset,
                weights_length,
                scales_offset,
                scales_length,
                layer_kind,
                flags,
            }),
    {
        Self { weights_offset, weights_length, scales_offset, scales_length, layer_kind, flags }
    }

    /// The 48 bytes of the record.
    pub open spec fn bytes(self) -> Seq<u8> {
        wire::le_bytes(self.weights_offset as nat, 8) + wire::le_bytes(
            self.weights_length as nat,
            8,
        ) + wire::le_bytes(self.scales_offset as nat, 8) + wire::le_bytes(
            self.scales_length as nat,
            8,
        ) + wire::le_bytes(self.layer_kind as nat, 8) + wire::le_bytes(self.flags as nat, 8)
    }

    /// Appends the 48 bytes of the record.
    pub fn write_le(&self, out: &mut Vec<u8>)
        ensures
            final(out)@ == old(out)@ + self.bytes(),
    {
        let ghost start = out@;
        wire::push_le(out, self.weights_offset, 8);
        wire::push_le(out, self.weights_length, 8);
        wire::push_le(out, self.scales_offset, 8);
        wire::push_le(out, self.scales_length, 8);
        wire::push_le(out, self.layer_kind, 8);
        wire::push_le(out, self.flags, 8);
        assert(out@ =~= start + self.bytes());
    }

    /// The record whose bytes open `data`; `None` where fewer than 48 are left.
    pub fn read_le(data: &[u8]) -> (r: Option<Self>)
        ensures
            r is Some <==> data@.len() >= 48,
            r matches Some(e) ==> e.bytes() == data@.subrange(0, 48),
    {
        if data.len() < 48 {
            return None;
        }
        let weights_offset: u64 = wire::field(data, 0, 0, 8);
        let weights_length: u64 = wire::field(data, 0, 8, 8);
        let scales_offset: u64 = wire::field(data, 0, 16, 8);
        let scales_length: u64 = wire::field(data, 0, 24, 8);
        let layer_kind: u64 = wire::field(data, 0, 32, 8);
        let flags: u64 = wire::field(data, 0, 40, 8);
        let e: LayerDirectoryEntry = LayerDirectoryEntry {
            weights_offset,
            weights_length,
            scales_offset,
            scales_length,
            layer_kind,
            flags,
        };
        assert(data@.subrange(0, 0) =~= Seq::<u8>::empty());
        assert(e.bytes() =~= data@.subrange(0, 48));
        Some(e)
    }
}

/// A layer directory record is 48 bytes long and its bytes determine it.
pub proof fn law_layer_directory_round_trip(a: LayerDirectoryEntry, b: LayerDirectoryEntry)
    ensures
        a.bytes().len() == 48,
        a.bytes() == b.bytes() ==> a == b,
{
    wire::lemma_byte_ranges();
    assert forall|e: LayerDirectoryEntry| true implies (#[trigger] e.bytes()).len() == 48
        && e.bytes().subrange(0, 8) == wire::le_bytes(e.weights_offset as nat, 8)
        && e.bytes().subrange(8, 16) == wire::le_bytes(e.weights_length as nat, 8)
        && e.bytes().subrange(16, 24) == wire::le_bytes(e.scales_offset as nat, 8)
        && e.bytes().subrange(24, 32) == wire::le_bytes(e.scales_length as nat, 8)
        && e.bytes().subrange(32, 40) == wire::le_bytes(e.layer_kind as nat, 8)
        && e.bytes().subrange(40, 48) == wire::le_bytes(e.flags as nat, 8) by {
        wire::lemma_le_bytes_len(e.weights_offset as nat, 8);
        wire::lemma_le_bytes_len(e.weights_length as nat, 8);
        wire::lemma_le_bytes_len(e.scales_offset as nat, 8);
        wire::lemma_le_bytes_len(e.scales_length as nat, 8);
        wire::lemma_le_bytes_len(e.layer_kind as nat, 8);
        wire::lemma_le_bytes_len(e.flags as nat, 8);
        assert(e.bytes().subrange(0, 8) =~= wire::le_bytes(e.weights_offset as nat, 8));
        assert(e.bytes().subrange(8, 16) =~= wire::le_bytes(e.weights_length as nat, 8));
        assert(e.bytes().subrange(16, 24) =~= wire::le_bytes(e.scales_offset as nat, 8));
        assert(e.bytes().subrange(24, 32) =~= wire::le_bytes(e.scales_length as nat, 8));
        assert(e.bytes().subrange(32, 40) =~= wire::le_bytes(e.layer_kind as nat, 8));
        assert(e.bytes().subrange(40, 48) =~= wire::le_bytes(e.flags as nat, 8));
    }
    let x = a.bytes();
    let y = b.bytes();
    if x == y {
        wire::lemma_le_bytes_injective(a.weights_offset as nat, b.weights_offset as nat, 8);
        wire::lemma_le_bytes_injective(a.weights_length as nat, b.weights_length as nat, 8);
        wire::lemma_le_bytes_injective(a.scales_offset as nat, b.scales_offset as nat, 8);
        wire::lemma_le_bytes_injective(a.scales_length as nat, b.scales_length as nat, 8);
        wire::lemma_le_bytes_injective(a.layer_kind as nat, b.layer_kind as nat, 8);
        wire::lemma_le_bytes_injective(a.flags as nat, b.flags as nat, 8);
    }
}

/// Role of an embedded ANE/NPU model within the cimage.
#[derive(Debug, Clone, Copy, PartialEq, Eq, Structural)]
pub enum AneModelRole {
    Prefill,
    MtpDecode,
    VisionEncoder,
    Unknown,
}

impl AneModelRole {
    /// The code stored in a descriptor; unknown roles are 255.
    pub open spec fn role_code(self) -> u32 {
        match self {
            AneModelRole::Prefill => 0,
            AneModelRole::MtpDecode => 1,
            AneModelRole::VisionEncoder => 2,
            AneModelRole::Unknown => 0xFF,
        }
    }

    pub fn code(self) -> (r: u32)
        ensures
            r == self.role_code(),
    {
        match self {
            AneModelRole::Prefill => 0,
            AneModelRole::MtpDecode => 1,
            AneModelRole::VisionEncoder => 2,
            AneModelRole::Unknown => 0xFF,
        }
    }
}

impl Default for AneModelRole {
    fn default() -> (r: Self)
        ensures
            r == AneModelRole::Unknown,
    {
        AneModelRole::Unknown
    }
}

/// Describes the I/O contract of an embedded ANE/NPU model segment.
/// Stored alongside AneArchive segments so the orchestrator can dispatch
/// without introspecting Core ML metadata at runtime.
#[derive(Debug, Clone, Copy)]
pub struct AneModelDescriptor {
    pub role: u32,
    pub input_schema_digest: [u8; 32],
    pub output_schema_digest: [u8; 32],
    pub supports_stateful_decode: u8,
    pub max_sequence_length: u32,
    pub token_input_name_offset: u32,
    pub logits_output_name_offset: u32,
    pub _pad: [u8; 9],
}

impl Default for AneModelDescriptor {
    fn default() -> (r: Self)
        ensures
            r.role == 0,
            r.input_schema_digest@ == Seq::new(32, |i: int| 0u8),
            r.output_schema_digest@ == Seq::new(32, |i: int| 0u8),
            r.supports_stateful_decode == 0,
            r.max_sequence_length == 0,
            r.token_input_name_offset == 0,
            r.logits_output_name_offset == 0,
            r._pad@ == Seq::new(9, |i: int| 0u8),
    {
        let r: AneModelDescriptor = AneModelDescriptor {
            role: 0,
            input_schema_digest: [0u8; 32],
            output_schema_digest: [0u8; 32],
            supports_stateful_decode: 0,
            max_sequence_length: 0,
            token_input_name_offset: 0,
            logits_output_name_offset: 0,
            _pad: [0u8; 9],
        };
        assert(r.input_schema_digest@ =~= Seq::new(32, |i: int| 0u8));
        assert(r.output_schema_digest@ =~= Seq::new(32, |i: int| 0u8));
        assert(r._pad@ =~= Seq::new(9, |i: int| 0u8));
        r
    }
}

#[derive(Debug, Clone, Copy, PartialEq, Eq, Structural)]
pub struct TensorRecord {
    pub offset: u64,
    pub length: u64,
}

impl TensorRecord {
    /// The 16 bytes of the record.
    pub open spec fn bytes(self) -> Seq<u8> {
        wire::le_bytes(self.offset as nat, 8) + wire::le_bytes(self.length as nat, 8)
    }

    pub fn new(offset: u64, length: u64) -> (r: Self)
        ensures
            r.offset == offset,
            r.length == length,
    {
        Self { offset, length }
    }
}

impl Default for TensorRecord {
    fn default() -> (r: Self)
        ensures
            r.offset == 0,
            r.length == 0,
    {
        Self::new(0, 0)
    }
}

#[derive(Debug, Clone, Copy)]
pub struct CimageLayoutMeta {
    pub embed_clustered: TensorRecord,
    pub centroid_table: TensorRecord,
    pub cluster_map: TensorRecord,
    pub ternary_weights: TensorRecord,
    pub block_scales: TensorRecord,
    pub aux: TensorRecord,
    pub _pad: [u8; 32],
}

impl CimageLayoutMeta {
    /// The 128 bytes of the layout record.
    pub open spec fn bytes(self) -> Seq<u8> {
        self.embed_clustered.bytes() + self.centroid_table.bytes() + self.cluster_map.bytes()
            + self.ternary_weights.bytes() + self.block_scales.bytes() + self.aux.bytes()
            + self._pad@
    }

    /// A layout with every record empty.
    pub open spec fn is_empty_layout(self) -> bool {
        let none = TensorRecord { offset: 0, length: 0 };
        &&& self.embed_clustered == none
        &&& self.centroid_table == none
        &&& self.cluster_map == none
        &&& self.ternary_weights == none
        &&& self.block_scales == none
        &&& self.aux == none
        &&& self._pad@ == Seq::new(32, |i: int| 0u8)
    }
}

impl Default for CimageLayoutMeta {
    fn default() -> (r: Self)
        ensures
            r.is_empty_layout(),
    {
        let none: TensorRecord = TensorRecord { offset: 0, length: 0 };
        let r: CimageLayoutMeta = CimageLayoutMeta {
            embed_clustered: none,
            centroid_table: none,
            cluster_map: none,
            ternary_weights: none,
            block_scales: none,
            aux: none,
            _pad: [0u8; 32],
        };
        assert(r._pad@ =~= Seq::new(32, |i: int| 0u8));
        r
    }
}

/// Backward-compatible type aliases
pub type PrismCimageHeader = CimageHeader;

pub type PrismCimageLayoutMeta = CimageLayoutMeta;

fn read_record(data: &[u8], off: usize) -> (r: TensorRecord)
    requires
        off + 16 <= data.len(),
    ensures
        r.bytes() == data@.subrange(off as int, off + 16),
{
    let offset: u64 = wire::field(data, off, off, 8);
    let length: u64 = wire::field(data, off, off + 8, 8);
    assert(data@.subrange(off as int, off as int) =~= Seq::<u8>::empty());
    let r: TensorRecord = TensorRecord { offset, length };
    assert(r.bytes() =~= data@.subrange(off as int, off + 16));
    r
}

fn read_layout(data: &[u8], off: usize) -> (r: CimageLayoutMeta)
    requires
        off + 128 <= data.len(),
    ensures
        r.bytes() == data@.subrange(off as int, off + 128),
{
    let r: CimageLayoutMeta = CimageLayoutMeta {
        embed_clustered: read_record(data, off),
        centroid_table: read_record(data, off + 16),
        cluster_map: read_record(data, off + 32),
        ternary_weights: read_record(data, off + 48),
        block_scales: read_record(data, off + 64),
        aux: read_record(data, off + 80),
        _pad: wire::take32(data, off + 96),
    };
    assert(r.bytes() =~= data@.subrange(off as int, off + 128));
    r
}

/// Whether a directory entry points at a layout record inside the image.
pub open spec fn holds_layout(image: Seq<u8>, e: SegmentEntry) -> bool {
    e.length == 128 && e.offset + e.length <= image.len()
}

/// The layout that an image with header `h` carries: the record its LayoutMeta
/// segment points at, or an empty one where there is none of the right size
/// inside the image.
pub open spec fn layout_of(image: Seq<u8>, h: CimageHeader, layout: CimageLayoutMeta) -> bool {
    match first_of_kind(h.segments@, SegmentKind::LayoutMeta as u32) {
        Some(e) if holds_layout(image, e) => layout.bytes() == image.subrange(
            e.offset as int,
            e.offset + 128,
        ),
        _ => layout.is_empty_layout(),
    }
}

pub fn verify_prism_cimage(bytes: &[u8]) -> (r: Result<
    (PrismCimageHeader, PrismCimageLayoutMeta),
    String,
>)
    ensures
        image_verdict(bytes@, r),
{
    verify_cimage(bytes)
}

/// What verification of an image reports: the reader's error for a bad
/// header, else the header with the layout it points at.
pub open spec fn image_verdict(
    image: Seq<u8>,
    r: Result<(CimageHeader, CimageLayoutMeta), String>,
) -> bool {
    match r {
        Ok((h, layout)) => {
            &&& h.magic == PRISM_MAGIC
            &&& image.subrange(0, 8) == PRISM_MAGIC@
            &&& header_decodes(image, h)
            &&& layout_of(image, h, layout)
        },
        Err(e) => if image.len() < CIMAGE_HEADER_WIRE_SIZE {
            e@ == header_too_small(image.len())
        } else {
            image.subrange(0, 8) != PRISM_MAGIC@ && e@ == "bad magic: "@ + text::byte_list(
                image.subrange(0, 8),
            )
        },
    }
}

pub fn verify_cimage(bytes: &[u8]) -> (r: Result<(CimageHeader, CimageLayoutMeta), String>)
    ensures
        image_verdict(bytes@, r),
{
    let header: CimageHeader = match read_cimage_header_le(bytes) {
        Ok(h) => h,
        Err(e) => {
            return Err(e);
        },
    };
    let layout: CimageLayoutMeta = match header.segment(SegmentKind::LayoutMeta) {
        Some(entry) => {
            let size: u64 = bytes.len() as u64;
            if entry.length == 128 && entry.offset <= size && size - entry.offset >= 128 {
                read_layout(bytes, entry.offset as usize)
            } else {
                CimageLayoutMeta::default()
            }
        },
        None => CimageLayoutMeta::default(),
    };
    Ok((header, layout))
}

/// The fields of a header stand at fixed places of an image, numbers with the lowest byte
/// first.
#[verifier::spinoff_prover]
pub proof fn law_header_fields_stand_in_place(data: &[u8], h: CimageHeader)
    requires
        call_ensures(read_cimage_header_le, (data,), Ok::<CimageHeader, String>(h)),
    ensures
        h.version == wire::le_value(data@.subrange(8, 12)),
        h.segment_count == wire::le_value(data@.subrange(12, 16)),
        h.num_layers == wire::le_value(data@.subrange(48, 52)),
        h.num_heads == wire::le_value(data@.subrange(52, 56)),
        h.head_dim == wire::le_value(data@.subrange(56, 60)),
        h.hidden_dim == wire::le_value(data@.subrange(60, 64)),
        h.intermediate_dim == wire::le_value(data@.subrange(64, 68)),
        h.vocab_size == wire::le_value(data@.subrange(68, 72)),
        h.quantization_schema == wire::le_value(data@.subrange(72, 76)),
        h.draft_num_layers == wire::le_value(data@.subrange(76, 80)),
        h.magic@ == data@.subrange(0, 8),
        h.payload_hash@ == data@.subrange(16, 48),
{
    lemma_header_fields(h);
    lemma_directory_len(h.segments@);
    wire::lemma_byte_ranges();
    assert(data@.subrange(0, 720) == h.content_bytes());
    assert forall|i: int| 0 <= i < 80 implies data@[i] == #[trigger] h.field_bytes()[i] by {
        assert(data@.subrange(0, 720)[i] == data@[i]);
    }
    assert(data@.subrange(8, 12) =~= h.field_bytes().subrange(8, 12));
    wire::lemma_le_value_of_le_bytes(h.version as nat, 4);
    assert(data@.subrange(12, 16) =~= h.field_bytes().subrange(12, 16));
    wire::lemma_le_value_of_le_bytes(h.segment_count as nat, 4);
    assert(data@.subrange(48, 52) =~= h.field_bytes().subrange(48, 52));
    wire::lemma_le_value_of_le_bytes(h.num_layers as nat, 4);
    assert(data@.subrange(52, 56) =~= h.field_bytes().subrange(52, 56));
    wire::lemma_le_value_of_le_bytes(h.num_heads as nat, 4);
    assert(data@.subrange(56, 60) =~= h.field_bytes().subrange(56, 60));
    wire::lemma_le_value_of_le_bytes(h.head_dim as nat, 4);
    assert(data@.subrange(60, 64) =~= h.field_bytes().subrange(60, 64));
    wire::lemma_le_value_of_le_bytes(h.hidden_dim as nat, 4);
    assert(data@.subrange(64, 68) =~= h.field_bytes().subrange(64, 68));
    wire::lemma_le_value_of_le_bytes(h.intermediate_dim as nat, 4);
    assert(data@.subrange(68, 72) =~= h.field_bytes().subrange(68, 72));
    wire::lemma_le_value_of_le_bytes(h.vocab_size as nat, 4);
    assert(data@.subrange(72, 76) =~= h.field_bytes().subrange(72, 76));
    wire::lemma_le_value_of_le_bytes(h.quantization_schema as nat, 4);
    assert(data@.subrange(76, 80) =~= h.field_bytes().subrange(76, 80));
    wire::lemma_le_value_of_le_bytes(h.draft_num_layers as nat, 4);
    assert(data@.subrange(0, 8) =~= h.field_bytes().subrange(0, 8));
    assert(data@.subrange(16, 48) =~= h.field_bytes().subrange(16, 48));
}

proof fn lemma_directory_entry(entries: Seq<SegmentEntry>, i: int)
    requires
        0 <= i < entries.len(),
    ensures
        directory_bytes(entries).len() == 20 * entries.len(),
        directory_bytes(entries).subrange(20 * i, 20 * i + 20) == entries[i].bytes(),
    decreases entries.len(),
{
    let rest = entries.drop_last();
    lemma_directory_len(entries);
    lemma_directory_len(rest);
    lemma_entry_len(entries.last());
    if i < rest.len() {
        lemma_directory_entry(rest, i);
        assert(directory_bytes(entries).subrange(20 * i, 20 * i + 20) =~= directory_bytes(
            rest,
        ).subrange(20 * i, 20 * i + 20));
    } else {
        assert(directory_bytes(entries).subrange(20 * i, 20 * i + 20) =~= entries.last().bytes());
    }
}

/// Entry `i` of the segment directory stands 20 bytes behind the one before it, from
/// byte 80 on: its kind, its place and its length.
#[verifier::spinoff_prover]
pub proof fn law_directory_entries_stand_in_place(data: &[u8], h: CimageHeader, i: int)
    requires
        call_ensures(read_cimage_header_le, (data,), Ok::<CimageHeader, String>(h)),
        0 <= i < 32,
    ensures
        h.segments@[i].kind == wire::le_value(data@.subrange(80 + 20 * i, 84 + 20 * i)),
        h.segments@[i].offset == wire::le_value(data@.subrange(84 + 20 * i, 92 + 20 * i)),
        h.segments@[i].length == wire::le_value(data@.subrange(92 + 20 * i, 100 + 20 * i)),
{
    let e = h.segments@[i];
    lemma_header_fields(h);
    lemma_directory_len(h.segments@);
    lemma_directory_entry(h.segments@, i);
    wire::lemma_byte_ranges();
    wire::lemma_le_bytes_len(e.kind as nat, 4);
    wire::lemma_le_bytes_len(e.offset as nat, 8);
    wire::lemma_le_bytes_len(e.length as nat, 8);
    let all = directory_bytes(h.segments@);
    assert(data@.subrange(0, 720) == h.content_bytes());
    let part = all.subrange(20 * i, 20 * i + 20);
    assert forall|j: int| 0 <= j < 20 implies data@[80 + 20 * i + j] == #[trigger] part[j] by {
        assert(data@.subrange(0, 720)[80 + 20 * i + j] == all[20 * i + j]);
    }
    assert(data@.subrange(80 + 20 * i, 84 + 20 * i) =~= wire::le_bytes(e.kind as nat, 4)) by {
        assert(part.subrange(0, 4) =~= wire::le_bytes(e.kind as nat, 4));
        assert(data@.subrange(80 + 20 * i, 84 + 20 * i) =~= part.subrange(0, 4));
    }
    assert(data@.subrange(84 + 20 * i, 92 + 20 * i) =~= wire::le_bytes(e.offset as nat, 8)) by {
        assert(part.subrange(4, 12) =~= wire::le_bytes(e.offset as nat, 8));
        assert(data@.subrange(84 + 20 * i, 92 + 20 * i) =~= part.subrange(4, 12));
    }
    assert(data@.subrange(92 + 20 * i, 100 + 20 * i) =~= wire::le_bytes(e.length as nat, 8)) by {
        assert(part.subrange(12, 20) =~= wire::le_bytes(e.length as nat, 8));
        assert(data@.subrange(92 + 20 * i, 100 + 20 * i) =~= part.subrange(12, 20));
    }
    wire::lemma_le_value_of_le_bytes(e.kind as nat, 4);
    wire::lemma_le_value_of_le_bytes(e.offset as nat, 8);
    wire::lemma_le_value_of_le_bytes(e.length as nat, 8);
}

/// A segment is looked up by its kind: the first entry of the directory with the code of
/// the kind is given, and there is none exactly where no entry has it.
pub proof fn law_segment_is_the_first_of_its_kind(
    h: &CimageHeader,
    kind: SegmentKind,
    r: Option<SegmentEntry>,
)
    requires
        call_ensures(CimageHeader::segment, (h, kind), r),
    ensures
        match r {
            Some(e) => exists|i: int|
                0 <= i < 32 && #[trigger] h.segments@[i] == e && e.kind == kind as u32 && forall|
                    j: int,
                |
                    0 <= j < i ==> (#[trigger] h.segments@[j]).kind != kind as u32,
            None => forall|i: int|
                0 <= i < 32 ==> (#[trigger] h.segments@[i]).kind != kind as u32,
        },
{
    lemma_first_of_kind(h.segments@, kind as u32);
}

proof fn lemma_first_of_kind(entries: Seq<SegmentEntry>, code: u32)
    ensures
        match first_of_kind(entries, code) {
            Some(e) => exists|i: int|
                0 <= i < entries.len() && #[trigger] entries[i] == e && e.kind == code && forall|
                    j: int,
                |
                    0 <= j < i ==> (#[trigger] entries[j]).kind != code,
            None => forall|i: int|
                0 <= i < entries.len() ==> (#[trigger] entries[i]).kind != code,
        },
    decreases entries.len(),
{
    if entries.len() > 0 {
        let rest = entries.drop_first();
        if entries[0].kind == code {
            assert(entries[0] == first_of_kind(entries, code)->0);
        } else {
            lemma_first_of_kind(rest, code);
            match first_of_kind(rest, code) {
                Some(e) => {
                    let i = choose|i: int|
                        0 <= i < rest.len() && #[trigger] rest[i] == e && e.kind == code && forall|
                            j: int,
                        |
                            0 <= j < i ==> (#[trigger] rest[j]).kind != code;
                    assert(entries[i + 1] == e);
                    assert forall|j: int| 0 <= j < i + 1 implies (#[trigger] entries[j]).kind
                        != code by {
                        if j > 0 {
                            assert(rest[j - 1] == entries[j]);
                        }
                    }
                },
                None => {
                    assert forall|i: int| 0 <= i < entries.len() implies (
                    #[trigger] entries[i]).kind != code by {
                        if i > 0 {
                            assert(rest[i - 1] == entries[i]);
                        }
                    }
                },
            }
        }
    }
}

/// The weights of an image lie in the segment for four-bit weights where its schema is
/// that of four bits, and in the one for ternary weights otherwise.
pub proof fn law_weights_lie_where_the_schema_says(h: &CimageHeader, kind: SegmentKind)
    requires
        call_ensures(CimageHeader::primary_weight_segment_kind, (h,), kind),
    ensures
        h.quantization_schema == 1 ==> kind == SegmentKind::Nf4Tile640Weights,
        h.quantization_schema != 1 ==> kind == SegmentKind::TernaryWeights,
{
}

/// The record of a layer is six numbers of eight bytes: where its weights lie and how
/// long they are, the same of its scales, its kind and its flags.
#[verifier::spinoff_prover]
pub proof fn law_layer_record_fields_stand_in_place(data: &[u8], e: LayerDirectoryEntry)
    requires
        call_ensures(LayerDirectoryEntry::read_le, (data,), Some(e)),
    ensures
        e.weights_offset == wire::le_value(data@.subrange(0, 8)),
        e.weights_length == wire::le_value(data@.subrange(8, 16)),
        e.scales_offset == wire::le_value(data@.subrange(16, 24)),
        e.scales_length == wire::le_value(data@.subrange(24, 32)),
        e.layer_kind == wire::le_value(data@.subrange(32, 40)),
        e.flags == wire::le_value(data@.subrange(40, 48)),
{
    wire::lemma_byte_ranges();
    let b = data@.subrange(0, 48);
    wire::lemma_le_bytes_len(e.weights_offset as nat, 8);
    wire::lemma_le_bytes_len(e.weights_length as nat, 8);
    wire::lemma_le_bytes_len(e.scales_offset as nat, 8);
    wire::lemma_le_bytes_len(e.scales_length as nat, 8);
    wire::lemma_le_bytes_len(e.layer_kind as nat, 8);
    wire::lemma_le_bytes_len(e.flags as nat, 8);
    assert(b == e.bytes());
    assert(data@.subrange(0, 8) =~= b.subrange(0, 8));
    assert(b.subrange(0, 8) =~= wire::le_bytes(e.weights_offset as nat, 8));
    assert(data@.subrange(8, 16) =~= b.subrange(8, 16));
    assert(b.subrange(8, 16) =~= wire::le_bytes(e.weights_length as nat, 8));
    assert(data@.subrange(16, 24) =~= b.subrange(16, 24));
    assert(b.subrange(16, 24) =~= wire::le_bytes(e.scales_offset as nat, 8));
    assert(data@.subrange(24, 32) =~= b.subrange(24, 32));
    assert(b.subrange(24, 32) =~= wire::le_bytes(e.scales_length as nat, 8));
    assert(data@.subrange(32, 40) =~= b.subrange(32, 40));
    assert(b.subrange(32, 40) =~= wire::le_bytes(e.layer_kind as nat, 8));
    assert(data@.subrange(40, 48) =~= b.subrange(40, 48));
    assert(b.subrange(40, 48) =~= wire::le_bytes(e.flags as nat, 8));
    wire::lemma_le_value_of_le_bytes(e.weights_offset as nat, 8);
    wire::lemma_le_value_of_le_bytes(e.weights_length as nat, 8);
    wire::lemma_le_value_of_le_bytes(e.scales_offset as nat, 8);
    wire::lemma_le_value_of_le_bytes(e.scales_length as nat, 8);
    wire::lemma_le_value_of_le_bytes(e.layer_kind as nat, 8);
    wire::lemma_le_value_of_le_bytes(e.flags as nat, 8);
}

} // verus!
