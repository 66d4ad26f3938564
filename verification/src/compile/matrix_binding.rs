//! The per-tensor format contract between the packing pass and every runtime
//! dispatch path, version 1, in canonical little-endian form.

use vstd::prelude::*;
use vstd::string::*;

use crate::text;
use crate::wire;

verus! {

/// V1 MatrixWeightBinding with canonical LE serialization.
pub const MATRIX_WEIGHT_BINDING_V1_BYTE_LENGTH: usize = 2 + 4 + 16 + 1 + 2 + 32 + 4 + 4 + 2 + 4 + 2
    + 1 + 1 + 1 + 8 + 8 + 4 + 1 + 8 + 8 + 2 + 1 + 8 + 8 + 1 + 1 + 4 + 1 + 8 + 8 + 4;

#[derive(Debug, Clone, Copy)]
pub struct MatrixWeightBindingV1 {
    pub binding_wire_version: u16,
    pub matrix_id: u32,
    pub tensor_id: [u8; 16],
    pub representation: u8,
    pub representation_version: u16,
    pub kernel_abi_digest: [u8; 32],
    pub in_features: u32,
    pub out_features: u32,
    pub reduction_tile_size: u16,
    pub tiles_per_output_channel: u32,
    pub tail_reduction_count: u16,
    pub macro_layout: u8,
    pub tail_handling: u8,
    pub code_segment: u8,
    pub code_offset: u64,
    pub code_length: u64,
    pub code_tile_stride_bytes: u32,
    pub metadata_segment: u8,
    pub metadata_offset: u64,
    pub metadata_length: u64,
    pub metadata_tile_stride_bytes: u16,
    pub sidecar_segment: u8,
    pub sidecar_offset: u64,
    pub sidecar_length: u64,
    pub sidecar_kind: u8,
    pub sidecar_element_format: u8,
    pub sidecar_count: u32,
    pub residual_segment: u8,
    pub residual_offset: u64,
    pub residual_length: u64,
    pub required_alignment_bytes: u32,
}

impl MatrixWeightBindingV1 {
    /// Which tensor this is and how it is represented.
    pub open spec fn identity_bytes(self) -> Seq<u8> {
        wire::le_bytes(self.binding_wire_version as nat, 2)
            + wire::le_bytes(self.matrix_id as nat, 4)
            + self.tensor_id@
            + wire::le_bytes(self.representation as nat, 1)
            + wire::le_bytes(self.representation_version as nat, 2)
            + self.kernel_abi_digest@
    }

    /// The matrix shape and its tiling.
    pub open spec fn shape_bytes(self) -> Seq<u8> {
        wire::le_bytes(self.in_features as nat, 4)
            + wire::le_bytes(self.out_features as nat, 4)
            + wire::le_bytes(self.reduction_tile_size as nat, 2)
            + wire::le_bytes(self.tiles_per_output_channel as nat, 4)
            + wire::le_bytes(self.tail_reduction_count as nat, 2)
            + wire::le_bytes(self.macro_layout as nat, 1)
            + wire::le_bytes(self.tail_handling as nat, 1)
    }

    /// Where the packed codes stand.
    pub open spec fn code_bytes(self) -> Seq<u8> {
        wire::le_bytes(self.code_segment as nat, 1)
            + wire::le_bytes(self.code_offset as nat, 8)
            + wire::le_bytes(self.code_length as nat, 8)
            + wire::le_bytes(self.code_tile_stride_bytes as nat, 4)
    }

    /// Where the per-tile metadata stands.
    pub open spec fn metadata_bytes(self) -> Seq<u8> {
        wire::le_bytes(self.metadata_segment as nat, 1)
            + wire::le_bytes(self.metadata_offset as nat, 8)
            + wire::le_bytes(self.metadata_length as nat, 8)
            + wire::le_bytes(self.metadata_tile_stride_bytes as nat, 2)
    }

    /// Where the sidecar stands.
    pub open spec fn sidecar_bytes(self) -> Seq<u8> {
        wire::le_bytes(self.sidecar_segment as nat, 1)
            + wire::le_bytes(self.sidecar_offset as nat, 8)
            + wire::le_bytes(self.sidecar_length as nat, 8)
            + wire::le_bytes(self.sidecar_kind as nat, 1)
            + wire::le_bytes(self.sidecar_element_format as nat, 1)
            + wire::le_bytes(self.sidecar_count as nat, 4)
    }

    /// Where the residual stands, and the alignment.
    pub open spec fn residual_bytes(self) -> Seq<u8> {
        wire::le_bytes(self.residual_segment as nat, 1)
            + wire::le_bytes(self.residual_offset as nat, 8)
            + wire::le_bytes(self.residual_length as nat, 8)
            + wire::le_bytes(self.required_alignment_bytes as nat, 4)
    }

    /// The 159 bytes of the record, field after field.
    pub open spec fn bytes(self) -> Seq<u8> {
        self.identity_bytes() + self.shape_bytes() + self.code_bytes() + self.metadata_bytes() + self.sidecar_bytes() + self.residual_bytes()
    }

    /// The rules that a reader enforces: a known version and representation,
    /// and for the tiled representations tiles of 640 with the tail that the
    /// input width leaves over.
    pub open spec fn is_valid(self) -> bool {
        &&& self.binding_wire_version == 1
        &&& self.representation <= 3
        &&& self.representation <= 2 ==> self.reduction_tile_size == 640
        &&& self.representation <= 2 ==> self.tail_reduction_count == self.in_features % 640
    }
}

/// Serialize a MatrixWeightBindingV1 in canonical little-endian format.
pub fn write_matrix_weight_binding_v1_le(w: &mut Vec<u8>, b: &MatrixWeightBindingV1)
    ensures
        final(w)@ == old(w)@ + b.bytes(),
{
    let ghost start = w@;
    let ghost before_identity_bytes = w@;
    wire::push_le(w, b.binding_wire_version as u64, 2);
    wire::push_le(w, b.matrix_id as u64, 4);
    w.extend_from_slice(b.tensor_id.as_slice());
    wire::push_le(w, b.representation as u64, 1);
    wire::push_le(w, b.representation_version as u64, 2);
    w.extend_from_slice(b.kernel_abi_digest.as_slice());
    assert(w@ =~= before_identity_bytes + b.identity_bytes());
    let ghost before_shape_bytes = w@;
    wire::push_le(w, b.in_features as u64, 4);
    wire::push_le(w, b.out_features as u64, 4);
    wire::push_le(w, b.reduction_tile_size as u64, 2);
    wire::push_le(w, b.tiles_per_output_channel as u64, 4);
    wire::push_le(w, b.tail_reduction_count as u64, 2);
    wire::push_le(w, b.macro_layout as u64, 1);
    wire::push_le(w, b.tail_handling as u64, 1);
    assert(w@ =~= before_shape_bytes + b.shape_bytes());
    let ghost before_code_bytes = w@;
    wire::push_le(w, b.code_segment as u64, 1);
    wire::push_le(w, b.code_offset, 8);
    wire::push_le(w, b.code_length, 8);
    wire::push_le(w, b.code_tile_stride_bytes as u64, 4);
    assert(w@ =~= before_code_bytes + b.code_bytes());
    let ghost before_metadata_bytes = w@;
    wire::push_le(w, b.metadata_segment as u64, 1);
    wire::push_le(w, b.metadata_offset, 8);
    wire::push_le(w, b.metadata_length, 8);
    wire::push_le(w, b.metadata_tile_stride_bytes as u64, 2);
    assert(w@ =~= before_metadata_bytes + b.metadata_bytes());
    let ghost before_sidecar_bytes = w@;
    wire::push_le(w, b.sidecar_segment as u64, 1);
    wire::push_le(w, b.sidecar_offset, 8);
    wire::push_le(w, b.sidecar_length, 8);
    wire::push_le(w, b.sidecar_kind as u64, 1);
    wire::push_le(w, b.sidecar_element_format as u64, 1);
    wire::push_le(w, b.sidecar_count as u64, 4);
    assert(w@ =~= before_sidecar_bytes + b.sidecar_bytes());
    let ghost before_residual_bytes = w@;
    wire::push_le(w, b.residual_segment as u64, 1);
    wire::push_le(w, b.residual_offset, 8);
    wire::push_le(w, b.residual_length, 8);
    wire::push_le(w, b.required_alignment_bytes as u64, 4);
    assert(w@ =~= before_residual_bytes + b.residual_bytes());
    assert(w@ =~= start + b.bytes());
}

/// The number in the `n` bytes at `off`.
pub open spec fn number_at(data: Seq<u8>, off: int, n: int) -> nat {
    wire::le_value(data.subrange(off, off + n))
}

/// The complaint that a reader raises about `data`, if any: the first rule
/// that it breaks.
pub open spec fn binding_complaint(data: Seq<u8>) -> Option<Seq<char>> {
    let version = number_at(data, 0, 2);
    let representation = number_at(data, 22, 1);
    let in_features = number_at(data, 57, 4);
    let tile = number_at(data, 65, 2);
    let tail = number_at(data, 71, 2);
    if data.len() < MATRIX_WEIGHT_BINDING_V1_BYTE_LENGTH {
        Some(
            "MatrixWeightBindingV1 too small: "@ + text::decimal(data.len()) + " < "@
                + text::decimal(159),
        )
    } else if version != 1 {
        Some("unknown MatrixWeightBindingV1 wire version: "@ + text::decimal(version))
    } else if representation > 3 {
        Some("unknown representation discriminant: "@ + text::decimal(representation))
    } else if representation <= 2 && tile != 640 {
        Some("quantized format requires reduction_tile_size=640, got "@ + text::decimal(tile))
    } else if representation <= 2 && tail != in_features % 640 {
        Some("tail_reduction_count mismatch"@)
    } else {
        None
    }
}

/// Parse a MatrixWeightBindingV1 from a byte slice (canonical LE).
pub fn read_matrix_weight_binding_v1_le(data: &[u8]) -> (r: Result<MatrixWeightBindingV1, String>)
    ensures
        match r {
            Ok(b) => binding_complaint(data@) is None && b.bytes() == data@.subrange(0, 159)
                && b.is_valid(),
            Err(e) => binding_complaint(data@) == Some(e@),
        },
{
    if data.len() < MATRIX_WEIGHT_BINDING_V1_BYTE_LENGTH {
        let mut e: String = "MatrixWeightBindingV1 too small: ".to_owned();
        text::push_decimal(&mut e, data.len() as u64);
        e.append(" < ");
        text::push_decimal(&mut e, MATRIX_WEIGHT_BINDING_V1_BYTE_LENGTH as u64);
        return Err(e);
    }
    proof {
        wire::lemma_byte_ranges();
    }
    let version: u64 = wire::read_le(data, 0, 2);
    if version != 1 {
        return Err(
            text::join2(
                "unknown MatrixWeightBindingV1 wire version: ",
                text::decimal_string(version).as_str(),
            ),
        );
    }
    let rep: u64 = wire::read_le(data, 22, 1);
    if rep > 3 {
        return Err(
            text::join2(
                "unknown representation discriminant: ",
                text::decimal_string(rep).as_str(),
            ),
        );
    }
    let tile: u64 = wire::read_le(data, 65, 2);
    if rep <= 2 && tile != 640 {
        return Err(
            text::join2(
                "quantized format requires reduction_tile_size=640, got ",
                text::decimal_string(tile).as_str(),
            ),
        );
    }
    let features: u64 = wire::read_le(data, 57, 4);
    let tail: u64 = wire::read_le(data, 71, 2);
    if rep <= 2 && tail != features % 640 {
        return Err("tail_reduction_count mismatch".to_owned());
    }
    Ok(read_fields(data))
}

fn read_fields(data: &[u8]) -> (b: MatrixWeightBindingV1)
    requires
        data.len() >= MATRIX_WEIGHT_BINDING_V1_BYTE_LENGTH,
    ensures
        b.bytes() == data@.subrange(0, 159),
        b.binding_wire_version == number_at(data@, 0, 2),
        b.representation == number_at(data@, 22, 1),
        b.in_features == number_at(data@, 57, 4),
        b.reduction_tile_size == number_at(data@, 65, 2),
        b.tail_reduction_count == number_at(data@, 71, 2),
{
    proof {
        wire::lemma_byte_ranges();
    }
    let binding_wire_version: u16 = wire::field(data, 0, 0, 2) as u16;
    let matrix_id: u32 = wire::field(data, 0, 2, 4) as u32;
    let tensor_id: [u8; 16] = wire::take16(data, 6);
    assert(data@.subrange(0, 22) =~= data@.subrange(0, 6) + tensor_id@);
    let representation: u8 = wire::field(data, 0, 22, 1) as u8;
    let representation_version: u16 = wire::field(data, 0, 23, 2) as u16;
    let kernel_abi_digest: [u8; 32] = wire::take32(data, 25);
    assert(data@.subrange(0, 57) =~= data@.subrange(0, 25) + kernel_abi_digest@);
    let in_features: u32 = wire::field(data, 57, 57, 4) as u32;
    let out_features: u32 = wire::field(data, 57, 61, 4) as u32;
    let reduction_tile_size: u16 = wire::field(data, 57, 65, 2) as u16;
    let tiles_per_output_channel: u32 = wire::field(data, 57, 67, 4) as u32;
    let tail_reduction_count: u16 = wire::field(data, 57, 71, 2) as u16;
    let macro_layout: u8 = wire::field(data, 57, 73, 1) as u8;
    let tail_handling: u8 = wire::field(data, 57, 74, 1) as u8;
    let code_segment: u8 = wire::field(data, 75, 75, 1) as u8;
    let code_offset: u64 = wire::field(data, 75, 76, 8);
    let code_length: u64 = wire::field(data, 75, 84, 8);
    let code_tile_stride_bytes: u32 = wire::field(data, 75, 92, 4) as u32;
    let metadata_segment: u8 = wire::field(data, 96, 96, 1) as u8;
    let metadata_offset: u64 = wire::field(data, 96, 97, 8);
    let metadata_length: u64 = wire::field(data, 96, 105, 8);
    let metadata_tile_stride_bytes: u16 = wire::field(data, 96, 113, 2) as u16;
    let sidecar_segment: u8 = wire::field(data, 115, 115, 1) as u8;
    let sidecar_offset: u64 = wire::field(data, 115, 116, 8);
    let sidecar_length: u64 = wire::field(data, 115, 124, 8);
    let sidecar_kind: u8 = wire::field(data, 115, 132, 1) as u8;
    let sidecar_element_format: u8 = wire::field(data, 115, 133, 1) as u8;
    let sidecar_count: u32 = wire::field(data, 115, 134, 4) as u32;
    let residual_segment: u8 = wire::field(data, 138, 138, 1) as u8;
    let residual_offset: u64 = wire::field(data, 138, 139, 8);
    let residual_length: u64 = wire::field(data, 138, 147, 8);
    let required_alignment_bytes: u32 = wire::field(data, 138, 155, 4) as u32;
    let b: MatrixWeightBindingV1 = MatrixWeightBindingV1 {
        binding_wire_version,
        matrix_id,
        tensor_id,
        representation,
        representation_version,
        kernel_abi_digest,
        in_features,
        out_features,
        reduction_tile_size,
        tiles_per_output_channel,
        tail_reduction_count,
        macro_layout,
        tail_handling,
        code_segment,
        code_offset,
        code_length,
        code_tile_stride_bytes,
        metadata_segment,
        metadata_offset,
        metadata_length,
        metadata_tile_stride_bytes,
        sidecar_segment,
        sidecar_offset,
        sidecar_length,
        sidecar_kind,
        sidecar_element_format,
        sidecar_count,
        residual_segment,
        residual_offset,
        residual_length,
        required_alignment_bytes,
    };
    proof {
        assert(data@.subrange(0, 0) =~= Seq::<u8>::empty());
        assert(b.identity_bytes() =~= data@.subrange(0, 57));
        assert(data@.subrange(57, 57) =~= Seq::<u8>::empty());
        assert(b.shape_bytes() =~= data@.subrange(57, 75));
        assert(data@.subrange(75, 75) =~= Seq::<u8>::empty());
        assert(b.code_bytes() =~= data@.subrange(75, 96));
        assert(data@.subrange(96, 96) =~= Seq::<u8>::empty());
        assert(b.metadata_bytes() =~= data@.subrange(96, 115));
        assert(data@.subrange(115, 115) =~= Seq::<u8>::empty());
        assert(b.sidecar_bytes() =~= data@.subrange(115, 138));
        assert(data@.subrange(138, 138) =~= Seq::<u8>::empty());
        assert(b.residual_bytes() =~= data@.subrange(138, 159));
        assert(b.bytes() =~= data@.subrange(0, 159));
    }
    b
}

/// Where each field stands in the record.
proof fn lemma_binding_fields(b: MatrixWeightBindingV1)
    ensures
        b.bytes().len() == 159,
        b.bytes().subrange(0, 2) == wire::le_bytes(b.binding_wire_version as nat, 2),
        b.bytes().subrange(2, 6) == wire::le_bytes(b.matrix_id as nat, 4),
        b.bytes().subrange(6, 22) == b.tensor_id@,
        b.bytes().subrange(22, 23) == wire::le_bytes(b.representation as nat, 1),
        b.bytes().subrange(23, 25) == wire::le_bytes(b.representation_version as nat, 2),
        b.bytes().subrange(25, 57) == b.kernel_abi_digest@,
        b.bytes().subrange(57, 61) == wire::le_bytes(b.in_features as nat, 4),
        b.bytes().subrange(61, 65) == wire::le_bytes(b.out_features as nat, 4),
        b.bytes().subrange(65, 67) == wire::le_bytes(b.reduction_tile_size as nat, 2),
        b.bytes().subrange(67, 71) == wire::le_bytes(b.tiles_per_output_channel as nat, 4),
        b.bytes().subrange(71, 73) == wire::le_bytes(b.tail_reduction_count as nat, 2),
        b.bytes().subrange(73, 74) == wire::le_bytes(b.macro_layout as nat, 1),
        b.bytes().subrange(74, 75) == wire::le_bytes(b.tail_handling as nat, 1),
        b.bytes().subrange(75, 76) == wire::le_bytes(b.code_segment as nat, 1),
        b.bytes().subrange(76, 84) == wire::le_bytes(b.code_offset as nat, 8),
        b.bytes().subrange(84, 92) == wire::le_bytes(b.code_length as nat, 8),
        b.bytes().subrange(92, 96) == wire::le_bytes(b.code_tile_stride_bytes as nat, 4),
        b.bytes().subrange(96, 97) == wire::le_bytes(b.metadata_segment as nat, 1),
        b.bytes().subrange(97, 105) == wire::le_bytes(b.metadata_offset as nat, 8),
        b.bytes().subrange(105, 113) == wire::le_bytes(b.metadata_length as nat, 8),
        b.bytes().subrange(113, 115) == wire::le_bytes(b.metadata_tile_stride_bytes as nat, 2),
        b.bytes().subrange(115, 116) == wire::le_bytes(b.sidecar_segment as nat, 1),
        b.bytes().subrange(116, 124) == wire::le_bytes(b.sidecar_offset as nat, 8),
        b.bytes().subrange(124, 132) == wire::le_bytes(b.sidecar_length as nat, 8),
        b.bytes().subrange(132, 133) == wire::le_bytes(b.sidecar_kind as nat, 1),
        b.bytes().subrange(133, 134) == wire::le_bytes(b.sidecar_element_format as nat, 1),
        b.bytes().subrange(134, 138) == wire::le_bytes(b.sidecar_count as nat, 4),
        b.bytes().subrange(138, 139) == wire::le_bytes(b.residual_segment as nat, 1),
        b.bytes().subrange(139, 147) == wire::le_bytes(b.residual_offset as nat, 8),
        b.bytes().subrange(147, 155) == wire::le_bytes(b.residual_length as nat, 8),
        b.bytes().subrange(155, 159) == wire::le_bytes(b.required_alignment_bytes as nat, 4),
{
    wire::lemma_le_bytes_len(b.binding_wire_version as nat, 2);
    wire::lemma_le_bytes_len(b.matrix_id as nat, 4);
    wire::lemma_le_bytes_len(b.representation as nat, 1);
    wire::lemma_le_bytes_len(b.representation_version as nat, 2);
    wire::lemma_le_bytes_len(b.in_features as nat, 4);
    wire::lemma_le_bytes_len(b.out_features as nat, 4);
    wire::lemma_le_bytes_len(b.reduction_tile_size as nat, 2);
    wire::lemma_le_bytes_len(b.tiles_per_output_channel as nat, 4);
    wire::lemma_le_bytes_len(b.tail_reduction_count as nat, 2);
    wire::lemma_le_bytes_len(b.macro_layout as nat, 1);
    wire::lemma_le_bytes_len(b.tail_handling as nat, 1);
    wire::lemma_le_bytes_len(b.code_segment as nat, 1);
    wire::lemma_le_bytes_len(b.code_offset as nat, 8);
    wire::lemma_le_bytes_len(b.code_length as nat, 8);
    wire::lemma_le_bytes_len(b.code_tile_stride_bytes as nat, 4);
    wire::lemma_le_bytes_len(b.metadata_segment as nat, 1);
    wire::lemma_le_bytes_len(b.metadata_offset as nat, 8);
    wire::lemma_le_bytes_len(b.metadata_length as nat, 8);
    wire::lemma_le_bytes_len(b.metadata_tile_stride_bytes as nat, 2);
    wire::lemma_le_bytes_len(b.sidecar_segment as nat, 1);
    wire::lemma_le_bytes_len(b.sidecar_offset as nat, 8);
    wire::lemma_le_bytes_len(b.sidecar_length as nat, 8);
    wire::lemma_le_bytes_len(b.sidecar_kind as nat, 1);
    wire::lemma_le_bytes_len(b.sidecar_element_format as nat, 1);
    wire::lemma_le_bytes_len(b.sidecar_count as nat, 4);
    wire::lemma_le_bytes_len(b.residual_segment as nat, 1);
    wire::lemma_le_bytes_len(b.residual_offset as nat, 8);
    wire::lemma_le_bytes_len(b.residual_length as nat, 8);
    wire::lemma_le_bytes_len(b.required_alignment_bytes as nat, 4);
    assert(b.identity_bytes().subrange(0, 2) =~= wire::le_bytes(b.binding_wire_version as nat, 2));
    assert(b.identity_bytes().subrange(2, 6) =~= wire::le_bytes(b.matrix_id as nat, 4));
    assert(b.identity_bytes().subrange(6, 22) =~= b.tensor_id@);
    assert(b.identity_bytes().subrange(22, 23) =~= wire::le_bytes(b.representation as nat, 1));
    assert(b.identity_bytes().subrange(23, 25) =~= wire::le_bytes(b.representation_version as nat, 2));
    assert(b.identity_bytes().subrange(25, 57) =~= b.kernel_abi_digest@);
    assert(b.identity_bytes().len() == 57);
    assert(b.bytes().subrange(0, 57) =~= b.identity_bytes());
    assert(b.bytes().subrange(0, 2) =~= b.identity_bytes().subrange(0, 2));
    assert(b.bytes().subrange(2, 6) =~= b.identity_bytes().subrange(2, 6));
    assert(b.bytes().subrange(6, 22) =~= b.identity_bytes().subrange(6, 22));
    assert(b.bytes().subrange(22, 23) =~= b.identity_bytes().subrange(22, 23));
    assert(b.bytes().subrange(23, 25) =~= b.identity_bytes().subrange(23, 25));
    assert(b.bytes().subrange(25, 57) =~= b.identity_bytes().subrange(25, 57));
    assert(b.shape_bytes().subrange(0, 4) =~= wire::le_bytes(b.in_features as nat, 4));
    assert(b.shape_bytes().subrange(4, 8) =~= wire::le_bytes(b.out_features as nat, 4));
    assert(b.shape_bytes().subrange(8, 10) =~= wire::le_bytes(b.reduction_tile_size as nat, 2));
    assert(b.shape_bytes().subrange(10, 14) =~= wire::le_bytes(b.tiles_per_output_channel as nat, 4));
    assert(b.shape_bytes().subrange(14, 16) =~= wire::le_bytes(b.tail_reduction_count as nat, 2));
    assert(b.shape_bytes().subrange(16, 17) =~= wire::le_bytes(b.macro_layout as nat, 1));
    assert(b.shape_bytes().subrange(17, 18) =~= wire::le_bytes(b.tail_handling as nat, 1));
    assert(b.shape_bytes().len() == 18);
    assert(b.bytes().subrange(57, 75) =~= b.shape_bytes());
    assert(b.bytes().subrange(57, 61) =~= b.shape_bytes().subrange(0, 4));
    assert(b.bytes().subrange(61, 65) =~= b.shape_bytes().subrange(4, 8));
    assert(b.bytes().subrange(65, 67) =~= b.shape_bytes().subrange(8, 10));
    assert(b.bytes().subrange(67, 71) =~= b.shape_bytes().subrange(10, 14));
    assert(b.bytes().subrange(71, 73) =~= b.shape_bytes().subrange(14, 16));
    assert(b.bytes().subrange(73, 74) =~= b.shape_bytes().subrange(16, 17));
    assert(b.bytes().subrange(74, 75) =~= b.shape_bytes().subrange(17, 18));
    assert(b.code_bytes().subrange(0, 1) =~= wire::le_bytes(b.code_segment as nat, 1));
    assert(b.code_bytes().subrange(1, 9) =~= wire::le_bytes(b.code_offset as nat, 8));
    assert(b.code_bytes().subrange(9, 17) =~= wire::le_bytes(b.code_length as nat, 8));
    assert(b.code_bytes().subrange(17, 21) =~= wire::le_bytes(b.code_tile_stride_bytes as nat, 4));
    assert(b.code_bytes().len() == 21);
    assert(b.bytes().subrange(75, 96) =~= b.code_bytes());
    assert(b.bytes().subrange(75, 76) =~= b.code_bytes().subrange(0, 1));
    assert(b.bytes().subrange(76, 84) =~= b.code_bytes().subrange(1, 9));
    assert(b.bytes().subrange(84, 92) =~= b.code_bytes().subrange(9, 17));
    assert(b.bytes().subrange(92, 96) =~= b.code_bytes().subrange(17, 21));
    assert(b.metadata_bytes().subrange(0, 1) =~= wire::le_bytes(b.metadata_segment as nat, 1));
    assert(b.metadata_bytes().subrange(1, 9) =~= wire::le_bytes(b.metadata_offset as nat, 8));
    assert(b.metadata_bytes().subrange(9, 17) =~= wire::le_bytes(b.metadata_length as nat, 8));
    assert(b.metadata_bytes().subrange(17, 19) =~= wire::le_bytes(b.metadata_tile_stride_bytes as nat, 2));
    assert(b.metadata_bytes().len() == 19);
    assert(b.bytes().subrange(96, 115) =~= b.metadata_bytes());
    assert(b.bytes().subrange(96, 97) =~= b.metadata_bytes().subrange(0, 1));
    assert(b.bytes().subrange(97, 105) =~= b.metadata_bytes().subrange(1, 9));
    assert(b.bytes().subrange(105, 113) =~= b.metadata_bytes().subrange(9, 17));
    assert(b.bytes().subrange(113, 115) =~= b.metadata_bytes().subrange(17, 19));
    assert(b.sidecar_bytes().subrange(0, 1) =~= wire::le_bytes(b.sidecar_segment as nat, 1));
    assert(b.sidecar_bytes().subrange(1, 9) =~= wire::le_bytes(b.sidecar_offset as nat, 8));
    assert(b.sidecar_bytes().subrange(9, 17) =~= wire::le_bytes(b.sidecar_length as nat, 8));
    assert(b.sidecar_bytes().subrange(17, 18) =~= wire::le_bytes(b.sidecar_kind as nat, 1));
    assert(b.sidecar_bytes().subrange(18, 19) =~= wire::le_bytes(b.sidecar_element_format as nat, 1));
    assert(b.sidecar_bytes().subrange(19, 23) =~= wire::le_bytes(b.sidecar_count as nat, 4));
    assert(b.sidecar_bytes().len() == 23);
    assert(b.bytes().subrange(115, 138) =~= b.sidecar_bytes());
    assert(b.bytes().subrange(115, 116) =~= b.sidecar_bytes().subrange(0, 1));
    assert(b.bytes().subrange(116, 124) =~= b.sidecar_bytes().subrange(1, 9));
    assert(b.bytes().subrange(124, 132) =~= b.sidecar_bytes().subrange(9, 17));
    assert(b.bytes().subrange(132, 133) =~= b.sidecar_bytes().subrange(17, 18));
    assert(b.bytes().subrange(133, 134) =~= b.sidecar_bytes().subrange(18, 19));
    assert(b.bytes().subrange(134, 138) =~= b.sidecar_bytes().subrange(19, 23));
    assert(b.residual_bytes().subrange(0, 1) =~= wire::le_bytes(b.residual_segment as nat, 1));
    assert(b.residual_bytes().subrange(1, 9) =~= wire::le_bytes(b.residual_offset as nat, 8));
    assert(b.residual_bytes().subrange(9, 17) =~= wire::le_bytes(b.residual_length as nat, 8));
    assert(b.residual_bytes().subrange(17, 21) =~= wire::le_bytes(b.required_alignment_bytes as nat, 4));
    assert(b.residual_bytes().len() == 21);
    assert(b.bytes().subrange(138, 159) =~= b.residual_bytes());
    assert(b.bytes().subrange(138, 139) =~= b.residual_bytes().subrange(0, 1));
    assert(b.bytes().subrange(139, 147) =~= b.residual_bytes().subrange(1, 9));
    assert(b.bytes().subrange(147, 155) =~= b.residual_bytes().subrange(9, 17));
    assert(b.bytes().subrange(155, 159) =~= b.residual_bytes().subrange(17, 21));
}

/// A record is 159 bytes long and its bytes determine it.
pub proof fn law_binding_injective(a: MatrixWeightBindingV1, b: MatrixWeightBindingV1)
    ensures
        a.bytes().len() == MATRIX_WEIGHT_BINDING_V1_BYTE_LENGTH,
        a.bytes() == b.bytes() ==> a == b,
{
    wire::lemma_byte_ranges();
    lemma_binding_fields(a);
    lemma_binding_fields(b);
    if a.bytes() == b.bytes() {
        wire::lemma_le_bytes_injective(a.binding_wire_version as nat, b.binding_wire_version as nat, 2);
        wire::lemma_le_bytes_injective(a.matrix_id as nat, b.matrix_id as nat, 4);
        assert(a.tensor_id =~= b.tensor_id);
        wire::lemma_le_bytes_injective(a.representation as nat, b.representation as nat, 1);
        wire::lemma_le_bytes_injective(a.representation_version as nat, b.representation_version as nat, 2);
        assert(a.kernel_abi_digest =~= b.kernel_abi_digest);
        wire::lemma_le_bytes_injective(a.in_features as nat, b.in_features as nat, 4);
        wire::lemma_le_bytes_injective(a.out_features as nat, b.out_features as nat, 4);
        wire::lemma_le_bytes_injective(a.reduction_tile_size as nat, b.reduction_tile_size as nat, 2);
        wire::lemma_le_bytes_injective(a.tiles_per_output_channel as nat, b.tiles_per_output_channel as nat, 4);
        wire::lemma_le_bytes_injective(a.tail_reduction_count as nat, b.tail_reduction_count as nat, 2);
        wire::lemma_le_bytes_injective(a.macro_layout as nat, b.macro_layout as nat, 1);
        wire::lemma_le_bytes_injective(a.tail_handling as nat, b.tail_handling as nat, 1);
        wire::lemma_le_bytes_injective(a.code_segment as nat, b.code_segment as nat, 1);
        wire::lemma_le_bytes_injective(a.code_offset as nat, b.code_offset as nat, 8);
        wire::lemma_le_bytes_injective(a.code_length as nat, b.code_length as nat, 8);
        wire::lemma_le_bytes_injective(a.code_tile_stride_bytes as nat, b.code_tile_stride_bytes as nat, 4);
        wire::lemma_le_bytes_injective(a.metadata_segment as nat, b.metadata_segment as nat, 1);
        wire::lemma_le_bytes_injective(a.metadata_offset as nat, b.metadata_offset as nat, 8);
        wire::lemma_le_bytes_injective(a.metadata_length as nat, b.metadata_length as nat, 8);
        wire::lemma_le_bytes_injective(a.metadata_tile_stride_bytes as nat, b.metadata_tile_stride_bytes as nat, 2);
        wire::lemma_le_bytes_injective(a.sidecar_segment as nat, b.sidecar_segment as nat, 1);
        wire::lemma_le_bytes_injective(a.sidecar_offset as nat, b.sidecar_offset as nat, 8);
        wire::lemma_le_bytes_injective(a.sidecar_length as nat, b.sidecar_length as nat, 8);
        wire::lemma_le_bytes_injective(a.sidecar_kind as nat, b.sidecar_kind as nat, 1);
        wire::lemma_le_bytes_injective(a.sidecar_element_format as nat, b.sidecar_element_format as nat, 1);
        wire::lemma_le_bytes_injective(a.sidecar_count as nat, b.sidecar_count as nat, 4);
        wire::lemma_le_bytes_injective(a.residual_segment as nat, b.residual_segment as nat, 1);
        wire::lemma_le_bytes_injective(a.residual_offset as nat, b.residual_offset as nat, 8);
        wire::lemma_le_bytes_injective(a.residual_length as nat, b.residual_length as nat, 8);
        wire::lemma_le_bytes_injective(a.required_alignment_bytes as nat, b.required_alignment_bytes as nat, 4);
    }
}

/// Reading what was written gives the record back: bytes that start with the
/// wire form of a valid record raise no complaint, and the only record they
/// decode to is that one.
pub proof fn law_binding_round_trip(
    b: MatrixWeightBindingV1,
    rest: Seq<u8>,
    r: MatrixWeightBindingV1,
)
    requires
        b.is_valid(),
        r.bytes() == (b.bytes() + rest).subrange(0, 159),
    ensures
        binding_complaint(b.bytes() + rest) is None,
        r == b,
{
    let data = b.bytes() + rest;
    wire::lemma_byte_ranges();
    lemma_binding_fields(b);
    assert(data.subrange(0, 159) =~= b.bytes());
    law_binding_injective(r, b);
    assert(data.subrange(0, 2) =~= b.bytes().subrange(0, 2));
    assert(data.subrange(22, 23) =~= b.bytes().subrange(22, 23));
    assert(data.subrange(57, 61) =~= b.bytes().subrange(57, 61));
    assert(data.subrange(65, 67) =~= b.bytes().subrange(65, 67));
    assert(data.subrange(71, 73) =~= b.bytes().subrange(71, 73));
    wire::lemma_le_value_of_le_bytes(b.binding_wire_version as nat, 2);
    wire::lemma_le_value_of_le_bytes(b.representation as nat, 1);
    wire::lemma_le_value_of_le_bytes(b.in_features as nat, 4);
    wire::lemma_le_value_of_le_bytes(b.reduction_tile_size as nat, 2);
    wire::lemma_le_value_of_le_bytes(b.tail_reduction_count as nat, 2);
}

/// The fields of a binding stand at fixed places of its 159 bytes, numbers with the
/// lowest byte first.
#[verifier::spinoff_prover]
pub proof fn law_binding_fields_stand_in_place(data: &[u8], b: MatrixWeightBindingV1)
    requires
        call_ensures(
            read_matrix_weight_binding_v1_le,
            (data,),
            Ok::<MatrixWeightBindingV1, String>(b),
        ),
    ensures
        b.binding_wire_version == wire::le_value(data@.subrange(0, 2)),
        b.matrix_id == wire::le_value(data@.subrange(2, 6)),
        b.representation == wire::le_value(data@.subrange(22, 23)),
        b.representation_version == wire::le_value(data@.subrange(23, 25)),
        b.in_features == wire::le_value(data@.subrange(57, 61)),
        b.out_features == wire::le_value(data@.subrange(61, 65)),
        b.reduction_tile_size == wire::le_value(data@.subrange(65, 67)),
        b.tiles_per_output_channel == wire::le_value(data@.subrange(67, 71)),
        b.tail_reduction_count == wire::le_value(data@.subrange(71, 73)),
        b.macro_layout == wire::le_value(data@.subrange(73, 74)),
        b.tail_handling == wire::le_value(data@.subrange(74, 75)),
        b.code_segment == wire::le_value(data@.subrange(75, 76)),
        b.code_offset == wire::le_value(data@.subrange(76, 84)),
        b.code_length == wire::le_value(data@.subrange(84, 92)),
        b.code_tile_stride_bytes == wire::le_value(data@.subrange(92, 96)),
        b.metadata_segment == wire::le_value(data@.subrange(96, 97)),
        b.metadata_offset == wire::le_value(data@.subrange(97, 105)),
        b.metadata_length == wire::le_value(data@.subrange(105, 113)),
        b.metadata_tile_stride_bytes == wire::le_value(data@.subrange(113, 115)),
        b.sidecar_segment == wire::le_value(data@.subrange(115, 116)),
        b.sidecar_offset == wire::le_value(data@.subrange(116, 124)),
        b.sidecar_length == wire::le_value(data@.subrange(124, 132)),
        b.sidecar_kind == wire::le_value(data@.subrange(132, 133)),
        b.sidecar_element_format == wire::le_value(data@.subrange(133, 134)),
        b.sidecar_count == wire::le_value(data@.subrange(134, 138)),
        b.residual_segment == wire::le_value(data@.subrange(138, 139)),
        b.residual_offset == wire::le_value(data@.subrange(139, 147)),
        b.residual_length == wire::le_value(data@.subrange(147, 155)),
        b.required_alignment_bytes == wire::le_value(data@.subrange(155, 159)),
        b.tensor_id@ == data@.subrange(6, 22),
        b.kernel_abi_digest@ == data@.subrange(25, 57),
{
    lemma_binding_fields(b);
    wire::lemma_byte_ranges();
    assert(data@.len() >= 159);
    assert(data@.subrange(0, 159) == b.bytes());
    assert forall|i: int| 0 <= i < 159 implies data@[i] == #[trigger] b.bytes()[i] by {
        assert(data@.subrange(0, 159)[i] == data@[i]);
    }
    assert(data@.subrange(0, 2) =~= b.bytes().subrange(0, 2));
    wire::lemma_le_value_of_le_bytes(b.binding_wire_version as nat, 2);
    assert(data@.subrange(2, 6) =~= b.bytes().subrange(2, 6));
    wire::lemma_le_value_of_le_bytes(b.matrix_id as nat, 4);
    assert(data@.subrange(22, 23) =~= b.bytes().subrange(22, 23));
    wire::lemma_le_value_of_le_bytes(b.representation as nat, 1);
    assert(data@.subrange(23, 25) =~= b.bytes().subrange(23, 25));
    wire::lemma_le_value_of_le_bytes(b.representation_version as nat, 2);
    assert(data@.subrange(57, 61) =~= b.bytes().subrange(57, 61));
    wire::lemma_le_value_of_le_bytes(b.in_features as nat, 4);
    assert(data@.subrange(61, 65) =~= b.bytes().subrange(61, 65));
    wire::lemma_le_value_of_le_bytes(b.out_features as nat, 4);
    assert(data@.subrange(65, 67) =~= b.bytes().subrange(65, 67));
    wire::lemma_le_value_of_le_bytes(b.reduction_tile_size as nat, 2);
    assert(data@.subrange(67, 71) =~= b.bytes().subrange(67, 71));
    wire::lemma_le_value_of_le_bytes(b.tiles_per_output_channel as nat, 4);
    assert(data@.subrange(71, 73) =~= b.bytes().subrange(71, 73));
    wire::lemma_le_value_of_le_bytes(b.tail_reduction_count as nat, 2);
    assert(data@.subrange(73, 74) =~= b.bytes().subrange(73, 74));
    wire::lemma_le_value_of_le_bytes(b.macro_layout as nat, 1);
    assert(data@.subrange(74, 75) =~= b.bytes().subrange(74, 75));
    wire::lemma_le_value_of_le_bytes(b.tail_handling as nat, 1);
    assert(data@.subrange(75, 76) =~= b.bytes().subrange(75, 76));
    wire::lemma_le_value_of_le_bytes(b.code_segment as nat, 1);
    assert(data@.subrange(76, 84) =~= b.bytes().subrange(76, 84));
    wire::lemma_le_value_of_le_bytes(b.code_offset as nat, 8);
    assert(data@.subrange(84, 92) =~= b.bytes().subrange(84, 92));
    wire::lemma_le_value_of_le_bytes(b.code_length as nat, 8);
    assert(data@.subrange(92, 96) =~= b.bytes().subrange(92, 96));
    wire::lemma_le_value_of_le_bytes(b.code_tile_stride_bytes as nat, 4);
    assert(data@.subrange(96, 97) =~= b.bytes().subrange(96, 97));
    wire::lemma_le_value_of_le_bytes(b.metadata_segment as nat, 1);
    assert(data@.subrange(97, 105) =~= b.bytes().subrange(97, 105));
    wire::lemma_le_value_of_le_bytes(b.metadata_offset as nat, 8);
    assert(data@.subrange(105, 113) =~= b.bytes().subrange(105, 113));
    wire::lemma_le_value_of_le_bytes(b.metadata_length as nat, 8);
    assert(data@.subrange(113, 115) =~= b.bytes().subrange(113, 115));
    wire::lemma_le_value_of_le_bytes(b.metadata_tile_stride_bytes as nat, 2);
    assert(data@.subrange(115, 116) =~= b.bytes().subrange(115, 116));
    wire::lemma_le_value_of_le_bytes(b.sidecar_segment as nat, 1);
    assert(data@.subrange(116, 124) =~= b.bytes().subrange(116, 124));
    wire::lemma_le_value_of_le_bytes(b.sidecar_offset as nat, 8);
    assert(data@.subrange(124, 132) =~= b.bytes().subrange(124, 132));
    wire::lemma_le_value_of_le_bytes(b.sidecar_length as nat, 8);
    assert(data@.subrange(132, 133) =~= b.bytes().subrange(132, 133));
    wire::lemma_le_value_of_le_bytes(b.sidecar_kind as nat, 1);
    assert(data@.subrange(133, 134) =~= b.bytes().subrange(133, 134));
    wire::lemma_le_value_of_le_bytes(b.sidecar_element_format as nat, 1);
    assert(data@.subrange(134, 138) =~= b.bytes().subrange(134, 138));
    wire::lemma_le_value_of_le_bytes(b.sidecar_count as nat, 4);
    assert(data@.subrange(138, 139) =~= b.bytes().subrange(138, 139));
    wire::lemma_le_value_of_le_bytes(b.residual_segment as nat, 1);
    assert(data@.subrange(139, 147) =~= b.bytes().subrange(139, 147));
    wire::lemma_le_value_of_le_bytes(b.residual_offset as nat, 8);
    assert(data@.subrange(147, 155) =~= b.bytes().subrange(147, 155));
    wire::lemma_le_value_of_le_bytes(b.residual_length as nat, 8);
    assert(data@.subrange(155, 159) =~= b.bytes().subrange(155, 159));
    wire::lemma_le_value_of_le_bytes(b.required_alignment_bytes as nat, 4);
    assert(data@.subrange(6, 22) =~= b.bytes().subrange(6, 22));
    assert(data@.subrange(25, 57) =~= b.bytes().subrange(25, 57));
}

/// A binding is read exactly where there are 159 bytes of version 1, a representation that
/// is known, and, for a quantized one, tiles of 640 whose last has what is left of the
/// columns.
pub proof fn law_binding_is_checked(data: &[u8], r: Result<MatrixWeightBindingV1, String>)
    requires
        call_ensures(read_matrix_weight_binding_v1_le, (data,), r),
    ensures
        data@.len() < 159 ==> r is Err,
        data@.len() >= 159 ==> r is Ok == ({
            let version = wire::le_value(data@.subrange(0, 2));
            let representation = wire::le_value(data@.subrange(22, 23));
            let columns = wire::le_value(data@.subrange(57, 61));
            let tile = wire::le_value(data@.subrange(65, 67));
            let tail = wire::le_value(data@.subrange(71, 73));
            version == 1 && representation <= 3 && (representation <= 2 ==> tile == 640 && tail
                == columns % 640)
        }),
{
}

} // verus!
