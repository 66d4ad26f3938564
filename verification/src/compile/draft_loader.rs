//! Draft model weight loader for DSpark checkpoints.
//!
//! Reads the 5-layer DSpark draft model from HuggingFace SafeTensors format
//! and packs into our ternary 5-per-byte fused interleaved buffer.
//!
//! The draft model is a small speculative decoder (100M params) that shares
//! Gemma 4's embedding and LM head.  We extract only the 5 transformer layers'
//! Q/K/V/O/Gate/Up/Down projections and pack them into `draft_fused_w` for
//! the Metal speculator kernel.
//!
//! Single-precision weights are given by their bit patterns.

use vstd::arithmetic::div_mod::*;
use vstd::prelude::*;
use vstd::string::*;

use crate::compile::int4_pack;
use crate::compile::safetensors_file;
use crate::float_bits;
use crate::text;
use crate::wire;

verus! {

/// Number of draft transformer layers loaded from checkpoint.
pub const DRAFT_LAYERS: usize = 5;

/// Hidden dimension.
pub const DRAFT_HIDDEN: usize = 768;

/// Number of query heads (dense MHA).
pub const DRAFT_NUM_HEADS: usize = 8;

/// Number of KV heads (GQA 2:1).
pub const DRAFT_NUM_KV_HEADS: usize = 4;

/// Head dimension = HIDDEN / NUM_HEADS.
pub const DRAFT_HEAD_DIM: usize = DRAFT_HIDDEN / DRAFT_NUM_HEADS;

/// FFN intermediate dimension (Swish-GLU, no expansion factor).
pub const DRAFT_FFN_INTER: usize = 2048;

/// Q projection: (HIDDEN x HIDDEN) = 768x768.
#[verifier::nonlinear]
pub const DRAFT_Q_SIZE: usize = DRAFT_HIDDEN * DRAFT_HIDDEN;

/// K projection: (HIDDEN x KV_HEADS * HEAD_DIM) = 768x384.
#[verifier::nonlinear]
pub const DRAFT_K_SIZE: usize = DRAFT_HIDDEN * (DRAFT_NUM_KV_HEADS * DRAFT_HEAD_DIM);

/// V projection: same shape as K.
pub const DRAFT_V_SIZE: usize = DRAFT_K_SIZE;

/// O projection: (HEADS * HEAD_DIM x HIDDEN) = 768x768.
#[verifier::nonlinear]
pub const DRAFT_O_SIZE: usize = (DRAFT_NUM_HEADS * DRAFT_HEAD_DIM) * DRAFT_HIDDEN;

/// Gate projection: (HIDDEN x FFN_INTER) = 768x2048.
#[verifier::nonlinear]
pub const DRAFT_GATE_SIZE: usize = DRAFT_HIDDEN * DRAFT_FFN_INTER;

/// Up projection: same as gate.
pub const DRAFT_UP_SIZE: usize = DRAFT_GATE_SIZE;

/// Down projection: (FFN_INTER x HIDDEN) = 2048x768.
#[verifier::nonlinear]
pub const DRAFT_DOWN_SIZE: usize = DRAFT_FFN_INTER * DRAFT_HIDDEN;

/// Rows of Q = HIDDEN (out_features of q_proj).
pub const DRAFT_Q_ROWS: usize = DRAFT_HIDDEN;

/// Rows of K and V = NUM_KV_HEADS * HEAD_DIM.
#[verifier::nonlinear]
pub const DRAFT_KV_ROWS: usize = DRAFT_NUM_KV_HEADS * DRAFT_HEAD_DIM;

/// Rows of O = HIDDEN.
pub const DRAFT_O_ROWS: usize = DRAFT_HIDDEN;

/// Rows of Gate and Up = FFN_INTER.
pub const DRAFT_HID_ROWS: usize = DRAFT_FFN_INTER;

/// Rows of Down = HIDDEN.
pub const DRAFT_FFN_ROWS: usize = DRAFT_HIDDEN;

/// The 9 bytes of a quantized block: packed trits, then the scale.
pub open spec fn block_bytes(weights: Seq<u32>) -> Seq<u8> {
    let trits = int4_pack::block32_trits(weights);
    Seq::new(
        7,
        |i: int|
            if i < 6 {
                int4_pack::pack5(trits.subrange(5 * i, 5 * i + 5)) as u8
            } else {
                (trits[30] + 3 * trits[31]) as u8
            },
    ) + wire::le_bytes(
        float_bits::nearest_half(int4_pack::block32_scale(weights) as int) as nat,
        2,
    )
}

/// Blocks of 32 columns per row.
pub open spec fn blocks_per_row(cols: int) -> int {
    (cols + 31) / 32
}

/// The weights of block `b` of row `r`, filled up with zeros behind the end of
/// the row.
pub open spec fn row_block(weights: Seq<u32>, cols: int, r: int, b: int) -> Seq<u32> {
    Seq::new(
        32,
        |i: int|
            if 32 * b + i < cols && r * cols + 32 * b + i < weights.len() {
                weights[r * cols + 32 * b + i]
            } else {
                0
            },
    )
}

/// The packed form of a matrix: its blocks row by row.
pub open spec fn matrix_bytes(weights: Seq<u32>, rows: int, cols: int) -> Seq<u8> {
    let bpr = blocks_per_row(cols);
    Seq::new(
        (9 * (rows * bpr)) as nat,
        |p: int| block_bytes(row_block(weights, cols, (p / 9) / bpr, (p / 9) % bpr))[p % 9],
    )
}

fn push_block(out: &mut Vec<u8>, weights: &[u32; 32])
    ensures
        final(out)@ == old(out)@ + block_bytes(weights@),
        block_bytes(weights@).len() == 9,
{
    let ghost start = out@;
    let block: int4_pack::TernaryBlock32 = int4_pack::quantize_to_ternary_block32(weights);
    out.extend_from_slice(block.packed_trits.as_slice());
    wire::push_le(out, block.block_scale as u64, 2);
    proof {
        wire::lemma_le_bytes_len(block.block_scale as nat, 2);
        let trits = int4_pack::block32_trits(weights@);
        let packed = Seq::new(
            7,
            |i: int|
                if i < 6 {
                    int4_pack::pack5(trits.subrange(5 * i, 5 * i + 5)) as u8
                } else {
                    (trits[30] + 3 * trits[31]) as u8
                },
        );
        assert(block.packed_trits@ =~= packed);
        assert(out@ =~= start + block_bytes(weights@));
    }
}

/// Pack a single contiguous f32 weight matrix into fused-ternary-block format.
///
/// Arguments:
/// - `f32_weights`: flat f32 slice, row-major, `rows * cols` elements.
/// - `rows`: number of output rows (first dimension of the weight matrix).
/// - `cols`: number of input columns (second dimension of the weight matrix).
///
/// Returns serialized `TernaryBlock32` blocks: `rows * ceil(cols/32) * 9` bytes.
/// Caller must then fuse-interleave the 7 matrices for the layer via
/// `interleave_fused_ternary_layer`.
pub fn pack_matrix_to_fused_ternary(f32_weights: &[u32], rows: usize, cols: usize) -> (r: Vec<u8>)
    requires
        32 * (rows * blocks_per_row(cols as int)) <= usize::MAX,
    ensures
        r@ == matrix_bytes(f32_weights@, rows as int, cols as int),
{
    let bpr: usize = if cols % 32 == 0 {
        cols / 32
    } else {
        cols / 32 + 1
    };
    let ghost expected = matrix_bytes(f32_weights@, rows as int, cols as int);
    let mut out: Vec<u8> = Vec::new();
    let mut r: usize = 0;
    proof {
        assert(bpr == blocks_per_row(cols as int));
        assert(0 * bpr == 0);
        assert(0 <= rows * bpr) by (nonlinear_arith)
            requires
                0 <= rows,
                0 <= bpr,
        ;
    }
    while r < rows
        invariant
            r <= rows,
            bpr == blocks_per_row(cols as int),
            32 * (rows * bpr) <= usize::MAX,
            expected == matrix_bytes(f32_weights@, rows as int, cols as int),
            out@.len() == 9 * (r * bpr),
            forall|p: int| 0 <= p < out@.len() ==> #[trigger] out@[p] == expected[p],
        decreases rows - r,
    {
        let mut b: usize = 0;
        while b < bpr
            invariant
                r < rows,
                b <= bpr,
                bpr == blocks_per_row(cols as int),
                32 * (rows * bpr) <= usize::MAX,
                expected == matrix_bytes(f32_weights@, rows as int, cols as int),
                out@.len() == 9 * (r * bpr + b),
                forall|p: int| 0 <= p < out@.len() ==> #[trigger] out@[p] == expected[p],
            decreases bpr - b,
        {
            proof {
                lemma_row_fits(r as int, rows as int, cols as int, bpr as int);
            }
            let mut block: [u32; 32] = [0u32; 32];
            let mut i: usize = 0;
            while i < 32
                invariant
                    i <= 32,
                    b < bpr,
                    bpr == blocks_per_row(cols as int),
                    0 <= r * cols,
                    r * cols + 32 * bpr <= usize::MAX,
                    forall|k: int|
                        0 <= k < 32 ==> #[trigger] block@[k] == (if k < i {
                            row_block(f32_weights@, cols as int, r as int, b as int)[k]
                        } else {
                            0
                        }),
                decreases 32 - i,
            {
                let col: usize = 32 * b + i;
                if col < cols && r * cols + col < f32_weights.len() {
                    block[i] = f32_weights[r * cols + col];
                }
                i = i + 1;
            }
            assert(block@ =~= row_block(f32_weights@, cols as int, r as int, b as int));
            let ghost before = out@;
            push_block(&mut out, &block);
            proof {
                let q = r * bpr + b;
                lemma_fundamental_div_mod_converse(q, bpr as int, r as int, b as int);
                assert(q + 1 <= rows * bpr) by (nonlinear_arith)
                    requires
                        q == r * bpr + b,
                        b < bpr,
                        r + 1 <= rows,
                ;
                assert forall|p: int| 0 <= p < out@.len() implies #[trigger] out@[p]
                    == expected[p] by {
                    if p >= before.len() {
                        assert(p / 9 == q);
                        assert(p % 9 == p - 9 * q);
                    } else {
                        assert(out@[p] == before[p]);
                    }
                }
            }
            b = b + 1;
        }
        proof {
            assert((r + 1) * bpr == r * bpr + bpr) by (nonlinear_arith);
        }
        r = r + 1;
    }
    assert(out@ =~= expected);
    out
}

proof fn lemma_row_fits(r: int, rows: int, cols: int, bpr: int)
    requires
        0 <= r < rows,
        0 <= cols,
        bpr == blocks_per_row(cols),
        32 * (rows * bpr) <= usize::MAX,
    ensures
        0 <= r * cols,
        r * cols + 32 * bpr <= usize::MAX,
{
    assert(0 <= r * cols) by (nonlinear_arith)
        requires
            0 <= r,
            0 <= cols,
    ;
    assert(r * cols + 32 * bpr <= 32 * (rows * bpr)) by (nonlinear_arith)
        requires
            0 <= r,
            r + 1 <= rows,
            0 <= cols <= 32 * bpr,
    ;
}

/// The single-precision values that a tensor's bytes hold: the upper halves of
/// the values for the element type BF16, whole little-endian values otherwise.
/// Bytes that do not fill a value are left out.
pub open spec fn tensor_values(data: Seq<u8>, dtype: Seq<char>) -> Seq<u32> {
    if dtype == "BF16"@ {
        Seq::new(
            data.len() / 2,
            |i: int| (wire::le_value(data.subrange(2 * i, 2 * i + 2)) * 0x1_0000) as u32,
        )
    } else {
        Seq::new(
            data.len() / 4,
            |i: int| wire::le_value(data.subrange(4 * i, 4 * i + 4)) as u32,
        )
    }
}

/// Convert raw safetensors buffer bytes to single-precision values, handling F32
/// and BF16; any other element type is read as F32.
pub fn tensor_data_to_f32(data: &[u8], dtype: &str) -> (r: Vec<u32>)
    ensures
        r@ == tensor_values(data@, dtype@),
{
    let mut out: Vec<u32> = Vec::new();
    let half: bool = text::same_text(dtype, "BF16");
    let width: usize = if half {
        2
    } else {
        4
    };
    let count: usize = data.len() / width;
    let ghost expected = tensor_values(data@, dtype@);
    let mut i: usize = 0;
    while i < count
        invariant
            i <= count,
            width == (if half {
                2int
            } else {
                4
            }),
            half == (dtype@ == "BF16"@),
            count == data.len() / width,
            expected == tensor_values(data@, dtype@),
            out@.len() == i,
            forall|k: int| 0 <= k < i ==> #[trigger] out@[k] == expected[k],
        decreases count - i,
    {
        proof {
            wire::lemma_byte_ranges();
            if half {
                assert(2 * i + 2 <= data.len());
            } else {
                assert(4 * i + 4 <= data.len());
            }
        }
        if half {
            let v: u32 = wire::read_le(data, 2 * i, 2) as u32;
            out.push(v * 0x1_0000);
        } else {
            out.push(wire::read_le(data, 4 * i, 4) as u32);
        }
        i = i + 1;
    }
    assert(out@ =~= expected);
    out
}

/// A checkpoint file: where it was found and what it holds.
pub struct Shard {
    pub path: String,
    pub data: Vec<u8>,
}

/// What a search through the shards comes to.
pub enum Lookup {
    /// Shard number `i` is not a valid safetensors file.
    Broken(int),
    Found { dtype: Seq<char>, data: Seq<u8> },
    Missing,
}

/// The search for a tensor from shard number `i` on: the first shard that is
/// broken or has the tensor decides.
pub open spec fn lookup(shards: Seq<Shard>, key: Seq<char>, i: int) -> Lookup
    decreases shards.len() - i,
{
    if i < 0 || i >= shards.len() {
        Lookup::Missing
    } else {
        match safetensors_file::named_tensor(shards[i].data@, key) {
            None => Lookup::Broken(i),
            Some(Some(t)) => Lookup::Found { dtype: t.0, data: t.1 },
            Some(None) => lookup(shards, key, i + 1),
        }
    }
}

/// The message for a tensor that no shard has.
pub open spec fn not_found_text(key: Seq<char>, shards: nat) -> Seq<char> {
    "tensor '"@ + key + "' not found in any of "@ + text::decimal(shards) + " shard(s)"@
}

/// Load a single named tensor from the shards, convert to f32, and return.
///
/// Searches each shard in order; returns the first match.  Handles both
/// F32 and BF16 element types.  What the message on a broken shard says behind
/// the shard's path is the safetensors reader's own text.
pub fn load_tensor_f32(key: &str, shards: &Vec<Shard>) -> (r: Result<Vec<u32>, String>)
    ensures
        match lookup(shards@, key@, 0) {
            Lookup::Broken(i) => r matches Err(e) && safetensors_file::is_report(
                e@,
                "parsing safetensors "@ + shards@[i].path@ + ": "@,
                shards@[i].data@,
            ),
            Lookup::Found { dtype, data } => r matches Ok(v) && v@ == tensor_values(data, dtype),
            Lookup::Missing => r matches Err(e) && e@ == not_found_text(key@, shards@.len()),
        },
{
    let mut i: usize = 0;
    while i < shards.len()
        invariant
            i <= shards.len(),
            lookup(shards@, key@, 0) == lookup(shards@, key@, i as int),
        decreases shards.len() - i,
    {
        match safetensors_file::get_tensor(shards[i].data.as_slice(), key) {
            Err(e) => {
                let mut m: String = text::join3(
                    "parsing safetensors ",
                    shards[i].path.as_str(),
                    ": ",
                );
                let ghost prefix = m@;
                m.append(e.as_str());
                assert(m@ =~= prefix + e@);
                assert(m@.subrange(0, prefix.len() as int) =~= prefix);
                return Err(m);
            },
            Ok(Some(t)) => {
                return Ok(tensor_data_to_f32(t.1.as_slice(), t.0.as_str()));
            },
            Ok(None) => {},
        }
        i = i + 1;
    }
    let mut m: String = text::join3("tensor '", key, "' not found in any of ");
    text::push_decimal(&mut m, shards.len() as u64);
    m.append(" shard(s)");
    assert(m@ =~= not_found_text(key@, shards@.len()));
    Err(m)
}

/// The seven projections of a layer, in fused order.
pub open spec fn projection_suffix(m: int) -> Seq<char> {
    if m == 0 {
        ".self_attn.q_proj.weight"@
    } else if m == 1 {
        ".self_attn.k_proj.weight"@
    } else if m == 2 {
        ".self_attn.v_proj.weight"@
    } else if m == 3 {
        ".self_attn.o_proj.weight"@
    } else if m == 4 {
        ".mlp.gate_proj.weight"@
    } else if m == 5 {
        ".mlp.up_proj.weight"@
    } else {
        ".mlp.down_proj.weight"@
    }
}

/// The name of projection `m` of draft layer `layer` in the state dict.
pub open spec fn tensor_key(layer: int, m: int) -> Seq<char> {
    "draft_model.layers."@ + text::decimal(layer as nat) + projection_suffix(m)
}

/// Output rows of projection `m`.
pub open spec fn projection_rows(m: int) -> int {
    if m == 1 || m == 2 {
        384
    } else if m == 4 || m == 5 {
        2048
    } else {
        768
    }
}

/// Input columns of projection `m`.
pub open spec fn projection_cols(m: int) -> int {
    if m == 6 {
        2048
    } else {
        768
    }
}

/// How many weights projection `m` has.
pub open spec fn projection_size(m: int) -> int {
    if m == 0 || m == 3 {
        589824
    } else if m == 1 || m == 2 {
        294912
    } else {
        1572864
    }
}

/// The fused buffer of a layer with the given seven matrices.
pub open spec fn layer_bytes(matrices: Seq<Seq<u32>>) -> Seq<u8> {
    Seq::new(
        80640,
        |p: int|
            int4_pack::fused_byte(
                matrix_bytes(matrices[0], 768, 768),
                matrix_bytes(matrices[1], 384, 768),
                matrix_bytes(matrices[2], 384, 768),
                matrix_bytes(matrices[3], 768, 768),
                matrix_bytes(matrices[4], 2048, 768),
                matrix_bytes(matrices[5], 2048, 768),
                matrix_bytes(matrices[6], 768, 2048),
                768,
                384,
                768,
                2048,
                768,
                p,
            ),
    )
}

/// The views of a list of matrices.
pub open spec fn matrix_views(matrices: Seq<Vec<u32>>) -> Seq<Seq<u32>> {
    matrices.map_values(|v: Vec<u32>| v@)
}

/// Packs the seven matrices of a draft layer and fuse-interleaves them into one
/// buffer of 64 tiles.
pub fn pack_layer(matrices: &Vec<Vec<u32>>) -> (r: Vec<u8>)
    requires
        matrices@.len() == 7,
    ensures
        r@ == layer_bytes(matrix_views(matrices@)),
{
    proof {
        assert(768 * blocks_per_row(768) == 18432) by (nonlinear_arith)
            requires
                blocks_per_row(768) == 24,
        ;
        assert(384 * blocks_per_row(768) == 9216) by (nonlinear_arith)
            requires
                blocks_per_row(768) == 24,
        ;
        assert(2048 * blocks_per_row(768) == 49152) by (nonlinear_arith)
            requires
                blocks_per_row(768) == 24,
        ;
        assert(768 * blocks_per_row(2048) == 49152) by (nonlinear_arith)
            requires
                blocks_per_row(2048) == 64,
        ;
    }
    let q: Vec<u8> = pack_matrix_to_fused_ternary(matrices[0].as_slice(), 768, 768);
    let k: Vec<u8> = pack_matrix_to_fused_ternary(matrices[1].as_slice(), 384, 768);
    let v: Vec<u8> = pack_matrix_to_fused_ternary(matrices[2].as_slice(), 384, 768);
    let o: Vec<u8> = pack_matrix_to_fused_ternary(matrices[3].as_slice(), 768, 768);
    let gate: Vec<u8> = pack_matrix_to_fused_ternary(matrices[4].as_slice(), 2048, 768);
    let up: Vec<u8> = pack_matrix_to_fused_ternary(matrices[5].as_slice(), 2048, 768);
    let down: Vec<u8> = pack_matrix_to_fused_ternary(matrices[6].as_slice(), 768, 2048);
    assert(int4_pack::fused_tiles(768, 384, 768, 2048, 768) == 64);
    let fused: Vec<u8> = int4_pack::interleave_fused_ternary_layer(
        q.as_slice(),
        k.as_slice(),
        v.as_slice(),
        o.as_slice(),
        gate.as_slice(),
        up.as_slice(),
        down.as_slice(),
        768,
        384,
        768,
        2048,
        768,
    );
    assert(fused@ =~= layer_bytes(matrix_views(matrices@)));
    fused
}

/// Whether projection `m` of a layer can be loaded: it is found, with as many
/// weights as it must have.
pub open spec fn projection_loads(shards: Seq<Shard>, layer: int, m: int) -> bool {
    lookup(shards, tensor_key(layer, m), 0) matches Lookup::Found { dtype, data } && tensor_values(
        data,
        dtype,
    ).len() == projection_size(m)
}

/// The weights of projection `m` of a layer.
pub open spec fn projection_weights(shards: Seq<Shard>, layer: int, m: int) -> Seq<u32> {
    match lookup(shards, tensor_key(layer, m), 0) {
        Lookup::Found { dtype, data } => tensor_values(data, dtype),
        _ => Seq::empty(),
    }
}

/// Whether `e` is the message for a projection that cannot be loaded.
pub open spec fn projection_complaint(
    shards: Seq<Shard>,
    layer: int,
    m: int,
    e: Seq<char>,
) -> bool {
    let key = tensor_key(layer, m);
    match lookup(shards, key, 0) {
        Lookup::Broken(i) => safetensors_file::is_report(
            e,
            "parsing safetensors "@ + shards[i].path@ + ": "@,
            shards[i].data@,
        ),
        Lookup::Missing => e == not_found_text(key, shards.len()),
        Lookup::Found { dtype, data } => {
            let n = tensor_values(data, dtype).len();
            n != projection_size(m) && e == "tensor '"@ + key + "' has "@ + text::decimal(n)
                + " elements, expected "@ + text::decimal(projection_size(m) as nat)
        },
    }
}

fn make_key(layer: usize, m: usize) -> (r: String)
    requires
        m < 7,
    ensures
        r@ == tensor_key(layer as int, m as int),
{
    let mut s: String = "draft_model.layers.".to_owned();
    text::push_decimal(&mut s, layer as u64);
    let suffix: &str = match m {
        0 => ".self_attn.q_proj.weight",
        1 => ".self_attn.k_proj.weight",
        2 => ".self_attn.v_proj.weight",
        3 => ".self_attn.o_proj.weight",
        4 => ".mlp.gate_proj.weight",
        5 => ".mlp.up_proj.weight",
        _ => ".mlp.down_proj.weight",
    };
    s.append(suffix);
    s
}

fn expected_size(m: usize) -> (r: usize)
    requires
        m < 7,
    ensures
        r == projection_size(m as int),
        r == projection_rows(m as int) * projection_cols(m as int),
{
    let r: usize = match m {
        0 => 589824,
        1 => 294912,
        2 => 294912,
        3 => 589824,
        _ => 1572864,
    };
    assert(768 * 768 == 589824 && 384 * 768 == 294912 && 2048 * 768 == 1572864);
    r
}

/// Whether the outcome of loading a layer is the right one: the fused buffer
/// where all seven projections load, else the complaint about the first that
/// does not.
pub open spec fn layer_outcome(
    shards: Seq<Shard>,
    layer: int,
    r: Result<Vec<u8>, String>,
) -> bool {
    match r {
        Ok(v) => {
            &&& forall|m: int| 0 <= m < 7 ==> #[trigger] projection_loads(shards, layer, m)
            &&& v@ == layer_bytes(Seq::new(7, |m: int| projection_weights(shards, layer, m)))
        },
        Err(e) => exists|m: int| 0 <= m < 7 && #[trigger] first_complaint(shards, layer, m, e@),
    }
}

/// Whether projection `m` is the first of a layer that does not load, and `e`
/// the complaint about it.
pub open spec fn first_complaint(shards: Seq<Shard>, layer: int, m: int, e: Seq<char>) -> bool {
    &&& projection_complaint(shards, layer, m, e)
    &&& forall|k: int| 0 <= k < m ==> #[trigger] projection_loads(shards, layer, k)
}

/// Load all 7 weight tensors for one draft layer, pack them to ternary, and
/// fuse-interleave into one contiguous buffer.
pub fn load_and_pack_layer(layer_idx: usize, shards: &Vec<Shard>) -> (r: Result<Vec<u8>, String>)
    ensures
        layer_outcome(shards@, layer_idx as int, r),
{
    let mut matrices: Vec<Vec<u32>> = Vec::new();
    let mut m: usize = 0;
    while m < 7
        invariant
            m <= 7,
            matrices@.len() == m,
            forall|k: int| 0 <= k < m ==> #[trigger] projection_loads(shards@, layer_idx as int, k),
            forall|k: int|
                0 <= k < m ==> (#[trigger] matrices@[k])@ == projection_weights(
                    shards@,
                    layer_idx as int,
                    k,
                ),
        decreases 7 - m,
    {
        let key: String = make_key(layer_idx, m);
        match load_tensor_f32(key.as_str(), shards) {
            Err(e) => {
                let failed: Result<Vec<u8>, String> = Err(e);
                assert(first_complaint(shards@, layer_idx as int, m as int, failed->Err_0@));
                return failed;
            },
            Ok(weights) => {
                let expected: usize = expected_size(m);
                if weights.len() != expected {
                    let mut e: String = text::join3("tensor '", key.as_str(), "' has ");
                    text::push_decimal(&mut e, weights.len() as u64);
                    e.append(" elements, expected ");
                    text::push_decimal(&mut e, expected as u64);
                    let failed: Result<Vec<u8>, String> = Err(e);
                    assert(first_complaint(shards@, layer_idx as int, m as int, failed->Err_0@));
                    return failed;
                }
                assert(projection_loads(shards@, layer_idx as int, m as int));
                matrices.push(weights);
            },
        }
        m = m + 1;
    }
    let fused: Vec<u8> = pack_layer(&matrices);
    proof {
        assert(matrix_views(matrices@) =~= Seq::new(
            7,
            |m: int| projection_weights(shards@, layer_idx as int, m),
        ));
    }
    Ok(fused)
}

/// The fused buffers of the first `n` layers, one after the other.
pub open spec fn layers_bytes(shards: Seq<Shard>, n: int) -> Seq<u8>
    decreases n,
{
    if n <= 0 {
        Seq::empty()
    } else {
        layers_bytes(shards, n - 1) + layer_bytes(
            Seq::new(7, |m: int| projection_weights(shards, n - 1, m)),
        )
    }
}

/// Whether all projections of a layer load.
pub open spec fn layer_loads(shards: Seq<Shard>, layer: int) -> bool {
    forall|m: int| 0 <= m < 7 ==> #[trigger] projection_loads(shards, layer, m)
}

/// Whether layer `l` is the first that does not load, and `e` the complaint.
pub open spec fn first_broken_layer(shards: Seq<Shard>, l: int, e: String) -> bool {
    &&& layer_outcome(shards, l, Err::<Vec<u8>, String>(e))
    &&& forall|k: int| 0 <= k < l ==> #[trigger] layer_loads(shards, k)
}

/// What loading the draft model comes to: the fused buffers of all five layers,
/// or the complaint about the first that does not load.
pub open spec fn draft_outcome(shards: Seq<Shard>, r: Result<Vec<u8>, String>) -> bool {
    match r {
        Ok(v) => v@ == layers_bytes(shards, 5) && forall|l: int|
            0 <= l < 5 ==> #[trigger] layer_loads(shards, l),
        Err(e) => exists|l: int| 0 <= l < 5 && #[trigger] first_broken_layer(shards, l, e),
    }
}

/// Load draft model weights from the checkpoint shards found in a directory.
///
/// Expected files:
/// - `model.safetensors` (single file) or
/// - `model-00001-of-NNNNN.safetensors`, ... (sharded)
/// - `config.json`
///
/// State dict keys follow the DFlash/DSpark naming convention:
/// - `draft_model.layers.{i}.self_attn.q_proj.weight`
/// - `draft_model.layers.{i}.self_attn.k_proj.weight`
/// - `draft_model.layers.{i}.self_attn.v_proj.weight`
/// - `draft_model.layers.{i}.self_attn.o_proj.weight`
/// - `draft_model.layers.{i}.mlp.gate_proj.weight`
/// - `draft_model.layers.{i}.mlp.up_proj.weight`
/// - `draft_model.layers.{i}.mlp.down_proj.weight`
///
/// `listing` is what reading the directory came to, the shards in the order of
/// their file names.
///
/// Returns a single fused ternary buffer containing all 5 layers' packed weights,
/// suitable for uploading directly into `draft_fused_w` on the Metal side.
pub fn load_draft_weights(ckpt_dir: &str, listing: Result<Vec<Shard>, String>) -> (r: Result<
    Vec<u8>,
    String,
>)
    ensures
        match listing {
            Err(e) => r == Err::<Vec<u8>, String>(e),
            Ok(shards) => if shards@.len() == 0 {
                r matches Err(e) && e@ == "no safetensors files found in "@ + ckpt_dir@
            } else {
                draft_outcome(shards@, r)
            },
        },
{
    let shards: Vec<Shard> = match listing {
        Ok(shards) => shards,
        Err(e) => {
            return Err(e);
        },
    };
    if shards.len() == 0 {
        return Err(text::join2("no safetensors files found in ", ckpt_dir));
    }
    load_layers(&shards)
}

/// Loads and packs the five draft layers.
fn load_layers(shards: &Vec<Shard>) -> (r: Result<Vec<u8>, String>)
    ensures
        draft_outcome(shards@, r),
{
    let mut fused_all: Vec<u8> = Vec::new();
    let mut layer: usize = 0;
    while layer < DRAFT_LAYERS
        invariant
            layer <= 5,
            fused_all@ == layers_bytes(shards@, layer as int),
            forall|l: int| 0 <= l < layer ==> #[trigger] layer_loads(shards@, l),
        decreases 5 - layer,
    {
        let outcome: Result<Vec<u8>, String> = load_and_pack_layer(layer, shards);
        match outcome {
            Ok(fused) => {
                assert(layer_loads(shards@, layer as int));
                fused_all.extend_from_slice(fused.as_slice());
            },
            Err(e) => {
                let failed: Result<Vec<u8>, String> = Err(e);
                assert(first_broken_layer(shards@, layer as int, failed->Err_0));
                return failed;
            },
        }
        layer = layer + 1;
    }
    Ok(fused_all)
}

/// Whether a directory entry of that name is a shard: its extension is
/// `safetensors`.
pub fn is_shard_name(file_name: &str) -> (r: bool)
    ensures
        r == (text::has_suffix(file_name@, ".safetensors"@) && file_name@.len()
            > ".safetensors"@.len()),
{
    assert(file_name@.subrange(0, file_name@.len() as int) =~= file_name@);
    text::ends_with(file_name, ".safetensors") && !text::same_text(file_name, ".safetensors")
}

// ---------------------------------------------------------------------------
// Laws
// ---------------------------------------------------------------------------

/// The values of a tensor: of type BF16, each two bytes are the upper half of a
/// single-precision value; of any other type, each four bytes are a value. The lowest
/// byte comes first.
pub proof fn law_values_by_element_type(data: &[u8], dtype: &str, r: Vec<u32>, i: int)
    requires
        call_ensures(tensor_data_to_f32, (data, dtype), r),
        0 <= i < r@.len(),
    ensures
        dtype@ == "BF16"@ ==> r@.len() == data@.len() / 2 && r@[i] == 0x1_0000 * (data@[2 * i]
            + 0x100 * data@[2 * i + 1]),
        dtype@ != "BF16"@ ==> r@.len() == data@.len() / 4 && r@[i] == data@[4 * i] + 0x100 * data@[4
            * i + 1] + 0x1_0000 * data@[4 * i + 2] + 0x100_0000 * data@[4 * i + 3],
{
    if dtype@ == "BF16"@ {
        wire::law_two_bytes_make_a_half(data@.subrange(2 * i, 2 * i + 2));
    } else {
        wire::law_four_bytes_make_a_word(data@.subrange(4 * i, 4 * i + 4));
    }
}

/// The weights that share a block with the one in a row and column: the run of 32
/// columns that it is in, and zeros behind the end of the row.
pub open spec fn block_of_element(weights: Seq<u32>, cols: int, row: int, col: int) -> Seq<u32> {
    let first = col - col % 32;
    Seq::new(
        32,
        |i: int|
            if first + i < cols && row * cols + first + i < weights.len() {
                weights[row * cols + first + i]
            } else {
                0
            },
    )
}

/// A packed matrix has nine bytes for each 32 columns of a row, row by row: seven of
/// trits, and the scale. The trit of each weight stands at its place in the block of its
/// run of columns, under the scale of that block.
#[verifier::spinoff_prover]
pub proof fn law_matrix_block_holds_its_weights(
    weights: &[u32],
    rows: usize,
    cols: usize,
    r: Vec<u8>,
    row: int,
    col: int,
) -> (scale: u32)
    requires
        call_ensures(pack_matrix_to_fused_ternary, (weights, rows, cols), r),
        0 <= row < rows,
        0 <= col < cols,
    ensures
        ({
            let bpr = (cols as int + 31) / 32;
            let at = 9 * (row * bpr + col / 32);
            let block = block_of_element(weights@, cols as int, row, col);
            &&& r@.len() == 9 * (rows * bpr)
            &&& 0 <= at && at + 9 <= r@.len()
            &&& int4_pack::is_scale_of_block(scale, block)
            &&& int4_pack::is_trit_under(
                int4_pack::trit_in(r@.subrange(at, at + 7), col % 32),
                block[col % 32],
                scale,
            )
            &&& r@[at + 7] + 0x100 * r@[at + 8] == float_bits::nearest_half(scale as int)
        }),
{
    let c = cols as int;
    let bpr = blocks_per_row(c);
    let b = col / 32;
    let q = row * bpr + b;
    let at = 9 * q;
    assert(0 <= row * bpr && q + 1 <= rows * bpr) by (nonlinear_arith)
        requires
            q == row * bpr + b,
            0 <= b < bpr,
            0 <= row,
            row + 1 <= rows,
    ;
    lemma_fundamental_div_mod_converse(q, bpr, row, b);
    let block = block_of_element(weights@, c, row, col);
    assert(row_block(weights@, c, row, b) =~= block);
    let bytes = block_bytes(block);
    let trits = int4_pack::block32_trits(block);
    let scale = int4_pack::block32_scale(block);
    wire::lemma_le_bytes_len(float_bits::nearest_half(scale as int) as nat, 2);
    assert(bytes.len() == 9);
    assert forall|i: int| 0 <= i < 9 implies #[trigger] r@[at + i] == bytes[i] by {
        assert((at + i) / 9 == q && (at + i) % 9 == i);
    }
    let part = r@.subrange(at, at + 7);
    assert forall|i: int| 0 <= i < 7 implies part[i] == bytes[i] by {
        assert(r@[at + i] == bytes[i]);
    }
    assert forall|k: int| 0 <= k < 32 implies #[trigger] trits[k] <= 2 by {}
    assert(int4_pack::packs_trits(part, trits)) by {
        assert forall|i: int| 0 <= i < 6 implies #[trigger] part[i] == int4_pack::pack5(
            trits.subrange(5 * i, 5 * i + 5),
        ) by {
            let five = trits.subrange(5 * i, 5 * i + 5);
            assert forall|k: int| 0 <= k < 5 implies #[trigger] five[k] <= 2 by {
                assert(five[k] == trits[5 * i + k]);
            }
            int4_pack::law_trits_round_trip(five);
            assert(five[0] <= 2 && five[1] <= 2 && five[2] <= 2 && five[3] <= 2 && five[4] <= 2);
        }
        assert(trits[30] <= 2 && trits[31] <= 2);
    }
    int4_pack::lemma_trit_in(part, trits, col % 32);
    int4_pack::lemma_block_is_of_its_weights(block, col % 32);
    let h = float_bits::nearest_half(scale as int) as nat;
    float_bits::lemma_nearest_half_range(scale as int);
    wire::lemma_byte_ranges();
    wire::lemma_le_value_of_le_bytes(h, 2);
    wire::law_two_bytes_make_a_half(wire::le_bytes(h, 2));
    assert(r@[at + 7] == wire::le_bytes(h, 2)[0]);
    assert(r@[at + 8] == wire::le_bytes(h, 2)[1]);
    scale
}

/// The tensor of a projection is the one of the first shard that has it; a shard before
/// it that cannot be read stops the search.
pub proof fn law_first_shard_decides(shards: Seq<Shard>, key: Seq<char>, from: int, i: int)
    requires
        0 <= from <= i < shards.len(),
        forall|j: int|
            from <= j < i ==> safetensors_file::named_tensor((#[trigger] shards[j]).data@, key)
                == Some(None::<(Seq<char>, Seq<u8>)>),
    ensures
        match safetensors_file::named_tensor(shards[i].data@, key) {
            Some(Some(t)) => lookup(shards, key, from) == (Lookup::Found { dtype: t.0, data: t.1 }),
            None => lookup(shards, key, from) == Lookup::Broken(i),
            Some(None) => i == shards.len() - 1 ==> lookup(shards, key, from) == Lookup::Missing,
        },
    decreases i - from,
{
    if from < i {
        assert(safetensors_file::named_tensor(shards[from].data@, key) == Some(
            None::<(Seq<char>, Seq<u8>)>,
        ));
        law_first_shard_decides(shards, key, from + 1, i);
    } else if i == shards.len() - 1 {
        assert(lookup(shards, key, i + 1) == Lookup::Missing);
    }
}

/// A layer is packed from its seven projections, by their names: tile `t` holds 180
/// bytes of each, from `180 * t` on in its packed form, as far as its rows go.
#[verifier::spinoff_prover]
pub proof fn law_layer_holds_its_projections(
    layer: usize,
    shards: &Vec<Shard>,
    r: Vec<u8>,
    t: int,
    m: int,
)
    requires
        call_ensures(load_and_pack_layer, (layer, shards), Ok::<Vec<u8>, String>(r)),
        0 <= t < 64,
        0 <= m < 7,
    ensures
        ({
            let key = "draft_model.layers."@ + text::decimal(layer as nat) + seq![
                ".self_attn.q_proj.weight"@,
                ".self_attn.k_proj.weight"@,
                ".self_attn.v_proj.weight"@,
                ".self_attn.o_proj.weight"@,
                ".mlp.gate_proj.weight"@,
                ".mlp.up_proj.weight"@,
                ".mlp.down_proj.weight"@,
            ][m];
            let rows = seq![768int, 384, 384, 768, 2048, 2048, 768][m];
            let cols = seq![768int, 768, 768, 768, 768, 768, 2048][m];
            &&& r@.len() == 64 * 1260
            &&& lookup(shards@, key, 0) matches Lookup::Found { dtype, data } && tensor_values(
                data,
                dtype,
            ).len() == rows * cols && r@.subrange(1260 * t + 180 * m, 1260 * t + 180 * m + 180)
                == (if 32 * t < rows {
                matrix_bytes(tensor_values(data, dtype), rows, cols).subrange(
                    180 * t,
                    180 * t + 180,
                )
            } else {
                Seq::new(180, |i: int| 0u8)
            })
        }),
{
    let l = layer as int;
    assert(projection_loads(shards@, l, m));
    let values = projection_weights(shards@, l, m);
    let rows = seq![768int, 384, 384, 768, 2048, 2048, 768][m];
    let cols = seq![768int, 768, 768, 768, 768, 768, 2048][m];
    let bytes = matrix_bytes(values, rows, cols);
    assert(rows * cols == projection_size(m)) by {
        assert(768 * 768 == 589824 && 384 * 768 == 294912 && 2048 * 768 == 1572864);
    }
    assert(bytes.len() == 9 * (rows * blocks_per_row(cols)) && bytes.len() >= 180 * ((rows + 31)
        / 32)) by {
        assert(768 * 24 == 18432 && 384 * 24 == 9216 && 2048 * 24 == 49152 && 768 * 64 == 49152);
        assert(blocks_per_row(768) == 24 && blocks_per_row(2048) == 64);
    }
    let part = r@.subrange(1260 * t + 180 * m, 1260 * t + 180 * m + 180);
    let wanted = if 32 * t < rows {
        bytes.subrange(180 * t, 180 * t + 180)
    } else {
        Seq::new(180, |i: int| 0u8)
    };
    assert forall|i: int| 0 <= i < 180 implies part[i] == wanted[i] by {
        let p = 1260 * t + 180 * m + i;
        assert(p / 1260 == t);
        assert(p % 1260 == 180 * m + i);
        assert((p % 1260) / 180 == m);
        assert(p % 180 == i);
        assert(part[i] == r@[p]);
        assert(r@[p] == int4_pack::sub_tile_byte(rows, bytes, t, i));
    }
    assert(part =~= wanted);
}

} // verus!
