//! CPU-side ternary repacker: .cimage (20 trits/u32) to 5 trits/byte
//! (TernaryBlock32) and fused interleave.
//!
//! At load time, the CPU decompresses .cimage ternary weights and repacks them into
//! 5-trits-per-byte format with 32-element block scales. Then fuses 7 matrices per layer
//! into a single contiguous interleaved buffer optimized for cache-line coalescing.
//!
//! TernaryBlock32 (per 32 elements): 7 bytes packed data + 2 bytes FP16 scale = 9 bytes.
//! Fused interleave: [tile0(Q,K,V,O,Gate,Up,Down), tile1(...), ...]
//!
//! Single-precision weights are given by their bit patterns.

use vstd::arithmetic::power::{lemma_pow0, pow};
use vstd::prelude::*;

use crate::compile::swizzle;
use crate::float_bits;

verus! {

/// Ternary block of 32 elements: 7 bytes (5 trits/byte) + 2 bytes (FP16 scale) = 9 bytes.
#[derive(Debug, Clone, Copy)]
pub struct TernaryBlock32 {
    pub packed_trits: [u8; 7],
    /// f16 bits
    pub block_scale: u16,
}

/// 16-byte aligned version for coalesced GPU uint4 vector loads.
/// 7 trit bytes + 2 scale bytes + 7 padding = exactly 16 bytes.
#[derive(Debug, Clone, Copy)]
pub struct AlignedTernaryBlock32 {
    pub packed_trits: [u8; 7],
    pub block_scale: u16,
    pub padding: [u8; 7],
}

/// The aligned form: the same block with zero padding.
pub open spec fn aligned(b: TernaryBlock32) -> AlignedTernaryBlock32 {
    AlignedTernaryBlock32 {
        packed_trits: b.packed_trits,
        block_scale: b.block_scale,
        padding: [0u8, 0, 0, 0, 0, 0, 0],
    }
}

impl From<TernaryBlock32> for AlignedTernaryBlock32 {
    fn from(b: TernaryBlock32) -> (r: Self) {
        AlignedTernaryBlock32 {
            packed_trits: b.packed_trits,
            block_scale: b.block_scale,
            padding: [0u8, 0, 0, 0, 0, 0, 0],
        }
    }
}

impl vstd::std_specs::convert::FromSpecImpl<TernaryBlock32> for AlignedTernaryBlock32 {
    open spec fn obeys_from_spec() -> bool {
        true
    }

    open spec fn from_spec(b: TernaryBlock32) -> Self {
        aligned(b)
    }
}

/// Five base-3 digits as a number, the first with weight 1.
pub open spec fn pack5(d: Seq<u8>) -> int {
    d[0] + 3 * d[1] + 9 * d[2] + 27 * d[3] + 81 * d[4]
}

/// Unpack the five low-order ternary digits of a byte.
pub fn unpack_byte_5_trits(byte: u8, out: &mut [u8; 5])
    ensures
        forall|i: int| 0 <= i < 5 ==> #[trigger] final(out)@[i] == swizzle::trit(byte as nat, i as nat),
{
    let mut v: u8 = byte;
    let mut i: usize = 0;
    while i < 5
        invariant
            i <= 5,
            forall|j: nat|
                #[trigger] swizzle::trit(v as nat, j) == swizzle::trit(byte as nat, i as nat + j),
            forall|j: int| 0 <= j < i ==> #[trigger] out@[j] == swizzle::trit(byte as nat, j as nat),
        decreases 5 - i,
    {
        proof {
            swizzle::lemma_trit_shift(v as nat, 0);
            assert(swizzle::trit(v as nat, 0) == swizzle::trit(byte as nat, i as nat));
        }
        out[i] = v % 3;
        proof {
            assert forall|j: nat| #[trigger]
                swizzle::trit(v as nat / 3, j) == swizzle::trit(byte as nat, (i + 1) as nat + j) by {
                swizzle::lemma_trit_shift(v as nat, j);
                assert(swizzle::trit(v as nat, j + 1) == swizzle::trit(
                    byte as nat,
                    i as nat + (j + 1),
                ));
            }
        }
        v = v / 3;
        i = i + 1;
    }
}

/// Pack 5 ternary digits (0,1,2) into one byte.
pub fn pack_5_trits(digits: &[u8; 5]) -> (r: u8)
    ensures
        r == pack5(digits@) % 256,
{
    let val: u32 = digits[0] as u32 + 3 * (digits[1] as u32) + 9 * (digits[2] as u32) + 27 * (
    digits[3] as u32) + 81 * (digits[4] as u32);
    (val % 256) as u8
}

/// Unpacking gives back what was packed: the digits of a packed byte are the
/// five ternary digits that went in.
pub proof fn law_trits_round_trip(d: Seq<u8>)
    requires
        d.len() == 5,
        forall|i: int| 0 <= i < 5 ==> #[trigger] d[i] <= 2,
    ensures
        pack5(d) <= 242,
        forall|i: int|
            0 <= i < 5 ==> #[trigger] d[i] == swizzle::trit((pack5(d) % 256) as nat, i as nat),
{
    let b = pack5(d) as nat;
    assert(d[0] <= 2 && d[1] <= 2 && d[2] <= 2 && d[3] <= 2 && d[4] <= 2);
    reveal_with_fuel(swizzle::three_to, 5);
    assert(b / 1 == b);
    assert(b / 3 == d[1] + 3 * d[2] + 9 * d[3] + 27 * d[4]);
    assert(b / 9 == d[2] + 3 * d[3] + 9 * d[4]);
    assert(b / 27 == d[3] + 3 * d[4]);
    assert(b / 81 == d[4]);
    assert forall|i: int| 0 <= i < 5 implies #[trigger] d[i] == swizzle::trit(b, i as nat) by {
        if i == 0 {
        } else if i == 1 {
        } else if i == 2 {
        } else if i == 3 {
        } else {
        }
    }
}

/// The single-precision bits of 1e-7, below which a block counts as zero.
pub const FAINT_BITS: u32 = 0x33D6_BF95;

/// The scale of a block: its largest magnitude, or one where that is faint.
pub open spec fn block32_scale(weights: Seq<u32>) -> u32 {
    if float_bits::largest_bits(weights) > FAINT_BITS {
        float_bits::largest_bits(weights) as u32
    } else {
        float_bits::ONE_BITS
    }
}

/// The trit of a weight: 0 for -1, 1 for 0, 2 for +1, after multiplication
/// with the reciprocal of the scale in single precision and rounding.
pub open spec fn block32_trit(weight: u32, scale: u32) -> u8 {
    if !float_bits::rounds_to_one(weight, float_bits::reciprocal(scale)) {
        1
    } else if float_bits::is_negative(weight) {
        0
    } else {
        2
    }
}

/// The trits of a block under its scale.
pub open spec fn block32_trits(weights: Seq<u32>) -> Seq<u8> {
    Seq::new(weights.len(), |i: int| block32_trit(weights[i], block32_scale(weights)))
}

/// The packed form of 32 trits: six bytes of five and one of two.
pub open spec fn packs_trits(packed: Seq<u8>, trits: Seq<u8>) -> bool {
    &&& packed.len() == 7
    &&& forall|i: int|
        0 <= i < 6 ==> #[trigger] packed[i] == pack5(trits.subrange(5 * i, 5 * i + 5))
    &&& packed[6] == trits[30] + 3 * trits[31]
}

/// Whether a block is the quantized form of 32 weights.
pub open spec fn is_block_of(block: TernaryBlock32, weights: Seq<u32>) -> bool {
    &&& packs_trits(block.packed_trits@, block32_trits(weights))
    &&& block.block_scale == float_bits::nearest_half(block32_scale(weights) as int)
}

/// Convert a 32-element slice of f32 weights to one TernaryBlock32.
/// Finds max magnitude, scales, quantizes to [-1,0,1], packs 5/byte.
pub fn quantize_to_ternary_block32(weights: &[u32; 32]) -> (r: TernaryBlock32)
    ensures
        is_block_of(r, weights@),
{
    let mut top: u32 = 0;
    let mut i: usize = 0;
    assert(weights@.take(0) =~= Seq::<u32>::empty());
    while i < 32
        invariant
            i <= 32,
            top == float_bits::largest_bits(weights@.take(i as int)),
            top <= 0x7F80_0000,
        decreases 32 - i,
    {
        let a: u32 = weights[i] % 0x8000_0000;
        assert(weights@.take(i + 1).drop_last() =~= weights@.take(i as int));
        if a <= 0x7F80_0000 && a > top {
            top = a;
        }
        i = i + 1;
    }
    assert(weights@.take(32) =~= weights@);
    let scale: u32 = if top > FAINT_BITS {
        top
    } else {
        float_bits::ONE_BITS
    };
    let inv: u32 = float_bits::reciprocal_of(scale);
    let ghost expected = block32_trits(weights@);
    let mut trits: [u8; 32] = [0u8; 32];
    let mut j: usize = 0;
    while j < 32
        invariant
            j <= 32,
            scale == block32_scale(weights@),
            inv == float_bits::reciprocal(scale),
            inv < 0x7F80_0000,
            expected == block32_trits(weights@),
            forall|k: int| 0 <= k < j ==> #[trigger] trits@[k] == expected[k],
        decreases 32 - j,
    {
        let w: u32 = weights[j];
        trits[j] = if !float_bits::product_rounds_to_one(w, inv) {
            1
        } else if w >= 0x8000_0000 {
            0
        } else {
            2
        };
        j = j + 1;
    }
    assert(trits@ =~= expected);
    let packed_trits: [u8; 7] = pack_32_trits(&trits);
    TernaryBlock32 { packed_trits, block_scale: float_bits::to_nearest_half(scale) }
}

fn pack_32_trits(trits: &[u8; 32]) -> (r: [u8; 7])
    requires
        forall|k: int| 0 <= k < 32 ==> #[trigger] trits@[k] <= 2,
    ensures
        packs_trits(r@, trits@),
{
    let mut packed: [u8; 7] = [0u8; 7];
    let mut b: usize = 0;
    while b < 6
        invariant
            b <= 6,
            forall|k: int| 0 <= k < 32 ==> #[trigger] trits@[k] <= 2,
            forall|i: int|
                0 <= i < b ==> #[trigger] packed@[i] == pack5(trits@.subrange(5 * i, 5 * i + 5)),
        decreases 6 - b,
    {
        let five: [u8; 5] = [
            trits[5 * b],
            trits[5 * b + 1],
            trits[5 * b + 2],
            trits[5 * b + 3],
            trits[5 * b + 4],
        ];
        assert(five@ =~= trits@.subrange(5 * b as int, 5 * b as int + 5));
        packed[b] = pack_5_trits(&five);
        proof {
            law_trits_round_trip(five@);
        }
        b = b + 1;
    }
    packed[6] = trits[30] + 3 * trits[31];
    packed
}

/// The single-precision bits of minus one, zero and one, by ternary digit.
pub open spec fn weight_of_digit(d: nat) -> u32 {
    if d == 0 {
        0xBF80_0000
    } else if d == 1 {
        0
    } else {
        0x3F80_0000
    }
}

/// The weights of a tensor of 20-digit words: digit 0 is -1, 1 is 0, 2 is +1.
pub open spec fn decompressed(src: Seq<u32>) -> Seq<u32> {
    Seq::new(
        20 * src.len(),
        |k: int| weight_of_digit(swizzle::trit(src[k / 20] as nat, (k % 20) as nat)),
    )
}

/// Expand a ternary tensor from .cimage format (20 trits/u32) to f32.
/// Each u32 = 20 ternary digits base-3 packed.
pub fn decompress_ternary_u32_tensor(src: &[u32]) -> (r: Vec<u32>)
    requires
        20 * src.len() <= usize::MAX,
    ensures
        r@ == decompressed(src@),
{
    let mut out: Vec<u32> = Vec::new();
    let mut i: usize = 0;
    while i < src.len()
        invariant
            i <= src.len(),
            20 * src.len() <= usize::MAX,
            out@.len() == 20 * i,
            forall|k: int| 0 <= k < out@.len() ==> #[trigger] out@[k] == decompressed(src@)[k],
        decreases src.len() - i,
    {
        let mut digits: [u8; 20] = [0u8; 20];
        swizzle::decode_ternary_u32(src[i], &mut digits);
        let mut j: usize = 0;
        while j < 20
            invariant
                j <= 20,
                i < src.len(),
                out@.len() == 20 * i + j,
                forall|q: int|
                    0 <= q < 20 ==> #[trigger] digits@[q] == swizzle::trit(
                        src@[i as int] as nat,
                        q as nat,
                    ),
                forall|k: int| 0 <= k < out@.len() ==> #[trigger] out@[k] == decompressed(src@)[k],
            decreases 20 - j,
        {
            let d: u8 = digits[j];
            proof {
                let k = 20 * i + j;
                assert(k / 20 == i && k % 20 == j);
                assert(decompressed(src@)[k] == weight_of_digit(d as nat));
            }
            out.push(
                if d == 0 {
                    0xBF80_0000
                } else if d == 1 {
                    0
                } else {
                    0x3F80_0000
                },
            );
            j = j + 1;
        }
        i = i + 1;
    }
    assert(out@ =~= decompressed(src@));
    out
}

/// The `b`-th run of 32 weights, filled up with zeros.
pub open spec fn block32_weights(weights: Seq<u32>, b: int) -> Seq<u32> {
    Seq::new(
        32,
        |i: int|
            if 32 * b + i < weights.len() {
                weights[32 * b + i]
            } else {
                0
            },
    )
}

/// Repack a .cimage weight tensor to TernaryBlock32 format.
/// Input: &[u32] in 20-trits-per-u32 format (as stored in .cimage).
/// Output: Vec<TernaryBlock32>, one per 32-element block.
pub fn repack_ternary_tensor(src: &[u32]) -> (r: Vec<TernaryBlock32>)
    requires
        20 * src.len() + 31 <= usize::MAX,
    ensures
        r@.len() == (20 * src@.len() + 31) / 32,
        forall|b: int|
            0 <= b < r@.len() ==> is_block_of(
                #[trigger] r@[b],
                block32_weights(decompressed(src@), b),
            ),
{
    let values: Vec<u32> = decompress_ternary_u32_tensor(src);
    let total: usize = values.len();
    let num_blocks: usize = (total + 31) / 32;
    let mut out: Vec<TernaryBlock32> = Vec::new();
    let mut b: usize = 0;
    while b < num_blocks
        invariant
            b <= num_blocks,
            total == values@.len(),
            values@ == decompressed(src@),
            total + 31 <= usize::MAX,
            num_blocks == (total + 31) / 32,
            out@.len() == b,
            forall|c: int|
                0 <= c < b ==> is_block_of(#[trigger] out@[c], block32_weights(values@, c)),
        decreases num_blocks - b,
    {
        let mut block: [u32; 32] = [0u32; 32];
        let mut i: usize = 0;
        while i < 32
            invariant
                i <= 32,
                b < num_blocks,
                total == values@.len(),
                total + 31 <= usize::MAX,
                num_blocks == (total + 31) / 32,
                forall|k: int|
                    0 <= k < 32 ==> #[trigger] block@[k] == (if k < i {
                        block32_weights(values@, b as int)[k]
                    } else {
                        0
                    }),
            decreases 32 - i,
        {
            if 32 * b + i < total {
                block[i] = values[32 * b + i];
            }
            i = i + 1;
        }
        assert(block@ =~= block32_weights(values@, b as int));
        out.push(quantize_to_ternary_block32(&block));
        b = b + 1;
    }
    out
}

/// Repacking keeps the weights: every weight of the source is the trit of its
/// block at its place, under a scale of one.
pub proof fn law_repack_keeps_weights(src: Seq<u32>, k: int)
    requires
        0 <= k < 20 * src.len(),
    ensures
        ({
            let weights = block32_weights(decompressed(src), k / 32);
            &&& block32_scale(weights) == float_bits::ONE_BITS
            &&& block32_trits(weights)[k % 32] == swizzle::trit(src[k / 20] as nat, (k % 20) as nat)
        }),
{
    let weights = block32_weights(decompressed(src), k / 32);
    assert forall|i: int| 0 <= i < 32 implies #[trigger] weights[i] == 0 || weights[i]
        == 0x3F80_0000 || weights[i] == 0xBF80_0000 by {}
    lemma_unit_scale(weights);
    assert(weights[k % 32] == decompressed(src)[k]);
    float_bits::lemma_unit_products();
    let d = swizzle::trit(src[k / 20] as nat, (k % 20) as nat);
    assert(d < 3);
}

proof fn lemma_unit_scale(weights: Seq<u32>)
    requires
        forall|i: int|
            0 <= i < weights.len() ==> #[trigger] weights[i] == 0 || weights[i] == 0x3F80_0000
                || weights[i] == 0xBF80_0000,
    ensures
        float_bits::largest_bits(weights) == 0 || float_bits::largest_bits(weights) == 0x3F80_0000,
        block32_scale(weights) == float_bits::ONE_BITS,
    decreases weights.len(),
{
    if weights.len() > 0 {
        let rest = weights.drop_last();
        assert forall|i: int| 0 <= i < rest.len() implies #[trigger] rest[i] == 0 || rest[i]
            == 0x3F80_0000 || rest[i] == 0xBF80_0000 by {
            assert(rest[i] == weights[i]);
        }
        lemma_unit_scale(rest);
        assert(weights[weights.len() - 1] == weights.last());
    }
}

/// Bytes of one matrix in one fused tile: 20 blocks of 9 bytes.
pub const SUB_TILE_BYTES: usize = 180;

/// Bytes of a fused tile: one sub-tile of each of the 7 matrices.
pub const FUSED_TILE_BYTES: usize = 7 * SUB_TILE_BYTES;

/// How many tiles of 32 rows cover `rows`.
pub open spec fn row_tiles(rows: int) -> int {
    (rows + 31) / 32
}

/// Byte `i` of the sub-tile of a matrix in tile `t`: zero behind its rows and
/// where its data does not hold the whole sub-tile.
pub open spec fn sub_tile_byte(rows: int, data: Seq<u8>, t: int, i: int) -> u8 {
    if t < row_tiles(rows) && 180 * t + 180 <= data.len() {
        data[180 * t + i]
    } else {
        0
    }
}

pub open spec fn larger(a: int, b: int) -> int {
    if a < b {
        b
    } else {
        a
    }
}

/// How many tiles a layer takes: as many as its tallest matrix.
pub open spec fn fused_tiles(q: int, kv: int, o: int, hid: int, ffn: int) -> int {
    larger(
        larger(larger(row_tiles(q), row_tiles(kv)), larger(row_tiles(o), row_tiles(hid))),
        row_tiles(ffn),
    )
}

fn tile_count(rows: usize) -> (r: usize)
    ensures
        r == row_tiles(rows as int),
{
    if rows % 32 == 0 {
        rows / 32
    } else {
        rows / 32 + 1
    }
}

fn max_of(a: usize, b: usize) -> (r: usize)
    ensures
        r == larger(a as int, b as int),
{
    if a < b {
        b
    } else {
        a
    }
}

/// Puts the sub-tiles of matrix number `m` in place.
fn place_matrix(fused: &mut Vec<u8>, m: usize, rows: usize, data: &[u8], tiles: usize)
    requires
        m < 7,
        old(fused)@.len() == 1260 * tiles,
        forall|p: int|
            0 <= p < old(fused)@.len() && (p % 1260) / 180 == m ==> #[trigger] old(fused)@[p] == 0,
    ensures
        final(fused)@.len() == old(fused)@.len(),
        forall|p: int|
            0 <= p < old(fused)@.len() ==> #[trigger] final(fused)@[p] == (if (p % 1260) / 180
                == m {
                sub_tile_byte(rows as int, data@, p / 1260, p % 180)
            } else {
                old(fused)@[p]
            }),
{
    let own: usize = tile_count(rows);
    let mut t: usize = 0;
    while t < tiles
        invariant
            t <= tiles,
            m < 7,
            own == row_tiles(rows as int),
            fused@.len() == old(fused)@.len(),
            fused@.len() == 1260 * tiles,
            fused.len() == 1260 * tiles,
            forall|p: int|
                0 <= p < old(fused)@.len() && (p % 1260) / 180 == m ==> #[trigger] old(fused)@[p]
                    == 0,
            forall|p: int|
                0 <= p < old(fused)@.len() ==> #[trigger] fused@[p] == (if (p % 1260) / 180 == m
                    && p / 1260 < t {
                    sub_tile_byte(rows as int, data@, p / 1260, p % 180)
                } else {
                    old(fused)@[p]
                }),
        decreases tiles - t,
    {
        if t < own && t < data.len() / 180 {
            let mut i: usize = 0;
            while i < 180
                invariant
                    i <= 180,
                    t < tiles,
                    t < own,
                    m < 7,
                    180 * t + 180 <= data.len(),
                    own == row_tiles(rows as int),
                    fused@.len() == old(fused)@.len(),
                    fused@.len() == 1260 * tiles,
                    fused.len() == 1260 * tiles,
                    forall|p: int|
                        0 <= p < old(fused)@.len() ==> #[trigger] fused@[p] == (if (p % 1260) / 180
                            == m && (p / 1260 < t || p / 1260 == t && p % 180 < i) {
                            sub_tile_byte(rows as int, data@, p / 1260, p % 180)
                        } else {
                            old(fused)@[p]
                        }),
                decreases 180 - i,
            {
                let at: usize = t * 1260 + m * 180 + i;
                proof {
                    lemma_tile_position(t as int, m as int, i as int);
                }
                fused[at] = data[180 * t + i];
                proof {
                    assert forall|p: int| 0 <= p < old(fused)@.len() implies #[trigger] fused@[p]
                        == (if (p % 1260) / 180 == m && (p / 1260 < t || p / 1260 == t && p % 180
                        < i + 1) {
                        sub_tile_byte(rows as int, data@, p / 1260, p % 180)
                    } else {
                        old(fused)@[p]
                    }) by {
                        if (p % 1260) / 180 == m && p / 1260 == t && p % 180 == i {
                            lemma_tile_unique(p, t as int, m as int, i as int);
                        }
                    }
                }
                i = i + 1;
            }
        }
        t = t + 1;
    }
}

proof fn lemma_tile_position(t: int, m: int, i: int)
    requires
        0 <= t,
        0 <= m < 7,
        0 <= i < 180,
    ensures
        ({
            let p = t * 1260 + m * 180 + i;
            p / 1260 == t && (p % 1260) / 180 == m && p % 180 == i
        }),
{
    let p = t * 1260 + m * 180 + i;
    assert(p / 1260 == t);
    assert(p % 1260 == m * 180 + i);
    assert(p % 180 == i);
}

proof fn lemma_tile_unique(p: int, t: int, m: int, i: int)
    requires
        0 <= p,
        p / 1260 == t,
        (p % 1260) / 180 == m,
        p % 180 == i,
    ensures
        p == t * 1260 + m * 180 + i,
{
    let r = p % 1260;
    assert(p == 1260 * t + r);
    assert(r % 180 == p % 180);
    assert(r == 180 * m + r % 180);
}

/// Byte `p` of the fused buffer of a layer.
pub open spec fn fused_byte(
    q: Seq<u8>,
    k: Seq<u8>,
    v: Seq<u8>,
    o: Seq<u8>,
    gate: Seq<u8>,
    up: Seq<u8>,
    down: Seq<u8>,
    q_rows: int,
    kv_rows: int,
    o_rows: int,
    hid_rows: int,
    ffn_rows: int,
    p: int,
) -> u8 {
    let t = p / 1260;
    let m = (p % 1260) / 180;
    let i = p % 180;
    if m == 0 {
        sub_tile_byte(q_rows, q, t, i)
    } else if m == 1 {
        sub_tile_byte(kv_rows, k, t, i)
    } else if m == 2 {
        sub_tile_byte(kv_rows, v, t, i)
    } else if m == 3 {
        sub_tile_byte(o_rows, o, t, i)
    } else if m == 4 {
        sub_tile_byte(hid_rows, gate, t, i)
    } else if m == 5 {
        sub_tile_byte(hid_rows, up, t, i)
    } else {
        sub_tile_byte(ffn_rows, down, t, i)
    }
}

/// Fuse-interleave all 7 weight matrices for one layer.
/// Per layer: Q(3840 rows), K(512), V(512), O(4096), Gate(3840), Up(3840), Down(15360).
/// Fused tile layout: [tile0(Q_180B,K_180B,...,Down_180B), tile1(...), ...]
/// Each sub-tile = 20 TernaryBlock32 x 9 bytes = 180 bytes, a fused tile 1260 bytes.
///
/// Each input matrix slice is the serialized TernaryBlock32 blocks for that
/// matrix, organized as rows_of_blocks x 20 blocks x 9 bytes.
pub fn interleave_fused_ternary_layer(
    q: &[u8],
    k: &[u8],
    v: &[u8],
    o: &[u8],
    gate: &[u8],
    up: &[u8],
    down: &[u8],
    q_rows: usize,
    kv_rows: usize,
    o_rows: usize,
    hid_rows: usize,
    ffn_rows: usize,
) -> (r: Vec<u8>)
    requires
        1260 * fused_tiles(
            q_rows as int,
            kv_rows as int,
            o_rows as int,
            hid_rows as int,
            ffn_rows as int,
        ) <= usize::MAX,
    ensures
        r@.len() == 1260 * fused_tiles(
            q_rows as int,
            kv_rows as int,
            o_rows as int,
            hid_rows as int,
            ffn_rows as int,
        ),
        forall|p: int|
            0 <= p < r@.len() ==> #[trigger] r@[p] == fused_byte(
                q@,
                k@,
                v@,
                o@,
                gate@,
                up@,
                down@,
                q_rows as int,
                kv_rows as int,
                o_rows as int,
                hid_rows as int,
                ffn_rows as int,
                p,
            ),
{
    let tiles: usize = max_of(
        max_of(
            max_of(tile_count(q_rows), tile_count(kv_rows)),
            max_of(tile_count(o_rows), tile_count(hid_rows)),
        ),
        tile_count(ffn_rows),
    );
    let mut fused: Vec<u8> = vec![0u8; tiles * FUSED_TILE_BYTES];
    place_matrix(&mut fused, 0, q_rows, q, tiles);
    place_matrix(&mut fused, 1, kv_rows, k, tiles);
    place_matrix(&mut fused, 2, kv_rows, v, tiles);
    place_matrix(&mut fused, 3, o_rows, o, tiles);
    place_matrix(&mut fused, 4, hid_rows, gate, tiles);
    place_matrix(&mut fused, 5, hid_rows, up, tiles);
    place_matrix(&mut fused, 6, ffn_rows, down, tiles);
    proof {
        assert forall|p: int| 0 <= p < fused@.len() implies #[trigger] fused@[p] == fused_byte(
            q@,
            k@,
            v@,
            o@,
            gate@,
            up@,
            down@,
            q_rows as int,
            kv_rows as int,
            o_rows as int,
            hid_rows as int,
            ffn_rows as int,
            p,
        ) by {
            assert(0 <= (p % 1260) / 180 < 7);
        }
    }
    fused
}

/// The seven matrices of a layer lie in a fused buffer side by side: tile `t` holds
/// 180 bytes of each, those of Q first, then K, V, O, Gate, Up and Down, and the 180
/// bytes of a matrix are the ones from `180 * t` on, as far as its rows and its data
/// go; behind them they are zero. There are as many tiles as the tallest matrix needs
/// for 32 rows each.
#[verifier::spinoff_prover]
#[verifier::rlimit(30)]
pub proof fn law_fused_tiles_hold_the_matrices(
    q: &[u8],
    k: &[u8],
    v: &[u8],
    o: &[u8],
    gate: &[u8],
    up: &[u8],
    down: &[u8],
    q_rows: usize,
    kv_rows: usize,
    o_rows: usize,
    hid_rows: usize,
    ffn_rows: usize,
    fused: Vec<u8>,
    t: int,
)
    requires
        call_ensures(
            interleave_fused_ternary_layer,
            (q, k, v, o, gate, up, down, q_rows, kv_rows, o_rows, hid_rows, ffn_rows),
            fused,
        ),
        0 <= t,
        32 * t < q_rows || 32 * t < kv_rows || 32 * t < o_rows || 32 * t < hid_rows || 32 * t
            < ffn_rows,
    ensures
        1260 * t + 1260 <= fused@.len(),
        fused@.len() % 1260 == 0,
        ({
            let matrices = seq![q@, k@, v@, o@, gate@, up@, down@];
            let rows = seq![q_rows, kv_rows, kv_rows, o_rows, hid_rows, hid_rows, ffn_rows];
            forall|m: int|
                0 <= m < 7 ==> fused@.subrange(
                    1260 * t + 180 * m,
                    1260 * t + 180 * m + 180,
                ) == (if 32 * t < rows[m] && 180 * t + 180 <= (#[trigger] matrices[m]).len() {
                    matrices[m].subrange(180 * t, 180 * t + 180)
                } else {
                    Seq::new(180, |i: int| 0u8)
                })
        }),
{
    let matrices = seq![q@, k@, v@, o@, gate@, up@, down@];
    let rows = seq![q_rows, kv_rows, kv_rows, o_rows, hid_rows, hid_rows, ffn_rows];
    assert forall|m: int| 0 <= m < 7 implies fused@.subrange(
        1260 * t + 180 * m,
        1260 * t + 180 * m + 180,
    ) == (if 32 * t < rows[m] && 180 * t + 180 <= (#[trigger] matrices[m]).len() {
        matrices[m].subrange(180 * t, 180 * t + 180)
    } else {
        Seq::new(180, |i: int| 0u8)
    }) by {
        let part = fused@.subrange(1260 * t + 180 * m, 1260 * t + 180 * m + 180);
        let wanted = if 32 * t < rows[m] && 180 * t + 180 <= matrices[m].len() {
            matrices[m].subrange(180 * t, 180 * t + 180)
        } else {
            Seq::new(180, |i: int| 0u8)
        };
        assert forall|i: int| 0 <= i < 180 implies part[i] == wanted[i] by {
            let p = t * 1260 + m * 180 + i;
            lemma_tile_position(t, m, i);
            assert(part[i] == fused@[p]);
        }
        assert(part =~= wanted);
    }
}

/// A fused buffer loses nothing of a matrix: where a matrix has data for its rows,
/// 180 bytes for every 32, its parts of the tiles, one after the other, are its data.
#[verifier::spinoff_prover]
#[verifier::rlimit(30)]
pub proof fn law_fused_matrix_reads_back(
    q: &[u8],
    k: &[u8],
    v: &[u8],
    o: &[u8],
    gate: &[u8],
    up: &[u8],
    down: &[u8],
    q_rows: usize,
    kv_rows: usize,
    o_rows: usize,
    hid_rows: usize,
    ffn_rows: usize,
    fused: Vec<u8>,
    m: int,
    at: int,
)
    requires
        call_ensures(
            interleave_fused_ternary_layer,
            (q, k, v, o, gate, up, down, q_rows, kv_rows, o_rows, hid_rows, ffn_rows),
            fused,
        ),
        0 <= m < 7,
        ({
            let data = seq![q@, k@, v@, o@, gate@, up@, down@][m];
            let rows = seq![q_rows, kv_rows, kv_rows, o_rows, hid_rows, hid_rows, ffn_rows][m];
            data.len() == 180 * ((rows + 31) / 32) && 0 <= at < data.len()
        }),
    ensures
        1260 * (at / 180) + 180 * m + at % 180 < fused@.len(),
        fused@[1260 * (at / 180) + 180 * m + at % 180] == seq![
            q@,
            k@,
            v@,
            o@,
            gate@,
            up@,
            down@,
        ][m][at],
{
    let t = at / 180;
    let i = at % 180;
    let matrices = seq![q@, k@, v@, o@, gate@, up@, down@];
    let rows = seq![q_rows, kv_rows, kv_rows, o_rows, hid_rows, hid_rows, ffn_rows];
    assert(32 * t < rows[m]);
    assert(180 * t + 180 <= matrices[m].len());
    law_fused_tiles_hold_the_matrices(
        q,
        k,
        v,
        o,
        gate,
        up,
        down,
        q_rows,
        kv_rows,
        o_rows,
        hid_rows,
        ffn_rows,
        fused,
        t,
    );
    assert(matrices[m].len() >= 0);
    let part = fused@.subrange(1260 * t + 180 * m, 1260 * t + 180 * m + 180);
    assert(part[i] == matrices[m].subrange(180 * t, 180 * t + 180)[i]);
}

/// Trit `i` of a block: five to a byte, the first the lowest in base 3.
pub open spec fn trit_in(packed: Seq<u8>, i: int) -> int {
    packed[i / 5] as int / pow(3, (i % 5) as nat) % 3
}

#[verifier::spinoff_prover]
#[verifier::rlimit(30)]
pub proof fn lemma_trit_in(packed: Seq<u8>, trits: Seq<u8>, i: int)
    requires
        trits.len() == 32,
        packs_trits(packed, trits),
        forall|k: int| 0 <= k < 32 ==> #[trigger] trits[k] <= 2,
        0 <= i < 32,
    ensures
        trit_in(packed, i) == trits[i],
{
    let b = i / 5;
    let d = i % 5;
    lemma_small_powers();
    if b < 6 {
        let five = trits.subrange(5 * b, 5 * b + 5);
        assert forall|k: int| 0 <= k < 5 implies #[trigger] five[k] <= 2 by {
            assert(five[k] == trits[5 * b + k]);
        }
        law_trits_round_trip(five);
        assert(five[d] == trits[i]);
        reveal_with_fuel(swizzle::three_to, 5);
        assert(packed[b] == pack5(five));
    } else {
        assert(trits[30] <= 2 && trits[31] <= 2);
        assert(packed[6] == trits[30] + 3 * trits[31]);
        if d == 0 {
            assert(packed[6] as int / 1 == packed[6] as int);
        }
    }
}

proof fn lemma_small_powers()
    ensures
        pow(3, 0) == 1,
        pow(3, 1) == 3,
        pow(3, 2) == 9,
        pow(3, 3) == 27,
        pow(3, 4) == 81,
{
    reveal(pow);
    reveal_with_fuel(pow, 6);
}

/// Whether a scale is that of a block of weights: the largest of their magnitudes,
/// leaving out what is no number, where that is above 1e-7, and one otherwise.
pub open spec fn is_scale_of_block(scale: u32, weights: Seq<u32>) -> bool {
    let counts = |j: int| 0x33D6_BF95 < weights[j] % 0x8000_0000 <= 0x7F80_0000;
    if exists|j: int| 0 <= j < weights.len() && #[trigger] counts(j) {
        &&& forall|j: int|
            0 <= j < weights.len() && #[trigger] counts(j) ==> weights[j] % 0x8000_0000 <= scale
        &&& exists|j: int|
            0 <= j < weights.len() && #[trigger] counts(j) && weights[j] % 0x8000_0000 == scale
    } else {
        scale == 0x3F80_0000
    }
}

/// Whether a trit is that of a weight under a scale: 2 for a positive weight beyond half
/// the scale, 0 for a negative one, and 1 beneath half the scale. Single precision
/// settles what lies within a part in two million of half the scale.
pub open spec fn is_trit_under(t: int, w: u32, scale: u32) -> bool {
    let size = float_bits::magnitude(w as int % 0x8000_0000);
    let whole = float_bits::magnitude(scale as int);
    &&& t == 1 || t == (if w < 0x8000_0000 {
        2int
    } else {
        0
    })
    &&& w % 0x8000_0000 >= 0x7F80_0000 ==> t == 1
    &&& w % 0x8000_0000 < 0x7F80_0000 && scale < 0x7F80_0000 ==> {
        &&& 0x40_0000 * (2 * size) > 0x40_0002 * whole ==> t != 1
        &&& 0x40_0000 * (2 * size) <= 0x3F_FFFE * whole ==> t == 1
        &&& w % 0x8000_0000 == scale ==> t != 1
    }
}

/// The scale and the trits of a block are those of its weights.
#[verifier::spinoff_prover]
pub proof fn lemma_block_is_of_its_weights(weights: Seq<u32>, i: int)
    requires
        0 <= i < weights.len(),
    ensures
        is_scale_of_block(block32_scale(weights), weights),
        is_trit_under(block32_trits(weights)[i] as int, weights[i], block32_scale(weights)),
        block32_trits(weights)[i] <= 2,
{
    let scale = block32_scale(weights);
    let top = float_bits::largest_bits(weights);
    let counts = |j: int| 0x33D6_BF95 < weights[j] % 0x8000_0000 <= 0x7F80_0000;
    float_bits::lemma_largest_is_largest(weights);
    if top != 0 {
        let j = choose|j: int| 0 <= j < weights.len() && #[trigger] weights[j] % 0x8000_0000 == top;
        assert(top > 0x33D6_BF95 ==> counts(j));
    }
    assert forall|j: int| 0 <= j < weights.len() && #[trigger] counts(j) implies weights[j]
        % 0x8000_0000 <= top by {}
    let w = weights[i];
    if float_bits::abs_bits(w) < 0x7F80_0000 && scale < 0x7F80_0000 {
        float_bits::lemma_rounding_by_half_scale(w, scale);
        float_bits::lemma_magnitude_increases(0, scale as int);
        assert(float_bits::magnitude(0) == 0);
    }
}

/// A block holds its 32 weights under one scale, and what it stores of the scale is the
/// nearest half-precision value.
pub proof fn law_block_holds_its_weights(weights: &[u32; 32], r: TernaryBlock32, i: int) -> (scale:
    u32)
    requires
        call_ensures(quantize_to_ternary_block32, (weights,), r),
        0 <= i < 32,
    ensures
        is_scale_of_block(scale, weights@),
        is_trit_under(trit_in(r.packed_trits@, i), weights@[i], scale),
        r.block_scale == float_bits::nearest_half(scale as int),
{
    let trits = block32_trits(weights@);
    lemma_trit_in(r.packed_trits@, trits, i);
    lemma_block_is_of_its_weights(weights@, i);
    block32_scale(weights@)
}

/// Repacking a tensor of twenty digits to a word keeps every digit: digit `k` of the
/// tensor is trit `k % 32` of block `k / 32`, and every block has a scale of one.
#[verifier::spinoff_prover]
#[verifier::rlimit(30)]
pub proof fn law_repacked_blocks_keep_digits(src: &[u32], r: Vec<TernaryBlock32>, k: int)
    requires
        call_ensures(repack_ternary_tensor, (src,), r),
        0 <= k < 20 * src@.len(),
    ensures
        r@.len() == (20 * src@.len() + 31) / 32,
        trit_in(r@[k / 32].packed_trits@, k % 32) == src@[k / 20] as int / pow(
            3,
            (k % 20) as nat,
        ) % 3,
        r@[k / 32].block_scale == 0x3C00,
{
    let weights = block32_weights(decompressed(src@), k / 32);
    let trits = block32_trits(weights);
    law_repack_keeps_weights(src@, k);
    assert(is_block_of(r@[k / 32], weights));
    lemma_trit_in(r@[k / 32].packed_trits@, trits, k % 32);
    lemma_three_to_is_pow((k % 20) as nat);
    assert(float_bits::exponent_of(0x3F80_0000) == 127);
    assert(float_bits::fraction_of(0x3F80_0000) == 0);
}

proof fn lemma_three_to_is_pow(n: nat)
    ensures
        swizzle::three_to(n) == pow(3, n),
    decreases n,
{
    if n == 0 {
        lemma_pow0(3);
    } else {
        lemma_three_to_is_pow((n - 1) as nat);
        reveal(pow);
    }
}

/// A weight of the expanded form is minus one, zero or one, in single precision, where
/// its digit is 0, 1 or 2.
pub proof fn law_digits_expand_to_signs(src: &[u32], r: Vec<u32>, k: int)
    requires
        call_ensures(decompress_ternary_u32_tensor, (src,), r),
        0 <= k < 20 * src@.len(),
    ensures
        r@.len() == 20 * src@.len(),
        ({
            let d = src@[k / 20] as int / pow(3, (k % 20) as nat) % 3;
            &&& d == 0 ==> r@[k] == 0xBF80_0000
            &&& d == 1 ==> r@[k] == 0
            &&& d == 2 ==> r@[k] == 0x3F80_0000
        }),
{
    lemma_three_to_is_pow((k % 20) as nat);
}

/// Packing five digits and unpacking the byte gives the digits back.
#[verifier::spinoff_prover]
#[verifier::rlimit(30)]
pub proof fn law_packed_byte_unpacks(digits: &[u8; 5], byte: u8, i: int)
    requires
        forall|j: int| 0 <= j < 5 ==> #[trigger] digits@[j] <= 2,
        call_ensures(pack_5_trits, (digits,), byte),
        0 <= i < 5,
    ensures
        byte <= 242,
        byte as int / pow(3, i as nat) % 3 == digits@[i],
        byte == digits@[0] + 3 * digits@[1] + 9 * digits@[2] + 27 * digits@[3] + 81 * digits@[4],
{
    law_trits_round_trip(digits@);
    lemma_three_to_is_pow(i as nat);
    assert(digits@[0] <= 2 && digits@[1] <= 2 && digits@[2] <= 2 && digits@[3] <= 2 && digits@[4]
        <= 2);
}

} // verus!
