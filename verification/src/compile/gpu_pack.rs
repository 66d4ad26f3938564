//! What surrounds the packing of a weight on the graphics processor: the sizes
//! of its buffers, the rows it reads, and what becomes of its results.

use vstd::prelude::*;
use vstd::string::*;

use crate::config::{ExecutionSpec, PackedLinearShapes, PackedView};
use crate::table::NameTable;
use crate::wire;

use super::emit;
use super::quantize;
use super::source;
use super::source::{SourceTensor, SourceView};

verus! {

/// The sizes of a packing.
#[derive(Debug, Clone, Copy, PartialEq, Eq, Structural)]
pub struct TileJob {
    /// The tiles of a row.
    pub tiles: u32,
    /// The elements of a row, filled up to whole tiles.
    pub padded_in: u64,
    /// The bytes that are read.
    pub ingest_bytes: u64,
    /// The bytes of the packed words.
    pub packed_bytes: u64,
    /// The bytes of the scales.
    pub scale_bytes: u64,
    /// The threads: one for each tile.
    pub threads: u64,
    /// The threads of a group.
    pub group_threads: u64,
}

/// The tiles of a row.
pub open spec fn row_tiles(in_dim: u32) -> int {
    (in_dim + 639) / 640
}

/// Every count of the packing is in range.
pub open spec fn is_packable(out_dim: u32, in_dim: u32) -> bool {
    &&& out_dim * row_tiles(in_dim) * 32 <= u32::MAX
    &&& out_dim * row_tiles(in_dim) * 1280 <= usize::MAX
}

proof fn lemma_products(out_dim: u32, in_dim: u32)
    requires
        is_packable(out_dim, in_dim),
    ensures
        0 <= out_dim * row_tiles(in_dim) <= u32::MAX,
        out_dim * (row_tiles(in_dim) * 640) * 2 == out_dim * row_tiles(in_dim) * 1280,
        out_dim * in_dim <= out_dim * (row_tiles(in_dim) * 640),
{
    let t = row_tiles(in_dim);
    assert(in_dim <= t * 640);
    assert(0 <= out_dim * t) by (nonlinear_arith)
        requires
            0 <= t,
            0 <= out_dim,
    ;
    assert(out_dim * (t * 640) * 2 == out_dim * t * 1280) by (nonlinear_arith);
    assert(out_dim * in_dim <= out_dim * (t * 640)) by (nonlinear_arith)
        requires
            in_dim <= t * 640,
            0 <= out_dim,
    ;
}

/// The sizes of the packing of a weight.
pub fn tile_job(out_dim: u32, in_dim: u32) -> (r: TileJob)
    requires
        is_packable(out_dim, in_dim),
    ensures
        r.tiles == row_tiles(in_dim),
        r.padded_in == row_tiles(in_dim) * 640,
        r.ingest_bytes == out_dim * r.padded_in * 2,
        r.packed_bytes == out_dim * row_tiles(in_dim) * 32 * 4,
        r.scale_bytes == out_dim * row_tiles(in_dim) * 4,
        r.threads == out_dim * row_tiles(in_dim),
        r.group_threads == 32,
{
    proof {
        lemma_products(out_dim, in_dim);
    }
    let tiles: u64 = (in_dim as u64 + 639) / 640;
    let total: u64 = out_dim as u64 * tiles;
    TileJob {
        tiles: tiles as u32,
        padded_in: tiles * 640,
        ingest_bytes: total * 1280,
        packed_bytes: total * 32 * 4,
        scale_bytes: total * 4,
        threads: total,
        group_threads: 32,
    }
}

/// A row of two-byte elements, filled up to whole tiles with zeros.
pub open spec fn ingest_row(raw: Seq<u8>, in_dim: u32, row: int) -> Seq<u8> {
    raw.subrange(row * in_dim * 2, (row + 1) * in_dim * 2) + Seq::new(
        ((row_tiles(in_dim) * 640 - in_dim) * 2) as nat,
        |i: int| 0u8,
    )
}

/// The rows that the packing reads.
pub open spec fn ingest_rows(raw: Seq<u8>, out_dim: int, in_dim: u32) -> Seq<u8> {
    quantize::stacked(out_dim as nat, |row: int| ingest_row(raw, in_dim, row))
}

/// The rows that the packing reads.
pub fn pad_rows(raw: &[u8], out_dim: u32, in_dim: u32) -> (r: Vec<u8>)
    requires
        is_packable(out_dim, in_dim),
        out_dim * in_dim * 2 <= raw@.len(),
    ensures
        r@ == ingest_rows(raw@, out_dim as int, in_dim),
{
    proof {
        lemma_products(out_dim, in_dim);
    }
    let tiles: u64 = (in_dim as u64 + 639) / 640;
    let fill: usize = ((tiles * 640 - in_dim as u64) * 2) as usize;
    let ghost rows = |row: int| ingest_row(raw@, in_dim, row);
    let mut r: Vec<u8> = Vec::new();
    let mut row: u32 = 0;
    while row < out_dim
        invariant
            row <= out_dim,
            out_dim * in_dim * 2 <= raw@.len(),
            raw@.len() == raw.len(),
            fill == (row_tiles(in_dim) * 640 - in_dim) * 2,
            rows == (|row: int| ingest_row(raw@, in_dim, row)),
            r@ == quantize::stacked(row as nat, rows),
        decreases out_dim - row,
    {
        proof {
            assert((row + 1) * in_dim * 2 <= out_dim * in_dim * 2) by (nonlinear_arith)
                requires
                    row + 1 <= out_dim,
                    0 <= in_dim,
            ;
            assert(row * in_dim * 2 + in_dim * 2 == (row + 1) * in_dim * 2) by (nonlinear_arith);
            assert(0 <= row * in_dim) by (nonlinear_arith)
                requires
                    0 <= row,
                    0 <= in_dim,
            ;
            assert(0 <= row * in_dim * 2);
        }
        let start: usize = (row as u64 * in_dim as u64 * 2) as usize;
        let end: usize = start + in_dim as usize * 2;
        let part: &[u8] = vstd::slice::slice_subrange(raw, start, end);
        r.extend_from_slice(part);
        wire::push_zeros(&mut r, fill);
        assert(r@ =~= quantize::stacked((row + 1) as nat, rows));
        row = row + 1;
    }
    r
}

/// Where the packed words went.
#[derive(Debug)]
pub enum PackedOutput {
    /// Straight into the image.
    InPlace,
    /// Into a buffer.
    Buffer(Vec<u32>),
}

/// The packed bytes that the source keeps.
pub open spec fn kept_bytes(out: PackedOutput) -> Seq<u8> {
    match out {
        PackedOutput::InPlace => Seq::empty(),
        PackedOutput::Buffer(words) => quantize::word_bytes(words@),
    }
}

/// The shapes of a weight that was packed on the graphics processor.
pub open spec fn gpu_shapes(out_dim: u32, in_dim: u32) -> PackedView {
    let tiles = row_tiles(in_dim);
    PackedView {
        weight: seq![out_dim, (out_dim * tiles * 32) as u32],
        scales: seq![out_dim, tiles as u32],
        biases: seq![out_dim, tiles as u32],
        bits: 2,
        group_size: 640,
        groups: (out_dim * tiles) as u32,
    }
}

/// The source with a weight that was packed on the graphics processor: its words
/// in place of the weight, and its scales beside it.
pub open spec fn with_gpu_packed(
    store: Map<Seq<char>, SourceView>,
    weight: Seq<char>,
    shapes: PackedView,
    data: Seq<u8>,
    scales: Seq<u8>,
) -> Map<Seq<char>, SourceView> {
    quantize::with_side(
        quantize::with_weight(store, weight, "U32"@, shapes.weight, data),
        emit::companion(weight, ".scales"@),
        shapes.scales,
        scales,
    )
}

/// Takes in what the graphics processor packed. The scales are the bits of
/// single-precision numbers, one for each tile.
pub fn install_gpu_packed(
    store: &mut NameTable<SourceTensor>,
    spec: &mut ExecutionSpec,
    weight: &str,
    out_dim: u32,
    in_dim: u32,
    packed: PackedOutput,
    scales: &Vec<u32>,
)
    requires
        old(store).wf(),
        is_packable(out_dim, in_dim),
    ensures
        final(store).wf(),
        source::source_views(final(store)@) == with_gpu_packed(
            source::source_views(old(store)@),
            weight@,
            gpu_shapes(out_dim, in_dim),
            kept_bytes(packed),
            quantize::word_bytes(scales@),
        ),
        final(spec)@ == quantize::with_shapes(old(spec)@, weight@, gpu_shapes(out_dim, in_dim)),
{
    let job: TileJob = tile_job(out_dim, in_dim);
    let words: u32 = (job.threads * 32) as u32;
    let shapes: PackedLinearShapes = PackedLinearShapes {
        weight: quantize::pair(out_dim, words),
        scales: quantize::pair(out_dim, job.tiles),
        biases: quantize::pair(out_dim, job.tiles),
        bits: 2,
        group_size: 640,
        groups: job.threads as u32,
    };
    assert(shapes@ =~= gpu_shapes(out_dim, in_dim));
    quantize::mark_spec(spec, weight, &shapes);
    let data: Vec<u8> = match packed {
        PackedOutput::InPlace => Vec::new(),
        PackedOutput::Buffer(words) => quantize::bytes_of_words(&words),
    };
    quantize::replace_weight(store, weight, "U32".to_owned(), shapes.weight, data);
    quantize::add_side(
        store,
        emit::companion_name(weight, ".scales"),
        shapes.scales,
        quantize::bytes_of_words(scales),
    );
}

/// Every row goes in with its own bytes, and with zeros up to the end of its last tile.
pub proof fn law_rows_are_padded_with_zeros(
    raw: &[u8],
    out_dim: u32,
    in_dim: u32,
    r: Vec<u8>,
    row: int,
    j: int,
)
    requires
        call_ensures(pad_rows, (raw, out_dim, in_dim), r),
        out_dim * in_dim * 2 <= raw@.len(),
        0 <= row < out_dim,
        0 <= j < (in_dim + 639) / 640 * 1280,
    ensures
        r@.len() == out_dim * ((in_dim + 639) / 640 * 1280),
        0 <= row * ((in_dim + 639) / 640 * 1280) + j < r@.len(),
        r@[row * ((in_dim + 639) / 640 * 1280) + j] == (if j < in_dim * 2 {
            raw@[row * (in_dim * 2) + j]
        } else {
            0u8
        }),
{
    let width = (in_dim as int + 639) / 640 * 1280;
    let used = in_dim as int * 2;
    let f = |i: int| ingest_row(raw@, in_dim, i);
    assert(used <= width);
    assert forall|i: int| 0 <= i < out_dim implies (#[trigger] f(i)).len() == width by {
        lemma_row_lies_within(raw@, out_dim, in_dim, i);
    }
    quantize::lemma_stacked_at(out_dim as nat, f, width, row, j);
    lemma_row_lies_within(raw@, out_dim, in_dim, row);
}

proof fn lemma_row_lies_within(raw: Seq<u8>, out_dim: u32, in_dim: u32, row: int)
    requires
        out_dim * in_dim * 2 <= raw.len(),
        0 <= row < out_dim,
    ensures
        row * in_dim * 2 == row * (in_dim * 2),
        (row + 1) * in_dim * 2 == row * (in_dim * 2) + in_dim * 2,
        0 <= row * in_dim * 2,
        (row + 1) * in_dim * 2 <= raw.len(),
{
    let n = out_dim as int;
    let w = in_dim as int;
    assert(row * w * 2 == row * (w * 2) && (row + 1) * w * 2 == row * (w * 2) + w * 2 && 0 <= row
        * w * 2 && (row + 1) * w * 2 <= n * w * 2) by (nonlinear_arith)
        requires
            0 <= row < n,
            0 <= w,
    ;
}

/// A weight that was packed on the device holds words of thirty-two to each tile of 640
/// elements, and has one scale to each tile beside it; no other tensor changes.
pub proof fn law_packed_weight_is_installed(
    store: Map<Seq<char>, SourceView>,
    stem: Seq<char>,
    out_dim: u32,
    in_dim: u32,
    words: Vec<u32>,
    scales: Seq<u8>,
    k: int,
    other: Seq<char>,
)
    requires
        is_packable(out_dim, in_dim),
        store.dom().contains(stem + ".weight"@),
        0 <= k < words@.len(),
        other != stem + ".weight"@,
        other != stem + ".scales"@,
    ensures
        ({
            let tiles = (in_dim + 639) / 640;
            let r = with_gpu_packed(
                store,
                stem + ".weight"@,
                gpu_shapes(out_dim, in_dim),
                kept_bytes(PackedOutput::Buffer(words)),
                scales,
            );
            let w = r[stem + ".weight"@];
            let s = r[stem + ".scales"@];
            &&& w.dtype == "U32"@
            &&& w.shape.len() == 2 && w.shape[0] == out_dim && w.shape[1] == out_dim * tiles * 32
            &&& w.data.len() == 4 * words@.len()
            &&& quantize::word_at_place(w.data, k) == words@[k]
            &&& s.shape.len() == 2 && s.shape[0] == out_dim && s.shape[1] == tiles
            &&& s.dtype == "F32"@
            &&& s.data == scales
            &&& r.dom().contains(other) == store.dom().contains(other)
            &&& store.dom().contains(other) ==> r[other] == store[other]
        }),
{
    quantize::lemma_stem(stem);
    quantize::lemma_word_at_place(words@, k);
    reveal_strlit(".weight");
    reveal_strlit(".scales");
    let w = stem + ".weight"@;
    let s = stem + ".scales"@;
    assert(w[w.len() - 1] == 't');
    assert(s[s.len() - 1] == 's');
    assert(w != s);
}

} // verus!
