//! Quantization of weight tensors: packed weights take the place of the source
//! data, and tensors of scales and biases join the source.
//!
//! The ternary schemes are worked out here from the bit patterns of the
//! weights. For the affine schemes the caller has a code that turns the values of
//! a group into its codes and scale; the weights are cut into groups here, and
//! what the code gives is packed.

use vstd::arithmetic::div_mod::lemma_fundamental_div_mod;
use vstd::arithmetic::power::{lemma_pow0, pow};
use vstd::prelude::*;
use vstd::string::*;

use crate::config;
use crate::config::{BindingView, CompileQuantMode, ExecutionSpec, ExecutionView, LayerView, PackedLinearShapes, PackedView, TensorBinding};
use crate::float_bits;
use crate::table::NameTable;
use crate::text;
use crate::wire;

use super::emit;
use super::source;
use super::source::{SourceTensor, SourceView};
use super::swizzle;

verus! {

// ---------------------------------------------------------------------------
// Putting packed weights in place
// ---------------------------------------------------------------------------

/// A quantized weight: its packed data with their element type, the shapes, and
/// the data of the scales and biases.
#[derive(Debug)]
pub struct PackedTensor {
    pub dtype: String,
    pub data: Vec<u8>,
    pub shapes: PackedLinearShapes,
    pub scales: Vec<u8>,
    pub biases: Vec<u8>,
}

#[verifier::ext_equal]
pub struct PackedTensorView {
    pub dtype: Seq<char>,
    pub data: Seq<u8>,
    pub shapes: PackedView,
    pub scales: Seq<u8>,
    pub biases: Seq<u8>,
}

impl PackedTensor {
    pub open spec fn view(&self) -> PackedTensorView {
        PackedTensorView {
            dtype: self.dtype@,
            data: self.data@,
            shapes: self.shapes@,
            scales: self.scales@,
            biases: self.biases@,
        }
    }
}

/// A tensor of single-precision values that no source file holds.
pub open spec fn side_tensor(name: Seq<char>, shape: Seq<u32>, data: Seq<u8>) -> SourceView {
    SourceView {
        name,
        dtype: "F32"@,
        shape,
        data,
        source_filename: Seq::empty(),
        source_sha256: Seq::empty(),
        source_offset: 0,
        source_byte_size: 0,
    }
}

/// The source with other data in place of those of a weight.
pub open spec fn with_weight(
    store: Map<Seq<char>, SourceView>,
    weight: Seq<char>,
    dtype: Seq<char>,
    shape: Seq<u32>,
    data: Seq<u8>,
) -> Map<Seq<char>, SourceView> {
    if store.dom().contains(weight) {
        store.insert(weight, SourceView { data, dtype, shape, ..store[weight] })
    } else {
        store
    }
}

/// The source with a tensor beside a weight.
pub open spec fn with_side(
    store: Map<Seq<char>, SourceView>,
    name: Seq<char>,
    shape: Seq<u32>,
    data: Seq<u8>,
) -> Map<Seq<char>, SourceView> {
    store.insert(name, side_tensor(name, shape, data))
}

/// The source with a quantized weight in place of the weight, and with its
/// scales and biases.
pub open spec fn with_packed(
    store: Map<Seq<char>, SourceView>,
    weight: Seq<char>,
    p: PackedTensorView,
) -> Map<Seq<char>, SourceView> {
    let replaced = with_weight(store, weight, p.dtype, p.shapes.weight, p.data);
    let scaled = with_side(
        replaced,
        emit::companion(weight, ".scales"@),
        p.shapes.scales,
        p.scales,
    );
    with_side(scaled, emit::companion(weight, ".biases"@), p.shapes.biases, p.biases)
}

/// A binding after the weight of that name has been quantized.
pub open spec fn marked(b: BindingView, weight: Seq<char>, shapes: PackedView) -> BindingView {
    if b.name == weight && b.packed is None {
        BindingView { packed: Some(shapes), ..b }
    } else {
        b
    }
}

/// Bindings after the weight of that name has been quantized.
pub open spec fn marked_all(bs: Seq<BindingView>, weight: Seq<char>, shapes: PackedView) -> Seq<
    BindingView,
> {
    bs.map_values(|b: BindingView| marked(b, weight, shapes))
}

/// The needs of an execution after the weight of that name has been quantized.
pub open spec fn with_shapes(e: ExecutionView, weight: Seq<char>, shapes: PackedView) -> ExecutionView {
    ExecutionView {
        global_tensors: marked_all(e.global_tensors, weight, shapes),
        layers: e.layers.map_values(
            |l: LayerView|
                LayerView { index: l.index, tensors: marked_all(l.tensors, weight, shapes) },
        ),
    }
}

fn mark_bindings(bindings: &mut Vec<TensorBinding>, weight: &str, shapes: &PackedLinearShapes)
    ensures
        config::binding_views(final(bindings)@) == marked_all(
            config::binding_views(old(bindings)@),
            weight@,
            shapes@,
        ),
        final(bindings)@.len() == old(bindings)@.len(),
{
    let ghost before = bindings@;
    let mut i: usize = 0;
    while i < bindings.len()
        invariant
            i <= bindings@.len(),
            bindings@.len() == before.len(),
            forall|j: int|
                0 <= j < i ==> (#[trigger] bindings@[j])@ == marked(before[j]@, weight@, shapes@),
            forall|j: int| i <= j < before.len() ==> (#[trigger] bindings@[j]) == before[j],
        decreases bindings@.len() - i,
    {
        let ghost now = bindings@;
        if text::same_text(bindings[i].name.as_str(), weight) && bindings[i].packed_shape.is_none() {
            bindings[i].packed_shape = Some(shapes.copy());
        }
        assert(bindings@ =~= now.update(i as int, bindings@[i as int]));
        i = i + 1;
    }
    assert(config::binding_views(bindings@) =~= marked_all(
        config::binding_views(before),
        weight@,
        shapes@,
    ));
}

pub(crate) fn mark_spec(spec: &mut ExecutionSpec, weight: &str, shapes: &PackedLinearShapes)
    ensures
        final(spec)@ == with_shapes(old(spec)@, weight@, shapes@),
{
    let ghost before = *spec;
    mark_bindings(&mut spec.global_tensors, weight, shapes);
    let ghost layers = spec.layers@;
    let mut i: usize = 0;
    while i < spec.layers.len()
        invariant
            i <= spec.layers@.len(),
            layers == before.layers@,
            config::binding_views(spec.global_tensors@) == marked_all(
                config::binding_views(before.global_tensors@),
                weight@,
                shapes@,
            ),
            spec.layers@.len() == layers.len(),
            forall|j: int|
                0 <= j < i ==> (#[trigger] spec.layers@[j])@ == (LayerView {
                    index: layers[j].index,
                    tensors: marked_all(layers[j]@.tensors, weight@, shapes@),
                }),
            forall|j: int| i <= j < layers.len() ==> (#[trigger] spec.layers@[j]) == layers[j],
        decreases spec.layers@.len() - i,
    {
        let ghost now = spec.layers@;
        mark_bindings(&mut spec.layers[i].tensors, weight, shapes);
        assert(spec.layers@ =~= now.update(i as int, spec.layers@[i as int]));
        i = i + 1;
    }
    proof {
        let want = with_shapes(before@, weight@, shapes@);
        assert(spec@.global_tensors == want.global_tensors);
        assert(spec@.layers =~= want.layers);
    }
}

/// Puts other data in place of those of a weight.
pub(crate) fn replace_weight(
    store: &mut NameTable<SourceTensor>,
    weight: &str,
    dtype: String,
    shape: Vec<u32>,
    data: Vec<u8>,
)
    requires
        old(store).wf(),
    ensures
        final(store).wf(),
        source::source_views(final(store)@) == with_weight(
            source::source_views(old(store)@),
            weight@,
            dtype@,
            shape@,
            data@,
        ),
{
    let ghost before = source::source_views(store@);
    match store.find(weight) {
        Some(i) => {
            let replaced: SourceTensor = SourceTensor {
                name: store.values[i].name.clone(),
                dtype,
                shape,
                data,
                source_filename: store.values[i].source_filename.clone(),
                source_sha256: store.values[i].source_sha256.clone(),
                source_offset: store.values[i].source_offset,
                source_byte_size: store.values[i].source_byte_size,
            };
            store.replace(i, replaced);
            assert(source::source_views(store@) =~= before.insert(weight@, replaced@));
        },
        None => {},
    }
}

/// Adds a tensor beside a weight.
pub(crate) fn add_side(
    store: &mut NameTable<SourceTensor>,
    name: String,
    shape: Vec<u32>,
    data: Vec<u8>,
)
    requires
        old(store).wf(),
    ensures
        final(store).wf(),
        source::source_views(final(store)@) == with_side(
            source::source_views(old(store)@),
            name@,
            shape@,
            data@,
        ),
{
    let ghost before = source::source_views(store@);
    let side: SourceTensor = SourceTensor {
        name: name.clone(),
        dtype: "F32".to_owned(),
        shape,
        data,
        source_filename: String::new(),
        source_sha256: String::new(),
        source_offset: 0,
        source_byte_size: 0,
    };
    assert(side@ =~= side_tensor(name@, shape@, data@));
    store.insert(name, side);
    assert(source::source_views(store@) =~= before.insert(name@, side@));
}

/// Puts a quantized weight in place of the weight, adds its scales and biases,
/// and records the shapes in the bindings of that name that had none.
pub fn install_packed(
    store: &mut NameTable<SourceTensor>,
    spec: &mut ExecutionSpec,
    weight: &str,
    packed: PackedTensor,
)
    requires
        old(store).wf(),
    ensures
        final(store).wf(),
        source::source_views(final(store)@) == with_packed(
            source::source_views(old(store)@),
            weight@,
            packed@,
        ),
        final(spec)@ == with_shapes(old(spec)@, weight@, packed@.shapes),
{
    mark_spec(spec, weight, &packed.shapes);
    let shapes: PackedLinearShapes = packed.shapes;
    replace_weight(store, weight, packed.dtype, shapes.weight, packed.data);
    add_side(store, emit::companion_name(weight, ".scales"), shapes.scales, packed.scales);
    add_side(store, emit::companion_name(weight, ".biases"), shapes.biases, packed.biases);
}

// ---------------------------------------------------------------------------
// Rows, words and bytes
// ---------------------------------------------------------------------------

/// The rows `f(0)`, `f(1)`, ... one after the other, `n` of them.
pub open spec fn stacked<A>(n: nat, f: spec_fn(int) -> Seq<A>) -> Seq<A>
    decreases n,
{
    if n == 0 {
        Seq::empty()
    } else {
        stacked((n - 1) as nat, f) + f(n - 1)
    }
}

/// The bytes of words, lowest byte first.
pub open spec fn word_bytes(words: Seq<u32>) -> Seq<u8>
    decreases words.len(),
{
    if words.len() == 0 {
        Seq::empty()
    } else {
        word_bytes(words.drop_last()) + wire::le_bytes(words.last() as nat, 4)
    }
}

pub(crate) fn bytes_of_words(words: &Vec<u32>) -> (r: Vec<u8>)
    ensures
        r@ == word_bytes(words@),
{
    let mut r: Vec<u8> = Vec::new();
    let mut i: usize = 0;
    assert(words@.take(0) =~= Seq::<u32>::empty());
    while i < words.len()
        invariant
            i <= words@.len(),
            r@ == word_bytes(words@.take(i as int)),
        decreases words@.len() - i,
    {
        assert(words@.take(i + 1).drop_last() =~= words@.take(i as int));
        wire::push_le(&mut r, words[i] as u64, 4);
        i = i + 1;
    }
    assert(words@.take(words@.len() as int) =~= words@);
    r
}

fn zero_bytes(n: usize) -> (r: Vec<u8>)
    ensures
        r@ == Seq::new(n as nat, |i: int| 0u8),
{
    let r: Vec<u8> = vec![0u8; n];
    assert(r@ =~= Seq::new(n as nat, |i: int| 0u8));
    r
}

pub(crate) fn pair(a: u32, b: u32) -> (r: Vec<u32>)
    ensures
        r@ == seq![a, b],
{
    let mut r: Vec<u32> = Vec::new();
    r.push(a);
    r.push(b);
    assert(r@ =~= seq![a, b]);
    r
}

/// The number of groups that a row is divided into.
pub open spec fn groups_in_row(in_dim: u32, group_size: u32) -> int {
    (in_dim + group_size - 1) / group_size as int
}

/// The position in row `row` at which group `g` ends.
pub open spec fn group_end(in_dim: u32, group_size: u32, g: int) -> int {
    if (g + 1) * group_size <= in_dim {
        (g + 1) * group_size
    } else {
        in_dim as int
    }
}

proof fn lemma_cell(row: int, col: int, rows: int, width: int)
    requires
        0 <= row < rows,
        0 <= col < width,
    ensures
        0 <= row * width,
        row * width + col < rows * width,
        row * width + width <= rows * width,
{
    assert(row * width + width <= rows * width) by (nonlinear_arith)
        requires
            0 <= row < rows,
            0 <= width,
    ;
    assert(0 <= row * width) by (nonlinear_arith)
        requires
            0 <= row,
            0 <= width,
    ;
}

/// A column lies in one of the groups of its row.
proof fn lemma_group_of(col: int, in_dim: u32, group_size: u32)
    requires
        0 <= col < in_dim,
        0 < group_size,
    ensures
        0 <= col / group_size as int,
        col / (group_size as int) < groups_in_row(in_dim, group_size),
{
    let gs = group_size as int;
    let n = in_dim as int;
    lemma_fundamental_div_mod(col, gs);
    lemma_fundamental_div_mod(n + gs - 1, gs);
    let q = col / gs;
    let g = (n + gs - 1) / gs;
    assert(0 <= q) by (nonlinear_arith)
        requires
            col == gs * q + col % gs,
            0 <= col,
            0 <= col % gs < gs,
    ;
    assert(q < g) by (nonlinear_arith)
        requires
            col == gs * q + col % gs,
            n + gs - 1 == gs * g + (n + gs - 1) % gs,
            0 <= col % gs < gs,
            0 <= (n + gs - 1) % gs < gs,
            col < n,
    ;
}

/// A group of a row begins inside the row.
proof fn lemma_group_start(g: int, in_dim: u32, group_size: u32)
    requires
        0 <= g < groups_in_row(in_dim, group_size),
        0 < group_size,
    ensures
        0 <= g * group_size < in_dim,
        g * group_size < group_end(in_dim, group_size, g) <= in_dim,
{
    let gs = group_size as int;
    let n = in_dim as int;
    lemma_fundamental_div_mod(n + gs - 1, gs);
    let q = (n + gs - 1) / gs;
    assert(g * gs < n) by (nonlinear_arith)
        requires
            n + gs - 1 == gs * q + (n + gs - 1) % gs,
            0 <= (n + gs - 1) % gs < gs,
            g < q,
            0 < gs,
    ;
    assert(0 <= g * gs) by (nonlinear_arith)
        requires
            0 <= g,
            0 < gs,
    ;
    assert((g + 1) * gs == g * gs + gs) by (nonlinear_arith);
}

// ---------------------------------------------------------------------------
// Ternary digits
// ---------------------------------------------------------------------------

/// The scale of group `g` of row `row`.
pub open spec fn group_scale(
    values: Seq<u32>,
    in_dim: u32,
    group_size: u32,
    row: int,
    g: int,
) -> u32 {
    float_bits::block_scale(
        values.subrange(
            row * in_dim + g * group_size,
            row * in_dim + group_end(in_dim, group_size, g),
        ),
    )
}

/// The ternary digit of the weight in a row and column: 1 where the weight is
/// more than half the scale of its group, 2 where it is less than minus half of
/// it, in single precision; 0 otherwise, and beyond the end of the row.
pub open spec fn weight_digit(
    values: Seq<u32>,
    in_dim: u32,
    group_size: u32,
    row: int,
    col: int,
) -> u8 {
    if col < in_dim {
        float_bits::product_digit(
            values[row * in_dim + col],
            float_bits::reciprocal(
                group_scale(values, in_dim, group_size, row, col / group_size as int),
            ),
        )
    } else {
        0
    }
}

/// The scales of a row.
pub open spec fn row_scales(values: Seq<u32>, in_dim: u32, group_size: u32, row: int) -> Seq<u32> {
    Seq::new(
        groups_in_row(in_dim, group_size) as nat,
        |g: int| group_scale(values, in_dim, group_size, row, g),
    )
}

/// The scales of all rows.
pub open spec fn all_scales(values: Seq<u32>, out_dim: u32, in_dim: u32, group_size: u32) -> Seq<
    u32,
> {
    stacked(out_dim as nat, |row: int| row_scales(values, in_dim, group_size, row))
}

fn scales_of_row(
    values: &Vec<u32>,
    out_dim: u32,
    in_dim: u32,
    group_size: u32,
    groups: u32,
    row: u32,
) -> (r: Vec<u32>)
    requires
        0 < group_size,
        groups == groups_in_row(in_dim, group_size),
        row < out_dim,
        out_dim * in_dim <= values.len(),
    ensures
        r@ == row_scales(values@, in_dim, group_size, row as int),
        forall|g: int| 0 <= g < r@.len() ==> 0x80_0000 <= #[trigger] r@[g] <= 0x7F80_0000,
{
    let mut r: Vec<u32> = Vec::new();
    let mut g: u32 = 0;
    while g < groups
        invariant
            g <= groups,
            0 < group_size,
            groups == groups_in_row(in_dim, group_size),
            row < out_dim,
            out_dim * in_dim <= values.len(),
            r@.len() == g,
            forall|j: int|
                0 <= j < g ==> #[trigger] r@[j] == group_scale(
                    values@,
                    in_dim,
                    group_size,
                    row as int,
                    j,
                ) && 0x80_0000 <= r@[j] <= 0x7F80_0000,
        decreases groups - g,
    {
        proof {
            lemma_group_start(g as int, in_dim, group_size);
            lemma_cell(row as int, 0, out_dim as int, in_dim as int);
            let a = g as int;
            let b = group_size as int;
            assert((a + 1) * b == a * b + b) by (nonlinear_arith);
        }
        let base: usize = row as usize * in_dim as usize;
        let first: u64 = g as u64 * group_size as u64;
        let last: u64 = if first + group_size as u64 <= in_dim as u64 {
            first + group_size as u64
        } else {
            in_dim as u64
        };
        let scale: u32 = float_bits::scale_of(values, base + first as usize, base + last as usize);
        r.push(scale);
        g = g + 1;
    }
    assert(r@ =~= row_scales(values@, in_dim, group_size, row as int));
    r
}

/// The digit in a row and column, from the scales of the row.
fn digit_at(
    values: &Vec<u32>,
    scales: &Vec<u32>,
    out_dim: u32,
    in_dim: u32,
    group_size: u32,
    row: u32,
    col: u64,
) -> (r: u8)
    requires
        0 < group_size,
        row < out_dim,
        out_dim * in_dim <= values.len(),
        scales@ == row_scales(values@, in_dim, group_size, row as int),
        forall|g: int| 0 <= g < scales@.len() ==> 0x80_0000 <= #[trigger] scales@[g] <= 0x7F80_0000,
    ensures
        r == weight_digit(values@, in_dim, group_size, row as int, col as int),
        r <= 2,
{
    if col < in_dim as u64 {
        proof {
            lemma_group_of(col as int, in_dim, group_size);
            lemma_cell(row as int, col as int, out_dim as int, in_dim as int);
        }
        let g: usize = (col / group_size as u64) as usize;
        let scale: u32 = scales[g];
        let factor: u32 = float_bits::reciprocal_of(scale);
        let base: usize = row as usize * in_dim as usize;
        float_bits::digit_of_product(values[base + col as usize], factor)
    } else {
        0
    }
}

// ---------------------------------------------------------------------------
// Ternary weights, four to a byte
// ---------------------------------------------------------------------------

/// The number of bytes that hold a row of two-bit digits.
pub open spec fn crumb_width(in_dim: u32) -> int {
    (in_dim + 3) / 4
}

/// Byte `j` of a row of two-bit digits, the first digit in the lowest bits.
pub open spec fn crumb_byte(values: Seq<u32>, in_dim: u32, group_size: u32, row: int, j: int) -> u8 {
    (weight_digit(values, in_dim, group_size, row, 4 * j) + 4 * weight_digit(
        values,
        in_dim,
        group_size,
        row,
        4 * j + 1,
    ) + 16 * weight_digit(values, in_dim, group_size, row, 4 * j + 2) + 64 * weight_digit(
        values,
        in_dim,
        group_size,
        row,
        4 * j + 3,
    )) as u8
}

/// A row of two-bit digits.
pub open spec fn crumb_row(values: Seq<u32>, in_dim: u32, group_size: u32, row: int) -> Seq<u8> {
    Seq::new(
        crumb_width(in_dim) as nat,
        |j: int| crumb_byte(values, in_dim, group_size, row, j),
    )
}

/// A weight of two-bit ternary digits with one scale per group.
pub open spec fn ternary_packed(
    values: Seq<u32>,
    out_dim: u32,
    in_dim: u32,
    group_size: u32,
) -> PackedTensorView {
    let groups = groups_in_row(in_dim, group_size);
    PackedTensorView {
        dtype: "U8"@,
        data: stacked(out_dim as nat, |row: int| crumb_row(values, in_dim, group_size, row)),
        shapes: PackedView {
            weight: seq![out_dim, crumb_width(in_dim) as u32],
            scales: seq![out_dim, groups as u32],
            biases: seq![out_dim, groups as u32],
            bits: 2,
            group_size,
            groups: (groups * out_dim) as u32,
        },
        scales: word_bytes(all_scales(values, out_dim, in_dim, group_size)),
        biases: Seq::new((groups * out_dim * 4) as nat, |i: int| 0u8),
    }
}

fn crumbs_of_row(
    values: &Vec<u32>,
    scales: &Vec<u32>,
    out_dim: u32,
    in_dim: u32,
    group_size: u32,
    row: u32,
) -> (r: Vec<u8>)
    requires
        0 < group_size,
        row < out_dim,
        out_dim * in_dim <= values.len(),
        scales@ == row_scales(values@, in_dim, group_size, row as int),
        forall|g: int| 0 <= g < scales@.len() ==> 0x80_0000 <= #[trigger] scales@[g] <= 0x7F80_0000,
    ensures
        r@ == crumb_row(values@, in_dim, group_size, row as int),
{
    let width: u64 = (in_dim as u64 + 3) / 4;
    let mut r: Vec<u8> = Vec::new();
    let mut j: u64 = 0;
    while j < width
        invariant
            j <= width,
            width == crumb_width(in_dim),
            0 < group_size,
            row < out_dim,
            out_dim * in_dim <= values.len(),
            scales@ == row_scales(values@, in_dim, group_size, row as int),
            forall|g: int|
                0 <= g < scales@.len() ==> 0x80_0000 <= #[trigger] scales@[g] <= 0x7F80_0000,
            r@.len() == j,
            forall|k: int|
                0 <= k < j ==> #[trigger] r@[k] == crumb_byte(
                    values@,
                    in_dim,
                    group_size,
                    row as int,
                    k,
                ),
        decreases width - j,
    {
        let a: u8 = digit_at(values, scales, out_dim, in_dim, group_size, row, 4 * j);
        let b: u8 = digit_at(values, scales, out_dim, in_dim, group_size, row, 4 * j + 1);
        let c: u8 = digit_at(values, scales, out_dim, in_dim, group_size, row, 4 * j + 2);
        let d: u8 = digit_at(values, scales, out_dim, in_dim, group_size, row, 4 * j + 3);
        r.push(a + 4 * b + 16 * c + 64 * d);
        j = j + 1;
    }
    assert(r@ =~= crumb_row(values@, in_dim, group_size, row as int));
    r
}

/// Whether a weight of that size can be divided into groups of that size, with
/// a value for each of its elements and every count in range.
pub open spec fn is_divisible(values: Seq<u32>, out_dim: u32, in_dim: u32, group_size: u32) -> bool {
    &&& 0 < group_size
    &&& in_dim + group_size - 1 <= u32::MAX
    &&& out_dim * in_dim <= values.len()
    &&& values.len() <= usize::MAX
    &&& groups_in_row(in_dim, group_size) * out_dim <= u32::MAX
    &&& groups_in_row(in_dim, group_size) * out_dim * 4 <= usize::MAX
}

/// Where a row-major weight is cut: group `k` of all, which begins in the row that
/// it belongs to and ends with it at the latest.
pub open spec fn group_range(in_dim: u32, group_size: u32, k: int) -> (int, int) {
    let groups = groups_in_row(in_dim, group_size);
    let row = k / groups;
    let g = k % groups;
    (row * in_dim + g * group_size, row * in_dim + group_end(in_dim, group_size, g))
}

/// The places at which a row-major weight is cut into groups, row by row.
pub fn group_bounds(out_dim: u32, in_dim: u32, group_size: u32) -> (r: Vec<(usize, usize)>)
    requires
        group_size > 0,
        out_dim * in_dim <= usize::MAX,
        groups_in_row(in_dim, group_size) * out_dim <= usize::MAX,
    ensures
        r@.len() == groups_in_row(in_dim, group_size) * out_dim,
        forall|k: int|
            0 <= k < r@.len() ==> ((#[trigger] r@[k]).0 as int, r@[k].1 as int) == group_range(
                in_dim,
                group_size,
                k,
            ),
{
    let groups: u64 = (in_dim as u64 + (group_size - 1) as u64) / group_size as u64;
    let ghost per = groups_in_row(in_dim, group_size);
    assert(groups == per);
    let mut r: Vec<(usize, usize)> = Vec::new();
    let mut row: u32 = 0;
    assert(0 * per == 0) by (nonlinear_arith);
    while row < out_dim
        invariant
            row <= out_dim,
            group_size > 0,
            groups == per,
            per == groups_in_row(in_dim, group_size),
            out_dim * in_dim <= usize::MAX,
            r@.len() == row * per,
            forall|k: int|
                0 <= k < r@.len() ==> ((#[trigger] r@[k]).0 as int, r@[k].1 as int) == group_range(
                    in_dim,
                    group_size,
                    k,
                ),
        decreases out_dim - row,
    {
        assert((row + 1) * in_dim <= out_dim * in_dim) by (nonlinear_arith)
            requires
                row + 1 <= out_dim,
        ;
        assert(row * in_dim + in_dim == (row + 1) * in_dim) by (nonlinear_arith);
        let start: usize = row as usize * in_dim as usize;
        let mut g: u64 = 0;
        while g < groups
            invariant
                g <= groups,
                row < out_dim,
                group_size > 0,
                groups == per,
                per == groups_in_row(in_dim, group_size),
                start == row * in_dim,
                start + in_dim <= usize::MAX,
                r@.len() == row * per + g,
                forall|k: int|
                    0 <= k < r@.len() ==> ((#[trigger] r@[k]).0 as int, r@[k].1 as int)
                        == group_range(in_dim, group_size, k),
            decreases groups - g,
        {
            proof {
                let gs = group_size as int;
                assert(per * gs <= in_dim + gs - 1) by (nonlinear_arith)
                    requires
                        per == (in_dim + gs - 1) / gs,
                        gs > 0,
                ;
                assert(g * gs + gs <= per * gs) by (nonlinear_arith)
                    requires
                        g + 1 <= per,
                        gs > 0,
                ;
                assert((g + 1) * gs == g * gs + gs) by (nonlinear_arith);
                vstd::arithmetic::div_mod::lemma_fundamental_div_mod_converse(
                    row * per + g,
                    per,
                    row as int,
                    g as int,
                );
                assert(row * per == per * row) by (nonlinear_arith);
            }
            let offset: u64 = g * group_size as u64;
            let end: u64 = if offset + group_size as u64 <= in_dim as u64 {
                offset + group_size as u64
            } else {
                in_dim as u64
            };
            let ghost k = r@.len() as int;
            r.push((start + offset as usize, start + end as usize));
            assert((r@[k].0 as int, r@[k].1 as int) == group_range(in_dim, group_size, k));
            g = g + 1;
        }
        assert((row + 1) * per == row * per + per) by (nonlinear_arith);
        row = row + 1;
    }
    assert(row * per == per * out_dim) by (nonlinear_arith)
        requires
            row == out_dim,
    ;
    r
}

/// Whether the code can give that group for those values.
pub open spec fn is_coded<G, C: Fn(Vec<u32>) -> G>(code: C, values: Seq<u32>, group: G) -> bool {
    exists|v: Vec<u32>| v@ == values && #[trigger] call_ensures(code, (v,), group)
}

/// Whether the code can give those groups for a row-major weight, group by group
/// and row by row.
pub open spec fn are_coded<G, C: Fn(Vec<u32>) -> G>(
    code: C,
    values: Seq<u32>,
    out_dim: u32,
    in_dim: u32,
    group_size: u32,
    groups: Seq<G>,
) -> bool {
    &&& groups.len() == groups_in_row(in_dim, group_size) * out_dim
    &&& forall|k: int|
        0 <= k < groups.len() ==> is_coded(
            code,
            values.subrange(
                group_range(in_dim, group_size, k).0,
                group_range(in_dim, group_size, k).1,
            ),
            #[trigger] groups[k],
        )
}

proof fn lemma_group_range(out_dim: u32, in_dim: u32, group_size: u32, k: int)
    requires
        0 < group_size,
        0 <= k < groups_in_row(in_dim, group_size) * out_dim,
    ensures
        ({
            let r = group_range(in_dim, group_size, k);
            0 <= r.0 <= r.1 <= out_dim * in_dim
        }),
{
    let per = groups_in_row(in_dim, group_size);
    let gs = group_size as int;
    assert(per > 0) by (nonlinear_arith)
        requires
            0 <= k < per * out_dim,
            0 <= out_dim,
    ;
    let row = k / per;
    let g = k % per;
    assert(k == per * row + g && 0 <= g < per) by {
        lemma_fundamental_div_mod(k, per);
    }
    assert(0 <= row < out_dim) by (nonlinear_arith)
        requires
            k == per * row + g,
            0 <= g < per,
            0 <= k < per * out_dim,
    ;
    lemma_group_start(g, in_dim, group_size);
    assert((row + 1) * in_dim <= out_dim * in_dim) by (nonlinear_arith)
        requires
            row + 1 <= out_dim,
            0 <= in_dim,
    ;
    assert((row + 1) * in_dim == row * in_dim + in_dim) by (nonlinear_arith);
    assert(0 <= row * in_dim && 0 <= g * gs) by (nonlinear_arith)
        requires
            0 <= row,
            0 <= in_dim,
            0 <= g,
            0 < gs,
    ;
}

/// The values from `start` to `end`.
fn values_between(values: &Vec<u32>, start: usize, end: usize) -> (r: Vec<u32>)
    requires
        start <= end <= values@.len(),
    ensures
        r@ == values@.subrange(start as int, end as int),
{
    let mut r: Vec<u32> = Vec::new();
    let mut i: usize = start;
    while i < end
        invariant
            start <= i <= end <= values@.len(),
            r@ =~= values@.subrange(start as int, i as int),
        decreases end - i,
    {
        r.push(values[i]);
        i = i + 1;
    }
    r
}

/// Gives the code each group of a weight in turn.
pub fn code_groups<G, C: Fn(Vec<u32>) -> G>(
    values: &Vec<u32>,
    out_dim: u32,
    in_dim: u32,
    group_size: u32,
    code: &C,
) -> (groups: Vec<G>)
    requires
        is_divisible(values@, out_dim, in_dim, group_size),
        forall|v: Vec<u32>| #[trigger] call_requires(*code, (v,)),
    ensures
        are_coded(*code, values@, out_dim, in_dim, group_size, groups@),
{
    let bounds: Vec<(usize, usize)> = group_bounds(out_dim, in_dim, group_size);
    let mut groups: Vec<G> = Vec::new();
    let mut k: usize = 0;
    while k < bounds.len()
        invariant
            k <= bounds@.len(),
            is_divisible(values@, out_dim, in_dim, group_size),
            forall|v: Vec<u32>| #[trigger] call_requires(*code, (v,)),
            bounds@.len() == groups_in_row(in_dim, group_size) * out_dim,
            forall|j: int|
                0 <= j < bounds@.len() ==> ((#[trigger] bounds@[j]).0 as int, bounds@[j].1 as int)
                    == group_range(in_dim, group_size, j),
            groups@.len() == k,
            forall|j: int|
                0 <= j < k ==> is_coded(
                    *code,
                    values@.subrange(
                        group_range(in_dim, group_size, j).0,
                        group_range(in_dim, group_size, j).1,
                    ),
                    #[trigger] groups@[j],
                ),
        decreases bounds@.len() - k,
    {
        let ghost range = group_range(in_dim, group_size, k as int);
        let (start, end): (usize, usize) = bounds[k];
        proof {
            lemma_group_range(out_dim, in_dim, group_size, k as int);
            assert((bounds@[k as int].0 as int, bounds@[k as int].1 as int) == range);
        }
        let v: Vec<u32> = values_between(values, start, end);
        let ghost sent = v;
        let group: G = (*code)(v);
        proof {
            assert(call_ensures(*code, (sent,), group));
            assert(is_coded(*code, values@.subrange(range.0, range.1), group));
        }
        groups.push(group);
        k = k + 1;
    }
    groups
}

/// Quantizes a weight to two-bit ternary digits.
pub fn pack_ternary(values: &Vec<u32>, out_dim: u32, in_dim: u32, group_size: u32) -> (r: PackedTensor)
    requires
        is_divisible(values@, out_dim, in_dim, group_size),
    ensures
        r@ == ternary_packed(values@, out_dim, in_dim, group_size),
{
    let groups: u32 = (in_dim + (group_size - 1)) / group_size;
    let mut data: Vec<u8> = Vec::new();
    let mut scales: Vec<u32> = Vec::new();
    let ghost rows = |row: int| crumb_row(values@, in_dim, group_size, row);
    let ghost scale_rows = |row: int| row_scales(values@, in_dim, group_size, row);
    let mut row: u32 = 0;
    while row < out_dim
        invariant
            row <= out_dim,
            is_divisible(values@, out_dim, in_dim, group_size),
            groups == groups_in_row(in_dim, group_size),
            rows == (|row: int| crumb_row(values@, in_dim, group_size, row)),
            scale_rows == (|row: int| row_scales(values@, in_dim, group_size, row)),
            data@ == stacked(row as nat, rows),
            scales@ == stacked(row as nat, scale_rows),
        decreases out_dim - row,
    {
        let row_scale_list: Vec<u32> = scales_of_row(
            values,
            out_dim,
            in_dim,
            group_size,
            groups,
            row,
        );
        let bytes: Vec<u8> = crumbs_of_row(
            values,
            &row_scale_list,
            out_dim,
            in_dim,
            group_size,
            row,
        );
        scales.extend_from_slice(row_scale_list.as_slice());
        data.extend_from_slice(bytes.as_slice());
        proof {
            assert(data@ =~= stacked((row + 1) as nat, rows));
            assert(scales@ =~= stacked((row + 1) as nat, scale_rows));
        }
        row = row + 1;
    }
    let width: u32 = ((in_dim as u64 + 3) / 4) as u32;
    let total: usize = groups as usize * out_dim as usize;
    let packed: PackedTensor = PackedTensor {
        dtype: "U8".to_owned(),
        data,
        shapes: PackedLinearShapes {
            weight: pair(out_dim, width),
            scales: pair(out_dim, groups),
            biases: pair(out_dim, groups),
            bits: 2,
            group_size,
            groups: groups * out_dim,
        },
        scales: bytes_of_words(&scales),
        biases: zero_bytes(total * 4),
    };
    assert(packed@ =~= ternary_packed(values@, out_dim, in_dim, group_size));
    packed
}

/// Quantizes a weight of the source to two-bit ternary digits.
pub fn apply_ternary_quantize(
    store: &mut NameTable<SourceTensor>,
    spec: &mut ExecutionSpec,
    weight_name: &str,
    values: &Vec<u32>,
    out_dim: u32,
    in_dim: u32,
    group_size: u32,
)
    requires
        old(store).wf(),
        is_divisible(values@, out_dim, in_dim, group_size),
    ensures
        final(store).wf(),
        source::source_views(final(store)@) == with_packed(
            source::source_views(old(store)@),
            weight_name@,
            ternary_packed(values@, out_dim, in_dim, group_size),
        ),
        final(spec)@ == with_shapes(
            old(spec)@,
            weight_name@,
            ternary_packed(values@, out_dim, in_dim, group_size).shapes,
        ),
{
    let packed: PackedTensor = pack_ternary(values, out_dim, in_dim, group_size);
    install_packed(store, spec, weight_name, packed);
}

// ---------------------------------------------------------------------------
// Ternary weights, twenty to a word, in tiles of 640
// ---------------------------------------------------------------------------

/// The number of weights in a tile, which share a scale.
pub const TILE_SIZE: u32 = 640;

/// The number of ternary digits in a word.
pub const DIGITS_PER_WORD: u64 = 20;

/// The number read from ternary digits, the first the most significant.
pub open spec fn base3(digits: Seq<u8>) -> int
    decreases digits.len(),
{
    if digits.len() == 0 {
        0
    } else {
        base3(digits.drop_last()) * 3 + digits.last()
    }
}

/// The digits in word `k` of a row.
pub open spec fn word_digits(values: Seq<u32>, in_dim: u32, row: int, k: int) -> Seq<u8> {
    Seq::new(20, |w: int| weight_digit(values, in_dim, 640, row, 20 * k + w))
}

/// The words of a row: thirty-two for each tile that the row touches.
pub open spec fn tile_row(values: Seq<u32>, in_dim: u32, row: int) -> Seq<u32> {
    Seq::new(
        (32 * groups_in_row(in_dim, 640)) as nat,
        |k: int| base3(word_digits(values, in_dim, row, k)) as u32,
    )
}

/// A weight of base-3 words with one scale per tile.
pub open spec fn tile640_packed(values: Seq<u32>, out_dim: u32, in_dim: u32, group_size: u32) -> PackedTensorView {
    let tiles = groups_in_row(in_dim, 640);
    PackedTensorView {
        dtype: "U32"@,
        data: word_bytes(stacked(out_dim as nat, |row: int| tile_row(values, in_dim, row))),
        shapes: PackedView {
            weight: seq![out_dim, (32 * tiles) as u32],
            scales: seq![out_dim, tiles as u32],
            biases: seq![out_dim, tiles as u32],
            bits: 2,
            group_size,
            groups: (tiles * out_dim) as u32,
        },
        scales: word_bytes(all_scales(values, out_dim, in_dim, 640)),
        biases: Seq::new((tiles * out_dim * 4) as nat, |i: int| 0u8),
    }
}

proof fn lemma_base3_range(digits: Seq<u8>)
    requires
        forall|i: int| 0 <= i < digits.len() ==> #[trigger] digits[i] <= 2,
    ensures
        0 <= base3(digits) < swizzle::three_to(digits.len()),
    decreases digits.len(),
{
    if digits.len() > 0 {
        let rest = digits.drop_last();
        assert forall|i: int| 0 <= i < rest.len() implies #[trigger] rest[i] <= 2 by {
            assert(rest[i] == digits[i]);
        }
        lemma_base3_range(rest);
        assert(digits[digits.len() - 1] <= 2);
    }
}

proof fn lemma_large_powers_of_three()
    ensures
        swizzle::three_to(20) == 3_486_784_401,
        swizzle::three_to(19) == 1_162_261_467,
{
    reveal_with_fuel(swizzle::three_to, 21);
}

proof fn lemma_powers_of_three_grow(a: nat, b: nat)
    requires
        a <= b,
    ensures
        1 <= swizzle::three_to(a) <= swizzle::three_to(b),
    decreases b,
{
    if b > 0 {
        if a < b {
            lemma_powers_of_three_grow(a, (b - 1) as nat);
        } else {
            lemma_powers_of_three_grow((a - 1) as nat, (a - 1) as nat);
        }
    }
}

/// The digits can be read back from the number: the first digit is its most
/// significant base-3 digit, the last its least significant one.
pub proof fn law_base3_reads_back(digits: Seq<u8>, w: int)
    requires
        forall|i: int| 0 <= i < digits.len() ==> #[trigger] digits[i] <= 2,
        0 <= w < digits.len(),
    ensures
        base3(digits) >= 0,
        swizzle::trit(base3(digits) as nat, (digits.len() - 1 - w) as nat) == digits[w],
    decreases digits.len(),
{
    lemma_base3_range(digits);
    let rest = digits.drop_last();
    assert forall|i: int| 0 <= i < rest.len() implies #[trigger] rest[i] <= 2 by {
        assert(rest[i] == digits[i]);
    }
    assert(digits[digits.len() - 1] <= 2);
    if w == digits.len() - 1 {
        assert(swizzle::three_to(0) == 1);
        assert(base3(digits) / 1 == base3(digits));
        lemma_base3_range(rest);
    } else {
        law_base3_reads_back(rest, w);
        lemma_base3_range(rest);
        let k = (rest.len() - 1 - w) as nat;
        let p = swizzle::three_to(k) as int;
        lemma_powers_of_three_grow(0, k);
        let n = base3(rest);
        let d = digits.last() as int;
        assert(swizzle::three_to((digits.len() - 1 - w) as nat) == 3 * p);
        assert((n * 3 + d) / (3 * p) == n / p) by {
            vstd::arithmetic::div_mod::lemma_div_denominator(n * 3 + d, 3, p);
            assert((n * 3 + d) / 3 == n);
        }
        assert(rest[w] == digits[w]);
    }
}

fn word_at(
    values: &Vec<u32>,
    scales: &Vec<u32>,
    out_dim: u32,
    in_dim: u32,
    row: u32,
    k: u64,
) -> (r: u32)
    requires
        row < out_dim,
        k < 0x1_0000_0000,
        out_dim * in_dim <= values.len(),
        scales@ == row_scales(values@, in_dim, 640, row as int),
        forall|g: int| 0 <= g < scales@.len() ==> 0x80_0000 <= #[trigger] scales@[g] <= 0x7F80_0000,
    ensures
        r == base3(word_digits(values@, in_dim, row as int, k as int)),
{
    let ghost digits = word_digits(values@, in_dim, row as int, k as int);
    let mut r: u32 = 0;
    let mut w: u64 = 0;
    assert(digits.take(0) =~= Seq::<u8>::empty());
    while w < DIGITS_PER_WORD
        invariant
            w <= 20,
            k < 0x1_0000_0000,
            row < out_dim,
            out_dim * in_dim <= values.len(),
            scales@ == row_scales(values@, in_dim, 640, row as int),
            forall|g: int|
                0 <= g < scales@.len() ==> 0x80_0000 <= #[trigger] scales@[g] <= 0x7F80_0000,
            digits == word_digits(values@, in_dim, row as int, k as int),
            r == base3(digits.take(w as int)),
            forall|i: int| 0 <= i < w ==> #[trigger] digits[i] <= 2,
        decreases 20 - w,
    {
        let d: u8 = digit_at(values, scales, out_dim, in_dim, TILE_SIZE, row, 20 * k + w);
        proof {
            let done = digits.take(w as int);
            assert forall|i: int| 0 <= i < done.len() implies #[trigger] done[i] <= 2 by {
                assert(done[i] == digits[i]);
            }
            lemma_base3_range(done);
            lemma_powers_of_three_grow(w as nat, 19);
            lemma_large_powers_of_three();
            assert(digits.take(w + 1).drop_last() =~= done);
            assert(digits.take(w + 1).last() == d);
        }
        r = r * 3 + d as u32;
        w = w + 1;
    }
    assert(digits.take(20) =~= digits);
    r
}

fn tile_words_of_row(
    values: &Vec<u32>,
    scales: &Vec<u32>,
    out_dim: u32,
    in_dim: u32,
    tiles: u32,
    row: u32,
) -> (r: Vec<u32>)
    requires
        row < out_dim,
        tiles == groups_in_row(in_dim, 640),
        out_dim * in_dim <= values.len(),
        scales@ == row_scales(values@, in_dim, 640, row as int),
        forall|g: int| 0 <= g < scales@.len() ==> 0x80_0000 <= #[trigger] scales@[g] <= 0x7F80_0000,
    ensures
        r@ == tile_row(values@, in_dim, row as int),
{
    let mut r: Vec<u32> = Vec::new();
    let count: u64 = 32 * tiles as u64;
    let mut k: u64 = 0;
    while k < count
        invariant
            k <= count,
            count == 32 * groups_in_row(in_dim, 640),
            count < 0x1_0000_0000,
            row < out_dim,
            out_dim * in_dim <= values.len(),
            scales@ == row_scales(values@, in_dim, 640, row as int),
            forall|g: int|
                0 <= g < scales@.len() ==> 0x80_0000 <= #[trigger] scales@[g] <= 0x7F80_0000,
            r@.len() == k,
            forall|j: int|
                0 <= j < k ==> #[trigger] r@[j] == base3(
                    word_digits(values@, in_dim, row as int, j),
                ) as u32,
        decreases count - k,
    {
        r.push(word_at(values, scales, out_dim, in_dim, row, k));
        k = k + 1;
    }
    assert(r@ =~= tile_row(values@, in_dim, row as int));
    r
}

/// Whether a weight of that size can be divided into tiles, with a value for
/// each of its elements and every count in range.
pub open spec fn is_tileable(values: Seq<u32>, out_dim: u32, in_dim: u32) -> bool {
    &&& out_dim * in_dim <= values.len()
    &&& values.len() <= usize::MAX
    &&& groups_in_row(in_dim, 640) * out_dim <= u32::MAX
    &&& groups_in_row(in_dim, 640) * out_dim * 4 <= usize::MAX
}

/// Quantizes a weight to base-3 words in tiles.
pub fn pack_tile640(values: &Vec<u32>, out_dim: u32, in_dim: u32, group_size: u32) -> (r: PackedTensor)
    requires
        is_tileable(values@, out_dim, in_dim),
    ensures
        r@ == tile640_packed(values@, out_dim, in_dim, group_size),
{
    let tiles: u32 = ((in_dim as u64 + 639) / 640) as u32;
    let mut words: Vec<u32> = Vec::new();
    let mut scales: Vec<u32> = Vec::new();
    let ghost rows = |row: int| tile_row(values@, in_dim, row);
    let ghost scale_rows = |row: int| row_scales(values@, in_dim, 640, row);
    let mut row: u32 = 0;
    while row < out_dim
        invariant
            row <= out_dim,
            is_tileable(values@, out_dim, in_dim),
            tiles == groups_in_row(in_dim, 640),
            rows == (|row: int| tile_row(values@, in_dim, row)),
            scale_rows == (|row: int| row_scales(values@, in_dim, 640, row)),
            words@ == stacked(row as nat, rows),
            scales@ == stacked(row as nat, scale_rows),
        decreases out_dim - row,
    {
        let row_scale_list: Vec<u32> = scales_of_row(
            values,
            out_dim,
            in_dim,
            TILE_SIZE,
            tiles,
            row,
        );
        let row_words: Vec<u32> = tile_words_of_row(
            values,
            &row_scale_list,
            out_dim,
            in_dim,
            tiles,
            row,
        );
        scales.extend_from_slice(row_scale_list.as_slice());
        words.extend_from_slice(row_words.as_slice());
        proof {
            assert(words@ =~= stacked((row + 1) as nat, rows));
            assert(scales@ =~= stacked((row + 1) as nat, scale_rows));
        }
        row = row + 1;
    }
    let total: usize = tiles as usize * out_dim as usize;
    let packed: PackedTensor = PackedTensor {
        dtype: "U32".to_owned(),
        data: bytes_of_words(&words),
        shapes: PackedLinearShapes {
            weight: pair(out_dim, 32 * tiles),
            scales: pair(out_dim, tiles),
            biases: pair(out_dim, tiles),
            bits: 2,
            group_size,
            groups: tiles * out_dim,
        },
        scales: bytes_of_words(&scales),
        biases: zero_bytes(total * 4),
    };
    assert(packed@ =~= tile640_packed(values@, out_dim, in_dim, group_size));
    packed
}

/// Quantizes a weight of the source to base-3 words in tiles.
pub fn apply_ternary_tile640_quantize(
    store: &mut NameTable<SourceTensor>,
    spec: &mut ExecutionSpec,
    weight_name: &str,
    values: &Vec<u32>,
    out_dim: u32,
    in_dim: u32,
    group_size: u32,
)
    requires
        old(store).wf(),
        is_tileable(values@, out_dim, in_dim),
    ensures
        final(store).wf(),
        source::source_views(final(store)@) == with_packed(
            source::source_views(old(store)@),
            weight_name@,
            tile640_packed(values@, out_dim, in_dim, group_size),
        ),
        final(spec)@ == with_shapes(
            old(spec)@,
            weight_name@,
            tile640_packed(values@, out_dim, in_dim, group_size).shapes,
        ),
{
    let packed: PackedTensor = pack_tile640(values, out_dim, in_dim, group_size);
    install_packed(store, spec, weight_name, packed);
}

// ---------------------------------------------------------------------------
// Affine weights
// ---------------------------------------------------------------------------

/// The words that hold four-bit codes, eight to a word, the first in the lowest
/// bits.
pub open spec fn nibble_word(codes: Seq<u8>, k: int) -> int {
    nibble_sum(codes.subrange(
        8 * k,
        if 8 * k + 8 <= codes.len() {
            8 * k + 8
        } else {
            codes.len() as int
        },
    ))
}

/// The number whose base-16 digits are the codes, the first the least
/// significant.
pub open spec fn nibble_sum(codes: Seq<u8>) -> int
    decreases codes.len(),
{
    if codes.len() == 0 {
        0
    } else {
        codes[0] + 16 * nibble_sum(codes.drop_first())
    }
}

/// Sixteen to the power `n`.
pub open spec fn sixteen_to(n: nat) -> nat
    decreases n,
{
    if n == 0 {
        1
    } else {
        16 * sixteen_to((n - 1) as nat)
    }
}

proof fn lemma_sixteen_grows(a: nat, b: nat)
    requires
        a <= b,
    ensures
        1 <= sixteen_to(a) <= sixteen_to(b),
    decreases b,
{
    if b > 0 {
        if a < b {
            lemma_sixteen_grows(a, (b - 1) as nat);
        } else {
            lemma_sixteen_grows((a - 1) as nat, (a - 1) as nat);
        }
    }
}

proof fn lemma_nibble_range(codes: Seq<u8>)
    requires
        forall|i: int| 0 <= i < codes.len() ==> #[trigger] codes[i] < 16,
    ensures
        0 <= nibble_sum(codes) < sixteen_to(codes.len()),
    decreases codes.len(),
{
    if codes.len() > 0 {
        let rest = codes.drop_first();
        assert forall|i: int| 0 <= i < rest.len() implies #[trigger] rest[i] < 16 by {
            assert(rest[i] == codes[i + 1]);
        }
        lemma_nibble_range(rest);
        assert(codes[0] < 16);
    }
}

proof fn lemma_nibble_push(codes: Seq<u8>, c: u8)
    ensures
        nibble_sum(codes.push(c)) == nibble_sum(codes) + sixteen_to(codes.len()) * c,
    decreases codes.len(),
{
    if codes.len() == 0 {
        assert(codes.push(c).drop_first() =~= Seq::<u8>::empty());
        reveal_with_fuel(nibble_sum, 2);
        assert(1 * c == c);
    } else {
        assert(codes.push(c).drop_first() =~= codes.drop_first().push(c));
        lemma_nibble_push(codes.drop_first(), c);
        let p = sixteen_to((codes.len() - 1) as nat) as int;
        let x = nibble_sum(codes.drop_first());
        assert(16 * (x + p * c) == 16 * x + (16 * p) * c) by (nonlinear_arith);
    }
}

/// The four-bit codes can be read back from a word.
pub proof fn law_nibbles_read_back(codes: Seq<u8>, i: int)
    requires
        forall|j: int| 0 <= j < codes.len() ==> #[trigger] codes[j] < 16,
        0 <= i < codes.len(),
    ensures
        (nibble_sum(codes) / sixteen_to(i as nat) as int) % 16 == codes[i],
    decreases codes.len(),
{
    let rest = codes.drop_first();
    assert forall|j: int| 0 <= j < rest.len() implies #[trigger] rest[j] < 16 by {
        assert(rest[j] == codes[j + 1]);
    }
    assert(codes[0] < 16);
    let n = nibble_sum(rest);
    lemma_nibble_range(rest);
    if i == 0 {
        assert(sixteen_to(0) == 1);
        assert(nibble_sum(codes) / 1 == nibble_sum(codes));
    } else {
        law_nibbles_read_back(rest, i - 1);
        let p = sixteen_to((i - 1) as nat) as int;
        lemma_sixteen_grows(0, (i - 1) as nat);
        assert(sixteen_to(i as nat) == 16 * p);
        vstd::arithmetic::div_mod::lemma_div_denominator(16 * n + codes[0], 16, p);
        assert((16 * n + codes[0]) / 16 == n);
        assert(rest[i - 1] == codes[i]);
    }
}

fn pack_word(codes: &[u8], start: usize, end: usize) -> (r: u32)
    requires
        start <= end <= codes.len(),
        end - start <= 8,
        forall|i: int| 0 <= i < codes@.len() ==> #[trigger] codes@[i] < 16,
    ensures
        r == nibble_sum(codes@.subrange(start as int, end as int)),
{
    let ghost part = codes@.subrange(start as int, end as int);
    let mut r: u64 = 0;
    let mut place: u64 = 1;
    let mut i: usize = start;
    assert(part.take(0) =~= Seq::<u8>::empty());
    while i < end
        invariant
            start <= i <= end <= codes.len(),
            end - start <= 8,
            forall|i: int| 0 <= i < codes@.len() ==> #[trigger] codes@[i] < 16,
            part == codes@.subrange(start as int, end as int),
            r == nibble_sum(part.take(i - start)),
            place == sixteen_to((i - start) as nat),
        decreases end - i,
    {
        proof {
            let done = part.take(i - start);
            assert forall|j: int| 0 <= j < done.len() implies #[trigger] done[j] < 16 by {
                assert(done[j] == codes@[start + j]);
            }
            lemma_nibble_range(done);
            lemma_nibble_push(done, codes@[i as int]);
            assert(part.take(i - start + 1) =~= done.push(codes@[i as int]));
            lemma_sixteen_grows((i - start) as nat, 7);
            reveal_with_fuel(sixteen_to, 9);
            assert(codes@[i as int] < 16);
            let c = codes@[i as int] as int;
            assert(0 <= place * c <= 0x1000_0000 * 15) by (nonlinear_arith)
                requires
                    0 <= place <= 0x1000_0000,
                    0 <= c < 16,
            ;
        }
        r = r + place * codes[i] as u64;
        place = place * 16;
        i = i + 1;
    }
    proof {
        assert(part.take(end - start) =~= part);
        assert forall|j: int| 0 <= j < part.len() implies #[trigger] part[j] < 16 by {
            assert(part[j] == codes@[start + j]);
        }
        lemma_nibble_range(part);
        lemma_sixteen_grows(part.len(), 8);
        reveal_with_fuel(sixteen_to, 9);
    }
    r as u32
}

/// Packs four-bit codes, eight to a word, the first in the lowest bits.
pub fn pack_nibbles(codes: &[u8]) -> (r: Vec<u32>)
    requires
        forall|i: int| 0 <= i < codes@.len() ==> #[trigger] codes@[i] < 16,
    ensures
        r@.len() == (codes@.len() + 7) / 8,
        forall|k: int| 0 <= k < r@.len() ==> #[trigger] r@[k] == nibble_word(codes@, k),
{
    let mut r: Vec<u32> = Vec::new();
    let mut start: usize = 0;
    while start < codes.len()
        invariant
            start <= codes.len(),
            start == codes.len() || start % 8 == 0,
            r@.len() == (start + 7) / 8,
            forall|i: int| 0 <= i < codes@.len() ==> #[trigger] codes@[i] < 16,
            forall|k: int| 0 <= k < r@.len() ==> #[trigger] r@[k] == nibble_word(codes@, k),
        decreases codes.len() - start,
    {
        let end: usize = if codes.len() - start > 8 {
            start + 8
        } else {
            codes.len()
        };
        assert(start == 8 * (r@.len() as int));
        r.push(pack_word(codes, start, end));
        start = end;
    }
    r
}

/// A group of eight-bit affine codes, with its scale and bias as bit patterns.
#[derive(Debug)]
pub struct ByteGroup {
    pub codes: Vec<u8>,
    pub scale_bits: u32,
    pub bias_bits: u32,
}

/// The codes of groups, one group after the other.
pub open spec fn joined_codes(groups: Seq<ByteGroup>) -> Seq<u8>
    decreases groups.len(),
{
    if groups.len() == 0 {
        Seq::empty()
    } else {
        joined_codes(groups.drop_last()) + groups.last().codes@
    }
}

/// Bytes filled up with zeros to a whole number of words.
pub open spec fn filled_up(bytes: Seq<u8>) -> Seq<u8> {
    bytes + Seq::new(((4 - bytes.len() % 4) % 4) as nat, |i: int| 0u8)
}

/// A weight of eight-bit codes, four to a word.
pub open spec fn af8_packed(
    groups: Seq<ByteGroup>,
    out_dim: u32,
    in_dim: u32,
    group_size: u32,
    groups_per_row: u32,
) -> PackedTensorView {
    PackedTensorView {
        dtype: "U32"@,
        data: filled_up(joined_codes(groups)),
        shapes: PackedView {
            weight: seq![out_dim, in_dim / 4],
            scales: seq![out_dim, groups_per_row],
            biases: seq![out_dim, groups_per_row],
            bits: 8,
            group_size,
            groups: (groups_per_row * out_dim) as u32,
        },
        scales: word_bytes(groups.map_values(|g: ByteGroup| g.scale_bits)),
        biases: word_bytes(groups.map_values(|g: ByteGroup| g.bias_bits)),
    }
}

/// Packs the eight-bit codes of a weight, given group by group and row by row.
pub fn apply_af8_quantize(
    store: &mut NameTable<SourceTensor>,
    spec: &mut ExecutionSpec,
    weight_name: &str,
    groups: &Vec<ByteGroup>,
    out_dim: u32,
    in_dim: u32,
    group_size: u32,
    groups_per_row: u32,
)
    requires
        old(store).wf(),
        groups_per_row * out_dim <= u32::MAX,
    ensures
        final(store).wf(),
        source::source_views(final(store)@) == with_packed(
            source::source_views(old(store)@),
            weight_name@,
            af8_packed(groups@, out_dim, in_dim, group_size, groups_per_row),
        ),
        final(spec)@ == with_shapes(
            old(spec)@,
            weight_name@,
            af8_packed(groups@, out_dim, in_dim, group_size, groups_per_row).shapes,
        ),
{
    let mut data: Vec<u8> = Vec::new();
    let mut scales: Vec<u32> = Vec::new();
    let mut biases: Vec<u32> = Vec::new();
    let mut i: usize = 0;
    assert(groups@.take(0) =~= Seq::<ByteGroup>::empty());
    while i < groups.len()
        invariant
            i <= groups@.len(),
            data@ == joined_codes(groups@.take(i as int)),
            scales@ =~= groups@.take(i as int).map_values(|g: ByteGroup| g.scale_bits),
            biases@ =~= groups@.take(i as int).map_values(|g: ByteGroup| g.bias_bits),
        decreases groups@.len() - i,
    {
        assert(groups@.take(i + 1).drop_last() =~= groups@.take(i as int));
        data.extend_from_slice(groups[i].codes.as_slice());
        scales.push(groups[i].scale_bits);
        biases.push(groups[i].bias_bits);
        assert(data@ =~= joined_codes(groups@.take(i + 1)));
        i = i + 1;
    }
    assert(groups@.take(groups@.len() as int) =~= groups@);
    let rest: usize = (4 - data.len() % 4) % 4;
    let ghost codes = data@;
    wire::push_zeros(&mut data, rest);
    assert(data@ =~= filled_up(codes));
    let packed: PackedTensor = PackedTensor {
        dtype: "U32".to_owned(),
        data,
        shapes: PackedLinearShapes {
            weight: pair(out_dim, in_dim / 4),
            scales: pair(out_dim, groups_per_row),
            biases: pair(out_dim, groups_per_row),
            bits: 8,
            group_size,
            groups: groups_per_row * out_dim,
        },
        scales: bytes_of_words(&scales),
        biases: bytes_of_words(&biases),
    };
    assert(packed@ =~= af8_packed(groups@, out_dim, in_dim, group_size, groups_per_row));
    install_packed(store, spec, weight_name, packed);
}

/// A group of packed four-bit codes, with its scale as a bit pattern.
#[derive(Debug)]
pub struct WordGroup {
    pub words: Vec<u32>,
    pub scale_bits: u32,
}

/// The sizes of a weight of four-bit codes.
#[derive(Debug, Clone, Copy, PartialEq, Eq, Structural)]
pub struct NibbleLayout {
    pub out_dim: u32,
    pub in_dim: u32,
    pub group_size: u32,
    pub groups_per_row: u32,
}

impl NibbleLayout {
    /// The number of words in a row.
    pub open spec fn row_words(self) -> int {
        (self.in_dim + 7) / 8
    }

    /// The number of words in the weight.
    pub open spec fn total_words(self) -> int {
        self.out_dim * self.row_words()
    }

    /// Where the words of group `k` of the weight go.
    pub open spec fn place(self, k: int) -> int {
        (k / self.groups_per_row as int) * self.row_words() + (k % self.groups_per_row as int) * ((
        self.group_size + 7) / 8)
    }

    /// Whether the words of group `k` stay inside the weight.
    pub open spec fn fits(self, k: int, words: Seq<u32>) -> bool {
        words.len() == 0 || self.place(k) + words.len() <= self.total_words()
    }
}

/// The sequence with words written over what it has from `at` on.
pub open spec fn overwritten(s: Seq<u32>, at: int, words: Seq<u32>) -> Seq<u32> {
    Seq::new(
        s.len(),
        |i: int|
            if at <= i < at + words.len() {
                words[i - at]
            } else {
                s[i]
            },
    )
}

/// The words of a weight: each group written in its place, one after the other,
/// over zeros.
pub open spec fn placed_words(groups: Seq<WordGroup>, l: NibbleLayout) -> Seq<u32>
    decreases groups.len(),
{
    if groups.len() == 0 {
        Seq::new(l.total_words() as nat, |i: int| 0u32)
    } else {
        overwritten(
            placed_words(groups.drop_last(), l),
            l.place(groups.len() - 1),
            groups.last().words@,
        )
    }
}

/// The report of a group that does not stay inside the weight.
pub open spec fn misplaced_report(l: NibbleLayout, k: int) -> Seq<char> {
    let at = l.place(k);
    let total = l.total_words();
    let wi = if at < total {
        total - at
    } else {
        0
    };
    "OOB: row="@ + text::decimal((k / l.groups_per_row as int) as nat) + " g="@ + text::decimal(
        (k % l.groups_per_row as int) as nat,
    ) + " wi="@ + text::decimal(wi as nat) + " idx="@ + text::decimal((at + wi) as nat) + " len="@
        + text::decimal(total as nat) + " out="@ + text::decimal(l.out_dim as nat) + " in="@
        + text::decimal(l.in_dim as nat) + " packed_in="@ + text::decimal(l.row_words() as nat)
        + " gpr="@ + text::decimal(l.groups_per_row as nat)
}

/// Which group is the first that does not stay inside the weight; the number of
/// groups where each does.
pub open spec fn first_misplaced(groups: Seq<WordGroup>, l: NibbleLayout) -> int
    decreases groups.len(),
{
    if groups.len() == 0 {
        0
    } else {
        let first = first_misplaced(groups.drop_last(), l);
        if first == groups.len() - 1 && l.fits(first, groups.last().words@) {
            groups.len() as int
        } else {
            first
        }
    }
}

/// The first group that does not stay inside the weight is what its name says.
pub proof fn law_first_misplaced(groups: Seq<WordGroup>, l: NibbleLayout)
    ensures
        0 <= first_misplaced(groups, l) <= groups.len(),
        forall|j: int|
            0 <= j < first_misplaced(groups, l) ==> l.fits(j, (#[trigger] groups[j]).words@),
        first_misplaced(groups, l) < groups.len() ==> !l.fits(
            first_misplaced(groups, l),
            groups[first_misplaced(groups, l)].words@,
        ),
    decreases groups.len(),
{
    if groups.len() > 0 {
        let rest = groups.drop_last();
        law_first_misplaced(rest, l);
        let first = first_misplaced(groups, l);
        assert forall|j: int| 0 <= j < first implies l.fits(j, (#[trigger] groups[j]).words@) by {
            if j < rest.len() {
                assert(rest[j] == groups[j]);
            }
        }
    }
}

/// A weight of four-bit codes, eight to a word.
pub open spec fn nf4_packed(groups: Seq<WordGroup>, l: NibbleLayout) -> PackedTensorView {
    PackedTensorView {
        dtype: "U32"@,
        data: word_bytes(placed_words(groups, l)),
        shapes: PackedView {
            weight: seq![l.out_dim, l.row_words() as u32],
            scales: seq![l.out_dim, l.groups_per_row],
            biases: seq![l.out_dim, l.groups_per_row],
            bits: 4,
            group_size: l.group_size,
            groups: (l.groups_per_row * l.out_dim) as u32,
        },
        scales: word_bytes(groups.map_values(|g: WordGroup| g.scale_bits)),
        biases: Seq::new((l.groups_per_row * l.out_dim * 4) as nat, |i: int| 0u8),
    }
}

fn report_misplaced(l: &NibbleLayout, k: u64, at: u64, total: u64) -> (r: String)
    requires
        0 < l.groups_per_row,
        at == l.place(k as int),
        total == l.total_words(),
        at < 0x4000_0000_0000_0000,
    ensures
        r@ == misplaced_report(*l, k as int),
{
    let wi: u64 = if at < total {
        total - at
    } else {
        0
    };
    let mut r: String = "OOB: row=".to_owned();
    text::push_decimal(&mut r, k / l.groups_per_row as u64);
    r.append(" g=");
    text::push_decimal(&mut r, k % l.groups_per_row as u64);
    r.append(" wi=");
    text::push_decimal(&mut r, wi);
    r.append(" idx=");
    text::push_decimal(&mut r, at + wi);
    r.append(" len=");
    text::push_decimal(&mut r, total);
    r.append(" out=");
    text::push_decimal(&mut r, l.out_dim as u64);
    r.append(" in=");
    text::push_decimal(&mut r, l.in_dim as u64);
    r.append(" packed_in=");
    text::push_decimal(&mut r, (l.in_dim as u64 + 7) / 8);
    r.append(" gpr=");
    text::push_decimal(&mut r, l.groups_per_row as u64);
    r
}

proof fn lemma_place_range(l: NibbleLayout, k: int)
    requires
        0 < l.groups_per_row,
        0 <= k < l.groups_per_row * l.out_dim,
    ensures
        0 <= k / (l.groups_per_row as int) < l.out_dim,
        0 <= k % (l.groups_per_row as int) < l.groups_per_row,
        0 <= (k / l.groups_per_row as int) * l.row_words() <= 0x1FFF_FFFF_FFFF_FFFF,
        0 <= (k % l.groups_per_row as int) * ((l.group_size + 7) / 8) <= 0x1FFF_FFFF_FFFF_FFFF,
        0 <= l.total_words() <= 0x1FFF_FFFF_FFFF_FFFF,
{
    let g = l.groups_per_row as int;
    let o = l.out_dim as int;
    lemma_fundamental_div_mod(k, g);
    let q = k / g;
    let m = k % g;
    assert(0 <= q < o) by (nonlinear_arith)
        requires
            k == g * q + m,
            0 <= m < g,
            0 <= k < g * o,
    ;
    let w = l.row_words();
    let x = (l.group_size + 7) / 8;
    assert(0 <= w <= 0x2000_0000);
    assert(0 <= x <= 0x2000_0000);
    assert(0 <= q * w <= 0xFFFF_FFFF * 0x2000_0000) by (nonlinear_arith)
        requires
            0 <= q <= 0xFFFF_FFFF,
            0 <= w <= 0x2000_0000,
    ;
    assert(0 <= m * x <= 0xFFFF_FFFF * 0x2000_0000) by (nonlinear_arith)
        requires
            0 <= m <= 0xFFFF_FFFF,
            0 <= x <= 0x2000_0000,
    ;
    assert(0 <= o * w <= 0xFFFF_FFFF * 0x2000_0000) by (nonlinear_arith)
        requires
            0 <= o <= 0xFFFF_FFFF,
            0 <= w <= 0x2000_0000,
    ;
}

/// Writes words over what the vector has from `at` on.
fn overwrite(v: &mut Vec<u32>, at: usize, words: &Vec<u32>)
    requires
        at + words.len() <= old(v).len(),
    ensures
        final(v)@ == overwritten(old(v)@, at as int, words@),
{
    let ghost before = v@;
    let mut i: usize = 0;
    while i < words.len()
        invariant
            i <= words@.len(),
            at + words.len() <= v.len(),
            v@.len() == before.len(),
            v@ =~= overwritten(before, at as int, words@.take(i as int)),
        decreases words@.len() - i,
    {
        v.set(at + i, words[i]);
        i = i + 1;
    }
    assert(v@ =~= overwritten(before, at as int, words@));
}

proof fn lemma_placed_len(groups: Seq<WordGroup>, l: NibbleLayout)
    requires
        l.total_words() >= 0,
    ensures
        placed_words(groups, l).len() == l.total_words(),
    decreases groups.len(),
{
    if groups.len() > 0 {
        lemma_placed_len(groups.drop_last(), l);
    }
}

/// Places the words of the groups, or reports the first group that does not
/// stay inside the weight.
fn place_words(groups: &Vec<WordGroup>, l: &NibbleLayout) -> (r: Result<Vec<u32>, String>)
    requires
        groups@.len() == l.groups_per_row * l.out_dim,
        l.total_words() <= usize::MAX,
    ensures
        match r {
            Ok(words) => first_misplaced(groups@, *l) == groups@.len() && words@ == placed_words(
                groups@,
                *l,
            ),
            Err(e) => first_misplaced(groups@, *l) < groups@.len() && e@ == misplaced_report(
                *l,
                first_misplaced(groups@, *l),
            ),
        },
{
    proof {
        let w = l.row_words();
        assert(0 <= l.out_dim * w) by (nonlinear_arith)
            requires
                w >= 0,
        ;
    }
    let row_words: u64 = (l.in_dim as u64 + 7) / 8;
    let group_words: u64 = (l.group_size as u64 + 7) / 8;
    assert(l.out_dim as int * row_words <= 0xFFFF_FFFF * 0x2000_0000) by (nonlinear_arith)
        requires
            l.out_dim <= 0xFFFF_FFFF,
            row_words <= 0x2000_0000,
    ;
    let total: u64 = l.out_dim as u64 * row_words;
    let mut words: Vec<u32> = vec![0u32; total as usize];
    let mut k: usize = 0;
    proof {
        law_first_misplaced(groups@, *l);
        assert(words@ =~= placed_words(groups@.take(0), *l));
    }
    while k < groups.len()
        invariant
            k <= groups@.len(),
            groups@.len() == l.groups_per_row * l.out_dim,
            row_words == l.row_words(),
            group_words == (l.group_size + 7) / 8,
            total == l.total_words(),
            total <= usize::MAX,
            words@ == placed_words(groups@.take(k as int), *l),
            k <= first_misplaced(groups@, *l) <= groups@.len(),
            forall|j: int|
                0 <= j < first_misplaced(groups@, *l) ==> l.fits(
                    j,
                    (#[trigger] groups@[j]).words@,
                ),
            first_misplaced(groups@, *l) < groups@.len() ==> !l.fits(
                first_misplaced(groups@, *l),
                groups@[first_misplaced(groups@, *l)].words@,
            ),
        decreases groups@.len() - k,
    {
        proof {
            assert(l.groups_per_row > 0) by (nonlinear_arith)
                requires
                    0 <= k < l.groups_per_row * l.out_dim,
                    0 <= l.out_dim,
                    0 <= l.groups_per_row,
            ;
            lemma_place_range(*l, k as int);
            lemma_placed_len(groups@.take(k as int), *l);
            assert(groups@.take(k + 1).drop_last() =~= groups@.take(k as int));
        }
        let at: u64 = (k as u64 / l.groups_per_row as u64) * row_words + (k as u64
            % l.groups_per_row as u64) * group_words;
        assert(at == l.place(k as int));
        let n: usize = groups[k].words.len();
        if n > 0 && (at > total || n as u64 > total - at) {
            let report: String = report_misplaced(l, k as u64, at, total);
            assert(!l.fits(k as int, groups@[k as int].words@));
            return Err(report);
        }
        if n > 0 {
            overwrite(&mut words, at as usize, &groups[k].words);
        } else {
            assert(overwritten(words@, at as int, groups@[k as int].words@) =~= words@);
        }
        k = k + 1;
    }
    assert(groups@.take(groups@.len() as int) =~= groups@);
    Ok(words)
}

fn word_group_scales(groups: &Vec<WordGroup>) -> (r: Vec<u32>)
    ensures
        r@ == groups@.map_values(|g: WordGroup| g.scale_bits),
{
    let mut r: Vec<u32> = Vec::new();
    let mut i: usize = 0;
    while i < groups.len()
        invariant
            i <= groups@.len(),
            r@ =~= groups@.take(i as int).map_values(|g: WordGroup| g.scale_bits),
        decreases groups@.len() - i,
    {
        r.push(groups[i].scale_bits);
        i = i + 1;
    }
    assert(groups@.take(groups@.len() as int) =~= groups@);
    r
}

/// Packs the four-bit codes of a weight, given group by group and row by row.
/// A group whose words do not stay inside the weight is refused.
pub fn apply_nf4_quantize(
    store: &mut NameTable<SourceTensor>,
    spec: &mut ExecutionSpec,
    weight_name: &str,
    groups: &Vec<WordGroup>,
    layout: NibbleLayout,
) -> (r: Result<(), String>)
    requires
        old(store).wf(),
        groups@.len() == layout.groups_per_row * layout.out_dim,
        layout.groups_per_row * layout.out_dim <= u32::MAX,
        layout.groups_per_row * layout.out_dim * 4 <= usize::MAX,
        layout.total_words() <= usize::MAX,
    ensures
        match r {
            Ok(_) => {
                &&& first_misplaced(groups@, layout) == groups@.len()
                &&& final(store).wf()
                &&& source::source_views(final(store)@) == with_packed(
                    source::source_views(old(store)@),
                    weight_name@,
                    nf4_packed(groups@, layout),
                )
                &&& final(spec)@ == with_shapes(
                    old(spec)@,
                    weight_name@,
                    nf4_packed(groups@, layout).shapes,
                )
            },
            Err(e) => {
                &&& first_misplaced(groups@, layout) < groups@.len()
                &&& e@ == misplaced_report(layout, first_misplaced(groups@, layout))
                &&& *final(store) == *old(store)
                &&& *final(spec) == *old(spec)
            },
        },
{
    let words: Vec<u32> = match place_words(groups, &layout) {
        Ok(words) => words,
        Err(e) => return Err(e),
    };
    let scales: Vec<u32> = word_group_scales(groups);
    let width: u32 = ((layout.in_dim as u64 + 7) / 8) as u32;
    let total: usize = layout.groups_per_row as usize * layout.out_dim as usize;
    let packed: PackedTensor = PackedTensor {
        dtype: "U32".to_owned(),
        data: bytes_of_words(&words),
        shapes: PackedLinearShapes {
            weight: pair(layout.out_dim, width),
            scales: pair(layout.out_dim, layout.groups_per_row),
            biases: pair(layout.out_dim, layout.groups_per_row),
            bits: 4,
            group_size: layout.group_size,
            groups: layout.groups_per_row * layout.out_dim,
        },
        scales: bytes_of_words(&scales),
        biases: zero_bytes(total * 4),
    };
    assert(packed@ =~= nf4_packed(groups@, layout));
    install_packed(store, spec, weight_name, packed);
    Ok(())
}

// ---------------------------------------------------------------------------
// All weights of a source
// ---------------------------------------------------------------------------

/// The names of those bindings that are weights.
pub open spec fn weights_among(bindings: Seq<BindingView>) -> Seq<Seq<char>>
    decreases bindings.len(),
{
    if bindings.len() == 0 {
        Seq::empty()
    } else {
        let rest = weights_among(bindings.drop_last());
        if text::has_suffix(bindings.last().name, ".weight"@) {
            rest.push(bindings.last().name)
        } else {
            rest
        }
    }
}

/// The names of the weights of layers.
pub open spec fn weights_of_layers(layers: Seq<LayerView>) -> Seq<Seq<char>>
    decreases layers.len(),
{
    if layers.len() == 0 {
        Seq::empty()
    } else {
        weights_of_layers(layers.drop_last()) + weights_among(layers.last().tensors)
    }
}

/// The names of the weights that an execution needs, those of no layer first.
pub open spec fn weights_of(e: ExecutionView) -> Seq<Seq<char>> {
    weights_among(e.global_tensors) + weights_of_layers(e.layers)
}

fn push_weights(names: &mut Vec<String>, bindings: &Vec<TensorBinding>)
    ensures
        crate::order::views(final(names)@) == crate::order::views(old(names)@) + weights_among(
            config::binding_views(bindings@),
        ),
{
    let ghost before = crate::order::views(names@);
    let ghost views = config::binding_views(bindings@);
    let mut i: usize = 0;
    assert(before + weights_among(views.take(0)) =~= before);
    while i < bindings.len()
        invariant
            i <= bindings@.len(),
            views == config::binding_views(bindings@),
            crate::order::views(names@) == before + weights_among(views.take(i as int)),
        decreases bindings@.len() - i,
    {
        let ghost now = crate::order::views(names@);
        proof {
            assert(views.take(i + 1).drop_last() =~= views.take(i as int));
            assert(views.take(i + 1).last() == bindings@[i as int]@);
        }
        if text::ends_with(bindings[i].name.as_str(), ".weight") {
            names.push(bindings[i].name.clone());
            assert(crate::order::views(names@) =~= now.push(bindings@[i as int].name@));
        }
        assert(crate::order::views(names@) =~= before + weights_among(views.take(i + 1)));
        i = i + 1;
    }
    assert(views.take(views.len() as int) =~= views);
}

/// The names of the weights that an execution needs.
pub fn weight_names(spec: &ExecutionSpec) -> (names: Vec<String>)
    ensures
        crate::order::views(names@) == weights_of(spec@),
{
    let mut names: Vec<String> = Vec::new();
    push_weights(&mut names, &spec.global_tensors);
    let ghost global = weights_among(config::binding_views(spec.global_tensors@));
    let ghost layers = config::layer_views(spec.layers@);
    let mut i: usize = 0;
    assert(crate::order::views(names@) =~= global + weights_of_layers(layers.take(0)));
    while i < spec.layers.len()
        invariant
            i <= spec.layers@.len(),
            layers == config::layer_views(spec.layers@),
            crate::order::views(names@) == global + weights_of_layers(layers.take(i as int)),
        decreases spec.layers@.len() - i,
    {
        proof {
            assert(layers.take(i + 1).drop_last() =~= layers.take(i as int));
            assert(layers.take(i + 1).last() == spec.layers@[i as int]@);
        }
        push_weights(&mut names, &spec.layers[i].tensors);
        assert(crate::order::views(names@) =~= global + weights_of_layers(layers.take(i + 1)));
        i = i + 1;
    }
    assert(layers.take(layers.len() as int) =~= layers);
    names
}

/// The source after the named tensors have been read.
pub open spec fn weights_read(
    store: Map<Seq<char>, SourceView>,
    names: Seq<Seq<char>>,
    files: Seq<Seq<u8>>,
) -> Map<Seq<char>, SourceView>
    decreases names.len(),
{
    if names.len() == 0 {
        store
    } else {
        let rest = weights_read(store, names.drop_last(), files);
        let n = names.last();
        if rest.dom().contains(n) {
            rest.insert(n, source::read_from_first(rest[n], files))
        } else {
            rest
        }
    }
}

/// Whether every tensor of the source can be read.
pub open spec fn all_readable(store: Map<Seq<char>, SourceView>) -> bool {
    forall|n: Seq<char>| #[trigger] store.dom().contains(n) ==> source::is_readable(store[n])
}

/// Whether the named tensors can be read, where there are files to read from.
pub open spec fn named_readable(
    store: Map<Seq<char>, SourceView>,
    names: Seq<Seq<char>>,
    files: Seq<Seq<u8>>,
) -> bool {
    files.len() > 0 ==> forall|n: Seq<char>| #[trigger]
        store.dom().contains(n) && names.contains(n) ==> source::is_readable(store[n])
}

proof fn lemma_weights_read(
    store: Map<Seq<char>, SourceView>,
    names: Seq<Seq<char>>,
    files: Seq<Seq<u8>>,
)
    ensures
        forall|n: Seq<char>|
            #![trigger weights_read(store, names, files)[n]]
            store.dom().contains(n) && source::is_readable(store[n]) ==> source::is_readable(
                weights_read(store, names, files)[n],
            ),
        weights_read(store, names, files).dom() == store.dom(),
    decreases names.len(),
{
    if names.len() > 0 {
        lemma_weights_read(store, names.drop_last(), files);
        let rest = weights_read(store, names.drop_last(), files);
        let n = names.last();
        if rest.dom().contains(n) {
            if source::is_readable(rest[n]) {
                source::lemma_read_keeps(rest[n], files);
            }
            assert(weights_read(store, names, files).dom() =~= store.dom());
        }
    }
}

/// Reads the named tensors whose data is not there yet.
pub fn load_weights(store: &mut NameTable<SourceTensor>, names: &Vec<String>, maps: &Vec<&[u8]>)
    requires
        old(store).wf(),
        named_readable(
            source::source_views(old(store)@),
            crate::order::views(names@),
            source::contents(maps@),
        ),
    ensures
        final(store).wf(),
        final(store).names@ == old(store).names@,
        source::source_views(final(store)@) == weights_read(
            source::source_views(old(store)@),
            crate::order::views(names@),
            source::contents(maps@),
        ),
{
    let ghost first = source::source_views(store@);
    let ghost keys = crate::order::views(names@);
    let ghost files = source::contents(maps@);
    let mut i: usize = 0;
    while i < names.len()
        invariant
            i <= names@.len(),
            store.wf(),
            store.names@ == old(store).names@,
            named_readable(first, keys, files),
            keys == crate::order::views(names@),
            files == source::contents(maps@),
            source::source_views(store@) == weights_read(first, keys.take(i as int), files),
        decreases names@.len() - i,
    {
        proof {
            lemma_weights_read(first, keys.take(i as int), files);
            assert(keys.take(i + 1).drop_last() =~= keys.take(i as int));
            assert(keys.take(i + 1).last() == names@[i as int]@);
        }
        let ghost before = *store;
        let ghost now = source::source_views(store@);
        match store.find(names[i].as_str()) {
            Some(k) => {
                proof {
                    let n = names@[i as int]@;
                    assert(now.dom().contains(n));
                    assert(keys[i as int] == n);
                    assert(keys.contains(n));
                    assert(first.dom().contains(n));
                    assert(files.len() == maps@.len());
                    assert(weights_read(first, keys.take(i as int), files)[n] == now[n]);
                    assert(now[n] == store.values@[k as int]@);
                }
                source::load_from_maps(&mut store.values[k], maps);
                proof {
                    let n = names@[i as int]@;
                    let t = store.values@[k as int];
                    assert(store.values@ =~= before.values@.update(k as int, t));
                    assert forall|m: Seq<char>| #[trigger]
                        store@.dom().contains(m) implies store@[m] == before@.insert(n, t)[m] by {
                        let j = crate::table::position_of(store.names@, m);
                        assert(0 <= j < store.names@.len() && store.names@[j]@ == m);
                    }
                    assert(store@ =~= before@.insert(n, t));
                    assert(source::source_views(store@) =~= now.insert(n, t@));
                }
            },
            None => {
                assert(!now.dom().contains(names@[i as int]@));
            },
        }
        i = i + 1;
    }
    assert(keys.take(keys.len() as int) =~= keys);
}

/// The single-precision values of a payload of half-precision values or brain
/// floats.
pub open spec fn single_values(t: SourceView) -> Seq<u32> {
    Seq::new(
        t.data.len() / 2,
        |i: int|
            {
                let h = wire::le_value(t.data.subrange(2 * i, 2 * i + 2));
                if t.dtype == "BF16"@ {
                    (h * 0x1_0000) as u32
                } else {
                    float_bits::widened_half(h as u16)
                }
            },
    )
}

/// Whether a tensor is quantized: a matrix of half-precision values or brain
/// floats.
pub open spec fn is_candidate(t: SourceView) -> bool {
    (t.dtype == "F16"@ || t.dtype == "BF16"@) && t.shape.len() == 2
}

/// Whether a tensor is quantized where it is a weight.
pub fn is_quantizable(t: &SourceTensor) -> (r: bool)
    ensures
        r == is_candidate(t@),
{
    (text::same_text(t.dtype.as_str(), "F16") || text::same_text(t.dtype.as_str(), "BF16"))
        && t.shape.len() == 2
}

/// A weight matrix to be quantized, as single-precision values.
#[derive(Debug)]
pub struct WeightTask {
    pub out_dim: u32,
    pub in_dim: u32,
    pub values: Vec<u32>,
}

/// The report of a weight that the source does not have.
pub open spec fn missing_weight_report(name: Seq<char>) -> Seq<char> {
    "quantize: missing source tensor '"@ + name + "'"@
}

/// What there is to do for a weight: nothing where it is no candidate.
pub fn weight_task(store: &NameTable<SourceTensor>, name: &str) -> (r: Result<
    Option<WeightTask>,
    String,
>)
    requires
        store.wf(),
    ensures
        match r {
            Ok(Some(task)) => {
                let t = store@[name@]@;
                &&& store@.dom().contains(name@)
                &&& is_candidate(t)
                &&& task.out_dim == t.shape[0]
                &&& task.in_dim == t.shape[1]
                &&& task.values@ == single_values(t)
            },
            Ok(None) => store@.dom().contains(name@) && !is_candidate(store@[name@]@),
            Err(e) => !store@.dom().contains(name@) && e@ == missing_weight_report(name@),
        },
{
    match store.get(name) {
        Some(t) => {
            if !is_quantizable(t) {
                return Ok(None);
            }
            let brain: bool = text::same_text(t.dtype.as_str(), "BF16");
            let values: Vec<u32> = widen_values(t, brain);
            Ok(Some(WeightTask { out_dim: t.shape[0], in_dim: t.shape[1], values }))
        },
        None => Err(text::join3("quantize: missing source tensor '", name, "'")),
    }
}

fn widen_values(t: &SourceTensor, brain: bool) -> (r: Vec<u32>)
    requires
        brain == (t.dtype@ == "BF16"@),
    ensures
        r@ == single_values(t@),
{
    let n: usize = t.data.len() / 2;
    let mut r: Vec<u32> = Vec::new();
    let mut i: usize = 0;
    while i < n
        invariant
            i <= n,
            n == t.data.len() / 2,
            brain == (t.dtype@ == "BF16"@),
            r@.len() == i,
            forall|j: int| 0 <= j < i ==> #[trigger] r@[j] == single_values(t@)[j],
        decreases n - i,
    {
        let h: u64 = wire::read_le(t.data.as_slice(), 2 * i, 2);
        proof {
            wire::lemma_byte_ranges();
        }
        let v: u32 = if brain {
            (h * 0x1_0000) as u32
        } else {
            float_bits::half_to_f32(h as u16)
        };
        r.push(v);
        i = i + 1;
    }
    assert(r@ =~= single_values(t@));
    r
}

/// A source and the needs of an execution while weights are being quantized;
/// once there is a report, nothing more is done.
#[verifier::ext_equal]
pub struct Progress {
    pub store: Map<Seq<char>, SourceView>,
    pub spec: ExecutionView,
    pub report: Option<Seq<char>>,
}

/// The groups of codes of one weight: in words for the four-bit scheme, in bytes
/// for the eight-bit scheme.
pub struct GroupCodes {
    pub words: Seq<WordGroup>,
    pub bytes: Seq<ByteGroup>,
}

/// The sizes of a weight of four-bit codes.
pub open spec fn nibble_layout(t: SourceView, group_size: u32) -> NibbleLayout {
    NibbleLayout {
        out_dim: t.shape[0],
        in_dim: t.shape[1],
        group_size,
        groups_per_row: groups_in_row(t.shape[1], group_size) as u32,
    }
}

/// A weight quantized by a scheme, where its groups of codes are those.
pub open spec fn packed_form(
    t: SourceView,
    mode: CompileQuantMode,
    codes: GroupCodes,
) -> PackedTensorView {
    match mode {
        CompileQuantMode::Nf4 { group_size } => nf4_packed(
            codes.words,
            nibble_layout(t, group_size),
        ),
        CompileQuantMode::Af8 { group_size } => af8_packed(
            codes.bytes,
            t.shape[0],
            t.shape[1],
            group_size,
            groups_in_row(t.shape[1], group_size) as u32,
        ),
        CompileQuantMode::Ternary { group_size } => ternary_packed(
            single_values(t),
            t.shape[0],
            t.shape[1],
            group_size,
        ),
        CompileQuantMode::TernaryTile640 { group_size } => tile640_packed(
            single_values(t),
            t.shape[0],
            t.shape[1],
            group_size,
        ),
    }
}

/// The report of a weight whose groups of codes do not stay inside it.
pub open spec fn codes_report(
    t: SourceView,
    mode: CompileQuantMode,
    codes: GroupCodes,
) -> Option<Seq<char>> {
    match mode {
        CompileQuantMode::Nf4 { group_size } => {
            let l = nibble_layout(t, group_size);
            let first = first_misplaced(codes.words, l);
            if first < codes.words.len() {
                Some(misplaced_report(l, first))
            } else {
                None
            }
        },
        _ => None,
    }
}

/// Whether the groups of codes are what the code of the scheme can give for the
/// weight. The ternary schemes have no such code.
pub open spec fn are_codes_of<N: Fn(Vec<u32>) -> WordGroup, B: Fn(Vec<u32>) -> ByteGroup>(
    t: SourceView,
    mode: CompileQuantMode,
    codes: GroupCodes,
    nf4: N,
    af8: B,
) -> bool {
    match mode {
        CompileQuantMode::Nf4 { group_size } => are_coded(
            nf4,
            single_values(t),
            t.shape[0],
            t.shape[1],
            group_size,
            codes.words,
        ),
        CompileQuantMode::Af8 { group_size } => are_coded(
            af8,
            single_values(t),
            t.shape[0],
            t.shape[1],
            group_size,
            codes.bytes,
        ),
        _ => true,
    }
}

/// Whether a tensor can be quantized by the scheme, where it is a
/// candidate at all.
pub open spec fn suits_mode(t: SourceView, mode: CompileQuantMode) -> bool {
    is_candidate(t) ==> match mode {
        CompileQuantMode::TernaryTile640 { .. } => is_tileable(
            single_values(t),
            t.shape[0],
            t.shape[1],
        ),
        _ => is_divisible(single_values(t), t.shape[0], t.shape[1], mode.group()),
    }
}

/// Whether a tensor that is to be quantized has the values that the scheme asks
/// for, and whether every count stays in range.
pub fn fits_mode(t: &SourceTensor, mode: CompileQuantMode) -> (r: bool)
    ensures
        r == suits_mode(t@, mode),
{
    if !is_quantizable(t) {
        return true;
    }
    let (out_dim, in_dim): (u32, u32) = (t.shape[0], t.shape[1]);
    let group: u32 = match mode {
        CompileQuantMode::TernaryTile640 { .. } => 640,
        _ => {
            let group: u32 = mode.group_size();
            if group == 0 || in_dim > u32::MAX - (group - 1) {
                return false;
            }
            group
        },
    };
    let groups: u64 = (in_dim as u64 + (group - 1) as u64) / group as u64;
    proof {
        assert(groups == groups_in_row(in_dim, group));
        assert(groups <= in_dim + group - 1) by (nonlinear_arith)
            requires
                groups == (in_dim + group - 1) / group as int,
                group > 0,
        ;
        assert(out_dim * in_dim <= 0xFFFF_FFFF * 0xFFFF_FFFF) by (nonlinear_arith)
            requires
                out_dim <= 0xFFFF_FFFF,
                in_dim <= 0xFFFF_FFFF,
        ;
        assert(groups * out_dim <= 0x1_FFFF_FFFF * 0xFFFF_FFFF) by (nonlinear_arith)
            requires
                0 <= groups <= 0x1_FFFF_FFFF,
                out_dim <= 0xFFFF_FFFF,
        ;
    }
    let total: u128 = groups as u128 * out_dim as u128;
    out_dim as u64 * in_dim as u64 <= (t.data.len() / 2) as u64 && total <= u32::MAX as u128 && total
        * 4 <= usize::MAX as u128
}

/// One weight after the other quantized by a scheme, where the groups of codes of
/// the weight `i` are `codes[i]`.
pub open spec fn weights_quantized(
    p: Progress,
    names: Seq<Seq<char>>,
    mode: CompileQuantMode,
    codes: Seq<GroupCodes>,
) -> Progress
    decreases names.len(),
{
    if names.len() == 0 {
        p
    } else {
        let q = weights_quantized(p, names.drop_last(), mode, codes);
        let n = names.last();
        let c = codes[names.len() - 1];
        if q.report is Some {
            q
        } else if !q.store.dom().contains(n) {
            Progress { report: Some(missing_weight_report(n)), ..q }
        } else if !is_candidate(q.store[n]) {
            q
        } else if codes_report(q.store[n], mode, c) is Some {
            Progress { report: codes_report(q.store[n], mode, c), ..q }
        } else {
            let f = packed_form(q.store[n], mode, c);
            Progress {
                store: with_packed(q.store, n, f),
                spec: with_shapes(q.spec, n, f.shapes),
                report: None,
            }
        }
    }
}

/// Whether the groups of codes of the weight `i`, where it is quantized at all, are
/// what the code of the scheme can give for it as it then stands.
pub open spec fn is_coded_at<N: Fn(Vec<u32>) -> WordGroup, B: Fn(Vec<u32>) -> ByteGroup>(
    p: Progress,
    names: Seq<Seq<char>>,
    mode: CompileQuantMode,
    codes: Seq<GroupCodes>,
    nf4: N,
    af8: B,
    i: int,
) -> bool {
    let q = weights_quantized(p, names.take(i), mode, codes);
    q.report is None && q.store.dom().contains(names[i]) && is_candidate(q.store[names[i]])
        ==> are_codes_of(q.store[names[i]], mode, codes[i], nf4, af8)
}

/// Whether the groups of codes are what the codes of the schemes can give for the
/// weights, one after the other.
pub open spec fn is_coding<N: Fn(Vec<u32>) -> WordGroup, B: Fn(Vec<u32>) -> ByteGroup>(
    p: Progress,
    names: Seq<Seq<char>>,
    mode: CompileQuantMode,
    codes: Seq<GroupCodes>,
    nf4: N,
    af8: B,
) -> bool {
    forall|i: int|
        0 <= i < names.len() ==> #[trigger] is_coded_at(p, names, mode, codes, nf4, af8, i)
}

/// What is done for weights rests on their own groups of codes alone.
proof fn lemma_own_codes(
    p: Progress,
    names: Seq<Seq<char>>,
    mode: CompileQuantMode,
    a: Seq<GroupCodes>,
    b: Seq<GroupCodes>,
)
    requires
        forall|i: int| 0 <= i < names.len() ==> #[trigger] a[i] == b[i],
    ensures
        weights_quantized(p, names, mode, a) == weights_quantized(p, names, mode, b),
    decreases names.len(),
{
    if names.len() > 0 {
        assert(a[names.len() - 1] == b[names.len() - 1]);
        lemma_own_codes(p, names.drop_last(), mode, a, b);
    }
}

/// Another set of groups behind those of the first weights leaves these coded.
proof fn lemma_coding_grows<N: Fn(Vec<u32>) -> WordGroup, B: Fn(Vec<u32>) -> ByteGroup>(
    p: Progress,
    names: Seq<Seq<char>>,
    mode: CompileQuantMode,
    codes: Seq<GroupCodes>,
    c: GroupCodes,
    nf4: N,
    af8: B,
)
    requires
        codes.len() < names.len(),
        forall|i: int|
            0 <= i < codes.len() ==> #[trigger] is_coded_at(p, names, mode, codes, nf4, af8, i),
        ({
            let n = names[codes.len() as int];
            let q = weights_quantized(p, names.take(codes.len() as int), mode, codes);
            q.report is None && q.store.dom().contains(n) && is_candidate(q.store[n])
                ==> are_codes_of(q.store[n], mode, c, nf4, af8)
        }),
    ensures
        forall|i: int|
            0 <= i <= codes.len() ==> #[trigger] is_coded_at(
                p,
                names,
                mode,
                codes.push(c),
                nf4,
                af8,
                i,
            ),
{
    assert forall|i: int| 0 <= i <= codes.len() implies #[trigger] is_coded_at(
        p,
        names,
        mode,
        codes.push(c),
        nf4,
        af8,
        i,
    ) by {
        lemma_own_codes(p, names.take(i), mode, codes, codes.push(c));
        if i < codes.len() {
            assert(is_coded_at(p, names, mode, codes, nf4, af8, i));
        }
    }
}

/// No weight has the name of the scales or biases of a weight.
proof fn lemma_companions_apart(n: Seq<char>, w: Seq<char>)
    requires
        text::has_suffix(n, ".weight"@),
    ensures
        n != emit::companion(w, ".scales"@),
        n != emit::companion(w, ".biases"@),
{
    reveal_strlit(".weight");
    reveal_strlit(".scales");
    reveal_strlit(".biases");
    let tail = n.subrange(n.len() - 7, n.len() as int);
    assert(tail[6] == n[n.len() - 1]);
    assert(n[n.len() - 1] == 't');
    let a = emit::companion(w, ".scales"@);
    let b = emit::companion(w, ".biases"@);
    assert(a[a.len() - 1] == 's');
    assert(b[b.len() - 1] == 's');
}

proof fn lemma_packed_is_done(t: SourceView)
    requires
        t.dtype == "U8"@ || t.dtype == "U32"@,
    ensures
        !is_candidate(t),
{
    reveal_strlit("U8");
    reveal_strlit("U32");
    reveal_strlit("F16");
    reveal_strlit("BF16");
    assert("U8"@[0] == 'U' && "U32"@[0] == 'U' && "F16"@[0] == 'F' && "BF16"@[0] == 'B');
}

/// A weight of the source is as it was at the start or has been quantized.
proof fn lemma_weights_quantized(
    p: Progress,
    names: Seq<Seq<char>>,
    mode: CompileQuantMode,
    codes: Seq<GroupCodes>,
    n: Seq<char>,
)
    requires
        text::has_suffix(n, ".weight"@),
    ensures
        weights_quantized(p, names, mode, codes).store.dom().contains(n) <==> p.store.dom().contains(n),
        p.store.dom().contains(n) ==> weights_quantized(p, names, mode, codes).store[n] == p.store[n]
            || !is_candidate(weights_quantized(p, names, mode, codes).store[n]),
    decreases names.len(),
{
    if names.len() > 0 {
        let q = weights_quantized(p, names.drop_last(), mode, codes);
        let m = names.last();
        lemma_weights_quantized(p, names.drop_last(), mode, codes, n);
        lemma_companions_apart(n, m);
        if q.store.dom().contains(m) && q.report is None && is_candidate(q.store[m]) {
            let f = packed_form(q.store[m], mode, codes[names.len() - 1]);
            let s = with_packed(q.store, m, f);
            if n == m {
                lemma_packed_is_done(s[n]);
            }
        }
    }
}

proof fn lemma_weights_are_weights(e: ExecutionView, n: Seq<char>)
    requires
        weights_of(e).contains(n),
    ensures
        text::has_suffix(n, ".weight"@),
{
    let all = weights_of(e);
    let i = choose|i: int| 0 <= i < all.len() && all[i] == n;
    let g = weights_among(e.global_tensors);
    if i < g.len() {
        lemma_weights_among(e.global_tensors, i);
    } else {
        lemma_weights_of_layers(e.layers, i - g.len());
    }
}

proof fn lemma_weights_among(b: Seq<BindingView>, i: int)
    requires
        0 <= i < weights_among(b).len(),
    ensures
        text::has_suffix(weights_among(b)[i], ".weight"@),
    decreases b.len(),
{
    let rest = weights_among(b.drop_last());
    if i < rest.len() {
        lemma_weights_among(b.drop_last(), i);
    }
}

proof fn lemma_weights_of_layers(l: Seq<LayerView>, i: int)
    requires
        0 <= i < weights_of_layers(l).len(),
    ensures
        text::has_suffix(weights_of_layers(l)[i], ".weight"@),
    decreases l.len(),
{
    let rest = weights_of_layers(l.drop_last());
    if i < rest.len() {
        lemma_weights_of_layers(l.drop_last(), i);
    } else {
        lemma_weights_among(l.last().tensors, i - rest.len());
    }
}

proof fn lemma_words_within(out_dim: u32, in_dim: u32, group_size: u32, values: Seq<u32>)
    requires
        is_divisible(values, out_dim, in_dim, group_size),
    ensures
        0 <= groups_in_row(in_dim, group_size) <= u32::MAX,
        out_dim * ((in_dim + 7) / 8) <= usize::MAX,
{
    let gs = group_size as int;
    assert(0 <= (in_dim + gs - 1) / gs <= in_dim + gs - 1) by (nonlinear_arith)
        requires
            gs > 0,
            0 <= in_dim,
    ;
    assert(out_dim * ((in_dim + 7) / 8) <= out_dim * in_dim) by (nonlinear_arith)
        requires
            0 <= out_dim,
            0 <= (in_dim + 7) / 8 <= in_dim,
    ;
}

/// Quantizes a weight by a scheme; `nf4` and `af8` give the groups of codes of the
/// affine schemes. A weight whose groups do not stay inside it is refused.
fn quantize_weight<N: Fn(Vec<u32>) -> WordGroup, B: Fn(Vec<u32>) -> ByteGroup>(
    store: &mut NameTable<SourceTensor>,
    spec: &mut ExecutionSpec,
    name: &str,
    task: &WeightTask,
    mode: CompileQuantMode,
    nf4: &N,
    af8: &B,
) -> (r: (Result<(), String>, Ghost<GroupCodes>))
    requires
        old(store).wf(),
        old(store)@.dom().contains(name@),
        is_candidate(old(store)@[name@]@),
        suits_mode(old(store)@[name@]@, mode),
        task.out_dim == old(store)@[name@]@.shape[0],
        task.in_dim == old(store)@[name@]@.shape[1],
        task.values@ == single_values(old(store)@[name@]@),
        forall|v: Vec<u32>| #[trigger] call_requires(*nf4, (v,)),
        forall|v: Vec<u32>| #[trigger] call_requires(*af8, (v,)),
    ensures
        final(store).wf(),
        ({
            let t = old(store)@[name@]@;
            let c = r.1@;
            let f = packed_form(t, mode, c);
            &&& are_codes_of(t, mode, c, *nf4, *af8)
            &&& match r.0 {
                Ok(_) => {
                    &&& codes_report(t, mode, c) is None
                    &&& source::source_views(final(store)@) == with_packed(
                        source::source_views(old(store)@),
                        name@,
                        f,
                    )
                    &&& final(spec)@ == with_shapes(old(spec)@, name@, f.shapes)
                },
                Err(e) => {
                    &&& codes_report(t, mode, c) == Some(e@)
                    &&& *final(store) == *old(store)
                    &&& *final(spec) == *old(spec)
                },
            }
        }),
{
    let ghost none = GroupCodes { words: Seq::empty(), bytes: Seq::empty() };
    match mode {
        CompileQuantMode::Nf4 { group_size } => {
            let groups: Vec<WordGroup> = code_groups(
                &task.values,
                task.out_dim,
                task.in_dim,
                group_size,
                nf4,
            );
            proof {
                lemma_words_within(task.out_dim, task.in_dim, group_size, task.values@);
            }
            let layout: NibbleLayout = NibbleLayout {
                out_dim: task.out_dim,
                in_dim: task.in_dim,
                group_size,
                groups_per_row: (task.in_dim + (group_size - 1)) / group_size,
            };
            let ghost codes = GroupCodes { words: groups@, ..none };
            (apply_nf4_quantize(store, spec, name, &groups, layout), Ghost(codes))
        },
        CompileQuantMode::Af8 { group_size } => {
            let groups: Vec<ByteGroup> = code_groups(
                &task.values,
                task.out_dim,
                task.in_dim,
                group_size,
                af8,
            );
            proof {
                lemma_words_within(task.out_dim, task.in_dim, group_size, task.values@);
            }
            apply_af8_quantize(
                store,
                spec,
                name,
                &groups,
                task.out_dim,
                task.in_dim,
                group_size,
                (task.in_dim + (group_size - 1)) / group_size,
            );
            let ghost codes = GroupCodes { bytes: groups@, ..none };
            (Ok(()), Ghost(codes))
        },
        CompileQuantMode::Ternary { group_size } => {
            apply_ternary_quantize(
                store,
                spec,
                name,
                &task.values,
                task.out_dim,
                task.in_dim,
                group_size,
            );
            (Ok(()), Ghost(none))
        },
        CompileQuantMode::TernaryTile640 { group_size } => {
            apply_ternary_tile640_quantize(
                store,
                spec,
                name,
                &task.values,
                task.out_dim,
                task.in_dim,
                group_size,
            );
            (Ok(()), Ghost(none))
        },
    }
}

/// A source with its weights read, before the first is quantized.
pub open spec fn before_quantizing(
    store: Map<Seq<char>, SourceView>,
    spec: ExecutionView,
    files: Seq<Seq<u8>>,
) -> Progress {
    Progress { store: weights_read(store, weights_of(spec), files), spec, report: None }
}

/// Whether the weights were quantized as far as that, with that outcome.
pub open spec fn is_quantized(
    p: Progress,
    store: Map<Seq<char>, SourceView>,
    spec: ExecutionView,
    r: Result<(), String>,
) -> bool {
    &&& store == p.store
    &&& spec == p.spec
    &&& match r {
        Ok(_) => p.report is None,
        Err(e) => p.report == Some(e@),
    }
}

/// Quantizes the weights of a source by a scheme, each after it has been read, in
/// the order in which the execution needs them. `nf4` and `af8` give the groups of
/// codes of the affine schemes, from the bit patterns of the values of a group.
pub fn apply_quantize_to_loaded<
    N: Fn(Vec<u32>) -> WordGroup,
    B: Fn(Vec<u32>) -> ByteGroup,
>(
    store: &mut NameTable<SourceTensor>,
    spec: &mut ExecutionSpec,
    maps: &Vec<&[u8]>,
    mode: CompileQuantMode,
    nf4: &N,
    af8: &B,
) -> (r: Result<(), String>)
    requires
        old(store).wf(),
        named_readable(
            source::source_views(old(store)@),
            weights_of(old(spec)@),
            source::contents(maps@),
        ),
        forall|n: Seq<char>| #[trigger]
            old(store)@.dom().contains(n) && weights_of(old(spec)@).contains(n) ==> suits_mode(
                weights_read(
                    source::source_views(old(store)@),
                    weights_of(old(spec)@),
                    source::contents(maps@),
                )[n],
                mode,
            ),
        forall|v: Vec<u32>| #[trigger] call_requires(*nf4, (v,)),
        forall|v: Vec<u32>| #[trigger] call_requires(*af8, (v,)),
    ensures
        final(store).wf(),
        ({
            let start = before_quantizing(
                source::source_views(old(store)@),
                old(spec)@,
                source::contents(maps@),
            );
            let names = weights_of(old(spec)@);
            exists|codes: Seq<GroupCodes>|
                #![trigger is_coding(start, names, mode, codes, *nf4, *af8)]
                is_coding(start, names, mode, codes, *nf4, *af8) && is_quantized(
                    weights_quantized(start, names, mode, codes),
                    source::source_views(final(store)@),
                    final(spec)@,
                    r,
                )
        }),
{
    let names: Vec<String> = weight_names(spec);
    load_weights(store, &names, maps);
    let ghost keys = crate::order::views(names@);
    let ghost needs = spec@;
    let ghost start = before_quantizing(
        source::source_views(old(store)@),
        needs,
        source::contents(maps@),
    );
    let ghost mut codes: Seq<GroupCodes> = Seq::empty();
    proof {
        lemma_weights_read(source::source_views(old(store)@), keys, source::contents(maps@));
    }
    let mut i: usize = 0;
    while i < names.len()
        invariant
            i <= names@.len(),
            store.wf(),
            keys == crate::order::views(names@),
            keys == weights_of(needs),
            needs == old(spec)@,
            start == before_quantizing(
                source::source_views(old(store)@),
                needs,
                source::contents(maps@),
            ),
            forall|n: Seq<char>| #[trigger]
                start.store.dom().contains(n) && keys.contains(n) ==> suits_mode(
                    start.store[n],
                    mode,
                ),
            forall|v: Vec<u32>| #[trigger] call_requires(*nf4, (v,)),
            forall|v: Vec<u32>| #[trigger] call_requires(*af8, (v,)),
            codes.len() == i,
            forall|j: int|
                0 <= j < i ==> #[trigger] is_coded_at(start, keys, mode, codes, *nf4, *af8, j),
            ({
                let p = weights_quantized(start, keys.take(i as int), mode, codes);
                &&& source::source_views(store@) == p.store
                &&& spec@ == p.spec
                &&& p.report is None
            }),
        ensures
            i == names@.len(),
        decreases names@.len() - i,
    {
        let ghost p = weights_quantized(start, keys.take(i as int), mode, codes);
        let ghost n = names@[i as int]@;
        let ghost mut c = GroupCodes { words: Seq::empty(), bytes: Seq::empty() };
        let ghost before = codes;
        proof {
            assert(keys.take(i + 1).drop_last() =~= keys.take(i as int));
            assert(keys.take(i + 1).last() == n);
            assert(keys[i as int] == n);
            assert(keys.contains(n));
            lemma_weights_are_weights(needs, n);
            lemma_weights_quantized(start, keys.take(i as int), mode, codes, n);
            assert(p.store.dom().contains(n) <==> store@.dom().contains(n));
        }
        let mut outcome: Result<(), String> = Ok(());
        match weight_task(store, names[i].as_str()) {
            Ok(Some(task)) => {
                assert(p.store[n] == store@[n]@);
                assert(suits_mode(start.store[n], mode));
                let (done, given): (Result<(), String>, Ghost<GroupCodes>) = quantize_weight(
                    store,
                    spec,
                    names[i].as_str(),
                    &task,
                    mode,
                    nf4,
                    af8,
                );
                proof {
                    c = given@;
                }
                outcome = done;
            },
            Ok(None) => {
                assert(p.store[n] == store@[n]@);
            },
            Err(e) => {
                outcome = Err(e);
            },
        }
        proof {
            lemma_coding_grows(start, keys, mode, codes, c, *nf4, *af8);
            codes = codes.push(c);
            lemma_own_codes(start, keys.take(i as int), mode, before, codes);
        }
        if let Err(e) = outcome {
            proof {
                lemma_report_stays(start, keys, i + 1, mode, codes);
                assert forall|j: int| 0 <= j < keys.len() implies #[trigger] is_coded_at(
                    start,
                    keys,
                    mode,
                    codes,
                    *nf4,
                    *af8,
                    j,
                ) by {
                    if j > i {
                        assert(keys.take(j).take(i + 1) =~= keys.take(i + 1));
                        lemma_report_stays(start, keys.take(j), i + 1, mode, codes);
                    }
                }
                assert(is_coding(start, keys, mode, codes, *nf4, *af8));
            }
            return Err(e);
        }
        i = i + 1;
    }
    proof {
        assert(keys.take(keys.len() as int) =~= keys);
        assert(is_coding(start, keys, mode, codes, *nf4, *af8));
    }
    Ok(())
}

/// Once there is a report, the rest of the weights change nothing.
proof fn lemma_report_stays(
    p: Progress,
    names: Seq<Seq<char>>,
    k: int,
    mode: CompileQuantMode,
    codes: Seq<GroupCodes>,
)
    requires
        0 <= k <= names.len(),
        weights_quantized(p, names.take(k), mode, codes).report is Some,
    ensures
        weights_quantized(p, names, mode, codes) == weights_quantized(
            p,
            names.take(k),
            mode,
            codes,
        ),
    decreases names.len() - k,
{
    if k < names.len() {
        assert(names.take(k + 1).drop_last() =~= names.take(k));
        lemma_report_stays(p, names, k + 1, mode, codes);
    } else {
        assert(names.take(k) =~= names);
    }
}

// ---------------------------------------------------------------------------
// Laws
// ---------------------------------------------------------------------------

/// Two groups of words that hold the same.
pub open spec fn same_words(a: WordGroup, b: WordGroup) -> bool {
    a.words@ == b.words@ && a.scale_bits == b.scale_bits
}

/// Two groups of bytes that hold the same.
pub open spec fn same_bytes(a: ByteGroup, b: ByteGroup) -> bool {
    a.codes@ == b.codes@ && a.scale_bits == b.scale_bits && a.bias_bits == b.bias_bits
}

/// Whether the code gives the same words for the same values, each time.
pub open spec fn is_steady_in_words<N: Fn(Vec<u32>) -> WordGroup>(nf4: N) -> bool {
    forall|v: Vec<u32>, w: Vec<u32>, g: WordGroup, h: WordGroup|
        v@ == w@ && #[trigger] call_ensures(nf4, (v,), g) && #[trigger] call_ensures(nf4, (w,), h)
            ==> same_words(g, h)
}

/// Whether the code gives the same bytes for the same values, each time.
pub open spec fn is_steady_in_bytes<B: Fn(Vec<u32>) -> ByteGroup>(af8: B) -> bool {
    forall|v: Vec<u32>, w: Vec<u32>, g: ByteGroup, h: ByteGroup|
        v@ == w@ && #[trigger] call_ensures(af8, (v,), g) && #[trigger] call_ensures(af8, (w,), h)
            ==> same_bytes(g, h)
}

proof fn lemma_same_words(a: Seq<WordGroup>, b: Seq<WordGroup>, l: NibbleLayout)
    requires
        a.len() == b.len(),
        forall|k: int| 0 <= k < a.len() ==> same_words(#[trigger] a[k], b[k]),
    ensures
        placed_words(a, l) == placed_words(b, l),
        first_misplaced(a, l) == first_misplaced(b, l),
        a.map_values(|g: WordGroup| g.scale_bits) == b.map_values(|g: WordGroup| g.scale_bits),
    decreases a.len(),
{
    if a.len() > 0 {
        assert(same_words(a[a.len() - 1], b[a.len() - 1]));
        assert forall|k: int| 0 <= k < a.drop_last().len() implies same_words(
            #[trigger] a.drop_last()[k],
            b.drop_last()[k],
        ) by {
            assert(same_words(a[k], b[k]));
        }
        lemma_same_words(a.drop_last(), b.drop_last(), l);
    }
    assert(a.map_values(|g: WordGroup| g.scale_bits) =~= b.map_values(
        |g: WordGroup| g.scale_bits,
    )) by {
        assert forall|k: int| 0 <= k < a.len() implies a[k].scale_bits == b[k].scale_bits by {
            assert(same_words(a[k], b[k]));
        }
    }
}

proof fn lemma_same_bytes(a: Seq<ByteGroup>, b: Seq<ByteGroup>)
    requires
        a.len() == b.len(),
        forall|k: int| 0 <= k < a.len() ==> same_bytes(#[trigger] a[k], b[k]),
    ensures
        joined_codes(a) == joined_codes(b),
        a.map_values(|g: ByteGroup| g.scale_bits) == b.map_values(|g: ByteGroup| g.scale_bits),
        a.map_values(|g: ByteGroup| g.bias_bits) == b.map_values(|g: ByteGroup| g.bias_bits),
    decreases a.len(),
{
    if a.len() > 0 {
        assert(same_bytes(a[a.len() - 1], b[a.len() - 1]));
        assert forall|k: int| 0 <= k < a.drop_last().len() implies same_bytes(
            #[trigger] a.drop_last()[k],
            b.drop_last()[k],
        ) by {
            assert(same_bytes(a[k], b[k]));
        }
        lemma_same_bytes(a.drop_last(), b.drop_last());
    }
    assert forall|k: int| 0 <= k < a.len() implies a[k].scale_bits == b[k].scale_bits
        && a[k].bias_bits == b[k].bias_bits by {
        assert(same_bytes(a[k], b[k]));
    }
    assert(a.map_values(|g: ByteGroup| g.scale_bits) =~= b.map_values(
        |g: ByteGroup| g.scale_bits,
    ));
    assert(a.map_values(|g: ByteGroup| g.bias_bits) =~= b.map_values(|g: ByteGroup| g.bias_bits));
}

/// Codes that give the same for the same values quantize a weight in one way only.
pub proof fn law_steady_codes_give_one_form<
    N: Fn(Vec<u32>) -> WordGroup,
    B: Fn(Vec<u32>) -> ByteGroup,
>(t: SourceView, mode: CompileQuantMode, a: GroupCodes, b: GroupCodes, nf4: N, af8: B)
    requires
        is_steady_in_words(nf4),
        is_steady_in_bytes(af8),
        are_codes_of(t, mode, a, nf4, af8),
        are_codes_of(t, mode, b, nf4, af8),
    ensures
        codes_report(t, mode, a) == codes_report(t, mode, b),
        packed_form(t, mode, a) == packed_form(t, mode, b),
{
    let values = single_values(t);
    match mode {
        CompileQuantMode::Nf4 { group_size } => {
            assert forall|k: int| 0 <= k < a.words.len() implies same_words(
                #[trigger] a.words[k],
                b.words[k],
            ) by {
                let range = group_range(t.shape[1], group_size, k);
                let part = values.subrange(range.0, range.1);
                assert(is_coded(nf4, part, a.words[k]));
                assert(is_coded(nf4, part, b.words[k]));
                let v = choose|v: Vec<u32>|
                    v@ == part && #[trigger] call_ensures(nf4, (v,), a.words[k]);
                let w = choose|w: Vec<u32>|
                    w@ == part && #[trigger] call_ensures(nf4, (w,), b.words[k]);
                assert(v@ == w@);
            }
            lemma_same_words(a.words, b.words, nibble_layout(t, group_size));
        },
        CompileQuantMode::Af8 { group_size } => {
            assert forall|k: int| 0 <= k < a.bytes.len() implies same_bytes(
                #[trigger] a.bytes[k],
                b.bytes[k],
            ) by {
                let range = group_range(t.shape[1], group_size, k);
                let part = values.subrange(range.0, range.1);
                assert(is_coded(af8, part, a.bytes[k]));
                assert(is_coded(af8, part, b.bytes[k]));
                let v = choose|v: Vec<u32>|
                    v@ == part && #[trigger] call_ensures(af8, (v,), a.bytes[k]);
                let w = choose|w: Vec<u32>|
                    w@ == part && #[trigger] call_ensures(af8, (w,), b.bytes[k]);
                assert(v@ == w@);
            }
            lemma_same_bytes(a.bytes, b.bytes);
        },
        _ => {},
    }
}

/// Where the codes give the same for the same values, the weights of a source are
/// quantized in one way only, whatever the scheme.
pub proof fn law_quantizing_is_deterministic<
    N: Fn(Vec<u32>) -> WordGroup,
    B: Fn(Vec<u32>) -> ByteGroup,
>(
    p: Progress,
    names: Seq<Seq<char>>,
    mode: CompileQuantMode,
    a: Seq<GroupCodes>,
    b: Seq<GroupCodes>,
    nf4: N,
    af8: B,
)
    requires
        is_steady_in_words(nf4),
        is_steady_in_bytes(af8),
        is_coding(p, names, mode, a, nf4, af8),
        is_coding(p, names, mode, b, nf4, af8),
    ensures
        weights_quantized(p, names, mode, a) == weights_quantized(p, names, mode, b),
    decreases names.len(),
{
    if names.len() > 0 {
        let rest = names.drop_last();
        let i = names.len() - 1;
        assert forall|j: int| 0 <= j < rest.len() implies #[trigger] is_coded_at(
            p,
            rest,
            mode,
            a,
            nf4,
            af8,
            j,
        ) by {
            assert(is_coded_at(p, names, mode, a, nf4, af8, j));
            assert(rest.take(j) =~= names.take(j));
        }
        assert forall|j: int| 0 <= j < rest.len() implies #[trigger] is_coded_at(
            p,
            rest,
            mode,
            b,
            nf4,
            af8,
            j,
        ) by {
            assert(is_coded_at(p, names, mode, b, nf4, af8, j));
            assert(rest.take(j) =~= names.take(j));
        }
        law_quantizing_is_deterministic(p, rest, mode, a, b, nf4, af8);
        let q = weights_quantized(p, rest, mode, a);
        let n = names.last();
        assert(names.take(i) =~= rest);
        assert(is_coded_at(p, names, mode, a, nf4, af8, i));
        assert(is_coded_at(p, names, mode, b, nf4, af8, i));
        if q.report is None && q.store.dom().contains(n) && is_candidate(q.store[n]) {
            law_steady_codes_give_one_form(q.store[n], mode, a[i], b[i], nf4, af8);
        }
    }
}

/// The ternary schemes quantize the weights of a source in one way only, whatever
/// codes the affine schemes have.
pub proof fn law_ternary_needs_no_codes(
    p: Progress,
    names: Seq<Seq<char>>,
    mode: CompileQuantMode,
    a: Seq<GroupCodes>,
    b: Seq<GroupCodes>,
)
    requires
        mode is Ternary || mode is TernaryTile640,
    ensures
        weights_quantized(p, names, mode, a) == weights_quantized(p, names, mode, b),
    decreases names.len(),
{
    if names.len() > 0 {
        law_ternary_needs_no_codes(p, names.drop_last(), mode, a, b);
    }
}

pub proof fn lemma_stacked_at<A>(n: nat, f: spec_fn(int) -> Seq<A>, width: int, row: int, j: int)
    requires
        0 <= width,
        forall|i: int| 0 <= i < n ==> (#[trigger] f(i)).len() == width,
        0 <= row < n,
        0 <= j < width,
    ensures
        stacked(n, f).len() == n * width,
        0 <= row * width + j < n * width,
        stacked(n, f)[row * width + j] == f(row)[j],
    decreases n,
{
    lemma_stacked_len(n, f, width);
    lemma_cell(row, j, n as int, width);
    if row < n - 1 {
        lemma_stacked_at((n - 1) as nat, f, width, row, j);
    } else {
        lemma_stacked_len((n - 1) as nat, f, width);
        assert(row * width == (n - 1) * width);
        assert(stacked(n, f)[row * width + j] == f(n - 1)[j]);
    }
}

proof fn lemma_stacked_len<A>(n: nat, f: spec_fn(int) -> Seq<A>, width: int)
    requires
        forall|i: int| 0 <= i < n ==> (#[trigger] f(i)).len() == width,
    ensures
        stacked(n, f).len() == n * width,
    decreases n,
{
    if n > 0 {
        lemma_stacked_len((n - 1) as nat, f, width);
        assert(f(n - 1).len() == width);
        assert(n * width == (n - 1) * width + width) by (nonlinear_arith);
    } else {
        assert(0 * width == 0);
    }
}

/// The word that stands at place `k` of a list of words in bytes, lowest byte first.
pub open spec fn word_at_place(bytes: Seq<u8>, k: int) -> int {
    bytes[4 * k] + 0x100 * bytes[4 * k + 1] + 0x1_0000 * bytes[4 * k + 2] + 0x100_0000 * bytes[4 * k
        + 3]
}

pub proof fn lemma_word_at_place(words: Seq<u32>, k: int)
    requires
        0 <= k < words.len(),
    ensures
        word_bytes(words).len() == 4 * words.len(),
        word_at_place(word_bytes(words), k) == words[k],
    decreases words.len(),
{
    lemma_word_bytes_len(words);
    lemma_word_bytes_len(words.drop_last());
    let last = wire::le_bytes(words.last() as nat, 4);
    wire::lemma_le_bytes_len(words.last() as nat, 4);
    if k < words.len() - 1 {
        lemma_word_at_place(words.drop_last(), k);
    } else {
        wire::lemma_byte_ranges();
        wire::lemma_le_value_of_le_bytes(words.last() as nat, 4);
        wire::law_four_bytes_make_a_word(last);
        let all = word_bytes(words);
        assert(all[4 * k] == last[0]);
        assert(all[4 * k + 1] == last[1]);
        assert(all[4 * k + 2] == last[2]);
        assert(all[4 * k + 3] == last[3]);
    }
}

proof fn lemma_word_bytes_len(words: Seq<u32>)
    ensures
        word_bytes(words).len() == 4 * words.len(),
    decreases words.len(),
{
    if words.len() > 0 {
        lemma_word_bytes_len(words.drop_last());
        wire::lemma_le_bytes_len(words.last() as nat, 4);
    }
}

/// Whether a scale is that of the values from `start` up to `end`: the largest
/// magnitude among those that are numbers above 1e-12, or one where there are none.
pub open spec fn is_scale_of(scale: int, values: Seq<u32>, start: int, end: int) -> bool {
    let counts = |i: int| 0x2B8C_BCCC < values[i] % 0x8000_0000 <= 0x7F80_0000;
    if exists|i: int| start <= i < end && #[trigger] counts(i) {
        &&& forall|i: int|
            start <= i < end && #[trigger] counts(i) ==> values[i] % 0x8000_0000 <= scale
        &&& exists|i: int|
            start <= i < end && #[trigger] counts(i) && values[i] % 0x8000_0000 == scale
    } else {
        scale == 0x3F80_0000
    }
}

/// Whether a digit is that of a value under a scale: 1 for a positive value beyond
/// half the scale, 2 for a negative one, and 0 beneath half the scale. Single
/// precision settles what lies within a part in two million of half the scale; the
/// digit of what is no finite value, or under an infinite scale, is 0.
pub open spec fn is_digit_of(digit: int, value: u32, scale: int) -> bool {
    let size = float_bits::magnitude(value as int % 0x8000_0000);
    let whole = float_bits::magnitude(scale);
    &&& digit == 0 || digit == (if value < 0x8000_0000 {
        1int
    } else {
        2
    })
    &&& value % 0x8000_0000 >= 0x7F80_0000 || scale == 0x7F80_0000 ==> digit == 0
    &&& value % 0x8000_0000 < 0x7F80_0000 && scale < 0x7F80_0000 ==> {
        &&& 0x40_0000 * (2 * size) > 0x40_0002 * whole ==> digit != 0
        &&& 0x40_0000 * (2 * size) <= 0x3F_FFFE * whole ==> digit == 0
        &&& value % 0x8000_0000 == scale ==> digit != 0
    }
}

#[verifier::spinoff_prover]
#[verifier::rlimit(30)]
proof fn lemma_block_scale(values: Seq<u32>, start: int, end: int)
    requires
        0 <= start <= end <= values.len(),
    ensures
        is_scale_of(
            float_bits::block_scale(values.subrange(start, end)) as int,
            values,
            start,
            end,
        ),
        0x80_0000 <= float_bits::block_scale(values.subrange(start, end)) <= 0x7F80_0000,
{
    let part = values.subrange(start, end);
    let top = float_bits::largest_bits(part);
    let counts = |i: int| 0x2B8C_BCCC < values[i] % 0x8000_0000 <= 0x7F80_0000;
    float_bits::lemma_largest_is_largest(part);
    assert forall|i: int| start <= i < end implies #[trigger] values[i] == part[i - start] by {}
    if top != 0 {
        let j = choose|j: int| 0 <= j < part.len() && #[trigger] part[j] % 0x8000_0000 == top;
        assert(values[start + j] == part[j]);
        assert(top > 0x2B8C_BCCC ==> counts(start + j));
    }
    assert forall|i: int| start <= i < end && #[trigger] counts(i) implies values[i] % 0x8000_0000
        <= top by {
        assert(part[i - start] == values[i]);
    }
}

#[verifier::spinoff_prover]
#[verifier::rlimit(30)]
proof fn lemma_digit_of(value: u32, scale: u32)
    requires
        0x80_0000 <= scale <= 0x7F80_0000,
    ensures
        is_digit_of(
            float_bits::product_digit(value, float_bits::reciprocal(scale)) as int,
            value,
            scale as int,
        ),
{
    if scale < 0x7F80_0000 {
        if float_bits::abs_bits(value) < 0x7F80_0000 {
            float_bits::lemma_digit_by_half_scale(value, scale);
            float_bits::lemma_magnitude_increases(0, scale as int);
            assert(float_bits::magnitude(0) == 0);
        }
    } else {
        assert(float_bits::reciprocal(scale) == 0);
        assert(float_bits::magnitude(0) == 0);
        let m = float_bits::magnitude(float_bits::abs_bits(value));
        assert(m * 0 == 0);
        let one = float_bits::magnitude(0x3F00_0000) + float_bits::magnitude(0x3F00_0001);
        float_bits::lemma_magnitude_increases(0, 0x3F00_0000);
        float_bits::lemma_magnitude_increases(0, 0x3F00_0001);
        float_bits::lemma_two_to_monotone(0, 149);
        assert(one * float_bits::two_to(149) >= 0) by (nonlinear_arith)
            requires
                one >= 0,
                float_bits::two_to(149) > 0,
        ;
    }
}

/// The scales of a matrix that is divided into groups: at place
/// `row * groups + g` stands the scale of group `g` of that row.
#[verifier::spinoff_prover]
#[verifier::rlimit(30)]
proof fn lemma_scale_in_place(
    values: Seq<u32>,
    out_dim: u32,
    in_dim: u32,
    group_size: u32,
    row: int,
    g: int,
)
    requires
        0 < group_size,
        out_dim * in_dim <= values.len(),
        0 <= row < out_dim,
        0 <= g < groups_in_row(in_dim, group_size),
    ensures
        ({
            let groups = groups_in_row(in_dim, group_size);
            let bytes = word_bytes(all_scales(values, out_dim, in_dim, group_size));
            let scale = group_scale(values, in_dim, group_size, row, g);
            &&& bytes.len() == 4 * (out_dim * groups)
            &&& 0 <= row * groups + g < out_dim * groups
            &&& word_at_place(bytes, row * groups + g) == scale
            &&& 0x80_0000 <= scale <= 0x7F80_0000
            &&& is_scale_of(
                scale as int,
                values,
                row * in_dim + g * group_size,
                row * in_dim + group_end(in_dim, group_size, g),
            )
        }),
{
    let groups = groups_in_row(in_dim, group_size);
    let f = |row: int| row_scales(values, in_dim, group_size, row);
    lemma_stacked_at(out_dim as nat, f, groups, row, g);
    let all = all_scales(values, out_dim, in_dim, group_size);
    assert(all[row * groups + g] == row_scales(values, in_dim, group_size, row)[g]);
    lemma_word_at_place(all, row * groups + g);
    lemma_group_start(g, in_dim, group_size);
    lemma_cell(row, 0, out_dim as int, in_dim as int);
    lemma_block_scale(
        values,
        row * in_dim + g * group_size,
        row * in_dim + group_end(in_dim, group_size, g),
    );
}

/// In a weight of two-bit digits every element has the digit that its value has under
/// the scale that is stored for its own group. Rows begin at whole bytes and hold four
/// digits to a byte, the first in the lowest bits; the scale of an element stands at
/// the place of its row and group. In particular an element that is as large as the
/// scale of its group has a digit other than 0.
#[verifier::spinoff_prover]
#[verifier::rlimit(30)]
pub proof fn law_ternary_digit_is_under_own_scale(
    values: &Vec<u32>,
    out_dim: u32,
    in_dim: u32,
    group_size: u32,
    r: PackedTensor,
    row: int,
    col: int,
)
    requires
        call_ensures(pack_ternary, (values, out_dim, in_dim, group_size), r),
        0 < group_size,
        out_dim * in_dim <= values@.len(),
        0 <= row < out_dim,
        0 <= col < in_dim,
    ensures
        ({
            let size = group_size as int;
            let groups = (in_dim + size - 1) / size;
            let g = col / size;
            let width = (in_dim as int + 3) / 4;
            let end = if (g + 1) * size <= in_dim {
                (g + 1) * size
            } else {
                in_dim as int
            };
            let scale = word_at_place(r.scales@, row * groups + g);
            let unit = seq![1int, 4, 16, 64][col % 4];
            let digit = r.data@[row * width + col / 4] as int / unit % 4;
            &&& r.data@.len() == out_dim * width
            &&& r.scales@.len() == 4 * (out_dim * groups)
            &&& is_scale_of(scale, values@, row * in_dim + g * size, row * in_dim + end)
            &&& is_digit_of(digit, values@[row * in_dim + col], scale)
        }),
{
    let groups = groups_in_row(in_dim, group_size);
    let g = col / group_size as int;
    let width = crumb_width(in_dim);
    lemma_group_of(col, in_dim, group_size);
    lemma_scale_in_place(values@, out_dim, in_dim, group_size, row, g);
    let f = |row: int| crumb_row(values@, in_dim, group_size, row);
    lemma_stacked_at(out_dim as nat, f, width, row, col / 4);
    assert(r.data@[row * width + col / 4] == crumb_byte(
        values@,
        in_dim,
        group_size,
        row,
        col / 4,
    ));
    lemma_crumb_at(values@, in_dim, group_size, row, col);
    let scale = group_scale(values@, in_dim, group_size, row, g);
    lemma_digit_of(values@[row * in_dim + col], scale);
}

#[verifier::spinoff_prover]
#[verifier::rlimit(30)]
proof fn lemma_crumb_at(values: Seq<u32>, in_dim: u32, group_size: u32, row: int, col: int)
    requires
        0 <= col,
    ensures
        crumb_byte(values, in_dim, group_size, row, col / 4) as int / seq![1int, 4, 16, 64][col % 4]
            % 4 == weight_digit(values, in_dim, group_size, row, col),
{
    let j = col / 4;
    let a = weight_digit(values, in_dim, group_size, row, 4 * j);
    let b = weight_digit(values, in_dim, group_size, row, 4 * j + 1);
    let c = weight_digit(values, in_dim, group_size, row, 4 * j + 2);
    let d = weight_digit(values, in_dim, group_size, row, 4 * j + 3);
    lemma_crumbs(a as int, b as int, c as int, d as int);
    assert(col == 4 * j + col % 4);
}

#[verifier::spinoff_prover]
#[verifier::rlimit(30)]
proof fn lemma_crumbs(a: int, b: int, c: int, d: int)
    requires
        0 <= a <= 2,
        0 <= b <= 2,
        0 <= c <= 2,
        0 <= d <= 2,
    ensures
        ({
            let byte = a + 4 * b + 16 * c + 64 * d;
            &&& 0 <= byte < 256
            &&& byte / 1 % 4 == a
            &&& byte / 4 % 4 == b
            &&& byte / 16 % 4 == c
            &&& byte / 64 % 4 == d
        }),
{
}

/// In a weight of base-3 words every element has the digit that its value has under
/// the scale that is stored for its own run of 640. A row holds 32 words for each run,
/// and a word twenty digits, the first of them the highest.
#[verifier::spinoff_prover]
#[verifier::rlimit(30)]
pub proof fn law_tile_digit_is_under_own_scale(
    values: &Vec<u32>,
    out_dim: u32,
    in_dim: u32,
    group_size: u32,
    r: PackedTensor,
    row: int,
    col: int,
)
    requires
        call_ensures(pack_tile640, (values, out_dim, in_dim, group_size), r),
        out_dim * in_dim <= values@.len(),
        0 <= row < out_dim,
        0 <= col < in_dim,
    ensures
        ({
            let tiles = (in_dim as int + 639) / 640;
            let g = col / 640;
            let end = if (g + 1) * 640 <= in_dim {
                (g + 1) * 640
            } else {
                in_dim as int
            };
            let scale = word_at_place(r.scales@, row * tiles + g);
            let word = word_at_place(r.data@, row * (32 * tiles) + col / 20);
            let digit = word / pow(3, (19 - col % 20) as nat) % 3;
            &&& r.data@.len() == 4 * (out_dim * (32 * tiles))
            &&& r.scales@.len() == 4 * (out_dim * tiles)
            &&& is_scale_of(scale, values@, row * in_dim + g * 640, row * in_dim + end)
            &&& is_digit_of(digit, values@[row * in_dim + col], scale)
        }),
{
    let tiles = groups_in_row(in_dim, 640);
    let g = col / 640;
    let k = col / 20;
    lemma_group_of(col, in_dim, 640);
    lemma_scale_in_place(values@, out_dim, in_dim, 640, row, g);
    let f = |row: int| tile_row(values@, in_dim, row);
    assert(k < 32 * tiles);
    lemma_stacked_at(out_dim as nat, f, 32 * tiles, row, k);
    let words = stacked(out_dim as nat, f);
    lemma_word_at_place(words, row * (32 * tiles) + k);
    let digits = word_digits(values@, in_dim, row, k);
    assert forall|i: int| 0 <= i < digits.len() implies #[trigger] digits[i] <= 2 by {}
    lemma_base3_range(digits);
    lemma_large_powers_of_three();
    law_base3_reads_back(digits, col % 20);
    lemma_three_to_is_pow((19 - col % 20) as nat);
    assert(words[row * (32 * tiles) + k] == base3(digits) as u32);
    assert(digits[col % 20] == weight_digit(values@, in_dim, 640, row, col));
    let scale = group_scale(values@, in_dim, 640, row, g);
    lemma_digit_of(values@[row * in_dim + col], scale);
    lemma_group_start(g, in_dim, 640);
}

proof fn lemma_three_to_is_pow(n: nat)
    ensures
        swizzle::three_to(n) == pow(3, n),
    decreases n,
{
    if n == 0 {
        lemma_pow0(3);
    } else {
        lemma_three_to_is_pow((n - 1) as nat);
        reveal(pow);
    }
}

/// What a weight of ternary digits is said to be: its type, its shapes, and biases
/// that are all zero, one for each scale.
pub proof fn law_ternary_shapes(
    values: &Vec<u32>,
    out_dim: u32,
    in_dim: u32,
    group_size: u32,
    two_bit: PackedTensor,
    tiled: PackedTensor,
)
    requires
        is_divisible(values@, out_dim, in_dim, group_size),
        is_tileable(values@, out_dim, in_dim),
        call_ensures(pack_ternary, (values, out_dim, in_dim, group_size), two_bit),
        call_ensures(pack_tile640, (values, out_dim, in_dim, group_size), tiled),
    ensures
        two_bit.dtype@ == "U8"@,
        two_bit.shapes.weight@ == seq![out_dim, ((in_dim + 3) / 4) as u32],
        two_bit.shapes.bits == 2,
        two_bit.shapes.group_size == group_size,
        two_bit.shapes.groups == out_dim * ((in_dim + group_size - 1) / group_size as int),
        two_bit.shapes.scales@ == seq![
            out_dim,
            ((in_dim + group_size - 1) / group_size as int) as u32,
        ],
        two_bit.shapes.biases@ == two_bit.shapes.scales@,
        forall|i: int| 0 <= i < two_bit.biases@.len() ==> #[trigger] two_bit.biases@[i] == 0,
        two_bit.biases@.len() == 4 * two_bit.shapes.groups,
        tiled.dtype@ == "U32"@,
        tiled.shapes.weight@ == seq![out_dim, (32 * ((in_dim + 639) / 640)) as u32],
        tiled.shapes.bits == 2,
        tiled.shapes.group_size == group_size,
        tiled.shapes.groups == out_dim * ((in_dim + 639) / 640),
        tiled.shapes.scales@ == seq![out_dim, ((in_dim + 639) / 640) as u32],
        tiled.shapes.biases@ == tiled.shapes.scales@,
        forall|i: int| 0 <= i < tiled.biases@.len() ==> #[trigger] tiled.biases@[i] == 0,
        tiled.biases@.len() == 4 * tiled.shapes.groups,
{
    let a = groups_in_row(in_dim, group_size);
    let b = groups_in_row(in_dim, 640);
    let gs = group_size as int;
    assert(0 <= (in_dim + gs - 1) / gs) by (nonlinear_arith)
        requires
            0 < gs,
            0 <= in_dim,
    ;
    assert(0 <= a * out_dim && a * out_dim == out_dim * a) by (nonlinear_arith)
        requires
            0 <= a,
            0 <= out_dim,
    ;
    assert(0 <= b * out_dim && b * out_dim == out_dim * b) by (nonlinear_arith)
        requires
            0 <= b,
            0 <= out_dim,
    ;
}

/// The word `i / 8` of packed codes has code `i` in its four bits at `4 * (i % 8)`.
pub proof fn law_packed_nibbles_read_back(codes: &[u8], words: Vec<u32>, i: int)
    requires
        forall|j: int| 0 <= j < codes@.len() ==> #[trigger] codes@[j] < 16,
        call_ensures(pack_nibbles, (codes,), words),
        0 <= i < codes@.len(),
    ensures
        words@.len() == (codes@.len() + 7) / 8,
        words@[i / 8] as int / pow(16, (i % 8) as nat) % 16 == codes@[i],
{
    let k = i / 8;
    let end = if 8 * k + 8 <= codes@.len() {
        8 * k + 8
    } else {
        codes@.len() as int
    };
    let part = codes@.subrange(8 * k, end);
    assert forall|j: int| 0 <= j < part.len() implies #[trigger] part[j] < 16 by {
        assert(part[j] == codes@[8 * k + j]);
    }
    law_nibbles_read_back(part, i % 8);
    lemma_sixteen_to_is_pow((i % 8) as nat);
    assert(words@[k] == nibble_word(codes@, k));
    assert(part[i % 8] == codes@[i]);
}

proof fn lemma_sixteen_to_is_pow(n: nat)
    ensures
        sixteen_to(n) == pow(16, n),
    decreases n,
{
    if n == 0 {
        lemma_pow0(16);
    } else {
        lemma_sixteen_to_is_pow((n - 1) as nat);
        reveal(pow);
    }
}

/// Each group of a weight is coded from its own elements: those of its row, from the
/// place of the group on, in order, up to the end of the group or of the row.
#[verifier::spinoff_prover]
#[verifier::rlimit(30)]
pub proof fn law_groups_are_coded_from_own_elements<G, C: Fn(Vec<u32>) -> G>(
    values: &Vec<u32>,
    out_dim: u32,
    in_dim: u32,
    group_size: u32,
    code: &C,
    groups: Vec<G>,
    row: int,
    g: int,
)
    requires
        is_divisible(values@, out_dim, in_dim, group_size),
        call_ensures(code_groups::<G, C>, (values, out_dim, in_dim, group_size, code), groups),
        0 <= row < out_dim,
        0 <= g,
        g * group_size < in_dim,
    ensures
        ({
            let size = group_size as int;
            let per = (in_dim + size - 1) / size;
            let n = if (g + 1) * size <= in_dim {
                size
            } else {
                in_dim - g * size
            };
            &&& groups@.len() == out_dim * per
            &&& 0 <= row * per + g < groups@.len()
            &&& exists|v: Vec<u32>|
                v@ == Seq::new(n as nat, |i: int| values@[row * in_dim + g * size + i])
                    && #[trigger] call_ensures(*code, (v,), groups@[row * per + g])
        }),
{
    let size = group_size as int;
    let per = groups_in_row(in_dim, group_size);
    lemma_fundamental_div_mod(in_dim + size - 1, size);
    assert(g < per) by (nonlinear_arith)
        requires
            in_dim + size - 1 == size * per + (in_dim + size - 1) % size,
            0 <= (in_dim + size - 1) % size < size,
            g * size < in_dim,
            0 < size,
    ;
    lemma_cell(row, g, out_dim as int, per);
    let k = row * per + g;
    assert(per * out_dim == out_dim * per) by (nonlinear_arith);
    vstd::arithmetic::div_mod::lemma_fundamental_div_mod_converse(k, per, row, g);
    lemma_group_range(out_dim, in_dim, group_size, k);
    let (start, end) = group_range(in_dim, group_size, k);
    assert(is_coded(*code, values@.subrange(start, end), groups@[k]));
    let v = choose|v: Vec<u32>|
        v@ == values@.subrange(start, end) && #[trigger] call_ensures(*code, (v,), groups@[k]);
    let n = if (g + 1) * size <= in_dim {
        size
    } else {
        in_dim - g * size
    };
    assert((g + 1) * size == g * size + size) by (nonlinear_arith);
    assert(v@ =~= Seq::new(n as nat, |i: int| values@[row * in_dim + g * size + i]));
}

/// Where the codes of group `k` begin, if the groups have as many codes as elements.
#[verifier::spinoff_prover]
#[verifier::rlimit(30)]
proof fn lemma_codes_before(
    groups: Seq<ByteGroup>,
    out_dim: u32,
    in_dim: u32,
    group_size: u32,
    k: int,
)
    requires
        0 < group_size,
        0 < in_dim,
        groups.len() == groups_in_row(in_dim, group_size) * out_dim,
        forall|j: int|
            0 <= j < groups.len() ==> (#[trigger] groups[j]).codes@.len() == group_range(
                in_dim,
                group_size,
                j,
            ).1 - group_range(in_dim, group_size, j).0,
        0 <= k <= groups.len(),
    ensures
        joined_codes(groups.take(k)).len() == group_range(in_dim, group_size, k).0,
        k < groups.len() ==> forall|c: int|
            0 <= c < groups[k].codes@.len() ==> #[trigger] joined_codes(groups)[group_range(
                in_dim,
                group_size,
                k,
            ).0 + c] == groups[k].codes@[c],
        joined_codes(groups.take(k)).is_prefix_of(joined_codes(groups)),
    decreases k,
{
    let per = groups_in_row(in_dim, group_size);
    let gs = group_size as int;
    assert(per > 0) by (nonlinear_arith)
        requires
            per == (in_dim + gs - 1) / gs,
            0 < gs,
            0 < in_dim,
    ;
    lemma_joined_prefix(groups, k);
    if k == 0 {
        assert(0int / per == 0 && 0int % per == 0) by {
            vstd::arithmetic::div_mod::lemma_div_basics(per);
            vstd::arithmetic::div_mod::lemma_small_mod(0, per as nat);
        }
        assert(0 * in_dim == 0 && 0 * gs == 0);
        assert(groups.take(0) =~= Seq::<ByteGroup>::empty());
    } else {
        lemma_codes_before(groups, out_dim, in_dim, group_size, k - 1);
        assert(groups.take(k).drop_last() =~= groups.take(k - 1));
        assert(groups.take(k).last() == groups[k - 1]);
        lemma_next_group(in_dim, group_size, k - 1);
    }
    if k < groups.len() {
        lemma_joined_prefix(groups, k + 1);
        assert(groups.take(k + 1).drop_last() =~= groups.take(k));
        assert(groups.take(k + 1).last() == groups[k]);
        let start = group_range(in_dim, group_size, k).0;
        let next = joined_codes(groups.take(k + 1));
        assert forall|c: int| 0 <= c < groups[k].codes@.len() implies #[trigger] joined_codes(
            groups,
        )[start + c] == groups[k].codes@[c] by {
            assert(next[start + c] == groups[k].codes@[c]);
            assert(joined_codes(groups).subrange(0, next.len() as int)[start + c]
                == joined_codes(groups)[start + c]);
        }
    }
}

proof fn lemma_joined_prefix(groups: Seq<ByteGroup>, k: int)
    requires
        0 <= k <= groups.len(),
    ensures
        joined_codes(groups.take(k)).is_prefix_of(joined_codes(groups)),
    decreases groups.len() - k,
{
    let a = joined_codes(groups.take(k));
    let all = joined_codes(groups);
    if k == groups.len() {
        assert(groups.take(k) =~= groups);
        assert(all.subrange(0, all.len() as int) =~= all);
    } else {
        lemma_joined_prefix(groups, k + 1);
        assert(groups.take(k + 1).drop_last() =~= groups.take(k));
        let b = joined_codes(groups.take(k + 1));
        assert(b.subrange(0, a.len() as int) =~= a);
        assert(all.subrange(0, a.len() as int) =~= b.subrange(0, a.len() as int));
    }
}

/// A group ends where the next one begins.
#[verifier::spinoff_prover]
#[verifier::rlimit(30)]
proof fn lemma_next_group(in_dim: u32, group_size: u32, k: int)
    requires
        0 < group_size,
        0 < in_dim,
        0 <= k,
    ensures
        group_range(in_dim, group_size, k).1 == group_range(in_dim, group_size, k + 1).0,
{
    let per = groups_in_row(in_dim, group_size);
    let gs = group_size as int;
    let n = in_dim as int;
    lemma_fundamental_div_mod(n + gs - 1, gs);
    assert(per > 0) by (nonlinear_arith)
        requires
            per == (n + gs - 1) / gs,
            0 < gs,
            0 < n,
    ;
    let row = k / per;
    let g = k % per;
    lemma_fundamental_div_mod(k, per);
    vstd::arithmetic::div_mod::lemma_mod_bound(k, per);
    assert((g + 1) * gs == g * gs + gs) by (nonlinear_arith);
    if g + 1 < per {
        assert(k + 1 == row * per + (g + 1)) by (nonlinear_arith)
            requires
                k == per * row + g,
        ;
        vstd::arithmetic::div_mod::lemma_fundamental_div_mod_converse(k + 1, per, row, g + 1);
        assert((g + 1) * gs < n) by (nonlinear_arith)
            requires
                n + gs - 1 == gs * per + (n + gs - 1) % gs,
                0 <= (n + gs - 1) % gs < gs,
                g + 1 < per,
                0 < gs,
        ;
    } else {
        assert(k + 1 == (row + 1) * per + 0) by (nonlinear_arith)
            requires
                k == per * row + g,
                g + 1 == per,
        ;
        vstd::arithmetic::div_mod::lemma_fundamental_div_mod_converse(k + 1, per, row + 1, 0);
        assert((g + 1) * gs >= n) by (nonlinear_arith)
            requires
                n + gs - 1 == gs * per + (n + gs - 1) % gs,
                0 <= (n + gs - 1) % gs < gs,
                g + 1 == per,
                0 < gs,
        ;
        assert((row + 1) * in_dim == row * in_dim + in_dim) by (nonlinear_arith);
        assert(0 * gs == 0);
    }
}

/// In a weight of eight-bit codes, where each group has as many codes as elements, the
/// code of an element stands at the place of the element, row by row; the scale and
/// the bias of group `g` of a row stand at `row * groups + g`. The codes are filled up
/// with zeros to whole words.
#[verifier::spinoff_prover]
#[verifier::rlimit(30)]
pub proof fn law_byte_codes_stand_in_place(
    groups: Seq<ByteGroup>,
    out_dim: u32,
    in_dim: u32,
    group_size: u32,
    groups_per_row: u32,
    row: int,
    col: int,
)
    requires
        0 < group_size,
        groups_per_row == (in_dim + group_size - 1) / group_size as int,
        groups.len() == groups_per_row * out_dim,
        forall|r: int, g: int|
            0 <= r < out_dim && 0 <= g < groups_per_row ==> (#[trigger] groups[r * groups_per_row
                + g]).codes@.len() == (if (g + 1) * group_size <= in_dim {
                group_size as int
            } else {
                in_dim - g * group_size
            }),
        0 <= row < out_dim,
        0 <= col < in_dim,
    ensures
        ({
            let p = af8_packed(groups, out_dim, in_dim, group_size, groups_per_row);
            let k = row * groups_per_row + col / group_size as int;
            &&& p.data.len() == (out_dim * in_dim + 3) / 4 * 4
            &&& p.data[row * in_dim + col] == groups[k].codes@[col % group_size as int]
            &&& forall|i: int| out_dim * in_dim <= i < p.data.len() ==> #[trigger] p.data[i] == 0
            &&& p.scales.len() == 4 * groups.len()
            &&& word_at_place(p.scales, k) == groups[k].scale_bits
            &&& p.biases.len() == 4 * groups.len()
            &&& word_at_place(p.biases, k) == groups[k].bias_bits
            &&& p.dtype == "U32"@
            &&& p.shapes.weight == seq![out_dim, in_dim / 4]
            &&& p.shapes.scales == seq![out_dim, groups_per_row]
            &&& p.shapes.biases == seq![out_dim, groups_per_row]
            &&& p.shapes.bits == 8
            &&& p.shapes.group_size == group_size
        }),
{
    let per = groups_in_row(in_dim, group_size);
    let gs = group_size as int;
    let g = col / gs;
    lemma_group_of(col, in_dim, group_size);
    lemma_cell(row, g, out_dim as int, per);
    let k = row * per + g;
    assert(per * out_dim == out_dim * per) by (nonlinear_arith);
    assert forall|j: int| 0 <= j < groups.len() implies (#[trigger] groups[j]).codes@.len()
        == group_range(in_dim, group_size, j).1 - group_range(in_dim, group_size, j).0 by {
        let r = j / per;
        let h = j % per;
        lemma_fundamental_div_mod(j, per);
        vstd::arithmetic::div_mod::lemma_mod_bound(j, per);
        assert(0 <= r < out_dim) by (nonlinear_arith)
            requires
                j == per * r + h,
                0 <= h < per,
                0 <= j < per * out_dim,
        ;
        assert(j == r * per + h) by (nonlinear_arith)
            requires
                j == per * r + h,
        ;
        assert(groups[r * groups_per_row + h].codes@.len() == (if (h + 1) * group_size <= in_dim {
            group_size as int
        } else {
            in_dim - h * group_size
        }));
        assert((h + 1) * gs == h * gs + gs) by (nonlinear_arith);
    }
    vstd::arithmetic::div_mod::lemma_fundamental_div_mod_converse(k, per, row, g);
    lemma_fundamental_div_mod(col, gs);
    vstd::arithmetic::div_mod::lemma_mod_bound(col, gs);
    lemma_codes_before(groups, out_dim, in_dim, group_size, k);
    assert((g + 1) * gs == g * gs + gs) by (nonlinear_arith);
    assert(gs * g == g * gs) by (nonlinear_arith);
    assert(col % gs < groups[k].codes@.len());
    let codes = joined_codes(groups);
    assert(codes[group_range(in_dim, group_size, k).0 + col % gs] == groups[k].codes@[col % gs]);
    lemma_codes_before(groups, out_dim, in_dim, group_size, groups.len() as int);
    assert(groups.take(groups.len() as int) =~= groups);
    vstd::arithmetic::div_mod::lemma_fundamental_div_mod_converse(
        groups.len() as int,
        per,
        out_dim as int,
        0,
    );
    assert(0 * gs == 0);
    assert(codes.len() == out_dim * in_dim);
    lemma_cell(row, col, out_dim as int, in_dim as int);
    let scales = groups.map_values(|g: ByteGroup| g.scale_bits);
    let biases = groups.map_values(|g: ByteGroup| g.bias_bits);
    lemma_word_at_place(scales, k);
    lemma_word_at_place(biases, k);
}

/// In a weight of four-bit codes, where the groups are whole words and each has the
/// words of its elements, word `w` of group `g` of a row stands in that row behind the
/// words of the groups before it, and the scale of the group at `row * groups + g`. All
/// biases are zero.
#[verifier::spinoff_prover]
#[verifier::rlimit(30)]
pub proof fn law_nibble_words_stand_in_place(
    groups: Seq<WordGroup>,
    l: NibbleLayout,
    row: int,
    g: int,
    w: int,
)
    requires
        0 < l.group_size,
        l.group_size % 8 == 0,
        l.groups_per_row == (l.in_dim + l.group_size - 1) / l.group_size as int,
        groups.len() == l.groups_per_row * l.out_dim,
        forall|r: int, h: int|
            0 <= r < l.out_dim && 0 <= h < l.groups_per_row ==> (#[trigger] groups[r
                * l.groups_per_row + h]).words@.len() == (if (h + 1) * l.group_size <= l.in_dim {
                l.group_size as int / 8
            } else {
                (l.in_dim - h * l.group_size + 7) / 8
            }),
        0 <= row < l.out_dim,
        0 <= g < l.groups_per_row,
        0 <= w < groups[row * l.groups_per_row + g].words@.len(),
    ensures
        ({
            let p = nf4_packed(groups, l);
            let width = (l.in_dim as int + 7) / 8;
            let k = row * l.groups_per_row + g;
            &&& first_misplaced(groups, l) == groups.len()
            &&& p.data.len() == 4 * (l.out_dim * width)
            &&& word_at_place(p.data, row * width + g * (l.group_size as int / 8) + w)
                == groups[k].words@[w]
            &&& p.scales.len() == 4 * groups.len()
            &&& word_at_place(p.scales, k) == groups[k].scale_bits
            &&& p.biases.len() == 4 * groups.len()
            &&& forall|i: int| 0 <= i < p.biases.len() ==> #[trigger] p.biases[i] == 0
            &&& p.dtype == "U32"@
            &&& p.shapes.weight == seq![l.out_dim, width as u32]
            &&& p.shapes.scales == seq![l.out_dim, l.groups_per_row]
            &&& p.shapes.biases == seq![l.out_dim, l.groups_per_row]
            &&& p.shapes.bits == 4
            &&& p.shapes.group_size == l.group_size
        }),
{
    let per = l.groups_per_row as int;
    let width = l.row_words();
    let k = row * per + g;
    assert(per * l.out_dim == l.out_dim * per) by (nonlinear_arith);
    lemma_cell(row, g, l.out_dim as int, per);
    assert(0 <= l.out_dim * width) by (nonlinear_arith)
        requires
            0 <= width,
            0 <= l.out_dim,
    ;
    assert forall|j: int| 0 <= j < groups.len() implies #[trigger] l.place(j)
        + groups[j].words@.len() == l.place(j + 1) && 0 <= l.place(j) by {
        lemma_next_place(groups, l, j);
    }
    lemma_places_end(groups, l, groups.len() as int, k);
    vstd::arithmetic::div_mod::lemma_fundamental_div_mod_converse(k, per, row, g);
    vstd::arithmetic::div_mod::lemma_fundamental_div_mod_converse(
        groups.len() as int,
        per,
        l.out_dim as int,
        0,
    );
    assert((l.group_size + 7) / 8 == l.group_size as int / 8);
    assert(l.place(groups.len() as int) == l.total_words()) by {
        assert(0 * ((l.group_size + 7) / 8) == 0);
    }
    lemma_words_stay(groups, l, groups.len() as int, k, w);
    assert(groups.take(groups.len() as int) =~= groups);
    lemma_placed_len(groups, l);
    lemma_place_bound(groups, l, k);
    lemma_word_at_place(placed_words(groups, l), l.place(k) + w);
    let scales = groups.map_values(|g: WordGroup| g.scale_bits);
    lemma_word_at_place(scales, k);
    law_first_misplaced(groups, l);
    let f = first_misplaced(groups, l);
    if f < groups.len() {
        lemma_place_bound(groups, l, f);
    }
}

#[verifier::spinoff_prover]
#[verifier::rlimit(30)]
proof fn lemma_next_place(groups: Seq<WordGroup>, l: NibbleLayout, j: int)
    requires
        0 < l.group_size,
        l.group_size % 8 == 0,
        l.groups_per_row == (l.in_dim + l.group_size - 1) / l.group_size as int,
        groups.len() == l.groups_per_row * l.out_dim,
        forall|r: int, h: int|
            0 <= r < l.out_dim && 0 <= h < l.groups_per_row ==> (#[trigger] groups[r
                * l.groups_per_row + h]).words@.len() == (if (h + 1) * l.group_size <= l.in_dim {
                l.group_size as int / 8
            } else {
                (l.in_dim - h * l.group_size + 7) / 8
            }),
        0 <= j < groups.len(),
    ensures
        l.place(j) + groups[j].words@.len() == l.place(j + 1),
        0 <= l.place(j),
{
    let per = l.groups_per_row as int;
    let gs = l.group_size as int;
    let n = l.in_dim as int;
    let q = gs / 8;
    let width = l.row_words();
    assert(gs == 8 * q);
    assert((l.group_size + 7) / 8 == q);
    lemma_fundamental_div_mod(n + gs - 1, gs);
    assert(per > 0) by (nonlinear_arith)
        requires
            0 <= j < per * l.out_dim,
            0 <= l.out_dim,
            0 <= per,
    ;
    let r = j / per;
    let h = j % per;
    lemma_fundamental_div_mod(j, per);
    vstd::arithmetic::div_mod::lemma_mod_bound(j, per);
    assert(0 <= r < l.out_dim) by (nonlinear_arith)
        requires
            j == per * r + h,
            0 <= h < per,
            0 <= j < per * l.out_dim,
    ;
    assert(j == r * per + h) by (nonlinear_arith)
        requires
            j == per * r + h,
    ;
    assert(groups[r * l.groups_per_row + h] == groups[j]);
    assert(0 <= r * width && 0 <= h * q) by (nonlinear_arith)
        requires
            0 <= r,
            0 <= width,
            0 <= h,
            0 <= q,
    ;
    assert((h + 1) * gs == h * gs + gs) by (nonlinear_arith);
    assert(h * gs == 8 * (h * q)) by (nonlinear_arith)
        requires
            gs == 8 * q,
    ;
    assert((h + 1) * q == h * q + q) by (nonlinear_arith);
    if h + 1 < per {
        vstd::arithmetic::div_mod::lemma_fundamental_div_mod_converse(j + 1, per, r, h + 1);
        assert((h + 1) * gs < n) by (nonlinear_arith)
            requires
                n + gs - 1 == gs * per + (n + gs - 1) % gs,
                0 <= (n + gs - 1) % gs < gs,
                h + 1 < per,
                0 < gs,
        ;
    } else {
        assert(j + 1 == (r + 1) * per + 0) by (nonlinear_arith)
            requires
                j == per * r + h,
                h + 1 == per,
        ;
        vstd::arithmetic::div_mod::lemma_fundamental_div_mod_converse(j + 1, per, r + 1, 0);
        assert((h + 1) * gs >= n) by (nonlinear_arith)
            requires
                n + gs - 1 == gs * per + (n + gs - 1) % gs,
                0 <= (n + gs - 1) % gs < gs,
                h + 1 == per,
                0 < gs,
        ;
        assert(h * gs < n) by (nonlinear_arith)
            requires
                n + gs - 1 == gs * per + (n + gs - 1) % gs,
                0 <= (n + gs - 1) % gs < gs,
                h < per,
                0 < gs,
        ;
        assert((r + 1) * width == r * width + width) by (nonlinear_arith);
        assert(0 * q == 0);
    }
}

/// The words of earlier groups end before the place of group `k`.
proof fn lemma_places_end(groups: Seq<WordGroup>, l: NibbleLayout, n: int, k: int)
    requires
        0 <= k <= n <= groups.len(),
        forall|j: int|
            0 <= j < groups.len() ==> #[trigger] l.place(j) + groups[j].words@.len() == l.place(
                j + 1,
            ) && 0 <= l.place(j),
    ensures
        l.place(k) <= l.place(n),
    decreases n - k,
{
    if k < n {
        lemma_places_end(groups, l, n, k + 1);
        assert(l.place(k) + groups[k].words@.len() == l.place(k + 1));
    }
}

proof fn lemma_place_bound(groups: Seq<WordGroup>, l: NibbleLayout, k: int)
    requires
        0 <= k < groups.len(),
        forall|j: int|
            0 <= j < groups.len() ==> #[trigger] l.place(j) + groups[j].words@.len() == l.place(
                j + 1,
            ) && 0 <= l.place(j),
        l.place(groups.len() as int) == l.total_words(),
    ensures
        0 <= l.place(k),
        l.place(k) + groups[k].words@.len() <= l.total_words(),
{
    assert(l.place(k) + groups[k].words@.len() == l.place(k + 1));
    lemma_places_end(groups, l, groups.len() as int, k + 1);
}

/// The words of a group stay as the groups behind it are placed.
proof fn lemma_words_stay(groups: Seq<WordGroup>, l: NibbleLayout, n: int, k: int, w: int)
    requires
        0 <= k < n <= groups.len(),
        0 <= w < groups[k].words@.len(),
        forall|j: int|
            0 <= j < groups.len() ==> #[trigger] l.place(j) + groups[j].words@.len() == l.place(
                j + 1,
            ) && 0 <= l.place(j),
        l.place(groups.len() as int) == l.total_words(),
    ensures
        placed_words(groups.take(n), l)[l.place(k) + w] == groups[k].words@[w],
    decreases n,
{
    let rest = groups.take(n).drop_last();
    assert(rest =~= groups.take(n - 1));
    assert(groups.take(n).last() == groups[n - 1]);
    lemma_place_bound(groups, l, k);
    lemma_placed_len(rest, l);
    if k < n - 1 {
        lemma_words_stay(groups, l, n - 1, k, w);
        assert(l.place(k) + groups[k].words@.len() == l.place(k + 1));
        lemma_places_end(groups, l, n - 1, k + 1);
    }
}

/// Packing a weight puts its packed data, with their type and shape, in the place of
/// what it held, and its scales and biases beside it as single-precision tensors; what
/// else is known of the weight, and every other tensor, stay as they are.
pub proof fn law_packing_replaces_one_weight(
    store: Map<Seq<char>, SourceView>,
    stem: Seq<char>,
    p: PackedTensorView,
    other: Seq<char>,
)
    requires
        store.dom().contains(stem + ".weight"@),
        other != stem + ".weight"@,
        other != stem + ".scales"@,
        other != stem + ".biases"@,
    ensures
        ({
            let r = with_packed(store, stem + ".weight"@, p);
            let w = r[stem + ".weight"@];
            let s = r[stem + ".scales"@];
            let b = r[stem + ".biases"@];
            &&& r.dom() == store.dom().insert(stem + ".scales"@).insert(stem + ".biases"@)
            &&& w.data == p.data
            &&& w.dtype == p.dtype
            &&& w.shape == p.shapes.weight
            &&& w.name == store[stem + ".weight"@].name
            &&& w.source_filename == store[stem + ".weight"@].source_filename
            &&& w.source_sha256 == store[stem + ".weight"@].source_sha256
            &&& w.source_offset == store[stem + ".weight"@].source_offset
            &&& w.source_byte_size == store[stem + ".weight"@].source_byte_size
            &&& s.data == p.scales
            &&& s.dtype == "F32"@
            &&& s.shape == p.shapes.scales
            &&& s.name == stem + ".scales"@
            &&& b.data == p.biases
            &&& b.dtype == "F32"@
            &&& b.shape == p.shapes.biases
            &&& b.name == stem + ".biases"@
            &&& store.dom().contains(other) == r.dom().contains(other)
            &&& store.dom().contains(other) ==> r[other] == store[other]
        }),
{
    let n = stem + ".weight"@;
    lemma_stem(stem);
    lemma_companions_apart(n, n);
    lemma_endings_apart(stem);
    let r = with_packed(store, n, p);
    assert(r.dom() =~= store.dom().insert(stem + ".scales"@).insert(stem + ".biases"@));
}

pub proof fn lemma_stem(stem: Seq<char>)
    ensures
        text::has_suffix(stem + ".weight"@, ".weight"@),
        emit::companion(stem + ".weight"@, ".scales"@) == stem + ".scales"@,
        emit::companion(stem + ".weight"@, ".biases"@) == stem + ".biases"@,
{
    let w = stem + ".weight"@;
    assert(w.subrange(w.len() - ".weight"@.len(), w.len() as int) =~= ".weight"@);
    assert(w.take(w.len() - ".weight"@.len()) =~= stem);
}

proof fn lemma_endings_apart(stem: Seq<char>)
    ensures
        stem + ".scales"@ != stem + ".biases"@,
{
    reveal_strlit(".scales");
    reveal_strlit(".biases");
    let a = stem + ".scales"@;
    let b = stem + ".biases"@;
    let k = stem.len() as int + 1;
    assert(a[k] == 's' && b[k] == 'b');
}

/// Two lists of bindings that are the same but for packed shapes that have been added.
pub open spec fn same_bindings(a: Seq<BindingView>, b: Seq<BindingView>) -> bool {
    &&& a.len() == b.len()
    &&& forall|j: int|
        0 <= j < a.len() ==> {
            &&& (#[trigger] b[j]).name == a[j].name
            &&& b[j].role == a[j].role
            &&& b[j].logical_shape == a[j].logical_shape
            &&& a[j].packed is Some ==> b[j].packed == a[j].packed
        }
}

/// Two needs that are the same but for packed shapes that have been added.
pub open spec fn same_needs(a: ExecutionView, b: ExecutionView) -> bool {
    &&& same_bindings(a.global_tensors, b.global_tensors)
    &&& a.layers.len() == b.layers.len()
    &&& forall|l: int|
        0 <= l < a.layers.len() ==> (#[trigger] b.layers[l]).index == a.layers[l].index
            && same_bindings(a.layers[l].tensors, b.layers[l].tensors)
}

/// Quantization adds packed shapes to the needs of an execution and changes nothing
/// else of them: the same tensors are needed by the same layers, in the same order.
pub proof fn law_quantizing_keeps_needs(
    p: Progress,
    names: Seq<Seq<char>>,
    mode: CompileQuantMode,
    codes: Seq<GroupCodes>,
)
    ensures
        same_needs(p.spec, weights_quantized(p, names, mode, codes).spec),
    decreases names.len(),
{
    if names.len() > 0 {
        let q = weights_quantized(p, names.drop_last(), mode, codes);
        law_quantizing_keeps_needs(p, names.drop_last(), mode, codes);
        let r = weights_quantized(p, names, mode, codes);
        if r.spec != q.spec {
            let n = names.last();
            let f = packed_form(q.store[n], mode, codes[names.len() - 1]);
            assert(r.spec == with_shapes(q.spec, n, f.shapes));
            assert forall|l: int| 0 <= l < p.spec.layers.len() implies (
            #[trigger] r.spec.layers[l]).index == p.spec.layers[l].index && same_bindings(
                p.spec.layers[l].tensors,
                r.spec.layers[l].tensors,
            ) by {
                assert(q.spec.layers[l].index == p.spec.layers[l].index);
            }
        }
    }
}

/// Whether a weight has been quantized by a scheme, with those groups of codes: its
/// packed form stands in its place and beside it, and every binding of its name that
/// had no packed shapes has those of the form.
#[verifier::opaque]
pub open spec fn is_weight_quantized(
    p: Progress,
    q: Progress,
    n: Seq<char>,
    mode: CompileQuantMode,
    c: GroupCodes,
) -> bool {
    let f = packed_form(p.store[n], mode, c);
    &&& codes_report(p.store[n], mode, c) is None
    &&& q.store.dom().contains(n)
    &&& q.store[n] == (SourceView {
        data: f.data,
        dtype: f.dtype,
        shape: f.shapes.weight,
        ..p.store[n]
    })
    &&& q.store.dom().contains(emit::companion(n, ".scales"@))
    &&& q.store[emit::companion(n, ".scales"@)] == side_tensor(
        emit::companion(n, ".scales"@),
        f.shapes.scales,
        f.scales,
    )
    &&& q.store.dom().contains(emit::companion(n, ".biases"@))
    &&& q.store[emit::companion(n, ".biases"@)] == side_tensor(
        emit::companion(n, ".biases"@),
        f.shapes.biases,
        f.biases,
    )
    &&& forall|j: int|
        0 <= j < p.spec.global_tensors.len() && (#[trigger] p.spec.global_tensors[j]).name == n
            && p.spec.global_tensors[j].packed is None ==> q.spec.global_tensors[j].packed == Some(
            f.shapes,
        )
    &&& forall|l: int, j: int|
        0 <= l < p.spec.layers.len() && 0 <= j < p.spec.layers[l].tensors.len() && (
        #[trigger] p.spec.layers[l].tensors[j]).name == n && p.spec.layers[l].tensors[j].packed is None
            ==> q.spec.layers[l].tensors[j].packed == Some(f.shapes)
}

/// Weights with different names have different companions.
proof fn lemma_companions_differ(n: Seq<char>, m: Seq<char>)
    requires
        text::has_suffix(n, ".weight"@),
        text::has_suffix(m, ".weight"@),
        n != m,
    ensures
        emit::companion(n, ".scales"@) != emit::companion(m, ".scales"@),
        emit::companion(n, ".biases"@) != emit::companion(m, ".biases"@),
        emit::companion(n, ".scales"@) != emit::companion(m, ".biases"@),
        emit::companion(n, ".biases"@) != emit::companion(m, ".scales"@),
{
    reveal_strlit(".weight");
    reveal_strlit(".scales");
    reveal_strlit(".biases");
    let a = n.take(n.len() - 7);
    let b = m.take(m.len() - 7);
    assert(n =~= a + ".weight"@) by {
        assert(n.subrange(n.len() - 7, n.len() as int) == ".weight"@);
        assert(n =~= n.take(n.len() - 7) + n.subrange(n.len() - 7, n.len() as int));
    }
    assert(m =~= b + ".weight"@) by {
        assert(m.subrange(m.len() - 7, m.len() as int) == ".weight"@);
        assert(m =~= m.take(m.len() - 7) + m.subrange(m.len() - 7, m.len() as int));
    }
    assert(a != b);
    let x = a + ".scales"@;
    let y = b + ".scales"@;
    let v = a + ".biases"@;
    let w = b + ".biases"@;
    assert(x.take(x.len() - 7) =~= a && y.take(y.len() - 7) =~= b);
    assert(v.take(v.len() - 7) =~= a && w.take(w.len() - 7) =~= b);
}

/// No weight is the scales or biases of another, nor has it what a packed one has.
#[verifier::spinoff_prover]
#[verifier::rlimit(30)]
proof fn lemma_weight_stays_quantized(
    p: Progress,
    q: Progress,
    n: Seq<char>,
    mode: CompileQuantMode,
    c: GroupCodes,
    m: Seq<char>,
    f: PackedTensorView,
)
    requires
        text::has_suffix(n, ".weight"@),
        text::has_suffix(m, ".weight"@),
        n != m,
        same_needs(p.spec, q.spec),
        is_weight_quantized(p, q, n, mode, c),
        q.store.dom().contains(m),
    ensures
        is_weight_quantized(
            p,
            Progress {
                store: with_packed(q.store, m, f),
                spec: with_shapes(q.spec, m, f.shapes),
                report: None,
            },
            n,
            mode,
            c,
        ),
{
    reveal(is_weight_quantized);
    lemma_companions_apart(n, m);
    lemma_companions_apart(m, n);
    lemma_companions_differ(n, m);
    let s = with_shapes(q.spec, m, f.shapes);
    let g = packed_form(p.store[n], mode, c);
    assert forall|j: int|
        0 <= j < p.spec.global_tensors.len() && (#[trigger] p.spec.global_tensors[j]).name == n
            && p.spec.global_tensors[j].packed is None implies s.global_tensors[j].packed == Some(
        g.shapes,
    ) by {
        assert(q.spec.global_tensors[j].name == n);
    }
    assert forall|l: int, j: int|
        0 <= l < p.spec.layers.len() && 0 <= j < p.spec.layers[l].tensors.len() && (
        #[trigger] p.spec.layers[l].tensors[j]).name == n
            && p.spec.layers[l].tensors[j].packed is None implies s.layers[l].tensors[j].packed
        == Some(g.shapes) by {
        assert(q.spec.layers[l].index == p.spec.layers[l].index);
        assert(q.spec.layers[l].tensors[j].name == n);
    }
}

/// Bindings of a weight that has not come up have no packed shapes but their own.
proof fn lemma_bindings_wait(
    p: Progress,
    names: Seq<Seq<char>>,
    mode: CompileQuantMode,
    codes: Seq<GroupCodes>,
    n: Seq<char>,
)
    requires
        forall|i: int| 0 <= i < names.len() ==> #[trigger] names[i] != n,
    ensures
        ({
            let q = weights_quantized(p, names, mode, codes);
            &&& forall|j: int|
                0 <= j < p.spec.global_tensors.len() && (
                #[trigger] p.spec.global_tensors[j]).name == n ==> q.spec.global_tensors[j]
                    == p.spec.global_tensors[j]
            &&& forall|l: int, j: int|
                0 <= l < p.spec.layers.len() && 0 <= j < p.spec.layers[l].tensors.len() && (
                #[trigger] p.spec.layers[l].tensors[j]).name == n ==> q.spec.layers[l].tensors[j]
                    == p.spec.layers[l].tensors[j]
        }),
    decreases names.len(),
{
    if names.len() > 0 {
        let rest = names.drop_last();
        assert forall|i: int| 0 <= i < rest.len() implies #[trigger] rest[i] != n by {
            assert(rest[i] == names[i]);
        }
        lemma_bindings_wait(p, rest, mode, codes, n);
        law_quantizing_keeps_needs(p, rest, mode, codes);
        let q = weights_quantized(p, rest, mode, codes);
        let r = weights_quantized(p, names, mode, codes);
        assert(names[names.len() - 1] != n);
        if r.spec != q.spec {
            let m = names.last();
            let f = packed_form(q.store[m], mode, codes[names.len() - 1]);
            assert(r.spec == with_shapes(q.spec, m, f.shapes));
            assert forall|j: int|
                0 <= j < p.spec.global_tensors.len() && (
                #[trigger] p.spec.global_tensors[j]).name == n implies r.spec.global_tensors[j]
                == p.spec.global_tensors[j] by {
                assert(q.spec.global_tensors[j] == p.spec.global_tensors[j]);
            }
            assert forall|l: int, j: int|
                0 <= l < p.spec.layers.len() && 0 <= j < p.spec.layers[l].tensors.len() && (
                #[trigger] p.spec.layers[l].tensors[j]).name == n implies r.spec.layers[l].tensors[j]
                == p.spec.layers[l].tensors[j] by {
                assert(q.spec.layers[l].index == p.spec.layers[l].index);
                assert(q.spec.layers[l].tensors[j] == p.spec.layers[l].tensors[j]);
            }
        }
    }
}

/// Where the weights of a source are quantized without a report, each of them is
/// there, each matrix of half-precision values or brain floats among them is quantized,
/// whatever its place in the list, and each other one stays as it was.
#[verifier::spinoff_prover]
#[verifier::rlimit(30)]
pub proof fn law_every_weight_is_quantized(
    p: Progress,
    names: Seq<Seq<char>>,
    mode: CompileQuantMode,
    codes: Seq<GroupCodes>,
    i: int,
)
    requires
        forall|j: int|
            0 <= j < names.len() ==> text::has_suffix(#[trigger] names[j], ".weight"@),
        weights_quantized(p, names, mode, codes).report is None,
        0 <= i < names.len(),
    ensures
        ({
            let q = weights_quantized(p, names, mode, codes);
            let n = names[i];
            let t = p.store[n];
            &&& p.store.dom().contains(n)
            &&& (t.dtype == "F16"@ || t.dtype == "BF16"@) && t.shape.len() == 2 ==> exists|j: int|
                0 <= j < names.len() && #[trigger] names[j] == n && is_weight_quantized(
                    p,
                    q,
                    n,
                    mode,
                    codes[j],
                )
            &&& !((t.dtype == "F16"@ || t.dtype == "BF16"@) && t.shape.len() == 2) ==> q.store[n]
                == t
        }),
    decreases names.len(),
{
    let rest = names.drop_last();
    let last = names.len() - 1;
    let m = names.last();
    let q = weights_quantized(p, rest, mode, codes);
    let r = weights_quantized(p, names, mode, codes);
    let n = names[i];
    assert(q.report is None);
    assert forall|j: int| 0 <= j < rest.len() implies text::has_suffix(
        #[trigger] rest[j],
        ".weight"@,
    ) by {
        assert(rest[j] == names[j]);
    }
    assert(names[last] == m);
    law_quantizing_keeps_needs(p, rest, mode, codes);
    lemma_weights_quantized(p, rest, mode, codes, n);
    lemma_weights_quantized(p, rest, mode, codes, m);
    lemma_companions_apart(n, m);
    assert(p.store.dom().contains(m));
    let earlier = exists|j: int| 0 <= j < rest.len() && #[trigger] rest[j] == n;
    if earlier {
        let k = choose|k: int| 0 <= k < rest.len() && #[trigger] rest[k] == n;
        law_every_weight_is_quantized(p, rest, mode, codes, k);
        if is_candidate(p.store[n]) {
            let j = choose|j: int|
                0 <= j < rest.len() && #[trigger] rest[j] == n && is_weight_quantized(
                    p,
                    q,
                    n,
                    mode,
                    codes[j],
                );
            assert(names[j] == n);
            lemma_next_weight_keeps(p, names, mode, codes, n, codes[j]);
        }
    } else {
        if i < last {
            assert(rest[i] == n);
        }
        assert(n == m);
        lemma_weight_waits(p, rest, mode, codes, n);
        if is_candidate(p.store[n]) {
            assert forall|j: int| 0 <= j < last implies #[trigger] names[j] != n by {
                assert(rest[j] == names[j]);
            }
            lemma_weight_comes_up(p, names, mode, codes);
            assert(names[last] == n);
        }
    }
}

/// A weight that was quantized stays so when the next one comes up.
proof fn lemma_next_weight_keeps(
    p: Progress,
    names: Seq<Seq<char>>,
    mode: CompileQuantMode,
    codes: Seq<GroupCodes>,
    n: Seq<char>,
    c: GroupCodes,
)
    requires
        names.len() > 0,
        text::has_suffix(n, ".weight"@),
        text::has_suffix(names.last(), ".weight"@),
        weights_quantized(p, names, mode, codes).report is None,
        is_weight_quantized(p, weights_quantized(p, names.drop_last(), mode, codes), n, mode, c),
    ensures
        is_weight_quantized(p, weights_quantized(p, names, mode, codes), n, mode, c),
{
    let rest = names.drop_last();
    let m = names.last();
    let q = weights_quantized(p, rest, mode, codes);
    law_quantizing_keeps_needs(p, rest, mode, codes);
    assert(!is_candidate(q.store[n])) by {
        reveal(is_weight_quantized);
        lemma_packed_is_done(q.store[n]);
    }
    if is_candidate(q.store[m]) {
        let f = packed_form(q.store[m], mode, codes[names.len() - 1]);
        lemma_weight_stays_quantized(p, q, n, mode, c, m, f);
    }
}

/// A weight that comes up for the first time, and is a candidate, is quantized.
#[verifier::spinoff_prover]
#[verifier::rlimit(30)]
proof fn lemma_weight_comes_up(
    p: Progress,
    names: Seq<Seq<char>>,
    mode: CompileQuantMode,
    codes: Seq<GroupCodes>,
)
    requires
        names.len() > 0,
        text::has_suffix(names.last(), ".weight"@),
        forall|j: int| 0 <= j < names.len() - 1 ==> #[trigger] names[j] != names.last(),
        weights_quantized(p, names, mode, codes).report is None,
        is_candidate(p.store[names.last()]),
    ensures
        is_weight_quantized(
            p,
            weights_quantized(p, names, mode, codes),
            names.last(),
            mode,
            codes[names.len() - 1],
        ),
{
    let rest = names.drop_last();
    let n = names.last();
    let q = weights_quantized(p, rest, mode, codes);
    let r = weights_quantized(p, names, mode, codes);
    assert forall|j: int| 0 <= j < rest.len() implies #[trigger] rest[j] != n by {
        assert(rest[j] == names[j]);
    }
    reveal(is_weight_quantized);
    law_quantizing_keeps_needs(p, rest, mode, codes);
    lemma_weight_waits(p, rest, mode, codes, n);
    lemma_bindings_wait(p, rest, mode, codes, n);
    lemma_companions_apart(n, n);
    lemma_own_companions_apart(n);
    let f = packed_form(q.store[n], mode, codes[names.len() - 1]);
    assert forall|j: int|
        0 <= j < p.spec.global_tensors.len() && (#[trigger] p.spec.global_tensors[j]).name == n
            && p.spec.global_tensors[j].packed is None implies r.spec.global_tensors[j].packed
        == Some(f.shapes) by {
        assert(q.spec.global_tensors[j] == p.spec.global_tensors[j]);
    }
    assert forall|l: int, j: int|
        0 <= l < p.spec.layers.len() && 0 <= j < p.spec.layers[l].tensors.len() && (
        #[trigger] p.spec.layers[l].tensors[j]).name == n
            && p.spec.layers[l].tensors[j].packed is None implies r.spec.layers[l].tensors[j].packed
        == Some(f.shapes) by {
        assert(q.spec.layers[l].index == p.spec.layers[l].index);
        assert(q.spec.layers[l].tensors[j] == p.spec.layers[l].tensors[j]);
    }
}

proof fn lemma_own_companions_apart(n: Seq<char>)
    ensures
        emit::companion(n, ".scales"@) != emit::companion(n, ".biases"@),
{
    lemma_endings_apart(text::without_suffix(n, ".weight"@));
}

/// A weight that has not come up is as it was.
proof fn lemma_weight_waits(
    p: Progress,
    names: Seq<Seq<char>>,
    mode: CompileQuantMode,
    codes: Seq<GroupCodes>,
    n: Seq<char>,
)
    requires
        text::has_suffix(n, ".weight"@),
        forall|j: int| 0 <= j < names.len() ==> #[trigger] names[j] != n,
    ensures
        ({
            let q = weights_quantized(p, names, mode, codes);
            &&& q.store.dom().contains(n) == p.store.dom().contains(n)
            &&& p.store.dom().contains(n) ==> q.store[n] == p.store[n]
        }),
    decreases names.len(),
{
    if names.len() > 0 {
        let rest = names.drop_last();
        assert forall|j: int| 0 <= j < rest.len() implies #[trigger] rest[j] != n by {
            assert(rest[j] == names[j]);
        }
        lemma_weight_waits(p, rest, mode, codes, n);
        lemma_companions_apart(n, names.last());
        assert(names[names.len() - 1] != n);
    }
}

/// The weights of an execution are exactly the tensors of it, of no layer or of a
/// layer, whose names end in `.weight`.
pub proof fn law_weights_are_named_so(spec: &ExecutionSpec, names: Vec<String>, n: Seq<char>)
    requires
        call_ensures(weight_names, (spec,), names),
    ensures
        (exists|i: int| 0 <= i < names@.len() && (#[trigger] names@[i])@ == n) == (text::has_suffix(
            n,
            ".weight"@,
        ) && ((exists|j: int|
            0 <= j < spec@.global_tensors.len() && (#[trigger] spec@.global_tensors[j]).name == n)
            || (exists|l: int, j: int|
            0 <= l < spec@.layers.len() && 0 <= j < spec@.layers[l].tensors.len() && (
            #[trigger] spec@.layers[l].tensors[j]).name == n))),
{
    let keys = crate::order::views(names@);
    lemma_among(spec@.global_tensors, n);
    lemma_of_layers(spec@.layers, n);
    let a = weights_among(spec@.global_tensors);
    let b = weights_of_layers(spec@.layers);
    assert(keys == a + b);
    lemma_sum_contains(a, b, n);
    if exists|i: int| 0 <= i < names@.len() && (#[trigger] names@[i])@ == n {
        let i = choose|i: int| 0 <= i < names@.len() && (#[trigger] names@[i])@ == n;
        assert(keys[i] == n);
    }
    if keys.contains(n) {
        let i = choose|i: int| 0 <= i < keys.len() && keys[i] == n;
        assert(names@[i]@ == n);
    }
}

proof fn lemma_sum_contains(a: Seq<Seq<char>>, b: Seq<Seq<char>>, n: Seq<char>)
    ensures
        (a + b).contains(n) == (a.contains(n) || b.contains(n)),
{
    let s = a + b;
    if s.contains(n) {
        let i = choose|i: int| 0 <= i < s.len() && s[i] == n;
        if i < a.len() {
            assert(a[i] == n);
        } else {
            assert(b[i - a.len()] == n);
        }
    }
    if a.contains(n) {
        let i = choose|i: int| 0 <= i < a.len() && a[i] == n;
        assert(s[i] == n);
    }
    if b.contains(n) {
        let i = choose|i: int| 0 <= i < b.len() && b[i] == n;
        assert(s[a.len() + i] == n);
    }
}

proof fn lemma_among(bs: Seq<BindingView>, n: Seq<char>)
    ensures
        weights_among(bs).contains(n) == (text::has_suffix(n, ".weight"@) && exists|j: int|
            0 <= j < bs.len() && (#[trigger] bs[j]).name == n),
    decreases bs.len(),
{
    if bs.len() > 0 {
        let rest = bs.drop_last();
        let x = bs.last();
        lemma_among(rest, n);
        let w = weights_among(rest);
        assert(bs[bs.len() - 1] == x);
        assert(w.push(x.name).contains(n) == (w.contains(n) || n == x.name)) by {
            assert(w.push(x.name) =~= w + seq![x.name]);
            lemma_sum_contains(w, seq![x.name], n);
            assert(seq![x.name][0] == x.name);
        }
        if exists|j: int| 0 <= j < bs.len() && (#[trigger] bs[j]).name == n {
            let j = choose|j: int| 0 <= j < bs.len() && (#[trigger] bs[j]).name == n;
            if j < rest.len() {
                assert(rest[j].name == n);
            }
        }
        if exists|j: int| 0 <= j < rest.len() && (#[trigger] rest[j]).name == n {
            let j = choose|j: int| 0 <= j < rest.len() && (#[trigger] rest[j]).name == n;
            assert(bs[j].name == n);
        }
    }
}

proof fn lemma_of_layers(ls: Seq<LayerView>, n: Seq<char>)
    ensures
        weights_of_layers(ls).contains(n) == (text::has_suffix(n, ".weight"@) && exists|
            l: int,
            j: int,
        |
            0 <= l < ls.len() && 0 <= j < ls[l].tensors.len() && (#[trigger] ls[l].tensors[j]).name
                == n),
    decreases ls.len(),
{
    if ls.len() > 0 {
        let rest = ls.drop_last();
        let x = ls.last();
        lemma_of_layers(rest, n);
        lemma_among(x.tensors, n);
        lemma_sum_contains(weights_of_layers(rest), weights_among(x.tensors), n);
        assert(ls[ls.len() - 1] == x);
        if exists|l: int, j: int|
            0 <= l < ls.len() && 0 <= j < ls[l].tensors.len() && (#[trigger] ls[l].tensors[j]).name
                == n {
            let (l, j) = choose|l: int, j: int|
                0 <= l < ls.len() && 0 <= j < ls[l].tensors.len() && (
                #[trigger] ls[l].tensors[j]).name == n;
            if l < rest.len() {
                assert(rest[l].tensors[j].name == n);
            } else {
                assert(x.tensors[j].name == n);
            }
        }
        if exists|l: int, j: int|
            0 <= l < rest.len() && 0 <= j < rest[l].tensors.len() && (
            #[trigger] rest[l].tensors[j]).name == n {
            let (l, j) = choose|l: int, j: int|
                0 <= l < rest.len() && 0 <= j < rest[l].tensors.len() && (
                #[trigger] rest[l].tensors[j]).name == n;
            assert(ls[l].tensors[j].name == n);
        }
        if exists|j: int| 0 <= j < x.tensors.len() && (#[trigger] x.tensors[j]).name == n {
            let j = choose|j: int| 0 <= j < x.tensors.len() && (#[trigger] x.tensors[j]).name == n;
            assert(ls[ls.len() - 1].tensors[j].name == n);
        }
    }
}

/// The values of a weight are those of its elements, two bytes each, the lower first:
/// a brain float is the upper half of the single-precision value, and a half-precision
/// element of the normal range keeps its sign, its fraction and its exponent, which is
/// counted from 127 in place of 15.
#[verifier::spinoff_prover]
#[verifier::rlimit(30)]
pub proof fn law_values_are_those_of_the_elements(
    store: &NameTable<SourceTensor>,
    name: &str,
    task: WeightTask,
    i: int,
)
    requires
        store.wf(),
        call_ensures(
            weight_task,
            (store, name),
            Ok::<Option<WeightTask>, String>(Some(task)),
        ),
        0 <= i < task.values@.len(),
    ensures
        ({
            let t = store@[name@];
            let h = t.data@[2 * i] + 0x100 * t.data@[2 * i + 1];
            let sign = if h >= 0x8000 {
                0x8000_0000int
            } else {
                0
            };
            let e = h / 0x400 % 32;
            let m = h % 0x400;
            &&& task.values@.len() == t.data@.len() / 2
            &&& task.out_dim == t.shape@[0]
            &&& task.in_dim == t.shape@[1]
            &&& t.dtype@ == "BF16"@ ==> task.values@[i] == 0x1_0000 * h
            &&& t.dtype@ == "F16"@ && 1 <= e <= 30 ==> task.values@[i] == sign + (e + 112)
                * 0x80_0000 + m * 0x2000
            &&& t.dtype@ == "F16"@ && e == 31 ==> task.values@[i] == sign + 0x7F80_0000 + m * 0x2000
            &&& t.dtype@ == "F16"@ && e == 0 && m == 0 ==> task.values@[i] == sign
            &&& t.dtype@ == "F16"@ && e == 0 && m != 0 ==> (task.values@[i] >= 0x8000_0000) == (
            sign != 0) && float_bits::magnitude(task.values@[i] as int % 0x8000_0000) == m
                * float_bits::two_to(125)
        }),
{
    let t = store@[name@]@;
    let part = t.data.subrange(2 * i, 2 * i + 2);
    wire::law_two_bytes_make_a_half(part);
    let h = wire::le_value(part);
    assert(h == t.data[2 * i] + 0x100 * t.data[2 * i + 1]);
    assert("F16"@ != "BF16"@) by {
        reveal_strlit("F16");
        reveal_strlit("BF16");
        assert("F16"@.len() == 3 && "BF16"@.len() == 4);
    }
    float_bits::lemma_widened(h as u16);
}

/// The scheme that is asked for is the one that a weight is packed by: its own packing
/// function for a ternary scheme, and the codes of the weight for an affine one, four
/// bits each for `Nf4` and eight for `Af8`.
pub proof fn law_form_is_of_the_scheme(
    t: SourceView,
    values: &Vec<u32>,
    group_size: u32,
    codes: GroupCodes,
    two_bit: PackedTensor,
    tiled: PackedTensor,
)
    requires
        values@ == single_values(t),
        t.shape.len() == 2,
        call_ensures(pack_ternary, (values, t.shape[0], t.shape[1], group_size), two_bit),
        call_ensures(pack_tile640, (values, t.shape[0], t.shape[1], group_size), tiled),
    ensures
        ({
            let ternary = packed_form(t, CompileQuantMode::Ternary { group_size }, codes);
            let tile = packed_form(t, CompileQuantMode::TernaryTile640 { group_size }, codes);
            let nf4 = packed_form(t, CompileQuantMode::Nf4 { group_size }, codes);
            let af8 = packed_form(t, CompileQuantMode::Af8 { group_size }, codes);
            &&& ternary == two_bit@
            &&& tile == tiled@
            &&& nf4.shapes.bits == 4
            &&& nf4.shapes.group_size == group_size
            &&& nf4.scales == word_bytes(codes.words.map_values(|g: WordGroup| g.scale_bits))
            &&& nf4.shapes.weight[0] == t.shape[0]
            &&& nf4.shapes.weight[1] == (t.shape[1] + 7) / 8
            &&& af8.shapes.bits == 8
            &&& af8.shapes.group_size == group_size
            &&& af8.scales == word_bytes(codes.bytes.map_values(|g: ByteGroup| g.scale_bits))
            &&& af8.shapes.weight[0] == t.shape[0]
            &&& af8.shapes.weight[1] == t.shape[1] / 4
        }),
{
}

/// Every name on the list of weights of an execution ends as those of weights do.
pub proof fn lemma_every_name_is_a_weight(e: ExecutionView)
    ensures
        forall|j: int|
            0 <= j < weights_of(e).len() ==> text::has_suffix(
                #[trigger] weights_of(e)[j],
                ".weight"@,
            ),
{
    let names = weights_of(e);
    assert forall|j: int| 0 <= j < names.len() implies text::has_suffix(
        #[trigger] names[j],
        ".weight"@,
    ) by {
        assert(names.contains(names[j]));
        lemma_weights_are_weights(e, names[j]);
    }
}

/// Where weights are quantized without a report, by groups of codes that the codes of the
/// schemes give for the weights as they stand, each weight that is quantized is so by
/// codes that are given for its own values.
pub proof fn law_weight_is_quantized_by_its_codes<
    N: Fn(Vec<u32>) -> WordGroup,
    B: Fn(Vec<u32>) -> ByteGroup,
>(
    p: Progress,
    names: Seq<Seq<char>>,
    mode: CompileQuantMode,
    codes: Seq<GroupCodes>,
    nf4: N,
    af8: B,
    i: int,
) -> (c: GroupCodes)
    requires
        forall|j: int|
            0 <= j < names.len() ==> text::has_suffix(#[trigger] names[j], ".weight"@),
        is_coding(p, names, mode, codes, nf4, af8),
        weights_quantized(p, names, mode, codes).report is None,
        0 <= i < names.len(),
    ensures
        ({
            let q = weights_quantized(p, names, mode, codes);
            let n = names[i];
            let t = p.store[n];
            &&& p.store.dom().contains(n)
            &&& (t.dtype == "F16"@ || t.dtype == "BF16"@) && t.shape.len() == 2
                ==> is_weight_quantized(p, q, n, mode, c) && are_codes_of(t, mode, c, nf4, af8)
            &&& !((t.dtype == "F16"@ || t.dtype == "BF16"@) && t.shape.len() == 2) ==> q.store[n]
                == t
        }),
{
    let n = names[i];
    let q = weights_quantized(p, names, mode, codes);
    law_every_weight_is_quantized(p, names, mode, codes, i);
    if is_candidate(p.store[n]) {
        let k = lemma_first_place(names, n, i);
        assert forall|j: int| 0 <= j < k implies #[trigger] names[j] != n by {}
        let upto = names.take(k + 1);
        let before = names.take(k);
        assert(upto.drop_last() =~= before);
        assert(upto.last() == n);
        lemma_no_report_before(p, names, k + 1, mode, codes);
        assert forall|j: int| 0 <= j < upto.len() - 1 implies #[trigger] upto[j] != upto.last() by {
            assert(upto[j] == names[j]);
        }
        lemma_weight_comes_up(p, upto, mode, codes);
        lemma_stays_to_the_end(p, names, mode, codes, n, codes[k], k + 1);
        assert(names.take(names.len() as int) =~= names);
        assert forall|j: int| 0 <= j < before.len() implies #[trigger] before[j] != n by {
            assert(before[j] == names[j]);
        }
        lemma_weight_waits(p, before, mode, codes, n);
        assert(is_coded_at(p, names, mode, codes, nf4, af8, k));
        lemma_no_report_before(p, names, k, mode, codes);
        codes[k]
    } else {
        codes[i]
    }
}

proof fn lemma_first_place(names: Seq<Seq<char>>, n: Seq<char>, i: int) -> (k: int)
    requires
        0 <= i < names.len(),
        names[i] == n,
    ensures
        0 <= k <= i,
        names[k] == n,
        forall|j: int| 0 <= j < k ==> #[trigger] names[j] != n,
    decreases i,
{
    if exists|j: int| 0 <= j < i && #[trigger] names[j] == n {
        let j = choose|j: int| 0 <= j < i && #[trigger] names[j] == n;
        lemma_first_place(names, n, j)
    } else {
        i
    }
}

proof fn lemma_no_report_before(
    p: Progress,
    names: Seq<Seq<char>>,
    k: int,
    mode: CompileQuantMode,
    codes: Seq<GroupCodes>,
)
    requires
        0 <= k <= names.len(),
        weights_quantized(p, names, mode, codes).report is None,
    ensures
        weights_quantized(p, names.take(k), mode, codes).report is None,
{
    if weights_quantized(p, names.take(k), mode, codes).report is Some {
        lemma_report_stays(p, names, k, mode, codes);
    }
}

proof fn lemma_stays_to_the_end(
    p: Progress,
    names: Seq<Seq<char>>,
    mode: CompileQuantMode,
    codes: Seq<GroupCodes>,
    n: Seq<char>,
    c: GroupCodes,
    k: int,
)
    requires
        forall|j: int|
            0 <= j < names.len() ==> text::has_suffix(#[trigger] names[j], ".weight"@),
        text::has_suffix(n, ".weight"@),
        0 <= k <= names.len(),
        weights_quantized(p, names, mode, codes).report is None,
        is_weight_quantized(p, weights_quantized(p, names.take(k), mode, codes), n, mode, c),
    ensures
        is_weight_quantized(p, weights_quantized(p, names, mode, codes), n, mode, c),
    decreases names.len() - k,
{
    if k < names.len() {
        let next = names.take(k + 1);
        assert(next.drop_last() =~= names.take(k));
        assert(next.last() == names[k]);
        lemma_no_report_before(p, names, k + 1, mode, codes);
        lemma_next_weight_keeps(p, next, mode, codes, n, c);
        lemma_stays_to_the_end(p, names, mode, codes, n, c, k + 1);
    } else {
        assert(names.take(k) =~= names);
    }
}

} // verus!
