//! Compilation of a computation for Tensix cards.
//!
//! Every operation becomes one kernel, and every tensor that an operation puts
//! out gets a place in the memory of the card, the first time it is put out.

use std::collections::hash_map::DefaultHasher;
use std::hash::Hasher;
use vstd::prelude::*;
use vstd::string::*;

use crate::compute_ir;
use crate::compute_ir::{ComputeExecutionIR, IROp, IrTensor, IrTensorView, OpView};
use crate::hashing;
use crate::numeral;
use crate::order;
use crate::table;
use crate::tensix;
use crate::tensix::{
    BindingView, CardCoord, DataFormat, GoldenPath, KernelConfig, KernelType, KernelView,
    MathFidelity, TensixArch, TensixComputeImage, TensorBinding,
};
use crate::text;

verus! {

// ---------------------------------------------------------------------------
// Operations
// ---------------------------------------------------------------------------

/// A number in the metadata of an operation, or the default where there is none
/// or it is not a numeral of 64 bits.
pub open spec fn metadata_value(op: OpView, key: Seq<char>, default: nat) -> nat {
    if op.metadata.dom().contains(key) {
        match numeral::numeral_value(op.metadata[key], u64::MAX as nat) {
            Some(n) => n,
            None => default,
        }
    } else {
        default
    }
}

fn metadata_number(op: &IROp, key: &str, default: u64) -> (r: u64)
    requires
        op.wf(),
    ensures
        r == metadata_value(op@, key@, default as nat),
{
    match op.metadata.get(key) {
        Some(v) => match numeral::parse_numeral(v.as_str(), u64::MAX) {
            Some(n) => n,
            None => default,
        },
        None => default,
    }
}

/// What an operation asks of the cores.
pub ghost struct Work {
    pub kernel_type: KernelType,
    pub math_fidelity: MathFidelity,
    pub cycles: int,
    pub cores: int,
}

pub open spec fn work(t: KernelType, f: MathFidelity, cycles: int, cores: int) -> Option<Work> {
    Some(Work { kernel_type: t, math_fidelity: f, cycles, cores })
}

/// The multiplications of a matrix product, where its three dimensions are known.
pub open spec fn product_size(op: OpView) -> int {
    (metadata_value(op, "m"@, 0) * metadata_value(op, "n"@, 0) * metadata_value(op, "k"@, 0)) as int
}

pub open spec fn knows_product(op: OpView) -> bool {
    &&& metadata_value(op, "m"@, 0) > 0
    &&& metadata_value(op, "n"@, 0) > 0
    &&& metadata_value(op, "k"@, 0) > 0
}

/// The cores that a matrix product of `m` rows is spread over.
pub open spec fn product_cores(m: int) -> int {
    if m >= 64 {
        8
    } else if m >= 16 {
        4
    } else {
        1
    }
}

/// What an operation asks of the cores, if there is a kernel for its kind.
pub open spec fn work_of(op: OpView) -> Option<Work> {
    if op.kind == "matmul"@ {
        work(
            KernelType::Math,
            MathFidelity::HiFi3,
            if knows_product(op) {
                product_size(op) / 8
            } else {
                100
            },
            product_cores(metadata_value(op, "m"@, 0) as int),
        )
    } else if op.kind == "rms_norm"@ || op.kind == "rmsnorm"@ {
        work(KernelType::Math, MathFidelity::HiFi4, (metadata_value(op, "dim"@, 4096) * 2) as int, 1)
    } else if op.kind == "softmax"@ {
        work(KernelType::Math, MathFidelity::LoFi, metadata_value(op, "dim"@, 4096) as int, 1)
    } else if op.kind == "silu"@ || op.kind == "silu_activation"@ {
        work(KernelType::Math, MathFidelity::LoFi, 10, 1)
    } else if op.kind == "add"@ || op.kind == "residual_add"@ || op.kind == "residual"@ {
        work(KernelType::Relu, MathFidelity::LoFi, 2, 1)
    } else if op.kind == "rope"@ || op.kind == "rotary_embedding"@ {
        work(KernelType::Math, MathFidelity::HiFi4, 20, 1)
    } else if op.kind == "sdpa"@ || op.kind == "scaled_dot_product_attention"@ {
        work(KernelType::Math, MathFidelity::HiFi3, 200, 4)
    } else if op.kind == "kv_cache"@ || op.kind == "kvcache"@ {
        work(KernelType::Relu, MathFidelity::LoFi, 5, 1)
    } else {
        None
    }
}

/// The work can be counted in 64 bits.
pub open spec fn work_fits(op: OpView) -> bool {
    if op.kind == "matmul"@ {
        knows_product(op) ==> product_size(op) <= u64::MAX
    } else if op.kind == "rms_norm"@ || op.kind == "rmsnorm"@ {
        metadata_value(op, "dim"@, 4096) * 2 <= u64::MAX
    } else {
        true
    }
}

pub open spec fn first_or(ids: Seq<Seq<char>>, default: Seq<char>) -> Seq<char> {
    if ids.len() > 0 {
        ids[0]
    } else {
        default
    }
}

/// The name of an operation's kernel: by its label, or else by its first input
/// and output.
pub open spec fn kernel_name(op: OpView) -> Seq<char> {
    if op.metadata.dom().contains("name"@) {
        op.metadata["name"@] + "_"@ + op.kind
    } else {
        first_or(op.inputs, "in"@) + "_"@ + op.kind + "_"@ + first_or(op.outputs, "out"@)
    }
}

pub open spec fn kernel_of(op: OpView, w: Work) -> KernelView {
    KernelView {
        name: kernel_name(op),
        kernel_type: w.kernel_type,
        math_fidelity: w.math_fidelity,
        tile_dims: (32, 32),
        data_format: DataFormat::BFloat16,
    }
}

pub open spec fn unsupported(kind: Seq<char>) -> Seq<char> {
    "unsupported op for Tensix: "@ + kind
}

fn op_work(op: &IROp) -> (r: Option<(KernelType, MathFidelity, u64, u32)>)
    requires
        op.wf(),
        work_fits(op@),
    ensures
        match r {
            Some(w) => work_of(op@) == work(w.0, w.1, w.2 as int, w.3 as int),
            None => work_of(op@) is None,
        },
{
    let kind: &str = op.kind.as_str();
    if text::same_text(kind, "matmul") {
        let m: u64 = metadata_number(op, "m", 0);
        let n: u64 = metadata_number(op, "n", 0);
        let k: u64 = metadata_number(op, "k", 0);
        let cores: u32 = if m >= 64 {
            8
        } else if m >= 16 {
            4
        } else {
            1
        };
        let cycles: u64 = if m > 0 && n > 0 && k > 0 {
            assert(m * n <= m * n * k) by (nonlinear_arith)
                requires
                    m > 0,
                    n > 0,
                    k > 0,
            ;
            m * n * k / 8
        } else {
            100
        };
        Some((KernelType::Math, MathFidelity::HiFi3, cycles, cores))
    } else if text::same_text(kind, "rms_norm") || text::same_text(kind, "rmsnorm") {
        let dim: u64 = metadata_number(op, "dim", 4096);
        Some((KernelType::Math, MathFidelity::HiFi4, dim * 2, 1))
    } else if text::same_text(kind, "softmax") {
        let dim: u64 = metadata_number(op, "dim", 4096);
        Some((KernelType::Math, MathFidelity::LoFi, dim, 1))
    } else if text::same_text(kind, "silu") || text::same_text(kind, "silu_activation") {
        Some((KernelType::Math, MathFidelity::LoFi, 10, 1))
    } else if text::same_text(kind, "add") || text::same_text(kind, "residual_add")
        || text::same_text(kind, "residual") {
        Some((KernelType::Relu, MathFidelity::LoFi, 2, 1))
    } else if text::same_text(kind, "rope") || text::same_text(kind, "rotary_embedding") {
        Some((KernelType::Math, MathFidelity::HiFi4, 20, 1))
    } else if text::same_text(kind, "sdpa") || text::same_text(
        kind,
        "scaled_dot_product_attention",
    ) {
        Some((KernelType::Math, MathFidelity::HiFi3, 200, 4))
    } else if text::same_text(kind, "kv_cache") || text::same_text(kind, "kvcache") {
        Some((KernelType::Relu, MathFidelity::LoFi, 5, 1))
    } else {
        None
    }
}

fn first_text<'a>(ids: &'a Vec<String>, default: &'static str) -> (r: &'a str)
    ensures
        r@ == first_or(order::views(ids@), default@),
{
    if ids.len() > 0 {
        ids[0].as_str()
    } else {
        default
    }
}

fn name_kernel(op: &IROp) -> (r: String)
    requires
        op.wf(),
    ensures
        r@ == kernel_name(op@),
{
    match op.metadata.get("name") {
        Some(label) => text::join3(label.as_str(), "_", op.kind.as_str()),
        None => {
            let mut r: String = text::join3(
                first_text(&op.input_tensors, "in"),
                "_",
                op.kind.as_str(),
            );
            r.append("_");
            r.append(first_text(&op.output_tensors, "out"));
            r
        },
    }
}

/// The kernel of an operation, with the cycles and the cores that it takes.
pub fn map_op_to_tensix_kernel(op: &IROp, _arch: TensixArch) -> (r: Result<
    (KernelConfig, u64, u32),
    String,
>)
    requires
        op.wf(),
        work_fits(op@),
    ensures
        match r {
            Ok(k) => match work_of(op@) {
                Some(w) => k.0@ == kernel_of(op@, w) && k.1 == w.cycles && k.2 == w.cores,
                None => false,
            },
            Err(e) => work_of(op@) is None && e@ == unsupported(op.kind@),
        },
{
    match op_work(op) {
        Some(w) => Ok(
            (
                KernelConfig {
                    name: name_kernel(op),
                    kernel_type: w.0,
                    math_fidelity: w.1,
                    tile_dims: (32, 32),
                    data_format: DataFormat::BFloat16,
                },
                w.2,
                w.3,
            ),
        ),
        None => Err(text::join2("unsupported op for Tensix: ", op.kind.as_str())),
    }
}

// ---------------------------------------------------------------------------
// Tensors
// ---------------------------------------------------------------------------

/// The bytes of one element.
pub open spec fn element_bytes(dtype: Seq<char>) -> int {
    if dtype == "float32"@ || dtype == "uint32"@ || dtype == "int32"@ {
        4
    } else if dtype == "float16"@ || dtype == "bfloat16"@ || dtype == "bf16"@ || dtype == "fp16"@ {
        2
    } else if dtype == "int8"@ || dtype == "uint8"@ || dtype == "i8"@ || dtype == "u8"@ {
        1
    } else {
        2
    }
}

/// The elements of a tensor.
pub open spec fn element_count(shape: Seq<u32>) -> int
    decreases shape.len(),
{
    if shape.len() == 0 {
        1
    } else {
        element_count(shape.drop_last()) * shape.last()
    }
}

/// The bytes of a tensor.
pub open spec fn tensor_bytes(t: IrTensorView) -> int {
    element_count(t.physical_shape) * element_bytes(t.physical_dtype)
}

/// The bytes of a tensor can be counted in 64 bits.
pub open spec fn tensor_fits(t: IrTensorView) -> bool {
    &&& forall|k: int|
        0 <= k <= t.physical_shape.len() ==> #[trigger] element_count(t.physical_shape.take(k))
            <= u64::MAX
    &&& tensor_bytes(t) <= u64::MAX
}

/// The bytes of a tensor.
pub fn tensor_byte_size(tensor: &IrTensor) -> (r: u64)
    requires
        tensor_fits(tensor@),
    ensures
        r == tensor_bytes(tensor@),
{
    let dtype: &str = tensor.physical_dtype.as_str();
    let size: u64 = if text::same_text(dtype, "float32") || text::same_text(dtype, "uint32")
        || text::same_text(dtype, "int32") {
        4
    } else if text::same_text(dtype, "float16") || text::same_text(dtype, "bfloat16")
        || text::same_text(dtype, "bf16") || text::same_text(dtype, "fp16") {
        2
    } else if text::same_text(dtype, "int8") || text::same_text(dtype, "uint8")
        || text::same_text(dtype, "i8") || text::same_text(dtype, "u8") {
        1
    } else {
        2
    };
    let shape: &Vec<u32> = &tensor.physical_shape;
    let mut count: u64 = 1;
    let mut i: usize = 0;
    while i < shape.len()
        invariant
            i <= shape@.len(),
            shape@ == tensor@.physical_shape,
            tensor_fits(tensor@),
            count == element_count(shape@.take(i as int)),
        decreases shape@.len() - i,
    {
        proof {
            assert(shape@.take(i + 1).drop_last() =~= shape@.take(i as int));
            assert(element_count(shape@.take(i + 1)) <= u64::MAX);
        }
        count = count * shape[i] as u64;
        i = i + 1;
    }
    assert(shape@.take(shape@.len() as int) =~= shape@);
    count * size
}

proof fn lemma_count_is_product(shape: Seq<u32>)
    ensures
        element_count(shape) == shape.fold_left(1int, |n: int, d: u32| n * d),
    decreases shape.len(),
{
    if shape.len() > 0 {
        lemma_count_is_product(shape.drop_last());
    }
}

/// A tensor takes its number of elements, the product of its dimensions, times four
/// bytes where they are 32 bits wide, two where they are 16 bits wide or of no type
/// that is known, and one where they are bytes.
pub proof fn law_size_goes_by_element_type(tensor: &IrTensor, size: u64)
    requires
        call_ensures(tensor_byte_size, (tensor,), size),
    ensures
        ({
            let n = tensor.physical_shape@.fold_left(1int, |n: int, d: u32| n * d);
            let dtype = tensor.physical_dtype@;
            &&& dtype == "float32"@ || dtype == "uint32"@ || dtype == "int32"@ ==> size == 4 * n
            &&& dtype == "float16"@ || dtype == "fp16"@ || dtype == "bfloat16"@ || dtype == "bf16"@
                ==> size == 2 * n
            &&& dtype == "int8"@ || dtype == "uint8"@ || dtype == "i8"@ || dtype == "u8"@ ==> size
                == n
            &&& dtype != "float32"@ && dtype != "uint32"@ && dtype != "int32"@ && dtype != "int8"@
                && dtype != "uint8"@ && dtype != "i8"@ && dtype != "u8"@ ==> size == 2 * n
        }),
{
    lemma_dtypes_differ();
    lemma_count_is_product(tensor.physical_shape@);
}

/// Of equal shapes, a tensor of 32-bit elements takes twice the bytes of one of
/// 16-bit elements, and this twice those of one of bytes.
pub proof fn law_sizes_double(
    wide: &IrTensor,
    half: &IrTensor,
    byte: &IrTensor,
    w: u64,
    h: u64,
    b: u64,
)
    requires
        wide.physical_shape@ == half.physical_shape@,
        byte.physical_shape@ == half.physical_shape@,
        wide.physical_dtype@ == "float32"@ || wide.physical_dtype@ == "uint32"@
            || wide.physical_dtype@ == "int32"@,
        half.physical_dtype@ == "float16"@ || half.physical_dtype@ == "fp16"@
            || half.physical_dtype@ == "bfloat16"@ || half.physical_dtype@ == "bf16"@,
        byte.physical_dtype@ == "int8"@ || byte.physical_dtype@ == "uint8"@
            || byte.physical_dtype@ == "i8"@ || byte.physical_dtype@ == "u8"@,
        call_ensures(tensor_byte_size, (wide,), w),
        call_ensures(tensor_byte_size, (half,), h),
        call_ensures(tensor_byte_size, (byte,), b),
    ensures
        w == 2 * h,
        h == 2 * b,
{
    law_size_goes_by_element_type(wide, w);
    law_size_goes_by_element_type(half, h);
    law_size_goes_by_element_type(byte, b);
}

/// No two names of element types of different widths are the same.
proof fn lemma_dtypes_differ()
    ensures
        "float32"@.len() == 7,
        "uint32"@.len() == 6,
        "int32"@.len() == 5,
        "float16"@.len() == 7,
        "bfloat16"@.len() == 8,
        "bf16"@.len() == 4,
        "fp16"@.len() == 4,
        "int8"@.len() == 4,
        "uint8"@.len() == 5,
        "i8"@.len() == 2,
        "u8"@.len() == 2,
        "float16"@ != "float32"@,
        "int8"@ != "bf16"@,
        "int8"@ != "fp16"@,
        "uint8"@ != "int32"@,
{
    reveal_strlit("float32");
    reveal_strlit("uint32");
    reveal_strlit("int32");
    reveal_strlit("float16");
    reveal_strlit("bfloat16");
    reveal_strlit("bf16");
    reveal_strlit("fp16");
    reveal_strlit("int8");
    reveal_strlit("uint8");
    reveal_strlit("i8");
    reveal_strlit("u8");
    assert("float16"@[5] == '1' && "float32"@[5] == '3');
    assert("int8"@[0] == 'i' && "bf16"@[0] == 'b' && "fp16"@[0] == 'f');
    assert("uint8"@[0] == 'u' && "int32"@[0] == 'i');
}

/// The places of the tensors in the memory of the card.
#[verifier::ext_equal]
pub ghost struct Layout {
    pub bindings: Seq<BindingView>,
    pub dram: int,
    /// Everything so far can be counted in 64 bits.
    pub fits: bool,
}

pub open spec fn is_bound(bindings: Seq<BindingView>, name: Seq<char>) -> bool {
    exists|i: int| 0 <= i < bindings.len() && (#[trigger] bindings[i]).tensor_name == name
}

/// A tensor gets the next place, unless its name has one.
pub open spec fn with_tensor(l: Layout, t: IrTensorView, slot: int) -> Layout {
    if is_bound(l.bindings, t.name) {
        Layout { fits: l.fits && tensor_fits(t), ..l }
    } else {
        Layout {
            bindings: l.bindings.push(
                BindingView {
                    tensor_name: t.name,
                    buffer_slot: slot,
                    byte_offset: l.dram,
                    byte_size: tensor_bytes(t),
                    tile_shape: (32, 32),
                },
            ),
            dram: l.dram + tensor_bytes(t),
            fits: l.fits && tensor_fits(t) && l.dram + tensor_bytes(t) <= u64::MAX,
        }
    }
}

/// The tensors that an operation puts out get places; an id of no tensor gets
/// none.
pub open spec fn with_outputs(
    tensors: Seq<IrTensorView>,
    l: Layout,
    ids: Seq<Seq<char>>,
    slot: int,
) -> Layout
    decreases ids.len(),
{
    if ids.len() == 0 {
        l
    } else {
        let before = with_outputs(tensors, l, ids.drop_last(), slot);
        match compute_ir::tensor_of_id(tensors, ids.last()) {
            Some(t) => with_tensor(before, t, slot),
            None => before,
        }
    }
}

proof fn lemma_outputs_fit(tensors: Seq<IrTensorView>, l: Layout, ids: Seq<Seq<char>>, slot: int, k: int)
    requires
        0 <= k <= ids.len(),
        with_outputs(tensors, l, ids, slot).fits,
    ensures
        with_outputs(tensors, l, ids.take(k), slot).fits,
        l.fits,
    decreases ids.len(),
{
    if k < ids.len() {
        lemma_outputs_fit(tensors, l, ids.drop_last(), slot, k);
        assert(ids.drop_last().take(k) =~= ids.take(k));
    } else {
        assert(ids.take(k) =~= ids);
        if ids.len() > 0 {
            lemma_outputs_fit(tensors, l, ids.drop_last(), slot, k - 1);
        }
    }
}

fn find_binding(bindings: &Vec<TensorBinding>, name: &str) -> (r: bool)
    ensures
        r == is_bound(tensix::binding_views(bindings@), name@),
{
    let mut i: usize = 0;
    while i < bindings.len()
        invariant
            i <= bindings@.len(),
            forall|j: int| 0 <= j < i ==> (#[trigger] bindings@[j]).tensor_name@ != name@,
        decreases bindings@.len() - i,
    {
        if text::same_text(bindings[i].tensor_name.as_str(), name) {
            assert(tensix::binding_views(bindings@)[i as int].tensor_name == name@);
            return true;
        }
        i = i + 1;
    }
    proof {
        let views = tensix::binding_views(bindings@);
        assert forall|j: int| 0 <= j < views.len() implies (#[trigger] views[j]).tensor_name
            != name@ by {
            assert(views[j] == bindings@[j]@);
        }
    }
    false
}

fn bind_outputs(
    ir: &ComputeExecutionIR,
    ids: &Vec<String>,
    slot: u32,
    bindings: &mut Vec<TensorBinding>,
    dram: u64,
    Ghost(start): Ghost<Layout>,
) -> (r: u64)
    requires
        start.bindings == tensix::binding_views(old(bindings)@),
        start.dram == dram,
        with_outputs(
            compute_ir::ir_tensor_views(ir.tensors@),
            start,
            order::views(ids@),
            slot as int,
        ).fits,
    ensures
        tensix::binding_views(final(bindings)@) == with_outputs(
            compute_ir::ir_tensor_views(ir.tensors@),
            start,
            order::views(ids@),
            slot as int,
        ).bindings,
        r == with_outputs(
            compute_ir::ir_tensor_views(ir.tensors@),
            start,
            order::views(ids@),
            slot as int,
        ).dram,
{
    let ghost tensors = compute_ir::ir_tensor_views(ir.tensors@);
    let ghost all = order::views(ids@);
    let mut dram: u64 = dram;
    let mut i: usize = 0;
    assert(all.take(0) =~= Seq::<Seq<char>>::empty());
    while i < ids.len()
        invariant
            i <= ids@.len(),
            tensors == compute_ir::ir_tensor_views(ir.tensors@),
            all == order::views(ids@),
            with_outputs(tensors, start, all, slot as int).fits,
            tensix::binding_views(bindings@) == with_outputs(
                tensors,
                start,
                all.take(i as int),
                slot as int,
            ).bindings,
            dram == with_outputs(tensors, start, all.take(i as int), slot as int).dram,
        decreases ids@.len() - i,
    {
        let ghost done = all.take(i as int);
        let ghost next = all.take(i + 1);
        proof {
            assert(next.drop_last() =~= done);
            assert(next.last() == ids@[i as int]@);
            lemma_outputs_fit(tensors, start, all, slot as int, i + 1);
        }
        if let Some(tensor) = ir.tensor_by_id(ids[i].as_str()) {
            let byte_size: u64 = tensor_byte_size(tensor);
            if !find_binding(bindings, tensor.name.as_str()) {
                let ghost before = tensix::binding_views(bindings@);
                let binding: TensorBinding = TensorBinding {
                    tensor_name: tensor.name.clone(),
                    buffer_slot: slot,
                    byte_offset: dram,
                    byte_size,
                    tile_shape: (32, 32),
                };
                let ghost view = binding@;
                bindings.push(binding);
                assert(tensix::binding_views(bindings@) =~= before.push(view));
                dram = dram + byte_size;
            }
        }
        i = i + 1;
    }
    assert(all.take(all.len() as int) =~= all);
    dram
}

// ---------------------------------------------------------------------------
// Programs
// ---------------------------------------------------------------------------

/// A program under construction.
#[verifier::ext_equal]
pub ghost struct Program {
    pub kernels: Seq<KernelView>,
    pub layout: Layout,
    pub cores: int,
    pub cycles: int,
    pub ops: int,
    /// Why the computation cannot be compiled.
    pub failed: Option<Seq<char>>,
    /// Everything so far can be counted in the machine's numbers.
    pub fits: bool,
}

pub open spec fn no_program() -> Program {
    Program {
        kernels: Seq::empty(),
        layout: Layout { bindings: Seq::empty(), dram: 0, fits: true },
        cores: 0,
        cycles: 0,
        ops: 0,
        failed: None,
        fits: true,
    }
}

/// One more operation. The first operation without a kernel ends the program.
pub open spec fn with_op(tensors: Seq<IrTensorView>, p: Program, op: OpView) -> Program {
    if p.failed is Some {
        p
    } else {
        match work_of(op) {
            None => Program { failed: Some(unsupported(op.kind)), ..p },
            Some(w) => {
                let layout = with_outputs(tensors, p.layout, op.outputs, p.ops);
                Program {
                    kernels: p.kernels.push(kernel_of(op, w)),
                    layout,
                    cores: p.cores + w.cores,
                    cycles: p.cycles + w.cycles,
                    ops: p.ops + 1,
                    failed: None,
                    fits: p.fits && work_fits(op) && layout.fits && p.cores + w.cores <= u32::MAX
                        && p.cycles + w.cycles <= u64::MAX && p.ops + 1 <= u32::MAX,
                }
            },
        }
    }
}

/// The program of a list of operations.
pub open spec fn program(tensors: Seq<IrTensorView>, ops: Seq<OpView>) -> Program
    decreases ops.len(),
{
    if ops.len() == 0 {
        no_program()
    } else {
        with_op(tensors, program(tensors, ops.drop_last()), ops.last())
    }
}

proof fn lemma_program_prefix(tensors: Seq<IrTensorView>, ops: Seq<OpView>, k: int)
    requires
        0 <= k <= ops.len(),
    ensures
        program(tensors, ops).fits ==> program(tensors, ops.take(k)).fits,
        program(tensors, ops.take(k)).failed is Some ==> program(tensors, ops) == program(
            tensors,
            ops.take(k),
        ),
    decreases ops.len(),
{
    if k < ops.len() {
        lemma_program_prefix(tensors, ops.drop_last(), k);
        assert(ops.drop_last().take(k) =~= ops.take(k));
    } else {
        assert(ops.take(k) =~= ops);
    }
}

// ---------------------------------------------------------------------------
// The hash of a computation
// ---------------------------------------------------------------------------

/// What the tensors of an operation feed to the hash.
pub open spec fn id_writes(tensors: Seq<IrTensorView>, ids: Seq<Seq<char>>) -> Seq<Seq<u8>>
    decreases ids.len(),
{
    if ids.len() == 0 {
        Seq::empty()
    } else {
        let start = id_writes(tensors, ids.drop_last()) + hashing::text_writes(ids.last());
        match compute_ir::tensor_of_id(tensors, ids.last()) {
            Some(t) => start + hashing::text_writes(t.physical_dtype) + hashing::dims_writes(
                t.physical_shape,
            ),
            None => start,
        }
    }
}

/// What the metadata feeds to the hash, key by key.
pub open spec fn metadata_writes(
    metadata: Map<Seq<char>, Seq<char>>,
    keys: Seq<Seq<char>>,
) -> Seq<Seq<u8>>
    decreases keys.len(),
{
    if keys.len() == 0 {
        Seq::empty()
    } else {
        metadata_writes(metadata, keys.drop_last()) + hashing::text_writes(keys.last())
            + hashing::text_writes(metadata[keys.last()])
    }
}

pub open spec fn op_writes(tensors: Seq<IrTensorView>, op: OpView) -> Seq<Seq<u8>> {
    hashing::text_writes(op.kind) + id_writes(tensors, op.inputs) + id_writes(tensors, op.outputs)
        + metadata_writes(op.metadata, table::in_order(op.metadata.dom()))
}

pub open spec fn ir_writes(tensors: Seq<IrTensorView>, ops: Seq<OpView>) -> Seq<Seq<u8>>
    decreases ops.len(),
{
    if ops.len() == 0 {
        Seq::empty()
    } else {
        ir_writes(tensors, ops.drop_last()) + op_writes(tensors, ops.last())
    }
}

fn hash_ids(h: &mut DefaultHasher, ir: &ComputeExecutionIR, ids: &Vec<String>)
    ensures
        final(h)@ == old(h)@ + id_writes(
            compute_ir::ir_tensor_views(ir.tensors@),
            order::views(ids@),
        ),
{
    let ghost tensors = compute_ir::ir_tensor_views(ir.tensors@);
    let ghost all = order::views(ids@);
    let ghost start = h@;
    let mut i: usize = 0;
    assert(start + id_writes(tensors, all.take(0)) =~= start);
    while i < ids.len()
        invariant
            i <= ids@.len(),
            tensors == compute_ir::ir_tensor_views(ir.tensors@),
            all == order::views(ids@),
            h@ == start + id_writes(tensors, all.take(i as int)),
        decreases ids@.len() - i,
    {
        proof {
            assert(all.take(i + 1).drop_last() =~= all.take(i as int));
            assert(all.take(i + 1).last() == ids@[i as int]@);
        }
        hashing::write_text(h, ids[i].as_str());
        if let Some(t) = ir.tensor_by_id(ids[i].as_str()) {
            hashing::write_text(h, t.physical_dtype.as_str());
            hashing::write_dims(h, &t.physical_shape);
        }
        assert(h@ =~= start + id_writes(tensors, all.take(i + 1)));
        i = i + 1;
    }
    assert(all.take(all.len() as int) =~= all);
}

fn hash_metadata(h: &mut DefaultHasher, op: &IROp)
    requires
        op.wf(),
    ensures
        final(h)@ == old(h)@ + metadata_writes(
            op@.metadata,
            table::in_order(op@.metadata.dom()),
        ),
{
    let ghost metadata = op@.metadata;
    let ghost start = h@;
    let keys: Vec<String> = table::sorted_names(&op.metadata);
    let ghost all = order::views(keys@);
    proof {
        assert(metadata.dom() =~= op.metadata@.dom());
        table::lemma_in_order_unique(all, table::in_order(metadata.dom()), metadata.dom());
    }
    let mut i: usize = 0;
    assert(start + metadata_writes(metadata, all.take(0)) =~= start);
    while i < keys.len()
        invariant
            i <= keys@.len(),
            op.wf(),
            metadata == op@.metadata,
            all == order::views(keys@),
            table::lists_in_order(all, metadata.dom()),
            h@ == start + metadata_writes(metadata, all.take(i as int)),
        decreases keys@.len() - i,
    {
        proof {
            assert(all.take(i + 1).drop_last() =~= all.take(i as int));
            assert(all.take(i + 1).last() == keys@[i as int]@);
            assert(all[i as int] == keys@[i as int]@);
            assert(all.contains(keys@[i as int]@));
        }
        hashing::write_text(h, keys[i].as_str());
        if let Some(v) = op.metadata.get(keys[i].as_str()) {
            hashing::write_text(h, v.as_str());
        }
        assert(h@ =~= start + metadata_writes(metadata, all.take(i + 1)));
        i = i + 1;
    }
    assert(all.take(all.len() as int) =~= all);
}

/// The hash over the operations and the tensors that they name.
pub fn compute_ir_hash(ir: &ComputeExecutionIR) -> (r: u64)
    requires
        ir.wf(),
    ensures
        r == hashing::hash_of(
            ir_writes(
                compute_ir::ir_tensor_views(ir.tensors@),
                compute_ir::flat_ops(ir.regions@),
            ),
        ),
{
    let ghost tensors = compute_ir::ir_tensor_views(ir.tensors@);
    let mut h: DefaultHasher = DefaultHasher::new();
    let mut r: usize = 0;
    assert(h@ =~= ir_writes(tensors, compute_ir::flat_ops(ir.regions@.take(0))));
    while r < ir.regions.len()
        invariant
            r <= ir.regions@.len(),
            ir.wf(),
            tensors == compute_ir::ir_tensor_views(ir.tensors@),
            h@ == ir_writes(tensors, compute_ir::flat_ops(ir.regions@.take(r as int))),
        decreases ir.regions@.len() - r,
    {
        let ops: &Vec<IROp> = &ir.regions[r].ops;
        let ghost done = compute_ir::flat_ops(ir.regions@.take(r as int));
        let ghost here = compute_ir::op_views(ops@);
        assert(done + here.take(0) =~= done);
        let mut o: usize = 0;
        while o < ops.len()
            invariant
                o <= ops@.len(),
                r < ir.regions@.len(),
                ops@ == ir.regions@[r as int].ops@,
                ir.wf(),
                tensors == compute_ir::ir_tensor_views(ir.tensors@),
                here == compute_ir::op_views(ops@),
                h@ == ir_writes(tensors, done + here.take(o as int)),
            decreases ops@.len() - o,
        {
            let op: &IROp = &ops[o];
            let ghost before = h@;
            proof {
                assert(ir.regions@[r as int].ops@[o as int].wf());
                let next = done + here.take(o + 1);
                assert(next.drop_last() =~= done + here.take(o as int));
                assert(next.last() == op@);
            }
            hashing::write_text(&mut h, op.kind.as_str());
            hash_ids(&mut h, ir, &op.input_tensors);
            hash_ids(&mut h, ir, &op.output_tensors);
            hash_metadata(&mut h, op);
            assert(h@ =~= before + op_writes(tensors, op@));
            o = o + 1;
        }
        proof {
            assert(here.take(here.len() as int) =~= here);
            assert(ir.regions@.take(r + 1).drop_last() =~= ir.regions@.take(r as int));
        }
        r = r + 1;
    }
    assert(ir.regions@.take(ir.regions@.len() as int) =~= ir.regions@);
    h.finish()
}

// ---------------------------------------------------------------------------
// The description of a program
// ---------------------------------------------------------------------------

/// The least memory of a core for its circular buffers.
pub const MIN_CORE_SRAM: u64 = 65536;

/// The memory of a core: six tiles of 32 by 32 elements of two bytes, but no
/// less than the least.
pub fn estimate_sram_per_core(_kernels: &[KernelConfig]) -> (r: u64)
    ensures
        r >= 32 * 32 * 2 * 6,
        r >= MIN_CORE_SRAM,
        r == 32 * 32 * 2 * 6 || r == MIN_CORE_SRAM,
{
    let tiles: u64 = 32 * 32 * 2 * 6;
    if tiles > MIN_CORE_SRAM {
        tiles
    } else {
        MIN_CORE_SRAM
    }
}

pub open spec fn kernel_type_name(t: KernelType) -> Seq<char> {
    match t {
        KernelType::Math => "Math"@,
        KernelType::Unpack => "Unpack"@,
        KernelType::Pack => "Pack"@,
        KernelType::Relu => "Relu"@,
    }
}

pub open spec fn math_fidelity_name(f: MathFidelity) -> Seq<char> {
    match f {
        MathFidelity::LoFi => "LoFi"@,
        MathFidelity::HiFi2 => "HiFi2"@,
        MathFidelity::HiFi3 => "HiFi3"@,
        MathFidelity::HiFi4 => "HiFi4"@,
    }
}

pub open spec fn data_format_name(f: DataFormat) -> Seq<char> {
    match f {
        DataFormat::Float32 => "Float32"@,
        DataFormat::Float16 => "Float16"@,
        DataFormat::BFloat16 => "BFloat16"@,
        DataFormat::Int8 => "Int8"@,
        DataFormat::UInt8 => "UInt8"@,
        DataFormat::Int32 => "Int32"@,
    }
}

/// The name of a unit.
pub fn kernel_type_str(kt: KernelType) -> (r: &'static str)
    ensures
        r@ == kernel_type_name(kt),
{
    match kt {
        KernelType::Math => "Math",
        KernelType::Unpack => "Unpack",
        KernelType::Pack => "Pack",
        KernelType::Relu => "Relu",
    }
}

/// The name of a fidelity.
pub fn math_fidelity_str(mf: MathFidelity) -> (r: &'static str)
    ensures
        r@ == math_fidelity_name(mf),
{
    match mf {
        MathFidelity::LoFi => "LoFi",
        MathFidelity::HiFi2 => "HiFi2",
        MathFidelity::HiFi3 => "HiFi3",
        MathFidelity::HiFi4 => "HiFi4",
    }
}

/// The name of a format.
pub fn data_format_str(df: DataFormat) -> (r: &'static str)
    ensures
        r@ == data_format_name(df),
{
    match df {
        DataFormat::Float32 => "Float32",
        DataFormat::Float16 => "Float16",
        DataFormat::BFloat16 => "BFloat16",
        DataFormat::Int8 => "Int8",
        DataFormat::UInt8 => "UInt8",
        DataFormat::Int32 => "Int32",
    }
}

/// The description of one kernel.
pub open spec fn kernel_json(k: KernelView) -> Seq<char> {
    "{\"name\":\""@ + k.name + "\",\"kernel_type\":\""@ + kernel_type_name(k.kernel_type)
        + "\",\"math_fidelity\":\""@ + math_fidelity_name(k.math_fidelity) + "\",\"tile_dims\":["@
        + text::decimal(k.tile_dims.0 as nat) + ","@ + text::decimal(k.tile_dims.1 as nat)
        + "],\"data_format\":\""@ + data_format_name(k.data_format) + "\"}"@
}

pub open spec fn kernel_list(s: Seq<KernelView>) -> Seq<char>
    decreases s.len(),
{
    if s.len() == 0 {
        Seq::empty()
    } else if s.len() == 1 {
        kernel_json(s[0])
    } else {
        kernel_list(s.drop_last()) + ","@ + kernel_json(s.last())
    }
}

/// The description of a program: its kernels, in square brackets, separated by
/// commas.
pub open spec fn program_json(s: Seq<KernelView>) -> Seq<char> {
    "["@ + kernel_list(s) + "]"@
}

fn push_kernel_json(out: &mut String, k: &KernelConfig)
    ensures
        final(out)@ == old(out)@ + kernel_json(k@),
{
    let ghost before = out@;
    out.append("{\"name\":\"");
    out.append(k.name.as_str());
    out.append("\",\"kernel_type\":\"");
    out.append(kernel_type_str(k.kernel_type));
    out.append("\",\"math_fidelity\":\"");
    out.append(math_fidelity_str(k.math_fidelity));
    out.append("\",\"tile_dims\":[");
    text::push_decimal(out, k.tile_dims.0 as u64);
    out.append(",");
    text::push_decimal(out, k.tile_dims.1 as u64);
    out.append("],\"data_format\":\"");
    out.append(data_format_str(k.data_format));
    out.append("\"}");
    assert(out@ =~= before + kernel_json(k@));
}

/// The description of a program.
pub fn build_program_spec_json(kernels: &[KernelConfig]) -> (r: String)
    ensures
        r@ == program_json(tensix::kernel_views(kernels@)),
{
    let ghost all = tensix::kernel_views(kernels@);
    let mut r: String = "[".to_owned();
    let mut i: usize = 0;
    assert(r@ =~= "["@ + kernel_list(all.take(0)));
    while i < kernels.len()
        invariant
            i <= kernels@.len(),
            all == tensix::kernel_views(kernels@),
            r@ == "["@ + kernel_list(all.take(i as int)),
        decreases kernels@.len() - i,
    {
        if i > 0 {
            r.append(",");
        }
        push_kernel_json(&mut r, &kernels[i]);
        proof {
            let next = all.take(i + 1);
            assert(next.drop_last() =~= all.take(i as int));
            assert(next.last() == kernels@[i as int]@);
            assert(all.take(0) =~= Seq::<KernelView>::empty());
            assert(r@ =~= "["@ + kernel_list(next));
        }
        i = i + 1;
    }
    assert(all.take(all.len() as int) =~= all);
    r.append("]");
    r
}

// ---------------------------------------------------------------------------
// Compilation
// ---------------------------------------------------------------------------

fn copy_cards(cards: &[CardCoord]) -> (r: Vec<CardCoord>)
    ensures
        r@ == cards@,
{
    let mut r: Vec<CardCoord> = Vec::new();
    let mut i: usize = 0;
    while i < cards.len()
        invariant
            i <= cards@.len(),
            r@ == cards@.take(i as int),
        decreases cards@.len() - i,
    {
        r.push(cards[i]);
        assert(cards@.take(i + 1) =~= cards@.take(i as int).push(cards@[i as int]));
        i = i + 1;
    }
    assert(cards@.take(cards@.len() as int) =~= cards@);
    r
}

fn copy_path(path: &GoldenPath) -> (r: GoldenPath)
    ensures
        r.ordered_cards@ == path.ordered_cards@,
        r.interconnect == path.interconnect,
{
    GoldenPath { ordered_cards: path.ordered_cards.clone(), interconnect: path.interconnect }
}

/// The image is that of the program.
pub open spec fn is_image_of(image: TensixComputeImage, p: Program) -> bool {
    &&& tensix::kernel_views(image.kernel_configs@) == p.kernels
    &&& tensix::binding_views(image.tensor_bindings@) == p.layout.bindings
    &&& image.core_count == p.cores
    &&& image.estimated_cycles == p.cycles
    &&& image.dram_bytes == p.layout.dram
    &&& image.program_spec_json@ == program_json(p.kernels)
    &&& image.sram_per_core == MIN_CORE_SRAM
}

/// How many cards an image is for: those of the mesh, or a single one where
/// neither a mesh nor a path through it is given.
pub open spec fn cards_assumed(mesh: Seq<CardCoord>, path: Seq<u32>) -> nat {
    if mesh.len() == 0 && path.len() == 0 {
        1
    } else {
        mesh.len() % 0x1_0000_0000
    }
}

fn count_cards(mesh: &[CardCoord], path: &[u32]) -> (r: u32)
    ensures
        r == cards_assumed(mesh@, path@),
{
    if mesh.len() == 0 && path.len() == 0 {
        1
    } else {
        (mesh.len() as u64 % 0x1_0000_0000) as u32
    }
}

/// Compiles a computation.
pub fn compile_tensix(
    ir: &ComputeExecutionIR,
    arch: TensixArch,
    interconnect_map: &[CardCoord],
    golden_path: &GoldenPath,
) -> (r: Result<TensixComputeImage, String>)
    requires
        ir.wf(),
        program(
            compute_ir::ir_tensor_views(ir.tensors@),
            compute_ir::flat_ops(ir.regions@),
        ).fits,
    ensures
        match r {
            Ok(image) => {
                let tensors = compute_ir::ir_tensor_views(ir.tensors@);
                let ops = compute_ir::flat_ops(ir.regions@);
                &&& program(tensors, ops).failed is None
                &&& is_image_of(image, program(tensors, ops))
                &&& image.program_hash == hashing::hash_of(ir_writes(tensors, ops))
                &&& image.target_arch == arch
                &&& image.card_count == cards_assumed(interconnect_map@, golden_path.ordered_cards@)
                &&& image.interconnect_map@ == interconnect_map@
                &&& image.golden_path.ordered_cards@ == golden_path.ordered_cards@
                &&& image.golden_path.interconnect == golden_path.interconnect
            },
            Err(e) => program(
                compute_ir::ir_tensor_views(ir.tensors@),
                compute_ir::flat_ops(ir.regions@),
            ).failed == Some(e@),
        },
{
    let ghost tensors = compute_ir::ir_tensor_views(ir.tensors@);
    let ghost all = compute_ir::flat_ops(ir.regions@);
    let mut kernel_configs: Vec<KernelConfig> = Vec::new();
    let mut tensor_bindings: Vec<TensorBinding> = Vec::new();
    let mut core_count: u32 = 0;
    let mut cycles: u64 = 0;
    let mut dram_bytes: u64 = 0;
    let mut op_index: u32 = 0;
    let ghost mut p = no_program();
    let mut r: usize = 0;
    proof {
        assert(ir.regions@.take(0) =~= Seq::<compute_ir::IrRegion>::empty());
        assert(tensix::kernel_views(kernel_configs@) =~= p.kernels);
        assert(tensix::binding_views(tensor_bindings@) =~= p.layout.bindings);
    }
    while r < ir.regions.len()
        invariant
            r <= ir.regions@.len(),
            ir.wf(),
            tensors == compute_ir::ir_tensor_views(ir.tensors@),
            all == compute_ir::flat_ops(ir.regions@),
            program(tensors, all).fits,
            p == program(tensors, compute_ir::flat_ops(ir.regions@.take(r as int))),
            p.failed is None,
            p.kernels == tensix::kernel_views(kernel_configs@),
            p.layout.bindings == tensix::binding_views(tensor_bindings@),
            p.cores == core_count,
            p.cycles == cycles,
            p.layout.dram == dram_bytes,
            p.ops == op_index,
        decreases ir.regions@.len() - r,
    {
        let ops: &Vec<IROp> = &ir.regions[r].ops;
        let ghost done = compute_ir::flat_ops(ir.regions@.take(r as int));
        let ghost here = compute_ir::op_views(ops@);
        assert(done + here.take(0) =~= done);
        let mut o: usize = 0;
        while o < ops.len()
            invariant
                o <= ops@.len(),
                r < ir.regions@.len(),
                ops@ == ir.regions@[r as int].ops@,
                ir.wf(),
                tensors == compute_ir::ir_tensor_views(ir.tensors@),
                all == compute_ir::flat_ops(ir.regions@),
                done == compute_ir::flat_ops(ir.regions@.take(r as int)),
                here == compute_ir::op_views(ops@),
                program(tensors, all).fits,
                p == program(tensors, done + here.take(o as int)),
                p.failed is None,
                p.kernels == tensix::kernel_views(kernel_configs@),
                p.layout.bindings == tensix::binding_views(tensor_bindings@),
                p.cores == core_count,
                p.cycles == cycles,
                p.layout.dram == dram_bytes,
                p.ops == op_index,
            decreases ops@.len() - o,
        {
            let op: &IROp = &ops[o];
            let ghost next = done + here.take(o + 1);
            proof {
                assert(ir.regions@[r as int].ops@[o as int].wf());
                assert(next.drop_last() =~= done + here.take(o as int));
                assert(next.last() == op@);
                lemma_ops_prefix(ir.regions@, r as int, o + 1);
                lemma_program_prefix(tensors, all, next.len() as int);
                if work_of(op@) is None {
                    assert(work_fits(op@));
                }
            }
            let (kernel, op_cycles, op_cores) = match map_op_to_tensix_kernel(op, arch) {
                Ok(k) => k,
                Err(e) => {
                    return Err(e);
                },
            };
            let ghost view = kernel@;
            let ghost before = p.kernels;
            kernel_configs.push(kernel);
            assert(tensix::kernel_views(kernel_configs@) =~= before.push(view));
            core_count = core_count + op_cores;
            cycles = cycles + op_cycles;
            dram_bytes = bind_outputs(
                ir,
                &op.output_tensors,
                op_index,
                &mut tensor_bindings,
                dram_bytes,
                Ghost(p.layout),
            );
            op_index = op_index + 1;
            proof {
                p = program(tensors, next);
            }
            o = o + 1;
        }
        proof {
            assert(here.take(here.len() as int) =~= here);
            assert(ir.regions@.take(r + 1).drop_last() =~= ir.regions@.take(r as int));
        }
        r = r + 1;
    }
    assert(ir.regions@.take(ir.regions@.len() as int) =~= ir.regions@);
    let program_spec_json: String = build_program_spec_json(kernel_configs.as_slice());
    let sram_per_core: u64 = estimate_sram_per_core(kernel_configs.as_slice());
    let program_hash: u64 = compute_ir_hash(ir);
    Ok(
        TensixComputeImage {
            program_hash,
            core_count,
            dram_bytes,
            sram_per_core,
            kernel_configs,
            tensor_bindings,
            estimated_cycles: cycles,
            target_arch: arch,
            program_spec_json,
            card_count: count_cards(interconnect_map, golden_path.ordered_cards.as_slice()),
            interconnect_map: copy_cards(interconnect_map),
            golden_path: copy_path(golden_path),
        },
    )
}

/// The operations up to one of a region come first.
proof fn lemma_ops_prefix(regions: Seq<compute_ir::IrRegion>, r: int, o: int)
    requires
        0 <= r < regions.len(),
        0 <= o <= regions[r].ops@.len(),
    ensures
        ({
            let next = compute_ir::flat_ops(regions.take(r)) + compute_ir::op_views(
                regions[r].ops@,
            ).take(o);
            next.len() <= compute_ir::flat_ops(regions).len() && compute_ir::flat_ops(regions).take(
                next.len() as int,
            ) == next
        }),
    decreases regions.len(),
{
    let all = compute_ir::flat_ops(regions);
    let next = compute_ir::flat_ops(regions.take(r)) + compute_ir::op_views(regions[r].ops@).take(o);
    if r == regions.len() - 1 {
        assert(regions.take(r) =~= regions.drop_last());
        assert(all.take(next.len() as int) =~= next);
    } else {
        lemma_ops_prefix(regions.drop_last(), r, o);
        assert(regions.drop_last().take(r) =~= regions.take(r));
        assert(all.take(next.len() as int) =~= compute_ir::flat_ops(regions.drop_last()).take(
            next.len() as int,
        ));
    }
}

// ---------------------------------------------------------------------------
// Laws
// ---------------------------------------------------------------------------

/// The bytes that the bindings take together.
pub open spec fn bound_bytes(bindings: Seq<BindingView>) -> int
    decreases bindings.len(),
{
    if bindings.len() == 0 {
        0
    } else {
        bound_bytes(bindings.drop_last()) + bindings.last().byte_size
    }
}

/// No name has two places, and each place begins where the one before it ends.
pub open spec fn is_laid_out(l: Layout) -> bool {
    &&& forall|i: int, j: int|
        0 <= i < j < l.bindings.len() ==> (#[trigger] l.bindings[i]).tensor_name != (
        #[trigger] l.bindings[j]).tensor_name
    &&& forall|i: int|
        0 <= i < l.bindings.len() ==> (#[trigger] l.bindings[i]).byte_offset == bound_bytes(
            l.bindings.take(i),
        )
    &&& l.dram == bound_bytes(l.bindings)
}

proof fn lemma_tensor_laid_out(l: Layout, t: IrTensorView, slot: int)
    requires
        is_laid_out(l),
    ensures
        is_laid_out(with_tensor(l, t, slot)),
{
    let m = with_tensor(l, t, slot);
    if !is_bound(l.bindings, t.name) {
        assert(m.bindings.drop_last() =~= l.bindings);
        assert forall|i: int| 0 <= i < m.bindings.len() implies (#[trigger] m.bindings[i]).byte_offset
            == bound_bytes(m.bindings.take(i)) by {
            assert(m.bindings.take(i) =~= l.bindings.take(i));
            if i == l.bindings.len() {
                assert(l.bindings.take(i) =~= l.bindings);
            } else {
                assert(m.bindings[i] == l.bindings[i]);
            }
        }
    }
}

proof fn lemma_outputs_laid_out(
    tensors: Seq<IrTensorView>,
    l: Layout,
    ids: Seq<Seq<char>>,
    slot: int,
)
    requires
        is_laid_out(l),
    ensures
        is_laid_out(with_outputs(tensors, l, ids, slot)),
    decreases ids.len(),
{
    if ids.len() > 0 {
        lemma_outputs_laid_out(tensors, l, ids.drop_last(), slot);
        if let Some(t) = compute_ir::tensor_of_id(tensors, ids.last()) {
            lemma_tensor_laid_out(with_outputs(tensors, l, ids.drop_last(), slot), t, slot);
        }
    }
}

/// In every program each tensor has one place, the places follow one another
/// without gaps, and together they make up the memory of the program.
pub proof fn law_memory_is_laid_out(tensors: Seq<IrTensorView>, ops: Seq<OpView>)
    ensures
        is_laid_out(program(tensors, ops).layout),
    decreases ops.len(),
{
    if ops.len() > 0 {
        law_memory_is_laid_out(tensors, ops.drop_last());
        let p = program(tensors, ops.drop_last());
        lemma_outputs_laid_out(tensors, p.layout, ops.last().outputs, p.ops);
    }
}

/// A computation compiles exactly when there is a kernel for each of its
/// operations, and then the kernels are those of the operations, in order.
pub proof fn law_one_kernel_per_op(tensors: Seq<IrTensorView>, ops: Seq<OpView>)
    ensures
        program(tensors, ops).failed is None <==> forall|i: int|
            0 <= i < ops.len() ==> work_of(#[trigger] ops[i]) is Some,
        program(tensors, ops).failed is None ==> program(tensors, ops).kernels == Seq::new(
            ops.len(),
            |i: int| kernel_of(ops[i], work_of(ops[i])->0),
        ),
    decreases ops.len(),
{
    let p = program(tensors, ops);
    let kernels = Seq::new(ops.len(), |i: int| kernel_of(ops[i], work_of(ops[i])->0));
    if ops.len() == 0 {
        assert(p.kernels =~= kernels);
    } else {
        let before = ops.drop_last();
        law_one_kernel_per_op(tensors, before);
        assert forall|i: int| 0 <= i < before.len() implies before[i] == #[trigger] ops[i] by {}
        if p.failed is None {
            assert(program(tensors, before).failed is None);
            assert forall|i: int| 0 <= i < ops.len() implies work_of(#[trigger] ops[i]) is Some by {
                if i < before.len() {
                    assert(work_of(before[i]) is Some);
                }
            }
            assert(p.kernels =~= kernels);
        } else if program(tensors, before).failed is Some {
            let i = choose|i: int| 0 <= i < before.len() && work_of(#[trigger] before[i]) is None;
            assert(work_of(ops[i]) is None);
        } else {
            assert(work_of(ops[ops.len() - 1]) is None);
        }
    }
}

/// A number in the metadata of an operation counts as its decimal form says.
proof fn lemma_metadata_value(op: OpView, key: Seq<char>, default: nat, n: nat)
    requires
        op.metadata.dom().contains(key),
        op.metadata[key] == text::decimal(n),
        n <= u64::MAX,
    ensures
        metadata_value(op, key, default) == n,
{
    crate::compile::differential::lemma_decimal_value(n);
    assert(numeral::is_digit(text::decimal(n)[0]));
}

/// A matrix product whose three dimensions are given takes one cycle for eight
/// multiplications, on eight cores from 64 rows on, on four from 16 rows on, and on one
/// below; without dimensions it takes a hundred cycles on one core.
pub proof fn law_product_takes_its_multiplications(
    op: &IROp,
    arch: TensixArch,
    r: Result<(KernelConfig, u64, u32), String>,
    m: nat,
    n: nat,
    k: nat,
)
    requires
        op.kind@ == "matmul"@,
        call_ensures(map_op_to_tensix_kernel, (op, arch), r),
    ensures
        r matches Ok(w) && w.0.kernel_type == KernelType::Math && w.0.math_fidelity
            == MathFidelity::HiFi3,
        ({
            let d = op@.metadata;
            &&& d.dom().contains("m"@) && d["m"@] == text::decimal(m) && d.dom().contains("n"@)
                && d["n"@] == text::decimal(n) && d.dom().contains("k"@) && d["k"@]
                == text::decimal(k) && 0 < m <= u64::MAX && 0 < n <= u64::MAX && 0 < k <= u64::MAX
                ==> r->Ok_0.1 == m * n * k / 8
            &&& d.dom().contains("m"@) && d["m"@] == text::decimal(m) && m <= u64::MAX
                ==> r->Ok_0.2 == (if m >= 64 {
                8int
            } else if m >= 16 {
                4
            } else {
                1
            })
            &&& !d.dom().contains("m"@) ==> r->Ok_0.1 == 100 && r->Ok_0.2 == 1
            &&& !d.dom().contains("n"@) ==> r->Ok_0.1 == 100
            &&& !d.dom().contains("k"@) ==> r->Ok_0.1 == 100
        }),
{
    let d = op@.metadata;
    if d.dom().contains("m"@) && d["m"@] == text::decimal(m) && m <= u64::MAX {
        lemma_metadata_value(op@, "m"@, 0, m);
        if d.dom().contains("n"@) && d["n"@] == text::decimal(n) && d.dom().contains("k"@) && d["k"@]
            == text::decimal(k) && n <= u64::MAX && k <= u64::MAX {
            lemma_metadata_value(op@, "n"@, 0, n);
            lemma_metadata_value(op@, "k"@, 0, k);
        }
    }
}

/// A norm takes two cycles for each element of its dimension, a softmax one; where no
/// dimension is given it counts as 4096.
pub proof fn law_norms_take_their_dimension(
    op: &IROp,
    arch: TensixArch,
    r: Result<(KernelConfig, u64, u32), String>,
    n: nat,
)
    requires
        op.kind@ == "rms_norm"@ || op.kind@ == "rmsnorm"@ || op.kind@ == "softmax"@,
        call_ensures(map_op_to_tensix_kernel, (op, arch), r),
        n <= u64::MAX,
        if op@.metadata.dom().contains("dim"@) {
            op@.metadata["dim"@] == text::decimal(n)
        } else {
            n == 4096
        },
    ensures
        r matches Ok(w) && w.2 == 1 && w.0.kernel_type == KernelType::Math,
        op.kind@ == "softmax"@ ==> r->Ok_0.1 == n && r->Ok_0.0.math_fidelity == MathFidelity::LoFi,
        op.kind@ != "softmax"@ ==> r->Ok_0.1 == 2 * n && r->Ok_0.0.math_fidelity
            == MathFidelity::HiFi4,
{
    lemma_kinds_differ();
    if op@.metadata.dom().contains("dim"@) {
        lemma_metadata_value(op@, "dim"@, 4096, n);
    }
}

proof fn lemma_kinds_differ()
    ensures
        "matmul"@.len() == 6,
        "rms_norm"@.len() == 8,
        "rmsnorm"@.len() == 7,
        "softmax"@.len() == 7,
        "silu"@.len() == 4,
        "silu_activation"@.len() == 15,
        "add"@.len() == 3,
        "residual_add"@.len() == 12,
        "residual"@.len() == 8,
        "rope"@.len() == 4,
        "rotary_embedding"@.len() == 16,
        "sdpa"@.len() == 4,
        "scaled_dot_product_attention"@.len() == 28,
        "kv_cache"@.len() == 8,
        "kvcache"@.len() == 7,
        "rmsnorm"@ != "softmax"@,
        "rmsnorm"@ != "kvcache"@,
        "softmax"@ != "kvcache"@,
        "rms_norm"@ != "residual"@,
        "rms_norm"@ != "kv_cache"@,
        "residual"@ != "kv_cache"@,
        "silu"@ != "rope"@,
        "silu"@ != "sdpa"@,
        "rope"@ != "sdpa"@,
{
    reveal_strlit("matmul");
    reveal_strlit("rms_norm");
    reveal_strlit("rmsnorm");
    reveal_strlit("softmax");
    reveal_strlit("silu");
    reveal_strlit("silu_activation");
    reveal_strlit("add");
    reveal_strlit("residual_add");
    reveal_strlit("residual");
    reveal_strlit("rope");
    reveal_strlit("rotary_embedding");
    reveal_strlit("sdpa");
    reveal_strlit("scaled_dot_product_attention");
    reveal_strlit("kv_cache");
    reveal_strlit("kvcache");
    assert("rmsnorm"@[0] == 'r' && "softmax"@[0] == 's' && "kvcache"@[0] == 'k');
    assert("rms_norm"@[1] == 'm' && "residual"@[1] == 'e' && "kv_cache"@[1] == 'v');
    assert("silu"@[1] == 'i' && "rope"@[1] == 'o' && "sdpa"@[1] == 'd');
}

/// The other kinds of operations take cycles, cores and a kernel by their kind alone,
/// and an operation of no kind that is known is refused.
pub proof fn law_kernel_goes_by_kind(
    op: &IROp,
    arch: TensixArch,
    r: Result<(KernelConfig, u64, u32), String>,
)
    requires
        call_ensures(map_op_to_tensix_kernel, (op, arch), r),
    ensures
        ({
            let kind = op.kind@;
            let product = kind == "matmul"@;
            let normed = kind == "rms_norm"@ || kind == "rmsnorm"@ || kind == "softmax"@;
            let silu = kind == "silu"@ || kind == "silu_activation"@;
            let sum = kind == "add"@ || kind == "residual_add"@ || kind == "residual"@;
            let rope = kind == "rope"@ || kind == "rotary_embedding"@;
            let attention = kind == "sdpa"@ || kind == "scaled_dot_product_attention"@;
            let cache = kind == "kv_cache"@ || kind == "kvcache"@;
            &&& r is Ok == (product || normed || silu || sum || rope || attention || cache)
            &&& r matches Err(e) ==> e@ == "unsupported op for Tensix: "@ + kind
            &&& silu ==> r->Ok_0.1 == 10 && r->Ok_0.2 == 1 && r->Ok_0.0.kernel_type
                == KernelType::Math && r->Ok_0.0.math_fidelity == MathFidelity::LoFi
            &&& sum ==> r->Ok_0.1 == 2 && r->Ok_0.2 == 1 && r->Ok_0.0.kernel_type
                == KernelType::Relu && r->Ok_0.0.math_fidelity == MathFidelity::LoFi
            &&& rope ==> r->Ok_0.1 == 20 && r->Ok_0.2 == 1 && r->Ok_0.0.kernel_type
                == KernelType::Math && r->Ok_0.0.math_fidelity == MathFidelity::HiFi4
            &&& attention ==> r->Ok_0.1 == 200 && r->Ok_0.2 == 4 && r->Ok_0.0.kernel_type
                == KernelType::Math && r->Ok_0.0.math_fidelity == MathFidelity::HiFi3
            &&& cache ==> r->Ok_0.1 == 5 && r->Ok_0.2 == 1 && r->Ok_0.0.kernel_type
                == KernelType::Relu && r->Ok_0.0.math_fidelity == MathFidelity::LoFi
            &&& r matches Ok(w) ==> w.0.tile_dims == (32u32, 32u32) && w.0.data_format
                == DataFormat::BFloat16
            &&& r matches Ok(w) ==> if op@.metadata.dom().contains("name"@) {
                w.0.name@ == op@.metadata["name"@] + "_"@ + kind
            } else {
                &&& op.input_tensors@.len() > 0 && op.output_tensors@.len() > 0 ==> w.0.name@
                    == op.input_tensors@[0]@ + "_"@ + kind + "_"@ + op.output_tensors@[0]@
                &&& op.input_tensors@.len() == 0 && op.output_tensors@.len() == 0 ==> w.0.name@
                    == "in"@ + "_"@ + kind + "_"@ + "out"@
            }
        }),
{
    lemma_kinds_differ();
}

/// What a program takes is what its operations take together.
pub proof fn law_totals_are_sums(tensors: Seq<IrTensorView>, ops: Seq<OpView>)
    requires
        program(tensors, ops).failed is None,
    ensures
        program(tensors, ops).cycles == ops.fold_left(
            0int,
            |n: int, op: OpView| n + work_of(op)->0.cycles,
        ),
        program(tensors, ops).cores == ops.fold_left(
            0int,
            |n: int, op: OpView| n + work_of(op)->0.cores,
        ),
        program(tensors, ops).ops == ops.len(),
    decreases ops.len(),
{
    if ops.len() > 0 {
        law_totals_are_sums(tensors, ops.drop_last());
    }
}

/// Whether a place is that of a tensor that one of the operations puts out: the first
/// tensor with the id, in the slot of the operation, and as large as the tensor.
pub open spec fn is_place_of_output(
    b: BindingView,
    tensors: Seq<IrTensorView>,
    ops: Seq<OpView>,
    j: int,
    o: int,
) -> bool {
    &&& 0 <= j < ops.len()
    &&& 0 <= o < ops[j].outputs.len()
    &&& b.buffer_slot == j
    &&& b.tile_shape == (32u32, 32u32)
    &&& compute_ir::tensor_of_id(tensors, ops[j].outputs[o]) matches Some(t) && b.tensor_name
        == t.name && b.byte_size == tensor_bytes(t)
}

/// Whether a place is that of a tensor that some operation puts out.
pub open spec fn is_place(b: BindingView, tensors: Seq<IrTensorView>, ops: Seq<OpView>) -> bool {
    exists|j: int, o: int| #[trigger] is_place_of_output(b, tensors, ops, j, o)
}

/// Whether a tensor that is put out, if it is one, has a place.
pub open spec fn has_place(
    bindings: Seq<BindingView>,
    tensors: Seq<IrTensorView>,
    id: Seq<char>,
) -> bool {
    compute_ir::tensor_of_id(tensors, id) matches Some(t) ==> is_bound(bindings, t.name)
}

/// Places stay as places are added.
proof fn lemma_place_stays(
    a: Seq<BindingView>,
    b: Seq<BindingView>,
    tensors: Seq<IrTensorView>,
    id: Seq<char>,
)
    requires
        a.is_prefix_of(b),
        has_place(a, tensors, id),
    ensures
        has_place(b, tensors, id),
{
    if let Some(t) = compute_ir::tensor_of_id(tensors, id) {
        let i = choose|i: int| 0 <= i < a.len() && (#[trigger] a[i]).tensor_name == t.name;
        assert(b.subrange(0, a.len() as int)[i] == b[i]);
    }
}

/// What an operation puts out is placed, behind the places that there were.
proof fn lemma_outputs_placed(
    tensors: Seq<IrTensorView>,
    l: Layout,
    ids: Seq<Seq<char>>,
    ops: Seq<OpView>,
)
    requires
        ops.len() > 0,
        ids.is_prefix_of(ops.last().outputs),
    ensures
        ({
            let m = with_outputs(tensors, l, ids, ops.len() - 1);
            &&& l.bindings.is_prefix_of(m.bindings)
            &&& forall|i: int|
                l.bindings.len() <= i < m.bindings.len() ==> is_place(
                    #[trigger] m.bindings[i],
                    tensors,
                    ops,
                )
            &&& forall|o: int|
                0 <= o < ids.len() ==> has_place(m.bindings, tensors, #[trigger] ids[o])
        }),
    decreases ids.len(),
{
    let slot = ops.len() - 1;
    let m = with_outputs(tensors, l, ids, slot);
    if ids.len() == 0 {
        assert(l.bindings.subrange(0, l.bindings.len() as int) =~= l.bindings);
    } else {
        let rest = ids.drop_last();
        let last = ids.len() - 1;
        let before = with_outputs(tensors, l, rest, slot);
        let outputs = ops.last().outputs;
        assert(rest =~= outputs.subrange(0, rest.len() as int)) by {
            assert(outputs.subrange(0, ids.len() as int) == ids);
            assert forall|i: int| 0 <= i < rest.len() implies rest[i] == outputs[i] by {
                assert(outputs.subrange(0, ids.len() as int)[i] == outputs[i]);
            }
        }
        lemma_outputs_placed(tensors, l, rest, ops);
        assert(before.bindings.is_prefix_of(m.bindings)) by {
            assert(m.bindings.subrange(0, before.bindings.len() as int) =~= before.bindings);
        }
        assert(m.bindings.subrange(0, l.bindings.len() as int) =~= before.bindings.subrange(
            0,
            l.bindings.len() as int,
        ));
        assert(ids[last] == outputs[last]) by {
            assert(outputs.subrange(0, ids.len() as int)[last] == outputs[last]);
        }
        assert forall|i: int| l.bindings.len() <= i < m.bindings.len() implies is_place(
            #[trigger] m.bindings[i],
            tensors,
            ops,
        ) by {
            if i < before.bindings.len() {
                assert(m.bindings[i] == before.bindings[i]);
            } else {
                assert(is_place_of_output(m.bindings[i], tensors, ops, slot, last));
            }
        }
        assert forall|o: int| 0 <= o < ids.len() implies has_place(
            m.bindings,
            tensors,
            #[trigger] ids[o],
        ) by {
            if o < last {
                assert(rest[o] == ids[o]);
                lemma_place_stays(before.bindings, m.bindings, tensors, ids[o]);
            } else if let Some(t) = compute_ir::tensor_of_id(tensors, ids[o]) {
                if is_bound(before.bindings, t.name) {
                    let i = choose|i: int|
                        0 <= i < before.bindings.len() && (
                        #[trigger] before.bindings[i]).tensor_name == t.name;
                    assert(m.bindings[i].tensor_name == t.name);
                } else {
                    assert(m.bindings[before.bindings.len() as int].tensor_name == t.name);
                }
            }
        }
    }
}

/// Every tensor that an operation puts out has a place, and every place is that of a
/// tensor that an operation puts out.
pub proof fn law_every_output_has_a_place(tensors: Seq<IrTensorView>, ops: Seq<OpView>)
    requires
        program(tensors, ops).failed is None,
    ensures
        ({
            let b = program(tensors, ops).layout.bindings;
            &&& forall|i: int| 0 <= i < b.len() ==> is_place(#[trigger] b[i], tensors, ops)
            &&& forall|j: int, o: int|
                0 <= j < ops.len() && 0 <= o < ops[j].outputs.len() ==> has_place(
                    b,
                    tensors,
                    #[trigger] ops[j].outputs[o],
                )
        }),
    decreases ops.len(),
{
    if ops.len() > 0 {
        let rest = ops.drop_last();
        let p = program(tensors, rest);
        let b = program(tensors, ops).layout.bindings;
        let outputs = ops.last().outputs;
        law_every_output_has_a_place(tensors, rest);
        law_totals_are_sums(tensors, rest);
        assert(outputs.is_prefix_of(outputs)) by {
            assert(outputs.subrange(0, outputs.len() as int) =~= outputs);
        }
        lemma_outputs_placed(tensors, p.layout, outputs, ops);
        assert forall|i: int| 0 <= i < b.len() implies is_place(#[trigger] b[i], tensors, ops) by {
            if i < p.layout.bindings.len() {
                assert(b.subrange(0, p.layout.bindings.len() as int)[i] == b[i]);
                let (j, o) = choose|j: int, o: int| #[trigger]
                    is_place_of_output(p.layout.bindings[i], tensors, rest, j, o);
                assert(rest[j] == ops[j]);
                assert(is_place_of_output(b[i], tensors, ops, j, o));
            }
        }
        assert forall|j: int, o: int|
            0 <= j < ops.len() && 0 <= o < ops[j].outputs.len() implies has_place(
            b,
            tensors,
            #[trigger] ops[j].outputs[o],
        ) by {
            if j < rest.len() {
                assert(rest[j] == ops[j]);
                assert(has_place(p.layout.bindings, tensors, rest[j].outputs[o]));
                lemma_place_stays(p.layout.bindings, b, tensors, ops[j].outputs[o]);
            } else {
                assert(outputs[o] == ops[j].outputs[o]);
            }
        }
    }
}

/// In a compiled program no two tensors overlap: the first begins at the start of the
/// memory, each of the others where the one before it ends, and the memory ends with
/// the last. There is a kernel for each operation, and as many cards as the mesh has,
/// or one where there is neither a mesh nor a path.
pub proof fn law_compiled_program(
    ir: &ComputeExecutionIR,
    arch: TensixArch,
    mesh: &[CardCoord],
    path: &GoldenPath,
    image: TensixComputeImage,
)
    requires
        call_ensures(
            compile_tensix,
            (ir, arch, mesh, path),
            Ok::<TensixComputeImage, String>(image),
        ),
    ensures
        ({
            let b = image.tensor_bindings@;
            &&& b.len() > 0 ==> b[0].byte_offset == 0 && image.dram_bytes == b[b.len()
                - 1].byte_offset + b[b.len() - 1].byte_size
            &&& b.len() == 0 ==> image.dram_bytes == 0
            &&& forall|i: int|
                0 < i < b.len() ==> (#[trigger] b[i]).byte_offset == b[i - 1].byte_offset + b[i
                    - 1].byte_size
            &&& forall|i: int, j: int|
                0 <= i < j < b.len() ==> (#[trigger] b[i]).tensor_name@ != (
                #[trigger] b[j]).tensor_name@
            &&& image.kernel_configs@.len() == compute_ir::flat_ops(ir.regions@).len()
            &&& image.target_arch == arch
            &&& mesh@.len() == 0 && path.ordered_cards@.len() == 0 ==> image.card_count == 1
            &&& 0 < mesh@.len() <= u32::MAX ==> image.card_count == mesh@.len()
            &&& image.interconnect_map@ == mesh@
            &&& image.golden_path.ordered_cards@ == path.ordered_cards@
        }),
{
    let tensors = compute_ir::ir_tensor_views(ir.tensors@);
    let ops = compute_ir::flat_ops(ir.regions@);
    let p = program(tensors, ops);
    law_memory_is_laid_out(tensors, ops);
    law_one_kernel_per_op(tensors, ops);
    let b = image.tensor_bindings@;
    let v = p.layout.bindings;
    assert(v == tensix::binding_views(b));
    assert(v.len() == b.len());
    assert forall|i: int| 0 <= i < b.len() implies #[trigger] b[i]@ == v[i] by {}
    assert forall|i: int| 0 <= i < b.len() implies (#[trigger] b[i]).byte_offset == bound_bytes(
        v.take(i),
    ) by {
        assert(b[i]@ == v[i]);
    }
    assert forall|i: int| 0 < i <= b.len() implies #[trigger] bound_bytes(v.take(i)) == b[i
        - 1].byte_offset + b[i - 1].byte_size by {
        assert(v.take(i).drop_last() =~= v.take(i - 1));
        assert(v.take(i).last() == v[i - 1]);
        assert(b[i - 1]@ == v[i - 1]);
    }
    assert(v.take(v.len() as int) =~= v);
    assert(v.take(0) =~= Seq::<BindingView>::empty());
    assert(tensix::kernel_views(image.kernel_configs@).len() == image.kernel_configs@.len());
    assert forall|i: int, j: int| 0 <= i < j < b.len() implies (#[trigger] b[i]).tensor_name@ != (
    #[trigger] b[j]).tensor_name@ by {
        assert(b[i]@ == v[i] && b[j]@ == v[j]);
    }
}

} // verus!
