//! The dispatch of kernels: which kernel runs with which constants, where it
//! finds its buffers, over how many threads, and what its receipt says.
//!
//! A dispatcher works out the plan of a dispatch and fills the receipt. Encoding
//! the plan on a device is left to the caller.

use vstd::prelude::*;

use super::buffer_slot;
use super::kernel_registry;
use super::kernel_registry::{projection_constants, ProjectionConstants};
use super::kernel_types::{KernelReceipt, ProjectionParams};

verus! {

/// A number that a kernel reads from a buffer of its own.
#[derive(Debug, Clone, Copy, PartialEq, Eq, Structural)]
pub struct ScalarSlot {
    pub slot: u32,
    pub value: u32,
}

/// One dispatch.
#[derive(Debug)]
pub struct DispatchPlan {
    pub kernel_name: &'static str,
    /// The constants that the kernel is compiled with, where it has any.
    pub constants: Option<ProjectionConstants>,
    /// The slots of the buffers, in the order in which the kernel names them.
    pub buffer_slots: Vec<u32>,
    pub scalars: Vec<ScalarSlot>,
    /// The slot of the parameters.
    pub params_slot: Option<u32>,
    /// The slot of the receipt that the kernel fills.
    pub receipt_slot: Option<u32>,
    pub groups: u64,
    pub threads: u64,
}

/// A dispatch in contracts.
#[verifier::ext_equal]
pub ghost struct PlanView {
    pub kernel_name: Seq<char>,
    pub constants: Option<ProjectionConstants>,
    pub buffer_slots: Seq<u32>,
    pub scalars: Seq<ScalarSlot>,
    pub params_slot: Option<u32>,
    pub receipt_slot: Option<u32>,
    pub groups: int,
    pub threads: int,
}

impl DispatchPlan {
    pub open spec fn view(&self) -> PlanView {
        PlanView {
            kernel_name: self.kernel_name@,
            constants: self.constants,
            buffer_slots: self.buffer_slots@,
            scalars: self.scalars@,
            params_slot: self.params_slot,
            receipt_slot: self.receipt_slot,
            groups: self.groups as int,
            threads: self.threads as int,
        }
    }
}

/// The dispatch of a kernel that reads its parameters from their slot, and fills
/// a receipt where it is instrumented.
pub open spec fn params_plan(
    kernel_name: Seq<char>,
    constants: ProjectionConstants,
    buffer_slots: Seq<u32>,
    instrumented: bool,
    groups: int,
    threads: int,
) -> PlanView {
    PlanView {
        kernel_name,
        constants: Some(constants),
        buffer_slots,
        scalars: Seq::empty(),
        params_slot: Some(buffer_slot::PARAMS),
        receipt_slot: if instrumented {
            Some(buffer_slot::RECEIPT)
        } else {
            None
        },
        groups,
        threads,
    }
}

/// The dispatch of a kernel without constants that reads single numbers.
pub open spec fn scalar_plan(
    kernel_name: Seq<char>,
    buffer_slots: Seq<u32>,
    scalars: Seq<ScalarSlot>,
    groups: int,
    threads: int,
) -> PlanView {
    PlanView {
        kernel_name,
        constants: None,
        buffer_slots,
        scalars,
        params_slot: None,
        receipt_slot: None,
        groups,
        threads,
    }
}

fn plan_with_params(
    kernel_name: &'static str,
    constants: ProjectionConstants,
    buffer_slots: Vec<u32>,
    instrumented: bool,
    groups: u64,
    threads: u64,
) -> (r: DispatchPlan)
    ensures
        r@ == params_plan(
            kernel_name@,
            constants,
            buffer_slots@,
            instrumented,
            groups as int,
            threads as int,
        ),
{
    let r: DispatchPlan = DispatchPlan {
        kernel_name,
        constants: Some(constants),
        buffer_slots,
        scalars: Vec::new(),
        params_slot: Some(buffer_slot::PARAMS),
        receipt_slot: if instrumented {
            Some(buffer_slot::RECEIPT)
        } else {
            None
        },
        groups,
        threads,
    };
    assert(r.scalars@ =~= Seq::<ScalarSlot>::empty());
    r
}

fn plan_with_scalars(
    kernel_name: &'static str,
    buffer_slots: Vec<u32>,
    first: ScalarSlot,
    second: ScalarSlot,
    groups: u64,
    threads: u64,
) -> (r: DispatchPlan)
    ensures
        r@ == scalar_plan(
            kernel_name@,
            buffer_slots@,
            seq![first, second],
            groups as int,
            threads as int,
        ),
{
    let mut scalars: Vec<ScalarSlot> = Vec::new();
    scalars.push(first);
    scalars.push(second);
    assert(scalars@ =~= seq![first, second]);
    DispatchPlan {
        kernel_name,
        constants: None,
        buffer_slots,
        scalars,
        params_slot: None,
        receipt_slot: None,
        groups,
        threads,
    }
}

/// The receipt of a dispatch. What is not given stays as it was.
pub open spec fn noted(
    r: KernelReceipt,
    kernel_id: u32,
    pages: u32,
    groups: u32,
    threads: u32,
    outputs: u32,
    instrumented: bool,
) -> KernelReceipt {
    KernelReceipt {
        kernel_id,
        phase_id: 0,
        page_count: pages,
        threadgroups: groups,
        threads_per_threadgroup: threads,
        output_elements: outputs,
        flags: if instrumented {
            1
        } else {
            0
        },
        ..r
    }
}

fn note(
    receipt: &mut KernelReceipt,
    kernel_id: u32,
    pages: u32,
    groups: u32,
    threads: u32,
    outputs: u32,
    instrumented: bool,
)
    ensures
        *final(receipt) == noted(
            *old(receipt),
            kernel_id,
            pages,
            groups,
            threads,
            outputs,
            instrumented,
        ),
{
    receipt.kernel_id = kernel_id;
    receipt.phase_id = 0;
    receipt.page_count = pages;
    receipt.threadgroups = groups;
    receipt.threads_per_threadgroup = threads;
    receipt.output_elements = outputs;
    receipt.flags = if instrumented {
        1
    } else {
        0
    };
}

/// A number, but at least one.
pub open spec fn at_least_one(n: u32) -> u32 {
    if n == 0 {
        1
    } else {
        n
    }
}

fn or_one(n: u32) -> (r: u32)
    ensures
        r == at_least_one(n),
{
    if n == 0 {
        1
    } else {
        n
    }
}

/// Multiplies a ternary matrix in tiles of 640 by a vector. Its buffers are the
/// weights, the input, the page scales, the channel scales and the output.
#[derive(Debug)]
pub struct TernaryProjectionDispatcher<R> {
    pub registry: R,
    pub kernel_name: &'static str,
}

impl<R> TernaryProjectionDispatcher<R> {
    pub open spec fn wf(&self) -> bool {
        self.kernel_name@ == "ternary_tile640_gemv"@
    }

    pub fn new(registry: R) -> (r: Self)
        ensures
            r.wf(),
            r.registry == registry,
    {
        TernaryProjectionDispatcher { registry, kernel_name: "ternary_tile640_gemv" }
    }

    /// Plans a dispatch: one group of 64 threads for each row.
    pub fn dispatch(&self, params: &ProjectionParams, receipt: &mut KernelReceipt, instrumented: bool) -> (r:
        DispatchPlan)
        requires
            self.wf(),
            params.page_width * params.page_count / 8 * 13 <= u64::MAX,
            params.in_dim * params.out_dim * 2 <= u64::MAX,
        ensures
            r@ == scalar_plan(
                "ternary_tile640_gemv"@,
                seq![buffer_slot::WEIGHTS, buffer_slot::INPUT, buffer_slot::PAGE_SCALES, buffer_slot::CHANNEL_SCALES, 4u32],
                seq![
                    ScalarSlot { slot: 5, value: params.in_dim },
                    ScalarSlot { slot: 6, value: params.out_dim },
                ],
                params.out_dim as int,
                64,
            ),
            *final(receipt) == (KernelReceipt {
                sidecar_hits: 0,
                sidecar_entries_read: 0,
                logical_weight_bytes: (params.page_width * params.page_count / 8 * 13) as u64,
                logical_sidecar_bytes: 0,
                logical_activation_bytes: (params.in_dim * params.out_dim * 2) as u64,
                ..noted(
                    *old(receipt),
                    1,
                    params.page_count,
                    params.out_dim,
                    64,
                    params.out_dim,
                    instrumented,
                )
            }),
    {
        let mut slots: Vec<u32> = Vec::new();
        slots.push(buffer_slot::WEIGHTS);
        slots.push(buffer_slot::INPUT);
        slots.push(buffer_slot::PAGE_SCALES);
        slots.push(buffer_slot::CHANNEL_SCALES);
        slots.push(4);
        assert(slots@ =~= seq![buffer_slot::WEIGHTS, buffer_slot::INPUT, buffer_slot::PAGE_SCALES, buffer_slot::CHANNEL_SCALES, 4u32]);
        let plan: DispatchPlan = plan_with_scalars(
            self.kernel_name,
            slots,
            ScalarSlot { slot: 5, value: params.in_dim },
            ScalarSlot { slot: 6, value: params.out_dim },
            params.out_dim as u64,
            64,
        );
        proof {
            lemma_product(params.page_width, params.page_count);
            lemma_product(params.in_dim, params.out_dim);
        }
        note(receipt, 1, params.page_count, params.out_dim, 64, params.out_dim, instrumented);
        receipt.sidecar_hits = 0;
        receipt.sidecar_entries_read = 0;
        receipt.logical_weight_bytes = params.page_width as u64 * params.page_count as u64 / 8 * 13;
        receipt.logical_sidecar_bytes = 0;
        receipt.logical_activation_bytes = params.in_dim as u64 * params.out_dim as u64 * 2;
        plan
    }
}

proof fn lemma_product(a: u32, b: u32)
    ensures
        0 <= a * b <= u64::MAX,
{
    assert(0 <= a * b <= 0xffff_ffff * 0xffff_ffff) by (nonlinear_arith)
        requires
            0 <= a <= 0xffff_ffff,
            0 <= b <= 0xffff_ffff,
    ;
}

/// Where the parts of a quantized weight begin in their buffers.
#[derive(Clone, Copy, Debug, PartialEq, Eq, Structural)]
pub struct Nf4Tile640Offsets {
    pub weights_offset: u64,
    pub scales_offset: u64,
    pub biases_offset: u64,
}

impl Default for Nf4Tile640Offsets {
    fn default() -> (r: Self)
        ensures
            r == (Nf4Tile640Offsets { weights_offset: 0, scales_offset: 0, biases_offset: 0 }),
    {
        Nf4Tile640Offsets { weights_offset: 0, scales_offset: 0, biases_offset: 0 }
    }
}

/// Multiplies a 4-bit matrix in tiles of 640 by a vector. Its buffers are the
/// packed weights, the scales, the biases, the input and the output.
#[derive(Debug)]
pub struct Nf4Tile640ProjectionDispatcher<R> {
    pub registry: R,
    pub kernel_name: &'static str,
}

impl<R> Nf4Tile640ProjectionDispatcher<R> {
    pub open spec fn wf(&self) -> bool {
        self.kernel_name@ == "fused_gemv_nf4_tile640_fp32"@
    }

    pub fn new(registry: R) -> (r: Self)
        ensures
            r.wf(),
            r.registry == registry,
    {
        Nf4Tile640ProjectionDispatcher { registry, kernel_name: "fused_gemv_nf4_tile640_fp32" }
    }

    /// Plans a dispatch: one group of 32 threads for each row. The number of tiles
    /// and the real width of a row are given to the kernel.
    pub fn dispatch(&self, params: &ProjectionParams, receipt: &mut KernelReceipt) -> (r: DispatchPlan)
        requires
            self.wf(),
            params.out_dim * at_least_one(params.page_count) * 320 <= u64::MAX,
        ensures
            r@ == nf4_plan(*params),
            *final(receipt) == nf4_receipt(*old(receipt), *params),
    {
        self.dispatch_with_offsets(params, Nf4Tile640Offsets::default(), receipt).0
    }

    /// Plans a dispatch in which the packed weights, the scales and the biases
    /// begin at the offsets in their buffers.
    pub fn dispatch_with_offsets(
        &self,
        params: &ProjectionParams,
        offsets: Nf4Tile640Offsets,
        receipt: &mut KernelReceipt,
    ) -> (r: (DispatchPlan, Vec<u64>))
        requires
            self.wf(),
            params.out_dim * at_least_one(params.page_count) * 320 <= u64::MAX,
        ensures
            r.0@ == nf4_plan(*params),
            r.1@ == seq![
                offsets.weights_offset,
                offsets.scales_offset,
                offsets.biases_offset,
                0u64,
                0u64,
            ],
            *final(receipt) == nf4_receipt(*old(receipt), *params),
    {
        let tiles: u32 = or_one(params.page_count);
        let mut slots: Vec<u32> = Vec::new();
        slots.push(0);
        slots.push(1);
        slots.push(2);
        slots.push(3);
        slots.push(4);
        assert(slots@ =~= seq![0u32, 1u32, 2u32, 3u32, 4u32]);
        let plan: DispatchPlan = plan_with_scalars(
            self.kernel_name,
            slots,
            ScalarSlot { slot: 5, value: tiles },
            ScalarSlot { slot: 6, value: params.in_dim },
            params.out_dim as u64,
            32,
        );
        let mut begins: Vec<u64> = Vec::new();
        begins.push(offsets.weights_offset);
        begins.push(offsets.scales_offset);
        begins.push(offsets.biases_offset);
        begins.push(0);
        begins.push(0);
        proof {
            lemma_product(params.out_dim, tiles);
        }
        let total: u64 = params.out_dim as u64 * tiles as u64;
        note(receipt, 12, tiles, params.out_dim, 32, params.out_dim, false);
        receipt.sidecar_hits = 0;
        receipt.sidecar_entries_read = 0;
        receipt.logical_weight_bytes = total * 320;
        receipt.logical_sidecar_bytes = total * 5 * 2 * 4;
        receipt.logical_activation_bytes = params.in_dim as u64 * 4 + params.out_dim as u64 * 4;
        assert(begins@ =~= seq![
            offsets.weights_offset,
            offsets.scales_offset,
            offsets.biases_offset,
            0u64,
            0u64,
        ]);
        (plan, begins)
    }
}

/// The dispatch of a 4-bit projection.
pub open spec fn nf4_plan(params: ProjectionParams) -> PlanView {
    scalar_plan(
        "fused_gemv_nf4_tile640_fp32"@,
        seq![0u32, 1u32, 2u32, 3u32, 4u32],
        seq![
            ScalarSlot { slot: 5, value: at_least_one(params.page_count) },
            ScalarSlot { slot: 6, value: params.in_dim },
        ],
        params.out_dim as int,
        32,
    )
}

/// The receipt of a 4-bit projection: a tile holds 320 bytes of codes and five
/// groups with a scale and a bias of four bytes.
pub open spec fn nf4_receipt(r: KernelReceipt, params: ProjectionParams) -> KernelReceipt {
    let tiles = at_least_one(params.page_count);
    KernelReceipt {
        sidecar_hits: 0,
        sidecar_entries_read: 0,
        logical_weight_bytes: (params.out_dim * tiles * 320) as u64,
        logical_sidecar_bytes: (params.out_dim * tiles * 5 * 2 * 4) as u64,
        logical_activation_bytes: (params.in_dim * 4 + params.out_dim * 4) as u64,
        ..noted(r, 12, tiles, params.out_dim, 32, params.out_dim, false)
    }
}

/// Multiplies a matrix of codebook entries by a vector. Its buffers are the
/// codebook, the indices, the input and the output.
#[derive(Debug)]
pub struct DenseProjectionDispatcher<R> {
    pub registry: R,
    pub kernel_name: &'static str,
}

impl<R> DenseProjectionDispatcher<R> {
    pub open spec fn wf(&self) -> bool {
        self.kernel_name@ == "palettized_gemv"@
    }

    pub fn new(registry: R) -> (r: Self)
        ensures
            r.wf(),
            r.registry == registry,
    {
        DenseProjectionDispatcher { registry, kernel_name: "palettized_gemv" }
    }

    /// Plans a dispatch: one group of 64 threads for each row.
    pub fn dispatch(&self, params: &ProjectionParams, receipt: &mut KernelReceipt, instrumented: bool) -> (r:
        DispatchPlan)
        requires
            self.wf(),
            4 * params.in_dim * params.out_dim <= u64::MAX,
        ensures
            r@ == scalar_plan(
                "palettized_gemv"@,
                seq![1u32, 2u32, 0u32, 3u32],
                seq![
                    ScalarSlot { slot: 4, value: params.in_dim },
                    ScalarSlot { slot: 5, value: params.out_dim },
                ],
                params.out_dim as int,
                64,
            ),
            *final(receipt) == (KernelReceipt {
                logical_weight_bytes: (4 * params.in_dim * params.out_dim) as u64,
                logical_activation_bytes: (params.in_dim * params.out_dim * 2) as u64,
                ..noted(
                    *old(receipt),
                    2,
                    params.page_count,
                    params.out_dim,
                    64,
                    params.out_dim,
                    instrumented,
                )
            }),
    {
        let mut slots: Vec<u32> = Vec::new();
        slots.push(1);
        slots.push(2);
        slots.push(0);
        slots.push(3);
        assert(slots@ =~= seq![1u32, 2u32, 0u32, 3u32]);
        let plan: DispatchPlan = plan_with_scalars(
            self.kernel_name,
            slots,
            ScalarSlot { slot: 4, value: params.in_dim },
            ScalarSlot { slot: 5, value: params.out_dim },
            params.out_dim as u64,
            64,
        );
        proof {
            lemma_product(params.in_dim, params.out_dim);
            assert(4 * params.in_dim * params.out_dim == 4 * (params.in_dim * params.out_dim))
                by (nonlinear_arith);
        }
        let total: u64 = params.in_dim as u64 * params.out_dim as u64;
        note(receipt, 2, params.page_count, params.out_dim, 64, params.out_dim, instrumented);
        receipt.logical_weight_bytes = 4 * total;
        receipt.logical_activation_bytes = total * 2;
        plan
    }
}

/// A number, but at most 1024.
pub open spec fn up_to_1024(n: u32) -> u32 {
    if n > 1024 {
        1024
    } else {
        n
    }
}

/// Compares the outputs of teacher and student. Its buffers are the teacher's
/// activations, the student's, and the records of errors.
#[derive(Debug)]
pub struct ErrorPartialDispatcher<R> {
    pub registry: R,
    pub kernel_name: &'static str,
}

impl<R> ErrorPartialDispatcher<R> {
    pub open spec fn wf(&self) -> bool {
        self.kernel_name@ == "error_partial"@
    }

    pub fn new(registry: R) -> (r: Self)
        ensures
            r.wf(),
            r.registry == registry,
    {
        ErrorPartialDispatcher { registry, kernel_name: "error_partial" }
    }

    /// Plans a dispatch: one group, with a thread for each element up to 1024.
    pub fn dispatch(
        &self,
        params: &ProjectionParams,
        receipt: &mut KernelReceipt,
        instrumented: bool,
    ) -> (r: DispatchPlan)
        requires
            self.wf(),
            params.out_dim * params.in_dim <= u32::MAX,
        ensures
            r@ == params_plan(
                "error_partial"@,
                kernel_registry::constants_of(params.page_width, false, instrumented),
                seq![buffer_slot::WEIGHTS, buffer_slot::INPUT, buffer_slot::ERROR_PARTIALS],
                instrumented,
                1,
                up_to_1024(at_least_one((params.out_dim * params.in_dim) as u32)) as int,
            ),
            *final(receipt) == noted(
                *old(receipt),
                3,
                params.page_count,
                1,
                up_to_1024(at_least_one((params.out_dim * params.in_dim) as u32)),
                at_least_one((params.out_dim * params.in_dim) as u32),
                instrumented,
            ),
    {
        proof {
            lemma_product(params.out_dim, params.in_dim);
        }
        let elements: u32 = or_one((params.out_dim as u64 * params.in_dim as u64) as u32);
        let threads: u32 = if elements > 1024 {
            1024
        } else {
            elements
        };
        let mut slots: Vec<u32> = Vec::new();
        slots.push(buffer_slot::WEIGHTS);
        slots.push(buffer_slot::INPUT);
        slots.push(buffer_slot::ERROR_PARTIALS);
        assert(slots@ =~= seq![buffer_slot::WEIGHTS, buffer_slot::INPUT, buffer_slot::ERROR_PARTIALS]);
        note(receipt, 3, params.page_count, 1, threads, elements, instrumented);
        plan_with_params(
            self.kernel_name,
            projection_constants(params.page_width, false, instrumented),
            slots,
            instrumented,
            1,
            threads as u64,
        )
    }
}

/// Samples the attention of teacher and student. Its buffers are the teacher's
/// scores, the student's, and the records of probes. The input dimension counts
/// heads and the output dimension counts tokens.
#[derive(Debug)]
pub struct ProbeDispatcher<R> {
    pub registry: R,
    pub kernel_name: &'static str,
}

impl<R> ProbeDispatcher<R> {
    pub open spec fn wf(&self) -> bool {
        self.kernel_name@ == "attention_probe"@
    }

    pub fn new(registry: R) -> (r: Self)
        ensures
            r.wf(),
            r.registry == registry,
    {
        ProbeDispatcher { registry, kernel_name: "attention_probe" }
    }

    /// Plans a dispatch: one group of 32 threads for each head and token.
    pub fn dispatch(
        &self,
        params: &ProjectionParams,
        receipt: &mut KernelReceipt,
        instrumented: bool,
    ) -> (r: DispatchPlan)
        requires
            self.wf(),
        ensures
            r@ == params_plan(
                "attention_probe"@,
                kernel_registry::constants_of(params.page_width, false, instrumented),
                seq![buffer_slot::WEIGHTS, buffer_slot::INPUT, buffer_slot::PROBE_OUTPUT],
                instrumented,
                at_least_one(params.in_dim) * at_least_one(params.out_dim),
                32,
            ),
            *final(receipt) == noted(
                *old(receipt),
                4,
                0,
                (at_least_one(params.in_dim) * at_least_one(params.out_dim) % 0x1_0000_0000) as u32,
                32,
                at_least_one(params.out_dim),
                instrumented,
            ),
    {
        let heads: u32 = or_one(params.in_dim);
        let tokens: u32 = or_one(params.out_dim);
        proof {
            lemma_product(heads, tokens);
        }
        let groups: u64 = heads as u64 * tokens as u64;
        let mut slots: Vec<u32> = Vec::new();
        slots.push(buffer_slot::WEIGHTS);
        slots.push(buffer_slot::INPUT);
        slots.push(buffer_slot::PROBE_OUTPUT);
        assert(slots@ =~= seq![buffer_slot::WEIGHTS, buffer_slot::INPUT, buffer_slot::PROBE_OUTPUT]);
        note(receipt, 4, 0, (groups % 0x1_0000_0000) as u32, 32, tokens, instrumented);
        plan_with_params(
            self.kernel_name,
            projection_constants(params.page_width, false, instrumented),
            slots,
            instrumented,
            groups,
            32,
        )
    }
}

/// Scores pages that might replace others. Its buffers are the weights, the
/// input, and the scores.
#[derive(Debug)]
pub struct CandidateScoreDispatcher<R> {
    pub registry: R,
    pub kernel_name: &'static str,
}

impl<R> CandidateScoreDispatcher<R> {
    pub open spec fn wf(&self) -> bool {
        self.kernel_name@ == "candidate_score"@
    }

    pub fn new(registry: R) -> (r: Self)
        ensures
            r.wf(),
            r.registry == registry,
    {
        CandidateScoreDispatcher { registry, kernel_name: "candidate_score" }
    }

    /// Plans a dispatch: one group with a thread for each page.
    pub fn dispatch(
        &self,
        params: &ProjectionParams,
        receipt: &mut KernelReceipt,
        instrumented: bool,
    ) -> (r: DispatchPlan)
        requires
            self.wf(),
        ensures
            r@ == params_plan(
                "candidate_score"@,
                kernel_registry::constants_of(params.page_width, false, instrumented),
                seq![buffer_slot::WEIGHTS, buffer_slot::INPUT, buffer_slot::PAGE_SCORES],
                instrumented,
                1,
                at_least_one(params.page_count) as int,
            ),
            *final(receipt) == noted(
                *old(receipt),
                5,
                at_least_one(params.page_count),
                1,
                at_least_one(params.page_count),
                at_least_one(params.page_count),
                instrumented,
            ),
    {
        let pages: u32 = or_one(params.page_count);
        let mut slots: Vec<u32> = Vec::new();
        slots.push(buffer_slot::WEIGHTS);
        slots.push(buffer_slot::INPUT);
        slots.push(buffer_slot::PAGE_SCORES);
        assert(slots@ =~= seq![buffer_slot::WEIGHTS, buffer_slot::INPUT, buffer_slot::PAGE_SCORES]);
        note(receipt, 5, pages, 1, pages, pages, instrumented);
        plan_with_params(
            self.kernel_name,
            projection_constants(params.page_width, false, instrumented),
            slots,
            instrumented,
            1,
            pages as u64,
        )
    }
}

/// Checks that packed pages unpack without loss. Its buffers are the packed
/// weights and the records of errors.
#[derive(Debug)]
pub struct PackVerifyDispatcher<R> {
    pub registry: R,
    pub kernel_name: &'static str,
}

impl<R> PackVerifyDispatcher<R> {
    pub open spec fn wf(&self) -> bool {
        self.kernel_name@ == "pack_verify"@
    }

    pub fn new(registry: R) -> (r: Self)
        ensures
            r.wf(),
            r.registry == registry,
    {
        PackVerifyDispatcher { registry, kernel_name: "pack_verify" }
    }

    /// Plans a dispatch: one group of 32 threads for each page.
    pub fn dispatch(
        &self,
        params: &ProjectionParams,
        receipt: &mut KernelReceipt,
        instrumented: bool,
    ) -> (r: DispatchPlan)
        requires
            self.wf(),
        ensures
            r@ == params_plan(
                "pack_verify"@,
                kernel_registry::constants_of(params.page_width, false, instrumented),
                seq![buffer_slot::WEIGHTS, buffer_slot::ERROR_PARTIALS],
                instrumented,
                at_least_one(params.page_count) as int,
                32,
            ),
            *final(receipt) == noted(
                *old(receipt),
                6,
                at_least_one(params.page_count),
                at_least_one(params.page_count),
                32,
                at_least_one(params.page_count),
                instrumented,
            ),
    {
        let pages: u32 = or_one(params.page_count);
        let mut slots: Vec<u32> = Vec::new();
        slots.push(buffer_slot::WEIGHTS);
        slots.push(buffer_slot::ERROR_PARTIALS);
        assert(slots@ =~= seq![buffer_slot::WEIGHTS, buffer_slot::ERROR_PARTIALS]);
        note(receipt, 6, pages, pages, 32, pages, instrumented);
        plan_with_params(
            self.kernel_name,
            projection_constants(params.page_width, false, instrumented),
            slots,
            instrumented,
            pages as u64,
            32,
        )
    }
}

/// Normalizes hidden states and samples the residual. Its buffers are the hidden
/// states, the weights of the norm, the result, and the records of probes.
#[derive(Debug)]
pub struct RmsnormResidualProbeDispatcher<R> {
    pub registry: R,
    pub kernel_name: &'static str,
}

impl<R> RmsnormResidualProbeDispatcher<R> {
    pub open spec fn wf(&self) -> bool {
        self.kernel_name@ == "rmsnorm_residual_probe"@
    }

    pub fn new(registry: R) -> (r: Self)
        ensures
            r.wf(),
            r.registry == registry,
    {
        RmsnormResidualProbeDispatcher { registry, kernel_name: "rmsnorm_residual_probe" }
    }

    /// Plans a dispatch: one group of 64 threads for each output.
    pub fn dispatch(
        &self,
        params: &ProjectionParams,
        receipt: &mut KernelReceipt,
        instrumented: bool,
    ) -> (r: DispatchPlan)
        requires
            self.wf(),
        ensures
            r@ == params_plan(
                "rmsnorm_residual_probe"@,
                kernel_registry::constants_of(params.page_width, false, instrumented),
                seq![buffer_slot::WEIGHTS, buffer_slot::INPUT, buffer_slot::OUTPUT, buffer_slot::PROBE_OUTPUT],
                instrumented,
                at_least_one(params.out_dim) as int,
                64,
            ),
            *final(receipt) == noted(
                *old(receipt),
                7,
                0,
                at_least_one(params.out_dim),
                64,
                at_least_one(params.out_dim),
                instrumented,
            ),
    {
        let rows: u32 = or_one(params.out_dim);
        let mut slots: Vec<u32> = Vec::new();
        slots.push(buffer_slot::WEIGHTS);
        slots.push(buffer_slot::INPUT);
        slots.push(buffer_slot::OUTPUT);
        slots.push(buffer_slot::PROBE_OUTPUT);
        assert(slots@ =~= seq![buffer_slot::WEIGHTS, buffer_slot::INPUT, buffer_slot::OUTPUT, buffer_slot::PROBE_OUTPUT]);
        note(receipt, 7, 0, rows, 64, rows, instrumented);
        plan_with_params(
            self.kernel_name,
            projection_constants(params.page_width, false, instrumented),
            slots,
            instrumented,
            rows as u64,
            64,
        )
    }
}

/// Samples the activations of a feed-forward block. Its buffers are the hidden
/// states, the weights of its three projections, the result, and the records of
/// probes.
#[derive(Debug)]
pub struct MlpActivationProbeDispatcher<R> {
    pub registry: R,
    pub kernel_name: &'static str,
}

impl<R> MlpActivationProbeDispatcher<R> {
    pub open spec fn wf(&self) -> bool {
        self.kernel_name@ == "mlp_activation_probe"@
    }

    pub fn new(registry: R) -> (r: Self)
        ensures
            r.wf(),
            r.registry == registry,
    {
        MlpActivationProbeDispatcher { registry, kernel_name: "mlp_activation_probe" }
    }

    /// Plans a dispatch: one group of 64 threads for each output.
    pub fn dispatch(
        &self,
        params: &ProjectionParams,
        receipt: &mut KernelReceipt,
        instrumented: bool,
    ) -> (r: DispatchPlan)
        requires
            self.wf(),
        ensures
            r@ == params_plan(
                "mlp_activation_probe"@,
                kernel_registry::constants_of(params.page_width, false, instrumented),
                seq![buffer_slot::WEIGHTS, buffer_slot::INPUT, buffer_slot::PAGE_SCALES, buffer_slot::CHANNEL_SCALES, buffer_slot::OUTPUT, buffer_slot::PROBE_OUTPUT],
                instrumented,
                at_least_one(params.out_dim) as int,
                64,
            ),
            *final(receipt) == noted(
                *old(receipt),
                8,
                0,
                at_least_one(params.out_dim),
                64,
                at_least_one(params.out_dim),
                instrumented,
            ),
    {
        let rows: u32 = or_one(params.out_dim);
        let mut slots: Vec<u32> = Vec::new();
        slots.push(buffer_slot::WEIGHTS);
        slots.push(buffer_slot::INPUT);
        slots.push(buffer_slot::PAGE_SCALES);
        slots.push(buffer_slot::CHANNEL_SCALES);
        slots.push(buffer_slot::OUTPUT);
        slots.push(buffer_slot::PROBE_OUTPUT);
        assert(slots@ =~= seq![buffer_slot::WEIGHTS, buffer_slot::INPUT, buffer_slot::PAGE_SCALES, buffer_slot::CHANNEL_SCALES, buffer_slot::OUTPUT, buffer_slot::PROBE_OUTPUT]);
        note(receipt, 8, 0, rows, 64, rows, instrumented);
        plan_with_params(
            self.kernel_name,
            projection_constants(params.page_width, false, instrumented),
            slots,
            instrumented,
            rows as u64,
            64,
        )
    }
}

/// Checks that outliers apply to packed weights. Its buffers are the packed
/// weights, the activations, the outliers and their offsets, each of which may be
/// absent, the result, and the records of errors.
#[derive(Debug)]
pub struct SidecarApplyVerifyDispatcher<R> {
    pub registry: R,
    pub kernel_name: &'static str,
}

impl<R> SidecarApplyVerifyDispatcher<R> {
    pub open spec fn wf(&self) -> bool {
        self.kernel_name@ == "sidecar_apply_verify"@
    }

    pub fn new(registry: R) -> (r: Self)
        ensures
            r.wf(),
            r.registry == registry,
    {
        SidecarApplyVerifyDispatcher { registry, kernel_name: "sidecar_apply_verify" }
    }

    /// Plans a dispatch: one group of 32 threads for each page.
    pub fn dispatch(
        &self,
        params: &ProjectionParams,
        receipt: &mut KernelReceipt,
        instrumented: bool,
        has_sidecar: bool,
    ) -> (r: DispatchPlan)
        requires
            self.wf(),
        ensures
            r@ == params_plan(
                "sidecar_apply_verify"@,
                kernel_registry::constants_of(params.page_width, has_sidecar, instrumented),
                seq![buffer_slot::WEIGHTS, buffer_slot::INPUT, buffer_slot::SIDECAR, buffer_slot::SIDECAR_OFFSETS, buffer_slot::OUTPUT, buffer_slot::ERROR_PARTIALS],
                instrumented,
                at_least_one(params.page_count) as int,
                32,
            ),
            *final(receipt) == noted(
                *old(receipt),
                9,
                at_least_one(params.page_count),
                at_least_one(params.page_count),
                32,
                at_least_one(params.page_count),
                instrumented,
            ),
    {
        let pages: u32 = or_one(params.page_count);
        let mut slots: Vec<u32> = Vec::new();
        slots.push(buffer_slot::WEIGHTS);
        slots.push(buffer_slot::INPUT);
        slots.push(buffer_slot::SIDECAR);
        slots.push(buffer_slot::SIDECAR_OFFSETS);
        slots.push(buffer_slot::OUTPUT);
        slots.push(buffer_slot::ERROR_PARTIALS);
        assert(slots@ =~= seq![buffer_slot::WEIGHTS, buffer_slot::INPUT, buffer_slot::SIDECAR, buffer_slot::SIDECAR_OFFSETS, buffer_slot::OUTPUT, buffer_slot::ERROR_PARTIALS]);
        note(receipt, 9, pages, pages, 32, pages, instrumented);
        plan_with_params(
            self.kernel_name,
            projection_constants(params.page_width, has_sidecar, instrumented),
            slots,
            instrumented,
            pages as u64,
            32,
        )
    }
}

/// Normalizes, projects to queries, keys and values, and rotates. Its buffers are
/// the hidden states, the projection, the weights of the norm, the output, the
/// arena and its descriptors.
#[derive(Debug)]
pub struct FusedRmsnormQkvDispatcher<R> {
    pub registry: R,
    pub kernel_name: &'static str,
}

impl<R> FusedRmsnormQkvDispatcher<R> {
    pub open spec fn wf(&self) -> bool {
        self.kernel_name@ == "fused_rmsnorm_qkv"@
    }

    pub fn new(registry: R) -> (r: Self)
        ensures
            r.wf(),
            r.registry == registry,
    {
        FusedRmsnormQkvDispatcher { registry, kernel_name: "fused_rmsnorm_qkv" }
    }

    /// Plans a dispatch: one group of 64 threads for each output.
    pub fn dispatch(
        &self,
        params: &ProjectionParams,
        receipt: &mut KernelReceipt,
        instrumented: bool,
    ) -> (r: DispatchPlan)
        requires
            self.wf(),
        ensures
            r@ == params_plan(
                "fused_rmsnorm_qkv"@,
                kernel_registry::constants_of(params.page_width, false, instrumented),
                seq![buffer_slot::WEIGHTS, buffer_slot::INPUT, buffer_slot::PAGE_SCALES, buffer_slot::OUTPUT, buffer_slot::ACTIVATION_ARENA, buffer_slot::ARENA_DESCRIPTORS],
                instrumented,
                at_least_one(params.out_dim) as int,
                64,
            ),
            *final(receipt) == noted(
                *old(receipt),
                10,
                params.page_count,
                at_least_one(params.out_dim),
                64,
                at_least_one(params.out_dim),
                instrumented,
            ),
    {
        let rows: u32 = or_one(params.out_dim);
        let mut slots: Vec<u32> = Vec::new();
        slots.push(buffer_slot::WEIGHTS);
        slots.push(buffer_slot::INPUT);
        slots.push(buffer_slot::PAGE_SCALES);
        slots.push(buffer_slot::OUTPUT);
        slots.push(buffer_slot::ACTIVATION_ARENA);
        slots.push(buffer_slot::ARENA_DESCRIPTORS);
        assert(slots@ =~= seq![buffer_slot::WEIGHTS, buffer_slot::INPUT, buffer_slot::PAGE_SCALES, buffer_slot::OUTPUT, buffer_slot::ACTIVATION_ARENA, buffer_slot::ARENA_DESCRIPTORS]);
        note(receipt, 10, params.page_count, rows, 64, rows, instrumented);
        plan_with_params(
            self.kernel_name,
            projection_constants(params.page_width, false, instrumented),
            slots,
            instrumented,
            rows as u64,
            64,
        )
    }
}

/// Projects the output of attention and adds the residual. Its buffers are the
/// projection, the hidden states, the residual, the output, the arena and its
/// descriptors.
#[derive(Debug)]
pub struct FusedOProjResidualDispatcher<R> {
    pub registry: R,
    pub kernel_name: &'static str,
}

impl<R> FusedOProjResidualDispatcher<R> {
    pub open spec fn wf(&self) -> bool {
        self.kernel_name@ == "fused_o_proj_residual"@
    }

    pub fn new(registry: R) -> (r: Self)
        ensures
            r.wf(),
            r.registry == registry,
    {
        FusedOProjResidualDispatcher { registry, kernel_name: "fused_o_proj_residual" }
    }

    /// Plans a dispatch: one group of 64 threads for each output.
    pub fn dispatch(
        &self,
        params: &ProjectionParams,
        receipt: &mut KernelReceipt,
        instrumented: bool,
    ) -> (r: DispatchPlan)
        requires
            self.wf(),
        ensures
            r@ == params_plan(
                "fused_o_proj_residual"@,
                kernel_registry::constants_of(params.page_width, false, instrumented),
                seq![buffer_slot::WEIGHTS, buffer_slot::INPUT, buffer_slot::PAGE_SCALES, buffer_slot::OUTPUT, buffer_slot::ACTIVATION_ARENA, buffer_slot::ARENA_DESCRIPTORS],
                instrumented,
                at_least_one(params.out_dim) as int,
                64,
            ),
            *final(receipt) == noted(
                *old(receipt),
                11,
                params.page_count,
                at_least_one(params.out_dim),
                64,
                at_least_one(params.out_dim),
                instrumented,
            ),
    {
        let rows: u32 = or_one(params.out_dim);
        let mut slots: Vec<u32> = Vec::new();
        slots.push(buffer_slot::WEIGHTS);
        slots.push(buffer_slot::INPUT);
        slots.push(buffer_slot::PAGE_SCALES);
        slots.push(buffer_slot::OUTPUT);
        slots.push(buffer_slot::ACTIVATION_ARENA);
        slots.push(buffer_slot::ARENA_DESCRIPTORS);
        assert(slots@ =~= seq![buffer_slot::WEIGHTS, buffer_slot::INPUT, buffer_slot::PAGE_SCALES, buffer_slot::OUTPUT, buffer_slot::ACTIVATION_ARENA, buffer_slot::ARENA_DESCRIPTORS]);
        note(receipt, 11, params.page_count, rows, 64, rows, instrumented);
        plan_with_params(
            self.kernel_name,
            projection_constants(params.page_width, false, instrumented),
            slots,
            instrumented,
            rows as u64,
            64,
        )
    }
}

/// Projects embeddings of other media. Its buffers are the projection, the
/// embeddings, the output, the arena and its descriptors.
#[derive(Debug)]
pub struct FusedMultimodalDispatcher<R> {
    pub registry: R,
    pub kernel_name: &'static str,
}

impl<R> FusedMultimodalDispatcher<R> {
    pub open spec fn wf(&self) -> bool {
        self.kernel_name@ == "fused_multimodal"@
    }

    pub fn new(registry: R) -> (r: Self)
        ensures
            r.wf(),
            r.registry == registry,
    {
        FusedMultimodalDispatcher { registry, kernel_name: "fused_multimodal" }
    }

    /// Plans a dispatch: one group of 64 threads for each output.
    pub fn dispatch(
        &self,
        params: &ProjectionParams,
        receipt: &mut KernelReceipt,
        instrumented: bool,
    ) -> (r: DispatchPlan)
        requires
            self.wf(),
        ensures
            r@ == params_plan(
                "fused_multimodal"@,
                kernel_registry::constants_of(params.page_width, false, instrumented),
                seq![buffer_slot::WEIGHTS, buffer_slot::INPUT, buffer_slot::OUTPUT, buffer_slot::ACTIVATION_ARENA, buffer_slot::ARENA_DESCRIPTORS],
                instrumented,
                at_least_one(params.out_dim) as int,
                64,
            ),
            *final(receipt) == noted(
                *old(receipt),
                12,
                params.page_count,
                at_least_one(params.out_dim),
                64,
                at_least_one(params.out_dim),
                instrumented,
            ),
    {
        let rows: u32 = or_one(params.out_dim);
        let mut slots: Vec<u32> = Vec::new();
        slots.push(buffer_slot::WEIGHTS);
        slots.push(buffer_slot::INPUT);
        slots.push(buffer_slot::OUTPUT);
        slots.push(buffer_slot::ACTIVATION_ARENA);
        slots.push(buffer_slot::ARENA_DESCRIPTORS);
        assert(slots@ =~= seq![buffer_slot::WEIGHTS, buffer_slot::INPUT, buffer_slot::OUTPUT, buffer_slot::ACTIVATION_ARENA, buffer_slot::ARENA_DESCRIPTORS]);
        note(receipt, 12, params.page_count, rows, 64, rows, instrumented);
        plan_with_params(
            self.kernel_name,
            projection_constants(params.page_width, false, instrumented),
            slots,
            instrumented,
            rows as u64,
            64,
        )
    }
}

/// A plan with parameters binds them in a slot of their own, and the receipt in another
/// exactly where the dispatch is instrumented; one with scalars binds neither.
pub proof fn law_plans_bind_what_they_carry(
    name: Seq<char>,
    constants: ProjectionConstants,
    slots: Seq<u32>,
    scalars: Seq<ScalarSlot>,
    instrumented: bool,
    groups: int,
    threads: int,
)
    ensures
        ({
            let p = params_plan(name, constants, slots, instrumented, groups, threads);
            &&& p.kernel_name == name && p.constants == Some(constants) && p.buffer_slots == slots
            &&& p.scalars.len() == 0
            &&& p.params_slot == Some(7u32)
            &&& p.receipt_slot == (if instrumented {
                Some(8u32)
            } else {
                None
            })
            &&& p.groups == groups && p.threads == threads
        }),
        ({
            let p = scalar_plan(name, slots, scalars, groups, threads);
            &&& p.kernel_name == name && p.constants is None && p.buffer_slots == slots
            &&& p.scalars == scalars
            &&& p.params_slot is None && p.receipt_slot is None
            &&& p.groups == groups && p.threads == threads
        }),
{
}

/// A dispatch is noted in a receipt with its kernel, its pages, its groups of threads and
/// its outputs, and with a flag where it is instrumented; the counts of bytes stay.
pub proof fn law_receipt_notes_the_dispatch(
    r: KernelReceipt,
    id: u32,
    pages: u32,
    groups: u32,
    threads: u32,
    outputs: u32,
    instrumented: bool,
)
    ensures
        ({
            let n = noted(r, id, pages, groups, threads, outputs, instrumented);
            &&& n.kernel_id == id && n.phase_id == 0 && n.page_count == pages
            &&& n.threadgroups == groups && n.threads_per_threadgroup == threads
            &&& n.output_elements == outputs
            &&& (n.flags == 1) == instrumented && n.flags <= 1
            &&& n.sidecar_hits == r.sidecar_hits && n.sidecar_entries_read
                == r.sidecar_entries_read && n.pad == r.pad
            &&& n.logical_weight_bytes == r.logical_weight_bytes
            &&& n.logical_sidecar_bytes == r.logical_sidecar_bytes
            &&& n.logical_activation_bytes == r.logical_activation_bytes
        }),
{
}

/// The projection of four-bit floats runs one group of thirty-two threads to each output,
/// over at least one tile; its receipt counts 320 bytes of weights to a tile and output,
/// five scales and five biases of four bytes, and four bytes to each input and output.
pub proof fn law_float_projection_counts_its_tiles(r: KernelReceipt, params: ProjectionParams)
    requires
        params.out_dim * at_least_one(params.page_count) * 320 <= u64::MAX,
    ensures
        ({
            let tiles: int = if params.page_count == 0 {
                1
            } else {
                params.page_count as int
            };
            let p = nf4_plan(params);
            let n = nf4_receipt(r, params);
            &&& p.groups == params.out_dim && p.threads == 32
            &&& p.scalars.len() == 2
            &&& p.scalars[0].slot == 5 && p.scalars[0].value == tiles
            &&& p.scalars[1].slot == 6 && p.scalars[1].value == params.in_dim
            &&& p.buffer_slots.len() == 5
            &&& forall|i: int| 0 <= i < 5 ==> #[trigger] p.buffer_slots[i] == i
            &&& n.page_count == tiles && n.threadgroups == params.out_dim
            &&& n.output_elements == params.out_dim && n.threads_per_threadgroup == 32
            &&& n.flags == 0 && n.sidecar_hits == 0 && n.sidecar_entries_read == 0
            &&& n.logical_weight_bytes == 320 * (params.out_dim * tiles)
            &&& n.logical_sidecar_bytes == 40 * (params.out_dim * tiles)
            &&& n.logical_activation_bytes == 4 * (params.in_dim + params.out_dim)
        }),
{
    let t = at_least_one(params.page_count) as int;
    let o = params.out_dim as int;
    assert(o * t * 320 == 320 * (o * t));
    assert(o * t * 5 * 2 * 4 == 40 * (o * t));
    assert(o * t >= 0) by (nonlinear_arith)
        requires
            o >= 0,
            t >= 0,
    ;
}

} // verus!
