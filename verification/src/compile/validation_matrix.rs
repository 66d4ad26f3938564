//! The validation of kernels: what was measured of each kernel becomes a matrix
//! of results, each passed or failed with an account of the errors.
//!
//! Errors are double-precision numbers, given by their bits and by how they are
//! written out.

use vstd::prelude::*;
use vstd::string::*;

use crate::float_bits;
use crate::text;

use super::validation_data;
use super::validation_data::{f16_bits_to_f32, pack_page, unpack_page};

verus! {

// ---------------------------------------------------------------------------
// Comparison of floating-point numbers by their bits
// ---------------------------------------------------------------------------

/// Whether a double-precision number is a NaN.
pub open spec fn is_nan64(b: u64) -> bool {
    b as int % 0x8000_0000_0000_0000 > 0x7FF0_0000_0000_0000
}

/// A number that is ordered as the double-precision number is.
pub open spec fn rank64(b: u64) -> int {
    if b >= 0x8000_0000_0000_0000 {
        0x8000_0000_0000_0000 - b
    } else {
        b as int
    }
}

/// Whether one double-precision number is greater than the other.
pub open spec fn is_above(a: u64, b: u64) -> bool {
    !is_nan64(a) && !is_nan64(b) && rank64(a) > rank64(b)
}

/// The greater of two double-precision numbers, or the one that is a number.
pub open spec fn greater(a: u64, b: u64) -> u64 {
    if is_nan64(a) {
        b
    } else if is_above(b, a) {
        b
    } else {
        a
    }
}

fn above(a: u64, b: u64) -> (r: bool)
    ensures
        r == is_above(a, b),
{
    let top: u64 = 0x8000_0000_0000_0000;
    let ma: u64 = a % top;
    let mb: u64 = b % top;
    if ma > 0x7FF0_0000_0000_0000 || mb > 0x7FF0_0000_0000_0000 {
        return false;
    }
    if a >= top {
        b >= top && ma < mb
    } else if b >= top {
        ma > 0 || mb > 0
    } else {
        ma > mb
    }
}

fn greater_of(a: u64, b: u64) -> (r: u64)
    ensures
        r == greater(a, b),
{
    if a % 0x8000_0000_0000_0000 > 0x7FF0_0000_0000_0000 {
        b
    } else if above(b, a) {
        b
    } else {
        a
    }
}

/// A number that is ordered as the single-precision number is.
pub open spec fn rank32(b: u32) -> int {
    if b >= 0x8000_0000 {
        0x8000_0000 - b
    } else {
        b as int
    }
}

/// Whether one single-precision number is greater than the other.
pub open spec fn is_above32(a: u32, b: u32) -> bool {
    !float_bits::is_nan(a) && !float_bits::is_nan(b) && rank32(a) > rank32(b)
}

/// Whether one single-precision number is at least the other.
pub open spec fn is_at_least32(a: u32, b: u32) -> bool {
    !float_bits::is_nan(a) && !float_bits::is_nan(b) && rank32(a) >= rank32(b)
}

/// Whether two single-precision numbers are equal.
pub open spec fn is_equal32(a: u32, b: u32) -> bool {
    !float_bits::is_nan(a) && !float_bits::is_nan(b) && rank32(a) == rank32(b)
}

fn nan32(a: u32) -> (r: bool)
    ensures
        r == float_bits::is_nan(a),
{
    a % 0x8000_0000 > 0x7F80_0000
}

fn signed_rank(a: u32) -> (r: i64)
    ensures
        r == rank32(a),
{
    if a >= 0x8000_0000 {
        0x8000_0000 - a as i64
    } else {
        a as i64
    }
}

fn above32(a: u32, b: u32) -> (r: bool)
    ensures
        r == is_above32(a, b),
{
    !nan32(a) && !nan32(b) && signed_rank(a) > signed_rank(b)
}

fn at_least32(a: u32, b: u32) -> (r: bool)
    ensures
        r == is_at_least32(a, b),
{
    !nan32(a) && !nan32(b) && signed_rank(a) >= signed_rank(b)
}

fn equal32(a: u32, b: u32) -> (r: bool)
    ensures
        r == is_equal32(a, b),
{
    !nan32(a) && !nan32(b) && signed_rank(a) == signed_rank(b)
}

/// The bits of one, in double precision.
pub const ONE: u64 = 0x3FF0_0000_0000_0000;

/// The bits of a thousandth.
pub const LIMIT_3: u64 = 0x3F50_624D_D2F1_A9FC;

/// The bits of a tenth of a thousandth.
pub const LIMIT_4: u64 = 0x3F1A_36E2_EB1C_432D;

/// The bits of a millionth.
pub const LIMIT_6: u64 = 0x3EB0_C6F7_A0B5_ED8D;

/// The bits of a fifth, in single precision.
pub const FIFTH: u32 = 0x3E4C_CCCD;

/// The bits of a thousandth, in single precision.
pub const THOUSANDTH: u32 = 0x3A83_126F;

/// The bits of a half, in single precision.
pub const HALF: u32 = 0x3F00_0000;

// ---------------------------------------------------------------------------
// Results
// ---------------------------------------------------------------------------

/// The outcome of one test.
#[derive(Debug)]
pub struct ValidationResult {
    pub kernel_name: String,
    pub test_name: String,
    pub passed: bool,
    /// The bits of the greatest error.
    pub max_abs_error: u64,
    pub details: String,
}

/// A result in contracts.
#[verifier::ext_equal]
pub ghost struct ResultView {
    pub kernel_name: Seq<char>,
    pub test_name: Seq<char>,
    pub passed: bool,
    pub max_abs_error: u64,
    pub details: Seq<char>,
}

/// The result of a test in which nothing was found.
pub open spec fn blank(kernel_name: Seq<char>, test_name: Seq<char>) -> ResultView {
    ResultView { kernel_name, test_name, passed: true, max_abs_error: 0, details: Seq::empty() }
}

/// The separator before a further detail.
pub open spec fn separator(details: Seq<char>) -> Seq<char> {
    if details.len() > 0 {
        "; "@
    } else {
        Seq::empty()
    }
}

/// The result after a failure.
pub open spec fn failed(r: ResultView, error: u64, details: Seq<char>) -> ResultView {
    ResultView {
        passed: false,
        max_abs_error: greater(r.max_abs_error, error),
        details: r.details + separator(r.details) + details,
        ..r
    }
}

/// The result after an error was recorded. Only errors above zero are written
/// down.
pub open spec fn recorded(r: ResultView, error: u64, label: Seq<char>, shown: Seq<char>) -> ResultView {
    ResultView {
        max_abs_error: greater(r.max_abs_error, error),
        details: if is_above(error, 0) {
            r.details + separator(r.details) + label + "="@ + shown
        } else {
            r.details
        },
        ..r
    }
}

impl ValidationResult {
    pub open spec fn view(&self) -> ResultView {
        ResultView {
            kernel_name: self.kernel_name@,
            test_name: self.test_name@,
            passed: self.passed,
            max_abs_error: self.max_abs_error,
            details: self.details@,
        }
    }

    /// The result of a test in which nothing was found.
    pub fn new(kernel_name: &str, test_name: &str) -> (r: Self)
        ensures
            r@ == blank(kernel_name@, test_name@),
    {
        let r: ValidationResult = ValidationResult {
            kernel_name: kernel_name.to_owned(),
            test_name: test_name.to_owned(),
            passed: true,
            max_abs_error: 0,
            details: String::new(),
        };
        assert(r@ =~= blank(kernel_name@, test_name@));
        r
    }

    fn separate(&mut self)
        ensures
            final(self)@ == (ResultView {
                details: old(self)@.details + separator(old(self)@.details),
                ..old(self)@
            }),
    {
        let ghost before = self.details@;
        if self.details.as_str().unicode_len() > 0 {
            self.details.append("; ");
        }
        assert(self.details@ =~= before + separator(before));
    }

    /// Fails the test.
    pub fn fail(&mut self, error: u64, details: String)
        ensures
            final(self)@ == failed(old(self)@, error, details@),
    {
        self.passed = false;
        self.max_abs_error = greater_of(self.max_abs_error, error);
        self.separate();
        self.details.append(details.as_str());
    }

    /// Records an error under a label.
    pub fn record_error(&mut self, error: u64, label: &str, shown: &str)
        ensures
            final(self)@ == recorded(old(self)@, error, label@, shown@),
    {
        self.max_abs_error = greater_of(self.max_abs_error, error);
        if above(error, 0) {
            self.separate();
            self.details.append(label);
            self.details.append("=");
            self.details.append(shown);
        }
    }
}

pub open spec fn result_views(s: Seq<ValidationResult>) -> Seq<ResultView> {
    s.map_values(|r: ValidationResult| r@)
}

/// The results of a kernel.
#[derive(Debug)]
pub struct ValidationMatrix {
    pub kernel_name: String,
    pub results: Vec<ValidationResult>,
    pub overall_pass: bool,
}

/// A matrix in contracts.
#[verifier::ext_equal]
pub ghost struct MatrixView {
    pub kernel_name: Seq<char>,
    pub results: Seq<ResultView>,
    pub overall_pass: bool,
}

/// The matrix of a kernel with these results.
pub open spec fn matrix_of(kernel_name: Seq<char>, results: Seq<ResultView>) -> MatrixView {
    MatrixView {
        kernel_name,
        results,
        overall_pass: forall|i: int| 0 <= i < results.len() ==> (#[trigger] results[i]).passed,
    }
}

/// The matrix after one more result.
pub open spec fn with_result(m: MatrixView, r: ResultView) -> MatrixView {
    MatrixView {
        kernel_name: m.kernel_name,
        results: m.results.push(r),
        overall_pass: m.overall_pass && r.passed,
    }
}

/// A kernel passes exactly when each of its tests does, whatever results came in
/// before: adding a result to the matrix of some results gives the matrix of all.
pub proof fn law_pass_means_all_pass(kernel: Seq<char>, results: Seq<ResultView>, r: ResultView)
    ensures
        with_result(matrix_of(kernel, results), r) == matrix_of(kernel, results.push(r)),
{
    let all = results.push(r);
    let before = matrix_of(kernel, results);
    if before.overall_pass && r.passed {
        assert forall|i: int| 0 <= i < all.len() implies (#[trigger] all[i]).passed by {
            if i < results.len() {
                assert(results[i].passed);
            }
        }
    } else if !r.passed {
        assert(!all[results.len() as int].passed);
    } else {
        let i = choose|i: int| 0 <= i < results.len() && !(#[trigger] results[i]).passed;
        assert(!all[i].passed);
    }
}

impl ValidationMatrix {
    pub open spec fn view(&self) -> MatrixView {
        MatrixView {
            kernel_name: self.kernel_name@,
            results: result_views(self.results@),
            overall_pass: self.overall_pass,
        }
    }

    /// The matrix of a kernel without results.
    pub fn new(kernel_name: &str) -> (r: Self)
        ensures
            r@ == matrix_of(kernel_name@, Seq::empty()),
    {
        let r: ValidationMatrix = ValidationMatrix {
            kernel_name: kernel_name.to_owned(),
            results: Vec::new(),
            overall_pass: true,
        };
        assert(r@.results =~= Seq::<ResultView>::empty());
        r
    }

    /// Adds a result. A failed one fails the kernel.
    pub fn push(&mut self, r: ValidationResult)
        ensures
            final(self)@ == with_result(old(self)@, r@),
    {
        let ghost before = self@;
        let ghost view = r@;
        if !r.passed {
            self.overall_pass = false;
        }
        self.results.push(r);
        assert(self@.results =~= before.results.push(view));
    }
}

fn add_result(m: &mut ValidationMatrix, r: ValidationResult)
    requires
        old(m)@ == matrix_of(old(m)@.kernel_name, old(m)@.results),
    ensures
        final(m)@ == matrix_of(old(m)@.kernel_name, old(m)@.results.push(r@)),
{
    proof {
        law_pass_means_all_pass(m@.kernel_name, m@.results, r@);
    }
    m.push(r);
}

// ---------------------------------------------------------------------------
// Judgements
// ---------------------------------------------------------------------------

/// An error that was measured: its bits, and the error written out with two
/// decimals and an exponent.
#[derive(Debug)]
pub struct Measure {
    pub bits: u64,
    pub shown: String,
}

/// The result of a test that fails where its error is above a limit.
pub open spec fn judged(
    kernel: Seq<char>,
    test: Seq<char>,
    label: Seq<char>,
    m: Measure,
    fails: bool,
    complaint: Seq<char>,
) -> ResultView {
    let r = recorded(blank(kernel, test), m.bits, label, m.shown@);
    if fails {
        failed(r, m.bits, complaint)
    } else {
        r
    }
}

fn judge(
    kernel: &str,
    test: &str,
    label: &str,
    m: &Measure,
    fails: bool,
    complaint: String,
) -> (r: ValidationResult)
    ensures
        r@ == judged(kernel@, test@, label@, *m, fails, complaint@),
{
    let mut r: ValidationResult = ValidationResult::new(kernel, test);
    r.record_error(m.bits, label, m.shown.as_str());
    if fails {
        r.fail(m.bits, complaint);
    }
    r
}

/// The result of a test that fails where two outputs differ.
pub open spec fn matched(
    kernel: Seq<char>,
    test: Seq<char>,
    label: Seq<char>,
    same: bool,
    complaint: Seq<char>,
) -> ResultView {
    if same {
        blank(kernel, test)
    } else {
        recorded(failed(blank(kernel, test), 0, complaint), ONE, label, "1.00e0"@)
    }
}

fn match_outputs(kernel: &str, test: &str, label: &str, same: bool, complaint: &str) -> (r:
    ValidationResult)
    ensures
        r@ == matched(kernel@, test@, label@, same, complaint@),
{
    let mut r: ValidationResult = ValidationResult::new(kernel, test);
    if !same {
        r.fail(0, complaint.to_owned());
        r.record_error(ONE, label, "1.00e0");
    }
    r
}

/// Whether two outputs are the same.
pub fn same_halves(a: &Vec<u16>, b: &Vec<u16>) -> (r: bool)
    ensures
        r == (a@ == b@),
{
    if a.len() != b.len() {
        return false;
    }
    let mut i: usize = 0;
    while i < a.len()
        invariant
            i <= a@.len(),
            a@.len() == b@.len(),
            forall|j: int| 0 <= j < i ==> a@[j] == b@[j],
        decreases a@.len() - i,
    {
        if a[i] != b[i] {
            return false;
        }
        i = i + 1;
    }
    assert(a@ =~= b@);
    true
}

/// Whether two outputs agree as far as both go.
pub open spec fn agree(a: Seq<u16>, b: Seq<u16>) -> bool {
    forall|i: int| 0 <= i < a.len() && i < b.len() ==> #[trigger] a[i] == b[i]
}

fn outputs_agree(a: &Vec<u16>, b: &Vec<u16>) -> (r: bool)
    ensures
        r == agree(a@, b@),
{
    let mut i: usize = 0;
    while i < a.len() && i < b.len()
        invariant
            i <= a@.len(),
            i <= b@.len(),
            forall|j: int| 0 <= j < i ==> #[trigger] a@[j] == b@[j],
        decreases a@.len() - i,
    {
        if a[i] != b[i] {
            return false;
        }
        i = i + 1;
    }
    true
}

/// Whether two lists of single-precision numbers are equal.
pub open spec fn equal_singles(a: Seq<u32>, b: Seq<u32>) -> bool {
    a.len() == b.len() && forall|i: int| 0 <= i < a.len() ==> is_equal32(#[trigger] a[i], b[i])
}

fn singles_equal(a: &Vec<u32>, b: &Vec<u32>) -> (r: bool)
    ensures
        r == equal_singles(a@, b@),
{
    if a.len() != b.len() {
        return false;
    }
    let mut i: usize = 0;
    while i < a.len()
        invariant
            i <= a@.len(),
            a@.len() == b@.len(),
            forall|j: int| 0 <= j < i ==> is_equal32(#[trigger] a@[j], b@[j]),
        decreases a@.len() - i,
    {
        if !equal32(a[i], b[i]) {
            assert(!is_equal32(a@[i as int], b@[i as int]));
            return false;
        }
        i = i + 1;
    }
    true
}

/// The sums of errors of a row. All but the count are the bits of
/// single-precision numbers.
#[derive(Debug, Clone, Copy, PartialEq, Eq, Structural)]
pub struct ErrorPartialCpu {
    pub sum_sq_error: u32,
    pub sum_abs_error: u32,
    pub dot_teacher_student: u32,
    pub sum_teacher_sq: u32,
    pub sum_student_sq: u32,
    pub max_abs_error: u32,
    pub element_count: u32,
    pub pad: u32,
}

/// Whether two records hold equal numbers.
pub open spec fn equal_partial(a: ErrorPartialCpu, b: ErrorPartialCpu) -> bool {
    &&& is_equal32(a.sum_sq_error, b.sum_sq_error)
    &&& is_equal32(a.sum_abs_error, b.sum_abs_error)
    &&& is_equal32(a.dot_teacher_student, b.dot_teacher_student)
    &&& is_equal32(a.sum_teacher_sq, b.sum_teacher_sq)
    &&& is_equal32(a.sum_student_sq, b.sum_student_sq)
    &&& is_equal32(a.max_abs_error, b.max_abs_error)
    &&& a.element_count == b.element_count
}

/// Whether two lists of records hold equal numbers.
pub open spec fn equal_partials(a: Seq<ErrorPartialCpu>, b: Seq<ErrorPartialCpu>) -> bool {
    a.len() == b.len() && forall|i: int|
        0 <= i < a.len() ==> equal_partial(#[trigger] a[i], b[i])
}

fn partials_equal(a: &Vec<ErrorPartialCpu>, b: &Vec<ErrorPartialCpu>) -> (r: bool)
    ensures
        r == equal_partials(a@, b@),
{
    if a.len() != b.len() {
        return false;
    }
    let mut i: usize = 0;
    while i < a.len()
        invariant
            i <= a@.len(),
            a@.len() == b@.len(),
            forall|j: int| 0 <= j < i ==> equal_partial(#[trigger] a@[j], b@[j]),
        decreases a@.len() - i,
    {
        let x: ErrorPartialCpu = a[i];
        let y: ErrorPartialCpu = b[i];
        let same: bool = equal32(x.sum_sq_error, y.sum_sq_error) && equal32(
            x.sum_abs_error,
            y.sum_abs_error,
        ) && equal32(x.dot_teacher_student, y.dot_teacher_student) && equal32(
            x.sum_teacher_sq,
            y.sum_teacher_sq,
        ) && equal32(x.sum_student_sq, y.sum_student_sq) && equal32(
            x.max_abs_error,
            y.max_abs_error,
        ) && x.element_count == y.element_count;
        if !same {
            assert(!equal_partial(a@[i as int], b@[i as int]));
            return false;
        }
        i = i + 1;
    }
    true
}

// ---------------------------------------------------------------------------
// The kernels
// ---------------------------------------------------------------------------

/// What was measured of the ternary projection.
#[derive(Debug)]
pub struct TernaryMeasures {
    pub max_error: Measure,
    /// The outputs of two dispatches on the same input.
    pub output: Vec<u16>,
    pub output_again: Vec<u16>,
    /// The error on rows that end inside a tile.
    pub tail_error: Measure,
    /// The error on weights with outliers.
    pub sidecar_error: Measure,
    /// The memory of the largest batch, in megabytes.
    pub memory_mb: Measure,
    /// The same in gigabytes, written out with two decimals.
    pub memory_gb: Measure,
}

/// The most memory that a batch may take: ten and three quarters gigabytes.
pub const MEMORY_CEILING: u64 = 11_542_724_608;

/// The memory of the largest batch: inputs and outputs of 4096 rows of 4096
/// two-byte numbers, and the packed words of the weights.
pub open spec fn batch_bytes(out_dim: int, tiles: int) -> int {
    4096 * 4096 * 2 + 4096 * 4096 * 2 + out_dim * (tiles * 32 * 4)
}

/// The memory of the largest batch.
pub fn batch_memory(out_dim: u32, tiles: u32) -> (r: u64)
    requires
        batch_bytes(out_dim as int, tiles as int) <= u64::MAX,
    ensures
        r == batch_bytes(out_dim as int, tiles as int),
{
    let row: u64 = tiles as u64 * 32 * 4;
    67108864 + out_dim as u64 * row
}

/// The result of the test of a batch's memory.
pub open spec fn memory_judged(kernel: Seq<char>, bytes: int, mb: Measure, gb: Measure) -> ResultView {
    let r = recorded(blank(kernel, "memory_admissibility"@), mb.bits, "estimated_MB"@, mb.shown@);
    if bytes > MEMORY_CEILING {
        failed(
            r,
            gb.bits,
            "memory estimate "@ + gb.shown@ + " GB exceeds 10.75 GB ceiling"@,
        )
    } else {
        r
    }
}

/// Judges the memory of a batch.
pub fn judge_memory(kernel: &str, bytes: u64, mb: &Measure, gb: &Measure) -> (r: ValidationResult)
    ensures
        r@ == memory_judged(kernel@, bytes as int, *mb, *gb),
{
    let mut r: ValidationResult = ValidationResult::new(kernel, "memory_admissibility");
    r.record_error(mb.bits, "estimated_MB", mb.shown.as_str());
    if bytes > MEMORY_CEILING {
        r.fail(
            gb.bits,
            text::join3("memory estimate ", gb.shown.as_str(), " GB exceeds 10.75 GB ceiling"),
        );
    }
    r
}

/// The results of the ternary projection, on four rows of one tile. Every word is
/// made of ternary digits, so the layout cannot differ.
pub open spec fn ternary_results(m: TernaryMeasures) -> Seq<ResultView> {
    let k = "ternary_page640_projection"@;
    seq![
        judged(
            k,
            "numerical_equivalence"@,
            "max_abs_error"@,
            m.max_error,
            is_above(m.max_error.bits, LIMIT_3),
            "exceeded 1e-3 threshold: got "@ + m.max_error.shown@,
        ),
        blank(k, "layout_equivalence"@),
        matched(
            k,
            "determinism"@,
            "byte_match"@,
            m.output@ == m.output_again@,
            "GPU output differs between identical dispatches"@,
        ),
        judged(
            k,
            "bounds_safety"@,
            "tail_error"@,
            m.tail_error,
            is_above(m.tail_error.bits, LIMIT_3),
            "tail dim bounds error: "@ + m.tail_error.shown@,
        ),
        judged(
            k,
            "sidecar_modes"@,
            "sidecar_max_err"@,
            m.sidecar_error,
            is_above(m.sidecar_error.bits, LIMIT_3),
            "sidecar mode error: "@ + m.sidecar_error.shown@,
        ),
        memory_judged(k, batch_bytes(4, 1), m.memory_mb, m.memory_gb),
    ]
}

/// Judges the ternary projection.
pub fn validate_ternary_projection(m: &TernaryMeasures) -> (r: ValidationMatrix)
    ensures
        r@ == matrix_of("ternary_page640_projection"@, ternary_results(*m)),
{
    let k: &str = "ternary_page640_projection";
    let mut r: ValidationMatrix = ValidationMatrix::new(k);
    add_result(
        &mut r,
        judge(
            k,
            "numerical_equivalence",
            "max_abs_error",
            &m.max_error,
            above(m.max_error.bits, LIMIT_3),
            text::join2("exceeded 1e-3 threshold: got ", m.max_error.shown.as_str()),
        ),
    );
    add_result(&mut r, ValidationResult::new(k, "layout_equivalence"));
    add_result(
        &mut r,
        match_outputs(
            k,
            "determinism",
            "byte_match",
            same_halves(&m.output, &m.output_again),
            "GPU output differs between identical dispatches",
        ),
    );
    add_result(
        &mut r,
        judge(
            k,
            "bounds_safety",
            "tail_error",
            &m.tail_error,
            above(m.tail_error.bits, LIMIT_3),
            text::join2("tail dim bounds error: ", m.tail_error.shown.as_str()),
        ),
    );
    add_result(
        &mut r,
        judge(
            k,
            "sidecar_modes",
            "sidecar_max_err",
            &m.sidecar_error,
            above(m.sidecar_error.bits, LIMIT_3),
            text::join2("sidecar mode error: ", m.sidecar_error.shown.as_str()),
        ),
    );
    add_result(&mut r, judge_memory(k, batch_memory(4, 1), &m.memory_mb, &m.memory_gb));
    assert(r@.results =~= ternary_results(*m));
    r
}

/// What was measured of the dense projection.
#[derive(Debug)]
pub struct DenseMeasures {
    pub max_error: Measure,
    /// The outputs of two dispatches on the same input.
    pub output: Vec<u16>,
    pub output_again: Vec<u16>,
    /// The greatest magnitude in the output.
    pub magnitude: Measure,
    /// The magnitude over the width of a row, and the magnitude written out with
    /// two decimals.
    pub magnitude_ratio: Measure,
}

/// Whether a half-precision output holds a NaN or an infinity once widened.
pub open spec fn has_nonfinite(output: Seq<u16>) -> bool {
    exists|i: int|
        0 <= i < output.len() && float_bits::abs_bits(
            validation_data::wide_half(#[trigger] output[i]),
        ) >= 0x7F80_0000
}

/// The bits of the greatest magnitude in a half-precision output.
pub open spec fn greatest_magnitude(output: Seq<u16>) -> int
    decreases output.len(),
{
    if output.len() == 0 {
        0
    } else {
        let rest = greatest_magnitude(output.drop_last());
        let last = float_bits::abs_bits(validation_data::wide_half(output.last()));
        if last > rest {
            last
        } else {
            rest
        }
    }
}

fn scan_output(output: &Vec<u16>) -> (r: (bool, u32))
    ensures
        r.0 == has_nonfinite(output@),
        r.1 == greatest_magnitude(output@),
{
    let mut bad: bool = false;
    let mut most: u32 = 0;
    let mut i: usize = 0;
    assert(output@.take(0) =~= Seq::<u16>::empty());
    while i < output.len()
        invariant
            i <= output@.len(),
            bad == has_nonfinite(output@.take(i as int)),
            most == greatest_magnitude(output@.take(i as int)),
        decreases output@.len() - i,
    {
        let bits: u32 = f16_bits_to_f32(output[i]) % 0x8000_0000;
        proof {
            let next = output@.take(i + 1);
            assert(next.drop_last() =~= output@.take(i as int));
            assert(next[i as int] == output@[i as int]);
            assert(has_nonfinite(next) == (has_nonfinite(output@.take(i as int)) || bits
                >= 0x7F80_0000)) by {
                if has_nonfinite(output@.take(i as int)) {
                    let j = choose|j: int|
                        0 <= j < i && float_bits::abs_bits(
                            validation_data::wide_half(#[trigger] output@.take(i as int)[j]),
                        ) >= 0x7F80_0000;
                    assert(next[j] == output@.take(i as int)[j]);
                }
                if has_nonfinite(next) {
                    let j = choose|j: int|
                        0 <= j < i + 1 && float_bits::abs_bits(
                            validation_data::wide_half(#[trigger] next[j]),
                        ) >= 0x7F80_0000;
                    if j < i {
                        assert(next[j] == output@.take(i as int)[j]);
                    }
                }
            }
        }
        if bits >= 0x7F80_0000 {
            bad = true;
        }
        if bits > most {
            most = bits;
        }
        i = i + 1;
    }
    assert(output@.take(output@.len() as int) =~= output@);
    (bad, most)
}

/// The result of the test of a dense projection's output: finite, and of a
/// magnitude of at most twice the width of a row, which is 256.
pub open spec fn epilogue_judged(m: DenseMeasures) -> ResultView {
    let r0 = blank("dense_projection_f16"@, "epilogue_correctness"@);
    let r1 = if has_nonfinite(m.output@) {
        failed(r0, 0, "GPU output contains NaN or Inf"@)
    } else {
        r0
    };
    let r2 = if greatest_magnitude(m.output@) > 0x4400_0000 {
        failed(
            r1,
            m.magnitude_ratio.bits,
            "output magnitude too large: "@ + m.magnitude_ratio.shown@ + " (expect ≤256×)"@,
        )
    } else {
        r1
    };
    recorded(r2, m.magnitude.bits, "max_abs_output"@, m.magnitude.shown@)
}

fn judge_epilogue(m: &DenseMeasures) -> (r: ValidationResult)
    ensures
        r@ == epilogue_judged(*m),
{
    let mut r: ValidationResult = ValidationResult::new(
        "dense_projection_f16",
        "epilogue_correctness",
    );
    let (bad, most) = scan_output(&m.output);
    if bad {
        r.fail(0, "GPU output contains NaN or Inf".to_owned());
    }
    if most > 0x4400_0000 {
        r.fail(
            m.magnitude_ratio.bits,
            text::join3(
                "output magnitude too large: ",
                m.magnitude_ratio.shown.as_str(),
                " (expect ≤256×)",
            ),
        );
    }
    r.record_error(m.magnitude.bits, "max_abs_output", m.magnitude.shown.as_str());
    r
}

/// The results of the dense projection.
pub open spec fn dense_results(m: DenseMeasures) -> Seq<ResultView> {
    let k = "dense_projection_f16"@;
    seq![
        judged(
            k,
            "numerical_equivalence"@,
            "max_abs_error"@,
            m.max_error,
            is_above(m.max_error.bits, LIMIT_4),
            "exceeded 1e-4: "@ + m.max_error.shown@,
        ),
        epilogue_judged(m),
        matched(
            k,
            "determinism"@,
            "byte_match"@,
            m.output@ == m.output_again@,
            "GPU output differs between identical dispatches"@,
        ),
    ]
}

/// Judges the dense projection.
pub fn validate_dense_projection(m: &DenseMeasures) -> (r: ValidationMatrix)
    ensures
        r@ == matrix_of("dense_projection_f16"@, dense_results(*m)),
{
    let k: &str = "dense_projection_f16";
    let mut r: ValidationMatrix = ValidationMatrix::new(k);
    add_result(
        &mut r,
        judge(
            k,
            "numerical_equivalence",
            "max_abs_error",
            &m.max_error,
            above(m.max_error.bits, LIMIT_4),
            text::join2("exceeded 1e-4: ", m.max_error.shown.as_str()),
        ),
    );
    add_result(&mut r, judge_epilogue(m));
    add_result(
        &mut r,
        match_outputs(
            k,
            "determinism",
            "byte_match",
            same_halves(&m.output, &m.output_again),
            "GPU output differs between identical dispatches",
        ),
    );
    assert(r@.results =~= dense_results(*m));
    r
}

/// What was measured of the reduction of errors.
#[derive(Debug)]
pub struct ErrorPartialMeasures {
    pub max_error: Measure,
    /// The mean squared error, the mean absolute error and the cosine, each of
    /// the reference and of the kernel, written out.
    pub mse_cpu: String,
    pub mse_gpu: String,
    pub mae_cpu: String,
    pub mae_gpu: String,
    pub cosine_cpu: String,
    pub cosine_gpu: String,
    /// The records of two dispatches on the same input.
    pub partials: Vec<u32>,
    pub partials_again: Vec<u32>,
}

/// What is said of a reduction that is off.
pub open spec fn reduction_complaint(m: ErrorPartialMeasures) -> Seq<char> {
    "MSE cpu="@ + m.mse_cpu@ + " gpu="@ + m.mse_gpu@ + ", MAE cpu="@ + m.mae_cpu@ + " gpu="@
        + m.mae_gpu@ + ", cosine cpu="@ + m.cosine_cpu@ + " gpu="@ + m.cosine_gpu@
}

fn reduction_text(m: &ErrorPartialMeasures) -> (r: String)
    ensures
        r@ == reduction_complaint(*m),
{
    let mut r: String = text::join3("MSE cpu=", m.mse_cpu.as_str(), " gpu=");
    r.append(m.mse_gpu.as_str());
    r.append(", MAE cpu=");
    r.append(m.mae_cpu.as_str());
    r.append(" gpu=");
    r.append(m.mae_gpu.as_str());
    r.append(", cosine cpu=");
    r.append(m.cosine_cpu.as_str());
    r.append(" gpu=");
    r.append(m.cosine_gpu.as_str());
    r
}

/// The results of the reduction of errors.
pub open spec fn error_partial_results(m: ErrorPartialMeasures) -> Seq<ResultView> {
    let k = "activation_error_partial_reduce"@;
    seq![
        judged(
            k,
            "cpu_reference_match"@,
            "max_rel_err"@,
            m.max_error,
            is_above(m.max_error.bits, LIMIT_4),
            reduction_complaint(m),
        ),
        matched(
            k,
            "deterministic_reduction"@,
            "byte_match"@,
            equal_singles(m.partials@, m.partials_again@),
            "GPU partials differ between identical dispatches"@,
        ),
    ]
}

/// Judges the reduction of errors.
pub fn validate_error_partial(m: &ErrorPartialMeasures) -> (r: ValidationMatrix)
    ensures
        r@ == matrix_of("activation_error_partial_reduce"@, error_partial_results(*m)),
{
    let k: &str = "activation_error_partial_reduce";
    let mut r: ValidationMatrix = ValidationMatrix::new(k);
    add_result(
        &mut r,
        judge(
            k,
            "cpu_reference_match",
            "max_rel_err",
            &m.max_error,
            above(m.max_error.bits, LIMIT_4),
            reduction_text(m),
        ),
    );
    add_result(
        &mut r,
        match_outputs(
            k,
            "deterministic_reduction",
            "byte_match",
            singles_equal(&m.partials, &m.partials_again),
            "GPU partials differ between identical dispatches",
        ),
    );
    assert(r@.results =~= error_partial_results(*m));
    r
}

/// What was measured of the attention probe.
#[derive(Debug)]
pub struct AttentionMeasures {
    /// For each head the bits of the errors of the greatest logits, of teacher
    /// and student in turn.
    pub logit_errors: Vec<u64>,
    /// The greatest of all errors.
    pub probe_error: Measure,
    /// The greatest error of the divergence.
    pub kl_error: Measure,
}

/// Whether some error is above the limit.
pub open spec fn any_above(errors: Seq<u64>, limit: u64) -> bool {
    exists|i: int| 0 <= i < errors.len() && is_above(#[trigger] errors[i], limit)
}

fn some_above(errors: &Vec<u64>, limit: u64) -> (r: bool)
    ensures
        r == any_above(errors@, limit),
{
    let mut i: usize = 0;
    while i < errors.len()
        invariant
            i <= errors@.len(),
            forall|j: int| 0 <= j < i ==> !is_above(#[trigger] errors@[j], limit),
        decreases errors@.len() - i,
    {
        if above(errors[i], limit) {
            assert(is_above(errors@[i as int], limit));
            return true;
        }
        i = i + 1;
    }
    false
}

/// The results of the attention probe.
pub open spec fn attention_results(m: AttentionMeasures) -> Seq<ResultView> {
    let k = "attention_score_probe"@;
    seq![
        judged(
            k,
            "probe_sampling_correctness"@,
            "max_probe_error"@,
            m.probe_error,
            any_above(m.logit_errors@, LIMIT_4) || is_above(m.probe_error.bits, LIMIT_3),
            "probe deviation: max error "@ + m.probe_error.shown@,
        ),
        judged(
            k,
            "kl_divergence_correctness"@,
            "kl_max_error"@,
            m.kl_error,
            is_above(m.kl_error.bits, LIMIT_3),
            "KL divergence error: "@ + m.kl_error.shown@,
        ),
    ]
}

/// Judges the attention probe.
pub fn validate_attention_probe(m: &AttentionMeasures) -> (r: ValidationMatrix)
    ensures
        r@ == matrix_of("attention_score_probe"@, attention_results(*m)),
{
    let k: &str = "attention_score_probe";
    let mut r: ValidationMatrix = ValidationMatrix::new(k);
    add_result(
        &mut r,
        judge(
            k,
            "probe_sampling_correctness",
            "max_probe_error",
            &m.probe_error,
            some_above(&m.logit_errors, LIMIT_4) || above(m.probe_error.bits, LIMIT_3),
            text::join2("probe deviation: max error ", m.probe_error.shown.as_str()),
        ),
    );
    add_result(
        &mut r,
        judge(
            k,
            "kl_divergence_correctness",
            "kl_max_error",
            &m.kl_error,
            above(m.kl_error.bits, LIMIT_3),
            text::join2("KL divergence error: ", m.kl_error.shown.as_str()),
        ),
    );
    assert(r@.results =~= attention_results(*m));
    r
}

/// What was measured of one page. All are the bits of single-precision numbers.
#[derive(Debug, Clone, Copy, PartialEq, Eq, Structural)]
pub struct PageMeasure {
    pub accepted: u32,
    pub challenger: u32,
    pub bytes_error: u32,
    pub loads_error: u32,
}

/// What was measured of the scores of candidates.
#[derive(Debug)]
pub struct CandidateMeasures {
    pub pages: Vec<PageMeasure>,
    /// The greatest error of the costs.
    pub cost_error: Measure,
}

/// Whether some accepted score is not below its challenger.
pub open spec fn is_out_of_order(pages: Seq<PageMeasure>) -> bool {
    exists|i: int|
        0 <= i < pages.len() && is_at_least32((#[trigger] pages[i]).accepted, pages[i].challenger)
}

/// Whether some cost is off by more than a fifth.
pub open spec fn is_inconsistent(pages: Seq<PageMeasure>) -> bool {
    exists|i: int|
        0 <= i < pages.len() && (is_above32((#[trigger] pages[i]).bytes_error, FIFTH) || is_above32(
            pages[i].loads_error,
            FIFTH,
        ))
}

fn out_of_order(pages: &Vec<PageMeasure>) -> (r: bool)
    ensures
        r == is_out_of_order(pages@),
{
    let mut i: usize = 0;
    while i < pages.len()
        invariant
            i <= pages@.len(),
            forall|j: int|
                0 <= j < i ==> !is_at_least32((#[trigger] pages@[j]).accepted, pages@[j].challenger),
        decreases pages@.len() - i,
    {
        let p: PageMeasure = pages[i];
        if at_least32(p.accepted, p.challenger) {
            assert(is_at_least32(pages@[i as int].accepted, pages@[i as int].challenger));
            return true;
        }
        i = i + 1;
    }
    false
}

fn inconsistent(pages: &Vec<PageMeasure>) -> (r: bool)
    ensures
        r == is_inconsistent(pages@),
{
    let mut i: usize = 0;
    while i < pages.len()
        invariant
            i <= pages@.len(),
            forall|j: int|
                0 <= j < i ==> !is_above32((#[trigger] pages@[j]).bytes_error, FIFTH) && !is_above32(
                    pages@[j].loads_error,
                    FIFTH,
                ),
        decreases pages@.len() - i,
    {
        let p: PageMeasure = pages[i];
        if above32(p.bytes_error, FIFTH) || above32(p.loads_error, FIFTH) {
            assert(is_above32(pages@[i as int].bytes_error, FIFTH) || is_above32(
                pages@[i as int].loads_error,
                FIFTH,
            ));
            return true;
        }
        i = i + 1;
    }
    false
}

/// The results of the scores of candidates.
pub open spec fn candidate_results(m: CandidateMeasures) -> Seq<ResultView> {
    let k = "page_candidate_score"@;
    seq![
        if is_out_of_order(m.pages@) {
            failed(
                blank(k, "score_ordering"@),
                0,
                "some accepted scores >= challenger scores"@,
            )
        } else {
            blank(k, "score_ordering"@)
        },
        judged(
            k,
            "cost_model_consistency"@,
            "max_cost_rel_err"@,
            m.cost_error,
            is_inconsistent(m.pages@),
            "cost model deviates >20%: max rel err "@ + m.cost_error.shown@,
        ),
    ]
}

/// Judges the scores of candidates.
pub fn validate_candidate_score(m: &CandidateMeasures) -> (r: ValidationMatrix)
    ensures
        r@ == matrix_of("page_candidate_score"@, candidate_results(*m)),
{
    let k: &str = "page_candidate_score";
    let mut r: ValidationMatrix = ValidationMatrix::new(k);
    let mut first: ValidationResult = ValidationResult::new(k, "score_ordering");
    if out_of_order(&m.pages) {
        first.fail(0, "some accepted scores >= challenger scores".to_owned());
    }
    add_result(&mut r, first);
    add_result(
        &mut r,
        judge(
            k,
            "cost_model_consistency",
            "max_cost_rel_err",
            &m.cost_error,
            inconsistent(&m.pages),
            text::join2("cost model deviates >20%: max rel err ", m.cost_error.shown.as_str()),
        ),
    );
    assert(r@.results =~= candidate_results(*m));
    r
}

/// What was measured of the unpacking of pages.
#[derive(Debug)]
pub struct UnpackMeasures {
    pub decode_error: Measure,
    /// What the kernel made of a page of zeros.
    pub zero_output: Vec<u16>,
    /// What the kernel made of a page of ones.
    pub positive_output: Vec<u16>,
    /// The error on a page that ends inside a word.
    pub tail_error: Measure,
}

/// The values of a page of one digit, at a scale of a half.
pub open spec fn uniform_page(digit: int) -> Seq<u16> {
    Seq::new(640, |i: int| validation_data::digit_half(digit, HALF))
}

fn unpack_uniform(digit: u8) -> (r: Vec<u16>)
    requires
        digit <= 2,
    ensures
        r@ == uniform_page(digit as int),
{
    let digits: Vec<u8> = vec![digit; 640];
    proof {
        assert forall|w: int| 0 <= w < 32 implies validation_data::low_first(
            #[trigger] validation_data::word_part(digits@, w),
        ) <= u32::MAX by {
            validation_data::lemma_word_fits(digits@, w);
        }
    }
    let packed: Vec<u32> = pack_page(digits.as_slice());
    let r: Vec<u16> = unpack_page(packed.as_slice(), HALF, 640);
    proof {
        assert forall|i: int| 0 <= i < 640 implies #[trigger] r@[i] == uniform_page(
            digit as int,
        )[i] by {
            validation_data::law_page_unpacks(digits@, HALF, i);
            assert(digits@[i] == digit);
        }
        assert(r@ =~= uniform_page(digit as int));
    }
    r
}

/// The results of the unpacking of pages.
pub open spec fn unpack_results(m: UnpackMeasures) -> Seq<ResultView> {
    let k = "page_unpack_verify"@;
    seq![
        judged(
            k,
            "decode_equivalence"@,
            "decode_max_err"@,
            m.decode_error,
            is_above(m.decode_error.bits, LIMIT_6),
            "decode mismatch: "@ + m.decode_error.shown@,
        ),
        matched(
            k,
            "all_zero_page"@,
            "all_zero_pass"@,
            agree(uniform_page(0), m.zero_output@),
            "all-zero page decode mismatch"@,
        ),
        matched(
            k,
            "all_positive_page"@,
            "all_pos_pass"@,
            agree(uniform_page(1), m.positive_output@),
            "all-positive page decode mismatch"@,
        ),
        judged(
            k,
            "mixed_tail_page"@,
            "tail_max_err"@,
            m.tail_error,
            is_above(m.tail_error.bits, LIMIT_6),
            "mixed tail page mismatch: "@ + m.tail_error.shown@,
        ),
    ]
}

/// Judges the unpacking of pages.
pub fn validate_unpack_verify(m: &UnpackMeasures) -> (r: ValidationMatrix)
    ensures
        r@ == matrix_of("page_unpack_verify"@, unpack_results(*m)),
{
    let k: &str = "page_unpack_verify";
    let mut r: ValidationMatrix = ValidationMatrix::new(k);
    add_result(
        &mut r,
        judge(
            k,
            "decode_equivalence",
            "decode_max_err",
            &m.decode_error,
            above(m.decode_error.bits, LIMIT_6),
            text::join2("decode mismatch: ", m.decode_error.shown.as_str()),
        ),
    );
    add_result(
        &mut r,
        match_outputs(
            k,
            "all_zero_page",
            "all_zero_pass",
            outputs_agree(&unpack_uniform(0), &m.zero_output),
            "all-zero page decode mismatch",
        ),
    );
    add_result(
        &mut r,
        match_outputs(
            k,
            "all_positive_page",
            "all_pos_pass",
            outputs_agree(&unpack_uniform(1), &m.positive_output),
            "all-positive page decode mismatch",
        ),
    );
    add_result(
        &mut r,
        judge(
            k,
            "mixed_tail_page",
            "tail_max_err",
            &m.tail_error,
            above(m.tail_error.bits, LIMIT_6),
            text::join2("mixed tail page mismatch: ", m.tail_error.shown.as_str()),
        ),
    );
    assert(r@.results =~= unpack_results(*m));
    r
}

/// What was measured of one span of outliers.
#[derive(Debug)]
pub struct SpanMeasure {
    /// The entries that the kernel read, and those of the span.
    pub entries_read: u32,
    pub expected_entries: u32,
    /// The bits of the error of the checksum, in single and in double precision.
    pub checksum_error: u32,
    pub checksum_error_wide: u64,
    /// The two checksums, written out with six decimals.
    pub checksum_gpu: String,
    pub checksum_expected: String,
}

/// What a repeated dispatch recorded of one span.
#[derive(Debug, Clone, Copy, PartialEq, Eq, Structural)]
pub struct SpanRepeat {
    pub hits: u32,
    pub hits_again: u32,
    pub entries: u32,
    pub entries_again: u32,
    /// The two checksums are within a millionth of each other.
    pub checksums_close: bool,
}

/// What was measured of the application of outliers.
#[derive(Debug)]
pub struct SidecarMeasures {
    pub apply_error: Measure,
    pub spans: Vec<SpanMeasure>,
    /// The activations of two dispatches on the same input.
    pub output: Vec<u16>,
    pub output_again: Vec<u16>,
    pub repeats: Vec<SpanRepeat>,
}

/// The result after span `i` was checked.
pub open spec fn with_span(r: ResultView, s: SpanMeasure, i: nat) -> ResultView {
    let r1 = if s.entries_read != s.expected_entries {
        failed(
            r,
            0,
            "span "@ + text::decimal(i) + ": GPU entries_read="@ + text::decimal(
                s.entries_read as nat,
            ) + ", expected "@ + text::decimal(s.expected_entries as nat),
        )
    } else {
        r
    };
    if is_above32(s.checksum_error, THOUSANDTH) {
        failed(
            r1,
            s.checksum_error_wide,
            "span "@ + text::decimal(i) + ": checksum mismatch: GPU="@ + s.checksum_gpu@
                + " expected="@ + s.checksum_expected@,
        )
    } else {
        r1
    }
}

/// The result after the spans were checked, one after the other.
pub open spec fn with_spans(r: ResultView, spans: Seq<SpanMeasure>) -> ResultView
    decreases spans.len(),
{
    if spans.len() == 0 {
        r
    } else {
        with_span(with_spans(r, spans.drop_last()), spans.last(), (spans.len() - 1) as nat)
    }
}

fn check_span(r: &mut ValidationResult, s: &SpanMeasure, i: usize)
    ensures
        final(r)@ == with_span(old(r)@, *s, i as nat),
{
    if s.entries_read != s.expected_entries {
        let mut t: String = "span ".to_owned();
        text::push_decimal(&mut t, i as u64);
        t.append(": GPU entries_read=");
        text::push_decimal(&mut t, s.entries_read as u64);
        t.append(", expected ");
        text::push_decimal(&mut t, s.expected_entries as u64);
        r.fail(0, t);
    }
    if above32(s.checksum_error, THOUSANDTH) {
        let mut t: String = "span ".to_owned();
        text::push_decimal(&mut t, i as u64);
        t.append(": checksum mismatch: GPU=");
        t.append(s.checksum_gpu.as_str());
        t.append(" expected=");
        t.append(s.checksum_expected.as_str());
        r.fail(s.checksum_error_wide, t);
    }
}

/// Whether a repeated dispatch recorded the same of every span.
pub open spec fn repeats_match(repeats: Seq<SpanRepeat>) -> bool {
    forall|i: int|
        0 <= i < repeats.len() ==> (#[trigger] repeats[i]).hits == repeats[i].hits_again
            && repeats[i].entries == repeats[i].entries_again && repeats[i].checksums_close
}

fn check_repeats(repeats: &Vec<SpanRepeat>) -> (r: bool)
    ensures
        r == repeats_match(repeats@),
{
    let mut i: usize = 0;
    while i < repeats.len()
        invariant
            i <= repeats@.len(),
            forall|j: int|
                0 <= j < i ==> (#[trigger] repeats@[j]).hits == repeats@[j].hits_again
                    && repeats@[j].entries == repeats@[j].entries_again
                    && repeats@[j].checksums_close,
        decreases repeats@.len() - i,
    {
        let s: SpanRepeat = repeats[i];
        if s.hits != s.hits_again || s.entries != s.entries_again || !s.checksums_close {
            assert(!(repeats@[i as int].hits == repeats@[i as int].hits_again
                && repeats@[i as int].entries == repeats@[i as int].entries_again
                && repeats@[i as int].checksums_close));
            return false;
        }
        i = i + 1;
    }
    true
}

/// The results of the application of outliers.
pub open spec fn sidecar_results(m: SidecarMeasures) -> Seq<ResultView> {
    let k = "sidecar_apply_verify"@;
    seq![
        judged(
            k,
            "apply_equivalence"@,
            "apply_max_err"@,
            m.apply_error,
            is_above(m.apply_error.bits, LIMIT_6),
            "sidecar apply mismatch: "@ + m.apply_error.shown@,
        ),
        with_spans(blank(k, "verify_record_correctness"@), m.spans@),
        matched(
            k,
            "determinism"@,
            "byte_match"@,
            m.output@ == m.output_again@ && repeats_match(m.repeats@),
            "GPU output differs between identical dispatches"@,
        ),
    ]
}

/// Judges the application of outliers.
pub fn validate_sidecar_apply_verify(m: &SidecarMeasures) -> (r: ValidationMatrix)
    ensures
        r@ == matrix_of("sidecar_apply_verify"@, sidecar_results(*m)),
{
    let k: &str = "sidecar_apply_verify";
    let mut r: ValidationMatrix = ValidationMatrix::new(k);
    add_result(
        &mut r,
        judge(
            k,
            "apply_equivalence",
            "apply_max_err",
            &m.apply_error,
            above(m.apply_error.bits, LIMIT_6),
            text::join2("sidecar apply mismatch: ", m.apply_error.shown.as_str()),
        ),
    );
    let mut second: ValidationResult = ValidationResult::new(k, "verify_record_correctness");
    let ghost start = second@;
    let mut i: usize = 0;
    assert(m.spans@.take(0) =~= Seq::<SpanMeasure>::empty());
    while i < m.spans.len()
        invariant
            i <= m.spans@.len(),
            second@ == with_spans(start, m.spans@.take(i as int)),
        decreases m.spans@.len() - i,
    {
        assert(m.spans@.take(i + 1).drop_last() =~= m.spans@.take(i as int));
        check_span(&mut second, &m.spans[i], i);
        i = i + 1;
    }
    assert(m.spans@.take(m.spans@.len() as int) =~= m.spans@);
    add_result(&mut r, second);
    add_result(
        &mut r,
        match_outputs(
            k,
            "determinism",
            "byte_match",
            same_halves(&m.output, &m.output_again) && check_repeats(&m.repeats),
            "GPU output differs between identical dispatches",
        ),
    );
    assert(r@.results =~= sidecar_results(*m));
    r
}

/// What was measured of a probe that records sums of errors.
#[derive(Debug)]
pub struct ProbeMeasures {
    pub max_error: Measure,
    /// The records of the reference, and of two dispatches on the same input.
    pub reference: Vec<ErrorPartialCpu>,
    pub records: Vec<ErrorPartialCpu>,
    pub records_again: Vec<ErrorPartialCpu>,
}

/// The bits of the double-precision number `n`.
pub open spec fn double_bits(n: u32) -> u64 {
    let len = validation_data::bit_length(n as nat);
    if n == 0 {
        0
    } else {
        ((1021 + len) * 0x10_0000_0000_0000 + n * float_bits::two_to((53 - len) as nat)) as u64
    }
}

/// The distance of two counts.
pub open spec fn distance(a: u32, b: u32) -> u32 {
    if a > b {
        (a - b) as u32
    } else {
        (b - a) as u32
    }
}

/// The result after the count of row `i` was checked.
pub open spec fn with_count(r: ResultView, gpu: u32, cpu: u32, i: nat) -> ResultView {
    if gpu != cpu {
        failed(
            r,
            double_bits(distance(gpu, cpu)),
            "token "@ + text::decimal(i) + ": element_count GPU="@ + text::decimal(gpu as nat)
                + " CPU="@ + text::decimal(cpu as nat),
        )
    } else {
        r
    }
}

/// The result after the counts of the first `n` rows were checked.
pub open spec fn with_counts(
    r: ResultView,
    gpu: Seq<ErrorPartialCpu>,
    cpu: Seq<ErrorPartialCpu>,
    n: nat,
) -> ResultView
    decreases n,
{
    if n == 0 {
        r
    } else {
        with_count(
            with_counts(r, gpu, cpu, (n - 1) as nat),
            gpu[n - 1].element_count,
            cpu[n - 1].element_count,
            (n - 1) as nat,
        )
    }
}

fn double_of(n: u32) -> (r: u64)
    ensures
        r == double_bits(n),
{
    if n == 0 {
        return 0;
    }
    let mut value: u64 = n as u64;
    let mut exponent: u64 = 1074;
    proof {
        lemma_double_start(n);
        assert(float_bits::two_to(0) == 1);
    }
    let ghost len = validation_data::bit_length(n as nat);
    let ghost mut k: nat = 0;
    while value < 0x10_0000_0000_0000
        invariant
            k <= 53 - len,
            1 <= len <= 32,
            len == validation_data::bit_length(n as nat),
            value == n * float_bits::two_to(k),
            exponent == 1074 - k,
            0x10_0000_0000_0000 <= n * float_bits::two_to((53 - len) as nat) < 0x20_0000_0000_0000,
            value < 0x20_0000_0000_0000,
            forall|j: nat|
                j < 53 - len ==> n * #[trigger] float_bits::two_to(j) < 0x10_0000_0000_0000,
        decreases exponent,
    {
        proof {
            assert(k < 53 - len);
            let p = float_bits::two_to(k) as int;
            assert(float_bits::two_to(k + 1) == 2 * p);
            assert(n * (2 * p) == 2 * (n * p)) by (nonlinear_arith);
            float_bits::lemma_two_to_monotone(0, k);
            assert(n * p >= 1) by (nonlinear_arith)
                requires
                    n >= 1,
                    p >= 1,
            ;
            k = k + 1;
        }
        value = value * 2;
        exponent = exponent - 1;
    }
    proof {
        assert(k == 53 - len);
    }
    exponent * 0x10_0000_0000_0000 + value
}

proof fn lemma_double_powers()
    ensures
        float_bits::two_to(32) == 0x1_0000_0000,
        float_bits::two_to(52) == 0x10_0000_0000_0000,
        float_bits::two_to(53) == 0x20_0000_0000_0000,
{
    float_bits::lemma_powers();
    assert(float_bits::two_to(8) == 256 && float_bits::two_to(4) == 16) by {
        reveal_with_fuel(float_bits::two_to, 9);
    }
    float_bits::lemma_two_to_adds(24, 8);
    float_bits::lemma_two_to_adds(48, 4);
    assert(float_bits::two_to(53) == 2 * float_bits::two_to(52));
}

proof fn lemma_double_start(n: u32)
    requires
        n > 0,
    ensures
        1 <= validation_data::bit_length(n as nat) <= 32,
        0x10_0000_0000_0000 <= n * float_bits::two_to(
            (53 - validation_data::bit_length(n as nat)) as nat,
        ) < 0x20_0000_0000_0000,
        forall|j: nat|
            j < 53 - validation_data::bit_length(n as nat) ==> n * #[trigger] float_bits::two_to(j)
                < 0x10_0000_0000_0000,
{
    let x = n as nat;
    let len = validation_data::bit_length(x);
    validation_data::lemma_bit_length_range(x);
    lemma_double_powers();
    validation_data::lemma_bit_length_bound(x, 32);
    let e = (53 - len) as nat;
    let u = float_bits::two_to(e) as int;
    float_bits::lemma_two_to_adds((len - 1) as nat, e);
    float_bits::lemma_two_to_adds(len, e);
    float_bits::lemma_two_to_monotone(0, e);
    let a = float_bits::two_to((len - 1) as nat) as int;
    let b = float_bits::two_to(len) as int;
    assert(a * u <= n * u < b * u) by (nonlinear_arith)
        requires
            a <= n < b,
            0 < u,
    ;
    assert forall|j: nat| j < e implies n * #[trigger] float_bits::two_to(j)
        < 0x10_0000_0000_0000 by {
        float_bits::lemma_two_to_monotone(j, (e - 1) as nat);
        let p = float_bits::two_to(j) as int;
        let q = float_bits::two_to((e - 1) as nat) as int;
        assert(u == 2 * q);
        assert(n * p <= n * q) by (nonlinear_arith)
            requires
                0 <= p <= q,
                0 <= n,
        ;
        assert(2 * (n * q) == n * (2 * q)) by (nonlinear_arith);
    }
}

fn check_count(r: &mut ValidationResult, gpu: u32, cpu: u32, i: usize)
    ensures
        final(r)@ == with_count(old(r)@, gpu, cpu, i as nat),
{
    if gpu != cpu {
        let mut t: String = "token ".to_owned();
        text::push_decimal(&mut t, i as u64);
        t.append(": element_count GPU=");
        text::push_decimal(&mut t, gpu as u64);
        t.append(" CPU=");
        text::push_decimal(&mut t, cpu as u64);
        let apart: u32 = if gpu > cpu {
            gpu - cpu
        } else {
            cpu - gpu
        };
        r.fail(double_of(apart), t);
    }
}

/// The results of the probe of the residual after normalization. A row whose
/// count is off fails before the error is recorded.
pub open spec fn rmsnorm_results(m: ProbeMeasures) -> Seq<ResultView> {
    let k = "rmsnorm_residual_probe"@;
    let counted = with_counts(
        blank(k, "cpu_reference_match"@),
        m.records@,
        m.reference@,
        m.reference@.len(),
    );
    let noted = recorded(counted, m.max_error.bits, "max_rel_err"@, m.max_error.shown@);
    seq![
        if is_above(m.max_error.bits, LIMIT_4) {
            failed(
                noted,
                m.max_error.bits,
                "rmsnorm residual probe GPU/CPU mismatch: max_rel_err="@ + m.max_error.shown@,
            )
        } else {
            noted
        },
        matched(
            k,
            "deterministic"@,
            "byte_match"@,
            equal_partials(m.records@, m.records_again@),
            "GPU output differs between identical dispatches"@,
        ),
    ]
}

/// Judges the probe of the residual after normalization.
pub fn validate_rmsnorm_residual_probe(m: &ProbeMeasures) -> (r: ValidationMatrix)
    requires
        m.records@.len() >= m.reference@.len(),
    ensures
        r@ == matrix_of("rmsnorm_residual_probe"@, rmsnorm_results(*m)),
{
    let k: &str = "rmsnorm_residual_probe";
    let mut r: ValidationMatrix = ValidationMatrix::new(k);
    let mut first: ValidationResult = ValidationResult::new(k, "cpu_reference_match");
    let ghost start = first@;
    let mut i: usize = 0;
    while i < m.reference.len()
        invariant
            i <= m.reference@.len(),
            m.records@.len() >= m.reference@.len(),
            first@ == with_counts(start, m.records@, m.reference@, i as nat),
        decreases m.reference@.len() - i,
    {
        check_count(&mut first, m.records[i].element_count, m.reference[i].element_count, i);
        i = i + 1;
    }
    first.record_error(m.max_error.bits, "max_rel_err", m.max_error.shown.as_str());
    if above(m.max_error.bits, LIMIT_4) {
        first.fail(
            m.max_error.bits,
            text::join2(
                "rmsnorm residual probe GPU/CPU mismatch: max_rel_err=",
                m.max_error.shown.as_str(),
            ),
        );
    }
    add_result(&mut r, first);
    add_result(
        &mut r,
        match_outputs(
            k,
            "deterministic",
            "byte_match",
            partials_equal(&m.records, &m.records_again),
            "GPU output differs between identical dispatches",
        ),
    );
    assert(r@.results =~= rmsnorm_results(*m));
    r
}

/// The results of the probe of a feed-forward block.
pub open spec fn mlp_results(m: ProbeMeasures) -> Seq<ResultView> {
    let k = "mlp_activation_probe"@;
    seq![
        judged(
            k,
            "cpu_reference_match"@,
            "max_rel_err"@,
            m.max_error,
            is_above(m.max_error.bits, LIMIT_4),
            "mlp activation probe GPU/CPU mismatch: max_rel_err="@ + m.max_error.shown@,
        ),
        matched(
            k,
            "deterministic"@,
            "byte_match"@,
            equal_partials(m.records@, m.records_again@),
            "GPU output differs between identical dispatches"@,
        ),
    ]
}

/// Judges the probe of a feed-forward block.
pub fn validate_mlp_activation_probe(m: &ProbeMeasures) -> (r: ValidationMatrix)
    ensures
        r@ == matrix_of("mlp_activation_probe"@, mlp_results(*m)),
{
    let k: &str = "mlp_activation_probe";
    let mut r: ValidationMatrix = ValidationMatrix::new(k);
    add_result(
        &mut r,
        judge(
            k,
            "cpu_reference_match",
            "max_rel_err",
            &m.max_error,
            above(m.max_error.bits, LIMIT_4),
            text::join2(
                "mlp activation probe GPU/CPU mismatch: max_rel_err=",
                m.max_error.shown.as_str(),
            ),
        ),
    );
    add_result(
        &mut r,
        match_outputs(
            k,
            "deterministic",
            "byte_match",
            partials_equal(&m.records, &m.records_again),
            "GPU output differs between identical dispatches",
        ),
    );
    assert(r@.results =~= mlp_results(*m));
    r
}

// ---------------------------------------------------------------------------
// All kernels
// ---------------------------------------------------------------------------

/// What was measured of every kernel; nothing of a kernel that could not be
/// built.
#[derive(Debug)]
pub struct KernelMeasures {
    pub ternary: Option<TernaryMeasures>,
    pub dense: Option<DenseMeasures>,
    pub error_partial: Option<ErrorPartialMeasures>,
    pub attention: Option<AttentionMeasures>,
    pub candidate: Option<CandidateMeasures>,
    pub unpack: Option<UnpackMeasures>,
    pub sidecar: Option<SidecarMeasures>,
    pub rmsnorm: Option<ProbeMeasures>,
    pub mlp: Option<ProbeMeasures>,
}

/// The results of a kernel, none where it could not be built.
pub open spec fn results_or_none(built: bool, results: Seq<ResultView>) -> Seq<ResultView> {
    if built {
        results
    } else {
        Seq::empty()
    }
}

/// The matrices of all kernels, in their order.
pub open spec fn all_matrices(k: KernelMeasures) -> Seq<MatrixView> {
    seq![
        matrix_of(
            "ternary_page640_projection"@,
            results_or_none(k.ternary is Some, ternary_results(k.ternary->0)),
        ),
        matrix_of(
            "dense_projection_f16"@,
            results_or_none(k.dense is Some, dense_results(k.dense->0)),
        ),
        matrix_of(
            "activation_error_partial_reduce"@,
            results_or_none(k.error_partial is Some, error_partial_results(k.error_partial->0)),
        ),
        matrix_of(
            "attention_score_probe"@,
            results_or_none(k.attention is Some, attention_results(k.attention->0)),
        ),
        matrix_of(
            "page_candidate_score"@,
            results_or_none(k.candidate is Some, candidate_results(k.candidate->0)),
        ),
        matrix_of(
            "page_unpack_verify"@,
            results_or_none(k.unpack is Some, unpack_results(k.unpack->0)),
        ),
        matrix_of(
            "sidecar_apply_verify"@,
            results_or_none(k.sidecar is Some, sidecar_results(k.sidecar->0)),
        ),
        matrix_of(
            "rmsnorm_residual_probe"@,
            results_or_none(k.rmsnorm is Some, rmsnorm_results(k.rmsnorm->0)),
        ),
        matrix_of(
            "mlp_activation_probe"@,
            results_or_none(k.mlp is Some, mlp_results(k.mlp->0)),
        ),
    ]
}

pub open spec fn matrix_views(s: Seq<ValidationMatrix>) -> Seq<MatrixView> {
    s.map_values(|m: ValidationMatrix| m@)
}

/// Judges every kernel.
pub fn run_validation_matrix(k: &KernelMeasures) -> (r: Vec<ValidationMatrix>)
    requires
        k.rmsnorm is Some ==> (k.rmsnorm->0).records@.len() >= (k.rmsnorm->0).reference@.len(),
    ensures
        matrix_views(r@) == all_matrices(*k),
{
    let mut r: Vec<ValidationMatrix> = Vec::new();
    r.push(
        match &k.ternary {
            Some(m) => validate_ternary_projection(m),
            None => ValidationMatrix::new("ternary_page640_projection"),
        },
    );
    r.push(
        match &k.dense {
            Some(m) => validate_dense_projection(m),
            None => ValidationMatrix::new("dense_projection_f16"),
        },
    );
    r.push(
        match &k.error_partial {
            Some(m) => validate_error_partial(m),
            None => ValidationMatrix::new("activation_error_partial_reduce"),
        },
    );
    r.push(
        match &k.attention {
            Some(m) => validate_attention_probe(m),
            None => ValidationMatrix::new("attention_score_probe"),
        },
    );
    r.push(
        match &k.candidate {
            Some(m) => validate_candidate_score(m),
            None => ValidationMatrix::new("page_candidate_score"),
        },
    );
    r.push(
        match &k.unpack {
            Some(m) => validate_unpack_verify(m),
            None => ValidationMatrix::new("page_unpack_verify"),
        },
    );
    r.push(
        match &k.sidecar {
            Some(m) => validate_sidecar_apply_verify(m),
            None => ValidationMatrix::new("sidecar_apply_verify"),
        },
    );
    r.push(
        match &k.rmsnorm {
            Some(m) => validate_rmsnorm_residual_probe(m),
            None => ValidationMatrix::new("rmsnorm_residual_probe"),
        },
    );
    r.push(
        match &k.mlp {
            Some(m) => validate_mlp_activation_probe(m),
            None => ValidationMatrix::new("mlp_activation_probe"),
        },
    );
    assert(matrix_views(r@) =~= all_matrices(*k));
    r
}

/// The results of matrices, one matrix after the other.
pub open spec fn flat_results(matrices: Seq<MatrixView>) -> Seq<ResultView>
    decreases matrices.len(),
{
    if matrices.len() == 0 {
        Seq::empty()
    } else {
        flat_results(matrices.drop_last()) + matrices.last().results
    }
}

/// Judges every kernel and lists the results.
pub fn run_validation_results(k: &KernelMeasures) -> (r: Vec<ValidationResult>)
    requires
        k.rmsnorm is Some ==> (k.rmsnorm->0).records@.len() >= (k.rmsnorm->0).reference@.len(),
    ensures
        result_views(r@) == flat_results(all_matrices(*k)),
{
    let matrices: Vec<ValidationMatrix> = run_validation_matrix(k);
    let ghost all = matrix_views(matrices@);
    let mut left: Vec<ValidationMatrix> = matrices;
    let mut r: Vec<ValidationResult> = Vec::new();
    assert(all.len() == 9 && left@.len() == all.len());
    assert(result_views(r@) =~= flat_results(all.take(0)));
    let mut i: usize = 0;
    while i < 9
        invariant
            i <= 9,
            all.len() == 9,
            left@.len() == 9 - i,
            forall|j: int| 0 <= j < left@.len() ==> (#[trigger] left@[j])@ == all[i + j],
            result_views(r@) == flat_results(all.take(i as int)),
        decreases 9 - i,
    {
        let ghost before = left@;
        let ghost done = result_views(r@);
        let mut first: ValidationMatrix = left.remove(0);
        let ghost view = first@;
        r.append(&mut first.results);
        proof {
            assert(view == all[i as int]);
            assert(result_views(r@) =~= done + view.results);
            assert(all.take(i + 1).drop_last() =~= all.take(i as int));
            assert forall|j: int| 0 <= j < left@.len() implies (#[trigger] left@[j])@ == all[i + 1
                + j] by {
                assert(left@[j] == before[j + 1]);
            }
        }
        i = i + 1;
    }
    assert(all.take(9) =~= all);
    r
}

/// A test that failed stays failed, whatever is recorded after, and its greatest
/// error never falls.
pub proof fn law_failure_stays(r: ResultView, error: u64, label: Seq<char>, shown: Seq<char>)
    ensures
        recorded(r, error, label, shown).passed == r.passed,
        !failed(r, error, shown).passed,
        !is_above(r.max_abs_error, recorded(r, error, label, shown).max_abs_error),
        !is_above(r.max_abs_error, failed(r, error, shown).max_abs_error),
{
}

// ---------------------------------------------------------------------------
// Laws
// ---------------------------------------------------------------------------

/// Whether the bits are those of a number that is not negative.
pub open spec fn is_number(bits: u64) -> bool {
    bits <= 0x7FF0_0000_0000_0000
}

/// The ternary projection passes exactly where all three errors are at most 1e-3 and the
/// two dispatches agree.
pub proof fn law_ternary_projection_passes_within_limits(m: &TernaryMeasures, r: ValidationMatrix)
    requires
        call_ensures(validate_ternary_projection, (m,), r),
        is_number(m.max_error.bits),
        is_number(m.tail_error.bits),
        is_number(m.sidecar_error.bits),
    ensures
        r.overall_pass == (m.max_error.bits <= 0x3F50_624D_D2F1_A9FC && m.tail_error.bits
            <= 0x3F50_624D_D2F1_A9FC && m.sidecar_error.bits <= 0x3F50_624D_D2F1_A9FC && m.output@
            == m.output_again@),
        r.results@.len() == 6,
{
    let s = ternary_results(*m);
    let all = result_views(r.results@);
    assert(all == s);
    assert(all.len() == r.results@.len());
    assert(r@.overall_pass == (s[0].passed && s[1].passed && s[2].passed && s[3].passed && s[4].passed && s[5].passed)) by {
        if s[0].passed && s[1].passed && s[2].passed && s[3].passed && s[4].passed && s[5].passed {
            assert forall|i: int| 0 <= i < s.len() implies (#[trigger] s[i]).passed by {}
        }
        assert(r@.overall_pass ==> s[0].passed);
        assert(r@.overall_pass ==> s[1].passed);
        assert(r@.overall_pass ==> s[2].passed);
        assert(r@.overall_pass ==> s[3].passed);
        assert(r@.overall_pass ==> s[4].passed);
        assert(r@.overall_pass ==> s[5].passed);
    }
}

/// The dense projection passes exactly where the error is at most 1e-4, the two dispatches
/// agree, and every value of the output is finite, and of a magnitude of at most 512.
pub proof fn law_dense_projection_passes_within_limits(m: &DenseMeasures, r: ValidationMatrix)
    requires
        call_ensures(validate_dense_projection, (m,), r),
        is_number(m.max_error.bits),
    ensures
        r.overall_pass == (m.max_error.bits <= 0x3F1A_36E2_EB1C_432D && m.output@ == m.output_again@ && forall|
            i: int,
        |
            0 <= i < m.output@.len() ==> validation_data::wide_half(#[trigger] m.output@[i])
                % 0x8000_0000 <= 0x4400_0000),
        r.results@.len() == 3,
{
    let s = dense_results(*m);
    let all = result_views(r.results@);
    assert(all == s);
    assert(all.len() == r.results@.len());
    lemma_greatest(m.output@);
    assert((exists|i: int|
        0 <= i < m.output@.len() && float_bits::abs_bits(
            validation_data::wide_half(#[trigger] m.output@[i]),
        ) >= 0x7F80_0000) ==> greatest_magnitude(m.output@) > 0x4400_0000);
    assert(r@.overall_pass == (s[0].passed && s[1].passed && s[2].passed)) by {
        if s[0].passed && s[1].passed && s[2].passed {
            assert forall|i: int| 0 <= i < s.len() implies (#[trigger] s[i]).passed by {}
        }
        assert(r@.overall_pass ==> s[0].passed);
        assert(r@.overall_pass ==> s[1].passed);
        assert(r@.overall_pass ==> s[2].passed);
    }
}

proof fn lemma_greatest(output: Seq<u16>)
    ensures
        forall|i: int|
            0 <= i < output.len() ==> validation_data::wide_half(#[trigger] output[i])
                % 0x8000_0000 <= greatest_magnitude(output),
        greatest_magnitude(output) == 0 || exists|i: int|
            0 <= i < output.len() && validation_data::wide_half(#[trigger] output[i]) % 0x8000_0000
                == greatest_magnitude(output),
    decreases output.len(),
{
    if output.len() > 0 {
        let rest = output.drop_last();
        lemma_greatest(rest);
        assert forall|i: int| 0 <= i < output.len() implies validation_data::wide_half(
            #[trigger] output[i],
        ) % 0x8000_0000 <= greatest_magnitude(output) by {
            if i < rest.len() {
                assert(rest[i] == output[i]);
            }
        }
        if greatest_magnitude(output) != 0 {
            if greatest_magnitude(output) == greatest_magnitude(rest) {
                let i = choose|i: int|
                    0 <= i < rest.len() && validation_data::wide_half(#[trigger] rest[i])
                        % 0x8000_0000 == greatest_magnitude(rest);
                assert(output[i] == rest[i]);
            } else {
                assert(output[output.len() - 1] == output.last());
            }
        }
    }
}

/// The reduction of errors passes exactly where it is within 1e-4 of the reference and the
/// two dispatches give the same numbers.
pub proof fn law_error_partial_passes_within_limits(m: &ErrorPartialMeasures, r: ValidationMatrix)
    requires
        call_ensures(validate_error_partial, (m,), r),
        is_number(m.max_error.bits),
    ensures
        r.overall_pass == (m.max_error.bits <= 0x3F1A_36E2_EB1C_432D && m.partials@.len()
            == m.partials_again@.len() && forall|i: int|
            0 <= i < m.partials@.len() ==> is_equal32(#[trigger] m.partials@[i], m.partials_again@[i])),
        r.results@.len() == 2,
{
    let s = error_partial_results(*m);
    let all = result_views(r.results@);
    assert(all == s);
    assert(all.len() == r.results@.len());
    assert(r@.overall_pass == (s[0].passed && s[1].passed)) by {
        if s[0].passed && s[1].passed {
            assert forall|i: int| 0 <= i < s.len() implies (#[trigger] s[i]).passed by {}
        }
        assert(r@.overall_pass ==> s[0].passed);
        assert(r@.overall_pass ==> s[1].passed);
    }
}

/// The attention probe passes exactly where every logit is within 1e-4 and the greatest
/// error and the divergence are within 1e-3.
pub proof fn law_attention_probe_passes_within_limits(m: &AttentionMeasures, r: ValidationMatrix)
    requires
        call_ensures(validate_attention_probe, (m,), r),
        is_number(m.probe_error.bits),
        is_number(m.kl_error.bits),
        forall|i: int| 0 <= i < m.logit_errors@.len() ==> is_number(#[trigger] m.logit_errors@[i]),
    ensures
        r.overall_pass == (m.probe_error.bits <= 0x3F50_624D_D2F1_A9FC && m.kl_error.bits
            <= 0x3F50_624D_D2F1_A9FC && forall|i: int|
            0 <= i < m.logit_errors@.len() ==> #[trigger] m.logit_errors@[i]
                <= 0x3F1A_36E2_EB1C_432D),
        r.results@.len() == 2,
{
    let s = attention_results(*m);
    let all = result_views(r.results@);
    assert(all == s);
    assert(all.len() == r.results@.len());
    assert(r@.overall_pass == (s[0].passed && s[1].passed)) by {
        if s[0].passed && s[1].passed {
            assert forall|i: int| 0 <= i < s.len() implies (#[trigger] s[i]).passed by {}
        }
        assert(r@.overall_pass ==> s[0].passed);
        assert(r@.overall_pass ==> s[1].passed);
    }
}

/// The scores of candidates pass exactly where each accepted one is below its challenger and
/// no cost is off by more than a fifth.
pub proof fn law_candidate_score_passes_in_order(m: &CandidateMeasures, r: ValidationMatrix)
    requires
        call_ensures(validate_candidate_score, (m,), r),
        forall|i: int|
            0 <= i < m.pages@.len() ==> (#[trigger] m.pages@[i]).accepted <= 0x7F80_0000
                && m.pages@[i].challenger <= 0x7F80_0000 && m.pages@[i].bytes_error <= 0x7F80_0000
                && m.pages@[i].loads_error <= 0x7F80_0000,
    ensures
        r.overall_pass == (forall|i: int|
            0 <= i < m.pages@.len() ==> (#[trigger] m.pages@[i]).accepted < m.pages@[i].challenger
                && m.pages@[i].bytes_error <= 0x3E4C_CCCD && m.pages@[i].loads_error
                <= 0x3E4C_CCCD),
        r.results@.len() == 2,
{
    let s = candidate_results(*m);
    let all = result_views(r.results@);
    assert(all == s);
    assert(all.len() == r.results@.len());
    assert(r@.overall_pass == (s[0].passed && s[1].passed)) by {
        if s[0].passed && s[1].passed {
            assert forall|i: int| 0 <= i < s.len() implies (#[trigger] s[i]).passed by {}
        }
        assert(r@.overall_pass ==> s[0].passed);
        assert(r@.overall_pass ==> s[1].passed);
    }
}

/// Unpacking passes exactly where both errors are at most 1e-6, a page of zeros gives
/// zeros, and a page of ones gives the scale of a half.
pub proof fn law_unpacking_passes_within_limits(m: &UnpackMeasures, r: ValidationMatrix)
    requires
        call_ensures(validate_unpack_verify, (m,), r),
        is_number(m.decode_error.bits),
        is_number(m.tail_error.bits),
    ensures
        r.overall_pass == (m.decode_error.bits <= 0x3EB0_C6F7_A0B5_ED8D && m.tail_error.bits
            <= 0x3EB0_C6F7_A0B5_ED8D && (forall|i: int|
            0 <= i < m.zero_output@.len() && i < 640 ==> #[trigger] m.zero_output@[i] == 0) && (forall|
            i: int,
        |
            0 <= i < m.positive_output@.len() && i < 640 ==> #[trigger] m.positive_output@[i]
                == 0x3800)),
        r.results@.len() == 4,
{
    let s = unpack_results(*m);
    let all = result_views(r.results@);
    assert(all == s);
    assert(all.len() == r.results@.len());
    assert forall|i: int| 0 <= i < 640 implies #[trigger] uniform_page(0)[i] == 0 && uniform_page(
        1,
    )[i] == 0x3800 by {}
    assert(agree(uniform_page(0), m.zero_output@) == (forall|i: int|
        0 <= i < m.zero_output@.len() && i < 640 ==> #[trigger] m.zero_output@[i] == 0)) by {
        if agree(uniform_page(0), m.zero_output@) {
            assert forall|i: int| 0 <= i < m.zero_output@.len() && i < 640 implies
                #[trigger] m.zero_output@[i] == 0 by {
                assert(uniform_page(0)[i] == m.zero_output@[i]);
            }
        }
    }
    assert(agree(uniform_page(1), m.positive_output@) == (forall|i: int|
        0 <= i < m.positive_output@.len() && i < 640 ==> #[trigger] m.positive_output@[i]
            == 0x3800)) by {
        if agree(uniform_page(1), m.positive_output@) {
            assert forall|i: int| 0 <= i < m.positive_output@.len() && i < 640 implies
                #[trigger] m.positive_output@[i] == 0x3800 by {
                assert(uniform_page(1)[i] == m.positive_output@[i]);
            }
        }
        if forall|i: int|
            0 <= i < m.positive_output@.len() && i < 640 ==> #[trigger] m.positive_output@[i]
                == 0x3800 {
            assert forall|i: int|
                0 <= i < uniform_page(1).len() && i < m.positive_output@.len() implies
                #[trigger] uniform_page(1)[i] == m.positive_output@[i] by {
                assert(m.positive_output@[i] == 0x3800);
            }
        }
    }
    assert(r@.overall_pass == (s[0].passed && s[1].passed && s[2].passed && s[3].passed)) by {
        if s[0].passed && s[1].passed && s[2].passed && s[3].passed {
            assert forall|i: int| 0 <= i < s.len() implies (#[trigger] s[i]).passed by {}
        }
        assert(r@.overall_pass ==> s[0].passed);
        assert(r@.overall_pass ==> s[1].passed);
        assert(r@.overall_pass ==> s[2].passed);
        assert(r@.overall_pass ==> s[3].passed);
    }
}

proof fn lemma_spans_pass(r: ResultView, spans: Seq<SpanMeasure>)
    ensures
        with_spans(r, spans).passed == (r.passed && forall|i: int|
            0 <= i < spans.len() ==> (#[trigger] spans[i]).entries_read == spans[i].expected_entries
                && !is_above32(spans[i].checksum_error, THOUSANDTH)),
    decreases spans.len(),
{
    if spans.len() > 0 {
        let rest = spans.drop_last();
        let last = spans.len() - 1;
        lemma_spans_pass(r, rest);
        assert(spans[last] == spans.last());
        if with_spans(r, spans).passed {
            assert forall|i: int| 0 <= i < spans.len() implies (#[trigger] spans[i]).entries_read
                == spans[i].expected_entries && !is_above32(
                spans[i].checksum_error,
                THOUSANDTH,
            ) by {
                if i < last {
                    assert(rest[i] == spans[i]);
                }
            }
        }
        if forall|i: int|
            0 <= i < spans.len() ==> (#[trigger] spans[i]).entries_read == spans[i].expected_entries
                && !is_above32(spans[i].checksum_error, THOUSANDTH) {
            assert forall|i: int| 0 <= i < rest.len() implies (#[trigger] rest[i]).entries_read
                == rest[i].expected_entries && !is_above32(rest[i].checksum_error, THOUSANDTH) by {
                assert(rest[i] == spans[i]);
            }
        }
    }
}

proof fn lemma_counts_pass(
    r: ResultView,
    gpu: Seq<ErrorPartialCpu>,
    cpu: Seq<ErrorPartialCpu>,
    n: nat,
)
    requires
        n <= gpu.len(),
        n <= cpu.len(),
    ensures
        with_counts(r, gpu, cpu, n).passed == (r.passed && forall|i: int|
            0 <= i < n ==> (#[trigger] cpu[i]).element_count == gpu[i].element_count),
    decreases n,
{
    if n > 0 {
        lemma_counts_pass(r, gpu, cpu, (n - 1) as nat);
        assert(cpu[n - 1].element_count == cpu[n - 1].element_count);
    }
}

/// Applying sidecars passes exactly where the error is at most 1e-6, each span was read whole
/// with its checksum within a thousandth, and the repeated dispatch agrees.
pub proof fn law_sidecar_passes_within_limits(m: &SidecarMeasures, r: ValidationMatrix)
    requires
        call_ensures(validate_sidecar_apply_verify, (m,), r),
        is_number(m.apply_error.bits),
        forall|i: int|
            0 <= i < m.spans@.len() ==> (#[trigger] m.spans@[i]).checksum_error <= 0x7F80_0000,
    ensures
        r.overall_pass == (m.apply_error.bits <= 0x3EB0_C6F7_A0B5_ED8D && m.output@ == m.output_again@ && (
        forall|i: int|
            0 <= i < m.spans@.len() ==> (#[trigger] m.spans@[i]).entries_read
                == m.spans@[i].expected_entries && m.spans@[i].checksum_error <= 0x3A83_126F) && (
        forall|i: int|
            0 <= i < m.repeats@.len() ==> (#[trigger] m.repeats@[i]).hits == m.repeats@[i].hits_again
                && m.repeats@[i].entries == m.repeats@[i].entries_again
                && m.repeats@[i].checksums_close)),
        r.results@.len() == 3,
{
    let s = sidecar_results(*m);
    let all = result_views(r.results@);
    assert(all == s);
    assert(all.len() == r.results@.len());
    lemma_spans_pass(blank("sidecar_apply_verify"@, "verify_record_correctness"@), m.spans@);
    assert(r@.overall_pass == (s[0].passed && s[1].passed && s[2].passed)) by {
        if s[0].passed && s[1].passed && s[2].passed {
            assert forall|i: int| 0 <= i < s.len() implies (#[trigger] s[i]).passed by {}
        }
        assert(r@.overall_pass ==> s[0].passed);
        assert(r@.overall_pass ==> s[1].passed);
        assert(r@.overall_pass ==> s[2].passed);
    }
}

/// The probe of the norm passes exactly where the error is at most 1e-4, each token counts the
/// elements that the reference counts, and the two dispatches agree.
pub proof fn law_norm_probe_passes_within_limits(m: &ProbeMeasures, r: ValidationMatrix)
    requires
        call_ensures(validate_rmsnorm_residual_probe, (m,), r),
        is_number(m.max_error.bits),
        m.records@.len() >= m.reference@.len(),
    ensures
        r.overall_pass == (m.max_error.bits <= 0x3F1A_36E2_EB1C_432D && (forall|i: int|
            0 <= i < m.reference@.len() ==> (#[trigger] m.reference@[i]).element_count
                == m.records@[i].element_count) && equal_partials(m.records@, m.records_again@)),
        r.results@.len() == 2,
{
    let s = rmsnorm_results(*m);
    let all = result_views(r.results@);
    assert(all == s);
    assert(all.len() == r.results@.len());
    lemma_counts_pass(
        blank("rmsnorm_residual_probe"@, "cpu_reference_match"@),
        m.records@,
        m.reference@,
        m.reference@.len(),
    );
    assert(r@.overall_pass == (s[0].passed && s[1].passed)) by {
        if s[0].passed && s[1].passed {
            assert forall|i: int| 0 <= i < s.len() implies (#[trigger] s[i]).passed by {}
        }
        assert(r@.overall_pass ==> s[0].passed);
        assert(r@.overall_pass ==> s[1].passed);
    }
}

/// The probe of the activation passes exactly where the error is at most 1e-4 and the two
/// dispatches agree.
pub proof fn law_activation_probe_passes_within_limits(m: &ProbeMeasures, r: ValidationMatrix)
    requires
        call_ensures(validate_mlp_activation_probe, (m,), r),
        is_number(m.max_error.bits),
    ensures
        r.overall_pass == (m.max_error.bits <= 0x3F1A_36E2_EB1C_432D && equal_partials(
            m.records@,
            m.records_again@,
        )),
        r.results@.len() == 2,
{
    let s = mlp_results(*m);
    let all = result_views(r.results@);
    assert(all == s);
    assert(all.len() == r.results@.len());
    assert(r@.overall_pass == (s[0].passed && s[1].passed)) by {
        if s[0].passed && s[1].passed {
            assert forall|i: int| 0 <= i < s.len() implies (#[trigger] s[i]).passed by {}
        }
        assert(r@.overall_pass ==> s[0].passed);
        assert(r@.overall_pass ==> s[1].passed);
    }
}

/// A batch fits into memory exactly where it takes at most 10.75 GiB.
pub proof fn law_memory_is_judged_by_the_ceiling(
    kernel: &str,
    bytes: u64,
    mb: &Measure,
    gb: &Measure,
    r: ValidationResult,
)
    requires
        call_ensures(judge_memory, (kernel, bytes, mb, gb), r),
    ensures
        r.passed == (4 * bytes <= 43 * 1024 * 1024 * 1024),
        r.test_name@ == "memory_admissibility"@,
{
}

} // verus!
