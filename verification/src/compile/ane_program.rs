//! Programs for the neural engine: the rules they have to keep, and how one is
//! put together from the operations of a subgraph.

use vstd::prelude::*;
use vstd::string::*;

use crate::order;
use crate::text;

use super::emission;

verus! {

// ---------------------------------------------------------------------------
// Programs
// ---------------------------------------------------------------------------

/// A tensor type: its constant dimensions, and whether its elements are 8-bit
/// integers.
#[derive(Debug)]
pub struct MilTensor {
    pub dims: Vec<u64>,
    pub is_byte: bool,
}

/// An output of an operation, with its type where it is a tensor.
#[derive(Debug)]
pub struct MilOutput {
    pub name: String,
    pub tensor: Option<MilTensor>,
}

/// An operation: its kind, the names of the values that its inputs are bound to,
/// and its outputs.
#[derive(Debug)]
pub struct MilOperation {
    pub kind: String,
    pub inputs: Vec<Option<String>>,
    pub outputs: Vec<MilOutput>,
}

/// A function, with the operations of its active block where it has one.
#[derive(Debug)]
pub struct MilFunction {
    pub name: String,
    pub operations: Option<Vec<MilOperation>>,
}

/// A program.
#[derive(Debug)]
pub struct MilProgram {
    pub functions: Vec<MilFunction>,
}

// ---------------------------------------------------------------------------
// Words and numbers
// ---------------------------------------------------------------------------

/// Whether `d` is the letter `c` in lower case, or `c` itself where it is no
/// capital letter.
pub open spec fn lowers_to(c: char, d: char) -> bool {
    if 'A' <= c <= 'Z' {
        'a' <= d <= 'z' && d as int - 'a' as int == c as int - 'A' as int
    } else {
        c == d
    }
}

/// Whether a string is a word, in whatever case its letters are.
pub open spec fn is_word(s: Seq<char>, word: Seq<char>) -> bool {
    &&& s.len() == word.len()
    &&& forall|i: int| 0 <= i < s.len() ==> lowers_to(#[trigger] s[i], word[i])
}

fn reads(s: &str, word: &str) -> (r: bool)
    ensures
        r == is_word(s@, word@),
{
    let a: Vec<char> = text::chars_of(s);
    let b: Vec<char> = text::chars_of(word);
    if a.len() != b.len() {
        return false;
    }
    let mut i: usize = 0;
    while i < a.len()
        invariant
            i <= a@.len(),
            a@ == s@,
            b@ == word@,
            a@.len() == b@.len(),
            forall|j: int| 0 <= j < i ==> lowers_to(#[trigger] a@[j], b@[j]),
        decreases a@.len() - i,
    {
        let c: char = a[i];
        let d: char = b[i];
        let same: bool = if c >= 'A' && c <= 'Z' {
            d >= 'a' && d <= 'z' && d as u32 - 'a' as u32 == c as u32 - 'A' as u32
        } else {
            c == d
        };
        if !same {
            assert(!lowers_to(s@[i as int], word@[i as int]));
            return false;
        }
        i = i + 1;
    }
    true
}

/// The numeral of a dimension, which is read as a signed number.
pub open spec fn dim_text(d: u64) -> Seq<char> {
    if d < 0x8000_0000_0000_0000 {
        text::decimal(d as nat)
    } else {
        "-"@ + text::decimal((0x1_0000_0000_0000_0000 - d) as nat)
    }
}

fn push_dim(out: &mut String, d: u64)
    ensures
        final(out)@ == old(out)@ + dim_text(d),
{
    let ghost before = out@;
    if d < 0x8000_0000_0000_0000 {
        text::push_decimal(out, d);
    } else {
        out.append("-");
        text::push_decimal(out, u64::MAX - d + 1);
    }
    assert(out@ =~= before + dim_text(d));
}

/// Dimensions separated by commas.
pub open spec fn dims_items(dims: Seq<u64>) -> Seq<char>
    decreases dims.len(),
{
    if dims.len() == 0 {
        Seq::empty()
    } else if dims.len() == 1 {
        dim_text(dims[0])
    } else {
        dims_items(dims.drop_last()) + ", "@ + dim_text(dims.last())
    }
}

/// A list of dimensions in square brackets.
pub open spec fn dims_text(dims: Seq<u64>) -> Seq<char> {
    "["@ + dims_items(dims) + "]"@
}

fn push_dims(out: &mut String, dims: &Vec<u64>)
    ensures
        final(out)@ == old(out)@ + dims_text(dims@),
{
    let ghost start = out@;
    out.append("[");
    let mut i: usize = 0;
    assert(out@ =~= start + "["@ + dims_items(dims@.take(0)));
    while i < dims.len()
        invariant
            i <= dims@.len(),
            out@ == start + "["@ + dims_items(dims@.take(i as int)),
        decreases dims@.len() - i,
    {
        if i > 0 {
            out.append(", ");
        }
        push_dim(out, dims[i]);
        proof {
            let next = dims@.take(i + 1);
            assert(next.drop_last() =~= dims@.take(i as int));
            assert(next.last() == dims@[i as int]);
            assert(out@ =~= start + "["@ + dims_items(next));
        }
        i = i + 1;
    }
    assert(dims@.take(dims@.len() as int) =~= dims@);
    out.append("]");
    assert(out@ =~= start + dims_text(dims@));
}

/// Lines with line ends between them.
pub open spec fn joined(lines: Seq<Seq<char>>) -> Seq<char>
    decreases lines.len(),
{
    if lines.len() == 0 {
        Seq::empty()
    } else if lines.len() == 1 {
        lines[0]
    } else {
        joined(lines.drop_last()) + "\n"@ + lines.last()
    }
}

fn join_lines(lines: &Vec<String>) -> (r: String)
    ensures
        r@ == joined(order::views(lines@)),
{
    let ghost keys = order::views(lines@);
    let mut r: String = String::new();
    let mut i: usize = 0;
    assert(r@ =~= joined(keys.take(0)));
    while i < lines.len()
        invariant
            i <= lines@.len(),
            keys == order::views(lines@),
            r@ == joined(keys.take(i as int)),
        decreases lines@.len() - i,
    {
        if i > 0 {
            r.append("\n");
        }
        r.append(lines[i].as_str());
        proof {
            let next = keys.take(i + 1);
            assert(next.drop_last() =~= keys.take(i as int));
            assert(next.last() == lines@[i as int]@);
            assert(r@ =~= joined(next));
        }
        i = i + 1;
    }
    assert(keys.take(keys.len() as int) =~= keys);
    r
}

// ---------------------------------------------------------------------------
// Rules on single operations
// ---------------------------------------------------------------------------

/// How a complaint of an output begins.
pub open spec fn output_opening(function: Seq<char>, kind: Seq<char>, output: Seq<char>) -> Seq<char> {
    "[ANE-HW] Function '"@ + function + "': op '"@ + kind + "' output '"@ + output + "'"@
}

/// Whether a tensor has four dimensions, the third of which is one.
pub open spec fn is_spatial(dims: Seq<u64>) -> bool {
    dims.len() == 4 && dims[2] == 1
}

/// The complaint of a shape.
pub open spec fn shape_complaint(
    function: Seq<char>,
    kind: Seq<char>,
    output: Seq<char>,
    dims: Seq<u64>,
) -> Seq<char> {
    output_opening(function, kind, output) + " has "@ + text::decimal(dims.len()) + "D shape "@
        + dims_text(dims) + ", must be 4D [B, C, 1, S]"@
}

/// The complaint of a last dimension.
pub open spec fn stride_complaint(
    function: Seq<char>,
    kind: Seq<char>,
    output: Seq<char>,
    trailing: u64,
) -> Seq<char> {
    output_opening(function, kind, output) + " trailing dim "@ + text::decimal(trailing as nat)
        + " * 2 = "@ + text::decimal((trailing * 2) as nat) + " not 64-byte aligned"@
}

/// The complaints of an output: a tensor that is no scalar must have four
/// dimensions, the third of which is one, and a row of half-precision values
/// must fill whole blocks of 64 bytes.
pub open spec fn output_complaints(function: Seq<char>, kind: Seq<char>, o: MilOutput) -> Seq<
    Seq<char>,
> {
    match o.tensor {
        None => Seq::empty(),
        Some(t) => {
            let dims = t.dims@;
            let first: Seq<Seq<char>> = if dims.len() > 0 && !is_spatial(dims) {
                seq![shape_complaint(function, kind, o.name@, dims)]
            } else {
                Seq::empty()
            };
            if dims.len() == 4 && (dims[3] * 2) % 64 != 0 {
                first.push(stride_complaint(function, kind, o.name@, dims[3]))
            } else {
                first
            }
        },
    }
}

/// The complaints of outputs, one after the other.
pub open spec fn outputs_complaints(
    function: Seq<char>,
    kind: Seq<char>,
    outputs: Seq<MilOutput>,
) -> Seq<Seq<char>>
    decreases outputs.len(),
{
    if outputs.len() == 0 {
        Seq::empty()
    } else {
        outputs_complaints(function, kind, outputs.drop_last()) + output_complaints(
            function,
            kind,
            outputs.last(),
        )
    }
}

/// The complaints of an operation: products must be written as convolutions, and
/// the outputs must be in order.
pub open spec fn operation_complaints(function: Seq<char>, op: MilOperation) -> Seq<Seq<char>> {
    let first: Seq<Seq<char>> = if is_word(op.kind@, "linear"@) || is_word(op.kind@, "matmul"@) {
        seq![
            "[ANE-HW] Function '"@ + function + "': forbidden op '"@ + op.kind@
                + "' — must be replaced with 1x1 Conv2d"@,
        ]
    } else {
        Seq::empty()
    };
    first + outputs_complaints(function, op.kind@, op.outputs@)
}

/// The complaints of operations, one after the other.
pub open spec fn operations_complaints(function: Seq<char>, ops: Seq<MilOperation>) -> Seq<Seq<char>>
    decreases ops.len(),
{
    if ops.len() == 0 {
        Seq::empty()
    } else {
        operations_complaints(function, ops.drop_last()) + operation_complaints(
            function,
            ops.last(),
        )
    }
}

/// The operations of the active block of a function.
pub open spec fn active_ops(f: MilFunction) -> Seq<MilOperation> {
    match f.operations {
        Some(ops) => ops@,
        None => Seq::empty(),
    }
}

/// The complaints of functions, one after the other.
pub open spec fn functions_complaints(functions: Seq<MilFunction>) -> Seq<Seq<char>>
    decreases functions.len(),
{
    if functions.len() == 0 {
        Seq::empty()
    } else {
        functions_complaints(functions.drop_last()) + operations_complaints(
            functions.last().name@,
            active_ops(functions.last()),
        )
    }
}

/// Whether twice the last dimension of every tensor is a number of 64 bits.
pub open spec fn has_plain_rows(ops: Seq<MilOperation>) -> bool {
    forall|i: int, j: int|
        0 <= i < ops.len() && 0 <= j < ops[i].outputs@.len() ==> is_plain_output(
            #[trigger] ops[i].outputs@[j],
        )
}

/// Whether twice the last dimension of an output is a number of 64 bits.
pub open spec fn is_plain_output(o: MilOutput) -> bool {
    match o.tensor {
        Some(t) => t.dims@.len() == 4 ==> t.dims@[3] * 2 <= u64::MAX,
        None => true,
    }
}

fn push_output_opening(out: &mut String, function: &str, kind: &str, output: &str)
    ensures
        final(out)@ == old(out)@ + output_opening(function@, kind@, output@),
{
    let ghost before = out@;
    out.append("[ANE-HW] Function '");
    out.append(function);
    out.append("': op '");
    out.append(kind);
    out.append("' output '");
    out.append(output);
    out.append("'");
    assert(out@ =~= before + output_opening(function@, kind@, output@));
}

fn complain_shape(function: &str, kind: &str, output: &str, dims: &Vec<u64>) -> (r: String)
    ensures
        r@ == shape_complaint(function@, kind@, output@, dims@),
{
    let mut r: String = String::new();
    push_output_opening(&mut r, function, kind, output);
    r.append(" has ");
    text::push_decimal(&mut r, dims.len() as u64);
    r.append("D shape ");
    push_dims(&mut r, dims);
    r.append(", must be 4D [B, C, 1, S]");
    assert(r@ =~= shape_complaint(function@, kind@, output@, dims@));
    r
}

fn complain_stride(function: &str, kind: &str, output: &str, trailing: u64) -> (r: String)
    requires
        trailing * 2 <= u64::MAX,
    ensures
        r@ == stride_complaint(function@, kind@, output@, trailing),
{
    let mut r: String = String::new();
    push_output_opening(&mut r, function, kind, output);
    r.append(" trailing dim ");
    text::push_decimal(&mut r, trailing);
    r.append(" * 2 = ");
    text::push_decimal(&mut r, trailing * 2);
    r.append(" not 64-byte aligned");
    assert(r@ =~= stride_complaint(function@, kind@, output@, trailing));
    r
}

fn check_output(errors: &mut Vec<String>, function: &str, kind: &str, o: &MilOutput)
    requires
        is_plain_output(*o),
    ensures
        order::views(final(errors)@) == order::views(old(errors)@) + output_complaints(
            function@,
            kind@,
            *o,
        ),
{
    let ghost before = order::views(errors@);
    if let Some(t) = &o.tensor {
        let n: usize = t.dims.len();
        if n > 0 && !(n == 4 && t.dims[2] == 1) {
            let e: String = complain_shape(function, kind, o.name.as_str(), &t.dims);
            errors.push(e);
            assert(order::views(errors@) =~= before.push(e@));
        }
        let ghost between = order::views(errors@);
        if n == 4 && (t.dims[3] * 2) % 64 != 0 {
            let e: String = complain_stride(function, kind, o.name.as_str(), t.dims[3]);
            errors.push(e);
            assert(order::views(errors@) =~= between.push(e@));
        }
    }
    assert(order::views(errors@) =~= before + output_complaints(function@, kind@, *o));
}

fn check_operation(errors: &mut Vec<String>, function: &str, op: &MilOperation)
    requires
        forall|j: int| 0 <= j < op.outputs@.len() ==> is_plain_output(#[trigger] op.outputs@[j]),
    ensures
        order::views(final(errors)@) == order::views(old(errors)@) + operation_complaints(
            function@,
            *op,
        ),
{
    let ghost before = order::views(errors@);
    let kind: &str = op.kind.as_str();
    if reads(kind, "linear") || reads(kind, "matmul") {
        let mut e: String = text::join3("[ANE-HW] Function '", function, "': forbidden op '");
        e.append(kind);
        e.append("' — must be replaced with 1x1 Conv2d");
        errors.push(e);
        assert(order::views(errors@) =~= before.push(e@));
    }
    let ghost opened = order::views(errors@);
    let mut i: usize = 0;
    assert(opened + outputs_complaints(function@, kind@, op.outputs@.take(0)) =~= opened);
    while i < op.outputs.len()
        invariant
            i <= op.outputs@.len(),
            kind@ == op.kind@,
            forall|j: int|
                0 <= j < op.outputs@.len() ==> is_plain_output(#[trigger] op.outputs@[j]),
            order::views(errors@) == opened + outputs_complaints(
                function@,
                kind@,
                op.outputs@.take(i as int),
            ),
        decreases op.outputs@.len() - i,
    {
        check_output(errors, function, kind, &op.outputs[i]);
        proof {
            assert(op.outputs@.take(i + 1).drop_last() =~= op.outputs@.take(i as int));
            assert(order::views(errors@) =~= opened + outputs_complaints(
                function@,
                kind@,
                op.outputs@.take(i + 1),
            ));
        }
        i = i + 1;
    }
    assert(op.outputs@.take(op.outputs@.len() as int) =~= op.outputs@);
    assert(order::views(errors@) =~= before + operation_complaints(function@, *op));
}

fn check_function(errors: &mut Vec<String>, function: &str, ops: &Vec<MilOperation>)
    requires
        has_plain_rows(ops@),
    ensures
        order::views(final(errors)@) == order::views(old(errors)@) + operations_complaints(
            function@,
            ops@,
        ),
{
    let ghost before = order::views(errors@);
    let mut i: usize = 0;
    assert(before + operations_complaints(function@, ops@.take(0)) =~= before);
    while i < ops.len()
        invariant
            i <= ops@.len(),
            has_plain_rows(ops@),
            order::views(errors@) == before + operations_complaints(function@, ops@.take(i as int)),
        decreases ops@.len() - i,
    {
        proof {
            let outs = ops@[i as int].outputs@;
            assert forall|j: int| 0 <= j < outs.len() implies is_plain_output(
                #[trigger] outs[j],
            ) by {
                assert(is_plain_output(ops@[i as int].outputs@[j]));
            }
        }
        check_operation(errors, function, &ops[i]);
        proof {
            assert(ops@.take(i + 1).drop_last() =~= ops@.take(i as int));
            assert(order::views(errors@) =~= before + operations_complaints(
                function@,
                ops@.take(i + 1),
            ));
        }
        i = i + 1;
    }
    assert(ops@.take(ops@.len() as int) =~= ops@);
}

// ---------------------------------------------------------------------------
// Constants of 8-bit integers
// ---------------------------------------------------------------------------

/// The names of those outputs that are tensors of 8-bit integers.
pub open spec fn byte_outputs(outputs: Seq<MilOutput>) -> Seq<Seq<char>>
    decreases outputs.len(),
{
    if outputs.len() == 0 {
        Seq::empty()
    } else {
        let rest = byte_outputs(outputs.drop_last());
        match outputs.last().tensor {
            Some(t) => if t.is_byte {
                rest.push(outputs.last().name@)
            } else {
                rest
            },
            None => rest,
        }
    }
}

/// The names of the constants of 8-bit integers among operations.
pub open spec fn byte_constants(ops: Seq<MilOperation>) -> Seq<Seq<char>>
    decreases ops.len(),
{
    if ops.len() == 0 {
        Seq::empty()
    } else {
        let rest = byte_constants(ops.drop_last());
        if is_word(ops.last().kind@, "const"@) {
            rest + byte_outputs(ops.last().outputs@)
        } else {
            rest
        }
    }
}

/// The names of the constants of 8-bit integers of functions.
pub open spec fn all_byte_constants(functions: Seq<MilFunction>) -> Seq<Seq<char>>
    decreases functions.len(),
{
    if functions.len() == 0 {
        Seq::empty()
    } else {
        all_byte_constants(functions.drop_last()) + byte_constants(active_ops(functions.last()))
    }
}

/// Whether an operation takes the value of that name.
pub open spec fn takes(op: MilOperation, name: Seq<char>) -> bool {
    exists|k: int|
        0 <= k < op.inputs@.len() && (#[trigger] op.inputs@[k]) is Some && op.inputs@[k]->0@ == name
}

/// Whether an operation multiplies one of the outputs.
pub open spec fn scales_one(op: MilOperation, outputs: Seq<MilOutput>) -> bool {
    is_word(op.kind@, "mul"@) && exists|k: int|
        0 <= k < outputs.len() && takes(op, (#[trigger] outputs[k]).name@)
}

/// Whether some operation multiplies one of the outputs.
pub open spec fn is_scaled(ops: Seq<MilOperation>, outputs: Seq<MilOutput>) -> bool {
    exists|j: int| 0 <= j < ops.len() && scales_one(#[trigger] ops[j], outputs)
}

/// Whether the value of that name is cast, and the outcome multiplied.
pub open spec fn is_cast_and_scaled(ops: Seq<MilOperation>, name: Seq<char>) -> bool {
    exists|i: int|
        0 <= i < ops.len() && is_word((#[trigger] ops[i]).kind@, "cast"@) && takes(ops[i], name)
            && is_scaled(ops, ops[i].outputs@)
}

/// Whether some function casts the value of that name and multiplies the
/// outcome.
pub open spec fn is_widened(functions: Seq<MilFunction>, name: Seq<char>) -> bool {
    exists|f: int| 0 <= f < functions.len() && is_cast_and_scaled(active_ops(#[trigger] functions[f]), name)
}

/// The complaint of a constant of 8-bit integers that is not widened.
pub open spec fn constant_complaint(name: Seq<char>) -> Seq<char> {
    "[ANE-HW] Uint8 constant '"@ + name
        + "' has no downstream cast(Float16) — INT8 memory bypass not active"@
}

/// The complaints of those names that are not widened.
pub open spec fn constants_complaints(
    functions: Seq<MilFunction>,
    names: Seq<Seq<char>>,
) -> Seq<Seq<char>>
    decreases names.len(),
{
    if names.len() == 0 {
        Seq::empty()
    } else {
        let rest = constants_complaints(functions, names.drop_last());
        if is_widened(functions, names.last()) {
            rest
        } else {
            rest.push(constant_complaint(names.last()))
        }
    }
}

fn push_byte_outputs(names: &mut Vec<String>, outputs: &Vec<MilOutput>)
    ensures
        order::views(final(names)@) == order::views(old(names)@) + byte_outputs(outputs@),
{
    let ghost before = order::views(names@);
    let mut i: usize = 0;
    assert(before + byte_outputs(outputs@.take(0)) =~= before);
    while i < outputs.len()
        invariant
            i <= outputs@.len(),
            order::views(names@) == before + byte_outputs(outputs@.take(i as int)),
        decreases outputs@.len() - i,
    {
        let ghost now = order::views(names@);
        assert(outputs@.take(i + 1).drop_last() =~= outputs@.take(i as int));
        if let Some(t) = &outputs[i].tensor {
            if t.is_byte {
                names.push(outputs[i].name.clone());
                assert(order::views(names@) =~= now.push(outputs@[i as int].name@));
            }
        }
        assert(order::views(names@) =~= before + byte_outputs(outputs@.take(i + 1)));
        i = i + 1;
    }
    assert(outputs@.take(outputs@.len() as int) =~= outputs@);
}

fn push_byte_constants(names: &mut Vec<String>, ops: &Vec<MilOperation>)
    ensures
        order::views(final(names)@) == order::views(old(names)@) + byte_constants(ops@),
{
    let ghost before = order::views(names@);
    let mut i: usize = 0;
    assert(before + byte_constants(ops@.take(0)) =~= before);
    while i < ops.len()
        invariant
            i <= ops@.len(),
            order::views(names@) == before + byte_constants(ops@.take(i as int)),
        decreases ops@.len() - i,
    {
        assert(ops@.take(i + 1).drop_last() =~= ops@.take(i as int));
        if reads(ops[i].kind.as_str(), "const") {
            push_byte_outputs(names, &ops[i].outputs);
        }
        assert(order::views(names@) =~= before + byte_constants(ops@.take(i + 1)));
        i = i + 1;
    }
    assert(ops@.take(ops@.len() as int) =~= ops@);
}

fn op_takes(op: &MilOperation, name: &str) -> (r: bool)
    ensures
        r == takes(*op, name@),
{
    let mut k: usize = 0;
    while k < op.inputs.len()
        invariant
            k <= op.inputs@.len(),
            forall|j: int|
                0 <= j < k ==> !((#[trigger] op.inputs@[j]) is Some && op.inputs@[j]->0@ == name@),
        decreases op.inputs@.len() - k,
    {
        if let Some(n) = &op.inputs[k] {
            if text::same_text(n.as_str(), name) {
                assert(op.inputs@[k as int] is Some);
                return true;
            }
        }
        k = k + 1;
    }
    false
}

fn op_scales_one(op: &MilOperation, outputs: &Vec<MilOutput>) -> (r: bool)
    ensures
        r == scales_one(*op, outputs@),
{
    if !reads(op.kind.as_str(), "mul") {
        return false;
    }
    let mut k: usize = 0;
    while k < outputs.len()
        invariant
            k <= outputs@.len(),
            is_word(op.kind@, "mul"@),
            forall|j: int| 0 <= j < k ==> !takes(*op, (#[trigger] outputs@[j]).name@),
        decreases outputs@.len() - k,
    {
        if op_takes(op, outputs[k].name.as_str()) {
            assert(takes(*op, outputs@[k as int].name@));
            return true;
        }
        k = k + 1;
    }
    false
}

fn ops_scale(ops: &Vec<MilOperation>, outputs: &Vec<MilOutput>) -> (r: bool)
    ensures
        r == is_scaled(ops@, outputs@),
{
    let mut j: usize = 0;
    while j < ops.len()
        invariant
            j <= ops@.len(),
            forall|i: int| 0 <= i < j ==> !scales_one(#[trigger] ops@[i], outputs@),
        decreases ops@.len() - j,
    {
        if op_scales_one(&ops[j], outputs) {
            assert(scales_one(ops@[j as int], outputs@));
            return true;
        }
        j = j + 1;
    }
    false
}

fn ops_widen(ops: &Vec<MilOperation>, name: &str) -> (r: bool)
    ensures
        r == is_cast_and_scaled(ops@, name@),
{
    let mut i: usize = 0;
    while i < ops.len()
        invariant
            i <= ops@.len(),
            forall|j: int|
                0 <= j < i ==> !(is_word((#[trigger] ops@[j]).kind@, "cast"@) && takes(
                    ops@[j],
                    name@,
                ) && is_scaled(ops@, ops@[j].outputs@)),
        decreases ops@.len() - i,
    {
        if reads(ops[i].kind.as_str(), "cast") && op_takes(&ops[i], name) && ops_scale(
            ops,
            &ops[i].outputs,
        ) {
            assert(is_word(ops@[i as int].kind@, "cast"@));
            return true;
        }
        i = i + 1;
    }
    false
}

fn functions_widen(functions: &Vec<MilFunction>, name: &str) -> (r: bool)
    ensures
        r == is_widened(functions@, name@),
{
    let mut f: usize = 0;
    while f < functions.len()
        invariant
            f <= functions@.len(),
            forall|j: int|
                0 <= j < f ==> !is_cast_and_scaled(active_ops(#[trigger] functions@[j]), name@),
        decreases functions@.len() - f,
    {
        if let Some(ops) = &functions[f].operations {
            if ops_widen(ops, name) {
                assert(is_cast_and_scaled(active_ops(functions@[f as int]), name@));
                return true;
            }
        }
        f = f + 1;
    }
    false
}

/// All complaints of a program.
pub open spec fn program_complaints(p: MilProgram) -> Seq<Seq<char>> {
    functions_complaints(p.functions@) + constants_complaints(
        p.functions@,
        all_byte_constants(p.functions@),
    )
}

/// Whether twice the last dimension of every tensor of a program is a number of
/// 64 bits.
pub open spec fn is_plain_program(p: MilProgram) -> bool {
    forall|f: int| 0 <= f < p.functions@.len() ==> has_plain_rows(active_ops(#[trigger] p.functions@[f]))
}

/// The report of a program that breaks rules.
pub open spec fn program_report(complaints: Seq<Seq<char>>) -> Seq<char> {
    "❌ ANE Hardware Validation FAILED ("@ + text::decimal(complaints.len()) + " errors):\n"@
        + joined(complaints)
}

/// Checks a program against the rules of the neural engine:
/// products are written as convolutions; tensors have four dimensions, the third
/// of which is one; rows fill whole blocks of 64 bytes; and constants of 8-bit
/// integers are cast and then scaled.
pub fn validate_ane_program(program: &MilProgram) -> (r: Result<(), String>)
    requires
        is_plain_program(*program),
    ensures
        match r {
            Ok(_) => program_complaints(*program).len() == 0,
            Err(e) => program_complaints(*program).len() > 0 && e@ == program_report(
                program_complaints(*program),
            ),
        },
{
    let mut errors: Vec<String> = Vec::new();
    let mut names: Vec<String> = Vec::new();
    let ghost fs = program.functions@;
    let mut f: usize = 0;
    while f < program.functions.len()
        invariant
            f <= program.functions@.len(),
            fs == program.functions@,
            is_plain_program(*program),
            order::views(errors@) =~= functions_complaints(fs.take(f as int)),
            order::views(names@) =~= all_byte_constants(fs.take(f as int)),
        decreases program.functions@.len() - f,
    {
        proof {
            assert(fs.take(f + 1).drop_last() =~= fs.take(f as int));
            assert(has_plain_rows(active_ops(fs[f as int])));
        }
        if let Some(ops) = &program.functions[f].operations {
            check_function(&mut errors, program.functions[f].name.as_str(), ops);
            push_byte_constants(&mut names, ops);
        }
        f = f + 1;
    }
    assert(fs.take(fs.len() as int) =~= fs);
    let ghost keys = order::views(names@);
    let ghost structural = order::views(errors@);
    let mut i: usize = 0;
    assert(structural + constants_complaints(fs, keys.take(0)) =~= structural);
    while i < names.len()
        invariant
            i <= names@.len(),
            fs == program.functions@,
            keys == order::views(names@),
            order::views(errors@) == structural + constants_complaints(fs, keys.take(i as int)),
        decreases names@.len() - i,
    {
        let ghost now = order::views(errors@);
        proof {
            assert(keys.take(i + 1).drop_last() =~= keys.take(i as int));
            assert(keys.take(i + 1).last() == names@[i as int]@);
        }
        if !functions_widen(&program.functions, names[i].as_str()) {
            let e: String = text::join3(
                "[ANE-HW] Uint8 constant '",
                names[i].as_str(),
                "' has no downstream cast(Float16) — INT8 memory bypass not active",
            );
            errors.push(e);
            assert(order::views(errors@) =~= now.push(e@));
        }
        assert(order::views(errors@) =~= structural + constants_complaints(fs, keys.take(i + 1)));
        i = i + 1;
    }
    assert(keys.take(keys.len() as int) =~= keys);
    assert(order::views(errors@).len() == errors@.len());
    if errors.len() == 0 {
        Ok(())
    } else {
        let mut r: String = "❌ ANE Hardware Validation FAILED (".to_owned();
        text::push_decimal(&mut r, errors.len() as u64);
        r.append(" errors):\n");
        let lines: String = join_lines(&errors);
        r.append(lines.as_str());
        Err(r)
    }
}

// ---------------------------------------------------------------------------
// Putting a program together
// ---------------------------------------------------------------------------

/// A step of a program.
#[derive(Debug)]
pub enum MilStep {
    Matmul { input: String, weight: String },
    Mul { input: String },
    AddResidual { input: String },
}

#[verifier::ext_equal]
pub enum StepView {
    Matmul { input: Seq<char>, weight: Seq<char> },
    Mul { input: Seq<char> },
    AddResidual { input: Seq<char> },
}

impl MilStep {
    pub open spec fn view(&self) -> StepView {
        match self {
            MilStep::Matmul { input, weight } => StepView::Matmul { input: input@, weight: weight@ },
            MilStep::Mul { input } => StepView::Mul { input: input@ },
            MilStep::AddResidual { input } => StepView::AddResidual { input: input@ },
        }
    }
}

/// The views of steps.
pub open spec fn step_views(steps: Seq<MilStep>) -> Seq<StepView> {
    steps.map_values(|s: MilStep| s@)
}

/// A program in the making: its steps so far, the value that the next step
/// takes, and a report where an operation is not known.
#[verifier::ext_equal]
pub struct Draft {
    pub steps: Seq<StepView>,
    pub current: Seq<char>,
    pub report: Option<Seq<char>>,
}

/// Whether an operation is a product with a weight of its own name.
pub open spec fn is_projection(op: Seq<char>) -> bool {
    op == "gate_proj"@ || op == "up_proj"@ || op == "down_proj"@ || op == "q_proj"@ || op
        == "k_proj"@ || op == "v_proj"@ || op == "lm_head"@
}

/// The program after one more operation.
pub open spec fn op_added(d: Draft, op: Seq<char>, name: Seq<char>) -> Draft {
    if is_projection(op) {
        Draft {
            steps: d.steps.push(StepView::Matmul { input: d.current, weight: op }),
            current: "matmul_"@ + op,
            ..d
        }
    } else if op == "silu_mul"@ {
        Draft { current: "silu_mul_"@ + op, ..d }
    } else if op == "mul"@ {
        Draft {
            steps: d.steps.push(StepView::Mul { input: d.current }),
            current: "elem_mul"@,
            ..d
        }
    } else if op == "residual_add"@ {
        Draft {
            steps: d.steps.push(StepView::AddResidual { input: d.current }),
            current: "residual_add"@,
            ..d
        }
    } else if op == "rms_norm"@ {
        Draft { current: "rms_norm_"@ + op, ..d }
    } else if op == "rope"@ {
        Draft { current: "rope_"@ + op, ..d }
    } else {
        Draft {
            report: Some(
                "unknown op type '"@ + op + "' in subgraph '"@ + name
                    + "'; cannot build MIL program"@,
            ),
            ..d
        }
    }
}

/// The program after operations, up to the first that is not known.
pub open spec fn ops_added(ops: Seq<Seq<char>>, name: Seq<char>) -> Draft
    decreases ops.len(),
{
    if ops.len() == 0 {
        Draft { steps: Seq::empty(), current: "x"@, report: None }
    } else {
        let d = ops_added(ops.drop_last(), name);
        if d.report is Some {
            d
        } else {
            op_added(d, ops.last(), name)
        }
    }
}

/// The constant of a projection: its name and dimensions.
pub open spec fn projection_dims(op: Seq<char>, hidden: i64, intermediate: i64) -> Seq<i64> {
    if op == "gate_proj"@ || op == "up_proj"@ {
        seq![hidden, intermediate]
    } else if op == "down_proj"@ {
        seq![intermediate, hidden]
    } else {
        seq![hidden, hidden]
    }
}

/// A program for a subgraph: the projections that need a constant, whether the
/// norm needs one, the steps, and the value that comes out.
#[derive(Debug)]
pub struct MilPlan {
    pub needs_norm: bool,
    pub steps: Vec<MilStep>,
    pub output: String,
}

proof fn lemma_report_stays(ops: Seq<Seq<char>>, k: int, name: Seq<char>)
    requires
        0 <= k <= ops.len(),
        ops_added(ops.take(k), name).report is Some,
    ensures
        ops_added(ops, name) == ops_added(ops.take(k), name),
    decreases ops.len() - k,
{
    if k < ops.len() {
        assert(ops.take(k + 1).drop_last() =~= ops.take(k));
        lemma_report_stays(ops, k + 1, name);
    } else {
        assert(ops.take(k) =~= ops);
    }
}

fn projects(op: &str) -> (r: bool)
    ensures
        r == is_projection(op@),
{
    text::same_text(op, "gate_proj") || text::same_text(op, "up_proj") || text::same_text(
        op,
        "down_proj",
    ) || text::same_text(op, "q_proj") || text::same_text(op, "k_proj") || text::same_text(
        op,
        "v_proj",
    ) || text::same_text(op, "lm_head")
}

/// Puts a program together from the operations of a subgraph. The norm, the
/// activation and the rotary embedding pass their value on.
pub fn build_mil_program(name: &str, ops: &Vec<String>) -> (r: Result<MilPlan, String>)
    ensures
        match r {
            Ok(p) => {
                let d = ops_added(order::views(ops@), name@);
                &&& d.report is None
                &&& step_views(p.steps@) == d.steps
                &&& p.output@ == d.current
                &&& p.needs_norm == order::views(ops@).contains("rms_norm"@)
            },
            Err(e) => ops_added(order::views(ops@), name@).report == Some(e@),
        },
{
    let ghost keys = order::views(ops@);
    let mut steps: Vec<MilStep> = Vec::new();
    let mut current: String = "x".to_owned();
    let mut i: usize = 0;
    proof {
        assert(step_views(steps@) =~= ops_added(keys.take(0), name@).steps);
    }
    while i < ops.len()
        invariant
            i <= ops@.len(),
            keys == order::views(ops@),
            (Draft { steps: step_views(steps@), current: current@, report: None }) == ops_added(
                keys.take(i as int),
                name@,
            ),
        decreases ops@.len() - i,
    {
        let op: &str = ops[i].as_str();
        let ghost before = step_views(steps@);
        proof {
            assert(keys.take(i + 1).drop_last() =~= keys.take(i as int));
            assert(keys.take(i + 1).last() == op@);
        }
        if projects(op) {
            let s: MilStep = MilStep::Matmul { input: current, weight: op.to_owned() };
            steps.push(s);
            assert(step_views(steps@) =~= before.push(s@));
            current = text::join2("matmul_", op);
        } else if text::same_text(op, "silu_mul") {
            current = text::join2("silu_mul_", op);
        } else if text::same_text(op, "mul") {
            let s: MilStep = MilStep::Mul { input: current };
            steps.push(s);
            assert(step_views(steps@) =~= before.push(s@));
            current = "elem_mul".to_owned();
        } else if text::same_text(op, "residual_add") {
            let s: MilStep = MilStep::AddResidual { input: current };
            steps.push(s);
            assert(step_views(steps@) =~= before.push(s@));
            current = "residual_add".to_owned();
        } else if text::same_text(op, "rms_norm") {
            current = text::join2("rms_norm_", op);
        } else if text::same_text(op, "rope") {
            current = text::join2("rope_", op);
        } else {
            let mut e: String = text::join3("unknown op type '", op, "' in subgraph '");
            e.append(name);
            e.append("'; cannot build MIL program");
            proof {
                lemma_report_stays(keys, i + 1, name@);
            }
            return Err(e);
        }
        i = i + 1;
    }
    assert(keys.take(keys.len() as int) =~= keys);
    let needs_norm: bool = emission::list_holds(ops, "rms_norm");
    Ok(MilPlan { needs_norm, steps, output: current })
}

/// The dimensions of the weight of a projection.
pub fn projection_shape(op: &str, hidden: i64, intermediate: i64) -> (r: Vec<i64>)
    ensures
        r@ == projection_dims(op@, hidden, intermediate),
{
    let mut r: Vec<i64> = Vec::new();
    if text::same_text(op, "gate_proj") || text::same_text(op, "up_proj") {
        r.push(hidden);
        r.push(intermediate);
    } else if text::same_text(op, "down_proj") {
        r.push(intermediate);
        r.push(hidden);
    } else {
        r.push(hidden);
        r.push(hidden);
    }
    assert(r@ =~= projection_dims(op@, hidden, intermediate));
    r
}

// ---------------------------------------------------------------------------
// Laws
// ---------------------------------------------------------------------------

/// Whether an output suits the neural engine: where its dimensions are known there are
/// four of them, the third is one, and rows of two-byte elements fill 64 bytes.
pub open spec fn suits_engine(o: MilOutput) -> bool {
    match o.tensor {
        Some(t) => t.dims@.len() == 0 || t.dims@.len() == 4 && t.dims@[2] == 1 && (t.dims@[3] * 2)
            % 64 == 0,
        None => true,
    }
}

proof fn lemma_output_sound(function: Seq<char>, kind: Seq<char>, o: MilOutput)
    ensures
        (output_complaints(function, kind, o).len() == 0) == suits_engine(o),
{
}

proof fn lemma_outputs_sound(function: Seq<char>, kind: Seq<char>, outputs: Seq<MilOutput>)
    ensures
        (outputs_complaints(function, kind, outputs).len() == 0) == forall|j: int|
            0 <= j < outputs.len() ==> suits_engine(#[trigger] outputs[j]),
    decreases outputs.len(),
{
    if outputs.len() > 0 {
        let rest = outputs.drop_last();
        let last = outputs.len() - 1;
        lemma_outputs_sound(function, kind, rest);
        lemma_output_sound(function, kind, outputs.last());
        if outputs_complaints(function, kind, outputs).len() == 0 {
            assert forall|j: int| 0 <= j < outputs.len() implies suits_engine(
                #[trigger] outputs[j],
            ) by {
                if j < last {
                    assert(rest[j] == outputs[j]);
                }
            }
        }
        if forall|j: int| 0 <= j < outputs.len() ==> suits_engine(#[trigger] outputs[j]) {
            assert forall|j: int| 0 <= j < rest.len() implies suits_engine(#[trigger] rest[j]) by {
                assert(rest[j] == outputs[j]);
            }
            assert(suits_engine(outputs[last]));
        }
    }
}

/// Whether an operation suits the neural engine: it is no matrix product of another kind,
/// and its outputs suit it.
pub open spec fn op_suits_engine(op: MilOperation) -> bool {
    &&& !is_word(op.kind@, "linear"@)
    &&& !is_word(op.kind@, "matmul"@)
    &&& forall|j: int| 0 <= j < op.outputs@.len() ==> suits_engine(#[trigger] op.outputs@[j])
}

proof fn lemma_ops_sound(function: Seq<char>, ops: Seq<MilOperation>)
    ensures
        (operations_complaints(function, ops).len() == 0) == forall|i: int|
            0 <= i < ops.len() ==> op_suits_engine(#[trigger] ops[i]),
    decreases ops.len(),
{
    if ops.len() > 0 {
        let rest = ops.drop_last();
        let last = ops.len() - 1;
        lemma_ops_sound(function, rest);
        lemma_outputs_sound(function, ops.last().kind@, ops.last().outputs@);
        assert((operation_complaints(function, ops.last()).len() == 0) == op_suits_engine(
            ops.last(),
        ));
        if operations_complaints(function, ops).len() == 0 {
            assert forall|i: int| 0 <= i < ops.len() implies op_suits_engine(#[trigger] ops[i]) by {
                if i < last {
                    assert(rest[i] == ops[i]);
                }
            }
        }
        if forall|i: int| 0 <= i < ops.len() ==> op_suits_engine(#[trigger] ops[i]) {
            assert forall|i: int| 0 <= i < rest.len() implies op_suits_engine(
                #[trigger] rest[i],
            ) by {
                assert(rest[i] == ops[i]);
            }
            assert(op_suits_engine(ops[last]));
        }
    }
}

/// Whether all operations of a function suit the neural engine.
pub open spec fn function_suits_engine(f: MilFunction) -> bool {
    f.operations matches Some(ops) ==> forall|i: int|
        0 <= i < ops@.len() ==> op_suits_engine(#[trigger] ops@[i])
}

proof fn lemma_functions_sound(functions: Seq<MilFunction>)
    ensures
        (functions_complaints(functions).len() == 0) == forall|f: int|
            0 <= f < functions.len() ==> function_suits_engine(#[trigger] functions[f]),
    decreases functions.len(),
{
    if functions.len() > 0 {
        let rest = functions.drop_last();
        let last = functions.len() - 1;
        lemma_functions_sound(rest);
        lemma_ops_sound(functions.last().name@, active_ops(functions.last()));
        assert((operations_complaints(
            functions.last().name@,
            active_ops(functions.last()),
        ).len() == 0) == function_suits_engine(functions.last()));
        if functions_complaints(functions).len() == 0 {
            assert forall|f: int| 0 <= f < functions.len() implies function_suits_engine(
                #[trigger] functions[f],
            ) by {
                if f < last {
                    assert(rest[f] == functions[f]);
                }
            }
        }
        if forall|f: int|
            0 <= f < functions.len() ==> function_suits_engine(#[trigger] functions[f]) {
            assert forall|f: int| 0 <= f < rest.len() implies function_suits_engine(
                #[trigger] rest[f],
            ) by {
                assert(rest[f] == functions[f]);
            }
            assert(function_suits_engine(functions[last]));
        }
    }
}

proof fn lemma_constants_sound(functions: Seq<MilFunction>, names: Seq<Seq<char>>)
    ensures
        (constants_complaints(functions, names).len() == 0) == forall|k: int|
            0 <= k < names.len() ==> is_widened(functions, #[trigger] names[k]),
    decreases names.len(),
{
    if names.len() > 0 {
        let rest = names.drop_last();
        let last = names.len() - 1;
        lemma_constants_sound(functions, rest);
        if constants_complaints(functions, names).len() == 0 {
            assert forall|k: int| 0 <= k < names.len() implies is_widened(
                functions,
                #[trigger] names[k],
            ) by {
                if k < last {
                    assert(rest[k] == names[k]);
                }
            }
        }
        if forall|k: int| 0 <= k < names.len() ==> is_widened(functions, #[trigger] names[k]) {
            assert forall|k: int| 0 <= k < rest.len() implies is_widened(
                functions,
                #[trigger] rest[k],
            ) by {
                assert(rest[k] == names[k]);
            }
            assert(is_widened(functions, names[last]));
        }
    }
}

/// A program is valid exactly where every operation of every function that has any suits
/// the neural engine, and each of its constants of bytes is cast and then scaled.
pub proof fn law_valid_program_suits_the_engine(program: &MilProgram, r: Result<(), String>)
    requires
        call_ensures(validate_ane_program, (program,), r),
    ensures
        r is Ok == ((forall|f: int|
            0 <= f < program.functions@.len() ==> function_suits_engine(
                #[trigger] program.functions@[f],
            )) && (forall|k: int|
            0 <= k < all_byte_constants(program.functions@).len() ==> is_widened(
                program.functions@,
                #[trigger] all_byte_constants(program.functions@)[k],
            ))),
{
    lemma_functions_sound(program.functions@);
    lemma_constants_sound(program.functions@, all_byte_constants(program.functions@));
}

/// A byte output of a constant operation is a constant of bytes.
pub proof fn law_byte_constants_are_listed(
    functions: Seq<MilFunction>,
    f: int,
    i: int,
    j: int,
)
    requires
        0 <= f < functions.len(),
        functions[f].operations is Some,
        0 <= i < functions[f].operations->0@.len(),
        is_word(functions[f].operations->0@[i].kind@, "const"@),
        0 <= j < functions[f].operations->0@[i].outputs@.len(),
        functions[f].operations->0@[i].outputs@[j].tensor is Some,
        functions[f].operations->0@[i].outputs@[j].tensor->0.is_byte,
    ensures
        all_byte_constants(functions).contains(
            functions[f].operations->0@[i].outputs@[j].name@,
        ),
    decreases functions.len(),
{
    let rest = functions.drop_last();
    let n = functions[f].operations->0@[i].outputs@[j].name@;
    let a = all_byte_constants(rest);
    let b = byte_constants(active_ops(functions.last()));
    if f < rest.len() {
        assert(rest[f] == functions[f]);
        law_byte_constants_are_listed(rest, f, i, j);
        let k = choose|k: int| 0 <= k < a.len() && a[k] == n;
        assert((a + b)[k] == n);
    } else {
        lemma_byte_constant(active_ops(functions.last()), i, j);
        let k = choose|k: int| 0 <= k < b.len() && b[k] == n;
        assert((a + b)[a.len() + k] == n);
    }
}

proof fn lemma_byte_constant(ops: Seq<MilOperation>, i: int, j: int)
    requires
        0 <= i < ops.len(),
        is_word(ops[i].kind@, "const"@),
        0 <= j < ops[i].outputs@.len(),
        ops[i].outputs@[j].tensor is Some,
        ops[i].outputs@[j].tensor->0.is_byte,
    ensures
        byte_constants(ops).contains(ops[i].outputs@[j].name@),
    decreases ops.len(),
{
    let rest = ops.drop_last();
    let n = ops[i].outputs@[j].name@;
    let a = byte_constants(rest);
    let b = byte_outputs(ops.last().outputs@);
    if i < rest.len() {
        assert(rest[i] == ops[i]);
        lemma_byte_constant(rest, i, j);
        let k = choose|k: int| 0 <= k < a.len() && a[k] == n;
        assert(byte_constants(ops)[k] == n);
    } else {
        lemma_byte_output(ops.last().outputs@, j);
        let k = choose|k: int| 0 <= k < b.len() && b[k] == n;
        assert((a + b)[a.len() + k] == n);
    }
}

proof fn lemma_byte_output(outputs: Seq<MilOutput>, j: int)
    requires
        0 <= j < outputs.len(),
        outputs[j].tensor is Some,
        outputs[j].tensor->0.is_byte,
    ensures
        byte_outputs(outputs).contains(outputs[j].name@),
    decreases outputs.len(),
{
    let rest = outputs.drop_last();
    let a = byte_outputs(rest);
    if j < rest.len() {
        assert(rest[j] == outputs[j]);
        lemma_byte_output(rest, j);
        let k = choose|k: int| 0 <= k < a.len() && a[k] == outputs[j].name@;
        assert(byte_outputs(outputs)[k] == outputs[j].name@);
    } else {
        assert(byte_outputs(outputs)[a.len() as int] == outputs[j].name@);
    }
}

/// One more operation at the end of a subgraph adds its step to the program of the
/// others, and takes their output: a projection multiplies it by the weight of its name,
/// `mul` squares it, `residual_add` adds the residual, and the others pass it on under
/// another name. An operation of no kind that is known is refused.
pub proof fn law_step_is_added_at_the_end(
    name: &str,
    ops: &Vec<String>,
    more: &Vec<String>,
    p: MilPlan,
    r: Result<MilPlan, String>,
    op: Seq<char>,
)
    requires
        call_ensures(build_mil_program, (name, ops), Ok::<MilPlan, String>(p)),
        call_ensures(build_mil_program, (name, more), r),
        order::views(more@) == order::views(ops@).push(op),
    ensures
        ({
            let projection = op == "gate_proj"@ || op == "up_proj"@ || op == "down_proj"@ || op
                == "q_proj"@ || op == "k_proj"@ || op == "v_proj"@ || op == "lm_head"@;
            let passed = op == "silu_mul"@ || op == "rms_norm"@ || op == "rope"@;
            let steps = step_views(p.steps@);
            &&& r is Ok == (projection || passed || op == "mul"@ || op == "residual_add"@)
            &&& projection ==> step_views(r->Ok_0.steps@) == steps.push(
                StepView::Matmul { input: p.output@, weight: op },
            ) && r->Ok_0.output@ == "matmul_"@ + op
            &&& op == "mul"@ ==> step_views(r->Ok_0.steps@) == steps.push(
                StepView::Mul { input: p.output@ },
            ) && r->Ok_0.output@ == "elem_mul"@
            &&& op == "residual_add"@ ==> step_views(r->Ok_0.steps@) == steps.push(
                StepView::AddResidual { input: p.output@ },
            ) && r->Ok_0.output@ == "residual_add"@
            &&& passed ==> step_views(r->Ok_0.steps@) == steps && r->Ok_0.output@ == op + "_"@ + op
            &&& r is Ok && p.needs_norm ==> r->Ok_0.needs_norm
            &&& r is Ok && op == "rms_norm"@ ==> r->Ok_0.needs_norm
        }),
{
    let a = order::views(ops@);
    let b = order::views(more@);
    assert(b.drop_last() =~= a);
    assert(b.last() == op);
    lemma_op_names_differ();
    if a.contains("rms_norm"@) {
        let i = choose|i: int| 0 <= i < a.len() && a[i] == "rms_norm"@;
        assert(b[i] == "rms_norm"@);
    }
    if op == "rms_norm"@ {
        assert(b[a.len() as int] == op);
    }
    assert("silu_mul_"@ + "silu_mul"@ =~= "silu_mul"@ + "_"@ + "silu_mul"@);
    assert("rms_norm_"@ + "rms_norm"@ =~= "rms_norm"@ + "_"@ + "rms_norm"@);
    assert("rope_"@ + "rope"@ =~= "rope"@ + "_"@ + "rope"@);
}

proof fn lemma_op_names_differ()
    ensures
        "silu_mul_"@ == "silu_mul"@ + "_"@,
        "rms_norm_"@ == "rms_norm"@ + "_"@,
        "rope_"@ == "rope"@ + "_"@,
        "gate_proj"@.len() == 9,
        "up_proj"@.len() == 7,
        "down_proj"@.len() == 9,
        "q_proj"@.len() == 6,
        "k_proj"@.len() == 6,
        "v_proj"@.len() == 6,
        "lm_head"@.len() == 7,
        "silu_mul"@.len() == 8,
        "mul"@.len() == 3,
        "residual_add"@.len() == 12,
        "rms_norm"@.len() == 8,
        "rope"@.len() == 4,
        "silu_mul"@ != "rms_norm"@,
{
    reveal_strlit("gate_proj");
    reveal_strlit("up_proj");
    reveal_strlit("down_proj");
    reveal_strlit("q_proj");
    reveal_strlit("k_proj");
    reveal_strlit("v_proj");
    reveal_strlit("lm_head");
    reveal_strlit("silu_mul");
    reveal_strlit("mul");
    reveal_strlit("residual_add");
    reveal_strlit("rms_norm");
    reveal_strlit("rope");
    reveal_strlit("silu_mul_");
    reveal_strlit("rms_norm_");
    reveal_strlit("rope_");
    reveal_strlit("_");
    assert("silu_mul"@[0] == 's' && "rms_norm"@[0] == 'r');
    assert("silu_mul_"@ =~= "silu_mul"@ + "_"@);
    assert("rms_norm_"@ =~= "rms_norm"@ + "_"@);
    assert("rope_"@ =~= "rope"@ + "_"@);
}

/// A projection into the feed-forward layer widens, the one out of it narrows, and any
/// other keeps the width.
pub proof fn law_projection_shape_goes_by_name(
    op: &str,
    hidden: i64,
    intermediate: i64,
    r: Vec<i64>,
)
    requires
        call_ensures(projection_shape, (op, hidden, intermediate), r),
    ensures
        op@ == "gate_proj"@ || op@ == "up_proj"@ ==> r@ == seq![hidden, intermediate],
        op@ == "down_proj"@ ==> r@ == seq![intermediate, hidden],
        op@ != "gate_proj"@ && op@ != "up_proj"@ && op@ != "down_proj"@ ==> r@ == seq![
            hidden,
            hidden,
        ],
{
    lemma_op_names_differ();
    reveal_strlit("gate_proj");
    reveal_strlit("down_proj");
    assert("gate_proj"@[0] == 'g' && "down_proj"@[0] == 'd');
}

} // verus!
