//! Making a staged image public, and the names of the files around an image.

use vstd::prelude::*;
use vstd::string::*;

use crate::order;
use crate::text;

verus! {

/// What came of moving a staged image to its destination.
#[derive(Debug)]
pub enum MoveOutcome {
    Moved,
    /// The move failed; `marker` tells what came of leaving a marker of that.
    Failed { crosses_devices: bool, error: String, marker: Result<(), String> },
}

/// The text of the marker that a failed move leaves behind.
pub fn failure_marker(error: &str) -> (r: String)
    ensures
        r@ == "rename failed: "@ + error@,
{
    text::join2("rename failed: ", error)
}

/// What is reported of a failed move.
pub open spec fn move_report(
    staging: Seq<char>,
    destination: Seq<char>,
    crosses_devices: bool,
    error: Seq<char>,
    marker_error: Option<Seq<char>>,
) -> Seq<char> {
    match marker_error {
        Some(m) => "write .failed marker: "@ + m + " (original rename: "@ + error + ")"@,
        None => if crosses_devices {
            "rename crosses devices: "@ + error + ". Staging left in place with .failed marker."@
        } else {
            "rename "@ + staging + " -> "@ + destination + ": "@ + error
        },
    }
}

/// Whether a staged image has become public, from what came of moving it.
pub fn publish_image(staging: &str, destination: &str, outcome: &MoveOutcome) -> (r: Result<
    (),
    String,
>)
    ensures
        match *outcome {
            MoveOutcome::Moved => r is Ok,
            MoveOutcome::Failed { crosses_devices, error, marker } => r matches Err(e) && e@
                == move_report(
                staging@,
                destination@,
                crosses_devices,
                error@,
                match marker {
                    Ok(_) => None,
                    Err(m) => Some(m@),
                },
            ),
        },
{
    match outcome {
        MoveOutcome::Moved => Ok(()),
        MoveOutcome::Failed { crosses_devices, error, marker } => {
            let mut r: String = String::new();
            match marker {
                Err(m) => {
                    r.append("write .failed marker: ");
                    r.append(m.as_str());
                    r.append(" (original rename: ");
                    r.append(error.as_str());
                    r.append(")");
                },
                Ok(_) => {
                    if *crosses_devices {
                        r.append("rename crosses devices: ");
                        r.append(error.as_str());
                        r.append(". Staging left in place with .failed marker.");
                    } else {
                        r.append("rename ");
                        r.append(staging);
                        r.append(" -> ");
                        r.append(destination);
                        r.append(": ");
                        r.append(error.as_str());
                    }
                },
            }
            proof {
                let m = match marker {
                    Ok(_) => None,
                    Err(m) => Some(m@),
                };
                assert(r@ =~= move_report(staging@, destination@, *crosses_devices, error@, m));
            }
            Err(r)
        },
    }
}

/// The name of the archive of a compiled model.
pub fn archive_name(stem: &str) -> (r: String)
    ensures
        r@ == stem@ + ".ane.tar"@,
{
    text::join2(stem, ".ane.tar")
}

/// Whether a directory entry is a compiled model to be archived.
pub fn is_compiled_model(is_dir: bool, extension: &Option<String>) -> (r: bool)
    ensures
        r == (is_dir && match *extension {
            Some(e) => e@ == "mlmodelc"@,
            None => false,
        }),
{
    match extension {
        Some(e) => is_dir && text::same_text(e.as_str(), "mlmodelc"),
        None => false,
    }
}

/// The kernel templates that make up the inference library, in order.
pub fn inference_templates() -> (r: Vec<String>)
    ensures
        order::views(r@) == seq![
            "palettized_gemv.metal"@,
            "palettized_gemv_swiglu.metal"@,
            "palettized_gemm.metal"@,
            "fused_gate_up.metal"@,
            "ternary_gemv.metal"@,
            "ternary_gemm.metal"@,
            "q4_block_sym_gemv.metal"@,
            "kv_mixed.metal"@,
        ],
{
    let mut r: Vec<String> = Vec::new();
    r.push("palettized_gemv.metal".to_owned());
    r.push("palettized_gemv_swiglu.metal".to_owned());
    r.push("palettized_gemm.metal".to_owned());
    r.push("fused_gate_up.metal".to_owned());
    r.push("ternary_gemv.metal".to_owned());
    r.push("ternary_gemm.metal".to_owned());
    r.push("q4_block_sym_gemv.metal".to_owned());
    r.push("kv_mixed.metal".to_owned());
    assert(order::views(r@) =~= seq![
        "palettized_gemv.metal"@,
        "palettized_gemv_swiglu.metal"@,
        "palettized_gemm.metal"@,
        "fused_gate_up.metal"@,
        "ternary_gemv.metal"@,
        "ternary_gemm.metal"@,
        "q4_block_sym_gemv.metal"@,
        "kv_mixed.metal"@,
    ]);
    r
}

/// Texts one after the other, each with a line end behind it.
pub open spec fn joined_lines(parts: Seq<Seq<char>>) -> Seq<char>
    decreases parts.len(),
{
    if parts.len() == 0 {
        Seq::empty()
    } else {
        joined_lines(parts.drop_last()) + parts.last() + "\n"@
    }
}

/// One compilation unit from the sources of kernels.
pub fn join_sources(parts: &Vec<String>) -> (r: String)
    ensures
        r@ == joined_lines(order::views(parts@)),
{
    let ghost keys = order::views(parts@);
    let mut r: String = String::new();
    let mut i: usize = 0;
    assert(r@ =~= joined_lines(keys.take(0)));
    while i < parts.len()
        invariant
            i <= parts@.len(),
            keys == order::views(parts@),
            r@ == joined_lines(keys.take(i as int)),
        decreases parts@.len() - i,
    {
        assert(keys.take(i + 1).drop_last() =~= keys.take(i as int));
        assert(keys.take(i + 1).last() == parts@[i as int]@);
        r.append(parts[i].as_str());
        r.append("\n");
        i = i + 1;
    }
    assert(keys.take(keys.len() as int) =~= keys);
    r
}

/// How many bytes of a string a field of characters takes: those that leave room
/// for a zero behind them.
pub open spec fn taken(field: Seq<i8>, bytes: Seq<u8>) -> int {
    if bytes.len() < field.len() {
        bytes.len() as int
    } else {
        field.len() - 1
    }
}

/// What a fixed-size field of characters holds after a byte string has been
/// copied into it: the bytes that it takes, then a zero, then what it held. A
/// field without places stays as it is.
pub open spec fn filled_field(field: Seq<i8>, bytes: Seq<u8>) -> Seq<i8> {
    Seq::new(
        field.len(),
        |i: int|
            if i < taken(field, bytes) {
                as_signed(bytes[i])
            } else if i == taken(field, bytes) {
                0i8
            } else {
                field[i]
            },
    )
}

/// The signed value of a byte.
pub open spec fn as_signed(b: u8) -> i8 {
    (if b < 0x80 {
        b as int
    } else {
        b - 0x100
    }) as i8
}

/// Copies a byte string into a fixed-size field of characters, as far as it
/// fits with a zero behind it.
pub fn copy_cstr_to_array(arr: &mut Vec<i8>, bytes: &[u8])
    ensures
        final(arr)@ == filled_field(old(arr)@, bytes@),
{
    let ghost before = arr@;
    if arr.len() == 0 {
        assert(arr@ =~= filled_field(before, bytes@));
        return;
    }
    let count: usize = if bytes.len() < arr.len() {
        bytes.len()
    } else {
        arr.len() - 1
    };
    let mut i: usize = 0;
    while i < count
        invariant
            i <= count <= bytes@.len(),
            count < arr@.len(),
            arr@.len() == before.len(),
            forall|j: int| 0 <= j < i ==> #[trigger] arr@[j] == as_signed(bytes@[j]),
            forall|j: int| i <= j < before.len() ==> #[trigger] arr@[j] == before[j],
        decreases count - i,
    {
        let b: u8 = bytes[i];
        let v: i8 = if b < 0x80 {
            b as i8
        } else {
            (b as i16 - 0x100) as i8
        };
        arr.set(i, v);
        i = i + 1;
    }
    arr.set(count, 0);
    assert(arr@ =~= filled_field(before, bytes@));
}

// ---------------------------------------------------------------------------
// Laws
// ---------------------------------------------------------------------------

/// A field takes as many bytes as leave room for a terminator, which stands right behind
/// them; what lies behind the terminator stays. A byte above 127 becomes the negative
/// number with the same eight bits.
pub proof fn law_field_is_terminated(field: Seq<i8>, bytes: Seq<u8>, i: int)
    requires
        0 <= i < field.len(),
    ensures
        ({
            let r = filled_field(field, bytes);
            let n = if bytes.len() < field.len() {
                bytes.len() as int
            } else {
                field.len() - 1
            };
            &&& r.len() == field.len()
            &&& i < n ==> (r[i] as int - bytes[i] as int) % 256 == 0
            &&& r[n] == 0
            &&& i > n ==> r[i] == field[i]
        }),
{
}

/// Sources are joined in their order, each followed by the end of a line.
pub proof fn law_sources_are_joined_in_order(a: Seq<Seq<char>>, x: Seq<char>, b: Seq<Seq<char>>)
    ensures
        joined_lines(a + seq![x] + b) == joined_lines(a) + x + "\n"@ + joined_lines(b),
        joined_lines(Seq::empty()) == Seq::<char>::empty(),
    decreases b.len(),
{
    let all = a + seq![x] + b;
    if b.len() == 0 {
        assert(all.drop_last() =~= a);
        assert(all.last() == x);
        assert(joined_lines(b) =~= Seq::<char>::empty());
        assert(joined_lines(all) =~= joined_lines(a) + x + "\n"@ + joined_lines(b));
    } else {
        law_sources_are_joined_in_order(a, x, b.drop_last());
        assert(all.drop_last() =~= a + seq![x] + b.drop_last());
        assert(all.last() == b.last());
        assert(joined_lines(all) =~= joined_lines(a) + x + "\n"@ + joined_lines(b));
    }
}

} // verus!
