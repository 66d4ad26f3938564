//! GGUF files as compile sources: which tensors they provide under which names,
//! and what the shapes of the attention projections tell of the architecture.

use vstd::prelude::*;
use vstd::string::*;

use crate::config::{copy_dims, TextArchitecture};
use crate::order;
use crate::table;
use crate::table::NameTable;
use crate::text;

use super::source;
use super::source::{SourceTensor, SourceView};

verus! {

/// A tensor of a GGUF file, with the name it has in a checkpoint where one is
/// known.
#[derive(Debug)]
pub struct GgufTensor {
    pub name: String,
    pub checkpoint_name: Option<String>,
    pub dtype: String,
    pub shape: Vec<u32>,
    pub byte_offset: u64,
    pub byte_size: u64,
}

/// The first tensor whose name ends in the suffix.
pub open spec fn first_ending(tensors: Seq<GgufTensor>, suffix: Seq<char>) -> Option<GgufTensor>
    decreases tensors.len(),
{
    if tensors.len() == 0 {
        None
    } else if text::has_suffix(tensors[0].name@, suffix) {
        Some(tensors[0])
    } else {
        first_ending(tensors.drop_first(), suffix)
    }
}

/// The second dimension of the first tensor whose name ends in the suffix, where
/// that tensor has two dimensions.
pub open spec fn width_of(tensors: Seq<GgufTensor>, suffix: Seq<char>) -> Option<u32> {
    match first_ending(tensors, suffix) {
        Some(t) => if t.shape@.len() >= 2 {
            Some(t.shape@[1])
        } else {
            None
        },
        None => None,
    }
}

fn find_width(tensors: &Vec<GgufTensor>, suffix: &str) -> (r: Option<u32>)
    ensures
        r == width_of(tensors@, suffix@),
{
    let mut i: usize = 0;
    assert(tensors@.skip(0) =~= tensors@);
    while i < tensors.len()
        invariant
            i <= tensors@.len(),
            first_ending(tensors@, suffix@) == first_ending(tensors@.skip(i as int), suffix@),
        decreases tensors@.len() - i,
    {
        assert(tensors@.skip(i as int).drop_first() =~= tensors@.skip(i + 1));
        if text::ends_with(tensors[i].name.as_str(), suffix) {
            return if tensors[i].shape.len() >= 2 {
                Some(tensors[i].shape[1])
            } else {
                None
            };
        }
        i = i + 1;
    }
    None
}

/// The share of a width, where it is more than nothing; else what it was.
pub open spec fn share(width: Option<u32>, among: u32, current: u32) -> u32 {
    match width {
        Some(w) => if w / among > 0 {
            w / among
        } else {
            current
        },
        None => current,
    }
}

/// The head size that the query projection shows.
pub open spec fn shown_head_dim(tensors: Seq<GgufTensor>, arch: TextArchitecture) -> u32 {
    share(
        width_of(tensors, "attn_q.weight"@),
        if arch.num_attention_heads == 0 {
            1
        } else {
            arch.num_attention_heads
        },
        arch.head_dim,
    )
}

/// The number of key-value heads that the key projection shows.
pub open spec fn shown_kv_heads(tensors: Seq<GgufTensor>, arch: TextArchitecture) -> u32 {
    let head_dim = shown_head_dim(tensors, arch);
    if head_dim > 0 {
        share(width_of(tensors, "attn_k.weight"@), head_dim, arch.num_key_value_heads)
    } else {
        arch.num_key_value_heads
    }
}

/// Takes the head size and the number of key-value heads from the shapes of the
/// first query and key projections.
pub fn infer_attention_shape(arch: &mut TextArchitecture, tensors: &Vec<GgufTensor>)
    ensures
        *final(arch) == (TextArchitecture {
            head_dim: shown_head_dim(tensors@, *old(arch)),
            num_key_value_heads: shown_kv_heads(tensors@, *old(arch)),
            ..*old(arch)
        }),
{
    if let Some(width) = find_width(tensors, "attn_q.weight") {
        let heads: u32 = if arch.num_attention_heads == 0 {
            1
        } else {
            arch.num_attention_heads
        };
        let inferred: u32 = width / heads;
        if inferred > 0 {
            arch.head_dim = inferred;
        }
    }
    if let Some(width) = find_width(tensors, "attn_k.weight") {
        if arch.head_dim > 0 {
            let inferred: u32 = width / arch.head_dim;
            if inferred > 0 {
                arch.num_key_value_heads = inferred;
            }
        }
    }
}

/// The name under which a tensor is compiled.
pub open spec fn compiled_name(t: GgufTensor) -> Seq<char> {
    match t.checkpoint_name {
        Some(n) => n@,
        None => t.name@,
    }
}

/// The tensors of a GGUF file by the names under which they are compiled; of
/// two tensors with one name the first counts.
pub open spec fn gguf_tensors(
    tensors: Seq<GgufTensor>,
    filename: Seq<char>,
    sha256: Seq<char>,
) -> Map<Seq<char>, SourceView>
    decreases tensors.len(),
{
    if tensors.len() == 0 {
        Map::empty()
    } else {
        let rest = gguf_tensors(tensors.drop_last(), filename, sha256);
        let t = tensors.last();
        let n = compiled_name(t);
        if rest.dom().contains(n) {
            rest
        } else {
            rest.insert(
                n,
                SourceView {
                    name: n,
                    dtype: t.dtype@,
                    shape: t.shape@,
                    data: Seq::empty(),
                    source_filename: filename,
                    source_sha256: sha256,
                    source_offset: t.byte_offset,
                    source_byte_size: t.byte_size,
                },
            )
        }
    }
}

/// Lists the tensors of a GGUF file, with their data still to be read, and
/// their names in order.
pub fn gather_gguf_tensors(tensors: &Vec<GgufTensor>, filename: &str, sha256: &str) -> (r: (
    NameTable<SourceTensor>,
    Vec<String>,
))
    ensures
        r.0.wf(),
        source::source_views(r.0@) == gguf_tensors(tensors@, filename@, sha256@),
        table::lists_in_order(order::views(r.1@), r.0@.dom()),
{
    let mut t: NameTable<SourceTensor> = NameTable::new();
    let mut i: usize = 0;
    proof {
        assert(source::source_views(t@) =~= gguf_tensors(tensors@.take(0), filename@, sha256@));
    }
    while i < tensors.len()
        invariant
            i <= tensors@.len(),
            t.wf(),
            source::source_views(t@) == gguf_tensors(tensors@.take(i as int), filename@, sha256@),
        decreases tensors@.len() - i,
    {
        let g: &GgufTensor = &tensors[i];
        let name: String = match &g.checkpoint_name {
            Some(n) => n.clone(),
            None => g.name.clone(),
        };
        proof {
            assert(tensors@.take(i + 1).drop_last() =~= tensors@.take(i as int));
        }
        let ghost prior = t;
        if !t.contains(name.as_str()) {
            let tensor: SourceTensor = SourceTensor {
                name: name.clone(),
                dtype: g.dtype.clone(),
                shape: copy_dims(&g.shape),
                data: Vec::new(),
                source_filename: filename.to_owned(),
                source_sha256: sha256.to_owned(),
                source_offset: g.byte_offset,
                source_byte_size: g.byte_size,
            };
            t.insert(name.clone(), tensor);
            proof {
                assert(tensor@.data =~= Seq::<u8>::empty());
                assert(source::source_views(t@) =~= source::source_views(prior@).insert(
                    name@,
                    tensor@,
                ));
            }
        }
        assert(source::source_views(prior@).dom() =~= prior@.dom());
        i = i + 1;
    }
    assert(tensors@.take(tensors@.len() as int) =~= tensors@);
    let names: Vec<String> = table::sorted_names(&t);
    (t, names)
}

/// What a validation of a source against the expected tensors came to.
#[derive(Debug, Clone, Copy, PartialEq, Eq, Structural)]
pub struct Verdict {
    pub executable: bool,
    pub errors: u64,
    pub total_expected: u64,
}

/// The report of a failed validation.
pub open spec fn verdict_report(opening: Seq<char>, v: Verdict) -> Seq<char> {
    opening + text::decimal(v.errors as nat) + " errors across "@ + text::decimal(
        v.total_expected as nat,
    ) + " expected tensors"@
}

fn report_verdict(opening: &str, v: &Verdict) -> (r: String)
    ensures
        r@ == verdict_report(opening@, *v),
{
    let mut r: String = opening.to_owned();
    text::push_decimal(&mut r, v.errors);
    r.append(" errors across ");
    text::push_decimal(&mut r, v.total_expected);
    r.append(" expected tensors");
    r
}

/// Refuses a checkpoint that failed validation, unless validation is skipped.
pub fn check_checkpoint(skip_validation: bool, v: &Verdict) -> (r: Result<(), String>)
    ensures
        match r {
            Ok(_) => skip_validation || v.executable,
            Err(e) => !skip_validation && !v.executable && e@ == verdict_report(
                "source checkpoint failed validation: "@,
                *v,
            ),
        },
{
    if !skip_validation && !v.executable {
        Err(report_verdict("source checkpoint failed validation: ", v))
    } else {
        Ok(())
    }
}

/// Refuses a GGUF file that failed validation, unless validation is skipped.
pub fn check_gguf(skip_validation: bool, v: &Verdict) -> (r: Result<(), String>)
    ensures
        match r {
            Ok(_) => skip_validation || v.executable,
            Err(e) => !skip_validation && !v.executable && e@ == verdict_report(
                "GGUF source failed validation: "@,
                *v,
            ),
        },
{
    if !skip_validation && !v.executable {
        Err(report_verdict("GGUF source failed validation: ", v))
    } else {
        Ok(())
    }
}

/// The report that no model adapter fits.
pub open spec fn adapter_report(model_type: Seq<char>, detail: Seq<char>) -> Seq<char> {
    "unsupported model type '"@ + model_type + "': no model adapter matched.\n"@
        + "Supported families: qwen2, llama, mistral, gemma, phi\n"@ + "Detail: "@ + detail
        + "\nTip: if the model is supported but adapter selection failed,\n"@
        + "run with `--skip-validation` to bypass adapter checks."@
}

/// The report that no model adapter fits.
pub fn report_adapter(model_type: &str, detail: &str) -> (r: String)
    ensures
        r@ == adapter_report(model_type@, detail@),
{
    let mut r: String = "unsupported model type '".to_owned();
    r.append(model_type);
    r.append("': no model adapter matched.\n");
    r.append("Supported families: qwen2, llama, mistral, gemma, phi\n");
    r.append("Detail: ");
    r.append(detail);
    r.append("\nTip: if the model is supported but adapter selection failed,\n");
    r.append("run with `--skip-validation` to bypass adapter checks.");
    r
}

/// The report that a model cannot be brought into its family's form.
pub open spec fn normalisation_report(model_type: Seq<char>, detail: Seq<char>) -> Seq<char> {
    "model normalisation failed for '"@ + model_type + "':\n"@ + detail
        + "\nThis usually means one of:\n"@
        + "1. The model checkpoint has a different architecture than expected\n"@
        + "2. The safetensors files are missing some required tensors\n"@
        + "3. The model family adapter needs to be updated for new variants"@
}

/// The report that a model cannot be brought into its family's form.
pub fn report_normalisation(model_type: &str, detail: &str) -> (r: String)
    ensures
        r@ == normalisation_report(model_type@, detail@),
{
    let mut r: String = "model normalisation failed for '".to_owned();
    r.append(model_type);
    r.append("':\n");
    r.append(detail);
    r.append("\nThis usually means one of:\n");
    r.append("1. The model checkpoint has a different architecture than expected\n");
    r.append("2. The safetensors files are missing some required tensors\n");
    r.append("3. The model family adapter needs to be updated for new variants");
    r
}

// ---------------------------------------------------------------------------
// Laws
// ---------------------------------------------------------------------------

proof fn lemma_first_ending(tensors: Seq<GgufTensor>, suffix: Seq<char>, i: int)
    requires
        0 <= i < tensors.len(),
        text::has_suffix(tensors[i].name@, suffix),
        forall|j: int|
            0 <= j < i ==> !text::has_suffix((#[trigger] tensors[j]).name@, suffix),
    ensures
        first_ending(tensors, suffix) == Some(tensors[i]),
    decreases tensors.len(),
{
    if i > 0 {
        assert(!text::has_suffix(tensors[0].name@, suffix));
        let rest = tensors.drop_first();
        assert(rest[i - 1] == tensors[i]);
        assert forall|j: int| 0 <= j < i - 1 implies !text::has_suffix(
            (#[trigger] rest[j]).name@,
            suffix,
        ) by {
            assert(rest[j] == tensors[j + 1]);
        }
        lemma_first_ending(rest, suffix, i - 1);
    }
}

/// The width of the first query projection, shared out among the heads, is the width of
/// a head; the width of the first key projection, divided by that, is the number of key
/// and value heads. Where that gives nothing, the architecture stays as it was.
pub proof fn law_attention_shape_is_that_of_the_tensors(
    tensors: Seq<GgufTensor>,
    arch: TextArchitecture,
    q: int,
    k: int,
)
    requires
        0 <= q < tensors.len(),
        0 <= k < tensors.len(),
        text::has_suffix(tensors[q].name@, "attn_q.weight"@),
        text::has_suffix(tensors[k].name@, "attn_k.weight"@),
        forall|j: int|
            0 <= j < q ==> !text::has_suffix((#[trigger] tensors[j]).name@, "attn_q.weight"@),
        forall|j: int|
            0 <= j < k ==> !text::has_suffix((#[trigger] tensors[j]).name@, "attn_k.weight"@),
        tensors[q].shape@.len() >= 2,
        tensors[k].shape@.len() >= 2,
        0 < arch.num_attention_heads,
    ensures
        ({
            let head = tensors[q].shape@[1] / arch.num_attention_heads;
            &&& head > 0 ==> shown_head_dim(tensors, arch) == head
            &&& head == 0 ==> shown_head_dim(tensors, arch) == arch.head_dim
            &&& head > 0 && tensors[k].shape@[1] / head > 0 ==> shown_kv_heads(tensors, arch)
                == tensors[k].shape@[1] / head
            &&& head > 0 && tensors[k].shape@[1] / head == 0 ==> shown_kv_heads(tensors, arch)
                == arch.num_key_value_heads
        }),
{
    lemma_first_ending(tensors, "attn_q.weight"@, q);
    lemma_first_ending(tensors, "attn_k.weight"@, k);
}

/// A source of a single file has each of its tensors under the name that the checkpoint
/// has for it, or its own; of two with one name the first counts. Where it stands in the
/// file is kept, and no data are read yet.
pub proof fn law_first_tensor_of_a_name_counts(
    tensors: Seq<GgufTensor>,
    filename: Seq<char>,
    sha256: Seq<char>,
    i: int,
)
    requires
        0 <= i < tensors.len(),
    ensures
        ({
            let r = gguf_tensors(tensors, filename, sha256);
            let t = tensors[i];
            let n = if t.checkpoint_name is Some {
                t.checkpoint_name->0@
            } else {
                t.name@
            };
            &&& r.dom().contains(n)
            &&& r[n].name == n
            &&& r[n].data.len() == 0
            &&& r[n].source_filename == filename
            &&& r[n].source_sha256 == sha256
            &&& (forall|j: int| 0 <= j < i ==> compiled_name(#[trigger] tensors[j]) != n) ==> {
                &&& r[n].dtype == t.dtype@
                &&& r[n].shape == t.shape@
                &&& r[n].source_offset == t.byte_offset
                &&& r[n].source_byte_size == t.byte_size
            }
        }),
    decreases tensors.len(),
{
    let rest = tensors.drop_last();
    let n = compiled_name(tensors[i]);
    if i < rest.len() {
        assert(rest[i] == tensors[i]);
        law_first_tensor_of_a_name_counts(rest, filename, sha256, i);
        if forall|j: int| 0 <= j < i ==> compiled_name(#[trigger] tensors[j]) != n {
            assert forall|j: int| 0 <= j < i implies compiled_name(#[trigger] rest[j]) != n by {
                assert(rest[j] == tensors[j]);
            }
        }
    } else {
        lemma_gguf_fields(rest, filename, sha256, n);
        if gguf_tensors(rest, filename, sha256).dom().contains(n) {
            let j = choose|j: int| 0 <= j < rest.len() && compiled_name(#[trigger] rest[j]) == n;
            assert(compiled_name(tensors[j]) == n);
        }
    }
}

proof fn lemma_gguf_fields(
    tensors: Seq<GgufTensor>,
    filename: Seq<char>,
    sha256: Seq<char>,
    n: Seq<char>,
)
    ensures
        ({
            let r = gguf_tensors(tensors, filename, sha256);
            r.dom().contains(n) ==> {
                &&& r[n].name == n
                &&& r[n].data.len() == 0
                &&& r[n].source_filename == filename
                &&& r[n].source_sha256 == sha256
                &&& exists|j: int|
                    0 <= j < tensors.len() && compiled_name(#[trigger] tensors[j]) == n
            }
        }),
    decreases tensors.len(),
{
    if tensors.len() > 0 {
        let rest = tensors.drop_last();
        lemma_gguf_fields(rest, filename, sha256, n);
        if gguf_tensors(rest, filename, sha256).dom().contains(n) {
            let j = choose|j: int| 0 <= j < rest.len() && compiled_name(#[trigger] rest[j]) == n;
            assert(tensors[j] == rest[j]);
        } else {
            assert(tensors[tensors.len() - 1] == tensors.last());
        }
    }
}

} // verus!
