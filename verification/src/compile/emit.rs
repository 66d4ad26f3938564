//! Writing source tensors into an image, quantized weights together with their
//! scales and biases.

use vstd::prelude::*;
use vstd::string::*;

use crate::config::{copy_dims, BindingView, ModelManifest, PackedLinearShapes, PackedView, TensorBinding};
use crate::digest;
use crate::digest::sha256_bytes;
use crate::image;
use crate::image::{BuilderView, ImageBuilder, NewTensor, NewView};
use crate::manifest;
use crate::manifest::{
    Fingerprint, Manifest, ManifestView, QuantizationDesc, Segment, SegmentKind, ShardHash,
    SourceIdentity,
};
use crate::order;
use crate::table;
use crate::table::NameTable;
use crate::text;
use crate::wire;

use super::source;
use super::source::{SourceTensor, SourceView};

verus! {

// ---------------------------------------------------------------------------
// Tensors
// ---------------------------------------------------------------------------

/// What an emission comes to: the number of the tensor, or a report.
pub type Outcome = Result<u32, Seq<char>>;

/// A source tensor on its way into an image.
pub open spec fn outgoing(
    t: SourceView,
    name: Seq<char>,
    role: Seq<char>,
    layer: Option<u32>,
    logical_dtype: Seq<char>,
    logical_shape: Seq<u32>,
    quantization: Option<QuantizationDesc>,
) -> NewView {
    NewView {
        name,
        role,
        layer,
        source_filename: t.source_filename,
        source_sha256: t.source_sha256,
        source_offset: t.source_offset,
        logical_dtype,
        storage_dtype: t.dtype,
        logical_shape,
        storage_shape: t.shape,
        quantization,
    }
}

/// The image after emission of one tensor, and what the emission comes to.
pub open spec fn tensor_emitted(
    b: BuilderView,
    store: Map<Seq<char>, SourceView>,
    name: Seq<char>,
    role: Seq<char>,
    layer: Option<u32>,
    logical_dtype: Seq<char>,
    logical_shape: Seq<u32>,
    quantization: Option<QuantizationDesc>,
) -> (BuilderView, Outcome) {
    if store.dom().contains(name) {
        let t = store[name];
        (
            image::with_tensor(
                b,
                outgoing(t, name, role, layer, logical_dtype, logical_shape, quantization),
                t.data,
            ),
            Ok(b.next_id),
        )
    } else {
        (b, Err("missing tensor: "@ + name))
    }
}

/// Whether a result is what an emission comes to.
pub open spec fn agrees(r: Result<u32, String>, o: Outcome) -> bool {
    match (r, o) {
        (Ok(a), Ok(b)) => a == b,
        (Err(a), Err(b)) => a@ == b,
        _ => false,
    }
}

/// Emits one tensor.
pub fn emit_tensor(
    builder: &mut ImageBuilder,
    source_tensors: &NameTable<SourceTensor>,
    name: &str,
    role: &str,
    layer: Option<u32>,
    logical_dtype: &str,
    logical_shape: &Vec<u32>,
    quantization: Option<QuantizationDesc>,
) -> (r: Result<u32, String>)
    requires
        source_tensors.wf(),
        old(builder)@.segments.len() > 0,
        old(builder)@.next_id < u32::MAX,
    ensures
        ({
            let o = tensor_emitted(
                old(builder)@,
                source::source_views(source_tensors@),
                name@,
                role@,
                layer,
                logical_dtype@,
                logical_shape@,
                quantization,
            );
            final(builder)@ == o.0 && agrees(r, o.1)
        }),
{
    match source_tensors.get(name) {
        Some(tensor) => {
            let new: NewTensor = NewTensor {
                name: name.to_owned(),
                role: role.to_owned(),
                layer,
                source_filename: tensor.source_filename.clone(),
                source_sha256: tensor.source_sha256.clone(),
                source_offset: tensor.source_offset,
                logical_dtype: logical_dtype.to_owned(),
                storage_dtype: tensor.dtype.clone(),
                logical_shape: copy_dims(logical_shape),
                storage_shape: copy_dims(&tensor.shape),
                quantization,
            };
            Ok(builder.add_tensor(new, &tensor.data))
        },
        None => Err(text::join2("missing tensor: ", name)),
    }
}

/// The name of the tensor that goes with a weight.
pub open spec fn companion(weight: Seq<char>, suffix: Seq<char>) -> Seq<char> {
    text::without_suffix(weight, ".weight"@) + suffix
}

/// The name of the tensor that goes with a weight.
pub fn companion_name(weight: &str, suffix: &str) -> (r: String)
    ensures
        r@ == companion(weight@, suffix@),
{
    let mut r: String = text::trim_suffix(weight, ".weight");
    r.append(suffix);
    r
}

/// The image after emission of a quantized weight: its scales, its biases, then
/// the weight itself.
pub open spec fn quantized_emitted(
    b: BuilderView,
    store: Map<Seq<char>, SourceView>,
    weight: Seq<char>,
    role: Seq<char>,
    layer: Option<u32>,
    logical_shape: Seq<u32>,
    packed: PackedView,
    logical_dtype: Seq<char>,
) -> (BuilderView, Outcome) {
    let (b1, scales) = tensor_emitted(
        b,
        store,
        companion(weight, ".scales"@),
        role + "::scales"@,
        layer,
        "F32"@,
        packed.scales,
        None,
    );
    match scales {
        Err(e) => (b1, Err(e)),
        Ok(scales_id) => {
            let (b2, biases) = tensor_emitted(
                b1,
                store,
                companion(weight, ".biases"@),
                role + "::biases"@,
                layer,
                "F32"@,
                packed.biases,
                None,
            );
            match biases {
                Err(e) => (b2, Err(e)),
                Ok(biases_id) => tensor_emitted(
                    b2,
                    store,
                    weight,
                    role,
                    layer,
                    logical_dtype,
                    logical_shape,
                    Some(
                        QuantizationDesc {
                            bits: packed.bits,
                            group_size: packed.group_size,
                            groups: packed.groups,
                            scale_tensor_id: scales_id,
                            bias_tensor_id: biases_id,
                        },
                    ),
                ),
            }
        },
    }
}

/// Emits a quantized weight with its scales and biases.
pub fn emit_quantized_binding(
    builder: &mut ImageBuilder,
    source_tensors: &NameTable<SourceTensor>,
    weight_name: &str,
    role: &str,
    layer: Option<u32>,
    logical_shape: &Vec<u32>,
    packed: &PackedLinearShapes,
    logical_dtype: &str,
) -> (r: Result<u32, String>)
    requires
        source_tensors.wf(),
        old(builder)@.segments.len() > 0,
        old(builder)@.next_id + 3 <= u32::MAX,
    ensures
        ({
            let o = quantized_emitted(
                old(builder)@,
                source::source_views(source_tensors@),
                weight_name@,
                role@,
                layer,
                logical_shape@,
                packed@,
                logical_dtype@,
            );
            final(builder)@ == o.0 && agrees(r, o.1)
        }),
{
    let scales_name: String = companion_name(weight_name, ".scales");
    let biases_name: String = companion_name(weight_name, ".biases");
    let scales_role: String = text::join2(role, "::scales");
    let biases_role: String = text::join2(role, "::biases");
    let scales_id: u32 = match emit_tensor(
        builder,
        source_tensors,
        scales_name.as_str(),
        scales_role.as_str(),
        layer,
        "F32",
        &packed.scales,
        None,
    ) {
        Ok(id) => id,
        Err(e) => return Err(e),
    };
    let biases_id: u32 = match emit_tensor(
        builder,
        source_tensors,
        biases_name.as_str(),
        biases_role.as_str(),
        layer,
        "F32",
        &packed.biases,
        None,
    ) {
        Ok(id) => id,
        Err(e) => return Err(e),
    };
    emit_tensor(
        builder,
        source_tensors,
        weight_name,
        role,
        layer,
        logical_dtype,
        logical_shape,
        Some(
            QuantizationDesc {
                bits: packed.bits,
                group_size: packed.group_size,
                groups: packed.groups,
                scale_tensor_id: scales_id,
                bias_tensor_id: biases_id,
            },
        ),
    )
}

/// The image after emission of a binding: as a quantized weight where it has
/// packed shapes, as it stands where it has none.
pub open spec fn binding_emitted(
    b: BuilderView,
    store: Map<Seq<char>, SourceView>,
    binding: BindingView,
    layer: Option<u32>,
) -> (BuilderView, Outcome) {
    match binding.packed {
        Some(packed) => quantized_emitted(
            b,
            store,
            binding.name,
            binding.role,
            layer,
            binding.logical_shape,
            packed,
            "F32"@,
        ),
        None => tensor_emitted(
            b,
            store,
            binding.name,
            binding.role,
            layer,
            "F32"@,
            binding.logical_shape,
            None,
        ),
    }
}

/// Emits a binding.
pub fn emit_binding_set(
    builder: &mut ImageBuilder,
    source_tensors: &NameTable<SourceTensor>,
    binding: &TensorBinding,
    layer: Option<u32>,
) -> (r: Result<u32, String>)
    requires
        source_tensors.wf(),
        old(builder)@.segments.len() > 0,
        old(builder)@.next_id + 3 <= u32::MAX,
    ensures
        ({
            let o = binding_emitted(
                old(builder)@,
                source::source_views(source_tensors@),
                binding@,
                layer,
            );
            final(builder)@ == o.0 && agrees(r, o.1)
        }),
{
    match &binding.packed_shape {
        Some(packed) => emit_quantized_binding(
            builder,
            source_tensors,
            binding.name.as_str(),
            binding.role.as_str(),
            layer,
            &binding.logical_shape,
            packed,
            "F32",
        ),
        None => emit_tensor(
            builder,
            source_tensors,
            binding.name.as_str(),
            binding.role.as_str(),
            layer,
            "F32",
            &binding.logical_shape,
            None,
        ),
    }
}

// ---------------------------------------------------------------------------
// Source identity and fingerprints
// ---------------------------------------------------------------------------

/// Where an image comes from. What the configuration leaves open is 8-bit
/// affine quantization in groups of 64.
pub fn build_source_identity(
    manifest: &ModelManifest,
    shard_hashes: Vec<ShardHash>,
    tokenizer_hashes: Vec<ShardHash>,
    auxiliary_hashes: Vec<ShardHash>,
) -> (r: SourceIdentity)
    ensures
        r.config_hash@ == manifest.config_hash@,
        r.shard_hashes == shard_hashes,
        r.tokenizer_hashes == tokenizer_hashes,
        r.auxiliary_hashes == auxiliary_hashes,
        r.model_type@ == manifest.model_type@,
        r.quantization_bits == (match manifest.quantization_bits {
            Some(b) => b,
            None => 8,
        }),
        r.quantization_group_size == (match manifest.quantization_group_size {
            Some(g) => g,
            None => 64,
        }),
        r.quantization_mode@ == (match manifest.quantization_mode {
            Some(m) => m@,
            None => "affine"@,
        }),
{
    SourceIdentity {
        config_hash: manifest.config_hash.clone(),
        shard_hashes,
        tokenizer_hashes,
        auxiliary_hashes,
        model_type: manifest.model_type.clone(),
        quantization_bits: match manifest.quantization_bits {
            Some(b) => b,
            None => 8,
        },
        quantization_group_size: match manifest.quantization_group_size {
            Some(g) => g,
            None => 64,
        },
        quantization_mode: match &manifest.quantization_mode {
            Some(m) => m.clone(),
            None => "affine".to_owned(),
        },
    }
}

/// Whether a text is the hash of the image with that record: the SHA-256 of its
/// fingerprint, in a form that `serialize` gives it.
pub open spec fn is_manifest_hash<F: Fn(Fingerprint) -> Vec<u8>>(
    hash: Seq<char>,
    m: ManifestView,
    serialize: F,
) -> bool {
    exists|f: Fingerprint, bytes: Vec<u8>|
        f@ == manifest::fingerprint_of(m) && #[trigger] call_ensures(serialize, (f,), bytes) && hash
            == digest::sha256_hex(bytes@)
}

/// The hash of an image. Only what says what the image is goes into it, so that
/// compilations of the same inputs come to the same hash.
pub fn compute_manifest_hash<F: Fn(Fingerprint) -> Vec<u8>>(m: &Manifest, serialize: F) -> (r:
    String)
    requires
        forall|f: Fingerprint| #[trigger] call_requires(serialize, (f,)),
    ensures
        is_manifest_hash(r@, m@, serialize),
{
    let f: Fingerprint = manifest::fingerprint(m);
    let ghost g = f;
    let bytes: Vec<u8> = serialize(f);
    assert(call_ensures(serialize, (g,), bytes));
    sha256_bytes(bytes.as_slice())
}

/// A record with the hash of its image.
pub fn seal_manifest<F: Fn(Fingerprint) -> Vec<u8>>(m: Manifest, serialize: F) -> (r: Manifest)
    requires
        forall|f: Fingerprint| #[trigger] call_requires(serialize, (f,)),
    ensures
        r@ == (ManifestView { image_hash: r.image_hash@, ..m@ }),
        is_manifest_hash(r.image_hash@, r@, serialize),
{
    let mut r: Manifest = m;
    let image_hash: String = compute_manifest_hash(&r, serialize);
    r.image_hash = image_hash;
    proof {
        assert(r@ =~= (ManifestView { image_hash: r.image_hash@, ..m@ }));
        manifest::law_fingerprint_is_of_the_image(m@, r@);
    }
    r
}

/// Records that say the same of what the image is have the same hashes.
pub proof fn law_same_image_has_same_hash<F: Fn(Fingerprint) -> Vec<u8>>(
    hash: Seq<char>,
    a: ManifestView,
    b: ManifestView,
    serialize: F,
)
    requires
        manifest::same_image(a, b),
    ensures
        is_manifest_hash(hash, a, serialize) <==> is_manifest_hash(hash, b, serialize),
{
    manifest::law_fingerprint_is_of_the_image(a, b);
}

/// Whether a form gives fingerprints that say the same the same bytes, each time.
pub open spec fn is_steady<F: Fn(Fingerprint) -> Vec<u8>>(serialize: F) -> bool {
    forall|f: Fingerprint, g: Fingerprint, x: Vec<u8>, y: Vec<u8>|
        f@ == g@ && #[trigger] call_ensures(serialize, (f,), x) && #[trigger] call_ensures(
            serialize,
            (g,),
            y,
        ) ==> x@ == y@
}

/// In a form that gives the same bytes for the same, an image has one hash only:
/// whatever hashes are taken of records that say the same of what the image is,
/// they are equal.
pub proof fn law_image_has_one_hash<F: Fn(Fingerprint) -> Vec<u8>>(
    one: Seq<char>,
    other: Seq<char>,
    a: ManifestView,
    b: ManifestView,
    serialize: F,
)
    requires
        is_steady(serialize),
        manifest::same_image(a, b),
        is_manifest_hash(one, a, serialize),
        is_manifest_hash(other, b, serialize),
    ensures
        one == other,
{
    manifest::law_fingerprint_is_of_the_image(a, b);
    let (f, x) = choose|f: Fingerprint, x: Vec<u8>|
        f@ == manifest::fingerprint_of(a) && #[trigger] call_ensures(serialize, (f,), x) && one
            == digest::sha256_hex(x@);
    let (g, y) = choose|g: Fingerprint, y: Vec<u8>|
        g@ == manifest::fingerprint_of(b) && #[trigger] call_ensures(serialize, (g,), y) && other
            == digest::sha256_hex(y@);
    assert(f@ == g@);
}

/// Whether bytes are those of a segment, by their digest.
pub fn segment_matches(bytes: &[u8], s: &Segment) -> (r: bool)
    ensures
        r == (digest::sha256_hex(bytes@) == s.sha256@),
{
    text::same_text(sha256_bytes(bytes).as_str(), s.sha256.as_str())
}

// ---------------------------------------------------------------------------
// Encoder tensors
// ---------------------------------------------------------------------------

/// The image and the numbers of its tensors after emission of the named tensors
/// in the element types and shapes that they have in the source.
pub open spec fn encoder_emitted(
    b: BuilderView,
    ids: Map<Seq<char>, u32>,
    store: Map<Seq<char>, SourceView>,
    names: Seq<Seq<char>>,
    role: Seq<char>,
) -> (BuilderView, Map<Seq<char>, u32>)
    decreases names.len(),
{
    if names.len() == 0 {
        (b, ids)
    } else {
        let (b1, ids1) = encoder_emitted(b, ids, store, names.drop_last(), role);
        let n = names.last();
        let t = store[n];
        (
            image::with_tensor(b1, outgoing(t, n, role, None, t.dtype, t.shape, None), t.data),
            ids1.insert(n, b1.next_id),
        )
    }
}

proof fn lemma_encoder_steps(
    b: BuilderView,
    ids: Map<Seq<char>, u32>,
    store: Map<Seq<char>, SourceView>,
    names: Seq<Seq<char>>,
    role: Seq<char>,
)
    requires
        b.next_id + names.len() <= u32::MAX,
        b.segments.len() > 0,
    ensures
        encoder_emitted(b, ids, store, names, role).0.next_id == b.next_id + names.len(),
        encoder_emitted(b, ids, store, names, role).0.segments.len() == b.segments.len(),
    decreases names.len(),
{
    if names.len() > 0 {
        lemma_encoder_steps(b, ids, store, names.drop_last(), role);
    }
}

/// The names of those tensors that begin with one of two prefixes.
pub open spec fn prefixed(store: Map<Seq<char>, SourceView>, p: Seq<char>, q: Seq<char>) -> Set<
    Seq<char>,
> {
    Set::new(
        |n: Seq<char>|
            store.dom().contains(n) && (text::has_prefix(n, p) || text::has_prefix(n, q)),
    )
}

/// Whether a name of the table begins with the prefix.
pub open spec fn any_prefixed(ids: Map<Seq<char>, u32>, p: Seq<char>) -> bool {
    exists|n: Seq<char>| #[trigger] ids.dom().contains(n) && text::has_prefix(n, p)
}

fn has_prefixed(ids: &NameTable<u32>, p: &str) -> (r: bool)
    requires
        ids.wf(),
    ensures
        r == any_prefixed(ids@, p@),
{
    let mut i: usize = 0;
    while i < ids.names.len()
        invariant
            i <= ids.names@.len(),
            ids.wf(),
            forall|j: int| 0 <= j < i ==> !text::has_prefix((#[trigger] ids.names@[j])@, p@),
        decreases ids.names@.len() - i,
    {
        if text::starts_with(ids.names[i].as_str(), p) {
            proof {
                ids.lemma_at(i as int);
                assert(ids@.dom().contains(ids.names@[i as int]@));
            }
            return true;
        }
        i = i + 1;
    }
    proof {
        assert forall|n: Seq<char>| #[trigger] ids@.dom().contains(n) implies !text::has_prefix(
            n,
            p@,
        ) by {
            let k = table::position_of(ids.names@, n);
            assert(ids.names@[k]@ == n);
        }
    }
    false
}

/// Those names of a list that begin with one of two prefixes.
pub open spec fn keep_prefixed(names: Seq<Seq<char>>, p: Seq<char>, q: Seq<char>) -> Seq<Seq<char>>
    decreases names.len(),
{
    if names.len() == 0 {
        Seq::empty()
    } else {
        let rest = keep_prefixed(names.drop_last(), p, q);
        if text::has_prefix(names.last(), p) || text::has_prefix(names.last(), q) {
            rest.push(names.last())
        } else {
            rest
        }
    }
}

proof fn lemma_keep_prefixed(names: Seq<Seq<char>>, p: Seq<char>, q: Seq<char>)
    ensures
        keep_prefixed(names, p, q).len() <= names.len(),
        forall|n: Seq<char>| #[trigger]
            keep_prefixed(names, p, q).contains(n) <==> names.contains(n) && (text::has_prefix(n, p)
                || text::has_prefix(n, q)),
        (forall|a: int, b: int|
            0 <= a < b < names.len() ==> order::precedes(#[trigger] names[a], #[trigger] names[b]))
            ==> (forall|a: int, b: int|
            0 <= a < b < keep_prefixed(names, p, q).len() ==> order::precedes(
                #[trigger] keep_prefixed(names, p, q)[a],
                #[trigger] keep_prefixed(names, p, q)[b],
            )),
    decreases names.len(),
{
    if names.len() > 0 {
        let rest = names.drop_last();
        let kept = keep_prefixed(rest, p, q);
        let all = keep_prefixed(names, p, q);
        let last = names.last();
        lemma_keep_prefixed(rest, p, q);
        assert forall|n: Seq<char>| #[trigger] all.contains(n) <==> names.contains(n) && (
        text::has_prefix(n, p) || text::has_prefix(n, q)) by {
            assert(kept.contains(n) <==> rest.contains(n) && (text::has_prefix(n, p)
                || text::has_prefix(n, q)));
            assert(names =~= rest.push(last));
            lemma_push_contains(rest, last, n);
            lemma_push_contains(kept, last, n);
        }
        if forall|a: int, b: int|
            0 <= a < b < names.len() ==> order::precedes(#[trigger] names[a], #[trigger] names[b]) {
            assert forall|a: int, b: int| 0 <= a < b < rest.len() implies order::precedes(
                #[trigger] rest[a],
                #[trigger] rest[b],
            ) by {
                assert(rest[a] == names[a] && rest[b] == names[b]);
            }
            assert forall|a: int, b: int| 0 <= a < b < all.len() implies order::precedes(
                #[trigger] all[a],
                #[trigger] all[b],
            ) by {
                if b < kept.len() {
                    assert(all[a] == kept[a] && all[b] == kept[b]);
                } else {
                    assert(all[a] == kept[a]);
                    assert(kept.contains(kept[a]));
                    assert(rest.contains(kept[a]));
                    let j = choose|j: int| 0 <= j < rest.len() && rest[j] == kept[a];
                    assert(names[j] == kept[a]);
                    assert(names[names.len() - 1] == last);
                    assert(all[b] == last);
                }
            }
        }
    }
}

proof fn lemma_push_contains(s: Seq<Seq<char>>, x: Seq<char>, n: Seq<char>)
    ensures
        s.push(x).contains(n) <==> s.contains(n) || n == x,
{
    let t = s.push(x);
    if t.contains(n) {
        let i = choose|i: int| 0 <= i < t.len() && t[i] == n;
        if i < s.len() {
            assert(s[i] == n);
        }
    }
    if s.contains(n) {
        let i = choose|i: int| 0 <= i < s.len() && s[i] == n;
        assert(t[i] == n);
    }
    assert(t[s.len() as int] == x);
}

fn prefixed_names(store: &NameTable<SourceTensor>, p: &str, q: &str) -> (r: Vec<String>)
    requires
        store.wf(),
    ensures
        table::lists_in_order(
            order::views(r@),
            prefixed(source::source_views(store@), p@, q@),
        ),
        r@.len() <= store.names@.len(),
{
    let all: Vec<String> = table::sorted_names(store);
    let ghost keys = order::views(all@);
    let mut r: Vec<String> = Vec::new();
    let mut i: usize = 0;
    while i < all.len()
        invariant
            i <= all@.len(),
            keys == order::views(all@),
            order::views(r@) =~= keep_prefixed(keys.take(i as int), p@, q@),
        decreases all@.len() - i,
    {
        proof {
            assert(keys.take(i + 1).drop_last() =~= keys.take(i as int));
            assert(keys.take(i + 1).last() == all@[i as int]@);
        }
        if text::starts_with(all[i].as_str(), p) || text::starts_with(all[i].as_str(), q) {
            r.push(all[i].clone());
        }
        i = i + 1;
    }
    proof {
        assert(keys.take(keys.len() as int) =~= keys);
        lemma_keep_prefixed(keys, p@, q@);
        let names = order::views(r@);
        assert(names.len() == r@.len());
        let set = prefixed(source::source_views(store@), p@, q@);
        assert forall|n: Seq<char>| #[trigger] names.contains(n) <==> set.contains(n) by {
            assert(keys.contains(n) <==> store@.dom().contains(n));
        }
    }
    r
}

fn emit_encoder(
    builder: &mut ImageBuilder,
    source_tensors: &NameTable<SourceTensor>,
    emitted_ids: &mut NameTable<u32>,
    names: &Vec<String>,
    role: &str,
)
    requires
        source_tensors.wf(),
        old(emitted_ids).wf(),
        old(builder)@.segments.len() > 0,
        old(builder)@.next_id + names@.len() <= u32::MAX,
        forall|i: int|
            0 <= i < names@.len() ==> source_tensors@.dom().contains((#[trigger] names@[i])@),
    ensures
        final(emitted_ids).wf(),
        (final(builder)@, final(emitted_ids)@) == encoder_emitted(
            old(builder)@,
            old(emitted_ids)@,
            source::source_views(source_tensors@),
            order::views(names@),
            role@,
        ),
{
    let ghost b0 = builder@;
    let ghost ids0 = emitted_ids@;
    let ghost store = source::source_views(source_tensors@);
    let ghost keys = order::views(names@);
    let mut i: usize = 0;
    while i < names.len()
        invariant
            i <= names@.len(),
            source_tensors.wf(),
            emitted_ids.wf(),
            b0.segments.len() > 0,
            b0.next_id + names@.len() <= u32::MAX,
            store == source::source_views(source_tensors@),
            keys == order::views(names@),
            keys.len() == names@.len(),
            forall|i: int|
                0 <= i < names@.len() ==> source_tensors@.dom().contains((#[trigger] names@[i])@),
            (builder@, emitted_ids@) == encoder_emitted(b0, ids0, store, keys.take(i as int), role@),
        decreases names@.len() - i,
    {
        proof {
            lemma_encoder_steps(b0, ids0, store, keys.take(i as int), role@);
            assert(keys.take(i + 1).drop_last() =~= keys.take(i as int));
            assert(keys.take(i + 1).last() == names@[i as int]@);
            assert(source_tensors@.dom().contains(names@[i as int]@));
        }
        if let Some(tensor) = source_tensors.get(names[i].as_str()) {
            let emitted: Result<u32, String> = emit_tensor(
                builder,
                source_tensors,
                names[i].as_str(),
                role,
                None,
                tensor.dtype.as_str(),
                &tensor.shape,
                None,
            );
            if let Ok(id) = emitted {
                emitted_ids.insert(names[i].clone(), id);
            }
        }
        i = i + 1;
    }
    assert(keys.take(keys.len() as int) =~= keys);
}

/// The image after emission of an encoder: where the source has tensors of it
/// and none has been emitted, they go into a segment of their own, in order of
/// their names.
pub open spec fn encoder_compiled(
    b: BuilderView,
    ids: Map<Seq<char>, u32>,
    store: Map<Seq<char>, SourceView>,
    names: Seq<Seq<char>>,
    segment: Seq<char>,
    role: Seq<char>,
    emitted_prefix: Seq<char>,
) -> (BuilderView, Map<Seq<char>, u32>) {
    if names.len() == 0 || any_prefixed(ids, emitted_prefix) {
        (b, ids)
    } else {
        encoder_emitted(
            image::with_segment(b, segment, SegmentKind::Persistent),
            ids,
            store,
            names,
            role,
        )
    }
}

/// The names of the vision encoder's tensors, in order.
pub open spec fn vision_names(store: Map<Seq<char>, SourceView>) -> Seq<Seq<char>> {
    table::in_order(prefixed(store, "vision_encoder."@, "vision_encoder."@))
}

/// The names of the audio encoder's tensors, in order.
pub open spec fn audio_names(store: Map<Seq<char>, SourceView>) -> Seq<Seq<char>> {
    table::in_order(prefixed(store, "audio_encoder."@, "embed_audio."@))
}

/// The image after emission of the vision encoder.
pub open spec fn vision_compiled(
    b: BuilderView,
    ids: Map<Seq<char>, u32>,
    store: Map<Seq<char>, SourceView>,
) -> (BuilderView, Map<Seq<char>, u32>) {
    encoder_compiled(
        b,
        ids,
        store,
        vision_names(store),
        "vision_encoder"@,
        "VisionEncoder"@,
        "vision_encoder."@,
    )
}

/// The image after emission of the audio encoder.
pub open spec fn audio_compiled(
    b: BuilderView,
    ids: Map<Seq<char>, u32>,
    store: Map<Seq<char>, SourceView>,
) -> (BuilderView, Map<Seq<char>, u32>) {
    encoder_compiled(
        b,
        ids,
        store,
        audio_names(store),
        "audio_encoder"@,
        "AudioEncoder"@,
        "audio_encoder."@,
    )
}

/// The numbers that an encoder takes are one for each of its tensors.
pub proof fn lemma_encoder_room(
    b: BuilderView,
    ids: Map<Seq<char>, u32>,
    store: Map<Seq<char>, SourceView>,
    names: Seq<Seq<char>>,
    role: Seq<char>,
)
    requires
        b.next_id + names.len() <= u32::MAX,
    ensures
        encoder_emitted(b, ids, store, names, role).0.next_id == b.next_id + names.len(),
    decreases names.len(),
{
    if names.len() > 0 {
        lemma_encoder_room(b, ids, store, names.drop_last(), role);
    }
}

/// Emits the vision encoder into a segment of its own; whether it did.
pub fn compile_vision_encoder_tensors(
    builder: &mut ImageBuilder,
    source_tensors: &NameTable<SourceTensor>,
    emitted_ids: &mut NameTable<u32>,
) -> (began: bool)
    requires
        source_tensors.wf(),
        old(emitted_ids).wf(),
        old(builder)@.next_id + source_tensors.names@.len() <= u32::MAX,
    ensures
        final(emitted_ids).wf(),
        ({
            let store = source::source_views(source_tensors@);
            &&& (final(builder)@, final(emitted_ids)@) == vision_compiled(
                old(builder)@,
                old(emitted_ids)@,
                store,
            )
            &&& began == (vision_names(store).len() > 0 && !any_prefixed(
                old(emitted_ids)@,
                "vision_encoder."@,
            ))
        }),
        final(builder)@.next_id <= old(builder)@.next_id + source_tensors.names@.len(),
{
    let names: Vec<String> = prefixed_names(source_tensors, "vision_encoder.", "vision_encoder.");
    let ghost keys = order::views(names@);
    proof {
        table::lemma_in_order_unique(
            keys,
            vision_names(source::source_views(source_tensors@)),
            prefixed(source::source_views(source_tensors@), "vision_encoder."@, "vision_encoder."@),
        );
    }
    assert(keys.len() == names@.len());
    if names.len() == 0 || has_prefixed(emitted_ids, "vision_encoder.") {
        return false;
    }
    proof {
        lemma_listed_in_store(keys, names@, source_tensors@, "vision_encoder."@, "vision_encoder."@);
        lemma_encoder_room(
            image::with_segment(builder@, "vision_encoder"@, SegmentKind::Persistent),
            emitted_ids@,
            source::source_views(source_tensors@),
            keys,
            "VisionEncoder"@,
        );
    }
    builder.begin_segment("vision_encoder", SegmentKind::Persistent);
    emit_encoder(builder, source_tensors, emitted_ids, &names, "VisionEncoder");
    true
}

/// Emits the audio encoder into a segment of its own; whether it did.
pub fn compile_audio_encoder_tensors(
    builder: &mut ImageBuilder,
    source_tensors: &NameTable<SourceTensor>,
    emitted_ids: &mut NameTable<u32>,
) -> (began: bool)
    requires
        source_tensors.wf(),
        old(emitted_ids).wf(),
        old(builder)@.next_id + source_tensors.names@.len() <= u32::MAX,
    ensures
        final(emitted_ids).wf(),
        ({
            let store = source::source_views(source_tensors@);
            &&& (final(builder)@, final(emitted_ids)@) == audio_compiled(
                old(builder)@,
                old(emitted_ids)@,
                store,
            )
            &&& began == (audio_names(store).len() > 0 && !any_prefixed(
                old(emitted_ids)@,
                "audio_encoder."@,
            ))
        }),
        final(builder)@.next_id <= old(builder)@.next_id + source_tensors.names@.len(),
{
    let names: Vec<String> = prefixed_names(source_tensors, "audio_encoder.", "embed_audio.");
    let ghost keys = order::views(names@);
    proof {
        table::lemma_in_order_unique(
            keys,
            audio_names(source::source_views(source_tensors@)),
            prefixed(source::source_views(source_tensors@), "audio_encoder."@, "embed_audio."@),
        );
    }
    assert(keys.len() == names@.len());
    if names.len() == 0 || has_prefixed(emitted_ids, "audio_encoder.") {
        return false;
    }
    proof {
        lemma_listed_in_store(keys, names@, source_tensors@, "audio_encoder."@, "embed_audio."@);
        lemma_encoder_room(
            image::with_segment(builder@, "audio_encoder"@, SegmentKind::Persistent),
            emitted_ids@,
            source::source_views(source_tensors@),
            keys,
            "AudioEncoder"@,
        );
    }
    builder.begin_segment("audio_encoder", SegmentKind::Persistent);
    emit_encoder(builder, source_tensors, emitted_ids, &names, "AudioEncoder");
    true
}

proof fn lemma_listed_in_store(
    keys: Seq<Seq<char>>,
    names: Seq<String>,
    store: Map<Seq<char>, SourceTensor>,
    p: Seq<char>,
    q: Seq<char>,
)
    requires
        keys == order::views(names),
        table::lists_in_order(keys, prefixed(source::source_views(store), p, q)),
    ensures
        forall|i: int| 0 <= i < names.len() ==> store.dom().contains((#[trigger] names[i])@),
{
    assert forall|i: int| 0 <= i < names.len() implies store.dom().contains(
        (#[trigger] names[i])@,
    ) by {
        assert(keys[i] == names[i]@);
        assert(keys.contains(keys[i]));
        assert(source::source_views(store).dom().contains(keys[i]));
    }
}

// ---------------------------------------------------------------------------
// Typed arrays
// ---------------------------------------------------------------------------

/// The elements of a typed array. Floats are held as bit patterns.
#[derive(Debug)]
pub enum ArrayData {
    Bytes(Vec<u8>),
    Words(Vec<u32>),
    SignedBytes(Vec<i8>),
    SignedWords(Vec<i32>),
    Singles(Vec<u32>),
}

/// The words of a byte string, `width` bytes each, lowest byte first.
pub open spec fn words_of(bytes: Seq<u8>, width: nat) -> Seq<nat> {
    Seq::new(
        bytes.len() / width,
        |i: int| wire::le_value(bytes.subrange(i * width, i * width + width)),
    )
}

/// The two's complement value of a bit pattern of the given width.
pub open spec fn signed_value(bits: nat, half: int) -> int {
    if bits < half {
        bits as int
    } else {
        bits - 2 * half
    }
}

/// What the elements of a payload of the named type are.
pub open spec fn array_holds(a: ArrayData, bytes: Seq<u8>, dtype: Seq<char>) -> bool {
    if dtype == "U8"@ || dtype == "Uint8"@ {
        a matches ArrayData::Bytes(v) && v@ == bytes
    } else if dtype == "U32"@ || dtype == "Uint32"@ {
        a matches ArrayData::Words(v) && v@.map_values(|w: u32| w as nat) == words_of(bytes, 4)
    } else if dtype == "I8"@ || dtype == "Int8"@ {
        a matches ArrayData::SignedBytes(v) && v@.map_values(|w: i8| w as int)
            == bytes.map_values(|b: u8| signed_value(b as nat, 0x80))
    } else if dtype == "I32"@ || dtype == "Int32"@ {
        a matches ArrayData::SignedWords(v) && v@.map_values(|w: i32| w as int) == words_of(
            bytes,
            4,
        ).map_values(|b: nat| signed_value(b, 0x8000_0000))
    } else if dtype == "F32"@ || dtype == "Float32"@ {
        a matches ArrayData::Singles(v) && v@.map_values(|w: u32| w as nat) == words_of(bytes, 4)
    } else {
        a matches ArrayData::Singles(v) && v@.map_values(|w: u32| w as nat) == words_of(
            bytes,
            2,
        ).map_values(|b: nat| b * 0x1_0000)
    }
}

/// The element size by which a payload must be divisible, and how the type is
/// called where it is not; `None` for a type that is not supported.
pub open spec fn array_grain(dtype: Seq<char>) -> Option<(nat, Seq<char>)> {
    if dtype == "U8"@ || dtype == "Uint8"@ {
        Some((1, "u8"@))
    } else if dtype == "U32"@ || dtype == "Uint32"@ {
        Some((4, "u32"@))
    } else if dtype == "I8"@ || dtype == "Int8"@ {
        Some((1, "i8"@))
    } else if dtype == "I32"@ || dtype == "Int32"@ {
        Some((4, "i32"@))
    } else if dtype == "F32"@ || dtype == "Float32"@ {
        Some((4, "f32"@))
    } else if dtype == "BF16"@ || dtype == "BFloat16"@ {
        Some((2, "bf16"@))
    } else {
        None
    }
}

/// The report that a payload is no whole number of elements.
pub open spec fn ragged_report(kind: Seq<char>, grain: nat, len: nat) -> Seq<char> {
    kind + " payload length is not a multiple of "@ + text::decimal(grain) + ": "@ + text::decimal(
        len,
    )
}

fn report_ragged(kind: &str, grain: u64, len: usize) -> (r: String)
    ensures
        r@ == ragged_report(kind@, grain as nat, len as nat),
{
    let mut r: String = text::join2(kind, " payload length is not a multiple of ");
    text::push_decimal(&mut r, grain);
    r.append(": ");
    text::push_decimal(&mut r, len as u64);
    r
}

fn read_words(bytes: &[u8]) -> (r: Vec<u32>)
    requires
        bytes.len() % 4 == 0,
    ensures
        r@.map_values(|w: u32| w as nat) == words_of(bytes@, 4),
{
    let mut r: Vec<u32> = Vec::new();
    let n: usize = bytes.len() / 4;
    let mut i: usize = 0;
    while i < n
        invariant
            i <= n,
            n == bytes.len() / 4,
            bytes.len() % 4 == 0,
            r@.len() == i,
            forall|j: int| 0 <= j < i ==> (#[trigger] r@[j]) as nat == words_of(bytes@, 4)[j],
        decreases n - i,
    {
        let w: u64 = wire::read_le(bytes, i * 4, 4);
        proof {
            wire::lemma_byte_ranges();
        }
        assert(w as nat == words_of(bytes@, 4)[i as int]);
        r.push(w as u32);
        i = i + 1;
    }
    assert(r@.map_values(|w: u32| w as nat) =~= words_of(bytes@, 4));
    r
}

fn read_wide_halves(bytes: &[u8]) -> (r: Vec<u32>)
    requires
        bytes.len() % 2 == 0,
    ensures
        r@.map_values(|w: u32| w as nat) == words_of(bytes@, 2).map_values(|b: nat| b * 0x1_0000),
{
    let mut r: Vec<u32> = Vec::new();
    let n: usize = bytes.len() / 2;
    let mut i: usize = 0;
    while i < n
        invariant
            i <= n,
            n == bytes.len() / 2,
            bytes.len() % 2 == 0,
            r@.len() == i,
            forall|j: int|
                0 <= j < i ==> (#[trigger] r@[j]) as nat == words_of(bytes@, 2)[j] * 0x1_0000,
        decreases n - i,
    {
        let w: u64 = wire::read_le(bytes, i * 2, 2);
        proof {
            wire::lemma_byte_ranges();
        }
        assert(w as nat == words_of(bytes@, 2)[i as int]);
        r.push((w * 0x1_0000) as u32);
        i = i + 1;
    }
    assert(r@.map_values(|w: u32| w as nat) =~= words_of(bytes@, 2).map_values(
        |b: nat| b * 0x1_0000,
    ));
    r
}

fn signed_byte(b: u8) -> (r: i8)
    ensures
        r == signed_value(b as nat, 0x80),
{
    if b < 0x80 {
        b as i8
    } else {
        (b as i16 - 0x100) as i8
    }
}

fn signed_word(w: u32) -> (r: i32)
    ensures
        r == signed_value(w as nat, 0x8000_0000),
{
    if w < 0x8000_0000 {
        w as i32
    } else {
        (w as i64 - 0x1_0000_0000) as i32
    }
}

fn read_signed_bytes(bytes: &[u8]) -> (r: Vec<i8>)
    ensures
        r@.map_values(|w: i8| w as int) == bytes@.map_values(
            |b: u8| signed_value(b as nat, 0x80),
        ),
{
    let mut r: Vec<i8> = Vec::new();
    let mut i: usize = 0;
    while i < bytes.len()
        invariant
            i <= bytes.len(),
            r@.len() == i,
            forall|j: int|
                0 <= j < i ==> (#[trigger] r@[j]) as int == signed_value(bytes@[j] as nat, 0x80),
        decreases bytes.len() - i,
    {
        r.push(signed_byte(bytes[i]));
        i = i + 1;
    }
    assert(r@.map_values(|w: i8| w as int) =~= bytes@.map_values(
        |b: u8| signed_value(b as nat, 0x80),
    ));
    r
}

fn read_signed_words(bytes: &[u8]) -> (r: Vec<i32>)
    requires
        bytes.len() % 4 == 0,
    ensures
        r@.map_values(|w: i32| w as int) == words_of(bytes@, 4).map_values(
            |b: nat| signed_value(b, 0x8000_0000),
        ),
{
    let words: Vec<u32> = read_words(bytes);
    let ghost plain = words@.map_values(|w: u32| w as nat);
    let mut r: Vec<i32> = Vec::new();
    let mut i: usize = 0;
    while i < words.len()
        invariant
            i <= words@.len(),
            plain == words@.map_values(|w: u32| w as nat),
            r@.len() == i,
            forall|j: int|
                0 <= j < i ==> (#[trigger] r@[j]) as int == signed_value(plain[j], 0x8000_0000),
        decreases words@.len() - i,
    {
        r.push(signed_word(words[i]));
        i = i + 1;
    }
    assert(r@.map_values(|w: i32| w as int) =~= words_of(bytes@, 4).map_values(
        |b: nat| signed_value(b, 0x8000_0000),
    ));
    r
}

fn copy_bytes(bytes: &[u8]) -> (r: Vec<u8>)
    ensures
        r@ == bytes@,
{
    let mut r: Vec<u8> = Vec::new();
    r.extend_from_slice(bytes);
    assert(r@ =~= bytes@);
    r
}

/// Decodes a payload of the named element type. Brain floats are widened to
/// single precision.
pub fn dtype_to_array(bytes: &[u8], dtype: &str) -> (r: Result<ArrayData, String>)
    ensures
        match array_grain(dtype@) {
            None => r matches Err(e) && e@ == "unsupported tensor storage dtype: "@ + dtype@,
            Some((grain, kind)) => if bytes@.len() % grain == 0 {
                r matches Ok(a) && array_holds(a, bytes@, dtype@)
            } else {
                r matches Err(e) && e@ == ragged_report(kind, grain, bytes@.len())
            },
        },
{
    if text::same_text(dtype, "U8") || text::same_text(dtype, "Uint8") {
        Ok(ArrayData::Bytes(copy_bytes(bytes)))
    } else if text::same_text(dtype, "U32") || text::same_text(dtype, "Uint32") {
        if bytes.len() % 4 != 0 {
            return Err(report_ragged("u32", 4, bytes.len()));
        }
        Ok(ArrayData::Words(read_words(bytes)))
    } else if text::same_text(dtype, "I8") || text::same_text(dtype, "Int8") {
        Ok(ArrayData::SignedBytes(read_signed_bytes(bytes)))
    } else if text::same_text(dtype, "I32") || text::same_text(dtype, "Int32") {
        if bytes.len() % 4 != 0 {
            return Err(report_ragged("i32", 4, bytes.len()));
        }
        Ok(ArrayData::SignedWords(read_signed_words(bytes)))
    } else if text::same_text(dtype, "F32") || text::same_text(dtype, "Float32") {
        if bytes.len() % 4 != 0 {
            return Err(report_ragged("f32", 4, bytes.len()));
        }
        Ok(ArrayData::Singles(read_words(bytes)))
    } else if text::same_text(dtype, "BF16") || text::same_text(dtype, "BFloat16") {
        if bytes.len() % 2 != 0 {
            return Err(report_ragged("bf16", 2, bytes.len()));
        }
        Ok(ArrayData::Singles(read_wide_halves(bytes)))
    } else {
        Err(text::join2("unsupported tensor storage dtype: ", dtype))
    }
}

/// Data become an array of the kind that the element type names, element by element, each
/// in its own bytes, lowest first; brain floats are widened by sixteen bits.
pub proof fn law_array_elements_stand_in_place(
    bytes: &[u8],
    dtype: &str,
    a: ArrayData,
    i: int,
)
    requires
        call_ensures(dtype_to_array, (bytes, dtype), Ok::<ArrayData, String>(a)),
        0 <= i,
    ensures
        dtype@ == "U8"@ || dtype@ == "Uint8"@ ==> (a matches ArrayData::Bytes(v)
            && v@ == bytes@),
        dtype@ == "I8"@ || dtype@ == "Int8"@ ==> match a {
            ArrayData::SignedBytes(v) => v@.len() == bytes@.len() && (i < v@.len() ==> v@[i]
                == bytes@[i] - (if bytes@[i] >= 0x80 {
                0x100int
            } else {
                0
            })),
            _ => false,
        },
        dtype@ == "U32"@ || dtype@ == "Uint32"@ ==> match a {
            ArrayData::Words(v) => v@.len() == bytes@.len() / 4 && (i < v@.len() ==> v@[i]
                == bytes@[4 * i] + 0x100 * bytes@[4 * i + 1] + 0x1_0000 * bytes@[4 * i + 2]
                + 0x100_0000 * bytes@[4 * i + 3]),
            _ => false,
        },
        dtype@ == "I32"@ || dtype@ == "Int32"@ ==> match a {
            ArrayData::SignedWords(v) => v@.len() == bytes@.len() / 4 && (i < v@.len() ==> v@[i]
                == bytes@[4 * i] + 0x100 * bytes@[4 * i + 1] + 0x1_0000 * bytes@[4 * i + 2]
                + 0x100_0000 * bytes@[4 * i + 3] - (if bytes@[4 * i + 3] >= 0x80 {
                0x1_0000_0000int
            } else {
                0
            })),
            _ => false,
        },
        dtype@ == "F32"@ || dtype@ == "Float32"@ ==> match a {
            ArrayData::Singles(v) => v@.len() == bytes@.len() / 4 && (i < v@.len() ==> v@[i]
                == bytes@[4 * i] + 0x100 * bytes@[4 * i + 1] + 0x1_0000 * bytes@[4 * i + 2]
                + 0x100_0000 * bytes@[4 * i + 3]),
            _ => false,
        },
        dtype@ == "BF16"@ || dtype@ == "BFloat16"@ ==> match a {
            ArrayData::Singles(v) => v@.len() == bytes@.len() / 2 && (i < v@.len() ==> v@[i]
                == 0x1_0000 * bytes@[2 * i] + 0x100_0000 * bytes@[2 * i + 1]),
            _ => false,
        },
{
    lemma_types_apart();
    let n = bytes@.len() as int;
    if 4 * i + 4 <= n {
        let s = bytes@.subrange(i * 4, i * 4 + 4);
        wire::law_four_bytes_make_a_word(s);
        assert(words_of(bytes@, 4)[i] == wire::le_value(s));
    }
    if 2 * i + 2 <= n {
        let s = bytes@.subrange(i * 2, i * 2 + 2);
        wire::law_two_bytes_make_a_half(s);
        assert(words_of(bytes@, 2)[i] == wire::le_value(s));
    }
    match a {
        ArrayData::SignedBytes(v) => {
            let m = v@.map_values(|w: i8| w as int);
            assert(m.len() == v@.len());
            if i < v@.len() {
                assert(m[i] == v@[i]);
            }
        },
        ArrayData::Words(v) => {
            let m = v@.map_values(|w: u32| w as nat);
            assert(m.len() == v@.len());
            if i < v@.len() {
                assert(m[i] == v@[i]);
            }
        },
        ArrayData::SignedWords(v) => {
            let m = v@.map_values(|w: i32| w as int);
            assert(m.len() == v@.len());
            if i < v@.len() {
                assert(m[i] == v@[i]);
            }
        },
        ArrayData::Singles(v) => {
            let m = v@.map_values(|w: u32| w as nat);
            assert(m.len() == v@.len());
            if i < v@.len() {
                assert(m[i] == v@[i]);
            }
        },
        ArrayData::Bytes(v) => {},
    }
}

proof fn lemma_types_apart()
    ensures
        "U8"@.len() == 2 && "U8"@[0] == 'U',
        "I8"@.len() == 2 && "I8"@[0] == 'I',
        "U32"@.len() == 3 && "U32"@[0] == 'U',
        "I32"@.len() == 3 && "I32"@[0] == 'I',
        "F32"@.len() == 3 && "F32"@[0] == 'F',
        "BF16"@.len() == 4,
        "Uint8"@.len() == 5,
        "Int8"@.len() == 4 && "Int8"@[0] == 'I',
        "BF16"@[0] == 'B',
        "Uint32"@.len() == 6,
        "Int32"@.len() == 5 && "Int32"@[0] == 'I',
        "Uint8"@[0] == 'U',
        "Float32"@.len() == 7,
        "BFloat16"@.len() == 8,
{
    reveal_strlit("U8");
    reveal_strlit("I8");
    reveal_strlit("U32");
    reveal_strlit("I32");
    reveal_strlit("F32");
    reveal_strlit("BF16");
    reveal_strlit("Uint8");
    reveal_strlit("Int8");
    reveal_strlit("Uint32");
    reveal_strlit("Int32");
    reveal_strlit("Float32");
    reveal_strlit("BFloat16");
}

} // verus!
