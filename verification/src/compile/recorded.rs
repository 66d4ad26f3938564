//! What an image records of the tensors that went into it: an entry for each, with
//! the layer that it belongs to, in the segment of that layer, over its own data.

use vstd::prelude::*;
use vstd::string::*;

use crate::config::{BindingView, ExecutionView, LayerView, NamespaceBinding};
use crate::image;
use crate::image::BuilderView;
use crate::manifest::{QuantizationDesc, SegmentKind};
use crate::table;
use crate::text;

use super::emission;
use super::emission::{Emission, EmissionStyle};
use super::emit;
use super::source::SourceView;

verus! {

/// Whether an image goes on from another: it has its tensors first, in the segments
/// that it had, which begin with the data that they held.
pub open spec fn extends(a: BuilderView, b: BuilderView) -> bool {
    &&& a.tensors.len() <= b.tensors.len()
    &&& forall|i: int| 0 <= i < a.tensors.len() ==> #[trigger] b.tensors[i] == a.tensors[i]
    &&& a.segments.len() <= b.segments.len()
    &&& forall|k: int|
        0 <= k < a.segments.len() ==> {
            &&& (#[trigger] b.segments[k]).id == a.segments[k].id
            &&& b.segments[k].kind == a.segments[k].kind
            &&& a.segments[k].payload.is_prefix_of(b.segments[k].payload)
            &&& a.segments[k].tensor_ids.is_prefix_of(b.segments[k].tensor_ids)
        }
    &&& a.aliases.is_prefix_of(b.aliases)
}

/// Whether entry `i` of an image is that of a source tensor, in segment `k`: under the
/// name and role, of the layer and in the type and shape that are given, with the type
/// and shape of the source tensor, with where it came from, and with its data at the place
/// that the entry gives.
pub open spec fn is_recorded(
    b: BuilderView,
    i: int,
    k: int,
    name: Seq<char>,
    role: Seq<char>,
    layer: Option<u32>,
    dtype: Seq<char>,
    shape: Seq<u32>,
    store: Map<Seq<char>, SourceView>,
) -> bool {
    &&& 0 <= i < b.tensors.len()
    &&& 0 <= k < b.segments.len()
    &&& store.dom().contains(name)
    &&& b.tensors[i].name == name
    &&& b.tensors[i].role == role
    &&& b.tensors[i].layer == layer
    &&& b.tensors[i].logical_dtype == dtype
    &&& b.tensors[i].logical_shape == shape
    &&& b.tensors[i].storage_dtype == store[name].dtype
    &&& b.tensors[i].storage_shape == store[name].shape
    &&& b.tensors[i].source_filename == store[name].source_filename
    &&& b.tensors[i].source_sha256 == store[name].source_sha256
    &&& b.tensors[i].source_offset == store[name].source_offset
    &&& b.tensors[i].segment == b.segments[k].id
    &&& b.segments[k].tensor_ids.contains(b.tensors[i].id)
    &&& exists|start: int| #[trigger]
        lies_at(b.segments[k].payload, start, store[name].data) && b.tensors[i].offset
            == start as u64 && b.tensors[i].byte_size == store[name].data.len() as u64
}

/// Whether data lie in a payload from `start` on.
pub open spec fn lies_at(payload: Seq<u8>, start: int, data: Seq<u8>) -> bool {
    &&& 0 <= start
    &&& start + data.len() <= payload.len()
    &&& payload.subrange(start, start + data.len()) == data
}

/// Whether entry `i` of an image is that of a binding, in segment `k`. The entry of a
/// quantized weight has the entries of its scales and biases just before it, and says
/// how the weight is packed and which numbers those two have.
pub open spec fn is_binding_recorded(
    b: BuilderView,
    i: int,
    k: int,
    x: BindingView,
    layer: Option<u32>,
    store: Map<Seq<char>, SourceView>,
) -> bool {
    &&& is_recorded(b, i, k, x.name, x.role, layer, "F32"@, x.logical_shape, store)
    &&& match x.packed {
        None => b.tensors[i].quantization is None,
        Some(p) => {
            &&& b.tensors[i].quantization == Some(
                QuantizationDesc {
                    bits: p.bits,
                    group_size: p.group_size,
                    groups: p.groups,
                    scale_tensor_id: b.tensors[i - 2].id,
                    bias_tensor_id: b.tensors[i - 1].id,
                },
            )
            &&& is_recorded(
                b,
                i - 2,
                k,
                emit::companion(x.name, ".scales"@),
                x.role + "::scales"@,
                layer,
                "F32"@,
                p.scales,
                store,
            )
            &&& b.tensors[i - 2].quantization is None
            &&& is_recorded(
                b,
                i - 1,
                k,
                emit::companion(x.name, ".biases"@),
                x.role + "::biases"@,
                layer,
                "F32"@,
                p.biases,
                store,
            )
            &&& b.tensors[i - 1].quantization is None
        },
    }
}

/// The entries that the chosen bindings take: three for a quantized weight, one for
/// any other tensor.
pub open spec fn entries_taken(bindings: Seq<BindingView>, chosen: Option<Seq<Seq<char>>>) -> int {
    bindings.fold_left(
        0int,
        |n: int, x: BindingView|
            n + if !emission::is_chosen(chosen, x.name) {
                0int
            } else if x.packed is Some {
                3
            } else {
                1
            },
    )
}

pub proof fn lemma_extends_on(a: BuilderView, b: BuilderView, c: BuilderView)
    requires
        extends(a, b),
        extends(b, c),
    ensures
        extends(a, c),
{
    assert forall|i: int| 0 <= i < a.tensors.len() implies #[trigger] c.tensors[i]
        == a.tensors[i] by {
        assert(b.tensors[i] == a.tensors[i]);
    }
    assert forall|k: int| 0 <= k < a.segments.len() implies {
        &&& (#[trigger] c.segments[k]).id == a.segments[k].id
        &&& c.segments[k].kind == a.segments[k].kind
        &&& a.segments[k].payload.is_prefix_of(c.segments[k].payload)
        &&& a.segments[k].tensor_ids.is_prefix_of(c.segments[k].tensor_ids)
    } by {
        assert(b.segments[k].id == a.segments[k].id);
        lemma_prefix_on(a.segments[k].payload, b.segments[k].payload, c.segments[k].payload);
        lemma_prefix_on(
            a.segments[k].tensor_ids,
            b.segments[k].tensor_ids,
            c.segments[k].tensor_ids,
        );
    }
    lemma_prefix_on(a.aliases, b.aliases, c.aliases);
}

proof fn lemma_prefix_on<A>(a: Seq<A>, b: Seq<A>, c: Seq<A>)
    requires
        a.is_prefix_of(b),
        b.is_prefix_of(c),
    ensures
        a.is_prefix_of(c),
{
    assert(c.subrange(0, a.len() as int) =~= b.subrange(0, a.len() as int));
}

pub proof fn lemma_extends_itself(a: BuilderView)
    ensures
        extends(a, a),
{
    assert forall|k: int| 0 <= k < a.segments.len() implies {
        &&& (#[trigger] a.segments[k]).payload.is_prefix_of(a.segments[k].payload)
        &&& a.segments[k].tensor_ids.is_prefix_of(a.segments[k].tensor_ids)
    } by {
        lemma_prefix_itself(a.segments[k].payload);
        lemma_prefix_itself(a.segments[k].tensor_ids);
    }
    lemma_prefix_itself(a.aliases);
}

proof fn lemma_prefix_itself<A>(a: Seq<A>)
    ensures
        a.is_prefix_of(a),
{
    assert(a.subrange(0, a.len() as int) =~= a);
}

proof fn lemma_segment_extends(b: BuilderView, id: Seq<char>, kind: SegmentKind)
    ensures
        extends(b, image::with_segment(b, id, kind)),
{
    lemma_extends_itself(b);
    let r = image::with_segment(b, id, kind);
    assert forall|k: int| 0 <= k < b.segments.len() implies #[trigger] r.segments[k]
        == b.segments[k] by {}
}

proof fn lemma_alias_extends(b: BuilderView, name: Seq<char>, id: u32, reason: Seq<char>)
    ensures
        extends(b, image::with_alias(b, name, id, reason)),
{
    lemma_extends_itself(b);
    let r = image::with_alias(b, name, id, reason);
    assert(r.aliases.subrange(0, b.aliases.len() as int) =~= b.aliases);
}

/// A tensor that is emitted is recorded in the segment that was opened last.
proof fn lemma_tensor_recorded(
    b: BuilderView,
    store: Map<Seq<char>, SourceView>,
    name: Seq<char>,
    role: Seq<char>,
    layer: Option<u32>,
    dtype: Seq<char>,
    shape: Seq<u32>,
    quantization: Option<QuantizationDesc>,
)
    requires
        b.segments.len() > 0,
    ensures
        ({
            let (r, o) = emit::tensor_emitted(
                b,
                store,
                name,
                role,
                layer,
                dtype,
                shape,
                quantization,
            );
            let i = b.tensors.len() as int;
            &&& extends(b, r)
            &&& r.segments.len() == b.segments.len()
            &&& o matches Ok(id) ==> {
                &&& r.tensors.len() == i + 1
                &&& is_recorded(r, i, b.segments.len() - 1, name, role, layer, dtype, shape, store)
                &&& r.tensors[i].quantization == quantization
                &&& r.tensors[i].id == id
            }
        }),
{
    lemma_extends_itself(b);
    if store.dom().contains(name) {
        let t = store[name];
        let new = emit::outgoing(t, name, role, layer, dtype, shape, quantization);
        let r = image::with_tensor(b, new, t.data);
        let k = b.segments.len() - 1;
        let start = b.segments[k].payload.len() as int;
        assert(r.segments[k].payload.subrange(0, start) =~= b.segments[k].payload);
        assert(r.segments[k].tensor_ids.subrange(0, b.segments[k].tensor_ids.len() as int)
            =~= b.segments[k].tensor_ids);
        assert(r.segments[k].tensor_ids[b.segments[k].tensor_ids.len() as int] == b.next_id);
        assert(r.segments[k].payload.subrange(start, start + t.data.len()) =~= t.data);
        assert(lies_at(r.segments[k].payload, start, t.data));
        assert forall|l: int| 0 <= l < k implies #[trigger] r.segments[l] == b.segments[l] by {}
        assert forall|l: int| 0 <= l < b.segments.len() implies {
            &&& (#[trigger] r.segments[l]).id == b.segments[l].id
            &&& r.segments[l].kind == b.segments[l].kind
            &&& b.segments[l].payload.is_prefix_of(r.segments[l].payload)
            &&& b.segments[l].tensor_ids.is_prefix_of(r.segments[l].tensor_ids)
        } by {
            lemma_prefix_itself(b.segments[l].payload);
            lemma_prefix_itself(b.segments[l].tensor_ids);
        }
        lemma_prefix_itself(b.aliases);
    }
}

/// What is recorded stays recorded as an image goes on.
proof fn lemma_stays_recorded(
    a: BuilderView,
    b: BuilderView,
    i: int,
    k: int,
    name: Seq<char>,
    role: Seq<char>,
    layer: Option<u32>,
    dtype: Seq<char>,
    shape: Seq<u32>,
    store: Map<Seq<char>, SourceView>,
)
    requires
        extends(a, b),
        is_recorded(a, i, k, name, role, layer, dtype, shape, store),
    ensures
        is_recorded(b, i, k, name, role, layer, dtype, shape, store),
        b.tensors[i] == a.tensors[i],
{
    assert(b.tensors[i] == a.tensors[i]);
    assert(b.segments[k].id == a.segments[k].id);
    let data = store[name].data;
    let start = choose|start: int| #[trigger]
        lies_at(a.segments[k].payload, start, data) && a.tensors[i].offset == start as u64
            && a.tensors[i].byte_size == data.len() as u64;
    let p = a.segments[k].payload;
    let q = b.segments[k].payload;
    assert(q.subrange(0, p.len() as int) == p);
    assert(q.subrange(start, start + data.len()) =~= p.subrange(start, start + data.len())) by {
        assert forall|j: int| start <= j < start + data.len() implies q[j] == p[j] by {
            assert(q.subrange(0, p.len() as int)[j] == q[j]);
        }
    }
    assert(lies_at(q, start, data));
    let ids = a.segments[k].tensor_ids;
    let more = b.segments[k].tensor_ids;
    let j = choose|j: int| 0 <= j < ids.len() && ids[j] == a.tensors[i].id;
    assert(more.subrange(0, ids.len() as int)[j] == more[j]);
}

proof fn lemma_binding_stays_recorded(
    a: BuilderView,
    b: BuilderView,
    i: int,
    k: int,
    x: BindingView,
    layer: Option<u32>,
    store: Map<Seq<char>, SourceView>,
)
    requires
        extends(a, b),
        is_binding_recorded(a, i, k, x, layer, store),
    ensures
        is_binding_recorded(b, i, k, x, layer, store),
{
    lemma_stays_recorded(a, b, i, k, x.name, x.role, layer, "F32"@, x.logical_shape, store);
    if let Some(p) = x.packed {
        lemma_stays_recorded(
            a,
            b,
            i - 2,
            k,
            emit::companion(x.name, ".scales"@),
            x.role + "::scales"@,
            layer,
            "F32"@,
            p.scales,
            store,
        );
        lemma_stays_recorded(
            a,
            b,
            i - 1,
            k,
            emit::companion(x.name, ".biases"@),
            x.role + "::biases"@,
            layer,
            "F32"@,
            p.biases,
            store,
        );
    }
}

/// A binding that is emitted is recorded in the segment that was opened last.
proof fn lemma_binding_recorded(
    b: BuilderView,
    store: Map<Seq<char>, SourceView>,
    x: BindingView,
    layer: Option<u32>,
)
    requires
        b.segments.len() > 0,
    ensures
        ({
            let (r, o) = emit::binding_emitted(b, store, x, layer);
            &&& extends(b, r)
            &&& r.segments.len() == b.segments.len()
            &&& o matches Ok(id) ==> {
                &&& r.tensors.len() == b.tensors.len() + (if x.packed is Some {
                    3int
                } else {
                    1
                })
                &&& is_binding_recorded(
                    r,
                    r.tensors.len() - 1,
                    b.segments.len() - 1,
                    x,
                    layer,
                    store,
                )
                &&& r.tensors[r.tensors.len() - 1].id == id
            }
        }),
{
    let k = b.segments.len() - 1;
    match x.packed {
        None => {
            lemma_tensor_recorded(b, store, x.name, x.role, layer, "F32"@, x.logical_shape, None);
        },
        Some(p) => {
            let sn = emit::companion(x.name, ".scales"@);
            let sr = x.role + "::scales"@;
            let bn = emit::companion(x.name, ".biases"@);
            let br = x.role + "::biases"@;
            lemma_tensor_recorded(b, store, sn, sr, layer, "F32"@, p.scales, None);
            let (b1, o1) = emit::tensor_emitted(
                b,
                store,
                sn,
                sr,
                layer,
                "F32"@,
                p.scales,
                None,
            );
            if let Ok(sid) = o1 {
                lemma_tensor_recorded(b1, store, bn, br, layer, "F32"@, p.biases, None);
                let (b2, o2) = emit::tensor_emitted(
                    b1,
                    store,
                    bn,
                    br,
                    layer,
                    "F32"@,
                    p.biases,
                    None,
                );
                lemma_extends_on(b, b1, b2);
                if let Ok(bid) = o2 {
                    let q = Some(
                        QuantizationDesc {
                            bits: p.bits,
                            group_size: p.group_size,
                            groups: p.groups,
                            scale_tensor_id: sid,
                            bias_tensor_id: bid,
                        },
                    );
                    lemma_tensor_recorded(b2, store, x.name, x.role, layer, "F32"@, x.logical_shape, q);
                    let (b3, o3) = emit::tensor_emitted(
                        b2,
                        store,
                        x.name,
                        x.role,
                        layer,
                        "F32"@,
                        x.logical_shape,
                        q,
                    );
                    lemma_extends_on(b, b2, b3);
                    lemma_extends_on(b1, b2, b3);
                    if o3 is Ok {
                        let i = b.tensors.len() as int;
                        lemma_stays_recorded(b1, b3, i, k, sn, sr, layer, "F32"@, p.scales, store);
                        lemma_stays_recorded(b2, b3, i + 1, k, bn, br, layer, "F32"@, p.biases, store);
                    }
                }
            }
        },
    }
}

/// Bindings that are emitted are recorded in the segment that was opened last.
pub proof fn law_bindings_are_recorded(
    s: Emission,
    store: Map<Seq<char>, SourceView>,
    bindings: Seq<BindingView>,
    layer: Option<u32>,
    chosen: Option<Seq<Seq<char>>>,
)
    requires
        s.image.segments.len() > 0,
    ensures
        ({
            let r = emission::bindings_emitted(s, store, bindings, layer, chosen);
            &&& extends(s.image, r.image)
            &&& r.image.segments.len() == s.image.segments.len()
            &&& r.report is None ==> {
                &&& s.report is None
                &&& r.image.tensors.len() == s.image.tensors.len() + entries_taken(bindings, chosen)
                &&& forall|j: int|
                    0 <= j < bindings.len() && emission::is_chosen(
                        chosen,
                        (#[trigger] bindings[j]).name,
                    ) ==> exists|i: int| #[trigger]
                        is_binding_recorded(
                            r.image,
                            i,
                            s.image.segments.len() - 1,
                            bindings[j],
                            layer,
                            store,
                        )
            }
            &&& r.image.aliases == s.image.aliases
        }),
    decreases bindings.len(),
{
    let r = emission::bindings_emitted(s, store, bindings, layer, chosen);
    if bindings.len() == 0 {
        lemma_extends_itself(s.image);
    } else {
        let rest = bindings.drop_last();
        let x = bindings.last();
        let t = emission::bindings_emitted(s, store, rest, layer, chosen);
        let k = s.image.segments.len() - 1;
        law_bindings_are_recorded(s, store, rest, layer, chosen);
        lemma_extends_itself(t.image);
        if t.report is None && emission::is_chosen(chosen, x.name) {
            lemma_binding_recorded(t.image, store, x, layer);
            lemma_extends_on(s.image, t.image, r.image);
        }
        if r.report is None {
            assert forall|j: int|
                0 <= j < bindings.len() && emission::is_chosen(
                    chosen,
                    (#[trigger] bindings[j]).name,
                ) implies exists|i: int| #[trigger]
                is_binding_recorded(r.image, i, k, bindings[j], layer, store) by {
                if j < rest.len() {
                    assert(rest[j] == bindings[j]);
                    let i = choose|i: int| #[trigger]
                        is_binding_recorded(t.image, i, k, rest[j], layer, store);
                    lemma_binding_stays_recorded(t.image, r.image, i, k, rest[j], layer, store);
                } else {
                    assert(is_binding_recorded(
                        r.image,
                        r.image.tensors.len() - 1,
                        k,
                        x,
                        layer,
                        store,
                    ));
                }
            }
        }
    }
}

/// Whether the tensors of a layer are recorded, in segment `k`: it is the segment of
/// the layer, and the entry of each chosen tensor gives the index of the layer.
pub open spec fn is_layer_recorded(
    b: BuilderView,
    k: int,
    l: LayerView,
    prefix: Seq<char>,
    store: Map<Seq<char>, SourceView>,
    chosen: Option<Seq<Seq<char>>>,
) -> bool {
    &&& 0 <= k < b.segments.len()
    &&& b.segments[k].kind == SegmentKind::Layer(l.index)
    &&& b.segments[k].id == prefix + text::decimal(l.index as nat)
    &&& forall|j: int|
        0 <= j < l.tensors.len() && emission::is_chosen(chosen, (#[trigger] l.tensors[j]).name)
            ==> exists|i: int| #[trigger]
            is_binding_recorded(b, i, k, l.tensors[j], Some(l.index), store)
}

pub proof fn lemma_layer_stays_recorded(
    a: BuilderView,
    b: BuilderView,
    k: int,
    l: LayerView,
    prefix: Seq<char>,
    store: Map<Seq<char>, SourceView>,
    chosen: Option<Seq<Seq<char>>>,
)
    requires
        extends(a, b),
        is_layer_recorded(a, k, l, prefix, store, chosen),
    ensures
        is_layer_recorded(b, k, l, prefix, store, chosen),
{
    assert(b.segments[k].id == a.segments[k].id);
    assert forall|j: int|
        0 <= j < l.tensors.len() && emission::is_chosen(
            chosen,
            (#[trigger] l.tensors[j]).name,
        ) implies exists|i: int| #[trigger]
        is_binding_recorded(b, i, k, l.tensors[j], Some(l.index), store) by {
        let i = choose|i: int| #[trigger]
            is_binding_recorded(a, i, k, l.tensors[j], Some(l.index), store);
        lemma_binding_stays_recorded(a, b, i, k, l.tensors[j], Some(l.index), store);
    }
}

/// Each layer goes into a segment of its own, of the kind and with the name of the
/// layer, behind the segments that were there; the entries of its tensors give the
/// index of the layer and point into that segment.
pub proof fn law_layers_are_recorded(
    s: Emission,
    store: Map<Seq<char>, SourceView>,
    layers: Seq<LayerView>,
    prefix: Seq<char>,
    chosen: Option<Seq<Seq<char>>>,
)
    ensures
        ({
            let r = emission::layers_emitted(s, store, layers, prefix, chosen);
            let n = s.image.segments.len();
            &&& extends(s.image, r.image)
            &&& r.image.aliases == s.image.aliases
            &&& r.report is None ==> {
                &&& s.report is None
                &&& r.image.segments.len() == n + layers.len()
                &&& forall|l: int|
                    0 <= l < layers.len() ==> is_layer_recorded(
                        r.image,
                        n + l,
                        #[trigger] layers[l],
                        prefix,
                        store,
                        chosen,
                    )
                &&& r.image.tensors.len() == s.image.tensors.len() + layers.fold_left(
                    0int,
                    |n: int, l: LayerView| n + entries_taken(l.tensors, chosen),
                )
            }
        }),
    decreases layers.len(),
{
    let r = emission::layers_emitted(s, store, layers, prefix, chosen);
    let n = s.image.segments.len();
    if layers.len() == 0 {
        lemma_extends_itself(s.image);
    } else {
        let rest = layers.drop_last();
        let l = layers.last();
        let t = emission::layers_emitted(s, store, rest, prefix, chosen);
        law_layers_are_recorded(s, store, rest, prefix, chosen);
        if t.report is None {
            let id = prefix + text::decimal(l.index as nat);
            let opened = emission::segment_opened(t, id, SegmentKind::Layer(l.index));
            lemma_segment_extends(t.image, id, SegmentKind::Layer(l.index));
            law_bindings_are_recorded(opened, store, l.tensors, Some(l.index), chosen);
            lemma_extends_on(t.image, opened.image, r.image);
            lemma_extends_on(s.image, t.image, r.image);
            if r.report is None {
                let k = t.image.segments.len() as int;
                assert(opened.image.segments[k].kind == SegmentKind::Layer(l.index));
                assert(r.image.segments[k].id == opened.image.segments[k].id);
                assert forall|m: int| 0 <= m < layers.len() implies is_layer_recorded(
                    r.image,
                    n + m,
                    #[trigger] layers[m],
                    prefix,
                    store,
                    chosen,
                ) by {
                    if m < rest.len() {
                        assert(rest[m] == layers[m]);
                        lemma_layer_stays_recorded(
                            t.image,
                            r.image,
                            n + m,
                            layers[m],
                            prefix,
                            store,
                            chosen,
                        );
                    }
                }
            }
        }
    }
}

/// Whether a model is recorded in an image, behind `n` segments that were there: its
/// tensors of no layer lie in a persistent segment, with no layer in their entries,
/// and then each layer has a segment of its own.
pub open spec fn is_model_recorded(
    b: BuilderView,
    n: int,
    e: ExecutionView,
    prefix: Seq<char>,
    store: Map<Seq<char>, SourceView>,
    chosen: Option<Seq<Seq<char>>>,
) -> bool {
    &&& n + 1 + e.layers.len() <= b.segments.len()
    &&& b.segments[n].kind == SegmentKind::Persistent
    &&& b.segments[n].id == "persistent"@
    &&& forall|j: int|
        0 <= j < e.global_tensors.len() && emission::is_chosen(
            chosen,
            (#[trigger] e.global_tensors[j]).name,
        ) ==> exists|i: int| #[trigger]
            is_binding_recorded(b, i, n, e.global_tensors[j], None, store)
    &&& forall|l: int|
        0 <= l < e.layers.len() ==> is_layer_recorded(
            b,
            n + 1 + l,
            #[trigger] e.layers[l],
            prefix,
            store,
            chosen,
        )
}

/// A model that is recorded stays recorded as an image goes on.
pub proof fn lemma_model_stays_recorded(
    a: BuilderView,
    b: BuilderView,
    n: int,
    e: ExecutionView,
    prefix: Seq<char>,
    store: Map<Seq<char>, SourceView>,
    chosen: Option<Seq<Seq<char>>>,
)
    requires
        0 <= n,
        extends(a, b),
        is_model_recorded(a, n, e, prefix, store, chosen),
    ensures
        is_model_recorded(b, n, e, prefix, store, chosen),
{
    assert(b.segments[n].id == a.segments[n].id);
    assert forall|j: int|
        0 <= j < e.global_tensors.len() && emission::is_chosen(
            chosen,
            (#[trigger] e.global_tensors[j]).name,
        ) implies exists|i: int| #[trigger]
        is_binding_recorded(b, i, n, e.global_tensors[j], None, store) by {
        let i = choose|i: int| #[trigger]
            is_binding_recorded(a, i, n, e.global_tensors[j], None, store);
        lemma_binding_stays_recorded(a, b, i, n, e.global_tensors[j], None, store);
    }
    assert forall|l: int| 0 <= l < e.layers.len() implies is_layer_recorded(
        b,
        n + 1 + l,
        #[trigger] e.layers[l],
        prefix,
        store,
        chosen,
    ) by {
        lemma_layer_stays_recorded(a, b, n + 1 + l, e.layers[l], prefix, store, chosen);
    }
}

/// A model that goes into an image without a report is recorded there whole: each
/// chosen tensor of no layer with no layer in its entry, and each chosen tensor of a
/// layer with the index of its layer, in the segment of its layer; besides these it
/// adds no entries and no segments.
pub proof fn law_model_is_recorded(
    s: Emission,
    store: Map<Seq<char>, SourceView>,
    e: ExecutionView,
    ns: NamespaceBinding,
    style: EmissionStyle,
    chosen: Option<Seq<Seq<char>>>,
)
    ensures
        ({
            let r = emission::model_emitted(s, store, e, ns, style, chosen);
            let prefix = if style == EmissionStyle::Alone {
                "layer_"@
            } else {
                "target_layer_"@
            };
            &&& extends(s.image, r.image)
            &&& r.report is None ==> {
                &&& is_model_recorded(
                    r.image,
                    s.image.segments.len() as int,
                    e,
                    prefix,
                    store,
                    chosen,
                )
                &&& r.image.segments.len() == s.image.segments.len() + 1 + e.layers.len()
                &&& r.image.tensors.len() == s.image.tensors.len() + entries_taken(
                    e.global_tensors,
                    chosen,
                ) + e.layers.fold_left(
                    0int,
                    |n: int, l: LayerView| n + entries_taken(l.tensors, chosen),
                )
            }
        }),
{
    let n = s.image.segments.len() as int;
    let r = emission::model_emitted(s, store, e, ns, style, chosen);
    let opened = emission::segment_opened(s, "persistent"@, SegmentKind::Persistent);
    lemma_segment_extends(s.image, "persistent"@, SegmentKind::Persistent);
    law_bindings_are_recorded(opened, store, e.global_tensors, None, chosen);
    let global = emission::bindings_emitted(opened, store, e.global_tensors, None, chosen);
    lemma_extends_on(s.image, opened.image, global.image);
    let (reason, strict, prefix) = if style == EmissionStyle::Alone {
        ("tie_word_embeddings=true"@, true, "layer_"@)
    } else {
        ("tie_word_embeddings"@, false, "target_layer_"@)
    };
    let head = emission::head_aliased(global, ns, reason, strict);
    let id = global.ids[emission::embedding_name(ns.root@)];
    lemma_alias_extends(global.image, "lm_head.weight"@, id, reason);
    lemma_extends_itself(global.image);
    assert(extends(global.image, head.image));
    lemma_extends_on(s.image, global.image, head.image);
    if head.report is None {
        law_layers_are_recorded(head, store, e.layers, prefix, chosen);
        assert(r == emission::layers_emitted(head, store, e.layers, prefix, chosen));
        lemma_extends_on(global.image, head.image, r.image);
        lemma_extends_on(s.image, head.image, r.image);
        if r.report is None {
            assert(global.report is None);
            assert(opened.image.segments[n].kind == SegmentKind::Persistent);
            assert(global.image.segments[n].id == opened.image.segments[n].id);
            assert(r.image.segments[n].id == global.image.segments[n].id);
            assert forall|j: int|
                0 <= j < e.global_tensors.len() && emission::is_chosen(
                    chosen,
                    (#[trigger] e.global_tensors[j]).name,
                ) implies exists|i: int| #[trigger]
                is_binding_recorded(r.image, i, n, e.global_tensors[j], None, store) by {
                let i = choose|i: int| #[trigger]
                    is_binding_recorded(global.image, i, n, e.global_tensors[j], None, store);
                lemma_binding_stays_recorded(
                    global.image,
                    r.image,
                    i,
                    n,
                    e.global_tensors[j],
                    None,
                    store,
                );
            }
        }
    }
}

/// The tensors that go with a weight have its name with another ending in place of
/// `.weight`.
pub proof fn law_companion_has_other_ending(
    weight: &str,
    suffix: &str,
    r: String,
    stem: Seq<char>,
)
    requires
        call_ensures(emit::companion_name, (weight, suffix), r),
        weight@ == stem + ".weight"@,
    ensures
        r@ == stem + suffix@,
{
    let w = weight@;
    assert(w.subrange(w.len() - ".weight"@.len(), w.len() as int) =~= ".weight"@);
    assert(w.subrange(0, w.len() - ".weight"@.len()) =~= stem);
}

// ---------------------------------------------------------------------------
// Numbers by name
// ---------------------------------------------------------------------------

/// Whether every name with a number is that of an entry with this number.
pub open spec fn is_indexed(s: Emission) -> bool {
    forall|n: Seq<char>| #[trigger]
        s.ids.dom().contains(n) ==> exists|i: int|
            0 <= i < s.image.tensors.len() && (#[trigger] s.image.tensors[i]).name == n
                && s.image.tensors[i].id == s.ids[n]
}

proof fn lemma_index_goes_on(s: Emission, t: Emission)
    requires
        is_indexed(s),
        extends(s.image, t.image),
        t.ids == s.ids,
    ensures
        is_indexed(t),
{
    assert forall|n: Seq<char>| #[trigger] t.ids.dom().contains(n) implies exists|i: int|
        0 <= i < t.image.tensors.len() && (#[trigger] t.image.tensors[i]).name == n
            && t.image.tensors[i].id == t.ids[n] by {
        let i = choose|i: int|
            0 <= i < s.image.tensors.len() && (#[trigger] s.image.tensors[i]).name == n
                && s.image.tensors[i].id == s.ids[n];
        assert(t.image.tensors[i] == s.image.tensors[i]);
    }
}

/// Every chosen binding that is emitted has a number, and a name with a number is that
/// of the entry with this number.
pub proof fn law_numbers_find_entries(
    s: Emission,
    store: Map<Seq<char>, SourceView>,
    bindings: Seq<BindingView>,
    layer: Option<u32>,
    chosen: Option<Seq<Seq<char>>>,
)
    requires
        is_indexed(s),
        s.image.segments.len() > 0,
    ensures
        ({
            let r = emission::bindings_emitted(s, store, bindings, layer, chosen);
            &&& is_indexed(r)
            &&& forall|n: Seq<char>| #[trigger]
                s.ids.dom().contains(n) ==> r.ids.dom().contains(n)
            &&& r.report is None ==> forall|j: int|
                0 <= j < bindings.len() && emission::is_chosen(
                    chosen,
                    (#[trigger] bindings[j]).name,
                ) ==> r.ids.dom().contains(bindings[j].name)
        }),
    decreases bindings.len(),
{
    if bindings.len() > 0 {
        let rest = bindings.drop_last();
        let x = bindings.last();
        let t = emission::bindings_emitted(s, store, rest, layer, chosen);
        let r = emission::bindings_emitted(s, store, bindings, layer, chosen);
        law_numbers_find_entries(s, store, rest, layer, chosen);
        law_bindings_are_recorded(s, store, rest, layer, chosen);
        if t.report is None && emission::is_chosen(chosen, x.name) {
            lemma_binding_recorded(t.image, store, x, layer);
            let middle = Emission { image: r.image, ids: t.ids, report: None };
            lemma_index_goes_on(t, middle);
            if r.report is None {
                assert forall|n: Seq<char>| #[trigger] r.ids.dom().contains(n) implies exists|
                    i: int,
                |
                    0 <= i < r.image.tensors.len() && (#[trigger] r.image.tensors[i]).name == n
                        && r.image.tensors[i].id == r.ids[n] by {
                    if n == x.name {
                        assert(r.image.tensors[r.image.tensors.len() - 1].name == n);
                    } else {
                        assert(middle.ids.dom().contains(n));
                    }
                }
            } else {
                lemma_index_goes_on(t, r);
            }
        }
        if r.report is None {
            assert forall|j: int|
                0 <= j < bindings.len() && emission::is_chosen(
                    chosen,
                    (#[trigger] bindings[j]).name,
                ) implies r.ids.dom().contains(bindings[j].name) by {
                if j < rest.len() {
                    assert(rest[j] == bindings[j]);
                }
            }
        }
    }
}

proof fn lemma_layers_indexed(
    s: Emission,
    store: Map<Seq<char>, SourceView>,
    layers: Seq<LayerView>,
    prefix: Seq<char>,
    chosen: Option<Seq<Seq<char>>>,
)
    requires
        is_indexed(s),
    ensures
        is_indexed(emission::layers_emitted(s, store, layers, prefix, chosen)),
    decreases layers.len(),
{
    if layers.len() > 0 {
        let t = emission::layers_emitted(s, store, layers.drop_last(), prefix, chosen);
        let l = layers.last();
        lemma_layers_indexed(s, store, layers.drop_last(), prefix, chosen);
        if t.report is None {
            let id = prefix + text::decimal(l.index as nat);
            let opened = emission::segment_opened(t, id, SegmentKind::Layer(l.index));
            lemma_segment_extends(t.image, id, SegmentKind::Layer(l.index));
            lemma_index_goes_on(t, opened);
            law_numbers_find_entries(opened, store, l.tensors, Some(l.index), chosen);
        }
    }
}

/// In a model with tied embeddings the output head is a further name of the tensor
/// that the embedding table has become; where there is no table, a model that stands
/// alone is refused. In a model without tied embeddings there is no such name.
pub proof fn law_tied_head_names_the_embedding(
    s: Emission,
    store: Map<Seq<char>, SourceView>,
    e: ExecutionView,
    ns: NamespaceBinding,
    chosen: Option<Seq<Seq<char>>>,
)
    requires
        is_indexed(s),
    ensures
        ({
            let r = emission::model_emitted(s, store, e, ns, EmissionStyle::Alone, chosen);
            let n = s.image.aliases.len() as int;
            r.report is None ==> {
                &&& is_indexed(r)
                &&& !ns.lm_head_aliased ==> r.image.aliases == s.image.aliases
                &&& ns.lm_head_aliased ==> {
                    &&& r.image.aliases.len() == n + 1
                    &&& r.image.aliases[n].name == "lm_head.weight"@
                    &&& r.image.aliases[n].reason == "tie_word_embeddings=true"@
                    &&& exists|i: int|
                        0 <= i < r.image.tensors.len() && (#[trigger] r.image.tensors[i]).name
                            == ns.root@ + ".embed_tokens.weight"@ && r.image.tensors[i].id
                            == r.image.aliases[n].tensor_id
                }
            }
        }),
{
    let r = emission::model_emitted(s, store, e, ns, EmissionStyle::Alone, chosen);
    let n = s.image.aliases.len() as int;
    let opened = emission::segment_opened(s, "persistent"@, SegmentKind::Persistent);
    lemma_segment_extends(s.image, "persistent"@, SegmentKind::Persistent);
    lemma_index_goes_on(s, opened);
    law_bindings_are_recorded(opened, store, e.global_tensors, None, chosen);
    law_numbers_find_entries(opened, store, e.global_tensors, None, chosen);
    let global = emission::bindings_emitted(opened, store, e.global_tensors, None, chosen);
    let head = emission::head_aliased(global, ns, "tie_word_embeddings=true"@, true);
    let table = emission::embedding_name(ns.root@);
    let id = global.ids[table];
    lemma_alias_extends(global.image, "lm_head.weight"@, id, "tie_word_embeddings=true"@);
    lemma_extends_itself(global.image);
    if r.report is None {
        assert(head.report is None);
        lemma_index_goes_on(global, head);
        lemma_layers_indexed(head, store, e.layers, "layer_"@, chosen);
        law_layers_are_recorded(head, store, e.layers, "layer_"@, chosen);
        if ns.lm_head_aliased {
            assert(global.ids.dom().contains(table));
            let i = choose|i: int|
                0 <= i < global.image.tensors.len() && (#[trigger] global.image.tensors[i]).name
                    == table && global.image.tensors[i].id == id;
            assert(head.image.tensors[i] == global.image.tensors[i]);
            assert(r.image.tensors[i] == head.image.tensors[i]);
            assert(r.image.aliases == head.image.aliases);
        }
    }
}

// ---------------------------------------------------------------------------
// Encoders
// ---------------------------------------------------------------------------

/// The tensors of an encoder that are emitted are recorded in the segment that was
/// opened last, as they stand in the source and without a layer.
pub proof fn law_encoder_is_recorded(
    b: BuilderView,
    ids: Map<Seq<char>, u32>,
    store: Map<Seq<char>, SourceView>,
    names: Seq<Seq<char>>,
    role: Seq<char>,
)
    requires
        b.segments.len() > 0,
        forall|j: int| 0 <= j < names.len() ==> store.dom().contains(#[trigger] names[j]),
    ensures
        ({
            let r = emit::encoder_emitted(b, ids, store, names, role).0;
            let n = b.tensors.len() as int;
            &&& extends(b, r)
            &&& r.segments.len() == b.segments.len()
            &&& r.tensors.len() == n + names.len()
            &&& forall|j: int|
                0 <= j < names.len() ==> is_recorded(
                    r,
                    n + j,
                    b.segments.len() - 1,
                    #[trigger] names[j],
                    role,
                    None,
                    store[names[j]].dtype,
                    store[names[j]].shape,
                    store,
                ) && r.tensors[n + j].quantization is None
        }),
    decreases names.len(),
{
    let r = emit::encoder_emitted(b, ids, store, names, role).0;
    if names.len() == 0 {
        lemma_extends_itself(b);
    } else {
        let rest = names.drop_last();
        let x = names.last();
        let n = b.tensors.len() as int;
        let k = b.segments.len() - 1;
        let t = emit::encoder_emitted(b, ids, store, rest, role).0;
        assert forall|j: int| 0 <= j < rest.len() implies store.dom().contains(
            #[trigger] rest[j],
        ) by {
            assert(rest[j] == names[j]);
        }
        law_encoder_is_recorded(b, ids, store, rest, role);
        assert(names[names.len() - 1] == x);
        lemma_tensor_recorded(t, store, x, role, None, store[x].dtype, store[x].shape, None);
        lemma_extends_on(b, t, r);
        assert forall|j: int| 0 <= j < names.len() implies is_recorded(
            r,
            n + j,
            k,
            #[trigger] names[j],
            role,
            None,
            store[names[j]].dtype,
            store[names[j]].shape,
            store,
        ) && r.tensors[n + j].quantization is None by {
            if j < rest.len() {
                assert(rest[j] == names[j]);
                lemma_stays_recorded(
                    t,
                    r,
                    n + j,
                    k,
                    names[j],
                    role,
                    None,
                    store[names[j]].dtype,
                    store[names[j]].shape,
                    store,
                );
            }
        }
    }
}

/// Whether a segment of an image holds a tensor as it stands in the source, without a
/// layer, in a persistent segment of that name.
pub open spec fn is_encoder_tensor(
    b: BuilderView,
    n: Seq<char>,
    segment: Seq<char>,
    role: Seq<char>,
    store: Map<Seq<char>, SourceView>,
) -> bool {
    exists|i: int, k: int| #[trigger]
        is_recorded(b, i, k, n, role, None, store[n].dtype, store[n].shape, store)
            && b.segments[k].kind == SegmentKind::Persistent && b.segments[k].id == segment
            && b.tensors[i].quantization is None
}

/// An encoder that is emitted goes into a persistent segment of its own, with all
/// tensors whose names begin as its names do.
pub proof fn law_encoder_goes_into_own_segment(
    b: BuilderView,
    ids: Map<Seq<char>, u32>,
    store: Map<Seq<char>, SourceView>,
    p: Seq<char>,
    q: Seq<char>,
    segment: Seq<char>,
    role: Seq<char>,
    emitted_prefix: Seq<char>,
)
    requires
        store.dom().finite(),
    ensures
        ({
            let names = table::in_order(emit::prefixed(store, p, q));
            let r = emit::encoder_compiled(
                b,
                ids,
                store,
                names,
                segment,
                role,
                emitted_prefix,
            ).0;
            let none = forall|n: Seq<char>| #[trigger]
                ids.dom().contains(n) ==> !text::has_prefix(n, emitted_prefix);
            &&& extends(b, r)
            &&& !none ==> r == b
            &&& none ==> forall|n: Seq<char>| #[trigger]
                store.dom().contains(n) && (text::has_prefix(n, p) || text::has_prefix(n, q))
                    ==> is_encoder_tensor(r, n, segment, role, store)
        }),
{
    let set = emit::prefixed(store, p, q);
    let names = table::in_order(set);
    assert(set.subset_of(store.dom()));
    vstd::set_lib::lemma_len_subset(set, store.dom());
    table::lemma_in_order_exists(set);
    assert(table::lists_in_order(names, set));
    assert forall|j: int| 0 <= j < names.len() implies store.dom().contains(#[trigger] names[j]) by {
        assert(names.contains(names[j]));
    }
    let opened = image::with_segment(b, segment, SegmentKind::Persistent);
    lemma_segment_extends(b, segment, SegmentKind::Persistent);
    lemma_extends_itself(b);
    law_encoder_is_recorded(opened, ids, store, names, role);
    let e = emit::encoder_emitted(opened, ids, store, names, role).0;
    lemma_extends_on(b, opened, e);
    let none = forall|n: Seq<char>| #[trigger]
        ids.dom().contains(n) ==> !text::has_prefix(n, emitted_prefix);
    let r = emit::encoder_compiled(b, ids, store, names, segment, role, emitted_prefix).0;
    if none {
        assert forall|n: Seq<char>| #[trigger]
            store.dom().contains(n) && (text::has_prefix(n, p) || text::has_prefix(
                n,
                q,
            )) implies is_encoder_tensor(r, n, segment, role, store) by {
            assert(set.contains(n));
            assert(names.contains(n));
            let j = choose|j: int| 0 <= j < names.len() && names[j] == n;
            let k = opened.segments.len() - 1;
            assert(opened.segments[k].id == segment);
            assert(e.segments[k].id == opened.segments[k].id);
            assert(is_recorded(
                e,
                opened.tensors.len() + j,
                k,
                names[j],
                role,
                None,
                store[n].dtype,
                store[n].shape,
                store,
            ));
        }
    }
}

/// Sharing the embeddings of a target adds names only.
pub proof fn lemma_sharing_extends(
    s: Emission,
    bindings: Seq<BindingView>,
    target_root: Seq<char>,
    draft_root: Seq<char>,
)
    ensures
        ({
            let r = emission::embeddings_shared(s, bindings, target_root, draft_root);
            extends(s.image, r.image) && r.image.segments == s.image.segments && r.image.tensors
                == s.image.tensors
        }),
    decreases bindings.len(),
{
    lemma_extends_itself(s.image);
    if bindings.len() > 0 {
        let rest = bindings.drop_last();
        let t = emission::embeddings_shared(s, rest, target_root, draft_root);
        let n = bindings.last().name;
        lemma_sharing_extends(s, rest, target_root, draft_root);
        let m = text::replaced(n, target_root, draft_root);
        lemma_alias_extends(t.image, m, t.ids[n], "shared_embedding_speculative"@);
        lemma_extends_itself(t.image);
        let r = emission::embeddings_shared(s, bindings, target_root, draft_root);
        lemma_extends_on(s.image, t.image, r.image);
    }
}

/// Sharing the output head of a target adds a name only.
pub proof fn lemma_head_sharing_extends(s: Emission, draft_root: Seq<char>)
    ensures
        ({
            let r = emission::head_shared(s, draft_root);
            extends(s.image, r.image) && r.image.segments == s.image.segments && r.image.tensors
                == s.image.tensors
        }),
{
    lemma_extends_itself(s.image);
    lemma_alias_extends(
        s.image,
        draft_root + ".lm_head.weight"@,
        s.ids["lm_head.weight"@],
        "shared_lm_head_speculative"@,
    );
}

// ---------------------------------------------------------------------------
// When a model goes into an image
// ---------------------------------------------------------------------------

/// Whether a source has all that a binding needs: its tensor, and the scales and biases of
/// a quantized one.
pub open spec fn is_supplied(x: BindingView, store: Map<Seq<char>, SourceView>) -> bool {
    &&& store.dom().contains(x.name)
    &&& x.packed is Some ==> store.dom().contains(emit::companion(x.name, ".scales"@))
        && store.dom().contains(emit::companion(x.name, ".biases"@))
}

/// Bindings are emitted without a report exactly where the source has all that the chosen
/// ones need.
pub proof fn law_supplied_bindings_are_emitted(
    s: Emission,
    store: Map<Seq<char>, SourceView>,
    bindings: Seq<BindingView>,
    layer: Option<u32>,
    chosen: Option<Seq<Seq<char>>>,
)
    requires
        s.report is None,
    ensures
        (emission::bindings_emitted(s, store, bindings, layer, chosen).report is None) == forall|
            j: int,
        |
            0 <= j < bindings.len() && emission::is_chosen(chosen, (#[trigger] bindings[j]).name)
                ==> is_supplied(bindings[j], store),
    decreases bindings.len(),
{
    if bindings.len() > 0 {
        let rest = bindings.drop_last();
        let last = bindings.len() - 1;
        let r = emission::bindings_emitted(s, store, bindings, layer, chosen);
        law_supplied_bindings_are_emitted(s, store, rest, layer, chosen);
        assert(bindings[last] == bindings.last());
        if r.report is None {
            assert forall|j: int|
                0 <= j < bindings.len() && emission::is_chosen(
                    chosen,
                    (#[trigger] bindings[j]).name,
                ) implies is_supplied(bindings[j], store) by {
                if j < last {
                    assert(rest[j] == bindings[j]);
                }
            }
        }
        if forall|j: int|
            0 <= j < bindings.len() && emission::is_chosen(chosen, (#[trigger] bindings[j]).name)
                ==> is_supplied(bindings[j], store) {
            assert forall|j: int|
                0 <= j < rest.len() && emission::is_chosen(
                    chosen,
                    (#[trigger] rest[j]).name,
                ) implies is_supplied(rest[j], store) by {
                assert(rest[j] == bindings[j]);
            }
        }
    }
}

/// Layers are emitted without a report exactly where the source has all that their chosen
/// tensors need.
pub proof fn law_supplied_layers_are_emitted(
    s: Emission,
    store: Map<Seq<char>, SourceView>,
    layers: Seq<LayerView>,
    prefix: Seq<char>,
    chosen: Option<Seq<Seq<char>>>,
)
    requires
        s.report is None,
    ensures
        (emission::layers_emitted(s, store, layers, prefix, chosen).report is None) == forall|
            l: int,
            j: int,
        |
            0 <= l < layers.len() && 0 <= j < layers[l].tensors.len() && emission::is_chosen(
                chosen,
                (#[trigger] layers[l].tensors[j]).name,
            ) ==> is_supplied(layers[l].tensors[j], store),
    decreases layers.len(),
{
    if layers.len() > 0 {
        let rest = layers.drop_last();
        let last = layers.len() - 1;
        let x = layers.last();
        let t = emission::layers_emitted(s, store, rest, prefix, chosen);
        let r = emission::layers_emitted(s, store, layers, prefix, chosen);
        law_supplied_layers_are_emitted(s, store, rest, prefix, chosen);
        assert(layers[last] == x);
        if t.report is None {
            let opened = emission::segment_opened(
                t,
                prefix + text::decimal(x.index as nat),
                SegmentKind::Layer(x.index),
            );
            law_supplied_bindings_are_emitted(opened, store, x.tensors, Some(x.index), chosen);
        }
        if r.report is None {
            assert forall|l: int, j: int|
                0 <= l < layers.len() && 0 <= j < layers[l].tensors.len() && emission::is_chosen(
                    chosen,
                    (#[trigger] layers[l].tensors[j]).name,
                ) implies is_supplied(layers[l].tensors[j], store) by {
                if l < last {
                    assert(rest[l].tensors[j] == layers[l].tensors[j]);
                } else {
                    assert(x.tensors[j] == layers[l].tensors[j]);
                }
            }
        }
        if forall|l: int, j: int|
            0 <= l < layers.len() && 0 <= j < layers[l].tensors.len() && emission::is_chosen(
                chosen,
                (#[trigger] layers[l].tensors[j]).name,
            ) ==> is_supplied(layers[l].tensors[j], store) {
            assert forall|l: int, j: int|
                0 <= l < rest.len() && 0 <= j < rest[l].tensors.len() && emission::is_chosen(
                    chosen,
                    (#[trigger] rest[l].tensors[j]).name,
                ) implies is_supplied(rest[l].tensors[j], store) by {
                assert(rest[l].tensors[j] == layers[l].tensors[j]);
            }
            assert forall|j: int|
                0 <= j < x.tensors.len() && emission::is_chosen(
                    chosen,
                    (#[trigger] x.tensors[j]).name,
                ) implies is_supplied(x.tensors[j], store) by {
                assert(x.tensors[j] == layers[last].tensors[j]);
            }
        }
    }
}

} // verus!
