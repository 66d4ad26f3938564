//! The order in which the tensors of a model go into an image: those of no
//! layer first, then layer by layer, each layer in a segment of its own.

use vstd::prelude::*;
use vstd::string::*;

use crate::config;
use crate::config::{BindingView, ExecutionSpec, ExecutionView, LayerSpec, LayerView, NamespaceBinding, TensorBinding};
use crate::image;
use crate::image::{BuilderView, ImageBuilder};
use crate::manifest::{QuantizationDesc, SegmentKind};
use crate::order;
use crate::table::NameTable;
use crate::text;

use super::emit;
use super::source;
use super::source::{SourceTensor, SourceView};

verus! {

/// An image and the numbers of its tensors by name while a model goes into it;
/// once there is a report, nothing more is done.
#[verifier::ext_equal]
pub struct Emission {
    pub image: BuilderView,
    pub ids: Map<Seq<char>, u32>,
    pub report: Option<Seq<char>>,
}

/// Whether a result agrees with an emission.
pub open spec fn concludes(r: Result<(), String>, s: Emission) -> bool {
    match r {
        Ok(_) => s.report is None,
        Err(e) => s.report == Some(e@),
    }
}

/// The tensors that are to go into an image: all, or those on a list.
pub open spec fn is_chosen(chosen: Option<Seq<Seq<char>>>, name: Seq<char>) -> bool {
    match chosen {
        Some(names) => names.contains(name),
        None => true,
    }
}

/// The list of names that a selection stands for.
pub open spec fn chosen_names(chosen: Option<&Vec<String>>) -> Option<Seq<Seq<char>>> {
    match chosen {
        Some(v) => Some(order::views(v@)),
        None => None,
    }
}

/// Whether the list holds the name.
pub fn list_holds(names: &Vec<String>, name: &str) -> (r: bool)
    ensures
        r == order::views(names@).contains(name@),
{
    let ghost keys = order::views(names@);
    let mut i: usize = 0;
    while i < names.len()
        invariant
            i <= names@.len(),
            keys == order::views(names@),
            forall|j: int| 0 <= j < i ==> #[trigger] keys[j] != name@,
        decreases names@.len() - i,
    {
        if text::same_text(names[i].as_str(), name) {
            assert(keys[i as int] == name@);
            return true;
        }
        assert(keys[i as int] == names@[i as int]@);
        i = i + 1;
    }
    false
}

fn wants(chosen: Option<&Vec<String>>, name: &str) -> (r: bool)
    ensures
        r == is_chosen(chosen_names(chosen), name@),
{
    match chosen {
        Some(names) => list_holds(names, name),
        None => true,
    }
}

/// The chosen bindings, one after the other, gone into the segment that was
/// opened last.
pub open spec fn bindings_emitted(
    s: Emission,
    store: Map<Seq<char>, SourceView>,
    bindings: Seq<BindingView>,
    layer: Option<u32>,
    chosen: Option<Seq<Seq<char>>>,
) -> Emission
    decreases bindings.len(),
{
    if bindings.len() == 0 {
        s
    } else {
        let t = bindings_emitted(s, store, bindings.drop_last(), layer, chosen);
        let b = bindings.last();
        if t.report is Some || !is_chosen(chosen, b.name) {
            t
        } else {
            let (image, outcome) = emit::binding_emitted(t.image, store, b, layer);
            match outcome {
                Ok(id) => Emission { image, ids: t.ids.insert(b.name, id), report: None },
                Err(e) => Emission { image, ids: t.ids, report: Some(e) },
            }
        }
    }
}

/// An emission after a segment has been opened.
pub open spec fn segment_opened(s: Emission, id: Seq<char>, kind: SegmentKind) -> Emission {
    Emission { image: image::with_segment(s.image, id, kind), ..s }
}

/// The layers, each gone into a segment of its own.
pub open spec fn layers_emitted(
    s: Emission,
    store: Map<Seq<char>, SourceView>,
    layers: Seq<LayerView>,
    prefix: Seq<char>,
    chosen: Option<Seq<Seq<char>>>,
) -> Emission
    decreases layers.len(),
{
    if layers.len() == 0 {
        s
    } else {
        let t = layers_emitted(s, store, layers.drop_last(), prefix, chosen);
        let l = layers.last();
        if t.report is Some {
            t
        } else {
            bindings_emitted(
                segment_opened(
                    t,
                    prefix + text::decimal(l.index as nat),
                    SegmentKind::Layer(l.index),
                ),
                store,
                l.tensors,
                Some(l.index),
                chosen,
            )
        }
    }
}

proof fn lemma_bindings_room(
    s: Emission,
    store: Map<Seq<char>, SourceView>,
    bindings: Seq<BindingView>,
    layer: Option<u32>,
    chosen: Option<Seq<Seq<char>>>,
)
    requires
        s.image.segments.len() > 0,
        s.image.next_id + 3 * bindings.len() <= u32::MAX,
    ensures
        ({
            let t = bindings_emitted(s, store, bindings, layer, chosen);
            &&& s.image.next_id <= t.image.next_id <= s.image.next_id + 3 * bindings.len()
            &&& t.image.segments.len() == s.image.segments.len()
        }),
    decreases bindings.len(),
{
    if bindings.len() > 0 {
        lemma_bindings_room(s, store, bindings.drop_last(), layer, chosen);
    }
}

/// Once there is a report, the rest of the bindings change nothing.
proof fn lemma_bindings_stay(
    s: Emission,
    store: Map<Seq<char>, SourceView>,
    bindings: Seq<BindingView>,
    k: int,
    layer: Option<u32>,
    chosen: Option<Seq<Seq<char>>>,
)
    requires
        0 <= k <= bindings.len(),
        bindings_emitted(s, store, bindings.take(k), layer, chosen).report is Some,
    ensures
        bindings_emitted(s, store, bindings, layer, chosen) == bindings_emitted(
            s,
            store,
            bindings.take(k),
            layer,
            chosen,
        ),
    decreases bindings.len() - k,
{
    if k < bindings.len() {
        assert(bindings.take(k + 1).drop_last() =~= bindings.take(k));
        lemma_bindings_stay(s, store, bindings, k + 1, layer, chosen);
    } else {
        assert(bindings.take(k) =~= bindings);
    }
}

/// Emits the chosen bindings into the segment that was opened last.
pub fn emit_bindings(
    builder: &mut ImageBuilder,
    ids: &mut NameTable<u32>,
    store: &NameTable<SourceTensor>,
    bindings: &Vec<TensorBinding>,
    layer: Option<u32>,
    chosen: Option<&Vec<String>>,
) -> (r: Result<(), String>)
    requires
        store.wf(),
        old(ids).wf(),
        old(builder)@.segments.len() > 0,
        old(builder)@.next_id + 3 * bindings@.len() <= u32::MAX,
    ensures
        ({
            let s = bindings_emitted(
                Emission { image: old(builder)@, ids: old(ids)@, report: None },
                source::source_views(store@),
                config::binding_views(bindings@),
                layer,
                chosen_names(chosen),
            );
            &&& final(ids).wf()
            &&& final(builder)@ == s.image
            &&& final(ids)@ == s.ids
            &&& concludes(r, s)
        }),
{
    let ghost start = Emission { image: builder@, ids: ids@, report: None };
    let ghost views = config::binding_views(bindings@);
    let ghost tensors = source::source_views(store@);
    let ghost names = chosen_names(chosen);
    let mut i: usize = 0;
    assert(views.len() == bindings@.len());
    while i < bindings.len()
        invariant
            i <= bindings@.len(),
            store.wf(),
            ids.wf(),
            start == (Emission { image: old(builder)@, ids: old(ids)@, report: None }),
            start.image.segments.len() > 0,
            start.image.next_id + 3 * bindings@.len() <= u32::MAX,
            views == config::binding_views(bindings@),
            views.len() == bindings@.len(),
            tensors == source::source_views(store@),
            names == chosen_names(chosen),
            (Emission { image: builder@, ids: ids@, report: None }) == bindings_emitted(
                start,
                tensors,
                views.take(i as int),
                layer,
                names,
            ),
        decreases bindings@.len() - i,
    {
        proof {
            lemma_bindings_room(start, tensors, views.take(i as int), layer, names);
            assert(views.take(i + 1).drop_last() =~= views.take(i as int));
            assert(views.take(i + 1).last() == bindings@[i as int]@);
        }
        if wants(chosen, bindings[i].name.as_str()) {
            let emitted: Result<u32, String> = emit::emit_binding_set(
                builder,
                store,
                &bindings[i],
                layer,
            );
            match emitted {
                Ok(id) => {
                    ids.insert(bindings[i].name.clone(), id);
                },
                Err(e) => {
                    proof {
                        lemma_bindings_stay(start, tensors, views, i + 1, layer, names);
                    }
                    return Err(e);
                },
            }
        }
        i = i + 1;
    }
    assert(views.take(views.len() as int) =~= views);
    Ok(())
}

/// The number of bindings of layers.
pub open spec fn layer_bindings(layers: Seq<LayerView>) -> nat
    decreases layers.len(),
{
    if layers.len() == 0 {
        0
    } else {
        layer_bindings(layers.drop_last()) + layers.last().tensors.len()
    }
}

proof fn lemma_layer_bindings_grow(layers: Seq<LayerView>, k: int)
    requires
        0 <= k <= layers.len(),
    ensures
        layer_bindings(layers.take(k)) <= layer_bindings(layers),
    decreases layers.len() - k,
{
    if k < layers.len() {
        assert(layers.take(k + 1).drop_last() =~= layers.take(k));
        lemma_layer_bindings_grow(layers, k + 1);
    } else {
        assert(layers.take(k) =~= layers);
    }
}

proof fn lemma_layers_room(
    s: Emission,
    store: Map<Seq<char>, SourceView>,
    layers: Seq<LayerView>,
    prefix: Seq<char>,
    chosen: Option<Seq<Seq<char>>>,
)
    requires
        s.image.next_id + 3 * layer_bindings(layers) <= u32::MAX,
    ensures
        ({
            let t = layers_emitted(s, store, layers, prefix, chosen);
            s.image.next_id <= t.image.next_id <= s.image.next_id + 3 * layer_bindings(layers)
        }),
    decreases layers.len(),
{
    if layers.len() > 0 {
        lemma_layers_room(s, store, layers.drop_last(), prefix, chosen);
        let t = layers_emitted(s, store, layers.drop_last(), prefix, chosen);
        let l = layers.last();
        if t.report is None {
            lemma_bindings_room(
                segment_opened(
                    t,
                    prefix + text::decimal(l.index as nat),
                    SegmentKind::Layer(l.index),
                ),
                store,
                l.tensors,
                Some(l.index),
                chosen,
            );
        }
    }
}

proof fn lemma_layers_stay(
    s: Emission,
    store: Map<Seq<char>, SourceView>,
    layers: Seq<LayerView>,
    k: int,
    prefix: Seq<char>,
    chosen: Option<Seq<Seq<char>>>,
)
    requires
        0 <= k <= layers.len(),
        layers_emitted(s, store, layers.take(k), prefix, chosen).report is Some,
    ensures
        layers_emitted(s, store, layers, prefix, chosen) == layers_emitted(
            s,
            store,
            layers.take(k),
            prefix,
            chosen,
        ),
    decreases layers.len() - k,
{
    if k < layers.len() {
        assert(layers.take(k + 1).drop_last() =~= layers.take(k));
        lemma_layers_stay(s, store, layers, k + 1, prefix, chosen);
    } else {
        assert(layers.take(k) =~= layers);
    }
}

/// Emits the chosen tensors of the layers, each layer into a segment of its own
/// that is named by the prefix and the number of the layer.
pub fn emit_layers(
    builder: &mut ImageBuilder,
    ids: &mut NameTable<u32>,
    store: &NameTable<SourceTensor>,
    layers: &Vec<LayerSpec>,
    prefix: &str,
    chosen: Option<&Vec<String>>,
) -> (r: Result<(), String>)
    requires
        store.wf(),
        old(ids).wf(),
        old(builder)@.next_id + 3 * layer_bindings(config::layer_views(layers@)) <= u32::MAX,
    ensures
        ({
            let s = layers_emitted(
                Emission { image: old(builder)@, ids: old(ids)@, report: None },
                source::source_views(store@),
                config::layer_views(layers@),
                prefix@,
                chosen_names(chosen),
            );
            &&& final(ids).wf()
            &&& final(builder)@ == s.image
            &&& final(ids)@ == s.ids
            &&& concludes(r, s)
        }),
{
    let ghost start = Emission { image: builder@, ids: ids@, report: None };
    let ghost views = config::layer_views(layers@);
    let ghost tensors = source::source_views(store@);
    let ghost names = chosen_names(chosen);
    let mut i: usize = 0;
    assert(views.len() == layers@.len());
    while i < layers.len()
        invariant
            i <= layers@.len(),
            store.wf(),
            ids.wf(),
            start == (Emission { image: old(builder)@, ids: old(ids)@, report: None }),
            start.image.next_id + 3 * layer_bindings(views) <= u32::MAX,
            views == config::layer_views(layers@),
            views.len() == layers@.len(),
            tensors == source::source_views(store@),
            names == chosen_names(chosen),
            (Emission { image: builder@, ids: ids@, report: None }) == layers_emitted(
                start,
                tensors,
                views.take(i as int),
                prefix@,
                names,
            ),
        decreases layers@.len() - i,
    {
        proof {
            lemma_layer_bindings_grow(views, i + 1);
            assert(views.take(i + 1).drop_last() =~= views.take(i as int));
            assert(views.take(i + 1).last() == layers@[i as int]@);
            lemma_layers_room(start, tensors, views.take(i as int), prefix@, names);
        }
        let mut id: String = prefix.to_owned();
        text::push_decimal(&mut id, layers[i].index as u64);
        builder.begin_segment(id.as_str(), SegmentKind::Layer(layers[i].index));
        let emitted: Result<(), String> = emit_bindings(
            builder,
            ids,
            store,
            &layers[i].tensors,
            Some(layers[i].index),
            chosen,
        );
        match emitted {
            Ok(_) => {},
            Err(e) => {
                proof {
                    lemma_layers_stay(start, tensors, views, i + 1, prefix@, names);
                }
                return Err(e);
            },
        }
        i = i + 1;
    }
    assert(views.take(views.len() as int) =~= views);
    Ok(())
}

/// The name of the embedding table.
pub open spec fn embedding_name(root: Seq<char>) -> Seq<char> {
    root + ".embed_tokens.weight"@
}

/// An emission after the output head has been made an alias of the embedding
/// table, where the model ties the two. Where the table has not gone into the
/// image, that is reported or passed over.
pub open spec fn head_aliased(
    s: Emission,
    ns: NamespaceBinding,
    reason: Seq<char>,
    strict: bool,
) -> Emission {
    let n = embedding_name(ns.root@);
    if s.report is Some || !ns.lm_head_aliased {
        s
    } else if s.ids.dom().contains(n) {
        Emission {
            image: image::with_alias(s.image, "lm_head.weight"@, s.ids[n], reason),
            ..s
        }
    } else if strict {
        Emission { report: Some("embed_tokens.weight was not emitted"@), ..s }
    } else {
        s
    }
}

/// Makes the output head an alias of the embedding table, where the model ties
/// the two.
pub fn alias_head(
    builder: &mut ImageBuilder,
    ids: &NameTable<u32>,
    ns: &NamespaceBinding,
    reason: &str,
    strict: bool,
) -> (r: Result<(), String>)
    requires
        ids.wf(),
    ensures
        ({
            let s = head_aliased(
                Emission { image: old(builder)@, ids: ids@, report: None },
                *ns,
                reason@,
                strict,
            );
            &&& final(builder)@ == s.image
            &&& s.ids == ids@
            &&& concludes(r, s)
        }),
{
    if !ns.lm_head_aliased {
        return Ok(());
    }
    let name: String = text::join2(ns.root.as_str(), ".embed_tokens.weight");
    match ids.get(name.as_str()) {
        Some(id) => {
            builder.add_alias("lm_head.weight", *id, reason);
            Ok(())
        },
        None => {
            if strict {
                Err("embed_tokens.weight was not emitted".to_owned())
            } else {
                Ok(())
            }
        },
    }
}

/// How a model goes into an image.
#[derive(Debug, Clone, Copy, PartialEq, Eq, Structural)]
pub enum EmissionStyle {
    /// The model stands alone; a missing embedding table is an error.
    Alone,
    /// The model is the target of speculative decoding.
    Target,
}

/// The image into which the tensors of a model have gone: those of no layer in
/// the resident segment, then the alias of the output head, then the layers.
pub open spec fn model_emitted(
    s: Emission,
    store: Map<Seq<char>, SourceView>,
    e: ExecutionView,
    ns: NamespaceBinding,
    style: EmissionStyle,
    chosen: Option<Seq<Seq<char>>>,
) -> Emission {
    let persistent = bindings_emitted(
        segment_opened(s, "persistent"@, SegmentKind::Persistent),
        store,
        e.global_tensors,
        None,
        chosen,
    );
    match style {
        EmissionStyle::Alone => after(
            head_aliased(persistent, ns, "tie_word_embeddings=true"@, true),
            |t: Emission| layers_emitted(t, store, e.layers, "layer_"@, chosen),
        ),
        EmissionStyle::Target => after(
            head_aliased(persistent, ns, "tie_word_embeddings"@, false),
            |t: Emission| layers_emitted(t, store, e.layers, "target_layer_"@, chosen),
        ),
    }
}

/// The next step of an emission, unless there is a report.
pub open spec fn after(s: Emission, step: spec_fn(Emission) -> Emission) -> Emission {
    if s.report is Some {
        s
    } else {
        step(s)
    }
}

/// The number of bindings that an execution needs.
pub open spec fn binding_count(e: ExecutionView) -> nat {
    e.global_tensors.len() + layer_bindings(e.layers)
}

/// The numbers that a model takes are at most three for each binding.
pub proof fn lemma_model_room(
    s: Emission,
    store: Map<Seq<char>, SourceView>,
    e: ExecutionView,
    ns: NamespaceBinding,
    style: EmissionStyle,
    chosen: Option<Seq<Seq<char>>>,
)
    requires
        s.image.next_id + 3 * binding_count(e) <= u32::MAX,
    ensures
        s.image.next_id <= model_emitted(s, store, e, ns, style, chosen).image.next_id
            <= s.image.next_id + 3 * binding_count(e),
{
    let opened = segment_opened(s, "persistent"@, SegmentKind::Persistent);
    lemma_bindings_room(opened, store, e.global_tensors, None, chosen);
    let persistent = bindings_emitted(opened, store, e.global_tensors, None, chosen);
    match style {
        EmissionStyle::Alone => {
            let t = head_aliased(persistent, ns, "tie_word_embeddings=true"@, true);
            lemma_layers_room(t, store, e.layers, "layer_"@, chosen);
        },
        EmissionStyle::Target => {
            let t = head_aliased(persistent, ns, "tie_word_embeddings"@, false);
            lemma_layers_room(t, store, e.layers, "target_layer_"@, chosen);
        },
    }
}

/// Emits the tensors of a model into an image.
pub fn emit_model(
    builder: &mut ImageBuilder,
    ids: &mut NameTable<u32>,
    store: &NameTable<SourceTensor>,
    spec: &ExecutionSpec,
    ns: &NamespaceBinding,
    style: EmissionStyle,
    chosen: Option<&Vec<String>>,
) -> (r: Result<(), String>)
    requires
        store.wf(),
        old(ids).wf(),
        old(builder)@.next_id + 3 * binding_count(spec@) <= u32::MAX,
    ensures
        ({
            let s = model_emitted(
                Emission { image: old(builder)@, ids: old(ids)@, report: None },
                source::source_views(store@),
                spec@,
                *ns,
                style,
                chosen_names(chosen),
            );
            &&& final(ids).wf()
            &&& final(builder)@ == s.image
            &&& final(ids)@ == s.ids
            &&& concludes(r, s)
        }),
{
    builder.begin_segment("persistent", SegmentKind::Persistent);
    let ghost opened = Emission { image: builder@, ids: ids@, report: None };
    proof {
        lemma_bindings_room(
            opened,
            source::source_views(store@),
            spec@.global_tensors,
            None,
            chosen_names(chosen),
        );
    }
    match emit_bindings(builder, ids, store, &spec.global_tensors, None, chosen) {
        Ok(_) => {},
        Err(e) => return Err(e),
    }
    match style {
        EmissionStyle::Alone => {
            match alias_head(builder, ids, ns, "tie_word_embeddings=true", true) {
                Ok(_) => {},
                Err(e) => return Err(e),
            }
            emit_layers(builder, ids, store, &spec.layers, "layer_", chosen)
        },
        EmissionStyle::Target => {
            match alias_head(builder, ids, ns, "tie_word_embeddings", false) {
                Ok(_) => {},
                Err(e) => return Err(e),
            }
            emit_layers(builder, ids, store, &spec.layers, "target_layer_", chosen)
        },
    }
}

// ---------------------------------------------------------------------------
// A draft model beside its target
// ---------------------------------------------------------------------------

/// Whether a draft model can share the embedding table of its target.
pub fn shares_embedding(
    target_vocab: u32,
    target_hidden: u32,
    draft_vocab: u32,
    draft_hidden: u32,
) -> (r: bool)
    ensures
        r == (target_vocab == draft_vocab && target_hidden == draft_hidden),
{
    target_vocab == draft_vocab && target_hidden == draft_hidden
}

/// An emission after the embedding tensors of the target have been given the
/// names that they have in the draft model.
pub open spec fn embeddings_shared(
    s: Emission,
    bindings: Seq<BindingView>,
    target_root: Seq<char>,
    draft_root: Seq<char>,
) -> Emission
    decreases bindings.len(),
{
    if bindings.len() == 0 {
        s
    } else {
        let t = embeddings_shared(s, bindings.drop_last(), target_root, draft_root);
        let n = bindings.last().name;
        if text::has_infix(n, "embed_tokens"@) && t.ids.dom().contains(n) {
            let m = text::replaced(n, target_root, draft_root);
            Emission {
                image: image::with_alias(t.image, m, t.ids[n], "shared_embedding_speculative"@),
                ids: t.ids.insert(m, t.ids[n]),
                ..t
            }
        } else {
            t
        }
    }
}

/// An emission after the output head of the target has been given the name that
/// it has in the draft model.
pub open spec fn head_shared(s: Emission, draft_root: Seq<char>) -> Emission {
    if s.ids.dom().contains("lm_head.weight"@) {
        let id = s.ids["lm_head.weight"@];
        let m = draft_root + ".lm_head.weight"@;
        Emission {
            image: image::with_alias(s.image, m, id, "shared_lm_head_speculative"@),
            ids: s.ids.insert(m, id),
            ..s
        }
    } else {
        s
    }
}

/// Gives the embedding tensors of the target, and its output head where it is
/// tied, the names that they have in the draft model.
pub fn share_embeddings(
    builder: &mut ImageBuilder,
    ids: &mut NameTable<u32>,
    target_globals: &Vec<TensorBinding>,
    target: &NamespaceBinding,
    draft: &NamespaceBinding,
)
    requires
        old(ids).wf(),
    ensures
        ({
            let s = embeddings_shared(
                Emission { image: old(builder)@, ids: old(ids)@, report: None },
                config::binding_views(target_globals@),
                target.root@,
                draft.root@,
            );
            let t = if target.lm_head_aliased {
                head_shared(s, draft.root@)
            } else {
                s
            };
            &&& final(ids).wf()
            &&& final(builder)@ == t.image
            &&& final(ids)@ == t.ids
        }),
{
    let ghost start = Emission { image: builder@, ids: ids@, report: None };
    let ghost views = config::binding_views(target_globals@);
    let mut i: usize = 0;
    assert(views.len() == target_globals@.len());
    while i < target_globals.len()
        invariant
            i <= target_globals@.len(),
            ids.wf(),
            views == config::binding_views(target_globals@),
            views.len() == target_globals@.len(),
            ({
                let s = embeddings_shared(start, views.take(i as int), target.root@, draft.root@);
                builder@ == s.image && ids@ == s.ids
            }),
        decreases target_globals@.len() - i,
    {
        let name: &String = &target_globals[i].name;
        proof {
            assert(views.take(i + 1).drop_last() =~= views.take(i as int));
            assert(views.take(i + 1).last() == target_globals@[i as int]@);
        }
        if text::contains(name.as_str(), "embed_tokens") {
            let found: Option<u32> = match ids.get(name.as_str()) {
                Some(id) => Some(*id),
                None => None,
            };
            if let Some(id) = found {
                let draft_name: String = text::replace(
                    name.as_str(),
                    target.root.as_str(),
                    draft.root.as_str(),
                );
                builder.add_alias(draft_name.as_str(), id, "shared_embedding_speculative");
                ids.insert(draft_name, id);
            }
        }
        i = i + 1;
    }
    assert(views.take(views.len() as int) =~= views);
    if target.lm_head_aliased {
        let found: Option<u32> = match ids.get("lm_head.weight") {
            Some(id) => Some(*id),
            None => None,
        };
        if let Some(id) = found {
            let draft_name: String = text::join2(draft.root.as_str(), ".lm_head.weight");
            builder.add_alias(draft_name.as_str(), id, "shared_lm_head_speculative");
            ids.insert(draft_name, id);
        }
    }
}

// ---------------------------------------------------------------------------
// Laws
// ---------------------------------------------------------------------------

/// Whether the tensors of an image are numbered one after the other from
/// `first` on, up to just below the next number, each in one segment only.
pub open spec fn well_numbered(b: BuilderView, first: u32) -> bool {
    &&& first + b.tensors.len() == b.next_id
    &&& forall|i: int| 0 <= i < b.tensors.len() ==> (#[trigger] b.tensors[i]).id == first + i
    &&& image::is_apart(b, first)
}

proof fn lemma_tensor_numbered(
    b: BuilderView,
    store: Map<Seq<char>, SourceView>,
    name: Seq<char>,
    role: Seq<char>,
    layer: Option<u32>,
    logical_dtype: Seq<char>,
    logical_shape: Seq<u32>,
    quantization: Option<QuantizationDesc>,
    first: u32,
)
    requires
        well_numbered(b, first),
        b.segments.len() > 0,
        b.next_id < u32::MAX,
    ensures
        well_numbered(
            emit::tensor_emitted(
                b,
                store,
                name,
                role,
                layer,
                logical_dtype,
                logical_shape,
                quantization,
            ).0,
            first,
        ),
{
    if store.dom().contains(name) {
        let t = store[name];
        image::law_segments_stay_apart(
            b,
            first,
            emit::outgoing(t, name, role, layer, logical_dtype, logical_shape, quantization),
            t.data,
        );
    }
}

proof fn lemma_binding_numbered(
    b: BuilderView,
    store: Map<Seq<char>, SourceView>,
    binding: BindingView,
    layer: Option<u32>,
    first: u32,
)
    requires
        well_numbered(b, first),
        b.segments.len() > 0,
        b.next_id + 3 <= u32::MAX,
    ensures
        well_numbered(emit::binding_emitted(b, store, binding, layer).0, first),
{
    match binding.packed {
        Some(packed) => {
            let scales = emit::companion(binding.name, ".scales"@);
            let scales_role = binding.role + "::scales"@;
            lemma_tensor_numbered(
                b,
                store,
                scales,
                scales_role,
                layer,
                "F32"@,
                packed.scales,
                None,
                first,
            );
            let (b1, o1) = emit::tensor_emitted(
                b,
                store,
                scales,
                scales_role,
                layer,
                "F32"@,
                packed.scales,
                None,
            );
            let biases = emit::companion(binding.name, ".biases"@);
            let biases_role = binding.role + "::biases"@;
            lemma_tensor_numbered(
                b1,
                store,
                biases,
                biases_role,
                layer,
                "F32"@,
                packed.biases,
                None,
                first,
            );
            let (b2, o2) = emit::tensor_emitted(
                b1,
                store,
                biases,
                biases_role,
                layer,
                "F32"@,
                packed.biases,
                None,
            );
            if o1 is Ok && o2 is Ok {
                lemma_tensor_numbered(
                    b2,
                    store,
                    binding.name,
                    binding.role,
                    layer,
                    "F32"@,
                    binding.logical_shape,
                    Some(
                        QuantizationDesc {
                            bits: packed.bits,
                            group_size: packed.group_size,
                            groups: packed.groups,
                            scale_tensor_id: o1->Ok_0,
                            bias_tensor_id: o2->Ok_0,
                        },
                    ),
                    first,
                );
            }
        },
        None => {
            lemma_tensor_numbered(
                b,
                store,
                binding.name,
                binding.role,
                layer,
                "F32"@,
                binding.logical_shape,
                None,
                first,
            );
        },
    }
}

/// Emission numbers the tensors of an image one after the other, without gaps
/// and without using a number twice.
pub proof fn law_emission_numbers_in_order(
    s: Emission,
    store: Map<Seq<char>, SourceView>,
    bindings: Seq<BindingView>,
    layer: Option<u32>,
    chosen: Option<Seq<Seq<char>>>,
    first: u32,
)
    requires
        well_numbered(s.image, first),
        s.image.segments.len() > 0,
        s.image.next_id + 3 * bindings.len() <= u32::MAX,
    ensures
        well_numbered(bindings_emitted(s, store, bindings, layer, chosen).image, first),
    decreases bindings.len(),
{
    if bindings.len() > 0 {
        let rest = bindings.drop_last();
        law_emission_numbers_in_order(s, store, rest, layer, chosen, first);
        lemma_bindings_room(s, store, rest, layer, chosen);
        let t = bindings_emitted(s, store, rest, layer, chosen);
        if t.report is None && is_chosen(chosen, bindings.last().name) {
            lemma_binding_numbered(t.image, store, bindings.last(), layer, first);
        }
    }
}

/// The same of the layers of a model.
pub proof fn law_layers_number_in_order(
    s: Emission,
    store: Map<Seq<char>, SourceView>,
    layers: Seq<LayerView>,
    prefix: Seq<char>,
    chosen: Option<Seq<Seq<char>>>,
    first: u32,
)
    requires
        well_numbered(s.image, first),
        s.image.next_id + 3 * layer_bindings(layers) <= u32::MAX,
    ensures
        well_numbered(layers_emitted(s, store, layers, prefix, chosen).image, first),
    decreases layers.len(),
{
    if layers.len() > 0 {
        let rest = layers.drop_last();
        law_layers_number_in_order(s, store, rest, prefix, chosen, first);
        lemma_layers_room(s, store, rest, prefix, chosen);
        let t = layers_emitted(s, store, rest, prefix, chosen);
        let l = layers.last();
        if t.report is None {
            image::law_new_segment_is_apart(
                t.image,
                first,
                prefix + text::decimal(l.index as nat),
                SegmentKind::Layer(l.index),
            );
            law_emission_numbers_in_order(
                segment_opened(
                    t,
                    prefix + text::decimal(l.index as nat),
                    SegmentKind::Layer(l.index),
                ),
                store,
                l.tensors,
                Some(l.index),
                chosen,
                first,
            );
        }
    }
}

/// The same of a whole model.
pub proof fn law_model_numbers_in_order(
    s: Emission,
    store: Map<Seq<char>, SourceView>,
    e: ExecutionView,
    ns: NamespaceBinding,
    style: EmissionStyle,
    chosen: Option<Seq<Seq<char>>>,
    first: u32,
)
    requires
        well_numbered(s.image, first),
        s.image.next_id + 3 * binding_count(e) <= u32::MAX,
    ensures
        well_numbered(model_emitted(s, store, e, ns, style, chosen).image, first),
{
    let opened = segment_opened(s, "persistent"@, SegmentKind::Persistent);
    image::law_new_segment_is_apart(
        s.image,
        first,
        "persistent"@,
        SegmentKind::Persistent,
    );
    law_emission_numbers_in_order(opened, store, e.global_tensors, None, chosen, first);
    lemma_bindings_room(opened, store, e.global_tensors, None, chosen);
    let persistent = bindings_emitted(opened, store, e.global_tensors, None, chosen);
    let id = persistent.ids[embedding_name(ns.root@)];
    match style {
        EmissionStyle::Alone => {
            let t = head_aliased(persistent, ns, "tie_word_embeddings=true"@, true);
            image::law_alias_keeps_apart(
                persistent.image,
                first,
                "lm_head.weight"@,
                id,
                "tie_word_embeddings=true"@,
            );
            law_layers_number_in_order(t, store, e.layers, "layer_"@, chosen, first);
        },
        EmissionStyle::Target => {
            let t = head_aliased(persistent, ns, "tie_word_embeddings"@, false);
            image::law_alias_keeps_apart(
                persistent.image,
                first,
                "lm_head.weight"@,
                id,
                "tie_word_embeddings"@,
            );
            law_layers_number_in_order(t, store, e.layers, "target_layer_"@, chosen, first);
        },
    }
}

/// Sharing embeddings reports nothing.
pub proof fn lemma_sharing_keeps_report(
    s: Emission,
    bindings: Seq<BindingView>,
    target_root: Seq<char>,
    draft_root: Seq<char>,
)
    ensures
        embeddings_shared(s, bindings, target_root, draft_root).report == s.report,
    decreases bindings.len(),
{
    if bindings.len() > 0 {
        lemma_sharing_keeps_report(s, bindings.drop_last(), target_root, draft_root);
    }
}

// ---------------------------------------------------------------------------
// What an image holds of its source
// ---------------------------------------------------------------------------

/// Tensor `i` of the image is one of the source, and is stored with its data.
pub open spec fn is_stored_in(b: BuilderView, i: int, store: Map<Seq<char>, SourceView>) -> bool {
    &&& store.dom().contains(b.tensors[i].name)
    &&& image::is_stored(b, i, store[b.tensors[i].name].data)
}

/// Every tensor of the image is one of either source, and is stored with its data.
pub open spec fn is_drawn(
    b: BuilderView,
    store: Map<Seq<char>, SourceView>,
    kept: Map<Seq<char>, SourceView>,
) -> bool {
    forall|i: int|
        0 <= i < b.tensors.len() ==> #[trigger] is_stored_in(b, i, store) || is_stored_in(b, i, kept)
}

/// Every tensor of the image is one of the source, and is stored with its data.
pub open spec fn is_faithful(b: BuilderView, store: Map<Seq<char>, SourceView>) -> bool {
    forall|i: int| 0 <= i < b.tensors.len() ==> #[trigger] is_stored_in(b, i, store)
}

pub proof fn lemma_added_stays_faithful(
    b: BuilderView,
    store: Map<Seq<char>, SourceView>,
    kept: Map<Seq<char>, SourceView>,
    t: image::NewView,
)
    requires
        is_drawn(b, store, kept),
        b.segments.len() > 0,
        store.dom().contains(t.name),
    ensures
        is_drawn(image::with_tensor(b, t, store[t.name].data), store, kept),
        image::with_tensor(b, t, store[t.name].data).segments.len() > 0,
{
    let data = store[t.name].data;
    let r = image::with_tensor(b, t, data);
    assert forall|i: int| 0 <= i < r.tensors.len() implies #[trigger] is_stored_in(r, i, store) || is_stored_in(r, i, kept) by {
        if i < b.tensors.len() {
            assert(b.tensors[i] == r.tensors[i]);
            if is_stored_in(b, i, store) {
            image::law_stored_tensor_outlives_tensor(b, i, store[b.tensors[i].name].data, t, data);
        }
        if is_stored_in(b, i, kept) {
            image::law_stored_tensor_outlives_tensor(b, i, kept[b.tensors[i].name].data, t, data);
        }
        } else {
            image::law_added_tensor_is_stored(b, t, data);
        }
    }
}

pub proof fn lemma_opened_stays_faithful(
    b: BuilderView,
    store: Map<Seq<char>, SourceView>,
    kept: Map<Seq<char>, SourceView>,
    id: Seq<char>,
    kind: SegmentKind,
)
    requires
        is_drawn(b, store, kept),
    ensures
        is_drawn(image::with_segment(b, id, kind), store, kept),
{
    let r = image::with_segment(b, id, kind);
    assert forall|i: int| 0 <= i < r.tensors.len() implies #[trigger] is_stored_in(r, i, store) || is_stored_in(r, i, kept) by {
        assert(b.tensors[i] == r.tensors[i]);
        if is_stored_in(b, i, store) {
            image::law_stored_tensor_outlives_segment(b, i, store[b.tensors[i].name].data, id, kind);
        }
        if is_stored_in(b, i, kept) {
            image::law_stored_tensor_outlives_segment(b, i, kept[b.tensors[i].name].data, id, kind);
        }
    }
}

proof fn lemma_alias_stays_faithful(
    b: BuilderView,
    store: Map<Seq<char>, SourceView>,
    kept: Map<Seq<char>, SourceView>,
    name: Seq<char>,
    id: u32,
    reason: Seq<char>,
)
    requires
        is_drawn(b, store, kept),
    ensures
        is_drawn(image::with_alias(b, name, id, reason), store, kept),
{
    let r = image::with_alias(b, name, id, reason);
    assert forall|i: int| 0 <= i < r.tensors.len() implies #[trigger] is_stored_in(r, i, store)
        || is_stored_in(r, i, kept) by {
        assert(is_stored_in(b, i, store) || is_stored_in(b, i, kept));
        let n = b.tensors[i].name;
        if is_stored_in(b, i, store) {
            image::law_stored_tensor_outlives_alias(b, i, store[n].data, name, id, reason);
        } else {
            image::law_stored_tensor_outlives_alias(b, i, kept[n].data, name, id, reason);
        }
    }
}

proof fn lemma_head_stays_faithful(
    s: Emission,
    store: Map<Seq<char>, SourceView>,
    kept: Map<Seq<char>, SourceView>,
    ns: NamespaceBinding,
    reason: Seq<char>,
    strict: bool,
)
    requires
        is_drawn(s.image, store, kept),
    ensures
        is_drawn(head_aliased(s, ns, reason, strict).image, store, kept),
{
    let id = s.ids[embedding_name(ns.root@)];
    lemma_alias_stays_faithful(s.image, store, kept, "lm_head.weight"@, id, reason);
}

proof fn lemma_tensor_stays_faithful(
    b: BuilderView,
    store: Map<Seq<char>, SourceView>,
    kept: Map<Seq<char>, SourceView>,
    name: Seq<char>,
    role: Seq<char>,
    layer: Option<u32>,
    logical_dtype: Seq<char>,
    logical_shape: Seq<u32>,
    quantization: Option<QuantizationDesc>,
)
    requires
        is_drawn(b, store, kept),
        b.segments.len() > 0,
    ensures
        ({
            let r = emit::tensor_emitted(
                b,
                store,
                name,
                role,
                layer,
                logical_dtype,
                logical_shape,
                quantization,
            ).0;
            is_drawn(r, store, kept) && r.segments.len() > 0
        }),
{
    if store.dom().contains(name) {
        lemma_added_stays_faithful(
            b,
            store,
            kept,
            emit::outgoing(
                store[name],
                name,
                role,
                layer,
                logical_dtype,
                logical_shape,
                quantization,
            ),
        );
    }
}

proof fn lemma_binding_stays_faithful(
    b: BuilderView,
    store: Map<Seq<char>, SourceView>,
    kept: Map<Seq<char>, SourceView>,
    binding: BindingView,
    layer: Option<u32>,
)
    requires
        is_drawn(b, store, kept),
        b.segments.len() > 0,
    ensures
        ({
            let r = emit::binding_emitted(b, store, binding, layer).0;
            is_drawn(r, store, kept) && r.segments.len() > 0
        }),
{
    match binding.packed {
        Some(packed) => {
            let scales = emit::companion(binding.name, ".scales"@);
            let scales_role = binding.role + "::scales"@;
            lemma_tensor_stays_faithful(
                b,
                store,
            kept,
                scales,
                scales_role,
                layer,
                "F32"@,
                packed.scales,
                None,
            );
            let (b1, o1) = emit::tensor_emitted(
                b,
                store,
                scales,
                scales_role,
                layer,
                "F32"@,
                packed.scales,
                None,
            );
            let biases = emit::companion(binding.name, ".biases"@);
            let biases_role = binding.role + "::biases"@;
            lemma_tensor_stays_faithful(
                b1,
                store,
            kept,
                biases,
                biases_role,
                layer,
                "F32"@,
                packed.biases,
                None,
            );
            let (b2, o2) = emit::tensor_emitted(
                b1,
                store,
                biases,
                biases_role,
                layer,
                "F32"@,
                packed.biases,
                None,
            );
            if o1 is Ok && o2 is Ok {
                lemma_tensor_stays_faithful(
                    b2,
                    store,
            kept,
                    binding.name,
                    binding.role,
                    layer,
                    "F32"@,
                    binding.logical_shape,
                    Some(
                        QuantizationDesc {
                            bits: packed.bits,
                            group_size: packed.group_size,
                            groups: packed.groups,
                            scale_tensor_id: o1->Ok_0,
                            bias_tensor_id: o2->Ok_0,
                        },
                    ),
                );
            }
        },
        None => {
            lemma_tensor_stays_faithful(
                b,
                store,
            kept,
                binding.name,
                binding.role,
                layer,
                "F32"@,
                binding.logical_shape,
                None,
            );
        },
    }
}

proof fn lemma_bindings_stay_faithful(
    s: Emission,
    store: Map<Seq<char>, SourceView>,
    kept: Map<Seq<char>, SourceView>,
    bindings: Seq<BindingView>,
    layer: Option<u32>,
    chosen: Option<Seq<Seq<char>>>,
)
    requires
        is_drawn(s.image, store, kept),
        s.image.segments.len() > 0,
    ensures
        ({
            let r = bindings_emitted(s, store, bindings, layer, chosen).image;
            is_drawn(r, store, kept) && r.segments.len() > 0
        }),
    decreases bindings.len(),
{
    if bindings.len() > 0 {
        lemma_bindings_stay_faithful(s, store,
            kept, bindings.drop_last(), layer, chosen);
        let t = bindings_emitted(s, store, bindings.drop_last(), layer, chosen);
        lemma_binding_stays_faithful(t.image, store,
            kept, bindings.last(), layer);
    }
}

/// Emission of layers stores every tensor with its data, and keeps what was
/// stored before, of this source or of another.
pub proof fn law_layers_keep_data(
    s: Emission,
    store: Map<Seq<char>, SourceView>,
    kept: Map<Seq<char>, SourceView>,
    layers: Seq<LayerView>,
    prefix: Seq<char>,
    chosen: Option<Seq<Seq<char>>>,
)
    requires
        is_drawn(s.image, store, kept),
    ensures
        is_drawn(layers_emitted(s, store, layers, prefix, chosen).image, store, kept),
    decreases layers.len(),
{
    if layers.len() > 0 {
        law_layers_keep_data(s, store,
            kept, layers.drop_last(), prefix, chosen);
        let t = layers_emitted(s, store, layers.drop_last(), prefix, chosen);
        let l = layers.last();
        let id = prefix + text::decimal(l.index as nat);
        lemma_opened_stays_faithful(t.image, store,
            kept, id, SegmentKind::Layer(l.index));
        lemma_bindings_stay_faithful(
            segment_opened(t, id, SegmentKind::Layer(l.index)),
            store,
            kept,
            l.tensors,
            Some(l.index),
            chosen,
        );
    }
}

/// Emission of a model stores every tensor with its data, and keeps what was
/// stored before, of this source or of another.
pub proof fn law_model_keeps_data(
    s: Emission,
    store: Map<Seq<char>, SourceView>,
    kept: Map<Seq<char>, SourceView>,
    e: ExecutionView,
    ns: NamespaceBinding,
    style: EmissionStyle,
    chosen: Option<Seq<Seq<char>>>,
)
    requires
        is_drawn(s.image, store, kept),
    ensures
        is_drawn(model_emitted(s, store, e, ns, style, chosen).image, store, kept),
{
    lemma_opened_stays_faithful(s.image, store,
            kept, "persistent"@, SegmentKind::Persistent);
    let opened = segment_opened(s, "persistent"@, SegmentKind::Persistent);
    lemma_bindings_stay_faithful(opened, store,
            kept, e.global_tensors, None, chosen);
    let persistent = bindings_emitted(opened, store, e.global_tensors, None, chosen);
    match style {
        EmissionStyle::Alone => {
            lemma_head_stays_faithful(persistent, store,
            kept, ns, "tie_word_embeddings=true"@, true);
            let t = head_aliased(persistent, ns, "tie_word_embeddings=true"@, true);
            law_layers_keep_data(t, store,
            kept, e.layers, "layer_"@, chosen);
        },
        EmissionStyle::Target => {
            lemma_head_stays_faithful(persistent, store,
            kept, ns, "tie_word_embeddings"@, false);
            let t = head_aliased(persistent, ns, "tie_word_embeddings"@, false);
            law_layers_keep_data(t, store,
            kept, e.layers, "target_layer_"@, chosen);
        },
    }
}

/// The names that the embedding and the output head are given in a draft model
/// leave every tensor stored with its data.
pub proof fn law_sharing_keeps_data(
    s: Emission,
    store: Map<Seq<char>, SourceView>,
    kept: Map<Seq<char>, SourceView>,
    bindings: Seq<BindingView>,
    target_root: Seq<char>,
    draft_root: Seq<char>,
)
    requires
        is_drawn(s.image, store, kept),
    ensures
        ({
            let e = embeddings_shared(s, bindings, target_root, draft_root);
            is_drawn(e.image, store, kept) && is_drawn(
                head_shared(e, draft_root).image,
                store,
                kept,
            )
        }),
    decreases bindings.len(),
{
    if bindings.len() > 0 {
        law_sharing_keeps_data(s, store, kept, bindings.drop_last(), target_root, draft_root);
        let t = embeddings_shared(s, bindings.drop_last(), target_root, draft_root);
        let n = bindings.last().name;
        lemma_alias_stays_faithful(
            t.image,
            store,
            kept,
            text::replaced(n, target_root, draft_root),
            t.ids[n],
            "shared_embedding_speculative"@,
        );
    }
    let e = embeddings_shared(s, bindings, target_root, draft_root);
    lemma_alias_stays_faithful(
        e.image,
        store,
        kept,
        draft_root + ".lm_head.weight"@,
        e.ids["lm_head.weight"@],
        "shared_lm_head_speculative"@,
    );
}

} // verus!
