//! An image under construction: segments are opened one after the other, and
//! each tensor joins the segment that was opened last.

use vstd::prelude::*;

use crate::manifest;
use crate::manifest::{AliasEntry, AliasView, EntryView, QuantizationDesc, SegmentKind, TensorEntry};

verus! {

/// A segment under construction. Its payload is the data of its tensors, one
/// after the other.
#[derive(Debug)]
pub struct SegmentDraft {
    pub id: String,
    pub kind: SegmentKind,
    pub tensor_ids: Vec<u32>,
    pub payload: Vec<u8>,
}

#[verifier::ext_equal]
pub struct DraftView {
    pub id: Seq<char>,
    pub kind: SegmentKind,
    pub tensor_ids: Seq<u32>,
    pub payload: Seq<u8>,
}

impl SegmentDraft {
    pub open spec fn view(&self) -> DraftView {
        DraftView {
            id: self.id@,
            kind: self.kind,
            tensor_ids: self.tensor_ids@,
            payload: self.payload@,
        }
    }
}

/// The views of a list of segments under construction.
pub open spec fn draft_views(drafts: Seq<SegmentDraft>) -> Seq<DraftView> {
    drafts.map_values(|d: SegmentDraft| d@)
}

/// An image under construction.
#[derive(Debug)]
pub struct ImageBuilder {
    pub next_id: u32,
    pub segments: Vec<SegmentDraft>,
    pub tensors: Vec<TensorEntry>,
    pub aliases: Vec<AliasEntry>,
}

#[verifier::ext_equal]
pub struct BuilderView {
    pub next_id: u32,
    pub segments: Seq<DraftView>,
    pub tensors: Seq<EntryView>,
    pub aliases: Seq<AliasView>,
}

/// A tensor to be added to an image.
#[derive(Debug)]
pub struct NewTensor {
    pub name: String,
    pub role: String,
    pub layer: Option<u32>,
    pub source_filename: String,
    pub source_sha256: String,
    pub source_offset: u64,
    pub logical_dtype: String,
    pub storage_dtype: String,
    pub logical_shape: Vec<u32>,
    pub storage_shape: Vec<u32>,
    pub quantization: Option<QuantizationDesc>,
}

#[verifier::ext_equal]
pub struct NewView {
    pub name: Seq<char>,
    pub role: Seq<char>,
    pub layer: Option<u32>,
    pub source_filename: Seq<char>,
    pub source_sha256: Seq<char>,
    pub source_offset: u64,
    pub logical_dtype: Seq<char>,
    pub storage_dtype: Seq<char>,
    pub logical_shape: Seq<u32>,
    pub storage_shape: Seq<u32>,
    pub quantization: Option<QuantizationDesc>,
}

impl NewTensor {
    pub open spec fn view(&self) -> NewView {
        NewView {
            name: self.name@,
            role: self.role@,
            layer: self.layer,
            source_filename: self.source_filename@,
            source_sha256: self.source_sha256@,
            source_offset: self.source_offset,
            logical_dtype: self.logical_dtype@,
            storage_dtype: self.storage_dtype@,
            logical_shape: self.logical_shape@,
            storage_shape: self.storage_shape@,
            quantization: self.quantization,
        }
    }
}

/// The image with a segment opened.
pub open spec fn with_segment(b: BuilderView, id: Seq<char>, kind: SegmentKind) -> BuilderView {
    BuilderView {
        segments: b.segments.push(
            DraftView { id, kind, tensor_ids: Seq::empty(), payload: Seq::empty() },
        ),
        ..b
    }
}

/// The entry of a tensor that is added next.
pub open spec fn next_entry(b: BuilderView, t: NewView, data: Seq<u8>) -> EntryView {
    EntryView {
        id: b.next_id,
        name: t.name,
        role: t.role,
        layer: t.layer,
        segment: b.segments.last().id,
        offset: b.segments.last().payload.len() as u64,
        byte_size: data.len() as u64,
        source_filename: t.source_filename,
        source_sha256: t.source_sha256,
        source_offset: t.source_offset,
        logical_dtype: t.logical_dtype,
        storage_dtype: t.storage_dtype,
        logical_shape: t.logical_shape,
        storage_shape: t.storage_shape,
        quantization: t.quantization,
    }
}

/// The image with a tensor added to the segment that was opened last.
pub open spec fn with_tensor(b: BuilderView, t: NewView, data: Seq<u8>) -> BuilderView {
    let s = b.segments.last();
    BuilderView {
        next_id: (b.next_id + 1) as u32,
        segments: b.segments.update(
            b.segments.len() - 1,
            DraftView {
                tensor_ids: s.tensor_ids.push(b.next_id),
                payload: s.payload + data,
                ..s
            },
        ),
        tensors: b.tensors.push(next_entry(b, t, data)),
        ..b
    }
}

/// The image with a further name for a tensor.
pub open spec fn with_alias(
    b: BuilderView,
    name: Seq<char>,
    tensor_id: u32,
    reason: Seq<char>,
) -> BuilderView {
    BuilderView { aliases: b.aliases.push(AliasView { name, tensor_id, reason }), ..b }
}

/// The image without segments, tensors or aliases, which numbers its tensors
/// from `first_id` on.
pub open spec fn blank(first_id: u32) -> BuilderView {
    BuilderView {
        next_id: first_id,
        segments: Seq::empty(),
        tensors: Seq::empty(),
        aliases: Seq::empty(),
    }
}

impl ImageBuilder {
    pub open spec fn view(&self) -> BuilderView {
        BuilderView {
            next_id: self.next_id,
            segments: draft_views(self.segments@),
            tensors: manifest::entry_views(self.tensors@),
            aliases: manifest::alias_views(self.aliases@),
        }
    }

    /// An image that numbers its tensors from `first_id` on.
    pub fn starting_at(first_id: u32) -> (b: Self)
        ensures
            b@ == blank(first_id),
    {
        let b: ImageBuilder = ImageBuilder {
            next_id: first_id,
            segments: Vec::new(),
            tensors: Vec::new(),
            aliases: Vec::new(),
        };
        assert(b@ =~= blank(first_id));
        b
    }

    /// Opens a segment.
    pub fn begin_segment(&mut self, id: &str, kind: SegmentKind)
        ensures
            final(self)@ == with_segment(old(self)@, id@, kind),
    {
        let draft: SegmentDraft = SegmentDraft {
            id: id.to_owned(),
            kind,
            tensor_ids: Vec::new(),
            payload: Vec::new(),
        };
        let ghost before = self@;
        assert(draft@ =~= (DraftView {
            id: id@,
            kind,
            tensor_ids: Seq::empty(),
            payload: Seq::empty(),
        }));
        self.segments.push(draft);
        assert(self@.segments =~= before.segments.push(draft@));
    }

    /// Adds a tensor to the segment that was opened last, and returns its
    /// number.
    pub fn add_tensor(&mut self, t: NewTensor, data: &Vec<u8>) -> (id: u32)
        requires
            old(self)@.segments.len() > 0,
            old(self)@.next_id < u32::MAX,
        ensures
            id == old(self)@.next_id,
            final(self)@ == with_tensor(old(self)@, t@, data@),
    {
        let ghost before = *self;
        let id: u32 = self.next_id;
        let last: usize = self.segments.len() - 1;
        let entry: TensorEntry = TensorEntry {
            id,
            name: t.name,
            role: t.role,
            layer: t.layer,
            segment: self.segments[last].id.clone(),
            offset: self.segments[last].payload.len() as u64,
            byte_size: data.len() as u64,
            source_filename: t.source_filename,
            source_sha256: t.source_sha256,
            source_offset: t.source_offset,
            logical_dtype: t.logical_dtype,
            storage_dtype: t.storage_dtype,
            logical_shape: t.logical_shape,
            storage_shape: t.storage_shape,
            quantization: t.quantization,
        };
        assert(entry@ == next_entry(before@, t@, data@));
        self.tensors.push(entry);
        self.segments[last].tensor_ids.push(id);
        self.segments[last].payload.extend_from_slice(data.as_slice());
        self.next_id = id + 1;
        proof {
            assert(self@.tensors =~= before@.tensors.push(entry@));
            let s = before@.segments.last();
            let d = DraftView {
                tensor_ids: s.tensor_ids.push(id),
                payload: s.payload + data@,
                ..s
            };
            assert(self.segments@[last as int]@ =~= d);
            assert(self@.segments =~= before@.segments.update(last as int, d));
        }
        id
    }

    /// Gives a tensor a further name.
    pub fn add_alias(&mut self, name: &str, tensor_id: u32, reason: &str)
        ensures
            final(self)@ == with_alias(old(self)@, name@, tensor_id, reason@),
    {
        let ghost before = self@;
        let alias: AliasEntry = AliasEntry {
            name: name.to_owned(),
            tensor_id,
            reason: reason.to_owned(),
        };
        self.aliases.push(alias);
        assert(self@.aliases =~= before.aliases.push(alias@));
    }
}

// ---------------------------------------------------------------------------
// Data in images
// ---------------------------------------------------------------------------

/// Segment `k` lists the tensor with that number.
pub open spec fn lists(b: BuilderView, k: int, id: u32) -> bool {
    b.segments[k].tensor_ids.contains(id)
}

/// The numbers that the segments list are given out from `first` on, and no two
/// segments list the same.
pub open spec fn is_apart(b: BuilderView, first: u32) -> bool {
    &&& forall|k: int, id: u32|
        0 <= k < b.segments.len() && #[trigger] lists(b, k, id) ==> first <= id < b.next_id
    &&& forall|k: int, l: int, id: u32|
        0 <= k < l < b.segments.len() ==> !(#[trigger] lists(b, k, id) && #[trigger] lists(
            b,
            l,
            id,
        ))
}

/// A tensor that is added is listed by the segment that was opened last, which
/// goes on to list what it did.
pub proof fn lemma_tensor_is_listed(b: BuilderView, t: NewView, data: Seq<u8>)
    requires
        b.segments.len() > 0,
    ensures
        ({
            let last = b.segments.len() - 1;
            forall|k: int, id: u32|
                0 <= k < b.segments.len() ==> #[trigger] lists(with_tensor(b, t, data), k, id) == (
                lists(b, k, id) || k == last && id == b.next_id)
        }),
{
    let r = with_tensor(b, t, data);
    let last = b.segments.len() - 1;
    assert forall|k: int, id: u32| 0 <= k < b.segments.len() implies #[trigger] lists(r, k, id) == (
    lists(b, k, id) || k == last && id == b.next_id) by {
        if k == last {
            let ids = b.segments[last].tensor_ids;
            let more = r.segments[last].tensor_ids;
            assert(more =~= ids.push(b.next_id));
            if ids.contains(id) {
                let j = choose|j: int| 0 <= j < ids.len() && ids[j] == id;
                assert(more[j] == id);
            }
            if id == b.next_id {
                assert(more[ids.len() as int] == id);
            }
            if more.contains(id) {
                let j = choose|j: int| 0 <= j < more.len() && more[j] == id;
                if j < ids.len() {
                    assert(ids[j] == id);
                }
            }
        }
    }
}

/// Segments stay apart when a tensor is added.
pub proof fn law_segments_stay_apart(b: BuilderView, first: u32, t: NewView, data: Seq<u8>)
    requires
        is_apart(b, first),
        b.segments.len() > 0,
        first <= b.next_id < u32::MAX,
    ensures
        is_apart(with_tensor(b, t, data), first),
{
    lemma_tensor_is_listed(b, t, data);
}

/// Segments stay apart when another one is opened.
pub proof fn law_new_segment_is_apart(b: BuilderView, first: u32, id: Seq<char>, kind: SegmentKind)
    requires
        is_apart(b, first),
    ensures
        is_apart(with_segment(b, id, kind), first),
{
    let r = with_segment(b, id, kind);
    assert forall|k: int, n: u32| 0 <= k < r.segments.len() implies #[trigger] lists(r, k, n) == (k
        < b.segments.len() && lists(b, k, n)) by {}
}

/// Segments stay apart when a tensor gets a further name.
pub proof fn law_alias_keeps_apart(
    b: BuilderView,
    first: u32,
    name: Seq<char>,
    tensor_id: u32,
    reason: Seq<char>,
)
    requires
        is_apart(b, first),
    ensures
        is_apart(with_alias(b, name, tensor_id, reason), first),
{
    let r = with_alias(b, name, tensor_id, reason);
    assert forall|k: int, n: u32| 0 <= k < r.segments.len() implies #[trigger] lists(r, k, n)
        == lists(b, k, n) by {}
}

/// Segment `k` holds `data` from `start` on, and the entry of tensor `i` says so.
pub open spec fn stored_at(b: BuilderView, k: int, i: int, start: int, data: Seq<u8>) -> bool {
    &&& 0 <= k < b.segments.len()
    &&& 0 <= i < b.tensors.len()
    &&& 0 <= start
    &&& start + data.len() <= b.segments[k].payload.len()
    &&& b.segments[k].payload.subrange(start, start + data.len()) == data
    &&& lists(b, k, b.tensors[i].id)
    &&& b.tensors[i].segment == b.segments[k].id
    &&& b.tensors[i].offset == start as u64
    &&& b.tensors[i].byte_size == data.len() as u64
}

/// A segment of the image holds the data of tensor `i`.
pub open spec fn is_stored(b: BuilderView, i: int, data: Seq<u8>) -> bool {
    exists|k: int, start: int| stored_at(b, k, i, start, data)
}

/// A tensor that was added is stored with the data that it was added with.
pub proof fn law_added_tensor_is_stored(b: BuilderView, t: NewView, data: Seq<u8>)
    requires
        b.segments.len() > 0,
    ensures
        is_stored(with_tensor(b, t, data), b.tensors.len() as int, data),
{
    let r = with_tensor(b, t, data);
    let k = b.segments.len() - 1;
    let start = b.segments[k].payload.len() as int;
    assert(r.segments[k].payload.subrange(start, start + data.len()) =~= data);
    lemma_tensor_is_listed(b, t, data);
    assert(stored_at(r, k, b.tensors.len() as int, start, data));
}

/// A stored tensor stays stored, with the same data, when tensors are added.
pub proof fn law_stored_tensor_outlives_tensor(
    b: BuilderView,
    i: int,
    data: Seq<u8>,
    t: NewView,
    more: Seq<u8>,
)
    requires
        b.segments.len() > 0,
        is_stored(b, i, data),
    ensures
        is_stored(with_tensor(b, t, more), i, data),
{
    let (k, start) = choose|k: int, start: int| stored_at(b, k, i, start, data);
    let r = with_tensor(b, t, more);
    assert(r.segments[k].payload.subrange(start, start + data.len()) =~= data);
    lemma_tensor_is_listed(b, t, more);
    assert(lists(r, k, b.tensors[i].id));
    assert(stored_at(r, k, i, start, data));
}

/// A stored tensor stays stored when a segment is opened.
pub proof fn law_stored_tensor_outlives_segment(
    b: BuilderView,
    i: int,
    data: Seq<u8>,
    id: Seq<char>,
    kind: SegmentKind,
)
    requires
        is_stored(b, i, data),
    ensures
        is_stored(with_segment(b, id, kind), i, data),
{
    let (k, start) = choose|k: int, start: int| stored_at(b, k, i, start, data);
    assert(stored_at(with_segment(b, id, kind), k, i, start, data));
}

/// A stored tensor stays stored when a tensor gets a further name.
pub proof fn law_stored_tensor_outlives_alias(
    b: BuilderView,
    i: int,
    data: Seq<u8>,
    name: Seq<char>,
    tensor_id: u32,
    reason: Seq<char>,
)
    requires
        is_stored(b, i, data),
    ensures
        is_stored(with_alias(b, name, tensor_id, reason), i, data),
{
    let (k, start) = choose|k: int, start: int| stored_at(b, k, i, start, data);
    assert(stored_at(with_alias(b, name, tensor_id, reason), k, i, start, data));
}

/// What the entry of a stored tensor points at is the tensor's data, in a segment
/// with the name that the entry gives.
pub proof fn law_entry_finds_data(b: BuilderView, i: int, data: Seq<u8>)
    requires
        is_stored(b, i, data),
        forall|k: int|
            0 <= k < b.segments.len() ==> (#[trigger] b.segments[k]).payload.len() <= u64::MAX,
    ensures
        exists|k: int|
            0 <= k < b.segments.len() && (#[trigger] b.segments[k]).id == b.tensors[i].segment
                && b.tensors[i].offset + b.tensors[i].byte_size <= b.segments[k].payload.len()
                && b.segments[k].payload.subrange(
                b.tensors[i].offset as int,
                b.tensors[i].offset + b.tensors[i].byte_size,
            ) == data,
{
    let (k, start) = choose|k: int, start: int| stored_at(b, k, i, start, data);
    assert(b.segments[k].id == b.tensors[i].segment);
}

} // verus!
