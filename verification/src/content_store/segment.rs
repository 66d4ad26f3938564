//! The writer of segments.
//!
//! Objects follow one another in the order in which they come in, each at an
//! offset that the alignment divides, with zeros in between.

use vstd::prelude::*;

use crate::integration::ContentHash;
use crate::wire;

verus! {

/// Where the objects of a segment lie.
#[derive(Debug)]
pub struct SegmentIndex {
    pub entries: Vec<SegmentIndexEntry>,
    pub index_offset: u64,
    pub index_length: u64,
}

impl Default for SegmentIndex {
    fn default() -> (r: Self)
        ensures
            r.entries@ == Seq::<SegmentIndexEntry>::empty(),
            r.index_offset == 0,
            r.index_length == 0,
    {
        SegmentIndex { entries: Vec::new(), index_offset: 0, index_length: 0 }
    }
}

/// Where an object lies.
#[derive(Debug)]
pub struct SegmentIndexEntry {
    pub object_id: String,
    pub segment_offset: u64,
    pub payload_bytes: u64,
    pub aligned_bytes: u64,
    pub content_hash: ContentHash,
}

/// An index entry in contracts.
#[verifier::ext_equal]
pub ghost struct IndexEntryView {
    pub object_id: Seq<char>,
    pub segment_offset: int,
    pub payload_bytes: int,
    pub aligned_bytes: int,
    pub content_hash: ContentHash,
}

impl SegmentIndexEntry {
    pub open spec fn view(&self) -> IndexEntryView {
        IndexEntryView {
            object_id: self.object_id@,
            segment_offset: self.segment_offset as int,
            payload_bytes: self.payload_bytes as int,
            aligned_bytes: self.aligned_bytes as int,
            content_hash: self.content_hash,
        }
    }
}

pub open spec fn index_entry_views(s: Seq<SegmentIndexEntry>) -> Seq<IndexEntryView> {
    s.map_values(|e: SegmentIndexEntry| e@)
}

/// What the writer says of an object that it took.
#[derive(Debug)]
pub struct SegmentWriteReceipt {
    pub object_id: String,
    pub segment_offset: u64,
    pub payload_bytes: u64,
    pub aligned_bytes: u64,
}

/// A segment that is being written.
#[derive(Debug)]
pub struct DeterministicSegmentWriter {
    buffer: Vec<u8>,
    alignment: u64,
    entries: Vec<SegmentIndexEntry>,
}

/// A writer in contracts.
#[verifier::ext_equal]
pub ghost struct WriterView {
    pub buffer: Seq<u8>,
    pub alignment: int,
    pub entries: Seq<IndexEntryView>,
}

/// The zeros that bring a length up to a multiple of the alignment.
pub open spec fn padding(len: int, alignment: int) -> int {
    if len % alignment == 0 {
        0
    } else {
        alignment - len % alignment
    }
}

/// The buffer with its padding.
pub open spec fn padded(buffer: Seq<u8>, alignment: int) -> Seq<u8> {
    buffer + Seq::new(padding(buffer.len() as int, alignment) as nat, |i: int| 0u8)
}

/// An object at the end of a buffer.
pub open spec fn entry_at(offset: int, data: Seq<u8>, id: Seq<char>, hash: ContentHash) -> IndexEntryView {
    IndexEntryView {
        object_id: id,
        segment_offset: offset,
        payload_bytes: data.len() as int,
        aligned_bytes: data.len() as int,
        content_hash: hash,
    }
}

/// The writer after one more object.
pub open spec fn appended(w: WriterView, data: Seq<u8>, id: Seq<char>, hash: ContentHash) -> WriterView {
    let start = padded(w.buffer, w.alignment);
    WriterView {
        buffer: start + data,
        alignment: w.alignment,
        entries: w.entries.push(entry_at(start.len() as int, data, id, hash)),
    }
}

/// Objects lie at multiples of the alignment, inside the buffer, and one ends
/// before the next begins.
pub open spec fn is_written(w: WriterView) -> bool {
    &&& 0 < w.alignment
    &&& forall|i: int|
        0 <= i < w.entries.len() ==> {
            &&& 0 <= (#[trigger] w.entries[i]).segment_offset
            &&& w.entries[i].segment_offset % w.alignment == 0
            &&& 0 <= w.entries[i].payload_bytes
            &&& w.entries[i].segment_offset + w.entries[i].payload_bytes <= w.buffer.len()
        }
    &&& forall|i: int, j: int|
        0 <= i < j < w.entries.len() ==> (#[trigger] w.entries[i]).segment_offset
            + w.entries[i].payload_bytes <= (#[trigger] w.entries[j]).segment_offset
}

proof fn lemma_padded_aligned(len: int, alignment: int)
    requires
        0 <= len,
        0 < alignment,
    ensures
        0 <= padding(len, alignment) < alignment,
        (len + padding(len, alignment)) % alignment == 0,
{
    let m = len % alignment;
    vstd::arithmetic::div_mod::lemma_mod_bound(len, alignment);
    if m != 0 {
        let q = len / alignment;
        vstd::arithmetic::div_mod::lemma_fundamental_div_mod(len, alignment);
        assert(len + padding(len, alignment) == alignment * (q + 1)) by (nonlinear_arith)
            requires
                len == alignment * q + m,
                padding(len, alignment) == alignment - m,
        ;
        vstd::arithmetic::div_mod::lemma_mod_multiples_basic(q + 1, alignment);
        assert((q + 1) * alignment == alignment * (q + 1)) by (nonlinear_arith);
    }
}

proof fn lemma_append_written(w: WriterView, data: Seq<u8>, id: Seq<char>, hash: ContentHash)
    requires
        is_written(w),
    ensures
        is_written(appended(w, data, id, hash)),
{
    let start = padded(w.buffer, w.alignment);
    let after = appended(w, data, id, hash);
    lemma_padded_aligned(w.buffer.len() as int, w.alignment);
    assert forall|i: int| 0 <= i < after.entries.len() implies {
        &&& 0 <= (#[trigger] after.entries[i]).segment_offset
        &&& after.entries[i].segment_offset % after.alignment == 0
        &&& 0 <= after.entries[i].payload_bytes
        &&& after.entries[i].segment_offset + after.entries[i].payload_bytes <= after.buffer.len()
    } by {
        if i < w.entries.len() {
            assert(after.entries[i] == w.entries[i]);
        }
    }
    assert forall|i: int, j: int| 0 <= i < j < after.entries.len() implies (
    #[trigger] after.entries[i]).segment_offset + after.entries[i].payload_bytes <= (
    #[trigger] after.entries[j]).segment_offset by {
        assert(after.entries[i] == w.entries[i]);
        if j < w.entries.len() {
            assert(after.entries[j] == w.entries[j]);
        }
    }
}

impl DeterministicSegmentWriter {
    pub closed spec fn view(&self) -> WriterView {
        WriterView {
            buffer: self.buffer@,
            alignment: self.alignment as int,
            entries: index_entry_views(self.entries@),
        }
    }

    pub open spec fn wf(&self) -> bool {
        is_written(self@)
    }

    /// An empty segment.
    pub fn new(alignment: u64) -> (r: Self)
        requires
            alignment > 0,
        ensures
            r.wf(),
            r@ == (WriterView {
                buffer: Seq::empty(),
                alignment: alignment as int,
                entries: Seq::empty(),
            }),
    {
        vstd::pervasive::runtime_assert(alignment > 0);
        let r: DeterministicSegmentWriter = DeterministicSegmentWriter {
            buffer: Vec::new(),
            alignment,
            entries: Vec::new(),
        };
        assert(r@.entries =~= Seq::<IndexEntryView>::empty());
        r
    }

    /// Adds an object at the next multiple of the alignment.
    pub fn append_object(&mut self, data: &[u8], object_id: &str, content_hash: ContentHash) -> (r:
        SegmentWriteReceipt)
        requires
            old(self).wf(),
            padded(old(self)@.buffer, old(self)@.alignment).len() + data@.len() <= usize::MAX,
        ensures
            final(self).wf(),
            final(self)@ == appended(old(self)@, data@, object_id@, content_hash),
            r.object_id@ == object_id@,
            r.segment_offset == padded(old(self)@.buffer, old(self)@.alignment).len(),
            r.payload_bytes == data@.len(),
            r.aligned_bytes == data@.len(),
    {
        let ghost before = self@;
        proof {
            lemma_append_written(before, data@, object_id@, content_hash);
        }
        self.pad_to_alignment();
        let offset: u64 = self.buffer.len() as u64;
        let payload_bytes: u64 = data.len() as u64;
        self.buffer.extend_from_slice(data);
        let aligned_bytes: u64 = self.buffer.len() as u64 - offset;
        let entry: SegmentIndexEntry = SegmentIndexEntry {
            object_id: object_id.to_owned(),
            segment_offset: offset,
            payload_bytes,
            aligned_bytes,
            content_hash,
        };
        let ghost view = entry@;
        self.entries.push(entry);
        assert(index_entry_views(self.entries@) =~= before.entries.push(view));
        assert(self@ =~= appended(before, data@, object_id@, content_hash));
        SegmentWriteReceipt {
            object_id: object_id.to_owned(),
            segment_offset: offset,
            payload_bytes,
            aligned_bytes,
        }
    }

    /// Brings the length up to a multiple of the alignment.
    pub fn pad_to_alignment(&mut self)
        requires
            old(self).wf(),
            padded(old(self)@.buffer, old(self)@.alignment).len() <= usize::MAX,
        ensures
            final(self).wf(),
            final(self)@ == (WriterView {
                buffer: padded(old(self)@.buffer, old(self)@.alignment),
                ..old(self)@
            }),
            final(self)@.buffer.len() % final(self)@.alignment as nat == 0,
    {
        let ghost before = self@;
        proof {
            lemma_padded_aligned(before.buffer.len() as int, before.alignment);
        }
        let misalignment: u64 = self.buffer.len() as u64 % self.alignment;
        if misalignment != 0 {
            let pad: u64 = self.alignment - misalignment;
            wire::push_zeros(&mut self.buffer, pad as usize);
        }
        assert(self@.buffer =~= padded(before.buffer, before.alignment));
    }

    /// The bytes of the segment, and where its objects lie.
    pub fn finalize(self) -> (r: (Vec<u8>, SegmentIndex))
        ensures
            r.0@ == self@.buffer,
            index_entry_views(r.1.entries@) == self@.entries,
            r.1.index_offset == 0,
            r.1.index_length == 0,
    {
        let index: SegmentIndex = SegmentIndex {
            entries: self.entries,
            index_offset: 0,
            index_length: 0,
        };
        (self.buffer, index)
    }

    /// The length so far.
    pub fn current_offset(&self) -> (r: u64)
        ensures
            r == self@.buffer.len(),
    {
        self.buffer.len() as u64
    }

    /// The objects so far.
    pub fn entry_count(&self) -> (r: usize)
        ensures
            r == self@.entries.len(),
    {
        self.entries.len()
    }
}

/// An object to be written.
pub ghost struct ObjectView {
    pub data: Seq<u8>,
    pub id: Seq<char>,
    pub hash: ContentHash,
}

/// A call that changes a segment.
pub ghost enum WriterCall {
    Append(ObjectView),
    Pad,
}

/// The writer after a call.
pub open spec fn after(w: WriterView, call: WriterCall) -> WriterView {
    match call {
        WriterCall::Append(o) => appended(w, o.data, o.id, o.hash),
        WriterCall::Pad => WriterView { buffer: padded(w.buffer, w.alignment), ..w },
    }
}

/// The segment that calls on an empty one come to.
pub open spec fn written(alignment: int, calls: Seq<WriterCall>) -> WriterView
    decreases calls.len(),
{
    if calls.len() == 0 {
        WriterView { buffer: Seq::empty(), alignment, entries: Seq::empty() }
    } else {
        after(written(alignment, calls.drop_last()), calls.last())
    }
}

/// Padding brings the length up to the least multiple of the alignment that is not
/// below it, with zeros behind the bytes that were there; the objects stay where
/// they lie. A second time it changes nothing.
pub proof fn law_padding_is_least(w: WriterView)
    requires
        0 < w.alignment,
    ensures
        ({
            let p = after(w, WriterCall::Pad);
            &&& p.buffer.len() % w.alignment as nat == 0
            &&& forall|n: int|
                w.buffer.len() <= n && #[trigger] (n % w.alignment) == 0 ==> p.buffer.len() <= n
            &&& w.buffer.len() <= p.buffer.len()
            &&& p.buffer.take(w.buffer.len() as int) == w.buffer
            &&& forall|i: int|
                w.buffer.len() <= i < p.buffer.len() ==> #[trigger] p.buffer[i] == 0
            &&& p.alignment == w.alignment
            &&& p.entries == w.entries
            &&& after(p, WriterCall::Pad) == p
        }),
{
    let p = after(w, WriterCall::Pad);
    let len = w.buffer.len() as int;
    let a = w.alignment;
    lemma_padded_aligned(len, a);
    assert(p.buffer.take(len) =~= w.buffer);
    assert(padded(p.buffer, a) =~= p.buffer);
    assert forall|n: int| len <= n && #[trigger] (n % a) == 0 implies p.buffer.len() <= n by {
        let total = len + padding(len, a);
        if n < total {
            vstd::arithmetic::div_mod::lemma_fundamental_div_mod(n, a);
            vstd::arithmetic::div_mod::lemma_fundamental_div_mod(total, a);
            assert(false) by (nonlinear_arith)
                requires
                    n == a * (n / a),
                    total == a * (total / a),
                    n < total < n + a,
                    0 < a,
            ;
        }
    }
}

/// The objects that calls write, in this order.
pub open spec fn objects_of(calls: Seq<WriterCall>) -> Seq<ObjectView>
    decreases calls.len(),
{
    if calls.len() == 0 {
        Seq::empty()
    } else {
        let rest = objects_of(calls.drop_last());
        match calls.last() {
            WriterCall::Append(o) => rest.push(o),
            WriterCall::Pad => rest,
        }
    }
}

/// Every object of a segment reads back from where its entry says that it lies,
/// at a multiple of the alignment and behind those that came before it, whatever
/// was written after it and wherever padding was asked for.
pub proof fn law_objects_read_back(alignment: int, calls: Seq<WriterCall>, i: int)
    requires
        0 < alignment,
        0 <= i < objects_of(calls).len(),
    ensures
        ({
            let w = written(alignment, calls);
            let o = objects_of(calls)[i];
            let e = w.entries[i];
            &&& w.entries.len() == objects_of(calls).len()
            &&& is_written(w)
            &&& e == entry_at(e.segment_offset, o.data, o.id, o.hash)
            &&& w.buffer.subrange(e.segment_offset, e.segment_offset + e.payload_bytes) == o.data
        }),
    decreases calls.len(),
{
    lemma_written(alignment, calls);
    let w = written(alignment, calls);
    let before = written(alignment, calls.drop_last());
    lemma_written(alignment, calls.drop_last());
    let e = w.entries[i];
    if i == objects_of(calls.drop_last()).len() {
        assert(w.buffer.subrange(e.segment_offset, e.segment_offset + e.payload_bytes)
            =~= objects_of(calls)[i].data);
    } else {
        law_objects_read_back(alignment, calls.drop_last(), i);
        assert(e == before.entries[i]);
        assert(w.buffer.subrange(e.segment_offset, e.segment_offset + e.payload_bytes)
            =~= before.buffer.subrange(e.segment_offset, e.segment_offset + e.payload_bytes));
    }
}

/// Whether a byte of a segment belongs to an object.
pub open spec fn is_covered(w: WriterView, p: int) -> bool {
    exists|i: int|
        0 <= i < w.entries.len() && (#[trigger] w.entries[i]).segment_offset <= p
            < w.entries[i].segment_offset + w.entries[i].payload_bytes
}

/// The bytes of a segment that belong to no object are zero.
pub proof fn law_other_bytes_are_zero(alignment: int, calls: Seq<WriterCall>, p: int)
    requires
        0 < alignment,
        0 <= p < written(alignment, calls).buffer.len(),
        !is_covered(written(alignment, calls), p),
    ensures
        written(alignment, calls).buffer[p] == 0,
    decreases calls.len(),
{
    let w = written(alignment, calls);
    let before = written(alignment, calls.drop_last());
    lemma_written(alignment, calls.drop_last());
    if p < before.buffer.len() {
        if is_covered(before, p) {
            let i = choose|i: int|
                0 <= i < before.entries.len() && (#[trigger] before.entries[i]).segment_offset <= p
                    < before.entries[i].segment_offset + before.entries[i].payload_bytes;
            assert(w.entries[i] == before.entries[i]);
        }
        law_other_bytes_are_zero(alignment, calls.drop_last(), p);
    } else if let WriterCall::Append(o) = calls.last() {
        let last = before.entries.len() as int;
        assert(w.entries[last].payload_bytes == o.data.len());
    }
}

/// Whether a finished segment is the one that calls come to.
pub open spec fn is_segment_of(
    segment: (Vec<u8>, SegmentIndex),
    alignment: int,
    calls: Seq<WriterCall>,
) -> bool {
    let w = written(alignment, calls);
    &&& segment.0@ == w.buffer
    &&& index_entry_views(segment.1.entries@) == w.entries
    &&& segment.1.index_offset == 0
    &&& segment.1.index_length == 0
}

/// What a writer that calls have been made on is finished into is the segment of
/// those calls.
pub proof fn law_finished_segment_is_of_its_calls(
    w: DeterministicSegmentWriter,
    segment: (Vec<u8>, SegmentIndex),
    alignment: int,
    calls: Seq<WriterCall>,
)
    requires
        w@ == written(alignment, calls),
        call_ensures(DeterministicSegmentWriter::finalize, (w,), segment),
    ensures
        is_segment_of(segment, alignment, calls),
{
}

/// The same calls come to the same segment.
pub proof fn law_equal_calls_give_equal_segments(
    a: (Vec<u8>, SegmentIndex),
    b: (Vec<u8>, SegmentIndex),
    alignment: int,
    calls: Seq<WriterCall>,
)
    requires
        is_segment_of(a, alignment, calls),
        is_segment_of(b, alignment, calls),
    ensures
        a.0@ == b.0@,
        index_entry_views(a.1.entries@) == index_entry_views(b.1.entries@),
        a.1.index_offset == b.1.index_offset,
        a.1.index_length == b.1.index_length,
{
}

proof fn lemma_written(alignment: int, calls: Seq<WriterCall>)
    requires
        0 < alignment,
    ensures
        is_written(written(alignment, calls)),
        written(alignment, calls).alignment == alignment,
        written(alignment, calls).entries.len() == objects_of(calls).len(),
    decreases calls.len(),
{
    if calls.len() > 0 {
        let before = written(alignment, calls.drop_last());
        lemma_written(alignment, calls.drop_last());
        match calls.last() {
            WriterCall::Append(o) => {
                lemma_append_written(before, o.data, o.id, o.hash);
            },
            WriterCall::Pad => {
                let w = written(alignment, calls);
                assert(w.entries == before.entries);
            },
        }
    }
}

} // verus!
