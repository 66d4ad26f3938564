//! Recompilation against an earlier image: segments of which nothing changed are
//! kept, and what did change goes into new segments beside them.

use vstd::prelude::*;
use vstd::string::*;

use crate::digest;
use crate::digest::sha256_bytes;
use crate::image;
use crate::image::{BuilderView, DraftView, SegmentDraft};
use crate::manifest;
use crate::manifest::{AliasEntry, EntryView, Segment, SegmentView, TensorDiff, TensorEntry};
use crate::numeral;
use crate::order;
use crate::text;

use super::emission;
use super::receipt;

verus! {

// ---------------------------------------------------------------------------
// What is kept
// ---------------------------------------------------------------------------

/// The number above all that the entries use.
pub open spec fn first_free_id(entries: Seq<EntryView>) -> int
    decreases entries.len(),
{
    if entries.len() == 0 {
        0
    } else {
        let rest = first_free_id(entries.drop_last());
        if entries.last().id + 1 > rest {
            entries.last().id + 1
        } else {
            rest
        }
    }
}

proof fn lemma_free_id_grows(entries: Seq<EntryView>, k: int)
    requires
        0 <= k <= entries.len(),
    ensures
        first_free_id(entries.take(k)) <= first_free_id(entries),
    decreases entries.len() - k,
{
    if k < entries.len() {
        assert(entries.take(k + 1).drop_last() =~= entries.take(k));
        lemma_free_id_grows(entries, k + 1);
    } else {
        assert(entries.take(k) =~= entries);
    }
}

/// The first number that none of the entries uses and none is above.
pub fn start_tensor_id(entries: &Vec<TensorEntry>) -> (r: u32)
    requires
        first_free_id(manifest::entry_views(entries@)) <= u32::MAX,
    ensures
        r == first_free_id(manifest::entry_views(entries@)),
{
    let ghost views = manifest::entry_views(entries@);
    let mut r: u32 = 0;
    let mut i: usize = 0;
    while i < entries.len()
        invariant
            i <= entries@.len(),
            views == manifest::entry_views(entries@),
            views.len() == entries@.len(),
            first_free_id(views) <= u32::MAX,
            r == first_free_id(views.take(i as int)),
        decreases entries@.len() - i,
    {
        proof {
            assert(views.take(i + 1).drop_last() =~= views.take(i as int));
            assert(views.take(i + 1).last() == entries@[i as int]@);
            lemma_free_id_grows(views, i + 1);
        }
        if entries[i].id >= r {
            r = entries[i].id + 1;
        }
        i = i + 1;
    }
    assert(views.take(views.len() as int) =~= views);
    r
}

/// Tensors that are numbered from the first free number on share no number with
/// the entries.
pub proof fn law_new_ids_are_free(entries: Seq<EntryView>, i: int, id: int)
    requires
        0 <= i < entries.len(),
        id >= first_free_id(entries),
    ensures
        entries[i].id != id,
    decreases entries.len(),
{
    if i < entries.len() - 1 {
        law_new_ids_are_free(entries.drop_last(), i, id);
    }
}

pub proof fn lemma_first_free_is_natural(entries: Seq<EntryView>)
    ensures
        first_free_id(entries) >= 0,
    decreases entries.len(),
{
    if entries.len() > 0 {
        lemma_first_free_is_natural(entries.drop_last());
    }
}

/// The name of the first entry with that number.
pub open spec fn name_of_id(entries: Seq<EntryView>, id: u32) -> Option<Seq<char>>
    decreases entries.len(),
{
    if entries.len() == 0 {
        None
    } else if entries[0].id == id {
        Some(entries[0].name)
    } else {
        name_of_id(entries.drop_first(), id)
    }
}

/// Whether the tensor with that number is among the unchanged ones.
pub open spec fn is_id_kept(entries: Seq<EntryView>, unchanged: Seq<Seq<char>>, id: u32) -> bool {
    match name_of_id(entries, id) {
        Some(n) => unchanged.contains(n),
        None => false,
    }
}

/// Whether all tensors of a segment are among the unchanged ones.
pub open spec fn is_segment_kept(
    s: SegmentView,
    entries: Seq<EntryView>,
    unchanged: Seq<Seq<char>>,
) -> bool {
    forall|k: int|
        0 <= k < s.tensor_ids.len() ==> is_id_kept(entries, unchanged, #[trigger] s.tensor_ids[k])
}

/// Those segments all of whose tensors are unchanged.
pub open spec fn kept_segments(
    segments: Seq<SegmentView>,
    entries: Seq<EntryView>,
    unchanged: Seq<Seq<char>>,
) -> Seq<SegmentView>
    decreases segments.len(),
{
    if segments.len() == 0 {
        Seq::empty()
    } else {
        let rest = kept_segments(segments.drop_last(), entries, unchanged);
        if is_segment_kept(segments.last(), entries, unchanged) {
            rest.push(segments.last())
        } else {
            rest
        }
    }
}

fn id_is_kept(entries: &Vec<TensorEntry>, unchanged: &Vec<String>, id: u32) -> (r: bool)
    ensures
        r == is_id_kept(manifest::entry_views(entries@), order::views(unchanged@), id),
{
    let ghost views = manifest::entry_views(entries@);
    let mut i: usize = 0;
    assert(views.skip(0) =~= views);
    while i < entries.len()
        invariant
            i <= entries@.len(),
            views == manifest::entry_views(entries@),
            name_of_id(views, id) == name_of_id(views.skip(i as int), id),
        decreases entries@.len() - i,
    {
        assert(views.skip(i as int)[0] == entries@[i as int]@);
        assert(views.skip(i as int).drop_first() =~= views.skip(i + 1));
        if entries[i].id == id {
            return emission::list_holds(unchanged, entries[i].name.as_str());
        }
        i = i + 1;
    }
    false
}

fn segment_is_kept(s: &Segment, entries: &Vec<TensorEntry>, unchanged: &Vec<String>) -> (r: bool)
    ensures
        r == is_segment_kept(s@, manifest::entry_views(entries@), order::views(unchanged@)),
{
    let mut k: usize = 0;
    while k < s.tensor_ids.len()
        invariant
            k <= s.tensor_ids@.len(),
            forall|j: int|
                0 <= j < k ==> is_id_kept(
                    manifest::entry_views(entries@),
                    order::views(unchanged@),
                    #[trigger] s.tensor_ids@[j],
                ),
        decreases s.tensor_ids@.len() - k,
    {
        if !id_is_kept(entries, unchanged, s.tensor_ids[k]) {
            assert(!is_id_kept(
                manifest::entry_views(entries@),
                order::views(unchanged@),
                s@.tensor_ids[k as int],
            ));
            return false;
        }
        k = k + 1;
    }
    true
}

/// The segments that are kept: those all of whose tensors are unchanged.
pub fn keep_segments(
    segments: &Vec<Segment>,
    entries: &Vec<TensorEntry>,
    unchanged: &Vec<String>,
) -> (r: Vec<Segment>)
    ensures
        manifest::segment_views(r@) == kept_segments(
            manifest::segment_views(segments@),
            manifest::entry_views(entries@),
            order::views(unchanged@),
        ),
{
    let ghost views = manifest::segment_views(segments@);
    let ghost table = manifest::entry_views(entries@);
    let ghost names = order::views(unchanged@);
    let mut r: Vec<Segment> = Vec::new();
    let mut i: usize = 0;
    while i < segments.len()
        invariant
            i <= segments@.len(),
            views == manifest::segment_views(segments@),
            table == manifest::entry_views(entries@),
            names == order::views(unchanged@),
            manifest::segment_views(r@) =~= kept_segments(views.take(i as int), table, names),
        decreases segments@.len() - i,
    {
        proof {
            assert(views.take(i + 1).drop_last() =~= views.take(i as int));
            assert(views.take(i + 1).last() == segments@[i as int]@);
        }
        if segment_is_kept(&segments[i], entries, unchanged) {
            r.push(segments[i].copy());
        }
        i = i + 1;
    }
    assert(views.take(views.len() as int) =~= views);
    r
}

/// The names of the tensors that have to be compiled: the changed ones, then the
/// new ones.
pub fn names_to_compile(d: &TensorDiff) -> (r: Vec<String>)
    ensures
        order::views(r@) == order::views(d.changed@) + order::views(d.new@),
{
    let mut r: Vec<String> = Vec::new();
    let ghost want = order::views(d.changed@) + order::views(d.new@);
    let mut i: usize = 0;
    while i < d.changed.len()
        invariant
            i <= d.changed@.len(),
            order::views(r@) =~= order::views(d.changed@).take(i as int),
        decreases d.changed@.len() - i,
    {
        let ghost before = order::views(r@);
        r.push(d.changed[i].clone());
        proof {
            let all = order::views(d.changed@);
            assert(order::views(r@) =~= before.push(all[i as int]));
            assert(all.take(i + 1) =~= all.take(i as int).push(all[i as int]));
        }
        i = i + 1;
    }
    let mut k: usize = 0;
    while k < d.new.len()
        invariant
            k <= d.new@.len(),
            order::views(r@) =~= order::views(d.changed@) + order::views(d.new@).take(k as int),
        decreases d.new@.len() - k,
    {
        let ghost before = order::views(r@);
        r.push(d.new[k].clone());
        proof {
            let all = order::views(d.new@);
            assert(order::views(r@) =~= before.push(all[k as int]));
            assert(all.take(k + 1) =~= all.take(k as int).push(all[k as int]));
        }
        k = k + 1;
    }
    assert(order::views(r@) =~= want);
    r
}

// ---------------------------------------------------------------------------
// Segment files
// ---------------------------------------------------------------------------

/// The number in the name of a segment file.
pub open spec fn file_number(filename: Seq<char>) -> Option<nat> {
    if text::has_prefix(filename, "segment_"@) {
        let rest = filename.skip(8);
        if text::has_suffix(rest, ".bin"@) {
            numeral::numeral_value(rest.take(rest.len() - 4), usize::MAX as nat)
        } else {
            None
        }
    } else {
        None
    }
}

/// The number in the name of a segment file.
pub fn parse_file_number(filename: &str) -> (r: Option<usize>)
    ensures
        match r {
            Some(n) => file_number(filename@) == Some(n as nat),
            None => file_number(filename@) is None,
        },
{
    proof {
        reveal_strlit("segment_");
        reveal_strlit(".bin");
    }
    if !text::starts_with(filename, "segment_") {
        return None;
    }
    let len: usize = filename.unicode_len();
    let rest: &str = filename.substring_char(8, len);
    assert(rest@ =~= filename@.skip(8));
    if !text::ends_with(rest, ".bin") {
        return None;
    }
    let middle: &str = rest.substring_char(0, len - 12);
    assert(middle@ =~= rest@.take(rest@.len() - 4));
    match numeral::parse_numeral(middle, usize::MAX as u64) {
        Some(n) => Some(n as usize),
        None => None,
    }
}

/// The number above those in the names of the segments' files.
pub open spec fn first_free_file(segments: Seq<SegmentView>) -> nat
    decreases segments.len(),
{
    if segments.len() == 0 {
        0
    } else {
        let rest = first_free_file(segments.drop_last());
        match file_number(segments.last().filename) {
            Some(n) => if n + 1 > rest {
                n + 1
            } else {
                rest
            },
            None => rest,
        }
    }
}

proof fn lemma_free_file_grows(segments: Seq<SegmentView>, k: int)
    requires
        0 <= k <= segments.len(),
    ensures
        first_free_file(segments.take(k)) <= first_free_file(segments),
    decreases segments.len() - k,
{
    if k < segments.len() {
        assert(segments.take(k + 1).drop_last() =~= segments.take(k));
        lemma_free_file_grows(segments, k + 1);
    } else {
        assert(segments.take(k) =~= segments);
    }
}

/// The number above those in the names of the segments' files.
pub fn next_file_number(segments: &Vec<Segment>) -> (r: usize)
    requires
        first_free_file(manifest::segment_views(segments@)) <= usize::MAX,
    ensures
        r == first_free_file(manifest::segment_views(segments@)),
{
    let ghost views = manifest::segment_views(segments@);
    let mut r: usize = 0;
    let mut i: usize = 0;
    while i < segments.len()
        invariant
            i <= segments@.len(),
            views == manifest::segment_views(segments@),
            views.len() == segments@.len(),
            first_free_file(views) <= usize::MAX,
            r == first_free_file(views.take(i as int)),
        decreases segments@.len() - i,
    {
        proof {
            assert(views.take(i + 1).drop_last() =~= views.take(i as int));
            assert(views.take(i + 1).last() == segments@[i as int]@);
            lemma_free_file_grows(views, i + 1);
        }
        if let Some(n) = parse_file_number(segments[i].filename.as_str()) {
            if n >= r {
                r = n + 1;
            }
        }
        i = i + 1;
    }
    assert(views.take(views.len() as int) =~= views);
    r
}

/// A number in at least three digits.
pub open spec fn three_digits(n: nat) -> Seq<char> {
    let d = text::decimal(n);
    if d.len() == 1 {
        seq!['0', '0'] + d
    } else if d.len() == 2 {
        seq!['0'] + d
    } else {
        d
    }
}

/// The name of the segment file with that number.
pub open spec fn file_name(n: nat) -> Seq<char> {
    "segment_"@ + three_digits(n) + ".bin"@
}

/// The name of the segment file with that number.
pub fn segment_filename(n: u64) -> (r: String)
    ensures
        r@ == file_name(n as nat),
{
    let mut r: String = "segment_".to_owned();
    let d: String = text::decimal_string(n);
    let len: usize = d.as_str().unicode_len();
    proof {
        reveal_strlit("0");
        reveal_strlit("00");
        assert("0"@ =~= seq!['0']);
        assert("00"@ =~= seq!['0', '0']);
    }
    if len == 1 {
        r.append("00");
    } else if len == 2 {
        r.append("0");
    }
    r.append(d.as_str());
    r.append(".bin");
    assert(r@ =~= file_name(n as nat));
    r
}

pub proof fn lemma_decimal_value(n: nat)
    ensures
        text::decimal(n).len() >= 1,
        forall|i: int| 0 <= i < text::decimal(n).len() ==> numeral::is_digit(#[trigger] text::decimal(n)[i]),
        numeral::digits_value(text::decimal(n)) == n,
    decreases n,
{
    let s = text::decimal(n);
    if n < 10 {
        assert(s.drop_last() =~= Seq::<char>::empty());
        assert(numeral::digits_value(s.drop_last()) == 0);
        assert(s.last() == text::digit_char(n));
    } else {
        lemma_decimal_value(n / 10);
        let t = text::decimal(n / 10);
        assert(s =~= t.push(text::digit_char(n % 10)));
        assert(s.drop_last() =~= t);
        assert forall|i: int| 0 <= i < s.len() implies numeral::is_digit(#[trigger] s[i]) by {
            if i < t.len() {
                assert(s[i] == t[i]);
            }
        }
    }
}

proof fn lemma_leading_zero(s: Seq<char>)
    requires
        forall|i: int| 0 <= i < s.len() ==> numeral::is_digit(#[trigger] s[i]),
    ensures
        numeral::digits_value(seq!['0'] + s) == numeral::digits_value(s),
        forall|i: int| 0 <= i < s.len() + 1 ==> numeral::is_digit(#[trigger] (seq!['0'] + s)[i]),
    decreases s.len(),
{
    let t = seq!['0'] + s;
    assert forall|i: int| 0 <= i < s.len() + 1 implies numeral::is_digit(#[trigger] t[i]) by {
        if i > 0 {
            assert(t[i] == s[i - 1]);
        }
    }
    if s.len() == 0 {
        assert(t.drop_last() =~= Seq::<char>::empty());
        assert(numeral::digits_value(t.drop_last()) == 0);
    } else {
        assert(t.drop_last() =~= seq!['0'] + s.drop_last());
        assert forall|i: int| 0 <= i < s.drop_last().len() implies numeral::is_digit(
            #[trigger] s.drop_last()[i],
        ) by {
            assert(s.drop_last()[i] == s[i]);
        }
        lemma_leading_zero(s.drop_last());
    }
}

/// The number in the name of a segment file is the one it was named by.
pub proof fn law_file_number_reads_back(n: nat)
    requires
        n <= usize::MAX,
    ensures
        file_number(file_name(n)) == Some(n),
{
    let d = text::decimal(n);
    lemma_decimal_value(n);
    let t = three_digits(n);
    if d.len() == 1 {
        lemma_leading_zero(d);
        lemma_leading_zero(seq!['0'] + d);
        assert(t =~= seq!['0'] + (seq!['0'] + d));
    } else if d.len() == 2 {
        lemma_leading_zero(d);
    }
    assert(numeral::digits_value(t) == n);
    assert(numeral::is_digit(t[0]));
    reveal_strlit("segment_");
    reveal_strlit(".bin");
    let f = file_name(n);
    assert(f.subrange(0, 8) =~= "segment_"@);
    let rest = f.skip(8);
    assert(rest =~= t + ".bin"@);
    assert(rest.subrange(rest.len() - 4, rest.len() as int) =~= ".bin"@);
    assert(rest.take(rest.len() - 4) =~= t);
}

proof fn lemma_file_below(segments: Seq<SegmentView>, i: int)
    requires
        0 <= i < segments.len(),
        file_number(segments[i].filename) is Some,
    ensures
        file_number(segments[i].filename)->0 < first_free_file(segments),
    decreases segments.len(),
{
    if i < segments.len() - 1 {
        lemma_file_below(segments.drop_last(), i);
    }
}

/// The file of a new segment is none of the files of the kept segments.
pub proof fn law_new_files_are_free(kept: Seq<SegmentView>, i: int, k: nat)
    requires
        0 <= i < kept.len(),
        first_free_file(kept) + k <= usize::MAX,
    ensures
        kept[i].filename != file_name(first_free_file(kept) + k),
{
    law_file_number_reads_back(first_free_file(kept) + k);
    if kept[i].filename == file_name(first_free_file(kept) + k) {
        lemma_file_below(kept, i);
    }
}

/// Different numbers name different files.
pub proof fn law_file_names_differ(m: nat, n: nat)
    requires
        m <= usize::MAX,
        n <= usize::MAX,
        m != n,
    ensures
        file_name(m) != file_name(n),
{
    law_file_number_reads_back(m);
    law_file_number_reads_back(n);
}

// ---------------------------------------------------------------------------
// The combined image
// ---------------------------------------------------------------------------

/// A finished segment, in the file with that number.
pub open spec fn finished(d: DraftView, n: nat) -> SegmentView {
    SegmentView {
        id: d.id,
        filename: file_name(n),
        byte_size: d.payload.len() as u64,
        sha256: digest::sha256_hex(d.payload),
        tensor_ids: d.tensor_ids,
        kind: d.kind,
        alignment_bytes: 1,
    }
}

/// Segments under construction, finished into files that are numbered from
/// `first` on.
pub open spec fn all_finished(drafts: Seq<DraftView>, first: nat) -> Seq<SegmentView> {
    Seq::new(drafts.len(), |i: int| finished(drafts[i], first + i as nat))
}

/// Finishes segments into files that are numbered from `first` on. Payloads are
/// packed without padding.
pub fn finish_segments(drafts: &Vec<SegmentDraft>, first: usize) -> (r: Vec<Segment>)
    requires
        first + drafts.len() <= usize::MAX,
    ensures
        manifest::segment_views(r@) == all_finished(image::draft_views(drafts@), first as nat),
{
    let ghost views = image::draft_views(drafts@);
    let mut r: Vec<Segment> = Vec::new();
    let mut i: usize = 0;
    while i < drafts.len()
        invariant
            i <= drafts@.len(),
            first + drafts.len() <= usize::MAX,
            views == image::draft_views(drafts@),
            r@.len() == i,
            forall|j: int|
                0 <= j < i ==> (#[trigger] r@[j])@ == finished(views[j], first as nat + j as nat),
        decreases drafts@.len() - i,
    {
        let d: &SegmentDraft = &drafts[i];
        let s: Segment = Segment {
            id: d.id.clone(),
            filename: segment_filename((first + i) as u64),
            byte_size: d.payload.len() as u64,
            sha256: sha256_bytes(d.payload.as_slice()),
            tensor_ids: crate::config::copy_dims(&d.tensor_ids),
            kind: d.kind,
            alignment_bytes: 1,
        };
        assert(s@ =~= finished(views[i as int], first as nat + i as nat));
        r.push(s);
        i = i + 1;
    }
    assert(manifest::segment_views(r@) =~= all_finished(views, first as nat));
    r
}

/// The file of the first segment that holds the tensor with that number.
pub open spec fn file_of_id(segments: Seq<SegmentView>, id: u32) -> Option<Seq<char>>
    decreases segments.len(),
{
    if segments.len() == 0 {
        None
    } else if segments[0].tensor_ids.contains(id) {
        Some(segments[0].filename)
    } else {
        file_of_id(segments.drop_first(), id)
    }
}

/// An entry with the file of the segment that holds its tensor.
pub open spec fn located(e: EntryView, segments: Seq<SegmentView>) -> EntryView {
    match file_of_id(segments, e.id) {
        Some(f) => EntryView { segment: f, ..e },
        None => e,
    }
}

/// Those entries whose tensors are unchanged.
pub open spec fn kept_entries(entries: Seq<EntryView>, unchanged: Seq<Seq<char>>) -> Seq<EntryView>
    decreases entries.len(),
{
    if entries.len() == 0 {
        Seq::empty()
    } else {
        let rest = kept_entries(entries.drop_last(), unchanged);
        if unchanged.contains(entries.last().name) {
            rest.push(entries.last())
        } else {
            rest
        }
    }
}

fn holds_id(ids: &Vec<u32>, id: u32) -> (r: bool)
    ensures
        r == ids@.contains(id),
{
    let mut i: usize = 0;
    while i < ids.len()
        invariant
            i <= ids@.len(),
            forall|j: int| 0 <= j < i ==> ids@[j] != id,
        decreases ids@.len() - i,
    {
        if ids[i] == id {
            return true;
        }
        i = i + 1;
    }
    false
}

fn find_file(segments: &Vec<Segment>, id: u32) -> (r: Option<String>)
    ensures
        match r {
            Some(f) => file_of_id(manifest::segment_views(segments@), id) == Some(f@),
            None => file_of_id(manifest::segment_views(segments@), id) is None,
        },
{
    let ghost views = manifest::segment_views(segments@);
    let mut i: usize = 0;
    assert(views.skip(0) =~= views);
    while i < segments.len()
        invariant
            i <= segments@.len(),
            views == manifest::segment_views(segments@),
            file_of_id(views, id) == file_of_id(views.skip(i as int), id),
        decreases segments@.len() - i,
    {
        assert(views.skip(i as int)[0] == segments@[i as int]@);
        assert(views.skip(i as int).drop_first() =~= views.skip(i + 1));
        if holds_id(&segments[i].tensor_ids, id) {
            return Some(segments[i].filename.clone());
        }
        i = i + 1;
    }
    None
}

/// An image made of kept and new segments.
#[derive(Debug)]
pub struct CombinedImage {
    pub segments: Vec<Segment>,
    pub tensor_table: Vec<TensorEntry>,
    pub alias_table: Vec<AliasEntry>,
    pub total_bytes: u64,
}

/// The segments of a combined image: the kept ones, then the new ones.
pub open spec fn combined_segments(kept: Seq<SegmentView>, drafts: Seq<DraftView>) -> Seq<SegmentView> {
    kept + all_finished(drafts, first_free_file(kept))
}

/// Combines the kept part of an earlier image with what was compiled anew.
pub fn combine_images(
    kept: Vec<Segment>,
    prev_entries: &Vec<TensorEntry>,
    prev_aliases: &Vec<AliasEntry>,
    unchanged: &Vec<String>,
    drafts: &Vec<SegmentDraft>,
    new_entries: &Vec<TensorEntry>,
    new_aliases: &Vec<AliasEntry>,
) -> (r: CombinedImage)
    requires
        first_free_file(manifest::segment_views(kept@)) + drafts@.len() <= usize::MAX,
        receipt::total_size(
            combined_segments(
                manifest::segment_views(kept@),
                image::draft_views(drafts@),
            ),
        ) <= u64::MAX,
    ensures
        ({
            let segments = combined_segments(
                manifest::segment_views(kept@),
                image::draft_views(drafts@),
            );
            &&& manifest::segment_views(r.segments@) == segments
            &&& manifest::entry_views(r.tensor_table@) == kept_entries(
                manifest::entry_views(prev_entries@),
                order::views(unchanged@),
            ) + manifest::entry_views(new_entries@).map_values(
                |e: EntryView| located(e, segments),
            )
            &&& manifest::alias_views(r.alias_table@) == manifest::alias_views(prev_aliases@)
                + manifest::alias_views(new_aliases@)
            &&& r.total_bytes == receipt::total_size(segments)
        }),
{
    let ghost kept_views = manifest::segment_views(kept@);
    let first: usize = next_file_number(&kept);
    let mut fresh: Vec<Segment> = finish_segments(drafts, first);
    let mut segments: Vec<Segment> = kept;
    let ghost fresh_views = manifest::segment_views(fresh@);
    segments.append(&mut fresh);
    let ghost all = combined_segments(kept_views, image::draft_views(drafts@));
    assert(manifest::segment_views(segments@) =~= all);
    let tensor_table: Vec<TensorEntry> = combine_entries(
        prev_entries,
        unchanged,
        new_entries,
        &segments,
    );
    let alias_table: Vec<AliasEntry> = combine_aliases(prev_aliases, new_aliases);
    let total_bytes: u64 = receipt::emitted_bytes(&segments);
    CombinedImage { segments, tensor_table, alias_table, total_bytes }
}

fn combine_entries(
    prev: &Vec<TensorEntry>,
    unchanged: &Vec<String>,
    new: &Vec<TensorEntry>,
    segments: &Vec<Segment>,
) -> (r: Vec<TensorEntry>)
    ensures
        manifest::entry_views(r@) == kept_entries(
            manifest::entry_views(prev@),
            order::views(unchanged@),
        ) + manifest::entry_views(new@).map_values(
            |e: EntryView| located(e, manifest::segment_views(segments@)),
        ),
{
    let ghost views = manifest::entry_views(prev@);
    let ghost names = order::views(unchanged@);
    let ghost all = manifest::segment_views(segments@);
    let ghost news = manifest::entry_views(new@);
    let ghost f = |e: EntryView| located(e, all);
    let mut r: Vec<TensorEntry> = Vec::new();
    let mut i: usize = 0;
    while i < prev.len()
        invariant
            i <= prev@.len(),
            views == manifest::entry_views(prev@),
            names == order::views(unchanged@),
            manifest::entry_views(r@) =~= kept_entries(views.take(i as int), names),
        decreases prev@.len() - i,
    {
        proof {
            assert(views.take(i + 1).drop_last() =~= views.take(i as int));
            assert(views.take(i + 1).last() == prev@[i as int]@);
        }
        if emission::list_holds(unchanged, prev[i].name.as_str()) {
            r.push(prev[i].copy());
        }
        i = i + 1;
    }
    assert(views.take(views.len() as int) =~= views);
    let ghost kept = kept_entries(views, names);
    let mut k: usize = 0;
    while k < new.len()
        invariant
            k <= new@.len(),
            news == manifest::entry_views(new@),
            news.len() == new@.len(),
            all == manifest::segment_views(segments@),
            f == (|e: EntryView| located(e, all)),
            manifest::entry_views(r@) =~= kept + news.take(k as int).map_values(f),
        decreases new@.len() - k,
    {
        let ghost before = manifest::entry_views(r@);
        let mut e: TensorEntry = new[k].copy();
        if let Some(file) = find_file(segments, e.id) {
            e.segment = file;
        }
        assert(e@ =~= located(news[k as int], all));
        r.push(e);
        proof {
            assert(manifest::entry_views(r@) =~= before.push(e@));
            assert(news.take(k + 1).map_values(f) =~= news.take(k as int).map_values(f).push(
                f(news[k as int]),
            ));
        }
        k = k + 1;
    }
    assert(news.take(news.len() as int) =~= news);
    r
}

fn combine_aliases(prev: &Vec<AliasEntry>, new: &Vec<AliasEntry>) -> (r: Vec<AliasEntry>)
    ensures
        manifest::alias_views(r@) == manifest::alias_views(prev@) + manifest::alias_views(new@),
{
    let ghost want = manifest::alias_views(prev@) + manifest::alias_views(new@);
    let mut r: Vec<AliasEntry> = Vec::new();
    let mut i: usize = 0;
    while i < prev.len()
        invariant
            i <= prev@.len(),
            manifest::alias_views(r@) =~= manifest::alias_views(prev@).take(i as int),
        decreases prev@.len() - i,
    {
        let ghost before = manifest::alias_views(r@);
        let a: AliasEntry = prev[i].copy();
        r.push(a);
        proof {
            let all = manifest::alias_views(prev@);
            assert(manifest::alias_views(r@) =~= before.push(a@));
            assert(all.take(i + 1) =~= all.take(i as int).push(all[i as int]));
        }
        i = i + 1;
    }
    let mut k: usize = 0;
    while k < new.len()
        invariant
            k <= new@.len(),
            manifest::alias_views(r@) =~= manifest::alias_views(prev@) + manifest::alias_views(
                new@,
            ).take(k as int),
        decreases new@.len() - k,
    {
        let ghost before = manifest::alias_views(r@);
        let a: AliasEntry = new[k].copy();
        r.push(a);
        proof {
            let all = manifest::alias_views(new@);
            assert(manifest::alias_views(r@) =~= before.push(a@));
            assert(all.take(k + 1) =~= all.take(k as int).push(all[k as int]));
        }
        k = k + 1;
    }
    assert(manifest::alias_views(r@) =~= want);
    r
}

// ---------------------------------------------------------------------------
// What a combined image holds
// ---------------------------------------------------------------------------

proof fn lemma_file_of_listed(segments: Seq<SegmentView>, n: int, id: u32)
    requires
        0 <= n < segments.len(),
        segments[n].tensor_ids.contains(id),
        forall|j: int| 0 <= j < n ==> !(#[trigger] segments[j]).tensor_ids.contains(id),
    ensures
        file_of_id(segments, id) == Some(segments[n].filename),
    decreases n,
{
    if n > 0 {
        let rest = segments.drop_first();
        assert(!segments[0].tensor_ids.contains(id));
        assert forall|j: int| 0 <= j < n - 1 implies !(#[trigger] rest[j]).tensor_ids.contains(
            id,
        ) by {
            assert(rest[j] == segments[j + 1]);
        }
        assert(rest[n - 1] == segments[n]);
        lemma_file_of_listed(rest, n - 1, id);
    }
}

/// The entry of a new tensor in a combined image names the file of a new segment,
/// and what it points at in that segment is the tensor's data. The kept segments
/// list only tensors with lower numbers.
pub proof fn law_new_entry_finds_data(
    kept: Seq<SegmentView>,
    b: BuilderView,
    first: u32,
    i: int,
    data: Seq<u8>,
)
    requires
        image::is_apart(b, first),
        image::is_stored(b, i, data),
        forall|k: int, id: u32|
            0 <= k < kept.len() && #[trigger] kept[k].tensor_ids.contains(id) ==> id < first,
        forall|k: int|
            0 <= k < b.segments.len() ==> (#[trigger] b.segments[k]).payload.len() <= u64::MAX,
    ensures
        ({
            let segments = combined_segments(kept, b.segments);
            let e = located(b.tensors[i], segments);
            exists|k: int|
                0 <= k < b.segments.len() && e.segment == (#[trigger] segments[kept.len()
                    + k]).filename && e.offset + e.byte_size <= b.segments[k].payload.len()
                    && b.segments[k].payload.subrange(e.offset as int, e.offset + e.byte_size)
                    == data
        }),
{
    let segments = combined_segments(kept, b.segments);
    let id = b.tensors[i].id;
    let (k, start) = choose|k: int, start: int| image::stored_at(b, k, i, start, data);
    let n = kept.len() + k;
    assert(image::lists(b, k, id));
    assert(segments[n].tensor_ids == b.segments[k].tensor_ids);
    assert forall|j: int| 0 <= j < n implies !(#[trigger] segments[j]).tensor_ids.contains(id) by {
        if j < kept.len() {
            assert(segments[j] == kept[j]);
        } else {
            let l = j - kept.len();
            assert(segments[j].tensor_ids == b.segments[l].tensor_ids);
            assert(!image::lists(b, l, id));
        }
    }
    lemma_file_of_listed(segments, n, id);
    assert(segments[kept.len() + k].filename == located(b.tensors[i], segments).segment);
}

proof fn lemma_named_id_is_used(entries: Seq<EntryView>, id: u32)
    requires
        name_of_id(entries, id) is Some,
    ensures
        exists|i: int| 0 <= i < entries.len() && (#[trigger] entries[i]).id == id,
    decreases entries.len(),
{
    if entries[0].id != id {
        let rest = entries.drop_first();
        lemma_named_id_is_used(rest, id);
        let i = choose|i: int| 0 <= i < rest.len() && (#[trigger] rest[i]).id == id;
        assert(entries[i + 1].id == id);
    }
}

/// The kept segments list only tensors with numbers below the first free one.
pub proof fn law_kept_numbers_are_used(
    segments: Seq<SegmentView>,
    entries: Seq<EntryView>,
    unchanged: Seq<Seq<char>>,
    k: int,
    id: u32,
)
    requires
        0 <= k < kept_segments(segments, entries, unchanged).len(),
        kept_segments(segments, entries, unchanged)[k].tensor_ids.contains(id),
    ensures
        id < first_free_id(entries),
    decreases segments.len(),
{
    let rest = kept_segments(segments.drop_last(), entries, unchanged);
    if k < rest.len() {
        law_kept_numbers_are_used(segments.drop_last(), entries, unchanged, k, id);
    } else {
        let ids = segments.last().tensor_ids;
        let j = choose|j: int| 0 <= j < ids.len() && ids[j] == id;
        assert(is_id_kept(entries, unchanged, ids[j]));
        lemma_named_id_is_used(entries, id);
        let i = choose|i: int| 0 <= i < entries.len() && (#[trigger] entries[i]).id == id;
        if id >= first_free_id(entries) {
            law_new_ids_are_free(entries, i, id as int);
        }
    }
}

/// A segment of an earlier image stays exactly where each tensor that it lists is still
/// there unchanged: the first entry with its number has a name on the list.
pub proof fn law_segment_stays_if_unchanged(
    segments: &Vec<Segment>,
    entries: &Vec<TensorEntry>,
    unchanged: &Vec<String>,
    r: Vec<Segment>,
    s: SegmentView,
)
    requires
        call_ensures(keep_segments, (segments, entries, unchanged), r),
    ensures
        manifest::segment_views(r@).contains(s) == (manifest::segment_views(segments@).contains(s)
            && forall|k: int|
            0 <= k < s.tensor_ids.len() ==> has_unchanged_name(
                manifest::entry_views(entries@),
                order::views(unchanged@),
                #[trigger] s.tensor_ids[k],
            )),
{
    let all = manifest::segment_views(segments@);
    let e = manifest::entry_views(entries@);
    let u = order::views(unchanged@);
    lemma_kept(all, e, u, s);
    assert forall|k: int| 0 <= k < s.tensor_ids.len() implies has_unchanged_name(
        e,
        u,
        #[trigger] s.tensor_ids[k],
    ) == is_id_kept(e, u, s.tensor_ids[k]) by {
        lemma_unchanged_name(e, u, s.tensor_ids[k]);
    }
}

/// Whether the first entry with a number has one of the names.
pub open spec fn has_unchanged_name(
    entries: Seq<EntryView>,
    unchanged: Seq<Seq<char>>,
    id: u32,
) -> bool {
    exists|i: int|
        0 <= i < entries.len() && (#[trigger] entries[i]).id == id && unchanged.contains(
            entries[i].name,
        ) && forall|j: int| 0 <= j < i ==> (#[trigger] entries[j]).id != id
}

proof fn lemma_unchanged_name(entries: Seq<EntryView>, unchanged: Seq<Seq<char>>, id: u32)
    ensures
        has_unchanged_name(entries, unchanged, id) == is_id_kept(entries, unchanged, id),
    decreases entries.len(),
{
    if entries.len() > 0 {
        let rest = entries.drop_first();
        lemma_unchanged_name(rest, unchanged, id);
        if entries[0].id == id {
            if has_unchanged_name(entries, unchanged, id) {
                let i = choose|i: int|
                    0 <= i < entries.len() && (#[trigger] entries[i]).id == id
                        && unchanged.contains(entries[i].name) && forall|j: int|
                        0 <= j < i ==> (#[trigger] entries[j]).id != id;
                if i > 0 {
                    assert(entries[0].id != id);
                }
            }
        } else {
            if has_unchanged_name(rest, unchanged, id) {
                let i = choose|i: int|
                    0 <= i < rest.len() && (#[trigger] rest[i]).id == id && unchanged.contains(
                        rest[i].name,
                    ) && forall|j: int| 0 <= j < i ==> (#[trigger] rest[j]).id != id;
                assert(entries[i + 1] == rest[i]);
                assert forall|j: int| 0 <= j < i + 1 implies (#[trigger] entries[j]).id != id by {
                    if j > 0 {
                        assert(rest[j - 1] == entries[j]);
                    }
                }
            }
            if has_unchanged_name(entries, unchanged, id) {
                let i = choose|i: int|
                    0 <= i < entries.len() && (#[trigger] entries[i]).id == id
                        && unchanged.contains(entries[i].name) && forall|j: int|
                        0 <= j < i ==> (#[trigger] entries[j]).id != id;
                assert(rest[i - 1] == entries[i]);
                assert forall|j: int| 0 <= j < i - 1 implies (#[trigger] rest[j]).id != id by {
                    assert(rest[j] == entries[j + 1]);
                }
            }
        }
    }
}

proof fn lemma_kept(
    segments: Seq<SegmentView>,
    entries: Seq<EntryView>,
    unchanged: Seq<Seq<char>>,
    s: SegmentView,
)
    ensures
        kept_segments(segments, entries, unchanged).contains(s) == (segments.contains(s)
            && is_segment_kept(s, entries, unchanged)),
    decreases segments.len(),
{
    if segments.len() > 0 {
        let rest = segments.drop_last();
        let last = segments.last();
        lemma_kept(rest, entries, unchanged, s);
        assert(segments =~= rest.push(last));
        lemma_push_has(rest, last, s);
        lemma_push_has(kept_segments(rest, entries, unchanged), last, s);
    }
}

proof fn lemma_push_has<A>(s: Seq<A>, x: A, n: A)
    ensures
        s.push(x).contains(n) == (s.contains(n) || n == x),
{
    let t = s.push(x);
    if t.contains(n) {
        let i = choose|i: int| 0 <= i < t.len() && t[i] == n;
        if i < s.len() {
            assert(s[i] == n);
        }
    }
    if s.contains(n) {
        let i = choose|i: int| 0 <= i < s.len() && s[i] == n;
        assert(t[i] == n);
    }
    assert(t[s.len() as int] == x);
}

/// The entries of an earlier image that stay are those with names on the list.
pub proof fn law_entry_stays_if_unchanged(
    entries: Seq<EntryView>,
    unchanged: Seq<Seq<char>>,
    e: EntryView,
)
    ensures
        kept_entries(entries, unchanged).contains(e) == (entries.contains(e)
            && unchanged.contains(e.name)),
        kept_entries(entries, unchanged).len() <= entries.len(),
    decreases entries.len(),
{
    if entries.len() > 0 {
        let rest = entries.drop_last();
        let last = entries.last();
        law_entry_stays_if_unchanged(rest, unchanged, e);
        assert(entries =~= rest.push(last));
        lemma_push_has(rest, last, e);
        lemma_push_has(kept_entries(rest, unchanged), last, e);
    }
}

/// A finished segment is its draft under the name of its number, with at least three
/// digits; its size and digest are those of the payload.
pub proof fn law_finished_segment_is_its_draft(
    drafts: &Vec<SegmentDraft>,
    first: usize,
    r: Vec<Segment>,
    i: int,
)
    requires
        call_ensures(finish_segments, (drafts, first), r),
        0 <= i < drafts@.len(),
        first + drafts@.len() <= usize::MAX,
        drafts@[i].payload@.len() <= u64::MAX,
    ensures
        r@.len() == drafts@.len(),
        r@[i].id@ == drafts@[i].id@,
        r@[i].kind == drafts@[i].kind,
        r@[i].tensor_ids@ == drafts@[i].tensor_ids@,
        r@[i].byte_size == drafts@[i].payload@.len(),
        r@[i].sha256@ == digest::sha256_hex(drafts@[i].payload@),
        ({
            let d = text::decimal((first + i) as nat);
            let zeros = if d.len() == 1 {
                seq!['0', '0']
            } else if d.len() == 2 {
                seq!['0']
            } else {
                Seq::empty()
            };
            r@[i].filename@ == "segment_"@ + (zeros + d) + ".bin"@
        }),
{
    let v = manifest::segment_views(r@);
    let f = all_finished(image::draft_views(drafts@), first as nat);
    assert(v == f);
    assert(f.len() == drafts@.len());
    assert(v[i] == r@[i]@);
    assert(image::draft_views(drafts@)[i] == drafts@[i]@);
    let d = text::decimal((first + i) as nat);
    assert(Seq::<char>::empty() + d =~= d);
}

} // verus!
