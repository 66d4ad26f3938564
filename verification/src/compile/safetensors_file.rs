//! Reading of safetensors files.

use safetensors::tensor::Metadata;
use safetensors::{SafeTensorError, SafeTensors};
use vstd::prelude::*;
use vstd::string::*;

use crate::text;
use crate::wire;

verus! {

/// The error of the safetensors reader.
#[verifier::external_type_specification]
#[verifier::external_body]
pub struct ExSafeTensorError(SafeTensorError);

/// One tensor of a safetensors header: its name, the name of its element type,
/// its shape, and where its bytes stand in the data part of the file.
#[derive(Debug)]
pub struct TensorHeader {
    pub name: String,
    pub dtype: String,
    pub shape: Vec<usize>,
    pub start: usize,
    pub end: usize,
}

/// What a header says of a tensor besides its name.
pub struct TensorFacts {
    pub dtype: Seq<char>,
    pub shape: Seq<usize>,
    pub start: int,
    pub end: int,
}

impl TensorHeader {
    pub open spec fn facts(self) -> TensorFacts {
        TensorFacts {
            dtype: self.dtype@,
            shape: self.shape@,
            start: self.start as int,
            end: self.end as int,
        }
    }
}

/// The table that a list of headers makes up.
pub open spec fn table_of(headers: Seq<TensorHeader>) -> Map<Seq<char>, TensorFacts>
    decreases headers.len(),
{
    if headers.len() == 0 {
        Map::empty()
    } else {
        table_of(headers.drop_last()).insert(headers.last().name@, headers.last().facts())
    }
}

/// No two headers have the same name.
pub open spec fn distinct_names(headers: Seq<TensorHeader>) -> bool {
    forall|i: int, j: int|
        0 <= i < j < headers.len() ==> (#[trigger] headers[i]).name@ != (
        #[trigger] headers[j]).name@
}

/// A header of the list is in the table, under its name.
pub proof fn lemma_table_position(headers: Seq<TensorHeader>, k: int)
    requires
        distinct_names(headers),
        0 <= k < headers.len(),
    ensures
        table_of(headers).dom().contains(headers[k].name@),
        table_of(headers)[headers[k].name@] == headers[k].facts(),
    decreases headers.len(),
{
    let rest = headers.drop_last();
    if k < rest.len() {
        assert(distinct_names(rest));
        lemma_table_position(rest, k);
        assert(headers[k].name@ != headers[headers.len() - 1].name@);
    }
}

/// What is in the table is in the list.
pub proof fn lemma_table_names(headers: Seq<TensorHeader>, n: Seq<char>) -> (k: int)
    requires
        table_of(headers).dom().contains(n),
    ensures
        0 <= k < headers.len(),
        headers[k].name@ == n,
    decreases headers.len(),
{
    let last = headers.len() - 1;
    if headers[last].name@ == n {
        last
    } else {
        lemma_table_names(headers.drop_last(), n)
    }
}

// ---------------------------------------------------------------------------
// The sizes in a header
// ---------------------------------------------------------------------------

/// How long the header of a file is, by its first eight bytes.
pub open spec fn header_len(file: Seq<u8>) -> int {
    wire::le_value(file.take(8)) as int
}

/// The tensor table that a header spells out, whether or not the tensors lie
/// behind one another and have the sizes of their shapes; `None` where it spells
/// out none.
pub uninterp spec fn spelled_table(header: Seq<u8>) -> Option<Map<Seq<char>, TensorFacts>>;

/// Calls `serde_json::from_slice` for a `safetensors::tensor::Metadata` and lists
/// what `Metadata::tensors` gives back, in no particular order: the entries make up
/// the table that `spelled_table` names, each name once; the call fails exactly on
/// headers that spell out no table.
#[verifier::external_body]
fn spell_out(header: &[u8]) -> (r: Option<Vec<TensorHeader>>)
    ensures
        match r {
            Some(v) => spelled_table(header@) == Some(table_of(v@)) && distinct_names(v@),
            None => spelled_table(header@) is None,
        },
{
    let metadata: Metadata = serde_json::from_slice(header).ok()?;
    Some(metadata.tensors().into_iter().map(|(name, info)| TensorHeader {
        name,
        dtype: format!("{:?}", info.dtype),
        shape: info.shape.clone(),
        start: info.data_offsets.0,
        end: info.data_offsets.1,
    }).collect())
}

/// Whether the tensors of a table end early enough for a size to hold what
/// comes before them as well.
pub open spec fn ends_leave_room(table: Map<Seq<char>, TensorFacts>, before: int) -> bool {
    forall|n: Seq<char>| #[trigger]
        table.dom().contains(n) ==> before + table[n].end <= usize::MAX
}

/// Whether a size can hold what the header of a file says of the file: the header
/// with its length, and the tensors up to the end of each.
pub open spec fn is_measured(file: Seq<u8>) -> bool {
    let before = 8 + header_len(file);
    8 <= file.len() && before <= file.len() ==> (spelled_table(file.subrange(8, before)) matches Some(
        t,
    ) ==> ends_leave_room(t, before))
}

/// Whether a size can hold what the header of a file says of the file.
pub fn ends_fit(file: &[u8]) -> (r: bool)
    ensures
        r == is_measured(file@),
{
    if file.len() < 8 {
        return true;
    }
    let n: u64 = wire::read_le(file, 0, 8);
    assert(file@.subrange(0, 8) =~= file@.take(8));
    if n > (file.len() - 8) as u64 {
        return true;
    }
    let before: usize = 8 + n as usize;
    let headers: Vec<TensorHeader> = match spell_out(
        vstd::slice::slice_subrange(file, 8, before),
    ) {
        Some(v) => v,
        None => return true,
    };
    let mut i: usize = 0;
    while i < headers.len()
        invariant
            i <= headers@.len(),
            before <= file@.len(),
            distinct_names(headers@),
            is_measured(file@) == ends_leave_room(table_of(headers@), before as int),
            forall|k: int| 0 <= k < i ==> before + (#[trigger] headers@[k]).end <= usize::MAX,
        decreases headers@.len() - i,
    {
        if headers[i].end > usize::MAX - before {
            proof {
                lemma_table_position(headers@, i as int);
            }
            return false;
        }
        i = i + 1;
    }
    proof {
        let t = table_of(headers@);
        assert forall|n: Seq<char>| #[trigger] t.dom().contains(n) implies before + t[n].end
            <= usize::MAX by {
            let k = lemma_table_names(headers@, n);
            lemma_table_position(headers@, k);
        }
    }
    true
}

// ---------------------------------------------------------------------------
// The reader
// ---------------------------------------------------------------------------

/// The tensor table in the header of a safetensors file; `None` where the file
/// has no valid header.
pub uninterp spec fn header_table(file: Seq<u8>) -> Option<Map<Seq<char>, TensorFacts>>;

/// Whether the bytes of a tensor lie in the file, behind the header.
pub open spec fn is_inside(t: TensorFacts, file: Seq<u8>) -> bool {
    0 <= t.start <= t.end && 8 + header_len(file) + t.end <= file.len()
}

/// The bytes of a tensor in a file.
pub open spec fn bytes_in(t: TensorFacts, file: Seq<u8>) -> Seq<u8> {
    file.subrange(8 + header_len(file) + t.start, 8 + header_len(file) + t.end)
}

/// Calls `safetensors::SafeTensors::read_metadata` and lists what
/// `Metadata::tensors` gives back, in no particular order: the entries make up
/// the table that `header_table` names, each name once, with byte ranges inside
/// the file; the call fails exactly on files without a valid header. It adds the
/// end of the last tensor to the length of the header, and panics where that
/// overflows: files with ends as large as that are left out.
#[verifier::external_body]
pub(crate) fn read_headers(file: &[u8]) -> (r: Result<Vec<TensorHeader>, SafeTensorError>)
    requires
        is_measured(file@),
    ensures
        match r {
            Ok(v) => header_table(file@) == Some(table_of(v@)) && distinct_names(v@) && forall|
                i: int,
            |
                0 <= i < v@.len() ==> is_inside((#[trigger] v@[i]).facts(), file@),
            Err(_) => header_table(file@) is None,
        },
{
    let (_, metadata) = SafeTensors::read_metadata(file)?;
    Ok(metadata.tensors().into_iter().map(|(name, info)| TensorHeader {
        name,
        dtype: format!("{:?}", info.dtype),
        shape: info.shape.clone(),
        start: info.data_offsets.0,
        end: info.data_offsets.1,
    }).collect())
}

/// Calls `safetensors::SafeTensors::deserialize` and `SafeTensors::tensor`: the
/// element type's name and the bytes of the tensor, as the table that
/// `header_table` names has them, or `None` where the table has no such tensor. The
/// call fails exactly on files without a valid header. As with the headers alone,
/// it would panic where the end of the last tensor and the length of the header
/// overflow together.
#[verifier::external_body]
pub(crate) fn find_tensor(file: &[u8], key: &str) -> (r: Result<
    Option<(String, Vec<u8>)>,
    SafeTensorError,
>)
    requires
        is_measured(file@),
    ensures
        match r {
            Ok(Some(t)) => header_table(file@) matches Some(m) && m.dom().contains(key@)
                && is_inside(m[key@], file@) && t.0@ == m[key@].dtype && t.1@ == bytes_in(
                m[key@],
                file@,
            ),
            Ok(None) => header_table(file@) matches Some(m) && !m.dom().contains(key@),
            Err(_) => header_table(file@) is None,
        },
{
    let tensors = SafeTensors::deserialize(file)?;
    Ok(tensors.tensor(key).ok().map(|v| (format!("{:?}", v.dtype()), v.data().to_vec())))
}

/// Formats a `safetensors::SafeTensorError` with its `Debug` implementation.
/// Nothing is claimed of the text. It is not settled by the file: where several
/// tensors are at fault, the one that it names is the first in the order in which
/// a hash map was walked.
#[verifier::external_body]
pub(crate) fn error_text(e: &SafeTensorError) -> (r: String) {
    format!("{:?}", e)
}

/// Whether a text reports a bad file: it begins as given, and what the reader says
/// of the file follows. A tensor that ends too far out is reported as the end of a
/// file that is not there.
pub open spec fn is_report(report: Seq<char>, opening: Seq<char>, file: Seq<u8>) -> bool {
    &&& text::has_prefix(report, opening)
    &&& !is_measured(file) ==> report == opening + "MetadataIncompleteBuffer"@
}

/// The tensor table of a file; `None` where it has no valid header, or a tensor
/// in it ends too far out.
pub open spec fn tensor_table(file: Seq<u8>) -> Option<Map<Seq<char>, TensorFacts>> {
    if is_measured(file) {
        header_table(file)
    } else {
        None
    }
}

/// Lists the tensors of a file, or says what is wrong with it.
pub fn list_tensors(file: &[u8]) -> (r: Result<Vec<TensorHeader>, String>)
    ensures
        match r {
            Ok(v) => tensor_table(file@) == Some(table_of(v@)) && distinct_names(v@) && forall|
                i: int,
            |
                0 <= i < v@.len() ==> is_inside((#[trigger] v@[i]).facts(), file@),
            Err(e) => tensor_table(file@) is None && (!is_measured(file@) ==> e@
                == "MetadataIncompleteBuffer"@),
        },
{
    if !ends_fit(file) {
        return Err("MetadataIncompleteBuffer".to_owned());
    }
    match read_headers(file) {
        Ok(v) => Ok(v),
        Err(e) => Err(error_text(&e)),
    }
}

/// The element type and the bytes of a named tensor of a file: `None` where the
/// file has no tensor table, `Some(None)` where it has no such tensor.
pub open spec fn named_tensor(file: Seq<u8>, key: Seq<char>) -> Option<
    Option<(Seq<char>, Seq<u8>)>,
> {
    match tensor_table(file) {
        Some(m) => Some(
            if m.dom().contains(key) {
                Some((m[key].dtype, bytes_in(m[key], file)))
            } else {
                None
            },
        ),
        None => None,
    }
}

/// Looks a tensor up in a file, or says what is wrong with the file.
pub fn get_tensor(file: &[u8], key: &str) -> (r: Result<Option<(String, Vec<u8>)>, String>)
    ensures
        match r {
            Ok(Some(t)) => named_tensor(file@, key@) == Some(Some((t.0@, t.1@))),
            Ok(None) => named_tensor(file@, key@) == Some(None::<(Seq<char>, Seq<u8>)>),
            Err(e) => named_tensor(file@, key@) is None && (!is_measured(file@) ==> e@
                == "MetadataIncompleteBuffer"@),
        },
{
    if !ends_fit(file) {
        return Err("MetadataIncompleteBuffer".to_owned());
    }
    match find_tensor(file, key) {
        Ok(t) => Ok(t),
        Err(e) => Err(error_text(&e)),
    }
}

} // verus!
