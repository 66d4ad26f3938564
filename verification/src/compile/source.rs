//! Source checkpoints: which tensors their shards hold, reading tensor data on
//! demand, and comparison with an earlier compilation.

use vstd::prelude::*;
use vstd::string::*;

use crate::digest;
use crate::digest::sha256_bytes;
use crate::manifest;
use crate::manifest::{ShardHash, TensorDiff, TensorEntry};
use crate::order;
use crate::table;
use crate::table::NameTable;
use crate::text;

use super::safetensors_file;
use super::safetensors_file::TensorHeader;

verus! {

// ---------------------------------------------------------------------------
// Source tensors
// ---------------------------------------------------------------------------

/// A tensor of a source checkpoint. Its data is empty until it is read.
///
/// `source_byte_size` is the size of the payload of a block-quantized tensor in
/// the source file, and zero where the size follows from shape and element type.
#[derive(Debug)]
pub struct SourceTensor {
    pub name: String,
    pub dtype: String,
    pub shape: Vec<u32>,
    pub data: Vec<u8>,
    pub source_filename: String,
    pub source_sha256: String,
    pub source_offset: u64,
    pub source_byte_size: u64,
}

#[verifier::ext_equal]
pub struct SourceView {
    pub name: Seq<char>,
    pub dtype: Seq<char>,
    pub shape: Seq<u32>,
    pub data: Seq<u8>,
    pub source_filename: Seq<char>,
    pub source_sha256: Seq<char>,
    pub source_offset: u64,
    pub source_byte_size: u64,
}

impl SourceTensor {
    pub open spec fn view(&self) -> SourceView {
        SourceView {
            name: self.name@,
            dtype: self.dtype@,
            shape: self.shape@,
            data: self.data@,
            source_filename: self.source_filename@,
            source_sha256: self.source_sha256@,
            source_offset: self.source_offset,
            source_byte_size: self.source_byte_size,
        }
    }
}

/// The tensors of a table, by name.
pub open spec fn source_views(t: Map<Seq<char>, SourceTensor>) -> Map<Seq<char>, SourceView> {
    t.map_values(|s: SourceTensor| s@)
}

/// What a comparison of two sources needs to know of a tensor: the digest of
/// the file that holds it and the size of its data.
#[derive(Debug)]
pub struct SourceTensorInfo {
    pub name: String,
    pub sha256: String,
    pub byte_size: u64,
}

#[verifier::ext_equal]
pub struct InfoView {
    pub name: Seq<char>,
    pub sha256: Seq<char>,
    pub byte_size: int,
}

impl SourceTensorInfo {
    pub open spec fn view(&self) -> InfoView {
        InfoView { name: self.name@, sha256: self.sha256@, byte_size: self.byte_size as int }
    }
}

/// The entries of a table, by name.
pub open spec fn info_views(t: Map<Seq<char>, SourceTensorInfo>) -> Map<Seq<char>, InfoView> {
    t.map_values(|s: SourceTensorInfo| s@)
}

// ---------------------------------------------------------------------------
// Digests of files beside the shards
// ---------------------------------------------------------------------------

/// The digest of a file, where the file is there.
pub fn optional_hash(filename: &str, content: &Option<Vec<u8>>) -> (r: Option<ShardHash>)
    ensures
        match (r, *content) {
            (Some(h), Some(bytes)) => h@ == (filename@, digest::sha256_hex(bytes@)),
            (None, None) => true,
            _ => false,
        },
{
    match content {
        Some(bytes) => Some(
            ShardHash { filename: filename.to_owned(), sha256: sha256_bytes(bytes.as_slice()) },
        ),
        None => None,
    }
}

/// A file that may or may not be there.
#[derive(Debug)]
pub struct SideFile {
    pub filename: String,
    pub content: Option<Vec<u8>>,
}

/// The digests of those files that are there, in their order.
pub open spec fn present_hashes(files: Seq<SideFile>) -> Seq<(Seq<char>, Seq<char>)>
    decreases files.len(),
{
    if files.len() == 0 {
        Seq::empty()
    } else {
        let rest = present_hashes(files.drop_last());
        match files.last().content {
            Some(bytes) => rest.push((files.last().filename@, digest::sha256_hex(bytes@))),
            None => rest,
        }
    }
}

/// The digests of those files that are there, in their order.
pub fn hash_present_files(files: &Vec<SideFile>) -> (r: Vec<ShardHash>)
    ensures
        manifest::hash_views(r@) == present_hashes(files@),
{
    let mut r: Vec<ShardHash> = Vec::new();
    let mut i: usize = 0;
    assert(manifest::hash_views(r@) =~= present_hashes(files@.take(0)));
    while i < files.len()
        invariant
            i <= files@.len(),
            manifest::hash_views(r@) == present_hashes(files@.take(i as int)),
        decreases files@.len() - i,
    {
        let ghost before = r@;
        if let Some(h) = optional_hash(files[i].filename.as_str(), &files[i].content) {
            r.push(h);
        }
        proof {
            assert(files@.take(i + 1).drop_last() =~= files@.take(i as int));
            assert(manifest::hash_views(r@) =~= present_hashes(files@.take(i + 1)));
        }
        i = i + 1;
    }
    assert(files@.take(files@.len() as int) =~= files@);
    r
}

/// The tokenizer files that belong to a checkpoint.
pub fn tokenizer_files() -> (r: Vec<String>)
    ensures
        order::views(r@) == seq!["tokenizer.json"@, "tokenizer_config.json"@],
{
    let mut r: Vec<String> = Vec::new();
    r.push("tokenizer.json".to_owned());
    r.push("tokenizer_config.json".to_owned());
    assert(order::views(r@) =~= seq!["tokenizer.json"@, "tokenizer_config.json"@]);
    r
}

/// The other files that belong to a checkpoint.
pub fn auxiliary_files() -> (r: Vec<String>)
    ensures
        order::views(r@) == seq![
            "generation_config.json"@,
            "processor_config.json"@,
            "chat_template.jinja"@,
            "README.md"@,
        ],
{
    let mut r: Vec<String> = Vec::new();
    r.push("generation_config.json".to_owned());
    r.push("processor_config.json".to_owned());
    r.push("chat_template.jinja".to_owned());
    r.push("README.md".to_owned());
    assert(order::views(r@) =~= seq![
        "generation_config.json"@,
        "processor_config.json"@,
        "chat_template.jinja"@,
        "README.md"@,
    ]);
    r
}

// ---------------------------------------------------------------------------
// Reading tensor data on demand
// ---------------------------------------------------------------------------

/// The size of an element of the named type.
pub open spec fn element_size(dtype: Seq<char>) -> Option<nat> {
    if dtype == "BF16"@ || dtype == "BFloat16"@ || dtype == "F16"@ || dtype == "Float16"@ {
        Some(2)
    } else if dtype == "F32"@ || dtype == "Float32"@ || dtype == "I32"@ || dtype == "Int32"@
        || dtype == "U32"@ || dtype == "Uint32"@ {
        Some(4)
    } else if dtype == "I8"@ || dtype == "Int8"@ || dtype == "U8"@ || dtype == "Uint8"@ {
        Some(1)
    } else {
        None
    }
}

fn element_bytes(dtype: &str) -> (r: Option<usize>)
    ensures
        match r {
            Some(n) => element_size(dtype@) == Some(n as nat) && 1 <= n <= 4,
            None => element_size(dtype@) is None,
        },
{
    if text::same_text(dtype, "BF16") || text::same_text(dtype, "BFloat16") || text::same_text(
        dtype,
        "F16",
    ) || text::same_text(dtype, "Float16") {
        Some(2)
    } else if text::same_text(dtype, "F32") || text::same_text(dtype, "Float32")
        || text::same_text(dtype, "I32") || text::same_text(dtype, "Int32") || text::same_text(
        dtype,
        "U32",
    ) || text::same_text(dtype, "Uint32") {
        Some(4)
    } else if text::same_text(dtype, "I8") || text::same_text(dtype, "Int8") || text::same_text(
        dtype,
        "U8",
    ) || text::same_text(dtype, "Uint8") {
        Some(1)
    } else {
        None
    }
}

/// The number of elements of a shape.
pub open spec fn element_count(shape: Seq<u32>) -> nat
    decreases shape.len(),
{
    if shape.len() == 0 {
        1
    } else {
        element_count(shape.drop_last()) * shape.last() as nat
    }
}

/// No product of leading dimensions leaves the range of `usize`.
pub open spec fn counts_fit(shape: Seq<u32>) -> bool {
    forall|k: int| 0 <= k <= shape.len() ==> #[trigger] element_count(shape.take(k)) <= usize::MAX
}

fn count_elements(shape: &Vec<u32>) -> (n: usize)
    requires
        counts_fit(shape@),
    ensures
        n == element_count(shape@),
{
    let mut n: usize = 1;
    let mut i: usize = 0;
    while i < shape.len()
        invariant
            i <= shape@.len(),
            counts_fit(shape@),
            n == element_count(shape@.take(i as int)),
        decreases shape@.len() - i,
    {
        proof {
            assert(shape@.take(i + 1).drop_last() =~= shape@.take(i as int));
            assert(element_count(shape@.take(i + 1)) <= usize::MAX);
            assert(element_count(shape@.take(i + 1)) == n * shape@[i as int]);
        }
        n = n * shape[i] as usize;
        i = i + 1;
    }
    assert(shape@.take(shape@.len() as int) =~= shape@);
    n
}

/// The `len` bytes of a file from `offset` on, as far as the file goes.
pub open spec fn window(file: Seq<u8>, offset: int, len: int) -> Seq<u8> {
    if offset < file.len() {
        file.subrange(
            offset,
            if offset + len <= file.len() {
                offset + len
            } else {
                file.len() as int
            },
        )
    } else {
        Seq::empty()
    }
}

/// Whether there is nothing to read for the tensor: its data is there, or it
/// has neither a place nor a shape.
pub open spec fn is_settled(t: SourceView) -> bool {
    t.data.len() > 0 || (t.source_offset == 0 && t.shape.len() == 0)
}

/// The size of the tensor's data in its source file.
pub open spec fn payload_size(t: SourceView) -> int {
    if t.source_byte_size > 0 {
        t.source_byte_size as int
    } else {
        (element_count(t.shape) * element_size(t.dtype)->0) as int
    }
}

/// The tensor after an attempt to read it from a file.
pub open spec fn read_from(t: SourceView, file: Seq<u8>) -> SourceView {
    if is_settled(t) {
        t
    } else {
        SourceView { data: window(file, t.source_offset as int, payload_size(t)), ..t }
    }
}

/// Whether the place and size of the tensor's data are known and fit in `usize`.
pub open spec fn is_readable(t: SourceView) -> bool {
    is_settled(t) || (t.source_byte_size == 0 ==> element_size(t.dtype) is Some && counts_fit(
        t.shape,
    )) && t.source_offset + payload_size(t) <= usize::MAX
}

fn try_count(shape: &Vec<u32>) -> (r: Option<usize>)
    ensures
        match r {
            Some(n) => counts_fit(shape@) && n == element_count(shape@),
            None => !counts_fit(shape@),
        },
{
    let mut n: usize = 1;
    let mut i: usize = 0;
    while i < shape.len()
        invariant
            i <= shape@.len(),
            n == element_count(shape@.take(i as int)),
            forall|k: int|
                0 <= k <= i ==> #[trigger] element_count(shape@.take(k)) <= usize::MAX,
        decreases shape@.len() - i,
    {
        proof {
            assert(shape@.take(i + 1).drop_last() =~= shape@.take(i as int));
            assert(element_count(shape@.take(i + 1)) == n * shape@[i as int]);
        }
        match n.checked_mul(shape[i] as usize) {
            Some(m) => {
                n = m;
            },
            None => {
                return None;
            },
        }
        i = i + 1;
    }
    assert(shape@.take(shape@.len() as int) =~= shape@);
    Some(n)
}

/// Whether the place and size of the tensor's data are known and fit in `usize`.
pub fn can_read(t: &SourceTensor) -> (r: bool)
    ensures
        r == is_readable(t@),
{
    if t.data.len() > 0 || (t.source_offset == 0 && t.shape.len() == 0) {
        return true;
    }
    let len: usize = if t.source_byte_size > 0 {
        if t.source_byte_size > usize::MAX as u64 {
            return false;
        }
        t.source_byte_size as usize
    } else {
        match (element_bytes(t.dtype.as_str()), try_count(&t.shape)) {
            (Some(elem), Some(n)) => match n.checked_mul(elem) {
                Some(len) => len,
                None => {
                    return false;
                },
            },
            _ => {
                return false;
            },
        }
    };
    t.source_offset <= (usize::MAX - len) as u64
}

fn copy_window(file: &[u8], offset: usize, len: usize) -> (r: Vec<u8>)
    requires
        offset + len <= usize::MAX,
    ensures
        r@ == window(file@, offset as int, len as int),
{
    let mut r: Vec<u8> = Vec::new();
    if offset < file.len() {
        let end: usize = if offset + len <= file.len() {
            offset + len
        } else {
            file.len()
        };
        let mut i: usize = offset;
        while i < end
            invariant
                offset <= i <= end <= file@.len(),
                r@ == file@.subrange(offset as int, i as int),
            decreases end - i,
        {
            r.push(file[i]);
            assert(file@.subrange(offset as int, i + 1) =~= file@.subrange(
                offset as int,
                i as int,
            ).push(file@[i as int]));
            i = i + 1;
        }
    }
    r
}

/// Reads the tensor's data from a mapped file, unless it is there already.
pub fn ensure_tensor_loaded(tensor: &mut SourceTensor, mmap: &[u8])
    requires
        is_readable(old(tensor)@),
    ensures
        final(tensor)@ == read_from(old(tensor)@, mmap@),
{
    if tensor.data.len() > 0 || (tensor.source_offset == 0 && tensor.shape.len() == 0) {
        return;
    }
    let len: usize = if tensor.source_byte_size > 0 {
        tensor.source_byte_size as usize
    } else {
        match element_bytes(tensor.dtype.as_str()) {
            Some(elem) => {
                let n: usize = count_elements(&tensor.shape);
                assert(n * elem == payload_size(tensor@));
                n * elem
            },
            None => 0,
        }
    };
    tensor.data = copy_window(mmap, tensor.source_offset as usize, len);
}

/// The contents of mapped files.
pub open spec fn contents(maps: Seq<&[u8]>) -> Seq<Seq<u8>> {
    maps.map_values(|m: &[u8]| m@)
}

/// The tensor after attempts to read it from one file after the other, up to
/// the first that gives data.
pub open spec fn read_from_first(t: SourceView, files: Seq<Seq<u8>>) -> SourceView
    decreases files.len(),
{
    if files.len() == 0 {
        t
    } else {
        let r = read_from_first(t, files.drop_last());
        if r.data.len() > 0 {
            r
        } else {
            read_from(r, files.last())
        }
    }
}

/// An attempt to read changes nothing but the data, and leaves the tensor
/// readable.
pub proof fn lemma_read_keeps(t: SourceView, files: Seq<Seq<u8>>)
    requires
        is_readable(t),
    ensures
        is_readable(read_from_first(t, files)),
        read_from_first(t, files) == (SourceView { data: read_from_first(t, files).data, ..t }),
    decreases files.len(),
{
    if files.len() > 0 {
        lemma_read_keeps(t, files.drop_last());
    }
}

/// Reads the tensor's data from the first of the mapped files that gives any.
pub fn load_from_maps(tensor: &mut SourceTensor, maps: &Vec<&[u8]>)
    requires
        maps@.len() > 0 ==> is_readable(old(tensor)@),
    ensures
        final(tensor)@ == read_from_first(old(tensor)@, contents(maps@)),
{
    let ghost start = tensor@;
    let ghost files = contents(maps@);
    let mut i: usize = 0;
    assert(files.len() == maps@.len());
    while i < maps.len()
        invariant
            i <= maps@.len(),
            files == contents(maps@),
            files.len() == maps@.len(),
            maps@.len() > 0 ==> is_readable(start),
            tensor@ == read_from_first(start, files.take(i as int)),
        decreases maps@.len() - i,
    {
        proof {
            lemma_read_keeps(start, files.take(i as int));
            assert(files.take(i + 1).drop_last() =~= files.take(i as int));
            assert(files.take(i + 1).last() == files[i as int]);
        }
        if tensor.data.len() == 0 {
            ensure_tensor_loaded(tensor, maps[i]);
        }
        i = i + 1;
    }
    assert(files.take(files.len() as int) =~= files);
}

/// The tensors after each has been read where its data was not there yet.
pub open spec fn all_read(t: Map<Seq<char>, SourceView>, files: Seq<Seq<u8>>) -> Map<
    Seq<char>,
    SourceView,
> {
    t.map_values(|s: SourceView| read_from_first(s, files))
}

/// Reads every tensor of the table whose data is not there yet.
pub fn load_all(tensors: &mut NameTable<SourceTensor>, maps: &Vec<&[u8]>)
    requires
        old(tensors).wf(),
        maps@.len() > 0 ==> forall|n: Seq<char>| #[trigger]
            old(tensors)@.dom().contains(n) ==> is_readable(old(tensors)@[n]@),
    ensures
        final(tensors).wf(),
        final(tensors).names@ == old(tensors).names@,
        source_views(final(tensors)@) == all_read(source_views(old(tensors)@), contents(maps@)),
{
    let ghost before = *tensors;
    let ghost files = contents(maps@);
    let mut i: usize = 0;
    while i < tensors.names.len()
        invariant
            before.wf(),
            tensors.wf(),
            tensors.names@ == before.names@,
            files == contents(maps@),
            i <= before.names@.len(),
            maps@.len() > 0 ==> forall|n: Seq<char>| #[trigger]
                before@.dom().contains(n) ==> is_readable(before@[n]@),
            forall|j: int|
                0 <= j < i ==> (#[trigger] tensors.values@[j])@ == read_from_first(
                    before.values@[j]@,
                    files,
                ),
            forall|j: int|
                i <= j < before.names@.len() ==> (#[trigger] tensors.values@[j])
                    == before.values@[j],
        decreases before.names@.len() - i,
    {
        proof {
            before.lemma_at(i as int);
        }
        let ghost now = tensors.values@;
        load_from_maps(&mut tensors.values[i], maps);
        assert(tensors.values@ == now.update(i as int, tensors.values@[i as int]));
        i = i + 1;
    }
    proof {
        let a = source_views(tensors@);
        let b = all_read(source_views(before@), files);
        assert forall|n: Seq<char>| #[trigger] a.dom().contains(n) implies a[n] == b[n] by {
            let k = crate::table::position_of(before.names@, n);
            assert(0 <= k < before.names@.len() && before.names@[k]@ == n);
            assert(tensors.values@[k]@ == read_from_first(before.values@[k]@, files));
        }
        assert(a =~= b);
    }
}

// ---------------------------------------------------------------------------
// The tensor table of a source
// ---------------------------------------------------------------------------

/// A shard of a checkpoint: where it was found, its file name and its bytes.
#[derive(Debug)]
pub struct ShardFile {
    pub path: String,
    pub filename: String,
    pub bytes: Vec<u8>,
}

/// What one shard contributes to the tensor table of its source.
pub open spec fn shard_infos(bytes: Seq<u8>) -> Map<Seq<char>, InfoView> {
    let t = safetensors_file::tensor_table(bytes)->0;
    Map::new(
        |n: Seq<char>| t.dom().contains(n),
        |n: Seq<char>|
            InfoView {
                name: n,
                sha256: digest::sha256_hex(bytes),
                byte_size: t[n].end - t[n].start,
            },
    )
}

/// The tensor table of a source: what its shards contribute, a later shard
/// taking precedence.
pub open spec fn source_table(shards: Seq<ShardFile>) -> Map<Seq<char>, InfoView>
    decreases shards.len(),
{
    if shards.len() == 0 {
        Map::empty()
    } else {
        source_table(shards.drop_last()).union_prefer_right(
            shard_infos(shards.last().bytes@),
        )
    }
}

/// Whether a shard has a valid header.
pub open spec fn has_header(shard: ShardFile) -> bool {
    safetensors_file::tensor_table(shard.bytes@) is Some
}

/// Whether the first shard without a valid header is at position `i`.
pub open spec fn first_without_header(shards: Seq<ShardFile>, i: int) -> bool {
    &&& 0 <= i < shards.len()
    &&& !has_header(shards[i])
    &&& forall|j: int| 0 <= j < i ==> has_header(#[trigger] shards[j])
}

/// How the report of an unreadable shard begins; what the reader says of the
/// file follows.
pub open spec fn bad_header_report(path: Seq<char>) -> Seq<char> {
    "bad safetensors header "@ + path + ": "@
}

fn bad_header(path: &str, detail: String) -> (r: String)
    ensures
        r@ == bad_header_report(path@) + detail@,
        text::has_prefix(r@, bad_header_report(path@)),
{
    let mut r: String = text::join3("bad safetensors header ", path, ": ");
    r.append(detail.as_str());
    proof {
        let p = bad_header_report(path@);
        assert(r@ =~= p + detail@);
        assert(r@.subrange(0, p.len() as int) =~= p);
    }
    r
}

/// Enters what one shard contributes into the table.
fn add_shard_infos(
    table: &mut NameTable<SourceTensorInfo>,
    headers: &Vec<TensorHeader>,
    sha256: &String,
    Ghost(bytes): Ghost<Seq<u8>>,
)
    requires
        old(table).wf(),
        safetensors_file::tensor_table(bytes) == Some(safetensors_file::table_of(headers@)),
        safetensors_file::distinct_names(headers@),
        forall|i: int|
            0 <= i < headers@.len() ==> (#[trigger] headers@[i]).start <= headers@[i].end,
        sha256@ == digest::sha256_hex(bytes),
    ensures
        final(table).wf(),
        info_views(final(table)@) == info_views(old(table)@).union_prefer_right(
            shard_infos(bytes),
        ),
{
    let ghost before = info_views(table@);
    let ghost added = shard_infos(bytes);
    let mut k: usize = 0;
    proof {
        assert(info_views(table@) =~= before);
    }
    while k < headers.len()
        invariant
            k <= headers@.len(),
            table.wf(),
            added == shard_infos(bytes),
            safetensors_file::tensor_table(bytes) == Some(safetensors_file::table_of(headers@)),
            safetensors_file::distinct_names(headers@),
            forall|i: int|
                0 <= i < headers@.len() ==> (#[trigger] headers@[i]).start <= headers@[i].end,
            sha256@ == digest::sha256_hex(bytes),
            forall|n: Seq<char>|
                #![trigger info_views(table@).dom().contains(n)]
                info_views(table@).dom().contains(n) <==> before.dom().contains(n) || exists|
                    i: int,
                |
                    0 <= i < k && (#[trigger] headers@[i]).name@ == n,
            forall|i: int|
                0 <= i < k ==> info_views(table@)[(#[trigger] headers@[i]).name@]
                    == added[headers@[i].name@],
            forall|n: Seq<char>| #[trigger]
                before.dom().contains(n) && (forall|i: int|
                    0 <= i < k ==> (#[trigger] headers@[i]).name@ != n) ==> info_views(table@)[n]
                    == before[n],
        decreases headers@.len() - k,
    {
        let h: &TensorHeader = &headers[k];
        let ghost prior = info_views(table@);
        let info: SourceTensorInfo = SourceTensorInfo {
            name: h.name.clone(),
            sha256: sha256.clone(),
            byte_size: (h.end - h.start) as u64,
        };
        table.insert(h.name.clone(), info);
        proof {
            safetensors_file::lemma_table_position(headers@, k as int);
            let n0 = headers@[k as int].name@;
            assert(info_views(table@) =~= prior.insert(n0, info@));
            assert(info@ == added[n0]);
            assert forall|n: Seq<char>|
                #![trigger info_views(table@).dom().contains(n)]
                info_views(table@).dom().contains(n) <==> before.dom().contains(n) || exists|
                    i: int,
                |
                    0 <= i < k + 1 && (#[trigger] headers@[i]).name@ == n by {
                assert(info_views(table@).dom().contains(n) <==> prior.dom().contains(n) || n
                    == n0);
                if n == n0 {
                    assert(headers@[k as int].name@ == n);
                }
            }
        }
        k = k + 1;
    }
    proof {
        let now = info_views(table@);
        let want = before.union_prefer_right(added);
        assert forall|n: Seq<char>| #[trigger] now.dom().contains(n) <==> want.dom().contains(n) by {
            if added.dom().contains(n) {
                let i = safetensors_file::lemma_table_names(headers@, n);
                assert(headers@[i].name@ == n);
            }
            if exists|i: int| 0 <= i < headers@.len() && (#[trigger] headers@[i]).name@ == n {
                let i = choose|i: int| 0 <= i < headers@.len() && (#[trigger] headers@[i]).name@ == n;
                safetensors_file::lemma_table_position(headers@, i);
            }
        }
        assert forall|n: Seq<char>| #[trigger] now.dom().contains(n) implies now[n] == want[n] by {
            if added.dom().contains(n) {
                let i = safetensors_file::lemma_table_names(headers@, n);
                assert(headers@[i].name@ == n);
            } else {
                assert forall|i: int| 0 <= i < headers@.len() implies (#[trigger] headers@[i]).name@
                    != n by {
                    safetensors_file::lemma_table_position(headers@, i);
                }
            }
        }
        assert(now =~= want);
    }
}

/// Lists the tensors of a source with the digest of the shard that holds them
/// and their size, from the headers of the shards alone.
pub fn load_source_tensor_table(shards: &Vec<ShardFile>) -> (r: Result<
    NameTable<SourceTensorInfo>,
    String,
>)
    ensures
        match r {
            Ok(t) => t.wf() && (forall|j: int|
                0 <= j < shards@.len() ==> has_header(#[trigger] shards@[j])) && info_views(t@)
                == source_table(shards@),
            Err(e) => exists|i: int| #[trigger]
                first_without_header(shards@, i) && safetensors_file::is_report(
                    e@,
                    bad_header_report(shards@[i].path@),
                    shards@[i].bytes@,
                ),
        },
{
    let mut table: NameTable<SourceTensorInfo> = NameTable::new();
    let mut i: usize = 0;
    proof {
        assert(info_views(table@) =~= source_table(shards@.take(0)));
    }
    while i < shards.len()
        invariant
            i <= shards@.len(),
            table.wf(),
            forall|j: int| 0 <= j < i ==> has_header(#[trigger] shards@[j]),
            info_views(table@) == source_table(shards@.take(i as int)),
        decreases shards@.len() - i,
    {
        let shard: &ShardFile = &shards[i];
        let sha256: String = sha256_bytes(shard.bytes.as_slice());
        match safetensors_file::list_tensors(shard.bytes.as_slice()) {
            Ok(headers) => {
                proof {
                    assert(shards@.take(i + 1).drop_last() =~= shards@.take(i as int));
                }
                add_shard_infos(&mut table, &headers, &sha256, Ghost(shard.bytes@));
            },
            Err(e) => {
                let report: String = bad_header(
                    shard.path.as_str(),
                    e,
                );
                assert(first_without_header(shards@, i as int));
                return Err(report);
            },
        }
        i = i + 1;
    }
    assert(shards@.take(shards@.len() as int) =~= shards@);
    Ok(table)
}

// ---------------------------------------------------------------------------
// The tensors of a source
// ---------------------------------------------------------------------------

/// Whether a shard lists a tensor of that name.
pub open spec fn has_tensor(shard: ShardFile, n: Seq<char>) -> bool {
    safetensors_file::tensor_table(shard.bytes@)->0.dom().contains(n)
}

/// The tensors of one shard, with their data still to be read.
pub open spec fn shard_tensors(shard: ShardFile) -> Map<Seq<char>, SourceView> {
    let t = safetensors_file::tensor_table(shard.bytes@)->0;
    Map::new(
        |n: Seq<char>| t.dom().contains(n),
        |n: Seq<char>|
            SourceView {
                name: n,
                dtype: t[n].dtype,
                shape: t[n].shape.map_values(|d: usize| #[verifier::truncate] (d as u32)),
                data: Seq::empty(),
                source_filename: shard.filename@,
                source_sha256: digest::sha256_hex(shard.bytes@),
                source_offset: t[n].start as u64,
                source_byte_size: 0,
            },
    )
}

/// The tensors of all shards together.
pub open spec fn all_tensors(shards: Seq<ShardFile>) -> Map<Seq<char>, SourceView>
    decreases shards.len(),
{
    if shards.len() == 0 {
        Map::empty()
    } else {
        all_tensors(shards.drop_last()).union_prefer_right(shard_tensors(shards.last()))
    }
}

/// Whether a shard in front of position `i` lists a tensor of that name.
pub open spec fn in_earlier(shards: Seq<ShardFile>, i: int, n: Seq<char>) -> bool {
    exists|j: int| 0 <= j < i && has_tensor(#[trigger] shards[j], n)
}

/// The names of the tensors in the shards in front of position `i`.
pub open spec fn earlier_names(shards: Seq<ShardFile>, i: int) -> Set<Seq<char>> {
    Set::new(|n: Seq<char>| in_earlier(shards, i, n))
}

/// The first `i` shards have valid headers, and no name stands in two of them.
pub open spec fn sound_through(shards: Seq<ShardFile>, i: int) -> bool {
    &&& forall|j: int| 0 <= j < i ==> has_header(#[trigger] shards[j])
    &&& forall|j: int, n: Seq<char>|
        0 <= j < i && #[trigger] has_tensor(shards[j], n) ==> !in_earlier(shards, j, n)
}

/// Whether `m` is listed in front of `n`: in an earlier shard, or in the same
/// shard and smaller.
pub open spec fn listed_before(shards: Seq<ShardFile>, m: Seq<char>, n: Seq<char>) -> bool {
    exists|i: int, j: int|
        0 <= i <= j < shards.len() && #[trigger] has_tensor(shards[i], m)
            && #[trigger] has_tensor(shards[j], n) && (i < j || order::precedes(m, n))
}

/// Whether `n` is the smallest name of the shard that is in the set.
pub open spec fn is_first_clash(taken: Set<Seq<char>>, shard: ShardFile, n: Seq<char>) -> bool {
    &&& has_tensor(shard, n)
    &&& taken.contains(n)
    &&& forall|m: Seq<char>| #[trigger]
        has_tensor(shard, m) && taken.contains(m) ==> !order::precedes(m, n)
}

/// The report of a name that stands in two shards.
pub open spec fn duplicate_report(n: Seq<char>) -> Seq<char> {
    "duplicate tensor name: "@ + n
}

fn short_shape(shape: &Vec<usize>) -> (r: Vec<u32>)
    ensures
        r@ == shape@.map_values(|d: usize| #[verifier::truncate] (d as u32)),
{
    let mut r: Vec<u32> = Vec::new();
    let ghost f = |d: usize| #[verifier::truncate] (d as u32);
    let mut i: usize = 0;
    while i < shape.len()
        invariant
            i <= shape@.len(),
            f == (|d: usize| #[verifier::truncate] (d as u32)),
            r@ =~= shape@.take(i as int).map_values(f),
        decreases shape@.len() - i,
    {
        let d: usize = shape[i];
        r.push(#[verifier::truncate] (d as u32));
        assert(shape@.take(i + 1).map_values(f) =~= shape@.take(i as int).map_values(f).push(
            f(shape@[i as int]),
        ));
        i = i + 1;
    }
    assert(shape@.take(shape@.len() as int) =~= shape@);
    r
}

fn header_names(headers: &Vec<TensorHeader>) -> (r: Vec<String>)
    ensures
        r@.len() == headers@.len(),
        forall|i: int| 0 <= i < headers@.len() ==> (#[trigger] r@[i])@ == headers@[i].name@,
{
    let mut r: Vec<String> = Vec::new();
    let mut i: usize = 0;
    while i < headers.len()
        invariant
            i <= headers@.len(),
            r@.len() == i,
            forall|j: int| 0 <= j < i ==> (#[trigger] r@[j])@ == headers@[j].name@,
        decreases headers@.len() - i,
    {
        r.push(headers[i].name.clone());
        i = i + 1;
    }
    r
}

/// Enters the tensors of one shard into the table, in the order of their names.
fn add_shard_tensors(
    tensors: &mut NameTable<SourceTensor>,
    shard: &ShardFile,
    headers: &Vec<TensorHeader>,
    sha256: &String,
) -> (r: Result<(), String>)
    requires
        old(tensors).wf(),
        safetensors_file::tensor_table(shard.bytes@) == Some(
            safetensors_file::table_of(headers@),
        ),
        safetensors_file::distinct_names(headers@),
        sha256@ == digest::sha256_hex(shard.bytes@),
    ensures
        match r {
            Ok(_) => {
                &&& final(tensors).wf()
                &&& forall|n: Seq<char>| #[trigger]
                    has_tensor(*shard, n) ==> !old(tensors)@.dom().contains(n)
                &&& source_views(final(tensors)@) == source_views(
                    old(tensors)@,
                ).union_prefer_right(shard_tensors(*shard))
                &&& old(tensors).names@.len() <= final(tensors).names@.len()
                &&& forall|a: int|
                    0 <= a < old(tensors).names@.len() ==> (#[trigger] final(tensors).names@[a])
                        == old(tensors).names@[a]
                &&& forall|a: int|
                    old(tensors).names@.len() <= a < final(tensors).names@.len() ==> has_tensor(
                        *shard,
                        (#[trigger] final(tensors).names@[a])@,
                    )
                &&& forall|a: int, b: int|
                    old(tensors).names@.len() <= a < b < final(tensors).names@.len()
                        ==> order::precedes(
                        (#[trigger] final(tensors).names@[a])@,
                        (#[trigger] final(tensors).names@[b])@,
                    )
            },
            Err(e) => exists|n: Seq<char>| #[trigger]
                is_first_clash(old(tensors)@.dom(), *shard, n) && e@ == duplicate_report(n),
        },
{
    let ghost before = *tensors;
    let ghost start = source_views(tensors@);
    let ghost added = shard_tensors(*shard);
    let ghost base = tensors.names@.len() as int;
    let names: Vec<String> = header_names(headers);
    let sorted: Vec<usize> = order::sorted_order(&names);
    let ghost keys = order::views(names@);
    assert(keys.len() == headers@.len());
    assert forall|i: int| 0 <= i < keys.len() implies #[trigger] keys[i] == headers@[i].name@ by {
        assert(names@[i]@ == headers@[i].name@);
    }
    let mut k: usize = 0;
    while k < sorted.len()
        invariant
            k <= sorted@.len(),
            order::is_sorted_order(keys, sorted@),
            keys.len() == headers@.len(),
            forall|i: int| 0 <= i < keys.len() ==> #[trigger] keys[i] == headers@[i].name@,
            base == before.names@.len(),
            before == *old(tensors),
            before.wf(),
            start == source_views(before@),
            tensors.wf(),
            added == shard_tensors(*shard),
            safetensors_file::tensor_table(shard.bytes@) == Some(
                safetensors_file::table_of(headers@),
            ),
            safetensors_file::distinct_names(headers@),
            sha256@ == digest::sha256_hex(shard.bytes@),
            tensors.names@.len() == base + k,
            forall|a: int| 0 <= a < base ==> (#[trigger] tensors.names@[a]) == before.names@[a],
            forall|a: int|
                base <= a < base + k ==> (#[trigger] tensors.names@[a])@ == keys[sorted@[a
                    - base] as int],
            forall|a: int| 0 <= a < k ==> !start.dom().contains(keys[(#[trigger] sorted@[a]) as int]),
            forall|n: Seq<char>|
                #![trigger source_views(tensors@).dom().contains(n)]
                source_views(tensors@).dom().contains(n) <==> start.dom().contains(n) || exists|
                    a: int,
                |
                    0 <= a < k && keys[(#[trigger] sorted@[a]) as int] == n,
            forall|a: int|
                0 <= a < k ==> source_views(tensors@)[keys[(#[trigger] sorted@[a]) as int]]
                    == added[keys[sorted@[a] as int]],
            forall|n: Seq<char>| #[trigger]
                start.dom().contains(n) ==> source_views(tensors@)[n] == start[n],
        decreases sorted@.len() - k,
    {
        let h: &TensorHeader = &headers[sorted[k]];
        let ghost n0 = h.name@;
        assert(n0 == keys[sorted@[k as int] as int]);
        assert forall|a: int| 0 <= a < k implies keys[(#[trigger] sorted@[a]) as int] != n0 by {
            assert(order::goes_first(keys, sorted@[a] as int, sorted@[k as int] as int));
            order::lemma_precedes_total(keys[sorted@[a] as int], n0);
            if keys[sorted@[a] as int] == n0 {
                assert(headers@[sorted@[a] as int].name@ == headers@[sorted@[k as int] as int].name@);
            }
        }
        proof {
            safetensors_file::lemma_table_position(headers@, sorted@[k as int] as int);
        }
        if tensors.contains(h.name.as_str()) {
            let report: String = text::join2("duplicate tensor name: ", h.name.as_str());
            proof {
                assert(source_views(tensors@).dom().contains(n0));
                assert(start.dom().contains(n0));
                assert(before@.dom().contains(n0));
                assert forall|m: Seq<char>| #[trigger]
                    has_tensor(*shard, m) && before@.dom().contains(m) implies !order::precedes(
                    m,
                    n0,
                ) by {
                    let i = safetensors_file::lemma_table_names(headers@, m);
                    assert(order::is_listed(sorted@, i));
                    let a = choose|a: int| 0 <= a < sorted@.len() && #[trigger] sorted@[a] == i;
                    assert(keys[i] == m);
                    assert(start.dom().contains(m));
                    if a > k {
                        assert(order::goes_first(keys, sorted@[k as int] as int, sorted@[a] as int));
                        order::lemma_precedes_total(n0, m);
                    }
                    order::lemma_precedes_total(n0, n0);
                }
                assert(is_first_clash(before@.dom(), *shard, n0));
            }
            return Err(report);
        }
        let ghost prior = source_views(tensors@);
        let tensor: SourceTensor = SourceTensor {
            name: h.name.clone(),
            dtype: h.dtype.clone(),
            shape: short_shape(&h.shape),
            data: Vec::new(),
            source_filename: shard.filename.clone(),
            source_sha256: sha256.clone(),
            source_offset: h.start as u64,
            source_byte_size: 0,
        };
        assert(!prior.dom().contains(n0));
        tensors.insert(h.name.clone(), tensor);
        proof {
            assert(source_views(tensors@) =~= prior.insert(n0, tensor@));
            assert(tensor@ =~= added[n0]);
            assert forall|n: Seq<char>|
                #![trigger source_views(tensors@).dom().contains(n)]
                source_views(tensors@).dom().contains(n) <==> start.dom().contains(n) || exists|
                    a: int,
                |
                    0 <= a < k + 1 && keys[(#[trigger] sorted@[a]) as int] == n by {
                assert(source_views(tensors@).dom().contains(n) <==> prior.dom().contains(n) || n
                    == n0);
                if n == n0 {
                    assert(keys[sorted@[k as int] as int] == n);
                }
            }
            assert forall|n: Seq<char>| #[trigger] start.dom().contains(n) implies source_views(
                tensors@,
            )[n] == start[n] by {
                assert(prior.dom().contains(n));
            }
        }
        k = k + 1;
    }
    proof {
        let now = source_views(tensors@);
        let want = start.union_prefer_right(added);
        assert forall|n: Seq<char>| #[trigger] has_tensor(*shard, n) implies exists|a: int|
            0 <= a < sorted@.len() && keys[(#[trigger] sorted@[a]) as int] == n by {
            let i = safetensors_file::lemma_table_names(headers@, n);
            assert(order::is_listed(sorted@, i));
            let a = choose|a: int| 0 <= a < sorted@.len() && #[trigger] sorted@[a] == i;
            assert(keys[sorted@[a] as int] == n);
        }
        assert forall|a: int| 0 <= a < sorted@.len() implies has_tensor(
            *shard,
            keys[(#[trigger] sorted@[a]) as int],
        ) by {
            safetensors_file::lemma_table_position(headers@, sorted@[a] as int);
        }
        assert forall|n: Seq<char>| #[trigger] now.dom().contains(n) <==> want.dom().contains(n) by {
            if added.dom().contains(n) {
                assert(has_tensor(*shard, n));
            }
        }
        assert forall|n: Seq<char>| #[trigger] now.dom().contains(n) implies now[n] == want[n] by {
            if added.dom().contains(n) {
                assert(has_tensor(*shard, n));
            }
        }
        assert(now =~= want);
        assert forall|a: int, b: int| base <= a < b < tensors.names@.len() implies order::precedes(
            (#[trigger] tensors.names@[a])@,
            (#[trigger] tensors.names@[b])@,
        ) by {
            let i = sorted@[a - base] as int;
            let j = sorted@[b - base] as int;
            assert(order::goes_first(keys, i, j));
            lemma_distinct_sorted(keys, headers@, sorted@, a - base, b - base);
        }
    }
    Ok(())
}

proof fn lemma_distinct_sorted(
    keys: Seq<Seq<char>>,
    headers: Seq<TensorHeader>,
    sorted: Seq<usize>,
    a: int,
    b: int,
)
    requires
        order::is_sorted_order(keys, sorted),
        keys.len() == headers.len(),
        forall|i: int| 0 <= i < keys.len() ==> #[trigger] keys[i] == headers[i].name@,
        safetensors_file::distinct_names(headers),
        0 <= a < b < sorted.len(),
    ensures
        order::precedes(keys[sorted[a] as int], keys[sorted[b] as int]),
{
    let i = sorted[a] as int;
    let j = sorted[b] as int;
    assert(order::goes_first(keys, i, j));
    if keys[i] == keys[j] {
        assert(headers[i].name@ == headers[j].name@);
    }
}

/// The tensors of a source and the digests of its shards. The names of the
/// table stand shard by shard, and sorted within a shard.
#[derive(Debug)]
pub struct SourceScan {
    pub tensors: NameTable<SourceTensor>,
    pub shard_hashes: Vec<ShardHash>,
}

/// The digests of the shards.
pub open spec fn shard_digests(shards: Seq<ShardFile>) -> Seq<(Seq<char>, Seq<char>)> {
    shards.map_values(|s: ShardFile| (s.filename@, digest::sha256_hex(s.bytes@)))
}

/// Whether the table lists the tensors of the shards in their order.
pub open spec fn in_shard_order(names: Seq<String>, shards: Seq<ShardFile>) -> bool {
    forall|a: int, b: int|
        0 <= a < b < names.len() ==> listed_before(
            shards,
            (#[trigger] names[a])@,
            (#[trigger] names[b])@,
        )
}

proof fn lemma_all_tensors_dom(shards: Seq<ShardFile>, n: Seq<char>)
    ensures
        all_tensors(shards).dom().contains(n) <==> in_earlier(shards, shards.len() as int, n),
    decreases shards.len(),
{
    if shards.len() > 0 {
        let rest = shards.drop_last();
        lemma_all_tensors_dom(rest, n);
        if in_earlier(rest, rest.len() as int, n) {
            let j = choose|j: int| 0 <= j < rest.len() && has_tensor(#[trigger] rest[j], n);
            assert(has_tensor(shards[j], n));
        }
        if in_earlier(shards, shards.len() as int, n) {
            let j = choose|j: int| 0 <= j < shards.len() && has_tensor(#[trigger] shards[j], n);
            if j < rest.len() {
                assert(has_tensor(rest[j], n));
            }
        }
        if has_tensor(shards.last(), n) {
            assert(has_tensor(shards[shards.len() - 1], n));
        }
    }
}

/// What is reported of the first shard that cannot be read with those before it:
/// that its header is bad, or the first of its names that an earlier one has.
pub open spec fn is_scan_report(shards: Seq<ShardFile>, report: Seq<char>) -> bool {
    exists|i: int|
        0 <= i < shards.len() && #[trigger] sound_through(shards, i) && (if has_header(shards[i]) {
            exists|n: Seq<char>| #[trigger]
                is_first_clash(earlier_names(shards, i), shards[i], n) && report
                    == duplicate_report(n)
        } else {
            safetensors_file::is_report(
                report,
                bad_header_report(shards[i].path@),
                shards[i].bytes@,
            )
        })
}

/// Lists the tensors of a source, with their data still to be read.
pub fn scan_shards(shards: &Vec<ShardFile>) -> (r: Result<SourceScan, String>)
    ensures
        match r {
            Ok(scan) => {
                &&& sound_through(shards@, shards@.len() as int)
                &&& scan.tensors.wf()
                &&& source_views(scan.tensors@) == all_tensors(shards@)
                &&& in_shard_order(scan.tensors.names@, shards@)
                &&& manifest::hash_views(scan.shard_hashes@) == shard_digests(shards@)
            },
            Err(e) => is_scan_report(shards@, e@),
        },
{
    let mut tensors: NameTable<SourceTensor> = NameTable::new();
    let mut shard_hashes: Vec<ShardHash> = Vec::new();
    let mut i: usize = 0;
    proof {
        assert(source_views(tensors@) =~= all_tensors(shards@.take(0)));
        assert(manifest::hash_views(shard_hashes@) =~= shard_digests(shards@.take(0)));
    }
    while i < shards.len()
        invariant
            i <= shards@.len(),
            tensors.wf(),
            sound_through(shards@, i as int),
            source_views(tensors@) == all_tensors(shards@.take(i as int)),
            in_shard_order(tensors.names@, shards@),
            forall|a: int|
                0 <= a < tensors.names@.len() ==> in_earlier(
                    shards@,
                    i as int,
                    (#[trigger] tensors.names@[a])@,
                ),
            manifest::hash_views(shard_hashes@) == shard_digests(shards@.take(i as int)),
        decreases shards@.len() - i,
    {
        let shard: &ShardFile = &shards[i];
        let sha256: String = sha256_bytes(shard.bytes.as_slice());
        let ghost before = tensors;
        proof {
            let prefix = shards@.take(i as int);
            assert forall|n: Seq<char>| #[trigger] before@.dom().contains(n) <==> in_earlier(
                shards@,
                i as int,
                n,
            ) by {
                assert(source_views(before@).dom().contains(n) <==> before@.dom().contains(n));
                lemma_all_tensors_dom(prefix, n);
                if in_earlier(prefix, prefix.len() as int, n) {
                    let j = choose|j: int|
                        0 <= j < prefix.len() && has_tensor(#[trigger] prefix[j], n);
                    assert(has_tensor(shards@[j], n));
                }
                if in_earlier(shards@, i as int, n) {
                    let j = choose|j: int| 0 <= j < i && has_tensor(#[trigger] shards@[j], n);
                    assert(has_tensor(prefix[j], n));
                }
            }
            assert(before@.dom() =~= earlier_names(shards@, i as int));
        }
        match safetensors_file::list_tensors(shard.bytes.as_slice()) {
            Ok(headers) => {
                match add_shard_tensors(&mut tensors, shard, &headers, &sha256) {
                    Ok(_) => {},
                    Err(e) => {
                        assert(sound_through(shards@, i as int));
                        return Err(e);
                    },
                }
            },
            Err(e) => {
                assert(sound_through(shards@, i as int));
                return Err(bad_header(shard.path.as_str(), e));
            },
        }
        proof {
            lemma_scan_step(shards@, i as int, before, tensors);
        }
        let hash: ShardHash = ShardHash { filename: shard.filename.clone(), sha256 };
        let ghost hashes = shard_hashes@;
        shard_hashes.push(hash);
        proof {
            assert(shards@.take(i + 1).drop_last() =~= shards@.take(i as int));
            assert(manifest::hash_views(shard_hashes@) =~= manifest::hash_views(hashes).push(hash@));
            assert(shard_digests(shards@.take(i + 1)) =~= shard_digests(
                shards@.take(i as int),
            ).push((shards@[i as int].filename@, digest::sha256_hex(shards@[i as int].bytes@))));
        }
        i = i + 1;
    }
    assert(shards@.take(shards@.len() as int) =~= shards@);
    Ok(SourceScan { tensors, shard_hashes })
}

proof fn lemma_scan_step(
    shards: Seq<ShardFile>,
    i: int,
    before: NameTable<SourceTensor>,
    after: NameTable<SourceTensor>,
)
    requires
        0 <= i < shards.len(),
        sound_through(shards, i),
        has_header(shards[i]),
        in_shard_order(before.names@, shards),
        forall|a: int|
            0 <= a < before.names@.len() ==> in_earlier(
                shards,
                i,
                (#[trigger] before.names@[a])@,
            ),
        forall|n: Seq<char>| #[trigger] before@.dom().contains(n) <==> in_earlier(shards, i, n),
        forall|n: Seq<char>| #[trigger]
            has_tensor(shards[i], n) ==> !before@.dom().contains(n),
        before.names@.len() <= after.names@.len(),
        forall|a: int|
            0 <= a < before.names@.len() ==> (#[trigger] after.names@[a]) == before.names@[a],
        forall|a: int|
            before.names@.len() <= a < after.names@.len() ==> has_tensor(
                shards[i],
                (#[trigger] after.names@[a])@,
            ),
        forall|a: int, b: int|
            before.names@.len() <= a < b < after.names@.len() ==> order::precedes(
                (#[trigger] after.names@[a])@,
                (#[trigger] after.names@[b])@,
            ),
    ensures
        sound_through(shards, i + 1),
        in_shard_order(after.names@, shards),
        forall|a: int|
            0 <= a < after.names@.len() ==> in_earlier(
                shards,
                i + 1,
                (#[trigger] after.names@[a])@,
            ),
{
    assert forall|j: int, n: Seq<char>|
        0 <= j < i + 1 && #[trigger] has_tensor(shards[j], n) implies !in_earlier(
        shards,
        j,
        n,
    ) by {
        if j == i {
            assert(!before@.dom().contains(n));
        }
    }
    let base = before.names@.len();
    assert forall|a: int| 0 <= a < after.names@.len() implies in_earlier(
        shards,
        i + 1,
        (#[trigger] after.names@[a])@,
    ) by {
        if a < base {
            assert(in_earlier(shards, i, before.names@[a]@));
            let j = choose|j: int| 0 <= j < i && has_tensor(#[trigger] shards[j], before.names@[a]@);
            assert(has_tensor(shards[j], after.names@[a]@));
        } else {
            assert(has_tensor(shards[i], after.names@[a]@));
        }
    }
    assert forall|a: int, b: int| 0 <= a < b < after.names@.len() implies listed_before(
        shards,
        (#[trigger] after.names@[a])@,
        (#[trigger] after.names@[b])@,
    ) by {
        if b < base {
            assert(listed_before(shards, before.names@[a]@, before.names@[b]@));
        } else if a < base {
            assert(in_earlier(shards, i, before.names@[a]@));
            let j = choose|j: int| 0 <= j < i && has_tensor(#[trigger] shards[j], before.names@[a]@);
            assert(has_tensor(shards[j], after.names@[a]@));
            assert(has_tensor(shards[i], after.names@[b]@));
        } else {
            assert(has_tensor(shards[i], after.names@[a]@));
            assert(has_tensor(shards[i], after.names@[b]@));
        }
    }
}

// ---------------------------------------------------------------------------
// Comparison with an earlier compilation
// ---------------------------------------------------------------------------

/// How a tensor of a source stands to an earlier compilation.
#[derive(Debug, Clone, Copy, PartialEq, Eq, Structural)]
pub enum TensorChange {
    Unchanged,
    Changed,
    New,
}

/// The digest that the first entry of that name records.
pub open spec fn recorded_digest(prev: Seq<manifest::EntryView>, name: Seq<char>) -> Option<
    Seq<char>,
>
    decreases prev.len(),
{
    if prev.len() == 0 {
        None
    } else if prev[0].name == name {
        Some(prev[0].source_sha256)
    } else {
        recorded_digest(prev.drop_first(), name)
    }
}

/// A tensor is unchanged where the earlier compilation records the digest of
/// its source file, changed where it records another, and new where it records
/// none.
pub open spec fn change_of(
    prev: Seq<manifest::EntryView>,
    name: Seq<char>,
    sha256: Seq<char>,
) -> TensorChange {
    match recorded_digest(prev, name) {
        Some(d) => if d == sha256 {
            TensorChange::Unchanged
        } else {
            TensorChange::Changed
        },
        None => TensorChange::New,
    }
}

/// Those names whose tensors stand in the given way to the earlier compilation.
pub open spec fn names_with(
    names: Seq<Seq<char>>,
    current: Map<Seq<char>, InfoView>,
    prev: Seq<manifest::EntryView>,
    change: TensorChange,
) -> Seq<Seq<char>>
    decreases names.len(),
{
    if names.len() == 0 {
        Seq::empty()
    } else {
        let rest = names_with(names.drop_last(), current, prev, change);
        if change_of(prev, names.last(), current[names.last()].sha256) == change {
            rest.push(names.last())
        } else {
            rest
        }
    }
}

/// The names of those entries that the current source lacks.
pub open spec fn missing_names(
    prev: Seq<manifest::EntryView>,
    current: Map<Seq<char>, InfoView>,
) -> Seq<Seq<char>>
    decreases prev.len(),
{
    if prev.len() == 0 {
        Seq::empty()
    } else {
        let rest = missing_names(prev.drop_last(), current);
        if current.dom().contains(prev.last().name) {
            rest
        } else {
            rest.push(prev.last().name)
        }
    }
}

fn find_change(prev: &Vec<TensorEntry>, name: &str, sha256: &str) -> (r: TensorChange)
    ensures
        r == change_of(manifest::entry_views(prev@), name@, sha256@),
{
    let ghost all = manifest::entry_views(prev@);
    let mut i: usize = 0;
    assert(all.skip(0) =~= all);
    while i < prev.len()
        invariant
            i <= prev@.len(),
            all == manifest::entry_views(prev@),
            recorded_digest(all, name@) == recorded_digest(all.skip(i as int), name@),
        decreases prev@.len() - i,
    {
        assert(all.skip(i as int)[0] == prev@[i as int]@);
        assert(all.skip(i as int).drop_first() =~= all.skip(i + 1));
        if text::same_text(prev[i].name.as_str(), name) {
            return if text::same_text(prev[i].source_sha256.as_str(), sha256) {
                TensorChange::Unchanged
            } else {
                TensorChange::Changed
            };
        }
        i = i + 1;
    }
    TensorChange::New
}

/// Compares the tensor table of a source with an earlier compilation. Names
/// keep the order of the table, and the removed ones that of the compilation.
pub fn diff_tables(
    current: &NameTable<SourceTensorInfo>,
    prev: &Vec<TensorEntry>,
    elapsed_ms: u128,
) -> (d: TensorDiff)
    requires
        current.wf(),
    ensures
        order::views(d.unchanged@) == names_with(
            order::views(current.names@),
            info_views(current@),
            manifest::entry_views(prev@),
            TensorChange::Unchanged,
        ),
        order::views(d.changed@) == names_with(
            order::views(current.names@),
            info_views(current@),
            manifest::entry_views(prev@),
            TensorChange::Changed,
        ),
        order::views(d.new@) == names_with(
            order::views(current.names@),
            info_views(current@),
            manifest::entry_views(prev@),
            TensorChange::New,
        ),
        order::views(d.removed@) == missing_names(
            manifest::entry_views(prev@),
            info_views(current@),
        ),
        d.elapsed_ms == elapsed_ms,
{
    let ghost names = order::views(current.names@);
    let ghost infos = info_views(current@);
    let ghost entries = manifest::entry_views(prev@);
    let mut unchanged: Vec<String> = Vec::new();
    let mut changed: Vec<String> = Vec::new();
    let mut new: Vec<String> = Vec::new();
    let mut removed: Vec<String> = Vec::new();
    let mut i: usize = 0;
    while i < current.names.len()
        invariant
            i <= current.names@.len(),
            current.wf(),
            names == order::views(current.names@),
            infos == info_views(current@),
            entries == manifest::entry_views(prev@),
            order::views(unchanged@) =~= names_with(
                names.take(i as int),
                infos,
                entries,
                TensorChange::Unchanged,
            ),
            order::views(changed@) =~= names_with(
                names.take(i as int),
                infos,
                entries,
                TensorChange::Changed,
            ),
            order::views(new@) =~= names_with(
                names.take(i as int),
                infos,
                entries,
                TensorChange::New,
            ),
        decreases current.names@.len() - i,
    {
        let name: &String = &current.names[i];
        proof {
            current.lemma_at(i as int);
            assert(names.take(i + 1).drop_last() =~= names.take(i as int));
            assert(names.take(i + 1).last() == name@);
            assert(infos[name@] == current.values@[i as int]@);
        }
        let change: TensorChange = find_change(
            prev,
            name.as_str(),
            current.values[i].sha256.as_str(),
        );
        match change {
            TensorChange::Unchanged => unchanged.push(name.clone()),
            TensorChange::Changed => changed.push(name.clone()),
            TensorChange::New => new.push(name.clone()),
        }
        i = i + 1;
    }
    assert(names.take(names.len() as int) =~= names);
    let mut k: usize = 0;
    while k < prev.len()
        invariant
            k <= prev@.len(),
            current.wf(),
            infos == info_views(current@),
            entries == manifest::entry_views(prev@),
            order::views(removed@) =~= missing_names(entries.take(k as int), infos),
        decreases prev@.len() - k,
    {
        proof {
            assert(entries.take(k + 1).drop_last() =~= entries.take(k as int));
            assert(entries.take(k + 1).last() == prev@[k as int]@);
        }
        if !current.contains(prev[k].name.as_str()) {
            removed.push(prev[k].name.clone());
        }
        k = k + 1;
    }
    assert(entries.take(entries.len() as int) =~= entries);
    TensorDiff { unchanged, changed, new, removed, elapsed_ms }
}

/// Whether a comparison says what the source holds against the compilation.
pub open spec fn is_diff(
    d: TensorDiff,
    names: Seq<Seq<char>>,
    current: Map<Seq<char>, InfoView>,
    prev: Seq<manifest::EntryView>,
) -> bool {
    &&& order::views(d.unchanged@) == names_with(names, current, prev, TensorChange::Unchanged)
    &&& order::views(d.changed@) == names_with(names, current, prev, TensorChange::Changed)
    &&& order::views(d.new@) == names_with(names, current, prev, TensorChange::New)
    &&& order::views(d.removed@) == missing_names(prev, current)
}

/// Whether the list names every tensor of the table once.
pub open spec fn lists_table(names: Seq<Seq<char>>, current: Map<Seq<char>, InfoView>) -> bool {
    &&& names.no_duplicates()
    &&& forall|n: Seq<char>| #[trigger] names.contains(n) <==> current.dom().contains(n)
}

/// Compares the shards of a source with an earlier compilation.
pub fn diff_tensors(shards: &Vec<ShardFile>, prev: &Vec<TensorEntry>, elapsed_ms: u128) -> (r: Result<
    TensorDiff,
    String,
>)
    ensures
        match r {
            Ok(d) => {
                &&& forall|j: int| 0 <= j < shards@.len() ==> has_header(#[trigger] shards@[j])
                &&& d.elapsed_ms == elapsed_ms
                &&& exists|names: Seq<Seq<char>>| #[trigger]
                    lists_table(names, source_table(shards@)) && is_diff(
                        d,
                        names,
                        source_table(shards@),
                        manifest::entry_views(prev@),
                    )
            },
            Err(e) => exists|i: int| #[trigger]
                first_without_header(shards@, i) && safetensors_file::is_report(
                    e@,
                    bad_header_report(shards@[i].path@),
                    shards@[i].bytes@,
                ),
        },
{
    match load_source_tensor_table(shards) {
        Ok(current) => {
            let d: TensorDiff = diff_tables(&current, prev, elapsed_ms);
            proof {
                let names = order::views(current.names@);
                let table = source_table(shards@);
                assert forall|n: Seq<char>| #[trigger] names.contains(n) <==> table.dom().contains(
                    n,
                ) by {
                    assert(info_views(current@).dom().contains(n) <==> current@.dom().contains(n));
                    if names.contains(n) {
                        let i = choose|i: int| 0 <= i < names.len() && names[i] == n;
                        assert(current.names@[i]@ == n);
                    }
                    if crate::table::holds_name(current.names@, n) {
                        let i = crate::table::position_of(current.names@, n);
                        assert(names[i] == n);
                    }
                }
                assert forall|i: int, j: int|
                    0 <= i < names.len() && 0 <= j < names.len() && i != j implies names[i]
                    != names[j] by {
                    if i < j {
                        assert(current.names@[i]@ != current.names@[j]@);
                    } else {
                        assert(current.names@[j]@ != current.names@[i]@);
                    }
                }
                assert(lists_table(names, table));
            }
            Ok(d)
        },
        Err(e) => Err(e),
    }
}

proof fn lemma_names_with(
    names: Seq<Seq<char>>,
    current: Map<Seq<char>, InfoView>,
    prev: Seq<manifest::EntryView>,
    change: TensorChange,
    n: Seq<char>,
)
    ensures
        names_with(names, current, prev, change).contains(n) <==> names.contains(n) && change_of(
            prev,
            n,
            current[n].sha256,
        ) == change,
    decreases names.len(),
{
    if names.len() > 0 {
        let rest = names.drop_last();
        let kept = names_with(rest, current, prev, change);
        lemma_names_with(rest, current, prev, change, n);
        assert(names =~= rest.push(names.last()));
        if names.contains(n) {
            let i = choose|i: int| 0 <= i < names.len() && names[i] == n;
            if i < rest.len() {
                assert(rest[i] == n);
            }
        }
        if rest.contains(n) {
            let i = choose|i: int| 0 <= i < rest.len() && rest[i] == n;
            assert(names[i] == n);
        }
        if n == names.last() {
            assert(names[names.len() - 1] == n);
        }
        let all = names_with(names, current, prev, change);
        if kept.contains(n) {
            let i = choose|i: int| 0 <= i < kept.len() && kept[i] == n;
            assert(all[i] == n);
        }
        if all.contains(n) {
            let i = choose|i: int| 0 <= i < all.len() && all[i] == n;
            if i < kept.len() {
                assert(kept[i] == n);
            }
        }
        if all.len() > kept.len() {
            assert(all[all.len() - 1] == names.last());
        }
    }
}

proof fn lemma_missing_names(
    prev: Seq<manifest::EntryView>,
    current: Map<Seq<char>, InfoView>,
    n: Seq<char>,
)
    requires
        missing_names(prev, current).contains(n),
    ensures
        !current.dom().contains(n),
        recorded_digest(prev, n) is Some,
    decreases prev.len(),
{
    let rest = prev.drop_last();
    let all = missing_names(prev, current);
    let kept = missing_names(rest, current);
    let i = choose|i: int| 0 <= i < all.len() && all[i] == n;
    if i < kept.len() {
        assert(kept[i] == n);
        lemma_missing_names(rest, current, n);
        lemma_recorded_extends(rest, prev.last(), n);
        assert(rest.push(prev.last()) =~= prev);
    } else {
        lemma_recorded_extends(rest, prev.last(), n);
        assert(rest.push(prev.last()) =~= prev);
    }
}

proof fn lemma_recorded_extends(
    prev: Seq<manifest::EntryView>,
    e: manifest::EntryView,
    n: Seq<char>,
)
    ensures
        recorded_digest(prev.push(e), n) == (match recorded_digest(prev, n) {
            Some(d) => Some(d),
            None => if e.name == n {
                Some(e.source_sha256)
            } else {
                None
            },
        }),
    decreases prev.len(),
{
    let all = prev.push(e);
    if prev.len() == 0 {
        assert(all.drop_first() =~= Seq::<manifest::EntryView>::empty());
        reveal_with_fuel(recorded_digest, 2);
    } else {
        assert(all.drop_first() =~= prev.drop_first().push(e));
        lemma_recorded_extends(prev.drop_first(), e, n);
    }
}

/// A comparison puts every tensor of the source into exactly one of the lists
/// of unchanged, changed and new tensors, and reports as removed only tensors
/// that the source lacks and the earlier compilation has.
pub proof fn law_diff_partitions(
    d: TensorDiff,
    names: Seq<Seq<char>>,
    current: Map<Seq<char>, InfoView>,
    prev: Seq<manifest::EntryView>,
    n: Seq<char>,
)
    requires
        lists_table(names, current),
        is_diff(d, names, current, prev),
    ensures
        current.dom().contains(n) <==> (order::views(d.unchanged@).contains(n) || order::views(
            d.changed@,
        ).contains(n) || order::views(d.new@).contains(n)),
        !(order::views(d.unchanged@).contains(n) && order::views(d.changed@).contains(n)),
        !(order::views(d.unchanged@).contains(n) && order::views(d.new@).contains(n)),
        !(order::views(d.changed@).contains(n) && order::views(d.new@).contains(n)),
        order::views(d.removed@).contains(n) ==> !current.dom().contains(n) && recorded_digest(
            prev,
            n,
        ) is Some,
{
    lemma_names_with(names, current, prev, TensorChange::Unchanged, n);
    lemma_names_with(names, current, prev, TensorChange::Changed, n);
    lemma_names_with(names, current, prev, TensorChange::New, n);
    if order::views(d.removed@).contains(n) {
        lemma_missing_names(prev, current, n);
    }
}

/// A source whose digests are all as recorded has nothing changed and nothing
/// new.
pub proof fn law_same_source_is_unchanged(
    d: TensorDiff,
    names: Seq<Seq<char>>,
    current: Map<Seq<char>, InfoView>,
    prev: Seq<manifest::EntryView>,
)
    requires
        lists_table(names, current),
        is_diff(d, names, current, prev),
        forall|n: Seq<char>| #[trigger]
            current.dom().contains(n) ==> recorded_digest(prev, n) == Some(current[n].sha256),
    ensures
        order::views(d.unchanged@) == names,
        d.changed@.len() == 0,
        d.new@.len() == 0,
{
    lemma_all_unchanged(names, current, prev);
    assert(order::views(d.changed@).len() == 0);
    assert(order::views(d.new@).len() == 0);
}

proof fn lemma_all_unchanged(
    names: Seq<Seq<char>>,
    current: Map<Seq<char>, InfoView>,
    prev: Seq<manifest::EntryView>,
)
    requires
        forall|n: Seq<char>| #[trigger] names.contains(n) ==> current.dom().contains(n),
        forall|n: Seq<char>| #[trigger]
            current.dom().contains(n) ==> recorded_digest(prev, n) == Some(current[n].sha256),
    ensures
        names_with(names, current, prev, TensorChange::Unchanged) == names,
        names_with(names, current, prev, TensorChange::Changed) == Seq::<Seq<char>>::empty(),
        names_with(names, current, prev, TensorChange::New) == Seq::<Seq<char>>::empty(),
    decreases names.len(),
{
    if names.len() > 0 {
        let rest = names.drop_last();
        assert forall|n: Seq<char>| #[trigger] rest.contains(n) implies current.dom().contains(
            n,
        ) by {
            let i = choose|i: int| 0 <= i < rest.len() && rest[i] == n;
            assert(names[i] == n);
            assert(names.contains(n));
        }
        lemma_all_unchanged(rest, current, prev);
        assert(names[names.len() - 1] == names.last());
        assert(names.contains(names.last()));
        assert(names =~= rest.push(names.last()));
    } else {
        assert(names =~= Seq::<Seq<char>>::empty());
    }
}

proof fn lemma_count_is_product(shape: Seq<u32>)
    ensures
        element_count(shape) == shape.fold_left(1int, |n: int, d: u32| n * d),
    decreases shape.len(),
{
    if shape.len() > 0 {
        lemma_count_is_product(shape.drop_last());
    }
}

/// A tensor that has not been read is read from where it stands in its file: as many
/// bytes as were noted for it, or else as its elements take, which are four bytes wide for
/// the 32-bit types, two for the 16-bit ones and one for bytes. Nothing else of it
/// changes, and a tensor with data stays as it is.
pub proof fn law_tensor_is_read_in_place(t: SourceView, file: Seq<u8>, width: int)
    requires
        t.dtype == "F32"@ || t.dtype == "Float32"@ || t.dtype == "I32"@ || t.dtype == "Int32"@
            || t.dtype == "U32"@ || t.dtype == "Uint32"@ ==> width == 4,
        t.dtype == "F16"@ || t.dtype == "Float16"@ || t.dtype == "BF16"@ || t.dtype == "BFloat16"@
            ==> width == 2,
        t.dtype == "I8"@ || t.dtype == "Int8"@ || t.dtype == "U8"@ || t.dtype == "Uint8"@ ==> width
            == 1,
        is_readable(t),
    ensures
        ({
            let r = read_from(t, file);
            let size = if t.source_byte_size > 0 {
                t.source_byte_size as int
            } else {
                width * t.shape.fold_left(1int, |n: int, d: u32| n * d)
            };
            let at = t.source_offset as int;
            &&& r.name == t.name
            &&& r.dtype == t.dtype
            &&& r.shape == t.shape
            &&& r.source_filename == t.source_filename
            &&& r.source_sha256 == t.source_sha256
            &&& r.source_offset == t.source_offset
            &&& r.source_byte_size == t.source_byte_size
            &&& t.data.len() > 0 ==> r.data == t.data
            &&& t.data.len() == 0 && (t.shape.len() > 0 || at > 0) ==> {
                &&& at + size <= file.len() ==> r.data == file.subrange(at, at + size)
                &&& at < file.len() < at + size ==> r.data == file.subrange(at, file.len() as int)
                &&& at >= file.len() ==> r.data.len() == 0
            }
        }),
{
    lemma_count_is_product(t.shape);
    lemma_type_names_differ();
    let at = t.source_offset as int;
    let n = element_count(t.shape) as int;
    if !is_settled(t) && t.source_byte_size == 0 {
        assert(n * width == width * n) by (nonlinear_arith);
        assert(n * width >= 0) by (nonlinear_arith)
            requires
                n >= 0,
                width >= 0,
        ;
    }
    if at == file.len() {
        assert(read_from(t, file).data.len() == t.data.len() || read_from(t, file).data.len() == 0);
    }
}

proof fn lemma_type_names_differ()
    ensures
        "F32"@.len() == 3,
        "Float32"@.len() == 7,
        "I32"@.len() == 3,
        "Int32"@.len() == 5,
        "U32"@.len() == 3,
        "Uint32"@.len() == 6,
        "F16"@.len() == 3,
        "Float16"@.len() == 7,
        "BF16"@.len() == 4,
        "BFloat16"@.len() == 8,
        "I8"@.len() == 2,
        "Int8"@.len() == 4,
        "U8"@.len() == 2,
        "Uint8"@.len() == 5,
        "F16"@ != "F32"@,
        "F16"@ != "I32"@,
        "F16"@ != "U32"@,
        "Float16"@ != "Float32"@,
        "Int32"@ != "Uint8"@,
        "BF16"@ != "Int8"@,
{
    reveal_strlit("F32");
    reveal_strlit("Float32");
    reveal_strlit("I32");
    reveal_strlit("Int32");
    reveal_strlit("U32");
    reveal_strlit("Uint32");
    reveal_strlit("F16");
    reveal_strlit("Float16");
    reveal_strlit("BF16");
    reveal_strlit("BFloat16");
    reveal_strlit("I8");
    reveal_strlit("Int8");
    reveal_strlit("U8");
    reveal_strlit("Uint8");
    assert("F16"@[1] == '1' && "F32"@[1] == '3' && "I32"@[1] == '3' && "U32"@[1] == '3');
    assert("Float16"@[5] == '1' && "Float32"@[5] == '3');
    assert("Int32"@[0] == 'I' && "Uint8"@[0] == 'U');
    assert("BF16"@[0] == 'B' && "Int8"@[0] == 'I');
}

/// Of several files the first that holds bytes at the place of a tensor is the one that
/// it is read from.
pub proof fn law_first_file_with_data_counts(t: SourceView, files: Seq<Seq<u8>>, i: int)
    requires
        !is_settled(t),
        0 <= i < files.len(),
        read_from(t, files[i]).data.len() > 0,
        forall|j: int| 0 <= j < i ==> read_from(t, #[trigger] files[j]).data.len() == 0,
    ensures
        read_from_first(t, files) == read_from(t, files[i]),
    decreases files.len(),
{
    let rest = files.drop_last();
    if i < rest.len() {
        assert(rest[i] == files[i]);
        assert forall|j: int| 0 <= j < i implies read_from(t, #[trigger] rest[j]).data.len()
            == 0 by {
            assert(rest[j] == files[j]);
        }
        law_first_file_with_data_counts(t, rest, i);
    } else {
        assert forall|j: int| 0 <= j < rest.len() implies read_from(t, #[trigger] rest[j]).data.len()
            == 0 by {
            assert(rest[j] == files[j]);
        }
        lemma_nothing_read(t, rest);
    }
}

proof fn lemma_nothing_read(t: SourceView, files: Seq<Seq<u8>>)
    requires
        !is_settled(t),
        forall|j: int| 0 <= j < files.len() ==> read_from(t, #[trigger] files[j]).data.len() == 0,
    ensures
        read_from_first(t, files) == t,
    decreases files.len(),
{
    if files.len() > 0 {
        let rest = files.drop_last();
        assert forall|j: int| 0 <= j < rest.len() implies read_from(t, #[trigger] rest[j]).data.len()
            == 0 by {
            assert(rest[j] == files[j]);
        }
        lemma_nothing_read(t, rest);
        assert(files[files.len() - 1] == files.last());
        assert(read_from(t, files.last()) =~= t);
    }
}

proof fn lemma_recorded(prev: Seq<manifest::EntryView>, n: Seq<char>, i: int)
    requires
        0 <= i < prev.len(),
        prev[i].name == n,
        forall|j: int| 0 <= j < i ==> (#[trigger] prev[j]).name != n,
    ensures
        recorded_digest(prev, n) == Some(prev[i].source_sha256),
    decreases prev.len(),
{
    if i > 0 {
        assert(prev[0].name != n);
        let rest = prev.drop_first();
        assert(rest[i - 1] == prev[i]);
        assert forall|j: int| 0 <= j < i - 1 implies (#[trigger] rest[j]).name != n by {
            assert(rest[j] == prev[j + 1]);
        }
        lemma_recorded(rest, n, i - 1);
    }
}

proof fn lemma_not_recorded(prev: Seq<manifest::EntryView>, n: Seq<char>)
    requires
        forall|j: int| 0 <= j < prev.len() ==> (#[trigger] prev[j]).name != n,
    ensures
        recorded_digest(prev, n) is None,
    decreases prev.len(),
{
    if prev.len() > 0 {
        assert(prev[0].name != n);
        let rest = prev.drop_first();
        assert forall|j: int| 0 <= j < rest.len() implies (#[trigger] rest[j]).name != n by {
            assert(rest[j] == prev[j + 1]);
        }
        lemma_not_recorded(rest, n);
    }
}

proof fn lemma_with_change(
    names: Seq<Seq<char>>,
    current: Map<Seq<char>, InfoView>,
    prev: Seq<manifest::EntryView>,
    change: TensorChange,
    n: Seq<char>,
)
    ensures
        names_with(names, current, prev, change).contains(n) == (names.contains(n) && change_of(
            prev,
            n,
            current[n].sha256,
        ) == change),
    decreases names.len(),
{
    if names.len() > 0 {
        let rest = names.drop_last();
        let last = names.last();
        lemma_with_change(rest, current, prev, change, n);
        let before = names_with(rest, current, prev, change);
        assert(names =~= rest.push(last));
        lemma_push_holds(rest, last, n);
        lemma_push_holds(before, last, n);
    }
}

proof fn lemma_push_holds(s: Seq<Seq<char>>, x: Seq<char>, n: Seq<char>)
    ensures
        s.push(x).contains(n) == (s.contains(n) || n == x),
{
    let t = s.push(x);
    if t.contains(n) {
        let i = choose|i: int| 0 <= i < t.len() && t[i] == n;
        if i < s.len() {
            assert(s[i] == n);
        }
    }
    if s.contains(n) {
        let i = choose|i: int| 0 <= i < s.len() && s[i] == n;
        assert(t[i] == n);
    }
    assert(t[s.len() as int] == x);
}

proof fn lemma_missing(
    prev: Seq<manifest::EntryView>,
    current: Map<Seq<char>, InfoView>,
    n: Seq<char>,
)
    ensures
        missing_names(prev, current).contains(n) == (!current.dom().contains(n) && exists|i: int|
            0 <= i < prev.len() && (#[trigger] prev[i]).name == n),
    decreases prev.len(),
{
    if prev.len() > 0 {
        let rest = prev.drop_last();
        lemma_missing(rest, current, n);
        lemma_push_holds(missing_names(rest, current), prev.last().name, n);
        assert(prev[prev.len() - 1] == prev.last());
        if exists|i: int| 0 <= i < rest.len() && (#[trigger] rest[i]).name == n {
            let i = choose|i: int| 0 <= i < rest.len() && (#[trigger] rest[i]).name == n;
            assert(prev[i].name == n);
        }
        if exists|i: int| 0 <= i < prev.len() && (#[trigger] prev[i]).name == n {
            let i = choose|i: int| 0 <= i < prev.len() && (#[trigger] prev[i]).name == n;
            if i < rest.len() {
                assert(rest[i].name == n);
            }
        }
    }
}

/// A tensor of the source is unchanged where the first entry of its name in the earlier
/// image has the digest that it has now, changed where that has another, and new where
/// there is none; a name of the earlier image that the source no longer has is removed.
/// Each is listed there and nowhere else.
pub proof fn law_changes_go_by_digest(
    current: &NameTable<SourceTensorInfo>,
    prev: &Vec<TensorEntry>,
    elapsed_ms: u128,
    d: TensorDiff,
    n: Seq<char>,
)
    requires
        current.wf(),
        call_ensures(diff_tables, (current, prev, elapsed_ms), d),
    ensures
        ({
            let there = current@.dom().contains(n);
            let before = exists|i: int| 0 <= i < prev@.len() && (#[trigger] prev@[i]).name@ == n;
            let same = exists|i: int|
                0 <= i < prev@.len() && (#[trigger] prev@[i]).name@ == n && prev@[i].source_sha256@
                    == current@[n].sha256@ && forall|j: int|
                    0 <= j < i ==> (#[trigger] prev@[j]).name@ != n;
            &&& order::views(d.unchanged@).contains(n) == (there && same)
            &&& order::views(d.changed@).contains(n) == (there && before && !same)
            &&& order::views(d.new@).contains(n) == (there && !before)
            &&& order::views(d.removed@).contains(n) == (!there && before)
        }),
{
    let names = order::views(current.names@);
    let infos = info_views(current@);
    let entries = manifest::entry_views(prev@);
    lemma_with_change(names, infos, entries, TensorChange::Unchanged, n);
    lemma_with_change(names, infos, entries, TensorChange::Changed, n);
    lemma_with_change(names, infos, entries, TensorChange::New, n);
    lemma_missing(entries, infos, n);
    lemma_names_are_keys(current, n);
    assert forall|i: int| 0 <= i < prev@.len() implies (#[trigger] prev@[i]).name@
        == entries[i].name && prev@[i].source_sha256@ == entries[i].source_sha256 by {}
    if exists|i: int| 0 <= i < entries.len() && (#[trigger] entries[i]).name == n {
        let k = lemma_first_named(entries, n);
        lemma_recorded(entries, n, k);
        assert(prev@[k].name@ == n);
        assert forall|j: int| 0 <= j < k implies (#[trigger] prev@[j]).name@ != n by {
            assert(entries[j].name != n);
        }
        assert forall|i: int|
            0 <= i < prev@.len() && (#[trigger] prev@[i]).name@ == n && (forall|j: int|
                0 <= j < i ==> (#[trigger] prev@[j]).name@ != n) implies i == k by {
            if k < i {
                assert(prev@[k].name@ != n);
            } else if i < k {
                assert(prev@[i].name@ != n);
            }
        }
        if current@.dom().contains(n) {
            assert(infos[n].sha256 == current@[n].sha256@);
        }
    } else {
        assert forall|j: int| 0 <= j < entries.len() implies (#[trigger] entries[j]).name != n by {}
        lemma_not_recorded(entries, n);
        assert forall|i: int| 0 <= i < prev@.len() implies (#[trigger] prev@[i]).name@ != n by {
            assert(entries[i].name != n);
        }
    }
    if exists|i: int| 0 <= i < prev@.len() && (#[trigger] prev@[i]).name@ == n {
        let i = choose|i: int| 0 <= i < prev@.len() && (#[trigger] prev@[i]).name@ == n;
        assert(entries[i].name == n);
    }
}

proof fn lemma_names_are_keys(t: &NameTable<SourceTensorInfo>, n: Seq<char>)
    requires
        t.wf(),
    ensures
        order::views(t.names@).contains(n) == t@.dom().contains(n),
{
    let names = order::views(t.names@);
    if names.contains(n) {
        let i = choose|i: int| 0 <= i < names.len() && names[i] == n;
        t.lemma_at(i);
        assert(t.names@[i]@ == n);
    }
    if t@.dom().contains(n) {
        let k = table::position_of(t.names@, n);
        assert(t.names@[k]@ == n);
        assert(names[k] == n);
    }
}

proof fn lemma_first_named(entries: Seq<manifest::EntryView>, n: Seq<char>) -> (k: int)
    requires
        exists|i: int| 0 <= i < entries.len() && (#[trigger] entries[i]).name == n,
    ensures
        0 <= k < entries.len(),
        entries[k].name == n,
        forall|j: int| 0 <= j < k ==> (#[trigger] entries[j]).name != n,
    decreases entries.len(),
{
    if entries[0].name == n {
        0
    } else {
        let rest = entries.drop_first();
        let i = choose|i: int| 0 <= i < entries.len() && (#[trigger] entries[i]).name == n;
        assert(rest[i - 1].name == n);
        let k = lemma_first_named(rest, n);
        assert forall|j: int| 0 <= j < k + 1 implies (#[trigger] entries[j]).name != n by {
            if j > 0 {
                assert(rest[j - 1] == entries[j]);
            }
        }
        k + 1
    }
}

/// A tensor of a scan comes from the shard that lists it: it has the type and the place
/// that the header of this shard gives it, with the name and the digest of the shard, and
/// no data yet.
pub proof fn law_scanned_tensor_is_of_its_shard(
    shards: &Vec<ShardFile>,
    scan: SourceScan,
    i: int,
    n: Seq<char>,
)
    requires
        call_ensures(scan_shards, (shards,), Ok::<SourceScan, String>(scan)),
        0 <= i < shards@.len(),
        safetensors_file::tensor_table(shards@[i].bytes@)->0.dom().contains(n),
    ensures
        scan.tensors@.dom().contains(n),
        ({
            let t = scan.tensors@[n]@;
            let f = safetensors_file::tensor_table(shards@[i].bytes@)->0[n];
            &&& t.name == n
            &&& t.dtype == f.dtype
            &&& t.shape.len() == f.shape.len()
            &&& forall|k: int|
                0 <= k < f.shape.len() ==> #[trigger] t.shape[k] == f.shape[k] as int
                    % 0x1_0000_0000
            &&& t.data.len() == 0
            &&& t.source_filename == shards@[i].filename@
            &&& t.source_sha256 == digest::sha256_hex(shards@[i].bytes@)
            &&& t.source_offset == f.start as u64
            &&& t.source_byte_size == 0
        }),
{
    let all = all_tensors(shards@);
    assert(has_tensor(shards@[i], n));
    lemma_tensor_of_shard(shards@, i, n);
    assert(source_views(scan.tensors@) == all);
    assert(all.dom().contains(n));
    assert(source_views(scan.tensors@)[n] == scan.tensors@[n]@);
    let f = safetensors_file::tensor_table(shards@[i].bytes@)->0[n];
    assert forall|k: int| 0 <= k < f.shape.len() implies #[trigger] scan.tensors@[n]@.shape[k]
        == f.shape[k] as int % 0x1_0000_0000 by {
        lemma_low_word(f.shape[k]);
    }
}

proof fn lemma_low_word(d: usize)
    ensures
        (#[verifier::truncate] (d as u32)) == d as int % 0x1_0000_0000,
{
    let x = d as u64;
    assert((x as u32) as u64 == x % 0x1_0000_0000) by (bit_vector);
}

proof fn lemma_tensor_of_shard(shards: Seq<ShardFile>, i: int, n: Seq<char>)
    requires
        sound_through(shards, shards.len() as int),
        0 <= i < shards.len(),
        has_tensor(shards[i], n),
    ensures
        all_tensors(shards).dom().contains(n),
        all_tensors(shards)[n] == shard_tensors(shards[i])[n],
    decreases shards.len(),
{
    let rest = shards.drop_last();
    if i < rest.len() {
        assert(sound_through(rest, rest.len() as int)) by {
            assert forall|j: int| 0 <= j < rest.len() implies has_header(#[trigger] rest[j]) by {
                assert(rest[j] == shards[j]);
            }
            assert forall|j: int, m: Seq<char>|
                0 <= j < rest.len() && #[trigger] has_tensor(rest[j], m) implies !in_earlier(
                rest,
                j,
                m,
            ) by {
                assert(has_tensor(shards[j], m));
                if in_earlier(rest, j, m) {
                    let k = choose|k: int| 0 <= k < j && has_tensor(#[trigger] rest[k], m);
                    assert(has_tensor(shards[k], m));
                }
            }
        }
        assert(rest[i] == shards[i]);
        lemma_tensor_of_shard(rest, i, n);
        let last = shards.len() - 1;
        if has_tensor(shards[last], n) {
            assert(in_earlier(shards, last, n));
        }
    }
}

} // verus!
