//! Sources: shards, their tensors and hashes, and what changed between two of them.

use compute_image::compile::safetensors_file::{ends_fit, get_tensor, list_tensors};
use compute_image::compile::source::{
    auxiliary_files, can_read, diff_tables, diff_tensors, ensure_tensor_loaded, hash_present_files,
    load_source_tensor_table, optional_hash, scan_shards, tokenizer_files, ShardFile, SideFile,
    SourceTensor, SourceTensorInfo,
};
use compute_image::manifest::TensorEntry;
use compute_image::table::NameTable;

const ABC_SHA256: &str = "ba7816bf8f01cfea414140de5dae2223b00361a396177a9cb410ff61f20015ad";

fn shard(name: &str, tensors: &[(&str, &[f32])]) -> ShardFile {
    let data: Vec<(String, Vec<u8>, usize)> = tensors
        .iter()
        .map(|(n, v)| {
            (n.to_string(), v.iter().flat_map(|x| x.to_le_bytes()).collect(), v.len())
        })
        .collect();
    let views: Vec<(String, safetensors::tensor::TensorView)> = data
        .iter()
        .map(|(n, d, len)| {
            let view =
                safetensors::tensor::TensorView::new(safetensors::Dtype::F32, vec![*len], d);
            (n.clone(), view.unwrap())
        })
        .collect();
    ShardFile {
        path: format!("/models/{name}"),
        filename: name.to_string(),
        bytes: safetensors::serialize(views, &None).unwrap(),
    }
}

fn entry(name: &str, sha256: &str, byte_size: u64) -> TensorEntry {
    TensorEntry {
        id: 0,
        name: name.to_string(),
        role: String::new(),
        layer: None,
        segment: "persistent".to_string(),
        offset: 0,
        byte_size,
        source_filename: String::new(),
        source_sha256: sha256.to_string(),
        source_offset: 0,
        logical_dtype: "F32".to_string(),
        storage_dtype: "F32".to_string(),
        logical_shape: vec![],
        storage_shape: vec![],
        quantization: None,
    }
}

#[test]
fn hashes_are_sha256_in_hexadecimal() {
    let h = optional_hash("a.txt", &Some(b"abc".to_vec())).unwrap();
    assert_eq!(h.filename, "a.txt");
    assert_eq!(h.sha256, ABC_SHA256);
    assert!(optional_hash("a.txt", &None).is_none());
}

#[test]
fn absent_files_have_no_hash() {
    let files = vec![
        SideFile { filename: "one".to_string(), content: None },
        SideFile { filename: "two".to_string(), content: Some(b"abc".to_vec()) },
    ];
    let hashes = hash_present_files(&files);
    assert_eq!(hashes.len(), 1);
    assert_eq!(hashes[0].filename, "two");
    assert_eq!(hashes[0].sha256, ABC_SHA256);
}

#[test]
fn side_files_are_named() {
    assert!(tokenizer_files().contains(&"tokenizer.json".to_string()));
    assert!(!auxiliary_files().is_empty());
}

#[test]
fn shards_give_their_tensors() {
    let a = shard("a.safetensors", &[("x", &[1.0, 2.0])]);
    let b = shard("b.safetensors", &[("y", &[3.0])]);
    let scan = scan_shards(&vec![a, b]).unwrap();
    assert_eq!(scan.shard_hashes.len(), 2);
    assert_eq!(scan.shard_hashes[1].filename, "b.safetensors");
    assert!(scan.tensors.contains("x") && scan.tensors.contains("y"));
    let x = scan.tensors.get("x").unwrap();
    assert_eq!(x.dtype, "F32");
    assert_eq!(x.shape, vec![2]);
    assert_eq!(x.source_filename, "a.safetensors");
    assert_eq!(x.source_sha256, scan.shard_hashes[0].sha256);
    assert_eq!(x.source_offset, 0);
    assert!(x.data.is_empty());
}

#[test]
fn a_name_in_two_shards_is_refused() {
    let a = shard("a.safetensors", &[("x", &[1.0])]);
    let b = shard("b.safetensors", &[("x", &[2.0])]);
    let e = scan_shards(&vec![a, b]).unwrap_err();
    assert_eq!(e, "duplicate tensor name: x");
}

#[test]
fn a_bad_shard_is_refused() {
    let bad = ShardFile {
        path: "/models/bad.safetensors".to_string(),
        filename: "bad.safetensors".to_string(),
        bytes: vec![255; 16],
    };
    let e = scan_shards(&vec![bad]).unwrap_err();
    assert!(e.starts_with("bad safetensors header /models/bad.safetensors: "), "{e}");
}

/// A file with that header, and no data.
fn headed(header: &str) -> Vec<u8> {
    let mut bytes = (header.len() as u64).to_le_bytes().to_vec();
    bytes.extend_from_slice(header.as_bytes());
    bytes
}

/// A file with one byte tensor of that size in its header, and no data.
fn oversized(size: u64) -> Vec<u8> {
    headed(&format!(
        "{{\"t\":{{\"dtype\":\"U8\",\"shape\":[{size}],\"data_offsets\":[0,{size}]}}}}"
    ))
}

#[test]
fn tensors_that_end_out_of_range_are_refused() {
    let bytes = oversized(u64::MAX);
    assert!(!ends_fit(&bytes));
    assert!(get_tensor(&bytes, "t").is_err());
    // The header and the tensor together just go into a size, or just do not.
    let before = bytes.len() as u64;
    assert!(ends_fit(&oversized(u64::MAX - before)));
    assert_eq!(
        list_tensors(&oversized(u64::MAX - before)).unwrap_err(),
        "MetadataIncompleteBuffer"
    );
    assert!(!ends_fit(&oversized(u64::MAX - before + 1)));
    assert_eq!(
        list_tensors(&oversized(u64::MAX - before + 1)).unwrap_err(),
        "MetadataIncompleteBuffer"
    );
    let file = ShardFile {
        path: "/models/big.safetensors".to_string(),
        filename: "big.safetensors".to_string(),
        bytes,
    };
    assert_eq!(
        scan_shards(&vec![file]).unwrap_err(),
        "bad safetensors header /models/big.safetensors: MetadataIncompleteBuffer"
    );
}

#[test]
fn only_the_ends_of_tensors_are_measured() {
    let max = u64::MAX;
    for header in [
        format!("{{\"t\":{{\"dtype\":\"U8\",\"shape\":[0,{max}],\"data_offsets\":[0,0]}}}}"),
        format!(
            "{{\"t\":{{\"dtype\":\"U8\",\"shape\":[0],\"data_offsets\":[0,0],\"note\":{max}}}}}"
        ),
        format!("{{\"__metadata__\":{{\"data_offsets\":\"[0,{max}]\"}},\"t\":[\"U8\",[0],[0,0]]}}"),
    ] {
        let bytes = headed(&header);
        assert!(ends_fit(&bytes), "{header}");
        assert_eq!(list_tensors(&bytes).unwrap().len(), 1, "{header}");
        assert_eq!(get_tensor(&bytes, "t").unwrap(), Some(("U8".to_string(), vec![])));
        assert_eq!(get_tensor(&bytes, "u").unwrap(), None);
    }
    assert!(ends_fit(&[1, 2, 3]));
    assert!(ends_fit(&headed("no header")));
    assert_eq!(
        list_tensors(&headed("no header")).unwrap_err(),
        "InvalidHeaderDeserialization"
    );
}

#[test]
fn tensors_are_found_where_the_header_has_them() {
    let file = shard("a.safetensors", &[("x", &[1.0, 2.0]), ("y", &[3.0])]);
    let before = 8 + u64::from_le_bytes(file.bytes[..8].try_into().unwrap()) as usize;
    let headers = list_tensors(&file.bytes).unwrap();
    assert_eq!(headers.len(), 2);
    for h in &headers {
        let (dtype, bytes) = get_tensor(&file.bytes, &h.name).unwrap().unwrap();
        assert_eq!(dtype, h.dtype);
        assert_eq!(bytes, file.bytes[before + h.start..before + h.end]);
    }
    assert_eq!(
        get_tensor(&file.bytes, "y").unwrap(),
        Some(("F32".to_string(), 3.0f32.to_le_bytes().to_vec()))
    );
}

#[test]
fn tensors_of_unknown_size_cannot_be_read() {
    let mut t = SourceTensor {
        name: "t".to_string(),
        dtype: "F32".to_string(),
        shape: vec![2, 3],
        data: vec![],
        source_filename: String::new(),
        source_sha256: String::new(),
        source_offset: 4,
        source_byte_size: 0,
    };
    assert!(can_read(&t));
    t.source_offset = u64::MAX - 24;
    assert!(can_read(&t));
    t.source_offset = u64::MAX - 23;
    assert!(!can_read(&t));
    t.source_offset = 4;
    t.dtype = "F99".to_string();
    assert!(!can_read(&t));
    t.source_byte_size = 24;
    assert!(can_read(&t));
}

#[test]
fn reading_starts_at_the_tensor() {
    let mut t = SourceTensor {
        name: "t".to_string(),
        dtype: "F32".to_string(),
        shape: vec![1],
        data: vec![],
        source_filename: String::new(),
        source_sha256: String::new(),
        source_offset: 4,
        source_byte_size: 0,
    };
    ensure_tensor_loaded(&mut t, &[0, 1, 2, 3, 4, 5, 6, 7, 8]);
    assert_eq!(t.data, vec![4, 5, 6, 7]);
    // A second read changes nothing.
    ensure_tensor_loaded(&mut t, &[9; 20]);
    assert_eq!(t.data, vec![4, 5, 6, 7]);
}

#[test]
fn a_diff_sorts_tensors_by_what_became_of_them() {
    let mut current = NameTable::new();
    for (n, h, s) in [("same", "h1", 4), ("other", "h2", 4), ("fresh", "h3", 4)] {
        current.insert(
            n.to_string(),
            SourceTensorInfo { name: n.to_string(), sha256: h.to_string(), byte_size: s },
        );
    }
    let prev = vec![entry("same", "h1", 4), entry("other", "h0", 4), entry("gone", "h9", 4)];
    let d = diff_tables(&current, &prev, 12);
    assert_eq!(d.unchanged, vec!["same".to_string()]);
    assert_eq!(d.changed, vec!["other".to_string()]);
    assert_eq!(d.new, vec!["fresh".to_string()]);
    assert_eq!(d.removed, vec!["gone".to_string()]);
    assert_eq!(d.elapsed_ms, 12);
}

#[test]
fn a_source_is_the_same_as_itself() {
    let files = || vec![shard("a.safetensors", &[("x", &[1.0]), ("y", &[2.0, 3.0])])];
    let table = load_source_tensor_table(&files()).unwrap();
    let prev: Vec<TensorEntry> =
        table.values.iter().map(|i| entry(&i.name, &i.sha256, i.byte_size)).collect();
    let d = diff_tensors(&files(), &prev, 0).unwrap();
    assert_eq!(d.unchanged.len(), 2);
    assert!(d.changed.is_empty() && d.new.is_empty() && d.removed.is_empty());
}
