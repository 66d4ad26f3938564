//! The store of objects found by the hash of their content.

use compute_image::content_store::{
    AliasKind, ContentDedupTable, DeterministicSegmentWriter, IntegrityVerifier,
};
use compute_image::integration::ContentHash;
use std::hash::{Hash, Hasher};

#[test]
fn test_empty_table() {
    let table = ContentDedupTable::new();
    assert_eq!(table.entry_count(), 0);
    assert_eq!(table.alias_count(), 0);
}

#[test]
fn test_unique_objects() {
    let mut table = ContentDedupTable::new();
    table.register_object("w1", ContentHash(1), 100);
    table.register_object("w2", ContentHash(2), 100);
    assert_eq!(table.entry_count(), 2);
}

#[test]
fn test_content_hash_dedup() {
    let mut table = ContentDedupTable::new();
    table.register_object("w1", ContentHash(42), 100);
    table.register_object("w2", ContentHash(42), 100);
    assert_eq!(table.entry_count(), 1);
    assert_eq!(table.alias_count(), 1);
}

#[test]
fn test_resolve() {
    let mut table = ContentDedupTable::new();
    table.register_object("w1", ContentHash(1), 100);
    table.add_alias("w1.tied", "w1", ContentHash(1), AliasKind::TiedEmbedding);
    assert_eq!(table.resolve("w1.tied"), Some("w1"));
    assert_eq!(table.resolve("w1"), Some("w1"));
}

#[test]
fn same_content_resolves_to_the_first_object() {
    let mut table = ContentDedupTable::new();
    table.register_object("w1", ContentHash(42), 100);
    table.register_object("w2", ContentHash(42), 100);
    table.register_object("w3", ContentHash(7), 50);
    assert_eq!(table.resolve("w2"), Some("w1"));
    assert_eq!(table.resolve("w3"), Some("w3"));
    assert_eq!(table.resolve("w4"), None);
    // 200 bytes are named by the first content and 50 by the second; 100 are saved.
    assert_eq!(table.dedup_ratio(), (100, 250));
}

#[test]
fn test_compute_and_verify() {
    let data = b"hello world";
    let hash = IntegrityVerifier::compute_content_hash(data);
    assert!(IntegrityVerifier::verify_object(data, &hash));
}

#[test]
fn test_mismatch_detected() {
    let data = b"hello world";
    let wrong = ContentHash(0xDEAD);
    assert!(!IntegrityVerifier::verify_object(data, &wrong));
}

#[test]
fn test_combine_hashes() {
    let h1 = ContentHash(1);
    let h2 = ContentHash(2);
    let combined = IntegrityVerifier::combine_hashes(&[h1, h2]);
    let combined2 = IntegrityVerifier::combine_hashes(&[h1, h2]);
    assert_eq!(combined, combined2);
}

#[test]
fn content_hashes_are_those_of_the_default_hasher() {
    let data: &[u8] = b"hello world";
    let mut h = std::collections::hash_map::DefaultHasher::new();
    data.hash(&mut h);
    assert_eq!(IntegrityVerifier::compute_content_hash(data), ContentHash(h.finish()));

    let mut h = std::collections::hash_map::DefaultHasher::new();
    1u64.hash(&mut h);
    2u64.hash(&mut h);
    assert_eq!(
        IntegrityVerifier::combine_hashes(&[ContentHash(1), ContentHash(2)]),
        ContentHash(h.finish())
    );
}

#[test]
fn test_empty_segment() {
    let writer = DeterministicSegmentWriter::new(4096);
    assert_eq!(writer.current_offset(), 0);
    assert_eq!(writer.entry_count(), 0);
}

#[test]
fn test_single_object_no_padding() {
    let mut writer = DeterministicSegmentWriter::new(1);
    let receipt = writer.append_object(&[1, 2, 3], "obj1", ContentHash(1));
    assert_eq!(receipt.segment_offset, 0);
    assert_eq!(receipt.payload_bytes, 3);
}

#[test]
fn test_two_objects_with_padding() {
    let mut writer = DeterministicSegmentWriter::new(16);
    let r1 = writer.append_object(&[1u8; 7], "obj1", ContentHash(1));
    assert_eq!(r1.segment_offset, 0);
    assert_eq!(r1.payload_bytes, 7);
    let r2 = writer.append_object(&[2u8; 8], "obj2", ContentHash(2));
    assert!(r2.segment_offset > 0);
    assert!(r2.segment_offset % 16 == 0);
}

#[test]
fn test_pad_to_alignment_explicit() {
    let mut writer = DeterministicSegmentWriter::new(64);
    writer.append_object(&[1u8; 5], "o1", ContentHash(1));
    writer.pad_to_alignment();
    assert_eq!(writer.current_offset() % 64, 0);
}

#[test]
fn test_deterministic_across_identical_inputs() {
    let mut a = DeterministicSegmentWriter::new(16);
    let mut b = DeterministicSegmentWriter::new(16);
    a.append_object(&[1, 2, 3], "x", ContentHash(1));
    b.append_object(&[1, 2, 3], "x", ContentHash(1));
    let (buf_a, _) = a.finalize();
    let (buf_b, _) = b.finalize();
    assert_eq!(buf_a, buf_b);
}

#[test]
#[should_panic]
fn test_zero_alignment_panics() {
    DeterministicSegmentWriter::new(0);
}

#[test]
fn objects_read_back_at_their_offsets() {
    let mut writer = DeterministicSegmentWriter::new(16);
    let r1 = writer.append_object(&[1, 2, 3], "a", ContentHash(1));
    let r2 = writer.append_object(&[4, 5, 6, 7], "b", ContentHash(2));
    let (buf, index) = writer.finalize();
    assert_eq!(index.entries.len(), 2);
    let at = |o: u64, n: u64| buf[o as usize..(o + n) as usize].to_vec();
    assert_eq!(at(r1.segment_offset, r1.payload_bytes), vec![1, 2, 3]);
    assert_eq!(at(r2.segment_offset, r2.payload_bytes), vec![4, 5, 6, 7]);
    assert_eq!(r2.segment_offset, 16);
    assert_eq!(buf[3..16], [0u8; 13]);
}

#[test]
fn counts_follow_the_calls() {
    let mut table = ContentDedupTable::new();
    table.register_object("a", ContentHash(1), 10);
    table.add_alias("b", "a", ContentHash(1), AliasKind::TiedEmbedding);
    table.register_object("c", ContentHash(2), 10);
    table.register_object("d", ContentHash(1), 10);
    table.register_object("a", ContentHash(3), 10);
    assert_eq!(table.entry_count(), 3);
    assert_eq!(table.entry_count() + table.alias_count(), 5);
}

#[test]
fn padding_calls_leave_objects_and_zeros() {
    let write = || {
        let mut w = DeterministicSegmentWriter::new(8);
        w.append_object(&[1, 2, 3], "a", ContentHash(1));
        w.pad_to_alignment();
        w.pad_to_alignment();
        w.append_object(&[4], "b", ContentHash(2));
        w.pad_to_alignment();
        assert_eq!(w.current_offset(), 16);
        w.finalize()
    };
    let (buf, index) = write();
    assert_eq!(buf, vec![1, 2, 3, 0, 0, 0, 0, 0, 4, 0, 0, 0, 0, 0, 0, 0]);
    assert_eq!(index.entries.len(), 2);
    assert_eq!((index.entries[1].segment_offset, index.entries[1].payload_bytes), (8, 1));
    assert_eq!((index.index_offset, index.index_length), (0, 0));
    let (again, other) = write();
    assert_eq!(again, buf);
    assert_eq!(other.entries[0].object_id, index.entries[0].object_id);
}

#[test]
fn names_mean_the_first_object_after_any_calls() {
    let mut table = ContentDedupTable::new();
    table.register_object("a", ContentHash(1), 10);
    table.add_alias("a", "other", ContentHash(9), AliasKind::TiedEmbedding);
    table.register_object("b", ContentHash(1), 10);
    table.register_object("c", ContentHash(2), 10);
    assert_eq!((table.entry_count(), table.alias_count()), (2, 2));
    // The first object with the content is meant, whatever its own name means.
    assert_eq!(table.resolve("b"), Some("a"));
    assert_eq!(table.resolve("a"), Some("other"));
    assert_eq!(table.resolve("c"), Some("c"));
    table.register_object("c", ContentHash(1), 10);
    assert_eq!((table.entry_count(), table.alias_count()), (2, 3));
    assert_eq!(table.resolve("c"), Some("a"));
    assert_eq!(table.resolve("b"), Some("a"));
}

#[test]
fn padding_goes_to_the_next_multiple_and_stays_there() {
    for (len, wanted) in [(0usize, 0u64), (1, 8), (7, 8), (8, 8), (9, 16)] {
        let mut w = DeterministicSegmentWriter::new(8);
        w.append_object(&vec![7; len], "o", ContentHash(1));
        w.pad_to_alignment();
        assert_eq!((w.current_offset(), w.entry_count()), (wanted, 1));
        w.pad_to_alignment();
        assert_eq!((w.current_offset(), w.entry_count()), (wanted, 1));
        let (bytes, _) = w.finalize();
        assert_eq!(bytes[..len], vec![7; len]);
        assert!(bytes[len..].iter().all(|b| *b == 0));
    }
}
