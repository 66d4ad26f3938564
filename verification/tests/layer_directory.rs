//! Records of the layer directory and the header of an image file.

use compute_image::compile::ternary::LayerDirectoryEntry;

#[test]
fn layer_directory_round_trip() {
    let entry = LayerDirectoryEntry {
        weights_offset: 0x1000,
        weights_length: 0x28A_0000,
        scales_offset: 0x200,
        scales_length: 318_048,
        layer_kind: 0,
        flags: 0,
    };

    let mut bytes = Vec::new();
    entry.write_le(&mut bytes);
    assert_eq!(bytes.len(), 48);

    let round_tripped = LayerDirectoryEntry::read_le(&bytes).unwrap();

    assert_eq!(round_tripped.weights_offset, entry.weights_offset);
    assert_eq!(round_tripped.weights_length, entry.weights_length);
    assert_eq!(round_tripped.scales_offset, entry.scales_offset);
    assert_eq!(round_tripped.scales_length, entry.scales_length);
    assert_eq!(round_tripped.layer_kind, entry.layer_kind);
    assert_eq!(round_tripped.flags, entry.flags);
}

#[test]
fn layer_directory_entry_size() {
    assert_eq!(std::mem::size_of::<LayerDirectoryEntry>(), 48);
}

#[test]
fn layer_directory_entry_default_zeroed() {
    let e = LayerDirectoryEntry::default();
    assert_eq!(e.weights_offset, 0);
    assert_eq!(e.weights_length, 0);
    assert_eq!(e.scales_offset, 0);
    assert_eq!(e.scales_length, 0);
    assert_eq!(e.layer_kind, 0);
    assert_eq!(e.flags, 0);
}

#[test]
fn a_short_record_is_refused() {
    assert!(LayerDirectoryEntry::read_le(&[0u8; 47]).is_none());
}
