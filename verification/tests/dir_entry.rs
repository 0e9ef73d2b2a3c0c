use restora::fat32::dir_entry::{format_name, join_name_and_extension, parse_entry, EntrySlot, ATTR_LONG_NAME, ATTR_VOLUME_ID, DELETED_MARKER};

#[test]
fn detects_deleted_entry_and_preserves_other_fields() {
    // A live "CANARY.TXT" entry as FAT lays it out on disk, 107 bytes at
    // cluster 3, then deleted (first byte set to 0xE5).
    let mut raw = [0u8; 32];
    raw[0..11].copy_from_slice(b"CANARY  TXT");
    raw[11] = 0x20;
    raw[26..28].copy_from_slice(&3u16.to_le_bytes());
    raw[28..32].copy_from_slice(&107u32.to_le_bytes());

    if let EntrySlot::Entry(e) = parse_entry(&raw) {
        assert!(!e.is_deleted);
        assert_eq!(format_name(&e), "CANARY.TXT");
        assert_eq!(e.first_cluster, 3);
        assert_eq!(e.file_size, 107);
    } else {
        panic!("expected Entry");
    }

    raw[0] = DELETED_MARKER;
    if let EntrySlot::Entry(e) = parse_entry(&raw) {
        assert!(e.is_deleted);
        assert_eq!(format_name(&e), "_ANARY.TXT");
        assert_eq!(e.first_cluster, 3);
        assert_eq!(e.file_size, 107);
    } else {
        panic!("expected Entry");
    }
}

#[test]
fn end_of_directory_marker_stops_iteration() {
    let raw = [0u8; 32];
    assert!(matches!(parse_entry(&raw), EntrySlot::EndOfDirectory));
}

#[test]
fn long_name_entries_are_skipped() {
    let mut raw = [0u8; 32];
    // A non-zero first byte, or the slot would read as end of directory.
    raw[0] = 0x41;
    raw[11] = ATTR_LONG_NAME;
    assert!(matches!(parse_entry(&raw), EntrySlot::Skip));
}

#[test]
fn volume_label_entries_are_skipped() {
    let mut raw = [0u8; 32];
    raw[0..11].copy_from_slice(b"MYVOLUME   ");
    raw[11] = ATTR_VOLUME_ID;
    assert!(matches!(parse_entry(&raw), EntrySlot::Skip));
}

#[test]
fn first_cluster_combines_high_and_low_words() {
    let mut raw = [0u8; 32];
    raw[0..11].copy_from_slice(b"BIG     BIN");
    raw[20..22].copy_from_slice(&0x0001u16.to_le_bytes());
    raw[26..28].copy_from_slice(&0x0002u16.to_le_bytes());
    if let EntrySlot::Entry(e) = parse_entry(&raw) {
        assert_eq!(e.first_cluster, 0x0001_0002);
        assert_eq!(format_name(&e), "BIG.BIN");
    } else {
        panic!("expected Entry");
    }
}

#[test]
fn name_without_extension_has_no_dot() {
    let mut raw = [0u8; 32];
    raw[0..11].copy_from_slice(b"README     ");
    if let EntrySlot::Entry(e) = parse_entry(&raw) {
        assert_eq!(format_name(&e), "README");
    } else {
        panic!("expected Entry");
    }
}

#[test]
fn joins_name_and_extension_with_a_dot() {
    assert_eq!(join_name_and_extension("CANARY".to_string(), "TXT"), "CANARY.TXT");
    assert_eq!(join_name_and_extension("README".to_string(), ""), "README");
}
