use restora::error::DomainError;
use restora::ntfs::fixup::apply_fixups;

#[test]
fn restores_sector_boundary_bytes() {
    // A 1024-byte (2-sector) record with its update sequence array at 0x30.
    let mut record = vec![0u8; 1024];

    let usa_offset: u16 = 0x30;
    let usa_count: u16 = 3;
    record[4..6].copy_from_slice(&usa_offset.to_le_bytes());
    record[6..8].copy_from_slice(&usa_count.to_le_bytes());

    let usn: [u8; 2] = [0xAB, 0xCD];
    let original_sector1_end: [u8; 2] = [0x11, 0x22];
    let original_sector2_end: [u8; 2] = [0x33, 0x44];

    record[0x30..0x32].copy_from_slice(&usn);
    record[0x32..0x34].copy_from_slice(&original_sector1_end);
    record[0x34..0x36].copy_from_slice(&original_sector2_end);

    // On disk, each sector's last two bytes hold the USN.
    record[510..512].copy_from_slice(&usn);
    record[1022..1024].copy_from_slice(&usn);

    apply_fixups(&mut record, 512).unwrap();

    assert_eq!(&record[510..512], &original_sector1_end);
    assert_eq!(&record[1022..1024], &original_sector2_end);
}

#[test]
fn record_without_update_sequence_is_left_alone() {
    let mut record = vec![7u8; 64];
    record[6] = 0;
    record[7] = 0;
    let before = record.clone();
    apply_fixups(&mut record, 512).unwrap();
    assert_eq!(record, before);
}

#[test]
fn update_sequence_past_the_record_is_an_error() {
    let mut record = vec![0u8; 64];
    record[4..6].copy_from_slice(&60u16.to_le_bytes());
    record[6..8].copy_from_slice(&3u16.to_le_bytes());
    let before = record.clone();
    assert!(matches!(apply_fixups(&mut record, 512), Err(DomainError::DirEntry(_))));
    assert_eq!(record, before);
}

#[test]
fn record_shorter_than_a_header_is_an_error() {
    let mut record = vec![0u8; 4];
    assert!(matches!(apply_fixups(&mut record, 512), Err(DomainError::DirEntry(_))));
}
