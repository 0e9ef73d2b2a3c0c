use restora::ntfs::data_runs::DataRun;
use restora::ntfs::mft_record::{file_name_units, parse_attributes, parse_header, DataLocation, ATTR_TYPE_DATA, ATTR_TYPE_END, ATTR_TYPE_FILE_NAME};

#[test]
fn rejects_non_file_signature() {
    let record = vec![0u8; 64];
    let header = parse_header(&record);
    assert!(!header.is_valid_file_record);
}

#[test]
fn parses_in_use_and_directory_flags() {
    let mut record = vec![0u8; 64];
    record[0..4].copy_from_slice(b"FILE");
    record[20..22].copy_from_slice(&48u16.to_le_bytes());
    record[22..24].copy_from_slice(&0x0003u16.to_le_bytes());

    let header = parse_header(&record);
    assert!(header.is_valid_file_record);
    assert!(header.in_use);
    assert!(header.is_directory);
    assert_eq!(header.first_attribute_offset, 48);
}

#[test]
fn parses_resident_file_name_attribute() {
    // A record with one resident $FILE_NAME attribute naming "HI.TXT".
    let name = "HI.TXT";
    let name_utf16: Vec<u8> = name.encode_utf16().flat_map(|c| c.to_le_bytes()).collect();

    let content_offset: u16 = 24;
    let mut content = vec![0u8; 66];
    content[48..56].copy_from_slice(&1234u64.to_le_bytes());
    content[64] = name.chars().count() as u8;
    content.extend_from_slice(&name_utf16);

    let mut attr = Vec::new();
    attr.extend((ATTR_TYPE_FILE_NAME).to_le_bytes());
    let attr_len = (24 + content.len()) as u32;
    attr.extend(attr_len.to_le_bytes());
    attr.push(0);
    attr.push(0);
    attr.extend(0u16.to_le_bytes());
    attr.extend(0u16.to_le_bytes());
    attr.extend(0u16.to_le_bytes());
    attr.extend((content.len() as u32).to_le_bytes());
    attr.extend(content_offset.to_le_bytes());
    attr.push(0);
    attr.push(0);
    attr.extend(&content);

    let mut record = vec![0u8; 32];
    record[0..4].copy_from_slice(b"FILE");
    record[20..22].copy_from_slice(&32u16.to_le_bytes());
    record[22..24].copy_from_slice(&1u16.to_le_bytes());
    record.extend(&attr);
    record.extend(ATTR_TYPE_END.to_le_bytes());

    let header = parse_header(&record);
    let parsed = parse_attributes(&record, &header).unwrap();

    let fname = parsed.file_name.expect("expected a parsed $FILE_NAME");
    assert_eq!(fname.name, "HI.TXT");
    assert_eq!(fname.real_size, 1234);
}

fn non_resident_data_attribute(runs: &[u8]) -> Vec<u8> {
    let mut attr = vec![0u8; 0x40];
    attr[0..4].copy_from_slice(&ATTR_TYPE_DATA.to_le_bytes());
    attr[8] = 1;
    attr[32..34].copy_from_slice(&0x40u16.to_le_bytes());
    attr.extend_from_slice(runs);
    while attr.len() % 8 != 0 {
        attr.push(0);
    }
    let len = attr.len() as u32;
    attr[4..8].copy_from_slice(&len.to_le_bytes());
    attr
}

#[test]
fn parses_non_resident_data_runs() {
    let mut record = vec![0u8; 24];
    record[0..4].copy_from_slice(b"FILE");
    record[20..22].copy_from_slice(&24u16.to_le_bytes());
    record.extend(non_resident_data_attribute(&[0x11, 3, 20, 0x00]));
    record.extend(ATTR_TYPE_END.to_le_bytes());

    let header = parse_header(&record);
    assert!(!header.in_use);
    let parsed = parse_attributes(&record, &header).unwrap();
    assert!(parsed.file_name.is_none());
    match parsed.data {
        Some(DataLocation::NonResident(runs)) => {
            assert_eq!(runs, vec![DataRun { start_lcn: 20, length_clusters: 3 }]);
        },
        other => panic!("expected non-resident data, found {other:?}"),
    }
}

#[test]
fn parses_resident_data_bytes() {
    let mut attr = vec![0u8; 24];
    attr[0..4].copy_from_slice(&ATTR_TYPE_DATA.to_le_bytes());
    attr[16..20].copy_from_slice(&5u32.to_le_bytes());
    attr[20..22].copy_from_slice(&24u16.to_le_bytes());
    attr.extend_from_slice(b"hello");
    attr.extend_from_slice(&[0, 0, 0]);
    let len = attr.len() as u32;
    attr[4..8].copy_from_slice(&len.to_le_bytes());

    let mut record = vec![0u8; 24];
    record[0..4].copy_from_slice(b"FILE");
    record[20..22].copy_from_slice(&24u16.to_le_bytes());
    record.extend(attr);
    record.extend(ATTR_TYPE_END.to_le_bytes());

    let header = parse_header(&record);
    let parsed = parse_attributes(&record, &header).unwrap();
    match parsed.data {
        Some(DataLocation::Resident(bytes)) => assert_eq!(bytes, b"hello"),
        other => panic!("expected resident data, found {other:?}"),
    }
}

#[test]
fn attribute_with_zero_length_stops_the_walk() {
    let mut record = vec![0u8; 24];
    record[0..4].copy_from_slice(b"FILE");
    record[20..22].copy_from_slice(&24u16.to_le_bytes());
    // A $DATA type with length 0, then a valid $DATA that must not be read.
    let mut bad = vec![0u8; 16];
    bad[0..4].copy_from_slice(&ATTR_TYPE_DATA.to_le_bytes());
    record.extend(bad);
    record.extend(non_resident_data_attribute(&[0x11, 3, 20, 0x00]));
    record.extend(ATTR_TYPE_END.to_le_bytes());

    let header = parse_header(&record);
    let parsed = parse_attributes(&record, &header).unwrap();
    assert!(parsed.data.is_none());
}

#[test]
fn malformed_data_runs_are_an_error() {
    let mut record = vec![0u8; 24];
    record[0..4].copy_from_slice(b"FILE");
    record[20..22].copy_from_slice(&24u16.to_le_bytes());
    // Header 0x88 claims 16 bytes that the attribute does not have.
    record.extend(non_resident_data_attribute(&[0x88, 1]));
    record.extend(ATTR_TYPE_END.to_le_bytes());

    let header = parse_header(&record);
    assert!(parse_attributes(&record, &header).is_err());
}

#[test]
fn reads_file_name_units_and_size() {
    let name: Vec<u16> = "a.b".encode_utf16().collect();
    let mut content = vec![0u8; 66];
    content[48..56].copy_from_slice(&42u64.to_le_bytes());
    content[64] = name.len() as u8;
    for u in &name {
        content.extend(u.to_le_bytes());
    }
    let mut attr = vec![0u8; 24];
    attr[20..22].copy_from_slice(&24u16.to_le_bytes());
    attr.extend(content);
    let (units, size) = file_name_units(&attr).unwrap();
    assert_eq!(units, name);
    assert_eq!(size, 42);
    assert!(file_name_units(&attr[..80]).is_none());
    assert!(file_name_units(&[0u8; 10]).is_none());
}
