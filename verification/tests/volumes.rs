use restora::api::run_scan;
use restora::application::event_bus::{ScanEvent, ScanObserver, Unobserved};
use restora::application::recovery_job::{recover_file_bytes, recovery_result};
use restora::application::scan_session::{ScanMode, ScanSession, ScanState};
use restora::application::wipe_job::{wipe_free_space, wipe_source};
use restora::application::error::ApplicationError;
use restora::detect::{detect_parser, DetectedParser};
use restora::error::DomainError;
use restora::fat32::boot_sector::Fat32BootSector;
use restora::fat32::fat32_parser::Fat32Parser;
use restora::fat32::fat_table::{follow_chain, read_fat_entry};
use restora::ntfs::boot_sector::NtfsBootSector;
use restora::ntfs::ntfs_parser::NtfsParser;
use restora::parser::FilesystemParser;
use restora::recoverable::{RecoverableFile, RecoveryLocator, RecoverySource};
use restora::secure_delete::wipe_pattern::WipePattern;
use restora::source::{ByteSource, ByteSourceError, MemorySource};

const FAT_CANARY: &[u8] =
    b"This is a canary file for FAT32 recovery testing. If you can read this after carving, the recovery worked.\n";
const FAT_NESTED: &[u8] = b"Nested file inside a subdirectory, for testing recursive directory traversal.\n";
const NTFS_CANARY: &[u8] =
    b"This is a canary file for NTFS recovery testing. Bitmap-verified high-confidence recovery.\n";

// ---------------------------------------------------------------------
// A small FAT32 volume: 512-byte sectors and clusters, 32 reserved
// sectors, two FATs of 16 sectors, root directory at cluster 2.
// ---------------------------------------------------------------------

const FAT_TOTAL_SECTORS: usize = 2048;
const FAT_DATA_OFFSET: usize = (32 + 2 * 16) * 512;

fn fat_cluster_offset(cluster: usize) -> usize {
    FAT_DATA_OFFSET + (cluster - 2) * 512
}

fn dir_entry(name: &[u8; 11], attr: u8, cluster: u32, size: u32) -> [u8; 32] {
    let mut e = [0u8; 32];
    e[0..11].copy_from_slice(name);
    e[11] = attr;
    e[20..22].copy_from_slice(&((cluster >> 16) as u16).to_le_bytes());
    e[26..28].copy_from_slice(&(cluster as u16).to_le_bytes());
    e[28..32].copy_from_slice(&size.to_le_bytes());
    e
}

fn set_fat(img: &mut [u8], cluster: usize, value: u32) {
    for copy in 0..2 {
        let at = (32 + copy * 16) * 512 + cluster * 4;
        img[at..at + 4].copy_from_slice(&value.to_le_bytes());
    }
}

fn fat32_image(nested: bool) -> Vec<u8> {
    let mut img = vec![0u8; FAT_TOTAL_SECTORS * 512];
    img[0..3].copy_from_slice(&[0xEB, 0x58, 0x90]);
    img[3..11].copy_from_slice(b"MSWIN4.1");
    img[0x0B..0x0D].copy_from_slice(&512u16.to_le_bytes());
    img[0x0D] = 1;
    img[0x0E..0x10].copy_from_slice(&32u16.to_le_bytes());
    img[0x10] = 2;
    img[0x20..0x24].copy_from_slice(&(FAT_TOTAL_SECTORS as u32).to_le_bytes());
    img[0x24..0x28].copy_from_slice(&16u32.to_le_bytes());
    img[0x2C..0x30].copy_from_slice(&2u32.to_le_bytes());
    img[0x42] = 0x29;
    img[0x52..0x5A].copy_from_slice(b"FAT32   ");
    img[510] = 0x55;
    img[511] = 0xAA;

    set_fat(&mut img, 0, 0x0FFF_FFF8);
    set_fat(&mut img, 1, 0x0FFF_FFFF);
    set_fat(&mut img, 2, 0x0FFF_FFFF);
    set_fat(&mut img, 4, 0x0FFF_FFFF);
    if nested {
        set_fat(&mut img, 3, 0x0FFF_FFFF);
    }

    let mut root = Vec::new();
    root.extend(dir_entry(b"TESTVOL    ", 0x08, 0, 0));
    let mut lfn = [0u8; 32];
    lfn[0] = 0x41;
    lfn[11] = 0x0F;
    root.extend(lfn);
    root.extend(dir_entry(b"KEEP    TXT", 0x20, 4, 5));
    let mut canary = dir_entry(b"CANARY  TXT", 0x20, 5, FAT_CANARY.len() as u32);
    canary[0] = 0xE5;
    root.extend(canary);
    if nested {
        root.extend(dir_entry(b"SUBDIR     ", 0x10, 3, 0));
    }
    let at = fat_cluster_offset(2);
    img[at..at + root.len()].copy_from_slice(&root);

    if nested {
        let mut sub = Vec::new();
        sub.extend(dir_entry(b".          ", 0x10, 3, 0));
        sub.extend(dir_entry(b"..         ", 0x10, 0, 0));
        let mut deep = dir_entry(b"DEEP    TXT", 0x20, 6, FAT_NESTED.len() as u32);
        deep[0] = 0xE5;
        sub.extend(deep);
        let at = fat_cluster_offset(3);
        img[at..at + sub.len()].copy_from_slice(&sub);
        let at = fat_cluster_offset(6);
        img[at..at + FAT_NESTED.len()].copy_from_slice(FAT_NESTED);
    }

    let at = fat_cluster_offset(4);
    img[at..at + 5].copy_from_slice(b"hello");
    let at = fat_cluster_offset(5);
    img[at..at + FAT_CANARY.len()].copy_from_slice(FAT_CANARY);
    img
}

// ---------------------------------------------------------------------
// A small NTFS volume: 512-byte sectors and clusters, 64 clusters, the
// MFT at cluster 4 with eight 1024-byte records, $Bitmap resident in
// record 6, and a deleted "canary.txt" in record 7 whose data is at
// cluster 40.
// ---------------------------------------------------------------------

fn pad8(mut v: Vec<u8>) -> Vec<u8> {
    while v.len() % 8 != 0 {
        v.push(0);
    }
    v
}

fn file_name_attr(name: &str, real_size: u64) -> Vec<u8> {
    let units: Vec<u8> = name.encode_utf16().flat_map(|c| c.to_le_bytes()).collect();
    let mut content = vec![0u8; 66];
    content[48..56].copy_from_slice(&real_size.to_le_bytes());
    content[64] = name.encode_utf16().count() as u8;
    content.extend(units);
    let mut attr = vec![0u8; 24];
    attr[0..4].copy_from_slice(&0x30u32.to_le_bytes());
    attr[16..20].copy_from_slice(&(content.len() as u32).to_le_bytes());
    attr[20..22].copy_from_slice(&24u16.to_le_bytes());
    attr.extend(content);
    let mut attr = pad8(attr);
    let len = attr.len() as u32;
    attr[4..8].copy_from_slice(&len.to_le_bytes());
    attr
}

fn non_resident_data_attr(runs: &[u8]) -> Vec<u8> {
    let mut attr = vec![0u8; 0x40];
    attr[0..4].copy_from_slice(&0x80u32.to_le_bytes());
    attr[8] = 1;
    attr[32..34].copy_from_slice(&0x40u16.to_le_bytes());
    attr.extend_from_slice(runs);
    let mut attr = pad8(attr);
    let len = attr.len() as u32;
    attr[4..8].copy_from_slice(&len.to_le_bytes());
    attr
}

fn resident_data_attr(content: &[u8]) -> Vec<u8> {
    let mut attr = vec![0u8; 24];
    attr[0..4].copy_from_slice(&0x80u32.to_le_bytes());
    attr[16..20].copy_from_slice(&(content.len() as u32).to_le_bytes());
    attr[20..22].copy_from_slice(&24u16.to_le_bytes());
    attr.extend_from_slice(content);
    let mut attr = pad8(attr);
    let len = attr.len() as u32;
    attr[4..8].copy_from_slice(&len.to_le_bytes());
    attr
}

/// A 1024-byte record, fixups applied the way they are on disk: each
/// sector's last two bytes saved in the update sequence array and
/// replaced with the update sequence number.
fn mft_record(flags: u16, attrs: &[Vec<u8>]) -> Vec<u8> {
    let mut rec = vec![0u8; 1024];
    rec[0..4].copy_from_slice(b"FILE");
    rec[4..6].copy_from_slice(&0x30u16.to_le_bytes());
    rec[6..8].copy_from_slice(&3u16.to_le_bytes());
    rec[20..22].copy_from_slice(&0x38u16.to_le_bytes());
    rec[22..24].copy_from_slice(&flags.to_le_bytes());
    let mut pos = 0x38;
    for a in attrs {
        rec[pos..pos + a.len()].copy_from_slice(a);
        pos += a.len();
    }
    rec[pos..pos + 4].copy_from_slice(&0xFFFF_FFFFu32.to_le_bytes());
    let usn = [0x01u8, 0x00];
    rec[0x30..0x32].copy_from_slice(&usn);
    let s1 = [rec[510], rec[511]];
    let s2 = [rec[1022], rec[1023]];
    rec[0x32..0x34].copy_from_slice(&s1);
    rec[0x34..0x36].copy_from_slice(&s2);
    rec[510..512].copy_from_slice(&usn);
    rec[1022..1024].copy_from_slice(&usn);
    rec
}

const NTFS_CLUSTERS: usize = 64;
const NTFS_MFT_LCN: usize = 4;
const NTFS_CANARY_LCN: usize = 40;

fn ntfs_image() -> Vec<u8> {
    let mut img = vec![0u8; NTFS_CLUSTERS * 512];
    img[0..3].copy_from_slice(&[0xEB, 0x52, 0x90]);
    img[3..11].copy_from_slice(b"NTFS    ");
    img[0x0B..0x0D].copy_from_slice(&512u16.to_le_bytes());
    img[0x0D] = 1;
    img[0x28..0x30].copy_from_slice(&(NTFS_CLUSTERS as u64).to_le_bytes());
    img[0x30..0x38].copy_from_slice(&(NTFS_MFT_LCN as u64).to_le_bytes());
    img[0x40] = 0xF6; // records of 2^10 bytes
    img[510] = 0x55;
    img[511] = 0xAA;

    let mft = NTFS_MFT_LCN * 512;
    // Record 0, $MFT: 16 clusters (8 records) from cluster 4.
    let rec0 = mft_record(1, &[non_resident_data_attr(&[0x11, 16, NTFS_MFT_LCN as u8, 0x00])]);
    img[mft..mft + 1024].copy_from_slice(&rec0);
    // Record 6, $Bitmap: clusters 0-19 (boot area and MFT) and 30 in use.
    let mut bitmap = vec![0u8; NTFS_CLUSTERS / 8];
    for c in (0..20).chain([30]) {
        bitmap[c / 8] |= 1 << (c % 8);
    }
    let rec6 = mft_record(1, &[resident_data_attr(&bitmap)]);
    img[mft + 6 * 1024..mft + 7 * 1024].copy_from_slice(&rec6);
    // Record 7: the deleted canary.txt, one cluster at 40.
    let rec7 = mft_record(
        0,
        &[file_name_attr("canary.txt", NTFS_CANARY.len() as u64), non_resident_data_attr(&[0x11, 1, NTFS_CANARY_LCN as u8, 0x00])],
    );
    img[mft + 7 * 1024..mft + 8 * 1024].copy_from_slice(&rec7);

    let at = NTFS_CANARY_LCN * 512;
    img[at..at + NTFS_CANARY.len()].copy_from_slice(NTFS_CANARY);
    img
}

fn carve_image() -> Vec<u8> {
    let mut jpeg = vec![0xFFu8, 0xD8, 0xFF];
    jpeg.extend(std::iter::repeat(0xAA).take(500));
    jpeg.extend([0xFF, 0xD9]);
    let pdf = b"%PDF-1.4\nFake pdf body for carving test.\n%%EOF".to_vec();
    let mut buf = vec![0u8; 5000];
    buf.extend(&jpeg);
    buf.extend(vec![0u8; 2000]);
    buf.extend(&pdf);
    buf.extend(vec![0u8; 3000]);
    buf
}

// ---------------------------------------------------------------------
// FAT32
// ---------------------------------------------------------------------

#[test]
fn boot_sector_parses_real_fixture_boot_sector() {
    let source = MemorySource::new(fat32_image(false), "fat32_basic.img");
    let bs = Fat32BootSector::parse(&source).unwrap();

    assert_eq!(bs.bytes_per_sector, 512);
    assert_eq!(bs.root_cluster, 2);
    assert_eq!(bs.num_fats, 2);
    assert!(bs.data_area_offset() > bs.fat_start_offset());
    assert!(bs.data_area_offset() < 16 * 1024 * 1024);
    assert_eq!(bs.data_area_offset(), FAT_DATA_OFFSET as u64);
    assert_eq!(bs.cluster_offset(5), fat_cluster_offset(5) as u64);
}

#[test]
fn root_directory_chain_starts_at_configured_root_cluster() {
    let source = MemorySource::new(fat32_image(false), "fat32_basic.img");
    let bs = Fat32BootSector::parse(&source).unwrap();

    let chain = follow_chain(&source, &bs, bs.root_cluster).unwrap();
    assert!(!chain.is_empty());
    assert_eq!(chain[0], bs.root_cluster);
    assert_eq!(chain, vec![2]);
}

#[test]
fn chains_are_followed_and_cycles_stop() {
    let mut img = fat32_image(false);
    set_fat(&mut img, 10, 11);
    set_fat(&mut img, 11, 12);
    set_fat(&mut img, 12, 0x1FFF_FFFF); // top bits ignored: end of chain
    set_fat(&mut img, 20, 21);
    set_fat(&mut img, 21, 20);
    let source = MemorySource::new(img, "chains.img");
    let bs = Fat32BootSector::parse(&source).unwrap();
    assert_eq!(read_fat_entry(&source, &bs, 12).unwrap(), 0x0FFF_FFFF);
    assert_eq!(follow_chain(&source, &bs, 10).unwrap(), vec![10, 11, 12]);
    assert_eq!(follow_chain(&source, &bs, 20).unwrap(), vec![20, 21]);
    assert_eq!(follow_chain(&source, &bs, 1).unwrap(), Vec::<u32>::new());
}

#[test]
fn non_fat32_boot_sector_is_rejected() {
    let source = MemorySource::new(ntfs_image(), "ntfs.img");
    assert!(matches!(Fat32BootSector::parse(&source), Err(restora::error::DomainError::NotFat32(_))));
    let short = MemorySource::new(vec![0u8; 100], "short.img");
    assert!(matches!(Fat32BootSector::parse(&short), Err(restora::error::DomainError::ByteSource(_))));
}

#[test]
fn recovers_deleted_canary_file_byte_for_byte() {
    let source = MemorySource::new(fat32_image(false), "fat32_basic.img");

    let mut parser = Fat32Parser::new(&source).expect("boot sector should parse as FAT32");

    let deleted = parser.enumerate_deleted(&source).expect("enumerate_deleted failed");
    assert_eq!(deleted.len(), 1, "expected exactly one deleted entry (canary.txt)");

    let entry = &deleted[0];
    assert_eq!(entry.name, "_ANARY.TXT");
    assert_eq!(entry.file_size, 107);
    assert_eq!(entry.first_cluster, 5);
    assert_eq!(entry.confidence, 60);
    assert!(entry.metadata_intact);

    let recovered = parser.recover_bytes(&source, entry).expect("recover_bytes failed");
    assert_eq!(recovered.len(), FAT_CANARY.len());
    assert_eq!(&recovered, FAT_CANARY);
}

#[test]
fn recovers_deleted_file_inside_subdirectory() {
    let source = MemorySource::new(fat32_image(true), "fat32_nested.img");

    let mut parser = Fat32Parser::new(&source).expect("boot sector should parse as FAT32");
    let deleted = parser.enumerate_deleted(&source).expect("enumerate_deleted failed");

    let entry = deleted
        .iter()
        .find(|e| e.name.eq_ignore_ascii_case("SUBDIR/_EEP.TXT"))
        .expect("expected to find SUBDIR/_EEP.TXT among deleted entries");

    let recovered = parser.recover_bytes(&source, entry).expect("recover_bytes failed");
    assert_eq!(&recovered, FAT_NESTED);
    let names: Vec<&str> = deleted.iter().map(|e| e.name.as_str()).collect();
    assert_eq!(names, vec!["_ANARY.TXT", "SUBDIR/_EEP.TXT"]);
}

#[test]
fn fat32_resolves_one_contiguous_range() {
    let source = MemorySource::new(fat32_image(false), "fat32_basic.img");
    let mut parser = Fat32Parser::new(&source).unwrap();
    let deleted = parser.enumerate_deleted(&source).unwrap();
    let runs = parser.resolve_data_runs(&deleted[0]);
    assert_eq!(runs.len(), 1);
    assert_eq!(runs[0].start_cluster, 5);
    assert_eq!(runs[0].cluster_count, 1);
}

#[test]
fn fat32_entry_at_a_reserved_cluster_cannot_be_recovered() {
    let source = MemorySource::new(fat32_image(false), "fat32_basic.img");
    let mut parser = Fat32Parser::new(&source).unwrap();
    let mut entry = parser.enumerate_deleted(&source).unwrap().remove(0);
    entry.first_cluster = 0;
    assert!(matches!(parser.recover_bytes(&source, &entry), Err(restora::error::DomainError::DirEntry(_))));
    entry.file_size = 0;
    assert_eq!(parser.recover_bytes(&source, &entry).unwrap(), Vec::<u8>::new());
}

#[test]
fn fat32_free_space_covers_the_deleted_file() {
    let source = MemorySource::new(fat32_image(false), "fat32_basic.img");
    let parser = Fat32Parser::new(&source).unwrap();
    let ranges = parser.free_space_ranges(&source).unwrap();
    // Clusters 2 and 4 are in use; 3 and 5 onward are free.
    let end = fat_cluster_offset(2 + (FAT_TOTAL_SECTORS - 64)) as u64;
    assert_eq!(ranges, vec![(fat_cluster_offset(3) as u64, fat_cluster_offset(4) as u64), (fat_cluster_offset(5) as u64, end)]);
}

// ---------------------------------------------------------------------
// NTFS
// ---------------------------------------------------------------------

#[test]
fn ntfs_boot_sector_parses_real_fixture_boot_sector() {
    let source = MemorySource::new(ntfs_image(), "ntfs_basic.img");
    let bs = NtfsBootSector::parse(&source).unwrap();

    assert_eq!(bs.bytes_per_sector, 512);
    assert_eq!(bs.sectors_per_cluster, 1);
    assert_eq!(bs.mft_record_size, 1024);
    assert!(bs.mft_start_offset() > 0);
    assert_eq!(bs.cluster_size_bytes(), 512);
}

#[test]
fn ntfs_positive_record_size_counts_clusters() {
    let mut img = ntfs_image();
    img[0x0D] = 2;
    img[0x40] = 1;
    let bs = NtfsBootSector::parse(&MemorySource::new(img, "x.img")).unwrap();
    assert_eq!(bs.mft_record_size, 1024);
}

#[test]
fn ntfs_record_size_exponent_too_large_is_an_error() {
    let mut img = ntfs_image();
    img[0x40] = 0xE0; // -32: 2^32 bytes
    assert!(matches!(NtfsBootSector::parse(&MemorySource::new(img, "x.img")), Err(restora::error::DomainError::DirEntry(_))));
}

#[test]
fn finds_and_recovers_deleted_ntfs_file_with_high_confidence() {
    let source = MemorySource::new(ntfs_image(), "ntfs_basic.img");

    let mut parser = NtfsParser::new(&source).expect("NTFS boot sector + $MFT + $Bitmap should parse");

    let deleted = parser.enumerate_deleted(&source).expect("enumerate_deleted failed");
    assert_eq!(deleted.len(), 1, "expected exactly one deleted entry (canary.txt), found: {deleted:?}");

    let entry = &deleted[0];
    assert_eq!(entry.name, "canary.txt");
    assert_eq!(entry.file_size, 91);
    assert_eq!(entry.confidence, 90, "canary.txt's data cluster is marked free in $Bitmap");

    let recovered = parser.recover_bytes(&source, entry).expect("recover_bytes failed");
    assert_eq!(recovered.len(), NTFS_CANARY.len());
    assert_eq!(&recovered, NTFS_CANARY);
}

#[test]
fn allocated_data_cluster_lowers_confidence() {
    let mut img = ntfs_image();
    // Mark cluster 40 in use in the bitmap held in record 6.
    let record6 = NTFS_MFT_LCN * 512 + 6 * 1024;
    let bitmap_at = record6 + 0x38 + 24 + NTFS_CANARY_LCN / 8;
    img[bitmap_at] |= 1 << (NTFS_CANARY_LCN % 8);
    let source = MemorySource::new(img, "x.img");
    let mut parser = NtfsParser::new(&source).unwrap();
    let deleted = parser.enumerate_deleted(&source).unwrap();
    assert_eq!(deleted[0].confidence, 25);
}

#[test]
fn deleted_file_cluster_appears_in_free_space_ranges() {
    let source = MemorySource::new(ntfs_image(), "ntfs_basic.img");
    let mut parser = NtfsParser::new(&source).unwrap();

    let deleted = parser.enumerate_deleted(&source).unwrap();
    let entry = &deleted[0];

    let free_ranges = parser.free_space_ranges(&source).unwrap();
    let bs = NtfsBootSector::parse(&source).unwrap();
    let cluster_offset = bs.cluster_offset(entry.first_cluster);

    let covered = free_ranges.iter().any(|&(start, end)| cluster_offset >= start && cluster_offset < end);
    assert!(covered, "canary.txt's cluster at offset {cluster_offset} should be inside a free-space range, free ranges were: {free_ranges:?}");
    assert_eq!(free_ranges, vec![(20 * 512, 30 * 512), (31 * 512, 64 * 512)]);
}

#[test]
fn ntfs_recovery_without_the_scan_falls_back_to_the_contiguous_guess() {
    let source = MemorySource::new(ntfs_image(), "ntfs_basic.img");
    let mut scanned = NtfsParser::new(&source).unwrap();
    let entry = scanned.enumerate_deleted(&source).unwrap().remove(0);
    let fresh = NtfsParser::new(&source).unwrap();
    assert_eq!(fresh.recover_bytes(&source, &entry).unwrap(), NTFS_CANARY);
    let runs = fresh.resolve_data_runs(&entry);
    assert_eq!(runs.len(), 1);
    assert_eq!(runs[0].start_cluster, 40);
    assert_eq!(runs[0].cluster_count, 1);
}

// ---------------------------------------------------------------------
// Detection, scans and recovery
// ---------------------------------------------------------------------

#[test]
fn detects_each_filesystem_by_name() {
    let fat = MemorySource::new(fat32_image(false), "fat.img");
    let (p, name) = detect_parser(&fat).unwrap();
    assert_eq!(name, "FAT32");
    assert!(matches!(p, DetectedParser::Fat32(_)));
    let ntfs = MemorySource::new(ntfs_image(), "ntfs.img");
    let (p, name) = detect_parser(&ntfs).unwrap();
    assert_eq!(name, "NTFS");
    assert!(matches!(p, DetectedParser::Ntfs(_)));
    assert!(detect_parser(&MemorySource::new(carve_image(), "raw.img")).is_none());
}

#[test]
fn run_scan_returns_a_completed_session_for_ntfs_fixture() {
    let path = "ntfs_basic.img";
    let source = MemorySource::new(ntfs_image(), path);
    let session = run_scan(path, Ok(source), ScanMode::Quick).expect("scan should succeed");

    assert_eq!(session.filesystem_detected, Some("NTFS".to_string()));
    assert_eq!(session.results.len(), 1);
    assert_eq!(session.results[0].name, "canary.txt");
    assert!(session.id.starts_with("session-"));
    assert_eq!(session.state, ScanState::Complete);
    assert_eq!(session.progress.current_phase, "done");
}

#[test]
fn run_scan_reports_a_clear_error_for_a_missing_file() {
    let opened: Result<MemorySource, ByteSourceError> =
        Err(ByteSourceError::Io(std::io::Error::from(std::io::ErrorKind::NotFound)));
    let err = run_scan("/nonexistent/path/does/not/exist.img", opened, ScanMode::Quick).unwrap_err();
    assert!(!err.is_empty(), "error message should not be empty");
    assert!(err.starts_with("byte source error: io error: "));
}

#[test]
fn recovers_ntfs_file_using_only_the_persisted_locator() {
    let image = ntfs_image();
    let session = ScanSession::run(
        "test-session".to_string(),
        "ntfs_basic.img",
        Ok(MemorySource::new(image.clone(), "ntfs_basic.img")),
        ScanMode::Quick,
        Unobserved::new(),
    )
    .0
    .expect("scan should succeed");

    assert_eq!(session.results.len(), 1);
    let file = &session.results[0];
    assert_eq!(file.name, "canary.txt");
    assert_eq!(file.confidence, 90);
    assert_eq!(file.id, 0);
    assert!(matches!(&file.source, RecoverySource::Metadata { filesystem } if filesystem == "NTFS"));

    // A fresh parser, warmed up by one scan, as after a session reload.
    let source = MemorySource::new(image, "ntfs_basic.img");
    let (mut parser, _) = detect_parser(&source).unwrap();
    let _ = parser.enumerate_deleted(&source);
    let bytes = recover_file_bytes(&source, Some(&parser), file).unwrap();
    assert_eq!(&bytes, NTFS_CANARY);
}

#[test]
fn recovers_carved_file_with_no_filesystem_at_all() {
    let image = carve_image();
    let session = ScanSession::run(
        "carve-session".to_string(),
        "carve_test.img",
        Ok(MemorySource::new(image.clone(), "carve_test.img")),
        ScanMode::Deep,
        Unobserved::new(),
    )
    .0
    .expect("scan should succeed");

    assert!(session.filesystem_detected.is_none());
    assert_eq!(session.results.len(), 2);

    let pdf_file = session.results.iter().find(|f| f.name.ends_with(".pdf")).unwrap();
    assert_eq!(pdf_file.name, "carved_0001.pdf");
    assert_eq!(session.results[0].name, "carved_0000.jpg");

    let source = MemorySource::new(image, "carve_test.img");
    let recovered = recover_file_bytes(&source, None, pdf_file).unwrap();
    assert!(recovered.starts_with(b"%PDF-1.4"));
    assert!(recovered.ends_with(b"%%EOF"));
}

#[test]
fn metadata_result_without_a_filesystem_cannot_be_recovered() {
    let source = MemorySource::new(ntfs_image(), "ntfs_basic.img");
    let mut parser = NtfsParser::new(&source).unwrap();
    let entry = parser.enumerate_deleted(&source).unwrap().remove(0);
    let file = RecoverableFile::from_deleted_entry(3, "NTFS", entry);
    assert!(matches!(file.locator, RecoveryLocator::Metadata(_)));
    assert_eq!(file.id, 3);
    assert_eq!(file.size, 91);
    let raw = MemorySource::new(carve_image(), "raw.img");
    let err = recover_file_bytes(&raw, None, &file).unwrap_err();
    assert!(matches!(err, ApplicationError::NoFilesystemDetected));
    let result = recovery_result(file.name.clone(), Err(err));
    assert!(!result.success);
    assert_eq!(result.error.as_deref(), Some("no recognized filesystem found, and scan mode did not include carving"));
}

#[test]
fn empty_recovery_counts_as_failure() {
    let r = recovery_result("a.txt".to_string(), Ok((0, std::path::PathBuf::from("/tmp/a.txt"))));
    assert!(!r.success);
    assert_eq!(r.error.as_deref(), Some("recovered 0 bytes — data may already be overwritten"));
    let r = recovery_result("a.txt".to_string(), Ok((12, std::path::PathBuf::from("/tmp/a.txt"))));
    assert!(r.success);
    assert_eq!(r.bytes_written, 12);
    assert!(r.error.is_none());
}

#[test]
fn deep_scan_of_a_volume_adds_carved_results_after_metadata_ones() {
    let mut image = fat32_image(false);
    let at = fat_cluster_offset(50);
    image[at..at + 5].copy_from_slice(b"%PDF-");
    image[at + 20..at + 25].copy_from_slice(b"%%EOF");
    let session = ScanSession::run(
        "deep".to_string(),
        "fat.img",
        Ok(MemorySource::new(image, "fat.img")),
        ScanMode::Deep,
        Unobserved::new(),
    )
    .0
    .unwrap();
    assert_eq!(session.filesystem_detected, Some("FAT32".to_string()));
    assert_eq!(session.results.len(), 2);
    assert_eq!(session.results[0].name, "_ANARY.TXT");
    assert_eq!(session.results[1].id, 1);
    assert_eq!(session.results[1].name, "carved_0000.pdf");
    assert!(matches!(
        session.results[1].locator,
        RecoveryLocator::CarvedRange { start_offset, end_offset } if start_offset == at as u64 && end_offset == at as u64 + 25
    ));
}

// ---------------------------------------------------------------------
// Wiping
// ---------------------------------------------------------------------

#[test]
fn wiping_free_space_destroys_previously_recoverable_ntfs_file() {
    let mut source = MemorySource::new(ntfs_image(), "ntfs_basic.img");
    {
        let (mut parser, _) = detect_parser(&source).unwrap();
        let deleted = parser.enumerate_deleted(&source).unwrap();
        let recovered = parser.recover_bytes(&source, &deleted[0]).unwrap();
        assert_eq!(&recovered, NTFS_CANARY, "sanity check: should be recoverable before wiping");
    }

    let result = wipe_source(&mut source, &WipePattern::zero(), true).unwrap();
    assert!(result.ranges_wiped > 0, "expected at least one free-space range to wipe");
    assert!(result.bytes_written > 0);
    assert_eq!(result.bytes_written, (10 + 33) * 512);
    let verification = result.verification.expect("requested verification");
    assert_eq!(verification.carved_files_found_after_wipe, 0, "no known file signatures should remain in wiped free space");

    {
        let (mut parser, _) = detect_parser(&source).unwrap();
        let deleted = parser.enumerate_deleted(&source).unwrap();
        let recovered_after_wipe = parser.recover_bytes(&source, &deleted[0]).unwrap();

        assert_ne!(&recovered_after_wipe, NTFS_CANARY, "content should no longer match after wiping");
        assert!(recovered_after_wipe.iter().all(|&b| b == 0), "with the Zero pattern, recovered bytes should now be all zero");
    }
}

#[test]
fn refuses_to_overwrite_when_assume_ssd_is_set() {
    let image = fat32_image(false);
    let mut opened = Ok(MemorySource::new(image.clone(), "fat32_basic.img"));
    let err = wipe_free_space(&mut opened, &WipePattern::zero(), true, false).unwrap_err();
    assert!(matches!(err, ApplicationError::SsdOverwriteRefused));
    assert_eq!(opened.as_ref().unwrap().bytes(), &image);

    // The refusal comes before anything else, even a failed open.
    let mut missing: Result<MemorySource, ByteSourceError> =
        Err(ByteSourceError::Io(std::io::Error::from(std::io::ErrorKind::NotFound)));
    assert!(matches!(wipe_free_space(&mut missing, &WipePattern::zero(), true, false), Err(ApplicationError::SsdOverwriteRefused)));

    let source = MemorySource::new(image, "fat32_basic.img");
    let (mut parser, _) = detect_parser(&source).unwrap();
    let deleted = parser.enumerate_deleted(&source).unwrap();
    let recovered = parser.recover_bytes(&source, &deleted[0]).unwrap();
    assert_eq!(&recovered, FAT_CANARY, "refused wipe must leave the image completely untouched");
}

#[test]
fn live_system_files_survive_a_free_space_wipe() {
    let mut source = MemorySource::new(ntfs_image(), "ntfs_basic.img");
    let before = source.bytes().clone();

    wipe_source(&mut source, &WipePattern::random(), false).unwrap();

    let (mut parser, fs_name) = detect_parser(&source).expect("filesystem should still be parseable after wipe");
    assert_eq!(fs_name, "NTFS");
    let _ = parser.enumerate_deleted(&source).expect("MFT should still be walkable after wipe");
    // Allocated clusters 0-19 and 30 are untouched.
    assert_eq!(&source.bytes()[..20 * 512], &before[..20 * 512]);
    assert_eq!(&source.bytes()[30 * 512..31 * 512], &before[30 * 512..31 * 512]);
}

#[test]
fn fat32_wipe_spares_live_clusters_and_leaves_ones() {
    let mut source = MemorySource::new(fat32_image(false), "fat.img");
    let before = source.bytes().clone();
    let result = wipe_source(&mut source, &WipePattern::dod_3pass(), false).unwrap();
    assert_eq!(result.pattern_name, "DoD 5220.22-M (3-pass)");
    assert_eq!(result.ranges_wiped, 2);
    assert!(result.verification.is_none());
    // Metadata and live clusters 2 and 4 are unchanged.
    assert_eq!(&source.bytes()[..fat_cluster_offset(3)], &before[..fat_cluster_offset(3)]);
    assert_eq!(&source.bytes()[fat_cluster_offset(4)..fat_cluster_offset(5)], &before[fat_cluster_offset(4)..fat_cluster_offset(5)]);
}

#[test]
fn wiping_a_source_with_no_filesystem_is_refused() {
    let mut source = MemorySource::new(carve_image(), "raw.img");
    let before = source.bytes().clone();
    assert!(matches!(wipe_source(&mut source, &WipePattern::zero(), false), Err(ApplicationError::NoFilesystemDetected)));
    assert_eq!(source.bytes(), &before);
}

#[test]
fn boot_sector_rejections_name_what_was_found() {
    let mut img = fat32_image(false);
    img[0x42] = 0x28;
    match Fat32BootSector::parse(&MemorySource::new(img, "x.img")) {
        Err(restora::error::DomainError::NotFat32(m)) => assert_eq!(m, "unexpected boot signature byte: 0x28"),
        other => panic!("expected NotFat32, found {other:?}"),
    }
    let mut img = fat32_image(false);
    img[0x52..0x5A].copy_from_slice(b"FAT16   ");
    match Fat32BootSector::parse(&MemorySource::new(img, "x.img")) {
        Err(restora::error::DomainError::NotFat32(m)) => assert_eq!(m, "FilSysType field is not 'FAT32   ': \"FAT16   \""),
        other => panic!("expected NotFat32, found {other:?}"),
    }
    match NtfsBootSector::parse(&MemorySource::new(fat32_image(false), "x.img")) {
        Err(restora::error::DomainError::NotFat32(m)) => assert_eq!(m, "OEM ID is not 'NTFS    ': \"MSWIN4.1\""),
        other => panic!("expected NotFat32, found {other:?}"),
    }
    let mut img = fat32_image(false);
    img[511] = 0;
    match Fat32BootSector::parse(&MemorySource::new(img, "x.img")) {
        Err(restora::error::DomainError::NotFat32(m)) => assert_eq!(m, "missing 0x55AA boot sector signature"),
        other => panic!("expected NotFat32, found {other:?}"),
    }
}

#[test]
fn wipe_through_the_opened_image_zeroes_only_free_space() {
    let mut opened = Ok(MemorySource::new(ntfs_image(), "ntfs_basic.img"));
    let before = ntfs_image();
    let result = wipe_free_space(&mut opened, &WipePattern::zero(), false, true).unwrap();
    assert_eq!(result.ranges_wiped, 2);
    assert_eq!(result.verification.unwrap().carved_files_found_after_wipe, 0);
    let after = opened.unwrap().bytes().clone();
    assert_eq!(&after[..20 * 512], &before[..20 * 512]);
    assert_eq!(&after[30 * 512..31 * 512], &before[30 * 512..31 * 512]);
    assert!(after[20 * 512..30 * 512].iter().all(|&b| b == 0));
    assert!(after[31 * 512..].iter().all(|&b| b == 0));
}

struct Recorder {
    cancel: bool,
    events: Vec<ScanEvent>,
}

impl ScanObserver for Recorder {
    fn emit(&mut self, event: ScanEvent) {
        self.events.push(event);
    }

    fn is_cancelled(&mut self) -> bool {
        self.cancel
    }
}

fn straddle_image() -> Vec<u8> {
    let mut buf = vec![0u8; 30];
    buf.extend_from_slice(b"%PDF-1.0\n%%EOF");
    buf.extend(vec![0u8; 56]);
    buf
}

#[test]
fn cancelled_before_carving_carves_nothing() {
    let rec = Recorder { cancel: true, events: Vec::new() };
    let (s, rec) = ScanSession::run("s".to_string(), "x.img", Ok(MemorySource::new(straddle_image(), "x.img")), ScanMode::Deep, rec);
    let s = s.unwrap();
    assert_eq!(s.id, "s");
    assert_eq!(s.state, ScanState::Cancelled);
    assert!(s.results.is_empty());
    assert!(s.filesystem_detected.is_none());
    assert!(s.error_message.is_none());
    assert_eq!(s.progress.scanned_bytes, 100);
    assert_eq!(s.progress.total_bytes, 100);
    assert_eq!(s.progress.current_phase, "metadata");
    assert_eq!(rec.events.len(), 3);
    assert!(matches!(&rec.events[0], ScanEvent::PhaseStarted { phase } if phase == "metadata"));
    assert!(matches!(&rec.events[1], ScanEvent::PhaseCompleted { phase } if phase == "metadata"));
    assert!(matches!(rec.events[2], ScanEvent::Cancelled));
}

#[test]
fn uncancelled_deep_scan_carves_the_whole_source() {
    let rec = Recorder { cancel: false, events: Vec::new() };
    let (s, rec) = ScanSession::run("s".to_string(), "x.img", Ok(MemorySource::new(straddle_image(), "x.img")), ScanMode::Deep, rec);
    let s = s.unwrap();
    assert_eq!(s.state, ScanState::Complete);
    assert_eq!(s.progress.scanned_bytes, 100);
    assert_eq!(s.progress.current_phase, "done");
    assert_eq!(s.results.len(), 1);
    let f = &s.results[0];
    assert_eq!(f.id, 0);
    assert_eq!(f.name, "carved_0000.pdf");
    assert_eq!(f.size, 14);
    assert_eq!(f.confidence, 85);
    assert!(matches!(f.locator, RecoveryLocator::CarvedRange { start_offset: 30, end_offset: 44 }));
    assert!(matches!(rec.events.last(), Some(ScanEvent::Completed { total_found: 1 })));
    assert!(rec.events.iter().any(|e| matches!(e, ScanEvent::Progress { scanned_bytes: 100, total_bytes: 100, .. })));
}

#[test]
fn ntfs_record_zero_without_file_signature_is_not_ntfs() {
    let mut img = ntfs_image();
    let mft = NTFS_MFT_LCN * 512;
    img[mft..mft + 4].copy_from_slice(b"BAAD");
    let src = MemorySource::new(img, "n.img");
    assert!(matches!(NtfsParser::new(&src), Err(DomainError::NotFat32(_))));
}

#[test]
fn ntfs_mft_with_resident_data_is_a_directory_error() {
    let mut img = ntfs_image();
    let mft = NTFS_MFT_LCN * 512;
    let rec0 = mft_record(1, &[resident_data_attr(&[1, 2, 3])]);
    img[mft..mft + 1024].copy_from_slice(&rec0);
    let src = MemorySource::new(img, "n.img");
    assert!(matches!(NtfsParser::new(&src), Err(DomainError::DirEntry(_))));
}

#[test]
fn ntfs_bitmap_without_data_is_a_directory_error() {
    let mut img = ntfs_image();
    let mft = NTFS_MFT_LCN * 512;
    let rec6 = mft_record(1, &[]);
    img[mft + 6 * 1024..mft + 7 * 1024].copy_from_slice(&rec6);
    let src = MemorySource::new(img, "n.img");
    assert!(matches!(NtfsParser::new(&src), Err(DomainError::DirEntry(_))));
}

struct CancelAfter {
    answers_left: usize,
    events: Vec<ScanEvent>,
}

impl ScanObserver for CancelAfter {
    fn emit(&mut self, event: ScanEvent) {
        self.events.push(event);
    }

    fn is_cancelled(&mut self) -> bool {
        if self.answers_left == 0 {
            true
        } else {
            self.answers_left -= 1;
            false
        }
    }
}

#[test]
fn cancelling_during_the_last_chunk_keeps_its_files() {
    let obs = CancelAfter { answers_left: 1, events: Vec::new() };
    let (s, obs) = ScanSession::run("s".to_string(), "x.img", Ok(MemorySource::new(straddle_image(), "x.img")), ScanMode::Deep, obs);
    let s = s.unwrap();
    assert_eq!(s.state, ScanState::Cancelled);
    assert_eq!(s.results.len(), 1);
    assert_eq!(s.progress.scanned_bytes, 100);
    assert_eq!(obs.events.len(), 7);
    assert!(matches!(&obs.events[0], ScanEvent::PhaseStarted { phase } if phase == "metadata"));
    assert!(matches!(&obs.events[1], ScanEvent::PhaseCompleted { phase } if phase == "metadata"));
    assert!(matches!(&obs.events[2], ScanEvent::PhaseStarted { phase } if phase == "carving"));
    assert!(matches!(&obs.events[3], ScanEvent::Progress { scanned_bytes: 100, total_bytes: 100, .. }));
    assert!(matches!(&obs.events[4], ScanEvent::FileFound { file } if file.id == 0 && file.name == "carved_0000.pdf"));
    assert!(matches!(&obs.events[5], ScanEvent::PhaseCompleted { phase } if phase == "carving"));
    assert!(matches!(obs.events[6], ScanEvent::Cancelled));
}

#[test]
fn a_failed_open_reports_nothing() {
    let obs = CancelAfter { answers_left: 5, events: Vec::new() };
    let (r, obs) = ScanSession::run::<MemorySource, CancelAfter>(
        "s".to_string(),
        "missing.img",
        Err(ByteSourceError::OutOfBounds { offset: 0, len: 1, size: 0 }),
        ScanMode::Deep,
        obs,
    );
    assert!(matches!(r, Err(ApplicationError::ByteSource(_))));
    assert!(obs.events.is_empty());
    assert_eq!(obs.answers_left, 5);
}

#[test]
fn a_one_shot_scan_is_named_after_the_time() {
    let s = run_scan("x.img", Ok(MemorySource::new(vec![0u8; 100], "x.img")), ScanMode::Quick).unwrap();
    assert!(s.id.starts_with("session-"));
    assert!(s.id["session-".len()..].parse::<u64>().is_ok());
    assert_eq!(s.state, ScanState::Complete);
}

#[test]
fn a_scan_with_no_filesystem_sends_no_metadata_failure() {
    let rec = Recorder { cancel: false, events: Vec::new() };
    let (s, rec) = ScanSession::run("q".to_string(), "z.img", Ok(MemorySource::new(vec![0u8; 4096], "z.img")), ScanMode::Quick, rec);
    let s = s.unwrap();
    assert!(s.filesystem_detected.is_none());
    assert_eq!(rec.events.len(), 3);
    assert!(!rec.events.iter().any(|e| matches!(e, ScanEvent::Failed { .. })));
}
