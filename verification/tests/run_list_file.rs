use restora::ntfs::data_runs::DataRun;
use restora::ntfs::run_list_file::RunListFile;
use restora::source::{ByteSourceError, MemorySource};

#[test]
fn reads_across_two_fragmented_runs() {
    // Clusters of 16 bytes: run A is LCN 0-1 ("A"s then "B"s), run B is
    // LCN 5 ("C"s). The logical file is run A's 32 bytes then run B's 16.
    let mut disk = vec![0u8; 16 * 6];
    disk[0..32].copy_from_slice(&[b'A'; 16].iter().chain(&[b'B'; 16]).copied().collect::<Vec<u8>>());
    disk[16 * 5..16 * 6].copy_from_slice(&[b'C'; 16]);
    let source = MemorySource::new(disk, "fragmented.img");

    let runs = vec![DataRun { start_lcn: 0, length_clusters: 2 }, DataRun { start_lcn: 5, length_clusters: 1 }];
    let file = RunListFile::new(runs, 16);

    assert_eq!(file.total_len(), 48);

    // Bytes 24..40 of the file: the last 8 of run A, then the first 8 of
    // run B.
    let bytes = file.read_at(&source, 24, 16).unwrap();
    assert_eq!(&bytes, b"BBBBBBBBCCCCCCCC");
}

#[test]
fn bytes_past_the_runs_read_as_zero() {
    let disk = vec![b'X'; 32];
    let source = MemorySource::new(disk, "short.img");
    let file = RunListFile::new(vec![DataRun { start_lcn: 1, length_clusters: 1 }], 16);
    let bytes = file.read_at(&source, 8, 16).unwrap();
    assert_eq!(bytes, [b"XXXXXXXX".as_slice(), &[0u8; 8]].concat());
}

#[test]
fn run_past_the_source_is_an_out_of_bounds_error() {
    let source = MemorySource::new(vec![0u8; 32], "short.img");
    let file = RunListFile::new(vec![DataRun { start_lcn: 4, length_clusters: 1 }], 16);
    assert!(matches!(file.read_at(&source, 0, 4), Err(ByteSourceError::OutOfBounds { .. })));
}

#[test]
fn total_length_saturates() {
    let file = RunListFile::new(vec![DataRun { start_lcn: 0, length_clusters: u64::MAX }], 4096);
    assert_eq!(file.total_len(), u64::MAX);
}
