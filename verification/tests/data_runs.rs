use restora::error::DomainError;
use restora::ntfs::data_runs::{parse_data_runs, DataRun};

#[test]
fn parses_single_contiguous_run() {
    // Header 0x21: 1 length byte, 2 offset bytes; 10 clusters at +100.
    let bytes = [0x21, 0x0A, 0x64, 0x00, 0x00];
    let runs = parse_data_runs(&bytes).unwrap();

    assert_eq!(runs.len(), 1);
    assert_eq!(runs[0], DataRun { start_lcn: 100, length_clusters: 10 });
}

#[test]
fn parses_multiple_runs_with_negative_delta() {
    // Run 1: 5 clusters at +200; run 2: 3 clusters at -50 (0xFFCE).
    let mut bytes = Vec::new();
    bytes.extend([0x21, 5, 200, 0]);
    bytes.extend([0x21, 3, 0xCE, 0xFF]);
    bytes.push(0x00);

    let runs = parse_data_runs(&bytes).unwrap();

    assert_eq!(runs.len(), 2);
    assert_eq!(runs[0], DataRun { start_lcn: 200, length_clusters: 5 });
    assert_eq!(runs[1], DataRun { start_lcn: 150, length_clusters: 3 });
}

#[test]
fn stops_at_terminator_and_ignores_trailing_bytes() {
    let bytes = [0x11, 4, 10, 0x00, 0xFF, 0xFF, 0xFF];
    let runs = parse_data_runs(&bytes).unwrap();
    assert_eq!(runs.len(), 1);
    assert_eq!(runs[0], DataRun { start_lcn: 10, length_clusters: 4 });
}

#[test]
fn sparse_runs_are_skipped() {
    // A run with no offset bytes is a hole: nothing on disk.
    let bytes = [0x11, 2, 7, 0x01, 9, 0x11, 1, 3, 0x00];
    let runs = parse_data_runs(&bytes).unwrap();
    assert_eq!(runs, vec![DataRun { start_lcn: 7, length_clusters: 2 }, DataRun { start_lcn: 10, length_clusters: 1 }]);
}

#[test]
fn header_claiming_more_bytes_than_remain_is_an_error() {
    let bytes = [0x33, 1, 2];
    assert!(matches!(parse_data_runs(&bytes), Err(DomainError::DirEntry(_))));
}

#[test]
fn run_before_cluster_zero_is_an_error() {
    // A first run at -1 resolves to a negative cluster.
    let bytes = [0x11, 1, 0xFF, 0x00];
    assert!(matches!(parse_data_runs(&bytes), Err(DomainError::DirEntry(_))));
}

#[test]
fn list_without_terminator_ends_at_slice_end() {
    let bytes = [0x11, 4, 10];
    let runs = parse_data_runs(&bytes).unwrap();
    assert_eq!(runs, vec![DataRun { start_lcn: 10, length_clusters: 4 }]);
}
