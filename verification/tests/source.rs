use restora::source::{check_bounds, ByteSource, ByteSourceError, MemorySource, WritableByteSource};

#[test]
fn reads_bytes_at_offset() {
    let src = MemorySource::new(b"0123456789ABCDEF".to_vec(), "mem");
    assert_eq!(src.size(), 16);
    let bytes = src.read_vec(4, 4).unwrap();
    assert_eq!(&bytes, b"4567");
    assert_eq!(src.label(), "mem");
}

#[test]
fn rejects_out_of_bounds_read() {
    let src = MemorySource::new(b"short".to_vec(), "mem");
    let err = src.read_vec(0, 100).unwrap_err();
    assert!(matches!(err, ByteSourceError::OutOfBounds { .. }));
    assert_eq!(err.message(), "read out of bounds: offset 0 + len 100 exceeds source size 5");
}

#[test]
fn write_then_read_back_round_trips() {
    let mut src = MemorySource::new(vec![0u8; 32], "mem");
    src.write_at(10, b"hello").unwrap();
    let bytes = src.read_vec(10, 5).unwrap();
    assert_eq!(&bytes, b"hello");
    assert_eq!(src.bytes()[9], 0);
    assert_eq!(src.bytes()[15], 0);
}

#[test]
fn rejects_write_past_end_of_file() {
    let mut src = MemorySource::new(vec![0u8; 4], "mem");
    let err = src.write_at(0, b"toolong!").unwrap_err();
    assert!(matches!(err, ByteSourceError::OutOfBounds { .. }));
    assert_eq!(src.bytes(), &vec![0u8; 4]);
}

#[test]
fn bounds_check_accepts_exactly_the_ranges_inside() {
    assert!(check_bounds(0, 10, 10).is_ok());
    assert!(check_bounds(10, 0, 10).is_ok());
    assert!(check_bounds(11, 0, 10).is_err());
    assert!(check_bounds(5, 6, 10).is_err());
    assert!(check_bounds(u64::MAX, 2, 10).is_err());
}
