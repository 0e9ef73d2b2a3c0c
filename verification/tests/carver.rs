use restora::carving::carver::{Carver, ProgressSink, SignatureCarver};
use restora::carving::signatures::{known_signatures, max_header_len};
use restora::source::{ByteSource, MemorySource};

/// A JPEG-like and a PDF-like file at known offsets in zero padding, with
/// no filesystem structure at all.
fn build_synthetic_image() -> (Vec<u8>, u64, u64, Vec<u8>, Vec<u8>) {
    let mut jpeg = vec![0xFFu8, 0xD8, 0xFF];
    jpeg.extend(std::iter::repeat(0xAA).take(500));
    jpeg.extend([0xFF, 0xD9]);

    let pdf = b"%PDF-1.4\nFake pdf body for carving test.\n%%EOF".to_vec();

    let mut buf = Vec::new();
    buf.extend(std::iter::repeat(0u8).take(5000));
    let jpeg_offset = buf.len() as u64;
    buf.extend(&jpeg);
    buf.extend(std::iter::repeat(0u8).take(2000));
    let pdf_offset = buf.len() as u64;
    buf.extend(&pdf);
    buf.extend(std::iter::repeat(0u8).take(3000));
    (buf, jpeg_offset, pdf_offset, jpeg, pdf)
}

fn fat32_would_detect(source: &MemorySource) -> bool {
    let sector = match source.read_vec(0, 512) {
        Ok(s) => s,
        Err(_) => return false,
    };
    sector.len() == 512 && sector[510] == 0x55 && sector[511] == 0xAA
}

#[test]
fn finds_both_files_with_no_filesystem_metadata_present() {
    let (buf, jpeg_offset, pdf_offset, jpeg_bytes, pdf_bytes) = build_synthetic_image();
    let source = MemorySource::new(buf, "synthetic.img");

    assert!(!fat32_would_detect(&source), "test image accidentally looks like a FAT32 volume");

    let carver = SignatureCarver::new();
    let found = carver.scan(&source, 0..source.size()).unwrap();

    assert_eq!(found.len(), 2, "expected exactly JPEG + PDF, found: {found:?}");

    let jpeg_result = found.iter().find(|f| f.format_name == "JPEG").unwrap();
    assert_eq!(jpeg_result.start_offset, jpeg_offset);
    assert_eq!(jpeg_result.confidence, 85);
    let recovered_jpeg = source.read_vec(jpeg_result.start_offset, jpeg_result.size() as usize).unwrap();
    assert_eq!(recovered_jpeg, jpeg_bytes);

    let pdf_result = found.iter().find(|f| f.format_name == "PDF").unwrap();
    assert_eq!(pdf_result.start_offset, pdf_offset);
    assert_eq!(pdf_result.confidence, 85);
    let recovered_pdf = source.read_vec(pdf_result.start_offset, pdf_result.size() as usize).unwrap();
    assert_eq!(recovered_pdf, pdf_bytes);
}

#[test]
fn finds_signature_straddling_a_chunk_boundary() {
    let content = b"%PDF-1.0\n%%EOF";
    let mut buf = vec![0u8; 30];
    let header_offset = buf.len() as u64;
    buf.extend_from_slice(content);
    buf.extend(std::iter::repeat(0u8).take(56));
    let source = MemorySource::new(buf, "straddle.img");

    // Chunks of 32 bytes overlapping by 8: the first chunk sees only the
    // start of the header at 30, the second (from 24) holds all of it.
    let carver = SignatureCarver::with_chunk_size(32);
    let found = carver.scan(&source, 0..source.size()).unwrap();

    assert_eq!(found.len(), 1, "expected exactly one match, found: {found:?}");
    let f = &found[0];
    assert_eq!(f.format_name, "PDF");
    assert_eq!(f.start_offset, header_offset);
    assert_eq!(f.confidence, 85);

    let recovered = source.read_vec(f.start_offset, f.size() as usize).unwrap();
    assert_eq!(recovered, content);
}

#[test]
fn falls_back_to_max_size_when_no_footer_present() {
    let mut buf = vec![0xFFu8, 0xD8, 0xFF];
    buf.extend(std::iter::repeat(0xAA).take(200));
    let source = MemorySource::new(buf, "truncated.img");

    let carver = SignatureCarver::new();
    let found = carver.scan(&source, 0..source.size()).unwrap();

    assert_eq!(found.len(), 1);
    assert_eq!(found[0].confidence, 30, "no footer found => low confidence expected");
    assert_eq!(found[0].end_offset, source.size(), "should fall back to end of available data");
}

#[test]
fn longest_header_is_eight_bytes() {
    assert_eq!(max_header_len(), 8);
    let sigs = known_signatures();
    assert_eq!(sigs.len(), 4);
    assert_eq!(sigs[1].name, "PNG");
    assert_eq!(sigs[1].header.len(), 8);
}

#[test]
fn png_and_zip_are_found_in_order() {
    let mut buf = vec![0u8; 100];
    buf.extend([0x50, 0x4B, 0x03, 0x04]);
    buf.extend([1, 2, 3]);
    buf.extend([0x50, 0x4B, 0x05, 0x06]);
    buf.extend(vec![0u8; 40]);
    let zip_end = 100 + 4 + 3 + 4;
    let png_start = buf.len() as u64;
    buf.extend([0x89, 0x50, 0x4E, 0x47, 0x0D, 0x0A, 0x1A, 0x0A]);
    buf.extend([9u8; 10]);
    buf.extend([0x49, 0x45, 0x4E, 0x44, 0xAE, 0x42, 0x60, 0x82]);
    let png_end = buf.len() as u64;
    buf.extend(vec![0u8; 20]);
    let source = MemorySource::new(buf, "mixed.img");

    let found = SignatureCarver::with_chunk_size(16).scan(&source, 0..source.size()).unwrap();
    assert_eq!(found.len(), 2);
    assert_eq!(found[0].format_name, "ZIP");
    assert_eq!(found[0].extension, "zip");
    assert_eq!(found[0].start_offset, 100);
    assert_eq!(found[0].end_offset, zip_end);
    assert_eq!(found[1].format_name, "PNG");
    assert_eq!(found[1].start_offset, png_start);
    assert_eq!(found[1].end_offset, png_end);
}

#[test]
fn scanning_past_the_end_is_an_error() {
    let source = MemorySource::new(vec![0u8; 10], "small.img");
    assert!(SignatureCarver::new().scan(&source, 0..20).is_err());
}

struct StopAfterFirst {
    calls: u32,
}

impl ProgressSink for StopAfterFirst {
    fn on_progress(&mut self, _scanned: u64, _total: u64) -> bool {
        self.calls += 1;
        false
    }
}

#[test]
fn stopping_early_keeps_what_was_found() {
    let mut buf = vec![0x25u8, 0x50, 0x44, 0x46, 0x2D, 0, 0x25, 0x25, 0x45, 0x4F, 0x46];
    buf.extend(vec![0u8; 100]);
    buf.extend([0x25u8, 0x50, 0x44, 0x46, 0x2D]);
    buf.extend(vec![0u8; 50]);
    let source = MemorySource::new(buf, "two.img");
    let mut sink = StopAfterFirst { calls: 0 };
    let found = SignatureCarver::with_chunk_size(32).scan_with_progress(&source, 0..source.size(), &mut sink).unwrap();
    assert_eq!(sink.calls, 1);
    assert_eq!(found.len(), 1);
    assert_eq!(found[0].start_offset, 0);
    assert_eq!(found[0].end_offset, 11);
}

struct GoOn {
    reports: Vec<(u64, u64)>,
}

impl ProgressSink for GoOn {
    fn on_progress(&mut self, scanned: u64, total: u64) -> bool {
        self.reports.push((scanned, total));
        true
    }
}

#[test]
fn a_sink_that_never_stops_hears_every_chunk() {
    let source = MemorySource::new(vec![0u8; 100], "zeros.img");
    let mut sink = GoOn { reports: Vec::new() };
    let found = SignatureCarver::with_chunk_size(32).scan_with_progress(&source, 0..100, &mut sink).unwrap();
    assert!(found.is_empty());
    assert!(sink.reports.len() > 1);
    assert_eq!(sink.reports.last(), Some(&(100, 100)));
    assert!(sink.reports.windows(2).all(|w| w[0].0 < w[1].0));
    assert!(sink.reports.iter().all(|r| r.1 == 100));
}

#[test]
fn an_empty_range_reports_nothing() {
    let source = MemorySource::new(vec![0u8; 100], "zeros.img");
    let mut sink = GoOn { reports: Vec::new() };
    let found = SignatureCarver::with_chunk_size(32).scan_with_progress(&source, 5..5, &mut sink).unwrap();
    assert!(found.is_empty());
    assert!(sink.reports.is_empty());
}
