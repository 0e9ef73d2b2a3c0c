use restora::application::error::ApplicationError;
use restora::application::session_store::{timestamp_text, SessionSummary};
use restora::application::scan_session::{ScanMode, ScanProgress, ScanSession, ScanState};
use restora::carving::carver::CarvedFile;
use restora::error::DomainError;
use restora::recoverable::{RecoverableFile, RecoveryLocator, RecoverySource};
use restora::source::ByteSourceError;

#[test]
fn domain_errors_describe_themselves() {
    assert_eq!(DomainError::NotFat32("x".to_string()).message(), "not a valid FAT32 volume: x");
    assert_eq!(DomainError::DirEntry("bad".to_string()).message(), "directory entry parse error: bad");
    let e = DomainError::ByteSource(ByteSourceError::OutOfBounds { offset: 7, len: 3, size: 8 });
    assert_eq!(e.message(), "underlying byte source error: read out of bounds: offset 7 + len 3 exceeds source size 8");
}

#[test]
fn application_errors_describe_themselves() {
    assert_eq!(ApplicationError::SessionNotFound("s-1".to_string()).message(), "no session found with id 's-1'");
    assert!(ApplicationError::Domain(DomainError::NotFat32("y".to_string())).message().starts_with("domain error: "));
}

#[test]
fn carved_files_are_numbered_with_four_digits() {
    let carved = CarvedFile {
        format_name: "PDF".to_string(),
        extension: "pdf".to_string(),
        start_offset: 100,
        end_offset: 160,
        confidence: 85,
    };
    let f = RecoverableFile::from_carved_file(9, 3, &carved);
    assert_eq!(f.name, "carved_0003.pdf");
    assert_eq!(f.size, 60);
    assert_eq!(f.id, 9);
    assert_eq!(f.confidence, 85);
    assert!(matches!(f.source, RecoverySource::Carved { ref format } if format == "PDF"));
    assert!(matches!(f.locator, RecoveryLocator::CarvedRange { start_offset: 100, end_offset: 160 }));
    assert_eq!(RecoverableFile::from_carved_file(0, 12345, &carved).name, "carved_12345.pdf");
}

#[test]
fn session_summary_counts_results() {
    let session = ScanSession {
        id: "session-1".to_string(),
        image_path: "/tmp/whatever.img".to_string(),
        device_label: "/tmp/whatever.img".to_string(),
        mode: ScanMode::Quick,
        state: ScanState::Complete,
        progress: ScanProgress { scanned_bytes: 100, total_bytes: 100, current_phase: "done".to_string() },
        filesystem_detected: Some("FAT32".to_string()),
        error_message: None,
        results: vec![],
    };
    let s = SessionSummary::of_session("session-1".to_string(), timestamp_text(42), session);
    assert_eq!(s.updated_at, "unix:42");
    assert_eq!(s.device_label, "/tmp/whatever.img");
    assert_eq!(s.files_found, 0);
    assert_eq!(s.state, ScanState::Complete);
}

#[test]
fn numbers_are_written_in_decimal() {
    assert_eq!(restora::text::decimal_string(0), "0");
    assert_eq!(restora::text::decimal_string(7), "7");
    assert_eq!(restora::text::decimal_string(1700000000123), "1700000000123");
    assert_eq!(restora::text::decimal_string(u64::MAX), u64::MAX.to_string());
}

#[test]
fn boot_signature_bytes_are_written_in_two_hex_digits() {
    assert_eq!(restora::text::boot_signature_message(0x0a), "unexpected boot signature byte: 0x0a");
    assert_eq!(restora::text::boot_signature_message(0xE5), "unexpected boot signature byte: 0xe5");
}

#[test]
fn field_mismatch_names_the_field_and_quotes_what_was_found() {
    assert_eq!(
        restora::text::field_mismatch_message("OEM ID", "NTFS    ", "MSDOS5.0"),
        "OEM ID is not 'NTFS    ': \"MSDOS5.0\""
    );
    assert_eq!(restora::text::mismatch_text("A", "b", "c"), "A is not 'b': c");
}

#[test]
fn trailing_white_space_is_trimmed() {
    assert_eq!(restora::text::trim_end("ab \t\u{3000}\n"), "ab");
    assert_eq!(restora::text::trim_end("a b"), "a b");
    assert_eq!(restora::text::trim_end("   "), "");
    assert_eq!(restora::text::trim_end(""), "");
}

#[test]
fn application_errors_carry_the_inner_message() {
    let e = ApplicationError::Domain(DomainError::NotFat32("bad".to_string()));
    assert_eq!(e.message(), "domain error: not a valid FAT32 volume: bad");
}
