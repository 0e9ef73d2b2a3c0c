use restora::api::{parse_wipe_pattern, wipe_free_space_cmd};
use restora::secure_delete::wipe_pattern::PassFill;
use restora::source::{ByteSourceError, MemorySource};

#[test]
fn parse_wipe_pattern_rejects_unknown_names() {
    assert!(parse_wipe_pattern("zero").is_ok());
    assert!(parse_wipe_pattern("random").is_ok());
    assert!(parse_wipe_pattern("dod3").is_ok());
    let err = parse_wipe_pattern("nonsense").unwrap_err();
    assert!(err.contains("nonsense"));
}

#[test]
fn pattern_names_map_to_their_passes() {
    assert_eq!(parse_wipe_pattern("zero").unwrap().passes, &[PassFill::Zero]);
    assert_eq!(parse_wipe_pattern("random").unwrap().passes, &[PassFill::Random]);
    assert_eq!(parse_wipe_pattern("dod3").unwrap().passes, &[PassFill::Zero, PassFill::One, PassFill::Random]);
    assert_eq!(
        parse_wipe_pattern("Zero").unwrap_err(),
        "unknown wipe pattern 'Zero' — expected one of: zero, random, dod3"
    );
}

#[test]
fn wipe_command_checks_the_pattern_first() {
    let mut opened: Result<MemorySource, ByteSourceError> =
        Err(ByteSourceError::Io(std::io::Error::from(std::io::ErrorKind::NotFound)));
    let err = wipe_free_space_cmd(&mut opened, "bogus", true, false).unwrap_err();
    assert!(err.starts_with("unknown wipe pattern 'bogus'"));
}

#[test]
fn wipe_command_reports_the_ssd_refusal() {
    let mut opened = Ok(MemorySource::new(vec![7u8; 1024], "disk.img"));
    let err = wipe_free_space_cmd(&mut opened, "zero", true, false).unwrap_err();
    assert!(err.starts_with("refusing to run an overwrite-based wipe"));
    assert_eq!(opened.unwrap().bytes(), &vec![7u8; 1024]);
}

#[test]
fn wipe_command_on_an_image_without_a_filesystem_fails() {
    let mut opened = Ok(MemorySource::new(vec![0u8; 1024], "disk.img"));
    let err = wipe_free_space_cmd(&mut opened, "zero", false, false).unwrap_err();
    assert_eq!(err, "no recognized filesystem found, and scan mode did not include carving");

    let mut missing: Result<MemorySource, ByteSourceError> =
        Err(ByteSourceError::Io(std::io::Error::from(std::io::ErrorKind::NotFound)));
    let err = wipe_free_space_cmd(&mut missing, "zero", false, false).unwrap_err();
    assert!(err.starts_with("byte source error: io error: "));
}
