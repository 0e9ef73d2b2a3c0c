use restora::privilege::{check_privilege, device_size, require_privilege, status_for, RawDiskError};

#[test]
fn reports_a_hint_whenever_not_elevated() {
    let status = check_privilege();
    // Whatever the answer here, a hint is present exactly when not
    // elevated.
    assert_eq!(status.hint.is_none(), status.is_elevated);
}

#[test]
fn non_root_gets_the_sudo_hint() {
    let status = status_for(false);
    assert_eq!(
        status.hint.as_deref(),
        Some("Raw disk access requires root. Re-run this command with `sudo`, e.g. `sudo restora-cli scan /dev/sdb`.")
    );
    assert!(status_for(true).hint.is_none());
}

#[test]
fn raw_disk_gate_refuses_without_privilege() {
    assert!(require_privilege(status_for(true)).is_ok());
    match require_privilege(status_for(false)) {
        Err(RawDiskError::InsufficientPrivilege(m)) => assert!(m.contains("sudo")),
        other => panic!("expected a refusal, found {other:?}"),
    }
    let err = require_privilege(restora::privilege::PrivilegeStatus { is_elevated: false, hint: None }).unwrap_err();
    assert_eq!(err.message(), "insufficient privilege: insufficient privilege");
}

#[test]
fn device_size_falls_back_to_the_file_length() {
    assert_eq!(device_size(Some(4096), Some(10)), 4096);
    assert_eq!(device_size(None, Some(10)), 10);
    assert_eq!(device_size(None, None), 0);
}
