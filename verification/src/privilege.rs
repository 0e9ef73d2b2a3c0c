//! Whether the process may open raw disks, with a message that says what
//! to do when it may not, rather than leaving the operating system's
//! permission error to be the first thing a user sees. This checks; it
//! does not elevate.

use crate::text::io_error_text;
use vstd::prelude::*;

verus! {

/// What the check found.
#[derive(Debug, Clone)]
pub struct PrivilegeStatus {
    pub is_elevated: bool,
    /// The next step to take, present exactly when not elevated.
    pub hint: Option<String>,
}

/// The hint given to a user who is not root.
pub open spec fn sudo_hint_text() -> Seq<char> {
    "Raw disk access requires root. Re-run this command with `sudo`, e.g. `sudo restora-cli scan /dev/sdb`."@
}

/// `nix::unistd::geteuid().is_root()`: whether the effective user id is
/// 0. Nothing is claimed of the answer: it depends on how the process was
/// started.
#[verifier::external_body]
fn effective_uid_is_root() -> bool {
    nix::unistd::geteuid().is_root()
}

/// The status for a process that is, or is not, elevated.
pub fn status_for(is_elevated: bool) -> (r: PrivilegeStatus)
    ensures
        r.is_elevated == is_elevated,
        r.hint is None <==> is_elevated,
        r.hint matches Some(h) ==> h@ == sudo_hint_text(),
{
    let hint = if is_elevated {
        None
    } else {
        Some(
            "Raw disk access requires root. Re-run this command with `sudo`, e.g. `sudo restora-cli scan /dev/sdb`.".to_owned(),
        )
    };
    PrivilegeStatus { is_elevated, hint }
}

/// Checks whether this process may read raw block devices. On Unix that
/// comes down to running as root: device permissions vary between
/// distributions, and root is the floor that always works.
pub fn check_privilege() -> (r: PrivilegeStatus)
    ensures
        r.hint is None <==> r.is_elevated,
        r.hint matches Some(h) ==> h@ == sudo_hint_text(),
{
    status_for(effective_uid_is_root())
}

/// Why a raw disk could not be opened.
#[derive(Debug)]
pub enum RawDiskError {
    InsufficientPrivilege(String),
    SizeQueryFailed(String),
    Io(std::io::Error),
}

impl RawDiskError {
    /// A readable description of the error.
    pub fn message(&self) -> (r: String)
        ensures
            *self matches RawDiskError::InsufficientPrivilege(s) ==> r@ == "insufficient privilege: "@ + s@,
            *self matches RawDiskError::SizeQueryFailed(s) ==> r@ == "failed to query device size: "@ + s@,
    {
        match self {
            RawDiskError::InsufficientPrivilege(s) => "insufficient privilege: ".to_owned().concat(s.as_str()),
            RawDiskError::SizeQueryFailed(s) => "failed to query device size: ".to_owned().concat(s.as_str()),
            RawDiskError::Io(e) => io_error_text(e),
        }
    }
}

/// Whether a raw disk may be opened: only by an elevated process; for any
/// other, an error carrying the status's hint.
pub fn require_privilege(status: PrivilegeStatus) -> (r: Result<(), RawDiskError>)
    ensures
        r is Ok <==> status.is_elevated,
        !status.is_elevated ==> (r matches Err(RawDiskError::InsufficientPrivilege(m)) && m@ == match status.hint {
            Some(h) => h@,
            None => "insufficient privilege"@,
        }),
{
    if status.is_elevated {
        return Ok(());
    }
    let message = match status.hint {
        Some(h) => h,
        None => "insufficient privilege".to_owned(),
    };
    Err(RawDiskError::InsufficientPrivilege(message))
}

/// A device's size: what the block-device size query reported, or, when
/// it failed (the path is a regular file, or the query does not apply),
/// the file's length, or zero when that cannot be read either.
pub fn device_size(queried: Option<u64>, file_len: Option<u64>) -> (r: u64)
    ensures
        queried matches Some(n) ==> r == n,
        queried is None ==> r == match file_len {
            Some(n) => n,
            None => 0,
        },
{
    match queried {
        Some(n) => n,
        None => match file_len {
            Some(n) => n,
            None => 0,
        },
    }
}

} // verus!
