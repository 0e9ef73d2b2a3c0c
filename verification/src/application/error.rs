//! Errors of the scan, recovery and wipe jobs.

use crate::error::{DomainError, domain_message_ok};
use crate::source::{ByteSourceError, byte_source_message_ok, starts_with};
use crate::text::io_error_text;
use vstd::prelude::*;

verus! {

/// Why a job failed.
#[derive(Debug)]
pub enum ApplicationError {
    Domain(DomainError),
    ByteSource(ByteSourceError),
    /// No saved session has this id.
    SessionNotFound(String),
    /// No known filesystem is on the source.
    NoFilesystemDetected,
    /// An overwrite wipe was asked for on a drive marked as an SSD.
    SsdOverwriteRefused,
    Io(std::io::Error),
}

/// `m` is the message of `e`: a prefix naming the kind of error followed
/// by the inner error's message, and the full text of the errors the
/// library raises itself.
pub open spec fn message_ok(e: ApplicationError, m: Seq<char>) -> bool {
    &&& e matches ApplicationError::Domain(_) ==> starts_with(m, "domain error: "@)
    &&& e matches ApplicationError::ByteSource(_) ==> starts_with(m, "byte source error: "@)
    &&& e matches ApplicationError::Domain(d) ==> exists|t: Seq<char>|
        m == "domain error: "@ + t && #[trigger] domain_message_ok(d, t)
    &&& e matches ApplicationError::ByteSource(b) ==> exists|t: Seq<char>|
        m == "byte source error: "@ + t && #[trigger] byte_source_message_ok(b, t)
    &&& e matches ApplicationError::SessionNotFound(id) ==> m == "no session found with id '"@ + id@ + "'"@
    &&& e is NoFilesystemDetected ==> m == "no recognized filesystem found, and scan mode did not include carving"@
    &&& e is SsdOverwriteRefused ==> m == ssd_refusal_text()
    &&& e is Io ==> starts_with(m, "io error: "@)
    &&& m.len() > 0
}

impl ApplicationError {
    /// A readable description of the error.
    pub fn message(&self) -> (r: String)
        ensures
            message_ok(*self, r@),
    {
        match self {
            ApplicationError::Domain(e) => {
                let inner = e.message();
                let r = "domain error: ".to_owned().concat(inner.as_str());
                proof {
                    reveal_strlit("domain error: ");
                    assert(r@.subrange(0, "domain error: "@.len() as int) =~= "domain error: "@);
                    assert(domain_message_ok(*e, inner@));
                }
                r
            },
            ApplicationError::ByteSource(e) => {
                let inner = e.message();
                let r = "byte source error: ".to_owned().concat(inner.as_str());
                proof {
                    reveal_strlit("byte source error: ");
                    assert(r@.subrange(0, "byte source error: "@.len() as int) =~= "byte source error: "@);
                    assert(byte_source_message_ok(*e, inner@));
                }
                r
            },
            ApplicationError::SessionNotFound(id) => {
                let r = "no session found with id '".to_owned().concat(id.as_str()).concat("'");
                proof {
                    reveal_strlit("no session found with id '");
                }
                r
            },
            ApplicationError::NoFilesystemDetected => {
                proof {
                    reveal_strlit("no recognized filesystem found, and scan mode did not include carving");
                }
                "no recognized filesystem found, and scan mode did not include carving".to_owned()
            },
            ApplicationError::SsdOverwriteRefused => {
                proof {
                    reveal_strlit(
                        "refusing to run an overwrite-based wipe on what's been marked as an SSD — overwriting is unreliable on flash media due to wear leveling; use TRIM/Deallocate or crypto-erase instead",
                    );
                }
                "refusing to run an overwrite-based wipe on what's been marked as an SSD — overwriting is unreliable on flash media due to wear leveling; use TRIM/Deallocate or crypto-erase instead".to_owned()
            },
            ApplicationError::Io(e) => {
                let text = io_error_text(e);
                let r = "io error: ".to_owned().concat(text.as_str());
                proof {
                    reveal_strlit("io error: ");
                    assert(r@.subrange(0, "io error: "@.len() as int) =~= "io error: "@);
                }
                r
            },
        }
    }
}

/// Why an overwrite wipe is refused on an SSD.
pub open spec fn ssd_refusal_text() -> Seq<char> {
    "refusing to run an overwrite-based wipe on what's been marked as an SSD — overwriting is unreliable on flash media due to wear leveling; use TRIM/Deallocate or crypto-erase instead"@
}

} // verus!
