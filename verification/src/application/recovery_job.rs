//! Recovering found files: everything a `RecoverableFile` needs is in its
//! locator, so recovery works right after a scan or long after, against
//! a reloaded session.
//!
//! A freshly opened NTFS parser does not yet remember which record each
//! name came from; calling `enumerate_deleted` on it once before
//! recovering lets a reloaded session recover fragmented files through
//! their full run lists, as the first scan could.

use crate::application::error::{ApplicationError, message_ok};
use crate::detect::DetectedParser;
use crate::recoverable::{RecoverableFile, RecoveryLocator};
use crate::source::{ByteSource, range_in_bounds};
use vstd::prelude::*;

verus! {

#[verifier::external_type_specification]
#[verifier::external_body]
pub struct ExPathBuf(std::path::PathBuf);

/// What recovering one file came to.
#[derive(Debug, Clone)]
pub struct RecoveryResult {
    pub name: String,
    pub success: bool,
    pub bytes_written: u64,
    pub output_path: Option<std::path::PathBuf>,
    pub error: Option<String>,
}

/// Whether `file` can be handed to `recover_file_bytes` with `parser`:
/// a carved range must not end before it starts, and a non-empty entry
/// needs a volume with non-empty clusters.
pub open spec fn recoverable_with(parser: Option<&DetectedParser>, file: RecoverableFile) -> bool {
    match file.locator {
        RecoveryLocator::CarvedRange { start_offset, end_offset } => start_offset <= end_offset,
        RecoveryLocator::Metadata(entry) => match parser {
            Some(p) => entry.file_size == 0 || p.spec_cluster_bytes() > 0,
            None => true,
        },
    }
}

/// The bytes of `file`: through `parser` for a metadata result, a direct
/// read for a carved one. A metadata result with no parser (no known
/// filesystem on the source) cannot be recovered.
pub fn recover_file_bytes<S: ByteSource>(
    source: &S,
    parser: Option<&DetectedParser>,
    file: &RecoverableFile,
) -> (r: Result<Vec<u8>, ApplicationError>)
    requires
        recoverable_with(parser, *file),
    ensures
        file.locator matches RecoveryLocator::Metadata(entry) ==> match parser {
            None => r matches Err(ApplicationError::NoFilesystemDetected),
            Some(p) => match r {
                Ok(v) => p.spec_recover_ok(source.spec_content(), source.spec_faultless(), entry@, Ok(v)),
                Err(ApplicationError::Domain(e)) => p.spec_recover_ok(
                    source.spec_content(),
                    source.spec_faultless(),
                    entry@,
                    Err(e),
                ),
                Err(_) => false,
            },
        },
        file.locator matches RecoveryLocator::CarvedRange { start_offset, end_offset } ==> {
            let len = end_offset - start_offset;
            let inside = range_in_bounds(start_offset as int, len, source.spec_content().len() as int) && len
                <= usize::MAX;
            &&& r matches Ok(v) ==> inside && v@ == source.spec_content().subrange(
                start_offset as int,
                end_offset as int,
            )
            &&& !inside ==> (r matches Err(ApplicationError::ByteSource(_)))
            &&& source.spec_faultless() && inside ==> r is Ok
            &&& r matches Err(e) ==> e is ByteSource
        },
{
    match &file.locator {
        RecoveryLocator::Metadata(entry) => {
            let p = match parser {
                Some(p) => p,
                None => {
                    return Err(ApplicationError::NoFilesystemDetected);
                },
            };
            match p.recover_bytes(source, entry) {
                Ok(v) => Ok(v),
                Err(e) => Err(ApplicationError::Domain(e)),
            }
        },
        RecoveryLocator::CarvedRange { start_offset, end_offset } => {
            let len = end_offset - start_offset;
            if len > usize::MAX as u64 {
                return Err(
                    ApplicationError::ByteSource(
                        crate::source::ByteSourceError::OutOfBounds {
                            offset: *start_offset,
                            len: usize::MAX,
                            size: source.size(),
                        },
                    ),
                );
            }
            match source.read_vec(*start_offset, len as usize) {
                Ok(v) => Ok(v),
                Err(e) => Err(ApplicationError::ByteSource(e)),
            }
        },
    }
}

/// The message of a recovery that gave no bytes.
pub open spec fn empty_recovery_text() -> Seq<char> {
    "recovered 0 bytes — data may already be overwritten"@
}

/// The record of recovering `name`: from the number of bytes written and
/// where, or from the error. Recovering nothing counts as a failure,
/// since the data is then most likely overwritten.
pub fn recovery_result(name: String, outcome: Result<(u64, std::path::PathBuf), ApplicationError>) -> (r:
    RecoveryResult)
    ensures
        r.name@ == name@,
        match outcome {
            Ok((n, path)) => {
                &&& r.success == (n > 0)
                &&& r.bytes_written == n
                &&& r.output_path == Some(path)
                &&& n == 0 ==> (r.error matches Some(m) && m@ == empty_recovery_text())
                &&& n > 0 ==> r.error is None
            },
            Err(e) => {
                &&& !r.success
                &&& r.bytes_written == 0
                &&& r.output_path is None
                &&& r.error matches Some(m) && message_ok(e, m@)
            },
        },
{
    match outcome {
        Ok((n, path)) => {
            let error = if n == 0 {
                proof {
                    reveal_strlit("recovered 0 bytes — data may already be overwritten");
                }
                Some("recovered 0 bytes — data may already be overwritten".to_owned())
            } else {
                None
            };
            RecoveryResult { name, success: n > 0, bytes_written: n, output_path: Some(path), error }
        },
        Err(e) => RecoveryResult {
            name,
            success: false,
            bytes_written: 0,
            output_path: None,
            error: Some(e.message()),
        },
    }
}

} // verus!
