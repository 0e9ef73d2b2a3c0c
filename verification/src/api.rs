//! The typed boundary a user interface calls: each function returns its
//! error as a message, since the other side of an IPC call does not know
//! the library's error types.

use crate::application::error::{ApplicationError, ssd_refusal_text};
use crate::application::event_bus::Unobserved;
use crate::application::scan_session::{ScanMode, ScanSession, ScanState, full_carve_ok, scan_ok};
use crate::application::wipe_job::{WipeResult, wipe_free_space, wipe_outcome_ok};
use crate::secure_delete::wipe_pattern::{PassFill, WipePattern};
use crate::source::{ByteSource, ByteSourceError, WritableByteSource, starts_with};
use crate::clock::unix_time_millis;
use crate::text::{decimal, decimal_string, same_text};
use vstd::prelude::*;

verus! {

/// The message for a pattern name that is not one of the three.
pub open spec fn unknown_pattern_text(name: Seq<char>) -> Seq<char> {
    "unknown wipe pattern '"@ + name + "' — expected one of: zero, random, dod3"@
}

/// The passes of the pattern a user interface calls `name`.
pub open spec fn pattern_passes(name: Seq<char>) -> Seq<PassFill> {
    if name == "zero"@ {
        seq![PassFill::Zero]
    } else if name == "random"@ {
        seq![PassFill::Random]
    } else {
        seq![PassFill::Zero, PassFill::One, PassFill::Random]
    }
}

/// The display name of the pattern a user interface calls `name`.
pub open spec fn pattern_title(name: Seq<char>) -> Seq<char> {
    if name == "zero"@ {
        "Zero (1-pass)"@
    } else if name == "random"@ {
        "Random (1-pass)"@
    } else {
        "DoD 5220.22-M (3-pass)"@
    }
}

/// Whether `name` is one of the pattern names a user interface offers.
pub open spec fn known_pattern_name(name: Seq<char>) -> bool {
    name == "zero"@ || name == "random"@ || name == "dod3"@
}

/// Parses a pattern name as a user interface offers it: "zero",
/// "random" or "dod3".
pub fn parse_wipe_pattern(name: &str) -> (r: Result<WipePattern, String>)
    ensures
        name@ == "zero"@ ==> (r matches Ok(p) && p.passes@ == seq![PassFill::Zero]),
        name@ == "random"@ ==> (r matches Ok(p) && p.passes@ == seq![PassFill::Random]),
        name@ == "dod3"@ ==> (r matches Ok(p) && p.passes@ == seq![PassFill::Zero, PassFill::One, PassFill::Random]),
        r is Err <==> !known_pattern_name(name@),
        r matches Err(m) ==> m@ == unknown_pattern_text(name@),
        r matches Ok(p) ==> p.name@ == pattern_title(name@) && p.passes@ == pattern_passes(name@),
{
    proof {
        reveal_strlit("zero");
        reveal_strlit("random");
        reveal_strlit("dod3");
        assert("zero"@ != "random"@) by {
            assert("zero"@.len() != "random"@.len());
        }
        assert("zero"@ != "dod3"@) by {
            assert("zero"@[0] != "dod3"@[0]);
        }
        assert("random"@ != "dod3"@) by {
            assert("random"@.len() != "dod3"@.len());
        }
    }
    if same_text(name, "zero") {
        Ok(WipePattern::zero())
    } else if same_text(name, "random") {
        Ok(WipePattern::random())
    } else if same_text(name, "dod3") {
        Ok(WipePattern::dod_3pass())
    } else {
        let m = "unknown wipe pattern '".to_owned().concat(name).concat("' — expected one of: zero, random, dod3");
        Err(m)
    }
}

/// A one-shot scan with no live progress, for a user interface that
/// only wants the finished session. The session id is "session-" and the
/// time in milliseconds.
pub fn run_scan<S: ByteSource>(image_path: &str, opened: Result<S, ByteSourceError>, mode: ScanMode) -> (r: Result<
    ScanSession,
    String,
>)
    ensures
        opened is Err <==> r is Err,
        r matches Err(m) ==> m@.len() > 0,
        opened matches Ok(src) ==> (r matches Ok(s) && (exists|millis: u64| s.id@ == "session-"@ + #[trigger] decimal(millis as nat)) && scan_ok(
            src.spec_content(),
            src.spec_faultless(),
            src.spec_label(),
            s.id@,
            image_path@,
            mode,
            s,
        )),
        opened matches Ok(src) ==> (r matches Ok(s) ==> {
            &&& s.state != ScanState::Cancelled
            &&& src.spec_faultless() ==> s.state == ScanState::Complete
            &&& s.state == ScanState::Complete ==> s.progress.scanned_bytes == src.spec_content().len()
            &&& mode == ScanMode::Deep && s.state != ScanState::Failed ==> full_carve_ok(
                src.spec_content(),
                src.spec_faultless(),
                s,
            )
        }),
{
    let millis = match unix_time_millis() {
        Some(m) => m,
        None => 0,
    };
    let id = "session-".to_owned().concat(decimal_string(millis).as_str());
    proof {
        assert(id@ == "session-"@ + decimal(millis as nat));
    }
    let (outcome, _observer) = ScanSession::run(id, image_path, opened, mode, Unobserved::new());
    match outcome {
        Ok(s) => Ok(s),
        Err(e) => Err(e.message()),
    }
}

/// What the wipe command may give back as a message-carrying result,
/// for the outcome `ar` of the wipe itself: the same result, or the
/// wipe's error as a message.
pub open spec fn command_result_ok(ar: Result<WipeResult, ApplicationError>, r: Result<WipeResult, String>) -> bool {
    &&& ar is Ok <==> r is Ok
    &&& r matches Ok(w) ==> ar == Ok::<WipeResult, ApplicationError>(w)
    &&& r matches Err(m) ==> m@.len() > 0
    &&& ar matches Err(ApplicationError::NoFilesystemDetected) ==> (r matches Err(m) && m@
        == "no recognized filesystem found, and scan mode did not include carving"@)
    &&& ar matches Err(ApplicationError::ByteSource(_)) ==> (r matches Err(m) && starts_with(
        m@,
        "byte source error: "@,
    ))
    &&& ar matches Err(ApplicationError::Domain(_)) ==> (r matches Err(m) && starts_with(m@, "domain error: "@))
}

/// Parses `pattern_name`, then wipes the free space of the image whose
/// opening gave `opened`. An unknown pattern name, then an SSD refusal,
/// are decided before anything else and leave the image as it was.
pub fn wipe_free_space_cmd<W: WritableByteSource>(
    opened: &mut Result<W, ByteSourceError>,
    pattern_name: &str,
    assume_ssd: bool,
    verify: bool,
) -> (r: Result<WipeResult, String>)
    ensures
        !known_pattern_name(pattern_name@) ==> (r matches Err(m) && m@ == unknown_pattern_text(pattern_name@))
            && *final(opened) == *old(opened),
        known_pattern_name(pattern_name@) && assume_ssd ==> (r matches Err(m) && m@ == ssd_refusal_text())
            && *final(opened) == *old(opened),
        known_pattern_name(pattern_name@) && !assume_ssd && *old(opened) is Err ==> (r matches Err(m) && starts_with(
            m@,
            "byte source error: "@,
        )) && *final(opened) is Err,
        r matches Err(m) ==> m@.len() > 0,
        r is Ok ==> known_pattern_name(pattern_name@) && !assume_ssd && *old(opened) is Ok,
        known_pattern_name(pattern_name@) && !assume_ssd ==> (*old(opened) matches Ok(before) ==> (*final(opened) matches Ok(after)
            && exists|ar: Result<WipeResult, ApplicationError>|
            #[trigger] wipe_outcome_ok(
                before.spec_content(),
                before.spec_faultless(),
                after.spec_content(),
                pattern_passes(pattern_name@),
                pattern_title(pattern_name@),
                verify,
                ar,
            ) && command_result_ok(ar, r))),
{
    let pattern = match parse_wipe_pattern(pattern_name) {
        Ok(p) => p,
        Err(m) => {
            proof {
                assert(m@.len() > 0) by {
                    reveal_strlit("unknown wipe pattern '");
                }
            }
            return Err(m);
        },
    };
    let outcome = wipe_free_space(opened, &pattern, assume_ssd, verify);
    proof {
        reveal_strlit("no recognized filesystem found, and scan mode did not include carving");
    }
    match outcome {
        Ok(w) => Ok(w),
        Err(e) => {
            let m = e.message();
            proof {
                if let ApplicationError::NoFilesystemDetected = e {
                    assert(m@ == "no recognized filesystem found, and scan mode did not include carving"@);
                }
            }
            Err(m)
        },
    }
}

} // verus!
