//! What a session store keeps beside each session: a timestamp, and the
//! summary shown when sessions are listed. The store itself (SQLite, one
//! JSON blob per session) lives with the program that owns the database.

use crate::application::scan_session::{ScanSession, ScanState};
use crate::text::{decimal, decimal_string};
use vstd::prelude::*;

verus! {

/// A saved session in brief, for listing without loading every result.
#[derive(Debug, Clone)]
pub struct SessionSummary {
    pub id: String,
    pub updated_at: String,
    pub device_label: String,
    pub state: ScanState,
    pub files_found: usize,
}

impl SessionSummary {
    /// The summary of `session`, saved under `id` at `updated_at`.
    pub fn of_session(id: String, updated_at: String, session: ScanSession) -> (r: SessionSummary)
        ensures
            r.id@ == id@,
            r.updated_at@ == updated_at@,
            r.device_label@ == session.device_label@,
            r.state == session.state,
            r.files_found == session.results@.len(),
    {
        let files_found = session.results.len();
        SessionSummary { id, updated_at, device_label: session.device_label, state: session.state, files_found }
    }
}

/// "unix:" and the seconds since the Unix epoch: when a session was last
/// saved.
pub fn timestamp_text(secs: u64) -> (r: String)
    ensures
        r@ == "unix:"@ + decimal(secs as nat),
{
    "unix:".to_owned().concat(decimal_string(secs).as_str())
}

} // verus!
