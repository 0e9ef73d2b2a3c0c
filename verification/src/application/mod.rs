//! Orchestration: a scan session from start to finish, recovery of what
//! it found, and the free-space wipe.

pub mod error;
pub mod event_bus;
pub mod recovery_job;
pub mod scan_session;
pub mod session_store;
pub mod wipe_job;
