//! What a running scan reports, and to whom.

use crate::recoverable::RecoverableFile;
use vstd::prelude::*;

verus! {

/// One thing a scan reports while it runs.
#[derive(Debug, Clone)]
pub enum ScanEvent {
    PhaseStarted { phase: String },
    Progress { phase: String, scanned_bytes: u64, total_bytes: u64 },
    FileFound { file: RecoverableFile },
    PhaseCompleted { phase: String },
    Cancelled,
    Completed { total_found: usize },
    Failed { message: String },
}

/// Whoever follows a scan: it hears every event, and may ask the scan to
/// stop. A UI forwards the events to its display and answers from its
/// cancel button; the scan keeps what it found before stopping.
///
/// `events` and `answers` are the observer's record of what it heard and
/// what it answered. Only a kind of observer whose `obeys_observer_laws`
/// is true promises to keep that record as the methods below describe; an
/// observer written outside verified code keeps the defaults, promises
/// nothing of its record, and may cancel at any time.
pub trait ScanObserver {
    /// True for a kind of observer that keeps `events` and `answers` as
    /// `emit` and `is_cancelled` describe.
    closed spec fn obeys_observer_laws() -> bool {
        false
    }

    /// True for a kind of observer that never asks the scan to stop.
    closed spec fn never_cancels() -> bool {
        false
    }

    /// True for a kind of observer that, once it has asked the scan to
    /// stop, goes on asking (as a cancel flag that is never cleared).
    closed spec fn cancels_for_good() -> bool {
        false
    }

    /// Every event the observer has heard, in order (meaningful for an
    /// observer that obeys the laws above).
    closed spec fn events(&self) -> Seq<ScanEvent> {
        arbitrary()
    }

    /// Every answer the observer has given to `is_cancelled`, in order
    /// (meaningful for an observer that obeys the laws above).
    closed spec fn answers(&self) -> Seq<bool> {
        arbitrary()
    }

    /// Hears one event.
    fn emit(&mut self, event: ScanEvent)
        ensures
            Self::obeys_observer_laws() ==> final(self).events() == old(self).events().push(event),
            Self::obeys_observer_laws() ==> final(self).answers() == old(self).answers(),
    ;

    /// Whether the scan should stop.
    fn is_cancelled(&mut self) -> (r: bool)
        ensures
            Self::obeys_observer_laws() ==> final(self).answers() == old(self).answers().push(r),
            Self::obeys_observer_laws() ==> final(self).events() == old(self).events(),
            Self::never_cancels() ==> !r,
            Self::obeys_observer_laws() && Self::cancels_for_good() && old(self).answers().len() > 0
                && old(self).answers().last() ==> r,
    ;
}

/// An observer that only keeps a ghost record of the events and never
/// cancels.
pub struct Unobserved {
    heard: Ghost<Seq<ScanEvent>>,
    said: Ghost<Seq<bool>>,
}

impl Unobserved {
    /// An observer that has heard nothing yet.
    pub fn new() -> (r: Unobserved)
        ensures
            r.events() == Seq::<ScanEvent>::empty(),
            r.answers() == Seq::<bool>::empty(),
    {
        Unobserved { heard: Ghost(Seq::empty()), said: Ghost(Seq::empty()) }
    }
}

impl ScanObserver for Unobserved {
    open spec fn obeys_observer_laws() -> bool {
        true
    }

    open spec fn never_cancels() -> bool {
        true
    }

    closed spec fn events(&self) -> Seq<ScanEvent> {
        self.heard@
    }

    closed spec fn answers(&self) -> Seq<bool> {
        self.said@
    }

    fn emit(&mut self, event: ScanEvent) {
        proof {
            self.heard = Ghost(self.heard@.push(event));
        }
    }

    fn is_cancelled(&mut self) -> (r: bool)
        ensures
            !r,
    {
        proof {
            self.said = Ghost(self.said@.push(false));
        }
        false
    }
}

} // verus!
