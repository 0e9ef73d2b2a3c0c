//! `ScanSession`: drives a scan end to end (a metadata pass, then for a
//! deep scan a carving pass), reporting progress to an observer and
//! producing the list of recoverable files that a session store can keep
//! and a recovery job can act on.
//!
//! The carving pass asks the observer between chunks whether to stop, and
//! keeps what it found so far when it does. Resuming a cancelled scan
//! starts over from the beginning.

use crate::application::error::ApplicationError;
use crate::application::event_bus::{ScanEvent, ScanObserver};
use crate::carving::carver::{
    CarvedFile,
    ProgressSink,
    SignatureCarver,
    carve_complete,
    carve_result,
    carve_step,
    chunk_len,
    chunk_pos,
    is_last_chunk,
    progress_reports,
    chunks_scanned,
    lemma_full_scan_is_complete,
    extent_ok,
    lemma_extent_ordered,
    sig_index_at,
    go_on_answers,
    go_on_record_ok,
    sink_record_ok,
    stop_answers_ok,
};
use crate::carving::signatures::{FileSignature, is_known_table};
use crate::detect::{DetectedParser, detect_parser, fat32_volume};
use crate::fat32::fat32_parser::spec_deleted_entries;
use crate::ntfs::ntfs_parser::{NtfsModel, entries_upto, entry_from_records, records_scanned, spec_ntfs_setup};
use crate::parser::{DeletedEntry, EntryModel, entry_models};
use crate::recoverable::{RecoverableFile, RecoveryLocator, RecoverySource, carved_name_of};
use crate::source::{ByteSource, ByteSourceError, starts_with};
use vstd::prelude::*;

verus! {

/// Where a session is.
#[derive(Debug, Clone, Copy, PartialEq, Eq, Structural)]
pub enum ScanState {
    Idle,
    Scanning,
    Cancelled,
    Complete,
    Failed,
}

/// How thorough a scan is.
#[derive(Debug, Clone, Copy, PartialEq, Eq, Structural)]
pub enum ScanMode {
    /// Filesystem metadata only: fast.
    Quick,
    /// Metadata, then a carving pass over the whole source: slower, but
    /// finds files with no surviving metadata at all.
    Deep,
}

/// How far a scan has got.
#[derive(Debug, Clone)]
pub struct ScanProgress {
    pub scanned_bytes: u64,
    pub total_bytes: u64,
    pub current_phase: String,
}

impl Default for ScanProgress {
    fn default() -> (r: ScanProgress)
        ensures
            r.scanned_bytes == 0,
            r.total_bytes == 0,
            r.current_phase@.len() == 0,
    {
        ScanProgress { scanned_bytes: 0, total_bytes: 0, current_phase: String::new() }
    }
}

/// One scan of one source, and what it found.
#[derive(Debug, Clone)]
pub struct ScanSession {
    pub id: String,
    pub image_path: String,
    pub device_label: String,
    pub mode: ScanMode,
    pub state: ScanState,
    pub progress: ScanProgress,
    pub filesystem_detected: Option<String>,
    pub error_message: Option<String>,
    pub results: Vec<RecoverableFile>,
}

/// `r` is the result with id `id` for deleted entry `e` of a `fs` volume.
pub open spec fn deleted_result_ok(r: RecoverableFile, id: int, fs: Seq<char>, e: EntryModel) -> bool {
    &&& r.id == id
    &&& r.name@ == e.name
    &&& r.size == e.file_size
    &&& r.confidence == e.confidence
    &&& r.source matches RecoverySource::Metadata { filesystem: f } && f@ == fs
    &&& r.locator matches RecoveryLocator::Metadata(d) && d@ == e
}

/// `r` is the result with id `id` for the `index`-th carved file `c`.
pub open spec fn carved_result_ok(r: RecoverableFile, id: int, index: int, c: CarvedFile) -> bool {
    &&& r.id == id
    &&& r.name@ == carved_name_of(index as nat, c.extension@)
    &&& r.size == c.end_offset - c.start_offset
    &&& r.confidence == c.confidence
    &&& r.source matches RecoverySource::Carved { format: f } && f@ == c.format_name@
    &&& r.locator == (RecoveryLocator::CarvedRange { start_offset: c.start_offset, end_offset: c.end_offset })
}

/// The deleted entries of the filesystem on a source of `content` whose
/// reads never fail: FAT32 first, then NTFS; `None` when there is no
/// filesystem or its directories cannot be read.
pub open spec fn detected_entries(content: Seq<u8>) -> Option<Seq<EntryModel>> {
    match fat32_volume(content) {
        Some(bs) => spec_deleted_entries(content, bs),
        None => match spec_ntfs_setup(content) {
            Some((bs, runs, bm)) => {
                let m = NtfsModel { boot_sector: bs, mft_runs: runs, bitmap: bm };
                Some(entries_upto(content, m, records_scanned(m)))
            },
            None => None,
        },
    }
}

/// The name of the filesystem on a source of `content` whose reads never
/// fail.
pub open spec fn detected_name(content: Seq<u8>) -> Option<Seq<char>> {
    if fat32_volume(content) is Some {
        Some("FAT32"@)
    } else if spec_ntfs_setup(content) is Some {
        Some("NTFS"@)
    } else {
        None
    }
}

/// The metadata results: one per deleted entry, in order, with ids from
/// 0, of the filesystem detected, which is on the source. From a FAT32
/// volume, results are exactly the entries of its metadata; from an NTFS
/// volume, each is described by one of the MFT records a scan looks at;
/// from a source whose reads never fail, the filesystem detected and the
/// entries are exactly those of its metadata (none when they cannot be
/// read).
pub open spec fn metadata_part_ok(
    content: Seq<u8>,
    faultless: bool,
    fs: Option<String>,
    res: Seq<RecoverableFile>,
) -> bool {
    &&& fs is None ==> res.len() == 0
    &&& fs matches Some(name) ==> (name@ == "FAT32"@ || name@ == "NTFS"@)
    &&& faultless ==> match fs {
        Some(name) => detected_name(content) == Some(name@),
        None => detected_name(content) is None,
    }
    &&& match fs {
        Some(name) => (name@ == "FAT32"@ ==> fat32_volume(content) is Some) && (name@ == "NTFS"@
            ==> spec_ntfs_setup(content) is Some),
        None => true,
    }
    &&& exists|entries: Seq<EntryModel>|
        {
            &&& #[trigger] entries.len() == res.len()
            &&& forall|i: int|
                0 <= i < res.len() ==> (fs matches Some(name) && deleted_result_ok(
                    #[trigger] res[i],
                    i,
                    name@,
                    entries[i],
                ))
            &&& faultless ==> entries == match detected_entries(content) {
                Some(found) => found,
                None => Seq::<EntryModel>::empty(),
            }
            &&& fs matches Some(name) ==> (name@ == "FAT32"@ && res.len() > 0 ==> detected_entries(content)
                == Some(entries))
            &&& fs matches Some(name) ==> (name@ == "NTFS"@ ==> forall|j: int|
                0 <= j < entries.len() ==> #[trigger] entry_from_records(content, detected_ntfs(content), entries[j]))
        }
}

/// The layout of the NTFS volume on `content`, when there is one.
pub open spec fn detected_ntfs(content: Seq<u8>) -> NtfsModel {
    match spec_ntfs_setup(content) {
        Some((bs, runs, bm)) => NtfsModel { boot_sector: bs, mft_runs: runs, bitmap: bm },
        None => arbitrary(),
    }
}

/// The carved results, with ids from `first_id`: the files a carving pass
/// over the whole source found in the chunks it scanned before it was
/// stopped or finished, in order of start offset; none for a quick scan.
pub open spec fn carved_part_ok(content: Seq<u8>, mode: ScanMode, first_id: int, res: Seq<RecoverableFile>) -> bool {
    &&& mode == ScanMode::Quick ==> res.len() == 0
    &&& res.len() > 0 ==> exists|sigs: Seq<FileSignature>, files: Seq<CarvedFile>, k: int|
        {
            &&& is_known_table(sigs)
            &&& chunks_scanned(0, content.len() as int, 1_000_000, k, false)
            &&& #[trigger] carve_result(content, sigs, 0, content.len() as int, 1_000_000, k, files)
            &&& files.len() == res.len()
            &&& forall|i: int| 0 <= i < res.len() ==> carved_result_ok(#[trigger] res[i], first_id + i, i, files[i])
        }
}

/// `s` is what a scan of a source of `content` (labelled `label`) with
/// these settings gives: it ended complete, cancelled or failed (failed
/// only in a carving pass, with a message); its results are the metadata
/// results followed by the carved ones.
pub open spec fn scan_ok(
    content: Seq<u8>,
    faultless: bool,
    label: Seq<char>,
    id: Seq<char>,
    path: Seq<char>,
    mode: ScanMode,
    s: ScanSession,
) -> bool {
    &&& s.id@ == id
    &&& s.image_path@ == path
    &&& s.device_label@ == label
    &&& s.mode == mode
    &&& s.progress.total_bytes == content.len()
    &&& s.state == ScanState::Complete || s.state == ScanState::Cancelled || s.state == ScanState::Failed
    &&& s.state == ScanState::Complete ==> s.progress.current_phase@ == "done"@
    &&& s.state == ScanState::Failed ==> s.progress.current_phase@ == "carving"@
    &&& s.state == ScanState::Cancelled ==> (s.progress.current_phase@ == "metadata"@
        || s.progress.current_phase@ == "carving"@)
    &&& mode == ScanMode::Quick && s.state != ScanState::Complete ==> s.progress.current_phase@ == "metadata"@
    &&& s.state == ScanState::Failed <==> s.error_message is Some
    &&& s.state == ScanState::Failed ==> mode == ScanMode::Deep
    &&& s.state == ScanState::Failed ==> (s.error_message matches Some(m) && starts_with(
        m@,
        "carving phase: "@ + "underlying byte source error: "@,
    ))
    &&& exists|m: int|
        0 <= m <= s.results.len() && #[trigger] metadata_part_ok(content, faultless, s.filesystem_detected, s.results@.take(m))
            && carved_part_ok(content, mode, m, s.results@.skip(m))
}

/// `evs` are the carving phase's `Progress` events for `reports`, one
/// each, in order.
pub open spec fn progress_events_ok(evs: Seq<ScanEvent>, reports: Seq<(u64, u64)>) -> bool {
    &&& evs.len() == reports.len()
    &&& forall|j: int|
        0 <= j < evs.len() ==> (#[trigger] evs[j] matches ScanEvent::Progress {
            phase,
            scanned_bytes,
            total_bytes,
        } && phase@ == "carving"@ && scanned_bytes == reports[j].0 && total_bytes == reports[j].1)
}

/// `evs` are one `FileFound` event for each of `res`, in order.
pub open spec fn found_events_ok(evs: Seq<ScanEvent>, res: Seq<RecoverableFile>) -> bool {
    &&& evs.len() == res.len()
    &&& forall|j: int|
        0 <= j < evs.len() ==> (#[trigger] evs[j] matches ScanEvent::FileFound { file } && same_result(
            file,
            res[j],
        ))
}

/// Reports carving progress to a scan's observer, remembering how far
/// the pass got, what it reported and what it answered.
struct CarvingProgress<O: ScanObserver> {
    observer: O,
    scanned: u64,
    ev0: Ghost<Seq<ScanEvent>>,
    ans0: Ghost<Seq<bool>>,
    heard: Ghost<Seq<(u64, u64)>>,
    said: Ghost<Seq<bool>>,
}

impl<O: ScanObserver> ProgressSink for CarvingProgress<O> {
    open spec fn obeys_sink_laws() -> bool {
        true
    }

    closed spec fn never_stops(&self) -> bool {
        O::never_cancels()
    }

    closed spec fn reports(&self) -> Seq<(u64, u64)> {
        self.heard@
    }

    closed spec fn answers(&self) -> Seq<bool> {
        self.said@
    }

    /// The pass's position is the last one reported, and the observer has
    /// heard one `Progress` event per report and answered "cancel" exactly
    /// where the sink answered "stop".
    closed spec fn consistent(&self) -> bool {
        &&& self.scanned == if self.heard@.len() > 0 {
            self.heard@.last().0
        } else {
            0
        }
        &&& self.said@.len() == self.heard@.len()
        &&& O::obeys_observer_laws() ==> {
            &&& self.observer.events().len() == self.ev0@.len() + self.heard@.len()
            &&& self.observer.events().take(self.ev0@.len() as int) == self.ev0@
            &&& progress_events_ok(self.observer.events().skip(self.ev0@.len() as int), self.heard@)
            &&& self.observer.answers().len() == self.ans0@.len() + self.said@.len()
            &&& self.observer.answers().take(self.ans0@.len() as int) == self.ans0@
            &&& forall|j: int|
                0 <= j < self.said@.len() ==> #[trigger] self.observer.answers().skip(self.ans0@.len() as int)[j]
                    == !self.said@[j]
        }
    }

    closed spec fn same_frame(&self, later: Self) -> bool {
        self.ev0 == later.ev0 && self.ans0 == later.ans0
    }

    fn on_progress(&mut self, scanned: u64, total: u64) -> (keep_going: bool) {
        let ghost e_before = self.observer.events();
        let ghost a_before = self.observer.answers();
        proof {
            self.heard = Ghost(self.heard@.push((scanned, total)));
        }
        self.scanned = scanned;
        self.observer.emit(ScanEvent::Progress { phase: "carving".to_owned(), scanned_bytes: scanned, total_bytes: total });
        let stop = self.observer.is_cancelled();
        proof {
            self.said = Ghost(self.said@.push(!stop));
            if O::obeys_observer_laws() && old(self).consistent() {
                let n = self.ev0@.len() as int;
                let e = self.observer.events();
                assert(e == e_before.push(e.last()));
                assert(e.take(n) =~= e_before.take(n));
                assert(e.skip(n) =~= e_before.skip(n).push(e.last()));
                let m = self.ans0@.len() as int;
                let a = self.observer.answers();
                assert(a.take(m) =~= a_before.take(m));
                assert forall|j: int| 0 <= j < self.said@.len() implies #[trigger] a.skip(m)[j] == !self.said@[j] by {
                    if j < self.said@.len() - 1 {
                        assert(a.skip(m)[j] == a_before.skip(m)[j]);
                    }
                }
            }
        }
        !stop
    }
}

/// The results a carving pass over the whole source gives, ids from
/// `first_id`: one per file carved from the chunks it scanned before the
/// observer stopped it or the source ended, in order of start offset (none
/// only when no header lies in those chunks).
pub open spec fn carve_outcome_ok(content: Seq<u8>, first_id: int, res: Seq<RecoverableFile>) -> bool {
    exists|sigs: Seq<FileSignature>, files: Seq<CarvedFile>, k: int|
        {
            &&& is_known_table(sigs)
            &&& chunks_scanned(0, content.len() as int, 1_000_000, k, false)
            &&& #[trigger] carve_result(content, sigs, 0, content.len() as int, 1_000_000, k, files)
            &&& files.len() == res.len()
            &&& forall|i: int| 0 <= i < res.len() ==> carved_result_ok(#[trigger] res[i], first_id + i, i, files[i])
        }
}

/// How many bytes from the start a scan of `0..len` has covered after
/// `k` chunks: up to the end of the last one.
pub open spec fn scanned_upto(len: int, k: int) -> int {
    if k <= 0 {
        0
    } else {
        chunk_pos(0, 1_000_000, k - 1) + chunk_len(0, len, 1_000_000, k - 1)
    }
}

/// A scan that reached the end of `0..len` covered all of it.
proof fn lemma_full_scan_covers(len: int, k: int)
    requires
        0 <= len,
        chunks_scanned(0, len, 1_000_000, k, true),
    ensures
        scanned_upto(len, k) == len,
{
}

/// The end of the last of `k` scanned chunks lies inside `0..len`.
proof fn lemma_chunk_end_bounds(len: int, k: int)
    requires
        0 <= len,
        k > 0,
        chunks_scanned(0, len, 1_000_000, k, false),
    ensures
        0 <= chunk_pos(0, 1_000_000, k - 1) + chunk_len(0, len, 1_000_000, k - 1) <= len,
{
    assert(chunk_pos(0, 1_000_000, k - 1) >= 0) by (nonlinear_arith)
        requires
            k > 0,
            chunk_pos(0, 1_000_000, k - 1) == 0 + (k - 1) * carve_step(1_000_000),
            carve_step(1_000_000) > 0,
    ;
    if k >= 2 {
        assert(!is_last_chunk(0, len, 1_000_000, k - 2));
        assert(chunk_pos(0, 1_000_000, k - 1) == chunk_pos(0, 1_000_000, k - 2) + carve_step(1_000_000)) by (nonlinear_arith);
    }
}

/// The results of a carving pass that scanned the whole source, ids from
/// `first_id`: one per known header lying wholly in the source, in order
/// of start offset.
pub open spec fn carve_full_ok(content: Seq<u8>, first_id: int, res: Seq<RecoverableFile>) -> bool {
    exists|sigs: Seq<FileSignature>, files: Seq<CarvedFile>|
        {
            &&& is_known_table(sigs)
            &&& #[trigger] carve_complete(content, sigs, 0, content.len() as int, files)
            &&& files.len() == res.len()
            &&& forall|i: int| 0 <= i < res.len() ==> carved_result_ok(#[trigger] res[i], first_id + i, i, files[i])
        }
}

/// `s`'s results are its metadata results followed by the full carve of
/// the whole source.
pub open spec fn full_carve_ok(content: Seq<u8>, faultless: bool, s: ScanSession) -> bool {
    exists|m: int|
        0 <= m <= s.results.len() && #[trigger] metadata_part_ok(content, faultless, s.filesystem_detected, s.results@.take(m))
            && carve_full_ok(content, m, s.results@.skip(m))
}

/// A carving pass's results are what `carved_part_ok` asks of a deep
/// scan.
proof fn lemma_carve_outcome_part(content: Seq<u8>, first_id: int, res: Seq<RecoverableFile>)
    requires
        carve_outcome_ok(content, first_id, res),
    ensures
        carved_part_ok(content, ScanMode::Deep, first_id, res),
{
    let (sigs, files, k) = choose|sigs: Seq<FileSignature>, files: Seq<CarvedFile>, k: int|
        {
            &&& is_known_table(sigs)
            &&& chunks_scanned(0, content.len() as int, 1_000_000, k, false)
            &&& #[trigger] carve_result(content, sigs, 0, content.len() as int, 1_000_000, k, files)
            &&& files.len() == res.len()
            &&& forall|i: int| 0 <= i < res.len() ==> carved_result_ok(#[trigger] res[i], first_id + i, i, files[i])
        };
    assert(carve_result(content, sigs, 0, content.len() as int, 1_000_000, k, files));
}

/// The witness for `scan_ok`'s split of the results.
proof fn lemma_scan_ok_at(content: Seq<u8>, faultless: bool, s: ScanSession, m: int)
    requires
        0 <= m <= s.results@.len(),
        metadata_part_ok(content, faultless, s.filesystem_detected, s.results@.take(m)),
        carved_part_ok(content, s.mode, m, s.results@.skip(m)),
    ensures
        exists|m: int|
            0 <= m <= s.results.len() && #[trigger] metadata_part_ok(content, faultless, s.filesystem_detected, s.results@.take(m))
                && carved_part_ok(content, s.mode, m, s.results@.skip(m)),
{
}

/// Where a result came from, as plain values: from metadata (and which
/// filesystem) or from carving (and which format).
pub open spec fn source_view(s: RecoverySource) -> (bool, Seq<char>) {
    match s {
        RecoverySource::Metadata { filesystem } => (true, filesystem@),
        RecoverySource::Carved { format } => (false, format@),
    }
}

/// How to recover a result, as plain values.
pub open spec fn locator_view(l: RecoveryLocator) -> (Option<EntryModel>, u64, u64) {
    match l {
        RecoveryLocator::Metadata(e) => (Some(e@), 0, 0),
        RecoveryLocator::CarvedRange { start_offset, end_offset } => (None, start_offset, end_offset),
    }
}

/// `a` and `b` describe the same result.
pub open spec fn same_result(a: RecoverableFile, b: RecoverableFile) -> bool {
    &&& a.id == b.id
    &&& a.name@ == b.name@
    &&& a.size == b.size
    &&& a.confidence == b.confidence
    &&& source_view(a.source) == source_view(b.source)
    &&& locator_view(a.locator) == locator_view(b.locator)
}

/// A copy of `f` for an event, field by field.
fn copy_result(f: &RecoverableFile) -> (r: RecoverableFile)
    ensures
        same_result(r, *f),
{
    let source = match &f.source {
        RecoverySource::Metadata { filesystem } => RecoverySource::Metadata { filesystem: filesystem.clone() },
        RecoverySource::Carved { format } => RecoverySource::Carved { format: format.clone() },
    };
    let locator = match &f.locator {
        RecoveryLocator::Metadata(e) => RecoveryLocator::Metadata(
            DeletedEntry {
                name: e.name.clone(),
                first_cluster: e.first_cluster,
                file_size: e.file_size,
                metadata_intact: e.metadata_intact,
                confidence: e.confidence,
            },
        ),
        RecoveryLocator::CarvedRange { start_offset, end_offset } => RecoveryLocator::CarvedRange {
            start_offset: *start_offset,
            end_offset: *end_offset,
        },
    };
    RecoverableFile { id: f.id, name: f.name.clone(), size: f.size, confidence: f.confidence, source, locator }
}

/// The events the metadata pass over a source of `content` sends: a
/// `FileFound` for each of its results in order, then, when enumerating
/// the detected filesystem `fs` failed (leaving no results), one `Failed`
/// whose message starts "metadata phase: ". With no filesystem detected
/// there is no such event; from a source whose reads never fail, there is
/// one exactly when the filesystem's entries cannot be read.
pub open spec fn metadata_events_ok(
    evs: Seq<ScanEvent>,
    res: Seq<RecoverableFile>,
    fs: Option<String>,
    content: Seq<u8>,
    faultless: bool,
) -> bool {
    &&& evs.len() > res.len() ==> fs is Some
    &&& faultless ==> (evs.len() > res.len() <==> (fs is Some && detected_entries(content) is None))
    &&& evs.len() == res.len() || (res.len() == 0 && evs.len() == 1)
    &&& forall|i: int|
        0 <= i < res.len() ==> (#[trigger] evs[i] matches ScanEvent::FileFound { file } && same_result(
            file,
            res[i],
        ))
    &&& evs.len() > res.len() ==> (evs[0] matches ScanEvent::Failed { message } && starts_with(
        message@,
        "metadata phase: "@,
    ))
}

/// The event that ends a session in state `s.state`: `Completed` with the
/// number of results, `Cancelled`, or `Failed` with the session's error
/// message.
pub open spec fn end_event_ok(e: ScanEvent, s: ScanSession) -> bool {
    &&& s.state == ScanState::Complete ==> (e matches ScanEvent::Completed { total_found } && total_found
        == s.results.len())
    &&& s.state == ScanState::Cancelled ==> e is Cancelled
    &&& s.state == ScanState::Failed ==> (e matches ScanEvent::Failed { message } && s.error_message matches Some(
        m,
    ) && message@ == m@)
}

/// The events of a quick scan, in order: the metadata phase starting, its
/// events, the phase completing, and the ending event.
pub open spec fn quick_log_ok(log: Seq<ScanEvent>, content: Seq<u8>, faultless: bool, s: ScanSession) -> bool {
    let n = log.len();
    &&& n >= 3
    &&& log[0] matches ScanEvent::PhaseStarted { phase } && phase@ == "metadata"@
    &&& metadata_events_ok(log.subrange(1, n - 2), s.results@, s.filesystem_detected, content, faultless)
    &&& log[n - 2] matches ScanEvent::PhaseCompleted { phase } && phase@ == "metadata"@
    &&& end_event_ok(log[n - 1], s)
}

/// `e` starts the phase `phase`.
pub open spec fn starts_phase(e: ScanEvent, phase: Seq<char>) -> bool {
    e matches ScanEvent::PhaseStarted { phase: p } && p@ == phase
}

/// `e` completes the phase `phase`.
pub open spec fn completes_phase(e: ScanEvent, phase: Seq<char>) -> bool {
    e matches ScanEvent::PhaseCompleted { phase: p } && p@ == phase
}

/// The events `log` and answers `ans` of a deep scan of a source of
/// `content` that gave `s`, split after `m` metadata results, `me`
/// metadata events and `k` carved chunks: the metadata phase starting, its
/// events, the phase completing; then the first answer. "Cancel" there
/// means nothing was carved, and one more answer came before the ending
/// event. Otherwise the carving phase starts, with its progress and
/// `FileFound` events and answers as `carving_log_ok` describes, and ends
/// with `Failed` (the last event), or completes and is followed by one
/// more answer and the ending event.
pub open spec fn deep_log_at(
    log: Seq<ScanEvent>,
    ans: Seq<bool>,
    content: Seq<u8>,
    faultless: bool,
    s: ScanSession,
    m: int,
    me: int,
    k: int,
) -> bool {
    let nf = s.results.len() - m;
    let ok = s.state != ScanState::Failed;
    &&& 0 <= m <= s.results.len()
    &&& metadata_part_ok(content, faultless, s.filesystem_detected, s.results@.take(m))
    &&& 0 <= me
    &&& me + 3 <= log.len()
    &&& starts_phase(log[0], "metadata"@)
    &&& metadata_events_ok(log.subrange(1, me + 1), s.results@.take(m), s.filesystem_detected, content, faultless)
    &&& completes_phase(log[me + 1], "metadata"@)
    &&& ans.len() >= 1
    &&& ans[0] ==> {
        &&& ans.len() == 2
        &&& log.len() == me + 3
        &&& s.results.len() == m
        &&& s.progress.scanned_bytes == content.len()
        &&& s.state != ScanState::Complete ==> s.progress.current_phase@ == "metadata"@
    }
    &&& !ans[0] ==> {
        &&& starts_phase(log[me + 2], "carving"@)
        &&& s.state != ScanState::Complete ==> s.progress.current_phase@ == "carving"@
        &&& carve_progress_ok(content, m, k, ok, s.results@.skip(m), s.progress.scanned_bytes)
        &&& carving_log_ok(
            log.take(me + 3),
            ans.take(1),
            log.take(me + 3 + k + nf),
            ans.take(k + 1),
            content.len() as int,
            k,
            ok,
            s.results@.skip(m),
        )
        &&& !ok ==> log.len() == me + 4 + k + nf && ans.len() == k + 1
        &&& ok ==> log.len() == me + 5 + k + nf && ans.len() == k + 2 && completes_phase(
            log[log.len() - 2],
            "carving"@,
        )
    }
}

/// `deep_log_at` for some split.
pub open spec fn deep_log_ok(log: Seq<ScanEvent>, ans: Seq<bool>, content: Seq<u8>, faultless: bool, s: ScanSession) -> bool {
    exists|m: int, me: int, k: int| #[trigger] deep_log_at(log, ans, content, faultless, s, m, me, k)
}

/// What an observer whose record grew from `(e0, a0)` to `(e1, a1)`
/// heard and answered during a scan of a source of `content` that gave
/// `s`: at least one event and one answer; the ending event last; the
/// last answer "cancel" exactly when the session was cancelled (unless it
/// failed); and the events and answers of a quick or a deep scan.
pub open spec fn run_log_ok(
    e0: Seq<ScanEvent>,
    a0: Seq<bool>,
    e1: Seq<ScanEvent>,
    a1: Seq<bool>,
    content: Seq<u8>,
    faultless: bool,
    s: ScanSession,
) -> bool {
    let log = e1.skip(e0.len() as int);
    let ans = a1.skip(a0.len() as int);
    &&& e1.len() > e0.len()
    &&& e1.take(e0.len() as int) == e0
    &&& a1.len() > a0.len()
    &&& a1.take(a0.len() as int) == a0
    &&& end_event_ok(e1.last(), s)
    &&& s.state != ScanState::Failed ==> (s.state == ScanState::Cancelled <==> a1.last())
    &&& s.mode == ScanMode::Quick ==> ans.len() == 1 && quick_log_ok(log, content, faultless, s)
    &&& s.mode == ScanMode::Deep ==> deep_log_ok(log, ans, content, faultless, s)
}

/// Dropping what both records began with keeps a carving log.
proof fn lemma_carving_log_drop(
    e0: Seq<ScanEvent>,
    a0: Seq<bool>,
    e1: Seq<ScanEvent>,
    a1: Seq<bool>,
    len: int,
    k: int,
    ok: bool,
    found: Seq<RecoverableFile>,
    pe: int,
    pa: int,
)
    requires
        carving_log_ok(e0, a0, e1, a1, len, k, ok, found),
        0 <= pe <= e0.len(),
        0 <= pa <= a0.len(),
        0 <= k,
    ensures
        carving_log_ok(e0.skip(pe), a0.skip(pa), e1.skip(pe), a1.skip(pa), len, k, ok, found),
{
    let f0 = e0.skip(pe);
    let f1 = e1.skip(pe);
    let b0 = a0.skip(pa);
    let b1 = a1.skip(pa);
    assert(f1.take(f0.len() as int) =~= f0) by {
        assert forall|j: int| 0 <= j < f0.len() implies f1[j] == f0[j] by {
            assert(e1.take(e0.len() as int)[pe + j] == e0[pe + j]);
        }
    }
    assert(f1.subrange(f0.len() as int, f0.len() + k) =~= e1.subrange(e0.len() as int, e0.len() + k));
    assert(f1.skip(f0.len() + k) =~= e1.skip(e0.len() + k));
    assert(b1.take(b0.len() as int) =~= b0) by {
        assert forall|j: int| 0 <= j < b0.len() implies b1[j] == b0[j] by {
            assert(a1.take(a0.len() as int)[pa + j] == a0[pa + j]);
        }
    }
    assert(b1.skip(b0.len() as int) =~= a1.skip(a0.len() as int));
}

/// The metadata pass: detects the filesystem and turns each deleted
/// entry into a result, ids from 0. A failure to enumerate is reported to
/// the observer and leaves no results.
#[verifier::rlimit(40)]
fn metadata_results<S: ByteSource, O: ScanObserver>(source: &S, observer: &mut O) -> (r: (
    Option<String>,
    Vec<RecoverableFile>,
))
    ensures
        metadata_part_ok(source.spec_content(), source.spec_faultless(), r.0, r.1@),
        O::obeys_observer_laws() ==> final(observer).events().len() >= old(observer).events().len(),
        O::obeys_observer_laws() ==> final(observer).events().take(old(observer).events().len() as int)
            == old(observer).events(),
        O::obeys_observer_laws() ==> metadata_events_ok(
            final(observer).events().skip(old(observer).events().len() as int),
            r.1@,
            r.0,
            source.spec_content(),
            source.spec_faultless(),
        ),
        O::obeys_observer_laws() ==> final(observer).answers() == old(observer).answers(),
{
    let ghost ev0 = observer.events();
    let ghost content = source.spec_content();
    let ghost faultless = source.spec_faultless();
    let mut results: Vec<RecoverableFile> = Vec::new();
    match detect_parser(source) {
        Some((parser, fs_name)) => {
            let mut parser = parser;
            let fs = Some(fs_name.to_owned());
            proof {
                reveal_strlit("FAT32");
                reveal_strlit("NTFS");
                assert(fs_name@ == "FAT32"@ || fs_name@ == "NTFS"@);
                if faultless {
                    assert(detected_name(content) == Some(fs_name@));
                }
                assert(fs_name@ == "FAT32"@ ==> parser is Fat32 && fat32_volume(content) is Some);
                assert(fs_name@ == "NTFS"@ ==> parser is Ntfs && spec_ntfs_setup(content) is Some);
            }
            match parser.enumerate_deleted(source) {
                Ok(deleted) => {
                    let ghost found = entry_models(deleted@);
                    proof {
                        if faultless {
                            assert(detected_entries(content) == Some(found));
                        }
                        if fs_name@ == "FAT32"@ {
                            assert(detected_entries(content) == Some(found));
                        }
                        if fs_name@ == "NTFS"@ {
                            assert forall|j: int| 0 <= j < found.len() implies #[trigger] entry_from_records(
                                content,
                                detected_ntfs(content),
                                found[j],
                            ) by {
                                assert(found[j] == deleted@[j]@);
                                assert(entry_from_records(content, detected_ntfs(content), deleted@[j]@));
                            }
                        }
                    }
                    // Take the entries out in order without copying them:
                    // reverse once, then pop.
                    let mut pending: Vec<DeletedEntry> = Vec::new();
                    let mut deleted = deleted;
                    let n = deleted.len();
                    while deleted.len() > 0
                        invariant
                            n == found.len(),
                            deleted@.len() + pending@.len() == n,
                            forall|j: int| 0 <= j < deleted@.len() ==> #[trigger] deleted@[j]@ == found[j],
                            forall|j: int| 0 <= j < pending@.len() ==> #[trigger] pending@[j]@ == found[n - 1 - j],
                        decreases deleted.len(),
                    {
                        let e = deleted.pop().unwrap();
                        pending.push(e);
                    }
                    while pending.len() > 0
                        invariant
                            n == found.len(),
                            results@.len() + pending@.len() == n,
                            forall|j: int| 0 <= j < pending@.len() ==> #[trigger] pending@[j]@ == found[n - 1 - j],
                            forall|j: int|
                                0 <= j < results@.len() ==> deleted_result_ok(
                                    #[trigger] results@[j],
                                    j,
                                    fs_name@,
                                    found[j],
                                ),
                            ev0 == old(observer).events(),
                            O::obeys_observer_laws() ==> observer.answers() == old(observer).answers(),
                            O::obeys_observer_laws() ==> observer.events() == ev0 + observer.events().skip(
                                ev0.len() as int,
                            ),
                            O::obeys_observer_laws() ==> observer.events().skip(ev0.len() as int).len()
                                == results@.len(),
                            O::obeys_observer_laws() ==> forall|j: int|
                                0 <= j < results@.len() ==> (#[trigger] observer.events().skip(
                                    ev0.len() as int,
                                )[j] matches ScanEvent::FileFound { file } && same_result(file, results@[j])),
                        decreases pending.len(),
                    {
                        let entry = pending.pop().unwrap();
                        let file = RecoverableFile::from_deleted_entry(results.len() as u64, fs_name, entry);
                        let ghost evs = observer.events();
                        let ghost res = results@;
                        observer.emit(ScanEvent::FileFound { file: copy_result(&file) });
                        results.push(file);
                        proof {
                            if O::obeys_observer_laws() {
                            let l = observer.events().skip(ev0.len() as int);
                            assert(l =~= evs.skip(ev0.len() as int).push(observer.events().last()));
                            assert(observer.events() =~= ev0 + l);
                            assert forall|j: int| 0 <= j < results@.len() implies (#[trigger] l[j] matches ScanEvent::FileFound {
                                file,
                            } && same_result(file, results@[j])) by {
                                if j < res.len() {
                                    assert(l[j] == evs.skip(ev0.len() as int)[j]);
                                    assert(results@[j] == res[j]);
                                }
                            }
                            }
                        }
                    }
                    proof {
                        assert(found.len() == results@.len());
                        if O::obeys_observer_laws() {
                            assert(observer.events().take(ev0.len() as int) =~= ev0);
                        }
                    }
                    (fs, results)
                },
                Err(e) => {
                    let message = "metadata phase: ".to_owned().concat(e.message().as_str());
                    proof {
                        assert(message@.subrange(0, "metadata phase: "@.len() as int) =~= "metadata phase: "@);
                    }
                    observer.emit(ScanEvent::Failed { message });
                    proof {
                        if O::obeys_observer_laws() {
                            assert(observer.events().skip(ev0.len() as int) =~= seq![observer.events().last()]);
                        }
                        if faultless {
                            assert(detected_entries(content) is None);
                        }
                        let none = Seq::<EntryModel>::empty();
                        assert(none.len() == results@.len());
                    }
                    (fs, results)
                },
            }
        },
        None => {
            proof {
                let none = Seq::<EntryModel>::empty();
                assert(none.len() == results@.len());
                if O::obeys_observer_laws() {
                    assert(observer.events().skip(ev0.len() as int) =~= Seq::<ScanEvent>::empty());
                    assert(observer.events().take(ev0.len() as int) =~= ev0);
                }
            }
            (None, results)
        },
    }
}

/// The results of a carving pass over the whole source that scanned its
/// first `k` chunks, ids from `first_id`: one per file carved from those
/// chunks, in order of start offset.
pub open spec fn carve_pass_ok(content: Seq<u8>, first_id: int, res: Seq<RecoverableFile>, k: int) -> bool {
    exists|sigs: Seq<FileSignature>, files: Seq<CarvedFile>|
        {
            &&& is_known_table(sigs)
            &&& chunks_scanned(0, content.len() as int, 1_000_000, k, false)
            &&& #[trigger] carve_result(content, sigs, 0, content.len() as int, 1_000_000, k, files)
            &&& files.len() == res.len()
            &&& forall|i: int| 0 <= i < res.len() ==> carved_result_ok(#[trigger] res[i], first_id + i, i, files[i])
        }
}

/// A carving pass over the whole source went through `k` chunks and got
/// to `scanned` bytes; when it succeeded (`ok`) its results are those of
/// those chunks, and when it failed it gave none.
pub open spec fn carve_progress_ok(
    content: Seq<u8>,
    first_id: int,
    k: int,
    ok: bool,
    res: Seq<RecoverableFile>,
    scanned: u64,
) -> bool {
    &&& 0 <= k
    &&& scanned == scanned_upto(content.len() as int, k)
    &&& ok ==> carve_pass_ok(content, first_id, res, k)
    &&& !ok ==> res.len() == 0
}

/// What the observer heard and answered during a carving pass of a
/// source of `len` bytes that went through `k` chunks, its record growing
/// from `(e0, a0)` to `(e1, a1)`: a `Progress` event after each chunk,
/// then a `FileFound` event for each result `found`; after each chunk an
/// answer, "go on" but for the last one, which was "cancel" when the pass
/// succeeded (`ok`) before the source's last chunk, and "go on" when the
/// pass failed.
pub open spec fn carving_log_ok(
    e0: Seq<ScanEvent>,
    a0: Seq<bool>,
    e1: Seq<ScanEvent>,
    a1: Seq<bool>,
    len: int,
    k: int,
    ok: bool,
    found: Seq<RecoverableFile>,
) -> bool {
    &&& e1.len() == e0.len() + k + found.len()
    &&& e1.take(e0.len() as int) == e0
    &&& progress_events_ok(e1.subrange(e0.len() as int, e0.len() + k), progress_reports(0, len, 1_000_000, k))
    &&& found_events_ok(e1.skip(e0.len() + k), found)
    &&& a1.len() == a0.len() + k
    &&& a1.take(a0.len() as int) == a0
    &&& cancel_answers_ok(a1.skip(a0.len() as int), len, k, ok)
}

/// The observer's answers `c` over a carving pass of a source of `len`
/// bytes through `k` chunks: "go on" after each chunk but the last; after
/// the last "cancel" when the pass succeeded (`ok`) before the source's
/// last chunk, and "go on" when it failed.
pub open spec fn cancel_answers_ok(c: Seq<bool>, len: int, k: int, ok: bool) -> bool {
    &&& c.len() == k
    &&& forall|j: int| 0 <= j < k - 1 ==> !#[trigger] c[j]
    &&& ok && k > 0 && !is_last_chunk(0, len, 1_000_000, k - 1) ==> c[k - 1]
    &&& !ok && k > 0 ==> !c[k - 1]
}

/// What a carving pass over the whole source left: for some number `k`
/// of chunks it went through, its results and position are as
/// `carve_progress_ok` says, and an observer that obeys its laws heard
/// and answered as `carving_log_ok` says, its record growing from
/// `(e0, a0)` to `(e1, a1)`.
pub open spec fn carve_record_ok<O: ScanObserver>(
    content: Seq<u8>,
    first_id: int,
    ok: bool,
    res: Seq<RecoverableFile>,
    scanned: u64,
    e0: Seq<ScanEvent>,
    a0: Seq<bool>,
    e1: Seq<ScanEvent>,
    a1: Seq<bool>,
) -> bool {
    exists|k: int|
        #[trigger] carve_progress_ok(content, first_id, k, ok, res, scanned) && (O::obeys_observer_laws()
            ==> carving_log_ok(e0, a0, e1, a1, content.len() as int, k, ok, res))
}

/// The carving pass over the whole source: appends a result for each
/// carved file to `results`, numbered on from the results already there,
/// and gives how far it got, or the message of its failure (adding
/// nothing), and hands the observer back.
#[verifier::rlimit(40)]
#[verifier::spinoff_prover]
fn carve_into<S: ByteSource, O: ScanObserver>(
    source: &S,
    results: &mut Vec<RecoverableFile>,
    observer: O,
) -> (r: (Result<(), String>, u64, O))
    ensures
        final(results)@.len() >= old(results)@.len(),
        final(results)@.take(old(results)@.len() as int) == old(results)@,
        r.0 is Ok ==> carve_outcome_ok(
            source.spec_content(),
            old(results)@.len() as int,
            final(results)@.skip(old(results)@.len() as int),
        ),
        r.0 is Err ==> final(results)@ == old(results)@,
        r.0 matches Err(m) ==> starts_with(m@, "carving phase: "@ + "underlying byte source error: "@),
        source.spec_faultless() ==> r.0 is Ok,
        carve_record_ok::<O>(
            source.spec_content(),
            old(results)@.len() as int,
            r.0 is Ok,
            final(results)@.skip(old(results)@.len() as int),
            r.1,
            observer.events(),
            observer.answers(),
            r.2.events(),
            r.2.answers(),
        ),
        O::never_cancels() && r.0 is Ok ==> r.1 == source.spec_content().len(),
        O::never_cancels() && r.0 is Ok ==> carve_full_ok(
            source.spec_content(),
            old(results)@.len() as int,
            final(results)@.skip(old(results)@.len() as int),
        ),
{
    let ghost content = source.spec_content();
    let ghost nv = O::never_cancels();
    let ghost before = results@;
    let ghost e0 = observer.events();
    let ghost a0 = observer.answers();
    let first_id = results.len();
    let total_bytes = source.size();
    let ghost len = total_bytes as int;
    let carver = SignatureCarver::new();
    let mut sink = CarvingProgress {
        observer,
        scanned: 0,
        ev0: Ghost(e0),
        ans0: Ghost(a0),
        heard: Ghost(Seq::empty()),
        said: Ghost(Seq::empty()),
    };
    proof {
        assert(e0.take(e0.len() as int) =~= e0);
        assert(e0.skip(e0.len() as int) =~= Seq::<ScanEvent>::empty());
        assert(a0.take(a0.len() as int) =~= a0);
    }
    assert(sink.never_stops() == nv);
    assert(sink.consistent());
    let ghost sink0 = sink;
    assert(sink0.same_frame(sink));
    let carved = carver.scan_with_progress(source, 0..total_bytes, &mut sink);
    assert(sink0.same_frame(sink));
    let ghost heard = sink.reports();
    let ghost said = sink.answers();
    assert(sink.consistent());
    let scanned = sink.scanned;
    let mut observer = sink.observer;
    let ghost e1 = observer.events();
    let ghost a1 = observer.answers();
    let files = match carved {
        Ok(files) => files,
        Err(e) => {
            let inner = e.message();
            let message = "carving phase: ".to_owned().concat(inner.as_str());
            proof {
                let a = "carving phase: "@;
                let b = "underlying byte source error: "@;
                assert(inner@.subrange(0, b.len() as int) == b);
                assert(message@ == a + inner@);
                assert(message@.subrange(0, (a + b).len() as int) =~= a + b) by {
                    assert forall|t: int| 0 <= t < (a + b).len() implies message@[t] == (a + b)[t] by {
                        if t >= a.len() {
                            assert(inner@.subrange(0, b.len() as int)[t - a.len()] == inner@[t - a.len()]);
                        }
                    }
                }
                assert(go_on_record_ok(
                    Seq::<(u64, u64)>::empty(),
                    Seq::<bool>::empty(),
                    heard,
                    said,
                    0,
                    total_bytes as int,
                    1_000_000,
                ));
                let k = choose|k: int|
                    0 <= k && heard == Seq::<(u64, u64)>::empty() + #[trigger] progress_reports(
                        0,
                        total_bytes as int,
                        1_000_000,
                        k,
                    ) && said == Seq::<bool>::empty() + go_on_answers(k) && (k > 0 ==> chunks_scanned(
                        0,
                        total_bytes as int,
                        1_000_000,
                        k,
                        false,
                    ));
                let pr = progress_reports(0, len, 1_000_000, k);
                assert(heard =~= pr);
                assert(said =~= go_on_answers(k));
                lemma_scanned_at(len, k, heard, scanned);
                assert(results@.skip(first_id as int) =~= Seq::<RecoverableFile>::empty());
                assert(carve_progress_ok(content, first_id as int, k, false, results@.skip(first_id as int), scanned));
                if O::obeys_observer_laws() {
                    assert(e1.subrange(e0.len() as int, e0.len() + k) =~= e1.skip(e0.len() as int));
                    assert(e1.skip(e0.len() + k) =~= Seq::<ScanEvent>::empty());
                    let c = a1.skip(a0.len() as int);
                    assert(forall|j: int| 0 <= j < k ==> #[trigger] c[j] == !said[j]);
                    assert(cancel_answers_ok(c, len, k, false));
                    assert(carving_log_ok(e0, a0, e1, a1, len, k, false, results@.skip(first_id as int)));
                }
                assert(carve_progress_ok(content, first_id as int, k, false, results@.skip(first_id as int), scanned)
                    && (O::obeys_observer_laws() ==> carving_log_ok(
                    e0,
                    a0,
                    e1,
                    a1,
                    len,
                    k,
                    false,
                    results@.skip(first_id as int),
                )));
                assert(carve_record_ok::<O>(content, first_id as int, false, results@.skip(first_id as int), scanned, e0, a0, e1, a1));
            }
            return (Err(message), scanned, observer);
        },
    };
    let ghost sigs = carver.spec_signatures();
    let ghost k = choose|k: int|
        #[trigger] chunks_scanned(0, total_bytes as int, 1_000_000, k, nv) && carve_result(
            content,
            sigs,
            0,
            total_bytes as int,
            1_000_000,
            k,
            files@,
        ) && sink_record_ok(
            Seq::<(u64, u64)>::empty(),
            Seq::<bool>::empty(),
            heard,
            said,
            0,
            total_bytes as int,
            1_000_000,
            k,
        );
    proof {
        assert(chunks_scanned(0, total_bytes as int, 1_000_000, k, false));
        if nv {
            lemma_full_scan_is_complete(content, sigs, 0, total_bytes as int, 1_000_000, k, files@);
        }
        let pr = progress_reports(0, total_bytes as int, 1_000_000, k);
        assert(heard =~= pr);
        assert(said =~= said.skip(0));
        lemma_scanned_at(len, k, heard, scanned);
        if nv {
            lemma_full_scan_covers(total_bytes as int, k);
        }
    }
    let ghost e_mid = observer.events();
    let mut i: usize = 0;
    while i < files.len()
        invariant
            i <= files@.len(),
            first_id == before.len(),
            results@.len() == first_id + i,
            results@.take(first_id as int) == before,
            is_known_table(sigs),
            chunks_scanned(0, total_bytes as int, 1_000_000, k, false),
            carve_result(content, sigs, 0, total_bytes as int, 1_000_000, k, files@),
            nv ==> carve_complete(content, sigs, 0, total_bytes as int, files@),
            nv == O::never_cancels(),
            content == source.spec_content(),
            total_bytes == content.len(),
            forall|j: int|
                0 <= j < i ==> carved_result_ok(#[trigger] results@[first_id + j], first_id + j, j, files@[j]),
            O::obeys_observer_laws() ==> observer.answers() == a1,
            O::obeys_observer_laws() ==> observer.events().len() == e_mid.len() + i,
            O::obeys_observer_laws() ==> observer.events().take(e_mid.len() as int) == e_mid,
            O::obeys_observer_laws() ==> forall|j: int|
                0 <= j < i ==> (#[trigger] observer.events()[e_mid.len() + j] matches ScanEvent::FileFound {
                    file,
                } && same_result(file, results@[first_id + j])),
        decreases files.len() - i,
    {
        proof {
            let f = files@[i as int];
            assert(extent_ok(content, sigs[sig_index_at(content, sigs, f.start_offset as int)], f.start_offset as int, f));
            lemma_extent_ordered(content, sigs[sig_index_at(content, sigs, f.start_offset as int)], f.start_offset as int, f);
        }
        let ghost prev = results@;
        let ghost evs = observer.events();
        let file = RecoverableFile::from_carved_file(results.len() as u64, i, &files[i]);
        observer.emit(ScanEvent::FileFound { file: copy_result(&file) });
        results.push(file);
        proof {
            assert(results@.take(first_id as int) =~= prev.take(first_id as int));
            assert forall|j: int| 0 <= j < i + 1 implies carved_result_ok(
                #[trigger] results@[first_id + j],
                first_id + j,
                j,
                files@[j],
            ) by {
                if j < i {
                    assert(results@[first_id + j] == prev[first_id + j]);
                }
            }
            if O::obeys_observer_laws() {
                assert(observer.events().take(e_mid.len() as int) =~= evs.take(e_mid.len() as int));
                assert forall|j: int| 0 <= j < i + 1 implies (#[trigger] observer.events()[e_mid.len() + j]
                    matches ScanEvent::FileFound { file } && same_result(file, results@[first_id + j])) by {
                    if j < i {
                        assert(observer.events()[e_mid.len() + j] == evs[e_mid.len() + j]);
                        assert(results@[first_id + j] == prev[first_id + j]);
                    }
                }
            }
        }
        i = i + 1;
    }
    proof {
        let rest = results@.skip(first_id as int);
        assert(files@.len() == rest.len());
        assert forall|j: int| 0 <= j < rest.len() implies carved_result_ok(#[trigger] rest[j], first_id + j, j, files@[j]) by {
            assert(rest[j] == results@[first_id + j]);
        }
        assert(carve_result(content, sigs, 0, total_bytes as int, 1_000_000, k, files@));
        assert(carve_pass_ok(content, first_id as int, rest, k));
        assert(carve_outcome_ok(content, first_id as int, rest));
        assert(carve_progress_ok(content, first_id as int, k, true, rest, scanned));
        if nv {
            assert(carve_complete(content, sigs, 0, content.len() as int, files@));
            assert(carve_full_ok(content, first_id as int, rest));
        }
        if O::obeys_observer_laws() {
            let ev = observer.events();
            assert(ev.take(e0.len() as int) =~= e0) by {
                assert(ev.take(e_mid.len() as int) == e_mid);
                assert(e_mid.take(e0.len() as int) == e0);
            }
            assert(ev.subrange(e0.len() as int, e0.len() + k) =~= e_mid.skip(e0.len() as int));
            assert(found_events_ok(ev.skip(e0.len() + k), rest)) by {
                assert forall|j: int| 0 <= j < rest.len() implies (#[trigger] ev.skip(e0.len() + k)[j]
                    matches ScanEvent::FileFound { file } && same_result(file, rest[j])) by {
                    assert(ev.skip(e0.len() + k)[j] == ev[e_mid.len() + j]);
                    assert(rest[j] == results@[first_id + j]);
                }
            }
            let sk = said.skip(0);
            let c = a1.skip(a0.len() as int);
            assert(stop_answers_ok(sk, 0, len, 1_000_000, k));
            assert forall|j: int| 0 <= j < k - 1 implies !#[trigger] c[j] by {
                assert(sk[j]);
            }
            assert(cancel_answers_ok(c, len, k, true));
            assert(carving_log_ok(e0, a0, ev, a1, len, k, true, rest));
        }
        assert(carve_progress_ok(content, first_id as int, k, true, rest, scanned) && (O::obeys_observer_laws()
            ==> carving_log_ok(e0, a0, observer.events(), observer.answers(), len, k, true, rest)));
        assert(carve_record_ok::<O>(content, first_id as int, true, rest, scanned, e0, a0, observer.events(), observer.answers()));
    }
    (Ok(()), scanned, observer)
}

/// The last report of a pass through `k` chunks of a source of `len`
/// bytes, or 0 with none, is how far it got.
proof fn lemma_scanned_at(len: int, k: int, heard: Seq<(u64, u64)>, scanned: u64)
    requires
        0 <= len <= u64::MAX,
        0 <= k,
        heard == progress_reports(0, len, 1_000_000, k),
        scanned == if heard.len() > 0 {
            heard.last().0
        } else {
            0
        },
        k > 0 ==> chunks_scanned(0, len, 1_000_000, k, false),
    ensures
        scanned == scanned_upto(len, k),
{
    if k > 0 {
        lemma_chunk_end_bounds(len, k);
        assert(heard.last() == heard[k - 1]);
    }
}

/// Result ids are unique within a session: they are given in the order
/// results are found, from 0.
pub proof fn lemma_scan_ids_sequential(
    content: Seq<u8>,
    faultless: bool,
    label: Seq<char>,
    id: Seq<char>,
    path: Seq<char>,
    mode: ScanMode,
    s: ScanSession,
)
    requires
        scan_ok(content, faultless, label, id, path, mode, s),
    ensures
        forall|i: int| 0 <= i < s.results@.len() ==> #[trigger] s.results@[i].id == i,
{
    let m = choose|m: int|
        0 <= m <= s.results.len() && #[trigger] metadata_part_ok(content, faultless, s.filesystem_detected, s.results@.take(m))
            && carved_part_ok(content, mode, m, s.results@.skip(m));
    let meta = s.results@.take(m);
    let rest = s.results@.skip(m);
    let entries = choose|entries: Seq<EntryModel>|
        {
            &&& #[trigger] entries.len() == meta.len()
            &&& forall|i: int|
                0 <= i < meta.len() ==> (s.filesystem_detected matches Some(name) && deleted_result_ok(
                    #[trigger] meta[i],
                    i,
                    name@,
                    entries[i],
                ))
            &&& faultless ==> entries == match detected_entries(content) {
                Some(found) => found,
                None => Seq::<EntryModel>::empty(),
            }
            &&& s.filesystem_detected matches Some(name) ==> (name@ == "FAT32"@ && meta.len() > 0
                ==> detected_entries(content) == Some(entries))
            &&& s.filesystem_detected matches Some(name) ==> (name@ == "NTFS"@ ==> forall|j: int|
                0 <= j < entries.len() ==> #[trigger] entry_from_records(content, detected_ntfs(content), entries[j]))
        };
    assert forall|i: int| 0 <= i < s.results@.len() implies #[trigger] s.results@[i].id == i by {
        if i < m {
            assert(meta[i] == s.results@[i]);
            assert(deleted_result_ok(meta[i], i, s.filesystem_detected->Some_0@, entries[i]));
        } else {
            assert(rest[i - m] == s.results@[i]);
            let (sigs, files, k) = choose|sigs: Seq<FileSignature>, files: Seq<CarvedFile>, k: int|
                {
                    &&& is_known_table(sigs)
                    &&& chunks_scanned(0, content.len() as int, 1_000_000, k, false)
                    &&& #[trigger] carve_result(content, sigs, 0, content.len() as int, 1_000_000, k, files)
                    &&& files.len() == rest.len()
                    &&& forall|j: int| 0 <= j < rest.len() ==> carved_result_ok(#[trigger] rest[j], m + j, j, files[j])
                };
            assert(carved_result_ok(rest[i - m], m + (i - m), i - m, files[i - m]));
        }
    }
}

/// The record of a deep scan whose carving pass failed.
#[verifier::rlimit(50)]
#[verifier::spinoff_prover]
proof fn lemma_deep_failed(
    e0: Seq<ScanEvent>,
    a0: Seq<bool>,
    ev1: Seq<ScanEvent>,
    ev2: Seq<ScanEvent>,
    ev3: Seq<ScanEvent>,
    ev4: Seq<ScanEvent>,
    ev5: Seq<ScanEvent>,
    ev: Seq<ScanEvent>,
    a1: Seq<bool>,
    a2: Seq<bool>,
    content: Seq<u8>,
    faultless: bool,
    s: ScanSession,
    m: int,
    k: int,
)
    requires
        ev1 == e0.push(ev1.last()),
        starts_phase(ev1.last(), "metadata"@),
        ev2.len() >= ev1.len(),
        ev2.take(ev1.len() as int) == ev1,
        metadata_events_ok(ev2.skip(ev1.len() as int), s.results@.take(m), s.filesystem_detected, content, faultless),
        ev3 == ev2.push(ev3.last()),
        completes_phase(ev3.last(), "metadata"@),
        a1 == a0.push(false),
        ev4 == ev3.push(ev4.last()),
        starts_phase(ev4.last(), "carving"@),
        carve_progress_ok(content, m, k, false, s.results@.skip(m), s.progress.scanned_bytes),
        carving_log_ok(ev4, a1, ev5, a2, content.len() as int, k, false, s.results@.skip(m)),
        ev == ev5.push(ev.last()),
        end_event_ok(ev.last(), s),
        s.state == ScanState::Failed,
        s.progress.current_phase@ == "carving"@,
        s.mode == ScanMode::Deep,
        0 <= m <= s.results.len(),
        metadata_part_ok(content, faultless, s.filesystem_detected, s.results@.take(m)),
    ensures
        run_log_ok(e0, a0, ev, a2, content, faultless, s),
{
    let n0 = e0.len() as int;
    let log = ev.skip(n0);
    let ans = a2.skip(a0.len() as int);
    let me = ev2.len() - ev1.len();
    assert(ev5.take(ev4.len() as int) == ev4);
    assert(ev.take(n0) =~= e0) by {
        assert forall|j: int| 0 <= j < n0 implies ev[j] == e0[j] by {
            assert(ev[j] == ev5[j]);
            assert(ev5[j] == ev4[j]);
            assert(ev4[j] == ev3[j]);
            assert(ev3[j] == ev2[j]);
            assert(ev2[j] == ev1[j]);
        }
    }
    assert(a2.take(a0.len() as int) =~= a0) by {
        assert forall|j: int| 0 <= j < a0.len() implies a2[j] == a0[j] by {
            assert(a2.take(a1.len() as int)[j] == a1[j]);
        }
    }
    assert(log[0] == ev1.last()) by {
        assert(ev[n0] == ev5[n0]);
        assert(ev5[n0] == ev4[n0]);
    }
    assert(log.subrange(1, me + 1) =~= ev2.skip(ev1.len() as int)) by {
        assert forall|j: int| 0 <= j < me implies log.subrange(1, me + 1)[j] == ev2.skip(ev1.len() as int)[j] by {
            assert(ev[n0 + 1 + j] == ev5[n0 + 1 + j]);
            assert(ev5[n0 + 1 + j] == ev4[n0 + 1 + j]);
        }
    }
    assert(log[me + 1] == ev3.last()) by {
        assert(ev[n0 + me + 1] == ev5[n0 + me + 1]);
        assert(ev5[n0 + me + 1] == ev4[n0 + me + 1]);
    }
    assert(log.take(me + 3) =~= ev4.skip(n0)) by {
        assert forall|j: int| 0 <= j < me + 3 implies log.take(me + 3)[j] == ev4.skip(n0)[j] by {
            assert(ev[n0 + j] == ev5[n0 + j]);
        }
    }
    assert(log[me + 2] == ev4.last());
    assert(s.results@.skip(m).len() == 0);
    assert(log.take(me + 3 + k) =~= ev5.skip(n0));
    assert(ans.take(1) =~= a1.skip(a0.len() as int));
    assert(ans.take(k + 1) =~= ans);
    assert(ans[0] == a2[a0.len() as int]);
    assert(a2[a0.len() as int] == a1[a0.len() as int]) by {
        assert(a2.take(a1.len() as int)[a0.len() as int] == a1[a0.len() as int]);
    }
    lemma_carving_log_drop(ev4, a1, ev5, a2, content.len() as int, k, false, s.results@.skip(m), n0, a0.len() as int);
    assert(deep_log_at(log, ans, content, faultless, s, m, me, k));
}

/// The record of a deep scan that was not stopped by a carving failure:
/// carving ran (`carve`) and completed, or the observer cancelled before
/// it.
#[verifier::rlimit(50)]
#[verifier::spinoff_prover]
proof fn lemma_deep_done(
    e0: Seq<ScanEvent>,
    a0: Seq<bool>,
    ev1: Seq<ScanEvent>,
    ev2: Seq<ScanEvent>,
    ev3: Seq<ScanEvent>,
    ev4: Seq<ScanEvent>,
    ev5: Seq<ScanEvent>,
    ev6: Seq<ScanEvent>,
    ev: Seq<ScanEvent>,
    a1: Seq<bool>,
    a2: Seq<bool>,
    an: Seq<bool>,
    content: Seq<u8>,
    faultless: bool,
    s: ScanSession,
    m: int,
    k: int,
    carve: bool,
)
    requires
        ev1 == e0.push(ev1.last()),
        starts_phase(ev1.last(), "metadata"@),
        ev2.len() >= ev1.len(),
        ev2.take(ev1.len() as int) == ev1,
        metadata_events_ok(ev2.skip(ev1.len() as int), s.results@.take(m), s.filesystem_detected, content, faultless),
        ev3 == ev2.push(ev3.last()),
        completes_phase(ev3.last(), "metadata"@),
        a1 == a0.push(!carve),
        carve ==> ev4 == ev3.push(ev4.last()),
        carve ==> starts_phase(ev4.last(), "carving"@),
        carve ==> carve_progress_ok(content, m, k, true, s.results@.skip(m), s.progress.scanned_bytes),
        carve ==> carving_log_ok(ev4, a1, ev5, a2, content.len() as int, k, true, s.results@.skip(m)),
        carve ==> ev6 == ev5.push(ev6.last()),
        carve ==> completes_phase(ev6.last(), "carving"@),
        !carve ==> ev6 == ev3 && a2 == a1 && s.results.len() == m && s.progress.scanned_bytes == content.len(),
        ev == ev6.push(ev.last()),
        an == a2.push(an.last()),
        end_event_ok(ev.last(), s),
        s.state != ScanState::Failed,
        s.state != ScanState::Complete ==> s.progress.current_phase@ == if carve {
            "carving"@
        } else {
            "metadata"@
        },
        s.state == ScanState::Cancelled <==> an.last(),
        s.mode == ScanMode::Deep,
        0 <= m <= s.results.len(),
        metadata_part_ok(content, faultless, s.filesystem_detected, s.results@.take(m)),
    ensures
        run_log_ok(e0, a0, ev, an, content, faultless, s),
{
    let n0 = e0.len() as int;
    let log = ev.skip(n0);
    let ans = an.skip(a0.len() as int);
    let me = ev2.len() - ev1.len();
    let nf = s.results.len() - m;
    if carve {
        assert(ev5.take(ev4.len() as int) == ev4);
    }
    assert(ev.take(n0) =~= e0) by {
        assert forall|j: int| 0 <= j < n0 implies ev[j] == e0[j] by {
            assert(ev[j] == ev6[j]);
            if carve {
                assert(ev6[j] == ev5[j]);
                assert(ev5[j] == ev4[j]);
                assert(ev4[j] == ev3[j]);
            }
            assert(ev3[j] == ev2[j]);
            assert(ev2[j] == ev1[j]);
        }
    }
    assert(a2.take(a1.len() as int) == a1);
    assert(an.take(a0.len() as int) =~= a0) by {
        assert forall|j: int| 0 <= j < a0.len() implies an[j] == a0[j] by {
            assert(an[j] == a2[j]);
            assert(a2.take(a1.len() as int)[j] == a1[j]);
        }
    }
    assert(ans[0] == !carve) by {
        assert(an[a0.len() as int] == a2[a0.len() as int]);
        assert(a2.take(a1.len() as int)[a0.len() as int] == a1[a0.len() as int]);
    }
    assert forall|j: int| 0 <= j < ev3.len() implies ev[j] == ev3[j] by {
        assert(ev[j] == ev6[j]);
        if carve {
            assert(ev6[j] == ev5[j]);
            assert(ev5[j] == ev4[j]);
        }
    }
    assert(log[0] == ev1.last()) by {
        assert(ev[n0] == ev3[n0]);
    }
    assert(log.subrange(1, me + 1) =~= ev2.skip(ev1.len() as int)) by {
        assert forall|j: int| 0 <= j < me implies log.subrange(1, me + 1)[j] == ev2.skip(ev1.len() as int)[j] by {
            assert(ev[n0 + 1 + j] == ev3[n0 + 1 + j]);
        }
    }
    assert(log[me + 1] == ev3.last()) by {
        assert(ev[n0 + me + 1] == ev3[n0 + me + 1]);
    }
    if carve {
        assert(log.take(me + 3) =~= ev4.skip(n0)) by {
            assert forall|j: int| 0 <= j < me + 3 implies log.take(me + 3)[j] == ev4.skip(n0)[j] by {
                assert(ev[n0 + j] == ev6[n0 + j]);
                assert(ev6[n0 + j] == ev5[n0 + j]);
            }
        }
        assert(log[me + 2] == ev4.last());
        assert(log.take(me + 3 + k + nf) =~= ev5.skip(n0)) by {
            assert forall|j: int| 0 <= j < me + 3 + k + nf implies log.take(me + 3 + k + nf)[j] == ev5.skip(n0)[j] by {
                assert(ev[n0 + j] == ev6[n0 + j]);
            }
        }
        assert(log[log.len() - 2] == ev6.last());
        assert(ans.take(1) =~= a1.skip(a0.len() as int));
        assert(ans.take(k + 1) =~= a2.skip(a0.len() as int));
        lemma_carving_log_drop(ev4, a1, ev5, a2, content.len() as int, k, true, s.results@.skip(m), n0, a0.len() as int);
    }
    assert(deep_log_at(log, ans, content, faultless, s, m, me, k));
}

/// The first `m` results of `s` come from metadata, each naming the
/// filesystem detected, and the others from carving.
pub open spec fn metadata_first_at(s: ScanSession, m: int) -> bool {
    &&& 0 <= m <= s.results.len()
    &&& forall|i: int| 0 <= i < m ==> #[trigger] names_filesystem(s.results@[i], s.filesystem_detected)
    &&& forall|i: int| m <= i < s.results.len() ==> (#[trigger] s.results@[i].source is Carved)
}

/// `r` comes from the metadata of the filesystem `fs`.
pub open spec fn names_filesystem(r: RecoverableFile, fs: Option<String>) -> bool {
    r.source matches RecoverySource::Metadata { filesystem } && fs matches Some(name) && filesystem@ == name@
}

/// Metadata results each name the filesystem detected.
proof fn lemma_metadata_part_names(content: Seq<u8>, faultless: bool, fs: Option<String>, meta: Seq<RecoverableFile>)
    requires
        metadata_part_ok(content, faultless, fs, meta),
    ensures
        forall|i: int| 0 <= i < meta.len() ==> #[trigger] names_filesystem(meta[i], fs),
{
    let entries = choose|entries: Seq<EntryModel>|
        {
            &&& #[trigger] entries.len() == meta.len()
            &&& forall|i: int|
                0 <= i < meta.len() ==> (fs matches Some(name) && deleted_result_ok(
                    #[trigger] meta[i],
                    i,
                    name@,
                    entries[i],
                ))
            &&& faultless ==> entries == match detected_entries(content) {
                Some(found) => found,
                None => Seq::<EntryModel>::empty(),
            }
            &&& fs matches Some(name) ==> (name@ == "FAT32"@ && meta.len() > 0 ==> detected_entries(content)
                == Some(entries))
            &&& fs matches Some(name) ==> (name@ == "NTFS"@ ==> forall|j: int|
                0 <= j < entries.len() ==> #[trigger] entry_from_records(content, detected_ntfs(content), entries[j]))
        };
    assert forall|i: int| 0 <= i < meta.len() implies #[trigger] names_filesystem(meta[i], fs) by {
        assert(fs matches Some(name) && deleted_result_ok(meta[i], i, name@, entries[i]));
    }
}

/// Carved results are carved.
proof fn lemma_carved_part_carved(content: Seq<u8>, mode: ScanMode, first_id: int, rest: Seq<RecoverableFile>)
    requires
        carved_part_ok(content, mode, first_id, rest),
    ensures
        forall|i: int| 0 <= i < rest.len() ==> (#[trigger] rest[i].source is Carved),
        mode == ScanMode::Quick ==> rest.len() == 0,
{
    if rest.len() > 0 {
        let (sigs, files, k) = choose|sigs: Seq<FileSignature>, files: Seq<CarvedFile>, k: int|
            {
                &&& is_known_table(sigs)
                &&& chunks_scanned(0, content.len() as int, 1_000_000, k, false)
                &&& #[trigger] carve_result(content, sigs, 0, content.len() as int, 1_000_000, k, files)
                &&& files.len() == rest.len()
                &&& forall|j: int| 0 <= j < rest.len() ==> carved_result_ok(#[trigger] rest[j], first_id + j, j, files[j])
            };
        assert forall|i: int| 0 <= i < rest.len() implies (#[trigger] rest[i].source is Carved) by {
            assert(carved_result_ok(rest[i], first_id + i, i, files[i]));
        }
    }
}

/// The results of a scan are the metadata results, each naming the
/// filesystem detected, followed by the carved ones; a quick scan has
/// only metadata results.
pub proof fn lemma_scan_results_in_order(
    content: Seq<u8>,
    faultless: bool,
    label: Seq<char>,
    id: Seq<char>,
    path: Seq<char>,
    mode: ScanMode,
    s: ScanSession,
)
    requires
        scan_ok(content, faultless, label, id, path, mode, s),
    ensures
        exists|m: int| #[trigger] metadata_first_at(s, m),
        mode == ScanMode::Quick ==> forall|i: int|
            0 <= i < s.results.len() ==> #[trigger] names_filesystem(s.results@[i], s.filesystem_detected),
{
    let m = choose|m: int|
        0 <= m <= s.results.len() && #[trigger] metadata_part_ok(content, faultless, s.filesystem_detected, s.results@.take(m))
            && carved_part_ok(content, mode, m, s.results@.skip(m));
    let meta = s.results@.take(m);
    let rest = s.results@.skip(m);
    lemma_metadata_part_names(content, faultless, s.filesystem_detected, meta);
    lemma_carved_part_carved(content, mode, m, rest);
    assert forall|i: int| 0 <= i < m implies #[trigger] names_filesystem(s.results@[i], s.filesystem_detected) by {
        assert(meta[i] == s.results@[i]);
    }
    assert forall|i: int| m <= i < s.results.len() implies (#[trigger] s.results@[i].source is Carved) by {
        assert(rest[i - m] == s.results@[i]);
    }
    assert(metadata_first_at(s, m));
}

impl ScanSession {
    /// Runs a scan of the source that opening `image_path` gave, to
    /// completion or until `observer` cancels it: a metadata pass through
    /// the detected filesystem's parser, then, for a deep scan, a carving
    /// pass over the whole source. A metadata failure is reported and the
    /// scan goes on (carving never depended on it); a carving failure
    /// ends the session as failed. Only a failed open is an error. The
    /// observer is handed back with what it heard.
    #[verifier::rlimit(60)]
    #[verifier::spinoff_prover]
    pub fn run<S: ByteSource, O: ScanObserver>(
        id: String,
        image_path: &str,
        opened: Result<S, ByteSourceError>,
        mode: ScanMode,
        observer: O,
    ) -> (r: (Result<ScanSession, ApplicationError>, O))
        ensures
            opened is Err ==> r.0 matches Err(ApplicationError::ByteSource(_)),
            opened is Err && O::obeys_observer_laws() ==> r.1.events() == observer.events() && r.1.answers()
                == observer.answers(),
            opened matches Ok(src) ==> (r.0 matches Ok(s) && scan_ok(
                src.spec_content(),
                src.spec_faultless(),
                src.spec_label(),
                id@,
                image_path@,
                mode,
                s,
            )),
            opened matches Ok(src) ==> (r.0 matches Ok(s) ==> {
                &&& O::never_cancels() ==> s.state != ScanState::Cancelled
                &&& src.spec_faultless() ==> s.state != ScanState::Failed
                &&& O::never_cancels() && mode == ScanMode::Deep && s.state != ScanState::Failed ==> full_carve_ok(
                    src.spec_content(),
                    src.spec_faultless(),
                    s,
                )
                &&& s.state != ScanState::Failed && (mode == ScanMode::Quick || O::never_cancels())
                    ==> s.progress.scanned_bytes == src.spec_content().len()
                &&& O::obeys_observer_laws() ==> run_log_ok(
                    observer.events(),
                    observer.answers(),
                    r.1.events(),
                    r.1.answers(),
                    src.spec_content(),
                    src.spec_faultless(),
                    s,
                )
                &&& O::obeys_observer_laws() && mode == ScanMode::Deep && r.1.answers()[observer.answers().len() as int]
                    ==> (forall|i: int| 0 <= i < s.results.len() ==> #[trigger] s.results@[i].source is Metadata)
                    && (O::cancels_for_good() ==> s.state == ScanState::Cancelled)
            }),
    {
        let mut observer = observer;
        let ghost e0 = observer.events();
        let ghost a0 = observer.answers();
        let source = match opened {
            Ok(s) => s,
            Err(e) => {
                return (Err(ApplicationError::ByteSource(e)), observer);
            },
        };
        let ghost content = source.spec_content();
        let ghost faultless = source.spec_faultless();
        let total_bytes = source.size();
        observer.emit(ScanEvent::PhaseStarted { phase: "metadata".to_owned() });
        let ghost ev1 = observer.events();
        let (filesystem_detected, mut results) = metadata_results(&source, &mut observer);
        let meta_count = results.len();
        let ghost meta = results@;
        let ghost ev2 = observer.events();
        // The metadata pass is not chunked: it counts as done at once.
        observer.emit(ScanEvent::PhaseCompleted { phase: "metadata".to_owned() });
        let ghost ev3 = observer.events();
        let mut session = ScanSession {
            id,
            image_path: image_path.to_owned(),
            device_label: source.label().to_owned(),
            mode,
            state: ScanState::Scanning,
            progress: ScanProgress { scanned_bytes: total_bytes, total_bytes, current_phase: "metadata".to_owned() },
            filesystem_detected,
            error_message: None,
            results: Vec::new(),
        };
        proof {
            if O::obeys_observer_laws() {
                assert(ev1 == e0.push(ev1.last()));
                assert(ev3 == ev2.push(ev3.last()));
            }
        }
        let mut carve = false;
        if mode == ScanMode::Deep {
            carve = !observer.is_cancelled();
        }
        let ghost a1 = observer.answers();
        let ghost mut carved_all = false;
        let ghost mut kc: int = 0;
        let ghost mut ev4 = ev3;
        let ghost mut ev5 = ev3;
        let ghost mut a2 = a1;
        if carve {
            session.progress.current_phase = "carving".to_owned();
            session.progress.scanned_bytes = 0;
            observer.emit(ScanEvent::PhaseStarted { phase: "carving".to_owned() });
            proof {
                ev4 = observer.events();
            }
            let (outcome, scanned, back) = carve_into(&source, &mut results, observer);
            observer = back;
            session.progress.scanned_bytes = scanned;
            proof {
                ev5 = observer.events();
                a2 = observer.answers();
                kc = choose|k: int|
                    #[trigger] carve_progress_ok(
                        content,
                        meta_count as int,
                        k,
                        outcome is Ok,
                        results@.skip(meta_count as int),
                        scanned,
                    ) && (O::obeys_observer_laws() ==> carving_log_ok(
                        ev4,
                        a1,
                        ev5,
                        a2,
                        content.len() as int,
                        k,
                        outcome is Ok,
                        results@.skip(meta_count as int),
                    ));
                if O::obeys_observer_laws() {
                    assert(ev4 == ev3.push(ev4.last()));
                }
            }
            match outcome {
                Ok(()) => {
                    proof {
                        lemma_carve_outcome_part(content, meta_count as int, results@.skip(meta_count as int));
                        if O::never_cancels() {
                            carved_all = true;
                        }
                    }
                    observer.emit(ScanEvent::PhaseCompleted { phase: "carving".to_owned() });
                },
                Err(message) => {
                    session.state = ScanState::Failed;
                    let kept = message.clone();
                    let ghost msg = message@;
                    session.error_message = Some(kept);
                    observer.emit(ScanEvent::Failed { message });
                    session.results = results;
                    proof {
                        assert(session.results@.take(meta_count as int) =~= meta);
                        assert(session.results@.skip(meta_count as int) =~= Seq::<RecoverableFile>::empty());
                        lemma_scan_ok_at(content, faultless, session, meta_count as int);
                        if O::obeys_observer_laws() {
                            let ev = observer.events();
                            assert(ev.last() matches ScanEvent::Failed { message } && message@ == msg);
                            assert(end_event_ok(ev.last(), session));
                            lemma_deep_failed(
                                e0, a0, ev1, ev2, ev3, ev4, ev5, ev, a1, a2, content, faultless, session,
                                meta_count as int, kc,
                            );
                        }
                    }
                    return (Ok(session), observer);
                },
            }
        } else {
            proof {
                assert(results@.skip(meta_count as int) =~= Seq::<RecoverableFile>::empty());
            }
        }
        let ghost ev6 = observer.events();
        session.results = results;
        if observer.is_cancelled() {
            session.state = ScanState::Cancelled;
            observer.emit(ScanEvent::Cancelled);
        } else {
            session.state = ScanState::Complete;
            session.progress.current_phase = "done".to_owned();
            observer.emit(ScanEvent::Completed { total_found: session.results.len() });
        }
        proof {
            assert(session.results@.take(meta_count as int) =~= meta);
            lemma_scan_ok_at(content, faultless, session, meta_count as int);
            if O::never_cancels() && mode == ScanMode::Deep {
                assert(carved_all);
                assert(carve_full_ok(content, meta_count as int, session.results@.skip(meta_count as int)));
                assert(full_carve_ok(content, faultless, session));
            }
            if O::obeys_observer_laws() {
                let ev = observer.events();
                let an = observer.answers();
                assert(ev == ev6.push(ev.last()));
                if mode == ScanMode::Quick {
                    let l = ev2.skip(ev1.len() as int);
                    let log = ev.skip(e0.len() as int);
                    assert(ev6 == ev3);
                    assert(ev2 =~= ev1 + l);
                    assert(log =~= seq![ev1.last()] + l + seq![ev3.last(), ev.last()]);
                    assert(log.subrange(1, log.len() - 2) =~= l);
                    assert(ev.take(e0.len() as int) =~= e0);
                    assert(session.results@ =~= meta);
                    assert(quick_log_ok(log, content, faultless, session));
                    assert(an.take(a0.len() as int) =~= a0);
                    assert(an.skip(a0.len() as int).len() == 1);
                } else {
                    lemma_deep_done(
                        e0, a0, ev1, ev2, ev3, ev4, ev5, ev6, ev, a1, a2, an, content, faultless, session,
                        meta_count as int, kc, carve,
                    );
                }
            }
        }
        (Ok(session), observer)
    }
}

} // verus!
