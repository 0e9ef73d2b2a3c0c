//! `SignatureCarver`: scans raw bytes for known file signatures, entirely
//! independent of filesystem metadata.
//!
//! A disk is scanned in fixed-size chunks. A header could straddle the
//! boundary between two chunks, so each chunk after the first starts
//! `overlap` bytes before the previous one ended, where `overlap` is the
//! longest known header: any header that crosses a boundary then lies
//! wholly inside the next chunk. Matches inside the overlap are seen
//! twice on purpose and de-duplicated by their absolute start offset.

use crate::carving::signatures::{
    FileSignature,
    is_known_table,
    known_footers,
    known_headers,
    known_max_sizes,
    known_signatures,
    lemma_known_header_lengths,
    max_header_len,
    spec_max_header_len,
};
use crate::error::DomainError;
use crate::source::ByteSource;
use std::collections::HashSet;
use vstd::prelude::*;

verus! {

/// Whether `needle` (non-empty) occurs in `hay` at position `i`.
pub open spec fn occurs_at(hay: Seq<u8>, needle: Seq<u8>, i: int) -> bool {
    &&& needle.len() > 0
    &&& 0 <= i
    &&& i + needle.len() <= hay.len()
    &&& hay.subrange(i, i + needle.len()) == needle
}

/// The first position at or after `i` where `needle` occurs in `hay`.
pub open spec fn first_occurrence_from(hay: Seq<u8>, needle: Seq<u8>, i: int) -> Option<int>
    decreases hay.len() - i,
{
    if i < 0 || needle.len() == 0 || i + needle.len() > hay.len() {
        None
    } else if occurs_at(hay, needle, i) {
        Some(i)
    } else {
        first_occurrence_from(hay, needle, i + 1)
    }
}

/// The first position where `needle` occurs in `hay`.
pub open spec fn first_occurrence(hay: Seq<u8>, needle: Seq<u8>) -> Option<int> {
    first_occurrence_from(hay, needle, 0)
}

/// A first occurrence is an occurrence.
pub proof fn lemma_first_occurrence_occurs(hay: Seq<u8>, needle: Seq<u8>, i: int)
    ensures
        first_occurrence_from(hay, needle, i) matches Some(p) ==> occurs_at(hay, needle, p) && i
            <= p,
    decreases hay.len() - i,
{
    if !(i < 0 || needle.len() == 0 || i + needle.len() > hay.len()) && !occurs_at(
        hay,
        needle,
        i,
    ) {
        lemma_first_occurrence_occurs(hay, needle, i + 1);
    }
}

/// Whether `hay[i..i + needle.len()] == needle`.
fn matches_at(hay: &[u8], i: usize, needle: &[u8]) -> (r: bool)
    requires
        i + needle@.len() <= hay@.len(),
    ensures
        r == (hay@.subrange(i as int, i + needle@.len()) == needle@),
{
    let hlen = hay.len();
    let mut k: usize = 0;
    while k < needle.len()
        invariant
            hlen == hay@.len(),
            k <= needle@.len(),
            i + needle@.len() <= hay@.len(),
            forall|j: int| 0 <= j < k ==> hay@[i + j] == needle@[j],
        decreases needle@.len() - k,
    {
        if hay[i + k] != needle[k] {
            proof {
                assert(hay@.subrange(i as int, i + needle@.len())[k as int] != needle@[k as int]);
            }
            return false;
        }
        k = k + 1;
    }
    proof {
        assert(hay@.subrange(i as int, i + needle@.len()) =~= needle@);
    }
    true
}

/// Every position where `needle` occurs in `haystack`, overlapping
/// occurrences included, in increasing order.
fn find_all(haystack: &[u8], needle: &[u8]) -> (r: Vec<usize>)
    ensures
        forall|k: int| 0 <= k < r@.len() ==> occurs_at(haystack@, needle@, r@[k] as int),
        forall|k: int, l: int| 0 <= k < l < r@.len() ==> r@[k] < r@[l],
        forall|p: int| occurs_at(haystack@, needle@, p) ==> r@.contains(p as usize),
{
    let mut out: Vec<usize> = Vec::new();
    if needle.len() == 0 || haystack.len() < needle.len() {
        return out;
    }
    let last = haystack.len() - needle.len();
    let mut i: usize = 0;
    while i <= last
        invariant
            last + needle@.len() == haystack@.len(),
            haystack@.len() <= usize::MAX,
            needle@.len() > 0,
            i <= last + 1,
            forall|k: int| 0 <= k < out@.len() ==> occurs_at(haystack@, needle@, out@[k] as int),
            forall|k: int| 0 <= k < out@.len() ==> out@[k] < i,
            forall|k: int, l: int| 0 <= k < l < out@.len() ==> out@[k] < out@[l],
            forall|p: int| 0 <= p < i && occurs_at(haystack@, needle@, p) ==> out@.contains(
                p as usize,
            ),
        decreases last + 1 - i,
    {
        let ghost before = out@;
        if matches_at(haystack, i, needle) {
            out.push(i);
            proof {
                assert(out@[out@.len() - 1] == i);
                assert forall|p: int| 0 <= p <= i && occurs_at(haystack@, needle@, p) implies out@.contains(
                    p as usize,
                ) by {
                    if p < i {
                        let k = choose|k: int| 0 <= k < before.len() && before[k] == p as usize;
                        assert(out@[k] == before[k]);
                    } else {
                        assert(out@[out@.len() - 1] == p as usize);
                    }
                }
            }
        }
        i = i + 1;
    }
    out
}

/// The first position where `needle` occurs in `haystack`.
fn find_first(haystack: &[u8], needle: &[u8]) -> (r: Option<usize>)
    ensures
        match r {
            Some(i) => first_occurrence(haystack@, needle@) == Some(i as int),
            None => first_occurrence(haystack@, needle@) is None,
        },
{
    if needle.len() == 0 || haystack.len() < needle.len() {
        return None;
    }
    let last = haystack.len() - needle.len();
    let mut i: usize = 0;
    while i <= last
        invariant
            last + needle@.len() == haystack@.len(),
            haystack@.len() <= usize::MAX,
            needle@.len() > 0,
            i <= last + 1,
            first_occurrence(haystack@, needle@) == first_occurrence_from(
                haystack@,
                needle@,
                i as int,
            ),
        decreases last + 1 - i,
    {
        if matches_at(haystack, i, needle) {
            return Some(i);
        }
        i = i + 1;
    }
    None
}

/// A file found by carving: the byte range it is believed to occupy.
#[derive(Debug, Clone)]
pub struct CarvedFile {
    pub format_name: String,
    pub extension: String,
    pub start_offset: u64,
    /// Exclusive end offset.
    pub end_offset: u64,
    /// 0-100: 85 when the format's footer was found, 30 when the extent
    /// fell back to the format's size cap (likely truncated, or not really
    /// a file of this type at all).
    pub confidence: u8,
}

impl CarvedFile {
    /// Length of the carved range.
    pub fn size(&self) -> (r: u64)
        requires
            self.start_offset <= self.end_offset,
        ensures
            r == self.end_offset - self.start_offset,
    {
        self.end_offset - self.start_offset
    }
}

/// A carved extent never ends before it starts.
pub proof fn lemma_extent_ordered(content: Seq<u8>, sig: FileSignature, start: int, f: CarvedFile)
    requires
        extent_ok(content, sig, start, f),
    ensures
        f.start_offset <= f.end_offset,
{
    let len = search_len(content, sig, start);
    let window = content.subrange(start, start + len);
    if let Some(footer) = sig.footer {
        lemma_first_occurrence_occurs(window, footer@, 0);
    }
}

/// No known header fits in a range whose bytes are all zero or all 0xFF:
/// each header starts with a non-zero byte, and the only one starting
/// with 0xFF (JPEG) continues with 0xD8.
pub proof fn lemma_uniform_range_has_no_header(
    content: Seq<u8>,
    sigs: Seq<FileSignature>,
    start: int,
    end: int,
    v: u8,
    a: int,
)
    requires
        is_known_table(sigs),
        v == 0 || v == 0xFF,
        forall|p: int| start <= p < end && 0 <= p < content.len() ==> #[trigger] content[p] == v,
    ensures
        !header_in_range(content, sigs, start, end, a),
{
    if header_in_range(content, sigs, start, end, a) {
        let s = choose|s: int| 0 <= s < sigs.len() && #[trigger] header_in_window(content, sigs[s].header@, start, end - start, a);
        let h = sigs[s].header@;
        assert(h == known_headers()[s]);
        assert(content.subrange(a, a + h.len()) == h);
        assert(content.subrange(a, a + h.len())[0] == content[a]);
        assert(content.subrange(a, a + h.len())[1] == content[a + 1]);
        assert(content[a] == v);
        assert(content[a + 1] == v);
    }
}

/// How many bytes after `start` the footer search for `sig` covers: the
/// format's cap or the rest of the source, whichever is shorter.
pub open spec fn search_len(content: Seq<u8>, sig: FileSignature, start: int) -> int {
    let remaining = if start <= content.len() {
        content.len() - start
    } else {
        0
    };
    if sig.max_size < remaining {
        sig.max_size as int
    } else {
        remaining
    }
}

/// `f` is the extent carved for a header of `sig` at `start`: up to the
/// end of the first footer in the search window (confidence 85), or the
/// whole window when no footer is found (confidence 30).
pub open spec fn extent_ok(content: Seq<u8>, sig: FileSignature, start: int, f: CarvedFile) -> bool {
    let len = search_len(content, sig, start);
    let window = content.subrange(start, start + len);
    &&& f.format_name@ == sig.name@
    &&& f.extension@ == sig.extension@
    &&& f.start_offset == start
    &&& match sig.footer {
        Some(footer) => match first_occurrence(window, footer@) {
            Some(rel) => f.end_offset == start + rel + footer@.len() && f.confidence == 85,
            None => f.end_offset == start + len && f.confidence == 30,
        },
        None => f.end_offset == start + len && f.confidence == 30,
    }
}

/// The first occurrence from `i` is at `q` when the needle occurs at `q`
/// and nowhere from `i` up to it.
proof fn lemma_first_occurrence_at(hay: Seq<u8>, needle: Seq<u8>, i: int, q: int)
    requires
        0 <= i <= q,
        occurs_at(hay, needle, q),
        forall|x: int| i <= x < q ==> !#[trigger] occurs_at(hay, needle, x),
    ensures
        first_occurrence_from(hay, needle, i) == Some(q),
    decreases q - i,
{
    if i < q {
        assert(!occurs_at(hay, needle, i));
        lemma_first_occurrence_at(hay, needle, i + 1, q);
    }
}

/// A header of a known format at `start` whose first footer in the source
/// ends within that format's search cap past the header (20 MiB for JPEG
/// and PNG, 50 MiB for PDF, 200 MiB for ZIP) is carved up to the end of
/// that footer, with confidence 85: a multi-megabyte photo is carved
/// whole.
pub proof fn lemma_footer_within_cap_is_found(
    content: Seq<u8>,
    sigs: Seq<FileSignature>,
    i: int,
    start: int,
    e: int,
    f: CarvedFile,
)
    requires
        is_known_table(sigs),
        0 <= i < 4,
        0 <= start <= e,
        occurs_at(content, known_footers()[i], e),
        forall|q: int| start <= q < e ==> !#[trigger] occurs_at(content, known_footers()[i], q),
        e + known_footers()[i].len() - start <= if i <= 1 {
            20971520int
        } else if i == 2 {
            52428800int
        } else {
            209715200int
        },
        extent_ok(content, sigs[i], start, f),
    ensures
        f.end_offset == e + known_footers()[i].len(),
        f.confidence == 85,
{
    let sig = sigs[i];
    let footer = sig.footer->Some_0@;
    let fl = footer.len() as int;
    let len = search_len(content, sig, start);
    assert(footer == known_footers()[i]);
    assert(sig.max_size == known_max_sizes()[i]);
    assert(e + fl - start <= len);
    let window = content.subrange(start, start + len);
    assert forall|x: int| 0 <= x < e - start implies !#[trigger] occurs_at(window, footer, x) by {
        if occurs_at(window, footer, x) {
            assert(window.subrange(x, x + fl) =~= content.subrange(start + x, start + x + fl));
            assert(occurs_at(content, footer, start + x));
        }
    }
    assert(window.subrange(e - start, e - start + fl) =~= content.subrange(e, e + fl));
    assert(occurs_at(window, footer, e - start));
    lemma_first_occurrence_at(window, footer, 0, e - start);
}

/// Given a header of `sig` at `start_offset`, finds the matching footer
/// (or falls back to the size cap) and returns the carved extent.
fn resolve_extent<S: ByteSource>(source: &S, sig: &FileSignature, start_offset: u64) -> (r: Result<
    CarvedFile,
    DomainError,
>)
    ensures
        r matches Ok(f) ==> extent_ok(source.spec_content(), *sig, start_offset as int, f),
        r matches Err(e) ==> e is ByteSource,
        start_offset <= source.spec_content().len() && source.spec_faultless() ==> r is Ok,
{
    let size = source.size();
    let remaining: u64 = if size >= start_offset {
        size - start_offset
    } else {
        0
    };
    let search: usize = if (sig.max_size as u64) < remaining {
        sig.max_size
    } else {
        remaining as usize
    };
    let window = match source.read_vec(start_offset, search) {
        Ok(w) => w,
        Err(e) => {
            return Err(DomainError::ByteSource(e));
        },
    };
    if let Some(footer) = sig.footer {
        if let Some(rel) = find_first(window.as_slice(), footer) {
            proof {
                lemma_first_occurrence_occurs(window@, footer@, 0);
            }
            return Ok(
                CarvedFile {
                    format_name: String::from_str(sig.name),
                    extension: String::from_str(sig.extension),
                    start_offset,
                    end_offset: start_offset + rel as u64 + footer.len() as u64,
                    confidence: 85,
                },
            );
        }
    }
    Ok(
        CarvedFile {
            format_name: String::from_str(sig.name),
            extension: String::from_str(sig.extension),
            start_offset,
            end_offset: start_offset + window.len() as u64,
            confidence: 30,
        },
    )
}

} // verus!

verus! {

/// The header `h` occurs at `a` and lies wholly inside the window
/// `[p, p + len)`.
pub open spec fn header_in_window(content: Seq<u8>, h: Seq<u8>, p: int, len: int, a: int) -> bool {
    &&& occurs_at(content, h, a)
    &&& p <= a
    &&& a + h.len() <= p + len
}

/// One of the first `n` signatures has its header wholly inside the
/// window `[p, p + len)` at `a`.
pub open spec fn window_hit(
    content: Seq<u8>,
    sigs: Seq<FileSignature>,
    n: int,
    p: int,
    len: int,
    a: int,
) -> bool {
    exists|s: int| 0 <= s < n && #[trigger] header_in_window(content, sigs[s].header@, p, len, a)
}

/// The first signature, at or after index `s`, whose header occurs at `a`.
pub open spec fn first_sig_from(content: Seq<u8>, sigs: Seq<FileSignature>, a: int, s: int) -> int
    decreases sigs.len() - s,
{
    if s < 0 || s >= sigs.len() {
        sigs.len() as int
    } else if occurs_at(content, sigs[s].header@, a) {
        s
    } else {
        first_sig_from(content, sigs, a, s + 1)
    }
}

/// The signature whose header occurs at `a`.
pub open spec fn sig_index_at(content: Seq<u8>, sigs: Seq<FileSignature>, a: int) -> int {
    first_sig_from(content, sigs, a, 0)
}

/// How far each chunk starts after the previous one: the chunk size less
/// the overlap, when the chunk is longer than the overlap.
pub open spec fn carve_step(chunk: int) -> int {
    if chunk > spec_max_header_len() {
        chunk - spec_max_header_len()
    } else {
        chunk
    }
}

/// Start of chunk `j` of a scan beginning at `start`.
pub open spec fn chunk_pos(start: int, chunk: int, j: int) -> int {
    start + j * carve_step(chunk)
}

/// Length of chunk `j`: the chunk size, cut short at the end of the range.
pub open spec fn chunk_len(start: int, end: int, chunk: int, j: int) -> int {
    if chunk_pos(start, chunk, j) + chunk <= end {
        chunk
    } else {
        end - chunk_pos(start, chunk, j)
    }
}

/// Chunk `j` reaches the end of the range.
pub open spec fn is_last_chunk(start: int, end: int, chunk: int, j: int) -> bool {
    chunk_pos(start, chunk, j) + chunk >= end
}

/// A header at `a` lies wholly inside one of the first `k` chunks.
pub open spec fn found_upto(
    content: Seq<u8>,
    sigs: Seq<FileSignature>,
    start: int,
    end: int,
    chunk: int,
    k: int,
    a: int,
) -> bool {
    exists|j: int|
        0 <= j < k && #[trigger] window_hit(
            content,
            sigs,
            sigs.len() as int,
            chunk_pos(start, chunk, j),
            chunk_len(start, end, chunk, j),
            a,
        )
}

/// `files` is the carving result after `k` chunks: one extent per header
/// found, sorted by start offset.
pub open spec fn carve_result(
    content: Seq<u8>,
    sigs: Seq<FileSignature>,
    start: int,
    end: int,
    chunk: int,
    k: int,
    files: Seq<CarvedFile>,
) -> bool {
    &&& forall|i: int, j: int|
        0 <= i < j < files.len() ==> files[i].start_offset < files[j].start_offset
    &&& forall|i: int|
        #![trigger files[i]]
        0 <= i < files.len() ==> {
            &&& found_upto(content, sigs, start, end, chunk, k, files[i].start_offset as int)
            &&& extent_ok(
                content,
                sigs[sig_index_at(content, sigs, files[i].start_offset as int)],
                files[i].start_offset as int,
                files[i],
            )
        }
    &&& forall|a: int|
        #![trigger found_upto(content, sigs, start, end, chunk, k, a)]
        found_upto(content, sigs, start, end, chunk, k, a) ==> exists|i: int|
            0 <= i < files.len() && files[i].start_offset == a
}

/// `k` chunks were scanned: none when the range or the chunk size is
/// empty; otherwise every chunk before the last one scanned stopped short
/// of the end, and the last one reached it unless the progress sink (one
/// that may stop) asked to stop.
pub open spec fn chunks_scanned(start: int, end: int, chunk: int, k: int, never_stops: bool) -> bool {
    if start >= end || chunk == 0 {
        k == 0
    } else {
        &&& k >= 1
        &&& forall|j: int| 0 <= j < k - 1 ==> !#[trigger] is_last_chunk(start, end, chunk, j)
        &&& is_last_chunk(start, end, chunk, k - 1) || !never_stops
    }
}

/// Where scanning reports progress, and whether it should go on.
///
/// `reports` and `answers` are the sink's record of what it was told and
/// what it answered. Only a kind of sink whose `obeys_sink_laws` is true
/// promises to keep that record as `on_progress` describes; a sink written
/// outside verified code keeps the defaults, promises nothing of its
/// record, and may stop the scan at any time.
pub trait ProgressSink: Sized {
    /// True for a kind of sink that keeps `reports` and `answers` as
    /// `on_progress` describes.
    closed spec fn obeys_sink_laws() -> bool {
        false
    }

    /// True for a sink that never asks the scan to stop.
    closed spec fn never_stops(&self) -> bool {
        false
    }

    /// Every `(scanned, total)` pair the sink has been given, in order
    /// (meaningful for a sink that obeys the laws above).
    closed spec fn reports(&self) -> Seq<(u64, u64)> {
        arbitrary()
    }

    /// Every answer the sink has given, in order (meaningful for a sink
    /// that obeys the laws above).
    closed spec fn answers(&self) -> Seq<bool> {
        arbitrary()
    }

    /// What the sink keeps true of its own state between reports.
    closed spec fn consistent(&self) -> bool {
        true
    }

    /// `later` is this sink after more reports, as far as what the sink
    /// keeps fixed while it reports.
    closed spec fn same_frame(&self, later: Self) -> bool {
        true
    }

    /// Called after every chunk with the bytes scanned so far and the
    /// total; returning `false` stops the scan (what was found so far is
    /// still returned).
    fn on_progress(&mut self, scanned: u64, total: u64) -> (keep_going: bool)
        ensures
            old(self).never_stops() ==> keep_going && final(self).never_stops(),
            Self::obeys_sink_laws() ==> final(self).reports() == old(self).reports().push((scanned, total)),
            Self::obeys_sink_laws() ==> final(self).answers() == old(self).answers().push(keep_going),
            old(self).consistent() ==> final(self).consistent(),
            forall|earlier: Self| earlier.same_frame(*old(self)) ==> #[trigger] earlier.same_frame(*final(self)),
    ;
}

/// `k` answers, each "go on".
pub open spec fn go_on_answers(k: int) -> Seq<bool> {
    Seq::new(k as nat, |j: int| true)
}

/// The answers a sink gave over a scan of `start..end` that stopped after
/// `k` chunks: "go on" after every chunk but the last one scanned, and
/// after that one "stop", unless it was the last chunk of the range.
pub open spec fn stop_answers_ok(a: Seq<bool>, start: int, end: int, chunk: int, k: int) -> bool {
    &&& a.len() == k
    &&& forall|j: int| 0 <= j < k - 1 ==> #[trigger] a[j]
    &&& k > 0 && !is_last_chunk(start, end, chunk, k - 1) ==> !a[k - 1]
}

/// A sink's record grew from `(r0, a0)` to `(r1, a1)` over a scan of
/// `start..end` that stopped after `k` chunks: a report after each chunk,
/// and the answers `stop_answers_ok` describes.
pub open spec fn sink_record_ok(
    r0: Seq<(u64, u64)>,
    a0: Seq<bool>,
    r1: Seq<(u64, u64)>,
    a1: Seq<bool>,
    start: int,
    end: int,
    chunk: int,
    k: int,
) -> bool {
    &&& r1 == r0 + progress_reports(start, end, chunk, k)
    &&& a1.len() >= a0.len()
    &&& a1.take(a0.len() as int) == a0
    &&& stop_answers_ok(a1.skip(a0.len() as int), start, end, chunk, k)
}

/// A sink that keeps only a ghost record of the progress it hears, and
/// never stops the scan.
pub struct IgnoreProgress {
    heard: Ghost<Seq<(u64, u64)>>,
    said: Ghost<Seq<bool>>,
}

impl IgnoreProgress {
    /// A sink that has heard nothing yet.
    pub fn new() -> (r: IgnoreProgress)
        ensures
            r.reports() == Seq::<(u64, u64)>::empty(),
            r.answers() == Seq::<bool>::empty(),
            r.never_stops(),
    {
        IgnoreProgress { heard: Ghost(Seq::empty()), said: Ghost(Seq::empty()) }
    }
}

impl ProgressSink for IgnoreProgress {
    open spec fn obeys_sink_laws() -> bool {
        true
    }

    open spec fn never_stops(&self) -> bool {
        true
    }

    closed spec fn reports(&self) -> Seq<(u64, u64)> {
        self.heard@
    }

    closed spec fn answers(&self) -> Seq<bool> {
        self.said@
    }

    fn on_progress(&mut self, scanned: u64, total: u64) -> (keep_going: bool) {
        proof {
            self.heard = Ghost(self.heard@.push((scanned, total)));
            self.said = Ghost(self.said@.push(true));
        }
        true
    }
}

/// The progress reports of the first `k` chunks of a scan of
/// `start..end`: after each chunk, the bytes from `start` to the chunk's
/// end, and the length of the range.
pub open spec fn progress_reports(start: int, end: int, chunk: int, k: int) -> Seq<(u64, u64)> {
    Seq::new(
        k as nat,
        |j: int| ((chunk_pos(start, chunk, j) + chunk_len(start, end, chunk, j) - start) as u64, (end - start) as u64),
    )
}

/// A header that occurs at `a` in a chunk holding `content[pos..pos + len]`
/// occurs at `a - pos` in the chunk, and the other way round.
proof fn lemma_chunk_occurs(content: Seq<u8>, chunk: Seq<u8>, pos: int, len: int, h: Seq<u8>, i: int)
    requires
        0 <= pos,
        0 <= len,
        pos + len <= content.len(),
        chunk == content.subrange(pos, pos + len),
    ensures
        occurs_at(chunk, h, i) <==> header_in_window(content, h, pos, len, pos + i),
{
    if 0 <= i && i + h.len() <= len {
        assert(chunk.subrange(i, i + h.len()) =~= content.subrange(pos + i, pos + i + h.len()));
    }
}

/// In the known table, the headers start with distinct bytes, so at most
/// one of them occurs at any offset.
proof fn lemma_known_unique(content: Seq<u8>, sigs: Seq<FileSignature>, s: int, a: int)
    requires
        is_known_table(sigs),
        0 <= s < 4,
        occurs_at(content, sigs[s].header@, a),
    ensures
        sig_index_at(content, sigs, a) == s,
{
    reveal_with_fuel(first_sig_from, 5);
    assert(content[a] == sigs[s].header@[0]) by {
        assert(content.subrange(a, a + sigs[s].header@.len())[0] == content[a]);
    }
    assert forall|t: int| 0 <= t < 4 && t != s implies !occurs_at(content, sigs[t].header@, a) by {
        if occurs_at(content, sigs[t].header@, a) {
            assert(content.subrange(a, a + sigs[t].header@.len())[0] == content[a]);
            assert(sigs[t].header@[0] == known_headers()[t][0]);
            assert(sigs[s].header@[0] == known_headers()[s][0]);
        }
    }
    assert(sigs[0] == sigs[0]);
    assert(sigs[1] == sigs[1]);
    assert(sigs[2] == sigs[2]);
    assert(sigs[3] == sigs[3]);
}

} // verus!

verus! {

/// Scans a byte range for carve-able files.
pub trait Carver {
    /// Every file found in `range` of `source`.
    fn scan<S: ByteSource>(&self, source: &S, range: core::ops::Range<u64>) -> (r: Result<
        Vec<CarvedFile>,
        DomainError,
    >)
        requires
            range.start <= range.end,
    ;
}

/// The carver over the known signatures, reading `chunk_size` bytes at a
/// time.
pub struct SignatureCarver {
    signatures: Vec<FileSignature>,
    chunk_size: usize,
}

impl SignatureCarver {
    /// The signatures searched for.
    pub closed spec fn spec_signatures(&self) -> Seq<FileSignature> {
        self.signatures@
    }

    /// Bytes read per chunk.
    pub closed spec fn spec_chunk_size(&self) -> int {
        self.chunk_size as int
    }

    /// The carver searches exactly the known signatures.
    #[verifier::type_invariant]
    pub closed spec fn wf(&self) -> bool {
        is_known_table(self.signatures@)
    }

    /// A carver reading 1 MB chunks: large enough for good throughput,
    /// small enough to keep memory use modest on a multi-gigabyte drive.
    pub fn new() -> (r: SignatureCarver)
        ensures
            r.wf(),
            is_known_table(r.spec_signatures()),
            r.spec_chunk_size() == 1_000_000,
    {
        SignatureCarver { signatures: known_signatures(), chunk_size: 1_000_000 }
    }

    /// A carver with a given chunk size; a small one lets tests force a
    /// signature across a chunk boundary.
    pub fn with_chunk_size(chunk_size: usize) -> (r: SignatureCarver)
        ensures
            r.wf(),
            is_known_table(r.spec_signatures()),
            r.spec_chunk_size() == chunk_size,
    {
        SignatureCarver { signatures: known_signatures(), chunk_size }
    }

    /// Bytes each chunk shares with the previous one.
    fn overlap(&self) -> (r: usize)
        ensures
            r == spec_max_header_len(),
    {
        max_header_len()
    }
}

impl Default for SignatureCarver {
    fn default() -> (r: SignatureCarver)
        ensures
            r.wf(),
            r.spec_chunk_size() == 1_000_000,
    {
        SignatureCarver::new()
    }
}

} // verus!

verus! {

/// A header found after `k + 1` chunks was found in the first `k` or lies
/// in chunk `k`.
proof fn lemma_found_step(
    content: Seq<u8>,
    sigs: Seq<FileSignature>,
    start: int,
    end: int,
    chunk: int,
    k: int,
    a: int,
)
    requires
        0 <= k,
    ensures
        found_upto(content, sigs, start, end, chunk, k + 1, a) <==> (found_upto(
            content,
            sigs,
            start,
            end,
            chunk,
            k,
            a,
        ) || window_hit(
            content,
            sigs,
            sigs.len() as int,
            chunk_pos(start, chunk, k),
            chunk_len(start, end, chunk, k),
            a,
        )),
{
    if found_upto(content, sigs, start, end, chunk, k + 1, a) {
        let j = choose|j: int|
            0 <= j < k + 1 && #[trigger] window_hit(
                content,
                sigs,
                sigs.len() as int,
                chunk_pos(start, chunk, j),
                chunk_len(start, end, chunk, j),
                a,
            );
        if j < k {
            assert(found_upto(content, sigs, start, end, chunk, k, a));
        }
    }
    if found_upto(content, sigs, start, end, chunk, k, a) {
        let j = choose|j: int|
            0 <= j < k && #[trigger] window_hit(
                content,
                sigs,
                sigs.len() as int,
                chunk_pos(start, chunk, j),
                chunk_len(start, end, chunk, j),
                a,
            );
        assert(0 <= j < k + 1);
    }
}

/// A sink's record grew from `(r0, a0)` to `(r1, a1)` over a scan of
/// `start..end` that went through some number `k` of chunks, none of them
/// the last, answering "go on" after each.
pub open spec fn go_on_record_ok(
    r0: Seq<(u64, u64)>,
    a0: Seq<bool>,
    r1: Seq<(u64, u64)>,
    a1: Seq<bool>,
    start: int,
    end: int,
    chunk: int,
) -> bool {
    exists|k: int|
        0 <= k && r1 == r0 + #[trigger] progress_reports(start, end, chunk, k) && a1 == a0 + go_on_answers(k) && (k
            > 0 ==> chunks_scanned(start, end, chunk, k, false))
}

/// No chunk scanned: the record is as it was.
proof fn lemma_record_none(
    r0: Seq<(u64, u64)>,
    a0: Seq<bool>,
    r1: Seq<(u64, u64)>,
    a1: Seq<bool>,
    start: int,
    end: int,
    chunk: int,
)
    requires
        r1 == r0 + progress_reports(start, end, chunk, 0),
        a1 == a0 + go_on_answers(0),
    ensures
        sink_record_ok(r0, a0, r1, a1, start, end, chunk, 0),
{
    assert(a1.take(a0.len() as int) =~= a0);
    assert(a1.skip(a0.len() as int) =~= Seq::<bool>::empty());
}

/// The scan stopped after chunk `k - 1`, whose answer was `last`: "stop",
/// or "go on" after the last chunk of the range.
proof fn lemma_record_stopped(
    r0: Seq<(u64, u64)>,
    a0: Seq<bool>,
    r1: Seq<(u64, u64)>,
    a1: Seq<bool>,
    start: int,
    end: int,
    chunk: int,
    k: int,
    last: bool,
)
    requires
        k >= 1,
        r1 == r0 + progress_reports(start, end, chunk, k),
        a1 == a0 + go_on_answers(k - 1).push(last),
        !is_last_chunk(start, end, chunk, k - 1) ==> !last,
    ensures
        sink_record_ok(r0, a0, r1, a1, start, end, chunk, k),
{
    assert(a1.take(a0.len() as int) =~= a0);
    assert(a1.skip(a0.len() as int) =~= go_on_answers(k - 1).push(last));
}

impl SignatureCarver {
    /// Scans `range` of `source` chunk by chunk for every known header,
    /// resolving each one found to a carved extent, and returns them sorted
    /// by start offset. After every chunk `on_progress` hears how far the
    /// scan got; returning `false` stops the scan early, keeping what was
    /// found so far. A header straddling two chunks is found in the later
    /// one, since consecutive chunks overlap by the longest header.
    pub fn scan_with_progress<S: ByteSource, P: ProgressSink>(
        &self,
        source: &S,
        range: core::ops::Range<u64>,
        on_progress: &mut P,
    ) -> (r: Result<Vec<CarvedFile>, DomainError>)
        requires
            range.start <= range.end,
        ensures
            r matches Ok(files) ==> exists|k: int|
                #[trigger] chunks_scanned(
                    range.start as int,
                    range.end as int,
                    self.spec_chunk_size(),
                    k,
                    old(on_progress).never_stops(),
                ) && carve_result(
                    source.spec_content(),
                    self.spec_signatures(),
                    range.start as int,
                    range.end as int,
                    self.spec_chunk_size(),
                    k,
                    files@,
                ) && (P::obeys_sink_laws() ==> sink_record_ok(
                    old(on_progress).reports(),
                    old(on_progress).answers(),
                    final(on_progress).reports(),
                    final(on_progress).answers(),
                    range.start as int,
                    range.end as int,
                    self.spec_chunk_size(),
                    k,
                )),
            r matches Err(e) ==> e is ByteSource,
            r is Err && P::obeys_sink_laws() ==> go_on_record_ok(
                old(on_progress).reports(),
                old(on_progress).answers(),
                final(on_progress).reports(),
                final(on_progress).answers(),
                range.start as int,
                range.end as int,
                self.spec_chunk_size(),
            ),
            source.spec_faultless() && range.end <= source.spec_content().len() ==> r is Ok,
            old(on_progress).never_stops() ==> final(on_progress).never_stops(),
            old(on_progress).consistent() ==> final(on_progress).consistent(),
            forall|earlier: P|
                earlier.same_frame(*old(on_progress)) ==> #[trigger] earlier.same_frame(*final(on_progress)),
            old(on_progress).never_stops() && range.end > source.spec_content().len() && range.start
                < range.end && self.spec_chunk_size() > 0 ==> r is Err,
            range.start == range.end ==> (r matches Ok(files) && files@.len() == 0) && *final(on_progress)
                == *old(on_progress),
    {
        broadcast use vstd::std_specs::hash::group_hash_axioms;

        proof {
            use_type_invariant(self);
        }
        let ghost content = source.spec_content();
        let ghost sigs = self.signatures@;
        let ghost st = range.start as int;
        let ghost en = range.end as int;
        let ghost ch = self.chunk_size as int;
        let ghost never = on_progress.never_stops();
        let mut results: Vec<CarvedFile> = Vec::new();
        let mut seen: HashSet<u64> = HashSet::new();
        let overlap = self.overlap();
        let step: usize = if self.chunk_size > overlap {
            self.chunk_size - overlap
        } else {
            self.chunk_size
        };
        let total = range.end - range.start;
        let mut pos: u64 = range.start;
        let ghost mut k: int = 0;
        let nsigs = self.signatures.len();
        assert(chunk_pos(st, ch, 0) == st) by (nonlinear_arith);
        loop
            invariant
                content == source.spec_content(),
                never ==> on_progress.never_stops(),
                never == old(on_progress).never_stops(),
                P::obeys_sink_laws() ==> on_progress.reports() == old(on_progress).reports() + progress_reports(st, en, ch, k),
                P::obeys_sink_laws() ==> on_progress.answers() == old(on_progress).answers() + go_on_answers(k),
                old(on_progress).consistent() ==> on_progress.consistent(),
                forall|earlier: P| earlier.same_frame(*old(on_progress)) ==> #[trigger] earlier.same_frame(*on_progress),
                sigs == self.signatures@,
                is_known_table(sigs),
                nsigs == 4,
                st == range.start,
                en == range.end,
                st <= en,
                ch == self.chunk_size,
                step == carve_step(ch),
                total == en - st,
                0 <= k,
                pos == chunk_pos(st, ch, k),
                st <= pos,
                k == 0 ==> pos == st,
                k > 0 ==> pos < en && ch > 0,
                forall|j: int| 0 <= j < k ==> !#[trigger] is_last_chunk(st, en, ch, j),
                st == en ==> k == 0 && results@.len() == 0 && *on_progress == *old(on_progress),
                forall|i: int, j: int|
                    0 <= i < j < results@.len() ==> results@[i].start_offset
                        < results@[j].start_offset,
                forall|i: int|
                    #![trigger results@[i]]
                    0 <= i < results@.len() ==> extent_ok(
                        content,
                        sigs[sig_index_at(content, sigs, results@[i].start_offset as int)],
                        results@[i].start_offset as int,
                        results@[i],
                    ),
                forall|x: u64|
                    #![trigger seen@.contains(x)]
                    seen@.contains(x) <==> exists|i: int|
                        0 <= i < results@.len() && results@[i].start_offset == x,
                forall|x: u64|
                    #![trigger seen@.contains(x)]
                    seen@.contains(x) <==> found_upto(content, sigs, st, en, ch, k, x as int),
                forall|a: int|
                    #![trigger found_upto(content, sigs, st, en, ch, k, a)]
                    found_upto(content, sigs, st, en, ch, k, a) ==> 0 <= a <= u64::MAX,
            decreases en - pos,
        {
            if pos >= range.end {
                proof {
                    assert(k == 0);
                    assert(st >= en);
                    assert(chunks_scanned(st, en, ch, k, never));
                    assert(carve_result(content, sigs, st, en, ch, k, results@)) by {
                        assert forall|a: int|
                            #![trigger found_upto(content, sigs, st, en, ch, k, a)]
                            found_upto(content, sigs, st, en, ch, k, a) implies exists|i: int|
                                0 <= i < results@.len() && results@[i].start_offset == a by {
                            assert(seen@.contains(a as u64));
                        }
                        assert forall|i: int|
                            #![trigger results@[i]]
                            0 <= i < results@.len() implies found_upto(content, sigs, st, en, ch, k, results@[i].start_offset as int) by {
                            assert(seen@.contains(results@[i].start_offset));
                        }
                    }
                }
                proof {
                    assert(chunks_scanned(
                        range.start as int,
                        range.end as int,
                        self.spec_chunk_size(),
                        k,
                        old(on_progress).never_stops(),
                    ));
                    assert(carve_result(
                        source.spec_content(),
                        self.spec_signatures(),
                        range.start as int,
                        range.end as int,
                        self.spec_chunk_size(),
                        k,
                        results@,
                    ));
                }
                proof {
                    if P::obeys_sink_laws() {
                        lemma_record_none(
                            old(on_progress).reports(),
                            old(on_progress).answers(),
                            on_progress.reports(),
                            on_progress.answers(),
                            st,
                            en,
                            ch,
                        );
                    }
                }
                return Ok(results);
            }
            let remaining = range.end - pos;
            let read_len: usize = if (self.chunk_size as u64) < remaining {
                self.chunk_size
            } else {
                remaining as usize
            };
            if read_len == 0 {
                proof {
                    assert(chunks_scanned(st, en, ch, k, never));
                    assert(carve_result(content, sigs, st, en, ch, k, results@)) by {
                        assert forall|a: int|
                            #![trigger found_upto(content, sigs, st, en, ch, k, a)]
                            found_upto(content, sigs, st, en, ch, k, a) implies exists|i: int|
                                0 <= i < results@.len() && results@[i].start_offset == a by {
                            assert(seen@.contains(a as u64));
                        }
                        assert forall|i: int|
                            #![trigger results@[i]]
                            0 <= i < results@.len() implies found_upto(content, sigs, st, en, ch, k, results@[i].start_offset as int) by {
                            assert(seen@.contains(results@[i].start_offset));
                        }
                    }
                }
                proof {
                    assert(chunks_scanned(
                        range.start as int,
                        range.end as int,
                        self.spec_chunk_size(),
                        k,
                        old(on_progress).never_stops(),
                    ));
                    assert(carve_result(
                        source.spec_content(),
                        self.spec_signatures(),
                        range.start as int,
                        range.end as int,
                        self.spec_chunk_size(),
                        k,
                        results@,
                    ));
                }
                proof {
                    if P::obeys_sink_laws() {
                        lemma_record_none(
                            old(on_progress).reports(),
                            old(on_progress).answers(),
                            on_progress.reports(),
                            on_progress.answers(),
                            st,
                            en,
                            ch,
                        );
                    }
                }
                return Ok(results);
            }
            let chunk = match source.read_vec(pos, read_len) {
                Ok(c) => c,
                Err(e) => {
                    proof {
                        assert(k > 0 ==> chunks_scanned(st, en, ch, k, false));
                        assert(P::obeys_sink_laws() ==> 0 <= k && on_progress.reports() == old(on_progress).reports()
                            + progress_reports(st, en, ch, k) && on_progress.answers() == old(
                            on_progress,
                        ).answers() + go_on_answers(k) && (k > 0 ==> chunks_scanned(st, en, ch, k, false)));
                        assert(P::obeys_sink_laws() ==> go_on_record_ok(
                            old(on_progress).reports(),
                            old(on_progress).answers(),
                            on_progress.reports(),
                            on_progress.answers(),
                            st,
                            en,
                            ch,
                        ));
                    }
                    return Err(DomainError::ByteSource(e));
                },
            };
            assert(read_len == chunk_len(st, en, ch, k));
            let mut s: usize = 0;
            while s < nsigs
                invariant
                    content == source.spec_content(),
                    never ==> on_progress.never_stops(),
                    never == old(on_progress).never_stops(),
                    P::obeys_sink_laws() ==> on_progress.reports() == old(on_progress).reports() + progress_reports(st, en, ch, k),
                    P::obeys_sink_laws() ==> on_progress.answers() == old(on_progress).answers() + go_on_answers(k),
                    old(on_progress).consistent() ==> on_progress.consistent(),
                    forall|earlier: P| earlier.same_frame(*old(on_progress)) ==> #[trigger] earlier.same_frame(*on_progress),
                    sigs == self.signatures@,
                    is_known_table(sigs),
                    nsigs == 4,
                    s <= nsigs,
                    st == range.start,
                    en == range.end,
                    ch == self.chunk_size,
                    0 <= k,
                    pos == chunk_pos(st, ch, k),
                    st <= pos < en,
                    ch > 0,
                    forall|j: int| 0 <= j < k ==> !#[trigger] is_last_chunk(st, en, ch, j),
                    read_len == chunk_len(st, en, ch, k),
                    pos + read_len <= en,
                    pos + read_len <= content.len(),
                    chunk@ == content.subrange(pos as int, pos + read_len),
                    forall|i: int, j: int|
                        0 <= i < j < results@.len() ==> results@[i].start_offset
                            < results@[j].start_offset,
                    forall|i: int|
                        #![trigger results@[i]]
                        0 <= i < results@.len() ==> extent_ok(
                            content,
                            sigs[sig_index_at(content, sigs, results@[i].start_offset as int)],
                            results@[i].start_offset as int,
                            results@[i],
                        ),
                    forall|x: u64|
                        #![trigger seen@.contains(x)]
                        seen@.contains(x) <==> exists|i: int|
                            0 <= i < results@.len() && results@[i].start_offset == x,
                    forall|x: u64|
                        #![trigger seen@.contains(x)]
                        seen@.contains(x) <==> (found_upto(content, sigs, st, en, ch, k, x as int)
                            || window_hit(content, sigs, s as int, pos as int, read_len as int, x as int)),
                    forall|a: int|
                        #![trigger found_upto(content, sigs, st, en, ch, k, a)]
                        found_upto(content, sigs, st, en, ch, k, a) ==> 0 <= a <= u64::MAX,
                    source.spec_faultless() ==> true,
                decreases nsigs - s,
            {
                let sig = self.signatures[s];
                let hits = find_all(chunk.as_slice(), sig.header);
                proof {
                    assert forall|i: int| occurs_at(chunk@, sig.header@, i) <==> header_in_window(
                        content,
                        sig.header@,
                        pos as int,
                        read_len as int,
                        pos + i,
                    ) by {
                        lemma_chunk_occurs(content, chunk@, pos as int, read_len as int, sig.header@, i);
                    }
                }
                let mut m: usize = 0;
                while m < hits.len()
                    invariant
                        content == source.spec_content(),
                        never ==> on_progress.never_stops(),
                        never == old(on_progress).never_stops(),
                        P::obeys_sink_laws() ==> on_progress.reports() == old(on_progress).reports() + progress_reports(st, en, ch, k),
                        P::obeys_sink_laws() ==> on_progress.answers() == old(on_progress).answers() + go_on_answers(k),
                        old(on_progress).consistent() ==> on_progress.consistent(),
                        forall|earlier: P| earlier.same_frame(*old(on_progress)) ==> #[trigger] earlier.same_frame(*on_progress),
                        sigs == self.signatures@,
                        is_known_table(sigs),
                        s < 4,
                        sig == sigs[s as int],
                        m <= hits@.len(),
                        st == range.start,
                        en == range.end,
                        ch == self.chunk_size,
                        0 <= k,
                        pos == chunk_pos(st, ch, k),
                        st <= pos < en,
                        ch > 0,
                        forall|j: int| 0 <= j < k ==> !#[trigger] is_last_chunk(st, en, ch, j),
                        read_len == chunk_len(st, en, ch, k),
                        pos + read_len <= en,
                        pos + read_len <= content.len(),
                        chunk@ == content.subrange(pos as int, pos + read_len),
                        forall|t: int| 0 <= t < hits@.len() ==> occurs_at(chunk@, sig.header@, hits@[t] as int),
                        forall|i: int| occurs_at(chunk@, sig.header@, i) <==> header_in_window(
                            content,
                            sig.header@,
                            pos as int,
                            read_len as int,
                            pos + i,
                        ),
                        forall|i: int, j: int|
                            0 <= i < j < results@.len() ==> results@[i].start_offset
                                < results@[j].start_offset,
                        forall|i: int|
                            #![trigger results@[i]]
                            0 <= i < results@.len() ==> extent_ok(
                                content,
                                sigs[sig_index_at(content, sigs, results@[i].start_offset as int)],
                                results@[i].start_offset as int,
                                results@[i],
                            ),
                        forall|x: u64|
                            #![trigger seen@.contains(x)]
                            seen@.contains(x) <==> exists|i: int|
                                0 <= i < results@.len() && results@[i].start_offset == x,
                        forall|x: u64|
                            #![trigger seen@.contains(x)]
                            seen@.contains(x) <==> (found_upto(content, sigs, st, en, ch, k, x as int)
                                || window_hit(content, sigs, s as int, pos as int, read_len as int, x as int)
                                || exists|t: int| 0 <= t < m && x == pos + hits@[t]),
                        forall|a: int|
                            #![trigger found_upto(content, sigs, st, en, ch, k, a)]
                            found_upto(content, sigs, st, en, ch, k, a) ==> 0 <= a <= u64::MAX,
                    decreases hits@.len() - m,
                {
                    let abs = pos + hits[m] as u64;
                    proof {
                        assert(occurs_at(chunk@, sig.header@, hits@[m as int] as int));
                        assert(header_in_window(content, sig.header@, pos as int, read_len as int, abs as int));
                        lemma_known_unique(content, sigs, s as int, abs as int);
                    }
                    let ghost old_seen = seen@;
                    let ghost old_results = results@;
                    if seen.insert(abs) {
                        let f = match resolve_extent(source, &sig, abs) {
                            Ok(f) => f,
                            Err(e) => {
                                proof {
                                    assert(k > 0 ==> chunks_scanned(st, en, ch, k, false));
                                    assert(P::obeys_sink_laws() ==> 0 <= k && on_progress.reports() == old(
                                        on_progress,
                                    ).reports() + progress_reports(st, en, ch, k) && on_progress.answers()
                                        == old(on_progress).answers() + go_on_answers(k) && (k > 0
                                        ==> chunks_scanned(st, en, ch, k, false)));
                                    assert(P::obeys_sink_laws() ==> go_on_record_ok(
                                        old(on_progress).reports(),
                                        old(on_progress).answers(),
                                        on_progress.reports(),
                                        on_progress.answers(),
                                        st,
                                        en,
                                        ch,
                                    ));
                                }
                                return Err(e);
                            },
                        };
                        let mut p: usize = 0;
                        while p < results.len() && results[p].start_offset < abs
                            invariant
                                p <= results@.len(),
                                forall|i: int| 0 <= i < p ==> results@[i].start_offset < abs,
                            decreases results@.len() - p,
                        {
                            p = p + 1;
                        }
                        proof {
                            assert forall|i: int| p <= i < results@.len() implies results@[i].start_offset > abs by {
                                if results@[i].start_offset == abs {
                                    assert(old_seen.contains(abs));
                                }
                                if p < results@.len() && i > p {
                                    assert(results@[p as int].start_offset < results@[i].start_offset);
                                }
                            }
                        }
                        results.insert(p, f);
                        proof {
                            let nr = results@;
                            assert(nr == old_results.insert(p as int, f));
                            assert forall|i: int, j: int| 0 <= i < j < nr.len() implies nr[i].start_offset < nr[j].start_offset by {
                                if i < p && j < p {
                                    assert(nr[i] == old_results[i] && nr[j] == old_results[j]);
                                } else if i < p && j == p {
                                    assert(nr[i] == old_results[i]);
                                } else if i < p && j > p {
                                    assert(nr[i] == old_results[i] && nr[j] == old_results[j - 1]);
                                } else if i == p {
                                    assert(nr[j] == old_results[j - 1]);
                                } else {
                                    assert(nr[i] == old_results[i - 1] && nr[j] == old_results[j - 1]);
                                }
                            }
                            assert forall|i: int|
                                #![trigger nr[i]]
                                0 <= i < nr.len() implies extent_ok(
                                    content,
                                    sigs[sig_index_at(content, sigs, nr[i].start_offset as int)],
                                    nr[i].start_offset as int,
                                    nr[i],
                                ) by {
                                if i < p {
                                    assert(nr[i] == old_results[i]);
                                } else if i > p {
                                    assert(nr[i] == old_results[i - 1]);
                                }
                            }
                            assert forall|x: u64|
                                #![trigger seen@.contains(x)]
                                seen@.contains(x) <==> exists|i: int|
                                    0 <= i < nr.len() && nr[i].start_offset == x by {
                                if seen@.contains(x) {
                                    if x == abs {
                                        assert(nr[p as int].start_offset == x);
                                    } else {
                                        assert(old_seen.contains(x));
                                        let i = choose|i: int| 0 <= i < old_results.len() && old_results[i].start_offset == x;
                                        if i < p {
                                            assert(nr[i] == old_results[i]);
                                        } else {
                                            assert(nr[i + 1] == old_results[i]);
                                        }
                                    }
                                }
                                if exists|i: int| 0 <= i < nr.len() && nr[i].start_offset == x {
                                    let i = choose|i: int| 0 <= i < nr.len() && nr[i].start_offset == x;
                                    if i < p {
                                        assert(nr[i] == old_results[i]);
                                        assert(old_seen.contains(x));
                                    } else if i > p {
                                        assert(nr[i] == old_results[i - 1]);
                                        assert(old_seen.contains(x));
                                    }
                                }
                            }
                        }
                    }
                    proof {
                        assert forall|x: u64|
                            #![trigger seen@.contains(x)]
                            seen@.contains(x) <==> (found_upto(content, sigs, st, en, ch, k, x as int)
                                || window_hit(content, sigs, s as int, pos as int, read_len as int, x as int)
                                || exists|t: int| 0 <= t < m + 1 && x == pos + hits@[t]) by {
                            if exists|t: int| 0 <= t < m + 1 && x == pos + hits@[t] {
                                let t = choose|t: int| 0 <= t < m + 1 && x == pos + hits@[t];
                                if t < m {
                                    assert(old_seen.contains(x));
                                }
                            }
                            if old_seen.contains(x) {
                                if exists|t: int| 0 <= t < m && x == pos + hits@[t] {
                                    let t = choose|t: int| 0 <= t < m && x == pos + hits@[t];
                                    assert(0 <= t < m + 1);
                                }
                            }
                        }
                    }
                    m = m + 1;
                }
                proof {
                    assert forall|x: u64|
                        #![trigger seen@.contains(x)]
                        seen@.contains(x) <==> (found_upto(content, sigs, st, en, ch, k, x as int)
                            || window_hit(content, sigs, s + 1, pos as int, read_len as int, x as int)) by {
                        let a = x as int;
                        if window_hit(content, sigs, s + 1, pos as int, read_len as int, a) {
                            let t = choose|t: int| 0 <= t < s + 1 && #[trigger] header_in_window(content, sigs[t].header@, pos as int, read_len as int, a);
                            if t == s {
                                assert(occurs_at(chunk@, sig.header@, a - pos));
                                assert(hits@.contains((a - pos) as usize));
                                let w = choose|w: int| 0 <= w < hits@.len() && hits@[w] == (a - pos) as usize;
                                assert(x == pos + hits@[w]);
                            }
                        }
                        if exists|t: int| 0 <= t < hits@.len() && x == pos + hits@[t] {
                            let t = choose|t: int| 0 <= t < hits@.len() && x == pos + hits@[t];
                            assert(header_in_window(content, sigs[s as int].header@, pos as int, read_len as int, a));
                        }
                        if window_hit(content, sigs, s as int, pos as int, read_len as int, a) {
                            let t = choose|t: int| 0 <= t < s && #[trigger] header_in_window(content, sigs[t].header@, pos as int, read_len as int, a);
                            assert(0 <= t < s + 1);
                        }
                    }
                }
                s = s + 1;
            }
            proof {
                assert forall|x: u64|
                    #![trigger seen@.contains(x)]
                    seen@.contains(x) <==> found_upto(content, sigs, st, en, ch, k + 1, x as int) by {
                    lemma_found_step(content, sigs, st, en, ch, k, x as int);
                }
                assert forall|a: int|
                    #![trigger found_upto(content, sigs, st, en, ch, k + 1, a)]
                    found_upto(content, sigs, st, en, ch, k + 1, a) implies 0 <= a <= u64::MAX by {
                    lemma_found_step(content, sigs, st, en, ch, k, a);
                    if !found_upto(content, sigs, st, en, ch, k, a) {
                        let t = choose|t: int| 0 <= t < 4 && #[trigger] header_in_window(content, sigs[t].header@, pos as int, read_len as int, a);
                    }
                }
                k = k + 1;
            }
            let scanned = (pos + read_len as u64) - range.start;
            let keep_going = on_progress.on_progress(scanned, total);
            proof {
                if P::obeys_sink_laws() {
                    assert(progress_reports(st, en, ch, k) =~= progress_reports(st, en, ch, k - 1).push(
                        (scanned, total),
                    ));
                    assert(on_progress.reports() =~= old(on_progress).reports() + progress_reports(st, en, ch, k));
                    assert(on_progress.answers() =~= old(on_progress).answers() + go_on_answers(k - 1).push(
                        keep_going,
                    ));
                }
            }
            if !keep_going {
                proof {
                    assert(chunks_scanned(st, en, ch, k, never));
                    assert(carve_result(content, sigs, st, en, ch, k, results@)) by {
                        assert forall|a: int|
                            #![trigger found_upto(content, sigs, st, en, ch, k, a)]
                            found_upto(content, sigs, st, en, ch, k, a) implies exists|i: int|
                                0 <= i < results@.len() && results@[i].start_offset == a by {
                            assert(seen@.contains(a as u64));
                        }
                        assert forall|i: int|
                            #![trigger results@[i]]
                            0 <= i < results@.len() implies found_upto(content, sigs, st, en, ch, k, results@[i].start_offset as int) by {
                            assert(seen@.contains(results@[i].start_offset));
                        }
                    }
                }
                proof {
                    assert(chunks_scanned(
                        range.start as int,
                        range.end as int,
                        self.spec_chunk_size(),
                        k,
                        old(on_progress).never_stops(),
                    ));
                    assert(carve_result(
                        source.spec_content(),
                        self.spec_signatures(),
                        range.start as int,
                        range.end as int,
                        self.spec_chunk_size(),
                        k,
                        results@,
                    ));
                }
                proof {
                    if P::obeys_sink_laws() {
                        lemma_record_stopped(
                            old(on_progress).reports(),
                            old(on_progress).answers(),
                            on_progress.reports(),
                            on_progress.answers(),
                            st,
                            en,
                            ch,
                            k,
                            keep_going,
                        );
                    }
                }
                return Ok(results);
            }
            if pos + read_len as u64 >= range.end {
                proof {
                    assert(is_last_chunk(st, en, ch, k - 1));
                    assert(never ==> en <= content.len());
                    assert(chunks_scanned(st, en, ch, k, never));
                    assert(carve_result(content, sigs, st, en, ch, k, results@)) by {
                        assert forall|a: int|
                            #![trigger found_upto(content, sigs, st, en, ch, k, a)]
                            found_upto(content, sigs, st, en, ch, k, a) implies exists|i: int|
                                0 <= i < results@.len() && results@[i].start_offset == a by {
                            assert(seen@.contains(a as u64));
                        }
                        assert forall|i: int|
                            #![trigger results@[i]]
                            0 <= i < results@.len() implies found_upto(content, sigs, st, en, ch, k, results@[i].start_offset as int) by {
                            assert(seen@.contains(results@[i].start_offset));
                        }
                    }
                }
                proof {
                    assert(chunks_scanned(
                        range.start as int,
                        range.end as int,
                        self.spec_chunk_size(),
                        k,
                        old(on_progress).never_stops(),
                    ));
                    assert(carve_result(
                        source.spec_content(),
                        self.spec_signatures(),
                        range.start as int,
                        range.end as int,
                        self.spec_chunk_size(),
                        k,
                        results@,
                    ));
                }
                proof {
                    if P::obeys_sink_laws() {
                        lemma_record_stopped(
                            old(on_progress).reports(),
                            old(on_progress).answers(),
                            on_progress.reports(),
                            on_progress.answers(),
                            st,
                            en,
                            ch,
                            k,
                            keep_going,
                        );
                    }
                }
                return Ok(results);
            }
            proof {
                assert(go_on_answers(k - 1).push(true) =~= go_on_answers(k));
                assert(!is_last_chunk(st, en, ch, k - 1));
                assert(chunk_pos(st, ch, k) == pos + step) by (nonlinear_arith)
                    requires
                        pos == chunk_pos(st, ch, k - 1),
                        step == carve_step(ch),
                ;
            }
            pos = pos + step as u64;
        }
    }
}

} // verus!

verus! {

/// A known header lies wholly inside `start..end` at `a`.
pub open spec fn header_in_range(
    content: Seq<u8>,
    sigs: Seq<FileSignature>,
    start: int,
    end: int,
    a: int,
) -> bool {
    window_hit(content, sigs, sigs.len() as int, start, end - start, a)
}

/// `files` holds one carved extent per known header lying wholly inside
/// `start..end`, sorted by start offset.
pub open spec fn carve_complete(
    content: Seq<u8>,
    sigs: Seq<FileSignature>,
    start: int,
    end: int,
    files: Seq<CarvedFile>,
) -> bool {
    &&& forall|i: int, j: int|
        0 <= i < j < files.len() ==> files[i].start_offset < files[j].start_offset
    &&& forall|i: int|
        #![trigger files[i]]
        0 <= i < files.len() ==> {
            &&& header_in_range(content, sigs, start, end, files[i].start_offset as int)
            &&& extent_ok(
                content,
                sigs[sig_index_at(content, sigs, files[i].start_offset as int)],
                files[i].start_offset as int,
                files[i],
            )
        }
    &&& forall|a: int|
        #![trigger header_in_range(content, sigs, start, end, a)]
        header_in_range(content, sigs, start, end, a) ==> exists|i: int|
            0 <= i < files.len() && files[i].start_offset == a
}

proof fn lemma_cover_from(
    content: Seq<u8>,
    sigs: Seq<FileSignature>,
    start: int,
    end: int,
    chunk: int,
    k: int,
    j: int,
    s: int,
    a: int,
)
    requires
        chunk > spec_max_header_len(),
        start < end,
        chunks_scanned(start, end, chunk, k, true),
        is_known_table(sigs),
        0 <= s < 4,
        occurs_at(content, sigs[s].header@, a),
        a + sigs[s].header@.len() <= end,
        0 <= j < k,
        chunk_pos(start, chunk, j) <= a,
    ensures
        found_upto(content, sigs, start, end, chunk, k, a),
    decreases k - j,
{
    lemma_known_header_lengths();
    let h = sigs[s].header@;
    assert(h == known_headers()[s]);
    let p = chunk_pos(start, chunk, j);
    let len = chunk_len(start, end, chunk, j);
    let step = carve_step(chunk);
    if j == k - 1 || a < p + step {
        if j < k - 1 {
            assert(!is_last_chunk(start, end, chunk, j));
        }
        assert(header_in_window(content, h, p, len, a));
        assert(window_hit(content, sigs, sigs.len() as int, p, len, a));
    } else {
        assert(chunk_pos(start, chunk, j + 1) == p + step) by (nonlinear_arith)
            requires
                p == chunk_pos(start, chunk, j),
                step == carve_step(chunk),
        ;
        lemma_cover_from(content, sigs, start, end, chunk, k, j + 1, s, a);
    }
}

/// With chunks longer than the longest header, a complete chunked scan
/// finds exactly the known headers lying wholly inside the range: every
/// chunk lies inside the range, and a header crossing a chunk boundary
/// lies wholly inside the next chunk, which starts `overlap` bytes early.
pub proof fn lemma_overlap_finds_every_header(
    content: Seq<u8>,
    sigs: Seq<FileSignature>,
    start: int,
    end: int,
    chunk: int,
    k: int,
    a: int,
)
    requires
        chunk > spec_max_header_len(),
        start <= end,
        chunks_scanned(start, end, chunk, k, true),
        is_known_table(sigs),
    ensures
        found_upto(content, sigs, start, end, chunk, k, a) <==> header_in_range(
            content,
            sigs,
            start,
            end,
            a,
        ),
{
    if header_in_range(content, sigs, start, end, a) {
        let s = choose|s: int|
            0 <= s < sigs.len() && #[trigger] header_in_window(
                content,
                sigs[s].header@,
                start,
                end - start,
                a,
            );
        assert(chunk_pos(start, chunk, 0) == start) by (nonlinear_arith);
        lemma_cover_from(content, sigs, start, end, chunk, k, 0, s, a);
    }
    if found_upto(content, sigs, start, end, chunk, k, a) {
        let j = choose|j: int|
            0 <= j < k && #[trigger] window_hit(
                content,
                sigs,
                sigs.len() as int,
                chunk_pos(start, chunk, j),
                chunk_len(start, end, chunk, j),
                a,
            );
        let p = chunk_pos(start, chunk, j);
        let s = choose|s: int|
            0 <= s < sigs.len() && #[trigger] header_in_window(
                content,
                sigs[s].header@,
                p,
                chunk_len(start, end, chunk, j),
                a,
            );
        assert(p >= start) by (nonlinear_arith)
            requires
                p == chunk_pos(start, chunk, j),
                j >= 0,
                carve_step(chunk) > 0,
        ;
        assert(header_in_window(content, sigs[s].header@, start, end - start, a));
    }
}

/// A scan that reached the end of its range, in chunks longer than the
/// longest header, carved every known header lying wholly in the range.
pub proof fn lemma_full_scan_is_complete(
    content: Seq<u8>,
    sigs: Seq<FileSignature>,
    st: int,
    en: int,
    ch: int,
    k: int,
    files: Seq<CarvedFile>,
)
    requires
        ch > spec_max_header_len(),
        st <= en,
        is_known_table(sigs),
        chunks_scanned(st, en, ch, k, true),
        carve_result(content, sigs, st, en, ch, k, files),
    ensures
        carve_complete(content, sigs, st, en, files),
{
    assert forall|a: int|
        found_upto(content, sigs, st, en, ch, k, a) <==> header_in_range(content, sigs, st, en, a) by {
        lemma_overlap_finds_every_header(content, sigs, st, en, ch, k, a);
    }
    assert forall|a: int|
        #![trigger header_in_range(content, sigs, st, en, a)]
        header_in_range(content, sigs, st, en, a) implies exists|i: int|
            0 <= i < files.len() && files[i].start_offset == a by {
        assert(found_upto(content, sigs, st, en, ch, k, a));
    }
    assert forall|i: int|
        #![trigger files[i]]
        0 <= i < files.len() implies header_in_range(content, sigs, st, en, files[i].start_offset as int) by {
        assert(found_upto(content, sigs, st, en, ch, k, files[i].start_offset as int));
    }
}

impl Carver for SignatureCarver {
    /// `scan_with_progress` with a sink that reports nothing and never
    /// asks to stop.
    fn scan<S: ByteSource>(&self, source: &S, range: core::ops::Range<u64>) -> (r: Result<
        Vec<CarvedFile>,
        DomainError,
    >)
        ensures
            r matches Ok(files) ==> exists|k: int|
                #[trigger] chunks_scanned(
                    range.start as int,
                    range.end as int,
                    self.spec_chunk_size(),
                    k,
                    true,
                ) && carve_result(
                    source.spec_content(),
                    self.spec_signatures(),
                    range.start as int,
                    range.end as int,
                    self.spec_chunk_size(),
                    k,
                    files@,
                ),
            self.spec_chunk_size() > spec_max_header_len() ==> (r matches Ok(files)
                ==> carve_complete(
                source.spec_content(),
                self.spec_signatures(),
                range.start as int,
                range.end as int,
                files@,
            )),
            r matches Err(e) ==> e is ByteSource,
            source.spec_faultless() && range.end <= source.spec_content().len() ==> r is Ok,
            range.end > source.spec_content().len() && range.start < range.end
                && self.spec_chunk_size() > 0 ==> r is Err,
    {
        proof {
            use_type_invariant(self);
        }
        let mut sink = IgnoreProgress::new();
        let r = self.scan_with_progress(source, range, &mut sink);
        proof {
            if let Ok(files) = &r {
                if self.spec_chunk_size() > spec_max_header_len() {
                    let k = choose|k: int|
                        #[trigger] chunks_scanned(range.start as int, range.end as int, self.spec_chunk_size(), k, true)
                            && carve_result(
                            source.spec_content(),
                            self.spec_signatures(),
                            range.start as int,
                            range.end as int,
                            self.spec_chunk_size(),
                            k,
                            files@,
                        );
                    lemma_full_scan_is_complete(
                        source.spec_content(),
                        self.spec_signatures(),
                        range.start as int,
                        range.end as int,
                        self.spec_chunk_size(),
                        k,
                        files@,
                    );
                }
            }
        }
        r
    }
}

} // verus!
