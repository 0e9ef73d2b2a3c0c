//! The interface every filesystem-specific parser implements, so that a
//! scan can find deleted files the same way whichever filesystem is
//! underneath.

use crate::error::DomainError;
use crate::source::ByteSource;
use vstd::prelude::*;

verus! {

/// A contiguous run of clusters.
#[derive(Debug, Clone, Copy, PartialEq, Eq, Structural)]
pub struct ClusterRange {
    pub start_cluster: u32,
    pub cluster_count: u32,
}

/// A deleted file found by walking filesystem metadata (as opposed to one
/// found by carving, which has no metadata at all).
#[derive(Debug, Clone)]
pub struct DeletedEntry {
    /// Reconstructed name; for FAT32 a root-relative path such as
    /// "DOCS/_ANARY.TXT".
    pub name: String,
    pub first_cluster: u64,
    pub file_size: u64,
    /// True when the entry's pointers to its data are still present.
    pub metadata_intact: bool,
    /// 0 to 100: how likely recovery is to give back the original bytes.
    pub confidence: u8,
}

/// The plain values of a `DeletedEntry`.
pub struct EntryModel {
    pub name: Seq<char>,
    pub first_cluster: u64,
    pub file_size: u64,
    pub metadata_intact: bool,
    pub confidence: u8,
}

impl View for DeletedEntry {
    type V = EntryModel;

    open spec fn view(&self) -> EntryModel {
        EntryModel {
            name: self.name@,
            first_cluster: self.first_cluster,
            file_size: self.file_size,
            metadata_intact: self.metadata_intact,
            confidence: self.confidence,
        }
    }
}

/// The models of a sequence of entries.
pub open spec fn entry_models(v: Seq<DeletedEntry>) -> Seq<EntryModel> {
    v.map_values(|e: DeletedEntry| e@)
}

/// Implemented once per filesystem type.
pub trait FilesystemParser: Sized {
    /// Bytes per cluster of the volume this parser was built for.
    spec fn spec_cluster_bytes(&self) -> int;

    /// Cheap check: does the boot sector look like this filesystem?
    fn detect<S: ByteSource>(source: &S) -> (r: bool);

    /// Walks the filesystem's metadata and returns every entry marked
    /// deleted.
    fn enumerate_deleted<S: ByteSource>(&mut self, source: &S) -> (r: Result<
        Vec<DeletedEntry>,
        DomainError,
    >);

    /// Where a deleted entry's data lives on disk, assuming it is still
    /// contiguous.
    fn resolve_data_runs(&self, entry: &DeletedEntry) -> (r: Vec<ClusterRange>)
        requires
            entry.file_size == 0 || self.spec_cluster_bytes() > 0,
        ensures
            entry.file_size == 0 <==> r@.len() == 0,
    ;

    /// The recovered bytes of a deleted entry, at most its recorded size.
    fn recover_bytes<S: ByteSource>(&self, source: &S, entry: &DeletedEntry) -> (r: Result<
        Vec<u8>,
        DomainError,
    >)
        requires
            entry.file_size == 0 || self.spec_cluster_bytes() > 0,
        ensures
            r matches Ok(v) ==> v@.len() <= entry.file_size,
    ;

    /// The byte ranges `(start, end)` of the volume's free clusters,
    /// adjacent free clusters merged into one range, in disk order.
    fn free_space_ranges<S: ByteSource>(&self, source: &S) -> (r: Result<
        Vec<(u64, u64)>,
        DomainError,
    >)
        ensures
            r matches Ok(v) ==> forall|i: int| 0 <= i < v@.len() ==> v@[i].0 <= v@[i].1,
    ;
}

// ---------------------------------------------------------------------
// Free-space runs, shared by every filesystem.
// ---------------------------------------------------------------------

/// The maximal runs `[s, e)` of clusters in `c..hi` for which `free`
/// holds, when the run in progress (if any) started at `open_at`.
pub open spec fn runs_from(free: spec_fn(int) -> bool, c: int, hi: int, open_at: Option<int>) -> Seq<
    (int, int),
>
    decreases hi - c,
{
    if c >= hi {
        match open_at {
            Some(s) => seq![(s, hi)],
            None => seq![],
        }
    } else if free(c) {
        runs_from(
            free,
            c + 1,
            hi,
            match open_at {
                Some(s) => Some(s),
                None => Some(c),
            },
        )
    } else {
        match open_at {
            Some(s) => seq![(s, c)] + runs_from(free, c + 1, hi, None),
            None => runs_from(free, c + 1, hi, None),
        }
    }
}

/// The maximal runs of free clusters among clusters `lo..hi`, in order.
pub open spec fn free_runs(free: spec_fn(int) -> bool, lo: int, hi: int) -> Seq<(int, int)> {
    runs_from(free, lo, hi, None)
}

/// `runs` are the maximal runs of free clusters in `lo..hi`: each run is
/// non-empty and free throughout, runs come in order with an allocated
/// cluster between neighbours, none can be extended, and every free
/// cluster lies in one.
pub open spec fn maximal_free_runs(
    runs: Seq<(int, int)>,
    free: spec_fn(int) -> bool,
    lo: int,
    hi: int,
) -> bool {
    &&& forall|i: int| 0 <= i < runs.len() ==> lo <= #[trigger] runs[i].0 < runs[i].1 <= hi
    &&& forall|i: int, c: int| 0 <= i < runs.len() && runs[i].0 <= c < runs[i].1 ==> #[trigger] free(c) && #[trigger] runs[i].0 <= c
    &&& forall|i: int| 0 <= i < runs.len() && #[trigger] runs[i].0 > lo ==> !free(runs[i].0 - 1)
    &&& forall|i: int| 0 <= i < runs.len() && #[trigger] runs[i].1 < hi ==> !free(runs[i].1)
    &&& forall|i: int, j: int| 0 <= i < j < runs.len() ==> #[trigger] runs[i].1 < #[trigger] runs[j].0
    &&& forall|c: int| lo <= c < hi && #[trigger] free(c) ==> exists|i: int| #![trigger runs[i]] 0 <= i < runs.len() && runs[i].0 <= c < runs[i].1
}

/// What `runs_from` guarantees of its result `r`.
spec fn runs_from_ok(r: Seq<(int, int)>, free: spec_fn(int) -> bool, lo: int, c: int, hi: int, open_at: Option<int>) -> bool {

            &&& forall|i: int| 0 <= i < r.len() ==> lo <= #[trigger] r[i].0 < r[i].1 <= hi
            &&& forall|i: int| 0 <= i < r.len() ==> (#[trigger] r[i].0 >= c || (open_at matches Some(s) && i == 0 && r[i].0 == s))
            &&& forall|i: int, k: int| 0 <= i < r.len() && r[i].0 <= k < r[i].1 ==> #[trigger] free(k) && #[trigger] r[i].0 <= k
            &&& forall|i: int| 0 <= i < r.len() && #[trigger] r[i].0 > lo ==> !free(r[i].0 - 1)
            &&& forall|i: int| 0 <= i < r.len() && #[trigger] r[i].1 < hi ==> !free(r[i].1)
            &&& forall|i: int, j: int| 0 <= i < j < r.len() ==> #[trigger] r[i].1 < #[trigger] r[j].0
            &&& forall|k: int| c <= k < hi && #[trigger] free(k) ==> exists|i: int| #![trigger r[i]] 0 <= i < r.len() && r[i].0 <= k < r[i].1
            &&& (open_at matches Some(s) ==> r.len() > 0 && r[0].0 == s)
}

proof fn lemma_runs_from(free: spec_fn(int) -> bool, lo: int, c: int, hi: int, open_at: Option<int>)
    requires
        lo <= c <= hi,
        open_at matches Some(s) ==> lo <= s < c && (forall|k: int| s <= k < c ==> #[trigger] free(k)) && (s > lo ==> !free(s - 1)),
        open_at is None && c > lo ==> !free(c - 1),
    ensures
        runs_from_ok(runs_from(free, c, hi, open_at), free, lo, c, hi, open_at),
    decreases hi - c,
{
    if c >= hi {
        assert(runs_from_ok(runs_from(free, c, hi, open_at), free, lo, c, hi, open_at));
    } else if free(c) {
        let next = match open_at {
            Some(s) => Some(s),
            None => Some(c),
        };
        lemma_runs_from(free, lo, c + 1, hi, next);
        let r = runs_from(free, c + 1, hi, next);
        assert(runs_from(free, c, hi, open_at) == r);
        assert(r.len() > 0);
        assert forall|i: int| 0 <= i < r.len() implies (#[trigger] r[i].0 >= c || (open_at matches Some(s) && i == 0 && r[i].0 == s)) by {
            if r[i].0 < c {
                assert(i == 0);
            }
        }
        assert forall|k: int| c <= k < hi && #[trigger] free(k) implies exists|i: int| #![trigger r[i]] 0 <= i < r.len() && r[i].0 <= k < r[i].1 by {
            if k == c {
                assert(r[0].0 <= c);
                assert(r[0].0 <= k < r[0].1);
            }
        }
        assert(runs_from_ok(r, free, lo, c, hi, open_at));
    } else {
        lemma_runs_from(free, lo, c + 1, hi, None);
        let tail = runs_from(free, c + 1, hi, None);
        match open_at {
            Some(s) => {
                let r = seq![(s, c)] + tail;
                assert forall|i: int| 0 <= i < r.len() implies lo <= #[trigger] r[i].0 < r[i].1 <= hi by {
                    if i > 0 {
                        assert(r[i] == tail[i - 1]);
                    }
                }
                assert forall|i: int, k: int| 0 <= i < r.len() && r[i].0 <= k < r[i].1 implies #[trigger] free(k) && #[trigger] r[i].0 <= k by {
                    if i > 0 {
                        assert(r[i] == tail[i - 1]);
                    }
                }
                assert forall|i: int| 0 <= i < r.len() && #[trigger] r[i].0 > lo implies !free(r[i].0 - 1) by {
                    if i > 0 {
                        assert(r[i] == tail[i - 1]);
                    }
                }
                assert forall|i: int| 0 <= i < r.len() && #[trigger] r[i].1 < hi implies !free(r[i].1) by {
                    if i > 0 {
                        assert(r[i] == tail[i - 1]);
                    }
                }
                assert forall|i: int| 0 <= i < r.len() implies (#[trigger] r[i].0 >= c || (open_at matches Some(s) && i == 0 && r[i].0 == s)) by {
                    if i > 0 {
                        assert(r[i] == tail[i - 1]);
                    }
                }
                assert forall|i: int, j: int| 0 <= i < j < r.len() implies #[trigger] r[i].1 < #[trigger] r[j].0 by {
                    assert(r[j] == tail[j - 1]);
                    if i > 0 {
                        assert(r[i] == tail[i - 1]);
                    }
                }
                assert forall|k: int| c <= k < hi && #[trigger] free(k) implies exists|i: int| #![trigger r[i]] 0 <= i < r.len() && r[i].0 <= k < r[i].1 by {
                    let i = choose|i: int| #![trigger tail[i]] 0 <= i < tail.len() && tail[i].0 <= k < tail[i].1;
                    assert(r[i + 1] == tail[i]);
                }
                assert(runs_from(free, c, hi, open_at) == r);
                assert(runs_from_ok(r, free, lo, c, hi, open_at));
            },
            None => {
                assert(runs_from(free, c, hi, open_at) == tail);
                assert(runs_from_ok(tail, free, lo, c, hi, open_at));
            },
        }
    }
}

/// The free runs that `free_runs` describes are exactly the maximal runs
/// of free clusters: nothing outside them is free, nothing inside them is
/// allocated.
pub proof fn lemma_free_runs_maximal(free: spec_fn(int) -> bool, lo: int, hi: int)
    requires
        lo <= hi,
    ensures
        maximal_free_runs(free_runs(free, lo, hi), free, lo, hi),
{
    lemma_runs_from(free, lo, lo, hi, None);
}

/// The runs of a vector of `(u64, u64)` pairs, as integers.
pub open spec fn runs_int(v: Seq<(u64, u64)>) -> Seq<(int, int)> {
    v.map_values(|p: (u64, u64)| (p.0 as int, p.1 as int))
}

/// Every run is a non-empty part of `lo..hi` whose clusters are all free.
pub open spec fn runs_all_free(runs: Seq<(int, int)>, free: spec_fn(int) -> bool, lo: int, hi: int) -> bool {
    forall|i: int|
        0 <= i < runs.len() ==> {
            &&& lo <= #[trigger] runs[i].0 < runs[i].1 <= hi
            &&& forall|c: int| runs[i].0 <= c < runs[i].1 ==> #[trigger] free(c)
        }
}

/// Each run ends before the next one starts.
pub open spec fn runs_ordered(runs: Seq<(int, int)>) -> bool {
    forall|i: int, j: int| 0 <= i < j < runs.len() ==> #[trigger] runs[i].1 < #[trigger] runs[j].0
}

/// The state of a scan over clusters `lo..c` that is building the free
/// runs of `lo..hi`: what it has is free, and, when every probe was
/// exact, it is on its way to exactly `free_runs`.
pub open spec fn coalesce_inv(
    runs: Seq<(u64, u64)>,
    open_at: Option<u64>,
    c: int,
    free: spec_fn(int) -> bool,
    lo: int,
    hi: int,
    exact: bool,
) -> bool {
    &&& runs_all_free(runs_int(runs), free, lo, c)
    &&& runs_ordered(runs_int(runs))
    &&& runs.len() > 0 ==> runs.last().1 < c
    &&& (runs.len() > 0 && open_at is Some) ==> runs.last().1 < open_at->Some_0
    &&& open_at matches Some(s) ==> lo <= s < c && forall|k: int| s <= k < c ==> #[trigger] free(k)
    &&& exact ==> runs_int(runs) + runs_from(
        free,
        c,
        hi,
        match open_at {
            Some(s) => Some(s as int),
            None => None,
        },
    ) == free_runs(free, lo, hi)
}

/// Starts a scan of `lo..hi`.
pub proof fn lemma_coalesce_start(free: spec_fn(int) -> bool, lo: int, hi: int, exact: bool)
    ensures
        coalesce_inv(seq![], None, lo, free, lo, hi, exact),
{
    assert(runs_int(seq![]) =~= Seq::<(int, int)>::empty());
    assert(Seq::<(int, int)>::empty() + free_runs(free, lo, hi) =~= free_runs(free, lo, hi));
}

/// Appending a run that starts after the last one ends keeps runs ordered.
proof fn lemma_push_ordered(runs: Seq<(int, int)>, p: (int, int))
    requires
        runs_ordered(runs),
        forall|i: int| 0 <= i < runs.len() ==> #[trigger] runs[i].0 < runs[i].1,
        runs.len() > 0 ==> runs.last().1 < p.0,
    ensures
        runs_ordered(runs.push(p)),
{
    let r = runs.push(p);
    assert forall|i: int, j: int| 0 <= i < j < r.len() implies #[trigger] r[i].1 < #[trigger] r[j].0 by {
        if j == runs.len() {
            assert(r[i] == runs[i]);
            if i < runs.len() - 1 {
                assert(runs[i].1 < runs[runs.len() - 1].0);
                assert(runs[runs.len() - 1].0 < runs[runs.len() - 1].1);
            }
        } else {
            assert(r[i] == runs[i]);
            assert(r[j] == runs[j]);
        }
    }
}

/// Takes cluster `c`, found free (`is_free`) or allocated, into the runs
/// being built, and returns where the run in progress now starts.
pub fn coalesce_step(
    runs: &mut Vec<(u64, u64)>,
    open_at: Option<u64>,
    c: u64,
    is_free: bool,
    Ghost(free): Ghost<spec_fn(int) -> bool>,
    Ghost(lo): Ghost<int>,
    Ghost(hi): Ghost<int>,
    Ghost(exact): Ghost<bool>,
) -> (next: Option<u64>)
    requires
        lo <= c < hi,
        coalesce_inv(old(runs)@, open_at, c as int, free, lo, hi, exact),
        is_free ==> free(c as int),
        exact ==> is_free == free(c as int),
    ensures
        coalesce_inv(final(runs)@, next, c + 1, free, lo, hi, exact),
{
    let ghost old_runs = runs@;
    if is_free {
        let next = match open_at {
            Some(s) => Some(s),
            None => Some(c),
        };
        proof {
            assert(runs_all_free(runs_int(runs@), free, lo, c + 1)) by {
                assert forall|i: int| 0 <= i < runs_int(runs@).len() implies lo <= #[trigger] runs_int(runs@)[i].0 < runs_int(runs@)[i].1 <= c + 1 by {}
            }
        }
        next
    } else {
        match open_at {
            Some(s) => {
                runs.push((s, c));
                proof {
                    assert(runs_int(runs@) =~= runs_int(old_runs).push((s as int, c as int)));
                    if old_runs.len() > 0 {
                        assert(runs_int(old_runs).last() == (old_runs.last().0 as int, old_runs.last().1 as int));
                    }
                    lemma_push_ordered(runs_int(old_runs), (s as int, c as int));
                    let ri = runs_int(runs@);
                    assert forall|i: int| 0 <= i < ri.len() implies {
                        &&& lo <= #[trigger] ri[i].0 < ri[i].1 <= c + 1
                        &&& forall|k: int| ri[i].0 <= k < ri[i].1 ==> #[trigger] free(k)
                    } by {
                        if i < old_runs.len() {
                            assert(ri[i] == runs_int(old_runs)[i]);
                        }
                    }
                    if exact {
                        assert(runs_int(old_runs) + runs_from(free, c as int, hi, Some(s as int)) =~= ri + runs_from(free, c + 1, hi, None));
                    }
                }
            },
            None => {
                proof {
                    let ri = runs_int(runs@);
                    assert forall|i: int| 0 <= i < ri.len() implies lo <= #[trigger] ri[i].0 < ri[i].1 <= c + 1 by {}
                }
            },
        }
        None
    }
}

/// Ends a scan of `lo..hi` whose last cluster has been taken: closes the
/// run in progress, if any.
pub fn coalesce_finish(
    runs: &mut Vec<(u64, u64)>,
    open_at: Option<u64>,
    hi: u64,
    Ghost(free): Ghost<spec_fn(int) -> bool>,
    Ghost(lo): Ghost<int>,
    Ghost(exact): Ghost<bool>,
)
    requires
        lo <= hi,
        coalesce_inv(old(runs)@, open_at, hi as int, free, lo, hi as int, exact),
    ensures
        runs_all_free(runs_int(final(runs)@), free, lo, hi as int),
        runs_ordered(runs_int(final(runs)@)),
        exact ==> runs_int(final(runs)@) == free_runs(free, lo, hi as int),
{
    let ghost old_runs = runs@;
    match open_at {
        Some(s) => {
            runs.push((s, hi));
            proof {
                assert(runs_int(runs@) =~= runs_int(old_runs).push((s as int, hi as int)));
                if old_runs.len() > 0 {
                    assert(runs_int(old_runs).last() == (old_runs.last().0 as int, old_runs.last().1 as int));
                }
                lemma_push_ordered(runs_int(old_runs), (s as int, hi as int));
                let ri = runs_int(runs@);
                assert forall|i: int| 0 <= i < ri.len() implies {
                    &&& lo <= #[trigger] ri[i].0 < ri[i].1 <= hi
                    &&& forall|k: int| ri[i].0 <= k < ri[i].1 ==> #[trigger] free(k)
                } by {
                    if i < old_runs.len() {
                        assert(ri[i] == runs_int(old_runs)[i]);
                    }
                }
                if exact {
                    assert(runs_int(old_runs) + runs_from(free, hi as int, hi as int, Some(s as int)) =~= ri);
                }
            }
        },
        None => {
            proof {
                if exact {
                    assert(runs_int(old_runs) + runs_from(free, hi as int, hi as int, None) =~= runs_int(old_runs));
                }
            }
        },
    }
}

} // verus!
