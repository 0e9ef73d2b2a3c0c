//! A file whose bytes are described by a list of data runs, possibly
//! fragmented across the disk, presented as one continuous logical byte
//! stream. `$MFT` and `$Bitmap` are both read this way.

use crate::ntfs::data_runs::DataRun;
use crate::source::{ByteSource, ByteSourceError, failed_out_of_bounds, read_outcome_ok, read_shape};
use vstd::prelude::*;

verus! {

/// Bytes covered by one run.
pub open spec fn run_bytes(r: DataRun, cs: int) -> int {
    r.length_clusters * cs
}

/// Logical length of a run list: the sum of its runs' byte lengths.
pub open spec fn runs_total(runs: Seq<DataRun>, cs: int) -> int
    decreases runs.len(),
{
    if runs.len() == 0 {
        0
    } else {
        run_bytes(runs[0], cs) + runs_total(runs.drop_first(), cs)
    }
}

/// Disk offset of logical byte `q` (for `0 <= q < runs_total`).
pub open spec fn phys_of(runs: Seq<DataRun>, cs: int, q: int) -> int
    decreases runs.len(),
{
    if runs.len() == 0 {
        -1
    } else if q < run_bytes(runs[0], cs) {
        runs[0].start_lcn * cs + q
    } else {
        phys_of(runs.drop_first(), cs, q - run_bytes(runs[0], cs))
    }
}

/// Logical byte `q` of the file: the disk byte it maps to, or zero past
/// the end of the run list.
pub open spec fn logical_byte(content: Seq<u8>, runs: Seq<DataRun>, cs: int, q: int) -> u8 {
    if 0 <= q < runs_total(runs, cs) {
        content[phys_of(runs, cs, q)]
    } else {
        0
    }
}

/// Every disk byte behind logical bytes `offset..offset + len` exists.
pub open spec fn window_readable(
    content: Seq<u8>,
    runs: Seq<DataRun>,
    cs: int,
    offset: int,
    len: int,
) -> bool {
    forall|q: int|
        #![trigger phys_of(runs, cs, q)]
        offset <= q < offset + len && q < runs_total(runs, cs) ==> 0 <= phys_of(runs, cs, q)
            < content.len()
}

/// Logical bytes `offset..offset + len`, zero past the end of the runs.
pub open spec fn logical_window(
    content: Seq<u8>,
    runs: Seq<DataRun>,
    cs: int,
    offset: int,
    len: int,
) -> Seq<u8> {
    Seq::new(len as nat, |k: int| logical_byte(content, runs, cs, offset + k))
}

proof fn lemma_total_nonneg(runs: Seq<DataRun>, cs: int)
    requires
        cs >= 0,
    ensures
        runs_total(runs, cs) >= 0,
    decreases runs.len(),
{
    if runs.len() > 0 {
        assert(run_bytes(runs[0], cs) >= 0) by (nonlinear_arith)
            requires
                cs >= 0,
                runs[0].length_clusters >= 0,
        ;
        lemma_total_nonneg(runs.drop_first(), cs);
    }
}

/// Splitting the run list at `i`: the logical stream is the first `i`
/// runs followed by the rest.
proof fn lemma_split(runs: Seq<DataRun>, cs: int, i: int, q: int)
    requires
        cs >= 0,
        0 <= i < runs.len(),
        runs_total(runs.take(i), cs) <= q,
    ensures
        runs_total(runs, cs) == runs_total(runs.take(i), cs) + runs_total(runs.skip(i), cs),
        q < runs_total(runs, cs) ==> phys_of(runs, cs, q) == phys_of(
            runs.skip(i),
            cs,
            q - runs_total(runs.take(i), cs),
        ),
    decreases i,
{
    if i > 0 {
        let rest = runs.drop_first();
        assert(runs.take(i).drop_first() =~= rest.take(i - 1));
        assert(runs.skip(i) =~= rest.skip(i - 1));
        assert(runs.take(i)[0] == runs[0]);
        lemma_split(rest, cs, i - 1, q - run_bytes(runs[0], cs));
        lemma_total_nonneg(rest.take(i - 1), cs);
    } else {
        assert(runs.skip(0) =~= runs);
        assert(runs.take(0).len() == 0);
    }
}

proof fn lemma_take_total(runs: Seq<DataRun>, cs: int, i: int)
    requires
        cs >= 0,
        0 <= i < runs.len(),
    ensures
        runs_total(runs.take(i + 1), cs) == runs_total(runs.take(i), cs) + run_bytes(runs[i], cs),
    decreases i,
{
    if i > 0 {
        let rest = runs.drop_first();
        assert(runs.take(i + 1).drop_first() =~= rest.take(i));
        assert(runs.take(i).drop_first() =~= rest.take(i - 1));
        assert(runs.take(i)[0] == runs[0]);
        assert(runs.take(i + 1)[0] == runs[0]);
        assert(rest[i - 1] == runs[i]);
        lemma_take_total(rest, cs, i - 1);
    } else {
        let empty = Seq::<DataRun>::empty();
        assert(runs.take(1).drop_first() =~= empty);
        assert(runs.take(0) =~= empty);
        assert(runs.take(1)[0] == runs[0]);
        assert(runs_total(empty, cs) == 0);
    }
}

/// Logical byte `q` inside run `idx` maps to the run's start plus the
/// distance from the run's logical start.
proof fn lemma_phys_in_run(runs: Seq<DataRun>, cs: int, idx: int, q: int)
    requires
        cs >= 0,
        0 <= idx < runs.len(),
        runs_total(runs.take(idx), cs) <= q < runs_total(runs.take(idx), cs) + run_bytes(
            runs[idx],
            cs,
        ),
    ensures
        q < runs_total(runs, cs),
        phys_of(runs, cs, q) == runs[idx].start_lcn * cs + (q - runs_total(runs.take(idx), cs)),
{
    let tail = runs.skip(idx);
    lemma_split(runs, cs, idx, q);
    assert(tail[0] == runs[idx]);
    lemma_total_nonneg(tail.drop_first(), cs);
}

/// A file made of `runs`, clusters of `cluster_size` bytes each.
pub struct RunListFile {
    runs: Vec<DataRun>,
    cluster_size: u64,
}

impl RunListFile {
    /// The runs, in logical order.
    pub closed spec fn spec_runs(&self) -> Seq<DataRun> {
        self.runs@
    }

    /// Bytes per cluster.
    pub closed spec fn spec_cluster_size(&self) -> int {
        self.cluster_size as int
    }

    /// The file's invariant: clusters are at most 4 GiB. This is the
    /// arithmetic limit the reads are proved under: a run's length in
    /// bytes (clusters times cluster size) then fits in 96 bits, so sums
    /// of runs and positions on the disk can be computed in 128-bit
    /// arithmetic without overflow. Every NTFS cluster size, a 16-bit
    /// sector size times an 8-bit sector count, lies far below it.
    pub closed spec fn wf(&self) -> bool {
        self.cluster_size <= 0xFFFF_FFFF
    }

    /// A file of `runs` with clusters of `cluster_size` bytes (at most
    /// 4 GiB, the limit `wf` explains).
    pub fn new(runs: Vec<DataRun>, cluster_size: u64) -> (r: RunListFile)
        requires
            cluster_size <= 0xFFFF_FFFF,
        ensures
            r.wf(),
            r.spec_runs() == runs@,
            r.spec_cluster_size() == cluster_size,
    {
        RunListFile { runs, cluster_size }
    }

    /// Total logical length in bytes: every run's clusters times the
    /// cluster size, saturating at `u64::MAX`.
    pub fn total_len(&self) -> (r: u64)
        requires
            self.wf(),
        ensures
            r == if runs_total(self.spec_runs(), self.spec_cluster_size()) <= u64::MAX {
                runs_total(self.spec_runs(), self.spec_cluster_size())
            } else {
                u64::MAX as int
            },
    {
        let mut total: u128 = 0;
        let mut i: usize = 0;
        let n = self.runs.len();
        let ghost cs = self.cluster_size as int;
        while i < n
            invariant
                n == self.runs@.len(),
                i <= n,
                self.cluster_size <= 0xFFFF_FFFF,
                cs == self.cluster_size,
                total <= u64::MAX + 1,
                total == if runs_total(self.runs@.take(i as int), cs) <= u64::MAX {
                    runs_total(self.runs@.take(i as int), cs)
                } else {
                    u64::MAX + 1
                },
            decreases n - i,
        {
            let run = self.runs[i];
            assert((run.length_clusters as u128) * (self.cluster_size as u128) <= 0xFFFF_FFFF_FFFF_FFFF_FFFF_FFFF) by (nonlinear_arith)
                requires
                    run.length_clusters <= 0xFFFF_FFFF_FFFF_FFFF,
                    self.cluster_size <= 0xFFFF_FFFF,
            ;
            let bytes = (run.length_clusters as u128) * (self.cluster_size as u128);
            proof {
                lemma_take_total(self.runs@, cs, i as int);
                lemma_total_nonneg(self.runs@.take(i as int), cs);
                assert(run_bytes(run, cs) >= 0) by (nonlinear_arith)
                    requires
                        cs >= 0,
                        run.length_clusters >= 0,
                ;
            }
            if total + bytes > u64::MAX as u128 {
                total = u64::MAX as u128 + 1;
            } else {
                total = total + bytes;
            }
            i = i + 1;
        }
        proof {
            assert(self.runs@.take(n as int) =~= self.runs@);
        }
        if total > u64::MAX as u128 {
            u64::MAX
        } else {
            total as u64
        }
    }

    /// Reads `len` bytes at logical offset `offset` (a position in this
    /// file's own content, not on the disk), translating through every
    /// physical extent the range touches. Bytes past the end of the runs
    /// read as zero.
    pub fn read_at<S: ByteSource>(&self, source: &S, offset: u64, len: usize) -> (r: Result<
        Vec<u8>,
        ByteSourceError,
    >)
        requires
            self.wf(),
        ensures
            ({
                let content = source.spec_content();
                let runs = self.spec_runs();
                let cs = self.spec_cluster_size();
                let readable = window_readable(content, runs, cs, offset as int, len as int);
                &&& r matches Ok(v) ==> readable && v@ == logical_window(
                    content,
                    runs,
                    cs,
                    offset as int,
                    len as int,
                )
                &&& !readable ==> r is Err
                &&& failed_out_of_bounds(r) ==> !readable
                &&& source.spec_faultless() && readable ==> r is Ok
            }),
    {
        let ghost content = source.spec_content();
        let ghost runs = self.runs@;
        let ghost cs = self.cluster_size as int;
        let ghost off = offset as int;
        let mut out: Vec<u8> = Vec::new();
        let mut remaining: u128 = len as u128;
        let mut logical_pos: u128 = offset as u128;
        let mut run_base: u128 = 0;
        let n = self.runs.len();
        let mut idx: usize = 0;
        while idx < n
            invariant
                n == runs.len(),
                runs == self.runs@,
                cs == self.cluster_size,
                self.cluster_size <= 0xFFFF_FFFF,
                content == source.spec_content(),
                off == offset,
                idx <= n,
                run_base == runs_total(runs.take(idx as int), cs),
                out@.len() + remaining == len,
                logical_pos == off + out@.len(),
                out@ == logical_window(content, runs, cs, off, out@.len() as int),
                window_readable(content, runs, cs, off, out@.len() as int),
                remaining > 0 ==> logical_pos >= run_base,
                logical_pos <= off + len,
                idx == n ==> run_base == runs_total(runs, cs),
            ensures
                out@.len() + remaining == len,
                logical_pos == off + out@.len(),
                out@ == logical_window(content, runs, cs, off, out@.len() as int),
                window_readable(content, runs, cs, off, out@.len() as int),
                remaining > 0 ==> logical_pos >= runs_total(runs, cs),
            decreases n - idx,
        {
            if remaining == 0 {
                break;
            }

            let run = self.runs[idx];
            assert((run.length_clusters as u128) * (self.cluster_size as u128) <= 0xFFFF_FFFF_FFFF_FFFF_FFFF_FFFF) by (nonlinear_arith)
                requires
                    run.length_clusters <= 0xFFFF_FFFF_FFFF_FFFF,
                    self.cluster_size <= 0xFFFF_FFFF,
            ;
            let run_len_bytes = (run.length_clusters as u128) * (self.cluster_size as u128);
            let run_end = run_base + run_len_bytes;
            proof {
                lemma_take_total(runs, cs, idx as int);
                lemma_total_nonneg(runs.take(idx as int), cs);
            }
            if logical_pos < run_end && logical_pos + remaining > run_base {
                let start_in_run = logical_pos - run_base;
                let available = run_len_bytes - start_in_run;
                let take = if remaining < available { remaining } else { available };
                assert((run.start_lcn as u128) * (self.cluster_size as u128) <= 0xFFFF_FFFF_FFFF_FFFF_FFFF_FFFF) by (nonlinear_arith)
                    requires
                        run.start_lcn <= 0xFFFF_FFFF_FFFF_FFFF,
                        self.cluster_size <= 0xFFFF_FFFF,
                ;
                let disk_offset = (run.start_lcn as u128) * (self.cluster_size as u128) + start_in_run;
                proof {
                    assert forall|q: int| logical_pos <= q < logical_pos + take implies phys_of(
                        runs,
                        cs,
                        q,
                    ) == disk_offset + (q - logical_pos) && q < runs_total(runs, cs) by {
                        lemma_phys_in_run(runs, cs, idx as int, q);
                    }
                }
                if disk_offset > u64::MAX as u128 {
                    let size = source.size();
                    proof {
                        let q = logical_pos as int;
                        assert(phys_of(runs, cs, q) == disk_offset);
                        assert(!window_readable(content, runs, cs, off, len as int));
                    }
                    return Err(ByteSourceError::OutOfBounds {
                        offset: u64::MAX,
                        len: take as usize,
                        size,
                    });
                }
                let chunk = match source.read_vec(disk_offset as u64, take as usize) {
                    Ok(c) => c,
                    Err(e) => {
                        proof {
                            if failed_out_of_bounds(Err::<Vec<u8>, ByteSourceError>(e)) {
                                if disk_offset + take <= content.len() {
                                } else {
                                    let q = logical_pos + take - 1;
                                    assert(phys_of(runs, cs, q) == disk_offset + take - 1);
                                }
                            }
                        }
                        return Err(e);
                    },
                };
                let ghost before = out@;
                let mut k: usize = 0;
                while k < chunk.len()
                    invariant
                        k <= chunk@.len(),
                        disk_offset + take <= content.len(),
                        chunk@ == content.subrange(disk_offset as int, disk_offset + take),
                        out@ == before + chunk@.take(k as int),
                    decreases chunk@.len() - k,
                {
                    out.push(chunk[k]);
                    k = k + 1;
                    proof {
                        assert(chunk@.take(k as int) =~= chunk@.take(k - 1).push(chunk@[k - 1]));
                    }
                }
                proof {
                    assert(chunk@.take(take as int) =~= chunk@);
                    let new_len = before.len() + take;
                    assert forall|j: int| 0 <= j < new_len implies out@[j] == logical_byte(
                        content,
                        runs,
                        cs,
                        off + j,
                    ) by {
                        if j >= before.len() {
                            let q = off + j;
                            assert(phys_of(runs, cs, q) == disk_offset + (q - logical_pos));
                        }
                    }
                    assert(out@ =~= logical_window(content, runs, cs, off, new_len));
                    assert forall|q: int|
                        #![trigger phys_of(runs, cs, q)]
                        off <= q < off + new_len && q < runs_total(runs, cs) implies 0 <= phys_of(
                            runs,
                            cs,
                            q,
                        ) < content.len() by {
                        if q >= logical_pos {
                            assert(phys_of(runs, cs, q) == disk_offset + (q - logical_pos));
                        }
                    }
                }
                logical_pos = logical_pos + take;
                remaining = remaining - take;
            }
            run_base = run_end;
            idx = idx + 1;
            proof {
                if idx == n {
                    assert(runs.take(n as int) =~= runs);
                }
            }
        }
        let ghost before = out@;
        let mut k: u128 = 0;
        while k < remaining
            invariant
                k <= remaining,
                out@.len() == before.len() + k,
                forall|j: int| 0 <= j < before.len() ==> out@[j] == before[j],
                forall|j: int| before.len() <= j < out@.len() ==> out@[j] == 0,
            decreases remaining - k,
        {
            out.push(0);
            k = k + 1;
        }
        proof {
            assert forall|j: int| 0 <= j < len implies out@[j] == logical_byte(
                content,
                runs,
                cs,
                off + j,
            ) by {
                if j >= before.len() {
                    assert(off + j >= runs_total(runs, cs));
                } else {
                    assert(before[j] == logical_window(content, runs, cs, off, before.len() as int)[j]);
                }
            }
            assert(out@ =~= logical_window(content, runs, cs, off, len as int));
        }
        Ok(out)
    }
}

} // verus!
