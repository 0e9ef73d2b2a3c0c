//! The free-space wipe: applies a `WipePattern` to every free cluster of
//! the detected filesystem, then optionally runs the carver over exactly
//! the ranges it wiped to check that nothing carve-able is left.
//!
//! Detecting an SSD needs a real block device to query, which a disk
//! image is not, so the caller says whether to treat the target as one;
//! an overwrite wipe is then refused, since overwriting is unreliable on
//! flash media. Issuing TRIM/Discard needs a raw block device and
//! platform ioctls, and is not attempted.

use crate::application::error::ApplicationError;
use crate::carving::carver::{CarvedFile, Carver, SignatureCarver, carve_complete, header_in_range, lemma_uniform_range_has_no_header};
use crate::carving::signatures::{FileSignature, is_known_table};
use crate::detect::{DetectedParser, detect_parser, fat32_volume};
use crate::fat32::fat32_parser::{fat_byte_ranges, fat_free_pred, fat_ranges_ok};
use crate::ntfs::ntfs_parser::{ntfs_byte_ranges, ntfs_free_pred, ntfs_ranges_ok, spec_ntfs_setup};
use crate::parser::{runs_all_free, runs_int};
use crate::secure_delete::wipe_pattern::{
    PassFill,
    WipePattern,
    WipeRng,
    fill_pass,
    lemma_state_after_add,
    lemma_stream_resumes,
    state_after,
    steps_for,
    stream_byte,
};
use crate::source::{ByteSourceError, WritableByteSource, range_in_bounds};
use vstd::prelude::*;

verus! {

/// Bytes generated and written at a time: enough for throughput, small
/// enough to keep the buffer modest on a large wipe.
pub const WIPE_CHUNK_SIZE: usize = 1_000_000;

/// What the carver still found in the wiped ranges after the wipe.
#[derive(Debug, Clone, Copy)]
pub struct VerificationResult {
    /// Zero is the goal. A small number after a random pass can be a
    /// header-byte coincidence in the random bytes.
    pub carved_files_found_after_wipe: usize,
}

/// What a wipe did.
#[derive(Debug, Clone, Copy)]
pub struct WipeResult {
    pub pattern_name: &'static str,
    pub ranges_wiped: usize,
    pub bytes_written: u64,
    pub verification: Option<VerificationResult>,
}

/// Byte `p` lies in one of `ranges`.
pub open spec fn in_ranges(ranges: Seq<(int, int)>, p: int) -> bool {
    exists|i: int| 0 <= i < ranges.len() && #[trigger] ranges[i].0 <= p < ranges[i].1
}

/// The total length of `ranges`.
pub open spec fn total_length(ranges: Seq<(int, int)>) -> int
    decreases ranges.len(),
{
    if ranges.len() == 0 {
        0
    } else {
        total_length(ranges.drop_last()) + ranges.last().1 - ranges.last().0
    }
}

/// Each range is non-negative and ends before the next one starts.
pub open spec fn ranges_sorted(ranges: Seq<(int, int)>) -> bool {
    &&& forall|i: int| 0 <= i < ranges.len() ==> 0 <= #[trigger] ranges[i].0 <= ranges[i].1
    &&& forall|j: int, k: int| 0 <= j < k < ranges.len() ==> #[trigger] ranges[j].1 <= #[trigger] ranges[k].0
}

/// `p` is the parser `detect_parser` gives for a source of `content`.
pub open spec fn detected_as(content: Seq<u8>, p: DetectedParser) -> bool {
    match p {
        DetectedParser::Fat32(q) => fat32_volume(content) == Some(q.spec_boot_sector()),
        DetectedParser::Ntfs(q) => q.spec_names().len() == 0 && spec_ntfs_setup(content) == Some(
            (q.spec_boot_sector(), q.spec_mft_runs(), q.spec_bitmap()),
        ),
    }
}

/// `ranges` are free-space ranges of the filesystem on a source of
/// `content`: made only of its free clusters, and when no read failed,
/// exactly the merged runs of all of them.
pub open spec fn volume_free_ranges(content: Seq<u8>, faultless: bool, ranges: Seq<(int, int)>) -> bool {
    exists|p: DetectedParser| detected_as(content, p) && #[trigger] p.spec_free_ranges_ok(content, faultless, ranges)
}

/// The byte a pass leaves, for the passes that write a constant.
pub open spec fn fill_value(pass: PassFill) -> Option<u8> {
    match pass {
        PassFill::Zero => Some(0u8),
        PassFill::One => Some(0xFFu8),
        PassFill::Random => None,
    }
}

/// Every byte of `ranges` in `content` is what the last of `passes`
/// leaves, when that pass writes a constant.
pub open spec fn ranges_filled(content: Seq<u8>, ranges: Seq<(int, int)>, passes: Seq<PassFill>) -> bool {
    passes.len() > 0 && fill_value(passes.last()) is Some ==> forall|p: int|
        0 <= p < content.len() && in_ranges(ranges, p) ==> #[trigger] content[p] == fill_value(
            passes.last(),
        )->Some_0
}

/// Bytes outside `ranges` are the same in `before` and `after`.
pub open spec fn unchanged_outside(before: Seq<u8>, after: Seq<u8>, ranges: Seq<(int, int)>) -> bool {
    &&& after.len() == before.len()
    &&& forall|p: int| 0 <= p < before.len() && !in_ranges(ranges, p) ==> #[trigger] after[p] == before[p]
}

/// The generator's state after one pass over `len` bytes from state `s`:
/// a random pass draws `len` bytes, a constant one draws none.
pub open spec fn pass_advance(s: u64, len: int, pass: PassFill) -> u64 {
    if pass == PassFill::Random {
        state_after(s, steps_for(len))
    } else {
        s
    }
}

/// Overwrites `start..end` with one pass, chunk by chunk.
fn write_pass<W: WritableByteSource>(
    source: &mut W,
    start: u64,
    end: u64,
    pass: PassFill,
    rng: &mut WipeRng,
) -> (r: Result<(), ByteSourceError>)
    requires
        start <= end,
    ensures
        final(source).spec_faultless() == old(source).spec_faultless(),
        unchanged_outside(old(source).spec_content(), final(source).spec_content(), seq![(start as int, end as int)]),
        r is Ok && start < end ==> end <= old(source).spec_content().len(),
        r is Ok && fill_value(pass) is Some ==> forall|p: int|
            start <= p < end ==> #[trigger] final(source).spec_content()[p] == fill_value(pass)->Some_0,
        r is Ok && pass == PassFill::Random ==> forall|p: int|
            start <= p < end ==> #[trigger] final(source).spec_content()[p] == stream_byte(
                old(rng).spec_state(),
                p - start,
            ),
        r is Ok ==> final(rng).spec_state() == pass_advance(old(rng).spec_state(), end - start, pass),
        old(source).spec_faultless() && end <= old(source).spec_content().len() ==> r is Ok,
{
    let ghost c0 = source.spec_content();
    let ghost s0 = rng.spec_state();
    let ghost rs = seq![(start as int, end as int)];
    let mut offset = start;
    while offset < end
        invariant
            start <= offset <= end,
            s0 == old(rng).spec_state(),
            pass == PassFill::Random ==> (offset - start) % 8 == 0 || offset == end,
            pass == PassFill::Random ==> rng.spec_state() == state_after(s0, steps_for(offset - start)),
            pass != PassFill::Random ==> rng.spec_state() == s0,
            pass == PassFill::Random ==> forall|p: int|
                start <= p < offset ==> #[trigger] source.spec_content()[p] == stream_byte(s0, p - start),
            source.spec_faultless() == old(source).spec_faultless(),
            c0 == old(source).spec_content(),
            rs == seq![(start as int, end as int)],
            source.spec_content().len() == c0.len(),
            offset > start ==> offset <= c0.len(),
            forall|p: int| 0 <= p < c0.len() && !(start <= p < offset) ==> #[trigger] source.spec_content()[p] == c0[p],
            fill_value(pass) is Some ==> forall|p: int|
                start <= p < offset ==> #[trigger] source.spec_content()[p] == fill_value(pass)->Some_0,
        decreases end - offset,
    {
        let remaining = end - offset;
        let chunk_len: usize = if remaining < WIPE_CHUNK_SIZE as u64 {
            remaining as usize
        } else {
            WIPE_CHUNK_SIZE
        };
        let mut chunk: Vec<u8> = vec![0u8; chunk_len];
        let ghost s_cur = rng.spec_state();
        fill_pass(pass, chunk.as_mut_slice(), rng);
        let ghost before = source.spec_content();
        match source.write_at(offset, chunk.as_slice()) {
            Ok(()) => {},
            Err(e) => {
                proof {
                    assert forall|p: int| 0 <= p < c0.len() && !in_ranges(rs, p) implies #[trigger] source.spec_content()[p]
                        == c0[p] by {
                        assert(!(start <= p < end)) by {
                            if start <= p < end {
                                assert(rs[0].0 <= p < rs[0].1);
                            }
                        }
                    }
                }
                return Err(e);
            },
        }
        proof {
            assert(source.spec_content() == crate::source::overwrite(before, offset as int, chunk@));
            if pass == PassFill::Random {
                let m = offset - start;
                assert(m % 8 == 0);
                assert(steps_for(m) == m / 8);
                assert forall|p: int| offset <= p < offset + chunk_len implies #[trigger] source.spec_content()[p]
                    == stream_byte(s0, p - start) by {
                    assert(source.spec_content()[p] == chunk@[p - offset]);
                    lemma_stream_resumes(s0, m, p - offset);
                }
                lemma_state_after_add(s0, (m / 8) as nat, steps_for(chunk_len as int));
                assert((m / 8) as nat + steps_for(chunk_len as int) == steps_for(m + chunk_len));
                assert(chunk_len == WIPE_CHUNK_SIZE || offset + chunk_len == end);
            }
        }
        offset = offset + chunk_len as u64;
    }
    proof {
        assert forall|p: int| 0 <= p < c0.len() && !in_ranges(rs, p) implies #[trigger] source.spec_content()[p]
            == c0[p] by {
            assert(!(start <= p < end)) by {
                if start <= p < end {
                    assert(rs[0].0 <= p < rs[0].1);
                }
            }
        }
    }
    Ok(())
}

/// Two writes confined to `s..e` leave everything else as it was.
proof fn lemma_chain_unchanged(a: Seq<u8>, b: Seq<u8>, c: Seq<u8>, s: int, e: int)
    requires
        unchanged_outside(a, b, seq![(s, e)]),
        unchanged_outside(b, c, seq![(s, e)]),
    ensures
        unchanged_outside(a, c, seq![(s, e)]),
{
    assert forall|p: int| 0 <= p < a.len() && !in_ranges(seq![(s, e)], p) implies #[trigger] c[p] == a[p] by {
        assert(b[p] == a[p]);
        assert(c[p] == b[p]);
    }
}

/// A position of one of the first `i` ranges, or of range `i`, is in
/// `all`.
proof fn lemma_in_prefix(all: Seq<(int, int)>, i: int, p: int)
    requires
        0 <= i < all.len(),
    ensures
        in_ranges(all.take(i), p) ==> in_ranges(all, p),
        in_ranges(all.take(i + 1), p) <==> (in_ranges(all.take(i), p) || all[i].0 <= p < all[i].1),
        (all[i].0 <= p < all[i].1) ==> in_ranges(all, p),
{
    if in_ranges(all.take(i), p) {
        let k = choose|k: int| 0 <= k < all.take(i).len() && #[trigger] all.take(i)[k].0 <= p < all.take(i)[k].1;
        assert(all[k] == all.take(i)[k]);
        assert(all.take(i + 1)[k] == all[k]);
    }
    if all[i].0 <= p < all[i].1 {
        assert(all.take(i + 1)[i] == all[i]);
    }
    if in_ranges(all.take(i + 1), p) {
        let k = choose|k: int| 0 <= k < all.take(i + 1).len() && #[trigger] all.take(i + 1)[k].0 <= p < all.take(i + 1)[k].1;
        if k < i {
            assert(all.take(i)[k] == all.take(i + 1)[k]);
        }
    }
}

/// Writing range `i` after the first `i` ranges leaves everything outside
/// all the ranges as it was.
proof fn lemma_range_partial(c0: Seq<u8>, ci: Seq<u8>, cur: Seq<u8>, all: Seq<(int, int)>, i: int)
    requires
        0 <= i < all.len(),
        unchanged_outside(c0, ci, all.take(i)),
        unchanged_outside(ci, cur, seq![(all[i].0, all[i].1)]),
    ensures
        unchanged_outside(c0, cur, all),
{
    assert forall|p: int| 0 <= p < c0.len() && !in_ranges(all, p) implies #[trigger] cur[p] == c0[p] by {
        lemma_in_prefix(all, i, p);
        if in_ranges(seq![(all[i].0, all[i].1)], p) {
            let k = choose|k: int| 0 <= k < 1 && #[trigger] seq![(all[i].0, all[i].1)][k].0 <= p < seq![(all[i].0, all[i].1)][k].1;
            assert(all[i].0 <= p < all[i].1);
        }
        assert(ci[p] == c0[p]);
    }
}

/// After every pass over range `i`, the first `i + 1` ranges are filled
/// and nothing outside them has changed.
proof fn lemma_range_step(c0: Seq<u8>, ci: Seq<u8>, cur: Seq<u8>, all: Seq<(int, int)>, i: int, passes: Seq<PassFill>)
    requires
        0 <= i < all.len(),
        ranges_sorted(all),
        unchanged_outside(c0, ci, all.take(i)),
        ranges_filled(ci, all.take(i), passes),
        unchanged_outside(ci, cur, seq![(all[i].0, all[i].1)]),
        passes.len() > 0 && fill_value(passes.last()) is Some ==> forall|p: int|
            all[i].0 <= p < all[i].1 ==> #[trigger] cur[p] == fill_value(passes.last())->Some_0,
    ensures
        unchanged_outside(c0, cur, all.take(i + 1)),
        ranges_filled(cur, all.take(i + 1), passes),
{
    let one = seq![(all[i].0, all[i].1)];
    assert forall|p: int| 0 <= p < c0.len() && !in_ranges(all.take(i + 1), p) implies #[trigger] cur[p] == c0[p] by {
        lemma_in_prefix(all, i, p);
        if in_ranges(one, p) {
            let k = choose|k: int| 0 <= k < 1 && #[trigger] one[k].0 <= p < one[k].1;
        }
        assert(ci[p] == c0[p]);
    }
    if passes.len() > 0 && fill_value(passes.last()) is Some {
        assert forall|p: int| 0 <= p < cur.len() && in_ranges(all.take(i + 1), p) implies #[trigger] cur[p]
            == fill_value(passes.last())->Some_0 by {
            lemma_in_prefix(all, i, p);
            if !(all[i].0 <= p < all[i].1) {
                assert(in_ranges(all.take(i), p));
                let k = choose|k: int| 0 <= k < all.take(i).len() && #[trigger] all.take(i)[k].0 <= p < all.take(i)[k].1;
                assert(all.take(i)[k] == all[k]);
                assert(all[k].1 <= all[i].0);
                if in_ranges(one, p) {
                    let q = choose|q: int| 0 <= q < 1 && #[trigger] one[q].0 <= p < one[q].1;
                }
                assert(cur[p] == ci[p]);
            }
        }
    }
}

/// The generator's state after the first `j` of `passes` over a range of
/// `len` bytes, from state `s`.
pub open spec fn passes_advance(s: u64, len: int, passes: Seq<PassFill>, j: int) -> u64
    decreases j,
{
    if j <= 0 {
        s
    } else {
        pass_advance(passes_advance(s, len, passes, j - 1), len, passes[j - 1])
    }
}

/// The generator's state, from seed `s`, when a wipe of `ranges` with
/// `passes` reaches range `i`: every pass over every range before it has
/// drawn its bytes.
pub open spec fn range_state(s: u64, ranges: Seq<(int, int)>, passes: Seq<PassFill>, i: int) -> u64
    decreases i,
{
    if i <= 0 {
        s
    } else {
        passes_advance(
            range_state(s, ranges, passes, i - 1),
            ranges[i - 1].1 - ranges[i - 1].0,
            passes,
            passes.len() as int,
        )
    }
}

/// When the last of `passes` is random, each of the first `n` of `ranges`
/// of `content` holds the generator's stream from the state it was in,
/// from seed `seed`, when that pass began over that range.
pub open spec fn ranges_streamed(
    content: Seq<u8>,
    seed: u64,
    ranges: Seq<(int, int)>,
    passes: Seq<PassFill>,
    n: int,
) -> bool {
    passes.len() > 0 && passes.last() == PassFill::Random ==> forall|i: int, p: int|
        #![trigger ranges[i], content[p]]
        0 <= i < n && ranges[i].0 <= p < ranges[i].1 && 0 <= p < content.len() ==> content[p] == stream_byte(
            passes_advance(range_state(seed, ranges, passes, i), ranges[i].1 - ranges[i].0, passes, passes.len() - 1),
            p - ranges[i].0,
        )
}

/// After every pass over range `i`, the first `i + 1` ranges hold their
/// streams when the last pass is random: range `i` from its own passes,
/// and the ones before it, which lie wholly before it, untouched.
proof fn lemma_streamed_step(
    ci: Seq<u8>,
    cur: Seq<u8>,
    seed: u64,
    all: Seq<(int, int)>,
    passes: Seq<PassFill>,
    i: int,
)
    requires
        0 <= i < all.len(),
        ranges_sorted(all),
        ranges_streamed(ci, seed, all, passes, i),
        unchanged_outside(ci, cur, seq![(all[i].0, all[i].1)]),
        passes.len() > 0 && passes.last() == PassFill::Random ==> forall|p: int|
            all[i].0 <= p < all[i].1 ==> #[trigger] cur[p] == stream_byte(
                passes_advance(range_state(seed, all, passes, i), all[i].1 - all[i].0, passes, passes.len() - 1),
                p - all[i].0,
            ),
    ensures
        ranges_streamed(cur, seed, all, passes, i + 1),
{
    let one = seq![(all[i].0, all[i].1)];
    if passes.len() > 0 && passes.last() == PassFill::Random {
        assert forall|k: int, p: int|
            #![trigger all[k], cur[p]]
            0 <= k < i + 1 && all[k].0 <= p < all[k].1 && 0 <= p < cur.len() implies cur[p] == stream_byte(
                passes_advance(range_state(seed, all, passes, k), all[k].1 - all[k].0, passes, passes.len() - 1),
                p - all[k].0,
            ) by {
            if k < i {
                assert(all[k].1 <= all[i].0);
                if in_ranges(one, p) {
                    let q = choose|q: int| 0 <= q < 1 && #[trigger] one[q].0 <= p < one[q].1;
                }
                assert(cur[p] == ci[p]);
                assert(ci[p] == stream_byte(
                    passes_advance(range_state(seed, all, passes, k), all[k].1 - all[k].0, passes, passes.len() - 1),
                    p - all[k].0,
                ));
            }
        }
    }
}

/// Writes every pass of `passes` over every range of `ranges`, in order,
/// and gives the number of bytes wiped (each range counted once).
fn write_ranges<W: WritableByteSource>(
    source: &mut W,
    ranges: &Vec<(u64, u64)>,
    passes: &[PassFill],
    rng: &mut WipeRng,
) -> (r: Result<u64, ByteSourceError>)
    requires
        ranges_sorted(runs_int(ranges@)),
    ensures
        final(source).spec_faultless() == old(source).spec_faultless(),
        unchanged_outside(old(source).spec_content(), final(source).spec_content(), runs_int(ranges@)),
        r matches Ok(n) ==> n == total_length(runs_int(ranges@)) && ranges_filled(
            final(source).spec_content(),
            runs_int(ranges@),
            passes@,
        ),
        r is Ok ==> ranges_streamed(
            final(source).spec_content(),
            old(rng).spec_state(),
            runs_int(ranges@),
            passes@,
            ranges@.len() as int,
        ),
        r is Ok ==> final(rng).spec_state() == range_state(
            old(rng).spec_state(),
            runs_int(ranges@),
            passes@,
            ranges@.len() as int,
        ),
        old(source).spec_faultless() && (forall|i: int|
            0 <= i < ranges@.len() ==> #[trigger] ranges@[i].1 <= old(source).spec_content().len()) ==> r is Ok,
{
    let ghost c0 = source.spec_content();
    let ghost s0 = rng.spec_state();
    let ghost all = runs_int(ranges@);
    let mut bytes_written: u64 = 0;
    let mut i: usize = 0;
    while i < ranges.len()
        invariant
            i <= ranges@.len(),
            all == runs_int(ranges@),
            ranges_sorted(all),
            c0 == old(source).spec_content(),
            source.spec_faultless() == old(source).spec_faultless(),
            unchanged_outside(c0, source.spec_content(), all.take(i as int)),
            ranges_filled(source.spec_content(), all.take(i as int), passes@),
            s0 == old(rng).spec_state(),
            ranges_streamed(source.spec_content(), s0, all, passes@, i as int),
            rng.spec_state() == range_state(s0, all, passes@, i as int),
            bytes_written == total_length(all.take(i as int)),
            bytes_written <= if i > 0 {
                all[i - 1].1
            } else {
                0
            },
        decreases ranges.len() - i,
    {
        let (start, end) = ranges[i];
        proof {
            assert(all[i as int] == (start as int, end as int));
        }
        let ghost ci = source.spec_content();
        let mut j: usize = 0;
        while j < passes.len()
            invariant
                j <= passes@.len(),
                start <= end,
                i < ranges@.len(),
                all == runs_int(ranges@),
                all[i as int] == (start as int, end as int),
                c0 == old(source).spec_content(),
                unchanged_outside(c0, ci, all.take(i as int)),
                source.spec_faultless() == old(source).spec_faultless(),
                unchanged_outside(ci, source.spec_content(), seq![(start as int, end as int)]),
                j > 0 && start < end ==> end <= ci.len(),
                j > 0 && fill_value(passes@[j - 1]) is Some ==> forall|p: int|
                    start <= p < end ==> #[trigger] source.spec_content()[p] == fill_value(passes@[j - 1])->Some_0,
                s0 == old(rng).spec_state(),
                ranges_sorted(all),
                ranges_streamed(ci, s0, all, passes@, i as int),
                rng.spec_state() == passes_advance(range_state(s0, all, passes@, i as int), end - start, passes@, j as int),
                j > 0 && passes@[j - 1] == PassFill::Random ==> forall|p: int|
                    start <= p < end ==> #[trigger] source.spec_content()[p] == stream_byte(
                        passes_advance(range_state(s0, all, passes@, i as int), end - start, passes@, j - 1),
                        p - start,
                    ),
            decreases passes.len() - j,
        {
            let ghost cj = source.spec_content();
            let pass = passes[j];
            match write_pass(source, start, end, pass, rng) {
                Ok(()) => {},
                Err(e) => {
                    proof {
                        lemma_chain_unchanged(ci, cj, source.spec_content(), start as int, end as int);
                        lemma_range_partial(c0, ci, source.spec_content(), all, i as int);
                    }
                    return Err(e);
                },
            }
            proof {
                lemma_chain_unchanged(ci, cj, source.spec_content(), start as int, end as int);
            }
            j = j + 1;
        }
        proof {
            lemma_range_step(c0, ci, source.spec_content(), all, i as int, passes@);
            lemma_streamed_step(ci, source.spec_content(), s0, all, passes@, i as int);
        }
        bytes_written = bytes_written + (end - start);
        proof {
            assert(all.take(i + 1).drop_last() =~= all.take(i as int));
        }
        i = i + 1;
    }
    proof {
        assert(all.take(ranges@.len() as int) =~= all);
    }
    Ok(bytes_written)
}

/// The sum of `counts`.
pub open spec fn sum_counts(counts: Seq<int>) -> int
    decreases counts.len(),
{
    if counts.len() == 0 {
        0
    } else {
        sum_counts(counts.drop_last()) + counts.last()
    }
}

/// `counts[i]` is how many files the carver, with the signature table
/// `sigs`, finds in the `i`-th of `ranges` of `content`.
pub open spec fn range_counts_ok(
    content: Seq<u8>,
    sigs: Seq<FileSignature>,
    ranges: Seq<(int, int)>,
    counts: Seq<int>,
) -> bool {
    &&& counts.len() == ranges.len()
    &&& forall|i: int| 0 <= i < ranges.len() ==> #[trigger] range_count_ok(content, sigs, ranges[i], counts[i])
}

/// `n` is how many files the carver, with the signature table `sigs`,
/// finds in `range` of `content`.
pub open spec fn range_count_ok(content: Seq<u8>, sigs: Seq<FileSignature>, range: (int, int), n: int) -> bool {
    exists|files: Seq<CarvedFile>| #[trigger] carve_complete(content, sigs, range.0, range.1, files) && files.len() == n
}

/// `n` capped at the largest `usize`.
pub open spec fn capped_count(n: int) -> usize {
    if n > usize::MAX {
        usize::MAX
    } else {
        n as usize
    }
}

/// One more range counted: the counts grow by what the carver found in
/// it, and their sum by as much.
proof fn lemma_counts_step(
    content: Seq<u8>,
    sigs: Seq<FileSignature>,
    rs: Seq<(int, int)>,
    i: int,
    prev: Seq<int>,
    found: Seq<CarvedFile>,
)
    requires
        0 <= i < rs.len(),
        range_counts_ok(content, sigs, rs.take(i), prev),
        carve_complete(content, sigs, rs[i].0, rs[i].1, found),
        forall|j: int| 0 <= j < prev.len() ==> #[trigger] prev[j] >= 0,
    ensures
        range_counts_ok(content, sigs, rs.take(i + 1), prev.push(found.len() as int)),
        forall|j: int| 0 <= j < prev.len() + 1 ==> #[trigger] prev.push(found.len() as int)[j] >= 0,
        sum_counts(prev.push(found.len() as int)) == sum_counts(prev) + found.len(),
{
    let counts = prev.push(found.len() as int);
    assert(counts.drop_last() =~= prev);
    assert(range_count_ok(content, sigs, rs[i], found.len() as int));
    assert forall|j: int| 0 <= j < rs.take(i + 1).len() implies #[trigger] range_count_ok(
        content,
        sigs,
        rs.take(i + 1)[j],
        counts[j],
    ) by {
        if j < i {
            assert(prev[j] == counts[j]);
            assert(rs.take(i + 1)[j] == rs.take(i)[j]);
            assert(range_count_ok(content, sigs, rs.take(i)[j], prev[j]));
        } else {
            assert(rs.take(i + 1)[j] == rs[i]);
        }
    }
    assert forall|j: int| 0 <= j < prev.len() + 1 implies #[trigger] counts[j] >= 0 by {
        if j < prev.len() {
            assert(counts[j] == prev[j]);
        }
    }
}

/// A sum of counts none of which is negative is not negative.
proof fn lemma_sum_nonneg(counts: Seq<int>)
    requires
        forall|j: int| 0 <= j < counts.len() ==> #[trigger] counts[j] >= 0,
    ensures
        sum_counts(counts) >= 0,
    decreases counts.len(),
{
    if counts.len() > 0 {
        lemma_sum_nonneg(counts.drop_last());
    }
}

/// When the last of `passes` is random, the wiped `ranges` of `content`
/// hold the generator's stream for some non-zero seed (the seed comes
/// from the clock).
pub open spec fn random_fill_ok(content: Seq<u8>, ranges: Seq<(int, int)>, passes: Seq<PassFill>) -> bool {
    passes.len() > 0 && passes.last() == PassFill::Random ==> exists|seed: u64|
        seed != 0 && #[trigger] ranges_streamed(content, seed, ranges, passes, ranges.len() as int)
}

/// The ranges a wipe worked on: free-space ranges of the volume (when
/// there were any), nothing outside them changed, and, when it
/// succeeded, all of them written with every pass, the last one's bytes
/// left there when it writes a constant, the generator's stream when it
/// is random, and, when verifying, the number
/// of files the carver still finds in them counted.
pub open spec fn wipe_ranges_ok(
    before: Seq<u8>,
    faultless: bool,
    after: Seq<u8>,
    ranges: Seq<(int, int)>,
    passes: Seq<PassFill>,
    name: Seq<char>,
    verify: bool,
    r: Result<WipeResult, ApplicationError>,
) -> bool {
    &&& unchanged_outside(before, after, ranges)
    &&& ranges.len() > 0 ==> volume_free_ranges(before, faultless, ranges)
    &&& r matches Ok(w) ==> {
        &&& volume_free_ranges(before, faultless, ranges)
        &&& w.pattern_name@ == name
        &&& w.ranges_wiped == ranges.len()
        &&& w.bytes_written == total_length(ranges)
        &&& ranges_filled(after, ranges, passes)
        &&& (w.verification is Some <==> verify)
        &&& verify && passes.len() > 0 && fill_value(passes.last()) is Some ==> w.verification == Some(
            VerificationResult { carved_files_found_after_wipe: 0 },
        )
        &&& random_fill_ok(after, ranges, passes)
        &&& verify ==> exists|sigs: Seq<FileSignature>, counts: Seq<int>|
            is_known_table(sigs) && #[trigger] range_counts_ok(after, sigs, ranges, counts) && w.verification
                == Some(VerificationResult { carved_files_found_after_wipe: capped_count(sum_counts(counts)) })
    }
    &&& faultless && (r matches Err(ApplicationError::ByteSource(_))) ==> exists|i: int|
        0 <= i < ranges.len() && #[trigger] ranges[i].1 > before.len()
    &&& faultless && (r matches Err(ApplicationError::Domain(_))) ==> (exists|p: DetectedParser|
        #[trigger] detected_as(before, p) && !p.spec_geometry_ok()) || (verify && exists|i: int|
        0 <= i < ranges.len() && #[trigger] ranges[i].1 > before.len())
}

/// What wiping a source of `before` may leave it holding (`after`) and
/// give back: an SSD refusal or a missing filesystem writes nothing; a
/// wipe of a detected filesystem writes only its free-space ranges. With
/// no FAT32 or NTFS volume on the source no filesystem is detected; from
/// a source whose reads never fail, only then.
pub open spec fn wipe_outcome_ok(
    before: Seq<u8>,
    faultless: bool,
    after: Seq<u8>,
    passes: Seq<PassFill>,
    name: Seq<char>,
    verify: bool,
    r: Result<WipeResult, ApplicationError>,
) -> bool {
    &&& exists|ranges: Seq<(int, int)>|
        #[trigger] wipe_ranges_ok(before, faultless, after, ranges, passes, name, verify, r)
    &&& r matches Err(ApplicationError::NoFilesystemDetected) ==> after == before
    &&& fat32_volume(before) is None && spec_ntfs_setup(before) is None ==> (r matches Err(
        ApplicationError::NoFilesystemDetected,
    ))
    &&& faultless ==> (r matches Err(ApplicationError::NoFilesystemDetected) <==> (fat32_volume(before) is None
        && spec_ntfs_setup(before) is None))
    &&& r matches Err(e) ==> (e is NoFilesystemDetected || e is Domain || e is ByteSource)
}

/// Wipes the free space of the filesystem on `source` with `pattern`,
/// and, when `verify` is set, counts the files the carver still finds in
/// the wiped ranges. Allocated clusters are never written: only the
/// ranges `free_space_ranges` gives are.
#[verifier::rlimit(40)]
pub fn wipe_source<W: WritableByteSource>(source: &mut W, pattern: &WipePattern, verify: bool) -> (r: Result<
    WipeResult,
    ApplicationError,
>)
    ensures
        wipe_outcome_ok(
            old(source).spec_content(),
            old(source).spec_faultless(),
            final(source).spec_content(),
            pattern.passes@,
            pattern.name@,
            verify,
            r,
        ),
{
    let ghost c0 = source.spec_content();
    let ghost faultless = source.spec_faultless();
    let parser = match detect_parser(&*source) {
        Some((p, _)) => p,
        None => {
            let r: Result<WipeResult, ApplicationError> = Err(ApplicationError::NoFilesystemDetected);
            proof {
                let none = Seq::<(int, int)>::empty();
                assert(unchanged_outside(c0, source.spec_content(), none));
                assert(wipe_ranges_ok(c0, faultless, source.spec_content(), none, pattern.passes@, pattern.name@, verify, r));
            }
            return r;
        },
    };
    let ranges = match parser.free_space_ranges(&*source) {
        Ok(v) => v,
        Err(e) => {
            let r: Result<WipeResult, ApplicationError> = Err(ApplicationError::Domain(e));
            proof {
                assert(detected_as(c0, parser));
                assert(!parser.spec_geometry_ok());
                let none = Seq::<(int, int)>::empty();
                assert(unchanged_outside(c0, source.spec_content(), none));
                assert(wipe_ranges_ok(c0, faultless, source.spec_content(), none, pattern.passes@, pattern.name@, verify, r));
            }
            return r;
        },
    };
    let ghost rs = runs_int(ranges@);
    proof {
        assert(detected_as(c0, parser));
        assert(volume_free_ranges(c0, faultless, rs));
        assert(ranges_sorted(rs)) by {
            assert forall|j: int, k: int| 0 <= j < k < rs.len() implies #[trigger] rs[j].1 <= #[trigger] rs[k].0 by {
                assert(ranges@[j].1 <= ranges@[k].0);
            }
        }
    }
    let mut rng = WipeRng::seeded_from_time();
    let ghost seed = rng.spec_state();
    let bytes_written = match write_ranges(source, &ranges, pattern.passes, &mut rng) {
        Ok(n) => {
            proof {
                assert(seed != 0);
                assert(random_fill_ok(source.spec_content(), rs, pattern.passes@));
            }
            n
        },
        Err(e) => {
            let r: Result<WipeResult, ApplicationError> = Err(ApplicationError::ByteSource(e));
            proof {
                if faultless {
                    let i = choose|i: int| 0 <= i < ranges@.len() && #[trigger] ranges@[i].1 > c0.len();
                    assert(rs[i].1 > c0.len());
                }
                assert(wipe_ranges_ok(c0, faultless, source.spec_content(), rs, pattern.passes@, pattern.name@, verify, r));
            }
            return r;
        },
    };
    let verification = if verify {
        let carver = SignatureCarver::new();
        let mut total_found: usize = 0;
        let mut i: usize = 0;
        let ghost mut counts: Seq<int> = Seq::empty();
        let ghost after = source.spec_content();
        while i < ranges.len()
            invariant
                i <= ranges@.len(),
                after == source.spec_content(),
                range_counts_ok(after, carver.spec_signatures(), rs.take(i as int), counts),
                total_found == capped_count(sum_counts(counts)),
                forall|j: int| 0 <= j < counts.len() ==> #[trigger] counts[j] >= 0,
                rs == runs_int(ranges@),
                ranges_sorted(rs),
                c0 == old(source).spec_content(),
                faultless == old(source).spec_faultless(),
                unchanged_outside(c0, source.spec_content(), rs),
                volume_free_ranges(c0, faultless, rs),
                ranges_filled(source.spec_content(), rs, pattern.passes@),
                bytes_written == total_length(rs),
                is_known_table(carver.spec_signatures()),
                carver.spec_chunk_size() == 1_000_000,
                pattern.passes@.len() > 0 && fill_value(pattern.passes@.last()) is Some ==> total_found == 0,
                source.spec_faultless() == faultless,
                verify,
            decreases ranges.len() - i,
        {
            let (start, end) = ranges[i];
            proof {
                assert(rs[i as int] == (start as int, end as int));
            }
            match carver.scan(&*source, start..end) {
                Ok(found) => {
                    proof {
                        let passes = pattern.passes@;
                        if passes.len() > 0 && fill_value(passes.last()) is Some && found@.len() > 0 {
                            let content = source.spec_content();
                            let v = fill_value(passes.last())->Some_0;
                            let sigs = carver.spec_signatures();
                            assert(carve_complete(content, sigs, start as int, end as int, found@));
                            let f = found@[0];
                            assert(header_in_range(content, sigs, start as int, end as int, f.start_offset as int));
                            assert forall|p: int| start <= p < end && 0 <= p < content.len() implies #[trigger] content[p] == v by {
                                assert(rs[i as int].0 <= p < rs[i as int].1);
                                assert(in_ranges(rs, p));
                            }
                            lemma_uniform_range_has_no_header(content, sigs, start as int, end as int, v, f.start_offset as int);
                        }
                    }
                    let ghost prev = counts;
                    proof {
                        lemma_sum_nonneg(prev);
                        assert(rs.len() == ranges@.len());
                        assert(rs[i as int] == (start as int, end as int));
                        assert(carve_complete(after, carver.spec_signatures(), start as int, end as int, found@));
                        lemma_counts_step(after, carver.spec_signatures(), rs, i as int, prev, found@);
                        counts = prev.push(found@.len() as int);
                    }
                    total_found = if found.len() > usize::MAX - total_found {
                        usize::MAX
                    } else {
                        total_found + found.len()
                    };
                },
                Err(e) => {
                    let r: Result<WipeResult, ApplicationError> = Err(ApplicationError::Domain(e));
                    proof {
                        if faultless {
                            assert(end > source.spec_content().len());
                            assert(rs[i as int].1 > c0.len());
                        }
                        assert(wipe_ranges_ok(c0, faultless, source.spec_content(), rs, pattern.passes@, pattern.name@, verify, r));
                    }
                    return r;
                },
            }
            i = i + 1;
        }
        proof {
            assert(rs.take(ranges@.len() as int) =~= rs);
            assert(range_counts_ok(after, carver.spec_signatures(), rs, counts));
        }
        Some(VerificationResult { carved_files_found_after_wipe: total_found })
    } else {
        None
    };
    let r: Result<WipeResult, ApplicationError> = Ok(
        WipeResult { pattern_name: pattern.name, ranges_wiped: ranges.len(), bytes_written, verification },
    );
    proof {
        assert(wipe_ranges_ok(c0, faultless, source.spec_content(), rs, pattern.passes@, pattern.name@, verify, r));
    }
    r
}

/// Wipes the free space of the image whose opening gave `opened`. An
/// overwrite wipe of a drive marked as an SSD is refused before anything
/// else, and leaves the image as it was; then a failed open is reported.
pub fn wipe_free_space<W: WritableByteSource>(
    opened: &mut Result<W, ByteSourceError>,
    pattern: &WipePattern,
    assume_ssd: bool,
    verify: bool,
) -> (r: Result<WipeResult, ApplicationError>)
    ensures
        assume_ssd ==> (r matches Err(ApplicationError::SsdOverwriteRefused)) && *final(opened) == *old(opened),
        !assume_ssd && *old(opened) is Err ==> (r matches Err(ApplicationError::ByteSource(_))) && *final(opened) is Err,
        !assume_ssd ==> (*old(opened) matches Ok(before) ==> (*final(opened) matches Ok(after) && wipe_outcome_ok(
            before.spec_content(),
            before.spec_faultless(),
            after.spec_content(),
            pattern.passes@,
            pattern.name@,
            verify,
            r,
        ))),
{
    if assume_ssd {
        return Err(ApplicationError::SsdOverwriteRefused);
    }
    match opened {
        Ok(source) => wipe_source(source, pattern, verify),
        Err(e) => {
            let mut taken = ByteSourceError::OutOfBounds { offset: 0, len: 0, size: 0 };
            std::mem::swap(&mut taken, e);
            Err(ApplicationError::ByteSource(taken))
        },
    }
}

/// A byte in `base + s * cs .. base + e * cs` lies in the bytes of one
/// cluster `c` of `s..e`.
proof fn lemma_cluster_of(base: int, cs: int, s: int, e: int, pos: int) -> (c: int)
    requires
        cs >= 0,
        s < e,
        base + s * cs <= pos < base + e * cs,
    ensures
        s <= c < e,
        base + c * cs <= pos < base + (c + 1) * cs,
{
    assert(cs > 0) by (nonlinear_arith)
        requires
            cs >= 0,
            s < e,
            base + s * cs < base + e * cs,
    ;
    let d = pos - (base + s * cs);
    let q = d / cs;
    assert(0 <= d);
    assert(q * cs <= d < (q + 1) * cs) by (nonlinear_arith)
        requires
            cs > 0,
            q == d / cs,
            d >= 0,
    ;
    assert(d < (e - s) * cs) by (nonlinear_arith)
        requires
            d == pos - (base + s * cs),
            pos < base + e * cs,
    ;
    assert(q < e - s) by (nonlinear_arith)
        requires
            q * cs <= d,
            d < (e - s) * cs,
            cs > 0,
    ;
    assert(0 <= q) by (nonlinear_arith)
        requires
            q == d / cs,
            d >= 0,
            cs > 0,
    ;
    let c = s + q;
    assert(base + c * cs == base + s * cs + q * cs) by (nonlinear_arith)
        requires
            c == s + q,
    ;
    assert(base + (c + 1) * cs == base + s * cs + (q + 1) * cs) by (nonlinear_arith)
        requires
            c == s + q,
    ;
    c
}

/// Every byte of a free-space range of a volume lies in one of its free
/// clusters.
pub proof fn lemma_free_range_bytes_are_free(
    content: Seq<u8>,
    faultless: bool,
    p: DetectedParser,
    ranges: Seq<(int, int)>,
    pos: int,
)
    requires
        p.spec_free_ranges_ok(content, faultless, ranges),
        in_ranges(ranges, pos),
    ensures
        p.spec_byte_in_free_cluster(content, pos),
{
    let i = choose|i: int| 0 <= i < ranges.len() && #[trigger] ranges[i].0 <= pos < ranges[i].1;
    match p {
        DetectedParser::Fat32(q) => {
            let bs = q.spec_boot_sector();
            let runs = choose|runs: Seq<(int, int)>| #[trigger] fat_ranges_ok(content, bs, faultless, ranges, runs);
            assert(ranges == fat_byte_ranges(bs, runs));
            let (s, e) = runs[i];
            assert(ranges[i] == (bs.spec_cluster_offset(s), bs.spec_cluster_offset(e)));
            assert(runs_all_free(runs, fat_free_pred(content, bs), 2, crate::fat32::fat32_parser::fat_scan_end(bs)));
            assert(2 <= runs[i].0 < runs[i].1 <= crate::fat32::fat32_parser::fat_scan_end(bs));
            let cs = bs.spec_cluster_size_bytes();
            let base = bs.spec_data_area_offset() - 2 * cs;
            assert forall|x: int| #[trigger] bs.spec_cluster_offset(x) == base + x * cs by {
                assert(bs.spec_cluster_offset(x) == bs.spec_data_area_offset() + (x - 2) * cs);
                assert((x - 2) * cs == x * cs - 2 * cs) by (nonlinear_arith);
            }
            assert(cs >= 0) by (nonlinear_arith)
                requires
                    cs == bs.sectors_per_cluster * bs.bytes_per_sector,
                    bs.sectors_per_cluster >= 0,
                    bs.bytes_per_sector >= 0,
            ;
            let c = lemma_cluster_of(base, cs, s, e, pos);
            assert(fat_free_pred(content, bs)(c));
            assert(bs.spec_cluster_offset(c) <= pos < bs.spec_cluster_offset(c + 1));
            assert(crate::fat32::fat32_parser::fat_cluster_free(content, bs, c));
        },
        DetectedParser::Ntfs(q) => {
            let m = q.spec_model();
            let cs = m.boot_sector.spec_cluster_size_bytes();
            let runs = choose|runs: Seq<(int, int)>| #[trigger] ntfs_ranges_ok(content, m, faultless, ranges, runs);
            assert(ranges == ntfs_byte_ranges(cs, runs));
            let (s, e) = runs[i];
            assert(ranges[i] == (s * cs, e * cs));
            assert(0 <= runs[i].0 < runs[i].1 <= crate::ntfs::ntfs_parser::ntfs_cluster_count(m.boot_sector));
            assert(cs >= 0) by (nonlinear_arith)
                requires
                    cs == m.boot_sector.sectors_per_cluster * m.boot_sector.bytes_per_sector,
                    m.boot_sector.sectors_per_cluster >= 0,
                    m.boot_sector.bytes_per_sector >= 0,
            ;
            assert(0 + s * cs == s * cs);
            let c = lemma_cluster_of(0, cs, s, e, pos);
            assert(ntfs_free_pred(content, m.bitmap, cs)(c));
        },
    }
}

/// A wipe changes no byte outside the free clusters of the volume that
/// was detected on the source: every byte it changed lies in a cluster
/// that the FAT or `$Bitmap` marked free.
pub proof fn lemma_wipe_spares_allocated(
    before: Seq<u8>,
    faultless: bool,
    after: Seq<u8>,
    ranges: Seq<(int, int)>,
    passes: Seq<PassFill>,
    name: Seq<char>,
    verify: bool,
    r: Result<WipeResult, ApplicationError>,
    pos: int,
)
    requires
        wipe_ranges_ok(before, faultless, after, ranges, passes, name, verify, r),
        0 <= pos < before.len(),
        after[pos] != before[pos],
    ensures
        exists|p: DetectedParser| detected_as(before, p) && #[trigger] p.spec_byte_in_free_cluster(before, pos),
{
    assert(in_ranges(ranges, pos));
    let i = choose|i: int| 0 <= i < ranges.len() && #[trigger] ranges[i].0 <= pos < ranges[i].1;
    assert(ranges.len() > 0);
    let p = choose|p: DetectedParser| detected_as(before, p) && #[trigger] p.spec_free_ranges_ok(before, faultless, ranges);
    lemma_free_range_bytes_are_free(before, faultless, p, ranges, pos);
}

} // verus!
