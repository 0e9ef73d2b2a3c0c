//! `NtfsParser`: the NTFS implementation of `FilesystemParser`.
//!
//! The boot sector locates `$MFT`; `$MFT`'s own record 0 gives its data
//! runs, and with them any MFT record can be read by index. Record 6,
//! `$Bitmap`, is the volume's free/used cluster map. A scan then looks at
//! every record marked "not in use" that has a `$FILE_NAME`, and checks
//! its data clusters against the bitmap for a confidence score.
//!
//! The flat record table is scanned rather than the directory index, so
//! entries carry a file name, not a path. Deleted directories are not
//! walked, and files whose `$DATA` is resident (stored inside the record)
//! are not reported.

use crate::error::DomainError;
use crate::ntfs::boot_sector::{NtfsBootSector, ntfs_parse_ok, spec_ntfs_boot_sector};
use crate::ntfs::data_runs::DataRun;
use crate::ntfs::fixup::{apply_fixups, spec_apply_fixups};
use crate::ntfs::mft_record::{
    FileNameInfo,
    AttributesModel,
    DataLocation,
    DataModel,
    MftRecordHeader,
    ParsedAttributes,
    parse_attributes,
    parse_header,
    spec_attributes,
    spec_header,
};
use crate::ntfs::run_list_file::{RunListFile, logical_byte, logical_window, runs_total, window_readable};
use crate::parser::{
    ClusterRange,
    DeletedEntry,
    EntryModel,
    FilesystemParser,
    coalesce_finish,
    coalesce_inv,
    coalesce_step,
    entry_models,
    free_runs,
    lemma_coalesce_start,
    runs_all_free,
    runs_int,
    runs_ordered,
};
use crate::source::{ByteSource, ByteSourceError, failed_out_of_bounds, is_out_of_bounds};
use vstd::prelude::*;

verus! {

/// Index of the `$Bitmap` record in the MFT.
pub const MFT_RECORD_INDEX_BITMAP: u64 = 6;

/// Most MFT records ever scanned: a guard against a corrupted `$MFT` data
/// run claiming an absurd size.
pub const MAX_RECORDS_SCANNED: u64 = 200_000;

/// The MFT record `index`, read through the `$MFT` runs `mft_runs` with
/// clusters of `cs` bytes and records of `record_size` bytes, fixups
/// applied: its header, and its attributes when it is a file record (none
/// otherwise). `None` when its bytes are not all on the source, or its
/// fixups or a `$DATA` attribute are malformed.
pub open spec fn spec_record(
    content: Seq<u8>,
    mft_runs: Seq<DataRun>,
    cs: int,
    record_size: int,
    bps: int,
    index: int,
) -> Option<(MftRecordHeader, AttributesModel)> {
    let off = index * record_size;
    if !window_readable(content, mft_runs, cs, off, record_size) {
        None
    } else {
        match spec_apply_fixups(logical_window(content, mft_runs, cs, off, record_size), bps) {
            None => None,
            Some(rec) => {
                let h = spec_header(rec);
                if h.is_valid_file_record {
                    match spec_attributes(rec, h) {
                        Some(a) => Some((h, a)),
                        None => None,
                    }
                } else {
                    Some((h, AttributesModel { file_name: None, data: None }))
                }
            },
        }
    }
}

/// Reads MFT record `index` through `mft_table`. A free function so that
/// `NtfsParser::new` can use it before the parser exists.
fn read_record_via<S: ByteSource>(
    source: &S,
    mft_table: &RunListFile,
    record_size: usize,
    bytes_per_sector: usize,
    index: u64,
) -> (r: Result<(MftRecordHeader, ParsedAttributes), DomainError>)
    requires
        mft_table.wf(),
        index * record_size <= u64::MAX,
    ensures
        r matches Ok((h, a)) ==> spec_record(
            source.spec_content(),
            mft_table.spec_runs(),
            mft_table.spec_cluster_size(),
            record_size as int,
            bytes_per_sector as int,
            index as int,
        ) == Some((h, a@)),
        source.spec_faultless() && spec_record(
            source.spec_content(),
            mft_table.spec_runs(),
            mft_table.spec_cluster_size(),
            record_size as int,
            bytes_per_sector as int,
            index as int,
        ) is Some ==> r is Ok,
        r matches Err(e) ==> e is ByteSource || spec_record(
            source.spec_content(),
            mft_table.spec_runs(),
            mft_table.spec_cluster_size(),
            record_size as int,
            bytes_per_sector as int,
            index as int,
        ) is None,
{
    let logical_offset = index * record_size as u64;
    let mut record = match mft_table.read_at(source, logical_offset, record_size) {
        Ok(rec) => rec,
        Err(e) => {
            return Err(DomainError::ByteSource(e));
        },
    };
    let ghost raw = record@;
    match apply_fixups(record.as_mut_slice(), bytes_per_sector) {
        Ok(()) => {},
        Err(e) => {
            return Err(e);
        },
    }
    let header = parse_header(record.as_slice());
    let attrs = if header.is_valid_file_record {
        match parse_attributes(record.as_slice(), &header) {
            Ok(a) => a,
            Err(e) => {
                return Err(e);
            },
        }
    } else {
        ParsedAttributes::default()
    };
    proof {
        if !header.is_valid_file_record {
            assert(attrs@.file_name is None);
        }
    }
    Ok((header, attrs))
}

/// The volume's free/used cluster map: the `$Bitmap` file's contents,
/// held in the record or read through its runs.
pub enum ClusterBitmap {
    Resident(Vec<u8>),
    NonResident(RunListFile),
}

/// Byte `idx` of the bitmap `bm` (clusters of `cs` bytes): a resident
/// bitmap reads as zero past its end; `None` when the disk byte behind a
/// non-resident one is not on the source.
pub open spec fn bitmap_byte(content: Seq<u8>, bm: DataModel, cs: int, idx: int) -> Option<u8> {
    match bm {
        DataModel::Resident(b) => Some(
            if 0 <= idx < b.len() {
                b[idx]
            } else {
                0
            },
        ),
        DataModel::NonResident(runs) => if window_readable(content, runs, cs, idx, 1) {
            Some(logical_byte(content, runs, cs, idx))
        } else {
            None
        },
    }
}

/// Whether cluster `c` is marked allocated (bit `c % 8` of byte `c / 8`),
/// or `None` when that byte cannot be read.
pub open spec fn bitmap_bit(content: Seq<u8>, bm: DataModel, cs: int, c: int) -> Option<bool> {
    match bitmap_byte(content, bm, cs, c / 8) {
        Some(b) => Some((b >> ((c % 8) as u8)) & 1 == 1),
        None => None,
    }
}

impl ClusterBitmap {
    /// The bitmap's source: its bytes, or its runs.
    pub closed spec fn spec_model(&self) -> DataModel {
        match self {
            ClusterBitmap::Resident(b) => DataModel::Resident(b@),
            ClusterBitmap::NonResident(f) => DataModel::NonResident(f.spec_runs()),
        }
    }

    /// Clusters of a non-resident bitmap's file.
    pub closed spec fn spec_cs(&self) -> int {
        match self {
            ClusterBitmap::Resident(_) => 0,
            ClusterBitmap::NonResident(f) => f.spec_cluster_size(),
        }
    }

    /// The runs file of a non-resident bitmap is well formed.
    pub closed spec fn wf(&self) -> bool {
        match self {
            ClusterBitmap::Resident(_) => true,
            ClusterBitmap::NonResident(f) => f.wf(),
        }
    }

    /// Whether cluster `cluster` is marked allocated.
    fn is_allocated<S: ByteSource>(&self, source: &S, cluster: u64) -> (r: Result<bool, ByteSourceError>)
        requires
            self.wf(),
        ensures
            r matches Ok(b) ==> bitmap_bit(source.spec_content(), self.spec_model(), self.spec_cs(), cluster as int)
                == Some(b),
            source.spec_faultless() ==> (r is Ok <==> bitmap_bit(
                source.spec_content(),
                self.spec_model(),
                self.spec_cs(),
                cluster as int,
            ) is Some),
            bitmap_bit(source.spec_content(), self.spec_model(), self.spec_cs(), cluster as int) is None
                ==> r is Err,
    {
        let byte_index = cluster / 8;
        let bit = (cluster % 8) as u8;
        let byte = match self {
            ClusterBitmap::Resident(bytes) => {
                if byte_index < bytes.len() as u64 {
                    bytes[byte_index as usize]
                } else {
                    0
                }
            },
            ClusterBitmap::NonResident(rlf) => {
                let b = match rlf.read_at(source, byte_index, 1) {
                    Ok(b) => b,
                    Err(e) => {
                        return Err(e);
                    },
                };
                proof {
                    assert(b@[0] == logical_window(source.spec_content(), rlf.spec_runs(), rlf.spec_cluster_size(), byte_index as int, 1)[0]);
                }
                b[0]
            },
        };
        Ok((byte >> bit) & 1 == 1)
    }
}

/// What an `NtfsParser` for a source of `content` is built from: the boot
/// sector, the `$MFT`'s data runs (from the `$DATA` of record 0, read at
/// the boot sector's MFT location), and the `$Bitmap` record's `$DATA`.
/// `None` when any of these is missing, unreadable or malformed.
pub open spec fn spec_ntfs_setup(content: Seq<u8>) -> Option<(NtfsBootSector, Seq<DataRun>, DataModel)> {
    if content.len() < 512 {
        None
    } else {
        match spec_ntfs_boot_sector(content.take(512)) {
            Some(Some(bs)) => {
                let cs = bs.spec_cluster_size_bytes();
                let rs = bs.mft_record_size as int;
                let bps = bs.bytes_per_sector as int;
                let start = bs.mft_cluster_number * cs;
                if start > u64::MAX || start + rs > content.len() {
                    None
                } else {
                    match spec_apply_fixups(content.subrange(start, start + rs), bps) {
                        Some(rec0) => {
                            let h0 = spec_header(rec0);
                            if !h0.is_valid_file_record {
                                None
                            } else {
                                match spec_attributes(rec0, h0) {
                                    Some(a0) => match a0.data {
                                        Some(DataModel::NonResident(mft_runs)) => match spec_record(
                                            content,
                                            mft_runs,
                                            cs,
                                            rs,
                                            bps,
                                            MFT_RECORD_INDEX_BITMAP as int,
                                        ) {
                                            Some((_, a6)) => match a6.data {
                                                Some(bm) => Some((bs, mft_runs, bm)),
                                                None => None,
                                            },
                                            None => None,
                                        },
                                        _ => None,
                                    },
                                    None => None,
                                }
                            }
                        },
                        None => None,
                    }
                }
            },
            _ => None,
        }
    }
}

/// The boot sector of an NTFS volume on `content` and its MFT's record 0
/// with fixups applied, when the boot sector parses and the record lies
/// inside `content` and its fixups check.
pub open spec fn spec_record0(content: Seq<u8>) -> Option<(NtfsBootSector, Seq<u8>)> {
    if content.len() < 512 {
        None
    } else {
        match spec_ntfs_boot_sector(content.take(512)) {
            Some(Some(bs)) => {
                let cs = bs.spec_cluster_size_bytes();
                let rs = bs.mft_record_size as int;
                let bps = bs.bytes_per_sector as int;
                let start = bs.mft_cluster_number * cs;
                if start > u64::MAX || start + rs > content.len() {
                    None
                } else {
                    match spec_apply_fixups(content.subrange(start, start + rs), bps) {
                        Some(rec0) => Some((bs, rec0)),
                        None => None,
                    }
                }
            },
            _ => None,
        }
    }
}

/// Record 0 of the MFT on `content` lacks the FILE signature.
pub open spec fn record0_unsigned(content: Seq<u8>) -> bool {
    match spec_record0(content) {
        Some((_, rec0)) => !spec_header(rec0).is_valid_file_record,
        None => false,
    }
}

/// Record 0 of the MFT on `content` is a file record whose attributes
/// parse, but whose own `$DATA` is resident or missing.
pub open spec fn mft_data_not_runs(content: Seq<u8>) -> bool {
    match spec_record0(content) {
        Some((_, rec0)) => spec_header(rec0).is_valid_file_record && match spec_attributes(rec0, spec_header(rec0)) {
            Some(a0) => !(a0.data matches Some(DataModel::NonResident(_))),
            None => false,
        },
        None => false,
    }
}

/// The `$Bitmap` record of the MFT on `content` is read through the
/// MFT's runs, but has no `$DATA` attribute.
pub open spec fn bitmap_without_data(content: Seq<u8>) -> bool {
    match spec_record0(content) {
        Some((bs, rec0)) => spec_header(rec0).is_valid_file_record && match spec_attributes(rec0, spec_header(rec0)) {
            Some(a0) => match a0.data {
                Some(DataModel::NonResident(runs)) => match spec_record(
                    content,
                    runs,
                    bs.spec_cluster_size_bytes(),
                    bs.mft_record_size as int,
                    bs.bytes_per_sector as int,
                    MFT_RECORD_INDEX_BITMAP as int,
                ) {
                    Some((_, a6)) => a6.data is None,
                    None => false,
                },
                _ => false,
            },
            None => false,
        },
        None => false,
    }
}

/// Where a data run's clusters end, capped at the largest cluster number.
pub open spec fn run_end(r: DataRun) -> int {
    if r.start_lcn + r.length_clusters > u64::MAX {
        u64::MAX as int
    } else {
        r.start_lcn + r.length_clusters
    }
}

/// First cluster of run `j`, or 0 past the last run.
pub open spec fn run_start_at(runs: Seq<DataRun>, j: int) -> int {
    if 0 <= j < runs.len() {
        runs[j].start_lcn as int
    } else {
        0
    }
}

/// The confidence score from cluster `c` of run `i` on, having checked at
/// least one cluster before (`any`): the first cluster whose bitmap bit
/// cannot be read gives 40, the first marked allocated 25 (something has
/// been written there since); all free gives 90, and no cluster at all
/// gives 30.
pub open spec fn conf_from(
    content: Seq<u8>,
    bm: DataModel,
    cs: int,
    runs: Seq<DataRun>,
    i: int,
    c: int,
    any: bool,
) -> u8
    decreases runs.len() - i, u64::MAX - c,
{
    if i < 0 || i >= runs.len() {
        if any {
            90
        } else {
            30
        }
    } else if c < runs[i].start_lcn || c >= run_end(runs[i]) {
        conf_from(content, bm, cs, runs, i + 1, run_start_at(runs, i + 1), any)
    } else {
        match bitmap_bit(content, bm, cs, c) {
            None => 40,
            Some(true) => 25,
            Some(false) => conf_from(content, bm, cs, runs, i, c + 1, true),
        }
    }
}

/// How likely recovering the clusters of `runs` is to give back the
/// original bytes, judged from the bitmap.
pub open spec fn spec_confidence(content: Seq<u8>, bm: DataModel, cs: int, runs: Seq<DataRun>) -> u8 {
    conf_from(content, bm, cs, runs, 0, run_start_at(runs, 0), false)
}

/// Cluster `c` belongs to run `r`: it lies in `r.start_lcn ..
/// r.start_lcn + r.length_clusters`, below the largest cluster number.
pub open spec fn in_run(r: DataRun, c: int) -> bool {
    r.start_lcn <= c < r.start_lcn + r.length_clusters && c < u64::MAX
}

/// Cluster `d` of run `k` is still to be checked when the check stands
/// at cluster `c` of run `i`.
pub open spec fn cluster_ahead(runs: Seq<DataRun>, i: int, c: int, k: int, d: int) -> bool {
    &&& 0 <= k < runs.len()
    &&& in_run(runs[k], d)
    &&& (k == i && c <= d) || i < k
}

/// From cluster `c` of run `i` on: a score of 90 means every cluster
/// still to be checked is marked free; when every one of them can be read
/// and one is marked allocated, the score is 25.
proof fn lemma_conf_from_clusters(
    content: Seq<u8>,
    bm: DataModel,
    cs: int,
    runs: Seq<DataRun>,
    i: int,
    c: int,
    any: bool,
)
    requires
        0 <= i,
        i < runs.len() ==> runs[i].start_lcn <= c,
    ensures
        conf_from(content, bm, cs, runs, i, c, any) == 90 ==> forall|k: int, d: int|
            #![trigger runs[k], bitmap_bit(content, bm, cs, d)]
            cluster_ahead(runs, i, c, k, d) ==> bitmap_bit(content, bm, cs, d) == Some(false),
        (forall|k: int, d: int|
            #![trigger runs[k], bitmap_bit(content, bm, cs, d)]
            cluster_ahead(runs, i, c, k, d) ==> bitmap_bit(content, bm, cs, d) is Some) && (exists|k: int, d: int|
            #![trigger runs[k], bitmap_bit(content, bm, cs, d)]
            cluster_ahead(runs, i, c, k, d) && bitmap_bit(content, bm, cs, d) == Some(true)) ==> conf_from(
            content,
            bm,
            cs,
            runs,
            i,
            c,
            any,
        ) == 25,
        (forall|k: int, d: int|
            #![trigger runs[k], bitmap_bit(content, bm, cs, d)]
            cluster_ahead(runs, i, c, k, d) ==> bitmap_bit(content, bm, cs, d) == Some(false)) ==> conf_from(
            content,
            bm,
            cs,
            runs,
            i,
            c,
            any,
        ) == if any || exists|k: int, d: int| #[trigger] cluster_ahead(runs, i, c, k, d) {
            90u8
        } else {
            30u8
        },
    decreases runs.len() - i, u64::MAX - c,
{
    if i >= runs.len() {
        assert forall|k: int, d: int| !cluster_ahead(runs, i, c, k, d) by {}
    } else if c < runs[i].start_lcn || c >= run_end(runs[i]) {
        let j = i + 1;
        let c2 = run_start_at(runs, j);
        lemma_conf_from_clusters(content, bm, cs, runs, j, c2, any);
        assert forall|k: int, d: int| cluster_ahead(runs, i, c, k, d) <==> cluster_ahead(runs, j, c2, k, d) by {
            if k == i && in_run(runs[k], d) {
                assert(d < run_end(runs[i]));
            }
            if k == j && in_run(runs[k], d) {
                assert(runs[j].start_lcn <= d);
            }
        }
        if exists|k: int, d: int| #[trigger] cluster_ahead(runs, i, c, k, d) {
            let (k, d) = choose|k: int, d: int| #[trigger] cluster_ahead(runs, i, c, k, d);
            assert(d < run_end(runs[k]));
            assert(k != i);
            if k == j {
                assert(runs[j].start_lcn <= d);
            }
            assert(cluster_ahead(runs, j, c2, k, d));
        }
        if exists|k: int, d: int| #[trigger] cluster_ahead(runs, j, c2, k, d) {
            let (k, d) = choose|k: int, d: int| #[trigger] cluster_ahead(runs, j, c2, k, d);
            assert(i < k);
            assert(cluster_ahead(runs, i, c, k, d));
        }
    } else {
        match bitmap_bit(content, bm, cs, c) {
            None => {
                assert(cluster_ahead(runs, i, c, i, c));
            },
            Some(true) => {
                assert(cluster_ahead(runs, i, c, i, c));
            },
            Some(false) => {
                lemma_conf_from_clusters(content, bm, cs, runs, i, c + 1, true);
                assert forall|k: int, d: int| cluster_ahead(runs, i, c, k, d) <==> (cluster_ahead(
                    runs,
                    i,
                    c + 1,
                    k,
                    d,
                ) || (k == i && d == c)) by {
                    if k == i && d == c {
                        assert(in_run(runs[i], c));
                    }
                }
                if (exists|k: int, d: int|
                    #![trigger runs[k], bitmap_bit(content, bm, cs, d)]
                    cluster_ahead(runs, i, c, k, d) && bitmap_bit(content, bm, cs, d) == Some(true)) {
                    let (k, d) = choose|k: int, d: int|
                        #![trigger runs[k], bitmap_bit(content, bm, cs, d)]
                        cluster_ahead(runs, i, c, k, d) && bitmap_bit(content, bm, cs, d) == Some(true);
                    assert(cluster_ahead(runs, i, c + 1, k, d));
                }
            },
        }
    }
}

/// A file's confidence is 90 only when every cluster of every one of its
/// runs is marked free in `$Bitmap`; when every such cluster's bit can be
/// read and any one of them is marked allocated, it is 25, whichever run
/// and whichever cluster of it that is.
pub proof fn lemma_confidence_checks_every_cluster(content: Seq<u8>, bm: DataModel, cs: int, runs: Seq<DataRun>)
    ensures
        spec_confidence(content, bm, cs, runs) == 90 ==> forall|k: int, d: int|
            #![trigger runs[k], bitmap_bit(content, bm, cs, d)]
            0 <= k < runs.len() && in_run(runs[k], d) ==> bitmap_bit(content, bm, cs, d) == Some(false),
        (forall|k: int, d: int|
            #![trigger runs[k], bitmap_bit(content, bm, cs, d)]
            0 <= k < runs.len() && in_run(runs[k], d) ==> bitmap_bit(content, bm, cs, d) is Some) && (exists|
            k: int,
            d: int,
        |
            #![trigger runs[k], bitmap_bit(content, bm, cs, d)]
            0 <= k < runs.len() && in_run(runs[k], d) && bitmap_bit(content, bm, cs, d) == Some(true))
            ==> spec_confidence(content, bm, cs, runs) == 25,
        (forall|k: int, d: int|
            #![trigger runs[k], bitmap_bit(content, bm, cs, d)]
            0 <= k < runs.len() && in_run(runs[k], d) ==> bitmap_bit(content, bm, cs, d) == Some(false))
            ==> spec_confidence(content, bm, cs, runs) == if exists|k: int, d: int| 0 <= k < runs.len() && #[trigger] in_run(runs[k], d) {
            90u8
        } else {
            30u8
        },
{
    let c0 = run_start_at(runs, 0);
    lemma_conf_from_clusters(content, bm, cs, runs, 0, c0, false);
    assert forall|k: int, d: int| (0 <= k < runs.len() && in_run(runs[k], d)) <==> cluster_ahead(runs, 0, c0, k, d) by {}
    if exists|k: int, d: int| 0 <= k < runs.len() && #[trigger] in_run(runs[k], d) {
        let (k, d) = choose|k: int, d: int| 0 <= k < runs.len() && #[trigger] in_run(runs[k], d);
        if k == 0 {
            assert(c0 == runs[0].start_lcn);
        }
        assert(cluster_ahead(runs, 0, c0, k, d));
    }
    if exists|k: int, d: int| #[trigger] cluster_ahead(runs, 0, c0, k, d) {
        let (k, d) = choose|k: int, d: int| #[trigger] cluster_ahead(runs, 0, c0, k, d);
        assert(in_run(runs[k], d));
        assert(0 <= k < runs.len() && in_run(runs[k], d));
    }
    if (exists|k: int, d: int|
        #![trigger runs[k], bitmap_bit(content, bm, cs, d)]
        0 <= k < runs.len() && in_run(runs[k], d) && bitmap_bit(content, bm, cs, d) == Some(true)) {
        let (k, d) = choose|k: int, d: int|
            #![trigger runs[k], bitmap_bit(content, bm, cs, d)]
            0 <= k < runs.len() && in_run(runs[k], d) && bitmap_bit(content, bm, cs, d) == Some(true);
        assert(cluster_ahead(runs, 0, c0, k, d));
    }
}

/// The fields of a parser that its specifications read.
pub struct NtfsModel {
    pub boot_sector: NtfsBootSector,
    pub mft_runs: Seq<DataRun>,
    pub bitmap: DataModel,
}

/// MFT record `index` read with the parser's layout.
pub open spec fn model_record(content: Seq<u8>, m: NtfsModel, index: int) -> Option<(MftRecordHeader, AttributesModel)> {
    spec_record(
        content,
        m.mft_runs,
        m.boot_sector.spec_cluster_size_bytes(),
        m.boot_sector.mft_record_size as int,
        m.boot_sector.bytes_per_sector as int,
        index,
    )
}

/// The deleted file that MFT record `index` describes, with its name:
/// a readable file record, not in use, not a directory, with a
/// `$FILE_NAME` and a non-resident `$DATA` of at least one run.
pub open spec fn record_entry(content: Seq<u8>, m: NtfsModel, index: int) -> Option<EntryModel> {
    match model_record(content, m, index) {
        Some((h, a)) => if !h.is_valid_file_record || h.in_use || h.is_directory {
            None
        } else {
            match (a.file_name, a.data) {
                (Some((name, size)), Some(DataModel::NonResident(runs))) => if runs.len() > 0 {
                    Some(
                        EntryModel {
                            name,
                            first_cluster: runs[0].start_lcn,
                            file_size: size,
                            metadata_intact: true,
                            confidence: spec_confidence(
                                content,
                                m.bitmap,
                                m.boot_sector.spec_cluster_size_bytes(),
                                runs,
                            ),
                        },
                    )
                } else {
                    None
                },
                _ => None,
            }
        },
        None => None,
    }
}

/// MFT record `index` is a readable file record, not in use and not a
/// directory, whose `$FILE_NAME` gives `e`'s name and size, whose
/// non-resident `$DATA` starts at `e`'s first cluster, and whose bitmap
/// check gives `e`'s confidence (or 40, when a bitmap read failed).
pub open spec fn record_describes(content: Seq<u8>, m: NtfsModel, index: int, e: EntryModel) -> bool {
    match model_record(content, m, index) {
        Some((h, a)) => {
            &&& h.is_valid_file_record && !h.in_use && !h.is_directory
            &&& a.file_name == Some((e.name, e.file_size))
            &&& a.data matches Some(DataModel::NonResident(runs)) && runs.len() > 0 && runs[0].start_lcn
                == e.first_cluster && (e.confidence == 40 || e.confidence == spec_confidence(
                content,
                m.bitmap,
                m.boot_sector.spec_cluster_size_bytes(),
                runs,
            ))
            &&& e.metadata_intact
        },
        None => false,
    }
}

/// Entry `j` of `results` is described by record `origin[j]`, one of the
/// first `bound`.
pub open spec fn origins_ok(
    content: Seq<u8>,
    m: NtfsModel,
    origin: Seq<int>,
    results: Seq<DeletedEntry>,
    bound: int,
) -> bool {
    &&& origin.len() == results.len()
    &&& forall|j: int|
        0 <= j < results.len() ==> 0 <= #[trigger] origin[j] < bound && record_describes(
            content,
            m,
            origin[j],
            results[j]@,
        )
}

/// One of the records a scan looks at describes `e`.
pub open spec fn entry_from_records(content: Seq<u8>, m: NtfsModel, e: EntryModel) -> bool {
    exists|i: int| 0 <= i < records_scanned(m) && #[trigger] record_describes(content, m, i, e)
}

/// Every entry of `entries` is described by one of the records a scan
/// looks at.
pub open spec fn entries_from_records(content: Seq<u8>, m: NtfsModel, entries: Seq<DeletedEntry>) -> bool {
    forall|j: int| 0 <= j < entries.len() ==> #[trigger] entry_from_records(content, m, entries[j]@)
}

/// The deleted entries of records `0..n`, in record order.
pub open spec fn entries_upto(content: Seq<u8>, m: NtfsModel, n: int) -> Seq<EntryModel>
    decreases n,
{
    if n <= 0 {
        seq![]
    } else {
        match record_entry(content, m, n - 1) {
            Some(e) => entries_upto(content, m, n - 1).push(e),
            None => entries_upto(content, m, n - 1),
        }
    }
}

/// The names found in records `0..n`, each with its record index.
pub open spec fn names_upto(content: Seq<u8>, m: NtfsModel, n: int) -> Seq<(Seq<char>, u64)>
    decreases n,
{
    if n <= 0 {
        seq![]
    } else {
        match record_entry(content, m, n - 1) {
            Some(e) => names_upto(content, m, n - 1).push((e.name, (n - 1) as u64)),
            None => names_upto(content, m, n - 1),
        }
    }
}

/// The record index last remembered for `name`.
pub open spec fn latest_index(names: Seq<(Seq<char>, u64)>, name: Seq<char>) -> Option<u64>
    decreases names.len(),
{
    if names.len() == 0 {
        None
    } else if names.last().0 == name {
        Some(names.last().1)
    } else {
        latest_index(names.drop_last(), name)
    }
}

/// How many records a scan looks at: the `$MFT`'s length (capped at
/// `u64::MAX`) in whole records, at most `MAX_RECORDS_SCANNED`.
pub open spec fn records_scanned(m: NtfsModel) -> int {
    let total = runs_total_capped(m.mft_runs, m.boot_sector.spec_cluster_size_bytes());
    let n = total / (m.boot_sector.mft_record_size as int);
    if n < MAX_RECORDS_SCANNED {
        n
    } else {
        MAX_RECORDS_SCANNED as int
    }
}

/// The logical length of a runs file, capped at `u64::MAX`.
pub open spec fn runs_total_capped(runs: Seq<DataRun>, cs: int) -> int {
    if runs_total(runs, cs) <= u64::MAX {
        runs_total(runs, cs)
    } else {
        u64::MAX as int
    }
}

/// The runs of the record remembered for `name`, when that record still
/// reads as a file record with non-resident `$DATA`.
pub open spec fn preferred_runs(content: Seq<u8>, m: NtfsModel, names: Seq<(Seq<char>, u64)>, name: Seq<char>) -> Option<
    Seq<DataRun>,
> {
    match latest_index(names, name) {
        Some(idx) => match model_record(content, m, idx as int) {
            Some((h, a)) => if h.is_valid_file_record {
                match a.data {
                    Some(DataModel::NonResident(runs)) => Some(runs),
                    _ => None,
                }
            } else {
                None
            },
            None => None,
        },
        None => None,
    }
}

/// The single contiguous range `resolve_data_runs` gives for an NTFS
/// entry: none for an empty file, else one from its first cluster, long
/// enough for its size (both fields cut to 32 bits).
pub open spec fn spec_ntfs_runs(bs: NtfsBootSector, e: EntryModel) -> Seq<ClusterRange> {
    if e.file_size == 0 {
        seq![]
    } else {
        let cs = bs.spec_cluster_size_bytes();
        let count = (e.file_size as int) / cs + if (e.file_size as int) % cs != 0 {
            1int
        } else {
            0int
        };
        seq![ClusterRange { start_cluster: e.first_cluster as u32, cluster_count: count as u32 }]
    }
}

/// `v` is what the contiguous guess for `e` reads: the run's bytes on
/// disk, cut to the file's size.
pub open spec fn fallback_ok(content: Seq<u8>, bs: NtfsBootSector, e: EntryModel, v: Seq<u8>) -> bool {
    if e.file_size == 0 {
        v.len() == 0
    } else {
        let run = spec_ntfs_runs(bs, e)[0];
        let cs = bs.spec_cluster_size_bytes();
        let off = run.start_cluster * cs;
        let len = run.cluster_count * cs;
        &&& off + len <= content.len()
        &&& v == content.subrange(off, off + len).take(
            if e.file_size < len {
                e.file_size as int
            } else {
                len
            },
        )
    }
}

/// Whether the contiguous guess for `e` lies on the source.
pub open spec fn fallback_readable(content: Seq<u8>, bs: NtfsBootSector, e: EntryModel) -> bool {
    e.file_size == 0 || {
        let run = spec_ntfs_runs(bs, e)[0];
        let cs = bs.spec_cluster_size_bytes();
        run.start_cluster * cs + run.cluster_count * cs <= content.len() && run.cluster_count * cs
            <= usize::MAX
    }
}

/// Free clusters as a predicate: the bitmap byte is readable and the
/// cluster's bit is clear.
pub open spec fn ntfs_free_pred(content: Seq<u8>, bm: DataModel, cs: int) -> spec_fn(int) -> bool {
    |c: int| bitmap_bit(content, bm, cs, c) == Some(false)
}

/// Number of clusters of the volume.
pub open spec fn ntfs_cluster_count(bs: NtfsBootSector) -> int {
    bs.total_sectors as int / bs.sectors_per_cluster as int
}

/// Whether the volume's clusters can be counted and addressed in 64 bits.
pub open spec fn ntfs_geometry_ok(bs: NtfsBootSector) -> bool {
    bs.sectors_per_cluster != 0 && ntfs_cluster_count(bs) * bs.spec_cluster_size_bytes() <= u64::MAX
}

/// Byte ranges `(start, end)` of cluster runs.
pub open spec fn ntfs_byte_ranges(cs: int, runs: Seq<(int, int)>) -> Seq<(int, int)> {
    runs.map_values(|p: (int, int)| (p.0 * cs, p.1 * cs))
}

/// `ranges` are the byte ranges of cluster runs `runs` that are all free;
/// from a source whose reads never fail, they are exactly the maximal free
/// runs of the volume.
pub open spec fn ntfs_ranges_ok(
    content: Seq<u8>,
    m: NtfsModel,
    faultless: bool,
    ranges: Seq<(int, int)>,
    runs: Seq<(int, int)>,
) -> bool {
    let cs = m.boot_sector.spec_cluster_size_bytes();
    let free = ntfs_free_pred(content, m.bitmap, cs);
    &&& runs_all_free(runs, free, 0, ntfs_cluster_count(m.boot_sector))
    &&& runs_ordered(runs)
    &&& ranges == ntfs_byte_ranges(cs, runs)
    &&& faultless ==> runs == free_runs(free, 0, ntfs_cluster_count(m.boot_sector))
}

/// What recovering entry `e` may give, from a parser that remembers
/// `names`: when the record remembered for its name still has
/// non-resident `$DATA`, the file's first `file_size` logical bytes
/// through those runs; otherwise the contiguous guess. From a source that
/// can fail, a failed re-read of the record also leads to the guess.
pub open spec fn ntfs_recover_ok(
    m: NtfsModel,
    names: Seq<(Seq<char>, u64)>,
    content: Seq<u8>,
    faultless: bool,
    e: EntryModel,
    r: Result<Vec<u8>, DomainError>,
) -> bool {
    let cs = m.boot_sector.spec_cluster_size_bytes();
    let fs = e.file_size as int;
    let preferred = preferred_runs(content, m, names, e.name);
    &&& r matches Ok(v) ==> (preferred matches Some(runs) && window_readable(content, runs, cs, 0, fs) && v@
        == logical_window(content, runs, cs, 0, fs)) || fallback_ok(content, m.boot_sector, e, v@)
    &&& faultless ==> match preferred {
        Some(runs) => (r is Ok <==> (fs <= usize::MAX && window_readable(content, runs, cs, 0, fs))) && (r matches Ok(
            v,
        ) ==> v@ == logical_window(content, runs, cs, 0, fs)),
        None => (fallback_readable(content, m.boot_sector, e) ==> r is Ok) && (r matches Ok(v) ==> fallback_ok(
            content,
            m.boot_sector,
            e,
            v@,
        )),
    }
}

/// Recovering a deleted file whose name the parser remembers, from a
/// record that still reads as a file record with non-resident `$DATA`
/// runs `runs`, reads the file through the whole of that run list: from a
/// source whose reads never fail, when those runs can be read for the
/// file's size, it gives the file's first `file_size` logical bytes over
/// every one of the runs, each fragment from its own clusters.
pub proof fn lemma_recovery_reads_every_run(
    m: NtfsModel,
    names: Seq<(Seq<char>, u64)>,
    content: Seq<u8>,
    e: EntryModel,
    r: Result<Vec<u8>, DomainError>,
    idx: u64,
    h: MftRecordHeader,
    a: AttributesModel,
    runs: Seq<DataRun>,
)
    requires
        ntfs_recover_ok(m, names, content, true, e, r),
        latest_index(names, e.name) == Some(idx),
        model_record(content, m, idx as int) == Some((h, a)),
        h.is_valid_file_record,
        a.data == Some(DataModel::NonResident(runs)),
        e.file_size <= usize::MAX,
        window_readable(content, runs, m.boot_sector.spec_cluster_size_bytes(), 0, e.file_size as int),
    ensures
        r matches Ok(v) && v@ == logical_window(
            content,
            runs,
            m.boot_sector.spec_cluster_size_bytes(),
            0,
            e.file_size as int,
        ),
{
}

/// The NTFS parser: the boot sector, the `$MFT` as a runs file, the
/// cluster bitmap, and which MFT record each deleted name was found in.
pub struct NtfsParser {
    boot_sector: NtfsBootSector,
    mft_table: RunListFile,
    bitmap: ClusterBitmap,
    /// Filled by `enumerate_deleted` and read by `recover_bytes`, so that
    /// a file is recovered from its record's complete, possibly
    /// fragmented, run list instead of a contiguous guess. One entry per
    /// name; a later record with the same name replaces the earlier one.
    record_index_by_name: Vec<(String, u64)>,
}

impl NtfsParser {
    /// The volume's boot sector.
    pub closed spec fn spec_boot_sector(&self) -> NtfsBootSector {
        self.boot_sector
    }

    /// The `$MFT`'s data runs.
    pub closed spec fn spec_mft_runs(&self) -> Seq<DataRun> {
        self.mft_table.spec_runs()
    }

    /// Where the cluster bitmap comes from.
    pub closed spec fn spec_bitmap(&self) -> DataModel {
        self.bitmap.spec_model()
    }

    /// The names remembered by the last scans, with their record indexes.
    pub closed spec fn spec_names(&self) -> Seq<(Seq<char>, u64)> {
        self.record_index_by_name@.map_values(|p: (String, u64)| (p.0@, p.1))
    }

    /// The parser's invariant: both runs files use the volume's cluster
    /// size, records are at least 8 bytes, and every remembered record
    /// index is one a scan can reach.
    #[verifier::type_invariant]
    pub closed spec fn wf(&self) -> bool {
        &&& self.mft_table.wf()
        &&& self.mft_table.spec_cluster_size() == self.boot_sector.spec_cluster_size_bytes()
        &&& self.bitmap.wf()
        &&& (self.bitmap matches ClusterBitmap::NonResident(f) ==> f.spec_cluster_size()
            == self.boot_sector.spec_cluster_size_bytes())
        &&& self.boot_sector.mft_record_size >= 8
        &&& forall|j: int|
            0 <= j < self.record_index_by_name@.len() ==> #[trigger] self.record_index_by_name@[j].1
                < MAX_RECORDS_SCANNED
    }

    /// The layout the parser reads with.
    pub open spec fn spec_model(&self) -> NtfsModel {
        NtfsModel {
            boot_sector: self.spec_boot_sector(),
            mft_runs: self.spec_mft_runs(),
            bitmap: self.spec_bitmap(),
        }
    }

    /// A parser for the NTFS volume in `source`: reads the boot sector,
    /// `$MFT`'s record 0 at its known offset, then `$Bitmap` (record 6)
    /// through the `$MFT`'s runs.
    pub fn new<S: ByteSource>(source: &S) -> (r: Result<NtfsParser, DomainError>)
        ensures
            r matches Ok(p) ==> {
                &&& p.wf()
                &&& spec_ntfs_setup(source.spec_content()) == Some(
                    (p.spec_boot_sector(), p.spec_mft_runs(), p.spec_bitmap()),
                )
                &&& p.spec_names().len() == 0
            },
            source.spec_faultless() && spec_ntfs_setup(source.spec_content()) is Some ==> r is Ok,
            r matches Err(e) ==> e is ByteSource || spec_ntfs_setup(source.spec_content()) is None,
            source.spec_faultless() && record0_unsigned(source.spec_content()) ==> r matches Err(
                DomainError::NotFat32(_),
            ),
            source.spec_faultless() && mft_data_not_runs(source.spec_content()) ==> r matches Err(
                DomainError::DirEntry(_),
            ),
            source.spec_faultless() && bitmap_without_data(source.spec_content()) ==> r matches Err(
                DomainError::DirEntry(_),
            ),
    {
        let ghost content = source.spec_content();
        let boot_sector = match NtfsBootSector::parse(source) {
            Ok(b) => b,
            Err(e) => {
                return Err(e);
            },
        };
        let cluster_size = boot_sector.cluster_size_bytes();
        let bps = boot_sector.bytes_per_sector as usize;
        let record_size = boot_sector.mft_record_size as usize;
        if boot_sector.mft_cluster_number > 0 && cluster_size > u64::MAX / boot_sector.mft_cluster_number {
            proof {
                assert(boot_sector.mft_cluster_number * cluster_size > u64::MAX) by (nonlinear_arith)
                    requires
                        boot_sector.mft_cluster_number > 0,
                        cluster_size > u64::MAX / boot_sector.mft_cluster_number,
                ;
            }
            return Err(DomainError::DirEntry("the MFT's location lies past the largest offset".to_string()));
        }
        proof {
            if boot_sector.mft_cluster_number > 0 {
                assert(boot_sector.mft_cluster_number * cluster_size <= u64::MAX) by (nonlinear_arith)
                    requires
                        boot_sector.mft_cluster_number > 0,
                        cluster_size <= u64::MAX / boot_sector.mft_cluster_number,
                ;
            } else {
                assert(boot_sector.mft_cluster_number * cluster_size == 0) by (nonlinear_arith)
                    requires
                        boot_sector.mft_cluster_number == 0,
                ;
            }
            assert(boot_sector.mft_cluster_number * boot_sector.spec_cluster_size_bytes() <= u64::MAX);
        }
        let start = boot_sector.mft_start_offset();
        let mut record0 = match source.read_vec(start, record_size) {
            Ok(v) => v,
            Err(e) => {
                return Err(DomainError::ByteSource(e));
            },
        };
        match apply_fixups(record0.as_mut_slice(), bps) {
            Ok(()) => {},
            Err(e) => {
                return Err(e);
            },
        }
        let header0 = parse_header(record0.as_slice());
        if !header0.is_valid_file_record {
            return Err(DomainError::NotFat32("MFT record 0 has no valid FILE signature".to_string()));
        }
        let attrs0 = match parse_attributes(record0.as_slice(), &header0) {
            Ok(a) => a,
            Err(e) => {
                return Err(e);
            },
        };
        let mft_runs = match attrs0.data {
            Some(DataLocation::NonResident(runs)) => runs,
            _ => {
                return Err(DomainError::DirEntry(
                    "$MFT's own $DATA attribute is not non-resident".to_string(),
                ));
            },
        };
        let mft_table = RunListFile::new(mft_runs, cluster_size);
        let (_header6, attrs6) = match read_record_via(source, &mft_table, record_size, bps, MFT_RECORD_INDEX_BITMAP) {
            Ok(r) => r,
            Err(e) => {
                return Err(e);
            },
        };
        let bitmap = match attrs6.data {
            Some(DataLocation::Resident(bytes)) => ClusterBitmap::Resident(bytes),
            Some(DataLocation::NonResident(runs)) => ClusterBitmap::NonResident(RunListFile::new(runs, cluster_size)),
            None => {
                return Err(DomainError::DirEntry("$Bitmap record has no $DATA attribute".to_string()));
            },
        };
        proof {
            assert(record_size >= 8);
        }
        let parser = NtfsParser { boot_sector, mft_table, bitmap, record_index_by_name: Vec::new() };
        proof {
            assert(parser.spec_names() =~= Seq::<(Seq<char>, u64)>::empty());
        }
        Ok(parser)
    }

    /// The runs of the record remembered for `name`, re-read from the
    /// source.
    fn remembered_runs<S: ByteSource>(&self, source: &S, name: &String) -> (r: Option<Vec<DataRun>>)
        ensures
            r matches Some(runs) ==> preferred_runs(source.spec_content(), self.spec_model(), self.spec_names(), name@)
                == Some(runs@),
            source.spec_faultless() && r is None ==> preferred_runs(
                source.spec_content(),
                self.spec_model(),
                self.spec_names(),
                name@,
            ) is None,
    {
        proof {
            use_type_invariant(self);
        }
        let index = match self.lookup_name(name) {
            Some(i) => i,
            None => {
                return None;
            },
        };
        let (header, attrs) = match self.read_record(source, index) {
            Ok(r) => r,
            Err(_) => {
                return None;
            },
        };
        if !header.is_valid_file_record {
            return None;
        }
        match attrs.data {
            Some(DataLocation::NonResident(runs)) => Some(runs),
            _ => None,
        }
    }

    /// Reads MFT record `index`.
    fn read_record<S: ByteSource>(&self, source: &S, index: u64) -> (r: Result<
        (MftRecordHeader, ParsedAttributes),
        DomainError,
    >)
        requires
            self.wf(),
            index < MAX_RECORDS_SCANNED,
        ensures
            r matches Ok((h, a)) ==> model_record(source.spec_content(), self.spec_model(), index as int)
                == Some((h, a@)),
            source.spec_faultless() && model_record(source.spec_content(), self.spec_model(), index as int)
                is Some ==> r is Ok,
    {
        proof {
            assert(index * self.boot_sector.mft_record_size <= 200_000 * 0xFFFF_FFFFint) by (nonlinear_arith)
                requires
                    index < 200_000,
                    self.boot_sector.mft_record_size <= 0xFFFF_FFFF,
            ;
        }
        read_record_via(
            source,
            &self.mft_table,
            self.boot_sector.mft_record_size as usize,
            self.boot_sector.bytes_per_sector as usize,
            index,
        )
    }

    /// Cross-checks a file's data clusters against `$Bitmap`: if every
    /// cluster the file used is still marked free, nothing has claimed
    /// the space since the delete and recovery is very likely exact; a
    /// cluster marked allocated means something else has been written
    /// there.
    fn confidence_for_runs<S: ByteSource>(&self, source: &S, runs: &[DataRun]) -> (r: u8)
        requires
            self.wf(),
        ensures
            r == 40 || r == spec_confidence(
                source.spec_content(),
                self.spec_bitmap(),
                self.boot_sector.spec_cluster_size_bytes(),
                runs@,
            ),
            source.spec_faultless() ==> r == spec_confidence(
                source.spec_content(),
                self.spec_bitmap(),
                self.boot_sector.spec_cluster_size_bytes(),
                runs@,
            ),
    {
        let ghost content = source.spec_content();
        let ghost bm = self.spec_bitmap();
        let ghost cs = self.boot_sector.spec_cluster_size_bytes();
        let ghost target = spec_confidence(content, bm, cs, runs@);
        let mut any_checked = false;
        let mut i: usize = 0;
        proof {
            assert(self.bitmap.spec_cs() == cs || self.bitmap is Resident);
        }
        while i < runs.len()
            invariant
                self.wf(),
                content == source.spec_content(),
                bm == self.spec_bitmap(),
                cs == self.boot_sector.spec_cluster_size_bytes(),
                i <= runs@.len(),
                target == spec_confidence(content, bm, cs, runs@),
                target == conf_from(content, bm, cs, runs@, i as int, run_start_at(runs@, i as int), any_checked),
            decreases runs.len() - i,
        {
            let run = runs[i];
            let end = if run.length_clusters > u64::MAX - run.start_lcn {
                u64::MAX
            } else {
                run.start_lcn + run.length_clusters
            };
            let mut c = run.start_lcn;
            while c < end
                invariant
                    self.wf(),
                    content == source.spec_content(),
                    bm == self.spec_bitmap(),
                    cs == self.boot_sector.spec_cluster_size_bytes(),
                    i < runs@.len(),
                    run == runs@[i as int],
                    end == run_end(run),
                    target == spec_confidence(content, bm, cs, runs@),
                    run.start_lcn <= c <= end || end < run.start_lcn,
                    target == conf_from(content, bm, cs, runs@, i as int, c as int, any_checked),
                decreases end - c,
            {
                let ghost any_before = any_checked;
                any_checked = true;
                let alloc = self.bitmap.is_allocated(source, c);
                proof {
                    assert(self.bitmap.spec_model() == bm);
                    if self.bitmap is NonResident {
                        assert(self.bitmap.spec_cs() == cs);
                    }
                    assert(bitmap_bit(content, bm, self.bitmap.spec_cs(), c as int) == bitmap_bit(content, bm, cs, c as int));
                    assert(run.start_lcn <= c < run_end(run));
                }
                match alloc {
                    Ok(true) => {
                        proof {
                            assert(bitmap_bit(content, bm, cs, c as int) == Some(true));
                            assert(conf_from(content, bm, cs, runs@, i as int, c as int, any_before) == 25);
                        }
                        return 25;
                    },
                    Ok(false) => {},
                    Err(_) => {
                        proof {
                            if source.spec_faultless() {
                                assert(bitmap_bit(content, bm, cs, c as int) is None);
                                assert(conf_from(content, bm, cs, runs@, i as int, c as int, any_before) == 40);
                            }
                        }
                        return 40;
                    },
                }
                c = c + 1;
            }
            i = i + 1;
        }
        if any_checked {
            90
        } else {
            30
        }
    }

    /// Bytes per cluster of the volume.
    pub fn cluster_size_bytes(&self) -> (r: u64)
        ensures
            r == self.spec_boot_sector().spec_cluster_size_bytes(),
    {
        self.boot_sector.cluster_size_bytes()
    }

    /// The deleted file MFT record `index` describes, if it is one: a
    /// file record not in use and not a directory, with a `$FILE_NAME`
    /// and non-resident `$DATA` of at least one run. Files whose data is
    /// resident (inside the record) are not reported.
    fn deleted_entry_at<S: ByteSource>(&self, source: &S, index: u64) -> (r: Option<DeletedEntry>)
        requires
            self.wf(),
            index < MAX_RECORDS_SCANNED,
        ensures
            r matches Some(e) ==> record_describes(source.spec_content(), self.spec_model(), index as int, e@),
            source.spec_faultless() ==> match r {
                Some(e) => record_entry(source.spec_content(), self.spec_model(), index as int) == Some(e@),
                None => record_entry(source.spec_content(), self.spec_model(), index as int) is None,
            },
    {
        let (header, attrs) = match self.read_record(source, index) {
            Ok(r) => r,
            Err(_) => {
                return None;
            },
        };
        if !header.is_valid_file_record || header.in_use || header.is_directory {
            return None;
        }
        let ParsedAttributes { file_name, data } = attrs;
        let info = match file_name {
            Some(f) => f,
            None => {
                return None;
            },
        };
        let runs = match data {
            Some(DataLocation::NonResident(runs)) => runs,
            _ => {
                return None;
            },
        };
        if runs.len() == 0 {
            return None;
        }
        let confidence = self.confidence_for_runs(source, runs.as_slice());
        let FileNameInfo { name, real_size } = info;
        Some(DeletedEntry { name, first_cluster: runs[0].start_lcn, file_size: real_size, metadata_intact: true, confidence })
    }

    /// The record index remembered for `name`, the latest one first.
    fn lookup_name(&self, name: &String) -> (r: Option<u64>)
        requires
            self.wf(),
        ensures
            r == latest_index(self.spec_names(), name@),
            r matches Some(i) ==> i < MAX_RECORDS_SCANNED,
    {
        let mut k: usize = self.record_index_by_name.len();
        proof {
            assert(self.spec_names().take(k as int) =~= self.spec_names());
        }
        while k > 0
            invariant
                self.wf(),
                k <= self.record_index_by_name@.len(),
                latest_index(self.spec_names(), name@) == latest_index(self.spec_names().take(k as int), name@),
            decreases k,
        {
            let ghost names = self.spec_names().take(k as int);
            proof {
                assert(names.drop_last() =~= self.spec_names().take(k - 1));
                assert(names.last() == (self.record_index_by_name@[k - 1].0@, self.record_index_by_name@[k - 1].1));
            }
            if self.record_index_by_name[k - 1].0 == *name {
                return Some(self.record_index_by_name[k - 1].1);
            }
            k = k - 1;
        }
        None
    }
}

impl FilesystemParser for NtfsParser {
    open spec fn spec_cluster_bytes(&self) -> int {
        self.spec_boot_sector().spec_cluster_size_bytes()
    }

    fn detect<S: ByteSource>(source: &S) -> (r: bool)
        ensures
            r ==> source.spec_content().len() >= 512 && (spec_ntfs_boot_sector(source.spec_content().take(512)) matches Some(Some(_))),
            source.spec_faultless() && source.spec_content().len() >= 512 && (spec_ntfs_boot_sector(source.spec_content().take(512)) matches Some(Some(_))) ==> r,
    {
        match NtfsBootSector::parse(source) {
            Ok(_) => true,
            Err(_) => false,
        }
    }

    fn enumerate_deleted<S: ByteSource>(&mut self, source: &S) -> (r: Result<
        Vec<DeletedEntry>,
        DomainError,
    >)
        ensures
            final(self).spec_model() == old(self).spec_model(),
            r is Ok,
            r matches Ok(v) ==> entries_from_records(source.spec_content(), old(self).spec_model(), v@),
            source.spec_faultless() ==> (r matches Ok(v) && entry_models(v@) == entries_upto(
                source.spec_content(),
                old(self).spec_model(),
                records_scanned(old(self).spec_model()),
            ) && final(self).spec_names() == old(self).spec_names() + names_upto(
                source.spec_content(),
                old(self).spec_model(),
                records_scanned(old(self).spec_model()),
            )),
    {
        let mut results: Vec<DeletedEntry> = Vec::new();
        proof {
            use_type_invariant(&*self);
        }
        let ghost content = source.spec_content();
        let ghost m = self.spec_model();
        let ghost names0 = self.spec_names();
        let total_len = self.mft_table.total_len();
        let record_size = self.boot_sector.mft_record_size as u64;
        let whole = total_len / record_size;
        let total = if whole < MAX_RECORDS_SCANNED {
            whole
        } else {
            MAX_RECORDS_SCANNED
        };
        proof {
            assert(total == records_scanned(m));
        }
        let mut index: u64 = 0;
        let ghost mut origin: Seq<int> = Seq::empty();
        while index < total
            invariant
                self.wf(),
                content == source.spec_content(),
                m == self.spec_model(),
                m == old(self).spec_model(),
                names0 == old(self).spec_names(),
                total == records_scanned(m),
                total <= MAX_RECORDS_SCANNED,
                index <= total,
                source.spec_faultless() ==> entry_models(results@) == entries_upto(content, m, index as int),
                origins_ok(content, m, origin, results@, index as int),
                source.spec_faultless() ==> self.spec_names() == names0 + names_upto(content, m, index as int),
            decreases total - index,
        {
            let ghost results_before = results@;
            let ghost names_before = self.spec_names();
            proof {
                assert(entries_upto(content, m, index + 1) == match record_entry(content, m, index as int) {
                    Some(e) => entries_upto(content, m, index as int).push(e),
                    None => entries_upto(content, m, index as int),
                });
                assert(names_upto(content, m, index + 1) == match record_entry(content, m, index as int) {
                    Some(e) => names_upto(content, m, index as int).push((e.name, index)),
                    None => names_upto(content, m, index as int),
                });
            }
            // An unreadable or corrupted record is skipped; the scan goes
            // on.
            match self.deleted_entry_at(source, index) {
                Some(entry) => {
                    let key = entry.name.clone();
                    let mut names: Vec<(String, u64)> = Vec::new();
                    std::mem::swap(&mut names, &mut self.record_index_by_name);
                    names.push((key, index));
                    std::mem::swap(&mut names, &mut self.record_index_by_name);
                    let ghost e = entry;
                    results.push(entry);
                    proof {
                        let origin_before = origin;
                        origin = origin.push(index as int);
                        assert(origins_ok(content, m, origin, results@, index + 1)) by {
                            assert forall|j: int| 0 <= j < results@.len() implies 0 <= #[trigger] origin[j] < index + 1
                                && record_describes(content, m, origin[j], results@[j]@) by {
                                if j < results_before.len() {
                                    assert(results@[j] == results_before[j]);
                                    assert(origin[j] == origin_before[j]);
                                } else {
                                    assert(results@[j] == e);
                                }
                            }
                        }
                        assert(self.spec_names() =~= names_before.push((e.name@, index)));
                        assert(entry_models(results@) =~= entry_models(results_before).push(e@));
                        if source.spec_faultless() {
                            assert(names0 + names_upto(content, m, index + 1) =~= (names0 + names_upto(content, m, index as int)).push((e.name@, index)));
                        }
                    }
                },
                None => {
                    proof {
                        assert(origins_ok(content, m, origin, results@, index + 1)) by {
                            assert forall|j: int| 0 <= j < results@.len() implies 0 <= #[trigger] origin[j] < index + 1
                                && record_describes(content, m, origin[j], results@[j]@) by {
                                assert(origin[j] < index);
                            }
                        }
                    }
                },
            }
            index = index + 1;
        }
        proof {
            let es = results@;
            assert(index == records_scanned(m));
            assert forall|j: int| 0 <= j < es.len() implies #[trigger] entry_from_records(content, m, es[j]@) by {
                let i = origin[j];
                assert(0 <= i < index);
                assert(record_describes(content, m, i, es[j]@));
            }
            assert(entries_from_records(content, m, es));
        }
        let r: Result<Vec<DeletedEntry>, DomainError> = Ok(results);
        proof {
            match &r {
                Ok(v) => {
                    assert(v@ == results@);
                },
                Err(_) => {},
            }
        }
        r
    }

    fn resolve_data_runs(&self, entry: &DeletedEntry) -> (r: Vec<ClusterRange>)
        ensures
            r@ == spec_ntfs_runs(self.spec_boot_sector(), entry@),
    {
        // A single contiguous range: the best guess without the record
        // the entry came from (`recover_bytes` does better when it can).
        if entry.file_size == 0 {
            return Vec::new();
        }
        let cluster_size = self.boot_sector.cluster_size_bytes();
        assert(cluster_size > 0);
        let whole = entry.file_size / cluster_size;
        let cluster_count = if entry.file_size % cluster_size != 0 {
            proof {
                assert(cluster_size >= 2);
                assert(whole < u64::MAX) by (nonlinear_arith)
                    requires
                        cluster_size >= 2,
                        whole == entry.file_size / cluster_size,
                        entry.file_size <= u64::MAX,
                ;
            }
            whole + 1
        } else {
            whole
        };
        #[verifier::truncate]
        let start_cluster = entry.first_cluster as u32;
        #[verifier::truncate]
        let count32 = cluster_count as u32;
        let mut runs: Vec<ClusterRange> = Vec::new();
        runs.push(ClusterRange { start_cluster, cluster_count: count32 });
        proof {
            assert(runs@ =~= spec_ntfs_runs(self.spec_boot_sector(), entry@));
        }
        runs
    }

    /// Recovers through the full, possibly fragmented, run list of the
    /// record the entry's name came from when this parser's scans found
    /// it; otherwise falls back to the contiguous guess.
    fn recover_bytes<S: ByteSource>(&self, source: &S, entry: &DeletedEntry) -> (r: Result<
        Vec<u8>,
        DomainError,
    >)
        ensures
            ntfs_recover_ok(self.spec_model(), self.spec_names(), source.spec_content(), source.spec_faultless(), entry@, r),
    {
        proof {
            use_type_invariant(self);
        }
        let ghost content = source.spec_content();
        let ghost m = self.spec_model();
        let cluster_size = self.boot_sector.cluster_size_bytes();
        // Preferred: re-read the record this name came from and recover
        // through its full, possibly fragmented, run list.
        match self.remembered_runs(source, &entry.name) {
            Some(runs) => {
                let file = RunListFile::new(runs, cluster_size);
                if entry.file_size > usize::MAX as u64 {
                    return Err(
                        DomainError::ByteSource(
                            ByteSourceError::OutOfBounds { offset: 0, len: usize::MAX, size: source.size() },
                        ),
                    );
                }
                return match file.read_at(source, 0, entry.file_size as usize) {
                    Ok(bytes) => Ok(bytes),
                    Err(e) => Err(DomainError::ByteSource(e)),
                };
            },
            None => {},
        }
        // Fallback: the single contiguous range guess.
        let runs = self.resolve_data_runs(entry);
        let mut out: Vec<u8> = Vec::new();
        let mut i: usize = 0;
        while i < runs.len()
            invariant
                runs@ == spec_ntfs_runs(self.spec_boot_sector(), entry@),
                content == source.spec_content(),
                m == self.spec_model(),
                source.spec_faultless() ==> preferred_runs(content, m, self.spec_names(), entry.name@) is None,
                cluster_size == self.spec_boot_sector().spec_cluster_size_bytes(),
                cluster_size <= 0xFF * 0xFFFF,
                i <= runs@.len(),
                i == 0 ==> out@.len() == 0,
                i == 1 ==> ({
                    let run = runs@[0];
                    let off = run.start_cluster * cluster_size;
                    let len = run.cluster_count * cluster_size;
                    &&& off + len <= source.spec_content().len()
                    &&& out@ == source.spec_content().subrange(off, off + len)
                }),
            decreases runs.len() - i,
        {
            let run = runs[i];
            proof {
                assert(run.start_cluster as int * cluster_size <= 0xFFFF_FFFFint * (0xFF * 0xFFFF)) by (nonlinear_arith)
                    requires
                        cluster_size <= 0xFF * 0xFFFF,
                        run.start_cluster <= 0xFFFF_FFFF,
                ;
                assert(run.cluster_count as int * cluster_size <= 0xFFFF_FFFFint * (0xFF * 0xFFFF)) by (nonlinear_arith)
                    requires
                        cluster_size <= 0xFF * 0xFFFF,
                        run.cluster_count <= 0xFFFF_FFFF,
                ;
            }
            let offset = run.start_cluster as u64 * cluster_size;
            let len = run.cluster_count as u64 * cluster_size;
            if len > usize::MAX as u64 {
                return Err(
                    DomainError::ByteSource(
                        ByteSourceError::OutOfBounds { offset, len: usize::MAX, size: source.size() },
                    ),
                );
            }
            let mut bytes = match source.read_vec(offset, len as usize) {
                Ok(b) => b,
                Err(e) => {
                    return Err(DomainError::ByteSource(e));
                },
            };
            out.append(&mut bytes);
            i = i + 1;
        }
        let ghost full = out@;
        if entry.file_size < out.len() as u64 {
            out.truncate(entry.file_size as usize);
        }
        proof {
            if entry.file_size != 0 {
                assert(out@ =~= full.take(
                    if entry.file_size < full.len() {
                        entry.file_size as int
                    } else {
                        full.len() as int
                    },
                ));
            }
        }
        Ok(out)
    }

    /// The clusters whose `$Bitmap` bit is clear, merged into runs; a
    /// cluster whose bit cannot be read counts as in use. One bit is
    /// checked per cluster, through a read for a non-resident bitmap:
    /// fine for small volumes, while a multi-terabyte drive would want the
    /// bitmap read in bulk.
    fn free_space_ranges<S: ByteSource>(&self, source: &S) -> (r: Result<
        Vec<(u64, u64)>,
        DomainError,
    >)
        ensures
            r is Ok <==> ntfs_geometry_ok(self.spec_boot_sector()),
            r matches Ok(v) ==> forall|j: int, k: int|
                0 <= j < k < v@.len() ==> #[trigger] v@[j].1 <= #[trigger] v@[k].0,
            r matches Ok(v) ==> exists|runs: Seq<(int, int)>|
                #[trigger] ntfs_ranges_ok(
                    source.spec_content(),
                    self.spec_model(),
                    source.spec_faultless(),
                    runs_int(v@),
                    runs,
                ),
    {
        proof {
            use_type_invariant(self);
        }
        let ghost content = source.spec_content();
        let ghost m = self.spec_model();
        let ghost exact = source.spec_faultless();
        let spc = self.boot_sector.sectors_per_cluster as u64;
        if spc == 0 {
            return Err(DomainError::DirEntry("volume has zero sectors per cluster".to_string()));
        }
        let total_clusters = self.boot_sector.total_sectors / spc;
        let cs = self.boot_sector.cluster_size_bytes();
        if total_clusters > 0 && cs > u64::MAX / total_clusters {
            proof {
                assert(total_clusters * cs > u64::MAX) by (nonlinear_arith)
                    requires
                        total_clusters > 0,
                        cs > u64::MAX / total_clusters,
                ;
            }
            return Err(DomainError::DirEntry("volume size does not fit in 64 bits".to_string()));
        }
        proof {
            if total_clusters > 0 {
                assert(total_clusters * cs <= u64::MAX) by (nonlinear_arith)
                    requires
                        total_clusters > 0,
                        cs <= u64::MAX / total_clusters,
                ;
            } else {
                assert(total_clusters * cs == 0) by (nonlinear_arith)
                    requires
                        total_clusters == 0,
                ;
            }
        }
        let ghost free = ntfs_free_pred(content, m.bitmap, cs as int);
        let mut runs: Vec<(u64, u64)> = Vec::new();
        let mut open_at: Option<u64> = None;
        let mut c: u64 = 0;
        proof {
            lemma_coalesce_start(free, 0, total_clusters as int, exact);
        }
        while c < total_clusters
            invariant
                self.wf(),
                content == source.spec_content(),
                m == self.spec_model(),
                exact == source.spec_faultless(),
                cs == m.boot_sector.spec_cluster_size_bytes(),
                free == ntfs_free_pred(content, m.bitmap, cs as int),
                c <= total_clusters,
                coalesce_inv(runs@, open_at, c as int, free, 0, total_clusters as int, exact),
            decreases total_clusters - c,
        {
            let alloc = self.bitmap.is_allocated(source, c);
            proof {
                if self.bitmap is NonResident {
                    assert(self.bitmap.spec_cs() == cs);
                }
                assert(bitmap_bit(content, m.bitmap, self.bitmap.spec_cs(), c as int) == bitmap_bit(content, m.bitmap, cs as int, c as int));
            }
            // A cluster whose bit cannot be read counts as allocated.
            let is_free = match alloc {
                Ok(b) => !b,
                Err(_) => false,
            };
            open_at = coalesce_step(&mut runs, open_at, c, is_free, Ghost(free), Ghost(0int), Ghost(total_clusters as int), Ghost(exact));
            c = c + 1;
        }
        coalesce_finish(&mut runs, open_at, total_clusters, Ghost(free), Ghost(0int), Ghost(exact));
        let mut ranges: Vec<(u64, u64)> = Vec::new();
        let mut i: usize = 0;
        while i < runs.len()
            invariant
                i <= runs@.len(),
                total_clusters * cs <= u64::MAX,
                runs_all_free(runs_int(runs@), free, 0, total_clusters as int),
                runs_int(ranges@) == ntfs_byte_ranges(cs as int, runs_int(runs@).take(i as int)),
                forall|j: int| 0 <= j < ranges@.len() ==> ranges@[j].0 <= ranges@[j].1,
                runs_ordered(runs_int(runs@)),
                ranges@.len() == i,
                forall|j: int, k: int| 0 <= j < k < ranges@.len() ==> #[trigger] ranges@[j].1 <= #[trigger] ranges@[k].0,
                i > 0 ==> ranges@.last().1 == runs@[i - 1].1 * cs,
            decreases runs.len() - i,
        {
            let (s, e) = runs[i];
            proof {
                assert(runs_int(runs@)[i as int] == (s as int, e as int));
                assert(s < e <= total_clusters);
                assert(s * cs <= e * cs && e * cs <= total_clusters * cs) by (nonlinear_arith)
                    requires
                        s < e <= total_clusters,
                        cs >= 0,
                ;
                if i > 0 {
                    let pe = runs@[i - 1].1 as int;
                    assert(runs_int(runs@)[i - 1] == (runs@[i - 1].0 as int, pe));
                    assert(pe < s);
                    assert(pe * cs <= s * cs) by (nonlinear_arith)
                        requires
                            pe <= s,
                            cs >= 0,
                    ;
                }
            }
            let ghost before = ranges@;
            ranges.push((s * cs, e * cs));
            proof {
                assert forall|j: int, k: int| 0 <= j < k < ranges@.len() implies #[trigger] ranges@[j].1 <= #[trigger] ranges@[k].0 by {
                    if k == i {
                        assert(ranges@[j] == before[j]);
                        if j < i - 1 {
                            assert(before[j].1 <= before[i - 1].0);
                        }
                    } else {
                        assert(ranges@[j] == before[j]);
                        assert(ranges@[k] == before[k]);
                    }
                }
                assert(runs_int(ranges@) =~= runs_int(before).push(((s * cs) as int, (e * cs) as int)));
                assert(runs_int(runs@).take(i as int + 1) =~= runs_int(runs@).take(i as int).push((s as int, e as int)));
                assert(ntfs_byte_ranges(cs as int, runs_int(runs@).take(i as int).push((s as int, e as int))) =~= ntfs_byte_ranges(cs as int, runs_int(runs@).take(i as int)).push((s * cs, e * cs)));
            }
            i = i + 1;
        }
        let ghost w = runs_int(runs@);
        proof {
            assert(runs_int(runs@).take(runs@.len() as int) =~= runs_int(runs@));
        }
        let r: Result<Vec<(u64, u64)>, DomainError> = Ok(ranges);
        proof {
            match &r {
                Ok(v) => {
                    assert(v@ == ranges@);
                    assert(ntfs_ranges_ok(source.spec_content(), self.spec_model(), source.spec_faultless(), runs_int(v@), w));
                },
                Err(_) => {},
            }
        }
        r
    }
}

} // verus!
