//! Picks the parser for whatever filesystem a source holds, so that the
//! scan, recovery and wipe jobs can work the same way on FAT32 and NTFS.

use crate::error::DomainError;
use crate::fat32::boot_sector::{Fat32BootSector, spec_fat32_boot_sector};
use crate::fat32::fat32_parser::{
    Fat32Parser,
    fat_cluster_free,
    fat_scan_end,
    fat_ranges_ok,
    fat_recover_ok,
    spec_deleted_entries,
    spec_fat_runs,
};
use crate::ntfs::ntfs_parser::{
    NtfsModel,
    NtfsParser,
    entries_from_records,
    entries_upto,
    names_upto,
    ntfs_cluster_count,
    ntfs_free_pred,
    ntfs_geometry_ok,
    ntfs_ranges_ok,
    ntfs_recover_ok,
    records_scanned,
    spec_ntfs_runs,
    spec_ntfs_setup,
};
use crate::parser::{ClusterRange, DeletedEntry, EntryModel, FilesystemParser, entry_models, runs_int};
use crate::source::ByteSource;
use vstd::prelude::*;

verus! {

/// The FAT32 volume a source of `content` holds, if any.
pub open spec fn fat32_volume(content: Seq<u8>) -> Option<Fat32BootSector> {
    if content.len() >= 512 {
        spec_fat32_boot_sector(content.take(512))
    } else {
        None
    }
}

/// A parser for one of the filesystems this library reads.
pub enum DetectedParser {
    Fat32(Fat32Parser),
    Ntfs(NtfsParser),
}

/// The layout a parser reads a volume with.
pub enum VolumeModel {
    Fat32(Fat32BootSector),
    Ntfs(NtfsModel),
}

/// "FAT32" or "NTFS".
pub open spec fn volume_name(v: VolumeModel) -> Seq<char> {
    match v {
        VolumeModel::Fat32(_) => seq!['F', 'A', 'T', '3', '2'],
        VolumeModel::Ntfs(_) => seq!['N', 'T', 'F', 'S'],
    }
}

impl DetectedParser {
    /// The layout this parser reads with.
    pub open spec fn spec_volume(&self) -> VolumeModel {
        match self {
            DetectedParser::Fat32(p) => VolumeModel::Fat32(p.spec_boot_sector()),
            DetectedParser::Ntfs(p) => VolumeModel::Ntfs(p.spec_model()),
        }
    }

    /// Bytes per cluster.
    pub open spec fn spec_cluster_bytes(&self) -> int {
        match self {
            DetectedParser::Fat32(p) => p.spec_boot_sector().spec_cluster_size_bytes(),
            DetectedParser::Ntfs(p) => p.spec_boot_sector().spec_cluster_size_bytes(),
        }
    }

    /// The deleted entries a scan of a source of `content` finds when no
    /// read fails, or `None` when a FAT32 directory cannot be read.
    pub open spec fn spec_deleted(&self, content: Seq<u8>) -> Option<Seq<EntryModel>> {
        match self {
            DetectedParser::Fat32(p) => spec_deleted_entries(content, p.spec_boot_sector()),
            DetectedParser::Ntfs(p) => Some(entries_upto(content, p.spec_model(), records_scanned(p.spec_model()))),
        }
    }

    /// `ranges` are byte ranges made only of free clusters; when no read
    /// failed, exactly the merged runs of all free clusters.
    pub open spec fn spec_free_ranges_ok(&self, content: Seq<u8>, faultless: bool, ranges: Seq<(int, int)>) -> bool {
        match self {
            DetectedParser::Fat32(p) => exists|runs: Seq<(int, int)>|
                #[trigger] fat_ranges_ok(content, p.spec_boot_sector(), faultless, ranges, runs),
            DetectedParser::Ntfs(p) => exists|runs: Seq<(int, int)>|
                #[trigger] ntfs_ranges_ok(content, p.spec_model(), faultless, ranges, runs),
        }
    }

    /// Byte `pos` of the volume lies in a cluster that is free: one the
    /// FAT marks free, or whose `$Bitmap` bit is clear.
    pub open spec fn spec_byte_in_free_cluster(&self, content: Seq<u8>, pos: int) -> bool {
        match self {
            DetectedParser::Fat32(p) => {
                let bs = p.spec_boot_sector();
                exists|c: int|
                    2 <= c < fat_scan_end(bs) && bs.spec_cluster_offset(c) <= pos < bs.spec_cluster_offset(c + 1)
                        && #[trigger] fat_cluster_free(content, bs, c)
            },
            DetectedParser::Ntfs(p) => {
                let m = p.spec_model();
                let cs = m.boot_sector.spec_cluster_size_bytes();
                exists|c: int|
                    0 <= c < ntfs_cluster_count(m.boot_sector) && c * cs <= pos < (c + 1) * cs
                        && #[trigger] ntfs_free_pred(content, m.bitmap, cs)(c)
            },
        }
    }

    /// Whether `free_space_ranges` can work on this volume: always for
    /// FAT32; for NTFS when its cluster count and size fit in 64 bits.
    pub open spec fn spec_geometry_ok(&self) -> bool {
        match self {
            DetectedParser::Fat32(_) => true,
            DetectedParser::Ntfs(p) => ntfs_geometry_ok(p.spec_boot_sector()),
        }
    }

    /// What recovering `e` from a source of `content` may give.
    pub open spec fn spec_recover_ok(
        &self,
        content: Seq<u8>,
        faultless: bool,
        e: EntryModel,
        r: Result<Vec<u8>, DomainError>,
    ) -> bool {
        match self {
            DetectedParser::Fat32(p) => fat_recover_ok(p.spec_boot_sector(), content, faultless, e, r),
            DetectedParser::Ntfs(p) => ntfs_recover_ok(p.spec_model(), p.spec_names(), content, faultless, e, r),
        }
    }

    /// Bytes per cluster of the volume.
    pub fn cluster_size_bytes(&self) -> (r: u64)
        ensures
            r == self.spec_cluster_bytes(),
    {
        match self {
            DetectedParser::Fat32(p) => p.cluster_size_bytes(),
            DetectedParser::Ntfs(p) => p.cluster_size_bytes(),
        }
    }

    /// Every deleted entry of the volume. The NTFS parser also remembers
    /// which record each name came from, for `recover_bytes`.
    pub fn enumerate_deleted<S: ByteSource>(&mut self, source: &S) -> (r: Result<
        Vec<DeletedEntry>,
        DomainError,
    >)
        ensures
            final(self).spec_volume() == old(self).spec_volume(),
            r matches Ok(v) ==> ((*old(self) is Fat32 || source.spec_faultless()) ==> old(self).spec_deleted(
                source.spec_content(),
            ) == Some(entry_models(v@))),
            source.spec_faultless() ==> (r is Ok <==> old(self).spec_deleted(source.spec_content()) is Some),
            r matches Err(e) ==> e is ByteSource,
            *old(self) is Fat32 ==> *final(self) == *old(self),
            *old(self) matches DetectedParser::Ntfs(p) ==> (r matches Ok(v) ==> entries_from_records(
                source.spec_content(),
                p.spec_model(),
                v@,
            )),
            *old(self) matches DetectedParser::Ntfs(p) ==> (*final(self) matches DetectedParser::Ntfs(q)
                && (source.spec_faultless() ==> q.spec_names() == p.spec_names() + names_upto(
                source.spec_content(),
                p.spec_model(),
                records_scanned(p.spec_model()),
            ))),
    {
        match self {
            DetectedParser::Fat32(p) => p.enumerate_deleted(source),
            DetectedParser::Ntfs(p) => p.enumerate_deleted(source),
        }
    }

    /// Where a deleted entry's data lives, assuming it is contiguous.
    pub fn resolve_data_runs(&self, entry: &DeletedEntry) -> (r: Vec<ClusterRange>)
        requires
            entry.file_size == 0 || self.spec_cluster_bytes() > 0,
        ensures
            entry.file_size == 0 <==> r@.len() == 0,
            r@ == match self {
                DetectedParser::Fat32(p) => spec_fat_runs(p.spec_boot_sector(), entry@),
                DetectedParser::Ntfs(p) => spec_ntfs_runs(p.spec_boot_sector(), entry@),
            },
    {
        match self {
            DetectedParser::Fat32(p) => p.resolve_data_runs(entry),
            DetectedParser::Ntfs(p) => p.resolve_data_runs(entry),
        }
    }

    /// The recovered bytes of a deleted entry.
    pub fn recover_bytes<S: ByteSource>(&self, source: &S, entry: &DeletedEntry) -> (r: Result<
        Vec<u8>,
        DomainError,
    >)
        requires
            entry.file_size == 0 || self.spec_cluster_bytes() > 0,
        ensures
            self.spec_recover_ok(source.spec_content(), source.spec_faultless(), entry@, r),
            r matches Ok(v) ==> v@.len() <= entry.file_size,
    {
        match self {
            DetectedParser::Fat32(p) => p.recover_bytes(source, entry),
            DetectedParser::Ntfs(p) => p.recover_bytes(source, entry),
        }
    }

    /// The byte ranges of the volume's free clusters.
    pub fn free_space_ranges<S: ByteSource>(&self, source: &S) -> (r: Result<Vec<(u64, u64)>, DomainError>)
        ensures
            r is Ok <==> self.spec_geometry_ok(),
            r matches Ok(v) ==> self.spec_free_ranges_ok(source.spec_content(), source.spec_faultless(), runs_int(v@)),
            r matches Ok(v) ==> forall|i: int| 0 <= i < v@.len() ==> v@[i].0 <= v@[i].1,
            r matches Ok(v) ==> forall|j: int, k: int|
                0 <= j < k < v@.len() ==> #[trigger] v@[j].1 <= #[trigger] v@[k].0,
    {
        match self {
            DetectedParser::Fat32(p) => p.free_space_ranges(source),
            DetectedParser::Ntfs(p) => p.free_space_ranges(source),
        }
    }
}

/// Finds the filesystem on `source`: FAT32 when its boot sector parses as
/// one, else NTFS when its boot sector, `$MFT` and `$Bitmap` can be read.
/// Returns the parser with the filesystem's name.
pub fn detect_parser<S: ByteSource>(source: &S) -> (r: Option<(DetectedParser, &'static str)>)
    ensures
        r matches Some((p, name)) ==> name@ == volume_name(p.spec_volume()),
        r matches Some((DetectedParser::Fat32(p), _)) ==> fat32_volume(source.spec_content()) == Some(
            p.spec_boot_sector(),
        ),
        r matches Some((DetectedParser::Ntfs(p), _)) ==> {
            &&& p.spec_names().len() == 0
            &&& spec_ntfs_setup(source.spec_content()) == Some(
                (p.spec_boot_sector(), p.spec_mft_runs(), p.spec_bitmap()),
            )
            &&& (source.spec_faultless() ==> fat32_volume(source.spec_content()) is None)
        },
        source.spec_faultless() ==> (r is Some <==> (fat32_volume(source.spec_content()) is Some
            || spec_ntfs_setup(source.spec_content()) is Some)),
{
    match Fat32Parser::new(source) {
        Ok(p) => {
            proof {
                reveal_strlit("FAT32");
            }
            return Some((DetectedParser::Fat32(p), "FAT32"));
        },
        Err(_) => {},
    }
    match NtfsParser::new(source) {
        Ok(p) => {
            proof {
                reveal_strlit("NTFS");
            }
            Some((DetectedParser::Ntfs(p), "NTFS"))
        },
        Err(_) => None,
    }
}

} // verus!
