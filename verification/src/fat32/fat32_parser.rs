//! `Fat32Parser`: the FAT32 implementation of `FilesystemParser`.
//!
//! Directories are read by following their FAT cluster chain, and
//! `enumerate_deleted` recurses into live subdirectories, so deleted files
//! anywhere in the tree are found; each entry's name is a root-relative
//! path such as "Documents/_ANARY.TXT".
//!
//! A deleted file's data is assumed to be contiguous from its first
//! cluster: the delete zeroes its FAT chain, so there is nothing else to
//! follow. Deleted subdirectories are reported as entries of their own but
//! not walked: their chains are zeroed too, and a directory has no size
//! field to guess a contiguous extent from.

use crate::error::DomainError;
use crate::fat32::boot_sector::{Fat32BootSector, spec_fat32_boot_sector};
use crate::fat32::dir_entry::{
    ATTR_DIRECTORY,
    ATTR_LONG_NAME,
    ATTR_VOLUME_ID,
    DELETED_MARKER,
    END_OF_DIRECTORY,
    EntrySlot,
    entry_fields,
    format_name,
    name_from_raw,
    parse_entry,
    slot_of,
};
use crate::fat32::fat_table::{fat_entry, fat_entry_readable, follow_chain, read_fat_entry, spec_chain};
use crate::bytes::{le16, le32};
use crate::parser::{
    ClusterRange,
    DeletedEntry,
    EntryModel,
    FilesystemParser,
    coalesce_finish,
    coalesce_inv,
    coalesce_step,
    entry_models,
    free_runs,
    lemma_coalesce_start,
    runs_all_free,
    runs_int,
    runs_ordered,
};
use crate::source::{ByteSource, ByteSourceError, is_out_of_bounds};
use std::collections::HashSet;
use vstd::prelude::*;
use vstd::set_lib::*;

verus! {

/// The bytes of cluster `c`, when they lie inside the source.
pub open spec fn cluster_data(content: Seq<u8>, bs: Fat32BootSector, c: int) -> Option<Seq<u8>> {
    let off = bs.spec_cluster_offset(c);
    let cs = bs.spec_cluster_size_bytes();
    if 0 <= off && off + cs <= content.len() {
        Some(content.subrange(off, off + cs))
    } else {
        None
    }
}

/// The bytes of every cluster of `chain`, concatenated in order.
pub open spec fn chain_data(content: Seq<u8>, bs: Fat32BootSector, chain: Seq<u32>) -> Option<
    Seq<u8>,
>
    decreases chain.len(),
{
    if chain.len() == 0 {
        Some(seq![])
    } else {
        match (chain_data(content, bs, chain.drop_last()), cluster_data(content, bs, chain.last() as int)) {
            (Some(a), Some(b)) => Some(a + b),
            _ => None,
        }
    }
}

/// The full contents of the directory whose chain starts at `start`.
pub open spec fn spec_dir_bytes(content: Seq<u8>, bs: Fat32BootSector, start: u32) -> Option<Seq<u8>> {
    match spec_chain(content, bs, start as int) {
        Some(chain) => chain_data(content, bs, chain),
        None => None,
    }
}

/// Byte `j` of cluster `c` of the volume on `content`.
pub open spec fn cluster_byte(content: Seq<u8>, bs: Fat32BootSector, c: int, j: int) -> u8 {
    content[bs.spec_cluster_offset(c) + j]
}

/// Byte `j` of the `k`-th block of `cs` bytes of `d`.
pub open spec fn block_byte(d: Seq<u8>, cs: int, k: int, j: int) -> u8 {
    d[k * cs + j]
}

/// The bytes of a chain's clusters lie end to end: as many clusters as
/// the chain holds, the `k`-th cluster's bytes `k` cluster sizes in.
proof fn lemma_chain_data_layout(content: Seq<u8>, bs: Fat32BootSector, chain: Seq<u32>)
    ensures
        chain_data(content, bs, chain) matches Some(d) ==> {
            &&& d.len() == chain.len() * bs.spec_cluster_size_bytes()
            &&& forall|k: int, j: int|
                0 <= k < chain.len() && 0 <= j < bs.spec_cluster_size_bytes() ==> #[trigger] block_byte(
                    d,
                    bs.spec_cluster_size_bytes(),
                    k,
                    j,
                ) == cluster_byte(content, bs, chain[k] as int, j)
        },
    decreases chain.len(),
{
    let cs = bs.spec_cluster_size_bytes();
    assert(cs >= 0) by (nonlinear_arith)
        requires
            cs == bs.sectors_per_cluster * bs.bytes_per_sector,
            bs.sectors_per_cluster >= 0,
            bs.bytes_per_sector >= 0,
    ;
    if chain.len() > 0 {
        let front = chain.drop_last();
        lemma_chain_data_layout(content, bs, front);
        if let Some(d) = chain_data(content, bs, chain) {
            let a = chain_data(content, bs, front)->Some_0;
            let b = cluster_data(content, bs, chain.last() as int)->Some_0;
            let n = chain.len() as int;
            assert(d == a + b);
            assert(b.len() == cs);
            assert(d.len() == n * cs) by (nonlinear_arith)
                requires
                    d.len() == a.len() + b.len(),
                    a.len() == (n - 1) * cs,
                    b.len() == cs,
            ;
            assert forall|k: int, j: int| 0 <= k < n && 0 <= j < cs implies #[trigger] block_byte(d, cs, k, j)
                == cluster_byte(content, bs, chain[k] as int, j) by {
                if k < n - 1 {
                    assert(k * cs + j < (n - 1) * cs) by (nonlinear_arith)
                        requires
                            0 <= k < n - 1,
                            0 <= j < cs,
                    ;
                    assert(0 <= k * cs) by (nonlinear_arith)
                        requires
                            0 <= k,
                            0 <= cs,
                    ;
                    assert(d[k * cs + j] == a[k * cs + j]);
                    assert(block_byte(a, cs, k, j) == cluster_byte(content, bs, front[k] as int, j));
                    assert(front[k] == chain[k]);
                } else {
                    assert(k * cs + j == (n - 1) * cs + j);
                    assert(d[k * cs + j] == b[j]);
                }
            }
        }
    }
}

/// A directory's bytes are the whole of its cluster chain read in order:
/// as many clusters as the chain holds, the chain's `k`-th cluster `k`
/// cluster sizes in, never only a part of the chain.
pub proof fn lemma_dir_bytes_span_chain(content: Seq<u8>, bs: Fat32BootSector, start: u32)
    ensures
        spec_dir_bytes(content, bs, start) matches Some(d) ==> (spec_chain(content, bs, start as int) matches Some(
            chain,
        ) && d.len() == chain.len() * bs.spec_cluster_size_bytes() && forall|k: int, j: int|
            0 <= k < chain.len() && 0 <= j < bs.spec_cluster_size_bytes() ==> #[trigger] block_byte(
                d,
                bs.spec_cluster_size_bytes(),
                k,
                j,
            ) == cluster_byte(content, bs, chain[k] as int, j)),
{
    if let Some(chain) = spec_chain(content, bs, start as int) {
        lemma_chain_data_layout(content, bs, chain);
    }
}

/// Slot `k` (32 bytes) of a directory's contents.
pub open spec fn slot_bytes(dir: Seq<u8>, k: int) -> Seq<u8> {
    dir.subrange(32 * k, 32 * k + 32)
}

/// The first-cluster field of a slot.
pub open spec fn slot_first_cluster(b: Seq<u8>) -> int {
    le16(b, 20) * 65536 + le16(b, 26)
}

/// The displayed name of a slot.
pub open spec fn slot_name(b: Seq<u8>) -> Seq<char> {
    name_from_raw(b.subrange(0, 11), b[0] == DELETED_MARKER)
}

/// The deleted entry that a slot marked deleted stands for, found in the
/// directory whose path is `prefix`.
pub open spec fn slot_model(b: Seq<u8>, prefix: Seq<char>) -> EntryModel {
    let fc = slot_first_cluster(b);
    EntryModel {
        name: prefix + slot_name(b),
        first_cluster: fc as u64,
        file_size: le32(b, 28) as u64,
        metadata_intact: fc != 0,
        confidence: if fc != 0 {
            60
        } else {
            10
        },
    }
}

/// Whether a slot is a live subdirectory worth walking into.
pub open spec fn slot_is_subdir(b: Seq<u8>) -> bool {
    b[11] & ATTR_DIRECTORY != 0 && slot_first_cluster(b) >= 2
}

/// Appends `pre` in front of a walk's findings.
pub open spec fn prepend(pre: Seq<EntryModel>, r: Option<(Seq<EntryModel>, Set<u32>)>) -> Option<
    (Seq<EntryModel>, Set<u32>),
> {
    match r {
        Some((s, v)) => Some((pre + s, v)),
        None => None,
    }
}

/// The deleted entries found from slot `k` of directory contents `dir`
/// on, with the directories already walked (`visited`) afterwards. A
/// slot starting with 0x00 ends the directory; long-name fragments,
/// volume labels and the "." and ".." entries are skipped; a live
/// subdirectory is walked in place. `None` when a directory could not be
/// read. `fuel` bounds the nesting; it never runs out when it is at least
/// the number of clusters not yet visited.
pub open spec fn walk_slots(
    fuel: nat,
    content: Seq<u8>,
    bs: Fat32BootSector,
    dir: Seq<u8>,
    k: int,
    prefix: Seq<char>,
    visited: Set<u32>,
) -> Option<(Seq<EntryModel>, Set<u32>)>
    decreases fuel, 0int, dir.len() / 32 - k,
{
    if k < 0 || k >= dir.len() / 32 {
        Some((seq![], visited))
    } else {
        let b = slot_bytes(dir, k);
        if b[0] == END_OF_DIRECTORY {
            Some((seq![], visited))
        } else if b[11] == ATTR_LONG_NAME || b[11] == ATTR_VOLUME_ID || b[0] == 0x2E {
            walk_slots(fuel, content, bs, dir, k + 1, prefix, visited)
        } else if b[0] == DELETED_MARKER {
            prepend(seq![slot_model(b, prefix)], walk_slots(fuel, content, bs, dir, k + 1, prefix, visited))
        } else if slot_is_subdir(b) && fuel > 0 {
            match spec_walk(
                (fuel - 1) as nat,
                content,
                bs,
                slot_first_cluster(b) as u32,
                prefix + slot_name(b) + seq!['/'],
                visited,
            ) {
                Some((sub, v2)) => prepend(sub, walk_slots(fuel, content, bs, dir, k + 1, prefix, v2)),
                None => None,
            }
        } else {
            walk_slots(fuel, content, bs, dir, k + 1, prefix, visited)
        }
    }
}

/// The deleted entries of the directory tree rooted at `cluster`, whose
/// path is `prefix`, in depth-first order; a directory already visited is
/// not walked again.
pub open spec fn spec_walk(
    fuel: nat,
    content: Seq<u8>,
    bs: Fat32BootSector,
    cluster: u32,
    prefix: Seq<char>,
    visited: Set<u32>,
) -> Option<(Seq<EntryModel>, Set<u32>)>
    decreases fuel, 1int, 0int,
{
    if visited.contains(cluster) {
        Some((seq![], visited))
    } else {
        match spec_dir_bytes(content, bs, cluster) {
            Some(dir) => walk_slots(fuel, content, bs, dir, 0, prefix, visited.insert(cluster)),
            None => None,
        }
    }
}

/// Enough fuel to walk any tree: one per possible cluster number.
pub open spec fn full_fuel() -> nat {
    0x1_0000_0000
}

/// The deleted entries of the whole volume, or `None` when a directory
/// on the way could not be read.
pub open spec fn spec_deleted_entries(content: Seq<u8>, bs: Fat32BootSector) -> Option<Seq<EntryModel>> {
    match spec_walk(full_fuel(), content, bs, bs.root_cluster, seq![], Set::empty()) {
        Some((found, _)) => Some(found),
        None => None,
    }
}

/// A set of `u32` has at most 2^32 members.
proof fn lemma_u32_set_len(s: Set<u32>)
    requires
        s.finite(),
    ensures
        s.len() <= 0x1_0000_0000,
{
    let full = Set::new(|x: u32| 0 <= x < u32::MAX).insert(u32::MAX);
    range_set_properties::<u32>(0, u32::MAX);
    assert(Set::<u32>::range(0, u32::MAX) == Set::new(|x: u32| 0 <= x < u32::MAX));
    assert(s.subset_of(full));
    lemma_len_subset(s, full);
}

/// A prefix of a readable chain is readable.
proof fn lemma_chain_data_prefix(content: Seq<u8>, bs: Fat32BootSector, chain: Seq<u32>, i: int)
    requires
        0 <= i <= chain.len(),
        chain_data(content, bs, chain) is Some,
    ensures
        chain_data(content, bs, chain.take(i)) is Some,
    decreases chain.len(),
{
    if i < chain.len() {
        assert(chain.drop_last().take(i) =~= chain.take(i));
        lemma_chain_data_prefix(content, bs, chain.drop_last(), i);
    } else {
        assert(chain.take(i) =~= chain);
    }
}

/// The FAT entry of data cluster `c` is present and zero: the cluster
/// belongs to no file.
pub open spec fn fat_cluster_free(content: Seq<u8>, bs: Fat32BootSector, c: int) -> bool {
    fat_entry_readable(content, bs, c) && fat_entry(content, bs, c) == 0
}

/// Number of data clusters: the sectors after the reserved region and the
/// FATs, in whole clusters.
pub open spec fn spec_data_cluster_count(bs: Fat32BootSector) -> int {
    let data_start = bs.reserved_sector_count + bs.num_fats * bs.fat_size_32;
    if bs.sectors_per_cluster == 0 || bs.total_sectors < data_start {
        0
    } else {
        (bs.total_sectors - data_start) / (bs.sectors_per_cluster as int)
    }
}

/// The clusters `resolve_data_runs` gives for a FAT32 entry: none for an
/// empty file, else one contiguous range from its first cluster, long
/// enough for its size (both fields cut to 32 bits).
pub open spec fn spec_fat_runs(bs: Fat32BootSector, e: EntryModel) -> Seq<ClusterRange> {
    if e.file_size == 0 {
        seq![]
    } else {
        let cs = bs.spec_cluster_size_bytes();
        let count = (e.file_size as int) / cs + if (e.file_size as int) % cs != 0 {
            1int
        } else {
            0int
        };
        seq![
            ClusterRange {
                start_cluster: e.first_cluster as u32,
                cluster_count: count as u32,
            },
        ]
    }
}

/// Byte offset and length on disk of the single run of a non-empty entry.
pub open spec fn fat_run_extent(bs: Fat32BootSector, e: EntryModel) -> (int, int) {
    let run = spec_fat_runs(bs, e)[0];
    (bs.spec_cluster_offset(run.start_cluster as int), run.cluster_count * bs.spec_cluster_size_bytes())
}

/// Whether the run of a non-empty entry starts at a reserved cluster
/// number (0 or 1), which has no place on disk.
pub open spec fn fat_run_reserved(bs: Fat32BootSector, e: EntryModel) -> bool {
    e.file_size != 0 && spec_fat_runs(bs, e)[0].start_cluster < 2
}

/// Clusters `free_space_ranges` looks at end here: past the data area,
/// or past the largest cluster number a 28-bit entry can hold.
pub open spec fn fat_scan_end(bs: Fat32BootSector) -> int {
    let end = 2 + spec_data_cluster_count(bs);
    if end < 0x1000_0000 {
        end
    } else {
        0x1000_0000
    }
}

/// Byte ranges `(start, end)` of cluster runs.
pub open spec fn fat_byte_ranges(bs: Fat32BootSector, runs: Seq<(int, int)>) -> Seq<(int, int)> {
    runs.map_values(|p: (int, int)| (bs.spec_cluster_offset(p.0), bs.spec_cluster_offset(p.1)))
}

/// Free clusters as a predicate.
pub open spec fn fat_free_pred(content: Seq<u8>, bs: Fat32BootSector) -> spec_fn(int) -> bool {
    |c: int| fat_cluster_free(content, bs, c)
}

/// `ranges` are the byte ranges of cluster runs `runs` that are all free;
/// from a source whose reads never fail, they are exactly the maximal free
/// runs of the data area.
pub open spec fn fat_ranges_ok(
    content: Seq<u8>,
    bs: Fat32BootSector,
    faultless: bool,
    ranges: Seq<(int, int)>,
    runs: Seq<(int, int)>,
) -> bool {
    &&& runs_all_free(runs, fat_free_pred(content, bs), 2, fat_scan_end(bs))
    &&& runs_ordered(runs)
    &&& ranges == fat_byte_ranges(bs, runs)
    &&& faultless ==> runs == free_runs(fat_free_pred(content, bs), 2, fat_scan_end(bs))
}

/// What recovering entry `e` from a FAT32 volume may give: nothing for an
/// empty file; `DirEntry` exactly when its run starts at a reserved
/// cluster; otherwise the run's bytes cut to the file's size when they
/// are on the source, an out-of-bounds error when they are not, and
/// another source error only from a source that can fail.
pub open spec fn fat_recover_ok(
    bs: Fat32BootSector,
    content: Seq<u8>,
    faultless: bool,
    e: EntryModel,
    r: Result<Vec<u8>, DomainError>,
) -> bool {
    &&& e.file_size == 0 ==> (r matches Ok(v) && v@.len() == 0)
    &&& fat_run_reserved(bs, e) <==> (r matches Err(DomainError::DirEntry(_)))
    &&& e.file_size != 0 && !fat_run_reserved(bs, e) ==> ({
        let (off, len) = fat_run_extent(bs, e);
        let inside = off + len <= content.len() && len <= usize::MAX;
        &&& r matches Ok(v) ==> inside && v@ == content.subrange(off, off + len).take(
            if e.file_size < len {
                e.file_size as int
            } else {
                len
            },
        )
        &&& !inside ==> (r matches Err(DomainError::ByteSource(err)) && is_out_of_bounds(err))
        &&& faultless && inside ==> r is Ok
        &&& r matches Err(err) ==> err is ByteSource
    })
}

/// The FAT32 parser: a boot sector, from which every other structure is
/// located.
pub struct Fat32Parser {
    boot_sector: Fat32BootSector,
}

impl Fat32Parser {
    /// The volume's boot sector.
    pub closed spec fn spec_boot_sector(&self) -> Fat32BootSector {
        self.boot_sector
    }

    /// A parser for the FAT32 volume in `source`.
    pub fn new<S: ByteSource>(source: &S) -> (r: Result<Fat32Parser, crate::error::DomainError>)
        ensures
            crate::fat32::boot_sector::boot_parse_ok(
                source.spec_content(),
                source.spec_faultless(),
                if source.spec_content().len() >= 512 {
                    crate::fat32::boot_sector::spec_fat32_boot_sector(source.spec_content().take(512))
                } else {
                    None
                },
                match r {
                    Ok(p) => Ok(p.spec_boot_sector()),
                    Err(e) => Err(e),
                },
            ),
    {
        match Fat32BootSector::parse(source) {
            Ok(boot_sector) => Ok(Fat32Parser { boot_sector }),
            Err(e) => Err(e),
        }
    }

    /// Bytes per cluster of the volume.
    pub fn cluster_size_bytes(&self) -> (r: u64)
        ensures
            r == self.spec_boot_sector().spec_cluster_size_bytes(),
    {
        self.boot_sector.cluster_size_bytes()
    }

    /// One past the last cluster number `free_space_ranges` looks at.
    fn scan_end(&self) -> (r: u64)
        ensures
            r == fat_scan_end(self.boot_sector),
            2 <= r <= 0x1000_0000,
    {
        let bs = &self.boot_sector;
        proof {
            assert(bs.num_fats as int * bs.fat_size_32 as int <= 0xFF * 0xFFFF_FFFFint) by (nonlinear_arith)
                requires
                    bs.num_fats <= 0xFF,
                    bs.fat_size_32 <= 0xFFFF_FFFF,
            ;
        }
        let data_start: u64 = bs.reserved_sector_count as u64 + bs.num_fats as u64 * bs.fat_size_32 as u64;
        let count: u64 = if bs.sectors_per_cluster == 0 || (bs.total_sectors as u64) < data_start {
            0
        } else {
            (bs.total_sectors as u64 - data_start) / (bs.sectors_per_cluster as u64)
        };
        proof {
            if bs.sectors_per_cluster != 0 && (bs.total_sectors as u64) >= data_start {
                assert(count <= bs.total_sectors) by (nonlinear_arith)
                    requires
                        bs.sectors_per_cluster >= 1,
                        count == (bs.total_sectors - data_start) / (bs.sectors_per_cluster as int),
                        data_start >= 0,
                        bs.total_sectors >= data_start,
                ;
            }
        }
        let end = 2 + count;
        if end < 0x1000_0000 {
            end
        } else {
            0x1000_0000
        }
    }

    /// A directory's full contents: every cluster of its chain, in order.
    fn read_directory_bytes<S: ByteSource>(&self, source: &S, start_cluster: u32) -> (r: Result<
        Vec<u8>,
        DomainError,
    >)
        ensures
            r matches Ok(v) ==> spec_dir_bytes(source.spec_content(), self.boot_sector, start_cluster)
                == Some(v@),
            source.spec_faultless() && spec_dir_bytes(
                source.spec_content(),
                self.boot_sector,
                start_cluster,
            ) is Some ==> r is Ok,
            r matches Err(e) ==> e is ByteSource,
    {
        let ghost content = source.spec_content();
        let ghost bs = self.boot_sector;
        let chain = match follow_chain(source, &self.boot_sector, start_cluster) {
            Ok(c) => c,
            Err(e) => {
                return Err(e);
            },
        };
        let cs = self.boot_sector.cluster_size_bytes();
        let mut bytes: Vec<u8> = Vec::new();
        let mut i: usize = 0;
        while i < chain.len()
            invariant
                content == source.spec_content(),
                bs == self.boot_sector,
                spec_chain(content, bs, start_cluster as int) == Some(chain@),
                forall|j: int| 0 <= j < chain@.len() ==> chain@[j] >= 2,
                i <= chain@.len(),
                cs == bs.spec_cluster_size_bytes(),
                cs <= 0xFF * 0xFFFF,
                chain_data(content, bs, chain@.take(i as int)) == Some(bytes@),
            decreases chain.len() - i,
        {
            let cluster = chain[i];
            let offset = self.boot_sector.cluster_offset(cluster);
            proof {
                assert(chain@.take(i as int + 1).drop_last() =~= chain@.take(i as int));
                assert(chain@.take(i as int + 1).last() == cluster);
            }
            let mut chunk = match source.read_vec(offset, cs as usize) {
                Ok(c) => c,
                Err(e) => {
                    proof {
                        if source.spec_faultless() {
                            if let Some(d) = chain_data(content, bs, chain@) {
                                lemma_chain_data_prefix(content, bs, chain@, i as int + 1);
                            }
                        }
                    }
                    return Err(DomainError::ByteSource(e));
                },
            };
            bytes.append(&mut chunk);
            i = i + 1;
        }
        proof {
            assert(chain@.take(chain@.len() as int) =~= chain@);
        }
        Ok(bytes)
    }
    /// Depth-first walk of the directory tree at `cluster`, appending
    /// every deleted entry found (named with the path `prefix`) to `out`.
    /// `visited` guards against cycles in a corrupted image, such as a
    /// subdirectory pointing back at an ancestor.
    fn walk_directory<S: ByteSource>(
        &self,
        source: &S,
        cluster: u32,
        prefix: &str,
        out: &mut Vec<DeletedEntry>,
        visited: &mut HashSet<u32>,
        Ghost(fuel): Ghost<nat>,
    ) -> (r: Result<(), DomainError>)
        requires
            fuel + old(visited)@.len() >= full_fuel(),
            old(visited)@.finite(),
        ensures
            final(visited)@.finite(),
            old(visited)@.subset_of(final(visited)@),
            r is Ok ==> {
                &&& final(out)@.len() >= old(out)@.len()
                &&& final(out)@.take(old(out)@.len() as int) == old(out)@
                &&& spec_walk(fuel, source.spec_content(), self.boot_sector, cluster, prefix@, old(visited)@)
                    == Some((entry_models(final(out)@.skip(old(out)@.len() as int)), final(visited)@))
            },
            source.spec_faultless() && spec_walk(
                fuel,
                source.spec_content(),
                self.boot_sector,
                cluster,
                prefix@,
                old(visited)@,
            ) is Some ==> r is Ok,
            r matches Err(e) ==> e is ByteSource,
            old(visited)@.contains(cluster) ==> r is Ok && final(out)@ == old(out)@ && final(visited)@ == old(
                visited,
            )@,
        decreases fuel,
    {
        broadcast use vstd::std_specs::hash::group_hash_axioms;

        let ghost content = source.spec_content();
        let ghost bs = self.boot_sector;
        let ghost v_in = visited@;
        let ghost out0 = out@;
        let ghost total = spec_walk(fuel, content, bs, cluster, prefix@, v_in);
        if !visited.insert(cluster) {
            // Already walked: a cycle in a corrupted image.
            proof {
                assert(out@.skip(out0.len() as int) =~= Seq::<DeletedEntry>::empty());
                assert(entry_models(out@.skip(out0.len() as int)) =~= Seq::<EntryModel>::empty());
                assert(out@.take(out0.len() as int) =~= out0);
            }
            return Ok(());
        }
        let dir_bytes = match self.read_directory_bytes(source, cluster) {
            Ok(d) => d,
            Err(e) => {
                return Err(e);
            },
        };
        let ghost dir = dir_bytes@;
        proof {
            assert(out@.skip(out0.len() as int) =~= Seq::<DeletedEntry>::empty());
            assert(entry_models(out@.skip(out0.len() as int)) =~= Seq::<EntryModel>::empty());
            assert(prepend(seq![], walk_slots(fuel, content, bs, dir, 0, prefix@, visited@)) =~= walk_slots(fuel, content, bs, dir, 0, prefix@, visited@)) by {
                match walk_slots(fuel, content, bs, dir, 0, prefix@, visited@) {
                    Some((s, v)) => {
                        assert(Seq::<EntryModel>::empty() + s =~= s);
                    },
                    None => {},
                }
            }
            assert(out@.take(out0.len() as int) =~= out0);
        }
        let n = dir_bytes.len() / 32;
        let mut k: usize = 0;
        while k < n
            invariant
                content == source.spec_content(),
                bs == self.boot_sector,
                dir == dir_bytes@,
                n == dir.len() / 32,
                k <= n,
                total == spec_walk(fuel, content, bs, cluster, prefix@, v_in),
                v_in == old(visited)@,
                !v_in.contains(cluster),
                out0 == old(out)@,
                total == prepend(
                    entry_models(out@.skip(out0.len() as int)),
                    walk_slots(fuel, content, bs, dir, k as int, prefix@, visited@),
                ),
                out@.len() >= out0.len(),
                out@.take(out0.len() as int) == out0,
                visited@.finite(),
                v_in.subset_of(visited@),
                visited@.contains(cluster),
                fuel + visited@.len() >= full_fuel() + 1,
                source.spec_faultless() && total is Some ==> walk_slots(fuel, content, bs, dir, k as int, prefix@, visited@) is Some,
            decreases n - k,
        {
            let ghost models_before = entry_models(out@.skip(out0.len() as int));
            let ghost out_before = out@;
            let ghost vis_before = visited@;
            let base = k * 32;
            let mut entry_bytes: [u8; 32] = [0u8; 32];
            let mut j: usize = 0;
            while j < 32
                invariant
                    j <= 32,
                    base == 32 * k,
                    k < n,
                    n == dir_bytes@.len() / 32,
                    forall|t: int| 0 <= t < j ==> entry_bytes@[t] == dir_bytes@[base + t],
                decreases 32 - j,
            {
                entry_bytes[j] = dir_bytes[base + j];
                j = j + 1;
            }
            let ghost b = slot_bytes(dir, k as int);
            proof {
                assert(entry_bytes@ =~= b);
            }
            let slot = parse_entry(&entry_bytes);
            let raw = match slot {
                EntrySlot::EndOfDirectory => {
                    proof {
                        assert(models_before + Seq::<EntryModel>::empty() =~= models_before);
                        assert(out@.skip(out0.len() as int).len() == out@.len() - out0.len());
                        assert forall|x: u32| v_in.contains(x) implies visited@.contains(x) by {
                            assert(vis_before.contains(x));
                        }
                    }
                    return Ok(());
                },
                EntrySlot::Skip => {
                    k = k + 1;
                    continue;
                },
                EntrySlot::Entry(raw) => raw,
            };
            proof {
                assert(entry_fields(b, raw));
                assert(raw.raw_name@[0] == b[0]);
            }
            if raw.raw_name[0] == 0x2E {
                // "." and ".." point at this directory and its parent.
                k = k + 1;
                continue;
            }
            if raw.is_deleted {
                let name = format_name(&raw);
                let full = prefix.to_owned().concat(name.as_str());
                let first_cluster = raw.first_cluster as u64;
                let intact = raw.first_cluster != 0;
                let confidence: u8 = if intact { 60 } else { 10 };
                let entry = DeletedEntry {
                    name: full,
                    first_cluster,
                    file_size: raw.file_size as u64,
                    metadata_intact: intact,
                    confidence,
                };
                proof {
                    assert(raw.raw_name@ == b.subrange(0, 11));
                    assert(entry@ == slot_model(b, prefix@));
                }
                out.push(entry);
                proof {
                    assert(out@.skip(out0.len() as int) =~= out_before.skip(out0.len() as int).push(entry));
                    assert(entry_models(out@.skip(out0.len() as int)) =~= models_before + seq![slot_model(b, prefix@)]);
                    assert(out@.take(out0.len() as int) =~= out_before.take(out0.len() as int));
                    match walk_slots(fuel, content, bs, dir, k + 1, prefix@, visited@) {
                        Some((s, v)) => {
                            assert(models_before + (seq![slot_model(b, prefix@)] + s) =~= (models_before + seq![slot_model(b, prefix@)]) + s);
                        },
                        None => {},
                    }
                }
                k = k + 1;
                continue;
            }
            if raw.attr & ATTR_DIRECTORY != 0 && raw.first_cluster >= 2 {
                let name = format_name(&raw);
                let with_name = prefix.to_owned().concat(name.as_str());
                let sub_prefix = with_name.concat("/");
                proof {
                    reveal_strlit("/");
                    assert(sub_prefix@ =~= prefix@ + slot_name(b) + seq!['/']);
                    lemma_u32_set_len(visited@);
                }
                let ghost sub_spec = spec_walk((fuel - 1) as nat, content, bs, raw.first_cluster, sub_prefix@, visited@);
                let res = self.walk_directory(source, raw.first_cluster, sub_prefix.as_str(), out, visited, Ghost((fuel - 1) as nat));
                match res {
                    Ok(()) => {},
                    Err(e) => {
                        proof {
                            assert forall|x: u32| v_in.contains(x) implies visited@.contains(x) by {
                                assert(vis_before.contains(x));
                            }
                        }
                        return Err(e);
                    },
                }
                proof {
                    assert forall|x: u32| v_in.contains(x) implies visited@.contains(x) by {
                        assert(vis_before.contains(x));
                    }
                    let sub = entry_models(out@.skip(out_before.len() as int));
                    assert(sub_spec == Some((sub, visited@)));
                    assert(out@.skip(out0.len() as int) =~= out_before.skip(out0.len() as int) + out@.skip(out_before.len() as int)) by {
                        assert(out@.take(out_before.len() as int) == out_before);
                        assert forall|t: int| 0 <= t < out@.len() - out0.len() implies #[trigger] out@.skip(out0.len() as int)[t] == (out_before.skip(out0.len() as int) + out@.skip(out_before.len() as int))[t] by {
                            if t < out_before.len() - out0.len() {
                                assert(out@.take(out_before.len() as int)[t + out0.len()] == out@[t + out0.len()]);
                            }
                        }
                    }
                    assert(entry_models(out@.skip(out0.len() as int)) =~= models_before + sub);
                    assert(out@.take(out0.len() as int) =~= out0) by {
                        assert(out@.take(out_before.len() as int) == out_before);
                        assert forall|t: int| 0 <= t < out0.len() implies #[trigger] out@.take(out0.len() as int)[t] == out0[t] by {
                            assert(out@.take(out_before.len() as int)[t] == out@[t]);
                            assert(out_before.take(out0.len() as int)[t] == out_before[t]);
                        }
                    }
                    lemma_len_subset(vis_before, visited@);
                    match walk_slots(fuel, content, bs, dir, k + 1, prefix@, visited@) {
                        Some((s, v)) => {
                            assert(models_before + (sub + s) =~= (models_before + sub) + s);
                        },
                        None => {},
                    }
                }
                k = k + 1;
                continue;
            }
            k = k + 1;
        }
        proof {
            match walk_slots(fuel, content, bs, dir, k as int, prefix@, visited@) {
                Some((s, v)) => {
                    assert(s =~= Seq::<EntryModel>::empty());
                    assert(entry_models(out@.skip(out0.len() as int)) + s =~= entry_models(out@.skip(out0.len() as int)));
                },
                None => {},
            }
        }
        Ok(())
    }
}

impl FilesystemParser for Fat32Parser {
    open spec fn spec_cluster_bytes(&self) -> int {
        self.spec_boot_sector().spec_cluster_size_bytes()
    }

    fn detect<S: ByteSource>(source: &S) -> (r: bool)
        ensures
            source.spec_content().len() >= 512 && source.spec_faultless() ==> (r <==> spec_fat32_boot_sector(
                source.spec_content().take(512),
            ) is Some),
            r ==> source.spec_content().len() >= 512 && spec_fat32_boot_sector(
                source.spec_content().take(512),
            ) is Some,
    {
        match Fat32BootSector::parse(source) {
            Ok(_) => true,
            Err(_) => false,
        }
    }

    fn enumerate_deleted<S: ByteSource>(&mut self, source: &S) -> (r: Result<
        Vec<DeletedEntry>,
        DomainError,
    >)
        ensures
            *final(self) == *old(self),
            r matches Ok(v) ==> spec_deleted_entries(source.spec_content(), old(self).spec_boot_sector()) == Some(
                entry_models(v@),
            ),
            source.spec_faultless() && spec_deleted_entries(source.spec_content(), old(self).spec_boot_sector()) is Some
                ==> r is Ok,
            r matches Err(e) ==> e is ByteSource,
    {
        let mut results: Vec<DeletedEntry> = Vec::new();
        let mut visited: HashSet<u32> = HashSet::new();
        let root = self.boot_sector.root_cluster;
        match self.walk_directory(source, root, "", &mut results, &mut visited, Ghost(full_fuel())) {
            Ok(()) => {
                proof {
                    reveal_strlit("");
                    assert(results@.skip(0) =~= results@);
                    assert(""@ =~= Seq::<char>::empty());
                }
                Ok(results)
            },
            Err(e) => {
                proof {
                    reveal_strlit("");
                    assert(""@ =~= Seq::<char>::empty());
                }
                Err(e)
            },
        }
    }

    fn resolve_data_runs(&self, entry: &DeletedEntry) -> (r: Vec<ClusterRange>)
        ensures
            r@ == spec_fat_runs(self.spec_boot_sector(), entry@),
    {
        if entry.file_size == 0 {
            return Vec::new();
        }
        let cluster_size = self.boot_sector.cluster_size_bytes();
        assert(cluster_size > 0);
        let whole = entry.file_size / cluster_size;
        let cluster_count = if entry.file_size % cluster_size != 0 {
            proof {
                assert(cluster_size >= 2);
                assert(whole < u64::MAX) by (nonlinear_arith)
                    requires
                        cluster_size >= 2,
                        whole == entry.file_size / cluster_size,
                        entry.file_size <= u64::MAX,
                ;
            }
            whole + 1
        } else {
            whole
        };
        #[verifier::truncate]
        let start_cluster = entry.first_cluster as u32;
        #[verifier::truncate]
        let count32 = cluster_count as u32;
        let mut runs: Vec<ClusterRange> = Vec::new();
        runs.push(
            ClusterRange { start_cluster, cluster_count: count32 },
        );
        proof {
            assert(runs@ =~= spec_fat_runs(self.boot_sector, entry@));
        }
        runs
    }

    fn recover_bytes<S: ByteSource>(&self, source: &S, entry: &DeletedEntry) -> (r: Result<
        Vec<u8>,
        DomainError,
    >)
        ensures
            fat_recover_ok(self.spec_boot_sector(), source.spec_content(), source.spec_faultless(), entry@, r),
    {
        let runs = self.resolve_data_runs(entry);
        let mut out: Vec<u8> = Vec::new();
        let mut i: usize = 0;
        while i < runs.len()
            invariant
                runs@ == spec_fat_runs(self.boot_sector, entry@),
                i <= runs@.len(),
                i == 0 ==> out@.len() == 0,
                i >= 1 ==> runs@[0].start_cluster >= 2,
                i == 1 ==> ({
                    let (off, len) = fat_run_extent(self.boot_sector, entry@);
                    &&& off + len <= source.spec_content().len()
                    &&& out@ == source.spec_content().subrange(off, off + len)
                }),
            decreases runs.len() - i,
        {
            let run = runs[i];
            if run.start_cluster < 2 {
                return Err(DomainError::DirEntry("data run starts at a reserved cluster".to_string()));
            }
            let offset = self.boot_sector.cluster_offset(run.start_cluster);
            let cs = self.boot_sector.cluster_size_bytes();
            proof {
                assert(run.cluster_count as int * cs <= 0xFFFF_FFFFint * (0xFF * 0xFFFF)) by (nonlinear_arith)
                    requires
                        cs <= 0xFF * 0xFFFF,
                        run.cluster_count <= 0xFFFF_FFFF,
                ;
            }
            let len = run.cluster_count as u64 * cs;
            if len > usize::MAX as u64 {
                // Longer than memory can hold on this machine.
                return Err(
                    DomainError::ByteSource(
                        ByteSourceError::OutOfBounds { offset, len: usize::MAX, size: source.size() },
                    ),
                );
            }
            let mut bytes = match source.read_vec(offset, len as usize) {
                Ok(b) => b,
                Err(e) => {
                    return Err(DomainError::ByteSource(e));
                },
            };
            out.append(&mut bytes);
            i = i + 1;
        }
        let ghost full = out@;
        if entry.file_size < out.len() as u64 {
            out.truncate(entry.file_size as usize);
        }
        proof {
            if entry.file_size != 0 {
                assert(out@ =~= full.take(
                    if entry.file_size < full.len() {
                        entry.file_size as int
                    } else {
                        full.len() as int
                    },
                ));
            }
        }
        Ok(out)
    }

    /// The data clusters whose FAT entry is zero, merged into runs; a
    /// cluster whose entry cannot be read counts as in use. Only cluster
    /// numbers a 28-bit entry can hold are looked at.
    fn free_space_ranges<S: ByteSource>(&self, source: &S) -> (r: Result<
        Vec<(u64, u64)>,
        DomainError,
    >)
        ensures
            r is Ok,
            r matches Ok(v) ==> forall|j: int, k: int|
                0 <= j < k < v@.len() ==> #[trigger] v@[j].1 <= #[trigger] v@[k].0,
            r matches Ok(v) ==> exists|runs: Seq<(int, int)>|
                #[trigger] fat_ranges_ok(
                    source.spec_content(),
                    self.spec_boot_sector(),
                    source.spec_faultless(),
                    runs_int(v@),
                    runs,
                ),
    {
        let ghost content = source.spec_content();
        let ghost bs = self.boot_sector;
        let ghost free = fat_free_pred(content, bs);
        let ghost exact = source.spec_faultless();
        let end = self.scan_end();
        let mut runs: Vec<(u64, u64)> = Vec::new();
        let mut open_at: Option<u64> = None;
        let mut c: u64 = 2;
        proof {
            lemma_coalesce_start(free, 2, end as int, exact);
        }
        while c < end
            invariant
                content == source.spec_content(),
                bs == self.boot_sector,
                exact == source.spec_faultless(),
                free == fat_free_pred(content, bs),
                end == fat_scan_end(bs),
                2 <= c <= end,
                end <= 0x1000_0000,
                coalesce_inv(runs@, open_at, c as int, free, 2, end as int, exact),
            decreases end - c,
        {
            let is_free = match read_fat_entry(source, &self.boot_sector, c as u32) {
                Ok(entry) => entry == 0,
                Err(_) => false,
            };
            open_at = coalesce_step(&mut runs, open_at, c, is_free, Ghost(free), Ghost(2int), Ghost(end as int), Ghost(exact));
            c = c + 1;
        }
        coalesce_finish(&mut runs, open_at, end, Ghost(free), Ghost(2int), Ghost(exact));
        let mut ranges: Vec<(u64, u64)> = Vec::new();
        let mut i: usize = 0;
        while i < runs.len()
            invariant
                bs == self.boot_sector,
                i <= runs@.len(),
                end == fat_scan_end(bs),
                end <= 0x1000_0000,
                runs_all_free(runs_int(runs@), free, 2, end as int),
                runs_int(ranges@) == fat_byte_ranges(bs, runs_int(runs@).take(i as int)),
                forall|j: int| 0 <= j < ranges@.len() ==> ranges@[j].0 <= ranges@[j].1,
                runs_ordered(runs_int(runs@)),
                ranges@.len() == i,
                forall|j: int, k: int| 0 <= j < k < ranges@.len() ==> #[trigger] ranges@[j].1 <= #[trigger] ranges@[k].0,
                i > 0 ==> ranges@.last().1 == bs.spec_cluster_offset(runs@[i - 1].1 as int),
            decreases runs.len() - i,
        {
            let (s, e) = runs[i];
            proof {
                assert(runs_int(runs@)[i as int] == (s as int, e as int));
                assert(2 <= s < e <= end);
            }
            let start = self.boot_sector.cluster_offset(s as u32);
            let stop = self.boot_sector.cluster_offset(e as u32);
            proof {
                let cs = bs.spec_cluster_size_bytes();
                assert((s - 2) * cs <= (e - 2) * cs) by (nonlinear_arith)
                    requires
                        s <= e,
                        cs >= 0,
                ;
                if i > 0 {
                    let pe = runs@[i - 1].1 as int;
                    assert(runs_int(runs@)[i - 1] == (runs@[i - 1].0 as int, pe));
                    assert(pe < s);
                    assert((pe - 2) * cs <= (s - 2) * cs) by (nonlinear_arith)
                        requires
                            pe <= s,
                            cs >= 0,
                    ;
                }
            }
            let ghost before = ranges@;
            ranges.push((start, stop));
            proof {
                assert forall|j: int, k: int| 0 <= j < k < ranges@.len() implies #[trigger] ranges@[j].1 <= #[trigger] ranges@[k].0 by {
                    if k == i {
                        assert(ranges@[j] == before[j]);
                        if j < i - 1 {
                            assert(before[j].1 <= before[i - 1].0);
                        }
                    } else {
                        assert(ranges@[j] == before[j]);
                        assert(ranges@[k] == before[k]);
                    }
                }
                assert(runs_int(ranges@) =~= runs_int(before).push((start as int, stop as int)));
                assert(fat_byte_ranges(bs, runs_int(runs@).take(i as int).push((s as int, e as int))) =~= fat_byte_ranges(bs, runs_int(runs@).take(i as int)).push((bs.spec_cluster_offset(s as int), bs.spec_cluster_offset(e as int))));
                assert(runs_int(runs@).take(i as int + 1) =~= runs_int(runs@).take(i as int).push((s as int, e as int)));
                assert(runs_int(ranges@) =~= fat_byte_ranges(bs, runs_int(runs@).take(i as int + 1)));
            }
            i = i + 1;
        }
        proof {
            assert(runs_int(runs@).take(runs@.len() as int) =~= runs_int(runs@));
            let w = runs_int(runs@);
            assert(runs_all_free(w, free, 2, end as int));
            assert(runs_ordered(w));
            assert(runs_int(ranges@) == fat_byte_ranges(bs, w));
            assert(fat_ranges_ok(content, bs, exact, runs_int(ranges@), w));
            assert(bs == self.spec_boot_sector());
            assert(fat_ranges_ok(source.spec_content(), self.spec_boot_sector(), source.spec_faultless(), runs_int(ranges@), w));
        }
        let ghost w = runs_int(runs@);
        let r: Result<Vec<(u64, u64)>, DomainError> = Ok(ranges);
        proof {
            match &r {
                Ok(v) => {
                    assert(v@ == ranges@);
                    assert(fat_ranges_ok(source.spec_content(), self.spec_boot_sector(), source.spec_faultless(), runs_int(v@), w));
                },
                Err(_) => {},
            }
        }
        r
    }
}

} // verus!
