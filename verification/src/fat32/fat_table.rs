//! The File Allocation Table: a flat array of 4-byte entries, one per
//! cluster, holding the number of the next cluster of the same file or
//! directory. Following it gives every cluster of a live chain in order.
//! A deleted file's chain is usually zeroed by the delete, which is why
//! file recovery itself does not follow chains.

use crate::bytes::{le32, read_u32_le};
use crate::error::DomainError;
use crate::fat32::boot_sector::Fat32BootSector;
use crate::source::{ByteSource, is_out_of_bounds};
use std::collections::HashSet;
use vstd::prelude::*;

verus! {

/// Entries are 32 bits but only the low 28 carry a value.
pub const FAT32_ENTRY_MODULUS: u32 = 0x1000_0000;

/// Entries at or above this end a chain.
pub const END_OF_CHAIN_MIN: u32 = 0x0FFF_FFF8;

/// This entry marks a bad (unreadable) cluster.
pub const BAD_CLUSTER: u32 = 0x0FFF_FFF7;

/// Longest chain followed: a guard against corrupted or crafted images.
pub const MAX_CHAIN_CLUSTERS: usize = 1_000_000;

/// Disk offset of the FAT entry of `cluster`.
pub open spec fn fat_entry_offset(bs: Fat32BootSector, cluster: int) -> int {
    bs.spec_fat_start_offset() + cluster * 4
}

/// Whether the FAT entry of `cluster` lies inside the source.
pub open spec fn fat_entry_readable(content: Seq<u8>, bs: Fat32BootSector, cluster: int) -> bool {
    fat_entry_offset(bs, cluster) + 4 <= content.len()
}

/// The FAT entry of `cluster`, its top 4 bits cleared.
pub open spec fn fat_entry(content: Seq<u8>, bs: Fat32BootSector, cluster: int) -> int {
    le32(content, fat_entry_offset(bs, cluster)) % (FAT32_ENTRY_MODULUS as int)
}

/// An entry that ends a chain: end-of-chain, free, or bad.
pub open spec fn ends_chain(entry: int) -> bool {
    entry >= END_OF_CHAIN_MIN || entry == 0 || entry == BAD_CLUSTER
}

/// The chain continuing from `cur` after the clusters `acc`: it stops at a
/// reserved cluster number (below 2), at a cluster already in the chain (a
/// cycle), at `MAX_CHAIN_CLUSTERS` clusters, or after a cluster whose entry
/// ends the chain. `None` when an entry it needs lies outside the source.
pub open spec fn chain_walk(content: Seq<u8>, bs: Fat32BootSector, cur: int, acc: Seq<u32>) -> Option<
    Seq<u32>,
>
    decreases MAX_CHAIN_CLUSTERS - acc.len(),
{
    if cur < 2 || cur > u32::MAX || acc.contains(cur as u32) || acc.len() >= MAX_CHAIN_CLUSTERS {
        Some(acc)
    } else {
        let next = acc.push(cur as u32);
        if next.len() >= MAX_CHAIN_CLUSTERS {
            Some(next)
        } else if !fat_entry_readable(content, bs, cur) {
            None
        } else if ends_chain(fat_entry(content, bs, cur)) {
            Some(next)
        } else {
            chain_walk(content, bs, fat_entry(content, bs, cur), next)
        }
    }
}

/// The cluster chain starting at `start`.
pub open spec fn spec_chain(content: Seq<u8>, bs: Fat32BootSector, start: int) -> Option<Seq<u32>> {
    chain_walk(content, bs, start, seq![])
}

/// Reads the FAT entry of `cluster`, its top 4 bits cleared.
pub fn read_fat_entry<S: ByteSource>(source: &S, boot_sector: &Fat32BootSector, cluster: u32) -> (r:
    Result<u32, DomainError>)
    ensures
        r matches Ok(v) ==> fat_entry_readable(source.spec_content(), *boot_sector, cluster as int)
            && v == fat_entry(source.spec_content(), *boot_sector, cluster as int),
        !fat_entry_readable(source.spec_content(), *boot_sector, cluster as int) ==> (r matches Err(
            DomainError::ByteSource(e),
        ) && is_out_of_bounds(e)),
        r matches Err(e) ==> e is ByteSource,
        fat_entry_readable(source.spec_content(), *boot_sector, cluster as int)
            && source.spec_faultless() ==> r is Ok,
        r matches Ok(v) ==> v < FAT32_ENTRY_MODULUS,
{
    let offset = boot_sector.fat_start_offset() + cluster as u64 * 4;
    let bytes = match source.read_vec(offset, 4) {
        Ok(b) => b,
        Err(e) => {
            return Err(DomainError::ByteSource(e));
        },
    };
    let raw = read_u32_le(bytes.as_slice(), 0);
    proof {
        assert(bytes@ =~= source.spec_content().subrange(offset as int, offset + 4));
        assert(le32(bytes@, 0) == le32(source.spec_content(), offset as int));
    }
    Ok(raw % FAT32_ENTRY_MODULUS)
}

proof fn lemma_chain_shape(content: Seq<u8>, bs: Fat32BootSector, cur: int, acc: Seq<u32>)
    requires
        acc.no_duplicates(),
        forall|i: int| 0 <= i < acc.len() ==> acc[i] >= 2,
        acc.len() <= MAX_CHAIN_CLUSTERS,
    ensures
        chain_walk(content, bs, cur, acc) matches Some(c) ==> {
            &&& c.no_duplicates()
            &&& forall|i: int| 0 <= i < c.len() ==> c[i] >= 2
            &&& c.len() <= MAX_CHAIN_CLUSTERS
            &&& acc.len() <= c.len()
            &&& c.subrange(0, acc.len() as int) == acc
        },
    decreases MAX_CHAIN_CLUSTERS - acc.len(),
{
    if !(cur < 2 || cur > u32::MAX || acc.contains(cur as u32) || acc.len() >= MAX_CHAIN_CLUSTERS) {
        let next = acc.push(cur as u32);
        assert(next.no_duplicates()) by {
            assert forall|i: int, j: int| 0 <= i < j < next.len() implies next[i] != next[j] by {
                if j == next.len() - 1 {
                    assert(acc[i] == next[i]);
                }
            }
        }
        if next.len() < MAX_CHAIN_CLUSTERS && fat_entry_readable(content, bs, cur) && !ends_chain(
            fat_entry(content, bs, cur),
        ) {
            lemma_chain_shape(content, bs, fat_entry(content, bs, cur), next);
            if let Some(c) = chain_walk(content, bs, cur, acc) {
                assert(c.subrange(0, acc.len() as int) =~= c.subrange(0, next.len() as int).subrange(
                    0,
                    acc.len() as int,
                ));
                assert(next.subrange(0, acc.len() as int) =~= acc);
            }
        } else {
            assert(next.subrange(0, acc.len() as int) =~= acc);
        }
    } else {
        assert(acc.subrange(0, acc.len() as int) =~= acc);
    }
}

/// Every cluster number in the chain starting at `start_cluster`, in
/// order. Stops at end-of-chain, a free or bad entry, a cycle back to a
/// cluster already visited, or `MAX_CHAIN_CLUSTERS`, whichever comes first.
pub fn follow_chain<S: ByteSource>(source: &S, boot_sector: &Fat32BootSector, start_cluster: u32) -> (r:
    Result<Vec<u32>, DomainError>)
    ensures
        r matches Ok(v) ==> spec_chain(source.spec_content(), *boot_sector, start_cluster as int)
            == Some(v@),
        spec_chain(source.spec_content(), *boot_sector, start_cluster as int) is None
            && source.spec_faultless() ==> (r matches Err(DomainError::ByteSource(e))
            && is_out_of_bounds(e)),
        r matches Err(e) ==> e is ByteSource,
        spec_chain(source.spec_content(), *boot_sector, start_cluster as int) is Some
            && source.spec_faultless() ==> r is Ok,
        r matches Ok(v) ==> v@.no_duplicates() && v@.len() <= MAX_CHAIN_CLUSTERS && forall|i: int|
            0 <= i < v@.len() ==> v@[i] >= 2,
{
    broadcast use vstd::std_specs::hash::group_hash_axioms;

    let ghost content = source.spec_content();
    let mut clusters: Vec<u32> = Vec::new();
    let mut visited: HashSet<u32> = HashSet::new();
    let mut current = start_cluster;
    proof {
        lemma_chain_shape(content, *boot_sector, start_cluster as int, seq![]);
    }
    loop
        invariant
            content == source.spec_content(),
            spec_chain(content, *boot_sector, start_cluster as int) == chain_walk(
                content,
                *boot_sector,
                current as int,
                clusters@,
            ),
            forall|x: u32| #![trigger visited@.contains(x)] visited@.contains(x) <==> clusters@.contains(x),
            clusters@.no_duplicates(),
            forall|i: int| 0 <= i < clusters@.len() ==> clusters@[i] >= 2,
            clusters@.len() < MAX_CHAIN_CLUSTERS,
        decreases MAX_CHAIN_CLUSTERS - clusters@.len(),
    {
        if current < 2 {
            // 0 and 1 are reserved, never data clusters.
            return Ok(clusters);
        }
        let ghost before = clusters@;
        if !visited.insert(current) {
            // A cycle: corrupted FAT; stop rather than loop forever.
            return Ok(clusters);
        }
        clusters.push(current);
        proof {
            lemma_chain_shape(content, *boot_sector, current as int, before);
            assert forall|x: u32| #![trigger visited@.contains(x)] visited@.contains(x) <==> clusters@.contains(x) by {
                if x == current {
                    assert(clusters@[clusters@.len() - 1] == x);
                } else if before.contains(x) {
                    let i = choose|i: int| 0 <= i < before.len() && before[i] == x;
                    assert(clusters@[i] == x);
                } else if clusters@.contains(x) {
                    let i = choose|i: int| 0 <= i < clusters@.len() && clusters@[i] == x;
                    if i < before.len() {
                        assert(before[i] == x);
                    }
                }
            }
            assert forall|i: int, j: int| 0 <= i < j < clusters@.len() implies clusters@[i] != clusters@[j] by {
                if j == clusters@.len() - 1 {
                    assert(before[i] == clusters@[i]);
                }
            }
        }
        if clusters.len() >= MAX_CHAIN_CLUSTERS {
            return Ok(clusters);
        }
        let entry = match read_fat_entry(source, boot_sector, current) {
            Ok(e) => e,
            Err(e) => {
                return Err(e);
            },
        };
        if entry >= END_OF_CHAIN_MIN || entry == 0 || entry == BAD_CLUSTER {
            return Ok(clusters);
        }
        current = entry;
    }
}

} // verus!
