//! The FAT32 boot sector / BIOS Parameter Block: the first 512 bytes of a
//! FAT32 volume, which say where the FATs, the root directory and the
//! data area live.

use crate::bytes::{le16, le32, read_u16_le, read_u32_le};
use crate::error::DomainError;
use crate::source::{ByteSource, is_out_of_bounds};
use crate::text::{boot_signature_message, field_mismatch_message, utf8_lossy};
use vstd::prelude::*;

verus! {

/// The layout fields of a FAT32 boot sector.
#[derive(Debug, Clone, Copy, PartialEq, Eq, Structural)]
pub struct Fat32BootSector {
    pub bytes_per_sector: u16,
    pub sectors_per_cluster: u8,
    pub reserved_sector_count: u16,
    pub num_fats: u8,
    pub fat_size_32: u32,
    pub root_cluster: u32,
    pub total_sectors: u32,
}

/// The bytes of "FAT32   ", the FilSysType field of a FAT32 boot sector.
pub open spec fn fat32_type_field() -> Seq<u8> {
    seq![0x46u8, 0x41, 0x54, 0x33, 0x32, 0x20, 0x20, 0x20]
}

/// The boot sector that sector bytes `s` (at least 512) describe, or
/// `None` when the 0x55AA signature, the extended boot signature 0x29 at
/// 0x42, or the "FAT32   " type at 0x52 is missing.
pub open spec fn spec_fat32_boot_sector(s: Seq<u8>) -> Option<Fat32BootSector> {
    if s[510] != 0x55 || s[511] != 0xAA {
        None
    } else if s[0x42] != 0x29 {
        None
    } else if s.subrange(0x52, 0x5A) != fat32_type_field() {
        None
    } else {
        let total16 = le16(s, 0x13);
        Some(
            Fat32BootSector {
                bytes_per_sector: le16(s, 0x0B) as u16,
                sectors_per_cluster: s[0x0D],
                reserved_sector_count: le16(s, 0x0E) as u16,
                num_fats: s[0x10],
                fat_size_32: le32(s, 0x24) as u32,
                root_cluster: le32(s, 0x2C) as u32,
                total_sectors: if total16 != 0 {
                    total16 as u32
                } else {
                    le32(s, 0x20) as u32
                },
            },
        )
    }
}

/// What parsing a boot sector from a source of `content` may return: the
/// spec's sector when the first 512 bytes are valid, `NotFat32` when they
/// are not, and a source error only when the source is shorter than 512
/// bytes (out of bounds) or fails to read.
pub open spec fn boot_parse_ok<T>(
    content: Seq<u8>,
    faultless: bool,
    spec: Option<T>,
    r: Result<T, DomainError>,
) -> bool {
    &&& content.len() < 512 ==> (r matches Err(DomainError::ByteSource(e)) && is_out_of_bounds(e))
    &&& content.len() >= 512 ==> match r {
        Ok(v) => spec == Some(v),
        Err(DomainError::NotFat32(_)) => spec is None,
        Err(DomainError::ByteSource(e)) => !faultless && !is_out_of_bounds(e),
        Err(DomainError::DirEntry(_)) => false,
    }
}

proof fn lemma_mul_bound(a: int, b: int, amax: int, bmax: int)
    requires
        0 <= a <= amax,
        0 <= b <= bmax,
    ensures
        0 <= a * b <= amax * bmax,
{
    assert(0 <= a * b <= amax * bmax) by (nonlinear_arith)
        requires
            0 <= a <= amax,
            0 <= b <= bmax,
    ;
}

impl Fat32BootSector {
    /// Reads and checks the boot sector at the start of `source`.
    pub fn parse<S: ByteSource>(source: &S) -> (r: Result<Fat32BootSector, DomainError>)
        ensures
            boot_parse_ok(
                source.spec_content(),
                source.spec_faultless(),
                if source.spec_content().len() >= 512 {
                    spec_fat32_boot_sector(source.spec_content().take(512))
                } else {
                    None
                },
                r,
            ),
    {
        let sector = match source.read_vec(0, 512) {
            Ok(s) => s,
            Err(e) => {
                return Err(DomainError::ByteSource(e));
            },
        };
        proof {
            assert(sector@ =~= source.spec_content().take(512));
        }
        // The boot signature must be present whatever the filesystem.
        if sector[510] != 0x55 || sector[511] != 0xAA {
            return Err(DomainError::NotFat32("missing 0x55AA boot sector signature".to_string()));
        }
        // "FAT32   " lives at 0x52 when the extended boot signature at 0x42
        // is 0x29, marking the extended BPB fields as present.
        let boot_sig = sector[0x42];
        if boot_sig != 0x29 {
            return Err(DomainError::NotFat32(boot_signature_message(boot_sig)));
        }
        let expected: [u8; 8] = [0x46, 0x41, 0x54, 0x33, 0x32, 0x20, 0x20, 0x20];
        let mut i: usize = 0;
        while i < 8
            invariant
                i <= 8,
                sector@.len() == 512,
                source.spec_content().len() >= 512,
                sector@ == source.spec_content().take(512),
                expected@ == fat32_type_field(),
                forall|j: int| 0 <= j < i ==> sector@[0x52 + j] == expected@[j],
            decreases 8 - i,
        {
            if sector[0x52 + i] != expected[i] {
                proof {
                    assert(sector@.subrange(0x52, 0x5A)[i as int] != fat32_type_field()[i as int]);
                    assert(sector@.subrange(0x52, 0x5A) != fat32_type_field());
                    assert(spec_fat32_boot_sector(sector@) is None);
                }
                let found = utf8_lossy(&sector.as_slice()[0x52..0x5A]);
                let msg = field_mismatch_message("FilSysType field", "FAT32   ", found.as_str());
                proof {
                    assert(source.spec_content().len() >= 512);
                    assert(spec_fat32_boot_sector(source.spec_content().take(512)) is None);
                }
                return Err(DomainError::NotFat32(msg));
            }
            i = i + 1;
        }
        proof {
            assert(sector@.subrange(0x52, 0x5A) =~= fat32_type_field());
        }
        let bytes_per_sector = read_u16_le(sector.as_slice(), 0x0B);
        let sectors_per_cluster = sector[0x0D];
        let reserved_sector_count = read_u16_le(sector.as_slice(), 0x0E);
        let num_fats = sector[0x10];
        let total_sectors_16 = read_u16_le(sector.as_slice(), 0x13);
        let total_sectors_32 = read_u32_le(sector.as_slice(), 0x20);
        // A volume that fits in 16 bits of sectors keeps its count in
        // TotSec16, with TotSec32 zero; otherwise the reverse.
        let total_sectors = if total_sectors_16 != 0 {
            total_sectors_16 as u32
        } else {
            total_sectors_32
        };
        let fat_size_32 = read_u32_le(sector.as_slice(), 0x24);
        let root_cluster = read_u32_le(sector.as_slice(), 0x2C);
        proof {
            assert(sector@ =~= source.spec_content().take(512));
        }
        Ok(
            Fat32BootSector {
                bytes_per_sector,
                sectors_per_cluster,
                reserved_sector_count,
                num_fats,
                fat_size_32,
                root_cluster,
                total_sectors,
            },
        )
    }

    /// Byte offset of the first FAT.
    pub open spec fn spec_fat_start_offset(&self) -> int {
        self.reserved_sector_count * self.bytes_per_sector
    }

    /// Byte offset of the data area: past the reserved region and all
    /// `num_fats` copies of the FAT.
    pub open spec fn spec_data_area_offset(&self) -> int {
        self.spec_fat_start_offset() + self.num_fats * self.fat_size_32 * self.bytes_per_sector
    }

    /// Size of one cluster in bytes.
    pub open spec fn spec_cluster_size_bytes(&self) -> int {
        self.sectors_per_cluster * self.bytes_per_sector
    }

    /// Byte offset of cluster `cluster` (numbering starts at 2).
    pub open spec fn spec_cluster_offset(&self, cluster: int) -> int {
        self.spec_data_area_offset() + (cluster - 2) * self.spec_cluster_size_bytes()
    }

    /// Byte offset where the first FAT table begins.
    pub fn fat_start_offset(&self) -> (r: u64)
        ensures
            r == self.spec_fat_start_offset(),
            r <= 0xFFFF * 0xFFFF,
    {
        proof {
            lemma_mul_bound(self.reserved_sector_count as int, self.bytes_per_sector as int, 0xFFFF, 0xFFFF);
        }
        self.reserved_sector_count as u64 * self.bytes_per_sector as u64
    }

    /// Byte offset where the data area (cluster 2 onward) begins.
    pub fn data_area_offset(&self) -> (r: u64)
        ensures
            r == self.spec_data_area_offset(),
            r <= 0xFFFF * 0xFFFF + 0xFF * 0xFFFF_FFFF * 0xFFFF,
    {
        proof {
            lemma_mul_bound(self.num_fats as int, self.fat_size_32 as int, 0xFF, 0xFFFF_FFFF);
            lemma_mul_bound(
                self.num_fats as int * self.fat_size_32 as int,
                self.bytes_per_sector as int,
                0xFFint * 0xFFFF_FFFF,
                0xFFFF,
            );
        }
        self.fat_start_offset() + (self.num_fats as u64 * self.fat_size_32 as u64
            * self.bytes_per_sector as u64)
    }

    /// Size in bytes of one cluster.
    pub fn cluster_size_bytes(&self) -> (r: u64)
        ensures
            r == self.spec_cluster_size_bytes(),
            r <= 0xFF * 0xFFFF,
    {
        proof {
            lemma_mul_bound(self.sectors_per_cluster as int, self.bytes_per_sector as int, 0xFF, 0xFFFF);
        }
        self.sectors_per_cluster as u64 * self.bytes_per_sector as u64
    }

    /// Byte offset of the start of `cluster`. Cluster numbers start at 2;
    /// 0 and 1 are reserved.
    pub fn cluster_offset(&self, cluster: u32) -> (r: u64)
        requires
            cluster >= 2,
        ensures
            r == self.spec_cluster_offset(cluster as int),
    {
        let base = self.data_area_offset();
        let size = self.cluster_size_bytes();
        proof {
            lemma_mul_bound((cluster - 2) as int, size as int, 0xFFFF_FFFF, 0xFFint * 0xFFFF);
        }
        base + (cluster as u64 - 2) * size
    }
}

} // verus!
