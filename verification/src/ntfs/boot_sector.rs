//! The NTFS boot sector: the first 512 bytes of an NTFS volume.
//!
//! Unlike FAT32's, it does not describe the volume's layout. It says where
//! the Master File Table (`$MFT`) starts; the MFT is itself a file,
//! described by its own first record, and every other piece of metadata
//! (directories, the free-space bitmap) is a file with an MFT record too.

use crate::bytes::{le16, le64, read_u16_le, read_u64_le};
use crate::error::DomainError;
use crate::source::{ByteSource, is_out_of_bounds};
use crate::text::{field_mismatch_message, utf8_lossy};
use vstd::arithmetic::power2::pow2;
use vstd::prelude::*;

verus! {

/// The layout fields of an NTFS boot sector.
#[derive(Debug, Clone, Copy, PartialEq, Eq, Structural)]
pub struct NtfsBootSector {
    pub bytes_per_sector: u16,
    pub sectors_per_cluster: u8,
    pub total_sectors: u64,
    /// Cluster number where the `$MFT`'s own first record (record 0) sits.
    pub mft_cluster_number: u64,
    /// Size in bytes of one MFT record, usually 1024.
    pub mft_record_size: u32,
}

/// The bytes of "NTFS    ", the OEM ID of an NTFS boot sector.
pub open spec fn ntfs_oem_id() -> Seq<u8> {
    seq![0x4Eu8, 0x54, 0x46, 0x53, 0x20, 0x20, 0x20, 0x20]
}

/// The clusters-per-record byte at 0x40 read as a signed number.
pub open spec fn record_size_code(s: Seq<u8>) -> int {
    if s[0x40] < 128 {
        s[0x40] as int
    } else {
        s[0x40] - 256
    }
}

/// What sector bytes `s` (at least 512) hold: `None` when the 0x55AA
/// signature or the "NTFS    " OEM ID is missing; `Some(None)` when the
/// record size is given as a power of two too large for 32 bits;
/// otherwise the boot sector. A positive size code counts clusters per
/// record; a negative one `-n` means records of 2^n bytes.
pub open spec fn spec_ntfs_boot_sector(s: Seq<u8>) -> Option<Option<NtfsBootSector>> {
    if s[510] != 0x55 || s[511] != 0xAA {
        None
    } else if s.subrange(3, 11) != ntfs_oem_id() {
        None
    } else {
        let bps = le16(s, 0x0B);
        let spc = s[0x0D] as int;
        let code = record_size_code(s);
        if code <= -32 {
            Some(None)
        } else {
            Some(
                Some(
                    NtfsBootSector {
                        bytes_per_sector: bps as u16,
                        sectors_per_cluster: s[0x0D],
                        total_sectors: le64(s, 0x28) as u64,
                        mft_cluster_number: le64(s, 0x30) as u64,
                        mft_record_size: if code > 0 {
                            (code * spc * bps) as u32
                        } else {
                            pow2((-code) as nat) as u32
                        },
                    },
                ),
            )
        }
    }
}

/// What parsing may return from a source of `content`: the boot sector
/// when the first 512 bytes are valid, `NotFat32` when they are not NTFS,
/// `DirEntry` when the record size cannot be represented, and a source
/// error only when the source is shorter than 512 bytes (out of bounds)
/// or fails to read.
pub open spec fn ntfs_parse_ok(content: Seq<u8>, faultless: bool, r: Result<NtfsBootSector, DomainError>) -> bool {
    &&& content.len() < 512 ==> (r matches Err(DomainError::ByteSource(e)) && is_out_of_bounds(e))
    &&& content.len() >= 512 ==> {
        let spec = spec_ntfs_boot_sector(content.take(512));
        match r {
            Ok(v) => spec == Some(Some(v)),
            Err(DomainError::NotFat32(_)) => spec is None,
            Err(DomainError::DirEntry(_)) => spec == Some(None::<NtfsBootSector>),
            Err(DomainError::ByteSource(e)) => !faultless && !is_out_of_bounds(e),
        }
    }
}

impl NtfsBootSector {
    /// Reads and checks the boot sector at the start of `source`.
    pub fn parse<S: ByteSource>(source: &S) -> (r: Result<NtfsBootSector, DomainError>)
        ensures
            ntfs_parse_ok(source.spec_content(), source.spec_faultless(), r),
    {
        let sector = match source.read_vec(0, 512) {
            Ok(s) => s,
            Err(e) => {
                return Err(DomainError::ByteSource(e));
            },
        };
        proof {
            assert(sector@ =~= source.spec_content().take(512));
        }
        if sector[510] != 0x55 || sector[511] != 0xAA {
            return Err(DomainError::NotFat32("missing 0x55AA boot sector signature".to_string()));
        }
        let expected: [u8; 8] = [0x4E, 0x54, 0x46, 0x53, 0x20, 0x20, 0x20, 0x20];
        let mut i: usize = 0;
        while i < 8
            invariant
                i <= 8,
                sector@.len() == 512,
                source.spec_content().len() >= 512,
                sector@ == source.spec_content().take(512),
                expected@ == ntfs_oem_id(),
                forall|j: int| 0 <= j < i ==> sector@[3 + j] == expected@[j],
            decreases 8 - i,
        {
            if sector[3 + i] != expected[i] {
                proof {
                    assert(sector@.subrange(3, 11)[i as int] != ntfs_oem_id()[i as int]);
                    assert(sector@.subrange(3, 11) != ntfs_oem_id());
                    assert(source.spec_content().len() >= 512);
                    assert(spec_ntfs_boot_sector(source.spec_content().take(512)) is None);
                }
                let found = utf8_lossy(&sector.as_slice()[3..11]);
                let msg = field_mismatch_message("OEM ID", "NTFS    ", found.as_str());
                return Err(DomainError::NotFat32(msg));
            }
            i = i + 1;
        }
        proof {
            assert(sector@.subrange(3, 11) =~= ntfs_oem_id());
        }
        let bytes_per_sector = read_u16_le(sector.as_slice(), 0x0B);
        let sectors_per_cluster = sector[0x0D];
        let total_sectors = read_u64_le(sector.as_slice(), 0x28);
        let mft_cluster_number = read_u64_le(sector.as_slice(), 0x30);
        // Clusters-per-record is a signed byte whose meaning flips with
        // its sign: positive counts clusters per record, negative -n
        // means records of 2^n bytes (smaller than a cluster).
        let code = sector[0x40];
        let mft_record_size: u32 = if 0 < code && code < 128 {
            proof {
                assert(code as int * sectors_per_cluster as int * bytes_per_sector as int <= 127 * 255
                    * 65535) by (nonlinear_arith)
                    requires
                        code <= 127,
                        sectors_per_cluster <= 255,
                        bytes_per_sector <= 65535,
                ;
                assert(code as int * sectors_per_cluster as int <= 127 * 255) by (nonlinear_arith)
                    requires
                        code <= 127,
                        sectors_per_cluster <= 255,
                ;
            }
            code as u32 * sectors_per_cluster as u32 * bytes_per_sector as u32
        } else {
            let shift: u32 = if code == 0 {
                0
            } else {
                256 - code as u32
            };
            if shift > 31 {
                return Err(DomainError::DirEntry(
                    "MFT record size exponent does not fit in 32 bits".to_string(),
                ));
            }
            proof {
                vstd::bits::lemma_u32_pow2_no_overflow(shift as nat);
                vstd::bits::lemma_u32_shl_is_mul(1, shift);
            }
            1u32 << shift
        };
        proof {
            assert(sector@ =~= source.spec_content().take(512));
        }
        Ok(
            NtfsBootSector {
                bytes_per_sector,
                sectors_per_cluster,
                total_sectors,
                mft_cluster_number,
                mft_record_size,
            },
        )
    }

    /// Bytes per cluster.
    pub open spec fn spec_cluster_size_bytes(&self) -> int {
        self.sectors_per_cluster * self.bytes_per_sector
    }

    /// Size in bytes of one cluster.
    pub fn cluster_size_bytes(&self) -> (r: u64)
        ensures
            r == self.spec_cluster_size_bytes(),
            r <= 0xFF * 0xFFFF,
    {
        proof {
            assert(self.sectors_per_cluster as int * self.bytes_per_sector as int <= 0xFF * 0xFFFF) by (nonlinear_arith)
                requires
                    self.sectors_per_cluster <= 0xFF,
                    self.bytes_per_sector <= 0xFFFF,
            ;
        }
        self.sectors_per_cluster as u64 * self.bytes_per_sector as u64
    }

    /// Byte offset of the start of logical cluster `lcn`. NTFS numbers
    /// clusters from 0.
    pub fn cluster_offset(&self, lcn: u64) -> (r: u64)
        requires
            lcn * self.spec_cluster_size_bytes() <= u64::MAX,
        ensures
            r == lcn * self.spec_cluster_size_bytes(),
    {
        lcn * self.cluster_size_bytes()
    }

    /// Byte offset of MFT record 0.
    pub fn mft_start_offset(&self) -> (r: u64)
        requires
            self.mft_cluster_number * self.spec_cluster_size_bytes() <= u64::MAX,
        ensures
            r == self.mft_cluster_number * self.spec_cluster_size_bytes(),
    {
        self.cluster_offset(self.mft_cluster_number)
    }
}

} // verus!
