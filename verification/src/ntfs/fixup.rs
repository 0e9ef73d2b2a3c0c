//! NTFS fixups. Before writing a multi-sector record, NTFS saves the last
//! two bytes of every sector in the record's Update Sequence Array and
//! replaces them with the Update Sequence Number. A reader must put the
//! saved bytes back before parsing anything else in the record.

use crate::bytes::{le16, read_u16_le};
use crate::error::DomainError;
use vstd::prelude::*;

verus! {

/// Restores the saved bytes of sectors `i`, `i + 1`, ... of `rec`, in
/// order, stopping after sector `count - 1` or at the first sector that
/// does not fit in the record.
pub open spec fn restore_sectors(rec: Seq<u8>, usa: int, count: int, bps: int, i: int) -> Seq<u8>
    decreases count - i,
{
    if i < 1 || i >= count || i * bps > rec.len() {
        rec
    } else {
        let end = i * bps - 2;
        let saved = usa + 2 * i;
        let once = rec.update(end, rec[saved]);
        let twice = once.update(end + 1, once[saved + 1]);
        restore_sectors(twice, usa, count, bps, i + 1)
    }
}

/// The record after fixups, or `None` when its header or update sequence
/// array is malformed.
pub open spec fn spec_apply_fixups(rec: Seq<u8>, bps: int) -> Option<Seq<u8>> {
    if rec.len() < 8 {
        None
    } else {
        let usa = le16(rec, 4);
        let count = le16(rec, 6);
        if count == 0 {
            Some(rec)
        } else if usa + count * 2 > rec.len() {
            None
        } else if count >= 2 && bps < 2 {
            None
        } else {
            Some(restore_sectors(rec, usa, count, bps, 1))
        }
    }
}

proof fn lemma_restore_len(rec: Seq<u8>, usa: int, count: int, bps: int, i: int)
    requires
        0 <= usa,
        usa + count * 2 <= rec.len(),
        bps >= 2,
    ensures
        restore_sectors(rec, usa, count, bps, i).len() == rec.len(),
    decreases count - i,
{
    if !(i < 1 || i >= count || i * bps > rec.len()) {
        let end = i * bps - 2;
        assert(i * bps >= 2) by (nonlinear_arith)
            requires
                i >= 1,
                bps >= 2,
        ;
        let saved = usa + 2 * i;
        let once = rec.update(end, rec[saved]);
        let twice = once.update(end + 1, once[saved + 1]);
        lemma_restore_len(twice, usa, count, bps, i + 1);
    }
}

/// Applies fixups to `record` in place. `bytes_per_sector` is the volume's
/// sector size, the unit fixups are applied per. A mismatch between a
/// sector's last two bytes and the update sequence number is tolerated:
/// the saved bytes are restored anyway.
pub fn apply_fixups(record: &mut [u8], bytes_per_sector: usize) -> (r: Result<(), DomainError>)
    ensures
        final(record)@.len() == old(record)@.len(),
        match r {
            Ok(()) => spec_apply_fixups(old(record)@, bytes_per_sector as int) == Some(
                final(record)@,
            ),
            Err(e) => spec_apply_fixups(old(record)@, bytes_per_sector as int) is None
                && e is DirEntry && final(record)@ == old(record)@,
        },
{
    let len = record.len();
    if len < 8 {
        return Err(DomainError::DirEntry("MFT record too short for a header".to_string()));
    }
    let usa_offset = read_u16_le(record, 4) as usize;
    let usa_count = read_u16_le(record, 6) as usize;
    if usa_count == 0 {
        return Ok(());
    }
    if usa_offset + usa_count * 2 > len {
        return Err(DomainError::DirEntry(
            "update sequence array runs past end of record".to_string(),
        ));
    }
    if usa_count >= 2 && bytes_per_sector < 2 {
        return Err(DomainError::DirEntry(
            "sector size too small to hold a fixup".to_string(),
        ));
    }
    let ghost rec0 = record@;
    let ghost bps = bytes_per_sector as int;
    let mut i: usize = 1;
    while i < usa_count
        invariant
            1 <= i,
            len == record@.len(),
            len == rec0.len(),
            usa_count == le16(rec0, 6),
            usa_offset == le16(rec0, 4),
            usa_offset + usa_count * 2 <= len,
            usa_count >= 2 ==> bps >= 2,
            bps == bytes_per_sector,
            restore_sectors(rec0, usa_offset as int, usa_count as int, bps, 1)
                == restore_sectors(record@, usa_offset as int, usa_count as int, bps, i as int),
        ensures
            restore_sectors(rec0, usa_offset as int, usa_count as int, bps, 1) == record@,
        decreases usa_count - i,
    {
        assert(i * bytes_per_sector >= 2) by (nonlinear_arith)
            requires
                i >= 1,
                bytes_per_sector >= 2,
        ;
        assert((i as u128) * (bytes_per_sector as u128) <= u128::MAX) by (nonlinear_arith)
            requires
                i <= 0xFFFF,
                bytes_per_sector <= 0xFFFF_FFFF_FFFF_FFFF,
        ;
        let product = (i as u128) * (bytes_per_sector as u128);
        if product > len as u128 {
            break;
        }
        let ghost before = record@;
        let sector_end = (product - 2) as usize;
        let saved_offset = usa_offset + i * 2;
        record[sector_end] = record[saved_offset];
        record[sector_end + 1] = record[saved_offset + 1];
        proof {
            let once = before.update(sector_end as int, before[saved_offset as int]);
            let twice = once.update(sector_end + 1, once[saved_offset + 1]);
            assert(record@ =~= twice);
        }
        i = i + 1;
    }
    Ok(())
}

} // verus!
