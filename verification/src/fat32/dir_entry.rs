//! 32-byte FAT directory entries, and how to tell a deleted one.
//!
//! Deleting a file does not erase its directory entry: only the first byte
//! of the name is overwritten with 0xE5. The rest of the name, the first
//! cluster and the size survive, which is what makes recovery possible.
//! Only short (8.3) names are handled.

use crate::bytes::{le16, le32, read_u16_le, read_u32_le};
use crate::text::{trim_end, trim_end_of, utf8_lossy, utf8_lossy_decode};
use vstd::prelude::*;

verus! {

/// First name byte of a deleted entry.
pub const DELETED_MARKER: u8 = 0xE5;

/// First name byte of the first unused slot: the directory ends here.
pub const END_OF_DIRECTORY: u8 = 0x00;

/// Attribute value of a long-filename fragment.
pub const ATTR_LONG_NAME: u8 = 0x0F;

/// Attribute value of a volume label.
pub const ATTR_VOLUME_ID: u8 = 0x08;

/// Attribute bit of a directory.
pub const ATTR_DIRECTORY: u8 = 0x10;

/// The fields of a short-name directory entry.
#[derive(Debug, Clone, Copy)]
pub struct RawDirEntry {
    pub raw_name: [u8; 11],
    pub attr: u8,
    pub first_cluster: u32,
    pub file_size: u32,
    pub is_deleted: bool,
}

/// What one 32-byte slot holds.
#[derive(Debug, Clone, Copy)]
pub enum EntrySlot {
    /// First byte 0x00: this slot and every later one are unused.
    EndOfDirectory,
    /// A long-filename fragment or volume label: not a file.
    Skip,
    /// A file or directory entry.
    Entry(RawDirEntry),
}

/// `e` holds the fields of slot bytes `b`.
pub open spec fn entry_fields(b: Seq<u8>, e: RawDirEntry) -> bool {
    &&& e.raw_name@ == b.subrange(0, 11)
    &&& e.attr == b[11]
    &&& e.first_cluster == le16(b, 20) * 65536 + le16(b, 26)
    &&& e.file_size == le32(b, 28)
    &&& e.is_deleted == (b[0] == DELETED_MARKER)
}

/// `slot` is what slot bytes `b` hold.
pub open spec fn slot_of(b: Seq<u8>, slot: EntrySlot) -> bool {
    if b[0] == END_OF_DIRECTORY {
        slot is EndOfDirectory
    } else if b[11] == ATTR_LONG_NAME || b[11] == ATTR_VOLUME_ID {
        slot is Skip
    } else {
        slot matches EntrySlot::Entry(e) && entry_fields(b, e)
    }
}

/// Parses one 32-byte directory slot.
pub fn parse_entry(bytes: &[u8; 32]) -> (r: EntrySlot)
    ensures
        slot_of(bytes@, r),
{
    if bytes[0] == END_OF_DIRECTORY {
        return EntrySlot::EndOfDirectory;
    }
    let attr = bytes[11];
    if attr == ATTR_LONG_NAME || attr == ATTR_VOLUME_ID {
        return EntrySlot::Skip;
    }
    let is_deleted = bytes[0] == DELETED_MARKER;
    let raw_name: [u8; 11] = [
        bytes[0],
        bytes[1],
        bytes[2],
        bytes[3],
        bytes[4],
        bytes[5],
        bytes[6],
        bytes[7],
        bytes[8],
        bytes[9],
        bytes[10],
    ];
    let cluster_hi = read_u16_le(bytes.as_slice(), 20);
    let cluster_lo = read_u16_le(bytes.as_slice(), 26);
    let first_cluster = (cluster_hi as u32) * 65536 + cluster_lo as u32;
    let file_size = read_u32_le(bytes.as_slice(), 28);
    proof {
        assert(raw_name@ =~= bytes@.subrange(0, 11));
    }
    EntrySlot::Entry(RawDirEntry { raw_name, attr, first_cluster, file_size, is_deleted })
}

/// The 8-byte name part of an 11-byte raw name as displayed: a deleted
/// entry's lost first character shows as `_`.
pub open spec fn shown_name_bytes(raw: Seq<u8>, deleted: bool) -> Seq<u8> {
    if deleted {
        raw.subrange(0, 8).update(0, 0x5F)
    } else {
        raw.subrange(0, 8)
    }
}

/// "NAME.EXT" for an 11-byte raw name: both parts decoded and
/// right-trimmed, the dot left out when the extension is empty.
pub open spec fn name_from_raw(raw: Seq<u8>, deleted: bool) -> Seq<char> {
    joined_name(
        trim_end_of(utf8_lossy_decode(shown_name_bytes(raw, deleted))),
        trim_end_of(utf8_lossy_decode(raw.subrange(8, 11))),
    )
}

/// A name part and an extension joined by a dot, the dot left out when
/// the extension is empty.
pub open spec fn joined_name(name: Seq<char>, ext: Seq<char>) -> Seq<char> {
    if ext.len() == 0 {
        name
    } else {
        name + seq!['.'] + ext
    }
}

/// Joins a decoded, trimmed name part and extension as "NAME.EXT", or
/// "NAME" when the extension is empty.
pub fn join_name_and_extension(name: String, ext: &str) -> (r: String)
    ensures
        r@ == joined_name(name@, ext@),
{
    if ext.is_empty() {
        name
    } else {
        let with_dot = name.concat(".");
        let full = with_dot.concat(ext);
        proof {
            reveal_strlit(".");
            assert(full@ =~= name@ + seq!['.'] + ext@);
        }
        full
    }
}

/// "NAME.EXT" for an entry.
pub open spec fn spec_format_name(e: RawDirEntry) -> Seq<char> {
    name_from_raw(e.raw_name@, e.is_deleted)
}

/// Rebuilds a readable "NAME.EXT" from the raw 11-byte 8.3 field. The
/// first byte of a deleted entry is the 0xE5 marker; the original
/// character is gone, and is rendered as `_`.
pub fn format_name(entry: &RawDirEntry) -> (r: String)
    ensures
        r@ == spec_format_name(*entry),
{
    let mut name_part: [u8; 8] = [
        entry.raw_name[0],
        entry.raw_name[1],
        entry.raw_name[2],
        entry.raw_name[3],
        entry.raw_name[4],
        entry.raw_name[5],
        entry.raw_name[6],
        entry.raw_name[7],
    ];
    if entry.is_deleted {
        name_part[0] = 0x5F;
    }
    let ext_part: [u8; 3] = [entry.raw_name[8], entry.raw_name[9], entry.raw_name[10]];
    proof {
        assert(name_part@ =~= shown_name_bytes(entry.raw_name@, entry.is_deleted));
        assert(ext_part@ =~= entry.raw_name@.subrange(8, 11));
    }
    let name_full = utf8_lossy(name_part.as_slice());
    let name = trim_end(name_full.as_str());
    let ext_full = utf8_lossy(ext_part.as_slice());
    let ext = trim_end(ext_full.as_str());
    join_name_and_extension(name, ext.as_str())
}

} // verus!
