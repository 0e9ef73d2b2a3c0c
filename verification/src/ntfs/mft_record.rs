//! One MFT record's header and attribute list.
//!
//! A record, once its fixups are applied, starts with "FILE" (or "BAAD"
//! when corrupted); the 2-byte flags at offset 22 hold bit 0 = in use and
//! bit 1 = directory, and the 2-byte value at offset 20 is the offset of
//! the first attribute. Attributes follow one another, each giving its own
//! length, until a 4-byte 0xFFFFFFFF terminator.
//!
//! Only `$FILE_NAME` (0x30: the name) and `$DATA` (0x80: where the bytes
//! live) are decoded; every other attribute is skipped by its length.

use crate::bytes::{le16, le32, le64, read_u16_le, read_u32_le, read_u64_le};
use crate::error::DomainError;
use crate::ntfs::data_runs::{DataRun, parse_data_runs, spec_data_runs};
use crate::text::{utf16_lossy, utf16_lossy_decode};
use vstd::prelude::*;

verus! {

/// Attribute type of `$FILE_NAME`.
pub const ATTR_TYPE_FILE_NAME: u32 = 0x30;

/// Attribute type of `$DATA`.
pub const ATTR_TYPE_DATA: u32 = 0x80;

/// The attribute type that ends the list.
pub const ATTR_TYPE_END: u32 = 0xFFFF_FFFF;

/// Record flag: the record describes a live file.
pub const FLAG_IN_USE: u16 = 0x0001;

/// Record flag: the record describes a directory.
pub const FLAG_DIRECTORY: u16 = 0x0002;

/// The fields of an MFT record header.
#[derive(Debug, Clone, Copy, PartialEq, Eq, Structural)]
pub struct MftRecordHeader {
    pub is_valid_file_record: bool,
    pub in_use: bool,
    pub is_directory: bool,
    pub first_attribute_offset: u16,
}

/// The header that record bytes `rec` hold: not a file record (all fields
/// false or zero) unless it is at least 24 bytes long and starts with
/// "FILE".
pub open spec fn spec_header(rec: Seq<u8>) -> MftRecordHeader {
    if rec.len() >= 24 && rec.subrange(0, 4) == seq![0x46u8, 0x49, 0x4C, 0x45] {
        let flags = le16(rec, 22) as u16;
        MftRecordHeader {
            is_valid_file_record: true,
            in_use: flags & FLAG_IN_USE != 0,
            is_directory: flags & FLAG_DIRECTORY != 0,
            first_attribute_offset: le16(rec, 20) as u16,
        }
    } else {
        MftRecordHeader {
            is_valid_file_record: false,
            in_use: false,
            is_directory: false,
            first_attribute_offset: 0,
        }
    }
}

/// Reads the header of a (fixed-up) MFT record.
pub fn parse_header(record: &[u8]) -> (r: MftRecordHeader)
    ensures
        r == spec_header(record@),
{
    let valid = record.len() >= 24 && record[0] == 0x46 && record[1] == 0x49 && record[2] == 0x4C
        && record[3] == 0x45;
    proof {
        if record@.len() >= 24 {
            assert(valid == (record@.subrange(0, 4) =~= seq![0x46u8, 0x49, 0x4C, 0x45]));
        }
    }
    if !valid {
        return MftRecordHeader {
            is_valid_file_record: false,
            in_use: false,
            is_directory: false,
            first_attribute_offset: 0,
        };
    }
    let flags = read_u16_le(record, 22);
    let first_attribute_offset = read_u16_le(record, 20);
    MftRecordHeader {
        is_valid_file_record: true,
        in_use: flags & FLAG_IN_USE != 0,
        is_directory: flags & FLAG_DIRECTORY != 0,
        first_attribute_offset,
    }
}

/// What a `$FILE_NAME` attribute says: the name and the file's size.
#[derive(Debug, Clone)]
pub struct FileNameInfo {
    pub name: String,
    pub real_size: u64,
}

impl View for FileNameInfo {
    type V = (Seq<char>, u64);

    open spec fn view(&self) -> (Seq<char>, u64) {
        (self.name@, self.real_size)
    }
}

/// Where `$DATA` lives: inside the record (its bytes), or on disk (its
/// decoded data runs).
#[derive(Debug, Clone)]
pub enum DataLocation {
    Resident(Vec<u8>),
    NonResident(Vec<DataRun>),
}

/// The plain values of a `DataLocation`.
pub enum DataModel {
    Resident(Seq<u8>),
    NonResident(Seq<DataRun>),
}

impl View for DataLocation {
    type V = DataModel;

    open spec fn view(&self) -> DataModel {
        match self {
            DataLocation::Resident(b) => DataModel::Resident(b@),
            DataLocation::NonResident(r) => DataModel::NonResident(r@),
        }
    }
}

/// The attributes of a record this library reads.
#[derive(Debug, Clone)]
pub struct ParsedAttributes {
    pub file_name: Option<FileNameInfo>,
    pub data: Option<DataLocation>,
}

/// The plain values of `ParsedAttributes`.
pub struct AttributesModel {
    pub file_name: Option<(Seq<char>, u64)>,
    pub data: Option<DataModel>,
}

impl View for ParsedAttributes {
    type V = AttributesModel;

    open spec fn view(&self) -> AttributesModel {
        AttributesModel {
            file_name: match self.file_name {
                Some(f) => Some(f@),
                None => None,
            },
            data: match self.data {
                Some(d) => Some(d@),
                None => None,
            },
        }
    }
}

impl Default for ParsedAttributes {
    fn default() -> (r: ParsedAttributes)
        ensures
            r.file_name is None,
            r.data is None,
    {
        ParsedAttributes { file_name: None, data: None }
    }
}

/// The UTF-16 code units of a name `n` characters long at `at`.
pub open spec fn name_units(b: Seq<u8>, at: int, n: int) -> Seq<u16> {
    Seq::new(n as nat, |i: int| le16(b, at + 2 * i) as u16)
}

/// The UTF-16 name units and the size a resident `$FILE_NAME` attribute
/// `attr` holds, or `None` when it is too short for its header, its
/// content, or its name. The content starts at the 2-byte offset at 20; in
/// it the size is the 8 bytes at 48, the name's length in characters the
/// byte at 64, and the UTF-16LE name follows at 66.
pub open spec fn spec_file_name_units(attr: Seq<u8>) -> Option<(Seq<u16>, u64)> {
    if attr.len() < 24 {
        None
    } else {
        let co = le16(attr, 20);
        if co > attr.len() {
            None
        } else {
            let content = attr.subrange(co, attr.len() as int);
            if content.len() < 66 {
                None
            } else {
                let n = content[64] as int;
                if 66 + 2 * n > content.len() {
                    None
                } else {
                    Some((name_units(content, 66, n), le64(content, 48) as u64))
                }
            }
        }
    }
}

/// The name and size a resident `$FILE_NAME` attribute `attr` holds: its
/// name units decoded as UTF-16.
pub open spec fn spec_file_name(attr: Seq<u8>) -> Option<(Seq<char>, u64)> {
    match spec_file_name_units(attr) {
        Some((units, size)) => Some((utf16_lossy_decode(units), size)),
        None => None,
    }
}

/// Reads the UTF-16 name units and the size of a resident `$FILE_NAME`
/// attribute.
pub fn file_name_units(attr: &[u8]) -> (r: Option<(Vec<u16>, u64)>)
    ensures
        match r {
            Some((units, size)) => spec_file_name_units(attr@) == Some((units@, size)),
            None => spec_file_name_units(attr@) is None,
        },
{
    if attr.len() < 24 {
        return None;
    }
    let content_offset = read_u16_le(attr, 20) as usize;
    if content_offset > attr.len() {
        return None;
    }
    let content = &attr[content_offset..attr.len()];
    let ghost cont = attr@.subrange(content_offset as int, attr@.len() as int);
    assert(content@ == cont);
    if content.len() < 66 {
        return None;
    }
    let real_size = read_u64_le(content, 48);
    let name_len_chars = content[64] as usize;
    if 66 + 2 * name_len_chars > content.len() {
        return None;
    }
    let mut units: Vec<u16> = Vec::new();
    let mut i: usize = 0;
    while i < name_len_chars
        invariant
            i <= name_len_chars,
            66 + 2 * name_len_chars <= content@.len(),
            name_len_chars <= 255,
            units@ == name_units(content@, 66, i as int),
        decreases name_len_chars - i,
    {
        let unit = read_u16_le(content, 66 + 2 * i);
        units.push(unit);
        proof {
            assert(units@ =~= name_units(content@, 66, i + 1));
        }
        i = i + 1;
    }
    Some((units, real_size))
}

/// Reads the name and size of a resident `$FILE_NAME` attribute.
fn parse_file_name_attribute(attr: &[u8]) -> (r: Option<FileNameInfo>)
    ensures
        match r {
            Some(f) => spec_file_name(attr@) == Some(f@),
            None => spec_file_name(attr@) is None,
        },
{
    match file_name_units(attr) {
        Some((units, real_size)) => {
            let name = utf16_lossy(units.as_slice());
            Some(FileNameInfo { name, real_size })
        },
        None => None,
    }
}

/// Where a `$DATA` attribute `attr` says the data is, or `None` when the
/// attribute is malformed. Non-resident: the data runs at the 2-byte
/// offset at 32. Resident: the 4-byte length at 16 and 2-byte offset at 20
/// give the bytes.
pub open spec fn spec_data_attr(attr: Seq<u8>, non_resident: bool) -> Option<DataModel> {
    if non_resident {
        if attr.len() < 34 {
            None
        } else {
            let ro = le16(attr, 32);
            if ro > attr.len() {
                None
            } else {
                match spec_data_runs(attr.subrange(ro, attr.len() as int)) {
                    Some(runs) => Some(DataModel::NonResident(runs)),
                    None => None,
                }
            }
        }
    } else {
        if attr.len() < 22 {
            None
        } else {
            let cl = le32(attr, 16);
            let co = le16(attr, 20);
            if co + cl > attr.len() {
                None
            } else {
                Some(DataModel::Resident(attr.subrange(co, co + cl)))
            }
        }
    }
}

/// Decodes a `$DATA` attribute.
fn parse_data_attribute(attr: &[u8], non_resident: bool) -> (r: Result<DataLocation, DomainError>)
    ensures
        match r {
            Ok(d) => spec_data_attr(attr@, non_resident) == Some(d@),
            Err(e) => spec_data_attr(attr@, non_resident) is None && e is DirEntry,
        },
{
    if non_resident {
        if attr.len() < 34 {
            return Err(DomainError::DirEntry("non-resident attribute header is truncated".to_string()));
        }
        let run_offset = read_u16_le(attr, 32) as usize;
        if run_offset > attr.len() {
            return Err(DomainError::DirEntry("data run offset points past the attribute".to_string()));
        }
        let runs = match parse_data_runs(&attr[run_offset..attr.len()]) {
            Ok(r) => r,
            Err(e) => {
                proof {
                    assert(attr@.subrange(run_offset as int, attr@.len() as int) == attr@.subrange(
                        run_offset as int,
                        attr@.len() as int,
                    ));
                }
                return Err(e);
            },
        };
        Ok(DataLocation::NonResident(runs))
    } else {
        if attr.len() < 22 {
            return Err(DomainError::DirEntry("resident attribute header is truncated".to_string()));
        }
        let content_length = read_u32_le(attr, 16) as usize;
        let content_offset = read_u16_le(attr, 20) as usize;
        if content_length > attr.len() || content_offset > attr.len() - content_length {
            return Err(DomainError::DirEntry("resident content runs past the attribute".to_string()));
        }
        let mut content: Vec<u8> = Vec::new();
        let mut i: usize = 0;
        while i < content_length
            invariant
                i <= content_length,
                content_offset + content_length <= attr@.len(),
                attr@.len() <= usize::MAX,
                content@ == attr@.subrange(content_offset as int, content_offset + i),
            decreases content_length - i,
        {
            content.push(attr[content_offset + i]);
            proof {
                assert(content@ =~= attr@.subrange(content_offset as int, content_offset + i + 1));
            }
            i = i + 1;
        }
        Ok(DataLocation::Resident(content))
    }
}

/// The attributes found from byte `pos` of `rec` on, given those found
/// before it; `None` when a `$DATA` attribute is malformed. The walk stops
/// at the end marker, at a header that does not fit in the record, or at
/// a length that is zero or runs past the record. The first resident
/// `$FILE_NAME` that decodes and the first `$DATA` are kept.
pub open spec fn attrs_from(
    rec: Seq<u8>,
    pos: int,
    file_name: Option<(Seq<char>, u64)>,
    data: Option<DataModel>,
) -> Option<AttributesModel>
    decreases rec.len() - pos,
{
    let done = Some(AttributesModel { file_name, data });
    if pos < 0 || pos + 4 > rec.len() {
        done
    } else if le32(rec, pos) == ATTR_TYPE_END {
        done
    } else if pos + 9 > rec.len() {
        done
    } else {
        let len = le32(rec, pos + 4);
        if len == 0 || pos + len > rec.len() {
            done
        } else {
            let attr = rec.subrange(pos, pos + len);
            let non_resident = rec[pos + 8] != 0;
            let ty = le32(rec, pos);
            if ty == ATTR_TYPE_FILE_NAME && !non_resident && file_name is None {
                attrs_from(rec, pos + len, spec_file_name(attr), data)
            } else if ty == ATTR_TYPE_DATA && data is None {
                match spec_data_attr(attr, non_resident) {
                    Some(d) => attrs_from(rec, pos + len, file_name, Some(d)),
                    None => None,
                }
            } else {
                attrs_from(rec, pos + len, file_name, data)
            }
        }
    }
}

/// The attributes of record `rec` whose header is `h`.
pub open spec fn spec_attributes(rec: Seq<u8>, h: MftRecordHeader) -> Option<AttributesModel> {
    attrs_from(rec, h.first_attribute_offset as int, None, None)
}

/// Walks every attribute of a (fixed-up) MFT record from the header's
/// first-attribute offset and extracts `$FILE_NAME` and `$DATA`. A file
/// can have several `$FILE_NAME` attributes (hard links, a short 8.3
/// alias); the first one that decodes is kept.
pub fn parse_attributes(record: &[u8], header: &MftRecordHeader) -> (r: Result<ParsedAttributes, DomainError>)
    ensures
        match r {
            Ok(a) => spec_attributes(record@, *header) == Some(a@),
            Err(e) => spec_attributes(record@, *header) is None && e is DirEntry,
        },
{
    let mut result = ParsedAttributes::default();
    let mut pos: usize = header.first_attribute_offset as usize;
    let n = record.len();
    let ghost rec = record@;
    while pos <= n && n - pos >= 4
        invariant
            n == rec.len(),
            rec == record@,
            spec_attributes(rec, *header) == attrs_from(rec, pos as int, result@.file_name, result@.data),
        decreases n - pos,
    {
        let attr_type = read_u32_le(record, pos);
        if attr_type == ATTR_TYPE_END {
            return Ok(result);
        }
        if n - pos < 9 {
            // Truncated record: stop rather than read out of bounds.
            return Ok(result);
        }
        let attr_len = read_u32_le(record, pos + 4) as usize;
        if attr_len == 0 || attr_len > n - pos {
            // Corrupted length: stop parsing this record.
            return Ok(result);
        }
        let non_resident = record[pos + 8] != 0;
        let attr = &record[pos..pos + attr_len];
        assert(attr@ == rec.subrange(pos as int, pos + attr_len));
        if attr_type == ATTR_TYPE_FILE_NAME && !non_resident {
            if result.file_name.is_none() {
                let parsed = parse_file_name_attribute(attr);
                result.file_name = parsed;
            }
        } else if attr_type == ATTR_TYPE_DATA {
            if result.data.is_none() {
                let d = parse_data_attribute(attr, non_resident);
                match d {
                    Ok(loc) => {
                        result.data = Some(loc);
                    },
                    Err(e) => {
                        return Err(e);
                    },
                }
            }
        }
        pos = pos + attr_len;
    }
    Ok(result)
}

} // verus!
