//! `RecoverableFile`: one model for every result, whether it came from
//! filesystem metadata (FAT32/NTFS) or from carving, so that a results
//! table has one shape.
//!
//! Its `RecoveryLocator` carries everything needed to recover the file
//! again later, possibly in another process after a saved session is
//! reloaded: either the full `DeletedEntry` (recovery goes through a
//! freshly opened parser) or a plain byte range (carved results never
//! depended on any parser).

use crate::carving::carver::CarvedFile;
use crate::parser::{DeletedEntry, EntryModel};
use crate::text::{decimal, decimal_string};
use vstd::string::StrSliceExecFns;
use vstd::prelude::*;

verus! {

/// Where a result came from.
#[derive(Debug, Clone)]
pub enum RecoverySource {
    Metadata { filesystem: String },
    Carved { format: String },
}

/// How to recover a result again.
#[derive(Debug, Clone)]
pub enum RecoveryLocator {
    /// Through a freshly opened parser of the named filesystem, calling
    /// `recover_bytes` with this entry. NTFS recovers through the file's
    /// full run list only if `enumerate_deleted` ran on that parser first.
    Metadata(DeletedEntry),
    /// A direct read of `start_offset..end_offset`.
    CarvedRange { start_offset: u64, end_offset: u64 },
}

/// A file a scan found.
#[derive(Debug, Clone)]
pub struct RecoverableFile {
    /// Unique within one scan session, given in the order results are
    /// found.
    pub id: u64,
    pub name: String,
    pub size: u64,
    pub confidence: u8,
    pub source: RecoverySource,
    pub locator: RecoveryLocator,
}

/// `s` with zeros in front to make it at least `width` characters.
pub open spec fn zero_pad(s: Seq<char>, width: nat) -> Seq<char> {
    if s.len() >= width {
        s
    } else {
        Seq::new((width - s.len()) as nat, |i: int| '0') + s
    }
}

/// "carved_NNNN.ext": the index in decimal, at least four digits.
pub open spec fn carved_name_of(index: nat, ext: Seq<char>) -> Seq<char> {
    seq!['c', 'a', 'r', 'v', 'e', 'd', '_'] + zero_pad(decimal(index), 4) + seq!['.'] + ext
}

/// "carved_", the index in decimal zero-padded to four digits, a dot and
/// the extension.
fn carved_name(index: usize, ext: &str) -> (r: String)
    ensures
        r@ == carved_name_of(index as nat, ext@),
{
    let digits = decimal_string(index as u64);
    let n = digits.as_str().unicode_len();
    let ghost d = digits@;
    let mut name = "carved_".to_owned();
    proof {
        reveal_strlit("carved_");
        reveal_strlit("0");
        reveal_strlit(".");
    }
    let mut k = n;
    while k < 4
        invariant
            n == d.len(),
            n <= k <= if n < 4 {
                4
            } else {
                n
            },
            name@ == seq!['c', 'a', 'r', 'v', 'e', 'd', '_'] + Seq::new((k - n) as nat, |i: int| '0'),
        decreases 4 - k,
    {
        name = name.concat("0");
        proof {
            reveal_strlit("0");
            assert(name@ =~= seq!['c', 'a', 'r', 'v', 'e', 'd', '_'] + Seq::new((k + 1 - n) as nat, |i: int| '0'));
        }
        k = k + 1;
    }
    let padded = name.concat(digits.as_str());
    proof {
        assert(padded@ =~= seq!['c', 'a', 'r', 'v', 'e', 'd', '_'] + zero_pad(d, 4));
    }
    let with_dot = padded.concat(".");
    proof {
        reveal_strlit(".");
    }
    let r = with_dot.concat(ext);
    proof {
        assert(r@ =~= carved_name_of(index as nat, ext@));
    }
    r
}

impl RecoverableFile {
    /// The result for a deleted entry found on a `filesystem` volume.
    pub fn from_deleted_entry(id: u64, filesystem: &str, entry: DeletedEntry) -> (r: RecoverableFile)
        ensures
            r.id == id,
            r.name@ == entry.name@,
            r.size == entry.file_size,
            r.confidence == entry.confidence,
            r.source matches RecoverySource::Metadata { filesystem: f } && f@ == filesystem@,
            r.locator matches RecoveryLocator::Metadata(e) && e@ == entry@,
    {
        let name = entry.name.clone();
        let size = entry.file_size;
        let confidence = entry.confidence;
        RecoverableFile {
            id,
            name,
            size,
            confidence,
            source: RecoverySource::Metadata { filesystem: filesystem.to_owned() },
            locator: RecoveryLocator::Metadata(entry),
        }
    }

    /// The result for the `index`-th carved file. Carved files have no
    /// name of their own: they are numbered.
    pub fn from_carved_file(id: u64, index: usize, carved: &CarvedFile) -> (r: RecoverableFile)
        requires
            carved.start_offset <= carved.end_offset,
        ensures
            r.id == id,
            r.name@ == carved_name_of(index as nat, carved.extension@),
            r.size == carved.end_offset - carved.start_offset,
            r.confidence == carved.confidence,
            r.source matches RecoverySource::Carved { format: f } && f@ == carved.format_name@,
            r.locator == (RecoveryLocator::CarvedRange {
                start_offset: carved.start_offset,
                end_offset: carved.end_offset,
            }),
    {
        let name = carved_name(index, carved.extension.as_str());
        RecoverableFile {
            id,
            name,
            size: carved.size(),
            confidence: carved.confidence,
            source: RecoverySource::Carved { format: carved.format_name.clone() },
            locator: RecoveryLocator::CarvedRange {
                start_offset: carved.start_offset,
                end_offset: carved.end_offset,
            },
        }
    }
}

} // verus!
