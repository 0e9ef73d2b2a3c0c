//! Errors raised while parsing filesystem structures.

use crate::source::{ByteSourceError, byte_source_message_ok, out_of_bounds_text, starts_with};
use vstd::prelude::*;

verus! {

/// Why a parser or carver gave up.
#[derive(Debug)]
pub enum DomainError {
    /// The byte source could not deliver the bytes asked for.
    ByteSource(ByteSourceError),
    /// The volume's boot sector is not one this parser understands.
    NotFat32(String),
    /// An on-disk record or entry is malformed.
    DirEntry(String),
}

/// `m` is the message of `e`: a prefix naming the kind of error and the
/// text it carries, or the message of the byte source error it wraps.
pub open spec fn domain_message_ok(e: DomainError, m: Seq<char>) -> bool {
    match e {
        DomainError::NotFat32(s) => m == "not a valid FAT32 volume: "@ + s@,
        DomainError::DirEntry(s) => m == "directory entry parse error: "@ + s@,
        DomainError::ByteSource(b) => exists|t: Seq<char>|
            m == "underlying byte source error: "@ + t && #[trigger] byte_source_message_ok(b, t),
    }
}

impl DomainError {
    /// A readable description of the error.
    pub fn message(&self) -> (r: String)
        ensures
            domain_message_ok(*self, r@),
            *self matches DomainError::NotFat32(s) ==> r@ == "not a valid FAT32 volume: "@ + s@,
            *self matches DomainError::DirEntry(s) ==> r@ == "directory entry parse error: "@ + s@,
            *self matches DomainError::ByteSource(e) ==> starts_with(r@, "underlying byte source error: "@),
            *self matches DomainError::ByteSource(ByteSourceError::OutOfBounds { offset, len, size }) ==> r@
                == "underlying byte source error: "@ + out_of_bounds_text(offset, len, size),
    {
        match self {
            DomainError::ByteSource(e) => {
                let inner = e.message();
                let r = "underlying byte source error: ".to_owned().concat(inner.as_str());
                proof {
                    assert(r@.subrange(0, "underlying byte source error: "@.len() as int)
                        =~= "underlying byte source error: "@);
                    assert(byte_source_message_ok(*e, inner@));
                }
                r
            },
            DomainError::NotFat32(s) => "not a valid FAT32 volume: ".to_owned().concat(s.as_str()),
            DomainError::DirEntry(s) => "directory entry parse error: ".to_owned().concat(s.as_str()),
        }
    }
}

} // verus!
