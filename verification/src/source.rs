//! The byte-level abstraction every parser, carver and job reads through.
//!
//! Read access (`ByteSource`) and write access (`WritableByteSource`) are
//! separate traits: code holding only a `ByteSource` has no way to write.

use crate::text::{decimal, decimal_string, io_error_text};
use vstd::prelude::*;

verus! {

#[verifier::external_type_specification]
#[verifier::external_body]
pub struct ExIoError(std::io::Error);

/// Why a read or write through a byte source failed.
#[derive(Debug)]
pub enum ByteSourceError {
    /// The requested range `offset..offset + len` runs past `size`.
    OutOfBounds { offset: u64, len: usize, size: u64 },
    /// The underlying device or file reported an error.
    Io(std::io::Error),
}

/// Whether `offset..offset + len` lies inside a source of `size` bytes.
pub open spec fn range_in_bounds(offset: int, len: int, size: int) -> bool {
    0 <= offset && 0 <= len && offset + len <= size
}

/// What a read of `len` bytes at `offset` may return from a source whose
/// bytes are `content`: the exact bytes when in bounds, `OutOfBounds` when
/// not, and (only for a source that can fail) an I/O error in bounds.
pub open spec fn read_outcome_ok(
    content: Seq<u8>,
    faultless: bool,
    offset: u64,
    len: usize,
    r: Result<Seq<u8>, ()>,
) -> bool {
    &&& !range_in_bounds(offset as int, len as int, content.len() as int) ==> r is Err
    &&& r matches Ok(bytes) ==> {
        &&& range_in_bounds(offset as int, len as int, content.len() as int)
        &&& bytes == content.subrange(offset as int, offset + len)
    }
    &&& faultless && range_in_bounds(offset as int, len as int, content.len() as int) ==> r is Ok
}

/// Maps a read result to the shape `read_outcome_ok` speaks of.
pub open spec fn read_shape(r: Result<Vec<u8>, ByteSourceError>) -> Result<Seq<u8>, ()> {
    match r {
        Ok(v) => Ok(v@),
        Err(_) => Err(()),
    }
}

/// Whether `e` reports an out-of-bounds request.
pub open spec fn is_out_of_bounds(e: ByteSourceError) -> bool {
    e is OutOfBounds
}

/// Whether `r` failed with an out-of-bounds report.
pub open spec fn failed_out_of_bounds<T>(r: Result<T, ByteSourceError>) -> bool {
    match r {
        Ok(_) => false,
        Err(e) => is_out_of_bounds(e),
    }
}

/// An out-of-bounds request is reported as `OutOfBounds`, an in-bounds one
/// never is.
pub open spec fn error_kind_ok<T>(
    content: Seq<u8>,
    offset: u64,
    len: usize,
    r: Result<T, ByteSourceError>,
) -> bool {
    failed_out_of_bounds(r) <==> !range_in_bounds(offset as int, len as int, content.len() as int)
}

/// The message of an out-of-bounds error.
pub open spec fn out_of_bounds_text(offset: u64, len: usize, size: u64) -> Seq<char> {
    "read out of bounds: offset "@ + decimal(offset as nat) + " + len "@ + decimal(len as nat)
        + " exceeds source size "@ + decimal(size as nat)
}

/// `s` starts with `prefix`.
pub open spec fn starts_with(s: Seq<char>, prefix: Seq<char>) -> bool {
    prefix.len() <= s.len() && s.subrange(0, prefix.len() as int) == prefix
}

/// `m` is the message of `e`: the out-of-bounds text, or, for an I/O
/// error, "io error: " and the error's own text.
pub open spec fn byte_source_message_ok(e: ByteSourceError, m: Seq<char>) -> bool {
    &&& e matches ByteSourceError::OutOfBounds { offset, len, size } ==> m == out_of_bounds_text(offset, len, size)
    &&& e is Io ==> starts_with(m, "io error: "@)
}

impl ByteSourceError {
    /// A readable description of the error.
    pub fn message(&self) -> (r: String)
        ensures
            byte_source_message_ok(*self, r@),
            *self matches ByteSourceError::OutOfBounds { offset, len, size } ==> r@ == out_of_bounds_text(
                offset,
                len,
                size,
            ),
            *self is Io ==> starts_with(r@, "io error: "@),
    {
        match self {
            ByteSourceError::OutOfBounds { offset, len, size } => {
                let a = "read out of bounds: offset ".to_owned();
                let b = a.concat(decimal_string(*offset).as_str());
                let c = b.concat(" + len ");
                let d = c.concat(decimal_string(*len as u64).as_str());
                let e = d.concat(" exceeds source size ");
                e.concat(decimal_string(*size).as_str())
            },
            ByteSourceError::Io(err) => {
                let text = io_error_text(err);
                let r = "io error: ".to_owned().concat(text.as_str());
                proof {
                    assert(r@.subrange(0, "io error: "@.len() as int) =~= "io error: "@);
                }
                r
            },
        }
    }
}

/// Checks that `offset..offset + len` lies inside a source of `size`
/// bytes, as every read and write must before touching the device.
pub fn check_bounds(offset: u64, len: usize, size: u64) -> (r: Result<(), ByteSourceError>)
    ensures
        r is Ok <==> range_in_bounds(offset as int, len as int, size as int),
        r matches Err(e) ==> e == (ByteSourceError::OutOfBounds { offset, len, size }),
{
    if offset > size || len as u64 > size - offset {
        Err(ByteSourceError::OutOfBounds { offset, len, size })
    } else {
        Ok(())
    }
}

/// A read-only, randomly addressable source of bytes: a disk image, a
/// physical device, or bytes held in memory.
///
/// A source defines `spec_content`, `spec_faultless` and `spec_label`,
/// and its methods meet the contracts below over them (`MemorySource`
/// does, and is verified to). The defaults give every value of a type one
/// and the same unspecified content and label, and reads that may fail: a
/// source that reads a file or a device is written outside verified code,
/// keeps them, and so is only expected, not proved, to meet the
/// contracts; what is proved of the library holds of it only as far as it
/// does.
pub trait ByteSource {
    /// The bytes of the source, start to end.
    closed spec fn spec_content(&self) -> Seq<u8> {
        arbitrary()
    }

    /// True when reads inside the bounds never fail (memory-backed sources).
    closed spec fn spec_faultless(&self) -> bool {
        false
    }

    /// Total size of the source in bytes.
    fn size(&self) -> (r: u64)
        ensures
            r as int == self.spec_content().len(),
    ;

    /// Reads exactly `buf.len()` bytes starting at `offset` into `buf`.
    /// Errors if the read would run past the end of the source.
    fn read_at(&self, offset: u64, buf: &mut [u8]) -> (r: Result<(), ByteSourceError>)
        ensures
            final(buf)@.len() == old(buf)@.len(),
            read_outcome_ok(
                self.spec_content(),
                self.spec_faultless(),
                offset,
                old(buf)@.len() as usize,
                match r {
                    Ok(_) => Ok(final(buf)@),
                    Err(_) => Err(()),
                },
            ),
            error_kind_ok(self.spec_content(), offset, old(buf)@.len() as usize, r),
    ;

    /// Reads `len` bytes starting at `offset` into a fresh vector.
    fn read_vec(&self, offset: u64, len: usize) -> (r: Result<Vec<u8>, ByteSourceError>)
        ensures
            read_outcome_ok(self.spec_content(), self.spec_faultless(), offset, len, read_shape(r)),
            error_kind_ok(self.spec_content(), offset, len, r),
    {
        let mut buf: Vec<u8> = vec![0u8; len];
        match self.read_at(offset, buf.as_mut_slice()) {
            Ok(()) => Ok(buf),
            Err(e) => Err(e),
        }
    }

    /// The source's label, as text.
    closed spec fn spec_label(&self) -> Seq<char> {
        arbitrary()
    }

    /// A human-readable label (a file path or device name).
    fn label(&self) -> (r: &str)
        ensures
            r@ == self.spec_label(),
    ;
}

/// The bytes of `old` with `data` written over them starting at `offset`.
pub open spec fn overwrite(old: Seq<u8>, offset: int, data: Seq<u8>) -> Seq<u8> {
    old.subrange(0, offset) + data + old.subrange(offset + data.len(), old.len() as int)
}

/// What a write leaves is read back: the bytes of `overwrite(old,
/// offset, data)` at `offset` are `data`, and every other byte is the
/// old one.
pub proof fn lemma_read_after_write(old: Seq<u8>, offset: int, data: Seq<u8>)
    requires
        0 <= offset,
        offset + data.len() <= old.len(),
    ensures
        overwrite(old, offset, data).len() == old.len(),
        overwrite(old, offset, data).subrange(offset, offset + data.len()) == data,
        forall|p: int|
            0 <= p < old.len() && !(offset <= p < offset + data.len()) ==> #[trigger] overwrite(old, offset, data)[p]
                == old[p],
{
    let w = overwrite(old, offset, data);
    assert(w.subrange(offset, offset + data.len()) =~= data);
}

/// Write access, kept apart from `ByteSource` so that reading code can
/// never write. Only the wipe job asks for it.
pub trait WritableByteSource: ByteSource {
    /// Writes `data` at `offset`, overwriting whatever was there.
    fn write_at(&mut self, offset: u64, data: &[u8]) -> (r: Result<(), ByteSourceError>)
        ensures
            final(self).spec_faultless() == old(self).spec_faultless(),
            final(self).spec_content().len() == old(self).spec_content().len(),
            error_kind_ok(old(self).spec_content(), offset, data@.len() as usize, r),
            failed_out_of_bounds(r) ==> final(self).spec_content() == old(self).spec_content(),
            forall|p: int|
                0 <= p < old(self).spec_content().len() && !(offset <= p < offset + data@.len())
                    ==> #[trigger] final(self).spec_content()[p] == old(self).spec_content()[p],
            r is Ok ==> final(self).spec_content() == overwrite(
                old(self).spec_content(),
                offset as int,
                data@,
            ),
            old(self).spec_faultless() && range_in_bounds(
                offset as int,
                data@.len() as int,
                old(self).spec_content().len() as int,
            ) ==> r is Ok,
    ;
}

/// A disk image held entirely in memory. Reads and writes never fail
/// inside its bounds.
pub struct MemorySource {
    bytes: Vec<u8>,
    label: String,
}

impl MemorySource {
    /// Wraps `bytes` as a source labelled `label`.
    pub fn new(bytes: Vec<u8>, label: &str) -> (r: MemorySource)
        ensures
            r.spec_content() == bytes@,
            r.spec_faultless(),
            r.spec_label() == label@,
    {
        MemorySource { bytes, label: label.to_owned() }
    }

    /// The current bytes of the image.
    pub fn bytes(&self) -> (r: &Vec<u8>)
        ensures
            r@ == self.spec_content(),
    {
        &self.bytes
    }
}

impl ByteSource for MemorySource {
    closed spec fn spec_content(&self) -> Seq<u8> {
        self.bytes@
    }

    closed spec fn spec_faultless(&self) -> bool {
        true
    }

    closed spec fn spec_label(&self) -> Seq<char> {
        self.label@
    }

    fn size(&self) -> (r: u64) {
        self.bytes.len() as u64
    }

    fn read_at(&self, offset: u64, buf: &mut [u8]) -> (r: Result<(), ByteSourceError>) {
        let size = self.size();
        let len = buf.len();
        match check_bounds(offset, len, size) {
            Ok(()) => {},
            Err(e) => {
                return Err(e);
            },
        }
        let blen = self.bytes.len();
        assert(self.bytes@.len() <= usize::MAX);
        assert(offset as int + len as int <= blen);
        let start = offset as usize;
        let mut i: usize = 0;
        while i < len
            invariant
                i <= len,
                start == offset,
                len == old(buf)@.len(),
                buf@.len() == len,
                start + len <= self.bytes@.len(),
                self.bytes@.len() <= usize::MAX,
                forall|j: int| 0 <= j < i ==> buf@[j] == self.bytes@[start + j],
            decreases len - i,
        {
            buf[i] = self.bytes[start + i];
            i = i + 1;
        }
        proof {
            assert(buf@ =~= self.bytes@.subrange(start as int, start + len));
        }
        Ok(())
    }

    fn label(&self) -> &str {
        self.label.as_str()
    }
}

impl WritableByteSource for MemorySource {
    fn write_at(&mut self, offset: u64, data: &[u8]) -> (r: Result<(), ByteSourceError>) {
        let size = self.bytes.len() as u64;
        let len = data.len();
        match check_bounds(offset, len, size) {
            Ok(()) => {},
            Err(e) => {
                return Err(e);
            },
        }
        let ghost before = self.bytes@;
        let start = offset as usize;
        let mut i: usize = 0;
        while i < len
            invariant
                i <= len,
                start == offset,
                len == data@.len(),
                start + len <= before.len(),
                before.len() <= usize::MAX,
                self.bytes@.len() == before.len(),
                forall|j: int| 0 <= j < start ==> self.bytes@[j] == before[j],
                forall|j: int| start + len <= j < before.len() ==> self.bytes@[j] == before[j],
                forall|j: int| 0 <= j < i ==> self.bytes@[start + j] == data@[j],
            decreases len - i,
        {
            self.bytes.set(start + i, data[i]);
            i = i + 1;
        }
        proof {
            assert(self.bytes@ =~= overwrite(before, offset as int, data@));
        }
        Ok(())
    }
}
} // verus!
