//! Known file-format signatures: byte patterns that mark the start (and
//! usually the end) of a file.

use vstd::prelude::*;

verus! {

/// A file format recognisable by its leading bytes.
#[derive(Debug, Clone, Copy)]
pub struct FileSignature {
    pub name: &'static str,
    pub extension: &'static str,
    pub header: &'static [u8],
    /// If present, carving searches for this byte sequence after the
    /// header to find the file's true end. If absent, or not found within
    /// `max_size`, carving falls back to a `max_size` cutoff.
    pub footer: Option<&'static [u8]>,
    /// How far past the header a footer is searched for.
    pub max_size: usize,
}

/// The headers of the known formats, in scanning order: JPEG, PNG, PDF, ZIP.
pub open spec fn known_headers() -> Seq<Seq<u8>> {
    seq![
        seq![0xFFu8, 0xD8, 0xFF],
        seq![0x89u8, 0x50, 0x4E, 0x47, 0x0D, 0x0A, 0x1A, 0x0A],
        seq![0x25u8, 0x50, 0x44, 0x46, 0x2D],
        seq![0x50u8, 0x4B, 0x03, 0x04],
    ]
}

/// The footers of the known formats, in the same order.
pub open spec fn known_footers() -> Seq<Seq<u8>> {
    seq![
        seq![0xFFu8, 0xD9],
        seq![0x49u8, 0x45, 0x4E, 0x44, 0xAE, 0x42, 0x60, 0x82],
        seq![0x25u8, 0x25, 0x45, 0x4F, 0x46],
        seq![0x50u8, 0x4B, 0x05, 0x06],
    ]
}

/// The search caps of the known formats, in the same order.
pub open spec fn known_max_sizes() -> Seq<int> {
    seq![20971520int, 20971520int, 52428800int, 209715200int]
}

/// The names of the known formats, in the same order.
pub open spec fn known_names() -> Seq<Seq<char>> {
    seq![seq!['J', 'P', 'E', 'G'], seq!['P', 'N', 'G'], seq!['P', 'D', 'F'], seq!['Z', 'I', 'P']]
}

/// The file extensions of the known formats, in the same order.
pub open spec fn known_extensions() -> Seq<Seq<char>> {
    seq![seq!['j', 'p', 'g'], seq!['p', 'n', 'g'], seq!['p', 'd', 'f'], seq!['z', 'i', 'p']]
}

/// Whether `sigs` is exactly the known signature table.
pub open spec fn is_known_table(sigs: Seq<FileSignature>) -> bool {
    &&& sigs.len() == 4
    &&& forall|i: int|
        #![trigger sigs[i]]
        0 <= i < 4 ==> {
            &&& sigs[i].name@ == known_names()[i]
            &&& sigs[i].extension@ == known_extensions()[i]
            &&& sigs[i].header@ == known_headers()[i]
            &&& sigs[i].footer matches Some(f) && f@ == known_footers()[i]
            &&& sigs[i].max_size == known_max_sizes()[i]
        }
}

/// The known signatures: JPEG, PNG, PDF and ZIP.
pub fn known_signatures() -> (r: Vec<FileSignature>)
    ensures
        is_known_table(r@),
{
    proof {
        reveal_strlit("JPEG");
        reveal_strlit("jpg");
        reveal_strlit("PNG");
        reveal_strlit("png");
        reveal_strlit("PDF");
        reveal_strlit("pdf");
        reveal_strlit("ZIP");
        reveal_strlit("zip");
        assert("JPEG"@ =~= known_names()[0]);
        assert("PNG"@ =~= known_names()[1]);
        assert("PDF"@ =~= known_names()[2]);
        assert("ZIP"@ =~= known_names()[3]);
        assert("jpg"@ =~= known_extensions()[0]);
        assert("png"@ =~= known_extensions()[1]);
        assert("pdf"@ =~= known_extensions()[2]);
        assert("zip"@ =~= known_extensions()[3]);
    }
    let mut v: Vec<FileSignature> = Vec::new();
    v.push(
        FileSignature {
            name: "JPEG",
            extension: "jpg",
            header: &[0xFF, 0xD8, 0xFF],
            footer: Some(&[0xFF, 0xD9]),
            max_size: 20 * 1024 * 1024,
        },
    );
    v.push(
        FileSignature {
            name: "PNG",
            extension: "png",
            header: &[0x89, 0x50, 0x4E, 0x47, 0x0D, 0x0A, 0x1A, 0x0A],
            // IEND chunk type plus its fixed CRC32: always closes a PNG.
            footer: Some(&[0x49, 0x45, 0x4E, 0x44, 0xAE, 0x42, 0x60, 0x82]),
            max_size: 20 * 1024 * 1024,
        },
    );
    v.push(
        FileSignature {
            name: "PDF",
            extension: "pdf",
            header: &[0x25, 0x50, 0x44, 0x46, 0x2D],
            footer: Some(&[0x25, 0x25, 0x45, 0x4F, 0x46]),
            max_size: 50 * 1024 * 1024,
        },
    );
    v.push(
        FileSignature {
            name: "ZIP",
            extension: "zip",
            header: &[0x50, 0x4B, 0x03, 0x04],
            // End Of Central Directory record: the real end of an archive.
            footer: Some(&[0x50, 0x4B, 0x05, 0x06]),
            max_size: 200 * 1024 * 1024,
        },
    );
    v
}

} // verus!

verus! {

/// Longest header among the known signatures: the overlap chunked
/// scanning needs so that no header can hide across a chunk boundary.
pub open spec fn spec_max_header_len() -> int {
    8
}

/// Every known header is at most `spec_max_header_len()` bytes, and the
/// PNG header reaches it.
pub proof fn lemma_known_header_lengths()
    ensures
        forall|i: int|
            #![trigger known_headers()[i]]
            0 <= i < 4 ==> 1 <= known_headers()[i].len() <= spec_max_header_len(),
        known_headers()[1].len() == spec_max_header_len(),
{
}

/// Longest header among all known signatures.
pub fn max_header_len() -> (r: usize)
    ensures
        r == spec_max_header_len(),
{
    let sigs = known_signatures();
    let mut best: usize = 0;
    let mut i: usize = 0;
    while i < sigs.len()
        invariant
            i <= sigs@.len(),
            is_known_table(sigs@),
            forall|j: int| 0 <= j < i ==> sigs@[j].header@.len() <= best,
            i == 0 ==> best == 0,
            i >= 2 ==> best == 8,
            i == 1 ==> best == 3,
        decreases sigs@.len() - i,
    {
        let l = sigs[i].header.len();
        if l > best {
            best = l;
        }
        i = i + 1;
    }
    best
}

} // verus!
