//! Decodes NTFS data runs: the compact encoding a non-resident attribute
//! uses to say which clusters hold its data.
//!
//! Each run is `[header] [length bytes] [offset bytes]`. The header's low
//! nibble is the width of the length, its high nibble the width of the
//! offset. Both fields are little-endian; the offset is a signed delta
//! from the previous run's start cluster. A zero header ends the list, and
//! a run with no offset bytes is sparse (a hole with nothing on disk).

use crate::error::DomainError;
use vstd::prelude::*;

verus! {

/// `length_clusters` clusters starting at absolute cluster `start_lcn`.
#[derive(Debug, Clone, Copy, PartialEq, Eq, Structural)]
pub struct DataRun {
    pub start_lcn: u64,
    pub length_clusters: u64,
}

/// `256` raised to `n`.
pub open spec fn pow256(n: nat) -> int
    decreases n,
{
    if n == 0 {
        1
    } else {
        256 * pow256((n - 1) as nat)
    }
}

/// The unsigned little-endian value of the `n` bytes at `b[p..p + n]`.
pub open spec fn unsigned_le(b: Seq<u8>, p: int, n: nat) -> int
    decreases n,
{
    if n == 0 {
        0
    } else {
        b[p] + 256 * unsigned_le(b, p + 1, (n - 1) as nat)
    }
}

/// The two's-complement value of the `n` bytes at `b[p..p + n]`: the
/// unsigned value, less `256^n` when the top bit of the last byte is set.
pub open spec fn signed_le(b: Seq<u8>, p: int, n: nat) -> int {
    if n > 0 && b[p + n - 1] >= 128 {
        unsigned_le(b, p, n) - pow256(n)
    } else {
        unsigned_le(b, p, n)
    }
}

/// The runs decoded from `b[pos..]`, given that the previous run started
/// at cluster `lcn`; `None` when the list is malformed.
pub open spec fn runs_from(b: Seq<u8>, pos: int, lcn: int) -> Option<Seq<DataRun>>
    decreases b.len() - pos,
{
    if pos < 0 || pos >= b.len() || b[pos] == 0 {
        Some(seq![])
    } else {
        let ls = (b[pos] % 16) as nat;
        let os = (b[pos] / 16) as nat;
        let p = pos + 1;
        if p + ls + os > b.len() || ls > 8 || os > 8 {
            None
        } else if os == 0 {
            runs_from(b, p + ls, lcn)
        } else {
            let next = lcn + signed_le(b, p + ls, os);
            if next < 0 || next > i64::MAX {
                None
            } else {
                match runs_from(b, p + ls + os, next) {
                    Some(rest) => Some(
                        seq![DataRun { start_lcn: next as u64, length_clusters: unsigned_le(b, p, ls) as u64 }]
                            + rest,
                    ),
                    None => None,
                }
            }
        }
    }
}

/// The data-run list encoded at the start of `b`.
pub open spec fn spec_data_runs(b: Seq<u8>) -> Option<Seq<DataRun>> {
    runs_from(b, 0, 0)
}

proof fn lemma_unsigned_le_bound(b: Seq<u8>, p: int, n: nat)
    requires
        0 <= p,
        p + n <= b.len(),
    ensures
        0 <= unsigned_le(b, p, n) < pow256(n),
    decreases n,
{
    if n > 0 {
        lemma_unsigned_le_bound(b, p + 1, (n - 1) as nat);
    }
}

proof fn lemma_pow256_monotone(a: nat, b: nat)
    requires
        a <= b,
    ensures
        1 <= pow256(a) <= pow256(b),
    decreases b,
{
    if b > a {
        lemma_pow256_monotone(a, (b - 1) as nat);
    } else {
        lemma_pow256_positive(a);
    }
}

proof fn lemma_pow256_positive(n: nat)
    ensures
        1 <= pow256(n),
    decreases n,
{
    if n > 0 {
        lemma_pow256_positive((n - 1) as nat);
    }
}

/// Byte `t` (from the least significant) of the little-endian value of
/// `n` bytes is the `t`-th of those bytes.
proof fn lemma_unsigned_le_digit(b: Seq<u8>, p: int, n: nat, t: int)
    requires
        0 <= p,
        p + n <= b.len(),
        0 <= t < n,
    ensures
        (unsigned_le(b, p, n) / pow256(t as nat)) % 256 == b[p + t],
    decreases t,
{
    let v = unsigned_le(b, p + 1, (n - 1) as nat);
    lemma_unsigned_le_bound(b, p + 1, (n - 1) as nat);
    let x = unsigned_le(b, p, n);
    assert(x == b[p] + 256 * v);
    vstd::arithmetic::div_mod::lemma_fundamental_div_mod_converse(x, 256, v, b[p] as int);
    if t == 0 {
        assert(pow256(0) == 1);
        assert(x / 1 == x);
    } else {
        lemma_pow256_positive((t - 1) as nat);
        lemma_unsigned_le_digit(b, p + 1, (n - 1) as nat, t - 1);
        assert(x >= 0);
        vstd::arithmetic::div_mod::lemma_div_denominator(x, 256, pow256((t - 1) as nat));
        assert(pow256(t as nat) == 256 * pow256((t - 1) as nat));
        assert(x / pow256(t as nat) == v / pow256((t - 1) as nat));
    }
}

/// The run that a run list decoded from position `pos` starts with, when
/// the header there has offset bytes: its length is read from every one
/// of the header's length bytes, little-endian (byte `t` of the length
/// is the `t`-th length byte), and it starts at `lcn` moved by the
/// offset bytes read as a signed little-endian delta.
pub proof fn lemma_run_fields(b: Seq<u8>, pos: int, lcn: int)
    requires
        0 <= pos < b.len(),
        b[pos] / 16 > 0,
    ensures
        runs_from(b, pos, lcn) matches Some(rs) ==> {
            &&& rs.len() >= 1
            &&& rs[0].length_clusters == unsigned_le(b, pos + 1, (b[pos] % 16) as nat)
            &&& forall|t: int|
                0 <= t < b[pos] % 16 ==> #[trigger] ((rs[0].length_clusters as int / pow256(t as nat)) % 256) == b[pos
                    + 1 + t]
            &&& rs[0].start_lcn == lcn + signed_le(b, pos + 1 + b[pos] % 16, (b[pos] / 16) as nat)
        },
{
    let ls = (b[pos] % 16) as nat;
    let os = (b[pos] / 16) as nat;
    if let Some(rs) = runs_from(b, pos, lcn) {
        assert(pos + 1 + ls + os <= b.len() && ls <= 8 && os <= 8);
        lemma_unsigned_le_bound(b, pos + 1, ls);
        lemma_pow256_bounds(ls);
        assert forall|t: int| 0 <= t < ls implies #[trigger] ((rs[0].length_clusters as int / pow256(t as nat)) % 256)
            == b[pos + 1 + t] by {
            lemma_unsigned_le_digit(b, pos + 1, ls, t);
        }
    }
}

proof fn lemma_pow256_bounds(n: nat)
    requires
        n <= 8,
    ensures
        1 <= pow256(n) <= 0x1_0000_0000_0000_0000,
        n >= 1 ==> pow256(n) == 256 * pow256((n - 1) as nat),
        n <= 7 ==> pow256(n) <= 0x1_0000_0000_0000_00,
{
    reveal_with_fuel(pow256, 9);
    lemma_pow256_monotone(n, 8);
    if n <= 7 {
        lemma_pow256_monotone(n, 7);
    }
}

/// The unsigned value of `bytes[p..p + n]`, `n` at most 8.
fn read_unsigned_le(bytes: &[u8], p: usize, n: usize) -> (r: u64)
    requires
        n <= 8,
        p + n <= bytes@.len(),
    ensures
        r as int == unsigned_le(bytes@, p as int, n as nat),
{
    proof {
        lemma_unsigned_le_bound(bytes@, p as int, n as nat);
        lemma_pow256_bounds(n as nat);
    }
    let blen = bytes.len();
    let mut value: u64 = 0;
    let mut i: usize = n;
    while i > 0
        invariant
            i <= n <= 8,
            blen == bytes@.len(),
            p + n <= bytes@.len(),
            value as int == unsigned_le(bytes@, (p + i) as int, (n - i) as nat),
        decreases i,
    {
        proof {
            lemma_unsigned_le_bound(bytes@, (p + i) as int, (n - i) as nat);
            lemma_pow256_bounds((n - i) as nat);
            lemma_pow256_bounds((n - i + 1) as nat);
            lemma_unsigned_le_bound(bytes@, (p + i - 1) as int, (n - i + 1) as nat);
            assert(value < 0x1_0000_0000_0000_00);
        }
        i = i - 1;
        value = value * 256 + bytes[p + i] as u64;
    }
    value
}

/// The two's-complement value of `bytes[p..p + n]`, `n` at most 8.
fn read_signed_le(bytes: &[u8], p: usize, n: usize) -> (r: i128)
    requires
        n <= 8,
        p + n <= bytes@.len(),
    ensures
        r as int == signed_le(bytes@, p as int, n as nat),
        -0x1_0000_0000_0000_0000 <= r < 0x1_0000_0000_0000_0000,
{
    let _blen = bytes.len();
    proof {
        lemma_unsigned_le_bound(bytes@, p as int, n as nat);
        lemma_pow256_bounds(n as nat);
    }
    let u = read_unsigned_le(bytes, p, n);
    if n > 0 && bytes[p + n - 1] >= 128 {
        let mut pow: u128 = 1;
        let mut k: usize = 0;
        while k < n
            invariant
                k <= n <= 8,
                pow as int == pow256(k as nat),
            decreases n - k,
        {
            proof {
                lemma_pow256_bounds(k as nat);
                lemma_pow256_bounds((k + 1) as nat);
            }
            pow = pow * 256;
            k = k + 1;
        }
        proof {
            lemma_pow256_bounds(n as nat);
        }
        u as i128 - pow as i128
    } else {
        u as i128
    }
}

/// Parses a data-run list starting at `bytes[0]`, resolving each signed
/// delta into an absolute cluster number. Stops at a zero header byte or
/// at the end of the slice. Sparse runs are skipped. A header that claims
/// more bytes than remain, a field wider than 8 bytes, or a start cluster
/// outside `0..=i64::MAX` is an error.
pub fn parse_data_runs(bytes: &[u8]) -> (r: Result<Vec<DataRun>, DomainError>)
    ensures
        match r {
            Ok(runs) => spec_data_runs(bytes@) == Some(runs@),
            Err(e) => spec_data_runs(bytes@) is None && e is DirEntry,
        },
{
    let mut runs: Vec<DataRun> = Vec::new();
    let mut pos: usize = 0;
    let mut current_lcn: i128 = 0;
    let n = bytes.len();
    while pos < n
        invariant
            n == bytes@.len(),
            pos <= n,
            0 <= current_lcn <= i64::MAX,
            spec_data_runs(bytes@) == match runs_from(bytes@, pos as int, current_lcn as int) {
                Some(rest) => Some(runs@ + rest),
                None => None::<Seq<DataRun>>,
            },
        decreases n - pos,
    {
        let header = bytes[pos];
        if header == 0 {
            proof {
                assert(runs@ + seq![] =~= runs@);
            }
            return Ok(runs);
        }
        let p = pos + 1;
        let length_size = (header % 16) as usize;
        let offset_size = (header / 16) as usize;
        if length_size + offset_size > n - p {
            return Err(DomainError::DirEntry(
                "data run header claims more bytes than remain in the attribute".to_string(),
            ));
        }
        if length_size > 8 || offset_size > 8 {
            return Err(DomainError::DirEntry(
                "data run field is wider than 8 bytes".to_string(),
            ));
        }
        let length = read_unsigned_le(bytes, p, length_size);
        if offset_size > 0 {
            let delta = read_signed_le(bytes, p + length_size, offset_size);
            let next = current_lcn + delta;
            if next < 0 || next > i64::MAX as i128 {
                return Err(DomainError::DirEntry(
                    "data run resolved to a cluster outside the volume's range".to_string(),
                ));
            }
            let ghost old_runs = runs@;
            let run = DataRun { start_lcn: next as u64, length_clusters: length };
            runs.push(run);
            proof {
                assert(runs@ == old_runs + seq![run]);
                assert forall|rest: Seq<DataRun>|
                    #![trigger old_runs + (seq![run] + rest)]
                    old_runs + (seq![run] + rest) == runs@ + rest by {
                    assert(old_runs + (seq![run] + rest) =~= runs@ + rest);
                }
            }
            current_lcn = next;
        }
        pos = p + length_size + offset_size;
    }
    proof {
        assert(runs@ + seq![] =~= runs@);
    }
    Ok(runs)
}

} // verus!
