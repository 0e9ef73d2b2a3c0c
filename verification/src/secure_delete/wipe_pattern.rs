//! Wipe patterns: what bytes to overwrite freed space with, and how many
//! passes. This module only generates bytes; writing them is the wipe
//! job's work.
//!
//! On pattern choice: the 35-pass Gutmann method and the DoD 5220.22-M
//! 3-pass pattern were designed for the magnetic encodings of drives from
//! decades ago. NIST SP 800-88 holds that one well-distributed overwrite
//! pass is enough for hard disks, and that overwriting is unreliable on
//! SSDs at all (wear leveling maps a logical address to a different cell
//! on each write), where TRIM or crypto-erase are the right tools. The
//! 3-pass pattern is offered because people expect it, not because it is
//! stronger.

use crate::clock::unix_time_nanos;
use vstd::prelude::*;

verus! {

/// What one pass writes.
#[derive(Debug, Clone, Copy, PartialEq, Eq, Structural)]
pub enum PassFill {
    Zero,
    One,
    Random,
}

/// A named sequence of passes.
#[derive(Debug, Clone, Copy)]
pub struct WipePattern {
    pub name: &'static str,
    pub passes: &'static [PassFill],
}

impl WipePattern {
    /// One pass of zeros.
    pub fn zero() -> (r: WipePattern)
        ensures
            r.name@ == "Zero (1-pass)"@,
            r.passes@ == seq![PassFill::Zero],
    {
        WipePattern { name: "Zero (1-pass)", passes: &[PassFill::Zero] }
    }

    /// One pass of pseudo-random bytes.
    pub fn random() -> (r: WipePattern)
        ensures
            r.name@ == "Random (1-pass)"@,
            r.passes@ == seq![PassFill::Random],
    {
        WipePattern { name: "Random (1-pass)", passes: &[PassFill::Random] }
    }

    /// The short variant of DoD 5220.22-M: zeros, then all ones, then
    /// random bytes.
    pub fn dod_3pass() -> (r: WipePattern)
        ensures
            r.name@ == "DoD 5220.22-M (3-pass)"@,
            r.passes@ == seq![PassFill::Zero, PassFill::One, PassFill::Random],
    {
        WipePattern {
            name: "DoD 5220.22-M (3-pass)",
            passes: &[PassFill::Zero, PassFill::One, PassFill::Random],
        }
    }
}

/// The multiplier of xorshift64*.
pub const XORSHIFT_MULTIPLIER: u64 = 0x2545_F491_4F6C_DD1D;

/// The seed used when the clock cannot be read.
pub const FALLBACK_SEED: u64 = 0x9E37_79B9_7F4A_7C15;

/// The seed used in place of zero, which xorshift never leaves.
pub const NONZERO_SEED: u64 = 0xDEAD_BEEF_CAFE_F00D;

/// The xorshift64* state after one step from `x`.
pub open spec fn xorshift_step(x: u64) -> u64 {
    let a = x ^ (x >> 12u64);
    let b = a ^ (a << 25u64);
    b ^ (b >> 27u64)
}

/// The state after `n` steps from `s`.
pub open spec fn state_after(s: u64, n: nat) -> u64
    decreases n,
{
    if n == 0 {
        s
    } else {
        xorshift_step(state_after(s, (n - 1) as nat))
    }
}

/// The output of step `n` (from 1) from state `s`: the new state times
/// the multiplier, modulo 2^64.
pub open spec fn output_at(s: u64, n: nat) -> u64 {
    ((state_after(s, n) as nat * XORSHIFT_MULTIPLIER as nat) % 0x1_0000_0000_0000_0000) as u64
}

/// Byte `k` (0 = least significant) of `v`.
pub open spec fn le_byte(v: u64, k: int) -> u8 {
    ((v >> ((8 * k) as u64)) & 0xFF) as u8
}

/// Byte `j` of the stream a generator in state `s` produces: the outputs
/// of its next steps, each laid out little-endian.
pub open spec fn stream_byte(s: u64, j: int) -> u8 {
    le_byte(output_at(s, (j / 8 + 1) as nat), j % 8)
}

/// Steps taken to produce `len` bytes: one per 8 bytes, rounding up.
pub open spec fn steps_for(len: int) -> nat {
    ((len + 7) / 8) as nat
}

/// A small, fast pseudo-random generator (xorshift64*). It is not
/// cryptographically secure: fine for making old bytes disappear from
/// free-space recovery tools, but a wipe that must resist a
/// well-resourced adversary should draw from the operating system's
/// CSPRNG instead.
pub struct WipeRng {
    state: u64,
}

impl WipeRng {
    /// The generator's state.
    pub closed spec fn spec_state(&self) -> u64 {
        self.state
    }

    /// The state is never zero: from zero, xorshift stays at zero.
    #[verifier::type_invariant]
    pub closed spec fn wf(&self) -> bool {
        self.state != 0
    }

    /// A generator seeded from the clock.
    pub fn seeded_from_time() -> (r: WipeRng)
        ensures
            r.spec_state() != 0,
    {
        let seed = match unix_time_nanos() {
            Some(n) => n,
            None => FALLBACK_SEED,
        };
        WipeRng::from_seed(seed)
    }

    /// A generator seeded with `seed`; a zero seed is replaced by a fixed
    /// non-zero one.
    pub fn from_seed(seed: u64) -> (r: WipeRng)
        ensures
            r.spec_state() == if seed == 0 {
                NONZERO_SEED
            } else {
                seed
            },
    {
        WipeRng {
            state: if seed == 0 {
                NONZERO_SEED
            } else {
                seed
            },
        }
    }

    /// Advances the generator and returns the step's output.
    fn next_u64(&mut self) -> (r: u64)
        ensures
            final(self).spec_state() == xorshift_step(old(self).spec_state()),
            r == output_at(old(self).spec_state(), 1),
    {
        proof {
            use_type_invariant(&*self);
        }
        let mut x = self.state;
        x = x ^ (x >> 12u64);
        x = x ^ (x << 25u64);
        x = x ^ (x >> 27u64);
        proof {
            lemma_step_nonzero(self.state);
            assert(state_after(self.state, 0) == self.state);
            assert(state_after(self.state, 1) == xorshift_step(self.state));
        }
        self.state = x;
        x.wrapping_mul(XORSHIFT_MULTIPLIER)
    }

    /// Fills `buf` with the generator's next bytes: its next outputs, each
    /// laid out little-endian, the last one cut short to fit.
    pub fn fill_bytes(&mut self, buf: &mut [u8])
        ensures
            final(buf)@.len() == old(buf)@.len(),
            forall|j: int|
                0 <= j < final(buf)@.len() ==> #[trigger] final(buf)@[j] == stream_byte(
                    old(self).spec_state(),
                    j,
                ),
            final(self).spec_state() == state_after(old(self).spec_state(), steps_for(old(buf)@.len() as int)),
    {
        let ghost s0 = self.spec_state();
        let n = buf.len();
        let mut i: usize = 0;
        let ghost mut steps: nat = 0;
        while i < n
            invariant
                n == buf@.len(),
                n == old(buf)@.len(),
                i <= n,
                i % 8 == 0 || i == n,
                steps == (i + 7) / 8,
                self.spec_state() == state_after(s0, steps),
                forall|j: int| 0 <= j < i ==> #[trigger] buf@[j] == stream_byte(s0, j),
            decreases n - i,
        {
            let v = self.next_u64();
            proof {
                lemma_output_shift(s0, steps);
                steps = steps + 1;
            }
            let take = if n - i < 8 {
                n - i
            } else {
                8
            };
            let mut k: usize = 0;
            while k < take
                invariant
                    n == buf@.len(),
                    take <= 8,
                    i + take <= n,
                    i % 8 == 0,
                    steps == i / 8 + 1,
                    v == output_at(s0, steps),
                    k <= take,
                    forall|j: int| 0 <= j < i + k ==> #[trigger] buf@[j] == stream_byte(s0, j),
                decreases take - k,
            {
                #[verifier::truncate]
                let byte = ((v >> ((8 * k) as u64)) & 0xFF) as u8;
                buf[i + k] = byte;
                proof {
                    assert((i + k) / 8 == i / 8) by {
                        assert(i % 8 == 0);
                        assert(k < 8);
                    }
                    assert((i + k) % 8 == k as int);
                    assert(buf@[i + k as int] == stream_byte(s0, i + k));
                }
                k = k + 1;
            }
            i = i + take;
        }
    }
}

/// Stepping `a` times and then `b` more is stepping `a + b` times.
pub proof fn lemma_state_after_add(s: u64, a: nat, b: nat)
    ensures
        state_after(state_after(s, a), b) == state_after(s, a + b),
    decreases b,
{
    if b > 0 {
        lemma_state_after_add(s, a, (b - 1) as nat);
    }
}

/// A stream taken up again after its first `m` bytes, `m` a multiple of
/// 8, from the state those bytes left, goes on where it left off.
pub proof fn lemma_stream_resumes(s: u64, m: int, j: int)
    requires
        0 <= m,
        m % 8 == 0,
        0 <= j,
    ensures
        stream_byte(state_after(s, (m / 8) as nat), j) == stream_byte(s, m + j),
{
    let q = m / 8;
    assert(m == 8 * q);
    assert((m + j) / 8 == q + j / 8);
    assert((m + j) % 8 == j % 8);
    lemma_state_after_add(s, q as nat, (j / 8 + 1) as nat);
}

/// A non-zero state steps to a non-zero state.
proof fn lemma_step_nonzero(x: u64)
    requires
        x != 0,
    ensures
        xorshift_step(x) != 0,
{
    assert(x != 0 ==> ((x ^ (x >> 12u64)) ^ ((x ^ (x >> 12u64)) << 25u64)) ^ (((x ^ (x >> 12u64)) ^ ((x
        ^ (x >> 12u64)) << 25u64)) >> 27u64) != 0) by (bit_vector);
}

/// The output one step after `steps` steps is output `steps + 1`.
proof fn lemma_output_shift(s: u64, steps: nat)
    ensures
        output_at(state_after(s, steps), 1) == output_at(s, steps + 1),
{
    let t = state_after(s, steps);
    assert(state_after(t, 0) == t);
    assert(state_after(t, 1) == xorshift_step(t));
    assert(state_after(s, steps + 1) == xorshift_step(t));
}

/// Fills `buf` for one pass: zeros, all ones, or the generator's next
/// bytes. The generator is passed in, not made here, so that a pass
/// written in chunks gets one continuous stream rather than the same
/// bytes repeated in every chunk.
pub fn fill_pass(pass: PassFill, buf: &mut [u8], rng: &mut WipeRng)
    ensures
        final(buf)@.len() == old(buf)@.len(),
        pass == PassFill::Zero ==> (forall|j: int| 0 <= j < final(buf)@.len() ==> #[trigger] final(buf)@[j] == 0u8),
        pass == PassFill::One ==> (forall|j: int| 0 <= j < final(buf)@.len() ==> #[trigger] final(buf)@[j] == 0xFFu8),
        pass == PassFill::Random ==> (forall|j: int|
            0 <= j < final(buf)@.len() ==> #[trigger] final(buf)@[j] == stream_byte(old(rng).spec_state(), j)),
        pass == PassFill::Random ==> final(rng).spec_state() == state_after(
            old(rng).spec_state(),
            steps_for(old(buf)@.len() as int),
        ),
        pass != PassFill::Random ==> final(rng).spec_state() == old(rng).spec_state(),
{
    match pass {
        PassFill::Zero => fill_constant(buf, 0x00),
        PassFill::One => fill_constant(buf, 0xFF),
        PassFill::Random => rng.fill_bytes(buf),
    }
}

/// Sets every byte of `buf` to `value`.
fn fill_constant(buf: &mut [u8], value: u8)
    ensures
        final(buf)@.len() == old(buf)@.len(),
        forall|j: int| 0 <= j < final(buf)@.len() ==> #[trigger] final(buf)@[j] == value,
{
    let n = buf.len();
    let mut i: usize = 0;
    while i < n
        invariant
            n == buf@.len(),
            n == old(buf)@.len(),
            i <= n,
            forall|j: int| 0 <= j < i ==> #[trigger] buf@[j] == value,
        decreases n - i,
    {
        buf[i] = value;
        i = i + 1;
    }
}

} // verus!
