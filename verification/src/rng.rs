//! A small deterministic generator (xorshift64*), so that the cases are the
//! same on every run.

use vstd::prelude::*;

verus! {

/// The xorshift64* output multiplier.
pub const XORSHIFT_MULTIPLIER: u64 = 0x2545_f491_4f6c_dd1d;

/// A generator whose whole state is one 64-bit word.
pub struct Rng(pub u64);

/// The state after one step of xorshift64 from `s`.
pub open spec fn xorshift_step(s: u64) -> u64 {
    let a = s ^ (s >> 12u64);
    let b = a ^ ((a << 25u64) as u64);
    b ^ (b >> 27u64)
}

/// What a step outputs from the new state `s`: `s` times the multiplier,
/// modulo 2^64.
pub open spec fn xorshift_output(s: u64) -> u64 {
    ((s as nat * XORSHIFT_MULTIPLIER as nat) % 0x1_0000_0000_0000_0000) as u64
}

/// One step of xorshift64 gives zero exactly from zero: each of its three
/// shifts-and-xors can be undone, so a generator seeded with anything but
/// zero never reaches the all-zero state, and one seeded with zero stays there.
pub proof fn law_step_zero(s: u64)
    ensures
        (xorshift_step(s) == 0) <==> (s == 0),
{
    let a = s ^ (s >> 12u64);
    let b = a ^ ((a << 25u64) as u64);
    let c = b ^ (b >> 27u64);
    assert((a == 0) <==> (s == 0)) by (bit_vector)
        requires
            a == s ^ (s >> 12u64),
    ;
    assert((b == 0) <==> (a == 0)) by (bit_vector)
        requires
            b == a ^ ((a << 25u64) as u64),
    ;
    assert((c == 0) <==> (b == 0)) by (bit_vector)
        requires
            c == b ^ (b >> 27u64),
    ;
}

impl Rng {
    /// Advances the state and returns the next output.
    pub fn next(&mut self) -> (r: u64)
        ensures
            final(self).0 == xorshift_step(old(self).0),
            r == xorshift_output(final(self).0),
    {
        self.0 = self.0 ^ (self.0 >> 12u64);
        self.0 = self.0 ^ (self.0 << 25u64);
        self.0 = self.0 ^ (self.0 >> 27u64);
        self.0.wrapping_mul(XORSHIFT_MULTIPLIER)
    }

    /// The next output reduced modulo `n`: a number below `n`.
    pub fn below(&mut self, n: usize) -> (r: usize)
        requires
            n > 0,
        ensures
            final(self).0 == xorshift_step(old(self).0),
            r as nat == xorshift_output(final(self).0) as nat % n as nat,
            r < n,
    {
        let x = self.next();
        (x % (n as u64)) as usize
    }
}

} // verus!
