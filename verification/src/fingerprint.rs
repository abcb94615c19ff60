//! A stable fingerprint of text: 64-bit FNV-1a over its UTF-8 bytes.

use vstd::prelude::*;
use vstd::string::StringSliceAdditionalSpecFns;

verus! {

/// The FNV-1a offset basis.
pub const FNV_OFFSET: u64 = 0xcbf2_9ce4_8422_2325;

/// The FNV-1a prime.
pub const FNV_PRIME: u64 = 0x0100_0000_01b3;

/// 2^64, the modulus of the hash state.
pub open spec fn state_modulus() -> nat {
    0x1_0000_0000_0000_0000
}

/// One FNV-1a step: the byte is xored into the state, which is then
/// multiplied by the prime, modulo 2^64.
pub open spec fn fnv_step(h: u64, x: u8) -> u64 {
    (((h ^ (x as u64)) as nat * FNV_PRIME as nat) % state_modulus()) as u64
}

/// FNV-1a steps over all of `bytes`, from the state `h`.
pub open spec fn fnv_fold(h: u64, bytes: Seq<u8>) -> u64
    decreases bytes.len(),
{
    if bytes.len() == 0 {
        h
    } else {
        fnv_step(fnv_fold(h, bytes.drop_last()), bytes.last())
    }
}

/// FNV-1a over the first `n` bytes of `bytes`: each byte is xored into the
/// state, which is then multiplied by the prime, modulo 2^64.
pub open spec fn fnv1a(bytes: Seq<u8>, n: nat) -> u64
    decreases n,
{
    if n == 0 || n > bytes.len() {
        FNV_OFFSET
    } else {
        fnv_step(fnv1a(bytes, (n - 1) as nat), bytes[n - 1])
    }
}

/// The hash of a prefix depends on the bytes of that prefix alone.
proof fn lemma_fnv1a_prefix(s: Seq<u8>, t: Seq<u8>, n: nat)
    requires
        n <= s.len(),
        n <= t.len(),
        s.take(n as int) == t.take(n as int),
    ensures
        fnv1a(s, n) == fnv1a(t, n),
    decreases n,
{
    if n > 0 {
        assert(s[n - 1] == s.take(n as int)[n - 1]);
        assert(t[n - 1] == t.take(n as int)[n - 1]);
        assert(s.take(n - 1) =~= s.take(n as int).take(n - 1));
        assert(t.take(n - 1) =~= t.take(n as int).take(n - 1));
        lemma_fnv1a_prefix(s, t, (n - 1) as nat);
    }
}

/// Hashing `a` followed by `b` continues from the hash of `a`: the
/// fingerprint of a concatenation is the steps over `b` started from the
/// fingerprint of `a`.
pub proof fn law_fingerprint_continues(a: Seq<u8>, b: Seq<u8>)
    ensures
        fnv1a(a + b, (a + b).len()) == fnv_fold(fnv1a(a, a.len()), b),
    decreases b.len(),
{
    if b.len() == 0 {
        assert(a + b =~= a);
    } else {
        let b1 = b.drop_last();
        law_fingerprint_continues(a, b1);
        let n = (a + b).len();
        assert((a + b).take(n - 1) =~= (a + b1).take(n - 1));
        assert((a + b1).take((a + b1).len() as int) =~= (a + b1));
        lemma_fnv1a_prefix(a + b, a + b1, (n - 1) as nat);
        assert((a + b)[n - 1] == b.last());
    }
}

/// The inverse of the prime modulo 2^64.
pub open spec fn fnv_prime_inverse() -> nat {
    0xce96_5057_aff6_957b
}

/// Multiplying by the inverse undoes a multiplication by the prime, modulo
/// 2^64.
proof fn lemma_undo_prime(z: u64)
    ensures
        ((z as nat * FNV_PRIME as nat) % state_modulus()) * fnv_prime_inverse() % state_modulus() == z,
{
    let m = state_modulus() as int;
    let p = FNV_PRIME as int;
    let q = fnv_prime_inverse() as int;
    let zi = z as int;
    assert(p * q == 1 + 887285111055 * m);
    vstd::arithmetic::div_mod::lemma_mul_mod_noop_left(zi * p, q, m);
    assert((zi * p) * q == zi * (p * q)) by (nonlinear_arith);
    assert(zi * (1 + 887285111055 * m) == m * (zi * 887285111055) + zi) by (nonlinear_arith);
    vstd::arithmetic::div_mod::lemma_mod_multiples_vanish(zi * 887285111055, zi, m);
    vstd::arithmetic::div_mod::lemma_small_mod(z as nat, m as nat);
}

/// Multiplying by the prime modulo 2^64 can be undone, so two different
/// states stay different.
proof fn lemma_mul_prime_injective(x: u64, y: u64)
    requires
        (x as nat * FNV_PRIME as nat) % state_modulus() == (y as nat * FNV_PRIME as nat) % state_modulus(),
    ensures
        x == y,
{
    lemma_undo_prime(x);
    lemma_undo_prime(y);
}

/// Two states that differ stay different after a step with the same byte.
proof fn lemma_step_keeps_apart(g: u64, h: u64, x: u8)
    requires
        g != h,
    ensures
        fnv_step(g, x) != fnv_step(h, x),
{
    let xx = x as u64;
    assert((g ^ xx) != (h ^ xx)) by (bit_vector)
        requires
            g != h,
    ;
    if fnv_step(g, x) == fnv_step(h, x) {
        lemma_mul_prime_injective(g ^ xx, h ^ xx);
    }
}

/// Once the hashes of two prefixes differ they differ at every longer
/// prefix where the bytes agree.
proof fn lemma_apart_from(a: Seq<u8>, b: Seq<u8>, k: int, n: nat)
    requires
        a.len() == b.len(),
        0 <= k < n <= a.len(),
        forall|i: int| 0 <= i < a.len() && i != k ==> a[i] == b[i],
        fnv1a(a, (k + 1) as nat) != fnv1a(b, (k + 1) as nat),
    ensures
        fnv1a(a, n) != fnv1a(b, n),
    decreases n,
{
    if n > k + 1 {
        lemma_apart_from(a, b, k, (n - 1) as nat);
        lemma_step_keeps_apart(fnv1a(a, (n - 1) as nat), fnv1a(b, (n - 1) as nat), a[n - 1]);
    }
}

/// Two byte strings of one length that differ in exactly one byte have
/// different fingerprints: each step is one-to-one in the state for a fixed
/// byte, and in the byte for a fixed state.
pub proof fn law_fingerprint_one_byte(a: Seq<u8>, b: Seq<u8>, k: int)
    requires
        a.len() == b.len(),
        0 <= k < a.len(),
        a[k] != b[k],
        forall|i: int| 0 <= i < a.len() && i != k ==> a[i] == b[i],
    ensures
        fnv1a(a, a.len()) != fnv1a(b, b.len()),
{
    assert(a.take(k) =~= b.take(k));
    lemma_fnv1a_prefix(a, b, k as nat);
    let h = fnv1a(a, k as nat);
    let (xa, xb) = (a[k] as u64, b[k] as u64);
    assert((h ^ xa) != (h ^ xb)) by (bit_vector)
        requires
            xa != xb,
    ;
    if fnv1a(a, (k + 1) as nat) == fnv1a(b, (k + 1) as nat) {
        lemma_mul_prime_injective(h ^ xa, h ^ xb);
    }
    lemma_apart_from(a, b, k, a.len());
}

/// FNV-1a: stable across builds, which `DefaultHasher` does not promise.
pub fn fingerprint(text: &str) -> (h: u64)
    ensures
        h == fnv1a(text.spec_bytes(), text.spec_bytes().len()),
{
    let bytes = text.as_bytes();
    let mut h: u64 = FNV_OFFSET;
    let mut i: usize = 0;
    while i < bytes.len()
        invariant
            i <= bytes@.len(),
            bytes@ == text.spec_bytes(),
            h == fnv1a(bytes@, i as nat),
        decreases bytes@.len() - i,
    {
        h = h ^ (bytes[i] as u64);
        h = h.wrapping_mul(FNV_PRIME);
        i = i + 1;
    }
    h
}

} // verus!
