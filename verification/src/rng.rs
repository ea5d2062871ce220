use vstd::prelude::*;
use vstd::wrapping::u64_specs::{wrapping_add, wrapping_mul};

verus! {

/// SplitMix64 increment; also scrambles the seed.
pub const GOLDEN_GAMMA: u64 = 0x9E37_79B9_7F4A_7C15;

/// The state a generator seeded with `seed` starts from.
pub open spec fn spec_seeded(seed: u64) -> u64 {
    seed ^ GOLDEN_GAMMA
}

/// The state after one draw from state `s`.
pub open spec fn spec_step(s: u64) -> u64 {
    wrapping_add(s, GOLDEN_GAMMA)
}

/// SplitMix64's output function.
pub open spec fn spec_mix(z: u64) -> u64 {
    let z1 = wrapping_mul(z ^ (z >> 30u64), 0xBF58_476D_1CE4_E5B9u64);
    let z2 = wrapping_mul(z1 ^ (z1 >> 27u64), 0x94D0_49BB_1331_11EBu64);
    z2 ^ (z2 >> 31u64)
}

/// The state after `n` draws from state `s`.
pub open spec fn spec_state_after(s: u64, n: nat) -> u64
    decreases n,
{
    if n == 0 {
        s
    } else {
        spec_step(spec_state_after(s, (n - 1) as nat))
    }
}

/// The `n`-th value (from 0) that `next_u64` returns from state `s`.
pub open spec fn spec_output(s: u64, n: nat) -> u64 {
    spec_mix(spec_state_after(s, n + 1))
}

/// A small deterministic pseudo-random generator (SplitMix64): the same seed
/// always gives the same sequence.
#[derive(Debug, Clone)]
pub struct Rng {
    state: u64,
}

impl Rng {
    /// The generator's internal state.
    pub closed spec fn spec_state(&self) -> u64 {
        self.state
    }

    /// A generator seeded with `seed` (scrambled with a fixed odd constant).
    pub fn new(seed: u64) -> (r: Self)
        ensures
            r.spec_state() == spec_seeded(seed),
            r.spec_state() == seed ^ 0x9E37_79B9_7F4A_7C15u64,
    {
        Rng { state: seed ^ GOLDEN_GAMMA }
    }

    /// Restart the generator as if freshly created with `seed`.
    pub fn reseed(&mut self, seed: u64)
        ensures
            final(self).spec_state() == spec_seeded(seed),
            final(self).spec_state() == seed ^ 0x9E37_79B9_7F4A_7C15u64,
    {
        self.state = seed ^ GOLDEN_GAMMA;
    }

    /// The next 64-bit value.
    pub fn next_u64(&mut self) -> (r: u64)
        ensures
            final(self).spec_state() == spec_step(old(self).spec_state()),
            r == spec_mix(final(self).spec_state()),
    {
        self.state = self.state.wrapping_add(GOLDEN_GAMMA);
        let z = self.state;
        let z1 = (z ^ (z >> 30u64)).wrapping_mul(0xBF58_476D_1CE4_E5B9u64);
        let z2 = (z1 ^ (z1 >> 27u64)).wrapping_mul(0x94D0_49BB_1331_11EBu64);
        z2 ^ (z2 >> 31u64)
    }

    /// The high 32 bits of the next 64-bit value.
    pub fn next_u32(&mut self) -> (r: u32)
        ensures
            final(self).spec_state() == spec_step(old(self).spec_state()),
            r == (spec_mix(final(self).spec_state()) >> 32u64) as u32,
    {
        let v = self.next_u64();
        (v >> 32u64) as u32
    }
}

impl Default for Rng {
    /// A generator with the fixed seed 0.
    fn default() -> (r: Self)
        ensures
            r.spec_state() == spec_seeded(0),
    {
        Rng::new(0)
    }
}

/// Determinism: from a given state, the `k`-th draw is `spec_output(state, k)`,
/// so two generators with the same seed produce the same sequence and
/// reseeding restarts it.
pub proof fn lemma_draws(s: u64, k: nat)
    ensures
        spec_state_after(s, k + 1) == spec_step(spec_state_after(s, k)),
        spec_output(s, k) == spec_mix(spec_step(spec_state_after(s, k))),
{
}

/// Multiplying by `c` modulo 2^64 is undone by multiplying by `ci` when
/// `c * ci` is 1 modulo 2^64.
proof fn lemma_mul_undo(x: u64, c: u64, ci: u64, k: int)
    requires
        0 <= k,
        c as int * ci as int == 1 + k * 0x1_0000_0000_0000_0000,
    ensures
        wrapping_mul(wrapping_mul(x, c), ci) == x,
{
    let m: int = 0x1_0000_0000_0000_0000;
    let a: int = x as int * c as int;
    assert(a >= 0) by (nonlinear_arith)
        requires
            a == x as int * c as int,
            x >= 0,
            c >= 0,
    ;
    let y = wrapping_mul(x, c);
    assert(y as int == a % m);
    vstd::arithmetic::div_mod::lemma_mul_mod_noop_left(a, ci as int, m);
    assert(a * ci as int == m * (x as int * k) + x as int) by (nonlinear_arith)
        requires
            a == x as int * c as int,
            c as int * ci as int == 1 + k * m,
    ;
    vstd::arithmetic::div_mod::lemma_mod_multiples_vanish(x as int * k, x as int, m);
    vstd::arithmetic::div_mod::lemma_small_mod(x as nat, m as nat);
    assert(y as int * ci as int >= 0) by (nonlinear_arith)
        requires
            y >= 0,
            ci >= 0,
    ;
}

proof fn lemma_xorshift_injective(a: u64, b: u64)
    ensures
        a ^ (a >> 30u64) == b ^ (b >> 30u64) ==> a == b,
        a ^ (a >> 27u64) == b ^ (b >> 27u64) ==> a == b,
        a ^ (a >> 31u64) == b ^ (b >> 31u64) ==> a == b,
{
    assert(a ^ (a >> 30u64) == b ^ (b >> 30u64) ==> a == b) by (bit_vector);
    assert(a ^ (a >> 27u64) == b ^ (b >> 27u64) ==> a == b) by (bit_vector);
    assert(a ^ (a >> 31u64) == b ^ (b >> 31u64) ==> a == b) by (bit_vector);
}

/// SplitMix64's output function is one-to-one.
proof fn lemma_mix_injective(a: u64, b: u64)
    requires
        spec_mix(a) == spec_mix(b),
    ensures
        a == b,
{
    let a1 = wrapping_mul(a ^ (a >> 30u64), 0xBF58_476D_1CE4_E5B9u64);
    let b1 = wrapping_mul(b ^ (b >> 30u64), 0xBF58_476D_1CE4_E5B9u64);
    let a2 = wrapping_mul(a1 ^ (a1 >> 27u64), 0x94D0_49BB_1331_11EBu64);
    let b2 = wrapping_mul(b1 ^ (b1 >> 27u64), 0x94D0_49BB_1331_11EBu64);
    lemma_xorshift_injective(a2, b2);
    lemma_mul_undo(a1 ^ (a1 >> 27u64), 0x94D0_49BB_1331_11EBu64, 0x3196_42b2_d24d_8ec3u64, 2077064247507883091);
    lemma_mul_undo(b1 ^ (b1 >> 27u64), 0x94D0_49BB_1331_11EBu64, 0x3196_42b2_d24d_8ec3u64, 2077064247507883091);
    lemma_xorshift_injective(a1, b1);
    lemma_mul_undo(a ^ (a >> 30u64), 0xBF58_476D_1CE4_E5B9u64, 0x96de_1b17_3f11_9089u64, 8125545580553827436);
    lemma_mul_undo(b ^ (b >> 30u64), 0xBF58_476D_1CE4_E5B9u64, 0x96de_1b17_3f11_9089u64, 8125545580553827436);
    lemma_xorshift_injective(a, b);
}

/// Distinct states stay distinct after the same number of draws.
proof fn lemma_state_after_injective(a: u64, b: u64, n: nat)
    requires
        a != b,
    ensures
        spec_state_after(a, n) != spec_state_after(b, n),
    decreases n,
{
    if n > 0 {
        lemma_state_after_injective(a, b, (n - 1) as nat);
    }
}

/// Different seeds give different draws: for every `k`, the `k`-th value of a
/// generator seeded with `s1` differs from that of one seeded with `s2`
/// (seeding, stepping and SplitMix64's output function are all one-to-one).
pub proof fn lemma_seeds_diverge(s1: u64, s2: u64, k: nat)
    requires
        s1 != s2,
    ensures
        spec_output(spec_seeded(s1), k) != spec_output(spec_seeded(s2), k),
{
    assert(spec_seeded(s1) != spec_seeded(s2)) by {
        assert(s1 ^ GOLDEN_GAMMA == s2 ^ GOLDEN_GAMMA ==> s1 == s2) by (bit_vector);
    }
    lemma_state_after_injective(spec_seeded(s1), spec_seeded(s2), k + 1);
    if spec_output(spec_seeded(s1), k) == spec_output(spec_seeded(s2), k) {
        lemma_mix_injective(spec_state_after(spec_seeded(s1), k + 1), spec_state_after(spec_seeded(s2), k + 1));
    }
}

/// Seeding flips exactly the bits of the constant `0x9E37_79B9_7F4A_7C15`:
/// for every seed the starting state XOR the seed is that constant, and the
/// seed is recovered from the state by flipping them back.
pub proof fn lemma_seeding_flips_gamma(seed: u64)
    ensures
        spec_seeded(seed) ^ seed == 0x9E37_79B9_7F4A_7C15u64,
        spec_seeded(seed) ^ 0x9E37_79B9_7F4A_7C15u64 == seed,
{
    assert((seed ^ 0x9E37_79B9_7F4A_7C15u64) ^ seed == 0x9E37_79B9_7F4A_7C15u64) by (bit_vector);
    assert((seed ^ 0x9E37_79B9_7F4A_7C15u64) ^ 0x9E37_79B9_7F4A_7C15u64 == seed) by (bit_vector);
}

/// Known answer: the first draw of a generator seeded with 1.
pub proof fn lemma_first_draw_seed_one()
    ensures
        spec_output(spec_seeded(1), 0) == 16834447057089888969u64,
{
    let a: u64 = 11400714819323198484u64;
    let b: u64 = 4354685564936845353u64;
    let c: u64 = 4354685560920421858u64;
    let d: u64 = 16856203940006009426u64;
    let e: u64 = 16856203961121742799u64;
    let f: u64 = 16834447049251975685u64;
    assert(1u64 ^ 0x9E37_79B9_7F4A_7C15u64 == 11400714819323198484u64) by (bit_vector);
    assert(spec_seeded(1) == a);
    assert(spec_state_after(a, 0) == a);
    assert(spec_state_after(a, 1) == b);
    assert(4354685564936845353u64 ^ (4354685564936845353u64 >> 30u64) == 4354685560920421858u64) by (bit_vector);
    assert(wrapping_mul(c, 0xBF58_476D_1CE4_E5B9u64) == d);
    assert(16856203940006009426u64 ^ (16856203940006009426u64 >> 27u64) == 16856203961121742799u64) by (bit_vector);
    assert(wrapping_mul(e, 0x94D0_49BB_1331_11EBu64) == f);
    assert(16834447049251975685u64 ^ (16834447049251975685u64 >> 31u64) == 16834447057089888969u64) by (bit_vector);
}

} // verus!
