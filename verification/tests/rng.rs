use ecs_core::Rng;

#[test]
fn same_seed_same_sequence() {
    let mut a = Rng::new(42);
    let mut b = Rng::new(42);
    for _ in 0..200 {
        assert_eq!(a.next_u64(), b.next_u64());
    }
}

#[test]
fn different_seeds_diverge() {
    let mut a = Rng::new(1);
    let mut b = Rng::new(2);
    let seq_a: Vec<u64> = (0..20).map(|_| a.next_u64()).collect();
    let seq_b: Vec<u64> = (0..20).map(|_| b.next_u64()).collect();
    assert_ne!(seq_a, seq_b);
}

#[test]
fn reseed_restarts_the_sequence() {
    let mut a = Rng::new(7);
    let first_run: Vec<u64> = (0..10).map(|_| a.next_u64()).collect();
    a.reseed(7);
    let second_run: Vec<u64> = (0..10).map(|_| a.next_u64()).collect();
    assert_eq!(first_run, second_run);
}

#[test]
fn splitmix_known_first_output_for_seed_zero() {
    // state = 0 ^ gamma; first draw adds gamma once more: state = 2 * gamma (mod 2^64)
    let mut r = Rng::new(0);
    let gamma: u64 = 0x9E37_79B9_7F4A_7C15;
    let mut z = (0u64 ^ gamma).wrapping_add(gamma);
    z = (z ^ (z >> 30)).wrapping_mul(0xBF58_476D_1CE4_E5B9);
    z = (z ^ (z >> 27)).wrapping_mul(0x94D0_49BB_1331_11EB);
    z ^= z >> 31;
    assert_eq!(r.next_u64(), z);
}

#[test]
fn next_u32_is_the_high_half_of_next_u64() {
    let mut a = Rng::new(123);
    let mut b = Rng::new(123);
    for _ in 0..50 {
        let hi = (a.next_u64() >> 32) as u32;
        assert_eq!(b.next_u32(), hi);
    }
}

#[test]
fn default_is_seed_zero() {
    let mut a = Rng::default();
    let mut b = Rng::new(0);
    assert_eq!(a.next_u64(), b.next_u64());
}

#[test]
fn different_seeds_give_different_first_draws() {
    for s in 0u64..50 {
        let a = Rng::new(s).next_u64();
        let b = Rng::new(s + 1).next_u64();
        assert_ne!(a, b);
    }
    assert_ne!(Rng::new(u64::MAX).next_u64(), Rng::new(0).next_u64());
}
