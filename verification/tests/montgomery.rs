use montgomery::reducer::{MontgomeryReducer, MAX_MODULUS};
use rand::Rng;

/// Direct modulo reference for the differential checks.
fn reference_mod_mul(a: u64, b: u64, n: u64) -> u64 {
    ((a as u128 * b as u128) % n as u128) as u64
}

#[test]
fn test_mod_mul() {
    let test_cases = vec![
        (2, 5, 7, 3),
        (3, 4, 5, 2),
        (123, 456, 789, 69),
        (11, 18, 169, 29),
        (98765, 43210, 31415, 2145),
        (17, 19, 29, 4),
    ];

    for (a, b, n, expected) in test_cases {
        let reducer: MontgomeryReducer = MontgomeryReducer::new(n);
        assert_eq!(reducer.mod_mul(a, b), expected);
    }

    let mut rng: rand::rngs::ThreadRng = rand::thread_rng();
    for _ in 0..10 {
        let mut n: u64 = rng.gen_range(1..1_000_000);
        if n % 2 == 0 {
            n += 1;
        }
        let a: u64 = rng.gen_range(0..n);
        let b: u64 = rng.gen_range(0..n);
        let reducer: MontgomeryReducer = MontgomeryReducer::new(n);
        let expected: u64 = (a * b) % n;
        println!("{} * {} mod {} = {}", a, b, n, expected);
        assert_eq!(reducer.mod_mul(a, b), expected);
    }
}

#[test]
fn construction_is_deterministic() {
    for n in [3u64, 7, 169, 31415, 1_000_001, MAX_MODULUS] {
        let r1 = MontgomeryReducer::new(n);
        let r2 = MontgomeryReducer::new(n);
        assert_eq!(r1, r2);
        assert_eq!(r1.mod_mul(n / 2, n / 3), r2.mod_mul(n / 2, n / 3));
    }
}

#[test]
fn inverse_invariant() {
    for n in [1u64, 3, 5, 7, 169, 789, 31415, 1_000_001, MAX_MODULUS] {
        let red = MontgomeryReducer::new(n);
        let prod: u128 = red.n as u128 * red.n_prime as u128;
        assert_eq!(prod % red.r as u128, red.r as u128 - 1);
    }
}

#[test]
fn radix_invariant() {
    for n in [1u64, 3, 5, 7, 169, 789, 31415, 1_000_001, MAX_MODULUS] {
        let red = MontgomeryReducer::new(n);
        assert_eq!(red.r & (red.r - 1), 0, "r must be a power of two");
        assert_eq!(red.r, 1u64 << red.r_x);
        assert!(red.r > red.n);
        assert!(red.r / 2 <= red.n);
    }
}

#[test]
fn reduction_bound() {
    for n in [3u64, 7, 169, 31415, MAX_MODULUS] {
        let red = MontgomeryReducer::new(n);
        for a in [0u64, 1, n - 1, n, 2 * n + 1, (n - 1) * (n - 1)] {
            assert!(red.montgomery_reduction(a) < n);
        }
    }
}

#[test]
fn matches_direct_modulo_exhaustively_for_small_moduli() {
    for n in (1u64..40).step_by(2) {
        let red = MontgomeryReducer::new(n);
        for a in 0..n {
            for b in 0..n {
                assert_eq!(red.mod_mul(a, b), reference_mod_mul(a, b, n));
            }
        }
    }
}

#[test]
fn largest_supported_modulus() {
    let n: u64 = MAX_MODULUS;
    assert_eq!(n % 2, 1);
    let red = MontgomeryReducer::new(n);
    assert_eq!(red.mod_mul(n - 1, n - 1), reference_mod_mul(n - 1, n - 1, n));
    assert_eq!(red.mod_mul(n - 1, n - 1), 1);
    assert_eq!(red.mod_mul(0, n - 1), 0);
    assert_eq!(red.mod_mul(1, n - 1), n - 1);
}

#[test]
fn trivial_modulus_one() {
    let red = MontgomeryReducer::new(1);
    assert_eq!(red.mod_mul(0, 0), 0);
}
