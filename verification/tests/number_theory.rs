use symmetrica::number_theory::{crt, crt_pair, factor, is_prime_u64, mod_inverse, mod_pow_u64, pollards_rho};


#[test]
fn small_primes_and_composites() {
    let primes = [2u64, 3, 5, 17, 19, 97, 2_147_483_647u64]; // 2^31-1 (Mersenne prime)
    for &p in &primes {
        assert!(is_prime_u64(p), "{} should be prime", p);
    }
    let comps = [1u64, 4, 6, 9, 21, 91, 221, 341, 561, 2_147_483_648u64]; // includes Carmichael numbers
    for &c in &comps {
        assert!(!is_prime_u64(c), "{} should be composite", c);
    }
}

#[test]
fn larger_numbers() {
    // Well-known prime: 1_000_000_007
    let p: u64 = 1_000_000_007;
    assert!(is_prime_u64(p));

    // Neighbor composite
    assert!(!is_prime_u64(1_000_000_008));
}

#[test]
fn mod_inverse_basic() {
    // 3 * 7 == 21 == 1 (mod 10)
    assert_eq!(mod_inverse(3, 10), Some(7));
    // inverse does not exist when gcd(a,m) != 1
    assert_eq!(mod_inverse(2, 4), None);
    // large modulus
    let m = 1_000_000_007u64;
    let a = 123_456_789u64;
    let inv = mod_inverse(a, m).unwrap();
    assert_eq!(((a as u128 * inv as u128) % m as u128) as u64, 1);
}

#[test]
fn mod_pow_u64_basic() {
    assert_eq!(mod_pow_u64(2, 10, 1000), 24);
    assert_eq!(mod_pow_u64(10, 0, 7), 1);
    assert_eq!(mod_pow_u64(5, 1, 7), 5);
}

#[test]
fn pollards_rho_finds_factor() {
    // 91 = 7 * 13
    let n = 91u64;
    let f = pollards_rho(n).expect("should find factor");
    assert!(f == 7 || f == 13);
    assert!(n.is_multiple_of(f));
}

#[test]
fn factor_semiprime() {
    let p: u64 = 1_000_003;
    let q: u64 = 1_000_033;
    let n = p * q;
    let mut fs = factor(n);
    fs.sort_unstable();
    assert_eq!(fs, vec![p, q]);
}

#[test]
fn crt_pair_basic() {
    // x ≡ 2 (mod 3), x ≡ 3 (mod 5) => x ≡ 8 (mod 15)
    let (x, m) = crt_pair(2, 3, 3, 5).expect("crt solution");
    assert_eq!(m, 15);
    assert_eq!(x % 3, 2);
    assert_eq!(x % 5, 3);
    assert_eq!(x % 15, 8);
}

#[test]
fn crt_pair_inconsistent() {
    // x ≡ 1 (mod 2), x ≡ 2 (mod 4) is inconsistent
    assert!(crt_pair(1, 2, 2, 4).is_none());
}

#[test]
fn crt_three_congruences() {
    // x ≡ 2 (mod 3), x ≡ 3 (mod 5), x ≡ 2 (mod 7) => x ≡ 23 (mod 105)
    let (x, m) = crt(&[(2, 3), (3, 5), (2, 7)]).expect("crt solution");
    assert_eq!(m, 105);
    assert_eq!(x % 3, 2);
    assert_eq!(x % 5, 3);
    assert_eq!(x % 7, 2);
    assert_eq!(x % 105, 23);
}


#[test]
fn pollards_rho_has_no_factor_of_two() {
    assert_eq!(pollards_rho(2), None);
    assert_eq!(pollards_rho(4), Some(2));
    let f = pollards_rho(91).expect("91 = 7 * 13");
    assert!(f == 7 || f == 13);
}

#[test]
fn factor_gives_primes() {
    for n in [2u64, 12, 91, 97, 360, 1_000_003, 600_851_475_143] {
        let fs = factor(n);
        assert_eq!(fs.iter().product::<u64>(), n);
        for &p in &fs {
            assert!(p >= 2 && (2..p).take_while(|d| d * d <= p).all(|d| p % d != 0));
        }
    }
    assert!(factor(1).is_empty());
}

#[test]
fn crt_pair_handles_moduli_above_two_to_the_62() {
    let m1: u128 = 5_000_000_000_000_000_000;
    let (x, l) = crt_pair(1, m1, 2, 3).unwrap();
    assert_eq!(l, 3 * m1);
    assert!(x < l);
    assert_eq!(x % m1, 1);
    assert_eq!(x % 3, 2);
}
