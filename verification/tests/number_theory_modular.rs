use symmetrica::number_theory::modular::{discrete_log, euler_totient, is_quadratic_residue, legendre_symbol, mod_pow, primitive_root, tonelli_shanks};


#[test]
fn test_mod_pow_small() {
    assert_eq!(mod_pow(2, 10, 1000), 24);
    assert_eq!(mod_pow(3, 4, 7), 4);
    assert_eq!(mod_pow(5, 3, 13), 8);
}

#[test]
fn test_mod_pow_large() {
    // 2^100 mod 1000000007
    let result = mod_pow(2, 100, 1_000_000_007);
    assert!(result < 1_000_000_007);
}

#[test]
fn test_legendre_symbol() {
    // 2 is a quadratic residue mod 7
    assert_eq!(legendre_symbol(2, 7), 1);
    // 3 is not a quadratic residue mod 7
    assert_eq!(legendre_symbol(3, 7), -1);
    // 0 mod 7
    assert_eq!(legendre_symbol(0, 7), 0);
}

#[test]
fn test_is_quadratic_residue() {
    // Squares are always quadratic residues
    assert!(is_quadratic_residue(1, 7));
    assert!(is_quadratic_residue(4, 7));
    assert!(is_quadratic_residue(2, 7)); // 3² ≡ 2 (mod 7)
}






















#[test]
fn test_tonelli_shanks() {
    // Find square root of 2 mod 7
    if let Some(r) = tonelli_shanks(2, 7) {
        assert_eq!((r * r) % 7, 2);
    }
    // Find square root of 10 mod 13
    if let Some(r) = tonelli_shanks(10, 13) {
        assert_eq!((r * r) % 13, 10);
    }
}

#[test]
fn test_tonelli_shanks_non_residue() {
    // 3 is not a quadratic residue mod 7
    assert!(tonelli_shanks(3, 7).is_none());
}

#[test]
fn test_discrete_log_small() {
    // 2^x ≡ 8 (mod 11), x = 3
    let result = discrete_log(2, 8, 11);
    assert_eq!(result, Some(3));
}

#[test]
fn test_euler_totient_small() {
    assert_eq!(euler_totient(1), 1);
    assert_eq!(euler_totient(2), 1); // φ(2) = 1
    assert_eq!(euler_totient(6), 2); // φ(6) = 2 (1,5 coprime to 6)
    assert_eq!(euler_totient(9), 6); // φ(9) = 6
}

#[test]
fn test_euler_totient_prime() {
    // For prime p, φ(p) = p-1
    assert_eq!(euler_totient(7), 6);
    assert_eq!(euler_totient(11), 10);
    assert_eq!(euler_totient(13), 12);
}

#[test]
fn test_euler_totient_prime_power() {
    // φ(p^k) = p^k - p^(k-1) = p^(k-1)(p-1)
    assert_eq!(euler_totient(4), 2); // φ(2^2) = 2
    assert_eq!(euler_totient(8), 4); // φ(2^3) = 4
    assert_eq!(euler_totient(25), 20); // φ(5^2) = 20
}

#[test]
fn test_primitive_root_small_primes() {
    // 2 is a primitive root mod 5
    let root = primitive_root(5);
    assert!(root.is_some());
    let g = root.unwrap();
    // Verify g generates all non-zero elements mod 5
    assert!((2..5).contains(&g));
}

#[test]
fn test_primitive_root_seven() {
    // 3 is the smallest primitive root mod 7
    let root = primitive_root(7);
    assert_eq!(root, Some(3));
    // Verify: 3^1=3, 3^2=2, 3^3=6, 3^4=4, 3^5=5, 3^6=1 (mod 7)
    // This generates all elements 1..6
}

#[test]
fn test_primitive_root_eleven() {
    // 2 is a primitive root mod 11
    let root = primitive_root(11);
    assert_eq!(root, Some(2));
}

#[test]
fn test_discrete_log_verify() {
    let base = 3u64;
    let modulus = 17u64;
    let x = 5u64;
    let target = mod_pow(base, x, modulus);
    let result = discrete_log(base, target, modulus);
    assert_eq!(result, Some(x));
}

#[test]
fn primitive_root_needs_a_prime() {
    assert_eq!(primitive_root(7), Some(3));
    assert_eq!(primitive_root(11), Some(2));
    assert_eq!(primitive_root(8), None);
    assert_eq!(primitive_root(9), None);
}

#[test]
fn tonelli_shanks_roots_square_to_n() {
    for &(n, p) in &[(2u64, 7u64), (5, 11), (10, 13), (3, 13), (4, 17)] {
        if let Some(x) = tonelli_shanks(n, p) {
            assert!(x < p);
            assert_eq!((x * x) % p, n % p);
        }
    }
    assert_eq!(tonelli_shanks(3, 7), None);
}

#[test]
fn tonelli_shanks_finds_a_root_for_every_residue_of_an_odd_prime() {
    for &p in &[3u64, 5, 7, 11, 13, 17, 29, 41, 97, 257, 65537] {
        for n in 1..p.min(300) {
            if legendre_symbol(n as i64, p) == 1 {
                let x = tonelli_shanks(n, p).expect("a residue has a root");
                assert!(x < p);
                assert_eq!((x * x) % p, n % p);
            } else {
                assert_eq!(tonelli_shanks(n, p), None);
            }
        }
    }
}
