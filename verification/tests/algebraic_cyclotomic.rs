use symmetrica::algebraic::cyclotomic::{euler_phi, is_primitive_root, Cyclotomic};
use symmetrica::arith::Q;



#[test]
fn test_euler_phi() {
    assert_eq!(euler_phi(1), 1);
    assert_eq!(euler_phi(2), 1);
    assert_eq!(euler_phi(3), 2);
    assert_eq!(euler_phi(4), 2);
    assert_eq!(euler_phi(5), 4);
    assert_eq!(euler_phi(6), 2);
    assert_eq!(euler_phi(8), 4);
    assert_eq!(euler_phi(12), 4);
}

#[test]
fn test_primitive_root_creation() {
    let zeta_4 = Cyclotomic::primitive_root(4);
    assert_eq!(zeta_4.n, 4);
    assert_eq!(zeta_4.degree(), 2); // φ(4) = 2
}

#[test]
fn test_from_rational() {
    let q = Q::new(3, 2);
    let elem = Cyclotomic::from_rational(q, 5);
    assert_eq!(elem.coeffs[0], q);
    assert_eq!(elem.degree(), 4); // φ(5) = 4
}

#[test]
fn test_addition() {
    let a = Cyclotomic::from_rational(Q::new(1, 1), 3);
    let b = Cyclotomic::from_rational(Q::new(2, 1), 3);
    let c = a + b;
    assert_eq!(c.coeffs[0], Q::new(3, 1));
}

#[test]
fn test_multiplication_constants() {
    let a = Cyclotomic::from_rational(Q::new(2, 1), 4);
    let b = Cyclotomic::from_rational(Q::new(3, 1), 4);
    let c = a * b;
    assert_eq!(c.coeffs[0], Q::new(6, 1));
}

#[test]
fn test_is_primitive_root() {
    assert!(is_primitive_root(1, 5));
    assert!(is_primitive_root(2, 5));
    assert!(is_primitive_root(3, 5));
    assert!(is_primitive_root(4, 5));
    assert!(!is_primitive_root(0, 5));

    assert!(is_primitive_root(1, 6));
    assert!(!is_primitive_root(2, 6)); // gcd(2,6) = 2
    assert!(!is_primitive_root(3, 6)); // gcd(3,6) = 3
    assert!(is_primitive_root(5, 6));
}

#[test]
fn test_conjugate() {
    let zeta = Cyclotomic::primitive_root(4);
    let conj = zeta.conjugate();

    // For ζ_4 = i, conjugate should be -i = ζ_4^3
    assert_eq!(conj.n, 4);
}

#[test]
fn test_degree() {
    assert_eq!(Cyclotomic::primitive_root(3).degree(), 2);
    assert_eq!(Cyclotomic::primitive_root(4).degree(), 2);
    assert_eq!(Cyclotomic::primitive_root(5).degree(), 4);
    assert_eq!(Cyclotomic::primitive_root(8).degree(), 4);
}


#[test]
fn zeta_squared_and_conjugate_are_reduced() {
    let z = Cyclotomic::primitive_root(4);
    let sq = z.clone() * z.clone();
    assert_eq!(sq.coeffs, vec![Q::new(-1, 1), Q::new(0, 1)]);
    let c = z.conjugate();
    assert_eq!(c.coeffs, vec![Q::new(0, 1), Q::new(-1, 1)]);
    assert_eq!(c.n, 4);
    // ζ_3² = -1 - ζ_3
    let w = Cyclotomic::primitive_root(3);
    let w2 = w.clone() * w;
    assert_eq!(w2.coeffs, vec![Q::new(-1, 1), Q::new(-1, 1)]);
}
