use symmetrica::algebraic::minimal_poly::{
    cyclotomic_polynomial, is_irreducible, minimal_poly_cbrt2, minimal_poly_i, minimal_poly_sqrt,
    RationalPoly,
};
use symmetrica::arith::Q;



#[test]
fn test_poly_creation() {
    let p = RationalPoly::from_ints(vec![1, 2, 3]);
    assert_eq!(p.degree(), 2);
    assert_eq!(p.coeffs.len(), 3);
}

#[test]
fn test_poly_eval() {
    // p(x) = 1 + 2x + 3x^2
    let p = RationalPoly::from_ints(vec![1, 2, 3]);

    // p(0) = 1
    assert_eq!(p.eval(Q::new(0, 1)), Q::new(1, 1));

    // p(1) = 1 + 2 + 3 = 6
    assert_eq!(p.eval(Q::new(1, 1)), Q::new(6, 1));

    // p(2) = 1 + 4 + 12 = 17
    assert_eq!(p.eval(Q::new(2, 1)), Q::new(17, 1));
}

#[test]
fn test_minimal_poly_sqrt() {
    // Minimal polynomial of √2 is x^2 - 2
    let p = minimal_poly_sqrt(2);
    assert_eq!(p.degree(), 2);
    assert_eq!(p.coeffs[0], Q::new(-2, 1));
    assert_eq!(p.coeffs[1], Q::new(0, 1));
    assert_eq!(p.coeffs[2], Q::new(1, 1));
}

#[test]
fn test_minimal_poly_i() {
    // Minimal polynomial of i is x^2 + 1
    let p = minimal_poly_i();
    assert_eq!(p.degree(), 2);
    assert_eq!(p.coeffs[0], Q::new(1, 1));
    assert_eq!(p.coeffs[2], Q::new(1, 1));
}

#[test]
fn test_cyclotomic_polynomial() {
    // Φ_1(x) = x - 1
    let phi1 = cyclotomic_polynomial(1);
    assert_eq!(phi1.degree(), 1);

    // Φ_2(x) = x + 1
    let phi2 = cyclotomic_polynomial(2);
    assert_eq!(phi2.degree(), 1);

    // Φ_3(x) = x^2 + x + 1
    let phi3 = cyclotomic_polynomial(3);
    assert_eq!(phi3.degree(), 2);

    // Φ_4(x) = x^2 + 1
    let phi4 = cyclotomic_polynomial(4);
    assert_eq!(phi4.degree(), 2);
    assert_eq!(phi4.coeffs[0], Q::new(1, 1));
    assert_eq!(phi4.coeffs[2], Q::new(1, 1));
}

#[test]
fn test_is_monic() {
    let monic = RationalPoly::from_ints(vec![1, 2, 1]);
    assert!(monic.is_monic());

    let not_monic = RationalPoly::from_ints(vec![1, 2, 3]);
    assert!(!not_monic.is_monic());
}

#[test]
fn test_make_monic() {
    // 2 + 4x + 6x^2 -> (1/3) + (2/3)x + x^2
    let p = RationalPoly::from_ints(vec![2, 4, 6]);
    let monic = p.make_monic();
    assert!(monic.is_monic());
    // Check leading coefficient is 1
    assert_eq!(monic.coeffs[monic.coeffs.len() - 1], Q::new(1, 1));
}

#[test]
fn test_is_irreducible_quadratic() {
    // x^2 - 2 is irreducible over Q
    let p = minimal_poly_sqrt(2);
    assert!(is_irreducible(&p));

    // x^2 + 1 is irreducible over Q
    let q = minimal_poly_i();
    assert!(is_irreducible(&q));
}

#[test]
fn test_minimal_poly_cbrt2() {
    let p = minimal_poly_cbrt2();
    assert_eq!(p.degree(), 3);
    assert_eq!(p.coeffs[0], Q::new(-2, 1));
}


#[test]
fn cyclotomic_polynomials_beyond_the_table() {
    assert_eq!(cyclotomic_polynomial(7), RationalPoly::from_ints(vec![1, 1, 1, 1, 1, 1, 1]));
    assert_eq!(cyclotomic_polynomial(4), RationalPoly::from_ints(vec![1, 0, 1]));
    assert_eq!(cyclotomic_polynomial(9), RationalPoly::from_ints(vec![1, 0, 0, 1, 0, 0, 1]));
    assert_eq!(cyclotomic_polynomial(12), RationalPoly::from_ints(vec![1, 0, -1, 0, 1]));
    assert_eq!(cyclotomic_polynomial(15), RationalPoly::from_ints(vec![1, -1, 0, 1, -1, 1, 0, -1, 1]));
    assert_eq!(cyclotomic_polynomial(7).degree(), 6);
}
