use symmetrica::algebraic::Quad;
use symmetrica::arith::{add_q, mul_q, sub_q, Q};



fn q(n: i64, d: i64) -> Q {
    Q::new(n, d)
}

#[test]
fn add_sub_mul_basic() {
    let d = 5;
    let x = Quad::new(q(1, 2), q(1, 3), d); // 1/2 + (1/3)√5
    let y = Quad::new(q(2, 3), q(1, 6), d); // 2/3 + (1/6)√5
    let s = x + y;
    assert_eq!(s.d, d);
    // crude structural checks
    assert_eq!(s.a, add_q(q(1, 2), q(2, 3)));
    assert_eq!(s.b, add_q(q(1, 3), q(1, 6)));

    let p = x * y;
    // p = (1/2*2/3 + 1/3*1/6*5) + ((1/2*1/6) + (1/3*2/3))√5
    let ac = mul_q(q(1, 2), q(2, 3));
    let be = mul_q(q(1, 3), q(1, 6));
    let be_d = Q(be.0 * d, be.1);
    let ae = mul_q(q(1, 2), q(1, 6));
    let bc = mul_q(q(1, 3), q(2, 3));
    assert_eq!(p.a, add_q(ac, be_d));
    assert_eq!(p.b, add_q(ae, bc));
}

#[test]
fn norm_conjugate_identity() {
    let d = 3;
    let a = Quad::new(q(3, 4), q(2, 5), d);
    let c = a.conj();
    let n = a.norm();
    // a * conj(a) = norm(a) (as element of Q) = n + 0√d
    let prod = a * c;
    assert_eq!(prod.b, Q::zero());
    assert_eq!(prod.a, n);
}

#[test]
fn from_int_and_neg() {
    let d = 2;
    let x = Quad::from_int(7, d);
    assert_eq!(x.a, Q::new(7, 1));
    assert_eq!(x.b, Q::zero());
    let y = -x;
    assert_eq!(y.a, Q::new(-7, 1));
    assert_eq!(y.b, Q::zero());
}

#[test]
fn test_sub() {
    let d = 5;
    let x = Quad::new(q(3, 2), q(1, 3), d);
    let y = Quad::new(q(1, 2), q(1, 6), d);
    let diff = x - y;
    assert_eq!(diff.d, d);
    assert_eq!(diff.a, sub_q(q(3, 2), q(1, 2)));
    assert_eq!(diff.b, sub_q(q(1, 3), q(1, 6)));
}

#[test]
fn test_inverse() {
    let d = 2;
    // (1 + √2)
    let x = Quad::new(q(1, 1), q(1, 1), d);
    let x_inv = x.inv().unwrap();

    // x * x^(-1) should equal 1
    let prod = x * x_inv;
    assert_eq!(prod.a, Q::new(1, 1));
    assert_eq!(prod.b, Q::zero());
}

#[test]
fn test_inverse_zero() {
    let d = 3;
    let zero = Quad::new(Q::zero(), Q::zero(), d);
    assert!(zero.inv().is_none());
}

#[test]
fn test_division() {
    let d = 5;
    let x = Quad::new(q(3, 1), q(2, 1), d); // 3 + 2√5
    let y = Quad::new(q(1, 1), q(1, 1), d); // 1 + √5

    let quotient = x.div(&y).unwrap();
    // Verify: quotient * y = x
    let prod = quotient * y;
    assert_eq!(prod.a, x.a);
    assert_eq!(prod.b, x.b);
}

#[test]
fn test_trace() {
    let d = 7;
    let x = Quad::new(q(5, 2), q(3, 4), d); // 5/2 + (3/4)√7
    let tr = x.trace();
    // Trace = 2 * (5/2) = 5
    assert_eq!(tr, Q::new(5, 1));
}

#[test]
fn test_is_rational() {
    let d = 3;
    let rational = Quad::new(q(7, 3), Q::zero(), d);
    let irrational = Quad::new(q(1, 1), q(1, 1), d);

    assert!(rational.is_rational());
    assert!(!irrational.is_rational());
}

#[test]
fn test_as_rational() {
    let d = 11;
    let x = Quad::new(q(5, 2), Q::zero(), d);
    let y = Quad::new(q(1, 1), q(1, 1), d);

    assert_eq!(x.as_rational(), Some(q(5, 2)));
    assert_eq!(y.as_rational(), None);
}

#[test]
fn test_field_axioms() {
    let d = 2;
    let x = Quad::new(q(1, 1), q(1, 1), d);
    let y = Quad::new(q(2, 1), q(1, 2), d);
    let z = Quad::new(q(1, 3), q(1, 4), d);

    // Associativity of addition
    let lhs = (x + y) + z;
    let rhs = x + (y + z);
    assert_eq!(lhs.a, rhs.a);
    assert_eq!(lhs.b, rhs.b);

    // Commutativity of multiplication
    let lhs = x * y;
    let rhs = y * x;
    assert_eq!(lhs.a, rhs.a);
    assert_eq!(lhs.b, rhs.b);

    // Distributivity
    let lhs = x * (y + z);
    let rhs = (x * y) + (x * z);
    assert_eq!(lhs.a, rhs.a);
    assert_eq!(lhs.b, rhs.b);
}

