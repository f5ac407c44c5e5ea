use symmetrica::calculus::{limit_poly, maclaurin, LimitPoint, LimitResult, Series};
use symmetrica::expr_core::Store;



#[test]
fn series_basic_ops() {
    let s1 = Series::const_q(2, 1, 3);
    let s2 = Series::x(3);
    let sum = s1.add(&s2, 3);
    assert_eq!(sum.coeffs[0], (2, 1));
    assert_eq!(sum.coeffs[1], (1, 1));
    let prod = s1.mul(&s2, 3);
    assert_eq!(prod.coeffs[1], (2, 1));
}

#[test]
fn series_sub() {
    let s1 = Series::const_q(5, 1, 2);
    let s2 = Series::const_q(3, 1, 2);
    let diff = s1.sub(&s2, 2);
    assert_eq!(diff.coeffs[0], (2, 1));
}

#[test]
fn series_scale() {
    let s = Series::x(2);
    let scaled = s.scale((3, 2), 2);
    assert_eq!(scaled.coeffs[0], (0, 1));
    assert_eq!(scaled.coeffs[1], (3, 2));
}

#[test]
fn series_truncate() {
    let mut s = Series::x(5);
    s.coeffs.push((0, 1));
    s.coeffs.push((0, 1));
    let t = s.truncate(2);
    assert!(t.coeffs.len() <= 3);
}

#[test]
fn series_compose_requires_zero_const() {
    let s = Series::const_q(1, 1, 3);
    let inner = Series::const_q(1, 1, 3);
    let res = s.compose(&inner, 3);
    assert!(res.is_none());
}

#[test]
fn maclaurin_mul() {
    let mut st = Store::new();
    let x = st.sym("x");
    let two = st.integer(2);
    let expr = st.mul(vec![two, x]);
    let s = maclaurin(&st, expr, "x", 3).expect("2x series");
    assert_eq!(s.coeffs[0], (0, 1));
    assert_eq!(s.coeffs[1], (2, 1));
}

#[test]
fn maclaurin_pow() {
    let mut st = Store::new();
    let x = st.sym("x");
    let one = st.integer(1);
    let two = st.integer(2);
    let xp1 = st.add(vec![x, one]);
    let pow = st.pow(xp1, two);
    let s = maclaurin(&st, pow, "x", 3).expect("(x+1)^2");
    assert_eq!(s.coeffs[0], (1, 1));
}

#[test]
fn maclaurin_negative_exponent_fails() {
    let mut st = Store::new();
    let x = st.sym("x");
    let m1 = st.integer(-1);
    let pow = st.pow(x, m1);
    let s = maclaurin(&st, pow, "x", 3);
    assert!(s.is_none());
}

#[test]
fn maclaurin_log_requires_one_at_zero() {
    let mut st = Store::new();
    let x = st.sym("x");
    let lnx = st.func("ln", vec![x]);
    let s = maclaurin(&st, lnx, "x", 3);
    assert!(s.is_none());
}

#[test]
fn limit_poly_constant() {
    let mut st = Store::new();
    let five = st.integer(5);
    let l = limit_poly(&st, five, "x", LimitPoint::Zero);
    assert_eq!(l, LimitResult::Finite((5, 1)));
}

#[test]
fn limit_poly_rational_coeff() {
    let mut st = Store::new();
    let x = st.sym("x");
    let half = st.rat(1, 2);
    let expr = st.mul(vec![half, x]);
    let l = limit_poly(&st, expr, "x", LimitPoint::Zero);
    assert_eq!(l, LimitResult::Finite((0, 1)));
}

#[test]
fn limit_poly_unsupported() {
    let mut st = Store::new();
    let x = st.sym("x");
    let sinx = st.func("sin", vec![x]);
    let l = limit_poly(&st, sinx, "x", LimitPoint::Zero);
    assert_eq!(l, LimitResult::Unsupported);
}


#[test]
fn maclaurin_basic_functions() {
    let mut st = Store::new();
    let x = st.sym("x");
    let order = 6;

    // exp(x)
    let expx = st.func("exp", vec![x]);
    let s_exp = maclaurin(&st, expx, "x", order).expect("exp series");
    assert_eq!(s_exp.coeffs[0], (1, 1));
    assert_eq!(s_exp.coeffs[1], (1, 1));
    assert_eq!(s_exp.coeffs[2], (1, 2));
    assert_eq!(s_exp.coeffs[3], (1, 6));

    // sin(x)
    let sinx = st.func("sin", vec![x]);
    let s_sin = maclaurin(&st, sinx, "x", order).expect("sin series");
    assert_eq!(s_sin.coeffs[0], (0, 1));
    assert_eq!(s_sin.coeffs[1], (1, 1));
    assert_eq!(s_sin.coeffs[2], (0, 1));
    assert_eq!(s_sin.coeffs[3], (-1, 6));

    // cos(x)
    let cosx = st.func("cos", vec![x]);
    let s_cos = maclaurin(&st, cosx, "x", order).expect("cos series");
    assert_eq!(s_cos.coeffs[0], (1, 1));
    assert_eq!(s_cos.coeffs[2], (-1, 2));
    assert_eq!(s_cos.coeffs[4], (1, 24));

    // ln(1 + x)
    let one = st.integer(1);
    let one_plus_x = st.add(vec![one, x]);
    let lnx = st.func("ln", vec![one_plus_x]);
    let s_ln = maclaurin(&st, lnx, "x", order).expect("ln series");
    assert_eq!(s_ln.coeffs[0], (0, 1));
    assert_eq!(s_ln.coeffs[1], (1, 1));
    assert_eq!(s_ln.coeffs[2], (-1, 2));
    assert_eq!(s_ln.coeffs[3], (1, 3));
}

#[test]
fn maclaurin_composition_sin_x2() {
    let mut st = Store::new();
    let x = st.sym("x");
    let two = st.integer(2);
    let x2 = st.pow(x, two);
    let sinx2 = st.func("sin", vec![x2]);
    let s = maclaurin(&st, sinx2, "x", 6).expect("series for sin(x^2)");
    assert_eq!(s.coeffs[0], (0, 1));
    assert_eq!(s.coeffs[1], (0, 1));
    assert_eq!(s.coeffs[2], (1, 1));
    assert_eq!(s.coeffs[3], (0, 1));
    assert_eq!(s.coeffs[4], (0, 1));
}

#[test]
fn limit_poly_zero_and_infinity() {
    let mut st = Store::new();
    let x = st.sym("x");
    // f(x) = x^2 + 3x + 2
    let two = st.integer(2);
    let x2 = st.pow(x, two);
    let three = st.integer(3);
    let three_x = st.mul(vec![three, x]);
    let two2 = st.integer(2);
    let f = st.add(vec![x2, three_x, two2]);
    let l0 = limit_poly(&st, f, "x", LimitPoint::Zero);
    assert_eq!(l0, LimitResult::Finite((2, 1)));
    let linf = limit_poly(&st, f, "x", LimitPoint::PosInf);
    assert_eq!(linf, LimitResult::Infinity);

    // g(x) = 5
    let g = st.integer(5);
    let g0 = limit_poly(&st, g, "x", LimitPoint::Zero);
    assert_eq!(g0, LimitResult::Finite((5, 1)));
    let ginf = limit_poly(&st, g, "x", LimitPoint::PosInf);
    assert_eq!(ginf, LimitResult::Finite((5, 1)));
}


