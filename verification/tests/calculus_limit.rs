use symmetrica::calculus::limit::{limit, LimitPoint, LimitResult};
use symmetrica::expr_core::Store;



#[test]
fn test_limit_constant() {
    let mut st = Store::new();
    let five = st.integer(5);

    let result = limit(&st, five, "x", LimitPoint::PositiveInfinity);
    assert_eq!(result, LimitResult::Finite((5, 1)));
}

#[test]
fn test_limit_variable_at_infinity() {
    let mut st = Store::new();
    let x = st.sym("x");

    let result = limit(&st, x, "x", LimitPoint::PositiveInfinity);
    assert_eq!(result, LimitResult::PositiveInfinity);

    let result_neg = limit(&st, x, "x", LimitPoint::NegativeInfinity);
    assert_eq!(result_neg, LimitResult::NegativeInfinity);
}

#[test]
fn test_limit_reciprocal() {
    let mut st = Store::new();
    let x = st.sym("x");
    let neg_one = st.integer(-1);
    let inv_x = st.pow(x, neg_one);

    // lim[x→∞] 1/x = 0
    let result = limit(&st, inv_x, "x", LimitPoint::PositiveInfinity);
    assert_eq!(result, LimitResult::Finite((0, 1)));
}

#[test]
fn test_limit_polynomial() {
    let mut st = Store::new();
    let x = st.sym("x");
    let two = st.integer(2);
    let x_squared = st.pow(x, two);

    // lim[x→∞] x² = ∞
    let result = limit(&st, x_squared, "x", LimitPoint::PositiveInfinity);
    assert_eq!(result, LimitResult::PositiveInfinity);
}

#[test]
fn test_limit_exponential() {
    let mut st = Store::new();
    let x = st.sym("x");
    let exp_x = st.func("exp", vec![x]);

    // lim[x→∞] e^x = ∞
    let result = limit(&st, exp_x, "x", LimitPoint::PositiveInfinity);
    assert_eq!(result, LimitResult::PositiveInfinity);

    // lim[x→-∞] e^x = 0
    let result_neg = limit(&st, exp_x, "x", LimitPoint::NegativeInfinity);
    assert_eq!(result_neg, LimitResult::Finite((0, 1)));
}

#[test]
fn test_limit_sum() {
    let mut st = Store::new();
    let x = st.sym("x");
    let five = st.integer(5);
    let expr = st.add(vec![x, five]);

    // lim[x→∞] (x + 5) = ∞
    let result = limit(&st, expr, "x", LimitPoint::PositiveInfinity);
    assert_eq!(result, LimitResult::PositiveInfinity);
}


#[test]
fn limit_of_proper_fraction_power_and_reciprocal_at_infinity() {
    let mut st = Store::new();
    let x = st.sym("x");
    let m1 = st.integer(-1);
    let inv = st.pow(x, m1);
    let q = st.rat(3, 4);
    let e = st.pow(q, x);
    assert_eq!(limit(&st, inv, "x", LimitPoint::PositiveInfinity), LimitResult::Finite((0, 1)));
    assert_eq!(limit(&st, e, "x", LimitPoint::PositiveInfinity), LimitResult::Finite((0, 1)));
    let big = st.rat(5, 4);
    let g = st.pow(big, x);
    assert_eq!(limit(&st, g, "x", LimitPoint::PositiveInfinity), LimitResult::PositiveInfinity);
}
