use symmetrica::expr_core::Store;
use symmetrica::io::to_latex;


#[test]
fn latex_rational_power_mul() {
    let mut st = Store::new();
    let x = st.sym("x");
    let three = st.integer(3);
    let x3 = st.pow(x, three);
    let one_over_three = st.rat(1, 3);
    let expr = st.mul(vec![one_over_three, x3]);
    let s = to_latex(&st, expr);
    // Expect a fraction multiplied by x^{3}
    assert!(s.contains("\\frac{1}{3}"));
    assert!(s.contains("x^{3}"));
}

#[test]
fn latex_functions_and_parentheses() {
    let mut st = Store::new();
    let x = st.sym("x");
    let one = st.integer(1);
    let xp1 = st.add(vec![x, one]);
    let two = st.integer(2);
    let pow = st.pow(xp1, two); // (x+1)^2
    let sin_pow = st.func("sin", vec![pow]);
    let s = to_latex(&st, sin_pow);
    assert!(s.starts_with("\\sin("));
    assert!(s.contains("(x + 1)^{2}") || s.contains("(1 + x)^{2}"));
}

#[test]
fn latex_common_funcs() {
    let mut st = Store::new();
    let x = st.sym("x");
    let sinx = st.func("sin", vec![x]);
    let cosx = st.func("cos", vec![x]);
    let expx = st.func("exp", vec![x]);
    let lnx = st.func("ln", vec![x]);
    assert_eq!(to_latex(&st, sinx), "\\sin(x)");
    assert_eq!(to_latex(&st, cosx), "\\cos(x)");
    assert_eq!(to_latex(&st, expx), "\\exp(x)");
    assert_eq!(to_latex(&st, lnx), "\\ln(x)");
}

#[test]
fn latex_mul_add_parentheses() {
    let mut st = Store::new();
    let x = st.sym("x");
    let one = st.integer(1);
    let xp1 = st.add(vec![x, one]);
    let y = st.sym("y");
    let expr = st.mul(vec![xp1, y]);
    let s = to_latex(&st, expr);
    assert!(s.contains("(x + 1) \\cdot y") || s.contains("(1 + x) \\cdot y"));
}

#[test]
fn latex_symbol_underscore_escape() {
    let mut st = Store::new();
    let x1 = st.sym("x_1");
    let s = to_latex(&st, x1);
    assert_eq!(s, "x\\_1");
}

#[test]
fn latex_pow_parentheses_for_mul_base() {
    let mut st = Store::new();
    let two = st.integer(2);
    let x = st.sym("x");
    let base = st.mul(vec![two, x]);
    let three = st.integer(3);
    let expr = st.pow(base, three);
    let s = to_latex(&st, expr);
    assert!(s.contains("(2 \\cdot x)^{3}"));
}

