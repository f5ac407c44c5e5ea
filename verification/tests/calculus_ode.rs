use symmetrica::calculus::ode::{extract_coeff_of_power, extract_coefficient_of_var, extract_separable_factors, is_power_of_var};
use symmetrica::expr_core::Store;

#[test]
fn powers_of_the_unknown() {
    let mut st = Store::new();
    let y = st.sym("y");
    let x = st.sym("x");
    let three = st.integer(3);
    let y3 = st.pow(y, three);
    let two = st.integer(2);
    let p = st.mul(vec![two, x, y3]);
    assert_eq!(is_power_of_var(&st, y, "y"), Some(1));
    assert_eq!(is_power_of_var(&st, y3, "y"), Some(3));
    assert_eq!(is_power_of_var(&st, p, "y"), Some(3));
    assert_eq!(is_power_of_var(&st, x, "y"), None);
    let s = st.add(vec![x, y]);
    assert_eq!(is_power_of_var(&st, s, "y"), None);
}

#[test]
fn coefficient_of_a_variable() {
    let mut st = Store::new();
    let x = st.sym("x");
    let y = st.sym("y");
    let three = st.integer(3);
    let p = st.mul(vec![three, x, y]);
    let c = extract_coefficient_of_var(&mut st, p, "y").unwrap();
    let expected = st.mul(vec![three, x]);
    assert_eq!(c, expected);
    let one = extract_coefficient_of_var(&mut st, y, "y").unwrap();
    assert_eq!(st.to_string(one), "1");
    assert_eq!(extract_coefficient_of_var(&mut st, x, "y"), None);
    let s = st.add(vec![x, y]);
    assert_eq!(extract_coefficient_of_var(&mut st, s, "y"), None);
}

#[test]
fn separable_products() {
    let mut st = Store::new();
    let x = st.sym("x");
    let y = st.sym("y");
    let two = st.integer(2);
    let p = st.mul(vec![two, x, y]);
    let (f, g) = extract_separable_factors(&mut st, p, "y", "x").unwrap();
    let two_x = st.mul(vec![two, x]);
    assert_eq!(f, two_x);
    assert_eq!(g, y);
    let (f, g) = extract_separable_factors(&mut st, x, "y", "x").unwrap();
    assert_eq!(f, x);
    assert_eq!(st.to_string(g), "1");
    let (f, g) = extract_separable_factors(&mut st, y, "y", "x").unwrap();
    assert_eq!(st.to_string(f), "1");
    assert_eq!(g, y);
    let s = st.add(vec![x, y]);
    assert_eq!(extract_separable_factors(&mut st, s, "y", "x"), None);
    let q = st.mul(vec![s, y]);
    assert_eq!(extract_separable_factors(&mut st, q, "y", "x"), None);
}

#[test]
fn coefficient_of_a_power() {
    let mut st = Store::new();
    let x = st.sym("x");
    let y = st.sym("y");
    let two = st.integer(2);
    let five = st.integer(5);
    let y2 = st.pow(y, two);
    let p = st.mul(vec![five, x, y2]);
    let c = extract_coeff_of_power(&mut st, p, "y", 2);
    let expected = st.mul(vec![five, x]);
    assert_eq!(c, expected);
    let c = extract_coeff_of_power(&mut st, y, "y", 1);
    assert_eq!(st.to_string(c), "1");
    assert_eq!(extract_coeff_of_power(&mut st, y, "y", 2), y);
    let c = extract_coeff_of_power(&mut st, y2, "y", 2);
    assert_eq!(st.to_string(c), "1");
}
