use symmetrica::calculus::symbolic_simplify::apply_calculus_rules;
use symmetrica::expr_core::{ExprId, Op, Payload, Store};

fn is_int(st: &Store, id: ExprId, k: i64) -> bool {
    matches!((&st.get(id).op, &st.get(id).payload), (Op::Integer, Payload::Int(v)) if *v == k)
}

#[test]
fn sqrt_of_perfect_squares_and_fractions() {
    let mut st = Store::new();
    let four = st.integer(4);
    let s4 = st.func("sqrt", vec![four]);
    let r = apply_calculus_rules(&mut st, s4);
    assert!(is_int(&st, r, 2));
    let nine = st.integer(9);
    let s9 = st.func("sqrt", vec![nine]);
    let r = apply_calculus_rules(&mut st, s9);
    assert!(is_int(&st, r, 3));
    let five = st.integer(5);
    let s5 = st.func("sqrt", vec![five]);
    let r = apply_calculus_rules(&mut st, s5);
    assert_eq!(r, s5);
    assert_eq!(st.get(r).op, Op::Function);
    let q = st.rat(4, 9);
    let sq = st.func("sqrt", vec![q]);
    let r = apply_calculus_rules(&mut st, sq);
    assert!(matches!((&st.get(r).op, &st.get(r).payload), (Op::Rational, Payload::Rat(2, 3))));
}

#[test]
fn logarithm_exponential_and_arctangent_inverses() {
    let mut st = Store::new();
    let x = st.sym("x");
    let ex = st.func("exp", vec![x]);
    let ln_ex = st.func("ln", vec![ex]);
    assert_eq!(apply_calculus_rules(&mut st, ln_ex), x);
    let lx = st.func("ln", vec![x]);
    let e_lx = st.func("exp", vec![lx]);
    assert_eq!(apply_calculus_rules(&mut st, e_lx), x);
    let zero = st.integer(0);
    let e0 = st.func("exp", vec![zero]);
    let r = apply_calculus_rules(&mut st, e0);
    assert!(is_int(&st, r, 1));
    let tx = st.func("tan", vec![x]);
    let atx = st.func("atan", vec![tx]);
    assert_eq!(apply_calculus_rules(&mut st, atx), x);
    let a0 = st.func("atan", vec![zero]);
    let r = apply_calculus_rules(&mut st, a0);
    assert!(is_int(&st, r, 0));
    let lg = st.func("log", vec![ex]);
    assert_eq!(apply_calculus_rules(&mut st, lg), x);
}

#[test]
fn nested_rewrites_inside_a_product() {
    let mut st = Store::new();
    let x = st.sym("x");
    let lx = st.func("ln", vec![x]);
    let e_lx = st.func("exp", vec![lx]);
    let four = st.integer(4);
    let s4 = st.func("sqrt", vec![four]);
    let p = st.mul(vec![e_lx, s4]);
    let r = apply_calculus_rules(&mut st, p);
    assert_eq!(st.get(r).op, Op::Mul);
    let ch = st.get(r).children.clone();
    assert!(ch.contains(&x));
    assert!(ch.iter().any(|&c| is_int(&st, c, 2)));
}

#[test]
fn pythagorean_identity_in_sums() {
    let mut st = Store::new();
    let x = st.sym("x");
    let y = st.sym("y");
    let two = st.integer(2);
    let sinx = st.func("sin", vec![x]);
    let cosx = st.func("cos", vec![x]);
    let cosy = st.func("cos", vec![y]);
    let sin2 = st.pow(sinx, two);
    let cos2 = st.pow(cosx, two);
    let cos2y = st.pow(cosy, two);
    let s = st.add(vec![sin2, cos2]);
    let r = apply_calculus_rules(&mut st, s);
    assert!(is_int(&st, r, 1));
    let s = st.add(vec![cos2, sin2]);
    let r = apply_calculus_rules(&mut st, s);
    assert!(is_int(&st, r, 1));
    let s = st.add(vec![two, sin2, cos2]);
    let r = apply_calculus_rules(&mut st, s);
    assert!(is_int(&st, r, 3));
    let s = st.add(vec![sin2, cos2y]);
    let r = apply_calculus_rules(&mut st, s);
    assert_eq!(r, s);
    assert_eq!(st.get(r).op, Op::Add);
    let s = st.add(vec![sinx, cosx]);
    assert_eq!(apply_calculus_rules(&mut st, s), s);
}

#[test]
fn double_angle_in_products() {
    let mut st = Store::new();
    let x = st.sym("x");
    let y = st.sym("y");
    let two = st.integer(2);
    let sinx = st.func("sin", vec![x]);
    let cosx = st.func("cos", vec![x]);
    let cosy = st.func("cos", vec![y]);
    let p = st.mul(vec![cosx, sinx, two]);
    let r = apply_calculus_rules(&mut st, p);
    assert_eq!(st.get(r).op, Op::Function);
    assert_eq!(st.to_string(r), {
        let tx = st.mul(vec![two, x]);
        let s = st.func("sin", vec![tx]);
        st.to_string(s)
    });
    let p = st.mul(vec![two, sinx, cosy]);
    let r = apply_calculus_rules(&mut st, p);
    assert_eq!(r, p);
    let p = st.mul(vec![sinx, cosx]);
    assert_eq!(apply_calculus_rules(&mut st, p), p);
    let z = st.sym("z");
    let p = st.mul(vec![two, sinx, cosx, z]);
    let r = apply_calculus_rules(&mut st, p);
    assert_eq!(st.get(r).op, Op::Mul);
    assert!(st.get(r).children.contains(&z));
}
