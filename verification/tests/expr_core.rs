use symmetrica::expr_core::{Op, Store};
use symmetrica::arith::{add_q, div_q, gcd_i64, mul_q, q_add, q_div, q_mul, q_norm, q_sub, rat_sub, sub_q, Q};


#[test]
fn test_hash_consing() {
    let mut st = Store::new();
    let x1 = st.sym("x");
    let x2 = st.sym("x");
    assert_eq!(x1, x2);
    assert_eq!(st.get(x1).digest, st.get(x2).digest);
}

#[test]
fn test_add_canonical_and_deterministic() {
    let mut st = Store::new();
    let x = st.sym("x");
    let y = st.sym("y");
    let a = st.add(vec![x, y]);
    let b = st.add(vec![y, x]);
    assert_eq!(a, b);
    // Flatten
    let one = st.integer(1);
    let two = st.integer(2);
    let c = st.add(vec![a, one, two]);
    let three = st.integer(3);
    let d = st.add(vec![x, y, three]);
    assert_eq!(c, d);
}

#[test]
fn test_mul_canonical_and_zero_one_rules() {
    let mut st = Store::new();
    let x = st.sym("x");
    // zero annihilates
    let zero = st.integer(0);
    let five = st.integer(5);
    let z = st.mul(vec![x, zero, five]);
    assert_eq!(z, st.integer(0));
    // one removed, rationals folded
    let two = st.integer(2);
    let rat = st.rat(1, 3);
    let one = st.integer(1);
    let m = st.mul(vec![two, x, rat, one]);
    let rat23 = st.rat(2, 3);
    let expected = st.mul(vec![x, rat23]);
    assert_eq!(m, expected);
}

#[test]
fn test_rat_normalization() {
    let mut st = Store::new();
    // 2/4 -> 1/2
    let a = st.rat(2, 4);
    let b = st.rat(1, 2);
    assert_eq!(a, b);
    // 2/(-4) -> -1/2
    let c = st.rat(2, -4);
    let d = st.rat(-1, 2);
    assert_eq!(c, d);
    // 0/n -> 0 as integer
    let e = st.rat(0, 5);
    assert_eq!(e, st.integer(0));
}

#[test]
fn test_flatten_add_and_identities() {
    let mut st = Store::new();
    let x = st.sym("x");
    let zero = st.integer(0);
    let one = st.integer(1);
    let a = st.add(vec![x, zero]);
    let b = st.add(vec![one, x]);
    let nested = st.add(vec![a, b]);
    // Expect flattened: x + x + 1 (numeric folded)
    let expect = st.add(vec![x, x, one]);
    assert_eq!(nested, expect);
}

#[test]
fn test_pow_rules_zero_one() {
    let mut st = Store::new();
    let x = st.sym("x");
    // x^1 -> x
    let one = st.integer(1);
    let p1 = st.pow(x, one);
    assert_eq!(p1, x);
    // x^0 -> 1 for nonzero base
    let zero = st.integer(0);
    let p0 = st.pow(x, zero);
    assert_eq!(p0, st.integer(1));
    // 0^0 stays as Pow node
    let zero2 = st.integer(0);
    let p_undefined = st.pow(zero, zero2);
    assert!(matches!(st.get(p_undefined).op, Op::Pow));
}

#[test]
fn test_printer_precedence() {
    let mut st = Store::new();
    let x = st.sym("x");
    let y = st.sym("y");
    let two = st.integer(2);
    let sum = st.add(vec![y, two]);
    let prod = st.mul(vec![x, sum]);
    assert_eq!(st.to_string(prod), "x * (2 + y)");
    let three = st.integer(3);
    let pow = st.pow(sum, three);
    assert_eq!(st.to_string(pow), "(2 + y)^3");
}

#[test]
fn test_function_construction_and_printing() {
    let mut st = Store::new();
    let x = st.sym("x");
    let y = st.sym("y");
    let two = st.integer(2);
    let sum = st.add(vec![y, two]); // canonical prints as 2 + y
    let f = st.func("f", vec![x, sum]);
    assert_eq!(st.to_string(f), "f(x, 2 + y)");
}

#[test]
fn test_function_argument_order_matters() {
    let mut st = Store::new();
    let x = st.sym("x");
    let y = st.sym("y");
    let f_xy = st.func("f", vec![x, y]);
    let f_yx = st.func("f", vec![y, x]);
    assert_ne!(f_xy, f_yx, "function args are ordered and not canonicalized");
}

#[test]
fn test_mul_flatten_and_sorting() {
    let mut st = Store::new();
    let x = st.sym("x");
    let y = st.sym("y");
    let two = st.integer(2);
    let y_two = st.mul(vec![y, two]);
    let nested = st.mul(vec![x, y_two]);
    let flat = st.mul(vec![x, y, two]);
    assert_eq!(nested, flat);
}

#[test]
fn test_arith_q_and_helpers() {


    // Q constructors and predicates
    let q1 = Q::new(2, 4);
    assert_eq!(q1, Q(1, 2));
    assert!(!q1.is_zero());
    assert!(Q::zero().is_zero());
    assert_eq!(Q::one(), Q(1, 1));

    // Q arithmetic
    assert_eq!(add_q(Q(1, 2), Q(1, 3)), Q(5, 6));
    assert_eq!(sub_q(Q(1, 2), Q(1, 3)), Q(1, 6));
    assert_eq!(mul_q(Q(2, 3), Q(3, 5)), Q(2, 5));
    assert_eq!(div_q(Q(2, 3), Q(4, 9)), Q(3, 2));

    // Tuple helpers and gcd
    assert_eq!(gcd_i64(54, 24), 6);
    assert_eq!(q_norm(-2, -4), (1, 2));
    assert_eq!(q_add((1, 2), (1, 3)), (5, 6));
    assert_eq!(q_sub((1, 2), (1, 3)), (1, 6));
    assert_eq!(q_mul((1, 2), (2, 3)), (1, 3));
    assert_eq!(q_div((1, 2), (2, 3)), (3, 4));
    assert_eq!(rat_sub((1, 2), (1, 2)), (0, 1));
}


#[test]
fn add_rearranged_inputs_give_the_same_node() {
    let mut st = Store::new();
    let x = st.sym("x");
    let y = st.sym("y");
    let z = st.sym("z");
    let one = st.integer(1);
    let half = st.rat(1, 2);
    let a = st.add(vec![x, one, y, half, z]);
    let marker = st.sym("m");
    let b = st.add(vec![half, z, y, one, x]);
    assert_eq!(a, b);
    // nothing new was stored by the second sum
    let next = st.sym("n");
    assert_eq!(next.0, marker.0 + 1);
}

#[test]
fn mul_rearranged_inputs_give_the_same_node() {
    let mut st = Store::new();
    let x = st.sym("x");
    let y = st.sym("y");
    let two = st.integer(2);
    let third = st.rat(1, 3);
    let a = st.mul(vec![two, x, third, y]);
    let marker = st.sym("m");
    let b = st.mul(vec![y, third, x, two]);
    assert_eq!(a, b);
    let next = st.sym("n");
    assert_eq!(next.0, marker.0 + 1);
    let zero = st.integer(0);
    let z1 = st.mul(vec![x, zero, y]);
    let z2 = st.mul(vec![y, x, zero]);
    assert_eq!(z1, z2);
    assert_eq!(z1, st.integer(0));
}
