use symmetrica::calculus::definite::{definite_from_antiderivative, is_improper, substitute, Bound, DefiniteResult};
use symmetrica::calculus::try_eval_constant;
use symmetrica::expr_core::{ExprId, Op, Payload, Store};







#[test]
fn test_is_improper_infinite_bounds() {
    let zero = Bound::Finite(ExprId(0));
    let pos_inf = Bound::PosInfinity;
    let neg_inf = Bound::NegInfinity;

    assert!(is_improper(&zero, &pos_inf));
    assert!(is_improper(&neg_inf, &zero));
    assert!(is_improper(&neg_inf, &pos_inf));
    assert!(!is_improper(&zero, &zero));
}

#[test]
fn test_substitute_simple() {
    let mut st = Store::new();
    let x = st.sym("x");
    let five = st.integer(5);

    // Substitute x with 5 in expression x
    let result = substitute(&mut st, x, "x", five);
    assert_eq!(result, five);
}

#[test]
fn test_substitute_polynomial() {
    let mut st = Store::new();
    let x = st.sym("x");
    let two = st.integer(2);
    let x_squared = st.pow(x, two);

    // Substitute x with 3 in x²
    let three = st.integer(3);
    let result = substitute(&mut st, x_squared, "x", three);

    // Result should be pow(3, 2) structurally
    // Note: Full constant evaluation (3² = 9) requires constant folding
    // For now, verify structural correctness: pow operation with constant base/exp
    assert_eq!(st.get(result).op, Op::Pow);
    let children = &st.get(result).children;
    assert_eq!(children.len(), 2);
    // Base should be 3, exponent should be 2
    assert!(matches!((&st.get(children[0]).op, &st.get(children[0]).payload), (Op::Integer, Payload::Int(3))));
    assert!(matches!((&st.get(children[1]).op, &st.get(children[1]).payload), (Op::Integer, Payload::Int(2))));
}


#[test]
fn fundamental_theorem_step_after_the_antiderivative() {
    let mut st = Store::new();
    let x = st.sym("x");
    let two = st.integer(2);
    let f = st.pow(x, two);
    let one = st.integer(1);
    let three = st.integer(3);
    let r = definite_from_antiderivative(&mut st, f, "x", &Bound::Finite(one), &Bound::Finite(three));
    match r {
        Some(DefiniteResult::Symbolic(v)) => assert_eq!(try_eval_constant(&st, v), Some((8, 1))),
        _ => panic!("expected a symbolic value"),
    }
    let r = definite_from_antiderivative(&mut st, f, "x", &Bound::Finite(one), &Bound::PosInfinity);
    assert!(matches!(r, Some(DefiniteResult::Unknown)));
    let r = definite_from_antiderivative(&mut st, f, "x", &Bound::PosInfinity, &Bound::Finite(one));
    assert!(r.is_none());
}

#[test]
fn substitution_rebuilds_every_node() {
    let mut st = Store::new();
    let x = st.sym("x");
    let y = st.sym("y");
    let two = st.integer(2);
    let sx = st.func("sin", vec![x]);
    let x2 = st.pow(x, two);
    let e = st.add(vec![sx, x2, y]);
    let r = substitute(&mut st, e, "x", two);
    let s2 = st.func("sin", vec![two]);
    let four = st.pow(two, two);
    let expected = st.add(vec![s2, four, y]);
    assert_eq!(r, expected);
}
