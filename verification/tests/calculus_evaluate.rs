use symmetrica::calculus::{fold_constants, try_eval_constant};
use symmetrica::expr_core::Store;



#[test]
fn test_eval_integer() {
    let mut st = Store::new();
    let five = st.integer(5);
    assert_eq!(try_eval_constant(&st, five), Some((5, 1)));
}

#[test]
fn test_eval_rational() {
    let mut st = Store::new();
    let half = st.rat(1, 2);
    assert_eq!(try_eval_constant(&st, half), Some((1, 2)));
}

#[test]
fn test_eval_add() {
    let mut st = Store::new();
    let two = st.integer(2);
    let three = st.integer(3);
    let sum = st.add(vec![two, three]);
    assert_eq!(try_eval_constant(&st, sum), Some((5, 1)));
}

#[test]
fn test_eval_mul() {
    let mut st = Store::new();
    let two = st.integer(2);
    let three = st.integer(3);
    let product = st.mul(vec![two, three]);
    assert_eq!(try_eval_constant(&st, product), Some((6, 1)));
}

#[test]
fn test_eval_pow() {
    let mut st = Store::new();
    let three = st.integer(3);
    let two = st.integer(2);
    let pow = st.pow(three, two);
    assert_eq!(try_eval_constant(&st, pow), Some((9, 1)));
}

#[test]
fn test_eval_pow_negative() {
    let mut st = Store::new();
    let two = st.integer(2);
    let neg_one = st.integer(-1);
    let inv = st.pow(two, neg_one);
    assert_eq!(try_eval_constant(&st, inv), Some((1, 2)));
}

#[test]
fn test_eval_rational_arithmetic() {
    let mut st = Store::new();
    let half = st.rat(1, 2);
    let quarter = st.rat(1, 4);
    let sum = st.add(vec![half, quarter]);
    assert_eq!(try_eval_constant(&st, sum), Some((3, 4)));
}

#[test]
fn test_eval_with_variable_fails() {
    let mut st = Store::new();
    let x = st.sym("x");
    let two = st.integer(2);
    let expr = st.add(vec![x, two]);
    assert_eq!(try_eval_constant(&st, expr), None);
}



#[test]
fn test_fold_constants_simple() {
    let mut st = Store::new();
    let two = st.integer(2);
    let three = st.integer(3);
    let sum = st.add(vec![two, three]);

    let folded = fold_constants(&mut st, sum);
    assert_eq!(try_eval_constant(&st, folded), Some((5, 1)));
}

#[test]
fn test_fold_constants_with_variable() {
    let mut st = Store::new();
    let x = st.sym("x");
    let two = st.integer(2);
    let three = st.integer(3);
    let const_sum = st.add(vec![two, three]);
    let expr = st.mul(vec![const_sum, x]);

    let folded = fold_constants(&mut st, expr);
    // Should become 5 * x
    let children = &st.get(folded).children;
    assert_eq!(children.len(), 2);
    // One child should evaluate to 5
    let has_five = children.iter().any(|&c| try_eval_constant(&st, c) == Some((5, 1)));
    assert!(has_five);
}

#[test]
fn test_fold_nested_constants() {
    let mut st = Store::new();
    let two = st.integer(2);
    let three = st.integer(3);
    let four = st.integer(4);

    // (2 + 3) * 4 should fold to 5 * 4 = 20
    let inner = st.add(vec![two, three]);
    let outer = st.mul(vec![inner, four]);

    let folded = fold_constants(&mut st, outer);
    assert_eq!(try_eval_constant(&st, folded), Some((20, 1)));
}


#[test]
fn negative_powers_are_normalized_and_zero_has_none() {
    let mut st = Store::new();
    let m2 = st.integer(-2);
    let m1 = st.integer(-1);
    let z = st.integer(0);
    let a = st.pow(m2, m1);
    let b = st.pow(z, m1);
    assert_eq!(try_eval_constant(&st, a), Some((-1, 2)));
    assert_eq!(try_eval_constant(&st, b), None);
    let m3 = st.integer(-3);
    let c = st.pow(m2, m3);
    assert_eq!(try_eval_constant(&st, c), Some((-1, 8)));
}
