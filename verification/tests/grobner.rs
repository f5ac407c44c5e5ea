use symmetrica::expr_core::Store;
use symmetrica::grobner::{buchberger, reduce, Exponents, Monomial, MonomialOrder};



#[test]
fn test_monomial_from_constant() {
    let mut st = Store::new();
    let five = st.integer(5);
    let mono = Monomial::from_expr(&st, five).unwrap();
    assert_eq!(mono.degree(), 0);
}

#[test]
fn test_monomial_from_variable() {
    let mut st = Store::new();
    let x = st.sym("x");
    let mono = Monomial::from_expr(&st, x).unwrap();
    assert_eq!(mono.degree(), 1);
    assert_eq!(mono.exponents.get("x"), Some(&1));
}

#[test]
fn test_monomial_from_power() {
    let mut st = Store::new();
    let x = st.sym("x");
    let three = st.integer(3);
    let x_cubed = st.pow(x, three);
    let mono = Monomial::from_expr(&st, x_cubed).unwrap();
    assert_eq!(mono.degree(), 3);
    assert_eq!(mono.exponents.get("x"), Some(&3));
}

#[test]
fn test_monomial_from_product() {
    let mut st = Store::new();
    let x = st.sym("x");
    let y = st.sym("y");
    let xy = st.mul(vec![x, y]);
    let mono = Monomial::from_expr(&st, xy).unwrap();
    assert_eq!(mono.degree(), 2);
    assert_eq!(mono.exponents.get("x"), Some(&1));
    assert_eq!(mono.exponents.get("y"), Some(&1));
}

#[test]
fn test_monomial_compare_lex() {
    let mut mono1 = Monomial { exponents: Exponents::new() };
    mono1.exponents.insert("x".to_string(), 2);
    mono1.exponents.insert("y".to_string(), 1);

    let mut mono2 = Monomial { exponents: Exponents::new() };
    mono2.exponents.insert("x".to_string(), 1);
    mono2.exponents.insert("y".to_string(), 3);

    let vars = vec!["x".to_string(), "y".to_string()];
    assert_eq!(mono1.compare(&mono2, MonomialOrder::Lex, &vars), std::cmp::Ordering::Greater);
}

#[test]
fn test_monomial_compare_grlex() {
    let mut mono1 = Monomial { exponents: Exponents::new() };
    mono1.exponents.insert("x".to_string(), 2);
    mono1.exponents.insert("y".to_string(), 1);

    let mut mono2 = Monomial { exponents: Exponents::new() };
    mono2.exponents.insert("x".to_string(), 1);
    mono2.exponents.insert("y".to_string(), 3);

    let vars = vec!["x".to_string(), "y".to_string()];
    // mono1 has degree 3, mono2 has degree 4, so mono2 > mono1
    assert_eq!(mono1.compare(&mono2, MonomialOrder::GrLex, &vars), std::cmp::Ordering::Less);
}

#[test]
fn test_buchberger_empty() {
    let mut st = Store::new();
    let basis = buchberger(&mut st, vec![], vec![], MonomialOrder::Lex);
    assert_eq!(basis.len(), 0);
}

#[test]
fn test_buchberger_single_poly() {
    let mut st = Store::new();
    let x = st.sym("x");
    let basis = buchberger(&mut st, vec![x], vec!["x".to_string()], MonomialOrder::Lex);
    assert_eq!(basis.len(), 1);
}

#[test]
fn test_reduce_identity() {
    let mut st = Store::new();
    let x = st.sym("x");
    let reduced = reduce(&mut st, x, &[], &["x".to_string()], MonomialOrder::Lex);
    assert_eq!(reduced, x);
}

