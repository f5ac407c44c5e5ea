use symmetrica::expr_core::Store;
use symmetrica::io::{from_sexpr, to_sexpr};



#[test]
fn sexpr_roundtrip_basic() {
    let mut st = Store::new();
    let x = st.sym("x");
    let one = st.integer(1);
    let xp1 = st.add(vec![x, one]);
    let two = st.integer(2);
    let pow = st.pow(xp1, two);
    let three = st.integer(3);
    let mul = st.mul(vec![three, xp1]);
    let expr = st.add(vec![pow, mul]);
    let s = to_sexpr(&st, expr);
    let mut st2 = Store::new();
    let parsed = from_sexpr(&mut st2, &s).expect("parse");
    // Compare printed forms via core printer to avoid dependency on term order
    assert_eq!(st.to_string(expr), st2.to_string(parsed));
}

#[test]
fn sexpr_parse_symbols_and_funcs() {
    let mut st = Store::new();
    let sx = from_sexpr(&mut st, "(Sym x_1)").unwrap();
    assert_eq!(st.to_string(sx), "x_1");
    let f = from_sexpr(&mut st, "(Fn sin (Sym x))").unwrap();
    assert_eq!(st.to_string(f), "sin(x)");
}

#[test]
fn sexpr_roundtrip_mul_pow_func() {
    let mut st = Store::new();
    // (* (Rat 3 2) (^ (Sym x) (Int 3)) (Fn sin (Sym x)))
    let s = "(* (Rat 3 2) (^ (Sym x) (Int 3)) (Fn sin (Sym x)))";
    let id = from_sexpr(&mut st, s).expect("parse");
    let out = to_sexpr(&st, id);
    let mut st2 = Store::new();
    let id2 = from_sexpr(&mut st2, &out).expect("parse2");
    assert_eq!(st.to_string(id), st2.to_string(id2));
}

#[test]
fn sexpr_parse_errors() {
    let mut st = Store::new();
    // Unmatched paren
    assert!(from_sexpr(&mut st, "(+ (Int 1)").is_err());
    // Trailing tokens
    assert!(from_sexpr(&mut st, "(Int 5) extra").is_err());
    // Expected symbol
    assert!(from_sexpr(&mut st, "(Sym)").is_err());
    // Expected integer
    assert!(from_sexpr(&mut st, "(Int)").is_err());
    // Invalid quoted string (unclosed)
    assert!(from_sexpr(&mut st, "(Sym \"unclosed").is_err());
    // Unknown head
    assert!(from_sexpr(&mut st, "(Unknown 1)").is_err());
}

#[test]
fn sexpr_nested_add_mul() {
    let mut st = Store::new();
    let x = st.sym("x");
    let y = st.sym("y");
    let two = st.integer(2);
    let prod = st.mul(vec![two, x]);
    let sum = st.add(vec![prod, y]);
    let s = to_sexpr(&st, sum);
    let mut st2 = Store::new();
    let parsed = from_sexpr(&mut st2, &s).expect("parse");
    assert_eq!(st.to_string(sum), st2.to_string(parsed));
}

#[test]
fn sexpr_rational() {
    let mut st = Store::new();
    let rat = st.rat(-7, 4);
    let s = to_sexpr(&st, rat);
    let mut st2 = Store::new();
    let parsed = from_sexpr(&mut st2, &s).expect("parse");
    assert_eq!(st.to_string(rat), st2.to_string(parsed));
}

#[test]
fn sexpr_single_element_mul() {
    let mut st = Store::new();
    let x = st.sym("x");
    let single_mul = st.mul(vec![x]);
    // Single-element mul returns the element itself
    assert_eq!(single_mul, x);
    let s = to_sexpr(&st, single_mul);
    let mut st2 = Store::new();
    let parsed = from_sexpr(&mut st2, &s).expect("parse");
    assert_eq!(st.to_string(single_mul), st2.to_string(parsed));
}

#[test]
fn sexpr_function_no_args() {
    let mut st = Store::new();
    let f = st.func("f", vec![]);
    let s = to_sexpr(&st, f);
    // Function with no args should be serializable
    assert!(s.contains("Fn") && s.contains("f"));
}

#[test]
fn sexpr_complex_nested_expression() {
    let mut st = Store::new();
    let x = st.sym("x");
    let y = st.sym("y");
    let two = st.integer(2);
    // ((x^2) * y) + (sin(x + y))
    let x2 = st.pow(x, two);
    let prod = st.mul(vec![x2, y]);
    let sum_args = st.add(vec![x, y]);
    let sin_sum = st.func("sin", vec![sum_args]);
    let expr = st.add(vec![prod, sin_sum]);

    let s = to_sexpr(&st, expr);
    let mut st2 = Store::new();
    let parsed = from_sexpr(&mut st2, &s).expect("parse");
    assert_eq!(st.to_string(expr), st2.to_string(parsed));
}

#[test]
fn sexpr_quoted_symbol_names() {
    let mut st = Store::new();
    let s = "(Sym \"x_1\")";
    let parsed = from_sexpr(&mut st, s).expect("parse");
    assert!(st.to_string(parsed).contains("x_1"));
}

#[test]
fn sexpr_whitespace_handling() {
    let mut st = Store::new();
    // Extra whitespace should be handled
    let s = "(  +   ( Int   1 )   ( Int   2 )  )";
    let parsed = from_sexpr(&mut st, s).expect("parse");
    let one = st.integer(1);
    let two = st.integer(2);
    let expected = st.add(vec![one, two]);
    assert_eq!(st.to_string(parsed), st.to_string(expected));
}

#[test]
fn sexpr_empty_add() {
    let mut st = Store::new();
    let empty_add = st.add(vec![]); // Store converts this to (Int 0)
    let s = to_sexpr(&st, empty_add);
    assert_eq!(s, "(Int 0)");
    let mut st2 = Store::new();
    let parsed = from_sexpr(&mut st2, &s).expect("parse");
    assert_eq!(st.to_string(empty_add), st2.to_string(parsed));
}

#[test]
fn sexpr_empty_mul() {
    let mut st = Store::new();
    let empty_mul = st.mul(vec![]); // Store converts this to (Int 1)
    let s = to_sexpr(&st, empty_mul);
    assert_eq!(s, "(Int 1)");
    let mut st2 = Store::new();
    let parsed = from_sexpr(&mut st2, &s).expect("parse");
    assert_eq!(st.to_string(empty_mul), st2.to_string(parsed));
}

#[test]
fn sexpr_function_foo_no_args() {
    let mut st = Store::new();
    let f = st.func("foo", vec![]);
    let s = to_sexpr(&st, f);
    assert!(s.contains("Fn foo"));
    let mut st2 = Store::new();
    let parsed = from_sexpr(&mut st2, &s).expect("parse");
    assert_eq!(st.to_string(f), st2.to_string(parsed));
}

#[test]
fn sexpr_symbol_with_spaces() {
    let mut st = Store::new();
    let sym = st.sym("hello world");
    let s = to_sexpr(&st, sym);
    assert!(s.contains("\"hello world\""));
    let mut st2 = Store::new();
    let parsed = from_sexpr(&mut st2, &s).expect("parse");
    assert_eq!(st.to_string(sym), st2.to_string(parsed));
}

#[test]
fn sexpr_symbol_with_quote() {
    let mut st = Store::new();
    let sym = st.sym("test\"quote");
    let s = to_sexpr(&st, sym);
    assert!(s.contains("\\\""));
    let mut st2 = Store::new();
    let parsed = from_sexpr(&mut st2, &s).expect("parse");
    assert_eq!(st.to_string(sym), st2.to_string(parsed));
}

#[test]
fn sexpr_parse_errors_comprehensive() {
    let mut st = Store::new();

    assert!(from_sexpr(&mut st, "").is_err());
    assert!(from_sexpr(&mut st, "(").is_err());
    assert!(from_sexpr(&mut st, "( Int )").is_err());
    assert!(from_sexpr(&mut st, "( Int not_a_number )").is_err());
    assert!(from_sexpr(&mut st, "( Rat 1 )").is_err());
    assert!(from_sexpr(&mut st, "( Rat not_num not_num )").is_err());
    assert!(from_sexpr(&mut st, "( Unknown )").is_err());
    assert!(from_sexpr(&mut st, "( + )").is_ok()); // Empty add is ok
    assert!(from_sexpr(&mut st, "( Fn )").is_err());
    assert!(from_sexpr(&mut st, "( ^ (Int 1) )").is_err()); // Needs 2 args
}

#[test]
fn sexpr_negative_numbers() {
    let mut st = Store::new();
    let neg_int = st.integer(-42);
    let s = to_sexpr(&st, neg_int);
    assert!(s.contains("-42"));
    let mut st2 = Store::new();
    let parsed = from_sexpr(&mut st2, &s).expect("parse");
    assert_eq!(st.to_string(neg_int), st2.to_string(parsed));
}

#[test]
fn sexpr_complex_nested() {
    let mut st = Store::new();
    let x = st.sym("x");
    let y = st.sym("y");
    let two = st.integer(2);
    let three = st.integer(3);

    // sin((x + y)^2) * 3
    let sum = st.add(vec![x, y]);
    let pow = st.pow(sum, two);
    let sin = st.func("sin", vec![pow]);
    let expr = st.mul(vec![sin, three]);

    let s = to_sexpr(&st, expr);
    let mut st2 = Store::new();
    let parsed = from_sexpr(&mut st2, &s).expect("parse");

    assert_eq!(st.to_string(expr), st2.to_string(parsed));
}

#[test]
fn sexpr_unclosed_paren() {
    let mut st = Store::new();
    assert!(from_sexpr(&mut st, "( + (Int 1) (Int 2)").is_err());
}

#[test]
fn sexpr_unclosed_quote() {
    let mut st = Store::new();
    assert!(from_sexpr(&mut st, "(Sym \"unclosed").is_err());
}


#[test]
fn integer_and_symbol_atoms_read_back_to_the_same_node() {
    let mut st = Store::new();
    for k in [0i64, 7, -12345, i64::MAX, i64::MIN] {
        let id = st.integer(k);
        let text = to_sexpr(&st, id);
        let back = from_sexpr(&mut st, &text).expect("integer text is accepted");
        assert_eq!(back, id);
    }
    for name in ["x", "x_1", "a b", "q\"uote", "back\\slash", "1x quoted"] {
        let id = st.sym(name);
        let text = to_sexpr(&st, id);
        let back = from_sexpr(&mut st, &text).expect("symbol text is accepted");
        assert_eq!(back, id);
        assert_eq!(st.to_string(back), name);
    }
}

#[test]
fn fraction_atoms_read_back_to_the_same_node() {
    let mut st = Store::new();
    for (p, q) in [(1i64, 2i64), (-3, 4), (22, 7)] {
        let id = st.rat(p, q);
        let text = to_sexpr(&st, id);
        let back = from_sexpr(&mut st, &text).expect("fraction text is accepted");
        assert_eq!(back, id);
    }
}
