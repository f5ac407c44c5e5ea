use symmetrica::expr_core::Store;
use symmetrica::io::{from_json, to_json};



#[test]
fn json_contains_keys() {
    let mut st = Store::new();
    let x = st.sym("x");
    let one = st.integer(1);
    let xp1 = st.add(vec![x, one]);
    let two = st.integer(2);
    let expr = st.pow(xp1, two);
    let s = to_json(&st, expr);
    assert!(s.contains("\"Pow\""));
    assert!(s.contains("\"Add\""));
    assert!(s.contains("\"Integer\""));
    assert!(s.contains("\"Symbol\""));
}

#[test]
fn json_roundtrip_basic() {
    let mut st = Store::new();
    let x = st.sym("x");
    let three = st.integer(3);
    let pow = st.pow(x, three);
    let sinx = st.func("sin", vec![x]);
    let rat = st.rat(3, 2);
    let expr = st.add(vec![pow, sinx, rat]);
    let s = to_json(&st, expr);
    let mut st2 = Store::new();
    let parsed = from_json(&mut st2, &s).expect("parse");
    assert_eq!(st.to_string(expr), st2.to_string(parsed));
}

#[test]
fn json_parse_errors() {
    let mut st = Store::new();
    // Missing closing brace
    assert!(from_json(&mut st, "{\"Symbol\": ").is_err());
    // Invalid integer
    assert!(from_json(&mut st, "{\"Integer\": abc}").is_err());
    // Unexpected token
    assert!(from_json(&mut st, "{\"Symbol\": 123}").is_err());
    // Missing field
    assert!(from_json(&mut st, "{\"Pow\": {\"base\": {\"Symbol\": \"x\"}}}").is_err());
    // Wrong type for Add children
    assert!(from_json(&mut st, "{\"Add\": 5}").is_err());
}

#[test]
fn json_nested_objects() {
    let mut st = Store::new();
    let x = st.sym("x");
    let y = st.sym("y");
    let sum = st.add(vec![x, y]);
    let two = st.integer(2);
    let prod = st.mul(vec![sum, two]);
    let s = to_json(&st, prod);
    let mut st2 = Store::new();
    let parsed = from_json(&mut st2, &s).expect("parse");
    assert_eq!(st.to_string(prod), st2.to_string(parsed));
}

#[test]
fn json_rational() {
    let mut st = Store::new();
    let rat = st.rat(5, 3);
    let s = to_json(&st, rat);
    assert!(s.contains("\"num\""));
    assert!(s.contains("\"den\""));
    let mut st2 = Store::new();
    let parsed = from_json(&mut st2, &s).expect("parse");
    assert_eq!(st.to_string(rat), st2.to_string(parsed));
}

#[test]
fn json_function_with_multiple_args() {
    let mut st = Store::new();
    let x = st.sym("x");
    let y = st.sym("y");
    let z = st.sym("z");
    let f = st.func("f", vec![x, y, z]);
    let s = to_json(&st, f);
    let mut st2 = Store::new();
    let parsed = from_json(&mut st2, &s).expect("parse");
    assert_eq!(st.to_string(f), st2.to_string(parsed));
}

#[test]
fn json_pow_roundtrip() {
    let mut st = Store::new();
    let x = st.sym("x");
    let three = st.integer(3);
    let pow_expr = st.pow(x, three);
    let s = to_json(&st, pow_expr);
    assert!(s.contains("\"Pow\""));
    assert!(s.contains("\"base\""));
    assert!(s.contains("\"exp\""));
    let mut st2 = Store::new();
    let parsed = from_json(&mut st2, &s).expect("parse");
    assert_eq!(st.to_string(pow_expr), st2.to_string(parsed));
}

#[test]
fn json_empty_add_mul() {
    let mut st = Store::new();
    // Empty add canonicalizes to 0
    let empty_add = st.add(vec![]);
    assert_eq!(empty_add, st.integer(0));
    let s = to_json(&st, empty_add);
    assert!(s.contains("\"Integer\""));
}

#[test]
fn json_negative_integer() {
    let mut st = Store::new();
    let neg = st.integer(-42);
    let s = to_json(&st, neg);
    assert!(s.contains("-42"));
    let mut st2 = Store::new();
    let parsed = from_json(&mut st2, &s).expect("parse");
    assert_eq!(st.to_string(neg), st2.to_string(parsed));
}

#[test]
fn json_negative_rational() {
    let mut st = Store::new();
    let neg_rat = st.rat(-3, 4);
    let s = to_json(&st, neg_rat);
    let mut st2 = Store::new();
    let parsed = from_json(&mut st2, &s).expect("parse");
    assert_eq!(st.to_string(neg_rat), st2.to_string(parsed));
}

#[test]
fn json_symbol_with_escape() {
    let mut st = Store::new();
    let sym = st.sym("test\"quote");
    let s = to_json(&st, sym);
    assert!(s.contains("test\\\"quote"));
    let mut st2 = Store::new();
    let parsed = from_json(&mut st2, &s).expect("parse");
    assert_eq!(st.to_string(sym), st2.to_string(parsed));
}

#[test]
fn json_symbol_with_backslash() {
    let mut st = Store::new();
    let sym = st.sym("test\\backslash");
    let s = to_json(&st, sym);
    assert!(s.contains("test\\\\backslash"));
    let mut st2 = Store::new();
    let parsed = from_json(&mut st2, &s).expect("parse");
    assert_eq!(st.to_string(sym), st2.to_string(parsed));
}

#[test]
fn json_empty_add() {
    let mut st = Store::new();
    let empty_add = st.add(vec![]); // Store converts to 0
    let s = to_json(&st, empty_add);
    assert!(s.contains("Integer"));
    assert!(s.contains("0"));
    let mut st2 = Store::new();
    let parsed = from_json(&mut st2, &s).expect("parse");
    assert_eq!(st.to_string(empty_add), st2.to_string(parsed));
}

#[test]
fn json_empty_mul() {
    let mut st = Store::new();
    let empty_mul = st.mul(vec![]); // Store converts to 1
    let s = to_json(&st, empty_mul);
    assert!(s.contains("Integer"));
    assert!(s.contains("1"));
    let mut st2 = Store::new();
    let parsed = from_json(&mut st2, &s).expect("parse");
    assert_eq!(st.to_string(empty_mul), st2.to_string(parsed));
}

#[test]
fn json_function_no_args() {
    let mut st = Store::new();
    let f = st.func("foo", vec![]);
    let s = to_json(&st, f);
    assert!(s.contains("\"name\": \"foo\""));
    assert!(s.contains("\"args\": []"));
    let mut st2 = Store::new();
    let parsed = from_json(&mut st2, &s).expect("parse");
    assert_eq!(st.to_string(f), st2.to_string(parsed));
}

#[test]
fn json_parse_errors_comprehensive() {
    let mut st = Store::new();

    assert!(from_json(&mut st, "").is_err());
    assert!(from_json(&mut st, "{").is_err());
    assert!(from_json(&mut st, "{\"Unknown\": 123}").is_err());
    assert!(from_json(&mut st, "{\"Integer\": \"not_a_number\"}").is_err());
    assert!(from_json(&mut st, "{\"Add\": \"not_an_array\"}").is_err());
    assert!(from_json(&mut st, "{\"Mul\": 123}").is_err());
    assert!(from_json(&mut st, "{\"Pow\": {}}").is_err());
    assert!(from_json(&mut st, "{\"Pow\": {\"base\": {\"Integer\": 1}}}").is_err());
    assert!(from_json(&mut st, "{\"Function\": {}}").is_err());
    assert!(from_json(&mut st, "{\"Function\": {\"name\": \"f\"}}").is_err());
    assert!(from_json(&mut st, "{\"Rational\": {}}").is_err());
    assert!(from_json(&mut st, "{\"Rational\": {\"num\": 1}}").is_err());
}

#[test]
fn json_complex_nested() {
    let mut st = Store::new();
    let x = st.sym("x");
    let y = st.sym("y");
    let two = st.integer(2);
    let three = st.integer(3);

    // ((x + y)^2) * 3
    let sum = st.add(vec![x, y]);
    let pow = st.pow(sum, two);
    let expr = st.mul(vec![pow, three]);

    let s = to_json(&st, expr);
    let mut st2 = Store::new();
    let parsed = from_json(&mut st2, &s).expect("parse");

    assert_eq!(st.to_string(expr), st2.to_string(parsed));
}

#[test]
fn json_rational_with_spaces() {
    let mut st = Store::new();
    let json = r#"{ "Rational" :  { "num"  : 3  ,  "den" :  5  } }"#;
    let parsed = from_json(&mut st, json).expect("parse");
    assert_eq!(st.to_string(parsed), "3/5");
}

#[test]
fn json_array_trailing_comma_rejected() {
    let mut st = Store::new();
    let json = r#"{"Add": [{"Integer": 1}, {"Integer": 2},]}"#;
    // Most JSON parsers reject trailing commas
    assert!(from_json(&mut st, json).is_err());
}


#[test]
fn integer_and_symbol_atoms_read_back_from_json() {
    let mut st = Store::new();
    for k in [0i64, 42, -7, i64::MAX, i64::MIN] {
        let id = st.integer(k);
        let text = to_json(&st, id);
        assert_eq!(from_json(&mut st, &text), Ok(id));
    }
    for name in ["x", "1x", "a b", "q\"uote", "back\\slash", ""] {
        let id = st.sym(name);
        let text = to_json(&st, id);
        assert_eq!(from_json(&mut st, &text), Ok(id));
    }
}

#[test]
fn fraction_atoms_read_back_from_json() {
    let mut st = Store::new();
    for (p, q) in [(1i64, 2i64), (-3, 4), (22, 7)] {
        let id = st.rat(p, q);
        let text = to_json(&st, id);
        assert_eq!(from_json(&mut st, &text), Ok(id));
    }
}
