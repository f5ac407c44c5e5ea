use symmetrica::expr_core::Store;
use symmetrica::io::{from_json, to_latex};

#[test]
fn test_crate_compiles() {
    // If this test runs, the crate compiled successfully
}

#[test]
fn test_latex_export() {
    let mut st = Store::new();
    let x = st.sym("x");
    let latex = to_latex(&st, x);
    assert!(!latex.is_empty());
}

#[test]
fn json_parse_smoke() {
    let mut st = Store::new();
    // {"Pow": {"base": {"Symbol": "x"}, "exp": {"Integer": 3}}}
    let j = "{\"Pow\": {\"base\": {\"Symbol\": \"x\"}, \"exp\": {\"Integer\": 3}}}";
    let id = from_json(&mut st, j).unwrap();
    assert!(st.to_string(id).contains("x"));
}
