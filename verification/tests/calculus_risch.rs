use symmetrica::calculus::risch::{depends_on_var, detect_extension, is_exponential, is_logarithm, ExtensionType};
use symmetrica::expr_core::Store;



#[test]
fn test_detect_exponential_extension() {
    let mut st = Store::new();
    let x = st.sym("x");
    let expx = st.func("exp", vec![x]);

    let ext = detect_extension(&st, expx, "x");
    assert_eq!(ext, ExtensionType::Exponential(x));
}

#[test]
fn test_detect_logarithmic_extension() {
    let mut st = Store::new();
    let x = st.sym("x");
    let lnx = st.func("ln", vec![x]);

    let ext = detect_extension(&st, lnx, "x");
    assert_eq!(ext, ExtensionType::Logarithmic(x));
}

#[test]
fn test_detect_base_element() {
    let mut st = Store::new();
    let x = st.sym("x");
    let two = st.integer(2);
    let x2 = st.pow(x, two);

    let ext = detect_extension(&st, x2, "x");
    assert_eq!(ext, ExtensionType::Base);
}





#[test]
fn test_is_exponential() {
    let mut st = Store::new();
    let x = st.sym("x");
    let expx = st.func("exp", vec![x]);

    assert_eq!(is_exponential(&st, expx), Some(x));
    assert_eq!(is_exponential(&st, x), None);
}

#[test]
fn test_is_logarithm() {
    let mut st = Store::new();
    let x = st.sym("x");
    let lnx = st.func("ln", vec![x]);

    assert_eq!(is_logarithm(&st, lnx), Some(x));
    assert_eq!(is_logarithm(&st, x), None);
}









#[test]
fn test_depends_on_var() {
    let mut st = Store::new();
    let x = st.sym("x");
    let y = st.sym("y");
    let two = st.integer(2);

    assert!(depends_on_var(&st, x, "x"));
    assert!(!depends_on_var(&st, x, "y"));
    assert!(depends_on_var(&st, y, "y"));
    assert!(!depends_on_var(&st, two, "x"));

    let x_plus_y = st.add(vec![x, y]);
    assert!(depends_on_var(&st, x_plus_y, "x"));
    assert!(depends_on_var(&st, x_plus_y, "y"));
    assert!(!depends_on_var(&st, x_plus_y, "z"));
}

