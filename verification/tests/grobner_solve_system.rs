use symmetrica::expr_core::Store;
use symmetrica::grobner::solve_system;
use symmetrica::polysolve::solve_values;

#[test]
fn test_solve_simple_quadratic_system() {
    let mut st = Store::new();
    let x = st.sym("x");
    let y = st.sym("y");

    // System: x^2 - 4 = 0, y - 2 = 0
    // Solutions: x = ±2, y = 2
    let two = st.integer(2);
    let x2 = st.pow(x, two);
    let neg_four = st.integer(-4);
    let eq1 = st.add(vec![x2, neg_four]);
    let neg_two = st.integer(-2);
    let eq2 = st.add(vec![y, neg_two]);

    let result = solve_system(&mut st, vec![eq1, eq2], vec!["x".to_string(), "y".to_string()]);
    assert!(result.is_some());

    let solutions = result.unwrap();
    assert_eq!(solutions.len(), 1);

    let sol = &solutions[0];
    assert!(sol.contains_key("x"));
    assert!(sol.contains_key("y"));
}

#[test]
fn test_solve_single_variable() {
    let mut st = Store::new();
    let x = st.sym("x");

    // System: x^2 - 1 = 0
    // Solutions: x = ±1
    let two = st.integer(2);
    let x2 = st.pow(x, two);
    let neg_one = st.integer(-1);
    let eq = st.add(vec![x2, neg_one]);

    let result = solve_system(&mut st, vec![eq], vec!["x".to_string()]);
    assert!(result.is_some());

    let solutions = result.unwrap();
    assert_eq!(solutions.len(), 1);
    assert!(solutions[0].contains_key("x"));
}

#[test]
fn test_solve_empty_system() {
    let mut st = Store::new();

    let result = solve_system(&mut st, vec![], vec!["x".to_string()]);
    // Empty system should return None
    assert!(result.is_none());
}

#[test]
fn test_solve_inconsistent_system() {
    let mut st = Store::new();
    let x = st.sym("x");

    // System: x - 1 = 0, x - 2 = 0 (inconsistent)
    let neg_one = st.integer(-1);
    let eq1 = st.add(vec![x, neg_one]);
    let neg_two = st.integer(-2);
    let eq2 = st.add(vec![x, neg_two]);

    let result = solve_system(&mut st, vec![eq1, eq2], vec!["x".to_string()]);
    assert!(result.is_none());
}

#[test]
fn test_solve_triangular_system() {
    let mut st = Store::new();
    let x = st.sym("x");
    let y = st.sym("y");

    // Triangular system: x - 1 = 0, y - x = 0
    let neg_one_a = st.integer(-1);
    let eq1 = st.add(vec![x, neg_one_a]);
    let neg_one_b = st.integer(-1);
    let neg_x = st.mul(vec![neg_one_b, x]);
    let eq2 = st.add(vec![y, neg_x]);

    let result = solve_system(&mut st, vec![eq1, eq2], vec!["x".to_string(), "y".to_string()]);
    assert!(result.is_some());

    let solutions = result.unwrap();
    assert_eq!(solutions.len(), 1);

    let sol = &solutions[0];
    assert!(sol.contains_key("x"));
    assert!(sol.contains_key("y"));
    assert_eq!(st.to_string(sol["x"]), "1");
    assert_eq!(st.to_string(sol["y"]), "1");
}

#[test]
fn solved_values_are_the_first_roots_in_variable_order() {
    let mut st = Store::new();
    let x = st.sym("x");
    let y = st.sym("y");
    let two = st.integer(2);
    let x2 = st.pow(x, two);
    let neg_four = st.integer(-4);
    let eq1 = st.add(vec![x2, neg_four]);
    let neg_two = st.integer(-2);
    let eq2 = st.add(vec![y, neg_two]);
    let env = solve_values(&st, &vec![eq1, eq2], &vec!["x".to_string(), "y".to_string()]).unwrap();
    assert_eq!(env, vec![("x".to_string(), 2), ("y".to_string(), 2)]);

    // x + 3 = 0 has its root at the seventh candidate
    let three = st.integer(3);
    let eq3 = st.add(vec![x, three]);
    let env = solve_values(&st, &vec![eq3], &vec!["x".to_string()]).unwrap();
    assert_eq!(env, vec![("x".to_string(), -3)]);

    // a linear system whose first variable cannot be fixed alone is not solved
    let neg_three = st.integer(-3);
    let eq4 = st.add(vec![x, y, neg_three]);
    assert_eq!(solve_values(&st, &vec![eq4, eq2], &vec!["x".to_string(), "y".to_string()]), None);
}
