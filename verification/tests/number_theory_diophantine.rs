use symmetrica::number_theory::diophantine::{extended_gcd, pythagorean_triples, solve_linear_diophantine, solve_pell, solve_pell_checked};


#[test]
fn test_extended_gcd() {
    let (gcd, x, y) = extended_gcd(48, 18);
    assert_eq!(gcd, 6);
    assert_eq!(48 * x + 18 * y, 6);
}

#[test]
fn test_extended_gcd_coprime() {
    let (gcd, x, y) = extended_gcd(17, 19);
    assert_eq!(gcd, 1);
    assert_eq!(17 * x + 19 * y, 1);
}

#[test]
fn test_solve_linear_diophantine_solvable() {
    // 3x + 5y = 1
    let result = solve_linear_diophantine(3, 5, 1);
    assert!(result.is_some());
    let (x, y) = result.unwrap();
    assert_eq!(3 * x + 5 * y, 1);
}

#[test]
fn test_solve_linear_diophantine_unsolvable() {
    // 6x + 9y = 5 (gcd(6,9) = 3, doesn't divide 5)
    let result = solve_linear_diophantine(6, 9, 5);
    assert!(result.is_none());
}

#[test]
fn test_solve_linear_diophantine_zero() {
    let result = solve_linear_diophantine(0, 0, 0);
    assert_eq!(result, Some((0, 0)));
}

#[test]
fn test_pythagorean_triples_small() {
    let triples = pythagorean_triples(15);
    assert!(triples.contains(&(3, 4, 5)));
    assert!(triples.contains(&(5, 12, 13)));
}

#[test]
fn test_pythagorean_triples_verify() {
    let triples = pythagorean_triples(50);
    for (a, b, c) in triples {
        assert_eq!(a * a + b * b, c * c);
    }
}

#[test]
fn test_solve_pell_small() {
    // x² - 2y² = 1, solution: (3, 2)
    let result = solve_pell(2);
    assert!(result.is_some());
    let (x, y) = result.unwrap();
    assert_eq!(x * x - 2 * y * y, 1);
}

#[test]
fn test_solve_pell_perfect_square() {
    // d = 4 is a perfect square
    let result = solve_pell(4);
    assert!(result.is_none());
}

#[test]
fn test_solve_pell_various() {
    for d in [2, 3, 5, 6, 7, 8, 10] {
        if let Some((x, y)) = solve_pell(d) {
            let x_sq = (x as i128) * (x as i128);
            let dy_sq = (d as i128) * (y as i128) * (y as i128);
            assert_eq!(x_sq - dy_sq, 1);
        }
    }
}


#[test]
fn extended_gcd_has_a_nonnegative_gcd() {
    assert_eq!(extended_gcd(-4, 0), (4, -1, 0));
    let (g, x, y) = extended_gcd(-48, 18);
    assert_eq!(g, 6);
    assert_eq!(-48 * x + 18 * y, 6);
    let (g, x, y) = extended_gcd(17, -19);
    assert_eq!(g, 1);
    assert_eq!(17 * x - 19 * y, 1);
}

#[test]
fn solve_pell_checked_agrees_with_solve_pell() {
    assert_eq!(solve_pell_checked(2), Some(Some((3, 2))));
    assert_eq!(solve_pell_checked(4), Some(None));
    assert_eq!(solve_pell_checked(61), Some(Some((1766319049, 226153980))));
    for d in [3u64, 5, 7, 13, 61, 109] {
        let checked = solve_pell_checked(d);
        assert_eq!(checked, Some(solve_pell(d)));
        if let Some(Some((x, y))) = checked {
            assert_eq!((x as u128) * (x as u128) - (d as u128) * (y as u128) * (y as u128), 1);
        }
    }
}
