use symmetrica::number_theory::factorization::{factor, trial_division};


#[test]
fn test_trial_division_small() {
    assert_eq!(trial_division(12, None), vec![(2, 2), (3, 1)]);
    assert_eq!(trial_division(17, None), vec![(17, 1)]);
    assert_eq!(trial_division(100, None), vec![(2, 2), (5, 2)]);
    assert_eq!(trial_division(1, None), vec![]);
}

#[test]
fn test_trial_division_primes() {
    assert_eq!(trial_division(2, None), vec![(2, 1)]);
    assert_eq!(trial_division(3, None), vec![(3, 1)]);
    assert_eq!(trial_division(97, None), vec![(97, 1)]);
}

#[test]
fn test_trial_division_powers() {
    assert_eq!(trial_division(8, None), vec![(2, 3)]);
    assert_eq!(trial_division(27, None), vec![(3, 3)]);
    assert_eq!(trial_division(32, None), vec![(2, 5)]);
}

#[test]
fn test_factor_small() {
    assert_eq!(factor(60), vec![(2, 2), (3, 1), (5, 1)]);
    assert_eq!(factor(210), vec![(2, 1), (3, 1), (5, 1), (7, 1)]);
}

#[test]
fn test_factor_large_prime() {
    // 10007 is prime
    assert_eq!(factor(10007), vec![(10007, 1)]);
}

#[test]
fn test_factor_semiprime() {
    // 10403 = 101 * 103
    let result = factor(10403);
    assert_eq!(result.len(), 2);
    assert_eq!(result[0].0 * result[1].0, 10403);
}



