use symmetrica::arith::Q;
use symmetrica::matrix::MatrixQ;


#[test]
fn det_2x2() {
    let m = MatrixQ::from_i64(2, 2, &[1, 2, 3, 4]);
    assert_eq!(m.det_bareiss().unwrap(), Q(-2, 1));
}

#[test]
fn det_identity() {
    let m = MatrixQ::identity(4);
    assert_eq!(m.det_bareiss().unwrap(), Q(1, 1));
}

#[test]
fn det_3x3_example() {
    // [[2,0,1],[1,1,0],[0,3,1]] -> det = 5
    let m = MatrixQ::from_i64(3, 3, &[2, 0, 1, 1, 1, 0, 0, 3, 1]);
    assert_eq!(m.det_bareiss().unwrap(), Q(5, 1));
}

#[test]
fn det_singular() {
    // second row is multiple of first
    let m = MatrixQ::from_i64(2, 2, &[1, 2, 2, 4]);
    assert_eq!(m.det_bareiss().unwrap(), Q(0, 1));
}

#[test]
fn solve_2x2_unique() {
    // [ [1,2], [3,4] ] x = [5,11] -> x = [1,2]
    let m = MatrixQ::from_i64(2, 2, &[1, 2, 3, 4]);
    let b = vec![Q(5, 1), Q(11, 1)];
    let x = m.solve_bareiss(&b).unwrap().expect("unique");
    assert_eq!(x, vec![Q(1, 1), Q(2, 1)]);
}

#[test]
fn solve_3x3_unique() {
    // A = [[2,1,0],[1,3,1],[0,2,1]]; b=[5,10,7] -> x=[2,1,1]
    let m = MatrixQ::from_i64(3, 3, &[2, 1, 0, 1, 3, 1, 0, 2, 1]);
    let b = vec![Q(5, 1), Q(10, 1), Q(7, 1)];
    let x = m.solve_bareiss(&b).unwrap().expect("unique");
    assert_eq!(x, vec![Q(2, 1), Q(1, 1), Q(5, 1)]);
}

#[test]
fn solve_singular_none() {
    let m = MatrixQ::from_i64(2, 2, &[1, 2, 2, 4]);
    let b = vec![Q(3, 1), Q(6, 1)];
    assert!(m.solve_bareiss(&b).unwrap().is_none());
}

#[test]
fn det_non_square_error() {
    let m = MatrixQ::from_i64(2, 3, &[1, 2, 3, 4, 5, 6]);
    assert!(m.det_bareiss().is_err());
}

#[test]
fn solve_non_square_error() {
    let m = MatrixQ::from_i64(2, 3, &[1, 2, 3, 4, 5, 6]);
    let b = vec![Q(1, 1), Q(2, 1)];
    assert!(m.solve_bareiss(&b).is_err());
}

#[test]
fn solve_wrong_rhs_length() {
    let m = MatrixQ::identity(2);
    let b = vec![Q(1, 1)];
    assert!(m.solve_bareiss(&b).is_err());
}

#[test]
fn det_zero_size() {
    let m = MatrixQ::new(0, 0, vec![]);
    assert_eq!(m.det_bareiss().unwrap(), Q(1, 1));
}

#[test]
fn solve_zero_size() {
    let m = MatrixQ::new(0, 0, vec![]);
    let b = vec![];
    let x = m.solve_bareiss(&b).unwrap().expect("empty");
    assert_eq!(x.len(), 0);
}

// ========== Matrix Addition Tests ==========
#[test]
fn add_2x2() {
    let a = MatrixQ::from_i64(2, 2, &[1, 2, 3, 4]);
    let b = MatrixQ::from_i64(2, 2, &[5, 6, 7, 8]);
    let c = a.add(&b).unwrap();
    assert_eq!(c.get(0, 0), Q(6, 1));
    assert_eq!(c.get(0, 1), Q(8, 1));
    assert_eq!(c.get(1, 0), Q(10, 1));
    assert_eq!(c.get(1, 1), Q(12, 1));
}

#[test]
fn add_different_sizes_error() {
    let a = MatrixQ::from_i64(2, 2, &[1, 2, 3, 4]);
    let b = MatrixQ::from_i64(2, 3, &[1, 2, 3, 4, 5, 6]);
    assert!(a.add(&b).is_err());
}

#[test]
fn add_with_fractions() {
    let a = MatrixQ::new(2, 2, vec![Q(1, 2), Q(1, 3), Q(1, 4), Q(1, 5)]);
    let b = MatrixQ::new(2, 2, vec![Q(1, 2), Q(2, 3), Q(3, 4), Q(4, 5)]);
    let c = a.add(&b).unwrap();
    assert_eq!(c.get(0, 0), Q(1, 1)); // 1/2 + 1/2 = 1
    assert_eq!(c.get(0, 1), Q(1, 1)); // 1/3 + 2/3 = 1
    assert_eq!(c.get(1, 0), Q(1, 1)); // 1/4 + 3/4 = 1
    assert_eq!(c.get(1, 1), Q(1, 1)); // 1/5 + 4/5 = 1
}

// ========== Matrix Subtraction Tests ==========
#[test]
fn sub_2x2() {
    let a = MatrixQ::from_i64(2, 2, &[5, 6, 7, 8]);
    let b = MatrixQ::from_i64(2, 2, &[1, 2, 3, 4]);
    let c = a.sub(&b).unwrap();
    assert_eq!(c.get(0, 0), Q(4, 1));
    assert_eq!(c.get(0, 1), Q(4, 1));
    assert_eq!(c.get(1, 0), Q(4, 1));
    assert_eq!(c.get(1, 1), Q(4, 1));
}

#[test]
fn sub_different_sizes_error() {
    let a = MatrixQ::from_i64(2, 2, &[1, 2, 3, 4]);
    let b = MatrixQ::from_i64(3, 2, &[1, 2, 3, 4, 5, 6]);
    assert!(a.sub(&b).is_err());
}

#[test]
fn sub_to_zero() {
    let a = MatrixQ::from_i64(2, 2, &[1, 2, 3, 4]);
    let c = a.sub(&a).unwrap();
    assert_eq!(c.get(0, 0), Q(0, 1));
    assert_eq!(c.get(0, 1), Q(0, 1));
    assert_eq!(c.get(1, 0), Q(0, 1));
    assert_eq!(c.get(1, 1), Q(0, 1));
}

// ========== Matrix Multiplication Tests ==========
#[test]
fn mul_2x2() {
    let a = MatrixQ::from_i64(2, 2, &[1, 2, 3, 4]);
    let b = MatrixQ::from_i64(2, 2, &[5, 6, 7, 8]);
    let c = a.mul(&b).unwrap();
    // [[1,2],[3,4]] * [[5,6],[7,8]] = [[19,22],[43,50]]
    assert_eq!(c.get(0, 0), Q(19, 1));
    assert_eq!(c.get(0, 1), Q(22, 1));
    assert_eq!(c.get(1, 0), Q(43, 1));
    assert_eq!(c.get(1, 1), Q(50, 1));
}

#[test]
fn mul_identity() {
    let a = MatrixQ::from_i64(3, 3, &[1, 2, 3, 4, 5, 6, 7, 8, 9]);
    let i = MatrixQ::identity(3);
    let c = a.mul(&i).unwrap();
    assert_eq!(c, a);
}

#[test]
fn mul_incompatible_dimensions_error() {
    let a = MatrixQ::from_i64(2, 3, &[1, 2, 3, 4, 5, 6]);
    let b = MatrixQ::from_i64(2, 2, &[1, 2, 3, 4]);
    assert!(a.mul(&b).is_err());
}

#[test]
fn mul_rectangular() {
    // (2x3) * (3x2) = (2x2)
    let a = MatrixQ::from_i64(2, 3, &[1, 2, 3, 4, 5, 6]);
    let b = MatrixQ::from_i64(3, 2, &[1, 2, 3, 4, 5, 6]);
    let c = a.mul(&b).unwrap();
    assert_eq!(c.rows, 2);
    assert_eq!(c.cols, 2);
    // [[1,2,3],[4,5,6]] * [[1,2],[3,4],[5,6]]
    // = [[1+6+15, 2+8+18],[4+15+30, 8+20+36]]
    // = [[22,28],[49,64]]
    assert_eq!(c.get(0, 0), Q(22, 1));
    assert_eq!(c.get(0, 1), Q(28, 1));
    assert_eq!(c.get(1, 0), Q(49, 1));
    assert_eq!(c.get(1, 1), Q(64, 1));
}

// ========== Matrix Inverse Tests ==========
#[test]
fn inverse_2x2() {
    // [[1,2],[3,4]] has inverse [[-2,1],[3/2,-1/2]]
    let a = MatrixQ::from_i64(2, 2, &[1, 2, 3, 4]);
    let inv = a.inverse().unwrap().expect("invertible");
    assert_eq!(inv.get(0, 0), Q(-2, 1));
    assert_eq!(inv.get(0, 1), Q(1, 1));
    assert_eq!(inv.get(1, 0), Q(3, 2));
    assert_eq!(inv.get(1, 1), Q(-1, 2));

    // Verify A * A^-1 = I
    let product = a.mul(&inv).unwrap();
    let identity = MatrixQ::identity(2);
    assert_eq!(product, identity);
}

#[test]
fn inverse_3x3() {
    // [[2,1,0],[1,3,1],[0,2,1]]
    let a = MatrixQ::from_i64(3, 3, &[2, 1, 0, 1, 3, 1, 0, 2, 1]);
    let inv = a.inverse().unwrap().expect("invertible");

    // Verify A * A^-1 = I
    let product = a.mul(&inv).unwrap();
    let identity = MatrixQ::identity(3);
    assert_eq!(product, identity);
}

#[test]
fn inverse_singular_none() {
    let a = MatrixQ::from_i64(2, 2, &[1, 2, 2, 4]);
    let result = a.inverse().unwrap();
    assert!(result.is_none());
}

#[test]
fn inverse_non_square_error() {
    let a = MatrixQ::from_i64(2, 3, &[1, 2, 3, 4, 5, 6]);
    assert!(a.inverse().is_err());
}

#[test]
fn inverse_identity() {
    let i = MatrixQ::identity(4);
    let inv = i.inverse().unwrap().expect("invertible");
    assert_eq!(inv, i);
}

#[test]
fn inverse_zero_size() {
    let a = MatrixQ::new(0, 0, vec![]);
    let inv = a.inverse().unwrap().expect("invertible");
    assert_eq!(inv.rows, 0);
    assert_eq!(inv.cols, 0);
}

#[test]
fn inverse_then_solve() {
    // Test that solving via inverse gives same result as solve_bareiss
    let a = MatrixQ::from_i64(2, 2, &[1, 2, 3, 4]);
    let b = vec![Q(5, 1), Q(11, 1)];

    let x1 = a.solve_bareiss(&b).unwrap().expect("unique");
    let inv = a.inverse().unwrap().expect("invertible");

    // Compute x2 = A^-1 * b
    let b_mat = MatrixQ::new(2, 1, b.clone());
    let x2_mat = inv.mul(&b_mat).unwrap();
    let x2 = vec![x2_mat.get(0, 0), x2_mat.get(1, 0)];

    assert_eq!(x1, x2);
}

