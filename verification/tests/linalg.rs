use ndarray::{Array, ArrayError, Si};

#[test]
fn eye_has_ones_on_the_diagonal() {
    let e = Array::eye(3).unwrap();
    assert_eq!(e.shape(), &vec![3usize, 3]);
    for i in 0..3usize {
        for j in 0..3usize {
            assert_eq!(e.get(&vec![i, j]), if i == j { 1 } else { 0 });
        }
    }
}

#[test]
fn cholesky_recovers_an_exact_factor() {
    // A = L * L^T for L = [[2, 0], [3, 1]]
    let a = Array::from_vec_dim(vec![2, 2], vec![4, 6, 6, 10]).unwrap();
    let l = a.cholesky().unwrap();
    assert!(l.eq(&Array::from_vec_dim(vec![2, 2], vec![2, 0, 3, 1]).unwrap()));
}

#[test]
fn cholesky_rejects_a_negative_diagonal() {
    let a = Array::from_vec_dim(vec![1, 1], vec![-4]).unwrap();
    assert_eq!(a.cholesky().unwrap_err(), ArrayError::NotSolvable);
}

#[test]
fn subst_fw_solves_lower_triangular() {
    let l = Array::from_vec_dim(vec![2, 2], vec![2, 0, 3, 1]).unwrap();
    let b = Array::from_vec(vec![16, 26]);
    let x = l.subst_fw(&b).unwrap();
    assert!(x.eq(&Array::from_vec(vec![8, 2])));
}

#[test]
fn subst_fw_rejects_a_zero_pivot() {
    let l = Array::from_vec_dim(vec![2, 2], vec![0, 0, 3, 1]).unwrap();
    let b = Array::from_vec(vec![1, 2]);
    assert_eq!(l.subst_fw(&b).unwrap_err(), ArrayError::NotSolvable);
}

#[test]
fn subst_bw_solves_upper_triangular() {
    let u = Array::from_vec_dim(vec![2, 2], vec![2, 3, 0, 1]).unwrap();
    let b = Array::from_vec(vec![8, 2]);
    let x = u.subst_bw(&b).unwrap();
    assert!(x.eq(&Array::from_vec(vec![1, 2])));
}

#[test]
fn solve_round_trip_recovers_x() {
    // A = L * L^T is positive definite; b = A * x; the factor-and-substitute
    // pipeline recovers x exactly in integer arithmetic.
    let a = Array::from_vec_dim(vec![2, 2], vec![4, 6, 6, 10]).unwrap();
    let x = Array::from_vec(vec![1, 2]);
    let b = a.mat_mul(&x.clone().reshape(vec![2, 1]).unwrap()).unwrap();
    let b = b.reshape(vec![2]).unwrap();
    assert!(b.eq(&Array::from_vec(vec![16, 26])));

    let mut l = a.cholesky().unwrap();
    let z = l.subst_fw(&b).unwrap();
    l.swap_axes(0, 1);
    let xr = l.subst_bw(&z).unwrap();
    assert!(xr.eq(&x));
}

#[test]
fn least_squares_reproduces_an_exact_solution() {
    // exactly determined, full rank
    let a = Array::from_vec_dim(vec![2, 2], vec![2, 0, 0, 1]).unwrap();
    let b = Array::from_vec(vec![2, 3]);
    let x = a.least_squares(&b).unwrap();
    assert!(x.eq(&Array::from_vec(vec![1, 3])));
}

#[test]
fn least_squares_fits_a_consistent_overdetermined_system() {
    // three equations, two unknowns, consistent: the residual is zero and
    // the unique solution is recovered exactly.
    let a = Array::from_vec_dim(vec![3, 2], vec![2, 0, 0, 3, 0, 0]).unwrap();
    let x = Array::from_vec(vec![1, 2]);
    let b = a.mat_mul(&x.clone().reshape(vec![2, 1]).unwrap()).unwrap();
    let b = b.reshape(vec![3]).unwrap();
    let xr = a.least_squares(&b).unwrap();
    assert!(xr.eq(&x));
}

#[test]
fn mat_mul_matches_a_hand_computation() {
    let a = Array::from_vec_dim(vec![2, 2], vec![1, 2, 3, 4]).unwrap();
    let b = Array::from_vec_dim(vec![2, 2], vec![5, 6, 7, 8]).unwrap();
    let c = a.mat_mul(&b).unwrap();
    assert!(c.eq(&Array::from_vec_dim(vec![2, 2], vec![19, 22, 43, 50]).unwrap()));
}

#[test]
fn subst_fw_on_identity_returns_a_reversed_view_exactly() {
    // the identity system returns its right-hand side in logical order, so
    // a step -1 slice of [0,1,2,3] solves to exactly [3,2,1,0]
    let v = Array::from_vec(vec![0, 1, 2, 3]);
    let b = v
        .slice(&vec![Si { start: 0, end: None, step: -1 }])
        .unwrap();
    let i4 = Array::eye(4).unwrap();
    let x = i4.subst_fw(&b).unwrap();
    assert!(x.eq(&Array::from_vec(vec![3, 2, 1, 0])));
}

#[test]
fn cholesky_is_unchanged_by_a_double_axis_swap() {
    let a = Array::from_vec_dim(vec![2, 2], vec![4, 6, 6, 10]).unwrap();
    let mut a2 = a.clone();
    a2.swap_axes(0, 1);
    a2.swap_axes(0, 1);
    let l = a.cholesky().unwrap();
    let l2 = a2.cholesky().unwrap();
    assert!(l.eq(&l2));
}
