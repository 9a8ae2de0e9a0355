use galois::{characteristic_polynomial, FieldMatrix, FieldVector, GaloisField};

#[test]
fn solve_2x2() {
    let gf = GaloisField::new(5, 1).unwrap();
    let a = FieldMatrix::new(gf.clone(), 2, 2, vec![1, 2, 3, 4]).unwrap();
    let b = FieldVector::new(gf.clone(), vec![1, 2]).unwrap();
    let x = a.solve(&b).unwrap();
    let check = a.mul_vec(&x).unwrap();
    assert_eq!(check.values(), b.values());
}

#[test]
fn det_and_rank() {
    let gf = GaloisField::new(5, 1).unwrap();
    let a = FieldMatrix::new(gf.clone(), 2, 2, vec![1, 2, 3, 4]).unwrap();
    assert_eq!(a.det().unwrap(), 3);
    assert_eq!(a.rank(), 2);
    assert_eq!(a.trace(), 0);
    let singular = FieldMatrix::new(gf.clone(), 2, 2, vec![1, 2, 2, 4]).unwrap();
    assert_eq!(singular.rank(), 1);
    let null = singular.null_space().unwrap();
    assert_eq!(null.len(), 1);
}

#[test]
fn lu_identity() {
    let gf = GaloisField::new(5, 1).unwrap();
    let a = FieldMatrix::identity(gf, 3);
    let (l, u, pivots) = a.lu_decomposition().unwrap();
    assert_eq!(pivots, vec![0, 1, 2]);
    assert_eq!(l.get(1, 0), 0);
    assert_eq!(u.get(1, 0), 0);
    let lu = l.mul(&u).unwrap();
    for i in 0..3 {
        for j in 0..3 {
            assert_eq!(lu.get(i, j), a.get(i, j));
        }
    }
}

#[test]
fn eigenvalues_3x3() {
    let gf = GaloisField::new(5, 1).unwrap();
    let a = FieldMatrix::identity(gf, 3);
    let evals = a.eigenvalues().unwrap();
    assert!(evals.contains(&1));
}

#[test]
fn characteristic_polynomial_of_identity_gf5() {
    let gf = GaloisField::new(5, 1).unwrap();
    let a = FieldMatrix::identity(gf, 3);
    let p = characteristic_polynomial(&a).unwrap();
    assert_eq!(p.coeffs(), &[1, 2, 3, 4]);
    assert_eq!(a.eigenvalues().unwrap(), vec![1]);
}

#[test]
fn characteristic_polynomial_small_closed_forms() {
    let gf = GaloisField::new(5, 1).unwrap();
    let a = FieldMatrix::new(gf.clone(), 2, 2, vec![1, 2, 3, 4]).unwrap();
    let p = characteristic_polynomial(&a).unwrap();
    assert_eq!(p.coeffs(), &[1, 0, 3]);
    let b = FieldMatrix::new(gf.clone(), 1, 1, vec![2]).unwrap();
    let q = characteristic_polynomial(&b).unwrap();
    assert_eq!(q.coeffs(), &[1, 3]);
}

#[test]
fn characteristic_polynomial_diagonal_3x3() {
    let gf = GaloisField::new(7, 1).unwrap();
    let a = FieldMatrix::new(gf.clone(), 3, 3, vec![2, 0, 0, 0, 3, 0, 0, 0, 5]).unwrap();
    let p = characteristic_polynomial(&a).unwrap();
    // (x - 2)(x - 3)(x - 5) = x^3 - 10x^2 + 31x - 30 = x^3 + 4x^2 + 3x + 5 over GF(7)
    assert_eq!(p.coeffs(), &[1, 4, 3, 5]);
    assert_eq!(a.eigenvalues().unwrap(), vec![2, 3, 5]);
}

#[test]
fn eigenvalues_of_non_square_matrix_fail() {
    let gf = GaloisField::new(5, 1).unwrap();
    let a = FieldMatrix::new(gf.clone(), 3, 2, vec![1, 2, 3, 4, 0, 1]).unwrap();
    assert!(a.eigenvalues().is_err());
    assert!(characteristic_polynomial(&a).is_err());
}
