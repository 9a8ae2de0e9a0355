use galois::{BigGaloisField, FieldKind, GaloisElementValue, GaloisError, GaloisField, GaloisMatrix};

fn gf4_big() -> BigGaloisField {
    // x^2 + x + 1
    BigGaloisField::new_uncached(2, 2, Ok((vec![2, 1, 0], vec![1, 1, 1]))).unwrap()
}

#[test]
fn galois_matrix_small_solve() {
    let fk = FieldKind::Small(GaloisField::new(5, 1).unwrap());
    let a = GaloisMatrix::new(&fk, 2, 2, vec![1, 2, 3, 4]).unwrap();
    let b = fk.array(vec![1, 2]).unwrap();
    let x = a.solve(&b).unwrap();
    let check = a.mul_array(&x).unwrap();
    assert_eq!(check.as_small().unwrap().values(), b.as_small().unwrap().values());
}

#[test]
fn galois_matrix_big_det() {
    let fk = FieldKind::Big(gf4_big());
    let a = GaloisMatrix::new(&fk, 2, 2, vec![1, 1, 1, 0]).unwrap();
    match a.det().unwrap() {
        GaloisElementValue::Big(d) => assert!(!d.is_zero()),
        _ => panic!("expected big det"),
    }
    assert_eq!(a.rank(), 2);
}

#[test]
fn galois_matrix_big_characteristic() {
    let fk = FieldKind::Big(gf4_big());
    let a = GaloisMatrix::identity(&fk, 2);
    let cp = a.characteristic_polynomial().unwrap();
    assert_eq!(cp.degree(), 2);
}

#[test]
fn galois_matrix_lu_and_eigenvalues() {
    let fk = FieldKind::Small(GaloisField::new(5, 1).unwrap());
    let a = GaloisMatrix::identity(&fk, 3);
    let (l, u, pivots) = a.lu_decomposition().unwrap();
    assert_eq!(pivots, vec![0, 1, 2]);
    let lu = l.mul(&u).unwrap();
    for i in 0..3 {
        for j in 0..3 {
            match (&a, &lu) {
                (GaloisMatrix::Small(am), GaloisMatrix::Small(lum)) => {
                    assert_eq!(am.get(i, j), lum.get(i, j));
                }
                _ => panic!("expected small matrices"),
            }
        }
    }
    let evals = a.eigenvalues().unwrap();
    assert!(evals.as_small().unwrap().values().contains(&1));
}

#[test]
fn galois_matrix_big_eigenvalues() {
    let fk = FieldKind::Big(gf4_big());
    let a = GaloisMatrix::identity(&fk, 2);
    let evals = a.eigenvalues().unwrap();
    assert!(!evals.as_big().unwrap().values().is_empty());
}

#[test]
fn galois_matrix_inverse_and_null_space() {
    let fk = FieldKind::Small(GaloisField::new(5, 1).unwrap());
    let a = GaloisMatrix::new(&fk, 2, 2, vec![1, 2, 3, 4]).unwrap();
    let inv = a.inverse().unwrap();
    let prod = a.mul(&inv).unwrap();
    for i in 0..2 {
        for j in 0..2 {
            match &prod {
                GaloisMatrix::Small(m) => {
                    assert_eq!(m.get(i, j), if i == j { 1 } else { 0 });
                }
                _ => panic!("expected small matrix"),
            }
        }
    }

    let singular = GaloisMatrix::new(&fk, 2, 2, vec![1, 2, 2, 4]).unwrap();
    let null = singular.null_space().unwrap();
    assert_eq!(null.len(), 1);
}

#[test]
fn galois_matrix_big_inverse() {
    let fk = FieldKind::Big(gf4_big());
    let a = GaloisMatrix::new(&fk, 2, 2, vec![1, 1, 1, 0]).unwrap();
    let inv = a.inverse().unwrap();
    let prod = a.mul(&inv).unwrap();
    match &prod {
        GaloisMatrix::Big(m) => {
            assert_eq!(m.get(0, 0).to_u64(), Some(1));
            assert_eq!(m.get(1, 1).to_u64(), Some(1));
        }
        _ => panic!("expected big matrix"),
    }
}

#[test]
fn galois_matrix_singular_lu_fails() {
    let fk = FieldKind::Small(GaloisField::new(5, 1).unwrap());
    let singular = GaloisMatrix::new(&fk, 2, 2, vec![1, 2, 2, 4]).unwrap();
    assert_eq!(singular.rank(), 1);
    assert!(matches!(singular.lu_decomposition(), Err(GaloisError::SingularMatrix)));

    let big_fk = FieldKind::Big(gf4_big());
    let big_singular = GaloisMatrix::new(&big_fk, 2, 2, vec![1, 1, 2, 2]).unwrap();
    assert_eq!(big_singular.rank(), 1);
    assert!(matches!(big_singular.lu_decomposition(), Err(GaloisError::SingularMatrix)));
}

#[test]
fn galois_matrix_rank_revealing_lu() {
    let fk = FieldKind::Small(GaloisField::new(5, 1).unwrap());
    let singular = GaloisMatrix::new(&fk, 2, 2, vec![1, 2, 2, 4]).unwrap();
    let (_l, _u, _pivots, rank) = singular.rank_revealing_lu_decomposition().unwrap();
    assert_eq!(rank, singular.rank());
    assert_eq!(rank, 1);

    let full = GaloisMatrix::identity(&fk, 2);
    let (_, _, _, full_rank) = full.rank_revealing_lu_decomposition().unwrap();
    assert_eq!(full_rank, 2);
}

#[test]
fn galois_matrix_kind_mismatch() {
    let small = GaloisMatrix::identity(&FieldKind::Small(GaloisField::new(5, 1).unwrap()), 2);
    let big = GaloisMatrix::identity(&FieldKind::Big(gf4_big()), 2);
    assert!(matches!(small.add(&big), Err(GaloisError::FieldMismatch)));
    assert!(matches!(big.mul(&small), Err(GaloisError::FieldMismatch)));
}

#[test]
fn galois_matrix_transpose_and_trace() {
    let fk = FieldKind::Small(GaloisField::new(7, 1).unwrap());
    let a = GaloisMatrix::new(&fk, 2, 3, vec![1, 2, 3, 4, 5, 6]).unwrap();
    let t = a.transpose().unwrap();
    assert_eq!(t.shape(), (3, 2));
    match &t {
        GaloisMatrix::Small(m) => assert_eq!(m.get(2, 1), 6),
        _ => panic!("expected small matrix"),
    }
    let sq = GaloisMatrix::new(&fk, 2, 2, vec![3, 1, 2, 6]).unwrap();
    match sq.trace() {
        GaloisElementValue::Small(v) => assert_eq!(v, 2),
        _ => panic!("expected small trace"),
    }
}

#[test]
fn big_matrix_characteristic_polynomial_gf4() {
    // [[1, 2], [2, 1]] over GF(4): x^2 - (1 + 1) x + (1 - 3) = x^2 + 0 x + 2
    let fk = FieldKind::Big(gf4_big());
    let a = GaloisMatrix::new(&fk, 2, 2, vec![1, 2, 2, 1]).unwrap();
    let cp = a.characteristic_polynomial().unwrap();
    let coeffs: Vec<Option<u64>> = cp.as_big().unwrap().coeffs().iter().map(|c| c.to_u64()).collect();
    assert_eq!(coeffs, vec![Some(1), Some(0), Some(2)]);
    // x^2 + 2 has the roots 3 (3 * 3 = 2).
    let evals = a.eigenvalues().unwrap();
    let values: Vec<Option<u64>> = evals.as_big().unwrap().values().iter().map(|v| v.to_u64()).collect();
    assert_eq!(values, vec![Some(3)]);
}
