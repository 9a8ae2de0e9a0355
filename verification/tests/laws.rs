use galois::field::broadcast::broadcast_shapes;
use galois::{FieldMatrix, FieldVector, GaloisField};

#[test]
fn addition_commutes_and_associates_in_gf3_5() {
    let gf = GaloisField::new(3, 5).unwrap();
    for &(a, b, c) in &[(236u64, 109u64, 17u64), (87, 108, 224), (0, 242, 1)] {
        assert_eq!(gf.add(a, b), gf.add(b, a));
        assert_eq!(gf.add(gf.add(a, b), c), gf.add(a, gf.add(b, c)));
        assert_eq!(gf.add(a, 0), a);
        assert_eq!(gf.add(a, gf.neg(a)), 0);
        assert_eq!(gf.sub(a, b), gf.add(a, gf.neg(b)));
    }
}

#[test]
fn fermat_and_powers_in_gf3_5() {
    let gf = GaloisField::new(3, 5).unwrap();
    for a in 1..243u64 {
        assert_eq!(gf.pow(a, 242), 1);
        assert_eq!(gf.div(a, a).unwrap(), 1);
        assert_eq!(gf.pow(gf.pow(a, 5), 7), gf.pow(a, 35));
        let l = gf.discrete_log(a).unwrap();
        assert_eq!(gf.exp_from_log(l), a);
    }
}

#[test]
fn broadcasting_is_symmetric() {
    assert_eq!(broadcast_shapes(&[3, 1], &[3]).unwrap(), broadcast_shapes(&[3], &[3, 1]).unwrap());
    assert!(broadcast_shapes(&[2, 3], &[4]).is_err());
    assert_eq!(broadcast_shapes(&[0], &[1]).unwrap(), vec![0]);
}

#[test]
fn array_addition_commutes() {
    let gf = GaloisField::new(3, 5).unwrap();
    let x = gf.array_shape(&[2, 1], vec![236, 87]).unwrap();
    let y = gf.array(vec![109, 17, 108]).unwrap();
    let xy = x.add(&y).unwrap();
    let yx = y.add(&x).unwrap();
    assert_eq!(xy.shape(), vec![2, 3]);
    assert_eq!(xy.values(), yx.values());
}

#[test]
fn inverse_times_matrix_is_identity() {
    let gf = GaloisField::new(7, 1).unwrap();
    let a = FieldMatrix::new(gf.clone(), 2, 2, vec![2, 3, 1, 4]).unwrap();
    let inv = a.inverse().unwrap();
    let prod = a.mul(&inv).unwrap();
    assert_eq!(prod.get(0, 0), 1);
    assert_eq!(prod.get(0, 1), 0);
    assert_eq!(prod.get(1, 0), 0);
    assert_eq!(prod.get(1, 1), 1);
    let singular = FieldMatrix::new(gf.clone(), 2, 2, vec![1, 2, 2, 4]).unwrap();
    assert!(singular.inverse().is_err());
    let b = FieldVector::new(gf, vec![1, 1]).unwrap();
    assert!(singular.solve(&b).is_err());
}

#[test]
fn lu_of_a_permuted_matrix() {
    let gf = GaloisField::new(5, 1).unwrap();
    let a = FieldMatrix::new(gf, 3, 3, vec![0, 1, 2, 1, 0, 3, 4, 1, 0]).unwrap();
    let (l, u, p) = a.lu_decomposition().unwrap();
    let lu = l.mul(&u).unwrap();
    for i in 0..3 {
        for j in 0..3 {
            assert_eq!(lu.get(i, j), a.get(p[i], j));
        }
    }
}
