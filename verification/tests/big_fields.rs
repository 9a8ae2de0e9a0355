use galois::lfsr::berlekamp_massey_array;
use galois::ElementRepr;
use galois::field::bigint::{big_add, big_div, big_mul, big_neg, big_pow, big_sub, big_coeffs_to_int, big_int_to_coeffs};
use galois::{
    cached_big_field, parse_field_poly, BigFieldArray, BigFieldElement, BigGaloisField, BigPoly, BigValue, FieldCache,
    FieldKind, GaloisArray, GaloisElement, lagrange_poly_array, poly_from_roots_kind,
    FieldPoly, FieldValue, GaloisError, BigFieldMatrix,
};

fn gf2_100() -> BigGaloisField {
    // x^100 + x^15 + 1
    BigGaloisField::new_uncached(2, 100, Ok((vec![100, 15, 0], vec![1, 1, 1]))).unwrap()
}

fn gf4() -> BigGaloisField {
    BigGaloisField::new_uncached(2, 2, Ok((vec![2, 1, 0], vec![1, 1, 1]))).unwrap()
}

fn big(v: u64) -> BigValue {
    BigValue::from_u64(v)
}

#[test]
fn big_field_gf2_100() {
    let f = gf2_100();
    let a = big(1);
    let b = big(1);
    assert_eq!(f.add(&a, &b).to_u64(), Some(0));
    assert_eq!(f.mul(&a, &b).to_u64(), Some(1));
}

#[test]
fn big_element_gf2_100() {
    let field = gf2_100();
    let a = BigFieldElement::from_u64(field.clone(), 1).unwrap();
    let b = BigFieldElement::from_u64(field, 1).unwrap();
    let sum = a.add(&b).unwrap();
    assert_eq!(sum.value().to_u64(), Some(0));
}

#[test]
fn big_prime_mul() {
    let p = 1000000007u64;
    let a = FieldValue::from_u64(p - 1);
    let b = FieldValue::from_u64(2);
    let c = big_mul(&a, &b, p);
    assert_eq!(c.as_u64(), Some((p - 1) * 2 % p));
}

#[test]
fn big_cache_returns_same_field() {
    let mut cache = FieldCache::new();
    let a = cached_big_field(&mut cache, 2, 2, Ok((vec![2, 1, 0], vec![1, 1, 1]))).unwrap();
    let b = cached_big_field(&mut cache, 2, 2, Err(GaloisError::DatabaseError("unused".to_string()))).unwrap();
    assert_eq!(a.order().to_u64(), b.order().to_u64());
    assert_eq!(a.characteristic(), b.characteristic());
}

#[test]
fn big_field_order_and_reduction_gf2_100() {
    let f = gf2_100();
    assert_eq!(f.order().limbs(), &[0, 0, 0, 16]);
    let x99 = BigValue::from_limbs(vec![0, 0, 0, 8]);
    let x = big(2);
    // x^100 = x^15 + 1
    assert_eq!(f.mul(&x99, &x).to_u64(), Some(32769));
    assert_eq!(f.mul(&x, &x).to_u64(), Some(4));
    assert!(f.validate(f.order()).is_err());
    assert_eq!(f.validate(&x99).unwrap().limbs(), &[0, 0, 0, 8]);
    assert!(f.as_small_field().is_err());
}

#[test]
fn big_field_gf4_division_and_powers() {
    let f = gf4();
    assert_eq!(f.mul(&big(2), &big(3)).to_u64(), Some(1));
    assert_eq!(f.div(&big(1), &big(2)).unwrap().to_u64(), Some(3));
    assert_eq!(f.pow(&big(2), 3).to_u64(), Some(1));
    assert_eq!(f.pow_big(&big(3), &big(2)).to_u64(), Some(2));
    assert_eq!(f.sub(&big(1), &big(3)).to_u64(), Some(2));
    assert_eq!(f.neg(&big(3)).to_u64(), Some(3));
    let small = f.as_small_field().unwrap();
    assert_eq!(small.order(), 4);
    let e = BigFieldElement::from_u64(f.clone(), 2).unwrap();
    assert_eq!(e.inverse().unwrap().value().to_u64(), Some(3));
    assert_eq!(e.pow(2).value().to_u64(), Some(3));
    assert!(BigFieldElement::from_u64(f, 4).is_err());
}

#[test]
fn big_field_construction_errors() {
    assert!(matches!(BigGaloisField::new_uncached(2, 0, Ok((vec![], vec![]))), Err(GaloisError::InvalidDegree(0))));
    assert!(matches!(BigGaloisField::new_uncached(4, 2, Ok((vec![], vec![]))), Err(GaloisError::InvalidCharacteristic(4))));
    let prime = BigGaloisField::new_uncached(7, 1, Err(GaloisError::DatabaseError("unused".to_string()))).unwrap();
    assert_eq!(prime.mul(&big(3), &big(5)).to_u64(), Some(1));
    assert_eq!(prime.irreducible_poly().coeffs(), &[0, 1]);
}

#[test]
fn prime_field_value_arithmetic() {
    let v = |x: u64| FieldValue::from_u64(x);
    assert_eq!(big_add(&v(5), &v(4), 7).as_u64(), Some(2));
    assert_eq!(big_sub(&v(2), &v(5), 7).as_u64(), Some(4));
    assert_eq!(big_neg(&v(3), 7).as_u64(), Some(4));
    assert_eq!(big_neg(&v(0), 7).as_u64(), Some(0));
    assert_eq!(big_pow(&v(3), 4, 7).as_u64(), Some(4));
    assert_eq!(big_pow(&v(3), 0, 7).as_u64(), Some(1));
    assert_eq!(big_div(&v(3), &v(2), 7).as_u64(), Some(5));
    let large = FieldValue::from_big(BigValue::from_limbs(vec![0, 0, 1]));
    assert_eq!(large.as_u64(), None);
    assert_eq!(big_add(&large, &v(0), 7).as_u64(), Some(((1u128 << 64) % 7) as u64));
}

#[test]
fn digit_conversions_roundtrip() {
    let v = BigValue::from_limbs(vec![0, 0, 0, 8]);
    let digits = big_int_to_coeffs(&v, 2, 100);
    assert_eq!(digits.len(), 100);
    assert_eq!(digits[99], 1);
    assert_eq!(digits.iter().sum::<u64>(), 1);
    let back = big_coeffs_to_int(&digits, 2);
    assert_eq!(back.limbs(), &[0, 0, 0, 8]);
}

#[test]
fn parse_field_poly_gf2_2() {
    let fk = FieldKind::Big(gf4());
    let p = parse_field_poly("x^2 + x + 1", &fk).unwrap();
    assert_eq!(p.degree(), 2);
    assert!(!p.is_small());
}

#[test]
fn parse_field_poly_small_kind() {
    let fk = FieldKind::Small(galois::GaloisField::new(7, 1).unwrap());
    let p = parse_field_poly("x^3 + 2x + 5", &fk).unwrap();
    assert!(p.is_small());
    assert_eq!(p.degree(), 3);
    assert_eq!(p.evaluate_u64(1).unwrap(), 1);
    assert!(parse_field_poly("x^2 + y", &fk).is_err());
}

#[test]
fn big_poly_arithmetic_gf4() {
    let f = gf4();
    // (x + 2)(x + 3) over GF(4) = x^2 + (2 + 3)x + 2*3 = x^2 + x + 1
    let a = BigPoly::from_u64(vec![1, 2], f.clone()).unwrap();
    let b = BigPoly::from_u64(vec![1, 3], f.clone()).unwrap();
    let prod = a.mul(&b).unwrap();
    let coeffs: Vec<Option<u64>> = prod.coeffs().iter().map(|c| c.to_u64()).collect();
    assert_eq!(coeffs, vec![Some(1), Some(1), Some(1)]);
    let sum = a.add(&b).unwrap();
    assert_eq!(sum.degree(), 0);
    assert_eq!(sum.coeffs()[0].to_u64(), Some(1));
    let diff = a.sub(&a).unwrap();
    assert!(diff.is_zero());
    // x^2 + x + 1 has roots 2 and 3 in GF(4)
    assert_eq!(prod.evaluate(&BigValue::from_u64(2)).unwrap().to_u64(), Some(0));
    assert_eq!(prod.evaluate(&BigValue::from_u64(1)).unwrap().to_u64(), Some(1));
    assert!(prod.evaluate(&BigValue::from_u64(4)).is_err());
    assert!(BigPoly::from_u64(vec![1, 4], f.clone()).is_err());
    let asc = BigPoly::from_u64_asc(vec![3, 0, 1, 0], f.clone()).unwrap();
    assert_eq!(asc.degree(), 2);
    assert_eq!(asc.neg().coeffs()[2].to_u64(), Some(3));
    let fp_a = FieldPoly::from_u64(&FieldKind::Big(f.clone()), vec![1, 2]).unwrap();
    let fp_b = FieldPoly::from_u64(&FieldKind::Big(f), vec![1, 3]).unwrap();
    assert_eq!(fp_a.mul(&fp_b).unwrap().evaluate_u64(3).unwrap(), 0);
}

#[test]
fn berlekamp_massey_array_both_kinds() {
    let seq = vec![1u64, 2, 3, 1, 2, 3];
    let big = GaloisArray::from_u64(&FieldKind::Big(gf4()), seq.clone()).unwrap();
    let small_field = galois::GaloisField::new(2, 2).unwrap();
    let small = GaloisArray::from_u64(&FieldKind::Small(small_field), seq).unwrap();
    let pb = berlekamp_massey_array(&big).unwrap();
    let ps = berlekamp_massey_array(&small).unwrap();
    let big_coeffs: Vec<Option<u64>> = pb.as_big().unwrap().coeffs().iter().map(|c| c.to_u64()).collect();
    assert_eq!(big_coeffs, vec![Some(2), Some(1)]);
    let small_coeffs: Vec<u64> = ps.as_small().unwrap().coeffs().to_vec();
    assert_eq!(small_coeffs, vec![2, 1]);
}

#[test]
fn big_array_broadcast_arithmetic() {
    let f = gf4();
    let a = BigFieldArray::from_u64(f.clone(), vec![1, 2, 3]).unwrap();
    let b = BigFieldArray::from_u64(f.clone(), vec![2]).unwrap();
    let prod = a.mul(&b).unwrap();
    let vals: Vec<Option<u64>> = prod.values().iter().map(|v| v.to_u64()).collect();
    assert_eq!(vals, vec![Some(2), Some(3), Some(1)]);
    let sum = a.add(&a).unwrap();
    assert!(sum.values().iter().all(|v| v.is_zero()));
    let q = prod.div(&b).unwrap();
    let qv: Vec<Option<u64>> = q.values().iter().map(|v| v.to_u64()).collect();
    assert_eq!(qv, vec![Some(1), Some(2), Some(3)]);
    let m = a.reshape(&[3, 1]).unwrap();
    assert_eq!(m.shape(), vec![3, 1]);
    assert!(a.reshape(&[2, 2]).is_err());
    let outer = m.sub(&a).unwrap();
    assert_eq!(outer.shape(), vec![3, 3]);
    assert_eq!(outer.values()[1].to_u64(), Some(3));
    assert!(BigFieldArray::from_u64(f, vec![4]).is_err());
}

#[test]
fn lagrange_poly_array_gf7() {
    let fk = FieldKind::Small(galois::GaloisField::new(7, 1).unwrap());
    let x = GaloisArray::from_u64(&fk, vec![1, 2, 4]).unwrap();
    let y = GaloisArray::from_u64(&fk, vec![1, 0, 1]).unwrap();
    let p = lagrange_poly_array(&x, &y).unwrap();
    assert_eq!(p.degree(), 2);
    assert_eq!(p.evaluate_u64(1).unwrap(), 1);
    assert_eq!(p.evaluate_u64(2).unwrap(), 0);
    assert_eq!(p.evaluate_u64(4).unwrap(), 1);
}

#[test]
fn lagrange_poly_array_big_gf4() {
    let fk = FieldKind::Big(gf4());
    let x = GaloisArray::from_u64(&fk, vec![0, 1, 2]).unwrap();
    let y = GaloisArray::from_u64(&fk, vec![3, 2, 1]).unwrap();
    let p = lagrange_poly_array(&x, &y).unwrap();
    assert!(!p.is_small());
    assert_eq!(p.evaluate_u64(0).unwrap(), 3);
    assert_eq!(p.evaluate_u64(1).unwrap(), 2);
    assert_eq!(p.evaluate_u64(2).unwrap(), 1);
    let short = GaloisArray::from_u64(&fk, vec![1]).unwrap();
    assert!(matches!(lagrange_poly_array(&x, &short), Err(GaloisError::LengthMismatch)));
    let small_fk = FieldKind::Small(galois::GaloisField::new(7, 1).unwrap());
    let other = GaloisArray::from_u64(&small_fk, vec![1, 2, 3]).unwrap();
    assert!(matches!(lagrange_poly_array(&x, &other), Err(GaloisError::FieldMismatch)));
}

#[test]
fn galois_element_from_field_kind() {
    let fk = FieldKind::Big(gf2_100());
    let e = GaloisElement::from_u64(&fk, 1).unwrap();
    assert!(!e.is_small());
    let s = GaloisElement::from_u64(&FieldKind::Small(galois::GaloisField::new(5, 1).unwrap()), 3).unwrap();
    assert!(s.is_small());
    assert!(matches!(e.add(&s), Err(GaloisError::FieldMismatch)));
    let two = GaloisElement::from_u64(&fk, 2).unwrap();
    assert_eq!(e.mul(&two).unwrap().as_big().unwrap().value().to_u64(), Some(2));
}

#[test]
fn poly_from_roots_both_kinds() {
    let small = FieldKind::Small(galois::GaloisField::new(7, 1).unwrap());
    let p = poly_from_roots_kind(&[1, 6], &small).unwrap();
    assert_eq!(p.as_small().unwrap().coeffs(), &[1, 0, 6]);
    assert!(poly_from_roots_kind(&[7], &small).is_err());
    let big = FieldKind::Big(gf4());
    let q = poly_from_roots_kind(&[2, 3], &big).unwrap();
    let coeffs: Vec<Option<u64>> = q.as_big().unwrap().coeffs().iter().map(|c| c.to_u64()).collect();
    assert_eq!(coeffs, vec![Some(1), Some(1), Some(1)]);
    assert!(poly_from_roots_kind(&[4], &big).is_err());
}

fn gf4_matrix(rows: usize, cols: usize, data: Vec<u64>) -> BigFieldMatrix {
    BigFieldMatrix::from_u64(gf4(), rows, cols, data).unwrap()
}

fn big_values(a: &GaloisArray) -> Vec<Option<u64>> {
    a.as_big().unwrap().values().iter().map(|v| v.to_u64()).collect()
}

#[test]
fn big_matrix_det_and_rank_gf4() {
    let a = gf4_matrix(2, 2, vec![1, 2, 2, 1]);
    assert_eq!(a.det().unwrap().to_u64(), Some(2));
    assert_eq!(a.rank(), 2);
    let s = gf4_matrix(2, 2, vec![1, 2, 2, 3]);
    assert_eq!(s.det().unwrap().to_u64(), Some(0));
    assert_eq!(s.rank(), 1);
    assert_eq!(a.trace().to_u64(), Some(0));
}

#[test]
fn big_matrix_rejects_out_of_field_entry() {
    assert!(BigFieldMatrix::from_u64(gf4(), 1, 2, vec![1, 4]).is_err());
    assert!(BigFieldMatrix::from_u64(gf4(), 2, 2, vec![1, 2, 3]).is_err());
}

#[test]
fn big_matrix_solve_gf4() {
    let a = gf4_matrix(2, 2, vec![1, 2, 2, 1]);
    let b = GaloisArray::from_big(&gf4(), vec![big(1), big(0)]).unwrap();
    let x = a.solve(&b).unwrap();
    assert_eq!(big_values(&x), vec![Some(3), Some(1)]);
    let s = gf4_matrix(2, 2, vec![1, 2, 2, 3]);
    assert!(matches!(s.solve(&b), Err(GaloisError::SingularMatrix)));
}

#[test]
fn big_matrix_null_space_gf4() {
    let s = gf4_matrix(2, 2, vec![1, 2, 2, 3]);
    let basis = s.null_space().unwrap();
    assert_eq!(basis.len(), 1);
    assert_eq!(big_values(&basis[0]), vec![Some(2), Some(1)]);
    let a = gf4_matrix(2, 2, vec![1, 2, 2, 1]);
    assert!(a.null_space().unwrap().is_empty());
}

#[test]
fn big_matrix_mul_and_identity_gf4() {
    let a = gf4_matrix(2, 2, vec![1, 2, 2, 1]);
    let inv = gf4_matrix(2, 2, vec![3, 1, 1, 3]);
    let prod = a.mul(&inv).unwrap();
    let id = BigFieldMatrix::identity(gf4(), 2);
    for i in 0..2 {
        for j in 0..2 {
            assert_eq!(prod.get(i, j).to_u64(), id.get(i, j).to_u64());
        }
    }
    let sum = a.add(&a).unwrap();
    assert_eq!(sum.get(0, 1).to_u64(), Some(0));
}

#[test]
fn big_matrix_lu_gf4() {
    let a = gf4_matrix(2, 2, vec![0, 1, 1, 1]);
    let (l, u, perm) = a.lu_decomposition().unwrap();
    assert_eq!(perm.len(), 2);
    assert_eq!(l.get(0, 0).to_u64(), Some(1));
    assert_eq!(u.get(1, 0).to_u64(), Some(0));
    let (_, _, _, rank) = gf4_matrix(2, 2, vec![1, 2, 2, 3]).rank_revealing_lu_decomposition().unwrap();
    assert_eq!(rank, 1);
}

#[test]
fn big_matrix_inverse_transpose_mul_array_gf4() {
    let a = gf4_matrix(2, 2, vec![1, 2, 2, 1]);
    let inv = a.inverse().unwrap();
    let got: Vec<Option<u64>> = (0..2).flat_map(|i| (0..2).map(move |j| (i, j))).map(|(i, j)| inv.get(i, j).to_u64()).collect();
    assert_eq!(got, vec![Some(3), Some(1), Some(1), Some(3)]);
    let s = gf4_matrix(2, 2, vec![1, 2, 2, 3]);
    assert!(matches!(s.inverse(), Err(GaloisError::SingularMatrix)));

    let r = gf4_matrix(2, 3, vec![1, 2, 3, 0, 1, 2]);
    let t = r.transpose().unwrap();
    assert_eq!(t.shape(), (3, 2));
    assert_eq!(t.get(2, 0).to_u64(), Some(3));
    assert_eq!(t.get(1, 1).to_u64(), Some(1));

    let v = GaloisArray::from_big(&gf4(), vec![big(3), big(1)]).unwrap();
    let y = a.mul_array(&v).unwrap();
    assert_eq!(big_values(&y), vec![Some(1), Some(0)]);
}

fn u64_values(values: Vec<BigValue>) -> Vec<Option<u64>> {
    values.iter().map(|v| v.to_u64()).collect()
}

#[test]
fn big_array_arithmetic_gf2_100() {
    let field = gf2_100();
    let a = BigFieldArray::from_u64(field.clone(), vec![1, 0, 1]).unwrap();
    let b = BigFieldArray::from_u64(field.clone(), vec![1, 1, 0]).unwrap();
    let sum = a.add(&b).unwrap();
    assert_eq!(u64_values(sum.values()), vec![Some(0), Some(1), Some(1)]);
    let prod = a.mul(&b).unwrap();
    assert_eq!(prod.values()[0].to_u64(), Some(1));
}

#[test]
fn big_array_broadcast_scalar() {
    let field = gf2_100();
    let a = BigFieldArray::from_u64(field.clone(), vec![1, 0, 1, 0]).unwrap();
    let s = BigFieldArray::from_u64(field.clone(), vec![1]).unwrap();
    let sum = a.add(&s).unwrap();
    assert_eq!(sum.shape(), vec![4]);
    assert_eq!(sum.values()[0].to_u64(), Some(0));
}

#[test]
fn field_kind_array_small() {
    let fk = FieldKind::Small(galois::GaloisField::new(3, 5).unwrap());
    let arr = fk.array(vec![1, 2, 3]).unwrap();
    assert!(arr.is_small());
    assert_eq!(arr.len(), 3);
}

#[test]
fn field_kind_array_big() {
    let fk = FieldKind::Big(gf2_100());
    let arr = fk.array(vec![1u64, 0, 1]).unwrap();
    assert!(!arr.is_small());
    let big = arr.as_big().unwrap();
    assert_eq!(big.len(), 3);
}

#[test]
fn big_poly_over_gf2_100() {
    let field = gf2_100();
    let a = BigPoly::from_u64(vec![1, 0, 1], field.clone()).unwrap();
    let b = BigPoly::from_u64(vec![1, 1], field).unwrap();
    let prod = a.mul(&b).unwrap();
    assert!(!prod.is_zero());
    assert!(prod.degree() >= 2);
}

fn coeff_values(p: &BigPoly) -> Vec<Option<u64>> {
    p.coeffs().iter().map(|c| c.to_u64()).collect()
}

#[test]
fn big_poly_divmod_gf7() {
    let f7 = BigGaloisField::new_uncached(7, 1, Err(GaloisError::DatabaseError("unused".to_string()))).unwrap();
    // x^3 + 2x + 3 = (x + 1)(x^2 - x + 3) + 0
    let a = BigPoly::from_u64(vec![1, 0, 2, 3], f7.clone()).unwrap();
    let d = BigPoly::from_u64(vec![1, 1], f7.clone()).unwrap();
    let (q, r) = a.divmod(&d).unwrap();
    assert_eq!(coeff_values(&q), vec![Some(1), Some(6), Some(3)]);
    assert_eq!(coeff_values(&r), vec![Some(0)]);
    // x^2 + 1 = x * x + 1
    let b = BigPoly::from_u64(vec![1, 0, 1], f7.clone()).unwrap();
    let x = BigPoly::x(f7.clone());
    assert_eq!(coeff_values(&b.div(&x).unwrap()), vec![Some(1), Some(0)]);
    assert_eq!(coeff_values(&b.rem(&x).unwrap()), vec![Some(1)]);
    let zero = BigPoly::zero(f7.clone());
    assert!(matches!(b.divmod(&zero), Err(GaloisError::PolynomialDivisionByZero)));
    // 3x + 6 made monic is x + 2
    let c = BigPoly::from_u64(vec![3, 6], f7.clone()).unwrap();
    assert_eq!(coeff_values(&c.make_monic().unwrap()), vec![Some(1), Some(2)]);
    // d/dx (x^3 + 2x + 3) = 3x^2 + 2; second derivative 6x
    assert_eq!(coeff_values(&a.derivative(1).unwrap()), vec![Some(3), Some(0), Some(2)]);
    assert_eq!(coeff_values(&a.derivative(2).unwrap()), vec![Some(6), Some(0)]);
    assert_eq!(coeff_values(&a.derivative(4).unwrap()), vec![Some(0)]);
}

#[test]
fn big_poly_divmod_gf4() {
    // (x^2 + 2) / (x + 3) over GF(4): x^2 + 2 = (x + 3)^2, so quotient x + 3, remainder 0
    let f = gf4();
    let a = BigPoly::from_u64(vec![1, 0, 2], f.clone()).unwrap();
    let d = BigPoly::from_u64(vec![1, 3], f.clone()).unwrap();
    let (q, r) = a.divmod(&d).unwrap();
    assert_eq!(coeff_values(&q), vec![Some(1), Some(3)]);
    assert_eq!(coeff_values(&r), vec![Some(0)]);
    let other = BigPoly::from_u64(vec![1, 1], gf2_100()).unwrap();
    assert!(matches!(a.divmod(&other), Err(GaloisError::PolynomialFieldMismatch)));
}

#[test]
fn field_poly_kind_division() {
    let fk = FieldKind::Big(gf4());
    let a = FieldPoly::from_u64(&fk, vec![1, 0, 2]).unwrap();
    let d = FieldPoly::from_u64(&fk, vec![1, 3]).unwrap();
    let q = a.div(&d).unwrap();
    assert_eq!(q.degree(), 1);
    assert!(a.rem(&d).unwrap().is_zero());
    let x = FieldPoly::x(&fk).unwrap();
    assert_eq!(x.degree(), 1);
    assert!(FieldPoly::zero(&fk).unwrap().is_zero());
    assert_eq!(FieldPoly::one(&fk).unwrap().degree(), 0);
    // over GF(4) (characteristic 2) the derivative of x^2 + 2 is zero
    assert!(a.derivative(1).unwrap().is_zero());
    let small = FieldKind::Small(galois::GaloisField::new(7, 1).unwrap());
    let s = FieldPoly::from_u64(&small, vec![1, 0, 2, 3]).unwrap();
    let sd = FieldPoly::from_u64(&small, vec![1, 1]).unwrap();
    let (sq, sr) = s.divmod(&sd).unwrap();
    assert_eq!(sq.as_small().unwrap().coeffs(), &[1, 6, 3]);
    assert!(sr.is_zero());
    assert!(matches!(s.divmod(&d), Err(GaloisError::PolynomialFieldMismatch)));
}

#[test]
fn big_field_primitive_element() {
    let f = gf2_100();
    let alpha = f.primitive_element().unwrap();
    assert!(!alpha.is_zero());
    // q - 1 = 2^100 - 1
    let q_minus_1 = BigValue::from_limbs(vec![u32::MAX, u32::MAX, u32::MAX, 0xF]);
    assert!(f.pow_big(&alpha, &q_minus_1).same_value(&BigValue::from_u64(1)));
}

#[test]
fn big_field_discrete_log_gf2_2() {
    let f = gf4();
    let alpha = f.primitive_element().unwrap();
    let log0 = f.discrete_log(&alpha).unwrap();
    assert!(f.exp_from_log(log0).unwrap().same_value(&alpha));
}

#[test]
fn field_kind_names_and_logs() {
    let big = FieldKind::Big(gf2_100());
    assert_eq!(big.name(), "GF(2^100)");
    let small = FieldKind::Small(galois::GaloisField::new(7, 1).unwrap());
    assert_eq!(small.name(), "GF(7)");
    let g = small.primitive_element().unwrap();
    assert_eq!(g.to_u64(), Some(3));
    assert_eq!(small.discrete_log(&BigValue::from_u64(3)).unwrap(), 1);
    assert_eq!(small.exp_from_log(2).unwrap().to_u64(), Some(2));
    assert!(small.discrete_log(&BigValue::from_u64(7)).is_err());
    assert!(big.discrete_log(&BigValue::from_u64(2)).is_err());
    assert_eq!(gf4().name(), "GF(2^2)");
    assert!(gf4().element_u64(3).is_ok());
    assert!(gf4().element_u64(4).is_err());
}

#[test]
fn big_poly_gcd_gf7() {
    let f7 = BigGaloisField::new_uncached(7, 1, Err(GaloisError::DatabaseError("unused".to_string()))).unwrap();
    // (x + 1)(x + 2) and (x + 1)(x + 3) share x + 1
    let a = BigPoly::from_u64(vec![1, 3, 2], f7.clone()).unwrap();
    let b = BigPoly::from_u64(vec![1, 4, 3], f7.clone()).unwrap();
    let g = galois::big_poly_gcd(&a, &b).unwrap();
    assert_eq!(coeff_values(&g), vec![Some(1), Some(1)]);
    // gcd with zero is the monic form: 3x + 6 -> x + 2
    let c = BigPoly::from_u64(vec![3, 6], f7.clone()).unwrap();
    let zero = BigPoly::zero(f7.clone());
    assert_eq!(coeff_values(&galois::big_poly_gcd(&c, &zero).unwrap()), vec![Some(1), Some(2)]);
    let other = BigPoly::from_u64(vec![1, 1], gf4()).unwrap();
    assert!(matches!(galois::big_poly_gcd(&a, &other), Err(GaloisError::PolynomialFieldMismatch)));
}

#[test]
fn big_field_format_element() {
    let f = gf2_100();
    assert_eq!(f.format_element(&BigValue::from_u64(5), ElementRepr::Int), "5");
    assert_eq!(f.format_element(&BigValue::from_u64(5), ElementRepr::Poly), "1 + \u{3b1}^2");
    assert_eq!(f.format_element(&BigValue::from_u64(5), ElementRepr::Power), "\u{3b1}^(5)");
    assert_eq!(f.format_element(&BigValue::from_u64(0), ElementRepr::Poly), "0");
    assert_eq!(f.format_element(&BigValue::from_u64(0), ElementRepr::Power), "0");
    let two_64 = BigValue::from_limbs(vec![0, 0, 1]);
    assert_eq!(f.format_element(&two_64, ElementRepr::Int), "18446744073709551616");
}

#[test]
fn big_poly_format() {
    let f7 = BigGaloisField::new_uncached(7, 1, Err(GaloisError::DatabaseError("unused".to_string()))).unwrap();
    let a = BigPoly::from_u64(vec![3, 0, 1, 5], f7.clone()).unwrap();
    assert_eq!(a.format_poly("x"), "3x^3 + x + 5");
    assert_eq!(BigPoly::zero(f7.clone()).format_poly("x"), "0");
    assert_eq!(BigPoly::one(f7.clone()).format_poly("x"), "1");
    let fp = FieldPoly::from_u64(&FieldKind::Big(f7), vec![1, 0, 0]).unwrap();
    assert_eq!(fp.format_poly("y"), "y^2");
}

#[test]
fn field_flfsr_gf2() {
    let fk = FieldKind::Small(galois::GaloisField::new(2, 1).unwrap());
    let mut lfsr = galois::FieldFlfsr::new(fk, vec![1, 0, 1], vec![0, 2]).unwrap();
    let out = lfsr.generate(6).unwrap();
    assert_eq!(out.len(), 6);
}

#[test]
fn field_glfsr_big_gf2_2() {
    let fk = FieldKind::Big(gf4());
    let mut lfsr = galois::FieldGlfsr::new(fk, vec![1, 1], vec![1, 1]).unwrap();
    let out = lfsr.generate(4).unwrap();
    assert_eq!(out.len(), 4);
}

#[test]
fn field_flfsr_sequence_gf2() {
    let fk = FieldKind::Small(galois::GaloisField::new(2, 1).unwrap());
    let mut lfsr = galois::FieldFlfsr::new(fk, vec![1, 0, 1], vec![0, 2]).unwrap();
    let out = lfsr.generate(6).unwrap();
    assert_eq!(out.as_small().unwrap().values(), &[1, 0, 0, 1, 1, 1]);
    let state = lfsr.state().unwrap();
    assert_eq!(state.as_small().unwrap().values(), &[1, 1, 0]);
    assert!(galois::FieldFlfsr::new(FieldKind::Small(galois::GaloisField::new(2, 1).unwrap()), vec![2], vec![0]).is_err());
}

#[test]
fn field_glfsr_sequence_gf4() {
    let mut lfsr = galois::FieldGlfsr::new(FieldKind::Big(gf4()), vec![1, 1], vec![1, 1]).unwrap();
    let out = lfsr.generate(4).unwrap();
    assert_eq!(u64_values(out.as_big().unwrap().values()), vec![Some(1), Some(1), Some(0), Some(1)]);
    let poly = FieldPoly::from_u64(&FieldKind::Big(gf4()), vec![1, 1]).unwrap();
    let mut from_poly = galois::FieldGlfsr::from_field_poly(FieldKind::Big(gf4()), vec![1, 1], &poly).unwrap();
    let again = from_poly.generate(4).unwrap();
    assert_eq!(u64_values(again.as_big().unwrap().values()), vec![Some(1), Some(1), Some(0), Some(1)]);
}

#[test]
fn big_poly_mod_pow_gf7() {
    let f7 = BigGaloisField::new_uncached(7, 1, Err(GaloisError::DatabaseError("unused".to_string()))).unwrap();
    let x = BigPoly::x(f7.clone());
    let m = BigPoly::from_u64(vec![1, 0, 1], f7.clone()).unwrap();
    // x^2 = -1 modulo x^2 + 1, so x^3 = 6x and x^4 = 1
    assert_eq!(coeff_values(&x.mod_pow(3, &m).unwrap()), vec![Some(6), Some(0)]);
    assert_eq!(coeff_values(&x.mod_pow(4, &m).unwrap()), vec![Some(1)]);
    assert_eq!(coeff_values(&x.mod_pow(0, &m).unwrap()), vec![Some(1)]);
    let zero = BigPoly::zero(f7.clone());
    assert!(matches!(x.mod_pow(2, &zero), Err(GaloisError::PolynomialDivisionByZero)));
}
