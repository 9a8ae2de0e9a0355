use galois::{
    distinct_degree_factorization, equal_degree_factorization, factors, is_primitive, lagrange_poly,
    parse_poly, roots,
    GaloisField, Poly, PrimePoly,
};

#[test]
fn roots_of_x2_minus_1_gf7() {
    let gf = GaloisField::new(7, 1).unwrap();
    let p = Poly::new(vec![1, 0, 6], gf).unwrap();
    let r = roots(&p).unwrap();
    assert!(r.contains(&1));
    assert!(r.contains(&6));
}

#[test]
fn ddf_x4_minus_1_gf5() {
    let gf = GaloisField::new(5, 1).unwrap();
    let p = Poly::new(vec![1, 0, 0, 0, 4], gf).unwrap();
    let ddf = distinct_degree_factorization(&p).unwrap();
    let degrees: Vec<usize> = ddf.iter().map(|(d, _)| *d).collect();
    assert!(degrees.contains(&1));
}

#[test]
fn factors_x4_minus_1_gf5() {
    let gf = GaloisField::new(5, 1).unwrap();
    let p = Poly::new(vec![1, 0, 0, 0, 4], gf).unwrap();
    let facs = factors(&p).unwrap();
    assert_eq!(facs.len(), 4);
    assert!(facs.iter().all(|f| f.degree() == 1));
}

#[test]
fn edf_quadratic_gf5() {
    let gf = GaloisField::new(5, 1).unwrap();
    let p = Poly::new(vec![1, 0, 1], gf).unwrap();
    let facs = equal_degree_factorization(&p, 1).unwrap();
    assert_eq!(facs.len(), 2);
}

#[test]
fn poly_over_gf7() {
    let gf = GaloisField::new(7, 1).unwrap();
    let a = Poly::new(vec![1, 0, 1, 1], gf.clone()).unwrap();
    assert_eq!(a.format_poly("x"), "x^3 + x + 1");
    let b = Poly::new(vec![1, 2], gf).unwrap();
    let prod = a.mul(&b).unwrap();
    assert!(!prod.is_zero());
}

#[test]
fn poly_gf3_5() {
    let gf = GaloisField::new(3, 5).unwrap();
    let p = Poly::new(vec![124, 0, 223, 0, 0, 15], gf).unwrap();
    assert_eq!(p.degree(), 5);
}

#[test]
fn multiplication_mod_3() {
    let a = PrimePoly::new(3, vec![1, 2]).unwrap();
    let b = PrimePoly::new(3, vec![2, 1]).unwrap();
    let c = a.mul(&b).unwrap();
    assert_eq!(c.coeffs(), &[2, 2, 2]);
}

#[test]
fn parse_x3_plus_x_plus_1() {
    let gf = GaloisField::new(2, 1).unwrap();
    let p = parse_poly("x^3 + x + 1", gf).unwrap();
    assert_eq!(p.format_poly("x"), "x^3 + x + 1");
}

#[test]
fn lagrange_poly_gf7_interpolates() {
    let gf = GaloisField::new(7, 1).unwrap();
    let x = gf.array(vec![1, 2, 4]).unwrap();
    let y = gf.array(vec![1, 0, 1]).unwrap();
    let p = lagrange_poly(&x, &y).unwrap();
    assert_eq!(p.degree(), 2);
    assert_eq!(p.evaluate(1).unwrap(), 1);
    assert_eq!(p.evaluate(2).unwrap(), 0);
    assert_eq!(p.evaluate(4).unwrap(), 1);
}

#[test]
fn lagrange_poly_rejects_bad_points() {
    let gf = GaloisField::new(7, 1).unwrap();
    let x = gf.array(vec![1, 1]).unwrap();
    let y = gf.array(vec![2, 3]).unwrap();
    assert!(lagrange_poly(&x, &y).is_err());
    let short = gf.array(vec![2]).unwrap();
    assert!(lagrange_poly(&x, &short).is_err());
}

#[test]
fn is_primitive_over_small_fields() {
    let gf2 = GaloisField::new(2, 1).unwrap();
    let p = Poly::new(vec![1, 0, 1, 1], gf2.clone()).unwrap();
    assert!(is_primitive(&p));
    let not_primitive = Poly::new(vec![1, 1, 1, 1, 1], gf2.clone()).unwrap();
    assert!(!is_primitive(&not_primitive));
    let reducible = Poly::new(vec![1, 0, 1], gf2.clone()).unwrap();
    assert!(!is_primitive(&reducible));
    let constant = Poly::new(vec![1], gf2).unwrap();
    assert!(!is_primitive(&constant));
    let gf3 = GaloisField::new(3, 1).unwrap();
    assert!(is_primitive(&Poly::new(vec![1, 2, 2], gf3.clone()).unwrap()));
    assert!(!is_primitive(&Poly::new(vec![1, 0, 1], gf3).unwrap()));
}
