use galois::field::normal::{is_normal_element, normal_element};
use galois::ntt::{intt, ntt};
use galois::poly::primitive::primitive_poly;
use galois::GaloisField;

#[test]
#[allow(non_snake_case)]
fn ntt_roundtrip() {
    let x = [1, 2, 3, 4];
    let X = ntt(&x, Some(4), Some(5)).unwrap();
    let round = intt(X.values(), Some(4), Some(5), true).unwrap();
    assert_eq!(round.values(), &[1, 2, 3, 4]);
}

#[test]
fn ntt_of_impulse_is_constant() {
    let y = ntt(&[1, 0, 0, 0], None, Some(5)).unwrap();
    assert_eq!(y.values(), &[1, 1, 1, 1]);
}

#[test]
fn ntt_rejects_short_size() {
    assert!(ntt(&[1, 2, 3], Some(2), Some(5)).is_err());
    assert!(ntt(&[1, 2, 3, 4], Some(4), Some(7)).is_err());
    assert!(ntt(&[1, 2, 3, 9], Some(4), Some(5)).is_err());
}

#[test]
fn primitive_poly_degree_3_over_gf2() {
    let f = primitive_poly(2, 3).unwrap();
    assert_eq!(f.coeffs(), &[1, 1, 0, 1]);
    assert!(primitive_poly(2, 0).is_err());
}

#[test]
fn primitive_poly_degree_4_over_gf2() {
    let f = primitive_poly(2, 4).unwrap();
    assert_eq!(f.coeffs(), &[1, 1, 0, 0, 1]);
}

#[test]
fn normal_elements_of_gf8() {
    let gf = GaloisField::new(2, 3).unwrap();
    assert!(!is_normal_element(1, &gf).unwrap());
    assert!(!is_normal_element(2, &gf).unwrap());
    assert!(is_normal_element(3, &gf).unwrap());
    assert_eq!(normal_element(&gf).unwrap(), 3);
    assert!(is_normal_element(8, &gf).is_err());
}
