use galois::field::broadcast::{coords_to_linear, linear_to_coords};
use galois::modular::fermat_primality_test;
use galois::{binomial, crt, kronecker_symbol, GaloisError, GaloisField, Poly};

#[test]
fn kronecker_symbol_documented_values() {
    assert_eq!(kronecker_symbol(-1, 3), -1);
    assert_eq!(kronecker_symbol(1, 2), 1);
    assert_eq!(kronecker_symbol(2, 7), 1);
    assert_eq!(kronecker_symbol(3, 7), -1);
    assert_eq!(kronecker_symbol(3, 8), -1);
    assert_eq!(kronecker_symbol(2, 4), 0);
    assert_eq!(kronecker_symbol(-1, -3), 1);
    assert_eq!(kronecker_symbol(5, 0), 0);
    assert_eq!(kronecker_symbol(-1, 0), 1);
}

#[test]
fn fermat_test_passes_primes() {
    assert!(fermat_primality_test(7, 2));
    assert!(!fermat_primality_test(15, 2));
    assert!(!fermat_primality_test(1, 2));
    assert!(!fermat_primality_test(7, 14));
}

#[test]
fn binomial_by_lucas() {
    assert_eq!(binomial(5, 2, 7), 3);
    assert_eq!(binomial(5, 3, 3), 1);
    assert_eq!(binomial(3, 5, 7), 0);
    assert_eq!(binomial(10, 3, 1_000_003), 120);
    assert_eq!(binomial(7, 3, 5), 0);
}

#[test]
fn crt_solves_congruences() {
    let x = crt(&[2, 3, 2], &[3, 5, 7]).unwrap();
    assert_eq!(x, 23);
    assert!(matches!(crt(&[1], &[]), Err(GaloisError::LengthMismatch)));
}

#[test]
fn parse_reads_back_printed_polynomial_gf3_5() {
    let gf = GaloisField::new(3, 5).unwrap();
    let p = Poly::new(vec![124, 0, 2, 1], gf.clone()).unwrap();
    let text = p.format_poly("x");
    let back = Poly::from_str(&text, gf).unwrap();
    assert_eq!(back.coeffs(), p.coeffs());
}

#[test]
fn discrete_log_rejects_non_elements() {
    let f = GaloisField::new(7, 1).unwrap();
    assert_eq!(f.discrete_log(3).unwrap(), 1);
    assert!(matches!(f.discrete_log(0), Err(GaloisError::DivisionByZero { .. })));
    assert!(matches!(f.discrete_log(7), Err(GaloisError::InvalidElement { value: 7, .. })));
}

#[test]
fn sqrt_of_squares_gf5() {
    let f = GaloisField::new(5, 1).unwrap();
    let r = f.sqrt(4).unwrap();
    assert!(r == 2 || r == 3);
    assert!(matches!(f.sqrt(2), Err(GaloisError::InvalidElement { .. })));
}

#[test]
fn coordinates_round_trip_to_position() {
    let shape = [2usize, 3, 4];
    for i in 0..24usize {
        let c = linear_to_coords(i, &shape);
        assert_eq!(coords_to_linear(&c, &shape), i);
    }
    assert_eq!(linear_to_coords(23, &shape), vec![1, 2, 3]);
}

#[test]
fn first_power_is_primitive_element() {
    for (p, m) in [(2u64, 1u32), (7, 1), (2, 8), (3, 5)] {
        let f = GaloisField::new(p, m).unwrap();
        assert_eq!(f.exp_from_log(1), f.primitive_element());
    }
}
