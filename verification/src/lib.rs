//! Galois fields GF(p^m), their polynomials, arrays and matrices, and the number theory
//! around them.

pub mod arith;
pub mod big_eigen;
pub mod big_linalg;
pub mod codes;
pub mod conway;
pub mod eigen;
pub mod error;
pub mod factor;
pub mod field;
pub mod galois_matrix;
pub mod lfsr;
pub mod lfsr_kind;
pub mod linalg;
pub mod math;
pub mod modular;
pub mod ntt;
pub mod options;
pub mod poly;
pub mod prime;
pub mod primitive_root;
pub mod text;

pub use conway::{conway_poly, default_irreducible, irreducible_poly};
pub use error::{GaloisError, Result};
pub use factor::{divisor_sigma, divisors, is_square_free, perfect_power};
pub use field::array::FieldArray;
pub use field::bigint::{needs_bigint, FieldValue};
pub use field::big_field::{BigFieldElement, BigGaloisField, FieldKind, GaloisElement};
pub use field::big_array::BigFieldArray;
pub use field::array_kind::GaloisArray;
pub use field::bignum::BigValue;
pub use field::cache::{cached_big_field, cached_field, cached_field_from_order, clear_field_cache, FieldCache};
pub use field::element::{ElementRepr, FieldElement};
pub use field::factory::{GaloisField, GF};
pub use linalg::{lu_decomposition, FieldMatrix, FieldVector};
pub use big_linalg::BigFieldMatrix;
pub use lfsr_kind::{FieldFlfsr, FieldGlfsr};
pub use galois_matrix::{GaloisElementValue, GaloisMatrix};
pub use eigen::characteristic_polynomial;
pub use math::binomial;
pub use modular::{
    are_coprime, carmichael_lambda, crt, egcd, euler_phi, gcd, jacobi_symbol, kronecker_symbol,
    lcm, legendre_symbol, mobius, totatives,
};
pub use options::{get_printoptions, set_printoptions, CoeffOrder, PrintOptions};
pub use poly::factor::{
    distinct_degree_factorization, equal_degree_factorization, factors, roots,
    square_free_factorization,
};
pub use poly::field_poly::{mod_inverse_poly, poly_from_roots, poly_gcd, Poly};
pub use poly::integer::{factor_prime_power, IntegerPoly};
pub use poly::parse::{parse_field_poly, parse_poly};
pub use poly::big_poly::BigPoly;
pub use poly::poly_kind::{field_poly_roots, lagrange_poly_array, poly_from_roots_kind, poly_from_roots_values, FieldPoly};
pub use poly::big_factor::big_roots;
pub use poly::big_gcd::big_poly_gcd;
pub use poly::interpolate::lagrange_poly;
pub use poly::primitive::{is_primitive, primitive_poly};
pub use poly::prime::{mod_inverse, PrimePoly};
pub use prime::{
    factorize, ilog, iroot, is_composite, is_perfect_power, is_prime, is_prime_mr, isqrt,
    kth_prime, next_prime, prev_prime, primes_up_to, prod,
};
pub use poly::integer::is_prime_power;
pub use primitive_root::{
    is_primitive_element, is_primitive_root, primitive_element, primitive_root, primitive_roots,
};
