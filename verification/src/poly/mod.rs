//! Polynomials over prime fields, over GF(p^m) and over the integers.

pub mod field_poly;
pub mod integer;
pub mod prime;
pub mod factor;
pub mod parse;
pub mod primitive;
pub mod interpolate;
pub mod big_poly;
pub mod poly_kind;
pub mod big_factor;
pub mod big_divmod;
pub mod big_gcd;
pub mod big_format;
