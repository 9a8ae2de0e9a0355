//! Galois fields GF(p^m) with table-driven arithmetic.

pub mod element;
pub mod factory;
pub mod model;
pub mod broadcast;
pub mod array;
pub mod bigint;
pub mod bignum;
pub mod big_field;
pub mod big_primitive;
pub mod big_array;
pub mod array_kind;
pub mod cache;
pub mod normal;
pub mod laws;
