//! Errors reported by the library.

use vstd::prelude::*;

verus! {

/// Every way an operation of the library can fail.
#[allow(inconsistent_fields)]
#[derive(Debug, Clone, PartialEq, Eq)]
pub enum GaloisError {
    InvalidCharacteristic(u64),
    InvalidDegree(u64),
    InvalidOrder(u64),
    UnfactorizableOrder(u64),
    InvalidElement { value: u64, characteristic: u64, degree: u32 },
    DivisionByZero { characteristic: u64, degree: u32 },
    InvalidIrreducibleDegree { expected: u32, actual: usize },
    NonMonicIrreducible,
    ReduciblePolynomial { characteristic: u64 },
    FieldMismatch,
    LengthMismatch,
    PolynomialFieldMismatch,
    PolynomialDivisionByZero,
    ConwayPolyNotFound { characteristic: u64, degree: u32 },
    IrreduciblePolyNotFound { characteristic: u64, degree: u32 },
    FactorizationNotFound { n: u64 },
    DatabaseError(String),
    DatabaseLock,
    NotPrime(u64),
    NttInvalidSize { size: usize, input_len: usize },
    NttModulusNotPrime(u64),
    NttModulusInvalid(u64),
    NttModulusTooSmall { modulus: u64, max_value: u64 },
    NttPrimeFieldRequired,
    ShapeMismatch { expected: Vec<usize>, actual: Vec<usize> },
    SingularMatrix,
    InvalidPolynomialString(String),
    NoPrimitiveRoot(u64),
    NoPrimitiveElement { characteristic: u64, degree: u32 },
}

/// Result type of the library.
pub type Result<T> = std::result::Result<T, GaloisError>;

} // verus!
