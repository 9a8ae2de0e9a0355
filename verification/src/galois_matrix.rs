//! Matrices over either kind of field: one with 64-bit elements or one with
//! arbitrary-precision elements.

use vstd::prelude::*;
use crate::error::{GaloisError, Result};
use crate::big_linalg::{BigFieldMatrix, big_diag_sum, big_dot_prefix, big_row_dot, big_solves, big_column, big_unit, null_vector, big_lu_factors};
use crate::field::model::{gf_add, gf_sub};
use crate::field::array::{FieldArray, all_below};
use crate::field::array_kind::GaloisArray;
use crate::field::big_field::{FieldKind, same_big_field};
use crate::field::bignum::BigValue;
use crate::field::element::same_field;
use crate::linalg::{FieldMatrix, FieldVector, diag_sum, dot_prefix, row_dot, solves, lu_factors, has_unit_pattern, zeros_seq};
use crate::poly::poly_kind::{FieldPoly, field_poly_roots};
use crate::poly::big_poly::big_equiv;
use crate::poly::field_poly::first_invalid;
use crate::poly::big_poly::bp_strip;
use crate::poly::factor::roots_spec;
use crate::poly::big_factor::{big_roots_below, big_root_limit};
use crate::eigen::{characteristic_polynomial, char_poly_coeffs};
use crate::big_eigen::big_char_poly_coeffs;

verus! {

/// A matrix over a field with 64-bit elements or over one with arbitrary-precision
/// elements.
pub enum GaloisMatrix {
    Small(FieldMatrix),
    Big(BigFieldMatrix),
}

/// A field element of either representation, as a determinant or trace returns it.
pub enum GaloisElementValue {
    Small(u64),
    Big(BigValue),
}

impl GaloisElementValue {
    /// The value as an integer.
    pub open spec fn value(&self) -> nat {
        match self {
            GaloisElementValue::Small(v) => *v as nat,
            GaloisElementValue::Big(v) => v.value(),
        }
    }
}

/// A copy of a slice of integers.
fn copy_u64(s: &[u64]) -> (r: Vec<u64>)
    ensures
        r@ == s@,
{
    let mut out: Vec<u64> = Vec::new();
    let mut i: usize = 0;
    while i < s.len()
        invariant
            i <= s@.len(),
            out@ == s@.subrange(0, i as int),
        decreases s@.len() - i,
    {
        out.push(s[i]);
        i = i + 1;
    }
    assert(out@ =~= s@);
    out
}

impl GaloisMatrix {
    pub open spec fn wf(&self) -> bool {
        match self {
            GaloisMatrix::Small(m) => m.wf(),
            GaloisMatrix::Big(m) => m.wf(),
        }
    }

    pub open spec fn nrows(&self) -> nat {
        match self {
            GaloisMatrix::Small(m) => m.nrows(),
            GaloisMatrix::Big(m) => m.nrows(),
        }
    }

    pub open spec fn ncols(&self) -> nat {
        match self {
            GaloisMatrix::Small(m) => m.ncols(),
            GaloisMatrix::Big(m) => m.ncols(),
        }
    }

    /// Entry `(i, j)` as an integer.
    pub open spec fn entry(&self, i: int, j: int) -> nat {
        match self {
            GaloisMatrix::Small(m) => m.at(i, j) as nat,
            GaloisMatrix::Big(m) => m.at(i, j),
        }
    }

    /// The kind of field is `field`, with the same parameters.
    pub open spec fn over(&self, field: FieldKind) -> bool {
        match (self, field) {
            (GaloisMatrix::Small(m), FieldKind::Small(f)) => m.field_view().equiv(&f),
            (GaloisMatrix::Big(m), FieldKind::Big(f)) => big_equiv(m.field_view(), f),
            _ => false,
        }
    }

    /// Both matrices are of one kind, over equivalent fields.
    pub open spec fn same_field_as(&self, other: &Self) -> bool {
        match (self, other) {
            (GaloisMatrix::Small(a), GaloisMatrix::Small(b)) => a.field_view().equiv(&b.field_view()),
            (GaloisMatrix::Big(a), GaloisMatrix::Big(b)) => big_equiv(a.field_view(), b.field_view()),
            _ => false,
        }
    }

    /// The `rows x cols` matrix of integer entries over either kind of field:
    /// `ShapeMismatch` when the number of values differs, an error for a value that is not
    /// an element.
    pub fn new(field: &FieldKind, rows: usize, cols: usize, data: Vec<u64>) -> (r: Result<Self>)
        requires
            field.wf(),
            rows * cols <= usize::MAX,
        ensures
            data@.len() == rows * cols && (forall|k: int| 0 <= k < data@.len() ==> (#[trigger] data@[k]) < field.q()) ==>
                (r matches Ok(a) && a.wf() && a.over(*field) && a.nrows() == rows && a.ncols() == cols
                && forall|i: int, j: int| 0 <= i < rows && 0 <= j < cols ==> #[trigger] a.entry(i, j) == data@[i * cols + j]),
            data@.len() != rows * cols || (exists|k: int| 0 <= k < data@.len() && data@[k] >= field.q()) ==> r is Err,
    {
        match field {
            FieldKind::Small(f) => {
                let fc = f.clone();
                proof { fc.lemma_equiv_wf(f); }
                match FieldMatrix::new(fc, rows, cols, data) {
                    Ok(m) => {
                        assert forall|i: int, j: int| 0 <= i < rows && 0 <= j < cols implies
                            #[trigger] GaloisMatrix::Small(m).entry(i, j) == data@[i * cols + j] by {
                        }
                        Ok(GaloisMatrix::Small(m))
                    },
                    Err(e) => Err(e),
                }
            },
            FieldKind::Big(f) => {
                match BigFieldMatrix::from_u64(f.clone(), rows, cols, data) {
                    Ok(m) => {
                        assert forall|i: int, j: int| 0 <= i < rows && 0 <= j < cols implies
                            #[trigger] GaloisMatrix::Big(m).entry(i, j) == data@[i * cols + j] by {
                            crate::linalg::lemma_index(i, j, rows as int, cols as int);
                        }
                        Ok(GaloisMatrix::Big(m))
                    },
                    Err(e) => Err(e),
                }
            },
        }
    }

    /// The `rows x cols` zero matrix.
    pub fn zeros(field: &FieldKind, rows: usize, cols: usize) -> (r: Self)
        requires
            field.wf(),
            rows * cols <= usize::MAX,
        ensures
            r.wf(),
            r.over(*field),
            r.nrows() == rows,
            r.ncols() == cols,
            forall|i: int, j: int| 0 <= i < rows && 0 <= j < cols ==> #[trigger] r.entry(i, j) == 0,
    {
        match field {
            FieldKind::Small(f) => {
                let fc = f.clone();
                proof { fc.lemma_equiv_wf(f); }
                let m = FieldMatrix::zeros(fc, rows, cols);
                assert forall|i: int, j: int| 0 <= i < rows && 0 <= j < cols implies
                    #[trigger] GaloisMatrix::Small(m).entry(i, j) == 0 by {
                    crate::linalg::lemma_index(i, j, rows as int, cols as int);
                }
                GaloisMatrix::Small(m)
            },
            FieldKind::Big(f) => GaloisMatrix::Big(BigFieldMatrix::zeros(f.clone(), rows, cols)),
        }
    }

    /// The `n x n` identity matrix.
    pub fn identity(field: &FieldKind, n: usize) -> (r: Self)
        requires
            field.wf(),
            n * n <= usize::MAX,
        ensures
            r.wf(),
            r.over(*field),
            r.nrows() == n,
            r.ncols() == n,
            forall|i: int, j: int| 0 <= i < n && 0 <= j < n ==> #[trigger] r.entry(i, j) == (if i == j { 1nat } else { 0nat }),
    {
        match field {
            FieldKind::Small(f) => {
                let fc = f.clone();
                proof { fc.lemma_equiv_wf(f); }
                GaloisMatrix::Small(FieldMatrix::identity(fc, n))
            },
            FieldKind::Big(f) => GaloisMatrix::Big(BigFieldMatrix::identity(f.clone(), n)),
        }
    }

    /// The field of the matrix.
    pub fn field(&self) -> (r: FieldKind)
        requires
            self.wf(),
        ensures
            r.wf(),
            self.over(r),
    {
        match self {
            GaloisMatrix::Small(m) => {
                let f = m.field().clone();
                proof { f.lemma_equiv_wf(&m.field_view()); }
                FieldKind::Small(f)
            },
            GaloisMatrix::Big(m) => FieldKind::Big(m.field().clone()),
        }
    }

    /// `(rows, cols)`.
    pub fn shape(&self) -> (r: (usize, usize))
        ensures
            r.0 == self.nrows(),
            r.1 == self.ncols(),
    {
        match self {
            GaloisMatrix::Small(m) => m.shape(),
            GaloisMatrix::Big(m) => m.shape(),
        }
    }
}

impl GaloisMatrix {
    /// Entrywise sum of two matrices of one kind: `FieldMismatch` for different kinds,
    /// `ShapeMismatch` (this shape, other shape) for different shapes.
    pub fn add(&self, other: &Self) -> (r: Result<Self>)
        requires
            self.wf(),
            other.wf(),
        ensures
            match (self, other) {
                (GaloisMatrix::Small(a), GaloisMatrix::Small(b)) => if a.nrows() == b.nrows() && a.ncols() == b.ncols() {
                    r matches Ok(GaloisMatrix::Small(c)) && c.wf() && c.field_view().equiv(&a.field_view())
                        && c.nrows() == a.nrows() && c.ncols() == a.ncols()
                        && forall|k: int| 0 <= k < c.values_view().len() ==> c.values_view()[k]
                            == a.field_view().add_spec(#[trigger] a.values_view()[k] as nat, b.values_view()[k] as nat)
                } else {
                    r matches Err(GaloisError::ShapeMismatch { expected, actual })
                        && expected@ == seq![a.nrows() as usize, a.ncols() as usize]
                        && actual@ == seq![b.nrows() as usize, b.ncols() as usize]
                },
                (GaloisMatrix::Big(a), GaloisMatrix::Big(b)) => if a.nrows() == b.nrows() && a.ncols() == b.ncols() {
                    r matches Ok(GaloisMatrix::Big(c)) && c.wf() && big_equiv(c.field_view(), a.field_view())
                        && c.nrows() == a.nrows() && c.ncols() == a.ncols()
                        && forall|k: int| 0 <= k < c.values_view().len() ==> #[trigger] c.values_view()[k]
                            == gf_add(a.values_view()[k], b.values_view()[k], a.field_view().p(), a.field_view().m())
                } else {
                    r matches Err(GaloisError::ShapeMismatch { expected, actual })
                        && expected@ == seq![a.nrows() as usize, a.ncols() as usize]
                        && actual@ == seq![b.nrows() as usize, b.ncols() as usize]
                },
                _ => r == Err::<Self, GaloisError>(GaloisError::FieldMismatch),
            },
    {
        match (self, other) {
            (GaloisMatrix::Small(a), GaloisMatrix::Small(b)) => match a.add(b) {
                Ok(c) => Ok(GaloisMatrix::Small(c)),
                Err(e) => Err(e),
            },
            (GaloisMatrix::Big(a), GaloisMatrix::Big(b)) => match a.add(b) {
                Ok(c) => Ok(GaloisMatrix::Big(c)),
                Err(e) => Err(e),
            },
            _ => Err(GaloisError::FieldMismatch),
        }
    }

    /// Entrywise difference of two matrices of one kind: `FieldMismatch` for different
    /// kinds, `ShapeMismatch` (this shape, other shape) for different shapes.
    pub fn sub(&self, other: &Self) -> (r: Result<Self>)
        requires
            self.wf(),
            other.wf(),
        ensures
            match (self, other) {
                (GaloisMatrix::Small(a), GaloisMatrix::Small(b)) => if a.nrows() == b.nrows() && a.ncols() == b.ncols() {
                    r matches Ok(GaloisMatrix::Small(c)) && c.wf() && c.field_view().equiv(&a.field_view())
                        && c.nrows() == a.nrows() && c.ncols() == a.ncols()
                        && forall|k: int| 0 <= k < c.values_view().len() ==> c.values_view()[k]
                            == a.field_view().sub_spec(#[trigger] a.values_view()[k] as nat, b.values_view()[k] as nat)
                } else {
                    r matches Err(GaloisError::ShapeMismatch { expected, actual })
                        && expected@ == seq![a.nrows() as usize, a.ncols() as usize]
                        && actual@ == seq![b.nrows() as usize, b.ncols() as usize]
                },
                (GaloisMatrix::Big(a), GaloisMatrix::Big(b)) => if a.nrows() == b.nrows() && a.ncols() == b.ncols() {
                    r matches Ok(GaloisMatrix::Big(c)) && c.wf() && big_equiv(c.field_view(), a.field_view())
                        && c.nrows() == a.nrows() && c.ncols() == a.ncols()
                        && forall|k: int| 0 <= k < c.values_view().len() ==> #[trigger] c.values_view()[k]
                            == gf_sub(a.values_view()[k], b.values_view()[k], a.field_view().p(), a.field_view().m())
                } else {
                    r matches Err(GaloisError::ShapeMismatch { expected, actual })
                        && expected@ == seq![a.nrows() as usize, a.ncols() as usize]
                        && actual@ == seq![b.nrows() as usize, b.ncols() as usize]
                },
                _ => r == Err::<Self, GaloisError>(GaloisError::FieldMismatch),
            },
    {
        match (self, other) {
            (GaloisMatrix::Small(a), GaloisMatrix::Small(b)) => match a.sub(b) {
                Ok(c) => Ok(GaloisMatrix::Small(c)),
                Err(e) => Err(e),
            },
            (GaloisMatrix::Big(a), GaloisMatrix::Big(b)) => match a.sub(b) {
                Ok(c) => Ok(GaloisMatrix::Big(c)),
                Err(e) => Err(e),
            },
            _ => Err(GaloisError::FieldMismatch),
        }
    }

    /// Matrix product of two matrices of one kind: `FieldMismatch` for different kinds or,
    /// for the small kind, different fields; `ShapeMismatch` (rows of this, columns of
    /// other; columns of this, rows of other) when the inner dimensions differ.
    pub fn mul(&self, other: &Self) -> (r: Result<Self>)
        requires
            self.wf(),
            other.wf(),
            self.nrows() * other.ncols() <= usize::MAX,
        ensures
            match (self, other) {
                (GaloisMatrix::Small(a), GaloisMatrix::Small(b)) => if !same_field(a.field_view(), b.field_view()) {
                    r == Err::<Self, GaloisError>(GaloisError::FieldMismatch)
                } else if a.ncols() == b.nrows() {
                    r matches Ok(GaloisMatrix::Small(c)) && c.wf() && c.field_view().equiv(&a.field_view())
                        && c.nrows() == a.nrows() && c.ncols() == b.ncols()
                        && forall|i: int, j: int| 0 <= i < c.nrows() && 0 <= j < c.ncols() ==> #[trigger] c.at(i, j)
                            == dot_prefix(a.field_view(), a.values_view(), a.ncols(), b.values_view(), b.ncols(), i, j, a.ncols())
                } else {
                    r matches Err(GaloisError::ShapeMismatch { expected, actual })
                        && expected@ == seq![a.nrows() as usize, b.ncols() as usize]
                        && actual@ == seq![a.ncols() as usize, b.nrows() as usize]
                },
                (GaloisMatrix::Big(a), GaloisMatrix::Big(b)) => if a.ncols() == b.nrows() {
                    r matches Ok(GaloisMatrix::Big(c)) && c.wf() && big_equiv(c.field_view(), a.field_view())
                        && c.nrows() == a.nrows() && c.ncols() == b.ncols()
                        && forall|i: int, j: int| 0 <= i < c.nrows() && 0 <= j < c.ncols() ==> #[trigger] c.at(i, j)
                            == big_dot_prefix(a.field_view(), a.values_view(), a.ncols(), b.values_view(), b.ncols(), i, j, a.ncols())
                } else {
                    r matches Err(GaloisError::ShapeMismatch { expected, actual })
                        && expected@ == seq![a.nrows() as usize, b.ncols() as usize]
                        && actual@ == seq![a.ncols() as usize, b.nrows() as usize]
                },
                _ => r == Err::<Self, GaloisError>(GaloisError::FieldMismatch),
            },
    {
        match (self, other) {
            (GaloisMatrix::Small(a), GaloisMatrix::Small(b)) => {
                let (fa, fb) = (a.field(), b.field());
                if fa.order() != fb.order() || fa.characteristic() != fb.characteristic() || fa.degree() != fb.degree() {
                    return Err(GaloisError::FieldMismatch);
                }
                match a.mul(b) {
                    Ok(c) => Ok(GaloisMatrix::Small(c)),
                    Err(e) => Err(e),
                }
            },
            (GaloisMatrix::Big(a), GaloisMatrix::Big(b)) => match a.mul(b) {
                Ok(c) => Ok(GaloisMatrix::Big(c)),
                Err(e) => Err(e),
            },
            _ => Err(GaloisError::FieldMismatch),
        }
    }
}

/// The error for a vector of integers that are not all elements of `f`.
pub open spec fn invalid_entry(v: Seq<u64>, f: crate::field::factory::GaloisField) -> GaloisError {
    GaloisError::InvalidElement { value: v[first_invalid(v, f.q())], characteristic: f.p() as u64, degree: f.m() as u32 }
}

impl GaloisMatrix {
    /// The matrix-vector product with an array of the same kind: `FieldMismatch` for
    /// another kind; for the small kind, an error for a value that is not an element of the
    /// matrix's field; `ShapeMismatch` (columns, length) when they differ.
    pub fn mul_array(&self, vec: &GaloisArray) -> (r: Result<GaloisArray>)
        requires
            self.wf(),
            vec.wf(),
        ensures
            match (self, vec) {
                (GaloisMatrix::Small(m), GaloisArray::Small(v)) => if !all_below(v.values_view(), m.field_view().q()) {
                    r == Err::<GaloisArray, GaloisError>(invalid_entry(v.values_view(), m.field_view()))
                } else if m.ncols() != v.values_view().len() {
                    r matches Err(GaloisError::ShapeMismatch { expected, actual })
                        && expected@ == seq![m.ncols() as usize] && actual@ == seq![v.values_view().len() as usize]
                } else {
                    r matches Ok(GaloisArray::Small(y)) && y.wf() && y.field_view().equiv(&m.field_view())
                        && y.values_view().len() == m.nrows()
                        && forall|i: int| 0 <= i < m.nrows() ==> #[trigger] y.values_view()[i]
                            == row_dot(m.field_view(), m.values_view(), m.ncols(), i, v.values_view(), m.ncols())
                },
                (GaloisMatrix::Big(m), GaloisArray::Big(v)) => if m.ncols() != v.values_view().len() {
                    r matches Err(GaloisError::ShapeMismatch { expected, actual })
                        && expected@ == seq![m.ncols() as usize] && actual@ == seq![v.values_view().len() as usize]
                } else {
                    r matches Ok(GaloisArray::Big(y)) && y.wf() && big_equiv(y.field_view(), m.field_view())
                        && y.values_view().len() == m.nrows()
                        && forall|i: int| 0 <= i < m.nrows() ==> #[trigger] y.values_view()[i]
                            == big_row_dot(m.field_view(), m.values_view(), m.ncols(), i, v.values_view(), m.ncols())
                },
                _ => r == Err::<GaloisArray, GaloisError>(GaloisError::FieldMismatch),
            },
    {
        match (self, vec) {
            (GaloisMatrix::Small(m), GaloisArray::Small(v)) => {
                let fc = m.field().clone();
                proof { fc.lemma_equiv_wf(&m.field_view()); }
                let b = match FieldVector::new(fc, copy_u64(v.values())) {
                    Ok(b) => b,
                    Err(e) => { return Err(e); },
                };
                let out = match m.mul_vec(&b) {
                    Ok(y) => y,
                    Err(e) => { return Err(e); },
                };
                let fo = m.field().clone();
                proof { fo.lemma_equiv_wf(&m.field_view()); }
                Ok(GaloisArray::Small(FieldArray::new(fo, copy_u64(out.values()))))
            },
            (GaloisMatrix::Big(m), GaloisArray::Big(_)) => m.mul_array(vec),
            _ => Err(GaloisError::FieldMismatch),
        }
    }

    /// Solves `A x = b` for an array of the same kind: `FieldMismatch` for another kind;
    /// for the small kind, an error for a value that is not an element of the matrix's
    /// field; `ShapeMismatch` unless the matrix is square with as many rows as `b` has
    /// entries; `SingularMatrix` when elimination finds no pivot. A returned `x` satisfies
    /// `A x = b`.
    pub fn solve(&self, b: &GaloisArray) -> (r: Result<GaloisArray>)
        requires
            self.wf(),
            b.wf(),
        ensures
            match (self, b) {
                (GaloisMatrix::Small(m), GaloisArray::Small(v)) => if !all_below(v.values_view(), m.field_view().q()) {
                    r == Err::<GaloisArray, GaloisError>(invalid_entry(v.values_view(), m.field_view()))
                } else if m.nrows() != m.ncols() || m.nrows() != v.values_view().len() {
                    r matches Err(GaloisError::ShapeMismatch { expected, actual })
                        && expected@ == seq![m.nrows() as usize] && actual@ == seq![v.values_view().len() as usize]
                } else {
                    match r {
                        Ok(GaloisArray::Small(x)) => x.wf() && x.field_view().equiv(&m.field_view())
                            && solves(m, x.values_view(), v.values_view()),
                        Ok(GaloisArray::Big(_)) => false,
                        Err(e) => e == GaloisError::SingularMatrix,
                    }
                },
                (GaloisMatrix::Big(m), GaloisArray::Big(v)) => if m.nrows() != m.ncols() || m.nrows() != v.values_view().len() {
                    r matches Err(GaloisError::ShapeMismatch { expected, actual })
                        && expected@ == seq![m.nrows() as usize] && actual@ == seq![v.values_view().len() as usize]
                } else if !same_big_field(m.field_view(), v.field_view()) {
                    r == Err::<GaloisArray, GaloisError>(GaloisError::FieldMismatch)
                } else {
                    match r {
                        Ok(GaloisArray::Big(x)) => x.wf() && big_equiv(x.field_view(), m.field_view())
                            && big_solves(m, x.values_view(), v.values_view()),
                        Ok(GaloisArray::Small(_)) => false,
                        Err(e) => e == GaloisError::SingularMatrix,
                    }
                },
                _ => r == Err::<GaloisArray, GaloisError>(GaloisError::FieldMismatch),
            },
    {
        match (self, b) {
            (GaloisMatrix::Small(m), GaloisArray::Small(v)) => {
                let fc = m.field().clone();
                proof { fc.lemma_equiv_wf(&m.field_view()); }
                let rhs = match FieldVector::new(fc, copy_u64(v.values())) {
                    Ok(b) => b,
                    Err(e) => { return Err(e); },
                };
                let out = match m.solve(&rhs) {
                    Ok(x) => x,
                    Err(e) => { return Err(e); },
                };
                let fo = m.field().clone();
                proof { fo.lemma_equiv_wf(&m.field_view()); }
                Ok(GaloisArray::Small(FieldArray::new(fo, copy_u64(out.values()))))
            },
            (GaloisMatrix::Big(m), GaloisArray::Big(_)) => m.solve(b),
            _ => Err(GaloisError::FieldMismatch),
        }
    }

    /// The determinant by Gaussian elimination; `ShapeMismatch` (`[rows, rows]`, shape) for
    /// a matrix that is not square.
    pub fn det(&self) -> (r: Result<GaloisElementValue>)
        requires
            self.wf(),
        ensures
            self.nrows() != self.ncols() ==> (r matches Err(GaloisError::ShapeMismatch { expected, actual })
                && expected@ == seq![self.nrows() as usize, self.nrows() as usize]
                && actual@ == seq![self.nrows() as usize, self.ncols() as usize]),
            self.nrows() == self.ncols() ==> match self {
                GaloisMatrix::Small(m) => r matches Ok(GaloisElementValue::Small(d)) && d < m.field_view().q(),
                GaloisMatrix::Big(m) => r matches Ok(GaloisElementValue::Big(d)) && d.value() < m.field_view().q(),
            },
    {
        match self {
            GaloisMatrix::Small(m) => match m.det() {
                Ok(d) => Ok(GaloisElementValue::Small(d)),
                Err(e) => Err(e),
            },
            GaloisMatrix::Big(m) => match m.det() {
                Ok(d) => Ok(GaloisElementValue::Big(d)),
                Err(e) => Err(e),
            },
        }
    }

    /// The number of pivots in the row echelon form.
    pub fn rank(&self) -> (r: usize)
        requires
            self.wf(),
        ensures
            r <= self.nrows(),
            r <= self.ncols(),
    {
        match self {
            GaloisMatrix::Small(m) => m.rank(),
            GaloisMatrix::Big(m) => m.rank(),
        }
    }

    /// Sum of the diagonal entries.
    pub fn trace(&self) -> (r: GaloisElementValue)
        requires
            self.wf(),
        ensures
            match self {
                GaloisMatrix::Small(m) => r matches GaloisElementValue::Small(t) && t == diag_sum(m.field_view(),
                    m.values_view(), m.ncols(), if m.nrows() <= m.ncols() { m.nrows() } else { m.ncols() }),
                GaloisMatrix::Big(m) => r matches GaloisElementValue::Big(t) && t.value() == big_diag_sum(m.field_view(),
                    m.values_view(), m.ncols(), if m.nrows() <= m.ncols() { m.nrows() } else { m.ncols() }),
            },
    {
        match self {
            GaloisMatrix::Small(m) => GaloisElementValue::Small(m.trace()),
            GaloisMatrix::Big(m) => GaloisElementValue::Big(m.trace()),
        }
    }

    /// The transpose; always `Ok`.
    pub fn transpose(&self) -> (r: Result<Self>)
        requires
            self.wf(),
        ensures
            r matches Ok(t) && t.wf() && t.nrows() == self.ncols() && t.ncols() == self.nrows()
                && t.same_field_as(self)
                && forall|i: int, j: int| 0 <= i < self.nrows() && 0 <= j < self.ncols() ==> #[trigger] t.entry(j, i) == self.entry(i, j),
    {
        match self {
            GaloisMatrix::Small(m) => Ok(GaloisMatrix::Small(m.transpose())),
            GaloisMatrix::Big(m) => match m.transpose() {
                Ok(t) => Ok(GaloisMatrix::Big(t)),
                Err(e) => Err(e),
            },
        }
    }
}

/// A vector of the small kind over a field equivalent to `m`'s that `m` maps to zero.
pub open spec fn small_null_vector(m: &FieldMatrix, g: GaloisArray) -> bool {
    g matches GaloisArray::Small(v) && v.wf() && v.field_view().equiv(&m.field_view())
        && solves(m, v.values_view(), zeros_seq(m.nrows()))
}

impl GaloisMatrix {
    /// The characteristic polynomial `det(xI - A)`, as each kind computes it.
    pub fn characteristic_polynomial(&self) -> (r: Result<FieldPoly>)
        requires
            self.wf(),
            self is Small ==> {
                &&& self.nrows() == 1 ==> self.ncols() >= 1
                &&& self.nrows() == 2 ==> self.ncols() >= 2
                &&& self.nrows() >= 3 && self.nrows() == self.ncols() ==> self.nrows() < self.field_q()
            },
        ensures
            match self {
                GaloisMatrix::Small(m) => if m.nrows() <= 2 || m.nrows() == m.ncols() {
                    r matches Ok(FieldPoly::Small(p)) && p.wf() && p.field_view().equiv(&m.field_view())
                        && p.coeffs_view() == char_poly_coeffs(m.field_view(), m.values_view(), m.nrows(), m.ncols())
                } else {
                    r matches Err(GaloisError::ShapeMismatch { expected, actual })
                        && expected@ == seq![m.nrows() as usize, m.nrows() as usize]
                        && actual@ == seq![m.ncols() as usize, m.nrows() as usize]
                },
                GaloisMatrix::Big(m) => if m.nrows() == m.ncols() {
                    r matches Ok(FieldPoly::Big(p)) && p.wf() && big_equiv(p.field_view(), m.field_view())
                        && p.coeffs_view() == bp_strip(big_char_poly_coeffs(m.field_view(), m.values_view(), m.nrows()))
                } else {
                    r matches Err(GaloisError::ShapeMismatch { expected, actual })
                        && expected@ == seq![m.nrows() as usize, m.nrows() as usize]
                        && actual@ == seq![m.nrows() as usize, m.ncols() as usize]
                },
            },
    {
        match self {
            GaloisMatrix::Small(m) => match characteristic_polynomial(m) {
                Ok(p) => Ok(FieldPoly::Small(p)),
                Err(e) => Err(e),
            },
            GaloisMatrix::Big(m) => m.characteristic_polynomial(),
        }
    }

    /// The order of the matrix's field.
    pub open spec fn field_q(&self) -> nat {
        match self {
            GaloisMatrix::Small(m) => m.field_view().q(),
            GaloisMatrix::Big(m) => m.field_view().q(),
        }
    }

    /// LU decomposition with partial pivoting: `ShapeMismatch` (`[rows, rows]`, shape) for
    /// a matrix that is not square, `SingularMatrix` when a column has no pivot.
    pub fn lu_decomposition(&self) -> (r: Result<(Self, Self, Vec<usize>)>)
        requires
            self.wf(),
        ensures
            self.nrows() != self.ncols() ==> (r matches Err(GaloisError::ShapeMismatch { expected, actual })
                && expected@ == seq![self.nrows() as usize, self.nrows() as usize]
                && actual@ == seq![self.nrows() as usize, self.ncols() as usize]),
            self.nrows() == self.ncols() ==> match (self, r) {
                (GaloisMatrix::Small(m), Ok((GaloisMatrix::Small(l), GaloisMatrix::Small(u), p))) => lu_factors(m, &l, &u, p@),
                (GaloisMatrix::Big(m), Ok((GaloisMatrix::Big(l), GaloisMatrix::Big(u), p))) => big_lu_factors(m, &l, &u, p@),
                (_, Ok(_)) => false,
                (_, Err(e)) => e == GaloisError::SingularMatrix,
            },
    {
        match self {
            GaloisMatrix::Small(m) => match m.lu_decomposition() {
                Ok((l, u, p)) => Ok((GaloisMatrix::Small(l), GaloisMatrix::Small(u), p)),
                Err(e) => Err(e),
            },
            GaloisMatrix::Big(m) => match m.lu_decomposition() {
                Ok((l, u, p)) => Ok((GaloisMatrix::Big(l), GaloisMatrix::Big(u), p)),
                Err(e) => Err(e),
            },
        }
    }

    /// LU decomposition for rank-deficient matrices, with the number of pivots.
    pub fn rank_revealing_lu_decomposition(&self) -> (r: Result<(Self, Self, Vec<usize>, usize)>)
        requires
            self.wf(),
        ensures
            self.nrows() != self.ncols() ==> (r matches Err(GaloisError::ShapeMismatch { expected, actual })
                && expected@ == seq![self.nrows() as usize, self.nrows() as usize]
                && actual@ == seq![self.nrows() as usize, self.ncols() as usize]),
            self.nrows() == self.ncols() ==> match (self, r) {
                (GaloisMatrix::Small(m), Ok((GaloisMatrix::Small(l), GaloisMatrix::Small(u), p, rank))) =>
                    lu_factors(m, &l, &u, p@) && rank <= m.nrows(),
                (GaloisMatrix::Big(m), Ok((GaloisMatrix::Big(l), GaloisMatrix::Big(u), p, rank))) =>
                    big_lu_factors(m, &l, &u, p@) && rank <= m.nrows(),
                (_, Ok(_)) => false,
                (_, Err(e)) => e == GaloisError::SingularMatrix,
            },
    {
        match self {
            GaloisMatrix::Small(m) => match m.rank_revealing_lu_decomposition() {
                Ok((l, u, p, rank)) => Ok((GaloisMatrix::Small(l), GaloisMatrix::Small(u), p, rank)),
                Err(e) => Err(e),
            },
            GaloisMatrix::Big(m) => match m.rank_revealing_lu_decomposition() {
                Ok((l, u, p, rank)) => Ok((GaloisMatrix::Big(l), GaloisMatrix::Big(u), p, rank)),
                Err(e) => Err(e),
            },
        }
    }

    /// The roots of the characteristic polynomial among the elements below
    /// `min(q, 10000)`, ascending (for a big field whose order does not fit in 64 bits,
    /// none).
    pub fn eigenvalues(&self) -> (r: Result<GaloisArray>)
        requires
            self.wf(),
            self is Small ==> {
                &&& self.nrows() == 1 ==> self.ncols() >= 1
                &&& self.nrows() == 2 ==> self.ncols() >= 2
                &&& self.nrows() >= 3 && self.nrows() == self.ncols() ==> self.nrows() < self.field_q()
            },
        ensures
            match self {
                GaloisMatrix::Small(m) => if m.nrows() <= 2 || m.nrows() == m.ncols() {
                    r matches Ok(GaloisArray::Small(a)) && a.wf() && a.field_view().equiv(&m.field_view())
                        && a.values_view() == roots_spec(char_poly_coeffs(m.field_view(), m.values_view(), m.nrows(), m.ncols()),
                            m.field_view().model())
                } else {
                    r matches Err(GaloisError::ShapeMismatch { expected, actual })
                        && expected@ == seq![m.nrows() as usize, m.nrows() as usize]
                        && actual@ == seq![m.ncols() as usize, m.nrows() as usize]
                },
                GaloisMatrix::Big(m) => if m.nrows() == m.ncols() {
                    r matches Ok(GaloisArray::Big(x)) && x.wf() && big_equiv(x.field_view(), m.field_view())
                        && x.values_view() == big_roots_below(
                            bp_strip(big_char_poly_coeffs(m.field_view(), m.values_view(), m.nrows())),
                            big_root_limit(m.field_view().q()), m.field_view())
                } else {
                    r matches Err(GaloisError::ShapeMismatch { expected, actual })
                        && expected@ == seq![m.nrows() as usize, m.nrows() as usize]
                        && actual@ == seq![m.nrows() as usize, m.ncols() as usize]
                },
            },
    {
        match self {
            GaloisMatrix::Small(m) => {
                let cp = match characteristic_polynomial(m) {
                    Ok(p) => p,
                    Err(e) => { return Err(e); },
                };
                proof { cp.field_view().lemma_equiv_wf(&m.field_view()); }
                let fp = FieldPoly::Small(cp);
                field_poly_roots(&fp)
            },
            GaloisMatrix::Big(m) => m.eigenvalues(),
        }
    }

    /// The inverse: `ShapeMismatch` (`[rows, rows]`, shape) for a matrix that is not
    /// square, `SingularMatrix` when it has none.
    pub fn inverse(&self) -> (r: Result<Self>)
        requires
            self.wf(),
            self.nrows() * self.nrows() <= usize::MAX,
        ensures
            self.nrows() != self.ncols() ==> (r matches Err(GaloisError::ShapeMismatch { expected, actual })
                && expected@ == seq![self.nrows() as usize, self.nrows() as usize]
                && actual@ == seq![self.nrows() as usize, self.ncols() as usize]),
            self.nrows() == self.ncols() ==> match (self, r) {
                (GaloisMatrix::Small(m), Ok(GaloisMatrix::Small(inv))) => inv.wf() && inv.field_view().equiv(&m.field_view())
                    && inv.nrows() == m.nrows() && inv.ncols() == m.nrows()
                    && forall|i: int, j: int| 0 <= i < m.nrows() && 0 <= j < m.nrows() ==>
                        #[trigger] dot_prefix(m.field_view(), m.values_view(), m.ncols(), inv.values_view(), inv.ncols(), i, j, m.ncols())
                        == (if i == j { 1nat } else { 0nat }),
                (GaloisMatrix::Big(m), Ok(GaloisMatrix::Big(inv))) => inv.wf() && big_equiv(inv.field_view(), m.field_view())
                    && inv.nrows() == m.nrows() && inv.ncols() == m.nrows()
                    && forall|j: int| 0 <= j < m.nrows() ==> #[trigger] big_solves(m,
                        big_column(inv.values_view(), m.nrows(), j), big_unit(m.nrows(), j)),
                (_, Ok(_)) => false,
                (_, Err(e)) => e == GaloisError::SingularMatrix,
            },
    {
        match self {
            GaloisMatrix::Small(m) => match m.inverse() {
                Ok(inv) => Ok(GaloisMatrix::Small(inv)),
                Err(e) => Err(e),
            },
            GaloisMatrix::Big(m) => match m.inverse() {
                Ok(inv) => Ok(GaloisMatrix::Big(inv)),
                Err(e) => Err(e),
            },
        }
    }

    /// A basis of the null space, as arrays of the matrix's kind: every returned vector
    /// `v` satisfies `A v = 0`.
    pub fn null_space(&self) -> (r: Result<Vec<GaloisArray>>)
        requires
            self.wf(),
        ensures
            match r {
                Ok(basis) => forall|k: int| 0 <= k < basis@.len() ==> match self {
                    GaloisMatrix::Small(m) => small_null_vector(m, #[trigger] basis@[k]),
                    GaloisMatrix::Big(m) => null_vector(m, basis@[k]),
                },
                Err(e) => e == GaloisError::SingularMatrix,
            },
    {
        match self {
            GaloisMatrix::Small(m) => {
                let basis = match m.null_space() {
                    Ok(b) => b,
                    Err(e) => { return Err(e); },
                };
                let mut out: Vec<GaloisArray> = Vec::new();
                let mut i: usize = 0;
                while i < basis.len()
                    invariant
                        m.wf(),
                        i <= basis@.len(),
                        out@.len() == i,
                        forall|k: int| 0 <= k < basis@.len() ==> (#[trigger] basis@[k]).wf()
                            && basis@[k].field_view().equiv(&m.field_view())
                            && solves(m, basis@[k].values_view(), zeros_seq(m.nrows())),
                        forall|k: int| 0 <= k < i ==> small_null_vector(m, #[trigger] out@[k]),
                    decreases basis@.len() - i,
                {
                    let fc = m.field().clone();
                    proof { fc.lemma_equiv_wf(&m.field_view()); }
                    let v = &basis[i];
                    proof { v.field_view().lemma_equiv_wf(&m.field_view()); }
                    let arr = GaloisArray::Small(FieldArray::new(fc, copy_u64(v.values())));
                    let ghost before = out@;
                    out.push(arr);
                    proof {
                        assert forall|k: int| 0 <= k < i + 1 implies small_null_vector(m, #[trigger] out@[k]) by {
                            if k < i {
                                assert(out@[k] == before[k]);
                            }
                        }
                    }
                    i = i + 1;
                }
                Ok(out)
            },
            GaloisMatrix::Big(m) => m.null_space(),
        }
    }
}

} // verus!
