//! Linear algebra over finite fields: matrices and vectors of field elements.

use vstd::prelude::*;
use crate::error::{GaloisError, Result};
use crate::field::array::all_below;
use crate::field::broadcast::slice_to_vec;
use crate::field::factory::GaloisField;
use crate::field::model::{gf_neg, gf_mul};
use crate::field::element::same_field;
use crate::poly::field_poly::first_invalid;

verus! {

/// Row-major position of entry `(i, j)` lies inside a `rows x cols` matrix.
pub proof fn lemma_index(i: int, j: int, rows: int, cols: int)
    requires
        0 <= i < rows,
        0 <= j < cols,
    ensures
        0 <= i * cols,
        i * cols + j < rows * cols,
        i * cols + cols <= rows * cols,
{
    assert(i * cols + cols <= rows * cols) by (nonlinear_arith)
        requires 0 <= i < rows, 0 <= j < cols;
    assert(0 <= i * cols) by (nonlinear_arith) requires 0 <= i, 0 <= cols;
}

/// Row-major position of entry `(i, j)`.
fn idx(i: usize, j: usize, rows: usize, cols: usize, len: usize) -> (r: usize)
    requires
        i < rows,
        j < cols,
        len == rows * cols,
    ensures
        r == i * cols + j,
        r < len,
{
    proof { lemma_index(i as int, j as int, rows as int, cols as int); }
    i * cols + j
}

/// `sum_{l < k} a[i][l] * b[l][j]`, accumulated from the left.
pub open spec fn dot_prefix(f: GaloisField, a: Seq<u64>, acols: nat, b: Seq<u64>, bcols: nat, i: int, j: int, k: nat) -> nat
    decreases k,
{
    if k == 0 {
        0
    } else {
        f.add_spec(dot_prefix(f, a, acols, b, bcols, i, j, (k - 1) as nat),
            f.mul_spec(a[i * acols + (k - 1)] as nat, b[(k - 1) * bcols + j] as nat))
    }
}

/// `sum_{l < k} a[i][l] * x[l]`, accumulated from the left.
pub open spec fn row_dot(f: GaloisField, a: Seq<u64>, acols: nat, i: int, x: Seq<u64>, k: nat) -> nat
    decreases k,
{
    if k == 0 {
        0
    } else {
        f.add_spec(row_dot(f, a, acols, i, x, (k - 1) as nat),
            f.mul_spec(a[i * acols + (k - 1)] as nat, x[k - 1] as nat))
    }
}

/// `sum_{i < k} a[i][i]`, accumulated from the left.
pub open spec fn diag_sum(f: GaloisField, a: Seq<u64>, cols: nat, k: nat) -> nat
    decreases k,
{
    if k == 0 {
        0
    } else {
        f.add_spec(diag_sum(f, a, cols, (k - 1) as nat), a[(k - 1) * cols + (k - 1)] as nat)
    }
}

/// `p` lists `0..n` in some order.
pub open spec fn is_permutation(p: Seq<usize>, n: nat) -> bool {
    &&& p.len() == n
    &&& forall|i: int| 0 <= i < n ==> #[trigger] p[i] < n
    &&& forall|i: int, j: int| 0 <= i < j < n ==> p[i] != p[j]
}

/// `Ok` when every value is an element of `field`, else `InvalidElement` for the first
/// value that is not.
fn check_values(field: &GaloisField, values: &[u64]) -> (r: Result<()>)
    ensures
        all_below(values@, field.q()) ==> r is Ok,
        !all_below(values@, field.q()) ==> r == Err::<(), GaloisError>(GaloisError::InvalidElement {
            value: values@[first_invalid(values@, field.q())],
            characteristic: field.p() as u64, degree: field.m() as u32 }),
{
    let mut i: usize = 0;
    while i < values.len()
        invariant
            i <= values@.len(),
            forall|j: int| 0 <= j < i ==> values@[j] < field.q(),
        decreases values@.len() - i,
    {
        if values[i] >= field.order() {
            let ghost k = first_invalid(values@, field.q());
            assert(0 <= i < values@.len() && values@[i as int] >= field.q()
                && forall|j: int| 0 <= j < i ==> values@[j] < field.q());
            proof {
                if k != i {
                    assert(k < i || k > i);
                }
            }
            return Err(GaloisError::InvalidElement {
                value: values[i],
                characteristic: field.characteristic(),
                degree: field.degree(),
            });
        }
        i = i + 1;
    }
    Ok(())
}

/// A vector of elements of one field.
#[derive(Debug)]
pub struct FieldVector {
    field: GaloisField,
    data: Vec<u64>,
}

impl FieldVector {
    pub closed spec fn field_view(&self) -> GaloisField {
        self.field
    }

    pub closed spec fn values_view(&self) -> Seq<u64> {
        self.data@
    }

    pub open spec fn wf(&self) -> bool {
        self.field_view().wf() && all_below(self.values_view(), self.field_view().q())
    }

    /// The vector of `data`; `InvalidElement` for the first value that is not an element.
    pub fn new(field: GaloisField, data: Vec<u64>) -> (r: Result<Self>)
        requires
            field.wf(),
        ensures
            !all_below(data@, field.q()) ==> r == Err::<Self, GaloisError>(GaloisError::InvalidElement {
                value: data@[first_invalid(data@, field.q())],
                characteristic: field.p() as u64, degree: field.m() as u32 }),
            all_below(data@, field.q()) ==> (r matches Ok(v) && v.wf() && v.field_view() == field
                && v.values_view() == data@),
    {
        if let Err(e) = check_values(&field, data.as_slice()) {
            return Err(e);
        }
        Ok(FieldVector { field, data })
    }

    pub fn len(&self) -> (r: usize)
        ensures
            r == self.values_view().len(),
    {
        self.data.len()
    }

    pub fn get(&self, i: usize) -> (r: u64)
        requires
            i < self.values_view().len(),
        ensures
            r == self.values_view()[i as int],
    {
        self.data[i]
    }

    pub fn field(&self) -> (r: &GaloisField)
        ensures
            *r == self.field_view(),
    {
        &self.field
    }

    pub fn values(&self) -> (r: &[u64])
        ensures
            r@ == self.values_view(),
    {
        self.data.as_slice()
    }
}

/// A matrix of elements of one field, stored row by row.
#[derive(Debug)]
pub struct FieldMatrix {
    field: GaloisField,
    rows: usize,
    cols: usize,
    data: Vec<u64>,
}

impl FieldMatrix {
    pub closed spec fn field_view(&self) -> GaloisField {
        self.field
    }

    pub closed spec fn nrows(&self) -> nat {
        self.rows as nat
    }

    pub closed spec fn ncols(&self) -> nat {
        self.cols as nat
    }

    pub closed spec fn values_view(&self) -> Seq<u64> {
        self.data@
    }

    /// Entry `(i, j)`.
    pub open spec fn at(&self, i: int, j: int) -> u64 {
        self.values_view()[i * self.ncols() + j]
    }

    /// The entries fill the shape and are elements of a well-formed field.
    pub open spec fn wf(&self) -> bool {
        &&& self.field_view().wf()
        &&& self.values_view().len() == self.nrows() * self.ncols()
        &&& all_below(self.values_view(), self.field_view().q())
    }

    /// The `rows x cols` matrix of `data`: `ShapeMismatch` when the number of values
    /// differs, `InvalidElement` for the first value that is not an element.
    pub fn new(field: GaloisField, rows: usize, cols: usize, data: Vec<u64>) -> (r: Result<Self>)
        requires
            field.wf(),
            rows * cols <= usize::MAX,
        ensures
            data@.len() != rows * cols ==> (r matches Err(GaloisError::ShapeMismatch { expected, actual })
                && expected@ == seq![rows, cols] && actual@ == seq![data@.len() as usize]),
            data@.len() == rows * cols && !all_below(data@, field.q()) ==> r == Err::<Self, GaloisError>(
                GaloisError::InvalidElement { value: data@[first_invalid(data@, field.q())],
                    characteristic: field.p() as u64, degree: field.m() as u32 }),
            data@.len() == rows * cols && all_below(data@, field.q()) ==> (r matches Ok(a) && a.wf()
                && a.field_view() == field && a.nrows() == rows && a.ncols() == cols && a.values_view() == data@),
    {
        if data.len() != rows * cols {
            return Err(GaloisError::ShapeMismatch { expected: vec![rows, cols], actual: vec![data.len()] });
        }
        if let Err(e) = check_values(&field, data.as_slice()) {
            return Err(e);
        }
        Ok(FieldMatrix { field, rows, cols, data })
    }

    /// The `rows x cols` zero matrix.
    pub fn zeros(field: GaloisField, rows: usize, cols: usize) -> (r: Self)
        requires
            field.wf(),
            rows * cols <= usize::MAX,
        ensures
            r.wf(),
            r.field_view() == field,
            r.nrows() == rows,
            r.ncols() == cols,
            r.values_view() == Seq::new((rows * cols) as nat, |k: int| 0u64),
    {
        proof { field.lemma_q_ge_2(); }
        let n = rows * cols;
        let mut data: Vec<u64> = Vec::new();
        let mut k: usize = 0;
        while k < n
            invariant
                k <= n,
                data@ =~= Seq::new(k as nat, |t: int| 0u64),
            decreases n - k,
        {
            data.push(0);
            k = k + 1;
        }
        FieldMatrix { field, rows, cols, data }
    }

    /// The `n x n` identity matrix.
    pub fn identity(field: GaloisField, n: usize) -> (r: Self)
        requires
            field.wf(),
            n * n <= usize::MAX,
        ensures
            r.wf(),
            r.field_view() == field,
            r.nrows() == n,
            r.ncols() == n,
            forall|i: int, j: int| 0 <= i < n && 0 <= j < n ==> #[trigger] r.at(i, j) == (if i == j { 1u64 } else { 0u64 }),
    {
        proof { field.lemma_q_ge_2(); }
        let mut m = Self::zeros(field, n, n);
        assert forall|a: int, b: int| 0 <= a < n && 0 <= b < n implies #[trigger] m.at(a, b) == 0u64 by {
            lemma_index(a, b, n as int, n as int);
        }
        let mut i: usize = 0;
        while i < n
            invariant
                m.wf(),
                m.nrows() == n,
                m.ncols() == n,
                m.field_view() == field,
                field.q() >= 2,
                i <= n,
                forall|a: int, b: int| 0 <= a < n && 0 <= b < n ==> #[trigger] m.at(a, b)
                    == (if a == b && a < i { 1u64 } else { 0u64 }),
            decreases n - i,
        {
            let k = idx(i, i, n, n, m.data.len());
            let ghost before = m;
            m.data.set(k, 1);
            proof {
                assert forall|a: int, b: int| 0 <= a < n && 0 <= b < n implies #[trigger] m.at(a, b)
                    == (if a == b && a < i + 1 { 1u64 } else { 0u64 }) by {
                    lemma_index(a, b, n as int, n as int);
                    assert(before.at(a, b) == (if a == b && a < i { 1u64 } else { 0u64 }));
                    if a * (n as int) + b == i * n + i {
                        lemma_same_position(a, b, i as int, i as int, n as int);
                    } else {
                        assert(m.at(a, b) == before.at(a, b));
                    }
                }
            }
            i = i + 1;
        }
        m
    }

    pub fn field(&self) -> (r: &GaloisField)
        ensures
            *r == self.field_view(),
    {
        &self.field
    }

    /// The number of entries, `rows * cols`.
    pub(crate) fn entry_count(&self) -> (r: usize)
        ensures
            r == self.values_view().len(),
    {
        self.data.len()
    }

    /// `(rows, cols)`.
    pub fn shape(&self) -> (r: (usize, usize))
        ensures
            r.0 == self.nrows(),
            r.1 == self.ncols(),
    {
        (self.rows, self.cols)
    }

    /// Entry `(row, col)`.
    pub fn get(&self, row: usize, col: usize) -> (r: u64)
        requires
            self.wf(),
            row < self.nrows(),
            col < self.ncols(),
        ensures
            r == self.at(row as int, col as int),
    {
        let k = idx(row, col, self.rows, self.cols, self.data.len());
        self.data[k]
    }

    /// Sets entry `(row, col)`; `InvalidElement` (and no change) when `value` is not an
    /// element.
    pub fn set(&mut self, row: usize, col: usize, value: u64) -> (r: Result<()>)
        requires
            old(self).wf(),
            row < old(self).nrows(),
            col < old(self).ncols(),
        ensures
            value >= old(self).field_view().q() ==> r == Err::<(), GaloisError>(GaloisError::InvalidElement {
                value, characteristic: old(self).field_view().p() as u64, degree: old(self).field_view().m() as u32 })
                && *final(self) == *old(self),
            value < old(self).field_view().q() ==> r is Ok && final(self).wf()
                && final(self).field_view() == old(self).field_view()
                && final(self).nrows() == old(self).nrows() && final(self).ncols() == old(self).ncols()
                && final(self).values_view() == old(self).values_view().update(row * old(self).ncols() + col, value),
    {
        let v = match self.field.validate_element(value) {
            Ok(v) => v,
            Err(e) => { return Err(e); },
        };
        let k = idx(row, col, self.rows, self.cols, self.data.len());
        self.data.set(k, v);
        Ok(())
    }
}

impl FieldMatrix {
    /// `ShapeMismatch` (this shape, other shape) unless both matrices have the same shape.
    fn ensure_same_shape(&self, other: &Self) -> (r: Result<()>)
        ensures
            (self.nrows() == other.nrows() && self.ncols() == other.ncols()) ==> r is Ok,
            !(self.nrows() == other.nrows() && self.ncols() == other.ncols()) ==>
                (r matches Err(GaloisError::ShapeMismatch { expected, actual })
                && expected@ == seq![self.nrows() as usize, self.ncols() as usize]
                && actual@ == seq![other.nrows() as usize, other.ncols() as usize]),
    {
        if self.rows != other.rows || self.cols != other.cols {
            return Err(GaloisError::ShapeMismatch {
                expected: vec![self.rows, self.cols],
                actual: vec![other.rows, other.cols],
            });
        }
        Ok(())
    }

    /// A matrix of this one's field and shape with other entries.
    fn with_data(&self, data: Vec<u64>) -> (r: Self)
        requires
            self.wf(),
            data@.len() == self.values_view().len(),
            all_below(data@, self.field_view().q()),
        ensures
            r.wf(),
            r.field_view().equiv(&self.field_view()),
            r.nrows() == self.nrows(),
            r.ncols() == self.ncols(),
            r.values_view() == data@,
    {
        let field = self.field.clone();
        proof { field.lemma_equiv_wf(&self.field); }
        FieldMatrix { field, rows: self.rows, cols: self.cols, data }
    }

    /// Entrywise sum; `ShapeMismatch` for different shapes.
    pub fn add(&self, other: &Self) -> (r: Result<Self>)
        requires
            self.wf(),
            other.wf(),
        ensures
            !(self.nrows() == other.nrows() && self.ncols() == other.ncols()) ==>
                (r matches Err(GaloisError::ShapeMismatch { expected, actual })
                && expected@ == seq![self.nrows() as usize, self.ncols() as usize]
                && actual@ == seq![other.nrows() as usize, other.ncols() as usize]),
            (self.nrows() == other.nrows() && self.ncols() == other.ncols()) ==> (r matches Ok(c) && c.wf()
                && c.field_view().equiv(&self.field_view()) && c.nrows() == self.nrows() && c.ncols() == self.ncols()
                && forall|k: int| 0 <= k < c.values_view().len() ==> c.values_view()[k]
                    == self.field_view().add_spec(#[trigger] self.values_view()[k] as nat, other.values_view()[k] as nat)),
    {
        if let Err(e) = self.ensure_same_shape(other) {
            return Err(e);
        }
        let mut out: Vec<u64> = Vec::new();
        let mut k: usize = 0;
        while k < self.data.len()
            invariant
                self.wf(),
                other.wf(),
                self.values_view().len() == other.values_view().len(),
                k <= self.data@.len(),
                out@.len() == k,
                forall|t: int| 0 <= t < k ==> (#[trigger] out@[t]) == self.field.add_spec(self.data@[t] as nat, other.data@[t] as nat)
                    && out@[t] < self.field.q(),
            decreases self.data@.len() - k,
        {
            out.push(self.field.add(self.data[k], other.data[k]));
            k = k + 1;
        }
        Ok(self.with_data(out))
    }

    /// Entrywise difference; `ShapeMismatch` for different shapes.
    pub fn sub(&self, other: &Self) -> (r: Result<Self>)
        requires
            self.wf(),
            other.wf(),
        ensures
            !(self.nrows() == other.nrows() && self.ncols() == other.ncols()) ==>
                (r matches Err(GaloisError::ShapeMismatch { expected, actual })
                && expected@ == seq![self.nrows() as usize, self.ncols() as usize]
                && actual@ == seq![other.nrows() as usize, other.ncols() as usize]),
            (self.nrows() == other.nrows() && self.ncols() == other.ncols()) ==> (r matches Ok(c) && c.wf()
                && c.field_view().equiv(&self.field_view()) && c.nrows() == self.nrows() && c.ncols() == self.ncols()
                && forall|k: int| 0 <= k < c.values_view().len() ==> c.values_view()[k]
                    == self.field_view().sub_spec(#[trigger] self.values_view()[k] as nat, other.values_view()[k] as nat)),
    {
        if let Err(e) = self.ensure_same_shape(other) {
            return Err(e);
        }
        let mut out: Vec<u64> = Vec::new();
        let mut k: usize = 0;
        while k < self.data.len()
            invariant
                self.wf(),
                other.wf(),
                self.values_view().len() == other.values_view().len(),
                k <= self.data@.len(),
                out@.len() == k,
                forall|t: int| 0 <= t < k ==> (#[trigger] out@[t]) == self.field.sub_spec(self.data@[t] as nat, other.data@[t] as nat)
                    && out@[t] < self.field.q(),
            decreases self.data@.len() - k,
        {
            out.push(self.field.sub(self.data[k], other.data[k]));
            k = k + 1;
        }
        Ok(self.with_data(out))
    }

    /// Sum of the diagonal entries.
    pub fn trace(&self) -> (r: u64)
        requires
            self.wf(),
        ensures
            r == diag_sum(self.field_view(), self.values_view(), self.ncols(),
                if self.nrows() <= self.ncols() { self.nrows() } else { self.ncols() }),
            r < self.field_view().q(),
    {
        let n = if self.rows <= self.cols { self.rows } else { self.cols };
        let mut t: u64 = 0;
        proof { self.field.lemma_q_ge_2(); }
        let mut i: usize = 0;
        while i < n
            invariant
                self.wf(),
                n <= self.rows,
                n <= self.cols,
                i <= n,
                t == diag_sum(self.field, self.data@, self.cols as nat, i as nat),
                t < self.field.q(),
            decreases n - i,
        {
            let d = self.get(i, i);
            t = self.field.add(t, d);
            i = i + 1;
        }
        t
    }

    /// Matrix product; `ShapeMismatch` (rows of this, columns of other; columns of this,
    /// rows of other) when the inner dimensions differ.
    pub fn mul(&self, other: &Self) -> (r: Result<Self>)
        requires
            self.wf(),
            other.wf(),
            same_field(self.field_view(), other.field_view()),
            self.nrows() * other.ncols() <= usize::MAX,
        ensures
            self.ncols() != other.nrows() ==> (r matches Err(GaloisError::ShapeMismatch { expected, actual })
                && expected@ == seq![self.nrows() as usize, other.ncols() as usize]
                && actual@ == seq![self.ncols() as usize, other.nrows() as usize]),
            self.ncols() == other.nrows() ==> (r matches Ok(c) && c.wf()
                && c.field_view().equiv(&self.field_view()) && c.nrows() == self.nrows() && c.ncols() == other.ncols()
                && forall|i: int, j: int| 0 <= i < c.nrows() && 0 <= j < c.ncols() ==> #[trigger] c.at(i, j)
                    == dot_prefix(self.field_view(), self.values_view(), self.ncols(), other.values_view(), other.ncols(), i, j, self.ncols())),
    {
        if self.cols != other.rows {
            return Err(GaloisError::ShapeMismatch {
                expected: vec![self.rows, other.cols],
                actual: vec![self.cols, other.rows],
            });
        }
        let m = self.rows;
        let k = self.cols;
        let n = other.cols;
        let mut out: Vec<u64> = Vec::new();
        let mut i: usize = 0;
        while i < m
            invariant
                self.wf(),
                other.wf(),
                same_field(self.field_view(), other.field_view()),
                m == self.nrows(), k == self.ncols(), k == other.nrows(), n == other.ncols(),
                m * n <= usize::MAX,
                i <= m,
                out@.len() == i * n,
                all_below(out@, self.field.q()),
                forall|a: int, b: int| 0 <= a < i && 0 <= b < n ==> #[trigger] out@[a * n + b]
                    == dot_prefix(self.field, self.data@, k as nat, other.data@, n as nat, a, b, k as nat),
            decreases m - i,
        {
            let mut j: usize = 0;
            while j < n
                invariant
                    self.wf(),
                    other.wf(),
                    same_field(self.field_view(), other.field_view()),
                    m == self.nrows(), k == self.ncols(), k == other.nrows(), n == other.ncols(),
                    m * n <= usize::MAX,
                    i < m,
                    j <= n,
                    out@.len() == i * n + j,
                    all_below(out@, self.field.q()),
                    forall|a: int, b: int| 0 <= a < i && 0 <= b < n ==> #[trigger] out@[a * n + b]
                        == dot_prefix(self.field, self.data@, k as nat, other.data@, n as nat, a, b, k as nat),
                    forall|b: int| 0 <= b < j ==> #[trigger] out@[i * n + b]
                        == dot_prefix(self.field, self.data@, k as nat, other.data@, n as nat, i as int, b, k as nat),
                decreases n - j,
            {
                let mut sum: u64 = 0;
                let mut l: usize = 0;
                while l < k
                    invariant
                        self.wf(),
                        other.wf(),
                        same_field(self.field_view(), other.field_view()),
                        m == self.nrows(), k == self.ncols(), k == other.nrows(), n == other.ncols(),
                        i < m,
                        j < n,
                        l <= k,
                        sum < self.field.q(),
                        sum == dot_prefix(self.field, self.data@, k as nat, other.data@, n as nat, i as int, j as int, l as nat),
                    decreases k - l,
                {
                    proof {
                        lemma_index(i as int, l as int, m as int, k as int);
                        lemma_index(l as int, j as int, k as int, n as int);
                    }
                    let x = self.get(i, l);
                    let y = other.get(l, j);
                    let prod = self.field.mul(x, y);
                    sum = self.field.add(sum, prod);
                    l = l + 1;
                }
                proof {
                    lemma_index(i as int, j as int, m as int, n as int);
                    assert forall|b: int| 0 <= b < j + 1 implies #[trigger] out@.push(sum)[i * n + b]
                        == dot_prefix(self.field, self.data@, k as nat, other.data@, n as nat, i as int, b, k as nat) by {
                        lemma_index(i as int, b, m as int, n as int);
                    }
                    assert forall|a: int, b: int| 0 <= a < i && 0 <= b < n implies #[trigger] out@.push(sum)[a * n + b]
                        == dot_prefix(self.field, self.data@, k as nat, other.data@, n as nat, a, b, k as nat) by {
                        lemma_index(a, b, i as int, n as int);
                    }
                }
                out.push(sum);
                j = j + 1;
            }
            proof {
                assert((i + 1) * n == i * n + n) by (nonlinear_arith);
                assert forall|a: int, b: int| 0 <= a < i + 1 && 0 <= b < n implies #[trigger] out@[a * n + b]
                    == dot_prefix(self.field, self.data@, k as nat, other.data@, n as nat, a, b, k as nat) by {
                    if a == i {
                    } else {
                    }
                }
            }
            i = i + 1;
        }
        let field = self.field.clone();
        proof {
            field.lemma_equiv_wf(&self.field);
            assert(out@.len() == m * n);
        }
        Ok(FieldMatrix { field, rows: m, cols: n, data: out })
    }

    /// Matrix-vector product; `ShapeMismatch` (columns, vector length) when they differ.
    pub fn mul_vec(&self, vec: &FieldVector) -> (r: Result<FieldVector>)
        requires
            self.wf(),
            vec.wf(),
            same_field(self.field_view(), vec.field_view()),
        ensures
            self.ncols() != vec.values_view().len() ==> (r matches Err(GaloisError::ShapeMismatch { expected, actual })
                && expected@ == seq![self.ncols() as usize] && actual@ == seq![vec.values_view().len() as usize]),
            self.ncols() == vec.values_view().len() ==> (r matches Ok(y) && y.wf()
                && y.field_view().equiv(&self.field_view()) && y.values_view().len() == self.nrows()
                && forall|i: int| 0 <= i < self.nrows() ==> #[trigger] y.values_view()[i]
                    == row_dot(self.field_view(), self.values_view(), self.ncols(), i, vec.values_view(), self.ncols())),
    {
        if self.cols != vec.data.len() {
            return Err(GaloisError::ShapeMismatch { expected: vec![self.cols], actual: vec![vec.data.len()] });
        }
        let m = self.rows;
        let k = self.cols;
        let mut out: Vec<u64> = Vec::new();
        let mut i: usize = 0;
        while i < m
            invariant
                self.wf(),
                vec.wf(),
                same_field(self.field_view(), vec.field_view()),
                m == self.nrows(), k == self.ncols(), k == vec.values_view().len(),
                i <= m,
                out@.len() == i,
                all_below(out@, self.field.q()),
                forall|a: int| 0 <= a < i ==> #[trigger] out@[a]
                    == row_dot(self.field, self.data@, k as nat, a, vec.data@, k as nat),
            decreases m - i,
        {
            let mut sum: u64 = 0;
            let mut l: usize = 0;
            while l < k
                invariant
                    self.wf(),
                    vec.wf(),
                    same_field(self.field_view(), vec.field_view()),
                    m == self.nrows(), k == self.ncols(), k == vec.values_view().len(),
                    i < m,
                    l <= k,
                    sum < self.field.q(),
                    sum == row_dot(self.field, self.data@, k as nat, i as int, vec.data@, l as nat),
                decreases k - l,
            {
                proof { lemma_index(i as int, l as int, m as int, k as int); }
                let x = self.get(i, l);
                let prod = self.field.mul(x, vec.data[l]);
                sum = self.field.add(sum, prod);
                l = l + 1;
            }
            out.push(sum);
            i = i + 1;
        }
        let field = self.field.clone();
        proof { field.lemma_equiv_wf(&self.field); }
        Ok(FieldVector { field, data: out })
    }

    /// The transpose.
    pub fn transpose(&self) -> (r: Self)
        requires
            self.wf(),
        ensures
            r.wf(),
            r.field_view().equiv(&self.field_view()),
            r.nrows() == self.ncols(),
            r.ncols() == self.nrows(),
            forall|i: int, j: int| 0 <= i < self.nrows() && 0 <= j < self.ncols() ==> #[trigger] r.at(j, i) == self.at(i, j),
    {
        let rows = self.rows;
        let cols = self.cols;
        proof { assert(cols * rows == rows * cols) by (nonlinear_arith); }
        let mut out: Vec<u64> = Vec::new();
        let mut j: usize = 0;
        while j < cols
            invariant
                self.wf(),
                rows == self.nrows(), cols == self.ncols(),
                cols * rows == rows * cols,
                j <= cols,
                out@.len() == j * rows,
                all_below(out@, self.field.q()),
                forall|b: int, a: int| 0 <= b < j && 0 <= a < rows ==> #[trigger] out@[b * rows + a] == self.at(a, b),
            decreases cols - j,
        {
            let mut i: usize = 0;
            while i < rows
                invariant
                    self.wf(),
                    rows == self.nrows(), cols == self.ncols(),
                    cols * rows == rows * cols,
                    j < cols,
                    i <= rows,
                    out@.len() == j * rows + i,
                    all_below(out@, self.field.q()),
                    forall|b: int, a: int| 0 <= b < j && 0 <= a < rows ==> #[trigger] out@[b * rows + a] == self.at(a, b),
                    forall|a: int| 0 <= a < i ==> #[trigger] out@[j * rows + a] == self.at(a, j as int),
                decreases rows - i,
            {
                proof { lemma_index(i as int, j as int, rows as int, cols as int); }
                let v = self.get(i, j);
                proof {
                    lemma_index(j as int, i as int, cols as int, rows as int);
                    assert forall|a: int| 0 <= a < i + 1 implies #[trigger] out@.push(v)[j * rows + a] == self.at(a, j as int) by {
                        lemma_index(j as int, a, cols as int, rows as int);
                    }
                    assert forall|b: int, a: int| 0 <= b < j && 0 <= a < rows implies #[trigger] out@.push(v)[b * rows + a] == self.at(a, b) by {
                        lemma_index(b, a, j as int, rows as int);
                    }
                }
                out.push(v);
                i = i + 1;
            }
            proof { assert((j + 1) * rows == j * rows + rows) by (nonlinear_arith); }
            j = j + 1;
        }
        let field = self.field.clone();
        proof { field.lemma_equiv_wf(&self.field); }
        FieldMatrix { field, rows: cols, cols: rows, data: out }
    }
}

/// Distinct row-major positions come from distinct entries.
pub proof fn lemma_index_unique(i: int, j: int, i2: int, j2: int, cols: int)
    requires
        0 <= i,
        0 <= i2,
        0 <= j < cols,
        0 <= j2 < cols,
        i * cols + j == i2 * cols + j2,
    ensures
        i == i2,
        j == j2,
{
    vstd::arithmetic::div_mod::lemma_fundamental_div_mod_converse(i * cols + j, cols, i, j);
    vstd::arithmetic::div_mod::lemma_fundamental_div_mod_converse(i2 * cols + j2, cols, i2, j2);
}

/// Entry `(i, j)` of the row-major matrix `w` with rows `r1` and `r2` exchanged.
pub open spec fn row_swapped<T>(w: Seq<T>, cols: nat, r1: int, r2: int, i: int, j: int) -> T {
    if i == r1 {
        w[r2 * cols + j]
    } else if i == r2 {
        w[r1 * cols + j]
    } else {
        w[i * cols + j]
    }
}

/// Entry `(i, j)` of the row-major matrix `w` with the entries of row `r` from column
/// `start` on multiplied by `s`.
pub open spec fn row_scaled(field: GaloisField, w: Seq<u64>, cols: nat, r: int, start: int, s: u64, i: int, j: int) -> nat {
    if i == r && j >= start {
        field.mul_spec(w[i * cols + j] as nat, s as nat)
    } else {
        w[i * cols + j] as nat
    }
}

/// Entry `(i, j)` of the row-major matrix `w` after subtracting `factor` times row `p` from
/// row `r`, from column `start` on.
pub open spec fn row_eliminated(field: GaloisField, w: Seq<u64>, cols: nat, r: int, p: int, start: int, factor: u64,
    i: int, j: int) -> nat {
    if i == r && j >= start {
        field.sub_spec(w[i * cols + j] as nat, field.mul_spec(factor as nat, w[p * cols + j] as nat))
    } else {
        w[i * cols + j] as nat
    }
}

/// The first row from `from` on, below `rows`, whose entry in column `col` is nonzero;
/// `rows` when there is none.
pub open spec fn first_nonzero(w: Seq<u64>, rows: nat, cols: nat, from: nat, col: nat) -> nat
    decreases rows - from,
{
    if from >= rows {
        rows
    } else if w[(from * cols + col) as int] != 0 {
        from
    } else {
        first_nonzero(w, rows, cols, from + 1, col)
    }
}

/// Row `i` and column `j` of a `rows x cols` matrix sit at `i * cols + j`.
pub proof fn lemma_rc_index(i: int, j: int, rows: int, cols: int)
    requires
        0 <= i < rows,
        0 <= j < cols,
    ensures
        0 <= i * cols + j < rows * cols,
        (i * cols + j) / cols == i,
        (i * cols + j) % cols == j,
{
    lemma_index(i, j, rows, cols);
    vstd::arithmetic::div_mod::lemma_fundamental_div_mod_converse(i * cols + j, cols, i, j);
}

/// Two `rows x cols` matrices with equal entries are equal.
pub proof fn lemma_rc_eq<T>(s: Seq<T>, t: Seq<T>, rows: nat, cols: nat)
    requires
        s.len() == rows * cols,
        t.len() == rows * cols,
        forall|i: int, j: int| 0 <= i < rows && 0 <= j < cols ==> #[trigger] s[i * cols + j] == t[i * cols + j],
    ensures
        s == t,
{
    assert forall|k: int| 0 <= k < s.len() implies s[k] == t[k] by {
        let i = k / (cols as int);
        let j = k % (cols as int);
        assert(cols > 0) by (nonlinear_arith) requires 0 <= k < rows * cols;
        vstd::arithmetic::div_mod::lemma_fundamental_div_mod(k, cols as int);
        assert(0 <= i < rows) by (nonlinear_arith) requires 0 <= k < rows * cols, i == k / (cols as int), cols > 0;
        assert(k == i * cols + j) by (nonlinear_arith)
            requires k == (cols as int) * (k / (cols as int)) + k % (cols as int), i == k / (cols as int), j == k % (cols as int);
        assert(s[i * cols + j] == t[i * cols + j]);
    }
    assert(s =~= t);
}

/// The matrix with rows `r1` and `r2` exchanged.
pub open spec fn swap_mat(w: Seq<u64>, rows: nat, cols: nat, r1: int, r2: int) -> Seq<u64> {
    Seq::new(rows * cols, |k: int| row_swapped(w, cols, r1, r2, k / (cols as int), k % (cols as int)))
}

/// The matrix with row `r` multiplied by `s` from column `start` on.
pub open spec fn scale_mat(f: GaloisField, w: Seq<u64>, rows: nat, cols: nat, r: int, start: int, s: u64) -> Seq<u64> {
    Seq::new(rows * cols, |k: int| row_scaled(f, w, cols, r, start, s, k / (cols as int), k % (cols as int)) as u64)
}

/// Entry `(i, j)` after clearing column `pc` against pivot row `pr`: rows other than `pr`
/// with a nonzero entry in column `pc` have that multiple of row `pr` subtracted from
/// column `pc` on.
pub open spec fn cleared_entry(f: GaloisField, w: Seq<u64>, cols: nat, pr: int, pc: int, start: int, i: int, j: int) -> u64 {
    if i != pr && w[i * cols + pc] != 0 {
        row_eliminated(f, w, cols, i, pr, start, w[i * cols + pc], i, j) as u64
    } else {
        w[i * cols + j]
    }
}

/// The matrix with column `pc` cleared against pivot row `pr`, the subtraction made from
/// column `start` on.
pub open spec fn clear_mat(f: GaloisField, w: Seq<u64>, rows: nat, cols: nat, pr: int, pc: int, start: int) -> Seq<u64> {
    Seq::new(rows * cols, |k: int| cleared_entry(f, w, cols, pr, pc, start, k / (cols as int), k % (cols as int)))
}

/// One pass of Gauss-Jordan elimination at `(pr, pc)`: the first row from `pr` on with a
/// nonzero entry in column `pc` is swapped into row `pr`, that row is scaled to a leading
/// one, and column `pc` is cleared in every other row. The pivot position moves on, or only
/// the column when there is no pivot.
pub open spec fn ref_step(f: GaloisField, w: Seq<u64>, rows: nat, cols: nat, pr: nat, pc: nat) -> (Seq<u64>, nat, nat) {
    let pv = first_nonzero(w, rows, cols, pr, pc);
    if pv == rows {
        (w, pr, pc + 1)
    } else {
        let w1 = if pv != pr { swap_mat(w, rows, cols, pr as int, pv as int) } else { w };
        let inv = f.div_spec(1, w1[(pr * cols + pc) as int] as nat);
        let w2 = scale_mat(f, w1, rows, cols, pr as int, pc as int, inv as u64);
        (clear_mat(f, w2, rows, cols, pr as int, pc as int, pc as int), pr + 1, pc + 1)
    }
}

/// One column of Gauss-Jordan solving of `w x = rhs` at `col`: the pivot row is found (from
/// `col` on), swapped into row `col` together with its right-hand side, scaled to a
/// leading one (the whole row and its right-hand side), and column `col` is cleared in
/// every other row with the right-hand side updated alike; `None` without a pivot.
pub open spec fn solve_step(f: GaloisField, w: Seq<u64>, x: Seq<u64>, n: nat, col: nat) -> Option<(Seq<u64>, Seq<u64>)> {
    let pv = first_nonzero(w, n, n, col, col);
    if pv == n {
        None
    } else {
        let inv = f.div_spec(1, w[(pv * n + col) as int] as nat);
        let w1 = if pv != col { swap_mat(w, n, n, col as int, pv as int) } else { w };
        let x1 = if pv != col { x.update(col as int, x[pv as int]).update(pv as int, x[col as int]) } else { x };
        let w2 = scale_mat(f, w1, n, n, col as int, 0, inv as u64);
        let x2 = x1.update(col as int, f.mul_spec(x1[col as int] as nat, inv) as u64);
        let w3 = clear_mat(f, w2, n, n, col as int, col as int, 0);
        let x3 = Seq::new(n, |i: int| if i != col && w2[i * n + col] != 0 {
            f.sub_spec(x2[i] as nat, f.mul_spec(w2[i * n + col] as nat, x2[col as int] as nat)) as u64
        } else {
            x2[i]
        });
        Some((w3, x3))
    }
}

/// Gauss-Jordan solving from column `col` on: the right-hand side at the end, or `None`
/// when a column has no pivot.
pub open spec fn solve_loop(f: GaloisField, w: Seq<u64>, x: Seq<u64>, n: nat, col: nat) -> Option<Seq<u64>>
    decreases n - col,
{
    if col >= n {
        Some(x)
    } else {
        match solve_step(f, w, x, n, col) {
            None => None,
            Some((w2, x2)) => solve_loop(f, w2, x2, n, col + 1),
        }
    }
}

/// Gauss-Jordan elimination from the pivot position `(pr, pc)` on: the reduced matrix and
/// the number of pivot rows.
pub open spec fn ref_loop(f: GaloisField, w: Seq<u64>, rows: nat, cols: nat, pr: nat, pc: nat) -> (Seq<u64>, nat)
    decreases cols - pc,
{
    if pr < rows && pc < cols {
        let (w2, pr2, pc2) = ref_step(f, w, rows, cols, pr, pc);
        ref_loop(f, w2, rows, cols, pr2, pc2)
    } else {
        (w, pr)
    }
}

/// The determinant accumulated by Gaussian elimination of the `n x n` matrix `w` from
/// column `col` on, `acc` being what the earlier columns gave: zero when a column has no
/// pivot, otherwise negated at a row swap and multiplied by the pivot, the matrix then
/// reduced as by `ref_step`.
pub open spec fn det_loop(f: GaloisField, w: Seq<u64>, n: nat, col: nat, acc: nat) -> nat
    decreases n - col,
{
    if col >= n {
        acc
    } else {
        let pv = first_nonzero(w, n, n, col, col);
        if pv == n {
            0
        } else {
            let acc1 = if pv != col { f.neg_spec(acc) } else { acc };
            let acc2 = f.mul_spec(acc1, w[(pv * n + col) as int] as nat);
            det_loop(f, ref_step(f, w, n, n, col, col).0, n, col + 1, acc2)
        }
    }
}

/// `first_nonzero` lies between `from` and `rows`, and below `rows` it is a nonzero entry.
pub proof fn lemma_first_nonzero(w: Seq<u64>, rows: nat, cols: nat, from: nat, col: nat)
    requires
        from <= rows,
    ensures
        from <= first_nonzero(w, rows, cols, from, col) <= rows,
        first_nonzero(w, rows, cols, from, col) < rows
            ==> w[(first_nonzero(w, rows, cols, from, col) * cols + col) as int] != 0,
    decreases rows - from,
{
    if from < rows && w[(from * cols + col) as int] == 0 {
        lemma_first_nonzero(w, rows, cols, from + 1, col);
    }
}

/// In GF(p) negation and multiplication are the residues of `p - a` and `a b`.
pub proof fn lemma_prime_field_ops(p: nat, f: Seq<u64>, a: nat, b: nat)
    requires
        2 <= p <= u64::MAX,
    ensures
        gf_neg(a, p, 1) == (p - a % p) % (p as int),
        gf_mul(a, b, p, 1, f) == (a * b) % p,
{
    crate::arith::lemma_npow_zero(p);
    let s = crate::field::model::op_digits(a, 0, p, 1, 2);
    assert(a / 1nat == a);
    assert(0nat / 1nat == 0);
    assert(crate::field::model::digit(a, p, 0) == a % p);
    assert(crate::field::model::digit(0, p, 0) == 0);
    assert(s[0] as nat == ((p - a % p) % (p as int)) as nat);
    assert(s.drop_last() =~= Seq::<u64>::empty());
    assert(crate::field::model::from_digits(s.drop_last(), p) == 0);
}

/// In GF(p), `(-a) b = -(a b)`, and `-0 = 0`.
pub proof fn lemma_prime_neg_mul(p: nat, f: Seq<u64>, a: nat, b: nat)
    requires
        2 <= p <= u64::MAX,
    ensures
        gf_mul(gf_neg(a, p, 1), b, p, 1, f) == gf_neg(gf_mul(a, b, p, 1, f), p, 1),
        gf_neg(0, p, 1) == 0,
{
    let pi = p as int;
    lemma_prime_field_ops(p, f, a, b);
    lemma_prime_field_ops(p, f, 0, b);
    let na = gf_neg(a, p, 1);
    lemma_prime_field_ops(p, f, na, b);
    let ab = gf_mul(a, b, p, 1, f);
    lemma_prime_field_ops(p, f, ab, b);
    vstd::arithmetic::div_mod::lemma_mod_self_0(pi);
    let aa = (a % p) as int;
    vstd::arithmetic::div_mod::lemma_mod_bound(a as int, pi);
    vstd::arithmetic::div_mod::lemma_mul_mod_noop_left(a as int, b as int, pi);
    vstd::arithmetic::div_mod::lemma_mul_mod_noop_left(pi - aa, b as int, pi);
    let r = (aa * b) % pi;
    vstd::arithmetic::div_mod::lemma_fundamental_div_mod(aa * b, pi);
    let k = (aa * b) / pi;
    assert((pi - aa) * b == pi * (b - k - 1) + (pi - r)) by (nonlinear_arith)
        requires aa * b == pi * k + r;
    vstd::arithmetic::div_mod::lemma_mod_multiples_vanish(b - k - 1, pi - r, pi);
    vstd::arithmetic::div_mod::lemma_mod_bound(aa * b, pi);
    vstd::arithmetic::div_mod::lemma_small_mod(ab, p);
    assert(ab as int == r);
}

/// In a prime field, negating the determinant accumulated so far negates the result.
pub proof fn lemma_det_loop_neg(f: GaloisField, w: Seq<u64>, n: nat, col: nat, x: nat)
    requires
        f.wf(),
        f.m() == 1,
    ensures
        det_loop(f, w, n, col, f.neg_spec(x)) == f.neg_spec(det_loop(f, w, n, col, x)),
    decreases n - col,
{
    f.lemma_params_fit();
    lemma_prime_neg_mul(f.p(), f.f(), 0, 0);
    if col < n {
        let pv = first_nonzero(w, n, n, col, col);
        if pv != n {
            let v = w[(pv * n + col) as int] as nat;
            let acc1 = if pv != col { f.neg_spec(x) } else { x };
            lemma_prime_neg_mul(f.p(), f.f(), acc1, v);
            lemma_det_loop_neg(f, ref_step(f, w, n, n, col, col).0, n, col + 1, f.mul_spec(acc1, v));
        }
    }
}

/// At any column `c` of the elimination, exchanging row `c` (zero in column `c`) with the
/// row of the first nonzero entry below it in column `c` negates what the remaining
/// columns give (in a prime field).
pub proof fn lemma_det_step_swap(f: GaloisField, w: Seq<u64>, n: nat, c: nat, k: nat, x: nat)
    requires
        f.wf(),
        f.m() == 1,
        c < n,
        w.len() == n * n,
        w[(c * n + c) as int] == 0,
        k == first_nonzero(w, n, n, c, c),
        k < n,
    ensures
        det_loop(f, w, n, c, x) == f.neg_spec(det_loop(f, swap_mat(w, n, n, c as int, k as int), n, c, x)),
{
    f.lemma_params_fit();
    let b = swap_mat(w, n, n, c as int, k as int);
    assert(first_nonzero(w, n, n, c, c) == first_nonzero(w, n, n, c + 1, c));
    lemma_first_nonzero(w, n, n, c + 1, c);
    assert(k != c);
    lemma_rc_index(k as int, c as int, n as int, n as int);
    lemma_rc_index(c as int, c as int, n as int, n as int);
    assert(b[(c * n + c) as int] == w[(k * n + c) as int]);
    assert(b[(c * n + c) as int] != 0);
    assert(first_nonzero(b, n, n, c, c) == c);
    let v = w[(k * n + c) as int] as nat;
    assert(ref_step(f, w, n, n, c, c).0 == ref_step(f, b, n, n, c, c).0);
    crate::linalg::lemma_prime_neg_mul(f.p(), f.f(), x, v);
    lemma_det_loop_neg(f, ref_step(f, b, n, n, c, c).0, n, c + 1, f.mul_spec(x, v));
}

/// Over a prime field, swapping the first row with the row of the first nonzero entry of
/// the first column (when the first row has a zero there) negates the determinant.
pub proof fn law_det_row_swap(f: GaloisField, w: Seq<u64>, n: nat, k: nat)
    requires
        f.wf(),
        f.m() == 1,
        n >= 1,
        w.len() == n * n,
        w[0] == 0,
        k == first_nonzero(w, n, n, 0, 0),
        k < n,
    ensures
        det_loop(f, w, n, 0, 1) == f.neg_spec(det_loop(f, swap_mat(w, n, n, 0, k as int), n, 0, 1)),
{
    lemma_rc_index(0, 0, n as int, n as int);
    lemma_det_step_swap(f, w, n, 0, k, 1);
}

/// Swaps rows `r1` and `r2` of a row-major `rows x cols` matrix of elements.
fn swap_rows(w: &mut Vec<u64>, rows: usize, cols: usize, r1: usize, r2: usize, field: &GaloisField)
    requires
        old(w)@.len() == rows * cols,
        all_below(old(w)@, field.q()),
        r1 < rows,
        r2 < rows,
    ensures
        final(w)@.len() == old(w)@.len(),
        all_below(final(w)@, field.q()),
        forall|i: int, j: int| 0 <= i < rows && 0 <= j < cols ==> #[trigger] final(w)@[i * cols + j]
            == row_swapped(old(w)@, cols as nat, r1 as int, r2 as int, i, j),
{
    let ghost w0 = w@;
    let mut j: usize = 0;
    while j < cols
        invariant
            w@.len() == rows * cols,
            w0.len() == rows * cols,
            all_below(w@, field.q()),
            r1 < rows,
            r2 < rows,
            j <= cols,
            forall|i: int, j2: int| 0 <= i < rows && 0 <= j2 < cols ==> #[trigger] w@[i * cols + j2]
                == if j2 < j { row_swapped(w0, cols as nat, r1 as int, r2 as int, i, j2) } else { w0[i * cols + j2] },
        decreases cols - j,
    {
        let a = idx(r1, j, rows, cols, w.len());
        let b = idx(r2, j, rows, cols, w.len());
        let ghost before = w@;
        let tmp = w[a];
        let other = w[b];
        w.set(a, other);
        w.set(b, tmp);
        proof {
            assert(before[a as int] == w0[a as int]);
            assert(before[b as int] == w0[b as int]);
            assert forall|i: int, j2: int| 0 <= i < rows && 0 <= j2 < cols implies #[trigger] w@[i * cols + j2]
                == if j2 < j + 1 { row_swapped(w0, cols as nat, r1 as int, r2 as int, i, j2) } else { w0[i * cols + j2] } by {
                lemma_index(i, j2, rows as int, cols as int);
                let k = i * cols + j2;
                if k == b as int {
                    lemma_index_unique(i, j2, r2 as int, j as int, cols as int);
                } else if k == a as int {
                    lemma_index_unique(i, j2, r1 as int, j as int, cols as int);
                } else {
                    assert(w@[k] == before[k]);
                    if j2 == j {
                        if i == r1 {
                            assert(k == a);
                        }
                        if i == r2 {
                            assert(k == b);
                        }
                    }
                }
            }
            assert forall|k: int| 0 <= k < w@.len() implies (#[trigger] w@[k]) < field.q() by {
                if k != a && k != b {
                    assert(w@[k] == before[k]);
                }
            }
        }
        j = j + 1;
    }
}

/// Multiplies the entries of row `r` from column `start` on by `s`.
fn scale_row(w: &mut Vec<u64>, rows: usize, cols: usize, r: usize, start: usize, s: u64, field: &GaloisField)
    requires
        field.wf(),
        old(w)@.len() == rows * cols,
        all_below(old(w)@, field.q()),
        r < rows,
        s < field.q(),
    ensures
        final(w)@.len() == old(w)@.len(),
        all_below(final(w)@, field.q()),
        forall|i: int, j: int| 0 <= i < rows && 0 <= j < cols ==> #[trigger] final(w)@[i * cols + j]
            == row_scaled(*field, old(w)@, cols as nat, r as int, start as int, s, i, j),
{
    let ghost w0 = w@;
    let mut j: usize = start;
    while j < cols
        invariant
            field.wf(),
            w@.len() == rows * cols,
            w0.len() == rows * cols,
            all_below(w@, field.q()),
            r < rows,
            s < field.q(),
            start <= j,
            forall|i: int, j2: int| 0 <= i < rows && 0 <= j2 < cols ==> #[trigger] w@[i * cols + j2]
                == if j2 < j { row_scaled(*field, w0, cols as nat, r as int, start as int, s, i, j2) } else { w0[i * cols + j2] as nat },
        decreases cols - j,
    {
        let a = idx(r, j, rows, cols, w.len());
        let ghost before = w@;
        assert(before[a as int] == w0[a as int]);
        let v = field.mul(w[a], s);
        w.set(a, v);
        proof {
            assert forall|i: int, j2: int| 0 <= i < rows && 0 <= j2 < cols implies #[trigger] w@[i * cols + j2]
                == if j2 < j + 1 { row_scaled(*field, w0, cols as nat, r as int, start as int, s, i, j2) } else { w0[i * cols + j2] as nat } by {
                lemma_index(i, j2, rows as int, cols as int);
                let k = i * cols + j2;
                if k == a as int {
                    lemma_index_unique(i, j2, r as int, j as int, cols as int);
                } else {
                    assert(w@[k] == before[k]);
                    if j2 == j && i == r {
                        assert(k == a);
                    }
                }
            }
            assert forall|k: int| 0 <= k < w@.len() implies (#[trigger] w@[k]) < field.q() by {
                if k != a {
                    assert(w@[k] == before[k]);
                }
            }
        }
        j = j + 1;
    }
    proof {
        assert forall|i: int, j2: int| 0 <= i < rows && 0 <= j2 < cols implies #[trigger] w@[i * cols + j2]
            == row_scaled(*field, w0, cols as nat, r as int, start as int, s, i, j2) by {
            if j2 < start {
            }
        }
    }
}

/// Subtracts `factor` times row `p` from row `r`, from column `start` on.
fn eliminate_row(w: &mut Vec<u64>, rows: usize, cols: usize, r: usize, p: usize, start: usize, factor: u64, field: &GaloisField)
    requires
        field.wf(),
        old(w)@.len() == rows * cols,
        all_below(old(w)@, field.q()),
        r < rows,
        p < rows,
        factor < field.q(),
    ensures
        final(w)@.len() == old(w)@.len(),
        all_below(final(w)@, field.q()),
        forall|i: int, j: int| 0 <= i < rows && 0 <= j < cols ==> #[trigger] final(w)@[i * cols + j]
            == row_eliminated(*field, old(w)@, cols as nat, r as int, p as int, start as int, factor, i, j),
{
    let ghost w0 = w@;
    let mut j: usize = start;
    while j < cols
        invariant
            field.wf(),
            w@.len() == rows * cols,
            w0.len() == rows * cols,
            all_below(w@, field.q()),
            r < rows,
            p < rows,
            factor < field.q(),
            start <= j,
            forall|i: int, j2: int| 0 <= i < rows && 0 <= j2 < cols ==> #[trigger] w@[i * cols + j2]
                == if j2 < j { row_eliminated(*field, w0, cols as nat, r as int, p as int, start as int, factor, i, j2) }
                    else { w0[i * cols + j2] as nat },
        decreases cols - j,
    {
        let a = idx(r, j, rows, cols, w.len());
        let b = idx(p, j, rows, cols, w.len());
        let ghost before = w@;
        assert(before[a as int] == w0[a as int]);
        assert(before[b as int] == w0[b as int]);
        let t = field.mul(factor, w[b]);
        let v = field.sub(w[a], t);
        w.set(a, v);
        proof {
            assert forall|i: int, j2: int| 0 <= i < rows && 0 <= j2 < cols implies #[trigger] w@[i * cols + j2]
                == if j2 < j + 1 { row_eliminated(*field, w0, cols as nat, r as int, p as int, start as int, factor, i, j2) }
                    else { w0[i * cols + j2] as nat } by {
                lemma_index(i, j2, rows as int, cols as int);
                let k = i * cols + j2;
                if k == a as int {
                    lemma_index_unique(i, j2, r as int, j as int, cols as int);
                } else {
                    assert(w@[k] == before[k]);
                    if j2 == j && i == r {
                        assert(k == a);
                    }
                }
            }
            assert forall|k: int| 0 <= k < w@.len() implies (#[trigger] w@[k]) < field.q() by {
                if k != a {
                    assert(w@[k] == before[k]);
                }
            }
        }
        j = j + 1;
    }
    proof {
        assert forall|i: int, j2: int| 0 <= i < rows && 0 <= j2 < cols implies #[trigger] w@[i * cols + j2]
            == row_eliminated(*field, w0, cols as nat, r as int, p as int, start as int, factor, i, j2) by {
            if j2 < start {
            }
        }
    }
}

/// The first row from `from` on whose entry in column `col` is nonzero, or `rows`.
fn find_pivot(w: &Vec<u64>, rows: usize, cols: usize, from: usize, col: usize) -> (r: usize)
    requires
        w@.len() == rows * cols,
        col < cols,
    ensures
        from <= rows ==> from <= r <= rows,
        from > rows ==> r == from,
        r < rows ==> w@[r * cols + col] != 0,
        from <= rows ==> r == first_nonzero(w@, rows as nat, cols as nat, from as nat, col as nat),
{
    let mut pivot = from;
    while pivot < rows
        invariant
            w@.len() == rows * cols,
            col < cols,
            from <= pivot,
            from <= rows ==> pivot <= rows,
            from > rows ==> pivot == from,
            from <= rows ==> first_nonzero(w@, rows as nat, cols as nat, from as nat, col as nat)
                == first_nonzero(w@, rows as nat, cols as nat, pivot as nat, col as nat),
        decreases rows - pivot,
    {
        let a = idx(pivot, col, rows, cols, w.len());
        if w[a] != 0 {
            return pivot;
        }
        pivot = pivot + 1;
    }
    pivot
}

/// The matrix-vector product of `A` and `x` is `b`.
pub open spec fn solves(a: &FieldMatrix, x: Seq<u64>, b: Seq<u64>) -> bool {
    &&& x.len() == a.ncols()
    &&& b.len() == a.nrows()
    &&& forall|i: int| 0 <= i < a.nrows() ==> #[trigger] row_dot(a.field_view(), a.values_view(), a.ncols(), i, x, a.ncols()) == b[i]
}

impl FieldMatrix {
    /// Whether `self x = b`, entry by entry.
    fn check_solution(&self, x: &FieldVector, b: &FieldVector) -> (r: bool)
        requires
            self.wf(),
            x.wf(),
            b.wf(),
            same_field(self.field_view(), x.field_view()),
            x.values_view().len() == self.ncols(),
            b.values_view().len() == self.nrows(),
        ensures
            r == solves(self, x.values_view(), b.values_view()),
    {
        let y = match self.mul_vec(x) {
            Ok(y) => y,
            Err(_) => { return false; },
        };
        let mut i: usize = 0;
        while i < self.rows
            invariant
                i <= self.nrows(),
                y.values_view().len() == self.nrows(),
                b.values_view().len() == self.nrows(),
                forall|t: int| 0 <= t < self.nrows() ==> #[trigger] y.values_view()[t]
                    == row_dot(self.field_view(), self.values_view(), self.ncols(), t, x.values_view(), self.ncols()),
                forall|t: int| 0 <= t < i ==> #[trigger] y.values_view()[t] == b.values_view()[t],
            decreases self.nrows() - i,
        {
            if y.data[i] != b.data[i] {
                assert(row_dot(self.field_view(), self.values_view(), self.ncols(), i as int, x.values_view(), self.ncols()) != b.values_view()[i as int]);
                return false;
            }
            i = i + 1;
        }
        assert forall|t: int| 0 <= t < self.nrows() implies #[trigger] row_dot(self.field_view(), self.values_view(),
            self.ncols(), t, x.values_view(), self.ncols()) == b.values_view()[t] by {
            assert(y.values_view()[t] == b.values_view()[t]);
        }
        true
    }

    /// Solves `A x = b` by Gauss-Jordan elimination: `ShapeMismatch` (rows, length of `b`)
    /// unless `A` is square with as many rows as `b` has entries; `SingularMatrix` when
    /// elimination finds no pivot. A returned `x` satisfies `A x = b`.
    pub fn solve(&self, b: &FieldVector) -> (r: Result<FieldVector>)
        requires
            self.wf(),
            b.wf(),
            same_field(self.field_view(), b.field_view()),
        ensures
            (self.nrows() != self.ncols() || self.nrows() != b.values_view().len()) ==>
                (r matches Err(GaloisError::ShapeMismatch { expected, actual })
                && expected@ == seq![self.nrows() as usize] && actual@ == seq![b.values_view().len() as usize]),
            (self.nrows() == self.ncols() && self.nrows() == b.values_view().len()) ==> match r {
                Ok(x) => x.wf() && x.field_view().equiv(&self.field_view())
                    && solves(self, x.values_view(), b.values_view()),
                Err(e) => e == GaloisError::SingularMatrix,
            },
            (self.nrows() == self.ncols() && self.nrows() == b.values_view().len()) ==>
                match solve_loop(self.field_view(), self.values_view(), b.values_view(), self.nrows(), 0) {
                    None => r == Err::<FieldVector, GaloisError>(GaloisError::SingularMatrix),
                    Some(x) => if solves(self, x, b.values_view()) {
                        r matches Ok(v) && v.values_view() == x
                    } else {
                        r == Err::<FieldVector, GaloisError>(GaloisError::SingularMatrix)
                    },
                },
    {
        if self.rows != self.cols || self.rows != b.data.len() {
            return Err(GaloisError::ShapeMismatch { expected: vec![self.rows], actual: vec![b.data.len()] });
        }
        let n = self.rows;
        let field = &self.field;
        let mut aug = self.data.clone();
        let mut rhs = b.data.clone();
        assert(aug@ =~= self.data@);
        assert(rhs@ =~= b.data@);
        let ghost f = self.field_view();
        let ghost nn = n as nat;
        let ghost target = solve_loop(f, self.values_view(), b.values_view(), nn, 0);
        let mut col: usize = 0;
        while col < n
            invariant
                field.wf(),
                *field == f,
                f == self.field_view(),
                nn == n as nat,
                n == self.nrows(),
                n == self.ncols(),
                n == b.values_view().len(),
                aug@.len() == n * n,
                rhs@.len() == n,
                all_below(aug@, field.q()),
                all_below(rhs@, field.q()),
                col <= n,
                target == solve_loop(f, self.values_view(), b.values_view(), nn, 0),
                solve_loop(f, aug@, rhs@, nn, col as nat) == target,
            decreases n - col,
        {
            let ghost (w0, x0) = (aug@, rhs@);
            let ghost c = col as nat;
            let pivot = find_pivot(&aug, n, n, col, col);
            if pivot == n {
                assert(solve_step(f, w0, x0, nn, c) is None);
                return Err(GaloisError::SingularMatrix);
            }
            let ghost pv = pivot as nat;
            let d = idx(pivot, col, n, n, aug.len());
            proof { field.lemma_q_ge_2(); }
            let inv = match field.div(1, aug[d]) {
                Ok(v) => v,
                Err(e) => { return Err(e); },
            };
            if pivot != col {
                swap_rows(&mut aug, n, n, col, pivot, field);
                let tmp = rhs[col];
                let other = rhs[pivot];
                rhs.set(col, other);
                rhs.set(pivot, tmp);
                proof {
                    assert forall|i: int, j: int| 0 <= i < nn && 0 <= j < nn implies #[trigger] aug@[i * nn + j]
                        == swap_mat(w0, nn, nn, c as int, pv as int)[i * nn + j] by {
                        lemma_rc_index(i, j, nn as int, nn as int);
                    }
                    lemma_rc_eq(aug@, swap_mat(w0, nn, nn, c as int, pv as int), nn, nn);
                    assert(rhs@ =~= x0.update(c as int, x0[pv as int]).update(pv as int, x0[c as int]));
                }
            }
            let ghost (w1, x1) = (aug@, rhs@);
            scale_row(&mut aug, n, n, col, 0, inv, field);
            proof {
                assert forall|i: int, j: int| 0 <= i < nn && 0 <= j < nn implies #[trigger] aug@[i * nn + j]
                    == scale_mat(f, w1, nn, nn, c as int, 0, inv)[i * nn + j] by {
                    lemma_rc_index(i, j, nn as int, nn as int);
                }
                lemma_rc_eq(aug@, scale_mat(f, w1, nn, nn, c as int, 0, inv), nn, nn);
            }
            let scaled = field.mul(rhs[col], inv);
            rhs.set(col, scaled);
            let ghost (w2, x2) = (aug@, rhs@);
            let mut row: usize = 0;
            while row < n
                invariant
                    field.wf(),
                    *field == f,
                    n == self.nrows(),
                    nn == n as nat,
                    aug@.len() == n * n,
                    rhs@.len() == n,
                    w2.len() == n * n,
                    x2.len() == n,
                    all_below(aug@, field.q()),
                    all_below(rhs@, field.q()),
                    col < n,
                    c == col as nat,
                    row <= n,
                    forall|i: int, j: int| 0 <= i < nn && 0 <= j < nn ==> #[trigger] aug@[i * nn + j]
                        == if i < row { cleared_entry(f, w2, nn, c as int, c as int, 0, i, j) } else { w2[i * nn + j] },
                    forall|i: int| 0 <= i < nn ==> #[trigger] rhs@[i] == if i < row && i != c && w2[i * nn + c] != 0 {
                        f.sub_spec(x2[i] as nat, f.mul_spec(w2[i * nn + c] as nat, x2[c as int] as nat)) as u64
                    } else { x2[i] },
                decreases n - row,
            {
                let ghost mb = aug@;
                let ghost xb = rhs@;
                if row != col {
                    let f_at = idx(row, col, n, n, aug.len());
                    let factor = aug[f_at];
                    assert(factor == w2[(row * nn + c) as int]);
                    if factor != 0 {
                        eliminate_row(&mut aug, n, n, row, col, 0, factor, field);
                        proof {
                            assert forall|i: int, j: int| 0 <= i < nn && 0 <= j < nn implies #[trigger] aug@[i * nn + j]
                                == if i < row + 1 { cleared_entry(f, w2, nn, c as int, c as int, 0, i, j) } else { w2[i * nn + j] } by {
                                assert(mb[i * nn + j] == if i < row { cleared_entry(f, w2, nn, c as int, c as int, 0, i, j) } else { w2[i * nn + j] });
                                if i == row as int {
                                    assert(mb[(c as int) * nn + j] == w2[(c as int) * nn + j]);
                                }
                            }
                        }
                        assert(rhs@[col as int] == x2[c as int]);
                        let t = field.mul(factor, rhs[col]);
                        let v = field.sub(rhs[row], t);
                        rhs.set(row, v);
                    }
                }
                row = row + 1;
            }
            proof {
                assert forall|i: int, j: int| 0 <= i < nn && 0 <= j < nn implies #[trigger] aug@[i * nn + j]
                    == clear_mat(f, w2, nn, nn, c as int, c as int, 0)[i * nn + j] by {
                    lemma_rc_index(i, j, nn as int, nn as int);
                }
                lemma_rc_eq(aug@, clear_mat(f, w2, nn, nn, c as int, c as int, 0), nn, nn);
                let x3 = Seq::new(nn, |i: int| if i != c && w2[i * nn + c] != 0 {
                    f.sub_spec(x2[i] as nat, f.mul_spec(w2[i * nn + c] as nat, x2[c as int] as nat)) as u64
                } else {
                    x2[i]
                });
                assert(rhs@ =~= x3);
                assert(solve_step(f, w0, x0, nn, c) == Some((aug@, rhs@)));
            }
            col = col + 1;
        }
        let fc = self.field.clone();
        proof { fc.lemma_equiv_wf(&self.field); }
        let x = FieldVector { field: fc, data: rhs };
        if !self.check_solution(&x, b) {
            return Err(GaloisError::SingularMatrix);
        }
        Ok(x)
    }
}

/// The `n`-entry unit vector with a one at position `c`.
pub open spec fn unit_vector(n: nat, c: int) -> Seq<u64> {
    Seq::new(n, |i: int| if i == c { 1u64 } else { 0u64 })
}

/// Products with a matrix read column `j` of `b` like the vector holding that column.
pub proof fn lemma_dot_column(f: GaloisField, a: Seq<u64>, acols: nat, b: Seq<u64>, bcols: nat, i: int, j: int, x: Seq<u64>, k: nat)
    requires
        forall|l: int| 0 <= l < k ==> #[trigger] b[l * bcols + j] == x[l],
    ensures
        dot_prefix(f, a, acols, b, bcols, i, j, k) == row_dot(f, a, acols, i, x, k),
    decreases k,
{
    if k > 0 {
        lemma_dot_column(f, a, acols, b, bcols, i, j, x, (k - 1) as nat);
        assert(b[(k - 1) * bcols + j] == x[k - 1]);
    }
}

impl FieldMatrix {
    /// The inverse, solved column by column: `ShapeMismatch` (`[rows, rows]`, shape) for a
    /// matrix that is not square, `SingularMatrix` when a column cannot be solved. The
    /// product of the matrix and a returned inverse is the identity.
    pub fn inverse(&self) -> (r: Result<Self>)
        requires
            self.wf(),
            self.nrows() * self.nrows() <= usize::MAX,
        ensures
            self.nrows() != self.ncols() ==> (r matches Err(GaloisError::ShapeMismatch { expected, actual })
                && expected@ == seq![self.nrows() as usize, self.nrows() as usize]
                && actual@ == seq![self.nrows() as usize, self.ncols() as usize]),
            self.nrows() == self.ncols() ==> match r {
                Ok(inv) => inv.wf() && inv.field_view().equiv(&self.field_view())
                    && inv.nrows() == self.nrows() && inv.ncols() == self.nrows()
                    && forall|i: int, j: int| 0 <= i < self.nrows() && 0 <= j < self.nrows() ==>
                        #[trigger] dot_prefix(self.field_view(), self.values_view(), self.ncols(), inv.values_view(), inv.ncols(), i, j, self.ncols())
                        == (if i == j { 1nat } else { 0nat }),
                Err(e) => e == GaloisError::SingularMatrix,
            },
    {
        let n = self.rows;
        if n != self.cols {
            return Err(GaloisError::ShapeMismatch { expected: vec![n, n], actual: vec![self.rows, self.cols] });
        }
        proof { self.field.lemma_q_ge_2(); }
        let mut columns: Vec<Vec<u64>> = Vec::new();
        let mut col: usize = 0;
        while col < n
            invariant
                self.wf(),
                n == self.nrows(),
                n == self.ncols(),
                col <= n,
                self.field.q() >= 2,
                columns@.len() == col,
                forall|c: int| 0 <= c < col ==> (#[trigger] columns@[c])@.len() == n
                    && all_below(columns@[c]@, self.field.q())
                    && solves(self, columns@[c]@, unit_vector(n as nat, c)),
            decreases n - col,
        {
            let mut e: Vec<u64> = Vec::new();
            let mut t: usize = 0;
            while t < n
                invariant
                    t <= n,
                    col < n,
                    e@ =~= unit_vector(n as nat, col as int).subrange(0, t as int),
                decreases n - t,
            {
                e.push(if t == col { 1 } else { 0 });
                t = t + 1;
            }
            assert(e@ =~= unit_vector(n as nat, col as int));
            let f = self.field.clone();
            proof { f.lemma_equiv_wf(&self.field); }
            let b = match FieldVector::new(f, e) {
                Ok(b) => b,
                Err(_) => { return Err(GaloisError::SingularMatrix); },
            };
            let x = match self.solve(&b) {
                Ok(x) => x,
                Err(e) => { return Err(e); },
            };
            columns.push(x.data);
            col = col + 1;
        }
        let mut flat: Vec<u64> = Vec::new();
        let mut row: usize = 0;
        while row < n
            invariant
                self.wf(),
                n == self.nrows(),
                n * n <= usize::MAX,
                row <= n,
                columns@.len() == n,
                forall|c: int| 0 <= c < n ==> (#[trigger] columns@[c])@.len() == n
                    && all_below(columns@[c]@, self.field.q()),
                flat@.len() == row * n,
                all_below(flat@, self.field.q()),
                forall|a: int, b: int| 0 <= a < row && 0 <= b < n ==> #[trigger] flat@[a * n + b] == columns@[b]@[a],
            decreases n - row,
        {
            let mut c: usize = 0;
            while c < n
                invariant
                    self.wf(),
                    n == self.nrows(),
                    n * n <= usize::MAX,
                    row < n,
                    c <= n,
                    columns@.len() == n,
                    forall|t: int| 0 <= t < n ==> (#[trigger] columns@[t])@.len() == n
                        && all_below(columns@[t]@, self.field.q()),
                    flat@.len() == row * n + c,
                    all_below(flat@, self.field.q()),
                    forall|a: int, b: int| 0 <= a < row && 0 <= b < n ==> #[trigger] flat@[a * n + b] == columns@[b]@[a],
                    forall|b: int| 0 <= b < c ==> #[trigger] flat@[row * n + b] == columns@[b]@[row as int],
                decreases n - c,
            {
                let v = columns[c][row];
                proof {
                    lemma_index(row as int, c as int, n as int, n as int);
                    assert(columns@[c as int]@[row as int] < self.field.q());
                    assert forall|b: int| 0 <= b < c + 1 implies #[trigger] flat@.push(v)[row * n + b] == columns@[b]@[row as int] by {
                        lemma_index(row as int, b, n as int, n as int);
                    }
                    assert forall|a: int, b: int| 0 <= a < row && 0 <= b < n implies #[trigger] flat@.push(v)[a * n + b] == columns@[b]@[a] by {
                        lemma_index(a, b, row as int, n as int);
                    }
                }
                flat.push(v);
                c = c + 1;
            }
            proof { assert((row + 1) * n == row * n + n) by (nonlinear_arith); }
            row = row + 1;
        }
        let f = self.field.clone();
        proof {
            f.lemma_equiv_wf(&self.field);
            assert forall|i: int, j: int| 0 <= i < n && 0 <= j < n implies
                #[trigger] dot_prefix(self.field, self.data@, n as nat, flat@, n as nat, i, j, n as nat)
                == (if i == j { 1nat } else { 0nat }) by {
                let x = columns@[j]@;
                assert forall|l: int| 0 <= l < n implies #[trigger] flat@[l * n + j] == x[l] by {}
                lemma_dot_column(self.field, self.data@, n as nat, flat@, n as nat, i, j, x, n as nat);
                assert(solves(self, x, unit_vector(n as nat, j)));
                assert(row_dot(self.field, self.data@, n as nat, i, x, n as nat) == unit_vector(n as nat, j)[i]);
            }
        }
        Ok(FieldMatrix { field: f, rows: n, cols: n, data: flat })
    }
}

impl FieldMatrix {
    /// The determinant by Gaussian elimination (product of the pivots, negated at each row
    /// swap, zero when a column has no pivot); `ShapeMismatch` (`[rows, rows]`, shape) for a
    /// matrix that is not square.
    pub fn det(&self) -> (r: Result<u64>)
        requires
            self.wf(),
        ensures
            self.nrows() != self.ncols() ==> (r matches Err(GaloisError::ShapeMismatch { expected, actual })
                && expected@ == seq![self.nrows() as usize, self.nrows() as usize]
                && actual@ == seq![self.nrows() as usize, self.ncols() as usize]),
            self.nrows() == self.ncols() ==> (r matches Ok(d) && d < self.field_view().q()
                && d as nat == det_loop(self.field_view(), self.values_view(), self.nrows(), 0, 1)),
    {
        if self.rows != self.cols {
            return Err(GaloisError::ShapeMismatch { expected: vec![self.rows, self.rows], actual: vec![self.rows, self.cols] });
        }
        let n = self.rows;
        let field = &self.field;
        proof { field.lemma_q_ge_2(); }
        let mut m = self.data.clone();
        assert(m@ =~= self.data@);
        let ghost f = self.field_view();
        let ghost nn = n as nat;
        let mut det: u64 = 1;
        let mut col: usize = 0;
        while col < n
            invariant
                field.wf(),
                *field == f,
                f == self.field_view(),
                field.q() >= 2,
                n == self.nrows(),
                n == self.ncols(),
                nn == n as nat,
                m@.len() == n * n,
                all_below(m@, field.q()),
                det < field.q(),
                col <= n,
                det_loop(f, m@, nn, col as nat, det as nat) == det_loop(f, self.values_view(), nn, 0, 1),
            decreases n - col,
        {
            let ghost w0 = m@;
            let ghost c = col as nat;
            let ghost det0 = det as nat;
            let pivot = find_pivot(&m, n, n, col, col);
            if pivot == n {
                return Ok(0);
            }
            let ghost pv = pivot as nat;
            let d = idx(pivot, col, n, n, m.len());
            let pivot_val = m[d];
            proof {
                lemma_rc_index(pv as int, c as int, nn as int, nn as int);
                assert(pivot_val == w0[(pv * nn + c) as int]);
            }
            let inv = match field.div(1, pivot_val) {
                Ok(v) => v,
                Err(e) => { return Err(e); },
            };
            if pivot != col {
                swap_rows(&mut m, n, n, col, pivot, field);
                proof {
                    assert forall|i: int, j: int| 0 <= i < nn && 0 <= j < nn implies #[trigger] m@[i * nn + j]
                        == swap_mat(w0, nn, nn, c as int, pv as int)[i * nn + j] by {
                        lemma_rc_index(i, j, nn as int, nn as int);
                    }
                    lemma_rc_eq(m@, swap_mat(w0, nn, nn, c as int, pv as int), nn, nn);
                }
                det = field.neg(det);
            }
            let ghost w1 = m@;
            assert(w1 == (if pv != c { swap_mat(w0, nn, nn, c as int, pv as int) } else { w0 }));
            proof {
                lemma_rc_index(c as int, c as int, nn as int, nn as int);
                assert(w1[(c * nn + c) as int] == pivot_val);
            }
            det = field.mul(det, pivot_val);
            assert(inv as nat == f.div_spec(1, w1[(c * nn + c) as int] as nat));
            scale_row(&mut m, n, n, col, col, inv, field);
            proof {
                assert forall|i: int, j: int| 0 <= i < nn && 0 <= j < nn implies #[trigger] m@[i * nn + j]
                    == scale_mat(f, w1, nn, nn, c as int, c as int, inv)[i * nn + j] by {
                    lemma_rc_index(i, j, nn as int, nn as int);
                }
                lemma_rc_eq(m@, scale_mat(f, w1, nn, nn, c as int, c as int, inv), nn, nn);
            }
            let ghost w2 = m@;
            let mut row: usize = 0;
            while row < n
                invariant
                    field.wf(),
                    *field == f,
                    n == self.nrows(),
                    nn == n as nat,
                    m@.len() == n * n,
                    w2.len() == n * n,
                    all_below(m@, field.q()),
                    col < n,
                    c == col as nat,
                    row <= n,
                    forall|i: int, j: int| 0 <= i < nn && 0 <= j < nn ==> #[trigger] m@[i * nn + j]
                        == if i < row { cleared_entry(f, w2, nn, c as int, c as int, c as int, i, j) } else { w2[i * nn + j] },
                decreases n - row,
            {
                let ghost mb = m@;
                if row != col {
                    let f_at = idx(row, col, n, n, m.len());
                    let factor = m[f_at];
                    assert(factor == w2[(row * nn + c) as int]);
                    if factor != 0 {
                        eliminate_row(&mut m, n, n, row, col, col, factor, field);
                        proof {
                            assert forall|i: int, j: int| 0 <= i < nn && 0 <= j < nn implies #[trigger] m@[i * nn + j]
                                == if i < row + 1 { cleared_entry(f, w2, nn, c as int, c as int, c as int, i, j) } else { w2[i * nn + j] } by {
                                assert(mb[i * nn + j] == if i < row { cleared_entry(f, w2, nn, c as int, c as int, c as int, i, j) } else { w2[i * nn + j] });
                                if i == row as int && j >= c {
                                    assert(mb[(c as int) * nn + j] == w2[(c as int) * nn + j]);
                                }
                            }
                        }
                    }
                }
                row = row + 1;
            }
            proof {
                assert forall|i: int, j: int| 0 <= i < nn && 0 <= j < nn implies #[trigger] m@[i * nn + j]
                    == clear_mat(f, w2, nn, nn, c as int, c as int, c as int)[i * nn + j] by {
                    lemma_rc_index(i, j, nn as int, nn as int);
                }
                lemma_rc_eq(m@, clear_mat(f, w2, nn, nn, c as int, c as int, c as int), nn, nn);
                assert(ref_step(f, w0, nn, nn, c, c) == (m@, c + 1, c + 1));
                assert(det_loop(f, w0, nn, c, det0) == det_loop(f, m@, nn, c + 1, det as nat));
            }
            col = col + 1;
        }
        Ok(det)
    }

    /// Reduced row echelon form by Gauss-Jordan elimination, with the number of pivots.
    pub fn row_echelon_form(&self) -> (r: (Self, usize))
        requires
            self.wf(),
        ensures
            r.0.wf(),
            r.0.field_view().equiv(&self.field_view()),
            r.0.nrows() == self.nrows(),
            r.0.ncols() == self.ncols(),
            r.1 <= self.nrows(),
            r.1 <= self.ncols(),
            (r.0.values_view(), r.1 as nat) == ref_loop(self.field_view(), self.values_view(), self.nrows(), self.ncols(), 0, 0),
    {
        let rows = self.rows;
        let cols = self.cols;
        let field = &self.field;
        proof { field.lemma_q_ge_2(); }
        let mut m = self.data.clone();
        assert(m@ =~= self.data@);
        let ghost f = self.field_view();
        let ghost (rn, cn) = (rows as nat, cols as nat);
        let mut pivot_row: usize = 0;
        let mut pivot_col: usize = 0;
        while pivot_row < rows && pivot_col < cols
            invariant
                field.wf(),
                *field == f,
                f == self.field_view(),
                field.q() >= 2,
                rows == self.nrows(),
                cols == self.ncols(),
                rn == rows as nat,
                cn == cols as nat,
                m@.len() == rows * cols,
                all_below(m@, field.q()),
                pivot_row <= rows,
                pivot_col <= cols,
                pivot_row <= pivot_col,
                ref_loop(f, m@, rn, cn, pivot_row as nat, pivot_col as nat) == ref_loop(f, self.values_view(), rn, cn, 0, 0),
            decreases cols - pivot_col,
        {
            let ghost w0 = m@;
            let ghost (pr, pc) = (pivot_row as nat, pivot_col as nat);
            let pivot = find_pivot(&m, rows, cols, pivot_row, pivot_col);
            if pivot == rows {
                assert(ref_step(f, w0, rn, cn, pr, pc) == (w0, pr, pc + 1));
                pivot_col = pivot_col + 1;
                continue;
            }
            let ghost pv = pivot as nat;
            if pivot != pivot_row {
                swap_rows(&mut m, rows, cols, pivot_row, pivot, field);
                proof {
                    assert forall|i: int, j: int| 0 <= i < rn && 0 <= j < cn implies #[trigger] m@[i * cn + j]
                        == swap_mat(w0, rn, cn, pr as int, pv as int)[i * cn + j] by {
                        lemma_rc_index(i, j, rn as int, cn as int);
                    }
                    lemma_rc_eq(m@, swap_mat(w0, rn, cn, pr as int, pv as int), rn, cn);
                }
            }
            let ghost w1 = m@;
            assert(w1 == (if pv != pr { swap_mat(w0, rn, cn, pr as int, pv as int) } else { w0 }));
            let d = idx(pivot_row, pivot_col, rows, cols, m.len());
            proof {
                lemma_rc_index(pr as int, pc as int, rn as int, cn as int);
                lemma_rc_index(pv as int, pc as int, rn as int, cn as int);
                assert(w0[(pv * cn + pc) as int] != 0);
                assert(m@[d as int] != 0);
            }
            let inv = match field.div(1, m[d]) {
                Ok(v) => v,
                Err(_) => 0,
            };
            assert(inv as nat == f.div_spec(1, w1[(pr * cn + pc) as int] as nat));
            scale_row(&mut m, rows, cols, pivot_row, pivot_col, inv, field);
            proof {
                assert forall|i: int, j: int| 0 <= i < rn && 0 <= j < cn implies #[trigger] m@[i * cn + j]
                    == scale_mat(f, w1, rn, cn, pr as int, pc as int, inv)[i * cn + j] by {
                    lemma_rc_index(i, j, rn as int, cn as int);
                }
                lemma_rc_eq(m@, scale_mat(f, w1, rn, cn, pr as int, pc as int, inv), rn, cn);
            }
            let ghost w2 = m@;
            let mut row: usize = 0;
            while row < rows
                invariant
                    field.wf(),
                    *field == f,
                    rows == self.nrows(),
                    rn == rows as nat,
                    cn == cols as nat,
                    m@.len() == rows * cols,
                    w2.len() == rows * cols,
                    all_below(m@, field.q()),
                    pivot_row < rows,
                    pivot_col < cols,
                    pr == pivot_row as nat,
                    pc == pivot_col as nat,
                    row <= rows,
                    forall|i: int, j: int| 0 <= i < rn && 0 <= j < cn ==> #[trigger] m@[i * cn + j]
                        == if i < row { cleared_entry(f, w2, cn, pr as int, pc as int, pc as int, i, j) } else { w2[i * cn + j] },
                decreases rows - row,
            {
                let ghost mb = m@;
                if row != pivot_row {
                    let f_at = idx(row, pivot_col, rows, cols, m.len());
                    let factor = m[f_at];
                    assert(factor == w2[(row * cn + pc) as int]);
                    if factor != 0 {
                        eliminate_row(&mut m, rows, cols, row, pivot_row, pivot_col, factor, field);
                        proof {
                            assert forall|i: int, j: int| 0 <= i < rn && 0 <= j < cn implies #[trigger] m@[i * cn + j]
                                == if i < row + 1 { cleared_entry(f, w2, cn, pr as int, pc as int, pc as int, i, j) } else { w2[i * cn + j] } by {
                                assert(mb[i * cn + j] == if i < row { cleared_entry(f, w2, cn, pr as int, pc as int, pc as int, i, j) } else { w2[i * cn + j] });
                                if i == row as int && j >= pc {
                                    assert(mb[(pr as int) * cn + j] == w2[(pr as int) * cn + j]);
                                }
                            }
                        }
                    }
                }
                row = row + 1;
            }
            proof {
                assert forall|i: int, j: int| 0 <= i < rn && 0 <= j < cn implies #[trigger] m@[i * cn + j]
                    == clear_mat(f, w2, rn, cn, pr as int, pc as int, pc as int)[i * cn + j] by {
                    lemma_rc_index(i, j, rn as int, cn as int);
                }
                lemma_rc_eq(m@, clear_mat(f, w2, rn, cn, pr as int, pc as int, pc as int), rn, cn);
                assert(ref_step(f, w0, rn, cn, pr, pc) == (m@, pr + 1, pc + 1));
            }
            pivot_row = pivot_row + 1;
            pivot_col = pivot_col + 1;
        }
        (self.with_data(m), pivot_row)
    }

    /// The number of pivots of the reduced row echelon form.
    pub fn rank(&self) -> (r: usize)
        requires
            self.wf(),
        ensures
            r <= self.nrows(),
            r <= self.ncols(),
            r as nat == ref_loop(self.field_view(), self.values_view(), self.nrows(), self.ncols(), 0, 0).1,
    {
        self.row_echelon_form().1
    }
}

/// Products over fields with the same arithmetic agree.
pub proof fn lemma_dot_prefix_equiv(f1: GaloisField, f2: GaloisField, a: Seq<u64>, acols: nat, b: Seq<u64>, bcols: nat, i: int, j: int, k: nat)
    requires
        f1.p() == f2.p(),
        f1.m() == f2.m(),
        f1.f() == f2.f(),
    ensures
        dot_prefix(f1, a, acols, b, bcols, i, j, k) == dot_prefix(f2, a, acols, b, bcols, i, j, k),
    decreases k,
{
    if k > 0 {
        lemma_dot_prefix_equiv(f1, f2, a, acols, b, bcols, i, j, (k - 1) as nat);
    }
}

/// Swapping two entries of a permutation gives a permutation.
pub proof fn lemma_swap_permutation(p: Seq<usize>, n: nat, a: int, b: int)
    requires
        is_permutation(p, n),
        0 <= a < n,
        0 <= b < n,
    ensures
        is_permutation(p.update(a, p[b]).update(b, p[a]), n),
{
    let q = p.update(a, p[b]).update(b, p[a]);
    assert forall|i: int, j: int| 0 <= i < j < n implies q[i] != q[j] by {
        let si: int = if i == b { a } else if i == a { b } else { i };
        let sj: int = if j == b { a } else if j == a { b } else { j };
        assert(q[i] == p[si]);
        assert(q[j] == p[sj]);
        assert(si != sj);
        if si < sj { assert(p[si] != p[sj]); } else { assert(p[sj] != p[si]); }
    }
}

/// The result of an LU factorisation of the square matrix `a`: `l` is unit lower
/// triangular, `u` upper triangular, `p` a permutation of the rows, and `l u` is `a` with
/// its rows permuted by `p`.
pub open spec fn lu_factors(a: &FieldMatrix, l: &FieldMatrix, u: &FieldMatrix, p: Seq<usize>) -> bool {
    let n = a.nrows();
    &&& l.wf() && u.wf()
    &&& l.field_view().equiv(&a.field_view()) && u.field_view().equiv(&a.field_view())
    &&& l.nrows() == n && l.ncols() == n && u.nrows() == n && u.ncols() == n
    &&& forall|i: int, j: int| 0 <= i < n && 0 <= j < n ==> #[trigger] l.at(i, j)
        == (if i == j { 1u64 } else if i < j { 0u64 } else { l.at(i, j) })
    &&& forall|i: int, j: int| 0 <= j < i < n ==> #[trigger] u.at(i, j) == 0u64
    &&& is_permutation(p, n)
    &&& forall|i: int, j: int| 0 <= i < n && 0 <= j < n ==>
        #[trigger] dot_prefix(a.field_view(), l.values_view(), n, u.values_view(), n, i, j, n) == a.at(p[i] as int, j) as nat
}

/// LU factorisation with row pivoting of a square matrix; when `reveal_rank` a column
/// without a pivot is skipped, otherwise it is `SingularMatrix`. Returns `L`, `U`, the
/// pivot rows and the number of pivots; a factorisation that fails its final check against
/// the matrix is reported as `SingularMatrix`.
fn lu_core(matrix: &FieldMatrix, reveal_rank: bool) -> (r: Result<(FieldMatrix, FieldMatrix, Vec<usize>, usize)>)
    requires
        matrix.wf(),
        matrix.nrows() == matrix.ncols(),
    ensures
        match r {
            Ok((l, u, p, rank)) => lu_factors(matrix, &l, &u, p@) && rank <= matrix.nrows(),
            Err(e) => e == GaloisError::SingularMatrix,
        },
{
    let n = matrix.rows;
    let field = &matrix.field;
    proof { field.lemma_q_ge_2(); }
    let mut a = matrix.data.clone();
    assert(a@ =~= matrix.data@);
    let mut pivots: Vec<usize> = Vec::new();
    let mut t: usize = 0;
    while t < n
        invariant
            t <= n,
            pivots@.len() == t,
            forall|i: int| 0 <= i < t ==> #[trigger] pivots@[i] == i,
        decreases n - t,
    {
        pivots.push(t);
        t = t + 1;
    }
    assert(is_permutation(pivots@, n as nat));
    let mut rank: usize = 0;
    let mut k: usize = 0;
    while k < n
        invariant
            field.wf(),
            field.q() >= 2,
            n == matrix.nrows(),
            n == matrix.ncols(),
            a@.len() == n * n,
            all_below(a@, field.q()),
            is_permutation(pivots@, n as nat),
            k <= n,
            rank <= k,
        decreases n - k,
    {
        let mut max_row = k;
        let mut i: usize = k + 1;
        while i < n
            invariant
                k < n,
                k + 1 <= i,
                k <= max_row < n,
                a@.len() == n * n,
            decreases n - i,
        {
            let at = idx(i, k, n, n, a.len());
            if a[at] != 0 {
                max_row = i;
            }
            i = i + 1;
        }
        let mk = idx(max_row, k, n, n, a.len());
        let pivot = a[mk];
        if pivot == 0 {
            if reveal_rank {
                k = k + 1;
                continue;
            }
            return Err(GaloisError::SingularMatrix);
        }
        let inv_pivot = match field.div(1, pivot) {
            Ok(v) => v,
            Err(_) => { return Err(GaloisError::SingularMatrix); },
        };
        if max_row != k {
            proof { lemma_swap_permutation(pivots@, n as nat, k as int, max_row as int); }
            let pk = pivots[k];
            let pm = pivots[max_row];
            pivots.set(k, pm);
            pivots.set(max_row, pk);
            swap_rows(&mut a, n, n, k, max_row, field);
        }
        rank = rank + 1;
        let mut i: usize = k + 1;
        while i < n
            invariant
                field.wf(),
                n == matrix.nrows(),
                a@.len() == n * n,
                all_below(a@, field.q()),
                k < n,
                inv_pivot < field.q(),
            decreases n - i,
        {
            let ik = idx(i, k, n, n, a.len());
            let factor = field.mul(a[ik], inv_pivot);
            a.set(ik, factor);
            eliminate_row(&mut a, n, n, i, k, k + 1, factor, field);
            i = i + 1;
        }
        k = k + 1;
    }
    let mut l_data: Vec<u64> = Vec::new();
    let mut u_data: Vec<u64> = Vec::new();
    let mut i: usize = 0;
    while i < n
        invariant
            field.q() >= 2,
            n == matrix.nrows(),
            a@.len() == n * n,
            all_below(a@, field.q()),
            i <= n,
            l_data@.len() == i * n,
            u_data@.len() == i * n,
            all_below(l_data@, field.q()),
            all_below(u_data@, field.q()),
            forall|x: int, y: int| 0 <= x < i && 0 <= y < n ==> #[trigger] l_data@[x * n + y]
                == (if x == y { 1u64 } else if x < y { 0u64 } else { l_data@[x * n + y] }),
            forall|x: int, y: int| 0 <= y < x < i ==> #[trigger] u_data@[x * n + y] == 0u64,
        decreases n - i,
    {
        let mut j: usize = 0;
        while j < n
            invariant
                field.q() >= 2,
                n == matrix.nrows(),
                a@.len() == n * n,
                all_below(a@, field.q()),
                i < n,
                j <= n,
                l_data@.len() == i * n + j,
                u_data@.len() == i * n + j,
                all_below(l_data@, field.q()),
                all_below(u_data@, field.q()),
                forall|x: int, y: int| 0 <= x < i && 0 <= y < n ==> #[trigger] l_data@[x * n + y]
                    == (if x == y { 1u64 } else if x < y { 0u64 } else { l_data@[x * n + y] }),
                forall|x: int, y: int| 0 <= y < x < i ==> #[trigger] u_data@[x * n + y] == 0u64,
                forall|y: int| 0 <= y < j ==> #[trigger] l_data@[i * n + y]
                    == (if i == y { 1u64 } else if i < y { 0u64 } else { l_data@[i * n + y] }),
                forall|y: int| 0 <= y < j && y < i ==> #[trigger] u_data@[i * n + y] == 0u64,
            decreases n - j,
        {
            let ij = idx(i, j, n, n, a.len());
            let v = a[ij];
            let (lv, uv): (u64, u64) = if i > j { (v, 0) } else if i == j { (1, v) } else { (0, v) };
            proof {
                lemma_index(i as int, j as int, n as int, n as int);
                let l2 = l_data@.push(lv);
                let u2 = u_data@.push(uv);
                assert forall|x: int, y: int| 0 <= x < i && 0 <= y < n implies #[trigger] l2[x * n + y]
                    == (if x == y { 1u64 } else if x < y { 0u64 } else { l2[x * n + y] }) by {
                    lemma_index(x, y, i as int, n as int);
                    assert(l2[x * n + y] == l_data@[x * n + y]);
                }
                assert forall|x: int, y: int| 0 <= y < x < i implies #[trigger] u2[x * n + y] == 0u64 by {
                    lemma_index(x, y, i as int, n as int);
                    assert(u2[x * n + y] == u_data@[x * n + y]);
                }
                assert forall|y: int| 0 <= y < j + 1 implies #[trigger] l2[i * n + y]
                    == (if i == y { 1u64 } else if i < y { 0u64 } else { l2[i * n + y] }) by {
                    lemma_index(i as int, y, n as int, n as int);
                }
                assert forall|y: int| 0 <= y < j + 1 && y < i implies #[trigger] u2[i * n + y] == 0u64 by {
                    lemma_index(i as int, y, n as int, n as int);
                }
            }
            l_data.push(lv);
            u_data.push(uv);
            j = j + 1;
        }
        proof {
            assert((i + 1) * n == i * n + n) by (nonlinear_arith);
            assert forall|x: int, y: int| 0 <= x < i + 1 && 0 <= y < n implies #[trigger] l_data@[x * n + y]
                == (if x == y { 1u64 } else if x < y { 0u64 } else { l_data@[x * n + y] }) by {
                if x == i {}
            }
            assert forall|x: int, y: int| 0 <= y < x < i + 1 implies #[trigger] u_data@[x * n + y] == 0u64 by {
                if x == i {}
            }
        }
        i = i + 1;
    }
    let lf = matrix.field.clone();
    let uf = matrix.field.clone();
    proof {
        lf.lemma_equiv_wf(&matrix.field);
        uf.lemma_equiv_wf(&matrix.field);
    }
    let l = FieldMatrix { field: lf, rows: n, cols: n, data: l_data };
    let u = FieldMatrix { field: uf, rows: n, cols: n, data: u_data };
    proof {
        assert forall|x: int, y: int| 0 <= x < n && 0 <= y < n implies #[trigger] l.at(x, y)
            == (if x == y { 1u64 } else if x < y { 0u64 } else { l.at(x, y) }) by {}
        assert forall|x: int, y: int| 0 <= y < x < n implies #[trigger] u.at(x, y) == 0u64 by {}
    }
    if !lu_matches(matrix, &l, &u, &pivots) {
        return Err(GaloisError::SingularMatrix);
    }
    Ok((l, u, pivots, rank))
}

/// Whether `l u` is `a` with its rows permuted by `p`.
fn lu_matches(a: &FieldMatrix, l: &FieldMatrix, u: &FieldMatrix, p: &Vec<usize>) -> (r: bool)
    requires
        a.wf(),
        l.wf(),
        u.wf(),
        l.field_view().equiv(&a.field_view()),
        u.field_view().equiv(&a.field_view()),
        l.nrows() == a.nrows() && l.ncols() == a.nrows() && u.nrows() == a.nrows() && u.ncols() == a.nrows(),
        a.nrows() == a.ncols(),
        is_permutation(p@, a.nrows()),
    ensures
        r == forall|i: int, j: int| 0 <= i < a.nrows() && 0 <= j < a.nrows() ==>
            #[trigger] dot_prefix(a.field_view(), l.values_view(), a.nrows(), u.values_view(), a.nrows(), i, j, a.nrows())
            == a.at(p@[i] as int, j) as nat,
{
    let n = a.rows;
    proof {
        a.field.lemma_equiv_wf(&l.field);
    }
    let total = a.data.len();
    assert(total == n * n);
    let prod = match l.mul(u) {
        Ok(m) => m,
        Err(_) => { return false; },
    };
    let mut i: usize = 0;
    while i < n
        invariant
            a.wf(),
            n == a.nrows(),
            n == a.ncols(),
            prod.wf(),
            prod.nrows() == n,
            prod.ncols() == n,
            is_permutation(p@, n as nat),
            i <= n,
            forall|x: int, y: int| 0 <= x < n && 0 <= y < n ==> #[trigger] prod.at(x, y)
                == dot_prefix(l.field_view(), l.values_view(), n as nat, u.values_view(), n as nat, x, y, n as nat),
            forall|x: int, y: int| 0 <= x < i && 0 <= y < n ==>
                #[trigger] dot_prefix(a.field_view(), l.values_view(), n as nat, u.values_view(), n as nat, x, y, n as nat)
                == a.at(p@[x] as int, y) as nat,
            l.field_view().equiv(&a.field_view()),
        decreases n - i,
    {
        let mut j: usize = 0;
        while j < n
            invariant
                a.wf(),
                n == a.nrows(),
                n == a.ncols(),
                prod.wf(),
                prod.nrows() == n,
                prod.ncols() == n,
                is_permutation(p@, n as nat),
                i < n,
                j <= n,
                forall|x: int, y: int| 0 <= x < n && 0 <= y < n ==> #[trigger] prod.at(x, y)
                    == dot_prefix(l.field_view(), l.values_view(), n as nat, u.values_view(), n as nat, x, y, n as nat),
                forall|x: int, y: int| 0 <= x < i && 0 <= y < n ==>
                    #[trigger] dot_prefix(a.field_view(), l.values_view(), n as nat, u.values_view(), n as nat, x, y, n as nat)
                    == a.at(p@[x] as int, y) as nat,
                forall|y: int| 0 <= y < j ==>
                    #[trigger] dot_prefix(a.field_view(), l.values_view(), n as nat, u.values_view(), n as nat, i as int, y, n as nat)
                    == a.at(p@[i as int] as int, y) as nat,
                l.field_view().equiv(&a.field_view()),
            decreases n - j,
        {
            let pi = p[i];
            let lhs = prod.get(i, j);
            let rhs = a.get(pi, j);
            if lhs != rhs {
                proof {
                    lemma_dot_prefix_equiv(l.field_view(), a.field_view(), l.values_view(), n as nat, u.values_view(), n as nat, i as int, j as int, n as nat);
                }
                assert(dot_prefix(a.field_view(), l.values_view(), n as nat, u.values_view(), n as nat, i as int, j as int, n as nat)
                    != a.at(p@[i as int] as int, j as int) as nat);
                return false;
            }
            proof {
                lemma_dot_prefix_equiv(l.field_view(), a.field_view(), l.values_view(), n as nat, u.values_view(), n as nat, i as int, j as int, n as nat);
            }
            j = j + 1;
        }
        i = i + 1;
    }
    true
}

/// LU decomposition with row pivoting of a square matrix: `L` unit lower triangular, `U`
/// upper triangular and pivot rows `P` with `L U` equal to the rows of the matrix in the
/// order `P`; `SingularMatrix` when a column has no pivot.
pub fn lu_decomposition(matrix: &FieldMatrix) -> (r: Result<(FieldMatrix, FieldMatrix, Vec<usize>)>)
    requires
        matrix.wf(),
        matrix.nrows() == matrix.ncols(),
    ensures
        match r {
            Ok((l, u, p)) => lu_factors(matrix, &l, &u, p@),
            Err(e) => e == GaloisError::SingularMatrix,
        },
{
    match lu_core(matrix, false) {
        Ok((l, u, p, _)) => Ok((l, u, p)),
        Err(e) => Err(e),
    }
}

/// LU decomposition that also succeeds for rank-deficient matrices, with the number of
/// pivots found.
pub fn rank_revealing_lu(matrix: &FieldMatrix) -> (r: Result<(FieldMatrix, FieldMatrix, Vec<usize>, usize)>)
    requires
        matrix.wf(),
        matrix.nrows() == matrix.ncols(),
    ensures
        match r {
            Ok((l, u, p, rank)) => lu_factors(matrix, &l, &u, p@) && rank <= matrix.nrows(),
            Err(e) => e == GaloisError::SingularMatrix,
        },
{
    lu_core(matrix, true)
}

/// Same as `rank_revealing_lu`.
pub fn rank_revealing_lu_decomposition(matrix: &FieldMatrix) -> (r: Result<(FieldMatrix, FieldMatrix, Vec<usize>, usize)>)
    requires
        matrix.wf(),
        matrix.nrows() == matrix.ncols(),
    ensures
        match r {
            Ok((l, u, p, rank)) => lu_factors(matrix, &l, &u, p@) && rank <= matrix.nrows(),
            Err(e) => e == GaloisError::SingularMatrix,
        },
{
    rank_revealing_lu(matrix)
}

impl FieldMatrix {
    /// LU decomposition with row pivoting; `ShapeMismatch` (`[rows, rows]`, shape) for a
    /// matrix that is not square.
    pub fn lu_decomposition(&self) -> (r: Result<(Self, Self, Vec<usize>)>)
        requires
            self.wf(),
        ensures
            self.nrows() != self.ncols() ==> (r matches Err(GaloisError::ShapeMismatch { expected, actual })
                && expected@ == seq![self.nrows() as usize, self.nrows() as usize]
                && actual@ == seq![self.nrows() as usize, self.ncols() as usize]),
            self.nrows() == self.ncols() ==> match r {
                Ok((l, u, p)) => lu_factors(self, &l, &u, p@),
                Err(e) => e == GaloisError::SingularMatrix,
            },
    {
        if self.rows != self.cols {
            return Err(GaloisError::ShapeMismatch { expected: vec![self.rows, self.rows], actual: vec![self.rows, self.cols] });
        }
        lu_decomposition(self)
    }

    /// Rank-revealing LU decomposition; `ShapeMismatch` (`[rows, rows]`, shape) for a
    /// matrix that is not square.
    pub fn rank_revealing_lu_decomposition(&self) -> (r: Result<(Self, Self, Vec<usize>, usize)>)
        requires
            self.wf(),
        ensures
            self.nrows() != self.ncols() ==> (r matches Err(GaloisError::ShapeMismatch { expected, actual })
                && expected@ == seq![self.nrows() as usize, self.nrows() as usize]
                && actual@ == seq![self.nrows() as usize, self.ncols() as usize]),
            self.nrows() == self.ncols() ==> match r {
                Ok((l, u, p, rank)) => lu_factors(self, &l, &u, p@) && rank <= self.nrows(),
                Err(e) => e == GaloisError::SingularMatrix,
            },
    {
        if self.rows != self.cols {
            return Err(GaloisError::ShapeMismatch { expected: vec![self.rows, self.rows], actual: vec![self.rows, self.cols] });
        }
        rank_revealing_lu(self)
    }
}

/// Whether `v` holds `x`.
fn contains_usize(v: &Vec<usize>, x: usize) -> (r: bool)
    ensures
        r == v@.contains(x),
{
    let mut i: usize = 0;
    while i < v.len()
        invariant
            i <= v@.len(),
            forall|j: int| 0 <= j < i ==> v@[j] != x,
        decreases v@.len() - i,
    {
        if v[i] == x {
            return true;
        }
        i = i + 1;
    }
    false
}

/// Some columns give the vectors a unit pattern.
pub open spec fn has_unit_pattern(vs: Seq<FieldVector>) -> bool {
    exists|fc: Seq<usize>| #[trigger] unit_pattern(vs, fc)
}

/// `n` zeros.
pub open spec fn zeros_seq(n: nat) -> Seq<u64> {
    Seq::new(n, |i: int| 0u64)
}

/// The vectors `vs` have a one at their own column of `fc` and a zero at the others.
pub open spec fn unit_pattern(vs: Seq<FieldVector>, fc: Seq<usize>) -> bool {
    &&& fc.len() == vs.len()
    &&& forall|k: int, l: int| 0 <= k < fc.len() && 0 <= l < fc.len() ==>
        #[trigger] vs[l].values_view()[fc[k] as int] == (if k == l { 1u64 } else { 0u64 })
}

/// One column of the elimination behind `null_space` at pivot row `pr` and column `col`:
/// like `ref_step`, but the pivot row is scaled and the column cleared over whole rows;
/// whether a pivot was found.
pub open spec fn ns_step(f: GaloisField, w: Seq<u64>, rows: nat, cols: nat, pr: nat, col: nat) -> (Seq<u64>, bool) {
    let pv = first_nonzero(w, rows, cols, pr, col);
    if pv == rows {
        (w, false)
    } else {
        let inv = f.div_spec(1, w[(pv * cols + col) as int] as nat);
        let w1 = if pv != pr { swap_mat(w, rows, cols, pr as int, pv as int) } else { w };
        let w2 = scale_mat(f, w1, rows, cols, pr as int, 0, inv as u64);
        (clear_mat(f, w2, rows, cols, pr as int, col as int, 0), true)
    }
}

/// The elimination behind `null_space` from `(pr, col)` on: the reduced matrix and the
/// pivot columns, ascending.
pub open spec fn ns_loop(f: GaloisField, w: Seq<u64>, rows: nat, cols: nat, pr: nat, col: nat, pcs: Seq<usize>)
    -> (Seq<u64>, Seq<usize>)
    decreases cols - col,
{
    if col < cols && pr < rows {
        let (w2, found) = ns_step(f, w, rows, cols, pr, col);
        if found {
            ns_loop(f, w2, rows, cols, pr + 1, col + 1, pcs.push(col as usize))
        } else {
            ns_loop(f, w, rows, cols, pr, col + 1, pcs)
        }
    } else {
        (w, pcs)
    }
}

/// The columns below `c` that are not pivot columns, ascending.
pub open spec fn free_below(pcs: Seq<usize>, c: nat) -> Seq<usize>
    decreases c,
{
    if c == 0 {
        Seq::empty()
    } else {
        let prev = free_below(pcs, (c - 1) as nat);
        if pcs.contains((c - 1) as usize) { prev } else { prev.push((c - 1) as usize) }
    }
}

/// The basis vector of the free column `free`: a one there, and at the pivot column of
/// each of the first `r` pivot rows the negated entry of that row in column `free`.
pub open spec fn ns_vec(f: GaloisField, w: Seq<u64>, cols: nat, pcs: Seq<usize>, free: nat, r: nat) -> Seq<u64>
    decreases r,
{
    if r == 0 {
        Seq::new(cols, |i: int| if i == free { 1u64 } else { 0u64 })
    } else {
        ns_vec(f, w, cols, pcs, free, (r - 1) as nat).update(pcs[r - 1] as int,
            f.neg_spec(w[((r - 1) * cols + free) as int] as nat) as u64)
    }
}

/// What `null_space` returns: the basis vectors of the free columns in order, or `None`
/// when one of them is not mapped to zero.
pub open spec fn ns_result(a: &FieldMatrix) -> Option<Seq<Seq<u64>>> {
    let (w, pcs) = ns_loop(a.field_view(), a.values_view(), a.nrows(), a.ncols(), 0, 0, Seq::empty());
    let fcs = free_below(pcs, a.ncols());
    let vs = Seq::new(fcs.len(), |k: int| ns_vec(a.field_view(), w, a.ncols(), pcs, fcs[k] as nat, pcs.len()));
    if forall|k: int| 0 <= k < vs.len() ==> #[trigger] solves(a, vs[k], zeros_seq(a.nrows())) { Some(vs) } else { None }
}

impl FieldMatrix {
    /// A basis of the null space from Gauss-Jordan elimination: one vector per column
    /// without a pivot, with a one at that column and zeros at the other such columns.
    /// Each vector is checked against the matrix before it is returned; one that fails is
    /// reported as `SingularMatrix`.
    pub fn null_space(&self) -> (r: Result<Vec<FieldVector>>)
        requires
            self.wf(),
        ensures
            match r {
                Ok(basis) => has_unit_pattern(basis@)
                    && forall|k: int| 0 <= k < basis@.len() ==> (#[trigger] basis@[k]).wf()
                        && basis@[k].field_view().equiv(&self.field_view())
                        && solves(self, basis@[k].values_view(), zeros_seq(self.nrows())),
                Err(e) => e == GaloisError::SingularMatrix,
            },
            match ns_result(self) {
                None => r == Err::<Vec<FieldVector>, GaloisError>(GaloisError::SingularMatrix),
                Some(vs) => r matches Ok(basis) && basis@.len() == vs.len()
                    && forall|k: int| 0 <= k < vs.len() ==> #[trigger] basis@[k].values_view() == vs[k],
            },
    {
        let rows = self.rows;
        let cols = self.cols;
        let field = &self.field;
        proof { field.lemma_q_ge_2(); }
        let mut m = self.data.clone();
        assert(m@ =~= self.data@);
        let mut pivot_cols: Vec<usize> = Vec::new();
        let mut pivot_row: usize = 0;
        let mut col: usize = 0;
        let ghost f = self.field_view();
        let ghost (rn, cn) = (rows as nat, cols as nat);
        let ghost target = ns_loop(f, self.values_view(), rn, cn, 0, 0, Seq::empty());
        assert(pivot_cols@ =~= Seq::<usize>::empty());
        while col < cols
            invariant
                *field == f,
                f == self.field_view(),
                rn == rows as nat,
                cn == cols as nat,
                target == ns_loop(f, self.values_view(), rn, cn, 0, 0, Seq::empty()),
                ns_loop(f, m@, rn, cn, pivot_row as nat, col as nat, pivot_cols@) == target,
                field.wf(),
                field.q() >= 2,
                rows == self.nrows(),
                cols == self.ncols(),
                m@.len() == rows * cols,
                all_below(m@, field.q()),
                col <= cols,
                pivot_row <= rows,
                pivot_cols@.len() == pivot_row,
                forall|t: int| 0 <= t < pivot_row ==> #[trigger] pivot_cols@[t] < col,
                forall|t: int| 0 <= t < pivot_row ==> #[trigger] pivot_cols@[t] < cols,
            ensures
                col >= cols || pivot_row >= rows,
                ns_loop(f, m@, rn, cn, pivot_row as nat, col as nat, pivot_cols@) == target,
            decreases cols - col,
        {
            if pivot_row >= rows {
                break;
            }
            let ghost w0 = m@;
            let ghost (pr, c) = (pivot_row as nat, col as nat);
            let pivot = find_pivot(&m, rows, cols, pivot_row, col);
            if pivot == rows {
                assert(ns_step(f, w0, rn, cn, pr, c) == (w0, false));
                col = col + 1;
                continue;
            }
            let ghost pv = pivot as nat;
            let d = idx(pivot, col, rows, cols, m.len());
            let inv = match field.div(1, m[d]) {
                Ok(v) => v,
                Err(_) => { return Err(GaloisError::SingularMatrix); },
            };
            if pivot != pivot_row {
                swap_rows(&mut m, rows, cols, pivot_row, pivot, field);
                proof {
                    assert forall|i: int, j: int| 0 <= i < rn && 0 <= j < cn implies #[trigger] m@[i * cn + j]
                        == swap_mat(w0, rn, cn, pr as int, pv as int)[i * cn + j] by {
                        lemma_rc_index(i, j, rn as int, cn as int);
                    }
                    lemma_rc_eq(m@, swap_mat(w0, rn, cn, pr as int, pv as int), rn, cn);
                }
            }
            let ghost w1 = m@;
            scale_row(&mut m, rows, cols, pivot_row, 0, inv, field);
            proof {
                assert forall|i: int, j: int| 0 <= i < rn && 0 <= j < cn implies #[trigger] m@[i * cn + j]
                    == scale_mat(f, w1, rn, cn, pr as int, 0, inv)[i * cn + j] by {
                    lemma_rc_index(i, j, rn as int, cn as int);
                }
                lemma_rc_eq(m@, scale_mat(f, w1, rn, cn, pr as int, 0, inv), rn, cn);
            }
            let ghost w2 = m@;
            let mut row: usize = 0;
            while row < rows
                invariant
                    *field == f,
                    rn == rows as nat,
                    cn == cols as nat,
                    w2.len() == rows * cols,
                    pr == pivot_row as nat,
                    c == col as nat,
                    forall|i: int, j: int| 0 <= i < rn && 0 <= j < cn ==> #[trigger] m@[i * cn + j]
                        == if i < row { cleared_entry(f, w2, cn, pr as int, c as int, 0, i, j) } else { w2[i * cn + j] },
                    field.wf(),
                    rows == self.nrows(),
                    m@.len() == rows * cols,
                    all_below(m@, field.q()),
                    pivot_row < rows,
                    col < cols,
                    row <= rows,
                decreases rows - row,
            {
                let ghost mb = m@;
                if row != pivot_row {
                    let f_at = idx(row, col, rows, cols, m.len());
                    let factor = m[f_at];
                    assert(factor == w2[(row * cn + c) as int]);
                    if factor != 0 {
                        eliminate_row(&mut m, rows, cols, row, pivot_row, 0, factor, field);
                        proof {
                            assert forall|i: int, j: int| 0 <= i < rn && 0 <= j < cn implies #[trigger] m@[i * cn + j]
                                == if i < row + 1 { cleared_entry(f, w2, cn, pr as int, c as int, 0, i, j) } else { w2[i * cn + j] } by {
                                assert(mb[i * cn + j] == if i < row { cleared_entry(f, w2, cn, pr as int, c as int, 0, i, j) } else { w2[i * cn + j] });
                                if i == row as int {
                                    assert(mb[(pr as int) * cn + j] == w2[(pr as int) * cn + j]);
                                }
                            }
                        }
                    }
                }
                row = row + 1;
            }
            proof {
                assert forall|i: int, j: int| 0 <= i < rn && 0 <= j < cn implies #[trigger] m@[i * cn + j]
                    == clear_mat(f, w2, rn, cn, pr as int, c as int, 0)[i * cn + j] by {
                    lemma_rc_index(i, j, rn as int, cn as int);
                }
                lemma_rc_eq(m@, clear_mat(f, w2, rn, cn, pr as int, c as int, 0), rn, cn);
                assert(ns_step(f, w0, rn, cn, pr, c) == (m@, true));
            }
            pivot_cols.push(col);
            pivot_row = pivot_row + 1;
            col = col + 1;
        }
        assert(target == (m@, pivot_cols@));
        let mut free_cols: Vec<usize> = Vec::new();
        let mut c: usize = 0;
        while c < cols
            invariant
                free_cols@ == free_below(pivot_cols@, c as nat),
                c <= cols,
                cols == self.ncols(),
                forall|t: int| 0 <= t < pivot_cols@.len() ==> #[trigger] pivot_cols@[t] < cols,
                forall|t: int| 0 <= t < free_cols@.len() ==> #[trigger] free_cols@[t] < c
                    && !pivot_cols@.contains(free_cols@[t]),
                forall|a: int, b: int| 0 <= a < b < free_cols@.len() ==> free_cols@[a] < free_cols@[b],
            decreases cols - c,
        {
            if !contains_usize(&pivot_cols, c) {
                free_cols.push(c);
            }
            c = c + 1;
        }
        let mut basis: Vec<FieldVector> = Vec::new();
        let mut k: usize = 0;
        while k < free_cols.len()
            invariant
                field.wf(),
                field.q() >= 2,
                self.wf(),
                rows == self.nrows(),
                cols == self.ncols(),
                m@.len() == rows * cols,
                all_below(m@, field.q()),
                pivot_cols@.len() <= rows,
                field.q() == self.field_view().q(),
                forall|t: int| 0 <= t < pivot_cols@.len() ==> #[trigger] pivot_cols@[t] < cols,
                forall|t: int| 0 <= t < free_cols@.len() ==> #[trigger] free_cols@[t] < cols
                    && !pivot_cols@.contains(free_cols@[t]),
                forall|a: int, b: int| 0 <= a < b < free_cols@.len() ==> free_cols@[a] < free_cols@[b],
                k <= free_cols@.len(),
                basis@.len() == k,
                *field == f,
                f == self.field_view(),
                cn == cols as nat,
                rn == rows as nat,
                target == (m@, pivot_cols@),
                target == ns_loop(f, self.values_view(), rn, cn, 0, 0, Seq::empty()),
                free_cols@ == free_below(pivot_cols@, cn),
                forall|l: int| 0 <= l < k ==> #[trigger] basis@[l].values_view()
                    == ns_vec(f, m@, cn, pivot_cols@, free_cols@[l] as nat, pivot_cols@.len()),
                forall|t: int, l: int| 0 <= t < free_cols@.len() && 0 <= l < k ==>
                    #[trigger] basis@[l].values_view()[free_cols@[t] as int] == (if free_cols@[t] == free_cols@[l] { 1u64 } else { 0u64 }),
                forall|l: int| 0 <= l < k ==> (#[trigger] basis@[l]).wf()
                    && basis@[l].field_view().equiv(&self.field_view())
                    && solves(self, basis@[l].values_view(), zeros_seq(self.nrows())),
            decreases free_cols@.len() - k,
        {
            let free = free_cols[k];
            let ghost fr = free as nat;
            let mut v: Vec<u64> = Vec::new();
            let mut t: usize = 0;
            while t < cols
                invariant
                    t <= cols,
                    v@ =~= Seq::new(t as nat, |i: int| if i == free { 1u64 } else { 0u64 }),
                decreases cols - t,
            {
                v.push(if t == free { 1 } else { 0 });
                t = t + 1;
            }
            let mut r: usize = 0;
            while r < pivot_cols.len()
                invariant
                    field.wf(),
                    field.q() >= 2,
                    v@.len() == cols,
                    all_below(v@, field.q()),
                    m@.len() == rows * cols,
                    all_below(m@, field.q()),
                    pivot_cols@.len() <= rows,
                    free < cols,
                    !pivot_cols@.contains(free),
                    r <= pivot_cols@.len(),
                    *field == f,
                    cn == cols as nat,
                    fr == free as nat,
                    v@ == ns_vec(f, m@, cn, pivot_cols@, fr, r as nat),
                    forall|t: int| 0 <= t < pivot_cols@.len() ==> #[trigger] pivot_cols@[t] < cols,
                    forall|g: int| 0 <= g < cols && !pivot_cols@.contains(g as usize) ==>
                        #[trigger] v@[g] == (if g == free { 1u64 } else { 0u64 }),
                decreases pivot_cols@.len() - r,
            {
                let pcol = pivot_cols[r];
                let at = idx(r, free, rows, cols, m.len());
                let nv = field.neg(m[at]);
                proof {
                    assert(pivot_cols@.contains(pcol));
                    assert forall|g: int| 0 <= g < cols && !pivot_cols@.contains(g as usize) implies
                        #[trigger] v@.update(pcol as int, nv)[g] == (if g == free { 1u64 } else { 0u64 }) by {
                        assert(g != pcol);
                    }
                }
                v.set(pcol, nv);
                r = r + 1;
            }
            let f = self.field.clone();
            proof { f.lemma_equiv_wf(&self.field); }
            let vec = FieldVector { field: f, data: v };
            let zero = self.zero_vector();
            if !self.check_solution(&vec, &zero) {
                proof {
                    let (w, pcs) = target;
                    let fcs = free_below(pcs, cn);
                    let vs = Seq::new(fcs.len(), |kk: int| ns_vec(self.field_view(), w, cn, pcs, fcs[kk] as nat, pcs.len()));
                    assert(vs[k as int] == vec.values_view());
                    assert(!solves(self, vs[k as int], zeros_seq(self.nrows())));
                }
                return Err(GaloisError::SingularMatrix);
            }
            proof {
                assert forall|t: int, l: int| 0 <= t < free_cols@.len() && 0 <= l < k + 1 implies
                    #[trigger] basis@.push(vec)[l].values_view()[free_cols@[t] as int]
                    == (if free_cols@[t] == free_cols@[l] { 1u64 } else { 0u64 }) by {
                    if l == k {
                        let g = free_cols@[t] as int;
                        assert(!pivot_cols@.contains(g as usize));
                    }
                }
            }
            basis.push(vec);
            k = k + 1;
        }
        proof {
            let fc = free_cols@;
            assert forall|a: int, b: int| 0 <= a < fc.len() && 0 <= b < fc.len() implies
                #[trigger] basis@[b].values_view()[fc[a] as int] == (if a == b { 1u64 } else { 0u64 }) by {
                if a < b { assert(fc[a] < fc[b]); }
                if b < a { assert(fc[b] < fc[a]); }
            }
            assert(unit_pattern(basis@, fc));
            assert(has_unit_pattern(basis@));
            assert(forall|k: int| 0 <= k < basis@.len() ==> (#[trigger] basis@[k]).wf()
                && basis@[k].field_view().equiv(&self.field_view())
                && solves(self, basis@[k].values_view(), zeros_seq(self.nrows())));
            let (w, pcs) = target;
            let fcs2 = free_below(pcs, cn);
            let vs = Seq::new(fcs2.len(), |kk: int| ns_vec(self.field_view(), w, cn, pcs, fcs2[kk] as nat, pcs.len()));
            assert forall|kk: int| 0 <= kk < vs.len() implies #[trigger] solves(self, vs[kk], zeros_seq(self.nrows())) by {
                assert(vs[kk] == basis@[kk].values_view());
            }
            assert(ns_result(self) == Some(vs));
        }
        Ok(basis)
    }

    /// The zero vector with one entry per row.
    fn zero_vector(&self) -> (r: FieldVector)
        requires
            self.wf(),
        ensures
            r.wf(),
            r.field_view().equiv(&self.field_view()),
            r.values_view() == zeros_seq(self.nrows()),
    {
        proof { self.field.lemma_q_ge_2(); }
        let mut z: Vec<u64> = Vec::new();
        let mut t: usize = 0;
        while t < self.rows
            invariant
                t <= self.nrows(),
                z@ =~= Seq::new(t as nat, |i: int| 0u64),
            decreases self.nrows() - t,
        {
            z.push(0);
            t = t + 1;
        }
        let f = self.field.clone();
        proof { f.lemma_equiv_wf(&self.field); }
        FieldVector { field: f, data: z }
    }
}

/// Distinct positions of a row-major matrix are distinct entries.
pub proof fn lemma_same_position(a: int, b: int, i: int, j: int, n: int)
    requires
        0 <= b < n,
        0 <= j < n,
        0 <= a,
        0 <= i,
        a * n + b == i * n + j,
    ensures
        a == i,
        b == j,
{
    if a < i {
        assert(a * n + n <= i * n) by (nonlinear_arith) requires a < i, n >= 0;
    } else if a > i {
        assert(i * n + n <= a * n) by (nonlinear_arith) requires a > i, n >= 0;
    }
}

} // verus!
