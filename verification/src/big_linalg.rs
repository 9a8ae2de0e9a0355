//! Linear algebra over a `BigGaloisField`: matrices of arbitrary-precision elements.

use vstd::prelude::*;
use crate::error::{GaloisError, Result};
use crate::field::array_kind::GaloisArray;
use crate::field::big_array::{BigFieldArray, all_values_below};
use crate::field::big_field::{BigGaloisField, same_big_field, big_div_spec};
use crate::field::bignum::BigValue;
use crate::field::model::{gf_add, gf_sub, gf_mul, gf_neg};
use crate::linalg::{lemma_index, lemma_index_unique, row_swapped, is_permutation, lemma_swap_permutation, lemma_rc_index, lemma_rc_eq};
use crate::poly::big_poly::{values_of, big_equiv, big_invalid, first_at_least};

verus! {

/// `sum_{l < k} a[i][l] * x[l]` over the field, accumulated from the left.
pub open spec fn big_row_dot(f: BigGaloisField, a: Seq<nat>, acols: nat, i: int, x: Seq<nat>, k: nat) -> nat
    decreases k,
{
    if k == 0 {
        0
    } else {
        gf_add(big_row_dot(f, a, acols, i, x, (k - 1) as nat), gf_mul(a[i * acols + (k - 1)], x[k - 1], f.p(), f.m(), f.f()),
            f.p(), f.m())
    }
}

/// `sum_{l < k} a[i][l] * b[l][j]` over the field, accumulated from the left.
pub open spec fn big_dot_prefix(f: BigGaloisField, a: Seq<nat>, acols: nat, b: Seq<nat>, bcols: nat, i: int, j: int, k: nat) -> nat
    decreases k,
{
    if k == 0 {
        0
    } else {
        gf_add(big_dot_prefix(f, a, acols, b, bcols, i, j, (k - 1) as nat),
            gf_mul(a[i * acols + (k - 1)], b[(k - 1) * bcols + j], f.p(), f.m(), f.f()), f.p(), f.m())
    }
}

/// `sum_{i < k} a[i][i]` over the field, accumulated from the left.
pub open spec fn big_diag_sum(f: BigGaloisField, a: Seq<nat>, cols: nat, k: nat) -> nat
    decreases k,
{
    if k == 0 { 0 } else { gf_add(big_diag_sum(f, a, cols, (k - 1) as nat), a[(k - 1) * cols + (k - 1)], f.p(), f.m()) }
}

/// A matrix over a `BigGaloisField`, row-major.
pub struct BigFieldMatrix {
    field: BigGaloisField,
    rows: usize,
    cols: usize,
    data: Vec<BigValue>,
}

/// Row-major position of entry `(i, j)`.
fn pos(i: usize, j: usize, rows: usize, cols: usize, len: usize) -> (r: usize)
    requires
        i < rows,
        j < cols,
        len == rows * cols,
    ensures
        r == i * cols + j,
        r < len,
{
    proof { lemma_index(i as int, j as int, rows as int, cols as int); }
    i * cols + j
}

impl BigFieldMatrix {
    pub closed spec fn field_view(&self) -> BigGaloisField {
        self.field
    }

    pub closed spec fn nrows(&self) -> nat {
        self.rows as nat
    }

    pub closed spec fn ncols(&self) -> nat {
        self.cols as nat
    }

    pub closed spec fn values_view(&self) -> Seq<nat> {
        values_of(self.data@)
    }

    /// Entry `(i, j)`.
    pub open spec fn at(&self, i: int, j: int) -> nat {
        self.values_view()[i * self.ncols() + j]
    }

    /// The entries fill the shape and are elements of a well-formed field.
    pub open spec fn wf(&self) -> bool {
        &&& self.field_view().wf()
        &&& self.values_view().len() == self.nrows() * self.ncols()
        &&& forall|k: int| 0 <= k < self.values_view().len() ==> (#[trigger] self.values_view()[k]) < self.field_view().q()
    }

    proof fn lemma_below(data: Seq<BigValue>, q: nat)
        requires
            all_values_below(data, q),
        ensures
            forall|k: int| 0 <= k < values_of(data).len() ==> (#[trigger] values_of(data)[k]) < q,
    {
        assert forall|k: int| 0 <= k < values_of(data).len() implies (#[trigger] values_of(data)[k]) < q by {
            assert(data[k].value() < q);
        }
    }

    /// The `rows x cols` matrix of `data`: `ShapeMismatch` when the number of values
    /// differs, the error of `BigGaloisField::validate` for the first value that is not an
    /// element.
    pub fn new(field: BigGaloisField, rows: usize, cols: usize, data: Vec<BigValue>) -> (r: Result<Self>)
        requires
            field.wf(),
            rows * cols <= usize::MAX,
        ensures
            data@.len() != rows * cols ==> (r matches Err(GaloisError::ShapeMismatch { expected, actual })
                && expected@ == seq![rows, cols] && actual@ == seq![data@.len() as usize]),
            data@.len() == rows * cols && !all_values_below(data@, field.q()) ==> r == Err::<Self, GaloisError>(
                big_invalid(values_of(data@)[first_at_least(values_of(data@), field.q())])),
            data@.len() == rows * cols && all_values_below(data@, field.q()) ==> (r matches Ok(a) && a.wf()
                && a.field_view() == field && a.nrows() == rows && a.ncols() == cols && a.values_view() == values_of(data@)),
    {
        if data.len() != rows * cols {
            return Err(GaloisError::ShapeMismatch { expected: vec![rows, cols], actual: vec![data.len()] });
        }
        let ghost vs = values_of(data@);
        let mut i: usize = 0;
        while i < data.len()
            invariant
                i <= data@.len(),
                data@.len() == rows * cols,
                vs == values_of(data@),
                forall|j: int| 0 <= j < i ==> (#[trigger] data@[j]).value() < field.q(),
            decreases data@.len() - i,
        {
            match field.validate(&data[i]) {
                Ok(_) => {},
                Err(e) => {
                    proof {
                        assert(0 <= i < vs.len() && vs[i as int] >= field.q() && forall|j: int| 0 <= j < i ==> vs[j] < field.q());
                        let k = first_at_least(vs, field.q());
                        if k != i {
                            if k < i {
                                assert(vs[k] < field.q());
                            } else {
                                assert(vs[i as int] < field.q());
                            }
                        }
                    }
                    return Err(e);
                },
            }
            i = i + 1;
        }
        proof { Self::lemma_below(data@, field.q()); }
        Ok(BigFieldMatrix { field, rows, cols, data })
    }

    /// The matrix of integer entries.
    pub fn from_u64(field: BigGaloisField, rows: usize, cols: usize, data: Vec<u64>) -> (r: Result<Self>)
        requires
            field.wf(),
            rows * cols <= usize::MAX,
        ensures
            data@.len() == rows * cols && (forall|k: int| 0 <= k < data@.len() ==> data@[k] < field.q()) ==> (r matches Ok(a)
                && a.wf() && a.field_view() == field && a.nrows() == rows && a.ncols() == cols
                && a.values_view() == data@.map_values(|v: u64| v as nat)),
            data@.len() != rows * cols || (exists|k: int| 0 <= k < data@.len() && data@[k] >= field.q()) ==> r is Err,
    {
        let mut big: Vec<BigValue> = Vec::new();
        let mut i: usize = 0;
        while i < data.len()
            invariant
                i <= data@.len(),
                big@.len() == i,
                forall|j: int| 0 <= j < i ==> (#[trigger] big@[j]).value() == data@[j],
            decreases data@.len() - i,
        {
            big.push(BigValue::from_u64(data[i]));
            i = i + 1;
        }
        assert(values_of(big@) =~= data@.map_values(|v: u64| v as nat));
        proof {
            if exists|k: int| 0 <= k < data@.len() && data@[k] >= field.q() {
                let k = choose|k: int| 0 <= k < data@.len() && data@[k] >= field.q();
                assert(big@[k].value() >= field.q());
            }
        }
        Self::new(field, rows, cols, big)
    }

    /// The `rows x cols` matrix with `v` on the diagonal when `diag`, and zero elsewhere.
    fn filled(field: BigGaloisField, rows: usize, cols: usize, diag: bool) -> (r: Self)
        requires
            field.wf(),
            rows * cols <= usize::MAX,
        ensures
            r.wf(),
            r.field_view() == field,
            r.nrows() == rows,
            r.ncols() == cols,
            forall|i: int, j: int| 0 <= i < rows && 0 <= j < cols ==> #[trigger] r.at(i, j)
                == (if diag && i == j { 1nat } else { 0nat }),
    {
        proof { field.lemma_q_ge_2(); }
        let mut data: Vec<BigValue> = Vec::new();
        let mut i: usize = 0;
        while i < rows
            invariant
                i <= rows,
                rows * cols <= usize::MAX,
                data@.len() == i * cols,
                forall|a: int, b: int| 0 <= a < i && 0 <= b < cols ==> #[trigger] data@[a * cols + b].value()
                    == (if diag && a == b { 1nat } else { 0nat }),
            decreases rows - i,
        {
            let mut j: usize = 0;
            while j < cols
                invariant
                    i < rows,
                    j <= cols,
                    rows * cols <= usize::MAX,
                    data@.len() == i * cols + j,
                    forall|a: int, b: int| 0 <= a < i && 0 <= b < cols ==> #[trigger] data@[a * cols + b].value()
                        == (if diag && a == b { 1nat } else { 0nat }),
                    forall|b: int| 0 <= b < j ==> #[trigger] data@[i * cols + b].value() == (if diag && i == b { 1nat } else { 0nat }),
                decreases cols - j,
            {
                proof { lemma_index(i as int, j as int, rows as int, cols as int); }
                let v: u64 = if diag && i == j { 1 } else { 0 };
                let ghost before = data@;
                data.push(BigValue::from_u64(v));
                proof {
                    assert forall|a: int, b: int| 0 <= a < i && 0 <= b < cols implies #[trigger] data@[a * cols + b].value()
                        == (if diag && a == b { 1nat } else { 0nat }) by {
                        lemma_index(a, b, i as int, cols as int);
                        assert(data@[a * cols + b] == before[a * cols + b]);
                    }
                }
                j = j + 1;
            }
            proof {
                assert((i + 1) * cols == i * cols + cols) by (nonlinear_arith);
                assert forall|a: int, b: int| 0 <= a < i + 1 && 0 <= b < cols implies #[trigger] data@[a * cols + b].value()
                    == (if diag && a == b { 1nat } else { 0nat }) by {
                    if a == i {
                    }
                }
            }
            i = i + 1;
        }
        let r = BigFieldMatrix { field, rows, cols, data };
        assert forall|k: int| 0 <= k < r.values_view().len() implies (#[trigger] r.values_view()[k]) < r.field_view().q() by {
            assert(r.values_view()[k] == data@[k].value());
            let a = k / (cols as int);
            let b = k % (cols as int);
            assert(cols > 0) by (nonlinear_arith) requires 0 <= k < rows * cols;
            vstd::arithmetic::div_mod::lemma_fundamental_div_mod(k, cols as int);
            assert(0 <= a < rows) by (nonlinear_arith) requires 0 <= k < rows * cols, a == k / (cols as int), cols > 0;
            assert(k == a * cols + b) by (nonlinear_arith)
                requires k == (cols as int) * (k / (cols as int)) + k % (cols as int), a == k / (cols as int), b == k % (cols as int);
            assert(data@[a * cols + b].value() <= 1);
        }
        assert forall|i: int, j: int| 0 <= i < rows && 0 <= j < cols implies #[trigger] r.at(i, j)
            == (if diag && i == j { 1nat } else { 0nat }) by {
            lemma_index(i, j, rows as int, cols as int);
            assert(r.at(i, j) == data@[i * cols + j].value());
        }
        r
    }

    /// The `rows x cols` zero matrix.
    pub fn zeros(field: BigGaloisField, rows: usize, cols: usize) -> (r: Self)
        requires
            field.wf(),
            rows * cols <= usize::MAX,
        ensures
            r.wf(),
            r.field_view() == field,
            r.nrows() == rows,
            r.ncols() == cols,
            forall|i: int, j: int| 0 <= i < rows && 0 <= j < cols ==> #[trigger] r.at(i, j) == 0,
    {
        Self::filled(field, rows, cols, false)
    }

    /// The `n x n` identity matrix.
    pub fn identity(field: BigGaloisField, n: usize) -> (r: Self)
        requires
            field.wf(),
            n * n <= usize::MAX,
        ensures
            r.wf(),
            r.field_view() == field,
            r.nrows() == n,
            r.ncols() == n,
            forall|i: int, j: int| 0 <= i < n && 0 <= j < n ==> #[trigger] r.at(i, j) == (if i == j { 1nat } else { 0nat }),
    {
        Self::filled(field, n, n, true)
    }

    pub fn field(&self) -> (r: &BigGaloisField)
        ensures
            *r == self.field_view(),
    {
        &self.field
    }

    /// The number of entries, `rows * cols`.
    pub fn entry_count(&self) -> (r: usize)
        requires
            self.wf(),
        ensures
            r == self.nrows() * self.ncols(),
    {
        self.data.len()
    }

    /// `(rows, cols)`.
    pub fn shape(&self) -> (r: (usize, usize))
        ensures
            r.0 == self.nrows(),
            r.1 == self.ncols(),
    {
        (self.rows, self.cols)
    }

    /// Entry `(row, col)`.
    pub fn get(&self, row: usize, col: usize) -> (r: &BigValue)
        requires
            self.wf(),
            row < self.nrows(),
            col < self.ncols(),
        ensures
            r.value() == self.at(row as int, col as int),
    {
        let k = pos(row, col, self.rows, self.cols, self.data.len());
        &self.data[k]
    }

    /// Sets entry `(row, col)`; the error of `BigGaloisField::validate` (and no change) when
    /// `value` is not an element.
    pub fn set(&mut self, row: usize, col: usize, value: BigValue) -> (r: Result<()>)
        requires
            old(self).wf(),
            row < old(self).nrows(),
            col < old(self).ncols(),
        ensures
            value.value() >= old(self).field_view().q() ==> r == Err::<(), GaloisError>(big_invalid(value.value()))
                && *final(self) == *old(self),
            value.value() < old(self).field_view().q() ==> r is Ok && final(self).wf()
                && final(self).field_view() == old(self).field_view()
                && final(self).nrows() == old(self).nrows() && final(self).ncols() == old(self).ncols()
                && final(self).values_view() == old(self).values_view().update(row * old(self).ncols() + col, value.value()),
    {
        let v = match self.field.validate(&value) {
            Ok(v) => v,
            Err(e) => { return Err(e); },
        };
        let k = pos(row, col, self.rows, self.cols, self.data.len());
        self.data.set(k, v);
        assert(self.values_view() =~= old(self).values_view().update(row * old(self).ncols() + col, value.value()));
        Ok(())
    }
}


/// Entry `(i, j)` of the row-major matrix `w` with the entries of row `r` from column
/// `start` on multiplied by `s`.
pub open spec fn big_row_scaled(f: BigGaloisField, w: Seq<nat>, cols: nat, r: int, start: int, s: nat, i: int, j: int) -> nat {
    if i == r && j >= start {
        gf_mul(w[i * cols + j], s, f.p(), f.m(), f.f())
    } else {
        w[i * cols + j]
    }
}

/// Entry `(i, j)` of the row-major matrix `w` after subtracting `factor` times row `p` from
/// row `r`, from column `start` on.
pub open spec fn big_row_eliminated(f: BigGaloisField, w: Seq<nat>, cols: nat, r: int, p: int, start: int, factor: nat,
    i: int, j: int) -> nat {
    if i == r && j >= start {
        gf_sub(w[i * cols + j], gf_mul(factor, w[p * cols + j], f.p(), f.m(), f.f()), f.p(), f.m())
    } else {
        w[i * cols + j]
    }
}

/// The first row from `from` on, below `rows`, whose entry in column `col` is nonzero;
/// `rows` when there is none.
pub open spec fn big_first_nonzero(w: Seq<nat>, rows: nat, cols: nat, from: nat, col: nat) -> nat
    decreases rows - from,
{
    if from >= rows {
        rows
    } else if w[(from * cols + col) as int] != 0 {
        from
    } else {
        big_first_nonzero(w, rows, cols, from + 1, col)
    }
}

/// The matrix with rows `r1` and `r2` exchanged.
pub open spec fn big_swap_mat(w: Seq<nat>, rows: nat, cols: nat, r1: int, r2: int) -> Seq<nat> {
    Seq::new(rows * cols, |k: int| row_swapped(w, cols, r1, r2, k / (cols as int), k % (cols as int)))
}

/// The matrix with row `r` multiplied by `s` from column `start` on.
pub open spec fn big_scale_mat(f: BigGaloisField, w: Seq<nat>, rows: nat, cols: nat, r: int, start: int, s: nat) -> Seq<nat> {
    Seq::new(rows * cols, |k: int| big_row_scaled(f, w, cols, r, start, s, k / (cols as int), k % (cols as int)))
}

/// Entry `(i, j)` after clearing column `pc` against pivot row `pr` (see `cleared_entry`).
pub open spec fn big_cleared_entry(f: BigGaloisField, w: Seq<nat>, cols: nat, pr: int, pc: int, start: int, i: int, j: int) -> nat {
    if i != pr && w[i * cols + pc] != 0 {
        big_row_eliminated(f, w, cols, i, pr, start, w[i * cols + pc], i, j)
    } else {
        w[i * cols + j]
    }
}

/// The matrix with column `pc` cleared against pivot row `pr`, from column `start` on.
pub open spec fn big_clear_mat(f: BigGaloisField, w: Seq<nat>, rows: nat, cols: nat, pr: int, pc: int, start: int) -> Seq<nat> {
    Seq::new(rows * cols, |k: int| big_cleared_entry(f, w, cols, pr, pc, start, k / (cols as int), k % (cols as int)))
}

/// One column of Gauss-Jordan solving over a big field (see `solve_step`).
pub open spec fn big_solve_step(f: BigGaloisField, w: Seq<nat>, x: Seq<nat>, n: nat, col: nat) -> Option<(Seq<nat>, Seq<nat>)> {
    let pv = big_first_nonzero(w, n, n, col, col);
    if pv == n {
        None
    } else {
        let w1 = if pv != col { big_swap_mat(w, n, n, col as int, pv as int) } else { w };
        let x1 = if pv != col { x.update(col as int, x[pv as int]).update(pv as int, x[col as int]) } else { x };
        let inv = big_div_spec(f, 1, w1[(col * n + col) as int]);
        let w2 = big_scale_mat(f, w1, n, n, col as int, 0, inv);
        let x2 = x1.update(col as int, gf_mul(x1[col as int], inv, f.p(), f.m(), f.f()));
        let w3 = big_clear_mat(f, w2, n, n, col as int, col as int, 0);
        let x3 = Seq::new(n, |i: int| if i != col && w2[i * n + col] != 0 {
            gf_sub(x2[i], gf_mul(w2[i * n + col], x2[col as int], f.p(), f.m(), f.f()), f.p(), f.m())
        } else {
            x2[i]
        });
        Some((w3, x3))
    }
}

/// Gauss-Jordan solving from column `col` on over a big field (see `solve_loop`).
pub open spec fn big_solve_loop(f: BigGaloisField, w: Seq<nat>, x: Seq<nat>, n: nat, col: nat) -> Option<Seq<nat>>
    decreases n - col,
{
    if col >= n {
        Some(x)
    } else {
        match big_solve_step(f, w, x, n, col) {
            None => None,
            Some((w2, x2)) => big_solve_loop(f, w2, x2, n, col + 1),
        }
    }
}

/// One pass of Gauss-Jordan elimination at `(pr, pc)` over a big field (see `ref_step`).
pub open spec fn big_ref_step(f: BigGaloisField, w: Seq<nat>, rows: nat, cols: nat, pr: nat, pc: nat) -> (Seq<nat>, nat, nat) {
    let pv = big_first_nonzero(w, rows, cols, pr, pc);
    if pv == rows {
        (w, pr, pc + 1)
    } else {
        let w1 = if pv != pr { big_swap_mat(w, rows, cols, pr as int, pv as int) } else { w };
        let inv = big_div_spec(f, 1, w1[(pr * cols + pc) as int]);
        let w2 = big_scale_mat(f, w1, rows, cols, pr as int, pc as int, inv);
        (big_clear_mat(f, w2, rows, cols, pr as int, pc as int, pc as int), pr + 1, pc + 1)
    }
}

/// The determinant accumulated by Gaussian elimination of the `n x n` matrix `w` over a big
/// field from column `col` on, `acc` being what the earlier columns gave: zero when a column
/// has no pivot, otherwise negated at a row swap and multiplied by the pivot, the matrix
/// then reduced as by `big_ref_step`.
pub open spec fn big_det_loop(f: BigGaloisField, w: Seq<nat>, n: nat, col: nat, acc: nat) -> nat
    decreases n - col,
{
    if col >= n {
        acc
    } else {
        let pv = big_first_nonzero(w, n, n, col, col);
        if pv == n {
            0
        } else {
            let acc1 = if pv != col { gf_neg(acc, f.p(), f.m()) } else { acc };
            let acc2 = gf_mul(acc1, w[(pv * n + col) as int], f.p(), f.m(), f.f());
            big_det_loop(f, big_ref_step(f, w, n, n, col, col).0, n, col + 1, acc2)
        }
    }
}

/// `big_first_nonzero` lies between `from` and `rows`, and below `rows` it is a nonzero entry.
pub proof fn lemma_big_first_nonzero(w: Seq<nat>, rows: nat, cols: nat, from: nat, col: nat)
    requires
        from <= rows,
    ensures
        from <= big_first_nonzero(w, rows, cols, from, col) <= rows,
        big_first_nonzero(w, rows, cols, from, col) < rows
            ==> w[(big_first_nonzero(w, rows, cols, from, col) * cols + col) as int] != 0,
    decreases rows - from,
{
    if from < rows && w[(from * cols + col) as int] == 0 {
        lemma_big_first_nonzero(w, rows, cols, from + 1, col);
    }
}

/// Over a prime big field, negating the determinant accumulated so far negates the result.
pub proof fn lemma_big_det_loop_neg(f: BigGaloisField, w: Seq<nat>, n: nat, col: nat, x: nat)
    requires
        f.wf(),
        f.m() == 1,
    ensures
        big_det_loop(f, w, n, col, gf_neg(x, f.p(), f.m())) == gf_neg(big_det_loop(f, w, n, col, x), f.p(), f.m()),
    decreases n - col,
{
    f.lemma_wf_params();
    crate::linalg::lemma_prime_neg_mul(f.p(), f.f(), 0, 0);
    if col < n {
        let pv = big_first_nonzero(w, n, n, col, col);
        if pv != n {
            let v = w[(pv * n + col) as int];
            let acc1 = if pv != col { gf_neg(x, f.p(), f.m()) } else { x };
            crate::linalg::lemma_prime_neg_mul(f.p(), f.f(), acc1, v);
            lemma_big_det_loop_neg(f, big_ref_step(f, w, n, n, col, col).0, n, col + 1, gf_mul(acc1, v, f.p(), f.m(), f.f()));
        }
    }
}

/// At any column `c` of the elimination, exchanging row `c` (zero in column `c`) with the
/// row of the first nonzero entry below it in column `c` negates what the remaining
/// columns give (in a prime field).
pub proof fn lemma_big_det_step_swap(f: BigGaloisField, w: Seq<nat>, n: nat, c: nat, k: nat, x: nat)
    requires
        f.wf(),
        f.m() == 1,
        c < n,
        w.len() == n * n,
        w[(c * n + c) as int] == 0,
        k == big_first_nonzero(w, n, n, c, c),
        k < n,
    ensures
        big_det_loop(f, w, n, c, x) == gf_neg(big_det_loop(f, big_swap_mat(w, n, n, c as int, k as int), n, c, x), f.p(), f.m()),
{
    f.lemma_wf_params();
    let b = big_swap_mat(w, n, n, c as int, k as int);
    assert(big_first_nonzero(w, n, n, c, c) == big_first_nonzero(w, n, n, c + 1, c));
    lemma_big_first_nonzero(w, n, n, c + 1, c);
    assert(k != c);
    lemma_rc_index(k as int, c as int, n as int, n as int);
    lemma_rc_index(c as int, c as int, n as int, n as int);
    assert(b[(c * n + c) as int] == w[(k * n + c) as int]);
    assert(b[(c * n + c) as int] != 0);
    assert(big_first_nonzero(b, n, n, c, c) == c);
    let v = w[(k * n + c) as int];
    assert(big_ref_step(f, w, n, n, c, c).0 == big_ref_step(f, b, n, n, c, c).0);
    crate::linalg::lemma_prime_neg_mul(f.p(), f.f(), x, v);
    lemma_big_det_loop_neg(f, big_ref_step(f, b, n, n, c, c).0, n, c + 1, gf_mul(x, v, f.p(), f.m(), f.f()));
}

/// Over a prime big field, swapping the first row with the row of the first nonzero entry
/// of the first column (when the first row has a zero there) negates the determinant.
pub proof fn law_big_det_row_swap(f: BigGaloisField, w: Seq<nat>, n: nat, k: nat)
    requires
        f.wf(),
        f.m() == 1,
        n >= 1,
        w.len() == n * n,
        w[0] == 0,
        k == big_first_nonzero(w, n, n, 0, 0),
        k < n,
    ensures
        big_det_loop(f, w, n, 0, 1) == gf_neg(big_det_loop(f, big_swap_mat(w, n, n, 0, k as int), n, 0, 1), f.p(), f.m()),
{
    lemma_rc_index(0, 0, n as int, n as int);
    lemma_big_det_step_swap(f, w, n, 0, k, 1);
}

/// Gauss-Jordan elimination from `(pr, pc)` on over a big field: the reduced matrix and
/// the number of pivot rows.
pub open spec fn big_ref_loop(f: BigGaloisField, w: Seq<nat>, rows: nat, cols: nat, pr: nat, pc: nat) -> (Seq<nat>, nat)
    decreases cols - pc,
{
    if pr < rows && pc < cols {
        let (w2, pr2, pc2) = big_ref_step(f, w, rows, cols, pr, pc);
        big_ref_loop(f, w2, rows, cols, pr2, pc2)
    } else {
        (w, pr)
    }
}

/// Swaps rows `r1` and `r2` of a row-major `rows x cols` matrix of elements.
fn swap_rows(w: &mut Vec<BigValue>, rows: usize, cols: usize, r1: usize, r2: usize, q: Ghost<nat>)
    requires
        old(w)@.len() == rows * cols,
        all_values_below(old(w)@, q@),
        r1 < rows,
        r2 < rows,
    ensures
        final(w)@.len() == old(w)@.len(),
        all_values_below(final(w)@, q@),
        forall|i: int, j: int| 0 <= i < rows && 0 <= j < cols ==> #[trigger] values_of(final(w)@)[i * cols + j]
            == row_swapped(values_of(old(w)@), cols as nat, r1 as int, r2 as int, i, j),
{
    let ghost w0 = values_of(w@);
    let mut j: usize = 0;
    while j < cols
        invariant
            w@.len() == rows * cols,
            w0.len() == rows * cols,
            all_values_below(w@, q@),
            r1 < rows,
            r2 < rows,
            j <= cols,
            forall|i: int, j2: int| 0 <= i < rows && 0 <= j2 < cols ==> #[trigger] values_of(w@)[i * cols + j2]
                == if j2 < j { row_swapped(w0, cols as nat, r1 as int, r2 as int, i, j2) } else { w0[i * cols + j2] },
        decreases cols - j,
    {
        let a = pos(r1, j, rows, cols, w.len());
        let b = pos(r2, j, rows, cols, w.len());
        let ghost before = values_of(w@);
        let tmp = w[a].clone();
        let other = w[b].clone();
        w.set(a, other);
        w.set(b, tmp);
        proof {
            assert(before[a as int] == w0[a as int]);
            assert(before[b as int] == w0[b as int]);
            assert(values_of(w@) =~= before.update(a as int, before[b as int]).update(b as int, before[a as int]));
            assert forall|i: int, j2: int| 0 <= i < rows && 0 <= j2 < cols implies #[trigger] values_of(w@)[i * cols + j2]
                == if j2 < j + 1 { row_swapped(w0, cols as nat, r1 as int, r2 as int, i, j2) } else { w0[i * cols + j2] } by {
                lemma_index(i, j2, rows as int, cols as int);
                let k = i * cols + j2;
                if k == b as int {
                    lemma_index_unique(i, j2, r2 as int, j as int, cols as int);
                } else if k == a as int {
                    lemma_index_unique(i, j2, r1 as int, j as int, cols as int);
                } else {
                    if j2 == j {
                        if i == r1 {
                            assert(k == a);
                        }
                        if i == r2 {
                            assert(k == b);
                        }
                    }
                }
            }
            assert forall|k: int| 0 <= k < w@.len() implies (#[trigger] w@[k]).value() < q@ by {
                assert(w@[k].value() == values_of(w@)[k]);
            }
        }
        j = j + 1;
    }
}

/// Multiplies the entries of row `r` from column `start` on by `s`.
fn scale_row(w: &mut Vec<BigValue>, rows: usize, cols: usize, r: usize, start: usize, s: &BigValue, field: &BigGaloisField)
    requires
        field.wf(),
        old(w)@.len() == rows * cols,
        all_values_below(old(w)@, field.q()),
        r < rows,
    ensures
        final(w)@.len() == old(w)@.len(),
        all_values_below(final(w)@, field.q()),
        forall|i: int, j: int| 0 <= i < rows && 0 <= j < cols ==> #[trigger] values_of(final(w)@)[i * cols + j]
            == big_row_scaled(*field, values_of(old(w)@), cols as nat, r as int, start as int, s.value(), i, j),
{
    let ghost w0 = values_of(w@);
    let mut j: usize = start;
    while j < cols
        invariant
            field.wf(),
            w@.len() == rows * cols,
            w0.len() == rows * cols,
            all_values_below(w@, field.q()),
            r < rows,
            start <= j,
            forall|i: int, j2: int| 0 <= i < rows && 0 <= j2 < cols ==> #[trigger] values_of(w@)[i * cols + j2]
                == if j2 < j { big_row_scaled(*field, w0, cols as nat, r as int, start as int, s.value(), i, j2) }
                    else { w0[i * cols + j2] },
        decreases cols - j,
    {
        let a = pos(r, j, rows, cols, w.len());
        let ghost before = values_of(w@);
        let ghost wb = w@;
        assert(before[a as int] == w0[a as int]);
        assert(w@[a as int].value() == before[a as int]);
        let v = field.mul(&w[a], s);
        let ghost vv = v.value();
        w.set(a, v);
        proof {
            assert(values_of(w@) =~= before.update(a as int, vv));
            assert forall|i: int, j2: int| 0 <= i < rows && 0 <= j2 < cols implies #[trigger] values_of(w@)[i * cols + j2]
                == if j2 < j + 1 { big_row_scaled(*field, w0, cols as nat, r as int, start as int, s.value(), i, j2) }
                    else { w0[i * cols + j2] } by {
                lemma_index(i, j2, rows as int, cols as int);
                let k = i * cols + j2;
                if k == a as int {
                    lemma_index_unique(i, j2, r as int, j as int, cols as int);
                } else if j2 == j && i == r {
                    assert(k == a);
                }
            }
            assert forall|k: int| 0 <= k < w@.len() implies (#[trigger] w@[k]).value() < field.q() by {
                if k != a {
                    assert(w@[k] == wb[k]);
                }
            }
        }
        j = j + 1;
    }
    proof {
        assert forall|i: int, j2: int| 0 <= i < rows && 0 <= j2 < cols implies #[trigger] values_of(w@)[i * cols + j2]
            == big_row_scaled(*field, w0, cols as nat, r as int, start as int, s.value(), i, j2) by {
            if j2 < start {
            }
        }
    }
}

/// Subtracts `factor` times row `p` from row `r`, from column `start` on.
fn eliminate_row(w: &mut Vec<BigValue>, rows: usize, cols: usize, r: usize, p: usize, start: usize, factor: &BigValue,
    field: &BigGaloisField)
    requires
        field.wf(),
        old(w)@.len() == rows * cols,
        all_values_below(old(w)@, field.q()),
        r < rows,
        p < rows,
    ensures
        final(w)@.len() == old(w)@.len(),
        all_values_below(final(w)@, field.q()),
        forall|i: int, j: int| 0 <= i < rows && 0 <= j < cols ==> #[trigger] values_of(final(w)@)[i * cols + j]
            == big_row_eliminated(*field, values_of(old(w)@), cols as nat, r as int, p as int, start as int, factor.value(), i, j),
{
    let ghost w0 = values_of(w@);
    let mut j: usize = start;
    while j < cols
        invariant
            field.wf(),
            w@.len() == rows * cols,
            w0.len() == rows * cols,
            all_values_below(w@, field.q()),
            r < rows,
            p < rows,
            start <= j,
            forall|i: int, j2: int| 0 <= i < rows && 0 <= j2 < cols ==> #[trigger] values_of(w@)[i * cols + j2]
                == if j2 < j { big_row_eliminated(*field, w0, cols as nat, r as int, p as int, start as int, factor.value(), i, j2) }
                    else { w0[i * cols + j2] },
        decreases cols - j,
    {
        let a = pos(r, j, rows, cols, w.len());
        let b = pos(p, j, rows, cols, w.len());
        let ghost before = values_of(w@);
        assert(before[a as int] == w0[a as int]);
        assert(before[b as int] == w0[b as int]);
        assert(w@[a as int].value() == before[a as int]);
        assert(w@[b as int].value() == before[b as int]);
        let t = field.mul(factor, &w[b]);
        let v = field.sub(&w[a], &t);
        let ghost vv = v.value();
        w.set(a, v);
        proof {
            assert(values_of(w@) =~= before.update(a as int, vv));
            assert forall|i: int, j2: int| 0 <= i < rows && 0 <= j2 < cols implies #[trigger] values_of(w@)[i * cols + j2]
                == if j2 < j + 1 { big_row_eliminated(*field, w0, cols as nat, r as int, p as int, start as int, factor.value(), i, j2) }
                    else { w0[i * cols + j2] } by {
                lemma_index(i, j2, rows as int, cols as int);
                let k = i * cols + j2;
                if k == a as int {
                    lemma_index_unique(i, j2, r as int, j as int, cols as int);
                } else if j2 == j && i == r {
                    assert(k == a);
                }
            }
            assert forall|k: int| 0 <= k < w@.len() implies (#[trigger] w@[k]).value() < field.q() by {
                assert(w@[k].value() == values_of(w@)[k]);
            }
        }
        j = j + 1;
    }
    proof {
        assert forall|i: int, j2: int| 0 <= i < rows && 0 <= j2 < cols implies #[trigger] values_of(w@)[i * cols + j2]
            == big_row_eliminated(*field, w0, cols as nat, r as int, p as int, start as int, factor.value(), i, j2) by {
            if j2 < start {
            }
        }
    }
}

/// The first row from `from` on whose entry in column `col` is nonzero, or `rows`.
fn find_pivot(w: &Vec<BigValue>, rows: usize, cols: usize, from: usize, col: usize) -> (r: usize)
    requires
        w@.len() == rows * cols,
        col < cols,
    ensures
        from <= rows ==> from <= r <= rows,
        from > rows ==> r == from,
        r < rows ==> w@[r * cols + col].value() != 0,
        from <= rows ==> r == big_first_nonzero(values_of(w@), rows as nat, cols as nat, from as nat, col as nat),
{
    let mut pivot = from;
    while pivot < rows
        invariant
            w@.len() == rows * cols,
            col < cols,
            from <= pivot,
            from <= rows ==> pivot <= rows,
            from > rows ==> pivot == from,
            from <= rows ==> big_first_nonzero(values_of(w@), rows as nat, cols as nat, from as nat, col as nat)
                == big_first_nonzero(values_of(w@), rows as nat, cols as nat, pivot as nat, col as nat),
        decreases rows - pivot,
    {
        let a = pos(pivot, col, rows, cols, w.len());
        assert(values_of(w@)[a as int] == w@[a as int].value());
        if !w[a].is_zero() {
            return pivot;
        }
        pivot = pivot + 1;
    }
    pivot
}

/// A copy of a vector of values.
fn copy_values(v: &Vec<BigValue>) -> (r: Vec<BigValue>)
    ensures
        values_of(r@) == values_of(v@),
        r@.len() == v@.len(),
        forall|k: int| 0 <= k < v@.len() ==> (#[trigger] r@[k]).value() == v@[k].value(),
{
    let mut out: Vec<BigValue> = Vec::new();
    let mut i: usize = 0;
    while i < v.len()
        invariant
            i <= v@.len(),
            out@.len() == i,
            forall|k: int| 0 <= k < i ==> (#[trigger] out@[k]).value() == v@[k].value(),
        decreases v@.len() - i,
    {
        out.push(v[i].clone());
        i = i + 1;
    }
    assert(values_of(out@) =~= values_of(v@));
    out
}

impl BigFieldMatrix {
    proof fn lemma_data_below(&self)
        requires
            self.wf(),
        ensures
            all_values_below(self.data@, self.field_view().q()),
    {
        assert forall|k: int| 0 <= k < self.data@.len() implies (#[trigger] self.data@[k]).value() < self.field_view().q() by {
            assert(self.values_view()[k] == self.data@[k].value());
        }
    }

    /// `ShapeMismatch` (this shape, other shape) unless both matrices have the same shape.
    fn ensure_same_shape(&self, other: &Self) -> (r: Result<()>)
        ensures
            r is Ok <==> (self.nrows() == other.nrows() && self.ncols() == other.ncols()),
            r matches Err(e) ==> (e matches GaloisError::ShapeMismatch { expected, actual }
                && expected@ == seq![self.nrows() as usize, self.ncols() as usize]
                && actual@ == seq![other.nrows() as usize, other.ncols() as usize]),
    {
        if self.rows != other.rows || self.cols != other.cols {
            return Err(GaloisError::ShapeMismatch { expected: vec![self.rows, self.cols], actual: vec![other.rows, other.cols] });
        }
        Ok(())
    }

    /// Entrywise sum (`subtract` false) or difference of matrices of the same shape.
    fn combine(&self, other: &Self, subtract: bool) -> (r: Self)
        requires
            self.wf(),
            other.wf(),
            self.nrows() == other.nrows(),
            self.ncols() == other.ncols(),
        ensures
            r.wf(),
            big_equiv(r.field_view(), self.field_view()),
            r.nrows() == self.nrows(),
            r.ncols() == self.ncols(),
            forall|k: int| 0 <= k < r.values_view().len() ==> #[trigger] r.values_view()[k] == (if subtract {
                gf_sub(self.values_view()[k], other.values_view()[k], self.field_view().p(), self.field_view().m()) } else {
                gf_add(self.values_view()[k], other.values_view()[k], self.field_view().p(), self.field_view().m()) }),
    {
        let ghost f = self.field_view();
        let mut out: Vec<BigValue> = Vec::new();
        let mut k: usize = 0;
        while k < self.data.len()
            invariant
                self.wf(),
                other.wf(),
                f == self.field_view(),
                self.values_view().len() == other.values_view().len(),
                k <= self.data@.len(),
                out@.len() == k,
                forall|t: int| 0 <= t < k ==> (#[trigger] out@[t]).value() == (if subtract {
                    gf_sub(self.values_view()[t], other.values_view()[t], f.p(), f.m()) } else {
                    gf_add(self.values_view()[t], other.values_view()[t], f.p(), f.m()) }),
                forall|t: int| 0 <= t < k ==> (#[trigger] out@[t]).value() < f.q(),
            decreases self.data@.len() - k,
        {
            assert(self.data@[k as int].value() == self.values_view()[k as int]);
            assert(other.data@[k as int].value() == other.values_view()[k as int]);
            let v = if subtract { self.field.sub(&self.data[k], &other.data[k]) } else { self.field.add(&self.data[k], &other.data[k]) };
            out.push(v);
            k = k + 1;
        }
        let r = BigFieldMatrix { field: self.field.clone(), rows: self.rows, cols: self.cols, data: out };
        assert forall|t: int| 0 <= t < r.values_view().len() implies (#[trigger] r.values_view()[t]) < r.field_view().q() by {
            assert(r.values_view()[t] == out@[t].value());
        }
        r
    }

    /// Entrywise sum; `ShapeMismatch` (this shape, other shape) for different shapes.
    pub fn add(&self, other: &Self) -> (r: Result<Self>)
        requires
            self.wf(),
            other.wf(),
        ensures
            !(self.nrows() == other.nrows() && self.ncols() == other.ncols()) ==>
                (r matches Err(GaloisError::ShapeMismatch { expected, actual })
                && expected@ == seq![self.nrows() as usize, self.ncols() as usize]
                && actual@ == seq![other.nrows() as usize, other.ncols() as usize]),
            (self.nrows() == other.nrows() && self.ncols() == other.ncols()) ==> (r matches Ok(c) && c.wf()
                && big_equiv(c.field_view(), self.field_view()) && c.nrows() == self.nrows() && c.ncols() == self.ncols()
                && forall|k: int| 0 <= k < c.values_view().len() ==> #[trigger] c.values_view()[k]
                    == gf_add(self.values_view()[k], other.values_view()[k], self.field_view().p(), self.field_view().m())),
    {
        if let Err(e) = self.ensure_same_shape(other) {
            return Err(e);
        }
        Ok(self.combine(other, false))
    }

    /// Entrywise difference; `ShapeMismatch` (this shape, other shape) for different shapes.
    pub fn sub(&self, other: &Self) -> (r: Result<Self>)
        requires
            self.wf(),
            other.wf(),
        ensures
            !(self.nrows() == other.nrows() && self.ncols() == other.ncols()) ==>
                (r matches Err(GaloisError::ShapeMismatch { expected, actual })
                && expected@ == seq![self.nrows() as usize, self.ncols() as usize]
                && actual@ == seq![other.nrows() as usize, other.ncols() as usize]),
            (self.nrows() == other.nrows() && self.ncols() == other.ncols()) ==> (r matches Ok(c) && c.wf()
                && big_equiv(c.field_view(), self.field_view()) && c.nrows() == self.nrows() && c.ncols() == self.ncols()
                && forall|k: int| 0 <= k < c.values_view().len() ==> #[trigger] c.values_view()[k]
                    == gf_sub(self.values_view()[k], other.values_view()[k], self.field_view().p(), self.field_view().m())),
    {
        if let Err(e) = self.ensure_same_shape(other) {
            return Err(e);
        }
        Ok(self.combine(other, true))
    }

    /// Sum of the diagonal entries.
    pub fn trace(&self) -> (r: BigValue)
        requires
            self.wf(),
        ensures
            r.value() == big_diag_sum(self.field_view(), self.values_view(), self.ncols(),
                if self.nrows() <= self.ncols() { self.nrows() } else { self.ncols() }),
            r.value() < self.field_view().q(),
    {
        let n = if self.rows <= self.cols { self.rows } else { self.cols };
        let mut t = BigValue::from_u64(0);
        proof { self.field_view().lemma_q_ge_2(); }
        let mut i: usize = 0;
        while i < n
            invariant
                self.wf(),
                n <= self.rows,
                n <= self.cols,
                i <= n,
                t.value() == big_diag_sum(self.field_view(), self.values_view(), self.cols as nat, i as nat),
                t.value() < self.field_view().q(),
            decreases n - i,
        {
            let d = self.get(i, i);
            t = self.field.add(&t, d);
            i = i + 1;
        }
        t
    }

    /// The determinant by Gaussian elimination (product of the pivots, negated at each row
    /// swap, zero when a column has no pivot); `ShapeMismatch` (`[rows, rows]`, shape) for a
    /// matrix that is not square.
    pub fn det(&self) -> (r: Result<BigValue>)
        requires
            self.wf(),
        ensures
            self.nrows() != self.ncols() ==> (r matches Err(GaloisError::ShapeMismatch { expected, actual })
                && expected@ == seq![self.nrows() as usize, self.nrows() as usize]
                && actual@ == seq![self.nrows() as usize, self.ncols() as usize]),
            self.nrows() == self.ncols() ==> (r matches Ok(d) && d.value() < self.field_view().q()
                && d.value() == big_det_loop(self.field_view(), self.values_view(), self.nrows(), 0, 1)),
    {
        if self.rows != self.cols {
            return Err(GaloisError::ShapeMismatch { expected: vec![self.rows, self.rows], actual: vec![self.rows, self.cols] });
        }
        let n = self.rows;
        let field = &self.field;
        proof { field.lemma_q_ge_2(); field.lemma_wf_params(); self.lemma_data_below(); }
        let mut m = copy_values(&self.data);
        assert(all_values_below(m@, field.q()));
        let ghost f = self.field_view();
        let ghost nn = n as nat;
        assert(values_of(m@) == self.values_view());
        let mut det = BigValue::from_u64(1);
        let mut col: usize = 0;
        while col < n
            invariant
                field.wf(),
                field.q() >= 2,
                field.q() == crate::arith::npow(field.p(), field.m()),
                *field == self.field_view(),
                *field == f,
                n == self.nrows(),
                n == self.ncols(),
                nn == n as nat,
                m@.len() == n * n,
                all_values_below(m@, field.q()),
                det.value() < field.q(),
                col <= n,
                big_det_loop(f, values_of(m@), nn, col as nat, det.value()) == big_det_loop(f, self.values_view(), nn, 0, 1),
            decreases n - col,
        {
            let ghost w0 = values_of(m@);
            let ghost c = col as nat;
            let ghost det0 = det.value();
            let pivot = find_pivot(&m, n, n, col, col);
            if pivot == n {
                return Ok(BigValue::from_u64(0));
            }
            let ghost pv = pivot as nat;
            proof {
                lemma_rc_index(pv as int, c as int, nn as int, nn as int);
                lemma_rc_index(c as int, c as int, nn as int, nn as int);
            }
            if pivot != col {
                swap_rows(&mut m, n, n, col, pivot, Ghost(field.q()));
                proof {
                    if field.m() == 1 {
                        crate::arith::lemma_npow_one(field.p());
                    }
                    assert forall|i: int, j: int| 0 <= i < nn && 0 <= j < nn implies #[trigger] values_of(m@)[i * nn + j]
                        == big_swap_mat(w0, nn, nn, c as int, pv as int)[i * nn + j] by {
                        lemma_rc_index(i, j, nn as int, nn as int);
                    }
                    lemma_rc_eq(values_of(m@), big_swap_mat(w0, nn, nn, c as int, pv as int), nn, nn);
                }
                det = field.neg(&det);
            }
            let ghost w1 = values_of(m@);
            assert(w1 == (if pv != c { big_swap_mat(w0, nn, nn, c as int, pv as int) } else { w0 }));
            let d = pos(col, col, n, n, m.len());
            let pivot_val = m[d].clone();
            assert(pivot_val.value() == w1[(c * nn + c) as int]);
            assert(w1[(c * nn + c) as int] == w0[(pv * nn + c) as int]);
            det = field.mul(&det, &pivot_val);
            let one = BigValue::from_u64(1);
            let inv = match field.div(&one, &pivot_val) {
                Ok(v) => v,
                Err(e) => { return Err(e); },
            };
            assert(inv.value() == big_div_spec(f, 1, w1[(c * nn + c) as int]));
            scale_row(&mut m, n, n, col, col, &inv, field);
            proof {
                assert forall|i: int, j: int| 0 <= i < nn && 0 <= j < nn implies #[trigger] values_of(m@)[i * nn + j]
                    == big_scale_mat(f, w1, nn, nn, c as int, c as int, inv.value())[i * nn + j] by {
                    lemma_rc_index(i, j, nn as int, nn as int);
                }
                lemma_rc_eq(values_of(m@), big_scale_mat(f, w1, nn, nn, c as int, c as int, inv.value()), nn, nn);
            }
            let ghost w2 = values_of(m@);
            let mut row: usize = 0;
            while row < n
                invariant
                    field.wf(),
                    *field == f,
                    n == self.nrows(),
                    nn == n as nat,
                    m@.len() == n * n,
                    w2.len() == n * n,
                    all_values_below(m@, field.q()),
                    col < n,
                    c == col as nat,
                    row <= n,
                    forall|i: int, j: int| 0 <= i < nn && 0 <= j < nn ==> #[trigger] values_of(m@)[i * nn + j]
                        == if i < row { big_cleared_entry(f, w2, nn, c as int, c as int, c as int, i, j) } else { w2[i * nn + j] },
                decreases n - row,
            {
                let ghost mb = values_of(m@);
                if row != col {
                    let f_at = pos(row, col, n, n, m.len());
                    let factor = m[f_at].clone();
                    assert(factor.value() == mb[f_at as int]);
                    assert(factor.value() == w2[(row * nn + c) as int]);
                    if !factor.is_zero() {
                        eliminate_row(&mut m, n, n, row, col, col, &factor, field);
                        proof {
                            assert forall|i: int, j: int| 0 <= i < nn && 0 <= j < nn implies #[trigger] values_of(m@)[i * nn + j]
                                == if i < row + 1 { big_cleared_entry(f, w2, nn, c as int, c as int, c as int, i, j) } else { w2[i * nn + j] } by {
                                assert(mb[i * nn + j] == if i < row { big_cleared_entry(f, w2, nn, c as int, c as int, c as int, i, j) } else { w2[i * nn + j] });
                                if i == row as int && j >= c {
                                    assert(mb[(c as int) * nn + j] == w2[(c as int) * nn + j]);
                                }
                            }
                        }
                    }
                }
                row = row + 1;
            }
            proof {
                assert forall|i: int, j: int| 0 <= i < nn && 0 <= j < nn implies #[trigger] values_of(m@)[i * nn + j]
                    == big_clear_mat(f, w2, nn, nn, c as int, c as int, c as int)[i * nn + j] by {
                    lemma_rc_index(i, j, nn as int, nn as int);
                }
                lemma_rc_eq(values_of(m@), big_clear_mat(f, w2, nn, nn, c as int, c as int, c as int), nn, nn);
                assert(big_ref_step(f, w0, nn, nn, c, c) == (values_of(m@), c + 1, c + 1));
                assert(big_det_loop(f, w0, nn, c, det0) == big_det_loop(f, values_of(m@), nn, c + 1, det.value()));
            }
            col = col + 1;
        }
        Ok(det)
    }

    /// Reduced row echelon form by Gauss-Jordan elimination, with the number of pivots.
    pub fn row_echelon_form(&self) -> (r: (Self, usize))
        requires
            self.wf(),
        ensures
            r.0.wf(),
            big_equiv(r.0.field_view(), self.field_view()),
            r.0.nrows() == self.nrows(),
            r.0.ncols() == self.ncols(),
            r.1 <= self.nrows(),
            r.1 <= self.ncols(),
            (r.0.values_view(), r.1 as nat) == big_ref_loop(self.field_view(), self.values_view(), self.nrows(), self.ncols(), 0, 0),
    {
        let rows = self.rows;
        let cols = self.cols;
        let field = &self.field;
        proof { field.lemma_q_ge_2(); self.lemma_data_below(); }
        let mut m = copy_values(&self.data);
        assert(all_values_below(m@, field.q()));
        let ghost f = self.field_view();
        let ghost (rn, cn) = (rows as nat, cols as nat);
        assert(values_of(m@) == self.values_view());
        let mut pivot_row: usize = 0;
        let mut pivot_col: usize = 0;
        while pivot_row < rows && pivot_col < cols
            invariant
                field.wf(),
                *field == f,
                f == self.field_view(),
                field.q() >= 2,
                rows == self.nrows(),
                cols == self.ncols(),
                rn == rows as nat,
                cn == cols as nat,
                m@.len() == rows * cols,
                all_values_below(m@, field.q()),
                pivot_row <= rows,
                pivot_col <= cols,
                pivot_row <= pivot_col,
                big_ref_loop(f, values_of(m@), rn, cn, pivot_row as nat, pivot_col as nat)
                    == big_ref_loop(f, self.values_view(), rn, cn, 0, 0),
            decreases cols - pivot_col,
        {
            let ghost w0 = values_of(m@);
            let ghost (pr, pc) = (pivot_row as nat, pivot_col as nat);
            let pivot = find_pivot(&m, rows, cols, pivot_row, pivot_col);
            if pivot == rows {
                assert(big_ref_step(f, w0, rn, cn, pr, pc) == (w0, pr, pc + 1));
                pivot_col = pivot_col + 1;
                continue;
            }
            let ghost pv = pivot as nat;
            if pivot != pivot_row {
                swap_rows(&mut m, rows, cols, pivot_row, pivot, Ghost(field.q()));
                proof {
                    assert forall|i: int, j: int| 0 <= i < rn && 0 <= j < cn implies #[trigger] values_of(m@)[i * cn + j]
                        == big_swap_mat(w0, rn, cn, pr as int, pv as int)[i * cn + j] by {
                        lemma_rc_index(i, j, rn as int, cn as int);
                    }
                    lemma_rc_eq(values_of(m@), big_swap_mat(w0, rn, cn, pr as int, pv as int), rn, cn);
                }
            }
            let ghost w1 = values_of(m@);
            assert(w1 == (if pv != pr { big_swap_mat(w0, rn, cn, pr as int, pv as int) } else { w0 }));
            let d = pos(pivot_row, pivot_col, rows, cols, m.len());
            proof {
                lemma_rc_index(pr as int, pc as int, rn as int, cn as int);
                lemma_rc_index(pv as int, pc as int, rn as int, cn as int);
                assert(w0[(pv * cn + pc) as int] != 0);
                assert(values_of(m@)[d as int] != 0);
            }
            let one = BigValue::from_u64(1);
            let inv = match field.div(&one, &m[d]) {
                Ok(v) => v,
                Err(_) => BigValue::from_u64(0),
            };
            assert(m@[d as int].value() == w1[(pr * cn + pc) as int]);
            assert(inv.value() == big_div_spec(f, 1, w1[(pr * cn + pc) as int]));
            scale_row(&mut m, rows, cols, pivot_row, pivot_col, &inv, field);
            proof {
                assert forall|i: int, j: int| 0 <= i < rn && 0 <= j < cn implies #[trigger] values_of(m@)[i * cn + j]
                    == big_scale_mat(f, w1, rn, cn, pr as int, pc as int, inv.value())[i * cn + j] by {
                    lemma_rc_index(i, j, rn as int, cn as int);
                }
                lemma_rc_eq(values_of(m@), big_scale_mat(f, w1, rn, cn, pr as int, pc as int, inv.value()), rn, cn);
            }
            let ghost w2 = values_of(m@);
            let mut row: usize = 0;
            while row < rows
                invariant
                    field.wf(),
                    *field == f,
                    rows == self.nrows(),
                    rn == rows as nat,
                    cn == cols as nat,
                    m@.len() == rows * cols,
                    w2.len() == rows * cols,
                    all_values_below(m@, field.q()),
                    pivot_row < rows,
                    pivot_col < cols,
                    pr == pivot_row as nat,
                    pc == pivot_col as nat,
                    row <= rows,
                    forall|i: int, j: int| 0 <= i < rn && 0 <= j < cn ==> #[trigger] values_of(m@)[i * cn + j]
                        == if i < row { big_cleared_entry(f, w2, cn, pr as int, pc as int, pc as int, i, j) } else { w2[i * cn + j] },
                decreases rows - row,
            {
                let ghost mb = values_of(m@);
                if row != pivot_row {
                    let f_at = pos(row, pivot_col, rows, cols, m.len());
                    let factor = m[f_at].clone();
                    assert(factor.value() == mb[f_at as int]);
                    assert(factor.value() == w2[(row * cn + pc) as int]);
                    if !factor.is_zero() {
                        eliminate_row(&mut m, rows, cols, row, pivot_row, pivot_col, &factor, field);
                        proof {
                            assert forall|i: int, j: int| 0 <= i < rn && 0 <= j < cn implies #[trigger] values_of(m@)[i * cn + j]
                                == if i < row + 1 { big_cleared_entry(f, w2, cn, pr as int, pc as int, pc as int, i, j) } else { w2[i * cn + j] } by {
                                assert(mb[i * cn + j] == if i < row { big_cleared_entry(f, w2, cn, pr as int, pc as int, pc as int, i, j) } else { w2[i * cn + j] });
                                if i == row as int && j >= pc {
                                    assert(mb[(pr as int) * cn + j] == w2[(pr as int) * cn + j]);
                                }
                            }
                        }
                    }
                }
                row = row + 1;
            }
            proof {
                assert forall|i: int, j: int| 0 <= i < rn && 0 <= j < cn implies #[trigger] values_of(m@)[i * cn + j]
                    == big_clear_mat(f, w2, rn, cn, pr as int, pc as int, pc as int)[i * cn + j] by {
                    lemma_rc_index(i, j, rn as int, cn as int);
                }
                lemma_rc_eq(values_of(m@), big_clear_mat(f, w2, rn, cn, pr as int, pc as int, pc as int), rn, cn);
                assert(big_ref_step(f, w0, rn, cn, pr, pc) == (values_of(m@), pr + 1, pc + 1));
            }
            pivot_row = pivot_row + 1;
            pivot_col = pivot_col + 1;
        }
        let r = BigFieldMatrix { field: self.field.clone(), rows, cols, data: m };
        proof { Self::lemma_below(m@, field.q()); }
        (r, pivot_row)
    }

    /// The number of pivots of the reduced row echelon form.
    pub fn rank(&self) -> (r: usize)
        requires
            self.wf(),
        ensures
            r <= self.nrows(),
            r <= self.ncols(),
            r as nat == big_ref_loop(self.field_view(), self.values_view(), self.nrows(), self.ncols(), 0, 0).1,
    {
        self.row_echelon_form().1
    }
}


/// The matrix-vector product of `A` and `x` is `b`.
pub open spec fn big_solves(a: &BigFieldMatrix, x: Seq<nat>, b: Seq<nat>) -> bool {
    &&& x.len() == a.ncols()
    &&& b.len() == a.nrows()
    &&& forall|i: int| 0 <= i < a.nrows() ==> #[trigger] big_row_dot(a.field_view(), a.values_view(), a.ncols(), i, x, a.ncols()) == b[i]
}

impl BigFieldMatrix {
    /// Matrix product; `ShapeMismatch` (rows of this, columns of other; columns of this,
    /// rows of other) when the inner dimensions differ.
    pub fn mul(&self, other: &Self) -> (r: Result<Self>)
        requires
            self.wf(),
            other.wf(),
            self.nrows() * other.ncols() <= usize::MAX,
        ensures
            self.ncols() != other.nrows() ==> (r matches Err(GaloisError::ShapeMismatch { expected, actual })
                && expected@ == seq![self.nrows() as usize, other.ncols() as usize]
                && actual@ == seq![self.ncols() as usize, other.nrows() as usize]),
            self.ncols() == other.nrows() ==> (r matches Ok(c) && c.wf()
                && big_equiv(c.field_view(), self.field_view()) && c.nrows() == self.nrows() && c.ncols() == other.ncols()
                && forall|i: int, j: int| 0 <= i < c.nrows() && 0 <= j < c.ncols() ==> #[trigger] c.at(i, j)
                    == big_dot_prefix(self.field_view(), self.values_view(), self.ncols(), other.values_view(), other.ncols(), i, j, self.ncols())),
    {
        if self.cols != other.rows {
            return Err(GaloisError::ShapeMismatch { expected: vec![self.rows, other.cols], actual: vec![self.cols, other.rows] });
        }
        let m = self.rows;
        let k = self.cols;
        let n = other.cols;
        let ghost f = self.field_view();
        let ghost a = self.values_view();
        let ghost b = other.values_view();
        proof { f.lemma_q_ge_2(); }
        let mut out: Vec<BigValue> = Vec::new();
        let mut i: usize = 0;
        while i < m
            invariant
                self.wf(),
                other.wf(),
                f == self.field_view(),
                a == self.values_view(),
                b == other.values_view(),
                m == self.nrows(), k == self.ncols(), k == other.nrows(), n == other.ncols(),
                m * n <= usize::MAX,
                f.q() >= 2,
                i <= m,
                out@.len() == i * n,
                all_values_below(out@, f.q()),
                forall|x: int, y: int| 0 <= x < i && 0 <= y < n ==> #[trigger] out@[x * n + y].value()
                    == big_dot_prefix(f, a, k as nat, b, n as nat, x, y, k as nat),
            decreases m - i,
        {
            let mut j: usize = 0;
            while j < n
                invariant
                    self.wf(),
                    other.wf(),
                    f == self.field_view(),
                    a == self.values_view(),
                    b == other.values_view(),
                    m == self.nrows(), k == self.ncols(), k == other.nrows(), n == other.ncols(),
                    m * n <= usize::MAX,
                    f.q() >= 2,
                    i < m,
                    j <= n,
                    out@.len() == i * n + j,
                    all_values_below(out@, f.q()),
                    forall|x: int, y: int| 0 <= x < i && 0 <= y < n ==> #[trigger] out@[x * n + y].value()
                        == big_dot_prefix(f, a, k as nat, b, n as nat, x, y, k as nat),
                    forall|y: int| 0 <= y < j ==> #[trigger] out@[i * n + y].value()
                        == big_dot_prefix(f, a, k as nat, b, n as nat, i as int, y, k as nat),
                decreases n - j,
            {
                let mut sum = BigValue::from_u64(0);
                let mut l: usize = 0;
                while l < k
                    invariant
                        self.wf(),
                        other.wf(),
                        f == self.field_view(),
                        a == self.values_view(),
                        b == other.values_view(),
                        m == self.nrows(), k == self.ncols(), k == other.nrows(), n == other.ncols(),
                        f.q() >= 2,
                        i < m,
                        j < n,
                        l <= k,
                        sum.value() == big_dot_prefix(f, a, k as nat, b, n as nat, i as int, j as int, l as nat),
                        sum.value() < f.q(),
                    decreases k - l,
                {
                    let x = self.get(i, l);
                    let y = other.get(l, j);
                    let prod = self.field.mul(x, y);
                    sum = self.field.add(&sum, &prod);
                    l = l + 1;
                }
                proof { lemma_index(i as int, j as int, m as int, n as int); }
                let ghost before = out@;
                out.push(sum);
                proof {
                    assert forall|x: int, y: int| 0 <= x < i && 0 <= y < n implies #[trigger] out@[x * n + y].value()
                        == big_dot_prefix(f, a, k as nat, b, n as nat, x, y, k as nat) by {
                        lemma_index(x, y, i as int, n as int);
                        assert(out@[x * n + y] == before[x * n + y]);
                    }
                    assert forall|y: int| 0 <= y < j + 1 implies #[trigger] out@[i * n + y].value()
                        == big_dot_prefix(f, a, k as nat, b, n as nat, i as int, y, k as nat) by {
                        if y < j {
                            assert(out@[i * n + y] == before[i * n + y]);
                        }
                    }
                }
                j = j + 1;
            }
            proof {
                assert((i + 1) * n == i * n + n) by (nonlinear_arith);
            }
            i = i + 1;
        }
        let c = BigFieldMatrix { field: self.field.clone(), rows: m, cols: n, data: out };
        proof {
            Self::lemma_below(out@, f.q());
            assert forall|x: int, y: int| 0 <= x < m && 0 <= y < n implies #[trigger] c.at(x, y)
                == big_dot_prefix(f, a, k as nat, b, n as nat, x, y, k as nat) by {
                lemma_index(x, y, m as int, n as int);
                assert(c.at(x, y) == out@[x * n + y].value());
            }
        }
        Ok(c)
    }

    /// Whether `self x = b`, row by row.
    fn check_solution(&self, x: &Vec<BigValue>, b: &Vec<BigValue>) -> (r: bool)
        requires
            self.wf(),
            x@.len() == self.ncols(),
            b@.len() == self.nrows(),
        ensures
            r == big_solves(self, values_of(x@), values_of(b@)),
    {
        let ghost f = self.field_view();
        let ghost xs = values_of(x@);
        let mut i: usize = 0;
        while i < self.rows
            invariant
                self.wf(),
                f == self.field_view(),
                xs == values_of(x@),
                x@.len() == self.ncols(),
                b@.len() == self.nrows(),
                i <= self.nrows(),
                forall|t: int| 0 <= t < i ==> #[trigger] big_row_dot(f, self.values_view(), self.ncols(), t, xs, self.ncols())
                    == values_of(b@)[t],
            decreases self.nrows() - i,
        {
            let mut sum = BigValue::from_u64(0);
            let mut l: usize = 0;
            while l < self.cols
                invariant
                    self.wf(),
                    f == self.field_view(),
                    xs == values_of(x@),
                    x@.len() == self.ncols(),
                    i < self.nrows(),
                    l <= self.ncols(),
                    sum.value() == big_row_dot(f, self.values_view(), self.ncols(), i as int, xs, l as nat),
                decreases self.ncols() - l,
            {
                let a = self.get(i, l);
                assert(x@[l as int].value() == xs[l as int]);
                let prod = self.field.mul(a, &x[l]);
                sum = self.field.add(&sum, &prod);
                l = l + 1;
            }
            assert(b@[i as int].value() == values_of(b@)[i as int]);
            if !sum.same_value(&b[i]) {
                return false;
            }
            i = i + 1;
        }
        true
    }

    /// Solves `A x = b` by Gauss-Jordan elimination: `FieldMismatch` for a right-hand side
    /// of the small kind or over a field of another characteristic or degree, `ShapeMismatch` (rows, length of `b`) unless `A` is square with as
    /// many rows as `b` has entries, `SingularMatrix` when elimination finds no pivot. A
    /// returned `x` satisfies `A x = b`.
    pub fn solve(&self, b: &GaloisArray) -> (r: Result<GaloisArray>)
        requires
            self.wf(),
            b.wf(),
        ensures
            b is Small ==> r == Err::<GaloisArray, GaloisError>(GaloisError::FieldMismatch),
            b matches GaloisArray::Big(v) ==> {
                &&& (self.nrows() != self.ncols() || self.nrows() != v.values_view().len()) ==>
                    (r matches Err(GaloisError::ShapeMismatch { expected, actual })
                    && expected@ == seq![self.nrows() as usize] && actual@ == seq![v.values_view().len() as usize])
                &&& (self.nrows() == self.ncols() && self.nrows() == v.values_view().len()
                    && !same_big_field(self.field_view(), v.field_view())) ==> r == Err::<GaloisArray, GaloisError>(GaloisError::FieldMismatch)
                &&& (self.nrows() == self.ncols() && self.nrows() == v.values_view().len()
                    && same_big_field(self.field_view(), v.field_view())) ==> match r {
                    Ok(GaloisArray::Big(x)) => x.wf() && big_equiv(x.field_view(), self.field_view())
                        && big_solves(self, x.values_view(), v.values_view()),
                    Ok(GaloisArray::Small(_)) => false,
                    Err(e) => e == GaloisError::SingularMatrix,
                }
                &&& (self.nrows() == self.ncols() && self.nrows() == v.values_view().len()
                    && same_big_field(self.field_view(), v.field_view())) ==>
                    match big_solve_loop(self.field_view(), self.values_view(), v.values_view(), self.nrows(), 0) {
                        None => r == Err::<GaloisArray, GaloisError>(GaloisError::SingularMatrix),
                        Some(x) => if big_solves(self, x, v.values_view()) {
                            r matches Ok(GaloisArray::Big(y)) && y.values_view() == x
                        } else {
                            r == Err::<GaloisArray, GaloisError>(GaloisError::SingularMatrix)
                        },
                    }
            },
    {
        let rhs = match b {
            GaloisArray::Big(v) => v,
            GaloisArray::Small(_) => { return Err(GaloisError::FieldMismatch); },
        };
        if self.rows != self.cols || self.rows != rhs.len() {
            return Err(GaloisError::ShapeMismatch { expected: vec![self.rows], actual: vec![rhs.len()] });
        }
        if rhs.field().characteristic() != self.field.characteristic() || rhs.field().degree() != self.field.degree() {
            return Err(GaloisError::FieldMismatch);
        }
        let n = self.rows;
        let field = &self.field;
        proof { field.lemma_q_ge_2(); self.lemma_data_below(); }
        let mut aug = copy_values(&self.data);
        let bvals = rhs.values();
        let mut x = copy_values(&bvals);
        assert(all_values_below(aug@, field.q()));
        assert(rhs.field_view().q() == field.q()) by {
            rhs.field_view().lemma_wf_params();
            field.lemma_wf_params();
        };
        assert(all_values_below(x@, field.q())) by {
            assert forall|k: int| 0 <= k < x@.len() implies (#[trigger] x@[k]).value() < field.q() by {
                assert(values_of(bvals@)[k] == bvals@[k].value());
                assert(rhs.values_view()[k] < rhs.field_view().q());
            }
        }
        let ghost f = self.field_view();
        let ghost nn = n as nat;
        let ghost target = big_solve_loop(f, self.values_view(), rhs.values_view(), nn, 0);
        assert(values_of(aug@) == self.values_view());
        assert(values_of(x@) == rhs.values_view());
        let mut col: usize = 0;
        while col < n
            invariant
                *field == f,
                f == self.field_view(),
                nn == n as nat,
                target == big_solve_loop(f, self.values_view(), rhs.values_view(), nn, 0),
                big_solve_loop(f, values_of(aug@), values_of(x@), nn, col as nat) == target,
                field.wf(),
                field.q() >= 2,
                *b == GaloisArray::Big(*rhs),
                same_big_field(self.field_view(), rhs.field_view()),
                n == rhs.values_view().len(),
                n == self.nrows(),
                n == self.ncols(),
                aug@.len() == n * n,
                x@.len() == n,
                all_values_below(aug@, field.q()),
                all_values_below(x@, field.q()),
                col <= n,
            decreases n - col,
        {
            let ghost (w0, x0) = (values_of(aug@), values_of(x@));
            let ghost c = col as nat;
            let pivot = find_pivot(&aug, n, n, col, col);
            if pivot == n {
                assert(big_solve_step(f, w0, x0, nn, c) is None);
                return Err(GaloisError::SingularMatrix);
            }
            let ghost pv = pivot as nat;
            if pivot != col {
                swap_rows(&mut aug, n, n, col, pivot, Ghost(field.q()));
                let ghost xb = x@;
                let tmp = x[col].clone();
                let other = x[pivot].clone();
                x.set(col, other);
                x.set(pivot, tmp);
                proof {
                    assert forall|i: int, j: int| 0 <= i < nn && 0 <= j < nn implies #[trigger] values_of(aug@)[i * nn + j]
                        == big_swap_mat(w0, nn, nn, c as int, pv as int)[i * nn + j] by {
                        lemma_rc_index(i, j, nn as int, nn as int);
                    }
                    lemma_rc_eq(values_of(aug@), big_swap_mat(w0, nn, nn, c as int, pv as int), nn, nn);
                    assert(values_of(x@) =~= x0.update(c as int, x0[pv as int]).update(pv as int, x0[c as int]));
                }
            }
            let ghost (w1, x1) = (values_of(aug@), values_of(x@));
            let d = pos(col, col, n, n, aug.len());
            proof {
                lemma_rc_index(c as int, c as int, nn as int, nn as int);
                lemma_rc_index(pv as int, c as int, nn as int, nn as int);
                assert(w0[(pv * nn + c) as int] != 0);
                assert(w1[(c * nn + c) as int] != 0);
            }
            let one = BigValue::from_u64(1);
            let inv = match field.div(&one, &aug[d]) {
                Ok(v) => v,
                Err(e) => { return Err(e); },
            };
            assert(aug@[d as int].value() == w1[(c * nn + c) as int]);
            scale_row(&mut aug, n, n, col, 0, &inv, field);
            proof {
                assert forall|i: int, j: int| 0 <= i < nn && 0 <= j < nn implies #[trigger] values_of(aug@)[i * nn + j]
                    == big_scale_mat(f, w1, nn, nn, c as int, 0, inv.value())[i * nn + j] by {
                    lemma_rc_index(i, j, nn as int, nn as int);
                }
                lemma_rc_eq(values_of(aug@), big_scale_mat(f, w1, nn, nn, c as int, 0, inv.value()), nn, nn);
            }
            assert(x@[col as int].value() == x1[c as int]);
            let scaled = field.mul(&x[col], &inv);
            x.set(col, scaled);
            let ghost (w2, x2) = (values_of(aug@), values_of(x@));
            assert(x2 =~= x1.update(c as int, gf_mul(x1[c as int], inv.value(), f.p(), f.m(), f.f())));
            let mut row: usize = 0;
            while row < n
                invariant
                    *field == f,
                    nn == n as nat,
                    w2.len() == n * n,
                    x2.len() == n,
                    c == col as nat,
                    forall|i: int, j: int| 0 <= i < nn && 0 <= j < nn ==> #[trigger] values_of(aug@)[i * nn + j]
                        == if i < row { big_cleared_entry(f, w2, nn, c as int, c as int, 0, i, j) } else { w2[i * nn + j] },
                    forall|i: int| 0 <= i < nn ==> #[trigger] values_of(x@)[i] == if i < row && i != c && w2[i * nn + c] != 0 {
                        gf_sub(x2[i], gf_mul(w2[i * nn + c], x2[c as int], f.p(), f.m(), f.f()), f.p(), f.m())
                    } else { x2[i] },
                    field.wf(),
                    n == self.nrows(),
                    aug@.len() == n * n,
                    x@.len() == n,
                    all_values_below(aug@, field.q()),
                    all_values_below(x@, field.q()),
                    col < n,
                    row <= n,
                decreases n - row,
            {
                let ghost mb = values_of(aug@);
                let ghost xb = values_of(x@);
                if row != col {
                    let f_at = pos(row, col, n, n, aug.len());
                    let factor = aug[f_at].clone();
                    assert(factor.value() == mb[f_at as int]);
                    assert(factor.value() == w2[(row * nn + c) as int]);
                    if !factor.is_zero() {
                        eliminate_row(&mut aug, n, n, row, col, 0, &factor, field);
                        proof {
                            assert forall|i: int, j: int| 0 <= i < nn && 0 <= j < nn implies #[trigger] values_of(aug@)[i * nn + j]
                                == if i < row + 1 { big_cleared_entry(f, w2, nn, c as int, c as int, 0, i, j) } else { w2[i * nn + j] } by {
                                assert(mb[i * nn + j] == if i < row { big_cleared_entry(f, w2, nn, c as int, c as int, 0, i, j) } else { w2[i * nn + j] });
                                if i == row as int {
                                    assert(mb[(c as int) * nn + j] == w2[(c as int) * nn + j]);
                                }
                            }
                        }
                        assert(values_of(x@)[col as int] == x2[c as int]);
                        assert(values_of(x@)[row as int] == x2[row as int]);
                        assert(x@[col as int].value() == values_of(x@)[col as int]);
                        assert(x@[row as int].value() == values_of(x@)[row as int]);
                        let t = field.mul(&factor, &x[col]);
                        let v = field.sub(&x[row], &t);
                        x.set(row, v);
                        proof {
                            assert forall|i: int| 0 <= i < nn implies #[trigger] values_of(x@)[i] == if i < row + 1 && i != c && w2[i * nn + c] != 0 {
                                gf_sub(x2[i], gf_mul(w2[i * nn + c], x2[c as int], f.p(), f.m(), f.f()), f.p(), f.m())
                            } else { x2[i] } by {
                                if i != row as int {
                                    assert(values_of(x@)[i] == xb[i]);
                                }
                            }
                        }
                    }
                }
                row = row + 1;
            }
            proof {
                assert forall|i: int, j: int| 0 <= i < nn && 0 <= j < nn implies #[trigger] values_of(aug@)[i * nn + j]
                    == big_clear_mat(f, w2, nn, nn, c as int, c as int, 0)[i * nn + j] by {
                    lemma_rc_index(i, j, nn as int, nn as int);
                }
                lemma_rc_eq(values_of(aug@), big_clear_mat(f, w2, nn, nn, c as int, c as int, 0), nn, nn);
                let x3 = Seq::new(nn, |i: int| if i != c && w2[i * nn + c] != 0 {
                    gf_sub(x2[i], gf_mul(w2[i * nn + c], x2[c as int], f.p(), f.m(), f.f()), f.p(), f.m())
                } else {
                    x2[i]
                });
                assert(values_of(x@) =~= x3);
                assert(big_solve_step(f, w0, x0, nn, c) == Some((values_of(aug@), values_of(x@))));
            }
            col = col + 1;
        }
        if !self.check_solution(&x, &bvals) {
            return Err(GaloisError::SingularMatrix);
        }
        let ghost xv = values_of(x@);
        match BigFieldArray::new(self.field.clone(), x) {
            Ok(arr) => Ok(GaloisArray::Big(arr)),
            Err(_) => Err(GaloisError::SingularMatrix),
        }
    }
}


/// `n` zeros.
pub open spec fn big_zeros(n: nat) -> Seq<nat> {
    Seq::new(n, |i: int| 0nat)
}

/// `g` is an array over the matrix's field whose product with the matrix is zero.
pub open spec fn null_vector(a: &BigFieldMatrix, g: GaloisArray) -> bool {
    g matches GaloisArray::Big(v) && v.wf() && big_equiv(v.field_view(), a.field_view())
        && big_solves(a, v.values_view(), big_zeros(a.nrows()))
}

/// Whether `x` occurs in `v`.
fn contains_index(v: &Vec<usize>, x: usize) -> (r: bool)
    ensures
        r == v@.contains(x),
{
    let mut i: usize = 0;
    while i < v.len()
        invariant
            i <= v@.len(),
            forall|k: int| 0 <= k < i ==> v@[k] != x,
        decreases v@.len() - i,
    {
        if v[i] == x {
            return true;
        }
        i = i + 1;
    }
    false
}

impl BigFieldMatrix {
    /// A basis of the null space: one vector per column without a pivot in the reduced row
    /// echelon form, with a one at that column. Every returned vector `v` satisfies
    /// `A v = 0`; a vector that fails this final check is reported as `SingularMatrix`.
    pub fn null_space(&self) -> (r: Result<Vec<GaloisArray>>)
        requires
            self.wf(),
        ensures
            match r {
                Ok(basis) => forall|k: int| 0 <= k < basis@.len() ==> #[trigger] null_vector(self, basis@[k]),
                Err(e) => e == GaloisError::SingularMatrix,
            },
            match big_ns_result(self) {
                None => r == Err::<Vec<GaloisArray>, GaloisError>(GaloisError::SingularMatrix),
                Some(vs) => r matches Ok(basis) && basis@.len() == vs.len()
                    && forall|k: int| 0 <= k < vs.len() ==> (#[trigger] basis@[k] matches GaloisArray::Big(a)
                        && a.values_view() == vs[k]),
            },
    {
        let rows = self.rows;
        let cols = self.cols;
        let field = &self.field;
        proof { field.lemma_q_ge_2(); field.lemma_wf_params(); self.lemma_data_below(); }
        let mut m = copy_values(&self.data);
        assert(all_values_below(m@, field.q()));
        let mut pivot_cols: Vec<usize> = Vec::new();
        let mut pivot_row: usize = 0;
        let mut col: usize = 0;
        let ghost f = self.field_view();
        let ghost (rn, cn) = (rows as nat, cols as nat);
        let ghost target = big_ns_loop(f, self.values_view(), rn, cn, 0, 0, Seq::empty());
        assert(pivot_cols@ =~= Seq::<usize>::empty());
        assert(values_of(m@) == self.values_view());
        while col < cols && pivot_row < rows
            invariant
                *field == f,
                f == self.field_view(),
                rn == rows as nat,
                cn == cols as nat,
                target == big_ns_loop(f, self.values_view(), rn, cn, 0, 0, Seq::empty()),
                big_ns_loop(f, values_of(m@), rn, cn, pivot_row as nat, col as nat, pivot_cols@) == target,
                field.wf(),
                field.q() >= 2,
                rows == self.nrows(),
                cols == self.ncols(),
                m@.len() == rows * cols,
                all_values_below(m@, field.q()),
                pivot_row <= rows,
                col <= cols,
                pivot_cols@.len() == pivot_row,
                pivot_row <= col,
                forall|k: int| 0 <= k < pivot_cols@.len() ==> (#[trigger] pivot_cols@[k]) < cols,
            decreases cols - col,
        {
            let ghost w0 = values_of(m@);
            let ghost (pr, c) = (pivot_row as nat, col as nat);
            let pivot = find_pivot(&m, rows, cols, pivot_row, col);
            if pivot == rows {
                assert(big_ns_step(f, w0, rn, cn, pr, c) == (w0, false));
                col = col + 1;
                continue;
            }
            let ghost pv = pivot as nat;
            if pivot != pivot_row {
                swap_rows(&mut m, rows, cols, pivot_row, pivot, Ghost(field.q()));
                proof {
                    assert forall|i: int, j: int| 0 <= i < rn && 0 <= j < cn implies #[trigger] values_of(m@)[i * cn + j]
                        == big_swap_mat(w0, rn, cn, pr as int, pv as int)[i * cn + j] by {
                        lemma_rc_index(i, j, rn as int, cn as int);
                    }
                    lemma_rc_eq(values_of(m@), big_swap_mat(w0, rn, cn, pr as int, pv as int), rn, cn);
                }
            }
            let ghost w1 = values_of(m@);
            let d = pos(pivot_row, col, rows, cols, m.len());
            proof {
                lemma_rc_index(pr as int, c as int, rn as int, cn as int);
                lemma_rc_index(pv as int, c as int, rn as int, cn as int);
                assert(w0[(pv * cn + c) as int] != 0);
                assert(w1[(pr * cn + c) as int] != 0);
            }
            let one = BigValue::from_u64(1);
            let inv = match field.div(&one, &m[d]) {
                Ok(v) => v,
                Err(_) => { return Err(GaloisError::SingularMatrix); },
            };
            assert(m@[d as int].value() == w1[(pr * cn + c) as int]);
            scale_row(&mut m, rows, cols, pivot_row, 0, &inv, field);
            proof {
                assert forall|i: int, j: int| 0 <= i < rn && 0 <= j < cn implies #[trigger] values_of(m@)[i * cn + j]
                    == big_scale_mat(f, w1, rn, cn, pr as int, 0, inv.value())[i * cn + j] by {
                    lemma_rc_index(i, j, rn as int, cn as int);
                }
                lemma_rc_eq(values_of(m@), big_scale_mat(f, w1, rn, cn, pr as int, 0, inv.value()), rn, cn);
            }
            let ghost w2 = values_of(m@);
            let mut row: usize = 0;
            while row < rows
                invariant
                    *field == f,
                    rn == rows as nat,
                    cn == cols as nat,
                    w2.len() == rows * cols,
                    pr == pivot_row as nat,
                    c == col as nat,
                    forall|i: int, j: int| 0 <= i < rn && 0 <= j < cn ==> #[trigger] values_of(m@)[i * cn + j]
                        == if i < row { big_cleared_entry(f, w2, cn, pr as int, c as int, 0, i, j) } else { w2[i * cn + j] },
                    field.wf(),
                    rows == self.nrows(),
                    m@.len() == rows * cols,
                    all_values_below(m@, field.q()),
                    pivot_row < rows,
                    col < cols,
                    row <= rows,
                decreases rows - row,
            {
                let ghost mb = values_of(m@);
                if row != pivot_row {
                    let f_at = pos(row, col, rows, cols, m.len());
                    let factor = m[f_at].clone();
                    assert(factor.value() == mb[f_at as int]);
                    assert(factor.value() == w2[(row * cn + c) as int]);
                    if !factor.is_zero() {
                        eliminate_row(&mut m, rows, cols, row, pivot_row, 0, &factor, field);
                        proof {
                            assert forall|i: int, j: int| 0 <= i < rn && 0 <= j < cn implies #[trigger] values_of(m@)[i * cn + j]
                                == if i < row + 1 { big_cleared_entry(f, w2, cn, pr as int, c as int, 0, i, j) } else { w2[i * cn + j] } by {
                                assert(mb[i * cn + j] == if i < row { big_cleared_entry(f, w2, cn, pr as int, c as int, 0, i, j) } else { w2[i * cn + j] });
                                if i == row as int {
                                    assert(mb[(pr as int) * cn + j] == w2[(pr as int) * cn + j]);
                                }
                            }
                        }
                    }
                }
                row = row + 1;
            }
            proof {
                assert forall|i: int, j: int| 0 <= i < rn && 0 <= j < cn implies #[trigger] values_of(m@)[i * cn + j]
                    == big_clear_mat(f, w2, rn, cn, pr as int, c as int, 0)[i * cn + j] by {
                    lemma_rc_index(i, j, rn as int, cn as int);
                }
                lemma_rc_eq(values_of(m@), big_clear_mat(f, w2, rn, cn, pr as int, c as int, 0), rn, cn);
                assert(big_ns_step(f, w0, rn, cn, pr, c) == (values_of(m@), true));
            }
            pivot_cols.push(col);
            pivot_row = pivot_row + 1;
            col = col + 1;
        }
        assert(target == (values_of(m@), pivot_cols@));
        let ghost wf_ = values_of(m@);
        let ghost pcs = pivot_cols@;
        let mut basis: Vec<GaloisArray> = Vec::new();
        let mut zero_rhs: Vec<BigValue> = Vec::new();
        let mut z: usize = 0;
        while z < rows
            invariant
                z <= rows,
                zero_rhs@.len() == z,
                forall|k: int| 0 <= k < z ==> (#[trigger] zero_rhs@[k]).value() == 0,
            decreases rows - z,
        {
            zero_rhs.push(BigValue::from_u64(0));
            z = z + 1;
        }
        assert(values_of(zero_rhs@) =~= big_zeros(rows as nat));
        let mut free: usize = 0;
        while free < cols
            invariant
                self.wf(),
                field.wf(),
                *field == self.field_view(),
                field.q() >= 2,
                field.q() == crate::arith::npow(field.p(), field.m()),
                rows == self.nrows(),
                cols == self.ncols(),
                m@.len() == rows * cols,
                all_values_below(m@, field.q()),
                pivot_cols@.len() <= rows,
                forall|k: int| 0 <= k < pivot_cols@.len() ==> (#[trigger] pivot_cols@[k]) < cols,
                zero_rhs@.len() == rows,
                values_of(zero_rhs@) == big_zeros(rows as nat),
                free <= cols,
                forall|k: int| 0 <= k < basis@.len() ==> #[trigger] null_vector(self, basis@[k]),
                *field == f,
                cn == cols as nat,
                rn == rows as nat,
                wf_ == values_of(m@),
                pcs == pivot_cols@,
                target == (wf_, pcs),
                target == big_ns_loop(f, self.values_view(), rn, cn, 0, 0, Seq::empty()),
                basis@.len() == crate::linalg::free_below(pcs, free as nat).len(),
                forall|l: int| 0 <= l < basis@.len() ==> (#[trigger] basis@[l] matches GaloisArray::Big(a)
                    && a.values_view() == big_ns_vec(f, wf_, cn, pcs, crate::linalg::free_below(pcs, free as nat)[l] as nat, pcs.len())),
            decreases cols - free,
        {
            if !contains_index(&pivot_cols, free) {
                let mut vec: Vec<BigValue> = Vec::new();
                let mut t: usize = 0;
                while t < cols
                    invariant
                        t <= cols,
                        field.q() >= 2,
                        vec@.len() == t,
                        all_values_below(vec@, field.q()),
                        forall|q: int| 0 <= q < t ==> (#[trigger] vec@[q]).value() == (if q == free { 1nat } else { 0nat }),
                    decreases cols - t,
                {
                    let v: u64 = if t == free { 1 } else { 0 };
                    vec.push(BigValue::from_u64(v));
                    t = t + 1;
                }
                assert(values_of(vec@) =~= big_ns_vec(f, wf_, cn, pcs, free as nat, 0));
                let mut k: usize = 0;
                while k < pivot_cols.len()
                    invariant
                        *field == f,
                        cn == cols as nat,
                        wf_ == values_of(m@),
                        pcs == pivot_cols@,
                        values_of(vec@) == big_ns_vec(f, wf_, cn, pcs, free as nat, k as nat),
                        field.wf(),
                        field.q() == crate::arith::npow(field.p(), field.m()),
                        rows == self.nrows(),
                        cols == self.ncols(),
                        m@.len() == rows * cols,
                        all_values_below(m@, field.q()),
                        pivot_cols@.len() <= rows,
                        forall|j: int| 0 <= j < pivot_cols@.len() ==> (#[trigger] pivot_cols@[j]) < cols,
                        free < cols,
                        vec@.len() == cols,
                        all_values_below(vec@, field.q()),
                        k <= pivot_cols@.len(),
                    decreases pivot_cols@.len() - k,
                {
                    let pc = pivot_cols[k];
                    let e = pos(k, free, rows, cols, m.len());
                    proof {
                        assert(m@[e as int].value() < field.q());
                        if field.m() == 1 {
                            crate::arith::lemma_npow_one(field.p());
                        }
                    }
                    let v = field.neg(&m[e]);
                    let ghost vb = values_of(vec@);
                    vec.set(pc, v);
                    proof {
                        assert(m@[e as int].value() == wf_[(k * cn + free) as int]);
                        assert(values_of(vec@) =~= vb.update(pc as int, v.value()));
                    }
                    k = k + 1;
                }
                let ghost kk = basis@.len() as int;
                proof {
                    lemma_free_below_prefix(pcs, (free + 1) as nat, cn);
                    assert(crate::linalg::free_below(pcs, (free + 1) as nat)
                        == crate::linalg::free_below(pcs, free as nat).push(free));
                    assert(crate::linalg::free_below(pcs, (free + 1) as nat)[kk] == free);
                    assert(crate::linalg::free_below(pcs, cn)[kk] == free);
                }
                if !self.check_solution(&vec, &zero_rhs) {
                    proof {
                        let (w, pc2) = target;
                        let fcs = crate::linalg::free_below(pc2, cn);
                        let vs = Seq::new(fcs.len(), |q: int| big_ns_vec(self.field_view(), w, cn, pc2, fcs[q] as nat, pc2.len()));
                        assert(kk < vs.len());
                        assert(vs[kk] == values_of(vec@));
                        assert(!big_solves(self, vs[kk], big_zeros(self.nrows())));
                        assert(!(forall|q: int| 0 <= q < vs.len() ==> #[trigger] big_solves(self, vs[q], big_zeros(self.nrows()))));
                        assert(big_ns_result(self) is None);
                    }
                    return Err(GaloisError::SingularMatrix);
                }
                let ghost vv = values_of(vec@);
                let arr = match BigFieldArray::new(self.field.clone(), vec) {
                    Ok(a) => a,
                    Err(_) => { return Err(GaloisError::SingularMatrix); },
                };
                let ghost bb = basis@;
                basis.push(GaloisArray::Big(arr));
                proof {
                    assert forall|l: int| 0 <= l < basis@.len() implies (#[trigger] basis@[l] matches GaloisArray::Big(a)
                        && a.values_view() == big_ns_vec(f, wf_, cn, pcs, crate::linalg::free_below(pcs, (free + 1) as nat)[l] as nat, pcs.len())) by {
                        if l < bb.len() {
                            assert(basis@[l] == bb[l]);
                        }
                    }
                }
            } else {
                proof {
                    assert(crate::linalg::free_below(pcs, (free + 1) as nat) == crate::linalg::free_below(pcs, free as nat));
                }
            }
            free = free + 1;
        }
        proof {
            let fcs = crate::linalg::free_below(pcs, cn);
            let vs = Seq::new(fcs.len(), |q: int| big_ns_vec(self.field_view(), wf_, cn, pcs, fcs[q] as nat, pcs.len()));
            assert forall|q: int| 0 <= q < vs.len() implies #[trigger] big_solves(self, vs[q], big_zeros(self.nrows())) by {
                assert(null_vector(self, basis@[q]));
            }
            assert(big_ns_result(self) == Some(vs));
        }
        Ok(basis)
    }
}


/// One column of the elimination behind `null_space` over a big field (see `ns_step`).
pub open spec fn big_ns_step(f: BigGaloisField, w: Seq<nat>, rows: nat, cols: nat, pr: nat, col: nat) -> (Seq<nat>, bool) {
    let pv = big_first_nonzero(w, rows, cols, pr, col);
    if pv == rows {
        (w, false)
    } else {
        let w1 = if pv != pr { big_swap_mat(w, rows, cols, pr as int, pv as int) } else { w };
        let inv = big_div_spec(f, 1, w1[(pr * cols + col) as int]);
        let w2 = big_scale_mat(f, w1, rows, cols, pr as int, 0, inv);
        (big_clear_mat(f, w2, rows, cols, pr as int, col as int, 0), true)
    }
}

/// The elimination behind `null_space` over a big field (see `ns_loop`).
pub open spec fn big_ns_loop(f: BigGaloisField, w: Seq<nat>, rows: nat, cols: nat, pr: nat, col: nat, pcs: Seq<usize>)
    -> (Seq<nat>, Seq<usize>)
    decreases cols - col,
{
    if col < cols && pr < rows {
        let (w2, found) = big_ns_step(f, w, rows, cols, pr, col);
        if found {
            big_ns_loop(f, w2, rows, cols, pr + 1, col + 1, pcs.push(col as usize))
        } else {
            big_ns_loop(f, w, rows, cols, pr, col + 1, pcs)
        }
    } else {
        (w, pcs)
    }
}

/// The basis vector of the free column `free` over a big field (see `ns_vec`).
pub open spec fn big_ns_vec(f: BigGaloisField, w: Seq<nat>, cols: nat, pcs: Seq<usize>, free: nat, r: nat) -> Seq<nat>
    decreases r,
{
    if r == 0 {
        Seq::new(cols, |i: int| if i == free { 1nat } else { 0nat })
    } else {
        big_ns_vec(f, w, cols, pcs, free, (r - 1) as nat).update(pcs[r - 1] as int,
            gf_neg(w[((r - 1) * cols + free) as int], f.p(), f.m()))
    }
}

/// What `null_space` returns over a big field: the basis vectors of the free columns in
/// order, or `None` when one of them is not mapped to zero.
pub open spec fn big_ns_result(a: &BigFieldMatrix) -> Option<Seq<Seq<nat>>> {
    let (w, pcs) = big_ns_loop(a.field_view(), a.values_view(), a.nrows(), a.ncols(), 0, 0, Seq::empty());
    let fcs = crate::linalg::free_below(pcs, a.ncols());
    let vs = Seq::new(fcs.len(), |k: int| big_ns_vec(a.field_view(), w, a.ncols(), pcs, fcs[k] as nat, pcs.len()));
    if forall|k: int| 0 <= k < vs.len() ==> #[trigger] big_solves(a, vs[k], big_zeros(a.nrows())) { Some(vs) } else { None }
}

/// The free columns below `c` are a prefix of those below `c2 >= c`.
proof fn lemma_free_below_prefix(pcs: Seq<usize>, c: nat, c2: nat)
    requires
        c <= c2,
    ensures
        crate::linalg::free_below(pcs, c).len() <= crate::linalg::free_below(pcs, c2).len(),
        forall|i: int| 0 <= i < crate::linalg::free_below(pcs, c).len() ==>
            #[trigger] crate::linalg::free_below(pcs, c)[i] == crate::linalg::free_below(pcs, c2)[i],
    decreases c2 - c,
{
    if c < c2 {
        lemma_free_below_prefix(pcs, c, (c2 - 1) as nat);
    }
}

/// The result of an LU factorisation of the square matrix `a`: `l` is unit lower
/// triangular, `u` upper triangular, `p` a permutation of the rows, and `l u` is `a` with
/// its rows permuted by `p`.
pub open spec fn big_lu_factors(a: &BigFieldMatrix, l: &BigFieldMatrix, u: &BigFieldMatrix, p: Seq<usize>) -> bool {
    let n = a.nrows();
    &&& l.wf() && u.wf()
    &&& big_equiv(l.field_view(), a.field_view()) && big_equiv(u.field_view(), a.field_view())
    &&& l.nrows() == n && l.ncols() == n && u.nrows() == n && u.ncols() == n
    &&& forall|i: int, j: int| 0 <= i < n && 0 <= j < n && i <= j ==> #[trigger] l.at(i, j) == (if i == j { 1nat } else { 0nat })
    &&& forall|i: int, j: int| 0 <= j < i < n ==> #[trigger] u.at(i, j) == 0nat
    &&& is_permutation(p, n)
    &&& forall|i: int, j: int| 0 <= i < n && 0 <= j < n ==>
        #[trigger] big_dot_prefix(l.field_view(), l.values_view(), n, u.values_view(), n, i, j, n) == a.at(p[i] as int, j)
}

/// The `n x n` factor read from the eliminated matrix `w`: the unit lower triangle
/// (`lower`) or the upper triangle.
fn triangle(field: &BigGaloisField, w: &Vec<BigValue>, n: usize, lower: bool) -> (r: BigFieldMatrix)
    requires
        field.wf(),
        w@.len() == n * n,
        all_values_below(w@, field.q()),
    ensures
        r.wf(),
        big_equiv(r.field_view(), *field),
        r.nrows() == n,
        r.ncols() == n,
        forall|i: int, j: int| 0 <= i < n && 0 <= j < n ==> #[trigger] r.at(i, j) == (if lower {
            if i > j { w@[i * n + j].value() } else if i == j { 1nat } else { 0nat } } else {
            if i <= j { w@[i * n + j].value() } else { 0nat } }),
{
    proof { field.lemma_q_ge_2(); }
    let mut data: Vec<BigValue> = Vec::new();
    let mut i: usize = 0;
    while i < n
        invariant
            field.q() >= 2,
            w@.len() == n * n,
            all_values_below(w@, field.q()),
            i <= n,
            data@.len() == i * n,
            all_values_below(data@, field.q()),
            forall|a: int, b: int| 0 <= a < i && 0 <= b < n ==> #[trigger] data@[a * n + b].value() == (if lower {
                if a > b { w@[a * n + b].value() } else if a == b { 1nat } else { 0nat } } else {
                if a <= b { w@[a * n + b].value() } else { 0nat } }),
        decreases n - i,
    {
        let mut j: usize = 0;
        while j < n
            invariant
                field.q() >= 2,
                w@.len() == n * n,
                all_values_below(w@, field.q()),
                i < n,
                j <= n,
                data@.len() == i * n + j,
                all_values_below(data@, field.q()),
                forall|a: int, b: int| 0 <= a < i && 0 <= b < n ==> #[trigger] data@[a * n + b].value() == (if lower {
                    if a > b { w@[a * n + b].value() } else if a == b { 1nat } else { 0nat } } else {
                    if a <= b { w@[a * n + b].value() } else { 0nat } }),
                forall|b: int| 0 <= b < j ==> #[trigger] data@[i * n + b].value() == (if lower {
                    if i > b { w@[i * n + b].value() } else if i == b { 1nat } else { 0nat } } else {
                    if i <= b { w@[i * n + b].value() } else { 0nat } }),
            decreases n - j,
        {
            let k = pos(i, j, n, n, w.len());
            let v = if lower {
                if i > j { w[k].clone() } else if i == j { BigValue::from_u64(1) } else { BigValue::from_u64(0) }
            } else {
                if i <= j { w[k].clone() } else { BigValue::from_u64(0) }
            };
            let ghost before = data@;
            data.push(v);
            proof {
                assert forall|a: int, b: int| 0 <= a < i && 0 <= b < n implies #[trigger] data@[a * n + b].value() == (if lower {
                    if a > b { w@[a * n + b].value() } else if a == b { 1nat } else { 0nat } } else {
                    if a <= b { w@[a * n + b].value() } else { 0nat } }) by {
                    lemma_index(a, b, i as int, n as int);
                    assert(data@[a * n + b] == before[a * n + b]);
                }
                assert forall|b: int| 0 <= b < j + 1 implies #[trigger] data@[i * n + b].value() == (if lower {
                    if i > b { w@[i * n + b].value() } else if i == b { 1nat } else { 0nat } } else {
                    if i <= b { w@[i * n + b].value() } else { 0nat } }) by {
                    if b < j {
                        assert(data@[i * n + b] == before[i * n + b]);
                    }
                }
            }
            j = j + 1;
        }
        proof { assert((i + 1) * n == i * n + n) by (nonlinear_arith); }
        i = i + 1;
    }
    let r = BigFieldMatrix { field: field.clone(), rows: n, cols: n, data };
    proof {
        BigFieldMatrix::lemma_below(data@, field.q());
        assert forall|i: int, j: int| 0 <= i < n && 0 <= j < n implies #[trigger] r.at(i, j) == (if lower {
            if i > j { w@[i * n + j].value() } else if i == j { 1nat } else { 0nat } } else {
            if i <= j { w@[i * n + j].value() } else { 0nat } }) by {
            lemma_index(i, j, n as int, n as int);
            assert(r.at(i, j) == data@[i * n + j].value());
        }
    }
    r
}

/// Whether `l u` is `a` with its rows permuted by `p`, entry by entry.
fn lu_matches(a: &BigFieldMatrix, l: &BigFieldMatrix, u: &BigFieldMatrix, p: &Vec<usize>) -> (r: bool)
    requires
        a.wf(),
        l.wf(),
        u.wf(),
        a.nrows() == a.ncols(),
        l.nrows() == a.nrows() && l.ncols() == a.nrows() && u.nrows() == a.nrows() && u.ncols() == a.nrows(),
        is_permutation(p@, a.nrows()),
    ensures
        r ==> forall|i: int, j: int| 0 <= i < a.nrows() && 0 <= j < a.nrows() ==>
            #[trigger] big_dot_prefix(l.field_view(), l.values_view(), a.nrows(), u.values_view(), a.nrows(), i, j, a.nrows())
                == a.at(p@[i] as int, j),
{
    let n = a.rows;
    let total = a.data.len();
    assert(n * n <= usize::MAX) by {
        assert(a.values_view().len() == a.data@.len());
        assert(total == a.data@.len());
    }
    let c = match l.mul(u) {
        Ok(c) => c,
        Err(_) => { return false; },
    };
    let mut i: usize = 0;
    while i < n
        invariant
            a.wf(),
            c.wf(),
            n == a.nrows(),
            n == a.ncols(),
            c.nrows() == n,
            c.ncols() == n,
            is_permutation(p@, n as nat),
            forall|x: int, y: int| 0 <= x < n && 0 <= y < n ==> #[trigger] c.at(x, y)
                == big_dot_prefix(l.field_view(), l.values_view(), n as nat, u.values_view(), n as nat, x, y, n as nat),
            i <= n,
            forall|x: int, y: int| 0 <= x < i && 0 <= y < n ==>
                #[trigger] big_dot_prefix(l.field_view(), l.values_view(), n as nat, u.values_view(), n as nat, x, y, n as nat)
                    == a.at(p@[x] as int, y),
        decreases n - i,
    {
        let mut j: usize = 0;
        while j < n
            invariant
                a.wf(),
                c.wf(),
                n == a.nrows(),
                n == a.ncols(),
                c.nrows() == n,
                c.ncols() == n,
                is_permutation(p@, n as nat),
                forall|x: int, y: int| 0 <= x < n && 0 <= y < n ==> #[trigger] c.at(x, y)
                    == big_dot_prefix(l.field_view(), l.values_view(), n as nat, u.values_view(), n as nat, x, y, n as nat),
                i < n,
                j <= n,
                forall|x: int, y: int| 0 <= x < i && 0 <= y < n ==>
                    #[trigger] big_dot_prefix(l.field_view(), l.values_view(), n as nat, u.values_view(), n as nat, x, y, n as nat)
                        == a.at(p@[x] as int, y),
                forall|y: int| 0 <= y < j ==>
                    #[trigger] big_dot_prefix(l.field_view(), l.values_view(), n as nat, u.values_view(), n as nat, i as int, y, n as nat)
                        == a.at(p@[i as int] as int, y),
            decreases n - j,
        {
            let x = c.get(i, j);
            let y = a.get(p[i], j);
            if !x.same_value(y) {
                return false;
            }
            j = j + 1;
        }
        i = i + 1;
    }
    true
}

/// LU factorisation with row pivoting of a square matrix (the last row with a nonzero
/// entry is the pivot); when `reveal_rank` a column without a pivot is skipped, otherwise
/// it is `SingularMatrix`. Returns `L`, `U`, the pivot rows and the number of pivots; a
/// factorisation that fails its final check against the matrix is `SingularMatrix`.
fn big_lu_core(matrix: &BigFieldMatrix, reveal_rank: bool) -> (r: Result<(BigFieldMatrix, BigFieldMatrix, Vec<usize>, usize)>)
    requires
        matrix.wf(),
        matrix.nrows() == matrix.ncols(),
    ensures
        match r {
            Ok((l, u, p, rank)) => big_lu_factors(matrix, &l, &u, p@) && rank <= matrix.nrows(),
            Err(e) => e == GaloisError::SingularMatrix,
        },
{
    let n = matrix.rows;
    let field = &matrix.field;
    proof { field.lemma_q_ge_2(); matrix.lemma_data_below(); }
    let total = matrix.data.len();
    assert(n * n <= usize::MAX) by {
        assert(matrix.values_view().len() == matrix.data@.len());
        assert(total == matrix.data@.len());
    }
    let mut a = copy_values(&matrix.data);
    assert(all_values_below(a@, field.q()));
    let mut pivots: Vec<usize> = Vec::new();
    let mut t: usize = 0;
    while t < n
        invariant
            t <= n,
            pivots@.len() == t,
            forall|k: int| 0 <= k < t ==> #[trigger] pivots@[k] == k,
        decreases n - t,
    {
        pivots.push(t);
        t = t + 1;
    }
    assert(is_permutation(pivots@, n as nat));
    let mut rank: usize = 0;
    let mut k: usize = 0;
    while k < n
        invariant
            field.wf(),
            field.q() >= 2,
            n == matrix.nrows(),
            n * n <= usize::MAX,
            a@.len() == n * n,
            all_values_below(a@, field.q()),
            is_permutation(pivots@, n as nat),
            k <= n,
            rank <= k,
        decreases n - k,
    {
        let mut max_row = k;
        let mut i = k + 1;
        while i < n
            invariant
                k < n,
                a@.len() == n * n,
                k <= max_row < n,
                k + 1 <= i,
            decreases n - i,
        {
            let e = pos(i, k, n, n, a.len());
            if !a[e].is_zero() {
                max_row = i;
            }
            i = i + 1;
        }
        let e = pos(max_row, k, n, n, a.len());
        if a[e].is_zero() {
            if reveal_rank {
                k = k + 1;
                continue;
            }
            return Err(GaloisError::SingularMatrix);
        }
        if max_row != k {
            proof { lemma_swap_permutation(pivots@, n as nat, k as int, max_row as int); }
            let pk = pivots[k];
            let pm = pivots[max_row];
            pivots.set(k, pm);
            pivots.set(max_row, pk);
            swap_rows(&mut a, n, n, k, max_row, Ghost(field.q()));
        }
        let d = pos(k, k, n, n, a.len());
        let one = BigValue::from_u64(1);
        let inv_pivot = match field.div(&one, &a[d]) {
            Ok(v) => v,
            Err(_) => { return Err(GaloisError::SingularMatrix); },
        };
        rank = rank + 1;
        let mut i = k + 1;
        while i < n
            invariant
                field.wf(),
                a@.len() == n * n,
                all_values_below(a@, field.q()),
                k < n,
                k + 1 <= i,
            decreases n - i,
        {
            let e = pos(i, k, n, n, a.len());
            let factor = field.mul(&a[e], &inv_pivot);
            a.set(e, factor.clone());
            eliminate_row(&mut a, n, n, i, k, k + 1, &factor, field);
            i = i + 1;
        }
        k = k + 1;
    }
    let l = triangle(field, &a, n, true);
    let u = triangle(field, &a, n, false);
    if !lu_matches(matrix, &l, &u, &pivots) {
        return Err(GaloisError::SingularMatrix);
    }
    proof {
        assert forall|i: int, j: int| 0 <= i < n && 0 <= j < n && i <= j implies #[trigger] l.at(i, j)
            == (if i == j { 1nat } else { 0nat }) by {}
        assert forall|i: int, j: int| 0 <= j < i < n implies #[trigger] u.at(i, j) == 0nat by {}
    }
    Ok((l, u, pivots, rank))
}

impl BigFieldMatrix {
    /// LU decomposition with partial pivoting, `P A = L U`: `ShapeMismatch` (`[n, n]`,
    /// shape) for a matrix that is not square, `SingularMatrix` when a column has no pivot.
    pub fn lu_decomposition(&self) -> (r: Result<(Self, Self, Vec<usize>)>)
        requires
            self.wf(),
        ensures
            self.nrows() != self.ncols() ==> (r matches Err(GaloisError::ShapeMismatch { expected, actual })
                && expected@ == seq![self.nrows() as usize, self.nrows() as usize]
                && actual@ == seq![self.nrows() as usize, self.ncols() as usize]),
            self.nrows() == self.ncols() ==> match r {
                Ok((l, u, p)) => big_lu_factors(self, &l, &u, p@),
                Err(e) => e == GaloisError::SingularMatrix,
            },
    {
        if self.rows != self.cols {
            return Err(GaloisError::ShapeMismatch { expected: vec![self.rows, self.rows], actual: vec![self.rows, self.cols] });
        }
        match big_lu_core(self, false) {
            Ok((l, u, p, _)) => Ok((l, u, p)),
            Err(e) => Err(e),
        }
    }

    /// LU decomposition for rank-deficient matrices: columns without a pivot are skipped,
    /// and the number of pivots is returned too.
    pub fn rank_revealing_lu_decomposition(&self) -> (r: Result<(Self, Self, Vec<usize>, usize)>)
        requires
            self.wf(),
        ensures
            self.nrows() != self.ncols() ==> (r matches Err(GaloisError::ShapeMismatch { expected, actual })
                && expected@ == seq![self.nrows() as usize, self.nrows() as usize]
                && actual@ == seq![self.nrows() as usize, self.ncols() as usize]),
            self.nrows() == self.ncols() ==> match r {
                Ok((l, u, p, rank)) => big_lu_factors(self, &l, &u, p@) && rank <= self.nrows(),
                Err(e) => e == GaloisError::SingularMatrix,
            },
    {
        if self.rows != self.cols {
            return Err(GaloisError::ShapeMismatch { expected: vec![self.rows, self.rows], actual: vec![self.rows, self.cols] });
        }
        big_lu_core(self, true)
    }
}

/// Column `j` of an `n x n` row-major matrix.
pub open spec fn big_column(a: Seq<nat>, n: nat, j: int) -> Seq<nat> {
    Seq::new(n, |i: int| a[i * n + j])
}

/// The `j`-th unit vector of length `n`.
pub open spec fn big_unit(n: nat, j: int) -> Seq<nat> {
    Seq::new(n, |i: int| if i == j { 1nat } else { 0nat })
}

impl BigFieldMatrix {
    /// The transpose; always `Ok`.
    pub fn transpose(&self) -> (r: Result<Self>)
        requires
            self.wf(),
        ensures
            r matches Ok(t) && t.wf() && big_equiv(t.field_view(), self.field_view()) && t.nrows() == self.ncols()
                && t.ncols() == self.nrows()
                && forall|i: int, j: int| 0 <= i < t.nrows() && 0 <= j < t.ncols() ==> #[trigger] t.at(i, j) == self.at(j, i),
    {
        let rows = self.rows;
        let cols = self.cols;
        let total = self.data.len();
        assert(total == rows * cols);
        proof { self.lemma_data_below(); }
        let mut out: Vec<BigValue> = Vec::new();
        let mut j: usize = 0;
        while j < cols
            invariant
                self.wf(),
                rows == self.nrows(),
                cols == self.ncols(),
                total == rows * cols,
                j <= cols,
                out@.len() == j * rows,
                all_values_below(out@, self.field_view().q()),
                forall|a: int, b: int| 0 <= a < j && 0 <= b < rows ==> #[trigger] out@[a * rows + b].value() == self.at(b, a),
            decreases cols - j,
        {
            let mut i: usize = 0;
            while i < rows
                invariant
                    self.wf(),
                    rows == self.nrows(),
                    cols == self.ncols(),
                    total == rows * cols,
                    j < cols,
                    i <= rows,
                    out@.len() == j * rows + i,
                    all_values_below(out@, self.field_view().q()),
                    forall|a: int, b: int| 0 <= a < j && 0 <= b < rows ==> #[trigger] out@[a * rows + b].value() == self.at(b, a),
                    forall|b: int| 0 <= b < i ==> #[trigger] out@[j * rows + b].value() == self.at(b, j as int),
                decreases rows - i,
            {
                proof {
                    lemma_index(j as int, i as int, cols as int, rows as int);
                    assert(cols * rows == rows * cols) by (nonlinear_arith);
                }
                let v = self.get(i, j).clone();
                assert(v.value() < self.field_view().q()) by {
                    lemma_index(i as int, j as int, rows as int, cols as int);
                    assert(self.values_view()[i * cols + j] < self.field_view().q());
                }
                let ghost before = out@;
                out.push(v);
                proof {
                    assert forall|k: int| 0 <= k < out@.len() implies (#[trigger] out@[k]).value() < self.field_view().q() by {
                        if k < before.len() {
                            assert(out@[k] == before[k]);
                        }
                    }
                    assert forall|a: int, b: int| 0 <= a < j && 0 <= b < rows implies #[trigger] out@[a * rows + b].value()
                        == self.at(b, a) by {
                        lemma_index(a, b, j as int, rows as int);
                        assert(out@[a * rows + b] == before[a * rows + b]);
                    }
                    assert forall|b: int| 0 <= b < i + 1 implies #[trigger] out@[j * rows + b].value() == self.at(b, j as int) by {
                        if b < i {
                            assert(out@[j * rows + b] == before[j * rows + b]);
                        }
                    }
                }
                i = i + 1;
            }
            proof { assert((j + 1) * rows == j * rows + rows) by (nonlinear_arith); }
            j = j + 1;
        }
        proof {
            assert(cols * rows == rows * cols) by (nonlinear_arith);
            Self::lemma_below(out@, self.field_view().q());
        }
        let t = BigFieldMatrix { field: self.field.clone(), rows: cols, cols: rows, data: out };
        assert(big_equiv(t.field_view(), self.field_view()));
        assert forall|i: int, j: int| 0 <= i < t.nrows() && 0 <= j < t.ncols() implies #[trigger] t.at(i, j) == self.at(j, i) by {
            lemma_index(i, j, cols as int, rows as int);
            assert(t.at(i, j) == out@[i * rows + j].value());
        }
        Ok(t)
    }
}

impl BigFieldMatrix {
    /// The matrix-vector product `A v` over this matrix's field: `FieldMismatch` for a
    /// vector of the small kind, `ShapeMismatch` (columns, length of `v`) when they differ.
    pub fn mul_array(&self, vec: &GaloisArray) -> (r: Result<GaloisArray>)
        requires
            self.wf(),
        ensures
            vec is Small ==> r == Err::<GaloisArray, GaloisError>(GaloisError::FieldMismatch),
            vec matches GaloisArray::Big(v) ==> {
                &&& self.ncols() != v.values_view().len() ==> (r matches Err(GaloisError::ShapeMismatch { expected, actual })
                    && expected@ == seq![self.ncols() as usize] && actual@ == seq![v.values_view().len() as usize])
                &&& self.ncols() == v.values_view().len() ==> (r matches Ok(GaloisArray::Big(x)) && x.wf()
                    && big_equiv(x.field_view(), self.field_view())
                    && x.values_view().len() == self.nrows()
                    && forall|i: int| 0 <= i < self.nrows() ==> #[trigger] x.values_view()[i]
                        == big_row_dot(self.field_view(), self.values_view(), self.ncols(), i, v.values_view(), self.ncols()))
            },
    {
        let values = match vec {
            GaloisArray::Big(v) => v,
            GaloisArray::Small(_) => { return Err(GaloisError::FieldMismatch); },
        };
        if self.cols != values.len() {
            return Err(GaloisError::ShapeMismatch { expected: vec![self.cols], actual: vec![values.len()] });
        }
        let xs = values.values();
        let ghost f = self.field_view();
        let ghost vs = values.values_view();
        proof { f.lemma_q_ge_2(); }
        let mut out: Vec<BigValue> = Vec::new();
        let mut i: usize = 0;
        while i < self.rows
            invariant
                self.wf(),
                f == self.field_view(),
                f.q() >= 2,
                vs == values_of(xs@),
                xs@.len() == self.ncols(),
                i <= self.nrows(),
                out@.len() == i,
                all_values_below(out@, f.q()),
                forall|t: int| 0 <= t < i ==> (#[trigger] out@[t]).value()
                    == big_row_dot(f, self.values_view(), self.ncols(), t, vs, self.ncols()),
            decreases self.nrows() - i,
        {
            let mut sum = BigValue::from_u64(0);
            let mut l: usize = 0;
            while l < self.cols
                invariant
                    self.wf(),
                    f == self.field_view(),
                    f.q() >= 2,
                    vs == values_of(xs@),
                    xs@.len() == self.ncols(),
                    i < self.nrows(),
                    l <= self.ncols(),
                    sum.value() == big_row_dot(f, self.values_view(), self.ncols(), i as int, vs, l as nat),
                    sum.value() < f.q(),
                decreases self.ncols() - l,
            {
                let a = self.get(i, l);
                assert(xs@[l as int].value() == vs[l as int]);
                let prod = self.field.mul(a, &xs[l]);
                sum = self.field.add(&sum, &prod);
                l = l + 1;
            }
            let ghost before = out@;
            out.push(sum);
            proof {
                assert forall|t: int| 0 <= t < i + 1 implies (#[trigger] out@[t]).value()
                    == big_row_dot(f, self.values_view(), self.ncols(), t, vs, self.ncols()) by {
                    if t < i {
                        assert(out@[t] == before[t]);
                    }
                }
                assert forall|t: int| 0 <= t < out@.len() implies (#[trigger] out@[t]).value() < f.q() by {
                    if t < i {
                        assert(out@[t] == before[t]);
                    }
                }
            }
            i = i + 1;
        }
        match BigFieldArray::new(self.field.clone(), out) {
            Ok(arr) => {
                assert forall|t: int| 0 <= t < self.nrows() implies #[trigger] arr.values_view()[t]
                    == big_row_dot(f, self.values_view(), self.ncols(), t, vs, self.ncols()) by {
                    assert(arr.values_view()[t] == out@[t].value());
                }
                Ok(GaloisArray::Big(arr))
            },
            Err(e) => Err(e),
        }
    }
}

/// The `j`-th unit vector of length `n` as values.
fn unit_values(n: usize, j: usize) -> (r: Vec<BigValue>)
    ensures
        values_of(r@) == big_unit(n as nat, j as int),
        r@.len() == n,
{
    let mut out: Vec<BigValue> = Vec::new();
    let mut i: usize = 0;
    while i < n
        invariant
            i <= n,
            out@.len() == i,
            forall|k: int| 0 <= k < i ==> (#[trigger] out@[k]).value() == (if k == j { 1nat } else { 0nat }),
        decreases n - i,
    {
        let v: u64 = if i == j { 1 } else { 0 };
        out.push(BigValue::from_u64(v));
        i = i + 1;
    }
    assert(values_of(out@) =~= big_unit(n as nat, j as int));
    out
}

impl BigFieldMatrix {
    /// The inverse, column by column as the solutions of `A x = e_j`: `ShapeMismatch`
    /// (`[rows, rows]`, shape) for a matrix that is not square, `SingularMatrix` when a
    /// column has no solution. Column `j` of a returned inverse solves `A x = e_j`.
    pub fn inverse(&self) -> (r: Result<Self>)
        requires
            self.wf(),
        ensures
            self.nrows() != self.ncols() ==> (r matches Err(GaloisError::ShapeMismatch { expected, actual })
                && expected@ == seq![self.nrows() as usize, self.nrows() as usize]
                && actual@ == seq![self.nrows() as usize, self.ncols() as usize]),
            self.nrows() == self.ncols() ==> match r {
                Ok(inv) => inv.wf() && big_equiv(inv.field_view(), self.field_view()) && inv.nrows() == self.nrows()
                    && inv.ncols() == self.nrows()
                    && forall|j: int| 0 <= j < self.nrows() ==> #[trigger] big_solves(self,
                        big_column(inv.values_view(), self.nrows(), j), big_unit(self.nrows(), j)),
                Err(e) => e == GaloisError::SingularMatrix,
            },
    {
        let n = self.rows;
        if n != self.cols {
            return Err(GaloisError::ShapeMismatch { expected: vec![n, n], actual: vec![self.rows, self.cols] });
        }
        let total = self.data.len();
        assert(total == n * n);
        let ghost q = self.field_view().q();
        proof { self.field_view().lemma_q_ge_2(); }
        let mut result_cols: Vec<Vec<BigValue>> = Vec::new();
        let mut col: usize = 0;
        while col < n
            invariant
                self.wf(),
                q == self.field_view().q(),
                q >= 2,
                n == self.nrows(),
                n == self.ncols(),
                col <= n,
                result_cols@.len() == col,
                forall|k: int| 0 <= k < col ==> (#[trigger] result_cols@[k])@.len() == n
                    && all_values_below(result_cols@[k]@, q)
                    && big_solves(self, values_of(result_cols@[k]@), big_unit(n as nat, k)),
            decreases n - col,
        {
            let e = unit_values(n, col);
            let arr = match BigFieldArray::new(self.field.clone(), e) {
                Ok(a) => a,
                Err(err) => {
                    proof {
                        assert forall|k: int| 0 <= k < e@.len() implies (#[trigger] e@[k]).value() < q by {
                            assert(e@[k].value() == values_of(e@)[k]);
                        }
                    }
                    return Err(err);
                },
            };
            let b = GaloisArray::Big(arr);
            let x = match self.solve(&b) {
                Ok(x) => x,
                Err(err) => { return Err(err); },
            };
            let column = match &x {
                GaloisArray::Big(v) => v.values(),
                GaloisArray::Small(_) => { return Err(GaloisError::SingularMatrix); },
            };
            proof {
                assert forall|k: int| 0 <= k < column@.len() implies (#[trigger] column@[k]).value() < q by {
                    assert(column@[k].value() == values_of(column@)[k]);
                }
            }
            let ghost before = result_cols@;
            result_cols.push(column);
            proof {
                assert forall|k: int| 0 <= k < col + 1 implies (#[trigger] result_cols@[k])@.len() == n
                    && all_values_below(result_cols@[k]@, q)
                    && big_solves(self, values_of(result_cols@[k]@), big_unit(n as nat, k)) by {
                    if k < col {
                        assert(result_cols@[k] == before[k]);
                    }
                }
            }
            col = col + 1;
        }
        let mut flat: Vec<BigValue> = Vec::new();
        let mut row: usize = 0;
        while row < n
            invariant
                n == self.nrows(),
                n * n == total,
                result_cols@.len() == n,
                forall|k: int| 0 <= k < n ==> (#[trigger] result_cols@[k])@.len() == n && all_values_below(result_cols@[k]@, q),
                row <= n,
                flat@.len() == row * n,
                all_values_below(flat@, q),
                forall|a: int, b: int| 0 <= a < row && 0 <= b < n ==> #[trigger] flat@[a * n + b].value()
                    == result_cols@[b]@[a].value(),
            decreases n - row,
        {
            let mut c: usize = 0;
            while c < n
                invariant
                    n == self.nrows(),
                    n * n == total,
                    result_cols@.len() == n,
                    forall|k: int| 0 <= k < n ==> (#[trigger] result_cols@[k])@.len() == n && all_values_below(result_cols@[k]@, q),
                    row < n,
                    c <= n,
                    flat@.len() == row * n + c,
                    all_values_below(flat@, q),
                    forall|a: int, b: int| 0 <= a < row && 0 <= b < n ==> #[trigger] flat@[a * n + b].value()
                        == result_cols@[b]@[a].value(),
                    forall|b: int| 0 <= b < c ==> #[trigger] flat@[row * n + b].value() == result_cols@[b]@[row as int].value(),
                decreases n - c,
            {
                proof { lemma_index(row as int, c as int, n as int, n as int); }
                let v = result_cols[c][row].clone();
                assert(v.value() < q) by {
                    assert(result_cols@[c as int]@.len() == n && all_values_below(result_cols@[c as int]@, q));
                }
                let ghost before = flat@;
                flat.push(v);
                proof {
                    assert forall|a: int, b: int| 0 <= a < row && 0 <= b < n implies #[trigger] flat@[a * n + b].value()
                        == result_cols@[b]@[a].value() by {
                        lemma_index(a, b, row as int, n as int);
                        assert(flat@[a * n + b] == before[a * n + b]);
                    }
                    assert forall|b: int| 0 <= b < c + 1 implies #[trigger] flat@[row * n + b].value()
                        == result_cols@[b]@[row as int].value() by {
                        if b < c {
                            assert(flat@[row * n + b] == before[row * n + b]);
                        }
                    }
                    assert forall|k: int| 0 <= k < flat@.len() implies (#[trigger] flat@[k]).value() < q by {
                        if k < before.len() {
                            assert(flat@[k] == before[k]);
                        }
                    }
                }
                c = c + 1;
            }
            proof { assert((row + 1) * n == row * n + n) by (nonlinear_arith); }
            row = row + 1;
        }
        proof { Self::lemma_below(flat@, q); }
        let inv = BigFieldMatrix { field: self.field.clone(), rows: n, cols: n, data: flat };
        assert forall|j: int| 0 <= j < n implies #[trigger] big_solves(self,
            big_column(inv.values_view(), n as nat, j), big_unit(n as nat, j)) by {
            assert(big_column(inv.values_view(), n as nat, j) =~= values_of(result_cols@[j]@)) by {
                assert forall|i: int| 0 <= i < n implies big_column(inv.values_view(), n as nat, j)[i]
                    == values_of(result_cols@[j]@)[i] by {
                    lemma_index(i, j, n as int, n as int);
                    assert(inv.values_view()[i * n + j] == flat@[i * n + j].value());
                }
            }
        }
        Ok(inv)
    }
}

} // verus!
