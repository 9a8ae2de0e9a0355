//! Characteristic polynomials and eigenvalues of square matrices over GF(q).

use vstd::prelude::*;
use crate::error::{GaloisError, Result};
use crate::field::array::all_below;
use crate::field::factory::GaloisField;
use crate::linalg::{FieldMatrix, dot_prefix, diag_sum};
use crate::poly::field_poly::Poly;
use crate::poly::factor::{roots, roots_spec};

verus! {

/// The `n x n` row-major matrix with entry `e(i, j)` at `(i, j)`.
pub open spec fn grid(n: nat, e: spec_fn(int, int) -> u64) -> Seq<u64> {
    Seq::new(n * n, |t: int| e(t / (n as int), t % (n as int)))
}

/// Row `i` and column `j` of an `n x n` matrix sit at `i * n + j`.
pub proof fn lemma_grid_index(n: nat, i: int, j: int)
    requires
        0 <= i < n,
        0 <= j < n,
    ensures
        0 <= i * n + j < n * n,
        (i * n + j) / (n as int) == i,
        (i * n + j) % (n as int) == j,
{
    assert(0 <= i * n + j < n * n) by (nonlinear_arith)
        requires 0 <= i < n, 0 <= j < n;
    vstd::arithmetic::div_mod::lemma_fundamental_div_mod_converse(i * n + j, n as int, i, j);
}

/// A sequence of `n * n` entries that agrees with `e` on every `(i, j)` is `grid(n, e)`.
pub proof fn lemma_grid_ext(s: Seq<u64>, n: nat, e: spec_fn(int, int) -> u64)
    requires
        s.len() == n * n,
        forall|i: int, j: int| 0 <= i < n && 0 <= j < n ==> #[trigger] s[i * n + j] == e(i, j),
    ensures
        s == grid(n, e),
{
    assert forall|t: int| 0 <= t < s.len() implies s[t] == grid(n, e)[t] by {
        let i = t / (n as int);
        let j = t % (n as int);
        assert(n > 0) by (nonlinear_arith)
            requires 0 <= t < n * n;
        vstd::arithmetic::div_mod::lemma_fundamental_div_mod(t, n as int);
        assert(0 <= i < n) by (nonlinear_arith)
            requires 0 <= t < n * n, i == t / (n as int), n > 0;
        assert(t == i * n + j) by (nonlinear_arith)
            requires t == (n as int) * (t / (n as int)) + t % (n as int), i == t / (n as int), j == t % (n as int);
        assert(s[i * n + j] == e(i, j));
    }
    assert(s =~= grid(n, e));
}

/// The product of two `n x n` matrices over the field.
pub open spec fn mat_product(fld: GaloisField, a: Seq<u64>, b: Seq<u64>, n: nat) -> Seq<u64> {
    grid(n, |i: int, j: int| dot_prefix(fld, a, n, b, n, i, j, n) as u64)
}

/// `c` on the diagonal, zero elsewhere.
pub open spec fn scalar_diag(c: u64, n: nat) -> Seq<u64> {
    grid(n, |i: int, j: int| if i == j { c } else { 0u64 })
}

/// The entrywise difference of two matrices of equal size.
pub open spec fn mat_diff(fld: GaloisField, a: Seq<u64>, b: Seq<u64>) -> Seq<u64> {
    Seq::new(a.len(), |t: int| fld.sub_spec(a[t] as nat, b[t] as nat) as u64)
}

/// The Faddeev–LeVerrier sequence after `k` steps: the matrix `M_k` and the coefficients
/// `c_1, ..., c_k`, where `M_0 = I`, `c_k = tr(A M_{k-1}) / k` and `M_k = A M_{k-1} - c_k I`.
pub open spec fn leverrier(fld: GaloisField, a: Seq<u64>, n: nat, k: nat) -> (Seq<u64>, Seq<u64>)
    decreases k,
{
    if k == 0 {
        (scalar_diag(1u64, n), Seq::empty())
    } else {
        let prev = leverrier(fld, a, n, (k - 1) as nat);
        let prod = mat_product(fld, a, prev.0, n);
        let ck = fld.div_spec(diag_sum(fld, prod, n, n), k) as u64;
        (mat_diff(fld, prod, scalar_diag(ck, n)), prev.1.push(ck))
    }
}

/// The descending coefficients computed for `det(xI - A)` of the leading `n x n` block of a
/// matrix with `cols` columns: `x - a` for `n = 1`, `x^2 - (a + d) x + (ad - bc)` for
/// `n = 2`, and `x^n - c_1 x^(n-1) - ... - c_n` from the Faddeev–LeVerrier coefficients
/// otherwise.
pub open spec fn char_poly_coeffs(fld: GaloisField, a: Seq<u64>, n: nat, cols: nat) -> Seq<u64> {
    if n == 1 {
        seq![1u64, fld.neg_spec(a[0] as nat) as u64]
    } else if n == 2 {
        let (p, q, r, s) = (a[0] as nat, a[1] as nat, a[cols as int] as nat, a[cols + 1int] as nat);
        seq![1u64, fld.neg_spec(fld.add_spec(p, s)) as u64,
            fld.sub_spec(fld.mul_spec(p, s), fld.mul_spec(q, r)) as u64]
    } else {
        let cs = leverrier(fld, a, n, n).1;
        seq![1u64] + Seq::new(n, |i: int| fld.neg_spec(cs[i] as nat) as u64)
    }
}


/// The diagonal sum depends on the field only through its parameters.
proof fn lemma_diag_sum_equiv(f1: GaloisField, f2: GaloisField, a: Seq<u64>, cols: nat, k: nat)
    requires
        f1.equiv(&f2),
    ensures
        diag_sum(f1, a, cols, k) == diag_sum(f2, a, cols, k),
    decreases k,
{
    if k > 0 {
        lemma_diag_sum_equiv(f1, f2, a, cols, (k - 1) as nat);
    }
}

/// The `n x n` matrix with `c` on the diagonal and zero elsewhere.
fn scaled_identity(field: &GaloisField, n: usize, c: u64) -> (r: FieldMatrix)
    requires
        field.wf(),
        c < field.q(),
        n * n <= usize::MAX,
    ensures
        r.wf(),
        r.field_view().equiv(field),
        r.nrows() == n,
        r.ncols() == n,
        r.values_view() == scalar_diag(c, n as nat),
{
    let fz = field.clone();
    proof { fz.lemma_equiv_wf(field); }
    let mut m = FieldMatrix::zeros(fz, n, n);
    assert forall|a: int, b: int| 0 <= a < n && 0 <= b < n implies #[trigger] m.values_view()[a * n + b] == 0u64 by {
        lemma_grid_index(n as nat, a, b);
    }
    let mut i: usize = 0;
    while i < n
        invariant
            field.wf(),
            c < field.q(),
            m.wf(),
            m.field_view().equiv(field),
            m.nrows() == n,
            m.ncols() == n,
            i <= n,
            forall|a: int, b: int| 0 <= a < n && 0 <= b < n ==> #[trigger] m.values_view()[a * n + b]
                == (if a == b && a < i { c } else { 0u64 }),
        decreases n - i,
    {
        let ghost before = m.values_view();
        let _ = m.set(i, i, c);
        assert forall|a: int, b: int| 0 <= a < n && 0 <= b < n implies #[trigger] m.values_view()[a * n + b]
            == (if a == b && a < i + 1 { c } else { 0u64 }) by {
            lemma_grid_index(n as nat, a, b);
            lemma_grid_index(n as nat, i as int, i as int);
            if a * n + b == i * n + i {
                assert(a == i && b == i);
            }
            assert(before[a * n + b] == (if a == b && a < i { c } else { 0u64 }));
        }
        i = i + 1;
    }
    proof { lemma_grid_ext(m.values_view(), n as nat, |a: int, b: int| if a == b { c } else { 0u64 }); }
    m
}


/// The characteristic polynomial `det(xI - A)` of a matrix `A` with `n` rows, in descending
/// coefficients: `x - a` for `n = 1`, `x^2 - (a + d) x + (ad - bc)` for `n = 2` (read from
/// the leading block), and otherwise the Faddeev–LeVerrier coefficients (dividing the
/// `k`-th trace by the element `k`); `ShapeMismatch` (`[n, n]`, `[cols, n]`) when a matrix
/// with three or more rows is not square.
pub fn characteristic_polynomial(matrix: &FieldMatrix) -> (r: Result<Poly>)
    requires
        matrix.wf(),
        matrix.nrows() == 1 ==> matrix.ncols() >= 1,
        matrix.nrows() == 2 ==> matrix.ncols() >= 2,
        matrix.nrows() >= 3 && matrix.nrows() == matrix.ncols() ==> matrix.nrows() < matrix.field_view().q(),
    ensures
        matrix.nrows() <= 2 || matrix.nrows() == matrix.ncols() ==> (r matches Ok(p) && p.wf()
            && p.field_view().equiv(&matrix.field_view())
            && p.coeffs_view() == char_poly_coeffs(matrix.field_view(), matrix.values_view(), matrix.nrows(), matrix.ncols())),
        matrix.nrows() >= 3 && matrix.nrows() != matrix.ncols() ==> (r matches Err(GaloisError::ShapeMismatch { expected, actual })
            && expected@ == seq![matrix.nrows() as usize, matrix.nrows() as usize]
            && actual@ == seq![matrix.ncols() as usize, matrix.nrows() as usize]),
{
    let (n, cols) = matrix.shape();
    let field = matrix.field();
    let ghost fld = matrix.field_view();
    let ghost a = matrix.values_view();
    proof { field.lemma_q_ge_2(); }
    let size = matrix.entry_count();
    if n == 0 {
        let desc = vec![1];
        assert(desc@ =~= char_poly_coeffs(fld, a, 0, cols as nat));
        return Poly::new(desc, field.clone());
    }
    if n == 1 {
        let desc = vec![1, field.neg(matrix.get(0, 0))];
        let r = Poly::new(desc, field.clone());
        assert(desc@ == char_poly_coeffs(fld, a, 1, cols as nat));
        return r;
    }
    if n == 2 {
        let av = matrix.get(0, 0);
        let bv = matrix.get(0, 1);
        let cv = matrix.get(1, 0);
        let dv = matrix.get(1, 1);
        assert(av < fld.q() && bv < fld.q() && cv < fld.q() && dv < fld.q()) by {
            assert(a.len() == 2 * cols);
            assert(all_below(a, fld.q()));
            assert(a[0] < fld.q());
            assert(a[1] < fld.q());
            assert(a[cols as int] < fld.q());
            assert(a[cols + 1] < fld.q());
        }
        let trace = field.add(av, dv);
        let det = field.sub(field.mul(av, dv), field.mul(bv, cv));
        let desc = vec![1, field.neg(trace), det];
        assert(desc@ == char_poly_coeffs(fld, a, 2, cols as nat));
        return Poly::new(desc, field.clone());
    }
    if n != cols {
        return Err(GaloisError::ShapeMismatch { expected: vec![n, n], actual: vec![cols, n] });
    }
    let fi = field.clone();
    proof { fi.lemma_equiv_wf(field); }
    let mut companion = FieldMatrix::identity(fi, n);
    proof {
        assert forall|i: int, j: int| 0 <= i < n && 0 <= j < n implies #[trigger] companion.values_view()[i * n + j]
            == (if i == j { 1u64 } else { 0u64 }) by {
            assert(companion.at(i, j) == (if i == j { 1u64 } else { 0u64 }));
        }
        lemma_grid_ext(companion.values_view(), n as nat, |i: int, j: int| if i == j { 1u64 } else { 0u64 });
    }
    let mut coeffs: Vec<u64> = Vec::new();
    let mut k: usize = 1;
    while k <= n
        invariant
            matrix.wf(),
            *field == fld,
            fld == matrix.field_view(),
            a == matrix.values_view(),
            n == matrix.nrows(),
            n == matrix.ncols(),
            n < fld.q(),
            n * n <= usize::MAX,
            1 <= k <= n + 1,
            companion.wf(),
            companion.field_view().equiv(field),
            companion.nrows() == n,
            companion.ncols() == n,
            companion.values_view() == leverrier(fld, a, n as nat, (k - 1) as nat).0,
            coeffs@ == leverrier(fld, a, n as nat, (k - 1) as nat).1,
            all_below(coeffs@, fld.q()),
            coeffs@.len() == k - 1,
        decreases n + 1 - k,
    {
        proof { companion.field_view().lemma_equiv_wf(field); }
        let product = match matrix.mul(&companion) {
            Ok(v) => v,
            Err(e) => { return Err(e); },
        };
        let ghost prev = leverrier(fld, a, n as nat, (k - 1) as nat);
        proof {
            assert forall|i: int, j: int| 0 <= i < n && 0 <= j < n implies #[trigger] product.values_view()[i * n + j]
                == dot_prefix(fld, a, n as nat, prev.0, n as nat, i, j, n as nat) as u64 by {
                assert(product.at(i, j) == dot_prefix(fld, a, n as nat, prev.0, n as nat, i, j, n as nat));
            }
            lemma_grid_ext(product.values_view(), n as nat,
                |i: int, j: int| dot_prefix(fld, a, n as nat, prev.0, n as nat, i, j, n as nat) as u64);
        }
        let t = product.trace();
        proof { lemma_diag_sum_equiv(product.field_view(), fld, product.values_view(), n as nat, n as nat); }
        let ck = match field.div(t, k as u64) {
            Ok(v) => v,
            Err(e) => { return Err(e); },
        };
        let scaled = scaled_identity(field, n, ck);
        let next = match product.sub(&scaled) {
            Ok(v) => v,
            Err(e) => { return Err(e); },
        };
        assert(next.values_view() =~= mat_diff(fld, product.values_view(), scaled.values_view()));
        companion = next;
        coeffs.push(ck);
        k = k + 1;
    }
    let mut desc: Vec<u64> = vec![1];
    let mut i: usize = 0;
    while i < n
        invariant
            *field == fld,
            fld.wf(),
            coeffs@ == leverrier(fld, a, n as nat, n as nat).1,
            coeffs@.len() == n,
            i <= n,
            desc@.len() == i + 1,
            desc@[0] == 1u64,
            forall|j: int| 0 <= j < i ==> #[trigger] desc@[j + 1] == fld.neg_spec(coeffs@[j] as nat) as u64,
            all_below(desc@, fld.q()),
        decreases n - i,
    {
        let v = field.neg(coeffs[i]);
        desc.push(v);
        i = i + 1;
    }
    assert forall|t: int| 1 <= t <= n implies desc@[t] == char_poly_coeffs(fld, a, n as nat, cols as nat)[t] by {
        assert(desc@[(t - 1) + 1] == fld.neg_spec(coeffs@[t - 1] as nat) as u64);
    }
    assert(desc@ =~= char_poly_coeffs(fld, a, n as nat, cols as nat));
    assert(n + 1 <= isize::MAX) by (nonlinear_arith)
        requires n * n <= usize::MAX, n >= 3, usize::MAX == 2 * isize::MAX + 1;
    Poly::new(desc, field.clone())
}


impl FieldMatrix {
    /// The roots of the characteristic polynomial among the elements below
    /// `min(q, 10000)`, ascending; `ShapeMismatch` (`[rows, rows]`, shape) for a matrix that
    /// is not square.
    pub fn eigenvalues(&self) -> (r: Result<Vec<u64>>)
        requires
            self.wf(),
            self.nrows() >= 3 && self.nrows() == self.ncols() ==> self.nrows() < self.field_view().q(),
        ensures
            self.nrows() != self.ncols() ==> (r matches Err(GaloisError::ShapeMismatch { expected, actual })
                && expected@ == seq![self.nrows() as usize, self.nrows() as usize]
                && actual@ == seq![self.nrows() as usize, self.ncols() as usize]),
            self.nrows() == self.ncols() ==> (r matches Ok(v)
                && v@ == roots_spec(char_poly_coeffs(self.field_view(), self.values_view(), self.nrows(), self.ncols()),
                    self.field_view().model())),
    {
        let (rows, cols) = self.shape();
        if rows != cols {
            return Err(GaloisError::ShapeMismatch { expected: vec![rows, rows], actual: vec![rows, cols] });
        }
        let char_poly = match characteristic_polynomial(self) {
            Ok(p) => p,
            Err(e) => { return Err(e); },
        };
        roots(&char_poly)
    }
}

} // verus!
