//! Characteristic polynomials and eigenvalues of square matrices over a `BigGaloisField`.

use vstd::prelude::*;
use crate::error::{GaloisError, Result};
use crate::big_linalg::{BigFieldMatrix, big_dot_prefix, big_diag_sum};
use crate::eigen::lemma_grid_index;
use crate::field::array_kind::GaloisArray;
use crate::field::big_array::all_values_below;
use crate::field::big_field::{BigGaloisField, big_div_spec};
use crate::field::bignum::BigValue;
use crate::field::model::{gf_add, gf_sub, gf_mul, gf_neg};
use crate::poly::big_poly::{BigPoly, bp_strip, values_of, big_equiv};
use crate::poly::big_factor::{big_roots_below, big_root_limit, lemma_big_roots_below_equiv};
use crate::poly::poly_kind::{FieldPoly, field_poly_roots};

verus! {

/// The `n x n` row-major matrix with entry `e(i, j)` at `(i, j)`.
pub open spec fn big_grid(n: nat, e: spec_fn(int, int) -> nat) -> Seq<nat> {
    Seq::new(n * n, |t: int| e(t / (n as int), t % (n as int)))
}

/// A sequence of `n * n` entries that agrees with `e` on every `(i, j)` is `big_grid(n, e)`.
proof fn lemma_big_grid_ext(s: Seq<nat>, n: nat, e: spec_fn(int, int) -> nat)
    requires
        s.len() == n * n,
        forall|i: int, j: int| 0 <= i < n && 0 <= j < n ==> #[trigger] s[i * n + j] == e(i, j),
    ensures
        s == big_grid(n, e),
{
    assert forall|t: int| 0 <= t < s.len() implies s[t] == big_grid(n, e)[t] by {
        let i = t / (n as int);
        let j = t % (n as int);
        assert(n > 0) by (nonlinear_arith)
            requires 0 <= t < n * n;
        vstd::arithmetic::div_mod::lemma_fundamental_div_mod(t, n as int);
        assert(0 <= i < n) by (nonlinear_arith)
            requires 0 <= t < n * n, i == t / (n as int), n > 0;
        assert(t == i * n + j) by (nonlinear_arith)
            requires t == (n as int) * (t / (n as int)) + t % (n as int), i == t / (n as int), j == t % (n as int);
        assert(s[i * n + j] == e(i, j));
    }
    assert(s =~= big_grid(n, e));
}

/// The Faddeev–LeVerrier sequence after `k` steps over a big field: the matrix `M_k` and
/// the coefficients `c_1, ..., c_k`, where `M_0 = I`, `c_k = tr(A M_{k-1}) / k` (dividing
/// by the element whose integer representation is `k`) and `M_k = A M_{k-1} - c_k I`.
pub open spec fn big_leverrier(f: BigGaloisField, a: Seq<nat>, n: nat, k: nat) -> (Seq<nat>, Seq<nat>)
    decreases k,
{
    if k == 0 {
        (big_grid(n, |i: int, j: int| if i == j { 1nat } else { 0nat }), Seq::empty())
    } else {
        let prev = big_leverrier(f, a, n, (k - 1) as nat);
        let prod = big_grid(n, |i: int, j: int| big_dot_prefix(f, a, n, prev.0, n, i, j, n));
        let ck = big_div_spec(f, big_diag_sum(f, prod, n, n), k);
        (big_grid(n, |i: int, j: int| gf_sub(prod[i * n + j], if i == j { ck } else { 0nat }, f.p(), f.m())),
            prev.1.push(ck))
    }
}

/// The descending coefficients computed for `det(xI - A)` of an `n x n` matrix: `x - a` for
/// `n = 1`, `x^2 - (a + d) x + (ad - bc)` for `n = 2`, and `x^n - c_1 x^(n-1) - ... - c_n`
/// from the Faddeev–LeVerrier coefficients otherwise.
pub open spec fn big_char_poly_coeffs(f: BigGaloisField, a: Seq<nat>, n: nat) -> Seq<nat> {
    let (p, m) = (f.p(), f.m());
    if n == 1 {
        seq![1nat, gf_neg(a[0], p, m)]
    } else if n == 2 {
        seq![1nat, gf_neg(gf_add(a[0], a[3], p, m), p, m),
            gf_sub(gf_mul(a[0], a[3], p, m, f.f()), gf_mul(a[1], a[2], p, m, f.f()), p, m)]
    } else {
        let cs = big_leverrier(f, a, n, n).1;
        seq![1nat] + Seq::new(n, |i: int| gf_neg(cs[i], p, m))
    }
}

/// The diagonal sum depends on the field only through its parameters.
proof fn lemma_big_diag_sum_equiv(f1: BigGaloisField, f2: BigGaloisField, a: Seq<nat>, cols: nat, k: nat)
    requires
        big_equiv(f1, f2),
    ensures
        big_diag_sum(f1, a, cols, k) == big_diag_sum(f2, a, cols, k),
    decreases k,
{
    if k > 0 {
        lemma_big_diag_sum_equiv(f1, f2, a, cols, (k - 1) as nat);
    }
}

/// The `n x n` matrix with `c` on the diagonal and zero elsewhere.
fn big_scalar_matrix(field: &BigGaloisField, n: usize, c: &BigValue) -> (r: BigFieldMatrix)
    requires
        field.wf(),
        c.value() < field.q(),
        n * n <= usize::MAX,
    ensures
        r.wf(),
        big_equiv(r.field_view(), *field),
        r.nrows() == n,
        r.ncols() == n,
        r.values_view() == big_grid(n as nat, |i: int, j: int| if i == j { c.value() } else { 0nat }),
{
    let mut m = BigFieldMatrix::zeros(field.clone(), n, n);
    assert forall|a: int, b: int| 0 <= a < n && 0 <= b < n implies #[trigger] m.values_view()[a * n + b] == 0nat by {
        assert(m.at(a, b) == 0);
    }
    let mut i: usize = 0;
    while i < n
        invariant
            c.value() < field.q(),
            m.wf(),
            big_equiv(m.field_view(), *field),
            m.nrows() == n,
            m.ncols() == n,
            i <= n,
            forall|a: int, b: int| 0 <= a < n && 0 <= b < n ==> #[trigger] m.values_view()[a * n + b]
                == (if a == b && a < i { c.value() } else { 0nat }),
        decreases n - i,
    {
        let ghost before = m.values_view();
        let _ = m.set(i, i, c.clone());
        assert forall|a: int, b: int| 0 <= a < n && 0 <= b < n implies #[trigger] m.values_view()[a * n + b]
            == (if a == b && a < i + 1 { c.value() } else { 0nat }) by {
            lemma_grid_index(n as nat, a, b);
            lemma_grid_index(n as nat, i as int, i as int);
            if a * n + b == i * n + i {
                assert(a == i && b == i);
            }
            assert(before[a * n + b] == (if a == b && a < i { c.value() } else { 0nat }));
        }
        i = i + 1;
    }
    proof { lemma_big_grid_ext(m.values_view(), n as nat, |i: int, j: int| if i == j { c.value() } else { 0nat }); }
    m
}

impl BigFieldMatrix {
    /// The characteristic polynomial `det(xI - A)` in descending coefficients: `x - a` for
    /// `n = 1`, `x^2 - (a + d) x + (ad - bc)` for `n = 2`, and otherwise the
    /// Faddeev–LeVerrier coefficients; `ShapeMismatch` (`[rows, rows]`, shape) for a matrix
    /// that is not square.
    #[verifier::rlimit(40)]
    pub fn characteristic_polynomial(&self) -> (r: Result<FieldPoly>)
        requires
            self.wf(),
        ensures
            self.nrows() != self.ncols() ==> (r matches Err(GaloisError::ShapeMismatch { expected, actual })
                && expected@ == seq![self.nrows() as usize, self.nrows() as usize]
                && actual@ == seq![self.nrows() as usize, self.ncols() as usize]),
            self.nrows() == self.ncols() ==> (r matches Ok(FieldPoly::Big(p)) && p.wf()
                && big_equiv(p.field_view(), self.field_view())
                && p.coeffs_view() == bp_strip(big_char_poly_coeffs(self.field_view(), self.values_view(), self.nrows()))),
    {
        let (n, cols) = self.shape();
        if n != cols {
            return Err(GaloisError::ShapeMismatch { expected: vec![n, n], actual: vec![n, cols] });
        }
        let field = self.field();
        let ghost f = self.field_view();
        let ghost a = self.values_view();
        let size = self.entry_count();
        proof {
            f.lemma_q_ge_2();
            f.lemma_wf_params();
            if f.m() == 1 {
                crate::arith::lemma_npow_one(f.p());
            }
        }
        let ghost q = f.q();
        assert(f.m() == 1 ==> q == f.p());
        if n == 1 {
            assert(self.values_view().len() == 1) by {
                let (r1, c1) = (self.nrows(), self.ncols());
                assert(r1 == 1 && c1 == 1);
                assert(r1 * c1 == 1) by (nonlinear_arith) requires r1 == 1, c1 == 1;
            }
            assert(self.values_view()[0] < q);
            let c = field.neg(self.get(0, 0));
            let desc = vec![BigValue::from_u64(1), c];
            assert(values_of(desc@) =~= big_char_poly_coeffs(f, a, 1));
            assert(desc@[0].value() < q && desc@[1].value() < q);
            return match BigPoly::new(desc, field.clone()) {
                Ok(p) => Ok(FieldPoly::Big(p)),
                Err(e) => Err(e),
            };
        }
        if n == 2 {
            let av = self.get(0, 0);
            let bv = self.get(0, 1);
            let cv = self.get(1, 0);
            let dv = self.get(1, 1);
            let trace = field.add(av, dv);
            let det = field.sub(&field.mul(av, dv), &field.mul(bv, cv));
            let desc = vec![BigValue::from_u64(1), field.neg(&trace), det];
            assert(values_of(desc@) =~= big_char_poly_coeffs(f, a, 2));
            assert(desc@[0].value() < q && desc@[1].value() < q && desc@[2].value() < q);
            return match BigPoly::new(desc, field.clone()) {
                Ok(p) => Ok(FieldPoly::Big(p)),
                Err(e) => Err(e),
            };
        }
        assert(n < usize::MAX) by (nonlinear_arith)
            requires n * n <= usize::MAX, n == 0 || n >= 3;
        let mut companion = BigFieldMatrix::identity(field.clone(), n);
        proof {
            assert forall|i: int, j: int| 0 <= i < n && 0 <= j < n implies #[trigger] companion.values_view()[i * n + j]
                == (if i == j { 1nat } else { 0nat }) by {
                assert(companion.at(i, j) == (if i == j { 1nat } else { 0nat }));
            }
            lemma_big_grid_ext(companion.values_view(), n as nat, |i: int, j: int| if i == j { 1nat } else { 0nat });
        }
        let mut coeffs: Vec<BigValue> = Vec::new();
        let mut k: usize = 1;
        while k <= n
            invariant
                self.wf(),
                *field == f,
                f == self.field_view(),
                a == self.values_view(),
                q == f.q(),
                q >= 2,
                n == self.nrows(),
                n == self.ncols(),
                n * n <= usize::MAX,
                n < usize::MAX,
                1 <= k <= n + 1,
                companion.wf(),
                big_equiv(companion.field_view(), f),
                companion.nrows() == n,
                companion.ncols() == n,
                companion.values_view() == big_leverrier(f, a, n as nat, (k - 1) as nat).0,
                values_of(coeffs@) == big_leverrier(f, a, n as nat, (k - 1) as nat).1,
                all_values_below(coeffs@, q),
                coeffs@.len() == k - 1,
            decreases n + 1 - k,
        {
            let product = match self.mul(&companion) {
                Ok(v) => v,
                Err(e) => { return Err(e); },
            };
            let ghost prev = big_leverrier(f, a, n as nat, (k - 1) as nat);
            proof {
                assert forall|i: int, j: int| 0 <= i < n && 0 <= j < n implies #[trigger] product.values_view()[i * n + j]
                    == big_dot_prefix(f, a, n as nat, prev.0, n as nat, i, j, n as nat) by {
                    assert(product.at(i, j) == big_dot_prefix(f, a, n as nat, prev.0, n as nat, i, j, n as nat));
                }
                lemma_big_grid_ext(product.values_view(), n as nat,
                    |i: int, j: int| big_dot_prefix(f, a, n as nat, prev.0, n as nat, i, j, n as nat));
            }
            let t = product.trace();
            proof { lemma_big_diag_sum_equiv(product.field_view(), f, product.values_view(), n as nat, n as nat); }
            let kv = BigValue::from_u64(k as u64);
            let ck = match field.div(&t, &kv) {
                Ok(v) => v,
                Err(e) => { return Err(e); },
            };
            let scaled = big_scalar_matrix(field, n, &ck);
            let next = match product.sub(&scaled) {
                Ok(v) => v,
                Err(e) => { return Err(e); },
            };
            proof {
                let ckv = ck.value();
                let prod = product.values_view();
                assert forall|i: int, j: int| 0 <= i < n && 0 <= j < n implies #[trigger] next.values_view()[i * n + j]
                    == gf_sub(prod[i * n + j], if i == j { ckv } else { 0nat }, f.p(), f.m()) by {
                    lemma_grid_index(n as nat, i, j);
                    assert(scaled.values_view()[i * n + j] == (if i == j { ckv } else { 0nat }));
                }
                lemma_big_grid_ext(next.values_view(), n as nat,
                    |i: int, j: int| gf_sub(prod[i * n + j], if i == j { ckv } else { 0nat }, f.p(), f.m()));
            }
            companion = next;
            let ghost before = coeffs@;
            coeffs.push(ck);
            proof {
                assert(values_of(coeffs@) =~= values_of(before).push(ck.value()));
                assert forall|t: int| 0 <= t < coeffs@.len() implies (#[trigger] coeffs@[t]).value() < q by {
                    if t < before.len() {
                        assert(coeffs@[t] == before[t]);
                    }
                }
            }
            k = k + 1;
        }
        let mut desc: Vec<BigValue> = vec![BigValue::from_u64(1)];
        assert(all_values_below(desc@, q));
        let mut i: usize = 0;
        while i < n
            invariant
                *field == f,
                f.wf(),
                q == f.q(),
                f.m() == 1 ==> q == f.p(),
                values_of(coeffs@) == big_leverrier(f, a, n as nat, n as nat).1,
                all_values_below(coeffs@, q),
                coeffs@.len() == n,
                i <= n,
                desc@.len() == i + 1,
                desc@[0].value() == 1,
                all_values_below(desc@, q),
                forall|j: int| 0 <= j < i ==> #[trigger] desc@[j + 1].value() == gf_neg(coeffs@[j].value(), f.p(), f.m()),
            decreases n - i,
        {
            let v = field.neg(&coeffs[i]);
            let ghost before = desc@;
            desc.push(v);
            proof {
                assert forall|t: int| 0 <= t < desc@.len() implies (#[trigger] desc@[t]).value() < q by {
                    if t < before.len() {
                        assert(desc@[t] == before[t]);
                    }
                }
                assert forall|j: int| 0 <= j < i + 1 implies #[trigger] desc@[j + 1].value()
                    == gf_neg(coeffs@[j].value(), f.p(), f.m()) by {
                    if j < i {
                        assert(desc@[j + 1] == before[j + 1]);
                    }
                }
            }
            i = i + 1;
        }
        assert forall|t: int| 1 <= t <= n implies values_of(desc@)[t] == big_char_poly_coeffs(f, a, n as nat)[t] by {
            assert(desc@[(t - 1) + 1].value() == gf_neg(coeffs@[t - 1].value(), f.p(), f.m()));
            assert(coeffs@[t - 1].value() == values_of(coeffs@)[t - 1]);
        }
        assert(values_of(desc@) =~= big_char_poly_coeffs(f, a, n as nat));
        assert(forall|t: int| 0 <= t < desc@.len() ==> (#[trigger] desc@[t]).value() < q);
        assert(n + 1 <= isize::MAX) by (nonlinear_arith)
            requires n * n <= usize::MAX, usize::MAX == 2 * isize::MAX + 1;
        match BigPoly::new(desc, field.clone()) {
            Ok(p) => Ok(FieldPoly::Big(p)),
            Err(e) => Err(e),
        }
    }

    /// The roots of the characteristic polynomial among the elements below
    /// `min(q, 10000)` (none when the order does not fit in 64 bits), ascending;
    /// `ShapeMismatch` (`[rows, rows]`, shape) for a matrix that is not square.
    pub fn eigenvalues(&self) -> (r: Result<GaloisArray>)
        requires
            self.wf(),
        ensures
            self.nrows() != self.ncols() ==> (r matches Err(GaloisError::ShapeMismatch { expected, actual })
                && expected@ == seq![self.nrows() as usize, self.nrows() as usize]
                && actual@ == seq![self.nrows() as usize, self.ncols() as usize]),
            self.nrows() == self.ncols() ==> (r matches Ok(GaloisArray::Big(x)) && x.wf()
                && big_equiv(x.field_view(), self.field_view())
                && x.values_view() == big_roots_below(
                    bp_strip(big_char_poly_coeffs(self.field_view(), self.values_view(), self.nrows())),
                    big_root_limit(self.field_view().q()), self.field_view())),
    {
        let (n, cols) = self.shape();
        if n != cols {
            return Err(GaloisError::ShapeMismatch { expected: vec![n, n], actual: vec![n, cols] });
        }
        let cp = match self.characteristic_polynomial() {
            Ok(p) => p,
            Err(e) => { return Err(e); },
        };
        let r = field_poly_roots(&cp);
        proof {
            if let FieldPoly::Big(p) = cp {
                lemma_big_roots_below_equiv(p.coeffs_view(), big_root_limit(p.field_view().q()), p.field_view(),
                    self.field_view());
            }
        }
        r
    }
}

} // verus!
