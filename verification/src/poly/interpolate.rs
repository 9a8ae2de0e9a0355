//! Lagrange interpolation over GF(q).

use vstd::prelude::*;
use crate::error::{GaloisError, Result};
use crate::field::array::{FieldArray, all_below};
use crate::field::factory::{FieldModel, GaloisField};
use crate::poly::field_poly::{Poly, gp_add, gp_mul, gp_scale, strip_leading};

verus! {

/// `prod_{j < k, j != i} (x - xs_j)`, multiplied in the order of `j`.
pub open spec fn lagrange_basis(xs: Seq<u64>, i: int, k: nat, f: FieldModel) -> Seq<u64>
    decreases k,
{
    if k == 0 {
        seq![1u64]
    } else {
        let b = lagrange_basis(xs, i, (k - 1) as nat, f);
        if k - 1 == i { b } else { gp_mul(b, seq![1u64, f.neg(xs[k - 1] as nat) as u64], f) }
    }
}

/// `prod_{j < k, j != i} (xs_i - xs_j)`, multiplied in the order of `j`.
pub open spec fn lagrange_denom(xs: Seq<u64>, i: int, k: nat, f: FieldModel) -> nat
    decreases k,
{
    if k == 0 {
        1
    } else {
        let d = lagrange_denom(xs, i, (k - 1) as nat, f);
        if k - 1 == i { d } else { f.mul(d, f.sub(xs[i] as nat, xs[k - 1] as nat)) }
    }
}

/// Interpolation succeeds: every denominator is nonzero and every `ys_i` is an element.
pub open spec fn lagrange_ok(xs: Seq<u64>, ys: Seq<u64>, f: FieldModel) -> bool {
    forall|i: int| 0 <= i < xs.len() ==> #[trigger] lagrange_denom(xs, i, xs.len(), f) != 0 && ys[i] < f.q
}

/// `sum_{i < k} ys_i / denom_i * basis_i`, added in the order of `i`.
pub open spec fn lagrange_sum(xs: Seq<u64>, ys: Seq<u64>, k: nat, f: FieldModel) -> Seq<u64>
    decreases k,
{
    if k == 0 {
        seq![0u64]
    } else {
        let i = k - 1;
        let c = f.div(ys[i] as nat, lagrange_denom(xs, i, xs.len(), f));
        gp_add(lagrange_sum(xs, ys, (k - 1) as nat, f), gp_scale(lagrange_basis(xs, i, xs.len(), f), c, f), f)
    }
}

/// The Lagrange interpolating polynomial through the points `(x_i, y_i)` over the field of
/// `x`: `sum_i y_i / prod_{j != i} (x_i - x_j) * prod_{j != i} (x - x_j)`.
/// `LengthMismatch` for arrays of different lengths, `DivisionByZero` when two `x_i`
/// coincide (a zero denominator), `InvalidElement` for a `y_i` that is not an element.
pub fn lagrange_poly(x: &FieldArray, y: &FieldArray) -> (r: Result<Poly>)
    requires
        x.wf(),
        y.wf(),
        x.values_view().len() < 0x3fff_ffff,
    ensures
        x.values_view().len() != y.values_view().len() ==> r == Err::<Poly, GaloisError>(GaloisError::LengthMismatch),
        x.values_view().len() == y.values_view().len() ==> (r is Ok <==> lagrange_ok(x.values_view(), y.values_view(),
            x.field_view().model())),
        x.values_view().len() == y.values_view().len() ==> (r matches Ok(p) ==> p.wf()
            && p.field_view().equiv(&x.field_view())
            && p.coeffs_view() == lagrange_sum(x.values_view(), y.values_view(), x.values_view().len(), x.field_view().model())),
        x.values_view().len() == y.values_view().len() ==> (r matches Err(e) ==> (e == GaloisError::DivisionByZero {
            characteristic: x.field_view().p() as u64, degree: x.field_view().m() as u32 }
            || e matches GaloisError::InvalidElement { .. })),
{
    if x.len() != y.len() {
        return Err(GaloisError::LengthMismatch);
    }
    let field = x.field();
    let ghost f = field.model();
    let ghost xs = x.values_view();
    let ghost ys = y.values_view();
    let n = x.len();
    let xv = x.values();
    let yv = y.values();
    proof { field.lemma_q_ge_2(); }
    let fz = field.clone();
    proof { fz.lemma_equiv_wf(field); }
    let mut result = Poly::zero(fz);
    let mut i: usize = 0;
    while i < n
        invariant
            field.wf(),
            *field == x.field_view(),
            f == field.model(),
            xs == x.values_view(),
            ys == y.values_view(),
            xv@ == xs,
            yv@ == ys,
            n == xs.len(),
            n == ys.len(),
            n < 0x3fff_ffff,
            all_below(xs, f.q),
            f.q >= 2,
            i <= n,
            result.wf(),
            result.field_view().equiv(field),
            result.coeffs_view() == lagrange_sum(xs, ys, i as nat, f),
            forall|k: int| 0 <= k < i ==> #[trigger] lagrange_denom(xs, k, n as nat, f) != 0 && ys[k] < f.q,
        decreases n - i,
    {
        let xi = xv[i];
        let yi = yv[i];
        let fb = field.clone();
        proof { fb.lemma_equiv_wf(field); }
        let mut basis = Poly::one(fb);
        let mut denom: u64 = 1;
        let mut j: usize = 0;
        while j < n
            invariant
                field.wf(),
                f == field.model(),
                xv@ == xs,
                n == xs.len(),
                n < 0x3fff_ffff,
                all_below(xs, f.q),
                f.q >= 2,
                i < n,
                xi == xs[i as int],
                j <= n,
                basis.wf(),
                basis.field_view().equiv(field),
                basis.coeffs_view().len() <= j + 1,
                basis.coeffs_view() == lagrange_basis(xs, i as int, j as nat, f),
                denom < f.q,
                denom == lagrange_denom(xs, i as int, j as nat, f),
            decreases n - j,
        {
            if i != j {
                let xj = xv[j];
                let nr = field.neg(xj);
                let fl = field.clone();
                proof { fl.lemma_equiv_wf(field); }
                let linear = Poly::from_valid(vec![1, nr], fl);
                assert(linear.coeffs_view() == seq![1u64, nr]) by {
                    assert(seq![1u64, nr][0] != 0);
                    assert(strip_leading(seq![1u64, nr]) == seq![1u64, nr]);
                }
                proof {
                    linear.field_view().lemma_equiv_wf(field);
                    basis.field_view().lemma_equiv_wf(field);
                }
                basis = match basis.mul(&linear) {
                    Ok(v) => v,
                    Err(e) => { return Err(e); },
                };
                let diff = field.sub(xi, xj);
                denom = field.mul(denom, diff);
            }
            j = j + 1;
        }
        if denom == 0 {
            assert(!lagrange_ok(xs, ys, f)) by {
                assert(lagrange_denom(xs, i as int, xs.len(), f) == 0);
            }
            return Err(GaloisError::DivisionByZero { characteristic: field.characteristic(), degree: field.degree() });
        }
        if yi >= field.order() {
            assert(!lagrange_ok(xs, ys, f)) by {
                assert(lagrange_denom(xs, i as int, xs.len(), f) != 0);
            }
            return Err(GaloisError::InvalidElement { value: yi, characteristic: field.characteristic(), degree: field.degree() });
        }
        let scale = match field.div(yi, denom) {
            Ok(v) => v,
            Err(e) => { return Err(e); },
        };
        proof { basis.field_view().lemma_equiv_wf(field); }
        let term = match basis.mul_scalar(scale) {
            Ok(v) => v,
            Err(e) => { return Err(e); },
        };
        proof {
            term.field_view().lemma_equiv_wf(field);
            result.field_view().lemma_equiv_wf(field);
        }
        result = match result.add(&term) {
            Ok(v) => v,
            Err(e) => { return Err(e); },
        };
        i = i + 1;
    }
    Ok(result)
}

} // verus!
