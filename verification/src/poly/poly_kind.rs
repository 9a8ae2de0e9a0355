//! Polynomials over either kind of field.

use vstd::prelude::*;
use crate::error::{GaloisError, Result};
use crate::field::big_field::{BigGaloisField, FieldKind, same_big_field, big_div_spec};
use crate::field::big_array::BigFieldArray;
use crate::field::array::FieldArray;
use crate::poly::factor::{roots, roots_spec, lemma_roots_below_bound};
use crate::poly::big_factor::{big_roots, big_roots_below, big_root_limit, lemma_big_roots_below_bound};
use crate::field::array_kind::GaloisArray;
use crate::field::model::{gf_neg, gf_sub, gf_mul};
use crate::poly::interpolate::{lagrange_poly, lagrange_ok, lagrange_sum};
use crate::field::bignum::BigValue;
use crate::field::element::same_field;
use crate::poly::big_poly::{BigPoly, bp_add, bp_sub, bp_mul, bp_neg, bp_horner, bp_is_zero, big_equiv, bp_scale, bp_strip,
    values_of, lemma_bp_ops_equiv};
use crate::poly::field_poly::{Poly, gp_add, gp_sub, gp_mul, gp_neg, gp_degree, gp_is_zero, horner, gp_from_roots, gp_divmod, gp_deriv};
use crate::poly::big_divmod::{bp_divmod, bp_deriv};

verus! {

/// A polynomial over a field with 64-bit elements or over one with arbitrary-precision
/// elements.
pub enum FieldPoly {
    Small(Poly),
    Big(BigPoly),
}

impl FieldPoly {
    pub open spec fn wf(&self) -> bool {
        match self {
            FieldPoly::Small(p) => p.wf(),
            FieldPoly::Big(p) => p.wf(),
        }
    }

    /// The coefficients, highest degree first, as integers.
    pub open spec fn coeffs_nat(&self) -> Seq<nat> {
        match self {
            FieldPoly::Small(p) => p.coeffs_view().map_values(|x: u64| x as nat),
            FieldPoly::Big(p) => p.coeffs_view(),
        }
    }

    /// The polynomial with degree-descending integer coefficients over `field`, as
    /// `Poly::new` or `BigPoly::from_u64` builds it.
    pub fn from_u64(field: &FieldKind, coeffs: Vec<u64>) -> (r: Result<Self>)
        requires
            field.wf(),
            coeffs@.len() <= isize::MAX,
        ensures
            field matches FieldKind::Small(f) ==> ((forall|i: int| 0 <= i < coeffs@.len() ==> coeffs@[i] < f.q())
                <==> r matches Ok(FieldPoly::Small(x)))
                && (r matches Ok(FieldPoly::Small(x)) ==> x.wf() && x.field_view().equiv(f)
                    && x.coeffs_view() == crate::poly::field_poly::strip_leading(coeffs@)),
            field matches FieldKind::Big(f) ==> ((forall|i: int| 0 <= i < coeffs@.len() ==> coeffs@[i] < f.q())
                <==> r matches Ok(FieldPoly::Big(x)))
                && (r matches Ok(FieldPoly::Big(x)) ==> x.wf() && big_equiv(x.field_view(), *f)
                    && x.coeffs_view() == crate::poly::big_poly::bp_strip(coeffs@.map_values(|c: u64| c as nat))),
    {
        match field {
            FieldKind::Small(f) => {
                let g = f.clone();
                proof { g.lemma_equiv_wf(f); }
                match Poly::new(coeffs, g) {
                    Ok(x) => Ok(FieldPoly::Small(x)),
                    Err(e) => Err(e),
                }
            },
            FieldKind::Big(f) => {
                match BigPoly::from_u64(coeffs, f.clone()) {
                    Ok(x) => Ok(FieldPoly::Big(x)),
                    Err(e) => Err(e),
                }
            },
        }
    }

    /// The polynomial with degree-ascending integer coefficients over `field`.
    pub fn from_u64_asc(field: &FieldKind, coeffs: Vec<u64>) -> (r: Result<Self>)
        requires
            field.wf(),
            coeffs@.len() <= isize::MAX,
        ensures
            field matches FieldKind::Small(f) ==> ((forall|i: int| 0 <= i < coeffs@.len() ==> coeffs@[i] < f.q())
                <==> r matches Ok(FieldPoly::Small(x)))
                && (r matches Ok(FieldPoly::Small(x)) ==> x.wf() && x.field_view().equiv(f)
                    && x.coeffs_view() == crate::poly::field_poly::strip_leading(coeffs@.reverse())),
            field matches FieldKind::Big(f) ==> ((forall|i: int| 0 <= i < coeffs@.len() ==> coeffs@[i] < f.q())
                <==> r matches Ok(FieldPoly::Big(x)))
                && (r matches Ok(FieldPoly::Big(x)) ==> x.wf() && big_equiv(x.field_view(), *f)
                    && x.coeffs_view() == crate::poly::big_poly::bp_strip(coeffs@.reverse().map_values(|c: u64| c as nat))),
    {
        match field {
            FieldKind::Small(f) => {
                let g = f.clone();
                proof { g.lemma_equiv_wf(f); }
                match Poly::new_asc(coeffs, g) {
                    Ok(x) => Ok(FieldPoly::Small(x)),
                    Err(e) => Err(e),
                }
            },
            FieldKind::Big(f) => {
                match BigPoly::from_u64_asc(coeffs, f.clone()) {
                    Ok(x) => Ok(FieldPoly::Big(x)),
                    Err(e) => Err(e),
                }
            },
        }
    }

    /// Degree; -1 for the zero polynomial.
    pub fn degree(&self) -> (r: isize)
        requires
            self.wf(),
        ensures
            self matches FieldPoly::Small(p) ==> r == gp_degree(p.coeffs_view()),
            self matches FieldPoly::Big(p) ==> r == (if bp_is_zero(p.coeffs_view()) { -1 } else { p.coeffs_view().len() - 1 }),
    {
        match self {
            FieldPoly::Small(p) => p.degree(),
            FieldPoly::Big(p) => p.degree(),
        }
    }

    pub fn is_zero(&self) -> (r: bool)
        requires
            self.wf(),
        ensures
            self matches FieldPoly::Small(p) ==> r == gp_is_zero(p.coeffs_view()),
            self matches FieldPoly::Big(p) ==> r == bp_is_zero(p.coeffs_view()),
    {
        self.degree() < 0
    }

    pub fn is_small(&self) -> (r: bool)
        ensures
            r == (self is Small),
    {
        match self {
            FieldPoly::Small(_) => true,
            FieldPoly::Big(_) => false,
        }
    }

    pub fn as_small(&self) -> (r: Option<&Poly>)
        ensures
            self matches FieldPoly::Small(p) ==> (r matches Some(q) && *q == p),
            self is Big ==> r is None,
    {
        match self {
            FieldPoly::Small(p) => Some(p),
            FieldPoly::Big(_) => None,
        }
    }

    pub fn as_big(&self) -> (r: Option<&BigPoly>)
        ensures
            self matches FieldPoly::Big(p) ==> (r matches Some(q) && *q == p),
            self is Small ==> r is None,
    {
        match self {
            FieldPoly::Small(_) => None,
            FieldPoly::Big(p) => Some(p),
        }
    }

    /// Sum; `PolynomialFieldMismatch` for polynomials of different kinds or fields.
    pub fn add(&self, other: &Self) -> (r: Result<Self>)
        requires
            self.wf(),
            other.wf(),
        ensures
            match (self, other) {
                (FieldPoly::Small(a), FieldPoly::Small(b)) => if same_field(a.field_view(), b.field_view()) {
                    r matches Ok(FieldPoly::Small(x)) && x.wf() && x.coeffs_view() == gp_add(a.coeffs_view(), b.coeffs_view(), a.field_view().model())
                } else { r == Err::<Self, GaloisError>(GaloisError::PolynomialFieldMismatch) },
                (FieldPoly::Big(a), FieldPoly::Big(b)) => if same_big_field(a.field_view(), b.field_view()) {
                    r matches Ok(FieldPoly::Big(x)) && x.wf() && x.coeffs_view() == bp_add(a.coeffs_view(), b.coeffs_view(), a.field_view())
                } else { r == Err::<Self, GaloisError>(GaloisError::PolynomialFieldMismatch) },
                _ => r == Err::<Self, GaloisError>(GaloisError::PolynomialFieldMismatch),
            },
    {
        match (self, other) {
            (FieldPoly::Small(a), FieldPoly::Small(b)) => match a.add(b) {
                Ok(x) => Ok(FieldPoly::Small(x)),
                Err(e) => Err(e),
            },
            (FieldPoly::Big(a), FieldPoly::Big(b)) => match a.add(b) {
                Ok(x) => Ok(FieldPoly::Big(x)),
                Err(e) => Err(e),
            },
            _ => Err(GaloisError::PolynomialFieldMismatch),
        }
    }

    /// Difference; `PolynomialFieldMismatch` for polynomials of different kinds or fields.
    pub fn sub(&self, other: &Self) -> (r: Result<Self>)
        requires
            self.wf(),
            other.wf(),
        ensures
            match (self, other) {
                (FieldPoly::Small(a), FieldPoly::Small(b)) => if same_field(a.field_view(), b.field_view()) {
                    r matches Ok(FieldPoly::Small(x)) && x.wf() && x.coeffs_view() == gp_sub(a.coeffs_view(), b.coeffs_view(), a.field_view().model())
                } else { r == Err::<Self, GaloisError>(GaloisError::PolynomialFieldMismatch) },
                (FieldPoly::Big(a), FieldPoly::Big(b)) => if same_big_field(a.field_view(), b.field_view()) {
                    r matches Ok(FieldPoly::Big(x)) && x.wf() && x.coeffs_view() == bp_sub(a.coeffs_view(), b.coeffs_view(), a.field_view())
                } else { r == Err::<Self, GaloisError>(GaloisError::PolynomialFieldMismatch) },
                _ => r == Err::<Self, GaloisError>(GaloisError::PolynomialFieldMismatch),
            },
    {
        match (self, other) {
            (FieldPoly::Small(a), FieldPoly::Small(b)) => match a.sub(b) {
                Ok(x) => Ok(FieldPoly::Small(x)),
                Err(e) => Err(e),
            },
            (FieldPoly::Big(a), FieldPoly::Big(b)) => match a.sub(b) {
                Ok(x) => Ok(FieldPoly::Big(x)),
                Err(e) => Err(e),
            },
            _ => Err(GaloisError::PolynomialFieldMismatch),
        }
    }

    /// Product; `PolynomialFieldMismatch` for polynomials of different kinds or fields.
    pub fn mul(&self, other: &Self) -> (r: Result<Self>)
        requires
            self.wf(),
            other.wf(),
            self matches FieldPoly::Small(a) ==> (other matches FieldPoly::Small(b)
                ==> a.coeffs_view().len() + b.coeffs_view().len() <= isize::MAX + 1),
            self matches FieldPoly::Big(a) ==> (other matches FieldPoly::Big(b)
                ==> a.coeffs_view().len() + b.coeffs_view().len() <= isize::MAX + 1),
        ensures
            match (self, other) {
                (FieldPoly::Small(a), FieldPoly::Small(b)) => if same_field(a.field_view(), b.field_view()) {
                    r matches Ok(FieldPoly::Small(x)) && x.wf() && x.coeffs_view() == gp_mul(a.coeffs_view(), b.coeffs_view(), a.field_view().model())
                } else { r == Err::<Self, GaloisError>(GaloisError::PolynomialFieldMismatch) },
                (FieldPoly::Big(a), FieldPoly::Big(b)) => if same_big_field(a.field_view(), b.field_view()) {
                    r matches Ok(FieldPoly::Big(x)) && x.wf() && x.coeffs_view() == bp_mul(a.coeffs_view(), b.coeffs_view(), a.field_view())
                } else { r == Err::<Self, GaloisError>(GaloisError::PolynomialFieldMismatch) },
                _ => r == Err::<Self, GaloisError>(GaloisError::PolynomialFieldMismatch),
            },
    {
        match (self, other) {
            (FieldPoly::Small(a), FieldPoly::Small(b)) => match a.mul(b) {
                Ok(x) => Ok(FieldPoly::Small(x)),
                Err(e) => Err(e),
            },
            (FieldPoly::Big(a), FieldPoly::Big(b)) => match a.mul(b) {
                Ok(x) => Ok(FieldPoly::Big(x)),
                Err(e) => Err(e),
            },
            _ => Err(GaloisError::PolynomialFieldMismatch),
        }
    }

    /// Negation; never an error.
    pub fn neg(&self) -> (r: Result<Self>)
        requires
            self.wf(),
        ensures
            self matches FieldPoly::Small(a) ==> (r matches Ok(FieldPoly::Small(x)) && x.wf()
                && x.coeffs_view() == gp_neg(a.coeffs_view(), a.field_view().model())),
            self matches FieldPoly::Big(a) ==> (r matches Ok(FieldPoly::Big(x)) && x.wf()
                && x.coeffs_view() == bp_neg(a.coeffs_view(), a.field_view())),
    {
        match self {
            FieldPoly::Small(a) => Ok(FieldPoly::Small(a.neg())),
            FieldPoly::Big(a) => Ok(FieldPoly::Big(a.neg())),
        }
    }

    /// The value at the integer `x`: `Poly::evaluate` for the small kind; for the big kind
    /// `BigPoly::evaluate`, and `InvalidElement` (value 0, the field's characteristic and
    /// degree) when the value does not fit in 64 bits.
    pub fn evaluate_u64(&self, x: u64) -> (r: Result<u64>)
        requires
            self.wf(),
        ensures
            self matches FieldPoly::Small(a) ==> (x >= a.field_view().q() ==> r is Err)
                && (x < a.field_view().q() ==> r == Ok::<u64, GaloisError>(
                    horner(a.coeffs_view(), x as nat, a.coeffs_view().len() as int, a.field_view().model()) as u64)),
            self matches FieldPoly::Big(a) ==> (x >= a.field_view().q() ==> r is Err)
                && (x < a.field_view().q() ==> ({
                    let v = bp_horner(a.coeffs_view(), x as nat, a.coeffs_view().len() as int, a.field_view());
                    &&& v <= u64::MAX ==> r == Ok::<u64, GaloisError>(v as u64)
                    &&& v > u64::MAX ==> r == Err::<u64, GaloisError>(GaloisError::InvalidElement { value: 0,
                        characteristic: a.field_view().p() as u64, degree: a.field_view().m() as u32 })
                })),
    {
        match self {
            FieldPoly::Small(a) => a.evaluate(x),
            FieldPoly::Big(a) => {
                let v = match a.evaluate(&BigValue::from_u64(x)) {
                    Ok(v) => v,
                    Err(e) => { return Err(e); },
                };
                match v.to_u64() {
                    Some(s) => Ok(s),
                    None => Err(GaloisError::InvalidElement {
                        value: 0,
                        characteristic: a.field().characteristic(),
                        degree: a.field().degree(),
                    }),
                }
            },
        }
    }
}


/// `prod_{j < k, j != i} (x - xs_j)` over a big field, multiplied in the order of `j`.
pub open spec fn big_lagrange_basis(xs: Seq<nat>, i: int, k: nat, f: BigGaloisField) -> Seq<nat>
    decreases k,
{
    if k == 0 {
        seq![1nat]
    } else {
        let b = big_lagrange_basis(xs, i, (k - 1) as nat, f);
        if k - 1 == i { b } else { bp_mul(b, seq![1nat, gf_neg(xs[k - 1], f.p(), f.m())], f) }
    }
}

/// `prod_{j < k, j != i} (xs_i - xs_j)` over a big field, multiplied in the order of `j`.
pub open spec fn big_lagrange_denom(xs: Seq<nat>, i: int, k: nat, f: BigGaloisField) -> nat
    decreases k,
{
    if k == 0 {
        1
    } else {
        let d = big_lagrange_denom(xs, i, (k - 1) as nat, f);
        if k - 1 == i { d } else { gf_mul(d, gf_sub(xs[i], xs[k - 1], f.p(), f.m()), f.p(), f.m(), f.f()) }
    }
}

/// `sum_{i < k} ys_i / denom_i * basis_i` over a big field, added in the order of `i`.
pub open spec fn big_lagrange_sum(xs: Seq<nat>, ys: Seq<nat>, k: nat, f: BigGaloisField) -> Seq<nat>
    decreases k,
{
    if k == 0 {
        seq![0nat]
    } else {
        let i = k - 1;
        let c = big_div_spec(f, ys[i], big_lagrange_denom(xs, i, xs.len(), f));
        bp_add(big_lagrange_sum(xs, ys, (k - 1) as nat, f), bp_scale(big_lagrange_basis(xs, i, xs.len(), f), c, f), f)
    }
}

/// The Lagrange interpolating polynomial over a big field (see `lagrange_poly`); a zero
/// denominator gives a zero term.
fn lagrange_poly_big(x: &BigFieldArray, y: &BigFieldArray) -> (r: BigPoly)
    requires
        x.wf(),
        y.wf(),
        x.values_view().len() == y.values_view().len(),
        x.values_view().len() < 0x3fff_ffff,
    ensures
        r.wf(),
        big_equiv(r.field_view(), x.field_view()),
        r.coeffs_view() == big_lagrange_sum(x.values_view(), y.values_view(), x.values_view().len(), x.field_view()),
{
    let field = x.field();
    let ghost f = x.field_view();
    let ghost xs = x.values_view();
    let ghost ys = y.values_view();
    let n = x.len();
    let xv = x.values();
    let yv = y.values();
    proof { f.lemma_q_ge_2(); f.lemma_wf_params(); }
    let mut result = BigPoly::zero(field.clone());
    let mut i: usize = 0;
    while i < n
        invariant
            field.wf(),
            *field == f,
            values_of(xv@) == xs,
            values_of(yv@) == ys,
            xs == x.values_view(),
            n == xs.len(),
            n == ys.len(),
            n < 0x3fff_ffff,
            forall|k: int| 0 <= k < n ==> (#[trigger] xs[k]) < f.q(),
            f.q() >= 2,
            i <= n,
            result.wf(),
            big_equiv(result.field_view(), f),
            result.coeffs_view() == big_lagrange_sum(xs, ys, i as nat, f),
        decreases n - i,
    {
        let xi = &xv[i];
        let yi = &yv[i];
        assert(xi.value() == xs[i as int] && yi.value() == ys[i as int]);
        let mut basis = BigPoly::one(field.clone());
        let mut denom = BigValue::from_u64(1);
        let mut j: usize = 0;
        while j < n
            invariant
                field.wf(),
                *field == f,
                values_of(xv@) == xs,
                n == xs.len(),
                n < 0x3fff_ffff,
                forall|k: int| 0 <= k < n ==> (#[trigger] xs[k]) < f.q(),
                f.q() >= 2,
                i < n,
                xi.value() == xs[i as int],
                j <= n,
                basis.wf(),
                big_equiv(basis.field_view(), f),
                basis.coeffs_view().len() <= j + 1,
                basis.coeffs_view() == big_lagrange_basis(xs, i as int, j as nat, f),
                denom.value() == big_lagrange_denom(xs, i as int, j as nat, f),
            decreases n - j,
        {
            if i != j {
                let xj = &xv[j];
                assert(xj.value() == xs[j as int]);
                proof {
                    f.lemma_wf_params();
                    if f.m() == 1 {
                        crate::arith::lemma_npow_one(f.p());
                    }
                }
                let nr = field.neg(xj);
                let lc = vec![BigValue::from_u64(1), nr];
                let ghost lcv = lc@;
                proof {
                    if f.m() == 1 {
                        crate::arith::lemma_npow_one(f.p());
                    }
                    assert(values_of(lcv) =~= seq![1nat, gf_neg(xs[j as int], f.p(), f.m())]);
                    assert(lcv[0].value() == 1 && lcv[1].value() < f.q());
                }
                let linear = match BigPoly::new(lc, field.clone()) {
                    Ok(p) => p,
                    Err(_) => BigPoly::one(field.clone()),
                };
                assert(linear.coeffs_view() == seq![1nat, gf_neg(xs[j as int], f.p(), f.m())]) by {
                    assert(bp_strip(seq![1nat, gf_neg(xs[j as int], f.p(), f.m())]) == seq![1nat, gf_neg(xs[j as int], f.p(), f.m())]);
                }
                let ghost prev = basis.coeffs_view();
                let ghost bf = basis.field_view();
                basis = match basis.mul(&linear) {
                    Ok(v) => v,
                    Err(_) => BigPoly::one(field.clone()),
                };
                proof { lemma_bp_ops_equiv(prev, linear.coeffs_view(), 0, bf, f); }
                let diff = field.sub(xi, xj);
                denom = field.mul(&denom, &diff);
            }
            j = j + 1;
        }
        let scale = match field.div(yi, &denom) {
            Ok(v) => v,
            Err(_) => BigValue::from_u64(0),
        };
        let ghost bf = basis.field_view();
        let term = match basis.mul_scalar(&scale) {
            Ok(v) => v,
            Err(_) => BigPoly::zero(field.clone()),
        };
        proof { lemma_bp_ops_equiv(basis.coeffs_view(), basis.coeffs_view(), scale.value(), bf, f); }
        let ghost rf = result.field_view();
        let ghost rc = result.coeffs_view();
        result = match result.add(&term) {
            Ok(v) => v,
            Err(_) => BigPoly::zero(field.clone()),
        };
        proof { lemma_bp_ops_equiv(rc, term.coeffs_view(), 0, rf, f); }
        i = i + 1;
    }
    result
}

/// The Lagrange interpolating polynomial of arrays of either kind: `LengthMismatch` for
/// arrays of different lengths, `FieldMismatch` for arrays of different kinds,
/// `lagrange_poly` for the small kind and the same sum over the big kind.
pub fn lagrange_poly_array(x: &GaloisArray, y: &GaloisArray) -> (r: Result<FieldPoly>)
    requires
        x.wf(),
        y.wf(),
        x.values_view().len() < 0x3fff_ffff,
    ensures
        x.values_view().len() != y.values_view().len() ==> r == Err::<FieldPoly, GaloisError>(GaloisError::LengthMismatch),
        x.values_view().len() == y.values_view().len() ==> match (x, y) {
            (GaloisArray::Small(xs), GaloisArray::Small(ys)) =>
                (r is Ok <==> lagrange_ok(xs.values_view(), ys.values_view(), xs.field_view().model()))
                && (r matches Ok(p) ==> p matches FieldPoly::Small(q) && q.wf()
                    && q.coeffs_view() == lagrange_sum(xs.values_view(), ys.values_view(), xs.values_view().len(),
                        xs.field_view().model())),
            (GaloisArray::Big(xs), GaloisArray::Big(ys)) => r matches Ok(FieldPoly::Big(q)) && q.wf()
                && q.coeffs_view() == big_lagrange_sum(xs.values_view(), ys.values_view(), xs.values_view().len(), xs.field_view()),
            _ => r == Err::<FieldPoly, GaloisError>(GaloisError::FieldMismatch),
        },
{
    if x.len() != y.len() {
        return Err(GaloisError::LengthMismatch);
    }
    match (x, y) {
        (GaloisArray::Small(xs), GaloisArray::Small(ys)) => {
            assert(xs.values_view().len() == x.values_view().len());
            match lagrange_poly(xs, ys) {
                Ok(p) => Ok(FieldPoly::Small(p)),
                Err(e) => Err(e),
            }
        },
        (GaloisArray::Big(xs), GaloisArray::Big(ys)) => Ok(FieldPoly::Big(lagrange_poly_big(xs, ys))),
        _ => Err(GaloisError::FieldMismatch),
    }
}


/// `prod_{i < n} (x - roots_i)` over a big field, multiplied in order.
pub open spec fn big_from_roots(roots: Seq<nat>, n: int, f: BigGaloisField) -> Seq<nat>
    decreases n,
{
    if n <= 0 {
        seq![1nat]
    } else {
        bp_mul(big_from_roots(roots, n - 1, f), seq![1nat, gf_neg(roots[n - 1], f.p(), f.m())], f)
    }
}

/// `prod (x - root)` over a field of either kind; an error for a root that is not an
/// element (for the small kind, `InvalidElement` with value 0 for a root beyond 64 bits).
pub fn poly_from_roots_values(roots: &[BigValue], field: &FieldKind) -> (r: Result<FieldPoly>)
    requires
        field.wf(),
        roots@.len() < 0x3fff_ffff,
    ensures
        field matches FieldKind::Small(f) ==> ((forall|i: int| 0 <= i < roots@.len() ==> (#[trigger] roots@[i]).value() < f.q())
            <==> r is Ok)
            && (r matches Ok(p) ==> p matches FieldPoly::Small(x) && x.wf() && x.field_view().equiv(f)
                && x.coeffs_view() == gp_from_roots(Seq::new(roots@.len(), |i: int| roots@[i].value() as u64),
                    roots@.len() as int, f.model())),
        field matches FieldKind::Big(f) ==> ((forall|i: int| 0 <= i < roots@.len() ==> (#[trigger] roots@[i]).value() < f.q())
            <==> r is Ok)
            && (r matches Ok(p) ==> p matches FieldPoly::Big(x) && x.wf() && big_equiv(x.field_view(), *f)
                && x.coeffs_view() == big_from_roots(values_of(roots@), roots@.len() as int, *f)),
{
    match field {
        FieldKind::Small(f) => {
            let mut small: Vec<u64> = Vec::new();
            let mut i: usize = 0;
            while i < roots.len()
                invariant
                    f.wf(),
                    *field == FieldKind::Small(*f),
                    i <= roots@.len(),
                    small@.len() == i,
                    forall|k: int| 0 <= k < i ==> (#[trigger] small@[k]) == roots@[k].value() && small@[k] < f.q(),
                decreases roots@.len() - i,
            {
                let v = match roots[i].to_u64() {
                    Some(v) => v,
                    None => {
                        let q = f.order();
                        assert(roots@[i as int].value() >= f.q());
                        return Err(GaloisError::InvalidElement { value: 0, characteristic: f.characteristic(), degree: f.degree() });
                    },
                };
                if v >= f.order() {
                    assert(roots@[i as int].value() >= f.q());
                    return Err(GaloisError::InvalidElement { value: v, characteristic: f.characteristic(), degree: f.degree() });
                }
                small.push(v);
                i = i + 1;
            }
            assert(small@ =~= Seq::new(roots@.len(), |i: int| roots@[i].value() as u64));
            let g = f.clone();
            proof { g.lemma_equiv_wf(f); }
            assert(forall|k: int| 0 <= k < small@.len() ==> small@[k] < g.q());
            match crate::poly::field_poly::poly_from_roots(small.as_slice(), g) {
                Ok(x) => {
                    assert(x.field_view().equiv(f));
                    assert(g.model() == f.model());
                    assert(forall|k: int| 0 <= k < roots@.len() ==> (#[trigger] roots@[k]).value() < f.q()) by {
                        assert forall|k: int| 0 <= k < roots@.len() implies (#[trigger] roots@[k]).value() < f.q() by {
                            assert(small@[k] == roots@[k].value());
                        }
                    }
                    Ok(FieldPoly::Small(x))
                },
                Err(e) => Err(e),
            }
        },
        FieldKind::Big(f) => {
            let ghost rs = values_of(roots@);
            proof { f.lemma_q_ge_2(); f.lemma_wf_params(); }
            let mut poly = BigPoly::one(f.clone());
            let mut i: usize = 0;
            while i < roots.len()
                invariant
                    f.wf(),
                    *field == FieldKind::Big(*f),
                    rs == values_of(roots@),
                    f.q() >= 2,
                    f.q() == crate::arith::npow(f.p(), f.m()),
                    i <= roots@.len(),
                    roots@.len() < 0x3fff_ffff,
                    poly.wf(),
                    big_equiv(poly.field_view(), *f),
                    poly.coeffs_view().len() <= i + 1,
                    forall|k: int| 0 <= k < i ==> (#[trigger] roots@[k]).value() < f.q(),
                    poly.coeffs_view() == big_from_roots(rs, i as int, *f),
                decreases roots@.len() - i,
            {
                let root = match f.validate(&roots[i]) {
                    Ok(v) => v,
                    Err(e) => { return Err(e); },
                };
                proof {
                    if f.m() == 1 {
                        crate::arith::lemma_npow_one(f.p());
                    }
                }
                let nr = f.neg(&root);
                let lc = vec![BigValue::from_u64(1), nr];
                let ghost lcv = lc@;
                assert(values_of(lcv) =~= seq![1nat, gf_neg(rs[i as int], f.p(), f.m())]);
                assert(lcv[0].value() == 1 && lcv[1].value() < f.q());
                let linear = match BigPoly::new(lc, f.clone()) {
                    Ok(p) => p,
                    Err(_) => BigPoly::one(f.clone()),
                };
                assert(bp_strip(seq![1nat, gf_neg(rs[i as int], f.p(), f.m())]) == seq![1nat, gf_neg(rs[i as int], f.p(), f.m())]);
                let ghost prev = poly.coeffs_view();
                let ghost pf = poly.field_view();
                poly = match poly.mul(&linear) {
                    Ok(v) => v,
                    Err(_) => BigPoly::one(f.clone()),
                };
                proof { lemma_bp_ops_equiv(prev, linear.coeffs_view(), 0, pf, *f); }
                i = i + 1;
            }
            Ok(FieldPoly::Big(poly))
        },
    }
}

/// `prod (x - root)` over a field of either kind, for integer roots.
pub fn poly_from_roots_kind(roots: &[u64], field: &FieldKind) -> (r: Result<FieldPoly>)
    requires
        field.wf(),
        roots@.len() < 0x3fff_ffff,
    ensures
        field matches FieldKind::Small(f) ==> ((forall|i: int| 0 <= i < roots@.len() ==> (#[trigger] roots@[i]) < f.q())
            <==> r is Ok)
            && (r matches Ok(p) ==> p matches FieldPoly::Small(x) && x.wf() && x.field_view().equiv(f)
                && x.coeffs_view() == gp_from_roots(roots@, roots@.len() as int, f.model())),
        field matches FieldKind::Big(f) ==> ((forall|i: int| 0 <= i < roots@.len() ==> (#[trigger] roots@[i]) < f.q())
            <==> r is Ok)
            && (r matches Ok(p) ==> p matches FieldPoly::Big(x) && x.wf() && big_equiv(x.field_view(), *f)
                && x.coeffs_view() == big_from_roots(roots@.map_values(|v: u64| v as nat), roots@.len() as int, *f)),
{
    let mut big: Vec<BigValue> = Vec::new();
    let mut i: usize = 0;
    while i < roots.len()
        invariant
            i <= roots@.len(),
            big@.len() == i,
            forall|k: int| 0 <= k < i ==> (#[trigger] big@[k]).value() == roots@[k],
        decreases roots@.len() - i,
    {
        big.push(BigValue::from_u64(roots[i]));
        i = i + 1;
    }
    assert(Seq::new(big@.len(), |i: int| big@[i].value() as u64) =~= roots@);
    assert(values_of(big@) =~= roots@.map_values(|v: u64| v as nat));
    proof {
        assert forall|k: int| 0 <= k < roots@.len() implies ((#[trigger] roots@[k]) == big@[k].value()) by {}
    }
    poly_from_roots_values(big.as_slice(), field)
}

impl FieldPoly {
    /// The zero polynomial over either kind of field.
    pub fn zero(field: &FieldKind) -> (r: Result<Self>)
        requires
            field.wf(),
        ensures
            field matches FieldKind::Small(f) ==> (r matches Ok(FieldPoly::Small(x)) && x.wf()
                && x.field_view().equiv(f) && x.coeffs_view() == seq![0u64]),
            field matches FieldKind::Big(f) ==> (r matches Ok(FieldPoly::Big(x)) && x.wf()
                && big_equiv(x.field_view(), *f) && x.coeffs_view() == seq![0nat]),
    {
        match field {
            FieldKind::Small(f) => {
                let g = f.clone();
                proof { g.lemma_equiv_wf(f); }
                Ok(FieldPoly::Small(Poly::zero(g)))
            },
            FieldKind::Big(f) => Ok(FieldPoly::Big(BigPoly::zero(f.clone()))),
        }
    }

    /// The constant polynomial one over either kind of field.
    pub fn one(field: &FieldKind) -> (r: Result<Self>)
        requires
            field.wf(),
        ensures
            field matches FieldKind::Small(f) ==> (r matches Ok(FieldPoly::Small(x)) && x.wf()
                && x.field_view().equiv(f) && x.coeffs_view() == seq![1u64]),
            field matches FieldKind::Big(f) ==> (r matches Ok(FieldPoly::Big(x)) && x.wf()
                && big_equiv(x.field_view(), *f) && x.coeffs_view() == seq![1nat]),
    {
        match field {
            FieldKind::Small(f) => {
                let g = f.clone();
                proof { g.lemma_equiv_wf(f); }
                Ok(FieldPoly::Small(Poly::one(g)))
            },
            FieldKind::Big(f) => Ok(FieldPoly::Big(BigPoly::one(f.clone()))),
        }
    }

    /// The polynomial `x` over either kind of field.
    pub fn x(field: &FieldKind) -> (r: Result<Self>)
        requires
            field.wf(),
        ensures
            field matches FieldKind::Small(f) ==> (r matches Ok(FieldPoly::Small(x)) && x.wf()
                && x.field_view().equiv(f) && x.coeffs_view() == seq![1u64, 0u64]),
            field matches FieldKind::Big(f) ==> (r matches Ok(FieldPoly::Big(x)) && x.wf()
                && big_equiv(x.field_view(), *f) && x.coeffs_view() == seq![1nat, 0nat]),
    {
        match field {
            FieldKind::Small(f) => {
                let g = f.clone();
                proof { g.lemma_equiv_wf(f); }
                Ok(FieldPoly::Small(Poly::x(g)))
            },
            FieldKind::Big(f) => Ok(FieldPoly::Big(BigPoly::x(f.clone()))),
        }
    }

    /// Quotient and remainder of polynomials of one kind: `PolynomialFieldMismatch` for
    /// different kinds or fields, `PolynomialDivisionByZero` for a zero divisor.
    pub fn divmod(&self, divisor: &Self) -> (r: Result<(Self, Self)>)
        requires
            self.wf(),
            divisor.wf(),
        ensures
            match (self, divisor) {
                (FieldPoly::Small(a), FieldPoly::Small(b)) => if !same_field(a.field_view(), b.field_view()) {
                    r == Err::<(Self, Self), GaloisError>(GaloisError::PolynomialFieldMismatch)
                } else if gp_is_zero(b.coeffs_view()) {
                    r == Err::<(Self, Self), GaloisError>(GaloisError::PolynomialDivisionByZero)
                } else {
                    r matches Ok((FieldPoly::Small(q), FieldPoly::Small(m))) && q.wf() && m.wf()
                        && (q.coeffs_view(), m.coeffs_view()) == gp_divmod(a.coeffs_view(), b.coeffs_view(), a.field_view().model())
                },
                (FieldPoly::Big(a), FieldPoly::Big(b)) => if !same_big_field(a.field_view(), b.field_view()) {
                    r == Err::<(Self, Self), GaloisError>(GaloisError::PolynomialFieldMismatch)
                } else if bp_is_zero(b.coeffs_view()) {
                    r == Err::<(Self, Self), GaloisError>(GaloisError::PolynomialDivisionByZero)
                } else {
                    r matches Ok((FieldPoly::Big(q), FieldPoly::Big(m))) && q.wf() && m.wf()
                        && (q.coeffs_view(), m.coeffs_view()) == bp_divmod(a.coeffs_view(), b.coeffs_view(), a.field_view())
                },
                _ => r == Err::<(Self, Self), GaloisError>(GaloisError::PolynomialFieldMismatch),
            },
    {
        match (self, divisor) {
            (FieldPoly::Small(a), FieldPoly::Small(b)) => match a.divmod(b) {
                Ok((q, m)) => Ok((FieldPoly::Small(q), FieldPoly::Small(m))),
                Err(e) => Err(e),
            },
            (FieldPoly::Big(a), FieldPoly::Big(b)) => match a.divmod(b) {
                Ok((q, m)) => Ok((FieldPoly::Big(q), FieldPoly::Big(m))),
                Err(e) => Err(e),
            },
            _ => Err(GaloisError::PolynomialFieldMismatch),
        }
    }

    /// The remainder of `divmod`, with its errors.
    pub fn rem(&self, divisor: &Self) -> (r: Result<Self>)
        requires
            self.wf(),
            divisor.wf(),
        ensures
            match (self, divisor) {
                (FieldPoly::Small(a), FieldPoly::Small(b)) => if !same_field(a.field_view(), b.field_view()) {
                    r == Err::<Self, GaloisError>(GaloisError::PolynomialFieldMismatch)
                } else if gp_is_zero(b.coeffs_view()) {
                    r == Err::<Self, GaloisError>(GaloisError::PolynomialDivisionByZero)
                } else {
                    r matches Ok(FieldPoly::Small(m)) && m.wf()
                        && m.coeffs_view() == gp_divmod(a.coeffs_view(), b.coeffs_view(), a.field_view().model()).1
                },
                (FieldPoly::Big(a), FieldPoly::Big(b)) => if !same_big_field(a.field_view(), b.field_view()) {
                    r == Err::<Self, GaloisError>(GaloisError::PolynomialFieldMismatch)
                } else if bp_is_zero(b.coeffs_view()) {
                    r == Err::<Self, GaloisError>(GaloisError::PolynomialDivisionByZero)
                } else {
                    r matches Ok(FieldPoly::Big(m)) && m.wf()
                        && m.coeffs_view() == bp_divmod(a.coeffs_view(), b.coeffs_view(), a.field_view()).1
                },
                _ => r == Err::<Self, GaloisError>(GaloisError::PolynomialFieldMismatch),
            },
    {
        match self.divmod(divisor) {
            Ok((_, m)) => Ok(m),
            Err(e) => Err(e),
        }
    }

    /// The quotient of `divmod`, with its errors.
    pub fn div(&self, divisor: &Self) -> (r: Result<Self>)
        requires
            self.wf(),
            divisor.wf(),
        ensures
            match (self, divisor) {
                (FieldPoly::Small(a), FieldPoly::Small(b)) => if !same_field(a.field_view(), b.field_view()) {
                    r == Err::<Self, GaloisError>(GaloisError::PolynomialFieldMismatch)
                } else if gp_is_zero(b.coeffs_view()) {
                    r == Err::<Self, GaloisError>(GaloisError::PolynomialDivisionByZero)
                } else {
                    r matches Ok(FieldPoly::Small(q)) && q.wf()
                        && q.coeffs_view() == gp_divmod(a.coeffs_view(), b.coeffs_view(), a.field_view().model()).0
                },
                (FieldPoly::Big(a), FieldPoly::Big(b)) => if !same_big_field(a.field_view(), b.field_view()) {
                    r == Err::<Self, GaloisError>(GaloisError::PolynomialFieldMismatch)
                } else if bp_is_zero(b.coeffs_view()) {
                    r == Err::<Self, GaloisError>(GaloisError::PolynomialDivisionByZero)
                } else {
                    r matches Ok(FieldPoly::Big(q)) && q.wf()
                        && q.coeffs_view() == bp_divmod(a.coeffs_view(), b.coeffs_view(), a.field_view()).0
                },
                _ => r == Err::<Self, GaloisError>(GaloisError::PolynomialFieldMismatch),
            },
    {
        match self.divmod(divisor) {
            Ok((q, _)) => Ok(q),
            Err(e) => Err(e),
        }
    }

    /// The `k`-th derivative; never an error.
    pub fn derivative(&self, k: u32) -> (r: Result<Self>)
        requires
            self.wf(),
        ensures
            self matches FieldPoly::Small(a) ==> (r matches Ok(FieldPoly::Small(x)) && x.wf()
                && x.coeffs_view() == gp_deriv(a.coeffs_view(), k as nat, a.field_view().model())),
            self matches FieldPoly::Big(a) ==> (r matches Ok(FieldPoly::Big(x)) && x.wf()
                && x.coeffs_view() == bp_deriv(a.coeffs_view(), k as nat, a.field_view())),
    {
        match self {
            FieldPoly::Small(a) => Ok(FieldPoly::Small(a.derivative(k))),
            FieldPoly::Big(a) => match a.derivative(k) {
                Ok(x) => Ok(FieldPoly::Big(x)),
                Err(e) => Err(e),
            },
        }
    }
}

/// The roots of either kind of polynomial, as an array over its field: over a small field
/// those below `min(q, 10000)`, over a big one those of `big_roots`; never an error.
pub fn field_poly_roots(poly: &FieldPoly) -> (r: Result<GaloisArray>)
    requires
        poly.wf(),
    ensures
        poly matches FieldPoly::Small(p) ==> (r matches Ok(GaloisArray::Small(a)) && a.wf()
            && a.field_view().equiv(&p.field_view())
            && a.values_view() == roots_spec(p.coeffs_view(), p.field_view().model())),
        poly matches FieldPoly::Big(p) ==> (r matches Ok(GaloisArray::Big(a)) && a.wf()
            && big_equiv(a.field_view(), p.field_view())
            && a.values_view() == big_roots_below(p.coeffs_view(), big_root_limit(p.field_view().q()), p.field_view())),
{
    match poly {
        FieldPoly::Small(p) => {
            let found = match roots(p) {
                Ok(v) => v,
                Err(e) => { return Err(e); },
            };
            let field = p.field().clone();
            proof {
                let f = p.field_view().model();
                let n: int = if f.q < 10000 { f.q as int } else { 10000 };
                lemma_roots_below_bound(p.coeffs_view(), n, f);
            }
            Ok(GaloisArray::Small(FieldArray::new(field, found)))
        },
        FieldPoly::Big(p) => {
            let found = match big_roots(p) {
                Ok(v) => v,
                Err(e) => { return Err(e); },
            };
            proof {
                let f = p.field_view();
                lemma_big_roots_below_bound(p.coeffs_view(), big_root_limit(f.q()), f);
                assert forall|k: int| 0 <= k < found@.len() implies (#[trigger] found@[k]).value() < f.q() by {
                    assert(found@[k].value() == values_of(found@)[k]);
                }
            }
            match BigFieldArray::new(p.field().clone(), found) {
                Ok(a) => Ok(GaloisArray::Big(a)),
                Err(e) => Err(e),
            }
        },
    }
}

} // verus!
