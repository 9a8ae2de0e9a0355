//! Polynomials over `BigGaloisField`, coefficients in degree-descending order.

use vstd::prelude::*;
use crate::error::{GaloisError, Result};
use crate::field::big_field::{BigGaloisField, same_big_field};
use crate::field::bignum::BigValue;
use crate::field::model::{gf_add, gf_sub, gf_neg, gf_mul};

verus! {

/// `s` without leading zeros, keeping at least one entry.
pub open spec fn bp_strip(s: Seq<nat>) -> Seq<nat>
    decreases s.len(),
{
    if s.len() == 0 {
        seq![0nat]
    } else if s.len() > 1 && s[0] == 0 {
        bp_strip(s.drop_first())
    } else {
        s
    }
}

/// Canonical descending coefficients over a field of order `q`.
pub open spec fn bp_normal(s: Seq<nat>, q: nat) -> bool {
    &&& s.len() >= 1
    &&& (s.len() == 1 || s[0] != 0)
    &&& forall|i: int| 0 <= i < s.len() ==> (#[trigger] s[i]) < q
}

pub open spec fn bp_is_zero(s: Seq<nat>) -> bool {
    s.len() == 1 && s[0] == 0
}

/// The coefficient of `x^d`; zero beyond the ends.
pub open spec fn bp_dco(s: Seq<nat>, d: int) -> nat {
    if 0 <= d < s.len() { s[s.len() - 1 - d] } else { 0 }
}

pub open spec fn bp_max_len(a: Seq<nat>, b: Seq<nat>) -> nat {
    if a.len() >= b.len() { a.len() } else { b.len() }
}

/// Sum of polynomials over the field.
pub open spec fn bp_add(a: Seq<nat>, b: Seq<nat>, f: BigGaloisField) -> Seq<nat> {
    let l = bp_max_len(a, b);
    bp_strip(Seq::new(l, |k: int| gf_add(bp_dco(a, l - 1 - k), bp_dco(b, l - 1 - k), f.p(), f.m())))
}

/// Difference of polynomials over the field.
pub open spec fn bp_sub(a: Seq<nat>, b: Seq<nat>, f: BigGaloisField) -> Seq<nat> {
    let l = bp_max_len(a, b);
    bp_strip(Seq::new(l, |k: int| gf_sub(bp_dco(a, l - 1 - k), bp_dco(b, l - 1 - k), f.p(), f.m())))
}

/// Negation of a polynomial over the field.
pub open spec fn bp_neg(a: Seq<nat>, f: BigGaloisField) -> Seq<nat> {
    bp_strip(Seq::new(a.len(), |k: int| gf_neg(a[k], f.p(), f.m())))
}

/// `sum_{i < n} a_i b_{k-i}` accumulated left to right with the field operations, skipping
/// indices outside `b`.
pub open spec fn bp_conv(a: Seq<nat>, b: Seq<nat>, k: int, n: int, f: BigGaloisField) -> nat
    decreases n,
{
    if n <= 0 {
        0
    } else {
        let prev = bp_conv(a, b, k, n - 1, f);
        let j = k - (n - 1);
        if 0 <= j < b.len() {
            gf_add(prev, gf_mul(a[n - 1], b[j], f.p(), f.m(), f.f()), f.p(), f.m())
        } else {
            prev
        }
    }
}

/// Product of polynomials over the field.
pub open spec fn bp_mul(a: Seq<nat>, b: Seq<nat>, f: BigGaloisField) -> Seq<nat> {
    if bp_is_zero(a) || bp_is_zero(b) {
        seq![0nat]
    } else {
        bp_strip(Seq::new((a.len() + b.len() - 1) as nat, |k: int| bp_conv(a, b, k, a.len() as int, f)))
    }
}

/// Horner's rule over the first `n` descending coefficients at `x`.
pub open spec fn bp_horner(a: Seq<nat>, x: nat, n: int, f: BigGaloisField) -> nat
    decreases n,
{
    if n <= 0 {
        0
    } else {
        gf_add(gf_mul(bp_horner(a, x, n - 1, f), x, f.p(), f.m(), f.f()), a[n - 1], f.p(), f.m())
    }
}

/// The values of a sequence of big values.
pub open spec fn values_of(s: Seq<BigValue>) -> Seq<nat> {
    s.map_values(|c: BigValue| c.value())
}

/// Stripping keeps a suffix with the stated shape.
pub proof fn lemma_bp_strip(s: Seq<nat>)
    ensures
        bp_strip(s).len() >= 1,
        bp_strip(s).len() <= s.len() || s.len() == 0,
        bp_strip(s).len() == 1 || bp_strip(s)[0] != 0,
        s.len() == 0 ==> bp_strip(s) == seq![0nat],
        s.len() > 0 ==> bp_strip(s) == s.subrange(s.len() - bp_strip(s).len(), s.len() as int),
    decreases s.len(),
{
    if s.len() > 1 && s[0] == 0 {
        lemma_bp_strip(s.drop_first());
        assert(s.drop_first().subrange(s.drop_first().len() - bp_strip(s.drop_first()).len(), s.drop_first().len() as int)
            =~= s.subrange(s.len() - bp_strip(s).len(), s.len() as int));
    } else if s.len() > 0 {
        assert(s.subrange(0, s.len() as int) =~= s);
    }
}

/// A polynomial over a `BigGaloisField`.
pub struct BigPoly {
    field: BigGaloisField,
    coeffs: Vec<BigValue>,
}

impl BigPoly {
    pub closed spec fn field_view(&self) -> BigGaloisField {
        self.field
    }

    /// The coefficients' values, degree-descending.
    pub closed spec fn coeffs_view(&self) -> Seq<nat> {
        values_of(self.coeffs@)
    }

    /// A well-formed field and canonical coefficients of it.
    pub open spec fn wf(&self) -> bool {
        &&& self.field_view().wf()
        &&& bp_normal(self.coeffs_view(), self.field_view().q())
        &&& self.coeffs_view().len() <= isize::MAX
    }

    /// Builds from coefficients known to be elements, stripping leading zeros.
    pub(crate) fn from_valid(coeffs: Vec<BigValue>, field: BigGaloisField) -> (r: Self)
        requires
            field.wf(),
            coeffs@.len() <= isize::MAX,
            forall|i: int| 0 <= i < coeffs@.len() ==> (#[trigger] coeffs@[i]).value() < field.q(),
        ensures
            r.wf(),
            r.field_view() == field,
            r.coeffs_view() == bp_strip(values_of(coeffs@)),
    {
        let ghost vs = values_of(coeffs@);
        let mut start: usize = 0;
        assert(vs.subrange(0, vs.len() as int) =~= vs);
        while start + 1 < coeffs.len() && coeffs[start].is_zero()
            invariant
                start < coeffs@.len() || coeffs@.len() == 0,
                start <= coeffs@.len(),
                coeffs@.len() <= isize::MAX,
                vs == values_of(coeffs@),
                coeffs@.len() > 0 ==> bp_strip(vs) == bp_strip(vs.subrange(start as int, vs.len() as int)),
            decreases coeffs@.len() - start,
        {
            proof {
                let t = vs.subrange(start as int, vs.len() as int);
                assert(t.drop_first() =~= vs.subrange(start + 1, vs.len() as int));
            }
            start = start + 1;
        }
        proof { field.lemma_q_ge_2(); }
        if coeffs.len() == 0 {
            let z = BigValue::from_u64(0);
            let r = BigPoly { field, coeffs: vec![z] };
            assert(r.coeffs_view() =~= seq![0nat]);
            return r;
        }
        let mut out: Vec<BigValue> = Vec::new();
        let mut i: usize = start;
        while i < coeffs.len()
            invariant
                start <= i <= coeffs@.len(),
                vs == values_of(coeffs@),
                out@.len() == i - start,
                forall|k: int| 0 <= k < out@.len() ==> (#[trigger] out@[k]).value() == vs[start + k],
            decreases coeffs@.len() - i,
        {
            out.push(coeffs[i].clone());
            i = i + 1;
        }
        proof {
            let t = vs.subrange(start as int, vs.len() as int);
            assert(values_of(out@) =~= t);
            assert(!(t.len() > 1 && t[0] == 0));
            assert(bp_strip(t) == t);
        }
        BigPoly { field, coeffs: out }
    }
}


/// The first position whose value is not below `q`.
pub open spec fn first_at_least(s: Seq<nat>, q: nat) -> int {
    choose|i: int| 0 <= i < s.len() && s[i] >= q && forall|j: int| 0 <= j < i ==> s[j] < q
}

/// The error `BigGaloisField::validate` reports for `v`.
pub open spec fn big_invalid(v: nat) -> GaloisError {
    GaloisError::InvalidElement { value: if v <= u64::MAX { v as u64 } else { u64::MAX }, characteristic: 0, degree: 0 }
}

impl BigPoly {
    /// Builds the polynomial with degree-descending `coeffs`; the error of
    /// `BigGaloisField::validate` for the first coefficient that is not an element.
    pub fn new(coeffs: Vec<BigValue>, field: BigGaloisField) -> (r: Result<Self>)
        requires
            field.wf(),
            coeffs@.len() <= isize::MAX,
        ensures
            (forall|i: int| 0 <= i < coeffs@.len() ==> (#[trigger] coeffs@[i]).value() < field.q()) ==> (r matches Ok(x)
                && x.wf() && x.field_view() == field && x.coeffs_view() == bp_strip(values_of(coeffs@))),
            (exists|i: int| 0 <= i < coeffs@.len() && (#[trigger] coeffs@[i]).value() >= field.q()) ==> r == Err::<Self, GaloisError>(
                big_invalid(values_of(coeffs@)[first_at_least(values_of(coeffs@), field.q())])),
    {
        let ghost vs = values_of(coeffs@);
        let mut i: usize = 0;
        while i < coeffs.len()
            invariant
                i <= coeffs@.len(),
                vs == values_of(coeffs@),
                forall|j: int| 0 <= j < i ==> (#[trigger] coeffs@[j]).value() < field.q(),
            decreases coeffs@.len() - i,
        {
            match field.validate(&coeffs[i]) {
                Ok(_) => {},
                Err(e) => {
                    proof {
                        assert(0 <= i < vs.len() && vs[i as int] >= field.q() && forall|j: int| 0 <= j < i ==> vs[j] < field.q());
                        let k = first_at_least(vs, field.q());
                        if k != i {
                            if k < i {
                                assert(vs[k] < field.q());
                            } else {
                                assert(vs[i as int] < field.q());
                            }
                        }
                    }
                    return Err(e);
                },
            }
            i = i + 1;
        }
        Ok(Self::from_valid(coeffs, field))
    }

    /// Builds the polynomial with degree-descending integer coefficients.
    pub fn from_u64(coeffs: Vec<u64>, field: BigGaloisField) -> (r: Result<Self>)
        requires
            field.wf(),
            coeffs@.len() <= isize::MAX,
        ensures
            (forall|i: int| 0 <= i < coeffs@.len() ==> (#[trigger] coeffs@[i]) < field.q()) ==> (r matches Ok(x)
                && x.wf() && x.field_view() == field && x.coeffs_view() == bp_strip(coeffs@.map_values(|c: u64| c as nat))),
            (exists|i: int| 0 <= i < coeffs@.len() && (#[trigger] coeffs@[i]) >= field.q()) ==> r is Err,
    {
        let mut big: Vec<BigValue> = Vec::new();
        let mut i: usize = 0;
        while i < coeffs.len()
            invariant
                i <= coeffs@.len(),
                big@.len() == i,
                forall|j: int| 0 <= j < i ==> (#[trigger] big@[j]).value() == coeffs@[j],
            decreases coeffs@.len() - i,
        {
            big.push(BigValue::from_u64(coeffs[i]));
            i = i + 1;
        }
        assert(values_of(big@) =~= coeffs@.map_values(|c: u64| c as nat));
        proof {
            if exists|i: int| 0 <= i < coeffs@.len() && (#[trigger] coeffs@[i]) >= field.q() {
                let k = choose|i: int| 0 <= i < coeffs@.len() && (#[trigger] coeffs@[i]) >= field.q();
                assert(big@[k].value() >= field.q());
            }
        }
        Self::new(big, field)
    }

    /// Builds the polynomial with degree-ascending integer coefficients.
    pub fn from_u64_asc(coeffs: Vec<u64>, field: BigGaloisField) -> (r: Result<Self>)
        requires
            field.wf(),
            coeffs@.len() <= isize::MAX,
        ensures
            (forall|i: int| 0 <= i < coeffs@.len() ==> (#[trigger] coeffs@[i]) < field.q()) ==> (r matches Ok(x)
                && x.wf() && x.field_view() == field
                && x.coeffs_view() == bp_strip(coeffs@.reverse().map_values(|c: u64| c as nat))),
            (exists|i: int| 0 <= i < coeffs@.len() && (#[trigger] coeffs@[i]) >= field.q()) ==> r is Err,
    {
        let mut desc: Vec<u64> = Vec::new();
        let mut i: usize = coeffs.len();
        while i > 0
            invariant
                i <= coeffs@.len(),
                desc@ =~= coeffs@.reverse().subrange(0, (coeffs@.len() - i) as int),
            decreases i,
        {
            i = i - 1;
            desc.push(coeffs[i]);
        }
        assert(desc@ =~= coeffs@.reverse());
        proof {
            if exists|i: int| 0 <= i < coeffs@.len() && (#[trigger] coeffs@[i]) >= field.q() {
                let k = choose|i: int| 0 <= i < coeffs@.len() && (#[trigger] coeffs@[i]) >= field.q();
                assert(desc@[coeffs@.len() - 1 - k] >= field.q());
            }
        }
        Self::from_u64(desc, field)
    }

    pub fn zero(field: BigGaloisField) -> (r: Self)
        requires
            field.wf(),
        ensures
            r.wf(),
            r.field_view() == field,
            r.coeffs_view() == seq![0nat],
    {
        proof { field.lemma_q_ge_2(); }
        let r = BigPoly { field, coeffs: vec![BigValue::from_u64(0)] };
        assert(r.coeffs_view() =~= seq![0nat]);
        r
    }

    pub fn one(field: BigGaloisField) -> (r: Self)
        requires
            field.wf(),
        ensures
            r.wf(),
            r.field_view() == field,
            r.coeffs_view() == seq![1nat],
    {
        proof { field.lemma_q_ge_2(); }
        let r = BigPoly { field, coeffs: vec![BigValue::from_u64(1)] };
        assert(r.coeffs_view() =~= seq![1nat]);
        r
    }

    /// The polynomial `x`.
    pub fn x(field: BigGaloisField) -> (r: Self)
        requires
            field.wf(),
        ensures
            r.wf(),
            r.field_view() == field,
            r.coeffs_view() == seq![1nat, 0nat],
    {
        proof { field.lemma_q_ge_2(); }
        let r = BigPoly { field, coeffs: vec![BigValue::from_u64(1), BigValue::from_u64(0)] };
        assert(r.coeffs_view() =~= seq![1nat, 0nat]);
        r
    }

    pub fn field(&self) -> (r: &BigGaloisField)
        ensures
            *r == self.field_view(),
    {
        &self.field
    }

    pub fn coeffs(&self) -> (r: &[BigValue])
        ensures
            values_of(r@) == self.coeffs_view(),
    {
        self.coeffs.as_slice()
    }

    /// Degree; -1 for the zero polynomial.
    pub fn degree(&self) -> (r: isize)
        requires
            self.wf(),
        ensures
            r == (if bp_is_zero(self.coeffs_view()) { -1 } else { self.coeffs_view().len() - 1 }),
    {
        if self.coeffs.len() <= 1 && self.coeffs[0].is_zero() {
            -1
        } else {
            (self.coeffs.len() - 1) as isize
        }
    }

    pub fn is_zero(&self) -> (r: bool)
        requires
            self.wf(),
        ensures
            r == bp_is_zero(self.coeffs_view()),
    {
        self.degree() < 0
    }
}


impl Clone for BigPoly {
    fn clone(&self) -> (r: Self)
        ensures
            r.coeffs_view() == self.coeffs_view(),
            big_equiv(r.field_view(), self.field_view()),
            self.wf() ==> r.wf(),
    {
        let mut out: Vec<BigValue> = Vec::new();
        let mut i: usize = 0;
        while i < self.coeffs.len()
            invariant
                i <= self.coeffs@.len(),
                out@.len() == i,
                forall|t: int| 0 <= t < i ==> (#[trigger] out@[t]).value() == self.coeffs@[t].value(),
            decreases self.coeffs@.len() - i,
        {
            out.push(self.coeffs[i].clone());
            i = i + 1;
        }
        let r = BigPoly { field: self.field.clone(), coeffs: out };
        assert(r.coeffs_view() =~= self.coeffs_view());
        r
    }
}

/// Fields with the same parameters and irreducible polynomial.
pub open spec fn big_equiv(a: BigGaloisField, b: BigGaloisField) -> bool {
    a.p() == b.p() && a.m() == b.m() && a.q() == b.q() && a.f() == b.f()
}

impl BigPoly {
    /// `PolynomialFieldMismatch` unless both fields have the same characteristic and degree.
    fn ensure_same_field(&self, other: &Self) -> (r: Result<()>)
        ensures
            r is Ok <==> same_big_field(self.field_view(), other.field_view()),
            r is Err ==> r == Err::<(), GaloisError>(GaloisError::PolynomialFieldMismatch),
    {
        if self.field.characteristic() != other.field.characteristic() || self.field.degree() != other.field.degree() {
            return Err(GaloisError::PolynomialFieldMismatch);
        }
        Ok(())
    }

    /// The coefficient of `x^d`, zero beyond the ends.
    fn coeff_of_degree(&self, d: usize) -> (r: BigValue)
        requires
            self.wf(),
        ensures
            r.value() == bp_dco(self.coeffs_view(), d as int),
    {
        let n = self.coeffs.len();
        if d < n {
            self.coeffs[n - 1 - d].clone()
        } else {
            BigValue::from_u64(0)
        }
    }

    /// Coefficientwise sum (`subtract` false) or difference, aligned by degree.
    fn combine(&self, other: &Self, subtract: bool) -> (r: Self)
        requires
            self.wf(),
            other.wf(),
            same_big_field(self.field_view(), other.field_view()),
        ensures
            r.wf(),
            big_equiv(r.field_view(), self.field_view()),
            !subtract ==> r.coeffs_view() == bp_add(self.coeffs_view(), other.coeffs_view(), self.field_view()),
            subtract ==> r.coeffs_view() == bp_sub(self.coeffs_view(), other.coeffs_view(), self.field_view()),
    {
        let ghost a = self.coeffs_view();
        let ghost b = other.coeffs_view();
        let ghost f = self.field_view();
        let l = if self.coeffs.len() >= other.coeffs.len() { self.coeffs.len() } else { other.coeffs.len() };
        let mut out: Vec<BigValue> = Vec::new();
        let mut k: usize = 0;
        while k < l
            invariant
                self.wf(),
                other.wf(),
                a == self.coeffs_view(),
                b == other.coeffs_view(),
                f == self.field_view(),
                l == bp_max_len(a, b),
                k <= l,
                out@.len() == k,
                forall|t: int| 0 <= t < k ==> (#[trigger] out@[t]).value() == (if subtract {
                    gf_sub(bp_dco(a, l - 1 - t), bp_dco(b, l - 1 - t), f.p(), f.m()) } else {
                    gf_add(bp_dco(a, l - 1 - t), bp_dco(b, l - 1 - t), f.p(), f.m()) }),
                forall|t: int| 0 <= t < k ==> (#[trigger] out@[t]).value() < f.q(),
            decreases l - k,
        {
            let d = l - 1 - k;
            let av = self.coeff_of_degree(d);
            let bv = other.coeff_of_degree(d);
            let v = if subtract { self.field.sub(&av, &bv) } else { self.field.add(&av, &bv) };
            out.push(v);
            k = k + 1;
        }
        let field = self.field.clone();
        let r = Self::from_valid(out, field);
        proof {
            if subtract {
                assert(values_of(out@) =~= Seq::new(l as nat, |k: int| gf_sub(bp_dco(a, l - 1 - k), bp_dco(b, l - 1 - k), f.p(), f.m())));
            } else {
                assert(values_of(out@) =~= Seq::new(l as nat, |k: int| gf_add(bp_dco(a, l - 1 - k), bp_dco(b, l - 1 - k), f.p(), f.m())));
            }
        }
        r
    }

    /// Sum; `PolynomialFieldMismatch` for fields of another characteristic or degree.
    pub fn add(&self, other: &Self) -> (r: Result<Self>)
        requires
            self.wf(),
            other.wf(),
        ensures
            !same_big_field(self.field_view(), other.field_view()) ==> r == Err::<Self, GaloisError>(GaloisError::PolynomialFieldMismatch),
            same_big_field(self.field_view(), other.field_view()) ==> (r matches Ok(x) && x.wf()
                && big_equiv(x.field_view(), self.field_view())
                && x.coeffs_view() == bp_add(self.coeffs_view(), other.coeffs_view(), self.field_view())),
    {
        if let Err(e) = self.ensure_same_field(other) {
            return Err(e);
        }
        Ok(self.combine(other, false))
    }

    /// Difference; `PolynomialFieldMismatch` for fields of another characteristic or degree.
    pub fn sub(&self, other: &Self) -> (r: Result<Self>)
        requires
            self.wf(),
            other.wf(),
        ensures
            !same_big_field(self.field_view(), other.field_view()) ==> r == Err::<Self, GaloisError>(GaloisError::PolynomialFieldMismatch),
            same_big_field(self.field_view(), other.field_view()) ==> (r matches Ok(x) && x.wf()
                && big_equiv(x.field_view(), self.field_view())
                && x.coeffs_view() == bp_sub(self.coeffs_view(), other.coeffs_view(), self.field_view())),
    {
        if let Err(e) = self.ensure_same_field(other) {
            return Err(e);
        }
        Ok(self.combine(other, true))
    }

    /// Negation.
    pub fn neg(&self) -> (r: Self)
        requires
            self.wf(),
        ensures
            r.wf(),
            big_equiv(r.field_view(), self.field_view()),
            r.coeffs_view() == bp_neg(self.coeffs_view(), self.field_view()),
    {
        let ghost a = self.coeffs_view();
        let ghost f = self.field_view();
        let mut out: Vec<BigValue> = Vec::new();
        let mut k: usize = 0;
        while k < self.coeffs.len()
            invariant
                self.wf(),
                a == self.coeffs_view(),
                f == self.field_view(),
                k <= a.len(),
                out@.len() == k,
                forall|t: int| 0 <= t < k ==> (#[trigger] out@[t]).value() == gf_neg(a[t], f.p(), f.m()),
                forall|t: int| 0 <= t < k ==> (#[trigger] out@[t]).value() < f.q(),
            decreases a.len() - k,
        {
            proof {
                f.lemma_wf_params();
                assert(self.coeffs@[k as int].value() == a[k as int]);
                assert(a[k as int] < f.q());
                if f.m() == 1 {
                    crate::arith::lemma_npow_one(f.p());
                }
            }
            out.push(self.field.neg(&self.coeffs[k]));
            k = k + 1;
        }
        assert(values_of(out@) =~= Seq::new(a.len(), |k: int| gf_neg(a[k], f.p(), f.m())));
        Self::from_valid(out, self.field.clone())
    }
}


impl BigPoly {
    /// Product; `PolynomialFieldMismatch` for fields of another characteristic or degree.
    pub fn mul(&self, other: &Self) -> (r: Result<Self>)
        requires
            self.wf(),
            other.wf(),
            self.coeffs_view().len() + other.coeffs_view().len() <= isize::MAX + 1,
        ensures
            !same_big_field(self.field_view(), other.field_view()) ==> r == Err::<Self, GaloisError>(GaloisError::PolynomialFieldMismatch),
            same_big_field(self.field_view(), other.field_view()) ==> (r matches Ok(x) && x.wf()
                && big_equiv(x.field_view(), self.field_view())
                && x.coeffs_view() == bp_mul(self.coeffs_view(), other.coeffs_view(), self.field_view())
                && x.coeffs_view().len() <= self.coeffs_view().len() + other.coeffs_view().len() - 1),
    {
        if let Err(e) = self.ensure_same_field(other) {
            return Err(e);
        }
        if self.is_zero() || other.is_zero() {
            return Ok(Self::zero(self.field.clone()));
        }
        let ghost a = self.coeffs_view();
        let ghost b = other.coeffs_view();
        let ghost f = self.field_view();
        proof { f.lemma_wf_params(); other.field_view().lemma_wf_params(); }
        let la = self.coeffs.len();
        let lb = other.coeffs.len();
        let n = la + lb - 1;
        let mut out: Vec<BigValue> = Vec::new();
        let mut t: usize = 0;
        while t < n
            invariant
                t <= n,
                out@.len() == t,
                forall|k: int| 0 <= k < t ==> (#[trigger] out@[k]).value() == 0,
            decreases n - t,
        {
            out.push(BigValue::from_u64(0));
            t = t + 1;
        }
        proof { f.lemma_q_ge_2(); }
        let mut i: usize = 0;
        while i < la
            invariant
                self.wf(),
                other.wf(),
                a == self.coeffs_view(),
                b == other.coeffs_view(),
                f == self.field_view(),
                f.q() == other.field_view().q(),
                la == a.len(),
                lb == b.len(),
                n == la + lb - 1,
                i <= la,
                out@.len() == n,
                forall|k: int| 0 <= k < n ==> (#[trigger] out@[k]).value() < f.q(),
                forall|k: int| 0 <= k < n ==> (#[trigger] out@[k]).value() == bp_conv(a, b, k, i as int, f),
            decreases la - i,
        {
            let mut j: usize = 0;
            while j < lb
                invariant
                    self.wf(),
                    other.wf(),
                    a == self.coeffs_view(),
                    b == other.coeffs_view(),
                    f == self.field_view(),
                    la == a.len(),
                    lb == b.len(),
                    n == la + lb - 1,
                    i < la,
                    j <= lb,
                    out@.len() == n,
                    forall|k: int| 0 <= k < n ==> (#[trigger] out@[k]).value() < f.q(),
                    forall|k: int| 0 <= k < n ==> (#[trigger] out@[k]).value() == (if i <= k < i + j {
                        bp_conv(a, b, k, i + 1, f) } else { bp_conv(a, b, k, i as int, f) }),
                decreases lb - j,
            {
                let k = i + j;
                assert(self.coeffs@[i as int].value() == a[i as int]);
                assert(other.coeffs@[j as int].value() == b[j as int]);
                let prod = self.field.mul(&self.coeffs[i], &other.coeffs[j]);
                let v = self.field.add(&out[k], &prod);
                out.set(k, v);
                j = j + 1;
            }
            assert forall|k: int| 0 <= k < n implies #[trigger] out@[k].value() == bp_conv(a, b, k, i + 1, f) by {
                if !(i <= k < i + lb) {
                    assert(bp_conv(a, b, k, i + 1, f) == bp_conv(a, b, k, i as int, f));
                }
            }
            i = i + 1;
        }
        assert(values_of(out@) =~= Seq::new((a.len() + b.len() - 1) as nat, |k: int| bp_conv(a, b, k, a.len() as int, f)));
        proof { lemma_bp_strip(values_of(out@)); }
        Ok(Self::from_valid(out, self.field.clone()))
    }

    /// The value at `x` by Horner's rule; the error of `BigGaloisField::validate` when `x`
    /// is not an element.
    pub fn evaluate(&self, x: &BigValue) -> (r: Result<BigValue>)
        requires
            self.wf(),
        ensures
            x.value() < self.field_view().q() ==> (r matches Ok(v)
                && v.value() == bp_horner(self.coeffs_view(), x.value(), self.coeffs_view().len() as int, self.field_view())),
            x.value() >= self.field_view().q() ==> r == Err::<BigValue, GaloisError>(big_invalid(x.value())),
    {
        let xv = match self.field.validate(x) {
            Ok(v) => v,
            Err(e) => { return Err(e); },
        };
        let ghost a = self.coeffs_view();
        let mut result = BigValue::from_u64(0);
        let mut i: usize = 0;
        while i < self.coeffs.len()
            invariant
                self.wf(),
                a == self.coeffs_view(),
                xv.value() == x.value(),
                i <= a.len(),
                result.value() == bp_horner(a, x.value(), i as int, self.field_view()),
            decreases a.len() - i,
        {
            assert(self.coeffs@[i as int].value() == a[i as int]);
            let prod = self.field.mul(&result, &xv);
            result = self.field.add(&prod, &self.coeffs[i]);
            i = i + 1;
        }
        Ok(result)
    }
}


/// Every coefficient multiplied by `c` in the field; zero for `c = 0` or the zero polynomial.
pub open spec fn bp_scale(a: Seq<nat>, c: nat, f: BigGaloisField) -> Seq<nat> {
    if c == 0 || bp_is_zero(a) {
        seq![0nat]
    } else {
        bp_strip(Seq::new(a.len(), |k: int| gf_mul(a[k], c, f.p(), f.m(), f.f())))
    }
}

/// Multiplication by `x^n`.
pub open spec fn bp_shift(a: Seq<nat>, n: nat) -> Seq<nat> {
    if bp_is_zero(a) { seq![0nat] } else { a + Seq::new(n, |i: int| 0nat) }
}

impl BigPoly {
    pub fn is_one(&self) -> (r: bool)
        requires
            self.wf(),
        ensures
            r == (self.coeffs_view() == seq![1nat]),
    {
        let one = BigValue::from_u64(1);
        let r = self.coeffs.len() == 1 && !crate::field::bignum::limbs_less(&self.coeffs[0], &one)
            && !crate::field::bignum::limbs_less(&one, &self.coeffs[0]);
        assert(r ==> self.coeffs_view() =~= seq![1nat]);
        proof {
            if self.coeffs_view() == seq![1nat] {
                assert(self.coeffs_view().len() == 1 && self.coeffs_view()[0] == 1);
                assert(self.coeffs@[0].value() == 1);
            }
        }
        r
    }

    /// Nonzero with leading coefficient one.
    pub fn is_monic(&self) -> (r: bool)
        requires
            self.wf(),
        ensures
            r == (!bp_is_zero(self.coeffs_view()) && self.coeffs_view()[0] == 1),
    {
        if self.is_zero() {
            return false;
        }
        let one = BigValue::from_u64(1);
        !crate::field::bignum::limbs_less(&self.coeffs[0], &one) && !crate::field::bignum::limbs_less(&one, &self.coeffs[0])
    }

    /// The coefficient of the highest power.
    pub fn leading_coeff(&self) -> (r: &BigValue)
        requires
            self.wf(),
        ensures
            r.value() == self.coeffs_view()[0],
    {
        &self.coeffs[0]
    }

    /// The coefficients, lowest degree first.
    pub fn coeffs_asc(&self) -> (r: Vec<BigValue>)
        requires
            self.wf(),
        ensures
            values_of(r@) == self.coeffs_view().reverse(),
    {
        let n = self.coeffs.len();
        let mut out: Vec<BigValue> = Vec::new();
        let mut i: usize = n;
        while i > 0
            invariant
                i <= n,
                n == self.coeffs@.len(),
                out@.len() == n - i,
                forall|t: int| 0 <= t < out@.len() ==> (#[trigger] out@[t]).value() == self.coeffs@[n - 1 - t].value(),
            decreases i,
        {
            i = i - 1;
            out.push(self.coeffs[i].clone());
        }
        assert(values_of(out@) =~= self.coeffs_view().reverse());
        out
    }

    /// Every coefficient times `scalar`; the error of `BigGaloisField::validate` when the
    /// scalar is not an element.
    pub fn mul_scalar(&self, scalar: &BigValue) -> (r: Result<Self>)
        requires
            self.wf(),
        ensures
            scalar.value() >= self.field_view().q() ==> r == Err::<Self, GaloisError>(big_invalid(scalar.value())),
            scalar.value() < self.field_view().q() ==> (r matches Ok(x) && x.wf() && big_equiv(x.field_view(), self.field_view())
                && x.coeffs_view() == bp_scale(self.coeffs_view(), scalar.value(), self.field_view())),
    {
        let sv = match self.field.validate(scalar) {
            Ok(v) => v,
            Err(e) => { return Err(e); },
        };
        if sv.is_zero() || self.is_zero() {
            return Ok(Self::zero(self.field.clone()));
        }
        let ghost a = self.coeffs_view();
        let ghost f = self.field_view();
        let mut out: Vec<BigValue> = Vec::new();
        let mut k: usize = 0;
        while k < self.coeffs.len()
            invariant
                self.wf(),
                a == self.coeffs_view(),
                f == self.field_view(),
                sv.value() == scalar.value(),
                k <= a.len(),
                out@.len() == k,
                forall|t: int| 0 <= t < k ==> (#[trigger] out@[t]).value() == gf_mul(a[t], scalar.value(), f.p(), f.m(), f.f()),
                forall|t: int| 0 <= t < k ==> (#[trigger] out@[t]).value() < f.q(),
            decreases a.len() - k,
        {
            assert(self.coeffs@[k as int].value() == a[k as int]);
            out.push(self.field.mul(&self.coeffs[k], &sv));
            k = k + 1;
        }
        assert(values_of(out@) =~= Seq::new(a.len(), |k: int| gf_mul(a[k], scalar.value(), f.p(), f.m(), f.f())));
        Ok(Self::from_valid(out, self.field.clone()))
    }

    /// Multiplication by `x^amount`.
    pub fn shift(&self, amount: usize) -> (r: Self)
        requires
            self.wf(),
            self.coeffs_view().len() + amount <= isize::MAX,
        ensures
            r.wf(),
            big_equiv(r.field_view(), self.field_view()),
            r.coeffs_view() == bp_shift(self.coeffs_view(), amount as nat),
    {
        if self.is_zero() {
            return Self::zero(self.field.clone());
        }
        let ghost a = self.coeffs_view();
        let mut out: Vec<BigValue> = Vec::new();
        let mut k: usize = 0;
        while k < self.coeffs.len()
            invariant
                self.wf(),
                a == self.coeffs_view(),
                k <= a.len(),
                out@.len() == k,
                forall|t: int| 0 <= t < k ==> (#[trigger] out@[t]).value() == a[t],
            decreases a.len() - k,
        {
            out.push(self.coeffs[k].clone());
            k = k + 1;
        }
        let mut z: usize = 0;
        while z < amount
            invariant
                z <= amount,
                out@.len() == a.len() + z,
                forall|t: int| 0 <= t < a.len() ==> (#[trigger] out@[t]).value() == a[t],
                forall|t: int| a.len() <= t < a.len() + z ==> (#[trigger] out@[t]).value() == 0,
            decreases amount - z,
        {
            out.push(BigValue::from_u64(0));
            z = z + 1;
        }
        let ghost target = a + Seq::new(amount as nat, |i: int| 0nat);
        assert(values_of(out@) =~= target);
        proof {
            self.field_view().lemma_q_ge_2();
            assert(bp_strip(target) == target);
        }
        Self::from_valid(out, self.field.clone())
    }
}


/// The convolution depends on the field only through its parameters.
pub proof fn lemma_bp_conv_equiv(a: Seq<nat>, b: Seq<nat>, k: int, n: int, f1: BigGaloisField, f2: BigGaloisField)
    requires
        big_equiv(f1, f2),
    ensures
        bp_conv(a, b, k, n, f1) == bp_conv(a, b, k, n, f2),
    decreases n,
{
    if n > 0 {
        lemma_bp_conv_equiv(a, b, k, n - 1, f1, f2);
    }
}

/// Sums, scalings and products depend on the field only through its parameters.
pub proof fn lemma_bp_ops_equiv(a: Seq<nat>, b: Seq<nat>, c: nat, f1: BigGaloisField, f2: BigGaloisField)
    requires
        big_equiv(f1, f2),
    ensures
        bp_add(a, b, f1) == bp_add(a, b, f2),
        bp_scale(a, c, f1) == bp_scale(a, c, f2),
        bp_mul(a, b, f1) == bp_mul(a, b, f2),
{
    let l = bp_max_len(a, b);
    assert(Seq::new(l, |k: int| gf_add(bp_dco(a, l - 1 - k), bp_dco(b, l - 1 - k), f1.p(), f1.m()))
        =~= Seq::new(l, |k: int| gf_add(bp_dco(a, l - 1 - k), bp_dco(b, l - 1 - k), f2.p(), f2.m())));
    assert(Seq::new(a.len(), |k: int| gf_mul(a[k], c, f1.p(), f1.m(), f1.f()))
        =~= Seq::new(a.len(), |k: int| gf_mul(a[k], c, f2.p(), f2.m(), f2.f())));
    assert forall|k: int| 0 <= k < a.len() + b.len() - 1 implies bp_conv(a, b, k, a.len() as int, f1)
        == bp_conv(a, b, k, a.len() as int, f2) by {
        lemma_bp_conv_equiv(a, b, k, a.len() as int, f1, f2);
    }
    assert(Seq::new((a.len() + b.len() - 1) as nat, |k: int| bp_conv(a, b, k, a.len() as int, f1))
        =~= Seq::new((a.len() + b.len() - 1) as nat, |k: int| bp_conv(a, b, k, a.len() as int, f2)));
}

} // verus!
