//! Division, monic forms and derivatives of polynomials over a `BigGaloisField`.

use vstd::prelude::*;
use crate::error::{GaloisError, Result};
use crate::field::big_field::{BigGaloisField, same_big_field, big_div_spec};
use crate::field::bignum::BigValue;
use crate::field::model::{gf_sub, gf_mul};
use crate::poly::big_poly::{BigPoly, bp_strip, bp_is_zero, bp_scale, values_of, big_equiv, lemma_bp_strip};

verus! {

/// One step of long division on ascending coefficients: the coefficient at `k` is
/// eliminated and `c x^(k - deg d) d` is subtracted below it.
pub open spec fn bp_div_step(rem: Seq<nat>, d: Seq<nat>, k: int, c: nat, f: BigGaloisField) -> Seq<nat> {
    let shift = k - (d.len() - 1);
    Seq::new(rem.len(), |t: int| if t == k {
        0nat
    } else if shift <= t < k {
        gf_sub(rem[t], gf_mul(c, d[t - shift], f.p(), f.m(), f.f()), f.p(), f.m())
    } else {
        rem[t]
    })
}

/// Schoolbook long division on ascending coefficients, eliminating positions
/// `k, k-1, ..., deg d`; returns quotient and remainder before stripping.
pub open spec fn bp_long_div(rem: Seq<nat>, quo: Seq<nat>, d: Seq<nat>, inv: nat, k: int, f: BigGaloisField) -> (Seq<nat>, Seq<nat>)
    decreases k + 1,
{
    if k < 0 || k < d.len() - 1 {
        (quo, rem)
    } else {
        let c = gf_mul(rem[k], inv, f.p(), f.m(), f.f());
        bp_long_div(bp_div_step(rem, d, k, c, f), quo.update(k - (d.len() - 1), c), d, inv, k - 1, f)
    }
}

/// Length of the quotient buffer for ascending `a` over ascending `d`.
pub open spec fn bp_quo_len(a: Seq<nat>, d: Seq<nat>) -> nat {
    if a.len() > d.len() - 1 { (a.len() - (d.len() - 1)) as nat } else { 1 }
}

/// Quotient and remainder of descending `a` by descending nonzero `d`: each step divides
/// the leading remaining coefficient by the divisor's leading coefficient.
pub open spec fn bp_divmod(a: Seq<nat>, d: Seq<nat>, f: BigGaloisField) -> (Seq<nat>, Seq<nat>) {
    let ar = a.reverse();
    let dr = d.reverse();
    let r = bp_long_div(ar, Seq::new(bp_quo_len(ar, dr), |i: int| 0nat), dr, big_div_spec(f, 1, dr.last()), ar.len() - 1, f);
    (bp_strip(r.0.reverse()), bp_strip(r.1.reverse()))
}

/// Leading coefficient scaled to one.
pub open spec fn bp_monic(a: Seq<nat>, f: BigGaloisField) -> Seq<nat> {
    if bp_is_zero(a) || a[0] == 1 { a } else { bp_scale(a, big_div_spec(f, 1, a[0]), f) }
}

/// The values in reverse order.
fn reverse_values(s: &[BigValue]) -> (r: Vec<BigValue>)
    ensures
        values_of(r@) == values_of(s@).reverse(),
        r@.len() == s@.len(),
{
    let n = s.len();
    let mut out: Vec<BigValue> = Vec::new();
    let mut i: usize = n;
    while i > 0
        invariant
            i <= n,
            n == s@.len(),
            out@.len() == n - i,
            forall|t: int| 0 <= t < out@.len() ==> (#[trigger] out@[t]).value() == s@[n - 1 - t].value(),
        decreases i,
    {
        i = i - 1;
        out.push(s[i].clone());
    }
    assert(values_of(out@) =~= values_of(s@).reverse());
    out
}

impl BigPoly {
    /// Quotient and remainder; `PolynomialFieldMismatch` for polynomials over fields of
    /// another characteristic or degree, `PolynomialDivisionByZero` for a zero divisor.
    pub fn divmod(&self, divisor: &Self) -> (r: Result<(Self, Self)>)
        requires
            self.wf(),
            divisor.wf(),
        ensures
            !same_big_field(self.field_view(), divisor.field_view()) ==> r == Err::<(Self, Self), GaloisError>(
                GaloisError::PolynomialFieldMismatch),
            same_big_field(self.field_view(), divisor.field_view()) && bp_is_zero(divisor.coeffs_view()) ==>
                r == Err::<(Self, Self), GaloisError>(GaloisError::PolynomialDivisionByZero),
            same_big_field(self.field_view(), divisor.field_view()) && !bp_is_zero(divisor.coeffs_view()) ==> (r matches Ok((q, m))
                && q.wf() && m.wf() && big_equiv(q.field_view(), self.field_view()) && big_equiv(m.field_view(), self.field_view())
                && (q.coeffs_view(), m.coeffs_view()) == bp_divmod(self.coeffs_view(), divisor.coeffs_view(), self.field_view())),
    {
        let field = self.field();
        if field.characteristic() != divisor.field().characteristic() || field.degree() != divisor.field().degree() {
            return Err(GaloisError::PolynomialFieldMismatch);
        }
        if divisor.is_zero() {
            return Err(GaloisError::PolynomialDivisionByZero);
        }
        let ghost f = self.field_view();
        let ghost a = self.coeffs_view();
        let ghost d = divisor.coeffs_view();
        proof {
            f.lemma_q_ge_2();
            f.lemma_wf_params();
            divisor.field_view().lemma_wf_params();
        }
        let ar = reverse_values(self.coeffs());
        let dr = reverse_values(divisor.coeffs());
        let dd: usize = dr.len() - 1;
        assert(values_of(dr@)[dd as int] == d[0]);
        let one = BigValue::from_u64(1);
        let inv = match field.div(&one, &dr[dd]) {
            Ok(v) => v,
            Err(e) => { return Err(e); },
        };
        let la = ar.len();
        let ql: usize = if la > dd { la - dd } else { 1 };
        let mut rem = ar;
        let mut quo: Vec<BigValue> = Vec::new();
        while quo.len() < ql
            invariant
                quo@.len() <= ql,
                forall|t: int| 0 <= t < quo@.len() ==> (#[trigger] quo@[t]).value() == 0,
            decreases ql - quo@.len(),
        {
            quo.push(BigValue::from_u64(0));
        }
        let ghost dv = values_of(dr@);
        let ghost q0 = values_of(quo@);
        let ghost a0 = values_of(rem@);
        assert(q0 =~= Seq::new(bp_quo_len(a.reverse(), d.reverse()), |i: int| 0nat));
        assert(dv.last() == dv[dd as int]);
        assert forall|t: int| 0 <= t < rem@.len() implies (#[trigger] rem@[t]).value() < f.q() by {
            assert(rem@[t].value() == a0[t]);
            assert(a0[t] == a[a.len() - 1 - t]);
        }
        let mut k: usize = la;
        while k > dd
            invariant
                field.wf(),
                *field == f,
                dv == values_of(dr@),
                dv == d.reverse(),
                a0 == a.reverse(),
                dd == dr@.len() - 1,
                inv.value() == big_div_spec(f, 1, dv.last()),
                inv.value() < f.q(),
                k <= la,
                la == a0.len(),
                rem@.len() == la,
                quo@.len() == ql,
                ql == bp_quo_len(a0, dv),
                k > dd ==> ql >= k - dd,
                forall|t: int| 0 <= t < rem@.len() ==> (#[trigger] rem@[t]).value() < f.q(),
                forall|t: int| 0 <= t < quo@.len() ==> (#[trigger] quo@[t]).value() < f.q(),
                bp_long_div(values_of(rem@), values_of(quo@), dv, inv.value(), k - 1, f)
                    == bp_long_div(a0, q0, dv, inv.value(), la - 1, f),
            decreases k,
        {
            let kk = k - 1;
            let c = field.mul(&rem[kk], &inv);
            let shift = kk - dd;
            let ghost before = values_of(rem@);
            let ghost qbefore = values_of(quo@);
            quo.set(shift, c.clone());
            assert(values_of(quo@) =~= qbefore.update(shift as int, c.value()));
            let mut j: usize = 0;
            while j < dd
                invariant
                    field.wf(),
                    *field == f,
                    dv == values_of(dr@),
                    dd == dr@.len() - 1,
                    kk == shift + dd,
                    kk < la,
                    c.value() < f.q(),
                    j <= dd,
                    rem@.len() == la,
                    before.len() == la,
                    forall|t: int| 0 <= t < la ==> (#[trigger] rem@[t]).value() < f.q(),
                    values_of(rem@) == Seq::new(la as nat, |t: int| if shift <= t < shift + j {
                        gf_sub(before[t], gf_mul(c.value(), dv[t - shift], f.p(), f.m(), f.f()), f.p(), f.m())
                    } else {
                        before[t]
                    }),
                decreases dd - j,
            {
                let t = shift + j;
                let prod = field.mul(&c, &dr[j]);
                let v = field.sub(&rem[t], &prod);
                let ghost prev = values_of(rem@);
                assert(rem@[t as int].value() == prev[t as int]);
                assert(dr@[j as int].value() == dv[j as int]);
                assert(prev[t as int] == before[t as int]);
                let ghost vv = v.value();
                rem.set(t, v);
                assert(values_of(rem@) =~= prev.update(t as int, vv));
                assert(values_of(rem@) =~= Seq::new(la as nat, |t2: int| if shift <= t2 < shift + j + 1 {
                        gf_sub(before[t2], gf_mul(c.value(), dv[t2 - shift], f.p(), f.m(), f.f()), f.p(), f.m())
                    } else {
                        before[t2]
                    }));
                assert forall|t2: int| 0 <= t2 < la implies (#[trigger] rem@[t2]).value() < f.q() by {
                    if t2 != t {
                        assert(rem@[t2].value() == prev[t2]);
                    }
                }
                j = j + 1;
            }
            let ghost prev2 = values_of(rem@);
            rem.set(kk, BigValue::from_u64(0));
            assert(values_of(rem@) =~= prev2.update(kk as int, 0nat));
            assert(values_of(rem@) =~= bp_div_step(before, dv, kk as int, c.value(), f));
            assert forall|t2: int| 0 <= t2 < la implies (#[trigger] rem@[t2]).value() < f.q() by {
                if t2 != kk {
                    assert(rem@[t2].value() == prev2[t2]);
                }
            }
            k = kk;
        }
        let ghost res = bp_long_div(a0, q0, dv, inv.value(), la - 1, f);
        assert(values_of(rem@) == res.1 && values_of(quo@) == res.0);
        let qd = reverse_values(quo.as_slice());
        let rd = reverse_values(rem.as_slice());
        assert(ql <= la + 1);
        assert forall|t: int| 0 <= t < qd@.len() implies (#[trigger] qd@[t]).value() < f.q() by {
            assert(qd@[t].value() == values_of(qd@)[t]);
            assert(values_of(quo@)[ql - 1 - t] == quo@[ql - 1 - t].value());
        }
        assert forall|t: int| 0 <= t < rd@.len() implies (#[trigger] rd@[t]).value() < f.q() by {
            assert(rd@[t].value() == values_of(rd@)[t]);
            assert(values_of(rem@)[la - 1 - t] == rem@[la - 1 - t].value());
        }
        Ok((BigPoly::from_valid(qd, field.clone()), BigPoly::from_valid(rd, field.clone())))
    }
}

impl BigPoly {
    /// The remainder of a division; the errors of `divmod`.
    pub fn rem(&self, divisor: &Self) -> (r: Result<Self>)
        requires
            self.wf(),
            divisor.wf(),
        ensures
            !same_big_field(self.field_view(), divisor.field_view()) ==> r == Err::<Self, GaloisError>(GaloisError::PolynomialFieldMismatch),
            same_big_field(self.field_view(), divisor.field_view()) && bp_is_zero(divisor.coeffs_view()) ==>
                r == Err::<Self, GaloisError>(GaloisError::PolynomialDivisionByZero),
            same_big_field(self.field_view(), divisor.field_view()) && !bp_is_zero(divisor.coeffs_view()) ==> (r matches Ok(m)
                && m.wf() && big_equiv(m.field_view(), self.field_view())
                && m.coeffs_view() == bp_divmod(self.coeffs_view(), divisor.coeffs_view(), self.field_view()).1),
    {
        match self.divmod(divisor) {
            Ok((_, m)) => Ok(m),
            Err(e) => Err(e),
        }
    }

    /// The quotient of a division; the errors of `divmod`.
    pub fn div(&self, divisor: &Self) -> (r: Result<Self>)
        requires
            self.wf(),
            divisor.wf(),
        ensures
            !same_big_field(self.field_view(), divisor.field_view()) ==> r == Err::<Self, GaloisError>(GaloisError::PolynomialFieldMismatch),
            same_big_field(self.field_view(), divisor.field_view()) && bp_is_zero(divisor.coeffs_view()) ==>
                r == Err::<Self, GaloisError>(GaloisError::PolynomialDivisionByZero),
            same_big_field(self.field_view(), divisor.field_view()) && !bp_is_zero(divisor.coeffs_view()) ==> (r matches Ok(q)
                && q.wf() && big_equiv(q.field_view(), self.field_view())
                && q.coeffs_view() == bp_divmod(self.coeffs_view(), divisor.coeffs_view(), self.field_view()).0),
    {
        match self.divmod(divisor) {
            Ok((q, _)) => Ok(q),
            Err(e) => Err(e),
        }
    }

    /// The polynomial scaled to leading coefficient one (zero and monic polynomials are
    /// returned as they are); never an error.
    pub fn make_monic(&self) -> (r: Result<Self>)
        requires
            self.wf(),
        ensures
            r matches Ok(x) && x.wf() && big_equiv(x.field_view(), self.field_view())
                && x.coeffs_view() == bp_monic(self.coeffs_view(), self.field_view()),
    {
        if self.is_zero() || self.is_monic() {
            return Ok(self.clone());
        }
        let field = self.field();
        proof { field.lemma_q_ge_2(); }
        let one = BigValue::from_u64(1);
        let inv = match field.div(&one, self.leading_coeff()) {
            Ok(v) => v,
            Err(e) => { return Err(e); },
        };
        self.mul_scalar(&inv)
    }
}

/// First derivative over `f`: the coefficient of `x^(j-1)` is `a_j` times the element
/// `j mod p`.
pub open spec fn bp_deriv1(a: Seq<nat>, f: BigGaloisField) -> Seq<nat> {
    let d = a.len() - 1;
    if bp_is_zero(a) || a.len() <= 1 {
        seq![0nat]
    } else {
        bp_strip(Seq::new(d as nat, |i: int| gf_mul(a[i], ((d - i) % (f.p() as int)) as nat, f.p(), f.m(), f.f())))
    }
}

/// Degree of descending coefficients; -1 for zero.
pub open spec fn bp_degree(a: Seq<nat>) -> int {
    if bp_is_zero(a) { -1 } else { a.len() - 1 }
}

/// `k`-th derivative over `f`.
pub open spec fn bp_deriv(a: Seq<nat>, k: nat, f: BigGaloisField) -> Seq<nat>
    decreases k,
{
    if k == 0 {
        a
    } else if bp_degree(a) < k {
        seq![0nat]
    } else {
        bp_deriv(bp_deriv1(a, f), (k - 1) as nat, f)
    }
}

/// The first derivative lowers the degree: a constant goes to zero.
pub proof fn lemma_bp_deriv1_degree(a: Seq<nat>, f: BigGaloisField)
    ensures
        bp_degree(a) <= 0 ==> bp_degree(bp_deriv1(a, f)) < 0,
        bp_degree(a) >= 1 ==> bp_degree(bp_deriv1(a, f)) <= bp_degree(a) - 1,
{
    assert(bp_is_zero(seq![0nat]));
    if bp_degree(a) >= 1 {
        let d = a.len() - 1;
        let s = Seq::new(d as nat, |i: int| gf_mul(a[i], ((d - i) % (f.p() as int)) as nat, f.p(), f.m(), f.f()));
        lemma_bp_strip(s);
    }
}

/// Differentiating `k` times a polynomial of degree at most `k` leaves a constant.
pub proof fn lemma_bp_deriv_degree(a: Seq<nat>, k: nat, f: BigGaloisField)
    requires
        bp_degree(a) <= k,
    ensures
        bp_degree(bp_deriv(a, k, f)) <= 0,
    decreases k,
{
    if k > 0 {
        if bp_degree(a) < k {
            assert(bp_is_zero(seq![0nat]));
        } else {
            lemma_bp_deriv1_degree(a, f);
            lemma_bp_deriv_degree(bp_deriv1(a, f), (k - 1) as nat, f);
        }
    }
}

/// The `(k+1)`-th derivative is the derivative of the `k`-th derivative, and the derivative
/// taken once is the first derivative.
pub proof fn lemma_bp_deriv_succ(a: Seq<nat>, k: nat, f: BigGaloisField)
    ensures
        bp_deriv(a, 0, f) == a,
        bp_deriv(a, 1, f) == bp_deriv1(a, f),
        bp_deriv(a, k + 1, f) == bp_deriv(bp_deriv(a, k, f), 1, f),
    decreases k,
{
    assert(bp_is_zero(seq![0nat]));
    if bp_degree(a) >= 1 {
        assert(bp_deriv(bp_deriv1(a, f), 0, f) == bp_deriv1(a, f));
    }
    if k > 0 {
        if bp_degree(a) < k + 1 {
            lemma_bp_deriv_degree(a, k, f);
            let c = bp_deriv(a, k, f);
            assert(bp_deriv(c, 1, f) == seq![0nat]);
        } else {
            let b = bp_deriv1(a, f);
            lemma_bp_deriv_succ(b, (k - 1) as nat, f);
            assert(bp_deriv(a, k, f) == bp_deriv(b, (k - 1) as nat, f));
            assert(bp_deriv(a, k + 1, f) == bp_deriv(b, k, f));
        }
    }
}

impl BigPoly {
    /// The first derivative, computed over `field`.
    fn derivative1_over(&self, field: &BigGaloisField) -> (r: Self)
        requires
            self.wf(),
            field.wf(),
        ensures
            r.wf(),
            big_equiv(r.field_view(), *field),
            r.coeffs_view() == bp_deriv1(self.coeffs_view(), *field),
    {
        proof { field.lemma_q_ge_2(); field.lemma_wf_params(); }
        let coeffs = self.coeffs();
        if self.is_zero() || coeffs.len() <= 1 {
            return BigPoly::zero(field.clone());
        }
        let ghost a = self.coeffs_view();
        let d = coeffs.len() - 1;
        let p = field.characteristic();
        let mut out: Vec<BigValue> = Vec::new();
        let mut i: usize = 0;
        while i < d
            invariant
                field.wf(),
                a == values_of(coeffs@),
                d == coeffs@.len() - 1,
                p == field.p(),
                p >= 2,
                i <= d,
                out@.len() == i,
                forall|j: int| 0 <= j < i ==> (#[trigger] out@[j]).value() < field.q(),
                forall|j: int| 0 <= j < i ==> #[trigger] out@[j].value()
                    == gf_mul(a[j], ((d - j) % (p as int)) as nat, field.p(), field.m(), field.f()),
            decreases d - i,
        {
            let c = BigValue::from_u64(((d - i) as u64) % p);
            assert(coeffs@[i as int].value() == a[i as int]);
            out.push(field.mul(&coeffs[i], &c));
            i = i + 1;
        }
        assert(values_of(out@) =~= Seq::new(d as nat, |j: int| gf_mul(a[j], ((d - j) % (field.p() as int)) as nat,
            field.p(), field.m(), field.f())));
        BigPoly::from_valid(out, field.clone())
    }

    /// The `k`-th derivative, with each integer factor reduced modulo `p`.
    pub fn derivative(&self, k: u32) -> (r: Result<Self>)
        requires
            self.wf(),
        ensures
            r matches Ok(x) && x.wf() && big_equiv(x.field_view(), self.field_view())
                && x.coeffs_view() == bp_deriv(self.coeffs_view(), k as nat, self.field_view()),
    {
        let field = self.field();
        let mut poly = self.clone();
        let mut rem: u32 = k;
        while rem > 0
            invariant
                field.wf(),
                *field == self.field_view(),
                poly.wf(),
                big_equiv(poly.field_view(), self.field_view()),
                bp_deriv(self.coeffs_view(), k as nat, self.field_view())
                    == bp_deriv(poly.coeffs_view(), rem as nat, self.field_view()),
            decreases rem,
        {
            if (poly.degree() as i64) < (rem as i64) {
                return Ok(BigPoly::zero(field.clone()));
            }
            poly = poly.derivative1_over(field);
            rem = rem - 1;
        }
        Ok(poly)
    }
}

} // verus!
