//! Greatest common divisors and modular powers of polynomials over a `BigGaloisField`.

use vstd::prelude::*;
use crate::error::{GaloisError, Result};
use crate::field::big_field::{BigGaloisField, same_big_field};
use crate::field::bignum::BigValue;
use crate::poly::big_poly::{BigPoly, bp_strip, bp_is_zero, big_equiv, values_of, lemma_bp_strip, lemma_bp_ops_equiv};
use crate::poly::big_divmod::{bp_divmod, bp_long_div, bp_div_step, bp_quo_len, bp_monic};
use crate::poly::big_poly::bp_mul;
use crate::field::big_field::big_div_spec;

verus! {

/// Canonical shape: at least one coefficient and no leading zero unless zero itself.
pub open spec fn bp_shape(s: Seq<nat>) -> bool {
    s.len() >= 1 && (s.len() == 1 || s[0] != 0)
}

/// Long division leaves zeros at and above the divisor's degree.
proof fn lemma_bp_long_div_clears(rem: Seq<nat>, quo: Seq<nat>, d: Seq<nat>, inv: nat, k: int, f: BigGaloisField)
    requires
        d.len() >= 1,
        -1 <= k < rem.len(),
        forall|t: int| k < t < rem.len() ==> #[trigger] rem[t] == 0,
    ensures
        bp_long_div(rem, quo, d, inv, k, f).1.len() == rem.len(),
        forall|t: int| d.len() - 1 <= t < rem.len() ==> #[trigger] bp_long_div(rem, quo, d, inv, k, f).1[t] == 0,
    decreases k + 1,
{
    if k < 0 || k < d.len() - 1 {
    } else {
        let c = crate::field::model::gf_mul(rem[k], inv, f.p(), f.m(), f.f());
        lemma_bp_long_div_clears(bp_div_step(rem, d, k, c, f), quo.update(k - (d.len() - 1), c), d, inv, k - 1, f);
    }
}

/// Long division depends on the field only through its parameters.
proof fn lemma_bp_long_div_equiv(rem: Seq<nat>, quo: Seq<nat>, d: Seq<nat>, inv: nat, k: int, f1: BigGaloisField,
    f2: BigGaloisField)
    requires
        big_equiv(f1, f2),
    ensures
        bp_long_div(rem, quo, d, inv, k, f1) == bp_long_div(rem, quo, d, inv, k, f2),
    decreases k + 1,
{
    if k < 0 || k < d.len() - 1 {
    } else {
        let c = crate::field::model::gf_mul(rem[k], inv, f1.p(), f1.m(), f1.f());
        assert(bp_div_step(rem, d, k, c, f1) =~= bp_div_step(rem, d, k, c, f2));
        lemma_bp_long_div_equiv(bp_div_step(rem, d, k, c, f1), quo.update(k - (d.len() - 1), c), d, inv, k - 1, f1, f2);
    }
}

/// Division depends on the field only through its parameters.
pub proof fn lemma_bp_divmod_equiv(a: Seq<nat>, d: Seq<nat>, f1: BigGaloisField, f2: BigGaloisField)
    requires
        big_equiv(f1, f2),
    ensures
        bp_divmod(a, d, f1) == bp_divmod(a, d, f2),
        bp_monic(a, f1) == bp_monic(a, f2),
{
    let ar = a.reverse();
    let dr = d.reverse();
    assert(big_div_spec(f1, 1, dr.last()) == big_div_spec(f2, 1, dr.last()));
    lemma_bp_long_div_equiv(ar, Seq::new(bp_quo_len(ar, dr), |i: int| 0nat), dr, big_div_spec(f1, 1, dr.last()),
        ar.len() - 1, f1, f2);
    if a.len() > 0 {
        assert(big_div_spec(f1, 1, a[0]) == big_div_spec(f2, 1, a[0]));
        lemma_bp_ops_equiv(a, a, big_div_spec(f1, 1, a[0]), f1, f2);
    }
}

/// Stripping a reversed sequence whose entries at or above `l` vanish leaves at most
/// `max(l, 1)` coefficients.
proof fn lemma_bp_strip_rev_tail(s: Seq<nat>, l: int)
    requires
        s.len() >= 1,
        0 <= l,
        forall|t: int| l <= t < s.len() ==> #[trigger] s[t] == 0,
    ensures
        bp_strip(s.reverse()).len() <= (if l >= 1 { l } else { 1 }),
{
    let r = s.reverse();
    lemma_bp_strip(r);
    let t = bp_strip(r);
    if t.len() > (if l >= 1 { l } else { 1 }) {
        assert(t == r.subrange(r.len() - t.len(), r.len() as int));
        assert(t[0] == r[r.len() - t.len()]);
        assert(r[r.len() - t.len()] == s[t.len() - 1]);
        assert(t.len() - 1 >= l);
    }
}

/// The remainder of a division has the canonical shape and fewer coefficients than the
/// divisor unless it is zero.
pub proof fn lemma_bp_divmod(a: Seq<nat>, d: Seq<nat>, f: BigGaloisField)
    requires
        bp_shape(a),
        bp_shape(d),
        !bp_is_zero(d),
    ensures
        bp_shape(bp_divmod(a, d, f).1),
        bp_is_zero(bp_divmod(a, d, f).1) || bp_divmod(a, d, f).1.len() < d.len(),
{
    let ar = a.reverse();
    let dr = d.reverse();
    let q0 = Seq::new(bp_quo_len(ar, dr), |i: int| 0nat);
    let inv = big_div_spec(f, 1, dr.last());
    lemma_bp_long_div_clears(ar, q0, dr, inv, ar.len() - 1, f);
    let r = bp_long_div(ar, q0, dr, inv, ar.len() - 1, f);
    lemma_bp_strip_rev_tail(r.1, dr.len() - 1);
    lemma_bp_strip(r.1.reverse());
    let s = bp_strip(r.1.reverse());
    if !bp_is_zero(s) && s.len() >= d.len() {
        assert(d.len() == 1);
        assert(s.len() == 1);
    }
}

/// Monic greatest common divisor by Euclid's algorithm.
pub open spec fn bp_gcd(a: Seq<nat>, b: Seq<nat>, f: BigGaloisField) -> Seq<nat>
    decreases (if bp_is_zero(b) { 0 } else { b.len() }),
    when bp_shape(a) && bp_shape(b)
{
    if bp_is_zero(b) {
        bp_monic(a, f)
    } else {
        proof {
            lemma_bp_divmod(a, b, f);
        }
        bp_gcd(b, bp_divmod(a, b, f).1, f)
    }
}

/// Greatest common divisor by Euclid's algorithm, made monic; `PolynomialFieldMismatch`
/// for polynomials over fields of another characteristic or degree (when `b` is nonzero).
/// The arithmetic is that of `a`'s field.
pub fn big_poly_gcd(a: &BigPoly, b: &BigPoly) -> (r: Result<BigPoly>)
    requires
        a.wf(),
        b.wf(),
    ensures
        bp_is_zero(b.coeffs_view()) ==> (r matches Ok(g) && g.wf() && big_equiv(g.field_view(), a.field_view())
            && g.coeffs_view() == bp_monic(a.coeffs_view(), a.field_view())),
        !bp_is_zero(b.coeffs_view()) && !same_big_field(a.field_view(), b.field_view()) ==> r == Err::<BigPoly, GaloisError>(
            GaloisError::PolynomialFieldMismatch),
        !bp_is_zero(b.coeffs_view()) && same_big_field(a.field_view(), b.field_view()) ==> (r matches Ok(g) && g.wf()
            && big_equiv(g.field_view(), a.field_view())
            && g.coeffs_view() == bp_gcd(a.coeffs_view(), b.coeffs_view(), a.field_view())),
{
    let ghost f = a.field_view();
    let mut r0 = a.clone();
    if !b.is_zero() {
        let (fa, fb) = (a.field(), b.field());
        if fa.characteristic() != fb.characteristic() || fa.degree() != fb.degree() {
            return Err(GaloisError::PolynomialFieldMismatch);
        }
    }
    proof {
        a.field_view().lemma_wf_params();
        b.field_view().lemma_wf_params();
    }
    let bc = b.coeffs();
    let mut copy: Vec<BigValue> = Vec::new();
    let mut i: usize = 0;
    while i < bc.len()
        invariant
            b.wf(),
            values_of(bc@) == b.coeffs_view(),
            i <= bc@.len(),
            copy@.len() == i,
            forall|t: int| 0 <= t < i ==> (#[trigger] copy@[t]).value() == bc@[t].value(),
        decreases bc@.len() - i,
    {
        copy.push(bc[i].clone());
        i = i + 1;
    }
    assert(values_of(copy@) =~= b.coeffs_view());
    assert forall|t: int| 0 <= t < copy@.len() implies (#[trigger] copy@[t]).value() < a.field_view().q() by {
        assert(copy@[t].value() == b.coeffs_view()[t]);
        if !bp_is_zero(b.coeffs_view()) {
            assert(b.field_view().q() == a.field_view().q());
        }
    }
    let mut r1 = BigPoly::from_valid(copy, a.field().clone());
    let ghost target = if bp_is_zero(b.coeffs_view()) { bp_monic(a.coeffs_view(), f) }
        else { bp_gcd(a.coeffs_view(), b.coeffs_view(), f) };
    while !r1.is_zero()
        invariant
            a.wf(),
            f == a.field_view(),
            r0.wf(),
            r1.wf(),
            big_equiv(r0.field_view(), f),
            big_equiv(r1.field_view(), f),
            bp_is_zero(r1.coeffs_view()) ==> bp_monic(r0.coeffs_view(), f) == target,
            !bp_is_zero(r1.coeffs_view()) ==> bp_gcd(r0.coeffs_view(), r1.coeffs_view(), f) == target,
        decreases (if bp_is_zero(r1.coeffs_view()) { 0 } else { r1.coeffs_view().len() }),
    {
        proof {
            lemma_bp_divmod(r0.coeffs_view(), r1.coeffs_view(), f);
            lemma_bp_divmod_equiv(r0.coeffs_view(), r1.coeffs_view(), r0.field_view(), f);
        }
        let (_, rem) = match r0.divmod(&r1) {
            Ok(x) => x,
            Err(e) => { return Err(e); },
        };
        let ghost (c0, c1) = (r0.coeffs_view(), r1.coeffs_view());
        proof {
            assert(bp_shape(c0) && bp_shape(c1));
            assert(bp_shape(rem.coeffs_view()));
            assert(bp_gcd(c0, c1, f) == bp_gcd(c1, rem.coeffs_view(), f));
            if bp_is_zero(rem.coeffs_view()) {
                assert(bp_gcd(c1, rem.coeffs_view(), f) == bp_monic(c1, f));
            }
        }
        r0 = r1;
        r1 = rem;
    }
    proof { lemma_bp_divmod_equiv(r0.coeffs_view(), r0.coeffs_view(), r0.field_view(), f); }
    r0.make_monic()
}

/// Square-and-multiply accumulation of `res * base^e` modulo `m`.
pub open spec fn bp_pow_acc(res: Seq<nat>, base: Seq<nat>, e: nat, m: Seq<nat>, f: BigGaloisField) -> Seq<nat>
    decreases e,
{
    if e == 0 {
        res
    } else {
        let r2 = if e % 2 == 1 { bp_divmod(bp_mul(res, base, f), m, f).1 } else { res };
        bp_pow_acc(r2, bp_divmod(bp_mul(base, base, f), m, f).1, e / 2, m, f)
    }
}

/// `a^e mod m`.
pub open spec fn bp_modpow(a: Seq<nat>, e: nat, m: Seq<nat>, f: BigGaloisField) -> Seq<nat> {
    bp_pow_acc(seq![1nat], bp_divmod(a, m, f).1, e, m, f)
}

impl BigPoly {
    /// `self^exp mod modulus` by repeated squaring; the errors of `rem`.
    pub fn mod_pow(&self, exp: usize, modulus: &Self) -> (r: Result<Self>)
        requires
            self.wf(),
            modulus.wf(),
            modulus.coeffs_view().len() <= isize::MAX / 2,
        ensures
            !same_big_field(self.field_view(), modulus.field_view()) ==> r == Err::<Self, GaloisError>(
                GaloisError::PolynomialFieldMismatch),
            same_big_field(self.field_view(), modulus.field_view()) && bp_is_zero(modulus.coeffs_view()) ==>
                r == Err::<Self, GaloisError>(GaloisError::PolynomialDivisionByZero),
            same_big_field(self.field_view(), modulus.field_view()) && !bp_is_zero(modulus.coeffs_view()) ==> (r matches Ok(x)
                && x.wf() && big_equiv(x.field_view(), self.field_view())
                && x.coeffs_view() == bp_modpow(self.coeffs_view(), exp as nat, modulus.coeffs_view(), self.field_view())),
    {
        let field = self.field().clone();
        let mut result = BigPoly::one(field);
        let mut base = match self.rem(modulus) {
            Ok(b) => b,
            Err(e) => { return Err(e); },
        };
        let ghost f = self.field_view();
        let ghost m = modulus.coeffs_view();
        proof { lemma_bp_divmod(self.coeffs_view(), m, f); }
        let mut e = exp;
        while e > 0
            invariant
                self.wf(),
                modulus.wf(),
                m == modulus.coeffs_view(),
                m.len() <= isize::MAX / 2,
                !bp_is_zero(m),
                f == self.field_view(),
                same_big_field(self.field_view(), modulus.field_view()),
                result.wf(),
                base.wf(),
                big_equiv(result.field_view(), f),
                big_equiv(base.field_view(), f),
                result.coeffs_view().len() <= m.len(),
                base.coeffs_view().len() <= m.len(),
                bp_pow_acc(result.coeffs_view(), base.coeffs_view(), e as nat, m, f)
                    == bp_modpow(self.coeffs_view(), exp as nat, m, f),
            decreases e,
        {
            let ghost (r0, b0) = (result.coeffs_view(), base.coeffs_view());
            if e % 2 == 1 {
                let prod = match result.mul(&base) {
                    Ok(x) => x,
                    Err(err) => { return Err(err); },
                };
                proof {
                    lemma_bp_ops_equiv(r0, b0, 0, result.field_view(), f);
                    lemma_bp_divmod(prod.coeffs_view(), m, f);
                    lemma_bp_divmod_equiv(prod.coeffs_view(), m, prod.field_view(), f);
                }
                result = match prod.rem(modulus) {
                    Ok(x) => x,
                    Err(err) => { return Err(err); },
                };
            }
            let sq = match base.mul(&base) {
                Ok(x) => x,
                Err(err) => { return Err(err); },
            };
            proof {
                lemma_bp_ops_equiv(b0, b0, 0, base.field_view(), f);
                lemma_bp_divmod(sq.coeffs_view(), m, f);
                lemma_bp_divmod_equiv(sq.coeffs_view(), m, sq.field_view(), f);
            }
            base = match sq.rem(modulus) {
                Ok(x) => x,
                Err(err) => { return Err(err); },
            };
            e = e / 2;
        }
        Ok(result)
    }
}

} // verus!
