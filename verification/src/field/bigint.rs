//! Orders beyond 64 bits, and coefficient arithmetic that does not depend on them.

use vstd::prelude::*;
use crate::arith::{npow, lemma_npow_zero, lemma_npow_positive};
use crate::field::model::{lemma_npow_le, lemma_npow_succ};
use crate::poly::prime::{PrimePoly, conv_sum, mul_coeffs};
use crate::field::factory::GaloisField;
use crate::field::bignum::{BigValue, limbs_add, limbs_divrem_u64, limbs_less, limbs_mul, limbs_mul_u64, limbs_pow_u64, limbs_sub};
use vstd::arithmetic::power::pow;
use crate::field::model::{digits, from_digits, lemma_div_step};
use crate::error::GaloisError;

verus! {

/// Whether `p^m` fits a `u64`.
pub fn order_fits_u64(p: u64, m: u32) -> (r: bool)
    ensures
        r == (npow(p as nat, m as nat) <= u64::MAX),
{
    let mut acc: u64 = 1;
    let mut i: u32 = 0;
    proof { lemma_npow_zero(p as nat); }
    while i < m
        invariant
            i <= m,
            acc == npow(p as nat, i as nat),
        decreases m - i,
    {
        proof { lemma_npow_succ(p as nat, i as nat); }
        match acc.checked_mul(p) {
            Some(v) => {
                acc = v;
                i = i + 1;
            },
            None => {
                proof {
                    assert(p >= 2) by (nonlinear_arith)
                        requires acc * p > 0xffff_ffff_ffff_ffffint, acc <= 0xffff_ffff_ffff_ffffint, p >= 0, acc >= 0;
                    lemma_npow_le(p as nat, (i + 1) as nat, m as nat);
                }
                return false;
            },
        }
    }
    true
}

/// Whether `p^m` exceeds a `u64`.
pub fn needs_bigint(p: u64, m: u32) -> (r: bool)
    ensures
        r == (npow(p as nat, m as nat) > u64::MAX),
{
    !order_fits_u64(p, m)
}

impl GaloisField {
    /// Whether the order of this field exceeds a `u64`; never for a field that was built.
    pub fn needs_bigint(&self) -> (r: bool)
        requires
            self.params_ok(),
        ensures
            r == (npow(self.p(), self.m()) > u64::MAX),
            !r,
    {
        let q = self.order();
        assert(q == npow(self.p(), self.m()));
        needs_bigint(self.characteristic(), self.degree())
    }
}

/// Schoolbook product of two coefficient sequences (lowest degree first) modulo `p`.
pub fn big_mul_polynomials(a: &[u64], b: &[u64], p: u64) -> (r: Vec<u64>)
    requires
        p >= 1,
        a@.len() + b@.len() >= 1,
        a@.len() + b@.len() <= isize::MAX + 1,
    ensures
        r@ == Seq::new((a@.len() + b@.len() - 1) as nat, |k: int| (conv_sum(a@, b@, k, a@.len() as int) % (p as int)) as u64),
{
    mul_coeffs(a, b, p)
}

/// One step of reducing `work` (lowest degree first) by `f`: when the top coefficient `c`
/// is nonzero, subtract `c f x^(deg - m)` modulo `p` from the positions that exist; then
/// drop the top position.
pub open spec fn reduce_step(work: Seq<u64>, f: Seq<u64>, p: nat, m: nat) -> Seq<u64> {
    let deg = work.len() - 1;
    let c = work[deg] as nat;
    let shift = deg - m;
    Seq::new((work.len() - 1) as nat, |idx: int|
        if c != 0 && shift <= idx < shift + f.len() {
            ((work[idx] as int + p - ((c * (f[idx - shift] as nat)) as int) % (p as int)) % (p as int)) as u64
        } else {
            work[idx]
        })
}

/// Reduces `work` step by step until at most `m` positions are left.
pub open spec fn reduce_all(work: Seq<u64>, f: Seq<u64>, p: nat, m: nat) -> Seq<u64>
    decreases work.len(),
{
    if work.len() <= m || work.len() == 0 {
        work
    } else {
        reduce_all(reduce_step(work, f, p, m), f, p, m)
    }
}

/// `poly` reduced by the monic polynomial of the field, padded with zeros to `m`
/// coefficients (lowest degree first).
pub fn big_reduce_polynomial(poly: &[u64], p: u64, m: u32, irreducible: &PrimePoly) -> (r: Vec<u64>)
    requires
        p >= 1,
    ensures
        r@ == {
            let red = reduce_all(poly@, irreducible.coeffs_view(), p as nat, m as nat);
            red + Seq::new((m - red.len()) as nat, |i: int| 0u64)
        },
{
    let m = m as usize;
    let f = irreducible.coeffs();
    let mut work: Vec<u64> = Vec::new();
    let mut t: usize = 0;
    while t < poly.len()
        invariant
            t <= poly@.len(),
            work@ =~= poly@.subrange(0, t as int),
        decreases poly@.len() - t,
    {
        work.push(poly[t]);
        t = t + 1;
    }
    assert(work@ =~= poly@);
    while work.len() > m
        invariant
            p >= 1,
            f@ == irreducible.coeffs_view(),
            reduce_all(work@, f@, p as nat, m as nat) == reduce_all(poly@, f@, p as nat, m as nat),
        decreases work@.len(),
    {
        let ghost before = work@;
        let deg = work.len() - 1;
        let coeff = work[deg];
        if coeff != 0 {
            let shift = deg - m;
            let mut i: usize = 0;
            while i < f.len()
                invariant
                    p >= 1,
                    deg == before.len() - 1,
                    coeff == before[deg as int],
                    shift == deg - m,
                    coeff != 0,
                    i <= f@.len(),
                    work@.len() == before.len(),
                    forall|idx: int| 0 <= idx < work@.len() ==> #[trigger] work@[idx] ==
                        if shift <= idx < shift + i {
                            ((before[idx] as int + p - ((coeff as nat * (f@[idx - shift] as nat)) as int) % (p as int)) % (p as int)) as u64
                        } else {
                            before[idx]
                        },
                decreases f@.len() - i,
            {
                if i <= deg - shift {
                    let idx = shift + i;
                    proof {
                        assert((coeff as int) * (f@[i as int] as int) <= 0xffff_ffff_ffff_ffffint * 0xffff_ffff_ffff_ffffint) by (nonlinear_arith)
                            requires coeff <= 0xffff_ffff_ffff_ffffint, f@[i as int] <= 0xffff_ffff_ffff_ffffint, coeff >= 0, f@[i as int] >= 0;
                    }
                    let prod: u128 = (coeff as u128) * (f[i] as u128) % (p as u128);
                    let v: u128 = ((work[idx] as u128) + (p as u128) - prod) % (p as u128);
                    work.set(idx, v as u64);
                }
                i = i + 1;
            }
        }
        work.pop();
        proof {
            assert(work@ =~= reduce_step(before, f@, p as nat, m as nat));
        }
    }
    let red_len = work.len();
    while work.len() < m
        invariant
            red_len <= work@.len() <= m,
            work@.subrange(0, red_len as int) == reduce_all(poly@, f@, p as nat, m as nat),
            forall|i: int| red_len <= i < work@.len() ==> #[trigger] work@[i] == 0u64,
        decreases m - work@.len(),
    {
        work.push(0);
    }
    proof {
        let red = reduce_all(poly@, f@, p as nat, m as nat);
        assert(work@ =~= red + Seq::new((m - red.len()) as nat, |i: int| 0u64));
    }
    work
}


/// The first `m` base-`p` digits of `v`, least significant first.
pub fn big_int_to_coeffs(v: &BigValue, p: u64, m: u32) -> (r: Vec<u64>)
    requires
        p > 0,
    ensures
        r@ == digits(v.value(), p as nat, m as nat),
{
    let m = m as usize;
    let mut out: Vec<u64> = Vec::new();
    let mut val = v.clone();
    let mut i: usize = 0;
    proof { lemma_npow_zero(p as nat); }
    while i < m
        invariant
            p > 0,
            i <= m,
            val.value() == v.value() / npow(p as nat, i as nat),
            out@ =~= digits(v.value(), p as nat, m as nat).subrange(0, i as int),
        decreases m - i,
    {
        let (quo, rem) = limbs_divrem_u64(&val, p);
        proof {
            vstd::arithmetic::div_mod::lemma_fundamental_div_mod_converse(val.value() as int, p as int,
                quo.value() as int, rem as int);
            lemma_div_step(v.value(), p as nat, i as nat);
        }
        out.push(rem);
        val = quo;
        i = i + 1;
    }
    out
}

/// The value of base-`p` digits, least significant first.
pub fn big_coeffs_to_int(coeffs: &[u64], p: u64) -> (r: BigValue)
    ensures
        r.value() == from_digits(coeffs@, p as nat),
{
    let mut value = BigValue::from_u64(0);
    let mut power = BigValue::from_u64(1);
    let mut i: usize = 0;
    proof {
        lemma_npow_zero(p as nat);
        assert(coeffs@.subrange(0, 0) =~= Seq::<u64>::empty());
    }
    while i < coeffs.len()
        invariant
            i <= coeffs@.len(),
            power.value() == npow(p as nat, i as nat),
            value.value() == from_digits(coeffs@.subrange(0, i as int), p as nat),
        decreases coeffs@.len() - i,
    {
        let ghost next = coeffs@.subrange(0, i + 1);
        assert(next.drop_last() =~= coeffs@.subrange(0, i as int));
        let term = limbs_mul_u64(&power, coeffs[i]);
        value = limbs_add(&value, &term);
        power = limbs_mul_u64(&power, p);
        proof {
            lemma_npow_succ(p as nat, i as nat);
            assert(term.value() == coeffs@[i as int] as nat * npow(p as nat, i as nat)) by (nonlinear_arith)
                requires term.value() == npow(p as nat, i as nat) * coeffs@[i as int];
        }
        i = i + 1;
    }
    assert(coeffs@.subrange(0, coeffs@.len() as int) =~= coeffs@);
    value
}

/// The order `p^m` of GF(p^m), of any size.
pub fn field_order_big(p: u64, m: u32) -> (r: BigValue)
    ensures
        r.value() == npow(p as nat, m as nat),
{
    limbs_pow_u64(p, m)
}

/// `InvalidElement` (the value, or `u64::MAX` when it does not fit; characteristic and
/// degree zero) unless `value < order`.
pub fn validate_big_element(value: &BigValue, order: &BigValue) -> (r: crate::error::Result<()>)
    ensures
        value.value() < order.value() ==> r is Ok,
        value.value() >= order.value() ==> r == Err::<(), GaloisError>(GaloisError::InvalidElement {
            value: if value.value() <= u64::MAX { value.value() as u64 } else { u64::MAX },
            characteristic: 0, degree: 0 }),
{
    if !limbs_less(value, order) {
        let v = match value.to_u64() {
            Some(v) => v,
            None => u64::MAX,
        };
        return Err(GaloisError::InvalidElement { value: v, characteristic: 0, degree: 0 });
    }
    Ok(())
}


/// A field element that may exceed the `u64` range.
pub enum FieldValue {
    Small(u64),
    Large(BigValue),
}

impl FieldValue {
    /// The number this value stands for.
    pub open spec fn value(&self) -> nat {
        match self {
            FieldValue::Small(v) => *v as nat,
            FieldValue::Large(b) => b.value(),
        }
    }

    pub fn from_u64(v: u64) -> (r: Self)
        ensures
            r == FieldValue::Small(v),
    {
        FieldValue::Small(v)
    }

    /// `Small` when the value fits in 64 bits, `Large` otherwise.
    pub fn from_big(v: BigValue) -> (r: Self)
        ensures
            r.value() == v.value(),
            (r is Small) == (v.value() <= u64::MAX),
    {
        match v.to_u64() {
            Some(s) => FieldValue::Small(s),
            None => FieldValue::Large(v),
        }
    }

    /// The value as a `u64` when it fits.
    pub fn as_u64(&self) -> (r: Option<u64>)
        ensures
            self.value() <= u64::MAX ==> r == Some(self.value() as u64),
            self.value() > u64::MAX ==> r is None,
    {
        match self {
            FieldValue::Small(v) => Some(*v),
            FieldValue::Large(b) => b.to_u64(),
        }
    }

    /// The value as a `BigValue`.
    pub fn to_biguint(&self) -> (r: BigValue)
        ensures
            r.value() == self.value(),
    {
        match self {
            FieldValue::Small(v) => BigValue::from_u64(*v),
            FieldValue::Large(b) => b.clone(),
        }
    }
}

impl Clone for FieldValue {
    fn clone(&self) -> (r: Self)
        ensures
            r.value() == self.value(),
    {
        match self {
            FieldValue::Small(v) => FieldValue::Small(*v),
            FieldValue::Large(b) => FieldValue::Large(b.clone()),
        }
    }
}

/// `v mod p`.
fn reduce_value(v: &BigValue, p: u64) -> (r: FieldValue)
    requires
        p > 0,
    ensures
        r.value() == v.value() % (p as nat),
        r.value() < p,
{
    let (q, rem) = limbs_divrem_u64(v, p);
    proof {
        vstd::arithmetic::div_mod::lemma_fundamental_div_mod_converse(v.value() as int, p as int, q.value() as int, rem as int);
    }
    FieldValue::Small(rem)
}

/// `(a + b) mod p`.
pub fn big_add(a: &FieldValue, b: &FieldValue, p: u64) -> (r: FieldValue)
    requires
        p > 0,
    ensures
        r.value() == (a.value() + b.value()) % (p as nat),
{
    let s = limbs_add(&a.to_biguint(), &b.to_biguint());
    reduce_value(&s, p)
}

/// `(a + p - b) mod p`; `b` is at most `a + p`.
pub fn big_sub(a: &FieldValue, b: &FieldValue, p: u64) -> (r: FieldValue)
    requires
        p > 0,
        b.value() <= a.value() + p,
    ensures
        r.value() == (a.value() + p - b.value()) % (p as int),
{
    let s = limbs_add(&a.to_biguint(), &BigValue::from_u64(p));
    let d = limbs_sub(&s, &b.to_biguint());
    reduce_value(&d, p)
}

/// `-a mod p` for `a <= p`: zero for zero, `p - a` otherwise.
pub fn big_neg(a: &FieldValue, p: u64) -> (r: FieldValue)
    requires
        a.value() <= p,
    ensures
        r.value() == (if a.value() == 0 { 0 } else { p - a.value() }),
{
    let av = a.to_biguint();
    if av.is_zero() {
        return FieldValue::from_u64(0);
    }
    FieldValue::from_big(limbs_sub(&BigValue::from_u64(p), &av))
}

/// `(a * b) mod p`.
pub fn big_mul(a: &FieldValue, b: &FieldValue, p: u64) -> (r: FieldValue)
    requires
        p > 0,
    ensures
        r.value() == (a.value() * b.value()) % (p as nat),
        r.value() < p,
{
    let s = limbs_mul(&a.to_biguint(), &b.to_biguint());
    reduce_value(&s, p)
}

/// One square-and-multiply step keeps `r * b^e mod p`.
proof fn lemma_pow_step(r: int, b: int, e: nat, p: int)
    requires
        p > 0,
    ensures
        e % 2 == 1 ==> ((r * b) % p * pow((b * b) % p, e / 2)) % p == (r * pow(b, e)) % p,
        e % 2 == 0 ==> (r * pow((b * b) % p, e / 2)) % p == (r * pow(b, e)) % p,
{
    let k = e / 2;
    let bb = b * b;
    let pk = pow(bb, k);
    vstd::arithmetic::power::lemma_square_is_pow2(b);
    vstd::arithmetic::power::lemma_pow_multiplies(b, 2, k);
    vstd::arithmetic::power::lemma_pow_adds(b, 2 * k, e % 2);
    assert(e == 2 * k + e % 2);
    vstd::arithmetic::power::lemma_pow_mod_noop(bb, k, p);
    let pm = pow(bb % p, k);
    assert(pm % p == pk % p);
    if e % 2 == 1 {
        vstd::arithmetic::power::lemma_pow1(b);
        assert(pow(b, e) == pk * b);
        vstd::arithmetic::div_mod::lemma_mul_mod_noop_left(r * b, pm, p);
        vstd::arithmetic::div_mod::lemma_mul_mod_noop_right(r * b, pm, p);
        vstd::arithmetic::div_mod::lemma_mul_mod_noop_right(r * b, pk, p);
        assert((r * b) * pk == r * (pk * b)) by (nonlinear_arith);
    } else {
        vstd::arithmetic::power::lemma_pow0(b);
        assert(pow(b, e) == pk);
        vstd::arithmetic::div_mod::lemma_mul_mod_noop_right(r, pm, p);
        vstd::arithmetic::div_mod::lemma_mul_mod_noop_right(r, pk, p);
    }
}

/// `a^exp mod p` by square-and-multiply; one for `exp = 0`.
pub fn big_pow(a: &FieldValue, exp: u64, p: u64) -> (r: FieldValue)
    requires
        p > 0,
    ensures
        r.value() == (if exp == 0 { 1 } else { (pow(a.value() as int, exp as nat) % (p as int)) as nat }),
{
    let mut result = FieldValue::from_u64(1);
    let mut base = a.clone();
    let mut e = exp;
    proof {
        let pa = pow(a.value() as int, exp as nat);
        assert(1int * pa == pa);
        assert(result.value() == 1 && base.value() == a.value());
    }
    while e > 0
        invariant
            p > 0,
            (result.value() as int * pow(base.value() as int, e as nat)) % (p as int) == pow(a.value() as int, exp as nat) % (p as int),
            e == exp ==> result.value() == 1 && base.value() == a.value(),
            e == 0 ==> (exp == 0 || result.value() < p),
            e <= exp,
        decreases e,
    {
        proof { lemma_pow_step(result.value() as int, base.value() as int, e as nat, p as int); }
        if e % 2 == 1 {
            result = big_mul(&result, &base, p);
        }
        base = big_mul(&base, &base, p);
        e = e / 2;
    }
    proof {
        if exp > 0 {
            vstd::arithmetic::power::lemma_pow0(base.value() as int);
            vstd::arithmetic::div_mod::lemma_small_mod(result.value(), p as nat);
        }
    }
    result
}

/// `a / b` over GF(p) as `a * b^(p-2) mod p`, which is zero for `b = 0`.
pub fn big_div(a: &FieldValue, b: &FieldValue, p: u64) -> (r: FieldValue)
    requires
        p >= 2,
    ensures
        r.value() == (a.value() * (if p == 2 { 1 } else { (pow(b.value() as int, (p - 2) as nat) % (p as int)) as nat }))
            % (p as nat),
{
    let inv = big_pow(b, p - 2, p);
    big_mul(a, &inv, p)
}

/// The product of `a` and `b` in GF(p^m) as the schoolbook product of their
/// first `m` base-`p` digits, reduced by `reduce_all` and padded to `m` digits.
pub open spec fn mul_ext_value(a: nat, b: nat, p: nat, m: nat, f: Seq<u64>) -> nat {
    let ac = digits(a, p, m);
    let bc = digits(b, p, m);
    let prod = Seq::new((ac.len() + bc.len() - 1) as nat, |k: int| (conv_sum(ac, bc, k, ac.len() as int) % (p as int)) as u64);
    let red = reduce_all(prod, f, p, m);
    from_digits(red + Seq::new((m - red.len()) as nat, |i: int| 0u64), p)
}

/// The product of `a` and `b` in GF(p^m) built with `irreducible`.
pub fn big_mul_ext(a: &FieldValue, b: &FieldValue, p: u64, m: u32, irreducible: &PrimePoly) -> (r: FieldValue)
    requires
        p >= 1,
        1 <= m < 0x3fff_ffff,
    ensures
        r.value() == mul_ext_value(a.value(), b.value(), p as nat, m as nat, irreducible.coeffs_view()),
{
    let ac = big_int_to_coeffs(&a.to_biguint(), p, m);
    let bc = big_int_to_coeffs(&b.to_biguint(), p, m);
    let product = big_mul_polynomials(ac.as_slice(), bc.as_slice(), p);
    let reduced = big_reduce_polynomial(product.as_slice(), p, m, irreducible);
    FieldValue::from_big(big_coeffs_to_int(reduced.as_slice(), p))
}

} // verus!
