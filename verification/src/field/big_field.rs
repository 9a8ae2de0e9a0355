//! GF(p^m) whose order may exceed 64 bits: elements are `BigValue`s whose base-`p` digits
//! are the coefficients of a polynomial reduced modulo the irreducible polynomial.

use vstd::prelude::*;
use crate::arith::{is_prime_spec, npow};
use crate::conway::sparse_to_dense;
use crate::error::{GaloisError, Result};
use crate::field::factory::{GaloisField, new_contract};
use crate::field::element::{FieldElement, same_field};
use crate::field::bignum::{BigValue, limbs_divrem_u64, limbs_pow_u64, limbs_sub_u64};
use crate::field::bigint::{big_int_to_coeffs, big_coeffs_to_int, validate_big_element};
use crate::field::model::{digits, op_digits, from_digits, gf_add, gf_sub, gf_neg, gf_mul, gf_pow_sq,
    lemma_digits_bound};
use crate::poly::integer::strip_trailing;
use crate::poly::prime::{PrimePoly, zp_mulmod, reduce_coeffs, lemma_strip_props};

verus! {

/// GF(p^m) with arbitrary-precision elements.
pub struct BigGaloisField {
    characteristic: u64,
    degree: u32,
    order: BigValue,
    irreducible: PrimePoly,
}


/// What `BigGaloisField::new_uncached(p, m, row)` returns.
pub open spec fn big_new_contract(p: u64, m: u32, row: Result<(Vec<u32>, Vec<u64>)>, r: Result<BigGaloisField>) -> bool {
    &&& m == 0 ==> r == Err::<BigGaloisField, GaloisError>(GaloisError::InvalidDegree(0))
    &&& m > 0 && !is_prime_spec(p as nat) ==> r == Err::<BigGaloisField, GaloisError>(GaloisError::InvalidCharacteristic(p))
    &&& m == 1 && is_prime_spec(p as nat) ==> (r matches Ok(f) && f.wf() && f.p() == p && f.m() == 1
        && f.f() == seq![0u64, 1u64])
    &&& m > 1 && is_prime_spec(p as nat) ==> match row {
        Err(e) => r == Err::<BigGaloisField, GaloisError>(e),
        Ok((degrees, coeffs)) => {
            let f = strip_trailing(reduce_coeffs(crate::conway::sparse_to_dense_spec(degrees@, coeffs@, m as nat), p as nat));
            &&& f.len() == m + 1 ==> (r matches Ok(g) && g.wf() && g.p() == p && g.m() == m && g.f() == f)
            &&& f.len() != m + 1 ==> r == Err::<BigGaloisField, GaloisError>(GaloisError::ReduciblePolynomial { characteristic: p })
        },
    }
}

impl BigGaloisField {
    pub closed spec fn p(&self) -> nat {
        self.characteristic as nat
    }

    pub closed spec fn m(&self) -> nat {
        self.degree as nat
    }

    pub closed spec fn q(&self) -> nat {
        self.order.value()
    }

    /// Ascending coefficients of the irreducible polynomial.
    pub closed spec fn f(&self) -> Seq<u64> {
        self.irreducible.coeffs_view()
    }

    /// A prime characteristic, a degree `m >= 1`, the order `p^m`, and a polynomial of
    /// degree exactly `m` over GF(p).
    pub closed spec fn wf(&self) -> bool {
        &&& is_prime_spec(self.p())
        &&& 1 <= self.m() < 0x3fff_ffff
        &&& self.q() == npow(self.p(), self.m())
        &&& self.irreducible.wf()
        &&& self.irreducible.prime() == self.characteristic
        &&& self.f().len() == self.m() + 1
    }

    /// GF(p^m) with the irreducible polynomial `x` for `m = 1` and otherwise the one that
    /// `row` holds (its sparse degrees and coefficients, as the database of irreducible
    /// polynomials answers for `(p, m)`): `InvalidDegree(0)` for `m = 0`,
    /// `InvalidCharacteristic` for a `p` that is not prime, the error in `row` when it holds
    /// one, and `ReduciblePolynomial` when its polynomial does not have degree `m` over GF(p).
    pub fn new_uncached(p: u64, m: u32, row: Result<(Vec<u32>, Vec<u64>)>) -> (r: Result<Self>)
        requires
            m < 0x3fff_ffff,
        ensures
            big_new_contract(p, m, row, r),
    {
        if m == 0 {
            return Err(GaloisError::InvalidDegree(0));
        }
        if !crate::prime::is_prime(p) {
            return Err(GaloisError::InvalidCharacteristic(p));
        }
        let order = limbs_pow_u64(p, m);
        let irreducible = if m == 1 {
            let x = PrimePoly::from_parts(p, vec![0, 1]);
            proof {
                assert(reduce_coeffs(seq![0u64, 1u64], p as nat) =~= seq![0u64, 1u64]) by {
                    vstd::arithmetic::div_mod::lemma_small_mod(1, p as nat);
                    vstd::arithmetic::div_mod::lemma_small_mod(0, p as nat);
                }
                assert(strip_trailing(seq![0u64, 1u64]) == seq![0u64, 1u64]);
            }
            x
        } else {
            let (degrees, coeffs) = match row {
                Ok(v) => v,
                Err(e) => { return Err(e); },
            };
            let dense = sparse_to_dense(degrees.as_slice(), coeffs.as_slice(), m);
            let f = PrimePoly::from_parts(p, dense);
            if f.coeffs().len() != m as usize + 1 {
                return Err(GaloisError::ReduciblePolynomial { characteristic: p });
            }
            f
        };
        Ok(BigGaloisField { characteristic: p, degree: m, order, irreducible })
    }

    pub fn characteristic(&self) -> (r: u64)
        ensures
            r == self.p(),
    {
        self.characteristic
    }

    pub fn degree(&self) -> (r: u32)
        ensures
            r == self.m(),
    {
        self.degree
    }

    /// The order `p^m`.
    pub fn order(&self) -> (r: &BigValue)
        ensures
            r.value() == self.q(),
    {
        &self.order
    }

    pub fn irreducible_poly(&self) -> (r: &PrimePoly)
        ensures
            r.coeffs_view() == self.f(),
            self.wf() ==> r.wf() && r.prime() == self.p(),
    {
        &self.irreducible
    }

    /// `value` when it is an element; otherwise `InvalidElement` with the value (`u64::MAX`
    /// when it does not fit) and characteristic and degree zero.
    pub fn validate(&self, value: &BigValue) -> (r: Result<BigValue>)
        ensures
            value.value() < self.q() ==> (r matches Ok(v) && v.value() == value.value()),
            value.value() >= self.q() ==> r == Err::<BigValue, GaloisError>(GaloisError::InvalidElement {
                value: if value.value() <= u64::MAX { value.value() as u64 } else { u64::MAX },
                characteristic: 0, degree: 0 }),
    {
        match validate_big_element(value, &self.order) {
            Ok(()) => Ok(value.clone()),
            Err(e) => Err(e),
        }
    }

}


impl BigGaloisField {
    /// Coefficientwise combination of the digits of `a` and `b`: sum (`mode` 0), difference
    /// (1) or negation of `a` (2), each modulo `p`.
    fn digitwise(&self, a: &BigValue, b: &BigValue, mode: u8) -> (r: BigValue)
        requires
            self.wf(),
            mode <= 2,
        ensures
            r.value() == from_digits(op_digits(a.value(), b.value(), self.p(), self.m(), mode as nat), self.p()),
            r.value() < self.q(),
    {
        let p = self.characteristic;
        let m = self.degree as usize;
        let ac = big_int_to_coeffs(a, self.characteristic, self.degree);
        let bc = big_int_to_coeffs(b, self.characteristic, self.degree);
        proof {
            lemma_digits_bound(a.value(), p as nat, m as nat);
            lemma_digits_bound(b.value(), p as nat, m as nat);
        }
        let ghost target = op_digits(a.value(), b.value(), p as nat, m as nat, mode as nat);
        let mut out: Vec<u64> = Vec::new();
        let mut i: usize = 0;
        while i < m
            invariant
                p >= 2,
                i <= m,
                m == self.m(),
                p == self.p(),
                mode <= 2,
                ac@ == digits(a.value(), p as nat, m as nat),
                bc@ == digits(b.value(), p as nat, m as nat),
                forall|t: int| 0 <= t < m ==> (#[trigger] ac@[t]) < p && bc@[t] < p,
                target == op_digits(a.value(), b.value(), p as nat, m as nat, mode as nat),
                out@ =~= target.subrange(0, i as int),
            decreases m - i,
        {
            let x = ac[i];
            let y = bc[i];
            let d: u64 = if mode == 0 {
                (((x as u128) + (y as u128)) % (p as u128)) as u64
            } else if mode == 1 {
                (((x as u128) + (p as u128) - (y as u128)) % (p as u128)) as u64
            } else {
                (p - x) % p
            };
            out.push(d);
            i = i + 1;
        }
        proof {
            assert(out@ =~= target);
            crate::field::model::lemma_op_digits_bound(a.value(), b.value(), p as nat, m as nat, mode as nat);
            crate::field::model::lemma_from_digits_bound(out@, p as nat);
        }
        big_coeffs_to_int(out.as_slice(), self.characteristic)
    }

    /// `a + b`: the digits added modulo `p`.
    pub fn add(&self, a: &BigValue, b: &BigValue) -> (r: BigValue)
        requires
            self.wf(),
        ensures
            r.value() == gf_add(a.value(), b.value(), self.p(), self.m()),
            r.value() < self.q(),
    {
        self.digitwise(a, b, 0)
    }

    /// `a - b`: the digits subtracted modulo `p`.
    pub fn sub(&self, a: &BigValue, b: &BigValue) -> (r: BigValue)
        requires
            self.wf(),
        ensures
            r.value() == gf_sub(a.value(), b.value(), self.p(), self.m()),
            r.value() < self.q(),
    {
        self.digitwise(a, b, 1)
    }

    /// `-a`: the digits negated modulo `p`. Over a prime field `a` is at most `p`.
    pub fn neg(&self, a: &BigValue) -> (r: BigValue)
        requires
            self.wf(),
            self.m() == 1 ==> a.value() <= self.p(),
        ensures
            r.value() == gf_neg(a.value(), self.p(), self.m()),
            r.value() < self.q(),
    {
        let zero = BigValue::from_u64(0);
        self.digitwise(a, &zero, 2)
    }

    /// `a * b`: residues multiplied modulo `p` when `m = 1`, otherwise the product of the
    /// element polynomials reduced modulo the irreducible polynomial.
    pub fn mul(&self, a: &BigValue, b: &BigValue) -> (r: BigValue)
        requires
            self.wf(),
        ensures
            r.value() == gf_mul(a.value(), b.value(), self.p(), self.m(), self.f()),
            r.value() < self.q(),
    {
        let p = self.characteristic;
        if self.degree == 1 {
            let (qa, x) = limbs_divrem_u64(a, p);
            let (qb, y) = limbs_divrem_u64(b, p);
            let v = crate::prime::mul_mod(x, y, p);
            proof {
                crate::arith::lemma_npow_one(p as nat);
                vstd::arithmetic::div_mod::lemma_fundamental_div_mod_converse(a.value() as int, p as int, qa.value() as int, x as int);
                vstd::arithmetic::div_mod::lemma_fundamental_div_mod_converse(b.value() as int, p as int, qb.value() as int, y as int);
                vstd::arithmetic::div_mod::lemma_mul_mod_noop(a.value() as int, b.value() as int, p as int);
            }
            return BigValue::from_u64(v);
        }
        let ac = big_int_to_coeffs(a, self.characteristic, self.degree);
        let bc = big_int_to_coeffs(b, self.characteristic, self.degree);
        let pa = PrimePoly::from_parts(p, ac);
        let pb = PrimePoly::from_parts(p, bc);
        proof {
            lemma_digits_bound(a.value(), p as nat, self.m());
            lemma_digits_bound(b.value(), p as nat, self.m());
            assert(reduce_coeffs(ac@, p as nat) =~= ac@) by {
                assert forall|i: int| 0 <= i < ac@.len() implies #[trigger] reduce_coeffs(ac@, p as nat)[i] == ac@[i] by {
                    vstd::arithmetic::div_mod::lemma_small_mod(ac@[i] as nat, p as nat);
                }
            }
            assert(reduce_coeffs(bc@, p as nat) =~= bc@) by {
                assert forall|i: int| 0 <= i < bc@.len() implies #[trigger] reduce_coeffs(bc@, p as nat)[i] == bc@[i] by {
                    vstd::arithmetic::div_mod::lemma_small_mod(bc@[i] as nat, p as nat);
                }
            }
            lemma_strip_props(ac@);
            lemma_strip_props(bc@);
            lemma_strip_props(self.f());
        }
        let prod = pa.mulmod(&pb, &self.irreducible);
        proof {
            crate::field::model::lemma_from_digits_bound(prod.coeffs_view(), p as nat);
            crate::field::model::lemma_npow_le(p as nat, prod.coeffs_view().len(), self.m());
        }
        big_coeffs_to_int(prod.coeffs(), self.characteristic)
    }
}


impl BigGaloisField {
    /// `base^exp` by repeated squaring.
    pub fn pow(&self, base: &BigValue, exp: u64) -> (r: BigValue)
        requires
            self.wf(),
        ensures
            r.value() == gf_pow_sq(base.value(), exp as nat, self.p(), self.m(), self.f()),
            r.value() < self.q(),
        decreases exp,
    {
        if exp == 0 {
            proof { self.lemma_q_ge_2(); }
            return BigValue::from_u64(1);
        }
        let half = self.pow(base, exp / 2);
        let r2 = self.mul(&half, &half);
        if exp % 2 == 1 {
            self.mul(&r2, base)
        } else {
            r2
        }
    }

    /// `base^exp` by repeated squaring, for an exponent of any size.
    pub fn pow_big(&self, base: &BigValue, exp: &BigValue) -> (r: BigValue)
        requires
            self.wf(),
        ensures
            r.value() == gf_pow_sq(base.value(), exp.value(), self.p(), self.m(), self.f()),
            r.value() < self.q(),
        decreases exp.value(),
    {
        if exp.is_zero() {
            proof { self.lemma_q_ge_2(); }
            return BigValue::from_u64(1);
        }
        let (half_exp, bit) = limbs_divrem_u64(exp, 2);
        proof {
            vstd::arithmetic::div_mod::lemma_fundamental_div_mod_converse(exp.value() as int, 2, half_exp.value() as int, bit as int);
        }
        let half = self.pow_big(base, &half_exp);
        let r2 = self.mul(&half, &half);
        if bit == 1 {
            self.mul(&r2, base)
        } else {
            r2
        }
    }

    /// `a / b` as `a * b^(q - 2)`, which is zero for `b = 0`; never an error.
    pub fn div(&self, a: &BigValue, b: &BigValue) -> (r: Result<BigValue>)
        requires
            self.wf(),
        ensures
            r matches Ok(v) && v.value() == gf_mul(a.value(),
                gf_pow_sq(b.value(), (self.q() - 2) as nat, self.p(), self.m(), self.f()), self.p(), self.m(), self.f())
                && v.value() < self.q(),
    {
        proof {
            crate::prime::lemma_npow_mono_exp(self.p(), 1, self.m());
            vstd::arithmetic::power::lemma_pow1(self.p() as int);
            crate::arith::lemma_npow_nonneg(self.p(), 1);
        }
        let exp = limbs_sub_u64(&self.order, 2);
        let inv = self.pow_big(b, &exp);
        Ok(self.mul(a, &inv))
    }
}


impl BigGaloisField {
    /// The same field with 64-bit elements and tables: `GaloisField::new(p, 1)` for `m = 1`,
    /// otherwise the field with this irreducible polynomial when the order fits in 64 bits,
    /// and `InvalidOrder(u64::MAX)` when it does not.
    pub fn as_small_field(&self) -> (r: Result<GaloisField>)
        requires
            self.wf(),
        ensures
            self.m() == 1 ==> new_contract(self.p() as u64, 1, r),
            self.m() > 1 && self.q() > u64::MAX ==> r == Err::<GaloisField, GaloisError>(GaloisError::InvalidOrder(u64::MAX)),
            self.m() > 1 ==> (r matches Ok(field) ==> field.wf() && field.p() == self.p() && field.m() == self.m()
                && field.f() == self.f()),
    {
        if self.degree == 1 {
            return GaloisField::new(self.characteristic, 1);
        }
        match self.order.to_u64() {
            Some(_) => GaloisField::with_options(self.characteristic, self.degree, Some(self.irreducible.clone()), None, false),
            None => Err(GaloisError::InvalidOrder(u64::MAX)),
        }
    }
}


/// A table field with the same characteristic, degree and polynomial as `f`.
pub open spec fn table_twin(t: GaloisField, f: BigGaloisField) -> bool {
    t.wf() && t.p() == f.p() && t.m() == f.m() && (f.m() > 1 ==> t.f() == f.f())
}

impl BigGaloisField {
    /// `"GF(p)"` for a prime field, otherwise `"GF(p^m)"`.
    pub fn name(&self) -> (r: String)
        ensures
            r@ == crate::field::factory::field_name(self.p(), self.m()),
    {
        let mut out = String::new();
        crate::text::push_str(&mut out, "GF(");
        crate::text::push_decimal(&mut out, self.characteristic);
        if self.degree != 1 {
            crate::text::push_char(&mut out, '^');
            crate::text::push_decimal(&mut out, self.degree as u64);
        }
        crate::text::push_char(&mut out, ')');
        proof { reveal_strlit("GF("); }
        assert(out@ =~= crate::field::factory::field_name(self.p(), self.m()));
        out
    }

    /// The element `value` of this field; the error of `BigFieldElement::new` otherwise.
    pub fn element(&self, value: &BigValue) -> (r: Result<BigFieldElement>)
        requires
            self.wf(),
        ensures
            value.value() < self.q() ==> (r matches Ok(e) && e.wf() && crate::poly::big_poly::big_equiv(e.field_view(), *self)
                && e.val() == value.value()),
            value.value() >= self.q() ==> r is Err,
    {
        BigFieldElement::new(self.clone(), value.clone())
    }

    /// The element `value` of this field; the error of `BigFieldElement::from_u64` otherwise.
    pub fn element_u64(&self, value: u64) -> (r: Result<BigFieldElement>)
        requires
            self.wf(),
        ensures
            value < self.q() ==> (r matches Ok(e) && e.wf() && crate::poly::big_poly::big_equiv(e.field_view(), *self) && e.val() == value),
            value >= self.q() ==> r is Err,
    {
        BigFieldElement::from_u64(self.clone(), value)
    }

    /// The discrete logarithm through the table field of `as_small_field`: its errors,
    /// `InvalidElement` (value 0) for a value beyond 64 bits, and those of the table
    /// field's `validate_element` and `discrete_log`.
    pub fn discrete_log(&self, value: &BigValue) -> (r: Result<u64>)
        requires
            self.wf(),
        ensures
            self.m() > 1 && self.q() > u64::MAX ==> r == Err::<u64, GaloisError>(GaloisError::InvalidOrder(u64::MAX)),
            r matches Ok(l) ==> exists|t: GaloisField| table_twin(t, *self) && value.value() < t.q()
                && value.value() != 0 && l == t.dlog(value.value()) && t.power(l as nat) == value.value(),
    {
        let small = match self.as_small_field() {
            Ok(f) => f,
            Err(e) => { return Err(e); },
        };
        let v = match value.to_u64() {
            Some(v) => v,
            None => {
                return Err(GaloisError::InvalidElement { value: 0, characteristic: self.characteristic, degree: self.degree });
            },
        };
        let v = match small.validate_element(v) {
            Ok(v) => v,
            Err(e) => { return Err(e); },
        };
        let r = small.discrete_log(v);
        proof {
            if r is Ok {
                assert(table_twin(small, *self));
            }
        }
        r
    }

    /// `alpha^log` for the primitive element `alpha` of the table field of
    /// `as_small_field`; its errors otherwise.
    pub fn exp_from_log(&self, log: u64) -> (r: Result<BigValue>)
        requires
            self.wf(),
        ensures
            self.m() > 1 && self.q() > u64::MAX ==> r == Err::<BigValue, GaloisError>(GaloisError::InvalidOrder(u64::MAX)),
            r matches Ok(v) ==> exists|t: GaloisField| table_twin(t, *self)
                && v.value() == t.power((log as nat) % ((t.q() - 1) as nat)),
    {
        let small = match self.as_small_field() {
            Ok(f) => f,
            Err(e) => { return Err(e); },
        };
        let v = small.exp_from_log(log);
        let r = BigValue::from_u64(v);
        assert(table_twin(small, *self));
        Ok(r)
    }
}

impl Clone for BigGaloisField {
    fn clone(&self) -> (r: Self)
        ensures
            r.p() == self.p(),
            r.m() == self.m(),
            r.q() == self.q(),
            r.f() == self.f(),
            self.wf() ==> r.wf(),
    {
        BigGaloisField {
            characteristic: self.characteristic,
            degree: self.degree,
            order: self.order.clone(),
            irreducible: self.irreducible.clone(),
        }
    }
}

/// An element of a `BigGaloisField`.
pub struct BigFieldElement {
    field: BigGaloisField,
    value: BigValue,
}

impl BigFieldElement {
    pub closed spec fn field_view(&self) -> BigGaloisField {
        self.field
    }

    pub closed spec fn val(&self) -> nat {
        self.value.value()
    }

    /// A well-formed field and a value below its order.
    pub open spec fn wf(&self) -> bool {
        self.field_view().wf() && self.val() < self.field_view().q()
    }

    /// The element `value` of `field`; `InvalidElement` as `BigGaloisField::validate` says
    /// when it is not below the order.
    pub fn new(field: BigGaloisField, value: BigValue) -> (r: crate::error::Result<Self>)
        requires
            field.wf(),
        ensures
            value.value() < field.q() ==> (r matches Ok(e) && e.wf() && e.field_view() == field && e.val() == value.value()),
            value.value() >= field.q() ==> r == Err::<Self, GaloisError>(GaloisError::InvalidElement {
                value: if value.value() <= u64::MAX { value.value() as u64 } else { u64::MAX },
                characteristic: 0, degree: 0 }),
    {
        let v = match field.validate(&value) {
            Ok(v) => v,
            Err(e) => { return Err(e); },
        };
        Ok(BigFieldElement { field, value: v })
    }

    pub fn from_u64(field: BigGaloisField, value: u64) -> (r: crate::error::Result<Self>)
        requires
            field.wf(),
        ensures
            value < field.q() ==> (r matches Ok(e) && e.wf() && e.field_view() == field && e.val() == value),
            value >= field.q() ==> r == Err::<Self, GaloisError>(GaloisError::InvalidElement {
                value, characteristic: 0, degree: 0 }),
    {
        Self::new(field, BigValue::from_u64(value))
    }

    pub fn field(&self) -> (r: &BigGaloisField)
        ensures
            *r == self.field_view(),
    {
        &self.field
    }

    pub fn value(&self) -> (r: &BigValue)
        ensures
            r.value() == self.val(),
    {
        &self.value
    }

    /// `FieldMismatch` unless both fields have the same characteristic and degree.
    fn ensure_same_field(&self, other: &Self) -> (r: crate::error::Result<()>)
        ensures
            r is Ok <==> (self.field_view().p() == other.field_view().p() && self.field_view().m() == other.field_view().m()),
            r is Err ==> r == Err::<(), GaloisError>(GaloisError::FieldMismatch),
    {
        if self.field.characteristic() != other.field.characteristic() || self.field.degree() != other.field.degree() {
            return Err(GaloisError::FieldMismatch);
        }
        Ok(())
    }

    /// The sum, in this element's field; `FieldMismatch` across fields.
    pub fn add(&self, other: &Self) -> (r: crate::error::Result<Self>)
        requires
            self.wf(),
            other.wf(),
        ensures
            !same_big_field(self.field_view(), other.field_view()) ==> r == Err::<Self, GaloisError>(GaloisError::FieldMismatch),
            same_big_field(self.field_view(), other.field_view()) ==> (r matches Ok(e) && e.wf() && same_big_field(e.field_view(), self.field_view())
                && e.field_view().q() == self.field_view().q() && e.field_view().f() == self.field_view().f()
                && e.val() == gf_add(self.val(), other.val(), self.field_view().p(), self.field_view().m())),
    {
        if let Err(e) = self.ensure_same_field(other) {
            return Err(e);
        }
        Ok(BigFieldElement { field: self.field.clone(), value: self.field.add(&self.value, &other.value) })
    }

    /// The difference, in this element's field; `FieldMismatch` across fields.
    pub fn sub(&self, other: &Self) -> (r: crate::error::Result<Self>)
        requires
            self.wf(),
            other.wf(),
        ensures
            !same_big_field(self.field_view(), other.field_view()) ==> r == Err::<Self, GaloisError>(GaloisError::FieldMismatch),
            same_big_field(self.field_view(), other.field_view()) ==> (r matches Ok(e) && e.wf() && same_big_field(e.field_view(), self.field_view())
                && e.field_view().q() == self.field_view().q() && e.field_view().f() == self.field_view().f()
                && e.val() == gf_sub(self.val(), other.val(), self.field_view().p(), self.field_view().m())),
    {
        if let Err(e) = self.ensure_same_field(other) {
            return Err(e);
        }
        Ok(BigFieldElement { field: self.field.clone(), value: self.field.sub(&self.value, &other.value) })
    }

    /// The product, in this element's field; `FieldMismatch` across fields.
    pub fn mul(&self, other: &Self) -> (r: crate::error::Result<Self>)
        requires
            self.wf(),
            other.wf(),
        ensures
            !same_big_field(self.field_view(), other.field_view()) ==> r == Err::<Self, GaloisError>(GaloisError::FieldMismatch),
            same_big_field(self.field_view(), other.field_view()) ==> (r matches Ok(e) && e.wf() && same_big_field(e.field_view(), self.field_view())
                && e.field_view().q() == self.field_view().q() && e.field_view().f() == self.field_view().f()
                && e.val() == gf_mul(self.val(), other.val(), self.field_view().p(), self.field_view().m(), self.field_view().f())),
    {
        if let Err(e) = self.ensure_same_field(other) {
            return Err(e);
        }
        Ok(BigFieldElement { field: self.field.clone(), value: self.field.mul(&self.value, &other.value) })
    }

    /// The quotient `self * other^(q-2)`, in this element's field; `FieldMismatch` across
    /// fields.
    pub fn div(&self, other: &Self) -> (r: crate::error::Result<Self>)
        requires
            self.wf(),
            other.wf(),
        ensures
            !same_big_field(self.field_view(), other.field_view()) ==> r == Err::<Self, GaloisError>(GaloisError::FieldMismatch),
            same_big_field(self.field_view(), other.field_view()) ==> (r matches Ok(e) && e.wf() && same_big_field(e.field_view(), self.field_view())
                && e.field_view().q() == self.field_view().q() && e.field_view().f() == self.field_view().f()
                && e.val() == big_div_spec(self.field_view(), self.val(), other.val())),
    {
        if let Err(e) = self.ensure_same_field(other) {
            return Err(e);
        }
        let v = match self.field.div(&self.value, &other.value) {
            Ok(v) => v,
            Err(e) => { return Err(e); },
        };
        Ok(BigFieldElement { field: self.field.clone(), value: v })
    }

    /// `self^exp` by repeated squaring.
    pub fn pow(&self, exp: u64) -> (r: Self)
        requires
            self.wf(),
        ensures
            r.wf(),
            same_big_field(r.field_view(), self.field_view()),
            r.field_view().q() == self.field_view().q(),
            r.field_view().f() == self.field_view().f(),
            r.val() == gf_pow_sq(self.val(), exp as nat, self.field_view().p(), self.field_view().m(), self.field_view().f()),
    {
        BigFieldElement { field: self.field.clone(), value: self.field.pow(&self.value, exp) }
    }

    /// `1 / self`.
    pub fn inverse(&self) -> (r: crate::error::Result<Self>)
        requires
            self.wf(),
        ensures
            r matches Ok(e) && e.wf() && same_big_field(e.field_view(), self.field_view())
                && e.field_view().q() == self.field_view().q() && e.field_view().f() == self.field_view().f()
                && e.val() == big_div_spec(self.field_view(), 1, self.val()),
    {
        proof { self.field.lemma_q_ge_2(); }
        let one = match Self::new(self.field.clone(), BigValue::from_u64(1)) {
            Ok(e) => e,
            Err(e) => { return Err(e); },
        };
        one.div(self)
    }
}

/// Same characteristic and degree.
pub open spec fn same_big_field(a: BigGaloisField, b: BigGaloisField) -> bool {
    a.p() == b.p() && a.m() == b.m()
}

/// `a * b^(q-2)` in the field.
pub open spec fn big_div_spec(field: BigGaloisField, a: nat, b: nat) -> nat {
    gf_mul(a, gf_pow_sq(b, (field.q() - 2) as nat, field.p(), field.m(), field.f()), field.p(), field.m(), field.f())
}

impl BigGaloisField {
    /// What well-formedness says of the parameters.
    pub proof fn lemma_wf_params(&self)
        requires
            self.wf(),
        ensures
            is_prime_spec(self.p()),
            self.p() <= u64::MAX,
            1 <= self.m() < 0x3fff_ffff,
            self.q() == npow(self.p(), self.m()),
            self.f().len() == self.m() + 1,
    {
    }

    /// `q >= 2` for a well-formed field.
    pub proof fn lemma_q_ge_2(&self)
        requires
            self.wf(),
        ensures
            self.q() >= 2,
    {
        crate::prime::lemma_npow_mono_exp(self.p(), 1, self.m());
        vstd::arithmetic::power::lemma_pow1(self.p() as int);
        crate::arith::lemma_npow_nonneg(self.p(), 1);
    }
}


/// Either a field with 64-bit elements or one with arbitrary-precision elements.
pub enum FieldKind {
    Small(GaloisField),
    Big(BigGaloisField),
}

impl FieldKind {
    pub open spec fn wf(&self) -> bool {
        match self {
            FieldKind::Small(f) => f.wf(),
            FieldKind::Big(f) => f.wf(),
        }
    }

    pub open spec fn p(&self) -> nat {
        match self {
            FieldKind::Small(f) => f.p(),
            FieldKind::Big(f) => f.p(),
        }
    }

    pub open spec fn m(&self) -> nat {
        match self {
            FieldKind::Small(f) => f.m(),
            FieldKind::Big(f) => f.m(),
        }
    }

    pub open spec fn q(&self) -> nat {
        match self {
            FieldKind::Small(f) => f.q(),
            FieldKind::Big(f) => f.q(),
        }
    }

    /// The coefficients of the field's irreducible polynomial.
    pub open spec fn f(&self) -> Seq<u64> {
        match self {
            FieldKind::Small(f) => f.f(),
            FieldKind::Big(f) => f.f(),
        }
    }

    /// The characteristic `p`.
    pub fn characteristic(&self) -> (r: u64)
        ensures
            r == self.p(),
    {
        match self {
            FieldKind::Small(f) => f.characteristic(),
            FieldKind::Big(f) => f.characteristic(),
        }
    }

    /// The extension degree `m`.
    pub fn degree(&self) -> (r: u32)
        ensures
            r == self.m(),
    {
        match self {
            FieldKind::Small(f) => f.degree(),
            FieldKind::Big(f) => f.degree(),
        }
    }

    /// The order when it fits in 64 bits.
    pub fn order_u64(&self) -> (r: Option<u64>)
        ensures
            self matches FieldKind::Small(f) ==> r == Some(f.q() as u64),
            self matches FieldKind::Big(f) ==> (f.q() <= u64::MAX ==> r == Some(f.q() as u64))
                && (f.q() > u64::MAX ==> r is None),
    {
        match self {
            FieldKind::Small(f) => Some(f.order()),
            FieldKind::Big(f) => f.order().to_u64(),
        }
    }

    /// The element `value` of this field; `InvalidElement` when it is not below the order.
    pub fn element(&self, value: u64) -> (r: Result<GaloisElement>)
        requires
            self.wf(),
        ensures
            (value < self.q() <==> r is Ok),
            r matches Ok(e) ==> e.wf() && e.value() == value,
    {
        GaloisElement::from_u64(self, value)
    }

    /// The field with 64-bit elements, if this is one.
    pub fn as_small(&self) -> (r: Option<&GaloisField>)
        ensures
            self matches FieldKind::Small(f) ==> (r matches Some(g) && *g == f),
            self is Big ==> r is None,
    {
        match self {
            FieldKind::Small(f) => Some(f),
            FieldKind::Big(_) => None,
        }
    }

    /// A copy of the field with 64-bit elements, if this is one.
    pub fn as_galois_field(&self) -> (r: Option<GaloisField>)
        ensures
            self matches FieldKind::Small(f) ==> (r matches Some(g) && g.equiv(&f)),
            self is Big ==> r is None,
    {
        match self {
            FieldKind::Small(f) => Some(f.clone()),
            FieldKind::Big(_) => None,
        }
    }

    /// A copy of the field with arbitrary-precision elements, if this is one.
    pub fn as_big_field(&self) -> (r: Option<BigGaloisField>)
        ensures
            self matches FieldKind::Big(f) ==> (r matches Some(g) && g.p() == f.p() && g.m() == f.m() && g.q() == f.q()
                && g.f() == f.f() && (f.wf() ==> g.wf())),
            self is Small ==> r is None,
    {
        match self {
            FieldKind::Small(_) => None,
            FieldKind::Big(f) => Some(f.clone()),
        }
    }
}


/// An element of a field of either kind.
pub enum GaloisElement {
    Small(FieldElement),
    Big(BigFieldElement),
}

impl GaloisElement {
    pub open spec fn wf(&self) -> bool {
        match self {
            GaloisElement::Small(e) => e.wf(),
            GaloisElement::Big(e) => e.wf(),
        }
    }

    /// The element's integer value.
    pub open spec fn value(&self) -> nat {
        match self {
            GaloisElement::Small(e) => e.val() as nat,
            GaloisElement::Big(e) => e.val(),
        }
    }

    /// The element `value` of `field`, of the field's kind; `InvalidElement` when it is not
    /// below the order.
    pub fn from_u64(field: &FieldKind, value: u64) -> (r: Result<Self>)
        requires
            field.wf(),
        ensures
            field matches FieldKind::Small(f) ==> (value < f.q() <==> r is Ok)
                && (r matches Ok(e) ==> e matches GaloisElement::Small(x) && x.wf() && x.field_view().equiv(f)),
            field matches FieldKind::Big(f) ==> (value < f.q() <==> r is Ok)
                && (r matches Ok(e) ==> e matches GaloisElement::Big(x) && x.wf() && x.field_view().p() == f.p()
                    && x.field_view().m() == f.m() && x.field_view().q() == f.q() && x.field_view().f() == f.f()),
            r matches Ok(e) ==> e.value() == value,
    {
        match field {
            FieldKind::Small(f) => match f.element(value) {
                Ok(e) => Ok(GaloisElement::Small(e)),
                Err(e) => Err(e),
            },
            FieldKind::Big(f) => match BigFieldElement::from_u64(f.clone(), value) {
                Ok(e) => Ok(GaloisElement::Big(e)),
                Err(e) => Err(e),
            },
        }
    }

    /// The element `value` of the big field `field`.
    pub fn from_big(field: &BigGaloisField, value: BigValue) -> (r: Result<Self>)
        requires
            field.wf(),
        ensures
            value.value() < field.q() <==> r is Ok,
            r matches Ok(e) ==> e matches GaloisElement::Big(x) && x.wf() && x.val() == value.value(),
    {
        match BigFieldElement::new(field.clone(), value) {
            Ok(e) => Ok(GaloisElement::Big(e)),
            Err(e) => Err(e),
        }
    }

    pub fn is_small(&self) -> (r: bool)
        ensures
            r == (self is Small),
    {
        match self {
            GaloisElement::Small(_) => true,
            GaloisElement::Big(_) => false,
        }
    }

    pub fn as_small(&self) -> (r: Option<&FieldElement>)
        ensures
            self matches GaloisElement::Small(e) ==> (r matches Some(x) && *x == e),
            self is Big ==> r is None,
    {
        match self {
            GaloisElement::Small(e) => Some(e),
            GaloisElement::Big(_) => None,
        }
    }

    pub fn as_big(&self) -> (r: Option<&BigFieldElement>)
        ensures
            self matches GaloisElement::Big(e) ==> (r matches Some(x) && *x == e),
            self is Small ==> r is None,
    {
        match self {
            GaloisElement::Small(_) => None,
            GaloisElement::Big(e) => Some(e),
        }
    }

    /// The sum; `FieldMismatch` for elements of different kinds or fields.
    pub fn add(&self, other: &Self) -> (r: Result<Self>)
        requires
            self.wf(),
            other.wf(),
        ensures
            match (self, other) {
                (GaloisElement::Small(a), GaloisElement::Small(b)) => if same_field(a.field_view(), b.field_view()) {
                    r matches Ok(GaloisElement::Small(c)) && c.wf() && c.val() == a.field_view().add_spec(a.val() as nat, b.val() as nat)
                } else { r == Err::<Self, GaloisError>(GaloisError::FieldMismatch) },
                (GaloisElement::Big(a), GaloisElement::Big(b)) => if same_big_field(a.field_view(), b.field_view()) {
                    r matches Ok(GaloisElement::Big(c)) && c.wf() && c.val() == gf_add(a.val(), b.val(), a.field_view().p(), a.field_view().m())
                } else { r == Err::<Self, GaloisError>(GaloisError::FieldMismatch) },
                _ => r == Err::<Self, GaloisError>(GaloisError::FieldMismatch),
            },
    {
        match (self, other) {
            (GaloisElement::Small(a), GaloisElement::Small(b)) => match a.add(b) {
                Ok(c) => Ok(GaloisElement::Small(c)),
                Err(e) => Err(e),
            },
            (GaloisElement::Big(a), GaloisElement::Big(b)) => match a.add(b) {
                Ok(c) => Ok(GaloisElement::Big(c)),
                Err(e) => Err(e),
            },
            _ => Err(GaloisError::FieldMismatch),
        }
    }

    /// The difference; `FieldMismatch` for elements of different kinds or fields.
    pub fn sub(&self, other: &Self) -> (r: Result<Self>)
        requires
            self.wf(),
            other.wf(),
        ensures
            match (self, other) {
                (GaloisElement::Small(a), GaloisElement::Small(b)) => if same_field(a.field_view(), b.field_view()) {
                    r matches Ok(GaloisElement::Small(c)) && c.wf() && c.val() == a.field_view().sub_spec(a.val() as nat, b.val() as nat)
                } else { r == Err::<Self, GaloisError>(GaloisError::FieldMismatch) },
                (GaloisElement::Big(a), GaloisElement::Big(b)) => if same_big_field(a.field_view(), b.field_view()) {
                    r matches Ok(GaloisElement::Big(c)) && c.wf() && c.val() == gf_sub(a.val(), b.val(), a.field_view().p(), a.field_view().m())
                } else { r == Err::<Self, GaloisError>(GaloisError::FieldMismatch) },
                _ => r == Err::<Self, GaloisError>(GaloisError::FieldMismatch),
            },
    {
        match (self, other) {
            (GaloisElement::Small(a), GaloisElement::Small(b)) => match a.sub(b) {
                Ok(c) => Ok(GaloisElement::Small(c)),
                Err(e) => Err(e),
            },
            (GaloisElement::Big(a), GaloisElement::Big(b)) => match a.sub(b) {
                Ok(c) => Ok(GaloisElement::Big(c)),
                Err(e) => Err(e),
            },
            _ => Err(GaloisError::FieldMismatch),
        }
    }

    /// The product; `FieldMismatch` for elements of different kinds or fields.
    pub fn mul(&self, other: &Self) -> (r: Result<Self>)
        requires
            self.wf(),
            other.wf(),
        ensures
            match (self, other) {
                (GaloisElement::Small(a), GaloisElement::Small(b)) => if same_field(a.field_view(), b.field_view()) {
                    r matches Ok(GaloisElement::Small(c)) && c.wf() && c.val() == a.field_view().mul_spec(a.val() as nat, b.val() as nat)
                } else { r == Err::<Self, GaloisError>(GaloisError::FieldMismatch) },
                (GaloisElement::Big(a), GaloisElement::Big(b)) => if same_big_field(a.field_view(), b.field_view()) {
                    r matches Ok(GaloisElement::Big(c)) && c.wf()
                        && c.val() == gf_mul(a.val(), b.val(), a.field_view().p(), a.field_view().m(), a.field_view().f())
                } else { r == Err::<Self, GaloisError>(GaloisError::FieldMismatch) },
                _ => r == Err::<Self, GaloisError>(GaloisError::FieldMismatch),
            },
    {
        match (self, other) {
            (GaloisElement::Small(a), GaloisElement::Small(b)) => match a.mul(b) {
                Ok(c) => Ok(GaloisElement::Small(c)),
                Err(e) => Err(e),
            },
            (GaloisElement::Big(a), GaloisElement::Big(b)) => match a.mul(b) {
                Ok(c) => Ok(GaloisElement::Big(c)),
                Err(e) => Err(e),
            },
            _ => Err(GaloisError::FieldMismatch),
        }
    }

    /// The quotient; `FieldMismatch` for elements of different kinds or fields,
    /// `DivisionByZero` for a zero divisor of the small kind.
    pub fn div(&self, other: &Self) -> (r: Result<Self>)
        requires
            self.wf(),
            other.wf(),
        ensures
            match (self, other) {
                (GaloisElement::Small(a), GaloisElement::Small(b)) => if !same_field(a.field_view(), b.field_view()) {
                    r == Err::<Self, GaloisError>(GaloisError::FieldMismatch)
                } else if b.val() == 0 {
                    r == Err::<Self, GaloisError>(GaloisError::DivisionByZero {
                        characteristic: a.field_view().p() as u64, degree: a.field_view().m() as u32 })
                } else {
                    r matches Ok(GaloisElement::Small(c)) && c.wf() && c.val() == a.field_view().div_spec(a.val() as nat, b.val() as nat)
                },
                (GaloisElement::Big(a), GaloisElement::Big(b)) => if same_big_field(a.field_view(), b.field_view()) {
                    r matches Ok(GaloisElement::Big(c)) && c.wf() && c.val() == big_div_spec(a.field_view(), a.val(), b.val())
                } else { r == Err::<Self, GaloisError>(GaloisError::FieldMismatch) },
                _ => r == Err::<Self, GaloisError>(GaloisError::FieldMismatch),
            },
    {
        match (self, other) {
            (GaloisElement::Small(a), GaloisElement::Small(b)) => match a.div(b) {
                Ok(c) => Ok(GaloisElement::Small(c)),
                Err(e) => Err(e),
            },
            (GaloisElement::Big(a), GaloisElement::Big(b)) => match a.div(b) {
                Ok(c) => Ok(GaloisElement::Big(c)),
                Err(e) => Err(e),
            },
            _ => Err(GaloisError::FieldMismatch),
        }
    }
}

} // verus!
