//! Construction of GF(p^m) and its table-driven arithmetic.

use vstd::prelude::*;
use crate::arith::{is_prime_spec, npow, lemma_npow_positive};
use crate::error::{GaloisError, Result};
use crate::field::element::ElementRepr;
use crate::field::model::{digits, from_digits, op_digits, gf_add, gf_sub, gf_neg, gf_mul, gf_power, gf_pow_sq,
    elem_poly, lemma_div_step, lemma_from_digits_bound, lemma_npow_le, lemma_npow_succ, lemma_op_digits_bound,
    lemma_digits_roundtrip, lemma_digits_bound, lemma_from_digits_strip};
use crate::poly::integer::{strip_trailing, asc_degree, terms_text_asc, format_terms_asc};
use crate::text::{decimal, push_decimal, push_str, push_char};
use crate::poly::prime::{PrimePoly, zp_is_zero, zp_normal, zp_mulmod, zp_divmod, zp_mul, reduce_coeffs,
    lemma_zp_divmod, lemma_strip_props};

verus! {

/// The finite field GF(p^m). Elements are the integers below `p^m`; the base-`p` digits of an
/// element are the coefficients of a polynomial reduced modulo the irreducible polynomial.
/// Discrete logarithms are tabulated with respect to a primitive element.
#[derive(Debug)]
pub struct GaloisField {
    characteristic: u64,
    degree: u32,
    order: u64,
    irreducible: PrimePoly,
    log_table: Vec<u32>,
    exp_table: Vec<u64>,
    primitive_element: u64,
    default_repr: ElementRepr,
}

/// `logs` and `exps` are inverse bijections between `[0, q-1)` and `[1, q)`, and `exps`
/// lists the powers of `g`.
pub open spec fn tables_valid(logs: Seq<u32>, exps: Seq<u64>, g: nat, p: nat, m: nat, f: Seq<u64>, q: nat) -> bool {
    let n = q - 1;
    &&& q <= usize::MAX
    &&& exps.len() == n
    &&& logs.len() == q
    &&& g < q
    &&& forall|i: int| 0 <= i < n ==> #[trigger] exps[i] as nat == gf_power(g, i as nat, p, m, f)
    &&& forall|i: int| 0 <= i < n ==> 1 <= #[trigger] exps[i] < q
    &&& forall|i: int| 0 <= i < n ==> logs[#[trigger] exps[i] as int] == i
    &&& forall|v: int| 1 <= v < q ==> (#[trigger] logs[v]) < n
    &&& forall|v: int| 1 <= v < q ==> exps[#[trigger] logs[v] as int] == v
}

/// The tables for `g` can be built: `q` fits the tables' index types, and the powers
/// `g^0, ..., g^(q-2)` are nonzero, pairwise distinct and cover every nonzero element.
pub open spec fn tables_ok(g: nat, p: nat, m: nat, f: Seq<u64>, q: nat) -> bool {
    &&& 2 <= q <= u32::MAX
    &&& q <= usize::MAX
    &&& forall|i: nat| i < q - 1 ==> #[trigger] gf_power(g, i, p, m, f) != 0
    &&& forall|i: nat, j: nat| i < j < q - 1 ==> #[trigger] gf_power(g, i, p, m, f) != #[trigger] gf_power(g, j, p, m, f)
    &&& forall|v: nat| 1 <= v < q ==> #[trigger] power_hits(g, v, p, m, f, q)
}

/// Some power `g^i` with `i < q - 1` is `v`.
pub open spec fn power_hits(g: nat, v: nat, p: nat, m: nat, f: Seq<u64>, q: nat) -> bool {
    exists|i: nat| i < q - 1 && #[trigger] gf_power(g, i, p, m, f) == v
}

/// The exponent `i < q - 1` with `g^i = v`.
pub open spec fn discrete_log_of(v: nat, g: nat, p: nat, m: nat, f: Seq<u64>, q: nat) -> nat {
    choose|i: nat| i < q - 1 && gf_power(g, i, p, m, f) == v
}

/// Every prime factor `r` of `order` divides it with `v^(order/r) != 1`, and `v^order = 1`:
/// `v` has multiplicative order exactly `order`.
pub open spec fn full_order(v: nat, order: nat, p: nat, m: nat, f: Seq<u64>) -> bool {
    &&& gf_pow_sq(v, order, p, m, f) == 1
    &&& forall|r: nat| #[trigger] is_prime_spec(r) && order % r == 0 ==> gf_pow_sq(v, order / r, p, m, f) != 1
}

/// Each entry of a factorization divides the product.
pub proof fn lemma_factor_divides(ps: Seq<u64>, ms: Seq<u32>, i: int)
    requires
        ps.len() == ms.len(),
        0 <= i < ps.len(),
        ms[i] >= 1,
        ps[i] >= 1,
    ensures
        crate::arith::prod_pows(ps, ms) % (ps[i] as nat) == 0,
    decreases ps.len(),
{
    let n = ps.len() - 1;
    let b = ps[i] as nat;
    let rest = crate::arith::prod_pows(ps.drop_last(), ms.drop_last());
    let top = npow(ps.last() as nat, ms.last() as nat);
    if i == n {
        crate::arith::lemma_npow_unfold(b, ms[i] as nat);
        let t = npow(b, (ms[i] - 1) as nat);
        assert(rest * top == (rest * t) * b) by (nonlinear_arith) requires top == b * t;
        vstd::arithmetic::div_mod::lemma_mod_multiples_basic((rest * t) as int, b as int);
    } else {
        lemma_factor_divides(ps.drop_last(), ms.drop_last(), i);
        assert(ps.drop_last()[i] == ps[i]);
        vstd::arithmetic::div_mod::lemma_fundamental_div_mod(rest as int, b as int);
        let k = rest / b;
        assert(rest * top == (k * top) * b) by (nonlinear_arith) requires rest == b * k;
        vstd::arithmetic::div_mod::lemma_mod_multiples_basic((k * top) as int, b as int);
    }
}

/// The mathematical content of a field: characteristic, degree, order, irreducible
/// polynomial and primitive element, with the arithmetic they determine.
pub struct FieldModel {
    pub p: nat,
    pub m: nat,
    pub q: nat,
    pub f: Seq<u64>,
    pub g: nat,
}

impl FieldModel {
    pub open spec fn add(&self, a: nat, b: nat) -> nat {
        gf_add(a, b, self.p, self.m)
    }

    pub open spec fn sub(&self, a: nat, b: nat) -> nat {
        gf_sub(a, b, self.p, self.m)
    }

    pub open spec fn neg(&self, a: nat) -> nat {
        gf_neg(a, self.p, self.m)
    }

    pub open spec fn mul(&self, a: nat, b: nat) -> nat {
        gf_mul(a, b, self.p, self.m, self.f)
    }

    /// `g^i`.
    pub open spec fn power(&self, i: nat) -> nat {
        gf_power(self.g, i, self.p, self.m, self.f)
    }

    pub open spec fn dlog(&self, v: nat) -> nat {
        discrete_log_of(v, self.g, self.p, self.m, self.f, self.q)
    }

    /// `a / b` read off the discrete logarithms.
    pub open spec fn div(&self, a: nat, b: nat) -> nat {
        if a == 0 {
            0
        } else {
            self.power(((self.dlog(a) + (self.q - 1) - self.dlog(b)) % ((self.q - 1) as int)) as nat)
        }
    }

    /// `b^e` read off the discrete logarithms.
    pub open spec fn pow(&self, b: nat, e: nat) -> nat {
        if e == 0 {
            1
        } else if b == 0 {
            0
        } else {
            self.power((self.dlog(b) * e) % ((self.q - 1) as int) as nat)
        }
    }
}

impl GaloisField {
    /// The mathematical content of this field.
    pub open spec fn model(&self) -> FieldModel {
        FieldModel { p: self.p(), m: self.m(), q: self.q(), f: self.f(), g: self.g() }
    }

    pub closed spec fn p(&self) -> nat {
        self.characteristic as nat
    }

    pub closed spec fn m(&self) -> nat {
        self.degree as nat
    }

    pub closed spec fn q(&self) -> nat {
        self.order as nat
    }

    /// The irreducible polynomial.
    pub closed spec fn poly(&self) -> PrimePoly {
        self.irreducible
    }

    /// Ascending coefficients of the irreducible polynomial.
    pub open spec fn f(&self) -> Seq<u64> {
        self.poly().coeffs_view()
    }

    /// The primitive element.
    pub closed spec fn g(&self) -> nat {
        self.primitive_element as nat
    }

    pub closed spec fn logs(&self) -> Seq<u32> {
        self.log_table@
    }

    pub closed spec fn exps(&self) -> Seq<u64> {
        self.exp_table@
    }

    pub closed spec fn repr(&self) -> ElementRepr {
        self.default_repr
    }

    /// The field parameters are consistent: `p` prime, `q = p^m`, and an irreducible
    /// polynomial over GF(p) of degree `m`, monic when `m > 1`.
    pub open spec fn params_ok(&self) -> bool {
        &&& is_prime_spec(self.p())
        &&& 1 <= self.m() <= 64
        &&& self.q() == npow(self.p(), self.m())
        &&& self.poly().wf()
        &&& self.poly().prime() == self.p()
        &&& self.f().len() == self.m() + 1
        &&& (self.m() > 1 ==> self.f().last() == 1)
    }

    /// The logarithm and exponential tables are inverse bijections between `[0, q-1)` and
    /// the nonzero elements, and the exponential table lists the powers of `g`.
    pub open spec fn tables_ok(&self) -> bool {
        tables_valid(self.logs(), self.exps(), self.g(), self.p(), self.m(), self.f(), self.q())
    }

    pub open spec fn wf(&self) -> bool {
        self.params_ok() && self.tables_ok()
    }

    /// Same parameters, tables and display representation.
    pub open spec fn equiv(&self, other: &Self) -> bool {
        &&& self.p() == other.p()
        &&& self.m() == other.m()
        &&& self.q() == other.q()
        &&& self.poly().wf() == other.poly().wf()
        &&& self.poly().prime() == other.poly().prime()
        &&& self.f() == other.f()
        &&& self.g() == other.g()
        &&& self.logs() == other.logs()
        &&& self.exps() == other.exps()
        &&& self.repr() == other.repr()
    }

    pub open spec fn add_spec(&self, a: nat, b: nat) -> nat {
        gf_add(a, b, self.p(), self.m())
    }

    pub open spec fn sub_spec(&self, a: nat, b: nat) -> nat {
        gf_sub(a, b, self.p(), self.m())
    }

    pub open spec fn neg_spec(&self, a: nat) -> nat {
        gf_neg(a, self.p(), self.m())
    }

    pub open spec fn mul_spec(&self, a: nat, b: nat) -> nat {
        gf_mul(a, b, self.p(), self.m(), self.f())
    }

    /// `g^i`.
    pub open spec fn power(&self, i: nat) -> nat {
        gf_power(self.g(), i, self.p(), self.m(), self.f())
    }

    /// The discrete logarithm of a nonzero element: the exponent `i < q - 1` with `g^i = v`.
    pub open spec fn dlog(&self, v: nat) -> nat {
        discrete_log_of(v, self.g(), self.p(), self.m(), self.f(), self.q())
    }

    /// `b^e` read off the tables: `g^(dlog(b) e mod (q-1))`.
    pub open spec fn pow_spec(&self, b: nat, e: nat) -> nat {
        if e == 0 {
            1
        } else if b == 0 {
            0
        } else {
            self.power((self.dlog(b) * e) % ((self.q() - 1) as int) as nat)
        }
    }

    /// `a / b` read off the tables: `g^(dlog(a) - dlog(b) mod (q-1))`.
    pub open spec fn div_spec(&self, a: nat, b: nat) -> nat {
        if a == 0 {
            0
        } else {
            self.power(((self.dlog(a) + (self.q() - 1) - self.dlog(b)) % ((self.q() - 1) as int)) as nat)
        }
    }

    /// In a well-formed field every nonzero element has the tabulated discrete logarithm.
    pub proof fn lemma_dlog(&self, v: nat)
        requires
            self.wf(),
            1 <= v < self.q(),
        ensures
            self.dlog(v) == self.logs()[v as int],
            self.dlog(v) < self.q() - 1,
            self.power(self.dlog(v)) == v,
    {
        let i = self.logs()[v as int] as nat;
        assert(self.exps()[i as int] == v);
        assert(self.power(i) == v);
        let j = self.dlog(v);
        assert(j < self.q() - 1 && self.power(j) == v);
        assert(self.exps()[j as int] as nat == self.power(j));
        assert(self.logs()[self.exps()[j as int] as int] == j);
    }

    /// Powers of `g` below `q - 1` are tabulated.
    pub proof fn lemma_power_table(&self, i: nat)
        requires
            self.wf(),
            i < self.q() - 1,
        ensures
            self.exps()[i as int] as nat == self.power(i),
            1 <= self.power(i) < self.q(),
            self.dlog(self.power(i)) == i,
    {
        assert(self.exps()[i as int] as nat == self.power(i));
        assert(1 <= self.exps()[i as int] < self.q());
        self.lemma_dlog(self.power(i));
        assert(self.logs()[self.exps()[i as int] as int] == i);
    }

    pub fn characteristic(&self) -> (r: u64)
        ensures
            r == self.p(),
    {
        self.characteristic
    }

    pub fn degree(&self) -> (r: u32)
        ensures
            r == self.m(),
    {
        self.degree
    }

    pub fn order(&self) -> (r: u64)
        ensures
            r == self.q(),
    {
        self.order
    }

    pub fn irreducible_poly(&self) -> (r: &PrimePoly)
        ensures
            *r == self.poly(),
    {
        &self.irreducible
    }

    pub fn primitive_element(&self) -> (r: u64)
        ensures
            r == self.g(),
    {
        self.primitive_element
    }

    pub fn default_repr(&self) -> (r: ElementRepr)
        ensures
            r == self.repr(),
    {
        self.default_repr
    }

    /// Changes how elements of this field are displayed by default.
    pub fn set_default_repr(&mut self, repr: ElementRepr)
        ensures
            final(self).repr() == repr,
            final(self).p() == old(self).p(),
            final(self).m() == old(self).m(),
            final(self).q() == old(self).q(),
            final(self).poly() == old(self).poly(),
            final(self).g() == old(self).g(),
            final(self).logs() == old(self).logs(),
            final(self).exps() == old(self).exps(),
    {
        self.default_repr = repr;
    }

    /// `value` when it is an element of the field, `InvalidElement` otherwise.
    pub fn validate_element(&self, value: u64) -> (r: Result<u64>)
        ensures
            value < self.q() ==> r == Ok::<u64, GaloisError>(value),
            value >= self.q() ==> r == Err::<u64, GaloisError>(GaloisError::InvalidElement {
                value, characteristic: self.p() as u64, degree: self.m() as u32 }),
    {
        if value >= self.order {
            return Err(GaloisError::InvalidElement {
                value,
                characteristic: self.characteristic,
                degree: self.degree,
            });
        }
        Ok(value)
    }

    /// The `m` base-`p` digits of `value`.
    pub(crate) fn int_to_coeffs(&self, value: u64) -> (r: Vec<u64>)
        requires
            self.params_ok(),
        ensures
            r@ == digits(value as nat, self.p(), self.m()),
    {
        let p = self.characteristic;
        let m = self.degree as usize;
        let mut coeffs: Vec<u64> = Vec::new();
        let mut v = value;
        let mut i: usize = 0;
        proof { crate::arith::lemma_npow_zero(p as nat); }
        while i < m
            invariant
                p >= 2,
                i <= m,
                m == self.m(),
                p == self.p(),
                v as nat == value as nat / npow(p as nat, i as nat),
                coeffs@ =~= digits(value as nat, p as nat, m as nat).subrange(0, i as int),
            decreases m - i,
        {
            coeffs.push(v % p);
            proof { lemma_div_step(value as nat, p as nat, i as nat); }
            v = v / p;
            i = i + 1;
        }
        coeffs
    }

    /// The value of at most `m` base-`p` digits.
    pub(crate) fn coeffs_to_int(&self, coeffs: &[u64]) -> (r: u64)
        requires
            self.params_ok(),
            coeffs@.len() <= self.m(),
            forall|i: int| 0 <= i < coeffs@.len() ==> (#[trigger] coeffs@[i]) < self.p(),
        ensures
            r == from_digits(coeffs@, self.p()),
            r < self.q(),
    {
        let p = self.characteristic;
        let mut value: u64 = 0;
        let mut power: u64 = 1;
        let mut i: usize = 0;
        proof {
            crate::arith::lemma_npow_zero(p as nat);
            assert(coeffs@.subrange(0, 0) =~= Seq::<u64>::empty());
        }
        while i < coeffs.len()
            invariant
                p >= 2,
                p == self.p(),
                i <= coeffs@.len(),
                coeffs@.len() <= self.m(),
                self.q() == npow(p as nat, self.m()),
                self.q() <= u64::MAX,
                forall|t: int| 0 <= t < coeffs@.len() ==> (#[trigger] coeffs@[t]) < p,
                i < coeffs@.len() ==> power as nat == npow(p as nat, i as nat),
                value as nat == from_digits(coeffs@.subrange(0, i as int), p as nat),
            decreases coeffs@.len() - i,
        {
            let ghost next = coeffs@.subrange(0, i + 1);
            proof {
                assert(next.drop_last() =~= coeffs@.subrange(0, i as int));
                lemma_from_digits_bound(next, p as nat);
                lemma_npow_le(p as nat, (i + 1) as nat, self.m());
                lemma_npow_succ(p as nat, i as nat);
                assert(coeffs@[i as int] as nat * npow(p as nat, i as nat) <= from_digits(next, p as nat));
            }
            value = value + coeffs[i] * power;
            if i + 1 < coeffs.len() {
                proof {
                    lemma_npow_le(p as nat, (i + 2) as nat, self.m());
                    lemma_npow_succ(p as nat, (i + 1) as nat);
                    lemma_npow_positive(p as nat, (i + 1) as nat);
                    assert(npow(p as nat, (i + 1) as nat) <= npow(p as nat, (i + 2) as nat)) by (nonlinear_arith)
                        requires npow(p as nat, (i + 2) as nat) == npow(p as nat, (i + 1) as nat) * p, p >= 2;
                }
                power = power * p;
            }
            i = i + 1;
        }
        proof {
            assert(coeffs@.subrange(0, coeffs@.len() as int) =~= coeffs@);
            lemma_from_digits_bound(coeffs@, p as nat);
            lemma_npow_le(p as nat, coeffs@.len() as nat, self.m());
        }
        value
    }

    /// Coefficientwise combination of two elements (`mode` 0: sum, 1: difference, 2: negation
    /// of `a`).
    fn digitwise(&self, a: u64, b: u64, mode: u8) -> (r: u64)
        requires
            self.params_ok(),
            mode <= 2,
        ensures
            r == from_digits(op_digits(a as nat, b as nat, self.p(), self.m(), mode as nat), self.p()),
            r < self.q(),
    {
        let p = self.characteristic;
        let m = self.degree as usize;
        let mut wa = a;
        let mut wb = b;
        let mut out: Vec<u64> = Vec::new();
        let mut i: usize = 0;
        let ghost target = op_digits(a as nat, b as nat, p as nat, m as nat, mode as nat);
        proof { crate::arith::lemma_npow_zero(p as nat); }
        while i < m
            invariant
                p >= 2,
                i <= m,
                m == self.m(),
                p == self.p(),
                mode <= 2,
                target == op_digits(a as nat, b as nat, p as nat, m as nat, mode as nat),
                wa as nat == a as nat / npow(p as nat, i as nat),
                wb as nat == b as nat / npow(p as nat, i as nat),
                out@ =~= target.subrange(0, i as int),
            decreases m - i,
        {
            let x = wa % p;
            let y = wb % p;
            let d: u64 = if mode == 0 {
                (((x as u128) + (y as u128)) % (p as u128)) as u64
            } else if mode == 1 {
                (((x as u128) + (p as u128) - (y as u128)) % (p as u128)) as u64
            } else {
                (p - x) % p
            };
            out.push(d);
            proof {
                lemma_div_step(a as nat, p as nat, i as nat);
                lemma_div_step(b as nat, p as nat, i as nat);
            }
            wa = wa / p;
            wb = wb / p;
            i = i + 1;
        }
        proof {
            assert(out@ =~= target);
            lemma_op_digits_bound(a as nat, b as nat, p as nat, m as nat, mode as nat);
        }
        self.coeffs_to_int(out.as_slice())
    }
}


impl GaloisField {
    /// `a + b`.
    pub fn add(&self, a: u64, b: u64) -> (r: u64)
        requires
            self.params_ok(),
        ensures
            r == self.add_spec(a as nat, b as nat),
            r < self.q(),
    {
        self.digitwise(a, b, 0)
    }

    /// `a - b`.
    pub fn sub(&self, a: u64, b: u64) -> (r: u64)
        requires
            self.params_ok(),
        ensures
            r == self.sub_spec(a as nat, b as nat),
            r < self.q(),
    {
        self.digitwise(a, b, 1)
    }

    /// `-a`.
    pub fn neg(&self, a: u64) -> (r: u64)
        requires
            self.params_ok(),
        ensures
            r == self.neg_spec(a as nat),
            r < self.q(),
    {
        self.digitwise(a, 0, 2)
    }

    /// `a * b`.
    pub fn mul(&self, a: u64, b: u64) -> (r: u64)
        requires
            self.params_ok(),
            a < self.q(),
            b < self.q(),
        ensures
            r == self.mul_spec(a as nat, b as nat),
            r < self.q(),
    {
        let p = self.characteristic;
        if self.degree == 1 {
            proof { crate::arith::lemma_npow_one(p as nat); }
            return crate::prime::mul_mod(a, b, p);
        }
        let pa = self.elem_to_poly(a);
        let pb = self.elem_to_poly(b);
        let prod = match pa.mul(&pb) {
            Ok(x) => x,
            Err(_) => { return 0; },
        };
        proof {
            lemma_zp_divmod(prod.coeffs_view(), self.f(), p as nat);
        }
        let rem = match prod.divmod(&self.irreducible) {
            Ok((_, r)) => r,
            Err(_) => { return 0; },
        };
        proof {
            assert(rem.coeffs_view() == zp_mulmod(elem_poly(a as nat, p as nat, self.m()), elem_poly(b as nat, p as nat, self.m()), self.f(), p as nat));
        }
        self.coeffs_to_int(rem.coeffs())
    }

    /// The polynomial of an element.
    fn elem_to_poly(&self, a: u64) -> (r: PrimePoly)
        requires
            self.params_ok(),
        ensures
            r.wf(),
            r.prime() == self.p(),
            r.coeffs_view() == elem_poly(a as nat, self.p(), self.m()),
            r.coeffs_view().len() <= self.m(),
    {
        let p = self.characteristic;
        let c = self.int_to_coeffs(a);
        proof {
            lemma_digits_bound(a as nat, p as nat, self.m());
            assert(reduce_coeffs(c@, p as nat) =~= c@) by {
                assert forall|i: int| 0 <= i < c@.len() implies #[trigger] reduce_coeffs(c@, p as nat)[i] == c@[i] by {
                    vstd::arithmetic::div_mod::lemma_small_mod(c@[i] as nat, p as nat);
                }
            }
            lemma_strip_props(c@);
        }
        PrimePoly::from_parts(p, c)
    }

    /// `b^e` by repeated squaring, without the tables.
    pub(crate) fn pow_sq(&self, b: u64, e: u64) -> (r: u64)
        requires
            self.params_ok(),
            b < self.q(),
        ensures
            r == gf_pow_sq(b as nat, e as nat, self.p(), self.m(), self.f()),
            r < self.q(),
        decreases e,
    {
        if e == 0 {
            proof { self.lemma_q_ge_2(); }
            return 1;
        }
        let half = self.pow_sq(b, e / 2);
        let r2 = self.mul(half, half);
        if e % 2 == 1 {
            self.mul(r2, b)
        } else {
            r2
        }
    }

    /// `q >= 2` for consistent parameters.
    pub proof fn lemma_q_ge_2(&self)
        requires
            self.params_ok(),
        ensures
            self.q() >= 2,
            self.q() >= self.p(),
    {
        crate::arith::lemma_npow_ge_base(self.p(), self.m());
    }
}


impl GaloisField {
    /// Whether `v` has multiplicative order exactly `order` (which must be at least one).
    fn has_full_order(&self, v: u64, order: u64) -> (r: bool)
        requires
            self.params_ok(),
            v < self.q(),
            order >= 1,
        ensures
            r == full_order(v as nat, order as nat, self.p(), self.m(), self.f()),
    {
        if self.pow_sq(v, order) != 1 {
            return false;
        }
        let (ps, ms) = match crate::prime::factorize(order) {
            Ok(x) => x,
            Err(_) => { return false; },
        };
        let mut i: usize = 0;
        while i < ps.len()
            invariant
                self.params_ok(),
                v < self.q(),
                order >= 1,
                i <= ps@.len(),
                order < 2 ==> ps@.len() == 0,
                order >= 2 ==> crate::arith::is_prime_factorization(order as nat, ps@, ms@),
                gf_pow_sq(v as nat, order as nat, self.p(), self.m(), self.f()) == 1,
                forall|j: int| 0 <= j < i ==> gf_pow_sq(v as nat, (order / #[trigger] ps@[j]) as nat, self.p(), self.m(), self.f()) != 1,
            decreases ps@.len() - i,
        {
            let pr = ps[i];
            proof {
                assert(is_prime_spec(ps@[i as int] as nat));
            }
            if self.pow_sq(v, order / pr) == 1 {
                proof {
                    lemma_factor_divides(ps@, ms@, i as int);
                    assert(is_prime_spec(pr as nat) && (order as nat) % (pr as nat) == 0);
                }
                return false;
            }
            i = i + 1;
        }
        proof {
            assert forall|r: nat| #[trigger] is_prime_spec(r) && (order as nat) % r == 0 implies
                gf_pow_sq(v as nat, (order as nat) / r, self.p(), self.m(), self.f()) != 1 by {
                if order < 2 {
                    vstd::arithmetic::div_mod::lemma_small_mod(order as nat, r);
                } else {
                    crate::arith::lemma_prime_in_factorization(r, ps@, ms@);
                    let j = choose|j: int| 0 <= j < ps@.len() && ps@[j] == r;
                    assert(gf_pow_sq(v as nat, (order / ps@[j]) as nat, self.p(), self.m(), self.f()) != 1);
                }
            }
        }
        true
    }

    /// Builds the discrete logarithm and exponential tables for the primitive element `g`,
    /// failing with `ReduciblePolynomial` when the powers of `g` do not run through every
    /// nonzero element exactly once.
    fn build_log_exp_tables(&self, g: u64) -> (r: Result<(Vec<u32>, Vec<u64>)>)
        requires
            self.params_ok(),
            g < self.q(),
        ensures
            r matches Ok((logs, exps)) ==> tables_valid(logs@, exps@, g as nat, self.p(), self.m(), self.f(), self.q()),
            r matches Err(e) ==> e == (GaloisError::ReduciblePolynomial { characteristic: self.p() as u64 }),
            tables_ok(g as nat, self.p(), self.m(), self.f(), self.q()) ==> r is Ok,
    {
        proof { self.lemma_q_ge_2(); }
        let ghost ok = tables_ok(g as nat, self.p(), self.m(), self.f(), self.q());
        let ghost (pp, mm, ff) = (self.p(), self.m(), self.f());
        let q = self.order;
        let n: usize = (q - 1) as usize;
        let ql: usize = q as usize;
        if n as u64 != q - 1 || ql as u64 != q {
            return Err(GaloisError::ReduciblePolynomial { characteristic: self.characteristic });
        }
        let mut logs: Vec<u32> = vec![0u32; ql];
        let mut exps: Vec<u64> = vec![0u64; n];
        let mut value: u64 = 1;
        let mut i: usize = 0;
        while i < n
            invariant
                self.params_ok(),
                g < self.q(),
                q == self.q(),
                n == q - 1,
                ql == q,
                i <= n,
                logs@.len() == ql,
                exps@.len() == n,
                value < q,
                value as nat == gf_power(g as nat, i as nat, self.p(), self.m(), self.f()),
                forall|j: int| 0 <= j < i ==> #[trigger] exps@[j] as nat == gf_power(g as nat, j as nat, self.p(), self.m(), self.f()),
                forall|j: int| 0 <= j < i ==> #[trigger] exps@[j] < q,
                ok == tables_ok(g as nat, pp, mm, ff, q as nat),
                pp == self.p(), mm == self.m(), ff == self.f(),
                ok ==> forall|j: int| 0 <= j < i ==> logs@[#[trigger] exps@[j] as int] == j,
            decreases n - i,
        {
            let ghost lb = logs@;
            let ghost eb = exps@;
            exps.set(i, value);
            logs.set(value as usize, i as u32);
            proof {
                if ok {
                    assert forall|j: int| 0 <= j < i + 1 implies logs@[#[trigger] exps@[j] as int] == j by {
                        if j < i {
                            assert(exps@[j] == eb[j]);
                            assert(gf_power(g as nat, j as nat, pp, mm, ff) != gf_power(g as nat, i as nat, pp, mm, ff));
                            assert(logs@[exps@[j] as int] == lb[exps@[j] as int]);
                        }
                    }
                }
            }
            value = self.mul(value, g);
            assert(value as nat == gf_power(g as nat, (i + 1) as nat, pp, mm, ff));
            if value == 1 && i > 0 && i + 2 < n + 1 {
                proof {
                    if ok {
                        assert(gf_power(g as nat, 0, pp, mm, ff) == 1);
                        assert(gf_power(g as nat, 0, pp, mm, ff) != gf_power(g as nat, (i + 1) as nat, pp, mm, ff));
                    }
                }
                return Err(GaloisError::ReduciblePolynomial { characteristic: self.characteristic });
            }
            i = i + 1;
        }
        let mut i: usize = 0;
        while i < n
            invariant
                q == self.q(),
                n == q - 1,
                ql == q,
                i <= n,
                logs@.len() == ql,
                exps@.len() == n,
                forall|j: int| 0 <= j < n ==> #[trigger] exps@[j] < q,
                forall|j: int| 0 <= j < i ==> 1 <= #[trigger] exps@[j],
                forall|j: int| 0 <= j < i ==> logs@[#[trigger] exps@[j] as int] == j,
                ok == tables_ok(g as nat, pp, mm, ff, q as nat),
                pp == self.p(), mm == self.m(), ff == self.f(),
                ok ==> forall|j: int| 0 <= j < n ==> logs@[#[trigger] exps@[j] as int] == j,
                forall|j: int| 0 <= j < n ==> #[trigger] exps@[j] as nat == gf_power(g as nat, j as nat, pp, mm, ff),
            decreases n - i,
        {
            let e = exps[i];
            if e == 0 || logs[e as usize] as usize != i {
                proof {
                    if ok {
                        assert(gf_power(g as nat, i as nat, pp, mm, ff) != 0);
                        assert(exps@[i as int] as nat == gf_power(g as nat, i as nat, pp, mm, ff));
                        assert(logs@[exps@[i as int] as int] == i);
                        assert(false);
                    }
                }
                return Err(GaloisError::ReduciblePolynomial { characteristic: self.characteristic });
            }
            i = i + 1;
        }
        let mut v: usize = 1;
        while v < ql
            invariant
                q == self.q(),
                n == q - 1,
                ql == q,
                1 <= v <= ql,
                logs@.len() == ql,
                exps@.len() == n,
                forall|w: int| 1 <= w < v ==> (#[trigger] logs@[w]) < n,
                forall|w: int| 1 <= w < v ==> exps@[#[trigger] logs@[w] as int] == w,
                ok == tables_ok(g as nat, pp, mm, ff, q as nat),
                pp == self.p(), mm == self.m(), ff == self.f(),
                ok ==> forall|j: int| 0 <= j < n ==> logs@[#[trigger] exps@[j] as int] == j,
                forall|j: int| 0 <= j < n ==> #[trigger] exps@[j] as nat == gf_power(g as nat, j as nat, pp, mm, ff),
            decreases ql - v,
        {
            let l = logs[v] as usize;
            if l >= n || exps[l] != v as u64 {
                proof {
                    if ok {
                        assert(power_hits(g as nat, v as nat, pp, mm, ff, q as nat));
                        let i = choose|i: nat| i < q - 1 && #[trigger] gf_power(g as nat, i, pp, mm, ff) == v;
                        assert(exps@[i as int] as nat == gf_power(g as nat, i, pp, mm, ff));
                        assert(exps@[i as int] as nat == v);
                        assert(logs@[exps@[i as int] as int] == i);
                        assert(logs@[v as int] == i);
                        assert(l == i);
                        assert(false);
                    }
                }
                return Err(GaloisError::ReduciblePolynomial { characteristic: self.characteristic });
            }
            v = v + 1;
        }
        Ok((logs, exps))
    }
}


/// The checks of `GaloisField::with_options` that do not depend on building the field, in the
/// order in which they are made; `None` when all pass.
pub open spec fn options_error(p: u64, m: u32, f: PrimePoly, g: Option<u64>, verify: bool) -> Option<GaloisError> {
    let q = npow(p as nat, m as nat);
    if m == 0 {
        Some(GaloisError::InvalidDegree(0))
    } else if !is_prime_spec(p as nat) {
        Some(GaloisError::InvalidCharacteristic(p))
    } else if q > u64::MAX {
        Some(GaloisError::InvalidOrder((q % 0x1_0000_0000_0000_0000) as u64))
    } else if f.prime() != p {
        Some(GaloisError::FieldMismatch)
    } else if asc_degree(f.coeffs_view()) != m as int {
        Some(GaloisError::InvalidIrreducibleDegree {
            expected: m,
            actual: if asc_degree(f.coeffs_view()) < 0 { usize::MAX } else { asc_degree(f.coeffs_view()) as usize },
        })
    } else if m > 1 && f.coeffs_view().last() != 1 {
        Some(GaloisError::NonMonicIrreducible)
    } else if verify && m > 1 && !crate::poly::prime::zp_irreducible(f.coeffs_view(), p as nat) {
        Some(GaloisError::ReduciblePolynomial { characteristic: p })
    } else if g matches Some(v) && v as nat >= q {
        Some(GaloisError::InvalidElement { value: g->0, characteristic: p, degree: m })
    } else {
        None
    }
}

/// The tables can be built over `f` with the given primitive element, or, when none is
/// given, some element has full order (for `m > 1`) and the default one gives tables.
pub open spec fn builds_with(f: Seq<u64>, p: nat, m: nat, g: Option<u64>) -> bool {
    let q = npow(p, m);
    match g {
        Some(v) => tables_ok(v as nat, p, m, f, q),
        None => (m == 1 || exists|c: nat| 1 <= c < q && #[trigger] full_order(c, (q - 1) as nat, p, m, f))
            && forall|d: nat| #[trigger] default_primitive(d, p, m, f) ==> tables_ok(d, p, m, f, q),
    }
}

/// The inputs on which `GaloisField::with_options` succeeds: a prime `p`, `m >= 1` and
/// `p^m` within 64 bits; a given polynomial passes the checks of `options_error`, and
/// without one the default exists (for `m > 1`) and a given primitive element is below
/// `p^m`; and the tables of `builds_with` can be built over the polynomial used.
pub open spec fn options_succeed(p: u64, m: u32, irreducible: Option<PrimePoly>, g: Option<u64>, verify: bool) -> bool {
    let q = npow(p as nat, m as nat);
    &&& m >= 1
    &&& is_prime_spec(p as nat)
    &&& q <= u64::MAX
    &&& match irreducible {
        Some(f) => options_error(p, m, f, g, verify) is None && builds_with(f.coeffs_view(), p as nat, m as nat, g),
        None => (g matches Some(v) ==> (v as nat) < q)
            && (m == 1 ==> builds_with(seq![0u64, 1u64], p as nat, 1, g))
            && (m > 1 ==> crate::conway::has_irreducible(p as nat, m as nat)
                && forall|f: Seq<u64>| #[trigger] crate::conway::is_first_irreducible(f, p as nat, m as nat)
                    ==> builds_with(f, p as nat, m as nat, g)),
    }
}

/// The primitive element chosen when none is given: for `m = 1` the least primitive root
/// modulo `p` (one when there is none below `p`), otherwise the least element of full
/// multiplicative order.
pub open spec fn default_primitive(g: nat, p: nat, m: nat, f: Seq<u64>) -> bool {
    let q = npow(p, m);
    if m == 1 {
        ||| (g == 1 && forall|c: nat| 2 <= c < p ==> !#[trigger] full_order(c, (p - 1) as nat, p, m, f))
        ||| (2 <= g < p && full_order(g, (p - 1) as nat, p, m, f)
            && forall|c: nat| 2 <= c < g ==> !#[trigger] full_order(c, (p - 1) as nat, p, m, f))
    } else {
        1 <= g < q && full_order(g, (q - 1) as nat, p, m, f)
            && forall|c: nat| 1 <= c < g ==> !#[trigger] full_order(c, (q - 1) as nat, p, m, f)
    }
}

impl GaloisField {
    /// The default primitive element; `ReduciblePolynomial` when no element of an extension
    /// field has full multiplicative order.
    fn find_primitive_element(&self) -> (r: Result<u64>)
        requires
            self.params_ok(),
        ensures
            r matches Ok(g) ==> g < self.q() && default_primitive(g as nat, self.p(), self.m(), self.f()),
            self.m() == 1 ==> r is Ok,
            r matches Err(e) ==> e == (GaloisError::ReduciblePolynomial { characteristic: self.p() as u64 })
                && forall|c: nat| 1 <= c < self.q() ==> !#[trigger] full_order(c, (self.q() - 1) as nat, self.p(), self.m(), self.f()),
    {
        proof { self.lemma_q_ge_2(); }
        let q = self.order;
        let p = self.characteristic;
        if self.degree == 1 {
            proof { crate::arith::lemma_npow_one(p as nat); }
            let mut c: u64 = 2;
            while c < p
                invariant
                    self.params_ok(),
                    self.m() == 1,
                    p == self.p(),
                    q == self.q(),
                    q == p,
                    2 <= c,
                    forall|d: nat| 2 <= d < c ==> !#[trigger] full_order(d, (p - 1) as nat, self.p(), self.m(), self.f()),
                decreases p - c,
            {
                if self.has_full_order(c, p - 1) {
                    return Ok(c);
                }
                c = c + 1;
            }
            return Ok(1);
        }
        let mut v: u64 = 1;
        while v < q
            invariant
                self.params_ok(),
                self.m() != 1,
                q == self.q(),
                q >= 2,
                1 <= v <= q,
                forall|d: nat| 1 <= d < v ==> !#[trigger] full_order(d, (q - 1) as nat, self.p(), self.m(), self.f()),
            decreases q - v,
        {
            if self.has_full_order(v, q - 1) {
                proof {
                    assert(npow(self.p(), self.m()) == q);
                    assert(self.m() != 1);
                    assert(1 <= v < npow(self.p(), self.m()));
                    assert(full_order(v as nat, (npow(self.p(), self.m()) - 1) as nat, self.p(), self.m(), self.f()));
                    assert forall|c: nat| 1 <= c < v implies !#[trigger] full_order(c, (npow(self.p(), self.m()) - 1) as nat, self.p(), self.m(), self.f()) by {
                        assert(!full_order(c, (q - 1) as nat, self.p(), self.m(), self.f()));
                    }
                }
                return Ok(v);
            }
            v = v + 1;
        }
        Err(GaloisError::ReduciblePolynomial { characteristic: p })
    }

    /// GF(p^m) from its irreducible polynomial and primitive element, or their defaults; with
    /// `verify`, the polynomial of an extension field is tested for irreducibility.
    pub fn with_options(p: u64, m: u32, irreducible: Option<PrimePoly>, primitive_element: Option<u64>,
        verify: bool) -> (r: Result<Self>)
        requires
            irreducible matches Some(f) ==> f.wf(),
        ensures
            m == 0 ==> r == Err::<Self, GaloisError>(GaloisError::InvalidDegree(0)),
            m >= 1 && !is_prime_spec(p as nat) ==> r == Err::<Self, GaloisError>(GaloisError::InvalidCharacteristic(p)),
            m >= 1 && is_prime_spec(p as nat) && npow(p as nat, m as nat) > u64::MAX ==> r == Err::<Self, GaloisError>(
                GaloisError::InvalidOrder((npow(p as nat, m as nat) % 0x1_0000_0000_0000_0000) as u64)),
            irreducible is Some && options_error(p, m, irreducible->0, primitive_element, verify) is Some
                ==> r == Err::<Self, GaloisError>(options_error(p, m, irreducible->0, primitive_element, verify)->0),
            options_succeed(p, m, irreducible, primitive_element, verify) ==> r is Ok,
            r matches Ok(field) ==> field.wf() && field.p() == p && field.m() == m
                && field.repr() == ElementRepr::Int
                && options_error(p, m, field.poly(), primitive_element, verify) is None
                && (irreducible matches Some(f) ==> field.poly() == f)
                && (irreducible is None && m == 1 ==> field.f() == seq![0u64, 1u64])
                && (irreducible is None && m > 1 ==> crate::conway::is_first_irreducible(field.f(), p as nat, m as nat))
                && (primitive_element matches Some(g) ==> field.g() == g)
                && (primitive_element is None ==> default_primitive(field.g(), p as nat, m as nat, field.f())),
            r matches Err(e) ==> (m == 0 || !is_prime_spec(p as nat) || npow(p as nat, m as nat) > u64::MAX
                || (irreducible matches Some(f) && options_error(p, m, f, primitive_element, verify) == Some(e))
                || e == (GaloisError::ReduciblePolynomial { characteristic: p })
                || e == (GaloisError::IrreduciblePolyNotFound { characteristic: p, degree: m })
                || (irreducible is None && primitive_element is Some && e == (GaloisError::InvalidElement {
                    value: primitive_element->0, characteristic: p, degree: m }))),
    {
        if m == 0 {
            return Err(GaloisError::InvalidDegree(0));
        }
        if !crate::prime::is_prime(p) {
            return Err(GaloisError::InvalidCharacteristic(p));
        }
        let order = match crate::prime::checked_npow(p, m) {
            Some(q) => q,
            None => { return Err(GaloisError::InvalidOrder(wrapping_npow(p, m))); },
        };
        proof {
            if m > 64 {
                crate::prime::lemma_pow2_64_exceeds();
                crate::arith::lemma_npow_mono_base(2, p as nat, m as nat);
                crate::prime::lemma_npow_mono_exp(2, 64, m as nat);
            }
        }
        let f = match irreducible {
            Some(poly) => poly,
            None => {
                if m == 1 {
                    match PrimePoly::x(p) {
                        Ok(x) => x,
                        Err(e) => { return Err(e); },
                    }
                } else {
                    match crate::conway::default_irreducible(p, m) {
                        Ok(x) => x,
                        Err(e) => { return Err(e); },
                    }
                }
            },
        };
        proof {
            if irreducible is None && m > 1 {
                let low = choose|low: nat| low < npow(p as nat, m as nat) && f.coeffs_view() == #[trigger] crate::conway::monic_candidate(low, p as nat, m as nat)
                    && crate::poly::prime::zp_irreducible(f.coeffs_view(), p as nat)
                    && forall|l: nat| l < low ==> !crate::poly::prime::zp_irreducible(#[trigger] crate::conway::monic_candidate(l, p as nat, m as nat), p as nat);
                assert(f.coeffs_view().len() == m + 1);
                assert(f.coeffs_view().last() == 1);
            }
        }
        if f.characteristic() != p {
            return Err(GaloisError::FieldMismatch);
        }
        let deg = f.degree();
        if deg != m as isize {
            let actual: usize = if deg < 0 { usize::MAX } else { deg as usize };
            return Err(GaloisError::InvalidIrreducibleDegree { expected: m, actual });
        }
        if m > 1 && !f.is_monic() {
            return Err(GaloisError::NonMonicIrreducible);
        }
        if verify && m > 1 && !f.is_irreducible() {
            return Err(GaloisError::ReduciblePolynomial { characteristic: p });
        }
        let partial = GaloisField {
            characteristic: p,
            degree: m,
            order,
            irreducible: f,
            log_table: Vec::new(),
            exp_table: Vec::new(),
            primitive_element: 0,
            default_repr: ElementRepr::Int,
        };
        let primitive = match primitive_element {
            Some(value) => {
                match partial.validate_element(value) {
                    Ok(v) => v,
                    Err(e) => { return Err(e); },
                }
            },
            None => {
                match partial.find_primitive_element() {
                    Ok(v) => v,
                    Err(e) => { return Err(e); },
                }
            },
        };
        let (log_table, exp_table) = match partial.build_log_exp_tables(primitive) {
            Ok(t) => t,
            Err(e) => { return Err(e); },
        };
        let GaloisField { irreducible: f, .. } = partial;
        Ok(GaloisField {
            characteristic: p,
            degree: m,
            order,
            irreducible: f,
            log_table,
            exp_table,
            primitive_element: primitive,
            default_repr: ElementRepr::Int,
        })
    }
}

/// `p^m` modulo `2^64`.
fn wrapping_npow(p: u64, m: u32) -> (r: u64)
    ensures
        r == npow(p as nat, m as nat) % 0x1_0000_0000_0000_0000,
{
    let mut acc: u64 = 1;
    let mut i: u32 = 0;
    proof {
        crate::arith::lemma_npow_zero(p as nat);
        vstd::arithmetic::div_mod::lemma_small_mod(1, 0x1_0000_0000_0000_0000);
    }
    while i < m
        invariant
            i <= m,
            acc as nat == npow(p as nat, i as nat) % 0x1_0000_0000_0000_0000,
        decreases m - i,
    {
        proof {
            assert((acc as int) * (p as int) <= 0xffff_ffff_ffff_ffffint * 0xffff_ffff_ffff_ffffint) by (nonlinear_arith)
                requires acc <= 0xffff_ffff_ffff_ffffint, p <= 0xffff_ffff_ffff_ffffint, acc >= 0, p >= 0;
        }
        let next: u128 = ((acc as u128) * (p as u128)) % 0x1_0000_0000_0000_0000u128;
        proof {
            lemma_npow_succ(p as nat, i as nat);
            vstd::arithmetic::div_mod::lemma_mul_mod_noop_left(npow(p as nat, i as nat) as int, p as int, 0x1_0000_0000_0000_0000int);
        }
        acc = next as u64;
        i = i + 1;
    }
    acc
}


impl Clone for GaloisField {
    fn clone(&self) -> (r: Self)
        ensures
            r.equiv(self),
    {
        let lt = self.log_table.clone();
        let et = self.exp_table.clone();
        assert(lt@ =~= self.log_table@);
        assert(et@ =~= self.exp_table@);
        GaloisField {
            characteristic: self.characteristic,
            degree: self.degree,
            order: self.order,
            irreducible: self.irreducible.clone(),
            log_table: lt,
            exp_table: et,
            primitive_element: self.primitive_element,
            default_repr: self.default_repr,
        }
    }
}

impl GaloisField {
    /// Equivalent fields are both well-formed or neither.
    pub proof fn lemma_equiv_wf(&self, other: &Self)
        requires
            self.equiv(other),
        ensures
            self.wf() == other.wf(),
            self.params_ok() == other.params_ok(),
            self.model() == other.model(),
    {
    }

    /// `g^i == 1` for `i < q - 1` only at `i == 0`.
    pub proof fn lemma_power_one(&self, i: nat)
        requires
            self.wf(),
            i < self.q() - 1,
        ensures
            (self.power(i) == 1) == (i == 0),
    {
        self.lemma_q_ge_2();
        self.lemma_power_table(i);
        self.lemma_power_table(0);
        assert(self.power(0) == 1);
        if self.power(i) == 1 {
            assert(self.logs()[self.exps()[i as int] as int] == i);
            assert(self.logs()[self.exps()[0] as int] == 0);
        }
    }

    /// `b^e`, read off the tables.
    pub fn pow(&self, base: u64, exp: u64) -> (r: u64)
        requires
            self.wf(),
            base < self.q(),
        ensures
            r == self.pow_spec(base as nat, exp as nat),
            r < self.q(),
    {
        proof { self.lemma_q_ge_2(); }
        if exp == 0 {
            return 1;
        }
        if base == 0 {
            return 0;
        }
        let n = self.order - 1;
        let l = self.log_table[base as usize];
        proof {
            self.lemma_dlog(base as nat);
            assert((l as int) * (exp as int) <= 0xffff_ffff_ffff_ffffint * 0xffff_ffff_ffff_ffffint) by (nonlinear_arith)
                requires l <= 0xffff_ffff_ffff_ffffint, exp <= 0xffff_ffff_ffff_ffffint, l >= 0, exp >= 0;
        }
        let idx = ((l as u128) * (exp as u128)) % (n as u128);
        proof {
            vstd::arithmetic::div_mod::lemma_mod_bound((l as int) * (exp as int), n as int);
            self.lemma_power_table(idx as nat);
        }
        self.exp_table[idx as usize]
    }

    /// `a / b`; `DivisionByZero` when `b` is zero.
    pub fn div(&self, a: u64, b: u64) -> (r: Result<u64>)
        requires
            self.wf(),
            a < self.q(),
            b < self.q(),
        ensures
            b == 0 ==> r == Err::<u64, GaloisError>(GaloisError::DivisionByZero {
                characteristic: self.p() as u64, degree: self.m() as u32 }),
            b != 0 ==> (r matches Ok(v) && v == self.div_spec(a as nat, b as nat) && v < self.q()),
    {
        if b == 0 {
            return Err(GaloisError::DivisionByZero { characteristic: self.characteristic, degree: self.degree });
        }
        if a == 0 {
            return Ok(0);
        }
        proof {
            self.lemma_q_ge_2();
            self.lemma_dlog(a as nat);
            self.lemma_dlog(b as nat);
        }
        let n = self.order - 1;
        let la = self.log_table[a as usize] as u64;
        let lb = self.log_table[b as usize] as u64;
        let idx = (((la as u128) + (n as u128) - (lb as u128)) % (n as u128)) as u64;
        proof {
            vstd::arithmetic::div_mod::lemma_mod_bound((la + n - lb) as int, n as int);
            self.lemma_power_table(idx as nat);
        }
        Ok(self.exp_table[idx as usize])
    }

    /// The discrete logarithm of a nonzero element; `DivisionByZero` for zero.
    pub fn log(&self, value: u64) -> (r: Result<u32>)
        requires
            self.wf(),
            value < self.q(),
        ensures
            value == 0 ==> r == Err::<u32, GaloisError>(GaloisError::DivisionByZero {
                characteristic: self.p() as u64, degree: self.m() as u32 }),
            value != 0 ==> (r matches Ok(l) && l == self.dlog(value as nat)),
    {
        if value == 0 {
            return Err(GaloisError::DivisionByZero { characteristic: self.characteristic, degree: self.degree });
        }
        proof { self.lemma_dlog(value as nat); }
        Ok(self.log_table[value as usize])
    }

    /// Discrete logarithm with respect to the primitive element; `InvalidElement` for a value
    /// that is not an element, `DivisionByZero` for zero.
    pub fn discrete_log(&self, value: u64) -> (r: Result<u64>)
        requires
            self.wf(),
        ensures
            value >= self.q() ==> r == Err::<u64, GaloisError>(GaloisError::InvalidElement {
                value, characteristic: self.p() as u64, degree: self.m() as u32 }),
            value == 0 ==> r == Err::<u64, GaloisError>(GaloisError::DivisionByZero {
                characteristic: self.p() as u64, degree: self.m() as u32 }),
            0 < value < self.q() ==> (r matches Ok(l) && l == self.dlog(value as nat) && l < self.q() - 1
                && self.power(l as nat) == value),
    {
        if let Err(e) = self.validate_element(value) {
            return Err(e);
        }
        match self.log(value) {
            Ok(l) => {
                proof { self.lemma_dlog(value as nat); }
                Ok(l as u64)
            },
            Err(e) => Err(e),
        }
    }

    /// The primitive element raised to `log`.
    pub fn exp_from_log(&self, log: u64) -> (r: u64)
        requires
            self.wf(),
        ensures
            r == self.power((log as nat) % ((self.q() - 1) as nat)),
            r < self.q(),
    {
        proof { self.lemma_q_ge_2(); }
        let idx = log % (self.order - 1);
        proof { self.lemma_power_table(idx as nat); }
        self.exp_table[idx as usize]
    }

    /// The characteristic and the degree fit their machine types.
    pub proof fn lemma_params_fit(&self)
        ensures
            self.p() <= u64::MAX,
            self.m() <= u32::MAX,
            self.q() <= u64::MAX,
    {
    }

    /// The primitive element raised to the first power is the primitive element:
    /// `exp_from_log(1)` gives `primitive_element()`.
    pub proof fn lemma_exp_of_one(&self)
        requires
            self.wf(),
            self.g() != 0,
        ensures
            self.power(1nat % ((self.q() - 1) as nat)) == self.g(),
    {
        self.lemma_q_ge_2();
        if self.q() == 2 {
            assert(1nat % 1nat == 0);
        } else {
            vstd::arithmetic::div_mod::lemma_small_mod(1nat, (self.q() - 1) as nat);
            assert(gf_power(self.g(), 1, self.p(), self.m(), self.f())
                == gf_mul(gf_power(self.g(), 0, self.p(), self.m(), self.f()), self.g(), self.p(), self.m(), self.f()));
            crate::field::model::lemma_gf_mul_one_left(self.g(), self.p(), self.m(), self.f());
        }
    }
}


/// If `m k == 0 (mod n)` then `m k t == 0 (mod n)`.
proof fn lemma_mul_zero_mod(m: int, k: int, t: int, n: int)
    requires
        n > 0,
        (m * k) % n == 0,
    ensures
        (m * (k * t)) % n == 0,
{
    vstd::arithmetic::div_mod::lemma_fundamental_div_mod(m * k, n);
    let c = (m * k) / n;
    assert(m * (k * t) == (c * t) * n) by (nonlinear_arith) requires m * k == n * c;
    vstd::arithmetic::div_mod::lemma_mod_multiples_basic(c * t, n);
}

impl GaloisField {
    /// `b^k == 1` exactly when `dlog(b) k` is a multiple of `q - 1`.
    pub proof fn lemma_pow_one(&self, b: nat, k: nat)
        requires
            self.wf(),
            1 <= b < self.q(),
            k >= 1,
        ensures
            (self.pow_spec(b, k) == 1) == (((self.dlog(b) * k) as int) % ((self.q() - 1) as int) == 0),
    {
        self.lemma_q_ge_2();
        let n = (self.q() - 1) as int;
        vstd::arithmetic::div_mod::lemma_mod_bound((self.dlog(b) * k) as int, n);
        self.lemma_power_one((((self.dlog(b) * k) as int) % n) as nat);
    }

    /// The multiplicative order of a nonzero element: the result `k` divides `q - 1`,
    /// `a^k = 1`, and `a^(k/r) != 1` for every prime `r` dividing `k`.
    pub fn multiplicative_order(&self, a: u64) -> (r: Result<u64>)
        requires
            self.wf(),
        ensures
            a >= self.q() ==> r == Err::<u64, GaloisError>(GaloisError::InvalidElement {
                value: a, characteristic: self.p() as u64, degree: self.m() as u32 }),
            a == 0 ==> r == Err::<u64, GaloisError>(GaloisError::DivisionByZero {
                characteristic: self.p() as u64, degree: self.m() as u32 }),
            1 <= a < self.q() ==> (r matches Ok(k) && k >= 1 && (self.q() - 1) as nat % (k as nat) == 0
                && self.pow_spec(a as nat, k as nat) == 1
                && forall|t: nat| #[trigger] is_prime_spec(t) && (k as nat) % t == 0 ==> self.pow_spec(a as nat, (k as nat) / t) != 1),
    {
        let a = match self.validate_element(a) {
            Ok(v) => v,
            Err(e) => { return Err(e); },
        };
        if a == 0 {
            return Err(GaloisError::DivisionByZero { characteristic: self.characteristic, degree: self.degree });
        }
        proof { self.lemma_q_ge_2(); self.lemma_dlog(a as nat); }
        let n = self.order - 1;
        let ghost L = self.dlog(a as nat) as int;
        let (factors, mults) = match crate::prime::factorize(n) {
            Ok(x) => x,
            Err(_) => { return Ok(n); },
        };
        let mut order = n;
        proof {
            vstd::arithmetic::div_mod::lemma_mod_self_0(n as int);
            assert((L * n) % (n as int) == 0) by {
                vstd::arithmetic::div_mod::lemma_mod_multiples_basic(L, n as int);
                assert(L * n == n * L) by (nonlinear_arith);
            }
        }
        let mut i: usize = 0;
        while i < factors.len()
            invariant
                self.wf(),
                1 <= a < self.q(),
                n == self.q() - 1,
                n >= 1,
                L == self.dlog(a as nat),
                n < 2 ==> factors@.len() == 0,
                n >= 2 ==> crate::arith::is_prime_factorization(n as nat, factors@, mults@),
                i <= factors@.len(),
                order >= 1,
                (n as nat) % (order as nat) == 0,
                (L * order) % (n as int) == 0,
                forall|j: int| 0 <= j < i ==> !((order as nat) % (#[trigger] factors@[j] as nat) == 0
                    && (L * ((order as nat) / (factors@[j] as nat)) as int) % (n as int) == 0),
            decreases factors@.len() - i,
        {
            let pf = factors[i];
            proof { assert(is_prime_spec(factors@[i as int] as nat)); }
            while order % pf == 0 && self.pow(a, order / pf) == 1
                invariant
                    self.wf(),
                    1 <= a < self.q(),
                    n == self.q() - 1,
                    n >= 1,
                    L == self.dlog(a as nat),
                    pf >= 2,
                    pf == factors@[i as int],
                    i < factors@.len(),
                    n < 2 ==> factors@.len() == 0,
                    n >= 2 ==> crate::arith::is_prime_factorization(n as nat, factors@, mults@),
                    order >= 1,
                    (n as nat) % (order as nat) == 0,
                    (L * order) % (n as int) == 0,
                    forall|j: int| 0 <= j < i ==> !((order as nat) % (#[trigger] factors@[j] as nat) == 0
                        && (L * ((order as nat) / (factors@[j] as nat)) as int) % (n as int) == 0),
                decreases order,
            {
                let ghost old_order = order;
                proof {
                    vstd::arithmetic::div_mod::lemma_fundamental_div_mod(order as int, pf as int);
                    assert(order / pf >= 1) by (nonlinear_arith)
                        requires order == pf * (order / pf) + order % pf, order % pf == 0, order >= 1, pf >= 2;
                    self.lemma_pow_one(a as nat, (order / pf) as nat);
                }
                let next = order / pf;
                proof {
                    assert(next >= 1);
                    assert(next < order) by (nonlinear_arith)
                        requires order == pf * next, next >= 1, pf >= 2;
                    // divisibility of n is kept
                    vstd::arithmetic::div_mod::lemma_fundamental_div_mod(n as int, order as int);
                    let c = (n as int) / (order as int);
                    assert(n as int == next * (pf * c)) by (nonlinear_arith)
                        requires n as int == order * c, order == pf * next;
                    vstd::arithmetic::div_mod::lemma_mod_multiples_basic((pf * c) as int, next as int);
                    assert((n as int) == (pf * c) * next) by (nonlinear_arith) requires n as int == next * (pf * c);
                    assert forall|j: int| 0 <= j < i implies !((next as nat) % (#[trigger] factors@[j] as nat) == 0
                        && (L * ((next as nat) / (factors@[j] as nat)) as int) % (n as int) == 0) by {
                        let r = factors@[j] as nat;
                        assert(is_prime_spec(r));
                        if (next as nat) % r == 0 && (L * ((next as nat) / r) as int) % (n as int) == 0 {
                            vstd::arithmetic::div_mod::lemma_fundamental_div_mod(next as int, r as int);
                            let t = (next as nat) / r;
                            assert(old_order as int == r * (t * pf)) by (nonlinear_arith)
                                requires old_order == pf * next, next as int == r * t;
                            vstd::arithmetic::div_mod::lemma_mod_multiples_basic((t * pf) as int, r as int);
                            assert((old_order as int) == (t * pf) * r) by (nonlinear_arith) requires old_order as int == r * (t * pf);
                            vstd::arithmetic::div_mod::lemma_div_multiples_vanish((t * pf) as int, r as int);
                            assert((old_order as nat) / r == t * pf);
                            lemma_mul_zero_mod(L, t as int, pf as int, n as int);
                        }
                    }
                }
                order = next;
            }
            i = i + 1;
        }
        proof {
            self.lemma_pow_one(a as nat, order as nat);
            assert forall|t: nat| #[trigger] is_prime_spec(t) && (order as nat) % t == 0 implies
                self.pow_spec(a as nat, (order as nat) / t) != 1 by {
                // t divides n, so it is one of the factors
                vstd::arithmetic::div_mod::lemma_fundamental_div_mod(n as int, order as int);
                vstd::arithmetic::div_mod::lemma_fundamental_div_mod(order as int, t as int);
                let c = (n as int) / (order as int);
                let u = (order as int) / (t as int);
                assert(n as int == (u * c) * t) by (nonlinear_arith)
                    requires n as int == order * c, order as int == t * u;
                vstd::arithmetic::div_mod::lemma_mod_multiples_basic(u * c, t as int);
                if n < 2 {
                    vstd::arithmetic::div_mod::lemma_small_mod(n as nat, t);
                } else {
                    crate::arith::lemma_prime_in_factorization(t, factors@, mults@);
                    let j = choose|j: int| 0 <= j < factors@.len() && factors@[j] == t;
                    assert(!((order as nat) % (factors@[j] as nat) == 0
                        && (L * ((order as nat) / (factors@[j] as nat)) as int) % (n as int) == 0));
                    assert(u >= 1) by (nonlinear_arith) requires order as int == t * u, order >= 1, t >= 2;
                    self.lemma_pow_one(a as nat, (order as nat) / t);
                }
            }
        }
        Ok(order)
    }
}


/// `2^k`.
fn pow2(k: u32) -> (r: u64)
    requires
        k < 64,
    ensures
        r == npow(2, k as nat),
{
    let mut r: u64 = 1;
    let mut i: u32 = 0;
    proof { crate::arith::lemma_npow_zero(2); }
    while i < k
        invariant
            i <= k < 64,
            r == npow(2, i as nat),
        decreases k - i,
    {
        proof {
            lemma_npow_succ(2, i as nat);
            lemma_npow_le(2, (i + 1) as nat, 63);
            vstd::arithmetic::power2::lemma2_to64();
            vstd::arithmetic::power2::lemma_pow2(64);
            crate::arith::lemma_npow_nonneg(2, 64);
            crate::arith::lemma_npow_unfold(2, 64);
            assert(npow(2, 64) == 0x1_0000_0000_0000_0000);
            assert(npow(2, 63) == 0x8000_0000_0000_0000);
            assert(r * 2 == npow(2, (i + 1) as nat));
        }
        r = r * 2;
        i = i + 1;
    }
    r
}

/// The square root that `sqrt` finds for a nonzero element `a`: in characteristic two
/// `a^(2^(m-1))`; otherwise `a^(q/4 + 1)` when `q = 3 (mod 4)` and that squares to `a`, and
/// else the candidate of Tonelli-Shanks; `None` when the candidate does not square to `a`.
pub open spec fn sqrt_candidate(f: GaloisField, a: nat) -> Option<nat> {
    if f.p() == 2 {
        let y = if f.m() == 1 { a } else { f.pow_spec(a, npow(2, (f.m() - 1) as nat)) };
        if f.mul_spec(y, y) == a { Some(y) } else { None }
    } else {
        let y1 = f.pow_spec(a, f.q() / 4 + 1);
        if f.q() % 4 == 3 && f.mul_spec(y1, y1) == a {
            Some(y1)
        } else {
            match ts_spec(f, a) {
                Some(y) => if f.mul_spec(y, y) == a { Some(y) } else { None },
                None => None,
            }
        }
    }
}

/// The least `y` from `y0` on, below `q`, with `y * y = a`.
pub open spec fn first_root(f: GaloisField, a: nat, y0: nat) -> Option<nat>
    decreases f.q() - y0,
{
    if y0 >= f.q() {
        None
    } else if f.mul_spec(y0, y0) == a {
        Some(y0)
    } else {
        first_root(f, a, y0 + 1)
    }
}

/// The square root returned for the nonzero element `a`: the candidate of the closed
/// formulas or Tonelli-Shanks when it checks out, otherwise the least root by search.
pub open spec fn sqrt_spec(f: GaloisField, a: nat) -> Option<nat> {
    match sqrt_candidate(f, a) {
        Some(y) => Some(y),
        None => first_root(f, a, 0),
    }
}

/// `first_root` finds a root exactly when there is one from `y0` on.
pub proof fn lemma_first_root(f: GaloisField, a: nat, y0: nat)
    ensures
        first_root(f, a, y0) matches Some(y) ==> y0 <= y < f.q() && f.mul_spec(y, y) == a,
        first_root(f, a, y0) is None ==> forall|y: nat| y0 <= y < f.q() ==> #[trigger] f.mul_spec(y, y) != a,
    decreases f.q() - y0,
{
    if y0 < f.q() && f.mul_spec(y0, y0) != a {
        lemma_first_root(f, a, y0 + 1);
    }
}

impl GaloisField {
    /// A square root of `a`: `Ok(y)` with `y * y = a`, found for every square;
    /// `InvalidElement` when `a` is not an element or not a square.
    pub fn sqrt(&self, a: u64) -> (r: Result<u64>)
        requires
            self.wf(),
        ensures
            0 < a < self.q() ==> match sqrt_spec(*self, a as nat) {
                Some(y) => r == Ok::<u64, GaloisError>(y as u64),
                None => r == Err::<u64, GaloisError>(GaloisError::InvalidElement {
                    value: a, characteristic: self.p() as u64, degree: self.m() as u32 }),
            },
            a >= self.q() ==> r == Err::<u64, GaloisError>(GaloisError::InvalidElement {
                value: a, characteristic: self.p() as u64, degree: self.m() as u32 }),
            a == 0 ==> r == Ok::<u64, GaloisError>(0),
            a != 0 ==> (r matches Ok(y) ==> y < self.q() && self.mul_spec(y as nat, y as nat) == a),
            0 < a < self.q() ==> ((exists|y: nat| y < self.q() && #[trigger] self.mul_spec(y, y) == a) ==> r is Ok),
            r matches Err(e) ==> e == (GaloisError::InvalidElement {
                value: a, characteristic: self.p() as u64, degree: self.m() as u32 }),
    {
        let a = match self.validate_element(a) {
            Ok(v) => v,
            Err(e) => { return Err(e); },
        };
        if a == 0 {
            return Ok(0);
        }
        proof { lemma_first_root(*self, a as nat, 0); }
        if self.characteristic == 2 {
            let y = if self.degree == 1 { a } else { self.pow(a, pow2(self.degree - 1)) };
            if self.mul(y, y) == a {
                return Ok(y);
            }
            return self.search_sqrt(a);
        }
        let q = self.order;
        if q % 4 == 3 {
            let y = self.pow(a, q / 4 + 1);
            if self.mul(y, y) == a {
                return Ok(y);
            }
        }
        match self.tonelli_shanks(a) {
            Some(y) => {
                if self.mul(y, y) == a {
                    Ok(y)
                } else {
                    self.search_sqrt(a)
                }
            },
            None => self.search_sqrt(a),
        }
    }

    /// The least square root of `a` by trying every element in turn; `InvalidElement` when
    /// there is none.
    fn search_sqrt(&self, a: u64) -> (r: Result<u64>)
        requires
            self.wf(),
            1 <= a < self.q(),
        ensures
            match first_root(*self, a as nat, 0) {
                Some(y) => r == Ok::<u64, GaloisError>(y as u64),
                None => r == Err::<u64, GaloisError>(GaloisError::InvalidElement {
                    value: a, characteristic: self.p() as u64, degree: self.m() as u32 }),
            },
            r matches Ok(y) ==> y < self.q() && self.mul_spec(y as nat, y as nat) == a,
            r is Err ==> forall|y: nat| y < self.q() ==> #[trigger] self.mul_spec(y, y) != a,
    {
        proof { lemma_first_root(*self, a as nat, 0); }
        let q = self.order;
        let mut y: u64 = 0;
        while y < q
            invariant
                self.wf(),
                q == self.q(),
                1 <= a < q,
                y <= q,
                first_root(*self, a as nat, y as nat) == first_root(*self, a as nat, 0),
            decreases q - y,
        {
            if self.mul(y, y) == a {
                return Ok(y);
            }
            y = y + 1;
        }
        Err(GaloisError::InvalidElement { value: a, characteristic: self.characteristic, degree: self.degree })
    }

    /// Tonelli-Shanks: a candidate square root of the nonzero element `a`, or `None` when `a`
    /// is found not to be a square.
    fn tonelli_shanks(&self, a: u64) -> (r: Option<u64>)
        requires
            self.wf(),
            1 <= a < self.q(),
        ensures
            r matches Some(y) ==> y < self.q(),
            match ts_spec(*self, a as nat) {
                Some(v) => r == Some(v as u64) && v < self.q(),
                None => r is None,
            },
    {
        proof { self.lemma_q_ge_2(); }
        let q = self.order;
        let mut s: u32 = 0;
        let mut t = q - 1;
        proof { crate::arith::lemma_npow_zero(2); }
        while t % 2 == 0 && t > 0
            invariant
                s <= 64,
                t <= q - 1,
                t > 0 ==> t as nat * npow(2, s as nat) == q - 1,
                odd_part(t as nat, s as nat) == odd_part((self.q() - 1) as nat, 0),
                q == self.q(),
            decreases t,
        {
            proof {
                lemma_npow_succ(2, s as nat);
                if s >= 63 {
                    crate::prime::lemma_pow2_64_exceeds();
                    lemma_npow_le(2, 64, (s + 1) as nat);
                    assert(t as nat * npow(2, s as nat) >= 2 * npow(2, s as nat)) by (nonlinear_arith)
                        requires t >= 2, npow(2, s as nat) >= 0;
                    assert(false);
                }
                vstd::arithmetic::div_mod::lemma_fundamental_div_mod(t as int, 2);
                assert((t / 2) as nat * npow(2, (s + 1) as nat) == t as nat * npow(2, s as nat)) by (nonlinear_arith)
                    requires t == 2 * (t / 2), npow(2, (s + 1) as nat) == npow(2, s as nat) * 2;
            }
            t = t / 2;
            s = s + 1;
        }
        if t == 0 || s == 0 {
            return None;
        }
        assert(odd_part(t as nat, s as nat) == (t as nat, s as nat));
        let half = (q - 1) / 2;
        let mut z: u64 = 2;
        while z < q && self.pow(z, half) == 1
            invariant
                self.wf(),
                q == self.q(),
                2 <= z <= q,
                first_nonresidue(*self, z as nat, half as nat) == first_nonresidue(*self, 2, half as nat),
            decreases q - z,
        {
            z = z + 1;
        }
        if z >= q {
            return None;
        }
        let mut m = s;
        let mut c = self.pow(z, t);
        let mut r = self.pow(a, t / 2 + 1);
        let mut tv = self.pow(a, t);
        let ghost target = ts_spec(*self, a as nat);
        assert(target == ts_loop(*self, m as nat, c as nat, r as nat, tv as nat));
        while tv != 1
            invariant
                self.wf(),
                q == self.q(),
                c < q,
                r < q,
                tv < q,
                m <= 64,
                target == ts_loop(*self, m as nat, c as nat, r as nat, tv as nat),
                target == ts_spec(*self, a as nat),
            decreases m,
        {
            let mut i: u32 = 0;
            let mut temp = tv;
            while i < m && temp != 1
                invariant
                    self.wf(),
                    q == self.q(),
                    temp < q,
                    i <= m,
                    squarings(*self, temp as nat, i as nat, m as nat) == squarings(*self, tv as nat, 0, m as nat),
                decreases m - i,
            {
                temp = self.mul(temp, temp);
                i = i + 1;
            }
            assert(squarings(*self, temp as nat, i as nat, m as nat) == i as nat);
            assert(squarings(*self, tv as nat, 0, m as nat) == i as nat);
            if i == 0 || i >= m {
                assert(ts_loop(*self, m as nat, c as nat, r as nat, tv as nat) is None);
                return None;
            }
            let mut b = c;
            let mut k: u32 = 0;
            while k + i + 1 < m
                invariant
                    self.wf(),
                    q == self.q(),
                    b < q,
                    i < m,
                    m <= 64,
                    k + i + 1 <= m,
                    square_n(*self, b as nat, (m - i - 1 - k) as nat) == square_n(*self, c as nat, (m - i - 1) as nat),
                decreases m - k,
            {
                b = self.mul(b, b);
                k = k + 1;
            }
            m = i;
            c = self.mul(b, b);
            tv = self.mul(tv, c);
            r = self.mul(r, b);
        }
        Some(r)
    }
}


/// `(t, s)` with `t` odd (or zero) and `t 2^s` equal to `t0 2^s0`: the factors of two
/// removed from `t0`, counted on from `s0`.
pub open spec fn odd_part(t: nat, s: nat) -> (nat, nat)
    decreases t,
{
    if t % 2 == 0 && t > 0 { odd_part(t / 2, s + 1) } else { (t, s) }
}

/// The first `z` from `z` on, below `q`, with `z^half != 1`; `q` when there is none.
pub open spec fn first_nonresidue(f: GaloisField, z: nat, half: nat) -> nat
    decreases f.q() - z,
{
    if z < f.q() && f.pow_spec(z, half) == 1 { first_nonresidue(f, z + 1, half) } else { z }
}

/// The number of squarings, counted on from `i` and stopping at `m`, after which `temp`
/// becomes one.
pub open spec fn squarings(f: GaloisField, temp: nat, i: nat, m: nat) -> nat
    decreases m - i,
{
    if i < m && temp != 1 { squarings(f, f.mul_spec(temp, temp), i + 1, m) } else { i }
}

/// `b` squared `n` times.
pub open spec fn square_n(f: GaloisField, b: nat, n: nat) -> nat
    decreases n,
{
    if n == 0 { b } else { square_n(f, f.mul_spec(b, b), (n - 1) as nat) }
}

/// The main loop of Tonelli-Shanks from the state `(m, c, r, tv)`.
pub open spec fn ts_loop(f: GaloisField, m: nat, c: nat, r: nat, tv: nat) -> Option<nat>
    decreases m,
{
    if tv == 1 {
        Some(r)
    } else {
        let i = squarings(f, tv, 0, m);
        if i == 0 || i >= m {
            None
        } else {
            let b = square_n(f, c, (m - i - 1) as nat);
            let c2 = f.mul_spec(b, b);
            ts_loop(f, i, c2, f.mul_spec(r, b), f.mul_spec(tv, c2))
        }
    }
}

/// What Tonelli-Shanks computes for the nonzero element `a`: `q - 1 = t 2^s` with `t`
/// odd, a non-residue `z` (the first from two on), then the loop from
/// `(s, z^t, a^((t+1)/2), a^t)`.
pub open spec fn ts_spec(f: GaloisField, a: nat) -> Option<nat> {
    let (t, s) = odd_part((f.q() - 1) as nat, 0);
    if t == 0 || s == 0 {
        None
    } else {
        let z = first_nonresidue(f, 2, ((f.q() - 1) / 2) as nat);
        if z >= f.q() {
            None
        } else {
            ts_loop(f, s, f.pow_spec(z, t), f.pow_spec(a, t / 2 + 1), f.pow_spec(a, t))
        }
    }
}

/// The symbol of the primitive element's root, `α`.
pub open spec fn alpha() -> Seq<char> {
    seq!['\u{3b1}']
}

/// Text of an element: decimal (`Int`), a polynomial in `α` (`Poly`, `"0"` for zero) or a
/// power of `α` (`Power`, `"0"` for zero).
pub open spec fn element_text(field: GaloisField, v: nat, repr: ElementRepr) -> Seq<char> {
    match repr {
        ElementRepr::Int => decimal(v),
        ElementRepr::Poly => {
            let t = terms_text_asc(digits(v, field.p(), field.m()), field.p(), alpha());
            if t.len() == 0 { seq!['0'] } else { t }
        },
        ElementRepr::Power => {
            if v == 0 { seq!['0'] } else { alpha() + seq!['^'] + decimal(field.dlog(v)) }
        },
    }
}

/// `"GF(p)"` for a prime field, `"GF(p^m)"` otherwise.
pub open spec fn field_name(p: nat, m: nat) -> Seq<char> {
    if m == 1 {
        seq!['G', 'F', '('] + decimal(p) + seq![')']
    } else {
        seq!['G', 'F', '('] + decimal(p) + seq!['^'] + decimal(m) + seq![')']
    }
}

impl GaloisField {
    /// Text of an element in the given representation.
    pub(crate) fn format_element(&self, value: u64, repr: ElementRepr) -> (r: String)
        requires
            self.wf(),
            value < self.q(),
        ensures
            r@ == element_text(*self, value as nat, repr),
    {
        match repr {
            ElementRepr::Int => crate::text::u64_to_string(value),
            ElementRepr::Poly => {
                let coeffs = self.int_to_coeffs(value);
                let (text, nonempty) = format_terms_asc(coeffs.as_slice(), self.characteristic, "\u{3b1}");
                proof {
                    reveal_strlit("\u{3b1}");
                    assert("\u{3b1}"@ =~= alpha());
                }
                if nonempty {
                    text
                } else {
                    let mut z = String::new();
                    push_char(&mut z, '0');
                    assert(z@ =~= seq!['0']);
                    z
                }
            },
            ElementRepr::Power => {
                let mut out = String::new();
                if value == 0 {
                    push_char(&mut out, '0');
                    assert(out@ =~= seq!['0']);
                } else {
                    let l = match self.log(value) {
                        Ok(l) => l,
                        Err(_) => 0,
                    };
                    push_char(&mut out, '\u{3b1}');
                    push_char(&mut out, '^');
                    push_decimal(&mut out, l as u64);
                    assert(out@ =~= alpha() + seq!['^'] + decimal(self.dlog(value as nat)));
                }
                out
            },
        }
    }

    /// `"GF(p)"` or `"GF(p^m)"`.
    pub fn name(&self) -> (r: String)
        ensures
            r@ == field_name(self.p(), self.m()),
    {
        let mut out = String::new();
        push_str(&mut out, "GF(");
        push_decimal(&mut out, self.characteristic);
        if self.degree != 1 {
            push_char(&mut out, '^');
            push_decimal(&mut out, self.degree as u64);
        }
        push_char(&mut out, ')');
        proof { reveal_strlit("GF("); }
        assert(out@ =~= field_name(self.p(), self.m()));
        out
    }

    /// GF(p^m) with the default irreducible polynomial and primitive element.
    pub fn new(p: u64, m: u32) -> (r: Result<Self>)
        ensures
            new_contract(p, m, r),
    {
        Self::new_uncached(p, m)
    }

    /// GF(p^m) with the default irreducible polynomial and primitive element, built afresh.
    pub fn new_uncached(p: u64, m: u32) -> (r: Result<Self>)
        ensures
            new_contract(p, m, r),
    {
        Self::with_options(p, m, None, None, true)
    }

    /// GF(order) for a prime power `order`.
    pub fn from_order(field_order: u64) -> (r: Result<Self>)
        ensures
            field_order < 2 ==> r == Err::<Self, GaloisError>(GaloisError::InvalidOrder(field_order)),
            field_order >= 2 && !crate::poly::integer::is_prime_power_spec(field_order as nat) ==> r == Err::<Self, GaloisError>(
                GaloisError::UnfactorizableOrder(field_order)),
            field_order >= 2 && crate::poly::integer::is_prime_power_spec(field_order as nat) ==> (exists|p: u64, m: u32|
                is_prime_spec(p as nat) && m >= 1 && npow(p as nat, m as nat) == field_order && #[trigger] new_contract(p, m, r)),
    {
        let (p, m) = match crate::poly::integer::factor_prime_power(field_order) {
            Ok(pm) => pm,
            Err(e) => { return Err(e); },
        };
        Self::new(p, m)
    }
}


/// What `GaloisField::new(p, m)` promises: the construction errors in order, and a field with
/// the default irreducible polynomial and primitive element on success.
pub open spec fn new_contract(p: u64, m: u32, r: Result<GaloisField>) -> bool {
    &&& m == 0 ==> r == Err::<GaloisField, GaloisError>(GaloisError::InvalidDegree(0))
    &&& m >= 1 && !is_prime_spec(p as nat) ==> r == Err::<GaloisField, GaloisError>(GaloisError::InvalidCharacteristic(p))
    &&& m >= 1 && is_prime_spec(p as nat) && npow(p as nat, m as nat) > u64::MAX ==> r == Err::<GaloisField, GaloisError>(
        GaloisError::InvalidOrder((npow(p as nat, m as nat) % 0x1_0000_0000_0000_0000) as u64))
    &&& options_succeed(p, m, None, None, true) ==> r is Ok
    &&& r matches Ok(field) ==> field.wf() && field.p() == p && field.m() == m && field.repr() == ElementRepr::Int
        && (m == 1 ==> field.f() == seq![0u64, 1u64])
        && (m > 1 ==> crate::conway::is_first_irreducible(field.f(), p as nat, m as nat))
        && default_primitive(field.g(), p as nat, m as nat, field.f())
    &&& r matches Err(e) ==> (m == 0 || !is_prime_spec(p as nat) || npow(p as nat, m as nat) > u64::MAX
        || e == (GaloisError::ReduciblePolynomial { characteristic: p })
        || e == (GaloisError::IrreduciblePolyNotFound { characteristic: p, degree: m }))
}

/// GF(order) for a prime power `order`.
#[allow(non_snake_case)]
pub fn GF(field_order: u64) -> (r: Result<GaloisField>)
    ensures
        field_order < 2 ==> r == Err::<GaloisField, GaloisError>(GaloisError::InvalidOrder(field_order)),
        field_order >= 2 && !crate::poly::integer::is_prime_power_spec(field_order as nat) ==> r == Err::<GaloisField, GaloisError>(
            GaloisError::UnfactorizableOrder(field_order)),
        field_order >= 2 && crate::poly::integer::is_prime_power_spec(field_order as nat) ==> (exists|p: u64, m: u32|
            is_prime_spec(p as nat) && m >= 1 && npow(p as nat, m as nat) == field_order && #[trigger] new_contract(p, m, r)),
{
    GaloisField::from_order(field_order)
}

} // verus!
