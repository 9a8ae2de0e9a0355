//! Primitive elements of a `BigGaloisField`.

use vstd::prelude::*;
use crate::arith::{npow, prod_pows, is_prime_spec};
use crate::error::{GaloisError, Result};
use crate::field::big_field::{BigGaloisField, FieldKind};
use crate::field::factory::field_name;
use crate::field::bignum::{BigValue, limbs_div, limbs_divrem_u64, limbs_less, limbs_sub_u64, limbs_to_decimal};
use crate::field::bigint::big_int_to_coeffs;
use crate::field::element::ElementRepr;
use crate::field::factory::alpha;
use crate::field::model::digits;
use crate::poly::integer::{terms_text_asc, format_terms_asc};
use crate::text::{decimal, push_char, push_string};
use crate::field::factory::GaloisField;
use crate::field::big_field::table_twin;
use crate::field::model::gf_pow_sq;

verus! {

/// Every entry is at least two and divides `n`.
pub open spec fn divisors_found(fs: Seq<BigValue>, n: nat) -> bool {
    forall|i: int| 0 <= i < fs.len() ==> (#[trigger] fs[i]).value() >= 2 && n % fs[i].value() == 0
}

/// `v` is a nonzero element with `v^order = 1` and `v^(order / d) != 1` for each `d` in
/// `fs`.
pub open spec fn full_order_for(f: BigGaloisField, v: nat, order: nat, fs: Seq<BigValue>) -> bool {
    &&& v != 0
    &&& gf_pow_sq(v, order, f.p(), f.m(), f.f()) == 1
    &&& forall|i: int| 0 <= i < fs.len() ==> gf_pow_sq(v, order / (#[trigger] fs[i]).value(), f.p(), f.m(), f.f()) != 1
}

/// Each prime of a factorization divides the product.
proof fn lemma_prod_pows_divisible(ps: Seq<u64>, ms: Seq<u32>, i: int)
    requires
        ps.len() == ms.len(),
        0 <= i < ps.len(),
        forall|j: int| 0 <= j < ps.len() ==> (#[trigger] ps[j]) >= 2 && ms[j] >= 1,
    ensures
        prod_pows(ps, ms) % (ps[i] as nat) == 0,
    decreases ps.len(),
{
    let prev = prod_pows(ps.drop_last(), ms.drop_last());
    let last = npow(ps.last() as nat, ms.last() as nat);
    assert(prod_pows(ps, ms) == prev * last);
    let d = ps[i] as nat;
    if i == ps.len() - 1 {
        crate::arith::lemma_npow_unfold(ps.last() as nat, ms.last() as nat);
        let rest = npow(ps.last() as nat, (ms.last() - 1) as nat);
        assert(prev * last == (prev * rest) * d) by (nonlinear_arith)
            requires last == d * rest;
        vstd::arithmetic::div_mod::lemma_mod_multiples_basic((prev * rest) as int, d as int);
    } else {
        assert forall|j: int| 0 <= j < ps.drop_last().len() implies (#[trigger] ps.drop_last()[j]) >= 2
            && ms.drop_last()[j] >= 1 by {
            assert(ps.drop_last()[j] == ps[j]);
        }
        lemma_prod_pows_divisible(ps.drop_last(), ms.drop_last(), i);
        assert(ps.drop_last()[i] == ps[i]);
        let k = prev / d;
        vstd::arithmetic::div_mod::lemma_fundamental_div_mod(prev as int, d as int);
        assert(prev * last == (k * last) * d) by (nonlinear_arith)
            requires prev == d * k, d > 0;
        vstd::arithmetic::div_mod::lemma_mod_multiples_basic((k * last) as int, d as int);
    }
}

/// `a` divides `n` when `a` divides `b` and `b` divides `n`.
proof fn lemma_divides_trans(a: nat, b: nat, n: nat)
    requires
        a > 0,
        b > 0,
        b % a == 0,
        n % b == 0,
    ensures
        n % a == 0,
{
    vstd::arithmetic::div_mod::lemma_fundamental_div_mod(b as int, a as int);
    vstd::arithmetic::div_mod::lemma_fundamental_div_mod(n as int, b as int);
    let (x, y) = (b / a, n / b);
    assert(n == (x * y) * a) by (nonlinear_arith)
        requires b == a * x, n == b * y;
    vstd::arithmetic::div_mod::lemma_mod_multiples_basic((x * y) as int, a as int);
}

/// Divisors of `n` found by trial division: the distinct primes of `n` when it fits in
/// 64 bits, otherwise the factors two and odd numbers up to about a million removed in
/// turn, followed by what remains above one.
fn big_prime_factors(n: &BigValue) -> (r: Vec<BigValue>)
    requires
        n.value() >= 1,
    ensures
        divisors_found(r@, n.value()),
{
    if let Some(v) = n.to_u64() {
        let (ps, ms) = match crate::prime::factorize(v) {
            Ok(x) => x,
            Err(_) => { return Vec::new(); },
        };
        let mut out: Vec<BigValue> = Vec::new();
        let mut i: usize = 0;
        while i < ps.len()
            invariant
                v == n.value(),
                v >= 2 ==> crate::arith::is_prime_factorization(v as nat, ps@, ms@),
                v < 2 ==> ps@.len() == 0,
                i <= ps@.len(),
                out@.len() == i,
                forall|t: int| 0 <= t < i ==> (#[trigger] out@[t]).value() == ps@[t],
            decreases ps@.len() - i,
        {
            out.push(BigValue::from_u64(ps[i]));
            i = i + 1;
        }
        proof {
            assert forall|t: int| 0 <= t < out@.len() implies (#[trigger] out@[t]).value() >= 2
                && n.value() % out@[t].value() == 0 by {
                assert forall|j: int| 0 <= j < ps@.len() implies (#[trigger] ps@[j]) >= 2 && ms@[j] >= 1 by {
                    assert(is_prime_spec(ps@[j] as nat));
                }
                lemma_prod_pows_divisible(ps@, ms@, t);
            }
        }
        return out;
    }
    let mut factors: Vec<BigValue> = Vec::new();
    let mut rem = n.clone();
    loop
        invariant
            n.value() >= 1,
            rem.value() >= 1,
            n.value() % rem.value() == 0,
            divisors_found(factors@, n.value()),
        decreases rem.value(),
    {
        let (half, r2) = limbs_divrem_u64(&rem, 2);
        if r2 != 0 {
            break;
        }
        proof {
            assert(rem.value() % 2 == 0) by {
                vstd::arithmetic::div_mod::lemma_fundamental_div_mod_converse(rem.value() as int, 2, half.value() as int, 0);
            }
            lemma_divides_trans(2, rem.value(), n.value());
            assert(n.value() % half.value() == 0) by {
                vstd::arithmetic::div_mod::lemma_fundamental_div_mod(n.value() as int, rem.value() as int);
                let y = n.value() / rem.value();
                assert(n.value() == (2 * y) * half.value()) by (nonlinear_arith)
                    requires n.value() == rem.value() * y, rem.value() == half.value() * 2;
                vstd::arithmetic::div_mod::lemma_mod_multiples_basic((2 * y) as int, half.value() as int);
            }
        }
        let ghost before = factors@;
        factors.push(BigValue::from_u64(2));
        assert(divisors_found(factors@, n.value())) by {
            assert forall|i: int| 0 <= i < factors@.len() implies (#[trigger] factors@[i]).value() >= 2
                && n.value() % factors@[i].value() == 0 by {
                if i < before.len() {
                    assert(factors@[i] == before[i]);
                }
            }
        }
        rem = half;
    }
    let mut p: u64 = 3;
    while p <= 1_000_003
        invariant
            n.value() >= 1,
            rem.value() >= 1,
            n.value() % rem.value() == 0,
            3 <= p <= 1_000_005,
            divisors_found(factors@, n.value()),
        decreases 1_000_005 - p,
    {
        assert(p * p <= 1_000_003 * 1_000_003) by (nonlinear_arith)
            requires 3 <= p <= 1_000_003;
        let sq = BigValue::from_u64(p * p);
        if limbs_less(&rem, &sq) {
            break;
        }
        loop
            invariant
                n.value() >= 1,
                rem.value() >= 1,
                n.value() % rem.value() == 0,
                3 <= p <= 1_000_003,
                divisors_found(factors@, n.value()),
            decreases rem.value(),
        {
            let (quot, r) = limbs_divrem_u64(&rem, p);
            if r != 0 {
                break;
            }
            proof {
                assert(rem.value() % (p as nat) == 0) by {
                    vstd::arithmetic::div_mod::lemma_fundamental_div_mod_converse(rem.value() as int, p as int, quot.value() as int, 0);
                }
                lemma_divides_trans(p as nat, rem.value(), n.value());
                assert(n.value() % quot.value() == 0 && quot.value() >= 1 && quot.value() < rem.value()) by {
                    vstd::arithmetic::div_mod::lemma_fundamental_div_mod(n.value() as int, rem.value() as int);
                    let y = n.value() / rem.value();
                    assert(quot.value() >= 1) by (nonlinear_arith)
                        requires rem.value() == quot.value() * p, rem.value() >= 1;
                    assert(quot.value() < rem.value()) by (nonlinear_arith)
                        requires rem.value() == quot.value() * p, p >= 3, quot.value() >= 1;
                    assert(n.value() == (p * y) * quot.value()) by (nonlinear_arith)
                        requires n.value() == rem.value() * y, rem.value() == quot.value() * p;
                    vstd::arithmetic::div_mod::lemma_mod_multiples_basic((p * y) as int, quot.value() as int);
                }
            }
            let ghost before = factors@;
            factors.push(BigValue::from_u64(p));
            assert(divisors_found(factors@, n.value())) by {
                assert forall|i: int| 0 <= i < factors@.len() implies (#[trigger] factors@[i]).value() >= 2
                    && n.value() % factors@[i].value() == 0 by {
                    if i < before.len() {
                        assert(factors@[i] == before[i]);
                    }
                }
            }
            rem = quot;
        }
        p = p + 2;
    }
    let one = BigValue::from_u64(1);
    if limbs_less(&one, &rem) {
        let ghost before = factors@;
        factors.push(rem);
        assert(divisors_found(factors@, n.value())) by {
            assert forall|i: int| 0 <= i < factors@.len() implies (#[trigger] factors@[i]).value() >= 2
                && n.value() % factors@[i].value() == 0 by {
                if i < before.len() {
                    assert(factors@[i] == before[i]);
                }
            }
        }
    }
    factors
}

impl BigGaloisField {
    /// Whether `value` has full order `order` with respect to `factors`: the error of
    /// `validate` for a value that is not an element, `false` for zero.
    fn has_full_multiplicative_order(&self, value: &BigValue, order: &BigValue, factors: &Vec<BigValue>) -> (r: Result<bool>)
        requires
            self.wf(),
            divisors_found(factors@, order.value()),
        ensures
            value.value() >= self.q() ==> r is Err,
            value.value() < self.q() ==> (r matches Ok(b) && b == full_order_for(*self, value.value(), order.value(), factors@)),
    {
        let v = match self.validate(value) {
            Ok(v) => v,
            Err(e) => { return Err(e); },
        };
        if v.is_zero() {
            return Ok(false);
        }
        let one = BigValue::from_u64(1);
        if !self.pow_big(&v, order).same_value(&one) {
            return Ok(false);
        }
        let mut i: usize = 0;
        while i < factors.len()
            invariant
                self.wf(),
                v.value() == value.value(),
                value.value() < self.q(),
                one.value() == 1,
                v.value() != 0,
                gf_pow_sq(value.value(), order.value(), self.p(), self.m(), self.f()) == 1,
                divisors_found(factors@, order.value()),
                i <= factors@.len(),
                forall|t: int| 0 <= t < i ==> gf_pow_sq(value.value(), order.value() / (#[trigger] factors@[t]).value(),
                    self.p(), self.m(), self.f()) != 1,
            decreases factors@.len() - i,
        {
            let exp = limbs_div(order, &factors[i]);
            assert(exp.value() == order.value() / factors@[i as int].value());
            let pw = self.pow_big(&v, &exp);
            assert(pw.value() == gf_pow_sq(value.value(), exp.value(), self.p(), self.m(), self.f()));
            if pw.same_value(&one) {
                assert(gf_pow_sq(value.value(), order.value() / factors@[i as int].value(), self.p(), self.m(), self.f()) == 1);
                return Ok(false);
            }
            assert(gf_pow_sq(value.value(), order.value() / factors@[i as int].value(), self.p(), self.m(), self.f()) != 1);
            i = i + 1;
        }
        Ok(true)
    }

    /// The first element from one up to 50000 (and below the order) that has full order
    /// with respect to the divisors `big_prime_factors` finds of `q - 1`;
    /// `NoPrimitiveElement` when none does.
    fn find_primitive_element_big(&self) -> (r: Result<BigValue>)
        requires
            self.wf(),
        ensures
            r matches Ok(v) ==> v.value() < self.q() && exists|fs: Seq<BigValue>| #[trigger] divisors_found(fs, (self.q() - 1) as nat)
                && full_order_for(*self, v.value(), (self.q() - 1) as nat, fs),
            r matches Err(e) ==> e == (GaloisError::NoPrimitiveElement { characteristic: self.p() as u64, degree: self.m() as u32 }),
    {
        proof { self.lemma_q_ge_2(); }
        let q_minus_1 = limbs_sub_u64(self.order(), 1);
        let factors = big_prime_factors(&q_minus_1);
        let mut candidate: u64 = 1;
        while candidate <= 50_000
            invariant
                self.wf(),
                q_minus_1.value() == self.q() - 1,
                divisors_found(factors@, q_minus_1.value()),
            decreases 50_001 - candidate,
        {
            let c = BigValue::from_u64(candidate);
            if !limbs_less(&c, self.order()) {
                break;
            }
            match self.has_full_multiplicative_order(&c, &q_minus_1, &factors) {
                Ok(true) => {
                    assert(divisors_found(factors@, (self.q() - 1) as nat));
                    return Ok(c);
                },
                Ok(false) => {},
                Err(e) => { return Err(e); },
            }
            candidate = candidate + 1;
        }
        Err(GaloisError::NoPrimitiveElement { characteristic: self.characteristic(), degree: self.degree() })
    }

    /// A primitive element: that of the table field of `as_small_field` when the order fits
    /// in 64 bits (with its errors), otherwise the first element from one up to 50000 of
    /// full order with respect to the divisors found of `q - 1`, and `NoPrimitiveElement`
    /// when there is none.
    pub fn primitive_element(&self) -> (r: Result<BigValue>)
        requires
            self.wf(),
        ensures
            (self.m() == 1 || self.q() <= u64::MAX) ==> (r matches Ok(v) ==> exists|t: GaloisField| table_twin(t, *self)
                && v.value() == t.g()),
            (self.m() > 1 && self.q() > u64::MAX) ==> (r matches Ok(v) ==> v.value() < self.q()
                && exists|fs: Seq<BigValue>| #[trigger] divisors_found(fs, (self.q() - 1) as nat)
                    && full_order_for(*self, v.value(), (self.q() - 1) as nat, fs)),
            (self.m() > 1 && self.q() > u64::MAX) ==> (r matches Err(e) ==> e == (GaloisError::NoPrimitiveElement {
                characteristic: self.p() as u64, degree: self.m() as u32 })),
    {
        if self.degree() == 1 || self.order().to_u64().is_some() {
            let small = match self.as_small_field() {
                Ok(f) => f,
                Err(e) => { return Err(e); },
            };
            let g = small.primitive_element();
            proof { self.lemma_wf_params(); }
            assert(small.wf());
            assert(small.p() == self.p());
            assert(small.m() == self.m());
            assert(table_twin(small, *self));
            return Ok(BigValue::from_u64(g));
        }
        self.find_primitive_element_big()
    }
}

impl FieldKind {
    /// `"GF(p)"` for a prime field, otherwise `"GF(p^m)"`.
    pub fn name(&self) -> (r: String)
        ensures
            r@ == field_name(self.p(), self.m()),
    {
        match self {
            FieldKind::Small(f) => f.name(),
            FieldKind::Big(f) => f.name(),
        }
    }

    /// A primitive element: the table field's, or that of `BigGaloisField::primitive_element`.
    pub fn primitive_element(&self) -> (r: Result<BigValue>)
        requires
            self.wf(),
        ensures
            self matches FieldKind::Small(f) ==> (r matches Ok(v) && v.value() == f.g()),
            self matches FieldKind::Big(f) ==> (f.m() == 1 || f.q() <= u64::MAX) ==> (r matches Ok(v) ==>
                exists|t: GaloisField| table_twin(t, *f) && v.value() == t.g()),
            self matches FieldKind::Big(f) ==> (f.m() > 1 && f.q() > u64::MAX) ==> (r matches Ok(v) ==> v.value() < f.q()
                && exists|fs: Seq<BigValue>| #[trigger] divisors_found(fs, (f.q() - 1) as nat)
                    && full_order_for(*f, v.value(), (f.q() - 1) as nat, fs)),
    {
        match self {
            FieldKind::Small(f) => Ok(BigValue::from_u64(f.primitive_element())),
            FieldKind::Big(f) => f.primitive_element(),
        }
    }

    /// The discrete logarithm with respect to the primitive element: over a table field,
    /// `InvalidElement` (value 0) beyond 64 bits, the error of `validate_element`, then
    /// `GaloisField::discrete_log`; otherwise `BigGaloisField::discrete_log`.
    pub fn discrete_log(&self, value: &BigValue) -> (r: Result<u64>)
        requires
            self.wf(),
        ensures
            self matches FieldKind::Small(f) ==> {
                &&& value.value() > u64::MAX ==> r == Err::<u64, GaloisError>(GaloisError::InvalidElement {
                    value: 0, characteristic: f.p() as u64, degree: f.m() as u32 })
                &&& value.value() <= u64::MAX && value.value() >= f.q() ==> r == Err::<u64, GaloisError>(
                    GaloisError::InvalidElement { value: value.value() as u64, characteristic: f.p() as u64, degree: f.m() as u32 })
                &&& value.value() == 0 ==> r is Err
                &&& 0 < value.value() < f.q() ==> (r matches Ok(l) && l == f.dlog(value.value()))
            },
            self matches FieldKind::Big(f) ==> (r matches Ok(l) ==> exists|t: GaloisField| table_twin(t, *f)
                && value.value() < t.q() && value.value() != 0 && l == t.dlog(value.value())),
    {
        match self {
            FieldKind::Small(f) => {
                let v = match value.to_u64() {
                    Some(v) => v,
                    None => {
                        return Err(GaloisError::InvalidElement { value: 0, characteristic: f.characteristic(),
                            degree: f.degree() });
                    },
                };
                let v = match f.validate_element(v) {
                    Ok(v) => v,
                    Err(e) => { return Err(e); },
                };
                f.discrete_log(v)
            },
            FieldKind::Big(f) => f.discrete_log(value),
        }
    }

    /// `alpha^log` for the primitive element `alpha`.
    pub fn exp_from_log(&self, log: u64) -> (r: Result<BigValue>)
        requires
            self.wf(),
        ensures
            self matches FieldKind::Small(f) ==> (r matches Ok(v)
                && v.value() == f.power((log as nat) % ((f.q() - 1) as nat))),
            self matches FieldKind::Big(f) ==> (r matches Ok(v) ==> exists|t: GaloisField| table_twin(t, *f)
                && v.value() == t.power((log as nat) % ((t.q() - 1) as nat))),
    {
        match self {
            FieldKind::Small(f) => Ok(BigValue::from_u64(f.exp_from_log(log))),
            FieldKind::Big(f) => f.exp_from_log(log),
        }
    }
}

/// Text of an element of a big field: decimal (`Int`), a polynomial in `α` (`Poly`, `"0"`
/// for zero) or `α^(v)` with the integer value `v` (`Power`, `"0"` for zero).
pub open spec fn big_element_text(f: BigGaloisField, v: nat, repr: ElementRepr) -> Seq<char> {
    match repr {
        ElementRepr::Int => decimal(v),
        ElementRepr::Poly => {
            let t = terms_text_asc(digits(v, f.p(), f.m()), f.p(), alpha());
            if t.len() == 0 { seq!['0'] } else { t }
        },
        ElementRepr::Power => {
            if v == 0 { seq!['0'] } else { alpha() + seq!['^', '('] + decimal(v) + seq![')'] }
        },
    }
}

impl BigGaloisField {
    /// Text of an element in the given representation.
    pub fn format_element(&self, value: &BigValue, repr: ElementRepr) -> (r: String)
        requires
            self.wf(),
        ensures
            r@ == big_element_text(*self, value.value(), repr),
    {
        proof { self.lemma_wf_params(); }
        match repr {
            ElementRepr::Int => limbs_to_decimal(value),
            ElementRepr::Poly => {
                let coeffs = big_int_to_coeffs(value, self.characteristic(), self.degree());
                let (text, nonempty) = format_terms_asc(coeffs.as_slice(), self.characteristic(), "\u{3b1}");
                proof {
                    reveal_strlit("\u{3b1}");
                    assert("\u{3b1}"@ =~= alpha());
                }
                if nonempty {
                    text
                } else {
                    let mut z = String::new();
                    push_char(&mut z, '0');
                    assert(z@ =~= seq!['0']);
                    z
                }
            },
            ElementRepr::Power => {
                let mut out = String::new();
                if value.is_zero() {
                    push_char(&mut out, '0');
                    assert(out@ =~= seq!['0']);
                } else {
                    push_char(&mut out, '\u{3b1}');
                    push_char(&mut out, '^');
                    push_char(&mut out, '(');
                    let d = limbs_to_decimal(value);
                    push_string(&mut out, &d);
                    push_char(&mut out, ')');
                    assert(out@ =~= alpha() + seq!['^', '('] + decimal(value.value()) + seq![')']);
                }
                out
            },
        }
    }
}

} // verus!
