//! Primitive polynomials: irreducible polynomials whose root `x` generates the
//! multiplicative group of the field they define.

use vstd::prelude::*;
use crate::arith::{is_prime_spec, npow};
use crate::conway::{digits_vec, monic_candidate};
use crate::error::{GaloisError, Result};
use crate::field::factory::{GaloisField, options_error, options_succeed};
use crate::field::model::{digits, gf_power, lemma_digits_bound};
use crate::poly::prime::{PrimePoly, reduce_coeffs, zp_irreducible};
use crate::poly::integer::strip_trailing;
use crate::poly::field_poly::{
    Poly, gp_divmod, gp_frobenius_iter, gp_gcd, gp_is_zero, gp_modpow, gp_sub, poly_gcd, raise_to_field_order,
};
use crate::field::factory::FieldModel;
use crate::field::element::same_field;
use crate::arith::{is_prime_factorization, prod_pows};

verus! {

/// The element of GF(p)[x]/(f) that is the class of `x`: the integer with digits `0, 1` for
/// `m >= 2`, and `-f_0 mod p` for `m = 1`.
pub open spec fn x_element(f: Seq<u64>, p: nat, m: nat) -> nat {
    if m >= 2 { p } else { ((p - (f[0] as nat % p)) % (p as int)) as nat }
}

/// `v` is `x^i` for some `i < p^m - 1` in GF(p^m) built with `f`.
pub open spec fn is_power_of_x(f: Seq<u64>, p: nat, m: nat, v: nat) -> bool {
    exists|i: nat| i < npow(p, m) - 1 && #[trigger] gf_power(x_element(f, p, m), i, p, m, f) == v
}

/// Every nonzero element of GF(p^m) built with `f` is a power of `x`.
pub open spec fn x_generates(f: Seq<u64>, p: nat, m: nat) -> bool {
    forall|v: nat| 1 <= v < npow(p, m) ==> #[trigger] is_power_of_x(f, p, m, v)
}

/// A monic polynomial of degree `m` over GF(p), irreducible, whose root `x` generates the
/// multiplicative group.
pub open spec fn is_primitive_poly(f: Seq<u64>, p: nat, m: nat) -> bool {
    &&& m >= 1
    &&& exists|low: nat| low < npow(p, m) && f == #[trigger] monic_candidate(low, p, m)
    &&& (m >= 2 ==> zp_irreducible(f, p))
    &&& x_generates(f, p, m)
}

/// The monic candidate `low` is irreducible (or of degree one) and the tables of its field
/// can be built with `x` as primitive element, so that the search accepts it.
pub open spec fn candidate_accepted(low: nat, p: nat, m: nat) -> bool {
    let c = monic_candidate(low, p, m);
    &&& (m == 1 || zp_irreducible(c, p))
    &&& crate::field::factory::tables_ok(x_element(c, p, m), p, m, c, npow(p, m))
}

/// A monic primitive polynomial of degree `m` over GF(p), found by trying the monic
/// polynomials in the order of the integers whose base-`p` digits are their lower
/// coefficients; `InvalidDegree(0)` for `m = 0` and `ReduciblePolynomial` when none is found.
pub fn primitive_poly(p: u64, m: u32) -> (r: Result<PrimePoly>)
    ensures
        m == 0 ==> r == Err::<PrimePoly, GaloisError>(GaloisError::InvalidDegree(0)),
        r matches Ok(f) ==> f.wf() && f.prime() == p && is_primitive_poly(f.coeffs_view(), p as nat, m as nat),
        r matches Err(e) ==> m == 0 || e == (GaloisError::ReduciblePolynomial { characteristic: p }),
        m >= 1 && is_prime_spec(p as nat) && npow(p as nat, m as nat) <= u64::MAX
            && (exists|low: nat| low < npow(p as nat, m as nat) && #[trigger] candidate_accepted(low, p as nat, m as nat))
            ==> r is Ok,
{
    if m == 0 {
        return Err(GaloisError::InvalidDegree(0));
    }
    if !crate::prime::is_prime(p) {
        return Err(GaloisError::ReduciblePolynomial { characteristic: p });
    }
    let count = match crate::prime::checked_npow(p, m) {
        Some(c) => c,
        None => { return Err(GaloisError::ReduciblePolynomial { characteristic: p }); },
    };
    proof {
        if m > 64 {
            crate::prime::lemma_pow2_64_exceeds();
            crate::arith::lemma_npow_mono_base(2, p as nat, m as nat);
            crate::prime::lemma_npow_mono_exp(2, 64, m as nat);
        }
    }
    let mut low: u64 = 0;
    while low < count
        invariant
            is_prime_spec(p as nat),
            1 <= m <= 64,
            count as nat == npow(p as nat, m as nat),
            low <= count,
            forall|l: nat| l < low ==> !#[trigger] candidate_accepted(l, p as nat, m as nat),
        decreases count - low,
    {
        let mut c = digits_vec(low, p, m);
        c.push(1);
        proof {
            lemma_digits_bound(low as nat, p as nat, m as nat);
            assert(c@ == monic_candidate(low as nat, p as nat, m as nat));
            assert(reduce_coeffs(c@, p as nat) =~= c@) by {
                assert forall|i: int| 0 <= i < c@.len() implies #[trigger] reduce_coeffs(c@, p as nat)[i] == c@[i] by {
                    vstd::arithmetic::div_mod::lemma_small_mod(c@[i] as nat, p as nat);
                }
            }
            assert(strip_trailing(c@) == c@);
        }
        let c0 = c[0];
        let f = PrimePoly::from_parts(p, c);
        if m == 1 || f.is_irreducible() {
            let x: u64 = if m >= 2 { p } else { (p - c0 % p) % p };
            let fc = f.clone();
            proof {
                assert(x as nat == x_element(f.coeffs_view(), p as nat, m as nat));
                if candidate_accepted(low as nat, p as nat, m as nat) {
                    let cv = fc.coeffs_view();
                    assert(cv.len() == m + 1);
                    assert(cv.last() == 1);
                    assert(crate::poly::integer::asc_degree(cv) == m as int);
                    if m >= 2 {
                        crate::prime::lemma_npow_mono_exp(p as nat, 2, m as nat);
                        crate::arith::lemma_npow_unfold(p as nat, 2);
                        crate::arith::lemma_npow_one(p as nat);
                        assert(p * p > p) by (nonlinear_arith) requires p >= 2;
                    } else {
                        crate::arith::lemma_npow_one(p as nat);
                    }
                    assert((x as nat) < npow(p as nat, m as nat));
                    assert(options_error(p, m, fc, Some(x), false) is None);
                    assert(options_succeed(p, m, Some(fc), Some(x), false));
                }
            }
            match GaloisField::with_options(p, m, Some(fc), Some(x), false) {
                Ok(field) => {
                    proof { lemma_field_generates(field, f.coeffs_view(), p as nat, m as nat, x as nat); }
                    return Ok(f);
                },
                Err(_) => {},
            }
        }
        low = low + 1;
    }
    Err(GaloisError::ReduciblePolynomial { characteristic: p })
}

/// A field built with primitive element `x` has every nonzero element a power of it.
proof fn lemma_field_generates(field: GaloisField, f: Seq<u64>, p: nat, m: nat, x: nat)
    requires
        field.wf(),
        field.p() == p,
        field.m() == m,
        field.f() == f,
        field.g() == x,
        x == x_element(f, p, m),
    ensures
        x_generates(f, p, m),
{
    let q = npow(p, m);
    assert forall|v: nat| 1 <= v < q implies #[trigger] is_power_of_x(f, p, m, v) by {
        field.lemma_dlog(v);
        let i = field.dlog(v);
        assert(gf_power(x, i, p, m, f) == v);
    }
}

/// `x^(q^i) mod f` for the field order `q`, by `i` successive `q`-th powers.
pub open spec fn x_q_power(i: nat, f: Seq<u64>, model: FieldModel) -> Seq<u64>
    decreases i,
{
    if i == 0 {
        seq![1u64, 0u64]
    } else {
        gp_frobenius_iter(gp_divmod(x_q_power((i - 1) as nat, f, model), f, model).1, model.m, f, model)
    }
}

/// The polynomial `x`.
pub open spec fn x_poly() -> Seq<u64> {
    seq![1u64, 0u64]
}

/// `gcd(x^(q^i) - x, f) = 1`: `f` has no irreducible factor of degree dividing `i`.
pub open spec fn no_factor_of_degree(i: nat, f: Seq<u64>, model: FieldModel) -> bool {
    gp_gcd(gp_sub(x_q_power(i, f, model), x_poly(), model), f, model) == seq![1u64]
}

/// `x^e mod f` is not 1.
pub open spec fn x_pow_not_one(e: nat, f: Seq<u64>, model: FieldModel) -> bool {
    gp_modpow(x_poly(), e, f, model) != seq![1u64]
}

/// `f` of degree `d >= 1` over GF(q) is primitive: irreducible (`gcd(x^(q^i) - x, f) = 1`
/// for `1 <= i <= d/2`) and `x` has order `q^d - 1` modulo `f` (`x^(q^d-1) = 1` and
/// `x^((q^d-1)/r) != 1` for every prime `r` dividing `q^d - 1`).
pub open spec fn is_primitive_over(f: Seq<u64>, model: FieldModel) -> bool {
    let d = (f.len() - 1) as nat;
    let order = (npow(model.q, d) - 1) as nat;
    &&& f.len() >= 2
    &&& forall|i: nat| 1 <= i <= d / 2 ==> #[trigger] no_factor_of_degree(i, f, model)
    &&& gp_modpow(x_poly(), order, f, model) == seq![1u64]
    &&& forall|r: nat| is_prime_spec(r) && order % r == 0 ==> #[trigger] x_pow_not_one(order / r, f, model)
}

/// A prime `r` dividing `q^d - 1` with `x^((q^d-1)/r) = 1` rules primitivity out.
proof fn lemma_not_primitive_by_factor(f: Seq<u64>, model: FieldModel, r: nat)
    requires
        is_prime_spec(r),
        ((npow(model.q, (f.len() - 1) as nat) - 1) as nat) % r == 0,
        !x_pow_not_one(((npow(model.q, (f.len() - 1) as nat) - 1) as nat) / r, f, model),
    ensures
        !is_primitive_over(f, model),
{
}

/// Whether a polynomial over GF(q) is primitive: irreducible of degree `d >= 1` with `x`
/// of multiplicative order `q^d - 1` modulo it.
#[verifier::rlimit(40)]
pub fn is_primitive(poly: &Poly) -> (r: bool)
    requires
        poly.wf(),
        poly.coeffs_view().len() <= isize::MAX / 2,
        npow(poly.field_view().q(), (poly.coeffs_view().len() - 1) as nat) <= u64::MAX,
    ensures
        r == is_primitive_over(poly.coeffs_view(), poly.field_view().model()),
{
    let ghost model = poly.field_view().model();
    let ghost fc = poly.coeffs_view();
    if poly.degree() <= 0 {
        return false;
    }
    let field = poly.field();
    proof { field.lemma_q_ge_2(); }
    let d = poly.coeffs().len() - 1;
    proof {
        if d >= 64 {
            crate::prime::lemma_pow2_64_exceeds();
            crate::arith::lemma_npow_mono_base(2, model.q, d as nat);
            crate::prime::lemma_npow_mono_exp(2, 64, d as nat);
        }
    }
    let x = Poly::x(field.clone());
    proof { x.field_view().lemma_equiv_wf(field); }
    assert(!gp_is_zero(fc));
    let mut h = Poly::x(field.clone());
    proof { h.field_view().lemma_equiv_wf(field); }
    let mut i: usize = 1;
    while i <= d / 2
        invariant
            poly.wf(),
            fc == poly.coeffs_view(),
            model == poly.field_view().model(),
            !gp_is_zero(fc),
            poly.coeffs_view().len() <= isize::MAX / 2,
            d == fc.len() - 1,
            1 <= i <= d / 2 + 1,
            h.wf(),
            h.field_view().equiv(&poly.field_view()),
            x.wf(),
            x.field_view().equiv(&poly.field_view()),
            x.coeffs_view() == x_poly(),
            h.coeffs_view() == x_q_power((i - 1) as nat, fc, model),
            forall|k: nat| 1 <= k < i ==> #[trigger] no_factor_of_degree(k, fc, model),
        decreases d / 2 + 1 - i,
    {
        let ghost prev = h.coeffs_view();
        h = match raise_to_field_order(&h, poly) {
            Ok(v) => v,
            Err(_) => { return false; },
        };
        assert(h.coeffs_view() == x_q_power(i as nat, fc, model));
        proof { h.field_view().lemma_equiv_wf(&poly.field_view()); }
        let diff = match h.sub(&x) {
            Ok(v) => v,
            Err(_) => { return false; },
        };
        proof { diff.field_view().lemma_equiv_wf(&poly.field_view()); }
        let g = match poly_gcd(&diff, poly) {
            Ok(v) => v,
            Err(_) => { return false; },
        };
        assert(g.coeffs_view() == gp_gcd(gp_sub(x_q_power(i as nat, fc, model), x_poly(), model), fc, model));
        if !g.is_one() {
            assert(!no_factor_of_degree(i as nat, fc, model));
            return false;
        }
        assert(no_factor_of_degree(i as nat, fc, model));
        i = i + 1;
    }
    let q = field.order();
    let ghost order_n = (npow(model.q, d as nat) - 1) as nat;
    proof {
        crate::prime::lemma_npow_mono_exp(model.q, 1, d as nat);
        vstd::arithmetic::power::lemma_pow1(model.q as int);
        crate::arith::lemma_npow_nonneg(model.q, 1);
    }
    let order = match crate::prime::checked_npow(q, d as u32) {
        Some(v) => v - 1,
        None => { return false; },
    };
    assert(order == order_n);
    let full = match x.mod_pow_u64(order, poly) {
        Ok(v) => v,
        Err(_) => { return false; },
    };
    if !full.is_one() {
        return false;
    }
    let (ps, ms) = match crate::prime::factorize(order) {
        Ok(f) => f,
        Err(_) => { return false; },
    };
    let mut k: usize = 0;
    while k < ps.len()
        invariant
            poly.wf(),
            fc == poly.coeffs_view(),
            model == poly.field_view().model(),
            !gp_is_zero(fc),
            poly.coeffs_view().len() <= isize::MAX / 2,
            x.wf(),
            x.field_view().equiv(&poly.field_view()),
            x.coeffs_view() == x_poly(),
            order >= 2 ==> is_prime_factorization(order as nat, ps@, ms@),
            order < 2 ==> ps@.len() == 0,
            order as nat == (npow(model.q, (fc.len() - 1) as nat) - 1) as nat,
            order >= 1,
            k <= ps@.len(),
            forall|j: int| 0 <= j < k ==> x_pow_not_one((order / #[trigger] ps@[j]) as nat, fc, model),
        decreases ps@.len() - k,
    {
        let r = ps[k];
        proof { crate::field::factory::lemma_factor_divides(ps@, ms@, k as int); }
        let part = match x.mod_pow_u64(order / r, poly) {
            Ok(v) => v,
            Err(_) => { return false; },
        };
        if part.is_one() {
            proof {
                assert(is_prime_spec(r as nat) && (order as nat) % (r as nat) == 0);
                assert(!x_pow_not_one((order as nat) / (r as nat), fc, model));
                lemma_not_primitive_by_factor(fc, model, r as nat);
            }
            return false;
        }
        k = k + 1;
    }
    proof {
        assert forall|r: nat| is_prime_spec(r) && (order as nat) % r == 0 implies
            #[trigger] x_pow_not_one((order as nat) / r, fc, model) by {
            if order >= 2 {
                crate::arith::lemma_prime_in_factorization(r, ps@, ms@);
                let j = choose|j: int| 0 <= j < ps@.len() && ps@[j] == r;
                assert(x_pow_not_one((order / ps@[j]) as nat, fc, model));
            } else {
                assert(r >= 2);
                if order == 1 {
                    vstd::arithmetic::div_mod::lemma_small_mod(1, r);
                }
            }
        }
    }
    true
}

} // verus!
