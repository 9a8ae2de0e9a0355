//! Polynomials over GF(p) and modular inverses.

use vstd::prelude::*;
use crate::arith::gcd_spec;
use crate::error::{GaloisError, Result};
use crate::modular::iabs;
use crate::arith::is_prime_spec;
use crate::poly::integer::{strip_trailing, strip_vec, asc_degree, terms_text_asc, IntegerPoly};

verus! {

/// Coefficient `i` of an ascending coefficient sequence; zero beyond its ends.
pub open spec fn coef(s: Seq<u64>, i: int) -> nat {
    if 0 <= i < s.len() { s[i] as nat } else { 0 }
}

/// Every coefficient reduced modulo `p`.
pub open spec fn reduce_coeffs(s: Seq<u64>, p: nat) -> Seq<u64> {
    Seq::new(s.len(), |i: int| (s[i] as nat % p) as u64)
}

/// Canonical form over GF(p): at least one coefficient, all below `p`, no trailing zero
/// except for the zero polynomial `[0]`.
pub open spec fn zp_normal(s: Seq<u64>, p: nat) -> bool {
    &&& s.len() >= 1
    &&& (s.len() == 1 || s.last() != 0)
    &&& forall|i: int| 0 <= i < s.len() ==> (#[trigger] s[i]) < p
}

/// The zero polynomial in canonical form.
pub open spec fn zp_is_zero(s: Seq<u64>) -> bool {
    s.len() == 1 && s[0] == 0
}

pub open spec fn max_len(a: Seq<u64>, b: Seq<u64>) -> int {
    if a.len() >= b.len() { a.len() as int } else { b.len() as int }
}

/// Sum of two polynomials over GF(p).
pub open spec fn zp_add(a: Seq<u64>, b: Seq<u64>, p: nat) -> Seq<u64> {
    strip_trailing(Seq::new(max_len(a, b) as nat, |i: int| ((coef(a, i) + coef(b, i)) % p) as u64))
}

/// Difference of two polynomials over GF(p).
pub open spec fn zp_sub(a: Seq<u64>, b: Seq<u64>, p: nat) -> Seq<u64> {
    strip_trailing(Seq::new(max_len(a, b) as nat, |i: int| ((coef(a, i) + p - coef(b, i)) % (p as int)) as u64))
}

/// `sum_{i < n} a_i b_{k-i}` over the integers.
pub open spec fn conv_sum(a: Seq<u64>, b: Seq<u64>, k: int, n: int) -> int
    decreases n,
{
    if n <= 0 { 0 } else { conv_sum(a, b, k, n - 1) + coef(a, n - 1) * coef(b, k - (n - 1)) }
}

/// Product of two polynomials over GF(p).
pub open spec fn zp_mul(a: Seq<u64>, b: Seq<u64>, p: nat) -> Seq<u64> {
    if zp_is_zero(a) || zp_is_zero(b) {
        seq![0u64]
    } else {
        strip_trailing(Seq::new((a.len() + b.len() - 1) as nat, |k: int| (conv_sum(a, b, k, a.len() as int) % (p as int)) as u64))
    }
}

/// Product of a polynomial over GF(p) with a scalar.
pub open spec fn zp_scale(a: Seq<u64>, c: nat, p: nat) -> Seq<u64> {
    if c % p == 0 || zp_is_zero(a) {
        seq![0u64]
    } else {
        strip_trailing(Seq::new(a.len(), |i: int| ((a[i] as nat * (c % p)) % p) as u64))
    }
}

pub proof fn lemma_strip_normal(s: Seq<u64>, p: nat)
    requires
        zp_normal(s, p),
    ensures
        strip_trailing(s) == s,
{
}

/// Stripping keeps a prefix of the sequence (at least one entry) and drops only zeros.
pub proof fn lemma_strip_props(s: Seq<u64>)
    ensures
        strip_trailing(s).len() >= 1,
        s.len() >= 1 ==> strip_trailing(s).len() <= s.len(),
        strip_trailing(s).len() == 1 || strip_trailing(s).last() != 0,
        forall|i: int| 0 <= i < strip_trailing(s).len() ==> (i < s.len() && #[trigger] strip_trailing(s)[i] == s[i]) || (s.len() == 0 && strip_trailing(s)[i] == 0),
        forall|i: int| strip_trailing(s).len() <= i < s.len() ==> #[trigger] s[i] == 0,
    decreases s.len(),
{
    if s.len() == 0 {
    } else if s.len() > 1 && s.last() == 0 {
        lemma_strip_props(s.drop_last());
        assert forall|i: int| strip_trailing(s).len() <= i < s.len() implies #[trigger] s[i] == 0 by {
            if i < s.len() - 1 {
                assert(s.drop_last()[i] == s[i]);
            }
        }
    }
}

/// Stripping a sequence whose entries are below `p` gives a canonical polynomial.
pub proof fn lemma_strip_normalizes(s: Seq<u64>, p: nat)
    requires
        p > 0,
        forall|i: int| 0 <= i < s.len() ==> (#[trigger] s[i]) < p,
    ensures
        zp_normal(strip_trailing(s), p),
{
    lemma_strip_props(s);
    let t = strip_trailing(s);
    assert forall|i: int| 0 <= i < t.len() implies (#[trigger] t[i]) < p by {
        if s.len() == 0 {
        } else {
            assert(t[i] == s[i]);
        }
    }
}


/// The inverse of `a` modulo `p`.
pub open spec fn inv_mod(a: nat, p: nat) -> nat {
    choose|x: nat| crate::arith::is_inverse_mod(a, x, p)
}

/// One step of long division: subtract `c x^(k - deg d) d` from `rem`, coefficientwise mod `p`.
pub open spec fn div_step(rem: Seq<u64>, d: Seq<u64>, k: int, c: nat, p: nat) -> Seq<u64> {
    let shift = k - (d.len() - 1);
    Seq::new(rem.len(), |t: int| if shift <= t <= k {
        ((rem[t] as nat + p - (c * d[t - shift] as nat) % p) % (p as int)) as u64
    } else {
        rem[t]
    })
}

/// Schoolbook long division of `rem` by `d`, eliminating the coefficients at `k, k-1, ...,
/// deg d`; returns the quotient and remainder coefficients before stripping.
pub open spec fn long_div(rem: Seq<u64>, quo: Seq<u64>, d: Seq<u64>, inv: nat, k: int, p: nat) -> (Seq<u64>, Seq<u64>)
    decreases k + 1,
{
    if k < 0 || k < d.len() - 1 {
        (quo, rem)
    } else {
        let c = (rem[k] as nat * inv) % p;
        long_div(div_step(rem, d, k, c, p), quo.update(k - (d.len() - 1), c as u64), d, inv, k - 1, p)
    }
}

/// Number of quotient coefficients produced by long division of `a` by `d`.
pub open spec fn quo_len(a: Seq<u64>, d: Seq<u64>) -> nat {
    if a.len() > d.len() - 1 { (a.len() - (d.len() - 1)) as nat } else { 1 }
}

/// Quotient and remainder of `a` divided by the nonzero polynomial `d` over GF(p).
pub open spec fn zp_divmod(a: Seq<u64>, d: Seq<u64>, p: nat) -> (Seq<u64>, Seq<u64>) {
    let r = long_div(a, Seq::new(quo_len(a, d), |i: int| 0u64), d, inv_mod(d.last() as nat, p), a.len() - 1, p);
    (strip_trailing(r.0), strip_trailing(r.1))
}

/// `a` scaled to leading coefficient one (zero stays zero).
pub open spec fn zp_monic(a: Seq<u64>, p: nat) -> Seq<u64> {
    if zp_is_zero(a) { seq![0u64] } else { zp_scale(a, inv_mod(a.last() as nat, p), p) }
}

/// Monic greatest common divisor by Euclid's algorithm over GF(p).
pub open spec fn zp_gcd(a: Seq<u64>, b: Seq<u64>, p: nat) -> Seq<u64>
    decreases (if zp_is_zero(b) { 0 } else { b.len() }),
    when zp_normal(a, p) && zp_normal(b, p) && is_prime_spec(p)
{
    if zp_is_zero(b) {
        zp_monic(a, p)
    } else {
        proof {
            lemma_zp_divmod(a, b, p);
        }
        zp_gcd(b, zp_divmod(a, b, p).1, p)
    }
}

/// `a b mod f` over GF(p).
pub open spec fn zp_mulmod(a: Seq<u64>, b: Seq<u64>, f: Seq<u64>, p: nat) -> Seq<u64> {
    zp_divmod(zp_mul(a, b, p), f, p).1
}

/// `h^e mod f` over GF(p) by repeated squaring.
pub open spec fn zp_powmod(h: Seq<u64>, e: nat, f: Seq<u64>, p: nat) -> Seq<u64>
    decreases e,
{
    if e == 0 {
        zp_divmod(seq![1u64], f, p).1
    } else {
        let r = zp_powmod(h, e / 2, f, p);
        let r2 = zp_mulmod(r, r, f, p);
        if e % 2 == 1 { zp_mulmod(r2, h, f, p) } else { r2 }
    }
}

/// `x^(p^i) mod f`, computed as `i` successive `p`-th powers of `x`.
pub open spec fn frobenius_power(f: Seq<u64>, p: nat, i: nat) -> Seq<u64>
    decreases i,
{
    if i == 0 { seq![0u64, 1u64] } else { zp_powmod(frobenius_power(f, p, (i - 1) as nat), p, f, p) }
}

/// Ben-Or's test: `f` is monic of positive degree `m` and `gcd(f, x^(p^i) - x) = 1` for
/// `1 <= i <= m/2`.
pub open spec fn zp_irreducible(f: Seq<u64>, p: nat) -> bool {
    &&& asc_degree(f) > 0
    &&& f.last() == 1
    &&& forall|i: int| 1 <= i <= (f.len() - 1) / 2 ==>
        zp_gcd(f, zp_sub(#[trigger] frobenius_power(f, p, i as nat), seq![0u64, 1u64], p), p) == seq![1u64]
}

/// For prime `p` and `0 < a < p`, `a` is invertible modulo `p`.
pub proof fn lemma_prime_coprime(p: nat, a: nat)
    requires
        is_prime_spec(p),
        0 < a < p,
    ensures
        gcd_spec(p, a) == 1,
{
    crate::arith::lemma_gcd_divides(p, a);
    let g = gcd_spec(p, a);
    if g != 1 {
        assert(g >= 2);
        if g == p {
            vstd::arithmetic::div_mod::lemma_small_mod(a, p);
        }
        assert(p % g != 0);
    }
}

/// Inverses modulo `p` are unique.
pub proof fn lemma_inv_unique(a: nat, x: nat, y: nat, p: nat)
    requires
        p > 1,
        x < p,
        y < p,
        (a * x) % p == 1,
        (a * y) % p == 1,
    ensures
        x == y,
{
    let pi = p as int;
    assert(x * (a * y) == (x * a) * y) by (nonlinear_arith);
    vstd::arithmetic::div_mod::lemma_mul_mod_noop_right(x as int, (a * y) as int, pi);
    vstd::arithmetic::div_mod::lemma_mul_mod_noop_left((x * a) as int, y as int, pi);
    assert(x * a == a * x) by (nonlinear_arith);
    vstd::arithmetic::div_mod::lemma_small_mod(x, p);
    vstd::arithmetic::div_mod::lemma_small_mod(y, p);
}

/// The value returned by a successful inverse computation is `inv_mod`.
pub proof fn lemma_inv_mod_is(a: nat, x: nat, p: nat)
    requires
        p > 1,
        x < p,
        (a * x) % p == 1,
    ensures
        inv_mod(a, p) == x,
        inv_mod(a, p) < p,
        (a * inv_mod(a, p)) % p == 1,
{
    assert(crate::arith::is_inverse_mod(a, x, p));
    let y = inv_mod(a, p);
    lemma_inv_unique(a, x, y, p);
}

/// If every entry at or beyond `l` is zero, stripping leaves at most `max(l, 1)` entries,
/// and only `[0]` when `l == 0`.
pub proof fn lemma_strip_zero_tail(s: Seq<u64>, l: int)
    requires
        s.len() >= 1,
        0 <= l,
        forall|t: int| l <= t < s.len() ==> #[trigger] s[t] == 0,
    ensures
        strip_trailing(s).len() <= (if l >= 1 { l } else { 1 }),
        l == 0 ==> strip_trailing(s) == seq![0u64],
    decreases s.len(),
{
    if s.len() > 1 && s.last() == 0 {
        lemma_strip_zero_tail(s.drop_last(), l);
    } else if s.len() > 1 {
        assert(s[s.len() - 1] != 0);
    } else {
        if l == 0 {
            assert(s[0] == 0);
            assert(s =~= seq![0u64]);
        }
    }
}

/// Long division clears every coefficient at or above `deg d` and keeps entries below `p`.
pub proof fn lemma_long_div_clears(rem: Seq<u64>, quo: Seq<u64>, d: Seq<u64>, inv: nat, k: int, p: nat)
    requires
        p >= 2,
        d.len() >= 1,
        (d.last() as nat * inv) % p == 1,
        forall|t: int| 0 <= t < d.len() ==> (#[trigger] d[t]) < p,
        forall|t: int| 0 <= t < rem.len() ==> (#[trigger] rem[t]) < p,
        forall|t: int| 0 <= t < quo.len() ==> (#[trigger] quo[t]) < p,
        -1 <= k < rem.len(),
        quo.len() >= k - (d.len() - 1) + 1,
        forall|t: int| k < t < rem.len() ==> #[trigger] rem[t] == 0,
    ensures
        long_div(rem, quo, d, inv, k, p).1.len() == rem.len(),
        long_div(rem, quo, d, inv, k, p).0.len() == quo.len(),
        forall|t: int| d.len() - 1 <= t < rem.len() ==> #[trigger] long_div(rem, quo, d, inv, k, p).1[t] == 0,
        forall|t: int| 0 <= t < rem.len() ==> #[trigger] long_div(rem, quo, d, inv, k, p).1[t] < p,
        forall|t: int| 0 <= t < quo.len() ==> #[trigger] long_div(rem, quo, d, inv, k, p).0[t] < p,
    decreases k + 1,
{
    if k < 0 || k < d.len() - 1 {
    } else {
        let dd = d.len() - 1;
        let c = (rem[k] as nat * inv) % p;
        let rem2 = div_step(rem, d, k, c, p);
        let pi = p as int;
        assert(rem2[k] == 0) by {
            let r = rem[k] as int;
            let dl = d[dd] as int;
            vstd::arithmetic::div_mod::lemma_mul_mod_noop_left(r * inv, dl, pi);
            assert((r * inv) * dl == r * (dl * inv)) by (nonlinear_arith);
            vstd::arithmetic::div_mod::lemma_mul_mod_noop_right(r, dl * inv, pi);
            vstd::arithmetic::div_mod::lemma_small_mod(r as nat, p);
            assert((c * d[k - (k - dd)] as nat) % p == r);
            vstd::arithmetic::div_mod::lemma_mod_self_0(pi);
        }
        assert forall|t: int| 0 <= t < rem2.len() implies (#[trigger] rem2[t]) < p by {
            if k - dd <= t <= k {
                vstd::arithmetic::div_mod::lemma_mod_bound(rem[t] as nat + p - (c * d[t - (k - dd)] as nat) % p, pi);
            }
        }
        vstd::arithmetic::div_mod::lemma_mod_bound((rem[k] as nat * inv) as int, pi);
        lemma_long_div_clears(rem2, quo.update(k - dd, c as u64), d, inv, k - 1, p);
    }
}

/// Facts about `zp_divmod` on canonical inputs: both results are canonical and the
/// remainder's degree is below the divisor's.
pub proof fn lemma_zp_divmod(a: Seq<u64>, d: Seq<u64>, p: nat)
    requires
        is_prime_spec(p),
        zp_normal(a, p),
        zp_normal(d, p),
        !zp_is_zero(d),
    ensures
        zp_normal(zp_divmod(a, d, p).0, p),
        zp_normal(zp_divmod(a, d, p).1, p),
        asc_degree(zp_divmod(a, d, p).1) < asc_degree(d),
        zp_divmod(a, d, p).1.len() <= a.len(),
        zp_divmod(a, d, p).0.len() <= quo_len(a, d),
        zp_is_zero(zp_divmod(a, d, p).1) || zp_divmod(a, d, p).1.len() < d.len(),
{
    let dl = d.last() as nat;
    assert(d[d.len() - 1] != 0);
    assert(0 < dl < p);
    lemma_prime_coprime(p, dl);
    crate::arith::lemma_inverse_exists(dl, p);
    let inv = inv_mod(dl, p);
    let q0 = Seq::new(quo_len(a, d), |i: int| 0u64);
    lemma_long_div_clears(a, q0, d, inv, a.len() - 1, p);
    let r = long_div(a, q0, d, inv, a.len() - 1, p);
    lemma_strip_normalizes(r.0, p);
    lemma_strip_normalizes(r.1, p);
    lemma_strip_props(r.0);
    lemma_strip_props(r.1);
    lemma_strip_zero_tail(r.1, d.len() - 1);
}

/// Polynomial over GF(p), with ascending coefficients reduced modulo `p`.
#[derive(Debug, PartialEq, Eq)]
pub struct PrimePoly {
    p: u64,
    coeffs: Vec<u64>,
}

impl PrimePoly {
    /// Well-formed: prime characteristic and canonical coefficients.
    pub open spec fn wf(&self) -> bool {
        &&& is_prime_spec(self.prime() as nat)
        &&& zp_normal(self.coeffs_view(), self.prime() as nat)
        &&& self.coeffs_view().len() <= isize::MAX
    }

    /// The characteristic `p`.
    pub closed spec fn prime(&self) -> u64 {
        self.p
    }

    /// Ascending coefficients.
    pub closed spec fn coeffs_view(&self) -> Seq<u64> {
        self.coeffs@
    }

    /// Builds `sum coeffs[i] x^i` over GF(p); `p` must be prime.
    pub fn new(p: u64, coeffs: Vec<u64>) -> (r: Result<Self>)
        requires
            coeffs@.len() <= isize::MAX,
        ensures
            !is_prime_spec(p as nat) ==> r == Err::<Self, GaloisError>(GaloisError::InvalidCharacteristic(p)),
            is_prime_spec(p as nat) ==> (r matches Ok(q) && q.wf() && q.prime() == p
                && q.coeffs_view() == strip_trailing(reduce_coeffs(coeffs@, p as nat))),
    {
        if !crate::prime::is_prime(p) {
            return Err(GaloisError::InvalidCharacteristic(p));
        }
        Ok(Self::from_parts(p, coeffs))
    }

    /// Reduces and strips `coeffs` for a prime `p`.
    pub(crate) fn from_parts(p: u64, coeffs: Vec<u64>) -> (r: Self)
        requires
            is_prime_spec(p as nat),
            coeffs@.len() <= isize::MAX,
        ensures
            r.wf(),
            r.prime() == p,
            r.coeffs_view() == strip_trailing(reduce_coeffs(coeffs@, p as nat)),
    {
        let mut c: Vec<u64> = Vec::new();
        let mut i: usize = 0;
        while i < coeffs.len()
            invariant
                p >= 2,
                i <= coeffs@.len(),
                c@ =~= reduce_coeffs(coeffs@, p as nat).subrange(0, i as int),
            decreases coeffs@.len() - i,
        {
            c.push(coeffs[i] % p);
            i = i + 1;
        }
        assert(c@ =~= reduce_coeffs(coeffs@, p as nat));
        strip_vec(&mut c);
        proof {
            lemma_strip_normalizes(reduce_coeffs(coeffs@, p as nat), p as nat);
            lemma_strip_props(reduce_coeffs(coeffs@, p as nat));
        }
        PrimePoly { p, coeffs: c }
    }

    /// Reduces the coefficients of an integer polynomial modulo `p`.
    pub fn from_integer(p: u64, poly: &IntegerPoly) -> (r: Result<Self>)
        requires
            poly.view_coeffs().len() <= isize::MAX,
        ensures
            !is_prime_spec(p as nat) ==> r == Err::<Self, GaloisError>(GaloisError::InvalidCharacteristic(p)),
            is_prime_spec(p as nat) ==> (r matches Ok(q) && q.wf() && q.prime() == p
                && q.coeffs_view() == strip_trailing(reduce_coeffs(poly.view_coeffs(), p as nat))),
    {
        if !crate::prime::is_prime(p) {
            return Err(GaloisError::InvalidCharacteristic(p));
        }
        let c = poly.mod_coeffs(p);
        assert(reduce_coeffs(c@, p as nat) =~= reduce_coeffs(poly.view_coeffs(), p as nat)) by {
            assert forall|i: int| 0 <= i < c@.len() implies #[trigger] reduce_coeffs(c@, p as nat)[i]
                == reduce_coeffs(poly.view_coeffs(), p as nat)[i] by {
                vstd::arithmetic::div_mod::lemma_mod_twice(poly.view_coeffs()[i] as int, p as int);
            }
        }
        Ok(Self::from_parts(p, c))
    }

    pub fn zero(p: u64) -> (r: Result<Self>)
        ensures
            !is_prime_spec(p as nat) ==> r == Err::<Self, GaloisError>(GaloisError::InvalidCharacteristic(p)),
            is_prime_spec(p as nat) ==> (r matches Ok(q) && q.wf() && q.prime() == p && q.coeffs_view() == seq![0u64]),
    {
        let r = Self::new(p, vec![0]);
        proof {
            if is_prime_spec(p as nat) {
                assert(reduce_coeffs(seq![0u64], p as nat) =~= seq![0u64]);
            }
        }
        r
    }

    pub fn one(p: u64) -> (r: Result<Self>)
        ensures
            !is_prime_spec(p as nat) ==> r == Err::<Self, GaloisError>(GaloisError::InvalidCharacteristic(p)),
            is_prime_spec(p as nat) ==> (r matches Ok(q) && q.wf() && q.prime() == p && q.coeffs_view() == seq![1u64]),
    {
        let r = Self::new(p, vec![1]);
        proof {
            if is_prime_spec(p as nat) {
                vstd::arithmetic::div_mod::lemma_small_mod(1, p as nat);
                assert(reduce_coeffs(seq![1u64], p as nat) =~= seq![1u64]);
            }
        }
        r
    }

    /// The polynomial `x`.
    pub fn x(p: u64) -> (r: Result<Self>)
        ensures
            !is_prime_spec(p as nat) ==> r == Err::<Self, GaloisError>(GaloisError::InvalidCharacteristic(p)),
            is_prime_spec(p as nat) ==> (r matches Ok(q) && q.wf() && q.prime() == p && q.coeffs_view() == seq![0u64, 1u64]),
    {
        let r = Self::new(p, vec![0, 1]);
        proof {
            if is_prime_spec(p as nat) {
                vstd::arithmetic::div_mod::lemma_small_mod(1, p as nat);
                vstd::arithmetic::div_mod::lemma_small_mod(0, p as nat);
                assert(reduce_coeffs(seq![0u64, 1u64], p as nat) =~= seq![0u64, 1u64]);
            }
        }
        r
    }

    pub fn characteristic(&self) -> (r: u64)
        ensures
            r == self.prime(),
    {
        self.p
    }

    pub fn coeffs(&self) -> (r: &[u64])
        ensures
            r@ == self.coeffs_view(),
    {
        self.coeffs.as_slice()
    }

    /// Degree; -1 for the zero polynomial.
    pub fn degree(&self) -> (r: isize)
        requires
            self.wf(),
        ensures
            r == asc_degree(self.coeffs_view()),
    {
        if self.coeffs.len() <= 1 && self.coeffs[0] == 0 {
            -1
        } else {
            self.coeffs.len() as isize - 1
        }
    }

    pub fn is_zero(&self) -> (r: bool)
        requires
            self.wf(),
        ensures
            r == zp_is_zero(self.coeffs_view()),
    {
        self.degree() < 0
    }

    /// Leading coefficient equal to one.
    pub fn is_monic(&self) -> (r: bool)
        requires
            self.wf(),
        ensures
            r == (!zp_is_zero(self.coeffs_view()) && self.coeffs_view().last() == 1),
    {
        !self.is_zero() && self.coeffs[self.coeffs.len() - 1] == 1
    }

    pub fn is_one(&self) -> (r: bool)
        ensures
            r == (self.coeffs_view() == seq![1u64]),
    {
        let r = self.coeffs.len() == 1 && self.coeffs[0] == 1;
        assert(r ==> self.coeffs@ =~= seq![1u64]);
        r
    }

    /// Text of the polynomial, ascending, e.g. `"1 + 2x + x^5"`.
    pub fn format_poly(&self, var: &str) -> (r: String)
        requires
            self.wf(),
        ensures
            zp_is_zero(self.coeffs_view()) ==> r@ == seq!['0'],
            !zp_is_zero(self.coeffs_view()) ==> r@ == terms_text_asc(self.coeffs_view(), self.prime() as nat, var@),
    {
        proof { lemma_strip_normal(self.coeffs@, self.p as nat); }
        let ip = IntegerPoly::new(self.coeffs.clone());
        ip.format_mod(self.p, var)
    }

    fn ensure_same_field(&self, other: &Self) -> (r: Result<()>)
        ensures
            r is Ok <==> self.prime() == other.prime(),
            r is Err ==> r == Err::<(), GaloisError>(GaloisError::FieldMismatch),
    {
        if self.p != other.p {
            return Err(GaloisError::FieldMismatch);
        }
        Ok(())
    }

    /// Sum; `FieldMismatch` when the characteristics differ.
    pub fn add(&self, other: &Self) -> (r: Result<Self>)
        requires
            self.wf(),
            other.wf(),
        ensures
            self.prime() != other.prime() ==> r == Err::<Self, GaloisError>(GaloisError::FieldMismatch),
            self.prime() == other.prime() ==> (r matches Ok(q) && q.wf() && q.prime() == self.prime()
                && q.coeffs_view() == zp_add(self.coeffs_view(), other.coeffs_view(), self.prime() as nat)),
    {
                if self.p != other.p {
            return Err(GaloisError::FieldMismatch);
        }
        let p = self.p;
        let len = if self.coeffs.len() >= other.coeffs.len() { self.coeffs.len() } else { other.coeffs.len() };
        let mut c: Vec<u64> = Vec::new();
        let mut i: usize = 0;
        let ghost target = Seq::new(len as nat, |k: int| ((coef(self.coeffs@, k) + coef(other.coeffs@, k)) % (p as nat)) as u64);
        while i < len
            invariant
                p >= 2,
                i <= len,
                len == max_len(self.coeffs@, other.coeffs@),
                zp_normal(self.coeffs@, p as nat),
                zp_normal(other.coeffs@, p as nat),
                target == Seq::new(len as nat, |k: int| ((coef(self.coeffs@, k) + coef(other.coeffs@, k)) % (p as nat)) as u64),
                c@ =~= target.subrange(0, i as int),
            decreases len - i,
        {
            let a: u64 = if i < self.coeffs.len() { self.coeffs[i] } else { 0 };
            let b: u64 = if i < other.coeffs.len() { other.coeffs[i] } else { 0 };
            let s: u128 = (a as u128) + (b as u128);
            c.push((s % (p as u128)) as u64);
            i = i + 1;
        }
        assert(c@ =~= target);
        proof {
            lemma_strip_normalizes(target, p as nat);
            lemma_strip_props(target);
        }
        strip_vec(&mut c);
        Ok(PrimePoly { p, coeffs: c })
    }

    /// Difference; `FieldMismatch` when the characteristics differ.
    pub fn sub(&self, other: &Self) -> (r: Result<Self>)
        requires
            self.wf(),
            other.wf(),
        ensures
            self.prime() != other.prime() ==> r == Err::<Self, GaloisError>(GaloisError::FieldMismatch),
            self.prime() == other.prime() ==> (r matches Ok(q) && q.wf() && q.prime() == self.prime()
                && q.coeffs_view() == zp_sub(self.coeffs_view(), other.coeffs_view(), self.prime() as nat)),
    {
        if self.p != other.p {
            return Err(GaloisError::FieldMismatch);
        }
        let p = self.p;
        let len = if self.coeffs.len() >= other.coeffs.len() { self.coeffs.len() } else { other.coeffs.len() };
        let mut c: Vec<u64> = Vec::new();
        let mut i: usize = 0;
        let ghost target = Seq::new(len as nat, |k: int| ((coef(self.coeffs@, k) + p - coef(other.coeffs@, k)) % (p as int)) as u64);
        while i < len
            invariant
                p >= 2,
                i <= len,
                len == max_len(self.coeffs@, other.coeffs@),
                zp_normal(self.coeffs@, p as nat),
                zp_normal(other.coeffs@, p as nat),
                target == Seq::new(len as nat, |k: int| ((coef(self.coeffs@, k) + p - coef(other.coeffs@, k)) % (p as int)) as u64),
                c@ =~= target.subrange(0, i as int),
            decreases len - i,
        {
            let a: u64 = if i < self.coeffs.len() { self.coeffs[i] } else { 0 };
            let b: u64 = if i < other.coeffs.len() { other.coeffs[i] } else { 0 };
            let s: u128 = (a as u128) + (p as u128) - (b as u128);
            c.push((s % (p as u128)) as u64);
            i = i + 1;
        }
        assert(c@ =~= target);
        assert(target =~= Seq::new(max_len(self.coeffs_view(), other.coeffs_view()) as nat,
            |k: int| ((coef(self.coeffs_view(), k) + (self.prime() as nat) - coef(other.coeffs_view(), k)) % ((self.prime() as nat) as int)) as u64));
        proof {
            lemma_strip_normalizes(target, p as nat);
            lemma_strip_props(target);
        }
        strip_vec(&mut c);
        Ok(PrimePoly { p, coeffs: c })
    }

    /// Product with a scalar, reduced modulo `p`.
    pub fn mul_scalar(&self, scalar: u64) -> (r: Result<Self>)
        requires
            self.wf(),
        ensures
            r matches Ok(q) && q.wf() && q.prime() == self.prime()
                && q.coeffs_view() == zp_scale(self.coeffs_view(), scalar as nat, self.prime() as nat),
    {
        let p = self.p;
        let s = scalar % p;
        if s == 0 || self.is_zero() {
            let z = PrimePoly { p, coeffs: vec![0] };
            assert(z.coeffs_view() =~= seq![0u64]);
            return Ok(z);
        }
        let mut c: Vec<u64> = Vec::new();
        let mut i: usize = 0;
        let ghost target = Seq::new(self.coeffs@.len(), |k: int| ((self.coeffs@[k] as nat * (scalar as nat % p as nat)) % (p as nat)) as u64);
        while i < self.coeffs.len()
            invariant
                p >= 2,
                s == scalar % p,
                i <= self.coeffs@.len(),
                target == Seq::new(self.coeffs@.len(), |k: int| ((self.coeffs@[k] as nat * (scalar as nat % p as nat)) % (p as nat)) as u64),
                c@ =~= target.subrange(0, i as int),
            decreases self.coeffs@.len() - i,
        {
            c.push(crate::prime::mul_mod(self.coeffs[i], s, p));
            i = i + 1;
        }
        assert(c@ =~= target);
        proof {
            lemma_strip_normalizes(target, p as nat);
            lemma_strip_props(target);
        }
        strip_vec(&mut c);
        Ok(PrimePoly { p, coeffs: c })
    }

    /// Product; `FieldMismatch` when the characteristics differ.
    pub fn mul(&self, other: &Self) -> (r: Result<Self>)
        requires
            self.wf(),
            other.wf(),
            self.coeffs_view().len() + other.coeffs_view().len() <= isize::MAX + 1,
        ensures
            self.prime() != other.prime() ==> r == Err::<Self, GaloisError>(GaloisError::FieldMismatch),
            self.prime() == other.prime() ==> (r matches Ok(q) && q.wf() && q.prime() == self.prime()
                && q.coeffs_view() == zp_mul(self.coeffs_view(), other.coeffs_view(), self.prime() as nat)),
    {
        if self.p != other.p {
            return Err(GaloisError::FieldMismatch);
        }
        let p = self.p;
        if self.is_zero() || other.is_zero() {
            let z = PrimePoly { p, coeffs: vec![0] };
            assert(z.coeffs_view() =~= seq![0u64]);
            return Ok(z);
        }
        let mut c = mul_coeffs(self.coeffs.as_slice(), other.coeffs.as_slice(), p);
        let ghost target = c@;
        proof {
            lemma_strip_normalizes(target, p as nat);
            lemma_strip_props(target);
        }
        strip_vec(&mut c);
        Ok(PrimePoly { p, coeffs: c })
    }
}

impl PrimePoly {
    /// Quotient and remainder; `FieldMismatch` when the characteristics differ and
    /// `DivisionByZero` for a zero divisor.
    pub fn divmod(&self, divisor: &Self) -> (r: Result<(Self, Self)>)
        requires
            self.wf(),
            divisor.wf(),
        ensures
            self.prime() != divisor.prime() ==> r == Err::<(Self, Self), GaloisError>(GaloisError::FieldMismatch),
            self.prime() == divisor.prime() && zp_is_zero(divisor.coeffs_view()) ==> r == Err::<(Self, Self), GaloisError>(
                GaloisError::DivisionByZero { characteristic: self.prime(), degree: 1 }),
            self.prime() == divisor.prime() && !zp_is_zero(divisor.coeffs_view()) ==> (r matches Ok((q, m))
                && q.wf() && m.wf() && q.prime() == self.prime() && m.prime() == self.prime()
                && (q.coeffs_view(), m.coeffs_view()) == zp_divmod(self.coeffs_view(), divisor.coeffs_view(), self.prime() as nat)
                && asc_degree(m.coeffs_view()) < asc_degree(divisor.coeffs_view())),
    {
        if self.p != divisor.p {
            return Err(GaloisError::FieldMismatch);
        }
        let p = self.p;
        if divisor.is_zero() {
            return Err(GaloisError::DivisionByZero { characteristic: p, degree: 1 });
        }
        let ghost a = self.coeffs@;
        let ghost d = divisor.coeffs@;
        let dd: usize = divisor.coeffs.len() - 1;
        let lead = divisor.coeffs[dd];
        proof {
            lemma_prime_coprime(p as nat, lead as nat);
            vstd::arithmetic::div_mod::lemma_small_mod(lead as nat, p as nat);
        }
        let inv = match mod_inverse(lead, p) {
            Ok(x) => x,
            Err(e) => { return Err(e); },
        };
        proof {
            vstd::arithmetic::div_mod::lemma_small_mod(1, p as nat);
            lemma_inv_mod_is(lead as nat, inv as nat, p as nat);
            lemma_zp_divmod(a, d, p as nat);
        }
        let la = self.coeffs.len();
        let ql: usize = if la > dd { la - dd } else { 1 };
        let mut rem: Vec<u64> = self.coeffs.clone();
        let mut quo: Vec<u64> = vec![0u64; ql];
        let ghost q0 = quo@;
        assert(q0 =~= Seq::new(quo_len(a, d), |i: int| 0u64));
        assert(rem@ =~= a);
        let mut k: usize = la;
        while k > dd
            invariant
                p >= 2,
                dd == d.len() - 1,
                d == divisor.coeffs@,
                lead == d.last(),
                inv == inv_mod(lead as nat, p as nat),
                (lead as nat * inv as nat) % (p as nat) == 1,
                inv < p,
                forall|t: int| 0 <= t < d.len() ==> (#[trigger] d[t]) < p,
                k <= la,
                la == a.len(),
                rem@.len() == la,
                quo@.len() == ql,
                ql == quo_len(a, d),
                k > dd ==> ql >= k - dd,
                forall|t: int| 0 <= t < rem@.len() ==> (#[trigger] rem@[t]) < p,
                long_div(rem@, quo@, d, inv as nat, k - 1, p as nat) == long_div(a, q0, d, inv as nat, la - 1, p as nat),
            decreases k,
        {
            let kk = k - 1;
            let c = crate::prime::mul_mod(rem[kk], inv, p);
            let shift = kk - dd;
            let ghost before = rem@;
            quo.set(shift, c);
            let mut j: usize = 0;
            while j <= dd
                invariant
                    p >= 2,
                    dd == d.len() - 1,
                    d == divisor.coeffs@,
                    forall|t: int| 0 <= t < d.len() ==> (#[trigger] d[t]) < p,
                    kk == shift + dd,
                    kk < la,
                    c < p,
                    j <= dd + 1,
                    rem@.len() == la,
                    before.len() == la,
                    forall|t: int| 0 <= t < la ==> (#[trigger] before[t]) < p,
                    rem@ == Seq::new(la as nat, |t: int| if shift <= t < shift + j {
                        ((before[t] as nat + p - (c as nat * d[t - shift] as nat) % (p as nat)) % (p as int)) as u64
                    } else {
                        before[t]
                    }),
                decreases dd + 1 - j,
            {
                let t = shift + j;
                let sub = crate::prime::mul_mod(c, divisor.coeffs[j], p);
                let v: u128 = (rem[t] as u128) + (p as u128) - (sub as u128);
                let ghost prev = rem@;
                rem.set(t, (v % (p as u128)) as u64);
                assert(rem@ =~= Seq::new(la as nat, |t2: int| if shift <= t2 < shift + j + 1 {
                        ((before[t2] as nat + p - (c as nat * d[t2 - shift] as nat) % (p as nat)) % (p as int)) as u64
                    } else {
                        before[t2]
                    })) by {
                    assert(prev[t as int] == before[t as int]);
                }
                j = j + 1;
            }
            assert(rem@ =~= div_step(before, d, kk as int, c as nat, p as nat));
            assert forall|t: int| 0 <= t < rem@.len() implies (#[trigger] rem@[t]) < p by {
                if shift <= t <= kk {
                    vstd::arithmetic::div_mod::lemma_mod_bound(before[t] as nat + p - (c as nat * d[t - shift] as nat) % (p as nat), p as int);
                }
            }
            k = kk;
        }
        let ghost res = long_div(a, q0, d, inv as nat, la - 1, p as nat);
        assert(rem@ == res.1 && quo@ == res.0);
        proof {
            lemma_long_div_clears(a, q0, d, inv as nat, la - 1, p as nat);
            lemma_strip_normalizes(res.0, p as nat);
            lemma_strip_normalizes(res.1, p as nat);
            lemma_strip_props(res.0);
            lemma_strip_props(res.1);
        }
        strip_vec(&mut rem);
        strip_vec(&mut quo);
        Ok((PrimePoly { p, coeffs: quo }, PrimePoly { p, coeffs: rem }))
    }
}

impl PrimePoly {
    /// Monic greatest common divisor; `FieldMismatch` when the characteristics differ.
    pub fn gcd(&self, other: &Self) -> (r: Result<Self>)
        requires
            self.wf(),
            other.wf(),
        ensures
            self.prime() != other.prime() ==> r == Err::<Self, GaloisError>(GaloisError::FieldMismatch),
            self.prime() == other.prime() ==> (r matches Ok(g) && g.wf() && g.prime() == self.prime()
                && g.coeffs_view() == zp_gcd(self.coeffs_view(), other.coeffs_view(), self.prime() as nat)),
    {
        if self.p != other.p {
            return Err(GaloisError::FieldMismatch);
        }
        let p = self.p;
        let mut a = self.clone();
        let mut b = other.clone();
        while !b.is_zero()
            invariant
                a.wf(),
                b.wf(),
                a.prime() == p,
                b.prime() == p,
                zp_gcd(a.coeffs_view(), b.coeffs_view(), p as nat) == zp_gcd(self.coeffs_view(), other.coeffs_view(), p as nat),
            decreases (if zp_is_zero(b.coeffs_view()) { 0 } else { b.coeffs_view().len() }),
        {
            let (_, r) = match a.divmod(&b) {
                Ok(qr) => qr,
                Err(e) => { return Err(e); },
            };
            proof { lemma_zp_divmod(a.coeffs_view(), b.coeffs_view(), p as nat); }
            a = b;
            b = r;
        }
        if a.is_zero() {
            let z = PrimePoly { p, coeffs: vec![0] };
            assert(z.coeffs_view() =~= seq![0u64]);
            return Ok(z);
        }
        let lead = a.coeffs[a.coeffs.len() - 1];
        proof {
            lemma_prime_coprime(p as nat, lead as nat);
            vstd::arithmetic::div_mod::lemma_small_mod(lead as nat, p as nat);
        }
        let inv = match mod_inverse(lead, p) {
            Ok(x) => x,
            Err(e) => { return Err(e); },
        };
        proof {
            vstd::arithmetic::div_mod::lemma_small_mod(1, p as nat);
            lemma_inv_mod_is(lead as nat, inv as nat, p as nat);
        }
        a.mul_scalar(inv)
    }

    /// Whether this polynomial is monic and irreducible over GF(p) (Ben-Or's test).
    pub fn is_irreducible(&self) -> (r: bool)
        requires
            self.wf(),
            self.coeffs_view().len() <= isize::MAX / 2,
        ensures
            r == zp_irreducible(self.coeffs_view(), self.prime() as nat),
    {
        if self.degree() <= 0 || !self.is_monic() {
            return false;
        }
        let p = self.p;
        let m: u64 = (self.coeffs.len() - 1) as u64;
        let x = PrimePoly { p, coeffs: vec![0, 1] };
        proof {
            vstd::arithmetic::div_mod::lemma_small_mod(1, p as nat);
        }
        assert(x.coeffs_view() =~= seq![0u64, 1u64]);
        let mut power = x.clone();
        assert(power.coeffs_view() =~= frobenius_power(self.coeffs_view(), p as nat, 0));
        let mut i: u64 = 1;
        while i <= m / 2
            invariant
                self.wf(),
                self.coeffs_view().len() <= isize::MAX / 2,
                self.prime() == p,
                m == self.coeffs_view().len() - 1,
                m >= 1,
                x.wf(),
                x.prime() == p,
                x.coeffs_view() == seq![0u64, 1u64],
                power.wf(),
                power.prime() == p,
                power.coeffs_view().len() <= self.coeffs_view().len(),
                1 <= i <= m / 2 + 1,
                power.coeffs_view() == frobenius_power(self.coeffs_view(), p as nat, (i - 1) as nat),
                forall|j: int| 1 <= j < i ==>
                    zp_gcd(self.coeffs_view(), zp_sub(#[trigger] frobenius_power(self.coeffs_view(), p as nat, j as nat), seq![0u64, 1u64], p as nat), p as nat) == seq![1u64],
            decreases m / 2 + 1 - i,
        {
            power = power.powmod(p, self);
            assert(power.coeffs_view() == frobenius_power(self.coeffs_view(), p as nat, i as nat));
            let diff = match power.sub(&x) {
                Ok(d) => d,
                Err(_) => { return false; },
            };
            let g = match self.gcd(&diff) {
                Ok(g) => g,
                Err(_) => { return false; },
            };
            if !g.is_one() {
                proof {
                    let ii: int = i as int;
                    assert(1 <= ii <= (self.coeffs_view().len() - 1) / 2);
                    assert(frobenius_power(self.coeffs_view(), p as nat, ii as nat) == power.coeffs_view());
                    assert(zp_gcd(self.coeffs_view(), zp_sub(frobenius_power(self.coeffs_view(), p as nat, ii as nat),
                        seq![0u64, 1u64], p as nat), p as nat) != seq![1u64]);
                }
                return false;
            }
            i = i + 1;
        }
        true
    }

    /// `self^e mod f` by repeated squaring.
    pub fn powmod(&self, e: u64, f: &Self) -> (r: Self)
        requires
            self.wf(),
            f.wf(),
            self.prime() == f.prime(),
            !zp_is_zero(f.coeffs_view()),
            self.coeffs_view().len() <= f.coeffs_view().len(),
            f.coeffs_view().len() <= isize::MAX / 2,
        ensures
            r.wf(),
            r.prime() == self.prime(),
            r.coeffs_view() == zp_powmod(self.coeffs_view(), e as nat, f.coeffs_view(), self.prime() as nat),
            r.coeffs_view().len() < f.coeffs_view().len() || (zp_is_zero(r.coeffs_view()) && r.coeffs_view().len() == 1),
        decreases e,
    {
        let p = self.p;
        if e == 0 {
            let one = PrimePoly { p, coeffs: vec![1] };
            proof { vstd::arithmetic::div_mod::lemma_small_mod(1, p as nat); }
            assert(one.coeffs_view() =~= seq![1u64]);
            proof { lemma_zp_divmod(seq![1u64], f.coeffs_view(), p as nat); }
            return match one.divmod(f) {
                Ok((_, m)) => m,
                Err(_) => one,
            };
        }
        let half = self.powmod(e / 2, f);
        let r2 = half.mulmod(&half, f);
        if e % 2 == 1 {
            r2.mulmod(self, f)
        } else {
            r2
        }
    }

    /// `self * other mod f`.
    pub fn mulmod(&self, other: &Self, f: &Self) -> (r: Self)
        requires
            self.wf(),
            other.wf(),
            f.wf(),
            self.prime() == f.prime(),
            other.prime() == f.prime(),
            !zp_is_zero(f.coeffs_view()),
            self.coeffs_view().len() <= f.coeffs_view().len(),
            other.coeffs_view().len() <= f.coeffs_view().len(),
            f.coeffs_view().len() <= isize::MAX / 2,
        ensures
            r.wf(),
            r.prime() == self.prime(),
            r.coeffs_view() == zp_mulmod(self.coeffs_view(), other.coeffs_view(), f.coeffs_view(), self.prime() as nat),
            r.coeffs_view().len() < f.coeffs_view().len() || (zp_is_zero(r.coeffs_view()) && r.coeffs_view().len() == 1),
    {
        let prod = match self.mul(other) {
            Ok(x) => x,
            Err(_) => { return self.clone(); },
        };
        proof { lemma_zp_divmod(prod.coeffs_view(), f.coeffs_view(), self.p as nat); }
        match prod.divmod(f) {
            Ok((_, m)) => m,
            Err(_) => self.clone(),
        }
    }
}

impl Clone for PrimePoly {
    fn clone(&self) -> (r: Self)
        ensures
            r.prime() == self.prime(),
            r.coeffs_view() == self.coeffs_view(),
    {
        let c = self.coeffs.clone();
        assert(c@ =~= self.coeffs@);
        PrimePoly { p: self.p, coeffs: c }
    }
}

/// `conv_sum(a, b, k, i)` with row `i` added for the first `j` columns.
pub open spec fn conv_part(a: Seq<u64>, b: Seq<u64>, k: int, i: int, j: int) -> int {
    conv_sum(a, b, k, i) + if 0 <= k - i < j { coef(a, i) * coef(b, k - i) } else { 0 }
}

pub proof fn lemma_mod_add_left(x: int, y: int, m: int)
    requires
        m > 0,
    ensures
        ((x % m) + y) % m == (x + y) % m,
{
    vstd::arithmetic::div_mod::lemma_add_mod_noop(x % m, y, m);
    vstd::arithmetic::div_mod::lemma_mod_twice(x, m);
    vstd::arithmetic::div_mod::lemma_add_mod_noop(x, y, m);
}

/// Schoolbook product of two coefficient sequences modulo `p`.
pub(crate) fn mul_coeffs(a: &[u64], b: &[u64], p: u64) -> (r: Vec<u64>)
    requires
        p >= 1,
        a@.len() + b@.len() >= 1,
        a@.len() + b@.len() <= isize::MAX + 1,
    ensures
        r@ == Seq::new((a@.len() + b@.len() - 1) as nat, |k: int| (conv_sum(a@, b@, k, a@.len() as int) % (p as int)) as u64),
        r@.len() <= isize::MAX,
{
    let n: usize = a.len() + b.len() - 1;
    let mut out: Vec<u64> = vec![0u64; n];
    let mut i: usize = 0;
    assert forall|k: int| 0 <= k < n implies (#[trigger] out@[k]) == conv_sum(a@, b@, k, 0) % (p as int) by {
        vstd::arithmetic::div_mod::lemma_small_mod(0, p as nat);
    }
    while i < a.len()
        invariant
            p >= 1,
            n == a@.len() + b@.len() - 1,
            i <= a@.len(),
            out@.len() == n,
            forall|k: int| 0 <= k < n ==> (#[trigger] out@[k]) == conv_sum(a@, b@, k, i as int) % (p as int),
        decreases a@.len() - i,
    {
        let mut j: usize = 0;
        while j < b.len()
            invariant
                p >= 1,
                n == a@.len() + b@.len() - 1,
                i < a@.len(),
                j <= b@.len(),
                out@.len() == n,
                forall|k: int| 0 <= k < n ==> (#[trigger] out@[k]) == conv_part(a@, b@, k, i as int, j as int) % (p as int),
            decreases b@.len() - j,
        {
            let k = i + j;
            proof {
                assert(a[i as int] * b[j as int] <= 0xffff_ffff_ffff_ffffint * 0xffff_ffff_ffff_ffffint) by (nonlinear_arith)
                    requires a[i as int] <= 0xffff_ffff_ffff_ffffint, b[j as int] <= 0xffff_ffff_ffff_ffffint, a[i as int] >= 0, b[j as int] >= 0;
            }
            let prod: u128 = (a[i] as u128) * (b[j] as u128);
            let s: u128 = (out[k] as u128) + prod;
            let ghost old_out = out@;
            out.set(k, (s % (p as u128)) as u64);
            proof {
                lemma_mod_add_left(conv_part(a@, b@, k as int, i as int, j as int), prod as int, p as int);
                assert forall|t: int| 0 <= t < n implies (#[trigger] out@[t]) == conv_part(a@, b@, t, i as int, j + 1) % (p as int) by {
                    if t != k {
                        assert(out@[t] == old_out[t]);
                    }
                }
            }
            j = j + 1;
        }
        proof {
            assert forall|k: int| 0 <= k < n implies (#[trigger] out@[k]) == conv_sum(a@, b@, k, i + 1) % (p as int) by {
                assert(conv_part(a@, b@, k, i as int, b@.len() as int) == conv_sum(a@, b@, k, i + 1));
            }
        }
        i = i + 1;
    }
    assert(out@ =~= Seq::new((a@.len() + b@.len() - 1) as nat, |k: int| (conv_sum(a@, b@, k, a@.len() as int) % (p as int)) as u64));
    out
}

} // verus!

verus! {

/// Inverse of `a` modulo `p`: `Ok(x)` with `x < p` and `a * x = 1 (mod p)` when `a != 0` and
/// `gcd(a mod p, p) = 1`; `DivisionByZero` otherwise.
pub fn mod_inverse(a: u64, p: u64) -> (r: Result<u64>)
    requires
        1 <= p,
    ensures
        (a == 0 || gcd_spec(p as nat, (a % p) as nat) != 1) ==> r == Err::<u64, GaloisError>(
            GaloisError::DivisionByZero { characteristic: p, degree: 1 }),
        (a != 0 && gcd_spec(p as nat, (a % p) as nat) == 1) ==> (r matches Ok(x) && x < p
            && ((a as int) * (x as int)) % (p as int) == 1int % (p as int)),
{
    if a == 0 {
        return Err(GaloisError::DivisionByZero { characteristic: p, degree: 1 });
    }
    let a0: u64 = a % p;
    let mut t: i128 = 0;
    let mut new_t: i128 = 1;
    let mut r: i128 = p as i128;
    let mut new_r: i128 = a0 as i128;
    assert(iabs(0) == 0 && iabs(1) == 1);
    assert(0 * new_r + 1 * r == p) by (nonlinear_arith) requires r == p;
    proof {
        vstd::arithmetic::div_mod::lemma_mod_multiples_basic(-1, p as int);
        assert(t * a0 - r == -1 * (p as int));
        vstd::arithmetic::div_mod::lemma_small_mod(0, p as nat);
        assert(new_t * a0 - new_r == 0);
    }
    while new_r != 0
        invariant
            0 <= r <= p,
            0 <= new_r <= p,
            a0 < p,
            gcd_spec(r as nat, new_r as nat) == gcd_spec(p as nat, a0 as nat),
            (t * a0 - r) % (p as int) == 0,
            (new_t * a0 - new_r) % (p as int) == 0,
            iabs(t as int) * new_r + iabs(new_t as int) * r == p,
            t * new_t <= 0,
            iabs(t as int) <= p,
            r == 0 ==> new_t == 0 && iabs(t as int) <= 1,
        decreases new_r,
    {
        let quotient = r / new_r;
        let rem = r % new_r;
        proof {
            vstd::arithmetic::div_mod::lemma_fundamental_div_mod(r as int, new_r as int);
            vstd::arithmetic::div_mod::lemma_mod_bound(r as int, new_r as int);
            assert(quotient >= 0) by (nonlinear_arith)
                requires r >= 0, new_r > 0, quotient == r / new_r;
            assert(r == quotient * new_r + rem) by (nonlinear_arith)
                requires r == new_r * (r / new_r) + r % new_r, quotient == r / new_r, rem == r % new_r;
            lemma_inverse_coeff(t as int, new_t as int, quotient as int, new_r as int, rem as int,
                r as int, p as int);
            let x = t * a0 - r;
            let y = new_t * a0 - new_r;
            assert((t - quotient * new_t) * a0 - rem == x - quotient * y) by (nonlinear_arith)
                requires r == quotient * new_r + rem, x == t * a0 - r, y == new_t * a0 - new_r;
            lemma_mod_zero_combination(x, y, quotient as int, p as int);
        }
        let next_t = t - quotient * new_t;
        t = new_t;
        new_t = next_t;
        r = new_r;
        new_r = rem;
    }
    if r != 1 {
        return Err(GaloisError::DivisionByZero { characteristic: p, degree: 1 });
    }
    let x: u64 = if t >= 0 {
        (t as u64) % p
    } else {
        let u = ((-t) as u64) % p;
        if u == 0 { 0 } else { p - u }
    };
    proof {
        // x = t (mod p), and t * a0 = 1 (mod p)
        assert((x as int - t) % (p as int) == 0) by {
            if t >= 0 {
                vstd::arithmetic::div_mod::lemma_fundamental_div_mod(t as int, p as int);
                let ti = t as int;
                let q = ti / (p as int);
                assert(x as int - ti == (-q) * p) by (nonlinear_arith)
                    requires ti == p * q + ti % (p as int), x == ti % (p as int);
                vstd::arithmetic::div_mod::lemma_mod_multiples_basic(-q, p as int);
            } else {
                let v = -(t as int);
                vstd::arithmetic::div_mod::lemma_fundamental_div_mod(v, p as int);
                let q = v / (p as int);
                let u = v % (p as int);
                if u == 0 {
                    assert(x as int - t == q * p) by (nonlinear_arith)
                        requires v == p * q + u, u == 0, x == 0, t == -v;
                    vstd::arithmetic::div_mod::lemma_mod_multiples_basic(q, p as int);
                } else {
                    assert(x as int - t == (q + 1) * p) by (nonlinear_arith)
                        requires v == p * q + u, x == p - u, t == -v;
                    vstd::arithmetic::div_mod::lemma_mod_multiples_basic(q + 1, p as int);
                }
            }
        }
        lemma_inverse_finish(a as int, a0 as int, x as int, t as int, p as int);
    }
    Ok(x)
}

proof fn lemma_inverse_coeff(os: int, s: int, q: int, r: int, rem: int, or: int, b: int)
    requires
        r > 0,
        q >= 0,
        or == q * r + rem,
        0 <= rem < r,
        iabs(os) * r + iabs(s) * or == b,
        os * s <= 0,
        or == 0 ==> s == 0,
    ensures
        iabs(s) * rem + iabs(os - q * s) * r == b,
        s * (os - q * s) <= 0,
        iabs(os - q * s) <= b,
        iabs(s) <= b,
{
    assert(iabs(os - q * s) == iabs(os) + q * iabs(s)) by (nonlinear_arith)
        requires os * s <= 0, q >= 0;
    assert(iabs(s) * rem + (iabs(os) + q * iabs(s)) * r == b) by (nonlinear_arith)
        requires or == q * r + rem, iabs(os) * r + iabs(s) * or == b;
    assert(s * (os - q * s) <= 0) by (nonlinear_arith) requires os * s <= 0, q >= 0;
    assert(iabs(os - q * s) <= b) by (nonlinear_arith)
        requires iabs(s) * rem + iabs(os - q * s) * r == b, r >= 1, rem >= 0;
    if or > 0 {
        assert(iabs(s) <= b) by (nonlinear_arith)
            requires iabs(os) * r + iabs(s) * or == b, or >= 1, r >= 0;
    }
}

proof fn lemma_mod_zero_combination(x: int, y: int, q: int, p: int)
    requires
        p > 0,
        x % p == 0,
        y % p == 0,
    ensures
        (x - q * y) % p == 0,
{
    vstd::arithmetic::div_mod::lemma_fundamental_div_mod(x, p);
    vstd::arithmetic::div_mod::lemma_fundamental_div_mod(y, p);
    let a = x / p;
    let b = y / p;
    assert(x - q * y == (a - q * b) * p) by (nonlinear_arith) requires x == p * a, y == p * b;
    vstd::arithmetic::div_mod::lemma_mod_multiples_basic(a - q * b, p);
}

proof fn lemma_inverse_finish(a: int, a0: int, x: int, t: int, p: int)
    requires
        p > 0,
        a >= 0,
        a0 == a % p,
        (x - t) % p == 0,
        (t * a0 - 1) % p == 0,
    ensures
        (a * x) % p == 1int % p,
{
    vstd::arithmetic::div_mod::lemma_fundamental_div_mod(a, p);
    vstd::arithmetic::div_mod::lemma_fundamental_div_mod(x - t, p);
    vstd::arithmetic::div_mod::lemma_fundamental_div_mod(t * a0 - 1, p);
    let k = a / p;
    let u = (x - t) / p;
    let w = (t * a0 - 1) / p;
    assert(a * x - 1 == (k * x + u * a0 + w) * p) by (nonlinear_arith)
        requires a == p * k + a0, x - t == p * u, t * a0 - 1 == p * w;
    vstd::arithmetic::div_mod::lemma_mod_multiples_vanish(k * x + u * a0 + w, 1, p);
    assert((k * x + u * a0 + w) * p + 1 == a * x);
}

} // verus!
