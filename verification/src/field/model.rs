//! The mathematical model of GF(p^m) elements: an element is an integer below `p^m`
//! whose base-`p` digits are the coefficients of a polynomial of degree below `m`.

use vstd::prelude::*;
use crate::arith::{npow, lemma_npow_unfold, lemma_npow_positive, lemma_npow_zero};
use crate::poly::integer::strip_trailing;
use crate::poly::prime::{zp_mulmod, zp_mul, zp_divmod, zp_is_zero, conv_sum, coef, long_div, quo_len};
use crate::arith::is_prime_spec;

verus! {

/// Digit `i` of `v` in base `p`.
pub open spec fn digit(v: nat, p: nat, i: nat) -> nat {
    (v / npow(p, i)) % p
}

/// The first `m` base-`p` digits of `v`, least significant first.
pub open spec fn digits(v: nat, p: nat, m: nat) -> Seq<u64> {
    Seq::new(m, |i: int| digit(v, p, i as nat) as u64)
}

/// The value of ascending base-`p` digits.
pub open spec fn from_digits(s: Seq<u64>, p: nat) -> nat
    decreases s.len(),
{
    if s.len() == 0 {
        0
    } else {
        from_digits(s.drop_last(), p) + s.last() as nat * npow(p, (s.len() - 1) as nat)
    }
}

/// The polynomial of an element: its digits without trailing zeros.
pub open spec fn elem_poly(v: nat, p: nat, m: nat) -> Seq<u64> {
    strip_trailing(digits(v, p, m))
}

/// Coefficientwise combination used by addition (`mode` 0), subtraction (1) and negation (2).
pub open spec fn digit_op(x: nat, y: nat, p: nat, mode: nat) -> nat {
    if mode == 0 {
        (x + y) % p
    } else if mode == 1 {
        ((x + p - y) % (p as int)) as nat
    } else {
        ((p - x) % (p as int)) as nat
    }
}

/// Digits of the coefficientwise combination of `a` and `b`.
pub open spec fn op_digits(a: nat, b: nat, p: nat, m: nat, mode: nat) -> Seq<u64> {
    Seq::new(m, |i: int| digit_op(digit(a, p, i as nat), digit(b, p, i as nat), p, mode) as u64)
}

/// Sum in GF(p^m): coefficients added modulo `p`.
pub open spec fn gf_add(a: nat, b: nat, p: nat, m: nat) -> nat {
    from_digits(op_digits(a, b, p, m, 0), p)
}

/// Difference in GF(p^m): coefficients subtracted modulo `p`.
pub open spec fn gf_sub(a: nat, b: nat, p: nat, m: nat) -> nat {
    from_digits(op_digits(a, b, p, m, 1), p)
}

/// Additive inverse in GF(p^m).
pub open spec fn gf_neg(a: nat, p: nat, m: nat) -> nat {
    from_digits(op_digits(a, 0, p, m, 2), p)
}

/// Product in GF(p^m): residues multiplied modulo `p` when `m == 1`, otherwise the product
/// of the element polynomials reduced modulo the irreducible polynomial `f`.
pub open spec fn gf_mul(a: nat, b: nat, p: nat, m: nat, f: Seq<u64>) -> nat {
    if m == 1 {
        (a * b) % p
    } else {
        from_digits(zp_mulmod(elem_poly(a, p, m), elem_poly(b, p, m), f, p), p)
    }
}

/// `g^i` by repeated multiplication on the right.
pub open spec fn gf_power(g: nat, i: nat, p: nat, m: nat, f: Seq<u64>) -> nat
    decreases i,
{
    if i == 0 { 1 } else { gf_mul(gf_power(g, (i - 1) as nat, p, m, f), g, p, m, f) }
}

/// `b^e` by repeated squaring: `b^e = (b^(e/2))^2 b^(e mod 2)`.
pub open spec fn gf_pow_sq(b: nat, e: nat, p: nat, m: nat, f: Seq<u64>) -> nat
    decreases e,
{
    if e == 0 {
        1
    } else {
        let r = gf_pow_sq(b, e / 2, p, m, f);
        let r2 = gf_mul(r, r, p, m, f);
        if e % 2 == 1 { gf_mul(r2, b, p, m, f) } else { r2 }
    }
}

pub proof fn lemma_npow_succ(p: nat, i: nat)
    ensures
        npow(p, i + 1) == npow(p, i) * p,
{
    lemma_npow_unfold(p, i + 1);
    assert(p * npow(p, i) == npow(p, i) * p) by (nonlinear_arith);
}

/// `(v / p^i) / p == v / p^(i+1)`.
pub proof fn lemma_div_step(v: nat, p: nat, i: nat)
    requires
        p > 0,
    ensures
        (v / npow(p, i)) / p == v / npow(p, i + 1),
{
    lemma_npow_positive(p, i);
    lemma_npow_succ(p, i);
    vstd::arithmetic::div_mod::lemma_div_denominator(v as int, npow(p, i) as int, p as int);
}

/// Digits below `p` give a value below `p^len`.
pub proof fn lemma_from_digits_bound(s: Seq<u64>, p: nat)
    requires
        p > 0,
        forall|i: int| 0 <= i < s.len() ==> (#[trigger] s[i]) < p,
    ensures
        from_digits(s, p) < npow(p, s.len()),
    decreases s.len(),
{
    if s.len() == 0 {
        lemma_npow_zero(p);
    } else {
        let n = (s.len() - 1) as nat;
        lemma_from_digits_bound(s.drop_last(), p);
        lemma_npow_succ(p, n);
        let a = from_digits(s.drop_last(), p);
        let c = s.last() as nat;
        let w = npow(p, n);
        assert(a + c * w < w * p) by (nonlinear_arith)
            requires a < w, c < p, c >= 0, w >= 0;
    }
}

/// `p^i <= p^j` for `i <= j`.
pub proof fn lemma_npow_le(p: nat, i: nat, j: nat)
    requires
        p > 0,
        i <= j,
    ensures
        npow(p, i) <= npow(p, j),
    decreases j,
{
    if i < j {
        lemma_npow_le(p, i, (j - 1) as nat);
        lemma_npow_succ(p, (j - 1) as nat);
        lemma_npow_positive(p, (j - 1) as nat);
        assert(npow(p, (j - 1) as nat) <= npow(p, (j - 1) as nat) * p) by (nonlinear_arith)
            requires p >= 1, npow(p, (j - 1) as nat) >= 0;
    }
}

/// The first `m` digits of `v` recover `v mod p^m`.
pub proof fn lemma_digits_value(v: nat, p: nat, m: nat)
    requires
        0 < p <= u64::MAX,
    ensures
        from_digits(digits(v, p, m), p) == v % npow(p, m),
    decreases m,
{
    lemma_npow_positive(p, m);
    if m == 0 {
        lemma_npow_zero(p);
        assert(digits(v, p, 0) =~= Seq::<u64>::empty());
    } else {
        let n = (m - 1) as nat;
        assert(digits(v, p, m).drop_last() =~= digits(v, p, n));
        lemma_digits_value(v, p, n);
        lemma_npow_positive(p, n);
        lemma_npow_succ(p, n);
        vstd::arithmetic::div_mod::lemma_mod_bound((v / npow(p, n)) as int, p as int);
        vstd::arithmetic::div_mod::lemma_mod_breakdown(v as int, npow(p, n) as int, p as int);
        assert(npow(p, n) * p == npow(p, m));
        let d = digit(v, p, n);
        assert(digits(v, p, m).last() as nat == d);
        assert(from_digits(digits(v, p, m), p) == v % npow(p, n) + d * npow(p, n));
        assert(npow(p, n) * ((v / npow(p, n)) % p) == d * npow(p, n)) by (nonlinear_arith)
            requires d == (v / npow(p, n)) % p;
    }
}

/// Values below `p^m` are their own digit expansion.
pub proof fn lemma_digits_roundtrip(v: nat, p: nat, m: nat)
    requires
        0 < p <= u64::MAX,
        v < npow(p, m),
    ensures
        from_digits(digits(v, p, m), p) == v,
{
    lemma_digits_value(v, p, m);
    vstd::arithmetic::div_mod::lemma_small_mod(v, npow(p, m));
}

/// Every digit is below `p`.
pub proof fn lemma_digits_bound(v: nat, p: nat, m: nat)
    requires
        0 < p <= u64::MAX,
    ensures
        forall|i: int| 0 <= i < m ==> (#[trigger] digits(v, p, m)[i]) < p,
{
    assert forall|i: int| 0 <= i < m implies (#[trigger] digits(v, p, m)[i]) < p by {
        lemma_npow_positive(p, i as nat);
        vstd::arithmetic::div_mod::lemma_mod_bound((v / npow(p, i as nat)) as int, p as int);
    }
}

/// Trailing zeros do not change the value of a digit sequence.
pub proof fn lemma_from_digits_strip(s: Seq<u64>, p: nat)
    ensures
        from_digits(strip_trailing(s), p) == from_digits(s, p),
    decreases s.len(),
{
    if s.len() == 0 {
        assert(seq![0u64].drop_last() =~= Seq::<u64>::empty());
        assert(from_digits(Seq::<u64>::empty(), p) == 0);
        let z = seq![0u64];
        assert(z.len() == 1 && z.last() == 0u64);
        assert(from_digits(z, p) == from_digits(z.drop_last(), p) + (z.last() as nat) * npow(p, 0));
        assert(from_digits(z, p) == 0);
    } else if s.len() > 1 && s.last() == 0 {
        lemma_from_digits_strip(s.drop_last(), p);
        assert(from_digits(s, p) == from_digits(s.drop_last(), p) + 0 * npow(p, (s.len() - 1) as nat));
    }
}

/// Every coefficientwise combination is below `p`.
pub proof fn lemma_op_digits_bound(a: nat, b: nat, p: nat, m: nat, mode: nat)
    requires
        0 < p <= u64::MAX,
    ensures
        forall|i: int| 0 <= i < m ==> (#[trigger] op_digits(a, b, p, m, mode)[i]) < p,
{
    assert forall|i: int| 0 <= i < m implies (#[trigger] op_digits(a, b, p, m, mode)[i]) < p by {
        let x = digit(a, p, i as nat);
        let y = digit(b, p, i as nat);
        if mode == 0 {
            vstd::arithmetic::div_mod::lemma_mod_bound((x + y) as int, p as int);
        } else if mode == 1 {
            vstd::arithmetic::div_mod::lemma_mod_bound(x + p - y, p as int);
        } else {
            vstd::arithmetic::div_mod::lemma_mod_bound(p - x, p as int);
        }
    }
}


/// Stripping trailing zeros keeps a nonempty prefix whose last coefficient is nonzero
/// unless it is the only one.
pub proof fn lemma_strip_trailing_prefix(s: Seq<u64>)
    requires
        s.len() >= 1,
    ensures
        1 <= strip_trailing(s).len() <= s.len(),
        forall|i: int| 0 <= i < strip_trailing(s).len() ==> #[trigger] strip_trailing(s)[i] == s[i],
        strip_trailing(s).len() == 1 || strip_trailing(s).last() != 0,
    decreases s.len(),
{
    if s.len() > 1 && s.last() == 0 {
        lemma_strip_trailing_prefix(s.drop_last());
    }
}

/// One times an element of GF(p^m) is that element.
pub proof fn lemma_gf_mul_one_left(g: nat, p: nat, m: nat, f: Seq<u64>)
    requires
        is_prime_spec(p),
        p <= u64::MAX,
        1 <= m,
        f.len() == m + 1,
        g < npow(p, m),
    ensures
        gf_mul(1, g, p, m, f) == g,
{
    if m == 1 {
        lemma_npow_succ(p, 0);
        lemma_npow_zero(p);
        assert(g < p);
        vstd::arithmetic::div_mod::lemma_small_mod(g, p);
        assert(1 * g == g);
    } else {
        lemma_npow_zero(p);
        let d1 = digits(1, p, m);
        assert(p >= 2);
        assert(d1[0] == 1) by {
            assert(d1[0] as nat == digit(1, p, 0));
            vstd::arithmetic::div_mod::lemma_small_mod(1nat, p);
        }
        assert forall|i: int| 1 <= i < m implies #[trigger] d1[i] == 0 by {
            lemma_npow_le(p, 1, i as nat);
            lemma_npow_succ(p, 0);
            let w = npow(p, i as nat);
            assert(w >= 2);
            assert(1nat / w == 0) by (nonlinear_arith) requires w >= 2;
            assert(d1[i] as nat == digit(1, p, i as nat));
            assert(digit(1, p, i as nat) == (1nat / w) % p);
        }
        lemma_strip_trailing_prefix(d1);
        let a = elem_poly(1, p, m);
        assert(a =~= seq![1u64]);
        let dg = digits(g, p, m);
        lemma_digits_bound(g, p, m);
        lemma_strip_trailing_prefix(dg);
        let b = elem_poly(g, p, m);
        assert forall|k: int| 0 <= k < b.len() implies (#[trigger] b[k]) < p by {
            assert(b[k] == dg[k]);
        }
        let prod = zp_mul(a, b, p);
        assert(from_digits(prod, p) == from_digits(b, p) && 1 <= prod.len() <= b.len()) by {
            if zp_is_zero(b) {
                assert(b =~= seq![0u64]);
            } else {
                assert(!zp_is_zero(a));
                let raw = Seq::new((a.len() + b.len() - 1) as nat, |k: int| (conv_sum(a, b, k, a.len() as int) % (p as int)) as u64);
                assert forall|k: int| 0 <= k < raw.len() implies #[trigger] raw[k] == b[k] by {
                    assert(conv_sum(a, b, k, 0) == 0);
                    assert(coef(a, 0) == 1);
                    assert(conv_sum(a, b, k, 1) == coef(b, k));
                    vstd::arithmetic::div_mod::lemma_small_mod(b[k] as nat, p);
                }
                assert(raw =~= b);
                assert(prod == strip_trailing(raw));
                lemma_from_digits_strip(raw, p);
                lemma_strip_trailing_prefix(raw);
            }
        }
        let inv = crate::poly::prime::inv_mod(f.last() as nat, p);
        let zero_q = Seq::new(quo_len(prod, f), |i: int| 0u64);
        assert(long_div(prod, zero_q, f, inv, prod.len() - 1, p) == (zero_q, prod));
        lemma_from_digits_strip(prod, p);
        lemma_from_digits_strip(dg, p);
        lemma_digits_roundtrip(g, p, m);
        assert(zp_divmod(prod, f, p).1 == strip_trailing(prod));
        assert(zp_mulmod(a, b, f, p) == strip_trailing(prod));
        assert(from_digits(b, p) == g);
        assert(gf_mul(1, g, p, m, f) == from_digits(zp_mulmod(a, b, f, p), p));
    }
}

} // verus!
