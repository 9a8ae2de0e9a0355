//! Basic integer utilities.

use vstd::prelude::*;
use crate::arith::gcd_spec;
use crate::modular::iabs;

verus! {

/// Absolute value of an `i64` other than `i64::MIN`.
pub fn abs_i64(x: i64) -> (r: i64)
    requires
        x != i64::MIN,
    ensures
        r == iabs(x as int),
{
    if x < 0 { -x } else { x }
}

/// Sign of an integer: -1, 0 or 1.
pub fn sign_i64(x: i64) -> (r: i32)
    ensures
        x > 0 ==> r == 1,
        x < 0 ==> r == -1,
        x == 0 ==> r == 0,
{
    if x > 0 {
        1
    } else if x < 0 {
        -1
    } else {
        0
    }
}

/// Falling factorial `n (n - 1) ... (n - k + 1)`.
pub open spec fn falling(n: nat, k: nat) -> nat
    decreases k,
{
    if k == 0 {
        1
    } else {
        falling(n, (k - 1) as nat) * ((n - (k - 1)) as nat)
    }
}

/// `k!`.
pub open spec fn factorial(k: nat) -> nat
    decreases k,
{
    if k == 0 {
        1
    } else {
        factorial((k - 1) as nat) * k
    }
}

/// The numerator kept by `binomial`: `n (n-1) ... (n-k+1) mod p` (1 when `k == 0`).
pub open spec fn binomial_numerator(n: nat, k: nat, p: nat) -> nat {
    if k == 0 { 1 } else { falling(n, k) % p }
}

/// The denominator kept by `binomial`: `k! mod p` (1 when `k == 0`).
pub open spec fn binomial_denominator(k: nat, p: nat) -> nat {
    if k == 0 { 1 } else { factorial(k) % p }
}

/// The residue `r < p` with `r k! = n (n-1) ... (n-k+1) (mod p)` when `k!` is invertible
/// modulo `p` (this is `C(n, k) mod p`), and 0 when `k > n` or `k!` is not invertible.
pub open spec fn small_binomial(n: nat, k: nat, p: nat) -> nat {
    if k > n || !(binomial_denominator(k, p) != 0 && gcd_spec(p, binomial_denominator(k, p) % p) == 1) {
        0
    } else {
        choose|r: nat| #[trigger] binom_residue(r, n, k, p)
    }
}

/// `r < p` and `r k! = n (n-1) ... (n-k+1) (mod p)`.
pub open spec fn binom_residue(r: nat, n: nat, k: nat, p: nat) -> bool {
    r < p && (r as int * binomial_denominator(k, p)) % (p as int) == binomial_numerator(n, k, p) as int % (p as int)
}

/// Lucas' rule: the product modulo `p` of the small binomials of the base-`p` digits of `n`
/// and `k`, lowest first.
pub open spec fn lucas(n: nat, k: nat, p: nat) -> nat
    decreases k
    via lucas_decreases
{
    if k == 0 || p < 2 {
        1nat % p
    } else {
        (small_binomial(n % p, k % p, p) * lucas(n / p, k / p, p)) % p
    }
}

#[via_fn]
proof fn lucas_decreases(n: nat, k: nat, p: nat) {
    if !(k == 0 || p < 2) {
        vstd::arithmetic::div_mod::lemma_div_decreases(k as int, p as int);
    }
}

/// Lucas' product is a residue modulo `p`.
proof fn lemma_lucas_below(n: nat, k: nat, p: nat)
    requires
        p >= 2,
    ensures
        lucas(n, k, p) < p,
{
    vstd::arithmetic::div_mod::lemma_mod_bound(1, p as int);
    if k > 0 {
        vstd::arithmetic::div_mod::lemma_mod_bound((small_binomial(n % p, k % p, p) * lucas(n / p, k / p, p)) as int, p as int);
    }
}

/// Two residues that agree after multiplying by an invertible `d` are equal.
proof fn lemma_cancel(r1: nat, r2: nat, d: nat, x: nat, p: nat)
    requires
        p >= 1,
        r1 < p,
        r2 < p,
        (d as int * x as int) % (p as int) == 1int % (p as int),
        (r1 as int * d as int) % (p as int) == (r2 as int * d as int) % (p as int),
    ensures
        r1 == r2,
{
    let (pi, di, xi) = (p as int, d as int, x as int);
    vstd::arithmetic::div_mod::lemma_mul_mod_noop_left(r1 as int * di, xi, pi);
    vstd::arithmetic::div_mod::lemma_mul_mod_noop_left(r2 as int * di, xi, pi);
    assert((r1 as int * di) * xi == r1 as int * (di * xi)) by (nonlinear_arith);
    assert((r2 as int * di) * xi == r2 as int * (di * xi)) by (nonlinear_arith);
    vstd::arithmetic::div_mod::lemma_mul_mod_noop_right(r1 as int, di * xi, pi);
    vstd::arithmetic::div_mod::lemma_mul_mod_noop_right(r2 as int, di * xi, pi);
    vstd::arithmetic::div_mod::lemma_mul_mod_noop_right(r1 as int, 1, pi);
    vstd::arithmetic::div_mod::lemma_mul_mod_noop_right(r2 as int, 1, pi);
    vstd::arithmetic::div_mod::lemma_small_mod(r1, p);
    vstd::arithmetic::div_mod::lemma_small_mod(r2, p);
}

/// `C(n, k) mod p` for `n, k` below `p` (and any `n, k` when `k!` is invertible): computed as
/// `n^(k) / k! (mod p)`; 0 when `k > n` or when `k!` is not invertible modulo `p`.
fn small_binomial_exec(n: u64, k: u64, p: u64) -> (r: u64)
    requires
        1 <= p <= i64::MAX,
    ensures
        r == small_binomial(n as nat, k as nat, p as nat),
        r < p,
{
    if k > n {
        return 0;
    }
    let mut num: u64 = 1;
    let mut den: u64 = 1;
    let mut i: u64 = 0;
    while i < k
        invariant
            k <= n,
            1 <= p,
            i <= k,
            num == binomial_numerator(n as nat, i as nat, p as nat),
            den == binomial_denominator(i as nat, p as nat),
        decreases k - i,
    {
        proof {
            if i > 0 {
                vstd::arithmetic::div_mod::lemma_mul_mod_noop_left(falling(n as nat, i as nat) as int,
                    (n - i) as int, p as int);
                vstd::arithmetic::div_mod::lemma_mul_mod_noop_left(factorial(i as nat) as int,
                    (i + 1) as int, p as int);
            }
            assert(falling(n as nat, (i + 1) as nat) == falling(n as nat, i as nat) * ((n - i) as nat));
            assert(factorial((i + 1) as nat) == factorial(i as nat) * ((i + 1) as nat));
        }
        num = crate::prime::mul_mod(num, n - i, p);
        den = crate::prime::mul_mod(den, i + 1, p);
        i = i + 1;
    }
    let ghost dk = binomial_denominator(k as nat, p as nat);
    let ghost nk = binomial_numerator(n as nat, k as nat, p as nat);
    match crate::poly::prime::mod_inverse(den, p) {
        Ok(inv) => {
            let r = crate::prime::mul_mod(num, inv, p);
            proof {
                let d = den as int;
                vstd::arithmetic::div_mod::lemma_mul_mod_noop_left(num as int * inv as int, d, p as int);
                assert((num as int * inv as int) * d == num as int * (d * inv as int)) by (nonlinear_arith);
                vstd::arithmetic::div_mod::lemma_mul_mod_noop_right(num as int, d * inv as int, p as int);
                vstd::arithmetic::div_mod::lemma_mul_mod_noop_right(num as int, 1, p as int);
                assert(den != 0 && gcd_spec(p as nat, (den % p) as nat) == 1);
                assert(binom_residue(r as nat, n as nat, k as nat, p as nat));
                let c = choose|c: nat| #[trigger] binom_residue(c, n as nat, k as nat, p as nat);
                lemma_cancel(r as nat, c, dk, inv as nat, p as nat);
            }
            r
        },
        Err(_) => {
            0
        },
    }
}

/// Binomial coefficient `C(n, k)` modulo `p` by Lucas' rule: the product of the binomials
/// of the base-`p` digits of `n` and `k`, each computed as `n^(k) / k! (mod p)`; 0 when
/// `k > n`. For a prime `p` this is `C(n, k) mod p`.
pub fn binomial(n: u64, k: u64, p: u64) -> (r: u64)
    requires
        1 <= p <= i64::MAX,
    ensures
        k > n ==> r == 0,
        k <= n ==> r == lucas(n as nat, k as nat, p as nat),
{
    if k > n {
        return 0;
    }
    if p == 1 {
        proof { vstd::arithmetic::div_mod::lemma_small_mod(0, 1); }
        return 0;
    }
    let mut result: u64 = 1;
    let mut nn: u64 = n;
    let mut kk: u64 = k;
    proof {
        vstd::arithmetic::div_mod::lemma_small_mod(1, p as nat);
        vstd::arithmetic::div_mod::lemma_small_mod(lucas(n as nat, k as nat, p as nat), p as nat);
        lemma_lucas_below(n as nat, k as nat, p as nat);
    }
    while kk > 0
        invariant
            2 <= p <= i64::MAX,
            result < p,
            lucas(nn as nat, kk as nat, p as nat) < p,
            (result as nat * lucas(nn as nat, kk as nat, p as nat)) % (p as nat) == lucas(n as nat, k as nat, p as nat),
        decreases kk,
    {
        let d = small_binomial_exec(nn % p, kk % p, p);
        let ghost rest = lucas((nn / p) as nat, (kk / p) as nat, p as nat);
        proof {
            let (ri, di, pi) = (result as int, d as int, p as int);
            assert(lucas(nn as nat, kk as nat, p as nat) == (d as nat * rest) % (p as nat));
            vstd::arithmetic::div_mod::lemma_mul_mod_noop_right(ri, di * rest, pi);
            assert(ri * (di * rest) == (ri * di) * rest) by (nonlinear_arith);
            vstd::arithmetic::div_mod::lemma_mul_mod_noop_left(ri * di, rest as int, pi);
        }
        result = crate::prime::mul_mod(result, d, p);
        proof {
            lemma_lucas_below((nn / p) as nat, (kk / p) as nat, p as nat);
            vstd::arithmetic::div_mod::lemma_div_decreases(kk as int, p as int);
        }
        nn = nn / p;
        kk = kk / p;
    }
    proof {
        assert(kk == 0);
        assert(lucas(nn as nat, 0, p as nat) == 1nat % (p as nat));
        vstd::arithmetic::div_mod::lemma_small_mod(1, p as nat);
        assert(lucas(nn as nat, kk as nat, p as nat) == 1);
        assert(result as nat * 1 == result as nat);
        vstd::arithmetic::div_mod::lemma_small_mod(result as nat, p as nat);
    }
    result
}

} // verus!
