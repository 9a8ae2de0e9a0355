//! Modular arithmetic and number-theoretic functions.

use vstd::prelude::*;
use vstd::arithmetic::power::pow;
use crate::arith::{
    gcd_spec, is_prime_spec, npow, prod_pows, factorization, is_prime_factorization,
    lemma_gcd_divides,
};
use crate::error::{GaloisError, Result};
use crate::prime::{factorize, is_prime, mod_pow};

verus! {

/// Greatest common divisor.
pub fn gcd(a: u64, b: u64) -> (r: u64)
    ensures
        r == gcd_spec(a as nat, b as nat),
{
    let mut x = a;
    let mut y = b;
    while y != 0
        invariant
            gcd_spec(x as nat, y as nat) == gcd_spec(a as nat, b as nat),
        decreases y,
    {
        let t = x % y;
        x = y;
        y = t;
    }
    x
}

pub open spec fn iabs(x: int) -> int {
    if x < 0 { -x } else { x }
}

/// Extended gcd: `(g, s, t)` with `g = gcd(a, b)` and, when both arguments are at most
/// `i64::MAX`, `a * s + b * t = g`.
pub fn egcd(a: u64, b: u64) -> (r: (u64, i64, i64))
    ensures
        r.0 == gcd_spec(a as nat, b as nat),
        a <= i64::MAX && b <= i64::MAX ==> (a as int) * (r.1 as int) + (b as int) * (r.2 as int) == r.0,
{
    let mut old_r: i128 = a as i128;
    let mut r: i128 = b as i128;
    let mut old_s: i128 = 1;
    let mut s: i128 = 0;
    let mut old_t: i128 = 0;
    let mut t: i128 = 1;
    assert(iabs(1) == 1 && iabs(0) == 0);
    assert(1 * r + 0 * old_r == b && 0 * r + 1 * old_r == a) by (nonlinear_arith)
        requires r == b, old_r == a;
    while r != 0
        invariant
            0 <= old_r <= u64::MAX,
            0 <= r <= u64::MAX,
            gcd_spec(old_r as nat, r as nat) == gcd_spec(a as nat, b as nat),
            a * old_s + b * old_t == old_r,
            a * s + b * t == r,
            iabs(old_s as int) * r + iabs(s as int) * old_r == b,
            iabs(old_t as int) * r + iabs(t as int) * old_r == a,
            old_s * s <= 0,
            old_t * t <= 0,
            iabs(old_s as int) <= b || iabs(old_s as int) <= 1,
            iabs(old_t as int) <= a || iabs(old_t as int) <= 1,
            old_r == 0 ==> s == 0 && iabs(t as int) <= 1,
        decreases r,
    {
        let quotient = old_r / r;
        let rem = old_r % r;
        proof {
            vstd::arithmetic::div_mod::lemma_fundamental_div_mod(old_r as int, r as int);
            vstd::arithmetic::div_mod::lemma_mod_bound(old_r as int, r as int);
            assert(quotient >= 0) by (nonlinear_arith)
                requires old_r >= 0, r > 0, quotient == old_r / r;
            lemma_egcd_coeff(old_s as int, s as int, quotient as int, r as int, rem as int, old_r as int, b as int);
            lemma_egcd_coeff(old_t as int, t as int, quotient as int, r as int, rem as int, old_r as int, a as int);
        }
        let new_s = old_s - quotient * s;
        let new_t = old_t - quotient * t;
        proof {
            assert(a * new_s + b * new_t == rem) by (nonlinear_arith)
                requires a * old_s + b * old_t == old_r, a * s + b * t == r,
                    new_s == old_s - quotient * s, new_t == old_t - quotient * t,
                    old_r == quotient * r + rem;
        }
        old_r = r;
        r = rem;
        old_s = s;
        s = new_s;
        old_t = t;
        t = new_t;
    }
    (old_r as u64, #[verifier::truncate] (old_s as i64), #[verifier::truncate] (old_t as i64))
}

/// One row update of the extended Euclidean algorithm keeps the coefficient invariants.
proof fn lemma_egcd_coeff(os: int, s: int, q: int, r: int, rem: int, or: int, b: int)
    requires
        r > 0,
        q >= 0,
        or == q * r + rem,
        0 <= rem < r,
        iabs(os) * r + iabs(s) * or == b,
        os * s <= 0,
        or == 0 ==> iabs(s) <= 1,
    ensures
        iabs(s) * rem + iabs(os - q * s) * r == b,
        s * (os - q * s) <= 0,
        iabs(q * s) <= b,
        iabs(os - q * s) <= b,
        iabs(s) <= b || iabs(s) <= 1,
{
    assert(iabs(os - q * s) == iabs(os) + q * iabs(s)) by (nonlinear_arith)
        requires os * s <= 0, q >= 0;
    assert(iabs(s) * rem + (iabs(os) + q * iabs(s)) * r == b) by (nonlinear_arith)
        requires or == q * r + rem, iabs(os) * r + iabs(s) * or == b;
    assert(s * (os - q * s) <= 0) by (nonlinear_arith) requires os * s <= 0, q >= 0;
    assert(iabs(os - q * s) <= b) by (nonlinear_arith)
        requires iabs(s) * rem + iabs(os - q * s) * r == b, r >= 1, rem >= 0;
    assert(iabs(q * s) == q * iabs(s)) by (nonlinear_arith) requires q >= 0;
    if or > 0 {
        assert(iabs(s) <= b) by (nonlinear_arith)
            requires iabs(os) * r + iabs(s) * or == b, or >= 1, r >= 0;
    }
}

/// Least common multiple (0 when either argument is 0); the result must fit in a `u64`.
pub fn lcm(a: u64, b: u64) -> (r: u64)
    requires
        a == 0 || b == 0 || (a as nat / gcd_spec(a as nat, b as nat)) * b <= u64::MAX,
    ensures
        a == 0 || b == 0 ==> r == 0,
        a > 0 && b > 0 ==> r == (a as nat / gcd_spec(a as nat, b as nat)) * b
            && r * gcd_spec(a as nat, b as nat) == a * b,
{
    if a == 0 || b == 0 {
        return 0;
    }
    let g = gcd(a, b);
    proof {
        lemma_gcd_divides(a as nat, b as nat);
        vstd::arithmetic::div_mod::lemma_fundamental_div_mod(a as int, g as int);
        assert((a / g) * b * g == a * b) by (nonlinear_arith) requires a == g * (a / g);
    }
    a / g * b
}

/// `n` multiplied by `(p - 1) / p` for each prime `p` of `ps`, in order.
pub open spec fn phi_product(n: nat, ps: Seq<u64>) -> nat
    decreases ps.len(),
{
    if ps.len() == 0 {
        n
    } else {
        phi_product(n, ps.drop_last()) / (ps.last() as nat) * ((ps.last() - 1) as nat)
    }
}

/// Euler's totient `n * prod (1 - 1/p)` over the primes dividing `n`.
pub open spec fn euler_phi_spec(n: nat) -> nat {
    if n < 1 {
        0
    } else if n == 1 {
        1
    } else {
        phi_product(n, factorization(n).0)
    }
}

/// Euler's totient function.
pub fn euler_phi(n: u64) -> (r: u64)
    ensures
        r == euler_phi_spec(n as nat),
{
    if n < 1 {
        return 0;
    }
    if n == 1 {
        return 1;
    }
    let (factors, mults) = match factorize(n) {
        Ok(f) => f,
        Err(_) => (vec![n], vec![1]),
    };
    let mut result: u64 = n;
    let mut i: usize = 0;
    while i < factors.len()
        invariant
            i <= factors@.len(),
            factorization(n as nat).0 == factors@,
            is_prime_factorization(n as nat, factors@, mults@),
            result == phi_product(n as nat, factors@.subrange(0, i as int)),
        decreases factors@.len() - i,
    {
        let p = factors[i];
        assert(is_prime_spec(factors@[i as int] as nat));
        assert(factors@.subrange(0, i + 1).drop_last() =~= factors@.subrange(0, i as int));
        proof {
            assert(result / p * (p - 1) <= result) by (nonlinear_arith)
                requires p >= 2, result >= 0;
        }
        result = result / p * (p - 1);
        i = i + 1;
    }
    assert(factors@.subrange(0, factors@.len() as int) =~= factors@);
    result
}


/// Möbius function through the factorization (1 for `n < 2`).
pub open spec fn mobius_spec(n: nat) -> int {
    if n < 2 {
        1
    } else {
        let f = factorization(n);
        if exists|i: int| 0 <= i < f.1.len() && #[trigger] f.1[i] > 1 {
            0
        } else if f.0.len() % 2 == 0 {
            1
        } else {
            -1
        }
    }
}

/// Möbius function.
pub fn mobius(n: u64) -> (r: i32)
    ensures
        r == mobius_spec(n as nat),
{
    if n == 1 {
        return 1;
    }
    let (factors, mults) = match factorize(n) {
        Ok(f) => f,
        Err(_) => (vec![n], vec![1]),
    };
    let mut i: usize = 0;
    while i < mults.len()
        invariant
            i <= mults@.len(),
            n >= 2 ==> factorization(n as nat) == (factors@, mults@),
            n < 2 ==> factors@.len() == 0 && mults@.len() == 0,
            forall|j: int| 0 <= j < i ==> #[trigger] mults@[j] <= 1,
        decreases mults@.len() - i,
    {
        if mults[i] > 1 {
            assert(factorization(n as nat).1[i as int] > 1);
            return 0;
        }
        i = i + 1;
    }
    if factors.len() % 2 == 0 {
        1
    } else {
        -1
    }
}

/// Carmichael's function of a prime power `p^m`.
pub open spec fn lambda_prime_power(p: nat, m: nat) -> nat {
    if p == 2 && m >= 3 {
        npow(2, (m - 2) as nat)
    } else {
        ((p - 1) as nat) * npow(p, (m - 1) as nat)
    }
}

/// Least common multiple as computed by `lcm`.
pub open spec fn lcm_spec(a: nat, b: nat) -> nat {
    if a == 0 || b == 0 {
        0
    } else {
        a / gcd_spec(a, b) * b
    }
}

/// lcm of the Carmichael values of the prime powers `ps[i]^ms[i]`.
pub open spec fn carmichael_fold(ps: Seq<u64>, ms: Seq<u32>) -> nat
    decreases ps.len(),
{
    if ps.len() == 0 || ms.len() == 0 {
        1
    } else {
        lcm_spec(carmichael_fold(ps.drop_last(), ms.drop_last()),
            lambda_prime_power(ps.last() as nat, ms.last() as nat))
    }
}

/// Carmichael's function (1 for `n < 2`).
pub open spec fn carmichael_spec(n: nat) -> nat {
    if n < 2 {
        1
    } else {
        carmichael_fold(factorization(n).0, factorization(n).1)
    }
}

proof fn lemma_lcm_le_product(a: nat, b: nat)
    ensures
        lcm_spec(a, b) <= a * b,
{
    if a > 0 && b > 0 {
        lemma_gcd_divides(a, b);
        let g = gcd_spec(a, b);
        assert(a / g * b <= a * b) by (nonlinear_arith) requires g >= 1;
    }
}

proof fn lemma_lambda_le(p: nat, m: nat)
    requires
        p >= 2,
        m >= 1,
    ensures
        1 <= lambda_prime_power(p, m) <= npow(p, m),
{
    crate::arith::lemma_npow_unfold(p, m);
    crate::arith::lemma_npow_positive(p, (m - 1) as nat);
    if p == 2 && m >= 3 {
        crate::prime::lemma_npow_mono_exp(2, (m - 2) as nat, m);
        crate::arith::lemma_npow_positive(2, (m - 2) as nat);
    } else {
        let t = npow(p, (m - 1) as nat);
        assert(((p - 1) as nat) * t <= p * t) by (nonlinear_arith) requires p >= 2;
        assert(((p - 1) as nat) * t >= 1) by (nonlinear_arith) requires p >= 2, t >= 1;
    }
}

proof fn lemma_prod_pows_prefix(ps: Seq<u64>, ms: Seq<u32>, i: int)
    requires
        ps.len() == ms.len(),
        0 <= i < ps.len(),
    ensures
        prod_pows(ps.subrange(0, i + 1), ms.subrange(0, i + 1))
            == prod_pows(ps.subrange(0, i), ms.subrange(0, i)) * npow(ps[i] as nat, ms[i] as nat),
{
    assert(ps.subrange(0, i + 1).drop_last() =~= ps.subrange(0, i));
    assert(ms.subrange(0, i + 1).drop_last() =~= ms.subrange(0, i));
}

proof fn lemma_prod_pows_prefix_le(ps: Seq<u64>, ms: Seq<u32>, i: int)
    requires
        ps.len() == ms.len(),
        0 <= i <= ps.len(),
        forall|j: int| 0 <= j < ps.len() ==> #[trigger] ps[j] >= 2,
    ensures
        prod_pows(ps.subrange(0, i), ms.subrange(0, i)) <= prod_pows(ps, ms),
    decreases ps.len() - i,
{
    if i < ps.len() {
        lemma_prod_pows_prefix_le(ps, ms, i + 1);
        lemma_prod_pows_prefix(ps, ms, i);
        crate::arith::lemma_npow_positive(ps[i] as nat, ms[i] as nat);
        let a = prod_pows(ps.subrange(0, i), ms.subrange(0, i));
        let b = npow(ps[i] as nat, ms[i] as nat);
        assert(a <= a * b) by (nonlinear_arith) requires b >= 1;
    } else {
        assert(ps.subrange(0, i) =~= ps);
        assert(ms.subrange(0, i) =~= ms);
    }
}

/// Carmichael's function: the exponent of the unit group of `Z/nZ`.
pub fn carmichael_lambda(n: u64) -> (r: u64)
    ensures
        r == carmichael_spec(n as nat),
{
    if n < 2 {
        return 1;
    }
    let (factors, mults) = match factorize(n) {
        Ok(f) => f,
        Err(_) => (vec![n], vec![1]),
    };
    let mut result: u64 = 1;
    let mut i: usize = 0;
    assert(factors@.subrange(0, 0) =~= Seq::<u64>::empty());
    assert(mults@.subrange(0, 0) =~= Seq::<u32>::empty());
    while i < factors.len()
        invariant
            n >= 2,
            i <= factors@.len(),
            factorization(n as nat) == (factors@, mults@),
            is_prime_factorization(n as nat, factors@, mults@),
            result == carmichael_fold(factors@.subrange(0, i as int), mults@.subrange(0, i as int)),
            1 <= result <= prod_pows(factors@.subrange(0, i as int), mults@.subrange(0, i as int)),
        decreases factors@.len() - i,
    {
        let p = factors[i];
        let m = mults[i];
        let ghost bound = prod_pows(factors@.subrange(0, i + 1), mults@.subrange(0, i + 1));
        assert(is_prime_spec(factors@[i as int] as nat) && mults@[i as int] >= 1);
        proof {
            assert forall|j: int| 0 <= j < factors@.subrange(0, i as int).len() implies
                #[trigger] factors@.subrange(0, i as int)[j] >= 2 by {
                assert(is_prime_spec(factors@[j] as nat));
            }
            crate::arith::lemma_prod_pows_positive(factors@.subrange(0, i as int), mults@.subrange(0, i as int));
        }
        proof {
            assert forall|j: int| 0 <= j < factors@.len() implies #[trigger] factors@[j] >= 2 by {
                assert(is_prime_spec(factors@[j] as nat));
            }
            lemma_prod_pows_prefix_le(factors@, mults@, i + 1);
            lemma_prod_pows_prefix(factors@, mults@, i as int);
            lemma_lambda_le(p as nat, m as nat);
            crate::prime::lemma_npow_mono_exp(p as nat, (m - 1) as nat, m as nat);
            if m >= 2 {
                crate::prime::lemma_npow_mono_exp(2, (m - 2) as nat, m as nat);
            }
            crate::arith::lemma_npow_positive(p as nat, m as nat);
            assert(npow(p as nat, m as nat) <= bound) by (nonlinear_arith)
                requires bound == prod_pows(factors@.subrange(0, i as int), mults@.subrange(0, i as int))
                        * npow(p as nat, m as nat),
                    prod_pows(factors@.subrange(0, i as int), mults@.subrange(0, i as int)) >= 1;
        }
        let lambda: u64 = if p == 2 && m >= 3 {
            match crate::prime::checked_npow(2, m - 2) {
                Some(v) => v,
                None => 1,
            }
        } else {
            let pm = match crate::prime::checked_npow(p, m - 1) {
                Some(v) => v,
                None => 1,
            };
            proof {
                crate::arith::lemma_npow_unfold(p as nat, m as nat);
                assert(((p - 1) as nat) * pm <= p * pm) by (nonlinear_arith) requires p >= 2;
            }
            (p - 1) * pm
        };
        assert(lambda == lambda_prime_power(p as nat, m as nat));
        proof {
            lemma_lcm_le_product(result as nat, lambda as nat);
            lemma_gcd_divides(result as nat, lambda as nat);
            assert(result * lambda <= bound) by (nonlinear_arith)
                requires result <= prod_pows(factors@.subrange(0, i as int), mults@.subrange(0, i as int)),
                    lambda <= npow(p as nat, m as nat),
                    bound == prod_pows(factors@.subrange(0, i as int), mults@.subrange(0, i as int))
                        * npow(p as nat, m as nat);
            assert(factors@.subrange(0, i + 1).drop_last() =~= factors@.subrange(0, i as int));
            assert(mults@.subrange(0, i + 1).drop_last() =~= mults@.subrange(0, i as int));
            assert(factors@.subrange(0, i + 1).last() == p);
            assert(mults@.subrange(0, i + 1).last() == m);
            let g = gcd_spec(result as nat, lambda as nat);
            assert(result as nat / g * lambda >= 1) by (nonlinear_arith)
                requires g >= 1, g <= result, lambda >= 1, result >= 1;
        }
        result = lcm(result, lambda);
        i = i + 1;
    }
    assert(factors@.subrange(0, factors@.len() as int) =~= factors@);
    assert(mults@.subrange(0, mults@.len() as int) =~= mults@);
    result
}

/// The integers in `[1, n)` coprime to `n`, in increasing order.
pub fn totatives(n: u64) -> (r: Vec<u64>)
    ensures
        forall|i: int, j: int| 0 <= i < j < r@.len() ==> r@[i] < r@[j],
        forall|x: u64| r@.contains(x) <==> (1 <= x < n && gcd_spec(x as nat, n as nat) == 1),
{
    let mut out: Vec<u64> = Vec::new();
    let mut i: u64 = 1;
    while i < n
        invariant
            1 <= i,
            i <= n || n == 0,
            forall|a: int, b: int| 0 <= a < b < out@.len() ==> out@[a] < out@[b],
            forall|a: int| 0 <= a < out@.len() ==> #[trigger] out@[a] < i,
            forall|a: int| 0 <= a < out@.len() ==> 1 <= #[trigger] out@[a] < n
                && gcd_spec(out@[a] as nat, n as nat) == 1,
            forall|x: u64| 1 <= x < i && x < n && gcd_spec(x as nat, n as nat) == 1 ==> #[trigger] out@.contains(x),
        decreases n - i,
    {
        let ghost old_out = out@;
        if gcd(i, n) == 1 {
            out.push(i);
            assert forall|x: u64| 1 <= x < i + 1 && x < n && gcd_spec(x as nat, n as nat) == 1
                implies #[trigger] out@.contains(x) by {
                if x == i {
                    assert(out@[out@.len() - 1] == i);
                } else {
                    assert(old_out.contains(x));
                    let k = choose|k: int| 0 <= k < old_out.len() && old_out[k] == x;
                    assert(out@[k] == x);
                }
            }
        }
        i = i + 1;
    }
    assert forall|x: u64| out@.contains(x) <==> (1 <= x < n && gcd_spec(x as nat, n as nat) == 1) by {
        if out@.contains(x) {
            let k = choose|k: int| 0 <= k < out@.len() && out@[k] == x;
        }
    }
    out
}

/// Whether the values are pairwise coprime.
pub fn are_coprime(values: &[u64]) -> (r: bool)
    ensures
        r == (forall|i: int, j: int| 0 <= i < j < values@.len()
            ==> #[trigger] gcd_spec(values@[i] as nat, values@[j] as nat) == 1),
{
    let n = values.len();
    let mut i: usize = 0;
    while i < n
        invariant
            n == values@.len(),
            i <= n,
            forall|a: int, b: int| 0 <= a < i && a < b < n
                ==> #[trigger] gcd_spec(values@[a] as nat, values@[b] as nat) == 1,
        decreases n - i,
    {
        let mut j: usize = i + 1;
        while j < n
            invariant
                n == values@.len(),
                i < n,
                i + 1 <= j <= n,
                forall|a: int, b: int| 0 <= a < i && a < b < n
                    ==> #[trigger] gcd_spec(values@[a] as nat, values@[b] as nat) == 1,
                forall|b: int| i < b < j ==> #[trigger] gcd_spec(values@[i as int] as nat, values@[b] as nat) == 1,
            decreases n - j,
        {
            if gcd(values[i], values[j]) != 1 {
                return false;
            }
            j = j + 1;
        }
        i = i + 1;
    }
    true
}

/// The Jacobi symbol computed by the reciprocity rules on `(a, n)` with `a < n`.
pub open spec fn jacobi_rec(a: nat, n: nat) -> int
    decreases a,
{
    if a == 0 {
        if n == 1 { 1 } else { 0 }
    } else if a % 2 == 0 {
        (if n % 8 == 3 || n % 8 == 5 { -1int } else { 1int }) * jacobi_rec(a / 2, n)
    } else {
        (if a % 4 == 3 && n % 4 == 3 { -1int } else { 1int }) * jacobi_rec(n % a, a)
    }
}

proof fn lemma_jacobi_range(a: nat, n: nat)
    ensures
        -1 <= jacobi_rec(a, n) <= 1,
    decreases a,
{
    if a > 0 {
        if a % 2 == 0 {
            lemma_jacobi_range(a / 2, n);
            let j = jacobi_rec(a / 2, n);
            let sg: int = if n % 8 == 3 || n % 8 == 5 { -1int } else { 1int };
            assert(-1 <= sg * j <= 1) by (nonlinear_arith) requires -1 <= j <= 1, sg == 1 || sg == -1;
        } else {
            lemma_jacobi_range(n % a, a);
            let j = jacobi_rec(n % a, a);
            let sg: int = if a % 4 == 3 && n % 4 == 3 { -1int } else { 1int };
            assert(-1 <= sg * j <= 1) by (nonlinear_arith) requires -1 <= j <= 1, sg == 1 || sg == -1;
        }
    }
}

/// Jacobi symbol `(a/n)`: 0 for even `n`.
pub open spec fn jacobi_spec(a: nat, n: nat) -> int {
    if n % 2 == 0 { 0 } else { jacobi_rec(a % n, n) }
}

/// Jacobi symbol `(a/n)` for odd `n` (0 for even `n`).
pub fn jacobi_symbol(a: u64, n: u64) -> (r: i32)
    ensures
        r == jacobi_spec(a as nat, n as nat),
{
    if n % 2 == 0 {
        return 0;
    }
    let mut result: i32 = 1;
    let mut x: u64 = a % n;
    let mut m: u64 = n;
    while x != 0
        invariant
            m > 0,
            result == 1 || result == -1,
            result * jacobi_rec(x as nat, m as nat) == jacobi_rec(a as nat % n as nat, n as nat),
        decreases x,
    {
        let ghost x_start = x;
        while x % 2 == 0
            invariant
                m > 0,
                0 < x <= x_start,
                result == 1 || result == -1,
                result * jacobi_rec(x as nat, m as nat) == jacobi_rec(a as nat % n as nat, n as nat),
            decreases x,
        {
            proof {
                let sg: int = if m % 8 == 3 || m % 8 == 5 { -1int } else { 1int };
                assert(jacobi_rec(x as nat, m as nat) == sg * jacobi_rec((x / 2) as nat, m as nat));
                assert(x / 2 > 0);
                assert(result * (sg * jacobi_rec((x / 2) as nat, m as nat)) == (result * sg)
                    * jacobi_rec((x / 2) as nat, m as nat)) by (nonlinear_arith);
            }
            x = x / 2;
            if m % 8 == 3 || m % 8 == 5 {
                result = -result;
            }
        }
        proof {
            let sg: int = if x % 4 == 3 && m % 4 == 3 { -1int } else { 1int };
            assert(jacobi_rec(x as nat, m as nat) == sg * jacobi_rec((m % x) as nat, x as nat));
            assert(result * (sg * jacobi_rec((m % x) as nat, x as nat)) == (result * sg)
                * jacobi_rec((m % x) as nat, x as nat)) by (nonlinear_arith);
        }
        let ghost x_old = x;
        let ghost m_old = m;
        let ghost r_old = result;
        let t = x;
        x = m;
        m = t;
        let flip = m % 4 == 3 && x % 4 == 3;
        assert(flip == (x_old % 4 == 3 && m_old % 4 == 3));
        if flip {
            result = -result;
        }
        x = x % m;
        proof {
            let sg: int = if x_old % 4 == 3 && m_old % 4 == 3 { -1int } else { 1int };
            if flip {
                assert(result == -r_old);
                assert(-r_old == r_old * -1) by (nonlinear_arith);
            }
            assert(result == r_old * sg);
            assert(x == m_old % x_old && m == x_old);
            assert(result * jacobi_rec(x as nat, m as nat) == r_old * (sg * jacobi_rec(x as nat, m as nat)))
                by (nonlinear_arith) requires result == r_old * sg;
        }
    }
    if m == 1 {
        result
    } else {
        0
    }
}

/// Legendre symbol `(a/p)` for an odd prime `p`; `NotPrime` otherwise.
pub fn legendre_symbol(a: u64, p: u64) -> (r: Result<i32>)
    ensures
        (!is_prime_spec(p as nat) || p == 2) ==> r == Err::<i32, GaloisError>(GaloisError::NotPrime(p)),
        (is_prime_spec(p as nat) && p != 2) ==> r == Ok::<i32, GaloisError>(
            if a % p == 0 { 0i32 } else { jacobi_spec((a % p) as nat, p as nat) as i32 }),
{
    if !is_prime(p) || p == 2 {
        return Err(GaloisError::NotPrime(p));
    }
    let a = a % p;
    if a == 0 {
        return Ok(0);
    }
    Ok(jacobi_symbol(a, p))
}

/// `(a/2)` in the Kronecker sense: 0 for even `a`, 1 for `a = ±1 (mod 8)`, -1 otherwise.
pub open spec fn kronecker_two(a: int) -> int {
    if a % 2 == 0 { 0 } else if a % 8 == 1 || a % 8 == 7 { 1 } else { -1 }
}

/// Kronecker symbol `(a/n)` for `n >= 1`: a factor `(a/2)` for each factor two of `n`,
/// times the Jacobi symbol of `a` modulo the odd part.
pub open spec fn kronecker_pos(a: int, n: nat) -> int
    decreases n,
{
    if n == 0 {
        0
    } else if n % 2 == 0 {
        kronecker_two(a) * kronecker_pos(a, n / 2)
    } else if n == 1 {
        1
    } else {
        jacobi_spec((a % (n as int)) as nat, n)
    }
}

/// Kronecker symbol `(a/n)`: `(a/0)` is 1 for `a = ±1` and 0 otherwise, and
/// `(a/-n) = (a/-1)(a/n)` with `(a/-1)` the sign of `a`.
pub open spec fn kronecker_spec(a: int, n: int) -> int {
    if n == 0 {
        if a == 1 || a == -1 { 1 } else { 0 }
    } else if n > 0 {
        kronecker_pos(a, n as nat)
    } else {
        (if a < 0 { -1int } else { 1int }) * kronecker_pos(a, (-n) as nat)
    }
}

proof fn lemma_kronecker_pos_range(a: int, n: nat)
    ensures
        -1 <= kronecker_pos(a, n) <= 1,
    decreases n,
{
    if n > 0 && n % 2 == 0 {
        lemma_kronecker_pos_range(a, n / 2);
        let k = kronecker_pos(a, n / 2);
        let t = kronecker_two(a);
        assert(-1 <= t * k <= 1) by (nonlinear_arith) requires -1 <= k <= 1, -1 <= t <= 1;
    } else if n > 1 {
        lemma_jacobi_range(((a % (n as int)) as nat) % n, n);
    }
}

/// `a` modulo `n >= 1`, from its absolute value `ua` and sign.
fn signed_mod(neg: bool, ua: u64, n: u64, Ghost(a): Ghost<int>) -> (r: u64)
    requires
        n >= 1,
        ua as int == iabs(a),
        neg == (a < 0),
    ensures
        r as int == a % (n as int),
        r < n,
{
    proof { crate::poly::parse::lemma_mod_of_signed(a, n as nat); }
    let r = ua % n;
    if neg {
        if r == 0 { 0 } else { n - r }
    } else {
        r
    }
}

/// Kronecker symbol `(a/n)` for all `n` except `i64::MIN`.
pub fn kronecker_symbol(a: i64, n: i64) -> (r: i32)
    requires
        n != i64::MIN,
    ensures
        r == kronecker_spec(a as int, n as int),
{
    if n == 0 {
        return if a == 1 || a == -1 { 1 } else { 0 };
    }
    let m: u64 = if n < 0 { (-n) as u64 } else { n as u64 };
    let ua: u64 = if a < 0 {
        if a == i64::MIN { 0x8000_0000_0000_0000u64 } else { (-a) as u64 }
    } else {
        a as u64
    };
    let neg = a < 0;
    let a8 = signed_mod(neg, ua, 8, Ghost(a as int));
    let two: i32 = if a8 % 2 == 0 { 0 } else if a8 == 1 || a8 == 7 { 1 } else { -1 };
    proof {
        vstd::arithmetic::div_mod::lemma_mod_mod(a as int, 2, 4);
        assert((a as int) % 2 == ((a as int) % 8) % 2) by {
            vstd::arithmetic::div_mod::lemma_mod_mod(a as int, 2, 4);
        }
    }
    assert(two == kronecker_two(a as int));
    let mut result: i32 = 1;
    let mut mm: u64 = m;
    while mm % 2 == 0
        invariant
            mm >= 1,
            -1 <= result <= 1,
            two == kronecker_two(a as int),
            result * kronecker_pos(a as int, mm as nat) == kronecker_pos(a as int, m as nat),
        decreases mm,
    {
        proof { lemma_kronecker_pos_range(a as int, (mm / 2) as nat); }
        assert(kronecker_pos(a as int, mm as nat) == two * kronecker_pos(a as int, (mm / 2) as nat));
        assert(result * (two * kronecker_pos(a as int, (mm / 2) as nat))
            == (result * two) * kronecker_pos(a as int, (mm / 2) as nat)) by (nonlinear_arith);
        assert(-1 <= result * two <= 1) by (nonlinear_arith) requires -1 <= result <= 1, -1 <= two <= 1;
        result = result * two;
        mm = mm / 2;
    }
    let base: i32 = if mm == 1 {
        assert(kronecker_pos(a as int, 1) == 1);
        result
    } else {
        let am = signed_mod(neg, ua, mm, Ghost(a as int));
        let j = jacobi_symbol(am, mm);
        proof {
            lemma_jacobi_range((am as nat) % (mm as nat), mm as nat);
            vstd::arithmetic::div_mod::lemma_small_mod(am as nat, mm as nat);
            assert(kronecker_pos(a as int, mm as nat) == j);
        }
        assert(-1 <= result * j <= 1) by (nonlinear_arith) requires -1 <= result <= 1, -1 <= j <= 1;
        result * j
    };
    proof { lemma_kronecker_pos_range(a as int, m as nat); }
    assert(base == kronecker_pos(a as int, m as nat));
    assert(n < 0 ==> m as int == -(n as int));
    assert(n > 0 ==> m as int == n as int);
    if n < 0 && a < 0 {
        -base
    } else {
        base
    }
}


/// The product of all entries is that entry times the product of the others.
proof fn lemma_prod_remove(s: Seq<u64>, i: int)
    requires
        0 <= i < s.len(),
    ensures
        crate::arith::seq_prod(s) == (s[i] as nat) * crate::arith::seq_prod(s.remove(i)),
    decreases s.len(),
{
    if i == s.len() - 1 {
        assert(s.remove(i) =~= s.drop_last());
        let a = crate::arith::seq_prod(s.drop_last());
        assert(a * (s.last() as nat) == (s.last() as nat) * a) by (nonlinear_arith);
    } else {
        lemma_prod_remove(s.drop_last(), i);
        assert(s.drop_last()[i] == s[i]);
        assert(s.drop_last().remove(i) =~= s.remove(i).drop_last());
        assert(s.remove(i).last() == s.last());
        let a = crate::arith::seq_prod(s.drop_last().remove(i));
        assert(crate::arith::seq_prod(s) == ((s[i] as nat) * a) * (s.last() as nat));
        assert(crate::arith::seq_prod(s.remove(i)) == a * (s.last() as nat));
        assert(((s[i] as nat) * a) * (s.last() as nat) == (s[i] as nat) * (a * (s.last() as nat))) by (nonlinear_arith);
    }
}

/// Each modulus is coprime to the product of the others.
pub open spec fn crt_coprime(moduli: Seq<u64>) -> bool {
    forall|i: int| 0 <= i < moduli.len() ==> #[trigger] gcd_spec(crate::arith::seq_prod(moduli) / (moduli[i] as nat),
        moduli[i] as nat) == 1
}

/// `x` leaves the remainder `residues[i] mod moduli[i]` for every `i`.
pub open spec fn crt_solution(x: nat, residues: Seq<u64>, moduli: Seq<u64>) -> bool {
    forall|i: int| 0 <= i < moduli.len() ==> #[trigger] (x % (moduli[i] as nat)) == (residues[i] as nat) % (moduli[i] as nat)
}

/// `(a mod m n) mod m = a mod m`.
proof fn lemma_mod_of_mod_multiple(a: int, m: int, n: int)
    requires
        m > 0,
        n > 0,
    ensures
        (a % (m * n)) % m == a % m,
{
    vstd::arithmetic::div_mod::lemma_mod_mod(a, m, n);
}

/// Chinese remainder theorem: `x < prod(moduli)` with `x = residues[i] (mod moduli[i])` for every
/// `i` when the moduli are pairwise coprime.
pub fn crt(residues: &[u64], moduli: &[u64]) -> (r: Result<u64>)
    requires
        residues@.len() == moduli@.len() && residues@.len() > 0 ==> (forall|i: int|
            0 <= i < moduli@.len() ==> 1 <= #[trigger] moduli@[i] <= i64::MAX) && crate::arith::seq_prod(
            moduli@) <= u64::MAX,
    ensures
        (residues@.len() != moduli@.len() || residues@.len() == 0) ==> r == Err::<u64, GaloisError>(
            GaloisError::LengthMismatch),
        (residues@.len() == moduli@.len() && residues@.len() > 0) ==> (r matches Ok(x) && x
            < crate::arith::seq_prod(moduli@)),
        (residues@.len() == moduli@.len() && residues@.len() > 0) && crate::arith::seq_prod(moduli@) <= i64::MAX
            && crt_coprime(moduli@) ==> (r matches Ok(x) && crt_solution(x as nat, residues@, moduli@)),
{
    if residues.len() != moduli.len() || residues.len() == 0 {
        return Err(GaloisError::LengthMismatch);
    }
    let mut product: u64 = 1;
    let mut i: usize = 0;
    assert(moduli@.subrange(0, 0) =~= Seq::<u64>::empty());
    while i < moduli.len()
        invariant
            i <= moduli@.len(),
            product == crate::arith::seq_prod(moduli@.subrange(0, i as int)),
            forall|j: int| 0 <= j < moduli@.len() ==> 1 <= #[trigger] moduli@[j] <= i64::MAX,
            crate::arith::seq_prod(moduli@) <= u64::MAX,
            product >= 1,
        decreases moduli@.len() - i,
    {
        assert(moduli@.subrange(0, i + 1).drop_last() =~= moduli@.subrange(0, i as int));
        proof {
            lemma_seq_prod_prefix_le(moduli@, i + 1);
        }
        assert(product * moduli@[i as int] >= 1) by (nonlinear_arith)
            requires product >= 1, moduli@[i as int] >= 1;
        product = product * moduli[i];
        i = i + 1;
    }
    assert(moduli@.subrange(0, moduli@.len() as int) =~= moduli@);
    let mut result: u64 = 0;
    let mut k: usize = 0;
    while k < residues.len()
        invariant
            residues@.len() == moduli@.len(),
            k <= residues@.len(),
            product >= 1,
            product == crate::arith::seq_prod(moduli@),
            result < product,
            forall|j: int| 0 <= j < moduli@.len() ==> 1 <= #[trigger] moduli@[j] <= i64::MAX,
            product <= i64::MAX && crt_coprime(moduli@) ==> forall|i: int| 0 <= i < moduli@.len() ==>
                #[trigger] ((result as nat) % (moduli@[i] as nat)) == (if i < k { (residues@[i] as nat) % (moduli@[i] as nat) } else { 0 }),
        decreases residues@.len() - k,
    {
        let m = moduli[k];
        let p = product / m;
        proof {
            lemma_prod_remove(moduli@, k as int);
            vstd::arithmetic::div_mod::lemma_div_multiples_vanish(crate::arith::seq_prod(moduli@.remove(k as int)) as int, m as int);
            assert(p as nat == crate::arith::seq_prod(moduli@.remove(k as int))) by {
                assert(product as nat == (m as nat) * crate::arith::seq_prod(moduli@.remove(k as int)));
            }
        }
        let (g, inv, t) = egcd(p, m);
        let mi: i64 = m as i64;
        let inv_norm: u64 = if inv >= 0 {
            (inv as u64) % m
        } else {
            let u = ((-(inv as i128)) as u64) % m;
            if u == 0 { 0 } else { m - u }
        };
        proof { crate::poly::parse::lemma_mod_of_signed(inv as int, m as nat); }
        assert(inv_norm as int == (inv as int) % (m as int));
        let rp = crate::prime::mul_mod(residues[k], p, product);
        let term = crate::prime::mul_mod(rp, inv_norm, product);
        let sum: u128 = (result as u128) + (term as u128);
        let ghost old_result = result;
        result = (sum % (product as u128)) as u64;
        proof {
            if product <= i64::MAX && crt_coprime(moduli@) {
                assert forall|i: int| 0 <= i < moduli@.len() implies
                    #[trigger] ((result as nat) % (moduli@[i] as nat)) == (if i < k + 1 { (residues@[i] as nat) % (moduli@[i] as nat) } else { 0 }) by {
                    lemma_crt_step(moduli@, residues@, k as int, i, old_result as int, rp as int, term as int, result as int,
                        p as int, inv as int, t as int, inv_norm as int);
                }
            }
        }
        k = k + 1;
    }
    proof {
        if product <= i64::MAX && crt_coprime(moduli@) {
            assert forall|i: int| 0 <= i < moduli@.len() implies
                #[trigger] ((result as nat) % (moduli@[i] as nat)) == (residues@[i] as nat) % (moduli@[i] as nat) by {
                assert(((result as nat) % (moduli@[i] as nat)) == (if i < k { (residues@[i] as nat) % (moduli@[i] as nat) } else { 0 }));
            }
        }
    }
    Ok(result)
}

/// One step of the CRT sum, read modulo `moduli[i]`.
proof fn lemma_crt_step(moduli: Seq<u64>, residues: Seq<u64>, k: int, i: int, old_result: int, rp: int, term: int,
    result: int, p: int, inv: int, t: int, inv_norm: int)
    requires
        moduli.len() == residues.len(),
        0 <= k < moduli.len(),
        0 <= i < moduli.len(),
        forall|j: int| 0 <= j < moduli.len() ==> 1 <= #[trigger] moduli[j] <= i64::MAX,
        crate::arith::seq_prod(moduli) <= i64::MAX,
        crt_coprime(moduli),
        p == crate::arith::seq_prod(moduli.remove(k)),
        p * inv + (moduli[k] as int) * t == gcd_spec(p as nat, moduli[k] as nat),
        inv_norm == inv % (moduli[k] as int),
        0 <= old_result,
        (old_result % (moduli[i] as int)) == (if i < k { (residues[i] as int) % (moduli[i] as int) } else { 0 }),
        rp == ((residues[k] as int) * p) % (crate::arith::seq_prod(moduli) as int),
        term == (rp * inv_norm) % (crate::arith::seq_prod(moduli) as int),
        result == (old_result + term) % (crate::arith::seq_prod(moduli) as int),
    ensures
        (result % (moduli[i] as int)) == (if i < k + 1 { (residues[i] as int) % (moduli[i] as int) } else { 0 }),
{
    let big = crate::arith::seq_prod(moduli) as int;
    let mi = moduli[i] as int;
    let mk = moduli[k] as int;
    lemma_prod_remove(moduli, i);
    let rest_i = crate::arith::seq_prod(moduli.remove(i)) as int;
    assert(big == mi * rest_i);
    assert(rest_i > 0) by {
        lemma_prod_remove(moduli, i);
        assert(big >= 1) by {
            lemma_seq_prod_positive(moduli);
        }
        assert(rest_i > 0) by (nonlinear_arith) requires big == mi * rest_i, big >= 1, mi >= 1, rest_i >= 0;
    }
    // reduce modulo m_i through the product
    lemma_mod_of_mod_multiple(old_result + term, mi, rest_i);
    lemma_mod_of_mod_multiple(rp * inv_norm, mi, rest_i);
    lemma_mod_of_mod_multiple((residues[k] as int) * p, mi, rest_i);
    vstd::arithmetic::div_mod::lemma_add_mod_noop(old_result, term, mi);
    vstd::arithmetic::div_mod::lemma_mul_mod_noop_left(rp, inv_norm, mi);
    vstd::arithmetic::div_mod::lemma_mul_mod_noop_left((residues[k] as int) * p, inv_norm, mi);
    // term = r_k * p * inv_norm (mod m_i)
    assert(term % mi == (((residues[k] as int) * p) * inv_norm) % mi);
    if i == k {
        assert(p == rest_i);
        let d = gcd_spec(p as nat, mk as nat);
        assert(d == 1) by {
            assert(gcd_spec(crate::arith::seq_prod(moduli) / (moduli[k] as nat), moduli[k] as nat) == 1);
            assert(big == mk * p);
            vstd::arithmetic::div_mod::lemma_div_multiples_vanish(p, mk);
            assert(crate::arith::seq_prod(moduli) / (moduli[k] as nat) == p as nat);
        }
        // p * inv = 1 (mod m_k), and inv_norm = inv (mod m_k)
        vstd::arithmetic::div_mod::lemma_mul_mod_noop_right(p, inv, mk);
        assert((p * inv) % mk == 1int % mk) by {
            assert(p * inv + mk * t == 1);
            assert(p * inv == 1 + mk * (-t)) by (nonlinear_arith) requires p * inv + mk * t == 1;
            vstd::arithmetic::div_mod::lemma_mod_multiples_vanish(-t, 1, mk);
        }
        assert(((residues[k] as int) * p) * inv_norm == (residues[k] as int) * (p * inv_norm)) by (nonlinear_arith);
        vstd::arithmetic::div_mod::lemma_mul_mod_noop_right(residues[k] as int, p * inv_norm, mk);
        vstd::arithmetic::div_mod::lemma_mul_mod_noop_right(residues[k] as int, 1, mk);
        assert(term % mi == (residues[k] as int) % mi);
        assert(old_result % mi == 0);
        vstd::arithmetic::div_mod::lemma_mod_twice(residues[k] as int, mi);
        vstd::arithmetic::div_mod::lemma_add_mod_noop(old_result, term, mi);
    } else {
        // m_i divides p = prod of the moduli other than m_k
        let rk = moduli.remove(k);
        let j: int = if i < k { i } else { i - 1 };
        assert(rk[j] == moduli[i]);
        lemma_prod_remove(rk, j);
        let c = crate::arith::seq_prod(rk.remove(j)) as int;
        assert(p == mi * c);
        assert(((residues[k] as int) * p) * inv_norm == mi * ((residues[k] as int) * c * inv_norm)) by (nonlinear_arith)
            requires p == mi * c;
        vstd::arithmetic::div_mod::lemma_mod_multiples_basic((residues[k] as int) * c * inv_norm, mi);
        assert(mi * ((residues[k] as int) * c * inv_norm) == ((residues[k] as int) * c * inv_norm) * mi) by (nonlinear_arith);
        assert(term % mi == 0);
        vstd::arithmetic::div_mod::lemma_add_mod_noop(old_result, term, mi);
        vstd::arithmetic::div_mod::lemma_mod_twice(old_result, mi);
    }
}

/// A product of positive entries is positive.
proof fn lemma_seq_prod_positive(s: Seq<u64>)
    requires
        forall|j: int| 0 <= j < s.len() ==> 1 <= #[trigger] s[j],
    ensures
        crate::arith::seq_prod(s) >= 1,
    decreases s.len(),
{
    if s.len() > 0 {
        lemma_seq_prod_positive(s.drop_last());
        let a = crate::arith::seq_prod(s.drop_last());
        assert(a * (s.last() as nat) >= 1) by (nonlinear_arith) requires a >= 1, s.last() >= 1;
    }
}

proof fn lemma_seq_prod_prefix_le(s: Seq<u64>, i: int)
    requires
        0 <= i <= s.len(),
        forall|j: int| 0 <= j < s.len() ==> 1 <= #[trigger] s[j],
    ensures
        crate::arith::seq_prod(s.subrange(0, i)) <= crate::arith::seq_prod(s),
    decreases s.len() - i,
{
    if i < s.len() {
        lemma_seq_prod_prefix_le(s, i + 1);
        assert(s.subrange(0, i + 1).drop_last() =~= s.subrange(0, i));
        let a = crate::arith::seq_prod(s.subrange(0, i));
        assert(a <= a * (s[i] as nat)) by (nonlinear_arith) requires s[i] >= 1;
    } else {
        assert(s.subrange(0, i) =~= s);
    }
}

/// Whether the unit group of `Z/nZ` is cyclic: `n` is 1, 2, 4, `p^k` or `2 p^k` for an odd
/// prime `p`, read off the prime factorization.
pub open spec fn is_cyclic_spec(n: nat) -> bool {
    if n == 0 {
        false
    } else if n == 1 {
        true
    } else {
        let f = factorization(n);
        (f.0.len() == 1 && (f.0[0] != 2 || f.1[0] <= 2)) || (f.0.len() == 2 && f.0[0] == 2 && f.1[0]
            == 1)
    }
}

/// Whether the unit group of `Z/nZ` is cyclic.
pub fn is_cyclic(n: u64) -> (r: bool)
    ensures
        r == is_cyclic_spec(n as nat),
{
    if n == 0 {
        return false;
    }
    if n == 1 {
        return true;
    }
    let (factors, mults) = match factorize(n) {
        Ok(f) => f,
        Err(_) => (vec![n], vec![1]),
    };
    if factors.len() == 1 {
        return factors[0] != 2 || mults[0] <= 2;
    }
    if factors.len() == 2 && factors[0] == 2 && mults[0] == 1 {
        return true;
    }
    false
}

/// Fermat primality test of `n` to base `base`: true when `n` passes, that is when
/// `n >= 2`, `base` is not a multiple of `n` and `base^(n-1) = 1 (mod n)`; false when `base`
/// shows `n` to be composite.
pub fn fermat_primality_test(n: u64, base: u64) -> (r: bool)
    ensures
        r == (n >= 2 && base % n != 0 && pow((base % n) as int, (n - 1) as nat) % (n as int) == 1),
{
    if n < 2 || base % n == 0 {
        return false;
    }
    mod_pow(base % n, n - 1, n) == 1
}

} // verus!
