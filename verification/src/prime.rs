//! Prime numbers: primality tests, prime generation and factorization.

use vstd::prelude::*;
use vstd::arithmetic::power::pow;
use vstd::arithmetic::div_mod::{lemma_fundamental_div_mod, lemma_small_mod, lemma_mod_bound};
use crate::arith::{
    is_prime_spec, npow, lemma_npow_nonneg, lemma_npow_unfold, lemma_npow_zero,
    lemma_square_multiply_step, lemma_even_not_divides_odd, lemma_no_small_divisor_prime,
    lemma_npow_mono_base, lemma_npow_ge_base, lemma_npow_positive, prod_pows,
    is_prime_factorization, lemma_prod_pows_push, lemma_least_divisor_prime,
    lemma_divides_transitive, prime_count, seq_prod, factorization,
};
use crate::error::{GaloisError, Result};

verus! {

/// Trial-division primality test.
pub fn is_prime(n: u64) -> (r: bool)
    ensures
        r == is_prime_spec(n as nat),
{
    if n < 2 {
        return false;
    }
    if n % 2 == 0 {
        if n != 2 {
            assert(n as nat % 2 == 0);
        }
        return n == 2;
    }
    let mut d: u64 = 3;
    while d <= n / d
        invariant
            3 <= d,
            d % 2 == 1,
            n % 2 == 1,
            n >= 3,
            forall|k: nat| 2 <= k < d ==> #[trigger] (n as nat % k) != 0,
        decreases n - d,
    {
        assert(d <= n / 3) by {
            vstd::arithmetic::div_mod::lemma_div_is_ordered_by_denominator(n as int, 3, d as int);
        }
        if n % d == 0 {
            assert(d < n);
            return false;
        }
        assert forall|k: nat| 2 <= k < d + 2 implies #[trigger] (n as nat % k) != 0 by {
            if k == d + 1 {
                lemma_even_not_divides_odd(n as nat, k);
            }
        }
        d = d + 2;
    }
    proof {
        lemma_no_small_divisor_prime(n as nat, d as nat);
    }
    true
}

/// `(a * b) mod m`, computed without overflow.
pub(crate) fn mul_mod(a: u64, b: u64, m: u64) -> (r: u64)
    requires
        m > 0,
    ensures
        r == (a as int * b as int) % (m as int),
        r < m,
{
    proof {
        assert(a as int * b as int <= 0xffff_ffff_ffff_ffff * 0xffff_ffff_ffff_ffffint)
            by (nonlinear_arith)
            requires 0 <= a <= 0xffff_ffff_ffff_ffffint, 0 <= b <= 0xffff_ffff_ffff_ffffint;
    }
    let prod: u128 = (a as u128) * (b as u128);
    assert(prod == a as int * b as int);
    let r = prod % (m as u128);
    assert(r < m);
    r as u64
}

/// `base^exp mod modulus` by square-and-multiply.  An exponent of 0
/// yields 1 without reduction.
pub(crate) fn mod_pow(base: u64, exp: u64, modulus: u64) -> (r: u64)
    requires
        modulus > 0,
    ensures
        exp == 0 ==> r == 1,
        exp > 0 ==> r == pow(base as int, exp as nat) % (modulus as int),
        exp > 0 ==> r < modulus,
{
    let mut result: u64 = 1;
    let mut b: u64 = base % modulus;
    let mut e: u64 = exp;
    proof {
        vstd::arithmetic::power::lemma_pow_mod_noop(base as int, exp as nat, modulus as int);
        vstd::arithmetic::div_mod::lemma_mul_mod_noop_left(1, pow(b as int, exp as nat), modulus as int);
    }
    while e > 0
        invariant
            modulus > 0,
            b < modulus,
            (result as int * pow(b as int, e as nat)) % (modulus as int)
                == pow(base as int, exp as nat) % (modulus as int),
            result < modulus || result == 1,
            exp == 0 || e > 0 || result < modulus,
            exp == 0 ==> e == 0 && result == 1,
        decreases e,
    {
        proof {
            lemma_square_multiply_step(result as int, b as int, e as nat, modulus as int);
        }
        if e % 2 == 1 {
            result = mul_mod(result, b, modulus);
        }
        b = mul_mod(b, b, modulus);
        e = e / 2;
    }
    proof {
        vstd::arithmetic::power::lemma_pow0(b as int);
        if exp > 0 {
            lemma_small_mod(result as nat, modulus as nat);
        }
    }
    result
}

/// Newton step bound: `(x + n / x) / 2 >= s` whenever `s * s <= n`.
proof fn lemma_newton_step(n: nat, x: nat, s: nat)
    requires
        x > 0,
        s * s <= n,
    ensures
        (x + n / x) / 2 >= s,
{
    let q = n / x;
    lemma_fundamental_div_mod(n as int, x as int);
    lemma_mod_bound(n as int, x as int);
    assert(x * x + n >= 2 * x * s) by (nonlinear_arith)
        requires s * s <= n;
    assert(x + q + 1 > 2 * s) by (nonlinear_arith)
        requires x * x + n >= 2 * x * s, n == x * q + n % x, n % x < x, x > 0;
}

/// Integer square root: the largest `r` with `r * r <= n`.
pub fn isqrt(n: u64) -> (r: u64)
    ensures
        r * r <= n,
        n < (r + 1) * (r + 1),
{
    if n < 2 {
        assert(n * n <= n) by (nonlinear_arith) requires n < 2;
        assert(n < (n + 1) * (n + 1)) by (nonlinear_arith) requires n < 2;
        return n;
    }
    let mut x: u64 = n;
    let mut y: u64 = n / 2 + n % 2;
    assert(y == (x + n / x) / 2) by {
        vstd::arithmetic::div_mod::lemma_div_by_self(n as int);
    }
    assert(n < (n + 1) * (n + 1)) by (nonlinear_arith);
    while y < x
        invariant
            x > 0,
            n >= 2,
            y == (x + n / x) / 2,
            n < (x + 1) * (x + 1),
        decreases x,
    {
        assert(n < (y + 1) * (y + 1)) by {
            if (y + 1) * (y + 1) <= n {
                lemma_newton_step(n as nat, x as nat, (y + 1) as nat);
            }
        }
        assert(y > 0) by {
            if y == 0 {
                assert((0 + 1) * (0 + 1) == 1);
            }
        }
        x = y;
        let s = n / x;
        y = x / 2 + s / 2 + (x % 2 + s % 2) / 2;
    }
    assert(x * x <= n) by {
        lemma_fundamental_div_mod(n as int, x as int);
        assert(x <= n / x);
        assert(x * x <= x * (n / x)) by (nonlinear_arith) requires x <= n / x;
    }
    x
}

/// Floor of the logarithm of `n` in base `b`; 0 when `n < 1` or `b < 2`.
pub fn ilog(n: u64, b: u64) -> (r: u64)
    ensures
        (n < 1 || b < 2) ==> r == 0,
        (n >= 1 && b >= 2) ==> npow(b as nat, r as nat) <= n && n < npow(b as nat, (r + 1) as nat),
{
    if n < 1 || b < 2 {
        return 0;
    }
    let mut result: u64 = 0;
    let mut power: u64 = 1;
    proof { lemma_npow_zero(b as nat); lemma_npow_zero(2); }
    while power <= n / b
        invariant
            b >= 2,
            n >= 1,
            power as nat == npow(b as nat, result as nat),
            1 <= power <= n,
            result <= 64,
            npow(2, result as nat) <= power,
        decreases n - power,
    {
        proof {
            lemma_npow_unfold(b as nat, (result + 1) as nat);
            lemma_npow_unfold(2, (result + 1) as nat);
            assert(power * b <= n) by {
                lemma_fundamental_div_mod(n as int, b as int);
                assert(power * b <= (n / b) * b) by (nonlinear_arith) requires power <= n / b;
            }
            assert(power * b > power) by (nonlinear_arith) requires b >= 2, power >= 1;
            assert(2 * npow(2, result as nat) <= b * power) by (nonlinear_arith)
                requires npow(2, result as nat) <= power, b >= 2;
            lemma_pow2_64_exceeds();
            if result >= 64 {
                lemma_npow_mono_exp(2, 64, (result + 1) as nat);
            }
        }
        power = power * b;
        result = result + 1;
    }
    proof {
        lemma_npow_unfold(b as nat, (result + 1) as nat);
        lemma_fundamental_div_mod(n as int, b as int);
        lemma_mod_bound(n as int, b as int);
        assert(n < power * b) by (nonlinear_arith)
            requires power > n / b, n == b * (n / b) + n % b, n % b < b, b > 0;
        assert(power * b == b * power) by (nonlinear_arith);
    }
    result
}

/// `2^64` exceeds every `u64`.
pub proof fn lemma_pow2_64_exceeds()
    ensures
        npow(2, 64) > u64::MAX,
{
    vstd::arithmetic::power2::lemma2_to64();
    vstd::arithmetic::power2::lemma_pow2(64);
    lemma_npow_nonneg(2, 64);
}

/// Powers grow with the exponent.
pub proof fn lemma_npow_mono_exp(b: nat, e1: nat, e2: nat)
    requires
        b > 0,
        e1 <= e2,
    ensures
        npow(b, e1) <= npow(b, e2),
{
    vstd::arithmetic::power::lemma_pow_increases(b, e1, e2);
    lemma_npow_nonneg(b, e1);
    lemma_npow_nonneg(b, e2);
}


/// `b^e` when it fits in a `u64`, `None` otherwise.
pub(crate) fn checked_npow(b: u64, e: u32) -> (r: Option<u64>)
    ensures
        npow(b as nat, e as nat) <= u64::MAX ==> r == Some(npow(b as nat, e as nat) as u64),
        npow(b as nat, e as nat) > u64::MAX ==> r is None,
{
    let mut acc: u64 = 1;
    let mut i: u32 = 0;
    proof { lemma_npow_zero(b as nat); }
    while i < e
        invariant
            i <= e,
            acc as nat == npow(b as nat, i as nat),
        decreases e - i,
    {
        proof { lemma_npow_unfold(b as nat, (i + 1) as nat); }
        match acc.checked_mul(b) {
            Some(v) => {
                assert(v == b * acc) by (nonlinear_arith) requires v == acc * b;
                acc = v;
            },
            None => {
                proof {
                    assert(npow(b as nat, (i + 1) as nat) > u64::MAX) by (nonlinear_arith)
                        requires npow(b as nat, (i + 1) as nat) == b * acc, acc * b > u64::MAX;
                    lemma_npow_grows_past(b as nat, (i + 1) as nat, e as nat);
                }
                return None;
            },
        }
        i = i + 1;
    }
    Some(acc)
}

/// Once a power of `b` exceeds a bound, higher powers do too.
proof fn lemma_npow_grows_past(b: nat, e1: nat, e2: nat)
    requires
        e1 <= e2,
        npow(b, e1) > u64::MAX,
    ensures
        npow(b, e2) > u64::MAX,
{
    if b == 0 {
        if e1 == 0 {
            lemma_npow_zero(b);
        } else {
            lemma_npow_unfold(b, e1);
        }
    } else {
        lemma_npow_mono_exp(b, e1, e2);
    }
}

/// Floor of the `k`-th root of `n`: the largest `r` with `r^k <= n` (0 when `k == 0`).
pub fn iroot(n: u64, k: u32) -> (r: u64)
    ensures
        k == 0 ==> r == 0,
        k >= 1 ==> npow(r as nat, k as nat) <= n && n < npow((r + 1) as nat, k as nat),
{
    if k == 0 {
        return 0;
    }
    if k == 1 {
        proof {
            lemma_npow_unfold(n as nat, 1);
            lemma_npow_zero(n as nat);
            lemma_npow_unfold((n + 1) as nat, 1);
            lemma_npow_zero((n + 1) as nat);
            crate::arith::lemma_npow_one(n as nat);
            crate::arith::lemma_npow_one((n + 1) as nat);
        }
        return n;
    }
    if n == 0 {
        proof {
            lemma_npow_unfold(0, k as nat);
            lemma_npow_zero(1);
            vstd::arithmetic::power::lemma1_pow(k as nat);
            lemma_npow_nonneg(1, k as nat);
        }
        return 0;
    }
    let mut lo: u64 = 1;
    let mut hi: u64 = n;
    proof {
        vstd::arithmetic::power::lemma1_pow(k as nat);
        lemma_npow_nonneg(1, k as nat);
        lemma_npow_ge_base((n + 1) as nat, k as nat);
    }
    while lo < hi
        invariant
            k >= 2,
            1 <= lo <= hi <= n,
            npow(lo as nat, k as nat) <= n,
            n < npow((hi + 1) as nat, k as nat),
        decreases hi - lo,
    {
        let mid = lo + (hi - lo + 1) / 2;
        let fits = match checked_npow(mid, k) {
            Some(v) => v <= n,
            None => false,
        };
        if fits {
            lo = mid;
        } else {
            hi = mid - 1;
        }
    }
    lo
}

/// Smallest prime greater than `n`.
pub fn next_prime(n: u64) -> (r: u64)
    requires
        exists|q: nat| n < q <= u64::MAX && is_prime_spec(q),
    ensures
        r > n,
        is_prime_spec(r as nat),
        forall|x: nat| n < x < r ==> !is_prime_spec(x),
{
    if n < 2 {
        assert forall|x: nat| n < x < 2 implies !is_prime_spec(x) by {}
        assert(is_prime_spec(2));
        return 2;
    }
    let ghost q: nat = choose|q: nat| n < q <= u64::MAX && is_prime_spec(q);
    assert(q % 2 == 1) by {
        if q % 2 == 0 {
            assert(q % 2 == 0 && 2 < q);
        }
    }
    let mut candidate: u64 = n + 1;
    if candidate % 2 == 0 {
        assert(!is_prime_spec(candidate as nat)) by {
            assert(candidate as nat % 2 == 0);
        }
        candidate = candidate + 1;
    }
    while !is_prime(candidate)
        invariant
            n >= 2,
            n < candidate <= q,
            candidate % 2 == 1,
            q % 2 == 1,
            q <= u64::MAX,
            is_prime_spec(q),
            forall|x: nat| n < x < candidate ==> !is_prime_spec(x),
        decreases q - candidate,
    {
        assert(candidate < q);
        assert(!is_prime_spec((candidate + 1) as nat)) by {
            assert((candidate + 1) as nat % 2 == 0);
        }
        candidate = candidate + 2;
    }
    candidate
}

/// Largest prime less than or equal to `n`, or `None` when `n < 2`.
pub fn prev_prime(n: u64) -> (r: Option<u64>)
    ensures
        n < 2 ==> r is None,
        n >= 2 ==> (r matches Some(p) && p <= n && is_prime_spec(p as nat)
            && forall|x: nat| p < x <= n ==> !is_prime_spec(x)),
{
    if n < 2 {
        return None;
    }
    let mut candidate: u64 = if n % 2 == 0 {
        n - 1
    } else {
        n
    };
    if n % 2 == 0 && n != 2 {
        assert(!is_prime_spec(n as nat)) by {
            assert(n as nat % 2 == 0);
        }
    }
    while candidate >= 2
        invariant
            candidate <= n,
            candidate % 2 == 1,
            forall|x: nat| candidate < x <= n && x != 2 ==> !is_prime_spec(x),
        decreases candidate,
    {
        if is_prime(candidate) {
            return Some(candidate);
        }
        if candidate >= 3 {
            assert(!is_prime_spec((candidate - 1) as nat) || candidate - 1 == 2) by {
                assert((candidate - 1) as nat % 2 == 0);
            }
        }
        candidate = if candidate >= 2 { candidate - 2 } else { 0 };
    }
    assert(is_prime_spec(2));
    Some(2)
}

/// The `k`-th prime (1-indexed), or `None` when it does not fit in a `u64`.
pub fn kth_prime(k: u64) -> (r: Option<u64>)
    ensures
        k == 0 ==> r is None,
        k > 0 ==> match r {
            Some(p) => is_prime_spec(p as nat) && prime_count(p as nat) == k,
            None => prime_count(u64::MAX as nat) < k,
        },
{
    if k == 0 {
        return None;
    }
    let mut count: u64 = 0;
    let mut candidate: u64 = 2;
    assert(prime_count(1) == 0) by {
        assert(prime_count(0) == 0);
        assert(!is_prime_spec(1));
    }
    loop
        invariant
            k > 0,
            candidate >= 2,
            count < k,
            count == prime_count((candidate - 1) as nat),
        decreases u64::MAX - candidate,
    {
        let is_p = is_prime(candidate);
        assert(prime_count(candidate as nat) == prime_count((candidate - 1) as nat)
            + if is_prime_spec(candidate as nat) { 1nat } else { 0nat });
        if is_p {
            count = count + 1;
            if count == k {
                return Some(candidate);
            }
        }
        if candidate == u64::MAX {
            return None;
        }
        candidate = candidate + 1;
    }
}

/// Divides `d` out of `n` as often as possible: `n == rest * d^m` and `d` does not divide `rest`.
fn strip_factor(n0: u64, d: u64) -> (r: (u64, u32))
    requires
        d >= 2,
        n0 >= 1,
        n0 % d == 0,
    ensures
        r.0 >= 1,
        r.0 * npow(d as nat, r.1 as nat) == n0,
        r.1 >= 1,
        r.1 <= 64,
        r.0 % d != 0,
{
    let mut n = n0;
    let mut m: u32 = 0;
    proof {
        lemma_npow_zero(d as nat);
    }
    while n % d == 0
        invariant
            d >= 2,
            n >= 1,
            n0 <= u64::MAX,
            n * npow(d as nat, m as nat) == n0,
            m <= 64,
            m == 0 ==> n as nat % d as nat == 0,
        decreases n,
    {
        proof {
            lemma_fundamental_div_mod(n as int, d as int);
            lemma_npow_unfold(d as nat, (m + 1) as nat);
            assert((n / d) * npow(d as nat, (m + 1) as nat) == n0) by (nonlinear_arith)
                requires n == d * (n / d), n * npow(d as nat, m as nat) == n0,
                    npow(d as nat, (m + 1) as nat) == d * npow(d as nat, m as nat);
            assert(n / d >= 1) by (nonlinear_arith) requires n == d * (n / d), n >= 1;
            assert(npow(d as nat, (m + 1) as nat) <= n0) by (nonlinear_arith)
                requires (n / d) * npow(d as nat, (m + 1) as nat) == n0, n / d >= 1;
            lemma_npow_mono_base(2, d as nat, (m + 1) as nat);
            lemma_pow2_64_exceeds();
            if m + 1 > 64 {
                lemma_npow_mono_exp(2, 64, (m + 1) as nat);
            }
            assert(n / d < n) by (nonlinear_arith) requires n == d * (n / d), n >= 1, d >= 2;
        }
        n = n / d;
        m = m + 1;
    }
    (n, m)
}

/// Prime factorization by trial division.
fn trial_factorize(n0: u64) -> (r: (Vec<u64>, Vec<u32>))
    requires
        n0 >= 2,
    ensures
        is_prime_factorization(n0 as nat, r.0@, r.1@),
{
    let mut factors: Vec<u64> = Vec::new();
    let mut mults: Vec<u32> = Vec::new();
    let mut n: u64 = n0;
    let mut d: u64 = 2;
    assert(prod_pows(factors@, mults@) == 1);
    while d <= n / d
        invariant
            2 <= d,
            d == 2 || d % 2 == 1,
            1 <= n <= n0,
            factors@.len() == mults@.len(),
            prod_pows(factors@, mults@) * n == n0,
            forall|i: int, j: int| 0 <= i < j < factors@.len() ==> factors@[i] < factors@[j],
            forall|i: int| 0 <= i < factors@.len() ==> is_prime_spec(#[trigger] factors@[i] as nat),
            forall|i: int| 0 <= i < mults@.len() ==> #[trigger] mults@[i] >= 1,
            forall|i: int| 0 <= i < factors@.len() ==> #[trigger] factors@[i] < d,
            forall|k: nat| 2 <= k < d ==> #[trigger] (n as nat % k) != 0,
        decreases n0 - d,
    {
        assert(d <= n / 2) by {
            vstd::arithmetic::div_mod::lemma_div_is_ordered_by_denominator(n as int, 2, d as int);
        }
        if n % d == 0 {
            let ghost n_before = n;
            proof {
                lemma_least_divisor_prime(n as nat, d as nat);
                lemma_npow_zero(d as nat);
            }
            let (n2, m) = strip_factor(n, d);
            n = n2;
            proof {
                lemma_prod_pows_push(factors@, mults@, d, m);
                assert(m >= 1);
                lemma_npow_positive(d as nat, m as nat);
                assert(n <= n_before) by (nonlinear_arith)
                    requires n * npow(d as nat, m as nat) == n_before, npow(d as nat, m as nat) >= 1;
                // n divides n_before
                assert(n_before as nat % n as nat == 0) by {
                    vstd::arithmetic::div_mod::lemma_mod_multiples_basic(
                        npow(d as nat, m as nat) as int, n as int);
                    assert(npow(d as nat, m as nat) * n == n * npow(d as nat, m as nat))
                        by (nonlinear_arith);
                }
                assert forall|k: nat| 2 <= k < d implies #[trigger] (n as nat % k) != 0 by {
                    if n as nat % k == 0 {
                        lemma_divides_transitive(k, n as nat, n_before as nat);
                    }
                }
                assert(prod_pows(factors@, mults@) * n_before == n0);
                assert(prod_pows(factors@, mults@) * npow(d as nat, m as nat) * n == n0)
                    by (nonlinear_arith)
                    requires prod_pows(factors@, mults@) * n_before == n0,
                        n * npow(d as nat, m as nat) == n_before;
            }
            let ghost old_f = factors@;
            let ghost old_m = mults@;
            factors.push(d);
            mults.push(m);
            assert forall|i: int| 0 <= i < factors@.len() implies
                is_prime_spec(#[trigger] factors@[i] as nat) by {
                if i < old_f.len() {
                    assert(factors@[i] == old_f[i]);
                } else {
                    assert(factors@[i] == d);
                }
            }
            assert forall|i: int| 0 <= i < mults@.len() implies #[trigger] mults@[i] >= 1 by {
                if i < old_m.len() {
                    assert(mults@[i] == old_m[i]);
                } else {
                    assert(mults@[i] == m);
                }
            }
        }
        proof {
            if d != 2 {
                assert(n as nat % 2 != 0);
                assert(n as nat % 2 == 1);
                lemma_even_not_divides_odd(n as nat, (d + 1) as nat);
            }
        }
        d = if d == 2 { 3 } else { d + 2 };
    }
    if n > 1 {
        proof {
            lemma_no_small_divisor_prime(n as nat, d as nat);
            assert(n >= d) by {
                if n < d {
                    vstd::arithmetic::div_mod::lemma_mod_self_0(n as int);
                }
            }
            lemma_prod_pows_push(factors@, mults@, n, 1);
            lemma_npow_unfold(n as nat, 1);
            lemma_npow_zero(n as nat);
            crate::arith::lemma_npow_one(n as nat);
        }
        let ghost old_f = factors@;
        let ghost old_m = mults@;
        factors.push(n);
        mults.push(1);
        assert(factors@ == old_f.push(n));
        assert(mults@ == old_m.push(1u32));
        assert(prod_pows(factors@, mults@) == n0) by (nonlinear_arith)
            requires prod_pows(factors@, mults@) == prod_pows(old_f, old_m) * npow(n as nat, 1nat),
                npow(n as nat, 1nat) == n, prod_pows(old_f, old_m) * n == n0;
        assert forall|i: int| 0 <= i < factors@.len() implies
            is_prime_spec(#[trigger] factors@[i] as nat) && mults@[i] >= 1 by {
            if i < old_f.len() {
                assert(factors@[i] == old_f[i]);
            }
        }
        assert forall|i: int, j: int| 0 <= i < j < factors@.len() implies factors@[i] < factors@[j] by {
            assert(factors@[i] == old_f[i]);
            if j < old_f.len() {
                assert(factors@[j] == old_f[j]);
            } else {
                assert(old_f[i] < d);
            }
        }
        assert(factors@.len() == mults@.len());
        assert(prod_pows(factors@, mults@) == n0);
        assert(is_prime_factorization(n0 as nat, factors@, mults@));
    } else {
        assert(n == 1);
        assert(prod_pows(factors@, mults@) == n0);
        assert(is_prime_factorization(n0 as nat, factors@, mults@));
    }
    (factors, mults)
}

/// Prime factorization of `n` as increasing primes and their multiplicities (both empty
/// when `n < 2`).
pub fn factorize(n: u64) -> (r: Result<(Vec<u64>, Vec<u32>)>)
    ensures
        r matches Ok((ps, ms)) && (n < 2 ==> ps@.len() == 0 && ms@.len() == 0) && (n >= 2
            ==> is_prime_factorization(n as nat, ps@, ms@) && factorization(n as nat) == (ps@, ms@)),
{
    if n < 2 {
        return Ok((Vec::new(), Vec::new()));
    }
    let (ps, ms) = trial_factorize(n);
    proof {
        crate::arith::lemma_is_the_factorization(n as nat, ps@, ms@);
    }
    Ok((ps, ms))
}

/// Product of all values; the product must fit in a `u64`.
pub fn prod(values: &[u64]) -> (r: u64)
    requires
        forall|i: int| 0 <= i <= values@.len() ==> #[trigger] seq_prod(values@.subrange(0, i)) <= u64::MAX,
    ensures
        r == seq_prod(values@),
{
    let mut acc: u64 = 1;
    let mut i: usize = 0;
    assert(values@.subrange(0, 0) =~= Seq::<u64>::empty());
    while i < values.len()
        invariant
            i <= values@.len(),
            acc == seq_prod(values@.subrange(0, i as int)),
            forall|j: int| 0 <= j <= values@.len() ==> #[trigger] seq_prod(values@.subrange(0, j)) <= u64::MAX,
        decreases values@.len() - i,
    {
        assert(values@.subrange(0, (i + 1) as int).drop_last() =~= values@.subrange(0, i as int));
        assert(seq_prod(values@.subrange(0, (i + 1) as int)) <= u64::MAX);
        acc = acc * values[i];
        i = i + 1;
    }
    assert(values@.subrange(0, values@.len() as int) =~= values@);
    acc
}

/// Whether `n` is composite in this library's sense: `n < 2`, or `n > 3` and not prime.
pub fn is_composite(n: u64) -> (r: bool)
    ensures
        r == (n < 2 || (n > 3 && !is_prime_spec(n as nat))),
{
    n < 2 || (n > 3 && !is_prime(n))
}


/// `x >= 2` and no `k` in `[2, i)` with `k * k <= x` divides `x`.
pub open spec fn sieve_survivor(x: nat, i: nat) -> bool {
    x >= 2 && forall|k: nat| 2 <= k < i && k * k <= x ==> #[trigger] (x % k) != 0
}

/// A number is prime exactly when no `k >= 2` with `k * k <= x` divides it.
proof fn lemma_prime_iff_no_small_divisor(x: nat)
    ensures
        is_prime_spec(x) <==> (x >= 2 && forall|k: nat| 2 <= k && k * k <= x ==> #[trigger] (x % k) != 0),
{
    if x >= 2 && (forall|k: nat| 2 <= k && k * k <= x ==> #[trigger] (x % k) != 0) {
        assert forall|k: nat| 2 <= k < x implies #[trigger] (x % k) != 0 by {
            if x % k == 0 {
                if k * k > x {
                    crate::arith::lemma_cofactor(x, k);
                    let j = x / k;
                    assert(j * j <= x) by (nonlinear_arith)
                        requires k * j == x, k * k > x, j >= 2, k >= 2;
                    assert(x % j != 0);
                } else {
                    assert(x % k != 0);
                }
            }
        }
    }
    if is_prime_spec(x) {
        assert forall|k: nat| 2 <= k && k * k <= x implies #[trigger] (x % k) != 0 by {
            if k >= x {
                assert(k * k > x) by (nonlinear_arith) requires k >= x, x >= 2;
            }
        }
    }
}

/// All primes up to and including `n`, in increasing order (sieve of Eratosthenes).
pub fn primes_up_to(n: u64) -> (r: Vec<u64>)
    requires
        n < usize::MAX,
    ensures
        forall|i: int, j: int| 0 <= i < j < r@.len() ==> r@[i] < r@[j],
        forall|x: u64| r@.contains(x) <==> (x <= n && is_prime_spec(x as nat)),
{
    if n < 2 {
        let r: Vec<u64> = Vec::new();
        assert forall|x: u64| r@.contains(x) <==> (x <= n && is_prime_spec(x as nat)) by {
            if x <= n {
                assert(!is_prime_spec(x as nat));
            }
        }
        return r;
    }
    let size: usize = (n + 1) as usize;
    let mut sieve: Vec<bool> = vec![true; size];
    sieve.set(0, false);
    sieve.set(1, false);
    let root = isqrt(n);
    assert(1 <= root <= n) by (nonlinear_arith)
        requires root * root <= n, n < (root + 1) * (root + 1), n >= 2;
    let limit: usize = root as usize;
    let mut i: usize = 2;
    assert forall|x: int| 0 <= x <= n implies sieve@[x] == sieve_survivor(x as nat, 2) by {}
    while i <= limit
        invariant
            2 <= i <= limit + 1,
            limit * limit <= n,
            n < usize::MAX,
            sieve@.len() == n + 1,
            forall|x: int| 0 <= x <= n ==> #[trigger] sieve@[x] == sieve_survivor(x as nat, i as nat),
        decreases limit + 1 - i,
    {
        assert(i * i <= n) by (nonlinear_arith) requires i <= limit, limit * limit <= n;
        assert(i <= n) by (nonlinear_arith) requires i * i <= n, i >= 2;
        if sieve[i] {
            let mut j: usize = i * i;
            proof {
                vstd::arithmetic::div_mod::lemma_mod_multiples_basic(i as int, i as int);
            }
            while j <= n as usize
                invariant
                    2 <= i <= limit,
                    i <= n,
                    i * i <= j,
                    j % i == 0 || j == n + 1,
                    j <= n + 1,
                    n < usize::MAX,
                    sieve@.len() == n + 1,
                    forall|x: int| 0 <= x <= n ==> #[trigger] sieve@[x] == (sieve_survivor(x as nat, i as nat)
                        && !(i * i <= x < j && x % (i as int) == 0)),
                decreases n + 1 - j,
            {
                let ghost old_sieve = sieve@;
                let ghost old_j = j;
                sieve.set(j, false);
                if j > n as usize - i {
                    j = n as usize + 1;
                } else {
                    proof {
                        vstd::arithmetic::div_mod::lemma_mod_add_multiples_vanish(j as int, i as int);
                    }
                    j = j + i;
                }
                assert forall|x: int| 0 <= x <= n implies #[trigger] sieve@[x] == (sieve_survivor(x as nat, i as nat)
                    && !(i * i <= x < j && x % (i as int) == 0)) by {
                    if x != old_j {
                        assert(sieve@[x] == old_sieve[x]);
                        if old_j < x < old_j + i && x % (i as int) == 0 {
                            vstd::arithmetic::div_mod::lemma_fundamental_div_mod(old_j as int, i as int);
                            vstd::arithmetic::div_mod::lemma_fundamental_div_mod(x as int, i as int);
                            assert(false) by (nonlinear_arith)
                                requires old_j == i * (old_j / i), x == (i as int) * (x / (i as int)),
                                    old_j < x < old_j + i, i > 0;
                        }
                    }
                }
            }
            assert forall|x: int| 0 <= x <= n implies #[trigger] sieve@[x] == sieve_survivor(x as nat, (i + 1) as nat) by {
                if sieve_survivor(x as nat, i as nat) && !(i * i <= x && x % (i as int) == 0) {
                    assert forall|k: nat| 2 <= k < i + 1 && k * k <= x implies #[trigger] ((x as nat) % k) != 0 by {
                        if k < i {
                        } else {
                            assert(k == i);
                        }
                    }
                }
            }
        } else {
            assert forall|x: int| 0 <= x <= n implies #[trigger] sieve@[x] == sieve_survivor(x as nat, (i + 1) as nat) by {
                if sieve_survivor(x as nat, i as nat) && i * i <= x && x % (i as int) == 0 {
                    // i has a small divisor k that also divides x
                    assert(!sieve_survivor(i as nat, i as nat));
                    let k = choose|k: nat| 2 <= k < i && k * k <= i && #[trigger] ((i as nat) % k) == 0;
                    crate::arith::lemma_divides_transitive(k, i as nat, x as nat);
                    assert(k * k <= x) by (nonlinear_arith) requires k < i, i * i <= x, k >= 2;
                    assert(((x as nat) % k) != 0);
                }
            }
        }
        i = i + 1;
    }
    let mut result: Vec<u64> = Vec::new();
    let mut p: u64 = 2;
    proof {
        assert forall|x: int| 0 <= x <= n implies #[trigger] sieve@[x] == is_prime_spec(x as nat) by {
            lemma_prime_iff_no_small_divisor(x as nat);
            if sieve_survivor(x as nat, i as nat) {
                assert forall|k: nat| 2 <= k && k * k <= x implies #[trigger] ((x as nat) % k) != 0 by {
                    if k >= i {
                        assert(k * k > n) by (nonlinear_arith)
                            requires k >= i, i == limit + 1, n < (limit + 1) * (limit + 1), x <= n;
                    }
                }
            }
        }
    }
    while p <= n
        invariant
            2 <= p <= n + 1,
            n < usize::MAX,
            sieve@.len() == n + 1,
            forall|x: int| 0 <= x <= n ==> #[trigger] sieve@[x] == is_prime_spec(x as nat),
            forall|a: int, b: int| 0 <= a < b < result@.len() ==> result@[a] < result@[b],
            forall|a: int| 0 <= a < result@.len() ==> #[trigger] result@[a] < p,
            forall|x: u64| result@.contains(x) <==> (x < p && is_prime_spec(x as nat)),
        decreases n + 1 - p,
    {
        let ghost old_r = result@;
        if sieve[p as usize] {
            result.push(p);
            assert forall|x: u64| result@.contains(x) <==> (x < p + 1 && is_prime_spec(x as nat)) by {
                if x == p {
                    assert(result@[result@.len() - 1] == p);
                }
                if result@.contains(x) && x != p {
                    let k = choose|k: int| 0 <= k < result@.len() && result@[k] == x;
                    assert(old_r.contains(x)) by {
                        assert(old_r[k] == x);
                    }
                }
                if x < p && is_prime_spec(x as nat) {
                    assert(old_r.contains(x));
                    let k = choose|k: int| 0 <= k < old_r.len() && old_r[k] == x;
                    assert(result@[k] == x);
                }
            }
        } else {
            assert forall|x: u64| result@.contains(x) <==> (x < p + 1 && is_prime_spec(x as nat)) by {
                if x == p {
                    assert(!is_prime_spec(p as nat));
                }
            }
        }
        p = p + 1;
    }
    result
}


/// Largest odd divisor of `m` (0 stays 0).
pub open spec fn odd_part(m: nat) -> nat
    decreases m,
{
    if m > 0 && m % 2 == 0 {
        odd_part(m / 2)
    } else {
        m
    }
}

/// Exponent of 2 in `m` (0 for `m == 0`).
pub open spec fn two_valuation(m: nat) -> nat
    decreases m,
{
    if m > 0 && m % 2 == 0 {
        1 + two_valuation(m / 2)
    } else {
        0
    }
}

/// The deterministic Miller-Rabin witness derived from `n`.
pub open spec fn mr_hash(n: u64) -> u64 {
    ((((n as nat * 0x9E3779B97F4A7C15nat) % 0x1_0000_0000_0000_0000nat) as u64) >> 32u64) | 1u64
}

/// `n` is a strong probable prime to base `a`: with `n - 1 = d * 2^s` and `d` odd,
/// `a^d = 1 (mod n)` or `a^(d * 2^j) = -1 (mod n)` for some `j < s`.
pub open spec fn is_strong_probable_prime(n: nat, a: nat) -> bool {
    let d = odd_part((n - 1) as nat);
    let s = two_valuation((n - 1) as nat);
    pow(a as int, d) % (n as int) == 1 || exists|j: nat|
        j < s && #[trigger] (pow(a as int, d * npow(2, j)) % (n as int)) == n - 1
}

fn simple_hash(n: u64) -> (r: u64)
    ensures
        r == mr_hash(n),
{
    (n.wrapping_mul(0x9E3779B97F4A7C15) >> 32) | 1
}

/// Miller-Rabin test with the deterministic witness `2 + hash(n) mod (n - 3)`; every round
/// uses that same witness.
pub fn is_prime_mr(n: u64, rounds: u32) -> (r: bool)
    ensures
        n < 2 ==> !r,
        2 <= n < 4 ==> r,
        n >= 4 && n % 2 == 0 ==> !r,
        n >= 5 && n % 2 == 1 ==> r == (rounds == 0 || is_strong_probable_prime(
            n as nat, (2 + (mr_hash(n) as nat) % ((n - 3) as nat)) as nat)),
{
    if n < 2 {
        return false;
    }
    if n < 4 {
        return true;
    }
    if n % 2 == 0 {
        return false;
    }
    let mut d: u64 = n - 1;
    let mut r: u32 = 0;
    proof {
        lemma_npow_zero(2);
    }
    while d % 2 == 0
        invariant
            d > 0,
            r <= 64,
            d * npow(2, r as nat) == n - 1,
            odd_part(d as nat) == odd_part((n - 1) as nat),
            two_valuation((n - 1) as nat) == r + two_valuation(d as nat),
        decreases d,
    {
        proof {
            lemma_npow_unfold(2, (r + 1) as nat);
            assert((d / 2) * npow(2, (r + 1) as nat) == n - 1) by (nonlinear_arith)
                requires d % 2 == 0, d * npow(2, r as nat) == n - 1,
                    npow(2, (r + 1) as nat) == 2 * npow(2, r as nat);
            assert(npow(2, (r + 1) as nat) <= u64::MAX) by (nonlinear_arith)
                requires (d / 2) * npow(2, (r + 1) as nat) == n - 1, d / 2 >= 1, n <= u64::MAX;
            lemma_pow2_64_exceeds();
            if r + 1 > 64 {
                lemma_npow_mono_exp(2, 64, (r + 1) as nat);
            }
        }
        d = d / 2;
        r = r + 1;
    }
    if rounds == 0 {
        return true;
    }
    let a = 2 + (simple_hash(n) % (n - 3));
    strong_probable_prime_test(n, a, d, r)
}

/// `a^(d * 2^j) mod n`, one squaring at a time.
proof fn lemma_square_again(a: nat, d: nat, j: nat, n: nat, x: nat)
    requires
        n > 0,
        x == pow(a as int, d * npow(2, j)) % (n as int),
    ensures
        (x * x) % n == pow(a as int, d * npow(2, j + 1)) % (n as int),
{
    lemma_npow_unfold(2, j + 1);
    lemma_npow_nonneg(2, j);
    let e = d * npow(2, j);
    assert(d * npow(2, j + 1) == e * 2) by (nonlinear_arith)
        requires npow(2, j + 1) == 2 * npow(2, j), e == d * npow(2, j);
    vstd::arithmetic::power::lemma_pow_multiplies(a as int, e, 2);
    let y = pow(a as int, e);
    assert(pow(y, 2) == y * y) by {
        reveal(pow);
        assert(pow(y, 2) == y * pow(y, 1));
        vstd::arithmetic::power::lemma_pow1(y);
    }
    vstd::arithmetic::div_mod::lemma_mul_mod_noop(y, y, n as int);
}

fn strong_probable_prime_test(n: u64, a: u64, d: u64, r: u32) -> (res: bool)
    requires
        n >= 5,
        n % 2 == 1,
        d as nat == odd_part((n - 1) as nat),
        r as nat == two_valuation((n - 1) as nat),
        r >= 1,
    ensures
        res == is_strong_probable_prime(n as nat, a as nat),
{
    let mut x = mod_pow(a, d, n);
    assert(d > 0) by {
        if d == 0 {
            assert(odd_part((n - 1) as nat) > 0) by {
                lemma_odd_part_positive((n - 1) as nat);
            }
        }
    }
    proof {
        lemma_npow_zero(2);
        assert(d * npow(2, 0) == d);
    }
    if x == 1 {
        return true;
    }
    if x == n - 1 {
        assert(pow(a as int, (d as nat) * npow(2, 0)) % (n as int) == n - 1);
        return true;
    }
    let mut j: u32 = 1;
    while j < r
        invariant
            n >= 5,
            1 <= j <= r,
            r as nat == two_valuation((n - 1) as nat),
            d as nat == odd_part((n - 1) as nat),
            x as nat == pow(a as int, (d as nat) * npow(2, (j - 1) as nat)) % (n as int),
            pow(a as int, d as nat) % (n as int) != 1,
            forall|k: nat| k < j ==> #[trigger] (pow(a as int, (d as nat) * npow(2, k)) % (n as int)) != n - 1,
        decreases r - j,
    {
        proof {
            lemma_square_again(a as nat, d as nat, (j - 1) as nat, n as nat, x as nat);
        }
        x = mul_mod(x, x, n);
        if x == n - 1 {
            return true;
        }
        j = j + 1;
    }
    false
}

proof fn lemma_odd_part_positive(m: nat)
    requires
        m > 0,
    ensures
        odd_part(m) > 0,
    decreases m,
{
    if m % 2 == 0 {
        lemma_odd_part_positive(m / 2);
    }
}

/// Whether `n = c^e` for some `c >= 2` and `e >= 2`.
pub fn is_perfect_power(n: u64) -> (r: bool)
    ensures
        r == (n >= 4 && exists|c: nat, e: nat| 2 <= c && 2 <= e && #[trigger] npow(c, e) == n),
{
    if n < 4 {
        return false;
    }
    let root = isqrt(n);
    assert(root < 0x1_0000_0000) by (nonlinear_arith)
        requires root * root <= n, n <= u64::MAX;
    let mut e: u32 = 2;
    while e <= 63
        invariant
            n >= 4,
            2 <= e <= 64,
            root < 0x1_0000_0000,
            root * root <= n < (root + 1) * (root + 1),
            forall|c: nat, f: nat| 2 <= c && 2 <= f < e ==> #[trigger] npow(c, f) != n,
        decreases 64 - e,
    {
        let mut b: u64 = 2;
        while b <= root
            invariant
                n >= 4,
                2 <= e <= 63,
                2 <= b <= root + 1,
                root < 0x1_0000_0000,
                root * root <= n < (root + 1) * (root + 1),
                forall|c: nat| 2 <= c < b ==> #[trigger] npow(c, e as nat) != n,
            decreases root + 1 - b,
        {
            let next = checked_npow(b, e);
            let below = match next {
                Some(v) => v < n,
                None => false,
            };
            if next == Some(n) {
                return true;
            }
            if below {
                b = b + 1;
            } else {
                proof {
                    assert forall|c: nat| 2 <= c implies #[trigger] npow(c, e as nat) != n by {
                        if c >= b {
                            lemma_npow_mono_base(b as nat, c, e as nat);
                        }
                    }
                }
                b = root + 1;
            }
        }
        proof {
            assert forall|c: nat| 2 <= c implies #[trigger] npow(c, e as nat) != n by {
                if c > root {
                    lemma_npow_mono_exp(c, 2, e as nat);
                    lemma_npow_unfold(c, 2);
                    crate::arith::lemma_npow_one(c);
                    assert(c * c > n) by (nonlinear_arith)
                        requires c >= root + 1, n < (root + 1) * (root + 1);
                }
            }
            assert forall|c: nat, f: nat| 2 <= c && 2 <= f < e + 1 implies #[trigger] npow(c, f) != n by {
                if f == e {
                    assert(npow(c, e as nat) != n);
                }
            }
        }
        e = e + 1;
    }
    proof {
        assert forall|c: nat, f: nat| 2 <= c && 2 <= f implies #[trigger] npow(c, f) != n by {
            if f >= 64 {
                lemma_npow_mono_base(2, c, f);
                lemma_npow_mono_exp(2, 64, f);
                lemma_pow2_64_exceeds();
            }
        }
    }
    false
}

} // verus!
