//! Mathematical definitions and lemmas shared by the number-theory modules.

use vstd::prelude::*;
use vstd::arithmetic::power::{pow, lemma_pow_adds, lemma_pow_multiplies, lemma_pow0, lemma_pow1};
use vstd::arithmetic::div_mod::{
    lemma_mul_mod_noop_left, lemma_mul_mod_noop_right, lemma_mod_twice, lemma_fundamental_div_mod,
    lemma_div_is_ordered_by_denominator, lemma_small_mod,
};

verus! {

/// `d` divides `n` (with `d > 0`).
pub open spec fn divides(d: nat, n: nat) -> bool {
    d > 0 && n % d == 0
}

/// `n` is a prime number.
pub open spec fn is_prime_spec(n: nat) -> bool {
    n >= 2 && forall|d: nat| 2 <= d < n ==> #[trigger] (n % d) != 0
}

/// Greatest common divisor by Euclid's recursion.
pub open spec fn gcd_spec(a: nat, b: nat) -> nat
    decreases b,
{
    if b == 0 {
        a
    } else {
        gcd_spec(b, a % b)
    }
}

/// `b^e` over the naturals.
pub open spec fn npow(b: nat, e: nat) -> nat {
    pow(b as int, e) as nat
}

pub proof fn lemma_npow_nonneg(b: nat, e: nat)
    ensures
        pow(b as int, e) >= 0,
        npow(b, e) == pow(b as int, e),
    decreases e,
{
    reveal(pow);
    if e > 0 {
        lemma_npow_nonneg(b, (e - 1) as nat);
        assert(b * pow(b as int, (e - 1) as nat) >= 0) by (nonlinear_arith)
            requires pow(b as int, (e - 1) as nat) >= 0;
    }
}

pub proof fn lemma_npow_unfold(b: nat, e: nat)
    requires
        e > 0,
    ensures
        npow(b, e) == b * npow(b, (e - 1) as nat),
{
    reveal(pow);
    lemma_npow_nonneg(b, (e - 1) as nat);
    lemma_npow_nonneg(b, e);
}

pub proof fn lemma_npow_zero(b: nat)
    ensures
        npow(b, 0) == 1,
{
    lemma_pow0(b as int);
}

pub proof fn lemma_npow_one(b: nat)
    ensures
        npow(b, 1) == b,
{
    lemma_pow1(b as int);
}

pub proof fn lemma_npow_positive(b: nat, e: nat)
    requires
        b > 0,
    ensures
        npow(b, e) > 0,
    decreases e,
{
    if e == 0 {
        lemma_npow_zero(b);
    } else {
        lemma_npow_positive(b, (e - 1) as nat);
        lemma_npow_unfold(b, e);
        assert(b * npow(b, (e - 1) as nat) > 0) by (nonlinear_arith)
            requires b > 0, npow(b, (e - 1) as nat) > 0;
    }
}

/// One step of square-and-multiply exponentiation modulo `m`.
pub proof fn lemma_square_multiply_step(r: int, b: int, e: nat, m: int)
    requires
        m > 0,
        e > 0,
    ensures
        e % 2 == 1 ==> (r * pow(b, e)) % m == ((((r * b) % m) * pow((b * b) % m, e / 2)) % m),
        e % 2 == 0 ==> (r * pow(b, e)) % m == ((r * pow((b * b) % m, e / 2)) % m),
{
    let h = e / 2;
    lemma_pow_multiplies(b, 2, h);
    assert(pow(b, 2) == b * b) by {
        reveal(pow);
        assert(pow(b, 1) == b * pow(b, 0));
        lemma_pow0(b);
    }
    vstd::arithmetic::power::lemma_pow_mod_noop(b * b, h, m);
    // pow((b*b)%m, h) % m == pow(b*b, h) % m
    if e % 2 == 1 {
        assert(e == 2 * h + 1);
        lemma_pow_adds(b, 2 * h, 1);
        lemma_pow1(b);
        assert(pow(b, e) == pow(b * b, h) * b);
        assert(r * pow(b, e) == (r * b) * pow(b * b, h)) by (nonlinear_arith)
            requires pow(b, e) == pow(b * b, h) * b;
        lemma_mul_mod_noop_left(r * b, pow(b * b, h), m);
        lemma_mul_mod_noop_right((r * b) % m, pow(b * b, h), m);
        lemma_mul_mod_noop_right((r * b) % m, pow((b * b) % m, h), m);
    } else {
        assert(e == 2 * h);
        lemma_mul_mod_noop_right(r, pow(b * b, h), m);
        lemma_mul_mod_noop_right(r, pow((b * b) % m, h), m);
    }
}

/// An even number never divides an odd one.
pub proof fn lemma_even_not_divides_odd(n: nat, k: nat)
    requires
        n % 2 == 1,
        k % 2 == 0,
        k > 0,
    ensures
        n % k != 0,
{
    if n % k == 0 {
        lemma_fundamental_div_mod(n as int, k as int);
        let q = n / k;
        let h = k / 2;
        assert(n == (q * h) * 2) by (nonlinear_arith)
            requires n == k * q, k == 2 * h;
        assert(((q * h) * 2) % 2 == 0) by (nonlinear_arith);
    }
}

/// If `k` divides `n` with `2 <= k < n`, the cofactor is also a proper divisor.
pub proof fn lemma_cofactor(n: nat, k: nat)
    requires
        2 <= k < n,
        n % k == 0,
    ensures
        2 <= n / k < n,
        n % (n / k) == 0,
        k * (n / k) == n,
{
    lemma_fundamental_div_mod(n as int, k as int);
    let j = n / k;
    assert(k * j == n);
    assert(j >= 2) by (nonlinear_arith)
        requires k * j == n, k < n, k >= 2;
    assert(j < n) by (nonlinear_arith)
        requires k * j == n, k >= 2, n > 0;
    assert(n % j == 0) by {
        vstd::arithmetic::div_mod::lemma_mod_multiples_basic(k as int, j as int);
        assert(k * j == j * k) by (nonlinear_arith);
    }
}

/// A number with no divisor in `[2, d)` and `d > n / d` is prime (or less than 2).
pub proof fn lemma_no_small_divisor_prime(n: nat, d: nat)
    requires
        n >= 2,
        d >= 2,
        d > n / d,
        forall|k: nat| 2 <= k < d ==> #[trigger] (n % k) != 0,
    ensures
        is_prime_spec(n),
{
    assert forall|k: nat| 2 <= k < n implies #[trigger] (n % k) != 0 by {
        if k >= d && n % k == 0 {
            lemma_cofactor(n, k);
            let j = n / k;
            lemma_div_is_ordered_by_denominator(n as int, d as int, k as int);
            assert(j < d);
            assert(n % j != 0);
        }
    }
}

/// The least divisor `d >= 2` of `n` is prime.
pub proof fn lemma_least_divisor_prime(n: nat, d: nat)
    requires
        d >= 2,
        n % d == 0,
        n > 0,
        forall|k: nat| 2 <= k < d ==> #[trigger] (n % k) != 0,
    ensures
        is_prime_spec(d),
{
    assert forall|k: nat| 2 <= k < d implies #[trigger] (d % k) != 0 by {
        if d % k == 0 {
            lemma_divides_transitive(k, d, n);
            assert(n % k == 0);
        }
    }
}

/// Divisibility is transitive.
pub proof fn lemma_divides_transitive(a: nat, b: nat, c: nat)
    requires
        a > 0,
        b > 0,
        b % a == 0,
        c % b == 0,
    ensures
        c % a == 0,
{
    lemma_fundamental_div_mod(b as int, a as int);
    lemma_fundamental_div_mod(c as int, b as int);
    let x = b / a;
    let y = c / b;
    assert(c == a * (x * y)) by (nonlinear_arith)
        requires b == a * x, c == b * y;
    vstd::arithmetic::div_mod::lemma_mod_multiples_basic((x * y) as int, a as int);
    assert(a * (x * y) == (x * y) * a) by (nonlinear_arith);
}

/// Euclid's lemma: a prime dividing a product divides one of the factors.
pub proof fn lemma_euclid(p: nat, a: nat, b: nat)
    requires
        is_prime_spec(p),
        (a * b) % p == 0,
    ensures
        a % p == 0 || b % p == 0,
{
    if a % p != 0 && b % p != 0 {
        let a0 = a % p;
        lemma_mul_mod_noop_left(a as int, b as int, p as int);
        assert((a0 * b) % p == 0);
        lemma_euclid_reduced(p, a0, b);
    }
}

proof fn lemma_euclid_reduced(p: nat, a: nat, b: nat)
    requires
        is_prime_spec(p),
        0 < a < p,
        (a * b) % p == 0,
    ensures
        b % p == 0,
    decreases a,
{
    if a == 1 {
        assert(a * b == b) by (nonlinear_arith) requires a == 1;
    } else {
        let q = p / a;
        let r = p % a;
        lemma_fundamental_div_mod(p as int, a as int);
        assert(r != 0) by {
            if r == 0 {
                assert(p % a == 0);
            }
        }
        assert(r < a) by {
            vstd::arithmetic::div_mod::lemma_mod_bound(p as int, a as int);
        }
        // r * b = p * b - q * (a * b)
        assert(r * b == p * b - q * (a * b)) by (nonlinear_arith)
            requires p == a * q + r;
        let k = (a * b) / p;
        lemma_fundamental_div_mod((a * b) as int, p as int);
        assert(r * b == p * (b - q * k)) by (nonlinear_arith)
            requires r * b == p * b - q * (a * b), a * b == p * k;
        assert((r * b) % p == 0) by {
            vstd::arithmetic::div_mod::lemma_mod_multiples_basic((b - q * k) as int, p as int);
            assert(p * (b - q * k) == (b - q * k) * p) by (nonlinear_arith);
        }
        lemma_euclid_reduced(p, r, b);
    }
}

/// A prime dividing a prime power is the base prime.
pub proof fn lemma_prime_divides_prime_power(q: nat, p: nat, k: nat)
    requires
        is_prime_spec(q),
        is_prime_spec(p),
        npow(p, k) % q == 0,
    ensures
        q == p,
    decreases k,
{
    if k == 0 {
        lemma_npow_zero(p);
        lemma_small_mod(1, q);
    } else {
        lemma_npow_unfold(p, k);
        lemma_euclid(q, p, npow(p, (k - 1) as nat));
        if p % q == 0 {
            if q < p {
                assert(p % q != 0);
            }
            if q > p {
                lemma_small_mod(p, q);
            }
        } else {
            lemma_prime_divides_prime_power(q, p, (k - 1) as nat);
        }
    }
}


/// `b^e` grows with the base.
pub proof fn lemma_npow_mono_base(a: nat, b: nat, e: nat)
    requires
        a <= b,
    ensures
        npow(a, e) <= npow(b, e),
    decreases e,
{
    if e == 0 {
        lemma_npow_zero(a);
        lemma_npow_zero(b);
    } else {
        lemma_npow_mono_base(a, b, (e - 1) as nat);
        lemma_npow_unfold(a, e);
        lemma_npow_unfold(b, e);
        assert(a * npow(a, (e - 1) as nat) <= b * npow(b, (e - 1) as nat)) by (nonlinear_arith)
            requires a <= b, npow(a, (e - 1) as nat) <= npow(b, (e - 1) as nat);
    }
}

/// `b^e >= b` for `b >= 1` and `e >= 1`.
pub proof fn lemma_npow_ge_base(b: nat, e: nat)
    requires
        b >= 1,
        e >= 1,
    ensures
        npow(b, e) >= b,
    decreases e,
{
    lemma_npow_unfold(b, e);
    lemma_npow_positive(b, (e - 1) as nat);
    assert(b * npow(b, (e - 1) as nat) >= b) by (nonlinear_arith)
        requires npow(b, (e - 1) as nat) >= 1;
}

/// Product of `ps[i]^ms[i]` over all positions.
pub open spec fn prod_pows(ps: Seq<u64>, ms: Seq<u32>) -> nat
    decreases ps.len(),
{
    if ps.len() == 0 || ms.len() == 0 {
        1
    } else {
        prod_pows(ps.drop_last(), ms.drop_last()) * npow(ps.last() as nat, ms.last() as nat)
    }
}

/// `(ps, ms)` is the prime factorization of `n`: strictly increasing primes with positive
/// multiplicities whose product is `n`.
pub open spec fn is_prime_factorization(n: nat, ps: Seq<u64>, ms: Seq<u32>) -> bool {
    &&& ps.len() == ms.len()
    &&& forall|i: int, j: int| 0 <= i < j < ps.len() ==> ps[i] < ps[j]
    &&& forall|i: int| 0 <= i < ps.len() ==> is_prime_spec(#[trigger] ps[i] as nat) && ms[i] >= 1
    &&& prod_pows(ps, ms) == n
}

pub proof fn lemma_prod_pows_push(ps: Seq<u64>, ms: Seq<u32>, p: u64, m: u32)
    requires
        ps.len() == ms.len(),
    ensures
        prod_pows(ps.push(p), ms.push(m)) == prod_pows(ps, ms) * npow(p as nat, m as nat),
{
    assert(ps.push(p).drop_last() =~= ps);
    assert(ms.push(m).drop_last() =~= ms);
}

/// Number of primes in `[2, x]`.
pub open spec fn prime_count(x: nat) -> nat
    decreases x,
{
    if x == 0 {
        0
    } else {
        prime_count((x - 1) as nat) + if is_prime_spec(x) { 1nat } else { 0nat }
    }
}

/// Product of all values of a sequence.
pub open spec fn seq_prod(s: Seq<u64>) -> nat
    decreases s.len(),
{
    if s.len() == 0 {
        1
    } else {
        seq_prod(s.drop_last()) * (s.last() as nat)
    }
}


/// A prime dividing a product of prime powers is one of the bases.
pub proof fn lemma_prime_in_factorization(q: nat, ps: Seq<u64>, ms: Seq<u32>)
    requires
        is_prime_spec(q),
        ps.len() == ms.len(),
        forall|i: int| 0 <= i < ps.len() ==> is_prime_spec(#[trigger] ps[i] as nat),
        prod_pows(ps, ms) % q == 0,
    ensures
        exists|i: int| 0 <= i < ps.len() && ps[i] == q,
    decreases ps.len(),
{
    if ps.len() == 0 {
        lemma_small_mod(1, q);
    } else {
        let rest = prod_pows(ps.drop_last(), ms.drop_last());
        let last = npow(ps.last() as nat, ms.last() as nat);
        lemma_euclid(q, rest, last);
        if last % q == 0 {
            assert(is_prime_spec(ps[ps.len() - 1] as nat));
            lemma_prime_divides_prime_power(q, ps.last() as nat, ms.last() as nat);
            assert(ps[ps.len() - 1] == q);
        } else {
            assert forall|i: int| 0 <= i < ps.drop_last().len() implies is_prime_spec(
                #[trigger] ps.drop_last()[i] as nat) by {
                assert(ps.drop_last()[i] == ps[i]);
            }
            lemma_prime_in_factorization(q, ps.drop_last(), ms.drop_last());
            let i = choose|i: int| 0 <= i < ps.drop_last().len() && ps.drop_last()[i] == q;
            assert(ps[i] == q);
        }
    }
}

pub proof fn lemma_prod_pows_positive(ps: Seq<u64>, ms: Seq<u32>)
    requires
        forall|i: int| 0 <= i < ps.len() ==> #[trigger] ps[i] >= 2,
    ensures
        prod_pows(ps, ms) >= 1,
    decreases ps.len(),
{
    if ps.len() > 0 && ms.len() > 0 {
        assert forall|i: int| 0 <= i < ps.drop_last().len() implies #[trigger] ps.drop_last()[i] >= 2 by {
            assert(ps.drop_last()[i] == ps[i]);
        }
        lemma_prod_pows_positive(ps.drop_last(), ms.drop_last());
        lemma_npow_positive(ps.last() as nat, ms.last() as nat);
        let a = prod_pows(ps.drop_last(), ms.drop_last());
        let b = npow(ps.last() as nat, ms.last() as nat);
        assert(a * b >= 1) by (nonlinear_arith) requires a >= 1, b >= 1;
    }
}

proof fn lemma_factorization_drop_last(n: nat, ps: Seq<u64>, ms: Seq<u32>)
    requires
        is_prime_factorization(n, ps, ms),
        ps.len() > 0,
    ensures
        is_prime_factorization(prod_pows(ps.drop_last(), ms.drop_last()), ps.drop_last(), ms.drop_last()),
{
    assert forall|i: int| 0 <= i < ps.drop_last().len() implies is_prime_spec(
        #[trigger] ps.drop_last()[i] as nat) && ms.drop_last()[i] >= 1 by {
        assert(ps.drop_last()[i] == ps[i]);
        assert(ms.drop_last()[i] == ms[i]);
    }
    assert forall|i: int, j: int| 0 <= i < j < ps.drop_last().len() implies ps.drop_last()[i] < ps.drop_last()[j] by {
        assert(ps.drop_last()[i] == ps[i]);
        assert(ps.drop_last()[j] == ps[j]);
    }
}

/// The largest prime of a factorization does not divide the product of the others.
proof fn lemma_last_prime_not_in_rest(n: nat, ps: Seq<u64>, ms: Seq<u32>)
    requires
        is_prime_factorization(n, ps, ms),
        ps.len() > 0,
    ensures
        prod_pows(ps.drop_last(), ms.drop_last()) % (ps.last() as nat) != 0,
{
    let q = ps.last() as nat;
    assert(is_prime_spec(ps[ps.len() - 1] as nat));
    if prod_pows(ps.drop_last(), ms.drop_last()) % q == 0 {
        lemma_factorization_drop_last(n, ps, ms);
        lemma_prime_in_factorization(q, ps.drop_last(), ms.drop_last());
        let i = choose|i: int| 0 <= i < ps.drop_last().len() && ps.drop_last()[i] == q;
        assert(ps[i] == ps[ps.len() - 1]);
        assert(ps[i] < ps[ps.len() - 1]);
    }
}

/// `x * p^a == y * p^b` with `p` dividing neither `x` nor `y` forces `a == b` and `x == y`.
proof fn lemma_cancel_prime_powers(x: nat, y: nat, p: nat, a: nat, b: nat)
    requires
        p >= 2,
        x % p != 0,
        y % p != 0,
        x * npow(p, a) == y * npow(p, b),
    ensures
        a == b,
        x == y,
    decreases a + b,
{
    if a > 0 && b > 0 {
        lemma_npow_unfold(p, a);
        lemma_npow_unfold(p, b);
        let pa = npow(p, (a - 1) as nat);
        let pb = npow(p, (b - 1) as nat);
        assert(x * pa == y * pb) by (nonlinear_arith)
            requires x * (p * pa) == y * (p * pb), p >= 2;
        lemma_cancel_prime_powers(x, y, p, (a - 1) as nat, (b - 1) as nat);
    } else if a > 0 {
        lemma_npow_unfold(p, a);
        lemma_npow_zero(p);
        let pa = npow(p, (a - 1) as nat);
        assert(y == p * (x * pa)) by (nonlinear_arith) requires x * (p * pa) == y * 1;
        vstd::arithmetic::div_mod::lemma_mod_multiples_basic((x * pa) as int, p as int);
        assert(p * (x * pa) == (x * pa) * p) by (nonlinear_arith);
    } else if b > 0 {
        lemma_npow_unfold(p, b);
        lemma_npow_zero(p);
        let pb = npow(p, (b - 1) as nat);
        assert(x == p * (y * pb)) by (nonlinear_arith) requires x * 1 == y * (p * pb);
        vstd::arithmetic::div_mod::lemma_mod_multiples_basic((y * pb) as int, p as int);
        assert(p * (y * pb) == (y * pb) * p) by (nonlinear_arith);
    } else {
        lemma_npow_zero(p);
    }
}

/// The prime factorization of a number is unique.
pub proof fn lemma_factorization_unique(n: nat, ps: Seq<u64>, ms: Seq<u32>, qs: Seq<u64>, ns: Seq<u32>)
    requires
        is_prime_factorization(n, ps, ms),
        is_prime_factorization(n, qs, ns),
    ensures
        ps == qs,
        ms == ns,
    decreases ps.len() + qs.len(),
{
    if ps.len() == 0 && qs.len() == 0 {
        assert(ps =~= qs);
        assert(ms =~= ns);
    } else if ps.len() == 0 || qs.len() == 0 {
        // one side is 1, the other has a prime factor
        let (xs, xm) = if ps.len() == 0 { (qs, ns) } else { (ps, ms) };
        let q = xs.last() as nat;
        assert(is_prime_spec(xs[xs.len() - 1] as nat));
        assert forall|i: int| 0 <= i < xs.drop_last().len() implies #[trigger] xs.drop_last()[i] >= 2 by {
            assert(xs.drop_last()[i] == xs[i]);
            assert(is_prime_spec(xs[i] as nat));
        }
        lemma_prod_pows_positive(xs.drop_last(), xm.drop_last());
        lemma_npow_ge_base(q, xm.last() as nat);
        assert(xm[xm.len() - 1] >= 1);
        let a = prod_pows(xs.drop_last(), xm.drop_last());
        let b = npow(q, xm.last() as nat);
        assert(a * b >= 2) by (nonlinear_arith) requires a >= 1, b >= q, q >= 2;
        assert(n == 1);
    } else {
        let p = ps.last() as nat;
        let q = qs.last() as nat;
        assert(is_prime_spec(ps[ps.len() - 1] as nat));
        assert(is_prime_spec(qs[qs.len() - 1] as nat));
        // p divides n, so p occurs in qs, so p <= q; and symmetrically
        let rp = prod_pows(ps.drop_last(), ms.drop_last());
        let rq = prod_pows(qs.drop_last(), ns.drop_last());
        let ap = npow(p, ms.last() as nat);
        let aq = npow(q, ns.last() as nat);
        assert(ms[ms.len() - 1] >= 1);
        assert(ns[ns.len() - 1] >= 1);
        assert(n % p == 0) by {
            lemma_npow_unfold(p, ms.last() as nat);
            let t = npow(p, (ms.last() - 1) as nat);
            assert(n == (rp * t) * p) by (nonlinear_arith) requires n == rp * ap, ap == p * t;
            vstd::arithmetic::div_mod::lemma_mod_multiples_basic((rp * t) as int, p as int);
        }
        assert(n % q == 0) by {
            lemma_npow_unfold(q, ns.last() as nat);
            let t = npow(q, (ns.last() - 1) as nat);
            assert(n == (rq * t) * q) by (nonlinear_arith) requires n == rq * aq, aq == q * t;
            vstd::arithmetic::div_mod::lemma_mod_multiples_basic((rq * t) as int, q as int);
        }
        lemma_prime_in_factorization(p, qs, ns);
        lemma_prime_in_factorization(q, ps, ms);
        let i = choose|i: int| 0 <= i < qs.len() && qs[i] == p;
        let j = choose|j: int| 0 <= j < ps.len() && ps[j] == q;
        if i < qs.len() - 1 {
            assert(qs[i] < qs[qs.len() - 1]);
        }
        if j < ps.len() - 1 {
            assert(ps[j] < ps[ps.len() - 1]);
        }
        assert(p == q);
        lemma_last_prime_not_in_rest(n, ps, ms);
        lemma_last_prime_not_in_rest(n, qs, ns);
        lemma_cancel_prime_powers(rp, rq, p, ms.last() as nat, ns.last() as nat);
        lemma_factorization_drop_last(n, ps, ms);
        lemma_factorization_drop_last(n, qs, ns);
        lemma_factorization_unique(rp, ps.drop_last(), ms.drop_last(), qs.drop_last(), ns.drop_last());
        assert(ps =~= ps.drop_last().push(ps.last()));
        assert(qs =~= qs.drop_last().push(qs.last()));
        assert(ms =~= ms.drop_last().push(ms.last()));
        assert(ns =~= ns.drop_last().push(ns.last()));
    }
}

/// The prime factorization of `n` (meaningful for `n >= 1`).
pub open spec fn factorization(n: nat) -> (Seq<u64>, Seq<u32>) {
    choose|f: (Seq<u64>, Seq<u32>)| is_prime_factorization(n, f.0, f.1)
}

/// Any prime factorization is the factorization.
pub proof fn lemma_is_the_factorization(n: nat, ps: Seq<u64>, ms: Seq<u32>)
    requires
        is_prime_factorization(n, ps, ms),
    ensures
        factorization(n) == (ps, ms),
{
    let f = factorization(n);
    assert(is_prime_factorization(n, (ps, ms).0, (ps, ms).1));
    lemma_factorization_unique(n, ps, ms, f.0, f.1);
}


/// The gcd is positive unless both arguments are 0, and divides both arguments.
pub proof fn lemma_gcd_divides(a: nat, b: nat)
    ensures
        (a > 0 || b > 0) ==> gcd_spec(a, b) > 0,
        gcd_spec(a, b) > 0 ==> a % gcd_spec(a, b) == 0 && b % gcd_spec(a, b) == 0,
        gcd_spec(a, b) <= a || a == 0,
    decreases b,
{
    if b > 0 {
        lemma_gcd_divides(b, a % b);
        let g = gcd_spec(a, b);
        if g > 0 {
            lemma_fundamental_div_mod(a as int, b as int);
            let q = a / b;
            let r = a % b;
            lemma_fundamental_div_mod(b as int, g as int);
            lemma_fundamental_div_mod(r as int, g as int);
            let x = b / g;
            let y = r / g;
            assert(a == g * (x * q + y)) by (nonlinear_arith)
                requires a == b * q + r, b == g * x, r == g * y;
            vstd::arithmetic::div_mod::lemma_mod_multiples_basic((x * q + y) as int, g as int);
            assert(g * (x * q + y) == (x * q + y) * g) by (nonlinear_arith);
            if a > 0 {
                assert(x * q + y >= 1) by (nonlinear_arith)
                    requires a == g * (x * q + y), a > 0, g > 0;
                assert(g <= a) by (nonlinear_arith)
                    requires a == g * (x * q + y), x * q + y >= 1, g > 0;
            }
        }
    } else {
        if a > 0 {
            vstd::arithmetic::div_mod::lemma_mod_self_0(a as int);
        }
    }
}


/// Bezout coefficients: `a x + b y = gcd(a, b)`.
pub proof fn lemma_bezout(a: nat, b: nat) -> (r: (int, int))
    ensures
        a * r.0 + b * r.1 == gcd_spec(a, b),
    decreases b,
{
    if b == 0 {
        (1, 0)
    } else {
        let (x, y) = lemma_bezout(b, a % b);
        lemma_fundamental_div_mod(a as int, b as int);
        let q = (a / b) as int;
        let r = (a % b) as int;
        assert(a * y + b * (x - q * y) == b * x + r * y) by (nonlinear_arith)
            requires a == b * q + r;
        (y, x - q * y)
    }
}

/// `x` is the inverse of `a` modulo `p`.
pub open spec fn is_inverse_mod(a: nat, x: nat, p: nat) -> bool {
    x < p && (a * x) % p == 1
}

/// A residue coprime to `p` has an inverse modulo `p`.
pub proof fn lemma_inverse_exists(a: nat, p: nat)
    requires
        p > 1,
        gcd_spec(p, a) == 1,
    ensures
        exists|x: nat| #[trigger] is_inverse_mod(a, x, p),
{
    let (x, y) = lemma_bezout(p, a);
    let pi = p as int;
    let z = y % pi;
    vstd::arithmetic::div_mod::lemma_mod_bound(y, pi);
    vstd::arithmetic::div_mod::lemma_mul_mod_noop_right(a as int, y, pi);
    assert(a * y == 1 + (-x) * p) by (nonlinear_arith) requires p * x + a * y == 1;
    vstd::arithmetic::div_mod::lemma_mod_multiples_vanish(-x, 1, pi);
    vstd::arithmetic::div_mod::lemma_small_mod(1, p);
    assert(is_inverse_mod(a, z as nat, p));
}

} // verus!
