//! Integer factorization utilities: divisors, perfect powers, square-freeness.

use vstd::prelude::*;
use vstd::arithmetic::div_mod::lemma_fundamental_div_mod;
use crate::arith::{npow, factorization, is_prime_factorization, lemma_npow_unfold, lemma_npow_zero};
use crate::prime::{factorize, iroot, checked_npow};

verus! {

/// `s` is strictly increasing.
pub open spec fn strictly_increasing(s: Seq<u64>) -> bool {
    forall|i: int, j: int| 0 <= i < j < s.len() ==> s[i] < s[j]
}

/// `d` is a positive divisor of `n`.
pub open spec fn is_divisor(d: nat, n: nat) -> bool {
    d >= 1 && n % d == 0
}

/// Two strictly increasing sequences with the same elements are equal.
pub proof fn lemma_sorted_unique(a: Seq<u64>, b: Seq<u64>)
    requires
        strictly_increasing(a),
        strictly_increasing(b),
        forall|x: u64| a.contains(x) <==> b.contains(x),
    ensures
        a == b,
    decreases a.len() + b.len(),
{
    if a.len() == 0 || b.len() == 0 {
        if a.len() > 0 {
            assert(a.contains(a[0]));
        }
        if b.len() > 0 {
            assert(b.contains(b[0]));
        }
        assert(a =~= b);
    } else {
        // the first elements agree: each is the minimum of the common set
        assert(a.contains(a[0]));
        assert(b.contains(b[0]));
        let i = choose|i: int| 0 <= i < b.len() && b[i] == a[0];
        let j = choose|j: int| 0 <= j < a.len() && a[j] == b[0];
        if i > 0 {
            assert(b[0] < b[i]);
            if j > 0 {
                assert(a[0] < a[j]);
            }
        }
        if j > 0 {
            assert(a[0] < a[j]);
        }
        assert(a[0] == b[0]);
        let a1 = a.drop_first();
        let b1 = b.drop_first();
        assert forall|x: u64| a1.contains(x) <==> b1.contains(x) by {
            if a1.contains(x) {
                let k = choose|k: int| 0 <= k < a1.len() && a1[k] == x;
                assert(a[k + 1] == x);
                assert(a[0] < x);
                assert(b.contains(x));
                let m = choose|m: int| 0 <= m < b.len() && b[m] == x;
                assert(m != 0);
                assert(b1[m - 1] == x);
            }
            if b1.contains(x) {
                let k = choose|k: int| 0 <= k < b1.len() && b1[k] == x;
                assert(b[k + 1] == x);
                assert(b[0] < x);
                assert(a.contains(x));
                let m = choose|m: int| 0 <= m < a.len() && a[m] == x;
                assert(m != 0);
                assert(a1[m - 1] == x);
            }
        }
        lemma_sorted_unique(a1, b1);
        assert(a =~= seq![a[0]] + a1);
        assert(b =~= seq![b[0]] + b1);
    }
}

/// The positive divisors of `n` in increasing order.
pub open spec fn divisor_seq(n: nat) -> Seq<u64> {
    choose|s: Seq<u64>| strictly_increasing(s) && forall|x: u64| s.contains(x) <==> is_divisor(x as nat, n)
}

/// All positive divisors of `n` in increasing order (empty for `n == 0`).
pub fn divisors(n: u64) -> (r: Vec<u64>)
    ensures
        strictly_increasing(r@),
        n > 0 ==> forall|x: u64| r@.contains(x) <==> is_divisor(x as nat, n as nat),
        n > 0 ==> r@ == divisor_seq(n as nat),
        n == 0 ==> r@.len() == 0,
{
    if n == 0 {
        return Vec::new();
    }
    let mut small: Vec<u64> = Vec::new();
    let mut i: u64 = 1;
    while i <= n / i
        invariant
            n > 0,
            1 <= i,
            strictly_increasing(small@),
            forall|a: int| 0 <= a < small@.len() ==> #[trigger] small@[a] < i,
            forall|x: u64| small@.contains(x) <==> (x < i && is_divisor(x as nat, n as nat)),
        decreases n + 1 - i,
    {
        proof {
            vstd::arithmetic::div_mod::lemma_div_is_ordered_by_denominator(n as int, 1, i as int);
            assert(n / 1 == n);
            assert(i <= n);
            lemma_fundamental_div_mod(n as int, i as int);
        }
        let ghost old_small = small@;
        if n % i == 0 {
            small.push(i);
        }
        assert forall|x: u64| small@.contains(x) <==> (x < i + 1 && is_divisor(x as nat, n as nat)) by {
            if small@.contains(x) {
                let k = choose|k: int| 0 <= k < small@.len() && small@[k] == x;
                if k < old_small.len() {
                    assert(old_small[k] == x);
                    assert(old_small.contains(x));
                }
            }
            if x < i + 1 && is_divisor(x as nat, n as nat) {
                if x == i {
                    assert(small@[small@.len() - 1] == x);
                } else {
                    assert(old_small.contains(x));
                    let k = choose|k: int| 0 <= k < old_small.len() && old_small[k] == x;
                    assert(small@[k] == x);
                }
            }
        }
        assert(i < 0x1_0000_0000) by (nonlinear_arith)
            requires i <= n / i, n <= u64::MAX, i >= 1, n == i * (n / i) + n % i, n % i >= 0;
        i = i + 1;
    }
    proof {
        assert(i > n / i);
        lemma_fundamental_div_mod(n as int, i as int);
        vstd::arithmetic::div_mod::lemma_mod_bound(n as int, i as int);
        assert(i * i > n) by (nonlinear_arith)
            requires i > n / i, n == i * (n / i) + n % i, n % i < i;
    }
    let mut out: Vec<u64> = small.clone();
    let mut j: usize = small.len();
    assert(out@ =~= small@);
    while j > 0
        invariant
            n > 0,
            i >= 1,
            j <= small@.len(),
            i * i > n,
            strictly_increasing(small@),
            forall|a: int| 0 <= a < small@.len() ==> #[trigger] small@[a] < i,
            forall|x: u64| small@.contains(x) <==> (x < i && is_divisor(x as nat, n as nat)),
            out@.len() >= small@.len(),
            forall|a: int| 0 <= a < small@.len() ==> #[trigger] out@[a] == small@[a],
            strictly_increasing(out@),
            forall|a: int| small@.len() <= a < out@.len() ==> (#[trigger] out@[a] >= i
                && is_divisor(out@[a] as nat, n as nat)
                && exists|k: int| j <= k < small@.len() && out@[a] == n / small@[k]),
            forall|x: u64| #![trigger is_divisor(x as nat, n as nat)] x >= i && is_divisor(x as nat, n as nat)
                ==> (out@.contains(x) <==> exists|k: int| j <= k < small@.len() && small@[k] == n / x),
        decreases j,
    {
        j = j - 1;
        let c = small[j];
        assert(small@[j as int] == c);
        assert(small@.contains(c));
        assert(is_divisor(c as nat, n as nat));
        let d = n / c;
        let ghost old_out = out@;
        proof {
            lemma_fundamental_div_mod(n as int, c as int);
            lemma_cofactor_divides(n as nat, c as nat);
        }
        if d >= i {
            out.push(d);
            proof {
                assert forall|a: int| 0 <= a < out@.len() - 1 implies out@[a] < d by {
                    if a < small@.len() {
                        assert(out@[a] == small@[a]);
                    } else {
                        let k = choose|k: int| j + 1 <= k < small@.len() && old_out[a] == n / small@[k];
                        assert(small@[j as int] < small@[k]);
                        assert(small@.contains(small@[k]));
                        assert(is_divisor(small@[k] as nat, n as nat));
                        lemma_quotients_decrease(n as nat, c as nat, small@[k] as nat);
                    }
                }
            }
        } else {
            proof {
                // d < i means d == c, so no new divisor >= i belongs to c
                assert(c * d <= n) by (nonlinear_arith) requires n == c * d + n % c, n % c >= 0;
            }
        }
        proof {
            assert forall|x: u64| #![trigger is_divisor(x as nat, n as nat)] x >= i && is_divisor(x as nat, n as nat)
                implies (out@.contains(x) <==> exists|k: int| j <= k < small@.len() && small@[k] == n / x) by {
                lemma_cofactor_divides(n as nat, x as nat);
                if x as nat == d as nat && d >= i {
                    assert(out@[out@.len() - 1] == x);
                    lemma_quotient_involution(n as nat, c as nat);
                    assert(small@[j as int] == n / x);
                }
                if out@.contains(x) {
                    let a = choose|a: int| 0 <= a < out@.len() && out@[a] == x;
                    if a < old_out.len() {
                        assert(old_out[a] == x);
                        assert(old_out.contains(x));
                    }
                    if a < small@.len() {
                        assert(out@[a] == small@[a]);
                    }
                }
                if exists|k: int| j <= k < small@.len() && small@[k] == n / x {
                    let k = choose|k: int| j <= k < small@.len() && small@[k] == n / x;
                    if k > j {
                        assert(old_out.contains(x));
                        let a = choose|a: int| 0 <= a < old_out.len() && old_out[a] == x;
                        assert(out@[a] == x);
                    } else {
                        lemma_quotient_involution(n as nat, x as nat);
                        assert(d == x);
                    }
                }
            }
            assert forall|a: int| small@.len() <= a < out@.len() implies (#[trigger] out@[a] >= i
                && is_divisor(out@[a] as nat, n as nat)
                && exists|k: int| j <= k < small@.len() && out@[a] == n / small@[k]) by {
                if a < old_out.len() {
                    assert(out@[a] == old_out[a]);
                    let k = choose|k: int| j + 1 <= k < small@.len() && old_out[a] == n / small@[k];
                } else {
                    assert(out@[a] == n / small@[j as int]);
                }
            }
        }
    }
    proof {
        assert forall|x: u64| out@.contains(x) <==> is_divisor(x as nat, n as nat) by {
            if out@.contains(x) {
                let a = choose|a: int| 0 <= a < out@.len() && out@[a] == x;
                if a < small@.len() {
                    assert(out@[a] == small@[a]);
                    assert(small@.contains(x));
                }
            }
            if is_divisor(x as nat, n as nat) {
                if x < i {
                    assert(small@.contains(x));
                    let k = choose|k: int| 0 <= k < small@.len() && small@[k] == x;
                    assert(out@[k] == x);
                } else {
                    lemma_cofactor_divides(n as nat, x as nat);
                    let c: u64 = n / x;
                    assert(c * x == n) by (nonlinear_arith) requires x * c == n;
                    assert(c < i) by (nonlinear_arith)
                        requires x >= i, i * i > n, c * x == n, i >= 1;
                    assert(is_divisor(c as nat, n as nat));
                    assert(small@.contains(c));
                }
            }
        }
        let ds = divisor_seq(n as nat);
        assert(strictly_increasing(out@) && forall|x: u64| out@.contains(x) <==> is_divisor(x as nat, n as nat));
        lemma_sorted_unique(out@, ds);
    }
    out
}

/// For a divisor `c` of `n > 0`, `n / c` is a divisor too and `c * (n / c) == n`.
proof fn lemma_cofactor_divides(n: nat, c: nat)
    requires
        n > 0,
        c >= 1,
        n % c == 0,
    ensures
        c * (n / c) == n,
        n / c >= 1,
        n % (n / c) == 0,
{
    lemma_fundamental_div_mod(n as int, c as int);
    let q = n / c;
    assert(q >= 1) by (nonlinear_arith) requires c * q == n, n > 0;
    vstd::arithmetic::div_mod::lemma_mod_multiples_basic(c as int, q as int);
    assert(c * q == q * c) by (nonlinear_arith);
}

/// `n / (n / c) == c` for a divisor `c` of `n > 0`.
proof fn lemma_quotient_involution(n: nat, c: nat)
    requires
        n > 0,
        c >= 1,
        n % c == 0,
    ensures
        n / (n / c) == c,
{
    lemma_cofactor_divides(n, c);
    let q = n / c;
    vstd::arithmetic::div_mod::lemma_div_by_multiple(c as int, q as int);
    assert(c * q == q * c) by (nonlinear_arith);
}

/// Quotients of `n` by increasing divisors strictly decrease.
proof fn lemma_quotients_decrease(n: nat, a: nat, b: nat)
    requires
        n > 0,
        1 <= a < b,
        n % a == 0,
        n % b == 0,
    ensures
        n / a > n / b,
{
    lemma_cofactor_divides(n, a);
    lemma_cofactor_divides(n, b);
    let qa = n / a;
    let qb = n / b;
    assert(qa > qb) by (nonlinear_arith) requires a * qa == n, b * qb == n, a < b, qb >= 1, a >= 1;
}


/// `c` is a perfect power: `c = b^f` with `b >= 2` and `f >= 2`.
pub open spec fn is_perfect_power_spec(c: nat) -> bool {
    exists|b: nat, f: nat| 2 <= b && 2 <= f && #[trigger] npow(b, f) == c
}

/// Perfect power decomposition `n = c^e` with `c` not itself a perfect power (`(n, 1)` for
/// `n < 2`).
pub fn perfect_power(n: u64) -> (r: (u64, u32))
    ensures
        n < 2 ==> r == (n, 1u32),
        n >= 2 ==> r.1 >= 1 && r.0 >= 2 && npow(r.0 as nat, r.1 as nat) == n
            && !is_perfect_power_spec(r.0 as nat) && r.1 < 64,
    decreases n,
{
    if n < 2 {
        return (n, 1);
    }
    let mut e: u32 = 2;
    while e <= 63
        invariant
            n >= 2,
            2 <= e <= 64,
            forall|b: nat, f: nat| 2 <= b && 2 <= f < e ==> #[trigger] npow(b, f) != n,
        decreases 64 - e,
    {
        let root = iroot(n, e);
        let exact = match checked_npow(root, e) {
            Some(v) => v == n,
            None => false,
        };
        if exact {
            proof {
                // root >= 2 and root < n
                if root < 2 {
                    if root == 0 {
                        lemma_npow_unfold(0, e as nat);
                    } else {
                        vstd::arithmetic::power::lemma1_pow(e as nat);
                        crate::arith::lemma_npow_nonneg(1, e as nat);
                    }
                }
                crate::prime::lemma_npow_mono_exp(root as nat, 1, e as nat);
                crate::arith::lemma_npow_one(root as nat);
                if root >= n {
                    crate::prime::lemma_npow_mono_exp(root as nat, 2, e as nat);
                    lemma_npow_unfold(root as nat, 2);
                    crate::arith::lemma_npow_one(root as nat);
                    assert(root * root > n) by (nonlinear_arith) requires root >= n, n >= 2;
                }
            }
            let (inner, inner_e) = perfect_power(root);
            proof {
                vstd::arithmetic::power::lemma_pow_multiplies(inner as int, inner_e as nat, e as nat);
                crate::arith::lemma_npow_nonneg(inner as nat, inner_e as nat);
                crate::arith::lemma_npow_nonneg(inner as nat, (inner_e * e) as nat);
                assert(inner_e as nat * e as nat == e as nat * inner_e as nat) by (nonlinear_arith);
                assert(inner_e * e >= 1) by (nonlinear_arith) requires inner_e >= 1, e >= 2;
                assert(e * inner_e <= 63 * 64) by (nonlinear_arith) requires inner_e < 64, e <= 63;
                crate::arith::lemma_npow_mono_base(2, inner as nat, (e * inner_e) as nat);
                crate::prime::lemma_pow2_64_exceeds();
                if e * inner_e >= 64 {
                    crate::prime::lemma_npow_mono_exp(2, 64, (e * inner_e) as nat);
                }
            }
            return (inner, e * inner_e);
        }
        proof {
            assert forall|b: nat, f: nat| 2 <= b && 2 <= f < e + 1 implies #[trigger] npow(b, f) != n by {
                if f == e && npow(b, f) == n {
                    // b^e == n: then b is the e-th root of n
                    if b <= root {
                        crate::arith::lemma_npow_mono_base(b, root as nat, e as nat);
                        if b < root {
                            crate::arith::lemma_npow_mono_base(b + 1, root as nat, e as nat);
                            lemma_npow_strict_base(b, e as nat);
                        }
                    } else {
                        crate::arith::lemma_npow_mono_base((root + 1) as nat, b, e as nat);
                    }
                }
            }
        }
        e = e + 1;
    }
    proof {
        assert forall|b: nat, f: nat| 2 <= b && 2 <= f implies #[trigger] npow(b, f) != n by {
            if f >= 64 {
                crate::arith::lemma_npow_mono_base(2, b, f);
                crate::prime::lemma_npow_mono_exp(2, 64, f);
                crate::prime::lemma_pow2_64_exceeds();
            }
        }
        crate::arith::lemma_npow_one(n as nat);
    }
    assert(1u32 < 64);
    (n, 1)
}

/// `b^e < (b+1)^e` for `e >= 1`.
proof fn lemma_npow_strict_base(b: nat, e: nat)
    requires
        e >= 1,
    ensures
        npow(b, e) < npow(b + 1, e),
    decreases e,
{
    lemma_npow_unfold(b, e);
    lemma_npow_unfold(b + 1, e);
    if e == 1 {
        lemma_npow_zero(b);
        lemma_npow_zero(b + 1);
    } else {
        lemma_npow_strict_base(b, (e - 1) as nat);
        let x = npow(b, (e - 1) as nat);
        let y = npow(b + 1, (e - 1) as nat);
        assert(b * x < (b + 1) * y) by (nonlinear_arith) requires x < y, x >= 0;
    }
}

/// Sum of `d^k` over a sequence of divisors.
pub open spec fn sum_powers(ds: Seq<u64>, k: nat) -> nat
    decreases ds.len(),
{
    if ds.len() == 0 {
        0
    } else {
        sum_powers(ds.drop_last(), k) + npow(ds.last() as nat, k)
    }
}

/// Sum of the `k`-th powers of the divisors of `n`; the sum must fit in a `u64`.
pub fn divisor_sigma(k: u32, n: u64) -> (r: u64)
    requires
        sum_powers(divisor_seq(n as nat), k as nat) <= u64::MAX,
    ensures
        n > 0 ==> r == sum_powers(divisor_seq(n as nat), k as nat),
        n == 0 ==> r == 0,
{
    let ds = divisors(n);
    let ghost total = sum_powers(divisor_seq(n as nat), k as nat);
    let mut acc: u64 = 0;
    let mut i: usize = 0;
    assert(ds@.subrange(0, 0) =~= Seq::<u64>::empty());
    while i < ds.len()
        invariant
            n > 0 ==> ds@ == divisor_seq(n as nat),
            n == 0 ==> ds@.len() == 0,
            i <= ds@.len(),
            acc == sum_powers(ds@.subrange(0, i as int), k as nat),
            total == sum_powers(divisor_seq(n as nat), k as nat),
            total <= u64::MAX,
        decreases ds@.len() - i,
    {
        proof {
            assert(ds@.subrange(0, i + 1).drop_last() =~= ds@.subrange(0, i as int));
            lemma_sum_powers_prefix_le(ds@, k as nat, i + 1);
        }
        let term = match checked_npow(ds[i], k) {
            Some(v) => v,
            None => 0,
        };
        acc = acc + term;
        i = i + 1;
    }
    assert(ds@.subrange(0, ds@.len() as int) =~= ds@);
    acc
}

proof fn lemma_sum_powers_prefix_le(ds: Seq<u64>, k: nat, i: int)
    requires
        0 <= i <= ds.len(),
    ensures
        sum_powers(ds.subrange(0, i), k) <= sum_powers(ds, k),
    decreases ds.len() - i,
{
    if i < ds.len() {
        lemma_sum_powers_prefix_le(ds, k, i + 1);
        assert(ds.subrange(0, i + 1).drop_last() =~= ds.subrange(0, i));
        crate::arith::lemma_npow_nonneg(ds[i] as nat, k);
    } else {
        assert(ds.subrange(0, i) =~= ds);
    }
}

/// Square-freeness read off the factorization (true for `n < 2`).
pub open spec fn is_square_free_spec(n: nat) -> bool {
    n < 2 || (forall|i: int| 0 <= i < factorization(n).1.len() ==> #[trigger] factorization(n).1[i] <= 1)
}

/// Whether no prime square divides `n`.
pub fn is_square_free(n: u64) -> (r: bool)
    ensures
        r == is_square_free_spec(n as nat),
{
    if n < 2 {
        return true;
    }
    let (factors, mults) = match factorize(n) {
        Ok(f) => f,
        Err(_) => (vec![n], vec![1]),
    };
    let mut i: usize = 0;
    while i < mults.len()
        invariant
            n >= 2,
            factorization(n as nat) == (factors@, mults@),
            is_prime_factorization(n as nat, factors@, mults@),
            i <= mults@.len(),
            forall|j: int| 0 <= j < i ==> #[trigger] mults@[j] <= 1,
        decreases mults@.len() - i,
    {
        if mults[i] > 1 {
            assert(factorization(n as nat).1[i as int] > 1);
            return false;
        }
        i = i + 1;
    }
    factors.len() > 0 || { assert(crate::arith::prod_pows(factors@, mults@) == 1); false }
}

} // verus!
