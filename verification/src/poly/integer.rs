//! Polynomials with non-negative integer coefficients, and prime-power orders.

use vstd::prelude::*;
use crate::arith::{is_prime_spec, npow, factorization, is_prime_factorization};
use crate::error::{GaloisError, Result};
use crate::text::{decimal, push_decimal, push_str};
use vstd::string::StrSliceExecFns;

verus! {

/// `s` with trailing zeros removed, keeping at least one entry.
pub open spec fn strip_trailing(s: Seq<u64>) -> Seq<u64>
    decreases s.len(),
{
    if s.len() == 0 {
        seq![0u64]
    } else if s.len() > 1 && s.last() == 0 {
        strip_trailing(s.drop_last())
    } else {
        s
    }
}

/// Polynomial with ascending coefficients `c[0] + c[1] x + ...`.
#[derive(Debug, Clone, PartialEq, Eq)]
pub struct IntegerPoly {
    coeffs: Vec<u64>,
}

/// Removes trailing zeros in place, keeping at least one coefficient.
pub(crate) fn strip_vec(v: &mut Vec<u64>)
    ensures
        final(v)@ == strip_trailing(old(v)@),
{
    while v.len() > 1 && v[v.len() - 1] == 0
        invariant
            strip_trailing(v@) == strip_trailing(old(v)@),
        decreases v@.len(),
    {
        v.pop();
    }
    if v.len() == 0 {
        v.push(0);
    }
}

/// Degree of an ascending coefficient sequence: -1 for the zero polynomial.
pub open spec fn asc_degree(s: Seq<u64>) -> int {
    if s.len() <= 1 && (s.len() == 0 || s[0] == 0) { -1 } else { s.len() - 1 }
}

/// Horner evaluation of ascending coefficients at `x` modulo `p`.
pub open spec fn eval_mod_spec(s: Seq<u64>, x: nat, p: nat) -> nat
    decreases s.len(),
{
    if s.len() == 0 {
        0
    } else {
        ((eval_mod_spec(s.drop_first(), x, p) * x + s[0]) % (p as int)) as nat
    }
}

/// One term `c x^power` as rendered by the formatting functions.
pub open spec fn term_text(c: nat, power: nat, var: Seq<char>) -> Seq<char> {
    let cs = if c == 1 && power > 0 { Seq::<char>::empty() } else { decimal(c) };
    let vs = if power == 0 {
        Seq::<char>::empty()
    } else if power == 1 {
        var
    } else {
        var + seq!['^'] + decimal(power)
    };
    if cs.len() == 0 && vs.len() == 0 { seq!['1'] } else { cs + vs }
}

/// The nonzero terms of ascending coefficients (reduced mod `p`), joined by `" + "`.
pub open spec fn terms_text_asc(s: Seq<u64>, p: nat, var: Seq<char>) -> Seq<char>
    decreases s.len(),
{
    if s.len() == 0 {
        Seq::empty()
    } else {
        let prev = terms_text_asc(s.drop_last(), p, var);
        let c = (s.last() as nat) % p;
        if c == 0 {
            prev
        } else if prev.len() == 0 {
            term_text(c, (s.len() - 1) as nat, var)
        } else {
            prev + seq![' ', '+', ' '] + term_text(c, (s.len() - 1) as nat, var)
        }
    }
}

/// A term's text is never empty.
pub proof fn lemma_term_text_nonempty(c: nat, power: nat, var: Seq<char>)
    ensures
        term_text(c, power, var).len() > 0,
{
    if !(c == 1 && power > 0) {
        reveal_with_fuel(decimal, 2);
    }
}

/// Appends the text of one term.
pub(crate) fn push_term(out: &mut String, c: u64, power: u64, var: &str)
    ensures
        final(out)@ == old(out)@ + term_text(c as nat, power as nat, var@),
{
    let ghost start = out@;
    if !(c == 1 && power > 0) {
        push_decimal(out, c);
    }
    if power == 1 {
        push_str(out, var);
    } else if power > 1 {
        push_str(out, var);
        crate::text::push_char(out, '^');
        push_decimal(out, power);
    }
    proof {
        let cs = if c == 1 && power > 0 { Seq::<char>::empty() } else { decimal(c as nat) };
        let vs = if power == 0 {
            Seq::<char>::empty()
        } else if power == 1 {
            var@
        } else {
            var@ + seq!['^'] + decimal(power as nat)
        };
        if !(c == 1 && power > 0) {
            assert(decimal(c as nat).len() > 0) by {
                reveal_with_fuel(decimal, 2);
            }
        }
        assert(out@ =~= start + cs + vs);
        if cs.len() == 0 && vs.len() == 0 {
            assert(power > 0);
            assert(var@.len() == 0);
        }
    }
    if c == 1 && power == 1 && var.unicode_len() == 0 {
        crate::text::push_char(out, '1');
        assert(out@ =~= start + seq!['1']);
    }
}

impl IntegerPoly {
    /// Ascending coefficients.
    pub closed spec fn view_coeffs(&self) -> Seq<u64> {
        self.coeffs@
    }

    /// Builds a polynomial, dropping trailing zero coefficients.
    pub fn new(coeffs: Vec<u64>) -> (r: Self)
        ensures
            r.view_coeffs() == strip_trailing(coeffs@),
    {
        let mut c = coeffs;
        strip_vec(&mut c);
        IntegerPoly { coeffs: c }
    }

    pub fn zero() -> (r: Self)
        ensures
            r.view_coeffs() == seq![0u64],
    {
        IntegerPoly { coeffs: vec![0] }
    }

    pub fn one() -> (r: Self)
        ensures
            r.view_coeffs() == seq![1u64],
    {
        IntegerPoly { coeffs: vec![1] }
    }

    pub fn x() -> (r: Self)
        ensures
            r.view_coeffs() == seq![0u64, 1u64],
    {
        IntegerPoly { coeffs: vec![0, 1] }
    }

    pub fn coeffs(&self) -> (r: &[u64])
        ensures
            r@ == self.view_coeffs(),
    {
        self.coeffs.as_slice()
    }

    /// Degree; -1 for the zero polynomial.
    pub fn degree(&self) -> (r: isize)
        requires
            self.view_coeffs().len() <= isize::MAX,
        ensures
            r == asc_degree(self.view_coeffs()),
    {
        if self.coeffs.len() == 0 || (self.coeffs.len() <= 1 && self.coeffs[0] == 0) {
            -1
        } else {
            self.coeffs.len() as isize - 1
        }
    }

    pub fn is_zero(&self) -> (r: bool)
        requires
            self.view_coeffs().len() <= isize::MAX,
        ensures
            r == (asc_degree(self.view_coeffs()) < 0),
    {
        self.degree() < 0
    }

    pub fn is_one(&self) -> (r: bool)
        ensures
            r == (self.view_coeffs() == seq![1u64]),
    {
        let r = self.coeffs.len() == 1 && self.coeffs[0] == 1;
        assert(r ==> self.coeffs@ =~= seq![1u64]);
        r
    }

    /// Coefficients reduced modulo `p`.
    pub fn mod_coeffs(&self, p: u64) -> (r: Vec<u64>)
        requires
            p > 0,
        ensures
            r@.len() == self.view_coeffs().len(),
            forall|i: int| 0 <= i < r@.len() ==> #[trigger] r@[i] == self.view_coeffs()[i] % p,
    {
        let mut out: Vec<u64> = Vec::new();
        let mut i: usize = 0;
        while i < self.coeffs.len()
            invariant
                p > 0,
                i <= self.coeffs@.len(),
                out@.len() == i,
                forall|j: int| 0 <= j < i ==> #[trigger] out@[j] == self.coeffs@[j] % p,
            decreases self.coeffs@.len() - i,
        {
            out.push(self.coeffs[i] % p);
            i = i + 1;
        }
        out
    }

    /// Value at `x` modulo `p` (Horner's rule).
    pub fn eval_mod(&self, x: u64, p: u64) -> (r: u64)
        requires
            p > 0,
        ensures
            r == eval_mod_spec(self.view_coeffs(), x as nat, p as nat),
    {
        let mut result: u64 = 0;
        let mut i: usize = self.coeffs.len();
        assert(self.coeffs@.subrange(i as int, i as int) =~= Seq::<u64>::empty());
        while i > 0
            invariant
                p > 0,
                i <= self.coeffs@.len(),
                result == eval_mod_spec(self.coeffs@.subrange(i as int, self.coeffs@.len() as int),
                    x as nat, p as nat),
                result < p || i == self.coeffs@.len(),
            decreases i,
        {
            i = i - 1;
            let t = crate::prime::mul_mod(result, x, p);
            let s: u128 = (t as u128) + (self.coeffs[i] as u128);
            proof {
                let tail = self.coeffs@.subrange(i as int, self.coeffs@.len() as int);
                assert(tail.drop_first() =~= self.coeffs@.subrange(i + 1, self.coeffs@.len() as int));
                assert(tail[0] == self.coeffs@[i as int]);
                vstd::arithmetic::div_mod::lemma_add_mod_noop(result as int * x as int,
                    self.coeffs@[i as int] as int, p as int);
                vstd::arithmetic::div_mod::lemma_add_mod_noop(t as int, self.coeffs@[i as int] as int, p as int);
                vstd::arithmetic::div_mod::lemma_mod_twice(result as int * x as int, p as int);
            }
            result = (s % (p as u128)) as u64;
        }
        assert(self.coeffs@.subrange(0, self.coeffs@.len() as int) =~= self.coeffs@);
        result
    }

    /// Text of the polynomial with coefficients reduced modulo `p`, ascending, e.g.
    /// `"1 + 2x + x^5"`; `"0"` for the zero polynomial.
    pub fn format_mod(&self, p: u64, var: &str) -> (r: String)
        requires
            p > 0,
            self.view_coeffs().len() <= isize::MAX,
        ensures
            asc_degree(self.view_coeffs()) < 0 ==> r@ == seq!['0'],
            asc_degree(self.view_coeffs()) >= 0 ==> r@ == terms_text_asc(self.view_coeffs(), p as nat, var@),
    {
        if self.is_zero() {
            let mut z = String::new();
            crate::text::push_char(&mut z, '0');
            assert(z@ =~= seq!['0']);
            return z;
        }
        let (text, _) = format_terms_asc(self.coeffs.as_slice(), p, var);
        text
    }
}

/// Joins the nonzero terms of ascending coefficients modulo `p`.
pub(crate) fn format_terms_asc(coeffs: &[u64], p: u64, var: &str) -> (r: (String, bool))
    requires
        p > 0,
    ensures
        r.0@ == terms_text_asc(coeffs@, p as nat, var@),
        r.1 == (r.0@.len() > 0),
{
    let mut out = String::new();
    let mut started = false;
    let mut i: usize = 0;
    assert(coeffs@.subrange(0, 0) =~= Seq::<u64>::empty());
    while i < coeffs.len()
        invariant
            p > 0,
            i <= coeffs@.len(),
            out@ == terms_text_asc(coeffs@.subrange(0, i as int), p as nat, var@),
            started == (out@.len() > 0),
        decreases coeffs@.len() - i,
    {
        let c = coeffs[i] % p;
        let ghost prev = out@;
        proof {
            let sub = coeffs@.subrange(0, i + 1);
            assert(sub.drop_last() =~= coeffs@.subrange(0, i as int));
            assert(sub.last() == coeffs@[i as int]);
        }
        if c != 0 {
            if started {
                push_str(&mut out, " + ");
                proof { reveal_strlit(" + "); }
            }
            push_term(&mut out, c, i as u64, var);
            proof {
                reveal_strlit(" + ");
                if prev.len() > 0 {
                    assert(out@ =~= prev + seq![' ', '+', ' '] + term_text(c as nat, i as nat, var@));
                } else {
                    assert(out@ =~= term_text(c as nat, i as nat, var@));
                }
                lemma_term_text_nonempty(c as nat, i as nat, var@);
            }
            started = true;
        }
        i = i + 1;
    }
    assert(coeffs@.subrange(0, coeffs@.len() as int) =~= coeffs@);
    (out, started)
}

/// `order` is a prime power `p^m` with `m >= 1`.
pub open spec fn is_prime_power_spec(order: nat) -> bool {
    exists|p: nat, m: nat| is_prime_spec(p) && m >= 1 && #[trigger] npow(p, m) == order
}

/// Splits a prime-power field order into `(p, m)` with `order == p^m`.
pub fn factor_prime_power(order: u64) -> (r: Result<(u64, u32)>)
    ensures
        order < 2 ==> r == Err::<(u64, u32), GaloisError>(GaloisError::InvalidOrder(order)),
        order >= 2 && is_prime_power_spec(order as nat) ==> (r matches Ok((p, m)) && is_prime_spec(p as nat)
            && m >= 1 && npow(p as nat, m as nat) == order),
        order >= 2 && !is_prime_power_spec(order as nat) ==> r == Err::<(u64, u32), GaloisError>(
            GaloisError::UnfactorizableOrder(order)),
{
    if order < 2 {
        return Err(GaloisError::InvalidOrder(order));
    }
    let (factors, mults) = match crate::prime::factorize(order) {
        Ok(f) => f,
        Err(_) => (vec![order], vec![1]),
    };
    if factors.len() == 1 {
        proof {
            assert(factors@.drop_last() =~= Seq::<u64>::empty());
            assert(is_prime_spec(factors@[0] as nat));
            assert(factors@ =~= Seq::<u64>::empty().push(factors@[0]));
            assert(mults@ =~= Seq::<u32>::empty().push(mults@[0]));
            assert(crate::arith::prod_pows(Seq::<u64>::empty(), Seq::<u32>::empty()) == 1);
            crate::arith::lemma_prod_pows_push(Seq::<u64>::empty(), Seq::<u32>::empty(), factors@[0], mults@[0]);
            assert(crate::arith::prod_pows(factors@, mults@) == npow(factors@[0] as nat, mults@[0] as nat));
        }
        return Ok((factors[0], mults[0]));
    }
    proof {
        if is_prime_power_spec(order as nat) {
            let (p, m) = choose|p: nat, m: nat| is_prime_spec(p) && m >= 1 && #[trigger] npow(p, m) == order;
            lemma_prime_power_factorization(p, m, order as nat);
            crate::arith::lemma_factorization_unique(order as nat, factors@, mults@, seq![p as u64],
                seq![m as u32]);
        }
    }
    Err(GaloisError::UnfactorizableOrder(order))
}

/// `p^m` with `p` prime and `1 <= m` has the one-term factorization `[p]^[m]`.
proof fn lemma_prime_power_factorization(p: nat, m: nat, n: nat)
    requires
        is_prime_spec(p),
        m >= 1,
        npow(p, m) == n,
        n <= u64::MAX,
    ensures
        p <= u64::MAX,
        m <= u32::MAX,
        is_prime_factorization(n, seq![p as u64], seq![m as u32]),
{
    crate::arith::lemma_npow_ge_base(p, m);
    crate::arith::lemma_npow_mono_base(2, p, m);
    crate::prime::lemma_pow2_64_exceeds();
    if m >= 64 {
        crate::prime::lemma_npow_mono_exp(2, 64, m);
    }
    let ps = seq![p as u64];
    let ms = seq![m as u32];
    assert(ps =~= Seq::<u64>::empty().push(p as u64));
    assert(ms =~= Seq::<u32>::empty().push(m as u32));
    assert(crate::arith::prod_pows(Seq::<u64>::empty(), Seq::<u32>::empty()) == 1);
            crate::arith::lemma_prod_pows_push(Seq::<u64>::empty(), Seq::<u32>::empty(), p as u64, m as u32);
    assert(crate::arith::prod_pows(ps, ms) == npow(p, m));
}

/// Whether `n = p^k` for a prime `p` and `k >= 1`.
pub fn is_prime_power(n: u64) -> (r: bool)
    ensures
        r == (n >= 2 && is_prime_power_spec(n as nat)),
{
    if n < 2 {
        return false;
    }
    match factor_prime_power(n) {
        Ok(_) => true,
        Err(_) => false,
    }
}

} // verus!
