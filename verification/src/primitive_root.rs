//! Primitive roots modulo `n` and primitive elements of Galois fields.

use vstd::prelude::*;
use vstd::arithmetic::power::pow;
use crate::arith::{is_prime_spec, gcd_spec};
use crate::modular::euler_phi_spec;
use crate::field::factory::GaloisField;

verus! {

/// `b^e mod n`, with `b^0 = 1`.
pub open spec fn modpow_spec(b: nat, e: nat, n: nat) -> nat {
    if e == 0 { 1 } else { (pow(b as int, e) % (n as int)) as nat }
}

/// `g` is a primitive root modulo `n`: coprime to `n`, `g^phi(n) = 1` and
/// `g^(phi(n)/r) != 1` for every prime `r` dividing `phi(n)`.
pub open spec fn is_primitive_root_spec(g: nat, n: nat) -> bool {
    let phi = euler_phi_spec(n);
    &&& gcd_spec(g, n) == 1
    &&& forall|r: nat| #[trigger] is_prime_spec(r) && phi % r == 0 ==> modpow_spec(g, phi / r, n) != 1
    &&& modpow_spec(g, phi, n) == 1
}

/// Whether `g` is a primitive root modulo `n`.
pub fn is_primitive_root(g: u64, n: u64) -> (r: bool)
    requires
        n > 0 || g != 1,
    ensures
        r == is_primitive_root_spec(g as nat, n as nat),
{
    if crate::modular::gcd(g, n) != 1 {
        return false;
    }
    let phi = crate::modular::euler_phi(n);
    proof {
        if n == 0 {
            assert(gcd_spec(g as nat, 0) == g);
        }
    }
    if phi == 0 {
        proof {
            assert(is_prime_spec(2));
            assert((phi as nat) % 2 == 0);
        }
        return false;
    }
    let (factors, mults) = match crate::prime::factorize(phi) {
        Ok(x) => x,
        Err(_) => { return false; },
    };
    let mut i: usize = 0;
    while i < factors.len()
        invariant
            n > 0,
            phi >= 1,
            phi == euler_phi_spec(n as nat),
            phi < 2 ==> factors@.len() == 0,
            phi >= 2 ==> crate::arith::is_prime_factorization(phi as nat, factors@, mults@),
            i <= factors@.len(),
            forall|j: int| 0 <= j < i ==> modpow_spec(g as nat, (phi / #[trigger] factors@[j]) as nat, n as nat) != 1,
        decreases factors@.len() - i,
    {
        let pr = factors[i];
        proof { assert(is_prime_spec(factors@[i as int] as nat)); }
        if crate::prime::mod_pow(g, phi / pr, n) == 1 {
            proof {
                crate::field::factory::lemma_factor_divides(factors@, mults@, i as int);
                assert(is_prime_spec(pr as nat) && (phi as nat) % (pr as nat) == 0);
            }
            return false;
        }
        i = i + 1;
    }
    proof {
        assert forall|r: nat| #[trigger] is_prime_spec(r) && (phi as nat) % r == 0 implies
            modpow_spec(g as nat, (phi as nat) / r, n as nat) != 1 by {
            if phi < 2 {
                vstd::arithmetic::div_mod::lemma_small_mod(phi as nat, r);
            } else {
                crate::arith::lemma_prime_in_factorization(r, factors@, mults@);
                let j = choose|j: int| 0 <= j < factors@.len() && factors@[j] == r;
                assert(modpow_spec(g as nat, (phi / factors@[j]) as nat, n as nat) != 1);
                assert((phi / factors@[j]) as nat == (phi as nat) / r);
            }
        }
    }
    crate::prime::mod_pow(g, phi, n) == 1
}

/// The least primitive root modulo `n` in `[start, stop)`; `NoPrimitiveRoot` when there is none.
pub fn primitive_root(n: u64, start: u64, stop: u64) -> (r: crate::error::Result<u64>)
    requires
        n > 0,
    ensures
        r matches Ok(g) ==> start <= g < stop && is_primitive_root_spec(g as nat, n as nat)
            && forall|h: nat| start <= h < g ==> !#[trigger] is_primitive_root_spec(h, n as nat),
        r matches Err(e) ==> e == crate::error::GaloisError::NoPrimitiveRoot(n)
            && forall|h: nat| start <= h < stop ==> !#[trigger] is_primitive_root_spec(h, n as nat),
{
    let mut g = start;
    while g < stop
        invariant
            n > 0,
            start <= g,
            forall|h: nat| start <= h < g ==> !#[trigger] is_primitive_root_spec(h, n as nat),
        decreases stop - g,
    {
        if is_primitive_root(g, n) {
            return Ok(g);
        }
        g = g + 1;
    }
    Err(crate::error::GaloisError::NoPrimitiveRoot(n))
}

/// All primitive roots modulo `n` in `[start, stop)`, ascending.
pub fn primitive_roots(n: u64, start: u64, stop: u64) -> (r: Vec<u64>)
    requires
        n > 0,
    ensures
        forall|i: int| 0 <= i < r@.len() ==> start <= #[trigger] r@[i] < stop && is_primitive_root_spec(r@[i] as nat, n as nat),
        forall|i: int, j: int| 0 <= i < j < r@.len() ==> r@[i] < r@[j],
        forall|h: u64| start <= h < stop && is_primitive_root_spec(h as nat, n as nat) ==> r@.contains(h),
{
    let mut out: Vec<u64> = Vec::new();
    let mut g = start;
    while g < stop
        invariant
            n > 0,
            start <= g,
            forall|i: int| 0 <= i < out@.len() ==> start <= #[trigger] out@[i] < g && is_primitive_root_spec(out@[i] as nat, n as nat),
            forall|i: int, j: int| 0 <= i < j < out@.len() ==> out@[i] < out@[j],
            forall|h: u64| start <= h < g && is_primitive_root_spec(h as nat, n as nat) ==> out@.contains(h),
            g <= stop || out@.len() == 0,
        decreases stop - g,
    {
        let ghost old_out = out@;
        if is_primitive_root(g, n) {
            out.push(g);
            assert(out@[out@.len() - 1] == g);
        }
        proof {
            assert forall|h: u64| start <= h < g + 1 && is_primitive_root_spec(h as nat, n as nat) implies out@.contains(h) by {
                if h == g {
                    assert(out@[out@.len() - 1] == g);
                } else {
                    assert(old_out.contains(h));
                    let i = choose|i: int| 0 <= i < old_out.len() && old_out[i] == h;
                    assert(out@[i] == h);
                }
            }
        }
        g = g + 1;
    }
    out
}

/// The primitive element of the field.
pub fn primitive_element(field: &GaloisField) -> (r: u64)
    ensures
        r == field.g(),
{
    field.primitive_element()
}

/// Whether `value` generates the multiplicative group of the field: nonzero,
/// `value^(q-1) = 1` and `value^((q-1)/r) != 1` for every prime `r` dividing `q - 1`.
pub fn is_primitive_element(value: u64, field: &GaloisField) -> (r: bool)
    requires
        field.wf(),
        value < field.q(),
    ensures
        r == (value != 0 && field.pow_spec(value as nat, (field.q() - 1) as nat) == 1
            && forall|t: nat| #[trigger] is_prime_spec(t) && ((field.q() - 1) as nat) % t == 0
                ==> field.pow_spec(value as nat, ((field.q() - 1) as nat) / t) != 1),
{
    if value == 0 {
        return false;
    }
    proof { field.lemma_q_ge_2(); }
    let q = field.order();
    let (factors, mults) = match crate::prime::factorize(q - 1) {
        Ok(x) => x,
        Err(_) => { return false; },
    };
    let mut i: usize = 0;
    while i < factors.len()
        invariant
            field.wf(),
            q == field.q(),
            q >= 2,
            1 <= value < q,
            q - 1 < 2 ==> factors@.len() == 0,
            q - 1 >= 2 ==> crate::arith::is_prime_factorization((q - 1) as nat, factors@, mults@),
            i <= factors@.len(),
            forall|j: int| 0 <= j < i ==> field.pow_spec(value as nat, ((q - 1) as u64 / #[trigger] factors@[j]) as nat) != 1,
        decreases factors@.len() - i,
    {
        let pr = factors[i];
        proof { assert(is_prime_spec(factors@[i as int] as nat)); }
        if field.pow(value, (q - 1) / pr) == 1 {
            proof {
                crate::field::factory::lemma_factor_divides(factors@, mults@, i as int);
                assert(is_prime_spec(pr as nat) && ((q - 1) as nat) % (pr as nat) == 0);
            }
            return false;
        }
        i = i + 1;
    }
    let full = field.pow(value, q - 1) == 1;
    proof {
        assert forall|t: nat| #[trigger] is_prime_spec(t) && ((q - 1) as nat) % t == 0 implies
            field.pow_spec(value as nat, ((q - 1) as nat) / t) != 1 by {
            if q - 1 < 2 {
                vstd::arithmetic::div_mod::lemma_small_mod((q - 1) as nat, t);
            } else {
                crate::arith::lemma_prime_in_factorization(t, factors@, mults@);
                let j = choose|j: int| 0 <= j < factors@.len() && factors@[j] == t;
                assert(field.pow_spec(value as nat, ((q - 1) as u64 / factors@[j]) as nat) != 1);
            }
        }
    }
    full
}

} // verus!
