//! The number-theoretic transform over a prime field and its inverse.

use vstd::prelude::*;
use crate::arith::is_prime_spec;
use crate::error::{GaloisError, Result};
use crate::field::array::{FieldArray, all_below};
use crate::field::factory::GaloisField;
use crate::primitive_root::{primitive_root, is_primitive_root_spec};
use crate::prime::is_prime;

verus! {

/// `sum_{j < upto} x_j w^((j k) mod n)`, accumulated from the left.
pub open spec fn dft_sum(f: GaloisField, x: Seq<u64>, w: nat, n: nat, k: nat, upto: nat) -> nat
    decreases upto,
{
    if upto == 0 {
        0
    } else {
        f.add_spec(dft_sum(f, x, w, n, k, (upto - 1) as nat),
            f.mul_spec(x[upto - 1] as nat, f.pow_spec(w, (((upto - 1) as nat) * k) % n)))
    }
}

/// The discrete Fourier transform of length `n` with root `w`: entry `k` is
/// `sum_j x_j w^(j k)`.
pub open spec fn dft(f: GaloisField, x: Seq<u64>, w: nat, n: nat) -> Seq<u64> {
    Seq::new(n, |k: int| dft_sum(f, x, w, n, k as nat, n) as u64)
}

/// `y` is a discrete Fourier transform, over `f` and with some root, of `x` padded to the
/// length of `y`.
pub open spec fn is_transform_of(y: Seq<u64>, f: GaloisField, x: Seq<u64>) -> bool {
    exists|w: nat| y == #[trigger] dft(f, padded(x, y.len()), w, y.len())
}

/// `y` is the inverse transform of `x` padded to the length `n` of `y`: a discrete Fourier
/// transform with some root, each entry multiplied by `1/n` when `scaled`.
pub open spec fn is_inverse_transform_of(y: Seq<u64>, f: GaloisField, x: Seq<u64>, scaled: bool) -> bool {
    exists|w: nat| #[trigger] inverse_dft(f, padded(x, y.len()), w, y.len(), scaled) == y
}

/// The discrete Fourier transform with root `w`, each entry times `1/n` when `scaled`.
pub open spec fn inverse_dft(f: GaloisField, x: Seq<u64>, w: nat, n: nat, scaled: bool) -> Seq<u64> {
    let d = dft(f, x, w, n);
    if scaled { Seq::new(n, |k: int| f.mul_spec(d[k] as nat, f.div_spec(1, n)) as u64) } else { d }
}

/// The transform can run with the given modulus `p`: the length `n` (the size, or that of
/// `x`) holds `x`, `p` is a prime above every entry with `n` dividing `p - 1`, GF(p) can be
/// built, and there is a primitive root modulo `p` from two on.
pub open spec fn ntt_runs(x: Seq<u64>, size: Option<usize>, p: u64) -> bool {
    let n: nat = if size is Some { size->0 as nat } else { x.len() };
    &&& n >= x.len()
    &&& n >= 1
    &&& is_prime_spec(p as nat)
    &&& (p - 1) % (n as int) == 0
    &&& p > max_entry(x)
    &&& crate::field::factory::options_succeed(p, 1, None, None, true)
    &&& exists|h: nat| 2 <= h < p && #[trigger] is_primitive_root_spec(h, p as nat)
}

/// The input padded with zeros to length `n`.
pub open spec fn padded(x: Seq<u64>, n: nat) -> Seq<u64> {
    Seq::new(n, |j: int| if j < x.len() { x[j] } else { 0u64 })
}

/// The largest entry, zero for none.
pub open spec fn max_entry(x: Seq<u64>) -> nat
    decreases x.len(),
{
    if x.len() == 0 { 0 } else {
        let m = max_entry(x.drop_last());
        if x.last() as nat > m { x.last() as nat } else { m }
    }
}

proof fn lemma_max_entry(x: Seq<u64>)
    ensures
        forall|j: int| 0 <= j < x.len() ==> #[trigger] x[j] <= max_entry(x),
    decreases x.len(),
{
    if x.len() > 0 {
        lemma_max_entry(x.drop_last());
        assert forall|j: int| 0 <= j < x.len() implies #[trigger] x[j] <= max_entry(x) by {
            if j < x.len() - 1 {
                assert(x[j] == x.drop_last()[j]);
            }
        }
    }
}

fn max_value(x: &[u64]) -> (r: u64)
    ensures
        r == max_entry(x@),
        forall|j: int| 0 <= j < x@.len() ==> #[trigger] x@[j] <= r,
{
    let mut m: u64 = 0;
    let mut i: usize = 0;
    while i < x.len()
        invariant
            i <= x@.len(),
            m == max_entry(x@.subrange(0, i as int)),
            forall|j: int| 0 <= j < i ==> #[trigger] x@[j] <= m,
        decreases x@.len() - i,
    {
        assert(x@.subrange(0, i + 1).drop_last() =~= x@.subrange(0, i as int));
        if x[i] > m {
            m = x[i];
        }
        i = i + 1;
    }
    assert(x@.subrange(0, x@.len() as int) =~= x@);
    m
}

/// The first multiplier tried for the default modulus: `max(max_val / n, 1)`.
pub open spec fn ntt_first_multiplier(max_val: nat, n: nat) -> nat {
    if max_val / n >= 1 { max_val / n } else { 1 }
}

/// `c n + 1` is a prime above `max_val`.
pub open spec fn ntt_candidate_ok(c: nat, max_val: nat, n: nat) -> bool {
    is_prime_spec(c * n + 1) && c * n + 1 > max_val
}

/// `p` is the least prime of the form `c n + 1` with `c >= max(max_val / n, 1)` that
/// exceeds `max_val`.
pub open spec fn is_default_ntt_modulus(p: nat, max_val: nat, n: nat) -> bool {
    &&& n >= 1
    &&& p >= 1
    &&& (p - 1) % (n as int) == 0
    &&& ((p - 1) / (n as int)) as nat >= ntt_first_multiplier(max_val, n)
    &&& ntt_candidate_ok(((p - 1) / (n as int)) as nat, max_val, n)
    &&& forall|c: nat| ntt_first_multiplier(max_val, n) <= c < (p - 1) / (n as int) ==> !#[trigger] ntt_candidate_ok(c, max_val, n)
}

/// The first prime `c n + 1` above `max_val` with `c` from `max(max_val / n, 1)` up to a
/// million; `NttModulusInvalid(0)` when there is none (or the candidate overflows).
fn find_ntt_modulus(max_val: u64, n: u64) -> (r: Result<u64>)
    requires
        n >= 1,
    ensures
        r matches Ok(c) ==> is_prime_spec(c as nat) && c > max_val && (c - 1) % (n as int) == 0
            && is_default_ntt_modulus(c as nat, max_val as nat, n as nat),
        r matches Err(e) ==> e == GaloisError::NttModulusInvalid(0),
{
    let mut m: u64 = if max_val / n >= 1 { max_val / n } else { 1 };
    assert(m == ntt_first_multiplier(max_val as nat, n as nat));
    loop
        invariant
            n >= 1,
            m >= 1,
            m >= ntt_first_multiplier(max_val as nat, n as nat),
            forall|c: nat| ntt_first_multiplier(max_val as nat, n as nat) <= c < m
                ==> !#[trigger] ntt_candidate_ok(c, max_val as nat, n as nat),
        decreases 1_000_001 - m,
    {
        if m > 1_000_000 {
            return Err(GaloisError::NttModulusInvalid(0));
        }
        let candidate = match m.checked_mul(n) {
            Some(v) if v < u64::MAX => v + 1,
            _ => { return Err(GaloisError::NttModulusInvalid(0)); },
        };
        assert(candidate as nat == m as nat * n as nat + 1);
        if is_prime(candidate) && candidate > max_val {
            proof {
                vstd::arithmetic::div_mod::lemma_mod_multiples_basic(m as int, n as int);
                vstd::arithmetic::div_mod::lemma_div_multiples_vanish(m as int, n as int);
                assert((candidate - 1) / (n as int) == m);
                assert(ntt_candidate_ok(m as nat, max_val as nat, n as nat));
            }
            return Ok(candidate);
        }
        assert(!ntt_candidate_ok(m as nat, max_val as nat, n as nat));
        m = m + 1;
    }
}

/// `dft(data, w)` computed entry by entry.
fn dft_exec(data: &Vec<u64>, field: &GaloisField, w: u64) -> (r: Vec<u64>)
    requires
        field.wf(),
        w < field.q(),
        all_below(data@, field.q()),
    ensures
        r@ == dft(*field, data@, w as nat, data@.len()),
        all_below(r@, field.q()),
{
    let n = data.len();
    let mut out: Vec<u64> = Vec::new();
    let mut k: usize = 0;
    while k < n
        invariant
            field.wf(),
            w < field.q(),
            n == data@.len(),
            all_below(data@, field.q()),
            k <= n,
            out@ =~= dft(*field, data@, w as nat, n as nat).subrange(0, k as int),
            all_below(out@, field.q()),
        decreases n - k,
    {
        let mut sum: u64 = 0;
        let mut j: usize = 0;
        while j < n
            invariant
                field.wf(),
                w < field.q(),
                n == data@.len(),
                all_below(data@, field.q()),
                k < n,
                j <= n,
                sum < field.q(),
                sum == dft_sum(*field, data@, w as nat, n as nat, k as nat, j as nat),
            decreases n - j,
        {
            proof {
                assert((j as int) * (k as int) <= 0xffff_ffff_ffff_ffffint * 0xffff_ffff_ffff_ffffint) by (nonlinear_arith)
                    requires j <= 0xffff_ffff_ffff_ffffint, k <= 0xffff_ffff_ffff_ffffint, j >= 0, k >= 0;
                vstd::arithmetic::div_mod::lemma_mod_bound((j as int) * (k as int), n as int);
            }
            let e: u128 = ((j as u128) * (k as u128)) % (n as u128);
            let t = field.pow(w, e as u64);
            let term = field.mul(data[j], t);
            sum = field.add(sum, term);
            j = j + 1;
        }
        out.push(sum);
        k = k + 1;
    }
    out
}

/// The checks of the transform that do not depend on the field, in order; the length,
/// the modulus and its root of unity when they pass.
fn ntt_setup(x: &[u64], size: Option<usize>, modulus: Option<u64>) -> (r: Result<(usize, u64)>)
    requires
        size matches Some(s) ==> s >= 1,
        size is None ==> x@.len() >= 1,
    ensures
        r matches Ok((n, p)) ==> n >= 1 && n >= x@.len() && is_prime_spec(p as nat) && (p - 1) % (n as int) == 0
            && p > max_entry(x@) && n == (if size is Some { size->0 } else { x@.len() as usize }),
        (if size is Some { size->0 } else { x@.len() as usize }) < x@.len() ==> r == Err::<(usize, u64), GaloisError>(
            GaloisError::NttInvalidSize { size: if size is Some { size->0 } else { x@.len() as usize }, input_len: x@.len() as usize }),
        modulus is Some && ntt_runs(x@, size, modulus->0) ==> r == Ok::<(usize, u64), GaloisError>(
            ((if size is Some { size->0 } else { x@.len() as usize }), modulus->0)),
        modulus is None ==> (r matches Ok((n, p)) ==> is_default_ntt_modulus(p as nat, max_entry(x@), n as nat)),
{
    let n = match size {
        Some(s) => s,
        None => x.len(),
    };
    if n < x.len() {
        return Err(GaloisError::NttInvalidSize { size: n, input_len: x.len() });
    }
    let max_val = max_value(x);
    let p = match modulus {
        Some(m) => m,
        None => match find_ntt_modulus(max_val, n as u64) {
            Ok(c) => c,
            Err(e) => { return Err(e); },
        },
    };
    if !is_prime(p) {
        return Err(GaloisError::NttModulusNotPrime(p));
    }
    if (p - 1) % (n as u64) != 0 {
        return Err(GaloisError::NttModulusInvalid(p));
    }
    if p <= max_val {
        return Err(GaloisError::NttModulusTooSmall { modulus: p, max_value: max_val });
    }
    Ok((n, p))
}

/// The transform over GF(p), forward with the root `w^((p-1)/n)` of a primitive root `w`,
/// or inverse with its inverse (divided by `n` when `scaled`).
fn ntt_inner(x: &[u64], size: Option<usize>, modulus: Option<u64>, forward: bool, scaled: bool) -> (r: Result<FieldArray>)
    requires
        size matches Some(s) ==> s >= 1,
        size is None ==> x@.len() >= 1,
    ensures
        (if size is Some { size->0 } else { x@.len() as usize }) < x@.len() ==> r == Err::<FieldArray, GaloisError>(
            GaloisError::NttInvalidSize { size: if size is Some { size->0 } else { x@.len() as usize }, input_len: x@.len() as usize }),
        r matches Ok(a) ==> a.wf() && a.field_view().m() == 1
            && a.values_view().len() == (if size is Some { size->0 } else { x@.len() as usize })
            && (forward ==> is_transform_of(a.values_view(), a.field_view(), x@))
            && (!forward ==> is_inverse_transform_of(a.values_view(), a.field_view(), x@, scaled)),
        modulus is Some && ntt_runs(x@, size, modulus->0) ==> (r matches Ok(a) && a.field_view().p() == modulus->0),
        modulus is None ==> (r matches Ok(a) ==> is_default_ntt_modulus(a.field_view().p(), max_entry(x@),
            (if size is Some { size->0 } else { x@.len() as usize }) as nat)),
{
    let (n, p) = match ntt_setup(x, size, modulus) {
        Ok(v) => v,
        Err(e) => { return Err(e); },
    };
    let field = match GaloisField::new(p, 1) {
        Ok(f) => f,
        Err(e) => { return Err(e); },
    };
    proof {
        field.lemma_q_ge_2();
        crate::arith::lemma_npow_one(p as nat);
    }
    proof { lemma_max_entry(x@); }
    let mut data: Vec<u64> = Vec::new();
    let mut i: usize = 0;
    while i < n
        invariant
            field.wf(),
            field.q() == p,
            p > max_entry(x@),
            n >= x@.len(),
            forall|j: int| 0 <= j < x@.len() ==> #[trigger] x@[j] <= max_entry(x@),
            i <= n,
            data@ =~= padded(x@, n as nat).subrange(0, i as int),
            all_below(data@, field.q()),
        decreases n - i,
    {
        let v: u64 = if i < x.len() { x[i] } else { 0 };
        data.push(v);
        i = i + 1;
    }
    assert(data@ =~= padded(x@, n as nat));
    let m = (p - 1) / (n as u64);
    let omega_p = match primitive_root(p, 2, p) {
        Ok(g) => g,
        Err(e) => { return Err(e); },
    };
    let omega_n = field.pow(omega_p, m);
    proof {
        if field.pow_spec(omega_p as nat, m as nat) == 0 {
            if m != 0 {
                field.lemma_dlog(omega_p as nat);
                let i = ((field.dlog(omega_p as nat) * (m as nat)) as int % ((field.q() - 1) as int)) as nat;
                field.lemma_power_table(i);
            }
        }
    }
    if forward {
        let out = dft_exec(&data, &field, omega_n);
        let a = FieldArray::new(field, out);
        assert(a.values_view() == dft(a.field_view(), padded(x@, a.values_view().len()), omega_n as nat, a.values_view().len()));
        assert(is_transform_of(a.values_view(), a.field_view(), x@));
        return Ok(a);
    }
    let inv_omega = match field.div(1, omega_n) {
        Ok(v) => v,
        Err(e) => { return Err(e); },
    };
    let mut out = dft_exec(&data, &field, inv_omega);
    if scaled {
        proof {
            assert(n as u64 <= p - 1) by {
                vstd::arithmetic::div_mod::lemma_fundamental_div_mod((p - 1) as int, n as int);
                assert((p - 1) as int == (n as int) * ((p - 1) as int / (n as int)));
                assert((p - 1) as int / (n as int) >= 1) by {
                    if (p - 1) as int / (n as int) <= 0 {
                        assert((n as int) * ((p - 1) as int / (n as int)) <= 0) by (nonlinear_arith)
                            requires (p - 1) as int / (n as int) <= 0, n >= 1;
                    }
                }
                assert((n as int) * ((p - 1) as int / (n as int)) >= n) by (nonlinear_arith)
                    requires (p - 1) as int / (n as int) >= 1, n >= 1;
            }
        }
        let inv_n = match field.div(1, n as u64) {
            Ok(v) => v,
            Err(e) => { return Err(e); },
        };
        let ghost d0 = out@;
        let mut k: usize = 0;
        while k < out.len()
            invariant
                field.wf(),
                inv_n < field.q(),
                k <= out@.len(),
                out@.len() == n,
                d0.len() == n,
                all_below(out@, field.q()),
                forall|j: int| 0 <= j < k ==> #[trigger] out@[j] as nat == field.mul_spec(d0[j] as nat, inv_n as nat),
                forall|j: int| k <= j < n ==> #[trigger] out@[j] == d0[j],
            decreases out@.len() - k,
        {
            let v = field.mul(out[k], inv_n);
            out.set(k, v);
            k = k + 1;
        }
        assert(out@ =~= inverse_dft(field, data@, inv_omega as nat, n as nat, true));
    } else {
        assert(out@ =~= inverse_dft(field, data@, inv_omega as nat, n as nat, false));
    }
    let a = FieldArray::new(field, out);
    assert(a.values_view() == inverse_dft(a.field_view(), padded(x@, a.values_view().len()), inv_omega as nat,
        a.values_view().len(), scaled));
    Ok(a)
}

/// The number-theoretic transform of `x` (padded with zeros to `size`) over GF(modulus),
/// the modulus defaulting to the first prime `c n + 1` above the entries: the discrete
/// Fourier transform with an `n`-th root of unity taken from a primitive root.
pub fn ntt(x: &[u64], size: Option<usize>, modulus: Option<u64>) -> (r: Result<FieldArray>)
    requires
        size matches Some(s) ==> s >= 1,
        size is None ==> x@.len() >= 1,
    ensures
        (if size is Some { size->0 } else { x@.len() as usize }) < x@.len() ==> r == Err::<FieldArray, GaloisError>(
            GaloisError::NttInvalidSize { size: if size is Some { size->0 } else { x@.len() as usize }, input_len: x@.len() as usize }),
        r matches Ok(a) ==> a.wf() && a.field_view().m() == 1
            && a.values_view().len() == (if size is Some { size->0 } else { x@.len() as usize })
            && is_transform_of(a.values_view(), a.field_view(), x@),
        modulus is Some && ntt_runs(x@, size, modulus->0) ==> (r matches Ok(a) && a.field_view().p() == modulus->0),
        modulus is None ==> (r matches Ok(a) ==> is_default_ntt_modulus(a.field_view().p(), max_entry(x@),
            (if size is Some { size->0 } else { x@.len() as usize }) as nat)),
{
    ntt_inner(x, size, modulus, true, true)
}

/// The inverse transform: the discrete Fourier transform with the inverse root of unity,
/// divided by `n` when `scaled`.
pub fn intt(x: &[u64], size: Option<usize>, modulus: Option<u64>, scaled: bool) -> (r: Result<FieldArray>)
    requires
        size matches Some(s) ==> s >= 1,
        size is None ==> x@.len() >= 1,
    ensures
        (if size is Some { size->0 } else { x@.len() as usize }) < x@.len() ==> r == Err::<FieldArray, GaloisError>(
            GaloisError::NttInvalidSize { size: if size is Some { size->0 } else { x@.len() as usize }, input_len: x@.len() as usize }),
        r matches Ok(a) ==> a.wf() && a.field_view().m() == 1
            && a.values_view().len() == (if size is Some { size->0 } else { x@.len() as usize })
            && is_inverse_transform_of(a.values_view(), a.field_view(), x@, scaled),
        modulus is Some && ntt_runs(x@, size, modulus->0) ==> (r matches Ok(a) && a.field_view().p() == modulus->0),
        modulus is None ==> (r matches Ok(a) ==> is_default_ntt_modulus(a.field_view().p(), max_entry(x@),
            (if size is Some { size->0 } else { x@.len() as usize }) as nat)),
{
    ntt_inner(x, size, modulus, false, scaled)
}

} // verus!
