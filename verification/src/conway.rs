//! Default irreducible polynomials for GF(p^m).

use vstd::prelude::*;
use crate::arith::{is_prime_spec, npow};
use crate::error::{GaloisError, Result};
use crate::field::model::{digits, lemma_digits_bound};
use crate::poly::integer::strip_trailing;
use crate::poly::prime::{PrimePoly, zp_irreducible, reduce_coeffs};

verus! {

/// Dense ascending coefficients of degree `m` from sparse `(degree, coefficient)` pairs:
/// pairs beyond degree `m` are ignored, later pairs win, and a zero leading coefficient is
/// replaced by one.
pub open spec fn dense_coeffs(degrees: Seq<u32>, coeffs: Seq<u64>, m: nat) -> Seq<u64>
    decreases degrees.len(),
{
    let n = if degrees.len() <= coeffs.len() { degrees.len() } else { coeffs.len() };
    if n == 0 {
        Seq::new(m + 1, |i: int| 0u64)
    } else {
        let prev = dense_coeffs(degrees.subrange(0, n - 1), coeffs.subrange(0, n - 1), m);
        let d = degrees[n - 1] as int;
        if d <= m { prev.update(d, coeffs[n - 1]) } else { prev }
    }
}

/// `dense_coeffs` with the leading coefficient forced to be nonzero.
pub open spec fn sparse_to_dense_spec(degrees: Seq<u32>, coeffs: Seq<u64>, m: nat) -> Seq<u64> {
    let d = dense_coeffs(degrees, coeffs, m);
    if d[m as int] == 0 { d.update(m as int, 1u64) } else { d }
}

/// Converts sparse `(degree, coefficient)` pairs to dense ascending coefficients of degree `m`
/// whose leading coefficient is nonzero.
pub fn sparse_to_dense(degrees: &[u32], coeffs: &[u64], m: u32) -> (r: Vec<u64>)
    requires
        m as int + 1 <= isize::MAX,
    ensures
        r@ == sparse_to_dense_spec(degrees@, coeffs@, m as nat),
        r@.len() == m as nat + 1,
{
    let len: usize = m as usize + 1;
    let mut dense: Vec<u64> = vec![0u64; len];
    let n: usize = if degrees.len() <= coeffs.len() { degrees.len() } else { coeffs.len() };
    let mut i: usize = 0;
    assert(dense@ =~= dense_coeffs(degrees@.subrange(0, 0), coeffs@.subrange(0, 0), m as nat));
    while i < n
        invariant
            len == m as nat + 1,
            n <= degrees@.len(),
            n <= coeffs@.len(),
            i <= n,
            dense@ == dense_coeffs(degrees@.subrange(0, i as int), coeffs@.subrange(0, i as int), m as nat),
            dense@.len() == len,
        decreases n - i,
    {
        let ghost ds = degrees@.subrange(0, i + 1);
        let ghost cs = coeffs@.subrange(0, i + 1);
        assert(ds.subrange(0, i as int) =~= degrees@.subrange(0, i as int));
        assert(cs.subrange(0, i as int) =~= coeffs@.subrange(0, i as int));
        let d = degrees[i];
        if d <= m {
            dense.set(d as usize, coeffs[i]);
        }
        i = i + 1;
    }
    assert(degrees@.subrange(0, n as int) =~= degrees@.subrange(0, degrees@.len() as int).subrange(0, n as int));
    proof {
        lemma_dense_prefix(degrees@, coeffs@, m as nat, n as int);
    }
    if dense[m as usize] == 0 {
        dense.set(m as usize, 1);
    }
    dense
}

/// Only the first `min(len)` pairs matter.
proof fn lemma_dense_prefix(degrees: Seq<u32>, coeffs: Seq<u64>, m: nat, n: int)
    requires
        n == (if degrees.len() <= coeffs.len() { degrees.len() } else { coeffs.len() }),
    ensures
        dense_coeffs(degrees, coeffs, m) == dense_coeffs(degrees.subrange(0, n), coeffs.subrange(0, n), m),
{
    let ds = degrees.subrange(0, n);
    let cs = coeffs.subrange(0, n);
    if n > 0 {
        assert(ds.subrange(0, n - 1) =~= degrees.subrange(0, n - 1));
        assert(cs.subrange(0, n - 1) =~= coeffs.subrange(0, n - 1));
    }
}

/// The monic polynomial of degree `m` whose lower coefficients are the base-`p` digits of `low`.
pub open spec fn monic_candidate(low: nat, p: nat, m: nat) -> Seq<u64> {
    digits(low, p, m).push(1u64)
}

/// The first monic irreducible polynomial of degree `m` over GF(p), candidates ordered by the
/// integer whose base-`p` digits are their lower coefficients.
pub open spec fn is_first_irreducible(f: Seq<u64>, p: nat, m: nat) -> bool {
    exists|low: nat| low < npow(p, m) && f == #[trigger] monic_candidate(low, p, m)
        && zp_irreducible(f, p)
        && forall|l: nat| l < low ==> !zp_irreducible(#[trigger] monic_candidate(l, p, m), p)
}

/// Some monic polynomial of degree `m` over GF(p) is irreducible.
pub open spec fn has_irreducible(p: nat, m: nat) -> bool {
    exists|l: nat| l < npow(p, m) && #[trigger] zp_irreducible(monic_candidate(l, p, m), p)
}

/// Searches for the first monic irreducible polynomial of degree `m >= 1` over GF(p).
fn first_irreducible(p: u64, m: u32) -> (r: Result<PrimePoly>)
    requires
        is_prime_spec(p as nat),
        1 <= m,
    ensures
        r matches Ok(f) ==> f.wf() && f.prime() == p && is_first_irreducible(f.coeffs_view(), p as nat, m as nat),
        r matches Err(e) ==> e == (GaloisError::IrreduciblePolyNotFound { characteristic: p, degree: m })
            && (npow(p as nat, m as nat) > u64::MAX
                || forall|l: nat| l < npow(p as nat, m as nat) ==> !zp_irreducible(#[trigger] monic_candidate(l, p as nat, m as nat), p as nat)),
{
    let count = match crate::prime::checked_npow(p, m) {
        Some(c) => c,
        None => { return Err(GaloisError::IrreduciblePolyNotFound { characteristic: p, degree: m }); },
    };
    if m > 64 {
        proof {
            crate::prime::lemma_pow2_64_exceeds();
            crate::arith::lemma_npow_mono_base(2, p as nat, m as nat);
            crate::prime::lemma_npow_mono_exp(2, 64, m as nat);
        }
        return Err(GaloisError::IrreduciblePolyNotFound { characteristic: p, degree: m });
    }
    let mut low: u64 = 0;
    while low < count
        invariant
            is_prime_spec(p as nat),
            1 <= m <= 64,
            count as nat == npow(p as nat, m as nat),
            low <= count,
            forall|l: nat| l < low ==> !zp_irreducible(#[trigger] monic_candidate(l, p as nat, m as nat), p as nat),
        decreases count - low,
    {
        let mut c = digits_vec(low, p, m);
        c.push(1);
        proof {
            lemma_digits_bound(low as nat, p as nat, m as nat);
            assert(c@ == monic_candidate(low as nat, p as nat, m as nat));
            assert(reduce_coeffs(c@, p as nat) =~= c@) by {
                assert forall|i: int| 0 <= i < c@.len() implies #[trigger] reduce_coeffs(c@, p as nat)[i] == c@[i] by {
                    vstd::arithmetic::div_mod::lemma_small_mod(c@[i] as nat, p as nat);
                }
            }
            assert(strip_trailing(c@) == c@);
        }
        let f = PrimePoly::from_parts(p, c);
        if f.is_irreducible() {
            return Ok(f);
        }
        low = low + 1;
    }
    Err(GaloisError::IrreduciblePolyNotFound { characteristic: p, degree: m })
}

/// The `m` base-`p` digits of `v`.
pub(crate) fn digits_vec(v: u64, p: u64, m: u32) -> (r: Vec<u64>)
    requires
        p >= 2,
    ensures
        r@ == digits(v as nat, p as nat, m as nat),
{
    let mut out: Vec<u64> = Vec::new();
    let mut w = v;
    let mut i: u32 = 0;
    proof { crate::arith::lemma_npow_zero(p as nat); }
    while i < m
        invariant
            p >= 2,
            i <= m,
            w as nat == v as nat / npow(p as nat, i as nat),
            out@ =~= digits(v as nat, p as nat, m as nat).subrange(0, i as int),
        decreases m - i,
    {
        out.push(w % p);
        proof { crate::field::model::lemma_div_step(v as nat, p as nat, i as nat); }
        w = w / p;
        i = i + 1;
    }
    out
}

/// A monic irreducible polynomial of degree `m` over GF(p): `x` for `m = 1`, otherwise the
/// first one in the search order of `is_first_irreducible`.
pub fn irreducible_poly(p: u64, m: u32) -> (r: Result<PrimePoly>)
    ensures
        m == 0 ==> r == Err::<PrimePoly, GaloisError>(GaloisError::InvalidDegree(0)),
        m >= 1 && !is_prime_spec(p as nat) ==> r == Err::<PrimePoly, GaloisError>(GaloisError::InvalidCharacteristic(p)),
        m == 1 && is_prime_spec(p as nat) ==> (r matches Ok(f) && f.wf() && f.prime() == p && f.coeffs_view() == seq![0u64, 1u64]),
        m > 1 && is_prime_spec(p as nat) ==> (r matches Ok(f) ==> f.wf() && f.prime() == p
            && is_first_irreducible(f.coeffs_view(), p as nat, m as nat)),
        m > 1 && is_prime_spec(p as nat) ==> (r matches Err(e) ==> e == (GaloisError::IrreduciblePolyNotFound {
            characteristic: p, degree: m })),
{
    if m == 0 {
        return Err(GaloisError::InvalidDegree(0));
    }
    default_irreducible(p, m)
}

/// The default irreducible polynomial of GF(p^m): `x` for `m = 1`, otherwise the first monic
/// irreducible polynomial of degree `m` in the search order of `is_first_irreducible`.
pub fn default_irreducible(p: u64, m: u32) -> (r: Result<PrimePoly>)
    ensures
        !is_prime_spec(p as nat) ==> r == Err::<PrimePoly, GaloisError>(GaloisError::InvalidCharacteristic(p)),
        m == 1 && is_prime_spec(p as nat) ==> (r matches Ok(f) && f.wf() && f.prime() == p && f.coeffs_view() == seq![0u64, 1u64]),
        m != 1 && is_prime_spec(p as nat) ==> (r matches Ok(f) ==> f.wf() && f.prime() == p
            && is_first_irreducible(f.coeffs_view(), p as nat, m as nat)),
        m != 1 && is_prime_spec(p as nat) ==> (r matches Err(e) ==> e == (GaloisError::IrreduciblePolyNotFound {
            characteristic: p, degree: m })),
        m > 1 && is_prime_spec(p as nat) && npow(p as nat, m as nat) <= u64::MAX && has_irreducible(p as nat, m as nat)
            ==> r is Ok,
{
    if !crate::prime::is_prime(p) {
        return Err(GaloisError::InvalidCharacteristic(p));
    }
    if m == 1 {
        return PrimePoly::x(p);
    }
    if m == 0 {
        return Err(GaloisError::IrreduciblePolyNotFound { characteristic: p, degree: m });
    }
    first_irreducible(p, m)
}

/// The Conway polynomial C_{p,m} from its sparse `(degree, coefficient)` description.
pub fn conway_poly(p: u64, m: u32, degrees: &[u32], coeffs: &[u64]) -> (r: Result<PrimePoly>)
    requires
        m as int + 1 <= isize::MAX,
    ensures
        !is_prime_spec(p as nat) ==> r == Err::<PrimePoly, GaloisError>(GaloisError::InvalidCharacteristic(p)),
        is_prime_spec(p as nat) ==> (r matches Ok(f) && f.wf() && f.prime() == p
            && f.coeffs_view() == strip_trailing(reduce_coeffs(sparse_to_dense_spec(degrees@, coeffs@, m as nat), p as nat))),
{
    let dense = sparse_to_dense(degrees, coeffs, m);
    PrimePoly::new(p, dense)
}

} // verus!
