//! Roots of polynomials over a `BigGaloisField`.

use vstd::prelude::*;
use crate::error::Result;
use crate::field::big_field::BigGaloisField;
use crate::field::bignum::BigValue;
use crate::poly::big_poly::{BigPoly, bp_horner, values_of, big_equiv};

verus! {

/// The elements `x < n` at which the polynomial with coefficients `a` vanishes, ascending.
pub open spec fn big_roots_below(a: Seq<nat>, n: int, f: BigGaloisField) -> Seq<nat>
    decreases n,
{
    if n <= 0 {
        Seq::empty()
    } else {
        let prev = big_roots_below(a, n - 1, f);
        if bp_horner(a, (n - 1) as nat, a.len() as int, f) == 0 { prev.push((n - 1) as nat) } else { prev }
    }
}

/// How far the root search goes: `min(q, 10000)` when the order fits in 64 bits, and
/// nowhere otherwise.
pub open spec fn big_root_limit(q: nat) -> int {
    if q > u64::MAX { 0 } else if q < 10000 { q as int } else { 10000 }
}

/// Horner's rule depends on the field only through its parameters.
proof fn lemma_bp_horner_equiv(a: Seq<nat>, x: nat, n: int, f1: BigGaloisField, f2: BigGaloisField)
    requires
        big_equiv(f1, f2),
    ensures
        bp_horner(a, x, n, f1) == bp_horner(a, x, n, f2),
    decreases n,
{
    if n > 0 {
        lemma_bp_horner_equiv(a, x, n - 1, f1, f2);
    }
}

/// The roots found below `n` depend on the field only through its parameters.
pub proof fn lemma_big_roots_below_equiv(a: Seq<nat>, n: int, f1: BigGaloisField, f2: BigGaloisField)
    requires
        big_equiv(f1, f2),
    ensures
        big_roots_below(a, n, f1) == big_roots_below(a, n, f2),
    decreases n,
{
    if n > 0 {
        lemma_big_roots_below_equiv(a, n - 1, f1, f2);
        lemma_bp_horner_equiv(a, (n - 1) as nat, a.len() as int, f1, f2);
    }
}

/// Every root found below `n` is below `n`.
pub proof fn lemma_big_roots_below_bound(a: Seq<nat>, n: int, f: BigGaloisField)
    ensures
        forall|t: int| 0 <= t < big_roots_below(a, n, f).len() ==> (#[trigger] big_roots_below(a, n, f)[t]) < n,
    decreases n,
{
    if n > 0 {
        lemma_big_roots_below_bound(a, n - 1, f);
        let prev = big_roots_below(a, n - 1, f);
        let cur = big_roots_below(a, n, f);
        assert forall|t: int| 0 <= t < cur.len() implies #[trigger] cur[t] < n by {
            if t < prev.len() {
                assert(cur[t] == prev[t]);
            }
        }
    }
}

/// The roots among the elements below `min(q, 10000)` (none when the order does not fit in
/// 64 bits), ascending; never an error.
pub fn big_roots(poly: &BigPoly) -> (r: Result<Vec<BigValue>>)
    requires
        poly.wf(),
    ensures
        r matches Ok(v) && values_of(v@) == big_roots_below(poly.coeffs_view(),
            big_root_limit(poly.field_view().q()), poly.field_view()),
{
    let field = poly.field();
    let limit: u64 = match field.order().to_u64() {
        Some(q) => if q < 10000 { q } else { 10000 },
        None => 0,
    };
    let ghost a = poly.coeffs_view();
    let ghost f = poly.field_view();
    let mut found: Vec<BigValue> = Vec::new();
    let mut x: u64 = 0;
    while x < limit
        invariant
            poly.wf(),
            a == poly.coeffs_view(),
            f == poly.field_view(),
            limit == big_root_limit(f.q()),
            x <= limit,
            values_of(found@) == big_roots_below(a, x as int, f),
        decreases limit - x,
    {
        let v = BigValue::from_u64(x);
        let zero = match poly.evaluate(&v) {
            Ok(y) => y.is_zero(),
            Err(_) => false,
        };
        if zero {
            found.push(v);
            assert(values_of(found@) =~= big_roots_below(a, x as int, f).push(x as nat));
        }
        x = x + 1;
    }
    Ok(found)
}

} // verus!
