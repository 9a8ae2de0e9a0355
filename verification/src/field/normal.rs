//! Normal elements: elements whose conjugates `a, a^p, ..., a^(p^(m-1))` form a basis of
//! GF(p^m) over GF(p).

use vstd::prelude::*;
use crate::error::{GaloisError, Result};
use crate::field::array::all_below;
use crate::field::factory::GaloisField;
use crate::poly::field_poly::{Poly, gp_gcd, strip_leading, poly_gcd};

verus! {

/// `a^(p^i)`: the `i`-th conjugate, by repeated `p`-th powers.
pub open spec fn conjugate(field: GaloisField, a: nat, i: nat) -> nat
    decreases i,
{
    if i == 0 { a } else { field.pow_spec(conjugate(field, a, (i - 1) as nat), field.p()) }
}

/// `sum_{i < m} a^(p^i) x^(m-1-i)`, highest degree first, before stripping.
pub open spec fn conjugate_coeffs(field: GaloisField, a: nat) -> Seq<u64> {
    Seq::new(field.m(), |i: int| conjugate(field, a, i as nat) as u64)
}

/// `x^m - 1`, highest degree first.
pub open spec fn x_m_minus_one(field: GaloisField) -> Seq<u64> {
    Seq::new(field.m() + 1, |i: int| if i == 0 { 1u64 } else if i == field.m() { field.neg_spec(1) as u64 } else { 0u64 })
}

/// `a` is normal: `gcd(x^m - 1, sum a^(p^i) x^(m-1-i)) = 1` over the field.
pub open spec fn is_normal_spec(field: GaloisField, a: nat) -> bool {
    if field.m() == 1 {
        a != 0
    } else {
        gp_gcd(x_m_minus_one(field), strip_leading(conjugate_coeffs(field, a)), field.model()) == seq![1u64]
    }
}

/// Whether `element` is a normal element; `InvalidElement` when it is not an element of an
/// extension field.
pub fn is_normal_element(element: u64, field: &GaloisField) -> (r: Result<bool>)
    requires
        field.wf(),
    ensures
        field.m() == 1 ==> r == Ok::<bool, GaloisError>(element != 0),
        field.m() > 1 && element >= field.q() ==> r == Err::<bool, GaloisError>(GaloisError::InvalidElement {
            value: element, characteristic: field.p() as u64, degree: field.m() as u32 }),
        field.m() > 1 && element < field.q() ==> (r matches Ok(b) && b == is_normal_spec(*field, element as nat)),
{
    let m = field.degree();
    if m == 1 {
        return Ok(element != 0);
    }
    let a = match field.validate_element(element) {
        Ok(v) => v,
        Err(e) => { return Err(e); },
    };
    proof { field.lemma_q_ge_2(); }
    let p = field.characteristic();
    let mut conj: Vec<u64> = Vec::new();
    let mut c = a;
    let mut i: u32 = 0;
    while i < m
        invariant
            field.wf(),
            m == field.m(),
            p == field.p(),
            i <= m,
            c < field.q(),
            c == conjugate(*field, a as nat, i as nat),
            conj@ =~= conjugate_coeffs(*field, a as nat).subrange(0, i as int),
            all_below(conj@, field.q()),
        decreases m - i,
    {
        conj.push(c);
        c = field.pow(c, p);
        i = i + 1;
    }
    assert(conj@ =~= conjugate_coeffs(*field, a as nat));
    let mut xm: Vec<u64> = Vec::new();
    let minus_one = field.neg(1);
    let mut t: u32 = 0;
    while t <= m
        invariant
            field.wf(),
            m == field.m(),
            m <= 64,
            t <= m + 1,
            minus_one == field.neg_spec(1),
            minus_one < field.q(),
            field.q() >= 2,
            xm@ =~= x_m_minus_one(*field).subrange(0, t as int),
            all_below(xm@, field.q()),
        decreases m + 1 - t,
    {
        let v: u64 = if t == 0 { 1 } else if t == m { minus_one } else { 0 };
        xm.push(v);
        t = t + 1;
    }
    assert(xm@ =~= x_m_minus_one(*field));
    let f1 = field.clone();
    let f2 = field.clone();
    proof {
        f1.lemma_equiv_wf(field);
        f2.lemma_equiv_wf(field);
    }
    let xpoly = match Poly::new(xm, f1) {
        Ok(x) => x,
        Err(e) => { return Err(e); },
    };
    let npoly = match Poly::new(conj, f2) {
        Ok(x) => x,
        Err(e) => { return Err(e); },
    };
    proof {
        assert(x_m_minus_one(*field)[0] == 1u64);
        assert(strip_leading(x_m_minus_one(*field)) == x_m_minus_one(*field));
    }
    let g = match poly_gcd(&xpoly, &npoly) {
        Ok(g) => g,
        Err(e) => { return Err(e); },
    };
    proof {
        xpoly.field_view().lemma_equiv_wf(field);
        if crate::poly::field_poly::gp_is_zero(npoly.coeffs_view()) {
            assert(crate::poly::field_poly::gp_monic(x_m_minus_one(*field), field.model()) == x_m_minus_one(*field));
        }
    }
    Ok(g.is_one())
}

/// The least normal element of the field, trying candidates from one up (at most ten
/// thousand of them in an extension field); `NoPrimitiveElement` when none was found.
pub fn normal_element(field: &GaloisField) -> (r: Result<u64>)
    requires
        field.wf(),
    ensures
        r matches Ok(v) ==> 1 <= v < field.q() && is_normal_spec(*field, v as nat)
            && forall|c: nat| 1 <= c < v ==> !#[trigger] is_normal_spec(*field, c),
        r matches Err(e) ==> e == (GaloisError::NoPrimitiveElement { characteristic: field.p() as u64, degree: field.m() as u32 }),
{
    let q = field.order();
    let m = field.degree();
    let p = field.characteristic();
    let mut candidate: u64 = 1;
    while candidate < q
        invariant
            field.wf(),
            q == field.q(),
            m == field.m(),
            p == field.p(),
            1 <= candidate,
            forall|c: nat| 1 <= c < candidate ==> !#[trigger] is_normal_spec(*field, c),
        decreases q - candidate,
    {
        match is_normal_element(candidate, field) {
            Ok(true) => { return Ok(candidate); },
            Ok(false) => {},
            Err(_) => { return Err(GaloisError::NoPrimitiveElement { characteristic: p, degree: m }); },
        }
        if candidate > 10000 && m > 1 {
            break;
        }
        candidate = candidate + 1;
    }
    Err(GaloisError::NoPrimitiveElement { characteristic: p, degree: m })
}

} // verus!
