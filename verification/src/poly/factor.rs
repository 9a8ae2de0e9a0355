//! Roots and factorization of polynomials over finite fields.

use vstd::prelude::*;
use crate::error::{GaloisError, Result};
use crate::arith::npow;
use crate::field::factory::{GaloisField, FieldModel};
use crate::field::element::same_field;
use crate::poly::field_poly::{Poly, gp_is_zero, gp_shape, gp_degree, gp_deriv, gp_gcd, gp_divmod, gp_monic,
    gp_sub, gp_scale, gp_modpow, gp_frobenius_iter, horner, poly_gcd, raise_to_field_order, lemma_gp_divmod,
    lemma_strip_leading, gp_normal};

verus! {

/// The elements `x < n` with `a(x) = 0`, ascending.
pub open spec fn roots_below(a: Seq<u64>, n: int, f: FieldModel) -> Seq<u64>
    decreases n,
{
    if n <= 0 {
        Seq::empty()
    } else {
        let prev = roots_below(a, n - 1, f);
        if horner(a, (n - 1) as nat, a.len() as int, f) == 0 { prev.push((n - 1) as u64) } else { prev }
    }
}

/// The roots searched by `roots`: those below `min(q, 10000)`.
pub open spec fn roots_spec(a: Seq<u64>, f: FieldModel) -> Seq<u64> {
    roots_below(a, if f.q < 10000 { f.q as int } else { 10000 }, f)
}

/// Roots of the polynomial among the elements below `min(q, 10000)`, ascending; never an
/// error.
pub fn roots(poly: &Poly) -> (r: Result<Vec<u64>>)
    requires
        poly.wf(),
    ensures
        r matches Ok(v) && v@ == roots_spec(poly.coeffs_view(), poly.field_view().model()),
{
    Ok(roots_below_limit(poly))
}

fn roots_below_limit(poly: &Poly) -> (r: Vec<u64>)
    requires
        poly.wf(),
    ensures
        r@ == roots_spec(poly.coeffs_view(), poly.field_view().model()),
{
    let q = poly.field().order();
    let limit: u64 = if q < 10000 { q } else { 10000 };
    let ghost f = poly.field_view().model();
    let mut found: Vec<u64> = Vec::new();
    let mut x: u64 = 0;
    while x < limit
        invariant
            poly.wf(),
            f == poly.field_view().model(),
            q == f.q,
            limit == (if q < 10000 { q } else { 10000 }),
            x <= limit,
            found@ == roots_below(poly.coeffs_view(), x as int, f),
        decreases limit - x,
    {
        let v = match poly.evaluate(x) {
            Ok(v) => v,
            Err(_) => 1,
        };
        if v == 0 {
            found.push(x);
        }
        x = x + 1;
    }
    found
}

/// Euclid's algorithm returns polynomials of canonical shape.
pub proof fn lemma_gp_gcd_shape(a: Seq<u64>, b: Seq<u64>, f: FieldModel)
    requires
        gp_shape(a),
        gp_shape(b),
    ensures
        gp_shape(gp_gcd(a, b, f)),
    decreases (if gp_is_zero(b) { 0 } else { b.len() }),
{
    if gp_is_zero(b) {
        if !(gp_is_zero(a) || a[0] == 1) {
            let c = f.div(1, a[0] as nat);
            if !(c == 0 || gp_is_zero(a)) {
                lemma_strip_leading(Seq::new(a.len(), |k: int| f.mul(a[k] as nat, c) as u64));
            }
        }
    } else {
        lemma_gp_divmod(a, b, f);
        lemma_gp_gcd_shape(b, gp_divmod(a, b, f).1, f);
    }
}

/// The roots found below `n` are below `n`.
pub proof fn lemma_roots_below_bound(a: Seq<u64>, n: int, f: FieldModel)
    ensures
        forall|t: int| 0 <= t < roots_below(a, n, f).len() ==> (#[trigger] roots_below(a, n, f)[t]) < n,
        roots_below(a, n, f).len() <= (if n > 0 { n } else { 0 }),
    decreases n,
{
    if n > 0 {
        lemma_roots_below_bound(a, n - 1, f);
        let prev = roots_below(a, n - 1, f);
        assert forall|t: int| 0 <= t < roots_below(a, n, f).len() implies (#[trigger] roots_below(a, n, f)[t]) < n by {
            if t < prev.len() {
                assert(roots_below(a, n, f)[t] == prev[t]);
            }
        }
    }
}

/// Euclid's algorithm does not lengthen its arguments.
pub proof fn lemma_gp_gcd_len(a: Seq<u64>, b: Seq<u64>, f: FieldModel)
    requires
        gp_shape(a),
        gp_shape(b),
    ensures
        gp_gcd(a, b, f).len() <= (if a.len() >= b.len() { a.len() } else { b.len() }),
    decreases (if gp_is_zero(b) { 0 } else { b.len() }),
{
    if gp_is_zero(b) {
        if !(gp_is_zero(a) || a[0] == 1) {
            let c = f.div(1, a[0] as nat);
            if !(c == 0 || gp_is_zero(a)) {
                lemma_strip_leading(Seq::new(a.len(), |k: int| f.mul(a[k] as nat, c) as u64));
            }
        }
    } else {
        lemma_gp_divmod(a, b, f);
        lemma_gp_gcd_len(b, gp_divmod(a, b, f).1, f);
    }
}

/// The square-free loop from `f` on, numbering its parts from `i`.
pub open spec fn sff_steps(f: Seq<u64>, i: nat, fm: FieldModel) -> Seq<(nat, Seq<u64>)>
    decreases f.len(),
{
    if gp_is_zero(f) || f.len() == 0 {
        Seq::empty()
    } else {
        let g = gp_gcd(f, gp_deriv(f, 1, fm), fm);
        let w = if g == seq![1u64] || gp_is_zero(g) { f } else { gp_divmod(f, g, fm).0 };
        let head = if w != seq![1u64] && !gp_is_zero(w) { seq![(i, w)] } else { Seq::empty() };
        if g == seq![1u64] || g.len() >= f.len() { head } else { head + sff_steps(g, i + 1, fm) }
    }
}

/// What `square_free_factorization` returns for `a`.
pub open spec fn sff_spec(a: Seq<u64>, fm: FieldModel) -> Seq<(nat, Seq<u64>)> {
    if gp_is_zero(a) {
        Seq::empty()
    } else {
        let s = sff_steps(a, 1, fm);
        if s.len() == 0 { seq![(1nat, a)] } else { s }
    }
}

/// The parts `(multiplicity, polynomial)` of a result, as plain values.
pub open spec fn parts_view(v: Seq<(usize, Poly)>) -> Seq<(nat, Seq<u64>)> {
    Seq::new(v.len(), |k: int| (v[k].0 as nat, v[k].1.coeffs_view()))
}

/// Every polynomial of a result is well formed over a field equivalent to `field`.
pub open spec fn parts_ok(v: Seq<(usize, Poly)>, field: GaloisField) -> bool {
    forall|k: int| 0 <= k < v.len() ==> (#[trigger] v[k]).1.wf() && v[k].1.field_view().equiv(&field)
}

/// Every polynomial of a result has at most `l` coefficients.
pub open spec fn parts_bounded(v: Seq<(usize, Poly)>, l: nat) -> bool {
    forall|k: int| 0 <= k < v.len() ==> (#[trigger] v[k]).1.coeffs_view().len() <= l
}

/// Square-free factorization: repeatedly `f / gcd(f, f')` and `gcd(f, f')`, numbered from one;
/// a polynomial with no such part is returned whole.
pub fn square_free_factorization(poly: &Poly) -> (r: Result<Vec<(usize, Poly)>>)
    requires
        poly.wf(),
    ensures
        r matches Ok(v) && parts_view(v@) == sff_spec(poly.coeffs_view(), poly.field_view().model())
            && parts_ok(v@, poly.field_view()) && parts_bounded(v@, poly.coeffs_view().len()),
{
    let ghost fm = poly.field_view().model();
    let mut result: Vec<(usize, Poly)> = Vec::new();
    if poly.is_zero() {
        assert(parts_view(result@) =~= Seq::<(nat, Seq<u64>)>::empty());
        return Ok(result);
    }
    let mut f = poly.clone();
    let mut i: usize = 1;
    loop
        invariant
            poly.wf(),
            !gp_is_zero(poly.coeffs_view()),
            fm == poly.field_view().model(),
            f.wf(),
            f.field_view().equiv(&poly.field_view()),
            1 <= i <= f.coeffs_view().len() + i,
            i as nat + f.coeffs_view().len() <= poly.coeffs_view().len() + 1,
            parts_ok(result@, poly.field_view()),
            parts_bounded(result@, poly.coeffs_view().len()),
            parts_view(result@) + sff_steps(f.coeffs_view(), i as nat, fm) == sff_steps(poly.coeffs_view(), 1, fm),
        decreases f.coeffs_view().len(),
    {
        proof { f.field_view().lemma_equiv_wf(&poly.field_view()); }
        if f.is_zero() {
            assert(sff_steps(f.coeffs_view(), i as nat, fm) =~= Seq::<(nat, Seq<u64>)>::empty());
            assert(parts_view(result@) =~= sff_steps(poly.coeffs_view(), 1, fm));
            return Ok(finish_sff(poly, result));
        }
        let d = f.derivative(1);
        proof { d.field_view().lemma_equiv_wf(&poly.field_view()); }
        let g = match poly_gcd(&f, &d) {
            Ok(g) => g,
            Err(e) => { return Err(e); },
        };
        proof {
            g.field_view().lemma_equiv_wf(&poly.field_view());
        }
        let g_one = g.is_one();
        let w = if g_one {
            f.clone()
        } else {
            if g.is_zero() {
                f.clone()
            } else {
                match f.div(&g) {
                    Ok(w) => w,
                    Err(e) => { return Err(e); },
                }
            }
        };
        proof {
            w.field_view().lemma_equiv_wf(&poly.field_view());
        }
        let ghost old_parts = parts_view(result@);
        let ghost head = if w.coeffs_view() != seq![1u64] && !gp_is_zero(w.coeffs_view()) {
            seq![(i as nat, w.coeffs_view())] } else { Seq::<(nat, Seq<u64>)>::empty() };
        if !w.is_one() && !w.is_zero() {
            result.push((i, w));
        }
        assert(parts_view(result@) =~= old_parts + head);
        if g_one || g.coeffs().len() >= f.coeffs().len() {
            assert(sff_steps(f.coeffs_view(), i as nat, fm) == head);
            assert(parts_view(result@) =~= sff_steps(poly.coeffs_view(), 1, fm));
            return Ok(finish_sff(poly, result));
        }
        assert(sff_steps(f.coeffs_view(), i as nat, fm) == head + sff_steps(g.coeffs_view(), (i + 1) as nat, fm));
        assert(parts_view(result@) + sff_steps(g.coeffs_view(), (i + 1) as nat, fm) =~= sff_steps(poly.coeffs_view(), 1, fm));
        f = g;
        i = i + 1;
    }
}

fn finish_sff(poly: &Poly, result: Vec<(usize, Poly)>) -> (r: Vec<(usize, Poly)>)
    requires
        poly.wf(),
        !gp_is_zero(poly.coeffs_view()),
        parts_ok(result@, poly.field_view()),
        parts_bounded(result@, poly.coeffs_view().len()),
        parts_view(result@) == sff_steps(poly.coeffs_view(), 1, poly.field_view().model()),
    ensures
        parts_view(r@) == sff_spec(poly.coeffs_view(), poly.field_view().model()),
        parts_ok(r@, poly.field_view()),
        parts_bounded(r@, poly.coeffs_view().len()),
{
    let mut result = result;
    if result.len() == 0 {
        let c = poly.clone();
        result.push((1, c));
        assert(parts_view(result@) =~= seq![(1nat, poly.coeffs_view())]);
    }
    result
}


/// `h^q mod f`: the step of distinct-degree factorization.
pub open spec fn ddf_power(h: Seq<u64>, f: Seq<u64>, fm: FieldModel) -> Seq<u64> {
    gp_frobenius_iter(gp_divmod(h, f, fm).1, fm.m, f, fm)
}

/// The part left over after distinct-degree factorization, unless it is one or zero.
pub open spec fn ddf_tail(rem: Seq<u64>) -> Seq<(nat, Seq<u64>)> {
    if rem != seq![1u64] && !gp_is_zero(rem) && gp_degree(rem) >= 0 {
        seq![(gp_degree(rem) as nat, rem)]
    } else {
        Seq::empty()
    }
}

/// Distinct-degree factorization of the square-free `f` from step `i` on, with `rem` still
/// to split and `h = x^(q^(i-1)) mod f`.
pub open spec fn ddf_loop(f: Seq<u64>, rem: Seq<u64>, h: Seq<u64>, i: nat, n: nat, fm: FieldModel) -> Seq<(nat, Seq<u64>)>
    decreases n + 1 - i,
{
    if i > n / 2 || rem == seq![1u64] {
        ddf_tail(rem)
    } else {
        let h2 = ddf_power(h, f, fm);
        let d = gp_gcd(rem, gp_sub(h2, seq![1u64, 0u64], fm), fm);
        if d != seq![1u64] {
            seq![(i, d)] + ddf_loop(f, gp_divmod(rem, d, fm).0, h2, i + 1, n, fm)
        } else {
            ddf_loop(f, rem, h2, i + 1, n, fm)
        }
    }
}

/// Whether the loop of `ddf_loop` meets a zero common divisor, by which the remaining part
/// cannot be divided.
pub open spec fn ddf_loop_fails(f: Seq<u64>, rem: Seq<u64>, h: Seq<u64>, i: nat, n: nat, fm: FieldModel) -> bool
    decreases n + 1 - i,
{
    if i > n / 2 || rem == seq![1u64] {
        false
    } else {
        let h2 = ddf_power(h, f, fm);
        let d = gp_gcd(rem, gp_sub(h2, seq![1u64, 0u64], fm), fm);
        if d != seq![1u64] {
            gp_is_zero(d) || ddf_loop_fails(f, gp_divmod(rem, d, fm).0, h2, i + 1, n, fm)
        } else {
            ddf_loop_fails(f, rem, h2, i + 1, n, fm)
        }
    }
}

/// Whether distinct-degree factorization of one square-free polynomial meets a zero common
/// divisor.
pub open spec fn ddf_sf_fails(f: Seq<u64>, fm: FieldModel) -> bool {
    gp_degree(f) >= 2 && ddf_loop_fails(f, f, seq![1u64, 0u64], 1, gp_degree(f) as nat, fm)
}

/// Distinct-degree factorization of one square-free polynomial.
pub open spec fn ddf_sf(f: Seq<u64>, fm: FieldModel) -> Seq<(nat, Seq<u64>)> {
    let n = gp_degree(f);
    if n <= 0 {
        Seq::empty()
    } else if n == 1 {
        seq![(1nat, f)]
    } else {
        ddf_loop(f, f, seq![1u64, 0u64], 1, n as nat, fm)
    }
}

/// The distinct-degree factorizations of the first `k` square-free parts, concatenated.
pub open spec fn ddf_concat(parts: Seq<(nat, Seq<u64>)>, k: int, fm: FieldModel) -> Seq<(nat, Seq<u64>)>
    decreases k,
{
    if k <= 0 { Seq::empty() } else { ddf_concat(parts, k - 1, fm) + ddf_sf(parts[k - 1].1, fm) }
}

/// What `distinct_degree_factorization` returns.
pub open spec fn ddf_spec(a: Seq<u64>, fm: FieldModel) -> Seq<(nat, Seq<u64>)> {
    let parts = sff_spec(a, fm);
    ddf_concat(parts, parts.len() as int, fm)
}

/// Distinct-degree factorization of one square-free polynomial.
fn ddf_square_free(f: &Poly) -> (r: Result<Vec<(usize, Poly)>>)
    requires
        f.wf(),
        f.coeffs_view().len() <= isize::MAX / 2,
    ensures
        ddf_sf_fails(f.coeffs_view(), f.field_view().model()) ==> r == Err::<Vec<(usize, Poly)>, GaloisError>(
            GaloisError::PolynomialDivisionByZero),
        !ddf_sf_fails(f.coeffs_view(), f.field_view().model()) ==> r is Ok,
        r matches Ok(v) ==> parts_view(v@) == ddf_sf(f.coeffs_view(), f.field_view().model())
            && parts_ok(v@, f.field_view()) && parts_bounded(v@, f.coeffs_view().len()),
{
    let ghost fm = f.field_view().model();
    let mut out: Vec<(usize, Poly)> = Vec::new();
    let n = f.degree();
    if n <= 0 {
        assert(parts_view(out@) =~= ddf_sf(f.coeffs_view(), fm));
        return Ok(out);
    }
    if n == 1 {
        out.push((1, f.clone()));
        assert(parts_view(out@) =~= ddf_sf(f.coeffs_view(), fm));
        return Ok(out);
    }
    let fx = f.field().clone();
    proof { fx.lemma_equiv_wf(&f.field_view()); }
    let x = Poly::x(fx);
    let mut remaining = f.clone();
    let mut h = x.clone();
    let nu = n as u64;
    let mut i: u64 = 1;
    assert(parts_view(out@) + ddf_loop(f.coeffs_view(), remaining.coeffs_view(), h.coeffs_view(), 1, nu as nat, fm)
        =~= ddf_loop(f.coeffs_view(), f.coeffs_view(), seq![1u64, 0u64], 1, nu as nat, fm));
    while i <= nu / 2 && !remaining.is_one()
        invariant
            f.wf(),
            f.coeffs_view().len() <= isize::MAX / 2,
            fm == f.field_view().model(),
            nu == gp_degree(f.coeffs_view()),
            nu >= 2,
            1 <= i <= nu / 2 + 1,
            x.wf(),
            x.field_view().equiv(&f.field_view()),
            x.coeffs_view() == seq![1u64, 0u64],
            remaining.wf(),
            remaining.field_view().equiv(&f.field_view()),
            remaining.coeffs_view().len() <= f.coeffs_view().len(),
            parts_bounded(out@, f.coeffs_view().len()),
            h.wf(),
            h.field_view().equiv(&f.field_view()),
            parts_ok(out@, f.field_view()),
            parts_view(out@) + ddf_loop(f.coeffs_view(), remaining.coeffs_view(), h.coeffs_view(), i as nat, nu as nat, fm)
                == ddf_loop(f.coeffs_view(), f.coeffs_view(), seq![1u64, 0u64], 1, nu as nat, fm),
            ddf_loop_fails(f.coeffs_view(), remaining.coeffs_view(), h.coeffs_view(), i as nat, nu as nat, fm)
                == ddf_sf_fails(f.coeffs_view(), fm),
        decreases nu / 2 + 1 - i,
    {
        proof {
            remaining.field_view().lemma_equiv_wf(&f.field_view());
            h.field_view().lemma_equiv_wf(&f.field_view());
            x.field_view().lemma_equiv_wf(&f.field_view());
        }
        let h2 = match raise_to_field_order(&h, f) {
            Ok(v) => v,
            Err(e) => { return Err(e); },
        };
        proof { h2.field_view().lemma_equiv_wf(&f.field_view()); }
        let diff = match h2.sub(&x) {
            Ok(v) => v,
            Err(e) => { return Err(e); },
        };
        proof { diff.field_view().lemma_equiv_wf(&f.field_view()); }
        let d = match poly_gcd(&remaining, &diff) {
            Ok(v) => v,
            Err(e) => { return Err(e); },
        };
        proof {
            d.field_view().lemma_equiv_wf(&f.field_view());
            assert(h2.coeffs_view() == ddf_power(h.coeffs_view(), f.coeffs_view(), fm));
            crate::poly::field_poly::lemma_gp_add_sub_len(h2.coeffs_view(), x.coeffs_view(), fm);
            lemma_gp_gcd_len(remaining.coeffs_view(), diff.coeffs_view(), fm);
        }
        let ghost old = parts_view(out@);
        if !d.is_one() {
            let dc = d.clone();
            out.push((i as usize, dc));
            assert(parts_view(out@) =~= old + seq![(i as nat, d.coeffs_view())]);
            remaining = match remaining.div(&d) {
                Ok(v) => v,
                Err(e) => { return Err(e); },
            };
        }
        h = h2;
        i = i + 1;
    }
    proof { remaining.field_view().lemma_equiv_wf(&f.field_view()); }
    let ghost old = parts_view(out@);
    assert(ddf_loop(f.coeffs_view(), remaining.coeffs_view(), h.coeffs_view(), i as nat, nu as nat, fm) == ddf_tail(remaining.coeffs_view()));
    if !remaining.is_one() && !remaining.is_zero() {
        let deg = remaining.degree();
        out.push((deg as usize, remaining));
    }
    assert(parts_view(out@) =~= old + ddf_tail(remaining.coeffs_view()));
    Ok(out)
}

/// Whether distinct-degree factorization of some square-free part of nonzero `a` meets a
/// zero common divisor.
pub open spec fn ddf_fails(a: Seq<u64>, fm: FieldModel) -> bool {
    let parts = sff_spec(a, fm);
    !gp_is_zero(a) && exists|j: int| 0 <= j < parts.len() && #[trigger] ddf_sf_fails(parts[j].1, fm)
}

/// Distinct-degree factorization: each square-free part split into the products of its
/// irreducible factors of equal degree, as `(degree, product)` pairs.
pub fn distinct_degree_factorization(poly: &Poly) -> (r: Result<Vec<(usize, Poly)>>)
    requires
        poly.wf(),
        poly.coeffs_view().len() <= isize::MAX / 2,
    ensures
        ddf_fails(poly.coeffs_view(), poly.field_view().model()) ==> r == Err::<Vec<(usize, Poly)>, GaloisError>(
            GaloisError::PolynomialDivisionByZero),
        !ddf_fails(poly.coeffs_view(), poly.field_view().model()) ==> r is Ok,
        r matches Ok(v) ==> parts_view(v@) == ddf_spec(poly.coeffs_view(), poly.field_view().model())
            && parts_ok(v@, poly.field_view()) && parts_bounded(v@, poly.coeffs_view().len()),
{
    let ghost fm = poly.field_view().model();
    let mut result: Vec<(usize, Poly)> = Vec::new();
    if poly.is_zero() {
        assert(parts_view(result@) =~= ddf_spec(poly.coeffs_view(), fm));
        return Ok(result);
    }
    let parts = match square_free_factorization(poly) {
        Ok(v) => v,
        Err(e) => { return Err(e); },
    };
    let mut k: usize = 0;
    while k < parts.len()
        invariant
            poly.wf(),
            poly.coeffs_view().len() <= isize::MAX / 2,
            fm == poly.field_view().model(),
            parts_view(parts@) == sff_spec(poly.coeffs_view(), fm),
            parts_ok(parts@, poly.field_view()),
            parts_bounded(parts@, poly.coeffs_view().len()),
            k <= parts@.len(),
            parts_ok(result@, poly.field_view()),
            parts_bounded(result@, poly.coeffs_view().len()),
            parts_view(result@) == ddf_concat(parts_view(parts@), k as int, fm),
            !gp_is_zero(poly.coeffs_view()),
            forall|j: int| 0 <= j < k ==> !#[trigger] ddf_sf_fails(sff_spec(poly.coeffs_view(), fm)[j].1, fm),
        decreases parts@.len() - k,
    {
        let part = &parts[k].1;
        assert(sff_spec(poly.coeffs_view(), fm)[k as int].1 == part.coeffs_view()) by {
            assert(parts_view(parts@)[k as int] == (parts@[k as int].0 as nat, parts@[k as int].1.coeffs_view()));
        }
        proof {
            assert(parts@[k as int].1.wf());
            part.field_view().lemma_equiv_wf(&poly.field_view());
            assert(part.coeffs_view().len() <= poly.coeffs_view().len());
        }
        let mut sub = match ddf_square_free(part) {
            Ok(v) => v,
            Err(e) => { return Err(e); },
        };
        let ghost old = result@;
        let ghost subv = sub@;
        result.append(&mut sub);
        proof {
            assert(result@ == old + subv);
            assert(parts_view(result@) =~= parts_view(old) + parts_view(subv));
            assert forall|t: int| 0 <= t < result@.len() implies (#[trigger] result@[t]).1.wf()
                && result@[t].1.field_view().equiv(&poly.field_view())
                && result@[t].1.coeffs_view().len() <= poly.coeffs_view().len() by {
                if t >= old.len() {
                    assert(result@[t] == subv[t - old.len()]);
                    assert(subv[t - old.len()].1.field_view().equiv(&part.field_view()));
                }
            }
        }
        assert(parts_view(parts@)[k as int].1 == part.coeffs_view());
        k = k + 1;
    }
    Ok(result)
}


/// The exponent used to split factors of degree `d`: `(q^d - 1)/2` for odd `q`, `q^d - 1`
/// for even `q`; `None` when `q^d` exceeds 64 bits.
pub open spec fn edf_exponent(q: nat, d: nat) -> Option<nat> {
    let qd = npow(q, d);
    if qd > u64::MAX || qd == 0 { None } else if q % 2 == 1 { Some(((qd - 1) / 2) as nat) } else { Some((qd - 1) as nat) }
}

/// One splitting attempt of `f` with `b = x + attempt`: `gcd(f, b^e - 1)` when it is a proper
/// divisor, together with its cofactor.
pub open spec fn edf_split(f: Seq<u64>, attempt: nat, degree: nat, fm: FieldModel) -> Seq<Seq<u64>> {
    match edf_exponent(fm.q, degree) {
        None => seq![f],
        Some(e) => {
            let h = gp_sub(gp_modpow(seq![1u64, attempt as u64], e, f, fm), seq![1u64], fm);
            let d = gp_gcd(f, h, fm);
            if d == seq![1u64] || gp_degree(d) == gp_degree(f) { seq![f] } else { seq![d, gp_divmod(f, d, fm).0] }
        },
    }
}

/// Whether a splitting attempt fails: the polynomial is zero, or the common divisor is zero
/// although it is neither one nor of the polynomial's degree.
pub open spec fn edf_split_fails(f: Seq<u64>, attempt: nat, degree: nat, fm: FieldModel) -> bool {
    match edf_exponent(fm.q, degree) {
        None => false,
        Some(e) => gp_is_zero(f) || {
            let h = gp_sub(gp_modpow(seq![1u64, attempt as u64], e, f, fm), seq![1u64], fm);
            let d = gp_gcd(f, h, fm);
            d != seq![1u64] && gp_degree(d) != gp_degree(f) && gp_is_zero(d)
        },
    }
}

/// One round over the first `k` factors: those of degree above `degree` are split.
pub open spec fn edf_round(fs: Seq<Seq<u64>>, k: int, attempt: nat, degree: nat, fm: FieldModel) -> Seq<Seq<u64>>
    decreases k,
{
    if k <= 0 {
        Seq::empty()
    } else {
        edf_round(fs, k - 1, attempt, degree, fm) + (if gp_degree(fs[k - 1]) <= degree { seq![fs[k - 1]] }
            else { edf_split(fs[k - 1], attempt, degree, fm) })
    }
}

/// Whether splitting one of the first `k` factors of degree above `degree` fails.
pub open spec fn edf_round_fails(fs: Seq<Seq<u64>>, k: int, attempt: nat, degree: nat, fm: FieldModel) -> bool {
    exists|j: int| 0 <= j < k && gp_degree(fs[j]) > degree && #[trigger] edf_split_fails(fs[j], attempt, degree, fm)
}

pub open spec fn any_above(fs: Seq<Seq<u64>>, degree: nat) -> bool {
    exists|k: int| 0 <= k < fs.len() && gp_degree(#[trigger] fs[k]) > degree
}

/// Splitting rounds from `attempt` on, until nothing splits, nothing is left to split or 256
/// attempts were made; `None` when an attempt is not an element of the field or a split
/// fails.
pub open spec fn edf_loop(fs: Seq<Seq<u64>>, attempt: nat, degree: nat, fm: FieldModel) -> Option<Seq<Seq<u64>>>
    decreases 257 - attempt,
{
    if !any_above(fs, degree) || attempt > 256 {
        Some(fs)
    } else if attempt >= fm.q {
        None
    } else if edf_round_fails(fs, fs.len() as int, attempt, degree, fm) {
        None
    } else {
        let next = edf_round(fs, fs.len() as int, attempt, degree, fm);
        if next.len() == fs.len() || attempt + 1 > 256 { Some(next) } else { edf_loop(next, attempt + 1, degree, fm) }
    }
}

/// The first `k` factors of degree exactly `degree`.
pub open spec fn filter_degree(fs: Seq<Seq<u64>>, k: int, degree: nat) -> Seq<Seq<u64>>
    decreases k,
{
    if k <= 0 {
        Seq::empty()
    } else {
        filter_degree(fs, k - 1, degree) + (if gp_degree(fs[k - 1]) == degree { seq![fs[k - 1]] } else { Seq::empty() })
    }
}

/// `x - r` for each root.
pub open spec fn linear_factors(rs: Seq<u64>, fm: FieldModel) -> Seq<Seq<u64>> {
    Seq::new(rs.len(), |k: int| seq![1u64, fm.neg(rs[k] as nat) as u64])
}

/// What `equal_degree_factorization` returns (`None` for an error).
pub open spec fn edf_spec(a: Seq<u64>, degree: nat, fm: FieldModel) -> Option<Seq<Seq<u64>>> {
    let n: int = if gp_degree(a) < 0 { usize::MAX as int } else { gp_degree(a) };
    if n == 0 {
        Some(Seq::empty())
    } else if n == degree {
        Some(seq![a])
    } else if degree == 0 || n % (degree as int) != 0 {
        Some(seq![a])
    } else if degree == 1 && roots_spec(a, fm).len() == n {
        Some(linear_factors(roots_spec(a, fm), fm))
    } else {
        match edf_loop(seq![a], 1, degree, fm) {
            None => None,
            Some(fs) => Some(filter_degree(fs, fs.len() as int, degree)),
        }
    }
}

/// The coefficient views of a list of polynomials.
pub open spec fn polys_view(v: Seq<Poly>) -> Seq<Seq<u64>> {
    Seq::new(v.len(), |k: int| v[k].coeffs_view())
}

/// Every polynomial is well formed over a field equivalent to `field` with at most `l`
/// coefficients.
pub open spec fn polys_ok(v: Seq<Poly>, field: GaloisField, l: nat) -> bool {
    forall|k: int| 0 <= k < v.len() ==> (#[trigger] v[k]).wf() && v[k].field_view().equiv(&field)
        && v[k].coeffs_view().len() <= l
}

/// `x - r` over the field of `poly`.
fn linear(poly: &Poly, r: u64) -> (l: Poly)
    requires
        poly.wf(),
        r < poly.field_view().q(),
    ensures
        l.wf(),
        l.field_view().equiv(&poly.field_view()),
        l.coeffs_view() == seq![1u64, poly.field_view().model().neg(r as nat) as u64],
{
    let nr = poly.field().neg(r);
    let f = poly.field().clone();
    proof { f.lemma_equiv_wf(&poly.field_view()); f.lemma_q_ge_2(); }
    let l = Poly::from_valid(vec![1, nr], f);
    assert(l.coeffs_view() == seq![1u64, nr]) by {
        assert(crate::poly::field_poly::strip_leading(seq![1u64, nr]) == seq![1u64, nr]);
    }
    l
}

/// Splits one factor with `b = x + attempt`.
fn edf_split_exec(f: &Poly, attempt: u64, degree: usize, e: Option<u64>) -> (r: Result<Vec<Poly>>)
    requires
        f.wf(),
        f.coeffs_view().len() <= isize::MAX / 2,
        attempt < f.field_view().q(),
        e == (match edf_exponent(f.field_view().q(), degree as nat) { Some(x) => Some(x as u64), None => None::<u64> }),
        edf_exponent(f.field_view().q(), degree as nat) matches Some(x) ==> x <= u64::MAX,
    ensures
        edf_split_fails(f.coeffs_view(), attempt as nat, degree as nat, f.field_view().model()) ==> r == Err::<Vec<Poly>,
            GaloisError>(GaloisError::PolynomialDivisionByZero),
        !edf_split_fails(f.coeffs_view(), attempt as nat, degree as nat, f.field_view().model()) ==> r is Ok,
        r matches Ok(v) ==> polys_view(v@) == edf_split(f.coeffs_view(), attempt as nat, degree as nat, f.field_view().model())
            && polys_ok(v@, f.field_view(), f.coeffs_view().len()),
{
    let ghost fm = f.field_view().model();
    let mut out: Vec<Poly> = Vec::new();
    let e = match e {
        None => {
            out.push(f.clone());
            assert(polys_view(out@) =~= seq![f.coeffs_view()]);
            return Ok(out);
        },
        Some(x) => x,
    };
    let fb = f.field().clone();
    proof { fb.lemma_equiv_wf(&f.field_view()); fb.lemma_q_ge_2(); }
    let b = Poly::from_valid(vec![1, attempt], fb);
    assert(b.coeffs_view() == seq![1u64, attempt]) by {
        assert(crate::poly::field_poly::strip_leading(seq![1u64, attempt]) == seq![1u64, attempt]);
    }
    let powered = match b.mod_pow_u64(e, f) {
        Ok(x) => x,
        Err(err) => { return Err(err); },
    };
    proof { powered.field_view().lemma_equiv_wf(&f.field_view()); }
    let fo = f.field().clone();
    proof { fo.lemma_equiv_wf(&f.field_view()); }
    let one = Poly::one(fo);
    let h = match powered.sub(&one) {
        Ok(x) => x,
        Err(err) => { return Err(err); },
    };
    proof { h.field_view().lemma_equiv_wf(&f.field_view()); }
    let d = match poly_gcd(f, &h) {
        Ok(x) => x,
        Err(err) => { return Err(err); },
    };
    proof { d.field_view().lemma_equiv_wf(&f.field_view()); }
    if d.is_one() || d.degree() == f.degree() {
        out.push(f.clone());
        assert(polys_view(out@) =~= seq![f.coeffs_view()]);
        return Ok(out);
    }
    let qd = match f.div(&d) {
        Ok(x) => x,
        Err(err) => { return Err(err); },
    };
    proof {
        crate::poly::field_poly::lemma_gp_add_sub_len(powered.coeffs_view(), seq![1u64], fm);
        lemma_gp_gcd_len(f.coeffs_view(), h.coeffs_view(), fm);
    }
    proof {
        assert(e as nat == edf_exponent(f.field_view().q(), degree as nat)->0);
        assert(powered.coeffs_view() == gp_modpow(seq![1u64, attempt], e as nat, f.coeffs_view(), fm));
        assert(h.coeffs_view() == gp_sub(powered.coeffs_view(), seq![1u64], fm));
        assert(d.coeffs_view() == gp_gcd(f.coeffs_view(), h.coeffs_view(), fm));
        assert(qd.coeffs_view() == gp_divmod(f.coeffs_view(), d.coeffs_view(), fm).0);
    }
    out.push(d);
    out.push(qd);
    assert(polys_view(out@) =~= seq![d.coeffs_view(), qd.coeffs_view()]);
    assert(out@[0].coeffs_view().len() <= f.coeffs_view().len());
    assert(out@[1].coeffs_view().len() <= f.coeffs_view().len());
    assert(polys_ok(out@, f.field_view(), f.coeffs_view().len()));
    assert(edf_split(f.coeffs_view(), attempt as nat, degree as nat, fm) == seq![d.coeffs_view(), qd.coeffs_view()]);
    Ok(out)
}


/// The exponent of `edf_exponent` computed in 64 bits.
fn edf_exponent_exec(q: u64, degree: usize) -> (r: Option<u64>)
    requires
        q >= 2,
    ensures
        r == (match edf_exponent(q as nat, degree as nat) { Some(x) => Some(x as u64), None => None::<u64> }),
        edf_exponent(q as nat, degree as nat) matches Some(x) ==> x <= u64::MAX,
{
    if degree > 64 {
        proof {
            crate::prime::lemma_pow2_64_exceeds();
            crate::arith::lemma_npow_mono_base(2, q as nat, degree as nat);
            crate::prime::lemma_npow_mono_exp(2, 64, degree as nat);
        }
        return None;
    }
    match crate::prime::checked_npow(q, degree as u32) {
        None => None,
        Some(qd) => {
            if qd == 0 {
                None
            } else if q % 2 == 1 {
                Some((qd - 1) / 2)
            } else {
                Some(qd - 1)
            }
        },
    }
}

/// Whether some factor has degree above `degree`.
fn any_above_exec(fs: &Vec<Poly>, degree: usize) -> (r: bool)
    requires
        forall|k: int| 0 <= k < fs@.len() ==> (#[trigger] fs@[k]).wf(),
    ensures
        r == any_above(polys_view(fs@), degree as nat),
{
    let mut k: usize = 0;
    while k < fs.len()
        invariant
            forall|t: int| 0 <= t < fs@.len() ==> (#[trigger] fs@[t]).wf(),
            k <= fs@.len(),
            forall|t: int| 0 <= t < k ==> gp_degree(#[trigger] polys_view(fs@)[t]) <= degree,
        decreases fs@.len() - k,
    {
        let d = fs[k].degree();
        if d >= 0 && d as usize > degree {
            assert(gp_degree(polys_view(fs@)[k as int]) > degree);
            return true;
        }
        k = k + 1;
    }
    false
}

/// Equal-degree factorization: splits a product of irreducible factors of degree `degree`
/// into those factors (with the roots for `degree == 1`, otherwise by repeated attempts with
/// `b = x + 1, x + 2, ...`), keeping the parts of degree `degree`.
#[verifier::rlimit(40)]
pub fn equal_degree_factorization(factor: &Poly, degree: usize) -> (r: Result<Vec<Poly>>)
    requires
        factor.wf(),
        factor.coeffs_view().len() <= isize::MAX / 2,
    ensures
        r matches Ok(ps) ==> edf_spec(factor.coeffs_view(), degree as nat, factor.field_view().model()) == Some(polys_view(ps@))
            && polys_ok(ps@, factor.field_view(), factor.coeffs_view().len()),
        edf_spec(factor.coeffs_view(), degree as nat, factor.field_view().model()) is None ==> r is Err,
        edf_spec(factor.coeffs_view(), degree as nat, factor.field_view().model()) is Some ==> r is Ok,
{
    let ghost fm = factor.field_view().model();
    let ghost a = factor.coeffs_view();
    let di = factor.degree();
    let n: usize = if di < 0 { usize::MAX } else { di as usize };
    let mut out: Vec<Poly> = Vec::new();
    if n == 0 {
        assert(polys_view(out@) =~= Seq::<Seq<u64>>::empty());
        return Ok(out);
    }
    if n == degree || degree == 0 || n % degree != 0 {
        out.push(factor.clone());
        assert(polys_view(out@) =~= seq![a]);
        return Ok(out);
    }
    if degree == 1 {
        let found = roots_below_limit(factor);
        proof {
            let lim: int = if fm.q < 10000 { fm.q as int } else { 10000 };
            lemma_roots_below_bound(a, lim, fm);
        }
        if found.len() == n {
            let mut k: usize = 0;
            while k < found.len()
                invariant
                    factor.wf(),
                    fm == factor.field_view().model(),
                    found@ == roots_spec(a, fm),
                    forall|t: int| 0 <= t < found@.len() ==> (#[trigger] found@[t]) < factor.field_view().q(),
                    k <= found@.len(),
                    polys_ok(out@, factor.field_view(), factor.coeffs_view().len()),
                    polys_view(out@) == linear_factors(found@, fm).subrange(0, k as int),
                    factor.coeffs_view().len() >= 2,
                decreases found@.len() - k,
            {
                let l = linear(factor, found[k]);
                let ghost old = out@;
                out.push(l);
                assert(polys_view(out@) =~= polys_view(old).push(l.coeffs_view()));
                assert(linear_factors(found@, fm).subrange(0, k + 1) =~= linear_factors(found@, fm).subrange(0, k as int).push(linear_factors(found@, fm)[k as int]));
                k = k + 1;
            }
            assert(linear_factors(found@, fm).subrange(0, found@.len() as int) =~= linear_factors(found@, fm));
            return Ok(out);
        }
    }
    let q = factor.field().order();
    proof { factor.field_view().lemma_q_ge_2(); }
    let e = edf_exponent_exec(q, degree);
    let mut fs: Vec<Poly> = Vec::new();
    fs.push(factor.clone());
    assert(polys_view(fs@) =~= seq![a]);
    let mut attempt: u64 = 1;
    assert(edf_loop(seq![a], 1, degree as nat, fm) is None ==> edf_spec(a, degree as nat, fm) is None);
    loop
        invariant_except_break
            edf_loop(polys_view(fs@), attempt as nat, degree as nat, fm) == edf_loop(seq![a], 1, degree as nat, fm),
        invariant
            factor.wf(),
            factor.coeffs_view().len() <= isize::MAX / 2,
            fm == factor.field_view().model(),
            a == factor.coeffs_view(),
            edf_loop(seq![a], 1, degree as nat, fm) is None ==> edf_spec(a, degree as nat, fm) is None,
            q == fm.q,
            q >= 2,
            1 <= attempt <= 257,
            e == (match edf_exponent(q as nat, degree as nat) { Some(x) => Some(x as u64), None => None::<u64> }),
            edf_exponent(q as nat, degree as nat) matches Some(x) ==> x <= u64::MAX,
            polys_ok(fs@, factor.field_view(), factor.coeffs_view().len()),
        ensures
            polys_ok(fs@, factor.field_view(), factor.coeffs_view().len()),
            Some(polys_view(fs@)) == edf_loop(seq![a], 1, degree as nat, fm),
        decreases 257 - attempt,
    {
        if !any_above_exec(&fs, degree) || attempt > 256 {
            break;
        }
        if attempt >= q {
            return Err(GaloisError::InvalidElement {
                value: attempt,
                characteristic: factor.field().characteristic(),
                degree: factor.field().degree(),
            });
        }
        let mut next: Vec<Poly> = Vec::new();
        let mut k: usize = 0;
        while k < fs.len()
            invariant
                factor.wf(),
                factor.coeffs_view().len() <= isize::MAX / 2,
                fm == factor.field_view().model(),
                q == fm.q,
                attempt < q,
                e == (match edf_exponent(q as nat, degree as nat) { Some(x) => Some(x as u64), None => None::<u64> }),
                edf_exponent(q as nat, degree as nat) matches Some(x) ==> x <= u64::MAX,
                polys_ok(fs@, factor.field_view(), factor.coeffs_view().len()),
                polys_ok(next@, factor.field_view(), factor.coeffs_view().len()),
                k <= fs@.len(),
                polys_view(next@) == edf_round(polys_view(fs@), k as int, attempt as nat, degree as nat, fm),
                !edf_round_fails(polys_view(fs@), k as int, attempt as nat, degree as nat, fm),
                polys_view(fs@).len() == fs@.len(),
                a == factor.coeffs_view(),
                edf_loop(seq![a], 1, degree as nat, fm) is None ==> edf_spec(a, degree as nat, fm) is None,
                edf_loop(polys_view(fs@), attempt as nat, degree as nat, fm) == edf_loop(seq![a], 1, degree as nat, fm),
                any_above(polys_view(fs@), degree as nat),
                attempt <= 256,
            decreases fs@.len() - k,
        {
            let f = &fs[k];
            proof { f.field_view().lemma_equiv_wf(&factor.field_view()); }
            let d = f.degree();
            let ghost old = next@;
            if d < 0 || d as usize <= degree {
                next.push(f.clone());
                assert(polys_view(next@) =~= polys_view(old) + seq![f.coeffs_view()]);
            } else {
                let mut parts = match edf_split_exec(f, attempt, degree, e) {
                    Ok(v) => v,
                    Err(err) => {
                        proof {
                            assert(polys_view(fs@)[k as int] == f.coeffs_view());
                            assert(edf_round_fails(polys_view(fs@), fs@.len() as int, attempt as nat, degree as nat, fm));
                        }
                        return Err(err);
                    },
                };
                let ghost pv = parts@;
                next.append(&mut parts);
                proof {
                    assert(polys_view(next@) =~= polys_view(old) + polys_view(pv));
                    assert forall|t: int| 0 <= t < next@.len() implies (#[trigger] next@[t]).wf()
                        && next@[t].field_view().equiv(&factor.field_view())
                        && next@[t].coeffs_view().len() <= factor.coeffs_view().len() by {
                        if t >= old.len() {
                            assert(next@[t] == pv[t - old.len()]);
                            assert(pv[t - old.len()].field_view().equiv(&f.field_view()));
                        }
                    }
                }
            }
            assert(polys_view(fs@)[k as int] == f.coeffs_view());
            k = k + 1;
        }
        assert(polys_view(fs@).len() == fs@.len());
        assert(polys_view(next@).len() == next@.len());
        let split = next.len() != fs.len();
        fs = next;
        if !split || attempt + 1 > 256 {
            break;
        }
        attempt = attempt + 1;
    }
    let mut res: Vec<Poly> = Vec::new();
    let mut k: usize = 0;
    let ghost final_fs = polys_view(fs@);
    while k < fs.len()
        invariant
            polys_ok(fs@, factor.field_view(), factor.coeffs_view().len()),
            polys_ok(res@, factor.field_view(), factor.coeffs_view().len()),
            final_fs == polys_view(fs@),
            k <= fs@.len(),
            polys_view(res@) == filter_degree(final_fs, k as int, degree as nat),
        decreases fs@.len() - k,
    {
        let d = fs[k].degree();
        let ghost old = res@;
        if d >= 0 && d as usize == degree {
            res.push(fs[k].clone());
            assert(polys_view(res@) =~= polys_view(old) + seq![final_fs[k as int]]);
        } else {
            assert(polys_view(res@) =~= polys_view(old) + Seq::<Seq<u64>>::empty());
        }
        k = k + 1;
    }
    Ok(res)
}


/// The irreducible factors of one distinct-degree part.
pub open spec fn part_factors(d: nat, p: Seq<u64>, fm: FieldModel) -> Option<Seq<Seq<u64>>> {
    if d == 1 { Some(linear_factors(roots_spec(p, fm), fm)) } else { edf_spec(p, d, fm) }
}

/// The factors of the first `k` distinct-degree parts, concatenated.
pub open spec fn factors_concat(parts: Seq<(nat, Seq<u64>)>, k: int, fm: FieldModel) -> Option<Seq<Seq<u64>>>
    decreases k,
{
    if k <= 0 {
        Some(Seq::empty())
    } else {
        match factors_concat(parts, k - 1, fm) {
            None => None,
            Some(prev) => match part_factors(parts[k - 1].0, parts[k - 1].1, fm) {
                None => None,
                Some(x) => Some(prev + x),
            },
        }
    }
}

/// What `factors` returns (`None` for an error).
pub open spec fn factors_spec(a: Seq<u64>, fm: FieldModel) -> Option<Seq<Seq<u64>>> {
    if gp_degree(a) <= 0 {
        Some(seq![a])
    } else {
        let parts = ddf_spec(a, fm);
        factors_concat(parts, parts.len() as int, fm)
    }
}

/// Once the factors of a prefix of the parts fail, so do those of every longer prefix.
proof fn lemma_factors_concat_none(parts: Seq<(nat, Seq<u64>)>, k: int, k2: int, fm: FieldModel)
    requires
        k <= k2,
        factors_concat(parts, k, fm) is None,
    ensures
        factors_concat(parts, k2, fm) is None,
    decreases k2 - k,
{
    if k < k2 {
        lemma_factors_concat_none(parts, k, k2 - 1, fm);
    }
}

/// Whether factoring the polynomial `a` of positive degree fails: in distinct-degree
/// factorization, or in splitting one of its parts.
pub open spec fn factors_fails(a: Seq<u64>, fm: FieldModel) -> bool {
    gp_degree(a) > 0 && (ddf_fails(a, fm) || factors_spec(a, fm) is None)
}

/// Factorization into irreducible polynomials: distinct-degree parts, then linear factors
/// from the roots (degree one) or equal-degree factorization.
pub fn factors(poly: &Poly) -> (r: Result<Vec<Poly>>)
    requires
        poly.wf(),
        poly.coeffs_view().len() <= isize::MAX / 2,
    ensures
        factors_fails(poly.coeffs_view(), poly.field_view().model()) ==> r is Err,
        !factors_fails(poly.coeffs_view(), poly.field_view().model()) ==> r is Ok,
        r matches Ok(ps) ==> factors_spec(poly.coeffs_view(), poly.field_view().model()) == Some(polys_view(ps@))
            && polys_ok(ps@, poly.field_view(), poly.coeffs_view().len()),
{
    let ghost fm = poly.field_view().model();
    let mut result: Vec<Poly> = Vec::new();
    if poly.degree() <= 0 {
        result.push(poly.clone());
        assert(polys_view(result@) =~= seq![poly.coeffs_view()]);
        return Ok(result);
    }
    let parts = match distinct_degree_factorization(poly) {
        Ok(v) => v,
        Err(e) => { return Err(e); },
    };
    let mut k: usize = 0;
    assert(polys_view(result@) =~= Seq::<Seq<u64>>::empty());
    while k < parts.len()
        invariant
            poly.wf(),
            poly.coeffs_view().len() <= isize::MAX / 2,
            gp_degree(poly.coeffs_view()) > 0,
            fm == poly.field_view().model(),
            parts_view(parts@) == ddf_spec(poly.coeffs_view(), fm),
            parts_ok(parts@, poly.field_view()),
            parts_bounded(parts@, poly.coeffs_view().len()),
            k <= parts@.len(),
            polys_ok(result@, poly.field_view(), poly.coeffs_view().len()),
            factors_concat(parts_view(parts@), k as int, fm) == Some(polys_view(result@)),
        decreases parts@.len() - k,
    {
        let d = parts[k].0;
        let part = &parts[k].1;
        proof {
            assert(parts@[k as int].1.wf());
            part.field_view().lemma_equiv_wf(&poly.field_view());
            assert(parts_view(parts@)[k as int] == (d as nat, part.coeffs_view()));
        }
        let ghost old = result@;
        if d == 1 {
            let found = roots_below_limit(part);
            proof {
                let lim: int = if fm.q < 10000 { fm.q as int } else { 10000 };
                lemma_roots_below_bound(part.coeffs_view(), lim, fm);
            }
            let mut j: usize = 0;
            while j < found.len()
                invariant
                    poly.wf(),
                    part.wf(),
                    part.field_view().equiv(&poly.field_view()),
                    fm == poly.field_view().model(),
                    found@ == roots_spec(part.coeffs_view(), fm),
                    forall|t: int| 0 <= t < found@.len() ==> (#[trigger] found@[t]) < part.field_view().q(),
                    j <= found@.len(),
                    polys_ok(result@, poly.field_view(), poly.coeffs_view().len()),
                    gp_degree(poly.coeffs_view()) > 0,
                    polys_view(result@) == polys_view(old) + linear_factors(found@, fm).subrange(0, j as int),
                decreases found@.len() - j,
            {
                let l = linear(part, found[j]);
                let ghost before = result@;
                result.push(l);
                assert(polys_view(result@) =~= polys_view(before).push(l.coeffs_view()));
                assert(linear_factors(found@, fm).subrange(0, j + 1) =~= linear_factors(found@, fm).subrange(0, j as int).push(linear_factors(found@, fm)[j as int]));
                j = j + 1;
            }
            assert(linear_factors(found@, fm).subrange(0, found@.len() as int) =~= linear_factors(found@, fm));
        } else {
            let mut sub = match equal_degree_factorization(part, d) {
                Ok(v) => v,
                Err(e) => {
                    proof {
                        assert(factors_concat(parts_view(parts@), k + 1, fm) is None);
                        lemma_factors_concat_none(parts_view(parts@), k + 1, parts@.len() as int, fm);
                    }
                    return Err(e);
                },
            };
            let ghost subv = sub@;
            result.append(&mut sub);
            proof {
                assert(result@ == old + subv);
                assert(polys_view(result@) =~= polys_view(old) + polys_view(subv));
                assert forall|t: int| 0 <= t < result@.len() implies (#[trigger] result@[t]).wf()
                    && result@[t].field_view().equiv(&poly.field_view())
                    && result@[t].coeffs_view().len() <= poly.coeffs_view().len() by {
                    if t >= old.len() {
                        assert(result@[t] == subv[t - old.len()]);
                        assert(subv[t - old.len()].field_view().equiv(&part.field_view()));
                    }
                }
            }
        }
        k = k + 1;
    }
    Ok(result)
}

} // verus!
