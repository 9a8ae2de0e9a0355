//! Polynomials over GF(p^m), with coefficients in degree-descending order.

use vstd::prelude::*;
use crate::error::{GaloisError, Result};
use crate::field::factory::{GaloisField, FieldModel};
use crate::field::element::same_field;
use crate::poly::integer::{term_text, push_term, lemma_term_text_nonempty};
use crate::text::{push_str, push_char};

verus! {

/// `s` without leading zeros, keeping at least one entry.
pub open spec fn strip_leading(s: Seq<u64>) -> Seq<u64>
    decreases s.len(),
{
    if s.len() == 0 {
        seq![0u64]
    } else if s.len() > 1 && s[0] == 0 {
        strip_leading(s.drop_first())
    } else {
        s
    }
}

/// Canonical descending coefficients over a field of order `q`.
pub open spec fn gp_normal(s: Seq<u64>, q: nat) -> bool {
    &&& s.len() >= 1
    &&& (s.len() == 1 || s[0] != 0)
    &&& forall|i: int| 0 <= i < s.len() ==> (#[trigger] s[i]) < q
}

/// The zero polynomial in canonical form.
pub open spec fn gp_is_zero(s: Seq<u64>) -> bool {
    s.len() == 1 && s[0] == 0
}

/// Degree of canonical descending coefficients; -1 for zero.
pub open spec fn gp_degree(s: Seq<u64>) -> int {
    if gp_is_zero(s) { -1 } else { s.len() - 1 }
}

/// The coefficient of `x^d` in descending coefficients; zero beyond the ends.
pub open spec fn dco(s: Seq<u64>, d: int) -> nat {
    if 0 <= d < s.len() { s[s.len() - 1 - d] as nat } else { 0 }
}

pub open spec fn max_len(a: Seq<u64>, b: Seq<u64>) -> nat {
    if a.len() >= b.len() { a.len() } else { b.len() }
}

/// Sum of polynomials over the field.
pub open spec fn gp_add(a: Seq<u64>, b: Seq<u64>, f: FieldModel) -> Seq<u64> {
    let l = max_len(a, b);
    strip_leading(Seq::new(l, |k: int| f.add(dco(a, l - 1 - k), dco(b, l - 1 - k)) as u64))
}

/// Difference of polynomials over the field.
pub open spec fn gp_sub(a: Seq<u64>, b: Seq<u64>, f: FieldModel) -> Seq<u64> {
    let l = max_len(a, b);
    strip_leading(Seq::new(l, |k: int| f.sub(dco(a, l - 1 - k), dco(b, l - 1 - k)) as u64))
}

/// Coefficientwise negation.
pub open spec fn gp_neg(a: Seq<u64>, f: FieldModel) -> Seq<u64> {
    strip_leading(Seq::new(a.len(), |k: int| f.neg(a[k] as nat) as u64))
}

/// Product with a nonzero scalar `c` of the field.
pub open spec fn gp_scale(a: Seq<u64>, c: nat, f: FieldModel) -> Seq<u64> {
    if c == 0 || gp_is_zero(a) {
        seq![0u64]
    } else {
        strip_leading(Seq::new(a.len(), |k: int| f.mul(a[k] as nat, c) as u64))
    }
}

/// `sum_{i < n} a_i b_{k-i}` accumulated left to right with the field operations, skipping
/// indices outside `b`.
pub open spec fn gconv(a: Seq<u64>, b: Seq<u64>, k: int, n: int, f: FieldModel) -> nat
    decreases n,
{
    if n <= 0 {
        0
    } else {
        let prev = gconv(a, b, k, n - 1, f);
        let j = k - (n - 1);
        if 0 <= j < b.len() {
            f.add(prev, f.mul(a[n - 1] as nat, b[j] as nat))
        } else {
            prev
        }
    }
}

/// Product of polynomials over the field.
pub open spec fn gp_mul(a: Seq<u64>, b: Seq<u64>, f: FieldModel) -> Seq<u64> {
    if gp_is_zero(a) || gp_is_zero(b) {
        seq![0u64]
    } else {
        strip_leading(Seq::new((a.len() + b.len() - 1) as nat, |k: int| gconv(a, b, k, a.len() as int, f) as u64))
    }
}

/// Multiplication by `x^n`.
pub open spec fn gp_shift(a: Seq<u64>, n: nat) -> Seq<u64> {
    if gp_is_zero(a) { seq![0u64] } else { a + Seq::new(n, |i: int| 0u64) }
}

/// Horner evaluation of the first `n` descending coefficients at `x`.
pub open spec fn horner(a: Seq<u64>, x: nat, n: int, f: FieldModel) -> nat
    decreases n,
{
    if n <= 0 { 0 } else { f.add(f.mul(horner(a, x, n - 1, f), x), a[n - 1] as nat) }
}

/// First derivative: the coefficient of `x^(j-1)` is `a_j` times `j` reduced modulo `p`.
pub open spec fn gp_deriv1(a: Seq<u64>, f: FieldModel) -> Seq<u64> {
    let d = a.len() - 1;
    if gp_degree(a) <= 0 {
        seq![0u64]
    } else {
        strip_leading(Seq::new(d as nat, |i: int| f.mul(a[i] as nat, ((d - i) % (f.p as int)) as nat) as u64))
    }
}

/// `k`-th derivative.
pub open spec fn gp_deriv(a: Seq<u64>, k: nat, f: FieldModel) -> Seq<u64>
    decreases k,
{
    if k == 0 {
        a
    } else if gp_degree(a) < k {
        seq![0u64]
    } else {
        gp_deriv(gp_deriv1(a, f), (k - 1) as nat, f)
    }
}

/// The first derivative lowers the degree: a constant goes to zero.
pub proof fn lemma_deriv1_degree(a: Seq<u64>, f: FieldModel)
    ensures
        gp_degree(a) <= 0 ==> gp_degree(gp_deriv1(a, f)) < 0,
        gp_degree(a) >= 1 ==> gp_degree(gp_deriv1(a, f)) <= gp_degree(a) - 1,
{
    if gp_degree(a) <= 0 {
        assert(gp_is_zero(seq![0u64]));
    } else {
        let d = a.len() - 1;
        let s = Seq::new(d as nat, |i: int| f.mul(a[i] as nat, ((d - i) % (f.p as int)) as nat) as u64);
        lemma_strip_leading(s);
    }
}

/// The first derivative of `sum a_j x^j` has `a_(j+1) (j+1)` (with `j+1` reduced modulo `p`)
/// as its coefficient of `x^j` (each coefficient held as a `u64`).
pub proof fn lemma_deriv1_coeffs(a: Seq<u64>, f: FieldModel, j: int)
    requires
        a.len() >= 1,
        gp_degree(a) >= 1,
        0 <= j < gp_degree(a),
    ensures
        dco(gp_deriv1(a, f), j) == (f.mul(dco(a, j + 1), ((j + 1) % (f.p as int)) as nat) as u64) as nat,
{
    let d = a.len() - 1;
    let s = Seq::new(d as nat, |i: int| f.mul(a[i] as nat, ((d - i) % (f.p as int)) as nat) as u64);
    lemma_strip_leading(s);
    let t = strip_leading(s);
    let i = d - 1 - j;
    assert(s[i] == f.mul(a[i] as nat, ((d - i) % (f.p as int)) as nat) as u64);
    assert(dco(a, j + 1) == a[i] as nat);
    if j < t.len() {
        assert(t[t.len() - 1 - j] == s[s.len() - t.len() + (t.len() - 1 - j)]);
    } else {
        assert(s[i] == 0);
    }
}

/// Differentiating `k` times a polynomial of degree at most `k` leaves a constant.
pub proof fn lemma_deriv_degree(a: Seq<u64>, k: nat, f: FieldModel)
    requires
        gp_degree(a) <= k,
    ensures
        gp_degree(gp_deriv(a, k, f)) <= 0,
    decreases k,
{
    if k > 0 {
        if gp_degree(a) < k {
            assert(gp_is_zero(seq![0u64]));
        } else {
            lemma_deriv1_degree(a, f);
            lemma_deriv_degree(gp_deriv1(a, f), (k - 1) as nat, f);
        }
    }
}

/// The derivative taken once is the first derivative.
pub proof fn lemma_deriv_once(a: Seq<u64>, f: FieldModel)
    ensures
        gp_deriv(a, 1, f) == gp_deriv1(a, f),
{
    if gp_degree(a) < 1 {
        assert(gp_is_zero(seq![0u64]));
    } else {
        assert(gp_deriv(gp_deriv1(a, f), 0, f) == gp_deriv1(a, f));
    }
}

/// The `(k+1)`-th derivative is the derivative of the `k`-th derivative: `derivative(k + 1)`
/// equals `derivative(k)` followed by `derivative(1)`, and `derivative(0)` is the
/// polynomial itself.
pub proof fn lemma_deriv_succ(a: Seq<u64>, k: nat, f: FieldModel)
    ensures
        gp_deriv(a, 0, f) == a,
        gp_deriv(a, k + 1, f) == gp_deriv(gp_deriv(a, k, f), 1, f),
    decreases k,
{
    if k > 0 {
        if gp_degree(a) < k + 1 {
            lemma_deriv_degree(a, k, f);
            let c = gp_deriv(a, k, f);
            assert(gp_deriv(c, 1, f) == seq![0u64]);
        } else {
            let b = gp_deriv1(a, f);
            lemma_deriv_succ(b, (k - 1) as nat, f);
            assert(gp_deriv(a, k, f) == gp_deriv(b, (k - 1) as nat, f));
            assert(gp_deriv(a, k + 1, f) == gp_deriv(b, k, f));
        }
    }
}

/// The text of the first `n` terms of descending coefficients, joined by `" + "`.
pub open spec fn terms_text_desc(s: Seq<u64>, n: int, var: Seq<char>) -> Seq<char>
    decreases n,
{
    if n <= 0 {
        Seq::empty()
    } else {
        let prev = terms_text_desc(s, n - 1, var);
        let c = s[n - 1] as nat;
        let t = term_text(c, (s.len() - n) as nat, var);
        if c == 0 {
            prev
        } else if prev.len() == 0 {
            t
        } else {
            prev + seq![' ', '+', ' '] + t
        }
    }
}

/// Index of the first entry that is at least `q`.
pub open spec fn first_invalid(s: Seq<u64>, q: nat) -> int {
    choose|i: int| 0 <= i < s.len() && s[i] >= q && forall|j: int| 0 <= j < i ==> s[j] < q
}

pub proof fn lemma_strip_leading(s: Seq<u64>)
    ensures
        strip_leading(s).len() >= 1,
        s.len() >= 1 ==> strip_leading(s).len() <= s.len(),
        strip_leading(s).len() == 1 || strip_leading(s)[0] != 0,
        s.len() >= 1 ==> forall|i: int| 0 <= i < strip_leading(s).len() ==>
            #[trigger] strip_leading(s)[i] == s[s.len() - strip_leading(s).len() + i],
        s.len() == 0 ==> strip_leading(s) == seq![0u64],
        forall|i: int| 0 <= i < s.len() - strip_leading(s).len() ==> #[trigger] s[i] == 0,
    decreases s.len(),
{
    if s.len() == 0 {
    } else if s.len() > 1 && s[0] == 0 {
        lemma_strip_leading(s.drop_first());
        let t = strip_leading(s);
        assert forall|i: int| 0 <= i < s.len() - t.len() implies #[trigger] s[i] == 0 by {
            if i > 0 {
                assert(s.drop_first()[i - 1] == s[i]);
            }
        }
    }
}

/// Sums and differences are no longer than the longer argument.
pub proof fn lemma_gp_add_sub_len(a: Seq<u64>, b: Seq<u64>, f: FieldModel)
    requires
        a.len() >= 1,
    ensures
        gp_add(a, b, f).len() <= max_len(a, b),
        gp_sub(a, b, f).len() <= max_len(a, b),
{
    let l = max_len(a, b);
    lemma_strip_leading(Seq::new(l, |k: int| f.add(dco(a, l - 1 - k), dco(b, l - 1 - k)) as u64));
    lemma_strip_leading(Seq::new(l, |k: int| f.sub(dco(a, l - 1 - k), dco(b, l - 1 - k)) as u64));
}

/// Stripping entries below `q` gives canonical coefficients.
pub proof fn lemma_strip_leading_normal(s: Seq<u64>, q: nat)
    requires
        q > 0,
        forall|i: int| 0 <= i < s.len() ==> (#[trigger] s[i]) < q,
    ensures
        gp_normal(strip_leading(s), q),
{
    lemma_strip_leading(s);
    let t = strip_leading(s);
    assert forall|i: int| 0 <= i < t.len() implies (#[trigger] t[i]) < q by {
        if s.len() > 0 {
            assert(t[i] == s[s.len() - t.len() + i]);
        }
    }
}

/// Canonical sequences are unchanged by stripping.
pub proof fn lemma_strip_leading_id(s: Seq<u64>, q: nat)
    requires
        gp_normal(s, q),
    ensures
        strip_leading(s) == s,
{
}

/// Removes leading zeros, keeping at least one coefficient.
pub(crate) fn strip_leading_vec(v: Vec<u64>) -> (r: Vec<u64>)
    ensures
        r@ == strip_leading(v@),
{
    if v.len() == 0 {
        return vec![0];
    }
    let mut start: usize = 0;
    assert(v@.subrange(0, v@.len() as int) =~= v@);
    while start < v.len() - 1 && v[start] == 0
        invariant
            v@.len() >= 1,
            start < v@.len(),
            strip_leading(v@.subrange(start as int, v@.len() as int)) == strip_leading(v@),
        decreases v@.len() - start,
    {
        let ghost s = v@.subrange(start as int, v@.len() as int);
        assert(s.drop_first() =~= v@.subrange(start + 1, v@.len() as int));
        start = start + 1;
    }
    let mut out: Vec<u64> = Vec::new();
    let mut i: usize = start;
    while i < v.len()
        invariant
            start <= i <= v@.len(),
            out@ =~= v@.subrange(start as int, i as int),
        decreases v@.len() - i,
    {
        out.push(v[i]);
        i = i + 1;
    }
    proof {
        let s = v@.subrange(start as int, v@.len() as int);
        assert(out@ =~= s);
        assert(strip_leading(s) == s);
    }
    out
}


/// A univariate polynomial over GF(p^m), coefficients in degree-descending order.
#[derive(Debug)]
pub struct Poly {
    field: GaloisField,
    coeffs: Vec<u64>,
}

impl Clone for Poly {
    fn clone(&self) -> (r: Self)
        ensures
            r.field_view().equiv(&self.field_view()),
            r.coeffs_view() == self.coeffs_view(),
    {
        let c = self.coeffs.clone();
        assert(c@ =~= self.coeffs@);
        Poly { field: self.field.clone(), coeffs: c }
    }
}

impl Poly {
    pub closed spec fn field_view(&self) -> GaloisField {
        self.field
    }

    /// Coefficients in degree-descending order.
    pub closed spec fn coeffs_view(&self) -> Seq<u64> {
        self.coeffs@
    }

    /// A well-formed field and canonical coefficients of it.
    pub open spec fn wf(&self) -> bool {
        &&& self.field_view().wf()
        &&& gp_normal(self.coeffs_view(), self.field_view().q())
        &&& self.coeffs_view().len() <= isize::MAX
    }

    /// Builds the polynomial with degree-descending `coeffs`; `InvalidElement` for the first
    /// coefficient that is not an element.
    pub fn new(coeffs: Vec<u64>, field: GaloisField) -> (r: Result<Self>)
        requires
            field.wf(),
            coeffs@.len() <= isize::MAX,
        ensures
            (exists|i: int| 0 <= i < coeffs@.len() && coeffs@[i] >= field.q()) ==> r == Err::<Self, GaloisError>(
                GaloisError::InvalidElement { value: coeffs@[first_invalid(coeffs@, field.q())],
                    characteristic: field.p() as u64, degree: field.m() as u32 }),
            (forall|i: int| 0 <= i < coeffs@.len() ==> coeffs@[i] < field.q()) ==> (r matches Ok(x) && x.wf()
                && x.field_view() == field && x.coeffs_view() == strip_leading(coeffs@)),
    {
        let mut i: usize = 0;
        while i < coeffs.len()
            invariant
                i <= coeffs@.len(),
                forall|j: int| 0 <= j < i ==> coeffs@[j] < field.q(),
            decreases coeffs@.len() - i,
        {
            if coeffs[i] >= field.order() {
                let ghost k = first_invalid(coeffs@, field.q());
                assert(0 <= i < coeffs@.len() && coeffs@[i as int] >= field.q()
                    && forall|j: int| 0 <= j < i ==> coeffs@[j] < field.q());
                proof {
                    if k != i {
                        assert(k < i || k > i);
                    }
                }
                return Err(GaloisError::InvalidElement {
                    value: coeffs[i],
                    characteristic: field.characteristic(),
                    degree: field.degree(),
                });
            }
            i = i + 1;
        }
        Ok(Self::from_valid(coeffs, field))
    }

    /// Strips coefficients known to be elements.
    pub(crate) fn from_valid(coeffs: Vec<u64>, field: GaloisField) -> (r: Self)
        requires
            field.wf(),
            coeffs@.len() <= isize::MAX,
            forall|i: int| 0 <= i < coeffs@.len() ==> coeffs@[i] < field.q(),
        ensures
            r.wf(),
            r.field_view() == field,
            r.coeffs_view() == strip_leading(coeffs@),
    {
        let c = strip_leading_vec(coeffs);
        proof {
            lemma_strip_leading(coeffs@);
            lemma_strip_leading_normal(coeffs@, field.q());
        }
        Poly { field, coeffs: c }
    }

    /// Builds the polynomial with degree-ascending `coeffs`.
    pub fn new_asc(coeffs: Vec<u64>, field: GaloisField) -> (r: Result<Self>)
        requires
            field.wf(),
            coeffs@.len() <= isize::MAX,
        ensures
            (exists|i: int| 0 <= i < coeffs@.len() && coeffs@[i] >= field.q()) ==> r is Err,
            (forall|i: int| 0 <= i < coeffs@.len() ==> coeffs@[i] < field.q()) ==> (r matches Ok(x) && x.wf()
                && x.field_view() == field && x.coeffs_view() == strip_leading(coeffs@.reverse())),
    {
        let desc = reverse_vec(coeffs.as_slice());
        proof {
            if exists|i: int| 0 <= i < coeffs@.len() && coeffs@[i] >= field.q() {
                let i = choose|i: int| 0 <= i < coeffs@.len() && coeffs@[i] >= field.q();
                assert(desc@[coeffs@.len() - 1 - i] == coeffs@[i]);
            }
        }
        Self::new(desc, field)
    }

    pub fn zero(field: GaloisField) -> (r: Self)
        requires
            field.wf(),
        ensures
            r.wf(),
            r.field_view() == field,
            r.coeffs_view() == seq![0u64],
    {
        proof { field.lemma_q_ge_2(); }
        let r = Poly { field, coeffs: vec![0] };
        assert(r.coeffs_view() =~= seq![0u64]);
        r
    }

    pub fn one(field: GaloisField) -> (r: Self)
        requires
            field.wf(),
        ensures
            r.wf(),
            r.field_view() == field,
            r.coeffs_view() == seq![1u64],
    {
        proof { field.lemma_q_ge_2(); }
        let r = Poly { field, coeffs: vec![1] };
        assert(r.coeffs_view() =~= seq![1u64]);
        r
    }

    /// The polynomial `x`.
    pub fn x(field: GaloisField) -> (r: Self)
        requires
            field.wf(),
        ensures
            r.wf(),
            r.field_view() == field,
            r.coeffs_view() == seq![1u64, 0u64],
    {
        proof { field.lemma_q_ge_2(); }
        let r = Poly { field, coeffs: vec![1, 0] };
        assert(r.coeffs_view() =~= seq![1u64, 0u64]);
        r
    }

    pub fn field(&self) -> (r: &GaloisField)
        ensures
            *r == self.field_view(),
    {
        &self.field
    }

    /// Degree; -1 for the zero polynomial.
    pub fn degree(&self) -> (r: isize)
        requires
            self.wf(),
        ensures
            r == gp_degree(self.coeffs_view()),
    {
        if self.coeffs.len() <= 1 && self.coeffs[0] == 0 {
            -1
        } else {
            self.coeffs.len() as isize - 1
        }
    }

    pub fn is_zero(&self) -> (r: bool)
        requires
            self.wf(),
        ensures
            r == gp_is_zero(self.coeffs_view()),
    {
        self.coeffs.len() == 1 && self.coeffs[0] == 0
    }

    pub fn is_one(&self) -> (r: bool)
        requires
            self.wf(),
        ensures
            r == (self.coeffs_view() == seq![1u64]),
    {
        let r = self.coeffs.len() == 1 && self.coeffs[0] == 1;
        assert(r ==> self.coeffs@ =~= seq![1u64]);
        r
    }

    /// Leading coefficient equal to one.
    pub fn is_monic(&self) -> (r: bool)
        requires
            self.wf(),
        ensures
            r == (!gp_is_zero(self.coeffs_view()) && self.coeffs_view()[0] == 1),
    {
        !self.is_zero() && self.coeffs[0] == 1
    }

    /// Coefficients in degree-descending order.
    pub fn coeffs(&self) -> (r: &[u64])
        ensures
            r@ == self.coeffs_view(),
    {
        self.coeffs.as_slice()
    }

    /// Coefficients in degree-ascending order.
    pub fn coeffs_asc(&self) -> (r: Vec<u64>)
        ensures
            r@ == self.coeffs_view().reverse(),
    {
        reverse_vec(self.coeffs.as_slice())
    }

    /// The leading coefficient; zero for the zero polynomial.
    pub fn leading_coeff(&self) -> (r: u64)
        requires
            self.wf(),
        ensures
            r == self.coeffs_view()[0],
    {
        self.coeffs[0]
    }
}

/// The entries of `v` in reverse order.
pub(crate) fn reverse_vec(v: &[u64]) -> (r: Vec<u64>)
    ensures
        r@ == v@.reverse(),
{
    let mut out: Vec<u64> = Vec::new();
    let mut i: usize = v.len();
    while i > 0
        invariant
            i <= v@.len(),
            out@.len() == v@.len() - i,
            forall|j: int| 0 <= j < out@.len() ==> #[trigger] out@[j] == v@[v@.len() - 1 - j],
        decreases i,
    {
        i = i - 1;
        out.push(v[i]);
    }
    assert(out@ =~= v@.reverse());
    out
}


impl Poly {
    fn ensure_same_field(&self, other: &Self) -> (r: Result<()>)
        ensures
            r is Ok <==> same_field(self.field_view(), other.field_view()),
            r is Err ==> r == Err::<(), GaloisError>(GaloisError::PolynomialFieldMismatch),
    {
        if self.field.order() != other.field.order() || self.field.characteristic() != other.field.characteristic()
            || self.field.degree() != other.field.degree() {
            return Err(GaloisError::PolynomialFieldMismatch);
        }
        Ok(())
    }

    /// Coefficientwise sum (`mode` 0) or difference (`mode` 1) with degrees aligned.
    fn combine(&self, other: &Self, mode: u8) -> (r: Self)
        requires
            self.wf(),
            other.wf(),
            mode <= 1,
        ensures
            r.wf(),
            r.field_view().equiv(&self.field_view()),
            mode == 0 ==> r.coeffs_view() == gp_add(self.coeffs_view(), other.coeffs_view(), self.field_view().model()),
            mode == 1 ==> r.coeffs_view() == gp_sub(self.coeffs_view(), other.coeffs_view(), self.field_view().model()),
    {
        let la = self.coeffs.len();
        let lb = other.coeffs.len();
        let len = if la >= lb { la } else { lb };
        let ghost f = self.field.model();
        let ghost a = self.coeffs@;
        let ghost b = other.coeffs@;
        let mut out: Vec<u64> = Vec::new();
        let mut k: usize = 0;
        while k < len
            invariant
                f == self.field.model(),
                a == self.coeffs@,
                b == other.coeffs@,
                self.field.params_ok(),
                la == a.len(),
                lb == b.len(),
                len == max_len(a, b),
                mode <= 1,
                k <= len,
                out@.len() == k,
                forall|j: int| 0 <= j < k ==> (#[trigger] out@[j]) < f.q,
                mode == 0 ==> forall|j: int| 0 <= j < k ==> #[trigger] out@[j] == f.add(dco(a, len - 1 - j), dco(b, len - 1 - j)),
                mode == 1 ==> forall|j: int| 0 <= j < k ==> #[trigger] out@[j] == f.sub(dco(a, len - 1 - j), dco(b, len - 1 - j)),
            decreases len - k,
        {
            let d = len - 1 - k;
            let x: u64 = if d < la { self.coeffs[la - 1 - d] } else { 0 };
            let y: u64 = if d < lb { other.coeffs[lb - 1 - d] } else { 0 };
            let v = if mode == 0 { self.field.add(x, y) } else { self.field.sub(x, y) };
            out.push(v);
            k = k + 1;
        }
        let ghost target = if mode == 0 {
            Seq::new(len as nat, |j: int| f.add(dco(a, len - 1 - j), dco(b, len - 1 - j)) as u64)
        } else {
            Seq::new(len as nat, |j: int| f.sub(dco(a, len - 1 - j), dco(b, len - 1 - j)) as u64)
        };
        assert(out@ =~= target);
        let field = self.field.clone();
        proof { field.lemma_equiv_wf(&self.field); }
        Self::from_valid(out, field)
    }

    /// Sum; `PolynomialFieldMismatch` for polynomials over different fields.
    pub fn add(&self, other: &Self) -> (r: Result<Self>)
        requires
            self.wf(),
            other.wf(),
        ensures
            !same_field(self.field_view(), other.field_view()) ==> r == Err::<Self, GaloisError>(GaloisError::PolynomialFieldMismatch),
            same_field(self.field_view(), other.field_view()) ==> (r matches Ok(x) && x.wf()
                && x.field_view().equiv(&self.field_view())
                && x.coeffs_view() == gp_add(self.coeffs_view(), other.coeffs_view(), self.field_view().model())),
    {
        if let Err(e) = self.ensure_same_field(other) {
            return Err(e);
        }
        Ok(self.combine(other, 0))
    }

    /// Difference; `PolynomialFieldMismatch` for polynomials over different fields.
    pub fn sub(&self, other: &Self) -> (r: Result<Self>)
        requires
            self.wf(),
            other.wf(),
        ensures
            !same_field(self.field_view(), other.field_view()) ==> r == Err::<Self, GaloisError>(GaloisError::PolynomialFieldMismatch),
            same_field(self.field_view(), other.field_view()) ==> (r matches Ok(x) && x.wf()
                && x.field_view().equiv(&self.field_view())
                && x.coeffs_view() == gp_sub(self.coeffs_view(), other.coeffs_view(), self.field_view().model())),
    {
        if let Err(e) = self.ensure_same_field(other) {
            return Err(e);
        }
        Ok(self.combine(other, 1))
    }

    /// Coefficientwise negation.
    pub fn neg(&self) -> (r: Self)
        requires
            self.wf(),
        ensures
            r.wf(),
            r.field_view().equiv(&self.field_view()),
            r.coeffs_view() == gp_neg(self.coeffs_view(), self.field_view().model()),
    {
        let ghost f = self.field.model();
        let mut out: Vec<u64> = Vec::new();
        let mut k: usize = 0;
        while k < self.coeffs.len()
            invariant
                f == self.field.model(),
                self.field.params_ok(),
                k <= self.coeffs@.len(),
                out@.len() == k,
                forall|j: int| 0 <= j < k ==> (#[trigger] out@[j]) < f.q,
                forall|j: int| 0 <= j < k ==> #[trigger] out@[j] == f.neg(self.coeffs@[j] as nat),
            decreases self.coeffs@.len() - k,
        {
            out.push(self.field.neg(self.coeffs[k]));
            k = k + 1;
        }
        assert(out@ =~= Seq::new(self.coeffs@.len(), |j: int| f.neg(self.coeffs@[j] as nat) as u64));
        let field = self.field.clone();
        proof { field.lemma_equiv_wf(&self.field); }
        Self::from_valid(out, field)
    }

    /// Product with a scalar of the field; `InvalidElement` when it is not an element.
    pub fn mul_scalar(&self, scalar: u64) -> (r: Result<Self>)
        requires
            self.wf(),
        ensures
            scalar >= self.field_view().q() ==> r == Err::<Self, GaloisError>(GaloisError::InvalidElement {
                value: scalar, characteristic: self.field_view().p() as u64, degree: self.field_view().m() as u32 }),
            scalar < self.field_view().q() ==> (r matches Ok(x) && x.wf() && x.field_view().equiv(&self.field_view())
                && x.coeffs_view() == gp_scale(self.coeffs_view(), scalar as nat, self.field_view().model())),
    {
        let scalar = match self.field.validate_element(scalar) {
            Ok(v) => v,
            Err(e) => { return Err(e); },
        };
        let field = self.field.clone();
        proof { field.lemma_equiv_wf(&self.field); }
        if scalar == 0 || self.is_zero() {
            return Ok(Self::zero(field));
        }
        let ghost f = self.field.model();
        let mut out: Vec<u64> = Vec::new();
        let mut k: usize = 0;
        while k < self.coeffs.len()
            invariant
                f == self.field.model(),
                self.field.params_ok(),
                scalar < f.q,
                self.wf(),
                k <= self.coeffs@.len(),
                out@.len() == k,
                forall|j: int| 0 <= j < k ==> (#[trigger] out@[j]) < f.q,
                forall|j: int| 0 <= j < k ==> #[trigger] out@[j] == f.mul(self.coeffs@[j] as nat, scalar as nat),
            decreases self.coeffs@.len() - k,
        {
            out.push(self.field.mul(self.coeffs[k], scalar));
            k = k + 1;
        }
        assert(out@ =~= Seq::new(self.coeffs@.len(), |j: int| f.mul(self.coeffs@[j] as nat, scalar as nat) as u64));
        Ok(Self::from_valid(out, field))
    }

    /// Product; `PolynomialFieldMismatch` for polynomials over different fields.
    pub fn mul(&self, other: &Self) -> (r: Result<Self>)
        requires
            self.wf(),
            other.wf(),
            self.coeffs_view().len() + other.coeffs_view().len() <= isize::MAX + 1,
        ensures
            !same_field(self.field_view(), other.field_view()) ==> r == Err::<Self, GaloisError>(GaloisError::PolynomialFieldMismatch),
            same_field(self.field_view(), other.field_view()) ==> (r matches Ok(x) && x.wf()
                && x.field_view().equiv(&self.field_view())
                && x.coeffs_view() == gp_mul(self.coeffs_view(), other.coeffs_view(), self.field_view().model())
                && x.coeffs_view().len() <= self.coeffs_view().len() + other.coeffs_view().len() - 1),
    {
        if let Err(e) = self.ensure_same_field(other) {
            return Err(e);
        }
        let field = self.field.clone();
        proof { field.lemma_equiv_wf(&self.field); }
        if self.is_zero() || other.is_zero() {
            return Ok(Self::zero(field));
        }
        let ghost f = self.field.model();
        let ghost a = self.coeffs@;
        let ghost b = other.coeffs@;
        let la = self.coeffs.len();
        let lb = other.coeffs.len();
        let n = la + lb - 1;
        let mut out: Vec<u64> = vec![0u64; n];
        let mut i: usize = 0;
        while i < la
            invariant
                f == self.field.model(),
                a == self.coeffs@,
                b == other.coeffs@,
                self.field.params_ok(),
                la == a.len(),
                lb == b.len(),
                n == la + lb - 1,
                same_field(self.field, other.field_view()),
                forall|t: int| 0 <= t < la ==> (#[trigger] a[t]) < f.q,
                forall|t: int| 0 <= t < lb ==> (#[trigger] b[t]) < f.q,
                i <= la,
                out@.len() == n,
                forall|k: int| 0 <= k < n ==> (#[trigger] out@[k]) < f.q,
                forall|k: int| 0 <= k < n ==> #[trigger] out@[k] == gconv(a, b, k, i as int, f),
            decreases la - i,
        {
            let mut j: usize = 0;
            while j < lb
                invariant
                    f == self.field.model(),
                    a == self.coeffs@,
                    b == other.coeffs@,
                    self.field.params_ok(),
                    la == a.len(),
                    lb == b.len(),
                    n == la + lb - 1,
                    forall|t: int| 0 <= t < la ==> (#[trigger] a[t]) < f.q,
                    forall|t: int| 0 <= t < lb ==> (#[trigger] b[t]) < f.q,
                    i < la,
                    j <= lb,
                    out@.len() == n,
                    forall|k: int| 0 <= k < n ==> (#[trigger] out@[k]) < f.q,
                    forall|k: int| 0 <= k < n ==> #[trigger] out@[k] == (if i <= k < i + j {
                        gconv(a, b, k, i + 1, f) } else { gconv(a, b, k, i as int, f) }),
                decreases lb - j,
            {
                let k = i + j;
                let prod = self.field.mul(self.coeffs[i], other.coeffs[j]);
                let v = self.field.add(out[k], prod);
                out.set(k, v);
                j = j + 1;
            }
            assert forall|k: int| 0 <= k < n implies #[trigger] out@[k] == gconv(a, b, k, i + 1, f) by {
                if !(i <= k < i + lb) {
                    assert(gconv(a, b, k, i + 1, f) == gconv(a, b, k, i as int, f));
                }
            }
            i = i + 1;
        }
        assert(out@ =~= Seq::new((a.len() + b.len() - 1) as nat, |k: int| gconv(a, b, k, a.len() as int, f) as u64));
        proof { lemma_strip_leading(out@); }
        Ok(Self::from_valid(out, field))
    }

    /// Multiplication by `x^amount`.
    pub fn shift(&self, amount: usize) -> (r: Self)
        requires
            self.wf(),
            self.coeffs_view().len() + amount <= isize::MAX,
        ensures
            r.wf(),
            r.field_view().equiv(&self.field_view()),
            r.coeffs_view() == gp_shift(self.coeffs_view(), amount as nat),
    {
        let field = self.field.clone();
        proof { field.lemma_equiv_wf(&self.field); field.lemma_q_ge_2(); }
        if self.is_zero() {
            return Self::zero(field);
        }
        let mut c = self.coeffs.clone();
        assert(c@ =~= self.coeffs@);
        let mut k: usize = 0;
        while k < amount
            invariant
                k <= amount,
                c@ =~= self.coeffs@ + Seq::new(k as nat, |i: int| 0u64),
            decreases amount - k,
        {
            c.push(0);
            k = k + 1;
        }
        let r = Poly { field, coeffs: c };
        assert(forall|i: int| 0 <= i < r.coeffs_view().len() ==> (#[trigger] r.coeffs_view()[i]) < r.field_view().q());
        r
    }

    /// Value at `x` by Horner's rule; `InvalidElement` when `x` is not an element.
    pub fn evaluate(&self, x: u64) -> (r: Result<u64>)
        requires
            self.wf(),
        ensures
            x >= self.field_view().q() ==> r == Err::<u64, GaloisError>(GaloisError::InvalidElement {
                value: x, characteristic: self.field_view().p() as u64, degree: self.field_view().m() as u32 }),
            x < self.field_view().q() ==> (r matches Ok(v) && v < self.field_view().q()
                && v == horner(self.coeffs_view(), x as nat, self.coeffs_view().len() as int, self.field_view().model())),
    {
        let x = match self.field.validate_element(x) {
            Ok(v) => v,
            Err(e) => { return Err(e); },
        };
        proof { self.field.lemma_q_ge_2(); }
        let mut result: u64 = 0;
        let mut k: usize = 0;
        while k < self.coeffs.len()
            invariant
                self.wf(),
                x < self.field_view().q(),
                k <= self.coeffs@.len(),
                result < self.field_view().q(),
                result == horner(self.coeffs@, x as nat, k as int, self.field.model()),
            decreases self.coeffs@.len() - k,
        {
            let t = self.field.mul(result, x);
            result = self.field.add(t, self.coeffs[k]);
            k = k + 1;
        }
        Ok(result)
    }
}


impl Poly {
    /// First derivative.
    fn derivative1(&self) -> (r: Self)
        requires
            self.wf(),
        ensures
            r.wf(),
            r.field_view().equiv(&self.field_view()),
            r.coeffs_view() == gp_deriv1(self.coeffs_view(), self.field_view().model()),
    {
        let field = self.field.clone();
        proof { field.lemma_equiv_wf(&self.field); }
        if self.degree() <= 0 {
            return Self::zero(field);
        }
        let ghost f = self.field.model();
        let d = self.coeffs.len() - 1;
        let p = self.field.characteristic();
        proof { self.field.lemma_q_ge_2(); }
        let mut out: Vec<u64> = Vec::new();
        let mut i: usize = 0;
        while i < d
            invariant
                f == self.field.model(),
                self.field.params_ok(),
                self.wf(),
                d == self.coeffs@.len() - 1,
                p == f.p,
                f.q >= f.p,
                i <= d,
                out@.len() == i,
                forall|j: int| 0 <= j < i ==> (#[trigger] out@[j]) < f.q,
                forall|j: int| 0 <= j < i ==> #[trigger] out@[j] == f.mul(self.coeffs@[j] as nat, ((d - j) % (p as int)) as nat),
            decreases d - i,
        {
            let c = ((d - i) as u64) % p;
            out.push(self.field.mul(self.coeffs[i], c));
            i = i + 1;
        }
        assert(out@ =~= Seq::new(d as nat, |j: int| f.mul(self.coeffs@[j] as nat, ((d - j) % (f.p as int)) as nat) as u64));
        Self::from_valid(out, field)
    }

    /// The `k`-th derivative.
    pub fn derivative(&self, k: u32) -> (r: Self)
        requires
            self.wf(),
        ensures
            r.wf(),
            r.field_view().equiv(&self.field_view()),
            r.coeffs_view() == gp_deriv(self.coeffs_view(), k as nat, self.field_view().model()),
    {
        let mut poly = self.clone();
        let mut rem: u32 = k;
        while rem > 0
            invariant
                poly.wf(),
                poly.field_view().equiv(&self.field_view()),
                gp_deriv(self.coeffs_view(), k as nat, self.field_view().model())
                    == gp_deriv(poly.coeffs_view(), rem as nat, self.field_view().model()),
            decreases rem,
        {
            proof { poly.field_view().lemma_equiv_wf(&self.field_view()); }
            if (poly.degree() as i64) < (rem as i64) {
                let field = poly.field.clone();
                proof { field.lemma_equiv_wf(&poly.field); }
                return Self::zero(field);
            }
            poly = poly.derivative1();
            rem = rem - 1;
        }
        poly
    }
}



/// One step of long division on ascending coefficients: the coefficient at `k` is
/// eliminated and `c x^(k - deg d) d` is subtracted below it.
pub open spec fn gdiv_step(rem: Seq<u64>, d: Seq<u64>, k: int, c: nat, f: FieldModel) -> Seq<u64> {
    let shift = k - (d.len() - 1);
    Seq::new(rem.len(), |t: int| if t == k {
        0u64
    } else if shift <= t < k {
        f.sub(rem[t] as nat, f.mul(c, d[t - shift] as nat)) as u64
    } else {
        rem[t]
    })
}

/// Schoolbook long division on ascending coefficients, eliminating positions
/// `k, k-1, ..., deg d`; returns quotient and remainder before stripping.
pub open spec fn glong_div(rem: Seq<u64>, quo: Seq<u64>, d: Seq<u64>, inv: nat, k: int, f: FieldModel) -> (Seq<u64>, Seq<u64>)
    decreases k + 1,
{
    if k < 0 || k < d.len() - 1 {
        (quo, rem)
    } else {
        let c = f.mul(rem[k] as nat, inv);
        glong_div(gdiv_step(rem, d, k, c, f), quo.update(k - (d.len() - 1), c as u64), d, inv, k - 1, f)
    }
}

pub open spec fn gquo_len(a: Seq<u64>, d: Seq<u64>) -> nat {
    if a.len() > d.len() - 1 { (a.len() - (d.len() - 1)) as nat } else { 1 }
}

/// Quotient and remainder of descending `a` by descending nonzero `d`.
pub open spec fn gp_divmod(a: Seq<u64>, d: Seq<u64>, f: FieldModel) -> (Seq<u64>, Seq<u64>) {
    let ar = a.reverse();
    let dr = d.reverse();
    let r = glong_div(ar, Seq::new(gquo_len(ar, dr), |i: int| 0u64), dr, f.div(1, dr.last() as nat), ar.len() - 1, f);
    (strip_leading(r.0.reverse()), strip_leading(r.1.reverse()))
}

/// Leading coefficient scaled to one.
pub open spec fn gp_monic(a: Seq<u64>, f: FieldModel) -> Seq<u64> {
    if gp_is_zero(a) || a[0] == 1 { a } else { gp_scale(a, f.div(1, a[0] as nat), f) }
}

/// Canonical shape: at least one coefficient and no leading zero unless zero itself.
pub open spec fn gp_shape(s: Seq<u64>) -> bool {
    s.len() >= 1 && (s.len() == 1 || s[0] != 0)
}

/// Long division leaves zeros at and above the divisor's degree.
pub proof fn lemma_glong_div_clears(rem: Seq<u64>, quo: Seq<u64>, d: Seq<u64>, inv: nat, k: int, f: FieldModel)
    requires
        d.len() >= 1,
        -1 <= k < rem.len(),
        quo.len() >= k - (d.len() - 1) + 1,
        forall|t: int| k < t < rem.len() ==> #[trigger] rem[t] == 0,
    ensures
        glong_div(rem, quo, d, inv, k, f).1.len() == rem.len(),
        glong_div(rem, quo, d, inv, k, f).0.len() == quo.len(),
        forall|t: int| d.len() - 1 <= t < rem.len() ==> #[trigger] glong_div(rem, quo, d, inv, k, f).1[t] == 0,
    decreases k + 1,
{
    if k < 0 || k < d.len() - 1 {
    } else {
        let c = f.mul(rem[k] as nat, inv);
        lemma_glong_div_clears(gdiv_step(rem, d, k, c, f), quo.update(k - (d.len() - 1), c as u64), d, inv, k - 1, f);
    }
}

/// Stripping a reversed sequence whose entries at or above `l` vanish leaves at most
/// `max(l, 1)` coefficients, and zero when `l == 0`.
pub proof fn lemma_strip_rev_tail(s: Seq<u64>, l: int)
    requires
        s.len() >= 1,
        0 <= l,
        forall|t: int| l <= t < s.len() ==> #[trigger] s[t] == 0,
    ensures
        strip_leading(s.reverse()).len() <= (if l >= 1 { l } else { 1 }),
        l == 0 ==> strip_leading(s.reverse()) == seq![0u64],
{
    let r = s.reverse();
    lemma_strip_leading(r);
    let t = strip_leading(r);
    if t.len() > (if l >= 1 { l } else { 1 }) {
        // the first kept entry is nonzero unless t == [0]
        assert(t[0] == r[r.len() - t.len()]);
        assert(r[r.len() - t.len()] == s[t.len() - 1]);
        assert(t.len() - 1 >= l);
    }
    if l == 0 {
        assert(t[0] == r[r.len() - t.len()]);
        assert(r[r.len() - t.len()] == s[t.len() - 1]);
        assert(t.len() == 1);
        assert(t =~= seq![0u64]);
    }
}

/// The remainder of a division has the canonical shape and lower degree than the divisor.
pub proof fn lemma_gp_divmod(a: Seq<u64>, d: Seq<u64>, f: FieldModel)
    requires
        gp_shape(a),
        gp_shape(d),
        !gp_is_zero(d),
    ensures
        gp_shape(gp_divmod(a, d, f).0),
        gp_shape(gp_divmod(a, d, f).1),
        gp_degree(gp_divmod(a, d, f).1) < gp_degree(d),
        gp_is_zero(gp_divmod(a, d, f).1) || gp_divmod(a, d, f).1.len() < d.len(),
        gp_divmod(a, d, f).1.len() <= a.len(),
        gp_divmod(a, d, f).0.len() <= a.len(),
{
    let ar = a.reverse();
    let dr = d.reverse();
    let q0 = Seq::new(gquo_len(ar, dr), |i: int| 0u64);
    let inv = f.div(1, dr.last() as nat);
    lemma_glong_div_clears(ar, q0, dr, inv, ar.len() - 1, f);
    let r = glong_div(ar, q0, dr, inv, ar.len() - 1, f);
    lemma_strip_rev_tail(r.1, dr.len() - 1);
    lemma_strip_leading(r.0.reverse());
    lemma_strip_leading(r.1.reverse());
}

/// Monic greatest common divisor by Euclid's algorithm.
pub open spec fn gp_gcd(a: Seq<u64>, b: Seq<u64>, f: FieldModel) -> Seq<u64>
    decreases (if gp_is_zero(b) { 0 } else { b.len() }),
    when gp_shape(a) && gp_shape(b)
{
    if gp_is_zero(b) {
        gp_monic(a, f)
    } else {
        proof {
            lemma_gp_divmod(a, b, f);
        }
        gp_gcd(b, gp_divmod(a, b, f).1, f)
    }
}

impl Poly {
    /// Text of the polynomial in descending order, e.g. `"x^3 + x + 1"`; `"0"` for zero.
    pub fn format_poly(&self, var: &str) -> (r: String)
        requires
            self.wf(),
        ensures
            gp_is_zero(self.coeffs_view()) ==> r@ == seq!['0'],
            !gp_is_zero(self.coeffs_view()) ==> r@ == terms_text_desc(self.coeffs_view(), self.coeffs_view().len() as int, var@),
    {
        if self.is_zero() {
            let mut z = String::new();
            push_char(&mut z, '0');
            assert(z@ =~= seq!['0']);
            return z;
        }
        let mut out = String::new();
        let mut started = false;
        let n = self.coeffs.len();
        let mut i: usize = 0;
        while i < n
            invariant
                n == self.coeffs@.len(),
                i <= n,
                out@ == terms_text_desc(self.coeffs@, i as int, var@),
                started == (out@.len() > 0),
            decreases n - i,
        {
            let c = self.coeffs[i];
            let ghost prev = out@;
            if c != 0 {
                if started {
                    push_str(&mut out, " + ");
                    proof { reveal_strlit(" + "); }
                }
                push_term(&mut out, c, (n - 1 - i) as u64, var);
                proof {
                    reveal_strlit(" + ");
                    if prev.len() > 0 {
                        assert(out@ =~= prev + seq![' ', '+', ' '] + term_text(c as nat, (n - 1 - i) as nat, var@));
                    } else {
                        assert(out@ =~= term_text(c as nat, (n - 1 - i) as nat, var@));
                    }
                    lemma_term_text_nonempty(c as nat, (n - 1 - i) as nat, var@);
                }
                started = true;
            }
            i = i + 1;
        }
        out
    }

    /// Quotient and remainder; `PolynomialFieldMismatch` for polynomials over different
    /// fields, `PolynomialDivisionByZero` for a zero divisor.
    pub fn divmod(&self, divisor: &Self) -> (r: Result<(Self, Self)>)
        requires
            self.wf(),
            divisor.wf(),
        ensures
            !same_field(self.field_view(), divisor.field_view()) ==> r == Err::<(Self, Self), GaloisError>(
                GaloisError::PolynomialFieldMismatch),
            same_field(self.field_view(), divisor.field_view()) && gp_is_zero(divisor.coeffs_view()) ==> r == Err::<(Self, Self), GaloisError>(
                GaloisError::PolynomialDivisionByZero),
            same_field(self.field_view(), divisor.field_view()) && !gp_is_zero(divisor.coeffs_view()) ==> (r matches Ok((q, m))
                && q.wf() && m.wf() && q.field_view().equiv(&self.field_view()) && m.field_view().equiv(&self.field_view())
                && (q.coeffs_view(), m.coeffs_view()) == gp_divmod(self.coeffs_view(), divisor.coeffs_view(), self.field_view().model())
                && gp_degree(m.coeffs_view()) < gp_degree(divisor.coeffs_view())
                && m.coeffs_view().len() <= self.coeffs_view().len()
                && q.coeffs_view().len() <= self.coeffs_view().len()
                && (gp_is_zero(m.coeffs_view()) || m.coeffs_view().len() < divisor.coeffs_view().len())),
    {
        if let Err(e) = self.ensure_same_field(divisor) {
            return Err(e);
        }
        if divisor.is_zero() {
            return Err(GaloisError::PolynomialDivisionByZero);
        }
        let ghost f = self.field.model();
        let ghost a = self.coeffs@;
        let ghost d = divisor.coeffs@;
        let ar = reverse_vec(self.coeffs.as_slice());
        let dr = reverse_vec(divisor.coeffs.as_slice());
        let dd: usize = dr.len() - 1;
        assert(dr@[dd as int] == d[0]);
        let inv = match self.field.div(1, dr[dd]) {
            Ok(v) => v,
            Err(e) => { return Err(e); },
        };
        proof {
            self.field.lemma_q_ge_2();
            lemma_gp_divmod(a, d, f);
        }
        let la = ar.len();
        let ql: usize = if la > dd { la - dd } else { 1 };
        let mut rem = ar;
        let mut quo: Vec<u64> = vec![0u64; ql];
        let ghost q0 = quo@;
        let ghost a0 = rem@;
        assert(q0 =~= Seq::new(gquo_len(a.reverse(), d.reverse()), |i: int| 0u64));
        let mut k: usize = la;
        while k > dd
            invariant
                self.wf(),
                f == self.field.model(),
                same_field(self.field, divisor.field_view()),
                divisor.wf(),
                d == divisor.coeffs@,
                dr@ == d.reverse(),
                a0 == a.reverse(),
                dd == dr@.len() - 1,
                inv == f.div(1, dr@.last() as nat),
                inv < f.q,
                k <= la,
                la == a0.len(),
                rem@.len() == la,
                quo@.len() == ql,
                ql == gquo_len(a0, dr@),
                k > dd ==> ql >= k - dd,
                forall|t: int| 0 <= t < rem@.len() ==> (#[trigger] rem@[t]) < f.q,
                forall|t: int| 0 <= t < quo@.len() ==> (#[trigger] quo@[t]) < f.q,
                forall|t: int| 0 <= t < dr@.len() ==> (#[trigger] dr@[t]) < f.q,
                glong_div(rem@, quo@, dr@, inv as nat, k - 1, f) == glong_div(a0, q0, dr@, inv as nat, la - 1, f),
            decreases k,
        {
            let kk = k - 1;
            let c = self.field.mul(rem[kk], inv);
            let shift = kk - dd;
            let ghost before = rem@;
            quo.set(shift, c);
            let mut j: usize = 0;
            while j < dd
                invariant
                    self.wf(),
                    f == self.field.model(),
                    dd == dr@.len() - 1,
                    forall|t: int| 0 <= t < dr@.len() ==> (#[trigger] dr@[t]) < f.q,
                    kk == shift + dd,
                    kk < la,
                    c < f.q,
                    j <= dd,
                    rem@.len() == la,
                    before.len() == la,
                    forall|t: int| 0 <= t < la ==> (#[trigger] before[t]) < f.q,
                    forall|t: int| 0 <= t < la ==> (#[trigger] rem@[t]) < f.q,
                    rem@ == Seq::new(la as nat, |t: int| if shift <= t < shift + j {
                        f.sub(before[t] as nat, f.mul(c as nat, dr@[t - shift] as nat)) as u64
                    } else {
                        before[t]
                    }),
                decreases dd - j,
            {
                let t = shift + j;
                let prod = self.field.mul(c, dr[j]);
                let v = self.field.sub(rem[t], prod);
                let ghost prev = rem@;
                rem.set(t, v);
                assert(rem@ =~= Seq::new(la as nat, |t2: int| if shift <= t2 < shift + j + 1 {
                        f.sub(before[t2] as nat, f.mul(c as nat, dr@[t2 - shift] as nat)) as u64
                    } else {
                        before[t2]
                    })) by {
                    assert(prev[t as int] == before[t as int]);
                }
                j = j + 1;
            }
            rem.set(kk, 0);
            assert(rem@ =~= gdiv_step(before, dr@, kk as int, c as nat, f));
            k = kk;
        }
        let ghost res = glong_div(a0, q0, dr@, inv as nat, la - 1, f);
        assert(rem@ == res.1 && quo@ == res.0);
        let qd = reverse_vec(quo.as_slice());
        let rd = reverse_vec(rem.as_slice());
        let f1 = self.field.clone();
        let f2 = self.field.clone();
        proof {
            f1.lemma_equiv_wf(&self.field);
            f2.lemma_equiv_wf(&self.field);
        }
        Ok((Self::from_valid(qd, f1), Self::from_valid(rd, f2)))
    }

    /// The remainder of a division.
    pub fn rem(&self, divisor: &Self) -> (r: Result<Self>)
        requires
            self.wf(),
            divisor.wf(),
        ensures
            !same_field(self.field_view(), divisor.field_view()) ==> r == Err::<Self, GaloisError>(GaloisError::PolynomialFieldMismatch),
            same_field(self.field_view(), divisor.field_view()) && gp_is_zero(divisor.coeffs_view()) ==> r == Err::<Self, GaloisError>(
                GaloisError::PolynomialDivisionByZero),
            same_field(self.field_view(), divisor.field_view()) && !gp_is_zero(divisor.coeffs_view()) ==> (r matches Ok(m)
                && m.wf() && m.field_view().equiv(&self.field_view())
                && m.coeffs_view() == gp_divmod(self.coeffs_view(), divisor.coeffs_view(), self.field_view().model()).1
                && m.coeffs_view().len() <= self.coeffs_view().len()
                && (gp_is_zero(m.coeffs_view()) || m.coeffs_view().len() < divisor.coeffs_view().len())),
    {
        match self.divmod(divisor) {
            Ok((_, m)) => Ok(m),
            Err(e) => Err(e),
        }
    }

    /// The quotient of a division.
    pub fn div(&self, divisor: &Self) -> (r: Result<Self>)
        requires
            self.wf(),
            divisor.wf(),
        ensures
            !same_field(self.field_view(), divisor.field_view()) ==> r == Err::<Self, GaloisError>(GaloisError::PolynomialFieldMismatch),
            same_field(self.field_view(), divisor.field_view()) && gp_is_zero(divisor.coeffs_view()) ==> r == Err::<Self, GaloisError>(
                GaloisError::PolynomialDivisionByZero),
            same_field(self.field_view(), divisor.field_view()) && !gp_is_zero(divisor.coeffs_view()) ==> (r matches Ok(q)
                && q.wf() && q.field_view().equiv(&self.field_view())
                && q.coeffs_view() == gp_divmod(self.coeffs_view(), divisor.coeffs_view(), self.field_view().model()).0
                && q.coeffs_view().len() <= self.coeffs_view().len()),
    {
        match self.divmod(divisor) {
            Ok((q, _)) => Ok(q),
            Err(e) => Err(e),
        }
    }

    /// The polynomial scaled to leading coefficient one (zero stays zero).
    pub fn make_monic(&self) -> (r: Self)
        requires
            self.wf(),
        ensures
            r.wf(),
            r.field_view().equiv(&self.field_view()),
            r.coeffs_view() == gp_monic(self.coeffs_view(), self.field_view().model()),
    {
        if self.is_zero() || self.is_monic() {
            return self.clone();
        }
        proof { self.field.lemma_q_ge_2(); }
        let inv = match self.field.div(1, self.coeffs[0]) {
            Ok(v) => v,
            Err(_) => { return self.clone(); },
        };
        match self.mul_scalar(inv) {
            Ok(x) => x,
            Err(_) => self.clone(),
        }
    }
}


/// Square-and-multiply accumulation, least significant bit first, reducing modulo `m`.
pub open spec fn gp_pow_acc(res: Seq<u64>, base: Seq<u64>, e: nat, m: Seq<u64>, f: FieldModel) -> Seq<u64>
    decreases e,
{
    if e == 0 {
        res
    } else {
        let r2 = if e % 2 == 1 { gp_divmod(gp_mul(res, base, f), m, f).1 } else { res };
        gp_pow_acc(r2, gp_divmod(gp_mul(base, base, f), m, f).1, e / 2, m, f)
    }
}

/// `a^e mod m`.
pub open spec fn gp_modpow(a: Seq<u64>, e: nat, m: Seq<u64>, f: FieldModel) -> Seq<u64> {
    gp_pow_acc(seq![1u64], gp_divmod(a, m, f).1, e, m, f)
}

/// `a^(p^k) mod m`: `k` successive `p`-th powers.
pub open spec fn gp_frobenius_iter(a: Seq<u64>, k: nat, m: Seq<u64>, f: FieldModel) -> Seq<u64>
    decreases k,
{
    if k == 0 { a } else { gp_modpow(gp_frobenius_iter(a, (k - 1) as nat, m, f), f.p, m, f) }
}

/// `prod_{i < n} (x - roots_i)`.
pub open spec fn gp_from_roots(roots: Seq<u64>, n: int, f: FieldModel) -> Seq<u64>
    decreases n,
{
    if n <= 0 {
        seq![1u64]
    } else {
        gp_mul(gp_from_roots(roots, n - 1, f), seq![1u64, f.neg(roots[n - 1] as nat) as u64], f)
    }
}

impl Poly {
    /// `self^exp mod modulus` by repeated squaring; errors as for `rem`.
    pub fn mod_pow(&self, exp: usize, modulus: &Self) -> (r: Result<Self>)
        requires
            self.wf(),
            modulus.wf(),
            modulus.coeffs_view().len() <= isize::MAX / 2,
        ensures
            !same_field(self.field_view(), modulus.field_view()) ==> r == Err::<Self, GaloisError>(GaloisError::PolynomialFieldMismatch),
            same_field(self.field_view(), modulus.field_view()) && gp_is_zero(modulus.coeffs_view()) ==> r == Err::<Self, GaloisError>(
                GaloisError::PolynomialDivisionByZero),
            same_field(self.field_view(), modulus.field_view()) && !gp_is_zero(modulus.coeffs_view()) ==> (r matches Ok(x)
                && x.wf() && x.field_view().equiv(&self.field_view())
                && x.coeffs_view() == gp_modpow(self.coeffs_view(), exp as nat, modulus.coeffs_view(), self.field_view().model())
                && x.coeffs_view().len() <= modulus.coeffs_view().len()),
    {
        self.mod_pow_u64(exp as u64, modulus)
    }

    /// `self^exp mod modulus` for a 64-bit exponent.
    pub(crate) fn mod_pow_u64(&self, exp: u64, modulus: &Self) -> (r: Result<Self>)
        requires
            self.wf(),
            modulus.wf(),
            modulus.coeffs_view().len() <= isize::MAX / 2,
        ensures
            !same_field(self.field_view(), modulus.field_view()) ==> r == Err::<Self, GaloisError>(GaloisError::PolynomialFieldMismatch),
            same_field(self.field_view(), modulus.field_view()) && gp_is_zero(modulus.coeffs_view()) ==> r == Err::<Self, GaloisError>(
                GaloisError::PolynomialDivisionByZero),
            same_field(self.field_view(), modulus.field_view()) && !gp_is_zero(modulus.coeffs_view()) ==> (r matches Ok(x)
                && x.wf() && x.field_view().equiv(&self.field_view())
                && x.coeffs_view() == gp_modpow(self.coeffs_view(), exp as nat, modulus.coeffs_view(), self.field_view().model())
                && x.coeffs_view().len() <= modulus.coeffs_view().len()),
    {
        let mut base = match self.rem(modulus) {
            Ok(b) => b,
            Err(e) => { return Err(e); },
        };
        let field = self.field.clone();
        proof { field.lemma_equiv_wf(&self.field); }
        let mut result = Self::one(field);
        let ghost f = self.field.model();
        let ghost m = modulus.coeffs_view();
        let mut e = exp;
        proof { modulus.field.lemma_q_ge_2(); }
        while e > 0
            invariant
                self.wf(),
                modulus.wf(),
                m == modulus.coeffs_view(),
                m.len() <= isize::MAX / 2,
                !gp_is_zero(m),
                f == self.field_view().model(),
                same_field(self.field_view(), modulus.field_view()),
                result.wf(),
                base.wf(),
                result.field_view().equiv(&self.field_view()),
                base.field_view().equiv(&self.field_view()),
                result.coeffs_view().len() <= m.len(),
                base.coeffs_view().len() <= m.len(),
                gp_pow_acc(result.coeffs_view(), base.coeffs_view(), e as nat, m, f)
                    == gp_modpow(self.coeffs_view(), exp as nat, m, f),
            decreases e,
        {
            proof {
                result.field_view().lemma_equiv_wf(&self.field_view());
                base.field_view().lemma_equiv_wf(&self.field_view());
            }
            if e % 2 == 1 {
                let prod = match result.mul(&base) {
                    Ok(x) => x,
                    Err(err) => { return Err(err); },
                };
                proof { prod.field_view().lemma_equiv_wf(&self.field_view()); }
                result = match prod.rem(modulus) {
                    Ok(x) => x,
                    Err(err) => { return Err(err); },
                };
            }
            let sq = match base.mul(&base) {
                Ok(x) => x,
                Err(err) => { return Err(err); },
            };
            proof { sq.field_view().lemma_equiv_wf(&self.field_view()); }
            base = match sq.rem(modulus) {
                Ok(x) => x,
                Err(err) => { return Err(err); },
            };
            e = e / 2;
        }
        Ok(result)
    }
}

/// The `p`-th power of `h` modulo `modulus` (the Frobenius map).
pub fn frobenius_step(h: &Poly, modulus: &Poly) -> (r: Result<Poly>)
    requires
        h.wf(),
        modulus.wf(),
        modulus.coeffs_view().len() <= isize::MAX / 2,
    ensures
        !same_field(h.field_view(), modulus.field_view()) ==> r == Err::<Poly, GaloisError>(GaloisError::PolynomialFieldMismatch),
        same_field(h.field_view(), modulus.field_view()) && gp_is_zero(modulus.coeffs_view()) ==> r == Err::<Poly, GaloisError>(
            GaloisError::PolynomialDivisionByZero),
        same_field(h.field_view(), modulus.field_view()) && !gp_is_zero(modulus.coeffs_view()) ==> (r matches Ok(x)
            && x.wf() && x.field_view().equiv(&h.field_view())
            && x.coeffs_view() == gp_modpow(h.coeffs_view(), h.field_view().p(), modulus.coeffs_view(), h.field_view().model())
            && x.coeffs_view().len() <= modulus.coeffs_view().len()),
{
    let p = h.field().characteristic();
    h.mod_pow_u64(p, modulus)
}

/// `poly^q mod modulus` for the field order `q = p^m`: `m` applications of the Frobenius map.
pub fn raise_to_field_order(poly: &Poly, modulus: &Poly) -> (r: Result<Poly>)
    requires
        poly.wf(),
        modulus.wf(),
        modulus.coeffs_view().len() <= isize::MAX / 2,
    ensures
        !same_field(poly.field_view(), modulus.field_view()) ==> r == Err::<Poly, GaloisError>(GaloisError::PolynomialFieldMismatch),
        same_field(poly.field_view(), modulus.field_view()) && gp_is_zero(modulus.coeffs_view()) ==> r == Err::<Poly, GaloisError>(
            GaloisError::PolynomialDivisionByZero),
        same_field(poly.field_view(), modulus.field_view()) && !gp_is_zero(modulus.coeffs_view()) ==> (r matches Ok(x)
            && x.wf() && x.field_view().equiv(&poly.field_view())
            && x.coeffs_view() == gp_frobenius_iter(gp_divmod(poly.coeffs_view(), modulus.coeffs_view(), poly.field_view().model()).1,
                poly.field_view().m(), modulus.coeffs_view(), poly.field_view().model())
            && x.coeffs_view().len() <= modulus.coeffs_view().len()),
{
    let mut h = match poly.rem(modulus) {
        Ok(x) => x,
        Err(e) => { return Err(e); },
    };
    let steps = poly.field().degree();
    let ghost h0 = h.coeffs_view();
    let ghost f = poly.field_view().model();
    let mut i: u32 = 0;
    proof { poly.field_view().lemma_q_ge_2(); }
    while i < steps
        invariant
            poly.wf(),
            modulus.wf(),
            modulus.coeffs_view().len() <= isize::MAX / 2,
            same_field(poly.field_view(), modulus.field_view()),
            !gp_is_zero(modulus.coeffs_view()),
            f == poly.field_view().model(),
            steps == poly.field_view().m(),
            h.wf(),
            h.field_view().equiv(&poly.field_view()),
            i <= steps,
            h.coeffs_view() == gp_frobenius_iter(h0, i as nat, modulus.coeffs_view(), f),
            h.coeffs_view().len() <= modulus.coeffs_view().len(),
        decreases steps - i,
    {
        proof { h.field_view().lemma_equiv_wf(&poly.field_view()); }
        h = match frobenius_step(&h, modulus) {
            Ok(x) => x,
            Err(e) => { return Err(e); },
        };
        i = i + 1;
    }
    Ok(h)
}

/// Greatest common divisor, made monic; `PolynomialFieldMismatch` for polynomials over
/// different fields (when `b` is nonzero). The arithmetic is that of `a`'s field.
pub fn poly_gcd(a: &Poly, b: &Poly) -> (r: Result<Poly>)
    requires
        a.wf(),
        b.wf(),
    ensures
        gp_is_zero(b.coeffs_view()) ==> (r matches Ok(g) && g.wf() && g.field_view().equiv(&a.field_view())
            && g.coeffs_view() == gp_monic(a.coeffs_view(), a.field_view().model())),
        !gp_is_zero(b.coeffs_view()) && !same_field(a.field_view(), b.field_view()) ==> r == Err::<Poly, GaloisError>(
            GaloisError::PolynomialFieldMismatch),
        !gp_is_zero(b.coeffs_view()) && same_field(a.field_view(), b.field_view()) ==> (r matches Ok(g) && g.wf()
            && g.field_view().equiv(&a.field_view())
            && g.coeffs_view() == gp_gcd(a.coeffs_view(), b.coeffs_view(), a.field_view().model())),
{
    if b.is_zero() {
        return Ok(a.make_monic());
    }
    if let Err(e) = a.ensure_same_field(b) {
        return Err(e);
    }
    let ghost f = a.field_view().model();
    let mut r0 = a.clone();
    let fb = a.field.clone();
    proof { fb.lemma_equiv_wf(&a.field); }
    let mut r1 = Poly::from_valid(b.coeffs.clone(), fb);
    assert(r1.coeffs_view() == b.coeffs_view()) by {
        lemma_strip_leading_id(b.coeffs_view(), b.field_view().q());
    }
    while !r1.is_zero()
        invariant
            a.wf(),
            f == a.field_view().model(),
            r0.wf(),
            r1.wf(),
            r0.field_view().equiv(&a.field_view()),
            r1.field_view().equiv(&a.field_view()),
            gp_gcd(r0.coeffs_view(), r1.coeffs_view(), f) == gp_gcd(a.coeffs_view(), b.coeffs_view(), f),
        decreases (if gp_is_zero(r1.coeffs_view()) { 0 } else { r1.coeffs_view().len() }),
    {
        proof {
            r0.field_view().lemma_equiv_wf(&a.field_view());
            r1.field_view().lemma_equiv_wf(&a.field_view());
            lemma_gp_divmod(r0.coeffs_view(), r1.coeffs_view(), f);
        }
        let (_, rem) = match r0.divmod(&r1) {
            Ok(x) => x,
            Err(e) => { return Err(e); },
        };
        r0 = r1;
        r1 = rem;
    }
    proof { r0.field_view().lemma_equiv_wf(&a.field_view()); }
    Ok(r0.make_monic())
}

/// `prod (x - root)` over the field; `InvalidElement` for the first root that is not an
/// element.
pub fn poly_from_roots(roots: &[u64], field: GaloisField) -> (r: Result<Poly>)
    requires
        field.wf(),
        roots@.len() < isize::MAX,
    ensures
        (forall|i: int| 0 <= i < roots@.len() ==> roots@[i] < field.q()) ==> (r matches Ok(x) && x.wf()
            && x.field_view().equiv(&field)
            && x.coeffs_view() == gp_from_roots(roots@, roots@.len() as int, field.model())),
        (exists|i: int| 0 <= i < roots@.len() && roots@[i] >= field.q()) ==> r == Err::<Poly, GaloisError>(
            GaloisError::InvalidElement { value: roots@[first_invalid(roots@, field.q())],
                characteristic: field.p() as u64, degree: field.m() as u32 }),
{
    let ghost f = field.model();
    let fc = field.clone();
    proof { fc.lemma_equiv_wf(&field); }
    let mut poly = Poly::one(fc);
    let mut i: usize = 0;
    while i < roots.len()
        invariant
            field.wf(),
            f == field.model(),
            i <= roots@.len(),
            roots@.len() < isize::MAX,
            poly.wf(),
            poly.field_view().equiv(&field),
            poly.coeffs_view().len() <= i + 1,
            forall|j: int| 0 <= j < i ==> roots@[j] < field.q(),
            poly.coeffs_view() == gp_from_roots(roots@, i as int, f),
        decreases roots@.len() - i,
    {
        proof { poly.field_view().lemma_equiv_wf(&field); }
        let root = roots[i];
        if root >= field.order() {
            proof {
                let k = first_invalid(roots@, field.q());
                assert(0 <= i < roots@.len() && roots@[i as int] >= field.q()
                    && forall|j: int| 0 <= j < i ==> roots@[j] < field.q());
                if k != i {
                    assert(k < i || k > i);
                }
            }
            return Err(GaloisError::InvalidElement {
                value: root,
                characteristic: field.characteristic(),
                degree: field.degree(),
            });
        }
        let nr = field.neg(root);
        proof { field.lemma_q_ge_2(); }
        let fl = field.clone();
        proof { fl.lemma_equiv_wf(&field); }
        let linear = Poly::from_valid(vec![1, nr], fl);
        assert(linear.coeffs_view() == seq![1u64, nr]) by {
            assert(seq![1u64, nr][0] != 0);
            assert(strip_leading(seq![1u64, nr]) == seq![1u64, nr]);
        }
        proof { linear.field_view().lemma_equiv_wf(&field); }
        poly = match poly.mul(&linear) {
            Ok(x) => x,
            Err(e) => { return Err(e); },
        };
        i = i + 1;
    }
    Ok(poly)
}


/// The extended Euclidean loop on `(old_r, r)` with cofactors `(old_t, t)` reduced modulo
/// `m`; returns the last nonzero remainder and its cofactor.
pub open spec fn gp_inv_loop(old_r: Seq<u64>, r: Seq<u64>, old_t: Seq<u64>, t: Seq<u64>, m: Seq<u64>, f: FieldModel) -> (Seq<u64>, Seq<u64>)
    decreases (if gp_is_zero(r) { 0 } else { r.len() }),
    when gp_shape(old_r) && gp_shape(r)
{
    if gp_is_zero(r) {
        (old_r, old_t)
    } else {
        proof {
            lemma_gp_divmod(old_r, r, f);
        }
        let qr = gp_divmod(old_r, r, f);
        gp_inv_loop(r, qr.1, t, gp_divmod(gp_sub(old_t, gp_mul(qr.0, t, f), f), m, f).1, m, f)
    }
}

/// The inverse of `a` modulo `m` from the extended Euclidean algorithm: `None` when the
/// last nonzero remainder is not a constant.
pub open spec fn gp_mod_inverse(a: Seq<u64>, m: Seq<u64>, f: FieldModel) -> Option<Seq<u64>> {
    let res = gp_inv_loop(m, gp_divmod(a, m, f).1, seq![0u64], seq![1u64], m, f);
    if gp_degree(res.0) != 0 { None } else { Some(gp_scale(res.1, f.div(1, res.0[0] as nat), f)) }
}

/// Multiplicative inverse of `a` modulo `modulus`; `PolynomialDivisionByZero` when `a` and
/// `modulus` are not coprime or `modulus` is zero.
pub fn mod_inverse_poly(a: &Poly, modulus: &Poly) -> (r: Result<Poly>)
    requires
        a.wf(),
        modulus.wf(),
        modulus.coeffs_view().len() <= isize::MAX / 2,
    ensures
        !same_field(a.field_view(), modulus.field_view()) ==> r == Err::<Poly, GaloisError>(GaloisError::PolynomialFieldMismatch),
        same_field(a.field_view(), modulus.field_view()) && gp_is_zero(modulus.coeffs_view()) ==> r == Err::<Poly, GaloisError>(
            GaloisError::PolynomialDivisionByZero),
        same_field(a.field_view(), modulus.field_view()) && !gp_is_zero(modulus.coeffs_view()) ==> (
            match gp_mod_inverse(a.coeffs_view(), modulus.coeffs_view(), a.field_view().model()) {
                None => r == Err::<Poly, GaloisError>(GaloisError::PolynomialDivisionByZero),
                Some(inv) => r matches Ok(x) && x.wf() && x.field_view().equiv(&a.field_view()) && x.coeffs_view() == inv,
            }),
{
    let mut r = match a.rem(modulus) {
        Ok(x) => x,
        Err(e) => { return Err(e); },
    };
    let ghost f = a.field_view().model();
    let ghost m = modulus.coeffs_view();
    let fm = a.field.clone();
    proof { fm.lemma_equiv_wf(&a.field); modulus.field.lemma_q_ge_2(); }
    let md = Poly::from_valid(modulus.coeffs.clone(), fm);
    assert(md.coeffs_view() == m) by {
        lemma_strip_leading_id(m, modulus.field_view().q());
    }
    let mut old_r = md.clone();
    let f0 = a.field.clone();
    let f1 = a.field.clone();
    proof { f0.lemma_equiv_wf(&a.field); f1.lemma_equiv_wf(&a.field); }
    let mut old_t = Poly::zero(f0);
    let mut t = Poly::one(f1);
    while !r.is_zero()
        invariant
            a.wf(),
            f == a.field_view().model(),
            md.wf(),
            md.coeffs_view() == m,
            md.field_view().equiv(&a.field_view()),
            m.len() <= isize::MAX / 2,
            !gp_is_zero(m),
            old_r.wf(),
            r.wf(),
            old_t.wf(),
            t.wf(),
            old_r.field_view().equiv(&a.field_view()),
            r.field_view().equiv(&a.field_view()),
            old_t.field_view().equiv(&a.field_view()),
            t.field_view().equiv(&a.field_view()),
            old_r.coeffs_view().len() <= m.len(),
            r.coeffs_view().len() <= m.len(),
            old_t.coeffs_view().len() <= m.len(),
            t.coeffs_view().len() <= m.len(),
            gp_inv_loop(old_r.coeffs_view(), r.coeffs_view(), old_t.coeffs_view(), t.coeffs_view(), m, f)
                == gp_inv_loop(m, gp_divmod(a.coeffs_view(), m, f).1, seq![0u64], seq![1u64], m, f),
        decreases (if gp_is_zero(r.coeffs_view()) { 0 } else { r.coeffs_view().len() }),
    {
        proof {
            old_r.field_view().lemma_equiv_wf(&a.field_view());
            r.field_view().lemma_equiv_wf(&a.field_view());
            old_t.field_view().lemma_equiv_wf(&a.field_view());
            t.field_view().lemma_equiv_wf(&a.field_view());
            md.field_view().lemma_equiv_wf(&a.field_view());
            lemma_gp_divmod(old_r.coeffs_view(), r.coeffs_view(), f);
        }
        let (q, rem) = match old_r.divmod(&r) {
            Ok(x) => x,
            Err(e) => { return Err(e); },
        };
        proof { q.field_view().lemma_equiv_wf(&a.field_view()); }
        let qt = match q.mul(&t) {
            Ok(x) => x,
            Err(e) => { return Err(e); },
        };
        proof { qt.field_view().lemma_equiv_wf(&a.field_view()); }
        let diff = match old_t.sub(&qt) {
            Ok(x) => x,
            Err(e) => { return Err(e); },
        };
        proof { diff.field_view().lemma_equiv_wf(&a.field_view()); }
        let new_t = match diff.rem(&md) {
            Ok(x) => x,
            Err(e) => { return Err(e); },
        };
        old_r = r;
        r = rem;
        old_t = t;
        t = new_t;
    }
    proof { old_r.field_view().lemma_equiv_wf(&a.field_view()); old_t.field_view().lemma_equiv_wf(&a.field_view()); }
    if old_r.degree() != 0 {
        return Err(GaloisError::PolynomialDivisionByZero);
    }
    let lead = old_r.coeffs[0];
    let inv = match a.field.div(1, lead) {
        Ok(v) => v,
        Err(_) => { return Err(GaloisError::PolynomialDivisionByZero); },
    };
    proof { a.field.lemma_q_ge_2(); }
    match old_t.mul_scalar(inv) {
        Ok(x) => Ok(x),
        Err(e) => Err(e),
    }
}

impl GaloisField {
    /// The irreducible polynomial as a polynomial over this field.
    pub fn irreducible_as_poly(&self) -> (r: Result<Poly>)
        requires
            self.wf(),
        ensures
            r matches Ok(x) && x.wf() && x.field_view().equiv(self) && x.coeffs_view() == self.f().reverse(),
    {
        let desc = reverse_vec(self.irreducible_poly().coeffs());
        let field = self.clone();
        proof {
            field.lemma_equiv_wf(self);
            self.lemma_q_ge_2();
            assert forall|i: int| 0 <= i < desc@.len() implies desc@[i] < self.q() by {
                assert(desc@[i] == self.f()[self.f().len() - 1 - i]);
                assert(self.f()[self.f().len() - 1 - i] < self.p());
            }
            assert(desc@[0] == self.f().last());
            assert(gp_normal(desc@, self.q()));
            lemma_strip_leading_id(desc@, self.q());
        }
        Ok(Poly::from_valid(desc, field))
    }
}

} // verus!
