//! Linear-feedback shift registers over a field (Fibonacci and Galois forms) and the
//! Berlekamp-Massey algorithm.

use vstd::prelude::*;
use crate::error::{GaloisError, Result};
use crate::field::array::{FieldArray, all_below};
use crate::field::factory::GaloisField;
use crate::poly::field_poly::{Poly, first_invalid, strip_leading};

use crate::field::array_kind::GaloisArray;
use crate::field::big_array::{BigFieldArray, all_values_below};
use crate::field::bignum::BigValue;
use crate::field::big_field::{BigGaloisField, big_div_spec};
use crate::field::model::{gf_add, gf_sub, gf_mul, digit};
use crate::poly::big_poly::{BigPoly, values_of, big_equiv, bp_strip, lemma_bp_strip};
use crate::poly::poly_kind::FieldPoly;

verus! {

/// `sum_{k < n} state[taps[k]]`, accumulated from the left.
pub open spec fn tap_sum(f: GaloisField, state: Seq<u64>, taps: Seq<usize>, n: nat) -> nat
    decreases n,
{
    if n == 0 { 0 } else { f.add_spec(tap_sum(f, state, taps, (n - 1) as nat), state[taps[n - 1] as int] as nat) }
}

/// `sum_{k < n}` of digit `i` (base `p`) of the tapped entries `state[taps[k]]`, as an integer.
pub open spec fn tapped_digit_total(state: Seq<u64>, taps: Seq<usize>, p: nat, i: nat, n: nat) -> nat
    decreases n,
{
    if n == 0 { 0 } else { tapped_digit_total(state, taps, p, i, (n - 1) as nat) + digit(state[taps[n - 1] as int] as nat, p, i) }
}

/// Each base-`p` digit of the field sum of the tapped entries is the integer sum of their
/// digits reduced modulo `p`: the feedback adds the tapped entries in GF(p^m).
pub proof fn lemma_tap_sum_digits(f: GaloisField, state: Seq<u64>, taps: Seq<usize>, n: nat, i: nat)
    requires
        f.wf(),
        i < f.m(),
    ensures
        digit(tap_sum(f, state, taps, n), f.p(), i) == tapped_digit_total(state, taps, f.p(), i, n) % f.p(),
    decreases n,
{
    f.lemma_params_fit();
    let p = f.p();
    assert(p >= 2);
    if n == 0 {
        crate::arith::lemma_npow_positive(p, i);
        assert(0nat / crate::arith::npow(p, i) == 0) by (nonlinear_arith)
            requires crate::arith::npow(p, i) > 0;
    } else {
        lemma_tap_sum_digits(f, state, taps, (n - 1) as nat, i);
        let prev = tap_sum(f, state, taps, (n - 1) as nat);
        let v = state[taps[n - 1] as int] as nat;
        crate::field::laws::lemma_digit_of_add(prev, v, p, f.m(), i);
        vstd::arithmetic::div_mod::lemma_add_mod_noop(
            tapped_digit_total(state, taps, p, i, (n - 1) as nat) as int, digit(v, p, i) as int, p as int);
        vstd::arithmetic::div_mod::lemma_mod_twice(digit(v, p, i) as int, p as int);
        crate::field::laws::lemma_digit_small(v, p, i);
        vstd::arithmetic::div_mod::lemma_small_mod(digit(v, p, i), p);
    }
}

/// `sum_{k < n} poly[k] state[k]` as an integer.
pub open spec fn weighted_total(state: Seq<u64>, poly: Seq<u64>, n: nat) -> nat
    decreases n,
{
    if n == 0 { 0 } else { weighted_total(state, poly, (n - 1) as nat) + (poly[n - 1] as nat) * (state[n - 1] as nat) }
}

/// In a prime field the feedback of a Galois register is the integer weighted sum of the
/// state reduced modulo `p`.
pub proof fn lemma_feedback_sum_prime(f: GaloisField, state: Seq<u64>, poly: Seq<u64>, n: nat)
    requires
        f.wf(),
        f.m() == 1,
    ensures
        feedback_sum(f, state, poly, n) == weighted_total(state, poly, n) % f.p(),
    decreases n,
{
    f.lemma_params_fit();
    let p = f.p();
    if n == 0 {
        vstd::arithmetic::div_mod::lemma_small_mod(0, p);
    } else {
        lemma_feedback_sum_prime(f, state, poly, (n - 1) as nat);
        let prev = feedback_sum(f, state, poly, (n - 1) as nat);
        let t = (poly[n - 1] as nat) * (state[n - 1] as nat);
        crate::linalg::lemma_prime_field_ops(p, f.f(), poly[n - 1] as nat, state[n - 1] as nat);
        crate::field::laws::lemma_prime_add(prev, t % p, p);
        vstd::arithmetic::div_mod::lemma_add_mod_noop(weighted_total(state, poly, (n - 1) as nat) as int, t as int, p as int);
        vstd::arithmetic::div_mod::lemma_mod_twice(weighted_total(state, poly, (n - 1) as nat) as int, p as int);
        vstd::arithmetic::div_mod::lemma_mod_twice(t as int, p as int);
        vstd::arithmetic::div_mod::lemma_add_mod_noop(prev as int, (t % p) as int, p as int);
    }
}

/// `sum_{k < n} poly[k] state[k]`, accumulated from the left.
pub open spec fn feedback_sum(f: GaloisField, state: Seq<u64>, poly: Seq<u64>, n: nat) -> nat
    decreases n,
{
    if n == 0 { 0 } else { f.add_spec(feedback_sum(f, state, poly, (n - 1) as nat), f.mul_spec(poly[n - 1] as nat, state[n - 1] as nat)) }
}

/// The state of a Fibonacci register after one step: shifted by one, with the sum of the
/// tapped entries appended.
pub open spec fn fib_next(f: GaloisField, state: Seq<u64>, taps: Seq<usize>) -> Seq<u64> {
    state.drop_first().push(tap_sum(f, state, taps, taps.len()) as u64)
}

/// The first `n` outputs of a Fibonacci register: each step outputs the last entry.
pub open spec fn fib_outputs(f: GaloisField, state: Seq<u64>, taps: Seq<usize>, n: nat) -> Seq<u64>
    decreases n,
{
    if n == 0 { Seq::empty() } else { seq![state.last()] + fib_outputs(f, fib_next(f, state, taps), taps, (n - 1) as nat) }
}

/// The state of a Galois register after one step: shifted by one, with the sum of the
/// entries weighted by the feedback coefficients appended.
pub open spec fn gal_next(f: GaloisField, state: Seq<u64>, poly: Seq<u64>) -> Seq<u64> {
    let n = if poly.len() <= state.len() { poly.len() } else { state.len() };
    state.drop_first().push(feedback_sum(f, state, poly, n) as u64)
}

/// The first `n` outputs of a Galois register: each step outputs the first entry.
pub open spec fn gal_outputs(f: GaloisField, state: Seq<u64>, poly: Seq<u64>, n: nat) -> Seq<u64>
    decreases n,
{
    if n == 0 { Seq::empty() } else { seq![state[0]] + gal_outputs(f, gal_next(f, state, poly), poly, (n - 1) as nat) }
}

fn check_state(field: &GaloisField, values: &[u64]) -> (r: Result<()>)
    ensures
        all_below(values@, field.q()) ==> r is Ok,
        !all_below(values@, field.q()) ==> r == Err::<(), GaloisError>(GaloisError::InvalidElement {
            value: values@[first_invalid(values@, field.q())],
            characteristic: field.p() as u64, degree: field.m() as u32 }),
{
    let mut i: usize = 0;
    while i < values.len()
        invariant
            i <= values@.len(),
            forall|j: int| 0 <= j < i ==> values@[j] < field.q(),
        decreases values@.len() - i,
    {
        if values[i] >= field.order() {
            let ghost k = first_invalid(values@, field.q());
            assert(0 <= i < values@.len() && values@[i as int] >= field.q()
                && forall|j: int| 0 <= j < i ==> values@[j] < field.q());
            proof {
                if k != i {
                    assert(k < i || k > i);
                }
            }
            return Err(GaloisError::InvalidElement {
                value: values[i],
                characteristic: field.characteristic(),
                degree: field.degree(),
            });
        }
        i = i + 1;
    }
    Ok(())
}

/// Fibonacci linear-feedback shift register.
#[derive(Debug)]
pub struct Flfsr {
    field: GaloisField,
    state: Vec<u64>,
    taps: Vec<usize>,
}

impl Flfsr {
    pub closed spec fn field_view(&self) -> GaloisField {
        self.field
    }

    pub closed spec fn state_view(&self) -> Seq<u64> {
        self.state@
    }

    pub closed spec fn taps_view(&self) -> Seq<usize> {
        self.taps@
    }

    /// The state holds elements of a well-formed field.
    pub open spec fn wf(&self) -> bool {
        self.field_view().wf() && all_below(self.state_view(), self.field_view().q())
    }

    /// A register that can step: a nonempty state and taps inside it.
    pub open spec fn runnable(&self) -> bool {
        &&& self.wf()
        &&& self.state_view().len() >= 1
        &&& forall|k: int| 0 <= k < self.taps_view().len() ==> (#[trigger] self.taps_view()[k]) < self.state_view().len()
    }

    /// A register with the given state and taps; `InvalidElement` for the first state entry
    /// that is not an element.
    pub fn new(field: GaloisField, state: Vec<u64>, taps: Vec<usize>) -> (r: Result<Self>)
        requires
            field.wf(),
        ensures
            !all_below(state@, field.q()) ==> r == Err::<Self, GaloisError>(GaloisError::InvalidElement {
                value: state@[first_invalid(state@, field.q())],
                characteristic: field.p() as u64, degree: field.m() as u32 }),
            all_below(state@, field.q()) ==> (r matches Ok(l) && l.wf() && l.field_view() == field
                && l.state_view() == state@ && l.taps_view() == taps@),
    {
        if let Err(e) = check_state(&field, state.as_slice()) {
            return Err(e);
        }
        Ok(Flfsr { field, state, taps })
    }

    /// Outputs the last entry, shifts the state and appends the sum of the tapped entries.
    pub fn step(&mut self) -> (out: u64)
        requires
            old(self).runnable(),
        ensures
            final(self).runnable(),
            out == old(self).state_view().last(),
            final(self).state_view() == fib_next(old(self).field_view(), old(self).state_view(), old(self).taps_view()),
            final(self).state_view().len() == old(self).state_view().len(),
            forall|j: int| 0 <= j < old(self).state_view().len() - 1 ==>
                #[trigger] final(self).state_view()[j] == old(self).state_view()[j + 1],
            forall|i: nat| i < old(self).field_view().m() ==>
                #[trigger] digit(final(self).state_view().last() as nat, old(self).field_view().p(), i)
                == tapped_digit_total(old(self).state_view(), old(self).taps_view(), old(self).field_view().p(), i,
                    old(self).taps_view().len()) % old(self).field_view().p(),
            final(self).field_view() == old(self).field_view(),
            final(self).taps_view() == old(self).taps_view(),
    {
        let mut feedback: u64 = 0;
        let mut k: usize = 0;
        while k < self.taps.len()
            invariant
                self.runnable(),
                k <= self.taps@.len(),
                feedback == tap_sum(self.field, self.state@, self.taps@, k as nat),
                feedback < self.field.q(),
            decreases self.taps@.len() - k,
        {
            assert(self.taps_view()[k as int] < self.state_view().len());
            let v = self.state[self.taps[k]];
            feedback = self.field.add(feedback, v);
            k = k + 1;
        }
        let out = self.state[self.state.len() - 1];
        let ghost before = self.state@;
        self.state.remove(0);
        self.state.push(feedback);
        proof {
            assert(self.state@ =~= before.drop_first().push(feedback));
            assert forall|i: int| 0 <= i < self.taps_view().len() implies (#[trigger] self.taps_view()[i]) < self.state_view().len() by {
                assert(old(self).taps_view()[i] < old(self).state_view().len());
            }
            assert forall|i: nat| i < self.field_view().m() implies
                #[trigger] digit(self.state_view().last() as nat, self.field_view().p(), i)
                == tapped_digit_total(before, self.taps_view(), self.field_view().p(), i, self.taps_view().len())
                    % self.field_view().p() by {
                lemma_tap_sum_digits(self.field, before, self.taps@, self.taps@.len() as nat, i);
            }
        }
        out
    }

    /// The next `n` outputs.
    pub fn generate(&mut self, n: usize) -> (r: FieldArray)
        requires
            old(self).runnable(),
        ensures
            final(self).runnable(),
            final(self).field_view() == old(self).field_view(),
            final(self).taps_view() == old(self).taps_view(),
            r.wf(),
            r.field_view().equiv(&old(self).field_view()),
            r.values_view() == fib_outputs(old(self).field_view(), old(self).state_view(), old(self).taps_view(), n as nat),
    {
        let ghost f = self.field;
        let ghost taps = self.taps@;
        let ghost start = self.state@;
        let mut out: Vec<u64> = Vec::new();
        let mut i: usize = 0;
        while i < n
            invariant
                self.runnable(),
                self.field == f,
                self.taps@ == taps,
                i <= n,
                all_below(out@, f.q()),
                out@ + fib_outputs(f, self.state@, taps, (n - i) as nat) == fib_outputs(f, start, taps, n as nat),
            decreases n - i,
        {
            let ghost before = self.state@;
            let v = self.step();
            proof {
                assert(fib_outputs(f, before, taps, (n - i) as nat)
                    == seq![v] + fib_outputs(f, self.state@, taps, (n - i - 1) as nat));
                assert(out@.push(v) + fib_outputs(f, self.state@, taps, (n - i - 1) as nat)
                    =~= out@ + fib_outputs(f, before, taps, (n - i) as nat));
            }
            out.push(v);
            i = i + 1;
        }
        assert(out@ + fib_outputs(f, self.state@, taps, 0) =~= out@);
        let field = self.field.clone();
        proof { field.lemma_equiv_wf(&self.field); }
        FieldArray::new(field, out)
    }

    /// The current state.
    pub fn state(&self) -> (r: &[u64])
        ensures
            r@ == self.state_view(),
    {
        self.state.as_slice()
    }
}

/// Galois linear-feedback shift register.
#[derive(Debug)]
pub struct Glfsr {
    field: GaloisField,
    state: Vec<u64>,
    feedback_poly: Vec<u64>,
}

impl Glfsr {
    pub closed spec fn field_view(&self) -> GaloisField {
        self.field
    }

    pub closed spec fn state_view(&self) -> Seq<u64> {
        self.state@
    }

    pub closed spec fn feedback_view(&self) -> Seq<u64> {
        self.feedback_poly@
    }

    /// The state holds elements of a well-formed field.
    pub open spec fn wf(&self) -> bool {
        self.field_view().wf() && all_below(self.state_view(), self.field_view().q())
    }

    /// A register that can step: a nonempty state and feedback coefficients that are elements.
    pub open spec fn runnable(&self) -> bool {
        &&& self.wf()
        &&& self.state_view().len() >= 1
        &&& all_below(self.feedback_view(), self.field_view().q())
    }

    /// A register with the given state and feedback coefficients; `InvalidElement` for the
    /// first state entry that is not an element.
    pub fn new(field: GaloisField, state: Vec<u64>, feedback_poly: Vec<u64>) -> (r: Result<Self>)
        requires
            field.wf(),
        ensures
            !all_below(state@, field.q()) ==> r == Err::<Self, GaloisError>(GaloisError::InvalidElement {
                value: state@[first_invalid(state@, field.q())],
                characteristic: field.p() as u64, degree: field.m() as u32 }),
            all_below(state@, field.q()) ==> (r matches Ok(l) && l.wf() && l.field_view() == field
                && l.state_view() == state@ && l.feedback_view() == feedback_poly@),
    {
        if let Err(e) = check_state(&field, state.as_slice()) {
            return Err(e);
        }
        Ok(Glfsr { field, state, feedback_poly })
    }

    /// Outputs the first entry, shifts the state and appends the weighted sum of the entries.
    pub fn step(&mut self) -> (out: u64)
        requires
            old(self).runnable(),
        ensures
            final(self).runnable(),
            out == old(self).state_view()[0],
            final(self).state_view() == gal_next(old(self).field_view(), old(self).state_view(), old(self).feedback_view()),
            final(self).state_view().len() == old(self).state_view().len(),
            forall|j: int| 0 <= j < old(self).state_view().len() - 1 ==>
                #[trigger] final(self).state_view()[j] == old(self).state_view()[j + 1],
            old(self).field_view().m() == 1 ==> final(self).state_view().last()
                == weighted_total(old(self).state_view(), old(self).feedback_view(),
                    if old(self).feedback_view().len() <= old(self).state_view().len() { old(self).feedback_view().len() }
                    else { old(self).state_view().len() }) % old(self).field_view().p(),
            final(self).field_view() == old(self).field_view(),
            final(self).feedback_view() == old(self).feedback_view(),
    {
        let out = self.state[0];
        let n = if self.feedback_poly.len() <= self.state.len() { self.feedback_poly.len() } else { self.state.len() };
        let mut feedback: u64 = 0;
        let mut k: usize = 0;
        while k < n
            invariant
                self.runnable(),
                n <= self.state@.len(),
                n <= self.feedback_poly@.len(),
                k <= n,
                feedback == feedback_sum(self.field, self.state@, self.feedback_poly@, k as nat),
                feedback < self.field.q(),
            decreases n - k,
        {
            let t = self.field.mul(self.feedback_poly[k], self.state[k]);
            feedback = self.field.add(feedback, t);
            k = k + 1;
        }
        let ghost before = self.state@;
        self.state.remove(0);
        self.state.push(feedback);
        proof {
            assert(self.state@ =~= before.drop_first().push(feedback));
            if self.field.m() == 1 {
                lemma_feedback_sum_prime(self.field, before, self.feedback_poly@, n as nat);
            }
        }
        out
    }

    /// The next `n` outputs.
    pub fn generate(&mut self, n: usize) -> (r: FieldArray)
        requires
            old(self).runnable(),
        ensures
            final(self).runnable(),
            final(self).field_view() == old(self).field_view(),
            final(self).feedback_view() == old(self).feedback_view(),
            r.wf(),
            r.field_view().equiv(&old(self).field_view()),
            r.values_view() == gal_outputs(old(self).field_view(), old(self).state_view(), old(self).feedback_view(), n as nat),
    {
        let ghost f = self.field;
        let ghost poly = self.feedback_poly@;
        let ghost start = self.state@;
        let mut out: Vec<u64> = Vec::new();
        let mut i: usize = 0;
        while i < n
            invariant
                self.runnable(),
                self.field == f,
                self.feedback_poly@ == poly,
                i <= n,
                all_below(out@, f.q()),
                out@ + gal_outputs(f, self.state@, poly, (n - i) as nat) == gal_outputs(f, start, poly, n as nat),
            decreases n - i,
        {
            let ghost before = self.state@;
            let v = self.step();
            proof {
                assert(gal_outputs(f, before, poly, (n - i) as nat)
                    == seq![v] + gal_outputs(f, self.state@, poly, (n - i - 1) as nat));
                assert(out@.push(v) + gal_outputs(f, self.state@, poly, (n - i - 1) as nat)
                    =~= out@ + gal_outputs(f, before, poly, (n - i) as nat));
            }
            out.push(v);
            i = i + 1;
        }
        assert(out@ + gal_outputs(f, self.state@, poly, 0) =~= out@);
        let field = self.field.clone();
        proof { field.lemma_equiv_wf(&self.field); }
        FieldArray::new(field, out)
    }
}

/// The sequence `1, 0, ..., 0` of length `n`.
pub open spec fn unit_seq(n: nat) -> Seq<u64> {
    Seq::new(n, |k: int| if k == 0 { 1u64 } else { 0u64 })
}

/// The discrepancy `s_i + sum_{1 <= j < upto} c_j s_(i-j)` over the field.
pub open spec fn bm_discrepancy(f: GaloisField, c: Seq<u64>, s: Seq<u64>, i: int, upto: int) -> nat
    decreases upto,
{
    if upto <= 1 {
        s[i] as nat
    } else {
        f.add_spec(bm_discrepancy(f, c, s, i, upto - 1), f.mul_spec(c[upto - 1] as nat, s[i - (upto - 1)] as nat))
    }
}

/// `c - scale x^m b`, truncated to the length of `c`.
pub open spec fn bm_update(f: GaloisField, c: Seq<u64>, b: Seq<u64>, scale: nat, m: nat) -> Seq<u64> {
    Seq::new(c.len(), |t: int| if t >= m { f.sub_spec(c[t] as nat, f.mul_spec(scale, b[t - m] as nat)) as u64 } else { c[t] })
}

/// The state `(c, b, l, m, d)` of the Berlekamp-Massey algorithm after the first `k` terms
/// of `s`: the connection polynomial, the previous one, the recurrence length, the shift
/// and the last nonzero discrepancy.
pub open spec fn bm_steps(f: GaloisField, s: Seq<u64>, k: nat) -> (Seq<u64>, Seq<u64>, nat, nat, nat)
    decreases k,
{
    if k == 0 {
        (unit_seq(s.len() + 1), unit_seq(s.len() + 1), 0, 1, 1)
    } else {
        let (c, b, l, m, disc) = bm_steps(f, s, (k - 1) as nat);
        let i = (k - 1) as nat;
        let d = bm_discrepancy(f, c, s, i as int, (l + 1) as int);
        if d == 0 {
            (c, b, l, m + 1, disc)
        } else {
            let c2 = bm_update(f, c, b, f.div_spec(d, disc), m);
            if 2 * l <= i { (c2, c, (i + 1 - l) as nat, 1, d) } else { (c2, b, l, m + 1, disc) }
        }
    }
}

/// The coefficients the algorithm returns, highest degree first: `c_l, ..., c_0` of the
/// final state.
pub open spec fn bm_coeffs(f: GaloisField, s: Seq<u64>) -> Seq<u64> {
    let (c, b, l, m, d) = bm_steps(f, s, s.len());
    Seq::new(l + 1, |t: int| c[l - t])
}

/// The Berlekamp-Massey algorithm: the connection polynomial `c_0 + c_1 x + ... + c_l x^l`
/// of a shortest linear recurrence of the sequence, returned highest degree first; its
/// constant coefficient is one and its length `l` is at most the length of the sequence.
pub fn berlekamp_massey(sequence: &FieldArray) -> (r: Result<Poly>)
    requires
        sequence.wf(),
        sequence.values_view().len() < isize::MAX,
    ensures
        r matches Ok(poly) && poly.wf() && poly.field_view().equiv(&sequence.field_view())
            && poly.coeffs_view().len() <= sequence.values_view().len() + 1
            && poly.coeffs_view().last() == 1
            && poly.coeffs_view() == strip_leading(bm_coeffs(sequence.field_view(), sequence.values_view())),
{
    let field = sequence.field();
    proof { field.lemma_q_ge_2(); }
    let s = sequence.values();
    let n = s.len();
    let mut c: Vec<u64> = Vec::new();
    let mut b: Vec<u64> = Vec::new();
    let mut t: usize = 0;
    while t <= n
        invariant
            n == s@.len(),
            n < isize::MAX,
            t <= n + 1,
            c@.len() == t,
            b@.len() == t,
            forall|k: int| 0 <= k < t ==> (#[trigger] c@[k]) == (if k == 0 { 1u64 } else { 0u64 }),
            forall|k: int| 0 <= k < t ==> (#[trigger] b@[k]) == (if k == 0 { 1u64 } else { 0u64 }),
        decreases n + 1 - t,
    {
        let v: u64 = if t == 0 { 1 } else { 0 };
        c.push(v);
        b.push(v);
        t = t + 1;
    }
    let mut l: usize = 0;
    let mut m: usize = 1;
    let mut disc: u64 = 1;
    let mut i: usize = 0;
    assert(c@ =~= unit_seq(n as nat + 1));
    assert(b@ =~= unit_seq(n as nat + 1));
    while i < n
        invariant
            bm_steps(*field, s@, i as nat) == (c@, b@, l as nat, m as nat, disc as nat),
            field.wf(),
            field.q() >= 2,
            n == s@.len(),
            n < isize::MAX,
            all_below(s@, field.q()),
            c@.len() == n + 1,
            b@.len() == n + 1,
            all_below(c@, field.q()),
            all_below(b@, field.q()),
            c@[0] == 1,
            i <= n,
            l <= i,
            1 <= m <= i + 1,
            1 <= disc < field.q(),
        decreases n - i,
    {
        let mut d = s[i];
        let mut j: usize = 1;
        while j <= l
            invariant
                field.wf(),
                n == s@.len(),
                all_below(s@, field.q()),
                c@.len() == n + 1,
                all_below(c@, field.q()),
                l <= i < n,
                1 <= j <= l + 1,
                d < field.q(),
                d == bm_discrepancy(*field, c@, s@, i as int, j as int),
            decreases l + 1 - j,
        {
            let prod = field.mul(c[j], s[i - j]);
            d = field.add(d, prod);
            j = j + 1;
        }
        if d == 0 {
            m = m + 1;
            i = i + 1;
            continue;
        }
        let saved = c.clone();
        assert(saved@ =~= c@);
        let scale = match field.div(d, disc) {
            Ok(v) => v,
            Err(_) => 0,
        };
        let ghost c0 = c@;
        let mut j: usize = 0;
        while j < b.len()
            invariant
                field.wf(),
                c@.len() == n + 1,
                b@.len() == n + 1,
                c0.len() == n + 1,
                all_below(c@, field.q()),
                all_below(b@, field.q()),
                c@[0] == 1,
                1 <= m <= i + 1,
                i < n,
                scale < field.q(),
                j <= b@.len(),
                forall|t: int| 0 <= t < c@.len() ==> #[trigger] c@[t] == (if m <= t < j + m {
                    field.sub_spec(c0[t] as nat, field.mul_spec(scale as nat, b@[t - m] as nat)) as u64 } else { c0[t] }),
            decreases b@.len() - j,
        {
            if j < c.len() - m {
                let prod = field.mul(scale, b[j]);
                assert(c@[(j + m) as int] == c0[(j + m) as int]);
                let v = field.sub(c[j + m], prod);
                c.set(j + m, v);
            }
            j = j + 1;
        }
        assert(c@ =~= bm_update(*field, c0, b@, scale as nat, m as nat));
        if 2 * l <= i {
            l = i + 1 - l;
            b = saved;
            disc = d;
            m = 1;
        } else {
            m = m + 1;
        }
        i = i + 1;
    }
    let mut coeffs: Vec<u64> = Vec::new();
    let mut k: usize = l + 1;
    while k > 0
        invariant
            k <= l + 1,
            l <= n,
            n < isize::MAX,
            c@.len() == n + 1,
            all_below(c@, field.q()),
            coeffs@.len() == l + 1 - k,
            forall|t: int| 0 <= t < coeffs@.len() ==> #[trigger] coeffs@[t] == c@[l - t],
            bm_steps(*field, s@, n as nat) == (c@, b@, l as nat, m as nat, disc as nat),
            all_below(coeffs@, field.q()),
        decreases k,
    {
        coeffs.push(c[k - 1]);
        k = k - 1;
    }
    assert(coeffs@ =~= bm_coeffs(*field, s@));
    let f = sequence.field().clone();
    proof {
        f.lemma_equiv_wf(field);
        assert(coeffs@.last() == c@[0]);
        crate::poly::field_poly::lemma_strip_leading(coeffs@);
    }
    let poly = Poly::new(coeffs, f);
    proof {
        let st = strip_leading(coeffs@);
        assert(st[st.len() - 1] == coeffs@[coeffs@.len() - st.len() + st.len() - 1]);
    }
    poly
}


/// The values `1, 0, ..., 0` of length `n`.
pub open spec fn big_unit_seq(n: nat) -> Seq<nat> {
    Seq::new(n, |k: int| if k == 0 { 1nat } else { 0nat })
}

/// The discrepancy of `bm_discrepancy` over a big field.
pub open spec fn big_bm_discrepancy(f: BigGaloisField, c: Seq<nat>, s: Seq<nat>, i: int, upto: int) -> nat
    decreases upto,
{
    if upto <= 1 {
        s[i]
    } else {
        gf_add(big_bm_discrepancy(f, c, s, i, upto - 1), gf_mul(c[upto - 1], s[i - (upto - 1)], f.p(), f.m(), f.f()),
            f.p(), f.m())
    }
}

/// `c - scale x^m b` over a big field, truncated to the length of `c`.
pub open spec fn big_bm_update(f: BigGaloisField, c: Seq<nat>, b: Seq<nat>, scale: nat, m: nat) -> Seq<nat> {
    Seq::new(c.len(), |t: int| if t >= m { gf_sub(c[t], gf_mul(scale, b[t - m], f.p(), f.m(), f.f()), f.p(), f.m()) } else { c[t] })
}

/// The state of the Berlekamp-Massey algorithm over a big field (see `bm_steps`).
pub open spec fn big_bm_steps(f: BigGaloisField, s: Seq<nat>, k: nat) -> (Seq<nat>, Seq<nat>, nat, nat, nat)
    decreases k,
{
    if k == 0 {
        (big_unit_seq(s.len() + 1), big_unit_seq(s.len() + 1), 0, 1, 1)
    } else {
        let (c, b, l, m, disc) = big_bm_steps(f, s, (k - 1) as nat);
        let i = (k - 1) as nat;
        let d = big_bm_discrepancy(f, c, s, i as int, (l + 1) as int);
        if d == 0 {
            (c, b, l, m + 1, disc)
        } else {
            let c2 = big_bm_update(f, c, b, big_div_spec(f, d, disc), m);
            if 2 * l <= i { (c2, c, (i + 1 - l) as nat, 1, d) } else { (c2, b, l, m + 1, disc) }
        }
    }
}

/// The coefficients the big-field algorithm returns, highest degree first.
pub open spec fn big_bm_coeffs(f: BigGaloisField, s: Seq<nat>) -> Seq<nat> {
    let (c, b, l, m, d) = big_bm_steps(f, s, s.len());
    Seq::new(l + 1, |t: int| c[l - t])
}

/// The Berlekamp-Massey algorithm over a `BigGaloisField` (see `berlekamp_massey`).
fn berlekamp_massey_big(sequence: &BigFieldArray) -> (r: BigPoly)
    requires
        sequence.wf(),
        sequence.values_view().len() < isize::MAX,
    ensures
        r.wf(),
        big_equiv(r.field_view(), sequence.field_view()),
        r.coeffs_view().len() <= sequence.values_view().len() + 1,
        r.coeffs_view().last() == 1,
        r.coeffs_view() == bp_strip(big_bm_coeffs(sequence.field_view(), sequence.values_view())),
{
    let field = sequence.field();
    let ghost q = field.q();
    proof { field.lemma_q_ge_2(); }
    let s = sequence.values();
    let n = s.len();
    let mut c: Vec<BigValue> = Vec::new();
    let mut b: Vec<BigValue> = Vec::new();
    let mut t: usize = 0;
    while t <= n
        invariant
            n == s@.len(),
            n < isize::MAX,
            t <= n + 1,
            c@.len() == t,
            b@.len() == t,
            forall|k: int| 0 <= k < t ==> (#[trigger] c@[k]).value() == (if k == 0 { 1nat } else { 0nat }),
            forall|k: int| 0 <= k < t ==> (#[trigger] b@[k]).value() == (if k == 0 { 1nat } else { 0nat }),
        decreases n + 1 - t,
    {
        let v: u64 = if t == 0 { 1 } else { 0 };
        c.push(BigValue::from_u64(v));
        b.push(BigValue::from_u64(v));
        t = t + 1;
    }
    assert forall|k: int| 0 <= k < s@.len() implies (#[trigger] s@[k]).value() < q by {
        assert(values_of(s@)[k] == s@[k].value());
    }
    let mut l: usize = 0;
    let mut m: usize = 1;
    let mut disc = BigValue::from_u64(1);
    let mut i: usize = 0;
    let ghost sv = values_of(s@);
    assert(values_of(c@) =~= big_unit_seq(n as nat + 1));
    assert(values_of(b@) =~= big_unit_seq(n as nat + 1));
    while i < n
        invariant
            sv == values_of(s@),
            *field == sequence.field_view(),
            big_bm_steps(*field, sv, i as nat) == (values_of(c@), values_of(b@), l as nat, m as nat, disc.value()),
            field.wf(),
            q == field.q(),
            q >= 2,
            n == s@.len(),
            n < isize::MAX,
            all_values_below(s@, q),
            c@.len() == n + 1,
            b@.len() == n + 1,
            all_values_below(c@, q),
            all_values_below(b@, q),
            c@[0].value() == 1,
            i <= n,
            l <= i,
            1 <= m <= i + 1,
            disc.value() < q,
        decreases n - i,
    {
        let mut d = s[i].clone();
        assert(d.value() == sv[i as int]);
        let mut j: usize = 1;
        while j <= l
            invariant
                field.wf(),
                q == field.q(),
                n == s@.len(),
                all_values_below(s@, q),
                c@.len() == n + 1,
                all_values_below(c@, q),
                l <= i < n,
                1 <= j <= l + 1,
                d.value() < q,
                sv == values_of(s@),
                d.value() == big_bm_discrepancy(*field, values_of(c@), sv, i as int, j as int),
            decreases l + 1 - j,
        {
            assert(c@[j as int].value() == values_of(c@)[j as int]);
            assert(s@[(i - j) as int].value() == sv[(i - j) as int]);
            let prod = field.mul(&c[j], &s[i - j]);
            d = field.add(&d, &prod);
            j = j + 1;
        }
        if d.is_zero() {
            m = m + 1;
            i = i + 1;
            continue;
        }
        let mut saved: Vec<BigValue> = Vec::new();
        let mut k: usize = 0;
        while k < c.len()
            invariant
                k <= c@.len(),
                saved@.len() == k,
                forall|x: int| 0 <= x < k ==> (#[trigger] saved@[x]).value() == c@[x].value(),
            decreases c@.len() - k,
        {
            saved.push(c[k].clone());
            k = k + 1;
        }
        let scale = match field.div(&d, &disc) {
            Ok(v) => v,
            Err(_) => BigValue::from_u64(0),
        };
        assert(values_of(saved@) =~= values_of(c@));
        let ghost c0 = values_of(c@);
        let mut j: usize = 0;
        while j < b.len()
            invariant
                c0.len() == n + 1,
                j <= b@.len(),
                forall|t: int| 0 <= t < c@.len() ==> #[trigger] c@[t].value() == (if m <= t < j + m {
                    gf_sub(c0[t], gf_mul(scale.value(), b@[t - m].value(), field.p(), field.m(), field.f()), field.p(), field.m())
                    } else { c0[t] }),
                field.wf(),
                q == field.q(),
                q >= 2,
                c@.len() == n + 1,
                b@.len() == n + 1,
                all_values_below(c@, q),
                all_values_below(b@, q),
                c@[0].value() == 1,
                1 <= m <= i + 1,
                i < n,
                scale.value() < q,
            decreases b@.len() - j,
        {
            if j < c.len() - m {
                let prod = field.mul(&scale, &b[j]);
                assert(c@[(j + m) as int].value() == c0[(j + m) as int]);
                let v = field.sub(&c[j + m], &prod);
                c.set(j + m, v);
            }
            j = j + 1;
        }
        assert(values_of(c@) =~= big_bm_update(*field, c0, values_of(b@), scale.value(), m as nat));
        if 2 * l <= i {
            l = i + 1 - l;
            b = saved;
            disc = d;
            m = 1;
        } else {
            m = m + 1;
        }
        i = i + 1;
    }
    let mut coeffs: Vec<BigValue> = Vec::new();
    let mut k: usize = l + 1;
    while k > 0
        invariant
            k <= l + 1,
            l <= n,
            n < isize::MAX,
            c@.len() == n + 1,
            all_values_below(c@, q),
            coeffs@.len() == l + 1 - k,
            forall|t: int| 0 <= t < coeffs@.len() ==> (#[trigger] coeffs@[t]).value() == c@[l - t].value(),
            big_bm_steps(*field, sv, n as nat) == (values_of(c@), values_of(b@), l as nat, m as nat, disc.value()),
            all_values_below(coeffs@, q),
        decreases k,
    {
        coeffs.push(c[k - 1].clone());
        k = k - 1;
    }
    let ghost cv = values_of(coeffs@);
    assert(cv =~= big_bm_coeffs(*field, sv));
    proof {
        assert(cv.last() == c@[0].value());
        lemma_bp_strip(cv);
    }
    let poly = match BigPoly::new(coeffs, field.clone()) {
        Ok(p) => p,
        Err(_) => BigPoly::one(field.clone()),
    };
    proof {
        let st = bp_strip(cv);
        assert(st[st.len() - 1] == cv[cv.len() - st.len() + st.len() - 1]);
    }
    poly
}

/// The Berlekamp-Massey algorithm on an array over either kind of field (see
/// `berlekamp_massey`).
pub fn berlekamp_massey_array(sequence: &GaloisArray) -> (r: Result<FieldPoly>)
    requires
        sequence.wf(),
        sequence.values_view().len() < isize::MAX,
    ensures
        sequence matches GaloisArray::Small(a) ==> (r matches Ok(FieldPoly::Small(poly)) && poly.wf()
            && poly.field_view().equiv(&a.field_view())
            && poly.coeffs_view().len() <= a.values_view().len() + 1
            && poly.coeffs_view().last() == 1
            && poly.coeffs_view() == strip_leading(bm_coeffs(a.field_view(), a.values_view()))),
        sequence matches GaloisArray::Big(a) ==> (r matches Ok(FieldPoly::Big(poly)) && poly.wf()
            && big_equiv(poly.field_view(), a.field_view())
            && poly.coeffs_view().len() <= a.values_view().len() + 1
            && poly.coeffs_view().last() == 1
            && poly.coeffs_view() == bp_strip(big_bm_coeffs(a.field_view(), a.values_view()))),
{
    match sequence {
        GaloisArray::Small(a) => match berlekamp_massey(a) {
            Ok(p) => Ok(FieldPoly::Small(p)),
            Err(e) => Err(e),
        },
        GaloisArray::Big(a) => Ok(FieldPoly::Big(berlekamp_massey_big(a))),
    }
}

} // verus!
