//! Linear-feedback shift registers over either kind of field.

use vstd::prelude::*;
use crate::error::{GaloisError, Result};
use crate::field::array::FieldArray;
use crate::field::array_kind::GaloisArray;
use crate::field::big_array::{BigFieldArray, all_values_below};
use crate::field::big_field::FieldKind;
use crate::field::bignum::BigValue;
use crate::field::model::{gf_add, gf_mul, digit};
use crate::poly::big_poly::values_of;
use crate::poly::poly_kind::FieldPoly;

verus! {

/// `sum_{k < n} state[taps[k]]` over the field, accumulated from the left.
pub open spec fn kind_tap_sum(f: FieldKind, state: Seq<nat>, taps: Seq<usize>, n: nat) -> nat
    decreases n,
{
    if n == 0 { 0 } else { gf_add(kind_tap_sum(f, state, taps, (n - 1) as nat), state[taps[n - 1] as int], f.p(), f.m()) }
}

/// `sum_{k < n}` of digit `i` (base `p`) of the tapped entries `state[taps[k]]`, as an integer.
pub open spec fn kind_tapped_digit_total(state: Seq<nat>, taps: Seq<usize>, p: nat, i: nat, n: nat) -> nat
    decreases n,
{
    if n == 0 { 0 } else { kind_tapped_digit_total(state, taps, p, i, (n - 1) as nat) + digit(state[taps[n - 1] as int], p, i) }
}

/// The characteristic of a well-formed field is a prime that fits in a `u64`.
pub proof fn lemma_kind_p(f: FieldKind)
    requires
        f.wf(),
    ensures
        2 <= f.p() <= u64::MAX,
{
    match f {
        FieldKind::Small(g) => { g.lemma_params_fit(); },
        FieldKind::Big(g) => { g.lemma_wf_params(); },
    }
}

/// Each base-`p` digit of the field sum of the tapped entries is the integer sum of their
/// digits reduced modulo `p`: the feedback adds the tapped entries in GF(p^m).
pub proof fn lemma_kind_tap_sum_digits(f: FieldKind, state: Seq<nat>, taps: Seq<usize>, n: nat, i: nat)
    requires
        f.wf(),
        i < f.m(),
    ensures
        digit(kind_tap_sum(f, state, taps, n), f.p(), i) == kind_tapped_digit_total(state, taps, f.p(), i, n) % f.p(),
    decreases n,
{
    lemma_kind_p(f);
    let p = f.p();
    if n == 0 {
        crate::arith::lemma_npow_positive(p, i);
        assert(0nat / crate::arith::npow(p, i) == 0) by (nonlinear_arith)
            requires crate::arith::npow(p, i) > 0;
    } else {
        lemma_kind_tap_sum_digits(f, state, taps, (n - 1) as nat, i);
        let prev = kind_tap_sum(f, state, taps, (n - 1) as nat);
        let v = state[taps[n - 1] as int];
        crate::field::laws::lemma_digit_of_add(prev, v, p, f.m(), i);
        vstd::arithmetic::div_mod::lemma_add_mod_noop(
            kind_tapped_digit_total(state, taps, p, i, (n - 1) as nat) as int, digit(v, p, i) as int, p as int);
        vstd::arithmetic::div_mod::lemma_mod_twice(digit(v, p, i) as int, p as int);
        crate::field::laws::lemma_digit_small(v, p, i);
        vstd::arithmetic::div_mod::lemma_small_mod(digit(v, p, i), p);
    }
}

/// `sum_{k < n} poly[k] state[k]` as an integer.
pub open spec fn kind_weighted_total(state: Seq<nat>, poly: Seq<nat>, n: nat) -> nat
    decreases n,
{
    if n == 0 { 0 } else { kind_weighted_total(state, poly, (n - 1) as nat) + poly[n - 1] * state[n - 1] }
}

/// `sum_{k < n} poly[k] state[k]` over the field, accumulated from the left.
pub open spec fn kind_feedback_sum(f: FieldKind, state: Seq<nat>, poly: Seq<nat>, n: nat) -> nat
    decreases n,
{
    if n == 0 { 0 } else {
        gf_add(kind_feedback_sum(f, state, poly, (n - 1) as nat), gf_mul(poly[n - 1], state[n - 1], f.p(), f.m(), f.f()),
            f.p(), f.m())
    }
}

/// The state of a Fibonacci register after one step: shifted by one, with the sum of the
/// tapped entries appended.
pub open spec fn kind_fib_next(f: FieldKind, state: Seq<nat>, taps: Seq<usize>) -> Seq<nat> {
    state.drop_first().push(kind_tap_sum(f, state, taps, taps.len()))
}

/// The first `n` outputs of a Fibonacci register: each step outputs the last entry.
pub open spec fn kind_fib_outputs(f: FieldKind, state: Seq<nat>, taps: Seq<usize>, n: nat) -> Seq<nat>
    decreases n,
{
    if n == 0 { Seq::empty() } else { seq![state.last()] + kind_fib_outputs(f, kind_fib_next(f, state, taps), taps, (n - 1) as nat) }
}

/// In a prime field the feedback of a Galois register is the integer weighted sum of the
/// state reduced modulo `p`.
pub proof fn lemma_kind_feedback_sum_prime(f: FieldKind, state: Seq<nat>, poly: Seq<nat>, n: nat)
    requires
        f.wf(),
        f.m() == 1,
    ensures
        kind_feedback_sum(f, state, poly, n) == kind_weighted_total(state, poly, n) % f.p(),
    decreases n,
{
    lemma_kind_p(f);
    let p = f.p();
    if n == 0 {
        vstd::arithmetic::div_mod::lemma_small_mod(0, p);
    } else {
        lemma_kind_feedback_sum_prime(f, state, poly, (n - 1) as nat);
        let prev = kind_feedback_sum(f, state, poly, (n - 1) as nat);
        let w = kind_weighted_total(state, poly, (n - 1) as nat);
        let t = poly[n - 1] * state[n - 1];
        crate::linalg::lemma_prime_field_ops(p, f.f(), poly[n - 1], state[n - 1]);
        crate::field::laws::lemma_prime_add(prev, t % p, p);
        vstd::arithmetic::div_mod::lemma_add_mod_noop(w as int, t as int, p as int);
        vstd::arithmetic::div_mod::lemma_mod_twice(w as int, p as int);
        vstd::arithmetic::div_mod::lemma_mod_twice(t as int, p as int);
        vstd::arithmetic::div_mod::lemma_add_mod_noop(prev as int, (t % p) as int, p as int);
    }
}

/// The state of a Galois register after one step: shifted by one, with the sum of the
/// entries weighted by the feedback coefficients appended.
pub open spec fn kind_gal_next(f: FieldKind, state: Seq<nat>, poly: Seq<nat>) -> Seq<nat> {
    let n = if poly.len() <= state.len() { poly.len() } else { state.len() };
    state.drop_first().push(kind_feedback_sum(f, state, poly, n))
}

/// The first `n` outputs of a Galois register: each step outputs the first entry.
pub open spec fn kind_gal_outputs(f: FieldKind, state: Seq<nat>, poly: Seq<nat>, n: nat) -> Seq<nat>
    decreases n,
{
    if n == 0 { Seq::empty() } else { seq![state[0]] + kind_gal_outputs(f, kind_gal_next(f, state, poly), poly, (n - 1) as nat) }
}

/// Every field has at least two elements, and one with 64-bit elements no more than
/// `u64::MAX`.
proof fn lemma_kind_q(f: FieldKind)
    requires
        f.wf(),
    ensures
        f.q() >= 2,
        f is Small ==> f.q() <= u64::MAX,
{
    match f {
        FieldKind::Small(g) => { g.lemma_q_ge_2(); },
        FieldKind::Big(g) => { g.lemma_q_ge_2(); },
    }
}

/// `a + b` in either kind of field.
fn kind_add(field: &FieldKind, a: &BigValue, b: &BigValue) -> (r: BigValue)
    requires
        field.wf(),
        a.value() < field.q(),
        b.value() < field.q(),
    ensures
        r.value() == gf_add(a.value(), b.value(), field.p(), field.m()),
        r.value() < field.q(),
{
    match field {
        FieldKind::Small(f) => {
            let x = match a.to_u64() { Some(x) => x, None => 0 };
            let y = match b.to_u64() { Some(y) => y, None => 0 };
            BigValue::from_u64(f.add(x, y))
        },
        FieldKind::Big(f) => f.add(a, b),
    }
}

/// `a * b` in either kind of field.
fn kind_mul(field: &FieldKind, a: &BigValue, b: &BigValue) -> (r: BigValue)
    requires
        field.wf(),
        field is Small ==> a.value() < field.q() && b.value() < field.q(),
    ensures
        r.value() == gf_mul(a.value(), b.value(), field.p(), field.m(), field.f()),
        r.value() < field.q(),
{
    match field {
        FieldKind::Small(f) => {
            let x = match a.to_u64() { Some(x) => x, None => 0 };
            let y = match b.to_u64() { Some(y) => y, None => 0 };
            BigValue::from_u64(f.mul(x, y))
        },
        FieldKind::Big(f) => f.mul(a, b),
    }
}

/// The values as arbitrary-precision values, each checked to be an element; the error of
/// the field's check for the first that is not.
fn checked_state(field: &FieldKind, state: Vec<u64>) -> (r: Result<Vec<BigValue>>)
    requires
        field.wf(),
    ensures
        (forall|i: int| 0 <= i < state@.len() ==> state@[i] < field.q()) ==> (r matches Ok(v)
            && values_of(v@) == state@.map_values(|x: u64| x as nat)),
        (exists|i: int| 0 <= i < state@.len() && state@[i] >= field.q()) ==> r is Err,
{
    let mut out: Vec<BigValue> = Vec::new();
    let mut i: usize = 0;
    while i < state.len()
        invariant
            field.wf(),
            i <= state@.len(),
            out@.len() == i,
            forall|j: int| 0 <= j < i ==> (#[trigger] out@[j]).value() == state@[j],
            forall|j: int| 0 <= j < i ==> state@[j] < field.q(),
        decreases state@.len() - i,
    {
        let v = BigValue::from_u64(state[i]);
        match field {
            FieldKind::Small(f) => {
                if let Err(e) = f.validate_element(state[i]) {
                    return Err(e);
                }
            },
            FieldKind::Big(f) => {
                if let Err(e) = f.validate(&v) {
                    return Err(e);
                }
            },
        }
        out.push(v);
        i = i + 1;
    }
    assert(values_of(out@) =~= state@.map_values(|x: u64| x as nat));
    Ok(out)
}

/// The values as 64-bit integers.
fn small_values(values: &Vec<BigValue>, q: u64) -> (r: Vec<u64>)
    requires
        all_values_below(values@, q as nat),
    ensures
        r@.map_values(|x: u64| x as nat) == values_of(values@),
        forall|i: int| 0 <= i < r@.len() ==> (#[trigger] r@[i]) < q,
{
    let mut out: Vec<u64> = Vec::new();
    let mut i: usize = 0;
    while i < values.len()
        invariant
            all_values_below(values@, q as nat),
            i <= values@.len(),
            out@.len() == i,
            forall|j: int| 0 <= j < i ==> (#[trigger] out@[j]) as nat == values@[j].value(),
        decreases values@.len() - i,
    {
        let x = match values[i].to_u64() { Some(x) => x, None => 0 };
        out.push(x);
        i = i + 1;
    }
    assert(out@.map_values(|x: u64| x as nat) =~= values_of(values@));
    out
}

/// The values as an array over the field.
fn kind_array(field: &FieldKind, values: Vec<BigValue>) -> (r: Result<GaloisArray>)
    requires
        field.wf(),
        all_values_below(values@, field.q()),
    ensures
        r matches Ok(a) && a.wf() && a.values_view() == values_of(values@) && (field is Small <==> a is Small),
{
    match field {
        FieldKind::Small(f) => {
            let vs = small_values(&values, f.order());
            let g = f.clone();
            proof { g.lemma_equiv_wf(f); }
            let a = FieldArray::new(g, vs);
            let r = GaloisArray::Small(a);
            assert(r.values_view() =~= values_of(values@));
            Ok(r)
        },
        FieldKind::Big(f) => match BigFieldArray::new(f.clone(), values) {
            Ok(a) => Ok(GaloisArray::Big(a)),
            Err(e) => Err(e),
        },
    }
}

/// Fibonacci linear-feedback shift register over either kind of field.
pub struct FieldFlfsr {
    field: FieldKind,
    state: Vec<BigValue>,
    taps: Vec<usize>,
}

impl FieldFlfsr {
    pub closed spec fn field_view(&self) -> FieldKind {
        self.field
    }

    pub closed spec fn state_view(&self) -> Seq<nat> {
        values_of(self.state@)
    }

    pub closed spec fn taps_view(&self) -> Seq<usize> {
        self.taps@
    }

    /// The state holds elements of a well-formed field.
    pub open spec fn wf(&self) -> bool {
        &&& self.field_view().wf()
        &&& forall|i: int| 0 <= i < self.state_view().len() ==> (#[trigger] self.state_view()[i]) < self.field_view().q()
    }

    /// A register that can step: a nonempty state and taps inside it.
    pub open spec fn runnable(&self) -> bool {
        &&& self.wf()
        &&& self.state_view().len() >= 1
        &&& forall|k: int| 0 <= k < self.taps_view().len() ==> (#[trigger] self.taps_view()[k]) < self.state_view().len()
    }

    /// A register with the given state and taps; an error for the first state entry that
    /// is not an element.
    pub fn new(field: FieldKind, state: Vec<u64>, taps: Vec<usize>) -> (r: Result<Self>)
        requires
            field.wf(),
        ensures
            (forall|i: int| 0 <= i < state@.len() ==> state@[i] < field.q()) ==> (r matches Ok(l) && l.wf()
                && l.field_view() == field && l.state_view() == state@.map_values(|x: u64| x as nat) && l.taps_view() == taps@),
            (exists|i: int| 0 <= i < state@.len() && state@[i] >= field.q()) ==> r is Err,
    {
        let values = match checked_state(&field, state) {
            Ok(v) => v,
            Err(e) => { return Err(e); },
        };
        Ok(FieldFlfsr { field, state: values, taps })
    }

    pub fn field(&self) -> (r: &FieldKind)
        ensures
            *r == self.field_view(),
    {
        &self.field
    }

    /// Outputs the last entry, shifts the state and appends the sum of the tapped entries.
    pub fn step(&mut self) -> (out: BigValue)
        requires
            old(self).runnable(),
        ensures
            final(self).runnable(),
            out.value() == old(self).state_view().last(),
            final(self).state_view() == kind_fib_next(old(self).field_view(), old(self).state_view(), old(self).taps_view()),
            final(self).state_view().len() == old(self).state_view().len(),
            forall|j: int| 0 <= j < old(self).state_view().len() - 1 ==>
                #[trigger] final(self).state_view()[j] == old(self).state_view()[j + 1],
            forall|i: nat| i < old(self).field_view().m() ==>
                #[trigger] digit(final(self).state_view().last(), old(self).field_view().p(), i)
                == kind_tapped_digit_total(old(self).state_view(), old(self).taps_view(), old(self).field_view().p(), i,
                    old(self).taps_view().len()) % old(self).field_view().p(),
            final(self).field_view() == old(self).field_view(),
            final(self).taps_view() == old(self).taps_view(),
    {
        let ghost s0 = self.state_view();
        let mut feedback = BigValue::from_u64(0);
        proof { lemma_kind_q(self.field); }
        let mut k: usize = 0;
        while k < self.taps.len()
            invariant
                self.runnable(),
                s0 == self.state_view(),
                k <= self.taps@.len(),
                feedback.value() == kind_tap_sum(self.field, s0, self.taps@, k as nat),
                feedback.value() < self.field.q(),
            decreases self.taps@.len() - k,
        {
            assert(self.taps_view()[k as int] < self.state_view().len());
            let t = self.taps[k];
            assert(self.state@[t as int].value() == s0[t as int]);
            feedback = kind_add(&self.field, &feedback, &self.state[t]);
            k = k + 1;
        }
        let out = self.state[self.state.len() - 1].clone();
        let ghost before = self.state@;
        self.state.remove(0);
        let ghost fv = feedback.value();
        self.state.push(feedback);
        proof {
            assert(self.state@ =~= before.drop_first().push(self.state@.last()));
            assert(values_of(self.state@) =~= s0.drop_first().push(fv));
            assert forall|i: int| 0 <= i < self.taps_view().len() implies (#[trigger] self.taps_view()[i]) < self.state_view().len() by {
                assert(old(self).taps_view()[i] < old(self).state_view().len());
            }
            assert forall|i: int| 0 <= i < self.state_view().len() implies (#[trigger] self.state_view()[i]) < self.field_view().q() by {
                if i < self.state_view().len() - 1 {
                    assert(self.state_view()[i] == s0[i + 1]);
                }
            }
            assert forall|i: nat| i < self.field_view().m() implies
                #[trigger] digit(self.state_view().last(), self.field_view().p(), i)
                == kind_tapped_digit_total(s0, self.taps_view(), self.field_view().p(), i, self.taps_view().len())
                    % self.field_view().p() by {
                lemma_kind_tap_sum_digits(self.field, s0, self.taps@, self.taps@.len() as nat, i);
            }
        }
        out
    }

    /// The next `n` outputs as an array over the field; never an error.
    pub fn generate(&mut self, n: usize) -> (r: Result<GaloisArray>)
        requires
            old(self).runnable(),
        ensures
            final(self).runnable(),
            final(self).field_view() == old(self).field_view(),
            final(self).taps_view() == old(self).taps_view(),
            r matches Ok(a) && a.wf() && (old(self).field_view() is Small <==> a is Small)
                && a.values_view() == kind_fib_outputs(old(self).field_view(), old(self).state_view(), old(self).taps_view(), n as nat),
    {
        let ghost f = self.field;
        let ghost taps = self.taps@;
        let ghost start = self.state_view();
        let mut out: Vec<BigValue> = Vec::new();
        let mut i: usize = 0;
        while i < n
            invariant
                self.runnable(),
                self.field == f,
                self.taps@ == taps,
                i <= n,
                all_values_below(out@, f.q()),
                values_of(out@) + kind_fib_outputs(f, self.state_view(), taps, (n - i) as nat)
                    == kind_fib_outputs(f, start, taps, n as nat),
            decreases n - i,
        {
            let ghost before = self.state_view();
            let v = self.step();
            proof {
                assert(kind_fib_outputs(f, before, taps, (n - i) as nat)
                    == seq![v.value()] + kind_fib_outputs(f, self.state_view(), taps, (n - i - 1) as nat));
            }
            let ghost prev = out@;
            out.push(v);
            proof {
                assert(values_of(out@) =~= values_of(prev).push(v.value()));
                assert(values_of(out@) + kind_fib_outputs(f, self.state_view(), taps, (n - i - 1) as nat)
                    =~= values_of(prev) + kind_fib_outputs(f, before, taps, (n - i) as nat));
                assert forall|j: int| 0 <= j < out@.len() implies (#[trigger] out@[j]).value() < f.q() by {
                    if j < prev.len() {
                        assert(out@[j] == prev[j]);
                    } else {
                        assert(before[before.len() - 1] < f.q());
                    }
                }
            }
            i = i + 1;
        }
        assert(values_of(out@) + kind_fib_outputs(f, self.state_view(), taps, 0) =~= values_of(out@));
        kind_array(&self.field, out)
    }

    /// The current state as an array over the field; never an error.
    pub fn state(&self) -> (r: Result<GaloisArray>)
        requires
            self.wf(),
        ensures
            r matches Ok(a) && a.wf() && (self.field_view() is Small <==> a is Small) && a.values_view() == self.state_view(),
    {
        let mut copy: Vec<BigValue> = Vec::new();
        let mut i: usize = 0;
        while i < self.state.len()
            invariant
                self.wf(),
                i <= self.state@.len(),
                copy@.len() == i,
                forall|j: int| 0 <= j < i ==> (#[trigger] copy@[j]).value() == self.state@[j].value(),
            decreases self.state@.len() - i,
        {
            copy.push(self.state[i].clone());
            i = i + 1;
        }
        assert(values_of(copy@) =~= self.state_view());
        assert forall|j: int| 0 <= j < copy@.len() implies (#[trigger] copy@[j]).value() < self.field.q() by {
            assert(copy@[j].value() == self.state_view()[j]);
        }
        kind_array(&self.field, copy)
    }
}

/// Galois linear-feedback shift register over either kind of field.
pub struct FieldGlfsr {
    field: FieldKind,
    state: Vec<BigValue>,
    feedback_poly: Vec<BigValue>,
}

impl FieldGlfsr {
    pub closed spec fn field_view(&self) -> FieldKind {
        self.field
    }

    pub closed spec fn state_view(&self) -> Seq<nat> {
        values_of(self.state@)
    }

    pub closed spec fn feedback_view(&self) -> Seq<nat> {
        values_of(self.feedback_poly@)
    }

    /// The state holds elements of a well-formed field.
    pub open spec fn wf(&self) -> bool {
        &&& self.field_view().wf()
        &&& forall|i: int| 0 <= i < self.state_view().len() ==> (#[trigger] self.state_view()[i]) < self.field_view().q()
    }

    /// A register that can step: a nonempty state, and over a field with 64-bit elements
    /// feedback coefficients that are elements.
    pub open spec fn runnable(&self) -> bool {
        &&& self.wf()
        &&& self.state_view().len() >= 1
        &&& self.field_view() is Small ==> forall|i: int| 0 <= i < self.feedback_view().len()
            ==> (#[trigger] self.feedback_view()[i]) < self.field_view().q()
    }

    /// A register with the given state and feedback coefficients; an error for the first
    /// state entry that is not an element.
    pub fn new(field: FieldKind, state: Vec<u64>, feedback_poly: Vec<u64>) -> (r: Result<Self>)
        requires
            field.wf(),
        ensures
            (forall|i: int| 0 <= i < state@.len() ==> state@[i] < field.q()) ==> (r matches Ok(l) && l.wf()
                && l.field_view() == field && l.state_view() == state@.map_values(|x: u64| x as nat)
                && l.feedback_view() == feedback_poly@.map_values(|x: u64| x as nat)),
            (exists|i: int| 0 <= i < state@.len() && state@[i] >= field.q()) ==> r is Err,
    {
        let values = match checked_state(&field, state) {
            Ok(v) => v,
            Err(e) => { return Err(e); },
        };
        let mut poly: Vec<BigValue> = Vec::new();
        let mut i: usize = 0;
        while i < feedback_poly.len()
            invariant
                i <= feedback_poly@.len(),
                poly@.len() == i,
                forall|j: int| 0 <= j < i ==> (#[trigger] poly@[j]).value() == feedback_poly@[j],
            decreases feedback_poly@.len() - i,
        {
            poly.push(BigValue::from_u64(feedback_poly[i]));
            i = i + 1;
        }
        assert(values_of(poly@) =~= feedback_poly@.map_values(|x: u64| x as nat));
        Ok(FieldGlfsr { field, state: values, feedback_poly: poly })
    }

    /// A register whose feedback coefficients are those of `poly`, lowest degree first;
    /// `InvalidElement` (value 0) for a coefficient beyond 64 bits, then the errors of `new`.
    pub fn from_field_poly(field: FieldKind, state: Vec<u64>, poly: &FieldPoly) -> (r: Result<Self>)
        requires
            field.wf(),
            poly.wf(),
        ensures
            (exists|i: int| 0 <= i < poly.coeffs_nat().len() && poly.coeffs_nat()[i] > u64::MAX) ==>
                r == Err::<Self, GaloisError>(GaloisError::InvalidElement { value: 0, characteristic: field.p() as u64,
                    degree: field.m() as u32 }),
            (forall|i: int| 0 <= i < poly.coeffs_nat().len() ==> poly.coeffs_nat()[i] <= u64::MAX)
                && (forall|i: int| 0 <= i < state@.len() ==> state@[i] < field.q()) ==> (r matches Ok(l) && l.wf()
                && l.field_view() == field && l.state_view() == state@.map_values(|x: u64| x as nat)
                && l.feedback_view() == poly.coeffs_nat().reverse()),
            (forall|i: int| 0 <= i < poly.coeffs_nat().len() ==> poly.coeffs_nat()[i] <= u64::MAX)
                && (exists|i: int| 0 <= i < state@.len() && state@[i] >= field.q()) ==> r is Err,
    {
        let coeffs: Vec<u64> = match poly {
            FieldPoly::Small(p) => p.coeffs_asc(),
            FieldPoly::Big(p) => {
                let asc = p.coeffs_asc();
                assert(values_of(asc@) == poly.coeffs_nat().reverse());
                let mut out: Vec<u64> = Vec::new();
                let mut i: usize = 0;
                while i < asc.len()
                    invariant
                        values_of(asc@) == poly.coeffs_nat().reverse(),
                        i <= asc@.len(),
                        out@.len() == i,
                        forall|j: int| 0 <= j < i ==> (#[trigger] out@[j]) as nat == asc@[j].value(),
                    decreases asc@.len() - i,
                {
                    let c = match asc[i].to_u64() {
                        Some(c) => c,
                        None => {
                            proof {
                                let t = (asc@.len() - 1 - i) as int;
                                assert(values_of(asc@)[i as int] == asc@[i as int].value());
                                assert(values_of(asc@).len() == asc@.len());
                                assert(poly.coeffs_nat().reverse()[i as int] == poly.coeffs_nat()[t]);
                                assert(poly.coeffs_nat()[t] == values_of(asc@)[i as int]);
                                assert(poly.coeffs_nat()[t] > u64::MAX);
                            }
                            return Err(GaloisError::InvalidElement { value: 0, characteristic: field.characteristic(),
                                degree: field.degree() });
                        },
                    };
                    out.push(c);
                    i = i + 1;
                }
                assert(out@.map_values(|x: u64| x as nat) =~= values_of(asc@));
                proof {
                    assert forall|j: int| 0 <= j < poly.coeffs_nat().len() implies poly.coeffs_nat()[j] <= u64::MAX by {
                        let t = asc@.len() - 1 - j;
                        assert(values_of(asc@)[t] == poly.coeffs_nat()[j]);
                        assert(out@[t] as nat == asc@[t].value());
                    }
                }
                out
            },
        };
        proof {
            if let FieldPoly::Small(p) = poly {
                assert(coeffs@.map_values(|x: u64| x as nat) =~= poly.coeffs_nat().reverse());
            }
        }
        Self::new(field, state, coeffs)
    }

    pub fn field(&self) -> (r: &FieldKind)
        ensures
            *r == self.field_view(),
    {
        &self.field
    }

    /// Outputs the first entry, shifts the state and appends the weighted sum of the entries.
    pub fn step(&mut self) -> (out: BigValue)
        requires
            old(self).runnable(),
        ensures
            final(self).runnable(),
            out.value() == old(self).state_view()[0],
            final(self).state_view() == kind_gal_next(old(self).field_view(), old(self).state_view(), old(self).feedback_view()),
            final(self).state_view().len() == old(self).state_view().len(),
            forall|j: int| 0 <= j < old(self).state_view().len() - 1 ==>
                #[trigger] final(self).state_view()[j] == old(self).state_view()[j + 1],
            old(self).field_view().m() == 1 ==> final(self).state_view().last()
                == kind_weighted_total(old(self).state_view(), old(self).feedback_view(),
                    if old(self).feedback_view().len() <= old(self).state_view().len() { old(self).feedback_view().len() }
                    else { old(self).state_view().len() }) % old(self).field_view().p(),
            final(self).field_view() == old(self).field_view(),
            final(self).feedback_view() == old(self).feedback_view(),
    {
        let ghost s0 = self.state_view();
        let ghost c0 = self.feedback_view();
        proof { lemma_kind_q(self.field); }
        let out = self.state[0].clone();
        let n = if self.feedback_poly.len() <= self.state.len() { self.feedback_poly.len() } else { self.state.len() };
        let mut feedback = BigValue::from_u64(0);
        let mut k: usize = 0;
        while k < n
            invariant
                self.runnable(),
                s0 == self.state_view(),
                c0 == self.feedback_view(),
                n <= self.state@.len(),
                n <= self.feedback_poly@.len(),
                k <= n,
                feedback.value() == kind_feedback_sum(self.field, s0, c0, k as nat),
                feedback.value() < self.field.q(),
            decreases n - k,
        {
            assert(self.state@[k as int].value() == s0[k as int]);
            assert(self.feedback_poly@[k as int].value() == c0[k as int]);
            let t = kind_mul(&self.field, &self.feedback_poly[k], &self.state[k]);
            feedback = kind_add(&self.field, &feedback, &t);
            k = k + 1;
        }
        let ghost before = self.state@;
        self.state.remove(0);
        let ghost fv = feedback.value();
        self.state.push(feedback);
        proof {
            assert(values_of(self.state@) =~= s0.drop_first().push(fv));
            if self.field.m() == 1 {
                lemma_kind_feedback_sum_prime(self.field, s0, c0, n as nat);
            }
            assert forall|i: int| 0 <= i < self.state_view().len() implies (#[trigger] self.state_view()[i]) < self.field_view().q() by {
                if i < self.state_view().len() - 1 {
                    assert(self.state_view()[i] == s0[i + 1]);
                }
            }
        }
        out
    }

    /// The next `n` outputs as an array over the field; never an error.
    pub fn generate(&mut self, n: usize) -> (r: Result<GaloisArray>)
        requires
            old(self).runnable(),
        ensures
            final(self).runnable(),
            final(self).field_view() == old(self).field_view(),
            final(self).feedback_view() == old(self).feedback_view(),
            r matches Ok(a) && a.wf() && (old(self).field_view() is Small <==> a is Small)
                && a.values_view() == kind_gal_outputs(old(self).field_view(), old(self).state_view(), old(self).feedback_view(), n as nat),
    {
        let ghost f = self.field;
        let ghost poly = self.feedback_view();
        let ghost start = self.state_view();
        let mut out: Vec<BigValue> = Vec::new();
        let mut i: usize = 0;
        while i < n
            invariant
                self.runnable(),
                self.field == f,
                self.feedback_view() == poly,
                i <= n,
                all_values_below(out@, f.q()),
                values_of(out@) + kind_gal_outputs(f, self.state_view(), poly, (n - i) as nat)
                    == kind_gal_outputs(f, start, poly, n as nat),
            decreases n - i,
        {
            let ghost before = self.state_view();
            let v = self.step();
            proof {
                assert(kind_gal_outputs(f, before, poly, (n - i) as nat)
                    == seq![v.value()] + kind_gal_outputs(f, self.state_view(), poly, (n - i - 1) as nat));
            }
            let ghost prev = out@;
            out.push(v);
            proof {
                assert(values_of(out@) =~= values_of(prev).push(v.value()));
                assert(values_of(out@) + kind_gal_outputs(f, self.state_view(), poly, (n - i - 1) as nat)
                    =~= values_of(prev) + kind_gal_outputs(f, before, poly, (n - i) as nat));
                assert forall|j: int| 0 <= j < out@.len() implies (#[trigger] out@[j]).value() < f.q() by {
                    if j < prev.len() {
                        assert(out@[j] == prev[j]);
                    } else {
                        assert(before[0] < f.q());
                    }
                }
            }
            i = i + 1;
        }
        assert(values_of(out@) + kind_gal_outputs(f, self.state_view(), poly, 0) =~= values_of(out@));
        kind_array(&self.field, out)
    }
}

} // verus!
