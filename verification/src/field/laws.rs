//! Algebraic laws of the field operations, of broadcasting and of array arithmetic.

use vstd::prelude::*;
use crate::error::Result;
use crate::arith::{npow, lemma_npow_nonneg, lemma_npow_positive};
use crate::field::array::{FieldArray, arrays_same_field, broadcast_outcome, operands_at};
use crate::field::broadcast::{bcast_args, broadcast_shape, dim_from_end, shapes_compatible};
use crate::field::factory::GaloisField;
use crate::field::model::{
    digit, digit_op, digits, from_digits, gf_add, gf_neg, gf_sub, lemma_digits_bound, lemma_digits_roundtrip,
    lemma_from_digits_bound, lemma_npow_succ, op_digits,
};

verus! {

/// `p^n = p^i p^(n-i)` for `i <= n`.
proof fn lemma_npow_split(p: nat, i: nat, n: nat)
    requires
        i <= n,
    ensures
        npow(p, n) == npow(p, i) * npow(p, (n - i) as nat),
{
    vstd::arithmetic::power::lemma_pow_adds(p as int, i, (n - i) as nat);
    lemma_npow_nonneg(p, i);
    lemma_npow_nonneg(p, (n - i) as nat);
    lemma_npow_nonneg(p, n);
}

/// Digit `i` of the value of a digit sequence is its entry `i`.
pub proof fn lemma_digit_of_value(s: Seq<u64>, p: nat, i: nat)
    requires
        2 <= p <= u64::MAX,
        forall|k: int| 0 <= k < s.len() ==> (#[trigger] s[k]) < p,
        i < s.len(),
    ensures
        digit(from_digits(s, p), p, i) == s[i as int],
    decreases s.len(),
{
    let n = (s.len() - 1) as nat;
    let t = s.drop_last();
    let a = from_digits(t, p);
    let l = s.last() as nat;
    lemma_from_digits_bound(t, p);
    lemma_npow_positive(p, n);
    lemma_npow_positive(p, i);
    let v = from_digits(s, p);
    assert(v == a + l * npow(p, n));
    if i == n {
        vstd::arithmetic::div_mod::lemma_fundamental_div_mod_converse(v as int, npow(p, n) as int, l as int, a as int);
        vstd::arithmetic::div_mod::lemma_small_mod(l, p);
    } else {
        lemma_digit_of_value(t, p, i);
        let pi = npow(p, i);
        let rest = npow(p, (n - i - 1) as nat);
        lemma_npow_split(p, i, n);
        lemma_npow_succ(p, (n - i - 1) as nat);
        assert(npow(p, (n - i) as nat) == rest * p);
        let qa = a / pi;
        let ra = a % pi;
        vstd::arithmetic::div_mod::lemma_fundamental_div_mod(a as int, pi as int);
        vstd::arithmetic::div_mod::lemma_mod_bound(a as int, pi as int);
        assert(v == (qa + l * rest * p) * pi + ra) by (nonlinear_arith)
            requires v == a + l * npow(p, n), npow(p, n) == pi * (rest * p), a == pi * qa + ra;
        vstd::arithmetic::div_mod::lemma_fundamental_div_mod_converse(v as int, pi as int, (qa + l * rest * p) as int, ra as int);
        assert(qa + l * rest * p == p * (l * rest) + qa) by (nonlinear_arith);
        vstd::arithmetic::div_mod::lemma_mod_multiples_vanish((l * rest) as int, qa as int, p as int);
    }
}

/// The digits of a sum are the digitwise sums modulo `p`.
pub proof fn lemma_digit_of_add(a: nat, b: nat, p: nat, m: nat, i: nat)
    requires
        2 <= p <= u64::MAX,
        i < m,
    ensures
        digit(gf_add(a, b, p, m), p, i) == (digit(a, p, i) + digit(b, p, i)) % p,
{
    crate::field::model::lemma_op_digits_bound(a, b, p, m, 0);
    lemma_digit_of_value(op_digits(a, b, p, m, 0), p, i);
}

/// Addition commutes.
pub proof fn law_add_commutative(a: nat, b: nat, p: nat, m: nat)
    ensures
        gf_add(a, b, p, m) == gf_add(b, a, p, m),
{
    assert(op_digits(a, b, p, m, 0) =~= op_digits(b, a, p, m, 0));
}

/// Addition is associative.
pub proof fn law_add_associative(a: nat, b: nat, c: nat, p: nat, m: nat)
    requires
        2 <= p <= u64::MAX,
    ensures
        gf_add(gf_add(a, b, p, m), c, p, m) == gf_add(a, gf_add(b, c, p, m), p, m),
{
    let l = op_digits(gf_add(a, b, p, m), c, p, m, 0);
    let r = op_digits(a, gf_add(b, c, p, m), p, m, 0);
    assert forall|i: int| 0 <= i < m implies l[i] == r[i] by {
        lemma_digit_of_add(a, b, p, m, i as nat);
        lemma_digit_of_add(b, c, p, m, i as nat);
        let x = digit(a, p, i as nat);
        let y = digit(b, p, i as nat);
        let z = digit(c, p, i as nat);
        vstd::arithmetic::div_mod::lemma_add_mod_noop((x + y) as int, z as int, p as int);
        vstd::arithmetic::div_mod::lemma_add_mod_noop(x as int, (y + z) as int, p as int);
        vstd::arithmetic::div_mod::lemma_mod_twice((x + y) as int, p as int);
        vstd::arithmetic::div_mod::lemma_mod_twice((y + z) as int, p as int);
        vstd::arithmetic::div_mod::lemma_add_mod_noop(((x + y) % p) as int, z as int, p as int);
        vstd::arithmetic::div_mod::lemma_add_mod_noop(x as int, ((y + z) % p) as int, p as int);
        vstd::arithmetic::div_mod::lemma_small_mod(z, p);
        vstd::arithmetic::div_mod::lemma_small_mod(x, p);
        lemma_digit_small(a, p, i as nat);
        lemma_digit_small(b, p, i as nat);
        lemma_digit_small(c, p, i as nat);
    }
    assert(l =~= r);
}

pub proof fn lemma_digit_small(v: nat, p: nat, i: nat)
    requires
        p >= 1,
    ensures
        digit(v, p, i) < p,
{
    lemma_npow_positive(p, i);
    vstd::arithmetic::div_mod::lemma_mod_bound((v / npow(p, i)) as int, p as int);
}

/// In GF(p) the sum is the residue of the integer sum.
pub proof fn lemma_prime_add(a: nat, b: nat, p: nat)
    requires
        2 <= p <= u64::MAX,
    ensures
        gf_add(a, b, p, 1) == (a + b) % p,
{
    lemma_digit_of_add(a, b, p, 1, 0);
    crate::field::model::lemma_op_digits_bound(a, b, p, 1, 0);
    crate::field::model::lemma_from_digits_bound(op_digits(a, b, p, 1, 0), p);
    crate::arith::lemma_npow_zero(p);
    crate::field::model::lemma_npow_succ(p, 0);
    let s = gf_add(a, b, p, 1);
    assert(op_digits(a, b, p, 1, 0).len() == 1);
    crate::arith::lemma_npow_one(p);
    assert(npow(p, 1) == p);
    assert(s < p);
    assert(s / 1nat == s);
    assert(a / 1nat == a);
    assert(b / 1nat == b);
    vstd::arithmetic::div_mod::lemma_small_mod(s, p);
    vstd::arithmetic::div_mod::lemma_add_mod_noop(a as int, b as int, p as int);
}

/// Zero is the additive identity on elements.
pub proof fn law_add_zero(a: nat, p: nat, m: nat)
    requires
        2 <= p <= u64::MAX,
        a < npow(p, m),
    ensures
        gf_add(a, 0, p, m) == a,
{
    assert forall|i: int| 0 <= i < m implies op_digits(a, 0, p, m, 0)[i] == digits(a, p, m)[i] by {
        lemma_npow_positive(p, i as nat);
        assert(digit(0, p, i as nat) == 0) by {
            vstd::arithmetic::div_mod::lemma_small_mod(0, p);
        }
        lemma_digit_small(a, p, i as nat);
        vstd::arithmetic::div_mod::lemma_small_mod(digit(a, p, i as nat), p);
    }
    assert(op_digits(a, 0, p, m, 0) =~= digits(a, p, m));
    lemma_digits_roundtrip(a, p, m);
}

/// Every element plus its negation is zero.
pub proof fn law_add_neg(a: nat, p: nat, m: nat)
    requires
        2 <= p <= u64::MAX,
    ensures
        gf_add(a, gf_neg(a, p, m), p, m) == 0,
{
    let s = op_digits(a, gf_neg(a, p, m), p, m, 0);
    assert forall|i: int| 0 <= i < m implies s[i] == 0u64 by {
        crate::field::model::lemma_op_digits_bound(a, 0, p, m, 2);
        lemma_digit_of_value(op_digits(a, 0, p, m, 2), p, i as nat);
        let x = digit(a, p, i as nat);
        lemma_digit_small(a, p, i as nat);
        let nd = digit(gf_neg(a, p, m), p, i as nat);
        assert(nd == op_digits(a, 0, p, m, 2)[i] as nat);
        assert(nd == ((p - x) % (p as int)) as nat);
        if x == 0 {
            vstd::arithmetic::div_mod::lemma_mod_self_0(p as int);
            assert(nd == 0);
            vstd::arithmetic::div_mod::lemma_small_mod(0, p);
            assert((x + nd) % p == 0);
        } else {
            vstd::arithmetic::div_mod::lemma_small_mod((p - x) as nat, p);
            assert(nd == p - x);
            vstd::arithmetic::div_mod::lemma_mod_self_0(p as int);
            assert((x + nd) % p == 0);
        }
        assert(s[i] == digit_op(x, nd, p, 0) as u64);
    }
    assert(from_digits(s, p) == 0) by {
        lemma_from_digits_zero(s, p);
    }
}

proof fn lemma_from_digits_zero(s: Seq<u64>, p: nat)
    requires
        forall|i: int| 0 <= i < s.len() ==> s[i] == 0u64,
    ensures
        from_digits(s, p) == 0,
    decreases s.len(),
{
    if s.len() > 0 {
        lemma_from_digits_zero(s.drop_last(), p);
    }
}

/// Subtraction is addition of the negation.
pub proof fn law_sub_is_add_neg(a: nat, b: nat, p: nat, m: nat)
    requires
        2 <= p <= u64::MAX,
    ensures
        gf_sub(a, b, p, m) == gf_add(a, gf_neg(b, p, m), p, m),
{
    let l = op_digits(a, b, p, m, 1);
    let r = op_digits(a, gf_neg(b, p, m), p, m, 0);
    assert forall|i: int| 0 <= i < m implies l[i] == r[i] by {
        crate::field::model::lemma_op_digits_bound(b, 0, p, m, 2);
        lemma_digit_of_value(op_digits(b, 0, p, m, 2), p, i as nat);
        let x = digit(a, p, i as nat);
        let y = digit(b, p, i as nat);
        lemma_digit_small(a, p, i as nat);
        lemma_digit_small(b, p, i as nat);
        vstd::arithmetic::div_mod::lemma_add_mod_noop(x as int, (p - y) as int, p as int);
        vstd::arithmetic::div_mod::lemma_small_mod(x, p);
        vstd::arithmetic::div_mod::lemma_mod_twice((p - y) as int, p as int);
    }
    assert(l =~= r);
}

/// `g^0 = 1`, so the discrete logarithm of one is zero.
proof fn lemma_dlog_one(field: GaloisField)
    requires
        field.wf(),
    ensures
        field.dlog(1) == 0,
        field.power(0) == 1,
{
    field.lemma_q_ge_2();
    assert(field.power(0) == 1);
    if field.q() > 2 || field.q() == 2 {
        field.lemma_dlog(1);
        field.lemma_power_one(field.dlog(1));
    }
}

/// Fermat's little theorem: every nonzero element raised to `q - 1` is one.
pub proof fn law_fermat(field: GaloisField, a: nat)
    requires
        field.wf(),
        1 <= a < field.q(),
    ensures
        field.pow_spec(a, (field.q() - 1) as nat) == 1,
{
    field.lemma_q_ge_2();
    let n = (field.q() - 1) as int;
    vstd::arithmetic::div_mod::lemma_mod_multiples_basic(field.dlog(a) as int, n);
    assert(field.power(0) == 1);
}

/// Raising to `e1` and then to `e2` is raising to `e1 e2`.
pub proof fn law_pow_pow(field: GaloisField, a: nat, e1: nat, e2: nat)
    requires
        field.wf(),
        a < field.q(),
    ensures
        field.pow_spec(field.pow_spec(a, e1), e2) == field.pow_spec(a, e1 * e2),
{
    field.lemma_q_ge_2();
    lemma_dlog_one(field);
    let n = (field.q() - 1) as int;
    if e1 == 0 {
        assert(e1 * e2 == 0);
        if e2 != 0 {
            vstd::arithmetic::div_mod::lemma_small_mod(0, n as nat);
            assert(0 * e2 == 0);
        }
    } else if e2 == 0 {
        assert(e1 * e2 == 0);
    } else if a == 0 {
        assert(e1 * e2 != 0) by (nonlinear_arith) requires e1 != 0, e2 != 0;
    } else {
        assert(e1 * e2 != 0) by (nonlinear_arith) requires e1 != 0, e2 != 0;
        let d = field.dlog(a) as int;
        let k1 = (d * e1) % n;
        vstd::arithmetic::div_mod::lemma_mod_bound(d * e1, n);
        field.lemma_power_table(k1 as nat);
        let b = field.power(k1 as nat);
        assert(field.pow_spec(a, e1) == b);
        assert(b != 0);
        assert(field.dlog(b) == k1);
        vstd::arithmetic::div_mod::lemma_mul_mod_noop_left(d * e1, e2 as int, n);
        assert((d * e1) * e2 == d * (e1 * e2)) by (nonlinear_arith);
    }
}

/// Every nonzero element divided by itself is one.
pub proof fn law_div_self(field: GaloisField, a: nat)
    requires
        field.wf(),
        1 <= a < field.q(),
    ensures
        field.div_spec(a, a) == 1,
{
    field.lemma_q_ge_2();
    let n = (field.q() - 1) as int;
    vstd::arithmetic::div_mod::lemma_mod_self_0(n);
    assert((field.dlog(a) + (field.q() - 1) - field.dlog(a)) == n);
    assert(field.power(0) == 1);
}

/// The discrete logarithm and exponentiation of the primitive element undo each other.
pub proof fn law_log_exp(field: GaloisField, a: nat, i: nat)
    requires
        field.wf(),
    ensures
        1 <= a < field.q() ==> field.power(field.dlog(a)) == a,
        i < field.q() - 1 ==> field.dlog(field.power(i)) == i,
{
    if 1 <= a < field.q() {
        field.lemma_dlog(a);
    }
    if i < field.q() - 1 {
        field.lemma_power_table(i);
    }
}

/// Broadcasting is symmetric: two shapes are compatible in either order, with the same
/// broadcast shape.
pub proof fn law_broadcast_symmetric(a: Seq<usize>, b: Seq<usize>)
    ensures
        shapes_compatible(a, b) == shapes_compatible(b, a),
        shapes_compatible(a, b) ==> broadcast_shape(a, b) == broadcast_shape(b, a),
{
    if shapes_compatible(a, b) {
        let l: int = if a.len() >= b.len() { a.len() as int } else { b.len() as int };
        let ab = broadcast_shape(a, b);
        let ba = broadcast_shape(b, a);
        assert forall|k: int| 0 <= k < l implies ab[k] == ba[k] by {
            let i = l - 1 - k;
            assert(dim_from_end(a, i) == dim_from_end(b, i) || dim_from_end(a, i) == 1 || dim_from_end(b, i) == 1);
        }
        assert(ab =~= ba);
    }
}

/// Elementwise addition of arrays commutes: the sums in either order have the same shape
/// and values.
pub proof fn law_array_add_commutative(x: &FieldArray, y: &FieldArray, r1: Result<FieldArray>, r2: Result<FieldArray>)
    requires
        x.wf(),
        y.wf(),
        broadcast_outcome(x, y, r1, |u: nat, v: nat| x.field_view().add_spec(u, v)),
        broadcast_outcome(y, x, r2, |u: nat, v: nat| y.field_view().add_spec(u, v)),
    ensures
        r1 is Ok <==> r2 is Ok,
        r1 matches Ok(c1) ==> (r2 matches Ok(c2) && c1.shape_view() == c2.shape_view()
            && c1.values_view() == c2.values_view()),
{
    law_broadcast_symmetric(x.shape_view(), y.shape_view());
    if arrays_same_field(x, y) && shapes_compatible(x.shape_view(), y.shape_view()) {
        let c1 = r1->Ok_0;
        let c2 = r2->Ok_0;
        assert forall|i: int| 0 <= i < c1.values_view().len() implies c1.values_view()[i] == c2.values_view()[i] by {
            let o1 = operands_at(x, y, i);
            let o2 = operands_at(y, x, i);
            assert(o1.0 == o2.1 && o1.1 == o2.0);
            law_add_commutative(o1.0 as nat, o1.1 as nat, x.field_view().p(), x.field_view().m());
        }
        assert(c1.values_view() =~= c2.values_view());
    }
}

} // verus!
