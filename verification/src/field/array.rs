//! Multi-dimensional arrays of field elements with NumPy-style broadcasting.

use vstd::prelude::*;
use crate::error::{GaloisError, Result};
use crate::field::broadcast::{
    bcast_args, bcast_index, dim_from_end, broadcast_binary, broadcast_binary_result, broadcast_ready, broadcast_shape,
    left_size, prefix_fits, right_size, shape_size, shapes_compatible, slice_to_vec, stride_at,
    suffix_fits, total_size,
};
use crate::field::element::{FieldElement, same_field};
use crate::field::factory::GaloisField;
use crate::poly::field_poly::first_invalid;
use crate::arith::is_prime_spec;

verus! {

/// A row-major array of elements of one field, with its shape.
#[derive(Debug)]
pub struct FieldArray {
    field: GaloisField,
    shape: Vec<usize>,
    data: Vec<u64>,
}

/// Every value is an element of a field of order `q`.
pub open spec fn all_below(s: Seq<u64>, q: nat) -> bool {
    forall|i: int| 0 <= i < s.len() ==> (#[trigger] s[i]) < q
}

/// A one-dimensional shape of length `n`.
pub proof fn lemma_shape_1d(n: usize)
    ensures
        shape_size(seq![n]) == n,
        prefix_fits(seq![n]),
        suffix_fits(seq![n]),
{
    let s = seq![n];
    assert(right_size(s, 1) == 1);
    assert(right_size(s, 0) == (n as nat) * 1);
    assert((n as nat) * 1 == n) by (nonlinear_arith);
    assert(left_size(s, 1) == left_size(s, 0) * (n as nat));
    assert(1 * (n as nat) == n) by (nonlinear_arith);
    assert forall|k: int| 0 <= k <= s.len() implies #[trigger] left_size(s, k) <= usize::MAX by {
        if k == 1 { assert(left_size(s, 1) == n); }
    }
    assert forall|i: int| -1 <= i < s.len() implies #[trigger] stride_at(s, i) <= usize::MAX by {
        if i == -1 { assert(stride_at(s, -1) == right_size(s, 0)); }
        if i == 0 { assert(stride_at(s, 0) == right_size(s, 1)); }
    }
}

/// `Ok` when every value is an element of `field`, else `InvalidElement` for the first
/// value that is not.
fn check_elements(field: &GaloisField, values: &[u64]) -> (r: Result<()>)
    ensures
        all_below(values@, field.q()) ==> r is Ok,
        !all_below(values@, field.q()) ==> r == Err::<(), GaloisError>(GaloisError::InvalidElement {
            value: values@[first_invalid(values@, field.q())],
            characteristic: field.p() as u64, degree: field.m() as u32 }),
{
    let mut i: usize = 0;
    while i < values.len()
        invariant
            i <= values@.len(),
            forall|j: int| 0 <= j < i ==> values@[j] < field.q(),
        decreases values@.len() - i,
    {
        if values[i] >= field.order() {
            let ghost k = first_invalid(values@, field.q());
            assert(0 <= i < values@.len() && values@[i as int] >= field.q()
                && forall|j: int| 0 <= j < i ==> values@[j] < field.q());
            proof {
                if k != i {
                    assert(k < i || k > i);
                }
            }
            return Err(GaloisError::InvalidElement {
                value: values[i],
                characteristic: field.characteristic(),
                degree: field.degree(),
            });
        }
        i = i + 1;
    }
    Ok(())
}

/// Whether every product of trailing dimensions fits a `usize`.
pub(crate) fn strides_fit(shape: &[usize]) -> (r: bool)
    ensures
        r == suffix_fits(shape@),
{
    let n = shape.len();
    let mut acc: usize = 1;
    let mut k: usize = n;
    assert(right_size(shape@, n as int) == 1);
    while k > 0
        invariant
            k <= n,
            n == shape@.len(),
            acc == right_size(shape@, k as int),
            forall|j: int| k <= j <= n ==> #[trigger] right_size(shape@, j) <= usize::MAX,
        decreases k,
    {
        assert(right_size(shape@, k - 1) == (shape@[k - 1] as nat) * right_size(shape@, k as int));
        match acc.checked_mul(shape[k - 1]) {
            Some(v) => {
                assert(v == right_size(shape@, k - 1)) by (nonlinear_arith)
                    requires v == acc * shape@[k - 1], acc == right_size(shape@, k as int),
                        right_size(shape@, k - 1) == (shape@[k - 1] as nat) * right_size(shape@, k as int);
                acc = v;
                k = k - 1;
            },
            None => {
                assert((shape@[k - 1] as nat) * right_size(shape@, k as int) == acc * shape@[k - 1]) by (nonlinear_arith)
                    requires acc == right_size(shape@, k as int);
                assert(stride_at(shape@, k - 2) > usize::MAX);
                return false;
            },
        }
    }
    assert forall|i: int| -1 <= i < shape@.len() implies #[trigger] stride_at(shape@, i) <= usize::MAX by {
        assert(stride_at(shape@, i) == right_size(shape@, i + 1));
    }
    true
}

/// The two arrays' fields have the same characteristic, degree and order.
pub open spec fn arrays_same_field(a: &FieldArray, b: &FieldArray) -> bool {
    same_field(a.field_view(), b.field_view())
}

impl FieldArray {
    pub closed spec fn field_view(&self) -> GaloisField {
        self.field
    }

    pub closed spec fn shape_view(&self) -> Seq<usize> {
        self.shape@
    }

    pub closed spec fn values_view(&self) -> Seq<u64> {
        self.data@
    }

    /// The values fill the shape, products of dimensions fit a `usize`, and every value is
    /// an element of a well-formed field.
    pub open spec fn wf(&self) -> bool {
        &&& self.field_view().wf()
        &&& self.values_view().len() == shape_size(self.shape_view())
        &&& prefix_fits(self.shape_view())
        &&& suffix_fits(self.shape_view())
        &&& all_below(self.values_view(), self.field_view().q())
    }

    /// A one-dimensional array of elements.
    pub(crate) fn new(field: GaloisField, values: Vec<u64>) -> (r: Self)
        requires
            field.wf(),
            all_below(values@, field.q()),
        ensures
            r.wf(),
            r.field_view() == field,
            r.shape_view() == seq![values@.len() as usize],
            r.values_view() == values@,
    {
        let n = values.len();
        proof { lemma_shape_1d(n); }
        let shape = vec![n];
        assert(shape@ == seq![n]);
        FieldArray { field, shape, data: values }
    }

    /// An array of the given shape holding `values` in row-major order: `ShapeMismatch`
    /// when their number differs from the shape's size (or the shape's strides overflow),
    /// `InvalidElement` for the first value that is not an element.
    pub fn from_shape_vec(field: GaloisField, shape: &[usize], values: Vec<u64>) -> (r: Result<Self>)
        requires
            field.wf(),
            prefix_fits(shape@),
        ensures
            shape_size(shape@) != values@.len() ==> (r matches Err(GaloisError::ShapeMismatch { expected, actual })
                && expected@ == shape@ && actual@ == seq![values@.len() as usize]),
            shape_size(shape@) == values@.len() && !all_below(values@, field.q()) ==> r == Err::<Self, GaloisError>(
                GaloisError::InvalidElement { value: values@[first_invalid(values@, field.q())],
                    characteristic: field.p() as u64, degree: field.m() as u32 }),
            shape_size(shape@) == values@.len() && all_below(values@, field.q()) && !suffix_fits(shape@) ==>
                (r matches Err(GaloisError::ShapeMismatch { expected, actual })
                && expected@ == shape@ && actual@ == seq![values@.len() as usize]),
            shape_size(shape@) == values@.len() && all_below(values@, field.q()) && suffix_fits(shape@) ==>
                (r matches Ok(a) && a.wf() && a.field_view() == field && a.shape_view() == shape@
                && a.values_view() == values@),
    {
        let len = values.len();
        if total_size(shape) != len {
            return Err(GaloisError::ShapeMismatch { expected: slice_to_vec(shape), actual: vec![len] });
        }
        if let Err(e) = check_elements(&field, values.as_slice()) {
            return Err(e);
        }
        if !strides_fit(shape) {
            return Err(GaloisError::ShapeMismatch { expected: slice_to_vec(shape), actual: vec![len] });
        }
        Ok(FieldArray { field, shape: slice_to_vec(shape), data: values })
    }

    /// An array of zeros.
    pub fn zeros(field: GaloisField, shape: &[usize]) -> (r: Self)
        requires
            field.wf(),
            prefix_fits(shape@),
            suffix_fits(shape@),
        ensures
            r.wf(),
            r.field_view() == field,
            r.shape_view() == shape@,
            r.values_view() == Seq::new(shape_size(shape@), |i: int| 0u64),
    {
        proof { field.lemma_q_ge_2(); }
        Self::filled(field, shape, 0)
    }

    /// An array of ones.
    pub fn ones(field: GaloisField, shape: &[usize]) -> (r: Self)
        requires
            field.wf(),
            prefix_fits(shape@),
            suffix_fits(shape@),
        ensures
            r.wf(),
            r.field_view() == field,
            r.shape_view() == shape@,
            r.values_view() == Seq::new(shape_size(shape@), |i: int| 1u64),
    {
        proof { field.lemma_q_ge_2(); }
        Self::filled(field, shape, 1)
    }

    fn filled(field: GaloisField, shape: &[usize], v: u64) -> (r: Self)
        requires
            field.wf(),
            prefix_fits(shape@),
            suffix_fits(shape@),
            v < field.q(),
        ensures
            r.wf(),
            r.field_view() == field,
            r.shape_view() == shape@,
            r.values_view() == Seq::new(shape_size(shape@), |i: int| v),
    {
        let n = total_size(shape);
        let mut data: Vec<u64> = Vec::new();
        let mut i: usize = 0;
        while i < n
            invariant
                i <= n,
                data@ =~= Seq::new(i as nat, |j: int| v),
            decreases n - i,
        {
            data.push(v);
            i = i + 1;
        }
        FieldArray { field, shape: slice_to_vec(shape), data }
    }

    pub fn field(&self) -> (r: &GaloisField)
        ensures
            *r == self.field_view(),
    {
        &self.field
    }

    pub fn shape(&self) -> (r: Vec<usize>)
        ensures
            r@ == self.shape_view(),
    {
        slice_to_vec(self.shape.as_slice())
    }

    pub fn ndim(&self) -> (r: usize)
        ensures
            r == self.shape_view().len(),
    {
        self.shape.len()
    }

    pub fn len(&self) -> (r: usize)
        ensures
            r == self.values_view().len(),
    {
        self.data.len()
    }

    pub fn is_empty(&self) -> (r: bool)
        ensures
            r == (self.values_view().len() == 0),
    {
        self.data.len() == 0
    }

    /// The values in row-major order.
    pub fn values(&self) -> (r: &[u64])
        ensures
            r@ == self.values_view(),
    {
        self.data.as_slice()
    }

    /// The values as field elements.
    pub fn elements(&self) -> (r: Vec<FieldElement>)
        ensures
            r@.len() == self.values_view().len(),
            forall|i: int| 0 <= i < r@.len() ==> (#[trigger] r@[i]).field_view().equiv(&self.field_view())
                && r@[i].val() == self.values_view()[i],
    {
        let mut out: Vec<FieldElement> = Vec::new();
        let mut i: usize = 0;
        while i < self.data.len()
            invariant
                i <= self.values_view().len(),
                out@.len() == i,
                forall|j: int| 0 <= j < i ==> (#[trigger] out@[j]).field_view().equiv(&self.field_view())
                    && out@[j].val() == self.values_view()[j],
            decreases self.values_view().len() - i,
        {
            out.push(FieldElement::new(self.field.clone(), self.data[i]));
            i = i + 1;
        }
        out
    }

    /// The element at a row-major position, if there is one.
    pub fn get(&self, index: usize) -> (r: Option<FieldElement>)
        ensures
            index >= self.values_view().len() ==> r is None,
            index < self.values_view().len() ==> (r matches Some(e) && e.field_view().equiv(&self.field_view())
                && e.val() == self.values_view()[index as int]),
    {
        if index < self.data.len() {
            Some(FieldElement::new(self.field.clone(), self.data[index]))
        } else {
            None
        }
    }

    /// The same values under another shape of the same size; `ShapeMismatch` (new shape,
    /// current shape) otherwise.
    pub fn reshape(&self, shape: &[usize]) -> (r: Result<Self>)
        requires
            self.wf(),
            prefix_fits(shape@),
        ensures
            shape_size(shape@) == self.values_view().len() && suffix_fits(shape@) ==> (r matches Ok(a)
                && a.wf() && a.field_view().equiv(&self.field_view()) && a.shape_view() == shape@
                && a.values_view() == self.values_view()),
            !(shape_size(shape@) == self.values_view().len() && suffix_fits(shape@)) ==>
                (r matches Err(GaloisError::ShapeMismatch { expected, actual })
                && expected@ == shape@ && actual@ == self.shape_view()),
    {
        if total_size(shape) != self.data.len() || !strides_fit(shape) {
            return Err(GaloisError::ShapeMismatch { expected: slice_to_vec(shape), actual: self.shape() });
        }
        let data = self.data.clone();
        assert(data@ =~= self.data@);
        let field = self.field.clone();
        proof { field.lemma_equiv_wf(&self.field); }
        Ok(FieldArray { field, shape: slice_to_vec(shape), data })
    }
}

/// The broadcast shape of compatible shapes has products of dimensions that fit a `usize`.
pub open spec fn broadcast_fits(a: Seq<usize>, b: Seq<usize>) -> bool {
    shapes_compatible(a, b) ==> prefix_fits(broadcast_shape(a, b)) && suffix_fits(broadcast_shape(a, b))
}

/// The operands of position `i` of the broadcast of two arrays.
pub open spec fn operands_at(a: &FieldArray, b: &FieldArray, i: int) -> (u64, u64) {
    bcast_args(a.shape_view(), a.values_view(), b.shape_view(), b.values_view(), i as nat)
}

/// `op` accepts any two elements of a field of order `q` and returns an element.
pub open spec fn closed_op<F: Fn(u64, u64) -> u64>(op: F, q: nat) -> bool {
    &&& forall|x: u64, y: u64| x < q && y < q ==> call_requires(op, (x, y))
    &&& forall|x: u64, y: u64, z: u64| call_ensures(op, (x, y), z) ==> z < q
}

/// As `closed_op`, for an operation that can fail.
pub open spec fn closed_op_result<F: Fn(u64, u64) -> Result<u64>>(op: F, q: nat) -> bool {
    &&& forall|x: u64, y: u64| x < q && y < q ==> call_requires(op, (x, y))
    &&& forall|x: u64, y: u64, z: u64| call_ensures(op, (x, y), Ok::<u64, GaloisError>(z)) ==> z < q
}

impl FieldArray {
    fn ensure_same_field(&self, other: &Self) -> (r: Result<()>)
        ensures
            r is Ok <==> arrays_same_field(self, other),
            r is Err ==> r == Err::<(), GaloisError>(GaloisError::FieldMismatch),
    {
        if self.field.order() != other.field.order() || self.field.characteristic() != other.field.characteristic()
            || self.field.degree() != other.field.degree() {
            return Err(GaloisError::FieldMismatch);
        }
        Ok(())
    }

    /// The broadcast of `op` over two arrays of the same field.
    fn combine<F: Fn(u64, u64) -> u64>(&self, other: &Self, op: F) -> (r: Result<Self>)
        requires
            self.wf(),
            other.wf(),
            arrays_same_field(self, other),
            broadcast_fits(self.shape_view(), other.shape_view()),
            closed_op(op, self.field_view().q()),
        ensures
            !shapes_compatible(self.shape_view(), other.shape_view()) ==>
                (r matches Err(GaloisError::ShapeMismatch { expected, actual })
                && expected@ == self.shape_view() && actual@ == other.shape_view()),
            shapes_compatible(self.shape_view(), other.shape_view()) ==> (r matches Ok(c) && c.wf()
                && c.field_view().equiv(&self.field_view())
                && c.shape_view() == broadcast_shape(self.shape_view(), other.shape_view())
                && forall|i: int| 0 <= i < c.values_view().len() ==>
                    call_ensures(op, #[trigger] operands_at(self, other, i), c.values_view()[i])),
    {
        let q = self.field.order();
        assert forall|i: int, j: int| 0 <= i < self.data@.len() && 0 <= j < other.data@.len() implies
            call_requires(op, (#[trigger] self.data@[i], #[trigger] other.data@[j])) by {
            assert(self.data@[i] < q && other.data@[j] < q);
        }
        match broadcast_binary(self.shape.as_slice(), self.data.as_slice(), other.shape.as_slice(), other.data.as_slice(), op) {
            Ok((shape, values)) => {
                assert forall|i: int| 0 <= i < values@.len() implies (#[trigger] values@[i]) < q by {
                    assert(call_ensures(op, operands_at(self, other, i), values@[i]));
                }
                let field = self.field.clone();
                proof { field.lemma_equiv_wf(&self.field); }
                Ok(FieldArray { field, shape, data: values })
            },
            Err(e) => Err(e),
        }
    }

    /// As `combine`, for an operation that can fail.
    fn combine_result<F: Fn(u64, u64) -> Result<u64>>(&self, other: &Self, op: F) -> (r: Result<Self>)
        requires
            self.wf(),
            other.wf(),
            arrays_same_field(self, other),
            broadcast_fits(self.shape_view(), other.shape_view()),
            closed_op_result(op, self.field_view().q()),
        ensures
            !shapes_compatible(self.shape_view(), other.shape_view()) ==>
                (r matches Err(GaloisError::ShapeMismatch { expected, actual })
                && expected@ == self.shape_view() && actual@ == other.shape_view()),
            shapes_compatible(self.shape_view(), other.shape_view()) ==> match r {
                Ok(c) => c.wf()
                    && c.field_view().equiv(&self.field_view())
                    && c.shape_view() == broadcast_shape(self.shape_view(), other.shape_view())
                    && forall|i: int| 0 <= i < c.values_view().len() ==> call_ensures(op,
                        #[trigger] operands_at(self, other, i), Ok::<u64, GaloisError>(c.values_view()[i])),
                Err(e) => exists|k: nat| k < shape_size(broadcast_shape(self.shape_view(), other.shape_view()))
                    && call_ensures(op, #[trigger] operands_at(self, other, k as int), Err::<u64, GaloisError>(e)),
            },
    {
        let q = self.field.order();
        assert forall|i: int, j: int| 0 <= i < self.data@.len() && 0 <= j < other.data@.len() implies
            call_requires(op, (#[trigger] self.data@[i], #[trigger] other.data@[j])) by {
            assert(self.data@[i] < q && other.data@[j] < q);
        }
        match broadcast_binary_result(self.shape.as_slice(), self.data.as_slice(), other.shape.as_slice(), other.data.as_slice(), op) {
            Ok((shape, values)) => {
                assert forall|i: int| 0 <= i < values@.len() implies (#[trigger] values@[i]) < q by {
                    assert(call_ensures(op, operands_at(self, other, i), Ok::<u64, GaloisError>(values@[i])));
                }
                let field = self.field.clone();
                proof { field.lemma_equiv_wf(&self.field); }
                Ok(FieldArray { field, shape, data: values })
            },
            Err(e) => {
                proof {
                    if shapes_compatible(self.shape_view(), other.shape_view()) {
                        let k = choose|k: nat| k < shape_size(broadcast_shape(self.shape@, other.shape@))
                            && call_ensures(op, #[trigger] bcast_args(self.shape@, self.data@, other.shape@, other.data@, k),
                                Err::<u64, GaloisError>(e));
                        assert(operands_at(self, other, k as int) == bcast_args(self.shape@, self.data@, other.shape@, other.data@, k));
                    }
                }
                Err(e)
            },
        }
    }
}

/// The outcome of an elementwise operation `f` broadcast over two arrays: `FieldMismatch`
/// for different fields, `ShapeMismatch` (both shapes) for shapes that do not broadcast, and
/// otherwise the broadcast shape with `f` of the operands at each position.
pub open spec fn broadcast_outcome(a: &FieldArray, b: &FieldArray, r: Result<FieldArray>, f: spec_fn(nat, nat) -> nat) -> bool {
    &&& !arrays_same_field(a, b) ==> r == Err::<FieldArray, GaloisError>(GaloisError::FieldMismatch)
    &&& arrays_same_field(a, b) && !shapes_compatible(a.shape_view(), b.shape_view()) ==>
        (r matches Err(GaloisError::ShapeMismatch { expected, actual })
        && expected@ == a.shape_view() && actual@ == b.shape_view())
    &&& arrays_same_field(a, b) && shapes_compatible(a.shape_view(), b.shape_view()) ==> (r matches Ok(c)
        && c.wf() && c.field_view().equiv(&a.field_view())
        && c.shape_view() == broadcast_shape(a.shape_view(), b.shape_view())
        && c.values_view().len() == shape_size(c.shape_view())
        && forall|i: int| 0 <= i < c.values_view().len() ==>
            c.values_view()[i] == f((#[trigger] operands_at(a, b, i)).0 as nat, operands_at(a, b, i).1 as nat))
}

/// What an elementwise quotient of two arrays returns: `FieldMismatch` across fields,
/// `ShapeMismatch` (both shapes) for shapes that do not broadcast, `DivisionByZero` when
/// some divisor read by the broadcast is zero, and otherwise the quotients.
pub open spec fn div_outcome(a: &FieldArray, b: &FieldArray, r: Result<FieldArray>) -> bool {
    &&& !arrays_same_field(a, b) ==> r == Err::<FieldArray, GaloisError>(GaloisError::FieldMismatch)
    &&& arrays_same_field(a, b) && !shapes_compatible(a.shape_view(), b.shape_view()) ==>
        (r matches Err(GaloisError::ShapeMismatch { expected, actual })
        && expected@ == a.shape_view() && actual@ == b.shape_view())
    &&& arrays_same_field(a, b) && shapes_compatible(a.shape_view(), b.shape_view()) ==> {
        let n = shape_size(broadcast_shape(a.shape_view(), b.shape_view()));
        &&& (exists|k: int| 0 <= k < n && (#[trigger] operands_at(a, b, k)).1 == 0) ==>
            r == Err::<FieldArray, GaloisError>(GaloisError::DivisionByZero {
                characteristic: a.field_view().p() as u64, degree: a.field_view().m() as u32 })
        &&& (forall|k: int| 0 <= k < n ==> (#[trigger] operands_at(a, b, k)).1 != 0) ==>
            (r matches Ok(c) && c.wf() && c.field_view().equiv(&a.field_view())
            && c.shape_view() == broadcast_shape(a.shape_view(), b.shape_view())
            && c.values_view().len() == n
            && forall|i: int| 0 <= i < c.values_view().len() ==> c.values_view()[i]
                == a.field_view().div_spec((#[trigger] operands_at(a, b, i)).0 as nat, operands_at(a, b, i).1 as nat))
    }
}

/// `k` is the multiplicative order of the nonzero element `a`: `k` divides `q - 1`,
/// `a^k = 1`, and `a^(k/t) != 1` for every prime `t` dividing `k`.
pub open spec fn is_order_of(field: GaloisField, a: nat, k: nat) -> bool {
    &&& k >= 1
    &&& (field.q() - 1) as nat % k == 0
    &&& field.pow_spec(a, k) == 1
    &&& forall|t: nat| #[trigger] is_prime_spec(t) && k % t == 0 ==> field.pow_spec(a, k / t) != 1
}

impl FieldArray {
    /// Elementwise sum with broadcasting.
    pub fn add(&self, other: &Self) -> (r: Result<Self>)
        requires
            self.wf(),
            other.wf(),
            broadcast_fits(self.shape_view(), other.shape_view()),
        ensures
            broadcast_outcome(self, other, r, |x: nat, y: nat| self.field_view().add_spec(x, y)),
    {
        if let Err(e) = self.ensure_same_field(other) {
            return Err(e);
        }
        let field = &self.field;
        let op = |x: u64, y: u64| -> (z: u64)
            requires
                field.params_ok(),
            ensures
                z == field.add_spec(x as nat, y as nat),
                z < field.q(),
        {
            field.add(x, y)
        };
        self.combine(other, op)
    }

    /// Elementwise difference with broadcasting.
    pub fn sub(&self, other: &Self) -> (r: Result<Self>)
        requires
            self.wf(),
            other.wf(),
            broadcast_fits(self.shape_view(), other.shape_view()),
        ensures
            broadcast_outcome(self, other, r, |x: nat, y: nat| self.field_view().sub_spec(x, y)),
    {
        if let Err(e) = self.ensure_same_field(other) {
            return Err(e);
        }
        let field = &self.field;
        let op = |x: u64, y: u64| -> (z: u64)
            requires
                field.params_ok(),
            ensures
                z == field.sub_spec(x as nat, y as nat),
                z < field.q(),
        {
            field.sub(x, y)
        };
        self.combine(other, op)
    }

    /// Elementwise product with broadcasting.
    pub fn mul(&self, other: &Self) -> (r: Result<Self>)
        requires
            self.wf(),
            other.wf(),
            broadcast_fits(self.shape_view(), other.shape_view()),
        ensures
            broadcast_outcome(self, other, r, |x: nat, y: nat| self.field_view().mul_spec(x, y)),
    {
        if let Err(e) = self.ensure_same_field(other) {
            return Err(e);
        }
        let field = &self.field;
        let op = |x: u64, y: u64| -> (z: u64)
            requires
                field.params_ok(),
                x < field.q(),
                y < field.q(),
            ensures
                z == field.mul_spec(x as nat, y as nat),
                z < field.q(),
        {
            field.mul(x, y)
        };
        self.combine(other, op)
    }

    /// Elementwise quotient with broadcasting: `DivisionByZero` when some divisor read by
    /// the broadcast is zero.
    pub fn div(&self, other: &Self) -> (r: Result<Self>)
        requires
            self.wf(),
            other.wf(),
            broadcast_fits(self.shape_view(), other.shape_view()),
        ensures
            div_outcome(self, other, r),
    {
        if let Err(e) = self.ensure_same_field(other) {
            return Err(e);
        }
        let field = &self.field;
        let op = |x: u64, y: u64| -> (z: Result<u64>)
            requires
                field.wf(),
                x < field.q(),
                y < field.q(),
            ensures
                y == 0 ==> z == Err::<u64, GaloisError>(GaloisError::DivisionByZero {
                    characteristic: field.p() as u64, degree: field.m() as u32 }),
                y != 0 ==> (z matches Ok(v) && v == field.div_spec(x as nat, y as nat) && v < field.q()),
        {
            field.div(x, y)
        };
        let r = self.combine_result(other, op);
        proof {
            if shapes_compatible(self.shape_view(), other.shape_view()) {
                let n = shape_size(broadcast_shape(self.shape_view(), other.shape_view()));
                if r is Ok {
                    let c = r->Ok_0;
                    assert forall|k: int| 0 <= k < n implies (#[trigger] operands_at(self, other, k)).1 != 0 by {
                        assert(call_ensures(op, operands_at(self, other, k), Ok::<u64, GaloisError>(c.values_view()[k])));
                    }
                } else {
                    let e = r->Err_0;
                    let k = choose|k: nat| k < n
                        && call_ensures(op, #[trigger] operands_at(self, other, k as int), Err::<u64, GaloisError>(e));
                    assert(operands_at(self, other, k as int).1 == 0);
                }
            }
        }
        r
    }

    /// Elementwise negation.
    pub fn neg(&self) -> (r: Self)
        requires
            self.wf(),
        ensures
            r.wf(),
            r.field_view().equiv(&self.field_view()),
            r.shape_view() == self.shape_view(),
            r.values_view().len() == self.values_view().len(),
            forall|i: int| 0 <= i < r.values_view().len() ==>
                r.values_view()[i] == self.field_view().neg_spec(#[trigger] self.values_view()[i] as nat),
    {
        let mut out: Vec<u64> = Vec::new();
        let mut i: usize = 0;
        while i < self.data.len()
            invariant
                self.wf(),
                i <= self.data@.len(),
                out@.len() == i,
                forall|j: int| 0 <= j < i ==> (#[trigger] out@[j]) == self.field.neg_spec(self.data@[j] as nat)
                    && out@[j] < self.field.q(),
            decreases self.data@.len() - i,
        {
            out.push(self.field.neg(self.data[i]));
            i = i + 1;
        }
        self.with_values(out)
    }

    /// Elementwise power.
    pub fn pow(&self, exp: u64) -> (r: Self)
        requires
            self.wf(),
        ensures
            r.wf(),
            r.field_view().equiv(&self.field_view()),
            r.shape_view() == self.shape_view(),
            r.values_view().len() == self.values_view().len(),
            forall|i: int| 0 <= i < r.values_view().len() ==>
                r.values_view()[i] == self.field_view().pow_spec(#[trigger] self.values_view()[i] as nat, exp as nat),
    {
        let mut out: Vec<u64> = Vec::new();
        let mut i: usize = 0;
        while i < self.data.len()
            invariant
                self.wf(),
                i <= self.data@.len(),
                out@.len() == i,
                forall|j: int| 0 <= j < i ==> (#[trigger] out@[j]) == self.field.pow_spec(self.data@[j] as nat, exp as nat)
                    && out@[j] < self.field.q(),
            decreases self.data@.len() - i,
        {
            out.push(self.field.pow(self.data[i], exp));
            i = i + 1;
        }
        self.with_values(out)
    }

    /// This array's field and shape with other values.
    fn with_values(&self, values: Vec<u64>) -> (r: Self)
        requires
            self.wf(),
            values@.len() == self.values_view().len(),
            all_below(values@, self.field_view().q()),
        ensures
            r.wf(),
            r.field_view().equiv(&self.field_view()),
            r.shape_view() == self.shape_view(),
            r.values_view() == values@,
    {
        let field = self.field.clone();
        proof { field.lemma_equiv_wf(&self.field); }
        FieldArray { field, shape: slice_to_vec(self.shape.as_slice()), data: values }
    }

    /// Elementwise square roots: `Ok` with a root of every value, or the error of a value
    /// for which no root was found.
    pub fn sqrt(&self) -> (r: Result<Self>)
        requires
            self.wf(),
        ensures
            r matches Ok(c) ==> c.wf() && c.field_view().equiv(&self.field_view())
                && c.shape_view() == self.shape_view()
                && c.values_view().len() == self.values_view().len()
                && forall|i: int| 0 <= i < c.values_view().len() ==> (self.values_view()[i] == 0 ==> c.values_view()[i] == 0)
                    && self.field_view().mul_spec(#[trigger] c.values_view()[i] as nat, c.values_view()[i] as nat)
                        == self.values_view()[i] as nat || self.values_view()[i] == 0,
            r matches Err(e) ==> exists|i: int| 0 <= i < self.values_view().len()
                && (#[trigger] self.values_view()[i]) != 0
                && e == (GaloisError::InvalidElement { value: self.values_view()[i],
                    characteristic: self.field_view().p() as u64, degree: self.field_view().m() as u32 })
                && forall|y: nat| y < self.field_view().q() ==> #[trigger] self.field_view().mul_spec(y, y) != self.values_view()[i],
            (forall|i: int| 0 <= i < self.values_view().len() ==> #[trigger] self.values_view()[i] == 0
                || exists|y: nat| y < self.field_view().q() && #[trigger] self.field_view().mul_spec(y, y) == self.values_view()[i])
                ==> r is Ok,
    {
        let mut out: Vec<u64> = Vec::new();
        let mut i: usize = 0;
        while i < self.data.len()
            invariant
                self.wf(),
                i <= self.data@.len(),
                out@.len() == i,
                forall|j: int| 0 <= j < i ==> (#[trigger] out@[j]) < self.field.q()
                    && (self.data@[j] == 0 ==> out@[j] == 0)
                    && (self.field.mul_spec(out@[j] as nat, out@[j] as nat) == self.data@[j] as nat || self.data@[j] == 0),
            decreases self.data@.len() - i,
        {
            match self.field.sqrt(self.data[i]) {
                Ok(y) => { out.push(y); },
                Err(e) => {
                    assert(self.data@[i as int] < self.field.q());
                    assert(self.data@[i as int] != 0);
                    assert(forall|y: nat| y < self.field_view().q() ==> #[trigger] self.field_view().mul_spec(y, y) != self.values_view()[i as int]);
                    return Err(e);
                },
            }
            i = i + 1;
        }
        Ok(self.with_values(out))
    }

    /// Discrete logarithms of the values; `DivisionByZero` when some value is zero.
    pub fn log(&self) -> (r: Result<Vec<u64>>)
        requires
            self.wf(),
        ensures
            (exists|i: int| 0 <= i < self.values_view().len() && #[trigger] self.values_view()[i] == 0) ==>
                r == Err::<Vec<u64>, GaloisError>(GaloisError::DivisionByZero {
                    characteristic: self.field_view().p() as u64, degree: self.field_view().m() as u32 }),
            (forall|i: int| 0 <= i < self.values_view().len() ==> #[trigger] self.values_view()[i] != 0) ==>
                (r matches Ok(v) && v@.len() == self.values_view().len()
                && forall|i: int| 0 <= i < v@.len() ==> v@[i] == self.field_view().dlog(#[trigger] self.values_view()[i] as nat)),
    {
        let mut out: Vec<u64> = Vec::new();
        let mut i: usize = 0;
        while i < self.data.len()
            invariant
                self.wf(),
                i <= self.data@.len(),
                out@.len() == i,
                forall|j: int| 0 <= j < i ==> #[trigger] self.data@[j] != 0,
                forall|j: int| 0 <= j < i ==> (#[trigger] out@[j]) == self.field.dlog(self.data@[j] as nat),
            decreases self.data@.len() - i,
        {
            match self.field.log(self.data[i]) {
                Ok(l) => { out.push(l as u64); },
                Err(e) => { return Err(e); },
            }
            i = i + 1;
        }
        Ok(out)
    }

    /// Multiplicative orders of the values; `DivisionByZero` when some value is zero.
    pub fn multiplicative_order(&self) -> (r: Result<Vec<u64>>)
        requires
            self.wf(),
        ensures
            (exists|i: int| 0 <= i < self.values_view().len() && #[trigger] self.values_view()[i] == 0) ==>
                r == Err::<Vec<u64>, GaloisError>(GaloisError::DivisionByZero {
                    characteristic: self.field_view().p() as u64, degree: self.field_view().m() as u32 }),
            (forall|i: int| 0 <= i < self.values_view().len() ==> #[trigger] self.values_view()[i] != 0) ==>
                (r matches Ok(v) && v@.len() == self.values_view().len()
                && forall|i: int| 0 <= i < v@.len() ==> is_order_of(self.field_view(), #[trigger] self.values_view()[i] as nat, v@[i] as nat)),
    {
        let mut out: Vec<u64> = Vec::new();
        let mut i: usize = 0;
        while i < self.data.len()
            invariant
                self.wf(),
                i <= self.data@.len(),
                out@.len() == i,
                forall|j: int| 0 <= j < i ==> #[trigger] self.data@[j] != 0,
                forall|j: int| 0 <= j < i ==> is_order_of(self.field, #[trigger] self.data@[j] as nat, out@[j] as nat),
            decreases self.data@.len() - i,
        {
            match self.field.multiplicative_order(self.data[i]) {
                Ok(k) => { out.push(k); },
                Err(e) => { return Err(e); },
            }
            i = i + 1;
        }
        Ok(out)
    }

    /// Adds an element to every value; `InvalidElement` when it is not an element.
    pub fn scalar_add(&self, scalar: u64) -> (r: Result<Self>)
        requires
            self.wf(),
        ensures
            scalar >= self.field_view().q() ==> r == Err::<Self, GaloisError>(GaloisError::InvalidElement {
                value: scalar, characteristic: self.field_view().p() as u64, degree: self.field_view().m() as u32 }),
            scalar < self.field_view().q() ==> (r matches Ok(c) && c.wf() && c.field_view().equiv(&self.field_view())
                && c.shape_view() == self.shape_view() && c.values_view().len() == self.values_view().len()
                && forall|i: int| 0 <= i < c.values_view().len() ==> c.values_view()[i]
                    == self.field_view().add_spec(#[trigger] self.values_view()[i] as nat, scalar as nat)),
    {
        let scalar = match self.field.validate_element(scalar) {
            Ok(v) => v,
            Err(e) => { return Err(e); },
        };
        let mut out: Vec<u64> = Vec::new();
        let mut i: usize = 0;
        while i < self.data.len()
            invariant
                self.wf(),
                i <= self.data@.len(),
                out@.len() == i,
                forall|j: int| 0 <= j < i ==> (#[trigger] out@[j]) == self.field.add_spec(self.data@[j] as nat, scalar as nat)
                    && out@[j] < self.field.q(),
            decreases self.data@.len() - i,
        {
            out.push(self.field.add(self.data[i], scalar));
            i = i + 1;
        }
        Ok(self.with_values(out))
    }

    /// Multiplies every value by an element; `InvalidElement` when it is not an element.
    pub fn scalar_mul(&self, scalar: u64) -> (r: Result<Self>)
        requires
            self.wf(),
        ensures
            scalar >= self.field_view().q() ==> r == Err::<Self, GaloisError>(GaloisError::InvalidElement {
                value: scalar, characteristic: self.field_view().p() as u64, degree: self.field_view().m() as u32 }),
            scalar < self.field_view().q() ==> (r matches Ok(c) && c.wf() && c.field_view().equiv(&self.field_view())
                && c.shape_view() == self.shape_view() && c.values_view().len() == self.values_view().len()
                && forall|i: int| 0 <= i < c.values_view().len() ==> c.values_view()[i]
                    == self.field_view().mul_spec(#[trigger] self.values_view()[i] as nat, scalar as nat)),
    {
        let scalar = match self.field.validate_element(scalar) {
            Ok(v) => v,
            Err(e) => { return Err(e); },
        };
        let mut out: Vec<u64> = Vec::new();
        let mut i: usize = 0;
        while i < self.data.len()
            invariant
                self.wf(),
                scalar < self.field.q(),
                i <= self.data@.len(),
                out@.len() == i,
                forall|j: int| 0 <= j < i ==> (#[trigger] out@[j]) == self.field.mul_spec(self.data@[j] as nat, scalar as nat)
                    && out@[j] < self.field.q(),
            decreases self.data@.len() - i,
        {
            out.push(self.field.mul(self.data[i], scalar));
            i = i + 1;
        }
        Ok(self.with_values(out))
    }
}

/// Any shape broadcasts with a single element, to itself (or to one element when it has no
/// dimensions).
pub proof fn lemma_broadcast_single(s: Seq<usize>)
    ensures
        shapes_compatible(s, seq![1usize]),
        broadcast_shape(s, seq![1usize]) == (if s.len() == 0 { seq![1usize] } else { s }),
{
    let one = seq![1usize];
    let l: int = if s.len() >= 1 { s.len() as int } else { 1 };
    assert forall|i: int| 0 <= i < l implies #[trigger] dim_from_end(one, i) == 1 by {}
    let bs = broadcast_shape(s, one);
    if s.len() == 0 {
        assert(bs =~= seq![1usize]);
    } else {
        assert forall|k: int| 0 <= k < s.len() implies bs[k] == s[k] by {
            assert(dim_from_end(s, l - 1 - k) == s[k]);
            assert(dim_from_end(one, l - 1 - k) == 1);
        }
        assert(bs =~= s);
    }
}

impl FieldArray {
    /// Adds an element to every value by broadcasting; `InvalidElement` when it is not an
    /// element. An array without dimensions becomes a one-element array.
    pub fn add_scalar(&self, scalar: u64) -> (r: Result<Self>)
        requires
            self.wf(),
        ensures
            scalar >= self.field_view().q() ==> r == Err::<Self, GaloisError>(GaloisError::InvalidElement {
                value: scalar, characteristic: self.field_view().p() as u64, degree: self.field_view().m() as u32 }),
            scalar < self.field_view().q() ==> (r matches Ok(c) && c.wf() && c.field_view().equiv(&self.field_view())
                && c.shape_view() == broadcast_shape(self.shape_view(), seq![1usize])
                && c.values_view().len() == shape_size(c.shape_view())
                && forall|i: int| 0 <= i < c.values_view().len() ==> c.values_view()[i]
                    == self.field_view().add_spec(
                        self.values_view()[bcast_index(c.shape_view(), self.shape_view(), i as nat) as int] as nat,
                        scalar as nat)),
    {
        let scalar = match self.field.validate_element(scalar) {
            Ok(v) => v,
            Err(e) => { return Err(e); },
        };
        let arr = Self::single(&self.field, scalar);
        proof { self.lemma_single_fits(&arr); }
        let r = self.add(&arr);
        proof {
            self.lemma_single_operands(&arr, r);
            if r is Ok {
                let c = r->Ok_0;
                assert forall|i: int| 0 <= i < c.values_view().len() implies c.values_view()[i]
                    == self.field_view().add_spec(
                        self.values_view()[bcast_index(c.shape_view(), self.shape_view(), i as nat) as int] as nat,
                        scalar as nat) by {
                    let o = operands_at(self, &arr, i);
                    assert(c.values_view()[i] == self.field_view().add_spec(o.0 as nat, o.1 as nat));
                }
            }
        }
        r
    }

    /// Multiplies every value by an element by broadcasting; `InvalidElement` when it is not
    /// an element. An array without dimensions becomes a one-element array.
    pub fn mul_scalar_broadcast(&self, scalar: u64) -> (r: Result<Self>)
        requires
            self.wf(),
        ensures
            scalar >= self.field_view().q() ==> r == Err::<Self, GaloisError>(GaloisError::InvalidElement {
                value: scalar, characteristic: self.field_view().p() as u64, degree: self.field_view().m() as u32 }),
            scalar < self.field_view().q() ==> (r matches Ok(c) && c.wf() && c.field_view().equiv(&self.field_view())
                && c.shape_view() == broadcast_shape(self.shape_view(), seq![1usize])
                && c.values_view().len() == shape_size(c.shape_view())
                && forall|i: int| 0 <= i < c.values_view().len() ==> c.values_view()[i]
                    == self.field_view().mul_spec(
                        self.values_view()[bcast_index(c.shape_view(), self.shape_view(), i as nat) as int] as nat,
                        scalar as nat)),
    {
        let scalar = match self.field.validate_element(scalar) {
            Ok(v) => v,
            Err(e) => { return Err(e); },
        };
        let arr = Self::single(&self.field, scalar);
        proof { self.lemma_single_fits(&arr); }
        let r = self.mul(&arr);
        proof {
            self.lemma_single_operands(&arr, r);
            if r is Ok {
                let c = r->Ok_0;
                assert forall|i: int| 0 <= i < c.values_view().len() implies c.values_view()[i]
                    == self.field_view().mul_spec(
                        self.values_view()[bcast_index(c.shape_view(), self.shape_view(), i as nat) as int] as nat,
                        scalar as nat) by {
                    let o = operands_at(self, &arr, i);
                    assert(c.values_view()[i] == self.field_view().mul_spec(o.0 as nat, o.1 as nat));
                }
            }
        }
        r
    }

    /// The one-element array holding `v`.
    fn single(field: &GaloisField, v: u64) -> (r: Self)
        requires
            field.wf(),
            v < field.q(),
        ensures
            r.wf(),
            r.field_view().equiv(field),
            r.shape_view() == seq![1usize],
            r.values_view() == seq![v],
    {
        let f = field.clone();
        proof { f.lemma_equiv_wf(field); }
        let r = Self::new(f, vec![v]);
        assert(r.values_view() =~= seq![v]);
        r
    }

    proof fn lemma_single_fits(&self, arr: &Self)
        requires
            self.wf(),
            arr.wf(),
            arr.shape_view() == seq![1usize],
            arr.field_view().equiv(&self.field_view()),
        ensures
            broadcast_fits(self.shape_view(), arr.shape_view()),
            shapes_compatible(self.shape_view(), arr.shape_view()),
            arrays_same_field(self, arr),
    {
        lemma_broadcast_single(self.shape_view());
        lemma_shape_1d(1);
    }

    proof fn lemma_single_operands(&self, arr: &Self, r: Result<Self>)
        requires
            self.wf(),
            arr.wf(),
            arr.shape_view() == seq![1usize],
        ensures
            forall|i: int| #![trigger operands_at(self, arr, i)] 0 <= i ==> operands_at(self, arr, i).0
                == self.values_view()[bcast_index(broadcast_shape(self.shape_view(), arr.shape_view()), self.shape_view(), i as nat) as int],
            forall|i: int| #![trigger operands_at(self, arr, i)] 0 <= i < shape_size(broadcast_shape(self.shape_view(), arr.shape_view())) ==>
                operands_at(self, arr, i).1 == arr.values_view()[0],
    {
        lemma_broadcast_single(self.shape_view());
        lemma_shape_1d(1);
        let bs = broadcast_shape(self.shape_view(), arr.shape_view());
        assert forall|i: int| 0 <= i < shape_size(bs) implies #[trigger] operands_at(self, arr, i).1 == arr.values_view()[0] by {
            crate::field::broadcast::lemma_fits_broadcast(self.shape_view(), arr.shape_view());
            crate::field::broadcast::lemma_bcast_index_bound(bs, arr.shape_view(), i as nat);
        }
    }
}

impl GaloisField {
    /// A one-dimensional array of the given values; `InvalidElement` for the first value
    /// that is not an element.
    pub fn array(&self, values: Vec<u64>) -> (r: Result<FieldArray>)
        requires
            self.wf(),
        ensures
            !all_below(values@, self.q()) ==> r == Err::<FieldArray, GaloisError>(GaloisError::InvalidElement {
                value: values@[first_invalid(values@, self.q())],
                characteristic: self.p() as u64, degree: self.m() as u32 }),
            all_below(values@, self.q()) ==> (r matches Ok(a) && a.wf() && a.field_view().equiv(self)
                && a.shape_view() == seq![values@.len() as usize] && a.values_view() == values@),
    {
        if let Err(e) = check_elements(self, values.as_slice()) {
            return Err(e);
        }
        let f = self.clone();
        proof { f.lemma_equiv_wf(self); }
        Ok(FieldArray::new(f, values))
    }

    /// An array of the given shape holding `values` in row-major order (see
    /// `FieldArray::from_shape_vec`).
    pub fn array_shape(&self, shape: &[usize], values: Vec<u64>) -> (r: Result<FieldArray>)
        requires
            self.wf(),
            prefix_fits(shape@),
        ensures
            shape_size(shape@) != values@.len() ==> (r matches Err(GaloisError::ShapeMismatch { expected, actual })
                && expected@ == shape@ && actual@ == seq![values@.len() as usize]),
            shape_size(shape@) == values@.len() && !all_below(values@, self.q()) ==> r == Err::<FieldArray, GaloisError>(
                GaloisError::InvalidElement { value: values@[first_invalid(values@, self.q())],
                    characteristic: self.p() as u64, degree: self.m() as u32 }),
            shape_size(shape@) == values@.len() && all_below(values@, self.q()) && !suffix_fits(shape@) ==>
                (r matches Err(GaloisError::ShapeMismatch { expected, actual })
                && expected@ == shape@ && actual@ == seq![values@.len() as usize]),
            shape_size(shape@) == values@.len() && all_below(values@, self.q()) && suffix_fits(shape@) ==>
                (r matches Ok(a) && a.wf() && a.field_view().equiv(self) && a.shape_view() == shape@
                && a.values_view() == values@),
    {
        let f = self.clone();
        proof { f.lemma_equiv_wf(self); }
        FieldArray::from_shape_vec(f, shape, values)
    }
}

} // verus!
