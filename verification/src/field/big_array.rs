//! Arrays of elements of a `BigGaloisField`, row-major.

use vstd::prelude::*;
use crate::error::{GaloisError, Result};
use crate::field::array::{lemma_shape_1d, strides_fit, broadcast_fits};
use crate::field::big_field::{BigGaloisField, same_big_field, big_div_spec};
use crate::field::bignum::BigValue;
use crate::field::broadcast::{shape_size, prefix_fits, suffix_fits, total_size, slice_to_vec, shapes_compatible,
    broadcast_shape, bcast_index, broadcast_shapes, operand_positions};
use crate::field::model::{gf_add, gf_sub, gf_neg, gf_mul};
use crate::poly::big_poly::{values_of, first_at_least, big_invalid, big_equiv};

verus! {

/// Every value is below `q`.
pub open spec fn all_values_below(s: Seq<BigValue>, q: nat) -> bool {
    forall|i: int| 0 <= i < s.len() ==> (#[trigger] s[i]).value() < q
}

/// An array of elements of a `BigGaloisField`.
pub struct BigFieldArray {
    field: BigGaloisField,
    shape: Vec<usize>,
    data: Vec<BigValue>,
}

impl BigFieldArray {
    pub closed spec fn field_view(&self) -> BigGaloisField {
        self.field
    }

    pub closed spec fn shape_view(&self) -> Seq<usize> {
        self.shape@
    }

    /// The values, row-major.
    pub closed spec fn values_view(&self) -> Seq<nat> {
        values_of(self.data@)
    }

    /// The values fill the shape, products of dimensions fit a `usize`, and every value is
    /// an element of a well-formed field.
    pub open spec fn wf(&self) -> bool {
        &&& self.field_view().wf()
        &&& self.values_view().len() == shape_size(self.shape_view())
        &&& prefix_fits(self.shape_view())
        &&& suffix_fits(self.shape_view())
        &&& forall|i: int| 0 <= i < self.values_view().len() ==> (#[trigger] self.values_view()[i]) < self.field_view().q()
    }

    /// The first value that `BigGaloisField::validate` refuses, if any.
    fn check_values(field: &BigGaloisField, values: &Vec<BigValue>) -> (r: Result<()>)
        ensures
            all_values_below(values@, field.q()) ==> r is Ok,
            !all_values_below(values@, field.q()) ==> r == Err::<(), GaloisError>(
                big_invalid(values_of(values@)[first_at_least(values_of(values@), field.q())])),
    {
        let ghost vs = values_of(values@);
        let mut i: usize = 0;
        while i < values.len()
            invariant
                i <= values@.len(),
                vs == values_of(values@),
                forall|j: int| 0 <= j < i ==> (#[trigger] values@[j]).value() < field.q(),
            decreases values@.len() - i,
        {
            match field.validate(&values[i]) {
                Ok(_) => {},
                Err(e) => {
                    proof {
                        assert(0 <= i < vs.len() && vs[i as int] >= field.q() && forall|j: int| 0 <= j < i ==> vs[j] < field.q());
                        let k = first_at_least(vs, field.q());
                        if k != i {
                            if k < i {
                                assert(vs[k] < field.q());
                            } else {
                                assert(vs[i as int] < field.q());
                            }
                        }
                    }
                    return Err(e);
                },
            }
            i = i + 1;
        }
        Ok(())
    }

    /// A one-dimensional array; the error of `BigGaloisField::validate` for the first value
    /// that is not an element.
    pub fn new(field: BigGaloisField, values: Vec<BigValue>) -> (r: Result<Self>)
        requires
            field.wf(),
        ensures
            all_values_below(values@, field.q()) ==> (r matches Ok(a) && a.wf() && a.field_view() == field
                && a.shape_view() == seq![values@.len() as usize] && a.values_view() == values_of(values@)),
            !all_values_below(values@, field.q()) ==> r == Err::<Self, GaloisError>(
                big_invalid(values_of(values@)[first_at_least(values_of(values@), field.q())])),
    {
        if let Err(e) = Self::check_values(&field, &values) {
            return Err(e);
        }
        let n = values.len();
        proof { lemma_shape_1d(n); }
        let shape = vec![n];
        assert(shape@ == seq![n]);
        proof { BigFieldArray::lemma_values_below(&values, field.q()); }
        Ok(BigFieldArray { field, shape, data: values })
    }

    proof fn lemma_values_below(values: &Vec<BigValue>, q: nat)
        requires
            all_values_below(values@, q),
        ensures
            forall|i: int| 0 <= i < values_of(values@).len() ==> (#[trigger] values_of(values@)[i]) < q,
    {
        assert forall|i: int| 0 <= i < values_of(values@).len() implies (#[trigger] values_of(values@)[i]) < q by {
            assert(values@[i].value() < q);
        }
    }

    /// A one-dimensional array of integer values.
    pub fn from_u64(field: BigGaloisField, values: Vec<u64>) -> (r: Result<Self>)
        requires
            field.wf(),
        ensures
            (forall|i: int| 0 <= i < values@.len() ==> values@[i] < field.q()) ==> (r matches Ok(a) && a.wf()
                && a.field_view() == field && a.shape_view() == seq![values@.len() as usize]
                && a.values_view() == values@.map_values(|v: u64| v as nat)),
            (exists|i: int| 0 <= i < values@.len() && values@[i] >= field.q()) ==> r is Err,
    {
        let mut big: Vec<BigValue> = Vec::new();
        let mut i: usize = 0;
        while i < values.len()
            invariant
                i <= values@.len(),
                big@.len() == i,
                forall|j: int| 0 <= j < i ==> (#[trigger] big@[j]).value() == values@[j],
            decreases values@.len() - i,
        {
            big.push(BigValue::from_u64(values[i]));
            i = i + 1;
        }
        assert(values_of(big@) =~= values@.map_values(|v: u64| v as nat));
        proof {
            if exists|i: int| 0 <= i < values@.len() && values@[i] >= field.q() {
                let k = choose|i: int| 0 <= i < values@.len() && values@[i] >= field.q();
                assert(big@[k].value() >= field.q());
            }
        }
        Self::new(field, big)
    }

    /// An array of the given shape holding `values` in row-major order: `ShapeMismatch`
    /// when their number differs from the shape's size (or the shape's strides overflow), the
    /// error of `BigGaloisField::validate` for the first value that is not an element.
    pub fn from_shape_vec(field: BigGaloisField, shape: &[usize], values: Vec<BigValue>) -> (r: Result<Self>)
        requires
            field.wf(),
            prefix_fits(shape@),
        ensures
            shape_size(shape@) != values@.len() ==> (r matches Err(GaloisError::ShapeMismatch { expected, actual })
                && expected@ == shape@ && actual@ == seq![values@.len() as usize]),
            shape_size(shape@) == values@.len() && !all_values_below(values@, field.q()) ==> r == Err::<Self, GaloisError>(
                big_invalid(values_of(values@)[first_at_least(values_of(values@), field.q())])),
            shape_size(shape@) == values@.len() && all_values_below(values@, field.q()) && !suffix_fits(shape@) ==>
                (r matches Err(GaloisError::ShapeMismatch { expected, actual })
                && expected@ == shape@ && actual@ == seq![values@.len() as usize]),
            shape_size(shape@) == values@.len() && all_values_below(values@, field.q()) && suffix_fits(shape@) ==>
                (r matches Ok(a) && a.wf() && a.field_view() == field && a.shape_view() == shape@
                && a.values_view() == values_of(values@)),
    {
        if total_size(shape) != values.len() {
            return Err(GaloisError::ShapeMismatch { expected: slice_to_vec(shape), actual: vec![values.len()] });
        }
        if let Err(e) = Self::check_values(&field, &values) {
            return Err(e);
        }
        if !strides_fit(shape) {
            return Err(GaloisError::ShapeMismatch { expected: slice_to_vec(shape), actual: vec![values.len()] });
        }
        proof { BigFieldArray::lemma_values_below(&values, field.q()); }
        Ok(BigFieldArray { field, shape: slice_to_vec(shape), data: values })
    }

    /// An array of the given shape filled with `v`.
    fn filled(field: BigGaloisField, shape: &[usize], v: u64) -> (r: Self)
        requires
            field.wf(),
            prefix_fits(shape@),
            suffix_fits(shape@),
            v < field.q(),
        ensures
            r.wf(),
            r.field_view() == field,
            r.shape_view() == shape@,
            r.values_view() == Seq::new(shape_size(shape@), |i: int| v as nat),
    {
        let n = total_size(shape);
        let mut data: Vec<BigValue> = Vec::new();
        let mut i: usize = 0;
        while i < n
            invariant
                i <= n,
                data@.len() == i,
                forall|j: int| 0 <= j < i ==> (#[trigger] data@[j]).value() == v,
            decreases n - i,
        {
            data.push(BigValue::from_u64(v));
            i = i + 1;
        }
        assert(values_of(data@) =~= Seq::new(shape_size(shape@), |i: int| v as nat));
        BigFieldArray { field, shape: slice_to_vec(shape), data }
    }

    /// An array of zeros.
    pub fn zeros(field: BigGaloisField, shape: &[usize]) -> (r: Self)
        requires
            field.wf(),
            prefix_fits(shape@),
            suffix_fits(shape@),
        ensures
            r.wf(),
            r.field_view() == field,
            r.shape_view() == shape@,
            r.values_view() == Seq::new(shape_size(shape@), |i: int| 0nat),
    {
        proof { field.lemma_q_ge_2(); }
        Self::filled(field, shape, 0)
    }

    /// An array of ones.
    pub fn ones(field: BigGaloisField, shape: &[usize]) -> (r: Self)
        requires
            field.wf(),
            prefix_fits(shape@),
            suffix_fits(shape@),
        ensures
            r.wf(),
            r.field_view() == field,
            r.shape_view() == shape@,
            r.values_view() == Seq::new(shape_size(shape@), |i: int| 1nat),
    {
        proof { field.lemma_q_ge_2(); }
        Self::filled(field, shape, 1)
    }

    pub fn field(&self) -> (r: &BigGaloisField)
        ensures
            *r == self.field_view(),
    {
        &self.field
    }

    pub fn shape(&self) -> (r: Vec<usize>)
        ensures
            r@ == self.shape_view(),
    {
        slice_to_vec(self.shape.as_slice())
    }

    pub fn len(&self) -> (r: usize)
        ensures
            r == self.values_view().len(),
    {
        self.data.len()
    }

    /// A copy of the values, row-major.
    pub fn values(&self) -> (r: Vec<BigValue>)
        ensures
            values_of(r@) == self.values_view(),
    {
        let mut out: Vec<BigValue> = Vec::new();
        let mut i: usize = 0;
        while i < self.data.len()
            invariant
                i <= self.data@.len(),
                out@.len() == i,
                forall|j: int| 0 <= j < i ==> (#[trigger] out@[j]).value() == self.data@[j].value(),
            decreases self.data@.len() - i,
        {
            out.push(self.data[i].clone());
            i = i + 1;
        }
        assert(values_of(out@) =~= values_of(self.data@));
        out
    }

    /// The same values in another shape of the same size; `ShapeMismatch` (new shape, old
    /// shape) otherwise.
    pub fn reshape(&self, shape: &[usize]) -> (r: Result<Self>)
        requires
            self.wf(),
            prefix_fits(shape@),
        ensures
            shape_size(shape@) == self.values_view().len() && suffix_fits(shape@) ==> (r matches Ok(a)
                && a.wf() && big_equiv(a.field_view(), self.field_view()) && a.shape_view() == shape@
                && a.values_view() == self.values_view()),
            !(shape_size(shape@) == self.values_view().len() && suffix_fits(shape@)) ==>
                (r matches Err(GaloisError::ShapeMismatch { expected, actual })
                && expected@ == shape@ && actual@ == self.shape_view()),
    {
        if total_size(shape) != self.data.len() || !strides_fit(shape) {
            return Err(GaloisError::ShapeMismatch { expected: slice_to_vec(shape), actual: self.shape() });
        }
        let data = self.values();
        Ok(BigFieldArray { field: self.field.clone(), shape: slice_to_vec(shape), data })
    }

    /// Elementwise negation.
    pub fn neg(&self) -> (r: Self)
        requires
            self.wf(),
        ensures
            r.wf(),
            big_equiv(r.field_view(), self.field_view()),
            r.shape_view() == self.shape_view(),
            r.values_view() == Seq::new(self.values_view().len(), |i: int| gf_neg(self.values_view()[i],
                self.field_view().p(), self.field_view().m())),
    {
        let ghost a = self.values_view();
        let ghost f = self.field_view();
        let mut out: Vec<BigValue> = Vec::new();
        let mut k: usize = 0;
        while k < self.data.len()
            invariant
                self.wf(),
                a == self.values_view(),
                f == self.field_view(),
                k <= a.len(),
                out@.len() == k,
                forall|t: int| 0 <= t < k ==> (#[trigger] out@[t]).value() == gf_neg(a[t], f.p(), f.m()),
                forall|t: int| 0 <= t < k ==> (#[trigger] out@[t]).value() < f.q(),
            decreases a.len() - k,
        {
            proof {
                f.lemma_wf_params();
                assert(self.data@[k as int].value() == a[k as int]);
                assert(a[k as int] < f.q());
                if f.m() == 1 {
                    crate::arith::lemma_npow_one(f.p());
                }
            }
            out.push(self.field.neg(&self.data[k]));
            k = k + 1;
        }
        assert(values_of(out@) =~= Seq::new(a.len(), |i: int| gf_neg(a[i], f.p(), f.m())));
        BigFieldArray { field: self.field.clone(), shape: slice_to_vec(self.shape.as_slice()), data: out }
    }
}


/// The field operation `op` (0 sum, 1 difference, 2 product, 3 quotient) on two values.
pub open spec fn big_op(f: BigGaloisField, x: nat, y: nat, op: u8) -> nat {
    if op == 0 {
        gf_add(x, y, f.p(), f.m())
    } else if op == 1 {
        gf_sub(x, y, f.p(), f.m())
    } else if op == 2 {
        gf_mul(x, y, f.p(), f.m(), f.f())
    } else {
        big_div_spec(f, x, y)
    }
}

/// What an elementwise operation of two big arrays returns: `FieldMismatch` across fields,
/// `ShapeMismatch` (both shapes) for shapes that do not broadcast, and otherwise the
/// broadcast of `op` over the operands.
pub open spec fn big_broadcast_outcome(a: &BigFieldArray, b: &BigFieldArray, r: Result<BigFieldArray>, op: u8) -> bool {
    &&& !same_big_field(a.field_view(), b.field_view()) ==> r == Err::<BigFieldArray, GaloisError>(GaloisError::FieldMismatch)
    &&& same_big_field(a.field_view(), b.field_view()) && !shapes_compatible(a.shape_view(), b.shape_view()) ==>
        (r matches Err(GaloisError::ShapeMismatch { expected, actual })
        && expected@ == a.shape_view() && actual@ == b.shape_view())
    &&& same_big_field(a.field_view(), b.field_view()) && shapes_compatible(a.shape_view(), b.shape_view()) ==> (r matches Ok(c)
        && c.wf() && big_equiv(c.field_view(), a.field_view())
        && c.shape_view() == broadcast_shape(a.shape_view(), b.shape_view())
        && forall|i: int| 0 <= i < c.values_view().len() ==> #[trigger] c.values_view()[i] == big_op(a.field_view(),
            a.values_view()[bcast_index(c.shape_view(), a.shape_view(), i as nat) as int],
            b.values_view()[bcast_index(c.shape_view(), b.shape_view(), i as nat) as int], op))
}

impl BigFieldArray {
    fn broadcast_op(&self, other: &Self, op: u8) -> (r: Result<Self>)
        requires
            self.wf(),
            other.wf(),
            broadcast_fits(self.shape_view(), other.shape_view()),
            op <= 3,
        ensures
            big_broadcast_outcome(self, other, r, op),
    {
        if self.field.characteristic() != other.field.characteristic() || self.field.degree() != other.field.degree() {
            return Err(GaloisError::FieldMismatch);
        }
        let out_shape = match broadcast_shapes(self.shape.as_slice(), other.shape.as_slice()) {
            Ok(s) => s,
            Err(e) => { return Err(e); },
        };
        let ghost f = self.field_view();
        let ghost a = self.values_view();
        let ghost b = other.values_view();
        proof { f.lemma_wf_params(); other.field_view().lemma_wf_params(); }
        let out_len = total_size(&out_shape);
        let mut out: Vec<BigValue> = Vec::new();
        let mut linear: usize = 0;
        while linear < out_len
            invariant
                self.wf(),
                other.wf(),
                f == self.field_view(),
                a == self.values_view(),
                b == other.values_view(),
                f.q() == other.field_view().q(),
                op <= 3,
                shapes_compatible(self.shape_view(), other.shape_view()),
                broadcast_fits(self.shape_view(), other.shape_view()),
                out_shape@ == broadcast_shape(self.shape_view(), other.shape_view()),
                out_len == shape_size(out_shape@),
                linear <= out_len,
                out@.len() == linear,
                forall|i: int| 0 <= i < linear ==> (#[trigger] out@[i]).value() == big_op(f,
                    a[bcast_index(out_shape@, self.shape_view(), i as nat) as int],
                    b[bcast_index(out_shape@, other.shape_view(), i as nat) as int], op),
                forall|i: int| 0 <= i < linear ==> (#[trigger] out@[i]).value() < f.q(),
            decreases out_len - linear,
        {
            let (ai, bi) = operand_positions(self.shape.as_slice(), self.data.len(), other.shape.as_slice(),
                other.data.len(), out_shape.as_slice(), linear);
            let x = &self.data[ai];
            let y = &other.data[bi];
            assert(x.value() == a[ai as int] && y.value() == b[bi as int]);
            let v = if op == 0 {
                self.field.add(x, y)
            } else if op == 1 {
                self.field.sub(x, y)
            } else if op == 2 {
                self.field.mul(x, y)
            } else {
                match self.field.div(x, y) {
                    Ok(v) => v,
                    Err(e) => { return Err(e); },
                }
            };
            out.push(v);
            linear = linear + 1;
        }
        let r = BigFieldArray { field: self.field.clone(), shape: out_shape, data: out };
        assert forall|i: int| 0 <= i < r.values_view().len() implies #[trigger] r.values_view()[i] < r.field_view().q() by {
            assert(out@[i].value() < f.q());
        }
        Ok(r)
    }

    /// Elementwise sum with broadcasting.
    pub fn add(&self, other: &Self) -> (r: Result<Self>)
        requires
            self.wf(),
            other.wf(),
            broadcast_fits(self.shape_view(), other.shape_view()),
        ensures
            big_broadcast_outcome(self, other, r, 0),
    {
        self.broadcast_op(other, 0)
    }

    /// Elementwise difference with broadcasting.
    pub fn sub(&self, other: &Self) -> (r: Result<Self>)
        requires
            self.wf(),
            other.wf(),
            broadcast_fits(self.shape_view(), other.shape_view()),
        ensures
            big_broadcast_outcome(self, other, r, 1),
    {
        self.broadcast_op(other, 1)
    }

    /// Elementwise product with broadcasting.
    pub fn mul(&self, other: &Self) -> (r: Result<Self>)
        requires
            self.wf(),
            other.wf(),
            broadcast_fits(self.shape_view(), other.shape_view()),
        ensures
            big_broadcast_outcome(self, other, r, 2),
    {
        self.broadcast_op(other, 2)
    }

    /// Elementwise quotient `x * y^(q-2)` with broadcasting.
    pub fn div(&self, other: &Self) -> (r: Result<Self>)
        requires
            self.wf(),
            other.wf(),
            broadcast_fits(self.shape_view(), other.shape_view()),
        ensures
            big_broadcast_outcome(self, other, r, 3),
    {
        self.broadcast_op(other, 3)
    }
}

} // verus!
