//! Arrays over either kind of field.

use vstd::prelude::*;
use crate::error::{GaloisError, Result};
use crate::field::array::{FieldArray, all_below, broadcast_fits, broadcast_outcome, div_outcome};
use crate::field::big_array::{BigFieldArray, all_values_below, big_broadcast_outcome};
use crate::field::big_field::{BigGaloisField, FieldKind};
use crate::field::bignum::BigValue;
use crate::field::broadcast::{prefix_fits, suffix_fits, shape_size};
use crate::poly::big_poly::{values_of, big_equiv};

verus! {

/// An array over a field with 64-bit elements or over one with arbitrary-precision
/// elements.
pub enum GaloisArray {
    Small(FieldArray),
    Big(BigFieldArray),
}

impl GaloisArray {
    pub open spec fn wf(&self) -> bool {
        match self {
            GaloisArray::Small(a) => a.wf(),
            GaloisArray::Big(a) => a.wf(),
        }
    }

    /// The shape of either kind.
    pub open spec fn shape_view(&self) -> Seq<usize> {
        match self {
            GaloisArray::Small(a) => a.shape_view(),
            GaloisArray::Big(a) => a.shape_view(),
        }
    }

    /// The values of either kind.
    pub open spec fn values_view(&self) -> Seq<nat> {
        match self {
            GaloisArray::Small(a) => a.values_view().map_values(|v: u64| v as nat),
            GaloisArray::Big(a) => a.values_view(),
        }
    }

    /// A one-dimensional array of integer values over `field`; an error for a value that is
    /// not an element.
    pub fn from_u64(field: &FieldKind, values: Vec<u64>) -> (r: Result<Self>)
        requires
            field.wf(),
        ensures
            field matches FieldKind::Small(f) ==> (all_below(values@, f.q()) <==> r is Ok),
            field matches FieldKind::Big(f) ==> ((forall|i: int| 0 <= i < values@.len() ==> values@[i] < f.q()) <==> r is Ok),
            r matches Ok(a) ==> a.wf() && a.shape_view() == seq![values@.len() as usize]
                && a.values_view() == values@.map_values(|v: u64| v as nat)
                && (field is Small <==> a is Small),
    {
        match field {
            FieldKind::Small(f) => match f.array(values) {
                Ok(a) => {
                    assert(a.values_view().map_values(|v: u64| v as nat) =~= values@.map_values(|v: u64| v as nat));
                    Ok(GaloisArray::Small(a))
                },
                Err(e) => Err(e),
            },
            FieldKind::Big(f) => match BigFieldArray::from_u64(f.clone(), values) {
                Ok(a) => Ok(GaloisArray::Big(a)),
                Err(e) => Err(e),
            },
        }
    }

    /// A one-dimensional array of big values over `field`.
    pub fn from_big(field: &BigGaloisField, values: Vec<BigValue>) -> (r: Result<Self>)
        requires
            field.wf(),
        ensures
            all_values_below(values@, field.q()) <==> r is Ok,
            r matches Ok(a) ==> a.wf() && a is Big && a.values_view() == values_of(values@),
    {
        match BigFieldArray::new(field.clone(), values) {
            Ok(a) => Ok(GaloisArray::Big(a)),
            Err(e) => Err(e),
        }
    }

    /// An array of zeros of the given shape over `field`.
    pub fn zeros(field: &FieldKind, shape: &[usize]) -> (r: Self)
        requires
            field.wf(),
            prefix_fits(shape@),
            suffix_fits(shape@),
        ensures
            r.wf(),
            r.shape_view() == shape@,
            r.values_view() == Seq::new(shape_size(shape@), |i: int| 0nat),
    {
        match field {
            FieldKind::Small(f) => {
                let g = f.clone();
                proof { g.lemma_equiv_wf(f); }
                let a = FieldArray::zeros(g, shape);
                assert(a.values_view().map_values(|v: u64| v as nat) =~= Seq::new(shape_size(shape@), |i: int| 0nat));
                GaloisArray::Small(a)
            },
            FieldKind::Big(f) => GaloisArray::Big(BigFieldArray::zeros(f.clone(), shape)),
        }
    }

    /// An array of ones of the given shape over `field`.
    pub fn ones(field: &FieldKind, shape: &[usize]) -> (r: Self)
        requires
            field.wf(),
            prefix_fits(shape@),
            suffix_fits(shape@),
        ensures
            r.wf(),
            r.shape_view() == shape@,
            r.values_view() == Seq::new(shape_size(shape@), |i: int| 1nat),
    {
        match field {
            FieldKind::Small(f) => {
                let g = f.clone();
                proof { g.lemma_equiv_wf(f); }
                let a = FieldArray::ones(g, shape);
                assert(a.values_view().map_values(|v: u64| v as nat) =~= Seq::new(shape_size(shape@), |i: int| 1nat));
                GaloisArray::Small(a)
            },
            FieldKind::Big(f) => GaloisArray::Big(BigFieldArray::ones(f.clone(), shape)),
        }
    }

    pub fn len(&self) -> (r: usize)
        ensures
            r == self.values_view().len(),
    {
        match self {
            GaloisArray::Small(a) => a.len(),
            GaloisArray::Big(a) => a.len(),
        }
    }

    pub fn shape(&self) -> (r: Vec<usize>)
        ensures
            r@ == self.shape_view(),
    {
        match self {
            GaloisArray::Small(a) => a.shape(),
            GaloisArray::Big(a) => a.shape(),
        }
    }

    /// The same values in another shape of the same size; `ShapeMismatch` otherwise.
    pub fn reshape(&self, shape: &[usize]) -> (r: Result<Self>)
        requires
            self.wf(),
            prefix_fits(shape@),
        ensures
            shape_size(shape@) == self.values_view().len() && suffix_fits(shape@) ==> (r matches Ok(a) && a.wf()
                && a.shape_view() == shape@ && a.values_view() == self.values_view() && (a is Small <==> self is Small)),
            !(shape_size(shape@) == self.values_view().len() && suffix_fits(shape@)) ==>
                (r matches Err(GaloisError::ShapeMismatch { expected, actual })
                && expected@ == shape@ && actual@ == self.shape_view()),
    {
        match self {
            GaloisArray::Small(a) => match a.reshape(shape) {
                Ok(x) => Ok(GaloisArray::Small(x)),
                Err(e) => Err(e),
            },
            GaloisArray::Big(a) => match a.reshape(shape) {
                Ok(x) => Ok(GaloisArray::Big(x)),
                Err(e) => Err(e),
            },
        }
    }

    /// Elementwise sum with broadcasting; `FieldMismatch` for arrays of different kinds.
    pub fn add(&self, other: &Self) -> (r: Result<Self>)
        requires
            self.wf(),
            other.wf(),
            broadcast_fits(self.shape_view(), other.shape_view()),
        ensures
            match (self, other) {
                (GaloisArray::Small(a), GaloisArray::Small(b)) => {
                    let rs = match r { Ok(GaloisArray::Small(c)) => Ok(c), Ok(GaloisArray::Big(_)) => Err(GaloisError::FieldMismatch), Err(e) => Err(e) };
                    broadcast_outcome(a, b, rs, |x: nat, y: nat| a.field_view().add_spec(x, y)) && !(r matches Ok(GaloisArray::Big(_)))
                },
                (GaloisArray::Big(a), GaloisArray::Big(b)) => {
                    let rb = match r { Ok(GaloisArray::Big(c)) => Ok(c), Ok(GaloisArray::Small(_)) => Err(GaloisError::FieldMismatch), Err(e) => Err(e) };
                    big_broadcast_outcome(a, b, rb, 0) && !(r matches Ok(GaloisArray::Small(_)))
                },
                _ => r == Err::<Self, GaloisError>(GaloisError::FieldMismatch),
            },
    {
        match (self, other) {
            (GaloisArray::Small(a), GaloisArray::Small(b)) => match a.add(b) {
                Ok(c) => Ok(GaloisArray::Small(c)),
                Err(e) => Err(e),
            },
            (GaloisArray::Big(a), GaloisArray::Big(b)) => match a.add(b) {
                Ok(c) => Ok(GaloisArray::Big(c)),
                Err(e) => Err(e),
            },
            _ => Err(GaloisError::FieldMismatch),
        }
    }

    /// Elementwise difference with broadcasting; `FieldMismatch` for arrays of different kinds.
    pub fn sub(&self, other: &Self) -> (r: Result<Self>)
        requires
            self.wf(),
            other.wf(),
            broadcast_fits(self.shape_view(), other.shape_view()),
        ensures
            match (self, other) {
                (GaloisArray::Small(a), GaloisArray::Small(b)) => {
                    let rs = match r { Ok(GaloisArray::Small(c)) => Ok(c), Ok(GaloisArray::Big(_)) => Err(GaloisError::FieldMismatch), Err(e) => Err(e) };
                    broadcast_outcome(a, b, rs, |x: nat, y: nat| a.field_view().sub_spec(x, y)) && !(r matches Ok(GaloisArray::Big(_)))
                },
                (GaloisArray::Big(a), GaloisArray::Big(b)) => {
                    let rb = match r { Ok(GaloisArray::Big(c)) => Ok(c), Ok(GaloisArray::Small(_)) => Err(GaloisError::FieldMismatch), Err(e) => Err(e) };
                    big_broadcast_outcome(a, b, rb, 1) && !(r matches Ok(GaloisArray::Small(_)))
                },
                _ => r == Err::<Self, GaloisError>(GaloisError::FieldMismatch),
            },
    {
        match (self, other) {
            (GaloisArray::Small(a), GaloisArray::Small(b)) => match a.sub(b) {
                Ok(c) => Ok(GaloisArray::Small(c)),
                Err(e) => Err(e),
            },
            (GaloisArray::Big(a), GaloisArray::Big(b)) => match a.sub(b) {
                Ok(c) => Ok(GaloisArray::Big(c)),
                Err(e) => Err(e),
            },
            _ => Err(GaloisError::FieldMismatch),
        }
    }

    /// Elementwise product with broadcasting; `FieldMismatch` for arrays of different kinds.
    pub fn mul(&self, other: &Self) -> (r: Result<Self>)
        requires
            self.wf(),
            other.wf(),
            broadcast_fits(self.shape_view(), other.shape_view()),
        ensures
            match (self, other) {
                (GaloisArray::Small(a), GaloisArray::Small(b)) => {
                    let rs = match r { Ok(GaloisArray::Small(c)) => Ok(c), Ok(GaloisArray::Big(_)) => Err(GaloisError::FieldMismatch), Err(e) => Err(e) };
                    broadcast_outcome(a, b, rs, |x: nat, y: nat| a.field_view().mul_spec(x, y)) && !(r matches Ok(GaloisArray::Big(_)))
                },
                (GaloisArray::Big(a), GaloisArray::Big(b)) => {
                    let rb = match r { Ok(GaloisArray::Big(c)) => Ok(c), Ok(GaloisArray::Small(_)) => Err(GaloisError::FieldMismatch), Err(e) => Err(e) };
                    big_broadcast_outcome(a, b, rb, 2) && !(r matches Ok(GaloisArray::Small(_)))
                },
                _ => r == Err::<Self, GaloisError>(GaloisError::FieldMismatch),
            },
    {
        match (self, other) {
            (GaloisArray::Small(a), GaloisArray::Small(b)) => match a.mul(b) {
                Ok(c) => Ok(GaloisArray::Small(c)),
                Err(e) => Err(e),
            },
            (GaloisArray::Big(a), GaloisArray::Big(b)) => match a.mul(b) {
                Ok(c) => Ok(GaloisArray::Big(c)),
                Err(e) => Err(e),
            },
            _ => Err(GaloisError::FieldMismatch),
        }
    }

    /// Elementwise quotient with broadcasting; `FieldMismatch` for arrays of different kinds.
    pub fn div(&self, other: &Self) -> (r: Result<Self>)
        requires
            self.wf(),
            other.wf(),
            broadcast_fits(self.shape_view(), other.shape_view()),
        ensures
            match (self, other) {
                (GaloisArray::Small(a), GaloisArray::Small(b)) => {
                    let rs = match r { Ok(GaloisArray::Small(c)) => Ok(c), Ok(GaloisArray::Big(_)) => Err(GaloisError::FieldMismatch), Err(e) => Err(e) };
                    div_outcome(a, b, rs) && !(r matches Ok(GaloisArray::Big(_)))
                },
                (GaloisArray::Big(a), GaloisArray::Big(b)) => {
                    let rb = match r { Ok(GaloisArray::Big(c)) => Ok(c), Ok(GaloisArray::Small(_)) => Err(GaloisError::FieldMismatch), Err(e) => Err(e) };
                    big_broadcast_outcome(a, b, rb, 3) && !(r matches Ok(GaloisArray::Small(_)))
                },
                _ => r == Err::<Self, GaloisError>(GaloisError::FieldMismatch),
            },
    {
        match (self, other) {
            (GaloisArray::Small(a), GaloisArray::Small(b)) => match a.div(b) {
                Ok(c) => Ok(GaloisArray::Small(c)),
                Err(e) => Err(e),
            },
            (GaloisArray::Big(a), GaloisArray::Big(b)) => match a.div(b) {
                Ok(c) => Ok(GaloisArray::Big(c)),
                Err(e) => Err(e),
            },
            _ => Err(GaloisError::FieldMismatch),
        }
    }

    pub fn is_small(&self) -> (r: bool)
        ensures
            r == (self is Small),
    {
        match self {
            GaloisArray::Small(_) => true,
            GaloisArray::Big(_) => false,
        }
    }

    pub fn as_small(&self) -> (r: Option<&FieldArray>)
        ensures
            self matches GaloisArray::Small(a) ==> (r matches Some(x) && *x == a),
            self is Big ==> r is None,
    {
        match self {
            GaloisArray::Small(a) => Some(a),
            GaloisArray::Big(_) => None,
        }
    }

    pub fn as_big(&self) -> (r: Option<&BigFieldArray>)
        ensures
            self matches GaloisArray::Big(a) ==> (r matches Some(x) && *x == a),
            self is Small ==> r is None,
    {
        match self {
            GaloisArray::Small(_) => None,
            GaloisArray::Big(a) => Some(a),
        }
    }

    /// The field of the array, of the same kind.
    pub fn field(&self) -> (r: FieldKind)
        requires
            self.wf(),
        ensures
            r.wf(),
            self matches GaloisArray::Small(a) ==> (r matches FieldKind::Small(f) && f.equiv(&a.field_view())),
            self matches GaloisArray::Big(a) ==> (r matches FieldKind::Big(f) && big_equiv(f, a.field_view())),
    {
        match self {
            GaloisArray::Small(a) => {
                let f = a.field().clone();
                proof { f.lemma_equiv_wf(&a.field_view()); }
                FieldKind::Small(f)
            },
            GaloisArray::Big(a) => FieldKind::Big(a.field().clone()),
        }
    }
}

impl FieldKind {
    /// A one-dimensional array of `values` over this field; an error unless every value
    /// is an element.
    pub fn array(&self, values: Vec<u64>) -> (r: Result<GaloisArray>)
        requires
            self.wf(),
        ensures
            (forall|i: int| 0 <= i < values@.len() ==> values@[i] < self.q()) <==> r is Ok,
            r matches Ok(a) ==> a.wf() && a.shape_view() == seq![values@.len() as usize]
                && a.values_view() == values@.map_values(|v: u64| v as nat)
                && (self is Small <==> a is Small),
    {
        GaloisArray::from_u64(self, values)
    }

    /// The zero array of the given shape.
    pub fn zeros(&self, shape: &[usize]) -> (r: GaloisArray)
        requires
            self.wf(),
            prefix_fits(shape@),
            suffix_fits(shape@),
        ensures
            r.wf(),
            r.shape_view() == shape@,
            r.values_view() == Seq::new(shape_size(shape@), |i: int| 0nat),
    {
        GaloisArray::zeros(self, shape)
    }

    /// The array of ones of the given shape.
    pub fn ones(&self, shape: &[usize]) -> (r: GaloisArray)
        requires
            self.wf(),
            prefix_fits(shape@),
            suffix_fits(shape@),
        ensures
            r.wf(),
            r.shape_view() == shape@,
            r.values_view() == Seq::new(shape_size(shape@), |i: int| 1nat),
    {
        GaloisArray::ones(self, shape)
    }
}

} // verus!
