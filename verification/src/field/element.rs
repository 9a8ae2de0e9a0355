//! Single elements of a Galois field and their display representations.

use vstd::prelude::*;
use crate::error::{GaloisError, Result};
use crate::field::factory::{GaloisField, element_text};

verus! {

/// How an element is displayed: as an integer, as a polynomial in the primitive
/// element's root, or as a power of the primitive element.
#[derive(Debug, Clone, Copy, PartialEq, Eq, Structural)]
pub enum ElementRepr {
    Int,
    Poly,
    Power,
}

impl Default for ElementRepr {
    fn default() -> (r: Self)
        ensures
            r == ElementRepr::Int,
    {
        ElementRepr::Int
    }
}


/// A single element of a Galois field.
#[derive(Debug)]
pub struct FieldElement {
    field: GaloisField,
    value: u64,
}

/// The two fields have the same characteristic, degree and order.
pub open spec fn same_field(a: GaloisField, b: GaloisField) -> bool {
    a.q() == b.q() && a.p() == b.p() && a.m() == b.m()
}

impl Clone for FieldElement {
    fn clone(&self) -> (r: Self)
        ensures
            r.field_view().equiv(&self.field_view()),
            r.val() == self.val(),
    {
        FieldElement { field: self.field.clone(), value: self.value }
    }
}

impl FieldElement {
    pub closed spec fn field_view(&self) -> GaloisField {
        self.field
    }

    pub closed spec fn val(&self) -> nat {
        self.value as nat
    }

    /// A value of a well-formed field, below its order.
    pub open spec fn wf(&self) -> bool {
        self.field_view().wf() && self.val() < self.field_view().q()
    }

    /// The element `value` of `field`.
    pub(crate) fn new(field: GaloisField, value: u64) -> (r: Self)
        ensures
            r.field_view() == field,
            r.val() == value,
    {
        FieldElement { field, value }
    }

    pub fn field(&self) -> (r: &GaloisField)
        ensures
            *r == self.field_view(),
    {
        &self.field
    }

    pub fn value(&self) -> (r: u64)
        ensures
            r == self.val(),
    {
        self.value
    }

    fn ensure_same_field(&self, other: &Self) -> (r: Result<()>)
        ensures
            r is Ok <==> same_field(self.field_view(), other.field_view()),
            r is Err ==> r == Err::<(), GaloisError>(GaloisError::FieldMismatch),
    {
        if self.field.order() != other.field.order() || self.field.characteristic() != other.field.characteristic()
            || self.field.degree() != other.field.degree() {
            return Err(GaloisError::FieldMismatch);
        }
        Ok(())
    }

    /// Sum; `FieldMismatch` for elements of different fields.
    pub fn add(&self, other: &Self) -> (r: Result<Self>)
        requires
            self.wf(),
            other.wf(),
        ensures
            !same_field(self.field_view(), other.field_view()) ==> r == Err::<Self, GaloisError>(GaloisError::FieldMismatch),
            same_field(self.field_view(), other.field_view()) ==> (r matches Ok(e) && e.wf()
                && e.field_view().equiv(&self.field_view())
                && e.val() == self.field_view().add_spec(self.val(), other.val())),
    {
        if let Err(e) = self.ensure_same_field(other) {
            return Err(e);
        }
        let v = self.field.add(self.value, other.value);
        let f = self.field.clone();
        proof { f.lemma_equiv_wf(&self.field); }
        Ok(FieldElement { field: f, value: v })
    }

    /// Difference; `FieldMismatch` for elements of different fields.
    pub fn sub(&self, other: &Self) -> (r: Result<Self>)
        requires
            self.wf(),
            other.wf(),
        ensures
            !same_field(self.field_view(), other.field_view()) ==> r == Err::<Self, GaloisError>(GaloisError::FieldMismatch),
            same_field(self.field_view(), other.field_view()) ==> (r matches Ok(e) && e.wf()
                && e.field_view().equiv(&self.field_view())
                && e.val() == self.field_view().sub_spec(self.val(), other.val())),
    {
        if let Err(e) = self.ensure_same_field(other) {
            return Err(e);
        }
        let v = self.field.sub(self.value, other.value);
        let f = self.field.clone();
        proof { f.lemma_equiv_wf(&self.field); }
        Ok(FieldElement { field: f, value: v })
    }

    /// Product; `FieldMismatch` for elements of different fields.
    pub fn mul(&self, other: &Self) -> (r: Result<Self>)
        requires
            self.wf(),
            other.wf(),
        ensures
            !same_field(self.field_view(), other.field_view()) ==> r == Err::<Self, GaloisError>(GaloisError::FieldMismatch),
            same_field(self.field_view(), other.field_view()) ==> (r matches Ok(e) && e.wf()
                && e.field_view().equiv(&self.field_view())
                && e.val() == self.field_view().mul_spec(self.val(), other.val())),
    {
        if let Err(e) = self.ensure_same_field(other) {
            return Err(e);
        }
        let v = self.field.mul(self.value, other.value);
        let f = self.field.clone();
        proof { f.lemma_equiv_wf(&self.field); }
        Ok(FieldElement { field: f, value: v })
    }

    /// Quotient; `FieldMismatch` for elements of different fields, `DivisionByZero` for a
    /// zero divisor.
    pub fn div(&self, other: &Self) -> (r: Result<Self>)
        requires
            self.wf(),
            other.wf(),
        ensures
            !same_field(self.field_view(), other.field_view()) ==> r == Err::<Self, GaloisError>(GaloisError::FieldMismatch),
            same_field(self.field_view(), other.field_view()) && other.val() == 0 ==> r == Err::<Self, GaloisError>(
                GaloisError::DivisionByZero { characteristic: self.field_view().p() as u64, degree: self.field_view().m() as u32 }),
            same_field(self.field_view(), other.field_view()) && other.val() != 0 ==> (r matches Ok(e) && e.wf()
                && e.field_view().equiv(&self.field_view())
                && e.val() == self.field_view().div_spec(self.val(), other.val())),
    {
        if let Err(e) = self.ensure_same_field(other) {
            return Err(e);
        }
        let v = match self.field.div(self.value, other.value) {
            Ok(v) => v,
            Err(e) => { return Err(e); },
        };
        let f = self.field.clone();
        proof { f.lemma_equiv_wf(&self.field); }
        Ok(FieldElement { field: f, value: v })
    }

    /// `self^exp`.
    pub fn pow(&self, exp: u64) -> (r: Self)
        requires
            self.wf(),
        ensures
            r.wf(),
            r.field_view().equiv(&self.field_view()),
            r.val() == self.field_view().pow_spec(self.val(), exp as nat),
    {
        let v = self.field.pow(self.value, exp);
        let f = self.field.clone();
        proof { f.lemma_equiv_wf(&self.field); }
        FieldElement { field: f, value: v }
    }

    /// Multiplicative inverse; `DivisionByZero` for zero.
    pub fn inverse(&self) -> (r: Result<Self>)
        requires
            self.wf(),
        ensures
            self.val() == 0 ==> r == Err::<Self, GaloisError>(GaloisError::DivisionByZero {
                characteristic: self.field_view().p() as u64, degree: self.field_view().m() as u32 }),
            self.val() != 0 ==> (r matches Ok(e) && e.wf() && e.field_view().equiv(&self.field_view())
                && e.val() == self.field_view().div_spec(1, self.val())),
    {
        proof { self.field.lemma_q_ge_2(); }
        let v = match self.field.div(1, self.value) {
            Ok(v) => v,
            Err(e) => { return Err(e); },
        };
        let f = self.field.clone();
        proof { f.lemma_equiv_wf(&self.field); }
        Ok(FieldElement { field: f, value: v })
    }

    /// Additive inverse.
    pub fn neg(&self) -> (r: Self)
        requires
            self.wf(),
        ensures
            r.wf(),
            r.field_view().equiv(&self.field_view()),
            r.val() == self.field_view().neg_spec(self.val()),
    {
        let v = self.field.neg(self.value);
        let f = self.field.clone();
        proof { f.lemma_equiv_wf(&self.field); }
        FieldElement { field: f, value: v }
    }

    /// Text of the element in the given representation.
    pub fn format_with(&self, repr: ElementRepr) -> (r: String)
        requires
            self.wf(),
        ensures
            r@ == element_text(self.field_view(), self.val(), repr),
    {
        self.field.format_element(self.value, repr)
    }
}

impl GaloisField {
    /// The element `value` of this field; `InvalidElement` when `value >= q`.
    pub fn element(&self, value: u64) -> (r: Result<FieldElement>)
        requires
            self.wf(),
        ensures
            value >= self.q() ==> r == Err::<FieldElement, GaloisError>(GaloisError::InvalidElement {
                value, characteristic: self.p() as u64, degree: self.m() as u32 }),
            value < self.q() ==> (r matches Ok(e) && e.wf() && e.field_view().equiv(self) && e.val() == value),
    {
        let v = match self.validate_element(value) {
            Ok(v) => v,
            Err(e) => { return Err(e); },
        };
        let f = self.clone();
        proof { f.lemma_equiv_wf(self); }
        Ok(FieldElement::new(f, v))
    }
}

} // verus!
