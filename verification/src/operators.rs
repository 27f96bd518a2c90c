//! Arithmetic and comparison on tagged values.
//!
//! Every operation records in the ledger that its operands have interacted.
//! The engine is passed explicitly: nothing changes shared state behind the
//! caller's back.

use crate::inference::AbstractTypeInference;
use crate::tagged_value::TaggedValue;
use core::cmp::Ordering;
use core::ops::{Add, Div, Mul, Sub};
use vstd::prelude::*;
use vstd::std_specs::cmp::{PartialEqSpec, PartialOrdSpec};
use vstd::std_specs::ops::{AddSpec, DivSpec, MulSpec, SubSpec};

verus! {

impl<T: Copy> TaggedValue<T> {
    /// The sum of two tagged values, under a fresh tag. The operands
    /// interact with each other, and the sum with the left operand.
    pub fn add(&self, rhs: &Self, ati: &mut AbstractTypeInference) -> (res: Self) where
        T: Add<Output = T>,

        requires
            old(ati).wf(),
            old(ati)@.issued < u64::MAX,
            self.value.add_req(rhs.value),
        ensures
            final(ati).wf(),
            res.id == old(ati)@.issued,
            T::obeys_add_spec() ==> res.value == self.value.add_spec(rhs.value),
            final(ati)@ == old(ati)@.combined(self.id, rhs.id),
    {
        ati.union_tags(self, rhs);
        let res = ati.track(self.value + rhs.value);
        ati.union_tags(&res, self);
        res
    }

    /// The difference of two tagged values, under a fresh tag. The operands
    /// interact with each other, and the difference with the left operand.
    pub fn sub(&self, rhs: &Self, ati: &mut AbstractTypeInference) -> (res: Self) where
        T: Sub<Output = T>,

        requires
            old(ati).wf(),
            old(ati)@.issued < u64::MAX,
            self.value.sub_req(rhs.value),
        ensures
            final(ati).wf(),
            res.id == old(ati)@.issued,
            T::obeys_sub_spec() ==> res.value == self.value.sub_spec(rhs.value),
            final(ati)@ == old(ati)@.combined(self.id, rhs.id),
    {
        ati.union_tags(self, rhs);
        let res = ati.track(self.value - rhs.value);
        ati.union_tags(&res, self);
        res
    }

    /// The product of two tagged values, under a fresh tag. The operands
    /// interact with each other, and the product with the left operand.
    pub fn mul(&self, rhs: &Self, ati: &mut AbstractTypeInference) -> (res: Self) where
        T: Mul<Output = T>,

        requires
            old(ati).wf(),
            old(ati)@.issued < u64::MAX,
            self.value.mul_req(rhs.value),
        ensures
            final(ati).wf(),
            res.id == old(ati)@.issued,
            T::obeys_mul_spec() ==> res.value == self.value.mul_spec(rhs.value),
            final(ati)@ == old(ati)@.combined(self.id, rhs.id),
    {
        ati.union_tags(self, rhs);
        let res = ati.track(self.value * rhs.value);
        ati.union_tags(&res, self);
        res
    }

    /// The quotient of two tagged values, under a fresh tag. The operands
    /// interact with each other, and the quotient with the left operand.
    pub fn div(&self, rhs: &Self, ati: &mut AbstractTypeInference) -> (res: Self) where
        T: Div<Output = T>,

        requires
            old(ati).wf(),
            old(ati)@.issued < u64::MAX,
            self.value.div_req(rhs.value),
        ensures
            final(ati).wf(),
            res.id == old(ati)@.issued,
            T::obeys_div_spec() ==> res.value == self.value.div_spec(rhs.value),
            final(ati)@ == old(ati)@.combined(self.id, rhs.id),
    {
        ati.union_tags(self, rhs);
        let res = ati.track(self.value / rhs.value);
        ati.union_tags(&res, self);
        res
    }

    /// Whether the two scalars are equal. The comparison is an interaction
    /// of the two values; its result carries no tag.
    pub fn eq(&self, other: &Self, ati: &mut AbstractTypeInference) -> (same: bool) where
        T: PartialEq,

        requires
            old(ati).wf(),
        ensures
            final(ati).wf(),
            T::obeys_eq_spec() ==> same == self.value.eq_spec(&other.value),
            final(ati)@ == old(ati)@.united(self.id, other.id),
    {
        ati.union_tags(self, other);
        self.value == other.value
    }

    /// How the two scalars are ordered, if they are. The comparison is an
    /// interaction of the two values; its result carries no tag.
    pub fn partial_cmp(&self, other: &Self, ati: &mut AbstractTypeInference) -> (order: Option<
        Ordering,
    >) where T: PartialOrd

        requires
            old(ati).wf(),
        ensures
            final(ati).wf(),
            T::obeys_partial_cmp_spec() ==> order == self.value.partial_cmp_spec(&other.value),
            final(ati)@ == old(ati)@.united(self.id, other.id),
    {
        ati.union_tags(self, other);
        self.value.partial_cmp(&other.value)
    }

    /// How the two scalars are ordered. The comparison is an interaction of
    /// the two values; its result carries no tag.
    ///
    /// The scalars must be comparable.
    pub fn cmp(&self, other: &Self, ati: &mut AbstractTypeInference) -> (order: Ordering) where
        T: PartialOrd,

        requires
            old(ati).wf(),
            T::obeys_partial_cmp_spec(),
            self.value.partial_cmp_spec(&other.value).is_some(),
        ensures
            final(ati).wf(),
            Some(order) == self.value.partial_cmp_spec(&other.value),
            final(ati)@ == old(ati)@.united(self.id, other.id),
    {
        ati.union_tags(self, other);
        self.value.partial_cmp(&other.value).unwrap()
    }
}

} // verus!
