//! Scalar values paired with the tag that identifies them.

use crate::tagger::Id;
use vstd::prelude::*;

verus! {

/// A scalar together with the tag under which its interactions are recorded.
#[derive(Clone, Copy, Debug)]
pub struct TaggedValue<T: Copy> {
    pub value: T,
    pub id: Id,
}

impl<T: Copy> TaggedValue<T> {
    pub fn new(value: T, id: Id) -> (tv: Self)
        ensures
            tv.value == value,
            tv.id == id,
    {
        Self { value, id }
    }

    /// The scalar without its tag.
    pub fn unbind(&self) -> (value: T)
        ensures
            value == self.value,
    {
        self.value
    }
}

} // verus!
