//! A single-value slot with read and write access.

use vstd::prelude::*;

verus! {

/// A slot holding one value of `T`.
pub struct Cell<T> {
    value: T,
}

impl<T> Cell<T> {
    /// The value the slot holds.
    pub closed spec fn stored(&self) -> T {
        self.value
    }

    /// Wraps `value` in a slot.
    pub fn new(value: T) -> (c: Self)
        ensures
            c.stored() == value,
    {
        Cell { value }
    }

    /// Replaces the slot's value.
    pub fn set(&mut self, value: T)
        ensures
            final(self).stored() == value,
    {
        self.value = value;
    }

    /// Copies the slot's value out.
    pub fn get(&self) -> (r: T) where T: Copy
        ensures
            r == self.stored(),
    {
        self.value
    }
}

} // verus!
