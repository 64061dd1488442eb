//! Shared ownership of one heap value through reference counting. The
//! counting itself — one count up per clone, one down per drop, freeing at
//! zero — is done by the standard library's single-threaded counted pointer,
//! which this type wraps.

use vstd::prelude::*;

verus! {

/// A reference-counted shared handle to one value of `T`.
pub struct Rc<T> {
    inner: std::rc::Rc<T>,
}

impl<T> Rc<T> {
    /// The value all handles of this allocation share. A counted pointer is
    /// one with its pointee here: the standard library's counted pointer has
    /// the value it boxes as its mathematical value.
    pub closed spec fn stored(&self) -> std::rc::Rc<T> {
        self.inner
    }

    /// Moves `value` to the heap with an initial count of one.
    pub fn new(value: T) -> (r: Self)
        ensures
            r.stored() == value,
    {
        Rc { inner: std::rc::Rc::new(value) }
    }

    /// Borrows the shared value.
    ///
    /// Relies on `std::rc::Rc`'s deref: every handle points at the one
    /// shared allocation, whose value no handle can change.
    #[verifier::external_body]
    pub fn get(&self) -> (r: &T)
        ensures
            *r == self.stored(),
    {
        &*self.inner
    }
}

impl<T> Clone for Rc<T> {
    /// Another handle to the same allocation: the count goes up by one, the
    /// value stays shared.
    fn clone(&self) -> (r: Self)
        ensures
            r.stored() == self.stored(),
    {
        Rc { inner: clone_rc(&self.inner) }
    }
}

/// Relies on `std::rc::Rc::clone`: the clone is a handle to the same
/// allocation, so it holds the same value.
#[verifier::external_body]
fn clone_rc<T>(rc: &std::rc::Rc<T>) -> (r: std::rc::Rc<T>)
    ensures
        r == *rc,
{
    std::rc::Rc::clone(rc)
}

} // verus!
