use vstd::prelude::*;

verus! {

/// A cell whose contents are borrowed mutably, one borrow at a time.
///
/// Exclusive access is enforced when the borrow is taken: `borrow_mut` needs
/// the cell itself mutably, so two borrows can never be alive together.
pub struct UnsafeRefCell<T> {
    inner: T,
}

impl<T> UnsafeRefCell<T> {
    /// The value that the cell holds.
    pub closed spec fn value(self) -> T {
        self.inner
    }

    /// Create a new cell containing the given value.
    pub fn new(value: T) -> (r: UnsafeRefCell<T>)
        ensures
            r.value() == value,
    {
        UnsafeRefCell { inner: value }
    }

    /// Consume the cell, returning the contained value.
    pub fn into_inner(self) -> (r: T)
        ensures
            r == self.value(),
    {
        self.inner
    }

    /// Mutably borrow the contained value until the returned guard is dropped.
    pub fn borrow_mut(&mut self) -> (r: UnsafeRefMut<'_, T>)
        ensures
            *r.target() == old(self).value(),
            final(self).value() == *final(r.target()),
    {
        UnsafeRefMut { inner: &mut self.inner }
    }
}

/// Mutably borrowed content of an [`UnsafeRefCell`].
pub struct UnsafeRefMut<'a, T> {
    inner: &'a mut T,
}

impl<'a, T> UnsafeRefMut<'a, T> {
    /// The borrowed place.
    pub closed spec fn target(self) -> &'a mut T {
        self.inner
    }

    /// The borrowed value.
    pub fn get(&self) -> (r: &T)
        ensures
            *r == *self.target(),
    {
        &*self.inner
    }

    /// Give up the guard for the mutable borrow it holds.
    pub fn into_mut(self) -> (r: &'a mut T)
        ensures
            *r == *self.target(),
            *final(r) == *final(self.target()),
    {
        self.inner
    }
}

} // verus!
