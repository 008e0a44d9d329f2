//! Exclusive access to shared kernel state.
//!
//! Holding a `&mut` to the cell is what grants the access here: the
//! borrow checker rules out a second guard while one is alive, which is the
//! re-entry the kernel must never make.
use vstd::prelude::*;

verus! {

/// A cell whose contents are reached through a guard.
pub struct SMPSafeCell<T> {
    inner: T,
}

/// Grants access to the contents of a cell while it lives.
pub struct SMPSafeCellGuard<'a, T> {
    cell: &'a mut SMPSafeCell<T>,
}

impl<T> SMPSafeCell<T> {
    pub closed spec fn value(&self) -> T {
        self.inner
    }

    /// A cell holding `value`.
    pub fn new(value: T) -> (c: Self)
        ensures
            c.value() == value,
    {
        SMPSafeCell { inner: value }
    }

    /// A guard over the contents.
    pub fn exclusive_access(&mut self) -> (g: SMPSafeCellGuard<'_, T>)
        ensures
            g.value() == old(self).value(),
    {
        SMPSafeCellGuard { cell: self }
    }
}

impl<'a, T> SMPSafeCellGuard<'a, T> {
    pub closed spec fn value(&self) -> T {
        self.cell.inner
    }

    /// The contents, to read.
    pub fn get(&self) -> (r: &T)
        ensures
            *r == self.value(),
    {
        &self.cell.inner
    }

    /// The contents, to change.
    pub fn get_mut(&mut self) -> (r: &mut T)
        ensures
            *r == old(self).value(),
            final(self).value() == *final(r),
    {
        &mut self.cell.inner
    }
}

} // verus!
