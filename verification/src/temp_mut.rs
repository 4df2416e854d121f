//! The cell that guards the heap of a user program, which runs on one
//! thread.

use vstd::prelude::*;
use core::cell::{RefCell, RefMut};

verus! {

/// A stand-in for a mutex where there is one thread only.
#[verifier::reject_recursive_types(T)]
pub struct TempMut<T> {
    pub inner: RefCell<T>,
}

impl<T> TempMut<T> {
    /// Wraps `inner` with `RefCell::new`. Nothing is claimed of the cell.
    #[verifier::external_body]
    pub fn new(inner: T) -> (cell: Self) {
        Self { inner: RefCell::new(inner) }
    }

    /// Exclusive access to the content, through `RefCell::try_borrow_mut`:
    /// `None` where the content is borrowed already. Whether it is depends on
    /// the borrows that are alive, of which nothing is claimed.
    #[verifier::external_body]
    pub fn lock(&self) -> (access: Option<RefMut<'_, T>>) {
        self.inner.try_borrow_mut().ok()
    }
}

} // verus!
