//! The cell that guards each of the kernel's shared objects on one
//! processor: at most one exclusive borrow of its content exists at any
//! time, which is checked when the borrow is asked for.

use vstd::prelude::*;
use core::cell::{RefCell, RefMut};

verus! {

/// `core::cell::RefCell`, whose content Verus does not look into.
#[verifier::external_type_specification]
#[verifier::external_body]
#[verifier::reject_recursive_types(T)]
pub struct ExRefCell<T: ?Sized>(RefCell<T>);

/// `core::cell::RefMut`, whose content Verus does not look into.
#[verifier::external_type_specification]
#[verifier::external_body]
#[verifier::reject_recursive_types(T)]
pub struct ExRefMut<'b, T: ?Sized + 'b>(RefMut<'b, T>);

/// Allows us to safely use mutable global variables on uni-processor.
/// Provides internal variability and runtime borrowing checks.
#[verifier::reject_recursive_types(T)]
pub struct UPSafeCell<T> {
    inner: RefCell<T>,
}

impl<T> UPSafeCell<T> {
    /// Wraps `value` with `RefCell::new`. Nothing is claimed of the cell.
    #[verifier::external_body]
    pub fn new(value: T) -> (cell: Self) {
        Self { inner: RefCell::new(value) }
    }

    /// Exclusive access to the content, through `RefCell::try_borrow_mut`:
    /// `None` where the content is borrowed already. Whether it is depends on
    /// the borrows that are alive, of which nothing is claimed.
    #[verifier::external_body]
    pub fn exclusive_access(&self) -> (access: Option<RefMut<'_, T>>) {
        self.inner.try_borrow_mut().ok()
    }
}

} // verus!
