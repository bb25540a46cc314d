//! Discarding a value on purpose, as a method or as a function.

use vstd::prelude::*;

verus! {

/// Discarding a value with a postfix call.
pub trait Void: Sized {
    /// Drops the value.
    fn void(self);
}

impl<T: Sized> Void for T {
    fn void(self) {
    }
}

/// Discards a value.
pub fn void<T>(t: T) {
    let _ = t;
}

} // verus!
