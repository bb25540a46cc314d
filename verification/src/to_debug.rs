//! Rendering any value with its debugging format as a string.

use vstd::prelude::*;

verus! {

/// The debugging rendition of a value, as an owned string.
pub trait ToDebug {
    /// The value, rendered with its debugging format.
    fn to_debug(&self) -> String;
}

impl<T: core::fmt::Debug> ToDebug for T {
    fn to_debug(&self) -> String {
        crate::opt_res_boost::debug_string(self)
    }
}

} // verus!
