//! A chaining form for any value: apply a function and keep going.

use vstd::prelude::*;

verus! {

/// Chained application: `x.f(g).f(h)` for `h(g(x))`.
pub trait FpForm: Sized {
    /// Applies the function to the value.
    fn f<F: FnOnce(Self) -> Self>(self, function: F) -> (r: Self)
        requires
            call_requires(function, (self,)),
        ensures
            call_ensures(function, (self,), r),
    ;

    /// The same application under a name that reads as a destination.
    fn to<F: FnOnce(Self) -> Self>(self, function: F) -> (r: Self)
        requires
            call_requires(function, (self,)),
        ensures
            call_ensures(function, (self,), r),
    ;

    /// The same application under a name that reads as a treatment.
    fn deal<F: FnOnce(Self) -> Self>(self, f: F) -> (r: Self)
        requires
            call_requires(f, (self,)),
        ensures
            call_ensures(f, (self,), r),
    ;
}

impl<T: Sized> FpForm for T {
    fn f<F: FnOnce(Self) -> Self>(self, function: F) -> (r: Self) {
        function(self)
    }

    fn to<F: FnOnce(Self) -> Self>(self, function: F) -> (r: Self) {
        function(self)
    }

    fn deal<F: FnOnce(Self) -> Self>(self, f: F) -> (r: Self) {
        f(self)
    }
}

} // verus!
