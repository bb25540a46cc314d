//! Quick conversions of `Result` values: mapping the error to another
//! type and swapping the two sides.

use vstd::prelude::*;

verus! {

/// Conversions on `Result`.
pub trait ResultTransform<T, E>: Sized {
    /// The result the receiver stands for.
    spec fn as_result(self) -> Result<T, E>;

    /// Maps the error through `transformer`, keeping the success as it
    /// is.
    fn transform_err<E2, F: FnOnce(E) -> E2>(self, transformer: F) -> (r: Result<T, E2>)
        requires
            self.as_result() matches Err(e) ==> call_requires(transformer, (e,)),
        ensures
            self.as_result() matches Ok(t) ==> (r matches Ok(t2) && t2 == t),
            self.as_result() matches Err(e) ==> (r matches Err(e2) && call_ensures(transformer, (e,), e2)),
    ;

    /// Swaps the success and the error, leaving the held value as it
    /// is.
    fn flip(self) -> (r: Result<E, T>)
        ensures
            self.as_result() matches Ok(t) ==> r == Result::<E, T>::Err(t),
            self.as_result() matches Err(e) ==> r == Result::<E, T>::Ok(e),
    ;
}

impl<T, E> ResultTransform<T, E> for Result<T, E> {
    open spec fn as_result(self) -> Result<T, E> {
        self
    }

    fn transform_err<E2, F: FnOnce(E) -> E2>(self, transformer: F) -> (r: Result<T, E2>) {
        match self {
            Err(old_error) => Err(transformer(old_error)),
            Ok(v) => Ok(v),
        }
    }

    fn flip(self) -> (r: Result<E, T>) {
        match self {
            Ok(v) => Err(v),
            Err(v) => Ok(v),
        }
    }
}

/// The one operation on a `Result` whose two sides have one type.
pub trait ResultTransformSingular<TorE> {
    /// The held value, from whichever side holds it.
    fn collapse(self) -> (r: TorE) where Self: Sized;
}

impl<T> ResultTransformSingular<T> for Result<T, T> {
    fn collapse(self) -> (r: T)
        ensures
            self matches Ok(v) ==> r == v,
            self matches Err(v) ==> r == v,
    {
        match self {
            Ok(v) => v,
            Err(v) => v,
        }
    }
}

} // verus!
