//! Conveniences for `Option` and `Result`: inspection, mapping with a
//! fallback, coalescing, error mapping, and flipping.

use vstd::prelude::*;

verus! {

/// Extra operations on `Option`.
pub trait OptionBoost<T>: Sized {
    /// The option the receiver stands for.
    spec fn as_option(self) -> Option<T>;

    /// Runs the handler when the option is empty, and returns the
    /// option as it was.
    fn inspect_none<F: FnOnce()>(self, none_handler: F) -> (r: Self) where Self: Sized
        requires
            call_requires(none_handler, ()),
        ensures
            r == self,
    ;

    /// Discards whatever the option holds.
    fn none(self) -> (r: Self)
        ensures
            r.as_option() is None,
    ;

    /// Maps the held value through `f`, or returns the default when
    /// there is none.
    fn map_unwrap_or<U, F: FnOnce(T) -> U>(self, f: F, default: U) -> (r: U)
        requires
            self.as_option() matches Some(t) ==> call_requires(f, (t,)),
        ensures
            self.as_option() matches Some(t) ==> call_ensures(f, (t,), r),
            self.as_option() is None ==> r == default,
    ;

    /// Fills an empty option from another, generating the stored value
    /// from the other's by `f`; an option already holding a value, and
    /// one merged with an empty other, are left alone.
    fn coalesce<F: FnOnce(&T) -> T>(&mut self, other: &Self, f: F)
        requires
            old(self).as_option() is None ==> (other.as_option() matches Some(v)
                ==> call_requires(f, (&v,))),
        ensures
            old(self).as_option() is Some ==> *final (self) == *old(self),
            other.as_option() is None ==> *final (self) == *old(self),
            old(self).as_option() is None ==> (other.as_option() matches Some(v)
                ==> (final (self).as_option() matches Some(w) && call_ensures(f, (&v,), w))),
    ;

    /// Fills an empty option with a clone of another's value.
    fn coalesce_clone(&mut self, other: &Self) where T: Clone
        ensures
            old(self).as_option() is Some ==> *final (self) == *old(self),
            other.as_option() is None ==> *final (self) == *old(self),
            old(self).as_option() is None ==> (other.as_option() is Some
                ==> final (self).as_option() is Some),
    ;
}

impl<T> OptionBoost<T> for Option<T> {
    open spec fn as_option(self) -> Option<T> {
        self
    }

    fn inspect_none<F: FnOnce()>(self, none_handler: F) -> (r: Self) {
        if self.is_none() {
            none_handler()
        }
        self
    }

    fn none(self) -> (r: Self) {
        None
    }

    fn map_unwrap_or<U, F: FnOnce(T) -> U>(self, f: F, default: U) -> (r: U) {
        match self {
            Some(t) => f(t),
            None => default,
        }
    }

    fn coalesce<F: FnOnce(&T) -> T>(&mut self, other: &Self, f: F) {
        if self.is_none() {
            match other {
                Some(v) => {
                    *self = Some(f(v));
                },
                None => {},
            }
        }
    }

    fn coalesce_clone(&mut self, other: &Self) where T: Clone {
        if self.is_none() {
            match other {
                Some(v) => {
                    *self = Some(T::clone(v));
                },
                None => {},
            }
        }
    }
}

/// Extra operations on `Result`.
pub trait ResultBoost<T, E>: Sized {
    /// The result the receiver stands for.
    spec fn as_result(self) -> Result<T, E>;

    /// Maps the success and the error through their own functions.
    fn transform<T2, E2, F1: FnOnce(T) -> T2, F2: FnOnce(E) -> E2>(
        self,
        transformer_ok: F1,
        transformer_err: F2,
    ) -> (r: Result<T2, E2>)
        requires
            self.as_result() matches Ok(t) ==> call_requires(transformer_ok, (t,)),
            self.as_result() matches Err(e) ==> call_requires(transformer_err, (e,)),
        ensures
            self.as_result() matches Ok(t) ==> (r matches Ok(t2) && call_ensures(transformer_ok, (t,), t2)),
            self.as_result() matches Err(e) ==> (r matches Err(e2) && call_ensures(transformer_err, (e,), e2)),
    ;

    /// Maps the error through `f`, keeping the success as it is.
    fn transform_err<E2, F: FnOnce(E) -> E2>(self, transformer: F) -> (r: Result<T, E2>)
        requires
            self.as_result() matches Err(e) ==> call_requires(transformer, (e,)),
        ensures
            self.as_result() matches Ok(t) ==> (r matches Ok(t2) && t2 == t),
            self.as_result() matches Err(e) ==> (r matches Err(e2) && call_ensures(transformer, (e,), e2)),
    ;

    /// Renders the error with its debugging format, keeping the
    /// success as it is.
    fn transform_err_debug(self) -> (r: Result<T, String>) where E: core::fmt::Debug
        ensures
            self.as_result() matches Ok(t) ==> (r matches Ok(t2) && t2 == t),
            self.as_result() is Err ==> r is Err,
    ;

    /// Renders the error with its display format, keeping the success
    /// as it is.
    fn transform_err_string(self) -> (r: Result<T, String>) where E: std::string::ToString
        ensures
            self.as_result() matches Ok(t) ==> (r matches Ok(t2) && t2 == t),
            self.as_result() is Err ==> r is Err,
    ;

    /// Swaps the success and the error.
    fn flip(self) -> (r: Result<E, T>)
        ensures
            self.as_result() matches Ok(t) ==> r == Result::<E, T>::Err(t),
            self.as_result() matches Err(e) ==> r == Result::<E, T>::Ok(e),
    ;

    /// The success, if any; an error is handed to `f` and nothing
    /// returned.
    fn ok_or_run<F: FnOnce(E)>(self, f: F) -> (r: Option<T>)
        requires
            self.as_result() matches Err(e) ==> call_requires(f, (e,)),
        ensures
            self.as_result() matches Ok(t) ==> r == Some(t),
            self.as_result() is Err ==> r is None,
    ;
}

impl<T, E> ResultBoost<T, E> for Result<T, E> {
    open spec fn as_result(self) -> Result<T, E> {
        self
    }

    fn transform<T2, E2, F1: FnOnce(T) -> T2, F2: FnOnce(E) -> E2>(
        self,
        transformer_ok: F1,
        transformer_err: F2,
    ) -> (r: Result<T2, E2>) {
        match self {
            Ok(ok) => Ok(transformer_ok(ok)),
            Err(err) => Err(transformer_err(err)),
        }
    }

    fn transform_err<E2, F: FnOnce(E) -> E2>(self, transformer: F) -> (r: Result<T, E2>) {
        match self {
            Err(old_error) => Err(transformer(old_error)),
            Ok(v) => Ok(v),
        }
    }

    fn transform_err_debug(self) -> (r: Result<T, String>) where E: core::fmt::Debug {
        match self {
            Err(old_error) => Err(debug_string(&old_error)),
            Ok(v) => Ok(v),
        }
    }

    fn transform_err_string(self) -> (r: Result<T, String>) where E: std::string::ToString {
        match self {
            Err(old_error) => Err(to_string_of(&old_error)),
            Ok(v) => Ok(v),
        }
    }

    fn flip(self) -> (r: Result<E, T>) {
        match self {
            Ok(v) => Err(v),
            Err(v) => Ok(v),
        }
    }

    fn ok_or_run<F: FnOnce(E)>(self, f: F) -> (r: Option<T>) {
        match self {
            Ok(v) => Some(v),
            Err(e) => {
                f(e);
                None
            },
        }
    }
}

/// Extra operations on a `Result` whose two sides have one type.
pub trait ResultBoostSingular<TorE> {
    /// The held value, from whichever side holds it.
    fn collapse(self) -> (r: TorE) where Self: Sized;
}

impl<T> ResultBoostSingular<T> for Result<T, T> {
    fn collapse(self) -> (r: T)
        ensures
            self matches Ok(v) ==> r == v,
            self matches Err(v) ==> r == v,
    {
        match self {
            Ok(v) => v,
            Err(v) => v,
        }
    }
}

/// Relies on the `format!` macro over `Debug`: renders any value that
/// can describe itself for debugging.
#[verifier::external_body]
pub(crate) fn debug_string<T: core::fmt::Debug>(t: &T) -> String {
    format!("{t:?}")
}

/// Relies on `ToString::to_string`: renders any value that can display
/// itself.
#[verifier::external_body]
pub(crate) fn to_string_of<T: std::string::ToString>(t: &T) -> String {
    t.to_string()
}

} // verus!
