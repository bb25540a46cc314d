//! Accepting a reference or an optional reference through one
//! parameter: a plain reference arrives as if wrapped in `Some`.

use vstd::prelude::*;

verus! {

/// A value usable as an optional shared reference.
pub trait OrSomeRef<T>: Sized {
    /// The optional value the receiver stands for.
    spec fn some_ref_spec(self) -> Option<T>;

    /// The receiver as an optional shared reference.
    fn or_some_ref<'a>(self) -> (r: Option<&'a T>) where Self: 'a
        ensures
            r matches Some(x) ==> self.some_ref_spec() == Some(*x),
            r is None ==> self.some_ref_spec() is None,
    ;
}

impl<'b, T> OrSomeRef<T> for &'b T {
    open spec fn some_ref_spec(self) -> Option<T> {
        Some(*self)
    }

    fn or_some_ref<'a>(self) -> (r: Option<&'a T>) where Self: 'a {
        Some(self)
    }
}

impl<'b, T> OrSomeRef<T> for Option<&'b T> {
    open spec fn some_ref_spec(self) -> Option<T> {
        match self {
            Some(x) => Some(*x),
            None => None,
        }
    }

    fn or_some_ref<'a>(self) -> (r: Option<&'a T>) where Self: 'a {
        self
    }
}

impl<'b, T> OrSomeRef<T> for &'b mut T {
    open spec fn some_ref_spec(self) -> Option<T> {
        Some(*self)
    }

    fn or_some_ref<'a>(self) -> (r: Option<&'a T>) where Self: 'a {
        Some(self)
    }
}

impl<'b, T> OrSomeRef<T> for Option<&'b mut T> {
    open spec fn some_ref_spec(self) -> Option<T> {
        match self {
            Some(x) => Some(*x),
            None => None,
        }
    }

    fn or_some_ref<'a>(self) -> (r: Option<&'a T>) where Self: 'a {
        match self {
            Some(x) => Some(x),
            None => None,
        }
    }
}

/// A value usable as an optional exclusive reference.
pub trait OrSomeMut<T>: OrSomeRef<T> {
    /// The receiver as an optional exclusive reference.
    fn or_some_mut<'a>(self) -> (r: Option<&'a mut T>) where Self: 'a;
}

impl<'b, T> OrSomeMut<T> for &'b mut T {
    fn or_some_mut<'a>(self) -> (r: Option<&'a mut T>) where Self: 'a
        ensures
            r matches Some(x) && *x == *old(self) && *final (self) == *final (x),
    {
        Some(self)
    }
}

impl<'b, T> OrSomeMut<T> for Option<&'b mut T> {
    fn or_some_mut<'a>(self) -> (r: Option<&'a mut T>) where Self: 'a
        ensures
            r == self,
    {
        self
    }
}

} // verus!
