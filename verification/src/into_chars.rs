//! Turning a string into the vector of its characters, taking
//! ownership of the string.

use vstd::prelude::*;
use vstd::string::StrSliceExecFns;

verus! {

/// Conversion of a string-like value into its characters.
pub trait IntoChars: Sized {
    /// The characters the value stands for.
    spec fn chars_spec(&self) -> Seq<char>;

    /// The characters, in order, as an owned vector.
    fn into_chars(self) -> (r: Vec<char>)
        ensures
            r@ == self.chars_spec(),
    ;
}

impl IntoChars for String {
    open spec fn chars_spec(&self) -> Seq<char> {
        self@
    }

    fn into_chars(self) -> (r: Vec<char>) {
        chars_of(self.as_str())
    }
}

impl<'a> IntoChars for &'a str {
    open spec fn chars_spec(&self) -> Seq<char> {
        self@
    }

    fn into_chars(self) -> (r: Vec<char>) {
        chars_of(self)
    }
}

/// The characters of a string slice, in order.
fn chars_of(s: &str) -> (r: Vec<char>)
    ensures
        r@ == s@,
{
    let n = s.unicode_len();
    let mut r: Vec<char> = Vec::new();
    let mut i: usize = 0;
    while i < n
        invariant
            n == s@.len(),
            i <= n,
            r@ == s@.take(i as int),
        decreases n - i,
    {
        r.push(s.get_char(i));
        proof {
            assert(r@ =~= s@.take(i + 1));
        }
        i = i + 1;
    }
    proof {
        assert(s@.take(n as int) =~= s@);
    }
    r
}

} // verus!
