//! Prefix and suffix tests between character slices and strings.

use vstd::prelude::*;
use vstd::string::StrSliceExecFns;

verus! {

/// Whether the string `prefix` begins the character slice.
pub fn char_slice_has_prefix(slice: &[char], prefix: &str) -> (r: bool)
    ensures
        r == prefix@.is_prefix_of(slice@),
{
    let plen = prefix.unicode_len();
    if plen > slice.len() {
        return false;
    }
    let mut i: usize = 0;
    while i < plen
        invariant
            plen == prefix@.len(),
            plen <= slice@.len(),
            i <= plen,
            forall|j: int| 0 <= j < i ==> prefix@[j] == slice@[j],
        decreases plen - i,
    {
        if prefix.get_char(i) != slice[i] {
            assert(!prefix@.is_prefix_of(slice@)) by {
                assert(prefix@[i as int] != slice@.subrange(0, prefix@.len() as int)[i as int]);
            }
            return false;
        }
        i = i + 1;
    }
    assert(prefix@ =~= slice@.subrange(0, prefix@.len() as int));
    true
}

/// Whether the string `suffix` ends the character slice.
pub fn char_slice_has_suffix(slice: &[char], suffix: &str) -> (r: bool)
    ensures
        r == suffix@.is_suffix_of(slice@),
{
    let plen = suffix.unicode_len();
    if plen > slice.len() {
        return false;
    }
    let offset = slice.len() - plen;
    let mut i: usize = 0;
    while i < plen
        invariant
            plen == suffix@.len(),
            plen <= slice@.len(),
            slice@.len() <= usize::MAX,
            offset == slice@.len() - plen,
            i <= plen,
            forall|j: int| 0 <= j < i ==> suffix@[j] == slice@[offset + j],
        decreases plen - i,
    {
        if suffix.get_char(i) != slice[offset + i] {
            assert(!suffix@.is_suffix_of(slice@)) by {
                assert(suffix@[i as int] != slice@.subrange(
                    slice@.len() - suffix@.len(),
                    slice@.len() as int,
                )[i as int]);
            }
            return false;
        }
        i = i + 1;
    }
    assert(suffix@ =~= slice@.subrange(slice@.len() - suffix@.len(), slice@.len() as int));
    true
}

/// A prefix test of a string against a character slice that stops at
/// whichever of the two runs out first.
pub trait StartsWithStr {
    /// The characters the receiver holds.
    spec fn chars_view(&self) -> Seq<char>;

    /// Whether the needle and the receiver agree for as long as both
    /// last: true when either is a prefix of the other. An empty
    /// needle always passes; an empty receiver passes only an empty
    /// needle.
    fn starts_with_str(&self, needle: &str) -> (r: bool)
        ensures
            r == (needle@.len() == 0 || (self.chars_view().len() > 0 && (needle@.is_prefix_of(
                self.chars_view(),
            ) || self.chars_view().is_prefix_of(needle@)))),
    ;
}

impl StartsWithStr for [char] {
    open spec fn chars_view(&self) -> Seq<char> {
        self@
    }

    fn starts_with_str(&self, needle: &str) -> (r: bool) {
        let nlen = needle.unicode_len();
        if nlen == 0 {
            return true;
        }
        if self.len() == 0 {
            return false;
        }
        let shorter = if nlen < self.len() {
            nlen
        } else {
            self.len()
        };
        let mut i: usize = 0;
        while i < shorter
            invariant
                nlen == needle@.len(),
                nlen > 0,
                self@.len() > 0,
                shorter == (if nlen < self@.len() {
                    nlen as int
                } else {
                    self@.len() as int
                }),
                i <= shorter,
                forall|j: int| 0 <= j < i ==> needle@[j] == self@[j],
            decreases shorter - i,
        {
            if needle.get_char(i) != self[i] {
                proof {
                    if needle@.is_prefix_of(self@) {
                        assert(needle@[i as int] == self@.subrange(
                            0,
                            needle@.len() as int,
                        )[i as int]);
                    }
                    if self@.is_prefix_of(needle@) {
                        assert(self@[i as int] == needle@.subrange(0, self@.len() as int)[i as int]);
                    }
                }
                return false;
            }
            i = i + 1;
        }
        proof {
            if nlen <= self@.len() {
                assert(needle@ =~= self@.subrange(0, needle@.len() as int));
            } else {
                assert(self@ =~= needle@.subrange(0, self@.len() as int));
            }
        }
        true
    }
}

} // verus!
