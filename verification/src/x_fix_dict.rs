//! The plain affix dictionary: a sorted, duplicate-free store of affix
//! strings, matched longest-first against the head or the tail of a
//! candidate string.

use core::cmp::Ordering;
use vstd::prelude::*;

use crate::lexical::{
    lemma_insert_position_keeps_order, lemma_lex_cmp_eq, lemma_lex_cmp_flip,
    lemma_lex_cmp_probe_mono, lemma_prefix_order_is_length_order, lex_ascending, lex_cmp,
    str_compare, str_has_prefix, str_has_suffix,
};
use crate::search::{binary_search_by, ordering_rank};

verus! {

/// A dictionary of affixes, kept strictly sorted in ascending
/// lexicographic order. Matching walks the store from the greatest
/// entry down, so that of two affixes where one extends the other the
/// longer is tried first.
#[derive(Debug, Clone)]
pub struct XFixMatchDict {
    x_fixes: Vec<String>,
}

/// The dictionary used for prefix matching.
pub type PrefixMatchDict = XFixMatchDict;

/// The dictionary used for suffix matching.
pub type SuffixMatchDict = XFixMatchDict;

impl View for XFixMatchDict {
    type V = Seq<Seq<char>>;

    closed spec fn view(&self) -> Seq<Seq<char>> {
        self.x_fixes@.map_values(|s: String| s@)
    }
}

impl Default for XFixMatchDict {
    /// An empty dictionary.
    fn default() -> (d: Self)
        ensures
            d@ =~= Seq::<Seq<char>>::empty(),
            d.wf(),
    {
        XFixMatchDict { x_fixes: Vec::new() }
    }
}

impl XFixMatchDict {
    /// The store is strictly ascending: sorted, with no duplicate affix.
    pub open spec fn wf(&self) -> bool {
        lex_ascending(self@)
    }

    /// Builds a dictionary from the given affixes, inserting one at a
    /// time; duplicates collapse into one entry.
    pub fn new(x_fixes: Vec<String>) -> (d: Self)
        ensures
            d.wf(),
            forall|s: Seq<char>| d@.contains(s) <==> x_fixes@.map_values(|x: String| x@).contains(
                s,
            ),
    {
        let ghost input = x_fixes@.map_values(|x: String| x@);
        let mut d = XFixMatchDict { x_fixes: Vec::new() };
        assert(d@ =~= Seq::<Seq<char>>::empty());
        let mut i: usize = 0;
        while i < x_fixes.len()
            invariant
                d.wf(),
                i <= x_fixes@.len(),
                input == x_fixes@.map_values(|x: String| x@),
                forall|s: Seq<char>| d@.contains(s) <==> input.take(i as int).contains(s),
            decreases x_fixes@.len() - i,
        {
            let ghost prev = d@;
            d.insert(x_fixes[i].clone());
            proof {
                assert(input[i as int] == x_fixes@[i as int]@);
                assert forall|s: Seq<char>| d@.contains(s) <==> input.take(
                    i + 1,
                ).contains(s) by {
                    assert(input.take(i + 1) =~= input.take(i as int).push(input[i as int]));
                    if input.take(i as int).contains(s) || s == input[i as int] {
                        assert(input.take(i + 1).contains(s)) by {
                            if s == input[i as int] {
                                assert(input.take(i + 1)[i as int] == s);
                            } else {
                                let k = choose|k: int|
                                    0 <= k < input.take(i as int).len() && input.take(
                                        i as int,
                                    )[k] == s;
                                assert(input.take(i + 1)[k] == s);
                            }
                        }
                    }
                    if input.take(i + 1).contains(s) {
                        let k = choose|k: int|
                            0 <= k < input.take(i + 1).len() && #[trigger] input.take(i + 1)[k]
                                == s;
                        if k < i {
                            assert(input.take(i as int)[k] == s);
                        }
                    }
                }
            }
            i = i + 1;
        }
        proof {
            assert(input.take(input.len() as int) =~= input);
        }
        d
    }

    /// Whether the exact affix is registered.
    pub fn has(&self, x_fix: &String) -> (r: bool)
        requires
            self.wf(),
        ensures
            r == self@.contains(x_fix@),
    {
        let r = self.search(x_fix);
        proof {
            match r {
                Ok(i) => {
                    assert(self@[i as int] == x_fix@);
                },
                Err(_) => {
                    if self@.contains(x_fix@) {
                        let k = choose|k: int| 0 <= k < self@.len() && self@[k] == x_fix@;
                        lemma_lex_cmp_eq(self@[k], x_fix@);
                    }
                },
            }
        }
        r.is_ok()
    }

    /// Lower-bound search: the position of the affix when present, else
    /// the position at which inserting it keeps the store sorted.
    pub fn search(&self, x_fix: &String) -> (r: Result<usize, usize>)
        requires
            self.wf(),
        ensures
            match r {
                Ok(i) => i < self@.len() && self@[i as int] == x_fix@,
                Err(i) => {
                    &&& i <= self@.len()
                    &&& !self@.contains(x_fix@)
                    &&& forall|j: int| 0 <= j < i ==> lex_cmp(#[trigger] self@[j], x_fix@)
                        == Ordering::Less
                    &&& forall|j: int| i <= j < self@.len() ==> lex_cmp(x_fix@, #[trigger] self@[j])
                        == Ordering::Less
                },
            },
    {
        let ghost ord = |t: String, e: String| lex_cmp(t@, e@);
        let f = |t: &String, e: &String| -> (o: Ordering)
            ensures
                o == lex_cmp(t@, e@),
            { str_compare(t.as_str(), e.as_str()) };
        proof {
            assert forall|i: int, j: int| 0 <= i <= j < self.x_fixes@.len() implies ordering_rank(
                ord(*x_fix, self.x_fixes@[i]),
            ) >= ordering_rank(ord(*x_fix, self.x_fixes@[j])) by {
                if i < j {
                    assert(lex_cmp(self@[i], self@[j]) == Ordering::Less);
                    lemma_lex_cmp_probe_mono(x_fix@, self.x_fixes@[i]@, self.x_fixes@[j]@);
                }
            }
        }
        let r = binary_search_by(self.x_fixes.as_slice(), x_fix, f, Ghost(ord));
        proof {
            assert forall|j: int| 0 <= j < self@.len() implies self@[j]
                == self.x_fixes@[j]@ by {}
            match r {
                Ok(i) => {
                    assert(ord(*x_fix, self.x_fixes@[i as int]) == Ordering::Equal);
                    assert(lex_cmp(x_fix@, self@[i as int]) == Ordering::Equal);
                    lemma_lex_cmp_eq(x_fix@, self@[i as int]);
                },
                Err(i) => {
                    assert forall|j: int| 0 <= j < i implies lex_cmp(self@[j], x_fix@)
                        == Ordering::Less by {
                        assert(ord(*x_fix, self.x_fixes@[j]) == Ordering::Greater);
                        lemma_lex_cmp_flip(x_fix@, self@[j]);
                    }
                    assert forall|j: int| i <= j < self@.len() implies lex_cmp(x_fix@, self@[j])
                        == Ordering::Less by {
                        assert(ord(*x_fix, self.x_fixes@[j]) == Ordering::Less);
                    }
                    assert forall|j: int| 0 <= j < self@.len() implies self@[j] != x_fix@ by {
                        lemma_lex_cmp_eq(x_fix@, self@[j]);
                        if j < i {
                            assert(ord(*x_fix, self.x_fixes@[j]) == Ordering::Greater);
                        } else {
                            assert(ord(*x_fix, self.x_fixes@[j]) == Ordering::Less);
                        }
                    }
                },
            }
        }
        r
    }

    /// Inserts an affix at its sorted position; an affix already present
    /// is left alone.
    pub fn insert(&mut self, x_fix: String)
        requires
            old(self).wf(),
        ensures
            final (self).wf(),
            final (self)@.contains(x_fix@),
            old(self)@.contains(x_fix@) ==> final (self)@ == old(self)@,
            forall|s: Seq<char>| old(self)@.contains(s) ==> final (self)@.contains(s),
            forall|s: Seq<char>| final (self)@.contains(s) ==> s == x_fix@ || old(
                self,
            )@.contains(s),
    {
        let ghost pre = self@;
        match self.search(&x_fix) {
            Ok(i) => {
                proof {
                    assert(pre.contains(x_fix@)) by {
                        assert(pre[i as int] == x_fix@);
                    }
                }
            },
            Err(index) => {
                let ghost v = x_fix@;
                self.x_fixes.insert(index, x_fix);
                proof {
                    assert(self@ =~= pre.insert(index as int, v));
                    lemma_insert_position_keeps_order(pre, v, index as int);
                    assert(self@.contains(v)) by {
                        assert(self@[index as int] == v);
                    }
                    assert forall|s: Seq<char>| pre.contains(s) implies self@.contains(s) by {
                        let k = choose|k: int| 0 <= k < pre.len() && pre[k] == s;
                        if k < index {
                            assert(self@[k] == s);
                        } else {
                            assert(self@[k + 1] == s);
                        }
                    }
                    assert forall|s: Seq<char>| self@.contains(s) implies s == v
                        || pre.contains(s) by {
                        let k = choose|k: int| 0 <= k < self@.len() && self@[k] == s;
                        if k < index {
                            assert(pre[k] == s);
                        } else if k > index {
                            assert(pre[k - 1] == s);
                        }
                    }
                }
            },
        }
    }

    /// The affixes in matching order: greatest first, so that longer
    /// affixes come before the shorter ones they extend.
    pub fn iter_x_fixes(&self) -> (r: Vec<String>)
        ensures
            r@.len() == self@.len(),
            forall|i: int| 0 <= i < r@.len() ==> (#[trigger] r@[i])@ == self@[self@.len() - 1 - i],
    {
        let mut r: Vec<String> = Vec::new();
        let mut i: usize = self.x_fixes.len();
        while i > 0
            invariant
                i <= self.x_fixes@.len(),
                r@.len() == self.x_fixes@.len() - i,
                forall|k: int| 0 <= k < r@.len() ==> (#[trigger] r@[k])@ == self@[self@.len() - 1
                    - k],
            decreases i,
        {
            i = i - 1;
            r.push(self.x_fixes[i].clone());
        }
        r
    }

    /// The greatest registered affix that is a prefix of the candidate:
    /// by the sort order, the longest such affix. The empty affix, if
    /// registered, matches every candidate and is tried last.
    pub fn match_prefix<'a>(&'a self, to_match: &str) -> (r: Option<&'a String>)
        requires
            self.wf(),
        ensures
            match r {
                Some(s) => {
                    &&& self@.contains(s@)
                    &&& s@.is_prefix_of(to_match@)
                    &&& forall|k: int|
                        0 <= k < self@.len() && (#[trigger] self@[k]).is_prefix_of(to_match@)
                            ==> self@[k].len() <= s@.len()
                },
                None => forall|k: int|
                    0 <= k < self@.len() ==> !(#[trigger] self@[k]).is_prefix_of(to_match@),
            },
    {
        let n = self.x_fixes.len();
        let mut i: usize = n;
        while i > 0
            invariant
                self.wf(),
                n == self@.len(),
                i <= n,
                forall|k: int| i <= k < n ==> !(#[trigger] self@[k]).is_prefix_of(to_match@),
            decreases i,
        {
            i = i - 1;
            if str_has_prefix(to_match, self.x_fixes[i].as_str()) {
                proof {
                    assert(self@.contains(self@[i as int])) by {
                        assert(self@[i as int] == self@[i as int]);
                    }
                    assert forall|k: int|
                        0 <= k < n && (#[trigger] self@[k]).is_prefix_of(
                            to_match@,
                        ) implies self@[k].len() <= self@[i as int].len() by {
                        if k < i {
                            lemma_prefix_order_is_length_order(self@[k], self@[i as int], to_match@);
                        }
                    }
                }
                return Some(&self.x_fixes[i]);
            }
        }
        None
    }

    /// The greatest registered affix that is a suffix of the candidate.
    /// Of two matching affixes where one extends the other at the front
    /// this is the longer one; matching affixes with no such relation
    /// are told apart by the sort order alone, not by length.
    pub fn match_suffix<'a>(&'a self, to_match: &str) -> (r: Option<&'a String>)
        requires
            self.wf(),
        ensures
            match r {
                Some(s) => {
                    &&& self@.contains(s@)
                    &&& s@.is_suffix_of(to_match@)
                    &&& forall|k: int|
                        0 <= k < self@.len() && (#[trigger] self@[k]).is_suffix_of(to_match@)
                            ==> self@[k] == s@ || lex_cmp(self@[k], s@) == Ordering::Less
                },
                None => forall|k: int|
                    0 <= k < self@.len() ==> !(#[trigger] self@[k]).is_suffix_of(to_match@),
            },
    {
        let n = self.x_fixes.len();
        let mut i: usize = n;
        while i > 0
            invariant
                self.wf(),
                n == self@.len(),
                i <= n,
                forall|k: int| i <= k < n ==> !(#[trigger] self@[k]).is_suffix_of(to_match@),
            decreases i,
        {
            i = i - 1;
            if str_has_suffix(to_match, self.x_fixes[i].as_str()) {
                proof {
                    assert(self@.contains(self@[i as int])) by {
                        assert(self@[i as int] == self@[i as int]);
                    }
                }
                return Some(&self.x_fixes[i]);
            }
        }
        None
    }
}

} // verus!
