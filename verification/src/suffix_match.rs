//! The paired suffix dictionary: each suffix carries an associated
//! payload, and the store is kept strictly sorted with the greatest
//! suffix first.

use core::cmp::Ordering;
use vstd::prelude::*;

use crate::lexical::{
    lemma_insert_position_keeps_reverse_order, lemma_lex_cmp_eq, lemma_lex_cmp_flip,
    lemma_lex_cmp_subject_mono, lex_cmp, lex_descending, str_compare, str_has_suffix,
};
use crate::search::{binary_search_by, ordering_rank};

verus! {

/// Position `j` holds the first entry of `input` whose suffix reads
/// `k`.
pub open spec fn first_suffix_entry<T>(input: Seq<(T, String)>, k: Seq<char>, j: int) -> bool {
    &&& 0 <= j < input.len()
    &&& input[j].1@ == k
    &&& forall|j2: int| 0 <= j2 < j ==> (#[trigger] input[j2]).1@ != k
}

/// The entry at position `i` of `d` is the first entry of `input`
/// that bears its suffix.
pub open spec fn is_first_suffix_entry_at<T>(
    d: Seq<(T, String)>,
    input: Seq<(T, String)>,
    i: int,
) -> bool {
    exists|j: int| #[trigger] first_suffix_entry(input, d[i].1@, j) && d[i] == input[j]
}

/// Every entry of `d` is the first entry of `input` that bears its
/// suffix.
pub open spec fn holds_first_suffix_entries<T>(
    d: Seq<(T, String)>,
    input: Seq<(T, String)>,
) -> bool {
    forall|i: int| 0 <= i < d.len() ==> #[trigger] is_first_suffix_entry_at(d, input, i)
}

/// A dictionary of `(payload, suffix)` entries, stored in strictly
/// descending order of the suffix.
#[derive(Debug, Clone)]
pub struct SuffixMatchDictPair<T> {
    suffixes: Vec<(T, String)>,
}

impl<T> View for SuffixMatchDictPair<T> {
    type V = Seq<(T, String)>;

    closed spec fn view(&self) -> Seq<(T, String)> {
        self.suffixes@
    }
}

impl<T> Default for SuffixMatchDictPair<T> {
    /// An empty dictionary.
    fn default() -> (d: Self)
        ensures
            d@ =~= Seq::<(T, String)>::empty(),
            d.wf(),
    {
        SuffixMatchDictPair { suffixes: Vec::new() }
    }
}

impl<T> SuffixMatchDictPair<T> {
    /// The suffixes of the entries, in storage order.
    pub open spec fn keys(&self) -> Seq<Seq<char>> {
        self@.map_values(|t: (T, String)| t.1@)
    }

    /// The store is strictly descending by suffix: sorted the long way
    /// round, with no duplicate suffix.
    pub open spec fn wf(&self) -> bool {
        lex_descending(self.keys())
    }

    /// Builds a dictionary from the given entries, inserting one at a
    /// time; an entry whose suffix is already present is dropped, so of
    /// entries sharing a suffix the first keeps its payload.
    pub fn new(suffixes: Vec<(T, String)>) -> (d: Self)
        ensures
            d.wf(),
            forall|k: Seq<char>| d.keys().contains(k) <==> suffixes@.map_values(
                |t: (T, String)| t.1@,
            ).contains(k),
            holds_first_suffix_entries(d@, suffixes@),
    {
        let ghost input = suffixes@;
        let ghost input_keys = suffixes@.map_values(|t: (T, String)| t.1@);
        let mut d = SuffixMatchDictPair { suffixes: Vec::new() };
        assert(d@ =~= Seq::<(T, String)>::empty());
        let mut rest = suffixes;
        while rest.len() > 0
            invariant
                d.wf(),
                rest@.len() <= input.len(),
                rest@ == input.skip(input.len() - rest@.len()),
                input_keys == input.map_values(|t: (T, String)| t.1@),
                forall|k: Seq<char>| d.keys().contains(k) <==> input_keys.take(
                    input.len() - rest@.len(),
                ).contains(k),
                forall|p: int| 0 <= p < d@.len() ==> exists|j: int|
                    first_suffix_entry(input, (#[trigger] d@[p]).1@, j) && j < input.len()
                        - rest@.len() && d@[p] == input[j],
            decreases rest@.len(),
        {
            let ghost i = input.len() - rest@.len();
            let ghost prev_keys = d.keys();
            let term = rest.remove(0);
            proof {
                assert(term == input.skip(i)[0]);
                assert(term == input[i]);
                assert(rest@ =~= input.skip(i + 1));
                assert(input.contains(term)) by {
                    assert(input[i] == term);
                }
            }
            let ghost v = term.1@;
            let ghost tterm = term;
            let ghost prev_view = d@;
            let inserted = d.insert(term);
            proof {
                assert(input_keys[i] == input[i].1@);
                if let Some(p) = inserted {
                    prev_view.insert_ensures(p as int, tterm);
                    prev_keys.insert_ensures(p as int, v);
                    assert(d.keys() =~= prev_keys.insert(p as int, v)) by {
                        assert forall|q: int| 0 <= q < d.keys().len() implies #[trigger] d.keys()[q]
                            == prev_keys.insert(p as int, v)[q] by {
                            if q > p {
                                assert(d@[q] == prev_view[q - 1]);
                                assert(prev_keys.insert(p as int, v)[(q - 1) + 1]
                                    == prev_keys[q - 1]);
                            }
                        }
                    }
                    crate::seq_util::lemma_insert_contains(prev_keys, p as int, v);
                    // the received entry is the first of its suffix:
                    // an earlier one would already be registered
                    assert(first_suffix_entry(input, v, i)) by {
                        assert forall|j2: int| 0 <= j2 < i implies (#[trigger] input[j2]).1@
                            != v by {
                            if input[j2].1@ == v {
                                assert(input_keys.take(i)[j2] == v);
                                assert(input_keys.take(i).contains(v));
                                assert(prev_keys.contains(v));
                            }
                        }
                    }
                    assert forall|q: int| 0 <= q < d@.len() implies exists|j: int|
                        first_suffix_entry(input, (#[trigger] d@[q]).1@, j) && j < i + 1 && d@[q]
                            == input[j] by {
                        if q == p {
                            assert(first_suffix_entry(input, d@[q].1@, i) && i < i + 1 && d@[q]
                                == input[i]);
                        } else {
                            let q0 = if q < p {
                                q
                            } else {
                                q - 1
                            };
                            assert(d@[q] == prev_view[q0]);
                        }
                    }
                }
                assert(v == input_keys[i]);
                if inserted is None {
                    assert(prev_keys.contains(v));
                }
                assert forall|k: Seq<char>| d.keys().contains(k) <==> input_keys.take(
                    i + 1,
                ).contains(k) by {
                    let tkw = input_keys.take(i + 1);
                    assert(tkw =~= input_keys.take(i).push(input_keys[i]));
                    if d.keys().contains(k) {
                        assert(prev_keys.contains(k) || k == v);
                        if prev_keys.contains(k) {
                            assert(input_keys.take(i).contains(k));
                            let p = choose|p: int|
                                0 <= p < input_keys.take(i).len() && #[trigger] input_keys.take(
                                    i,
                                )[p] == k;
                            assert(tkw[p] == k);
                        } else {
                            assert(tkw[i] == k);
                        }
                        assert(tkw.contains(k));
                    }
                    if tkw.contains(k) {
                        let p = choose|p: int| 0 <= p < tkw.len() && #[trigger] tkw[p] == k;
                        if p < i {
                            assert(input_keys.take(i)[p] == k);
                            assert(input_keys.take(i).contains(k));
                            assert(prev_keys.contains(k));
                        } else {
                            assert(k == input_keys[i]);
                        }
                        assert(d.keys().contains(k));
                    }
                }
            }
        }
        proof {
            assert(input_keys.take(input_keys.len() as int) =~= input_keys);
            assert(holds_first_suffix_entries(d@, input)) by {
                assert forall|q: int| 0 <= q < d@.len() implies is_first_suffix_entry_at(
                    d@,
                    input,
                    q,
                ) by {
                    let j = choose|j: int|
                        #[trigger] first_suffix_entry(input, d@[q].1@, j) && j < input.len()
                            - rest@.len() && d@[q] == input[j];
                    assert(first_suffix_entry(input, d@[q].1@, j) && d@[q] == input[j]);
                }
            }
        }
        d
    }

    /// The suffix half of an entry.
    pub fn suffix_ref_of(term: &(T, String)) -> (r: &String)
        ensures
            *r == term.1,
    {
        &term.1
    }

    /// The payload half of an entry.
    pub fn get_associated_from_term(term: &(T, String)) -> (r: &T)
        ensures
            *r == term.0,
    {
        &term.0
    }

    /// Assembles an entry from its suffix and its payload.
    pub fn new_suffix_term(suffix: String, associated: T) -> (r: (T, String))
        ensures
            r == (associated, suffix),
    {
        (associated, suffix)
    }

    /// Whether an entry with this exact suffix is registered.
    pub fn has(&self, suffix: &String) -> (r: bool)
        requires
            self.wf(),
        ensures
            r == self.keys().contains(suffix@),
    {
        let r = self.search(suffix.as_str());
        proof {
            match r {
                Ok(i) => {
                    assert(self.keys()[i as int] == suffix@);
                },
                Err(_) => {},
            }
        }
        r.is_ok()
    }

    /// Lower-bound search by suffix over the descending store: the
    /// position of the suffix when present, else the position at which
    /// inserting it keeps the store sorted.
    pub fn search(&self, suffix: &str) -> (r: Result<usize, usize>)
        requires
            self.wf(),
        ensures
            match r {
                Ok(i) => i < self@.len() && self.keys()[i as int] == suffix@,
                Err(i) => {
                    &&& i <= self@.len()
                    &&& !self.keys().contains(suffix@)
                    &&& forall|j: int| 0 <= j < i ==> lex_cmp(#[trigger] self.keys()[j], suffix@)
                        == Ordering::Greater
                    &&& forall|j: int|
                        i <= j < self@.len() ==> lex_cmp(#[trigger] self.keys()[j], suffix@)
                            == Ordering::Less
                },
            },
    {
        let ghost d = self@;
        let ghost ord = |t: &str, e: (T, String)| lex_cmp(e.1@, t@);
        let f = |t: &&str, e: &(T, String)| -> (o: Ordering)
            ensures
                o == lex_cmp(e.1@, t@),
            { str_compare(e.1.as_str(), *t) };
        proof {
            assert forall|i: int, j: int| 0 <= i <= j < d.len() implies ordering_rank(
                ord(suffix, d[i]),
            ) >= ordering_rank(ord(suffix, d[j])) by {
                if i < j {
                    assert(lex_cmp(self.keys()[i], self.keys()[j]) == Ordering::Greater);
                    lemma_lex_cmp_flip(self.keys()[i], self.keys()[j]);
                    lemma_lex_cmp_subject_mono(suffix@, d[j].1@, d[i].1@);
                }
            }
        }
        let r = binary_search_by(self.suffixes.as_slice(), &suffix, f, Ghost(ord));
        proof {
            match r {
                Ok(i) => {
                    assert(ord(suffix, d[i as int]) == Ordering::Equal);
                    assert(lex_cmp(d[i as int].1@, suffix@) == Ordering::Equal);
                    lemma_lex_cmp_eq(d[i as int].1@, suffix@);
                    assert(self.keys()[i as int] == d[i as int].1@);
                },
                Err(i) => {
                    assert forall|j: int| 0 <= j < i implies lex_cmp(
                        #[trigger] self.keys()[j],
                        suffix@,
                    ) == Ordering::Greater by {
                        assert(ord(suffix, d[j]) == Ordering::Greater);
                    }
                    assert forall|j: int| i <= j < self@.len() implies lex_cmp(
                        #[trigger] self.keys()[j],
                        suffix@,
                    ) == Ordering::Less by {
                        assert(ord(suffix, d[j]) == Ordering::Less);
                    }
                    assert forall|j: int| 0 <= j < self@.len() implies self.keys()[j]
                        != suffix@ by {
                        lemma_lex_cmp_eq(d[j].1@, suffix@);
                        if j < i {
                            assert(ord(suffix, d[j]) == Ordering::Greater);
                        } else {
                            assert(ord(suffix, d[j]) == Ordering::Less);
                        }
                    }
                    if self.keys().contains(suffix@) {
                        let k = choose|k: int|
                            0 <= k < self.keys().len() && #[trigger] self.keys()[k] == suffix@;
                        assert(false);
                    }
                },
            }
        }
        r
    }

    /// Inserts an entry at its sorted position and reports that
    /// position; an entry whose suffix is already present is dropped
    /// and `None` returned.
    pub fn insert(&mut self, term: (T, String)) -> (r: Option<usize>)
        requires
            old(self).wf(),
        ensures
            final (self).wf(),
            match r {
                Some(i) => {
                    &&& !old(self).keys().contains(term.1@)
                    &&& i <= old(self)@.len()
                    &&& final (self)@ == old(self)@.insert(i as int, term)
                },
                None => old(self).keys().contains(term.1@) && final (self)@ == old(self)@,
            },
    {
        let ghost pre = self@;
        let sr = self.search(term.1.as_str());
        match sr {
            Ok(i) => {
                proof {
                    assert(old(self).keys().contains(term.1@)) by {
                        assert(self.keys()[i as int] == term.1@);
                    }
                }
                None
            },
            Err(index) => {
                let ghost v = term.1@;
                self.suffixes.insert(index, term);
                proof {
                    assert(self@ =~= pre.insert(index as int, term));
                    let ghost pre_keys = pre.map_values(|t: (T, String)| t.1@);
                    pre.insert_ensures(index as int, term);
                    pre_keys.insert_ensures(index as int, v);
                    assert(self.keys() =~= pre_keys.insert(index as int, v)) by {
                        assert forall|q: int| 0 <= q < self.keys().len() implies #[trigger] self.keys()[q]
                            == pre_keys.insert(index as int, v)[q] by {
                            if q > index {
                                assert(self@[q] == pre[q - 1]);
                                assert(pre_keys.insert(index as int, v)[(q - 1) + 1]
                                    == pre_keys[q - 1]);
                            }
                        }
                    }
                    assert forall|j: int|
                        index <= j < pre_keys.len() implies lex_cmp(
                        v,
                        #[trigger] pre_keys[j],
                    ) == Ordering::Greater by {
                        lemma_lex_cmp_flip(pre_keys[j], v);
                    }
                    lemma_insert_position_keeps_reverse_order(pre_keys, v, index as int);
                }
                Some(index)
            },
        }
    }

    /// The entries in matching order: greatest suffix first, which is
    /// the storage order.
    pub fn iter_terms(&self) -> (r: &Vec<(T, String)>)
        ensures
            r@ == self@,
    {
        &self.suffixes
    }

    /// The first entry whose suffix ends the candidate: the entry with
    /// the greatest such suffix in the sort order. Of two matching
    /// suffixes where one extends the other at the front this is the
    /// longer one; matching suffixes with no such relation are told
    /// apart by the sort order alone, not by length.
    pub fn match_suffix<'a>(&'a self, to_match: &str) -> (r: Option<&'a (T, String)>)
        requires
            self.wf(),
        ensures
            match r {
                Some(s) => {
                    &&& self@.contains(*s)
                    &&& s.1@.is_suffix_of(to_match@)
                    &&& forall|k: int|
                        0 <= k < self@.len() && (#[trigger] self@[k].1@).is_suffix_of(to_match@)
                            ==> self@[k].1@ == s.1@ || lex_cmp(self@[k].1@, s.1@) == Ordering::Less
                },
                None => forall|k: int|
                    0 <= k < self@.len() ==> !(#[trigger] self@[k].1@).is_suffix_of(to_match@),
            },
    {
        let n = self.suffixes.len();
        let mut i: usize = 0;
        while i < n
            invariant
                self.wf(),
                n == self@.len(),
                i <= n,
                forall|k: int| 0 <= k < i ==> !(#[trigger] self@[k].1@).is_suffix_of(to_match@),
            decreases n - i,
        {
            if str_has_suffix(to_match, self.suffixes[i].1.as_str()) {
                proof {
                    assert(self@.contains(self@[i as int]));
                    assert forall|k: int|
                        0 <= k < n && (#[trigger] self@[k].1@).is_suffix_of(
                            to_match@,
                        ) implies self@[k].1@ == self@[i as int].1@ || lex_cmp(
                        self@[k].1@,
                        self@[i as int].1@,
                    ) == Ordering::Less by {
                        if k > i {
                            assert(lex_cmp(self.keys()[i as int], self.keys()[k])
                                == Ordering::Greater);
                            lemma_lex_cmp_flip(self.keys()[k], self.keys()[i as int]);
                        }
                    }
                }
                return Some(&self.suffixes[i]);
            }
            i = i + 1;
        }
        None
    }
}

} // verus!
