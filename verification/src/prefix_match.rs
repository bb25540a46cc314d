//! The paired prefix dictionary: each prefix carries an associated
//! payload, and the store is kept strictly sorted with the greatest
//! prefix first, so that a front-to-back scan tries longer prefixes
//! before the shorter ones they extend.

use core::cmp::Ordering;
use vstd::prelude::*;

use crate::lexical::{
    lemma_insert_position_keeps_reverse_order, lemma_lex_cmp_eq, lemma_lex_cmp_flip,
    lemma_lex_cmp_subject_mono, lemma_prefix_order_is_length_order, lex_cmp, lex_descending,
    str_compare, str_has_prefix,
};
use crate::search::{binary_search_by, ordering_rank};

verus! {

/// Position `j` holds the first entry of `input` whose prefix reads
/// `k`.
pub open spec fn first_prefix_entry<T>(input: Seq<(String, T)>, k: Seq<char>, j: int) -> bool {
    &&& 0 <= j < input.len()
    &&& input[j].0@ == k
    &&& forall|j2: int| 0 <= j2 < j ==> (#[trigger] input[j2]).0@ != k
}

/// The entry at position `i` of `d` is the first entry of `input`
/// that bears its prefix.
pub open spec fn is_first_prefix_entry_at<T>(
    d: Seq<(String, T)>,
    input: Seq<(String, T)>,
    i: int,
) -> bool {
    exists|j: int| #[trigger] first_prefix_entry(input, d[i].0@, j) && d[i] == input[j]
}

/// Every entry of `d` is the first entry of `input` that bears its
/// prefix.
pub open spec fn holds_first_prefix_entries<T>(
    d: Seq<(String, T)>,
    input: Seq<(String, T)>,
) -> bool {
    forall|i: int| 0 <= i < d.len() ==> #[trigger] is_first_prefix_entry_at(d, input, i)
}

/// A dictionary of `(prefix, payload)` entries, stored in strictly
/// descending order of the prefix.
#[derive(Debug, Clone)]
pub struct PrefixMatchDictPair<T> {
    prefixes: Vec<(String, T)>,
}

impl<T> View for PrefixMatchDictPair<T> {
    type V = Seq<(String, T)>;

    closed spec fn view(&self) -> Seq<(String, T)> {
        self.prefixes@
    }
}

impl<T> Default for PrefixMatchDictPair<T> {
    /// An empty dictionary.
    fn default() -> (d: Self)
        ensures
            d@ =~= Seq::<(String, T)>::empty(),
            d.wf(),
    {
        PrefixMatchDictPair { prefixes: Vec::new() }
    }
}

impl<T> PrefixMatchDictPair<T> {
    /// The prefixes of the entries, in storage order.
    pub open spec fn keys(&self) -> Seq<Seq<char>> {
        self@.map_values(|t: (String, T)| t.0@)
    }

    /// The store is strictly descending by prefix: sorted the long way
    /// round, with no duplicate prefix.
    pub open spec fn wf(&self) -> bool {
        lex_descending(self.keys())
    }

    /// Builds a dictionary from the given entries, inserting one at a
    /// time; an entry whose prefix is already present is dropped, so of
    /// entries sharing a prefix the first keeps its payload.
    pub fn new(prefixes: Vec<(String, T)>) -> (d: Self)
        ensures
            d.wf(),
            forall|k: Seq<char>| d.keys().contains(k) <==> prefixes@.map_values(
                |t: (String, T)| t.0@,
            ).contains(k),
            holds_first_prefix_entries(d@, prefixes@),
    {
        let ghost input = prefixes@;
        let ghost input_keys = prefixes@.map_values(|t: (String, T)| t.0@);
        let mut d = PrefixMatchDictPair { prefixes: Vec::new() };
        assert(d@ =~= Seq::<(String, T)>::empty());
        let mut rest = prefixes;
        while rest.len() > 0
            invariant
                d.wf(),
                rest@.len() <= input.len(),
                rest@ == input.skip(input.len() - rest@.len()),
                input_keys == input.map_values(|t: (String, T)| t.0@),
                forall|k: Seq<char>| d.keys().contains(k) <==> input_keys.take(
                    input.len() - rest@.len(),
                ).contains(k),
                forall|p: int| 0 <= p < d@.len() ==> exists|j: int|
                    first_prefix_entry(input, (#[trigger] d@[p]).0@, j) && j < input.len()
                        - rest@.len() && d@[p] == input[j],
            decreases rest@.len(),
        {
            let ghost i = input.len() - rest@.len();
            let ghost prev_keys = d.keys();
            let term = rest.remove(0);
            proof {
                assert(term == input.skip(i)[0]);
                assert(term == input[i]);
                assert(rest@ =~= input.skip(i + 1));
                assert(input.contains(term)) by {
                    assert(input[i] == term);
                }
            }
            let ghost v = term.0@;
            let ghost tterm = term;
            let ghost prev_view = d@;
            let inserted = d.insert(term);
            proof {
                assert(input_keys[i] == input[i].0@);
                if let Some(p) = inserted {
                    prev_view.insert_ensures(p as int, tterm);
                    prev_keys.insert_ensures(p as int, v);
                    assert(d.keys() =~= prev_keys.insert(p as int, v)) by {
                        assert forall|q: int| 0 <= q < d.keys().len() implies #[trigger] d.keys()[q]
                            == prev_keys.insert(p as int, v)[q] by {
                            if q > p {
                                assert(d@[q] == prev_view[q - 1]);
                                assert(prev_keys.insert(p as int, v)[(q - 1) + 1]
                                    == prev_keys[q - 1]);
                            }
                        }
                    }
                    crate::seq_util::lemma_insert_contains(prev_keys, p as int, v);
                    // the received entry is the first of its prefix:
                    // an earlier one would already be registered
                    assert(first_prefix_entry(input, v, i)) by {
                        assert forall|j2: int| 0 <= j2 < i implies (#[trigger] input[j2]).0@
                            != v by {
                            if input[j2].0@ == v {
                                assert(input_keys.take(i)[j2] == v);
                                assert(input_keys.take(i).contains(v));
                                assert(prev_keys.contains(v));
                            }
                        }
                    }
                    assert forall|q: int| 0 <= q < d@.len() implies exists|j: int|
                        first_prefix_entry(input, (#[trigger] d@[q]).0@, j) && j < i + 1 && d@[q]
                            == input[j] by {
                        if q == p {
                            assert(first_prefix_entry(input, d@[q].0@, i) && i < i + 1 && d@[q]
                                == input[i]);
                        } else {
                            let q0 = if q < p {
                                q
                            } else {
                                q - 1
                            };
                            assert(d@[q] == prev_view[q0]);
                        }
                    }
                }
                assert(v == input_keys[i]);
                if inserted is None {
                    assert(prev_keys.contains(v));
                }
                assert forall|k: Seq<char>| d.keys().contains(k) <==> input_keys.take(
                    i + 1,
                ).contains(k) by {
                    let tkw = input_keys.take(i + 1);
                    assert(tkw =~= input_keys.take(i).push(input_keys[i]));
                    if d.keys().contains(k) {
                        assert(prev_keys.contains(k) || k == v);
                        if prev_keys.contains(k) {
                            assert(input_keys.take(i).contains(k));
                            let p = choose|p: int|
                                0 <= p < input_keys.take(i).len() && #[trigger] input_keys.take(
                                    i,
                                )[p] == k;
                            assert(tkw[p] == k);
                        } else {
                            assert(tkw[i] == k);
                        }
                        assert(tkw.contains(k));
                    }
                    if tkw.contains(k) {
                        let p = choose|p: int| 0 <= p < tkw.len() && #[trigger] tkw[p] == k;
                        if p < i {
                            assert(input_keys.take(i)[p] == k);
                            assert(input_keys.take(i).contains(k));
                            assert(prev_keys.contains(k));
                        } else {
                            assert(k == input_keys[i]);
                        }
                        assert(d.keys().contains(k));
                    }
                }
            }
        }
        proof {
            assert(input_keys.take(input_keys.len() as int) =~= input_keys);
            assert(holds_first_prefix_entries(d@, input)) by {
                assert forall|q: int| 0 <= q < d@.len() implies is_first_prefix_entry_at(
                    d@,
                    input,
                    q,
                ) by {
                    let j = choose|j: int|
                        #[trigger] first_prefix_entry(input, d@[q].0@, j) && j < input.len()
                            - rest@.len() && d@[q] == input[j];
                    assert(first_prefix_entry(input, d@[q].0@, j) && d@[q] == input[j]);
                }
            }
        }
        d
    }

    /// The prefix half of an entry.
    pub fn prefix_ref_of(term: &(String, T)) -> (r: &String)
        ensures
            *r == term.0,
    {
        &term.0
    }

    /// The payload half of an entry.
    pub fn get_associated_from_term(term: &(String, T)) -> (r: &T)
        ensures
            *r == term.1,
    {
        &term.1
    }

    /// Assembles an entry from its prefix and its payload.
    pub fn new_prefix_term(prefix: String, associated: T) -> (r: (String, T))
        ensures
            r == (prefix, associated),
    {
        (prefix, associated)
    }

    /// How many entries the dictionary holds.
    pub fn len(&self) -> (r: usize)
        ensures
            r == self@.len(),
    {
        self.prefixes.len()
    }

    /// The entry at the given position, if any.
    pub fn get(&self, index: usize) -> (r: Option<&(String, T)>)
        ensures
            index < self@.len() ==> (r matches Some(t) && *t == self@[index as int]),
            index >= self@.len() ==> r is None,
    {
        if index < self.prefixes.len() {
            Some(&self.prefixes[index])
        } else {
            None
        }
    }

    /// Whether an entry with this exact prefix is registered.
    pub fn has(&self, prefix: &String) -> (r: bool)
        requires
            self.wf(),
        ensures
            r == self.keys().contains(prefix@),
    {
        let r = self.search(prefix.as_str());
        proof {
            match r {
                Ok(i) => {
                    assert(self.keys()[i as int] == prefix@);
                },
                Err(_) => {},
            }
        }
        r.is_ok()
    }

    /// Lower-bound search by prefix over the descending store: the
    /// position of the prefix when present, else the position at which
    /// inserting it keeps the store sorted.
    pub fn search(&self, prefix: &str) -> (r: Result<usize, usize>)
        requires
            self.wf(),
        ensures
            match r {
                Ok(i) => i < self@.len() && self.keys()[i as int] == prefix@,
                Err(i) => {
                    &&& i <= self@.len()
                    &&& !self.keys().contains(prefix@)
                    &&& forall|j: int| 0 <= j < i ==> lex_cmp(#[trigger] self.keys()[j], prefix@)
                        == Ordering::Greater
                    &&& forall|j: int|
                        i <= j < self@.len() ==> lex_cmp(#[trigger] self.keys()[j], prefix@)
                            == Ordering::Less
                },
            },
    {
        let ghost d = self@;
        let ghost ord = |t: &str, e: (String, T)| lex_cmp(e.0@, t@);
        let f = |t: &&str, e: &(String, T)| -> (o: Ordering)
            ensures
                o == lex_cmp(e.0@, t@),
            { str_compare(e.0.as_str(), *t) };
        proof {
            assert forall|i: int, j: int| 0 <= i <= j < d.len() implies ordering_rank(
                ord(prefix, d[i]),
            ) >= ordering_rank(ord(prefix, d[j])) by {
                if i < j {
                    assert(lex_cmp(self.keys()[i], self.keys()[j]) == Ordering::Greater);
                    lemma_lex_cmp_flip(self.keys()[i], self.keys()[j]);
                    lemma_lex_cmp_subject_mono(prefix@, d[j].0@, d[i].0@);
                }
            }
        }
        let r = binary_search_by(self.prefixes.as_slice(), &prefix, f, Ghost(ord));
        proof {
            match r {
                Ok(i) => {
                    assert(ord(prefix, d[i as int]) == Ordering::Equal);
                    assert(lex_cmp(d[i as int].0@, prefix@) == Ordering::Equal);
                    lemma_lex_cmp_eq(d[i as int].0@, prefix@);
                    assert(self.keys()[i as int] == d[i as int].0@);
                },
                Err(i) => {
                    assert forall|j: int| 0 <= j < i implies lex_cmp(
                        #[trigger] self.keys()[j],
                        prefix@,
                    ) == Ordering::Greater by {
                        assert(ord(prefix, d[j]) == Ordering::Greater);
                    }
                    assert forall|j: int| i <= j < self@.len() implies lex_cmp(
                        #[trigger] self.keys()[j],
                        prefix@,
                    ) == Ordering::Less by {
                        assert(ord(prefix, d[j]) == Ordering::Less);
                    }
                    assert forall|j: int| 0 <= j < self@.len() implies self.keys()[j]
                        != prefix@ by {
                        lemma_lex_cmp_eq(d[j].0@, prefix@);
                        if j < i {
                            assert(ord(prefix, d[j]) == Ordering::Greater);
                        } else {
                            assert(ord(prefix, d[j]) == Ordering::Less);
                        }
                    }
                    if self.keys().contains(prefix@) {
                        let k = choose|k: int|
                            0 <= k < self.keys().len() && #[trigger] self.keys()[k] == prefix@;
                        assert(false);
                    }
                },
            }
        }
        r
    }

    /// Inserts an entry at its sorted position and reports that
    /// position; an entry whose prefix is already present is dropped
    /// and `None` returned.
    pub fn insert(&mut self, term: (String, T)) -> (r: Option<usize>)
        requires
            old(self).wf(),
        ensures
            final (self).wf(),
            match r {
                Some(i) => {
                    &&& !old(self).keys().contains(term.0@)
                    &&& i <= old(self)@.len()
                    &&& final (self)@ == old(self)@.insert(i as int, term)
                },
                None => old(self).keys().contains(term.0@) && final (self)@ == old(self)@,
            },
    {
        let ghost pre = self@;
        let sr = self.search(term.0.as_str());
        match sr {
            Ok(i) => {
                proof {
                    assert(old(self).keys().contains(term.0@)) by {
                        assert(self.keys()[i as int] == term.0@);
                    }
                }
                None
            },
            Err(index) => {
                let ghost v = term.0@;
                self.prefixes.insert(index, term);
                proof {
                    assert(self@ =~= pre.insert(index as int, term));
                    let ghost pre_keys = pre.map_values(|t: (String, T)| t.0@);
                    pre.insert_ensures(index as int, term);
                    pre_keys.insert_ensures(index as int, v);
                    assert(self.keys() =~= pre_keys.insert(index as int, v)) by {
                        assert forall|q: int| 0 <= q < self.keys().len() implies #[trigger] self.keys()[q]
                            == pre_keys.insert(index as int, v)[q] by {
                            if q > index {
                                assert(self@[q] == pre[q - 1]);
                                assert(pre_keys.insert(index as int, v)[(q - 1) + 1]
                                    == pre_keys[q - 1]);
                            }
                        }
                    }
                    assert forall|j: int|
                        index <= j < pre_keys.len() implies lex_cmp(
                        v,
                        #[trigger] pre_keys[j],
                    ) == Ordering::Greater by {
                        lemma_lex_cmp_flip(pre_keys[j], v);
                    }
                    lemma_insert_position_keeps_reverse_order(pre_keys, v, index as int);
                }
                Some(index)
            },
        }
    }

    /// The entries in matching order: greatest prefix first, which is
    /// the storage order.
    pub fn iter_terms(&self) -> (r: &Vec<(String, T)>)
        ensures
            r@ == self@,
    {
        &self.prefixes
    }

    /// The first entry whose prefix begins the candidate: by the sort
    /// order, the one with the longest such prefix. An entry with the
    /// empty prefix, if registered, matches every candidate and is
    /// tried last.
    pub fn match_prefix<'a>(&'a self, to_match: &str) -> (r: Option<&'a (String, T)>)
        requires
            self.wf(),
        ensures
            match r {
                Some(s) => {
                    &&& self@.contains(*s)
                    &&& s.0@.is_prefix_of(to_match@)
                    &&& forall|k: int|
                        0 <= k < self@.len() && (#[trigger] self@[k].0@).is_prefix_of(to_match@)
                            ==> self@[k].0@.len() <= s.0@.len()
                },
                None => forall|k: int|
                    0 <= k < self@.len() ==> !(#[trigger] self@[k].0@).is_prefix_of(to_match@),
            },
    {
        let n = self.prefixes.len();
        let mut i: usize = 0;
        while i < n
            invariant
                self.wf(),
                n == self@.len(),
                i <= n,
                forall|k: int| 0 <= k < i ==> !(#[trigger] self@[k].0@).is_prefix_of(to_match@),
            decreases n - i,
        {
            if str_has_prefix(to_match, self.prefixes[i].0.as_str()) {
                proof {
                    assert(self@.contains(self@[i as int]));
                    assert forall|k: int|
                        0 <= k < n && (#[trigger] self@[k].0@).is_prefix_of(
                            to_match@,
                        ) implies self@[k].0@.len() <= self@[i as int].0@.len() by {
                        if k > i {
                            assert(lex_cmp(self.keys()[i as int], self.keys()[k])
                                == Ordering::Greater);
                            lemma_lex_cmp_flip(self.keys()[k], self.keys()[i as int]);
                            lemma_prefix_order_is_length_order(
                                self@[k].0@,
                                self@[i as int].0@,
                                to_match@,
                            );
                        }
                    }
                }
                return Some(&self.prefixes[i]);
            }
            i = i + 1;
        }
        None
    }
}

} // verus!
