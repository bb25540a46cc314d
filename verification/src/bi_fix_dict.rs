//! The bidirectional paired dictionary: `(prefix, suffix)` entries that
//! can be matched from either end. The entries are owned by a prefix
//! dictionary; a secondary index lists their positions in descending
//! order of the suffix, and is shifted on every insertion so that it
//! keeps pointing at the right entries.

use core::cmp::Ordering;
use vstd::pervasive::VecAdditionalExecFns;
use vstd::prelude::*;

use crate::lexical::{
    lemma_lex_cmp_eq, lemma_lex_cmp_flip, lemma_lex_cmp_subject_mono, lex_cmp, lex_descending,
    str_compare, str_has_suffix,
};
use crate::prefix_match::PrefixMatchDictPair;
use crate::search::{binary_search_by, ordering_rank};

verus! {

/// The prefix halves of a sequence of pairs.
pub open spec fn pair_prefixes(entries: Seq<(String, String)>) -> Seq<Seq<char>> {
    entries.map_values(|t: (String, String)| t.0@)
}

/// The suffix halves of a sequence of pairs.
pub open spec fn pair_suffixes(entries: Seq<(String, String)>) -> Seq<Seq<char>> {
    entries.map_values(|t: (String, String)| t.1@)
}

/// Whatever pairs a store keeps, it keeps their halves.
proof fn lemma_keys_monotone(pre: Seq<(String, String)>, post: Seq<(String, String)>)
    requires
        forall|t: (String, String)| pre.contains(t) ==> post.contains(t),
    ensures
        forall|x: Seq<char>| pair_prefixes(pre).contains(x) ==> pair_prefixes(post).contains(x),
        forall|x: Seq<char>| pair_suffixes(pre).contains(x) ==> pair_suffixes(post).contains(x),
{
    assert forall|x: Seq<char>| pair_prefixes(pre).contains(x) implies pair_prefixes(
        post,
    ).contains(x) by {
        let k = choose|k: int|
            0 <= k < pair_prefixes(pre).len() && #[trigger] pair_prefixes(pre)[k] == x;
        assert(pre.contains(pre[k]));
        let j = choose|j: int| 0 <= j < post.len() && #[trigger] post[j] == pre[k];
        assert(pair_prefixes(post)[j] == x);
    }
    assert forall|x: Seq<char>| pair_suffixes(pre).contains(x) implies pair_suffixes(
        post,
    ).contains(x) by {
        let k = choose|k: int|
            0 <= k < pair_suffixes(pre).len() && #[trigger] pair_suffixes(pre)[k] == x;
        assert(pre.contains(pre[k]));
        let j = choose|j: int| 0 <= j < post.len() && #[trigger] post[j] == pre[k];
        assert(pair_suffixes(post)[j] == x);
    }
}

/// A dictionary of `(prefix, suffix)` pairs in which both halves are
/// unique, searchable from either half.
#[derive(Debug, Clone)]
pub struct BiFixMatchDictPair {
    /// Owns the entries, sorted in descending order of the prefix.
    prefix_dict: PrefixMatchDictPair<String>,
    /// Positions into the primary store, in descending order of the
    /// suffix of the entry each position refers to.
    suffix_ordered_refs: Vec<usize>,
}

impl View for BiFixMatchDictPair {
    type V = Seq<(String, String)>;

    closed spec fn view(&self) -> Seq<(String, String)> {
        self.prefix_dict@
    }
}

impl Default for BiFixMatchDictPair {
    /// An empty dictionary.
    fn default() -> (d: Self)
        ensures
            d@ =~= Seq::<(String, String)>::empty(),
            d.wf(),
    {
        let d = BiFixMatchDictPair {
            prefix_dict: PrefixMatchDictPair::default(),
            suffix_ordered_refs: Vec::new(),
        };
        proof {
            assert(d.refs() =~= Seq::<usize>::empty());
        }
        d
    }
}

impl BiFixMatchDictPair {
    /// The secondary index, in storage order.
    pub closed spec fn refs(&self) -> Seq<usize> {
        self.suffix_ordered_refs@
    }

    /// The prefixes of the entries, in storage order.
    pub open spec fn prefix_keys(&self) -> Seq<Seq<char>> {
        pair_prefixes(self@)
    }

    /// The suffixes of the entries, in storage order.
    pub open spec fn suffix_keys(&self) -> Seq<Seq<char>> {
        pair_suffixes(self@)
    }

    /// The primary store is strictly descending by prefix; the
    /// secondary index is a permutation of its positions, strictly
    /// descending by suffix.
    pub open spec fn wf(&self) -> bool {
        &&& lex_descending(self.prefix_keys())
        &&& self.refs().len() == self@.len()
        &&& forall|i: int| 0 <= i < self.refs().len() ==> #[trigger] self.refs()[i] < self@.len()
        &&& forall|j: int| 0 <= j < self@.len() ==> #[trigger] self.refs().contains(j as usize)
        &&& forall|i: int, j: int|
            0 <= i < j < self.refs().len() ==> lex_cmp(
                self@[#[trigger] self.refs()[i] as int].1@,
                self@[#[trigger] self.refs()[j] as int].1@,
            ) == Ordering::Greater
    }

    /// Assembles an entry from its prefix and its suffix.
    pub fn new_term(prefix: String, suffix: String) -> (r: (String, String))
        ensures
            r == (prefix, suffix),
    {
        (prefix, suffix)
    }

    /// The entry at the given position of the primary store, if any.
    pub fn get_term_by_index(&self, index: usize) -> (r: Option<&(String, String)>)
        ensures
            index < self@.len() ==> (r matches Some(t) && *t == self@[index as int]),
            index >= self@.len() ==> r is None,
    {
        self.prefix_dict.get(index)
    }

    /// Lower-bound search by prefix over the primary store.
    pub fn search_prefix(&self, prefix: &str) -> (r: Result<usize, usize>)
        requires
            self.wf(),
        ensures
            match r {
                Ok(i) => i < self@.len() && self.prefix_keys()[i as int] == prefix@,
                Err(i) => {
                    &&& i <= self@.len()
                    &&& !self.prefix_keys().contains(prefix@)
                    &&& forall|j: int|
                        0 <= j < i ==> lex_cmp(#[trigger] self.prefix_keys()[j], prefix@)
                            == Ordering::Greater
                    &&& forall|j: int|
                        i <= j < self@.len() ==> lex_cmp(#[trigger] self.prefix_keys()[j], prefix@)
                            == Ordering::Less
                },
            },
    {
        proof {
            assert(self.prefix_keys() =~= self.prefix_dict.keys());
        }
        let r = self.prefix_dict.search(prefix);
        r
    }

    /// Lower-bound search by suffix over the secondary index: the
    /// position in the secondary index, not in the primary store.
    pub fn search_suffix(&self, suffix: &str) -> (r: Result<usize, usize>)
        requires
            self.wf(),
        ensures
            match r {
                Ok(i) => i < self.refs().len() && self@[self.refs()[i as int] as int].1@
                    == suffix@,
                Err(i) => {
                    &&& i <= self.refs().len()
                    &&& !self.suffix_keys().contains(suffix@)
                    &&& forall|j: int|
                        0 <= j < i ==> lex_cmp(
                            self@[#[trigger] self.refs()[j] as int].1@,
                            suffix@,
                        ) == Ordering::Greater
                    &&& forall|j: int|
                        i <= j < self.refs().len() ==> lex_cmp(
                            self@[#[trigger] self.refs()[j] as int].1@,
                            suffix@,
                        ) == Ordering::Less
                },
            },
    {
        let ghost d = self@;
        let ghost rs = self.refs();
        let ghost ord = |t: &str, e: usize| lex_cmp(d[e as int].1@, t@);
        let f = |t: &&str, e: &usize| -> (o: Ordering)
            requires
                *e < self.prefix_dict@.len(),
            ensures
                o == lex_cmp(self.prefix_dict@[*e as int].1@, t@),
            {
                match self.prefix_dict.get(*e) {
                    Some(term) => str_compare(term.1.as_str(), *t),
                    None => vstd::pervasive::unreached(),
                }
            };
        proof {
            assert forall|i: int| 0 <= i < rs.len() implies #[trigger] call_requires(
                f,
                (&suffix, &rs[i]),
            ) by {
                assert(rs[i] < d.len());
            }
            assert forall|i: int, j: int| 0 <= i <= j < rs.len() implies ordering_rank(
                ord(suffix, rs[i]),
            ) >= ordering_rank(ord(suffix, rs[j])) by {
                if i < j {
                    assert(lex_cmp(d[rs[i] as int].1@, d[rs[j] as int].1@) == Ordering::Greater);
                    lemma_lex_cmp_flip(d[rs[j] as int].1@, d[rs[i] as int].1@);
                    lemma_lex_cmp_subject_mono(suffix@, d[rs[j] as int].1@, d[rs[i] as int].1@);
                }
            }
        }
        let r = binary_search_by(self.suffix_ordered_refs.as_slice(), &suffix, f, Ghost(ord));
        proof {
            match r {
                Ok(i) => {
                    assert(ord(suffix, rs[i as int]) == Ordering::Equal);
                    lemma_lex_cmp_eq(d[rs[i as int] as int].1@, suffix@);
                },
                Err(i) => {
                    assert forall|j: int| 0 <= j < i implies lex_cmp(
                        d[#[trigger] rs[j] as int].1@,
                        suffix@,
                    ) == Ordering::Greater by {
                        assert(ord(suffix, rs[j]) == Ordering::Greater);
                    }
                    assert forall|j: int| i <= j < rs.len() implies lex_cmp(
                        d[#[trigger] rs[j] as int].1@,
                        suffix@,
                    ) == Ordering::Less by {
                        assert(ord(suffix, rs[j]) == Ordering::Less);
                    }
                    assert forall|p: int| 0 <= p < rs.len() implies d[#[trigger] rs[p] as int].1@
                        != suffix@ by {
                        lemma_lex_cmp_eq(d[rs[p] as int].1@, suffix@);
                    }
                    if self.suffix_keys().contains(suffix@) {
                        let k = choose|k: int|
                            0 <= k < self.suffix_keys().len() && #[trigger] self.suffix_keys()[k]
                                == suffix@;
                        assert(self.suffix_keys()[k] == d[k].1@);
                        assert(self.suffix_ordered_refs.len() == rs.len());
                        assert(k < rs.len() <= usize::MAX);
                        assert(rs.contains(k as usize));
                        let p = choose|p: int| 0 <= p < rs.len() && #[trigger] rs[p] == k as usize;
                        assert(rs[p] as int == k);
                        assert(d[rs[p] as int].1@ == suffix@);
                        assert(false);
                    }
                },
            }
        }
        r
    }

    /// Inserts a pair whose prefix and suffix are both new, keeping the
    /// primary store sorted by prefix and the secondary index sorted by
    /// suffix: positions at or after the insertion point are first
    /// shifted up by one, then the new position is filed. A pair whose
    /// prefix or suffix is already present is dropped and `false`
    /// returned.
    pub fn insert(&mut self, term: (String, String)) -> (r: bool)
        requires
            old(self).wf(),
        ensures
            final (self).wf(),
            r ==> {
                &&& !old(self).prefix_keys().contains(term.0@)
                &&& !old(self).suffix_keys().contains(term.1@)
                &&& final (self)@.contains(term)
                &&& forall|t: (String, String)| old(self)@.contains(t)
                    ==> final (self)@.contains(t)
                &&& forall|t: (String, String)| final (self)@.contains(t)
                    ==> t == term || old(self)@.contains(t)
            },
            !r ==> final (self)@ == old(self)@ && (old(self).suffix_keys().contains(term.1@)
                || old(self).prefix_keys().contains(term.0@)),
    {
        let ghost pre = self@;
        let ghost pre_refs = self.refs();
        proof {
            assert(old(self).prefix_keys() =~= old(self).prefix_dict.keys());
        }
        let n = self.suffix_ordered_refs.len();
        let sr = self.search_suffix(term.1.as_str());
        if let Err(i_insert) = sr {
            let ghost tterm = term;
            proof {
                assert(self.prefix_dict.wf());
            }
            let pd_r = self.prefix_dict.insert(term);
            if let Some(i_term) = pd_r {
                let new_len = self.prefix_dict.len();
                proof {
                    pre.insert_ensures(i_term as int, tterm);
                    assert(self@.len() == n + 1);
                    assert(new_len == n + 1);
                }
                let ghost pd = self.prefix_dict;
                // every position at or after the insertion point now
                // refers to the entry one place further right
                let mut k: usize = 0;
                while k < self.suffix_ordered_refs.len()
                    invariant
                        self.prefix_dict == pd,
                        self.suffix_ordered_refs@.len() == n,
                        n + 1 <= usize::MAX,
                        k <= n,
                        i_term <= n,
                        forall|q: int| 0 <= q < n ==> #[trigger] pre_refs[q] < n,
                        forall|q: int|
                            0 <= q < k ==> #[trigger] self.suffix_ordered_refs@[q] == (if pre_refs[q]
                                >= i_term {
                                (pre_refs[q] + 1) as usize
                            } else {
                                pre_refs[q]
                            }),
                        forall|q: int| k <= q < n ==> #[trigger] self.suffix_ordered_refs@[q]
                            == pre_refs[q],
                    decreases n - k,
                {
                    let v = self.suffix_ordered_refs[k];
                    if v >= i_term {
                        self.suffix_ordered_refs.set(k, v + 1);
                    }
                    k = k + 1;
                }
                let ghost shifted = self.suffix_ordered_refs@;
                self.suffix_ordered_refs.insert(i_insert, i_term);
                proof {
                    assert(pair_prefixes(self@) =~= self.prefix_dict.keys());
                    self.lemma_insert_restores_wf(
                        pre,
                        pre_refs,
                        tterm,
                        i_term as int,
                        i_insert as int,
                        shifted,
                    );
                    crate::seq_util::lemma_insert_contains(pre, i_term as int, tterm);
                    assert(self@.contains(tterm)) by {
                        assert(self@[i_term as int] == tterm);
                    }
                }
                return true;
            }
            proof {
                assert(self@ == pre);
            }
            return false;
        }
        proof {
            if let Ok(i) = sr {
                assert(self.suffix_keys().contains(term.1@)) by {
                    assert(self.suffix_keys()[self.refs()[i as int] as int] == term.1@);
                }
            }
        }
        false
    }

    /// Builds a dictionary from the given pairs, inserting one at a
    /// time, and finally files the empty pair as a universal fallback;
    /// a pair is dropped when its prefix or its suffix is already
    /// taken.
    pub fn new(bi_fixes: Vec<(String, String)>) -> (d: Self)
        ensures
            d.wf(),
            forall|i: int|
                0 <= i < d@.len() ==> bi_fixes@.contains(#[trigger] d@[i]) || (d@[i].0@.len() == 0
                    && d@[i].1@.len() == 0),
            forall|j: int|
                0 <= j < bi_fixes@.len() ==> d.prefix_keys().contains(
                    (#[trigger] bi_fixes@[j]).0@,
                ) || d.suffix_keys().contains(bi_fixes@[j].1@),
            d.prefix_keys().contains(Seq::<char>::empty()) || d.suffix_keys().contains(
                Seq::<char>::empty(),
            ),
    {
        let ghost input = bi_fixes@;
        let mut d = BiFixMatchDictPair::default();
        let mut rest = bi_fixes;
        while rest.len() > 0
            invariant
                d.wf(),
                rest@.len() <= input.len(),
                rest@ == input.skip(input.len() - rest@.len()),
                forall|i: int| 0 <= i < d@.len() ==> input.contains(#[trigger] d@[i]),
                forall|j: int|
                    0 <= j < input.len() - rest@.len() ==> d.prefix_keys().contains(
                        (#[trigger] input[j]).0@,
                    ) || d.suffix_keys().contains(input[j].1@),
            decreases rest@.len(),
        {
            let ghost i = input.len() - rest@.len();
            let ghost pre = d@;
            let term = rest.remove(0);
            proof {
                assert(term == input.skip(i)[0]);
                assert(term == input[i]);
                assert(rest@ =~= input.skip(i + 1));
                assert(input.contains(term)) by {
                    assert(input[i] == term);
                }
            }
            let ghost tterm = term;
            let r = d.insert(term);
            proof {
                lemma_keys_monotone(pre, d@);
                if r {
                    assert(d.prefix_keys().contains(tterm.0@)) by {
                        let k = choose|k: int| 0 <= k < d@.len() && #[trigger] d@[k] == tterm;
                        assert(pair_prefixes(d@)[k] == tterm.0@);
                    }
                }
                assert forall|q: int| 0 <= q < d@.len() implies input.contains(
                    #[trigger] d@[q],
                ) by {
                    assert(d@.contains(d@[q]));
                    if d@[q] != tterm {
                        assert(pre.contains(d@[q]));
                        let k = choose|k: int| 0 <= k < pre.len() && #[trigger] pre[k] == d@[q];
                        assert(input.contains(pre[k]));
                    }
                }
            }
        }
        let ghost before_fallback = d@;
        let fallback = (String::new(), String::new());
        let ghost eterm = fallback;
        let r = d.insert(fallback);
        proof {
            lemma_keys_monotone(before_fallback, d@);
            if r {
                assert(d.prefix_keys().contains(Seq::<char>::empty())) by {
                    let k = choose|k: int| 0 <= k < d@.len() && #[trigger] d@[k] == eterm;
                    assert(pair_prefixes(d@)[k] == Seq::<char>::empty());
                }
            }
            assert(input.skip(0) =~= input);
            assert forall|i: int|
                0 <= i < d@.len() implies input.contains(#[trigger] d@[i]) || (d@[i].0@.len() == 0
                && d@[i].1@.len() == 0) by {
                assert(d@.contains(d@[i]));
                if !before_fallback.contains(d@[i]) {
                    assert(d@[i] == eterm);
                }
            }
        }
        d
    }

    /// The entries in suffix-matching order: greatest suffix first, as
    /// the secondary index lists them.
    pub fn suffix_terms(&self) -> (r: Vec<(String, String)>)
        requires
            self.wf(),
        ensures
            r@.len() == self@.len(),
            forall|p: int| 0 <= p < r@.len() ==> #[trigger] r@[p] == self@[self.refs()[p] as int],
    {
        let mut r: Vec<(String, String)> = Vec::new();
        let n = self.suffix_ordered_refs.len();
        let mut p: usize = 0;
        while p < n
            invariant
                self.wf(),
                n == self.refs().len(),
                p <= n,
                r@.len() == p,
                forall|q: int| 0 <= q < p ==> #[trigger] r@[q] == self@[self.refs()[q] as int],
            decreases n - p,
        {
            let idx = self.suffix_ordered_refs[p];
            match self.prefix_dict.get(idx) {
                Some(term) => {
                    r.push((term.0.clone(), term.1.clone()));
                },
                None => {
                    proof {
                        assert(false);
                    }
                },
            }
            p = p + 1;
        }
        r
    }

    /// The first entry whose prefix begins the candidate: by the sort
    /// order, the one with the longest such prefix. Its suffix half is
    /// the partner of the recognized prefix.
    pub fn match_prefix<'a>(&'a self, to_match: &str) -> (r: Option<&'a (String, String)>)
        requires
            self.wf(),
        ensures
            match r {
                Some(s) => {
                    &&& self@.contains(*s)
                    &&& s.0@.is_prefix_of(to_match@)
                    &&& forall|k: int|
                        0 <= k < self@.len() && (#[trigger] self@[k].0@).is_prefix_of(to_match@)
                            ==> self@[k].0@.len() <= s.0@.len()
                },
                None => forall|k: int|
                    0 <= k < self@.len() ==> !(#[trigger] self@[k].0@).is_prefix_of(to_match@),
            },
    {
        proof {
            assert(self.prefix_keys() =~= self.prefix_dict.keys());
        }
        self.prefix_dict.match_prefix(to_match)
    }

    /// The first entry, in the order of the secondary index, whose
    /// suffix ends the candidate: the entry with the greatest such
    /// suffix. Its prefix half is the partner of the recognized
    /// suffix.
    pub fn match_suffix<'a>(&'a self, to_match: &str) -> (r: Option<&'a (String, String)>)
        requires
            self.wf(),
        ensures
            match r {
                Some(s) => {
                    &&& self@.contains(*s)
                    &&& s.1@.is_suffix_of(to_match@)
                    &&& forall|k: int|
                        0 <= k < self@.len() && (#[trigger] self@[k].1@).is_suffix_of(to_match@)
                            ==> self@[k].1@ == s.1@ || lex_cmp(self@[k].1@, s.1@) == Ordering::Less
                },
                None => forall|k: int|
                    0 <= k < self@.len() ==> !(#[trigger] self@[k].1@).is_suffix_of(to_match@),
            },
    {
        let n = self.suffix_ordered_refs.len();
        let mut p: usize = 0;
        while p < n
            invariant
                self.wf(),
                n == self.refs().len(),
                p <= n,
                forall|q: int|
                    0 <= q < p ==> !(#[trigger] self@[self.refs()[q] as int].1@).is_suffix_of(
                        to_match@,
                    ),
            decreases n - p,
        {
            let idx = self.suffix_ordered_refs[p];
            match self.prefix_dict.get(idx) {
                Some(term) => {
                    if str_has_suffix(to_match, term.1.as_str()) {
                        proof {
                            assert(self@.contains(self@[idx as int]));
                            assert(self.suffix_ordered_refs.len() == self.refs().len());
                            assert forall|k: int|
                                0 <= k < self@.len() && (#[trigger] self@[k].1@).is_suffix_of(
                                    to_match@,
                                ) implies self@[k].1@ == self@[idx as int].1@ || lex_cmp(
                                self@[k].1@,
                                self@[idx as int].1@,
                            ) == Ordering::Less by {
                                assert(self.refs().contains(k as usize));
                                let q = choose|q: int|
                                    0 <= q < self.refs().len() && #[trigger] self.refs()[q] == (
                                    k as usize);
                                if q < p {
                                    assert(false);
                                } else if q > p {
                                    assert(lex_cmp(
                                        self@[self.refs()[p as int] as int].1@,
                                        self@[self.refs()[q] as int].1@,
                                    ) == Ordering::Greater);
                                    lemma_lex_cmp_flip(self@[k].1@, self@[idx as int].1@);
                                }
                            }
                        }
                        return Some(term);
                    }
                },
                None => {
                    proof {
                        assert(false);
                    }
                },
            }
            p = p + 1;
        }
        proof {
            assert forall|k: int| 0 <= k < self@.len() implies !(#[trigger] self@[k].1@).is_suffix_of(
                to_match@,
            ) by {
                assert(self.suffix_ordered_refs.len() == self.refs().len());
                assert(self.refs().contains(k as usize));
                let q = choose|q: int|
                    0 <= q < self.refs().len() && #[trigger] self.refs()[q] == (k as usize);
            }
        }
        None
    }

    /// Bidirectional consistency, prefix side: when a registered pair's
    /// prefix is the longest registered prefix of a candidate, then any
    /// longest prefix match for that candidate is that pair, and so
    /// carries that pair's suffix. `m` stands for what
    /// [`Self::match_prefix`] returned: a registered pair whose prefix
    /// begins the candidate and is of maximal length among those that
    /// do.
    pub proof fn lemma_bidirectional_prefix_consistency(
        &self,
        i: int,
        t: Seq<char>,
        m: (String, String),
    )
        requires
            self.wf(),
            0 <= i < self@.len(),
            self@[i].0@.is_prefix_of(t),
            forall|k: int|
                0 <= k < self@.len() && (#[trigger] self@[k].0@).is_prefix_of(t) ==> self@[k].0@.len()
                    <= self@[i].0@.len(),
            self@.contains(m),
            m.0@.is_prefix_of(t),
            forall|k: int|
                0 <= k < self@.len() && (#[trigger] self@[k].0@).is_prefix_of(t) ==> self@[k].0@.len()
                    <= m.0@.len(),
        ensures
            m == self@[i],
    {
        let j = choose|j: int| 0 <= j < self@.len() && #[trigger] self@[j] == m;
        assert(self@[j].0@.len() <= self@[i].0@.len());
        assert(self@[i].0@.len() <= self@[j].0@.len());
        crate::lexical::lemma_mutual_prefixes(self@[i].0@, self@[j].0@, t);
        assert(self@[i].0@ =~= self@[j].0@);
        if i != j {
            let a = if i < j {
                i
            } else {
                j
            };
            let b = if i < j {
                j
            } else {
                i
            };
            assert(lex_cmp(self.prefix_keys()[a], self.prefix_keys()[b]) == Ordering::Greater);
            lemma_lex_cmp_eq(self@[a].0@, self@[b].0@);
        }
    }

    /// Bidirectional consistency, suffix side: when a registered pair's
    /// suffix is the greatest registered suffix ending a candidate,
    /// then any greatest suffix match for that candidate is that pair,
    /// and so carries that pair's prefix. `m` stands for what
    /// [`Self::match_suffix`] returned: a registered pair whose suffix
    /// ends the candidate, with every other such suffix equal to it or
    /// below it in the order.
    pub proof fn lemma_bidirectional_suffix_consistency(
        &self,
        i: int,
        t: Seq<char>,
        m: (String, String),
    )
        requires
            self.wf(),
            0 <= i < self@.len(),
            self@[i].1@.is_suffix_of(t),
            forall|k: int|
                0 <= k < self@.len() && (#[trigger] self@[k].1@).is_suffix_of(t) ==> self@[k].1@
                    == self@[i].1@ || lex_cmp(self@[k].1@, self@[i].1@) == Ordering::Less,
            self@.contains(m),
            m.1@.is_suffix_of(t),
            forall|k: int|
                0 <= k < self@.len() && (#[trigger] self@[k].1@).is_suffix_of(t) ==> self@[k].1@
                    == m.1@ || lex_cmp(self@[k].1@, m.1@) == Ordering::Less,
        ensures
            m == self@[i],
    {
        let j = choose|j: int| 0 <= j < self@.len() && #[trigger] self@[j] == m;
        assert(self@[j].1@ == self@[i].1@ || lex_cmp(self@[j].1@, self@[i].1@) == Ordering::Less);
        assert(self@[i].1@ == self@[j].1@ || lex_cmp(self@[i].1@, self@[j].1@) == Ordering::Less);
        if self@[i].1@ != self@[j].1@ {
            lemma_lex_cmp_flip(self@[i].1@, self@[j].1@);
        }
        if i != j {
            // the suffixes of two distinct entries are distinct: each
            // has its own place in the suffix-ordered index
            assert(self@.len() <= usize::MAX) by {
                assert(self.suffix_ordered_refs.len() == self.refs().len());
            }
            assert(self.refs().contains(i as usize));
            assert(self.refs().contains(j as usize));
            let p = choose|p: int| 0 <= p < self.refs().len() && #[trigger] self.refs()[p] == (
            i as usize);
            let q = choose|q: int| 0 <= q < self.refs().len() && #[trigger] self.refs()[q] == (
            j as usize);
            assert(self.refs()[p] as int == i);
            assert(self.refs()[q] as int == j);
            assert(p != q);
            if p < q {
                assert(lex_cmp(self@[self.refs()[p] as int].1@, self@[self.refs()[q] as int].1@)
                    == Ordering::Greater);
                lemma_lex_cmp_eq(self@[i].1@, self@[j].1@);
            } else {
                assert(lex_cmp(self@[self.refs()[q] as int].1@, self@[self.refs()[p] as int].1@)
                    == Ordering::Greater);
                lemma_lex_cmp_eq(self@[j].1@, self@[i].1@);
            }
        }
    }

    /// The shift-and-insert of the secondary index restores
    /// well-formedness around an insertion into the primary store.
    proof fn lemma_insert_restores_wf(
        &self,
        pre: Seq<(String, String)>,
        pre_refs: Seq<usize>,
        term: (String, String),
        i_term: int,
        i_insert: int,
        shifted: Seq<usize>,
    )
        requires
            // the old dictionary was well-formed
            lex_descending(pair_prefixes(pre)),
            pre_refs.len() == pre.len(),
            forall|i: int| 0 <= i < pre_refs.len() ==> #[trigger] pre_refs[i] < pre.len(),
            forall|j: int| 0 <= j < pre.len() ==> #[trigger] pre_refs.contains(j as usize),
            forall|i: int, j: int|
                0 <= i < j < pre_refs.len() ==> lex_cmp(
                    pre[#[trigger] pre_refs[i] as int].1@,
                    pre[#[trigger] pre_refs[j] as int].1@,
                ) == Ordering::Greater,
            // the suffix search named the insertion point of the suffix
            0 <= i_insert <= pre_refs.len(),
            forall|j: int|
                0 <= j < i_insert ==> lex_cmp(pre[#[trigger] pre_refs[j] as int].1@, term.1@)
                    == Ordering::Greater,
            forall|j: int|
                i_insert <= j < pre_refs.len() ==> lex_cmp(
                    pre[#[trigger] pre_refs[j] as int].1@,
                    term.1@,
                ) == Ordering::Less,
            // the primary store received the entry at `i_term`
            0 <= i_term <= pre.len(),
            pre.len() + 1 <= usize::MAX,
            self@ == pre.insert(i_term, term),
            lex_descending(pair_prefixes(self@)),
            // the secondary index was shifted, then received `i_term`
            shifted.len() == pre_refs.len(),
            forall|q: int| 0 <= q < pre_refs.len() ==> #[trigger] shifted[q] == (if pre_refs[q]
                >= i_term {
                (pre_refs[q] + 1) as usize
            } else {
                pre_refs[q]
            }),
            self.refs() == shifted.insert(i_insert, i_term as usize),
        ensures
            self.wf(),
    {
        let d = self@;
        let rs = self.refs();
        let n = pre.len() as int;
        pre.insert_ensures(i_term, term);
        shifted.insert_ensures(i_insert, i_term as usize);
        // each shifted position refers to the entry it referred to before
        assert forall|q: int| 0 <= q < n implies shifted[q] < d.len() && d[#[trigger] shifted[q] as int]
            == pre[pre_refs[q] as int] by {
            if pre_refs[q] >= i_term {
                assert(d[(pre_refs[q] + 1) as int] == pre[pre_refs[q] as int]);
            } else {
                assert(d[pre_refs[q] as int] == pre[pre_refs[q] as int]);
            }
        }
        assert(rs.len() == d.len());
        assert forall|i: int| 0 <= i < rs.len() implies #[trigger] rs[i] < d.len() by {
            if i < i_insert {
                assert(rs[i] == shifted[i]);
            } else if i > i_insert {
                assert(rs[i] == shifted[i - 1]);
            }
        }
        assert forall|j: int| 0 <= j < d.len() implies #[trigger] rs.contains(j as usize) by {
            if j == i_term {
                assert(rs[i_insert] == i_term as usize);
            } else if j < i_term {
                assert(pre_refs.contains(j as usize));
                let q = choose|q: int| 0 <= q < pre_refs.len() && #[trigger] pre_refs[q] == j as usize;
                assert(shifted[q] == j as usize);
                if q < i_insert {
                    assert(rs[q] == j as usize);
                } else {
                    assert(rs[q + 1] == j as usize);
                }
            } else {
                assert(pre_refs.contains((j - 1) as usize));
                let q = choose|q: int|
                    0 <= q < pre_refs.len() && #[trigger] pre_refs[q] == (j - 1) as usize;
                assert(shifted[q] == j as usize);
                if q < i_insert {
                    assert(rs[q] == j as usize);
                } else {
                    assert(rs[q + 1] == j as usize);
                }
            }
        }
        assert forall|i: int, j: int| 0 <= i < j < rs.len() implies lex_cmp(
            d[#[trigger] rs[i] as int].1@,
            d[#[trigger] rs[j] as int].1@,
        ) == Ordering::Greater by {
            if i < i_insert && j < i_insert {
                assert(d[rs[i] as int] == pre[pre_refs[i] as int]);
                assert(d[rs[j] as int] == pre[pre_refs[j] as int]);
            } else if i < i_insert && j == i_insert {
                assert(d[rs[i] as int] == pre[pre_refs[i] as int]);
                assert(d[rs[j] as int] == term);
            } else if i < i_insert && j > i_insert {
                assert(d[rs[i] as int] == pre[pre_refs[i] as int]);
                assert(d[rs[j] as int] == pre[pre_refs[j - 1] as int]);
            } else if i == i_insert {
                assert(d[rs[i] as int] == term);
                assert(d[rs[j] as int] == pre[pre_refs[j - 1] as int]);
                lemma_lex_cmp_flip(pre[pre_refs[j - 1] as int].1@, term.1@);
            } else {
                assert(d[rs[i] as int] == pre[pre_refs[i - 1] as int]);
                assert(d[rs[j] as int] == pre[pre_refs[j - 1] as int]);
            }
        }
    }
}

} // verus!
