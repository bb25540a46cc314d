//! A vector that keeps its elements ordered: every insertion goes
//! through a lower-bound search for its position.

use core::cmp::Ordering;
use vstd::prelude::*;
use vstd::std_specs::cmp::OrdSpec;

use crate::search::{cmp_spec_of, ordering_rank, probe_monotone, search_by, search_result_correct};

verus! {

/// The comparison an ordered type stands for behaves like an order:
/// reversing the arguments reverses the verdict, the strict part is
/// transitive, and elements that compare `Equal` compare alike against
/// everything else. The integers obey this; an ordered type with an
/// arbitrary `cmp` need not.
pub open spec fn cmp_spec_consistent<T: Ord>() -> bool {
    &&& forall|a: T, b: T| (#[trigger] a.cmp_spec(&b)) == Ordering::Less <==> b.cmp_spec(&a)
        == Ordering::Greater
    &&& forall|a: T, b: T, c: T|
        #![trigger a.cmp_spec(&b), b.cmp_spec(&c)]
        a.cmp_spec(&b) == Ordering::Less && b.cmp_spec(&c) == Ordering::Less ==> a.cmp_spec(&c)
            == Ordering::Less
    &&& forall|a: T, b: T, c: T|
        #![trigger a.cmp_spec(&b), a.cmp_spec(&c)]
        a.cmp_spec(&b) == Ordering::Equal ==> a.cmp_spec(&c) == b.cmp_spec(&c)
    &&& forall|a: T, b: T, c: T|
        #![trigger a.cmp_spec(&b), c.cmp_spec(&a)]
        a.cmp_spec(&b) == Ordering::Equal ==> c.cmp_spec(&a) == c.cmp_spec(&b)
}

/// Sorted: no element compares `Greater` than one that follows it.
pub open spec fn cmp_sorted<T: Ord>(s: Seq<T>) -> bool {
    forall|i: int, j: int|
        0 <= i < j < s.len() ==> (#[trigger] s[i].cmp_spec(&s[j])) != Ordering::Greater
}

/// A vector whose elements always stand in order.
#[derive(Debug, Clone)]
pub struct AutoOrderedVec<T> {
    data: Vec<T>,
}

impl<T> View for AutoOrderedVec<T> {
    type V = Seq<T>;

    closed spec fn view(&self) -> Seq<T> {
        self.data@
    }
}

impl<T> AutoOrderedVec<T> {
    /// An empty ordered vector.
    pub fn new() -> (v: Self)
        ensures
            v@ =~= Seq::<T>::empty(),
    {
        AutoOrderedVec { data: Vec::new() }
    }

    /// An empty ordered vector with room reserved.
    pub fn with_capacity(capacity: usize) -> (v: Self)
        ensures
            v@ =~= Seq::<T>::empty(),
    {
        AutoOrderedVec { data: Vec::with_capacity(capacity) }
    }

    /// The element at the given position, if any; positions do not
    /// move while nothing is inserted.
    pub fn get(&self, index: usize) -> (r: Option<&T>)
        ensures
            index < self@.len() ==> (r matches Some(x) && *x == self@[index as int]),
            index >= self@.len() ==> r is None,
    {
        if index < self.data.len() {
            Some(&self.data[index])
        } else {
            None
        }
    }

    /// The element at the given position, for updating in place; an
    /// update that disturbs the order voids the sortedness the other
    /// operations rely on.
    pub fn get_mut(&mut self, index: usize) -> (r: Option<&mut T>)
        ensures
            index >= old(self)@.len() ==> r is None && final (self)@ == old(self)@,
            index < old(self)@.len() ==> (r matches Some(x) && *x == old(self)@[index as int]
                && final (self)@ == old(self)@.update(index as int, *final (x))),
    {
        if index < self.data.len() {
            Some(&mut self.data[index])
        } else {
            None
        }
    }
}

impl<T: Ord> AutoOrderedVec<T> {
    /// Lower-bound search for an element: its position when one
    /// comparing `Equal` is present, else the position at which
    /// inserting it keeps the order.
    pub fn search(&self, item: &T) -> (r: Result<usize, usize>)
        requires
            T::obeys_cmp_spec(),
            cmp_spec_consistent::<T>(),
            cmp_sorted(self@),
        ensures
            search_result_correct(self@, *item, cmp_spec_of::<T>(), r),
    {
        proof {
            lemma_sorted_probe_monotone(self@, *item);
        }
        let f = |a: &T, b: &T| -> (o: Ordering)
            ensures
                T::obeys_cmp_spec() ==> o == a.cmp_spec(b),
            { a.cmp(b) };
        search_by(self.data.as_slice(), item, f, Ghost(cmp_spec_of::<T>()))
    }

    /// Inserts the element at its sorted position and reports that
    /// position; elements comparing `Equal` to one already present are
    /// inserted beside it.
    pub fn insert(&mut self, item: T) -> (r: usize)
        requires
            T::obeys_cmp_spec(),
            cmp_spec_consistent::<T>(),
            cmp_sorted(old(self)@),
        ensures
            r <= old(self)@.len(),
            final (self)@ == old(self)@.insert(r as int, item),
            cmp_sorted(final (self)@),
    {
        let ghost pre = self@;
        let ghost t = item;
        let sr = self.search(&item);
        let index = match sr {
            Ok(i) => i,
            Err(i) => i,
        };
        proof {
            lemma_sorted_probe_monotone(pre, t);
            let ord = cmp_spec_of::<T>();
            assert forall|j: int| 0 <= j < index implies ordering_rank(
                #[trigger] t.cmp_spec(&pre[j]),
            ) >= ordering_rank(Ordering::Equal) by {
                match sr {
                    Ok(i) => {
                        assert(ord(t, pre[i as int]) == Ordering::Equal);
                        assert(ordering_rank(ord(t, pre[j])) >= ordering_rank(
                            ord(t, pre[i as int]),
                        ));
                    },
                    Err(_) => {
                        assert(ord(t, pre[j]) == Ordering::Greater);
                    },
                }
            }
            assert forall|j: int| index <= j < pre.len() implies ordering_rank(
                #[trigger] t.cmp_spec(&pre[j]),
            ) <= ordering_rank(Ordering::Equal) by {
                match sr {
                    Ok(i) => {
                        assert(ord(t, pre[i as int]) == Ordering::Equal);
                        assert(ordering_rank(ord(t, pre[i as int])) >= ordering_rank(
                            ord(t, pre[j]),
                        ));
                    },
                    Err(_) => {
                        assert(ord(t, pre[j]) == Ordering::Less);
                    },
                }
            }
            lemma_insert_keeps_sorted(pre, t, index as int);
        }
        self.data.insert(index, item);
        proof {
            assert(self@ =~= pre.insert(index as int, t));
        }
        index
    }

    /// Inserts the element only when nothing comparing `Equal` to it is
    /// present, reporting the position it received.
    pub fn insert_unique(&mut self, item: T) -> (r: Option<usize>)
        requires
            T::obeys_cmp_spec(),
            cmp_spec_consistent::<T>(),
            cmp_sorted(old(self)@),
        ensures
            cmp_sorted(final (self)@),
            match r {
                Some(i) => {
                    &&& i <= old(self)@.len()
                    &&& final (self)@ == old(self)@.insert(i as int, item)
                    &&& forall|j: int|
                        0 <= j < old(self)@.len() ==> (#[trigger] item.cmp_spec(&old(self)@[j]))
                            != Ordering::Equal
                },
                None => final (self)@ == old(self)@ && (exists|j: int|
                    0 <= j < old(self)@.len() && (#[trigger] item.cmp_spec(&old(self)@[j]))
                        == Ordering::Equal),
            },
    {
        let ghost pre = self@;
        let ghost t = item;
        match self.search(&item) {
            Err(index) => {
                proof {
                    let ord = cmp_spec_of::<T>();
                    assert forall|j: int| 0 <= j < index implies ordering_rank(
                        #[trigger] t.cmp_spec(&pre[j]),
                    ) >= ordering_rank(Ordering::Equal) by {
                        assert(ord(t, pre[j]) == Ordering::Greater);
                    }
                    assert forall|j: int| index <= j < pre.len() implies ordering_rank(
                        #[trigger] t.cmp_spec(&pre[j]),
                    ) <= ordering_rank(Ordering::Equal) by {
                        assert(ord(t, pre[j]) == Ordering::Less);
                    }
                    assert forall|j: int| 0 <= j < pre.len() implies (#[trigger] t.cmp_spec(
                        &pre[j],
                    )) != Ordering::Equal by {
                        if j < index {
                            assert(ord(t, pre[j]) == Ordering::Greater);
                        } else {
                            assert(ord(t, pre[j]) == Ordering::Less);
                        }
                    }
                    lemma_insert_keeps_sorted(pre, t, index as int);
                }
                self.data.insert(index, item);
                proof {
                    assert(self@ =~= pre.insert(index as int, t));
                }
                Some(index)
            },
            Ok(i) => {
                proof {
                    let ord = cmp_spec_of::<T>();
                    assert(ord(t, pre[i as int]) == Ordering::Equal);
                    assert(t.cmp_spec(&pre[i as int]) == Ordering::Equal);
                }
                None
            },
        }
    }
}

/// In a sorted store, comparisons of a probe against the elements never
/// increase from `Greater` through `Equal` to `Less`.
proof fn lemma_sorted_probe_monotone<T: Ord>(s: Seq<T>, t: T)
    requires
        cmp_spec_consistent::<T>(),
        cmp_sorted(s),
    ensures
        probe_monotone(s, t, cmp_spec_of::<T>()),
{
    let ord = cmp_spec_of::<T>();
    assert forall|i: int, j: int| 0 <= i <= j < s.len() implies ordering_rank(ord(t, s[i]))
        >= ordering_rank(ord(t, s[j])) by {
        if i < j {
            assert(s[i].cmp_spec(&s[j]) != Ordering::Greater);
            if s[i].cmp_spec(&s[j]) == Ordering::Less {
                if t.cmp_spec(&s[i]) == Ordering::Less {
                    assert(t.cmp_spec(&s[j]) == Ordering::Less);
                }
                if t.cmp_spec(&s[i]) == Ordering::Equal {
                    assert(t.cmp_spec(&s[j]) == s[i].cmp_spec(&s[j]));
                }
                if t.cmp_spec(&s[j]) == Ordering::Greater && t.cmp_spec(&s[i])
                    != Ordering::Greater {
                    if t.cmp_spec(&s[i]) == Ordering::Less {
                        assert(t.cmp_spec(&s[j]) == Ordering::Less);
                    } else {
                        assert(t.cmp_spec(&s[i]) == Ordering::Equal);
                        assert(t.cmp_spec(&s[j]) == s[i].cmp_spec(&s[j]));
                    }
                    assert(false);
                }
                if t.cmp_spec(&s[j]) == Ordering::Equal && t.cmp_spec(&s[i]) == Ordering::Less {
                    assert(t.cmp_spec(&s[j]) == Ordering::Less);
                    assert(false);
                }
            } else {
                assert(s[i].cmp_spec(&s[j]) == Ordering::Equal);
                assert(t.cmp_spec(&s[i]) == t.cmp_spec(&s[j]));
            }
        }
    }
}

/// Inserting at the position a lower-bound search names keeps the store
/// sorted.
proof fn lemma_insert_keeps_sorted<T: Ord>(s: Seq<T>, t: T, i: int)
    requires
        cmp_spec_consistent::<T>(),
        cmp_sorted(s),
        0 <= i <= s.len(),
        forall|j: int| 0 <= j < i ==> ordering_rank(#[trigger] t.cmp_spec(&s[j])) >= ordering_rank(
            Ordering::Equal,
        ),
        forall|j: int| i <= j < s.len() ==> ordering_rank(#[trigger] t.cmp_spec(&s[j]))
            <= ordering_rank(Ordering::Equal),
    ensures
        cmp_sorted(s.insert(i, t)),
{
    let w = s.insert(i, t);
    s.insert_ensures(i, t);
    assert forall|p: int, q: int| 0 <= p < q < w.len() implies (#[trigger] w[p].cmp_spec(&w[q]))
        != Ordering::Greater by {
        if p < i && q == i {
            assert(w[p] == s[p]);
            assert(w[q] == t);
            // t compares Greater or Equal against s[p]
            if t.cmp_spec(&s[p]) == Ordering::Greater {
                assert(s[p].cmp_spec(&t) == Ordering::Less);
            } else {
                assert(t.cmp_spec(&s[p]) == Ordering::Equal);
                assert(t.cmp_spec(&t) == s[p].cmp_spec(&t));
                assert(t.cmp_spec(&s[p]) == t.cmp_spec(&t));
            }
        } else if p == i && q > i {
            assert(w[p] == t);
            assert(w[q] == s[q - 1]);
        } else if p < i && q > i {
            assert(w[p] == s[p]);
            assert(w[q] == s[q - 1]);
        } else if q < i {
            assert(w[p] == s[p]);
            assert(w[q] == s[q]);
        } else {
            assert(w[p] == s[p - 1]);
            assert(w[q] == s[q - 1]);
        }
    }
}

} // verus!
