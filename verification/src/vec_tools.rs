//! Set-style operations on slices: union without duplicates, subset,
//! and intersection tests, all by pairwise equality.

use vstd::prelude::*;
use vstd::std_specs::cmp::PartialEqSpec;

verus! {

/// Whether some element of `s` equals `x`, with the element on the
/// left of the comparison, as the executable scans perform it.
pub open spec fn some_elem_eq<T: PartialEq>(s: Seq<T>, x: T) -> bool {
    exists|i: int| 0 <= i < s.len() && (#[trigger] s[i]).eq_spec(&x)
}

/// The elements a sequence of references points at.
pub open spec fn mapped_of<T>(s: Seq<&T>) -> Seq<T> {
    s.map_values(|z: &T| *z)
}

/// The union of two slices as a vector of references, each element
/// once: first the distinct elements of `vec1`, then those of `vec2`
/// not already represented.
pub fn set_union_vec<'a, T: PartialEq>(vec1: &'a [T], vec2: &'a [T]) -> (r: Vec<&'a T>)
    ensures
        forall|k: int|
            0 <= k < r@.len() ==> vec1@.contains(*#[trigger] r@[k]) || vec2@.contains(*r@[k]),
        T::obeys_eq_spec() ==> forall|i: int, j: int|
            #![trigger r@[i], r@[j]]
            0 <= i < j < r@.len() ==> !(*r@[i]).eq_spec(r@[j]),
        T::obeys_eq_spec() ==> forall|i: int|
            0 <= i < vec1@.len() ==> some_elem_eq(mapped_of(r@), #[trigger] vec1@[i])
                || mapped_of(r@).contains(vec1@[i]),
        T::obeys_eq_spec() ==> forall|i: int|
            0 <= i < vec2@.len() ==> some_elem_eq(mapped_of(r@), #[trigger] vec2@[i])
                || mapped_of(r@).contains(vec2@[i]),
{
    let mut result: Vec<&T> = Vec::new();
    let mut i: usize = 0;
    while i < vec1.len()
        invariant
            i <= vec1@.len(),
            forall|k: int|
                0 <= k < result@.len() ==> vec1@.contains(*#[trigger] result@[k])
                    || vec2@.contains(*result@[k]),
            T::obeys_eq_spec() ==> forall|p: int, q: int|
                #![trigger result@[p], result@[q]]
                0 <= p < q < result@.len() ==> !(*result@[p]).eq_spec(result@[q]),
            T::obeys_eq_spec() ==> forall|p: int|
                0 <= p < i ==> some_elem_eq(mapped_of(result@), #[trigger] vec1@[p])
                    || mapped_of(result@).contains(vec1@[p]),
        decreases vec1@.len() - i,
    {
        let ghost prev = result@;
        push_if_absent(&mut result, &vec1[i]);
        proof {
            assert(vec1@.contains(vec1@[i as int]));
            if T::obeys_eq_spec() {
                lemma_push_if_absent_bridge(prev, result@, vec1@[i as int]);
            }
        }
        i = i + 1;
    }
    let mut j: usize = 0;
    while j < vec2.len()
        invariant
            j <= vec2@.len(),
            forall|k: int|
                0 <= k < result@.len() ==> vec1@.contains(*#[trigger] result@[k])
                    || vec2@.contains(*result@[k]),
            T::obeys_eq_spec() ==> forall|p: int, q: int|
                #![trigger result@[p], result@[q]]
                0 <= p < q < result@.len() ==> !(*result@[p]).eq_spec(result@[q]),
            T::obeys_eq_spec() ==> forall|p: int|
                0 <= p < vec1@.len() ==> some_elem_eq(
                    mapped_of(result@),
                    #[trigger] vec1@[p],
                ) || mapped_of(result@).contains(vec1@[p]),
            T::obeys_eq_spec() ==> forall|p: int|
                0 <= p < j ==> some_elem_eq(mapped_of(result@), #[trigger] vec2@[p])
                    || mapped_of(result@).contains(vec2@[p]),
        decreases vec2@.len() - j,
    {
        let ghost prev = result@;
        push_if_absent(&mut result, &vec2[j]);
        proof {
            assert(vec2@.contains(vec2@[j as int]));
            if T::obeys_eq_spec() {
                lemma_push_if_absent_bridge(prev, result@, vec2@[j as int]);
            }
        }
        j = j + 1;
    }
    result
}

/// Appends the element unless one already present equals it.
fn push_if_absent<'a, T: PartialEq>(result: &mut Vec<&'a T>, item: &'a T)
    ensures
        final (result)@ == old(result)@ || final (result)@ == old(result)@.push(item),
        T::obeys_eq_spec() ==> (final (result)@ == old(result)@ <==> some_elem_eq(
            mapped_of(old(result)@),
            *item,
        )),
        T::obeys_eq_spec() ==> some_elem_eq(mapped_of(final (result)@), *item)
            || mapped_of(final (result)@).contains(*item),
        forall|p: int| 0 <= p < old(result)@.len() ==> #[trigger] final (result)@[p] == old(
            result,
        )@[p],
{
    let n = result.len();
    let mut k: usize = 0;
    while k < n
        invariant
            n == result@.len(),
            k <= n,
            result@ == old(result)@,
            T::obeys_eq_spec() ==> forall|p: int|
                0 <= p < k ==> !(*#[trigger] result@[p]).eq_spec(item),
        decreases n - k,
    {
        if *result[k] == *item {
            proof {
                if T::obeys_eq_spec() {
                    assert(mapped_of(result@)[k as int] == *result@[k as int]);
                }
            }
            return ;
        }
        k = k + 1;
    }
    result.push(item);
    proof {
        if T::obeys_eq_spec() {
            assert(mapped_of(result@)[n as int] == *item);
            assert(mapped_of(result@).contains(*item));
            if some_elem_eq(mapped_of(old(result)@), *item) {
                let ghost mapped = mapped_of(old(result)@);
                let p = choose|p: int|
                    0 <= p < mapped.len() && (#[trigger] mapped[p]).eq_spec(item);
                assert(mapped[p] == *old(result)@[p]);
                assert(false);
            }
        }
    }
}

/// Whether every element of `sub` equals some element of `sup`.
pub fn set_is_subset<T: PartialEq>(sub: &[T], sup: &[T]) -> (r: bool)
    ensures
        T::obeys_eq_spec() ==> r == (forall|i: int|
            0 <= i < sub@.len() ==> some_elem_eq_rev(sup@, #[trigger] sub@[i])),
{
    let mut i: usize = 0;
    while i < sub.len()
        invariant
            i <= sub@.len(),
            T::obeys_eq_spec() ==> forall|p: int|
                0 <= p < i ==> some_elem_eq_rev(sup@, #[trigger] sub@[p]),
        decreases sub@.len() - i,
    {
        if !contains_eq(sup, &sub[i]) {
            return false;
        }
        i = i + 1;
    }
    true
}

/// Whether `x` equals some element of `s`, with `x` on the left of the
/// comparison.
pub open spec fn some_elem_eq_rev<T: PartialEq>(s: Seq<T>, x: T) -> bool {
    exists|i: int| 0 <= i < s.len() && x.eq_spec(#[trigger] &s[i])
}

/// Whether some element of `s1` equals some element of `s2`.
pub fn set_has_intersection<T: PartialEq>(s1: &[T], s2: &[T]) -> (r: bool)
    ensures
        T::obeys_eq_spec() ==> r == exists|i: int|
            0 <= i < s1@.len() && some_elem_eq_rev(s2@, #[trigger] s1@[i]),
{
    let mut i: usize = 0;
    while i < s1.len()
        invariant
            i <= s1@.len(),
            T::obeys_eq_spec() ==> forall|p: int|
                0 <= p < i ==> !some_elem_eq_rev(s2@, #[trigger] s1@[p]),
        decreases s1@.len() - i,
    {
        if contains_eq(s2, &s1[i]) {
            return true;
        }
        i = i + 1;
    }
    false
}

/// Whether the probe equals some element of the slice, probe on the
/// left.
fn contains_eq<T: PartialEq>(s: &[T], probe: &T) -> (r: bool)
    ensures
        T::obeys_eq_spec() ==> r == some_elem_eq_rev(s@, *probe),
{
    let mut k: usize = 0;
    while k < s.len()
        invariant
            k <= s@.len(),
            T::obeys_eq_spec() ==> forall|p: int| 0 <= p < k ==> !probe.eq_spec(#[trigger] &s@[p]),
        decreases s@.len() - k,
    {
        if *probe == s[k] {
            return true;
        }
        k = k + 1;
    }
    false
}


/// What one guarded append does to the derived views of the store: the
/// mapped elements keep their places, so every earlier membership fact
/// survives, and a fresh last element equals nothing before it.
proof fn lemma_push_if_absent_bridge<T: PartialEq>(prev: Seq<&T>, cur: Seq<&T>, x: T)
    requires
        T::obeys_eq_spec(),
        cur == prev || (cur.len() == prev.len() + 1 && !some_elem_eq(
            mapped_of(prev),
            *cur.last(),
        )),
        forall|p: int| 0 <= p < prev.len() ==> #[trigger] cur[p] == prev[p],
    ensures
        forall|y: T| #[trigger] some_elem_eq(mapped_of(prev), y) ==> some_elem_eq(
            mapped_of(cur),
            y,
        ),
        forall|y: T| #[trigger] mapped_of(prev).contains(y) ==> mapped_of(cur).contains(y),
        forall|p: int, q: int|
            #![trigger cur[p], cur[q]]
            (forall|p2: int, q2: int|
                #![trigger prev[p2], prev[q2]]
                0 <= p2 < q2 < prev.len() ==> !(*prev[p2]).eq_spec(prev[q2])) && 0 <= p < q
                < cur.len() ==> !(*cur[p]).eq_spec(cur[q]),
{
    let pm = mapped_of(prev);
    let cm = mapped_of(cur);
    assert forall|y: T| some_elem_eq(pm, y) implies some_elem_eq(cm, y) by {
        let k = choose|k: int| 0 <= k < pm.len() && (#[trigger] pm[k]).eq_spec(&y);
        assert(pm[k] == *prev[k]);
        assert(cm[k] == *cur[k]);
        assert(cm[k].eq_spec(&y));
    }
    assert forall|y: T| pm.contains(y) implies cm.contains(y) by {
        let k = choose|k: int| 0 <= k < pm.len() && #[trigger] pm[k] == y;
        assert(pm[k] == *prev[k]);
        assert(cm[k] == *cur[k]);
    }
    assert forall|p: int, q: int|
        #![trigger cur[p], cur[q]]
        (forall|p2: int, q2: int|
            #![trigger prev[p2], prev[q2]]
            0 <= p2 < q2 < prev.len() ==> !(*prev[p2]).eq_spec(prev[q2])) && 0 <= p < q
        < cur.len() implies !(*cur[p]).eq_spec(cur[q]) by {
        if cur == prev {
        } else {
            if q < prev.len() {
                assert(cur[p] == prev[p]);
                assert(cur[q] == prev[q]);
            } else {
                assert(q == prev.len());
                assert(cur[q] == cur.last());
                assert(cur[p] == prev[p]);
                if (*cur[p]).eq_spec(cur[q]) {
                    assert(pm[p] == *prev[p]);
                    assert(some_elem_eq(pm, *cur.last()));
                    assert(false);
                }
            }
        }
    }
}

} // verus!
