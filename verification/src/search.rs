//! Lower-bound searches over sorted slices.
//!
//! Each search either finds the position of the target or reports the
//! position at which the target could be inserted without disturbing the
//! order. The comparator is a caller-supplied function; its intended
//! meaning is passed alongside as a ghost comparison so that the
//! contracts can speak about elements the search never probed.

use core::cmp::Ordering;
use vstd::prelude::*;
use vstd::std_specs::cmp::OrdSpec;

verus! {

/// Rank of an `Ordering` along the axis the searches walk: `Greater`
/// means the target lies further right, `Less` further left.
pub open spec fn ordering_rank(o: Ordering) -> int {
    match o {
        Ordering::Less => 0,
        Ordering::Equal => 1,
        Ordering::Greater => 2,
    }
}

/// The comparator `cmp` implements the comparison `ord` of the target
/// against every element of `arr`.
pub open spec fn cmp_implements<T1, T2, Cmp: Fn(&T2, &T1) -> Ordering>(
    cmp: Cmp,
    arr: Seq<T1>,
    target: &T2,
    ord: spec_fn(T2, T1) -> Ordering,
) -> bool {
    &&& forall|i: int| 0 <= i < arr.len() ==> #[trigger] call_requires(cmp, (target, &arr[i]))
    &&& forall|i: int, o: Ordering|
        0 <= i < arr.len() && #[trigger] call_ensures(cmp, (target, &arr[i]), o) ==> o == ord(
            *target,
            arr[i],
        )
}

/// The comparison of the target against the elements of `arr` never
/// increases from `Greater` through `Equal` to `Less`: the shape a
/// sorted slice gives to the probes of a search.
pub open spec fn probe_monotone<T1, T2>(
    arr: Seq<T1>,
    target: T2,
    ord: spec_fn(T2, T1) -> Ordering,
) -> bool {
    forall|i: int, j: int|
        0 <= i <= j < arr.len() ==> ordering_rank(#[trigger] ord(target, arr[i])) >= ordering_rank(
            #[trigger] ord(target, arr[j]),
        )
}

/// What a lower-bound search returns: `Ok` is a position of the target,
/// `Err` the position at which the target would have to be inserted.
pub open spec fn search_result_correct<T1, T2>(
    arr: Seq<T1>,
    target: T2,
    ord: spec_fn(T2, T1) -> Ordering,
    r: Result<usize, usize>,
) -> bool {
    match r {
        Ok(i) => i < arr.len() && ord(target, arr[i as int]) == Ordering::Equal,
        Err(i) => {
            &&& i <= arr.len()
            &&& forall|j: int| 0 <= j < i ==> #[trigger] ord(target, arr[j]) == Ordering::Greater
            &&& forall|j: int| i <= j < arr.len() ==> #[trigger] ord(target, arr[j])
                == Ordering::Less
        },
    }
}

/// Binary search with a caller-supplied comparator; the ghost `ord` is
/// the comparison the comparator implements.
pub fn binary_search_by<T1, T2, Cmp: Fn(&T2, &T1) -> Ordering>(
    arr: &[T1],
    target: &T2,
    cmp: Cmp,
    Ghost(ord): Ghost<spec_fn(T2, T1) -> Ordering>,
) -> (r: Result<usize, usize>)
    requires
        cmp_implements(cmp, arr@, target, ord),
        probe_monotone(arr@, *target, ord),
    ensures
        search_result_correct(arr@, *target, ord, r),
{
    if arr.len() == 0 {
        return Err(0);
    }
    let mut left: usize = 0;
    let mut right: usize = arr.len() - 1;
    let mut mid: usize = left + (right - left) / 2;
    while left <= right
        invariant
            cmp_implements(cmp, arr@, target, ord),
            probe_monotone(arr@, *target, ord),
            arr@.len() > 0,
            left <= arr@.len(),
            right < arr@.len(),
            mid < arr@.len(),
            left <= mid + 1,
            mid <= right + 1,
            forall|j: int| 0 <= j < left ==> #[trigger] ord(*target, arr@[j]) == Ordering::Greater,
            forall|j: int| right < j < arr@.len() ==> #[trigger] ord(*target, arr@[j])
                == Ordering::Less,
        decreases right + 1 - left,
    {
        mid = left + (right - left) / 2;
        let o = cmp(target, &arr[mid]);
        proof {
            assert(o == ord(*target, arr@[mid as int]));
        }
        match o {
            Ordering::Equal => {
                return Ok(mid);
            },
            Ordering::Greater => {
                left = mid + 1;
            },
            Ordering::Less => {
                if mid == 0 {
                    // everything compares `Less`: the target precedes the slice
                    assert forall|j: int| 0 <= j < arr@.len() implies #[trigger] ord(
                        *target,
                        arr@[j],
                    ) == Ordering::Less by {
                        assert(ordering_rank(ord(*target, arr@[0])) >= ordering_rank(
                            ord(*target, arr@[j]),
                        ));
                    }
                    return Err(0);
                } else {
                    right = mid - 1;
                }
            },
        }
    }
    // the two halves have met: one more probe of the last midpoint tells
    // on which side of it the insertion point lies
    let o = cmp(target, &arr[mid]);
    proof {
        assert(o == ord(*target, arr@[mid as int]));
        if o == Ordering::Greater {
            assert forall|j: int| 0 <= j <= mid implies #[trigger] ord(*target, arr@[j])
                == Ordering::Greater by {
                assert(ordering_rank(ord(*target, arr@[j])) >= ordering_rank(
                    ord(*target, arr@[mid as int]),
                ));
            }
        } else {
            assert(mid == right + 1 || ord(*target, arr@[mid as int]) == Ordering::Greater);
            assert forall|j: int| mid <= j < arr@.len() implies #[trigger] ord(*target, arr@[j])
                == Ordering::Less by {
                assert(ordering_rank(ord(*target, arr@[mid as int])) >= ordering_rank(
                    ord(*target, arr@[j]),
                ));
            }
        }
    }
    match o {
        Ordering::Greater => Err(mid + 1),
        _ => Err(mid),
    }
}

/// Linear search with a caller-supplied comparator; same contract as
/// [`binary_search_by`], reached by a front-to-back scan.
pub fn linear_search_by<T1, T2, Cmp: Fn(&T2, &T1) -> Ordering>(
    arr: &[T1],
    target: &T2,
    cmp: Cmp,
    Ghost(ord): Ghost<spec_fn(T2, T1) -> Ordering>,
) -> (r: Result<usize, usize>)
    requires
        cmp_implements(cmp, arr@, target, ord),
        probe_monotone(arr@, *target, ord),
    ensures
        search_result_correct(arr@, *target, ord, r),
{
    let mut i: usize = 0;
    while i < arr.len()
        invariant
            cmp_implements(cmp, arr@, target, ord),
            probe_monotone(arr@, *target, ord),
            i <= arr@.len(),
            forall|j: int| 0 <= j < i ==> #[trigger] ord(*target, arr@[j]) == Ordering::Greater,
        decreases arr@.len() - i,
    {
        match cmp(target, &arr[i]) {
            Ordering::Equal => {
                return Ok(i);
            },
            Ordering::Less => {
                return Err(i);
            },
            Ordering::Greater => {
                i = i + 1;
            },
        }
    }
    Err(i)
}

/// The comparison that `Ord::cmp` stands for, as a ghost comparison.
pub open spec fn cmp_spec_of<T: Ord>() -> spec_fn(T, T) -> Ordering {
    |a: T, b: T| a.cmp_spec(&b)
}

/// What a call of `Ord::cmp` is known to return, where its meaning is known.
pub open spec fn ord_cmp_agrees<T: Ord>(a: &T, b: &T, o: Ordering) -> bool {
    T::obeys_cmp_spec() ==> o == a.cmp_spec(b)
}

/// Binary search over a slice of an ordered type whose `cmp` has a
/// known meaning, such as the integers.
pub fn binary_search<T: Ord>(arr: &[T], target: &T) -> (r: Result<usize, usize>)
    requires
        T::obeys_cmp_spec(),
        probe_monotone(arr@, *target, cmp_spec_of::<T>()),
    ensures
        search_result_correct(arr@, *target, cmp_spec_of::<T>(), r),
{
    let f = |a: &T, b: &T| -> (o: Ordering)
        ensures
            ord_cmp_agrees(a, b, o),
        { a.cmp(b) };
    binary_search_by(arr, target, f, Ghost(cmp_spec_of::<T>()))
}

/// Linear search over a slice of an ordered type whose `cmp` has a
/// known meaning; same contract as [`binary_search`].
pub fn linear_search<T: Ord>(arr: &[T], target: &T) -> (r: Result<usize, usize>)
    requires
        T::obeys_cmp_spec(),
        probe_monotone(arr@, *target, cmp_spec_of::<T>()),
    ensures
        search_result_correct(arr@, *target, cmp_spec_of::<T>(), r),
{
    let f = |a: &T, b: &T| -> (o: Ordering)
        ensures
            ord_cmp_agrees(a, b, o),
        { a.cmp(b) };
    linear_search_by(arr, target, f, Ghost(cmp_spec_of::<T>()))
}

/// The search the rest of the crate routes through: binary search.
#[inline(always)]
pub fn search_by<T1, T2, Cmp: Fn(&T2, &T1) -> Ordering>(
    arr: &[T1],
    target: &T2,
    cmp: Cmp,
    Ghost(ord): Ghost<spec_fn(T2, T1) -> Ordering>,
) -> (r: Result<usize, usize>)
    requires
        cmp_implements(cmp, arr@, target, ord),
        probe_monotone(arr@, *target, ord),
    ensures
        search_result_correct(arr@, *target, ord, r),
{
    binary_search_by(arr, target, cmp, Ghost(ord))
}

} // verus!
