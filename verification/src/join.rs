//! Joining strings onto a target string without intermediate
//! allocations: with one separator, with a run of separators, and with
//! empty entries skipped.

use vstd::prelude::*;
use vstd::string::StringExecFns;

verus! {

/// The character sequences a slice of string slices stands for.
pub open spec fn views_of(items: Seq<&str>) -> Seq<Seq<char>> {
    items.map_values(|s: &str| s@)
}

/// The items joined with the separator between neighbours.
pub open spec fn spec_join(items: Seq<Seq<char>>, sep: Seq<char>) -> Seq<char>
    decreases items.len(),
{
    if items.len() == 0 {
        Seq::empty()
    } else if items.len() == 1 {
        items[0]
    } else {
        spec_join(items.drop_last(), sep) + sep + items.last()
    }
}

/// The items joined with the separator between neighbours, an empty
/// item after the first adding nothing, not even its separators.
pub open spec fn spec_join_skip_empty(items: Seq<Seq<char>>, sep: Seq<char>) -> Seq<char>
    decreases items.len(),
{
    if items.len() == 0 {
        Seq::empty()
    } else if items.len() == 1 {
        items[0]
    } else if items.last().len() == 0 {
        spec_join_skip_empty(items.drop_last(), sep)
    } else {
        spec_join_skip_empty(items.drop_last(), sep) + sep + items.last()
    }
}

/// The sequences laid end to end.
pub open spec fn spec_concat(parts: Seq<Seq<char>>) -> Seq<char>
    decreases parts.len(),
{
    if parts.len() == 0 {
        Seq::empty()
    } else {
        spec_concat(parts.drop_last()) + parts.last()
    }
}

/// Appends the items to `out`, the separator between neighbours.
pub fn join_to(out: &mut String, items: &[&str], sep: &str)
    ensures
        final (out)@ == old(out)@ + spec_join(views_of(items@), sep@),
{
    let mut i: usize = 0;
    while i < items.len()
        invariant
            i <= items@.len(),
            out@ == old(out)@ + spec_join(views_of(items@).take(i as int), sep@),
        decreases items@.len() - i,
    {
        if i > 0 {
            out.append(sep);
        }
        out.append(items[i]);
        proof {
            lemma_join_step(views_of(items@), sep@, i as int);
            assert(views_of(items@).take(i as int + 1).drop_last() =~= views_of(items@).take(
                i as int,
            ));
            assert(views_of(items@).take(i as int + 1).last() == items@[i as int]@);
        }
        i = i + 1;
    }
    proof {
        assert(views_of(items@).take(items@.len() as int) =~= views_of(items@));
    }
}

/// The items joined into a fresh string, the separator between
/// neighbours.
pub fn join_to_new(items: &[&str], sep: &str) -> (r: String)
    ensures
        r@ == spec_join(views_of(items@), sep@),
{
    let mut r = String::new();
    join_to(&mut r, items, sep);
    proof {
        assert(Seq::<char>::empty() + spec_join(views_of(items@), sep@) =~= spec_join(
            views_of(items@),
            sep@,
        ));
    }
    r
}

/// Appends the items to `out`, the whole run of separators between
/// neighbours.
pub fn join_to_multi(out: &mut String, items: &[&str], separators: &[&str])
    ensures
        final (out)@ == old(out)@ + spec_join(views_of(items@), spec_concat(views_of(separators@))),
{
    let ghost sep = spec_concat(views_of(separators@));
    let mut i: usize = 0;
    while i < items.len()
        invariant
            i <= items@.len(),
            sep == spec_concat(views_of(separators@)),
            out@ == old(out)@ + spec_join(views_of(items@).take(i as int), sep),
        decreases items@.len() - i,
    {
        if i > 0 {
            append_all(out, separators);
        }
        out.append(items[i]);
        proof {
            lemma_join_step(views_of(items@), sep, i as int);
            assert(views_of(items@).take(i as int + 1).drop_last() =~= views_of(items@).take(
                i as int,
            ));
            assert(views_of(items@).take(i as int + 1).last() == items@[i as int]@);
        }
        i = i + 1;
    }
    proof {
        assert(views_of(items@).take(items@.len() as int) =~= views_of(items@));
    }
}

/// The items joined into a fresh string, the whole run of separators
/// between neighbours.
pub fn join_to_multi_new(items: &[&str], separators: &[&str]) -> (r: String)
    ensures
        r@ == spec_join(views_of(items@), spec_concat(views_of(separators@))),
{
    let mut r = String::new();
    join_to_multi(&mut r, items, separators);
    proof {
        let j = spec_join(views_of(items@), spec_concat(views_of(separators@)));
        assert(Seq::<char>::empty() + j =~= j);
    }
    r
}

/// Appends every part, in order.
fn append_all(out: &mut String, parts: &[&str])
    ensures
        final (out)@ == old(out)@ + spec_concat(views_of(parts@)),
{
    let mut k: usize = 0;
    while k < parts.len()
        invariant
            k <= parts@.len(),
            out@ == old(out)@ + spec_concat(views_of(parts@).take(k as int)),
        decreases parts@.len() - k,
    {
        out.append(parts[k]);
        proof {
            assert(views_of(parts@).take(k as int + 1).drop_last() =~= views_of(parts@).take(
                k as int,
            ));
            assert(views_of(parts@).take(k as int + 1).last() == parts@[k as int]@);
        }
        k = k + 1;
    }
    proof {
        assert(views_of(parts@).take(parts@.len() as int) =~= views_of(parts@));
    }
}

/// When the staging buffer holds anything, moves it onto `out` behind
/// one separator and leaves the buffer empty; an empty buffer changes
/// nothing.
pub fn add_space_if_necessary_and_flush_buffer(out: &mut String, buffer: &mut String, separator: &str)
    ensures
        old(buffer)@.len() == 0 ==> final (out)@ == old(out)@ && final (buffer)@ == old(buffer)@,
        old(buffer)@.len() > 0 ==> final (out)@ == old(out)@ + separator@ + old(buffer)@
            && final (buffer)@.len() == 0,
{
    if !buffer.as_str().is_empty() {
        out.append(separator);
        out.append(buffer.as_str());
        *buffer = String::new();
    }
}

/// Appends the elements to `out` with the separator between
/// neighbours, skipping empty elements after the first so that no two
/// separators stand together.
pub fn join_lest_multiple_separators(out: &mut String, elements: &[&str], separator: &str)
    ensures
        final (out)@ == old(out)@ + spec_join_skip_empty(views_of(elements@), separator@),
{
    if elements.len() == 0 {
        return ;
    }
    out.append(elements[0]);
    proof {
        assert(views_of(elements@).take(1).len() == 1);
        assert(views_of(elements@).take(1)[0] == elements@[0]@);
    }
    let mut i: usize = 1;
    while i < elements.len()
        invariant
            1 <= i <= elements@.len(),
            out@ == old(out)@ + spec_join_skip_empty(views_of(elements@).take(i as int), separator@),
        decreases elements@.len() - i,
    {
        proof {
            assert(views_of(elements@).take(i as int + 1).drop_last() =~= views_of(elements@).take(
                i as int,
            ));
            assert(views_of(elements@).take(i as int + 1).last() == elements@[i as int]@);
        }
        if !elements[i].is_empty() {
            out.append(separator);
            out.append(elements[i]);
        }
        i = i + 1;
    }
    proof {
        assert(views_of(elements@).take(elements@.len() as int) =~= views_of(elements@));
    }
}

/// One joining step: extending the items by one appends one separator
/// and the new item, except at the very front.
proof fn lemma_join_step(items: Seq<Seq<char>>, sep: Seq<char>, i: int)
    requires
        0 <= i < items.len(),
    ensures
        i == 0 ==> spec_join(items.take(1), sep) == items[0],
        i > 0 ==> spec_join(items.take(i + 1), sep) == spec_join(items.take(i), sep) + sep
            + items[i],
{
    if i == 0 {
        assert(items.take(1).len() == 1);
        assert(items.take(1)[0] == items[0]);
    } else {
        assert(items.take(i + 1).drop_last() =~= items.take(i));
        assert(items.take(i + 1).last() == items[i]);
    }
}

} // verus!
