//! Small general facts about sequences that several modules share.

use vstd::prelude::*;

verus! {

/// What a sequence holds after an insertion: the inserted element, and
/// everything it held before.
pub proof fn lemma_insert_contains<A>(s: Seq<A>, i: int, x: A)
    requires
        0 <= i <= s.len(),
    ensures
        forall|y: A| s.insert(i, x).contains(y) <==> s.contains(y) || y == x,
{
    s.insert_ensures(i, x);
    assert forall|y: A| s.insert(i, x).contains(y) implies s.contains(y) || y == x by {
        let k = choose|k: int| 0 <= k < s.insert(i, x).len() && s.insert(i, x)[k] == y;
        if k < i {
            assert(s[k] == y);
        } else if k > i {
            assert(s.insert(i, x)[(k - 1) + 1] == s[k - 1]);
            assert(s[k - 1] == y);
        }
    }
    assert forall|y: A| s.contains(y) || y == x implies s.insert(i, x).contains(y) by {
        if y == x {
            assert(s.insert(i, x)[i] == y);
        } else {
            let k = choose|k: int| 0 <= k < s.len() && s[k] == y;
            if k < i {
                assert(s.insert(i, x)[k] == y);
            } else {
                assert(s.insert(i, x)[k + 1] == y);
            }
        }
    }
}

} // verus!
