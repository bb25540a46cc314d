//! Lexicographic order on character sequences, and the executable string
//! comparisons the affix dictionaries rest on.
//!
//! The order is by Unicode code point, character by character; a proper
//! prefix sorts before every string that extends it.

use core::cmp::Ordering;
use vstd::prelude::*;
use vstd::string::StrSliceExecFns;

verus! {

/// Lexicographic comparison of two character sequences, code point by
/// code point; a proper prefix compares `Less` than its extensions.
pub open spec fn lex_cmp(a: Seq<char>, b: Seq<char>) -> Ordering
    decreases a.len(),
{
    if a.len() == 0 && b.len() == 0 {
        Ordering::Equal
    } else if a.len() == 0 {
        Ordering::Less
    } else if b.len() == 0 {
        Ordering::Greater
    } else if a[0] == b[0] {
        lex_cmp(a.drop_first(), b.drop_first())
    } else if (a[0] as u32) < (b[0] as u32) {
        Ordering::Less
    } else {
        Ordering::Greater
    }
}

/// `lex_cmp` reports `Equal` exactly on equal sequences.
pub proof fn lemma_lex_cmp_eq(a: Seq<char>, b: Seq<char>)
    ensures
        lex_cmp(a, b) == Ordering::Equal <==> a == b,
    decreases a.len(),
{
    if a.len() == 0 && b.len() == 0 {
        assert(a =~= b);
    } else if a.len() != 0 && b.len() != 0 && a[0] == b[0] {
        lemma_lex_cmp_eq(a.drop_first(), b.drop_first());
        if a.drop_first() == b.drop_first() {
            assert forall|i: int| 0 <= i < a.len() implies a[i] == b[i] by {
                if i > 0 {
                    assert(a[i] == a.drop_first()[i - 1]);
                    assert(b[i] == b.drop_first()[i - 1]);
                }
            }
            assert(a =~= b);
        }
        if a == b {
            assert(a.drop_first() =~= b.drop_first());
        }
    }
}

/// Swapping the arguments of `lex_cmp` swaps `Less` and `Greater`.
pub proof fn lemma_lex_cmp_flip(a: Seq<char>, b: Seq<char>)
    ensures
        lex_cmp(a, b) == Ordering::Less <==> lex_cmp(b, a) == Ordering::Greater,
        lex_cmp(a, b) == Ordering::Equal <==> lex_cmp(b, a) == Ordering::Equal,
    decreases a.len(),
{
    if a.len() != 0 && b.len() != 0 {
        if a[0] == b[0] {
            lemma_lex_cmp_flip(a.drop_first(), b.drop_first());
        } else {
            // distinct characters have distinct code points
            vstd::utf8::char_u32_cast(a[0], a[0] as u32);
            vstd::utf8::char_u32_cast(b[0], b[0] as u32);
        }
    }
}

/// `lex_cmp` is transitive in its strict part.
pub proof fn lemma_lex_cmp_trans(a: Seq<char>, b: Seq<char>, c: Seq<char>)
    requires
        lex_cmp(a, b) == Ordering::Less,
        lex_cmp(b, c) == Ordering::Less,
    ensures
        lex_cmp(a, c) == Ordering::Less,
    decreases a.len() + b.len() + c.len(),
{
    if a.len() == 0 {
        if c.len() == 0 {
            // then b is empty too, contradicting lex_cmp(a, b) == Less
            assert(b.len() != 0);
        }
    } else {
        // a nonempty, so b nonempty (else lex_cmp(a, b) == Greater), and
        // likewise c nonempty
        assert(b.len() != 0);
        assert(c.len() != 0);
        if a[0] == b[0] && b[0] == c[0] {
            lemma_lex_cmp_trans(a.drop_first(), b.drop_first(), c.drop_first());
        }
    }
}

/// A shared leading segment does not affect the comparison of what follows.
pub proof fn lemma_lex_cmp_skip(a: Seq<char>, b: Seq<char>, i: int)
    requires
        0 <= i <= a.len(),
        i <= b.len(),
        a.subrange(0, i) == b.subrange(0, i),
    ensures
        lex_cmp(a, b) == lex_cmp(a.skip(i), b.skip(i)),
    decreases i,
{
    if i > 0 {
        assert(a[0] == a.subrange(0, i)[0]);
        assert(b[0] == b.subrange(0, i)[0]);
        assert(a.drop_first().subrange(0, i - 1) =~= b.drop_first().subrange(0, i - 1)) by {
            assert forall|j: int| 0 <= j < i - 1 implies a.drop_first()[j] == b.drop_first()[j] by {
                assert(a.drop_first()[j] == a.subrange(0, i)[j + 1]);
                assert(b.drop_first()[j] == b.subrange(0, i)[j + 1]);
            }
        }
        lemma_lex_cmp_skip(a.drop_first(), b.drop_first(), i - 1);
        assert(a.drop_first().skip(i - 1) =~= a.skip(i));
        assert(b.drop_first().skip(i - 1) =~= b.skip(i));
    } else {
        assert(a.skip(0) =~= a);
        assert(b.skip(0) =~= b);
    }
}

/// A prefix compares `Equal` to the whole exactly when it is the whole,
/// and `Less` otherwise.
pub proof fn lemma_lex_cmp_prefix(a: Seq<char>, b: Seq<char>)
    requires
        a.is_prefix_of(b),
    ensures
        lex_cmp(a, b) == if a.len() == b.len() {
            Ordering::Equal
        } else {
            Ordering::Less
        },
{
    assert(a.subrange(0, a.len() as int) =~= a);
    lemma_lex_cmp_skip(a, b, a.len() as int);
    assert(a.skip(a.len() as int) =~= Seq::<char>::empty());
    if a.len() == b.len() {
        assert(b.skip(a.len() as int) =~= Seq::<char>::empty());
    }
}

/// Of two prefixes of one sequence, the shorter is a prefix of the longer.
pub proof fn lemma_mutual_prefixes(a: Seq<char>, b: Seq<char>, t: Seq<char>)
    requires
        a.is_prefix_of(t),
        b.is_prefix_of(t),
        a.len() <= b.len(),
    ensures
        a.is_prefix_of(b),
{
    assert forall|j: int| 0 <= j < a.len() implies a[j] == b[j] by {
        assert(a[j] == t.subrange(0, a.len() as int)[j]);
        assert(b[j] == t.subrange(0, b.len() as int)[j]);
    }
    assert(a =~= b.subrange(0, a.len() as int));
}

/// Among prefixes of one sequence, the lexicographic order is the order
/// of lengths: this is what lets a dictionary sorted lexicographically
/// serve longest-match lookups by scanning from the greatest entry down.
pub proof fn lemma_prefix_order_is_length_order(a: Seq<char>, b: Seq<char>, t: Seq<char>)
    requires
        a.is_prefix_of(t),
        b.is_prefix_of(t),
        lex_cmp(a, b) == Ordering::Less,
    ensures
        a.len() < b.len(),
{
    if a.len() >= b.len() {
        lemma_mutual_prefixes(b, a, t);
        lemma_lex_cmp_prefix(b, a);
        lemma_lex_cmp_flip(a, b);
        lemma_lex_cmp_eq(a, b);
    }
}

/// How comparisons against a fixed probe `t` behave across an ordered pair:
/// the order of `t` against the greater element is bounded by its order
/// against the lesser.
pub proof fn lemma_lex_cmp_probe_mono(t: Seq<char>, a: Seq<char>, b: Seq<char>)
    requires
        lex_cmp(a, b) == Ordering::Less,
    ensures
        lex_cmp(t, a) == Ordering::Less ==> lex_cmp(t, b) == Ordering::Less,
        lex_cmp(t, a) == Ordering::Equal ==> lex_cmp(t, b) == Ordering::Less,
        lex_cmp(t, b) == Ordering::Greater ==> lex_cmp(t, a) == Ordering::Greater,
        lex_cmp(t, b) == Ordering::Equal ==> lex_cmp(t, a) == Ordering::Greater,
{
    if lex_cmp(t, a) == Ordering::Less {
        lemma_lex_cmp_trans(t, a, b);
    }
    if lex_cmp(t, a) == Ordering::Equal {
        lemma_lex_cmp_eq(t, a);
    }
    if lex_cmp(t, b) == Ordering::Greater {
        lemma_lex_cmp_flip(t, b);
        lemma_lex_cmp_trans(a, b, t);
        lemma_lex_cmp_flip(a, t);
    }
    if lex_cmp(t, b) == Ordering::Equal {
        lemma_lex_cmp_eq(t, b);
        lemma_lex_cmp_flip(a, t);
    }
}

/// The mirror of [`lemma_lex_cmp_probe_mono`] with the probe on the
/// right: how an ordered pair compares against a fixed probe `t`.
pub proof fn lemma_lex_cmp_subject_mono(t: Seq<char>, a: Seq<char>, b: Seq<char>)
    requires
        lex_cmp(a, b) == Ordering::Less,
    ensures
        lex_cmp(a, t) == Ordering::Greater ==> lex_cmp(b, t) == Ordering::Greater,
        lex_cmp(a, t) == Ordering::Equal ==> lex_cmp(b, t) == Ordering::Greater,
        lex_cmp(b, t) == Ordering::Less ==> lex_cmp(a, t) == Ordering::Less,
        lex_cmp(b, t) == Ordering::Equal ==> lex_cmp(a, t) == Ordering::Less,
{
    lemma_lex_cmp_probe_mono(t, a, b);
    lemma_lex_cmp_flip(a, b);
    lemma_lex_cmp_flip(a, t);
    lemma_lex_cmp_flip(b, t);
    lemma_lex_cmp_flip(t, a);
    lemma_lex_cmp_flip(t, b);
    lemma_lex_cmp_eq(t, a);
    lemma_lex_cmp_eq(t, b);
    lemma_lex_cmp_eq(a, t);
    lemma_lex_cmp_eq(b, t);
}

/// A strictly ascending sequence of entries: sorted, with no duplicates.
pub open spec fn lex_ascending(entries: Seq<Seq<char>>) -> bool {
    forall|i: int, j: int|
        0 <= i < j < entries.len() ==> lex_cmp(#[trigger] entries[i], #[trigger] entries[j])
            == Ordering::Less
}

/// A strictly descending sequence of entries: sorted the other way
/// round, with no duplicates.
pub open spec fn lex_descending(entries: Seq<Seq<char>>) -> bool {
    forall|i: int, j: int|
        0 <= i < j < entries.len() ==> lex_cmp(#[trigger] entries[i], #[trigger] entries[j])
            == Ordering::Greater
}

/// An entry absent from an ascending store has exactly one position that
/// receives it without disturbing the order: the position a failed
/// lower-bound search names.
pub proof fn lemma_insert_position_keeps_order(entries: Seq<Seq<char>>, a: Seq<char>, i: int)
    requires
        lex_ascending(entries),
        0 <= i <= entries.len(),
        forall|j: int| 0 <= j < i ==> lex_cmp(#[trigger] entries[j], a) == Ordering::Less,
        forall|j: int| i <= j < entries.len() ==> lex_cmp(a, #[trigger] entries[j])
            == Ordering::Less,
    ensures
        lex_ascending(entries.insert(i, a)),
{
    let w = entries.insert(i, a);
    assert forall|p: int, q: int| 0 <= p < q < w.len() implies lex_cmp(w[p], w[q])
        == Ordering::Less by {
        if p < i && q == i {
            assert(w[p] == entries[p]);
        } else if p == i && q > i {
            assert(w[q] == entries[q - 1]);
        } else if p < i && q > i {
            assert(w[p] == entries[p]);
            assert(w[q] == entries[q - 1]);
            if i < entries.len() {
                lemma_lex_cmp_trans(entries[p], a, entries[i]);
                if q - 1 > i {
                    lemma_lex_cmp_trans(entries[p], entries[i], entries[q - 1]);
                }
            } else {
                // q > i == entries.len() cannot be: q < w.len() == entries.len() + 1
                assert(false);
            }
        } else if q < i {
            assert(w[p] == entries[p]);
            assert(w[q] == entries[q]);
        } else {
            // p > i or (p == i && q == i) are excluded; here i < p < q
            assert(w[p] == entries[p - 1]);
            assert(w[q] == entries[q - 1]);
        }
    }
}

/// The mirror of [`lemma_insert_position_keeps_order`] for a descending
/// store.
pub proof fn lemma_insert_position_keeps_reverse_order(
    entries: Seq<Seq<char>>,
    a: Seq<char>,
    i: int,
)
    requires
        lex_descending(entries),
        0 <= i <= entries.len(),
        forall|j: int| 0 <= j < i ==> lex_cmp(#[trigger] entries[j], a) == Ordering::Greater,
        forall|j: int| i <= j < entries.len() ==> lex_cmp(a, #[trigger] entries[j])
            == Ordering::Greater,
    ensures
        lex_descending(entries.insert(i, a)),
{
    let w = entries.insert(i, a);
    assert forall|p: int, q: int| 0 <= p < q < w.len() implies lex_cmp(w[p], w[q])
        == Ordering::Greater by {
        if p < i && q == i {
            assert(w[p] == entries[p]);
        } else if p == i && q > i {
            assert(w[q] == entries[q - 1]);
        } else if p < i && q > i {
            assert(w[p] == entries[p]);
            assert(w[q] == entries[q - 1]);
            if i < entries.len() {
                lemma_lex_cmp_flip(entries[p], a);
                lemma_lex_cmp_flip(a, entries[i]);
                lemma_lex_cmp_trans(entries[i], a, entries[p]);
                lemma_lex_cmp_flip(entries[i], entries[p]);
                if q - 1 > i {
                    lemma_lex_cmp_flip(entries[p], entries[i]);
                    lemma_lex_cmp_flip(entries[i], entries[q - 1]);
                    lemma_lex_cmp_trans(entries[q - 1], entries[i], entries[p]);
                    lemma_lex_cmp_flip(entries[q - 1], entries[p]);
                }
            } else {
                assert(false);
            }
        } else if q < i {
            assert(w[p] == entries[p]);
            assert(w[q] == entries[q]);
        } else {
            assert(w[p] == entries[p - 1]);
            assert(w[q] == entries[q - 1]);
        }
    }
}

/// Relies on `String::push`: appends exactly the one character.
#[verifier::external_body]
pub(crate) fn push_char(s: &mut String, c: char)
    ensures
        final (s)@ == old(s)@.push(c),
{
    s.push(c);
}

/// Compares two characters by code point.
pub fn char_compare(a: char, b: char) -> (o: Ordering)
    ensures
        o == (if a == b {
            Ordering::Equal
        } else if (a as u32) < (b as u32) {
            Ordering::Less
        } else {
            Ordering::Greater
        }),
{
    let x = a as u32;
    let y = b as u32;
    proof {
        vstd::utf8::char_u32_cast(a, x);
        vstd::utf8::char_u32_cast(b, y);
    }
    if x == y {
        Ordering::Equal
    } else if x < y {
        Ordering::Less
    } else {
        Ordering::Greater
    }
}

/// Compares two strings character by character in lexicographic order.
pub fn str_compare(a: &str, b: &str) -> (o: Ordering)
    ensures
        o == lex_cmp(a@, b@),
{
    let alen = a.unicode_len();
    let blen = b.unicode_len();
    let mut i: usize = 0;
    while i < alen && i < blen
        invariant
            alen == a@.len(),
            blen == b@.len(),
            0 <= i <= alen,
            i <= blen,
            a@.subrange(0, i as int) =~= b@.subrange(0, i as int),
        decreases alen - i,
    {
        let ca = a.get_char(i);
        let cb = b.get_char(i);
        if ca != cb {
            proof {
                lemma_lex_cmp_skip(a@, b@, i as int);
                assert(a@.skip(i as int)[0] == a@[i as int]);
                assert(b@.skip(i as int)[0] == b@[i as int]);
            }
            return char_compare(ca, cb);
        }
        proof {
            assert(a@.subrange(0, i + 1) =~= b@.subrange(0, i + 1)) by {
                assert forall|j: int| 0 <= j < i + 1 implies #[trigger] a@.subrange(0, i + 1)[j]
                    == b@.subrange(0, i + 1)[j] by {
                    if j < i {
                        assert(a@.subrange(0, i as int)[j] == b@.subrange(0, i as int)[j]);
                    }
                }
            }
        }
        i = i + 1;
    }
    proof {
        lemma_lex_cmp_skip(a@, b@, i as int);
        if alen == blen {
            assert(a@.skip(i as int) =~= Seq::<char>::empty());
            assert(b@.skip(i as int) =~= Seq::<char>::empty());
        } else if i == alen {
            assert(a@.skip(i as int) =~= Seq::<char>::empty());
        } else {
            assert(b@.skip(i as int) =~= Seq::<char>::empty());
        }
    }
    if alen == blen {
        Ordering::Equal
    } else if alen < blen {
        Ordering::Less
    } else {
        Ordering::Greater
    }
}

/// Whether `p` is a prefix of `t`, character by character.
pub fn str_has_prefix(t: &str, p: &str) -> (r: bool)
    ensures
        r == p@.is_prefix_of(t@),
{
    let tlen = t.unicode_len();
    let plen = p.unicode_len();
    if plen > tlen {
        return false;
    }
    let mut i: usize = 0;
    while i < plen
        invariant
            tlen == t@.len(),
            plen == p@.len(),
            plen <= tlen,
            0 <= i <= plen,
            forall|j: int| 0 <= j < i ==> p@[j] == t@[j],
        decreases plen - i,
    {
        if p.get_char(i) != t.get_char(i) {
            assert(!p@.is_prefix_of(t@)) by {
                assert(p@[i as int] != t@.subrange(0, p@.len() as int)[i as int]);
            }
            return false;
        }
        i = i + 1;
    }
    assert(p@ =~= t@.subrange(0, p@.len() as int));
    true
}

/// Whether `p` is a suffix of `t`, character by character.
pub fn str_has_suffix(t: &str, p: &str) -> (r: bool)
    ensures
        r == p@.is_suffix_of(t@),
{
    let tlen = t.unicode_len();
    let plen = p.unicode_len();
    if plen > tlen {
        return false;
    }
    let offset = tlen - plen;
    let mut i: usize = 0;
    while i < plen
        invariant
            tlen == t@.len(),
            plen == p@.len(),
            plen <= tlen,
            offset == tlen - plen,
            0 <= i <= plen,
            forall|j: int| 0 <= j < i ==> p@[j] == t@[offset + j],
        decreases plen - i,
    {
        if p.get_char(i) != t.get_char(offset + i) {
            assert(!p@.is_suffix_of(t@)) by {
                assert(p@[i as int] != t@.subrange(t@.len() - p@.len(), t@.len() as int)[i as int]);
            }
            return false;
        }
        i = i + 1;
    }
    assert(p@ =~= t@.subrange(t@.len() - p@.len(), t@.len() as int));
    true
}

} // verus!
