//! Tests of the string comparison primitives and of observable
//! invariants of the dictionaries and the cursor.

use core::cmp::Ordering;
use nar_dev_utils::lexical::{str_compare, str_has_prefix, str_has_suffix};
use nar_dev_utils::{BufferIterator, XFixMatchDict};

#[test]
fn string_comparison() {
    assert_eq!(str_compare("", ""), Ordering::Equal);
    assert_eq!(str_compare("", "a"), Ordering::Less);
    assert_eq!(str_compare("a", ""), Ordering::Greater);
    assert_eq!(str_compare("abc", "abc"), Ordering::Equal);
    assert_eq!(str_compare("ab", "abc"), Ordering::Less);
    assert_eq!(str_compare("abd", "abc"), Ordering::Greater);
    assert_eq!(str_compare("&", "&&"), Ordering::Less);
    assert_eq!(str_compare("你", "我"), Ordering::Less);
    // agrees with the standard ordering on strings
    for a in ["", "a", "ab", "b", "ba", "你好", "&&", "&"] {
        for b in ["", "a", "ab", "b", "ba", "你好", "&&", "&"] {
            assert_eq!(str_compare(a, b), a.cmp(b));
        }
    }
}

#[test]
fn affix_tests() {
    assert!(str_has_prefix("abc", ""));
    assert!(str_has_prefix("abc", "ab"));
    assert!(!str_has_prefix("abc", "b"));
    assert!(!str_has_prefix("a", "ab"));
    assert!(str_has_suffix("abc", ""));
    assert!(str_has_suffix("abc", "bc"));
    assert!(!str_has_suffix("abc", "ab"));
    assert!(!str_has_suffix("c", "bc"));
}

#[test]
fn store_stays_sorted_and_distinct() {
    // after any run of insertions, the matching order is strictly
    // descending, so the backing store is strictly ascending and free
    // of duplicates
    let mut d = XFixMatchDict::default();
    for e in ["mu", "&", "&&", "", "zeta", "&", "alpha", "&&&", "zeta"] {
        d.insert(e.to_string());
        let listed = d.iter_x_fixes();
        for w in listed.windows(2) {
            assert_eq!(str_compare(w[0].as_str(), w[1].as_str()), Ordering::Greater);
        }
    }
    assert_eq!(d.iter_x_fixes().len(), 7);
}

#[test]
fn buffer_accounting_invariant() {
    // after every operation, the index of the oldest buffered element
    // is the head plus one minus the buffer length
    let mut iter = BufferIterator::new("stream".chars().collect());
    let check = |it: &BufferIterator<char>| {
        assert_eq!(it.buffer_head(), it.head() + 1 - it.len_buffer());
        if it.is_began() {
            assert_eq!(it.is_buffer_empty(), it.buffer_head() > it.head());
        }
    };
    check(&iter);
    iter.head_next();
    check(&iter);
    iter.buffer_next();
    check(&iter);
    iter.starts_with(&['r', 'e']);
    check(&iter);
    iter.buffer_next();
    check(&iter);
    iter.head_next_n(9);
    check(&iter);
    iter.buffer_clear();
    check(&iter);
    iter.buffer_next();
    check(&iter);
}
