//! Tests of the buffered lookahead cursor.

use nar_dev_utils::BufferIterator;

fn cursor_over(s: &str) -> BufferIterator<char> {
    BufferIterator::new(s.chars().collect())
}

fn buffered(iter: &mut BufferIterator<char>) -> Vec<char> {
    let mut v = Vec::new();
    let mut i = 0;
    while i < iter.len_buffer() {
        v.push(*iter.buffer_get(i).unwrap());
        i += 1;
    }
    v
}

#[test]
fn iter_char_overview() {
    run_iter_char_overview();
}

#[test]
fn buffer_iter_char_overview() {
    run_iter_char_overview();
}

fn run_iter_char_overview() {
    let test_set = [
        "abcd",
        "我是一个迭代器",
        r"/rustc/07dca489ac2d933c78d3c5158e3f43beefeb02ce/library\std\src\panicking.rs:645",
        "⚠️注意：不能使用`collect`❗，🤔其会获取迭代器的所有权（导致无法知晓「迭代后的状态」）",
    ];
    for test_str in test_set {
        iter_char_overview_on(test_str);
    }
}

fn iter_char_overview_on(s: &str) {
    let mut iter = cursor_over(s);

    // before the first pull
    assert_eq!(iter.head(), 0);
    assert!(!iter.is_began());
    assert!(!iter.is_ended());
    assert_eq!(iter.len_buffer(), 0);
    assert!(iter.is_buffer_empty());
    assert_eq!(iter.buffer_head(), 1);

    // pull everything, copying each new element out
    let mut to = String::new();
    while let Some(c) = iter.head_next() {
        to.push(*c);
    }

    let len_chars_to = to.chars().count();

    // after exhaustion
    assert_eq!(to, s);
    assert_eq!(iter.head(), len_chars_to - 1);
    assert!(iter.is_began());
    assert!(iter.is_ended());
    assert_eq!(iter.len_buffer(), len_chars_to);
    assert!(!iter.is_buffer_empty());
    assert_eq!(iter.buffer_head(), 0);

    // and after dropping the buffer
    iter.buffer_clear();
    assert_eq!(iter.head(), len_chars_to - 1);
    assert!(iter.is_began());
    assert!(iter.is_ended());
    assert_eq!(iter.len_buffer(), 0);
    assert!(iter.is_buffer_empty());
    assert_eq!(iter.buffer_head(), len_chars_to);
}

#[test]
fn iter_char_per_step() {
    run_iter_char_per_step();
}

#[test]
fn buffer_iter_char_per_step() {
    run_iter_char_per_step();
}

fn run_iter_char_per_step() {
    let mut iter = cursor_over("abcd");

    assert_eq!(iter.head(), 0);
    assert!(!iter.is_began());
    assert!(!iter.is_ended());
    assert_eq!(iter.len_buffer(), 0);
    assert!(iter.is_buffer_empty());
    assert_eq!(iter.buffer_head(), 1);

    // one pull: the element is buffered, the head does not move
    let cached_a = iter.head_next().copied();
    assert_eq!(cached_a, Some('a'));
    assert_eq!(iter.buffer_get(0), Some(&'a'));
    assert_eq!(iter.head(), 0);
    assert!(iter.is_began());
    assert!(!iter.is_ended());
    assert!(!iter.is_buffer_empty());
    assert_eq!(iter.len_buffer(), 1);
    assert_eq!(iter.buffer_head(), 0);

    // one consume: the buffered element leaves
    let a2 = iter.buffer_next();
    assert_eq!(a2, Some('a'));
    assert_eq!(iter.head(), 0);
    assert!(iter.is_began());
    assert!(!iter.is_ended());
    assert!(iter.is_buffer_empty());
    assert_eq!(iter.len_buffer(), 0);
    assert_eq!(iter.buffer_head(), 1);

    // a consume against an empty buffer pulls one element through
    let b = iter.buffer_next();
    assert_eq!(b, Some('b'));
    assert_eq!(iter.head(), 1);
    assert!(iter.is_began());
    assert!(!iter.is_ended());
    assert!(iter.is_buffer_empty());
    assert_eq!(iter.len_buffer(), 0);
    assert_eq!(iter.buffer_head(), 2);

    // an indexed read against an empty buffer pulls as well
    let c = iter.buffer_get(0).copied();
    assert_eq!(c, Some('c'));
    assert_eq!(iter.head(), 2);
    assert!(iter.is_began());
    assert!(!iter.is_ended());
    assert!(!iter.is_buffer_empty());
    assert_eq!(iter.len_buffer(), 1);
    assert_eq!(iter.buffer_head(), 2);

    // probes grow the buffer but consume nothing
    let starts_with_cd = iter.starts_with(&['c', 'd']);
    let starts_with_c = iter.starts_with(&['c']);
    let starts_with_other = iter.starts_with(&['不', '会', '比', '对', '成', '功']);
    assert!(starts_with_cd);
    assert!(starts_with_c);
    assert!(!starts_with_other);
    assert_eq!(iter.head(), 3);
    assert!(iter.is_began());
    assert!(!iter.is_ended());
    assert!(!iter.is_buffer_empty());
    assert_eq!(iter.len_buffer(), 2);
    assert_eq!(iter.buffer_head(), 2);

    // a successful skip commits exactly the matched span
    let skipped = iter.skip_when_starts_with(&['c']);
    assert!(skipped);
    assert_eq!(iter.head(), 3);
    assert!(iter.is_began());
    assert!(!iter.is_ended());
    assert!(!iter.is_buffer_empty());
    assert_eq!(iter.len_buffer(), 1);
    assert_eq!(iter.buffer_head(), 3);

    // the source is spent: one more pull latches the end
    let none = iter.head_next();
    assert!(none.is_none());
    assert_eq!(iter.head(), 3);
    assert!(iter.is_began());
    assert!(iter.is_ended());
    assert!(!iter.is_buffer_empty());
    assert_eq!(iter.len_buffer(), 1);
    assert_eq!(iter.buffer_head(), 3);

    // the leftover is handed out
    let mut d: Vec<char> = Vec::new();
    iter.buffer_transfer_mut(&mut d);
    assert_eq!(d, vec!['d']);
    assert_eq!(iter.head(), 3);
    assert!(iter.is_began());
    assert!(iter.is_ended());
    assert!(iter.is_buffer_empty());
    assert_eq!(iter.len_buffer(), 0);
    assert_eq!(iter.buffer_head(), 4);
}

#[test]
fn test_buffer() {
    let text = "abc123αβγ你我他";
    let mut iter = cursor_over(text);

    // search for "123": found after "abc"
    let f = iter.find_next_prefix(&['1', '2', '3']);
    assert_eq!(f, Some(3));
    assert_eq!(buffered(&mut iter), vec!['a', 'b', 'c', '1', '2', '3']);
    assert_eq!(iter.head(), 5);
    assert!(iter.is_began());
    assert!(!iter.is_ended());
    assert!(!iter.is_buffer_empty());
    assert_eq!(iter.len_buffer(), 6);
    assert_eq!(iter.buffer_head(), 0);

    // the empty pattern matches at once, moving nothing
    let f = iter.find_next_prefix(&[]);
    assert_eq!(f, Some(0));
    assert_eq!(buffered(&mut iter), vec!['a', 'b', 'c', '1', '2', '3']);
    assert_eq!(iter.head(), 5);
    assert!(iter.is_began());
    assert!(!iter.is_ended());
    assert!(!iter.is_buffer_empty());
    assert_eq!(iter.len_buffer(), 6);
    assert_eq!(iter.buffer_head(), 0);

    // a pattern already at the front is found at offset 0
    let f = iter.find_next_prefix(&['a', 'b', 'c']);
    assert_eq!(f, Some(0));
    assert_eq!(buffered(&mut iter), vec!['a', 'b', 'c', '1', '2', '3']);
    assert_eq!(iter.head(), 5);
    assert!(iter.is_began());
    assert!(!iter.is_ended());
    assert!(!iter.is_buffer_empty());
    assert_eq!(iter.len_buffer(), 6);
    assert_eq!(iter.buffer_head(), 0);

    // drain the buffer into a string
    let mut s = String::new();
    for _ in 0..iter.len_buffer() {
        s.push(iter.buffer_next().unwrap());
    }
    assert_eq!(s, "abc123");

    // search for a single later character
    let f = iter.find_next_prefix(&['我']);
    assert_eq!(f, Some(4));
    assert_eq!(buffered(&mut iter), vec!['α', 'β', 'γ', '你', '我']);
    assert_eq!(iter.head(), 10);
    assert!(iter.is_began());
    assert!(!iter.is_ended());
    assert!(!iter.is_buffer_empty());
    assert_eq!(iter.len_buffer(), 5);
    assert_eq!(iter.buffer_head(), 6);
}

#[test]
fn round_trip_consume_and_drain() {
    // four consumes hand the source out in order, then nothing
    let mut iter = cursor_over("abcd");
    assert_eq!(iter.buffer_next(), Some('a'));
    assert_eq!(iter.buffer_next(), Some('b'));
    assert_eq!(iter.buffer_next(), Some('c'));
    assert_eq!(iter.buffer_next(), Some('d'));
    assert_eq!(iter.buffer_next(), None);

    // four pulls then a drain rebuild the source, emptying the buffer
    let mut iter = cursor_over("abcd");
    for _ in 0..4 {
        assert!(iter.head_next().is_some());
    }
    let mut out = String::new();
    iter.collect_buffer_to_string(&mut out);
    assert_eq!(out, "abcd");
    assert!(iter.is_buffer_empty());
}

#[test]
fn skip_commit_matches_consumes() {
    // a committed skip leaves the cursor where the same number of
    // consumes would have left it
    let mut skipping = cursor_over("abcdef");
    let mut consuming = cursor_over("abcdef");
    assert!(skipping.skip_when_starts_with(&['a', 'b', 'c']));
    for _ in 0..3 {
        consuming.buffer_next();
    }
    assert_eq!(skipping.head(), consuming.head());
    assert_eq!(skipping.buffer_head(), consuming.buffer_head());
    assert_eq!(skipping.len_buffer(), consuming.len_buffer());
    assert_eq!(skipping.is_began(), consuming.is_began());
    assert_eq!(skipping.is_ended(), consuming.is_ended());
    assert_eq!(skipping.buffer_next(), consuming.buffer_next());

    // a failed skip consumes nothing
    let mut iter = cursor_over("abc");
    assert!(!iter.skip_when_starts_with(&['a', 'x']));
    assert_eq!(iter.buffer_next(), Some('a'));
}

#[test]
fn probing_is_idempotent() {
    // probing twice with one pattern answers the same and moves the
    // cursor no further than one probe
    let mut once = cursor_over("hello world");
    let mut twice = cursor_over("hello world");
    let p = ['h', 'e', 'l', 'l'];
    let r1 = once.starts_with(&p);
    let r2a = twice.starts_with(&p);
    let r2b = twice.starts_with(&p);
    assert!(r1 && r2a && r2b);
    assert_eq!(once.len_buffer(), twice.len_buffer());
    assert_eq!(once.head(), twice.head());

    // the same holds of a failing probe
    let mut once = cursor_over("hello");
    let mut twice = cursor_over("hello");
    let p = ['h', 'x'];
    assert!(!once.starts_with(&p));
    assert!(!twice.starts_with(&p));
    assert!(!twice.starts_with(&p));
    assert_eq!(once.len_buffer(), twice.len_buffer());
    assert_eq!(once.head(), twice.head());
}

#[test]
fn anchored_probe() {
    let mut iter = cursor_over("abcdef");
    assert!(iter.starts_with_at(2, &['c', 'd']));
    assert!(!iter.starts_with_at(2, &['c', 'x']));
    assert!(iter.starts_with_at(0, &['a']));
    // an empty pattern always matches
    assert!(iter.starts_with_at(4, &[]));
    // beyond the input nothing matches
    assert!(!iter.starts_with_at(5, &['f', 'g']));
    // the consumption point never moved
    assert_eq!(iter.buffer_head(), 0);
    assert_eq!(iter.buffer_next(), Some('a'));
}

#[test]
fn lookahead_misc() {
    let mut iter = cursor_over("abc");
    assert!(iter.buffer_has(2));
    assert!(!iter.buffer_has(3));
    assert_eq!(iter.buffer_get(1), Some(&'b'));
    assert_eq!(iter.buffer_get(9), None);
    assert_eq!(iter.head_item(), Some(&'c'));
    assert_eq!(iter.buffer_head_item(), Some(&'a'));
    assert!(iter.head_next_n(0));
    assert!(!iter.head_next_n(1));
    iter.buffer_consume_n(2);
    assert_eq!(iter.buffer_head_item(), Some(&'c'));
    iter.head_consume_n(3);
    assert_eq!(iter.len_buffer(), 1);

    // a find over too-short input reports nothing and latches the end
    let mut iter = cursor_over("ab");
    assert_eq!(iter.find_next_prefix(&['a', 'b', 'c']), None);
    assert!(iter.is_ended());

    // collecting a bounded stretch of the buffer
    let mut iter = cursor_over("wxyz");
    assert!(iter.head_next_n(4));
    let mut s = String::from(">");
    iter.buffer_collect_to_string(&mut s, 2);
    assert_eq!(s, ">wx");
    assert_eq!(iter.collect_buffer_to_new_string(), "yz");
    assert!(iter.is_buffer_empty());

    // handing the buffer to a sink
    let mut iter = cursor_over("pq");
    assert!(iter.head_next_n(2));
    iter.buffer_transfer(|_c| {});
    assert!(iter.is_buffer_empty());
    assert_eq!(iter.head(), 1);

    // consuming through a handler
    let mut iter = cursor_over("rs");
    iter.buffer_next_n(3, |_x| {});
    assert!(iter.is_ended());
}

#[test]
fn mutable_head_items() {
    let mut iter = cursor_over("abc");
    assert!(iter.head_item_mut().is_none());
    assert!(iter.buffer_head_item_mut().is_none());
    assert!(iter.head_next_n(3));
    // writing through the handed-out references lands in the buffer
    if let Some(front) = iter.buffer_head_item_mut() {
        *front = 'A';
    }
    if let Some(back) = iter.head_item_mut() {
        *back = 'C';
    }
    assert_eq!(iter.buffer_next(), Some('A'));
    assert_eq!(iter.buffer_next(), Some('b'));
    assert_eq!(iter.buffer_next(), Some('C'));
}

#[test]
fn find_next_substring_names_the_same_search() {
    let mut iter = cursor_over("abcabc");
    assert_eq!(iter.find_next_substring(&['c', 'a']), Some(2));
    assert_eq!(iter.find_next_substring(&['z']), None);
}
