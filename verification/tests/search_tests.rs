//! Tests of the lower-bound searches and the self-ordering vector.

use nar_dev_utils::{binary_search, linear_search, AutoOrderedVec};
use std::fmt::Debug;

fn check_search<T, Search>(search: Search, arr: &mut [T], boarder_range: impl IntoIterator<Item = T>)
where
    T: Ord + Debug + Copy,
    Search: Fn(&[T], &T) -> Result<usize, usize>,
{
    arr.sort();
    // every element is found, possibly at the place of a duplicate
    for (i, target) in arr.iter().enumerate() {
        let res = search(arr, target);
        assert!(
            arr[res.unwrap()] == arr[i],
            "Error on target={target:?} and res={res:?}"
        );
    }
    // over the whole border range, found/not-found agrees with a scan,
    // and a miss names a position that keeps the order
    for target in boarder_range {
        let found = arr.iter().any(|item| *item == target);
        let res = search(arr, &target);
        assert_eq!(res.is_ok(), found);
        if !found {
            let should_insert_to = res.unwrap_err();
            assert!(should_insert_to >= arr.len() || arr[should_insert_to] >= target);
            assert!(should_insert_to == 0 || arr[should_insert_to - 1] <= target);
        }
    }
}

fn check_search_slice<T, Search>(search: &Search, arr: &mut [T])
where
    T: Ord + Debug + Copy,
    std::ops::Range<T>: IntoIterator<Item = T>,
    Search: Fn(&[T], &T) -> Result<usize, usize>,
{
    let range = *arr.first().unwrap()..*arr.last().unwrap();
    check_search(search, arr, range);
}

fn check_search_slice_i32<Search>(search: &Search, arr: &mut [i32])
where
    Search: Fn(&[i32], &i32) -> Result<usize, usize>,
{
    check_search_slice(search, arr);
}

fn run_search_suite<Search>(search: Search)
where
    Search: Fn(&[i32], &i32) -> Result<usize, usize>,
{
    check_search_slice_i32(&search, &mut [2, 4, 6, 7, 8]);
    check_search_slice_i32(&search, &mut [1, 3, 5, 7, 9]);
    check_search_slice_i32(&search, &mut [0, 0, 0, 0, 0]);
    check_search_slice_i32(
        &search,
        &mut std::array::from_fn::<_, 100, _>(|i| (i * i) as i32),
    );
    for gap in 1..=100 {
        check_search_slice_i32(
            &search,
            &mut (0..10000).filter(|x| x % gap == 0).collect::<Vec<_>>(),
        );
    }
    check_search_slice_i32(&search, &mut [-2, -4, -6, -7, -8]);
    check_search_slice_i32(&search, &mut [-1, -3, -5, -7, -9]);
    check_search_slice_i32(&search, &mut [0, -0, 0, -0, 0]);
    check_search_slice_i32(
        &search,
        &mut (0..10000)
            .map(|x| if x & 1 == 0 { x } else { -x })
            .collect::<Vec<_>>(),
    );
}

fn run_search_suite_chars_and_strings<Search>(search: Search)
where
    Search: Fn(&[char], &char) -> Result<usize, usize>,
{
    check_search_slice(&search, &mut ['a', 'b', 'f', '你', '好', '😋', '✨']);
    check_search_slice(
        &search,
        &mut "我们有权报复三体文明".chars().collect::<Vec<_>>(),
    );
    check_search_slice(&search, &mut ('\x00'..'\u{00ff}').collect::<Vec<_>>());
}

fn string_suite<Search>(search: Search)
where
    Search: for<'a> Fn(&'a [&'a str], &'a &'a str) -> Result<usize, usize>,
{
    let mut strings = "\
    Self {
        prefixes: prefixes
            .into_iter()
            .map(|into_s| into_s.into())
            .collect::<Vec<String>>(),
        }"
        .split_whitespace()
        .collect::<Vec<_>>();
    strings.sort();
    for (i, target) in strings.clone().iter().enumerate() {
        let res = search(&strings, target);
        assert!(strings[res.unwrap()] == strings[i]);
    }
    let strings_more = "pub fn new(prefixes: impl IntoIterator<Item = impl Into<String>>) -> Self {
                // ? 或许也可以「先新建空值，然后逐个添加」来实现，复杂度 ∑ 1 log 1 ~ n log n
                Self {
                    prefixes: prefixes
                        .into_iter()
                        .map(|into_s| into_s.into())
                        .collect::<Vec<String>>(),
                }
            }"
        .split_whitespace()
        .collect::<Vec<_>>();
    for target in strings_more {
        let found = strings.iter().any(|item| *item == target);
        let res = search(&strings, &target);
        assert_eq!(res.is_ok(), found);
        if !found {
            let should_insert_to = res.unwrap_err();
            assert!(should_insert_to >= strings.len() || strings[should_insert_to] >= target);
        }
    }
}

#[test]
fn test_binary_search() {
    run_search_suite(|arr, t| binary_search(arr, t));
    run_search_suite_chars_and_strings(|arr, t| binary_search(arr, t));
    string_suite(|arr, t| binary_search(arr, t));
}

#[test]
fn test_linear_search() {
    run_search_suite(|arr, t| linear_search(arr, t));
    run_search_suite_chars_and_strings(|arr, t| linear_search(arr, t));
    string_suite(|arr, t| linear_search(arr, t));
}

#[test]
fn test_auto_ordered_vec() {
    let mut vec = AutoOrderedVec::new();
    assert_eq!(vec.get(0), None);
    assert_eq!(vec.get(1), None);

    vec.insert(2);
    assert_eq!(vec.get(0), Some(&2));
    assert_eq!(vec.get(1), None);

    vec.insert(1);
    assert_eq!(vec.get(0), Some(&1));
    assert_eq!(vec.get(1), Some(&2));
}

#[test]
fn auto_ordered_vec_more() {
    let mut vec = AutoOrderedVec::with_capacity(4);
    for x in [5u64, 1, 3, 3, 2] {
        vec.insert(x);
    }
    // duplicates stay; the order holds
    assert_eq!(vec.get(0), Some(&1));
    assert_eq!(vec.get(1), Some(&2));
    assert_eq!(vec.get(2), Some(&3));
    assert_eq!(vec.get(3), Some(&3));
    assert_eq!(vec.get(4), Some(&5));
    assert_eq!(vec.search(&3), Ok(2));
    assert_eq!(vec.search(&4), Err(4));
    assert_eq!(vec.insert_unique(3), None);
    assert_eq!(vec.insert_unique(4), Some(4));
    assert_eq!(vec.get(4), Some(&4));
    if let Some(slot) = vec.get_mut(0) {
        *slot = 0;
    }
    assert_eq!(vec.get(0), Some(&0));
}
