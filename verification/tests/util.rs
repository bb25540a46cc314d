//! Tests of the smaller utilities: option and result helpers, string
//! joining, character-slice affix tests, conversions, and chaining.

use nar_dev_utils::{
    add_space_if_necessary_and_flush_buffer, char_slice_has_prefix, char_slice_has_suffix,
    join_lest_multiple_separators, join_to, join_to_multi, join_to_multi_new, join_to_new,
    set_has_intersection, set_is_subset, set_union_vec, void, FpForm, IntoChars, OptionBoost,
    OrSomeMut, OrSomeRef, ResultBoost, ResultBoostSingular, StartsWithStr, ToDebug, Void,
};

#[test]
fn transform_err() {
    // the success passes through untouched
    assert_eq!(Result::<i32, &str>::Ok(1).transform_err(|_| 1), Ok(1));
    // only the error is transformed
    assert_eq!(
        Result::<i32, &str>::Err("这是个错误").transform_err(|err| err.chars().count()),
        Err(5)
    );
    assert_eq!(
        Result::<i32, &str>::Err("这是个错误").transform_err_debug(),
        Err(format!("{:?}", "这是个错误"))
    );
    assert_eq!(
        Result::<usize, usize>::Ok(0).transform_err(|err| err + 1),
        Ok(0)
    );
    assert_eq!(
        Result::<usize, usize>::Err(0).transform_err(|err| err + 1),
        Err(1)
    );
    assert_eq!(
        Result::<usize, usize>::Err(0).transform_err_string(),
        Err("0".into())
    );

    // lifting a parse error into a custom message type
    type MyResult = Result<bool, String>;
    fn is_even_of_text(text: &str) -> MyResult {
        let parsed = text.parse::<i32>().transform_err(|err| format!("{err}"))?;
        Ok(parsed & 1 == 0)
    }
    assert_eq!(is_even_of_text("1"), Ok(false));
    assert_eq!(is_even_of_text("0"), Ok(true));
    assert_eq!(
        is_even_of_text("err"),
        Err("invalid digit found in string".into())
    );
    assert!(matches!(is_even_of_text("这一定会发生错误！"), Err(..)));
}

#[test]
fn flip() {
    assert_eq!(Result::<usize, usize>::Ok(1).flip(), Err(1));
    assert_eq!(Result::<usize, &str>::Err("value").flip(), Ok("value"));
}

#[test]
fn collapse() {
    assert_eq!(Result::<usize, usize>::Ok(1).collapse(), 1);
    assert_eq!(Result::<&str, &str>::Ok("str").collapse(), "str");
    assert_eq!(Result::<usize, usize>::Err(2).collapse(), 2);
}

#[test]
fn option_boost() {
    let mut ran = false;
    assert_eq!(Option::<i32>::Some(3).inspect_none(|| ()), Some(3));
    let r: Option<i32> = None;
    let r = r.inspect_none(|| ran = true);
    assert_eq!(r, None);
    assert!(ran);
    assert_eq!(Some(3).none(), Option::<i32>::None);
    assert_eq!(Some(3).map_unwrap_or(|x| x + 1, 0), 4);
    assert_eq!(Option::<i32>::None.map_unwrap_or(|x| x + 1, 0), 0);
    let mut a: Option<i32> = None;
    a.coalesce(&Some(5), |v| v + 1);
    assert_eq!(a, Some(6));
    let mut b: Option<i32> = Some(1);
    b.coalesce_clone(&Some(5));
    assert_eq!(b, Some(1));
    let mut c: Option<i32> = None;
    c.coalesce_clone(&Some(5));
    assert_eq!(c, Some(5));
    let mut ran_err = None;
    assert_eq!(Result::<i32, i32>::Ok(7).ok_or_run(|_| ()), Some(7));
    assert_eq!(
        Result::<i32, i32>::Err(8).ok_or_run(|e| ran_err = Some(e)),
        None
    );
    assert_eq!(ran_err, Some(8));
    assert_eq!(
        Result::<i32, &str>::Ok(1).transform(|x| x * 2, |e| e.len()),
        Ok(2)
    );
    assert_eq!(
        Result::<i32, &str>::Err("ab").transform(|x| x * 2, |e| e.len()),
        Err(2)
    );
}

#[test]
fn test_char_slice_has_fix() {
    assert!(char_slice_has_prefix(&['a', 'b', 'c'], ""));
    assert!(char_slice_has_prefix(&['a', 'b', 'c'], "a"));
    assert!(char_slice_has_prefix(&['a', 'b', 'c'], "ab"));
    assert!(char_slice_has_prefix(&['a', 'b', 'c'], "abc"));

    assert!(char_slice_has_suffix(&['a', 'b', 'c'], ""));
    assert!(char_slice_has_suffix(&['a', 'b', 'c'], "c"));
    assert!(char_slice_has_suffix(&['a', 'b', 'c'], "bc"));
    assert!(char_slice_has_suffix(&['a', 'b', 'c'], "abc"));

    assert!(!char_slice_has_prefix(&['a', 'b', 'c'], "b"));
    assert!(!char_slice_has_prefix(&['a', 'b', 'c'], "abcd"));
    assert!(!char_slice_has_suffix(&['a', 'b', 'c'], "b"));
    assert!(!char_slice_has_suffix(&['a', 'b', 'c'], "zabc"));
}

#[test]
fn test_starts_with_str() {
    assert!(['a', 'b', 'c'].starts_with_str("abc"));
    assert!(['a', 'b', 'c'].starts_with_str("ab"));
    assert!(['a', 'b', 'c'].starts_with_str("a"));
    assert!(['a', 'b', 'c'].starts_with_str(""));
    // the test stops at whichever side runs out first
    assert!(['a', 'b'].starts_with_str("abc"));
    let empty: [char; 0] = [];
    assert!(!empty.starts_with_str("a"));
    assert!(!['a', 'x'].starts_with_str("abc"));
}

#[test]
fn test_join_to() {
    let mut s = String::new();
    join_to(&mut s, &["a", "b", "c"], ",");
    assert_eq!(s, "a,b,c");
    assert_eq!(join_to_new(&["a", "b", "c"], ","), "a,b,c");
    let mut s = String::new();
    join_to_multi(&mut s, &["a", "b", "c"], &[",", " "]);
    assert_eq!(s, "a, b, c");
    assert_eq!(join_to_multi_new(&["a", "b", "c"], &[",", " "]), "a, b, c");
}

#[test]
fn test_add_space_if_necessary_and_flush_buffer() {
    // a filled buffer arrives behind a separator
    let mut s = String::from("A");
    let mut buffer = String::from("B");
    add_space_if_necessary_and_flush_buffer(&mut s, &mut buffer, ",");
    assert_eq!((s, buffer), ("A,B".to_string(), "".to_string()));
    // an empty buffer adds nothing
    let mut s = String::from("A");
    let mut buffer = String::from("");
    add_space_if_necessary_and_flush_buffer(&mut s, &mut buffer, ",");
    assert_eq!((s, buffer), ("A".to_string(), "".to_string()));
}

#[test]
fn test_join_lest_multiple_separators() {
    let mut s = String::new();
    join_lest_multiple_separators(&mut s, &["A", "B", "C"], ", ");
    assert_eq!(s, "A, B, C");
    let mut s = String::new();
    join_lest_multiple_separators(&mut s, &["A", "B", "", "C"], ", ");
    assert_eq!(s, "A, B, C");
    let mut s = String::new();
    join_lest_multiple_separators(&mut s, &["a", "", "b", "c", "", "d"], ",");
    assert_eq!(s, "a,b,c,d");
}

#[test]
fn to_debug_test() {
    assert_eq!("1", 1.to_debug());
    assert_eq!("\"1\"", "1".to_debug());
    assert_eq!("'1'", '1'.to_debug());
    assert_eq!("()", ().to_debug());

    assert_eq!(format!("{:?}", &(1, 2)), (1, 2).to_debug());
    assert_eq!(format!("{:?}", &[1, 2, 3]), [1, 2, 3].to_debug());
    assert_eq!(format!("{:?}", &(1, 2, (1, 2))), (1, 2, (1, 2)).to_debug());
    assert_eq!(format!("{:?}", &"string"), "string".to_debug());
    assert_eq!(format!("{:?}", &'c'), 'c'.to_debug());
    assert_eq!(
        format!("{:?}", &("string".to_string())),
        "string".to_string().to_debug()
    );
    assert_eq!(format!("{:?}", &vec![1, 2, 3]), vec![1, 2, 3].to_debug());
    assert_eq!(format!("{:?}", &Box::new(1)), Box::new(1).to_debug());
    assert_eq!(
        format!("{:?}", &Box::new(Box::new(0))),
        Box::new(Box::new(0)).to_debug()
    );
    assert_eq!(format!("{:?}", &&[1, 2, 3]), (&[1, 2, 3]).to_debug());
}

#[test]
fn fp_form_test() {
    let a = -1;
    let abs_a = a.f(i32::abs);
    let proceed = abs_a.f(|a: i32| a + 1);

    fn add_one(x: i32) -> i32 {
        x + 1
    }
    fn add_both(x: i32, y: i32) -> i32 {
        x + y
    }
    let add_a = |x: i32| x + a;

    let p_proceed = proceed.f(|x| add_both(x, x)).f(add_one).f(add_a);
    let pipe_proceed = add_a(add_one(add_both(proceed, proceed)));

    assert_eq!(a, -1);
    assert_eq!(abs_a, 1);
    assert_eq!(proceed, 2);
    assert_eq!(p_proceed, 4);
    assert_eq!(p_proceed, pipe_proceed);

    // the other names do the same
    assert_eq!(3.to(add_one), 4);
    assert_eq!(3.deal(add_one), 4);
}

#[test]
fn into_chars_round_trip() {
    assert_eq!("abc".into_chars(), vec!['a', 'b', 'c']);
    assert_eq!("词法".to_string().into_chars(), vec!['词', '法']);
    assert_eq!("".into_chars(), Vec::<char>::new());
}

#[test]
fn void_discards() {
    fn one() -> i32 {
        1
    }
    one().void();
    void(one());
}

#[test]
fn set_operations() {
    let a = [1, 2, 3, 2];
    let b = [3, 4];
    let u = set_union_vec(&a, &b);
    let got: Vec<i32> = u.into_iter().copied().collect();
    assert_eq!(got, vec![1, 2, 3, 4]);
    assert!(set_is_subset(&[2, 3], &a));
    assert!(!set_is_subset(&[2, 9], &a));
    assert!(set_is_subset(&[], &b));
    assert!(set_has_intersection(&a, &b));
    assert!(!set_has_intersection(&[1, 2], &[4, 5]));
    assert!(!set_has_intersection::<i32>(&[], &b));
}

/// Reads a value through whatever optional reference arrives.
fn or_some_get(option_ref: impl OrSomeRef<usize>) -> Option<usize> {
    option_ref.or_some_ref().cloned()
}

/// Increments through whatever optional exclusive reference arrives.
fn or_some_inc(option_mut: impl OrSomeMut<usize>) {
    if let Some(p) = option_mut.or_some_mut() {
        *p += 1
    }
}

#[test]
fn test_ref() {
    let mut a = 1_usize;
    let null = None::<usize>;
    assert_eq!(null, None);
    assert_eq!(or_some_get(&a), Some(1));
    assert_eq!(or_some_get(&mut a), Some(1));
    assert_eq!(or_some_get(Some(&a)), Some(1));
    assert_eq!(or_some_get(Some(&mut a)), Some(1));
}

#[test]
fn test_mut() {
    let mut a = 1_usize;
    or_some_inc(&mut a);
    assert_eq!(a, 2);
    or_some_inc(Some(&mut a));
    assert_eq!(a, 3);
    or_some_inc(None);
    assert_eq!(a, 3);
}
