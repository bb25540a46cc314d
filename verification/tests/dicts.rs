//! Tests of the affix dictionaries: the plain store, the paired
//! variants, and the bidirectional store.

use nar_dev_utils::{BiFixMatchDictPair, PrefixMatchDictPair, SuffixMatchDictPair, XFixMatchDict};

fn x_fix_dict(entries: &[&str]) -> XFixMatchDict {
    let mut d = XFixMatchDict::default();
    for e in entries {
        d.insert((*e).to_string());
    }
    d
}

fn prefix_pairs(entries: &[(&str, &str)]) -> PrefixMatchDictPair<String> {
    let mut d = PrefixMatchDictPair::default();
    for (p, v) in entries {
        d.insert(((*p).to_string(), (*v).to_string()));
    }
    d
}

fn suffix_pairs(entries: &[(&str, &str)]) -> SuffixMatchDictPair<String> {
    let mut d = SuffixMatchDictPair::default();
    for (s, v) in entries {
        // the constructor order mirrors `(suffix, associated)`
        d.insert(((*v).to_string(), (*s).to_string()));
    }
    d
}

fn bi_fix_pairs(entries: &[(&str, &str)]) -> BiFixMatchDictPair {
    let mut d = BiFixMatchDictPair::default();
    for (p, s) in entries {
        d.insert(((*p).to_string(), (*s).to_string()));
    }
    d
}

fn match_prefix_str<'a>(d: &'a XFixMatchDict, s: &str) -> Option<&'a str> {
    d.match_prefix(s).map(|x| x.as_str())
}

fn match_suffix_str<'a>(d: &'a XFixMatchDict, s: &str) -> Option<&'a str> {
    d.match_suffix(s).map(|x| x.as_str())
}

#[test]
fn test_prefix_match() {
    run_test_prefix_match();
}

#[test]
fn x_fix_dict_test_prefix_match() {
    run_test_prefix_match();
}

fn run_test_prefix_match() {
    // the empty affix acts as a universal fallback
    let d = x_fix_dict(&["", "$", "#", "?", "+", "^"]);
    assert_eq!(match_prefix_str(&d, "$independent"), Some("$"));
    assert_eq!(match_prefix_str(&d, "#dependent"), Some("#"));
    assert_eq!(match_prefix_str(&d, "?query"), Some("?"));
    assert_eq!(match_prefix_str(&d, "+137"), Some("+"));
    assert_eq!(match_prefix_str(&d, "^operator"), Some("^"));
    assert_eq!(match_prefix_str(&d, "word"), Some(""));

    let d = x_fix_dict(&[
        "&", "|", "-", "~", "*", "/", "\\", "&&", "||", "--", "&/", "&|",
    ]);
    // the longer affix wins
    assert_eq!(match_prefix_str(&d, "&&, A, B, C"), Some("&&"));
    assert_eq!(match_prefix_str(&d, "&/, A, B, C"), Some("&/"));
    assert_eq!(match_prefix_str(&d, "&|, A, B, C"), Some("&|"));
    assert_eq!(match_prefix_str(&d, "&, A, B, C"), Some("&"));
    assert_eq!(match_prefix_str(&d, "||, A, B, C"), Some("||"));
    assert_eq!(match_prefix_str(&d, "|, A, B, C"), Some("|"));
    assert_eq!(match_prefix_str(&d, "--, A"), Some("--"));
    assert_eq!(match_prefix_str(&d, "-, A, B"), Some("-"));
    // other matching affixes
    assert_eq!(match_prefix_str(&d, r"~, A, B"), Some(r"~"));
    assert_eq!(match_prefix_str(&d, r"*, A, B, C"), Some(r"*"));
    assert_eq!(match_prefix_str(&d, r"/, A, B, C"), Some(r"/"));
    assert_eq!(match_prefix_str(&d, r"\, A, B, C"), Some(r"\"));
    // nothing matches
    assert_eq!(match_prefix_str(&d, ""), None);
    for t in [
        r"@, A, B, C",
        r"!, A, B, C",
        r"`, A, B, C",
        r"#, A, B, C",
        r"$, A, B, C",
        r"%, A, B, C",
        r"^, A, B, C",
        r"., A, B, C",
        r"<, A, B, C",
        r">, A, B, C",
        r"?, A, B, C",
        r":, A, B, C",
        r";, A, B, C",
        r"', A, B, C",
        r"_, A, B, C",
        r"+, A, B, C",
        r"=, A, B, C",
        r"0, A, B, C",
        r"文, A, B, C",
        r"🤔, A, B, C",
        r"🚩, A, B, C",
    ] {
        assert_eq!(match_prefix_str(&d, t), None);
    }
}

#[test]
fn test_suffix_match() {
    // the empty affix acts as a universal fallback
    let d = x_fix_dict(&[r":|:", r":/:", r":\:", r":", r""]);
    assert_eq!(match_suffix_str(&d, r"<A --> B>. :|:"), Some(r":|:"));
    assert_eq!(match_suffix_str(&d, r"<A --> B>. :/:"), Some(r":/:"));
    assert_eq!(match_suffix_str(&d, r"<A --> B>. :\:"), Some(r":\:"));
    assert_eq!(match_suffix_str(&d, r"<A --> B>. :!+137:"), Some(r":"));
    assert_eq!(match_suffix_str(&d, r"<A --> B>."), Some(""));
    assert_eq!(match_suffix_str(&d, r"「A是B」。"), Some(""));

    let d = x_fix_dict(&[
        ".", "!", "?", "@", ".", "!", "?", "¿", "。", "！", "？", "；",
    ]);
    assert_eq!(match_suffix_str(&d, "<A --> B>."), Some("."));
    assert_eq!(match_suffix_str(&d, "<A --> B>!"), Some("!"));
    assert_eq!(match_suffix_str(&d, "<A --> B>?"), Some("?"));
    assert_eq!(match_suffix_str(&d, "<A --> B>@"), Some("@"));
    assert_eq!(
        match_suffix_str(&d, r"\left<A \rightarrow  B\right>."),
        Some(".")
    );
    assert_eq!(
        match_suffix_str(&d, r"\left<A \rightarrow  B\right>!"),
        Some("!")
    );
    assert_eq!(
        match_suffix_str(&d, r"\left<A \rightarrow  B\right>?"),
        Some("?")
    );
    assert_eq!(
        match_suffix_str(&d, r"\left<A \rightarrow  B\right>¿"),
        Some("¿")
    );
    assert_eq!(match_suffix_str(&d, r"「A是B」。"), Some("。"));
    assert_eq!(match_suffix_str(&d, r"「A是B」！"), Some("！"));
    assert_eq!(match_suffix_str(&d, r"「A是B」？"), Some("？"));
    assert_eq!(match_suffix_str(&d, r"「A是B」；"), Some("；"));
    assert_eq!(match_suffix_str(&d, ""), None);
    for t in [
        r"<A --> B>`",
        r"<A --> B>#",
        r"<A --> B>$",
        r"<A --> B>%",
        r"<A --> B>^",
        r"<A --> B>&",
        r"<A --> B>*",
        r"<A --> B>(",
        r"<A --> B>)",
        r"<A --> B>-",
        r"<A --> B>_",
        r"<A --> B>+",
        r"<A --> B>=",
        r"<A --> B><",
        r"<A --> B>>",
        r"<A --> B>,",
        r"<A --> B>:",
        r"<A --> B>;",
        r"<A --> B>'",
        r"<A --> B>/",
        r"<A --> B>\",
        r"<A --> B>0",
        r"<A --> B>文",
        r"<A --> B>🤔",
        r"<A --> B>🚩",
    ] {
        assert_eq!(match_suffix_str(&d, t), None);
    }
}

#[test]
fn prefix_match_test_edge() {
    // prefix pairs: the empty prefix is a fallback
    let d = prefix_pairs(&[("", "0"), ("a", "1"), ("aa", "2"), ("aaa", "3")]);
    let mp = |s: &str| d.match_prefix(s).map(|t| t.1.clone());
    assert_eq!(mp("a"), Some("1".to_string()));
    assert_eq!(mp("aa"), Some("2".to_string()));
    assert_eq!(mp("aaa"), Some("3".to_string()));
    assert_eq!(mp("a_"), Some("1".to_string()));
    assert_eq!(mp("aa_"), Some("2".to_string()));
    assert_eq!(mp("aaa_"), Some("3".to_string()));
    assert_eq!(mp(""), Some("0".to_string()));
    assert_eq!(mp("b"), Some("0".to_string()));
}

#[test]
fn suffix_match_test_edge() {
    let d = suffix_pairs(&[("", "0"), ("a", "1"), ("aa", "2"), ("aaa", "3")]);
    let ms = |s: &str| d.match_suffix(s).map(|t| t.0.clone());
    assert_eq!(ms("a"), Some("1".to_string()));
    assert_eq!(ms("aa"), Some("2".to_string()));
    assert_eq!(ms("aaa"), Some("3".to_string()));
    assert_eq!(ms("_a"), Some("1".to_string()));
    assert_eq!(ms("_aa"), Some("2".to_string()));
    assert_eq!(ms("_aaa"), Some("3".to_string()));
    assert_eq!(ms(""), Some("0".to_string()));
    assert_eq!(ms("b"), Some("0".to_string()));
}

#[test]
fn prefix_match_test_prefix_match_pairs() {
    // the bracket half of the paired-prefix cases
    let d = prefix_pairs(&[("(", ")"), ("[", "]"), ("{", "}"), ("<", ">")]);
    let mp = |s: &str| d.match_prefix(s).map(|t| t.1.clone());
    assert_eq!(mp(r"(A, B, C)"), Some(")".to_string()));
    assert_eq!(mp(r"[A, B, C]"), Some("]".to_string()));
    assert_eq!(mp(r"{A, B, C}"), Some("}".to_string()));
    assert_eq!(mp(r"<A, B, C>"), Some(">".to_string()));
    assert_eq!(mp("word"), None);
}

#[test]
fn test_prefix_match_pairs() {
    // bracket pairing
    let d = prefix_pairs(&[("(", ")"), ("[", "]"), ("{", "}"), ("<", ">")]);
    let mp = |s: &str| d.match_prefix(s).map(|t| t.1.clone());
    assert_eq!(mp(r"(A, B, C)"), Some(")".to_string()));
    assert_eq!(mp(r"[A, B, C]"), Some("]".to_string()));
    assert_eq!(mp(r"{A, B, C}"), Some("}".to_string()));
    assert_eq!(mp(r"<A, B, C>"), Some(">".to_string()));
    assert_eq!(mp("word"), None);

    // budget-value pairing
    let d = prefix_pairs(&[("$", "$"), (r"\$", r"\$"), ("预", "算")]);
    let mp = |s: &str| d.match_prefix(s).map(|t| t.1.clone());
    assert_eq!(mp("$0.4;0.4;0.4$ <A-->B>."), Some("$".to_string()));
    assert_eq!(
        mp(r"\$0.4;0.4;0.4\$ \left<A \rightarrow  B\right>."),
        Some(r"\$".to_string())
    );
    assert_eq!(mp("预0.4、0.4、0.4算「A是B」。"), Some("算".to_string()));
    assert_eq!(mp("word"), None);
}

#[test]
fn test_suffix_match_pairs() {
    // bracket pairing, from the closing side
    let d = suffix_pairs(&[(")", "("), ("]", "["), ("}", "{"), (">", "<")]);
    let ms = |s: &str| d.match_suffix(s).map(|t| t.0.clone());
    assert_eq!(ms(r"(A, B, C)"), Some("(".to_string()));
    assert_eq!(ms(r"[A, B, C]"), Some("[".to_string()));
    assert_eq!(ms(r"{A, B, C}"), Some("{".to_string()));
    assert_eq!(ms(r"<A, B, C>"), Some("<".to_string()));
    assert_eq!(ms("word"), None);

    // truth values and tenses; repeated suffixes collapse into the
    // first entry
    let d = suffix_pairs(&[
        ("%", "%"),
        (r"\rangle{}", r"\langle{}"),
        ("值", "真"),
        (r":\:", ""),
        (r":|:", ""),
        (r":/:", ""),
        (r":", ":!"),
        (r"\backslash\!\!\!\Rightarrow{}", ""),
        (r"|\!\!\!\Rightarrow{}", ""),
        (r"/\!\!\!\Rightarrow{}", ""),
        ("", "t="),
        ("过去", ""),
        ("现在", ""),
        ("将来", ""),
    ]);
    let ms = |s: &str| d.match_suffix(s).map(|t| t.0.clone());
    assert_eq!(ms(r"<A --> B>. :\:"), Some("".to_string()));
    assert_eq!(ms(r"<A --> B>. :|:"), Some("".to_string()));
    assert_eq!(ms(r"<A --> B>. :/:"), Some("".to_string()));
    assert_eq!(ms(r"<A --> B>. :!-137:"), Some(":!".to_string()));
    assert_eq!(
        ms(r"\left<A \rightarrow{} B\right>. \backslash\!\!\!\Rightarrow{}"),
        Some("".to_string())
    );
    assert_eq!(
        ms(r"\left<A \rightarrow{} B\right>. |\!\!\!\Rightarrow{}"),
        Some("".to_string())
    );
    assert_eq!(
        ms(r"\left<A \rightarrow{} B\right>. /\!\!\!\Rightarrow{}"),
        Some("".to_string())
    );
    assert_eq!(
        ms(r"\left<A \rightarrow{} B\right>."),
        Some("t=".to_string())
    );
    assert_eq!(ms("「A是B」。过去"), Some("".to_string()));
    assert_eq!(ms("「A是B」。现在"), Some("".to_string()));
    assert_eq!(ms("「A是B」。将来"), Some("".to_string()));
}

#[test]
fn bi_fix_dict_test_edge() {
    let d = bi_fix_pairs(&[("", ""), ("a", "b"), ("aa", "bb"), ("aaa", "bbb")]);
    let mp = |s: &str| d.match_prefix(s).map(|t| t.1.clone());
    let ms = |s: &str| d.match_suffix(s).map(|t| t.0.clone());
    assert_eq!(mp("a"), Some("b".to_string()));
    assert_eq!(mp("aa"), Some("bb".to_string()));
    assert_eq!(mp("aaa"), Some("bbb".to_string()));
    assert_eq!(mp("a_"), Some("b".to_string()));
    assert_eq!(mp("aa_"), Some("bb".to_string()));
    assert_eq!(mp("aaa_"), Some("bbb".to_string()));
    assert_eq!(mp(""), Some("".to_string()));
    assert_eq!(mp("x"), Some("".to_string()));
    assert_eq!(ms("b"), Some("a".to_string()));
    assert_eq!(ms("bb"), Some("aa".to_string()));
    assert_eq!(ms("bbb"), Some("aaa".to_string()));
    assert_eq!(ms("_b"), Some("a".to_string()));
    assert_eq!(ms("_bb"), Some("aa".to_string()));
    assert_eq!(ms("_bbb"), Some("aaa".to_string()));
    assert_eq!(ms(""), Some("".to_string()));
    assert_eq!(ms("x"), Some("".to_string()));
}

#[test]
fn test_bi_fix_match_pairs() {
    let d = bi_fix_pairs(&[("(", ")"), ("[", "]"), ("{", "}"), ("<", ">")]);
    let mp = |s: &str| d.match_prefix(s).map(|t| t.1.clone());
    let ms = |s: &str| d.match_suffix(s).map(|t| t.0.clone());
    assert_eq!(mp(r"(A, B, C)"), Some(")".to_string()));
    assert_eq!(mp(r"[A, B, C]"), Some("]".to_string()));
    assert_eq!(mp(r"{A, B, C}"), Some("}".to_string()));
    assert_eq!(mp(r"<A, B, C>"), Some(">".to_string()));
    assert_eq!(mp("word"), None);
    assert_eq!(ms(r"(A, B, C)"), Some("(".to_string()));
    assert_eq!(ms(r"[A, B, C]"), Some("[".to_string()));
    assert_eq!(ms(r"{A, B, C}"), Some("{".to_string()));
    assert_eq!(ms(r"<A, B, C>"), Some("<".to_string()));
    assert_eq!(ms("word"), None);
}

#[test]
fn longest_match_precedence() {
    // with both the short and the long affix registered, the long one
    // wins, never the short
    let d = x_fix_dict(&["&", "&&"]);
    assert_eq!(match_prefix_str(&d, "&&x"), Some("&&"));
    let d = x_fix_dict(&["&&", "&"]);
    assert_eq!(match_prefix_str(&d, "&&x"), Some("&&"));
}

#[test]
fn fallback_affix() {
    // the empty affix matches every candidate and is tried last
    let d = x_fix_dict(&["", "$", "#"]);
    assert_eq!(match_prefix_str(&d, "word"), Some(""));
    assert_eq!(match_prefix_str(&d, "$x"), Some("$"));
}

#[test]
fn search_reports_insertion_point() {
    // a failed search names the position that keeps the store sorted
    let d = x_fix_dict(&["b", "d", "f"]);
    assert_eq!(d.search(&"a".to_string()), Err(0));
    assert_eq!(d.search(&"c".to_string()), Err(1));
    assert_eq!(d.search(&"e".to_string()), Err(2));
    assert_eq!(d.search(&"g".to_string()), Err(3));
    assert_eq!(d.search(&"b".to_string()), Ok(0));
    assert_eq!(d.search(&"d".to_string()), Ok(1));
    assert_eq!(d.search(&"f".to_string()), Ok(2));
    // duplicates collapse
    let mut d = d;
    d.insert("d".to_string());
    assert_eq!(d.iter_x_fixes().len(), 3);
}

#[test]
fn bidirectional_interleaved_insertions() {
    // interleaved insertions force the secondary index to shift, and
    // both directions keep answering with the partner half
    let mut d = BiFixMatchDictPair::default();
    let pairs = [("c", "x"), ("a", "z"), ("b", "y"), ("d", "w"), ("e", "v")];
    for (p, s) in pairs {
        assert!(d.insert((p.to_string(), s.to_string())));
        for (p2, s2) in pairs {
            if d.search_prefix(p2).is_ok() {
                assert_eq!(
                    d.match_prefix(&format!("{p2}tail")).map(|t| t.1.clone()),
                    Some(s2.to_string())
                );
                assert_eq!(
                    d.match_suffix(&format!("head{s2}")).map(|t| t.0.clone()),
                    Some(p2.to_string())
                );
            }
        }
    }
    // a pair whose prefix or suffix is taken is dropped
    assert!(!d.insert(("a".to_string(), "q".to_string())));
    assert!(!d.insert(("q".to_string(), "z".to_string())));
}

#[test]
fn dict_construction_from_entries() {
    let d = XFixMatchDict::new(vec!["b".to_string(), "a".to_string(), "a".to_string()]);
    assert!(d.has(&"a".to_string()));
    assert!(d.has(&"b".to_string()));
    assert!(!d.has(&"c".to_string()));
    assert_eq!(d.iter_x_fixes().len(), 2);
    assert_eq!(d.iter_x_fixes()[0], "b".to_string());

    let d = PrefixMatchDictPair::new(vec![
        ("a".to_string(), "1".to_string()),
        ("b".to_string(), "2".to_string()),
    ]);
    assert!(d.has(&"a".to_string()));
    assert_eq!(d.len(), 2);
    assert_eq!(d.iter_terms()[0].0, "b".to_string());

    let d = BiFixMatchDictPair::new(vec![("(".to_string(), ")".to_string())]);
    // the constructor files the empty pair as a fallback
    assert_eq!(
        d.match_prefix("word").map(|t| t.1.clone()),
        Some("".to_string())
    );
    assert_eq!(
        d.match_prefix("(x)").map(|t| t.1.clone()),
        Some(")".to_string())
    );
}

#[test]
fn first_payload_wins() {
    // of entries sharing a key, the first keeps its payload
    let d = PrefixMatchDictPair::new(vec![
        ("a".to_string(), "1".to_string()),
        ("a".to_string(), "2".to_string()),
    ]);
    assert_eq!(
        d.match_prefix("abc").map(|t| t.1.clone()),
        Some("1".to_string())
    );
    let d = SuffixMatchDictPair::new(vec![
        ("1".to_string(), "a".to_string()),
        ("2".to_string(), "a".to_string()),
    ]);
    assert_eq!(
        d.match_suffix("xa").map(|t| t.0.clone()),
        Some("1".to_string())
    );
}
