use stele_engine::regex::{describe, group_count, group_index, Regex};
use stele_engine::regex::syntax::RegexError;

fn re(p: &str) -> Regex {
    Regex::compile(p).unwrap_or_else(|e| panic!("{p}: {}", e.message()))
}

#[test]
fn literals_and_full_match() {
    let r = re("abc");
    assert!(r.is_full_match("abc"));
    assert!(!r.is_full_match("abcd"));
    assert!(!r.is_full_match("xabc"));
}

#[test]
fn anchors() {
    assert!(re("^ab").find("xab").is_none());
    assert_eq!(re("ab$").find("xab").unwrap().end, 3);
    assert!(re("^abc$").is_full_match("abc"));
}

#[test]
fn classes_and_ranges() {
    assert!(re("^[a-z]+$").is_full_match("hello"));
    assert!(!re("^[a-z]+$").is_full_match("Hello"));
    assert!(re("^[^0-9]+$").is_full_match("abc"));
    assert!(re("^[abc]$").is_full_match("b"));
    assert!(re(r"^\d+$").is_full_match("123"));
    assert!(re(r"^\w+$").is_full_match("a_1"));
}

#[test]
fn quantifiers() {
    assert!(re("^a*$").is_full_match(""));
    assert!(re("^a*$").is_full_match("aaa"));
    assert!(re("^a+$").is_full_match("a"));
    assert!(!re("^a+$").is_full_match(""));
    assert!(re("^ab?c$").is_full_match("ac"));
    assert!(re("^ab?c$").is_full_match("abc"));
    assert!(re("^a{2,3}$").is_full_match("aa"));
    assert!(re("^a{2,3}$").is_full_match("aaa"));
    assert!(!re("^a{2,3}$").is_full_match("a"));
    assert!(re("^a{2}$").is_full_match("aa"));
    assert!(!re("^a{2}$").is_full_match("aaa"));
    assert!(re("^a{2,}$").is_full_match("aaaaa"));
}

#[test]
fn greedy_backtracking_lets_the_tail_match() {
    assert!(re("^.*c$").is_full_match("abc"));
    assert_eq!(re("^(a*)b$").find("aaab").unwrap().groups[1], Some((0, 3)));
}

#[test]
fn alternation() {
    assert!(re("^(cat|dog)$").is_full_match("dog"));
    assert!(re("^(cat|dog)$").is_full_match("cat"));
    assert!(!re("^(cat|dog)$").is_full_match("cow"));
}

#[test]
fn captures_are_recorded() {
    let m = re("^([nl])ue$").find("nue").unwrap();
    assert_eq!(m.groups[1], Some((0, 1)));
    let m2 = re("^([zcs])h$").find("zh").unwrap();
    assert_eq!(m2.groups[1], Some((0, 1)));
}

#[test]
fn replace_all_expands_capture_refs() {
    assert_eq!(re("^([nl])ue$").replace_all("nue", "$1ve"), "nve");
    assert_eq!(re("^([nl])ue$").replace_all("lue", "$1ve"), "lve");
    assert_eq!(re("^([zcs])h").replace_all("zhang", "$1"), "zang");
    assert_eq!(re("^([zcs])h").replace_all("abc", "$1"), "abc");
}

#[test]
fn replace_all_handles_the_abbrev_rule() {
    let r = re("^([a-z]).+$");
    assert_eq!(r.replace_all("ni", "$1"), "n");
    assert_eq!(r.replace_all("hao", "$1"), "h");
    assert_eq!(r.replace_all("a", "$1"), "a");
}

#[test]
fn erase_uses_full_match_semantics() {
    let r = re("^hm$");
    assert!(r.is_full_match("hm"));
    assert!(!r.is_full_match("hmm"));
    assert!(!r.is_full_match("ahm"));
}

#[test]
fn global_replace_touches_every_match() {
    let r = re("a");
    assert_eq!(r.replace_all("banana", "o"), "bonono");
    assert_eq!(r.replace_all("bbb", "o"), "bbb");
}

#[test]
fn zero_width_matches_terminate() {
    let r = re("x*");
    let out = r.replace_all("abc", "-");
    assert!(out.contains('a'));
}

#[test]
fn unsupported_syntax_is_rejected_with_a_reason() {
    let e = Regex::compile("(?=x)").unwrap_err();
    assert!(e.message().contains("不支持"));

    let e2 = Regex::compile("a*?").unwrap_err();
    assert!(e2.message().contains("非贪婪"));

    let e3 = Regex::compile(r"(a)\1").unwrap_err();
    assert!(e3.message().contains("反向引用"));

    assert_eq!(
        Regex::compile("[abc").unwrap_err(),
        RegexError::UnclosedClass
    );
    assert_eq!(
        Regex::compile("(ab").unwrap_err(),
        RegexError::UnbalancedParen
    );
    assert_eq!(
        Regex::compile("*a").unwrap_err(),
        RegexError::DanglingQuantifier
    );
    assert_eq!(Regex::compile("").unwrap_err(), RegexError::Empty);
}

#[test]
fn brace_without_digits_is_a_literal() {
    assert!(re("^a{b$").is_full_match("a{b"));
}

#[test]
fn escape_makes_metacharacters_literal() {
    assert!(re(r"^a\.b$").is_full_match("a.b"));
    assert!(!re(r"^a\.b$").is_full_match("axb"));
    assert!(re(r"^\*$").is_full_match("*"));
}

#[test]
fn group_count_is_reported() {
    assert_eq!(group_count(&re("^(a)(b)$")), 2);
    assert_eq!(group_count(&re("^ab$")), 0);
    assert_eq!(group_index(&["^(a)b$", "^c(d)(e)$"]).len(), 2);
    assert!(!describe(&re("^a$")).is_empty());
}

#[test]
fn a_letter_that_names_no_class_is_refused() {
    for p in [r"\p{L}", r"\P{Han}", r"\n", r"[\p{L}]", r"a\b", r"[a\q]"] {
        assert!(
            matches!(Regex::compile(p), Err(RegexError::Unsupported(_))),
            "{p}"
        );
    }
    assert!(re(r"^\.\/$").is_full_match("./"));
    assert!(re(r"^\d\D\w\W\s\S$").is_full_match("1aa- x"));
}

#[test]
fn a_spent_budget_is_no_match() {
    let small = re("a*").with_step_budget(2);
    assert_eq!(small.match_prefix_len("aaa", false), None);
    assert!(small.find("aaa").is_none());
    assert_eq!(re("a*").match_prefix_len("aaa", false), Some(3));
}

#[test]
fn group_zero_is_the_whole_match() {
    assert_eq!(re("b").replace_all("abc", "[$0]"), "a[b]c");
    assert_eq!(re("(b)(c)").replace_all("abcd", "$2$0$1"), "acbcbd");
    let m = re("b(c)").find("abcd").unwrap();
    assert_eq!(m.groups[0], Some((1, 3)));
    assert_eq!(m.groups[1], Some((2, 3)));
}
