use std::time::{Duration, Instant};

use stele_engine::regex::Regex;
use stele_engine::segmentor::{leading_literal, Recognizer};
use stele_engine::spec::{At, RecogPattern, RecognizerSpec};
use stele_engine::tag::TagTable;

fn recognizer(name: &str, regex: &str) -> Recognizer {
    let spec = RecognizerSpec {
        patterns: vec![RecogPattern {
            name: name.to_owned(),
            leading: leading_literal(regex),
            trailing: None,
            regex: regex.to_owned(),
            at: At::new(1),
        }],
        import_preset: None,
    };
    Recognizer::new(&spec, &mut TagTable::new()).expect("模式应当能编译")
}


#[test]
fn the_audited_false_negatives_are_fixed() {
    let cases: &[(&str, &str)] = &[
        ("^(a|b)+$", "bbb"),
        ("^https?://.*$", "http://x"),
        ("^a?b$", "b"),
        ("^(x|y)z$", "yz"),
        ("^a*b$", "b"),
        ("^a{0,2}b$", "b"),
        ("^[ab]+$", "b"),
        ("^\\d?x$", "x"),
    ];
    for (pattern, input) in cases {
        let re = Regex::compile(pattern).unwrap_or_else(|e| panic!("`{pattern}`: {}", e.message()));
        assert!(
            re.is_full_match(input),
            "前提：`{pattern}` 应当匹配 `{input}`"
        );

        let rec = recognizer("t", pattern);
        let scan = rec.scan(input);
        assert!(
            !scan.claims.is_empty(),
            "`{pattern}` 匹配 `{input}`，但识别器**没有认领**——\
             这正是 `leading_literal` 的假阴性形态（自己算出 leading=`{}`）",
            leading_literal(pattern)
        );
    }
}

#[test]
fn the_optimisation_never_changes_the_verdict() {
    let patterns = [
        "^uU[a-z]+$",
        "^https?://.*$",
        "^(a|b)+$",
        "^a?b$",
        "^v([0-9]|10)$",
        "^;.*;$",
        "^\\d+$",
        "^[A-Za-z]+$",
        "^a{2,3}b$",
        "^x*y$",
        "^\\w+$",
        "^.$",
    ];
    let inputs = [
        "",
        "a",
        "b",
        "aa",
        "ab",
        "bbb",
        "c",
        "uUni",
        "uU",
        "http://x",
        "https://x",
        "v1",
        "v10",
        "v11",
        ";abc;",
        ";abc",
        "123",
        "1a",
        "xy",
        "yy",
        "aab",
        "aaab",
        "aaaa",
        "z",
    ];
    for pattern in patterns {
        let Ok(re) = Regex::compile(pattern) else {
            continue;
        };
        let rec = recognizer("p", pattern);
        let to_end = pattern.ends_with('$') && !pattern.ends_with("\\$");
        for input in inputs {
            let re_hit = re.match_prefix_len(input, to_end).is_some();
            let recognised = !rec.scan(input).claims.is_empty();
            assert_eq!(
                re_hit,
                recognised,
                "`{pattern}` 对 `{input}`：正则在位置 0 的结论是 {re_hit}，\
                 而识别器给的是 {recognised}（leading=`{}`）——优化改变了结论",
                leading_literal(pattern)
            );
        }
    }
}

#[test]
fn required_prefix_is_conservative() {
    let cases = [
        ("^abc$", "abc"),
        ("^uU[a-z]+$", "uU"),
        ("^v([0-9]|10)$", "v"),
        ("^https?://.*$", "http"),
        ("^(a|b)+$", ""),
        ("^a?b$", ""),
        ("^([nl])ue$", ""),
        ("^\\d+$", ""),
        ("^[ab]+$", ""),
        ("^.*$", ""),
    ];
    for (pattern, want) in cases {
        let re = Regex::compile(pattern).unwrap();
        assert_eq!(
            re.required_prefix(),
            want,
            "`{pattern}` 的必需前缀取错了——多取一个字就是假阴性"
        );
        assert_eq!(leading_literal(pattern), want);
    }
}


#[test]
fn nested_repeats_are_rejected_at_compile_time() {
    for pattern in ["^(a+)+$", "^(a*)*$", "^(ab*)*$", "^(a?){2,}$", "x(a+)+y"] {
        let e = Regex::compile(pattern)
            .err()
            .unwrap_or_else(|| panic!("`{pattern}` 是重复套重复，必须编译期拒绝"));
        let msg = e.message();
        assert!(
            msg.contains("重复套重复") && msg.contains("指数"),
            "诊断必须说清楚为什么：{msg}"
        );
    }
    for pattern in ["^([a-z]{2}).+$", "^uU[a-z]+$", "^a{2,3}b$", "^x*y$"] {
        assert!(
            Regex::compile(pattern).is_ok(),
            "`{pattern}` 不含嵌套重复，不该被拒绝"
        );
    }
}

#[test]
fn catastrophic_backtracking_is_bounded_by_the_step_budget() {
    let pattern = "^a*a*a*a*a*a*a*a*a*a*b$";
    let re = Regex::compile(pattern).expect("平铺量词应当能编译");
    let input = "a".repeat(40);

    let t0 = Instant::now();
    let hit = re.match_prefix_len(&input, true);
    let dt = t0.elapsed();
    assert!(hit.is_none(), "末尾没有 b，不该匹配");
    assert!(
        dt < Duration::from_millis(500),
        "回溯必须被预算限住，实测 {dt:?}——没有上限就会跑到分钟级"
    );

    let tiny = re.clone().with_step_budget(1_000);
    let t0 = Instant::now();
    let _ = tiny.match_prefix_len(&input, true);
    assert!(t0.elapsed() < Duration::from_millis(100));
}

#[test]
fn recursive_depth_is_capped_for_long_inputs() {
    let re = Regex::compile("^a+$").unwrap();
    let input = "a".repeat(200_000);
    let _ = re.match_prefix_len(&input, true);
    let _ = re.is_full_match(&input);
}

#[test]
fn a_normal_recognizer_still_works_after_the_budget_was_added() {
    let rec = recognizer("url", "^https?://.*$");
    assert!(!rec.scan("http://x").claims.is_empty());
    assert!(!rec.scan("https://example.com/a?b=1").claims.is_empty());
    assert!(rec.scan("ftp://x").claims.is_empty());

    let rec = recognizer("unicode", "^uU[a-f0-9]+$");
    assert!(!rec.scan("uUabc").claims.is_empty());
    assert!(!rec.scan("uU1f").claims.is_empty());
    assert!(rec.scan("uUni").claims.is_empty(), "'n' 不在 [a-f0-9] 里");
    assert!(rec.scan("ni").claims.is_empty());
}
