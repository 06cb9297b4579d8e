use stele_engine::code::{CodeAlphabet, Score, SpellingAttr};
use stele_engine::spelling::{Expansion, Rule, RuleError, SpellingFormat, SpellingTable};

fn weight(w: f64) -> Score {
    Score::from_milli_log((w.ln() * 1000.0).round() as i32)
}

fn alphabet(units: &[&str]) -> CodeAlphabet {
    CodeAlphabet::new(units.iter().map(|s| (*s).to_owned()).collect())
}

fn expand_all(table: &SpellingTable, spelling: &str) -> Vec<Expansion> {
    let mut buf = Vec::new();
    table.expand_into(spelling, &mut buf, 64);
    buf
}

fn code_texts<'a>(table: &'a SpellingTable, e: &Expansion) -> Vec<&'a str> {
    e.code
        .iter()
        .map(|u| table.alphabet().text(*u).unwrap_or("?"))
        .collect()
}

#[test]
fn identity_segments_a_canonical_spelling() {
    let t = SpellingTable::compile(alphabet(&["ni", "hao"]), &[]);
    let got = expand_all(&t, "nihao");
    assert_eq!(got.len(), 1);
    assert_eq!(code_texts(&t, &got[0]), ["ni", "hao"]);
    assert_eq!(got[0].cost, Score::zero());
    assert_eq!(got[0].attr, SpellingAttr::normal());
}

#[test]
fn identity_directly_resolves_ambiguity_by_edges() {
    let t = SpellingTable::compile(alphabet(&["xi", "an", "xian"]), &[]);
    let got = expand_all(&t, "xian");
    let segs: Vec<Vec<&str>> = got.iter().map(|e| code_texts(&t, e)).collect();
    assert!(segs.contains(&vec!["xian"]), "{segs:?}");
    assert!(segs.contains(&vec!["xi", "an"]), "{segs:?}");
}

#[test]
fn abbrev_rule_lets_nh_reach_ni_hao() {
    let t = SpellingTable::compile(
        alphabet(&["ni", "na", "hao"]),
        &[Rule::abbrev(1, weight(0.5)).unwrap()],
    );
    let got = expand_all(&t, "nh");
    let segs: Vec<Vec<&str>> = got.iter().map(|e| code_texts(&t, e)).collect();
    assert!(segs.contains(&vec!["ni", "hao"]), "{segs:?}");
    assert!(segs.contains(&vec!["na", "hao"]), "{segs:?}");
    for e in &got {
        assert!(e.attr.contains(SpellingAttr::abbrev()));
        assert!(e.cost < Score::zero());
    }
}

#[test]
fn canonical_spelling_beats_abbreviation_on_cost() {
    let t = SpellingTable::compile(
        alphabet(&["ni", "hao"]),
        &[Rule::abbrev(1, weight(0.5)).unwrap()],
    );
    let got = expand_all(&t, "nihao");
    assert_eq!(code_texts(&t, &got[0]), ["ni", "hao"]);
    assert_eq!(got[0].cost, Score::zero());
    assert_eq!(got[0].attr, SpellingAttr::normal());
}

#[test]
fn equivalence_rule_creates_a_fuzzy_edge() {
    let t = SpellingTable::compile(
        alphabet(&["zhao"]),
        &[Rule::equivalence(&[('z', 'z'), ('h', 'h')], Score::zero())],
    );
    assert_eq!(t.edge_count(), 1);

    let t2 = SpellingTable::compile(
        alphabet(&["zhang"]),
        &[Rule::equivalence(&[('h', ' ')], Score::zero())],
    );
    let got = expand_all(&t2, "z ang");
    assert!(got.iter().any(|e| e.attr.contains(SpellingAttr::fuzzy())));
}

#[test]
fn expansion_is_deterministic() {
    let t = SpellingTable::compile(
        alphabet(&["ni", "na", "hao", "he"]),
        &[Rule::abbrev(1, weight(0.5)).unwrap()],
    );
    let first = expand_all(&t, "nh");
    for _ in 0..50 {
        let again = expand_all(&t, "nh");
        assert_eq!(
            first.iter().map(|e| e.code.clone()).collect::<Vec<_>>(),
            again.iter().map(|e| e.code.clone()).collect::<Vec<_>>(),
        );
    }
}

#[test]
fn unresolvable_spelling_yields_nothing() {
    let t = SpellingTable::compile(alphabet(&["ni", "hao"]), &[]);
    assert!(expand_all(&t, "zzz").is_empty());
    assert!(expand_all(&t, "").is_empty());
}

#[test]
fn parses_real_rime_rule_syntax() {
    assert!(matches!(
        Rule::parse("xform/^([nl])ue$/$1ve/").unwrap(),
        Rule::Xform { .. }
    ));
    assert!(matches!(
        Rule::parse("derive/^([zcs])h/$1/").unwrap(),
        Rule::Derive { .. }
    ));
    assert!(matches!(
        Rule::parse("abbrev/^([a-z]).+$/$1/").unwrap(),
        Rule::Derive { attr, .. } if attr == SpellingAttr::abbrev()
    ));
    assert!(matches!(
        Rule::parse("fuzz/^([zcs])h/$1/").unwrap(),
        Rule::Derive { attr, .. } if attr == SpellingAttr::fuzzy()
    ));
    assert!(matches!(
        Rule::parse("erase/^hm$/").unwrap(),
        Rule::Erase { .. }
    ));
    assert!(matches!(
        Rule::parse("xlit/abc/ABC/").unwrap(),
        Rule::Xlit { .. }
    ));
}

#[test]
fn rule_errors_explain_themselves() {
    let e = Rule::parse("telepathy/a/b/").unwrap_err();
    assert!(e.message().contains("xlit"));
    assert!(e.message().contains("xform"));

    let e2 = Rule::parse("xform/^a$").unwrap_err();
    assert!(e2.message().contains("2 个参数"));

    let e3 = Rule::parse("xlit/ab/CDE/").unwrap_err();
    assert!(e3.message().contains("长度"));

    assert_eq!(Rule::parse("").unwrap_err(), RuleError::Empty);
}

#[test]
fn xform_removes_the_original_spelling() {
    let t = SpellingTable::compile(
        alphabet(&["nue"]),
        &[Rule::parse("xform/^([nl])ue$/$1ve/").unwrap()],
    );
    assert_eq!(t.edge_count(), 1);
    assert!(t.looks_up("nve"));
    assert!(!t.looks_up("nue"), "xform 是改写，原拼写应当失效");
}

#[test]
fn derive_keeps_both_spellings() {
    let t = SpellingTable::compile(
        alphabet(&["zhang"]),
        &[Rule::parse("derive/^([zcs])h/$1/").unwrap()],
    );
    assert_eq!(t.edge_count(), 2);
    assert!(t.looks_up("zhang"));
    assert!(t.looks_up("zang"));
}

#[test]
fn erase_removes_only_an_exact_match() {
    let t = SpellingTable::compile(
        alphabet(&["hm", "hmm"]),
        &[Rule::parse("erase/^hm$/").unwrap()],
    );
    assert!(!t.looks_up("hm"));
    assert!(t.looks_up("hmm"), "erase 是全匹配，hmm 不该被删");
}

#[test]
fn rule_order_is_semantics() {
    let abbrev = Rule::abbrev(1, Score::zero()).unwrap();
    let rewrite = Rule::parse("xform/^n$/m/").unwrap();

    let a = SpellingTable::compile(alphabet(&["ni"]), &[abbrev.clone(), rewrite.clone()]);
    let b = SpellingTable::compile(alphabet(&["ni"]), &[rewrite, abbrev]);

    assert!(a.looks_up("ni"));
    assert!(a.looks_up("m"), "先缩写后改写：`ni`→`n`→`m`");
    assert!(!a.looks_up("n"), "`n` 已被改写掉");

    assert!(b.looks_up("ni"));
    assert!(
        b.looks_up("n"),
        "先改写后缩写：`^n$` 匹配不上 `ni`，缩写仍得 `n`"
    );
    assert!(!b.looks_up("m"), "`m` 不会出现");

    assert_eq!(a.edge_count(), 2, "先缩写后改写：{{ni, m}}");
    assert_eq!(b.edge_count(), 2, "先改写后缩写：{{ni, n}}");
}

#[test]
fn no_rules_means_canonical_only() {
    let t = SpellingTable::compile(alphabet(&["ni", "hao"]), &[]);
    assert_eq!(t.edge_count(), 2);
    assert!(t.looks_up("ni"));
    assert!(t.looks_up("hao"));
    assert!(!t.looks_up("n"));
}

#[test]
fn a_format_rewrites_texts_in_the_order_of_its_rules() {
    let f = SpellingFormat::parse_all(&["xform/^n/m/".to_owned(), "xlit/m/w/".to_owned()]).unwrap();
    assert!(!f.is_empty());
    assert_eq!(f.apply("ni"), "wi");
    assert!(SpellingFormat::parse_all(&["telepathy/a/b/".to_owned()]).is_err());
    assert!(SpellingFormat::parse_all(&[]).unwrap().is_empty());
}

#[test]
fn each_refusal_of_a_rule_comes_on_its_input() {
    assert!(matches!(Rule::parse("telepathy/a/b/"), Err(RuleError::UnknownOp(_))));
    assert!(matches!(Rule::parse("xform/^a$"), Err(RuleError::WrongArity { .. })));
    assert!(matches!(Rule::parse("xlit/ab/CDE/"), Err(RuleError::XlitLengthMismatch { .. })));
    assert!(matches!(Rule::parse("erase/a(/"), Err(RuleError::BadRegex { .. })));
    assert!(matches!(Rule::parse("   "), Err(RuleError::Empty)));
    assert!(matches!(Rule::abbrev(0, Score::zero()), Err(RuleError::WrongArity { .. })));
}

#[test]
fn a_buffer_takes_no_more_readings_than_it_has_room_for() {
    let t = SpellingTable::compile(alphabet(&["xi", "an", "xian"]), &[]);
    let mut buf = Vec::new();
    t.expand_into("xian", &mut buf, 1);
    assert_eq!(buf.len(), 1);
    assert_eq!(code_texts(&t, &buf[0]).concat(), "xian");
}
