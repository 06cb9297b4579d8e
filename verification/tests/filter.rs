use std::sync::Arc;

use stele_engine::candidate::{is_exact, Candidate, CandidateKind, Lane, Origin, Span};
use stele_engine::code::{Score, SpellingAttr};
use stele_engine::filter::{Converter, ReverseLookupFilter, Uniquifier, CAP};
use stele_engine::lexicon::TextIndex;
use stele_engine::options::{Options, Switch};
use stele_engine::spelling::SpellingFormat;
use stele_engine::table::TextTable;

fn weight(w: f64) -> Score {
    Score::from_milli_log((w.ln() * 1000.0).round() as i32)
}

fn cand(text: &str, milli: i32, origin: Origin, attr: SpellingAttr) -> Candidate {
    Candidate {
        text: text.to_owned(),
        comment: None,
        score: Score::from_milli_log(milli),
        origin,
        attr,
        span: Span::new(0, 1),
        lane: Lane::Input,
        kind: CandidateKind::Normal,
        key: None,
    }
}

fn run(cands: &mut Vec<Candidate>) {
    Uniquifier.apply(cands);
}

#[test]
fn removes_duplicates_keeping_first_position() {
    let mut v = vec![
        cand("甲", 10, Origin::SystemWord, SpellingAttr::normal()),
        cand("乙", 5, Origin::SystemWord, SpellingAttr::normal()),
        cand("甲", 1, Origin::SystemWord, SpellingAttr::normal()),
    ];
    run(&mut v);
    let texts: Vec<&str> = v.iter().map(|c| c.text.as_str()).collect();
    assert_eq!(texts, ["甲", "乙"], "保持首次出现的位置");
}

#[test]
fn merge_takes_best_origin_and_highest_score() {
    let mut v = vec![
        cand("你好", 10, Origin::Sentence, SpellingAttr::abbrev()),
        cand("你好", 99, Origin::UserWord, SpellingAttr::normal()),
    ];
    run(&mut v);
    assert_eq!(v.len(), 1);
    assert_eq!(v[0].origin, Origin::UserWord, "来源取优先级最高的");
    assert_eq!(v[0].score, Score::from_milli_log(99), "分数取最高");
}

#[test]
fn merge_intersects_spelling_attrs() {
    let mut v = vec![
        cand("你好", 10, Origin::SystemWord, SpellingAttr::abbrev()),
        cand("你好", 10, Origin::SystemWord, SpellingAttr::normal()),
    ];
    run(&mut v);
    assert_eq!(v.len(), 1);
    assert_eq!(v[0].attr, SpellingAttr::normal());
    assert!(
        !is_exact(v[0].origin, v[0].attr) || v[0].attr == SpellingAttr::normal(),
        "交集规则"
    );

    let mut v2 = vec![
        cand("你好", 10, Origin::SystemWord, SpellingAttr::abbrev()),
        cand("你好", 10, Origin::SystemWord, SpellingAttr::abbrev()),
    ];
    run(&mut v2);
    assert!(v2[0].attr.contains(SpellingAttr::abbrev()));
}


fn table(rows: &[(&str, &[&str])]) -> Arc<TextTable<Vec<String>>> {
    let mut t = TextTable::new();
    for (k, vs) in rows {
        t.insert((*k).to_owned(), vs.iter().map(|s| (*s).to_owned()).collect());
    }
    Arc::new(t)
}

fn converter(rows: &[(&str, &[&str])]) -> Converter {
    Converter::new(table(rows), None, true, weight(0.95))
}

fn apply_converter(c: &Converter, cands: &mut Vec<Candidate>) {
    let mut opts = Options::new();
    opts.set("on", true);
    c.apply(&opts, cands);
}

#[test]
fn emoji_style_table_yields_the_emoji_as_a_candidate() {
    let c = converter(&[("微笑", &["微笑", "😊"])]);
    let mut v = vec![cand("微笑", 100, Origin::SystemWord, SpellingAttr::normal())];
    apply_converter(&c, &mut v);
    let texts: Vec<&str> = v.iter().map(|c| c.text.as_str()).collect();
    assert_eq!(texts, ["微笑", "😊"]);
    assert!(v[1].score < v[0].score);
}

#[test]
fn simplifier_style_table_yields_every_alternative() {
    let c = converter(&[("干", &["乾", "幹"])]);
    let mut v = vec![cand("干", 100, Origin::SystemWord, SpellingAttr::normal())];
    apply_converter(&c, &mut v);
    let texts: Vec<&str> = v.iter().map(|c| c.text.as_str()).collect();
    assert_eq!(texts, ["干", "乾", "幹"]);
}

#[test]
fn converter_does_longest_match_and_can_multi_target() {
    let c = converter(&[("里", &["裡"]), ("这里", &["這裡", "此地"])]);
    let got = c.convert_all("这里");
    assert_eq!(got, ["這裡", "此地"], "最长匹配优先，且两个目标都保留");
    assert_eq!(c.convert_all("心里"), ["心裡"]);
}

#[test]
fn a_composite_row_from_the_real_emoji_table_yields_the_emoji() {
    let c = converter(&[("微笑", &["微笑 😊"])]);
    assert_eq!(c.convert_all("微笑"), ["😊"]);
    let c2 = converter(&[("扭曲", &["扭曲\t🫪"])]);
    assert_eq!(c2.convert_all("扭曲"), ["🫪"]);
}

#[test]
fn a_value_starting_with_the_key_is_treated_as_a_composite() {
    let c = converter(&[("甲", &["甲! 乙"])]);
    assert_eq!(c.convert_all("甲"), ["! 乙"]);
    let c2 = converter(&[("甲", &["乙 丙"])]);
    assert_eq!(c2.convert_all("甲"), ["乙", "丙"]);
}

#[test]
fn converter_returns_nothing_when_nothing_changes() {
    let c = converter(&[("甲", &["乙"])]);
    assert!(c.convert_all("丙丁").is_empty(), "一个字都没命中 → 空");
    let c2 = converter(&[("甲", &["甲"])]);
    assert!(c2.convert_all("甲").is_empty(), "身份映射不算转换");
}

#[test]
fn converter_caps_the_branch_count() {
    let many: Vec<&str> = (0..50).map(|_| "x").collect();
    let c = converter(&[("甲", &many)]);
    assert!(c.convert_all("甲").len() <= CAP);
}

#[test]
fn converter_respects_its_option() {
    let c = Converter::new(
        table(&[("甲", &["乙"])]),
        Some("emoji".to_owned()),
        true,
        weight(0.95),
    );
    let opts = Options::new();
    let mut v = vec![cand("甲", 100, Origin::SystemWord, SpellingAttr::normal())];
    c.apply(&opts, &mut v);
    assert_eq!(v.len(), 1);

    let mut on = Options::new();
    on.declare(Switch::new("emoji", true));
    c.apply(&on, &mut v);
    assert_eq!(v.len(), 2);
    assert_eq!(v[1].text, "乙");
    assert_eq!(v[1].score, Score::from_milli_log(49));
}

#[test]
fn a_repeated_text_stays_once_and_nothing_else_changes() {
    let mut v = vec![
        cand("甲", 10, Origin::SystemWord, SpellingAttr::normal()),
        cand("乙", 5, Origin::SystemWord, SpellingAttr::normal()),
    ];
    run(&mut v);
    let texts: Vec<&str> = v.iter().map(|c| c.text.as_str()).collect();
    assert_eq!(texts, ["甲", "乙"]);
}

#[test]
fn reverse_lookup_shows_the_code_beside_a_candidate() {
    let index = TextIndex::from_entries(&[(
        "好".to_owned(),
        vec!["nv".to_owned(), "zi".to_owned()],
    )]);
    let format = SpellingFormat::parse_all(&["xform/ /+/".to_owned()]).unwrap();
    let f = ReverseLookupFilter::new(index, Some(format), false);
    let mut v = vec![
        cand("好", 10, Origin::SystemWord, SpellingAttr::normal()),
        cand("坏", 10, Origin::SystemWord, SpellingAttr::normal()),
    ];
    f.apply(&mut v);
    assert_eq!(v[0].comment.as_deref(), Some("nv+zi"));
    assert_eq!(v[1].comment, None);
}
