use std::sync::Arc;

use stele_engine::candidate::{is_exact, Origin, Span};
use stele_engine::code::{CodeAlphabet, CodeUnitId, Score, SpellingAttr};
use stele_engine::component::{TaggedTranslator, Translator};
use stele_engine::lexicon::InMemoryLexicon;
use stele_engine::scheme::entry;
use stele_engine::spelling::{Rule, SpellingTable};
use stele_engine::translator::{
    EchoTranslator, ExactCodeTranslator, SpellingGraphTranslator, COMPLETION_COST_MILLI,
};

fn weight(w: f64) -> Score {
    Score::from_milli_log((w.ln() * 1000.0).round() as i32)
}

fn alphabet(units: &[&str]) -> CodeAlphabet {
    CodeAlphabet::new(units.iter().map(|s| (*s).to_owned()).collect())
}

#[test]
fn exact_translator_splits_and_looks_up() {
    let a = alphabet(&["a", "b"]);
    let lex = Arc::new(
        InMemoryLexicon::from_entries(a.clone(), &[entry(&["a", "b"], "十", weight(5.0))]).unwrap(),
    );
    let t = ExactCodeTranslator::new(&a, lex);

    assert_eq!(t.split("ab"), Some(vec![CodeUnitId(0), CodeUnitId(1)]));
    assert_eq!(t.split("az"), None);

    let mut buf = Vec::new();
    t.translate("ab", Span::new(0, 2), &mut buf, 16);
    assert_eq!(buf.len(), 1);
    assert_eq!(buf[0].text, "十");
    assert_eq!(buf[0].span, Span::new(0, 2));
    assert_eq!(buf[0].score, weight(5.0));
}

#[test]
fn spelling_graph_translator_applies_edge_cost_and_attr() {
    let a = alphabet(&["ni", "hao"]);
    let table = Arc::new(SpellingTable::compile(
        a.clone(),
        &[Rule::abbrev(1, weight(0.5)).unwrap()],
    ));
    let lex = Arc::new(
        InMemoryLexicon::from_entries(a, &[entry(&["ni", "hao"], "你好", weight(100.0))]).unwrap(),
    );
    let t = SpellingGraphTranslator::new(table, lex);

    let mut buf = Vec::new();
    t.translate("nihao", Span::new(0, 5), &mut buf, 16);
    assert_eq!(buf[0].text, "你好");
    assert_eq!(buf[0].attr, SpellingAttr::normal());
    let canonical_score = buf[0].score;

    let mut buf2 = Vec::new();
    t.translate("nh", Span::new(0, 2), &mut buf2, 16);
    assert_eq!(buf2[0].text, "你好");
    assert!(buf2[0].attr.contains(SpellingAttr::abbrev()));
    assert!(buf2[0].score < canonical_score);
}

#[test]
fn echo_translator_always_yields_something() {
    let t = EchoTranslator::new();
    let mut buf = Vec::new();
    t.translate("zzz", Span::new(0, 3), &mut buf, 16);
    assert_eq!(buf.len(), 1);
    assert_eq!(buf[0].text, "zzz");
    assert_eq!(buf[0].origin, Origin::Literal);
    assert!(is_exact(buf[0].origin, buf[0].attr));
    assert!(buf[0].score > Score::floor());

    let mut buf2 = Vec::new();
    t.translate("", Span::new(0, 0), &mut buf2, 16);
    assert!(buf2.is_empty());
}

#[test]
fn tagged_translator_binds_by_tag() {
    let inner = EchoTranslator::new();
    let tagged = TaggedTranslator::new(Translator::Echo(inner), vec!["abc"]);
    assert!(tagged.accepts(&vec!["abc"]));
    assert!(tagged.accepts(&vec!["punct", "abc"]));
    assert!(!tagged.accepts(&vec!["punct"]));
}

#[test]
fn completed_words_rank_below_exact_ones() {
    let a = alphabet(&["a", "b"]);
    let rows = [
        entry(&["a"], "甲", weight(10.0)),
        entry(&["a", "b"], "乙", weight(10.0)),
    ];
    let lex = Arc::new(InMemoryLexicon::from_entries(a.clone(), &rows).unwrap());
    let t = ExactCodeTranslator::new(&a, lex).with_completion(true);
    let mut buf = Vec::new();
    t.translate("a", Span::new(0, 1), &mut buf, 16);
    assert_eq!(buf.len(), 2);
    assert_eq!(buf[0].text, "甲");
    assert_eq!(buf[1].text, "乙");
    assert!(buf[1].attr.contains(SpellingAttr::completion()));
    assert_eq!(
        buf[1].score.as_milli_log(),
        weight(10.0).as_milli_log() + COMPLETION_COST_MILLI
    );
}

#[test]
fn a_sentence_is_made_where_no_word_covers_the_input() {
    let a = alphabet(&["ni", "hao", "shi", "jie"]);
    let table = Arc::new(SpellingTable::compile(a.clone(), &[]));
    let rows = [
        entry(&["ni", "hao"], "你好", weight(100.0)),
        entry(&["shi", "jie"], "世界", weight(100.0)),
    ];
    let lex = Arc::new(InMemoryLexicon::from_entries(a, &rows).unwrap());
    let t = SpellingGraphTranslator::new(table, lex);
    let mut buf = Vec::new();
    t.translate("nihaoshijie", Span::new(0, 11), &mut buf, 200);
    let sentence = buf.iter().find(|c| c.origin == Origin::Sentence).unwrap();
    assert_eq!(sentence.text, "你好世界");
}

#[test]
fn what_is_added_to_the_score_is_added_to_every_candidate() {
    let a = alphabet(&["a"]);
    let lex = Arc::new(
        InMemoryLexicon::from_entries(a.clone(), &[entry(&["a"], "甲", weight(10.0))]).unwrap(),
    );
    let t = ExactCodeTranslator::new(&a, lex).with_initial_quality(Some(Score::from_milli_log(7)));
    let mut buf = Vec::new();
    t.translate("a", Span::new(0, 1), &mut buf, 16);
    assert_eq!(buf[0].score.as_milli_log(), weight(10.0).as_milli_log() + 7);
}
