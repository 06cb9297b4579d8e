use std::sync::Arc;

use stele_engine::builtin::{all, pinyin_scheme};
use stele_engine::candidate::{Candidate, CandidateKind, Lane, Origin, Span};
use stele_engine::code::{CodeAlphabet, Score, SpellingAttr};
use stele_engine::filter::Uniquifier;
use stele_engine::inline::date::civil_from_days;
use stele_engine::inline::reorder::{LongWordFilter, ReduceEnglishFilter, VFilter};
use stele_engine::keyspec::{Key, KeyCode, Modifiers, NamedKey};
use stele_engine::lexicon::InMemoryLexicon;
use stele_engine::memory::{decode, encode};
use stele_engine::processor::{Editor, Speller};
use stele_engine::regex::{describe, Regex};
use stele_engine::registry::{
    implemented_names, is_known, lookup, missing_names, needs_data_names, not_applicable_names,
    CoverageReport,
};
use stele_engine::scheme::entry;
use stele_engine::spec::{
    At, EditorAction, LongWordSpec, ReduceEnglishSpec, ReduceMode, TranslatorKindSpec,
    WhenPredicate,
};
use stele_engine::spelling::{Rule, SpellingTable};
use stele_engine::state::{Context, ProcessResult, SessionState};
use stele_engine::translator::SpellingGraphTranslator;

fn cand(text: &str, milli: i32) -> Candidate {
    Candidate {
        text: text.to_owned(),
        comment: None,
        score: Score::from_milli_log(milli),
        origin: Origin::SystemWord,
        attr: SpellingAttr::normal(),
        span: Span::new(0, 1),
        lane: Lane::Input,
        kind: CandidateKind::Normal,
        key: None,
    }
}

fn texts(v: &[Candidate]) -> Vec<String> {
    v.iter().map(|c| c.text.clone()).collect()
}

fn sorted(v: &[Candidate]) -> Vec<String> {
    let mut t = texts(v);
    t.sort();
    t
}

#[test]
fn taking_repetitions_out_twice_is_taking_them_out_once() {
    let mut v = vec![cand("甲", 1), cand("乙", 5), cand("甲", 9), cand("乙", 2)];
    Uniquifier.apply(&mut v);
    assert_eq!(v.len(), 2);
    assert_eq!(v.iter().find(|c| c.text == "甲").unwrap().score.as_milli_log(), 9);
    let once = texts(&v);
    Uniquifier.apply(&mut v);
    assert_eq!(texts(&v), once);
}

#[test]
fn reordering_filters_only_reorder() {
    let v = vec![cand("van", 4), cand("ā", 3), cand("rug", 2), cand("如果", 1)];
    let mut single = v.clone();
    VFilter::default().apply("va", &mut single);
    let mut english = v.clone();
    ReduceEnglishFilter::new(&ReduceEnglishSpec {
        mode: ReduceMode::All,
        idx: 3,
        words: vec![],
        at: At::default(),
    })
    .apply("rug", &mut english);
    let mut long = v.clone();
    LongWordFilter::new(&LongWordSpec {
        count: 2,
        idx: 2,
        ..Default::default()
    })
    .apply(&mut long);
    assert_ne!(texts(&single), texts(&v));
    for w in [&single, &english, &long] {
        assert_eq!(sorted(w), sorted(&v));
    }
}

#[test]
fn the_context_keeps_the_last_words() {
    let mut c = Context::with_capacity(3);
    for w in ["a", "b", "c", "d"] {
        c.push(w);
    }
    assert_eq!(*c.recent(), ["b", "c", "d"]);
}

#[test]
fn days_and_dates_go_forward_together() {
    let mut last = civil_from_days(-1_000_000);
    for d in -999_999..-999_000 {
        let date = civil_from_days(d);
        assert!(last < date);
        last = date;
    }
    assert_eq!(civil_from_days(11_016), (2000, 2, 29));
    assert_eq!(civil_from_days(11_017), (2000, 3, 1));
    assert_eq!(civil_from_days(47_540), (2100, 2, 28));
    assert_eq!(civil_from_days(47_541), (2100, 3, 1));
}

#[test]
fn typing_and_going_back_leaves_nothing() {
    let mut s = SessionState::default();
    Speller::default().process(&mut s, &Key::ch('n'));
    let mut ed = Editor::new(vec![(
        stele_engine::keyspec::KeyChord::new(
            KeyCode::Named(NamedKey::Backspace),
            Modifiers::none(),
        ),
        EditorAction::BackStep,
    )]);
    let back = Key::press(KeyCode::Named(NamedKey::Backspace), Modifiers::none());
    assert_eq!(ed.process(&mut s, &back), ProcessResult::Accepted);
    assert_eq!(s.composition.input, "");
    assert_eq!(ed.process(&mut s, &back), ProcessResult::Noop);
}

#[test]
fn a_match_is_the_leftmost_and_starts_with_the_required_prefix() {
    let re = Regex::compile("ab+").unwrap();
    let m = re.find("xxabbab").unwrap();
    assert_eq!((m.start, m.end), (2, 5));
    assert_eq!(re.required_prefix(), "a");
    assert_eq!(re.match_prefix_len("abbx", false), Some(3));
    assert_eq!(re.match_prefix_len("abbx", true), None);
    assert_eq!(re.replace_all("xyz", "!"), "xyz");
    assert_eq!(re.replace_all("xabyabb", "!"), "x!y!");
}

#[test]
fn classes_go_by_the_tables_of_unicode() {
    let word = Regex::compile("^\\w+$").unwrap();
    assert!(word.is_full_match("你好_é9"));
    assert!(!word.is_full_match("你 好"));
    let space = Regex::compile("^\\s$").unwrap();
    assert!(space.is_full_match("\u{3000}"));
    assert!(!space.is_full_match("x"));
}

#[test]
fn a_pattern_is_described_with_quoted_characters() {
    let text = describe(&Regex::compile("[a-z]'").unwrap());
    assert!(text.contains("Range('a', 'z')"), "{text}");
    assert!(text.contains("'\\''"), "{text}");
}

#[test]
fn words_of_english_are_listed_in_any_case() {
    let f = ReduceEnglishFilter::new(&ReduceEnglishSpec {
        mode: ReduceMode::Custom,
        idx: 2,
        words: vec!["RUG".to_owned(), "ÉTÉ".to_owned()],
        at: At::default(),
    });
    assert!(f.triggers("rug"));
    assert!(f.triggers("été"));
    assert!(!f.triggers("RUG"));
}

#[test]
fn listed_names_are_read() {
    for n in EditorAction::all_names() {
        assert!(EditorAction::parse(n).is_some(), "{n}");
    }
    for n in WhenPredicate::all_names() {
        assert!(WhenPredicate::parse(n).is_some(), "{n}");
    }
    for k in [TranslatorKindSpec::SpellingGraph, TranslatorKindSpec::ExactCode] {
        assert_eq!(TranslatorKindSpec::parse(k.component_name()), Some(k));
    }
    assert_eq!(EditorAction::parse("confirmed"), None);
    assert_eq!(WhenPredicate::parse("never"), None);
}

#[test]
fn every_listed_component_is_known_whatever_its_alias() {
    for list in [
        implemented_names(),
        missing_names(),
        needs_data_names(),
        not_applicable_names(),
    ] {
        for pair in list.windows(2) {
            assert!(pair[0] < pair[1]);
        }
        for n in list {
            assert!(is_known(n));
            assert_eq!(lookup(&format!("{n}@other")).0, lookup(n).0);
        }
    }
    let report = CoverageReport::of(&["speller".to_owned(), "selector".to_owned()]);
    assert!(report.is_complete());
    assert!(!CoverageReport::of(&["no_such_part".to_owned()]).is_complete());
}

#[test]
fn a_word_that_covers_the_input_leaves_no_room_for_a_sentence() {
    let a = CodeAlphabet::new(vec!["ni".into(), "hao".into()]);
    let weight = Score::from_milli_log(5_000);
    let rows = [
        entry(&["ni"], "你", weight),
        entry(&["hao"], "好", weight),
        entry(&["ni", "hao"], "你好", weight),
    ];
    let rule = Rule::abbrev(1, Score::from_milli_log(-693)).unwrap();
    let t = SpellingGraphTranslator::new(
        Arc::new(SpellingTable::compile(a.clone(), &[rule])),
        Arc::new(InMemoryLexicon::from_entries(a, &rows).unwrap()),
    );
    let mut full = Vec::new();
    t.translate("nihao", Span::new(0, 5), &mut full, 100);
    assert!(full.iter().all(|c| c.origin != Origin::Sentence));
    let mut twice = Vec::new();
    t.translate("haoni", Span::new(0, 5), &mut twice, 100);
    assert!(twice.iter().any(|c| c.origin == Origin::Sentence));
    let score = |v: &Vec<Candidate>| {
        v.iter()
            .find(|c| c.text == "你好")
            .unwrap()
            .score
            .as_milli_log()
    };
    let mut half = Vec::new();
    t.translate("nhao", Span::new(0, 4), &mut half, 100);
    let mut short = Vec::new();
    t.translate("nh", Span::new(0, 2), &mut short, 100);
    assert_eq!(score(&full), 5_000);
    assert_eq!(score(&half), 5_000 - 693);
    assert_eq!(score(&short), 5_000 - 2 * 693);
}

#[test]
fn every_built_in_scheme_can_always_commit_what_was_typed() {
    for d in all() {
        let mut p = d.compile().unwrap().build_pipeline();
        let mut s = SessionState::default();
        for c in "qq".chars() {
            p.process_key(&mut s, &Key::ch(c));
        }
        let mut out = Vec::new();
        p.compose(&mut s, &mut out);
        assert!(texts(&out).contains(&"qq".to_owned()));
    }
}

#[test]
fn sharing_a_lexicon_shares_its_words() {
    let scheme = pinyin_scheme().compile().unwrap();
    assert_eq!(scheme.lexicon().len(), scheme.lexicon().len());
    assert!(!scheme.lexicon().is_empty());
}

#[test]
fn every_changed_byte_is_noticed() {
    let whole = encode(&[], &[]);
    assert!(decode(&whole).is_ok());
    for i in 0..whole.len() {
        let mut changed = whole.clone();
        changed[i] ^= 1;
        assert!(decode(&changed).is_err(), "{i}");
    }
}
