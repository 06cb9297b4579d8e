use std::sync::Arc;

use stele_engine::candidate::{Candidate, CandidateKind, Lane, Origin, Span};
use stele_engine::code::{CodeAlphabet, Score, SpellingAttr};
use stele_engine::component::{
    AnyFilter, AnyTranslator, Filter, Processor, Segmentor, TaggedTranslator, Translator,
};
use stele_engine::filter::Uniquifier;
use stele_engine::keyspec::{Key, KeyChord, KeyCode, Modifiers, NamedKey};
use stele_engine::lexicon::InMemoryLexicon;
use stele_engine::pipeline::prediction::Prediction;
use stele_engine::pipeline::{PipelineImpl, CANDIDATE_CAP};
use stele_engine::processor::{Editor, KeyBinder, Navigator, Selector, Speller};
use stele_engine::ranking::sort_candidates;
use stele_engine::scheme::entry;
use stele_engine::segmentor::{CodingSegmentor, InputScan, Matcher, Recognizer, SegmentStatus};
use stele_engine::spec::{
    At, KeyBinding, NavigatorSpec, RecogPattern, RecognizerSpec, WhenPredicate,
};
use stele_engine::spelling::{Rule, SpellingTable};
use stele_engine::state::{ProcessResult, SessionState};
use stele_engine::tag::TagTable;
use stele_engine::translator::{EchoTranslator, SpellingGraphTranslator};

fn weight(w: f64) -> Score {
    Score::from_milli_log((w.ln() * 1000.0).round() as i32)
}

fn build() -> PipelineImpl {
    let alphabet = CodeAlphabet::new(vec!["ni".into(), "hao".into()]);
    let table = Arc::new(SpellingTable::compile(
        alphabet.clone(),
        &[Rule::abbrev(1, weight(0.5)).unwrap()],
    ));
    let lex = Arc::new(
        InMemoryLexicon::from_entries(alphabet, &[entry(&["ni", "hao"], "你好", weight(100.0))]).unwrap(),
    );

    PipelineImpl::new(
        "abc",
        vec![
            Processor::Speller(Speller::default()),
            Processor::Editor(Editor::default()),
            Processor::Selector(Selector),
        ],
        vec![
            AnyTranslator::Plain(Translator::Graph(SpellingGraphTranslator::new(table, lex))),
            AnyTranslator::Plain(Translator::Echo(EchoTranslator::new())),
        ],
        vec![AnyFilter::Plain(Filter::Uniquifier(Uniquifier))],
        CANDIDATE_CAP,
    )
}

fn type_keys(p: &mut PipelineImpl, keys: &str) -> Vec<Candidate> {
    let mut state = SessionState::default();
    let mut out = Vec::new();
    for c in keys.chars() {
        p.process_key(&mut state, &Key::ch(c));
        p.compose(&mut state, &mut out);
    }
    out
}

#[test]
fn pipeline_translates_and_ranks() {
    let mut p = build();
    let cands = type_keys(&mut p, "nihao");
    assert_eq!(cands[0].text, "你好");
}

#[test]
fn echo_fallback_is_present_but_last_for_unknown_input() {
    let mut p = build();
    let cands = type_keys(&mut p, "zzz");
    assert!(!cands.is_empty());
    let literal = cands
        .iter()
        .find(|c| c.text == "zzz")
        .expect("原样上屏候选必须存在");
    assert_eq!(literal.origin, Origin::Literal);
}

#[test]
fn rejected_key_stops_the_chain() {
    let mut p = build();
    let mut state = SessionState::default();
    let ctrl_c = Key::press(KeyCode::Char('c'), Modifiers::ctrl());
    assert_eq!(
        p.process_key(&mut state, &ctrl_c),
        ProcessResult::Rejected,
        "Ctrl+C 必须还给系统，而不是被吞掉"
    );
    assert!(state.composition.input.is_empty());
}

#[test]
fn empty_input_yields_no_candidates() {
    let mut p = build();
    let mut state = SessionState::default();
    let mut out = vec![];
    p.compose(&mut state, &mut out);
    assert!(out.is_empty());
    assert!(state.composition.preedit.is_empty());
}

#[test]
fn segments_carry_the_scheme_tag() {
    let mut p = build();
    let mut state = SessionState::default();
    p.process_key(&mut state, &Key::ch('n'));
    let mut out = vec![];
    p.compose(&mut state, &mut out);

    assert_eq!(state.composition.segments.len(), 1);
    let seg = &state.composition.segments[0];
    assert_eq!(seg.tags, vec!["abc"]);
    assert_eq!(seg.status, SegmentStatus::Guess);
    assert_eq!(p.tag(), "abc");
}

#[test]
fn a_recognized_prefix_gets_its_own_segment() {
    let alphabet = CodeAlphabet::new(vec!["ni".into(), "hao".into()]);
    let table = Arc::new(SpellingTable::compile(alphabet.clone(), &[]));
    let lex = Arc::new(
        InMemoryLexicon::from_entries(alphabet, &[entry(&["ni", "hao"], "你好", weight(100.0))]).unwrap(),
    );
    let mut tag_table = TagTable::new();
    let rec = Recognizer::new(
        &RecognizerSpec {
            import_preset: None,
            patterns: vec![RecogPattern {
                name: "radical_lookup".into(),
                leading: "uU".into(),
                regex: "^uU[a-z]+$".into(),
                trailing: None,
                at: At::new(1),
            }],
        },
        &mut tag_table,
    )
    .unwrap();
    let matcher = Matcher::new(
        InputScan::default(),
        vec!["radical_lookup"],
    );
    let abc =
        CodingSegmentor::new("abc", InputScan::default());

    let mut p = PipelineImpl::new(
        "abc",
        vec![Processor::Speller(Speller::default()), Processor::Editor(Editor::default())],
        vec![AnyTranslator::Plain(Translator::Graph(SpellingGraphTranslator::new(table, lex)))],
        vec![],
        CANDIDATE_CAP,
    )
    .with_segmentors(Some(rec),
        vec![Segmentor::Matcher(matcher), Segmentor::Coding(abc)],
    );

    let mut state = SessionState::default();
    for c in "uUni".chars() {
        p.process_key(&mut state, &Key::ch(c));
    }
    let mut out = vec![];
    p.compose(&mut state, &mut out);

    let segs = &state.composition.segments;
    assert_eq!(segs.len(), 1, "整段被认领，兜底切分器不该再切");
    assert_eq!(segs[0].tags, vec!["radical_lookup"]);
}


fn foreseen(preds: &[(&str, i32)]) -> Vec<Prediction> {
    preds
        .iter()
        .map(|(text, ml)| Prediction {
            text: (*text).to_owned(),
            score: Score::from_milli_log(*ml),
        })
        .collect()
}

fn with_predictions(p: PipelineImpl, preds: Vec<(&'static str, i32)>) -> PipelineImpl {
    p.with_prediction(Some(foreseen(&preds)))
}

fn state_after(words: &[&str]) -> SessionState {
    let mut s = SessionState::default();
    for w in words {
        s.context.push(w);
    }
    s
}

#[test]
fn predictions_are_inserted_right_after_the_first_input_candidate() {
    let mut p = with_predictions(build(), vec![("朋友圈", 5_000)]);
    let mut state = state_after(&["微信"]);
    for c in "nihao".chars() {
        p.process_key(&mut state, &Key::ch(c));
    }
    let mut out = vec![];
    p.compose(&mut state, &mut out);

    assert_eq!(out[0].text, "你好", "输入通道的第 1 名仍在最前");
    assert_eq!(out[1].lane, Lane::Predict, "预测插在第 1 名之后（§4.3.2）");
    assert_eq!(out[1].text, "朋友圈");
    assert_eq!(out[1].origin, Origin::Prediction);
    let end = state.composition.input.len();
    assert_eq!(out[1].span, Span::new(end, end));
    assert_eq!(state.predict_start, 1);
    assert_eq!(state.predict_count, 1);
}

#[test]
fn predictions_are_visible_with_no_input_at_all() {
    let mut p = with_predictions(build(), vec![("朋友圈", 5_000)]);
    let mut state = state_after(&["微信"]);
    let mut out = vec![];
    p.compose(&mut state, &mut out);

    assert_eq!(out.len(), 1, "输入为空也该有预测候选");
    assert_eq!(out[0].lane, Lane::Predict);
    assert_eq!(out[0].text, "朋友圈");
    assert_eq!(state.predict_start, 0);
    assert_eq!(state.candidate_count, 1);
}

#[test]
fn without_a_prediction_service_the_lane_is_empty() {
    let mut p = build();
    assert!(!p.prediction_enabled());
    let mut state = state_after(&["微信"]);
    let mut out = vec![];
    p.compose(&mut state, &mut out);
    assert!(out.is_empty());
    assert_eq!(state.predict_count, 0);
    assert_eq!(state.predict_start, 0);
}

#[test]
fn predictions_are_capped_and_never_duplicate_a_candidate() {
    let mut p = with_predictions(
        build(),
        vec![("你好", 9_000), ("世界", 8_000), ("平安", 7_000)],
    );
    let mut state = state_after(&["微信"]);
    for c in "nihao".chars() {
        p.process_key(&mut state, &Key::ch(c));
    }
    let mut out = vec![];
    p.compose(&mut state, &mut out);

    let preds: Vec<&str> = out
        .iter()
        .filter(|c| c.lane == Lane::Predict)
        .map(|c| c.text.as_str())
        .collect();
    assert_eq!(preds, ["世界", "平安"], "上限 2 条且不重复已有候选");
    assert_eq!(state.predict_count, 2);
}

#[test]
fn the_keyboard_ordinal_skips_over_the_prediction_block() {
    let mut p = with_predictions(build(), vec![("朋友圈", 5_000), ("文件传输助手", 4_000)]);
    let mut state = state_after(&["微信"]);
    for c in "nihao".chars() {
        p.process_key(&mut state, &Key::ch(c));
    }
    let mut out = vec![];
    p.compose(&mut state, &mut out);

    assert_eq!(state.predict_start, 1);
    assert_eq!(state.predict_count, 2);
    assert_eq!(state.selectable_index(0), 0);
    assert_eq!(state.selectable_index(1), 3);
    assert_eq!(out[3].lane, Lane::Input);
}

#[test]
fn predictions_are_deterministic_across_runs() {
    let mut p = with_predictions(build(), vec![("甲", 5_000), ("乙", 5_000), ("丙", 4_000)]);
    let mut run = || {
        let mut state = state_after(&["微信"]);
        for c in "nihao".chars() {
            p.process_key(&mut state, &Key::ch(c));
        }
        let mut out = vec![];
        p.compose(&mut state, &mut out);
        out.into_iter().map(|c| c.text).collect::<Vec<_>>()
    };
    let first = run();
    for _ in 0..100 {
        assert_eq!(run(), first, "含预测的候选序列必须逐字节可复现");
    }
}

#[test]
fn composing_twice_gives_the_same_again() {
    let mut p = build();
    let mut state = SessionState::default();
    for c in "nihao".chars() {
        p.process_key(&mut state, &Key::ch(c));
    }
    let mut once = vec![];
    p.compose(&mut state, &mut once);
    let segments = state.composition.segments.len();
    let mut twice = vec![];
    p.compose(&mut state, &mut twice);
    let texts = |v: &Vec<Candidate>| v.iter().map(|c| c.text.clone()).collect::<Vec<_>>();
    assert_eq!(texts(&once), texts(&twice));
    assert_eq!(state.composition.input, "nihao");
    assert_eq!(state.composition.segments.len(), segments);
}

#[test]
fn the_input_is_shown_in_units() {
    let alphabet = CodeAlphabet::new(vec!["ni".into(), "hao".into()]);
    let table = Arc::new(SpellingTable::compile(alphabet, &[]));
    let mut p = build().with_preedit(Some('\''), Some(table));
    let mut state = SessionState::default();
    for c in "nihao".chars() {
        p.process_key(&mut state, &Key::ch(c));
    }
    let mut out = vec![];
    p.compose(&mut state, &mut out);
    assert_eq!(state.composition.preedit, "ni'hao");
    let spans: Vec<Span> = state.composition.segments.iter().map(|s| s.span).collect();
    assert_eq!(spans, [Span::new(0, 2), Span::new(2, 5)]);
}

#[test]
fn pages_are_counted_and_the_page_stays_among_them() {
    let mut p = build().with_page_size(1);
    let mut state = SessionState::default();
    for c in "nihao".chars() {
        p.process_key(&mut state, &Key::ch(c));
    }
    state.candidate_page = 40;
    let mut out = vec![];
    p.compose(&mut state, &mut out);
    assert_eq!(state.candidate_count, out.len());
    assert_eq!(state.candidate_pages, out.len());
    assert_eq!(state.candidate_page, out.len() - 1);
}

#[test]
fn candidates_rank_by_score_and_equal_ones_keep_their_order() {
    let cand = |text: &str, milli: i32, lane: Lane| Candidate {
        text: text.to_owned(),
        comment: None,
        score: Score::from_milli_log(milli),
        origin: Origin::SystemWord,
        attr: SpellingAttr::normal(),
        span: Span::new(0, 1),
        lane,
        kind: CandidateKind::Normal,
        key: None,
    };
    let mut v = vec![
        cand("丙", 5, Lane::Input),
        cand("甲", 9, Lane::Input),
        cand("丁", 5, Lane::Input),
        cand("乙", 7, Lane::Input),
        cand("戊", 99, Lane::Predict),
    ];
    sort_candidates(&mut v);
    let texts: Vec<&str> = v.iter().map(|c| c.text.as_str()).collect();
    assert_eq!(texts, ["甲", "乙", "丙", "丁", "戊"]);
}

#[test]
fn a_key_that_sends_keys_has_them_handled_in_order() {
    let binding = KeyBinding {
        when: WhenPredicate::Always,
        accept: vec![KeyChord::new(KeyCode::Char('`'), Modifiers::none())],
        send_keys: Some(vec!["ni".into(), "h".into(), "ao".into()]),
        toggle: None,
        set_option: None,
        unset_option: None,
        at: At::new(1),
    };
    let mut p = PipelineImpl::new(
        "abc",
        vec![
            Processor::KeyBinder(KeyBinder::new(vec![binding])),
            Processor::Speller(Speller::default()),
        ],
        vec![],
        vec![],
        CANDIDATE_CAP,
    );
    let mut state = SessionState::default();
    p.process_key(&mut state, &Key::ch('`'));
    assert_eq!(state.composition.input, "nihao");
    assert!(state.sent_keys.is_empty());
}

#[test]
fn another_input_is_shown_from_the_first_page() {
    let spec = NavigatorSpec {
        page_down: vec![KeyChord::new(KeyCode::Named(NamedKey::PageDown), Modifiers::none())],
        ..NavigatorSpec::default()
    };
    let mut p = PipelineImpl::new(
        "abc",
        vec![
            Processor::Navigator(Navigator::new(&spec, 9)),
            Processor::Speller(Speller::default()),
        ],
        vec![],
        vec![],
        CANDIDATE_CAP,
    );
    let mut state = SessionState::default();
    state.composition.input = "ni".to_owned();
    state.composition.caret = 2;
    state.candidate_pages = 3;
    let down = Key::press(KeyCode::Named(NamedKey::PageDown), Modifiers::none());
    assert_eq!(p.process_key(&mut state, &down), ProcessResult::Accepted);
    assert_eq!(state.candidate_page, 1);
    assert_eq!(p.process_key(&mut state, &Key::ch('h')), ProcessResult::Accepted);
    assert_eq!(state.composition.input, "nih");
    assert_eq!(state.candidate_page, 0);
    assert_eq!(p.process_key(&mut state, &down), ProcessResult::Accepted);
    assert_eq!(state.candidate_page, 1, "pages are turned from the first on");
}

#[test]
fn a_translator_without_its_tag_is_told() {
    let echo = || Translator::Echo(EchoTranslator::new());
    let make = |tag: &'static str| {
        PipelineImpl::new(
            "abc",
            vec![],
            vec![
                AnyTranslator::Plain(echo()),
                AnyTranslator::Tagged(TaggedTranslator::new(echo(), vec![tag])),
            ],
            vec![],
            CANDIDATE_CAP,
        )
    };
    assert!(make("abc").tags_are_given());
    assert!(!make("lookup").tags_are_given());
}

#[test]
fn a_sentence_stands_behind_words_whatever_its_score() {
    let cand = |text: &str, milli: i32, origin: Origin, kind: CandidateKind| Candidate {
        text: text.to_owned(),
        comment: None,
        score: Score::from_milli_log(milli),
        origin,
        attr: SpellingAttr::normal(),
        span: Span::new(0, 1),
        lane: Lane::Input,
        kind,
        key: None,
    };
    let mut v = vec![
        cand("nihao", -9_000, Origin::Literal, CandidateKind::Normal),
        cand("你好世界", 9_000, Origin::Sentence, CandidateKind::Normal),
        cand("词", -9_500, Origin::SystemWord, CandidateKind::Normal),
        cand("己", 10, Origin::UserWord, CandidateKind::Normal),
        cand("今天", 500, Origin::Literal, CandidateKind::Inline),
    ];
    sort_candidates(&mut v);
    let texts: Vec<&str> = v.iter().map(|c| c.text.as_str()).collect();
    assert_eq!(texts, ["今天", "己", "词", "你好世界", "nihao"]);
}
