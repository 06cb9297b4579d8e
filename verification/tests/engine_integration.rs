use stele_engine::builtin::{all, pinyin_scheme, shape_scheme};
use stele_engine::candidate::{Lane, Origin};
use stele_engine::code::{Score, SpellingAttr};
use stele_engine::engine::{Commit, EngineImpl, Event, Outcome, SessionImpl};
use stele_engine::keyspec::{Key, KeyCode, Modifiers, NamedKey};
use stele_engine::pipeline::prediction::Prediction;
use stele_engine::scheme::SchemaError;
use stele_engine::state::{SelectionSource, Trigger};

fn engine() -> EngineImpl {
    EngineImpl::new(vec![pinyin_scheme(), shape_scheme()]).expect("内置方案应当能编译")
}

fn type_text(s: &mut SessionImpl, text: &str) {
    for c in text.chars() {
        s.process_key(Key::ch(c));
    }
}

fn press(s: &mut SessionImpl, k: NamedKey) -> Outcome {
    s.process_key(Key::press(KeyCode::Named(k), Modifiers::none()))
}

fn commit_now(s: &mut SessionImpl) -> Option<Commit> {
    match press(s, NamedKey::Space) {
        Outcome::Committed(c) => Some(c),
        _ => None,
    }
}

#[test]
fn pinyin_types_the_canonical_spelling() {
    let e = engine();
    let mut s = e.create_session();
    type_text(&mut s, "nihao");

    assert_eq!(s.candidates()[0].text, "你好");
    assert_eq!(s.candidates()[0].origin, Origin::SystemWord);
    assert_eq!(s.candidates()[0].attr, SpellingAttr::normal());

    let c = commit_now(&mut s).expect("空格应当上屏");
    assert_eq!(c.text, "你好");
    assert_eq!(c.input, "nihao");
    assert_eq!(c.lane, Lane::Input);
    assert_eq!(c.trigger, Trigger::Space);
    assert!(s.composition().input.is_empty(), "上屏后输入应当清空");
}

#[test]
fn pinyin_types_by_abbreviation() {
    let e = engine();
    let mut s = e.create_session();
    type_text(&mut s, "nh");

    assert_eq!(s.candidates()[0].text, "你好");
    assert!(
        s.candidates()[0].attr.contains(SpellingAttr::abbrev()),
        "变体拼写的命中必须被标记 —— 它既驱动 UI 的「猜测」标记，\
         也决定学习时要不要规范化编码（G9 / G10 / G12）"
    );
    assert_eq!(commit_now(&mut s).map(|c| c.text), Some("你好".to_owned()));
}

#[test]
fn canonical_spelling_outranks_abbreviation_for_the_same_word() {
    let e = engine();

    let mut s1 = e.create_session();
    type_text(&mut s1, "nihao");
    let canonical = s1.candidates()[0].score;

    let mut s2 = e.create_session();
    type_text(&mut s2, "nh");
    let abbrev = s2.candidates()[0].score;

    assert!(
        abbrev < canonical,
        "同一个词经变体拼写命中时分数必须更低（{abbrev:?} vs {canonical:?}）——\
         这就是「精确匹配天然排在前面」的全部机制"
    );
}

#[test]
fn every_candidate_is_priceable_and_something_is_always_committable() {
    let e = engine();
    let mut s = e.create_session();
    type_text(&mut s, "zzzz");

    assert!(!s.candidates().is_empty(), "候选永远不该是空的");
    // The letters abbreviate syllables, so words for the first of them come
    // before the input as it stands.
    let last = s.candidates().len() - 1;
    match s.select(last, SelectionSource::Keyboard) {
        Outcome::Committed(c) => {
            assert_eq!(c.text, "zzzz");
            assert_eq!(c.origin, Origin::Literal);
        }
        other => panic!("兜底候选应当能上屏: {other:?}"),
    }
}

#[test]
fn without_any_word_the_space_key_commits_what_was_typed() {
    let e = engine();
    let mut s = e.create_session();
    type_text(&mut s, "xxxx");
    let c = commit_now(&mut s).expect("兜底候选应当能上屏");
    assert_eq!(c.text, "xxxx", "查不到词时，敲什么就上屏什么");
    assert_eq!(c.origin, Origin::Literal);
}

#[test]
fn shape_scheme_runs_on_the_same_engine() {
    let e = engine();
    let mut s = e.create_session();
    s.switch_schema("shape-demo").unwrap();

    type_text(&mut s, "ab");
    assert_eq!(s.candidates()[0].text, "十");
    assert_eq!(s.candidates()[0].attr, SpellingAttr::normal());
    assert_eq!(commit_now(&mut s).map(|c| c.text), Some("十".to_owned()));
}

#[test]
fn shape_scheme_has_no_spelling_variants() {
    let e = engine();
    let mut s = e.create_session();
    s.switch_schema("shape-demo").unwrap();

    for keys in ["a", "ab", "abc"] {
        s.reset();
        type_text(&mut s, keys);
        for c in s.candidates() {
            assert_eq!(
                c.attr,
                SpellingAttr::normal(),
                "{keys} 的候选 {:?} 不该带变体属性",
                c.text
            );
        }
    }
}

#[test]
fn switching_schema_keeps_the_session_usable() {
    let e = engine();
    let mut s = e.create_session();
    type_text(&mut s, "ni");

    assert!(s.switch_schema("no-such-scheme").is_err());
    type_text(&mut s, "hao");
    assert_eq!(s.candidates()[0].text, "你好");
    assert_eq!(s.schema_id(), "pinyin-demo");

    assert!(s.switch_schema("shape-demo").is_ok());
    assert!(s.composition().input.is_empty(), "切换后应当清空输入");
    assert_eq!(s.schema_id(), "shape-demo");
}

#[test]
fn control_keys_are_returned_to_the_os() {
    let e = engine();
    let mut s = e.create_session();
    type_text(&mut s, "ni");
    let ctrl_a = Key::press(KeyCode::Char('a'), Modifiers::ctrl());
    assert!(matches!(s.process_key(ctrl_a), Outcome::Rejected));
    assert_eq!(s.composition().input, "ni", "Ctrl+A 不应改变输入");
}

#[test]
fn digit_keys_select_by_index() {
    let e = engine();
    let mut s = e.create_session();
    type_text(&mut s, "ni");
    assert!(s.candidates().len() >= 2, "「ni」应当有多个候选");
    let second = s.candidates()[1].text.clone();
    match s.process_key(Key::press(
        KeyCode::Named(NamedKey::Digit(2)),
        Modifiers::none(),
    )) {
        Outcome::Committed(c) => assert_eq!(c.text, second),
        other => panic!("应当上屏，得到 {other:?}"),
    }
}

#[test]
fn context_accumulates_and_learning_events_carry_the_attr() {
    let e = engine();
    let mut s = e.create_session();

    for word in ["nihao", "zhongguo"] {
        type_text(&mut s, word);
        commit_now(&mut s);
    }

    let mut events = Vec::new();
    s.drain_events(&mut events);
    let learned: Vec<&str> = events
        .iter()
        .filter_map(|e| match e {
            Event::Learned { text, .. } => Some(text.as_str()),
            _ => None,
        })
        .collect();
    assert_eq!(learned, ["你好", "中国"]);

    match &events[0] {
        Event::Learned { attr, .. } => assert_eq!(*attr, SpellingAttr::normal()),
        other => panic!("应当是 Learned，得到 {other:?}"),
    }

    s.reset();
    type_text(&mut s, "nh");
    commit_now(&mut s);
    let mut ev = Vec::new();
    s.drain_events(&mut ev);
    match ev.last() {
        Some(Event::Learned { attr, .. }) => {
            assert!(attr.is_derived(), "简拼命中的学习事件必须标记为派生");
        }
        other => panic!("应当有 Learned 事件，得到 {other:?}"),
    }
}

#[test]
fn options_come_from_scheme_data() {
    let e = engine();
    let mut s = e.create_session();
    assert!(!s.option("ascii_mode"));
    assert!(s.set_option("ascii_mode", true));
    assert!(s.option("ascii_mode"));
    assert!(!s.set_option("no_such_switch", true));
    assert!(!s.option("no_such_switch"));
}

#[test]
fn ordering_is_reproducible_across_sessions() {
    let e = engine();
    let mut reference: Option<Vec<(String, i32)>> = None;
    for _ in 0..50 {
        let mut s = e.create_session();
        type_text(&mut s, "nihao");
        let got: Vec<(String, i32)> = s
            .candidates()
            .iter()
            .map(|c| (c.text.clone(), c.score.as_milli_log()))
            .collect();
        match &reference {
            None => reference = Some(got),
            Some(r) => assert_eq!(r, &got, "候选序列不可复现"),
        }
    }
}

#[test]
fn scheme_catalog_lists_what_it_ships() {
    let e = engine();
    let ids: Vec<&str> = e
        .list()
        .iter()
        .map(|i| i.schema_id.as_str())
        .collect();
    assert_eq!(ids, ["pinyin-demo", "shape-demo"]);
    assert!(e.acquire("pinyin-demo").is_ok());
    assert!(e.acquire("nope").is_err());
    assert_eq!(all().len(), 2);
}

#[test]
fn backspace_and_escape_edit_the_composition() {
    let e = engine();
    let mut s = e.create_session();
    type_text(&mut s, "nihao");
    press(&mut s, NamedKey::Backspace);
    assert_eq!(s.composition().input, "ni", "one unit, not one letter");
    press(&mut s, NamedKey::Escape);
    assert!(s.composition().input.is_empty());
}

fn foreseen(text: &str) -> Option<Vec<Prediction>> {
    Some(vec![Prediction {
        text: text.to_owned(),
        score: Score::from_milli_log(5_000),
    }])
}

#[test]
fn a_committed_prediction_is_learned_like_any_word() {
    let e = engine();
    let mut s = e.create_session();
    type_text(&mut s, "nihao");
    commit_now(&mut s);
    s.drain_events(&mut Vec::new());
    s.set_predictions(foreseen("世界"));
    assert!(matches!(
        s.select(0, SelectionSource::Pointer),
        Outcome::Committed(_)
    ));
    let mut events = Vec::new();
    s.drain_events(&mut events);
    assert_eq!(
        events,
        [Event::Learned {
            input: String::new(),
            text: "世界".to_owned(),
            origin: Origin::Prediction,
            attr: SpellingAttr::normal(),
            lane: Lane::Predict,
        }]
    );
    let mut again = Vec::new();
    s.drain_events(&mut again);
    assert!(again.is_empty());
}

#[test]
fn the_same_digit_commits_the_same_word_with_predictions_and_without() {
    let e = engine();
    let digit = Key::press(KeyCode::Named(NamedKey::Digit(2)), Modifiers::none());
    let mut plain = e.create_session();
    let mut other = e.create_session();
    for s in [&mut plain, &mut other] {
        type_text(s, "nihao");
        commit_now(s);
        type_text(s, "ni");
    }
    other.set_predictions(foreseen("世界"));
    assert_ne!(plain.candidates().len(), other.candidates().len());
    match (plain.process_key(digit), other.process_key(digit)) {
        (Outcome::Committed(a), Outcome::Committed(b)) => assert_eq!(a.text, b.text),
        x => panic!("{x:?}"),
    }
}

#[test]
fn without_predictions_there_are_none() {
    let e = engine();
    let mut s = e.create_session();
    type_text(&mut s, "nihao");
    commit_now(&mut s);
    assert!(s.candidates().is_empty());
    s.set_predictions(None);
    assert!(s.candidates().is_empty());
}

#[test]
fn a_turned_switch_is_told() {
    let e = engine();
    let mut s = e.create_session();
    assert!(s.set_option("ascii_mode", true));
    let mut events = Vec::new();
    s.drain_events(&mut events);
    assert_eq!(
        events,
        [Event::OptionChanged {
            name: "ascii_mode".to_owned(),
            on: true
        }]
    );
}

#[test]
fn an_engine_with_bad_data_is_not_made() {
    let mut bad = pinyin_scheme();
    bad.alphabet.clear();
    let Err(SchemaError::Invalid { schema_id, .. }) = EngineImpl::new(vec![shape_scheme(), bad])
    else {
        panic!("a scheme without an alphabet was taken");
    };
    assert_eq!(schema_id, "pinyin-demo");
    let missing = engine().acquire("nope").unwrap_err();
    assert_eq!(
        missing,
        SchemaError::NotFound {
            schema_id: "nope".to_owned()
        }
    );
}

#[test]
fn switches_that_keys_turn_are_noted_in_the_state() {
    let mut d = pinyin_scheme();
    d.engine.processors = vec!["ascii_composer".to_owned(), "speller".to_owned()];
    let e = EngineImpl::new(vec![d]).expect("内置方案应当能编译");
    let mut s = e.create_session();
    let shift = Modifiers {
        shift: true,
        ..Modifiers::none()
    };
    s.process_key(Key::press(KeyCode::Named(NamedKey::Shift), shift));
    assert!(s.option("ascii_mode"));
    assert_eq!(s.state.option_events, [("ascii_mode".to_owned(), true)]);
    let mut events = Vec::new();
    s.drain_events(&mut events);
    assert!(events.is_empty());
}
