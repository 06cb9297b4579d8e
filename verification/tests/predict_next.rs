use stele_engine::candidate::Lane;
use stele_engine::code::Score;
use stele_engine::engine::{EngineImpl, Event, Outcome, SessionImpl};
use stele_engine::keyspec::Key;
use stele_engine::pipeline::prediction::Prediction;
use stele_engine::pipeline::CANDIDATE_CAP;
use stele_engine::scheme::{entry, DictSource, SchemaInfo, SchemeDef, TranslatorKind};
use stele_engine::state::SelectionSource;

/// Pairs of words that followed each other, with how often they did.
#[derive(Default)]
struct Pairs {
    last: Option<String>,
    seen: Vec<(String, String, i32)>,
}

impl Pairs {
    fn begin(&mut self) {
        self.last = None;
    }

    fn learn(&mut self, text: &str) {
        if let Some(before) = self.last.take() {
            match self
                .seen
                .iter_mut()
                .find(|(a, b, _)| *a == before && b == text)
            {
                Some(row) => row.2 += 1,
                None => self.seen.push((before, text.to_owned(), 1)),
            }
        }
        self.last = Some(text.to_owned());
    }

    fn expect(&self) -> Vec<Prediction> {
        self.seen
            .iter()
            .filter(|(a, _, _)| Some(a) == self.last.as_ref())
            .map(|(_, b, n)| Prediction {
                text: b.clone(),
                score: Score::from_milli_log(1_000 * n),
            })
            .collect()
    }
}

fn engine() -> EngineImpl {
    let weight = Score::from_milli_log(4_605);
    let mini = SchemeDef {
        info: SchemaInfo {
            schema_id: "predict".into(),
            ..Default::default()
        },
        tag: "abc",
        alphabet: vec!["bing".into(), "jia".into(), "yi".into()],
        dictionary: DictSource::Inline(vec![
            entry(&["jia"], "甲", weight),
            entry(&["yi"], "乙", weight),
            entry(&["bing"], "丙", weight),
        ]),
        translator: TranslatorKind::SpellingGraph,
        candidate_cap: CANDIDATE_CAP,
        preedit_delimiter: Some('\''),
        ..Default::default()
    };
    EngineImpl::new(vec![mini]).unwrap()
}

fn drain(session: &mut SessionImpl, memory: &mut Pairs, predict: bool) {
    let mut events = Vec::new();
    session.drain_events(&mut events);
    for e in &events {
        if let Event::Learned { text, .. } = e {
            memory.learn(text);
        }
    }
    if predict {
        session.set_predictions(Some(memory.expect()));
    }
}

fn commit_code(session: &mut SessionImpl, memory: &mut Pairs, code: &str, predict: bool) {
    for c in code.chars() {
        session.process_key(Key::ch(c));
    }
    let outcome = session.select(0, SelectionSource::Keyboard);
    assert!(matches!(outcome, Outcome::Committed(_)), "{outcome:?}");
    drain(session, memory, predict);
}

fn predicted(session: &SessionImpl, text: &str) -> Option<usize> {
    session
        .candidates()
        .iter()
        .position(|c| c.lane == Lane::Predict && c.text == text)
}

#[test]
fn a_prediction_can_only_be_committed_with_an_explicit_pointer() {
    let engine = engine();
    let mut memory = Pairs::default();
    let mut s = engine.create_session();
    for _ in 0..2 {
        commit_code(&mut s, &mut memory, "jia", true);
        commit_code(&mut s, &mut memory, "yi", true);
    }
    let mut s = engine.create_session();
    memory.begin();
    commit_code(&mut s, &mut memory, "jia", true);
    let idx = predicted(&s, "乙").expect("甲 之后应当预测出乙");
    let out = s.select(idx, SelectionSource::Keyboard);
    assert!(matches!(out, Outcome::Consumed), "{out:?}");
    assert!(s.candidates().iter().any(|c| c.text == "乙"));
    match s.select(idx, SelectionSource::Pointer) {
        Outcome::Committed(c) => {
            assert_eq!(c.text, "乙");
            assert_eq!(c.lane, Lane::Predict);
            assert_eq!(c.context, ["甲"]);
        }
        other => panic!("{other:?}"),
    }
}

#[test]
fn committing_a_prediction_teaches_the_pair_after_it() {
    let engine = engine();
    let mut memory = Pairs::default();
    let mut s = engine.create_session();
    for _ in 0..3 {
        commit_code(&mut s, &mut memory, "jia", true);
        commit_code(&mut s, &mut memory, "yi", true);
        commit_code(&mut s, &mut memory, "bing", true);
    }
    let mut s = engine.create_session();
    memory.begin();
    commit_code(&mut s, &mut memory, "jia", true);
    let yi = predicted(&s, "乙").expect("甲 之后应当预测出乙");
    let out = s.select(yi, SelectionSource::Pointer);
    assert!(matches!(out, Outcome::Committed(_)), "{out:?}");
    drain(&mut s, &mut memory, true);
    let preds: Vec<&str> = s
        .candidates()
        .iter()
        .filter(|c| c.lane == Lane::Predict)
        .map(|c| c.text.as_str())
        .collect();
    assert_eq!(preds.first().copied(), Some("丙"), "{preds:?}");
}

#[test]
fn predictions_are_absent_when_no_prediction_service_is_installed() {
    let engine = engine();
    let mut memory = Pairs::default();
    let mut s = engine.create_session();
    for _ in 0..3 {
        commit_code(&mut s, &mut memory, "jia", true);
        commit_code(&mut s, &mut memory, "yi", true);
    }
    assert!(!memory.seen.is_empty());
    let mut s = engine.create_session();
    memory.begin();
    commit_code(&mut s, &mut memory, "jia", false);
    assert!(s.candidates().iter().all(|c| c.lane == Lane::Input));
}
