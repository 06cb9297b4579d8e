use stele_engine::candidate::{is_exact, Origin, Span};
use stele_engine::code::Score;
use stele_engine::keyspec::Key;
use stele_engine::options::{Options, Switch};
use stele_engine::punctuator::{literal_pending, PunctTranslator, Punctuator};
use stele_engine::spec::{At, PunctuatorSpec};
use stele_engine::state::{PendingCommit, ProcessResult, SessionState, Trigger};

fn spec() -> PunctuatorSpec {
    PunctuatorSpec {
        half_shape: vec![
            (",".into(), "，".into()),
            (".".into(), "。".into()),
            ("!".into(), "！".into()),
        ],
        full_shape: vec![",".into()]
            .into_iter()
            .map(|k| (k, "，".into()))
            .collect(),
        symbols: vec![
            ("1".into(), "①".into()),
            ("2".into(), "②".into()),
            ("hx".into(), "㊕".into()),
        ],
        symbol_prefix: Some('v'),
        at: At::new(1),
    }
}

fn state_with(option: Option<(&str, bool)>) -> SessionState {
    let mut s = SessionState::default();
    if let Some((n, on)) = option {
        s.options.declare(Switch::new(n, on));
    }
    s
}

#[test]
fn punctuation_enters_the_input_when_nothing_is_composing() {
    let mut p = Punctuator::new(&spec(), None);
    let mut s = state_with(None);
    assert_eq!(p.process(&mut s, &Key::ch(',')), ProcessResult::Accepted);
    assert_eq!(s.composition.input, "，");
}

#[test]
fn punctuation_does_not_steal_a_key_while_composing() {
    let mut p = Punctuator::new(&spec(), None);
    let mut s = state_with(None);
    s.composition.input = "ni".into();
    assert_eq!(p.process(&mut s, &Key::ch('.')), ProcessResult::Noop);
    assert_eq!(s.composition.input, "ni");
}

#[test]
fn full_shape_switch_selects_the_table() {
    let mut p = Punctuator::new(&spec(), Some("full_shape".into()));
    let mut off = state_with(Some(("full_shape", false)));
    p.process(&mut off, &Key::ch(','));
    assert_eq!(off.composition.input, "，", "半角表的映射");

    let mut on = state_with(Some(("full_shape", true)));
    p.process(&mut on, &Key::ch(','));
    assert_eq!(on.composition.input, "，");
}

#[test]
fn symbol_prefix_opens_the_table_and_keeps_appending() {
    let mut p = Punctuator::new(&spec(), None);
    let mut s = state_with(None);
    assert_eq!(p.process(&mut s, &Key::ch('v')), ProcessResult::Accepted);
    assert_eq!(p.process(&mut s, &Key::ch('1')), ProcessResult::Accepted);
    assert_eq!(s.composition.input, "v1");
}

#[test]
fn translator_maps_a_single_symbol() {
    let t = PunctTranslator::new(&spec(), None);
    let opts = Options::new();
    let mut buf = Vec::new();
    t.translate("，", &opts, Span::new(0, 3), &mut buf, 16);
    assert_eq!(buf.len(), 1);
    assert_eq!(buf[0].text, "，");
    assert_eq!(buf[0].origin, Origin::Literal);
    assert!(
        is_exact(buf[0].origin, buf[0].attr),
        "标点是原样上屏，不是猜的"
    );
}

#[test]
fn translator_expands_the_symbol_table() {
    let t = PunctTranslator::new(&spec(), None);
    let opts = Options::new();
    let mut buf = Vec::new();
    t.translate("v1", &opts, Span::new(0, 2), &mut buf, 16);
    assert_eq!(buf[0].text, "①", "精确命中排第一");
}

#[test]
fn punctuation_keeps_being_appended_to_punctuation() {
    let mut p = Punctuator::new(&spec(), None);
    let mut s = state_with(None);
    p.process(&mut s, &Key::ch(','));
    assert_eq!(p.process(&mut s, &Key::ch('!')), ProcessResult::Accepted);
    assert_eq!(s.composition.input, "，！");
}

#[test]
fn symbols_with_a_common_beginning_come_in_the_order_of_their_names() {
    let mut sp = spec();
    sp.symbols.push(("10".into(), "⑩".into()));
    let t = PunctTranslator::new(&sp, None);
    let mut buf = Vec::new();
    t.translate("v1", &Options::new(), Span::new(0, 2), &mut buf, 16);
    let texts: Vec<&str> = buf.iter().map(|c| c.text.as_str()).collect();
    assert_eq!(texts, ["①", "⑩"]);
    assert_eq!(buf[0].score, Score::from_milli_log(6_000));
    assert_eq!(buf[1].score, Score::from_milli_log(5_990));
    let mut none = Vec::new();
    t.translate("v", &Options::new(), Span::new(0, 1), &mut none, 16);
    assert!(none.is_empty());
}

#[test]
fn a_mark_the_tables_have_outranks_one_they_have_not() {
    let t = PunctTranslator::new(&spec(), None);
    let mut buf = Vec::new();
    t.translate(".", &Options::new(), Span::new(0, 1), &mut buf, 16);
    t.translate("?", &Options::new(), Span::new(0, 1), &mut buf, 16);
    assert_eq!(buf[0].text, "。");
    assert_eq!(buf[0].score, Score::from_milli_log(7_000));
    assert_eq!(buf[1].text, "?");
    assert_eq!(buf[1].score, Score::from_milli_log(6_900));
}

#[test]
fn a_piece_of_punctuation_is_wished_for_as_it_is() {
    assert_eq!(
        literal_pending("。"),
        PendingCommit::literal("。", Trigger::Punctuation)
    );
}
