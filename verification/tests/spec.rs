use stele_engine::keyspec::{Key, KeyChord, KeyCode, Modifiers, NamedKey};
use stele_engine::spec::{
    split_alias, EditorAction, TranslatorKindSpec, TranslatorSpec, WhenPredicate,
};

#[test]
fn editor_action_names_are_a_closed_set() {
    assert_eq!(
        EditorAction::parse("commit_raw_input"),
        Some(EditorAction::CommitRawInput)
    );
    assert_eq!(
        EditorAction::parse("back_syllable"),
        Some(EditorAction::BackUnit)
    );
    assert_eq!(EditorAction::parse("commit_everything"), None);
    for n in EditorAction::all_names() {
        assert!(
            EditorAction::parse(n).is_some(),
            "列在 all_names 里的 {n} 必须能被解析"
        );
    }
}

#[test]
fn key_chord_only_compares_declared_modifiers() {
    let chord = KeyChord::new(KeyCode::Named(NamedKey::Backspace), Modifiers::ctrl());
    let ctrl_bs = Key::press(KeyCode::Named(NamedKey::Backspace), Modifiers::ctrl());
    let plain_bs = Key::press(KeyCode::Named(NamedKey::Backspace), Modifiers::none());
    assert!(chord.matches(&ctrl_bs));
    assert!(!chord.matches(&plain_bs), "没按 Ctrl 不该命中");

    let ret = KeyChord::new(KeyCode::Named(NamedKey::Enter), Modifiers::none());
    let shift_ret = Key::press(
        KeyCode::Named(NamedKey::Enter),
        Modifiers::shift(),
    );
    assert!(ret.matches(&shift_ret));
}

#[test]
fn when_predicate_is_a_closed_set() {
    assert_eq!(WhenPredicate::parse("paging"), Some(WhenPredicate::Paging));
    assert_eq!(WhenPredicate::parse("whenever"), None);
    for n in WhenPredicate::all_names() {
        assert!(WhenPredicate::parse(n).is_some());
    }
}

#[test]
fn alias_splitting_has_exactly_one_definition() {
    assert_eq!(split_alias("table_translator@melt_eng"), ("table_translator", Some("melt_eng")));
    assert_eq!(split_alias("speller"), ("speller", None));
    assert_eq!(split_alias("speller@"), ("speller@", None));
}

#[test]
fn completion_defaults_to_off() {
    let s = TranslatorSpec::default();
    assert!(!s.completion());
    let on = TranslatorSpec {
        enable_word_completion: Some(true),
        ..Default::default()
    };
    assert!(on.completion());
}

#[test]
fn translator_kind_parses_the_two_rime_component_names() {
    assert_eq!(
        TranslatorKindSpec::parse("script_translator"),
        Some(TranslatorKindSpec::SpellingGraph)
    );
    assert_eq!(
        TranslatorKindSpec::parse("table_translator"),
        Some(TranslatorKindSpec::ExactCode)
    );
    assert_eq!(TranslatorKindSpec::parse("telepathy_translator"), None);
    for k in [
        TranslatorKindSpec::SpellingGraph,
        TranslatorKindSpec::ExactCode,
    ] {
        assert_eq!(TranslatorKindSpec::parse(k.component_name()), Some(k));
    }
}
