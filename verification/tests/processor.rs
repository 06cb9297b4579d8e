use stele_engine::candidate::Span;
use stele_engine::keyspec::{key_for_char, Key, KeyChord, KeyCode, Modifiers, NamedKey};
use stele_engine::options::Switch;
use stele_engine::processor::{
    parse_send_sequence, AsciiComposer, Editor, KeyBinder, Navigator, Selector, Speller,
};
use stele_engine::segmentor::Segment;
use stele_engine::spec::{At, EditorAction, KeyBinding, NavigatorSpec, WhenPredicate};
use stele_engine::state::{PendingCommit, ProcessResult, SessionState, Trigger};

fn state() -> SessionState {
    SessionState::default()
}

#[test]
fn speller_appends_printable_characters() {
    let mut s = state();
    let mut p = Speller::default();
    assert_eq!(p.process(&mut s, &Key::ch('n')), ProcessResult::Accepted);
    assert_eq!(s.composition.input, "n");
    assert_eq!(s.composition.caret, 1);
}

#[test]
fn speller_rejects_control_modified_keys() {
    let mut s = state();
    let mut p = Speller::default();
    let key = Key::press(KeyCode::Char('c'), Modifiers::ctrl());
    assert_eq!(p.process(&mut s, &key), ProcessResult::Rejected);
    assert!(s.composition.input.is_empty());
}

#[test]
fn speller_accepts_the_apostrophe_delimiter() {
    let mut s = state();
    let mut p = Speller::default();
    assert_eq!(p.process(&mut s, &Key::ch('\'')), ProcessResult::Accepted);
    assert_eq!(s.composition.input, "'");
}

#[test]
fn speller_refuses_letters_outside_the_declared_alphabet() {
    let mut s = state();
    let mut p = Speller::new(vec![]).with_alphabet(vec!['n', 'i']);
    assert_eq!(p.process(&mut s, &Key::ch('n')), ProcessResult::Accepted);
    assert_eq!(p.process(&mut s, &Key::ch('z')), ProcessResult::Noop);
    assert_eq!(s.composition.input, "n");
}

#[test]
fn speller_can_be_suppressed_by_a_switch() {
    let mut s = state();
    s.options
        .declare(Switch::new("ascii_mode", true));
    let p = Speller::new(vec![])
        .with_alphabet(vec!['n'])
        .blocked_by("ascii_mode");
    assert!(!p.enabled(&s.options), "开关开着时输入处理器应当不工作");

    s.options.set("ascii_mode", false);
    assert!(p.enabled(&s.options));
    let mut p2 = p;
    assert_eq!(p2.process(&mut s, &Key::ch('n')), ProcessResult::Accepted);
    assert_eq!(s.composition.input, "n");
}

#[test]
fn backspace_removes_a_whole_unit_when_segmented() {
    let mut s = state();
    s.composition.input = "nihao".into();
    s.composition.caret = 5;
    for (a, b) in [(0usize, 2usize), (2, 5)] {
        let mut seg = Segment::new(Span::new(a, b));
        seg.tags.push("abc");
        s.composition.segments.push(seg);
    }

    let bs = Key::press(KeyCode::Named(NamedKey::Backspace), Modifiers::none());
    assert_eq!(
        Editor::default().process(&mut s, &bs),
        ProcessResult::Accepted
    );
    assert_eq!(s.composition.input, "ni");
}

#[test]
fn backspace_falls_back_to_one_char_without_segments() {
    let mut s = state();
    s.composition.input = "nihao".into();
    let bs = Key::press(KeyCode::Named(NamedKey::Backspace), Modifiers::none());
    assert_eq!(
        Editor::default().process(&mut s, &bs),
        ProcessResult::Accepted
    );
    assert_eq!(s.composition.input, "niha");
}

#[test]
fn editor_backspaces_and_resets() {
    let mut s = state();
    let mut sp = Speller::default();
    let mut ed = Editor::default();
    for c in "nihao".chars() {
        sp.process(&mut s, &Key::ch(c));
    }
    let bs = Key::press(KeyCode::Named(NamedKey::Backspace), Modifiers::none());
    assert_eq!(ed.process(&mut s, &bs), ProcessResult::Accepted);
    assert_eq!(s.composition.input, "niha");

    let esc = Key::press(KeyCode::Named(NamedKey::Escape), Modifiers::none());
    assert_eq!(ed.process(&mut s, &esc), ProcessResult::Accepted);
    assert!(s.composition.input.is_empty());
}

#[test]
fn editor_gives_backspace_back_when_nothing_to_delete() {
    let mut s = state();
    let mut ed = Editor::default();
    let bs = Key::press(KeyCode::Named(NamedKey::Backspace), Modifiers::none());
    assert_eq!(ed.process(&mut s, &bs), ProcessResult::Noop);
}

#[test]
fn editor_honours_scheme_declared_actions() {
    let mut ed = Editor::new(vec![(
        KeyChord::new(KeyCode::Named(NamedKey::Enter), Modifiers::none()),
        EditorAction::CommitScriptText,
    )]);
    let mut s = state();
    s.composition.input = "nihao".into();
    s.composition.preedit = "ni'hao".into();
    let ret = Key::press(KeyCode::Named(NamedKey::Enter), Modifiers::none());
    assert_eq!(ed.process(&mut s, &ret), ProcessResult::Accepted);
    assert_eq!(
        s.pending_commit,
        Some(PendingCommit::literal("ni'hao", Trigger::Enter))
    );
}

#[test]
fn editor_prefers_the_exact_modifier_binding() {
    let mut ed = Editor::new(vec![
        (
            KeyChord::new(KeyCode::Named(NamedKey::Backspace), Modifiers::none()),
            EditorAction::Revert,
        ),
        (
            KeyChord::new(KeyCode::Named(NamedKey::Backspace), Modifiers::ctrl()),
            EditorAction::BackUnit,
        ),
    ]);
    let mut s = state();
    s.composition.input = "nihao".into();
    for (a, b) in [(0usize, 2usize), (2, 5)] {
        let mut seg = Segment::new(Span::new(a, b));
        seg.tags.push("abc");
        s.composition.segments.push(seg);
    }
    let ctrl = Key::press(KeyCode::Named(NamedKey::Backspace), Modifiers::ctrl());
    assert_eq!(ed.process(&mut s, &ctrl), ProcessResult::Accepted);
    assert_eq!(s.composition.input, "ni");
    let plain = Key::press(KeyCode::Named(NamedKey::Backspace), Modifiers::none());
    assert_eq!(ed.process(&mut s, &plain), ProcessResult::Accepted);
    assert_eq!(s.composition.input, "n");
}

#[test]
fn the_full_rime_action_vocabulary_is_parsed() {
    for name in EditorAction::all_names() {
        assert!(
            EditorAction::parse(name).is_some(),
            "{name} 列在 all_names 里却解析不出来"
        );
    }
    assert_eq!(
        EditorAction::parse("commit_comment"),
        Some(EditorAction::CommitComment)
    );
    assert_eq!(
        EditorAction::parse("noop"),
        Some(EditorAction::Noop)
    );
}

#[test]
fn noop_means_unbind_not_do_nothing() {
    let mut ed = Editor::new(vec![(
        KeyChord::new(KeyCode::Named(NamedKey::Space), Modifiers::none()),
        EditorAction::Noop,
    )]);
    let mut s = state();
    s.composition.input = "ni".into();
    let space = Key::press(KeyCode::Named(NamedKey::Space), Modifiers::none());
    assert_eq!(ed.process(&mut s, &space), ProcessResult::Rejected);
    assert!(s.pending_commit.is_none(), "解绑之后不该再请求上屏");
}

#[test]
fn commit_comment_asks_the_session_for_the_current_comment() {
    let mut ed = Editor::new(vec![(
        KeyChord::new(KeyCode::Named(NamedKey::Enter), Modifiers::ctrl()),
        EditorAction::CommitComment,
    )]);
    let mut s = state();
    s.composition.input = "ni".into();
    let key = Key::press(KeyCode::Named(NamedKey::Enter), Modifiers::ctrl());
    assert_eq!(ed.process(&mut s, &key), ProcessResult::Accepted);
    assert_eq!(s.pending_commit, Some(PendingCommit::commit_comment()));
}

#[test]
fn ascii_composer_toggles_and_then_rejects_printable_keys() {
    let mut s = state();
    s.options
        .declare(Switch::new("ascii_mode", false));
    let mut c = AsciiComposer::new(Some("ascii_mode".into()));

    let shift = Key::press(KeyCode::Named(NamedKey::Shift), Modifiers::shift());
    assert_eq!(c.process(&mut s, &shift), ProcessResult::Accepted);
    assert!(s.options.get("ascii_mode"));
    assert_eq!(s.option_events, vec![("ascii_mode".to_owned(), true)]);

    assert_eq!(c.process(&mut s, &Key::ch('a')), ProcessResult::Rejected);

    assert_eq!(c.process(&mut s, &shift), ProcessResult::Accepted);
    assert!(!s.options.get("ascii_mode"));
    assert_eq!(c.process(&mut s, &Key::ch('a')), ProcessResult::Noop);
}

#[test]
fn send_text_reverse_maps_special_keys() {
    assert_eq!(
        key_for_char(' ').code,
        KeyCode::Named(NamedKey::Space)
    );
    assert_eq!(key_for_char('a').code, KeyCode::Char('a'));
}

#[test]
fn navigator_flips_pages_within_bounds() {
    let spec = NavigatorSpec {
        page_down: vec![KeyChord::new(KeyCode::Named(NamedKey::PageDown), Modifiers::none())],
        page_up: vec![KeyChord::new(KeyCode::Named(NamedKey::PageUp), Modifiers::none())],
        ..Default::default()
    };
    let mut n = Navigator::new(&spec, 5);
    let mut s = state();
    s.composition.input = "ni".into();
    s.candidate_pages = 3;

    let down = Key::press(KeyCode::Named(NamedKey::PageDown), Modifiers::none());
    assert_eq!(n.process(&mut s, &down), ProcessResult::Accepted);
    assert_eq!(n.page(), 1);
    assert_eq!(s.candidate_page, 1);
    assert_eq!(n.process(&mut s, &down), ProcessResult::Accepted);
    assert_eq!(n.page(), 2);
    assert_eq!(n.process(&mut s, &down), ProcessResult::Noop);
    assert_eq!(n.page(), 2);
}

#[test]
fn key_binder_sends_another_key_and_toggles() {
    let bindings = vec![
        KeyBinding {
            when: WhenPredicate::Always,
            accept: vec![KeyChord::new(KeyCode::Named(NamedKey::Space), Modifiers::shift())],
            send_keys: Some(vec!["space".into()]),
            toggle: None,
            set_option: None,
            unset_option: None,
            at: At::new(1),
        },
        KeyBinding {
            when: WhenPredicate::Always,
            accept: vec![KeyChord::new(KeyCode::Char('`'), Modifiers::none())],
            send_keys: None,
            toggle: Some("ascii_mode".into()),
            set_option: None,
            unset_option: None,
            at: At::new(2),
        },
    ];
    let mut kb = KeyBinder::new(bindings);
    let mut s = state();
    s.options
        .declare(Switch::new("ascii_mode", false));

    let shift_space = Key::press(KeyCode::Named(NamedKey::Space), Modifiers::shift());
    assert_eq!(kb.process(&mut s, &shift_space), ProcessResult::Accepted);
    assert_eq!(s.sent_keys.len(), 1);
    assert_eq!(s.sent_keys[0].code, KeyCode::Named(NamedKey::Space));
    assert_eq!(s.sent_keys[0].mods, Modifiers::none());

    assert_eq!(kb.process(&mut s, &Key::ch('`')), ProcessResult::Accepted);
    assert!(s.options.get("ascii_mode"));
}

#[test]
fn the_speller_gives_back_letters_it_does_not_spell_with() {
    let mut s = state();
    let mut p = Speller::default();
    let key = Key::press(KeyCode::Char('n'), Modifiers::alt());
    assert_eq!(p.process(&mut s, &key), ProcessResult::Rejected);
    assert_eq!(p.process(&mut s, &Key::ch('，')), ProcessResult::Noop);
    assert_eq!(s.composition.input, "");
}

#[test]
fn the_selector_counts_past_predictions() {
    let mut s = state();
    s.composition.input = "ni".into();
    s.candidate_pages = 1;
    s.candidate_count = 4;
    s.predict_start = 1;
    s.predict_count = 2;
    let mut sel = Selector;
    let digit = Key::press(KeyCode::Named(NamedKey::Digit(2)), Modifiers::none());
    assert_eq!(sel.process(&mut s, &digit), ProcessResult::Accepted);
    assert_eq!(
        s.pending_commit,
        Some(PendingCommit::keyboard(3, Trigger::Explicit))
    );
}

#[test]
fn a_sent_sequence_reads_names_and_texts() {
    let keys = parse_send_sequence(&["Return".to_owned(), "ab".to_owned()]);
    let codes: Vec<KeyCode> = keys.iter().map(|k| k.code).collect();
    assert_eq!(
        codes,
        [
            KeyCode::Named(NamedKey::Enter),
            KeyCode::Char('a'),
            KeyCode::Char('b')
        ]
    );
}

#[test]
fn the_navigator_starts_again_with_a_new_input() {
    let spec = NavigatorSpec {
        page_down: vec![KeyChord::new(
            KeyCode::Named(NamedKey::PageDown),
            Modifiers::none(),
        )],
        ..Default::default()
    };
    let mut n = Navigator::new(&spec, 5);
    let mut s = state();
    s.composition.input = "ni".into();
    s.candidate_pages = 3;
    let down = Key::press(KeyCode::Named(NamedKey::PageDown), Modifiers::none());
    assert_eq!(n.process(&mut s, &down), ProcessResult::Accepted);
    n.reset();
    assert_eq!(n.page(), 0);
}

#[test]
fn the_other_keys_turn_pages_too() {
    let spec = NavigatorSpec {
        up: vec![KeyChord::new(KeyCode::Char('-'), Modifiers::none())],
        down: vec![KeyChord::new(KeyCode::Char('='), Modifiers::none())],
        ..NavigatorSpec::default()
    };
    let mut n = Navigator::new(&spec, 5);
    let mut s = SessionState::default();
    s.composition.input = "ni".to_owned();
    s.candidate_pages = 2;
    assert_eq!(n.process(&mut s, &Key::ch('=')), ProcessResult::Accepted);
    assert_eq!(s.candidate_page, 1);
    assert_eq!(n.process(&mut s, &Key::ch('-')), ProcessResult::Accepted);
    assert_eq!(s.candidate_page, 0);
}

#[test]
fn delete_takes_the_character_behind_the_caret() {
    let mut e = Editor::default();
    let mut s = state();
    let delete = Key::press(KeyCode::Named(NamedKey::Delete), Modifiers::none());
    s.composition.input = "n你好".to_owned();
    s.composition.caret = 1;
    assert_eq!(e.process(&mut s, &delete), ProcessResult::Accepted);
    assert_eq!(s.composition.input, "n好");
    assert_eq!(s.composition.caret, 1);
    assert_eq!(e.process(&mut s, &delete), ProcessResult::Accepted);
    assert_eq!(s.composition.input, "n");
    assert_eq!(e.process(&mut s, &delete), ProcessResult::Noop);
    assert_eq!(s.composition.input, "n");
}
