use stele_engine::keyspec::{parse_key_name, Key, KeyChord, KeyCode, Modifiers, NamedKey};

#[test]
fn key_names_round_trip_through_the_parser() {
    assert_eq!(
        parse_key_name("Control+BackSpace"),
        Some(KeyChord::new(
            KeyCode::Named(NamedKey::Backspace),
            Modifiers::ctrl()
        ))
    );
    assert_eq!(
        parse_key_name("shift+tab"),
        Some(KeyChord::new(KeyCode::Named(NamedKey::Tab), Modifiers::shift()))
    );
    assert_eq!(
        parse_key_name(","),
        Some(KeyChord::new(KeyCode::Char(','), Modifiers::none()))
    );
    assert_eq!(parse_key_name("nonsense_key"), None);
}

#[test]
fn names_render_back_the_way_rime_writes_them() {
    let chord = parse_key_name("Control+Shift+Return").unwrap();
    assert_eq!(chord.to_name(), "Control+Shift+Return");
    assert_eq!(parse_key_name("Page_Up").unwrap().to_name(), "Page_Up");
}

#[test]
fn only_declared_modifiers_are_compared() {
    let chord = KeyChord::new(KeyCode::Named(NamedKey::Enter), Modifiers::none());
    let shift_enter = Key::press(KeyCode::Named(NamedKey::Enter), Modifiers::shift());
    assert!(chord.matches(&shift_enter), "声明里没写 Shift 就不该要求它");
    assert!(!chord.matches(&Key::ch('a')));
}

#[test]
fn every_key_name_reads_back() {
    for name in ["space", "Return", "BackSpace", "Escape", "Page_Down", "Control+a", "Shift+Tab"] {
        let chord = parse_key_name(name).unwrap();
        assert_eq!(parse_key_name(&chord.to_name()), Some(chord), "{name}");
    }
}
