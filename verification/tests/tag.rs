use stele_engine::tag::TagTable;

#[test]
fn the_same_name_yields_the_same_static_str() {
    let mut t = TagTable::new();
    let a = t.intern("radical_lookup");
    let b = t.intern("radical_lookup");
    assert!(std::ptr::eq(a, b));
    assert_eq!(a, "radical_lookup");
}

#[test]
fn interning_is_idempotent_and_bounded() {
    let mut t = TagTable::new();
    for _ in 0..1000 {
        t.intern("abc");
        t.intern("punct");
    }
    assert_eq!(t.len(), 2);
    assert_eq!(t.all().len(), 2);
}

#[test]
fn get_does_not_register() {
    let mut t = TagTable::new();
    assert!(t.get("abc").is_none());
    assert!(t.is_empty());
    let _ = t.intern("abc");
    assert_eq!(t.get("abc"), Some("abc"));
}
