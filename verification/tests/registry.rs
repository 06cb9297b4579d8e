use stele_engine::registry::{
    implemented_names, lookup, missing_names, needs_data_names, Availability, CoverageReport,
};

#[test]
fn implemented_components_are_found() {
    for n in ["speller", "selector", "script_translator", "uniquifier"] {
        assert_eq!(lookup(n).0, Availability::Implemented, "{n}");
    }
}

#[test]
fn alias_suffix_is_stripped() {
    assert_eq!(
        lookup("table_translator@melt_eng").0,
        Availability::Implemented
    );
    assert_eq!(lookup("simplifier@emoji").0, Availability::NeedsData);
    assert_eq!(
        lookup("reverse_lookup_filter@radical_reverse_lookup").0,
        Availability::Implemented
    );
}

#[test]
fn needs_data_and_not_yet_are_distinguished() {
    assert_eq!(lookup("simplifier").0, Availability::NeedsData);
    assert_eq!(lookup("chord_composer").0, Availability::NotYet);
    assert_ne!(Availability::NeedsData.note(), Availability::NotYet.note());
}

#[test]
fn unknown_names_are_reported_as_unknown_not_as_missing() {
    assert_eq!(lookup("telepathy").0, Availability::Unknown);
}

#[test]
fn coverage_report_on_no_lua_schema_names() {
    let names: Vec<String> = [
        "ascii_composer",
        "recognizer",
        "key_binder",
        "speller",
        "punctuator",
        "selector",
        "navigator",
        "express_editor",
        "ascii_segmentor",
        "matcher",
        "abc_segmentor",
        "affix_segmentor@radical_lookup",
        "punct_segmentor",
        "fallback_segmentor",
        "punct_translator",
        "script_translator",
        "table_translator@custom_phrase",
        "table_translator@melt_eng",
        "table_translator@cn_en",
        "table_translator@radical_lookup",
        "reverse_lookup_filter@radical_reverse_lookup",
        "simplifier@emoji",
        "simplifier@traditionalize",
        "uniquifier",
    ]
    .iter()
    .map(|s| (*s).to_owned())
    .collect();

    let r = CoverageReport::of(&names);
    assert_eq!(r.required.len(), 24);
    assert!(!r.is_complete());
    assert!(
        r.not_yet.is_empty(),
        "{:?}",
        r.not_yet
    );
    assert!(
        r.unknown.is_empty(),
        "{:?}",
        r.unknown
    );
    assert!(r.implemented.contains(&"speller".to_owned()));
    assert!(r.implemented.contains(&"script_translator".to_owned()));
    assert!(r.implemented.contains(&"uniquifier".to_owned()));
    assert!(r.implemented.contains(&"ascii_composer".to_owned()));
    assert!(r.implemented.contains(&"punctuator".to_owned()));
    assert!(r.implemented.contains(&"key_binder".to_owned()));
    assert!(r.implemented.contains(&"recognizer".to_owned()));
    assert!(r.implemented.contains(&"matcher".to_owned()));
    assert!(
        r.implemented
            .contains(&"affix_segmentor@radical_lookup".to_owned())
    );
    for n in ["simplifier@emoji", "simplifier@traditionalize"] {
        assert!(r.needs_data.contains(&n.to_owned()), "{n} 应当缺数据");
    }
    for n in [
        "table_translator@melt_eng",
        "table_translator@cn_en",
        "table_translator@radical_lookup",
    ] {
        assert!(r.implemented.contains(&n.to_owned()), "{n} 机制已实现");
    }
    assert!(r.summary().contains("24"), "{}", r.summary());
}

#[test]
fn lists_are_sorted_and_deduplicated() {
    for v in [implemented_names(), missing_names(), needs_data_names()] {
        let mut sorted = v.clone();
        sorted.sort_unstable();
        sorted.dedup();
        assert_eq!(v, sorted);
    }
    assert!(implemented_names().len() >= 8);
}
