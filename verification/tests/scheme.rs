use stele_engine::candidate::{Origin, Span};
use stele_engine::code::{CodeUnitId, Score};
use stele_engine::keyspec::Key;
use stele_engine::options::Switch;
use stele_engine::pipeline::CANDIDATE_CAP;
use stele_engine::component::Segmentor;
use stele_engine::scheme::assembly::{build_segmentors, rule_to_spec};
use stele_engine::scheme::{
    entry, DictSource, SchemaError, SchemaInfo, SchemeDef, TranslatorKind, SCHEME_FORMAT_VERSION,
};
use stele_engine::spec::{AffixSpec, At, RecogPattern};
use stele_engine::spelling::Rule;
use stele_engine::state::{ProcessResult, SessionState};

fn weight(w: f64) -> Score {
    Score::from_milli_log((w.ln() * 1000.0).round() as i32)
}

fn def(translator: TranslatorKind) -> SchemeDef {
    SchemeDef {
        info: SchemaInfo {
            schema_id: "t".into(),
            name: "测试".into(),
            version: "0".into(),
            format_version: SCHEME_FORMAT_VERSION,
            family: None,
        },
        switches: vec![Switch::new("ascii_mode", false)],
        tag: "abc",
        alphabet: vec!["a".into(), "b".into()],
        rules: vec![],
        dictionary: DictSource::Inline(vec![entry(&["a", "b"], "十", weight(10.0))]),
        translator,
        candidate_cap: CANDIDATE_CAP,
        ..Default::default()
    }
}

#[test]
fn compiles_both_translator_families_from_the_same_data() {
    for kind in [TranslatorKind::ExactCode, TranslatorKind::SpellingGraph] {
        let scheme = def(kind).compile().unwrap();
        assert_eq!(scheme.kind(), kind);
        assert_eq!(scheme.alphabet().len(), 2);
    }
}

#[test]
fn exact_code_scheme_needs_no_spelling_table() {
    let scheme = def(TranslatorKind::ExactCode).compile().unwrap();
    assert!(!scheme.has_spelling_table());
    let mut p = scheme.build_pipeline();
    let mut state = SessionState::default();

    assert_eq!(
        p.process_key(&mut state, &Key::ch('a')),
        ProcessResult::Accepted
    );
    p.process_key(&mut state, &Key::ch('b'));

    let mut out = vec![];
    p.compose(&mut state, &mut out);
    assert_eq!(out[0].text, "十");
    assert_eq!(out[0].origin, Origin::SystemWord);
    assert_eq!(out[0].span, Span::new(0, 2));
}

#[test]
fn inconsistent_scheme_data_fails_loudly_at_load() {
    let mut d = def(TranslatorKind::ExactCode);
    if let DictSource::Inline(v) = &mut d.dictionary {
        v.push(entry(&["a", "z"], "坏词", weight(1.0)));
    }
    let Err(err) = d.compile() else {
        panic!("坏方案不该编译成功");
    };
    match err {
        SchemaError::Invalid { diagnostics, .. } => {
            assert_eq!(diagnostics.len(), 1);
            assert!(diagnostics[0].message.contains('z'));
        }
        other => panic!("应当是 Invalid，得到 {other:?}"),
    }
}

#[test]
fn empty_alphabet_is_rejected() {
    let mut d = def(TranslatorKind::ExactCode);
    d.alphabet.clear();
    d.dictionary = DictSource::Inline(vec![]);
    assert!(d.compile().is_err());
}

#[test]
fn switches_come_from_scheme_data_not_the_engine() {
    let scheme = def(TranslatorKind::ExactCode).compile().unwrap();
    assert!(!scheme.options().get("ascii_mode"));
    assert!(scheme.options().missing(&["ascii_mode"]).is_empty());
    assert_eq!(
        scheme.options().missing(&["emoji"]),
        vec!["emoji".to_owned()]
    );
}

#[test]
fn every_contradiction_in_the_data_is_reported() {
    let mut d = def(TranslatorKind::ExactCode);
    if let DictSource::Inline(v) = &mut d.dictionary {
        v.push(entry(&["x"], "坏", weight(1.0)));
        v.push(entry(&["a", "y"], "坏", weight(1.0)));
    }
    let Err(SchemaError::Invalid {
        schema_id,
        diagnostics,
    }) = d.compile()
    else {
        panic!("the data contradict each other");
    };
    assert_eq!(schema_id, "t");
    assert_eq!(diagnostics.len(), 2);
}

#[test]
fn a_compiled_scheme_hands_out_what_it_was_given() {
    let scheme = def(TranslatorKind::SpellingGraph).compile().unwrap();
    assert_eq!(scheme.info().schema_id, "t");
    assert_eq!(scheme.info().name, "测试");
    assert_eq!(scheme.tag(), "abc");
    assert!(scheme.has_spelling_table());
    let mut hits = Vec::new();
    scheme
        .lexicon()
        .lookup(&vec![CodeUnitId(0), CodeUnitId(1)], &mut hits, 16);
    assert_eq!(hits.len(), 1);
}

#[test]
fn a_rule_is_written_as_it_is_read() {
    for text in ["xform/^zh/z/", "xform/ /+/", "xlit/ab/cd/"] {
        assert_eq!(rule_to_spec(&Rule::parse(text).unwrap()), text);
    }
}

#[test]
fn all_that_is_wrong_is_reported_at_once() {
    let mut d = def(TranslatorKind::ExactCode);
    d.alphabet = vec!["a".into()];
    d.dictionary = DictSource::Inline(vec![entry(&["a", "z"], "坏词", weight(1.0))]);
    d.engine.translators = vec!["telepathy".into()];
    let Err(SchemaError::Invalid { diagnostics, .. }) = d.compile() else {
        panic!("a broken scheme was compiled");
    };
    assert_eq!(diagnostics.len(), 2, "{diagnostics:?}");
    assert!(diagnostics[0].message.contains('z'));
    assert!(diagnostics[1].message.contains("telepathy"));
}

#[test]
fn a_default_scheme_says_nothing() {
    let d = SchemeDef::default();
    assert_eq!(d.info.schema_id, "");
    assert_eq!(d.info.family, None);
    assert_eq!(d.engine.tag, None);
    assert_eq!(d.recognizer.import_preset, None);
    assert_eq!(d.punctuator.symbol_prefix, None);
    assert!(d.punctuator.full_shape.is_empty());
    assert!(d.navigator.page_up.is_empty());
    assert!(d.custom.rows.is_empty());
}

#[test]
fn an_affix_segmentor_keeps_its_tips() {
    let mut d = def(TranslatorKind::ExactCode);
    d.affixes = vec![(
        "look".to_owned(),
        AffixSpec {
            tag: Some("look"),
            prefix: Some("uu".to_owned()),
            tips: Some("〔拆字〕".to_owned()),
            ..AffixSpec::default()
        },
    )];
    d.engine.segmentors = vec!["affix_segmentor@look".to_owned()];
    let built = build_segmentors(&d);
    assert_eq!(built.segmentors.len(), 1);
    let Segmentor::Affix(a) = &built.segmentors[0] else {
        panic!("an affix segmentor was asked for");
    };
    assert_eq!(a.tips(), Some("〔拆字〕"));
}

#[test]
fn rules_with_patterns_keep_them_as_written() {
    for (text, source) in [
        ("xform/^n$/m/", "^n$"),
        ("derive/^([zcs])h/$1/", "^([zcs])h"),
        ("fuzz|a/b|c|", "a/b"),
        ("abbrev/^([a-z]).+$/$1/", "^([a-z]).+$"),
        ("erase/^xx$/", "^xx$"),
    ] {
        let pattern = match Rule::parse(text).unwrap() {
            Rule::Xform { pattern, .. }
            | Rule::Derive { pattern, .. }
            | Rule::Erase { pattern } => pattern,
            other => panic!("{text}: {other:?}"),
        };
        assert_eq!(pattern.source, source);
    }
}

#[test]
fn every_pattern_that_does_not_compile_is_reported() {
    let pattern = |name: &str, regex: &str, line: usize| RecogPattern {
        name: name.to_owned(),
        leading: String::new(),
        regex: regex.to_owned(),
        trailing: None,
        at: At::new(line),
    };
    let mut d = def(TranslatorKind::ExactCode);
    d.recognizer.patterns = vec![
        pattern("open", "(", 3),
        pattern("good", "^v[a-z]+$", 4),
        pattern("greedy", "a*?", 5),
    ];
    d.engine.translators = vec!["telepathy".into()];
    let Err(SchemaError::Invalid { diagnostics, .. }) = d.compile() else {
        panic!("a broken scheme was compiled");
    };
    assert_eq!(diagnostics.len(), 3, "{diagnostics:?}");
    assert_eq!(diagnostics[0].field.as_deref(), Some("recognizer/patterns/open"));
    assert!(diagnostics[0].message.contains("第 3 行"));
    assert!(diagnostics[1].message.contains("greedy"));
    assert!(diagnostics[2].message.contains("telepathy"));
}

#[test]
fn an_instance_without_configuration_has_a_blank_one() {
    let scheme = def(TranslatorKind::ExactCode).compile().unwrap();
    let spec = scheme.translator_spec("nothing");
    assert_eq!(spec.component, "");
    assert_eq!(spec.alias, None);
    assert_eq!(spec.at.line, 0);
}

#[test]
fn a_copy_for_an_engine_says_the_same() {
    let mut d = def(TranslatorKind::SpellingGraph);
    d.rules = vec![
        Rule::parse("derive/^([zcs])h/$1/").unwrap(),
        Rule::parse("xlit/ab/AB/").unwrap(),
    ];
    d.affixes = vec![(
        "look".to_owned(),
        AffixSpec {
            tag: Some("look"),
            prefix: Some("uu".to_owned()),
            ..AffixSpec::default()
        },
    )];
    let copy = d.for_engine();
    assert_eq!(copy.info, d.info);
    assert_eq!(copy.alphabet, d.alphabet);
    assert_eq!(copy.affixes, d.affixes);
    assert_eq!(rule_to_spec(&copy.rules[1]), "xlit/ab/AB/");
    match (&copy.rules[0], &d.rules[0]) {
        (Rule::Derive { pattern: a, .. }, Rule::Derive { pattern: b, .. }) => {
            assert_eq!(a.source, b.source);
        }
        other => panic!("{other:?}"),
    }
    let scheme = copy.compile().unwrap();
    assert_eq!(scheme.lexicon().len(), 1);
    assert!(d.compile().is_ok(), "the model is still there");
}
