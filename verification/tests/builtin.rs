use stele_engine::builtin::{
    all, pinyin_scheme, shape_scheme, uses_both_translator_families, ABBREV_COST_MILLI,
    PINYIN_SCHEMA_ID, SHAPE_SCHEMA_ID,
};
use stele_engine::scheme::{DictSource, TranslatorKind};

#[test]
fn both_families_are_present() {
    assert!(uses_both_translator_families());
}

#[test]
fn every_builtin_scheme_compiles() {
    for d in all() {
        let id = d.info.schema_id.clone();
        let s = d
            .compile()
            .unwrap_or_else(|e| panic!("{id}: {e:?}"));
        assert!(!s.alphabet().is_empty());
        assert!(!s.lexicon().is_empty());
    }
}

#[test]
fn pinyin_has_rules_and_shape_has_none() {
    let p = pinyin_scheme().compile().unwrap();
    assert_eq!(p.kind(), TranslatorKind::SpellingGraph);
    assert!(p.has_spelling_table());

    let s = shape_scheme().compile().unwrap();
    assert_eq!(s.kind(), TranslatorKind::ExactCode);
    assert!(!s.has_spelling_table(), "精确编码方案不该有拼写表");
}

#[test]
fn shape_alphabet_units_are_single_letters() {
    let d = shape_scheme();
    assert!(d.alphabet.iter().all(|u| u.chars().count() == 1));
}

#[test]
fn pinyin_units_are_multi_letter_syllables() {
    let d = pinyin_scheme();
    assert!(d.alphabet.iter().any(|u| u.chars().count() > 1));
}

#[test]
fn scheme_data_is_simplified_only() {
    let traditional = ['這', '國', '學', '體', '經', '門', '個', '們'];
    for d in all() {
        let DictSource::Inline(rows) = d.dictionary else {
            panic!("the words of a built-in scheme stand in it");
        };
        assert!(!rows.is_empty());
        for row in rows {
            for c in row.text.chars() {
                assert!(!traditional.contains(&c), "{c}");
            }
        }
    }
}

#[test]
fn the_built_in_words_have_the_weights_of_their_frequencies() {
    let rows = |d: stele_engine::scheme::SchemeDef| match d.dictionary {
        DictSource::Inline(rows) => rows,
        DictSource::External(_) => panic!("the words of a built-in scheme stand in it"),
    };
    let milli = |w: f64| (w.ln() * 1000.0).round() as i32;
    let pinyin = rows(pinyin_scheme());
    assert_eq!(pinyin.len(), 26);
    let score = |text: &str| {
        pinyin
            .iter()
            .find(|r| r.text == text)
            .unwrap()
            .score
            .as_milli_log()
    };
    assert_eq!(score("你好"), milli(10_000.0));
    assert_eq!(score("的"), milli(30_000.0));
    assert_eq!(score("界"), milli(3_000.0));
    assert_eq!(ABBREV_COST_MILLI, milli(0.5));
    assert_eq!(rows(shape_scheme())[0].score.as_milli_log(), milli(1_000.0));
    assert_eq!(PINYIN_SCHEMA_ID, "pinyin-demo");
    assert_eq!(SHAPE_SCHEMA_ID, "shape-demo");
}

#[test]
fn the_list_holds_both_schemes_whole() {
    let list = all();
    assert_eq!(list.len(), 2);
    for (got, want) in list.iter().zip([pinyin_scheme(), shape_scheme()]) {
        assert_eq!(got.info.schema_id, want.info.schema_id);
        assert_eq!(got.alphabet, want.alphabet);
        assert_eq!(got.switches.len(), want.switches.len());
        assert_eq!(got.rules.len(), want.rules.len());
        let (DictSource::Inline(a), DictSource::Inline(b)) = (&got.dictionary, &want.dictionary)
        else {
            panic!("the words of a built-in scheme stand in it");
        };
        assert_eq!(a.len(), b.len());
        for (x, y) in a.iter().zip(b) {
            assert_eq!((&x.units, &x.text, x.score), (&y.units, &y.text, y.score));
        }
    }
    assert_eq!(list[0].alphabet.len(), 20);
    assert_eq!(list[1].alphabet.len(), 8);
}
