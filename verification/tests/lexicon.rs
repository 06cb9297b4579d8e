use stele_engine::candidate::Origin;
use stele_engine::code::{CodeAlphabet, CodeUnitId, Score};
use stele_engine::lexicon::{InMemoryLexicon, LexiconError, ReverseLexicon, TextIndex};
use stele_engine::scheme::entry;

fn weight(w: f64) -> Score {
    Score::from_milli_log((w.ln() * 1000.0).round() as i32)
}

fn alphabet(units: &[&str]) -> CodeAlphabet {
    CodeAlphabet::new(units.iter().map(|s| (*s).to_owned()).collect())
}

#[test]
fn looks_up_an_exact_code() {
    let lex = InMemoryLexicon::from_entries(
        alphabet(&["ni", "hao"]),
        &[entry(&["ni", "hao"], "你好", weight(100.0))],
    )
    .unwrap();

    let mut buf = Vec::new();
    lex.lookup(&vec![CodeUnitId(0), CodeUnitId(1)], &mut buf, 16);
    assert_eq!(buf.len(), 1);
    assert_eq!(buf[0].text, "你好");
    assert_eq!(buf[0].origin, Origin::SystemWord);
}

#[test]
fn unknown_unit_is_a_load_error_not_a_miss() {
    let err =
        InMemoryLexicon::from_entries(alphabet(&["ni"]), &[entry(&["ni", "hao"], "你好", weight(1.0))])
            .unwrap_err();
    assert!(matches!(err, LexiconError::UnknownUnit { .. }));
}

#[test]
fn same_code_entries_are_ordered_deterministically() {
    let lex = InMemoryLexicon::from_entries(
        alphabet(&["a"]),
        &[
            entry(&["a"], "低", weight(1.0)),
            entry(&["a"], "高", weight(100.0)),
            entry(&["a"], "中", weight(50.0)),
        ],
    )
    .unwrap();

    let mut buf = Vec::new();
    lex.lookup(&vec![CodeUnitId(0)], &mut buf, 16);
    let texts: Vec<&str> = buf.iter().map(|c| c.text.as_str()).collect();
    assert_eq!(texts, ["高", "中", "低"]);
}

#[test]
fn missing_code_returns_nothing() {
    let lex =
        InMemoryLexicon::from_entries(alphabet(&["a"]), &[entry(&["a"], "甲", weight(1.0))]).unwrap();
    let mut buf = Vec::new();
    lex.lookup(&vec![CodeUnitId(99)], &mut buf, 16);
    assert!(buf.is_empty());
}

#[test]
fn a_refused_word_is_named() {
    let err = InMemoryLexicon::from_entries(
        alphabet(&["ni"]),
        &[entry(&["ni", "hao"], "你好", weight(1.0))],
    )
    .unwrap_err();
    assert!(err.message().contains("hao"));
    assert!(err.message().contains("你好"));
}

#[test]
fn prefixes_find_longer_codes_and_nothing_else() {
    let lex = InMemoryLexicon::from_entries(
        alphabet(&["a", "b", "c"]),
        &[
            entry(&["a"], "甲", weight(1.0)),
            entry(&["a", "b"], "乙", weight(2.0)),
            entry(&["c"], "丙", weight(3.0)),
        ],
    )
    .unwrap();
    assert_eq!(lex.len(), 3);
    assert_eq!(lex.code_count(), 3);
    assert!(!lex.is_empty());
    assert!(lex.supports_prefix());
    assert!(lex.has_prefix(&vec![CodeUnitId(0)]));
    assert!(!lex.has_prefix(&vec![CodeUnitId(1)]));
    assert_eq!(lex.alphabet().len(), 3);
}

#[test]
fn an_index_finds_the_codes_of_a_text() {
    let index = TextIndex::from_entries(&[
        ("好".to_owned(), vec!["hao".to_owned()]),
        ("好".to_owned(), vec!["nv".to_owned(), "zi".to_owned()]),
    ]);
    assert_eq!(index.len(), 1);
    assert!(!index.is_empty());
    let mut out = Vec::new();
    index.lookup_text("好", &mut out);
    assert_eq!(out, vec![vec!["hao".to_owned()], vec!["nv".to_owned(), "zi".to_owned()]]);
    index.lookup_text("坏", &mut out);
    assert_eq!(out.len(), 2);
}
