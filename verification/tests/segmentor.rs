use stele_engine::candidate::Span;
use stele_engine::segmentor::{
    affix_all_tags, all_leadings, expand_prefix, leading_literal, AffixSegmentor, CodingSegmentor,
    InputScan, Matcher, Recognizer, RecognizerError, Segment, SegmentStatus, SymbolSegmentor,
};
use stele_engine::spec::{AffixSpec, At, PunctuatorSpec, RecogPattern, RecognizerSpec};
use stele_engine::tag::TagTable;

fn pat(name: &str, regex: &str) -> RecogPattern {
    RecogPattern {
        name: name.to_owned(),
        leading: leading_literal(regex),
        regex: regex.to_owned(),
        trailing: None,
        at: At::new(1),
    }
}

#[test]
fn leading_literal_stops_at_metacharacters() {
    assert_eq!(leading_literal("^uU[a-z]+$"), "uU");
    assert_eq!(leading_literal("^v([0-9]|10)$"), "v");
    assert_eq!(leading_literal("^abc$"), "abc");
    assert_eq!(leading_literal("^([nl])ue$"), "");
    assert_eq!(leading_literal(r"^\d+$"), "");
}

#[test]
fn recognizer_claims_a_prefix_mode() {
    let mut tags = TagTable::new();
    let spec = RecognizerSpec {
        import_preset: None,
        patterns: vec![pat("radical_lookup", "^uU[a-z]+$")],
    };
    let r = Recognizer::new(&spec, &mut tags).unwrap();

    let scan = r.scan("uUni");
    assert_eq!(scan.claims.len(), 1);
    assert_eq!(scan.claims[0].end, 4);
    assert_eq!(scan.claims[0].tag, "radical_lookup");

    assert!(r.scan("uU").claims.is_empty(), "只有前缀时不算认出");
    assert!(r.scan("ni").claims.is_empty());
}

#[test]
fn recognizer_requires_the_trailing_anchor_when_declared() {
    let mut tags = TagTable::new();
    let spec = RecognizerSpec {
        import_preset: None,
        patterns: vec![pat("punct", "^v([0-9]|10|[A-Za-z]+)$")],
    };
    let r = Recognizer::new(&spec, &mut tags).unwrap();
    assert_eq!(r.scan("v10").claims.len(), 1);
    assert!(r.scan("v1a").claims.is_empty(), "^v([0-9]|10|[A-Za-z]+)$ 不吃 v1a");
    assert_eq!(r.scan("vabc").claims.len(), 1);
    assert!(r.scan("v").claims.is_empty(), "v 之后还没有内容");
}

#[test]
fn longest_match_wins_and_ties_are_deterministic() {
    let mut tags = TagTable::new();
    let spec = RecognizerSpec {
        import_preset: None,
        patterns: vec![pat("short", "^uu[a-z]$"), pat("long", "^uu[a-z]+$")],
    };
    let r = Recognizer::new(&spec, &mut tags).unwrap();
    let scan = r.scan("uummm");
    assert_eq!(scan.claims[0].tag, "long", "取匹配最长的那个");
}

#[test]
fn bad_regex_fails_loudly_at_load_time() {
    let mut tags = TagTable::new();
    let spec = RecognizerSpec {
        import_preset: None,
        patterns: vec![pat("broken", "^a(")],
    };
    let Err(err) = Recognizer::new(&spec, &mut tags) else {
        panic!("坏正则必须报错");
    };
    assert!(matches!(err, RecognizerError::BadPattern { .. }));
    let msg = err.message();
    assert!(msg.contains("broken") && msg.contains("第 1 行"), "{msg}");
}

#[test]
fn prefix_is_a_literal_string_exactly_like_librime() {
    assert_eq!(expand_prefix(Some("uU")), vec!["uU"]);
    assert_eq!(expand_prefix(Some("v")), vec!["v"]);
    assert!(expand_prefix(None).is_empty());
    assert!(expand_prefix(Some("")).is_empty());

    let spec = AffixSpec {
        tag: Some("chaizi"),
        prefix: Some("uU".into()),
        ..Default::default()
    };
    let mut tags = TagTable::new();
    let seg = AffixSegmentor::new(&spec, &mut tags, "abc");
    assert_eq!(seg.body_start(), Some(("chaizi", 2)));
    assert_eq!(seg.prefixes(), &vec!["uU".to_owned()]);
}

#[test]
fn coding_segmentor_stops_at_the_next_claim() {
    let mut tags = TagTable::new();
    let spec = RecognizerSpec {
        import_preset: None,
        patterns: vec![pat("radical_lookup", "^uU[a-z]+$")],
    };
    let r = Recognizer::new(&spec, &mut tags).unwrap();
    let scan = r.scan("uUni");
    let seg_tag = tags.intern("abc");
    let abc = CodingSegmentor::new(seg_tag, scan.clone());
    let mut segs: Vec<Segment> = Vec::new();
    assert!(!abc.proceed("uUni", &mut segs));
    assert!(segs.is_empty());

    let mut segs2 = vec![Segment::new(Span::new(4, 6))];
    let scan2 = {
        let mut t2 = TagTable::new();
        let r2 = Recognizer::new(
            &RecognizerSpec {
                import_preset: None,
                patterns: vec![pat("radical_lookup", "^ni hao uU[a-z]+$")],
            },
            &mut t2,
        )
        .unwrap();
        r2.scan("ni hao uUni")
    };
    let abc2 = CodingSegmentor::new(seg_tag, scan2);
    assert!(abc2.proceed("ni hao uUni", &mut segs2));
    assert_eq!(segs2.last().unwrap().span, Span::new(6, 11));
}

#[test]
fn symbol_segmentor_recognizes_single_punctuation_and_the_prefix() {
    let spec = PunctuatorSpec {
        half_shape: vec![(",".into(), "，".into())],
        symbol_prefix: Some('v'),
        ..Default::default()
    };
    let tags = TagTable::new();
    let seg = SymbolSegmentor::new("punct", &spec);
    let _ = tags;
    assert!(seg.matches(","));
    assert!(seg.matches("v1"));
    assert!(!seg.matches("ni"), "两个字符不是单标点");
    assert!(!seg.matches(""));
}

#[test]
fn a_matcher_takes_only_claims_of_its_own_tags() {
    let mut tags = TagTable::new();
    let spec = RecognizerSpec {
        import_preset: None,
        patterns: vec![pat("radical_lookup", "^uU[a-z]+$")],
    };
    let r = Recognizer::new(&spec, &mut tags).unwrap();
    let mut matcher = Matcher::new(InputScan::default(), vec!["radical_lookup"]);
    let mut segs: Vec<Segment> = Vec::new();
    assert!(!matcher.proceed(&mut segs));
    matcher.rescan_all(r.scan("uUni"));
    assert!(matcher.proceed(&mut segs));
    assert_eq!(segs[0].span, Span::new(0, 4));
    assert_eq!(segs[0].tags, vec!["radical_lookup"]);
    assert_eq!(segs[0].status, SegmentStatus::Guess);

    let mut other = Matcher::new(InputScan::default(), vec!["other"]);
    other.rescan_all(r.scan("uUni"));
    assert!(!other.proceed(&mut Vec::new()));
}

#[test]
fn an_affix_needs_its_prefix_its_suffix_and_something_between() {
    let spec = AffixSpec {
        tag: Some("chaizi"),
        prefix: Some("uU".into()),
        suffix: Some(";".into()),
        ..Default::default()
    };
    let mut tags = TagTable::new();
    let mut seg = AffixSegmentor::new(&spec, &mut tags, "abc");
    seg.rescan_all(InputScan::default());
    let mut segs: Vec<Segment> = Vec::new();
    assert!(!seg.proceed("uUni", &mut segs));
    assert!(!seg.proceed("uU;", &mut segs));
    assert!(seg.proceed("uUni;", &mut segs));
    assert_eq!(segs[0].span, Span::new(0, 4));
    assert_eq!(affix_all_tags(&spec, &mut tags, "abc"), vec!["chaizi"]);
    assert_eq!(seg.suffix(), Some(";"));
    assert_eq!(seg.tips(), None);
}

#[test]
fn all_leadings_are_those_of_the_patterns() {
    let ps = vec![pat("b", "^uU[a-z]+$"), pat("a", "^\\d+$")];
    let leadings = all_leadings(&ps);
    assert!(leadings.contains(&"uU".to_owned()));
}
