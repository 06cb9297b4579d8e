//! Two small schemes that the engine brings along.
//!
//! One is spelled: its units are syllables, and an input has to be read first.
//! The other is not: its units are single letters, and an input is a code as it
//! stands. Both run on the same engine.

use vstd::prelude::*;
use crate::code::{milli, Score, SpellingAttr};
use crate::lexicon::{Row, Source};
use crate::options::Switch;
use crate::order::views;
use crate::pipeline::CANDIDATE_CAP;
use crate::regex::syntax::parse;
use crate::scheme::{
    leaves_components_alone, DictSource, SchemaInfo, SchemeDef, TranslatorKind, SCHEME_FORMAT_VERSION,
};
use crate::spelling::{abbrev_pattern, pattern_of, Operation, Rule};
use crate::text::texts;

verus! {

/// The name of the spelled scheme.
pub const PINYIN_SCHEMA_ID: &'static str = "pinyin-demo";

/// The name of the scheme of codes.
pub const SHAPE_SCHEMA_ID: &'static str = "shape-demo";

/// What an abbreviated spelling costs: half of the weight of a word.
pub const ABBREV_COST_MILLI: i32 = -693;

/// A row of a lexicon.
pub open spec fn word(units: Seq<Seq<char>>, text: Seq<char>, score: int) -> Row {
    Row { units, text, score: milli(score) }
}

fn one(a: &str, text: &str, score: i32) -> (r: Source)
    ensures
        r@ == word(seq![a@], text@, score as int),
{
    let mut units: Vec<String> = Vec::new();
    units.push(a.to_owned());
    let r = Source { units, text: text.to_owned(), score: Score::from_milli_log(score) };
    assert(r@.units =~= seq![a@]);
    r
}

fn two(a: &str, b: &str, text: &str, score: i32) -> (r: Source)
    ensures
        r@ == word(seq![a@, b@], text@, score as int),
{
    let mut units: Vec<String> = Vec::new();
    units.push(a.to_owned());
    units.push(b.to_owned());
    let r = Source { units, text: text.to_owned(), score: Score::from_milli_log(score) };
    assert(r@.units =~= seq![a@, b@]);
    r
}

fn three(a: &str, b: &str, c: &str, text: &str, score: i32) -> (r: Source)
    ensures
        r@ == word(seq![a@, b@, c@], text@, score as int),
{
    let mut units: Vec<String> = Vec::new();
    units.push(a.to_owned());
    units.push(b.to_owned());
    units.push(c.to_owned());
    let r = Source { units, text: text.to_owned(), score: Score::from_milli_log(score) };
    assert(r@.units =~= seq![a@, b@, c@]);
    r
}

/// The syllables of the spelled scheme.
pub open spec fn pinyin_units() -> Seq<Seq<char>> {
    seq!["ni"@, "hao"@, "wo"@, "yao"@, "da"@, "zi"@, "shi"@, "jie"@, "zhong"@, "guo"@, "ren"@, "min"@, "de"@, "le"@, "bu"@, "ma"@, "he"@, "zhang"@, "san"@, "li"@]
}

/// The words of the spelled scheme.
pub open spec fn pinyin_words() -> Seq<Row> {
    seq![
        word(seq!["ni"@, "hao"@], "你好"@, 9210),
        word(seq!["zhong"@, "guo"@], "中国"@, 9105),
        word(seq!["wo"@, "yao"@], "我要"@, 8987),
        word(seq!["da"@, "zi"@], "打字"@, 8700),
        word(seq!["shi"@, "jie"@], "世界"@, 8517),
        word(seq!["ren"@, "min"@], "人民"@, 8294),
        word(seq!["de"@], "的"@, 10309),
        word(seq!["shi"@], "是"@, 10127),
        word(seq!["bu"@], "不"@, 9952),
        word(seq!["le"@], "了"@, 9999),
        word(seq!["ni"@], "你"@, 9903),
        word(seq!["wo"@], "我"@, 9798),
        word(seq!["ren"@], "人"@, 9680),
        word(seq!["hao"@], "好"@, 9616),
        word(seq!["yao"@], "要"@, 9393),
        word(seq!["da"@], "大"@, 9306),
        word(seq!["he"@], "和"@, 9210),
        word(seq!["ma"@], "吗"@, 9105),
        word(seq!["zhong"@], "中"@, 8987),
        word(seq!["guo"@], "国"@, 8987),
        word(seq!["zi"@], "字"@, 8854),
        word(seq!["min"@], "民"@, 8517),
        word(seq!["jie"@], "界"@, 8006),
        word(seq!["zhang"@], "张"@, 8854),
        word(seq!["san"@], "三"@, 9105),
        word(seq!["li"@], "里"@, 8987),
    ]
}

/// The letters of the scheme of codes.
pub open spec fn shape_units() -> Seq<Seq<char>> {
    seq!["a"@, "b"@, "c"@, "d"@, "e"@, "f"@, "g"@, "h"@]
}

/// The words of the scheme of codes.
pub open spec fn shape_words() -> Seq<Row> {
    seq![
        word(seq!["a"@], "一"@, 6908),
        word(seq!["b"@], "丨"@, 6908),
        word(seq!["c"@], "丿"@, 6908),
        word(seq!["d"@], "丶"@, 6908),
        word(seq!["e"@], "乙"@, 6908),
        word(seq!["a"@, "b"@], "十"@, 7601),
        word(seq!["a"@, "c"@], "厂"@, 7313),
        word(seq!["b"@, "a"@], "上"@, 7824),
        word(seq!["a"@, "b"@, "c"@], "木"@, 8006),
        word(seq!["a"@, "b"@, "d"@], "才"@, 7496),
    ]
}

fn make_pinyin_units() -> (v: Vec<String>)
    ensures
        texts(v@) == pinyin_units(),
{
    let mut v: Vec<String> = Vec::new();
    v.push("ni".to_owned());
    v.push("hao".to_owned());
    v.push("wo".to_owned());
    v.push("yao".to_owned());
    v.push("da".to_owned());
    v.push("zi".to_owned());
    v.push("shi".to_owned());
    v.push("jie".to_owned());
    v.push("zhong".to_owned());
    v.push("guo".to_owned());
    v.push("ren".to_owned());
    v.push("min".to_owned());
    v.push("de".to_owned());
    v.push("le".to_owned());
    v.push("bu".to_owned());
    v.push("ma".to_owned());
    v.push("he".to_owned());
    v.push("zhang".to_owned());
    v.push("san".to_owned());
    v.push("li".to_owned());
    assert(texts(v@) =~= pinyin_units());
    v
}

fn make_pinyin_words() -> (v: Vec<Source>)
    ensures
        views(v@) == pinyin_words(),
{
    let mut v: Vec<Source> = Vec::new();
    v.push(two("ni", "hao", "你好", 9_210));
    v.push(two("zhong", "guo", "中国", 9_105));
    v.push(two("wo", "yao", "我要", 8_987));
    v.push(two("da", "zi", "打字", 8_700));
    v.push(two("shi", "jie", "世界", 8_517));
    v.push(two("ren", "min", "人民", 8_294));
    v.push(one("de", "的", 10_309));
    v.push(one("shi", "是", 10_127));
    v.push(one("bu", "不", 9_952));
    v.push(one("le", "了", 9_999));
    v.push(one("ni", "你", 9_903));
    v.push(one("wo", "我", 9_798));
    v.push(one("ren", "人", 9_680));
    v.push(one("hao", "好", 9_616));
    v.push(one("yao", "要", 9_393));
    v.push(one("da", "大", 9_306));
    v.push(one("he", "和", 9_210));
    v.push(one("ma", "吗", 9_105));
    v.push(one("zhong", "中", 8_987));
    v.push(one("guo", "国", 8_987));
    v.push(one("zi", "字", 8_854));
    v.push(one("min", "民", 8_517));
    v.push(one("jie", "界", 8_006));
    v.push(one("zhang", "张", 8_854));
    v.push(one("san", "三", 9_105));
    v.push(one("li", "里", 8_987));
    assert(views(v@) =~= pinyin_words());
    v
}

fn make_shape_units() -> (v: Vec<String>)
    ensures
        texts(v@) == shape_units(),
{
    let mut v: Vec<String> = Vec::new();
    v.push("a".to_owned());
    v.push("b".to_owned());
    v.push("c".to_owned());
    v.push("d".to_owned());
    v.push("e".to_owned());
    v.push("f".to_owned());
    v.push("g".to_owned());
    v.push("h".to_owned());
    assert(texts(v@) =~= shape_units());
    v
}

fn make_shape_words() -> (v: Vec<Source>)
    ensures
        views(v@) == shape_words(),
{
    let mut v: Vec<Source> = Vec::new();
    v.push(one("a", "一", 6_908));
    v.push(one("b", "丨", 6_908));
    v.push(one("c", "丿", 6_908));
    v.push(one("d", "丶", 6_908));
    v.push(one("e", "乙", 6_908));
    v.push(two("a", "b", "十", 7_601));
    v.push(two("a", "c", "厂", 7_313));
    v.push(two("b", "a", "上", 7_824));
    v.push(three("a", "b", "c", "木", 8_006));
    v.push(three("a", "b", "d", "才", 7_496));
    assert(views(v@) =~= shape_words());
    v
}

fn abbrev_cost() -> (r: Score)
    ensures
        r == milli(ABBREV_COST_MILLI as int),
{
    Score::from_milli_log(ABBREV_COST_MILLI)
}

/// Whether rules are the one that abbreviates a unit to its first letter.
pub open spec fn abbreviates(rules: Seq<Rule>) -> bool {
    match parse(abbrev_pattern(1)) {
        Ok((root, groups)) => views(rules) == seq![
            Operation::Derive {
                pattern: pattern_of(root, groups),
                repl: "$1"@,
                cost: milli(ABBREV_COST_MILLI as int),
                attr: SpellingAttr { fuzzy: false, abbrev: true, completion: false },
            },
        ],
        Err(_) => rules.len() == 0,
    }
}

fn make_rules() -> (v: Vec<Rule>)
    ensures
        abbreviates(v@),
{
    let mut v: Vec<Rule> = Vec::new();
    if let Ok(r) = Rule::abbrev(1, abbrev_cost()) {
        v.push(r);
        assert(views(v@) =~= seq![r@]);
    }
    v
}

/// Whether a scheme is the small one of syllables.
pub open spec fn is_pinyin_scheme(d: SchemeDef) -> bool {
    &&& d.info.schema_id@ == PINYIN_SCHEMA_ID@
    &&& d.info.name@ == "石经・拼音（演示）"@
    &&& d.info.version@ == "0.1.0"@
    &&& d.info.family matches Some(f) && f@ == "stele-pinyin"@
    &&& d.info.format_version == SCHEME_FORMAT_VERSION
    &&& d.tag@ == "abc"@
    &&& views(d.switches@) == seq![
        ("ascii_mode"@, false),
        ("ascii_punct"@, false),
        ("traditionalization"@, false),
    ]
    &&& texts(d.alphabet@) == pinyin_units()
    &&& abbreviates(d.rules@)
    &&& d.dictionary matches DictSource::Inline(v) && views(v@) == pinyin_words()
    &&& d.translator == TranslatorKind::SpellingGraph
    &&& d.candidate_cap == CANDIDATE_CAP
    &&& leaves_components_alone(d)
}

/// A small scheme of syllables, which can be abbreviated.
#[must_use]
pub fn pinyin_scheme() -> (d: SchemeDef)
    ensures
        d.valid(),
        is_pinyin_scheme(d),
{
    let mut switches: Vec<Switch> = Vec::new();
    switches.push(Switch::new("ascii_mode", false));
    switches.push(Switch::new("ascii_punct", false));
    switches.push(Switch::new("traditionalization", false));
    let mut d = SchemeDef::default();
    d.info = SchemaInfo {
        schema_id: PINYIN_SCHEMA_ID.to_owned(),
        name: "石经・拼音（演示）".to_owned(),
        version: "0.1.0".to_owned(),
        format_version: SCHEME_FORMAT_VERSION,
        family: Some("stele-pinyin".to_owned()),
    };
    d.switches = switches;
    d.tag = "abc";
    d.alphabet = make_pinyin_units();
    d.rules = make_rules();
    d.dictionary = DictSource::Inline(make_pinyin_words());
    d.translator = TranslatorKind::SpellingGraph;
    d.candidate_cap = CANDIDATE_CAP;
    assert(views(d.switches@) =~= seq![
        ("ascii_mode"@, false),
        ("ascii_punct"@, false),
        ("traditionalization"@, false),
    ]);
    assert(d.alphabet@.len() == texts(d.alphabet@).len());
    d
}

/// Whether a scheme is the small one of codes.
pub open spec fn is_shape_scheme(d: SchemeDef) -> bool {
    &&& d.info.schema_id@ == SHAPE_SCHEMA_ID@
    &&& d.info.name@ == "石经・字形码（演示）"@
    &&& d.info.version@ == "0.1.0"@
    &&& d.info.family is None
    &&& d.info.format_version == SCHEME_FORMAT_VERSION
    &&& d.tag@ == "code"@
    &&& views(d.switches@) == seq![("ascii_mode"@, false)]
    &&& texts(d.alphabet@) == shape_units()
    &&& d.rules@.len() == 0
    &&& d.dictionary matches DictSource::Inline(v) && views(v@) == shape_words()
    &&& d.translator == TranslatorKind::ExactCode
    &&& d.candidate_cap == CANDIDATE_CAP
    &&& leaves_components_alone(d)
}

/// A small scheme of codes, which are not spelled.
#[must_use]
pub fn shape_scheme() -> (d: SchemeDef)
    ensures
        d.valid(),
        is_shape_scheme(d),
{
    let mut switches: Vec<Switch> = Vec::new();
    switches.push(Switch::new("ascii_mode", false));
    let mut d = SchemeDef::default();
    d.info = SchemaInfo {
        schema_id: SHAPE_SCHEMA_ID.to_owned(),
        name: "石经・字形码（演示）".to_owned(),
        version: "0.1.0".to_owned(),
        format_version: SCHEME_FORMAT_VERSION,
        family: None,
    };
    d.switches = switches;
    d.tag = "code";
    d.alphabet = make_shape_units();
    d.dictionary = DictSource::Inline(make_shape_words());
    d.candidate_cap = CANDIDATE_CAP;
    assert(views(d.switches@) =~= seq![("ascii_mode"@, false)]);
    assert(d.alphabet@.len() == texts(d.alphabet@).len());
    d
}

/// Both schemes.
#[must_use]
pub fn all() -> (r: Vec<SchemeDef>)
    ensures
        r@.len() == 2,
        r@[0].valid(),
        r@[1].valid(),
        is_pinyin_scheme(r@[0]),
        is_shape_scheme(r@[1]),
{
    let mut v: Vec<SchemeDef> = Vec::new();
    v.push(pinyin_scheme());
    v.push(shape_scheme());
    v
}

fn any_of(ds: &Vec<SchemeDef>, kind: TranslatorKind) -> (r: bool)
    ensures
        r == exists|i: int| 0 <= i < ds@.len() && (#[trigger] ds@[i]).translator == kind,
{
    let mut i: usize = 0;
    while i < ds.len()
        invariant
            i <= ds@.len(),
            forall|j: int| 0 <= j < i ==> (#[trigger] ds@[j]).translator != kind,
        decreases ds.len() - i,
    {
        if ds[i].translator == kind {
            assert(ds@[i as int].translator == kind);
            return true;
        }
        i += 1;
    }
    false
}

/// Whether the schemes use both families of translators. They do.
#[must_use]
pub fn uses_both_translator_families() -> (r: bool)
    ensures
        r,
{
    let ds = all();
    assert(ds@[0].translator == TranslatorKind::SpellingGraph);
    assert(ds@[1].translator == TranslatorKind::ExactCode);
    any_of(&ds, TranslatorKind::ExactCode) && any_of(&ds, TranslatorKind::SpellingGraph)
}

/// The mark of what an abbreviation finds.
#[must_use]
pub fn abbrev_attr() -> (r: SpellingAttr)
    ensures
        r == (SpellingAttr { fuzzy: false, abbrev: true, completion: false }),
{
    SpellingAttr::abbrev()
}

} // verus!
