use stele_engine::candidate::{Candidate, CandidateKind, Lane, Origin, Span};
use stele_engine::code::{Score, SpellingAttr};
use stele_engine::inline::date::{
    civil_from_days, civil_from_unix, day_zh, month_day_zh, year_zh, DateTranslator,
};
use stele_engine::inline::number::{split_number, NumberTranslator};
use stele_engine::inline::pin::{derived_keys, PinCandFilter};
use stele_engine::inline::reorder::{
    is_english_word, strip_punct, AutoCapFilter, LongWordFilter, ReduceEnglishFilter, VFilter,
};
use stele_engine::inline::unicode::{UnicodeTranslator, UuidTranslator};
use stele_engine::spec::{
    At, AutoCapSpec, DateSpec, LongWordSpec, NumberSpec, PinCandSpec, PinEntry,
    ReduceEnglishSpec, ReduceMode, UnicodeSpec, UuidSpec,
};
use stele_engine::tag::TagTable;

fn cand(text: &str) -> Candidate {
    Candidate {
        text: text.to_owned(),
        comment: None,
        score: Score::zero(),
        origin: Origin::SystemWord,
        attr: SpellingAttr::normal(),
        span: Span::new(0, 1),
        lane: Lane::Input,
        kind: CandidateKind::Normal,
        key: None,
    }
}

#[test]
fn civil_conversion_is_exact_on_known_dates() {
    let t = civil_from_unix(0, 0);
    assert_eq!((t.year, t.month, t.day, t.weekday), (1970, 1, 1, 4));
    let t = civil_from_unix(951_782_400, 0);
    assert_eq!((t.year, t.month, t.day), (2000, 2, 29));
    let t = civil_from_unix(1_795_910_400, 0);
    assert_eq!((t.year, t.month, t.day), (2026, 11, 29));
    assert_eq!(t.weekday, 0, "2026-11-29 是星期日");
    let t = civil_from_unix(4_107_542_400, 0);
    assert_eq!((t.year, t.month, t.day), (2100, 3, 1));
}

#[test]
fn timezone_offset_changes_the_civil_date() {
    let secs = 1_795_996_391;
    let utc = civil_from_unix(secs, 0);
    let cst = civil_from_unix(secs, 8 * 3600);
    assert_eq!((utc.month, utc.day), (11, 29));
    assert_eq!((cst.month, cst.day, cst.hour), (11, 30, 7), "+08:00 下已经是第二天");
}

#[test]
fn chinese_year_is_digit_by_digit() {
    assert_eq!(year_zh(2026), "二〇二六");
    assert_eq!(month_day_zh(11, 29), "十一月二十九日");
    assert_eq!(month_day_zh(1, 1), "一月一日");
    assert_eq!(month_day_zh(12, 31), "十二月三十一日");
}


fn date_translator() -> DateTranslator {
    let mut tags = TagTable::new();
    DateTranslator::new(DateSpec::default(), vec![tags.intern("date")])
}

#[test]
fn date_formats_match_the_documented_shapes() {
    let t = date_translator();
    let render = |input: &str| {
        t.render(input, 1_795_996_391, 8 * 3600)
            .into_iter()
            .map(|(a, _)| a)
            .collect::<Vec<_>>()
    };
    assert_eq!(render("rq"), ["2026-11-30"]);
    assert_eq!(render("sj"), ["07:53"]);
    assert_eq!(render("xq"), ["星期一"]);
    assert_eq!(render("ts"), ["1795996391"]);
    assert_eq!(render("rqzh"), ["二〇二六年十一月三十日"]);
    assert_eq!(render("rqen"), ["November 30, 2026"]);
    assert_eq!(render("dt"), ["2026-11-30T07:53:11+08:00"]);
    assert!(render("nihao").is_empty());
}


fn unicode_translator() -> UnicodeTranslator {
    let mut tags = TagTable::new();
    UnicodeTranslator::new(&UnicodeSpec::default(), vec![tags.intern("unicode")])
}

#[test]
fn unicode_decodes_a_codepoint() {
    let t = unicode_translator();
    let out = t.render("U62fc");
    assert_eq!(out[0].0, "拼");
    assert_eq!(out[0].1.as_deref(), Some("U62fc"));
    assert!(out.len() > 1, "BMP 码位应当带出后续 15 个");
}

#[test]
fn unicode_rejects_short_and_out_of_range_input() {
    let t = unicode_translator();
    assert!(t.render("U6").is_empty(), "一位十六进制太容易误触发");
    assert!(t.render("62fc").is_empty(), "没有前缀");
    assert!(t.render("Uzzzz").is_empty(), "不是十六进制");
    let over = t.render("U110000");
    assert_eq!(over.len(), 1);
    assert_eq!(over[0].0, "数值超限！");
    assert_eq!(t.render("U10FFFF")[0].0, "\u{10FFFF}");
}


#[test]
fn long_word_filter_promotes_longer_words_from_idx() {
    let f = LongWordFilter::new(&LongWordSpec {
        count: 1,
        idx: 4,
        ..Default::default()
    });
    let mut v = vec![
        cand("接"),
        cand("解"),
        cand("姐"),
        cand("饥饿"),
        cand("结"),
        cand("界"),
    ];
    f.apply(&mut v);
    let texts: Vec<&str> = v.iter().map(|c| c.text.as_str()).collect();
    assert_eq!(texts, ["接", "解", "姐", "饥饿", "结", "界"]);
}

#[test]
fn long_word_filter_respects_count() {
    let f = LongWordFilter::new(&LongWordSpec {
        count: 1,
        idx: 2,
        ..Default::default()
    });
    let mut v = vec![cand("先"), cand("县"), cand("西安"), cand("西域")];
    f.apply(&mut v);
    let texts: Vec<&str> = v.iter().map(|c| c.text.as_str()).collect();
    assert_eq!(texts, ["先", "西安", "县", "西域"]);
}

#[test]
fn long_word_filter_does_not_promote_alphanumeric() {
    let f = LongWordFilter::new(&LongWordSpec {
        count: 2,
        idx: 2,
        ..Default::default()
    });
    let mut v = vec![cand("先"), cand("xian"), cand("西安")];
    f.apply(&mut v);
    let texts: Vec<&str> = v.iter().map(|c| c.text.as_str()).collect();
    assert_eq!(texts, ["先", "西安", "xian"]);
}


#[test]
fn autocap_uppercases_first_letter_for_one_capital() {
    let f = AutoCapFilter;
    let mut v = vec![cand("hello"), cand("hello world"), cand("你好")];
    f.apply("Hello", &mut v);
    assert_eq!(v[0].text, "Hello", "首位大写 → 候选首位大写");
    assert_eq!(v[1].text, "hello world");
    assert_eq!(v[2].text, "你好");
}

#[test]
fn autocap_uppercases_all_for_two_leading_capitals() {
    let f = AutoCapFilter;
    let mut v = vec![cand("hello")];
    f.apply("HEllo", &mut v);
    assert_eq!(v[0].text, "HELLO");
}

#[test]
fn autocap_leaves_lowercase_input_alone() {
    let f = AutoCapFilter;
    let mut v = vec![cand("hello")];
    f.apply("hello", &mut v);
    assert_eq!(v[0].text, "hello");
    let mut v2 = vec![cand("a")];
    f.apply("A", &mut v2);
    assert_eq!(v2[0].text, "a");
}

#[test]
fn autocap_skips_abbreviations_but_not_completions() {
    let f = AutoCapFilter;
    let mut v = vec![cand("Photoshop")];
    f.apply("PS", &mut v);
    assert_eq!(v[0].text, "Photoshop");
    let mut v2 = vec![Candidate {
        kind: CandidateKind::Completion,
        ..cand("Photoshop")
    }];
    f.apply("PHO", &mut v2);
    assert_eq!(v2[0].text, "PHOTOSHOP");
}


fn uuid_translator() -> UuidTranslator {
    let mut tags = TagTable::new();
    UuidTranslator::new(&UuidSpec::default(), vec![tags.intern("uuid")])
}

#[test]
fn uuid_has_the_v4_shape_and_version_bits() {
    let t = uuid_translator();
    let id = t.generate(0x0123_4567_89ab_cdef, 0xfedc_ba98_7654_3210);
    assert_eq!(id.len(), 36);
    let parts: Vec<&str> = id.split('-').collect();
    assert_eq!(
        parts.iter().map(|p| p.len()).collect::<Vec<_>>(),
        [8, 4, 4, 4, 12]
    );
    assert!(id.chars().all(|c| c.is_ascii_hexdigit() || c == '-'));
    assert_eq!(&id[14..15], "4", "版本位必须是 4：{id}");
    assert!(
        ['8', '9', 'a', 'b'].contains(&id.chars().nth(19).unwrap()),
        "变体位必须是 8/9/a/b：{id}"
    );
}

#[test]
fn uuid_is_deterministic_for_a_fixed_seed() {
    let a = uuid_translator().generate(42, 43);
    let b = uuid_translator().generate(42, 43);
    assert_eq!(a, b);
    assert_ne!(a, uuid_translator().generate(7, 8));
}

#[test]
fn uuid_only_fires_on_its_trigger() {
    let t = uuid_translator();
    let mut buf = Vec::new();
    t.translate("uuid", 1, 2, Span::new(0, 4), &mut buf, 4);
    assert_eq!(buf.len(), 1);
    assert_eq!(buf[0].kind, CandidateKind::Inline);

    let mut buf2 = Vec::new();
    t.translate("uu", 1, 2, Span::new(0, 2), &mut buf2, 4);
    assert!(buf2.is_empty(), "只有触发词才产出");
}


#[test]
fn v_filter_moves_single_characters_first() {
    let f = VFilter::default();
    let mut v = vec![cand("van"), cand("ā"), cand("vain"), cand("á")];
    f.apply("va", &mut v);
    let texts: Vec<&str> = v.iter().map(|c| c.text.as_str()).collect();
    assert_eq!(texts, ["ā", "á", "van", "vain"]);
}

#[test]
fn v_filter_exceptions_keep_their_relative_order() {
    let f = VFilter::default();
    let mut v = vec![cand("van"), cand("ā"), cand("1️⃣")];
    f.apply("v1", &mut v);
    let texts: Vec<&str> = v.iter().map(|c| c.text.as_str()).collect();
    assert_eq!(texts, ["ā", "1️⃣", "van"]);
}

#[test]
fn v_filter_does_nothing_outside_v_mode() {
    let f = VFilter::default();
    let mut v = vec![cand("van"), cand("ā")];
    f.apply("vab", &mut v);
    assert_eq!(v[0].text, "van", "长度不是 2 就不动");
    let mut v2 = vec![cand("van"), cand("ā")];
    f.apply("ha", &mut v2);
    assert_eq!(v2[0].text, "van", "不以 v 开头就不动");
}


fn pin_entry(preedit: &str, texts: &[&str]) -> PinEntry {
    PinEntry {
        preedit: preedit.to_owned(),
        texts: texts.iter().map(|s| (*s).to_owned()).collect(),
        at: At::default(),
    }
}

fn pin_filter(entries: Vec<PinEntry>) -> PinCandFilter {
    PinCandFilter::new(&PinCandSpec {
        entries,
        at: At::default(),
    })
}

#[test]
fn pin_table_derives_the_shorthand_keys() {
    let f = pin_filter(vec![
        pin_entry("ni hao", &["你好"]),
        pin_entry("zhi chi", &["支持"]),
    ]);
    let t = f.table();
    assert_eq!(t.get("nihao"), Some(&["你好".to_owned()][..]));
    assert_eq!(t.get("nih"), Some(&["你好".to_owned()][..]));
    assert_eq!(t.get("zhichi"), Some(&["支持".to_owned()][..]));
    assert_eq!(t.get("zhic"), Some(&["支持".to_owned()][..]));
    assert_eq!(t.get("zhich"), Some(&["支持".to_owned()][..]));
}

#[test]
fn an_explicit_shorthand_beats_a_derived_one() {
    let f = pin_filter(vec![
        pin_entry("da zhuan", &["大专"]),
        pin_entry("da zhong", &["大众"]),
        pin_entry("da z", &["打字"]),
    ]);
    let t = f.table();
    assert_eq!(t.get("daz"), Some(&["打字".to_owned()][..]), "显式的赢");
    assert_eq!(
        t.get("dazh"),
        Some(&["大专".to_owned(), "大众".to_owned()][..]),
        "没显式声明的按声明顺序合并"
    );
    assert_eq!(t.get("dazhuan"), Some(&["大专".to_owned()][..]));
}

#[test]
fn pin_reorders_to_the_configured_order() {
    let f = pin_filter(vec![pin_entry("hao", &["号", "好"])]);
    let mut v = vec![cand("好"), cand("毫"), cand("号"), cand("哈")];
    f.apply("hao", &mut v);
    let texts: Vec<&str> = v.iter().map(|c| c.text.as_str()).collect();
    assert_eq!(texts, ["号", "好", "毫", "哈"]);
}

#[test]
fn pin_falls_back_to_a_shorter_prefix_of_the_input() {
    let f = pin_filter(vec![pin_entry("dian", &["点"])]);
    let mut v = vec![cand("地"), cand("点"), cand("第")];
    f.apply("dian", &mut v);
    assert_eq!(v[0].text, "点");
}

#[test]
fn pin_does_nothing_when_the_code_has_no_rule() {
    let f = pin_filter(vec![pin_entry("hao", &["号"])]);
    let mut v = vec![cand("好"), cand("毫")];
    f.apply("zzz", &mut v);
    let texts: Vec<&str> = v.iter().map(|c| c.text.as_str()).collect();
    assert_eq!(texts, ["好", "毫"], "没有规则就原样通过");
}

#[test]
fn pin_keeps_candidates_it_could_not_find() {
    let f = pin_filter(vec![pin_entry("hao", &["库里没有的词", "好"])]);
    let mut v = vec![cand("毫"), cand("好"), cand("哈")];
    f.apply("hao", &mut v);
    let texts: Vec<&str> = v.iter().map(|c| c.text.as_str()).collect();
    assert_eq!(texts, ["好", "毫", "哈"]);
}

#[test]
fn pin_supports_the_angle_bracket_separator() {
    let f = pin_filter(vec![pin_entry("l", &["了 > 啦"])]);
    assert_eq!(
        f.table().get("l"),
        Some(&["了".to_owned(), "啦".to_owned()][..])
    );
}

#[test]
fn derived_keys_need_at_least_two_units() {
    assert!(derived_keys("hao").is_empty(), "单个编码单元没有简码可派生");
    assert_eq!(derived_keys("ni hao"), ["nih"]);
    assert_eq!(derived_keys("bu hao chi"), ["buhaoc", "buhaoch"]);
}


fn reduce_filter(
    mode: ReduceMode,
    idx: usize,
    words: &[&str],
) -> ReduceEnglishFilter {
    ReduceEnglishFilter::new(&ReduceEnglishSpec {
        mode,
        idx,
        words: words.iter().map(|s| (*s).to_owned()).collect(),
        at: At::default(),
    })
}

#[test]
fn reduce_english_pushes_english_words_down() {
    let f = reduce_filter(ReduceMode::All, 2, &[]);
    let mut v = vec![cand("rug"), cand("如果"), cand("如")];
    f.apply("rug", &mut v);
    let texts: Vec<&str> = v.iter().map(|c| c.text.as_str()).collect();
    assert_eq!(texts, ["如果", "rug", "如"], "英文降到第 2 位");
}

#[test]
fn reduce_english_only_fires_on_listed_codes() {
    let f = reduce_filter(ReduceMode::Custom, 2, &["rug"]);
    let mut v = vec![cand("abc"), cand("啊")];
    f.apply("abc", &mut v);
    assert_eq!(v[0].text, "abc");
    let mut v2 = vec![cand("rug"), cand("如果")];
    f.apply("rug", &mut v2);
    assert_eq!(v2[0].text, "如果");
}

#[test]
fn reduce_english_mode_none_never_fires() {
    let f = reduce_filter(ReduceMode::Never, 2, &["rug"]);
    assert!(!f.triggers("rug"));
}

#[test]
fn reduce_english_mode_all_merges_builtin_and_custom() {
    let f = reduce_filter(ReduceMode::All, 2, &["zzzz"]);
    assert!(f.triggers("rug"), "内置表里的");
    assert!(f.triggers("zzzz"), "自定义的");
    assert!(!f.triggers("qqqq"), "都不在");
}

#[test]
fn reduce_english_never_demotes_user_words() {
    let f = reduce_filter(ReduceMode::All, 2, &[]);
    let mut v = vec![
        Candidate {
            kind: CandidateKind::UserTable,
            ..cand("rug")
        },
        cand("如果"),
    ];
    f.apply("rug", &mut v);
    assert_eq!(v[0].text, "rug", "用户词不动");
}

#[test]
fn reduce_english_keeps_phrases_and_chinese_in_place() {
    let f = reduce_filter(ReduceMode::All, 3, &[]);
    let mut v = vec![cand("New York"), cand("你"), cand("123"), cand("rug")];
    f.apply("rug", &mut v);
    let texts: Vec<&str> = v.iter().map(|c| c.text.as_str()).collect();
    assert_eq!(texts, ["New York", "你", "123", "rug"]);
}

#[test]
fn is_english_word_draws_the_line_the_same_way_rime_ice_does() {
    assert!(is_english_word("rug"));
    assert!(is_english_word("Mac"));
    assert!(!is_english_word("New York"), "含空格");
    assert!(!is_english_word("你"), "非 ASCII");
    assert!(!is_english_word("123"), "没有字母");
    assert!(!is_english_word(""), "空串");
}

#[test]
fn the_autocap_spec_exists_so_the_component_can_be_declared() {
    let s = AutoCapSpec::default();
    assert_eq!(s.at.line, 0);
}

#[test]
fn a_uuid_is_written_from_its_two_numbers() {
    let id = uuid_translator().generate(0x0123_4567_89ab_cdef, 0xfedc_ba98_7654_3210);
    assert_eq!(id.len(), 36);
    assert_eq!(id, id.to_lowercase());
    assert_ne!(id, uuid_translator().generate(0x0123_4567_89ab_cdef, 0));
}

#[test]
fn days_before_the_first_one_are_counted_back() {
    assert_eq!(civil_from_days(0), (1970, 1, 1));
    assert_eq!(civil_from_days(-1), (1969, 12, 31));
    assert_eq!(civil_from_days(19_782), (2024, 2, 29));
    assert_eq!(civil_from_days(-719_468), (0, 3, 1));
    let t = civil_from_unix(-1, 0);
    assert_eq!(
        (t.year, t.month, t.day, t.hour, t.minute, t.second, t.weekday),
        (1969, 12, 31, 23, 59, 59, 3)
    );
}

#[test]
fn tenths_of_the_month_are_written_without_a_one() {
    assert_eq!(day_zh(10), "十");
    assert_eq!(day_zh(11), "十一");
    assert_eq!(day_zh(20), "二十");
    assert_eq!(day_zh(31), "三十一");
}

#[test]
fn dates_are_offered_up_to_the_room_there_is() {
    let t = date_translator();
    let mut buf = Vec::new();
    t.translate("rq", 1_795_996_391, 8 * 3600, Span::new(0, 2), &mut buf, 1);
    assert_eq!(buf.len(), 1);
    assert_eq!(buf[0].text, "2026-11-30");
    t.translate("sj", 1_795_996_391, 8 * 3600, Span::new(0, 2), &mut buf, 1);
    assert_eq!(buf.len(), 1);
}

fn number_translator() -> NumberTranslator {
    let mut tags = TagTable::new();
    NumberTranslator::new(&NumberSpec::default(), vec![tags.intern("number")])
}

#[test]
fn numbers_are_written_in_words_and_in_capitals() {
    let t = number_translator();
    let texts: Vec<String> = t.render("R123").into_iter().map(|(a, _)| a).collect();
    assert!(texts.contains(&"一百二十三".to_owned()), "{texts:?}");
    assert!(texts.contains(&"壹佰贰拾叁".to_owned()), "{texts:?}");
    assert!(t.render("123").is_empty());
    assert!(t.render("Rabc").is_empty());
}

#[test]
fn a_number_is_split_at_its_point() {
    assert_eq!(split_number("12.5"), ("12", Some("5")));
    assert_eq!(split_number("12"), ("12", None));
}

#[test]
fn punctuation_is_no_part_of_a_word() {
    assert_eq!(strip_punct("it's"), "its");
}

#[test]
fn autocap_takes_letters_of_other_scripts() {
    let f = AutoCapFilter;
    let mut v = vec![cand("café"), cand("ca馆"), cand("ca☕")];
    f.apply("Ca", &mut v);
    assert_eq!(v[0].text, "Café");
    assert_eq!(v[1].text, "ca馆", "Chinese text stays");
    assert_eq!(v[2].text, "ca☕");
    f.apply("CAf", &mut v);
    assert_eq!(v[0].text, "CAFÉ");
    let mut w = vec![Candidate {
        kind: CandidateKind::Completion,
        ..cand("-été")
    }];
    f.apply("Et", &mut w);
    assert_eq!(w[0].text, "-Été");
    let mut sharp = vec![Candidate {
        kind: CandidateKind::Completion,
        ..cand("ßa")
    }];
    f.apply("Ss", &mut sharp);
    assert_eq!(sharp[0].text, "SSa", "one capital may take two characters");
}
