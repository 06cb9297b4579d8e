//! What can be wrong with a scheme.

use vstd::prelude::*;
use crate::code::{place_of, place_of_finds};
use crate::lexicon::{first_unknown, unknown_in, Row, Source};
use crate::order::views;
use crate::regex::syntax::{parse, refusal_text, Refusal};
use crate::regex::Regex;
use crate::registry::{unmet_of, unmet_requirements, unmet_view, Availability};
use crate::segmentor::{bad_pattern_text, first_bad, RecognizerError};
use crate::spec::{component_alias, split_alias, RecogPattern};
use crate::text::{holds_text, same_text, starts_at, texts, to_chars};
use super::{data_issues, Diagnostic, Issue, SchemeDef};

verus! {

/// Where the issues of a scheme are found.
pub open spec fn issue_path(id: Seq<char>) -> Seq<char> {
    "scheme:"@ + id
}

fn path_text(id: &str) -> (r: String)
    ensures
        r@ == issue_path(id@),
{
    "scheme:".to_owned().concat(id)
}

/// A unit that the alphabet lacks, in a word.
pub open spec fn unit_issue(id: Seq<char>, unit: Seq<char>, word: Seq<char>) -> Issue {
    Issue {
        path: issue_path(id),
        message: "词条引用了字母表里没有的编码单元「"@ + unit + "」"@,
        field: None,
        entry: Some(word),
    }
}

/// The issues of the first `n` units of a word.
pub open spec fn row_issues(id: Seq<char>, units: Seq<Seq<char>>, row: Row, n: int) -> Seq<Issue>
    decreases n,
{
    if n <= 0 {
        seq![]
    } else {
        let head = row_issues(id, units, row, n - 1);
        if place_of(units, row.units[n - 1], 0) is None {
            head.push(unit_issue(id, row.units[n - 1], row.text))
        } else {
            head
        }
    }
}

/// The issues of the first `n` words.
pub open spec fn rows_issues(id: Seq<char>, units: Seq<Seq<char>>, rows: Seq<Row>, n: int) -> Seq<
    Issue,
>
    decreases n,
{
    if n <= 0 {
        seq![]
    } else {
        rows_issues(id, units, rows, n - 1) + row_issues(
            id,
            units,
            rows[n - 1],
            rows[n - 1].units.len() as int,
        )
    }
}

/// What is wrong with an alphabet, and with words over it.
pub open spec fn entry_issues(id: Seq<char>, units: Seq<Seq<char>>, rows: Seq<Row>) -> Seq<Issue> {
    (if units.len() == 0 {
        seq![
            Issue {
                path: issue_path(id),
                message: "字母表为空：没有任何编码单元可用"@,
                field: None,
                entry: None,
            },
        ]
    } else {
        seq![]
    }) + rows_issues(id, units, rows, rows.len() as int)
}

fn has_unit(alphabet: &Vec<String>, unit: &str) -> (r: bool)
    ensures
        r == place_of(texts(alphabet@), unit@, 0) is Some,
{
    let ghost units = texts(alphabet@);
    let mut i: usize = 0;
    while i < alphabet.len()
        invariant
            i <= alphabet@.len(),
            units == texts(alphabet@),
            place_of(units, unit@, 0) == place_of(units, unit@, i as int),
        decreases alphabet.len() - i,
    {
        assert(units[i as int] == alphabet@[i as int]@);
        if same_text(alphabet[i].as_str(), unit) {
            return true;
        }
        i += 1;
    }
    false
}

/// Finds what is wrong with an alphabet, and with words over it.
pub(crate) fn find_entry_issues(id: &str, alphabet: &Vec<String>, rows: &Vec<Source>) -> (r: Vec<
    Diagnostic,
>)
    ensures
        views(r@) == entry_issues(id@, texts(alphabet@), views(rows@)),
{
    let ghost units = texts(alphabet@);
    let ghost all = views(rows@);
    let path = path_text(id);
    let mut out: Vec<Diagnostic> = Vec::new();
    assert(views(out@) =~= seq![]);
    assert(units.len() == alphabet@.len());
    if alphabet.len() == 0 {
        let d = Diagnostic::new(path.as_str(), "字母表为空：没有任何编码单元可用".to_owned());
        let ghost v = d@;
        out.push(d);
        assert(views(out@) =~= seq![v]);
    }
    let ghost first = views(out@);
    assert(first + seq![] =~= first);
    let mut i: usize = 0;
    while i < rows.len()
        invariant
            i <= rows@.len(),
            path@ == issue_path(id@),
            units == texts(alphabet@),
            all == views(rows@),
            views(out@) == first + rows_issues(id@, units, all, i as int),
        decreases rows.len() - i,
    {
        let row = &rows[i];
        assert(all[i as int] == row@);
        let ghost had = views(out@);
        assert(had + seq![] =~= had);
        let mut k: usize = 0;
        while k < row.units.len()
            invariant
                k <= row.units@.len(),
                path@ == issue_path(id@),
                units == texts(alphabet@),
                views(out@) == had + row_issues(id@, units, row@, k as int),
            decreases row.units.len() - k,
        {
            assert(row@.units[k as int] == row.units@[k as int]@);
            let ghost was = views(out@);
            if !has_unit(alphabet, row.units[k].as_str()) {
                let message = "词条引用了字母表里没有的编码单元「".to_owned().concat(
                    row.units[k].as_str(),
                ).concat("」");
                let d = Diagnostic::new(path.as_str(), message).with_entry(row.text.clone());
                let ghost v = d@;
                out.push(d);
                assert(v == unit_issue(id@, row@.units[k as int], row@.text));
                assert(views(out@) =~= was.push(v));
                assert(views(out@) =~= had + row_issues(id@, units, row@, k + 1));
            }
            k += 1;
        }
        assert(row@.units.len() == row.units@.len());
        assert(views(out@) =~= first + rows_issues(id@, units, all, i + 1));
        i += 1;
    }
    out
}

proof fn no_unit_issue_means_known(
    id: Seq<char>,
    units: Seq<Seq<char>>,
    row: Row,
    n: int,
    from: int,
)
    requires
        0 <= from <= n == row.units.len(),
        row_issues(id, units, row, n).len() == 0,
    ensures
        unknown_in(units, row.units, from) is None,
    decreases n - from,
{
    if from < n {
        no_unit_issue_means_known(id, units, row, n, from + 1);
        row_issues_grow(id, units, row, from + 1, n);
    }
}

proof fn row_issues_grow(id: Seq<char>, units: Seq<Seq<char>>, row: Row, a: int, b: int)
    requires
        0 <= a <= b,
    ensures
        row_issues(id, units, row, a).len() <= row_issues(id, units, row, b).len(),
    decreases b,
{
    if a < b {
        row_issues_grow(id, units, row, a, b - 1);
    }
}

proof fn rows_issues_grow(id: Seq<char>, units: Seq<Seq<char>>, rows: Seq<Row>, a: int, b: int)
    requires
        0 <= a <= b,
    ensures
        rows_issues(id, units, rows, a).len() <= rows_issues(id, units, rows, b).len(),
    decreases b,
{
    if a < b {
        rows_issues_grow(id, units, rows, a, b - 1);
    }
}

/// Where no issue is reported, every word is written with units of the
/// alphabet.
pub proof fn no_row_issue_means_known(
    id: Seq<char>,
    units: Seq<Seq<char>>,
    rows: Seq<Row>,
    from: int,
)
    requires
        0 <= from <= rows.len(),
        entry_issues(id, units, rows).len() == 0,
    ensures
        first_unknown(units, rows, from) is None,
    decreases rows.len() - from,
{
    if from < rows.len() {
        no_row_issue_means_known(id, units, rows, from + 1);
        rows_issues_grow(id, units, rows, from + 1, rows.len() as int);
        no_unit_issue_means_known(
            id,
            units,
            rows[from],
            rows[from].units.len() as int,
            0,
        );
    }
}

// ---------------------------------------------------------------------------
// Patterns
// ---------------------------------------------------------------------------

/// A pattern of the recognizer that does not compile, with its place.
pub open spec fn pattern_issue(id: Seq<char>, p: RecogPattern, reason: Refusal) -> Issue {
    Issue {
        path: issue_path(id),
        message: bad_pattern_text(p.name@, p.regex@, refusal_text(reason), p.at.line as nat),
        field: Some("recognizer/patterns/"@ + p.name@),
        entry: None,
    }
}

/// The issues of the first `n` patterns.
pub open spec fn pattern_issues(id: Seq<char>, ps: Seq<RecogPattern>, n: int) -> Seq<Issue>
    decreases n,
{
    if n <= 0 {
        seq![]
    } else {
        let head = pattern_issues(id, ps, n - 1);
        match parse(ps[n - 1].regex@) {
            Err(e) => head.push(pattern_issue(id, ps[n - 1], e)),
            Ok(_) => head,
        }
    }
}

/// Finds the patterns that do not compile.
pub(crate) fn find_pattern_issues(id: &str, ps: &Vec<RecogPattern>) -> (r: Vec<Diagnostic>)
    ensures
        views(r@) == pattern_issues(id@, ps@, ps@.len() as int),
{
    let path = path_text(id);
    let mut out: Vec<Diagnostic> = Vec::new();
    assert(views(out@) =~= seq![]);
    let mut i: usize = 0;
    while i < ps.len()
        invariant
            i <= ps@.len(),
            path@ == issue_path(id@),
            views(out@) == pattern_issues(id@, ps@, i as int),
        decreases ps.len() - i,
    {
        let p = &ps[i];
        let ghost had = views(out@);
        if let Err(e) = Regex::compile(p.regex.as_str()) {
            let ghost reason = e@;
            let refused = RecognizerError::BadPattern {
                name: p.name.clone(),
                regex: p.regex.clone(),
                reason: e.message(),
                line: p.at.line,
            };
            let field = "recognizer/patterns/".to_owned().concat(p.name.as_str());
            let d = Diagnostic::new(path.as_str(), refused.message()).with_field(field.as_str());
            let ghost v = d@;
            out.push(d);
            assert(v == pattern_issue(id@, ps@[i as int], reason));
            assert(views(out@) =~= had.push(v));
        }
        i += 1;
    }
    out
}

proof fn no_pattern_issue_means_compiled(id: Seq<char>, ps: Seq<RecogPattern>, n: int, from: int)
    requires
        0 <= from <= n == ps.len(),
        pattern_issues(id, ps, n).len() == 0,
    ensures
        first_bad(ps, from) is None,
    decreases n - from,
{
    if from < n {
        no_pattern_issue_means_compiled(id, ps, n, from + 1);
        pattern_issues_grow(id, ps, from + 1, n);
    }
}

proof fn pattern_issues_grow(id: Seq<char>, ps: Seq<RecogPattern>, a: int, b: int)
    requires
        0 <= a <= b,
    ensures
        pattern_issues(id, ps, a).len() <= pattern_issues(id, ps, b).len(),
    decreases b,
{
    if a < b {
        pattern_issues_grow(id, ps, a, b - 1);
    }
}

/// A scheme without issues has all its patterns: none of them fails to compile.
pub proof fn no_pattern_is_dropped(d: SchemeDef)
    requires
        data_issues(d).len() == 0,
    ensures
        first_bad(d.recognizer.patterns@, 0) is None,
{
    let ps = d.recognizer.patterns@;
    no_pattern_issue_means_compiled(d.info.schema_id@, ps, ps.len() as int, 0);
}

// ---------------------------------------------------------------------------
// Components
// ---------------------------------------------------------------------------

/// The components that a scheme declares, in the order in which they are
/// checked.
pub open spec fn declared_names(d: SchemeDef) -> Seq<Seq<char>> {
    texts(d.engine.translators@) + texts(d.engine.filters@) + texts(d.engine.processors@) + texts(
        d.engine.segmentors@,
    )
}

/// A component that cannot be had.
pub open spec fn unmet_issue(id: Seq<char>, u: (Seq<char>, Availability, Seq<char>)) -> Option<Issue> {
    let (name, availability, note) = u;
    let component = component_alias(name).0;
    let path = issue_path(id);
    match availability {
        Availability::Unknown => Some(
            Issue {
                path,
                message: "不认识的零件名 `"@ + component + "`（来自 `"@ + name + "`）"@,
                field: Some(component),
                entry: Some(
                    "方案里的 `engine:` 只能写已实现的零件。运行 `stele --components` 可以打印完整清单"@,
                ),
            },
        ),
        Availability::NotYet => Some(
            Issue {
                path,
                message: "零件 `"@ + component + "` 尚未实现，声明了它也用不上"@,
                field: Some(component),
                entry: Some(note),
            },
        ),
        Availability::NeedsData => Some(
            Issue {
                path,
                message: "零件 `"@ + component + "` 需要外部数据，而这份方案没有提供它"@,
                field: Some(component),
                entry: Some(
                    note + "（实例 `"@ + name + "` 的数据没找到：内联表、或它指向的文件）"@,
                ),
            },
        ),
        _ => None,
    }
}

/// The issues of components that cannot be had.
pub open spec fn unmet_issues(id: Seq<char>, us: Seq<(Seq<char>, Availability, Seq<char>)>) -> Seq<
    Issue,
>
    decreases us.len(),
{
    if us.len() == 0 {
        seq![]
    } else {
        let head = unmet_issues(id, us.drop_last());
        match unmet_issue(id, us.last()) {
            Some(x) => head.push(x),
            None => head,
        }
    }
}

/// Whether a scheme configures an alias.
pub open spec fn configured(d: SchemeDef, alias: Seq<char>) -> bool {
    ||| exists|i: int|
        0 <= i < d.translator_specs@.len() && (#[trigger] d.translator_specs@[i]).0@ == alias
    ||| exists|i: int| 0 <= i < d.affixes@.len() && (#[trigger] d.affixes@[i]).0@ == alias
    ||| exists|i: int|
        0 <= i < d.reverse_lookups@.len() && (#[trigger] d.reverse_lookups@[i]).0@ == alias
    ||| exists|i: int| 0 <= i < d.converters@.len() && (#[trigger] d.converters@[i]).0@ == alias
}

/// A component whose alias is not configured.
pub open spec fn alias_issue(d: SchemeDef, name: Seq<char>) -> Option<Issue> {
    match component_alias(name).1 {
        None => None,
        Some(a) => if configured(d, a) {
            None
        } else {
            Some(
                Issue {
                    path: issue_path(d.info.schema_id@),
                    message: "`"@ + name + "` 需要方案里有一个 `"@ + a
                        + ":` 配置段，但没有找到"@,
                    field: None,
                    entry: None,
                },
            )
        },
    }
}

pub open spec fn alias_issues(d: SchemeDef, names: Seq<Seq<char>>) -> Seq<Issue>
    decreases names.len(),
{
    if names.len() == 0 {
        seq![]
    } else {
        let head = alias_issues(d, names.drop_last());
        match alias_issue(d, names.last()) {
            Some(x) => head.push(x),
            None => head,
        }
    }
}

/// Whether one of some texts starts with another.
pub open spec fn any_starts(ts: Seq<Seq<char>>, p: Seq<char>) -> bool {
    exists|i: int| 0 <= i < ts.len() && p.is_prefix_of(#[trigger] ts[i])
}

/// The switches that the first `n` converters hang on.
pub open spec fn converter_switches(d: SchemeDef, n: int) -> Seq<Seq<char>>
    decreases n,
{
    if n <= 0 {
        seq![]
    } else {
        let head = converter_switches(d, n - 1);
        match d.converters@[n - 1].2.option_name {
            Some(o) => head.push(o@),
            None => head,
        }
    }
}

/// The switches that the components of a scheme hang on.
pub open spec fn needed_switches(d: SchemeDef) -> Seq<Seq<char>> {
    (if texts(d.engine.processors@).contains("ascii_composer"@) {
        seq!["ascii_mode"@]
    } else {
        seq![]
    }) + (if texts(d.engine.processors@).contains("punctuator"@) || any_starts(
        texts(d.engine.segmentors@),
        "punct"@,
    ) {
        seq!["full_shape"@]
    } else {
        seq![]
    }) + converter_switches(d, d.converters@.len() as int)
}

/// Whether a scheme declares a switch.
pub open spec fn has_switch(d: SchemeDef, name: Seq<char>) -> bool {
    exists|i: int| 0 <= i < d.switches@.len() && (#[trigger] d.switches@[i]).name@ == name
}

/// A switch that a component hangs on and that is not declared.
pub open spec fn switch_issue(id: Seq<char>, name: Seq<char>) -> Issue {
    Issue {
        path: issue_path(id),
        message: "零件需要开关 `"@ + name + "`，但 `switches:` 里没有声明它"@,
        field: Some("switches"@),
        entry: Some(
            "未声明的开关不会被静默创建，`set` 会返回 false —— 于是那个功能永远关着"@,
        ),
    }
}

pub open spec fn switch_issues(d: SchemeDef, names: Seq<Seq<char>>) -> Seq<Issue>
    decreases names.len(),
{
    if names.len() == 0 {
        seq![]
    } else {
        let head = switch_issues(d, names.drop_last());
        if has_switch(d, names.last()) {
            head
        } else {
            head.push(switch_issue(d.info.schema_id@, names.last()))
        }
    }
}

/// What is wrong with the components of a scheme: those that cannot be had,
/// those that are not configured, and the switches that are missing. A scheme
/// that declares no component has no such issue.
pub open spec fn component_issues(d: SchemeDef) -> Seq<Issue> {
    let names = declared_names(d);
    if names.len() == 0 {
        seq![]
    } else {
        unmet_issues(d.info.schema_id@, unmet_of(names, d.external_data@)) + alias_issues(d, names)
            + switch_issues(d, needed_switches(d))
    }
}

fn append_texts(out: &mut Vec<String>, more: &Vec<String>)
    ensures
        texts(final(out)@) == texts(old(out)@) + texts(more@),
{
    let ghost before = texts(out@);
    let ghost all = texts(more@);
    let mut i: usize = 0;
    assert(before + all.take(0) =~= before);
    while i < more.len()
        invariant
            i <= more@.len(),
            all == texts(more@),
            texts(out@) == before + all.take(i as int),
        decreases more.len() - i,
    {
        let ghost had = texts(out@);
        out.push(more[i].clone());
        assert(texts(out@) =~= had.push(all[i as int]));
        assert(texts(out@) =~= before + all.take(i + 1));
        i += 1;
    }
    assert(all.take(i as int) =~= all);
}

fn unmet_diagnostic(path: &str, name: &str, availability: Availability, note: &str) -> (r: Option<
    Diagnostic,
>)
    requires
        path@.len() >= 7,
        path@ == issue_path(path@.skip(7)),
    ensures
        match unmet_issue(path@.skip(7), (name@, availability, note@)) {
            Some(x) => r matches Some(d) && d@ == x,
            None => r is None,
        },
{
    let (component, _) = split_alias(name);
    match availability {
        Availability::Unknown => {
            let message = "不认识的零件名 `".to_owned().concat(component).concat(
                "`（来自 `",
            ).concat(name).concat("`）");
            Some(
                Diagnostic::new(path, message).with_field(component).with_entry(
                    "方案里的 `engine:` 只能写已实现的零件。运行 `stele --components` 可以打印完整清单".to_owned(),
                ),
            )
        },
        Availability::NotYet => {
            let message = "零件 `".to_owned().concat(component).concat(
                "` 尚未实现，声明了它也用不上",
            );
            Some(
                Diagnostic::new(path, message).with_field(component).with_entry(note.to_owned()),
            )
        },
        Availability::NeedsData => {
            let message = "零件 `".to_owned().concat(component).concat(
                "` 需要外部数据，而这份方案没有提供它",
            );
            let entry = note.to_owned().concat("（实例 `").concat(name).concat(
                "` 的数据没找到：内联表、或它指向的文件）",
            );
            Some(Diagnostic::new(path, message).with_field(component).with_entry(entry))
        },
        _ => None,
    }
}

fn find_unmet(d: &SchemeDef, path: &str, names: &Vec<String>) -> (r: Vec<Diagnostic>)
    requires
        path@ == issue_path(d.info.schema_id@),
    ensures
        views(r@) == unmet_issues(
            d.info.schema_id@,
            unmet_of(texts(names@), d.external_data@),
        ),
{
    proof {
        reveal_strlit("scheme:");
        assert(path@.skip(7) =~= d.info.schema_id@);
    }
    let ghost id = d.info.schema_id@;
    let mut out: Vec<Diagnostic> = Vec::new();
    assert(views(out@) =~= seq![]);
    let unmet = unmet_requirements(names.as_slice(), d.external_data.as_slice());
    let ghost us = unmet_view(unmet@);
    assert(views(names@) =~= texts(names@));
    assert(us.take(0) =~= seq![]);
    let mut i: usize = 0;
    while i < unmet.len()
        invariant
            i <= unmet@.len(),
            us == unmet_view(unmet@),
            path@ == issue_path(id),
            path@.len() >= 7,
            path@.skip(7) == id,
            views(out@) == unmet_issues(id, us.take(i as int)),
        decreases unmet.len() - i,
    {
        let ghost had = views(out@);
        proof {
            let f = us.take(i + 1);
            assert(f.drop_last() =~= us.take(i as int));
            assert(f.last() == (unmet@[i as int].0@, unmet@[i as int].1, unmet@[i as int].2@));
        }
        if let Some(x) = unmet_diagnostic(path, unmet[i].0.as_str(), unmet[i].1, unmet[i].2) {
            let ghost v = x@;
            out.push(x);
            assert(views(out@) =~= had.push(v));
        }
        i += 1;
    }
    assert(us.take(i as int) =~= us);
    out
}

fn is_configured(d: &SchemeDef, alias: &str) -> (r: bool)
    ensures
        r == configured(*d, alias@),
{
    let mut i: usize = 0;
    while i < d.translator_specs.len()
        invariant
            i <= d.translator_specs@.len(),
            forall|j: int| 0 <= j < i ==> (#[trigger] d.translator_specs@[j]).0@ != alias@,
        decreases d.translator_specs.len() - i,
    {
        if same_text(d.translator_specs[i].0.as_str(), alias) {
            assert(d.translator_specs@[i as int].0@ == alias@);
            return true;
        }
        i += 1;
    }
    let mut j: usize = 0;
    while j < d.affixes.len()
        invariant
            j <= d.affixes@.len(),
            forall|k: int| 0 <= k < j ==> (#[trigger] d.affixes@[k]).0@ != alias@,
        decreases d.affixes.len() - j,
    {
        if same_text(d.affixes[j].0.as_str(), alias) {
            assert(d.affixes@[j as int].0@ == alias@);
            return true;
        }
        j += 1;
    }
    let mut k: usize = 0;
    while k < d.reverse_lookups.len()
        invariant
            k <= d.reverse_lookups@.len(),
            forall|l: int| 0 <= l < k ==> (#[trigger] d.reverse_lookups@[l]).0@ != alias@,
        decreases d.reverse_lookups.len() - k,
    {
        if same_text(d.reverse_lookups[k].0.as_str(), alias) {
            assert(d.reverse_lookups@[k as int].0@ == alias@);
            return true;
        }
        k += 1;
    }
    let mut l: usize = 0;
    while l < d.converters.len()
        invariant
            l <= d.converters@.len(),
            forall|m: int| 0 <= m < l ==> (#[trigger] d.converters@[m]).0@ != alias@,
        decreases d.converters.len() - l,
    {
        if same_text(d.converters[l].0.as_str(), alias) {
            assert(d.converters@[l as int].0@ == alias@);
            return true;
        }
        l += 1;
    }
    false
}

fn find_alias_issues(d: &SchemeDef, path: &str, names: &Vec<String>) -> (r: Vec<Diagnostic>)
    requires
        path@ == issue_path(d.info.schema_id@),
    ensures
        views(r@) == alias_issues(*d, texts(names@)),
{
    let ghost all = texts(names@);
    let mut out: Vec<Diagnostic> = Vec::new();
    assert(views(out@) =~= seq![]);
    assert(all.take(0) =~= seq![]);
    let mut i: usize = 0;
    while i < names.len()
        invariant
            i <= names@.len(),
            all == texts(names@),
            path@ == issue_path(d.info.schema_id@),
            views(out@) == alias_issues(*d, all.take(i as int)),
        decreases names.len() - i,
    {
        let ghost had = views(out@);
        let name = names[i].as_str();
        proof {
            let f = all.take(i + 1);
            assert(f.drop_last() =~= all.take(i as int));
            assert(f.last() == name@);
        }
        let (_, alias) = split_alias(name);
        if let Some(a) = alias {
            if !is_configured(d, a) {
                let message = "`".to_owned().concat(name).concat("` 需要方案里有一个 `").concat(
                    a,
                ).concat(":` 配置段，但没有找到");
                let x = Diagnostic::new(path, message);
                let ghost v = x@;
                out.push(x);
                assert(alias_issue(*d, name@) == Some(v));
                assert(views(out@) =~= had.push(v));
            }
        }
        i += 1;
    }
    assert(all.take(i as int) =~= all);
    out
}

fn any_name_starts(names: &Vec<String>, p: &str) -> (r: bool)
    ensures
        r == any_starts(texts(names@), p@),
{
    let mut i: usize = 0;
    while i < names.len()
        invariant
            i <= names@.len(),
            forall|j: int| 0 <= j < i ==> !p@.is_prefix_of(#[trigger] texts(names@)[j]),
        decreases names.len() - i,
    {
        assert(texts(names@)[i as int] == names@[i as int]@);
        let cs = to_chars(names[i].as_str());
        assert(cs@.skip(0) =~= cs@);
        if starts_at(&cs, 0, p) {
            return true;
        }
        i += 1;
    }
    assert(texts(names@).len() == names@.len());
    false
}

fn find_needed_switches(d: &SchemeDef) -> (r: Vec<String>)
    ensures
        texts(r@) == needed_switches(*d),
{
    let mut out: Vec<String> = Vec::new();
    assert(texts(out@) =~= seq![]);
    if holds_text(&d.engine.processors, "ascii_composer") {
        out.push("ascii_mode".to_owned());
        assert(texts(out@) =~= seq!["ascii_mode"@]);
    }
    let ghost a = texts(out@);
    if holds_text(&d.engine.processors, "punctuator") || any_name_starts(
        &d.engine.segmentors,
        "punct",
    ) {
        out.push("full_shape".to_owned());
        assert(texts(out@) =~= a + seq!["full_shape"@]);
    } else {
        assert(a + seq![] =~= a);
    }
    let ghost b = texts(out@);
    assert(b + seq![] =~= b);
    let mut i: usize = 0;
    while i < d.converters.len()
        invariant
            i <= d.converters@.len(),
            texts(out@) == b + converter_switches(*d, i as int),
        decreases d.converters.len() - i,
    {
        let ghost had = texts(out@);
        if let Some(o) = &d.converters[i].2.option_name {
            out.push(o.clone());
            assert(texts(out@) =~= had.push(o@));
            assert(texts(out@) =~= b + converter_switches(*d, i + 1));
        }
        i += 1;
    }
    out
}

fn declares_switch(d: &SchemeDef, name: &str) -> (r: bool)
    ensures
        r == has_switch(*d, name@),
{
    let mut i: usize = 0;
    while i < d.switches.len()
        invariant
            i <= d.switches@.len(),
            forall|j: int| 0 <= j < i ==> (#[trigger] d.switches@[j]).name@ != name@,
        decreases d.switches.len() - i,
    {
        if same_text(d.switches[i].name.as_str(), name) {
            assert(d.switches@[i as int].name@ == name@);
            return true;
        }
        i += 1;
    }
    false
}

fn find_switch_issues(d: &SchemeDef, path: &str) -> (r: Vec<Diagnostic>)
    requires
        path@ == issue_path(d.info.schema_id@),
    ensures
        views(r@) == switch_issues(*d, needed_switches(*d)),
{
    let needed = find_needed_switches(d);
    let ghost all = texts(needed@);
    let mut out: Vec<Diagnostic> = Vec::new();
    assert(views(out@) =~= seq![]);
    assert(all.take(0) =~= seq![]);
    let mut i: usize = 0;
    while i < needed.len()
        invariant
            i <= needed@.len(),
            all == texts(needed@),
            path@ == issue_path(d.info.schema_id@),
            views(out@) == switch_issues(*d, all.take(i as int)),
        decreases needed.len() - i,
    {
        let ghost had = views(out@);
        let name = needed[i].as_str();
        proof {
            let f = all.take(i + 1);
            assert(f.drop_last() =~= all.take(i as int));
            assert(f.last() == name@);
        }
        if !declares_switch(d, name) {
            let message = "零件需要开关 `".to_owned().concat(name).concat(
                "`，但 `switches:` 里没有声明它",
            );
            let x = Diagnostic::new(path, message).with_field("switches").with_entry(
                "未声明的开关不会被静默创建，`set` 会返回 false —— 于是那个功能永远关着".to_owned(),
            );
            let ghost v = x@;
            assert(v == switch_issue(d.info.schema_id@, name@));
            out.push(x);
            assert(views(out@) =~= had.push(v));
        }
        i += 1;
    }
    assert(all.take(i as int) =~= all);
    out
}

pub(crate) fn append_diagnostics(out: &mut Vec<Diagnostic>, more: Vec<Diagnostic>)
    ensures
        views(final(out)@) == views(old(out)@) + views(more@),
{
    let ghost before = out@;
    let mut rest = more;
    out.append(&mut rest);
    assert(views(out@) =~= views(before) + views(more@));
}

/// Finds what is wrong with the components of a scheme. None of it would be
/// noticed otherwise: the component would just never do anything.
pub fn check_declared_components(d: &SchemeDef) -> (r: Vec<Diagnostic>)
    ensures
        views(r@) == component_issues(*d),
{
    let mut out: Vec<Diagnostic> = Vec::new();
    assert(views(out@) =~= seq![]);
    assert(declared_names(*d).len() == d.engine.translators@.len() + d.engine.filters@.len()
        + d.engine.processors@.len() + d.engine.segmentors@.len());
    if !d.engine.is_declared() {
        return out;
    }
    let mut names: Vec<String> = Vec::new();
    assert(texts(names@) =~= seq![]);
    append_texts(&mut names, &d.engine.translators);
    append_texts(&mut names, &d.engine.filters);
    append_texts(&mut names, &d.engine.processors);
    append_texts(&mut names, &d.engine.segmentors);
    assert(texts(names@) =~= declared_names(*d));
    let path = path_text(d.info.schema_id.as_str());
    let a = find_unmet(d, path.as_str(), &names);
    let b = find_alias_issues(d, path.as_str(), &names);
    let c = find_switch_issues(d, path.as_str());
    append_diagnostics(&mut out, a);
    append_diagnostics(&mut out, b);
    append_diagnostics(&mut out, c);
    assert(views(out@) =~= component_issues(*d));
    out
}

/// Every unit of a word that the alphabet lacks is reported, with the word; a
/// word that is spelled with known units is not.
pub proof fn unknown_units_are_reported(
    id: Seq<char>,
    units: Seq<Seq<char>>,
    row: Row,
    n: int,
    k: int,
)
    requires
        0 <= n <= row.units.len(),
        0 <= k < n,
    ensures
        !units.contains(row.units[k]) ==> exists|i: int|
            {
                &&& 0 <= i < row_issues(id, units, row, n).len()
                &&& (#[trigger] row_issues(id, units, row, n)[i]).entry == Some(row.text)
                &&& row_issues(id, units, row, n)[i] == unit_issue(id, row.units[k], row.text)
            },
        (forall|j: int| 0 <= j < n ==> units.contains(#[trigger] row.units[j])) ==> row_issues(
            id,
            units,
            row,
            n,
        ).len() == 0,
    decreases n,
{
    place_of_finds(units, row.units[n - 1], 0);
    let head = row_issues(id, units, row, n - 1);
    let all = row_issues(id, units, row, n);
    if k < n - 1 {
        unknown_units_are_reported(id, units, row, n - 1, k);
        if !units.contains(row.units[k]) {
            let i = choose|i: int|
                {
                    &&& 0 <= i < head.len()
                    &&& (#[trigger] head[i]).entry == Some(row.text)
                    &&& head[i] == unit_issue(id, row.units[k], row.text)
                };
            assert(all[i] == head[i]);
        }
    } else {
        if n > 1 {
            unknown_units_are_reported(id, units, row, n - 1, 0);
        }
        if !units.contains(row.units[k]) {
            if let Some(p) = place_of(units, row.units[k], 0) {
                assert(units[p] == row.units[k]);
            }
            assert(all[all.len() - 1] == unit_issue(id, row.units[k], row.text));
        }
    }
    if forall|j: int| 0 <= j < n ==> units.contains(#[trigger] row.units[j]) {
        assert(units.contains(row.units[n - 1]));
    }
}

/// A switch that is needed is reported exactly where it is not declared, and in
/// the order in which switches are needed.
pub proof fn missing_switches_are_reported(d: SchemeDef, a: Seq<Seq<char>>, name: Seq<char>)
    ensures
        (exists|i: int| 0 <= i < d.switches@.len() && (#[trigger] d.switches@[i]).name@ == name)
            ==> switch_issues(d, a.push(name)) == switch_issues(d, a),
        (forall|i: int| 0 <= i < d.switches@.len() ==> (#[trigger] d.switches@[i]).name@ != name)
            ==> switch_issues(d, a.push(name)) == switch_issues(d, a).push(
            switch_issue(d.info.schema_id@, name),
        ),
        switch_issues(d, seq![]).len() == 0,
{
    assert(a.push(name).drop_last() =~= a);
}

} // verus!
