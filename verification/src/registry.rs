//! The components that schemes may name, and which of them are available.

use vstd::prelude::*;
use crate::order::{dedup_by, dedup_from, dedup_covers, dedup_vec, in_order};
use crate::order::{sort_by, sort_vec, sorted_from, sorting_orders, views, weak_order};
use crate::spec::{alias_mark, component_alias, find_mark, split_alias};
use crate::text::{
    decimal, decimal_text, part, same_text, text_before, text_less, text_less_total,
    text_less_transitive, to_chars,
};

verus! {

/// The place of a component in the pipeline.
#[derive(Clone, Copy, PartialEq, Eq, Debug, Structural)]
pub enum Slot {
    Processor,
    Segmentor,
    Translator,
    Filter,
}

/// Whether a component can be used.
#[derive(Clone, Copy, PartialEq, Eq, Debug, Structural)]
pub enum Availability {
    Implemented,
    /// It works once it is given data from outside.
    NeedsData,
    NotYet,
    /// It has no counterpart here, and none is missing.
    NotApplicable,
    Unknown,
}

/// What an availability means, in words.
pub open spec fn availability_note(a: Availability) -> Seq<char> {
    match a {
        Availability::Implemented => "已实现"@,
        Availability::NeedsData => "机制已实现，但需要外部数据"@,
        Availability::NotYet => "尚未实现"@,
        Availability::NotApplicable => "在我们这个架构里不适用（不是缺口）"@,
        Availability::Unknown => "不认识这个名字"@,
    }
}

impl Availability {
    /// What it means, in words.
    #[must_use]
    pub fn note(self) -> (r: &'static str)
        ensures
            r@ == availability_note(self),
    {
        match self {
            Availability::Implemented => "已实现",
            Availability::NeedsData => "机制已实现，但需要外部数据",
            Availability::NotYet => "尚未实现",
            Availability::NotApplicable => "在我们这个架构里不适用（不是缺口）",
            Availability::Unknown => "不认识这个名字",
        }
    }
}

/// One known component.
#[derive(Clone, Copy, Debug)]
pub struct Entry {
    pub name: &'static str,
    pub slot: Slot,
    pub availability: Availability,
    pub note: &'static str,
}

/// The mathematical reading of an [`Entry`].
pub struct Component {
    pub name: Seq<char>,
    pub slot: Slot,
    pub availability: Availability,
    pub note: Seq<char>,
}

impl View for Entry {
    type V = Component;

    open spec fn view(&self) -> Component {
        Component {
            name: self.name@,
            slot: self.slot,
            availability: self.availability,
            note: self.note@,
        }
    }
}

/// All known components.
pub open spec fn components() -> Seq<Component> {
    seq![
        Component {
            name: "speller"@,
            slot: Slot::Processor,
            availability: Availability::Implemented,
            note: "把可打印字符收进输入串"@,
        },
        Component {
            name: "select_character"@,
            slot: Slot::Processor,
            availability: Availability::Implemented,
            note: "以词定字（用标点/数字从候选里定字）"@,
        },
        Component {
            name: "selector"@,
            slot: Slot::Processor,
            availability: Availability::Implemented,
            note: "空格/回车/数字选词"@,
        },
        Component {
            name: "express_editor"@,
            slot: Slot::Processor,
            availability: Availability::Implemented,
            note: "退格与取消（含按音节退格）"@,
        },
        Component {
            name: "editor"@,
            slot: Slot::Processor,
            availability: Availability::Implemented,
            note: "退格与取消"@,
        },
        Component {
            name: "ascii_composer"@,
            slot: Slot::Processor,
            availability: Availability::Implemented,
            note: "中英切换、Shift/Caps 处理"@,
        },
        Component {
            name: "navigator"@,
            slot: Slot::Processor,
            availability: Availability::Implemented,
            note: "翻页键"@,
        },
        Component {
            name: "punctuator"@,
            slot: Slot::Processor,
            availability: Availability::Implemented,
            note: "标点直出与符号表"@,
        },
        Component {
            name: "key_binder"@,
            slot: Slot::Processor,
            availability: Availability::Implemented,
            note: "按键重绑定"@,
        },
        Component {
            name: "recognizer"@,
            slot: Slot::Processor,
            availability: Availability::Implemented,
            note: "前缀模式扫描（认出 → 打标签）"@,
        },
        Component {
            name: "chord_composer"@,
            slot: Slot::Processor,
            availability: Availability::NotYet,
            note: "并击输入（需要时序能力，见 G13）"@,
        },
        Component {
            name: "affix_segmentor"@,
            slot: Slot::Segmentor,
            availability: Availability::Implemented,
            note: "带前缀/后缀的切分（拆字辅码用）"@,
        },
        Component {
            name: "abc_segmentor"@,
            slot: Slot::Segmentor,
            availability: Availability::Implemented,
            note: "标记拼音段"@,
        },
        Component {
            name: "ascii_segmentor"@,
            slot: Slot::Segmentor,
            availability: Availability::Implemented,
            note: "标记非编码段"@,
        },
        Component {
            name: "matcher"@,
            slot: Slot::Segmentor,
            availability: Availability::Implemented,
            note: "按 recognizer 的模式切分"@,
        },
        Component {
            name: "punct_segmentor"@,
            slot: Slot::Segmentor,
            availability: Availability::Implemented,
            note: "标点段"@,
        },
        Component {
            name: "fallback_segmentor"@,
            slot: Slot::Segmentor,
            availability: Availability::Implemented,
            note: "兜底，保证输入总能上屏"@,
        },
        Component {
            name: "date_translator"@,
            slot: Slot::Translator,
            availability: Availability::Implemented,
            note: "日期/时间/星期/时间戳/中英日期"@,
        },
        Component {
            name: "unicode_translator"@,
            slot: Slot::Translator,
            availability: Availability::Implemented,
            note: "U<hex> → Unicode 字符（含同区后续码位）"@,
        },
        Component {
            name: "uuid_translator"@,
            slot: Slot::Translator,
            availability: Availability::Implemented,
            note: "触发词 → UUID"@,
        },
        Component {
            name: "reduce_english_filter"@,
            slot: Slot::Filter,
            availability: Availability::Implemented,
            note: "降低英文候选位置（all / custom / none 三种模式）"@,
        },
        Component {
            name: "pin_cand_filter"@,
            slot: Slot::Filter,
            availability: Availability::Implemented,
            note: "置顶候选（含最后一个音节的简码派生）"@,
        },
        Component {
            name: "v_filter"@,
            slot: Slot::Filter,
            availability: Availability::Implemented,
            note: "v 模式单字优先（敲 v+一个字符时）"@,
        },
        Component {
            name: "long_word_filter"@,
            slot: Slot::Filter,
            availability: Availability::Implemented,
            note: "长词优先（从第 idx 位提升 count 个更长的词）"@,
        },
        Component {
            name: "autocap_filter"@,
            slot: Slot::Filter,
            availability: Availability::Implemented,
            note: "英文自动大写（输入码首字母/前两位大写）"@,
        },
        Component {
            name: "force_gc"@,
            slot: Slot::Filter,
            availability: Availability::NotApplicable,
            note: "Lua 的手动 GC 在 Rust 里不存在（见 NotApplicable 的说明）"@,
        },
        Component {
            name: "script_translator"@,
            slot: Slot::Translator,
            availability: Availability::Implemented,
            note: "拼写图族（拼音、双拼）"@,
        },
        Component {
            name: "table_translator"@,
            slot: Slot::Translator,
            availability: Availability::Implemented,
            note: "精确编码族（仓颉、五笔、英文、短语）"@,
        },
        Component {
            name: "punct_translator"@,
            slot: Slot::Translator,
            availability: Availability::Implemented,
            note: "标点候选（含符号表）"@,
        },
        Component {
            name: "echo_translator"@,
            slot: Slot::Translator,
            availability: Availability::Implemented,
            note: "原样上屏兜底"@,
        },
        Component {
            name: "reverse_lookup_translator"@,
            slot: Slot::Translator,
            availability: Availability::NeedsData,
            note: "反查（需反查词典）"@,
        },
        Component {
            name: "uniquifier"@,
            slot: Slot::Filter,
            availability: Availability::Implemented,
            note: "去重"@,
        },
        Component {
            name: "simplifier"@,
            slot: Slot::Filter,
            availability: Availability::NeedsData,
            note: "简繁/Emoji 转换（需 OpenCC 数据）"@,
        },
        Component {
            name: "reverse_lookup_filter"@,
            slot: Slot::Filter,
            availability: Availability::Implemented,
            note: "反查提示（数据由装载器提供）"@,
        },
        Component {
            name: "charset_filter"@,
            slot: Slot::Filter,
            availability: Availability::NotYet,
            note: "字符集过滤"@,
        },
        Component {
            name: "single_char_filter"@,
            slot: Slot::Filter,
            availability: Availability::NotYet,
            note: "只留单字"@,
        },
    ]
}

fn entries() -> (r: Vec<Entry>)
    ensures
        views(r@) == components(),
{
    let r = vec![
        Entry {
            name: "speller",
            slot: Slot::Processor,
            availability: Availability::Implemented,
            note: "把可打印字符收进输入串",
        },
        Entry {
            name: "select_character",
            slot: Slot::Processor,
            availability: Availability::Implemented,
            note: "以词定字（用标点/数字从候选里定字）",
        },
        Entry {
            name: "selector",
            slot: Slot::Processor,
            availability: Availability::Implemented,
            note: "空格/回车/数字选词",
        },
        Entry {
            name: "express_editor",
            slot: Slot::Processor,
            availability: Availability::Implemented,
            note: "退格与取消（含按音节退格）",
        },
        Entry {
            name: "editor",
            slot: Slot::Processor,
            availability: Availability::Implemented,
            note: "退格与取消",
        },
        Entry {
            name: "ascii_composer",
            slot: Slot::Processor,
            availability: Availability::Implemented,
            note: "中英切换、Shift/Caps 处理",
        },
        Entry {
            name: "navigator",
            slot: Slot::Processor,
            availability: Availability::Implemented,
            note: "翻页键",
        },
        Entry {
            name: "punctuator",
            slot: Slot::Processor,
            availability: Availability::Implemented,
            note: "标点直出与符号表",
        },
        Entry {
            name: "key_binder",
            slot: Slot::Processor,
            availability: Availability::Implemented,
            note: "按键重绑定",
        },
        Entry {
            name: "recognizer",
            slot: Slot::Processor,
            availability: Availability::Implemented,
            note: "前缀模式扫描（认出 → 打标签）",
        },
        Entry {
            name: "chord_composer",
            slot: Slot::Processor,
            availability: Availability::NotYet,
            note: "并击输入（需要时序能力，见 G13）",
        },
        Entry {
            name: "affix_segmentor",
            slot: Slot::Segmentor,
            availability: Availability::Implemented,
            note: "带前缀/后缀的切分（拆字辅码用）",
        },
        Entry {
            name: "abc_segmentor",
            slot: Slot::Segmentor,
            availability: Availability::Implemented,
            note: "标记拼音段",
        },
        Entry {
            name: "ascii_segmentor",
            slot: Slot::Segmentor,
            availability: Availability::Implemented,
            note: "标记非编码段",
        },
        Entry {
            name: "matcher",
            slot: Slot::Segmentor,
            availability: Availability::Implemented,
            note: "按 recognizer 的模式切分",
        },
        Entry {
            name: "punct_segmentor",
            slot: Slot::Segmentor,
            availability: Availability::Implemented,
            note: "标点段",
        },
        Entry {
            name: "fallback_segmentor",
            slot: Slot::Segmentor,
            availability: Availability::Implemented,
            note: "兜底，保证输入总能上屏",
        },
        Entry {
            name: "date_translator",
            slot: Slot::Translator,
            availability: Availability::Implemented,
            note: "日期/时间/星期/时间戳/中英日期",
        },
        Entry {
            name: "unicode_translator",
            slot: Slot::Translator,
            availability: Availability::Implemented,
            note: "U<hex> → Unicode 字符（含同区后续码位）",
        },
        Entry {
            name: "uuid_translator",
            slot: Slot::Translator,
            availability: Availability::Implemented,
            note: "触发词 → UUID",
        },
        Entry {
            name: "reduce_english_filter",
            slot: Slot::Filter,
            availability: Availability::Implemented,
            note: "降低英文候选位置（all / custom / none 三种模式）",
        },
        Entry {
            name: "pin_cand_filter",
            slot: Slot::Filter,
            availability: Availability::Implemented,
            note: "置顶候选（含最后一个音节的简码派生）",
        },
        Entry {
            name: "v_filter",
            slot: Slot::Filter,
            availability: Availability::Implemented,
            note: "v 模式单字优先（敲 v+一个字符时）",
        },
        Entry {
            name: "long_word_filter",
            slot: Slot::Filter,
            availability: Availability::Implemented,
            note: "长词优先（从第 idx 位提升 count 个更长的词）",
        },
        Entry {
            name: "autocap_filter",
            slot: Slot::Filter,
            availability: Availability::Implemented,
            note: "英文自动大写（输入码首字母/前两位大写）",
        },
        Entry {
            name: "force_gc",
            slot: Slot::Filter,
            availability: Availability::NotApplicable,
            note: "Lua 的手动 GC 在 Rust 里不存在（见 NotApplicable 的说明）",
        },
        Entry {
            name: "script_translator",
            slot: Slot::Translator,
            availability: Availability::Implemented,
            note: "拼写图族（拼音、双拼）",
        },
        Entry {
            name: "table_translator",
            slot: Slot::Translator,
            availability: Availability::Implemented,
            note: "精确编码族（仓颉、五笔、英文、短语）",
        },
        Entry {
            name: "punct_translator",
            slot: Slot::Translator,
            availability: Availability::Implemented,
            note: "标点候选（含符号表）",
        },
        Entry {
            name: "echo_translator",
            slot: Slot::Translator,
            availability: Availability::Implemented,
            note: "原样上屏兜底",
        },
        Entry {
            name: "reverse_lookup_translator",
            slot: Slot::Translator,
            availability: Availability::NeedsData,
            note: "反查（需反查词典）",
        },
        Entry {
            name: "uniquifier",
            slot: Slot::Filter,
            availability: Availability::Implemented,
            note: "去重",
        },
        Entry {
            name: "simplifier",
            slot: Slot::Filter,
            availability: Availability::NeedsData,
            note: "简繁/Emoji 转换（需 OpenCC 数据）",
        },
        Entry {
            name: "reverse_lookup_filter",
            slot: Slot::Filter,
            availability: Availability::Implemented,
            note: "反查提示（数据由装载器提供）",
        },
        Entry {
            name: "charset_filter",
            slot: Slot::Filter,
            availability: Availability::NotYet,
            note: "字符集过滤",
        },
        Entry {
            name: "single_char_filter",
            slot: Slot::Filter,
            availability: Availability::NotYet,
            note: "只留单字",
        },
    ];
    assert(views(r@) =~= components());
    r
}

/// The first component called `base`, from `from` on.
pub open spec fn find_component(cs: Seq<Component>, base: Seq<char>, from: int) -> Option<Component>
    decreases cs.len() - from,
{
    if from < 0 || from >= cs.len() {
        None
    } else if cs[from].name == base {
        Some(cs[from])
    } else {
        find_component(cs, base, from + 1)
    }
}

/// A name without what stands behind its first `@`.
pub open spec fn base_name(name: Seq<char>) -> Seq<char> {
    match alias_mark(name, 0) {
        Some(i) => name.take(i),
        None => name,
    }
}

/// What is known of a component, whatever its alias.
pub open spec fn known_as(name: Seq<char>) -> (Availability, Slot, Seq<char>) {
    match find_component(components(), base_name(name), 0) {
        Some(c) => (c.availability, c.slot, c.note),
        None => (Availability::Unknown, Slot::Filter, ""@),
    }
}

fn find(name: &str) -> (r: Option<Entry>)
    ensures
        match find_component(components(), base_name(name@), 0) {
            Some(c) => r matches Some(e) && e@ == c,
            None => r is None,
        },
{
    let cs = to_chars(name);
    let end: usize = match find_mark(&cs) {
        Some(i) => i,
        None => cs.len(),
    };
    let base = part(&cs, 0, end);
    assert(base@ =~= base_name(name@));
    let all = entries();
    let mut i: usize = 0;
    while i < all.len()
        invariant
            i <= all.len(),
            views(all@) == components(),
            base@ == base_name(name@),
            find_component(components(), base@, 0) == find_component(components(), base@, i as int),
        decreases all.len() - i,
    {
        assert(components()[i as int] == all@[i as int]@);
        if same_text(all[i].name, base.as_str()) {
            return Some(all[i]);
        }
        i += 1;
    }
    None
}

/// What is known of a component, whatever its alias.
#[must_use]
pub fn lookup(name: &str) -> (r: (Availability, Slot, &'static str))
    ensures
        r.0 == known_as(name@).0,
        r.1 == known_as(name@).1,
        r.2@ == known_as(name@).2,
{
    match find(name) {
        Some(e) => (e.availability, e.slot, e.note),
        None => (Availability::Unknown, Slot::Filter, ""),
    }
}

/// Whether a component is known at all.
#[must_use]
pub fn is_known(name: &str) -> (r: bool)
    ensures
        r == find_component(components(), base_name(name@), 0) is Some,
{
    find(name).is_some()
}

/// Data that a component was given from outside.
#[derive(Clone, Copy, Debug, PartialEq, Eq)]
pub struct ExternalData<'a> {
    pub alias: &'a str,
    pub present: bool,
}

/// Whether data were given for an alias.
pub open spec fn data_given(external: Seq<ExternalData>, alias: Option<Seq<char>>) -> bool {
    match alias {
        None => false,
        Some(a) => exists|i: int|
            0 <= i < external.len() && (#[trigger] external[i]).alias@ == a && external[i].present,
    }
}

/// Whether a name asks for something that is not there.
pub open spec fn unmet(name: Seq<char>, external: Seq<ExternalData>) -> bool {
    match known_as(name).0 {
        Availability::NotApplicable => false,
        Availability::Implemented => false,
        Availability::NotYet => true,
        Availability::Unknown => true,
        Availability::NeedsData => !data_given(external, component_alias(name).1),
    }
}

/// The names among `names` that ask for something that is not there, in order.
pub open spec fn unmet_of(names: Seq<Seq<char>>, external: Seq<ExternalData>) -> Seq<
    (Seq<char>, Availability, Seq<char>),
>
    decreases names.len(),
{
    if names.len() == 0 {
        seq![]
    } else {
        let head = unmet_of(names.drop_last(), external);
        let n = names.last();
        if unmet(n, external) {
            head.push((n, known_as(n).0, known_as(n).2))
        } else {
            head
        }
    }
}

pub open spec fn unmet_view(v: Seq<(String, Availability, &'static str)>) -> Seq<
    (Seq<char>, Availability, Seq<char>),
> {
    Seq::new(v.len(), |i: int| (v[i].0@, v[i].1, v[i].2@))
}

/// The components that a scheme needs and cannot have, with the reasons.
#[must_use]
pub fn unmet_requirements(names: &[String], external: &[ExternalData<'_>]) -> (r: Vec<
    (String, Availability, &'static str),
>)
    ensures
        unmet_view(r@) == unmet_of(views(names@), external@),
{
    let mut out: Vec<(String, Availability, &'static str)> = Vec::new();
    let ghost all = views(names@);
    let mut n: usize = 0;
    assert(all.take(0) =~= seq![]);
    assert(unmet_view(out@) =~= seq![]);
    while n < names.len()
        invariant
            n <= names.len(),
            all == views(names@),
            unmet_view(out@) == unmet_of(all.take(n as int), external@),
        decreases names.len() - n,
    {
        let name = &names[n];
        let ghost had = out@;
        proof {
            let t = all.take(n + 1);
            assert(t.drop_last() =~= all.take(n as int));
            assert(t.last() == name@);
        }
        let (availability, _, note) = lookup(name.as_str());
        let lacking = match availability {
            Availability::NotApplicable | Availability::Implemented => false,
            Availability::NotYet | Availability::Unknown => true,
            Availability::NeedsData => {
                let (_, alias) = split_alias(name.as_str());
                let mut present = false;
                if let Some(a) = alias {
                    let mut i: usize = 0;
                    while i < external.len() && !present
                        invariant
                            i <= external.len(),
                            component_alias(name@).1 == Some(a@),
                            present ==> data_given(external@, Some(a@)),
                            !present ==> forall|j: int|
                                0 <= j < i ==> !((#[trigger] external@[j]).alias@ == a@
                                    && external@[j].present),
                        decreases external.len() - i,
                    {
                        if external[i].present && same_text(external[i].alias, a) {
                            assert(external@[i as int].alias@ == a@);
                            present = true;
                        }
                        i += 1;
                    }
                }
                !present
            },
        };
        assert(lacking == unmet(name@, external@));
        if lacking {
            out.push((name.clone(), availability, note));
            assert(unmet_view(out@) =~= unmet_view(had).push(
                (name@, known_as(name@).0, known_as(name@).2),
            ));
        }
        n += 1;
    }
    assert(all.take(n as int) =~= all);
    out
}

/// The names of the components with an availability, as listed.
pub open spec fn listed_with(cs: Seq<Component>, a: Availability) -> Seq<Seq<char>>
    decreases cs.len(),
{
    if cs.len() == 0 {
        seq![]
    } else {
        let head = listed_with(cs.drop_last(), a);
        if cs.last().availability == a {
            head.push(cs.last().name)
        } else {
            head
        }
    }
}

/// Texts in order, each once.
pub open spec fn sorted_set(s: Seq<Seq<char>>) -> Seq<Seq<char>> {
    dedup_by(
        sort_by(s, |a: Seq<char>, b: Seq<char>| text_less(a, b)),
        |a: Seq<char>, b: Seq<char>| a == b,
    )
}

fn name_before(a: &&'static str, b: &&'static str) -> (r: bool)
    ensures
        r == text_less(a@, b@),
{
    text_before(*a, *b)
}

fn name_same(a: &&'static str, b: &&'static str) -> (r: bool)
    ensures
        r == (a@ == b@),
{
    same_text(*a, *b)
}

fn names_with(a: Availability) -> (r: Vec<&'static str>)
    ensures
        views(r@) == sorted_set(listed_with(components(), a)),
{
    let all = entries();
    let mut v: Vec<&'static str> = Vec::new();
    let mut i: usize = 0;
    assert(components().take(0) =~= seq![]);
    assert(views(v@) =~= seq![]);
    while i < all.len()
        invariant
            i <= all.len(),
            views(all@) == components(),
            views(v@) == listed_with(components().take(i as int), a),
        decreases all.len() - i,
    {
        let ghost had = v@;
        proof {
            let t = components().take(i + 1);
            assert(t.drop_last() =~= components().take(i as int));
            assert(t.last() == all@[i as int]@);
        }
        if all[i].availability == a {
            v.push(all[i].name);
            assert(views(v@) =~= views(had).push(all@[i as int].name@));
        }
        i += 1;
    }
    assert(components().take(i as int) =~= components());
    let sorted = sort_vec(
        v,
        name_before,
        Ghost(|x: Seq<char>, y: Seq<char>| text_less(x, y)),
    );
    dedup_vec(sorted, name_same, Ghost(|x: Seq<char>, y: Seq<char>| x == y))
}

/// The names of the components that work, in order.
#[must_use]
pub fn implemented_names() -> (r: Vec<&'static str>)
    ensures
        views(r@) == sorted_set(listed_with(components(), Availability::Implemented)),
{
    names_with(Availability::Implemented)
}

/// The names of the components still to be written, in order.
#[must_use]
pub fn missing_names() -> (r: Vec<&'static str>)
    ensures
        views(r@) == sorted_set(listed_with(components(), Availability::NotYet)),
{
    names_with(Availability::NotYet)
}

/// The names of the components that have no counterpart, in order.
#[must_use]
pub fn not_applicable_names() -> (r: Vec<&'static str>)
    ensures
        views(r@) == sorted_set(listed_with(components(), Availability::NotApplicable)),
{
    names_with(Availability::NotApplicable)
}

/// The names of the components that need data from outside, in order.
#[must_use]
pub fn needs_data_names() -> (r: Vec<&'static str>)
    ensures
        views(r@) == sorted_set(listed_with(components(), Availability::NeedsData)),
{
    names_with(Availability::NeedsData)
}

/// How far the components that a scheme names are available.
#[derive(Debug, PartialEq, Eq)]
pub struct CoverageReport {
    pub required: Vec<String>,
    pub implemented: Vec<String>,
    pub needs_data: Vec<String>,
    pub not_yet: Vec<String>,
    pub not_applicable: Vec<String>,
    pub unknown: Vec<String>,
}

/// The names among `names` with an availability, in order.
pub open spec fn names_known_as(names: Seq<Seq<char>>, a: Availability) -> Seq<Seq<char>>
    decreases names.len(),
{
    if names.len() == 0 {
        seq![]
    } else {
        let head = names_known_as(names.drop_last(), a);
        if known_as(names.last()).0 == a {
            head.push(names.last())
        } else {
            head
        }
    }
}

fn string_before(a: &String, b: &String) -> (r: bool)
    ensures
        r == text_less(a@, b@),
{
    text_before(a.as_str(), b.as_str())
}

fn string_same(a: &String, b: &String) -> (r: bool)
    ensures
        r == (a@ == b@),
{
    same_text(a.as_str(), b.as_str())
}

impl CoverageReport {
    /// Sorts the names that a scheme uses by what is known of them.
    #[must_use]
    pub fn of(names: &[String]) -> (r: Self)
        ensures
            views(r.required@) == sorted_set(views(names@)),
            views(r.implemented@) == names_known_as(
                views(r.required@),
                Availability::Implemented,
            ),
            views(r.needs_data@) == names_known_as(views(r.required@), Availability::NeedsData),
            views(r.not_yet@) == names_known_as(views(r.required@), Availability::NotYet),
            views(r.not_applicable@) == names_known_as(
                views(r.required@),
                Availability::NotApplicable,
            ),
            views(r.unknown@) == names_known_as(views(r.required@), Availability::Unknown),
    {
        let mut copy: Vec<String> = Vec::new();
        let mut i: usize = 0;
        while i < names.len()
            invariant
                i <= names.len(),
                copy@.len() == i,
                forall|j: int| 0 <= j < i ==> (#[trigger] copy@[j])@ == names@[j]@,
            decreases names.len() - i,
        {
            copy.push(names[i].clone());
            i += 1;
        }
        assert(views(copy@) =~= views(names@));
        let sorted = sort_vec(
            copy,
            string_before,
            Ghost(|x: Seq<char>, y: Seq<char>| text_less(x, y)),
        );
        let required = dedup_vec(
            sorted,
            string_same,
            Ghost(|x: Seq<char>, y: Seq<char>| x == y),
        );
        let ghost all = views(required@);
        let mut implemented: Vec<String> = Vec::new();
        let mut needs_data: Vec<String> = Vec::new();
        let mut not_yet: Vec<String> = Vec::new();
        let mut not_applicable: Vec<String> = Vec::new();
        let mut unknown: Vec<String> = Vec::new();
        let mut n: usize = 0;
        assert(all.take(0) =~= seq![]);
        assert(views(Seq::<String>::empty()) =~= seq![]);
        while n < required.len()
            invariant
                n <= required.len(),
                all == views(required@),
                views(implemented@) == names_known_as(
                    all.take(n as int),
                    Availability::Implemented,
                ),
                views(needs_data@) == names_known_as(all.take(n as int), Availability::NeedsData),
                views(not_yet@) == names_known_as(all.take(n as int), Availability::NotYet),
                views(not_applicable@) == names_known_as(
                    all.take(n as int),
                    Availability::NotApplicable,
                ),
                views(unknown@) == names_known_as(all.take(n as int), Availability::Unknown),
            decreases required.len() - n,
        {
            let name = &required[n];
            proof {
                let t = all.take(n + 1);
                assert(t.drop_last() =~= all.take(n as int));
                assert(t.last() == name@);
            }
            let (a, _, _) = lookup(name.as_str());
            match a {
                Availability::Implemented => {
                    let ghost had = implemented@;
                    implemented.push(name.clone());
                    assert(views(implemented@) =~= views(had).push(name@));
                },
                Availability::NeedsData => {
                    let ghost had = needs_data@;
                    needs_data.push(name.clone());
                    assert(views(needs_data@) =~= views(had).push(name@));
                },
                Availability::NotYet => {
                    let ghost had = not_yet@;
                    not_yet.push(name.clone());
                    assert(views(not_yet@) =~= views(had).push(name@));
                },
                Availability::NotApplicable => {
                    let ghost had = not_applicable@;
                    not_applicable.push(name.clone());
                    assert(views(not_applicable@) =~= views(had).push(name@));
                },
                Availability::Unknown => {
                    let ghost had = unknown@;
                    unknown.push(name.clone());
                    assert(views(unknown@) =~= views(had).push(name@));
                },
            }
            n += 1;
        }
        assert(all.take(n as int) =~= all);
        CoverageReport { required, implemented, needs_data, not_yet, not_applicable, unknown }
    }

    /// Whether everything needed is there.
    #[must_use]
    pub fn is_complete(&self) -> (r: bool)
        ensures
            r == (self.needs_data@.len() == 0 && self.not_yet@.len() == 0 && self.unknown@.len()
                == 0),
    {
        self.needs_data.len() == 0 && self.not_yet.len() == 0 && self.unknown.len() == 0
    }

    /// One line that counts it all.
    #[must_use]
    pub fn summary(&self) -> (r: String)
        ensures
            r@ == "需要 "@ + decimal(self.required@.len()) + " 个零件：已实现 "@ + decimal(
                self.implemented@.len(),
            ) + "，需外部数据 "@ + decimal(self.needs_data@.len()) + "，尚未实现 "@ + decimal(
                self.not_yet@.len(),
            ) + "，不适用 "@ + decimal(self.not_applicable@.len()) + "，不认识 "@ + decimal(
                self.unknown@.len(),
            ),
    {
        "需要 ".to_owned().concat(decimal_text(self.required.len() as u64).as_str()).concat(
            " 个零件：已实现 ",
        ).concat(decimal_text(self.implemented.len() as u64).as_str()).concat(
            "，需外部数据 ",
        ).concat(decimal_text(self.needs_data.len() as u64).as_str()).concat(
            "，尚未实现 ",
        ).concat(decimal_text(self.not_yet.len() as u64).as_str()).concat("，不适用 ").concat(
            decimal_text(self.not_applicable.len() as u64).as_str(),
        ).concat("，不认识 ").concat(decimal_text(self.unknown.len() as u64).as_str())
    }
}

// ---------------------------------------------------------------------------
// Laws
// ---------------------------------------------------------------------------

proof fn text_order_is_weak()
    ensures
        weak_order(|a: Seq<char>, b: Seq<char>| text_less(a, b)),
{
    let f = |a: Seq<char>, b: Seq<char>| text_less(a, b);
    assert forall|a: Seq<char>, b: Seq<char>| #[trigger] f(a, b) implies !f(b, a) by {
        text_less_total(a, b);
    }
    assert forall|a: Seq<char>, b: Seq<char>, c: Seq<char>|
        !(#[trigger] f(a, b)) && !(#[trigger] f(b, c)) implies !f(a, c) by {
        text_less_total(a, b);
        text_less_total(b, c);
        text_less_total(a, c);
        if text_less(b, a) && text_less(c, b) {
            text_less_transitive(c, b, a);
        }
    }
}

proof fn dedup_distinct(s: Seq<Seq<char>>)
    requires
        in_order(s, |a: Seq<char>, b: Seq<char>| text_less(a, b)),
    ensures
        ({
            let d = dedup_by(s, |a: Seq<char>, b: Seq<char>| a == b);
            forall|i: int, j: int|
                0 <= i < j < d.len() ==> text_less(#[trigger] d[i], #[trigger] d[j])
        }),
    decreases s.len(),
{
    let order = |a: Seq<char>, b: Seq<char>| text_less(a, b);
    let same = |a: Seq<char>, b: Seq<char>| a == b;
    if s.len() > 0 {
        let head = s.drop_last();
        assert(in_order(head, order)) by {
            assert forall|i: int, j: int| 0 <= i < j < head.len() implies !order(
                #[trigger] head[j],
                #[trigger] head[i],
            ) by {
                assert(!order(s[j], s[i]));
            }
        }
        dedup_distinct(head);
        dedup_from(head, same);
        let d = dedup_by(s, same);
        let h = dedup_by(head, same);
        assert forall|i: int, j: int| 0 <= i < j < d.len() implies text_less(
            #[trigger] d[i],
            #[trigger] d[j],
        ) by {
            if j < h.len() {
                assert(text_less(h[i], h[j]));
            } else {
                let last = h[h.len() - 1];
                assert(h.contains(last));
                let n = choose|n: int| 0 <= n < head.len() && head[n] == last;
                assert(s[n] == last);
                assert(!order(s[s.len() - 1], s[n]));
                text_less_total(last, s.last());
                assert(text_less(last, d[j]));
                if i < h.len() - 1 {
                    assert(text_less(h[i], last));
                    text_less_transitive(h[i], last, d[j]);
                }
            }
        }
    }
}

/// A list put in order with each text once is strictly rising and holds exactly
/// the texts it was made from.
pub proof fn sorted_sets_rise(s: Seq<Seq<char>>)
    ensures
        forall|i: int, j: int|
            0 <= i < j < sorted_set(s).len() ==> text_less(
                #[trigger] sorted_set(s)[i],
                #[trigger] sorted_set(s)[j],
            ),
        forall|t: Seq<char>| #[trigger] sorted_set(s).contains(t) <==> s.contains(t),
{
    let order = |a: Seq<char>, b: Seq<char>| text_less(a, b);
    let same = |a: Seq<char>, b: Seq<char>| a == b;
    let sorted = sort_by(s, order);
    text_order_is_weak();
    sorting_orders(s, order);
    sorted_from(s, order);
    dedup_distinct(sorted);
    dedup_from(sorted, same);
    dedup_covers(sorted, same);
    assert forall|t: Seq<char>| #[trigger] sorted_set(s).contains(t) <==> s.contains(t) by {
        if s.contains(t) {
            assert(sorted.contains(t));
            let i = choose|i: int|
                0 <= i < sorted_set(s).len() && (#[trigger] sorted_set(s)[i] == t || same(
                    t,
                    sorted_set(s)[i],
                ));
            assert(sorted_set(s)[i] == t);
        }
        if sorted_set(s).contains(t) {
            assert(sorted.contains(t));
        }
    }
}

/// An alias behind `@` changes nothing of what is known of a component.
pub proof fn aliases_are_ignored(base: Seq<char>, alias: Seq<char>)
    requires
        alias_mark(base, 0) is None,
    ensures
        known_as(base.push('@') + alias) == known_as(base),
{
    let name = base.push('@') + alias;
    mark_after(base, alias, 0);
    assert(name.take(base.len() as int) =~= base);
}

proof fn mark_after(base: Seq<char>, alias: Seq<char>, from: int)
    requires
        0 <= from <= base.len(),
        alias_mark(base, from) is None,
    ensures
        alias_mark(base.push('@') + alias, from) == Some(base.len() as int),
    decreases base.len() - from,
{
    let name = base.push('@') + alias;
    if from < base.len() {
        assert(name[from] == base[from]);
        mark_after(base, alias, from + 1);
    } else {
        assert(name[from] == '@');
    }
}

/// A report is complete exactly when every name in it is implemented or not
/// applicable.
pub proof fn complete_reports_need_nothing(names: Seq<Seq<char>>)
    ensures
        (names_known_as(names, Availability::NeedsData).len() == 0 && names_known_as(
            names,
            Availability::NotYet,
        ).len() == 0 && names_known_as(names, Availability::Unknown).len() == 0) <==> forall|i: int|
            0 <= i < names.len() ==> (known_as(#[trigger] names[i]).0 == Availability::Implemented
                || known_as(names[i]).0 == Availability::NotApplicable),
    decreases names.len(),
{
    if names.len() > 0 {
        let head = names.drop_last();
        complete_reports_need_nothing(head);
        assert(names[names.len() - 1] == names.last());
        if forall|i: int|
            0 <= i < names.len() ==> (known_as(#[trigger] names[i]).0 == Availability::Implemented
                || known_as(names[i]).0 == Availability::NotApplicable) {
            assert forall|i: int| 0 <= i < head.len() implies (known_as(#[trigger] head[i]).0
                == Availability::Implemented || known_as(head[i]).0
                == Availability::NotApplicable) by {
                assert(names[i] == head[i]);
            }
        }
        if forall|i: int|
            0 <= i < head.len() ==> (known_as(#[trigger] head[i]).0 == Availability::Implemented
                || known_as(head[i]).0 == Availability::NotApplicable) {
            if known_as(names.last()).0 == Availability::Implemented || known_as(names.last()).0
                == Availability::NotApplicable {
                assert forall|i: int| 0 <= i < names.len() implies (known_as(#[trigger] names[i]).0
                    == Availability::Implemented || known_as(names[i]).0
                    == Availability::NotApplicable) by {
                    if i < head.len() {
                        assert(names[i] == head[i]);
                    }
                }
            }
        }
    }
}

/// A component is found by its name: the first in the list that has it.
pub proof fn components_are_found_by_name(cs: Seq<Component>, base: Seq<char>, from: int)
    requires
        0 <= from,
    ensures
        match find_component(cs, base, from) {
            Some(c) => c.name == base && exists|i: int|
                from <= i < cs.len() && #[trigger] cs[i] == c && forall|j: int|
                    from <= j < i ==> (#[trigger] cs[j]).name != base,
            None => forall|j: int| from <= j < cs.len() ==> (#[trigger] cs[j]).name != base,
        },
    decreases cs.len() - from,
{
    if from < cs.len() {
        components_are_found_by_name(cs, base, from + 1);
        if cs[from].name == base {
            assert(cs[from] == find_component(cs, base, from)->0);
        } else if let Some(c) = find_component(cs, base, from + 1) {
            let i = choose|i: int|
                from + 1 <= i < cs.len() && #[trigger] cs[i] == c && forall|j: int|
                    from + 1 <= j < i ==> (#[trigger] cs[j]).name != base;
            assert(cs[i] == c);
        }
    }
}

/// Of a list of names those are reported that ask for something that is not
/// there, in their order, each with what is known of it.
pub proof fn unmet_names_are_reported(
    a: Seq<Seq<char>>,
    b: Seq<Seq<char>>,
    n: Seq<char>,
    external: Seq<ExternalData>,
)
    ensures
        unmet_of(a + b, external) == unmet_of(a, external) + unmet_of(b, external),
        known_as(n).0 == Availability::Implemented || known_as(n).0 == Availability::NotApplicable
            ==> unmet_of(seq![n], external).len() == 0,
        known_as(n).0 == Availability::NotYet || known_as(n).0 == Availability::Unknown
            ==> unmet_of(seq![n], external) == seq![(n, known_as(n).0, known_as(n).2)],
        known_as(n).0 == Availability::NeedsData ==> (unmet_of(seq![n], external).len() == 0
            <==> exists|i: int|
            0 <= i < external.len() && (#[trigger] external[i]).present && component_alias(n).1
                == Some(external[i].alias@)),
    decreases b.len(),
{
    reveal_with_fuel(unmet_of, 2);
    assert(seq![n].drop_last() =~= Seq::<Seq<char>>::empty());
    if unmet(n, external) {
        assert(unmet_of(seq![n], external) =~= seq![(n, known_as(n).0, known_as(n).2)]);
    }
    if b.len() == 0 {
        assert(a + b =~= a);
        assert(unmet_of(a + b, external) =~= unmet_of(a, external) + unmet_of(b, external));
    } else {
        unmet_names_are_reported(a, b.drop_last(), n, external);
        assert((a + b).drop_last() =~= a + b.drop_last());
        assert((a + b).last() == b.last());
        assert(unmet_of(a + b, external) =~= unmet_of(a, external) + unmet_of(b, external));
    }
}

/// Names are sorted by what is known of them, and keep their order.
pub proof fn names_are_sorted_by_availability(names: Seq<Seq<char>>, a: Availability)
    ensures
        names_known_as(names, a) == names.filter(|n: Seq<char>| known_as(n).0 == a),
    decreases names.len(),
{
    reveal(Seq::filter);
    if names.len() > 0 {
        names_are_sorted_by_availability(names.drop_last(), a);
    }
}

/// The components with an availability are listed in their order.
pub proof fn components_are_listed_in_order(cs: Seq<Component>, a: Availability)
    ensures
        listed_with(cs, a) == cs.filter(|c: Component| c.availability == a).map_values(
            |c: Component| c.name,
        ),
    decreases cs.len(),
{
    reveal(Seq::filter);
    if cs.len() > 0 {
        components_are_listed_in_order(cs.drop_last(), a);
    }
    assert(listed_with(cs, a) =~= cs.filter(|c: Component| c.availability == a).map_values(
        |c: Component| c.name,
    ));
}

} // verus!
