//! Putting a pipeline together.

use vstd::prelude::*;
use crate::candidate::{copy_opt, text_opt};
use crate::code::{milli, Score};
use crate::component::{
    AnyFilter, AnyTranslator, Cutter, Filter, Processor, Segmentor, TaggedFilter, TaggedTranslator,
    Translator,
};
use crate::filter::{Converter, ReverseLookupFilter, Uniquifier, DEFAULT_PENALTY_MILLI};
use crate::keyspec::{Key, KeyChord};
use crate::lexicon::TextIndex;
use crate::order::views;
use crate::pipeline::laws::{leaves_room, what_was_typed_can_be_committed};
use crate::pipeline::PipelineImpl;
use crate::processor::{met_binding, AsciiComposer, Editor, KeyBinder, Navigator, Selector, Speller};
use crate::regex::syntax::{parse, Node, Refusal};
use crate::regex::DEFAULT_STEP_BUDGET;
use crate::punctuator::{bare_rows, row_map, rows_read, text_map, PunctTranslator, Punctuator};
use crate::segmentor::{
    affix_tags, compiles_to, first_bad, keyed_by, prefix_list, AffixSegmentor, CodingSegmentor,
    InputScan, Matcher, Recognizer, SymbolSegmentor,
};
use crate::share::share;
use crate::spec::{
    component_alias, split_alias, translator_kind, AffixSpec, EditorAction, KeyBinding,
    TranslatorKindSpec, TranslatorSpec,
};
use crate::spelling::{
    first_refusal, operation, read_from, rule_of, rule_parts, separates, separator, Operation,
    Rule, RuleRefusal, SpellingFormat,
};
use crate::state::State;
use crate::tag::{copy_tags, Tag, TagTable};
use crate::translator::{has_text, quality_of};
use crate::text::{char_is_whitespace, from_chars, holds_text, same_text, split_on, texts, trimmed};
use super::{
    spec_place, LoadedScheme, SchemeDef, TranslatorKind,
};

verus! {

// ---------------------------------------------------------------------------
// Processors
// ---------------------------------------------------------------------------

/// The processors of a scheme; the usual ones where it declares none.
pub open spec fn processor_names(d: SchemeDef) -> Seq<Seq<char>> {
    if d.engine.processors@.len() == 0 {
        seq!["speller"@, "editor"@, "selector"@]
    } else {
        texts(d.engine.processors@)
    }
}

/// Whether two bindings of keys say the same.
pub open spec fn same_binding(a: KeyBinding, b: KeyBinding) -> bool {
    &&& a.when == b.when
    &&& a.accept@ == b.accept@
    &&& (a.send_keys is Some) == (b.send_keys is Some)
    &&& (a.send_keys matches Some(x) ==> (b.send_keys matches Some(y) && texts(x@) == texts(y@)))
    &&& a.toggle == b.toggle
    &&& a.set_option == b.set_option
    &&& a.unset_option == b.unset_option
    &&& a.at == b.at
}

/// Whether two lists of bindings say the same.
pub open spec fn same_bindings(a: Seq<KeyBinding>, b: Seq<KeyBinding>) -> bool {
    a.len() == b.len() && forall|i: int| 0 <= i < a.len() ==> same_binding(#[trigger] a[i], b[i])
}

/// Whether a name is that of a processor that is built.
pub open spec fn builds_processor(component: Seq<char>) -> bool {
    ||| component == "speller"@
    ||| component == "editor"@
    ||| component == "express_editor"@
    ||| component == "selector"@
    ||| component == "ascii_composer"@
    ||| component == "punctuator"@
    ||| component == "key_binder"@
    ||| component == "navigator"@
}

/// Whether a processor is the one that a scheme means by a name.
pub open spec fn meant_processor(d: SchemeDef, component: Seq<char>, p: Processor) -> bool {
    if component == "speller"@ {
        &&& p matches Processor::Speller(x)
        &&& x.extra_accepted@ == seq!['\'']
        &&& match x.alphabet {
            Some(a) => d.input_alphabet@.len() > 0 && a@ == d.input_alphabet@,
            None => d.input_alphabet@.len() == 0,
        }
        &&& text_opt(x.blocked_by_option) == (if texts(d.engine.processors@).contains(
            "ascii_composer"@,
        ) {
            Some("ascii_mode"@)
        } else {
            None
        })
    } else if component == "editor"@ || component == "express_editor"@ {
        p matches Processor::Editor(x) && x.bindings@ == d.editor_bindings@
    } else if component == "selector"@ {
        p is Selector
    } else if component == "ascii_composer"@ {
        p matches Processor::AsciiComposer(x) && text_opt(x.option) == Some("ascii_mode"@)
    } else if component == "punctuator"@ {
        &&& p matches Processor::Punctuator(x)
        &&& rows_read(x.half@) == rows_read(d.punctuator.half_shape@)
        &&& rows_read(x.full@) == rows_read(d.punctuator.full_shape@)
        &&& x.symbol_prefix == d.punctuator.symbol_prefix
        &&& text_opt(x.full_shape_option) == Some("full_shape"@)
    } else if component == "key_binder"@ {
        p matches Processor::KeyBinder(x) && same_bindings(x.bindings@, d.key_bindings@)
    } else {
        &&& p matches Processor::Navigator(x)
        &&& x.page == 0
        &&& x.page_up@ == d.navigator.page_up@ + d.navigator.up@
        &&& x.page_down@ == d.navigator.page_down@ + d.navigator.down@
    }
}

/// Those of the first `n` names that are built, as components.
pub open spec fn built_processors(names: Seq<Seq<char>>, n: int) -> Seq<Seq<char>>
    decreases n,
{
    if n <= 0 {
        seq![]
    } else {
        let head = built_processors(names, n - 1);
        let c = component_alias(names[n - 1]).0;
        if builds_processor(c) {
            head.push(c)
        } else {
            head
        }
    }
}

/// Whether processors are those that a scheme means, in its order.
pub open spec fn meant_processors(d: SchemeDef, ps: Seq<Processor>) -> bool {
    let names = built_processors(processor_names(d), processor_names(d).len() as int);
    ps.len() == names.len() && forall|i: int|
        0 <= i < ps.len() ==> meant_processor(d, names[i], #[trigger] ps[i])
}

fn copy_strings(v: &Vec<String>) -> (r: Vec<String>)
    ensures
        texts(r@) == texts(v@),
{
    crate::code::copy_texts(v)
}

pub(crate) fn copy_binding(b: &KeyBinding) -> (r: KeyBinding)
    ensures
        same_binding(r, *b),
{
    let mut accept: Vec<KeyChord> = Vec::new();
    let mut i: usize = 0;
    while i < b.accept.len()
        invariant
            i <= b.accept@.len(),
            accept@ == b.accept@.take(i as int),
        decreases b.accept.len() - i,
    {
        accept.push(b.accept[i]);
        i += 1;
    }
    assert(accept@ =~= b.accept@);
    KeyBinding {
        when: b.when,
        accept,
        send_keys: match &b.send_keys {
            Some(v) => Some(copy_strings(v)),
            None => None,
        },
        toggle: copy_opt(&b.toggle),
        set_option: copy_opt(&b.set_option),
        unset_option: copy_opt(&b.unset_option),
        at: b.at,
    }
}

fn copy_bindings(v: &Vec<KeyBinding>) -> (r: Vec<KeyBinding>)
    ensures
        same_bindings(r@, v@),
{
    let mut out: Vec<KeyBinding> = Vec::new();
    let mut i: usize = 0;
    while i < v.len()
        invariant
            i <= v@.len(),
            out@.len() == i,
            forall|j: int| 0 <= j < i ==> same_binding(#[trigger] out@[j], v@[j]),
        decreases v.len() - i,
    {
        out.push(copy_binding(&v[i]));
        i += 1;
    }
    out
}

fn copy_actions(v: &Vec<(KeyChord, EditorAction)>) -> (r: Vec<(KeyChord, EditorAction)>)
    ensures
        r@ == v@,
{
    let mut out: Vec<(KeyChord, EditorAction)> = Vec::new();
    let mut i: usize = 0;
    while i < v.len()
        invariant
            i <= v@.len(),
            out@ == v@.take(i as int),
        decreases v.len() - i,
    {
        out.push((v[i].0, v[i].1));
        i += 1;
        assert(out@ =~= v@.take(i as int));
    }
    assert(out@ =~= v@);
    out
}

fn copy_letters(v: &Vec<char>) -> (r: Vec<char>)
    ensures
        r@ == v@,
{
    let mut out: Vec<char> = Vec::new();
    let mut i: usize = 0;
    while i < v.len()
        invariant
            i <= v@.len(),
            out@ == v@.take(i as int),
        decreases v.len() - i,
    {
        out.push(v[i]);
        i += 1;
    }
    assert(out@ =~= v@);
    out
}

fn make_speller(d: &SchemeDef) -> (r: Speller)
    ensures
        meant_processor(*d, "speller"@, Processor::Speller(r)),
{
    let mut extra: Vec<char> = Vec::new();
    extra.push('\'');
    assert(extra@ =~= seq!['\'']);
    let mut s = Speller::new(extra);
    if d.input_alphabet.len() > 0 {
        s = s.with_alphabet(copy_letters(&d.input_alphabet));
    }
    if holds_text(&d.engine.processors, "ascii_composer") {
        s = s.blocked_by("ascii_mode");
    }
    s
}

fn make_processor(d: &SchemeDef, component: &str) -> (r: Option<Processor>)
    ensures
        match r {
            Some(p) => builds_processor(component@) && meant_processor(*d, component@, p),
            None => !builds_processor(component@),
        },
{
    if same_text(component, "speller") {
        Some(Processor::Speller(make_speller(d)))
    } else if same_text(component, "editor") || same_text(component, "express_editor") {
        Some(Processor::Editor(Editor::new(copy_actions(&d.editor_bindings))))
    } else if same_text(component, "selector") {
        Some(Processor::Selector(Selector))
    } else if same_text(component, "ascii_composer") {
        Some(Processor::AsciiComposer(AsciiComposer::new(Some("ascii_mode".to_owned()))))
    } else if same_text(component, "punctuator") {
        Some(
            Processor::Punctuator(
                Punctuator::new(&d.punctuator, Some("full_shape".to_owned())),
            ),
        )
    } else if same_text(component, "key_binder") {
        Some(Processor::KeyBinder(KeyBinder::new(copy_bindings(&d.key_bindings))))
    } else if same_text(component, "navigator") {
        Some(Processor::Navigator(Navigator::new(&d.navigator, d.page_size)))
    } else {
        None
    }
}

fn usual_processors() -> (r: Vec<String>)
    ensures
        texts(r@) == seq!["speller"@, "editor"@, "selector"@],
{
    let mut v: Vec<String> = Vec::new();
    v.push("speller".to_owned());
    v.push("editor".to_owned());
    v.push("selector".to_owned());
    assert(texts(v@) =~= seq!["speller"@, "editor"@, "selector"@]);
    v
}

fn make_processors(d: &SchemeDef) -> (r: Vec<Processor>)
    ensures
        meant_processors(*d, r@),
{
    let names = if d.engine.processors.len() == 0 {
        usual_processors()
    } else {
        copy_strings(&d.engine.processors)
    };
    let ghost all = processor_names(*d);
    assert(texts(names@) == all);
    assert(names@.len() == all.len());
    let mut out: Vec<Processor> = Vec::new();
    let mut i: usize = 0;
    while i < names.len()
        invariant
            i <= names@.len(),
            all == texts(names@),
            out@.len() == built_processors(all, i as int).len(),
            forall|j: int|
                0 <= j < out@.len() ==> meant_processor(
                    *d,
                    built_processors(all, i as int)[j],
                    #[trigger] out@[j],
                ),
        decreases names.len() - i,
    {
        assert(all[i as int] == names@[i as int]@);
        let (component, _) = split_alias(names[i].as_str());
        let ghost had = out@;
        if let Some(p) = make_processor(d, component) {
            out.push(p);
            assert forall|j: int| 0 <= j < out@.len() implies meant_processor(
                *d,
                built_processors(all, i + 1)[j],
                #[trigger] out@[j],
            ) by {
                if j < had.len() {
                    assert(had[j] == out@[j]);
                }
            }
        }
        i += 1;
    }
    out
}

// ---------------------------------------------------------------------------
// Segmentors
// ---------------------------------------------------------------------------

/// The tag of ordinary input.
pub open spec fn coding_tag(d: SchemeDef) -> Seq<char> {
    if d.tag@.len() == 0 {
        "abc"@
    } else {
        d.tag@
    }
}

/// Whether a recognizer is the one that a scheme declares. Without patterns, or
/// with one that does not compile, there is none.
pub open spec fn meant_recognizer(d: SchemeDef, r: Option<Recognizer>) -> bool {
    let ps = d.recognizer.patterns@;
    if ps.len() == 0 || first_bad(ps, 0) is Some {
        r is None
    } else {
        &&& r matches Some(x)
        &&& x.patterns@.len() == ps.len()
        &&& forall|i: int| 0 <= i < ps.len() ==> compiles_to(#[trigger] ps[i], x.patterns@[i])
    }
}

/// Whether an affix segmentor has a tag for its own.
pub open spec fn affix_has(a: AffixSpec, tag: Seq<char>) -> bool {
    a.tag matches Some(t) && t@ == tag
}

/// Whether some affix segmentor has a tag for its own.
pub open spec fn affix_takes(d: SchemeDef, tag: Seq<char>) -> bool {
    exists|i: int|
        0 <= i < d.affixes@.len() && affix_has(#[trigger] d.affixes@[i].1, tag)
}

/// The names of the first `n` patterns that no affix segmentor takes.
pub open spec fn free_patterns(d: SchemeDef, n: int) -> Seq<Seq<char>>
    decreases n,
{
    if n <= 0 {
        seq![]
    } else {
        let head = free_patterns(d, n - 1);
        let name = d.recognizer.patterns@[n - 1].name@;
        if affix_takes(d, name) {
            head
        } else {
            head.push(name)
        }
    }
}

/// The tags that the matcher of a scheme claims segments for.
pub open spec fn matcher_tags(d: SchemeDef) -> Seq<Seq<char>> {
    if first_bad(d.recognizer.patterns@, 0) is Some {
        seq![]
    } else {
        free_patterns(d, d.recognizer.patterns@.len() as int)
    }
}

/// The place of the affix with an alias.
pub open spec fn affix_place(s: Seq<(String, AffixSpec)>, alias: Seq<char>, from: int) -> Option<int>
    decreases s.len() - from,
{
    if from < 0 || from >= s.len() {
        None
    } else if s[from].0@ == alias {
        Some(from)
    } else {
        affix_place(s, alias, from + 1)
    }
}

/// The rule of an affix segmentor.
pub open spec fn affix_cutter(a: AffixSpec, fallback: Seq<char>) -> Cutter {
    Cutter::Affix {
        prefixes: prefix_list(text_opt(a.prefix)),
        suffix: text_opt(a.suffix),
        tags: affix_tags(
            match a.tag {
                Some(t) => t@,
                None => fallback,
            },
            views(a.extra_tags@),
        ),
        tips: text_opt(a.tips),
    }
}

/// The segmentor that a scheme means by a name, where it means one.
pub open spec fn meant_cutter(d: SchemeDef, name: Seq<char>) -> Option<Cutter> {
    let (component, alias) = component_alias(name);
    if component == "matcher"@ {
        if matcher_tags(d).len() > 0 {
            Some(Cutter::Match { tags: matcher_tags(d) })
        } else {
            None
        }
    } else if component == "abc_segmentor"@ {
        Some(Cutter::Code { tag: coding_tag(d) })
    } else if component == "affix_segmentor"@ {
        match alias {
            None => None,
            Some(a) => match affix_place(d.affixes@, a, 0) {
                Some(i) => Some(affix_cutter(d.affixes@[i].1, coding_tag(d))),
                None => None,
            },
        }
    } else if component == "punct_segmentor"@ {
        Some(
            Cutter::Symbol {
                marks: Set::new(
                    |c: char|
                        keyed_by(d.punctuator.full_shape@, c) || keyed_by(
                            d.punctuator.half_shape@,
                            c,
                        ),
                ),
                prefix: d.punctuator.symbol_prefix,
                tag: "punct"@,
            },
        )
    } else {
        None
    }
}

/// The segmentors that a scheme means by the first `n` of its names.
pub open spec fn meant_cutters(d: SchemeDef, n: int) -> Seq<Cutter>
    decreases n,
{
    if n <= 0 {
        seq![]
    } else {
        let head = meant_cutters(d, n - 1);
        match meant_cutter(d, d.engine.segmentors@[n - 1]@) {
            Some(c) => head.push(c),
            None => head,
        }
    }
}

fn is_affix_tag(d: &SchemeDef, tag: &str) -> (r: bool)
    ensures
        r == affix_takes(*d, tag@),
{
    let mut i: usize = 0;
    while i < d.affixes.len()
        invariant
            i <= d.affixes@.len(),
            forall|j: int|
                0 <= j < i ==> !affix_has(#[trigger] d.affixes@[j].1, tag@),
        decreases d.affixes.len() - i,
    {
        if let Some(t) = d.affixes[i].1.tag {
            if same_text(t, tag) {
                assert(affix_has(d.affixes@[i as int].1, tag@));
                return true;
            }
        }
        i += 1;
    }
    false
}

fn gather_matcher_tags(d: &SchemeDef, rec: &Option<Recognizer>, tags: &mut TagTable) -> (r: Vec<Tag>)
    requires
        old(tags).wf(),
        meant_recognizer(*d, *rec),
    ensures
        final(tags).wf(),
        views(r@) == matcher_tags(*d),
{
    let mut out: Vec<Tag> = Vec::new();
    assert(views(out@) =~= seq![]);
    let rec = match rec {
        Some(x) => x,
        None => {
            return out;
        },
    };
    let names = rec.pattern_names();
    let ghost ps = d.recognizer.patterns@;
    let mut i: usize = 0;
    while i < names.len()
        invariant
            i <= names@.len(),
            names@.len() == ps.len(),
            ps == d.recognizer.patterns@,
            tags.wf(),
            forall|j: int| 0 <= j < ps.len() ==> (#[trigger] names@[j])@ == ps[j].name@,
            views(out@) == free_patterns(*d, i as int),
        decreases names.len() - i,
    {
        let ghost had = views(out@);
        let name = names[i];
        assert(names@[i as int]@ == ps[i as int].name@);
        if !is_affix_tag(d, name) {
            let t = tags.intern(name);
            out.push(t);
            assert(views(out@) =~= had.push(name@));
        }
        i += 1;
    }
    out
}

fn find_affix(d: &SchemeDef, alias: &str) -> (r: Option<usize>)
    ensures
        match affix_place(d.affixes@, alias@, 0) {
            Some(i) => r matches Some(k) && k == i && k < d.affixes@.len(),
            None => r is None,
        },
{
    let mut i: usize = 0;
    while i < d.affixes.len()
        invariant
            i <= d.affixes@.len(),
            affix_place(d.affixes@, alias@, 0) == affix_place(d.affixes@, alias@, i as int),
        decreases d.affixes.len() - i,
    {
        if same_text(d.affixes[i].0.as_str(), alias) {
            return Some(i);
        }
        i += 1;
    }
    None
}

fn make_segmentor(
    d: &SchemeDef,
    name: &str,
    matcher: &Vec<Tag>,
    tags: &mut TagTable,
    coding: Tag,
    punct: Tag,
) -> (r: Option<Segmentor>)
    requires
        old(tags).wf(),
        views(matcher@) == matcher_tags(*d),
        coding@ == coding_tag(*d),
        punct@ == "punct"@,
    ensures
        final(tags).wf(),
        match meant_cutter(*d, name@) {
            Some(c) => r matches Some(s) && s@ == c,
            None => r is None,
        },
{
    let (component, alias) = split_alias(name);
    assert(views(matcher@).len() == matcher@.len());
    if same_text(component, "matcher") {
        if matcher.len() > 0 {
            Some(Segmentor::Matcher(Matcher::new(InputScan::new(), copy_tags(matcher))))
        } else {
            None
        }
    } else if same_text(component, "abc_segmentor") {
        Some(Segmentor::Coding(CodingSegmentor::new(coding, InputScan::new())))
    } else if same_text(component, "affix_segmentor") {
        match alias {
            None => None,
            Some(a) => match find_affix(d, a) {
                Some(i) => Some(
                    Segmentor::Affix(AffixSegmentor::new(&d.affixes[i].1, tags, coding)),
                ),
                None => None,
            },
        }
    } else if same_text(component, "punct_segmentor") {
        let s = SymbolSegmentor::new(punct, &d.punctuator);
        assert(s.mark_set() =~= Set::new(
            |c: char|
                keyed_by(d.punctuator.full_shape@, c) || keyed_by(d.punctuator.half_shape@, c),
        ));
        Some(Segmentor::Symbol(s))
    } else {
        None
    }
}

/// The recognizer and the segmentors of a scheme.
#[derive(Debug)]
pub struct SegmentorBuild {
    pub recognizer: Option<Recognizer>,
    pub segmentors: Vec<Segmentor>,
}

/// Builds the recognizer and the segmentors that a scheme declares.
pub fn build_segmentors(d: &SchemeDef) -> (r: SegmentorBuild)
    ensures
        meant_recognizer(*d, r.recognizer),
        views(r.segmentors@) == meant_cutters(*d, d.engine.segmentors@.len() as int),
{
    let mut tags = TagTable::new();
    let punct = tags.intern("punct");
    let coding = if d.tag.is_empty() {
        tags.intern("abc")
    } else {
        tags.intern(d.tag)
    };
    let recognizer = if d.recognizer.patterns.len() == 0 {
        None
    } else {
        match Recognizer::new(&d.recognizer, &mut tags) {
            Ok(x) => Some(x),
            Err(_) => None,
        }
    };
    assert(meant_recognizer(*d, recognizer));
    let matcher = gather_matcher_tags(d, &recognizer, &mut tags);
    let mut segmentors: Vec<Segmentor> = Vec::new();
    assert(views(segmentors@) =~= seq![]);
    let mut i: usize = 0;
    while i < d.engine.segmentors.len()
        invariant
            i <= d.engine.segmentors@.len(),
            tags.wf(),
            views(matcher@) == matcher_tags(*d),
            coding@ == coding_tag(*d),
            punct@ == "punct"@,
            views(segmentors@) == meant_cutters(*d, i as int),
        decreases d.engine.segmentors.len() - i,
    {
        let ghost had = views(segmentors@);
        let name = d.engine.segmentors[i].as_str();
        if let Some(s) = make_segmentor(d, name, &matcher, &mut tags, coding, punct) {
            let ghost v = s@;
            segmentors.push(s);
            assert(views(segmentors@) =~= had.push(v));
        }
        i += 1;
    }
    SegmentorBuild { recognizer, segmentors }
}

// ---------------------------------------------------------------------------
// Translators
// ---------------------------------------------------------------------------

/// A translator that a scheme asks for.
pub enum Wanted {
    /// One of the two families, for everything or for one tag.
    Family {
        kind: TranslatorKindSpec,
        completion: bool,
        quality: Score,
        tag: Option<Seq<char>>,
    },
    Punct,
    Echo,
}

/// Whether the translator with an alias completes words.
pub open spec fn completes(d: SchemeDef, alias: Seq<char>) -> bool {
    match spec_place(d.translator_specs@, alias, 0) {
        Some(i) => d.translator_specs@[i].1.enable_word_completion == Some(true),
        None => false,
    }
}

/// What the translator with an alias adds to every score.
pub open spec fn lift(d: SchemeDef, alias: Seq<char>) -> Score {
    match spec_place(d.translator_specs@, alias, 0) {
        Some(i) => quality_of(d.translator_specs@[i].1.initial_quality),
        None => milli(0),
    }
}

/// The tag that the affix segmentor with an alias gives.
pub open spec fn affix_tag(d: SchemeDef, alias: Option<Seq<char>>) -> Option<Seq<char>> {
    match alias {
        None => None,
        Some(a) => match affix_place(d.affixes@, a, 0) {
            Some(i) => match d.affixes@[i].1.tag {
                Some(t) => Some(t@),
                None => None,
            },
            None => None,
        },
    }
}

/// The translator that a scheme asks for by a name, where it asks for one.
pub open spec fn wanted_translator(d: SchemeDef, name: Seq<char>) -> Option<Wanted> {
    let (component, alias) = component_alias(name);
    let key = match alias {
        Some(a) => a,
        None => seq![],
    };
    match translator_kind(component) {
        None => None,
        Some(kind) => Some(
            Wanted::Family {
                kind,
                completion: completes(d, key),
                quality: lift(d, key),
                tag: affix_tag(d, alias),
            },
        ),
    }
}

/// The translators that a scheme asks for by the first `n` of its names.
pub open spec fn listed_translators(d: SchemeDef, n: int) -> Seq<Wanted>
    decreases n,
{
    if n <= 0 {
        seq![]
    } else {
        let head = listed_translators(d, n - 1);
        match wanted_translator(d, d.engine.translators@[n - 1]@) {
            Some(w) => head.push(w),
            None => head,
        }
    }
}

/// Whether a scheme has punctuation.
pub open spec fn has_punct(d: SchemeDef) -> bool {
    texts(d.engine.processors@).contains("punctuator"@) || texts(d.engine.segmentors@).contains(
        "punct_segmentor"@,
    )
}

/// The translators that a scheme asks for, in their order. Without a list of
/// its own it gets its family. The echo always comes last, and punctuation
/// before it.
pub open spec fn wanted_translators(d: SchemeDef) -> Seq<Wanted> {
    (if d.engine.translators@.len() == 0 {
        seq![
            Wanted::Family {
                kind: match d.translator {
                    TranslatorKind::ExactCode => TranslatorKindSpec::ExactCode,
                    TranslatorKind::SpellingGraph => TranslatorKindSpec::SpellingGraph,
                },
                completion: false,
                quality: milli(0),
                tag: None,
            },
        ]
    } else {
        listed_translators(d, d.engine.translators@.len() as int)
    }) + (if has_punct(d) {
        seq![Wanted::Punct]
    } else {
        seq![]
    }) + seq![Wanted::Echo]
}

/// Whether a translator is of a family. Without a spelling table a scheme gets
/// exact codes.
pub open spec fn of_family(
    l: LoadedScheme,
    kind: TranslatorKindSpec,
    completion: bool,
    quality: Score,
    t: Translator,
) -> bool {
    if kind == TranslatorKindSpec::SpellingGraph && l.spelling is Some {
        &&& t matches Translator::Graph(x)
        &&& Some(x.spelling) == l.spelling
        &&& x.lexicon == l.lexicon
        &&& x.completion == completion
        &&& x.quality == quality
    } else {
        &&& t matches Translator::Exact(x)
        &&& x.alphabet@ == l.alphabet@
        &&& x.lexicon == l.lexicon
        &&& x.completion == (completion && kind == TranslatorKindSpec::ExactCode)
        &&& x.quality == quality
    }
}

/// Whether a translator is the one that was asked for.
pub open spec fn meant_translator(l: LoadedScheme, w: Wanted, t: AnyTranslator) -> bool {
    match w {
        Wanted::Family { kind, completion, quality, tag } => match tag {
            None => t matches AnyTranslator::Plain(x) && of_family(l, kind, completion, quality, x),
            Some(tag) => {
                &&& t matches AnyTranslator::Tagged(x)
                &&& of_family(l, kind, completion, quality, x.inner)
                &&& views(x.tags@) == seq![tag]
                &&& !x.strip_affix
            },
        },
        Wanted::Punct => {
            &&& t matches AnyTranslator::Plain(x)
            &&& x matches Translator::Punct(p)
            &&& text_map(p.half) == row_map(rows_read(l.def.punctuator.half_shape@))
            &&& text_map(p.full) == row_map(rows_read(l.def.punctuator.full_shape@))
            &&& text_map(p.symbols) == row_map(
                bare_rows(l.def.punctuator.symbol_prefix, rows_read(l.def.punctuator.symbols@)),
            )
            &&& p.symbol_prefix == l.def.punctuator.symbol_prefix
            &&& text_opt(p.full_shape_option) == Some("full_shape"@)
        },
        Wanted::Echo => t matches AnyTranslator::Plain(x) && x is Echo,
    }
}

/// Whether translators are those that were asked for, in their order.
pub open spec fn meant_translators(l: LoadedScheme, ws: Seq<Wanted>, ts: Seq<AnyTranslator>) -> bool {
    ts.len() == ws.len() && forall|i: int|
        0 <= i < ts.len() ==> meant_translator(l, ws[i], #[trigger] ts[i]) && ts[i].bare().wf()
}

impl LoadedScheme {
    fn make_translator(&self, kind: TranslatorKindSpec, spec: &TranslatorSpec) -> (r: Translator)
        requires
            self.wf(),
        ensures
            of_family(
                *self,
                kind,
                spec.enable_word_completion == Some(true),
                quality_of(spec.initial_quality),
                r,
            ),
            r.wf(),
    {
        match kind {
            TranslatorKindSpec::SpellingGraph => match &self.spelling {
                Some(t) => Translator::Graph(
                    crate::translator::SpellingGraphTranslator::new(
                        share(t),
                        share(&self.lexicon),
                    ).with_completion(spec.completion()).with_initial_quality(spec.initial_quality),
                ),
                None => Translator::Exact(
                    crate::translator::ExactCodeTranslator::new(
                        &self.alphabet,
                        share(&self.lexicon),
                    ).with_initial_quality(spec.initial_quality),
                ),
            },
            TranslatorKindSpec::ExactCode => Translator::Exact(
                crate::translator::ExactCodeTranslator::new(
                    &self.alphabet,
                    share(&self.lexicon),
                ).with_completion(spec.completion()).with_initial_quality(spec.initial_quality),
            ),
        }
    }

    fn find_affix_tag(&self, alias: Option<&str>) -> (r: Option<Tag>)
        ensures
            match affix_tag(
                *self.def,
                match alias {
                    Some(a) => Some(a@),
                    None => None,
                },
            ) {
                Some(t) => r matches Some(x) && x@ == t,
                None => r is None,
            },
    {
        match alias {
            None => None,
            Some(a) => match find_affix(&self.def, a) {
                Some(i) => self.def.affixes[i].1.tag,
                None => None,
            },
        }
    }

    fn make_listed(&self, name: &str) -> (r: Option<AnyTranslator>)
        requires
            self.wf(),
        ensures
            match wanted_translator(*self.def, name@) {
                Some(w) => r matches Some(t) && meant_translator(*self, w, t) && t.bare().wf(),
                None => r is None,
            },
    {
        let (component, alias) = split_alias(name);
        let kind = match TranslatorKindSpec::parse(component) {
            Some(k) => k,
            None => {
                return None;
            },
        };
        let key = match alias {
            Some(a) => a,
            None => "",
        };
        proof {
            reveal_strlit("");
            assert(""@ =~= seq![]);
        }
        let spec = self.translator_spec(key);
        let inner = self.make_translator(kind, &spec);
        match self.find_affix_tag(alias) {
            None => Some(AnyTranslator::Plain(inner)),
            Some(tag) => {
                let mut tags: Vec<Tag> = Vec::new();
                tags.push(tag);
                assert(views(tags@) =~= seq![tag@]);
                Some(
                    AnyTranslator::Tagged(
                        TaggedTranslator::new(inner, tags).without_affix_stripping(),
                    ),
                )
            },
        }
    }

    fn make_family(&self) -> (r: AnyTranslator)
        requires
            self.wf(),
        ensures
            meant_translator(
                *self,
                (Wanted::Family {
                    kind: match self.def.translator {
                        TranslatorKind::ExactCode => TranslatorKindSpec::ExactCode,
                        TranslatorKind::SpellingGraph => TranslatorKindSpec::SpellingGraph,
                    },
                    completion: false,
                    quality: milli(0),
                    tag: None,
                }),
                r,
            ),
            r.bare().wf(),
    {
        let kind = match self.def.translator {
            TranslatorKind::ExactCode => TranslatorKindSpec::ExactCode,
            TranslatorKind::SpellingGraph => TranslatorKindSpec::SpellingGraph,
        };
        let blank = TranslatorSpec {
            component: String::new(),
            alias: None,
            dictionary: None,
            enable_word_completion: None,
            enable_sentence: None,
            initial_quality: None,
            comment_format: Vec::new(),
            preedit_format: Vec::new(),
            prefix: None,
            tips: None,
            at: crate::spec::At::new(0),
        };
        AnyTranslator::Plain(self.make_translator(kind, &blank))
    }

    fn make_translators(&self) -> (r: Vec<AnyTranslator>)
        requires
            self.wf(),
        ensures
            meant_translators(*self, wanted_translators(*self.def), r@),
    {
        let mut out: Vec<AnyTranslator> = Vec::new();
        let names = &self.def.engine.translators;
        if names.len() == 0 {
            out.push(self.make_family());
        } else {
            let mut i: usize = 0;
            while i < names.len()
                invariant
                    i <= names@.len(),
                    *names == self.def.engine.translators,
                    self.wf(),
                    meant_translators(*self, listed_translators(*self.def, i as int), out@),
                decreases names.len() - i,
            {
                let ghost had = out@;
                if let Some(t) = self.make_listed(names[i].as_str()) {
                    out.push(t);
                    assert forall|j: int| 0 <= j < out@.len() implies meant_translator(
                        *self,
                        listed_translators(*self.def, i + 1)[j],
                        #[trigger] out@[j],
                    ) && out@[j].bare().wf() by {
                        if j < had.len() {
                            assert(out@[j] == had[j]);
                        }
                    }
                }
                i += 1;
            }
        }
        let ghost first = out@;
        if holds_text(&self.def.engine.processors, "punctuator") || holds_text(
            &self.def.engine.segmentors,
            "punct_segmentor",
        ) {
            out.push(
                AnyTranslator::Plain(
                    Translator::Punct(
                        PunctTranslator::new(
                            &self.def.punctuator,
                            Some("full_shape".to_owned()),
                        ),
                    ),
                ),
            );
        }
        out.push(
            AnyTranslator::Plain(Translator::Echo(crate::translator::EchoTranslator::new())),
        );
        assert(out@.len() == wanted_translators(*self.def).len());
        assert forall|j: int| 0 <= j < out@.len() implies meant_translator(
            *self,
            wanted_translators(*self.def)[j],
            #[trigger] out@[j],
        ) && out@[j].bare().wf() by {
            if j < first.len() {
                assert(out@[j] == first[j]);
            }
        }
        out
    }
}

// ---------------------------------------------------------------------------
// Filters
// ---------------------------------------------------------------------------

/// A rule as it is written. Only rules that rewrite a text are written back;
/// the others have no place in a format.
pub open spec fn rule_text(r: Rule) -> Seq<char> {
    match r {
        Rule::Xform { pattern, repl } => "xform/"@ + pattern.source@ + "/"@ + repl@ + "/"@,
        Rule::Xlit { from, to } => "xlit/"@ + from@ + "/"@ + to@ + "/"@,
        _ => seq![],
    }
}

/// Writes a rule.
pub fn rule_to_spec(r: &Rule) -> (s: String)
    ensures
        s@ == rule_text(*r),
{
    match r {
        Rule::Xform { pattern, repl } => "xform/".to_owned().concat(
            pattern.source.as_str(),
        ).concat("/").concat(repl.as_str()).concat("/"),
        Rule::Xlit { from, to } => {
            let f = from_chars(from.as_slice());
            let t = from_chars(to.as_slice());
            "xlit/".to_owned().concat(f.as_str()).concat("/").concat(t.as_str()).concat("/")
        },
        _ => {
            let e = String::new();
            assert(e@ =~= seq![]);
            e
        },
    }
}

/// The texts of some rules.
pub open spec fn rule_texts(rs: Seq<Rule>) -> Seq<Seq<char>> {
    Seq::new(rs.len(), |i: int| rule_text(rs[i]))
}

/// Whether a format is the one that some rules write: none where there are no
/// rules or one of them does not belong in a format.
pub open spec fn meant_format(rs: Seq<Rule>, f: Option<SpellingFormat>) -> bool {
    let specs = rule_texts(rs);
    if rs.len() == 0 || first_refusal(specs, 0) is Some {
        f is None
    } else {
        &&& f matches Some(x)
        &&& x.operations().len() == specs.len()
        &&& forall|i: int|
            0 <= i < specs.len() ==> rule_of(#[trigger] specs[i]) == Ok::<Operation, RuleRefusal>(
                x.operations()[i],
            )
    }
}

fn make_format(rules: &Vec<Rule>) -> (r: Option<SpellingFormat>)
    ensures
        meant_format(rules@, r),
{
    let mut specs: Vec<String> = Vec::new();
    let mut i: usize = 0;
    while i < rules.len()
        invariant
            i <= rules@.len(),
            specs@.len() == i,
            forall|j: int| 0 <= j < i ==> (#[trigger] specs@[j])@ == rule_text(rules@[j]),
        decreases rules.len() - i,
    {
        specs.push(rule_to_spec(&rules[i]));
        i += 1;
    }
    assert(views(specs@) =~= rule_texts(rules@));
    match SpellingFormat::parse_all(specs.as_slice()) {
        Ok(f) => {
            if f.is_empty() {
                None
            } else {
                assert(f.operations().len() == specs@.len());
                Some(f)
            }
        },
        Err(_) => None,
    }
}

/// A filter that a scheme asks for.
pub enum WantedFilter {
    Unique,
    /// The reverse lookup at a place.
    Reverse(int),
    /// The converter at a place.
    Convert(int),
}

/// The reverse lookup with an alias.
pub open spec fn reverse_place(d: SchemeDef, alias: Seq<char>, from: int) -> Option<int>
    decreases d.reverse_lookups@.len() - from,
{
    if from < 0 || from >= d.reverse_lookups@.len() {
        None
    } else if d.reverse_lookups@[from].0@ == alias {
        Some(from)
    } else {
        reverse_place(d, alias, from + 1)
    }
}

/// The converter with an alias.
pub open spec fn converter_place(d: SchemeDef, alias: Seq<char>, from: int) -> Option<int>
    decreases d.converters@.len() - from,
{
    if from < 0 || from >= d.converters@.len() {
        None
    } else if d.converters@[from].0@ == alias {
        Some(from)
    } else {
        converter_place(d, alias, from + 1)
    }
}

/// The filter that a scheme asks for by a name, where it asks for one.
pub open spec fn wanted_filter(d: SchemeDef, name: Seq<char>) -> Option<WantedFilter> {
    let (component, alias) = component_alias(name);
    if component == "uniquifier"@ {
        Some(WantedFilter::Unique)
    } else if component == "reverse_lookup_filter"@ {
        match alias {
            None => None,
            Some(a) => match reverse_place(d, a, 0) {
                Some(i) => Some(WantedFilter::Reverse(i)),
                None => None,
            },
        }
    } else if component == "simplifier"@ {
        match alias {
            None => None,
            Some(a) => match converter_place(d, a, 0) {
                Some(i) => Some(WantedFilter::Convert(i)),
                None => None,
            },
        }
    } else {
        None
    }
}

/// The filters that a scheme asks for by the first `n` of its names.
pub open spec fn listed_filters(d: SchemeDef, n: int) -> Seq<WantedFilter>
    decreases n,
{
    if n <= 0 {
        seq![]
    } else {
        let head = listed_filters(d, n - 1);
        match wanted_filter(d, d.engine.filters@[n - 1]@) {
            Some(w) => head.push(w),
            None => head,
        }
    }
}

/// The filters that a scheme asks for. One that asks for none still shows no
/// text twice.
pub open spec fn wanted_filters(d: SchemeDef) -> Seq<WantedFilter> {
    let listed = listed_filters(d, d.engine.filters@.len() as int);
    if listed.len() == 0 {
        seq![WantedFilter::Unique]
    } else {
        listed
    }
}

/// Whether a filter is the one that was asked for.
pub open spec fn meant_filter(d: SchemeDef, w: WantedFilter, f: AnyFilter) -> bool {
    match w {
        WantedFilter::Unique => f matches AnyFilter::Plain(x) && x is Uniquifier,
        WantedFilter::Reverse(i) => {
            let spec = d.reverse_lookups@[i].1;
            &&& f matches AnyFilter::Tagged(t)
            &&& t.tags@ == spec.tags@
            &&& t.inner matches Filter::ReverseLookup(x)
            &&& x.lexicon.table().len() == 0
            &&& meant_format(spec.comment_format@, x.comment_format)
            &&& x.overwrite_comment == spec.overwrite_comment
        },
        WantedFilter::Convert(i) => {
            let spec = d.converters@[i].2;
            &&& f.bare() matches Filter::Converter(x)
            &&& x.table == d.converters@[i].1
            &&& x.option_name == spec.option_name
            &&& x.inherit_comment == spec.inherit_comment
            &&& x.penalty.milli == DEFAULT_PENALTY_MILLI
            &&& match f {
                AnyFilter::Plain(_) => spec.tags@.len() == 0,
                AnyFilter::Tagged(t) => spec.tags@.len() > 0 && t.tags@ == spec.tags@,
            }
        },
    }
}

/// Whether filters are those that were asked for, in their order.
pub open spec fn meant_filters(d: SchemeDef, ws: Seq<WantedFilter>, fs: Seq<AnyFilter>) -> bool {
    fs.len() == ws.len() && forall|i: int|
        0 <= i < fs.len() ==> meant_filter(d, ws[i], #[trigger] fs[i]) && fs[i].bare().wf()
}

fn find_reverse(d: &SchemeDef, alias: &str) -> (r: Option<usize>)
    ensures
        match reverse_place(*d, alias@, 0) {
            Some(i) => r matches Some(k) && k == i && k < d.reverse_lookups@.len(),
            None => r is None,
        },
{
    let mut i: usize = 0;
    while i < d.reverse_lookups.len()
        invariant
            i <= d.reverse_lookups@.len(),
            reverse_place(*d, alias@, 0) == reverse_place(*d, alias@, i as int),
        decreases d.reverse_lookups.len() - i,
    {
        if same_text(d.reverse_lookups[i].0.as_str(), alias) {
            return Some(i);
        }
        i += 1;
    }
    None
}

fn find_converter(d: &SchemeDef, alias: &str) -> (r: Option<usize>)
    ensures
        match converter_place(*d, alias@, 0) {
            Some(i) => r matches Some(k) && k == i && k < d.converters@.len(),
            None => r is None,
        },
{
    let mut i: usize = 0;
    while i < d.converters.len()
        invariant
            i <= d.converters@.len(),
            converter_place(*d, alias@, 0) == converter_place(*d, alias@, i as int),
        decreases d.converters.len() - i,
    {
        if same_text(d.converters[i].0.as_str(), alias) {
            return Some(i);
        }
        i += 1;
    }
    None
}

fn make_reverse(d: &SchemeDef, i: usize) -> (r: AnyFilter)
    requires
        i < d.reverse_lookups@.len(),
    ensures
        meant_filter(*d, WantedFilter::Reverse(i as int), r),
        r.bare().wf(),
{
    let spec = &d.reverse_lookups[i].1;
    let none: Vec<(String, Vec<String>)> = Vec::new();
    let index = TextIndex::from_entries(none.as_slice());
    AnyFilter::Tagged(
        TaggedFilter::new(
            Filter::ReverseLookup(
                ReverseLookupFilter::new(
                    index,
                    make_format(&spec.comment_format),
                    spec.overwrite_comment,
                ),
            ),
            copy_tags(&spec.tags),
        ),
    )
}

fn make_converter(d: &SchemeDef, i: usize) -> (r: AnyFilter)
    requires
        i < d.converters@.len(),
        d.converters@[i as int].1.wf(),
    ensures
        meant_filter(*d, WantedFilter::Convert(i as int), r),
        r.bare().wf(),
{
    let spec = &d.converters[i].2;
    let inner = Filter::Converter(
        Converter::new(
            share(&d.converters[i].1),
            copy_opt(&spec.option_name),
            spec.inherit_comment,
            Score::zero(),
        ),
    );
    if spec.tags.len() == 0 {
        AnyFilter::Plain(inner)
    } else {
        AnyFilter::Tagged(TaggedFilter::new(inner, copy_tags(&spec.tags)))
    }
}

fn make_filter(d: &SchemeDef, name: &str) -> (r: Option<AnyFilter>)
    requires
        d.valid(),
    ensures
        match wanted_filter(*d, name@) {
            Some(w) => r matches Some(f) && meant_filter(*d, w, f) && f.bare().wf(),
            None => r is None,
        },
{
    let (component, alias) = split_alias(name);
    if same_text(component, "uniquifier") {
        Some(AnyFilter::Plain(Filter::Uniquifier(Uniquifier)))
    } else if same_text(component, "reverse_lookup_filter") {
        match alias {
            None => None,
            Some(a) => match find_reverse(d, a) {
                Some(i) => Some(make_reverse(d, i)),
                None => None,
            },
        }
    } else if same_text(component, "simplifier") {
        match alias {
            None => None,
            Some(a) => match find_converter(d, a) {
                Some(i) => Some(make_converter(d, i)),
                None => None,
            },
        }
    } else {
        None
    }
}

fn make_filters(d: &SchemeDef) -> (r: Vec<AnyFilter>)
    requires
        d.valid(),
    ensures
        meant_filters(*d, wanted_filters(*d), r@),
{
    let mut out: Vec<AnyFilter> = Vec::new();
    let mut i: usize = 0;
    while i < d.engine.filters.len()
        invariant
            i <= d.engine.filters@.len(),
            d.valid(),
            meant_filters(*d, listed_filters(*d, i as int), out@),
        decreases d.engine.filters.len() - i,
    {
        let ghost had = out@;
        if let Some(f) = make_filter(d, d.engine.filters[i].as_str()) {
            out.push(f);
            assert forall|j: int| 0 <= j < out@.len() implies meant_filter(
                *d,
                listed_filters(*d, i + 1)[j],
                #[trigger] out@[j],
            ) && out@[j].bare().wf() by {
                if j < had.len() {
                    assert(out@[j] == had[j]);
                }
            }
        }
        i += 1;
    }
    if out.len() == 0 {
        out.push(AnyFilter::Plain(Filter::Uniquifier(Uniquifier)));
    }
    out
}

// ---------------------------------------------------------------------------
// The pipeline
// ---------------------------------------------------------------------------

/// Whether a pipeline is the one that a scheme declares.
pub open spec fn meant_pipeline(l: LoadedScheme, p: PipelineImpl) -> bool {
    let d = *l.def;
    &&& p.tag == d.tag
    &&& meant_recognizer(d, p.recognizer)
    &&& p.cutters() == meant_cutters(d, d.engine.segmentors@.len() as int)
    &&& meant_processors(d, p.processors@)
    &&& meant_translators(l, wanted_translators(d), p.translators@)
    &&& meant_filters(d, wanted_filters(d), p.filters@)
    &&& p.cap == d.candidate_cap
    &&& p.page_size == (if d.page_size < 1 {
        1
    } else {
        d.page_size
    })
    &&& p.delimiter == d.preedit_delimiter
    &&& p.spelling == l.spelling
    &&& p.predictions is None
}

impl LoadedScheme {
    /// Puts together a pipeline for one session: every component that the
    /// scheme declares, in the order in which it declares them. Whether each of
    /// its translators can be reached, [`PipelineImpl::tags_are_given`] tells.
    #[must_use]
    pub fn build_pipeline(&self) -> (r: PipelineImpl)
        requires
            self.wf(),
        ensures
            meant_pipeline(*self, r),
            r.wf(),
    {
        let d = &self.def;
        let processors = make_processors(d);
        let built = build_segmentors(d);
        let translators = self.make_translators();
        let filters = make_filters(d);
        let spelling = match &self.spelling {
            Some(t) => Some(share(t)),
            None => None,
        };
        PipelineImpl::new(d.tag, processors, translators, filters, d.candidate_cap).with_segmentors(
            built.recognizer,
            built.segmentors,
        ).with_page_size(d.page_size).with_preedit(d.preedit_delimiter, spelling)
    }
}

// ---------------------------------------------------------------------------
// Laws
// ---------------------------------------------------------------------------

proof fn split_whole(p: Seq<char>, sep: char)
    requires
        !p.contains(sep),
    ensures
        split_on(p, sep) == seq![p],
    decreases p.len(),
{
    if p.len() > 0 {
        let d = p.drop_last();
        assert(!d.contains(sep)) by {
            if d.contains(sep) {
                let k = d.index_of(sep);
                assert(p[k] == sep);
            }
        }
        assert(p.last() != sep) by {
            assert(p[p.len() - 1] == p.last());
        }
        split_whole(d, sep);
        assert(d.push(p.last()) =~= p);
        assert(split_on(p, sep) =~= seq![p]);
    } else {
        assert(p =~= seq![]);
        assert(split_on(p, sep) =~= seq![p]);
    }
}

proof fn split_one_more(h: Seq<char>, p: Seq<char>, sep: char)
    requires
        !p.contains(sep),
    ensures
        split_on(h.push(sep) + p, sep) == split_on(h, sep).push(p),
    decreases p.len(),
{
    let s = h.push(sep) + p;
    if p.len() == 0 {
        assert(s =~= h.push(sep));
        assert(s.drop_last() =~= h);
        assert(p =~= seq![]);
    } else {
        let d = p.drop_last();
        assert(!d.contains(sep)) by {
            if d.contains(sep) {
                let k = d.index_of(sep);
                assert(p[k] == sep);
            }
        }
        assert(p.last() != sep) by {
            assert(p[p.len() - 1] == p.last());
        }
        split_one_more(h, d, sep);
        assert(s.drop_last() =~= h.push(sep) + d);
        assert(d.push(p.last()) =~= p);
        let head = split_on(h, sep).push(d);
        assert(head.drop_last() =~= split_on(h, sep));
    }
}

proof fn plain_letters_pass(head: Seq<char>, rest: Seq<char>)
    requires
        forall|i: int| 0 <= i < head.len() ==> !separates(#[trigger] head[i]),
    ensures
        separator(head + rest) == separator(rest),
    decreases head.len(),
{
    if head.len() > 0 {
        plain_letters_pass(head.drop_first(), rest);
        assert((head + rest).drop_first() =~= head.drop_first() + rest);
        assert((head + rest)[0] == head[0]);
    } else {
        assert(head + rest =~= rest);
    }
}

proof fn written_rule_splits(op: Seq<char>, a: Seq<char>, b: Seq<char>)
    requires
        op.len() > 0,
        forall|i: int| 0 <= i < op.len() ==> !separates(#[trigger] op[i]),
        !op.contains('/'),
        !a.contains('/'),
        !b.contains('/'),
        forall|i: int| 0 <= i < op.len() ==> !char_is_whitespace(#[trigger] op[i]),
    ensures
        ({
            let s = op.push('/') + a + "/"@ + b + "/"@;
            &&& rule_parts(s) == seq![op, a, b, seq![]]
            &&& rule_of(s) == operation(op, seq![a, b, seq![]])
        }),
{
    reveal_strlit("/");
    let s = op.push('/') + a + "/"@ + b + "/"@;
    assert("/"@ =~= seq!['/']);
    let s1 = op.push('/') + a;
    let s2 = s1.push('/') + b;
    assert(s =~= s2.push('/') + seq![]);
    split_whole(op, '/');
    split_one_more(op, a, '/');
    split_one_more(s1, b, '/');
    assert(!Seq::<char>::empty().contains('/'));
    split_one_more(s2, seq![], '/');
    let parts = split_on(s, '/');
    assert(parts =~= seq![op, a, b, seq![]]);
    let rest = seq!['/'] + a + "/"@ + b + "/"@;
    assert(op + rest =~= s);
    plain_letters_pass(op, rest);
    assert(rest[0] == '/');
    assert(separator(s) == '/');
    assert(s[0] == op[0]);
    assert(s.last() == '/');
    assert(trimmed(s) == s);
    assert(op.last() == op[op.len() - 1]);
    assert(trimmed(op) == op);
    assert(parts.drop_first() =~= seq![a, b, seq![]]);
}

/// A rule that rewrites texts says the same once it is written and read again,
/// where its own parts do not hold the mark between them.
#[verifier::rlimit(30)]
pub proof fn written_rules_read_back(r: Rule)
    requires
        match r {
            Rule::Xform { pattern, repl } => {
                &&& !pattern.source@.contains('/')
                &&& !repl@.contains('/')
                &&& parse(pattern.source@) == Ok::<(Node, int), Refusal>((pattern.root, pattern.groups as int))
                &&& pattern.step_budget == DEFAULT_STEP_BUDGET
            },
            Rule::Xlit { from, to } => {
                &&& !from@.contains('/')
                &&& !to@.contains('/')
                &&& from@.len() == to@.len()
            },
            _ => false,
        },
    ensures
        rule_of(rule_text(r)) == Ok::<Operation, RuleRefusal>(r@),
{
    reveal_strlit("xform/");
    reveal_strlit("xlit/");
    reveal_strlit("xform");
    reveal_strlit("xlit");
    match r {
        Rule::Xform { pattern, repl } => {
            let op = "xform"@;
            assert("xform/"@ =~= op.push('/'));
            assert("xlit"@.len() != op.len());
            written_rule_splits(op, pattern.source@, repl@);
        },
        Rule::Xlit { from, to } => {
            let op = "xlit"@;
            assert("xlit/"@ =~= op.push('/'));
            written_rule_splits(op, from@, to@);
        },
        _ => {},
    }
}

/// A rule that rewrites texts is written as it was read, where the slash stands
/// between its parts and in none of them.
#[verifier::rlimit(30)]
pub proof fn read_rules_are_written_back(op: Seq<char>, a: Seq<char>, b: Seq<char>, r: Rule)
    requires
        op == "xform"@ || op == "xlit"@,
        !a.contains('/'),
        !b.contains('/'),
        read_from(r, op + "/"@ + a + "/"@ + b + "/"@),
    ensures
        rule_text(r) == op + "/"@ + a + "/"@ + b + "/"@,
{
    reveal_strlit("/");
    reveal_strlit("xform/");
    reveal_strlit("xlit/");
    reveal_strlit("xform");
    reveal_strlit("xlit");
    assert("xlit"@.len() != "xform"@.len());
    assert(op + "/"@ =~= op.push('/'));
    written_rule_splits(op, a, b);
    assert(seq![a, b, seq![]][0] == a);
    assert("xform/"@ =~= "xform"@ + "/"@);
    assert("xlit/"@ =~= "xlit"@ + "/"@);
}

proof fn same_bindings_meet_alike(
    a: Seq<KeyBinding>,
    b: Seq<KeyBinding>,
    s: State,
    key: Key,
    from: int,
)
    requires
        same_bindings(a, b),
        0 <= from,
    ensures
        met_binding(a, s, key, from) == met_binding(b, s, key, from),
        met_binding(a, s, key, from) matches Some(i) ==> 0 <= i < a.len(),
    decreases a.len() - from,
{
    if from < a.len() {
        assert(same_binding(a[from], b[from]));
        same_bindings_meet_alike(a, b, s, key, from + 1);
    }
}

/// Bindings that say the same do the same.
pub proof fn same_bindings_act_alike(a: &KeyBinder, b: &KeyBinder, s: State, key: Key)
    requires
        same_bindings(a.bindings@, b.bindings@),
    ensures
        a.step(s, key) == b.step(s, key),
{
    same_bindings_meet_alike(a.bindings@, b.bindings@, s, key, 0);
    match met_binding(a.bindings@, s, key, 0) {
        Some(i) => {
            assert(same_binding(a.bindings@[i], b.bindings@[i]));
        },
        None => {},
    }
}

/// Whatever a scheme declares, its pipeline echoes the input, last of all.
pub proof fn every_scheme_echoes(l: LoadedScheme, p: PipelineImpl)
    requires
        meant_pipeline(l, p),
    ensures
        p.translators@.len() > 0,
        p.translators@.last() is Plain,
        p.translators@.last()->Plain_0 is Echo,
{
    let n = p.translators@.len() - 1;
    assert(wanted_translators(*l.def)[n] == Wanted::Echo);
    assert(meant_translator(l, wanted_translators(*l.def)[n], p.translators@[n]));
}

/// Whatever a scheme declares, what was typed can be committed as it is,
/// wherever its words leave room for one more candidate.
pub proof fn every_scheme_commits_what_was_typed(l: LoadedScheme, p: PipelineImpl, s: State)
    requires
        meant_pipeline(l, p),
        p.wf(),
        s.input.len() > 0,
        leaves_room(&p, s, p.translators@.len() - 1),
    ensures
        has_text(p.composed(s).1, s.input),
{
    every_scheme_echoes(l, p);
    assert forall|i: int| 0 <= i < p.filters@.len() implies (#[trigger] p.filters@[i]).bare()
        !is AutoCap by {
        assert(meant_filter(*l.def, wanted_filters(*l.def)[i], p.filters@[i]));
    }
    what_was_typed_can_be_committed(&p, s, p.translators@.len() - 1);
}

} // verus!
