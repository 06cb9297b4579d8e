//! Copies of schemes.

use vstd::prelude::*;
use std::sync::Arc;
use crate::candidate::copy_opt;
use crate::keyspec::KeyChord;
use crate::lexicon::Source;
use crate::options::Switch;
use crate::order::views;
use crate::regex::Regex;
use crate::registry::ExternalData;
use crate::share::share;
use crate::spec::{
    AffixSpec, EditorAction, EngineSpec, KeyBinding, NavigatorSpec, PunctuatorSpec, RecogPattern,
    RecognizerSpec, ReverseLookupSpec, SimplifierSpec, TranslatorSpec,
};
use crate::spelling::{pattern_source, Rule};
use crate::table::TextTable;
use crate::tag::copy_tags;
use super::assembly::{copy_binding, same_binding, same_bindings};
use super::issues::{
    alias_issue, alias_issues, component_issues, configured, converter_switches, declared_names,
    has_switch, needed_switches, switch_issues,
};
use super::{copy_translator_spec, data_issues, same_translator_spec, DictSource, SchemeDef};

verus! {

/// Copies the items of a list one by one.
fn copy_each<T, F: Fn(&T) -> T>(v: &Vec<T>, copy: F, Ghost(same): Ghost<spec_fn(T, T) -> bool>) -> (r:
    Vec<T>)
    requires
        forall|x: &T| #[trigger] call_requires(copy, (x,)),
        forall|x: &T, y: T| #[trigger] call_ensures(copy, (x,), y) ==> same(y, *x),
    ensures
        r@.len() == v@.len(),
        forall|i: int| 0 <= i < r@.len() ==> same(#[trigger] r@[i], v@[i]),
{
    let mut out: Vec<T> = Vec::new();
    let mut i: usize = 0;
    while i < v.len()
        invariant
            i <= v@.len(),
            out@.len() == i,
            forall|x: &T| #[trigger] call_requires(copy, (x,)),
            forall|x: &T, y: T| #[trigger] call_ensures(copy, (x,), y) ==> same(y, *x),
            forall|j: int| 0 <= j < i ==> same(#[trigger] out@[j], v@[j]),
        decreases v.len() - i,
    {
        let x = copy(&v[i]);
        out.push(x);
        i += 1;
    }
    out
}

fn copy_exactly<T, F: Fn(&T) -> T>(v: &Vec<T>, copy: F) -> (r: Vec<T>)
    requires
        forall|x: &T| #[trigger] call_requires(copy, (x,)),
        forall|x: &T, y: T| #[trigger] call_ensures(copy, (x,), y) ==> y == *x,
    ensures
        r@ == v@,
{
    let r = copy_each(v, copy, Ghost(|a: T, b: T| a == b));
    assert(r@ =~= v@);
    r
}

fn copy_text(s: &String) -> (r: String)
    ensures
        r == *s,
{
    s.clone()
}

fn copy_row(p: &(String, String)) -> (r: (String, String))
    ensures
        r == *p,
{
    (p.0.clone(), p.1.clone())
}

fn copy_char(c: &char) -> (r: char)
    ensures
        r == *c,
{
    *c
}

fn copy_chord(c: &KeyChord) -> (r: KeyChord)
    ensures
        r == *c,
{
    *c
}

fn copy_action(p: &(KeyChord, EditorAction)) -> (r: (KeyChord, EditorAction))
    ensures
        r == *p,
{
    (p.0, p.1)
}

fn copy_datum(d: &ExternalData<'static>) -> (r: ExternalData<'static>)
    ensures
        r == *d,
{
    ExternalData { alias: d.alias, present: d.present }
}

fn copy_pattern(p: &RecogPattern) -> (r: RecogPattern)
    ensures
        r == *p,
{
    RecogPattern {
        name: p.name.clone(),
        leading: p.leading.clone(),
        regex: p.regex.clone(),
        trailing: copy_opt(&p.trailing),
        at: p.at,
    }
}

fn copy_regex(re: &Regex) -> (r: Regex)
    ensures
        r == *re,
{
    Regex {
        root: re.root.clone(),
        groups: re.groups,
        source: re.source.clone(),
        step_budget: re.step_budget,
    }
}

/// Whether two switches say the same.
pub open spec fn same_switch(a: Switch, b: Switch) -> bool {
    a@ == b@
}

fn copy_switch(s: &Switch) -> (r: Switch)
    ensures
        same_switch(r, *s),
{
    s.clone()
}

/// Whether two words say the same.
pub open spec fn same_source(a: Source, b: Source) -> bool {
    a@ == b@
}

fn copy_source(s: &Source) -> (r: Source)
    ensures
        same_source(r, *s),
{
    let r = Source {
        units: copy_exactly(&s.units, copy_text),
        text: s.text.clone(),
        score: s.score,
    };
    assert(r@.units =~= s@.units);
    r
}

/// Whether two rules say the same, in the same words.
pub open spec fn same_rule(a: Rule, b: Rule) -> bool {
    a@ == b@ && pattern_source(a) == pattern_source(b)
}

fn copy_pair(p: &(char, char)) -> (r: (char, char))
    ensures
        r == *p,
{
    (p.0, p.1)
}

fn copy_rule(r: &Rule) -> (c: Rule)
    ensures
        same_rule(c, *r),
{
    match r {
        Rule::Xlit { from, to } => Rule::Xlit {
            from: copy_exactly(from, copy_char),
            to: copy_exactly(to, copy_char),
        },
        Rule::Xform { pattern, repl } => Rule::Xform {
            pattern: copy_regex(pattern),
            repl: repl.clone(),
        },
        Rule::Erase { pattern } => Rule::Erase { pattern: copy_regex(pattern) },
        Rule::Equivalence { pairs, cost } => Rule::Equivalence {
            pairs: copy_exactly(pairs, copy_pair),
            cost: *cost,
        },
        Rule::Derive { pattern, repl, cost, attr } => Rule::Derive {
            pattern: copy_regex(pattern),
            repl: repl.clone(),
            cost: *cost,
            attr: *attr,
        },
    }
}

/// Whether two lists of rules say the same.
pub open spec fn same_rules(a: Seq<Rule>, b: Seq<Rule>) -> bool {
    a.len() == b.len() && forall|i: int| 0 <= i < a.len() ==> same_rule(#[trigger] a[i], b[i])
}

fn copy_rules(v: &Vec<Rule>) -> (r: Vec<Rule>)
    ensures
        same_rules(r@, v@),
{
    copy_each(v, copy_rule, Ghost(|a: Rule, b: Rule| same_rule(a, b)))
}

/// Whether two affixes under their aliases say the same.
pub open spec fn same_affix(a: (String, AffixSpec), b: (String, AffixSpec)) -> bool {
    &&& a.0 == b.0
    &&& a.1.tag == b.1.tag
    &&& a.1.prefix == b.1.prefix
    &&& a.1.suffix == b.1.suffix
    &&& a.1.extra_tags@ == b.1.extra_tags@
    &&& a.1.tips == b.1.tips
    &&& a.1.at == b.1.at
}

fn copy_affix(a: &(String, AffixSpec)) -> (r: (String, AffixSpec))
    ensures
        same_affix(r, *a),
{
    (
        a.0.clone(),
        AffixSpec {
            tag: a.1.tag,
            prefix: copy_opt(&a.1.prefix),
            suffix: copy_opt(&a.1.suffix),
            extra_tags: copy_tags(&a.1.extra_tags),
            tips: copy_opt(&a.1.tips),
            at: a.1.at,
        },
    )
}

/// Whether two reverse lookups under their aliases say the same.
pub open spec fn same_lookup(
    a: (String, ReverseLookupSpec),
    b: (String, ReverseLookupSpec),
) -> bool {
    &&& a.0 == b.0
    &&& a.1.tags@ == b.1.tags@
    &&& a.1.dictionary == b.1.dictionary
    &&& same_rules(a.1.comment_format@, b.1.comment_format@)
    &&& a.1.overwrite_comment == b.1.overwrite_comment
    &&& a.1.at == b.1.at
}

fn copy_lookup(a: &(String, ReverseLookupSpec)) -> (r: (String, ReverseLookupSpec))
    ensures
        same_lookup(r, *a),
{
    (
        a.0.clone(),
        ReverseLookupSpec {
            tags: copy_tags(&a.1.tags),
            dictionary: copy_opt(&a.1.dictionary),
            comment_format: copy_rules(&a.1.comment_format),
            overwrite_comment: a.1.overwrite_comment,
            at: a.1.at,
        },
    )
}

/// Whether two converters under their aliases say the same.
pub open spec fn same_converter(
    a: (String, Arc<TextTable<Vec<String>>>, SimplifierSpec),
    b: (String, Arc<TextTable<Vec<String>>>, SimplifierSpec),
) -> bool {
    &&& a.0 == b.0
    &&& a.1 == b.1
    &&& a.2.option_name == b.2.option_name
    &&& a.2.opencc_config == b.2.opencc_config
    &&& a.2.tips == b.2.tips
    &&& a.2.inherit_comment == b.2.inherit_comment
    &&& a.2.tags@ == b.2.tags@
    &&& a.2.at == b.2.at
}

fn copy_converter(a: &(String, Arc<TextTable<Vec<String>>>, SimplifierSpec)) -> (r: (
    String,
    Arc<TextTable<Vec<String>>>,
    SimplifierSpec,
))
    ensures
        same_converter(r, *a),
{
    (
        a.0.clone(),
        share(&a.1),
        SimplifierSpec {
            option_name: copy_opt(&a.2.option_name),
            opencc_config: copy_opt(&a.2.opencc_config),
            tips: a.2.tips,
            inherit_comment: a.2.inherit_comment,
            tags: copy_tags(&a.2.tags),
            at: a.2.at,
        },
    )
}

/// Whether two configurations of translators under their aliases say the same.
pub open spec fn same_instance(a: (String, TranslatorSpec), b: (String, TranslatorSpec)) -> bool {
    a.0 == b.0 && same_translator_spec(a.1, b.1)
}

fn copy_instance(a: &(String, TranslatorSpec)) -> (r: (String, TranslatorSpec))
    ensures
        same_instance(r, *a),
{
    (a.0.clone(), copy_translator_spec(&a.1))
}

/// Whether two sources of words say the same.
pub open spec fn same_dictionary(a: DictSource, b: DictSource) -> bool {
    match a {
        DictSource::Inline(v) => b matches DictSource::Inline(w) && views(v@) == views(w@),
        DictSource::External(l) => b matches DictSource::External(m) && l == m,
    }
}

/// Whether two schemes say the same.
pub open spec fn same_scheme(a: SchemeDef, b: SchemeDef) -> bool {
    &&& a.info == b.info
    &&& views(a.switches@) == views(b.switches@)
    &&& a.tag == b.tag
    &&& a.alphabet@ == b.alphabet@
    &&& same_rules(a.rules@, b.rules@)
    &&& same_dictionary(a.dictionary, b.dictionary)
    &&& a.translator == b.translator
    &&& a.candidate_cap == b.candidate_cap
    &&& a.preedit_delimiter == b.preedit_delimiter
    &&& a.engine.processors@ == b.engine.processors@
    &&& a.engine.segmentors@ == b.engine.segmentors@
    &&& a.engine.translators@ == b.engine.translators@
    &&& a.engine.filters@ == b.engine.filters@
    &&& a.engine.tag == b.engine.tag
    &&& a.recognizer.import_preset == b.recognizer.import_preset
    &&& a.recognizer.patterns@ == b.recognizer.patterns@
    &&& a.punctuator.full_shape@ == b.punctuator.full_shape@
    &&& a.punctuator.half_shape@ == b.punctuator.half_shape@
    &&& a.punctuator.symbols@ == b.punctuator.symbols@
    &&& a.punctuator.symbol_prefix == b.punctuator.symbol_prefix
    &&& a.punctuator.at == b.punctuator.at
    &&& a.editor_bindings@ == b.editor_bindings@
    &&& same_bindings(a.key_bindings@, b.key_bindings@)
    &&& a.navigator.page_up@ == b.navigator.page_up@
    &&& a.navigator.page_down@ == b.navigator.page_down@
    &&& a.navigator.up@ == b.navigator.up@
    &&& a.navigator.down@ == b.navigator.down@
    &&& a.navigator.at == b.navigator.at
    &&& a.affixes@.len() == b.affixes@.len()
    &&& forall|i: int|
        0 <= i < a.affixes@.len() ==> same_affix(#[trigger] a.affixes@[i], b.affixes@[i])
    &&& a.reverse_lookups@.len() == b.reverse_lookups@.len()
    &&& forall|i: int|
        0 <= i < a.reverse_lookups@.len() ==> same_lookup(
            #[trigger] a.reverse_lookups@[i],
            b.reverse_lookups@[i],
        )
    &&& a.converters@.len() == b.converters@.len()
    &&& forall|i: int|
        0 <= i < a.converters@.len() ==> same_converter(
            #[trigger] a.converters@[i],
            b.converters@[i],
        )
    &&& a.translator_specs@.len() == b.translator_specs@.len()
    &&& forall|i: int|
        0 <= i < a.translator_specs@.len() ==> same_instance(
            #[trigger] a.translator_specs@[i],
            b.translator_specs@[i],
        )
    &&& a.input_alphabet@ == b.input_alphabet@
    &&& a.page_size == b.page_size
    &&& a.external_data@ == b.external_data@
    &&& a.custom.rows@ == b.custom.rows@
}

fn copy_dictionary(d: &DictSource) -> (r: DictSource)
    ensures
        same_dictionary(r, *d),
{
    match d {
        DictSource::Inline(v) => {
            let w = copy_each(v, copy_source, Ghost(|a: Source, b: Source| same_source(a, b)));
            assert(views(w@) =~= views(v@)) by {
                assert forall|i: int| 0 <= i < w@.len() implies #[trigger] views(w@)[i] == views(
                    v@,
                )[i] by {
                    assert(same_source(w@[i], v@[i]));
                }
            }
            DictSource::Inline(w)
        },
        DictSource::External(l) => DictSource::External(share(l)),
    }
}

impl SchemeDef {
    /// A copy to hand to an engine, which keeps what it is given.
    #[must_use]
    pub fn for_engine(&self) -> (r: Self)
        ensures
            same_scheme(r, *self),
            self.valid() ==> r.valid(),
    {
        let switches = copy_each(
            &self.switches,
            copy_switch,
            Ghost(|a: Switch, b: Switch| same_switch(a, b)),
        );
        assert(views(switches@) =~= views(self.switches@)) by {
            assert forall|i: int| 0 <= i < switches@.len() implies #[trigger] views(switches@)[i]
                == views(self.switches@)[i] by {
                assert(same_switch(switches@[i], self.switches@[i]));
            }
        }
        SchemeDef {
            info: self.info.clone(),
            switches,
            tag: self.tag,
            alphabet: copy_exactly(&self.alphabet, copy_text),
            rules: copy_rules(&self.rules),
            dictionary: copy_dictionary(&self.dictionary),
            translator: self.translator,
            candidate_cap: self.candidate_cap,
            preedit_delimiter: self.preedit_delimiter,
            engine: EngineSpec {
                processors: copy_exactly(&self.engine.processors, copy_text),
                segmentors: copy_exactly(&self.engine.segmentors, copy_text),
                translators: copy_exactly(&self.engine.translators, copy_text),
                filters: copy_exactly(&self.engine.filters, copy_text),
                tag: copy_opt(&self.engine.tag),
            },
            recognizer: RecognizerSpec {
                import_preset: copy_opt(&self.recognizer.import_preset),
                patterns: copy_exactly(&self.recognizer.patterns, copy_pattern),
            },
            punctuator: PunctuatorSpec {
                full_shape: copy_exactly(&self.punctuator.full_shape, copy_row),
                half_shape: copy_exactly(&self.punctuator.half_shape, copy_row),
                symbols: copy_exactly(&self.punctuator.symbols, copy_row),
                symbol_prefix: self.punctuator.symbol_prefix,
                at: self.punctuator.at,
            },
            editor_bindings: copy_exactly(&self.editor_bindings, copy_action),
            key_bindings: copy_each(
                &self.key_bindings,
                copy_binding,
                Ghost(|a: KeyBinding, b: KeyBinding| same_binding(a, b)),
            ),
            navigator: NavigatorSpec {
                page_up: copy_exactly(&self.navigator.page_up, copy_chord),
                page_down: copy_exactly(&self.navigator.page_down, copy_chord),
                up: copy_exactly(&self.navigator.up, copy_chord),
                down: copy_exactly(&self.navigator.down, copy_chord),
                at: self.navigator.at,
            },
            affixes: copy_each(
                &self.affixes,
                copy_affix,
                Ghost(|a: (String, AffixSpec), b: (String, AffixSpec)| same_affix(a, b)),
            ),
            reverse_lookups: copy_each(
                &self.reverse_lookups,
                copy_lookup,
                Ghost(
                    |a: (String, ReverseLookupSpec), b: (String, ReverseLookupSpec)|
                        same_lookup(a, b),
                ),
            ),
            converters: copy_each(
                &self.converters,
                copy_converter,
                Ghost(
                    |
                        a: (String, Arc<TextTable<Vec<String>>>, SimplifierSpec),
                        b: (String, Arc<TextTable<Vec<String>>>, SimplifierSpec),
                    | same_converter(a, b),
                ),
            ),
            translator_specs: copy_each(
                &self.translator_specs,
                copy_instance,
                Ghost(
                    |a: (String, TranslatorSpec), b: (String, TranslatorSpec)| same_instance(a, b),
                ),
            ),
            input_alphabet: copy_exactly(&self.input_alphabet, copy_char),
            page_size: self.page_size,
            external_data: copy_exactly(&self.external_data, copy_datum),
            custom: TextTable { rows: copy_exactly(&self.custom.rows, copy_row) },
        }
    }
}

// ---------------------------------------------------------------------------
// Laws
// ---------------------------------------------------------------------------

proof fn same_schemes_configure_alike(a: SchemeDef, b: SchemeDef, alias: Seq<char>)
    requires
        same_scheme(a, b),
    ensures
        configured(a, alias) == configured(b, alias),
{
    assert forall|i: int| 0 <= i < a.affixes@.len() implies (#[trigger] b.affixes@[i]).0
        == a.affixes@[i].0 by {
        assert(same_affix(a.affixes@[i], b.affixes@[i]));
    }
    assert forall|i: int| 0 <= i < a.reverse_lookups@.len() implies (
    #[trigger] b.reverse_lookups@[i]).0 == a.reverse_lookups@[i].0 by {
        assert(same_lookup(a.reverse_lookups@[i], b.reverse_lookups@[i]));
    }
    assert forall|i: int| 0 <= i < a.converters@.len() implies (#[trigger] b.converters@[i]).0
        == a.converters@[i].0 by {
        assert(same_converter(a.converters@[i], b.converters@[i]));
    }
    assert forall|i: int| 0 <= i < a.translator_specs@.len() implies (
    #[trigger] b.translator_specs@[i]).0 == a.translator_specs@[i].0 by {
        assert(same_instance(a.translator_specs@[i], b.translator_specs@[i]));
    }
}

proof fn same_alias_issues(a: SchemeDef, b: SchemeDef, names: Seq<Seq<char>>)
    requires
        same_scheme(a, b),
    ensures
        alias_issues(a, names) == alias_issues(b, names),
    decreases names.len(),
{
    if names.len() > 0 {
        same_alias_issues(a, b, names.drop_last());
        if let Some(alias) = crate::spec::component_alias(names.last()).1 {
            same_schemes_configure_alike(a, b, alias);
        }
        assert(alias_issue(a, names.last()) == alias_issue(b, names.last()));
    }
}

proof fn same_converter_switches(a: SchemeDef, b: SchemeDef, n: int)
    requires
        same_scheme(a, b),
        n <= a.converters@.len(),
    ensures
        converter_switches(a, n) == converter_switches(b, n),
    decreases n,
{
    if n > 0 {
        same_converter_switches(a, b, n - 1);
        assert(same_converter(a.converters@[n - 1], b.converters@[n - 1]));
    }
}

proof fn same_switch_issues(a: SchemeDef, b: SchemeDef, names: Seq<Seq<char>>)
    requires
        same_scheme(a, b),
    ensures
        switch_issues(a, names) == switch_issues(b, names),
    decreases names.len(),
{
    if names.len() > 0 {
        let name = names.last();
        same_switch_issues(a, b, names.drop_last());
        assert(a.switches@.len() == views(a.switches@).len());
        assert(b.switches@.len() == views(b.switches@).len());
        assert forall|i: int| 0 <= i < a.switches@.len() implies (#[trigger] a.switches@[i]).name@
            == b.switches@[i].name@ by {
            assert(views(a.switches@)[i] == views(b.switches@)[i]);
        }
        if has_switch(a, name) {
            let i = choose|i: int|
                0 <= i < a.switches@.len() && (#[trigger] a.switches@[i]).name@ == name;
            assert(b.switches@[i].name@ == name);
        }
        if has_switch(b, name) {
            let i = choose|i: int|
                0 <= i < b.switches@.len() && (#[trigger] b.switches@[i]).name@ == name;
            assert(a.switches@[i].name@ == name);
        }
    }
}

/// The same is wrong with schemes that say the same, so that a copy compiles
/// where its model does.
pub proof fn copies_have_the_same_issues(a: SchemeDef, b: SchemeDef)
    requires
        same_scheme(a, b),
    ensures
        data_issues(a) == data_issues(b),
        component_issues(a) == component_issues(b),
{
    assert(declared_names(a) == declared_names(b));
    same_alias_issues(a, b, declared_names(a));
    same_converter_switches(a, b, a.converters@.len() as int);
    assert(needed_switches(a) == needed_switches(b));
    same_switch_issues(a, b, needed_switches(a));
}

} // verus!
