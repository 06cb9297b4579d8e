//! Schemes: what makes one input method differ from another, as data.
//!
//! A scheme declares its alphabet, its rules, its words and its components. It
//! is compiled once; every session then gets a pipeline of its own, which
//! shares the lexicon and the spelling table.

use std::sync::Arc;
use vstd::prelude::*;
use crate::candidate::{copy_opt, text_opt};
use crate::code::{copy_texts, CodeAlphabet, Score};
use crate::keyspec::KeyChord;
use crate::lexicon::{first_unknown, words_of, InMemoryLexicon, Row, Source};
use crate::options::{Options, Switch};
use crate::order::views;
use crate::registry::ExternalData;
use crate::share::share;
use crate::spec::{
    AffixSpec, At, EditorAction, EngineSpec, KeyBinding, NavigatorSpec, PunctuatorSpec,
    RecognizerSpec, ReverseLookupSpec, SimplifierSpec, TranslatorSpec,
};
use crate::spelling::{edges_of, Rule, SpellingTable};
use crate::table::TextTable;
use crate::tag::Tag;
use crate::text::{same_text, texts};

pub mod assembly;
pub mod copying;
pub mod issues;

use issues::{
    append_diagnostics, check_declared_components, component_issues, entry_issues,
    find_entry_issues, find_pattern_issues, pattern_issues,
};

verus! {

/// The version of the scheme format.
pub const SCHEME_FORMAT_VERSION: u32 = 1;

/// What a scheme is called.
#[derive(Debug, PartialEq, Eq)]
pub struct SchemaInfo {
    pub schema_id: String,
    pub name: String,
    pub version: String,
    pub format_version: u32,
    /// Schemes of one family share what they learn.
    pub family: Option<String>,
}

impl Clone for SchemaInfo {
    fn clone(&self) -> (r: Self)
        ensures
            r == *self,
    {
        SchemaInfo {
            schema_id: self.schema_id.clone(),
            name: self.name.clone(),
            version: self.version.clone(),
            format_version: self.format_version,
            family: match &self.family {
                Some(f) => Some(f.clone()),
                None => None,
            },
        }
    }
}

impl Default for SchemaInfo {
    fn default() -> (r: Self)
        ensures
            r.schema_id@ == Seq::<char>::empty(),
            r.name@ == Seq::<char>::empty(),
            r.version@ == Seq::<char>::empty(),
            r.format_version == 0,
            r.family is None,
    {
        SchemaInfo {
            schema_id: String::new(),
            name: String::new(),
            version: String::new(),
            format_version: 0,
            family: None,
        }
    }
}

/// Something that is wrong with a scheme.
#[derive(Debug, PartialEq, Eq)]
pub struct Diagnostic {
    /// Where it was found.
    pub path: String,
    pub message: String,
    /// What it concerns.
    pub field: Option<String>,
    /// The entry that is wrong, or what can be done about it.
    pub entry: Option<String>,
}

/// The mathematical reading of a [`Diagnostic`].
pub struct Issue {
    pub path: Seq<char>,
    pub message: Seq<char>,
    pub field: Option<Seq<char>>,
    pub entry: Option<Seq<char>>,
}

impl View for Diagnostic {
    type V = Issue;

    open spec fn view(&self) -> Issue {
        Issue {
            path: self.path@,
            message: self.message@,
            field: text_opt(self.field),
            entry: text_opt(self.entry),
        }
    }
}

impl Diagnostic {
    #[must_use]
    pub fn new(path: &str, message: String) -> (r: Self)
        ensures
            r@ == (Issue { path: path@, message: message@, field: None, entry: None }),
    {
        Diagnostic { path: path.to_owned(), message, field: None, entry: None }
    }

    #[must_use]
    pub fn with_field(self, field: &str) -> (r: Self)
        ensures
            r@ == (Issue { field: Some(field@), ..self@ }),
    {
        let mut r = self;
        r.field = Some(field.to_owned());
        r
    }

    #[must_use]
    pub fn with_entry(self, entry: String) -> (r: Self)
        ensures
            r@ == (Issue { entry: Some(entry@), ..self@ }),
    {
        let mut r = self;
        r.entry = Some(entry);
        r
    }
}

/// Why a scheme cannot be had.
#[derive(Debug, PartialEq, Eq)]
pub enum SchemaError {
    /// Its data contradict each other.
    Invalid { schema_id: String, diagnostics: Vec<Diagnostic> },
    /// There is none of that name.
    NotFound { schema_id: String },
}

/// Where the words of a scheme come from.
#[derive(Debug)]
pub enum DictSource {
    /// They are given here.
    Inline(Vec<Source>),
    /// They were compiled before.
    External(Arc<InMemoryLexicon>),
}

impl Default for DictSource {
    fn default() -> (r: Self)
        ensures
            r matches DictSource::Inline(v) && v@.len() == 0,
    {
        DictSource::Inline(Vec::new())
    }
}

/// The family of translators that a scheme uses.
#[derive(Clone, Copy, PartialEq, Eq, Debug, Structural)]
pub enum TranslatorKind {
    /// The input is one code, and is looked up.
    ExactCode,
    /// The input is a spelling, and is read as codes first.
    SpellingGraph,
}

impl Default for TranslatorKind {
    fn default() -> (r: Self)
        ensures
            r == TranslatorKind::ExactCode,
    {
        TranslatorKind::ExactCode
    }
}

/// A scheme as its author declares it.
#[derive(Debug)]
pub struct SchemeDef {
    pub info: SchemaInfo,
    pub switches: Vec<Switch>,
    /// The tag of ordinary input.
    pub tag: Tag,
    pub alphabet: Vec<String>,
    /// The rules of spelling; schemes of exact codes pass over them.
    pub rules: Vec<Rule>,
    pub dictionary: DictSource,
    pub translator: TranslatorKind,
    pub candidate_cap: usize,
    pub preedit_delimiter: Option<char>,
    /// The components; without them the usual ones are taken.
    pub engine: EngineSpec,
    pub recognizer: RecognizerSpec,
    pub punctuator: PunctuatorSpec,
    pub editor_bindings: Vec<(KeyChord, EditorAction)>,
    pub key_bindings: Vec<KeyBinding>,
    pub navigator: NavigatorSpec,
    pub affixes: Vec<(String, AffixSpec)>,
    pub reverse_lookups: Vec<(String, ReverseLookupSpec)>,
    pub converters: Vec<(String, Arc<TextTable<Vec<String>>>, SimplifierSpec)>,
    pub translator_specs: Vec<(String, TranslatorSpec)>,
    /// The characters that can be typed; any where it is empty.
    pub input_alphabet: Vec<char>,
    pub page_size: usize,
    /// Which components were given the data they need.
    pub external_data: Vec<ExternalData<'static>>,
    /// What a loader wants to hand on; nothing here reads it.
    pub custom: TextTable<String>,
}

/// Whether a scheme neither lists nor configures any component.
pub open spec fn leaves_components_alone(d: SchemeDef) -> bool {
    &&& d.preedit_delimiter is None
    &&& d.engine.processors@.len() == 0
    &&& d.engine.segmentors@.len() == 0
    &&& d.engine.translators@.len() == 0
    &&& d.engine.filters@.len() == 0
    &&& d.engine.tag is None
    &&& d.recognizer.import_preset is None
    &&& d.recognizer.patterns@.len() == 0
    &&& d.punctuator.full_shape@.len() == 0
    &&& d.punctuator.half_shape@.len() == 0
    &&& d.punctuator.symbols@.len() == 0
    &&& d.punctuator.symbol_prefix is None
    &&& d.punctuator.at.line == 0
    &&& d.editor_bindings@.len() == 0
    &&& d.key_bindings@.len() == 0
    &&& d.navigator.page_up@.len() == 0
    &&& d.navigator.page_down@.len() == 0
    &&& d.navigator.up@.len() == 0
    &&& d.navigator.down@.len() == 0
    &&& d.navigator.at.line == 0
    &&& d.affixes@.len() == 0
    &&& d.reverse_lookups@.len() == 0
    &&& d.converters@.len() == 0
    &&& d.translator_specs@.len() == 0
    &&& d.input_alphabet@.len() == 0
    &&& d.page_size == 0
    &&& d.external_data@.len() == 0
    &&& d.custom.rows@.len() == 0
}

impl Default for SchemeDef {
    fn default() -> (r: Self)
        ensures
            r.valid(),
            r.info.schema_id@ == Seq::<char>::empty(),
            r.info.name@ == Seq::<char>::empty(),
            r.info.version@ == Seq::<char>::empty(),
            r.info.format_version == 0,
            r.info.family is None,
            r.switches@.len() == 0,
            r.tag@ == ""@,
            r.alphabet@.len() == 0,
            r.rules@.len() == 0,
            r.dictionary matches DictSource::Inline(v) && v@.len() == 0,
            r.translator == TranslatorKind::ExactCode,
            r.candidate_cap == 0,
            leaves_components_alone(r),
    {
        SchemeDef {
            info: SchemaInfo::default(),
            switches: Vec::new(),
            tag: "",
            alphabet: Vec::new(),
            rules: Vec::new(),
            dictionary: DictSource::Inline(Vec::new()),
            translator: TranslatorKind::ExactCode,
            candidate_cap: 0,
            preedit_delimiter: None,
            engine: EngineSpec {
                processors: Vec::new(),
                segmentors: Vec::new(),
                translators: Vec::new(),
                filters: Vec::new(),
                tag: None,
            },
            recognizer: RecognizerSpec { import_preset: None, patterns: Vec::new() },
            punctuator: PunctuatorSpec {
                full_shape: Vec::new(),
                half_shape: Vec::new(),
                symbols: Vec::new(),
                symbol_prefix: None,
                at: At::new(0),
            },
            editor_bindings: Vec::new(),
            key_bindings: Vec::new(),
            navigator: NavigatorSpec {
                page_up: Vec::new(),
                page_down: Vec::new(),
                up: Vec::new(),
                down: Vec::new(),
                at: At::new(0),
            },
            affixes: Vec::new(),
            reverse_lookups: Vec::new(),
            converters: Vec::new(),
            translator_specs: Vec::new(),
            input_alphabet: Vec::new(),
            page_size: 0,
            external_data: Vec::new(),
            custom: TextTable::new(),
        }
    }
}

/// A row of a lexicon from texts and a score.
#[must_use]
pub fn entry(code: &[&str], word: &str, score: Score) -> (r: Source)
    ensures
        r@.units == Seq::new(code@.len(), |i: int| code@[i]@),
        r@.text == word@,
        r@.score == score,
{
    let mut units: Vec<String> = Vec::new();
    let mut i: usize = 0;
    while i < code.len()
        invariant
            i <= code@.len(),
            units@.len() == i,
            forall|j: int| 0 <= j < i ==> (#[trigger] units@[j])@ == code@[j]@,
        decreases code.len() - i,
    {
        units.push(code[i].to_owned());
        i += 1;
    }
    let r = Source { units, text: word.to_owned(), score };
    assert(r@.units =~= Seq::new(code@.len(), |i: int| code@[i]@));
    r
}

/// The switches as they stand at first; of two with one name the last counts.
pub open spec fn switches_at_start(s: Seq<(Seq<char>, bool)>) -> Map<Seq<char>, bool>
    decreases s.len(),
{
    if s.len() == 0 {
        Map::empty()
    } else {
        switches_at_start(s.drop_last()).insert(s.last().0, s.last().1)
    }
}

/// The rows that a scheme gives itself.
pub open spec fn inline_rows(d: SchemeDef) -> Seq<Row> {
    match d.dictionary {
        DictSource::Inline(v) => views(v@),
        DictSource::External(_) => seq![],
    }
}

/// What is wrong with the alphabet, the words and the patterns of a scheme.
pub open spec fn data_issues(d: SchemeDef) -> Seq<Issue> {
    let patterns = d.recognizer.patterns@;
    entry_issues(d.info.schema_id@, texts(d.alphabet@), inline_rows(d)) + pattern_issues(
        d.info.schema_id@,
        patterns,
        patterns.len() as int,
    )
}

/// Whether a scheme was compiled from its declaration.
pub open spec fn compiled_from(l: LoadedScheme, d: SchemeDef) -> bool {
    &&& *l.def == d
    &&& l.alphabet@ == texts(d.alphabet@)
    &&& l.options@ == switches_at_start(views(d.switches@))
    &&& match d.dictionary {
        DictSource::Inline(v) => l.lexicon.words() == words_of(texts(d.alphabet@), views(v@)),
        DictSource::External(x) => l.lexicon == x,
    }
    &&& match d.translator {
        TranslatorKind::ExactCode => l.spelling is None,
        TranslatorKind::SpellingGraph => {
            &&& l.spelling matches Some(t)
            &&& t.alphabet@ == texts(d.alphabet@)
            &&& t.edge_seq() == edges_of(texts(d.alphabet@), views(d.rules@))
        },
    }
}

/// A scheme that can be used.
#[derive(Debug)]
pub struct LoadedScheme {
    pub def: Arc<SchemeDef>,
    pub options: Options,
    pub alphabet: CodeAlphabet,
    pub spelling: Option<Arc<SpellingTable>>,
    pub lexicon: Arc<InMemoryLexicon>,
}

fn gather_switches(switches: &Vec<Switch>) -> (r: Options)
    ensures
        r@ == switches_at_start(views(switches@)),
{
    let ghost all = views(switches@);
    let mut options = Options::new();
    let mut i: usize = 0;
    assert(all.take(0) =~= seq![]);
    while i < switches.len()
        invariant
            i <= switches@.len(),
            all == views(switches@),
            options@ == switches_at_start(all.take(i as int)),
        decreases switches.len() - i,
    {
        proof {
            let f = all.take(i + 1);
            assert(f.drop_last() =~= all.take(i as int));
            assert(f.last() == switches@[i as int]@);
        }
        options.declare(switches[i].clone());
        i += 1;
    }
    assert(all.take(i as int) =~= all);
    options
}

proof fn no_issue_means_known(id: Seq<char>, units: Seq<Seq<char>>, rows: Seq<Row>)
    requires
        entry_issues(id, units, rows).len() == 0,
    ensures
        first_unknown(units, rows, 0) is None,
{
    issues::no_row_issue_means_known(id, units, rows, 0);
}

impl SchemeDef {
    /// The tables are in order, and the units can be numbered.
    pub open spec fn valid(&self) -> bool {
        &&& self.alphabet@.len() <= u32::MAX
        &&& forall|i: int| 0 <= i < self.converters@.len() ==> (#[trigger] self.converters@[i]).1.wf()
    }

    /// Compiles the scheme. All that is wrong with it is reported at once: with
    /// its data first, then with its components.
    pub fn compile(self) -> (r: Result<LoadedScheme, SchemaError>)
        requires
            self.valid(),
        ensures
            ({
                let data = data_issues(self);
                let parts = component_issues(self);
                if data.len() > 0 || parts.len() > 0 {
                    &&& r matches Err(SchemaError::Invalid { schema_id, diagnostics })
                    &&& schema_id@ == self.info.schema_id@
                    &&& views(diagnostics@) == data + parts
                } else {
                    r matches Ok(l) && compiled_from(l, self) && l.wf()
                }
            }),
    {
        let mut found = match &self.dictionary {
            DictSource::Inline(v) => find_entry_issues(
                self.info.schema_id.as_str(),
                &self.alphabet,
                v,
            ),
            DictSource::External(_) => {
                let none: Vec<Source> = Vec::new();
                assert(views(none@) =~= seq![]);
                find_entry_issues(self.info.schema_id.as_str(), &self.alphabet, &none)
            },
        };
        let bad = find_pattern_issues(self.info.schema_id.as_str(), &self.recognizer.patterns);
        append_diagnostics(&mut found, bad);
        assert(views(found@) == data_issues(self));
        assert(data_issues(self).len() == found@.len());
        let parts = check_declared_components(&self);
        assert(component_issues(self).len() == parts@.len());
        append_diagnostics(&mut found, parts);
        assert(views(found@).len() == found@.len());
        if found.len() > 0 {
            return Err(
                SchemaError::Invalid {
                    schema_id: self.info.schema_id.clone(),
                    diagnostics: found,
                },
            );
        }
        let alphabet = CodeAlphabet::new(copy_texts(&self.alphabet));
        assert(alphabet@ == texts(self.alphabet@));
        assert(alphabet.units@.len() == texts(self.alphabet@).len());
        proof {
            no_issue_means_known(self.info.schema_id@, alphabet@, inline_rows(self));
        }
        let lexicon = match &self.dictionary {
            DictSource::Inline(v) => {
                match InMemoryLexicon::from_entries(alphabet.clone(), v.as_slice()) {
                    Ok(l) => Arc::new(l),
                    Err(e) => {
                        let mut refused: Vec<Diagnostic> = Vec::new();
                        refused.push(Diagnostic::new("", e.message()));
                        return Err(
                            SchemaError::Invalid {
                                schema_id: self.info.schema_id.clone(),
                                diagnostics: refused,
                            },
                        );
                    },
                }
            },
            DictSource::External(l) => share(l),
        };
        let spelling = match self.translator {
            TranslatorKind::ExactCode => None,
            TranslatorKind::SpellingGraph => Some(
                Arc::new(SpellingTable::compile(alphabet.clone(), self.rules.as_slice())),
            ),
        };
        let options = gather_switches(&self.switches);
        Ok(LoadedScheme { def: Arc::new(self), options, alphabet, spelling, lexicon })
    }
}

/// The configuration under an alias.
pub open spec fn spec_place(s: Seq<(String, TranslatorSpec)>, alias: Seq<char>, from: int) -> Option<
    int,
>
    decreases s.len() - from,
{
    if from < 0 || from >= s.len() {
        None
    } else if s[from].0@ == alias {
        Some(from)
    } else {
        spec_place(s, alias, from + 1)
    }
}

/// Whether two configurations of translators say the same.
pub open spec fn same_translator_spec(a: TranslatorSpec, b: TranslatorSpec) -> bool {
    &&& a.component@ == b.component@
    &&& text_opt(a.alias) == text_opt(b.alias)
    &&& text_opt(a.dictionary) == text_opt(b.dictionary)
    &&& a.enable_word_completion == b.enable_word_completion
    &&& a.enable_sentence == b.enable_sentence
    &&& a.initial_quality == b.initial_quality
    &&& texts(a.comment_format@) == texts(b.comment_format@)
    &&& texts(a.preedit_format@) == texts(b.preedit_format@)
    &&& text_opt(a.prefix) == text_opt(b.prefix)
    &&& text_opt(a.tips) == text_opt(b.tips)
    &&& a.at == b.at
}

/// Whether a configuration says nothing.
pub open spec fn blank_translator_spec(a: TranslatorSpec) -> bool {
    &&& a.component@.len() == 0
    &&& a.alias is None
    &&& a.dictionary is None
    &&& a.enable_word_completion is None
    &&& a.enable_sentence is None
    &&& a.initial_quality is None
    &&& a.comment_format@.len() == 0
    &&& a.preedit_format@.len() == 0
    &&& a.prefix is None
    &&& a.tips is None
    &&& a.at.line == 0
}

pub(crate) fn copy_translator_spec(a: &TranslatorSpec) -> (r: TranslatorSpec)
    ensures
        same_translator_spec(r, *a),
{
    TranslatorSpec {
        component: a.component.clone(),
        alias: copy_opt(&a.alias),
        dictionary: copy_opt(&a.dictionary),
        enable_word_completion: a.enable_word_completion,
        enable_sentence: a.enable_sentence,
        initial_quality: a.initial_quality,
        comment_format: copy_texts(&a.comment_format),
        preedit_format: copy_texts(&a.preedit_format),
        prefix: copy_opt(&a.prefix),
        tips: copy_opt(&a.tips),
        at: a.at,
    }
}

/// The first entry of `external` for an alias.
pub open spec fn data_place(external: Seq<ExternalData>, alias: Seq<char>, from: int) -> Option<int>
    decreases external.len() - from,
{
    if from < 0 || from >= external.len() {
        None
    } else if external[from].alias@ == alias {
        Some(from)
    } else {
        data_place(external, alias, from + 1)
    }
}

impl LoadedScheme {
    /// The tables are in order.
    pub open spec fn wf(&self) -> bool {
        &&& self.def.valid()
        &&& self.alphabet.wf()
        &&& (self.spelling matches Some(t) ==> t.wf())
        &&& (self.def.translator == TranslatorKind::SpellingGraph ==> self.spelling is Some)
    }

    #[must_use]
    pub fn info(&self) -> (r: &SchemaInfo)
        ensures
            *r == self.def.info,
    {
        &self.def.info
    }

    #[must_use]
    pub fn options(&self) -> (r: &Options)
        ensures
            *r == self.options,
    {
        &self.options
    }

    #[must_use]
    pub fn alphabet(&self) -> (r: &CodeAlphabet)
        ensures
            *r == self.alphabet,
    {
        &self.alphabet
    }

    #[must_use]
    pub fn lexicon(&self) -> (r: Arc<InMemoryLexicon>)
        ensures
            r == self.lexicon,
    {
        share(&self.lexicon)
    }

    #[must_use]
    pub fn kind(&self) -> (r: TranslatorKind)
        ensures
            r == self.def.translator,
    {
        self.def.translator
    }

    /// Whether there is a spelling table. Schemes of exact codes have none.
    #[must_use]
    pub fn has_spelling_table(&self) -> (r: bool)
        ensures
            r == self.spelling is Some,
    {
        self.spelling.is_some()
    }

    #[must_use]
    pub fn tag(&self) -> (r: Tag)
        ensures
            r == self.def.tag,
    {
        self.def.tag
    }

    #[must_use]
    pub fn engine_spec(&self) -> (r: &EngineSpec)
        ensures
            *r == self.def.engine,
    {
        &self.def.engine
    }

    /// Whether the data for an alias were found; nothing where none are needed.
    #[must_use]
    pub fn external_data_present(&self, alias: &str) -> (r: Option<bool>)
        ensures
            r == (match data_place(self.def.external_data@, alias@, 0) {
                Some(i) => Some(self.def.external_data@[i].present),
                None => None,
            }),
    {
        let all = &self.def.external_data;
        let mut i: usize = 0;
        while i < all.len()
            invariant
                i <= all@.len(),
                *all == self.def.external_data,
                data_place(all@, alias@, 0) == data_place(all@, alias@, i as int),
            decreases all.len() - i,
        {
            if same_text(all[i].alias, alias) {
                return Some(all[i].present);
            }
            i += 1;
        }
        None
    }

    /// The configuration of the translator with an alias; a blank one where the
    /// scheme has none.
    #[must_use]
    pub fn translator_spec(&self, alias: &str) -> (r: TranslatorSpec)
        ensures
            match spec_place(self.def.translator_specs@, alias@, 0) {
                Some(i) => same_translator_spec(r, self.def.translator_specs@[i].1),
                None => blank_translator_spec(r),
            },
    {
        let all = &self.def.translator_specs;
        let mut i: usize = 0;
        while i < all.len()
            invariant
                i <= all@.len(),
                *all == self.def.translator_specs,
                spec_place(all@, alias@, 0) == spec_place(all@, alias@, i as int),
            decreases all.len() - i,
        {
            if same_text(all[i].0.as_str(), alias) {
                return copy_translator_spec(&all[i].1);
            }
            i += 1;
        }
        TranslatorSpec {
            component: String::new(),
            alias: None,
            dictionary: None,
            enable_word_completion: None,
            enable_sentence: None,
            initial_quality: None,
            comment_format: Vec::new(),
            preedit_format: Vec::new(),
            prefix: None,
            tips: None,
            at: At::new(0),
        }
    }
}

/// A switch stands at first as it is declared; of two with one name the last
/// counts.
pub proof fn switches_start_as_declared(s: Seq<(Seq<char>, bool)>, i: int)
    requires
        0 <= i < s.len(),
        forall|j: int| i < j < s.len() ==> (#[trigger] s[j]).0 != s[i].0,
    ensures
        switches_at_start(s).contains_key(s[i].0),
        switches_at_start(s)[s[i].0] == s[i].1,
    decreases s.len(),
{
    if i < s.len() - 1 {
        let t = s.drop_last();
        assert forall|j: int| i < j < t.len() implies (#[trigger] t[j]).0 != t[i].0 by {
            assert(t[j] == s[j]);
        }
        switches_start_as_declared(t, i);
        assert(s[s.len() - 1].0 != s[i].0);
    }
}

} // verus!
