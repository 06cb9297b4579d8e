//! What scheme files say, as plain data: the configuration of each component.

use vstd::prelude::*;
use crate::code::Score;
use crate::keyspec::KeyChord;
use crate::order::views;
use crate::spelling::Rule;
use crate::tag::Tag;
use crate::text::{same_text, to_chars};
use vstd::string::StrSliceExecFns;

verus! {

/// The line of a scheme file that something was read from, counted from one.
#[derive(Clone, Copy, Debug, Default, PartialEq, Eq, Structural)]
pub struct At {
    pub line: usize,
}

impl At {
    #[must_use]
    pub fn new(line: usize) -> (r: Self)
        ensures
            r.line == line,
    {
        At { line }
    }
}

/// What an editor key does.
#[derive(Clone, Copy, Debug, PartialEq, Eq, Structural)]
pub enum EditorAction {
    /// Commits the highlighted candidate.
    Confirm,
    /// Commits the input as typed.
    CommitRawInput,
    /// Commits the preedit text.
    CommitScriptText,
    /// Takes back the last character.
    Revert,
    /// Takes back the last code unit.
    BackUnit,
    /// Deletes the character after the caret.
    DeleteForward,
    /// Gives the input up.
    Cancel,
    /// Commits the comment of the highlighted candidate.
    CommitComment,
    /// Confirms the selection and commits what is left of the input.
    CommitComposition,
    /// Reopens the last selected segment, or confirms.
    ReopenOrConfirm,
    /// Takes back a segment, a selection or a character, whichever there is.
    BackStep,
    /// Deletes the highlighted candidate from the user's words.
    DeleteCandidate,
    /// Takes the key's binding away.
    Noop,
}

/// The action that a name stands for.
pub open spec fn editor_action(name: Seq<char>) -> Option<EditorAction> {
    if name == "confirm"@ {
        Some(EditorAction::Confirm)
    } else if name == "commit_raw_input"@ {
        Some(EditorAction::CommitRawInput)
    } else if name == "commit_script_text"@ {
        Some(EditorAction::CommitScriptText)
    } else if name == "revert"@ {
        Some(EditorAction::Revert)
    } else if name == "back_syllable"@ || name == "back_unit"@ {
        Some(EditorAction::BackUnit)
    } else if name == "delete"@ {
        Some(EditorAction::DeleteForward)
    } else if name == "cancel"@ {
        Some(EditorAction::Cancel)
    } else if name == "commit_comment"@ {
        Some(EditorAction::CommitComment)
    } else if name == "commit_composition"@ {
        Some(EditorAction::CommitComposition)
    } else if name == "toggle_selection"@ {
        Some(EditorAction::ReopenOrConfirm)
    } else if name == "back"@ {
        Some(EditorAction::BackStep)
    } else if name == "delete_candidate"@ {
        Some(EditorAction::DeleteCandidate)
    } else if name == "noop"@ {
        Some(EditorAction::Noop)
    } else {
        None
    }
}

/// The names of all actions.
pub open spec fn editor_action_names() -> Seq<Seq<char>> {
    seq![
        "confirm"@,
        "commit_raw_input"@,
        "commit_script_text"@,
        "revert"@,
        "back_syllable"@,
        "delete"@,
        "cancel"@,
        "commit_comment"@,
        "commit_composition"@,
        "toggle_selection"@,
        "back"@,
        "delete_candidate"@,
        "noop"@,
    ]
}

impl EditorAction {
    /// Reads the name of an action; `None` for any other text.
    #[must_use]
    pub fn parse(name: &str) -> (r: Option<Self>)
        ensures
            r == editor_action(name@),
    {
        if same_text(name, "confirm") {
            Some(EditorAction::Confirm)
        } else if same_text(name, "commit_raw_input") {
            Some(EditorAction::CommitRawInput)
        } else if same_text(name, "commit_script_text") {
            Some(EditorAction::CommitScriptText)
        } else if same_text(name, "revert") {
            Some(EditorAction::Revert)
        } else if same_text(name, "back_syllable") || same_text(name, "back_unit") {
            Some(EditorAction::BackUnit)
        } else if same_text(name, "delete") {
            Some(EditorAction::DeleteForward)
        } else if same_text(name, "cancel") {
            Some(EditorAction::Cancel)
        } else if same_text(name, "commit_comment") {
            Some(EditorAction::CommitComment)
        } else if same_text(name, "commit_composition") {
            Some(EditorAction::CommitComposition)
        } else if same_text(name, "toggle_selection") {
            Some(EditorAction::ReopenOrConfirm)
        } else if same_text(name, "back") {
            Some(EditorAction::BackStep)
        } else if same_text(name, "delete_candidate") {
            Some(EditorAction::DeleteCandidate)
        } else if same_text(name, "noop") {
            Some(EditorAction::Noop)
        } else {
            None
        }
    }

    /// The names of all actions, for diagnosis.
    #[must_use]
    pub fn all_names() -> (r: Vec<&'static str>)
        ensures
            views(r@) == editor_action_names(),
    {
        let r = vec![
            "confirm",
            "commit_raw_input",
            "commit_script_text",
            "revert",
            "back_syllable",
            "delete",
            "cancel",
            "commit_comment",
            "commit_composition",
            "toggle_selection",
            "back",
            "delete_candidate",
            "noop",
        ];
        assert(views(r@) =~= editor_action_names());
        r
    }
}

/// One key of the editor.
#[derive(Clone, Copy, Debug, PartialEq, Eq, Structural)]
pub struct EditorBinding {
    pub chord: KeyChord,
    pub action: EditorAction,
    pub at: At,
}

/// A pattern that the recognizer looks for.
#[derive(Debug, PartialEq, Eq)]
pub struct RecogPattern {
    /// Its name, which is the tag it gives.
    pub name: String,
    /// What every match starts with; empty to have it worked out.
    pub leading: String,
    pub regex: String,
    /// What a match is meant to end with, as its author notes it; the recognizer
    /// goes by the regex.
    pub trailing: Option<String>,
    pub at: At,
}

/// The recognizer's configuration.
#[derive(Debug, Default, PartialEq, Eq)]
pub struct RecognizerSpec {
    /// A preset to take further patterns from.
    pub import_preset: Option<String>,
    pub patterns: Vec<RecogPattern>,
}

/// The configuration of a segmentor that strips a prefix and a suffix.
#[derive(Debug, Default, PartialEq, Eq)]
pub struct AffixSpec {
    pub tag: Option<Tag>,
    pub prefix: Option<String>,
    pub suffix: Option<String>,
    pub extra_tags: Vec<Tag>,
    pub tips: Option<String>,
    pub at: At,
}

/// The configuration of punctuation.
#[derive(Debug, Default, PartialEq, Eq)]
pub struct PunctuatorSpec {
    pub full_shape: Vec<(String, String)>,
    pub half_shape: Vec<(String, String)>,
    pub symbols: Vec<(String, String)>,
    /// The character that opens the table of symbols.
    pub symbol_prefix: Option<char>,
    pub at: At,
}

/// When a key binding applies.
#[derive(Clone, Copy, Debug, Default, PartialEq, Eq, Structural)]
pub enum WhenPredicate {
    #[default]
    Always,
    /// While there is input.
    Composing,
    /// While there is more than one page of candidates.
    Paging,
    /// While there are candidates.
    HasMenu,
    /// While a prediction is at hand. No part of an input is ever marked as one,
    /// so this never holds.
    Predicting,
}

/// The condition that a name stands for.
pub open spec fn when_predicate(name: Seq<char>) -> Option<WhenPredicate> {
    if name == "always"@ {
        Some(WhenPredicate::Always)
    } else if name == "composing"@ {
        Some(WhenPredicate::Composing)
    } else if name == "paging"@ {
        Some(WhenPredicate::Paging)
    } else if name == "has_menu"@ {
        Some(WhenPredicate::HasMenu)
    } else if name == "predicting"@ {
        Some(WhenPredicate::Predicting)
    } else {
        None
    }
}

/// The names of all conditions.
pub open spec fn when_predicate_names() -> Seq<Seq<char>> {
    seq!["always"@, "composing"@, "paging"@, "has_menu"@, "predicting"@]
}

impl WhenPredicate {
    /// Reads the name of a condition; `None` for any other text.
    #[must_use]
    pub fn parse(name: &str) -> (r: Option<Self>)
        ensures
            r == when_predicate(name@),
    {
        if same_text(name, "always") {
            Some(WhenPredicate::Always)
        } else if same_text(name, "composing") {
            Some(WhenPredicate::Composing)
        } else if same_text(name, "paging") {
            Some(WhenPredicate::Paging)
        } else if same_text(name, "has_menu") {
            Some(WhenPredicate::HasMenu)
        } else if same_text(name, "predicting") {
            Some(WhenPredicate::Predicting)
        } else {
            None
        }
    }

    /// The names of all conditions, for diagnosis.
    #[must_use]
    pub fn all_names() -> (r: Vec<&'static str>)
        ensures
            views(r@) == when_predicate_names(),
    {
        let r = vec!["always", "composing", "paging", "has_menu", "predicting"];
        assert(views(r@) =~= when_predicate_names());
        r
    }
}

/// A key that stands for other keys, or changes a switch.
#[derive(Debug, PartialEq, Eq)]
pub struct KeyBinding {
    pub when: WhenPredicate,
    pub accept: Vec<KeyChord>,
    /// The keys to send instead, by name.
    pub send_keys: Option<Vec<String>>,
    /// The switch to toggle.
    pub toggle: Option<String>,
    /// The switch to turn on.
    pub set_option: Option<String>,
    /// The switch to turn off.
    pub unset_option: Option<String>,
    pub at: At,
}

/// The keys that turn pages.
#[derive(Debug, Default, PartialEq, Eq)]
pub struct NavigatorSpec {
    pub page_up: Vec<KeyChord>,
    pub page_down: Vec<KeyChord>,
    /// Other keys for the same, such as minus and equal.
    pub up: Vec<KeyChord>,
    pub down: Vec<KeyChord>,
    pub at: At,
}

/// The configuration of reverse lookup.
#[derive(Debug, Default)]
pub struct ReverseLookupSpec {
    pub tags: Vec<Tag>,
    pub dictionary: Option<String>,
    pub comment_format: Vec<Rule>,
    pub overwrite_comment: bool,
    pub at: At,
}

/// The configuration of a conversion filter.
#[derive(Debug, Default)]
pub struct SimplifierSpec {
    pub option_name: Option<String>,
    pub opencc_config: Option<String>,
    pub tips: TipsMode,
    pub inherit_comment: bool,
    pub tags: Vec<Tag>,
    pub at: At,
}

/// When a conversion shows what it converted from.
#[derive(Clone, Copy, Debug, Default, PartialEq, Eq, Structural)]
pub enum TipsMode {
    #[default]
    All,
    /// For single characters only.
    Char,
    Never,
}

/// The mode that a name stands for.
pub open spec fn tips_mode(name: Seq<char>) -> Option<TipsMode> {
    if name == "all"@ {
        Some(TipsMode::All)
    } else if name == "char"@ {
        Some(TipsMode::Char)
    } else if name == "none"@ {
        Some(TipsMode::Never)
    } else {
        None
    }
}

impl TipsMode {
    /// Reads the name of a mode; `None` for any other text.
    #[must_use]
    pub fn parse(name: &str) -> (r: Option<Self>)
        ensures
            r == tips_mode(name@),
    {
        if same_text(name, "all") {
            Some(TipsMode::All)
        } else if same_text(name, "char") {
            Some(TipsMode::Char)
        } else if same_text(name, "none") {
            Some(TipsMode::Never)
        } else {
            None
        }
    }
}

/// Which family of translators a scheme uses.
#[derive(Clone, Copy, Debug, PartialEq, Eq, Structural)]
pub enum TranslatorKindSpec {
    SpellingGraph,
    ExactCode,
}

/// The family that a component name stands for.
pub open spec fn translator_kind(component: Seq<char>) -> Option<TranslatorKindSpec> {
    if component == "script_translator"@ {
        Some(TranslatorKindSpec::SpellingGraph)
    } else if component == "table_translator"@ {
        Some(TranslatorKindSpec::ExactCode)
    } else {
        None
    }
}

/// The component name of a family.
pub open spec fn translator_component(k: TranslatorKindSpec) -> Seq<char> {
    match k {
        TranslatorKindSpec::SpellingGraph => "script_translator"@,
        TranslatorKindSpec::ExactCode => "table_translator"@,
    }
}

impl TranslatorKindSpec {
    /// Reads a component name; `None` for any other text.
    #[must_use]
    pub fn parse(component: &str) -> (r: Option<Self>)
        ensures
            r == translator_kind(component@),
    {
        if same_text(component, "script_translator") {
            Some(TranslatorKindSpec::SpellingGraph)
        } else if same_text(component, "table_translator") {
            Some(TranslatorKindSpec::ExactCode)
        } else {
            None
        }
    }

    #[must_use]
    pub fn component_name(self) -> (r: &'static str)
        ensures
            r@ == translator_component(self),
    {
        match self {
            TranslatorKindSpec::SpellingGraph => "script_translator",
            TranslatorKindSpec::ExactCode => "table_translator",
        }
    }
}

/// The configuration of one translator.
#[derive(Debug, Default, PartialEq, Eq)]
pub struct TranslatorSpec {
    pub component: String,
    pub alias: Option<String>,
    pub dictionary: Option<String>,
    pub enable_word_completion: Option<bool>,
    pub enable_sentence: Option<bool>,
    /// What is added to the score of every candidate.
    pub initial_quality: Option<Score>,
    pub comment_format: Vec<String>,
    pub preedit_format: Vec<String>,
    pub prefix: Option<String>,
    pub tips: Option<String>,
    pub at: At,
}

impl TranslatorSpec {
    /// Whether words are completed where a scheme does not say.
    #[must_use]
    pub fn default_completion() -> (r: bool)
        ensures
            !r,
    {
        false
    }

    /// Whether words are completed.
    #[must_use]
    pub fn completion(&self) -> (r: bool)
        ensures
            r == (self.enable_word_completion == Some(true)),
    {
        match self.enable_word_completion {
            Some(on) => on,
            None => TranslatorSpec::default_completion(),
        }
    }
}

/// The components that a scheme lists, in order.
#[derive(Debug, Default, PartialEq, Eq)]
pub struct EngineSpec {
    pub processors: Vec<String>,
    pub segmentors: Vec<String>,
    pub translators: Vec<String>,
    pub filters: Vec<String>,
    pub tag: Option<String>,
}

impl EngineSpec {
    /// Whether the scheme lists any component.
    #[must_use]
    pub fn is_declared(&self) -> (r: bool)
        ensures
            r == (self.processors@.len() + self.segmentors@.len() + self.translators@.len()
                + self.filters@.len() > 0),
    {
        self.processors.len() > 0 || self.segmentors.len() > 0 || self.translators.len() > 0
            || self.filters.len() > 0
    }
}

/// The trigger words of the date translator.
#[derive(Debug)]
pub struct DateSpec {
    pub date: String,
    pub time: String,
    pub week: String,
    pub datetime: String,
    pub timestamp: String,
    pub date_zh: String,
    pub date_en: String,
    pub at: At,
}

impl Default for DateSpec {
    fn default() -> (r: Self)
        ensures
            r.date@ == "rq"@,
            r.time@ == "sj"@,
            r.week@ == "xq"@,
            r.datetime@ == "dt"@,
            r.timestamp@ == "ts"@,
            r.date_zh@ == "rqzh"@,
            r.date_en@ == "rqen"@,
            r.at.line == 0,
    {
        DateSpec {
            date: "rq".to_owned(),
            time: "sj".to_owned(),
            week: "xq".to_owned(),
            datetime: "dt".to_owned(),
            timestamp: "ts".to_owned(),
            date_zh: "rqzh".to_owned(),
            date_en: "rqen".to_owned(),
            at: At::new(0),
        }
    }
}

/// The configuration of the code point translator.
#[derive(Clone, Copy, Debug)]
pub struct UnicodeSpec {
    pub prefix: char,
    pub at: At,
}

impl Default for UnicodeSpec {
    fn default() -> (r: Self)
        ensures
            r.prefix == 'U',
            r.at.line == 0,
    {
        UnicodeSpec { prefix: 'U', at: At::new(0) }
    }
}

/// The configuration of the identifier translator.
#[derive(Debug)]
pub struct UuidSpec {
    pub trigger: String,
    pub at: At,
}

impl Default for UuidSpec {
    fn default() -> (r: Self)
        ensures
            r.trigger@ == "uuid"@,
            r.at.line == 0,
    {
        UuidSpec { trigger: "uuid".to_owned(), at: At::new(0) }
    }
}

/// The configuration of the number translator.
#[derive(Clone, Copy, Debug)]
pub struct NumberSpec {
    pub prefix: char,
    pub at: At,
}

impl Default for NumberSpec {
    fn default() -> (r: Self)
        ensures
            r.prefix == 'R',
            r.at.line == 0,
    {
        NumberSpec { prefix: 'R', at: At::new(0) }
    }
}

/// Which codes move English words down.
#[derive(Clone, Copy, Debug, PartialEq, Eq, Structural)]
pub enum ReduceMode {
    /// No code does.
    Never,
    /// Only the codes that the scheme lists.
    Custom,
    /// Those, and the built-in ones.
    All,
}

/// The configuration of the filter that moves English words down.
#[derive(Debug)]
pub struct ReduceEnglishSpec {
    pub mode: ReduceMode,
    pub idx: usize,
    pub words: Vec<String>,
    pub at: At,
}

/// Words to stand first under a code.
#[derive(Debug)]
pub struct PinEntry {
    pub preedit: String,
    pub texts: Vec<String>,
    pub at: At,
}

/// The configuration of the filter that puts words first.
#[derive(Debug)]
pub struct PinCandSpec {
    pub entries: Vec<PinEntry>,
    pub at: At,
}

/// The configuration of the filter that moves long words up.
#[derive(Clone, Copy, Debug)]
pub struct LongWordSpec {
    pub count: usize,
    pub idx: usize,
    pub at: At,
}

impl Default for LongWordSpec {
    fn default() -> (r: Self)
        ensures
            r.count == 2,
            r.idx == 4,
            r.at.line == 0,
    {
        LongWordSpec { count: 2, idx: 4, at: At::new(0) }
    }
}

/// The configuration of the filter that capitalises words: it has nothing to
/// set.
#[derive(Clone, Copy, Debug)]
pub struct AutoCapSpec {
    pub at: At,
}

impl Default for AutoCapSpec {
    fn default() -> (r: Self)
        ensures
            r.at.line == 0,
    {
        AutoCapSpec { at: At::new(0) }
    }
}


/// The first `@` of a name, from `from` on.
pub open spec fn alias_mark(name: Seq<char>, from: int) -> Option<int>
    decreases name.len() - from,
{
    if from < 0 || from >= name.len() {
        None
    } else if name[from] == '@' {
        Some(from)
    } else {
        alias_mark(name, from + 1)
    }
}

/// A component name and the alias behind its `@`. Without an alias the name
/// stands as it is.
pub open spec fn component_alias(name: Seq<char>) -> (Seq<char>, Option<Seq<char>>) {
    match alias_mark(name, 0) {
        Some(i) => if i + 1 < name.len() {
            (name.take(i), Some(name.skip(i + 1)))
        } else {
            (name, None)
        },
        None => (name, None),
    }
}

pub(crate) fn find_mark(cs: &Vec<char>) -> (r: Option<usize>)
    ensures
        match alias_mark(cs@, 0) {
            Some(i) => r matches Some(k) && k == i && i < cs@.len() && 0 <= i,
            None => r is None,
        },
{
    let mut i: usize = 0;
    while i < cs.len()
        invariant
            i <= cs.len(),
            alias_mark(cs@, 0) == alias_mark(cs@, i as int),
        decreases cs.len() - i,
    {
        if cs[i] == '@' {
            return Some(i);
        }
        i += 1;
    }
    None
}

/// Splits a component name from its alias.
#[must_use]
pub fn split_alias(name: &str) -> (r: (&str, Option<&str>))
    ensures
        r.0@ == component_alias(name@).0,
        match component_alias(name@).1 {
            Some(a) => r.1 matches Some(x) && x@ == a,
            None => r.1 is None,
        },
{
    let cs = to_chars(name);
    match find_mark(&cs) {
        Some(i) => {
            if cs.len() - i > 1 {
                let head = name.substring_char(0, i);
                let tail = name.substring_char(i + 1, cs.len());
                assert(name@.subrange(0, i as int) =~= name@.take(i as int));
                assert(name@.subrange(i + 1, name@.len() as int) =~= name@.skip(i + 1));
                (head, Some(tail))
            } else {
                (name, None)
            }
        },
        None => (name, None),
    }
}

// ---------------------------------------------------------------------------
// Laws
// ---------------------------------------------------------------------------

/// Every name listed as an action is one.
pub proof fn listed_actions_parse(i: int)
    requires
        0 <= i < editor_action_names().len(),
    ensures
        editor_action(editor_action_names()[i]) is Some,
{
}

/// Every name listed as a condition is one.
pub proof fn listed_conditions_parse(i: int)
    requires
        0 <= i < when_predicate_names().len(),
    ensures
        when_predicate(when_predicate_names()[i]) is Some,
{
}

/// A family is read back from its component name.
pub proof fn component_names_read_back(k: TranslatorKindSpec)
    ensures
        translator_kind(translator_component(k)) == Some(k),
{
    reveal_strlit("script_translator");
    reveal_strlit("table_translator");
    assert("script_translator"@[0] == 's');
    assert("table_translator"@[0] == 't');
}

/// A name and an alias with the mark between them part again at the first mark;
/// a name without a mark, or with nothing behind it, has no alias.
pub proof fn aliases_part_from_names(base: Seq<char>, alias: Seq<char>)
    requires
        !base.contains('@'),
    ensures
        alias.len() > 0 ==> component_alias(base + seq!['@'] + alias) == (base, Some(alias)),
        component_alias(base) == (base, None::<Seq<char>>),
        component_alias(base.push('@')) == (base.push('@'), None::<Seq<char>>),
{
    let name = base + seq!['@'] + alias;
    the_mark_is_found(base, name, 0);
    the_mark_is_found(base, base, 0);
    the_mark_is_found(base, base.push('@'), 0);
    assert(name.take(base.len() as int) =~= base);
    assert(name.skip(base.len() as int + 1) =~= alias);
}

proof fn the_mark_is_found(base: Seq<char>, name: Seq<char>, from: int)
    requires
        !base.contains('@'),
        base.len() <= name.len(),
        forall|i: int| 0 <= i < base.len() ==> #[trigger] name[i] == base[i],
        base.len() < name.len() ==> name[base.len() as int] == '@',
        0 <= from <= base.len(),
    ensures
        alias_mark(name, from) == (if base.len() < name.len() {
            Some(base.len() as int)
        } else {
            None
        }),
    decreases base.len() - from,
{
    if from < base.len() {
        assert(name[from] == base[from]);
        assert(base.contains(base[from]));
        the_mark_is_found(base, name, from + 1);
    }
}

} // verus!
