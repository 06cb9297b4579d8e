//! Processors: what becomes of a key.
//!
//! A processor says whether a key is its own, and what it makes of the state.
//! It never commits anything itself: it leaves a wish in the state, and the
//! session fulfils it.

use vstd::prelude::*;
use crate::keyspec::{
    char_key, chord_hit, chord_of, key_for_char, mods_count, parse_key_name, Key, KeyChord,
    KeyCode, Modifiers, NamedKey,
};
use crate::options::{is_on, Options};
use crate::order::views;
use crate::spec::{EditorAction, KeyBinding, NavigatorSpec, WhenPredicate};
use crate::state::{
    keyboard_wish, selectable, wishing, with_cut, with_input, with_switch, without_input,
    PendingCommit, ProcessResult, SessionState, State, Trigger, Wish,
};
use crate::text::{
    at_byte, at_byte_inverse, byte_len, bytes_cover_chars, bytes_len, find_byte, part, prefix_bytes,
    push_char, texts, to_chars,
};

verus! {

/// Whether a key is held together with a modifier that belongs to the system.
pub open spec fn system_key(m: Modifiers) -> bool {
    m.ctrl || m.alt || m.meta
}

// ---------------------------------------------------------------------------
// Typing
// ---------------------------------------------------------------------------

/// Takes the characters that make up codes.
#[derive(Debug)]
pub struct Speller {
    /// Characters besides ASCII letters and digits that are taken.
    pub extra_accepted: Vec<char>,
    /// The only characters that are taken, where a scheme lists them.
    pub alphabet: Option<Vec<char>>,
    /// The switch that keeps the speller from working.
    pub blocked_by_option: Option<String>,
}

pub open spec fn is_alnum(c: char) -> bool {
    'a' <= c <= 'z' || 'A' <= c <= 'Z' || '0' <= c <= '9'
}

pub(crate) fn ascii_alnum(c: char) -> (r: bool)
    ensures
        r == is_alnum(c),
{
    ('a' <= c && c <= 'z') || ('A' <= c && c <= 'Z') || ('0' <= c && c <= '9')
}

fn has(v: &Vec<char>, c: char) -> (r: bool)
    ensures
        r == v@.contains(c),
{
    let mut i: usize = 0;
    while i < v.len()
        invariant
            i <= v@.len(),
            forall|j: int| 0 <= j < i ==> v@[j] != c,
        decreases v.len() - i,
    {
        if v[i] == c {
            return true;
        }
        i += 1;
    }
    false
}

impl Speller {
    /// Takes letters, digits and these characters.
    #[must_use]
    pub fn new(extra_accepted: Vec<char>) -> (r: Self)
        ensures
            r.extra_accepted == extra_accepted,
            r.alphabet is None,
            r.blocked_by_option is None,
    {
        Speller { extra_accepted, alphabet: None, blocked_by_option: None }
    }

    /// Takes only these characters.
    #[must_use]
    pub fn with_alphabet(self, alphabet: Vec<char>) -> (r: Self)
        ensures
            r == (Speller { alphabet: Some(alphabet), ..self }),
    {
        Speller { alphabet: Some(alphabet), ..self }
    }

    /// Does not work while a switch is on.
    #[must_use]
    pub fn blocked_by(self, option: &str) -> (r: Self)
        ensures
            r.extra_accepted == self.extra_accepted,
            r.alphabet == self.alphabet,
            r.blocked_by_option matches Some(n) && n@ == option@,
    {
        Speller { blocked_by_option: Some(option.to_owned()), ..self }
    }

    /// Whether a character is taken.
    pub open spec fn accepts(&self, c: char) -> bool {
        match self.alphabet {
            Some(a) => a@.contains(c),
            None => is_alnum(c) || self.extra_accepted@.contains(c),
        }
    }

    fn accepts_char(&self, c: char) -> (r: bool)
        ensures
            r == self.accepts(c),
    {
        match &self.alphabet {
            Some(a) => has(a, c),
            None => ascii_alnum(c) || has(&self.extra_accepted, c),
        }
    }

    /// Whether the speller works.
    pub open spec fn works(&self, options: Map<Seq<char>, bool>) -> bool {
        !(self.blocked_by_option matches Some(n) && is_on(options, n@))
    }

    /// Whether the speller works.
    pub fn enabled(&self, options: &Options) -> (r: bool)
        ensures
            r == self.works(options@),
    {
        match &self.blocked_by_option {
            Some(n) => !options.get(n.as_str()),
            None => true,
        }
    }

    /// What becomes of a key.
    pub open spec fn step(&self, s: State, key: Key) -> (State, ProcessResult) {
        if key.release {
            (s, ProcessResult::Noop)
        } else if system_key(key.mods) {
            (s, ProcessResult::Rejected)
        } else {
            match key.code {
                KeyCode::Char(c) => if self.accepts(c) {
                    (with_input(s, s.input.push(c)), ProcessResult::Accepted)
                } else {
                    (s, ProcessResult::Noop)
                },
                _ => (s, ProcessResult::Noop),
            }
        }
    }

    pub fn process(&mut self, state: &mut SessionState, key: &Key) -> (r: ProcessResult)
        ensures
            *final(self) == *old(self),
            (final(state)@, r) == old(self).step(old(state)@, *key),
            final(state).context == old(state).context,
            final(state).predict_count == old(state).predict_count,
    {
        if key.release {
            return ProcessResult::Noop;
        }
        if key.mods.ctrl || key.mods.alt || key.mods.meta {
            return ProcessResult::Rejected;
        }
        match key.code {
            KeyCode::Char(c) => {
                if !self.accepts_char(c) {
                    return ProcessResult::Noop;
                }
                type_char(state, c);
                ProcessResult::Accepted
            },
            _ => ProcessResult::Noop,
        }
    }
}

impl Default for Speller {
    fn default() -> (r: Self)
        ensures
            r.extra_accepted@ == seq!['\''],
            r.alphabet is None,
            r.blocked_by_option is None,
    {
        let extra: Vec<char> = vec!['\''];
        assert(extra@ =~= seq!['\'']);
        Speller::new(extra)
    }
}

/// Appends a character to the input.
pub(crate) fn type_char(state: &mut SessionState, c: char)
    ensures
        final(state)@ == with_input(old(state)@, old(state)@.input.push(c)),
        final(state).context == old(state).context,
        final(state).predict_count == old(state).predict_count,
{
    push_char(&mut state.composition.input, c);
    state.composition.caret = byte_len(state.composition.input.as_str());
}

/// Appends a text to the input.
pub(crate) fn type_text(state: &mut SessionState, t: &str)
    ensures
        final(state)@ == with_input(old(state)@, old(state)@.input + t@),
        final(state).context == old(state).context,
        final(state).predict_count == old(state).predict_count,
{
    let joined = state.composition.input.clone().concat(t);
    state.composition.caret = byte_len(joined.as_str());
    state.composition.input = joined;
}

// ---------------------------------------------------------------------------
// Editing
// ---------------------------------------------------------------------------

/// Turns keys into edits, by a scheme's bindings or, without any, by the usual
/// ones.
#[derive(Debug)]
pub struct Editor {
    pub bindings: Vec<(KeyChord, EditorAction)>,
}

pub open spec fn plain(code: KeyCode) -> KeyChord {
    KeyChord {
        code,
        mods: Modifiers { shift: false, ctrl: false, alt: false, meta: false, caps: false },
    }
}

/// The usual bindings.
pub open spec fn usual_bindings() -> Seq<(KeyChord, EditorAction)> {
    seq![
        (plain(KeyCode::Named(NamedKey::Backspace)), EditorAction::BackUnit),
        (
            KeyChord {
                code: KeyCode::Named(NamedKey::Backspace),
                mods: Modifiers { shift: false, ctrl: true, alt: false, meta: false, caps: false },
            },
            EditorAction::BackUnit,
        ),
        (plain(KeyCode::Named(NamedKey::Delete)), EditorAction::DeleteForward),
        (plain(KeyCode::Named(NamedKey::Escape)), EditorAction::Cancel),
        (plain(KeyCode::Named(NamedKey::Enter)), EditorAction::CommitRawInput),
    ]
}

/// The binding, among the first `n`, that a key hits and that asks for most
/// modifiers; of equals the last.
pub open spec fn best_binding(t: Seq<(KeyChord, EditorAction)>, key: Key, n: int) -> Option<int>
    decreases n,
{
    if n <= 0 {
        None
    } else {
        let head = best_binding(t, key, n - 1);
        if !chord_hit(t[n - 1].0, key) {
            head
        } else {
            match head {
                Some(b) => if mods_count(t[n - 1].0.mods) >= mods_count(t[b].0.mods) {
                    Some(n - 1)
                } else {
                    head
                },
                None => Some(n - 1),
            }
        }
    }
}

/// Where the last segment starts, in characters, where that is inside the
/// input.
pub open spec fn unit_start(s: State) -> Option<int> {
    if s.segments.len() == 0 {
        None
    } else {
        match at_byte(s.input, s.segments.last().span.start as int) {
            Some(n) => if n < s.input.len() {
                Some(n)
            } else {
                None
            },
            None => None,
        }
    }
}

/// The input without its last unit, or without its last character where no
/// unit is known.
pub open spec fn without_unit(s: State) -> Seq<char> {
    match unit_start(s) {
        Some(n) => s.input.take(n),
        None => s.input.drop_last(),
    }
}

/// The character behind the caret: where one starts there.
pub open spec fn behind_caret(s: State) -> Option<int> {
    match at_byte(s.input, s.caret) {
        Some(n) => if n < s.input.len() {
            Some(n)
        } else {
            None
        },
        None => None,
    }
}

/// A state without the character behind the caret. The caret stays, and the old
/// segments are gone.
pub open spec fn with_gap(s: State) -> State {
    match behind_caret(s) {
        Some(n) => State { input: s.input.remove(n), segments: seq![], ..s },
        None => s,
    }
}

/// What an edit does.
pub open spec fn edited(s: State, action: EditorAction) -> (State, ProcessResult) {
    let active = s.input.len() > 0;
    match action {
        EditorAction::Noop => (s, ProcessResult::Rejected),
        EditorAction::DeleteForward => if s.caret >= bytes_len(s.input) {
            (s, ProcessResult::Noop)
        } else {
            (with_gap(s), ProcessResult::Accepted)
        },
        _ => if !active {
            (s, ProcessResult::Noop)
        } else {
            (
                match action {
                    EditorAction::Confirm => wishing(s, keyboard_wish(0, Trigger::Space)),
                    EditorAction::ReopenOrConfirm => wishing(
                        s,
                        keyboard_wish(0, Trigger::Space),
                    ),
                    EditorAction::CommitComposition => wishing(
                        s,
                        keyboard_wish(0, Trigger::Enter),
                    ),
                    EditorAction::CommitRawInput => wishing(
                        s,
                        Wish::Literal { text: s.input, trigger: Trigger::Enter },
                    ),
                    EditorAction::CommitScriptText => wishing(
                        s,
                        Wish::Literal { text: s.preedit, trigger: Trigger::Enter },
                    ),
                    EditorAction::CommitComment => wishing(
                        s,
                        Wish::CommitComment { clear: true },
                    ),
                    EditorAction::DeleteCandidate => wishing(
                        s,
                        Wish::DeleteCandidate { index: 0 },
                    ),
                    EditorAction::Revert => with_cut(s, s.input.drop_last()),
                    EditorAction::BackStep => with_cut(s, s.input.drop_last()),
                    EditorAction::BackUnit => with_cut(s, without_unit(s)),
                    _ => without_input(s),
                },
                ProcessResult::Accepted,
            )
        },
    }
}

/// Deletes the character behind the caret.
fn delete_behind(state: &mut SessionState)
    ensures
        final(state)@ == with_gap(old(state)@),
        final(state).context == old(state).context,
        final(state).predict_count == old(state).predict_count,
{
    let cs = to_chars(state.composition.input.as_str());
    if let Some(n) = find_byte(&cs, state.composition.caret) {
        if n < cs.len() {
            let mut rest = part(&cs, 0, n);
            rest.append(part(&cs, n + 1, cs.len()).as_str());
            assert(rest@ =~= cs@.remove(n as int));
            state.composition.input = rest;
            state.composition.segments = Vec::new();
            assert(views(state.composition.segments@) =~= seq![]);
        }
    }
}

/// Cuts the input to its first `n` characters.
fn cut_input(state: &mut SessionState, cs: &Vec<char>, n: usize)
    requires
        cs@ == old(state)@.input,
        n <= cs@.len(),
    ensures
        final(state)@ == with_cut(old(state)@, old(state)@.input.take(n as int)),
        final(state).context == old(state).context,
        final(state).predict_count == old(state).predict_count,
{
    let kept = part(cs, 0, n);
    assert(kept@ =~= cs@.take(n as int));
    state.composition.caret = byte_len(kept.as_str());
    state.composition.input = kept;
    state.composition.segments = Vec::new();
    assert(state@.segments =~= seq![]);
}

fn wish(state: &mut SessionState, w: PendingCommit)
    ensures
        final(state)@ == wishing(old(state)@, w@),
        final(state).context == old(state).context,
        final(state).predict_count == old(state).predict_count,
{
    state.pending_commit = Some(w);
}

fn forget_input(state: &mut SessionState)
    ensures
        final(state)@ == without_input(old(state)@),
        final(state).context == old(state).context,
        final(state).predict_count == old(state).predict_count,
{
    state.composition.reset();
    assert(state@.segments =~= seq![]);
}

fn last_segment_start(state: &SessionState, cs: &Vec<char>) -> (r: Option<usize>)
    requires
        cs@ == state@.input,
    ensures
        match unit_start(state@) {
            Some(n) => r matches Some(k) && k == n && k < cs@.len(),
            None => r is None,
        },
{
    let n: usize = state.composition.segments.len();
    if n == 0 {
        return None;
    }
    assert(state@.segments.last() == state.composition.segments@[n - 1]@);
    let start: usize = state.composition.segments[n - 1].span.start;
    match find_byte(cs, start) {
        Some(k) => if k < cs.len() {
            Some(k)
        } else {
            None
        },
        None => None,
    }
}

impl Editor {
    /// An editor with these bindings; without any it has the usual ones.
    #[must_use]
    pub fn new(bindings: Vec<(KeyChord, EditorAction)>) -> (r: Self)
        ensures
            r.bindings == bindings,
    {
        Editor { bindings }
    }

    /// The usual bindings.
    #[must_use]
    pub fn default_bindings() -> (r: Vec<(KeyChord, EditorAction)>)
        ensures
            r@ == usual_bindings(),
    {
        let none = Modifiers::none();
        let r: Vec<(KeyChord, EditorAction)> = vec![
            (KeyChord::new(KeyCode::Named(NamedKey::Backspace), none), EditorAction::BackUnit),
            (
                KeyChord::new(KeyCode::Named(NamedKey::Backspace), Modifiers::ctrl()),
                EditorAction::BackUnit,
            ),
            (KeyChord::new(KeyCode::Named(NamedKey::Delete), none), EditorAction::DeleteForward),
            (KeyChord::new(KeyCode::Named(NamedKey::Escape), none), EditorAction::Cancel),
            (KeyChord::new(KeyCode::Named(NamedKey::Enter), none), EditorAction::CommitRawInput),
        ];
        assert(r@ =~= usual_bindings());
        r
    }

    /// The bindings that hold.
    pub open spec fn table(&self) -> Seq<(KeyChord, EditorAction)> {
        if self.bindings@.len() == 0 {
            usual_bindings()
        } else {
            self.bindings@
        }
    }

    /// What a key stands for.
    pub open spec fn meaning(&self, key: Key) -> Option<EditorAction> {
        match best_binding(self.table(), key, self.table().len() as int) {
            Some(i) => Some(self.table()[i].1),
            None => None,
        }
    }

    fn best_in(t: &Vec<(KeyChord, EditorAction)>, key: &Key) -> (r: Option<EditorAction>)
        ensures
            r == (match best_binding(t@, *key, t@.len() as int) {
                Some(i) => Some(t@[i].1),
                None => None,
            }),
    {
        let mut best: Option<usize> = None;
        let mut i: usize = 0;
        while i < t.len()
            invariant
                i <= t@.len(),
                match best_binding(t@, *key, i as int) {
                    Some(b) => best matches Some(x) && x == b && x < i,
                    None => best is None,
                },
            decreases t.len() - i,
        {
            if t[i].0.matches(key) {
                let better = match best {
                    Some(b) => t[i].0.mods.count() >= t[b].0.mods.count(),
                    None => true,
                };
                if better {
                    best = Some(i);
                }
            }
            i += 1;
        }
        match best {
            Some(b) => Some(t[b].1),
            None => None,
        }
    }

    fn action_for(&self, key: &Key) -> (r: Option<EditorAction>)
        ensures
            r == self.meaning(*key),
    {
        if self.bindings.len() == 0 {
            let t = Self::default_bindings();
            Self::best_in(&t, key)
        } else {
            Self::best_in(&self.bindings, key)
        }
    }

    /// What becomes of a key.
    pub open spec fn step(&self, s: State, key: Key) -> (State, ProcessResult) {
        if key.release {
            (s, ProcessResult::Noop)
        } else {
            match self.meaning(key) {
                Some(a) => edited(s, a),
                None => (s, ProcessResult::Noop),
            }
        }
    }

    pub fn process(&mut self, state: &mut SessionState, key: &Key) -> (r: ProcessResult)
        ensures
            *final(self) == *old(self),
            (final(state)@, r) == old(self).step(old(state)@, *key),
            final(state).context == old(state).context,
            final(state).predict_count == old(state).predict_count,
    {
        if key.release {
            return ProcessResult::Noop;
        }
        let action = match self.action_for(key) {
            Some(a) => a,
            None => {
                return ProcessResult::Noop;
            },
        };
        let active = state.composition.is_active();
        match action {
            EditorAction::Noop => {
                return ProcessResult::Rejected;
            },
            EditorAction::DeleteForward => {
                if state.composition.caret >= byte_len(state.composition.input.as_str()) {
                    return ProcessResult::Noop;
                }
                delete_behind(state);
                return ProcessResult::Accepted;
            },
            _ => {},
        }
        if !active {
            return ProcessResult::Noop;
        }
        let cs = to_chars(state.composition.input.as_str());
        let n: usize = cs.len();
        assert(state@.input.take(n - 1) =~= state@.input.drop_last());
        match action {
            EditorAction::Confirm | EditorAction::ReopenOrConfirm => {
                wish(state, PendingCommit::keyboard(0, Trigger::Space));
            },
            EditorAction::CommitComposition => {
                wish(state, PendingCommit::keyboard(0, Trigger::Enter));
            },
            EditorAction::CommitRawInput => {
                let w = PendingCommit::literal(state.composition.input.as_str(), Trigger::Enter);
                wish(state, w);
            },
            EditorAction::CommitScriptText => {
                let w = PendingCommit::literal(state.composition.preedit.as_str(), Trigger::Enter);
                wish(state, w);
            },
            EditorAction::CommitComment => {
                wish(state, PendingCommit::commit_comment());
            },
            EditorAction::DeleteCandidate => {
                wish(state, PendingCommit::DeleteCandidate { index: 0 });
            },
            EditorAction::Revert | EditorAction::BackStep => {
                cut_input(state, &cs, n - 1);
            },
            EditorAction::BackUnit => {
                match last_segment_start(state, &cs) {
                    Some(k) => cut_input(state, &cs, k),
                    None => cut_input(state, &cs, n - 1),
                }
            },
            _ => {
                forget_input(state);
            },
        }
        ProcessResult::Accepted
    }
}

impl Default for Editor {
    fn default() -> (r: Self)
        ensures
            r.bindings@.len() == 0,
    {
        Editor::new(Vec::new())
    }
}

// ---------------------------------------------------------------------------
// Plain ASCII
// ---------------------------------------------------------------------------

/// Turns the switch for plain ASCII, and hands printable keys back while it is
/// on.
#[derive(Debug)]
pub struct AsciiComposer {
    pub option: Option<String>,
}

/// Whether a character is a control character.
pub open spec fn is_control(c: char) -> bool {
    c <= '\x1f' || '\x7f' <= c <= '\u{9f}'
}

/// Whether a key turns the switch: Shift or Caps Lock on its own.
pub open spec fn turns_ascii(key: Key) -> bool {
    match key.code {
        KeyCode::Named(NamedKey::Shift) => key.mods.shift && !key.mods.ctrl && !key.mods.alt,
        KeyCode::Named(NamedKey::CapsLock) => !key.mods.ctrl && !key.mods.alt,
        _ => false,
    }
}

/// What becomes of a key under a switch.
pub open spec fn ascii_step(name: Seq<char>, s: State, key: Key) -> (State, ProcessResult) {
    let on = is_on(s.options, name);
    if key.release {
        (s, ProcessResult::Noop)
    } else if turns_ascii(key) {
        (with_switch(s, name, !on), ProcessResult::Accepted)
    } else if key.code == KeyCode::Named(NamedKey::Escape) {
        if s.input.len() > 0 {
            (without_input(s), ProcessResult::Accepted)
        } else if on {
            (with_switch(s, name, false), ProcessResult::Accepted)
        } else {
            (s, ProcessResult::Noop)
        }
    } else if !on {
        (s, ProcessResult::Noop)
    } else {
        match key.code {
            KeyCode::Char(c) => if is_control(c) {
                (s, ProcessResult::Noop)
            } else {
                (s, ProcessResult::Rejected)
            },
            KeyCode::Named(NamedKey::Space) => (s, ProcessResult::Rejected),
            _ => (s, ProcessResult::Noop),
        }
    }
}

impl AsciiComposer {
    #[must_use]
    pub fn new(option: Option<String>) -> (r: Self)
        ensures
            r.option == option,
    {
        AsciiComposer { option }
    }

    /// What becomes of a key.
    pub open spec fn step(&self, s: State, key: Key) -> (State, ProcessResult) {
        match self.option {
            Some(n) => ascii_step(n@, s, key),
            None => (s, ProcessResult::Noop),
        }
    }

    pub fn process(&mut self, state: &mut SessionState, key: &Key) -> (r: ProcessResult)
        ensures
            *final(self) == *old(self),
            (final(state)@, r) == old(self).step(old(state)@, *key),
            final(state).context == old(state).context,
            final(state).predict_count == old(state).predict_count,
    {
        let name = match &self.option {
            Some(n) => n.clone(),
            None => {
                return ProcessResult::Noop;
            },
        };
        if key.release {
            return ProcessResult::Noop;
        }
        let bare = match key.code {
            KeyCode::Named(NamedKey::Shift) => key.mods.shift && !key.mods.ctrl && !key.mods.alt,
            KeyCode::Named(NamedKey::CapsLock) => !key.mods.ctrl && !key.mods.alt,
            _ => false,
        };
        if bare {
            state.toggle_option(name.as_str());
            return ProcessResult::Accepted;
        }
        let on = state.options.get(name.as_str());
        match key.code {
            KeyCode::Named(NamedKey::Escape) => {
                if state.composition.is_active() {
                    forget_input(state);
                    ProcessResult::Accepted
                } else if on {
                    state.set_option(name.as_str(), false);
                    ProcessResult::Accepted
                } else {
                    ProcessResult::Noop
                }
            },
            KeyCode::Named(NamedKey::Space) => {
                if on {
                    ProcessResult::Rejected
                } else {
                    ProcessResult::Noop
                }
            },
            KeyCode::Char(c) => {
                if on && !(c <= '\x1f' || ('\x7f' <= c && c <= '\u{9f}')) {
                    ProcessResult::Rejected
                } else {
                    ProcessResult::Noop
                }
            },
            _ => ProcessResult::Noop,
        }
    }
}

// ---------------------------------------------------------------------------
// Paging
// ---------------------------------------------------------------------------

/// Turns pages.
#[derive(Debug)]
pub struct Navigator {
    pub page: usize,
    pub page_up: Vec<KeyChord>,
    pub page_down: Vec<KeyChord>,
}

/// Whether a key hits one of several chords.
pub open spec fn hits(chords: Seq<KeyChord>, key: Key) -> bool {
    exists|i: int| 0 <= i < chords.len() && chord_hit(#[trigger] chords[i], key)
}

fn hits_any(chords: &Vec<KeyChord>, key: &Key) -> (r: bool)
    ensures
        r == hits(chords@, *key),
{
    let mut i: usize = 0;
    while i < chords.len()
        invariant
            i <= chords@.len(),
            forall|j: int| 0 <= j < i ==> !chord_hit(#[trigger] chords@[j], *key),
        decreases chords.len() - i,
    {
        if chords[i].matches(key) {
            assert(chord_hit(chords@[i as int], *key));
            return true;
        }
        i += 1;
    }
    false
}

fn join_chords(v: &Vec<KeyChord>, w: &Vec<KeyChord>) -> (r: Vec<KeyChord>)
    ensures
        r@ == v@ + w@,
{
    let mut out: Vec<KeyChord> = Vec::new();
    let mut i: usize = 0;
    while i < v.len()
        invariant
            i <= v@.len(),
            out@ == v@.take(i as int),
        decreases v.len() - i,
    {
        out.push(v[i]);
        i += 1;
    }
    assert(out@ =~= v@ + w@.take(0));
    let mut k: usize = 0;
    while k < w.len()
        invariant
            k <= w@.len(),
            out@ == v@ + w@.take(k as int),
        decreases w.len() - k,
    {
        out.push(w[k]);
        k += 1;
        assert(out@ =~= v@ + w@.take(k as int));
    }
    assert(w@.take(k as int) =~= w@);
    out
}

/// The page after a key, where the key turns one: there is a page before the
/// first and one after the last in no case.
pub open spec fn turned(
    up: Seq<KeyChord>,
    down: Seq<KeyChord>,
    page: int,
    pages: int,
    key: Key,
) -> Option<int> {
    let most = if pages < 1 {
        1
    } else {
        pages
    };
    if hits(down, key) && page + 1 < most {
        Some(page + 1)
    } else if hits(up, key) && page > 0 {
        Some(page - 1)
    } else {
        None
    }
}

impl Navigator {
    /// A navigator with the keys of a scheme. How long a page is, only those
    /// who show it need to know.
    #[must_use]
    pub fn new(spec: &NavigatorSpec, _page_size: usize) -> (r: Self)
        ensures
            r.page == 0,
            r.page_up@ == spec.page_up@ + spec.up@,
            r.page_down@ == spec.page_down@ + spec.down@,
    {
        Navigator {
            page: 0,
            page_up: join_chords(&spec.page_up, &spec.up),
            page_down: join_chords(&spec.page_down, &spec.down),
        }
    }

    /// The page that is shown, counted from nought.
    #[must_use]
    pub fn page(&self) -> (r: usize)
        ensures
            r == self.page,
    {
        self.page
    }

    /// Goes back to the first page.
    pub fn reset(&mut self)
        ensures
            *final(self) == (Navigator { page: 0, ..*old(self) }),
    {
        self.page = 0;
    }

    /// The page after a key, where the key turns one.
    pub open spec fn turns(&self, s: State, key: Key) -> Option<int> {
        if s.input.len() == 0 {
            None
        } else {
            turned(self.page_up@, self.page_down@, self.page as int, s.pages, key)
        }
    }

    pub fn process(&mut self, state: &mut SessionState, key: &Key) -> (r: ProcessResult)
        ensures
            final(self).page_up == old(self).page_up,
            final(self).page_down == old(self).page_down,
            match old(self).turns(old(state)@, *key) {
                Some(p) => {
                    &&& r == ProcessResult::Accepted
                    &&& final(self).page == p
                    &&& final(state)@ == (State { page: p, ..old(state)@ })
                },
                None => {
                    &&& r == ProcessResult::Noop
                    &&& final(self).page == old(self).page
                    &&& final(state)@ == old(state)@
                },
            },
            final(state).context == old(state).context,
            final(state).predict_count == old(state).predict_count,
    {
        if !state.composition.is_active() {
            return ProcessResult::Noop;
        }
        let up = hits_any(&self.page_up, key);
        let down = hits_any(&self.page_down, key);
        let pages: usize = if state.candidate_pages < 1 {
            1
        } else {
            state.candidate_pages
        };
        if down && self.page < pages - 1 {
            self.page = self.page + 1;
            state.candidate_page = self.page;
            return ProcessResult::Accepted;
        }
        if up && self.page > 0 {
            self.page = self.page - 1;
            state.candidate_page = self.page;
            return ProcessResult::Accepted;
        }
        ProcessResult::Noop
    }
}

// ---------------------------------------------------------------------------
// Bound keys
// ---------------------------------------------------------------------------

/// Puts other keys, or switches, in the place of keys.
#[derive(Debug)]
pub struct KeyBinder {
    pub bindings: Vec<KeyBinding>,
}

/// The keys that a list of names and texts stands for: a name is a key, and any
/// other text its characters.
pub open spec fn keys_of(seq: Seq<Seq<char>>) -> Seq<Key>
    decreases seq.len(),
{
    if seq.len() == 0 {
        seq![]
    } else {
        let item = seq.last();
        keys_of(seq.drop_last()) + (match chord_of(item) {
            Some(c) => seq![Key { code: c.code, mods: c.mods, release: false }],
            None => item.map_values(|c: char| char_key(c)),
        })
    }
}

/// The keys that a list of names and texts stands for.
#[must_use]
pub fn parse_send_sequence(seq: &[String]) -> (r: Vec<Key>)
    ensures
        r@ == keys_of(views(seq@)),
{
    let ghost all = views(seq@);
    let mut out: Vec<Key> = Vec::new();
    let mut i: usize = 0;
    assert(all.take(0) =~= seq![]);
    assert(out@ =~= seq![]);
    while i < seq.len()
        invariant
            i <= seq@.len(),
            all == views(seq@),
            out@ == keys_of(all.take(i as int)),
        decreases seq.len() - i,
    {
        let ghost had = out@;
        let ghost item = seq@[i as int]@;
        proof {
            let t = all.take(i + 1);
            assert(t.drop_last() =~= all.take(i as int));
            assert(t.last() == item);
        }
        match parse_key_name(seq[i].as_str()) {
            Some(chord) => {
                out.push(Key::press(chord.code, chord.mods));
                assert(out@ =~= had + seq![
                    Key { code: chord.code, mods: chord.mods, release: false },
                ]);
            },
            None => {
                let cs = to_chars(seq[i].as_str());
                let ghost ks = item.map_values(|c: char| char_key(c));
                let mut k: usize = 0;
                assert(had + ks.take(0) =~= had);
                while k < cs.len()
                    invariant
                        k <= cs@.len(),
                        cs@ == item,
                        ks == item.map_values(|c: char| char_key(c)),
                        out@ == had + ks.take(k as int),
                    decreases cs.len() - k,
                {
                    out.push(key_for_char(cs[k]));
                    assert(out@ =~= had + ks.take(k + 1));
                    k += 1;
                }
                assert(ks.take(k as int) =~= ks);
            },
        }
        i += 1;
    }
    assert(all.take(i as int) =~= all);
    out
}

/// Whether the condition of a binding holds.
pub open spec fn condition(when: WhenPredicate, s: State) -> bool {
    match when {
        WhenPredicate::Always => true,
        WhenPredicate::Composing => s.input.len() > 0,
        WhenPredicate::Paging => s.pages > 1,
        WhenPredicate::HasMenu => s.count > 0,
        WhenPredicate::Predicting => false,
    }
}

/// What a binding does: the first of its effects.
pub open spec fn bound(b: KeyBinding, s: State) -> State {
    if b.send_keys is Some {
        State { sent: s.sent + keys_of(texts(b.send_keys->0@)), ..s }
    } else if b.toggle is Some {
        with_switch(s, b.toggle->0@, !is_on(s.options, b.toggle->0@))
    } else if b.set_option is Some {
        with_switch(s, b.set_option->0@, true)
    } else if b.unset_option is Some {
        with_switch(s, b.unset_option->0@, false)
    } else {
        s
    }
}

/// The first binding, from `from` on, that a key meets.
pub open spec fn met_binding(bs: Seq<KeyBinding>, s: State, key: Key, from: int) -> Option<int>
    decreases bs.len() - from,
{
    if from < 0 || from >= bs.len() {
        None
    } else if condition(bs[from].when, s) && hits(bs[from].accept@, key) {
        Some(from)
    } else {
        met_binding(bs, s, key, from + 1)
    }
}

impl KeyBinder {
    #[must_use]
    pub fn new(bindings: Vec<KeyBinding>) -> (r: Self)
        ensures
            r.bindings == bindings,
    {
        KeyBinder { bindings }
    }

    /// What becomes of a key. A key that was sent in place of another is left
    /// alone.
    pub open spec fn step(&self, s: State, key: Key) -> (State, ProcessResult) {
        if key.release || s.redirecting {
            (s, ProcessResult::Noop)
        } else {
            match met_binding(self.bindings@, s, key, 0) {
                Some(i) => (bound(self.bindings@[i], s), ProcessResult::Accepted),
                None => (s, ProcessResult::Noop),
            }
        }
    }

    pub fn process(&mut self, state: &mut SessionState, key: &Key) -> (r: ProcessResult)
        ensures
            *final(self) == *old(self),
            (final(state)@, r) == old(self).step(old(state)@, *key),
            final(state).context == old(state).context,
            final(state).predict_count == old(state).predict_count,
    {
        if key.release || state.redirecting {
            return ProcessResult::Noop;
        }
        let ghost s = state@;
        let mut i: usize = 0;
        while i < self.bindings.len()
            invariant
                i <= self.bindings@.len(),
                *self == *old(self),
                *state == *old(state),
                s == state@,
                !key.release && !s.redirecting,
                met_binding(self.bindings@, s, *key, 0) == met_binding(
                    self.bindings@,
                    s,
                    *key,
                    i as int,
                ),
            decreases self.bindings.len() - i,
        {
            let b = &self.bindings[i];
            let ok = match b.when {
                WhenPredicate::Always => true,
                WhenPredicate::Composing => state.composition.is_active(),
                WhenPredicate::Paging => state.candidate_pages > 1,
                WhenPredicate::HasMenu => state.candidate_count > 0,
                WhenPredicate::Predicting => false,
            };
            if ok && hits_any(&b.accept, key) {
                if let Some(seq) = &b.send_keys {
                    let keys = parse_send_sequence(seq.as_slice());
                    assert(views(seq@) =~= texts(seq@));
                    send_all(state, &keys);
                } else if let Some(name) = &b.toggle {
                    state.toggle_option(name.as_str());
                } else if let Some(name) = &b.set_option {
                    state.set_option(name.as_str(), true);
                } else if let Some(name) = &b.unset_option {
                    state.set_option(name.as_str(), false);
                }
                return ProcessResult::Accepted;
            }
            i += 1;
        }
        ProcessResult::Noop
    }
}

fn send_all(state: &mut SessionState, keys: &Vec<Key>)
    ensures
        final(state)@ == (State { sent: old(state)@.sent + keys@, ..old(state)@ }),
        final(state).context == old(state).context,
        final(state).predict_count == old(state).predict_count,
{
    let ghost before = state@;
    let mut i: usize = 0;
    assert(before.sent + keys@.take(0) =~= before.sent);
    while i < keys.len()
        invariant
            i <= keys@.len(),
            before == old(state)@,
            state@ == (State { sent: before.sent + keys@.take(i as int), ..before }),
            state.context == old(state).context,
            state.predict_count == old(state).predict_count,
        decreases keys.len() - i,
    {
        state.sent_keys.push(keys[i]);
        assert(state.sent_keys@ =~= before.sent + keys@.take(i + 1));
        i += 1;
    }
    assert(keys@.take(i as int) =~= keys@);
}

// ---------------------------------------------------------------------------
// Choosing
// ---------------------------------------------------------------------------

/// Chooses candidates with the space bar, the enter key and the digits.
#[derive(Clone, Copy, Debug)]
pub struct Selector;

/// The input candidate that a key chooses, and how.
pub open spec fn choice(key: Key) -> Option<(int, Trigger)> {
    match key.code {
        KeyCode::Named(NamedKey::Space) => Some((0, Trigger::Space)),
        KeyCode::Named(NamedKey::Enter) => Some((0, Trigger::Enter)),
        KeyCode::Named(NamedKey::Digit(d)) => if 1 <= d <= 9 {
            Some((d - 1, Trigger::Explicit))
        } else {
            None
        },
        _ => None,
    }
}

/// What becomes of a key.
pub open spec fn selector_step(s: State, key: Key) -> (State, ProcessResult) {
    if key.release || s.input.len() == 0 || key.mods.ctrl {
        (s, ProcessResult::Noop)
    } else {
        match choice(key) {
            Some((n, t)) => (
                wishing(s, keyboard_wish(selectable(s, n), t)),
                ProcessResult::Accepted,
            ),
            None => (s, ProcessResult::Noop),
        }
    }
}

impl Selector {
    pub fn process(&mut self, state: &mut SessionState, key: &Key) -> (r: ProcessResult)
        requires
            old(state).wf(),
        ensures
            (final(state)@, r) == selector_step(old(state)@, *key),
            final(state).context == old(state).context,
            final(state).predict_count == old(state).predict_count,
    {
        if key.release || !state.composition.is_active() || key.mods.ctrl {
            return ProcessResult::Noop;
        }
        let chosen: Option<(usize, Trigger)> = match key.code {
            KeyCode::Named(NamedKey::Space) => Some((0, Trigger::Space)),
            KeyCode::Named(NamedKey::Enter) => Some((0, Trigger::Enter)),
            KeyCode::Named(NamedKey::Digit(d)) => if 1 <= d && d <= 9 {
                Some((d as usize - 1, Trigger::Explicit))
            } else {
                None
            },
            _ => None,
        };
        match chosen {
            Some((n, t)) => {
                let index: usize = state.selectable_index(n);
                wish(state, PendingCommit::keyboard(index, t));
                ProcessResult::Accepted
            },
            None => ProcessResult::Noop,
        }
    }
}

// ---------------------------------------------------------------------------
// Laws
// ---------------------------------------------------------------------------

/// A key that the speller, the editor or the selector does not accept leaves
/// the state as it was.
pub proof fn refused_keys_change_nothing(sp: &Speller, ed: &Editor, s: State, key: Key)
    ensures
        sp.step(s, key).1 != ProcessResult::Accepted ==> sp.step(s, key).0 == s,
        ed.step(s, key).1 != ProcessResult::Accepted ==> ed.step(s, key).0 == s,
        selector_step(s, key).1 != ProcessResult::Accepted ==> selector_step(s, key).0 == s,
{
}

/// Going back one step takes back what was typed last.
pub proof fn going_back_undoes_typing(sp: &Speller, s: State, key: Key)
    requires
        sp.step(s, key).1 == ProcessResult::Accepted,
    ensures
        edited(sp.step(s, key).0, EditorAction::BackStep).0.input == s.input,
{
    let t = sp.step(s, key).0;
    assert(t.input.drop_last() =~= s.input);
}

/// No key ever leads past the first or the last page.
pub proof fn pages_stay_in_bounds(
    up: Seq<KeyChord>,
    down: Seq<KeyChord>,
    page: int,
    pages: int,
    key: Key,
)
    requires
        0 <= page < pages,
    ensures
        turned(up, down, page, pages, key) matches Some(p) ==> 0 <= p < pages && (p == page + 1 || p
            == page - 1),
{
}

/// Whatever a key that was sent in place of another would meet, no binding
/// takes it: keys are not sent in circles.
pub proof fn sent_keys_are_not_sent_again(kb: &KeyBinder, s: State, key: Key)
    requires
        s.redirecting,
    ensures
        kb.step(s, key) == (s, ProcessResult::Noop),
{
}

/// A letter or a digit goes to the end of the input, and the caret behind it;
/// nothing else changes. A scheme that lists its characters takes those alone.
/// Keys of the system are given back, and released keys are let pass.
pub proof fn typed_characters_go_to_the_end(sp: &Speller, s: State, key: Key, c: char)
    requires
        key.code == KeyCode::Char(c),
    ensures
        ({
            let (t, r) = sp.step(s, key);
            let typed = !key.release && !key.mods.ctrl && !key.mods.alt && !key.mods.meta;
            let known = match sp.alphabet {
                Some(a) => a@.contains(c),
                None => 'a' <= c <= 'z' || 'A' <= c <= 'Z' || '0' <= c <= '9'
                    || sp.extra_accepted@.contains(c),
            };
            &&& typed && known ==> {
                &&& r == ProcessResult::Accepted
                &&& t.input.len() == s.input.len() + 1
                &&& t.input.take(s.input.len() as int) == s.input
                &&& t.input[s.input.len() as int] == c
                &&& t.caret == bytes_len(t.input)
                &&& t == (State { input: t.input, caret: t.caret, ..s })
            }
            &&& typed && !known ==> r == ProcessResult::Noop && t == s
            &&& key.release ==> r == ProcessResult::Noop && t == s
            &&& !key.release && (key.mods.ctrl || key.mods.alt || key.mods.meta) ==> r
                == ProcessResult::Rejected && t == s
        }),
{
    let (t, r) = sp.step(s, key);
    if t.input.len() == s.input.len() + 1 {
        assert(t.input.take(s.input.len() as int) =~= s.input);
    }
}

/// Going back a unit takes away the last segment, and no more: the input ends
/// where that started. Where no segment is known, it takes away one character.
pub proof fn going_back_takes_the_last_unit(s: State, n: int)
    requires
        0 <= n < s.input.len(),
    ensures
        s.segments.len() > 0 && s.segments.last().span.start == bytes_len(s.input.take(n)) ==> {
            let (t, r) = edited(s, EditorAction::BackUnit);
            &&& r == ProcessResult::Accepted
            &&& t.input == s.input.take(n)
            &&& t.caret == s.segments.last().span.start
            &&& t.segments.len() == 0
        },
        s.segments.len() == 0 ==> {
            let (t, r) = edited(s, EditorAction::BackUnit);
            &&& r == ProcessResult::Accepted
            &&& t.input + seq![s.input.last()] == s.input
            &&& t.caret == bytes_len(t.input)
        },
{
    at_byte_inverse(s.input, n);
    assert(s.input.drop_last() + seq![s.input.last()] =~= s.input);
}

/// Deleting forward takes away the character behind the caret, keeps what is
/// before it and what is behind it, and leaves the caret where it is. At the end
/// of the input there is nothing to delete.
pub proof fn deleting_forward_takes_one_character(s: State, n: int)
    requires
        0 <= n <= s.input.len(),
        s.caret == bytes_len(s.input.take(n)),
    ensures
        n < s.input.len() ==> {
            let (t, r) = edited(s, EditorAction::DeleteForward);
            &&& r == ProcessResult::Accepted
            &&& t.input == s.input.take(n) + s.input.skip(n + 1)
            &&& t.caret == s.caret
            &&& t.segments.len() == 0
        },
        n == s.input.len() ==> edited(s, EditorAction::DeleteForward) == (s, ProcessResult::Noop),
{
    at_byte_inverse(s.input, n);
    prefix_bytes(s.input, n);
    assert(s.input.take(s.input.len() as int) =~= s.input);
    if n < s.input.len() {
        bytes_cover_chars(s.input.skip(n));
        assert(s.input.remove(n) =~= s.input.take(n) + s.input.skip(n + 1));
    }
}

/// What the commits ask for: the first candidate, the input as it was typed, or
/// the text that is shown for it. The composition stays until the wish is
/// fulfilled.
pub proof fn commits_only_ask(s: State)
    requires
        s.input.len() > 0,
    ensures
        ({
            let confirm = edited(s, EditorAction::Confirm).0;
            let raw = edited(s, EditorAction::CommitRawInput).0;
            let shown = edited(s, EditorAction::CommitScriptText).0;
            let whole = edited(s, EditorAction::CommitComposition).0;
            &&& confirm == (State { pending: confirm.pending, ..s })
            &&& raw == (State { pending: raw.pending, ..s })
            &&& shown == (State { pending: shown.pending, ..s })
            &&& confirm.pending matches Some(Wish::Candidate { index, trigger, .. }) && index == 0
                && trigger == Trigger::Space
            &&& whole.pending matches Some(Wish::Candidate { index, trigger, .. }) && index == 0
                && trigger == Trigger::Enter
            &&& raw.pending matches Some(Wish::Literal { text, .. }) && text == s.input
            &&& shown.pending matches Some(Wish::Literal { text, .. }) && text == s.preedit
            &&& edited(s, EditorAction::ReopenOrConfirm) == edited(s, EditorAction::Confirm)
        }),
{
}

/// Cancelling forgets the input and everything that was made of it, and nothing
/// else; with an empty input no edit does anything.
pub proof fn cancelling_forgets_the_input(s: State, action: EditorAction)
    ensures
        s.input.len() > 0 ==> {
            let t = edited(s, EditorAction::Cancel).0;
            &&& t.input.len() == 0 && t.caret == 0 && t.preedit.len() == 0 && t.segments.len() == 0
            &&& t == (State { input: t.input, caret: 0, preedit: t.preedit, segments: t.segments, ..s })
        },
        s.input.len() == 0 && s.caret >= 0 ==> edited(s, action).0 == s,
{
}

/// Of the bindings that a key hits, the one that names most modifiers counts,
/// and of several with as many the last.
pub proof fn the_closest_binding_counts(ed: &Editor, s: State, key: Key, i: int)
    requires
        0 <= i < ed.bindings@.len(),
        chord_hit(ed.bindings@[i].0, key),
        forall|j: int|
            0 <= j < ed.bindings@.len() && chord_hit((#[trigger] ed.bindings@[j]).0, key)
                ==> mods_count(ed.bindings@[j].0.mods) < mods_count(ed.bindings@[i].0.mods) || (j
                <= i && mods_count(ed.bindings@[j].0.mods) == mods_count(
                ed.bindings@[i].0.mods,
            )),
    ensures
        ed.step(s, key) == edited(s, ed.bindings@[i].1),
{
    the_closest_is_found(ed.bindings@, key, i, ed.bindings@.len() as int);
}

proof fn the_closest_is_found(t: Seq<(KeyChord, EditorAction)>, key: Key, i: int, n: int)
    requires
        0 <= i < t.len(),
        0 <= n <= t.len(),
        chord_hit(t[i].0, key),
        forall|j: int|
            0 <= j < t.len() && chord_hit((#[trigger] t[j]).0, key) ==> mods_count(t[j].0.mods)
                < mods_count(t[i].0.mods) || (j <= i && mods_count(t[j].0.mods) == mods_count(
                t[i].0.mods,
            )),
    ensures
        i < n ==> best_binding(t, key, n) == Some(i),
        best_binding(t, key, n) matches Some(b) ==> 0 <= b < n && chord_hit(t[b].0, key),
    decreases n,
{
    if n > 0 {
        the_closest_is_found(t, key, i, n - 1);
    }
}

/// A key that hits no binding is let pass.
pub proof fn unbound_keys_pass(ed: &Editor, s: State, key: Key)
    requires
        ed.bindings@.len() > 0,
        forall|j: int| 0 <= j < ed.bindings@.len() ==> !chord_hit((#[trigger] ed.bindings@[j]).0, key),
    ensures
        ed.step(s, key) == (s, ProcessResult::Noop),
{
    nothing_is_found(ed.bindings@, key, ed.bindings@.len() as int);
}

proof fn nothing_is_found(t: Seq<(KeyChord, EditorAction)>, key: Key, n: int)
    requires
        0 <= n <= t.len(),
        forall|j: int| 0 <= j < t.len() ==> !chord_hit((#[trigger] t[j]).0, key),
    ensures
        best_binding(t, key, n) is None,
    decreases n,
{
    if n > 0 {
        nothing_is_found(t, key, n - 1);
    }
}

/// Without bindings of a scheme, Backspace goes back a unit, Delete deletes
/// forward, Escape cancels and Enter commits what was typed, whatever other
/// modifiers are held.
pub proof fn usual_keys(ed: &Editor, s: State, key: Key)
    requires
        ed.bindings@.len() == 0,
        !key.release,
    ensures
        key.code == KeyCode::Named(NamedKey::Backspace) ==> ed.step(s, key) == edited(
            s,
            EditorAction::BackUnit,
        ),
        key.code == KeyCode::Named(NamedKey::Delete) ==> ed.step(s, key) == edited(
            s,
            EditorAction::DeleteForward,
        ),
        key.code == KeyCode::Named(NamedKey::Escape) ==> ed.step(s, key) == edited(
            s,
            EditorAction::Cancel,
        ),
        key.code == KeyCode::Named(NamedKey::Enter) ==> ed.step(s, key) == edited(
            s,
            EditorAction::CommitRawInput,
        ),
        key.code is Char ==> ed.step(s, key) == (s, ProcessResult::Noop),
{
    reveal_with_fuel(best_binding, 6);
}

/// Shift on its own turns the switch, and turns it back; the composition stays.
/// While it is on, characters are given back; while it is off, they are let
/// pass.
pub proof fn the_ascii_switch(ac: &AsciiComposer, name: String, s: State, key: Key, c: char)
    requires
        ac.option == Some(name),
        s.options.contains_key(name@),
        !key.release,
    ensures
        key.code == KeyCode::Named(NamedKey::Shift) && key.mods.shift && !key.mods.ctrl
            && !key.mods.alt ==> {
            let t = ac.step(s, key).0;
            &&& ac.step(s, key).1 == ProcessResult::Accepted
            &&& t.options[name@] == !s.options[name@]
            &&& t.input == s.input && t.caret == s.caret && t.segments == s.segments
            &&& ac.step(t, key).0.options =~= s.options
        },
        key.code == KeyCode::Char(c) && 'a' <= c <= 'z' && s.options[name@] ==> ac.step(s, key) == (
            s,
            ProcessResult::Rejected,
        ),
        key.code == KeyCode::Char(c) && !s.options[name@] ==> ac.step(s, key) == (
            s,
            ProcessResult::Noop,
        ),
        key.code == KeyCode::Named(NamedKey::Escape) && s.input.len() > 0 ==> {
            let t = ac.step(s, key).0;
            &&& ac.step(s, key).1 == ProcessResult::Accepted
            &&& t.input.len() == 0 && t.options == s.options
        },
        key.code == KeyCode::Named(NamedKey::Escape) && s.input.len() == 0 ==> {
            let t = ac.step(s, key).0;
            &&& !t.options[name@]
            &&& (ac.step(s, key).1 == ProcessResult::Accepted) == s.options[name@]
        },
{
}

/// The digit `d` asks for the candidate number `d` of those that the input has,
/// wherever predictions stand among them; the space bar and Enter ask for the
/// first.
pub proof fn digits_choose_their_candidates(s: State, key: Key, d: u8)
    requires
        s.input.len() > 0,
        !key.release,
        !key.mods.ctrl,
        s.predict_start >= 0,
        s.predict_count >= 0,
    ensures
        key.code == KeyCode::Named(NamedKey::Digit(d)) && 1 <= d <= 9 ==> {
            let (t, r) = selector_step(s, key);
            &&& r == ProcessResult::Accepted
            &&& t == (State { pending: t.pending, ..s })
            &&& t.pending matches Some(Wish::Candidate { index, .. }) && (if d <= s.predict_start {
                index == d - 1
            } else {
                index == d - 1 + s.predict_count
            })
        },
        key.code == KeyCode::Named(NamedKey::Space) && s.predict_start > 0 ==> {
            let (t, r) = selector_step(s, key);
            r == ProcessResult::Accepted && (t.pending matches Some(
                Wish::Candidate { index, trigger, .. },
            ) && index == 0 && trigger == Trigger::Space)
        },
        key.code == KeyCode::Named(NamedKey::Enter) && s.predict_start > 0 ==> {
            let (t, r) = selector_step(s, key);
            r == ProcessResult::Accepted && (t.pending matches Some(
                Wish::Candidate { index, trigger, .. },
            ) && index == 0 && trigger == Trigger::Enter)
        },
        key.code is Char ==> selector_step(s, key) == (s, ProcessResult::Noop),
{
}

/// Turning a page forward and then back leads to the page where it began, and
/// the other way round. A page is turned where there is one to turn to.
pub proof fn pages_turn_back(
    up: Seq<KeyChord>,
    down: Seq<KeyChord>,
    page: int,
    pages: int,
    forward: Key,
    back: Key,
)
    requires
        0 <= page < pages,
        hits(down, forward) && !hits(up, forward),
        hits(up, back) && !hits(down, back),
    ensures
        page + 1 < pages ==> turned(up, down, page, pages, forward) == Some(page + 1) && turned(
            up,
            down,
            page + 1,
            pages,
            back,
        ) == Some(page),
        page + 1 == pages ==> turned(up, down, page, pages, forward) is None,
        page > 0 ==> turned(up, down, page, pages, back) == Some(page - 1) && turned(
            up,
            down,
            page - 1,
            pages,
            forward,
        ) == Some(page),
        page == 0 ==> turned(up, down, page, pages, back) is None,
{
}

/// The first binding whose condition holds and whose keys are hit counts, and
/// what it does is: to send keys behind those that wait, or to turn, set or
/// clear a switch. A switch that is turned twice stands as it stood.
pub proof fn the_first_binding_counts(kb: &KeyBinder, s: State, key: Key, i: int)
    requires
        !key.release,
        !s.redirecting,
        0 <= i < kb.bindings@.len(),
        condition(kb.bindings@[i].when, s),
        hits(kb.bindings@[i].accept@, key),
        forall|j: int|
            0 <= j < i ==> !condition((#[trigger] kb.bindings@[j]).when, s) || !hits(
                kb.bindings@[j].accept@,
                key,
            ),
    ensures
        ({
            let b = kb.bindings@[i];
            let (t, r) = kb.step(s, key);
            &&& r == ProcessResult::Accepted
            &&& t.input == s.input && t.caret == s.caret && t.pending == s.pending
            &&& b.send_keys matches Some(ks) ==> s.sent.is_prefix_of(t.sent) && t.sent.skip(
                s.sent.len() as int,
            ) == keys_of(texts(ks@)) && t.options == s.options
            &&& b.send_keys is None && (b.toggle matches Some(n) && s.options.contains_key(n@))
                ==> t.options[b.toggle->0@] == !s.options[b.toggle->0@]
            &&& b.send_keys is None && b.toggle is None && (b.set_option matches Some(n)
                && s.options.contains_key(n@)) ==> t.options[b.set_option->0@]
            &&& b.send_keys is None && b.toggle is None && b.set_option is None && (
            b.unset_option matches Some(n) && s.options.contains_key(n@))
                ==> !t.options[b.unset_option->0@]
        }),
{
    the_first_is_met(kb.bindings@, s, key, i, 0);
    let t = kb.step(s, key).0;
    if let Some(ks) = kb.bindings@[i].send_keys {
        let more = keys_of(texts(ks@));
        assert(t.sent == s.sent + more);
        assert(t.sent.take(s.sent.len() as int) =~= s.sent);
        assert(t.sent.skip(s.sent.len() as int) =~= more);
    }
}

proof fn the_first_is_met(bs: Seq<KeyBinding>, s: State, key: Key, i: int, from: int)
    requires
        0 <= from <= i < bs.len(),
        condition(bs[i].when, s),
        hits(bs[i].accept@, key),
        forall|j: int|
            0 <= j < i ==> !condition((#[trigger] bs[j]).when, s) || !hits(bs[j].accept@, key),
    ensures
        met_binding(bs, s, key, from) == Some(i),
    decreases i - from,
{
    if from < i {
        the_first_is_met(bs, s, key, i, from + 1);
    }
}

/// When a binding may act: always, with an input, with more than one page, with
/// candidates; none waits for predictions.
pub proof fn conditions_of_bindings(s: State)
    ensures
        condition(WhenPredicate::Always, s),
        condition(WhenPredicate::Composing, s) <==> s.input.len() > 0,
        condition(WhenPredicate::Paging, s) <==> s.pages > 1,
        condition(WhenPredicate::HasMenu, s) <==> s.count > 0,
        !condition(WhenPredicate::Predicting, s),
{
}

/// Keys that are sent stand for themselves, one after the other: a name for one
/// key, and any other text for its characters.
pub proof fn sent_keys_follow_each_other(a: Seq<Seq<char>>, b: Seq<Seq<char>>, item: Seq<char>)
    ensures
        keys_of(a + b) == keys_of(a) + keys_of(b),
        chord_of(item) matches Some(c) ==> keys_of(seq![item]) == seq![
            Key { code: c.code, mods: c.mods, release: false },
        ],
        chord_of(item) is None ==> keys_of(seq![item]).len() == item.len() && forall|i: int|
            0 <= i < item.len() ==> #[trigger] keys_of(seq![item])[i] == char_key(item[i]),
    decreases b.len(),
{
    reveal_with_fuel(keys_of, 2);
    assert(seq![item].drop_last() =~= Seq::<Seq<char>>::empty());
    assert(keys_of(Seq::<Seq<char>>::empty()) =~= Seq::<Key>::empty());
    match chord_of(item) {
        Some(c) => {
            assert(keys_of(seq![item]) =~= seq![
                Key { code: c.code, mods: c.mods, release: false },
            ]);
        },
        None => {
            assert(keys_of(seq![item]) =~= item.map_values(|c: char| char_key(c)));
        },
    }
    if b.len() == 0 {
        assert(a + b =~= a);
        assert(keys_of(a + b) =~= keys_of(a) + keys_of(b));
    } else {
        sent_keys_follow_each_other(a, b.drop_last(), item);
        assert((a + b).drop_last() =~= a + b.drop_last());
        assert((a + b).last() == b.last());
        assert(keys_of(a + b) =~= keys_of(a) + keys_of(b));
    }
}

} // verus!
