//! What a session remembers between keys.

use vstd::prelude::*;
use crate::keyspec::Key;
use crate::options::{is_on, Options};
use crate::order::views;
use crate::segmentor::{Part, Segment};
use crate::text::{bytes_len, texts};

verus! {

// ---------------------------------------------------------------------------
// The words before
// ---------------------------------------------------------------------------

/// The words that were committed last. The view lists them, the oldest first.
#[derive(Debug)]
pub struct Context {
    pub words: Vec<String>,
    pub capacity: usize,
}

/// How many words a session remembers.
pub const CONTEXT_CAPACITY: usize = 8;

/// The last `n` items of a list.
pub open spec fn last_items<T>(s: Seq<T>, n: int) -> Seq<T> {
    if s.len() <= n {
        s
    } else {
        s.skip(s.len() - n)
    }
}

/// The words after one more was committed. An empty text is no word.
pub open spec fn remembered(words: Seq<Seq<char>>, w: Seq<char>, capacity: int) -> Seq<Seq<char>> {
    if w.len() == 0 {
        words
    } else {
        last_items(words.push(w), capacity)
    }
}

impl View for Context {
    type V = Seq<Seq<char>>;

    open spec fn view(&self) -> Seq<Seq<char>> {
        texts(self.words@)
    }
}

impl Context {
    pub open spec fn wf(&self) -> bool {
        self.words@.len() <= self.capacity
    }

    /// No words yet, and room for `capacity` of them.
    pub fn with_capacity(capacity: usize) -> (r: Self)
        ensures
            r.wf(),
            r@ == Seq::<Seq<char>>::empty(),
            r.capacity == capacity,
    {
        let r = Context { words: Vec::new(), capacity };
        assert(r@ =~= Seq::<Seq<char>>::empty());
        r
    }

    /// Remembers one more word; the oldest is forgotten where there is no room.
    pub fn push(&mut self, word: &str)
        requires
            old(self).wf(),
        ensures
            final(self).wf(),
            final(self).capacity == old(self).capacity,
            final(self)@ == remembered(old(self)@, word@, old(self).capacity as int),
    {
        if word.is_empty() {
            return;
        }
        let ghost before = self@;
        if self.capacity == 0 {
            assert(last_items(before.push(word@), 0) =~= Seq::<Seq<char>>::empty());
            assert(self@ =~= Seq::<Seq<char>>::empty());
            return;
        }
        if self.words.len() >= self.capacity {
            self.words.remove(0);
            assert(self@ =~= before.skip(1));
        }
        let ghost kept = self@;
        self.words.push(word.to_owned());
        assert(self@ =~= kept.push(word@));
        assert(self@ =~= last_items(before.push(word@), self.capacity as int));
    }

    /// The words, the oldest first.
    #[must_use]
    pub fn recent(&self) -> (r: &Vec<String>)
        ensures
            texts(r@) == self@,
    {
        &self.words
    }
}

impl Default for Context {
    fn default() -> (r: Self)
        ensures
            r.wf(),
            r@ == Seq::<Seq<char>>::empty(),
            r.capacity == CONTEXT_CAPACITY,
    {
        Context::with_capacity(CONTEXT_CAPACITY)
    }
}

// ---------------------------------------------------------------------------
// The input
// ---------------------------------------------------------------------------

/// What was typed and not yet committed.
#[derive(Debug)]
pub struct Composition {
    pub input: String,
    pub caret: usize,
    pub preedit: String,
    pub segments: Vec<Segment>,
}

impl Composition {
    pub fn new() -> (r: Self)
        ensures
            r.input@ == Seq::<char>::empty(),
            r.caret == 0,
            r.preedit@ == Seq::<char>::empty(),
            r.segments@ == Seq::<Segment>::empty(),
    {
        let r = Composition {
            input: String::new(),
            caret: 0,
            preedit: String::new(),
            segments: Vec::new(),
        };
        assert(r.input@ =~= Seq::<char>::empty());
        assert(r.preedit@ =~= Seq::<char>::empty());
        r
    }

    /// Whether something was typed.
    #[must_use]
    pub fn is_active(&self) -> (r: bool)
        ensures
            r == (self.input@.len() > 0),
    {
        !self.input.as_str().is_empty()
    }

    /// Forgets what was typed.
    pub fn reset(&mut self)
        ensures
            final(self).input@ == Seq::<char>::empty(),
            final(self).caret == 0,
            final(self).preedit@ == Seq::<char>::empty(),
            final(self).segments@ == Seq::<Segment>::empty(),
    {
        *self = Composition::new();
    }
}

// ---------------------------------------------------------------------------
// Wishes and answers
// ---------------------------------------------------------------------------

/// What made a text be committed.
#[derive(Clone, Copy, Debug, PartialEq, Eq, Structural)]
pub enum Trigger {
    Space,
    Enter,
    Punctuation,
    Explicit,
}

/// How a candidate was chosen.
#[derive(Clone, Copy, Debug, PartialEq, Eq, Structural)]
pub enum SelectionSource {
    Keyboard,
    Pointer,
}

/// A wish of a processor, which the session fulfils: only the session knows
/// the candidates.
#[derive(Debug, PartialEq, Eq)]
pub enum PendingCommit {
    /// To commit the candidate at a place.
    Candidate { index: usize, trigger: Trigger, source: SelectionSource },
    /// To commit a text.
    Literal { text: String, trigger: Trigger },
    /// To commit the comment of the first candidate.
    CommitComment { clear: bool },
    /// To forget the candidate at a place.
    DeleteCandidate { index: usize },
}

/// The mathematical reading of a [`PendingCommit`].
pub enum Wish {
    Candidate { index: int, trigger: Trigger, source: SelectionSource },
    Literal { text: Seq<char>, trigger: Trigger },
    CommitComment { clear: bool },
    DeleteCandidate { index: int },
}

impl View for PendingCommit {
    type V = Wish;

    open spec fn view(&self) -> Wish {
        match *self {
            PendingCommit::Candidate { index, trigger, source } => Wish::Candidate {
                index: index as int,
                trigger,
                source,
            },
            PendingCommit::Literal { text, trigger } => Wish::Literal { text: text@, trigger },
            PendingCommit::CommitComment { clear } => Wish::CommitComment { clear },
            PendingCommit::DeleteCandidate { index } => Wish::DeleteCandidate {
                index: index as int,
            },
        }
    }
}

/// The wish to commit the candidate at a place, by the keyboard.
pub open spec fn keyboard_wish(index: int, trigger: Trigger) -> Wish {
    Wish::Candidate { index, trigger, source: SelectionSource::Keyboard }
}

impl PendingCommit {
    pub fn keyboard(index: usize, trigger: Trigger) -> (r: Self)
        ensures
            r@ == keyboard_wish(index as int, trigger),
    {
        PendingCommit::Candidate { index, trigger, source: SelectionSource::Keyboard }
    }

    pub fn literal(text: &str, trigger: Trigger) -> (r: Self)
        ensures
            r@ == (Wish::Literal { text: text@, trigger }),
    {
        PendingCommit::Literal { text: text.to_owned(), trigger }
    }

    pub fn commit_comment() -> (r: Self)
        ensures
            r@ == (Wish::CommitComment { clear: true }),
    {
        PendingCommit::CommitComment { clear: true }
    }
}

/// What a processor did with a key.
#[derive(Clone, Copy, Debug, PartialEq, Eq, Structural)]
pub enum ProcessResult {
    /// It took the key.
    Accepted,
    /// It gives the key back: nobody else may take it.
    Rejected,
    /// It does not care; others may.
    Noop,
}

// ---------------------------------------------------------------------------
// The state
// ---------------------------------------------------------------------------

/// What a session remembers between keys.
#[derive(Debug)]
pub struct SessionState {
    pub composition: Composition,
    pub options: Options,
    pub context: Context,
    pub pending_commit: Option<PendingCommit>,
    /// Keys to be handled in place of the one that was pressed.
    pub sent_keys: Vec<Key>,
    /// Whether the key that is handled was sent in place of another.
    pub redirecting: bool,
    pub candidate_page: usize,
    pub candidate_pages: usize,
    pub candidate_count: usize,
    /// Where the predictions stand among the candidates, and how many there
    /// are.
    pub predict_start: usize,
    pub predict_count: usize,
    /// The switches that were turned by keys.
    pub option_events: Vec<(String, bool)>,
}

/// The mathematical reading of a [`SessionState`].
pub struct State {
    pub input: Seq<char>,
    pub caret: int,
    pub preedit: Seq<char>,
    pub segments: Seq<Part>,
    pub options: Map<Seq<char>, bool>,
    pub context: Seq<Seq<char>>,
    pub pending: Option<Wish>,
    pub sent: Seq<Key>,
    pub redirecting: bool,
    pub page: int,
    pub pages: int,
    pub count: int,
    pub predict_start: int,
    pub predict_count: int,
    pub events: Seq<(Seq<char>, bool)>,
}

pub open spec fn events_view(v: Seq<(String, bool)>) -> Seq<(Seq<char>, bool)> {
    Seq::new(v.len(), |i: int| (v[i].0@, v[i].1))
}

impl View for SessionState {
    type V = State;

    open spec fn view(&self) -> State {
        State {
            input: self.composition.input@,
            caret: self.composition.caret as int,
            preedit: self.composition.preedit@,
            segments: views(self.composition.segments@),
            options: self.options@,
            context: self.context@,
            pending: match self.pending_commit {
                Some(p) => Some(p@),
                None => None,
            },
            sent: self.sent_keys@,
            redirecting: self.redirecting,
            page: self.candidate_page as int,
            pages: self.candidate_pages as int,
            count: self.candidate_count as int,
            predict_start: self.predict_start as int,
            predict_count: self.predict_count as int,
            events: events_view(self.option_events@),
        }
    }
}

/// A state whose input was replaced; the caret stands at its end.
pub open spec fn with_input(s: State, input: Seq<char>) -> State {
    State { input, caret: bytes_len(input) as int, ..s }
}

/// A state whose input was cut: the former segments no longer hold.
pub open spec fn with_cut(s: State, input: Seq<char>) -> State {
    State { segments: seq![], ..with_input(s, input) }
}

/// A state without input.
pub open spec fn without_input(s: State) -> State {
    State { input: seq![], caret: 0, preedit: seq![], segments: seq![], ..s }
}

/// A state with a wish.
pub open spec fn wishing(s: State, w: Wish) -> State {
    State { pending: Some(w), ..s }
}

/// A state after a switch was turned. One that was not declared stays so, and
/// nothing is noted.
pub open spec fn with_switch(s: State, name: Seq<char>, on: bool) -> State {
    if s.options.contains_key(name) {
        State { options: s.options.insert(name, on), events: s.events.push((name, on)), ..s }
    } else {
        s
    }
}

/// The place, among all candidates, of the input candidate number `n`: the
/// predictions in between are passed over.
pub open spec fn selectable(s: State, n: int) -> int {
    if n < s.predict_start {
        n
    } else {
        n + s.predict_count
    }
}

impl SessionState {
    /// The words before fit their memory, and nine more places can be counted
    /// past the predictions.
    pub open spec fn wf(&self) -> bool {
        self.context.wf() && self.predict_count <= usize::MAX - 9
    }

    pub fn new(composition: Composition, options: Options, context: Context) -> (r: Self)
        requires
            context.wf(),
        ensures
            r.wf(),
            r.context.capacity == context.capacity,
            r@ == (State {
                input: composition.input@,
                caret: composition.caret as int,
                preedit: composition.preedit@,
                segments: views(composition.segments@),
                options: options@,
                context: context@,
                pending: None,
                sent: seq![],
                redirecting: false,
                page: 0,
                pages: 0,
                count: 0,
                predict_start: 0,
                predict_count: 0,
                events: seq![],
            }),
    {
        let r = SessionState {
            composition,
            options,
            context,
            pending_commit: None,
            sent_keys: Vec::new(),
            redirecting: false,
            candidate_page: 0,
            candidate_pages: 0,
            candidate_count: 0,
            predict_start: 0,
            predict_count: 0,
            option_events: Vec::new(),
        };
        assert(events_view(r.option_events@) =~= seq![]);
        assert(r.sent_keys@ =~= seq![]);
        r
    }

    /// Turns a switch and notes it. One that was not declared is not made.
    pub fn set_option(&mut self, name: &str, on: bool) -> (r: bool)
        ensures
            final(self)@ == with_switch(old(self)@, name@, on),
            r == old(self)@.options.contains_key(name@),
            final(self).context == old(self).context,
    {
        let ghost before = self@;
        let ok = self.options.set(name, on);
        if ok {
            self.option_events.push((name.to_owned(), on));
            assert(events_view(self.option_events@) =~= before.events.push((name@, on)));
        }
        ok
    }

    /// Turns a switch to its other position.
    pub fn toggle_option(&mut self, name: &str) -> (r: bool)
        ensures
            final(self)@ == with_switch(
                old(self)@,
                name@,
                !is_on(old(self)@.options, name@),
            ),
            r == old(self)@.options.contains_key(name@),
            final(self).context == old(self).context,
    {
        let on = !self.options.get(name);
        self.set_option(name, on)
    }

    /// The place, among all candidates, of the input candidate number `n`.
    #[must_use]
    pub fn selectable_index(&self, n: usize) -> (r: usize)
        requires
            n + self.predict_count <= usize::MAX,
        ensures
            r == selectable(self@, n as int),
    {
        if n < self.predict_start {
            n
        } else {
            n + self.predict_count
        }
    }
}

impl Default for SessionState {
    fn default() -> (r: Self)
        ensures
            r.wf(),
            r@ == empty_state(Map::<Seq<char>, bool>::empty()),
            r.context.capacity == CONTEXT_CAPACITY,
    {
        let c = Composition::new();
        let r = SessionState::new(c, Options::new(), Context::default());
        assert(r@.segments =~= seq![]);
        assert(r@.input =~= seq![]);
        assert(r@.preedit =~= seq![]);
        assert(r@.context =~= seq![]);
        r
    }
}

/// A state in which nothing has happened, with these switches.
pub open spec fn empty_state(options: Map<Seq<char>, bool>) -> State {
    State {
        input: seq![],
        caret: 0,
        preedit: seq![],
        segments: seq![],
        options,
        context: seq![],
        pending: None,
        sent: seq![],
        redirecting: false,
        page: 0,
        pages: 0,
        count: 0,
        predict_start: 0,
        predict_count: 0,
        events: seq![],
    }
}

// ---------------------------------------------------------------------------
// Laws
// ---------------------------------------------------------------------------

/// The places of the input candidates rise with their numbers and never fall
/// on a prediction.
pub proof fn numbers_pass_over_predictions(s: State, n: int, m: int)
    requires
        0 <= n < m,
        s.predict_start >= 0,
        s.predict_count >= 0,
    ensures
        selectable(s, n) < selectable(s, m),
        !(s.predict_start <= selectable(s, n) < s.predict_start + s.predict_count),
{
}

/// A session never remembers more words than it has room for, and the newest
/// word is the last.
pub proof fn memory_is_bounded(words: Seq<Seq<char>>, w: Seq<char>, capacity: int)
    requires
        0 < capacity,
        words.len() <= capacity,
        w.len() > 0,
    ensures
        remembered(words, w, capacity).len() <= capacity,
        remembered(words, w, capacity).last() == w,
{
}

/// A session remembers the last words, in their order: those that are left are
/// the newest, and an empty text is not remembered.
pub proof fn the_newest_words_are_remembered(
    words: Seq<Seq<char>>,
    w: Seq<char>,
    capacity: int,
    i: int,
)
    requires
        0 < capacity,
        words.len() <= capacity,
    ensures
        w.len() == 0 ==> remembered(words, w, capacity) == words,
        w.len() > 0 && words.len() < capacity ==> remembered(words, w, capacity) == words.push(w),
        w.len() > 0 && words.len() == capacity && 0 <= i < capacity - 1 ==> remembered(
            words,
            w,
            capacity,
        ).len() == capacity && remembered(words, w, capacity)[i] == words[i + 1],
{
}

/// A switch that is turned stands as it was turned, all others as they stood,
/// and the turn is noted last. A switch that was not declared is not made.
pub proof fn switches_stand_as_turned(s: State, name: Seq<char>, other: Seq<char>, on: bool)
    requires
        other != name,
    ensures
        s.options.contains_key(name) ==> {
            let t = with_switch(s, name, on);
            &&& t.options.contains_key(name) && t.options[name] == on
            &&& t.options.contains_key(other) == s.options.contains_key(other)
            &&& s.options.contains_key(other) ==> t.options[other] == s.options[other]
            &&& t.events.len() == s.events.len() + 1 && t.events.last() == (name, on)
            &&& t.events.drop_last() == s.events
            &&& t == (State { options: t.options, events: t.events, ..s })
        },
        !s.options.contains_key(name) ==> with_switch(s, name, on) == s,
{
    if s.options.contains_key(name) {
        assert(with_switch(s, name, on).events.drop_last() =~= s.events);
    }
}

} // verus!
