//! The pipeline: the components of a scheme in their order, and what one key
//! makes of a session.
//!
//! A key goes through the processors. The input is then scanned and cut into
//! tagged parts, the translators whose tags are there answer, their answers are
//! ranked, and the filters have the last word. The order of the components is
//! part of their meaning: nothing is rearranged here.

use std::sync::Arc;
use vstd::prelude::*;
use crate::candidate::{Cand, Candidate, Span};
use crate::component::{
    AnyFilter, AnyTranslator, Cutter, Processor, Question, Segmentor,
};
use crate::keyspec::Key;
use crate::options::Options;
use crate::order::views;
use crate::processor::Navigator;
use crate::ranking::{ranked, sort_candidates};
use crate::segmentor::{tagged, Part, Recognizer, Segment};
use crate::spelling::SpellingTable;
use crate::state::{ProcessResult, SessionState, State};
use crate::tag::{holds_tag, share_tag, tags_meet, Tag};
use crate::text::{at_byte, byte_len, bytes_len, find_byte, part, prefix_bytes, same_text, to_chars};

pub mod cutting;
pub mod display;
pub mod laws;
pub mod prediction;

use cutting::{
    active_tags, claims_of, cut, cut_from, declared_tags, or_tag, recognized_claims_fit, scan_input,
    tags_of_cutters, tags_of_parts,
};
use display::{segment_for_display, shown};
use prediction::{
    append_predictions, block, foreseen, spliced, with_block, Prediction,
};

verus! {

/// How many candidates are put together at most.
pub const CANDIDATE_CAP: usize = 200;

/// How many candidates one page shows.
pub const DEFAULT_PAGE_SIZE: usize = 9;

/// How many times a key is replaced with others at most.
pub const REBIND_ROUNDS: usize = 3;

/// The components of a scheme at work.
#[derive(Debug)]
pub struct PipelineImpl {
    /// The tag of what no segmentor takes.
    pub tag: Tag,
    pub recognizer: Option<Recognizer>,
    pub segmentors: Vec<Segmentor>,
    pub processors: Vec<Processor>,
    pub translators: Vec<AnyTranslator>,
    pub filters: Vec<AnyFilter>,
    pub cap: usize,
    pub page_size: usize,
    /// The mark between the units of the input, as it is shown.
    pub delimiter: Option<char>,
    pub spelling: Option<Arc<SpellingTable>>,
    /// What a memory expects next, where the pipeline predicts.
    pub predictions: Option<Vec<Prediction>>,
}

// ---------------------------------------------------------------------------
// Keys
// ---------------------------------------------------------------------------

/// The processors and the state after a key went through the processors from
/// `from` on. The first that accepts or rejects it ends the matter.
pub open spec fn dispatched(ps: Seq<Processor>, s: State, key: Key, from: int) -> (
    Seq<Processor>,
    State,
    ProcessResult,
)
    decreases ps.len() - from,
{
    if from < 0 || from >= ps.len() {
        (ps, s, ProcessResult::Noop)
    } else if !ps[from].works(s.options) {
        dispatched(ps, s, key, from + 1)
    } else {
        let (p, t, r) = ps[from].step(s, key);
        let qs = ps.update(from, p);
        if r == ProcessResult::Noop {
            dispatched(qs, t, key, from + 1)
        } else {
            (qs, t, r)
        }
    }
}

/// The processors and the state after the keys from `from` on went through the
/// processors one after the other, in place of another key.
pub open spec fn redirected(ps: Seq<Processor>, s: State, keys: Seq<Key>, from: int) -> (
    Seq<Processor>,
    State,
)
    decreases keys.len() - from,
{
    if from < 0 || from >= keys.len() {
        (ps, s)
    } else {
        let (qs, t, _) = dispatched(ps, State { redirecting: true, ..s }, keys[from], 0);
        redirected(qs, t, keys, from + 1)
    }
}

/// The processors and the state after the keys that were sent went through the
/// processors, then those that were sent in their place, and so on, `n` times
/// at most.
pub open spec fn resent(ps: Seq<Processor>, s: State, n: int) -> (Seq<Processor>, State)
    decreases n,
{
    if n <= 0 || s.sent.len() == 0 {
        (ps, s)
    } else {
        let (qs, t) = redirected(ps, State { sent: seq![], ..s }, s.sent, 0);
        resent(qs, t, n - 1)
    }
}

/// A processor that is at the first page, where it turns pages.
pub open spec fn first_page(p: Processor) -> Processor {
    match p {
        Processor::Navigator(n) => Processor::Navigator(Navigator { page: 0, ..n }),
        _ => p,
    }
}

/// Processors that are at the first page.
pub open spec fn first_pages(ps: Seq<Processor>) -> Seq<Processor> {
    Seq::new(ps.len(), |i: int| first_page(ps[i]))
}

/// Processors and a state, back at the first page where the input is no longer
/// what it was.
pub open spec fn turned_back(ps: Seq<Processor>, s: State, was: Seq<char>) -> (
    Seq<Processor>,
    State,
) {
    if s.input == was {
        (ps, s)
    } else {
        (first_pages(ps), State { page: 0, ..s })
    }
}

/// What becomes of a key: it goes through the processors, then those it was
/// replaced with do, and what is left of those is dropped. Another input starts
/// at the first page.
pub open spec fn keyed(ps: Seq<Processor>, s: State, key: Key) -> (
    Seq<Processor>,
    State,
    ProcessResult,
) {
    let (qs, t, r) = dispatched(ps, State { redirecting: false, ..s }, key, 0);
    let (rs, u) = resent(qs, t, REBIND_ROUNDS as int);
    let (end, v) = turned_back(rs, State { sent: seq![], ..u }, s.input);
    (end, v, r)
}

// ---------------------------------------------------------------------------
// Translation
// ---------------------------------------------------------------------------

/// What the first `n` translators that are for every input pour.
pub open spec fn poured_freely(
    ts: Seq<AnyTranslator>,
    active: Seq<Seq<char>>,
    q: Question,
    cap: int,
    n: int,
) -> Seq<Cand>
    decreases n,
{
    if n <= 0 {
        seq![]
    } else {
        let head = poured_freely(ts, active, q, cap, n - 1);
        let t = ts[n - 1];
        if t.aims().len() == 0 && t.admits(active) {
            t.bare().pours(head, q, cap)
        } else {
            head
        }
    }
}

/// What the first `n` translators that are for a tag pour on top of `there`.
pub open spec fn poured_for(
    ts: Seq<AnyTranslator>,
    tag: Seq<char>,
    active: Seq<Seq<char>>,
    there: Seq<Cand>,
    q: Question,
    cap: int,
    n: int,
) -> Seq<Cand>
    decreases n,
{
    if n <= 0 {
        there
    } else {
        let head = poured_for(ts, tag, active, there, q, cap, n - 1);
        let t = ts[n - 1];
        if t.aims().contains(tag) && t.admits(active) {
            t.bare().pours(head, q, cap)
        } else {
            head
        }
    }
}

/// Where the body of the segments with a tag starts, in bytes: the first
/// segmentor, from `from` on, that knows says so.
pub open spec fn body_offset(cs: Seq<Cutter>, tag: Seq<char>, from: int) -> int
    decreases cs.len() - from,
{
    if from < 0 || from >= cs.len() {
        0
    } else {
        match cs[from].body() {
            Some((t, n)) => if t == tag {
                n
            } else {
                body_offset(cs, tag, from + 1)
            },
            None => body_offset(cs, tag, from + 1),
        }
    }
}

/// The input without its first bytes; nothing where they end within a
/// character or are not there.
pub open spec fn body_text(s: Seq<char>, offset: int) -> Seq<char> {
    match at_byte(s, offset) {
        Some(n) => s.skip(n),
        None => seq![],
    }
}

/// What the translators pour for the whole input, and then for each of the
/// first `n` tags.
pub open spec fn poured_by_tags(
    ts: Seq<AnyTranslator>,
    cs: Seq<Cutter>,
    active: Seq<Seq<char>>,
    q: Question,
    cap: int,
    n: int,
) -> Seq<Cand>
    decreases n,
{
    if n <= 0 {
        poured_freely(ts, active, q, cap, ts.len() as int)
    } else {
        let tag = active[n - 1];
        let body = body_text(q.input, body_offset(cs, tag, 0));
        poured_for(
            ts,
            tag,
            active,
            poured_by_tags(ts, cs, active, q, cap, n - 1),
            Question { text: body, ..q },
            cap,
            ts.len() as int,
        )
    }
}

/// What the first `n` filters leave, of those that are for these tags.
pub open spec fn filtered(
    fs: Seq<AnyFilter>,
    active: Seq<Seq<char>>,
    input: Seq<char>,
    options: Map<Seq<char>, bool>,
    cs: Seq<Cand>,
    n: int,
) -> Seq<Cand>
    decreases n,
{
    if n <= 0 {
        cs
    } else {
        let head = filtered(fs, active, input, options, cs, n - 1);
        if fs[n - 1].admits(active) {
            fs[n - 1].bare().leaves(input, options, head)
        } else {
            head
        }
    }
}

// ---------------------------------------------------------------------------
// What is written back
// ---------------------------------------------------------------------------

/// How many pages `n` candidates take.
pub open spec fn page_count(n: int, size: int) -> int {
    if n % size == 0 {
        n / size
    } else {
        n / size + 1
    }
}

/// A page number that exists: beyond the last page the last is shown.
pub open spec fn clamped_page(page: int, pages: int) -> int {
    if page < pages {
        page
    } else if pages == 0 {
        0
    } else {
        pages - 1
    }
}

/// The parts as they are shown, with the candidates on those that cover the
/// input. Where the input is one part and has several units, each unit is a
/// part.
pub open spec fn laid_out(
    parts: Seq<Part>,
    spans: Seq<Span>,
    out: Seq<Cand>,
    len: int,
    tag: Seq<char>,
) -> Seq<Part> {
    if parts.len() <= 1 && spans.len() > 1 {
        spans.map_values(|sp: Span| Part { candidates: out, ..tagged(sp, seq![tag]) })
    } else {
        parts.map_values(
            |p: Part|
                if p.span.start == 0 && p.span.end >= len {
                    Part { candidates: p.candidates + out, ..p }
                } else {
                    p
                },
        )
    }
}

impl PipelineImpl {
    /// Every component is in order, and a page has room.
    pub open spec fn wf(&self) -> bool {
        &&& self.page_size >= 1
        &&& forall|i: int|
            0 <= i < self.translators@.len() ==> (#[trigger] self.translators@[i]).bare().wf()
        &&& forall|i: int| 0 <= i < self.filters@.len() ==> (#[trigger] self.filters@[i]).bare().wf()
        &&& (self.spelling matches Some(t) ==> t.wf())
    }

    /// The rules of the segmentors.
    pub open spec fn cutters(&self) -> Seq<Cutter> {
        views(self.segmentors@)
    }

    /// The parts of an input.
    pub open spec fn parts(&self, s: Seq<char>) -> Seq<Part> {
        cut_from(self.cutters(), self.tag@, s, claims_of(self.recognizer, s), 0)
    }

    /// The tags of some parts.
    pub open spec fn active(&self, parts: Seq<Part>) -> Seq<Seq<char>> {
        or_tag(tags_of_parts(parts), self.tag@)
    }

    /// What the translators pour for an input with these tags.
    pub open spec fn translated(
        &self,
        s: Seq<char>,
        options: Map<Seq<char>, bool>,
        active: Seq<Seq<char>>,
    ) -> Seq<Cand> {
        let span = Span { start: 0, end: bytes_len(s) as usize };
        poured_by_tags(
            self.translators@,
            self.cutters(),
            active,
            Question { input: s, text: s, options, span },
            self.cap as int,
            active.len() as int,
        )
    }

    /// What ranking and the filters make of the translators' answers.
    pub open spec fn chosen(
        &self,
        s: Seq<char>,
        options: Map<Seq<char>, bool>,
        active: Seq<Seq<char>>,
        raw: Seq<Cand>,
    ) -> Seq<Cand> {
        filtered(
            self.filters@,
            active,
            s,
            options,
            ranked(raw),
            self.filters@.len() as int,
        )
    }

    /// The state and the candidates of an input that was cut into `parts`, for
    /// which the translators answered `raw`.
    pub open spec fn finished(&self, s: State, parts: Seq<Part>, raw: Seq<Cand>) -> (
        State,
        Seq<Cand>,
    ) {
        let cs = self.chosen(s.input, s.options, self.active(parts), raw);
        let b = block(foreseen(self.predictions), s, cs);
        let out = spliced(cs, b);
        let pages = page_count(out.len() as int, self.page_size as int);
        let (preedit, spans) = shown(self.spelling, self.delimiter, s.input);
        (
            State {
                preedit,
                segments: laid_out(parts, spans, out, bytes_len(s.input) as int, self.tag@),
                page: clamped_page(s.page, pages),
                pages,
                count: out.len() as int,
                ..with_block(s, cs, b)
            },
            out,
        )
    }

    /// The state and the candidates where there is no input: only what may
    /// come next is shown.
    pub open spec fn idle(&self, s: State) -> (State, Seq<Cand>) {
        let b = block(foreseen(self.predictions), s, seq![]);
        (
            State {
                preedit: seq![],
                segments: seq![],
                page: 0,
                pages: page_count(b.len() as int, self.page_size as int),
                count: b.len() as int,
                ..with_block(s, seq![], b)
            },
            b,
        )
    }

    /// The state and the candidates that belong to an input.
    pub open spec fn composed(&self, s: State) -> (State, Seq<Cand>) {
        if s.input.len() == 0 {
            self.idle(s)
        } else {
            let parts = self.parts(s.input);
            self.finished(
                s,
                parts,
                self.translated(s.input, s.options, self.active(parts)),
            )
        }
    }

    /// Whether another pipeline has the same components, apart from what its
    /// segmentors have seen last.
    pub open spec fn same_parts(&self, other: &PipelineImpl) -> bool {
        &&& self.tag == other.tag
        &&& self.recognizer == other.recognizer
        &&& self.cutters() == other.cutters()
        &&& self.processors@ == other.processors@
        &&& self.translators@ == other.translators@
        &&& self.filters@ == other.filters@
        &&& self.cap == other.cap
        &&& self.page_size == other.page_size
        &&& self.delimiter == other.delimiter
        &&& self.spelling == other.spelling
        &&& self.predictions == other.predictions
    }

    /// A pipeline of components in their order.
    #[must_use]
    pub fn new(
        tag: Tag,
        processors: Vec<Processor>,
        translators: Vec<AnyTranslator>,
        filters: Vec<AnyFilter>,
        cap: usize,
    ) -> (r: Self)
        ensures
            r.tag == tag,
            r.recognizer is None,
            r.segmentors@.len() == 0,
            r.processors == processors,
            r.translators == translators,
            r.filters == filters,
            r.cap == cap,
            r.page_size == DEFAULT_PAGE_SIZE,
            r.delimiter is None,
            r.spelling is None,
            r.predictions is None,
    {
        PipelineImpl {
            tag,
            recognizer: None,
            segmentors: Vec::new(),
            processors,
            translators,
            filters,
            cap,
            page_size: DEFAULT_PAGE_SIZE,
            delimiter: None,
            spelling: None,
            predictions: None,
        }
    }

    /// Lets the pipeline predict, with what a memory expects after the words so
    /// far.
    #[must_use]
    pub fn with_prediction(self, predictions: Option<Vec<Prediction>>) -> (r: Self)
        ensures
            r == (PipelineImpl { predictions, ..self }),
    {
        let mut r = self;
        r.predictions = predictions;
        r
    }

    /// Whether the pipeline predicts.
    #[must_use]
    pub fn prediction_enabled(&self) -> (r: bool)
        ensures
            r == self.predictions is Some,
    {
        self.predictions.is_some()
    }

    #[must_use]
    pub fn with_segmentors(self, recognizer: Option<Recognizer>, segmentors: Vec<Segmentor>) -> (r:
        Self)
        ensures
            r == (PipelineImpl { recognizer, segmentors, ..self }),
    {
        let mut r = self;
        r.recognizer = recognizer;
        r.segmentors = segmentors;
        r
    }

    /// Sets the mark between units, and the table that knows the units.
    #[must_use]
    pub fn with_preedit(self, delimiter: Option<char>, spelling: Option<Arc<SpellingTable>>) -> (r:
        Self)
        ensures
            r == (PipelineImpl { delimiter, spelling, ..self }),
    {
        let mut r = self;
        r.delimiter = delimiter;
        r.spelling = spelling;
        r
    }

    /// Sets how many candidates one page shows; one at least.
    #[must_use]
    pub fn with_page_size(self, page_size: usize) -> (r: Self)
        ensures
            r == (PipelineImpl {
                page_size: if page_size < 1 {
                    1
                } else {
                    page_size
                },
                ..self
            }),
    {
        let mut r = self;
        r.page_size = if page_size < 1 {
            1
        } else {
            page_size
        };
        r
    }

    #[must_use]
    pub fn tag(&self) -> (r: Tag)
        ensures
            r == self.tag,
    {
        self.tag
    }

    #[must_use]
    pub fn segmentor_count(&self) -> (r: usize)
        ensures
            r == self.segmentors@.len(),
    {
        self.segmentors.len()
    }

    #[must_use]
    pub fn has_recognizer(&self) -> (r: bool)
        ensures
            r == self.recognizer is Some,
    {
        self.recognizer.is_some()
    }

    /// How many processors, translators and filters there are.
    #[must_use]
    pub fn component_counts(&self) -> (r: (usize, usize, usize))
        ensures
            r.0 == self.processors@.len(),
            r.1 == self.translators@.len(),
            r.2 == self.filters@.len(),
    {
        (self.processors.len(), self.translators.len(), self.filters.len())
    }

    /// The tags that the segmentors can give, each once.
    #[must_use]
    pub fn declared_tags(&self) -> (r: Vec<Tag>)
        ensures
            views(r@) == or_tag(tags_of_cutters(self.cutters()), self.tag@),
    {
        declared_tags(&self.segmentors, self.tag)
    }

    /// Whether every translator has something to do: it is for every input, or
    /// for a tag that some segmentor can give.
    pub open spec fn every_translator_is_reached(&self) -> bool {
        let given = or_tag(tags_of_cutters(self.cutters()), self.tag@);
        forall|i: int|
            0 <= i < self.translators@.len() ==> (#[trigger] self.translators@[i]).aims().len() == 0
                || share_tag(given, self.translators@[i].aims())
    }

    /// Decides [`PipelineImpl::every_translator_is_reached`]. A translator that
    /// is not reached does nothing, while its configuration looks right.
    #[must_use]
    pub fn tags_are_given(&self) -> (r: bool)
        ensures
            r == self.every_translator_is_reached(),
    {
        let given = self.declared_tags();
        let mut i: usize = 0;
        while i < self.translators.len()
            invariant
                i <= self.translators@.len(),
                views(given@) == or_tag(tags_of_cutters(self.cutters()), self.tag@),
                forall|j: int|
                    0 <= j < i ==> (#[trigger] self.translators@[j]).aims().len() == 0 || share_tag(
                        views(given@),
                        self.translators@[j].aims(),
                    ),
            decreases self.translators.len() - i,
        {
            let targets = self.translators[i].targets();
            assert(views(targets@).len() == targets@.len());
            if targets.len() > 0 && !tags_meet(&given, &targets) {
                assert(!share_tag(views(given@), self.translators@[i as int].aims()));
                return false;
            }
            i += 1;
        }
        true
    }

    // -----------------------------------------------------------------------
    // Keys
    // -----------------------------------------------------------------------

    fn dispatch(&mut self, state: &mut SessionState, key: &Key, redirecting: bool) -> (r:
        ProcessResult)
        requires
            old(state).wf(),
        ensures
            (final(self).processors@, final(state)@, r) == dispatched(
                old(self).processors@,
                (State { redirecting, ..old(state)@ }),
                *key,
                0,
            ),
            *final(self) == (PipelineImpl { processors: final(self).processors, ..*old(self) }),
            final(state).wf(),
            final(state).context == old(state).context,
            final(state).predict_count == old(state).predict_count,
    {
        state.redirecting = redirecting;
        let ghost goal = dispatched(self.processors@, state@, *key, 0);
        let mut i: usize = 0;
        while i < self.processors.len()
            invariant
                i <= self.processors@.len(),
                state.wf(),
                state.context == old(state).context,
                state.predict_count == old(state).predict_count,
                *self == (PipelineImpl { processors: self.processors, ..*old(self) }),
                goal == dispatched(self.processors@, state@, *key, i as int),
                goal == dispatched(
                    old(self).processors@,
                    (State { redirecting, ..old(state)@ }),
                    *key,
                    0,
                ),
            decreases self.processors@.len() - i,
        {
            if self.processors[i].enabled(&state.options) {
                let ghost ps = self.processors@;
                let ghost s = state@;
                let r = self.processors[i].process(state, key);
                assert(self.processors@ =~= ps.update(i as int, ps[i as int].step(s, *key).0));
                match r {
                    ProcessResult::Noop => {},
                    _ => {
                        return r;
                    },
                }
            }
            i += 1;
        }
        ProcessResult::Noop
    }

    /// Lets a key go through the processors.
    pub fn process_key(&mut self, state: &mut SessionState, key: &Key) -> (r: ProcessResult)
        requires
            old(state).wf(),
        ensures
            (final(self).processors@, final(state)@, r) == keyed(
                old(self).processors@,
                old(state)@,
                *key,
            ),
            *final(self) == (PipelineImpl { processors: final(self).processors, ..*old(self) }),
            final(state).wf(),
            final(state).context == old(state).context,
            final(state).predict_count == old(state).predict_count,
    {
        let was = state.composition.input.clone();
        let first = self.dispatch(state, key, false);
        let ghost goal = resent(self.processors@, state@, REBIND_ROUNDS as int);
        let mut n: usize = 0;
        while n < REBIND_ROUNDS && state.sent_keys.len() > 0
            invariant
                n <= REBIND_ROUNDS,
                state.wf(),
                state.context == old(state).context,
                state.predict_count == old(state).predict_count,
                *self == (PipelineImpl { processors: self.processors, ..*old(self) }),
                goal == resent(self.processors@, state@, REBIND_ROUNDS - n),
            decreases REBIND_ROUNDS - n,
        {
            let mut keys: Vec<Key> = Vec::new();
            let ghost s = state@;
            std::mem::swap(&mut state.sent_keys, &mut keys);
            assert(state@ == (State { sent: seq![], ..s })) by {
                assert(state@.sent =~= seq![]);
            }
            let ghost round = redirected(self.processors@, state@, keys@, 0);
            let mut i: usize = 0;
            while i < keys.len()
                invariant
                    i <= keys@.len(),
                    state.wf(),
                    state.context == old(state).context,
                    state.predict_count == old(state).predict_count,
                    *self == (PipelineImpl { processors: self.processors, ..*old(self) }),
                    round == redirected(self.processors@, state@, keys@, i as int),
                decreases keys.len() - i,
            {
                let _ = self.dispatch(state, &keys[i], true);
                i += 1;
            }
            n += 1;
        }
        state.sent_keys.clear();
        assert(state@.sent =~= seq![]);
        if !same_text(state.composition.input.as_str(), was.as_str()) {
            self.turn_to_first_page();
            state.candidate_page = 0;
        }
        first
    }

    /// Goes back to the first page.
    pub fn turn_to_first_page(&mut self)
        ensures
            final(self).processors@ == first_pages(old(self).processors@),
            *final(self) == (PipelineImpl { processors: final(self).processors, ..*old(self) }),
    {
        let ghost all = self.processors@;
        let mut i: usize = 0;
        while i < self.processors.len()
            invariant
                i <= self.processors@.len(),
                all == old(self).processors@,
                self.processors@.len() == all.len(),
                *self == (PipelineImpl { processors: self.processors, ..*old(self) }),
                forall|j: int| 0 <= j < i ==> (#[trigger] self.processors@[j]) == first_page(all[j]),
                forall|j: int| i <= j < all.len() ==> (#[trigger] self.processors@[j]) == all[j],
            decreases self.processors@.len() - i,
        {
            match &mut self.processors[i] {
                Processor::Navigator(n) => {
                    n.reset();
                },
                _ => {},
            }
            i += 1;
        }
        assert(self.processors@ =~= first_pages(all));
    }
}


// ---------------------------------------------------------------------------
// Candidates
// ---------------------------------------------------------------------------

impl PipelineImpl {
    /// Scans an input and cuts it into parts. What the input is does not hang
    /// on any switch.
    pub fn segment(&mut self, input: &str) -> (r: Vec<Segment>)
        ensures
            views(r@) == old(self).parts(input@),
            final(self).same_parts(old(self)),
    {
        let scan = scan_input(&self.recognizer, input);
        let ghost before = *self;
        let mut i: usize = 0;
        while i < self.segmentors.len()
            invariant
                i <= self.segmentors@.len(),
                self.segmentors@.len() == before.segmentors@.len(),
                forall|j: int|
                    0 <= j < self.segmentors@.len() ==> (#[trigger] self.segmentors@[j])@
                        == before.segmentors@[j]@,
                forall|j: int|
                    0 <= j < i ==> (#[trigger] self.segmentors@[j]).follows(scan.claims@),
                *self == (PipelineImpl { segmentors: self.segmentors, ..before }),
            decreases self.segmentors@.len() - i,
        {
            self.segmentors[i].rescan(&scan);
            i += 1;
        }
        assert(self.cutters() =~= before.cutters());
        let _ = byte_len(input);
        proof {
            recognized_claims_fit(self.recognizer, input@);
        }
        cut(&self.segmentors, self.tag, input, &scan)
    }

    /// The tags of some parts, each once.
    pub fn active_tags(&self, segs: &Vec<Segment>) -> (r: Vec<Tag>)
        ensures
            views(r@) == self.active(views(segs@)),
    {
        active_tags(segs, self.tag)
    }

    fn body_of(&self, input: &str, tag: Tag) -> (r: String)
        ensures
            r@ == body_text(input@, body_offset(self.cutters(), tag@, 0)),
            bytes_len(r@) <= usize::MAX,
    {
        let cs = to_chars(input);
        let ghost rules = self.cutters();
        let mut offset: usize = 0;
        let mut i: usize = 0;
        let mut found = false;
        while i < self.segmentors.len() && !found
            invariant
                i <= self.segmentors@.len(),
                rules == views(self.segmentors@),
                found ==> body_offset(rules, tag@, 0) == offset,
                !found ==> offset == 0 && body_offset(rules, tag@, 0) == body_offset(
                    rules,
                    tag@,
                    i as int,
                ),
            decreases self.segmentors.len() - i,
        {
            assert(rules[i as int] == self.segmentors@[i as int]@);
            if let Some((t, n)) = self.segmentors[i].body_start() {
                if same_text(t, tag) {
                    offset = n;
                    found = true;
                }
            }
            i += 1;
        }
        let _ = byte_len(input);
        match find_byte(&cs, offset) {
            Some(n) => {
                let r = part(&cs, n, cs.len());
                assert(r@ =~= input@.skip(n as int));
                proof {
                    prefix_bytes(input@, n as int);
                }
                r
            },
            None => String::new(),
        }
    }

    fn pour_freely(
        &self,
        input: &str,
        options: &Options,
        active: &Vec<Tag>,
        span: Span,
        out: &mut Vec<Candidate>,
    )
        requires
            self.wf(),
            span == (Span { start: 0, end: bytes_len(input@) as usize }),
            old(out)@.len() == 0,
        ensures
            views(final(out)@) == poured_freely(
                self.translators@,
                views(active@),
                (Question { input: input@, text: input@, options: options@, span }),
                self.cap as int,
                self.translators@.len() as int,
            ),
    {
        let ghost q = Question { input: input@, text: input@, options: options@, span };
        let ghost ts = self.translators@;
        let _ = byte_len(input);
        let mut i: usize = 0;
        assert(views(out@) =~= seq![]);
        while i < self.translators.len()
            invariant
                i <= self.translators@.len(),
                self.wf(),
                ts == self.translators@,
                span.start == 0,
                bytes_len(input@) <= usize::MAX,
                q == (Question { input: input@, text: input@, options: options@, span }),
                views(out@) == poured_freely(ts, views(active@), q, self.cap as int, i as int),
            decreases self.translators.len() - i,
        {
            let t = &self.translators[i];
            assert(ts[i as int] == *t);
            let aims = t.targets();
            assert(t.aims().len() == aims@.len());
            if aims.len() == 0 && t.accepts(active) {
                assert(t.bare().wf());
                t.bare_ref().translate(input, input, options, span, out, self.cap);
            }
            i += 1;
        }
    }

    fn pour_for(
        &self,
        tag: Tag,
        input: &str,
        body: &str,
        options: &Options,
        active: &Vec<Tag>,
        span: Span,
        out: &mut Vec<Candidate>,
    )
        requires
            self.wf(),
            span.start == 0,
            bytes_len(body@) <= usize::MAX,
        ensures
            views(final(out)@) == poured_for(
                self.translators@,
                tag@,
                views(active@),
                views(old(out)@),
                (Question { input: input@, text: body@, options: options@, span }),
                self.cap as int,
                self.translators@.len() as int,
            ),
    {
        let ghost q = Question { input: input@, text: body@, options: options@, span };
        let ghost ts = self.translators@;
        let ghost there = views(out@);
        let mut i: usize = 0;
        while i < self.translators.len()
            invariant
                i <= self.translators@.len(),
                self.wf(),
                ts == self.translators@,
                span.start == 0,
                bytes_len(body@) <= usize::MAX,
                q == (Question { input: input@, text: body@, options: options@, span }),
                views(out@) == poured_for(
                    ts,
                    tag@,
                    views(active@),
                    there,
                    q,
                    self.cap as int,
                    i as int,
                ),
            decreases self.translators.len() - i,
        {
            let t = &self.translators[i];
            assert(ts[i as int] == *t);
            let aims = t.targets();
            if holds_tag(&aims, tag) && t.accepts(active) {
                assert(t.bare().wf());
                t.bare_ref().translate(input, body, options, span, out, self.cap);
            }
            i += 1;
        }
    }

    /// Collects what the translators answer for an input with these tags.
    pub fn translate(
        &self,
        input: &str,
        options: &Options,
        active: &Vec<Tag>,
        out: &mut Vec<Candidate>,
    )
        requires
            self.wf(),
        ensures
            views(final(out)@) == self.translated(input@, options@, views(active@)),
    {
        out.clear();
        let span = Span::new(0, byte_len(input));
        self.pour_freely(input, options, active, span, out);
        let ghost q = Question { input: input@, text: input@, options: options@, span };
        let ghost av = views(active@);
        let mut k: usize = 0;
        while k < active.len()
            invariant
                k <= active@.len(),
                self.wf(),
                span.start == 0,
                av == views(active@),
                q == (Question { input: input@, text: input@, options: options@, span }),
                views(out@) == poured_by_tags(
                    self.translators@,
                    self.cutters(),
                    av,
                    q,
                    self.cap as int,
                    k as int,
                ),
            decreases active.len() - k,
        {
            let tag = active[k];
            assert(av[k as int] == tag@);
            let body = self.body_of(input, tag);
            self.pour_for(tag, input, body.as_str(), options, active, span, out);
            k += 1;
        }
    }

    fn rank_and_filter(
        &self,
        input: &str,
        options: &Options,
        active: &Vec<Tag>,
        out: &mut Vec<Candidate>,
    )
        requires
            self.wf(),
        ensures
            views(final(out)@) == self.chosen(
                input@,
                options@,
                views(active@),
                views(old(out)@),
            ),
    {
        let ghost raw = views(out@);
        sort_candidates(out);
        let ghost fs = self.filters@;
        let mut i: usize = 0;
        while i < self.filters.len()
            invariant
                i <= self.filters@.len(),
                self.wf(),
                fs == self.filters@,
                views(out@) == filtered(
                    fs,
                    views(active@),
                    input@,
                    options@,
                    ranked(raw),
                    i as int,
                ),
            decreases self.filters.len() - i,
        {
            let f = &self.filters[i];
            assert(fs[i as int] == *f);
            if f.applies_to(active) {
                assert(f.bare().wf());
                f.bare_ref().apply(input, options, out);
            }
            i += 1;
        }
    }

    fn count_pages(&self, n: usize) -> (r: usize)
        requires
            self.page_size >= 1,
        ensures
            r == page_count(n as int, self.page_size as int),
    {
        let q: usize = n / self.page_size;
        if n % self.page_size == 0 {
            q
        } else {
            proof {
                let size = self.page_size as int;
                assert(q < n) by (nonlinear_arith)
                    requires
                        q == n as int / size,
                        size >= 1,
                        n as int % size != 0,
                {
                    if size == 1 {
                        assert(n as int % 1 == 0);
                    }
                }
            }
            q + 1
        }
    }

    /// Ranks and filters what the translators have answered, adds the
    /// predictions, and writes the result back into the state.
    pub fn finish(&self, state: &mut SessionState, segs: Vec<Segment>, out: &mut Vec<Candidate>)
        requires
            self.wf(),
            old(state).wf(),
        ensures
            (final(state)@, views(final(out)@)) == self.finished(
                old(state)@,
                views(segs@),
                views(old(out)@),
            ),
            final(state).wf(),
            final(state).context == old(state).context,
    {
        let ghost s = state@;
        let ghost parts = views(segs@);
        let active = self.active_tags(&segs);
        let input = state.composition.input.clone();
        self.rank_and_filter(input.as_str(), &state.options, &active, out);
        append_predictions(&self.predictions, state, out);
        let ghost cands = views(out@);
        assert(cands.len() == out@.len());
        state.candidate_count = out.len();
        state.candidate_pages = self.count_pages(out.len());
        if state.candidate_page >= state.candidate_pages {
            state.candidate_page = if state.candidate_pages == 0 {
                0
            } else {
                state.candidate_pages - 1
            };
        }
        let (preedit, spans) = segment_for_display(&self.spelling, self.delimiter, input.as_str());
        state.composition.preedit = preedit;
        state.composition.segments = lay_out(segs, &spans, out, byte_len(input.as_str()), self.tag);
    }

    fn compose_idle(&self, state: &mut SessionState, out: &mut Vec<Candidate>)
        requires
            self.wf(),
            old(state).wf(),
        ensures
            (final(state)@, views(final(out)@)) == self.idle(old(state)@),
            final(state).wf(),
            final(state).context == old(state).context,
    {
        out.clear();
        assert(views(out@) =~= seq![]);
        state.composition.preedit = String::new();
        state.composition.segments = Vec::new();
        assert(views(state.composition.segments@) =~= seq![]);
        state.candidate_page = 0;
        assert(state.composition.preedit@ =~= seq![]);
        append_predictions(&self.predictions, state, out);
        assert(views(out@).len() == out@.len());
        state.candidate_count = out.len();
        state.candidate_pages = self.count_pages(out.len());
    }

    /// Puts together the candidates that belong to the input, and writes back
    /// what is shown of it.
    pub fn compose(&mut self, state: &mut SessionState, out: &mut Vec<Candidate>)
        requires
            old(self).wf(),
            old(state).wf(),
        ensures
            (final(state)@, views(final(out)@)) == old(self).composed(old(state)@),
            final(self).same_parts(old(self)),
            final(self).wf(),
            final(state).wf(),
            final(state).context == old(state).context,
    {
        if state.composition.input.as_str().is_empty() {
            self.compose_idle(state, out);
            return;
        }
        let input = state.composition.input.clone();
        let segs = self.segment(input.as_str());
        let active = self.active_tags(&segs);
        self.translate(input.as_str(), &state.options, &active, out);
        self.finish(state, segs, out);
    }
}

fn copy_candidates(v: &Vec<Candidate>) -> (r: Vec<Candidate>)
    ensures
        views(r@) == views(v@),
{
    let mut out: Vec<Candidate> = Vec::new();
    let mut i: usize = 0;
    while i < v.len()
        invariant
            i <= v@.len(),
            out@.len() == i,
            forall|j: int| 0 <= j < i ==> (#[trigger] out@[j])@ == v@[j]@,
        decreases v.len() - i,
    {
        out.push(v[i].clone());
        i += 1;
    }
    assert(views(out@) =~= views(v@));
    out
}

fn lay_out(
    segs: Vec<Segment>,
    spans: &Vec<Span>,
    out: &Vec<Candidate>,
    len: usize,
    tag: Tag,
) -> (r: Vec<Segment>)
    ensures
        views(r@) == laid_out(views(segs@), spans@, views(out@), len as int, tag@),
{
    let ghost parts = views(segs@);
    let ghost cands = views(out@);
    let ghost goal = laid_out(parts, spans@, cands, len as int, tag@);
    let mut made: Vec<Segment> = Vec::new();
    if segs.len() <= 1 && spans.len() > 1 {
        let mut i: usize = 0;
        while i < spans.len()
            invariant
                i <= spans@.len(),
                cands == views(out@),
                goal == spans@.map_values(
                    |sp: Span| Part { candidates: cands, ..tagged(sp, seq![tag@]) },
                ),
                made@.len() == i,
                forall|j: int| 0 <= j < i ==> (#[trigger] made@[j])@ == goal[j],
            decreases spans.len() - i,
        {
            let mut tags: Vec<Tag> = Vec::new();
            tags.push(tag);
            assert(views(tags@) =~= seq![tag@]);
            let mut seg = Segment::guess(spans[i], tags);
            seg.candidates = copy_candidates(out);
            made.push(seg);
            i += 1;
        }
        assert(views(made@) =~= goal);
        return made;
    }
    let mut rest: Vec<Segment> = segs;
    let ghost mut n: int = 0;
    while rest.len() > 0
        invariant
            0 <= n <= parts.len(),
            parts == views(segs@),
            cands == views(out@),
            goal == parts.map_values(
                |p: Part|
                    if p.span.start == 0 && p.span.end >= len as int {
                        Part { candidates: p.candidates + cands, ..p }
                    } else {
                        p
                    },
            ),
            rest@ == segs@.skip(n),
            made@.len() == n,
            forall|j: int| 0 <= j < n ==> (#[trigger] made@[j])@ == goal[j],
        decreases rest.len(),
    {
        let mut seg = rest.remove(0);
        let ghost p = seg@;
        assert(p == parts[n]);
        if seg.span.start == 0 && seg.span.end >= len {
            let mut i: usize = 0;
            let ghost had = views(seg.candidates@);
            assert(had + cands.take(0) =~= had);
            while i < out.len()
                invariant
                    i <= out@.len(),
                    cands == views(out@),
                    seg@ == (Part { candidates: had + cands.take(i as int), ..p }),
                decreases out.len() - i,
            {
                let ghost was = views(seg.candidates@);
                seg.candidates.push(out[i].clone());
                i += 1;
                assert(views(seg.candidates@) =~= was.push(cands[i - 1]));
                assert(views(seg.candidates@) =~= had + cands.take(i as int));
            }
            assert(cands.take(i as int) =~= cands);
        }
        made.push(seg);
        proof {
            assert(segs@.skip(n).remove(0) =~= segs@.skip(n + 1));
            n = n + 1;
        }
    }
    assert(views(made@) =~= goal);
    made
}

} // verus!
