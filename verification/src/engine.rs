//! The engine and its sessions.
//!
//! Processors only wish for something to be committed. The session fulfils the
//! wish, since only it knows both the candidates and the input.

use std::sync::Arc;
use vstd::prelude::*;
use crate::candidate::{Cand, Candidate, Lane, Origin};
use crate::code::{copy_texts, normal, SpellingAttr};
use crate::keyspec::Key;
use crate::options::{is_on, Options};
use crate::order::views;
use crate::pipeline::laws::{composing_keeps_what_was_typed, same_parts_compose_alike};
use crate::pipeline::prediction::{
    numbers_choose_as_without_predictions, spliced, with_block, Prediction,
};
use crate::pipeline::{first_pages, keyed, PipelineImpl};
use crate::scheme::assembly::meant_pipeline;
use crate::scheme::issues::component_issues;
use crate::scheme::{
    compiled_from, data_issues, LoadedScheme, SchemaError, SchemaInfo, SchemeDef,
};
use crate::share::share;
use crate::state::{
    empty_state, keyboard_wish, remembered, selectable, without_input, Composition, Context,
    PendingCommit, ProcessResult, SelectionSource, SessionState, State, Trigger, Wish,
    CONTEXT_CAPACITY,
};
use crate::text::{same_text, texts};

verus! {

// ---------------------------------------------------------------------------
// What a session hands out
// ---------------------------------------------------------------------------

/// A text that is committed, and all that is known of it.
#[derive(Debug, PartialEq, Eq)]
pub struct Commit {
    pub text: String,
    /// What was typed for it.
    pub input: String,
    /// The words before it.
    pub context: Vec<String>,
    pub origin: Origin,
    pub attr: SpellingAttr,
    pub lane: Lane,
    pub trigger: Trigger,
}

/// The mathematical reading of a [`Commit`].
pub struct Committed {
    pub text: Seq<char>,
    pub input: Seq<char>,
    pub context: Seq<Seq<char>>,
    pub origin: Origin,
    pub attr: SpellingAttr,
    pub lane: Lane,
    pub trigger: Trigger,
}

impl View for Commit {
    type V = Committed;

    open spec fn view(&self) -> Committed {
        Committed {
            text: self.text@,
            input: self.input@,
            context: texts(self.context@),
            origin: self.origin,
            attr: self.attr,
            lane: self.lane,
            trigger: self.trigger,
        }
    }
}

/// Something that others may want to know of.
#[derive(Debug, PartialEq, Eq)]
pub enum Event {
    /// A text was committed. What was typed stands here as it was: whoever
    /// learns it has to go by the marks.
    Learned { input: String, text: String, origin: Origin, attr: SpellingAttr, lane: Lane },
    /// A switch was turned.
    OptionChanged { name: String, on: bool },
}

/// The mathematical reading of an [`Event`].
pub enum Happening {
    Learned { input: Seq<char>, text: Seq<char>, origin: Origin, attr: SpellingAttr, lane: Lane },
    OptionChanged { name: Seq<char>, on: bool },
}

impl View for Event {
    type V = Happening;

    open spec fn view(&self) -> Happening {
        match *self {
            Event::Learned { input, text, origin, attr, lane } => Happening::Learned {
                input: input@,
                text: text@,
                origin,
                attr,
                lane,
            },
            Event::OptionChanged { name, on } => Happening::OptionChanged { name: name@, on },
        }
    }
}

/// What came of a key.
#[derive(Debug, PartialEq, Eq)]
pub enum Outcome {
    Committed(Commit),
    /// The key was used; what is shown may have changed.
    Consumed,
    /// The key belongs to the system.
    Rejected,
}

// ---------------------------------------------------------------------------
// The engine
// ---------------------------------------------------------------------------

/// The schemes of an engine.
#[derive(Debug)]
pub struct EngineInner {
    pub schemes: Vec<Arc<LoadedScheme>>,
    pub infos: Vec<SchemaInfo>,
}

/// The first scheme, from `from` on, with a name.
pub open spec fn scheme_place(ss: Seq<Arc<LoadedScheme>>, id: Seq<char>, from: int) -> Option<int>
    decreases ss.len() - from,
{
    if from < 0 || from >= ss.len() {
        None
    } else if ss[from].def.info.schema_id@ == id {
        Some(from)
    } else {
        scheme_place(ss, id, from + 1)
    }
}

impl EngineInner {
    /// The schemes are in order, and each has its description.
    pub open spec fn wf(&self) -> bool {
        &&& self.infos@.len() == self.schemes@.len()
        &&& forall|i: int|
            0 <= i < self.schemes@.len() ==> (#[trigger] self.schemes@[i]).wf() && self.infos@[i]
                == self.schemes@[i].def.info
    }

    fn find(&self, schema_id: &str) -> (r: Option<usize>)
        ensures
            match scheme_place(self.schemes@, schema_id@, 0) {
                Some(i) => r matches Some(k) && k == i && k < self.schemes@.len(),
                None => r is None,
            },
    {
        let mut i: usize = 0;
        while i < self.schemes.len()
            invariant
                i <= self.schemes@.len(),
                scheme_place(self.schemes@, schema_id@, 0) == scheme_place(
                    self.schemes@,
                    schema_id@,
                    i as int,
                ),
            decreases self.schemes.len() - i,
        {
            if same_text(self.schemes[i].info().schema_id.as_str(), schema_id) {
                return Some(i);
            }
            i += 1;
        }
        None
    }
}

/// Schemes, and sessions that use them.
#[derive(Debug)]
pub struct EngineImpl {
    pub inner: Arc<EngineInner>,
}

impl Clone for EngineImpl {
    fn clone(&self) -> (r: Self)
        ensures
            r == *self,
    {
        EngineImpl { inner: share(&self.inner) }
    }
}

/// Whether a scheme cannot be compiled.
pub open spec fn is_broken(d: SchemeDef) -> bool {
    data_issues(d).len() > 0 || component_issues(d).len() > 0
}

/// The first scheme, from `from` on, that cannot be compiled.
pub open spec fn first_broken(ds: Seq<SchemeDef>, from: int) -> Option<int>
    decreases ds.len() - from,
{
    if from < 0 || from >= ds.len() {
        None
    } else if is_broken(ds[from]) {
        Some(from)
    } else {
        first_broken(ds, from + 1)
    }
}

/// Whether an error is the one that a broken scheme gives.
pub open spec fn reports(e: SchemaError, d: SchemeDef) -> bool {
    &&& e matches SchemaError::Invalid { schema_id, diagnostics }
    &&& schema_id@ == d.info.schema_id@
    &&& views(diagnostics@) == data_issues(d) + component_issues(d)
}

impl EngineImpl {
    /// Compiles schemes. The first that is broken is reported, by its name.
    pub fn new(defs: Vec<SchemeDef>) -> (r: Result<Self, SchemaError>)
        requires
            forall|i: int| 0 <= i < defs@.len() ==> (#[trigger] defs@[i]).valid(),
        ensures
            match first_broken(defs@, 0) {
                Some(i) => r matches Err(e) && reports(e, defs@[i]),
                None => {
                    &&& r matches Ok(engine)
                    &&& engine.inner.wf()
                    &&& engine.inner.schemes@.len() == defs@.len()
                    &&& forall|i: int|
                        0 <= i < defs@.len() ==> compiled_from(
                            *engine.inner.schemes@[i],
                            #[trigger] defs@[i],
                        )
                },
            },
    {
        let ghost all = defs@;
        let mut rest = defs;
        let mut schemes: Vec<Arc<LoadedScheme>> = Vec::new();
        let mut infos: Vec<SchemaInfo> = Vec::new();
        let ghost mut n: int = 0;
        while rest.len() > 0
            invariant
                0 <= n <= all.len(),
                all == defs@,
                rest@ == all.skip(n),
                forall|i: int| 0 <= i < all.len() ==> (#[trigger] all[i]).valid(),
                first_broken(all, 0) == first_broken(all, n),
                schemes@.len() == n,
                infos@.len() == n,
                forall|i: int|
                    0 <= i < n ==> (#[trigger] schemes@[i]).wf() && infos@[i]
                        == schemes@[i].def.info,
                forall|i: int| 0 <= i < n ==> compiled_from(*schemes@[i], #[trigger] all[i]),
            decreases rest.len(),
        {
            let d = rest.remove(0);
            assert(d == all[n]);
            assert(all[n].valid());
            match d.compile() {
                Ok(s) => {
                    infos.push(s.info().clone());
                    schemes.push(Arc::new(s));
                },
                Err(e) => {
                    return Err(e);
                },
            }
            proof {
                assert(all.skip(n).remove(0) =~= all.skip(n + 1));
                n = n + 1;
            }
        }
        Ok(EngineImpl { inner: Arc::new(EngineInner { schemes, infos }) })
    }

    #[must_use]
    pub fn len(&self) -> (r: usize)
        ensures
            r == self.inner.schemes@.len(),
    {
        self.inner.schemes.len()
    }

    #[must_use]
    pub fn is_empty(&self) -> (r: bool)
        ensures
            r == (self.inner.schemes@.len() == 0),
    {
        self.inner.schemes.len() == 0
    }

    /// The descriptions of the schemes.
    #[must_use]
    pub fn list(&self) -> (r: &Vec<SchemaInfo>)
        ensures
            *r == self.inner.infos,
    {
        &self.inner.infos
    }

    /// The scheme with a name.
    pub fn acquire(&self, schema_id: &str) -> (r: Result<Arc<LoadedScheme>, SchemaError>)
        ensures
            match scheme_place(self.inner.schemes@, schema_id@, 0) {
                Some(i) => r == Ok::<Arc<LoadedScheme>, SchemaError>(self.inner.schemes@[i]),
                None => r matches Err(SchemaError::NotFound { schema_id: id }) && id@
                    == schema_id@,
            },
    {
        match self.inner.find(schema_id) {
            Some(i) => Ok(share(&self.inner.schemes[i])),
            None => Err(SchemaError::NotFound { schema_id: schema_id.to_owned() }),
        }
    }

    /// A new session with the first scheme.
    #[must_use]
    pub fn create_session(&self) -> (r: SessionImpl)
        requires
            self.inner.wf(),
            self.inner.schemes@.len() > 0,
        ensures
            r.wf(),
            r.inner == self.inner,
            r.scheme == self.inner.schemes@[0],
            meant_pipeline(*r.scheme, r.pipeline),
            r.state.context.capacity == CONTEXT_CAPACITY,
            r@ == (Live {
                state: empty_state(self.inner.schemes@[0].options@),
                cands: seq![],
                events: seq![],
            }),
    {
        assert(self.inner.schemes@[0].wf());
        SessionImpl::new(share(&self.inner.schemes[0]), share(&self.inner))
    }
}

// ---------------------------------------------------------------------------
// Sessions
// ---------------------------------------------------------------------------

/// One place where someone types.
#[derive(Debug)]
pub struct SessionImpl {
    pub inner: Arc<EngineInner>,
    pub scheme: Arc<LoadedScheme>,
    pub pipeline: PipelineImpl,
    pub state: SessionState,
    pub candidates: Vec<Candidate>,
    pub events: Vec<Event>,
}

/// The mathematical reading of what changes in a session.
pub struct Live {
    pub state: State,
    pub cands: Seq<Cand>,
    pub events: Seq<Happening>,
}

impl View for SessionImpl {
    type V = Live;

    open spec fn view(&self) -> Live {
        Live {
            state: self.state@,
            cands: views(self.candidates@),
            events: views(self.events@),
        }
    }
}

/// A session whose candidates belong to its input.
pub open spec fn refreshed(p: PipelineImpl, x: Live) -> Live {
    let (state, cands) = p.composed(x.state);
    Live { state, cands, ..x }
}

/// What is committed when a wish is fulfilled. A place without a candidate
/// fulfils nothing; nor can a prediction be chosen blindly by the keyboard, a
/// comment be committed that is not there, or a candidate be forgotten here.
pub open spec fn granted(x: Live, w: Wish) -> Option<Committed> {
    let plain = Committed {
        text: seq![],
        input: x.state.input,
        context: x.state.context,
        origin: Origin::Literal,
        attr: normal(),
        lane: Lane::Input,
        trigger: Trigger::Explicit,
    };
    match w {
        Wish::Candidate { index, trigger, source } => if !(0 <= index < x.cands.len()) || (
        x.cands[index].lane == Lane::Predict && source == SelectionSource::Keyboard) {
            None
        } else {
            let c = x.cands[index];
            Some(
                Committed {
                    text: c.text,
                    origin: c.origin,
                    attr: c.attr,
                    lane: c.lane,
                    trigger,
                    ..plain
                },
            )
        },
        Wish::Literal { text, trigger } => Some(Committed { text, trigger, ..plain }),
        Wish::CommitComment { .. } => if x.cands.len() == 0 {
            None
        } else {
            match x.cands[0].comment {
                Some(t) => if t.len() == 0 {
                    None
                } else {
                    Some(Committed { text: t, ..plain })
                },
                None => None,
            }
        },
        Wish::DeleteCandidate { .. } => None,
    }
}

/// The event of a commit.
pub open spec fn learned(c: Committed) -> Happening {
    Happening::Learned {
        input: c.input,
        text: c.text,
        origin: c.origin,
        attr: c.attr,
        lane: c.lane,
    }
}

/// A session after a commit: it is noted, remembered, and the input is gone.
pub open spec fn settled(x: Live, c: Committed, capacity: int) -> Live {
    Live {
        state: without_input(
            State {
                context: remembered(x.state.context, c.text, capacity),
                pending: None,
                ..x.state
            },
        ),
        cands: seq![],
        events: x.events.push(learned(c)),
    }
}

/// A pipeline right after a commit: it is back at the first page, and where it
/// predicts, it expects nothing until it is told.
pub open spec fn forgetful(p: PipelineImpl, q: PipelineImpl) -> bool {
    &&& q.same_parts(
        &PipelineImpl { predictions: q.predictions, processors: q.processors, ..p },
    )
    &&& q.processors@ == first_pages(p.processors@)
    &&& (q.predictions is Some) == (p.predictions is Some)
    &&& (q.predictions matches Some(v) ==> v@.len() == 0)
}

impl SessionImpl {
    /// The schemes, the pipeline and the state are in order.
    pub open spec fn wf(&self) -> bool {
        &&& self.inner.wf()
        &&& self.scheme.wf()
        &&& self.pipeline.wf()
        &&& self.state.wf()
    }

    fn new(scheme: Arc<LoadedScheme>, inner: Arc<EngineInner>) -> (r: Self)
        requires
            scheme.wf(),
            inner.wf(),
        ensures
            r.wf(),
            r.inner == inner,
            r.scheme == scheme,
            meant_pipeline(*scheme, r.pipeline),
            r.state.context.capacity == CONTEXT_CAPACITY,
            r@ == (Live { state: empty_state(scheme.options@), cands: seq![], events: seq![] }),
    {
        let pipeline = scheme.build_pipeline();
        let options = scheme.options().clone();
        let context = Context::with_capacity(CONTEXT_CAPACITY);
        let r = SessionImpl {
            inner,
            scheme,
            pipeline,
            state: SessionState::new(Composition::new(), options, context),
            candidates: Vec::new(),
            events: Vec::new(),
        };
        assert(views(r.candidates@) =~= seq![]);
        assert(views(r.events@) =~= seq![]);
        assert(r.state@.segments =~= seq![]);
        assert(r.state@.input =~= seq![]);
        assert(r.state@.preedit =~= seq![]);
        assert(r.state@.context =~= seq![]);
        r
    }

    fn recompose(&mut self)
        requires
            old(self).wf(),
        ensures
            final(self).wf(),
            final(self)@ == refreshed(old(self).pipeline, old(self)@),
            final(self).pipeline.same_parts(&old(self).pipeline),
            final(self).inner == old(self).inner,
            final(self).scheme == old(self).scheme,
            final(self).state.context == old(self).state.context,
    {
        self.pipeline.compose(&mut self.state, &mut self.candidates);
    }

    /// Tells the session what a memory expects after the words so far, or that
    /// there is no memory.
    pub fn set_predictions(&mut self, predictions: Option<Vec<Prediction>>)
        requires
            old(self).wf(),
        ensures
            final(self).wf(),
            final(self)@ == refreshed(
                (PipelineImpl { predictions, ..old(self).pipeline }),
                old(self)@,
            ),
            final(self).pipeline.same_parts(
                &(PipelineImpl { predictions, ..old(self).pipeline }),
            ),
            final(self).inner == old(self).inner,
            final(self).scheme == old(self).scheme,
            final(self).state.context == old(self).state.context,
    {
        self.pipeline.predictions = predictions;
        self.recompose();
    }

    fn grant(&self, pending: &PendingCommit) -> (r: Option<Commit>)
        ensures
            match granted(self@, pending@) {
                Some(c) => r matches Some(k) && k@ == c,
                None => r is None,
            },
    {
        let input = self.state.composition.input.clone();
        let context = copy_texts(&self.state.context.words);
        assert(views(self.candidates@).len() == self.candidates@.len());
        match pending {
            PendingCommit::Candidate { index, trigger, source } => {
                let index: usize = *index;
                if index >= self.candidates.len() {
                    return None;
                }
                let c = &self.candidates[index];
                assert(views(self.candidates@)[index as int] == c@);
                if c.lane == Lane::Predict && *source == SelectionSource::Keyboard {
                    return None;
                }
                Some(
                    Commit {
                        text: c.text.clone(),
                        input,
                        context,
                        origin: c.origin,
                        attr: c.attr,
                        lane: c.lane,
                        trigger: *trigger,
                    },
                )
            },
            PendingCommit::Literal { text, trigger } => Some(
                Commit {
                    text: text.clone(),
                    input,
                    context,
                    origin: Origin::Literal,
                    attr: SpellingAttr::normal(),
                    lane: Lane::Input,
                    trigger: *trigger,
                },
            ),
            PendingCommit::CommitComment { .. } => {
                if self.candidates.len() == 0 {
                    return None;
                }
                assert(views(self.candidates@)[0] == self.candidates@[0]@);
                match &self.candidates[0].comment {
                    Some(t) => {
                        if t.as_str().is_empty() {
                            return None;
                        }
                        Some(
                            Commit {
                                text: t.clone(),
                                input,
                                context,
                                origin: Origin::Literal,
                                attr: SpellingAttr::normal(),
                                lane: Lane::Input,
                                trigger: Trigger::Explicit,
                            },
                        )
                    },
                    None => None,
                }
            },
            PendingCommit::DeleteCandidate { .. } => None,
        }
    }

    /// Fulfils a wish.
    fn realize_commit(&mut self, pending: PendingCommit) -> (r: Option<Commit>)
        requires
            old(self).wf(),
        ensures
            final(self).wf(),
            final(self).inner == old(self).inner,
            final(self).scheme == old(self).scheme,
            final(self).state.context.capacity == old(self).state.context.capacity,
            match granted(old(self)@, pending@) {
                Some(c) => {
                    &&& r matches Some(k)
                    &&& k@ == c
                    &&& forgetful(old(self).pipeline, final(self).pipeline)
                    &&& final(self)@ == refreshed(
                        final(self).pipeline,
                        settled(old(self)@, c, old(self).state.context.capacity as int),
                    )
                },
                None => {
                    &&& r is None
                    &&& final(self)@ == old(self)@
                    &&& final(self).pipeline == old(self).pipeline
                },
            },
    {
        let commit = match self.grant(&pending) {
            Some(c) => c,
            None => {
                return None;
            },
        };
        let ghost x = self@;
        let ghost p = self.pipeline;
        let ghost c = commit@;
        let ghost capacity = self.state.context.capacity as int;
        self.events.push(
            Event::Learned {
                input: commit.input.clone(),
                text: commit.text.clone(),
                origin: commit.origin,
                attr: commit.attr,
                lane: commit.lane,
            },
        );
        assert(views(self.events@) =~= x.events.push(learned(c)));
        self.state.context.push(commit.text.as_str());
        self.state.composition.reset();
        assert(views(self.state.composition.segments@) =~= seq![]);
        self.state.pending_commit = None;
        self.candidates.clear();
        assert(views(self.candidates@) =~= seq![]);
        self.pipeline.turn_to_first_page();
        if self.pipeline.predictions.is_some() {
            self.pipeline.predictions = Some(Vec::new());
        }
        assert(self@ == settled(x, c, capacity));
        let ghost q = self.pipeline;
        self.recompose();
        proof {
            same_parts_compose_alike(
                &self.pipeline,
                &q,
                settled(x, c, capacity).state,
            );
        }
        Some(commit)
    }

    /// Handles a key. The switches that it turns are noted in the state alone.
    pub fn process_key(&mut self, key: Key) -> (r: Outcome)
        requires
            old(self).wf(),
        ensures
            final(self).wf(),
            final(self).inner == old(self).inner,
            final(self).scheme == old(self).scheme,
            final(self).state.context.capacity == old(self).state.context.capacity,
            ({
                let x = old(self)@;
                let (ps, s, verdict) = keyed(
                    old(self).pipeline.processors@,
                    State { pending: None, ..x.state },
                    key,
                );
                let y = Live { state: s, ..x };
                let z = refreshed(old(self).pipeline, y);
                let calm = Live { state: State { pending: None, ..z.state }, ..z };
                &&& if r is Committed {
                    &&& final(self).pipeline.processors@ == first_pages(ps)
                    &&& forgetful(
                        PipelineImpl {
                            processors: final(self).pipeline.processors,
                            ..old(self).pipeline
                        },
                        final(self).pipeline,
                    )
                } else {
                    &&& final(self).pipeline.processors@ == ps
                    &&& final(self).pipeline.same_parts(
                        &PipelineImpl {
                            processors: final(self).pipeline.processors,
                            ..old(self).pipeline
                        },
                    )
                }
                &&& if verdict != ProcessResult::Accepted {
                    r is Rejected && final(self)@ == y
                } else {
                    match s.pending {
                        None => r is Consumed && final(self)@ == z,
                        Some(w) => match granted(calm, w) {
                            None => r is Consumed && final(self)@ == calm,
                            Some(c) => {
                                &&& r matches Outcome::Committed(k)
                                &&& k@ == c
                                &&& final(self)@ == refreshed(
                                    final(self).pipeline,
                                    settled(calm, c, old(self).state.context.capacity as int),
                                )
                            },
                        },
                    }
                }
            }),
    {
        let ghost x = self@;
        let ghost p = self.pipeline;
        self.state.pending_commit = None;
        assert(self.state@ == (State { pending: None, ..x.state }));
        let verdict = self.pipeline.process_key(&mut self.state, &key);
        let ghost s = self.state@;
        let ghost q = self.pipeline;
        let ghost y = Live { state: s, ..x };
        assert(self@ == y);
        match verdict {
            ProcessResult::Accepted => {},
            _ => {
                return Outcome::Rejected;
            },
        }
        self.recompose();
        proof {
            assert(q.composed(y.state) == p.composed(y.state));
            composing_keeps_what_was_typed(&p, y.state);
        }
        assert(self@ == refreshed(p, y));
        let wish = self.state.pending_commit.take();
        match wish {
            None => Outcome::Consumed,
            Some(w) => match self.realize_commit(w) {
                Some(c) => {
                    assert(first_pages(first_pages(q.processors@)) =~= first_pages(q.processors@));
                    Outcome::Committed(c)
                },
                None => Outcome::Consumed,
            },
        }
    }

    #[must_use]
    pub fn composition(&self) -> (r: &Composition)
        ensures
            *r == self.state.composition,
    {
        &self.state.composition
    }

    /// The candidates, in their order.
    #[must_use]
    pub fn candidates(&self) -> (r: &Vec<Candidate>)
        ensures
            *r == self.candidates,
    {
        &self.candidates
    }

    /// Chooses the candidate at a place.
    pub fn select(&mut self, index: usize, source: SelectionSource) -> (r: Outcome)
        requires
            old(self).wf(),
        ensures
            final(self).wf(),
            final(self).inner == old(self).inner,
            final(self).scheme == old(self).scheme,
            final(self).state.context.capacity == old(self).state.context.capacity,
            match granted(
                old(self)@,
                (Wish::Candidate { index: index as int, trigger: Trigger::Explicit, source }),
            ) {
                Some(c) => {
                    &&& r matches Outcome::Committed(k)
                    &&& k@ == c
                    &&& forgetful(old(self).pipeline, final(self).pipeline)
                    &&& final(self)@ == refreshed(
                        final(self).pipeline,
                        settled(old(self)@, c, old(self).state.context.capacity as int),
                    )
                },
                None => {
                    &&& r is Consumed
                    &&& final(self)@ == old(self)@
                    &&& final(self).pipeline == old(self).pipeline
                },
            },
    {
        let wish = PendingCommit::Candidate { index, trigger: Trigger::Explicit, source };
        match self.realize_commit(wish) {
            Some(c) => Outcome::Committed(c),
            None => Outcome::Consumed,
        }
    }

    /// Commits the first candidate, as the space bar does.
    pub fn commit(&mut self) -> (r: Option<Commit>)
        requires
            old(self).wf(),
        ensures
            final(self).wf(),
            final(self).inner == old(self).inner,
            final(self).scheme == old(self).scheme,
            final(self).state.context.capacity == old(self).state.context.capacity,
            match granted(
                old(self)@,
                keyboard_wish(0, Trigger::Space),
            ) {
                Some(c) => {
                    &&& r matches Some(k)
                    &&& k@ == c
                    &&& forgetful(old(self).pipeline, final(self).pipeline)
                    &&& final(self)@ == refreshed(
                        final(self).pipeline,
                        settled(old(self)@, c, old(self).state.context.capacity as int),
                    )
                },
                None => {
                    &&& r is None
                    &&& final(self)@ == old(self)@
                    &&& final(self).pipeline == old(self).pipeline
                },
            },
    {
        self.realize_commit(PendingCommit::keyboard(0, Trigger::Space))
    }

    /// Drops the input, and with it the page that was shown.
    pub fn reset(&mut self)
        requires
            old(self).wf(),
        ensures
            final(self).wf(),
            final(self)@ == (Live {
                state: without_input(State { pending: None, page: 0, ..old(self)@.state }),
                cands: seq![],
                ..old(self)@
            }),
            final(self).pipeline.processors@ == first_pages(old(self).pipeline.processors@),
            final(self).pipeline == (PipelineImpl {
                processors: final(self).pipeline.processors,
                ..old(self).pipeline
            }),
            final(self).inner == old(self).inner,
            final(self).scheme == old(self).scheme,
    {
        self.state.composition.reset();
        assert(views(self.state.composition.segments@) =~= seq![]);
        self.state.pending_commit = None;
        self.state.candidate_page = 0;
        self.pipeline.turn_to_first_page();
        self.candidates.clear();
        assert(views(self.candidates@) =~= seq![]);
    }

    #[must_use]
    pub fn option(&self, name: &str) -> (r: bool)
        ensures
            r == is_on(self@.state.options, name@),
    {
        self.state.options.get(name)
    }

    /// Turns a switch. One that the scheme does not declare is not created.
    pub fn set_option(&mut self, name: &str, on: bool) -> (r: bool)
        requires
            old(self).wf(),
        ensures
            final(self).wf(),
            r == old(self)@.state.options.contains_key(name@),
            final(self)@ == (if r {
                Live {
                    state: State {
                        options: old(self)@.state.options.insert(name@, on),
                        ..old(self)@.state
                    },
                    events: old(self)@.events.push(Happening::OptionChanged { name: name@, on }),
                    ..old(self)@
                }
            } else {
                old(self)@
            }),
            final(self).pipeline == old(self).pipeline,
            final(self).inner == old(self).inner,
            final(self).scheme == old(self).scheme,
    {
        let ghost x = self@;
        let ok = self.state.options.set(name, on);
        if ok {
            self.events.push(Event::OptionChanged { name: name.to_owned(), on });
            assert(views(self.events@) =~= x.events.push(
                Happening::OptionChanged { name: name@, on },
            ));
        }
        ok
    }

    #[must_use]
    pub fn schema_id(&self) -> (r: &str)
        ensures
            r@ == self.scheme.def.info.schema_id@,
    {
        self.scheme.info().schema_id.as_str()
    }

    /// Changes to another scheme. Where there is none of that name, the session
    /// stays as it was.
    pub fn switch_schema(&mut self, schema_id: &str) -> (r: Result<(), SchemaError>)
        requires
            old(self).wf(),
        ensures
            final(self).wf(),
            final(self).inner == old(self).inner,
            match scheme_place(old(self).inner.schemes@, schema_id@, 0) {
                None => {
                    &&& r matches Err(SchemaError::NotFound { schema_id: id })
                    &&& id@ == schema_id@
                    &&& *final(self) == *old(self)
                },
                Some(i) => {
                    &&& r is Ok
                    &&& final(self).scheme == old(self).inner.schemes@[i]
                    &&& meant_pipeline(*final(self).scheme, final(self).pipeline)
                    &&& final(self)@ == (Live {
                        state: without_input(
                            State {
                                options: old(self).inner.schemes@[i].options@,
                                page: 0,
                                ..old(self)@.state
                            },
                        ),
                        cands: seq![],
                        ..old(self)@
                    })
                },
            },
    {
        let target = match self.inner.find(schema_id) {
            Some(i) => {
                assert(self.inner.schemes@[i as int].wf());
                share(&self.inner.schemes[i])
            },
            None => {
                return Err(SchemaError::NotFound { schema_id: schema_id.to_owned() });
            },
        };
        let pipeline = target.build_pipeline();
        let options = target.options().clone();
        self.scheme = target;
        self.pipeline = pipeline;
        self.state.composition.reset();
        assert(views(self.state.composition.segments@) =~= seq![]);
        self.state.options = options;
        self.state.candidate_page = 0;
        self.candidates.clear();
        assert(views(self.candidates@) =~= seq![]);
        Ok(())
    }

    /// Hands out the events so far.
    pub fn drain_events(&mut self, out: &mut Vec<Event>)
        requires
            old(self).wf(),
        ensures
            final(self).wf(),
            views(final(out)@) == views(old(out)@) + old(self)@.events,
            final(self)@ == (Live { events: seq![], ..old(self)@ }),
            final(self).pipeline == old(self).pipeline,
            final(self).inner == old(self).inner,
            final(self).scheme == old(self).scheme,
    {
        let ghost before = out@;
        let ghost es = self.events@;
        out.append(&mut self.events);
        assert(views(out@) =~= views(before) + views(es));
        assert(views(self.events@) =~= seq![]);
    }

    /// The description of the scheme.
    #[must_use]
    pub fn current_schema(&self) -> (r: &SchemaInfo)
        ensures
            *r == self.scheme.def.info,
    {
        self.scheme.info()
    }

    /// The switches.
    #[must_use]
    pub fn options(&self) -> (r: &Options)
        ensures
            *r == self.state.options,
    {
        &self.state.options
    }
}

// ---------------------------------------------------------------------------
// Laws
// ---------------------------------------------------------------------------

/// The keyboard never commits a prediction: what it commits was typed for.
pub proof fn keys_commit_no_prediction(x: Live, index: int, trigger: Trigger)
    ensures
        granted(x, keyboard_wish(index, trigger)) matches Some(c) ==> c.lane == Lane::Input,
{
}

/// Whatever is committed is learned with its marks, is remembered, and leaves
/// no input and no page behind.
pub proof fn commits_are_learned_and_remembered(
    p: PipelineImpl,
    x: Live,
    c: Committed,
    capacity: int,
)
    requires
        capacity > 0,
        c.text.len() > 0,
    ensures
        ({
            let y = refreshed(p, settled(x, c, capacity));
            &&& y.events == x.events.push(learned(c))
            &&& y.state.context.len() > 0
            &&& y.state.context.last() == c.text
            &&& y.state.input.len() == 0
            &&& y.state.page == 0
            &&& y.state.pending is None
        }),
{
    composing_keeps_what_was_typed(&p, settled(x, c, capacity).state);
}

/// Choosing by number commits the same input candidate with predictions as
/// without them.
pub proof fn numbers_commit_as_without_predictions(
    x: Live,
    cs: Seq<Cand>,
    b: Seq<Cand>,
    n: int,
    trigger: Trigger,
)
    requires
        0 <= n < cs.len(),
        cs[n].lane == Lane::Input,
        x.cands == spliced(cs, b),
        x.state == with_block(x.state, cs, b),
    ensures
        granted(x, keyboard_wish(selectable(x.state, n), trigger)) matches Some(c) && c.text
            == cs[n].text,
{
    numbers_choose_as_without_predictions(x.state, cs, b, n);
}

/// A chosen candidate is committed with its own text, source and marks, in its
/// own lane; the keyboard chooses any but predictions, the pointer any.
pub proof fn chosen_candidates_are_committed(
    x: Live,
    index: int,
    trigger: Trigger,
    source: SelectionSource,
)
    ensures
        ({
            let r = granted(x, Wish::Candidate { index, trigger, source });
            let there = 0 <= index < x.cands.len();
            &&& r is Some <==> there && (x.cands[index].lane == Lane::Input || source
                == SelectionSource::Pointer)
            &&& r matches Some(c) ==> {
                &&& c.text == x.cands[index].text && c.origin == x.cands[index].origin
                &&& c.attr == x.cands[index].attr && c.lane == x.cands[index].lane
                &&& c.trigger == trigger
                &&& c.input == x.state.input && c.context == x.state.context
            }
        }),
{
}

/// A literal text is committed as it is, a comment where the first candidate has
/// one, and forgetting a candidate commits nothing.
pub proof fn other_wishes_are_fulfilled(
    x: Live,
    text: Seq<char>,
    trigger: Trigger,
    clear: bool,
    index: int,
)
    ensures
        granted(x, Wish::Literal { text, trigger }) matches Some(c) && c.text == text && c.trigger
            == trigger && c.origin == Origin::Literal && c.lane == Lane::Input && c.input
            == x.state.input,
        granted(x, Wish::CommitComment { clear }) is Some <==> x.cands.len() > 0 && (
        x.cands[0].comment matches Some(t) && t.len() > 0),
        granted(x, Wish::CommitComment { clear }) matches Some(c) ==> x.cands[0].comment == Some(
            c.text,
        ),
        granted(x, Wish::DeleteCandidate { index }) is None,
{
}

/// A commit leaves switches and what waits for predictions alone, forgets the
/// candidates, and notes what was typed and what came of it.
pub proof fn commits_change_nothing_else(x: Live, c: Committed, capacity: int)
    ensures
        ({
            let y = settled(x, c, capacity);
            &&& y.state.options == x.state.options
            &&& y.state.sent == x.state.sent
            &&& y.state.input.len() == 0 && y.state.caret == 0 && y.state.preedit.len() == 0
                && y.state.segments.len() == 0
            &&& y.cands.len() == 0
            &&& y.events.drop_last() == x.events
            &&& y.events.last() matches Happening::Learned { input, text, origin, attr, lane }
                && input == c.input && text == c.text && origin == c.origin && attr == c.attr
                && lane == c.lane
        }),
{
    assert(settled(x, c, capacity).events.drop_last() =~= x.events);
}

/// The first broken scheme is the one that is reported.
pub proof fn the_first_broken_scheme_is_reported(ds: Seq<SchemeDef>, from: int)
    requires
        0 <= from,
    ensures
        match first_broken(ds, from) {
            Some(i) => from <= i < ds.len() && (data_issues(ds[i]).len() > 0 || component_issues(
                ds[i],
            ).len() > 0) && forall|j: int|
                from <= j < i ==> data_issues(#[trigger] ds[j]).len() == 0 && component_issues(
                    ds[j],
                ).len() == 0,
            None => forall|j: int|
                from <= j < ds.len() ==> data_issues(#[trigger] ds[j]).len() == 0
                    && component_issues(ds[j]).len() == 0,
        },
    decreases ds.len() - from,
{
    if from < ds.len() && !is_broken(ds[from]) {
        the_first_broken_scheme_is_reported(ds, from + 1);
    }
}

/// A scheme is found by its name: the first that has it.
pub proof fn schemes_are_found_by_name(ss: Seq<Arc<LoadedScheme>>, id: Seq<char>, from: int)
    requires
        0 <= from,
    ensures
        match scheme_place(ss, id, from) {
            Some(i) => from <= i < ss.len() && ss[i].def.info.schema_id@ == id && forall|j: int|
                from <= j < i ==> (#[trigger] ss[j]).def.info.schema_id@ != id,
            None => forall|j: int|
                from <= j < ss.len() ==> (#[trigger] ss[j]).def.info.schema_id@ != id,
        },
    decreases ss.len() - from,
{
    if from < ss.len() && ss[from].def.info.schema_id@ != id {
        schemes_are_found_by_name(ss, id, from + 1);
    }
}

} // verus!
