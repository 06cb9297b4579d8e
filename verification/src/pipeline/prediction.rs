//! The lane of words that may come next.

use vstd::prelude::*;
use crate::candidate::{Cand, Candidate, CandidateKind, Lane, Origin, Span};
use crate::code::{normal, Score, SpellingAttr};
use crate::order::views;
use crate::ranking::{ranked, ranking_orders_and_keeps, sort_candidates};
use crate::state::{selectable, SessionState, State};
use crate::text::same_text;
use crate::translator::has_text;

verus! {

/// How many predictions are shown at most.
pub const DEFAULT_PREDICTION_LIMIT: usize = 2;

/// How many input candidates stand before the predictions.
pub const DEFAULT_PREDICTION_INSERT_AFTER: usize = 1;

/// A word that a memory expects next.
#[derive(Debug)]
pub struct Prediction {
    pub text: String,
    pub score: Score,
}

/// The mathematical reading of a [`Prediction`].
pub struct Foreseen {
    pub text: Seq<char>,
    pub score: Score,
}

impl View for Prediction {
    type V = Foreseen;

    open spec fn view(&self) -> Foreseen {
        Foreseen { text: self.text@, score: self.score }
    }
}

/// A prediction as a candidate. It stands for no part of the input.
pub open spec fn predicted(p: Foreseen, caret: int) -> Cand {
    Cand {
        text: p.text,
        comment: None,
        score: p.score,
        origin: Origin::Prediction,
        attr: normal(),
        span: Span { start: caret as usize, end: caret as usize },
        lane: Lane::Predict,
        kind: CandidateKind::Normal,
        key: None,
    }
}

/// Those of the first `n` predictions that are shown beside `cs`: none is
/// empty, none is there already, and there are not too many.
pub open spec fn picked(ps: Seq<Foreseen>, cs: Seq<Cand>, caret: int, n: int) -> Seq<Cand>
    decreases n,
{
    if n <= 0 {
        seq![]
    } else {
        let head = picked(ps, cs, caret, n - 1);
        let p = ps[n - 1];
        if head.len() < DEFAULT_PREDICTION_LIMIT && p.text.len() > 0 && !has_text(cs, p.text)
            && !has_text(head, p.text) {
            head.push(predicted(p, caret))
        } else {
            head
        }
    }
}

/// The predictions that are shown beside `cs`, in their order. Before the first
/// word nothing is predicted.
pub open spec fn block(ps: Option<Seq<Foreseen>>, s: State, cs: Seq<Cand>) -> Seq<Cand> {
    match ps {
        None => seq![],
        Some(ps) => if s.context.len() == 0 {
            seq![]
        } else {
            ranked(picked(ps, cs, s.caret, ps.len() as int))
        },
    }
}

/// Where the predictions are put among `n` candidates.
pub open spec fn block_place(n: int) -> int {
    if n < DEFAULT_PREDICTION_INSERT_AFTER {
        n
    } else {
        DEFAULT_PREDICTION_INSERT_AFTER as int
    }
}

/// The candidates with the predictions among them.
pub open spec fn spliced(cs: Seq<Cand>, b: Seq<Cand>) -> Seq<Cand> {
    if b.len() == 0 {
        cs
    } else {
        cs.take(block_place(cs.len() as int)) + b + cs.skip(block_place(cs.len() as int))
    }
}

/// A state that knows where the predictions stand.
pub open spec fn with_block(s: State, cs: Seq<Cand>, b: Seq<Cand>) -> State {
    State {
        predict_start: if b.len() == 0 {
            0
        } else {
            block_place(cs.len() as int)
        },
        predict_count: b.len() as int,
        ..s
    }
}

/// A list of predictions, read mathematically.
pub open spec fn foreseen(ps: Option<Vec<Prediction>>) -> Option<Seq<Foreseen>> {
    match ps {
        Some(v) => Some(views(v@)),
        None => None,
    }
}

fn is_listed(cands: &Vec<Candidate>, text: &str) -> (r: bool)
    ensures
        r == has_text(views(cands@), text@),
{
    let mut i: usize = 0;
    while i < cands.len()
        invariant
            i <= cands@.len(),
            forall|j: int| 0 <= j < i ==> (#[trigger] views(cands@)[j]).text != text@,
        decreases cands.len() - i,
    {
        assert(views(cands@)[i as int] == cands@[i as int]@);
        if same_text(cands[i].text.as_str(), text) {
            return true;
        }
        i += 1;
    }
    assert(views(cands@).len() == cands@.len());
    false
}

fn pick(ps: &Vec<Prediction>, out: &Vec<Candidate>, caret: usize) -> (r: Vec<Candidate>)
    ensures
        views(r@) == picked(views(ps@), views(out@), caret as int, ps@.len() as int),
        r@.len() <= DEFAULT_PREDICTION_LIMIT,
{
    let ghost all = views(ps@);
    let ghost cs = views(out@);
    let mut chosen: Vec<Candidate> = Vec::new();
    let mut i: usize = 0;
    assert(views(chosen@) =~= seq![]);
    while i < ps.len()
        invariant
            i <= ps@.len(),
            all == views(ps@),
            cs == views(out@),
            chosen@.len() <= DEFAULT_PREDICTION_LIMIT,
            views(chosen@) == picked(all, cs, caret as int, i as int),
        decreases ps.len() - i,
    {
        let p = &ps[i];
        let ghost had = views(chosen@);
        assert(all[i as int] == p@);
        assert(had.len() == chosen@.len());
        if chosen.len() < DEFAULT_PREDICTION_LIMIT && !p.text.as_str().is_empty() && !is_listed(
            out,
            p.text.as_str(),
        ) && !is_listed(&chosen, p.text.as_str()) {
            let c = Candidate {
                text: p.text.clone(),
                comment: None,
                score: p.score,
                origin: Origin::Prediction,
                attr: SpellingAttr::normal(),
                span: Span::new(caret, caret),
                lane: Lane::Predict,
                kind: CandidateKind::Normal,
                key: None,
            };
            assert(c@ == predicted(p@, caret as int));
            chosen.push(c);
            assert(views(chosen@) =~= had.push(predicted(p@, caret as int)));
        }
        i += 1;
    }
    chosen
}

/// Puts the predictions among the candidates, and notes where they stand.
pub(crate) fn append_predictions(
    predictions: &Option<Vec<Prediction>>,
    state: &mut SessionState,
    out: &mut Vec<Candidate>,
)
    requires
        old(state).context.wf(),
    ensures
        ({
            let cs = views(old(out)@);
            let b = block(foreseen(*predictions), old(state)@, cs);
            &&& views(final(out)@) == spliced(cs, b)
            &&& final(state)@ == with_block(old(state)@, cs, b)
        }),
        final(state).wf(),
        final(state).context == old(state).context,
        final(state).predict_count <= DEFAULT_PREDICTION_LIMIT,
{
    let ghost s = state@;
    let ghost cs = views(out@);
    let ghost b = block(foreseen(*predictions), s, cs);
    state.predict_start = 0;
    state.predict_count = 0;
    let ps = match predictions {
        Some(v) => v,
        None => {
            return;
        },
    };
    if state.context.recent().len() == 0 {
        assert(s.context.len() == 0);
        return;
    }
    assert(s.context.len() > 0);
    let mut chosen = pick(ps, out, state.composition.caret);
    let ghost before = views(chosen@);
    proof {
        ranking_orders_and_keeps(before);
        assert(before.len() == chosen@.len());
    }
    sort_candidates(&mut chosen);
    assert(views(chosen@) == b);
    assert(b.len() == chosen@.len());
    if chosen.len() == 0 {
        return;
    }
    let at: usize = if out.len() < DEFAULT_PREDICTION_INSERT_AFTER {
        out.len()
    } else {
        DEFAULT_PREDICTION_INSERT_AFTER
    };
    assert(cs.len() == out@.len());
    state.predict_start = at;
    state.predict_count = chosen.len();
    let ghost mut n: int = 0;
    assert(b.take(0) =~= seq![]);
    assert(cs.take(at as int) + b.take(0) + cs.skip(at as int) =~= cs);
    let ghost whole = chosen@;
    let mut place: usize = at;
    while chosen.len() > 0
        invariant
            0 <= n <= b.len(),
            b == views(whole),
            chosen@ == whole.skip(n),
            at <= cs.len(),
            place == at + n,
            whole.len() <= DEFAULT_PREDICTION_LIMIT,
            at <= DEFAULT_PREDICTION_INSERT_AFTER,
            out@.len() == cs.len() + n,
            views(out@) == cs.take(at as int) + b.take(n) + cs.skip(at as int),
        decreases chosen.len(),
    {
        let ghost had = views(out@);
        let c = chosen.remove(0);
        assert(c@ == b[n]);
        out.insert(place, c);
        proof {
            assert(views(out@) =~= had.insert(place as int, b[n]));
            assert(views(out@) =~= cs.take(at as int) + b.take(n + 1) + cs.skip(at as int));
            assert(whole.skip(n).remove(0) =~= whole.skip(n + 1));
            n = n + 1;
        }
        place += 1;
    }
    assert(b.take(n) =~= b);
}

// ---------------------------------------------------------------------------
// Laws
// ---------------------------------------------------------------------------

proof fn picked_shape(ps: Seq<Foreseen>, cs: Seq<Cand>, caret: int, n: int)
    requires
        n <= ps.len(),
    ensures
        picked(ps, cs, caret, n).len() <= DEFAULT_PREDICTION_LIMIT,
        forall|i: int|
            0 <= i < picked(ps, cs, caret, n).len() ==> {
                let c = #[trigger] picked(ps, cs, caret, n)[i];
                c.lane == Lane::Predict && c.text.len() > 0 && !has_text(cs, c.text)
            },
    decreases n,
{
    if n > 0 {
        picked_shape(ps, cs, caret, n - 1);
    }
}

/// Predictions are few, they are in their own lane, and none repeats a
/// candidate that is there.
pub proof fn predictions_are_few_and_new(ps: Option<Seq<Foreseen>>, s: State, cs: Seq<Cand>)
    ensures
        block(ps, s, cs).len() <= DEFAULT_PREDICTION_LIMIT,
        forall|i: int|
            0 <= i < block(ps, s, cs).len() ==> {
                let c = #[trigger] block(ps, s, cs)[i];
                c.lane == Lane::Predict && c.text.len() > 0 && !has_text(cs, c.text)
            },
{
    match ps {
        None => {},
        Some(all) => {
            let raw = picked(all, cs, s.caret, all.len() as int);
            let b = ranked(raw);
            picked_shape(all, cs, s.caret, all.len() as int);
            ranking_orders_and_keeps(raw);
            if s.context.len() > 0 {
                assert forall|i: int| 0 <= i < b.len() implies ({
                    let c = #[trigger] b[i];
                    c.lane == Lane::Predict && c.text.len() > 0 && !has_text(cs, c.text)
                }) by {
                    crate::order::sorted_from(
                        raw,
                        |x: Cand, y: Cand| crate::ranking::ranks_before(x, y),
                    );
                    assert(b.contains(b[i]));
                    assert(raw.contains(b[i]));
                    let j = raw.index_of(b[i]);
                    assert(raw[j] == b[i]);
                }
            }
        },
    }
}

/// Predictions do not disturb choosing by number: the input candidate number
/// `n` is the one that it would be without them.
pub proof fn numbers_choose_as_without_predictions(s: State, cs: Seq<Cand>, b: Seq<Cand>, n: int)
    requires
        0 <= n < cs.len(),
    ensures
        ({
            let k = selectable(with_block(s, cs, b), n);
            0 <= k < spliced(cs, b).len() && spliced(cs, b)[k] == cs[n]
        }),
{
}

/// Predictions stand behind the first candidate, all together, and what follows
/// that candidate stands behind them; where there is no candidate they stand
/// alone. Without predictions nothing moves.
pub proof fn predictions_stand_behind_the_first(cs: Seq<Cand>, b: Seq<Cand>, i: int)
    ensures
        b.len() == 0 ==> spliced(cs, b) == cs,
        cs.len() == 0 ==> spliced(cs, b) == b,
        cs.len() > 0 && b.len() > 0 ==> {
            let r = spliced(cs, b);
            &&& r.len() == cs.len() + b.len()
            &&& r[0] == cs[0]
            &&& 0 <= i < b.len() ==> r[1 + i] == b[i]
            &&& 0 < i < cs.len() ==> r[b.len() + i] == cs[i]
        },
{
    if cs.len() == 0 {
        assert(spliced(cs, b) =~= b);
    }
}

/// Before the first word of a session, and without a memory, nothing is
/// predicted.
pub proof fn nothing_is_predicted_without_words(
    ps: Option<Seq<Foreseen>>,
    s: State,
    cs: Seq<Cand>,
)
    requires
        ps is None || s.context.len() == 0,
    ensures
        block(ps, s, cs).len() == 0,
{
}

proof fn the_first_new_one_is_picked(
    ps: Seq<Foreseen>,
    cs: Seq<Cand>,
    caret: int,
    n: int,
    i: int,
)
    requires
        0 <= i < ps.len(),
        0 <= n <= ps.len(),
        ps[i].text.len() > 0,
        !has_text(cs, ps[i].text),
        forall|j: int|
            0 <= j < i ==> (#[trigger] ps[j]).text.len() == 0 || has_text(cs, ps[j].text),
    ensures
        n <= i ==> picked(ps, cs, caret, n).len() == 0,
        i < n ==> picked(ps, cs, caret, n).len() > 0 && picked(ps, cs, caret, n)[0] == predicted(
            ps[i],
            caret,
        ),
    decreases n,
{
    if n > 0 {
        the_first_new_one_is_picked(ps, cs, caret, n - 1, i);
    }
}

/// The first word that is foreseen and not yet a candidate is shown, with the
/// score that it is foreseen with.
pub proof fn the_first_new_word_is_shown(ps: Seq<Foreseen>, s: State, cs: Seq<Cand>, i: int)
    requires
        s.context.len() > 0,
        0 <= i < ps.len(),
        ps[i].text.len() > 0,
        !has_text(cs, ps[i].text),
        forall|j: int|
            0 <= j < i ==> (#[trigger] ps[j]).text.len() == 0 || has_text(cs, ps[j].text),
    ensures
        exists|k: int|
            {
                &&& 0 <= k < block(Some(ps), s, cs).len()
                &&& (#[trigger] block(Some(ps), s, cs)[k]).text == ps[i].text
                &&& block(Some(ps), s, cs)[k].score == ps[i].score
            },
{
    let raw = picked(ps, cs, s.caret, ps.len() as int);
    the_first_new_one_is_picked(ps, cs, s.caret, ps.len() as int, i);
    crate::order::sorted_from(raw, |x: Cand, y: Cand| crate::ranking::ranks_before(x, y));
    let b = block(Some(ps), s, cs);
    assert(raw.contains(raw[0]));
    assert(b.contains(raw[0]));
    let k = choose|k: int| 0 <= k < b.len() && b[k] == raw[0];
    assert(b[k].text == ps[i].text);
}

/// At most two predictions are shown.
pub proof fn two_predictions_at_most(ps: Option<Seq<Foreseen>>, s: State, cs: Seq<Cand>)
    ensures
        block(ps, s, cs).len() <= 2,
{
    predictions_are_few_and_new(ps, s, cs);
}

} // verus!
