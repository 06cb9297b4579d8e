//! Components whose candidates are computed rather than looked up, and filters
//! that reorder candidates by what they are.

use vstd::prelude::*;
use crate::candidate::{text_opt, Cand, Candidate, CandidateKind, Lane, Origin, Span};
use crate::code::{normal, Score, SpellingAttr};
use crate::lexicon::{poured_twice, push_capped};
use crate::order::views;
use crate::spelling::poured;

pub mod date;
pub mod date_laws;
pub mod number;
pub mod number_worth;
pub mod pin;
pub mod reorder;
pub mod unicode;
pub mod unicode_laws;

verus! {

/// The score of the first computed candidate: the thousandfold logarithm of
/// the weight 50000.
pub const INLINE_MILLI: i32 = 10820;

/// The score of the computed candidate at a place: the weight falls by ten from
/// each place to the next.
pub open spec fn inline_score(place: int) -> Score {
    Score { milli: (INLINE_MILLI - (place + 3) / 5) as i32 }
}

/// A computed candidate.
pub open spec fn inline_cand(
    text: Seq<char>,
    comment: Option<Seq<char>>,
    place: int,
    span: Span,
) -> Cand {
    Cand {
        text,
        comment,
        score: inline_score(place),
        origin: Origin::Literal,
        attr: normal(),
        span,
        lane: Lane::Input,
        kind: CandidateKind::Inline,
        key: None,
    }
}

/// Computed texts with their comments.
pub type Rendered = Vec<(String, Option<String>)>;

pub open spec fn rendered_view(v: Seq<(String, Option<String>)>) -> Seq<
    (Seq<char>, Option<Seq<char>>),
> {
    Seq::new(v.len(), |i: int| (v[i].0@, text_opt(v[i].1)))
}

/// Computed texts as candidates.
pub open spec fn inline_cands(v: Seq<(Seq<char>, Option<Seq<char>>)>, span: Span) -> Seq<Cand> {
    Seq::new(v.len(), |i: int| inline_cand(v[i].0, v[i].1, i, span))
}

/// How many texts one component computes at most.
pub const RENDER_CAP: usize = 32;

/// Pours computed texts into a buffer of `cap` places.
pub(crate) fn emit(rendered: Rendered, span: Span, out: &mut Vec<Candidate>, cap: usize)
    requires
        rendered@.len() <= RENDER_CAP,
    ensures
        views(final(out)@) == poured(
            views(old(out)@),
            inline_cands(rendered_view(rendered@), span),
            cap as int,
        ),
{
    let ghost rv = rendered_view(rendered@);
    let ghost all = inline_cands(rv, span);
    let ghost before = views(out@);
    let mut i: usize = 0;
    assert(poured(before, all.take(0), cap as int) =~= before);
    while i < rendered.len()
        invariant
            i <= rendered@.len() <= RENDER_CAP,
            rv == rendered_view(rendered@),
            all == inline_cands(rv, span),
            views(out@) == poured(before, all.take(i as int), cap as int),
        decreases rendered.len() - i,
    {
        let text = rendered[i].0.clone();
        let comment = crate::candidate::copy_opt(&rendered[i].1);
        let milli: i32 = INLINE_MILLI - (i as i32 + 3) / 5;
        let c = Candidate {
            text,
            comment,
            score: Score { milli },
            origin: Origin::Literal,
            attr: SpellingAttr::normal(),
            span,
            lane: Lane::Input,
            kind: CandidateKind::Inline,
            key: None,
        };
        proof {
            assert(c@ == all[i as int]);
            poured_twice(before, all.take(i as int), seq![c@], cap as int);
            assert(all.take(i as int) + seq![c@] =~= all.take(i + 1));
        }
        push_capped(out, cap, c);
        i += 1;
    }
    assert(all.take(i as int) =~= all);
}

/// Computed texts are offered in their order, each with its comment, over the
/// whole span, and no score rises from one to the next.
pub proof fn computed_texts_keep_their_order(
    v: Seq<(Seq<char>, Option<Seq<char>>)>,
    span: Span,
    i: int,
    j: int,
)
    requires
        0 <= i < j < v.len() <= 100_000,
    ensures
        ({
            let cs = inline_cands(v, span);
            &&& cs.len() == v.len()
            &&& cs[i].text == v[i].0 && cs[i].comment == v[i].1 && cs[i].span == span
            &&& cs[i].kind == CandidateKind::Inline && cs[i].origin == Origin::Literal
            &&& cs[i].score.milli >= cs[j].score.milli
            &&& j >= i + 5 ==> cs[i].score.milli > cs[j].score.milli
        }),
{
}

} // verus!
