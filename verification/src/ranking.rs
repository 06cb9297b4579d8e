//! The order of candidates.

use vstd::prelude::*;
use crate::candidate::{origin_rank, Cand, Candidate, CandidateKind, Lane, Origin};
use crate::order::{
    equals_of, in_order, sort_by, sort_vec, sorting_is_stable, sorting_keeps, sorting_orders, views,
    weak_order,
};

verus! {

/// How far a candidate for what was typed is put back, whatever its score: a
/// guessed sentence behind the words that there are, and the input as it stands
/// behind everything.
pub open spec fn setback(c: Cand) -> int {
    if c.lane != Lane::Input {
        0
    } else if c.origin == Origin::Sentence {
        1
    } else if c.origin == Origin::Literal && c.kind == CandidateKind::Normal {
        2
    } else {
        0
    }
}

/// Whether one candidate comes before another: what was typed before what may
/// come next, what is put back last, and the better score first. Of equal scores
/// among what was typed the more trusted source comes first.
pub open spec fn ranks_before(a: Cand, b: Cand) -> bool {
    if a.lane != b.lane {
        a.lane == Lane::Input
    } else if setback(a) != setback(b) {
        setback(a) < setback(b)
    } else if a.score != b.score {
        a.score.milli > b.score.milli
    } else {
        a.lane == Lane::Input && origin_rank(a.origin) < origin_rank(b.origin)
    }
}

/// The candidates in their order; what is equal stays as it was.
pub open spec fn ranked(cs: Seq<Cand>) -> Seq<Cand> {
    sort_by(cs, |a: Cand, b: Cand| ranks_before(a, b))
}

fn find_setback(c: &Candidate) -> (r: u8)
    ensures
        r == setback(c@),
{
    if c.lane != Lane::Input {
        0
    } else if c.origin == Origin::Sentence {
        1
    } else if c.origin == Origin::Literal && c.kind == CandidateKind::Normal {
        2
    } else {
        0
    }
}

fn comes_first(a: &Candidate, b: &Candidate) -> (r: bool)
    ensures
        r == ranks_before(a@, b@),
{
    let back: u8 = find_setback(a);
    let other: u8 = find_setback(b);
    if a.lane != b.lane {
        a.lane == Lane::Input
    } else if back != other {
        back < other
    } else if a.score != b.score {
        a.score.milli > b.score.milli
    } else {
        a.lane == Lane::Input && a.origin.rank() < b.origin.rank()
    }
}

/// Puts candidates in order.
pub fn sort_candidates(cands: &mut Vec<Candidate>)
    ensures
        views(final(cands)@) == ranked(views(old(cands)@)),
{
    let mut taken: Vec<Candidate> = Vec::new();
    std::mem::swap(cands, &mut taken);
    *cands = sort_vec(taken, comes_first, Ghost(|a: Cand, b: Cand| ranks_before(a, b)));
}

// ---------------------------------------------------------------------------
// Laws
// ---------------------------------------------------------------------------

/// The order of candidates leaves nothing to chance: of any two, one comes
/// first or they are equal in rank, and equals are equal to the same others.
pub proof fn ranks_are_an_order()
    ensures
        weak_order(|a: Cand, b: Cand| ranks_before(a, b)),
{
}

/// After ranking no candidate stands behind one that it comes before, and none
/// was lost or made up.
pub proof fn ranking_orders_and_keeps(cs: Seq<Cand>)
    ensures
        in_order(ranked(cs), |a: Cand, b: Cand| ranks_before(a, b)),
        ranked(cs).to_multiset() == cs.to_multiset(),
        ranked(cs).len() == cs.len(),
{
    let before = |a: Cand, b: Cand| ranks_before(a, b);
    ranks_are_an_order();
    sorting_orders(cs, before);
    sorting_keeps(cs, before);
}

/// A guessed sentence stands behind every word that there is, and before the
/// input as it stands, whatever their scores.
pub proof fn sentences_stand_behind_words(cs: Seq<Cand>, i: int, j: int)
    requires
        0 <= i < cs.len(),
        0 <= j < cs.len(),
        ranked(cs)[i].lane == Lane::Input,
        ranked(cs)[j].lane == Lane::Input,
        ranked(cs)[i].origin == Origin::Sentence,
    ensures
        ranked(cs)[j].origin == Origin::UserWord ==> j < i,
        ranked(cs)[j].origin == Origin::SystemWord ==> j < i,
        ranked(cs)[j].origin == Origin::Literal && ranked(cs)[j].kind == CandidateKind::Normal ==> i
            < j,
{
    ranking_orders_and_keeps(cs);
    let before = |a: Cand, b: Cand| ranks_before(a, b);
    let r = ranked(cs);
    assert(i < j ==> !before(r[j], r[i]));
    assert(j < i ==> !before(r[i], r[j]));
}

/// Among the words for what was typed the better score comes first, and of equal
/// scores the user's own word before the system's. What may come next stands
/// behind all of them.
pub proof fn better_words_come_first(cs: Seq<Cand>, i: int, j: int)
    requires
        0 <= i < j < cs.len(),
    ensures
        ({
            let a = ranked(cs)[i];
            let b = ranked(cs)[j];
            let word = |c: Cand| c.lane == Lane::Input && (c.origin == Origin::UserWord || c.origin
                == Origin::SystemWord);
            &&& word(a) && word(b) ==> a.score.milli >= b.score.milli
            &&& word(a) && word(b) && a.score == b.score && b.origin == Origin::UserWord ==> a.origin
                == Origin::UserWord
            &&& a.lane != Lane::Input ==> b.lane == a.lane || b.lane != Lane::Input
            &&& a.lane != Lane::Input && b.lane == a.lane ==> a.score.milli >= b.score.milli
        }),
{
    ranking_orders_and_keeps(cs);
    let before = |a: Cand, b: Cand| ranks_before(a, b);
    let r = ranked(cs);
    assert(!before(r[j], r[i]));
}

/// Candidates that are equal in rank keep the order they had.
pub proof fn equal_candidates_keep_their_order(cs: Seq<Cand>, c: Cand)
    ensures
        equals_of(ranked(cs), c, |a: Cand, b: Cand| ranks_before(a, b)) == equals_of(
            cs,
            c,
            |a: Cand, b: Cand| ranks_before(a, b),
        ),
{
    ranks_are_an_order();
    sorting_is_stable(cs, c, |a: Cand, b: Cand| ranks_before(a, b));
}

} // verus!
