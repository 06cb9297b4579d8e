//! Candidates: what can be committed for an input.

use vstd::prelude::*;
use crate::code::{Score, SpellingAttr};
use crate::order::views;

verus! {

/// A range of bytes of the input.
#[derive(Clone, Copy, Debug, PartialEq, Eq, Structural)]
pub struct Span {
    pub start: usize,
    pub end: usize,
}

impl Span {
    pub fn new(start: usize, end: usize) -> (r: Span)
        ensures
            r == (Span { start, end }),
    {
        Span { start, end }
    }
}

/// Where a candidate comes from, the most trusted source first.
#[derive(Clone, Copy, Debug, PartialEq, Eq, PartialOrd, Ord, Structural)]
pub enum Origin {
    UserWord,
    SystemWord,
    Sentence,
    Prediction,
    Literal,
}

/// The place of a source in the order of trust.
pub open spec fn origin_rank(o: Origin) -> int {
    match o {
        Origin::UserWord => 0,
        Origin::SystemWord => 1,
        Origin::Sentence => 2,
        Origin::Prediction => 3,
        Origin::Literal => 4,
    }
}

impl Origin {
    pub fn rank(self) -> (r: u8)
        ensures
            r == origin_rank(self),
    {
        match self {
            Origin::UserWord => 0,
            Origin::SystemWord => 1,
            Origin::Sentence => 2,
            Origin::Prediction => 3,
            Origin::Literal => 4,
        }
    }
}

/// Which list a candidate belongs to: what was typed, or what may come next.
#[derive(Clone, Copy, Debug, PartialEq, Eq, Structural)]
pub enum Lane {
    Input,
    Predict,
}

/// What sort of text a candidate is.
#[derive(Clone, Copy, Debug, PartialEq, Eq, Structural)]
pub enum CandidateKind {
    Normal,
    Completion,
    UserTable,
    Punct,
    Inline,
}

/// Something that can be committed.
#[derive(Debug, PartialEq, Eq)]
pub struct Candidate {
    pub text: String,
    pub comment: Option<String>,
    pub score: Score,
    pub origin: Origin,
    pub attr: SpellingAttr,
    pub span: Span,
    pub lane: Lane,
    pub kind: CandidateKind,
    /// The code it was found under, where it has one.
    pub key: Option<String>,
}

/// The mathematical reading of a [`Candidate`].
pub struct Cand {
    pub text: Seq<char>,
    pub comment: Option<Seq<char>>,
    pub score: Score,
    pub origin: Origin,
    pub attr: SpellingAttr,
    pub span: Span,
    pub lane: Lane,
    pub kind: CandidateKind,
    pub key: Option<Seq<char>>,
}

/// An optional text, read mathematically.
pub open spec fn text_opt(t: Option<String>) -> Option<Seq<char>> {
    match t {
        Some(s) => Some(s@),
        None => None,
    }
}

impl View for Candidate {
    type V = Cand;

    open spec fn view(&self) -> Cand {
        Cand {
            text: self.text@,
            comment: text_opt(self.comment),
            score: self.score,
            origin: self.origin,
            attr: self.attr,
            span: self.span,
            lane: self.lane,
            kind: self.kind,
            key: text_opt(self.key),
        }
    }
}

pub(crate) fn copy_opt(t: &Option<String>) -> (r: Option<String>)
    ensures
        r == *t,
{
    match t {
        Some(s) => Some(s.clone()),
        None => None,
    }
}

impl Clone for Candidate {
    fn clone(&self) -> (r: Self)
        ensures
            r@ == self@,
    {
        Candidate {
            text: self.text.clone(),
            comment: copy_opt(&self.comment),
            score: self.score,
            origin: self.origin,
            attr: self.attr,
            span: self.span,
            lane: self.lane,
            kind: self.kind,
            key: copy_opt(&self.key),
        }
    }
}

/// Appends copies of candidates.
pub(crate) fn append_clones(src: &Vec<Candidate>, out: &mut Vec<Candidate>)
    ensures
        views(final(out)@) == views(old(out)@) + views(src@),
{
    let ghost before = views(out@);
    let ghost all = views(src@);
    let mut i: usize = 0;
    assert(before + all.take(0) =~= before);
    while i < src.len()
        invariant
            i <= src@.len(),
            all == views(src@),
            views(out@) == before + all.take(i as int),
        decreases src.len() - i,
    {
        let ghost had = views(out@);
        out.push(src[i].clone());
        assert(views(out@) =~= had.push(all[i as int]));
        assert(views(out@) =~= before + all.take(i + 1));
        i += 1;
    }
    assert(all.take(i as int) =~= all);
}

/// Whether a candidate is what was typed, rather than a guess.
pub open spec fn exact(origin: Origin, attr: SpellingAttr) -> bool {
    &&& origin != Origin::Sentence
    &&& origin != Origin::Prediction
    &&& attr == crate::code::normal()
}

/// Decides [`exact`].
pub fn is_exact(origin: Origin, attr: SpellingAttr) -> (r: bool)
    ensures
        r == exact(origin, attr),
{
    origin != Origin::Sentence && origin != Origin::Prediction && !attr.is_derived()
}

} // verus!
