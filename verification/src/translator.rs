//! Translators: from a segment of the input to candidates.
//!
//! There are two families. Where the units of a scheme can be listed (such as
//! syllables), spellings are read through the spelling table. Where they
//! cannot, the input is one code and is looked up as it stands.

use std::sync::Arc;
use vstd::prelude::*;
use crate::candidate::{text_opt, Cand, Candidate, CandidateKind, Lane, Origin, Span};
use crate::code::{attr_union, milli, normal, plus};
use crate::code::{CodeAlphabet, CodeUnitId, Score, SpellingAttr};
use crate::lexicon::{poured_twice, push_capped, word_cands, words_from, words_under};
use crate::lexicon::{InMemoryLexicon, Word};
use crate::order::views;
use crate::spelling::{poured, stands_at, Path, SpellingPath, SpellingTable};
use crate::text::{
    byte_len, bytes_cover_chars, bytes_len, one_more_piece, part, prefix_bytes, same_text,
    separators_part, split_on, to_chars,
};

verus! {

/// How many candidates one translation may give.
pub const TRANSLATE_CAP: usize = 200;

/// What a completion costs, in thousandths.
pub const COMPLETION_COST_MILLI: i32 = -2_996;

/// What each byte of the input that is left over costs, in thousandths.
pub const PREFIX_PENALTY_MILLI_PER_BYTE: i32 = -4_000;

/// What each code unit of a word adds to a sentence.
pub const SENTENCE_UNIT_BONUS_MILLI: i32 = 300;

/// What each word costs a sentence.
pub const SENTENCE_WORD_PENALTY_MILLI: i32 = -12_000;

/// What keeps a guessed sentence below a word of the lexicon.
pub const SENTENCE_PENALTY_MILLI: i32 = -1_500;

/// How many words a sentence may have.
pub const MAX_SENTENCE_WORDS: usize = 8;

/// How many readings are looked at for one segment.
pub const TRANSLATE_PATHS: usize = 512;

/// How many readings are looked at from each place of a sentence.
pub const SENTENCE_PATHS: usize = 64;

/// How many words under one code may enter a sentence.
pub const SENTENCE_CHOICES: usize = 8;

/// The units of a code, joined by apostrophes; `None` where the alphabet lacks
/// one.
pub open spec fn key_of(units: Seq<Seq<char>>, code: Seq<CodeUnitId>) -> Option<Seq<char>>
    decreases code.len(),
{
    if code.len() == 0 {
        Some(seq![])
    } else if code.last().0 >= units.len() {
        None
    } else {
        match key_of(units, code.drop_last()) {
            None => None,
            Some(head) => Some(
                (if code.len() == 1 {
                    head
                } else {
                    head.push('\'')
                }) + units[code.last().0 as int],
            ),
        }
    }
}

/// Renders [`key_of`].
pub fn code_key(alphabet: &CodeAlphabet, code: &Vec<CodeUnitId>) -> (r: Option<String>)
    ensures
        text_opt(r) == key_of(alphabet@, code@),
{
    let mut s = String::new();
    let mut i: usize = 0;
    let ghost us = alphabet@;
    assert(code@.take(0) =~= seq![]);
    assert(s@ =~= seq![]);
    while i < code.len()
        invariant
            i <= code.len(),
            us == alphabet@,
            key_of(us, code@.take(i as int)) == Some(s@),
        decreases code.len() - i,
    {
        let ghost was = s@;
        proof {
            let t = code@.take(i + 1);
            assert(t.drop_last() =~= code@.take(i as int));
            assert(t.last() == code@[i as int]);
        }
        match alphabet.text(code[i]) {
            None => {
                proof {
                    key_of_none(us, code@, i + 1);
                }
                return None;
            },
            Some(t) => {
                if i > 0 {
                    crate::text::push_char(&mut s, '\'');
                }
                s.append(t);
            },
        }
        i += 1;
    }
    assert(code@.take(i as int) =~= code@);
    Some(s)
}

proof fn key_of_none(units: Seq<Seq<char>>, code: Seq<CodeUnitId>, n: int)
    requires
        0 < n <= code.len(),
        code[n - 1].0 >= units.len(),
    ensures
        key_of(units, code) is None,
    decreases code.len(),
{
    if n < code.len() {
        assert(code.drop_last()[n - 1] == code[n - 1]);
        key_of_none(units, code.drop_last(), n);
    }
}

// ---------------------------------------------------------------------------
// Exact codes
// ---------------------------------------------------------------------------

/// The unit whose text is the longest that stands in `s` at `pos`, of equal
/// texts the one with the greatest number.
pub open spec fn longest_unit(units: Seq<Seq<char>>, s: Seq<char>, pos: int, n: int) -> Option<int>
    decreases n,
{
    if n <= 0 {
        None
    } else {
        let head = longest_unit(units, s, pos, n - 1);
        if !stands_at(s, pos, units[n - 1]) {
            head
        } else {
            match head {
                None => Some(n - 1),
                Some(b) => if units[n - 1].len() >= units[b].len() {
                    Some(n - 1)
                } else {
                    head
                },
            }
        }
    }
}

/// `s` from `pos` on, cut into units by taking the longest each time; `None`
/// where no unit of at least one character stands.
pub open spec fn split_code(units: Seq<Seq<char>>, s: Seq<char>, pos: int) -> Option<
    Seq<CodeUnitId>,
>
    decreases s.len() - pos,
{
    if pos >= s.len() {
        Some(seq![])
    } else {
        match longest_unit(units, s, pos, units.len() as int) {
            None => None,
            Some(u) => if !(0 < units[u].len() <= s.len() - pos) {
                None
            } else {
                match split_code(units, s, pos + units[u].len()) {
                    None => None,
                    Some(rest) => Some(seq![CodeUnitId(u as u32)] + rest),
                }
            },
        }
    }
}

/// Looks the segment up as one code.
#[derive(Debug)]
pub struct ExactCodeTranslator {
    pub lexicon: Arc<InMemoryLexicon>,
    pub alphabet: CodeAlphabet,
    pub completion: bool,
    pub quality: Score,
}

/// A candidate after an exact translator has priced and placed it.
pub open spec fn exact_priced(
    c: Cand,
    quality: Score,
    span: Span,
    key: Option<Seq<char>>,
) -> Cand {
    let base = if c.attr.completion {
        plus(c.score, milli(COMPLETION_COST_MILLI as int))
    } else {
        c.score
    };
    Cand { score: plus(base, quality), span, key, ..c }
}

/// What a translator adds to every score.
pub open spec fn quality_of(quality: Option<Score>) -> Score {
    match quality {
        Some(q) => q,
        None => milli(0),
    }
}

/// The words under a code and, with completion, those that go on from it.
pub open spec fn found_words(
    ws: Seq<Word>,
    code: Seq<CodeUnitId>,
    completion: bool,
) -> Seq<Cand> {
    let exact = poured(
        seq![],
        word_cands(words_under(ws, code), code.len() as int, normal()),
        TRANSLATE_CAP as int,
    );
    if completion {
        poured(
            exact,
            word_cands(
                words_from(ws, code, true),
                code.len() as int,
                SpellingAttr { fuzzy: false, abbrev: false, completion: true },
            ),
            TRANSLATE_CAP as int,
        )
    } else {
        exact
    }
}

/// What an exact translator gives for a segment.
pub open spec fn exact_cands(
    ws: Seq<Word>,
    units: Seq<Seq<char>>,
    completion: bool,
    quality: Score,
    segment: Seq<char>,
    span: Span,
) -> Seq<Cand> {
    match split_code(units, segment, 0) {
        None => seq![],
        Some(code) => found_words(ws, code, completion).map_values(
            |c: Cand| exact_priced(c, quality, span, key_of(units, code)),
        ),
    }
}

fn look_up(lexicon: &InMemoryLexicon, code: &Vec<CodeUnitId>, completion: bool) -> (r: Vec<
    Candidate,
>)
    ensures
        views(r@) == found_words(lexicon.words(), code@, completion),
{
    let mut raw: Vec<Candidate> = Vec::new();
    assert(views(raw@) =~= seq![]);
    lexicon.lookup(code, &mut raw, TRANSLATE_CAP);
    if completion && lexicon.supports_prefix() {
        lexicon.prefix_lookup(code, true, &mut raw, TRANSLATE_CAP);
    }
    raw
}

impl ExactCodeTranslator {
    /// A translator over an alphabet and a lexicon.
    pub fn new(alphabet: &CodeAlphabet, lexicon: Arc<InMemoryLexicon>) -> (r: Self)
        ensures
            r.lexicon == lexicon,
            r.alphabet@ == alphabet@,
            alphabet.wf() ==> r.alphabet.wf(),
            !r.completion,
            r.quality == milli(0),
    {
        ExactCodeTranslator {
            lexicon,
            alphabet: alphabet.clone(),
            completion: false,
            quality: Score::zero(),
        }
    }

    /// Switches completion of words on or off.
    #[must_use]
    pub fn with_completion(self, on: bool) -> (r: Self)
        ensures
            r == (ExactCodeTranslator { completion: on, ..self }),
    {
        let mut r = self;
        r.completion = on;
        r
    }

    /// Sets what is added to the score of every candidate: nothing, where
    /// nothing is said.
    #[must_use]
    pub fn with_initial_quality(self, quality: Option<Score>) -> (r: Self)
        ensures
            r == (ExactCodeTranslator { quality: quality_of(quality), ..self }),
    {
        let mut r = self;
        r.quality = match quality {
            Some(q) => q,
            None => Score::zero(),
        };
        r
    }

    /// Cuts an input into units, the longest first.
    pub fn split(&self, input: &str) -> (r: Option<Vec<CodeUnitId>>)
        requires
            self.alphabet.wf(),
        ensures
            match split_code(self.alphabet@, input@, 0) {
                Some(code) => r matches Some(c) && c@ == code,
                None => r is None,
            },
    {
        let cs = to_chars(input);
        let ghost us = self.alphabet@;
        let mut code: Vec<CodeUnitId> = Vec::new();
        let mut pos: usize = 0;
        while pos < cs.len()
            invariant
                pos <= cs.len(),
                cs@ == input@,
                us == self.alphabet@,
                self.alphabet.wf(),
                match split_code(us, input@, pos as int) {
                    Some(rest) => split_code(us, input@, 0) == Some(code@ + rest),
                    None => split_code(us, input@, 0) is None,
                },
            decreases cs.len() - pos,
        {
            let mut best: Option<usize> = None;
            let mut width: usize = 0;
            let mut i: usize = 0;
            while i < self.alphabet.units.len()
                invariant
                    i <= self.alphabet.units.len(),
                    pos < cs.len(),
                    cs@ == input@,
                    us == self.alphabet@,
                    match longest_unit(us, input@, pos as int, i as int) {
                        Some(b) => best matches Some(x) && x == b && b < i && width == us[b].len()
                            && pos + width <= cs.len(),
                        None => best is None,
                    },
                decreases self.alphabet.units.len() - i,
            {
                let t = to_chars(self.alphabet.units[i].as_str());
                assert(us[i as int] == t@);
                if t.len() <= cs.len() - pos {
                    let mut j: usize = 0;
                    while j < t.len() && cs[pos + j] == t[j]
                        invariant
                            j <= t.len() <= cs.len() - pos,
                            pos < cs.len(),
                            forall|k: int| 0 <= k < j ==> cs@[pos + k] == t@[k],
                        decreases t.len() - j,
                    {
                        j += 1;
                    }
                    if j == t.len() {
                        assert(cs@.subrange(pos as int, pos + t@.len()) =~= t@);
                        if best.is_none() || t.len() >= width {
                            best = Some(i);
                            width = t.len();
                        }
                    } else {
                        assert(cs@.subrange(pos as int, pos + t@.len())[j as int] != t@[j as int]);
                    }
                }
                i += 1;
            }
            match best {
                None => {
                    return None;
                },
                Some(u) => {
                    if width == 0 {
                        return None;
                    }
                    let ghost was = code@;
                    code.push(CodeUnitId(u as u32));
                    pos += width;
                    proof {
                        match split_code(us, input@, pos as int) {
                            Some(rest) => {
                                assert(code@ + rest =~= was + (seq![CodeUnitId(u as u32)] + rest));
                            },
                            None => {},
                        }
                    }
                },
            }
        }
        assert(code@ + seq![] =~= code@);
        Some(code)
    }

    /// Appends the candidates for a segment to a buffer of `cap` places.
    pub fn translate(&self, segment: &str, span: Span, out: &mut Vec<Candidate>, cap: usize)
        requires
            self.alphabet.wf(),
        ensures
            views(final(out)@) == poured(
                views(old(out)@),
                exact_cands(
                    self.lexicon.words(),
                    self.alphabet@,
                    self.completion,
                    self.quality,
                    segment@,
                    span,
                ),
                cap as int,
            ),
    {
        let ghost before = views(out@);
        let code = match self.split(segment) {
            Some(code) => code,
            None => {
                assert(poured(before, seq![], cap as int) =~= before);
                return ;
            },
        };
        let raw = look_up(&self.lexicon, &code, self.completion);
        let key = code_key(&self.alphabet, &code);
        let ghost price = |c: Cand| exact_priced(c, self.quality, span, key_of(self.alphabet@, code@));
        let ghost all = views(raw@).map_values(price);
        let mut i: usize = 0;
        assert(poured(before, all.take(0), cap as int) =~= before);
        while i < raw.len()
            invariant
                i <= raw.len(),
                text_opt(key) == key_of(self.alphabet@, code@),
                price == (|c: Cand|
                    exact_priced(c, self.quality, span, key_of(self.alphabet@, code@))),
                all == views(raw@).map_values(price),
                views(out@) == poured(before, all.take(i as int), cap as int),
            decreases raw.len() - i,
        {
            let mut c = raw[i].clone();
            if c.attr.completion {
                c.score = c.score.saturating_add(Score::from_milli_log(COMPLETION_COST_MILLI));
            }
            c.score = c.score.saturating_add(self.quality);
            c.span = span;
            c.key = crate::candidate::copy_opt(&key);
            assert(c@ == all[i as int]);
            push_capped(out, cap, c);
            proof {
                poured_twice(before, all.take(i as int), seq![all[i as int]], cap as int);
                assert(all.take(i as int) + seq![all[i as int]] =~= all.take(i + 1));
            }
            i += 1;
        }
        assert(all.take(i as int) =~= all);
    }
}

// ---------------------------------------------------------------------------
// Sentences
// ---------------------------------------------------------------------------

/// A word between two places of the input.
#[derive(Debug)]
pub struct WordEdge {
    pub start: usize,
    pub end: usize,
    pub text: String,
    pub score: Score,
    pub units: usize,
}

/// The mathematical reading of a [`WordEdge`].
pub struct Span2Word {
    pub start: int,
    pub end: int,
    pub text: Seq<char>,
    pub score: Score,
    pub units: int,
}

impl View for WordEdge {
    type V = Span2Word;

    open spec fn view(&self) -> Span2Word {
        Span2Word {
            start: self.start as int,
            end: self.end as int,
            text: self.text@,
            score: self.score,
            units: self.units as int,
        }
    }
}

/// The best way found to cover the input up to some place: its score, its last
/// word and how many words it has.
pub struct Best {
    pub score: Score,
    pub edge: int,
    pub words: int,
}

/// What a word's length adds to a sentence.
pub open spec fn unit_bonus(units: int) -> Score {
    if units > i32::MAX {
        milli(0)
    } else {
        milli(SENTENCE_UNIT_BONUS_MILLI * units)
    }
}

/// The score of a sentence that goes on with `e`.
pub open spec fn extended_score(before: Score, e: Span2Word) -> Score {
    plus(
        plus(
            plus(plus(before, e.score), unit_bonus(e.units)),
            milli(SENTENCE_WORD_PENALTY_MILLI as int),
        ),
        milli(SENTENCE_PENALTY_MILLI as int),
    )
}

/// The way to `j` that ends with edge number `n`, if that edge can go on from
/// a way to its start.
pub open spec fn way_by(edges: Seq<Span2Word>, j: int, n: int) -> Option<Best>
    decreases j, 0int,
{
    let e = edges[n];
    if e.end != j || !(0 <= e.start < j) {
        None
    } else {
        match best_to(edges, e.start, edges.len() as int) {
            None => None,
            Some(b) => if b.words + 1 > MAX_SENTENCE_WORDS {
                None
            } else {
                Some(
                    Best { score: extended_score(b.score, e), edge: n, words: b.words + 1 },
                )
            },
        }
    }
}

/// The best way to `j` by one of the first `n` edges: the highest score, then
/// the fewest words, then the first found.
pub open spec fn best_to(edges: Seq<Span2Word>, j: int, n: int) -> Option<Best>
    decreases j, n + 1,
{
    if j <= 0 {
        if j == 0 {
            Some(Best { score: milli(0), edge: -1, words: 0 })
        } else {
            None
        }
    } else if n <= 0 {
        None
    } else {
        let head = best_to(edges, j, n - 1);
        match way_by(edges, j, n - 1) {
            None => head,
            Some(w) => match head {
                None => Some(w),
                Some(b) => if w.score.milli > b.score.milli || (w.score.milli == b.score.milli
                    && w.words < b.words) {
                    Some(w)
                } else {
                    head
                },
            },
        }
    }
}

/// The edges of the best way to `j`, in order.
pub open spec fn chain_to(edges: Seq<Span2Word>, j: int) -> Seq<int>
    decreases j,
{
    if j <= 0 {
        seq![]
    } else {
        match best_to(edges, j, edges.len() as int) {
            None => seq![],
            Some(b) => if 0 <= b.edge < edges.len() && 0 <= edges[b.edge].start < j {
                chain_to(edges, edges[b.edge].start).push(b.edge)
            } else {
                seq![]
            },
        }
    }
}

/// The words of a chain, joined.
pub open spec fn chain_text(edges: Seq<Span2Word>, chain: Seq<int>) -> Seq<char>
    decreases chain.len(),
{
    if chain.len() == 0 {
        seq![]
    } else {
        chain_text(edges, chain.drop_last()) + edges[chain.last()].text
    }
}

/// The sentence that covers the whole of `len` places, with its score: two
/// words or more, and not empty.
pub open spec fn best_sentence(edges: Seq<Span2Word>, len: int) -> Option<(Seq<char>, Score)> {
    match best_to(edges, len, edges.len() as int) {
        None => None,
        Some(b) => {
            let chain = chain_to(edges, len);
            let text = chain_text(edges, chain);
            if chain.len() < 2 || text.len() == 0 {
                None
            } else {
                Some((text, b.score))
            }
        },
    }
}

/// What the best way to `j` is made of.
pub proof fn best_way_shape(edges: Seq<Span2Word>, j: int, n: int)
    requires
        0 <= n <= edges.len(),
    ensures
        best_to(edges, j, n) matches Some(b) ==> {
            &&& 0 <= b.words <= MAX_SENTENCE_WORDS
            &&& j > 0 ==> 0 <= b.edge < n && edges[b.edge].end == j && 0 <= edges[b.edge].start < j
                && b.words >= 1 && way_by(edges, j, b.edge) == Some(b)
            &&& j <= 0 ==> j == 0 && b.words == 0
        },
    decreases n,
{
    if j > 0 && n > 0 {
        best_way_shape(edges, j, n - 1);
        let e = edges[n - 1];
        if e.end == j && 0 <= e.start < j {
            words_not_negative(edges, e.start, edges.len() as int);
        }
        let w = way_by(edges, j, n - 1);
        assert(w matches Some(x) ==> 1 <= x.words <= MAX_SENTENCE_WORDS && x.edge == n - 1);
    }
}

proof fn words_not_negative(edges: Seq<Span2Word>, j: int, n: int)
    requires
        n <= edges.len(),
    ensures
        best_to(edges, j, n) matches Some(b) ==> b.words >= 0,
    decreases j, n,
{
    if j > 0 && n > 0 {
        words_not_negative(edges, j, n - 1);
        let e = edges[n - 1];
        if e.end == j && 0 <= e.start < j {
            words_not_negative(edges, e.start, edges.len() as int);
        }
        let w = way_by(edges, j, n - 1);
        assert(w matches Some(x) ==> x.words >= 1);
    }
}

/// Fills in the best way to every place, then follows it back from the end.
pub(crate) fn join_words(edges: &Vec<WordEdge>, len: usize) -> (r: Option<(String, Score)>)
    requires
        forall|i: int|
            0 <= i < edges@.len() ==> (#[trigger] edges@[i]).start < edges@[i].end <= len,
    ensures
        match best_sentence(views(edges@), len as int) {
            Some((text, score)) => r matches Some((t, s)) && t@ == text && s == score,
            None => r is None,
        },
{
    let ghost es = views(edges@);
    let ghost m = es.len() as int;
    let mut best: Vec<Option<(Score, usize)>> = Vec::new();
    let mut words: Vec<usize> = Vec::new();
    best.push(Some((Score::zero(), 0)));
    words.push(0);
    let mut done: usize = 0;
    while done < len
        invariant
            done <= len,
            best@.len() == done + 1,
            words@.len() == done + 1,
            es == views(edges@),
            m == es.len(),
            forall|i: int|
                0 <= i < edges@.len() ==> (#[trigger] edges@[i]).start < edges@[i].end <= len,
            forall|p: int|
                #![trigger best@[p]]
                0 <= p <= done ==> match best_to(es, p, m) {
                    Some(b) => best@[p] matches Some((s, e)) && s == b.score && (p > 0 ==> e
                        == b.edge) && words@[p] == b.words,
                    None => best@[p] is None,
                },
        decreases len - done,
    {
        let j: usize = done + 1;
        let mut at: Option<(Score, usize)> = None;
        let mut used: usize = 0;
        let mut n: usize = 0;
        while n < edges.len()
            invariant
                n <= edges.len(),
                1 <= j <= len,
                best@.len() == j,
                words@.len() == j,
                es == views(edges@),
                m == es.len(),
                forall|i: int|
                    0 <= i < edges@.len() ==> (#[trigger] edges@[i]).start < edges@[i].end <= len,
                forall|p: int|
                    #![trigger best@[p]]
                    0 <= p < j ==> match best_to(es, p, m) {
                        Some(b) => best@[p] matches Some((s, e)) && s == b.score && (p > 0 ==> e
                            == b.edge) && words@[p] == b.words,
                        None => best@[p] is None,
                    },
                match best_to(es, j as int, n as int) {
                    Some(b) => at matches Some((s, e)) && s == b.score && e == b.edge && used
                        == b.words,
                    None => at is None,
                },
            decreases edges.len() - n,
        {
            let e = &edges[n];
            assert(es[n as int] == e@);
            if e.end == j {
                if let Some((before, _)) = best[e.start] {
                    proof {
                        best_way_shape(es, e.start as int, m);
                    }
                    let count: usize = words[e.start] + 1;
                    if count <= MAX_SENTENCE_WORDS {
                        let bonus = unit_score(e.units);
                        let total = before.saturating_add(e.score).saturating_add(
                            bonus,
                        ).saturating_add(
                            Score::from_milli_log(SENTENCE_WORD_PENALTY_MILLI),
                        ).saturating_add(Score::from_milli_log(SENTENCE_PENALTY_MILLI));
                        assert(way_by(es, j as int, n as int) == Some(
                            Best { score: total, edge: n as int, words: count as int },
                        ));
                        let better = match at {
                            None => true,
                            Some((cur, _)) => total.milli > cur.milli || (total.milli == cur.milli
                                && count < used),
                        };
                        if better {
                            at = Some((total, n));
                            used = count;
                        }
                    }
                }
            }
            n += 1;
        }
        best.push(at);
        words.push(used);
        done = j;
    }
    if best[len].is_none() {
        return None;
    }
    let ghost whole = chain_to(es, len as int);
    let mut back: Vec<usize> = Vec::new();
    let mut pos: usize = len;
    let ghost mut taken = Seq::<int>::empty();
    assert(chain_to(es, pos as int) + taken =~= whole);
    while pos > 0
        invariant
            pos <= len,
            best@.len() == len + 1,
            words@.len() == len + 1,
            es == views(edges@),
            m == es.len(),
            best_to(es, pos as int, m) is Some,
            forall|i: int|
                0 <= i < edges@.len() ==> (#[trigger] edges@[i]).start < edges@[i].end <= len,
            forall|p: int|
                #![trigger best@[p]]
                0 <= p <= len ==> match best_to(es, p, m) {
                    Some(b) => best@[p] matches Some((s, e)) && s == b.score && (p > 0 ==> e
                        == b.edge) && words@[p] == b.words,
                    None => best@[p] is None,
                },
            chain_to(es, pos as int) + taken == whole,
            taken.len() == back@.len(),
            forall|i: int|
                0 <= i < back@.len() ==> #[trigger] back@[i] < edges@.len() && taken[taken.len() - 1
                    - i] == back@[i],
        decreases pos,
    {
        proof {
            best_way_shape(es, pos as int, m);
        }
        let (_, ei) = match best[pos] {
            Some(x) => x,
            None => {
                return None;
            },
        };
        proof {
            let b = best_to(es, pos as int, m)->0;
            assert(es[ei as int] == edges@[ei as int]@);
            assert(chain_to(es, pos as int) == chain_to(es, es[ei as int].start).push(ei as int));
            assert(chain_to(es, es[ei as int].start) + (seq![ei as int] + taken) =~= whole);
            taken = seq![ei as int] + taken;
        }
        back.push(ei);
        pos = edges[ei].start;
    }
    proof {
        assert(chain_to(es, 0) =~= seq![]);
        assert(taken =~= whole);
    }
    if back.len() < 2 {
        return None;
    }
    let mut text = String::new();
    let mut i: usize = back.len();
    assert(whole.take(0) =~= seq![]);
    while i > 0
        invariant
            i <= back@.len(),
            es == views(edges@),
            whole.len() == back@.len(),
            forall|k: int|
                0 <= k < back@.len() ==> #[trigger] back@[k] < edges@.len() && whole[whole.len() - 1
                    - k] == back@[k],
            text@ == chain_text(es, whole.take(whole.len() - i)),
        decreases i,
    {
        i -= 1;
        let ei: usize = back[i];
        proof {
            let t = whole.take(whole.len() - i);
            assert(t.drop_last() =~= whole.take(whole.len() - i - 1));
            assert(t.last() == ei as int);
            assert(es[ei as int] == edges@[ei as int]@);
        }
        text.append(edges[ei].text.as_str());
    }
    assert(whole.take(whole.len() as int) =~= whole);
    if text.as_str().is_empty() {
        return None;
    }
    let score = match best[len] {
        Some((s, _)) => s,
        None => Score::zero(),
    };
    Some((text, score))
}

fn unit_score(units: usize) -> (r: Score)
    ensures
        r == unit_bonus(units as int),
{
    if units > i32::MAX as usize {
        return Score::zero();
    }
    let n: i64 = SENTENCE_UNIT_BONUS_MILLI as i64 * units as i64;
    if n > i32::MAX as i64 {
        Score::from_milli_log(i32::MAX)
    } else {
        Score::from_milli_log(n as i32)
    }
}

// ---------------------------------------------------------------------------
// Spelling graphs
// ---------------------------------------------------------------------------

/// Reads the segment through the spelling table, then looks the codes up.
#[derive(Debug)]
pub struct SpellingGraphTranslator {
    pub spelling: Arc<SpellingTable>,
    pub lexicon: Arc<InMemoryLexicon>,
    pub completion: bool,
    pub quality: Score,
}

/// The words that a reading contributes to a sentence from `start`.
pub open spec fn edges_by(ws: Seq<Word>, start: int, p: Path) -> Seq<Span2Word> {
    let found = poured(
        seq![],
        word_cands(words_under(ws, p.reading.code), p.reading.code.len() as int, normal()),
        SENTENCE_CHOICES as int,
    );
    Seq::new(
        found.len(),
        |i: int|
            Span2Word {
                start,
                end: start + p.pos,
                text: found[i].text,
                score: plus(found[i].score, p.reading.cost),
                units: p.reading.code.len() as int,
            },
    )
}

/// The words that a list of readings contributes.
pub open spec fn edges_by_all(ws: Seq<Word>, start: int, ps: Seq<Path>) -> Seq<Span2Word>
    decreases ps.len(),
{
    if ps.len() == 0 {
        seq![]
    } else {
        edges_by_all(ws, start, ps.drop_last()) + edges_by(ws, start, ps.last())
    }
}

/// The places from which words are looked for: the beginning, and wherever a
/// reading of a prefix ends.
pub open spec fn starts_of(ps: Seq<Path>, len: int) -> Set<int> {
    Set::new(
        |p: int| p == 0 || (p < len && exists|i: int| 0 <= i < ps.len() && (#[trigger] ps[i]).pos == p),
    )
}

/// The words of a sentence graph, by rising start.
pub open spec fn graph_edges(
    t: &SpellingTable,
    ws: Seq<Word>,
    s: Seq<char>,
    starts: Set<int>,
    n: int,
) -> Seq<Span2Word>
    decreases n,
{
    if n <= 0 {
        seq![]
    } else {
        graph_edges(t, ws, s, starts, n - 1) + (if starts.contains(n - 1) {
            edges_by_all(ws, n - 1, t.paths(s.skip(n - 1), SENTENCE_PATHS as int))
        } else {
            seq![]
        })
    }
}

/// The sentence that a table and a lexicon give for an input, with its score.
pub open spec fn sentence_for(t: &SpellingTable, ws: Seq<Word>, s: Seq<char>) -> Option<
    (Seq<char>, Score),
> {
    if bytes_len(s) < 2 {
        None
    } else {
        let starts = starts_of(t.paths(s, SENTENCE_PATHS as int), s.len() as int);
        best_sentence(graph_edges(t, ws, s, starts, s.len() as int), s.len() as int)
    }
}

/// A sentence as a candidate.
pub open spec fn sentence_cand(text: Seq<char>, score: Score, span: Span, bytes: int) -> Cand {
    Cand {
        text,
        comment: None,
        score,
        origin: Origin::Sentence,
        attr: normal(),
        span: Span { start: span.start, end: (span.start + bytes) as usize },
        lane: Lane::Input,
        kind: CandidateKind::Normal,
        key: None,
    }
}

/// Whether some candidate has this text.
pub open spec fn has_text(cands: Seq<Cand>, text: Seq<char>) -> bool {
    exists|i: int| 0 <= i < cands.len() && (#[trigger] cands[i]).text == text
}

/// The sentence for an input, unless it is there already.
pub open spec fn sentence_cands(
    t: &SpellingTable,
    ws: Seq<Word>,
    s: Seq<char>,
    span: Span,
    there: Seq<Cand>,
) -> Seq<Cand> {
    match sentence_for(t, ws, s) {
        None => seq![],
        Some((text, score)) => if has_text(there, text) {
            seq![]
        } else {
            seq![sentence_cand(text, score, span, bytes_len(s) as int)]
        },
    }
}

/// Whether a reading of the whole input, of two units or more, is a word.
pub open spec fn covers_whole(ws: Seq<Word>, ps: Seq<Path>, len: int) -> bool {
    exists|i: int|
        0 <= i < ps.len() && (#[trigger] ps[i]).pos >= len && ps[i].reading.code.len() >= 2
            && words_under(ws, ps[i].reading.code).len() > 0
}

/// What is left over of the input, priced.
pub open spec fn leftover(s: Seq<char>, pos: int) -> Score {
    milli(PREFIX_PENALTY_MILLI_PER_BYTE * (bytes_len(s) - bytes_len(s.take(pos))))
}

/// A candidate after the graph translator has priced and placed it.
pub open spec fn graph_priced(
    c: Cand,
    p: Path,
    s: Seq<char>,
    completion: bool,
    quality: Score,
    span: Span,
    key: Option<Seq<char>>,
) -> Cand {
    let base = plus(plus(c.score, p.reading.cost), leftover(s, p.pos));
    let guessed = completion && c.attr.completion;
    Cand {
        score: plus(
            if guessed {
                plus(base, milli(COMPLETION_COST_MILLI as int))
            } else {
                base
            },
            quality,
        ),
        attr: if guessed {
            c.attr
        } else {
            attr_union(c.attr, p.reading.attr)
        },
        span: Span { start: span.start, end: (span.start + bytes_len(s.take(p.pos))) as usize },
        key,
        ..c
    }
}

/// The candidates of one reading. Only a canonical reading of the whole input
/// is completed.
pub open spec fn path_cands(
    ws: Seq<Word>,
    units: Seq<Seq<char>>,
    p: Path,
    s: Seq<char>,
    completion: bool,
    quality: Score,
    span: Span,
) -> Seq<Cand> {
    found_words(
        ws,
        p.reading.code,
        completion && p.pos >= s.len() && p.reading.attr == normal(),
    ).map_values(
        |c: Cand|
            graph_priced(c, p, s, completion, quality, span, key_of(units, p.reading.code)),
    )
}

/// `there` with the candidates of the readings from `i` on, until the buffer
/// holds as many as one translation may give.
pub open spec fn emitted(
    ws: Seq<Word>,
    units: Seq<Seq<char>>,
    ps: Seq<Path>,
    i: int,
    s: Seq<char>,
    completion: bool,
    quality: Score,
    span: Span,
    there: Seq<Cand>,
    cap: int,
) -> Seq<Cand>
    decreases ps.len() - i,
{
    if i < 0 || i >= ps.len() {
        there
    } else {
        let more = path_cands(ws, units, ps[i], s, completion, quality, span);
        let next = poured(there, more, cap);
        if more.len() > 0 && next.len() >= TRANSLATE_CAP {
            next
        } else {
            emitted(ws, units, ps, i + 1, s, completion, quality, span, next, cap)
        }
    }
}

/// What the graph translator makes of a segment: the sentence, where no word
/// covers it, then the words of its readings.
pub open spec fn graph_cands(
    t: &SpellingTable,
    ws: Seq<Word>,
    completion: bool,
    quality: Score,
    s: Seq<char>,
    span: Span,
    there: Seq<Cand>,
    cap: int,
) -> Seq<Cand> {
    let ps = t.paths(s, TRANSLATE_PATHS as int);
    let start = if covers_whole(ws, ps, s.len() as int) {
        there
    } else {
        poured(there, sentence_cands(t, ws, s, span, there), cap)
    };
    emitted(ws, t.alphabet@, ps, 0, s, completion, quality, span, start, cap)
}

fn leftover_score(bytes: usize) -> (r: Score)
    ensures
        r == milli(PREFIX_PENALTY_MILLI_PER_BYTE * bytes),
{
    if bytes > i32::MAX as usize {
        return Score::from_milli_log(i32::MIN);
    }
    let n: i64 = PREFIX_PENALTY_MILLI_PER_BYTE as i64 * bytes as i64;
    if n < i32::MIN as i64 {
        Score::from_milli_log(i32::MIN)
    } else {
        Score::from_milli_log(n as i32)
    }
}

impl SpellingGraphTranslator {
    pub fn new(spelling: Arc<SpellingTable>, lexicon: Arc<InMemoryLexicon>) -> (r: Self)
        ensures
            r.spelling == spelling,
            r.lexicon == lexicon,
            !r.completion,
            r.quality == milli(0),
    {
        SpellingGraphTranslator { spelling, lexicon, completion: false, quality: Score::zero() }
    }

    /// Switches completion of words on or off.
    #[must_use]
    pub fn with_completion(self, on: bool) -> (r: Self)
        ensures
            r == (SpellingGraphTranslator { completion: on, ..self }),
    {
        let mut r = self;
        r.completion = on;
        r
    }

    /// Sets what is added to the score of every candidate: nothing, where
    /// nothing is said.
    #[must_use]
    pub fn with_initial_quality(self, quality: Option<Score>) -> (r: Self)
        ensures
            r == (SpellingGraphTranslator { quality: quality_of(quality), ..self }),
    {
        let mut r = self;
        r.quality = match quality {
            Some(q) => q,
            None => Score::zero(),
        };
        r
    }

    /// The words that the readings of the input from `start` on contribute.
    fn edges_from(&self, cs: &Vec<char>, start: usize, edges: &mut Vec<WordEdge>)
        requires
            self.spelling.wf(),
            start < cs.len(),
            forall|i: int|
                0 <= i < old(edges)@.len() ==> (#[trigger] old(edges)@[i]).start
                    < old(edges)@[i].end <= cs.len(),
        ensures
            views(final(edges)@) == views(old(edges)@) + edges_by_all(
                self.lexicon.words(),
                start as int,
                self.spelling.paths(cs@.skip(start as int), SENTENCE_PATHS as int),
            ),
            forall|i: int|
                0 <= i < final(edges)@.len() ==> (#[trigger] final(edges)@[i]).start
                    < final(edges)@[i].end <= cs.len(),
    {
        let ghost before = views(edges@);
        let ghost ws = self.lexicon.words();
        let mut rest: Vec<char> = Vec::new();
        let mut k: usize = start;
        while k < cs.len()
            invariant
                start <= k <= cs.len(),
                rest@ == cs@.subrange(start as int, k as int),
            decreases cs.len() - k,
        {
            rest.push(cs[k]);
            k += 1;
            assert(rest@ =~= cs@.subrange(start as int, k as int));
        }
        assert(rest@ =~= cs@.skip(start as int));
        let paths = self.spelling.expand_paths(&rest, SENTENCE_PATHS);
        let ghost ps = views(paths@);
        let mut n: usize = 0;
        assert(ps.take(0) =~= seq![]);
        assert(before + edges_by_all(ws, start as int, ps.take(0)) =~= before);
        while n < paths.len()
            invariant
                n <= paths.len(),
                start < cs.len(),
                rest@ == cs@.skip(start as int),
                ws == self.lexicon.words(),
                ps == views(paths@),
                forall|i: int|
                    0 <= i < paths@.len() ==> 0 < (#[trigger] paths@[i]).consumed <= rest@.len(),
                forall|i: int|
                    0 <= i < edges@.len() ==> (#[trigger] edges@[i]).start < edges@[i].end
                        <= cs.len(),
                views(edges@) == before + edges_by_all(ws, start as int, ps.take(n as int)),
            decreases paths.len() - n,
        {
            let p = &paths[n];
            let mut words: Vec<Candidate> = Vec::new();
            assert(views(words@) =~= seq![]);
            self.lexicon.lookup(&p.code, &mut words, SENTENCE_CHOICES);
            let ghost had = views(edges@);
            let ghost new = edges_by(ws, start as int, p@);
            let mut i: usize = 0;
            assert(had + new.take(0) =~= had);
            while i < words.len()
                invariant
                    i <= words.len(),
                    start < cs.len(),
                    0 < p.consumed <= cs.len() - start,
                    new == edges_by(ws, start as int, p@),
                    views(words@) == poured(
                        seq![],
                        word_cands(
                            words_under(ws, p@.reading.code),
                            p@.reading.code.len() as int,
                            normal(),
                        ),
                        SENTENCE_CHOICES as int,
                    ),
                    views(edges@) == had + new.take(i as int),
                    forall|j: int|
                        0 <= j < edges@.len() ==> (#[trigger] edges@[j]).start < edges@[j].end
                            <= cs.len(),
                decreases words.len() - i,
            {
                let ghost was = edges@;
                let w = &words[i];
                assert(views(words@)[i as int] == w@);
                edges.push(
                    WordEdge {
                        start,
                        end: start + p.consumed,
                        text: w.text.clone(),
                        score: w.score.saturating_add(p.cost),
                        units: p.code.len(),
                    },
                );
                assert(edges@.last()@ == new[i as int]);
                assert(views(edges@) =~= views(was).push(new[i as int]));
                assert(new.take(i + 1) =~= new.take(i as int).push(new[i as int]));
                i += 1;
                assert(views(edges@) =~= had + new.take(i as int));
            }
            proof {
                assert(new.take(i as int) =~= new);
                let t = ps.take(n + 1);
                assert(t.drop_last() =~= ps.take(n as int));
                assert(t.last() == p@);
                assert(views(edges@) =~= before + edges_by_all(ws, start as int, t));
            }
            n += 1;
        }
        assert(ps.take(n as int) =~= ps);
    }

    /// Joins words into a sentence where the lexicon has no word for the whole
    /// input.
    fn make_sentence(&self, input: &str, span: Span, out: &mut Vec<Candidate>, cap: usize)
        requires
            self.spelling.wf(),
            span.start + bytes_len(input@) <= usize::MAX,
        ensures
            views(final(out)@) == poured(
                views(old(out)@),
                sentence_cands(
                    &self.spelling,
                    self.lexicon.words(),
                    input@,
                    span,
                    views(old(out)@),
                ),
                cap as int,
            ),
    {
        let ghost before = views(out@);
        assert(poured(before, seq![], cap as int) =~= before);
        let bytes: usize = byte_len(input);
        if bytes < 2 {
            return ;
        }
        let cs = to_chars(input);
        proof {
            bytes_cover_chars(input@);
        }
        let probe = self.spelling.expand_paths(&cs, SENTENCE_PATHS);
        let ghost starts = starts_of(views(probe@), cs@.len() as int);
        let ghost ws = self.lexicon.words();
        let mut edges: Vec<WordEdge> = Vec::new();
        let mut start: usize = 0;
        assert(views(edges@) =~= graph_edges(&self.spelling, ws, cs@, starts, 0));
        while start < cs.len()
            invariant
                start <= cs.len(),
                self.spelling.wf(),
                ws == self.lexicon.words(),
                starts == starts_of(views(probe@), cs@.len() as int),
                forall|i: int|
                    0 <= i < edges@.len() ==> (#[trigger] edges@[i]).start < edges@[i].end
                        <= cs.len(),
                views(edges@) == graph_edges(&self.spelling, ws, cs@, starts, start as int),
            decreases cs.len() - start,
        {
            let mut used = start == 0;
            let mut i: usize = 0;
            while i < probe.len() && !used
                invariant
                    i <= probe.len(),
                    start < cs.len(),
                    starts == starts_of(views(probe@), cs@.len() as int),
                    used ==> starts.contains(start as int),
                    !used ==> start != 0 && forall|j: int|
                        0 <= j < i ==> (#[trigger] views(probe@)[j]).pos != start,
                decreases probe.len() - i,
            {
                assert(views(probe@)[i as int] == probe@[i as int]@);
                if probe[i].consumed == start {
                    used = true;
                }
                i += 1;
            }
            let ghost had = views(edges@);
            if used {
                self.edges_from(&cs, start, &mut edges);
            } else {
                assert(had + seq![] =~= had);
            }
            start += 1;
        }
        let found = join_words(&edges, cs.len());
        if let Some((text, score)) = found {
            let mut i: usize = 0;
            while i < out.len()
                invariant
                    i <= out.len(),
                    views(out@) == before,
                    sentence_for(&self.spelling, ws, input@) == Some((text@, score)),
                    ws == self.lexicon.words(),
                    poured(before, seq![], cap as int) == before,
                    forall|j: int| 0 <= j < i ==> (#[trigger] before[j]).text != text@,
                decreases out.len() - i,
            {
                assert(before[i as int] == out@[i as int]@);
                if same_text(out[i].text.as_str(), text.as_str()) {
                    assert(has_text(before, text@));
                    return ;
                }
                i += 1;
            }
            assert(!has_text(before, text@)) by {
                assert(before.len() == out@.len());
            }
            push_capped(
                out,
                cap,
                Candidate {
                    text,
                    comment: None,
                    score,
                    origin: Origin::Sentence,
                    attr: SpellingAttr::normal(),
                    span: Span::new(span.start, span.start + bytes),
                    lane: Lane::Input,
                    kind: CandidateKind::Normal,
                    key: None,
                },
            );
        }
    }

    /// Whether a reading of the whole input is a word of two units or more.
    fn whole_is_a_word(&self, paths: &Vec<SpellingPath>, len: usize) -> (r: bool)
        ensures
            r == covers_whole(self.lexicon.words(), views(paths@), len as int),
    {
        let ghost ws = self.lexicon.words();
        let ghost ps = views(paths@);
        let mut i: usize = 0;
        while i < paths.len()
            invariant
                i <= paths.len(),
                ws == self.lexicon.words(),
                ps == views(paths@),
                forall|j: int|
                    0 <= j < i ==> !((#[trigger] ps[j]).pos >= len && ps[j].reading.code.len() >= 2
                        && words_under(ws, ps[j].reading.code).len() > 0),
            decreases paths.len() - i,
        {
            let p = &paths[i];
            assert(ps[i as int] == p@);
            if p.consumed >= len && p.code.len() >= 2 {
                let mut raw: Vec<Candidate> = Vec::new();
                assert(views(raw@) =~= seq![]);
                self.lexicon.lookup(&p.code, &mut raw, 1);
                assert(views(raw@).len() == raw@.len());
                if raw.len() > 0 {
                    return true;
                }
            }
            i += 1;
        }
        false
    }

    /// Appends the candidates for a segment to a buffer of `cap` places.
    pub fn translate(&self, segment: &str, span: Span, out: &mut Vec<Candidate>, cap: usize)
        requires
            self.spelling.wf(),
            span.start + bytes_len(segment@) <= usize::MAX,
        ensures
            views(final(out)@) == graph_cands(
                &self.spelling,
                self.lexicon.words(),
                self.completion,
                self.quality,
                segment@,
                span,
                views(old(out)@),
                cap as int,
            ),
    {
        let ghost there = views(out@);
        let cs = to_chars(segment);
        let bytes: usize = byte_len(segment);
        let paths = self.spelling.expand_paths(&cs, TRANSLATE_PATHS);
        if !self.whole_is_a_word(&paths, cs.len()) {
            self.make_sentence(segment, span, out, cap);
        }
        let ghost ws = self.lexicon.words();
        let ghost units = self.spelling.alphabet@;
        let ghost ps = views(paths@);
        let ghost goal = emitted(
            ws,
            units,
            ps,
            0,
            cs@,
            self.completion,
            self.quality,
            span,
            views(out@),
            cap as int,
        );
        let mut n: usize = 0;
        while n < paths.len()
            invariant
                n <= paths.len(),
                cs@ == segment@,
                bytes == bytes_len(segment@),
                span.start + bytes <= usize::MAX,
                there == views(old(out)@),
                goal == graph_cands(
                    &self.spelling,
                    ws,
                    self.completion,
                    self.quality,
                    segment@,
                    span,
                    there,
                    cap as int,
                ),
                ws == self.lexicon.words(),
                units == self.spelling.alphabet@,
                ps == views(paths@),
                forall|i: int|
                    0 <= i < paths@.len() ==> 0 < (#[trigger] paths@[i]).consumed <= cs@.len(),
                goal == emitted(
                    ws,
                    units,
                    ps,
                    n as int,
                    cs@,
                    self.completion,
                    self.quality,
                    span,
                    views(out@),
                    cap as int,
                ),
            decreases paths.len() - n,
        {
            let p = &paths[n];
            assert(ps[n as int] == p@);
            let complete = self.completion && p.consumed >= cs.len() && !p.attr.is_derived();
            let raw = look_up(&self.lexicon, &p.code, complete);
            let ghost had = views(out@);
            let ghost more = path_cands(
                ws,
                units,
                p@,
                cs@,
                self.completion,
                self.quality,
                span,
            );
            assert(raw@.len() == more.len());
            let key = code_key(&self.spelling.alphabet, &p.code);
            let used: usize = byte_len(part(&cs, 0, p.consumed).as_str());
            proof {
                assert(cs@.subrange(0, p.consumed as int) =~= cs@.take(p.consumed as int));
                prefix_bytes(cs@, p.consumed as int);
            }
            let rest_penalty = leftover_score(bytes - used);
            let place = Span::new(span.start, span.start + used);
            let mut i: usize = 0;
            assert(poured(had, more.take(0), cap as int) =~= had);
            while i < raw.len()
                invariant
                    i <= raw.len(),
                    text_opt(key) == key_of(units, p@.reading.code),
                    used == bytes_len(cs@.take(p@.pos)),
                    place == (Span { start: span.start, end: (span.start + used) as usize }),
                    rest_penalty == leftover(cs@, p@.pos),
                    complete == (self.completion && p@.pos >= cs@.len() && p@.reading.attr
                        == normal()),
                    views(raw@) == found_words(ws, p@.reading.code, complete),
                    more == path_cands(
                        ws,
                        units,
                        p@,
                        cs@,
                        self.completion,
                        self.quality,
                        span,
                    ),
                    views(out@) == poured(had, more.take(i as int), cap as int),
                decreases raw.len() - i,
            {
                let mut c = raw[i].clone();
                assert(c@ == views(raw@)[i as int]);
                c.score = c.score.saturating_add(p.cost).saturating_add(rest_penalty);
                if self.completion && c.attr.completion {
                    c.score = c.score.saturating_add(Score::from_milli_log(COMPLETION_COST_MILLI));
                } else {
                    c.attr = c.attr.union(p.attr);
                }
                c.score = c.score.saturating_add(self.quality);
                c.span = place;
                c.key = crate::candidate::copy_opt(&key);
                assert(c@ == more[i as int]);
                push_capped(out, cap, c);
                proof {
                    poured_twice(had, more.take(i as int), seq![more[i as int]], cap as int);
                    assert(more.take(i as int) + seq![more[i as int]] =~= more.take(i + 1));
                }
                i += 1;
            }
            assert(more.take(i as int) =~= more);
            assert(views(out@).len() == out@.len());
            if raw.len() > 0 && out.len() >= TRANSLATE_CAP {
                return ;
            }
            n += 1;
        }
    }
}

// ---------------------------------------------------------------------------
// The fallback
// ---------------------------------------------------------------------------

/// How far above the lowest score of all the input itself stands.
pub const ECHO_LIFT_MILLI: i32 = 1;

/// Offers the input itself, last of all, so that what was typed can always be
/// committed.
#[derive(Clone, Copy, Debug)]
pub struct EchoTranslator {
    /// How far above the lowest score the input stands.
    pub lift: Score,
}

impl Default for EchoTranslator {
    fn default() -> (r: Self)
        ensures
            r.lift == milli(ECHO_LIFT_MILLI as int),
    {
        EchoTranslator::new()
    }
}

/// The input as a candidate.
pub open spec fn echo_cands(input: Seq<char>, span: Span, lift: Score) -> Seq<Cand> {
    if input.len() == 0 {
        seq![]
    } else {
        seq![
            Cand {
                text: input,
                comment: None,
                score: plus(Score { milli: i32::MIN }, lift),
                origin: Origin::Literal,
                attr: normal(),
                span,
                lane: Lane::Input,
                kind: CandidateKind::Normal,
                key: None,
            },
        ]
    }
}

impl EchoTranslator {
    #[must_use]
    pub fn new() -> (r: Self)
        ensures
            r.lift == milli(ECHO_LIFT_MILLI as int),
    {
        EchoTranslator { lift: Score::from_milli_log(ECHO_LIFT_MILLI) }
    }

    /// Appends the input to a buffer of `cap` places.
    pub fn translate(&self, input: &str, span: Span, out: &mut Vec<Candidate>, cap: usize)
        ensures
            views(final(out)@) == poured(
                views(old(out)@),
                echo_cands(input@, span, self.lift),
                cap as int,
            ),
    {
        if input.is_empty() {
            assert(poured(views(out@), seq![], cap as int) =~= views(out@));
            return ;
        }
        push_capped(
            out,
            cap,
            Candidate {
                text: input.to_owned(),
                comment: None,
                score: Score::floor().saturating_add(self.lift),
                origin: Origin::Literal,
                attr: SpellingAttr::normal(),
                span,
                lane: Lane::Input,
                kind: CandidateKind::Normal,
                key: None,
            },
        );
    }
}

// ---------------------------------------------------------------------------
// Laws
// ---------------------------------------------------------------------------

/// No word that can end a way to `j` scores better than the way that was kept.
pub proof fn kept_way_is_best(edges: Seq<Span2Word>, j: int, n: int, i: int)
    requires
        0 <= i < n <= edges.len(),
        j > 0,
    ensures
        way_by(edges, j, i) matches Some(w) ==> (best_to(edges, j, n) matches Some(b)
            && w.score.milli <= b.score.milli && (w.score.milli == b.score.milli ==> b.words
            <= w.words)),
    decreases n,
{
    let w = way_by(edges, j, n - 1);
    if i < n - 1 {
        kept_way_is_best(edges, j, n - 1, i);
    }
}

/// A chain of words covers the input up to its end without gap or overlap, and
/// holds as many words as were counted.
pub proof fn chain_covers_the_input(edges: Seq<Span2Word>, j: int)
    requires
        best_to(edges, j, edges.len() as int) is Some,
    ensures
        ({
            let c = chain_to(edges, j);
            &&& c.len() == (best_to(edges, j, edges.len() as int)->0).words
            &&& c.len() <= MAX_SENTENCE_WORDS
            &&& forall|i: int| 0 <= i < c.len() ==> 0 <= #[trigger] c[i] < edges.len()
            &&& j > 0 ==> c.len() >= 1 && edges[c[0]].start == 0 && edges[c.last()].end == j
            &&& forall|i: int|
                0 < i < c.len() ==> edges[c[i - 1]].end == edges[#[trigger] c[i]].start
        }),
    decreases j,
{
    let m = edges.len() as int;
    best_way_shape(edges, j, m);
    if j > 0 {
        let b = best_to(edges, j, m)->0;
        let s = edges[b.edge].start;
        assert(way_by(edges, j, b.edge) == Some(b));
        chain_covers_the_input(edges, s);
        let head = chain_to(edges, s);
        let c = chain_to(edges, j);
        assert(c =~= head.push(b.edge));
        best_way_shape(edges, s, m);
        assert forall|i: int| 0 < i < c.len() implies edges[c[i - 1]].end == edges[#[trigger] c[i]].start by {
            if i < head.len() {
                assert(head[i] == c[i] && head[i - 1] == c[i - 1]);
            } else {
                assert(c[i] == b.edge);
                assert(c[i - 1] == head.last());
            }
        }
        assert forall|i: int| 0 <= i < c.len() implies 0 <= #[trigger] c[i] < edges.len() by {
            if i < head.len() {
                assert(c[i] == head[i]);
            }
        }
    }
}

/// What is typed in full outranks a completion of equal weight under the same
/// reading, wherever the scores are in range.
pub proof fn completion_ranks_below_exact(
    c: Cand,
    p: Path,
    s: Seq<char>,
    quality: Score,
    span: Span,
    key: Option<Seq<char>>,
)
    requires
        !c.attr.completion,
        plus(plus(c.score, p.reading.cost), leftover(s, p.pos)).milli > i32::MIN
            - COMPLETION_COST_MILLI,
        i32::MIN - COMPLETION_COST_MILLI - quality.milli < plus(
            plus(c.score, p.reading.cost),
            leftover(s, p.pos),
        ).milli < i32::MAX - quality.milli,
    ensures
        ({
            let guess = Cand {
                attr: SpellingAttr { completion: true, ..c.attr },
                ..c
            };
            graph_priced(guess, p, s, true, quality, span, key).score.milli < graph_priced(
                c,
                p,
                s,
                true,
                quality,
                span,
                key,
            ).score.milli
        }),
{
}

/// A dearer reading, or one that leaves more of the input over, never lifts a
/// word above what a cheaper one gives it; where the scores are in range, the
/// dearer reading puts it below.
pub proof fn dearer_readings_rank_lower(
    c: Cand,
    p: Path,
    q: Path,
    s: Seq<char>,
    quality: Score,
    span: Span,
    keys: (Option<Seq<char>>, Option<Seq<char>>),
)
    requires
        !c.attr.completion,
        p.reading.cost.milli <= q.reading.cost.milli,
        0 <= p.pos <= q.pos <= s.len(),
    ensures
        graph_priced(c, p, s, true, quality, span, keys.0).score.milli <= graph_priced(
            c,
            q,
            s,
            true,
            quality,
            span,
            keys.1,
        ).score.milli,
        ({
            let low = plus(plus(c.score, p.reading.cost), leftover(s, p.pos)).milli;
            let high = plus(plus(c.score, q.reading.cost), leftover(s, q.pos)).milli;
            &&& p.reading.cost.milli < q.reading.cost.milli
            &&& p.pos == q.pos
            &&& i32::MIN < c.score.milli + p.reading.cost.milli
            &&& c.score.milli + q.reading.cost.milli < i32::MAX
            &&& i32::MIN < low
            &&& high < i32::MAX
            &&& i32::MIN < low + quality.milli
            &&& high + quality.milli < i32::MAX
        }) ==> graph_priced(c, p, s, true, quality, span, keys.0).score.milli < graph_priced(
            c,
            q,
            s,
            true,
            quality,
            span,
            keys.1,
        ).score.milli,
{
    prefix_bytes(s.take(q.pos), p.pos);
    assert(s.take(q.pos).take(p.pos) =~= s.take(p.pos));
}

proof fn poured_from(a: Seq<Cand>, b: Seq<Cand>, cap: int)
    requires
        forall|i: int| 0 <= i < a.len() ==> (#[trigger] a[i]).origin != Origin::Sentence,
        forall|i: int| 0 <= i < b.len() ==> (#[trigger] b[i]).origin != Origin::Sentence,
    ensures
        forall|i: int|
            0 <= i < poured(a, b, cap).len() ==> (#[trigger] poured(a, b, cap)[i]).origin
                != Origin::Sentence,
{
}

proof fn emitted_are_words(
    ws: Seq<Word>,
    units: Seq<Seq<char>>,
    ps: Seq<Path>,
    i: int,
    s: Seq<char>,
    completion: bool,
    quality: Score,
    span: Span,
    there: Seq<Cand>,
    cap: int,
)
    requires
        forall|k: int| 0 <= k < there.len() ==> (#[trigger] there[k]).origin != Origin::Sentence,
    ensures
        ({
            let all = emitted(ws, units, ps, i, s, completion, quality, span, there, cap);
            forall|k: int| 0 <= k < all.len() ==> (#[trigger] all[k]).origin != Origin::Sentence
        }),
    decreases ps.len() - i,
{
    if 0 <= i < ps.len() {
        let p = ps[i];
        let code = p.reading.code;
        let exact = word_cands(words_under(ws, code), code.len() as int, normal());
        poured_from(seq![], exact, TRANSLATE_CAP as int);
        let longer = word_cands(
            words_from(ws, code, true),
            code.len() as int,
            SpellingAttr { fuzzy: false, abbrev: false, completion: true },
        );
        poured_from(poured(seq![], exact, TRANSLATE_CAP as int), longer, TRANSLATE_CAP as int);
        let more = path_cands(ws, units, p, s, completion, quality, span);
        poured_from(there, more, cap);
        emitted_are_words(
            ws,
            units,
            ps,
            i + 1,
            s,
            completion,
            quality,
            span,
            poured(there, more, cap),
            cap,
        );
    }
}

/// Where a word covers the whole input, no sentence is put together for it.
pub proof fn words_leave_no_room_for_sentences(
    t: &SpellingTable,
    ws: Seq<Word>,
    completion: bool,
    quality: Score,
    s: Seq<char>,
    span: Span,
    there: Seq<Cand>,
    cap: int,
)
    requires
        covers_whole(ws, t.paths(s, TRANSLATE_PATHS as int), s.len() as int),
        forall|k: int| 0 <= k < there.len() ==> (#[trigger] there[k]).origin != Origin::Sentence,
    ensures
        ({
            let all = graph_cands(t, ws, completion, quality, s, span, there, cap);
            forall|k: int| 0 <= k < all.len() ==> (#[trigger] all[k]).origin != Origin::Sentence
        }),
{
    let ps = t.paths(s, TRANSLATE_PATHS as int);
    emitted_are_words(ws, t.alphabet@, ps, 0, s, completion, quality, span, there, cap);
}

// ---------------------------------------------------------------------------
// What sentences are made of
// ---------------------------------------------------------------------------

/// What the words of a chain weigh: their scores, and three hundred for every
/// unit.
pub open spec fn weight_of(edges: Seq<Span2Word>, chain: Seq<int>) -> int
    decreases chain.len(),
{
    if chain.len() == 0 {
        0
    } else {
        let e = edges[chain.last()];
        weight_of(edges, chain.drop_last()) + e.score.milli + 300 * e.units
    }
}

/// Whether a chain of words leads from the beginning to `j`, without gap or
/// overlap.
pub open spec fn leads_to(edges: Seq<Span2Word>, chain: Seq<int>, j: int) -> bool {
    &&& forall|i: int|
        0 <= i < chain.len() ==> 0 <= #[trigger] chain[i] < edges.len() && 0
            <= edges[chain[i]].start < edges[chain[i]].end
    &&& chain.len() == 0 ==> j == 0
    &&& chain.len() > 0 ==> edges[chain[0]].start == 0 && edges[chain.last()].end == j
    &&& forall|i: int|
        0 < i < chain.len() ==> edges[chain[i - 1]].end == edges[#[trigger] chain[i]].start
}

/// Whether no sum of the scores of eight words can leave the range of a score.
pub open spec fn modest(edges: Seq<Span2Word>) -> bool {
    forall|i: int|
        0 <= i < edges.len() ==> -100_000_000 <= (#[trigger] edges[i]).score.milli <= 100_000_000
            && 0 <= edges[i].units <= 100_000
}

/// Whether no way that was kept before `j` has eight words already, so that
/// each of them can go on.
pub open spec fn can_go_on(edges: Seq<Span2Word>, j: int) -> bool {
    forall|p: int|
        0 <= p < j ==> (#[trigger] best_to(edges, p, edges.len() as int) matches Some(b) ==> b.words
            < 8)
}

/// A way scores what its words weigh, less thirteen thousand five hundred for
/// every word of it, and it has eight words at most.
pub proof fn a_way_scores_what_its_words_weigh(edges: Seq<Span2Word>, j: int)
    requires
        modest(edges),
        best_to(edges, j, edges.len() as int) is Some,
    ensures
        ({
            let b = best_to(edges, j, edges.len() as int)->0;
            let c = chain_to(edges, j);
            &&& leads_to(edges, c, j)
            &&& c.len() == b.words <= 8
            &&& b.score.milli == weight_of(edges, c) - 13_500 * c.len()
            &&& -131_000_000 * c.len() <= b.score.milli <= 131_000_000 * c.len()
        }),
    decreases j,
{
    let m = edges.len() as int;
    chain_covers_the_input(edges, j);
    best_way_shape(edges, j, m);
    let c = chain_to(edges, j);
    if j > 0 {
        let b = best_to(edges, j, m)->0;
        let e = edges[b.edge];
        assert(way_by(edges, j, b.edge) == Some(b));
        a_way_scores_what_its_words_weigh(edges, e.start);
        let head = chain_to(edges, e.start);
        assert(c == head.push(b.edge));
        assert(c.drop_last() =~= head);
        assert forall|i: int| 0 <= i < c.len() implies 0 <= #[trigger] c[i] < edges.len() && 0
            <= edges[c[i]].start < edges[c[i]].end by {
            if i < head.len() {
                assert(c[i] == head[i]);
            }
        }
    }
}

proof fn shorter_chain_leads(edges: Seq<Span2Word>, c: Seq<int>, j: int)
    requires
        leads_to(edges, c, j),
        c.len() > 0,
    ensures
        leads_to(edges, c.drop_last(), edges[c.last()].start),
        0 <= edges[c.last()].start < j,
{
    let d = c.drop_last();
    assert(c.last() == c[c.len() - 1]);
    assert forall|i: int| 0 <= i < d.len() implies 0 <= #[trigger] d[i] < edges.len() && 0
        <= edges[d[i]].start < edges[d[i]].end by {
        assert(d[i] == c[i]);
    }
    assert forall|i: int| 0 < i < d.len() implies edges[d[i - 1]].end == edges[#[trigger] d[i]].start by {
        assert(d[i] == c[i] && d[i - 1] == c[i - 1]);
    }
    if d.len() > 0 {
        assert(d.last() == c[c.len() - 2]);
        assert(d[0] == c[0]);
    }
}

/// The way that is kept is the best there is: no chain of words that leads to
/// the same place weighs more, when thirteen thousand five hundred are taken
/// off for every word, and of equals none has fewer words.
pub proof fn no_chain_beats_the_kept_way(edges: Seq<Span2Word>, j: int, c: Seq<int>)
    requires
        modest(edges),
        leads_to(edges, c, j),
        can_go_on(edges, j),
    ensures
        best_to(edges, j, edges.len() as int) is Some,
        ({
            let k = chain_to(edges, j);
            let kept = weight_of(edges, k) - 13_500 * k.len();
            let other = weight_of(edges, c) - 13_500 * c.len();
            kept > other || (kept == other && k.len() <= c.len())
        }),
    decreases c.len(),
{
    let m = edges.len() as int;
    if c.len() > 0 {
        let n = c.last();
        let e = edges[n];
        shorter_chain_leads(edges, c, j);
        no_chain_beats_the_kept_way(edges, e.start, c.drop_last());
        a_way_scores_what_its_words_weigh(edges, e.start);
        assert(c.last() == c[c.len() - 1]);
        kept_way_is_best(edges, j, m, n);
        assert(way_by(edges, j, n) is Some);
        a_way_scores_what_its_words_weigh(edges, j);
    } else {
        assert(chain_to(edges, j) =~= seq![]);
    }
}

/// Of two ways over the same input whose words weigh the same, that with more
/// words is not kept.
pub proof fn fewer_words_win(edges: Seq<Span2Word>, j: int, c: Seq<int>, d: Seq<int>)
    requires
        modest(edges),
        leads_to(edges, c, j),
        leads_to(edges, d, j),
        can_go_on(edges, j),
        weight_of(edges, c) == weight_of(edges, d),
        c.len() < d.len(),
    ensures
        best_to(edges, j, edges.len() as int) is Some,
        chain_to(edges, j) != d,
        chain_to(edges, j).len() < d.len() || weight_of(edges, chain_to(edges, j)) > weight_of(
            edges,
            d,
        ),
{
    no_chain_beats_the_kept_way(edges, j, c);
    no_chain_beats_the_kept_way(edges, j, d);
}

/// The text of a chain is the text of its beginning and that of the rest behind
/// it; that of one word is the word.
pub proof fn chains_read_from_the_front(edges: Seq<Span2Word>, a: Seq<int>, b: Seq<int>, n: int)
    ensures
        chain_text(edges, a + b) == chain_text(edges, a) + chain_text(edges, b),
        chain_text(edges, seq![n]) == edges[n].text,
    decreases b.len(),
{
    reveal_with_fuel(chain_text, 2);
    let one = seq![n];
    assert(one.drop_last() =~= Seq::<int>::empty());
    assert(chain_text(edges, one) =~= edges[n].text);
    if b.len() == 0 {
        assert(a + b =~= a);
        assert(chain_text(edges, a + b) =~= chain_text(edges, a) + chain_text(edges, b));
    } else {
        chains_read_from_the_front(edges, a, b.drop_last(), n);
        assert((a + b).drop_last() =~= a + b.drop_last());
        assert((a + b).last() == b.last());
        assert(chain_text(edges, a + b) =~= chain_text(edges, a) + chain_text(edges, b));
    }
}

/// The sentence for an input is the text of a chain of two to eight words that
/// covers the input, has the score of that chain, and no other chain that
/// covers the input does better.
pub proof fn a_sentence_is_the_best_chain(edges: Seq<Span2Word>, len: int)
    requires
        modest(edges),
        len >= 0,
    ensures
        best_sentence(edges, len) matches Some((text, score)) ==> exists|k: Seq<int>|
            {
                &&& #[trigger] leads_to(edges, k, len)
                &&& 2 <= k.len() <= 8
                &&& text == chain_text(edges, k)
                &&& score.milli == weight_of(edges, k) - 13_500 * k.len()
                &&& can_go_on(edges, len) ==> forall|c: Seq<int>| #[trigger]
                    leads_to(edges, c, len) ==> weight_of(edges, c) - 13_500 * c.len()
                        <= score.milli
            },
{
    if best_sentence(edges, len) is Some {
        a_way_scores_what_its_words_weigh(edges, len);
        let k = chain_to(edges, len);
        if can_go_on(edges, len) {
            assert forall|c: Seq<int>| #[trigger] leads_to(edges, c, len) implies weight_of(
                edges,
                c,
            ) - 13_500 * c.len() <= (best_sentence(edges, len)->0).1.milli by {
                no_chain_beats_the_kept_way(edges, len, c);
            }
        }
        assert(leads_to(edges, k, len));
    }
}

/// Where words can be chained to cover the input, a sentence is found, unless
/// the best of the chains is a single word or has no text.
pub proof fn chains_give_a_sentence(edges: Seq<Span2Word>, len: int, c: Seq<int>)
    requires
        modest(edges),
        leads_to(edges, c, len),
        can_go_on(edges, len),
        forall|i: int|
            0 <= i < edges.len() ==> (#[trigger] edges[i]).text.len() > 0 && !(edges[i].start == 0
                && edges[i].end == len),
        len > 0,
    ensures
        best_sentence(edges, len) is Some,
{
    no_chain_beats_the_kept_way(edges, len, c);
    a_way_scores_what_its_words_weigh(edges, len);
    let k = chain_to(edges, len);
    if k.len() == 1 {
        assert(k[0] == k.last());
    }
    assert(chain_text(edges, k).len() >= edges[k.last()].text.len());
    assert(k.last() == k[k.len() - 1]);
}

/// The texts of the units of a code, side by side.
pub open spec fn code_text(units: Seq<Seq<char>>, code: Seq<CodeUnitId>) -> Seq<char>
    decreases code.len(),
{
    if code.len() == 0 {
        seq![]
    } else {
        code_text(units, code.drop_last()) + units[code.last().0 as int]
    }
}

proof fn code_text_from_the_front(units: Seq<Seq<char>>, u: CodeUnitId, rest: Seq<CodeUnitId>)
    ensures
        code_text(units, seq![u] + rest) == units[u.0 as int] + code_text(units, rest),
    decreases rest.len(),
{
    let all = seq![u] + rest;
    if rest.len() == 0 {
        reveal_with_fuel(code_text, 2);
        assert(all.drop_last() =~= Seq::<CodeUnitId>::empty());
        assert(code_text(units, all) =~= units[u.0 as int] + code_text(units, rest));
    } else {
        code_text_from_the_front(units, u, rest.drop_last());
        assert(all.drop_last() =~= seq![u] + rest.drop_last());
        assert(all.last() == rest.last());
        assert(code_text(units, all) =~= units[u.0 as int] + code_text(units, rest));
    }
}

proof fn the_longest_unit_stands(units: Seq<Seq<char>>, s: Seq<char>, pos: int, n: int)
    requires
        0 <= n <= units.len(),
    ensures
        match longest_unit(units, s, pos, n) {
            Some(u) => 0 <= u < n && stands_at(s, pos, units[u]) && forall|v: int|
                0 <= v < n && stands_at(s, pos, #[trigger] units[v]) ==> units[v].len()
                    <= units[u].len(),
            None => forall|v: int| 0 <= v < n ==> !stands_at(s, pos, #[trigger] units[v]),
        },
    decreases n,
{
    if n > 0 {
        the_longest_unit_stands(units, s, pos, n - 1);
    }
}

proof fn split_codes_spell(units: Seq<Seq<char>>, s: Seq<char>, pos: int)
    requires
        0 <= pos <= s.len(),
        units.len() <= u32::MAX,
    ensures
        split_code(units, s, pos) matches Some(code) ==> code_text(units, code) == s.skip(pos)
            && forall|i: int| 0 <= i < code.len() ==> (#[trigger] code[i]).0 < units.len(),
    decreases s.len() - pos,
{
    if pos >= s.len() {
        assert(s.skip(pos) =~= Seq::<char>::empty());
    } else {
        the_longest_unit_stands(units, s, pos, units.len() as int);
        if let Some(u) = longest_unit(units, s, pos, units.len() as int) {
            if 0 < units[u].len() <= s.len() - pos {
                let next = pos + units[u].len();
                split_codes_spell(units, s, next);
                if let Some(rest) = split_code(units, s, next) {
                    code_text_from_the_front(units, CodeUnitId(u as u32), rest);
                    assert(s.skip(pos) =~= units[u] + s.skip(next));
                }
            }
        }
    }
}

/// A segment that is cut into units is spelled by them, side by side: nothing of
/// it is left out. The first is the longest that stands at its beginning.
pub proof fn cut_codes_spell_the_segment(units: Seq<Seq<char>>, s: Seq<char>, v: int)
    requires
        units.len() <= u32::MAX,
        0 <= v < units.len(),
    ensures
        split_code(units, s, 0) matches Some(code) ==> {
            &&& code_text(units, code) == s
            &&& s.len() > 0 ==> code.len() > 0 && (units[v].is_prefix_of(s) ==> units[v].len()
                <= units[code[0].0 as int].len())
        },
{
    split_codes_spell(units, s, 0);
    assert(s.skip(0) =~= s);
    the_longest_unit_stands(units, s, 0, units.len() as int);
    if units[v].is_prefix_of(s) {
        assert(s.subrange(0, units[v].len() as int) =~= units[v]);
        assert(stands_at(s, 0, units[v]));
    }
}

/// The key of a code parts again into the texts of its units, as long as none of
/// them holds an apostrophe.
pub proof fn keys_part_into_units(units: Seq<Seq<char>>, code: Seq<CodeUnitId>)
    requires
        code.len() > 0,
        forall|i: int| 0 <= i < code.len() ==> (#[trigger] code[i]).0 < units.len(),
        forall|i: int| 0 <= i < units.len() ==> !(#[trigger] units[i]).contains('\''),
    ensures
        key_of(units, code) matches Some(key) && split_on(key, '\'') == Seq::new(
            code.len(),
            |i: int| units[code[i].0 as int],
        ),
    decreases code.len(),
{
    reveal_with_fuel(key_of, 2);
    let last = code[code.len() - 1];
    let w = units[last.0 as int];
    let none = Seq::<char>::empty();
    one_more_piece(w, none, '\'');
    assert(none + w =~= w);
    assert(split_on(none, '\'') =~= seq![none]);
    assert(split_on(w, '\'') =~= seq![w]);
    let all = Seq::new(code.len(), |i: int| units[code[i].0 as int]);
    if code.len() == 1 {
        assert(code.drop_last() =~= Seq::<CodeUnitId>::empty());
        assert(all =~= seq![w]);
    } else {
        let front = code.drop_last();
        assert forall|i: int| 0 <= i < front.len() implies (#[trigger] front[i]).0 < units.len() by {
            assert(front[i] == code[i]);
        }
        keys_part_into_units(units, front);
        let head = key_of(units, front)->0;
        separators_part(head, w, '\'');
        assert(head.push('\'') + w =~= head + seq!['\''] + w);
        assert(all =~= Seq::new(front.len(), |i: int| units[front[i].0 as int]) + seq![w]);
    }
}

/// What a word is worth under a code: its own score and what the translator
/// adds; one that goes on from the code is worth 2996 thousandths less.
pub proof fn exact_words_are_priced(c: Cand, quality: Score, span: Span, key: Option<Seq<char>>)
    requires
        i32::MIN / 4 <= c.score.milli <= i32::MAX / 4,
        i32::MIN / 4 <= quality.milli <= i32::MAX / 4,
    ensures
        ({
            let r = exact_priced(c, quality, span, key);
            &&& r.score.milli == c.score.milli + quality.milli - (if c.attr.completion {
                2996int
            } else {
                0
            })
            &&& r == (Cand { score: r.score, span, key, ..c })
        }),
{
}

/// What a word is worth under a reading: its own score, what the reading costs,
/// four thousand thousandths less for every byte that the reading leaves over,
/// and what the translator adds; a completion is worth 2996 less. It covers what
/// the reading has read, and carries the marks of both.
pub proof fn read_words_are_priced(
    c: Cand,
    p: Path,
    s: Seq<char>,
    completion: bool,
    quality: Score,
    span: Span,
    key: Option<Seq<char>>,
)
    requires
        0 <= p.pos <= s.len(),
        -100_000_000 <= c.score.milli <= 100_000_000,
        -100_000_000 <= p.reading.cost.milli <= 100_000_000,
        -100_000_000 <= quality.milli <= 100_000_000,
        bytes_len(s.skip(p.pos)) <= 1000,
        span.start + bytes_len(s) <= usize::MAX,
    ensures
        ({
            let r = graph_priced(c, p, s, completion, quality, span, key);
            let guessed = completion && c.attr.completion;
            &&& r.score.milli == c.score.milli + p.reading.cost.milli - 4000 * bytes_len(
                s.skip(p.pos),
            ) + quality.milli - (if guessed {
                2996int
            } else {
                0
            })
            &&& r.span.start == span.start
            &&& r.span.end == span.start + bytes_len(s.take(p.pos))
            &&& r.text == c.text && r.comment == c.comment && r.origin == c.origin && r.key == key
            &&& !guessed ==> r.attr.fuzzy == (c.attr.fuzzy || p.reading.attr.fuzzy) && r.attr.abbrev
                == (c.attr.abbrev || p.reading.attr.abbrev) && r.attr.completion == (
            c.attr.completion || p.reading.attr.completion)
            &&& guessed ==> r.attr == c.attr
        }),
{
    prefix_bytes(s, p.pos);
}

/// The words of a sentence are words of the lexicon under a reading of the part
/// that they stand for, at their own score with the cost of the reading.
pub proof fn sentence_words_are_words(ws: Seq<Word>, start: int, p: Path, i: int)
    requires
        0 <= i < edges_by(ws, start, p).len(),
    ensures
        edges_by(ws, start, p).len() <= 8,
        ({
            let e = edges_by(ws, start, p)[i];
            &&& e.start == start && e.end == start + p.pos
            &&& e.units == p.reading.code.len()
            &&& exists|w: Word|
                {
                    &&& #[trigger] ws.contains(w)
                    &&& w.code == p.reading.code && w.text == e.text
                    &&& i32::MIN <= w.score.milli + p.reading.cost.milli <= i32::MAX
                        ==> e.score.milli == w.score.milli + p.reading.cost.milli
                }
        }),
{
    let under = words_under(ws, p.reading.code);
    let w = under[i];
    reveal(Seq::filter);
    assert(under.contains(w));
    words_under_are_words(ws, p.reading.code, w);
}

proof fn words_under_are_words(ws: Seq<Word>, code: Seq<CodeUnitId>, w: Word)
    requires
        words_under(ws, code).contains(w),
    ensures
        ws.contains(w),
        w.code == code,
{
    let p = |x: Word| x.code == code;
    ws.lemma_filter_contains_rev(p, w);
    ws.lemma_filter_pred(p, words_under(ws, code).index_of(w));
}

/// Words under a code come before those that go on from it.
pub proof fn exact_words_come_first(ws: Seq<Word>, code: Seq<CodeUnitId>, i: int, j: int)
    requires
        0 <= i < j < found_words(ws, code, true).len(),
    ensures
        found_words(ws, code, true)[i].attr.completion ==> found_words(
            ws,
            code,
            true,
        )[j].attr.completion,
        found_words(ws, code, true).len() <= 200,
{
}

/// The input itself is always offered, over its whole extent, with the lowest
/// score but one step; an empty input offers nothing.
pub proof fn the_input_is_offered(input: Seq<char>, span: Span, lift: Score)
    ensures
        input.len() > 0 ==> {
            let r = echo_cands(input, span, lift);
            &&& r.len() == 1
            &&& r[0].text == input && r[0].span == span && r[0].origin == Origin::Literal
            &&& lift.milli >= 0 ==> r[0].score.milli == i32::MIN + lift.milli
        },
        input.len() == 0 ==> echo_cands(input, span, lift).len() == 0,
{
}

/// A sentence is a candidate for the whole segment, and is not offered where its
/// text is there already; a single letter makes none.
pub proof fn sentences_stand_for_the_segment(
    t: &SpellingTable,
    ws: Seq<Word>,
    s: Seq<char>,
    span: Span,
    there: Seq<Cand>,
)
    requires
        span.start + bytes_len(s) <= usize::MAX,
    ensures
        ({
            let r = sentence_cands(t, ws, s, span, there);
            &&& r.len() <= 1
            &&& r.len() == 1 ==> {
                &&& r[0].span.start == span.start
                &&& r[0].span.end == span.start + bytes_len(s)
                &&& r[0].origin == Origin::Sentence
                &&& forall|i: int| 0 <= i < there.len() ==> (#[trigger] there[i]).text != r[0].text
            }
            &&& bytes_len(s) < 2 ==> r.len() == 0
        }),
{
}

} // verus!
