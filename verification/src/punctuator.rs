//! Punctuation: marks, their full and half shapes, and the table of symbols.

use vstd::prelude::*;
use crate::candidate::{Cand, Candidate, CandidateKind, Lane, Origin, Span};
use crate::code::{normal, Score, SpellingAttr};
use crate::keyspec::{Key, KeyCode};
use crate::lexicon::{poured_twice, push_capped};
use crate::options::{is_on, Options};
use crate::order::views;
use crate::processor::{ascii_alnum, is_alnum, system_key, type_char, type_text};
use crate::spec::PunctuatorSpec;
use crate::spelling::poured;
use crate::state::{with_input, PendingCommit, ProcessResult, SessionState, State, Trigger, Wish};
use crate::table::TextTable;
use crate::text::{bytes_len, char_text, part, starts_at, to_chars};

verus! {

/// Rows of a table, read mathematically.
pub open spec fn rows_read(rows: Seq<(String, String)>) -> Seq<(Seq<char>, Seq<char>)> {
    Seq::new(rows.len(), |i: int| (rows[i].0@, rows[i].1@))
}

/// What the first `n` rows have for a character: the last row whose key starts
/// with it.
pub open spec fn mark_text(rows: Seq<(Seq<char>, Seq<char>)>, c: char, n: int) -> Option<Seq<char>>
    decreases n,
{
    if n <= 0 {
        None
    } else if rows[n - 1].0.len() > 0 && rows[n - 1].0[0] == c {
        Some(rows[n - 1].1)
    } else {
        mark_text(rows, c, n - 1)
    }
}

/// Whether a table has a key that starts with a character.
pub open spec fn has_mark(rows: Seq<(Seq<char>, Seq<char>)>, c: char) -> bool {
    mark_text(rows, c, rows.len() as int) is Some
}

/// Whether a table puts out a character.
pub open spec fn puts_out(rows: Seq<(Seq<char>, Seq<char>)>, c: char) -> bool {
    exists|i: int| 0 <= i < rows.len() && (#[trigger] rows[i]).1.contains(c)
}

fn find_mark(rows: &Vec<(String, String)>, c: char) -> (r: Option<usize>)
    ensures
        match r {
            Some(i) => i < rows@.len() && mark_text(
                rows_read(rows@),
                c,
                rows@.len() as int,
            ) == Some(rows@[i as int].1@),
            None => mark_text(rows_read(rows@), c, rows@.len() as int) is None,
        },
{
    let ghost rr = rows_read(rows@);
    let mut n: usize = rows.len();
    while n > 0
        invariant
            n <= rows@.len(),
            rr == rows_read(rows@),
            mark_text(rr, c, rows@.len() as int) == mark_text(rr, c, n as int),
        decreases n,
    {
        let k = to_chars(rows[n - 1].0.as_str());
        assert(rr[n - 1] == (rows@[n - 1].0@, rows@[n - 1].1@));
        if k.len() > 0 && k[0] == c {
            return Some(n - 1);
        }
        n -= 1;
    }
    None
}

fn char_in(cs: &Vec<char>, c: char) -> (r: bool)
    ensures
        r == cs@.contains(c),
{
    let mut i: usize = 0;
    while i < cs.len()
        invariant
            i <= cs@.len(),
            forall|j: int| 0 <= j < i ==> cs@[j] != c,
        decreases cs.len() - i,
    {
        if cs[i] == c {
            return true;
        }
        i += 1;
    }
    false
}

fn is_put_out(rows: &Vec<(String, String)>, c: char) -> (r: bool)
    ensures
        r == puts_out(rows_read(rows@), c),
{
    let ghost rr = rows_read(rows@);
    let mut i: usize = 0;
    while i < rows.len()
        invariant
            i <= rows@.len(),
            rr == rows_read(rows@),
            forall|j: int| 0 <= j < i ==> !(#[trigger] rr[j]).1.contains(c),
        decreases rows.len() - i,
    {
        assert(rr[i as int].1 == rows@[i as int].1@);
        let cs = to_chars(rows[i].1.as_str());
        if char_in(&cs, c) {
            return true;
        }
        i += 1;
    }
    false
}

fn copy_rows(rows: &Vec<(String, String)>) -> (r: Vec<(String, String)>)
    ensures
        rows_read(r@) == rows_read(rows@),
{
    let mut out: Vec<(String, String)> = Vec::new();
    let mut i: usize = 0;
    while i < rows.len()
        invariant
            i <= rows@.len(),
            out@.len() == i,
            forall|j: int|
                0 <= j < i ==> (#[trigger] out@[j]).0@ == rows@[j].0@ && out@[j].1@
                    == rows@[j].1@,
        decreases rows.len() - i,
    {
        out.push((rows[i].0.clone(), rows[i].1.clone()));
        i += 1;
    }
    assert(rows_read(out@) =~= rows_read(rows@));
    out
}

// ---------------------------------------------------------------------------
// The processor
// ---------------------------------------------------------------------------

/// Lets punctuation into the input where no code is being typed.
#[derive(Debug)]
pub struct Punctuator {
    pub half: Vec<(String, String)>,
    pub full: Vec<(String, String)>,
    pub symbol_prefix: Option<char>,
    /// The switch for full shapes.
    pub full_shape_option: Option<String>,
}

impl Punctuator {
    #[must_use]
    pub fn new(spec: &PunctuatorSpec, full_shape_option: Option<String>) -> (r: Self)
        ensures
            rows_read(r.half@) == rows_read(spec.half_shape@),
            rows_read(r.full@) == rows_read(spec.full_shape@),
            r.symbol_prefix == spec.symbol_prefix,
            r.full_shape_option == full_shape_option,
    {
        Punctuator {
            half: copy_rows(&spec.half_shape),
            full: copy_rows(&spec.full_shape),
            symbol_prefix: spec.symbol_prefix,
            full_shape_option,
        }
    }

    /// Whether a character is a punctuation key.
    pub open spec fn punct(&self, c: char) -> bool {
        has_mark(rows_read(self.half@), c) || has_mark(rows_read(self.full@), c)
            || self.symbol_prefix == Some(c)
    }

    /// Whether a character is a punctuation key.
    #[must_use]
    pub fn is_punct(&self, c: char) -> (r: bool)
        ensures
            r == self.punct(c),
    {
        if find_mark(&self.half, c).is_some() || find_mark(&self.full, c).is_some() {
            return true;
        }
        match self.symbol_prefix {
            Some(p) => p == c,
            None => false,
        }
    }

    /// Whether a character of the input is punctuation: a key, or what a table
    /// has put in its place.
    pub open spec fn mark(&self, c: char) -> bool {
        self.punct(c) || puts_out(rows_read(self.half@), c) || puts_out(rows_read(self.full@), c)
    }

    /// Whether the input is punctuation and nothing else.
    pub open spec fn only_marks(&self, input: Seq<char>) -> bool {
        forall|i: int| 0 <= i < input.len() ==> self.mark(#[trigger] input[i])
    }

    fn all_marks(&self, cs: &Vec<char>) -> (r: bool)
        ensures
            r == self.only_marks(cs@),
    {
        let mut i: usize = 0;
        while i < cs.len()
            invariant
                i <= cs@.len(),
                forall|j: int| 0 <= j < i ==> self.mark(#[trigger] cs@[j]),
            decreases cs.len() - i,
        {
            let c = cs[i];
            if !(self.is_punct(c) || is_put_out(&self.half, c) || is_put_out(&self.full, c)) {
                assert(!self.mark(cs@[i as int]));
                return false;
            }
            i += 1;
        }
        true
    }

    /// Whether full shapes are asked for.
    pub open spec fn full_on(&self, options: Map<Seq<char>, bool>) -> bool {
        self.full_shape_option matches Some(n) && is_on(options, n@)
    }

    /// What a key puts into the input.
    pub open spec fn shape(&self, options: Map<Seq<char>, bool>, c: char) -> Seq<char> {
        let rows = if self.full_on(options) {
            rows_read(self.full@)
        } else {
            rows_read(self.half@)
        };
        match mark_text(rows, c, rows.len() as int) {
            Some(t) => t,
            None => seq![c],
        }
    }

    /// Whether the table of symbols is open.
    pub open spec fn symbols_open(&self, input: Seq<char>) -> bool {
        self.symbol_prefix matches Some(p) && input.len() > 0 && input[0] == p
    }

    /// What becomes of a character.
    pub open spec fn typed(&self, s: State, c: char) -> (State, ProcessResult) {
        let taken = (with_input(s, s.input.push(c)), ProcessResult::Accepted);
        if self.symbol_prefix == Some(c) {
            if s.input.len() == 0 || s.input[0] == c {
                taken
            } else {
                (s, ProcessResult::Noop)
            }
        } else if self.symbols_open(s.input) && (is_alnum(c) || !self.punct(c)) {
            taken
        } else if !self.punct(c) || !self.only_marks(s.input) {
            (s, ProcessResult::Noop)
        } else {
            (with_input(s, s.input + self.shape(s.options, c)), ProcessResult::Accepted)
        }
    }

    /// What becomes of a key.
    pub open spec fn step(&self, s: State, key: Key) -> (State, ProcessResult) {
        if key.release || system_key(key.mods) {
            (s, ProcessResult::Noop)
        } else {
            match key.code {
                KeyCode::Char(c) => self.typed(s, c),
                _ => (s, ProcessResult::Noop),
            }
        }
    }

    fn shape_of(&self, options: &Options, c: char) -> (r: String)
        ensures
            r@ == self.shape(options@, c),
    {
        let full = match &self.full_shape_option {
            Some(n) => options.get(n.as_str()),
            None => false,
        };
        let found = if full {
            match find_mark(&self.full, c) {
                Some(i) => Some(self.full[i].1.clone()),
                None => None,
            }
        } else {
            match find_mark(&self.half, c) {
                Some(i) => Some(self.half[i].1.clone()),
                None => None,
            }
        };
        match found {
            Some(t) => t,
            None => char_text(c),
        }
    }

    pub fn process(&mut self, state: &mut SessionState, key: &Key) -> (r: ProcessResult)
        ensures
            *final(self) == *old(self),
            (final(state)@, r) == old(self).step(old(state)@, *key),
            final(state).context == old(state).context,
            final(state).predict_count == old(state).predict_count,
    {
        if key.release || key.mods.ctrl || key.mods.alt || key.mods.meta {
            return ProcessResult::Noop;
        }
        let c = match key.code {
            KeyCode::Char(c) => c,
            _ => {
                return ProcessResult::Noop;
            },
        };
        let input = to_chars(state.composition.input.as_str());
        if let Some(p) = self.symbol_prefix {
            let open = input.len() > 0 && input[0] == p;
            if c == p {
                if input.len() == 0 || open {
                    type_char(state, c);
                    return ProcessResult::Accepted;
                }
                return ProcessResult::Noop;
            }
            if open && (ascii_alnum(c) || !self.is_punct(c)) {
                type_char(state, c);
                return ProcessResult::Accepted;
            }
        }
        if !self.is_punct(c) || !self.all_marks(&input) {
            return ProcessResult::Noop;
        }
        let t = self.shape_of(&state.options, c);
        type_text(state, t.as_str());
        ProcessResult::Accepted
    }
}

// ---------------------------------------------------------------------------
// The translator
// ---------------------------------------------------------------------------

/// Turns punctuation and the names of symbols into candidates.
#[derive(Debug)]
pub struct PunctTranslator {
    pub half: TextTable<String>,
    pub full: TextTable<String>,
    /// Symbols by their names, without the prefix.
    pub symbols: TextTable<String>,
    pub symbol_prefix: Option<char>,
    pub full_shape_option: Option<String>,
}

/// How many symbols one name brings at most.
pub const SYMBOL_CAP: usize = 50;

/// The score of the first symbol.
pub const SYMBOL_MILLI: i32 = 6_000;

/// The score of a mark that the tables have, and of one that they have not.
pub const MARK_MILLI: i32 = 7_000;

pub const PLAIN_MARK_MILLI: i32 = 6_900;

/// Rows as a map; of two rows with one key the last counts.
pub open spec fn row_map(rows: Seq<(Seq<char>, Seq<char>)>) -> Map<Seq<char>, Seq<char>>
    decreases rows.len(),
{
    if rows.len() == 0 {
        Map::empty()
    } else {
        row_map(rows.drop_last()).insert(rows.last().0, rows.last().1)
    }
}

/// The name of a symbol without the prefix.
pub open spec fn bare_name(prefix: Option<char>, k: Seq<char>) -> Seq<char> {
    if prefix matches Some(p) && k.len() > 0 && k[0] == p {
        k.skip(1)
    } else {
        k
    }
}

pub open spec fn bare_rows(prefix: Option<char>, rows: Seq<(Seq<char>, Seq<char>)>) -> Seq<
    (Seq<char>, Seq<char>),
> {
    Seq::new(rows.len(), |i: int| (bare_name(prefix, rows[i].0), rows[i].1))
}

/// A table of texts, read mathematically.
pub open spec fn text_map(t: TextTable<String>) -> Map<Seq<char>, Seq<char>> {
    t@.map_values(|v: String| v@)
}

fn table_of(rows: &Vec<(String, String)>, prefix: Option<char>) -> (r: TextTable<String>)
    ensures
        r.wf(),
        text_map(r) == row_map(bare_rows(prefix, rows_read(rows@))),
{
    let ghost rr = bare_rows(prefix, rows_read(rows@));
    let mut t: TextTable<String> = TextTable::new();
    let mut i: usize = 0;
    assert(rr.take(0) =~= seq![]);
    assert(text_map(t) =~= Map::empty());
    while i < rows.len()
        invariant
            i <= rows@.len(),
            rr == bare_rows(prefix, rows_read(rows@)),
            t.wf(),
            text_map(t) == row_map(rr.take(i as int)),
        decreases rows.len() - i,
    {
        let cs = to_chars(rows[i].0.as_str());
        let strip = match prefix {
            Some(p) => cs.len() > 0 && cs[0] == p,
            None => false,
        };
        let key = if strip {
            let k = part(&cs, 1, cs.len());
            assert(k@ =~= cs@.skip(1));
            k
        } else {
            rows[i].0.clone()
        };
        let value = rows[i].1.clone();
        let ghost before = text_map(t);
        let ghost k = key@;
        let ghost v = value@;
        proof {
            let f = rr.take(i + 1);
            assert(f.drop_last() =~= rr.take(i as int));
            assert(f.last() == (k, v));
        }
        t.insert(key, value);
        assert(text_map(t) =~= before.insert(k, v));
        i += 1;
    }
    assert(rr.take(i as int) =~= rr);
    t
}

/// The symbols whose names begin with a query, among the first `n` names; the
/// symbol of the query itself is left out. No more are taken once there are
/// enough.
pub open spec fn symbols_like(
    m: Map<Seq<char>, Seq<char>>,
    keys: Seq<Seq<char>>,
    q: Seq<char>,
    first: Seq<Seq<char>>,
    n: int,
) -> Seq<Seq<char>>
    decreases n,
{
    if n <= 0 {
        first
    } else {
        let head = symbols_like(m, keys, q, first, n - 1);
        let k = keys[n - 1];
        if head.len() < SYMBOL_CAP && k != q && q.is_prefix_of(k) {
            head.push(m[k])
        } else {
            head
        }
    }
}

/// The symbols for a query: its own first, then those whose names begin with
/// it, in the order of the names.
pub open spec fn symbols_for(m: Map<Seq<char>, Seq<char>>, keys: Seq<Seq<char>>, q: Seq<char>) -> Seq<
    Seq<char>,
> {
    if q.len() == 0 {
        seq![]
    } else {
        symbols_like(
            m,
            keys,
            q,
            if m.contains_key(q) {
                seq![m[q]]
            } else {
                seq![]
            },
            keys.len() as int,
        )
    }
}

/// Punctuation as a candidate.
pub open spec fn punct_cand(text: Seq<char>, milli: int, span: Span) -> Cand {
    Cand {
        text,
        comment: None,
        score: Score { milli: milli as i32 },
        origin: Origin::Literal,
        attr: normal(),
        span,
        lane: Lane::Input,
        kind: CandidateKind::Punct,
        key: None,
    }
}

/// Symbols as candidates, the first best.
pub open spec fn symbol_cands(ss: Seq<Seq<char>>, span: Span) -> Seq<Cand> {
    Seq::new(ss.len(), |i: int| punct_cand(ss[i], SYMBOL_MILLI - 10 * i, span))
}

fn push_punct(text: &str, milli: i32, span: Span, out: &mut Vec<Candidate>, cap: usize)
    ensures
        views(final(out)@) == poured(
            views(old(out)@),
            seq![punct_cand(text@, milli as int, span)],
            cap as int,
        ),
{
    push_capped(
        out,
        cap,
        Candidate {
            text: text.to_owned(),
            comment: None,
            score: Score { milli },
            origin: Origin::Literal,
            attr: SpellingAttr::normal(),
            span,
            lane: Lane::Input,
            kind: CandidateKind::Punct,
            key: None,
        },
    );
}

fn same_chars(a: &Vec<char>, b: &Vec<char>) -> (r: bool)
    ensures
        r == (a@ == b@),
{
    if a.len() != b.len() {
        return false;
    }
    let mut i: usize = 0;
    while i < a.len()
        invariant
            i <= a@.len(),
            a@.len() == b@.len(),
            forall|j: int| 0 <= j < i ==> a@[j] == b@[j],
        decreases a.len() - i,
    {
        if a[i] != b[i] {
            assert(a@ != b@);
            return false;
        }
        i += 1;
    }
    assert(a@ =~= b@);
    true
}

impl PunctTranslator {
    pub open spec fn wf(&self) -> bool {
        self.half.wf() && self.full.wf() && self.symbols.wf()
    }

    #[must_use]
    pub fn new(spec: &PunctuatorSpec, full_shape_option: Option<String>) -> (r: Self)
        ensures
            r.wf(),
            text_map(r.half) == row_map(rows_read(spec.half_shape@)),
            text_map(r.full) == row_map(rows_read(spec.full_shape@)),
            text_map(r.symbols) == row_map(
                bare_rows(spec.symbol_prefix, rows_read(spec.symbols@)),
            ),
            r.symbol_prefix == spec.symbol_prefix,
            r.full_shape_option == full_shape_option,
    {
        assert(bare_rows(None, rows_read(spec.half_shape@)) =~= rows_read(spec.half_shape@));
        assert(bare_rows(None, rows_read(spec.full_shape@)) =~= rows_read(spec.full_shape@));
        PunctTranslator {
            half: table_of(&spec.half_shape, None),
            full: table_of(&spec.full_shape, None),
            symbols: table_of(&spec.symbols, spec.symbol_prefix),
            symbol_prefix: spec.symbol_prefix,
            full_shape_option,
        }
    }

    /// What a text stands for.
    pub open spec fn offers(
        &self,
        options: Map<Seq<char>, bool>,
        text: Seq<char>,
        span: Span,
    ) -> Seq<Cand> {
        let full = self.full_shape_option matches Some(n) && is_on(options, n@);
        let m = if full {
            text_map(self.full)
        } else {
            text_map(self.half)
        };
        if text.len() == 0 {
            seq![]
        } else if self.symbol_prefix matches Some(p) && text[0] == p {
            symbol_cands(
                symbols_for(text_map(self.symbols), self.symbols.keys(), text.skip(1)),
                span,
            )
        } else if m.contains_key(text) {
            seq![punct_cand(m[text], MARK_MILLI as int, span)]
        } else if text.len() == 1 {
            seq![punct_cand(text, PLAIN_MARK_MILLI as int, span)]
        } else {
            seq![]
        }
    }

    fn symbols_by(&self, query: &Vec<char>) -> (r: Vec<String>)
        requires
            self.wf(),
        ensures
            views(r@) == symbols_for(text_map(self.symbols), self.symbols.keys(), query@),
            r@.len() <= SYMBOL_CAP,
    {
        let ghost m = text_map(self.symbols);
        let ghost ks = self.symbols.keys();
        let mut hits: Vec<String> = Vec::new();
        assert(views(hits@) =~= seq![]);
        if query.len() == 0 {
            return hits;
        }
        let q = part(query, 0, query.len());
        assert(q@ =~= query@);
        if let Some(v) = self.symbols.get(q.as_str()) {
            hits.push(v.clone());
            assert(views(hits@) =~= seq![m[query@]]);
        }
        let ghost first = views(hits@);
        let mut i: usize = 0;
        while i < self.symbols.rows.len()
            invariant
                self.wf(),
                i <= self.symbols.rows@.len(),
                m == text_map(self.symbols),
                ks == self.symbols.keys(),
                q@ == query@,
                hits@.len() <= SYMBOL_CAP,
                views(hits@) == symbols_like(m, ks, query@, first, i as int),
            decreases self.symbols.rows.len() - i,
        {
            let k = to_chars(self.symbols.rows[i].0.as_str());
            let ghost had = views(hits@);
            proof {
                self.symbols.row_stands(i as int);
                assert(ks[i as int] == k@);
                assert(k@.skip(0) =~= k@);
                assert(had.len() == hits@.len());
            }
            if hits.len() < SYMBOL_CAP && !same_chars(&k, query) && starts_at(&k, 0, q.as_str()) {
                hits.push(self.symbols.rows[i].1.clone());
                assert(views(hits@) =~= had.push(m[k@]));
            }
            i += 1;
        }
        hits
    }

    /// Offers what a text stands for to a buffer of `cap` places.
    pub fn translate(
        &self,
        segment: &str,
        options: &Options,
        span: Span,
        out: &mut Vec<Candidate>,
        cap: usize,
    )
        requires
            self.wf(),
        ensures
            views(final(out)@) == poured(
                views(old(out)@),
                self.offers(options@, segment@, span),
                cap as int,
            ),
    {
        let ghost before = views(out@);
        assert(poured(before, seq![], cap as int) =~= before);
        let cs = to_chars(segment);
        if cs.len() == 0 {
            return;
        }
        if let Some(p) = self.symbol_prefix {
            if cs[0] == p {
                let rest = to_chars(part(&cs, 1, cs.len()).as_str());
                assert(rest@ =~= segment@.skip(1));
                let hits = self.symbols_by(&rest);
                let ghost hv = views(hits@);
                let ghost all = symbol_cands(hv, span);
                let mut i: usize = 0;
                assert(all.take(0) =~= seq![]);
                while i < hits.len()
                    invariant
                        i <= hits@.len() <= SYMBOL_CAP,
                        hv == views(hits@),
                        all == symbol_cands(hv, span),
                        views(out@) == poured(before, all.take(i as int), cap as int),
                    decreases hits.len() - i,
                {
                    proof {
                        assert(hv[i as int] == hits@[i as int]@);
                        poured_twice(before, all.take(i as int), seq![all[i as int]], cap as int);
                        assert(all.take(i as int) + seq![all[i as int]] =~= all.take(i + 1));
                    }
                    let milli: i32 = SYMBOL_MILLI - 10 * i as i32;
                    push_punct(hits[i].as_str(), milli, span, out, cap);
                    i += 1;
                }
                assert(all.take(i as int) =~= all);
                return;
            }
        }
        let full = match &self.full_shape_option {
            Some(n) => options.get(n.as_str()),
            None => false,
        };
        let found = if full {
            self.full.get(segment)
        } else {
            self.half.get(segment)
        };
        if let Some(v) = found {
            push_punct(v.as_str(), MARK_MILLI, span, out, cap);
        } else if cs.len() == 1 {
            push_punct(segment, PLAIN_MARK_MILLI, span, out, cap);
        }
    }
}

/// The wish to commit a piece of punctuation as it is.
pub fn literal_pending(text: &str) -> (r: PendingCommit)
    ensures
        r@ == (Wish::Literal { text: text@, trigger: Trigger::Punctuation }),
{
    PendingCommit::literal(text, Trigger::Punctuation)
}

// ---------------------------------------------------------------------------
// Laws
// ---------------------------------------------------------------------------

/// While a code is being typed, punctuation keys are left to others.
pub proof fn codes_are_not_disturbed(p: &Punctuator, s: State, key: Key)
    requires
        s.input.len() > 0,
        !p.only_marks(s.input),
        !p.symbols_open(s.input),
    ensures
        p.step(s, key) == (s, ProcessResult::Noop),
{
}

/// A single mark always has a candidate, whatever the tables say.
pub proof fn single_marks_can_be_committed(
    t: &PunctTranslator,
    options: Map<Seq<char>, bool>,
    c: char,
    span: Span,
)
    requires
        t.symbol_prefix != Some(c),
    ensures
        t.offers(options, seq![c], span).len() == 1,
{
}

/// Whether the row at `i` is the last whose key starts with a character.
pub open spec fn last_row_for(rows: Seq<(String, String)>, c: char, i: int) -> bool {
    &&& 0 <= i < rows.len()
    &&& rows[i].0@.len() > 0 && rows[i].0@[0] == c
    &&& forall|j: int|
        i < j < rows.len() ==> (#[trigger] rows[j]).0@.len() == 0 || rows[j].0@[0] != c
}

/// Whether no key of a table starts with a character.
pub open spec fn no_row_for(rows: Seq<(String, String)>, c: char) -> bool {
    forall|j: int| 0 <= j < rows.len() ==> (#[trigger] rows[j]).0@.len() == 0 || rows[j].0@[0] != c
}

proof fn the_last_row_counts(rows: Seq<(String, String)>, c: char, n: int, i: int)
    requires
        0 <= n <= rows.len(),
    ensures
        last_row_for(rows, c, i) && i < n ==> mark_text(rows_read(rows), c, n) == Some(rows[i].1@),
        no_row_for(rows, c) ==> mark_text(rows_read(rows), c, n) is None,
    decreases n,
{
    if n > 0 {
        assert(rows_read(rows)[n - 1].0 == rows[n - 1].0@);
        the_last_row_counts(rows, c, n - 1, i);
    }
}

/// The switch chooses the table. With full shapes on, a mark typed into an empty
/// input leaves there what the last row of the full-shape table has for it,
/// whatever the half-shape table holds; with them off, or without such a switch,
/// what the half-shape table has. Where the chosen table has nothing for a mark
/// of the other one, the mark itself is taken.
pub proof fn the_switch_chooses_the_table(
    p: &Punctuator,
    s: State,
    key: Key,
    c: char,
    full: bool,
    i: int,
)
    requires
        !key.release,
        !key.mods.ctrl && !key.mods.alt && !key.mods.meta,
        key.code == KeyCode::Char(c),
        s.input.len() == 0,
        p.symbol_prefix != Some(c),
        full == (p.full_shape_option matches Some(n) && s.options.contains_key(n@)
            && s.options[n@]),
    ensures
        ({
            let rows = if full {
                p.full@
            } else {
                p.half@
            };
            let other = if full {
                p.half@
            } else {
                p.full@
            };
            let (t, r) = p.step(s, key);
            &&& last_row_for(rows, c, i) ==> r == ProcessResult::Accepted && t == (State {
                input: rows[i].1@,
                caret: bytes_len(rows[i].1@) as int,
                ..s
            })
            &&& no_row_for(rows, c) && last_row_for(other, c, i) ==> r == ProcessResult::Accepted
                && t == (State { input: seq![c], caret: bytes_len(seq![c]) as int, ..s })
            &&& no_row_for(p.half@, c) && no_row_for(p.full@, c) ==> r == ProcessResult::Noop && t
                == s
        }),
{
    the_last_row_counts(p.full@, c, p.full@.len() as int, i);
    the_last_row_counts(p.half@, c, p.half@.len() as int, i);
    let e = Seq::<char>::empty();
    assert(s.input =~= e);
    assert forall|t: Seq<char>| #[trigger] (s.input + t) == t by {
        assert(s.input + t =~= t);
    }
    if !p.punct(c) {
        assert(!p.symbols_open(s.input));
    }
}

/// Marks that follow each other are taken one behind the other, each in the
/// shape that it would have alone.
pub proof fn marks_follow_each_other(p: &Punctuator, s: State, key: Key, c: char)
    requires
        !key.release,
        !key.mods.ctrl && !key.mods.alt && !key.mods.meta,
        key.code == KeyCode::Char(c),
        p.symbol_prefix != Some(c),
        p.punct(c),
        p.only_marks(s.input),
        !p.symbols_open(s.input),
    ensures
        p.step(s, key).1 == ProcessResult::Accepted,
        p.step(s, key).0.input == s.input + p.step(State { input: seq![], ..s }, key).0.input,
        p.step(s, key).0.caret == bytes_len(p.step(s, key).0.input),
{
    let shape = p.shape(s.options, c);
    assert(Seq::<char>::empty() + shape =~= shape);
}

/// The prefix of the symbols opens their table where the input is empty, and
/// letters and digits go on with the name of one.
pub proof fn the_prefix_opens_the_symbols(p: &Punctuator, s: State, key: Key, c: char, prefix: char)
    requires
        !key.release,
        !key.mods.ctrl && !key.mods.alt && !key.mods.meta,
        key.code == KeyCode::Char(c),
        p.symbol_prefix == Some(prefix),
    ensures
        s.input.len() == 0 && c == prefix ==> p.step(s, key) == (
            State { input: seq![c], caret: bytes_len(seq![c]) as int, ..s },
            ProcessResult::Accepted,
        ),
        s.input.len() > 0 && s.input[0] == prefix && ('a' <= c <= 'z' || 'A' <= c <= 'Z' || '0' <= c
            <= '9') ==> p.step(s, key).1 == ProcessResult::Accepted && p.step(s, key).0.input
            == s.input.push(c),
        s.input.len() > 0 && s.input[0] != prefix && c == prefix ==> p.step(s, key) == (
            s,
            ProcessResult::Noop,
        ),
{
    if s.input.len() == 0 {
        assert(s.input.push(c) =~= seq![c]);
    }
}

/// A mark is offered in the shape that the switch asks for: from the full-shape
/// table with full shapes on, else from the half-shape one, and as it stands
/// where that has nothing for it.
pub proof fn marks_are_offered_in_their_shape(
    t: &PunctTranslator,
    options: Map<Seq<char>, bool>,
    text: Seq<char>,
    span: Span,
    full: bool,
)
    requires
        text.len() > 0,
        t.symbol_prefix != Some(text[0]),
        full == (t.full_shape_option matches Some(n) && options.contains_key(n@) && options[n@]),
    ensures
        ({
            let m = if full {
                text_map(t.full)
            } else {
                text_map(t.half)
            };
            let cs = t.offers(options, text, span);
            &&& m.contains_key(text) ==> cs.len() == 1 && cs[0].text == m[text]
            &&& !m.contains_key(text) && text.len() == 1 ==> cs.len() == 1 && cs[0].text == text
            &&& !m.contains_key(text) && text.len() > 1 ==> cs.len() == 0
            &&& cs.len() == 1 ==> cs[0].span == span && cs[0].origin == Origin::Literal
        }),
{
}

proof fn symbols_begin_with_the_query(
    m: Map<Seq<char>, Seq<char>>,
    keys: Seq<Seq<char>>,
    q: Seq<char>,
    first: Seq<Seq<char>>,
    n: int,
)
    requires
        0 <= n <= keys.len(),
        first.len() <= 1,
    ensures
        first.is_prefix_of(symbols_like(m, keys, q, first, n)),
        forall|i: int|
            first.len() <= i < symbols_like(m, keys, q, first, n).len() ==> exists|k: int|
                0 <= k < n && q.is_prefix_of(keys[k]) && keys[k] != q
                    && #[trigger] symbols_like(m, keys, q, first, n)[i] == m[#[trigger] keys[k]],
        symbols_like(m, keys, q, first, n).len() <= 50,
        symbols_like(m, keys, q, first, n).len() < 50 ==> forall|k: int|
            0 <= k < n && q.is_prefix_of(#[trigger] keys[k]) && keys[k] != q ==> symbols_like(
                m,
                keys,
                q,
                first,
                n,
            ).contains(m[keys[k]]),
    decreases n,
{
    if n > 0 {
        let head = symbols_like(m, keys, q, first, n - 1);
        symbols_begin_with_the_query(m, keys, q, first, n - 1);
        let all = symbols_like(m, keys, q, first, n);
        assert forall|i: int| first.len() <= i < all.len() implies exists|k: int|
            0 <= k < n && q.is_prefix_of(keys[k]) && keys[k] != q && #[trigger] all[i]
                == m[#[trigger] keys[k]] by {
            if i < head.len() {
                assert(all[i] == head[i]);
            } else {
                assert(all[i] == m[keys[n - 1]]);
            }
        }
        if all.len() < 50 {
            assert forall|k: int|
                0 <= k < n && q.is_prefix_of(#[trigger] keys[k]) && keys[k] != q implies all.contains(
                m[keys[k]],
            ) by {
                if k < n - 1 {
                    let i = choose|i: int| 0 <= i < head.len() && head[i] == m[keys[k]];
                    assert(all[i] == head[i]);
                } else {
                    assert(all[all.len() - 1] == m[keys[k]]);
                }
            }
        }
    }
}

/// The symbol of a name comes first, and behind it stand symbols whose names
/// begin with that name, fifty in all at most; where there are fewer, none is
/// missing.
pub proof fn symbols_are_found_by_their_names(
    t: &PunctTranslator,
    options: Map<Seq<char>, bool>,
    prefix: char,
    name: Seq<char>,
    span: Span,
)
    requires
        t.symbol_prefix == Some(prefix),
        name.len() > 0,
        t.symbols.wf(),
    ensures
        ({
            let m = text_map(t.symbols);
            let cs = t.offers(options, seq![prefix] + name, span);
            &&& cs.len() <= 50
            &&& m.contains_key(name) ==> cs.len() > 0 && cs[0].text == m[name]
            &&& forall|i: int|
                0 <= i < cs.len() ==> exists|k: Seq<char>| #[trigger]
                    m.contains_key(k) && name.is_prefix_of(k) && (#[trigger] cs[i]).text == m[k]
            &&& cs.len() < 50 ==> forall|k: Seq<char>| #[trigger]
                m.contains_key(k) && name.is_prefix_of(k) ==> exists|i: int|
                    0 <= i < cs.len() && (#[trigger] cs[i]).text == m[k]
            &&& forall|i: int, j: int|
                0 <= i < j < cs.len() ==> (#[trigger] cs[i]).score.milli > (
                #[trigger] cs[j]).score.milli
        }),
{
    let m = text_map(t.symbols);
    let ks = t.symbols.keys();
    let text = seq![prefix] + name;
    assert(text.skip(1) =~= name);
    let first = if m.contains_key(name) {
        seq![m[name]]
    } else {
        seq![]
    };
    let ss = symbols_like(m, ks, name, first, ks.len() as int);
    symbols_begin_with_the_query(m, ks, name, first, ks.len() as int);
    let cs = t.offers(options, text, span);
    assert(cs == symbol_cands(ss, span));
    assert forall|i: int| 0 <= i < cs.len() implies exists|k: Seq<char>| #[trigger]
        m.contains_key(k) && name.is_prefix_of(k) && (#[trigger] cs[i]).text == m[k] by {
        if i < first.len() {
            assert(ss[i] == first[i]);
            assert(m.contains_key(name) && name.is_prefix_of(name));
        } else {
            let k = choose|k: int|
                0 <= k < ks.len() && name.is_prefix_of(ks[k]) && ks[k] != name && ss[i]
                    == m[#[trigger] ks[k]];
            t.symbols.row_stands(k);
            assert(m.contains_key(ks[k]));
        }
    }
    if cs.len() < 50 {
        assert forall|k: Seq<char>| #[trigger]
            m.contains_key(k) && name.is_prefix_of(k) implies exists|i: int|
            0 <= i < cs.len() && (#[trigger] cs[i]).text == m[k] by {
            assert(ks.contains(k));
            let j = choose|j: int| 0 <= j < ks.len() && ks[j] == k;
            if k == name {
                assert(ss[0] == first[0]);
                assert(cs[0].text == m[k]);
            } else {
                assert(name.is_prefix_of(ks[j]));
                let i = choose|i: int| 0 <= i < ss.len() && ss[i] == m[ks[j]];
                assert(cs[i].text == m[k]);
            }
        }
    }
}

/// Of two rows with one key the later counts, and every key of a row is found.
pub proof fn later_rows_count(rows: Seq<(Seq<char>, Seq<char>)>, i: int)
    requires
        0 <= i < rows.len(),
        forall|j: int| i < j < rows.len() ==> (#[trigger] rows[j]).0 != rows[i].0,
    ensures
        row_map(rows).contains_key(rows[i].0),
        row_map(rows)[rows[i].0] == rows[i].1,
    decreases rows.len(),
{
    if i < rows.len() - 1 {
        let head = rows.drop_last();
        assert forall|j: int| i < j < head.len() implies (#[trigger] head[j]).0 != head[i].0 by {
            assert(head[j] == rows[j]);
        }
        later_rows_count(head, i);
        assert(rows[rows.len() - 1].0 != rows[i].0);
    }
}

} // verus!
