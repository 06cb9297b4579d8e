//! The lexicon: from codes to words.
//!
//! It matches codes exactly, or by prefix for completion. Variant spellings
//! have been resolved by the spelling layer before a code gets here.

use vstd::prelude::*;
use crate::candidate::{text_opt, copy_opt, Cand, Candidate, CandidateKind, Lane, Origin, Span};
use crate::code::{
    normal, place_of, place_of_finds, CodeAlphabet, CodeUnitId, Score, SpellingAttr,
};
use crate::code::copy_texts;
use crate::order::{sort_by, sort_vec, sorted_from, views};
use crate::spelling::{code_before, code_less, poured, same_code};
use crate::text::{same_text, text_before, text_less, texts};

verus! {

/// A word under its code.
#[derive(Debug)]
pub struct Entry {
    pub code: Vec<CodeUnitId>,
    pub text: String,
    pub score: Score,
    pub comment: Option<String>,
}

/// The mathematical reading of an [`Entry`].
pub struct Word {
    pub code: Seq<CodeUnitId>,
    pub text: Seq<char>,
    pub score: Score,
    pub comment: Option<Seq<char>>,
}

impl View for Entry {
    type V = Word;

    open spec fn view(&self) -> Word {
        Word {
            code: self.code@,
            text: self.text@,
            score: self.score,
            comment: text_opt(self.comment),
        }
    }
}

/// A word as scheme data gives it: the texts of its code units, and its score.
#[derive(Debug)]
pub struct Source {
    pub units: Vec<String>,
    pub text: String,
    pub score: Score,
}

/// The mathematical reading of a [`Source`].
pub struct Row {
    pub units: Seq<Seq<char>>,
    pub text: Seq<char>,
    pub score: Score,
}

impl View for Source {
    type V = Row;

    open spec fn view(&self) -> Row {
        Row { units: texts(self.units@), text: self.text@, score: self.score }
    }
}

/// Why scheme data was refused.
#[derive(Clone, Debug, PartialEq, Eq)]
pub enum LexiconError {
    /// A word uses a unit that the alphabet lacks.
    UnknownUnit { unit: String, word: String },
}

/// The message for a scheme author.
pub open spec fn unknown_unit_text(unit: Seq<char>, word: Seq<char>) -> Seq<char> {
    "词条「"@ + word + "」引用了字母表里没有的编码单元「"@ + unit
        + "」——方案数据不一致（字母表与词库必须来自同一个方案）"@
}

impl LexiconError {
    /// The message for a scheme author.
    pub fn message(&self) -> (r: String)
        ensures
            match self {
                LexiconError::UnknownUnit { unit, word } => r@ == unknown_unit_text(unit@, word@),
            },
    {
        match self {
            LexiconError::UnknownUnit { unit, word } => "词条「".to_owned().concat(
                word.as_str(),
            ).concat("」引用了字母表里没有的编码单元「").concat(unit.as_str()).concat(
                "」——方案数据不一致（字母表与词库必须来自同一个方案）",
            ),
        }
    }
}

/// The first unit of `row`, from `from` on, that the alphabet lacks.
pub open spec fn unknown_in(units: Seq<Seq<char>>, row: Seq<Seq<char>>, from: int) -> Option<int>
    decreases row.len() - from,
{
    if from < 0 || from >= row.len() {
        None
    } else if place_of(units, row[from], 0) is None {
        Some(from)
    } else {
        unknown_in(units, row, from + 1)
    }
}

/// The first word, from `from` on, with a unit that the alphabet lacks, and
/// that unit.
pub open spec fn first_unknown(units: Seq<Seq<char>>, rows: Seq<Row>, from: int) -> Option<
    (int, int),
>
    decreases rows.len() - from,
{
    if from < 0 || from >= rows.len() {
        None
    } else {
        match unknown_in(units, rows[from].units, 0) {
            Some(j) => Some((from, j)),
            None => first_unknown(units, rows, from + 1),
        }
    }
}

/// The code that a list of unit texts writes.
pub open spec fn code_of(units: Seq<Seq<char>>, row: Seq<Seq<char>>) -> Seq<CodeUnitId> {
    Seq::new(
        row.len(),
        |i: int| CodeUnitId((place_of(units, row[i], 0)->0) as u32),
    )
}

pub open spec fn word_of(units: Seq<Seq<char>>, row: Row) -> Word {
    Word { code: code_of(units, row.units), text: row.text, score: row.score, comment: None }
}

/// By code; under one code the best score first, then by text.
pub open spec fn word_before(a: Word, b: Word) -> bool {
    code_less(a.code, b.code) || (a.code == b.code && (a.score.milli > b.score.milli || (
    a.score.milli == b.score.milli && text_less(a.text, b.text))))
}

/// The words of scheme data, in order.
pub open spec fn words_of(units: Seq<Seq<char>>, rows: Seq<Row>) -> Seq<Word> {
    sort_by(
        Seq::new(rows.len(), |i: int| word_of(units, rows[i])),
        |a: Word, b: Word| word_before(a, b),
    )
}

/// The words under exactly this code.
pub open spec fn words_under(ws: Seq<Word>, code: Seq<CodeUnitId>) -> Seq<Word> {
    ws.filter(|w: Word| w.code == code)
}

/// The words whose code starts with `code`, without those under `code` itself
/// where `longer` is set.
pub open spec fn words_from(ws: Seq<Word>, code: Seq<CodeUnitId>, longer: bool) -> Seq<Word> {
    if code.len() == 0 {
        seq![]
    } else {
        ws.filter(|w: Word| code.is_prefix_of(w.code) && !(longer && w.code == code))
    }
}

/// A word as a candidate; the span counts code units until a translator sets
/// it.
pub open spec fn word_cand(w: Word, units: int, attr: SpellingAttr) -> Cand {
    Cand {
        text: w.text,
        comment: w.comment,
        score: w.score,
        origin: Origin::SystemWord,
        attr,
        span: Span { start: 0, end: units as usize },
        lane: Lane::Input,
        kind: CandidateKind::Normal,
        key: None,
    }
}

pub open spec fn word_cands(ws: Seq<Word>, units: int, attr: SpellingAttr) -> Seq<Cand> {
    Seq::new(ws.len(), |i: int| word_cand(ws[i], units, attr))
}

fn word_candidate(e: &Entry, units: usize, attr: SpellingAttr) -> (r: Candidate)
    ensures
        r@ == word_cand(e@, units as int, attr),
{
    Candidate {
        text: e.text.clone(),
        comment: copy_opt(&e.comment),
        score: e.score,
        origin: Origin::SystemWord,
        attr,
        span: Span::new(0, units),
        lane: Lane::Input,
        kind: CandidateKind::Normal,
        key: None,
    }
}

fn word_comes_first(a: &Entry, b: &Entry) -> (r: bool)
    ensures
        r == word_before(a@, b@),
{
    if code_before(&a.code, &b.code) {
        return true;
    }
    if !same_code(&a.code, &b.code) {
        return false;
    }
    if a.score.milli != b.score.milli {
        return a.score.milli > b.score.milli;
    }
    text_before(a.text.as_str(), b.text.as_str())
}

/// Whether `code` starts with `prefix`.
pub fn code_starts_with(code: &Vec<CodeUnitId>, prefix: &Vec<CodeUnitId>) -> (r: bool)
    ensures
        r == prefix@.is_prefix_of(code@),
{
    if prefix.len() > code.len() {
        return false;
    }
    let mut i: usize = 0;
    while i < prefix.len()
        invariant
            i <= prefix.len(),
            prefix.len() <= code.len(),
            forall|j: int| 0 <= j < i ==> prefix@[j] == code@[j],
        decreases prefix.len() - i,
    {
        if prefix[i] != code[i] {
            return false;
        }
        i += 1;
    }
    assert(prefix@ =~= code@.subrange(0, prefix@.len() as int));
    true
}

/// Puts one more item into a buffer of `cap` places.
pub(crate) fn push_capped(out: &mut Vec<Candidate>, cap: usize, c: Candidate)
    ensures
        views(final(out)@) == poured(views(old(out)@), seq![c@], cap as int),
{
    let ghost before = views(out@);
    if out.len() < cap {
        out.push(c);
        assert(views(out@) =~= before + seq![c@]);
    } else {
        assert(before.len() == out@.len());
    }
}

/// Filling a buffer in two goes is filling it in one.
pub proof fn poured_twice<T>(old_items: Seq<T>, a: Seq<T>, b: Seq<T>, cap: int)
    ensures
        poured(poured(old_items, a, cap), b, cap) == poured(old_items, a + b, cap),
{
    assert(poured(poured(old_items, a, cap), b, cap) =~= poured(old_items, a + b, cap));
}

/// An in-memory lexicon over an alphabet.
#[derive(Debug)]
pub struct InMemoryLexicon {
    pub alphabet: CodeAlphabet,
    pub entries: Vec<Entry>,
}

/// How many different codes the words have.
pub open spec fn distinct_codes(ws: Seq<Word>) -> int
    decreases ws.len(),
{
    if ws.len() == 0 {
        0
    } else {
        let head = ws.drop_last();
        distinct_codes(head) + if exists|i: int|
            0 <= i < head.len() && (#[trigger] head[i]).code == ws.last().code {
            0int
        } else {
            1int
        }
    }
}

impl InMemoryLexicon {
    /// The words, read mathematically.
    pub open spec fn words(&self) -> Seq<Word> {
        views(self.entries@)
    }

    /// Builds a lexicon. A word with a unit that the alphabet lacks is refused:
    /// the scheme's data contradict each other.
    pub fn from_entries(alphabet: CodeAlphabet, rows: &[Source]) -> (r: Result<Self, LexiconError>)
        requires
            alphabet.wf(),
        ensures
            match first_unknown(alphabet@, views(rows@), 0) {
                Some((i, j)) => r matches Err(LexiconError::UnknownUnit { unit, word }) && unit@
                    == rows@[i]@.units[j] && word@ == rows@[i]@.text,
                None => r matches Ok(lex) && lex.alphabet@ == alphabet@ && lex.alphabet.wf()
                    && lex.words() == words_of(alphabet@, views(rows@)),
            },
    {
        let mut entries: Vec<Entry> = Vec::new();
        let ghost all = views(rows@);
        let ghost goal = Seq::new(all.len(), |i: int| word_of(alphabet@, all[i]));
        let mut n: usize = 0;
        assert(views(entries@) =~= goal.take(0));
        while n < rows.len()
            invariant
                n <= rows.len(),
                alphabet.wf(),
                all == views(rows@),
                goal == Seq::new(all.len(), |i: int| word_of(alphabet@, all[i])),
                views(entries@) == goal.take(n as int),
                first_unknown(alphabet@, all, 0) == first_unknown(alphabet@, all, n as int),
            decreases rows.len() - n,
        {
            let row = &rows[n];
            assert(all[n as int] == row@);
            let mut code: Vec<CodeUnitId> = Vec::new();
            let mut j: usize = 0;
            let ghost want = code_of(alphabet@, row@.units);
            assert(code@ =~= want.take(0));
            while j < row.units.len()
                invariant
                    j <= row.units.len(),
                    n < rows.len(),
                    row == rows@[n as int],
                    all == views(rows@),
                    all[n as int] == row@,
                    alphabet.wf(),
                    want == code_of(alphabet@, row@.units),
                    code@ == want.take(j as int),
                    unknown_in(alphabet@, row@.units, 0) == unknown_in(
                        alphabet@,
                        row@.units,
                        j as int,
                    ),
                    first_unknown(alphabet@, all, 0) == first_unknown(alphabet@, all, n as int),
                decreases row.units.len() - j,
            {
                let t = row.units[j].as_str();
                assert(row@.units[j as int] == t@);
                match alphabet.id_of(t) {
                    Some(id) => {
                        code.push(id);
                        assert(code@ =~= want.take(j + 1));
                    },
                    None => {
                        return Err(
                            LexiconError::UnknownUnit {
                                unit: t.to_owned(),
                                word: row.text.clone(),
                            },
                        );
                    },
                }
                j += 1;
            }
            assert(want.take(j as int) =~= want);
            let ghost was = entries@;
            entries.push(
                Entry { code, text: row.text.clone(), score: row.score, comment: None },
            );
            assert(entries@.last()@ == goal[n as int]);
            assert(views(entries@) =~= views(was).push(goal[n as int]));
            assert(views(entries@) =~= goal.take(n + 1));
            n += 1;
        }
        assert(goal.take(n as int) =~= goal);
        let sorted = sort_vec(
            entries,
            word_comes_first,
            Ghost(|a: Word, b: Word| word_before(a, b)),
        );
        Ok(InMemoryLexicon { alphabet, entries: sorted })
    }

    pub fn alphabet(&self) -> (r: &CodeAlphabet)
        ensures
            *r == self.alphabet,
    {
        &self.alphabet
    }

    /// How many words there are.
    pub fn len(&self) -> (r: usize)
        ensures
            r == self.words().len(),
    {
        self.entries.len()
    }

    pub fn is_empty(&self) -> (r: bool)
        ensures
            r == (self.words().len() == 0),
    {
        self.entries.len() == 0
    }

    /// How many different codes there are.
    pub fn code_count(&self) -> (r: usize)
        ensures
            r == distinct_codes(self.words()),
    {
        let ghost ws = self.words();
        let mut count: usize = 0;
        let mut i: usize = 0;
        assert(ws.take(0) =~= seq![]);
        while i < self.entries.len()
            invariant
                i <= self.entries.len(),
                count <= i,
                ws == self.words(),
                count == distinct_codes(ws.take(i as int)),
            decreases self.entries.len() - i,
        {
            let mut seen = false;
            let mut j: usize = 0;
            let ghost head = ws.take(i as int);
            while j < i && !seen
                invariant
                    j <= i < self.entries.len(),
                    ws == self.words(),
                    head == ws.take(i as int),
                    !seen ==> forall|k: int| 0 <= k < j ==> (#[trigger] head[k]).code != ws[i as int].code,
                    seen ==> exists|k: int| 0 <= k < i && (#[trigger] head[k]).code == ws[i as int].code,
                decreases i - j,
            {
                if same_code(&self.entries[j].code, &self.entries[i].code) {
                    assert(head[j as int].code == ws[i as int].code);
                    seen = true;
                } else {
                    assert(head[j as int].code != ws[i as int].code);
                }
                j += 1;
            }
            proof {
                let t = ws.take(i + 1);
                assert(t.drop_last() =~= head);
                assert(t.last() == ws[i as int]);
            }
            if !seen {
                count += 1;
            }
            i += 1;
        }
        assert(ws.take(i as int) =~= ws);
        count
    }

    /// Appends the words under exactly this code to a buffer of `cap` places.
    pub fn lookup(&self, code: &Vec<CodeUnitId>, out: &mut Vec<Candidate>, cap: usize)
        ensures
            views(final(out)@) == poured(
                views(old(out)@),
                word_cands(words_under(self.words(), code@), code@.len() as int, normal()),
                cap as int,
            ),
    {
        let ghost before = views(out@);
        let ghost ws = self.words();
        let ghost keep = |w: Word| w.code == code@;
        let mut i: usize = 0;
        let n: usize = code.len();
        proof {
            assert(ws.take(0).filter(keep) =~= seq![]) by {
                reveal(Seq::filter);
            }
            assert(poured(
                before,
                word_cands(ws.take(0).filter(keep), n as int, normal()),
                cap as int,
            ) =~= before);
        }
        while i < self.entries.len()
            invariant
                i <= self.entries.len(),
                n == code@.len(),
                ws == self.words(),
                keep == (|w: Word| w.code == code@),
                views(out@) == poured(
                    before,
                    word_cands(ws.take(i as int).filter(keep), n as int, normal()),
                    cap as int,
                ),
            decreases self.entries.len() - i,
        {
            let e = &self.entries[i];
            let ghost kept = ws.take(i as int).filter(keep);
            proof {
                let t = ws.take(i + 1);
                assert(t.drop_last() =~= ws.take(i as int));
                assert(t.last() == e@);
                reveal(Seq::filter);
            }
            if same_code(&e.code, code) {
                push_capped(out, cap, word_candidate(e, n, SpellingAttr::normal()));
                proof {
                    let one = seq![word_cand(e@, n as int, normal())];
                    poured_twice(before, word_cands(kept, n as int, normal()), one, cap as int);
                    assert(word_cands(kept, n as int, normal()) + one =~= word_cands(
                        kept.push(e@),
                        n as int,
                        normal(),
                    ));
                }
            }
            i += 1;
        }
        assert(ws.take(i as int) =~= ws);
    }

    /// Whether codes can be looked up by prefix.
    pub fn supports_prefix(&self) -> (r: bool)
        ensures
            r,
    {
        true
    }

    /// Whether some word's code starts with `code`.
    pub fn has_prefix(&self, code: &Vec<CodeUnitId>) -> (r: bool)
        ensures
            r == exists|i: int|
                0 <= i < self.words().len() && code@.is_prefix_of(
                    (#[trigger] self.words()[i]).code,
                ),
    {
        let mut i: usize = 0;
        while i < self.entries.len()
            invariant
                i <= self.entries.len(),
                forall|j: int|
                    0 <= j < i ==> !code@.is_prefix_of((#[trigger] self.words()[j]).code),
            decreases self.entries.len() - i,
        {
            if code_starts_with(&self.entries[i].code, code) {
                assert(code@.is_prefix_of(self.words()[i as int].code));
                return true;
            }
            i += 1;
        }
        false
    }

    /// Appends the words whose code starts with `prefix` to a buffer of `cap`
    /// places, marked as completions.
    pub fn prefix_lookup(
        &self,
        prefix: &Vec<CodeUnitId>,
        exclude_exact: bool,
        out: &mut Vec<Candidate>,
        cap: usize,
    )
        ensures
            views(final(out)@) == poured(
                views(old(out)@),
                word_cands(
                    words_from(self.words(), prefix@, exclude_exact),
                    prefix@.len() as int,
                    SpellingAttr { fuzzy: false, abbrev: false, completion: true },
                ),
                cap as int,
            ),
    {
        let ghost before = views(out@);
        let ghost ws = self.words();
        let ghost mark = SpellingAttr { fuzzy: false, abbrev: false, completion: true };
        let n: usize = prefix.len();
        if n == 0 {
            assert(poured(before, word_cands(seq![], 0, mark), cap as int) =~= before);
            return ;
        }
        let ghost keep = |w: Word|
            prefix@.is_prefix_of(w.code) && !(exclude_exact && w.code == prefix@);
        let mut i: usize = 0;
        proof {
            assert(ws.take(0).filter(keep) =~= seq![]) by {
                reveal(Seq::filter);
            }
            assert(poured(before, word_cands(ws.take(0).filter(keep), n as int, mark), cap as int)
                =~= before);
        }
        while i < self.entries.len()
            invariant
                i <= self.entries.len(),
                n == prefix@.len(),
                ws == self.words(),
                mark == (SpellingAttr { fuzzy: false, abbrev: false, completion: true }),
                keep == (|w: Word|
                    prefix@.is_prefix_of(w.code) && !(exclude_exact && w.code == prefix@)),
                views(out@) == poured(
                    before,
                    word_cands(ws.take(i as int).filter(keep), n as int, mark),
                    cap as int,
                ),
            decreases self.entries.len() - i,
        {
            let e = &self.entries[i];
            let ghost kept = ws.take(i as int).filter(keep);
            proof {
                let t = ws.take(i + 1);
                assert(t.drop_last() =~= ws.take(i as int));
                assert(t.last() == e@);
                reveal(Seq::filter);
            }
            if code_starts_with(&e.code, prefix) && !(exclude_exact && same_code(&e.code, prefix)) {
                push_capped(out, cap, word_candidate(e, n, SpellingAttr::completion()));
                proof {
                    let one = seq![word_cand(e@, n as int, mark)];
                    poured_twice(before, word_cands(kept, n as int, mark), one, cap as int);
                    assert(word_cands(kept, n as int, mark) + one =~= word_cands(
                        kept.push(e@),
                        n as int,
                        mark,
                    ));
                }
            }
            i += 1;
        }
        assert(ws.take(i as int) =~= ws);
    }
}

// ---------------------------------------------------------------------------
// From texts to codes
// ---------------------------------------------------------------------------

/// Looks codes up by text.
pub trait ReverseLexicon {
    /// The codes of a text, each as the texts of its units.
    spec fn codes_of(&self, text: Seq<char>) -> Seq<Seq<Seq<char>>>;

    /// Appends the codes of a text.
    fn lookup_text(&self, text: &str, out: &mut Vec<Vec<String>>)
        ensures
            codes_view(final(out)@) == codes_view(old(out)@) + self.codes_of(text@),
    ;
}

/// A list of codes, read mathematically.
pub open spec fn codes_view(v: Seq<Vec<String>>) -> Seq<Seq<Seq<char>>> {
    Seq::new(v.len(), |i: int| texts(v[i]@))
}

/// An index from texts to codes.
#[derive(Debug)]
pub struct TextIndex {
    pub rows: Vec<(String, Vec<String>)>,
}

/// A row of a [`TextIndex`], read mathematically.
pub open spec fn row_view(r: (String, Vec<String>)) -> (Seq<char>, Seq<Seq<char>>) {
    (r.0@, texts(r.1@))
}

pub open spec fn rows_view(v: Seq<(String, Vec<String>)>) -> Seq<(Seq<char>, Seq<Seq<char>>)> {
    Seq::new(v.len(), |i: int| row_view(v[i]))
}

/// The codes given for `text`, in order.
pub open spec fn codes_for(rows: Seq<(Seq<char>, Seq<Seq<char>>)>, text: Seq<char>) -> Seq<
    Seq<Seq<char>>,
>
    decreases rows.len(),
{
    if rows.len() == 0 {
        seq![]
    } else {
        let head = codes_for(rows.drop_last(), text);
        if rows.last().0 == text {
            head.push(rows.last().1)
        } else {
            head
        }
    }
}

/// How many different texts there are.
pub open spec fn distinct_texts(rows: Seq<(Seq<char>, Seq<Seq<char>>)>) -> int
    decreases rows.len(),
{
    if rows.len() == 0 {
        0
    } else {
        let head = rows.drop_last();
        distinct_texts(head) + if exists|i: int|
            0 <= i < head.len() && (#[trigger] head[i]).0 == rows.last().0 {
            0int
        } else {
            1int
        }
    }
}

impl TextIndex {
    /// The rows, read mathematically.
    pub open spec fn table(&self) -> Seq<(Seq<char>, Seq<Seq<char>>)> {
        rows_view(self.rows@)
    }

    /// Builds an index from texts and their codes.
    pub fn from_entries(entries: &[(String, Vec<String>)]) -> (r: Self)
        ensures
            r.table() == rows_view(entries@),
    {
        let mut rows: Vec<(String, Vec<String>)> = Vec::new();
        let mut i: usize = 0;
        while i < entries.len()
            invariant
                i <= entries.len(),
                rows@.len() == i,
                forall|j: int| 0 <= j < i ==> row_view(#[trigger] rows@[j]) == row_view(entries@[j]),
            decreases entries.len() - i,
        {
            let e = &entries[i];
            rows.push((e.0.clone(), copy_texts(&e.1)));
            i += 1;
        }
        assert(rows_view(rows@) =~= rows_view(entries@));
        TextIndex { rows }
    }

    /// How many different texts are indexed.
    #[must_use]
    pub fn len(&self) -> (r: usize)
        ensures
            r == distinct_texts(self.table()),
    {
        let ghost all = self.table();
        let mut count: usize = 0;
        let mut i: usize = 0;
        assert(all.take(0) =~= seq![]);
        while i < self.rows.len()
            invariant
                i <= self.rows.len(),
                count <= i,
                all == self.table(),
                count == distinct_texts(all.take(i as int)),
            decreases self.rows.len() - i,
        {
            let mut seen = false;
            let mut j: usize = 0;
            let ghost head = all.take(i as int);
            while j < i && !seen
                invariant
                    j <= i < self.rows.len(),
                    all == self.table(),
                    head == all.take(i as int),
                    !seen ==> forall|k: int| 0 <= k < j ==> (#[trigger] head[k]).0 != all[i as int].0,
                    seen ==> exists|k: int| 0 <= k < i && (#[trigger] head[k]).0 == all[i as int].0,
                decreases i - j,
            {
                if same_text(self.rows[j].0.as_str(), self.rows[i].0.as_str()) {
                    assert(head[j as int].0 == all[i as int].0);
                    seen = true;
                } else {
                    assert(head[j as int].0 != all[i as int].0);
                }
                j += 1;
            }
            proof {
                let t = all.take(i + 1);
                assert(t.drop_last() =~= head);
                assert(t.last() == all[i as int]);
            }
            if !seen {
                count += 1;
            }
            i += 1;
        }
        assert(all.take(i as int) =~= all);
        count
    }

    #[must_use]
    pub fn is_empty(&self) -> (r: bool)
        ensures
            r == (self.table().len() == 0),
    {
        self.rows.len() == 0
    }
}

impl ReverseLexicon for TextIndex {
    open spec fn codes_of(&self, text: Seq<char>) -> Seq<Seq<Seq<char>>> {
        codes_for(self.table(), text)
    }

    fn lookup_text(&self, text: &str, out: &mut Vec<Vec<String>>) {
        let ghost all = self.table();
        let ghost before = codes_view(out@);
        let mut i: usize = 0;
        assert(all.take(0) =~= seq![]);
        assert(before + codes_for(all.take(0), text@) =~= before);
        while i < self.rows.len()
            invariant
                i <= self.rows.len(),
                all == self.table(),
                codes_view(out@) == before + codes_for(all.take(i as int), text@),
            decreases self.rows.len() - i,
        {
            let ghost had = out@;
            proof {
                let t = all.take(i + 1);
                assert(t.drop_last() =~= all.take(i as int));
                assert(t.last() == all[i as int]);
            }
            if same_text(self.rows[i].0.as_str(), text) {
                out.push(copy_texts(&self.rows[i].1));
                assert(codes_view(out@) =~= codes_view(had).push(all[i as int].1));
                assert(codes_view(out@) =~= before + codes_for(all.take(i as int), text@).push(
                    all[i as int].1,
                ));
            }
            i += 1;
        }
        assert(all.take(i as int) =~= all);
    }
}

// ---------------------------------------------------------------------------
// Laws
// ---------------------------------------------------------------------------

/// An index is empty exactly when it has no text.
pub proof fn index_is_empty_without_texts(rows: Seq<(Seq<char>, Seq<Seq<char>>)>)
    ensures
        rows.len() == 0 <==> distinct_texts(rows) == 0,
        distinct_texts(rows) >= 0,
    decreases rows.len(),
{
    if rows.len() > 0 {
        index_is_empty_without_texts(rows.drop_last());
        if rows.len() == 1 {
            assert(rows.drop_last().len() == 0);
        }
    }
}

proof fn word_stands(units: Seq<Seq<char>>, rows: Seq<Row>, w: Word)
    ensures
        words_of(units, rows).contains(w) <==> exists|i: int|
            0 <= i < rows.len() && w == word_of(units, #[trigger] rows[i]),
{
    let all = Seq::new(rows.len(), |i: int| word_of(units, rows[i]));
    sorted_from(all, |a: Word, b: Word| word_before(a, b));
    if words_of(units, rows).contains(w) {
        assert(all.contains(w));
        let i = choose|i: int| 0 <= i < all.len() && all[i] == w;
        assert(w == word_of(units, rows[i]));
    }
    if exists|i: int| 0 <= i < rows.len() && w == word_of(units, #[trigger] rows[i]) {
        let i = choose|i: int| 0 <= i < rows.len() && w == word_of(units, #[trigger] rows[i]);
        assert(all[i] == w);
    }
}

proof fn filtered_words(ws: Seq<Word>, p: spec_fn(Word) -> bool, w: Word)
    ensures
        ws.filter(p).contains(w) <==> ws.contains(w) && p(w),
    decreases ws.len(),
{
    reveal(Seq::filter);
    if ws.len() > 0 {
        let t = ws.drop_last();
        filtered_words(t, p, w);
        let f = ws.filter(p);
        let g = t.filter(p);
        if g.contains(w) {
            let i = choose|i: int| 0 <= i < g.len() && g[i] == w;
            assert(f[i] == w);
        }
        if f.contains(w) {
            let i = choose|i: int| 0 <= i < f.len() && f[i] == w;
            if i < g.len() {
                assert(g[i] == w);
            }
        }
        if t.contains(w) {
            let i = choose|i: int| 0 <= i < t.len() && t[i] == w;
            assert(ws[i] == w);
        }
        if ws.contains(w) {
            let i = choose|i: int| 0 <= i < ws.len() && ws[i] == w;
            if i < t.len() {
                assert(t[i] == w);
            }
        }
        assert(ws[ws.len() - 1] == ws.last());
        if p(ws.last()) {
            assert(f[f.len() - 1] == ws.last());
        }
    }
}

/// A row is found under the code that spells its units, with its text and its
/// score; and what is found under a code is a row that this code spells.
pub proof fn rows_are_found_under_their_codes(units: Seq<Seq<char>>, rows: Seq<Row>, i: int, w: Word)
    requires
        0 <= i < rows.len(),
        units.len() <= u32::MAX,
        forall|j: int, k: int|
            0 <= j < rows.len() && 0 <= k < rows[j].units.len() ==> units.contains(
                #[trigger] rows[j].units[k],
            ),
    ensures
        exists|code: Seq<CodeUnitId>|
            {
                &&& code.len() == rows[i].units.len()
                &&& forall|k: int|
                    0 <= k < code.len() ==> units[(#[trigger] code[k]).0 as int] == rows[i].units[k]
                &&& #[trigger] words_under(words_of(units, rows), code).contains(
                    Word { code, text: rows[i].text, score: rows[i].score, comment: None },
                )
            },
        words_under(words_of(units, rows), w.code).contains(w) ==> exists|j: int|
            {
                &&& 0 <= j < rows.len()
                &&& (#[trigger] rows[j]).text == w.text && rows[j].score == w.score
                &&& w.code.len() == rows[j].units.len()
                &&& forall|k: int|
                    0 <= k < w.code.len() ==> units[(#[trigger] w.code[k]).0 as int]
                        == rows[j].units[k]
            },
{
    let ws = words_of(units, rows);
    let code = code_of(units, rows[i].units);
    let own = word_of(units, rows[i]);
    codes_spell(units, rows[i].units);
    word_stands(units, rows, own);
    filtered_words(ws, |x: Word| x.code == code, own);
    assert(words_under(ws, code).contains(
        Word { code, text: rows[i].text, score: rows[i].score, comment: None },
    ));
    if words_under(ws, w.code).contains(w) {
        filtered_words(ws, |x: Word| x.code == w.code, w);
        word_stands(units, rows, w);
        let j = choose|j: int| 0 <= j < rows.len() && w == word_of(units, #[trigger] rows[j]);
        codes_spell(units, rows[j].units);
        assert(rows[j].text == w.text);
    }
}

proof fn codes_spell(units: Seq<Seq<char>>, row: Seq<Seq<char>>)
    requires
        units.len() <= u32::MAX,
        forall|k: int| 0 <= k < row.len() ==> units.contains(#[trigger] row[k]),
    ensures
        forall|k: int|
            0 <= k < row.len() ==> units[(#[trigger] code_of(units, row)[k]).0 as int] == row[k],
{
    assert forall|k: int| 0 <= k < row.len() implies units[(#[trigger] code_of(
        units,
        row,
    )[k]).0 as int] == row[k] by {
        place_of_finds(units, row[k], 0);
        assert(units.contains(row[k]));
    }
}

/// Words whose code begins with another are found by that beginning: all of
/// them, and no others; those under the beginning itself can be left out.
pub proof fn beginnings_find_longer_codes(ws: Seq<Word>, code: Seq<CodeUnitId>, longer: bool, w: Word)
    requires
        code.len() > 0,
    ensures
        words_from(ws, code, longer).contains(w) <==> {
            &&& ws.contains(w)
            &&& code.len() <= w.code.len()
            &&& forall|k: int| 0 <= k < code.len() ==> #[trigger] code[k] == w.code[k]
            &&& longer ==> w.code.len() > code.len()
        },
        words_from(ws, seq![], longer).len() == 0,
{
    let p = |x: Word| code.is_prefix_of(x.code) && !(longer && x.code == code);
    filtered_words(ws, p, w);
    if code.is_prefix_of(w.code) {
        assert forall|k: int| 0 <= k < code.len() implies #[trigger] code[k] == w.code[k] by {
            assert(w.code.subrange(0, code.len() as int)[k] == w.code[k]);
        }
        if w.code.len() == code.len() {
            assert(w.code =~= code);
        }
    }
    if code.len() <= w.code.len() && forall|k: int|
        0 <= k < code.len() ==> #[trigger] code[k] == w.code[k] {
        assert(w.code.subrange(0, code.len() as int) =~= code);
        assert(code.is_prefix_of(w.code));
    }
}

/// A word is offered with its own text, score and comment, as a word of the
/// system, over as many units as it was looked up with.
pub proof fn words_are_offered_as_they_are(ws: Seq<Word>, units: int, attr: SpellingAttr, i: int)
    requires
        0 <= i < ws.len(),
        0 <= units <= usize::MAX,
    ensures
        word_cands(ws, units, attr).len() == ws.len(),
        ({
            let c = word_cands(ws, units, attr)[i];
            &&& c.text == ws[i].text && c.score == ws[i].score && c.comment == ws[i].comment
            &&& c.attr == attr && c.origin == Origin::SystemWord
            &&& c.span.start == 0 && c.span.end == units
        }),
{
}

/// The codes of a text are those of the rows that have it, in their order.
pub proof fn codes_are_those_of_the_rows(
    a: Seq<(Seq<char>, Seq<Seq<char>>)>,
    b: Seq<(Seq<char>, Seq<Seq<char>>)>,
    row: (Seq<char>, Seq<Seq<char>>),
    text: Seq<char>,
)
    ensures
        codes_for(a + b, text) == codes_for(a, text) + codes_for(b, text),
        codes_for(seq![row], text) == (if row.0 == text {
            seq![row.1]
        } else {
            seq![]
        }),
    decreases b.len(),
{
    reveal_with_fuel(codes_for, 2);
    assert(seq![row].drop_last() =~= Seq::<(Seq<char>, Seq<Seq<char>>)>::empty());
    assert(codes_for(seq![row], text) =~= (if row.0 == text {
        seq![row.1]
    } else {
        seq![]
    }));
    if b.len() == 0 {
        assert(a + b =~= a);
        assert(codes_for(a + b, text) =~= codes_for(a, text) + codes_for(b, text));
    } else {
        codes_are_those_of_the_rows(a, b.drop_last(), row, text);
        assert((a + b).drop_last() =~= a + b.drop_last());
        assert((a + b).last() == b.last());
        assert(codes_for(a + b, text) =~= codes_for(a, text) + codes_for(b, text));
    }
}

/// A buffer is filled from the front up to its size: what was there stays, and
/// what comes in comes in its order; nothing is left out while there is room.
pub proof fn buffers_fill_in_order<T>(there: Seq<T>, new: Seq<T>, cap: int, i: int)
    requires
        0 <= cap,
        there.len() <= cap,
    ensures
        ({
            let r = poured(there, new, cap);
            &&& r.len() == (if there.len() + new.len() <= cap {
                there.len() + new.len()
            } else {
                cap as nat
            })
            &&& 0 <= i < there.len() ==> r[i] == there[i]
            &&& there.len() <= i < r.len() ==> r[i] == new[i - there.len()]
        }),
{
}

} // verus!
