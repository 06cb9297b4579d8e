//! Filters: what becomes of a list of candidates after it was ranked.
//!
//! Filters run in the order that a scheme gives, and each sees what the one
//! before has left.

use std::sync::Arc;
use vstd::prelude::*;
use crate::candidate::{copy_opt, origin_rank, text_opt, Cand, Candidate};
use crate::code::{attr_meet, plus, Score};
use crate::lexicon::{codes_view, ReverseLexicon};
use crate::options::{is_on, Options};
use crate::order::views;
use crate::spelling::{formatted, SpellingFormat};
use crate::table::TextTable;
use crate::text::{
    char_is_whitespace, holds_text, one_more_piece, part, same_text, split_on, split_text,
    starts_at, texts, to_chars, trim_text, trimmed,
};

verus! {

// ---------------------------------------------------------------------------
// Reverse lookup
// ---------------------------------------------------------------------------

/// Texts with a blank between each and the next.
pub open spec fn spaced(words: Seq<Seq<char>>) -> Seq<char>
    decreases words.len(),
{
    if words.len() == 0 {
        seq![]
    } else if words.len() == 1 {
        words[0]
    } else {
        spaced(words.drop_last()).push(' ') + words.last()
    }
}

fn join_spaced(words: &Vec<String>) -> (r: String)
    ensures
        r@ == spaced(texts(words@)),
{
    let ghost all = texts(words@);
    let mut out = String::new();
    let mut i: usize = 0;
    assert(out@ =~= seq![]);
    assert(all.take(0) =~= seq![]);
    while i < words.len()
        invariant
            i <= words@.len(),
            all == texts(words@),
            out@ == spaced(all.take(i as int)),
        decreases words.len() - i,
    {
        proof {
            let t = all.take(i + 1);
            assert(t.drop_last() =~= all.take(i as int));
            assert(t.last() == words@[i as int]@);
            reveal_strlit(" ");
            assert(" "@ =~= seq![' ']);
        }
        if i == 0 {
            out = words[i].clone();
        } else {
            let ghost was = out@;
            out = out.concat(" ").concat(words[i].as_str());
            assert(out@ =~= was.push(' ') + words@[i as int]@);
        }
        i += 1;
    }
    assert(all.take(i as int) =~= all);
    out
}

/// Shows the code of each candidate beside it, as another dictionary has it.
#[derive(Debug)]
pub struct ReverseLookupFilter<L> {
    pub lexicon: L,
    pub comment_format: Option<SpellingFormat>,
    pub overwrite_comment: bool,
}

/// A candidate with the first of `codes` as its comment.
pub open spec fn annotated(
    codes: Seq<Seq<Seq<char>>>,
    format: Option<SpellingFormat>,
    overwrite: bool,
    c: Cand,
) -> Cand {
    if (c.comment is Some && !overwrite) || codes.len() == 0 {
        c
    } else {
        let plain = spaced(codes[0]);
        let text = match format {
            Some(f) => formatted(f.operations(), plain),
            None => plain,
        };
        if text.len() == 0 {
            c
        } else {
            Cand { comment: Some(text), ..c }
        }
    }
}

impl<L: ReverseLexicon> ReverseLookupFilter<L> {
    pub fn new(
        lexicon: L,
        comment_format: Option<SpellingFormat>,
        overwrite_comment: bool,
    ) -> (r: Self)
        ensures
            r.lexicon == lexicon,
            r.comment_format == comment_format,
            r.overwrite_comment == overwrite_comment,
    {
        ReverseLookupFilter { lexicon, comment_format, overwrite_comment }
    }

    /// What the filter makes of one candidate.
    pub open spec fn annotates(&self, c: Cand) -> Cand {
        annotated(
            self.lexicon.codes_of(c.text),
            self.comment_format,
            self.overwrite_comment,
            c,
        )
    }

    fn annotate(&self, c: &Candidate) -> (r: Candidate)
        ensures
            r@ == self.annotates(c@),
    {
        let mut n = c.clone();
        if c.comment.is_some() && !self.overwrite_comment {
            return n;
        }
        let mut codes: Vec<Vec<String>> = Vec::new();
        assert(codes_view(codes@) =~= seq![]);
        self.lexicon.lookup_text(c.text.as_str(), &mut codes);
        assert(codes_view(codes@) =~= self.lexicon.codes_of(c.text@));
        if codes.len() == 0 {
            return n;
        }
        let plain = join_spaced(&codes[0]);
        let text = match &self.comment_format {
            Some(f) => f.apply(plain.as_str()),
            None => plain,
        };
        if !text.as_str().is_empty() {
            n.comment = Some(text);
        }
        n
    }

    pub fn apply(&self, cands: &mut Vec<Candidate>)
        ensures
            final(cands)@.len() == old(cands)@.len(),
            forall|i: int|
                0 <= i < old(cands)@.len() ==> views(final(cands)@)[i] == self.annotates(
                    #[trigger] views(old(cands)@)[i],
                ),
    {
        let ghost before = views(cands@);
        let mut i: usize = 0;
        while i < cands.len()
            invariant
                i <= cands@.len(),
                before == views(old(cands)@),
                cands@.len() == old(cands)@.len(),
                forall|j: int| i <= j < cands@.len() ==> (#[trigger] cands@[j])@ == before[j],
                forall|j: int|
                    0 <= j < i ==> (#[trigger] cands@[j])@ == self.annotates(before[j]),
            decreases cands.len() - i,
        {
            let n = self.annotate(&cands[i]);
            cands.set(i, n);
            i += 1;
        }
    }
}

// ---------------------------------------------------------------------------
// Conversion
// ---------------------------------------------------------------------------

/// Offers other ways to write what was found, by a table.
#[derive(Debug)]
pub struct Converter {
    pub table: Arc<TextTable<Vec<String>>>,
    pub option_name: Option<String>,
    pub inherit_comment: bool,
    /// What a converted candidate is worth less.
    pub penalty: Score,
}

/// How many ways to write one text are offered at most.
pub const CAP: usize = 8;

/// What a converted candidate is worth less where nothing else is said: the
/// weight 0.95.
pub const DEFAULT_PENALTY_MILLI: i32 = -51;

/// The texts that are not empty once trimmed.
pub open spec fn filled_parts(ps: Seq<Seq<char>>) -> Seq<Seq<char>>
    decreases ps.len(),
{
    if ps.len() == 0 {
        seq![]
    } else {
        let head = filled_parts(ps.drop_last());
        let t = trimmed(ps.last());
        if t.len() == 0 {
            head
        } else {
            head.push(t)
        }
    }
}

/// What one target of a row stands for. One that begins with the key itself
/// adds something to it, and that is meant; any other is a list of choices
/// with blanks between them.
pub open spec fn target_choices(key: Seq<char>, target: Seq<char>) -> Seq<Seq<char>> {
    if key.is_prefix_of(target) {
        filled_parts(seq![target.skip(key.len() as int)])
    } else {
        filled_parts(split_on(target, ' '))
    }
}

/// All that the targets of a row stand for.
pub open spec fn row_choices(key: Seq<char>, targets: Seq<Seq<char>>) -> Seq<Seq<char>>
    decreases targets.len(),
{
    if targets.len() == 0 {
        seq![]
    } else {
        row_choices(key, targets.drop_last()) + target_choices(key, targets.last())
    }
}

/// How long the longest key is, of at most `len` characters, that stands at `i`
/// and has targets.
pub open spec fn longest_key(
    m: Map<Seq<char>, Vec<String>>,
    s: Seq<char>,
    i: int,
    len: int,
) -> Option<int>
    decreases len,
{
    if len <= 0 {
        None
    } else {
        let key = s.subrange(i, i + len);
        if m.contains_key(key) && m[key]@.len() > 0 {
            Some(len)
        } else {
            longest_key(m, s, i, len - 1)
        }
    }
}

pub proof fn longest_key_bounds(m: Map<Seq<char>, Vec<String>>, s: Seq<char>, i: int, len: int)
    ensures
        longest_key(m, s, i, len) matches Some(n) ==> 0 < n <= len,
    decreases len,
{
    if len > 0 {
        longest_key_bounds(m, s, i, len - 1);
    }
}

/// The choices for each piece of a text, from `i` on: what the longest key
/// there offers, or the character itself.
pub open spec fn choice_plan(m: Map<Seq<char>, Vec<String>>, s: Seq<char>, i: int) -> Seq<
    Seq<Seq<char>>,
>
    decreases s.len() - i,
{
    if i < 0 || i >= s.len() {
        seq![]
    } else {
        proof {
            longest_key_bounds(m, s, i, s.len() - i);
        }
        match longest_key(m, s, i, s.len() - i) {
            Some(n) => {
                let key = s.subrange(i, i + n);
                seq![row_choices(key, texts(m[key]@))] + choice_plan(m, s, i + n)
            },
            None => seq![seq![seq![s[i]]]] + choice_plan(m, s, i + 1),
        }
    }
}

/// Every way to take one choice for each piece from `d` on, behind `current`;
/// the first choices come first.
pub open spec fn spellings(plan: Seq<Seq<Seq<char>>>, d: int, current: Seq<char>) -> Seq<Seq<char>>
    decreases plan.len() - d, 1int, 0int,
{
    if d < 0 || d >= plan.len() {
        seq![current]
    } else {
        spellings_by(plan, d, current, plan[d].len() as int)
    }
}

/// The same, with only the first `n` choices for the piece at `d`.
pub open spec fn spellings_by(
    plan: Seq<Seq<Seq<char>>>,
    d: int,
    current: Seq<char>,
    n: int,
) -> Seq<Seq<char>>
    decreases plan.len() - d, 0int, n,
{
    if n <= 0 || d < 0 || d >= plan.len() {
        seq![]
    } else {
        spellings_by(plan, d, current, n - 1) + spellings(plan, d + 1, current + plan[d][n - 1])
    }
}

/// A list after more texts were added, each once, as long as there is room.
pub open spec fn gathered(out: Seq<Seq<char>>, more: Seq<Seq<char>>) -> Seq<Seq<char>>
    decreases more.len(),
{
    if more.len() == 0 {
        out
    } else {
        let head = gathered(out, more.drop_last());
        if head.len() < CAP && !head.contains(more.last()) {
            head.push(more.last())
        } else {
            head
        }
    }
}

/// The texts that differ from `t`.
pub open spec fn differing(list: Seq<Seq<char>>, t: Seq<char>) -> Seq<Seq<char>>
    decreases list.len(),
{
    if list.len() == 0 {
        seq![]
    } else {
        let head = differing(list.drop_last(), t);
        if list.last() == t {
            head
        } else {
            head.push(list.last())
        }
    }
}

/// The other ways to write a text.
pub open spec fn conversions(m: Map<Seq<char>, Vec<String>>, s: Seq<char>) -> Seq<Seq<char>> {
    differing(gathered(seq![], spellings(choice_plan(m, s, 0), 0, seq![])), s)
}

proof fn gathered_full(out: Seq<Seq<char>>, more: Seq<Seq<char>>)
    requires
        out.len() >= CAP,
    ensures
        gathered(out, more) == out,
    decreases more.len(),
{
    if more.len() > 0 {
        gathered_full(out, more.drop_last());
    }
}

proof fn gathered_twice(out: Seq<Seq<char>>, a: Seq<Seq<char>>, b: Seq<Seq<char>>)
    ensures
        gathered(out, a + b) == gathered(gathered(out, a), b),
    decreases b.len(),
{
    if b.len() == 0 {
        assert(a + b =~= a);
    } else {
        gathered_twice(out, a, b.drop_last());
        assert((a + b).drop_last() =~= a + b.drop_last());
        assert((a + b).last() == b.last());
    }
}

proof fn gathered_is_short(out: Seq<Seq<char>>, more: Seq<Seq<char>>)
    requires
        out.len() <= CAP,
    ensures
        gathered(out, more).len() <= CAP,
    decreases more.len(),
{
    if more.len() > 0 {
        gathered_is_short(out, more.drop_last());
    }
}

pub open spec fn plan_view(plan: Seq<Vec<String>>) -> Seq<Seq<Seq<char>>> {
    Seq::new(plan.len(), |i: int| texts(plan[i]@))
}

fn push_filled(p: &str, out: &mut Vec<String>)
    ensures
        texts(final(out)@) == texts(old(out)@) + filled_parts(seq![p@]),
{
    let ghost before = texts(out@);
    let t = trim_text(p);
    proof {
        let one = seq![p@];
        assert(one.drop_last() =~= seq![]);
        assert(filled_parts(one.drop_last()) == Seq::<Seq<char>>::empty());
    }
    if !t.as_str().is_empty() {
        let ghost v = t@;
        out.push(t);
        assert(texts(out@) =~= before.push(v));
        assert(texts(out@) =~= before + filled_parts(seq![p@]));
    } else {
        assert(texts(out@) =~= before + filled_parts(seq![p@]));
    }
}

proof fn filled_parts_last(ps: Seq<Seq<char>>)
    requires
        ps.len() > 0,
    ensures
        filled_parts(ps) == filled_parts(ps.drop_last()) + filled_parts(seq![ps.last()]),
{
    let one = seq![ps.last()];
    assert(one.drop_last() =~= seq![]);
    assert(filled_parts(one.drop_last()) == Seq::<Seq<char>>::empty());
    assert(filled_parts(ps) =~= filled_parts(ps.drop_last()) + filled_parts(one));
}

fn expand_targets(key: &str, targets: &Vec<String>) -> (r: Vec<String>)
    ensures
        texts(r@) == row_choices(key@, texts(targets@)),
{
    let ghost all = texts(targets@);
    let mut out: Vec<String> = Vec::new();
    let mut i: usize = 0;
    assert(all.take(0) =~= seq![]);
    assert(texts(out@) =~= seq![]);
    while i < targets.len()
        invariant
            i <= targets@.len(),
            all == texts(targets@),
            texts(out@) == row_choices(key@, all.take(i as int)),
        decreases targets.len() - i,
    {
        let ghost had = texts(out@);
        let t = &targets[i];
        proof {
            let f = all.take(i + 1);
            assert(f.drop_last() =~= all.take(i as int));
            assert(f.last() == t@);
        }
        let cs = to_chars(t.as_str());
        assert(cs@.skip(0) =~= t@);
        if starts_at(&cs, 0, key) {
            let n: usize = to_chars(key).len();
            let rest = part(&cs, n, cs.len());
            assert(rest@ =~= t@.skip(n as int));
            push_filled(rest.as_str(), &mut out);
        } else {
            let parts = split_text(t.as_str(), ' ');
            let ghost ps = texts(parts@);
            let mut j: usize = 0;
            assert(ps.take(0) =~= seq![]);
            assert(had + filled_parts(seq![]) =~= had);
            while j < parts.len()
                invariant
                    j <= parts@.len(),
                    ps == texts(parts@),
                    texts(out@) == had + filled_parts(ps.take(j as int)),
                decreases parts.len() - j,
            {
                proof {
                    let f = ps.take(j + 1);
                    assert(f.drop_last() =~= ps.take(j as int));
                    assert(f.last() == parts@[j as int]@);
                    filled_parts_last(f);
                }
                push_filled(parts[j].as_str(), &mut out);
                assert(texts(out@) =~= had + filled_parts(ps.take(j + 1)));
                j += 1;
            }
            assert(ps.take(j as int) =~= ps);
        }
        i += 1;
    }
    assert(all.take(i as int) =~= all);
    out
}

fn expand(plan: &Vec<Vec<String>>, depth: usize, current: &str, out: &mut Vec<String>)
    requires
        depth <= plan@.len(),
    ensures
        texts(final(out)@) == gathered(
            texts(old(out)@),
            spellings(plan_view(plan@), depth as int, current@),
        ),
    decreases plan@.len() - depth,
{
    let ghost pv = plan_view(plan@);
    let ghost start = texts(out@);
    if out.len() >= CAP {
        proof {
            gathered_full(start, spellings(pv, depth as int, current@));
        }
        return;
    }
    if depth == plan.len() {
        proof {
            let one = seq![current@];
            assert(one.drop_last() =~= seq![]);
            assert(gathered(start, one.drop_last()) == start);
        }
        if !holds_text(out, current) {
            out.push(current.to_owned());
            assert(texts(out@) =~= start.push(current@));
        }
        return;
    }
    let choices = &plan[depth];
    assert(pv[depth as int] == texts(choices@));
    let mut k: usize = 0;
    while k < choices.len()
        invariant
            k <= choices@.len(),
            depth < plan.len(),
            choices@ == plan@[depth as int]@,
            pv == plan_view(plan@),
            pv[depth as int] == texts(choices@),
            texts(out@) == gathered(start, spellings_by(pv, depth as int, current@, k as int)),
        decreases choices.len() - k,
    {
        let next = current.to_owned().concat(choices[k].as_str());
        assert(next@ == current@ + pv[depth as int][k as int]);
        expand(plan, depth + 1, next.as_str(), out);
        proof {
            gathered_twice(
                start,
                spellings_by(pv, depth as int, current@, k as int),
                spellings(pv, depth + 1, next@),
            );
        }
        k += 1;
    }
}

impl Converter {
    pub open spec fn wf(&self) -> bool {
        self.table.wf()
    }

    /// Builds a converter. A penalty that is none is replaced by the default
    /// one.
    pub fn new(
        table: Arc<TextTable<Vec<String>>>,
        option_name: Option<String>,
        inherit_comment: bool,
        penalty: Score,
    ) -> (r: Self)
        ensures
            r.table == table,
            r.option_name == option_name,
            r.inherit_comment == inherit_comment,
            r.penalty == (if penalty.milli < 0 {
                penalty
            } else {
                Score { milli: DEFAULT_PENALTY_MILLI }
            }),
    {
        let penalty = if penalty.milli < 0 {
            penalty
        } else {
            Score { milli: DEFAULT_PENALTY_MILLI }
        };
        Converter { table, option_name, inherit_comment, penalty }
    }

    /// How many rows the table has.
    #[must_use]
    pub fn len(&self) -> (r: usize)
        ensures
            r == self.table.keys().len(),
    {
        self.table.len()
    }

    #[must_use]
    pub fn is_empty(&self) -> (r: bool)
        ensures
            r == (self.table.keys().len() == 0),
    {
        self.table.is_empty()
    }

    fn choices_at(&self, cs: &Vec<char>, i: usize) -> (r: (usize, Vec<String>))
        requires
            self.wf(),
            i < cs@.len(),
        ensures
            0 < r.0 <= cs@.len() - i,
            choice_plan(self.table@, cs@, i as int) == seq![texts(r.1@)] + choice_plan(
                self.table@,
                cs@,
                i + r.0,
            ),
    {
        let ghost m = self.table@;
        let mut len: usize = cs.len() - i;
        while len > 0
            invariant
                self.wf(),
                m == self.table@,
                i < cs@.len(),
                len <= cs.len() - i,
                longest_key(m, cs@, i as int, cs@.len() - i) == longest_key(
                    m,
                    cs@,
                    i as int,
                    len as int,
                ),
            decreases len,
        {
            let key = part(cs, i, i + len);
            assert(key@ =~= cs@.subrange(i as int, i + len));
            if let Some(v) = self.table.get(key.as_str()) {
                if v.len() > 0 {
                    return (len, expand_targets(key.as_str(), v));
                }
            }
            len -= 1;
        }
        let one = part(cs, i, i + 1);
        assert(one@ =~= seq![cs@[i as int]]);
        let mut v: Vec<String> = Vec::new();
        v.push(one);
        assert(texts(v@) =~= seq![seq![cs@[i as int]]]);
        (1, v)
    }

    /// All other ways to write a text: each piece that the table knows, the
    /// longest first, is replaced by one of its choices.
    #[must_use]
    pub fn convert_all(&self, text: &str) -> (r: Vec<String>)
        requires
            self.wf(),
        ensures
            texts(r@) == conversions(self.table@, text@),
    {
        let cs = to_chars(text);
        let ghost m = self.table@;
        let ghost whole = choice_plan(m, cs@, 0);
        let mut plan: Vec<Vec<String>> = Vec::new();
        let mut i: usize = 0;
        assert(plan_view(plan@) + whole =~= whole);
        while i < cs.len()
            invariant
                self.wf(),
                m == self.table@,
                i <= cs@.len(),
                whole == plan_view(plan@) + choice_plan(m, cs@, i as int),
            decreases cs.len() - i,
        {
            let ghost had = plan@;
            let (n, choices) = self.choices_at(&cs, i);
            let ghost v = texts(choices@);
            plan.push(choices);
            proof {
                assert(plan_view(plan@) =~= plan_view(had).push(v));
                let rest = choice_plan(m, cs@, i + n);
                assert(plan_view(had) + (seq![v] + rest) =~= plan_view(plan@) + rest);
            }
            i += n;
        }
        assert(whole =~= plan_view(plan@));
        let mut all: Vec<String> = Vec::new();
        assert(texts(all@) =~= seq![]);
        let empty = String::new();
        assert(empty@ =~= seq![]);
        expand(&plan, 0, empty.as_str(), &mut all);
        let ghost list = texts(all@);
        let mut out: Vec<String> = Vec::new();
        let mut k: usize = 0;
        assert(list.take(0) =~= seq![]);
        assert(texts(out@) =~= seq![]);
        while k < all.len()
            invariant
                k <= all@.len(),
                list == texts(all@),
                texts(out@) == differing(list.take(k as int), text@),
            decreases all.len() - k,
        {
            proof {
                let t = list.take(k + 1);
                assert(t.drop_last() =~= list.take(k as int));
                assert(t.last() == all@[k as int]@);
            }
            let ghost had = texts(out@);
            if !same_text(all[k].as_str(), text) {
                out.push(all[k].clone());
                assert(texts(out@) =~= had.push(all@[k as int]@));
            }
            k += 1;
        }
        assert(list.take(k as int) =~= list);
        out
    }

    /// The first of the other ways to write a text.
    #[must_use]
    pub fn convert(&self, text: &str) -> (r: Option<String>)
        requires
            self.wf(),
        ensures
            ({
                let all = conversions(self.table@, text@);
                text_opt(r) == (if all.len() > 0 {
                    Some(all[0])
                } else {
                    None
                })
            }),
    {
        let all = self.convert_all(text);
        if all.len() > 0 {
            assert(texts(all@)[0] == all@[0]@);
            Some(all[0].clone())
        } else {
            None
        }
    }

    /// A candidate written in another way.
    pub open spec fn rewritten(&self, c: Cand, t: Seq<char>) -> Cand {
        Cand {
            text: t,
            comment: if self.inherit_comment {
                c.comment
            } else {
                None
            },
            score: plus(c.score, self.penalty),
            ..c
        }
    }

    /// The candidates that are added for one, or for a list.
    pub open spec fn added_for(&self, c: Cand) -> Seq<Cand> {
        conversions(self.table@, c.text).map_values(|t: Seq<char>| self.rewritten(c, t))
    }

    pub open spec fn added(&self, cs: Seq<Cand>) -> Seq<Cand>
        decreases cs.len(),
    {
        if cs.len() == 0 {
            seq![]
        } else {
            self.added(cs.drop_last()) + self.added_for(cs.last())
        }
    }

    /// Whether the switch that the converter hangs on, if any, is on.
    pub open spec fn active(&self, options: Map<Seq<char>, bool>) -> bool {
        match self.option_name {
            Some(n) => is_on(options, n@),
            None => true,
        }
    }

    /// Adds the converted candidates behind the others, where the switch is on.
    pub fn apply(&self, options: &Options, cands: &mut Vec<Candidate>)
        requires
            self.wf(),
        ensures
            views(final(cands)@) == (if self.active(options@) {
                views(old(cands)@) + self.added(views(old(cands)@))
            } else {
                views(old(cands)@)
            }),
    {
        if let Some(name) = &self.option_name {
            if !options.get(name.as_str()) {
                return;
            }
        }
        let ghost before = views(cands@);
        let n: usize = cands.len();
        let mut i: usize = 0;
        assert(before.take(0) =~= seq![]);
        assert(before + self.added(seq![]) =~= before);
        while i < n
            invariant
                self.wf(),
                n == before.len(),
                i <= n <= cands@.len(),
                views(cands@) == before + self.added(before.take(i as int)),
            decreases n - i,
        {
            assert(views(cands@)[i as int] == cands@[i as int]@);
            let c = cands[i].clone();
            let ghost v = before[i as int];
            let all = self.convert_all(c.text.as_str());
            let ghost conv = texts(all@);
            let ghost had = views(cands@);
            proof {
                let t = before.take(i + 1);
                assert(t.drop_last() =~= before.take(i as int));
                assert(t.last() == v);
            }
            let mut k: usize = 0;
            assert(had + self.added_for(v).take(0) =~= had);
            while k < all.len()
                invariant
                    self.wf(),
                    k <= all@.len(),
                    conv == texts(all@),
                    conv == conversions(self.table@, v.text),
                    c@ == v,
                    n <= had.len(),
                    views(cands@) == had + self.added_for(v).take(k as int),
                decreases all.len() - k,
            {
                let mut x = c.clone();
                x.text = all[k].clone();
                if !self.inherit_comment {
                    x.comment = None;
                }
                x.score = c.score.saturating_add(self.penalty);
                let ghost xv = x@;
                let ghost was = views(cands@);
                cands.push(x);
                proof {
                    assert(views(cands@) =~= was.push(xv));
                    assert(xv == self.rewritten(v, conv[k as int]));
                    assert(self.added_for(v).take(k + 1) =~= self.added_for(v).take(
                        k as int,
                    ).push(xv));
                    assert(views(cands@) =~= had + self.added_for(v).take(k + 1));
                }
                k += 1;
            }
            proof {
                assert(self.added_for(v).take(k as int) =~= self.added_for(v));
                assert(views(cands@) =~= before + self.added(before.take(i + 1)));
            }
            i += 1;
        }
        assert(before.take(n as int) =~= before);
    }
}

// ---------------------------------------------------------------------------
// One candidate for each text
// ---------------------------------------------------------------------------

/// Keeps one candidate for each text.
#[derive(Clone, Copy, Debug)]
pub struct Uniquifier;

/// The first candidate with a text, from `from` on.
pub open spec fn text_place(cs: Seq<Cand>, text: Seq<char>, from: int) -> Option<int>
    decreases cs.len() - from,
{
    if from < 0 || from >= cs.len() {
        None
    } else if cs[from].text == text {
        Some(from)
    } else {
        text_place(cs, text, from + 1)
    }
}

/// Two candidates with one text as one: the better score, the more trusted
/// source, the marks that both have, and the first comment.
pub open spec fn merged(a: Cand, b: Cand) -> Cand {
    Cand {
        score: if b.score.milli > a.score.milli {
            b.score
        } else {
            a.score
        },
        origin: if origin_rank(b.origin) < origin_rank(a.origin) {
            b.origin
        } else {
            a.origin
        },
        attr: attr_meet(a.attr, b.attr),
        comment: match a.comment {
            Some(t) => Some(t),
            None => b.comment,
        },
        ..a
    }
}

/// A list with one candidate for each text, each where its text first stood.
pub open spec fn unique(cs: Seq<Cand>) -> Seq<Cand>
    decreases cs.len(),
{
    if cs.len() == 0 {
        seq![]
    } else {
        let head = unique(cs.drop_last());
        let c = cs.last();
        match text_place(head, c.text, 0) {
            None => head.push(c),
            Some(i) => head.update(i, merged(head[i], c)),
        }
    }
}

fn find_text(cands: &Vec<Candidate>, text: &str) -> (r: Option<usize>)
    ensures
        match text_place(views(cands@), text@, 0) {
            Some(i) => r matches Some(k) && k == i && k < cands@.len(),
            None => r is None,
        },
{
    let ghost cs = views(cands@);
    let mut i: usize = 0;
    while i < cands.len()
        invariant
            i <= cands@.len(),
            cs == views(cands@),
            text_place(cs, text@, 0) == text_place(cs, text@, i as int),
        decreases cands.len() - i,
    {
        assert(cs[i as int] == cands@[i as int]@);
        if same_text(cands[i].text.as_str(), text) {
            return Some(i);
        }
        i += 1;
    }
    None
}

fn merge(a: &Candidate, b: &Candidate) -> (r: Candidate)
    ensures
        r@ == merged(a@, b@),
{
    let mut n = a.clone();
    if b.score.milli > a.score.milli {
        n.score = b.score;
    }
    if b.origin.rank() < a.origin.rank() {
        n.origin = b.origin;
    }
    n.attr = a.attr.intersect(b.attr);
    if a.comment.is_none() {
        n.comment = copy_opt(&b.comment);
    }
    n
}

impl Uniquifier {
    pub fn apply(&self, cands: &mut Vec<Candidate>)
        ensures
            views(final(cands)@) == unique(views(old(cands)@)),
    {
        let ghost before = views(cands@);
        let mut out: Vec<Candidate> = Vec::new();
        let mut i: usize = 0;
        assert(before.take(0) =~= seq![]);
        assert(views(out@) =~= seq![]);
        while i < cands.len()
            invariant
                i <= cands@.len(),
                before == views(cands@),
                views(out@) == unique(before.take(i as int)),
            decreases cands.len() - i,
        {
            let c = &cands[i];
            let ghost had = views(out@);
            proof {
                let t = before.take(i + 1);
                assert(t.drop_last() =~= before.take(i as int));
                assert(t.last() == c@);
            }
            match find_text(&out, c.text.as_str()) {
                None => {
                    out.push(c.clone());
                    assert(views(out@) =~= had.push(c@));
                },
                Some(k) => {
                    assert(had[k as int] == out@[k as int]@);
                    let n = merge(&out[k], c);
                    let ghost nv = n@;
                    out.set(k, n);
                    assert(views(out@) =~= had.update(k as int, nv));
                },
            }
            i += 1;
        }
        assert(before.take(i as int) =~= before);
        *cands = out;
    }
}

// ---------------------------------------------------------------------------
// Laws
// ---------------------------------------------------------------------------

proof fn text_place_finds(cs: Seq<Cand>, text: Seq<char>, from: int)
    requires
        0 <= from <= cs.len(),
    ensures
        match text_place(cs, text, from) {
            Some(i) => from <= i < cs.len() && cs[i].text == text,
            None => forall|j: int| from <= j < cs.len() ==> (#[trigger] cs[j]).text != text,
        },
    decreases cs.len() - from,
{
    if from < cs.len() && cs[from].text != text {
        text_place_finds(cs, text, from + 1);
    }
}

/// No text is left twice.
pub proof fn unique_texts_differ(cs: Seq<Cand>)
    ensures
        forall|i: int, j: int|
            0 <= i < j < unique(cs).len() ==> (#[trigger] unique(cs)[i]).text != (
            #[trigger] unique(cs)[j]).text,
    decreases cs.len(),
{
    if cs.len() > 0 {
        let head = unique(cs.drop_last());
        unique_texts_differ(cs.drop_last());
        text_place_finds(head, cs.last().text, 0);
        let u = unique(cs);
        assert forall|i: int, j: int| 0 <= i < j < u.len() implies (#[trigger] u[i]).text != (
        #[trigger] u[j]).text by {
            if i < head.len() && j < head.len() {
                assert(u[i].text == head[i].text && u[j].text == head[j].text);
            } else {
                assert(u[i] == head[i]);
            }
        }
    }
}

/// No text is lost, and what is left for it has at least its score and its
/// trust, and no mark that it lacks.
pub proof fn unique_keeps_the_best(cs: Seq<Cand>, i: int)
    requires
        0 <= i < cs.len(),
    ensures
        exists|k: int| #![trigger unique(cs)[k]]
            0 <= k < unique(cs).len() && unique(cs)[k].text == cs[i].text
                && unique(cs)[k].score.milli >= cs[i].score.milli && origin_rank(
                unique(cs)[k].origin,
            ) <= origin_rank(cs[i].origin) && attr_meet(unique(cs)[k].attr, cs[i].attr)
                == unique(cs)[k].attr,
    decreases cs.len(),
{
    let u = unique(cs);
    let head = unique(cs.drop_last());
    let c = cs.last();
    text_place_finds(head, c.text, 0);
    if i < cs.len() - 1 {
        unique_keeps_the_best(cs.drop_last(), i);
        let k = choose|k: int| #![trigger head[k]]
            0 <= k < head.len() && head[k].text == cs[i].text && head[k].score.milli
                >= cs[i].score.milli && origin_rank(head[k].origin) <= origin_rank(cs[i].origin)
                && attr_meet(head[k].attr, cs[i].attr) == head[k].attr;
        assert(u[k].text == cs[i].text);
    } else {
        match text_place(head, c.text, 0) {
            None => {
                assert(u[head.len() as int] == c);
            },
            Some(k) => {
                assert(u[k] == merged(head[k], c));
            },
        }
    }
}

/// A list without repeated texts stays as it is.
pub proof fn unique_changes_nothing_twice(cs: Seq<Cand>)
    requires
        forall|i: int, j: int|
            0 <= i < j < cs.len() ==> (#[trigger] cs[i]).text != (#[trigger] cs[j]).text,
    ensures
        unique(cs) == cs,
    decreases cs.len(),
{
    if cs.len() > 0 {
        let head = cs.drop_last();
        unique_changes_nothing_twice(head);
        text_place_finds(head, cs.last().text, 0);
        if let Some(i) = text_place(head, cs.last().text, 0) {
            assert(cs[i].text != cs[cs.len() - 1].text);
        }
        assert(unique(cs) =~= cs);
    } else {
        assert(unique(cs) =~= cs);
    }
}

proof fn gathered_distinct(out: Seq<Seq<char>>, more: Seq<Seq<char>>)
    requires
        out.no_duplicates(),
    ensures
        gathered(out, more).no_duplicates(),
    decreases more.len(),
{
    if more.len() > 0 {
        gathered_distinct(out, more.drop_last());
    }
}

proof fn differing_facts(list: Seq<Seq<char>>, t: Seq<char>)
    ensures
        differing(list, t).len() <= list.len(),
        !differing(list, t).contains(t),
        forall|x: Seq<char>| #[trigger] differing(list, t).contains(x) ==> list.contains(x),
        list.no_duplicates() ==> differing(list, t).no_duplicates(),
    decreases list.len(),
{
    if list.len() > 0 {
        let head = list.drop_last();
        differing_facts(head, t);
        let d = differing(list, t);
        let h = differing(head, t);
        assert forall|x: Seq<char>| #[trigger] d.contains(x) implies list.contains(x) && x != t by {
            let i = choose|i: int| 0 <= i < d.len() && d[i] == x;
            if i < h.len() {
                assert(h[i] == x);
                assert(h.contains(x));
                let j = choose|j: int| 0 <= j < head.len() && head[j] == x;
                assert(list[j] == x);
            } else {
                assert(x == list.last());
                assert(list[list.len() - 1] == x);
            }
        }
        if list.no_duplicates() {
            assert(head.no_duplicates()) by {
                assert forall|i: int, j: int|
                    0 <= i < head.len() && 0 <= j < head.len() && i != j implies head[i]
                    != head[j] by {
                    assert(list[i] != list[j]);
                }
            }
            assert forall|i: int, j: int|
                0 <= i < d.len() && 0 <= j < d.len() && i != j implies d[i] != d[j] by {
                if i < h.len() && j < h.len() {
                    assert(h[i] != h[j]);
                } else {
                    let k = if i < h.len() { i } else { j };
                    assert(h.contains(h[k]));
                    let n = choose|n: int| 0 <= n < head.len() && head[n] == h[k];
                    assert(list[n] != list[list.len() - 1]);
                }
            }
        }
    }
}

/// The other ways to write a text are few, differ from each other, and none is
/// the text itself.
pub proof fn conversions_are_new_and_few(m: Map<Seq<char>, Vec<String>>, s: Seq<char>)
    ensures
        conversions(m, s).len() <= CAP,
        conversions(m, s).no_duplicates(),
        !conversions(m, s).contains(s),
{
    let all = spellings(choice_plan(m, s, 0), 0, seq![]);
    gathered_is_short(seq![], all);
    gathered_distinct(seq![], all);
    differing_facts(gathered(seq![], all), s);
}

/// Words joined with blanks are the same words again when they are parted at
/// the blanks, as long as none of them holds one.
pub proof fn spaced_words_part_again(words: Seq<Seq<char>>)
    requires
        words.len() > 0,
        forall|i: int| 0 <= i < words.len() ==> !(#[trigger] words[i]).contains(' '),
    ensures
        split_on(spaced(words), ' ') == words,
    decreases words.len(),
{
    let w = words.last();
    assert(words[words.len() - 1] == w);
    if words.len() == 1 {
        one_more_piece(w, Seq::<char>::empty(), ' ');
        assert(Seq::<char>::empty() + w =~= w);
        assert(split_on(w, ' ') =~= words);
    } else {
        let front = words.drop_last();
        assert forall|i: int| 0 <= i < front.len() implies !(#[trigger] front[i]).contains(' ') by {
            assert(front[i] == words[i]);
        }
        spaced_words_part_again(front);
        let s = spaced(front).push(' ');
        assert(s.drop_last() =~= spaced(front));
        assert(split_on(s, ' ') == front.push(seq![]));
        one_more_piece(w, s, ' ');
        assert(split_on(s, ' ').drop_last() =~= front);
        assert(Seq::<char>::empty() + w =~= w);
        assert(split_on(s + w, ' ') =~= words);
    }
}

/// The first code of a text becomes its comment, unit by unit with blanks
/// between them; a candidate that has a comment keeps it unless it is to be
/// overwritten, and one without a code stays as it is.
pub proof fn codes_become_comments(
    codes: Seq<Seq<Seq<char>>>,
    overwrite: bool,
    c: Cand,
)
    ensures
        c.comment is Some && !overwrite ==> annotated(codes, None, overwrite, c) == c,
        codes.len() == 0 ==> annotated(codes, None, overwrite, c) == c,
        codes.len() > 0 && (c.comment is None || overwrite) && spaced(codes[0]).len() > 0
            ==> annotated(codes, None, overwrite, c) == (Cand {
            comment: Some(spaced(codes[0])),
            ..c
        }),
{
}

/// Two candidates with one text become one with the higher score, the source
/// that is trusted more, only the marks that both have, and the comment of the
/// first that has one; all else is the first one's.
pub proof fn merging_takes_the_better(a: Cand, b: Cand)
    ensures
        ({
            let m = merged(a, b);
            &&& m.score.milli >= a.score.milli && m.score.milli >= b.score.milli
            &&& m.score == a.score || m.score == b.score
            &&& origin_rank(m.origin) <= origin_rank(a.origin) && origin_rank(m.origin)
                <= origin_rank(b.origin)
            &&& m.origin == a.origin || m.origin == b.origin
            &&& m.attr.fuzzy == (a.attr.fuzzy && b.attr.fuzzy)
            &&& m.attr.abbrev == (a.attr.abbrev && b.attr.abbrev)
            &&& m.attr.completion == (a.attr.completion && b.attr.completion)
            &&& a.comment is Some ==> m.comment == a.comment
            &&& a.comment is None ==> m.comment == b.comment
            &&& m.text == a.text && m.span == a.span && m.kind == a.kind && m.key == a.key
                && m.lane == a.lane
        }),
{
}

/// Texts keep the order in which they first came: what later candidates add
/// stands behind what was there.
pub proof fn first_places_are_kept(a: Seq<Cand>, b: Seq<Cand>, i: int)
    requires
        0 <= i < unique(a).len(),
    ensures
        unique(a).len() <= unique(a + b).len(),
        unique(a + b)[i].text == unique(a)[i].text,
    decreases b.len(),
{
    if b.len() == 0 {
        assert(a + b =~= a);
    } else {
        first_places_are_kept(a, b.drop_last(), i);
        assert((a + b).drop_last() =~= a + b.drop_last());
        text_place_finds(unique(a + b.drop_last()), (a + b).last().text, 0);
    }
}

/// The longest key that stands at a place counts, as long as it has targets.
pub proof fn the_longest_key_counts(
    m: Map<Seq<char>, Vec<String>>,
    s: Seq<char>,
    i: int,
    len: int,
    n: int,
)
    requires
        0 < n <= len,
        m.contains_key(s.subrange(i, i + n)),
        m[s.subrange(i, i + n)]@.len() > 0,
        forall|k: int|
            n < k <= len ==> !(m.contains_key(#[trigger] s.subrange(i, i + k)) && m[s.subrange(
                i,
                i + k,
            )]@.len() > 0),
    ensures
        longest_key(m, s, i, len) == Some(n),
    decreases len,
{
    if len > n {
        the_longest_key_counts(m, s, i, len - 1, n);
    }
}

proof fn no_key_stands(m: Map<Seq<char>, Vec<String>>, s: Seq<char>, i: int, len: int)
    requires
        forall|k: int|
            0 < k <= len ==> !(m.contains_key(#[trigger] s.subrange(i, i + k)) && m[s.subrange(
                i,
                i + k,
            )]@.len() > 0),
    ensures
        longest_key(m, s, i, len) is None,
    decreases len,
{
    if len > 0 {
        no_key_stands(m, s, i, len - 1);
    }
}

proof fn spelled_as_it_is(m: Map<Seq<char>, Vec<String>>, s: Seq<char>, i: int, current: Seq<char>)
    requires
        0 <= i <= s.len(),
        forall|j: int, k: int|
            0 <= j && 0 < k && j + k <= s.len() ==> !(m.contains_key(#[trigger] s.subrange(j, j + k))
                && m[s.subrange(j, j + k)]@.len() > 0),
    ensures
        spellings(choice_plan(m, s, i), 0, current) == seq![current + s.skip(i)],
    decreases s.len() - i,
{
    reveal_with_fuel(spellings, 2);
    reveal_with_fuel(spellings_by, 3);
    let plan = choice_plan(m, s, i);
    if i < s.len() {
        assert forall|k: int| 0 < k <= s.len() - i implies !(m.contains_key(
            #[trigger] s.subrange(i, i + k),
        ) && m[s.subrange(i, i + k)]@.len() > 0) by {}
        no_key_stands(m, s, i, s.len() - i);
        let rest = choice_plan(m, s, i + 1);
        assert(plan == seq![seq![seq![s[i]]]] + rest);
        assert(plan[0] == seq![seq![s[i]]]);
        spelled_as_it_is(m, s, i + 1, current + seq![s[i]]);
        spelled_from(seq![seq![seq![s[i]]]], rest, 1, current + seq![s[i]]);
        assert(current + seq![s[i]] + s.skip(i + 1) =~= current + s.skip(i));
        assert(spellings(plan, 0, current) =~= spellings(plan, 1, current + seq![s[i]]));
    } else {
        assert(current + s.skip(i) =~= current);
    }
}

proof fn spelled_from(
    front: Seq<Seq<Seq<char>>>,
    rest: Seq<Seq<Seq<char>>>,
    d: int,
    current: Seq<char>,
)
    requires
        front.len() <= d <= front.len() + rest.len(),
    ensures
        spellings(front + rest, d, current) == spellings(rest, d - front.len(), current),
    decreases front.len() + rest.len() - d, 1int, 0int,
{
    let plan = front + rest;
    let e = d - front.len();
    if d < plan.len() {
        assert(plan[d] == rest[e]);
        spelled_from_by(front, rest, d, current, plan[d].len() as int);
    }
}

proof fn spelled_from_by(
    front: Seq<Seq<Seq<char>>>,
    rest: Seq<Seq<Seq<char>>>,
    d: int,
    current: Seq<char>,
    n: int,
)
    requires
        front.len() <= d < front.len() + rest.len(),
        n <= rest[d - front.len()].len(),
    ensures
        spellings_by(front + rest, d, current, n) == spellings_by(
            rest,
            d - front.len(),
            current,
            n,
        ),
    decreases front.len() + rest.len() - d, 0int, n,
{
    let plan = front + rest;
    if n > 0 {
        assert(plan[d] == rest[d - front.len()]);
        spelled_from_by(front, rest, d, current, n - 1);
        spelled_from(front, rest, d + 1, current + plan[d][n - 1]);
    }
}

/// A text in which no key stands is written in one way only.
pub proof fn texts_without_keys_stay(m: Map<Seq<char>, Vec<String>>, s: Seq<char>)
    requires
        forall|j: int, k: int|
            0 <= j && 0 < k && j + k <= s.len() ==> !(m.contains_key(#[trigger] s.subrange(j, j + k))
                && m[s.subrange(j, j + k)]@.len() > 0),
    ensures
        conversions(m, s).len() == 0,
{
    reveal_with_fuel(gathered, 2);
    reveal_with_fuel(differing, 2);
    spelled_as_it_is(m, s, 0, seq![]);
    assert(Seq::<char>::empty() + s.skip(0) =~= s);
    let all = seq![s];
    assert(spellings(choice_plan(m, s, 0), 0, seq![]) == all);
    assert(all.drop_last() =~= Seq::<Seq<char>>::empty());
    assert(gathered(seq![], all) =~= all);
}

proof fn one_choice_each(choices: Seq<Seq<char>>, n: int)
    requires
        0 <= n <= choices.len(),
    ensures
        spellings_by(seq![choices], 0, seq![], n) == choices.take(n),
    decreases n,
{
    reveal_with_fuel(spellings, 2);
    reveal_with_fuel(spellings_by, 2);
    let plan = seq![choices];
    assert(plan[0] == choices);
    if n > 0 {
        one_choice_each(choices, n - 1);
        let none = Seq::<char>::empty();
        assert(none + choices[n - 1] =~= choices[n - 1]);
        assert(spellings(plan, 1, none + choices[n - 1]) == seq![choices[n - 1]]);
        assert(choices.take(n - 1) + seq![choices[n - 1]] =~= choices.take(n));
    } else {
        assert(choices.take(0) =~= seq![]);
    }
}

proof fn gathering_keeps_few(list: Seq<Seq<char>>)
    requires
        list.no_duplicates(),
        list.len() <= 8,
    ensures
        gathered(seq![], list) == list,
    decreases list.len(),
{
    if list.len() > 0 {
        let t = list.drop_last();
        assert forall|i: int, j: int|
            0 <= i < t.len() && 0 <= j < t.len() && i != j implies t[i] != t[j] by {
            assert(list[i] != list[j]);
        }
        gathering_keeps_few(t);
        if t.contains(list.last()) {
            let k = choose|k: int| 0 <= k < t.len() && t[k] == list.last();
            assert(list[k] != list[list.len() - 1]);
        }
        assert(t.push(list.last()) =~= list);
    }
}

proof fn all_differ(list: Seq<Seq<char>>, t: Seq<char>)
    requires
        !list.contains(t),
    ensures
        differing(list, t) == list,
    decreases list.len(),
{
    if list.len() > 0 {
        let head = list.drop_last();
        assert forall|i: int| 0 <= i < head.len() implies head[i] != t by {
            assert(list[i] == head[i]);
        }
        assert(list[list.len() - 1] != t);
        all_differ(head, t);
        assert(head.push(list.last()) =~= list);
    }
}

/// A text that is a key itself is also written as each of the choices of its
/// row, in their order, where those are up to eight other texts.
pub proof fn keys_are_written_as_their_targets(
    m: Map<Seq<char>, Vec<String>>,
    s: Seq<char>,
    choices: Seq<Seq<char>>,
)
    requires
        s.len() > 0,
        m.contains_key(s),
        m[s]@.len() > 0,
        choices == row_choices(s, texts(m[s]@)),
        choices.no_duplicates(),
        choices.len() <= 8,
        !choices.contains(s),
    ensures
        conversions(m, s) == choices,
{
    let n = s.len() as int;
    assert(s.subrange(0, n) =~= s);
    the_longest_key_counts(m, s, 0, n, n);
    assert(choice_plan(m, s, n) =~= Seq::<Seq<Seq<char>>>::empty());
    assert(choice_plan(m, s, 0) =~= seq![choices]);
    one_choice_each(choices, choices.len() as int);
    assert(choices.take(choices.len() as int) =~= choices);
    gathering_keeps_few(choices);
    all_differ(choices, s);
}

proof fn kept_whole(t: Seq<char>)
    requires
        t.len() > 0,
        !char_is_whitespace(t[0]),
        !char_is_whitespace(t.last()),
    ensures
        trimmed(t) == t,
{
}

/// A target that is one word stands for that word; one that begins with the key
/// stands for what it adds to it.
pub proof fn targets_stand_for_words(key: Seq<char>, w: Seq<char>)
    requires
        w.len() > 0,
        forall|i: int| 0 <= i < w.len() ==> !char_is_whitespace(#[trigger] w[i]),
    ensures
        !key.is_prefix_of(w) ==> target_choices(key, w) == seq![w],
        target_choices(key, key + w) == seq![w],
{
    reveal_with_fuel(filled_parts, 2);
    assert(!char_is_whitespace(w[0]));
    assert(!char_is_whitespace(w[w.len() - 1]));
    kept_whole(w);
    assert forall|i: int| 0 <= i < w.len() implies w[i] != ' ' by {
        assert(!char_is_whitespace(w[i]));
    }
    one_more_piece(w, Seq::<char>::empty(), ' ');
    assert(Seq::<char>::empty() + w =~= w);
    assert(split_on(Seq::<char>::empty(), ' ') =~= seq![Seq::<char>::empty()]);
    assert(split_on(w, ' ') =~= seq![w]);
    assert(seq![w].drop_last() =~= Seq::<Seq<char>>::empty());
    assert(filled_parts(seq![w]) =~= seq![w]);
    assert((key + w).skip(key.len() as int) =~= w);
    assert(key.is_prefix_of(key + w)) by {
        assert((key + w).subrange(0, key.len() as int) =~= key);
    }
}

/// What a row stands for is what its targets stand for, one after the other.
pub proof fn rows_stand_for_their_targets(key: Seq<char>, a: Seq<Seq<char>>, b: Seq<Seq<char>>)
    ensures
        row_choices(key, a + b) == row_choices(key, a) + row_choices(key, b),
    decreases b.len(),
{
    if b.len() == 0 {
        assert(a + b =~= a);
        assert(row_choices(key, a + b) =~= row_choices(key, a) + row_choices(key, b));
    } else {
        rows_stand_for_their_targets(key, a, b.drop_last());
        assert((a + b).drop_last() =~= a + b.drop_last());
        assert((a + b).last() == b.last());
        assert(row_choices(key, a + b) =~= row_choices(key, a) + row_choices(key, b));
    }
}

/// For every other way to write a candidate one is added, in their order: with
/// that text, a score that is changed by the penalty, and the comment where it
/// is to be kept. Candidates are converted one after the other, and only while
/// the switch is on.
pub proof fn conversions_are_added_in_order(
    f: &Converter,
    options: Map<Seq<char>, bool>,
    cs: Seq<Cand>,
    c: Cand,
    i: int,
)
    ensures
        f.added(cs.push(c)) == f.added(cs) + f.added_for(c),
        f.added_for(c).len() == conversions(f.table@, c.text).len(),
        0 <= i < f.added_for(c).len() ==> {
            let r = f.added_for(c)[i];
            &&& r.text == conversions(f.table@, c.text)[i]
            &&& i32::MIN <= c.score.milli + f.penalty.milli <= i32::MAX ==> r.score.milli
                == c.score.milli + f.penalty.milli
            &&& f.inherit_comment ==> r.comment == c.comment
            &&& !f.inherit_comment ==> r.comment is None
            &&& r.span == c.span && r.origin == c.origin && r.attr == c.attr && r.kind == c.kind
                && r.lane == c.lane && r.key == c.key
        },
        f.option_name is None ==> f.active(options),
        f.option_name matches Some(n) ==> (f.active(options) <==> options.contains_key(n@)
            && options[n@]),
{
    assert(cs.push(c).drop_last() =~= cs);
}

/// One choice for each piece from `d` on, side by side.
pub open spec fn picked_text(plan: Seq<Seq<Seq<char>>>, picks: Seq<int>, d: int) -> Seq<char>
    decreases plan.len() - d,
{
    if d < 0 || d >= plan.len() {
        seq![]
    } else {
        plan[d][picks[d]] + picked_text(plan, picks, d + 1)
    }
}

proof fn picks_are_spelled(
    plan: Seq<Seq<Seq<char>>>,
    picks: Seq<int>,
    d: int,
    current: Seq<char>,
)
    requires
        0 <= d <= plan.len(),
        picks.len() == plan.len(),
        forall|k: int| 0 <= k < plan.len() ==> 0 <= #[trigger] picks[k] < plan[k].len(),
    ensures
        spellings(plan, d, current).contains(current + picked_text(plan, picks, d)),
    decreases plan.len() - d, 1int, 0int,
{
    if d < plan.len() {
        assert(0 <= picks[d] < plan[d].len());
        picks_are_spelled_by(plan, picks, d, current, plan[d].len() as int);
    } else {
        assert(current + picked_text(plan, picks, d) =~= current);
        assert(spellings(plan, d, current)[0] == current);
    }
}

proof fn picks_are_spelled_by(
    plan: Seq<Seq<Seq<char>>>,
    picks: Seq<int>,
    d: int,
    current: Seq<char>,
    n: int,
)
    requires
        0 <= d < plan.len(),
        picks.len() == plan.len(),
        forall|k: int| 0 <= k < plan.len() ==> 0 <= #[trigger] picks[k] < plan[k].len(),
        picks[d] < n <= plan[d].len(),
    ensures
        spellings_by(plan, d, current, n).contains(current + picked_text(plan, picks, d)),
    decreases plan.len() - d, 0int, n,
{
    let x = current + picked_text(plan, picks, d);
    let front = spellings_by(plan, d, current, n - 1);
    let back = spellings(plan, d + 1, current + plan[d][n - 1]);
    let all = spellings_by(plan, d, current, n);
    assert(all == front + back);
    if picks[d] < n - 1 {
        picks_are_spelled_by(plan, picks, d, current, n - 1);
        let k = choose|k: int| 0 <= k < front.len() && front[k] == x;
        assert(all[k] == x);
    } else {
        let next = current + plan[d][n - 1];
        picks_are_spelled(plan, picks, d + 1, next);
        assert(next + picked_text(plan, picks, d + 1) =~= x);
        let k = choose|k: int| 0 <= k < back.len() && back[k] == x;
        assert(all[front.len() + k] == x);
    }
}

/// A text can be written with any choice for each of its pieces, whatever is
/// chosen for the others.
pub proof fn every_choice_can_be_taken(plan: Seq<Seq<Seq<char>>>, picks: Seq<int>)
    requires
        picks.len() == plan.len(),
        forall|k: int| 0 <= k < plan.len() ==> 0 <= #[trigger] picks[k] < plan[k].len(),
    ensures
        spellings(plan, 0, seq![]).contains(picked_text(plan, picks, 0)),
{
    picks_are_spelled(plan, picks, 0, seq![]);
    assert(Seq::<char>::empty() + picked_text(plan, picks, 0) =~= picked_text(plan, picks, 0));
}

} // verus!
