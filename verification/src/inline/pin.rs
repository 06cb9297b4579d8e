//! Words that a user wants first under a code.

use vstd::prelude::*;
use crate::candidate::{append_clones, Cand, Candidate};
use crate::code::copy_texts;
use crate::order::views;
use crate::spec::{PinCandSpec, PinEntry};
use crate::table::TextTable;
use crate::text::{
    ascii_lower, char_is_whitespace, holds_text, is_ascii_letter, is_whitespace, lower_char, part,
    push_char, same_text, texts, to_chars,
};

verus! {

// ---------------------------------------------------------------------------
// Reading the configuration
// ---------------------------------------------------------------------------

/// The letters of a text, in lower case.
pub open spec fn letters(s: Seq<char>) -> Seq<char>
    decreases s.len(),
{
    if s.len() == 0 {
        seq![]
    } else {
        let head = letters(s.drop_last());
        if is_ascii_letter(s.last()) {
            head.push(ascii_lower(s.last()))
        } else {
            head
        }
    }
}

fn strip_non_letters(s: &str) -> (r: String)
    ensures
        r@ == letters(s@),
{
    let cs = to_chars(s);
    let mut out = String::new();
    let mut i: usize = 0;
    assert(cs@.take(0) =~= seq![]);
    assert(out@ =~= seq![]);
    while i < cs.len()
        invariant
            i <= cs@.len(),
            out@ == letters(cs@.take(i as int)),
        decreases cs.len() - i,
    {
        let c = cs[i];
        proof {
            let t = cs@.take(i + 1);
            assert(t.drop_last() =~= cs@.take(i as int));
            assert(t.last() == c);
        }
        if ('a' <= c && c <= 'z') || ('A' <= c && c <= 'Z') {
            push_char(&mut out, lower_char(c));
        }
        i += 1;
    }
    assert(cs@.take(i as int) =~= cs@);
    out
}

/// The words of a text: what stands between white space.
pub open spec fn words(s: Seq<char>) -> Seq<Seq<char>>
    decreases s.len(),
{
    if s.len() == 0 {
        seq![]
    } else {
        let head = words(s.drop_last());
        let c = s.last();
        if char_is_whitespace(c) {
            head
        } else if s.len() > 1 && !char_is_whitespace(s[s.len() - 2]) {
            head.drop_last().push(head.last().push(c))
        } else {
            head.push(seq![c])
        }
    }
}

/// Appends the words of the part from `a` to `b`.
fn push_words(cs: &Vec<char>, a: usize, b: usize, out: &mut Vec<String>)
    requires
        a <= b <= cs@.len(),
    ensures
        texts(final(out)@) == texts(old(out)@) + words(cs@.subrange(a as int, b as int)),
{
    let ghost before = texts(out@);
    let ghost s = cs@.subrange(a as int, b as int);
    // The word that is being read starts at `start`, where there is one.
    let mut start: usize = a;
    let mut open = false;
    let mut i: usize = a;
    assert(s.take(0) =~= seq![]);
    assert(before + words(s.take(0)) =~= before);
    while i < b
        invariant
            a <= start <= i <= b <= cs@.len(),
            s == cs@.subrange(a as int, b as int),
            open == (i > a && !char_is_whitespace(cs@[i - 1])),
            open ==> start < i && words(s.take(i - a)).len() > 0 && words(s.take(i - a)).last()
                == cs@.subrange(start as int, i as int) && texts(out@) == before + words(
                s.take(i - a),
            ).drop_last(),
            !open ==> texts(out@) == before + words(s.take(i - a)),
        decreases b - i,
    {
        let c = cs[i];
        let ghost t = s.take(i - a + 1);
        let ghost ws = words(s.take(i - a));
        proof {
            assert(t.drop_last() =~= s.take(i - a));
            assert(t.last() == c);
            if i > a {
                assert(t[t.len() - 2] == cs@[i - 1]);
            }
        }
        if is_whitespace(c) {
            if open {
                let w = part(cs, start, i);
                let ghost wv = w@;
                let ghost had = texts(out@);
                out.push(w);
                assert(texts(out@) =~= had.push(wv));
                assert(ws.drop_last().push(ws.last()) =~= ws);
                assert(texts(out@) =~= before + ws);
                open = false;
            }
        } else {
            if !open {
                start = i;
                open = true;
                assert(cs@.subrange(i as int, i + 1) =~= seq![c]);
                assert(words(t) == ws.push(seq![c]));
                assert(words(t).drop_last() =~= ws);
            } else {
                assert(cs@.subrange(start as int, i + 1) =~= cs@.subrange(
                    start as int,
                    i as int,
                ).push(c));
                assert(words(t) == ws.drop_last().push(ws.last().push(c)));
                assert(words(t).drop_last() =~= ws.drop_last());
            }
        }
        i += 1;
    }
    assert(s.take(i - a) =~= s);
    if open {
        let w = part(cs, start, b);
        let ghost wv = w@;
        let ghost had = texts(out@);
        out.push(w);
        proof {
            assert(texts(out@) =~= had.push(wv));
            assert(words(s).drop_last().push(words(s).last()) =~= words(s));
            assert(texts(out@) =~= before + words(s));
        }
    }
}

/// Where ` > ` first stands, from `i` on.
pub open spec fn mark_place(s: Seq<char>, i: int) -> Option<int>
    decreases s.len() - i,
{
    if i < 0 || i + 3 > s.len() {
        None
    } else if s[i] == ' ' && s[i + 1] == '>' && s[i + 2] == ' ' {
        Some(i)
    } else {
        mark_place(s, i + 1)
    }
}

/// The words of a text from `from` on, where ` > ` separates like white space.
pub open spec fn marked_words(s: Seq<char>, from: int) -> Seq<Seq<char>>
    decreases s.len() - from,
{
    match mark_place(s, from) {
        Some(k) => if from < 0 || k < from || k + 3 > s.len() {
            seq![]
        } else {
            words(s.subrange(from, k)) + marked_words(s, k + 3)
        },
        None => words(s.skip(from)),
    }
}

/// The words of a list of texts.
pub open spec fn all_words(ts: Seq<Seq<char>>) -> Seq<Seq<char>>
    decreases ts.len(),
{
    if ts.len() == 0 {
        seq![]
    } else {
        all_words(ts.drop_last()) + marked_words(ts.last(), 0)
    }
}

fn find_mark(cs: &Vec<char>, from: usize) -> (r: Option<usize>)
    requires
        from <= cs@.len(),
    ensures
        match mark_place(cs@, from as int) {
            Some(k) => r matches Some(x) && x == k && from <= k && k + 3 <= cs@.len(),
            None => r is None,
        },
{
    let mut i: usize = from;
    while i < cs.len() && cs.len() - i >= 3
        invariant
            from <= i <= cs@.len(),
            mark_place(cs@, from as int) == mark_place(cs@, i as int),
        decreases cs.len() - i,
    {
        if cs[i] == ' ' && cs[i + 1] == '>' && cs[i + 2] == ' ' {
            return Some(i);
        }
        i += 1;
    }
    None
}

fn split_texts(list: &Vec<String>) -> (r: Vec<String>)
    ensures
        texts(r@) == all_words(texts(list@)),
{
    let ghost all = texts(list@);
    let mut out: Vec<String> = Vec::new();
    let mut n: usize = 0;
    assert(all.take(0) =~= seq![]);
    assert(texts(out@) =~= seq![]);
    while n < list.len()
        invariant
            n <= list@.len(),
            all == texts(list@),
            texts(out@) == all_words(all.take(n as int)),
        decreases list.len() - n,
    {
        let cs = to_chars(list[n].as_str());
        let ghost had = texts(out@);
        let ghost whole = marked_words(cs@, 0);
        proof {
            let t = all.take(n + 1);
            assert(t.drop_last() =~= all.take(n as int));
            assert(t.last() == cs@);
        }
        let mut from: usize = 0;
        let mut more = true;
        assert(had + whole =~= texts(out@) + marked_words(cs@, 0));
        while more
            invariant
                from <= cs.len(),
                more ==> had + whole == texts(out@) + marked_words(cs@, from as int),
                !more ==> had + whole == texts(out@),
            decreases (if more {
                cs@.len() - from + 1
            } else {
                0
            }),
        {
            let ghost was = texts(out@);
            let end: usize = cs.len();
            match find_mark(&cs, from) {
                Some(k) => {
                    assert(k + 3 <= end);
                    push_words(&cs, from, k, &mut out);
                    assert(was + marked_words(cs@, from as int) =~= texts(out@) + marked_words(
                        cs@,
                        k + 3,
                    ));
                    from = k + 3;
                },
                None => {
                    push_words(&cs, from, cs.len(), &mut out);
                    assert(cs@.subrange(from as int, cs@.len() as int) =~= cs@.skip(from as int));
                    assert(texts(out@) =~= was + marked_words(cs@, from as int));
                    more = false;
                },
            }
        }
        n += 1;
    }
    assert(all.take(n as int) =~= all);
    out
}

/// All texts in one.
pub open spec fn run_together(ts: Seq<Seq<char>>) -> Seq<char>
    decreases ts.len(),
{
    if ts.len() == 0 {
        seq![]
    } else {
        run_together(ts.drop_last()) + ts.last()
    }
}

/// Whether a syllable starts with one of three double letters.
pub open spec fn double_start(s: Seq<char>) -> bool {
    s.len() >= 2 && s[1] == 'h' && (s[0] == 'z' || s[0] == 'c' || s[0] == 's')
}

/// The short codes that follow from a spelling: all syllables but the last
/// stand in full, and the last is cut to its first letter, and to its first two
/// where they are a double letter.
pub open spec fn short_codes(preedit: Seq<char>) -> Seq<Seq<char>> {
    let parts = words(preedit);
    let front = letters(run_together(parts.drop_last()));
    let last = letters(parts.last());
    if parts.len() < 2 || front.len() == 0 || last.len() == 0 {
        seq![]
    } else if double_start(last) {
        seq![front + last.take(1), front + last.take(2)]
    } else {
        seq![front + last.take(1)]
    }
}

/// The short codes that follow from a spelling.
pub fn derived_keys(preedit: &str) -> (r: Vec<String>)
    ensures
        texts(r@) == short_codes(preedit@),
{
    let cs = to_chars(preedit);
    let mut parts: Vec<String> = Vec::new();
    let mut out: Vec<String> = Vec::new();
    assert(texts(parts@) =~= seq![]);
    assert(texts(out@) =~= seq![]);
    push_words(&cs, 0, cs.len(), &mut parts);
    let ghost ps = words(preedit@);
    proof {
        assert(cs@.subrange(0, cs@.len() as int) =~= cs@);
        assert(texts(parts@) =~= ps);
        assert(ps.len() == parts@.len());
    }
    let n: usize = parts.len();
    if n < 2 {
        return out;
    }
    let mut front = String::new();
    let mut i: usize = 0;
    assert(front@ =~= seq![]);
    assert(ps.take(0) =~= seq![]);
    while i < n - 1
        invariant
            i <= n - 1,
            n == parts@.len() >= 2,
            ps == texts(parts@),
            front@ == run_together(ps.take(i as int)),
        decreases n - i,
    {
        proof {
            let t = ps.take(i + 1);
            assert(t.drop_last() =~= ps.take(i as int));
            assert(t.last() == parts@[i as int]@);
        }
        front = front.concat(parts[i].as_str());
        i += 1;
    }
    assert(ps.take(n - 1) =~= ps.drop_last());
    assert(ps.last() == parts@[n - 1]@);
    let head = strip_non_letters(front.as_str());
    let last = to_chars(strip_non_letters(parts[n - 1].as_str()).as_str());
    if to_chars(head.as_str()).len() == 0 || last.len() == 0 {
        return out;
    }
    let one = part(&last, 0, 1);
    assert(one@ =~= last@.take(1));
    out.push(head.clone().concat(one.as_str()));
    if last.len() >= 2 && last[1] == 'h' && (last[0] == 'z' || last[0] == 'c' || last[0] == 's') {
        let two = part(&last, 0, 2);
        assert(two@ =~= last@.take(2));
        out.push(head.concat(two.as_str()));
    }
    assert(texts(out@) =~= short_codes(preedit@));
    out
}

// ---------------------------------------------------------------------------
// The table
// ---------------------------------------------------------------------------

/// The words that stand first under each code.
#[derive(Debug)]
pub struct PinTable {
    pub keys: TextTable<Vec<String>>,
}

/// The mathematical reading of a [`PinEntry`].
pub open spec fn entry_view(e: PinEntry) -> (Seq<char>, Seq<Seq<char>>) {
    (e.preedit@, texts(e.texts@))
}

pub open spec fn entries_view(es: Seq<PinEntry>) -> Seq<(Seq<char>, Seq<Seq<char>>)> {
    Seq::new(es.len(), |i: int| entry_view(es[i]))
}

/// The words under the codes that are written out. Of two entries with one
/// code the last counts.
pub open spec fn written_out(es: Seq<(Seq<char>, Seq<Seq<char>>)>) -> Map<
    Seq<char>,
    Seq<Seq<char>>,
>
    decreases es.len(),
{
    if es.len() == 0 {
        Map::empty()
    } else {
        let m = written_out(es.drop_last());
        let key = letters(es.last().0);
        let ws = all_words(es.last().1);
        if key.len() == 0 || ws.len() == 0 {
            m
        } else {
            m.insert(key, ws)
        }
    }
}

/// A list with further texts, each once.
pub open spec fn extended(list: Seq<Seq<char>>, more: Seq<Seq<char>>) -> Seq<Seq<char>>
    decreases more.len(),
{
    if more.len() == 0 {
        list
    } else {
        let head = extended(list, more.drop_last());
        if head.contains(more.last()) {
            head
        } else {
            head.push(more.last())
        }
    }
}

/// The words under a code, none where there is no such code.
pub open spec fn under(m: Map<Seq<char>, Seq<Seq<char>>>, k: Seq<char>) -> Seq<Seq<char>> {
    if m.contains_key(k) {
        m[k]
    } else {
        seq![]
    }
}

/// Words entered under several codes, behind what stands there.
pub open spec fn entered(
    m: Map<Seq<char>, Seq<Seq<char>>>,
    ks: Seq<Seq<char>>,
    ws: Seq<Seq<char>>,
) -> Map<Seq<char>, Seq<Seq<char>>>
    decreases ks.len(),
{
    if ks.len() == 0 {
        m
    } else {
        let head = entered(m, ks.drop_last(), ws);
        head.insert(ks.last(), extended(under(head, ks.last()), ws))
    }
}

/// The words under the codes that follow from the entries, in their order.
pub open spec fn following(es: Seq<(Seq<char>, Seq<Seq<char>>)>) -> Map<Seq<char>, Seq<Seq<char>>>
    decreases es.len(),
{
    if es.len() == 0 {
        Map::empty()
    } else {
        let m = following(es.drop_last());
        let ws = all_words(es.last().1);
        if ws.len() == 0 {
            m
        } else {
            entered(m, short_codes(es.last().0), ws)
        }
    }
}

/// What stands first under each code: a code that is written out is not
/// touched by one that follows.
pub open spec fn pinned_words(es: Seq<(Seq<char>, Seq<Seq<char>>)>) -> Map<
    Seq<char>,
    Seq<Seq<char>>,
> {
    following(es).union_prefer_right(written_out(es))
}

/// The longest beginning of a code, of at least one letter and at most `n`,
/// that has words.
pub open spec fn longest_start(
    m: Map<Seq<char>, Seq<Seq<char>>>,
    key: Seq<char>,
    n: int,
) -> Option<Seq<char>>
    decreases n,
{
    if n <= 0 {
        None
    } else if m.contains_key(key.take(n)) {
        Some(key.take(n))
    } else {
        longest_start(m, key, n - 1)
    }
}

/// What is found for a code: its own words, else those of its longest
/// beginning.
pub open spec fn found_for(m: Map<Seq<char>, Seq<Seq<char>>>, key: Seq<char>) -> Option<
    Seq<Seq<char>>,
> {
    if m.contains_key(key) {
        Some(m[key])
    } else {
        match longest_start(m, key, key.len() - 1) {
            Some(k) => Some(m[k]),
            None => None,
        }
    }
}

impl PinTable {
    pub open spec fn wf(&self) -> bool {
        self.keys.wf()
    }

    /// The table, read mathematically.
    pub open spec fn table(&self) -> Map<Seq<char>, Seq<Seq<char>>> {
        self.keys@.map_values(|v: Vec<String>| texts(v@))
    }

    /// Sets the words under a code.
    fn set(&mut self, key: String, value: Vec<String>)
        requires
            old(self).wf(),
        ensures
            final(self).wf(),
            final(self).table() == old(self).table().insert(key@, texts(value@)),
    {
        let ghost before = self.table();
        let ghost k = key@;
        let ghost v = texts(value@);
        self.keys.insert(key, value);
        assert(self.table() =~= before.insert(k, v));
    }

    /// Enters words behind those under a code.
    fn extend(&mut self, key: String, more: &Vec<String>)
        requires
            old(self).wf(),
        ensures
            final(self).wf(),
            final(self).table() == old(self).table().insert(
                key@,
                extended(under(old(self).table(), key@), texts(more@)),
            ),
    {
        let ghost start = under(self.table(), key@);
        let mut list: Vec<String> = match self.keys.get(key.as_str()) {
            Some(v) => copy_texts(v),
            None => Vec::new(),
        };
        assert(texts(list@) =~= start);
        let ghost all = texts(more@);
        let mut i: usize = 0;
        assert(all.take(0) =~= seq![]);
        while i < more.len()
            invariant
                i <= more@.len(),
                all == texts(more@),
                texts(list@) == extended(start, all.take(i as int)),
            decreases more.len() - i,
        {
            let ghost had = texts(list@);
            proof {
                let t = all.take(i + 1);
                assert(t.drop_last() =~= all.take(i as int));
                assert(t.last() == more@[i as int]@);
            }
            if !holds_text(&list, more[i].as_str()) {
                list.push(more[i].clone());
                assert(texts(list@) =~= had.push(more@[i as int]@));
            }
            i += 1;
        }
        assert(all.take(i as int) =~= all);
        self.set(key, list);
    }

    /// Builds the table: first the codes that follow from the entries, then the
    /// codes that are written out.
    pub fn build(entries: &[PinEntry]) -> (r: Self)
        ensures
            r.wf(),
            r.table() == pinned_words(entries_view(entries@)),
    {
        let ghost es = entries_view(entries@);
        let mut out = PinTable { keys: TextTable::new() };
        assert(out.table() =~= Map::empty());
        let mut n: usize = 0;
        assert(es.take(0) =~= seq![]);
        while n < entries.len()
            invariant
                n <= entries@.len(),
                es == entries_view(entries@),
                out.wf(),
                out.table() == following(es.take(n as int)),
            decreases entries.len() - n,
        {
            let e = &entries[n];
            proof {
                let t = es.take(n + 1);
                assert(t.drop_last() =~= es.take(n as int));
                assert(t.last() == entry_view(*e));
            }
            let ws = split_texts(&e.texts);
            let ghost wv = texts(ws@);
            assert(wv.len() == ws@.len());
            if ws.len() > 0 {
                let ks = derived_keys(e.preedit.as_str());
                let ghost kv = texts(ks@);
                let ghost base = out.table();
                let mut i: usize = 0;
                assert(kv.take(0) =~= seq![]);
                while i < ks.len()
                    invariant
                        i <= ks@.len(),
                        kv == texts(ks@),
                        wv == texts(ws@),
                        out.wf(),
                        out.table() == entered(base, kv.take(i as int), wv),
                    decreases ks.len() - i,
                {
                    proof {
                        let t = kv.take(i + 1);
                        assert(t.drop_last() =~= kv.take(i as int));
                        assert(t.last() == ks@[i as int]@);
                    }
                    out.extend(ks[i].clone(), &ws);
                    i += 1;
                }
                assert(kv.take(i as int) =~= kv);
            }
            n += 1;
        }
        assert(es.take(n as int) =~= es);
        let ghost base = out.table();
        let mut m: usize = 0;
        assert(es.take(0) =~= seq![]);
        assert(base.union_prefer_right(Map::empty()) =~= base);
        while m < entries.len()
            invariant
                m <= entries@.len(),
                es == entries_view(entries@),
                out.wf(),
                out.table() == base.union_prefer_right(written_out(es.take(m as int))),
            decreases entries.len() - m,
        {
            let e = &entries[m];
            let ghost so_far = written_out(es.take(m as int));
            proof {
                let t = es.take(m + 1);
                assert(t.drop_last() =~= es.take(m as int));
                assert(t.last() == entry_view(*e));
            }
            let ws = split_texts(&e.texts);
            let ghost wv = texts(ws@);
            assert(wv.len() == ws@.len());
            let key = strip_non_letters(e.preedit.as_str());
            let ghost kv = key@;
            if to_chars(key.as_str()).len() > 0 && ws.len() > 0 {
                out.set(key, ws);
                assert(out.table() =~= base.union_prefer_right(so_far.insert(kv, wv)));
            }
            m += 1;
        }
        assert(es.take(m as int) =~= es);
        out
    }

    /// The words under exactly this code.
    #[must_use]
    pub fn get(&self, key: &str) -> (r: Option<&[String]>)
        requires
            self.wf(),
        ensures
            match r {
                Some(v) => self.table().contains_key(key@) && texts(v@) == self.table()[key@],
                None => !self.table().contains_key(key@),
            },
    {
        match self.keys.get(key) {
            Some(v) => Some(v.as_slice()),
            None => None,
        }
    }

    /// The words under a code or, where it has none, under its longest
    /// beginning that has some.
    #[must_use]
    pub fn lookup(&self, key: &str) -> (r: Option<&[String]>)
        requires
            self.wf(),
        ensures
            match found_for(self.table(), key@) {
                Some(ws) => r matches Some(v) && texts(v@) == ws,
                None => r is None,
            },
    {
        if let Some(v) = self.get(key) {
            return Some(v);
        }
        let cs = to_chars(key);
        let ghost m = self.table();
        let mut n: usize = cs.len();
        if n > 0 {
            n -= 1;
        }
        while n > 0
            invariant
                self.wf(),
                m == self.table(),
                cs@ == key@,
                n <= cs@.len(),
                !m.contains_key(key@),
                longest_start(m, key@, key@.len() - 1) == longest_start(m, key@, n as int),
            decreases n,
        {
            let head = part(&cs, 0, n);
            assert(head@ =~= key@.take(n as int));
            if let Some(v) = self.get(head.as_str()) {
                return Some(v);
            }
            n -= 1;
        }
        None
    }

    /// How many codes there are.
    #[must_use]
    pub fn len(&self) -> (r: usize)
        requires
            self.wf(),
        ensures
            self.table().dom().finite(),
            r == self.table().dom().len(),
    {
        proof {
            crate::table::keys_are_the_domain(&self.keys);
            assert(self.table().dom() =~= self.keys@.dom());
        }
        self.keys.len()
    }

    #[must_use]
    pub fn is_empty(&self) -> (r: bool)
        requires
            self.wf(),
        ensures
            r == (self.table() == Map::<Seq<char>, Seq<Seq<char>>>::empty()),
    {
        proof {
            crate::table::keys_are_the_domain(&self.keys);
            let t = self.table();
            assert(t.dom() =~= self.keys@.dom());
            if self.keys.keys().len() == 0 {
                assert(t =~= Map::<Seq<char>, Seq<Seq<char>>>::empty());
            } else {
                let k = self.keys.keys()[0];
                assert(self.keys.keys().contains(k));
                assert(t.contains_key(k));
            }
        }
        self.keys.is_empty()
    }
}

// ---------------------------------------------------------------------------
// The filter
// ---------------------------------------------------------------------------

/// Puts the words that a user wants first to the front.
#[derive(Debug)]
pub struct PinCandFilter {
    pub table: PinTable,
}

/// The first text equal to `t`, from `from` on.
pub open spec fn word_place(ws: Seq<Seq<char>>, t: Seq<char>, from: int) -> Option<int>
    decreases ws.len() - from,
{
    if from < 0 || from >= ws.len() {
        None
    } else if ws[from] == t {
        Some(from)
    } else {
        word_place(ws, t, from + 1)
    }
}

/// How far a list of candidates was sorted.
pub struct Sorting {
    /// What was found of the words that go first.
    pub pinned: Seq<Option<Cand>>,
    pub others: Seq<Cand>,
    pub rest: Seq<Cand>,
    pub finished: bool,
}

/// Whether every word was found.
pub open spec fn all_found(pinned: Seq<Option<Cand>>) -> bool {
    forall|i: int| 0 <= i < pinned.len() ==> (#[trigger] pinned[i]) is Some
}

/// How many other candidates are passed over before the search for words ends.
pub const PASSED_LIMIT: usize = 100;

/// One more candidate sorted.
pub open spec fn sorted_one(ws: Seq<Seq<char>>, s: Sorting, c: Cand) -> Sorting {
    if s.finished {
        Sorting { rest: s.rest.push(c), ..s }
    } else {
        match word_place(ws, c.text, 0) {
            Some(i) => {
                let pinned = if s.pinned[i] is None {
                    s.pinned.update(i, Some(c))
                } else {
                    s.pinned
                };
                Sorting {
                    pinned,
                    finished: all_found(pinned) || s.others.len() > PASSED_LIMIT,
                    ..s
                }
            },
            None => Sorting { others: s.others.push(c), ..s },
        }
    }
}

/// A list of candidates sorted, one after the other.
pub open spec fn sorted_all(ws: Seq<Seq<char>>, cs: Seq<Cand>) -> Sorting
    decreases cs.len(),
{
    if cs.len() == 0 {
        Sorting {
            pinned: Seq::new(ws.len(), |i: int| None),
            others: seq![],
            rest: seq![],
            finished: false,
        }
    } else {
        sorted_one(ws, sorted_all(ws, cs.drop_last()), cs.last())
    }
}

/// What was found, without the gaps.
pub open spec fn found_only(pinned: Seq<Option<Cand>>) -> Seq<Cand>
    decreases pinned.len(),
{
    if pinned.len() == 0 {
        seq![]
    } else {
        let head = found_only(pinned.drop_last());
        match pinned.last() {
            Some(c) => head.push(c),
            None => head,
        }
    }
}

/// The words that go first, in the order in which they are wanted, then the
/// others in theirs.
pub open spec fn words_first(ws: Seq<Seq<char>>, cs: Seq<Cand>) -> Seq<Cand> {
    let s = sorted_all(ws, cs);
    found_only(s.pinned) + s.others + s.rest
}

pub open spec fn slots(v: Seq<Option<Candidate>>) -> Seq<Option<Cand>> {
    Seq::new(
        v.len(),
        |i: int|
            match v[i] {
                Some(c) => Some(c@),
                None => None,
            },
    )
}

fn all_slots_filled(v: &Vec<Option<Candidate>>) -> (r: bool)
    ensures
        r == all_found(slots(v@)),
{
    let mut i: usize = 0;
    while i < v.len()
        invariant
            i <= v@.len(),
            forall|j: int| 0 <= j < i ==> (#[trigger] slots(v@)[j]) is Some,
        decreases v.len() - i,
    {
        if v[i].is_none() {
            assert(slots(v@)[i as int] is None);
            return false;
        }
        i += 1;
    }
    true
}

fn place_of_word(ws: &[String], t: &str) -> (r: Option<usize>)
    ensures
        match word_place(texts(ws@), t@, 0) {
            Some(i) => r matches Some(k) && k == i && k < ws@.len(),
            None => r is None,
        },
{
    let ghost all = texts(ws@);
    let mut i: usize = 0;
    while i < ws.len()
        invariant
            i <= ws@.len(),
            all == texts(ws@),
            word_place(all, t@, 0) == word_place(all, t@, i as int),
        decreases ws.len() - i,
    {
        assert(all[i as int] == ws@[i as int]@);
        if same_text(ws[i].as_str(), t) {
            return Some(i);
        }
        i += 1;
    }
    None
}

impl PinCandFilter {
    pub open spec fn wf(&self) -> bool {
        self.table.wf()
    }

    pub fn new(spec: &PinCandSpec) -> (r: Self)
        ensures
            r.wf(),
            r.table.table() == pinned_words(entries_view(spec.entries@)),
    {
        PinCandFilter { table: PinTable::build(spec.entries.as_slice()) }
    }

    pub fn table(&self) -> (r: &PinTable)
        ensures
            *r == self.table,
    {
        &self.table
    }

    /// What the filter makes of a list.
    pub open spec fn moves(&self, input: Seq<char>, cs: Seq<Cand>) -> Seq<Cand> {
        if letters(input).len() == 0 {
            cs
        } else {
            match found_for(self.table.table(), letters(input)) {
                Some(ws) => words_first(ws, cs),
                None => cs,
            }
        }
    }

    pub fn apply(&self, input: &str, cands: &mut Vec<Candidate>)
        requires
            self.wf(),
        ensures
            views(final(cands)@) == self.moves(input@, views(old(cands)@)),
    {
        let code = strip_non_letters(input);
        if to_chars(code.as_str()).len() == 0 {
            return;
        }
        let ws = match self.table.lookup(code.as_str()) {
            Some(v) => v,
            None => {
                return;
            },
        };
        let ghost wv = texts(ws@);
        let ghost before = views(cands@);
        let mut pinned: Vec<Option<Candidate>> = Vec::new();
        let mut k: usize = 0;
        while k < ws.len()
            invariant
                k <= ws@.len(),
                pinned@.len() == k,
                forall|j: int| 0 <= j < k ==> (#[trigger] pinned@[j]) is None,
            decreases ws.len() - k,
        {
            pinned.push(None);
            k += 1;
        }
        let mut others: Vec<Candidate> = Vec::new();
        let mut rest: Vec<Candidate> = Vec::new();
        let mut finished = false;
        let mut i: usize = 0;
        proof {
            assert(before.take(0) =~= seq![]);
            let s = sorted_all(wv, before.take(0));
            assert(slots(pinned@) =~= s.pinned);
            assert(views(others@) =~= s.others);
            assert(views(rest@) =~= s.rest);
        }
        while i < cands.len()
            invariant
                i <= cands@.len(),
                before == views(cands@),
                wv == texts(ws@),
                pinned@.len() == ws@.len(),
                ({
                    let s = sorted_all(wv, before.take(i as int));
                    &&& slots(pinned@) == s.pinned
                    &&& views(others@) == s.others
                    &&& views(rest@) == s.rest
                    &&& finished == s.finished
                }),
            decreases cands.len() - i,
        {
            let c = cands[i].clone();
            let ghost v = c@;
            let ghost s = sorted_all(wv, before.take(i as int));
            proof {
                let t = before.take(i + 1);
                assert(t.drop_last() =~= before.take(i as int));
                assert(t.last() == v);
                assert(others@.len() == s.others.len());
            }
            if finished {
                rest.push(c);
                assert(views(rest@) =~= s.rest.push(v));
            } else {
                match place_of_word(ws, c.text.as_str()) {
                    Some(p) => {
                        assert(slots(pinned@)[p as int] is None <==> pinned@[p as int] is None);
                        if pinned[p].is_none() {
                            pinned.set(p, Some(c));
                            assert(slots(pinned@) =~= s.pinned.update(p as int, Some(v)));
                        }
                        if all_slots_filled(&pinned) || others.len() > PASSED_LIMIT {
                            finished = true;
                        }
                    },
                    None => {
                        others.push(c);
                        assert(views(others@) =~= s.others.push(v));
                    },
                }
            }
            i += 1;
        }
        assert(before.take(i as int) =~= before);
        let ghost s = sorted_all(wv, before);
        let mut out: Vec<Candidate> = Vec::new();
        let mut n: usize = 0;
        assert(views(out@) =~= seq![]);
        assert(s.pinned.take(0) =~= seq![]);
        while n < pinned.len()
            invariant
                n <= pinned@.len(),
                slots(pinned@) == s.pinned,
                views(out@) == found_only(s.pinned.take(n as int)),
            decreases pinned.len() - n,
        {
            let ghost had = views(out@);
            proof {
                let t = s.pinned.take(n + 1);
                assert(t.drop_last() =~= s.pinned.take(n as int));
                assert(t.last() == slots(pinned@)[n as int]);
            }
            if let Some(c) = &pinned[n] {
                out.push(c.clone());
                assert(views(out@) =~= had.push(c@));
            }
            n += 1;
        }
        assert(s.pinned.take(n as int) =~= s.pinned);
        append_clones(&others, &mut out);
        append_clones(&rest, &mut out);
        *cands = out;
    }
}

// ---------------------------------------------------------------------------
// Laws
// ---------------------------------------------------------------------------

/// A code that is written out keeps its own words, whatever else follows from
/// the entries; any other code has the words that follow.
pub proof fn written_codes_win(es: Seq<(Seq<char>, Seq<Seq<char>>)>, key: Seq<char>)
    ensures
        written_out(es).contains_key(key) ==> pinned_words(es).contains_key(key)
            && pinned_words(es)[key] == written_out(es)[key],
        !written_out(es).contains_key(key) ==> (pinned_words(es).contains_key(key)
            <==> following(es).contains_key(key)) && (following(es).contains_key(key)
            ==> pinned_words(es)[key] == following(es)[key]),
{
}

proof fn found_only_texts(pinned: Seq<Option<Cand>>, i: int)
    requires
        0 <= i < found_only(pinned).len(),
    ensures
        exists|k: int|
            0 <= k < pinned.len() && (#[trigger] pinned[k]) == Some(found_only(pinned)[i]),
    decreases pinned.len(),
{
    if pinned.len() > 0 {
        let head = found_only(pinned.drop_last());
        if i < head.len() {
            found_only_texts(pinned.drop_last(), i);
            let k = choose|k: int|
                0 <= k < pinned.drop_last().len() && (#[trigger] pinned.drop_last()[k]) == Some(
                    head[i],
                );
            assert(pinned[k] == Some(found_only(pinned)[i]));
        } else {
            assert(pinned[pinned.len() - 1] == Some(found_only(pinned)[i]));
        }
    }
}

proof fn word_place_finds(ws: Seq<Seq<char>>, t: Seq<char>, from: int)
    requires
        0 <= from <= ws.len(),
    ensures
        match word_place(ws, t, from) {
            Some(i) => from <= i < ws.len() && ws[i] == t,
            None => forall|j: int| from <= j < ws.len() ==> (#[trigger] ws[j]) != t,
        },
    decreases ws.len() - from,
{
    if from < ws.len() && ws[from] != t {
        word_place_finds(ws, t, from + 1);
    }
}

proof fn sorting_facts(ws: Seq<Seq<char>>, cs: Seq<Cand>)
    ensures
        ({
            let s = sorted_all(ws, cs);
            &&& s.pinned.len() == ws.len()
            &&& forall|k: int|
                0 <= k < ws.len() && (#[trigger] s.pinned[k]) is Some ==> cs.contains(
                    s.pinned[k]->0,
                ) && s.pinned[k]->0.text == ws[k]
            &&& forall|k: int| 0 <= k < s.others.len() ==> cs.contains(#[trigger] s.others[k])
            &&& forall|k: int| 0 <= k < s.rest.len() ==> cs.contains(#[trigger] s.rest[k])
            &&& forall|k: int|
                0 <= k < cs.len() && word_place(ws, (#[trigger] cs[k]).text, 0) is None
                    ==> s.others.contains(cs[k]) || s.rest.contains(cs[k])
        }),
    decreases cs.len(),
{
    if cs.len() > 0 {
        let head = cs.drop_last();
        let c = cs.last();
        sorting_facts(ws, head);
        word_place_finds(ws, c.text, 0);
        let a = sorted_all(ws, head);
        let s = sorted_all(ws, cs);
        assert forall|x: Cand| head.contains(x) implies #[trigger] cs.contains(x) by {
            let i = choose|i: int| 0 <= i < head.len() && head[i] == x;
            assert(cs[i] == x);
        }
        assert(cs[cs.len() - 1] == c);
        assert(cs.contains(c));
        assert forall|k: int| 0 <= k < ws.len() && (#[trigger] s.pinned[k]) is Some implies cs.contains(
            s.pinned[k]->0,
        ) && s.pinned[k]->0.text == ws[k] by {
            if a.pinned[k] is Some {
                assert(s.pinned[k] == a.pinned[k]);
            }
        }
        assert forall|k: int| 0 <= k < s.others.len() implies cs.contains(
            #[trigger] s.others[k],
        ) by {
            if k < a.others.len() {
                assert(s.others[k] == a.others[k]);
            }
        }
        assert forall|k: int| 0 <= k < s.rest.len() implies cs.contains(#[trigger] s.rest[k]) by {
            if k < a.rest.len() {
                assert(s.rest[k] == a.rest[k]);
            }
        }
        assert forall|k: int|
            0 <= k < cs.len() && word_place(ws, (#[trigger] cs[k]).text, 0) is None implies s.others.contains(
        cs[k]) || s.rest.contains(cs[k]) by {
            if k < head.len() {
                assert(head[k] == cs[k]);
                if a.others.contains(cs[k]) {
                    let j = choose|j: int| 0 <= j < a.others.len() && a.others[j] == cs[k];
                    assert(s.others[j] == cs[k]);
                } else {
                    let j = choose|j: int| 0 <= j < a.rest.len() && a.rest[j] == cs[k];
                    assert(s.rest[j] == cs[k]);
                }
            } else if a.finished {
                assert(s.rest[a.rest.len() as int] == c);
            } else {
                assert(s.others[a.others.len() as int] == c);
            }
        }
    }
}

/// No candidate is made up: whatever stands in the new list stood in the old
/// one.
pub proof fn words_first_makes_nothing_up(ws: Seq<Seq<char>>, cs: Seq<Cand>, i: int)
    requires
        0 <= i < words_first(ws, cs).len(),
    ensures
        cs.contains(words_first(ws, cs)[i]),
{
    let s = sorted_all(ws, cs);
    sorting_facts(ws, cs);
    let found = found_only(s.pinned);
    let r = words_first(ws, cs);
    if i < found.len() {
        found_only_texts(s.pinned, i);
        let k = choose|k: int| 0 <= k < s.pinned.len() && (#[trigger] s.pinned[k]) == Some(found[i]);
        assert(r[i] == found[i]);
        assert(s.pinned[k] is Some);
    } else if i < found.len() + s.others.len() {
        assert(r[i] == s.others[i - found.len()]);
    } else {
        assert(r[i] == s.rest[i - found.len() - s.others.len()]);
    }
}

/// No candidate is lost that is not one of the words that go first.
pub proof fn words_first_loses_no_other(ws: Seq<Seq<char>>, cs: Seq<Cand>, i: int)
    requires
        0 <= i < cs.len(),
        !ws.contains(cs[i].text),
    ensures
        words_first(ws, cs).contains(cs[i]),
{
    let s = sorted_all(ws, cs);
    sorting_facts(ws, cs);
    word_place_finds(ws, cs[i].text, 0);
    let found = found_only(s.pinned);
    let r = words_first(ws, cs);
    if let Some(k) = word_place(ws, cs[i].text, 0) {
        assert(ws.contains(ws[k]));
    }
    if s.others.contains(cs[i]) {
        let k = choose|k: int| 0 <= k < s.others.len() && s.others[k] == cs[i];
        assert(r[found.len() + k] == cs[i]);
    } else {
        let k = choose|k: int| 0 <= k < s.rest.len() && s.rest[k] == cs[i];
        assert(r[found.len() + s.others.len() + k] == cs[i]);
    }
}

proof fn found_only_keeps(pinned: Seq<Option<Cand>>, k: int)
    requires
        0 <= k < pinned.len(),
        pinned[k] is Some,
    ensures
        found_only(pinned).contains(pinned[k]->0),
    decreases pinned.len(),
{
    let head = found_only(pinned.drop_last());
    if k == pinned.len() - 1 {
        assert(found_only(pinned)[head.len() as int] == pinned[k]->0);
    } else {
        found_only_keeps(pinned.drop_last(), k);
        let j = choose|j: int| 0 <= j < head.len() && head[j] == pinned[k]->0;
        assert(found_only(pinned)[j] == pinned[k]->0);
    }
}

proof fn wanted_words_are_kept(ws: Seq<Seq<char>>, cs: Seq<Cand>, i: int)
    requires
        0 <= i < cs.len(),
        word_place(ws, cs[i].text, 0) is Some,
    ensures
        sorted_all(ws, cs).pinned[word_place(ws, cs[i].text, 0)->0] is Some || sorted_all(
            ws,
            cs,
        ).rest.contains(cs[i]),
    decreases cs.len(),
{
    let head = cs.drop_last();
    let a = sorted_all(ws, head);
    let s = sorted_all(ws, cs);
    let k = word_place(ws, cs[i].text, 0)->0;
    sorting_facts(ws, head);
    word_place_finds(ws, cs[i].text, 0);
    word_place_finds(ws, cs.last().text, 0);
    if i < head.len() {
        wanted_words_are_kept(ws, head, i);
        assert(head[i] == cs[i]);
        if a.rest.contains(cs[i]) {
            let j = choose|j: int| 0 <= j < a.rest.len() && a.rest[j] == cs[i];
            assert(s.rest[j] == cs[i]);
        }
    } else if a.finished {
        assert(s.rest[a.rest.len() as int] == cs[i]);
    }
}

/// No text is lost: a word that goes first is kept once, and every other as
/// often as it was there.
pub proof fn words_first_keeps_every_text(ws: Seq<Seq<char>>, cs: Seq<Cand>, i: int)
    requires
        0 <= i < cs.len(),
    ensures
        exists|k: int|
            0 <= k < words_first(ws, cs).len() && (#[trigger] words_first(ws, cs)[k]).text
                == cs[i].text,
{
    let s = sorted_all(ws, cs);
    let found = found_only(s.pinned);
    let r = words_first(ws, cs);
    sorting_facts(ws, cs);
    word_place_finds(ws, cs[i].text, 0);
    match word_place(ws, cs[i].text, 0) {
        Some(p) => {
            wanted_words_are_kept(ws, cs, i);
            if s.pinned[p] is Some {
                found_only_keeps(s.pinned, p);
                let j = choose|j: int| 0 <= j < found.len() && found[j] == s.pinned[p]->0;
                assert(r[j].text == cs[i].text);
            } else {
                let j = choose|j: int| 0 <= j < s.rest.len() && s.rest[j] == cs[i];
                assert(r[found.len() + s.others.len() + j] == cs[i]);
            }
        },
        None => {
            assert(!ws.contains(cs[i].text));
            words_first_loses_no_other(ws, cs, i);
            let j = choose|j: int| 0 <= j < r.len() && r[j] == cs[i];
            assert(r[j].text == cs[i].text);
        },
    }
}

/// A text without white space is one word.
pub proof fn one_word(w: Seq<char>)
    requires
        w.len() > 0,
        forall|i: int| 0 <= i < w.len() ==> !char_is_whitespace(#[trigger] w[i]),
    ensures
        words(w) == seq![w],
    decreases w.len(),
{
    reveal_with_fuel(words, 2);
    let c = w[w.len() - 1];
    if w.len() == 1 {
        assert(w.drop_last() =~= Seq::<char>::empty());
        assert(words(w) =~= seq![seq![c]]);
        assert(w =~= seq![c]);
    } else {
        let t = w.drop_last();
        assert forall|i: int| 0 <= i < t.len() implies !char_is_whitespace(#[trigger] t[i]) by {
            assert(t[i] == w[i]);
        }
        one_word(t);
        assert(!char_is_whitespace(w[w.len() - 2]));
        assert(seq![t].drop_last() =~= Seq::<Seq<char>>::empty());
        assert(t.push(c) =~= w);
        assert(words(w) =~= seq![w]);
    }
}

/// White space parts the words before it from those behind it.
pub proof fn white_space_parts_words(a: Seq<char>, c: char, b: Seq<char>)
    requires
        char_is_whitespace(c),
    ensures
        words(a + seq![c] + b) == words(a) + words(b),
    decreases b.len(),
{
    let s = a + seq![c] + b;
    if b.len() == 0 {
        assert(s.drop_last() =~= a);
        assert(s.last() == c);
        assert(words(a) + words(b) =~= words(a));
    } else {
        let t = b.drop_last();
        white_space_parts_words(a, c, t);
        assert(s.drop_last() =~= a + seq![c] + t);
        let d = b.last();
        assert(s.last() == d);
        if !char_is_whitespace(d) {
            assert(s[s.len() - 2] == (if b.len() > 1 {
                b[b.len() - 2]
            } else {
                c
            }));
            if b.len() > 1 && !char_is_whitespace(b[b.len() - 2]) {
                words_go_on(t);
                assert((words(a) + words(t)).drop_last() =~= words(a) + words(t).drop_last());
                assert((words(a) + words(t)).last() == words(t).last());
            }
            assert(words(s) =~= words(a) + words(b));
        }
    }
}

proof fn words_go_on(s: Seq<char>)
    requires
        s.len() > 0,
        !char_is_whitespace(s.last()),
    ensures
        words(s).len() > 0,
{
}

proof fn letters_stay(s: Seq<char>)
    requires
        forall|i: int| 0 <= i < s.len() ==> 'a' <= #[trigger] s[i] <= 'z',
    ensures
        letters(s) == s,
    decreases s.len(),
{
    if s.len() > 0 {
        let t = s.drop_last();
        assert forall|i: int| 0 <= i < t.len() implies 'a' <= #[trigger] t[i] <= 'z' by {
            assert(t[i] == s[i]);
        }
        letters_stay(t);
        assert('a' <= s[s.len() - 1] <= 'z');
        assert(s =~= t.push(s.last()));
    }
}

/// Of a text the letters count, in lower case and in their order: what is no
/// letter is passed over.
pub proof fn only_letters_count(a: Seq<char>, c: char, b: Seq<char>)
    ensures
        letters(a + seq![c] + b) == letters(a) + (if 'a' <= c <= 'z' {
            seq![c]
        } else if 'A' <= c <= 'Z' {
            seq![(c as int + 32) as char]
        } else {
            seq![]
        }) + letters(b),
    decreases b.len(),
{
    let s = a + seq![c] + b;
    if b.len() == 0 {
        assert(s.drop_last() =~= a);
        assert(s.last() == c);
        assert(letters(s) =~= letters(a) + (if 'a' <= c <= 'z' {
            seq![c]
        } else if 'A' <= c <= 'Z' {
            seq![(c as int + 32) as char]
        } else {
            seq![]
        }) + letters(b));
    } else {
        only_letters_count(a, c, b.drop_last());
        assert(s.drop_last() =~= a + seq![c] + b.drop_last());
        assert(s.last() == b.last());
        assert(letters(s) =~= letters(a) + (if 'a' <= c <= 'z' {
            seq![c]
        } else if 'A' <= c <= 'Z' {
            seq![(c as int + 32) as char]
        } else {
            seq![]
        }) + letters(b));
    }
}

/// From a spelling of two syllables follows the first with the first letter of
/// the second, and, where the second starts with zh, ch or sh, also the first
/// with those two; nothing else.
pub proof fn short_codes_cut_the_last_syllable(front: Seq<char>, last: Seq<char>)
    requires
        front.len() > 0,
        last.len() > 0,
        forall|i: int| 0 <= i < front.len() ==> 'a' <= #[trigger] front[i] <= 'z',
        forall|i: int| 0 <= i < last.len() ==> 'a' <= #[trigger] last[i] <= 'z',
    ensures
        ({
            let codes = short_codes(front + seq![' '] + last);
            let double = last.len() > 1 && last[1] == 'h' && (last[0] == 'z' || last[0] == 'c'
                || last[0] == 's');
            &&& codes.len() == (if double {
                2int
            } else {
                1
            })
            &&& codes[0] == front.push(last[0])
            &&& double ==> codes[1] == front.push(last[0]).push('h')
        }),
{
    let s = front + seq![' '] + last;
    assert forall|i: int| 0 <= i < front.len() implies !char_is_whitespace(
        #[trigger] front[i],
    ) by {
        assert('a' <= front[i] <= 'z');
    }
    assert forall|i: int| 0 <= i < last.len() implies !char_is_whitespace(#[trigger] last[i]) by {
        assert('a' <= last[i] <= 'z');
    }
    one_word(front);
    one_word(last);
    white_space_parts_words(front, ' ', last);
    let parts = words(s);
    assert(parts =~= seq![front, last]);
    assert(parts.drop_last() =~= seq![front]);
    reveal_with_fuel(run_together, 2);
    assert(seq![front].drop_last() =~= Seq::<Seq<char>>::empty());
    assert(run_together(parts.drop_last()) =~= front);
    letters_stay(front);
    letters_stay(last);
    assert(front + last.take(1) =~= front.push(last[0]));
    if last.len() > 1 {
        assert(front + last.take(2) =~= front.push(last[0]).push(last[1]));
    }
}

/// What is found for a code are its own words; else those of the longest
/// beginning of it that has words; else nothing.
pub proof fn the_longest_beginning_counts(
    m: Map<Seq<char>, Seq<Seq<char>>>,
    key: Seq<char>,
    n: int,
)
    requires
        0 < n <= key.len(),
        forall|k: int| n < k <= key.len() ==> !m.contains_key(#[trigger] key.take(k)),
    ensures
        m.contains_key(key.take(n)) ==> found_for(m, key) == Some(m[key.take(n)]),
        (forall|k: int| 0 < k <= key.len() ==> !m.contains_key(#[trigger] key.take(k)))
            ==> found_for(m, key) is None,
{
    assert(key.take(key.len() as int) =~= key);
    starts_are_tried(m, key, n, key.len() - 1);
}

proof fn starts_are_tried(m: Map<Seq<char>, Seq<Seq<char>>>, key: Seq<char>, n: int, from: int)
    requires
        0 < n <= key.len(),
        0 <= from < key.len(),
        forall|k: int| n < k <= key.len() ==> !m.contains_key(#[trigger] key.take(k)),
    ensures
        n <= from && m.contains_key(key.take(n)) ==> longest_start(m, key, from) == Some(
            key.take(n),
        ),
        (forall|k: int| 0 < k <= key.len() ==> !m.contains_key(#[trigger] key.take(k)))
            ==> longest_start(m, key, from) is None,
    decreases from,
{
    if from > 0 {
        starts_are_tried(m, key, n, from - 1);
    }
}

/// Of two entries with one code the later counts, and an entry without words or
/// without letters counts for nothing.
pub proof fn the_last_entry_counts(es: Seq<(Seq<char>, Seq<Seq<char>>)>, i: int)
    requires
        0 <= i < es.len(),
        letters(es[i].0).len() > 0,
        all_words(es[i].1).len() > 0,
        forall|j: int|
            i < j < es.len() ==> letters((#[trigger] es[j]).0) != letters(es[i].0) || all_words(
                es[j].1,
            ).len() == 0,
    ensures
        pinned_words(es).contains_key(letters(es[i].0)),
        pinned_words(es)[letters(es[i].0)] == all_words(es[i].1),
{
    the_last_written_counts(es, i);
    written_codes_win(es, letters(es[i].0));
}

proof fn the_last_written_counts(es: Seq<(Seq<char>, Seq<Seq<char>>)>, i: int)
    requires
        0 <= i < es.len(),
        letters(es[i].0).len() > 0,
        all_words(es[i].1).len() > 0,
        forall|j: int|
            i < j < es.len() ==> letters((#[trigger] es[j]).0) != letters(es[i].0) || all_words(
                es[j].1,
            ).len() == 0,
    ensures
        written_out(es).contains_key(letters(es[i].0)),
        written_out(es)[letters(es[i].0)] == all_words(es[i].1),
    decreases es.len(),
{
    if i < es.len() - 1 {
        let t = es.drop_last();
        assert forall|j: int| i < j < t.len() implies letters((#[trigger] t[j]).0) != letters(t[i].0)
            || all_words(t[j].1).len() == 0 by {
            assert(t[j] == es[j]);
        }
        assert(t[i] == es[i]);
        the_last_written_counts(t, i);
        assert(es[es.len() - 1] == es.last());
    }
}

/// Entries that share a short code share its words: a word of a later entry
/// comes behind those of the earlier ones, and none stands there twice.
pub proof fn further_words_come_behind(list: Seq<Seq<char>>, more: Seq<Seq<char>>)
    ensures
        list.is_prefix_of(extended(list, more)),
        forall|w: Seq<char>| #[trigger]
            extended(list, more).contains(w) <==> list.contains(w) || more.contains(w),
        list.no_duplicates() ==> extended(list, more).no_duplicates(),
    decreases more.len(),
{
    if more.len() > 0 {
        let t = more.drop_last();
        let w0 = more.last();
        further_words_come_behind(list, t);
        let head = extended(list, t);
        let r = extended(list, more);
        assert forall|w: Seq<char>| #[trigger] r.contains(w) <==> list.contains(w) || more.contains(
            w,
        ) by {
            assert(head.contains(w) <==> list.contains(w) || t.contains(w));
            assert(more =~= t.push(w0));
            if more.contains(w) {
                let k = choose|k: int| 0 <= k < more.len() && more[k] == w;
                if k < t.len() {
                    assert(t[k] == w);
                }
            }
            if t.contains(w) {
                let k = choose|k: int| 0 <= k < t.len() && t[k] == w;
                assert(more[k] == w);
            }
            assert(more[more.len() - 1] == w0);
            if r.contains(w) {
                let k = choose|k: int| 0 <= k < r.len() && r[k] == w;
                if k < head.len() {
                    assert(head[k] == w);
                }
            }
            if head.contains(w) {
                let k = choose|k: int| 0 <= k < head.len() && head[k] == w;
                assert(r[k] == w);
            }
            if w == w0 && !head.contains(w0) {
                assert(r[head.len() as int] == w0);
            }
        }
    } else {
        assert(extended(list, more) =~= list);
        assert forall|w: Seq<char>| #[trigger]
            extended(list, more).contains(w) <==> list.contains(w) || more.contains(w) by {}
    }
}

proof fn found_in_order(pinned: Seq<Option<Cand>>)
    requires
        forall|i: int| 0 <= i < pinned.len() ==> (#[trigger] pinned[i]) is Some,
    ensures
        found_only(pinned).len() == pinned.len(),
        forall|i: int| 0 <= i < pinned.len() ==> (#[trigger] found_only(pinned)[i]) == pinned[i]->0,
    decreases pinned.len(),
{
    if pinned.len() > 0 {
        let t = pinned.drop_last();
        assert forall|i: int| 0 <= i < t.len() implies (#[trigger] t[i]) is Some by {
            assert(t[i] == pinned[i]);
        }
        found_in_order(t);
        assert(pinned[pinned.len() - 1] is Some);
        assert forall|i: int| 0 <= i < pinned.len() implies (#[trigger] found_only(pinned)[i])
            == pinned[i]->0 by {
            if i < t.len() {
                assert(found_only(pinned)[i] == found_only(t)[i]);
            }
        }
    }
}

proof fn searched(ws: Seq<Seq<char>>, cs: Seq<Cand>, k: int, at: int)
    requires
        0 <= k < ws.len(),
        0 <= at < cs.len(),
        cs[at].text == ws[k],
        ws.no_duplicates(),
        cs.len() <= 100,
    ensures
        ({
            let s = sorted_all(ws, cs);
            s.pinned[k] is Some
        }),
    decreases cs.len(),
{
    sorting_is_unfinished(ws, cs.drop_last());
    sorting_facts(ws, cs.drop_last());
    word_place_finds(ws, cs.last().text, 0);
    if at < cs.len() - 1 {
        assert(cs.drop_last()[at] == cs[at]);
        searched(ws, cs.drop_last(), k, at);
    } else {
        let a = sorted_all(ws, cs.drop_last());
        match word_place(ws, cs.last().text, 0) {
            Some(i) => {
                assert(ws[i] == ws[k]);
                assert(i == k);
                if a.finished {
                    assert(a.pinned[k] is Some);
                }
            },
            None => {
                assert(ws[k] != cs.last().text);
            },
        }
    }
}

proof fn sorting_is_unfinished(ws: Seq<Seq<char>>, cs: Seq<Cand>)
    requires
        cs.len() <= 100,
    ensures
        ({
            let s = sorted_all(ws, cs);
            &&& s.pinned.len() == ws.len()
            &&& s.others.len() <= cs.len()
            &&& s.finished ==> all_found(s.pinned)
        }),
    decreases cs.len(),
{
    if cs.len() > 0 {
        sorting_is_unfinished(ws, cs.drop_last());
        word_place_finds(ws, cs.last().text, 0);
    }
}

/// The words that are wanted stand first, in the order in which they are
/// wanted, where each is among the candidates: whatever the order of those was.
pub proof fn wanted_words_come_first(ws: Seq<Seq<char>>, cs: Seq<Cand>, k: int)
    requires
        ws.no_duplicates(),
        cs.len() <= 100,
        forall|w: Seq<char>| #[trigger]
            ws.contains(w) ==> exists|i: int| 0 <= i < cs.len() && (#[trigger] cs[i]).text == w,
        0 <= k < ws.len(),
    ensures
        words_first(ws, cs).len() >= ws.len(),
        words_first(ws, cs)[k].text == ws[k],
{
    let s = sorted_all(ws, cs);
    sorting_facts(ws, cs);
    assert forall|j: int| 0 <= j < s.pinned.len() implies (#[trigger] s.pinned[j]) is Some by {
        assert(ws.contains(ws[j]));
        let at = choose|i: int| 0 <= i < cs.len() && (#[trigger] cs[i]).text == ws[j];
        searched(ws, cs, j, at);
    }
    found_in_order(s.pinned);
    assert(s.pinned[k] is Some);
    assert(found_only(s.pinned)[k] == s.pinned[k]->0);
}

proof fn nothing_wanted(ws: Seq<Seq<char>>, cs: Seq<Cand>)
    requires
        ws.len() > 0,
        forall|i: int| 0 <= i < cs.len() ==> !ws.contains((#[trigger] cs[i]).text),
    ensures
        ({
            let s = sorted_all(ws, cs);
            &&& s.others == cs
            &&& s.rest.len() == 0
            &&& !s.finished
            &&& s.pinned == Seq::new(ws.len(), |i: int| None::<Cand>)
        }),
    decreases cs.len(),
{
    if cs.len() > 0 {
        let t = cs.drop_last();
        assert forall|i: int| 0 <= i < t.len() implies !ws.contains((#[trigger] t[i]).text) by {
            assert(t[i] == cs[i]);
        }
        nothing_wanted(ws, t);
        word_place_finds(ws, cs.last().text, 0);
        assert(!ws.contains(cs[cs.len() - 1].text));
        if let Some(i) = word_place(ws, cs.last().text, 0) {
            assert(ws.contains(ws[i]));
        }
        assert(sorted_all(ws, cs).others =~= cs);
    }
}

proof fn nothing_found(n: nat)
    ensures
        found_only(Seq::new(n, |i: int| None::<Cand>)).len() == 0,
    decreases n,
{
    if n > 0 {
        let p = Seq::new(n, |i: int| None::<Cand>);
        assert(p.drop_last() =~= Seq::new((n - 1) as nat, |i: int| None::<Cand>));
        nothing_found((n - 1) as nat);
    }
}

/// Where no candidate is wanted, the order stays as it was.
pub proof fn unwanted_words_stay(ws: Seq<Seq<char>>, cs: Seq<Cand>)
    requires
        ws.len() > 0,
        forall|i: int| 0 <= i < cs.len() ==> !ws.contains((#[trigger] cs[i]).text),
    ensures
        words_first(ws, cs) == cs,
{
    nothing_wanted(ws, cs);
    nothing_found(ws.len());
    let s = sorted_all(ws, cs);
    assert(words_first(ws, cs) =~= cs);
}

} // verus!
