//! How the input is shown: its units, with a mark between them.

use std::sync::Arc;
use vstd::prelude::*;
use crate::candidate::Span;
use crate::code::{CodeAlphabet, CodeUnitId};
use crate::order::views;
use crate::spelling::{poured, Expansion, Reading, SpellingTable};
use crate::text::{
    byte_len, bytes_len, one_more_piece, push_char, separators_part, split_on, texts,
};

verus! {

/// The texts of the units of a code, without those that the alphabet lacks.
pub open spec fn unit_texts(units: Seq<Seq<char>>, code: Seq<CodeUnitId>) -> Seq<Seq<char>>
    decreases code.len(),
{
    if code.len() == 0 {
        seq![]
    } else {
        let head = unit_texts(units, code.drop_last());
        if code.last().0 < units.len() {
            head.push(units[code.last().0 as int])
        } else {
            head
        }
    }
}

/// How many bytes some texts have together.
pub open spec fn total_bytes(ts: Seq<Seq<char>>) -> int
    decreases ts.len(),
{
    if ts.len() == 0 {
        0
    } else {
        total_bytes(ts.drop_last()) + bytes_len(ts.last())
    }
}

/// Where texts stand that are written side by side.
pub open spec fn spans_of(ts: Seq<Seq<char>>) -> Seq<Span> {
    Seq::new(
        ts.len(),
        |i: int|
            Span {
                start: total_bytes(ts.take(i)) as usize,
                end: total_bytes(ts.take(i + 1)) as usize,
            },
    )
}

/// Texts with a mark between them.
pub open spec fn joined_by(ts: Seq<Seq<char>>, mark: char) -> Seq<char>
    decreases ts.len(),
{
    if ts.len() == 0 {
        seq![]
    } else if ts.len() == 1 {
        ts[0]
    } else {
        joined_by(ts.drop_last(), mark).push(mark) + ts.last()
    }
}

/// The units of the best reading of the input, where they make up the input.
pub open spec fn units_shown(t: &SpellingTable, s: Seq<char>) -> Option<Seq<Seq<char>>> {
    let rs = t.reads(s);
    if rs.len() == 0 {
        None
    } else {
        let ts = unit_texts(t.alphabet@, rs[0].code);
        if ts.len() == 0 || total_bytes(ts) != bytes_len(s) {
            None
        } else {
            Some(ts)
        }
    }
}

/// The input as it is shown, and where its units stand. Without a reading that
/// makes up the input, it is shown as it is, in one piece.
pub open spec fn shown(
    spelling: Option<Arc<SpellingTable>>,
    mark: Option<char>,
    s: Seq<char>,
) -> (Seq<char>, Seq<Span>) {
    let whole = (s, seq![Span { start: 0, end: bytes_len(s) as usize }]);
    match spelling {
        None => whole,
        Some(t) => match units_shown(&t, s) {
            None => whole,
            Some(ts) => (
                match mark {
                    Some(d) => joined_by(ts, d),
                    None => s,
                },
                spans_of(ts),
            ),
        },
    }
}

fn collect_units(alphabet: &CodeAlphabet, code: &Vec<CodeUnitId>) -> (r: Vec<String>)
    ensures
        texts(r@) == unit_texts(alphabet@, code@),
{
    let mut out: Vec<String> = Vec::new();
    let mut i: usize = 0;
    assert(texts(out@) =~= seq![]);
    assert(code@.take(0) =~= seq![]);
    while i < code.len()
        invariant
            i <= code@.len(),
            texts(out@) == unit_texts(alphabet@, code@.take(i as int)),
        decreases code.len() - i,
    {
        let ghost had = texts(out@);
        proof {
            let f = code@.take(i + 1);
            assert(f.drop_last() =~= code@.take(i as int));
            assert(f.last() == code@[i as int]);
        }
        if let Some(t) = alphabet.text(code[i]) {
            out.push(t.to_owned());
            assert(texts(out@) =~= had.push(t@));
        }
        i += 1;
    }
    assert(code@.take(i as int) =~= code@);
    out
}

proof fn totals_grow(ts: Seq<Seq<char>>, i: int)
    requires
        0 <= i <= ts.len(),
    ensures
        0 <= total_bytes(ts.take(i)) <= total_bytes(ts),
    decreases ts.len(),
{
    if i == ts.len() {
        assert(ts.take(i) =~= ts);
        if ts.len() > 0 {
            totals_grow(ts.drop_last(), ts.len() - 1);
            assert(ts.drop_last().take(ts.len() - 1) =~= ts.drop_last());
        }
    } else {
        totals_grow(ts.drop_last(), i);
        assert(ts.drop_last().take(i) =~= ts.take(i));
    }
}

/// The places of texts written side by side, where they take `len` bytes.
fn collect_spans(ts: &Vec<String>, len: usize) -> (r: Option<Vec<Span>>)
    ensures
        match r {
            Some(v) => total_bytes(texts(ts@)) == len && v@ == spans_of(texts(ts@)),
            None => total_bytes(texts(ts@)) != len,
        },
{
    let ghost all = texts(ts@);
    let mut out: Vec<Span> = Vec::new();
    let mut pos: usize = 0;
    let mut i: usize = 0;
    assert(all.take(0) =~= seq![]);
    while i < ts.len()
        invariant
            i <= ts@.len(),
            all == texts(ts@),
            pos == total_bytes(all.take(i as int)),
            pos <= len,
            out@ == spans_of(all).take(i as int),
        decreases ts.len() - i,
    {
        let n: usize = byte_len(ts[i].as_str());
        proof {
            let f = all.take(i + 1);
            assert(f.drop_last() =~= all.take(i as int));
            assert(f.last() == ts@[i as int]@);
            totals_grow(all, i + 1);
        }
        if n > len - pos {
            return None;
        }
        let end: usize = pos + n;
        out.push(Span::new(pos, end));
        assert(spans_of(all)[i as int] == out@.last());
        pos = end;
        i += 1;
        assert(out@ =~= spans_of(all).take(i as int));
    }
    assert(all.take(i as int) =~= all);
    assert(spans_of(all).take(i as int) =~= spans_of(all));
    if pos == len {
        Some(out)
    } else {
        None
    }
}

fn join_units(ts: &Vec<String>, mark: char) -> (r: String)
    ensures
        r@ == joined_by(texts(ts@), mark),
{
    let ghost all = texts(ts@);
    let mut out = String::new();
    let mut i: usize = 0;
    assert(all.take(0) =~= seq![]);
    while i < ts.len()
        invariant
            i <= ts@.len(),
            all == texts(ts@),
            out@ == joined_by(all.take(i as int), mark),
        decreases ts.len() - i,
    {
        proof {
            let f = all.take(i + 1);
            assert(f.drop_last() =~= all.take(i as int));
            assert(f.last() == ts@[i as int]@);
        }
        if i > 0 {
            push_char(&mut out, mark);
        }
        out.append(ts[i].as_str());
        proof {
            if i == 0 {
                assert(all.take(1)[0] == ts@[0]@);
                assert(out@ =~= all.take(1)[0]);
            }
        }
        i += 1;
    }
    assert(all.take(i as int) =~= all);
    out
}

fn in_one_piece(input: &str) -> (r: (String, Vec<Span>))
    ensures
        r.0@ == input@,
        r.1@ == seq![Span { start: 0, end: bytes_len(input@) as usize }],
{
    let mut v: Vec<Span> = Vec::new();
    v.push(Span::new(0, byte_len(input)));
    assert(v@ =~= seq![Span { start: 0, end: bytes_len(input@) as usize }]);
    (input.to_owned(), v)
}

/// The input as it is shown, and where its units stand.
pub(crate) fn segment_for_display(
    spelling: &Option<Arc<SpellingTable>>,
    mark: Option<char>,
    input: &str,
) -> (r: (String, Vec<Span>))
    requires
        spelling matches Some(t) ==> t.wf(),
    ensures
        (r.0@, r.1@) == shown(*spelling, mark, input@),
{
    let table = match spelling {
        Some(t) => t,
        None => {
            return in_one_piece(input);
        },
    };
    let mut found: Vec<Expansion> = Vec::new();
    assert(views(found@) =~= seq![]);
    table.expand_into(input, &mut found, 1);
    let ghost rs = table.reads(input@);
    proof {
        assert(poured(Seq::<Reading>::empty(), rs, 1) =~= rs.take(if rs.len() < 1 {
            0
        } else {
            1
        }));
        assert(views(found@).len() == found@.len());
    }
    if found.len() == 0 {
        return in_one_piece(input);
    }
    assert(views(found@)[0] == found@[0]@);
    assert(found@[0]@ == rs[0]);
    let units = collect_units(&table.alphabet, &found[0].code);
    if units.len() == 0 {
        assert(unit_texts(table.alphabet@, rs[0].code).len() == 0);
        return in_one_piece(input);
    }
    match collect_spans(&units, byte_len(input)) {
        None => in_one_piece(input),
        Some(spans) => {
            let text = match mark {
                Some(d) => join_units(&units, d),
                None => input.to_owned(),
            };
            (text, spans)
        },
    }
}

// ---------------------------------------------------------------------------
// Laws
// ---------------------------------------------------------------------------

/// The places of the units stand side by side from the beginning to the end of
/// the input: what is shown apart is what can be taken back apart.
pub proof fn shown_units_cover_the_input(
    spelling: Option<Arc<SpellingTable>>,
    mark: Option<char>,
    s: Seq<char>,
)
    requires
        bytes_len(s) <= usize::MAX,
    ensures
        ({
            let spans = shown(spelling, mark, s).1;
            &&& spans.len() > 0
            &&& spans[0].start == 0
            &&& spans.last().end == bytes_len(s)
            &&& forall|i: int|
                0 <= i < spans.len() - 1 ==> (#[trigger] spans[i]).end == spans[i + 1].start
            &&& forall|i: int|
                0 <= i < spans.len() ==> (#[trigger] spans[i]).start <= spans[i].end <= bytes_len(s)
        }),
{
    match spelling {
        None => {},
        Some(t) => match units_shown(&t, s) {
            None => {},
            Some(ts) => {
                let spans = spans_of(ts);
                assert(ts.take(0) =~= seq![]);
                assert(ts.take(ts.len() as int) =~= ts);
                assert(spans.last().end == total_bytes(ts)) by {
                    assert(spans.last() == spans[spans.len() - 1]);
                }
                assert forall|i: int| 0 <= i < spans.len() implies (#[trigger] spans[i]).start
                    <= spans[i].end <= bytes_len(s) by {
                    totals_grow(ts, i);
                    totals_grow(ts, i + 1);
                    totals_grow(ts.take(i + 1), i);
                    assert(ts.take(i + 1).take(i) =~= ts.take(i));
                }
                assert forall|i: int| 0 <= i < spans.len() - 1 implies (#[trigger] spans[i]).end
                    == spans[i + 1].start by {}
            },
        },
    }
}

/// Units with a mark between them are the same units again when they are parted
/// at the mark, as long as none of them holds it.
pub proof fn shown_units_part_again(ts: Seq<Seq<char>>, mark: char)
    requires
        ts.len() > 0,
        forall|i: int| 0 <= i < ts.len() ==> !(#[trigger] ts[i]).contains(mark),
    ensures
        split_on(joined_by(ts, mark), mark) == ts,
    decreases ts.len(),
{
    let w = ts.last();
    let none = Seq::<char>::empty();
    assert(ts[ts.len() - 1] == w);
    one_more_piece(w, none, mark);
    assert(none + w =~= w);
    assert(split_on(none, mark) =~= seq![none]);
    assert(split_on(w, mark) =~= seq![w]);
    if ts.len() == 1 {
        assert(ts =~= seq![w]);
    } else {
        let front = ts.drop_last();
        assert forall|i: int| 0 <= i < front.len() implies !(#[trigger] front[i]).contains(mark) by {
            assert(front[i] == ts[i]);
        }
        shown_units_part_again(front, mark);
        separators_part(joined_by(front, mark), w, mark);
        assert(joined_by(front, mark).push(mark) + w =~= joined_by(front, mark) + seq![mark] + w);
        assert(front + seq![w] =~= ts);
    }
}

/// The units of a code are shown in its order, each by its text.
pub proof fn codes_show_their_units(units: Seq<Seq<char>>, code: Seq<CodeUnitId>, i: int)
    requires
        forall|j: int| 0 <= j < code.len() ==> (#[trigger] code[j]).0 < units.len(),
        0 <= i < code.len(),
    ensures
        unit_texts(units, code).len() == code.len(),
        unit_texts(units, code)[i] == units[code[i].0 as int],
    decreases code.len(),
{
    reveal_with_fuel(unit_texts, 2);
    let t = code.drop_last();
    assert(code[code.len() - 1].0 < units.len());
    if t.len() > 0 {
        assert forall|j: int| 0 <= j < t.len() implies (#[trigger] t[j]).0 < units.len() by {
            assert(t[j] == code[j]);
        }
        codes_show_their_units(units, t, if i < t.len() {
            i
        } else {
            0
        });
    }
}

/// Without a table of spellings, or without a reading that makes up the input,
/// the input is shown as it was typed; without a mark it always is.
pub proof fn input_is_shown_as_typed(
    spelling: Option<Arc<SpellingTable>>,
    mark: Option<char>,
    s: Seq<char>,
)
    ensures
        spelling is None || mark is None ==> shown(spelling, mark, s).0 == s,
        (spelling matches Some(t) && t.reads(s).len() == 0) ==> shown(spelling, mark, s).0 == s,
{
}

} // verus!
