//! What holds of every pipeline.

use vstd::prelude::*;
use crate::candidate::{Cand, Lane};
use crate::component::{AnyFilter, AnyTranslator, Filter, Question, Translator};
use crate::filter::unique_keeps_the_best;
use crate::inline::pin::{found_for, letters, words_first_keeps_every_text};
use crate::inline::reorder::{
    bare, english_down_is_a_permutation, long_words_up_is_a_permutation,
    single_characters_first_is_a_permutation, with_capitals,
};
use crate::keyspec::Key;
use crate::order::{sorted_from, views};
use crate::ranking::{ranked, ranks_before};
use crate::segmentor::Part;
use crate::spelling::poured;
use crate::state::{ProcessResult, State};
use crate::text::{at_byte, at_byte_finds, at_byte_inverse, bytes_len, prefix_bytes};
use crate::translator::{emitted, has_text, sentence_cands, covers_whole, TRANSLATE_PATHS};
use super::{
    body_offset, body_text, dispatched, filtered, keyed, laid_out, page_count, poured_by_tags,
    poured_for, poured_freely, redirected, resent, turned_back, PipelineImpl,
};
use super::prediction::{block, foreseen, predictions_are_few_and_new, spliced};
use crate::candidate::Span;
use crate::component::{Cutter, Processor};

verus! {

proof fn emitting_adds_only(
    t: &crate::translator::SpellingGraphTranslator,
    ps: Seq<crate::spelling::Path>,
    i: int,
    q: Question,
    there: Seq<Cand>,
    cap: int,
)
    ensures
        there.is_prefix_of(
            emitted(
                t.lexicon.words(),
                t.spelling.alphabet@,
                ps,
                i,
                q.text,
                t.completion,
                t.quality,
                q.span,
                there,
                cap,
            ),
        ),
    decreases ps.len() - i,
{
    if 0 <= i < ps.len() {
        let more = crate::translator::path_cands(
            t.lexicon.words(),
            t.spelling.alphabet@,
            ps[i],
            q.text,
            t.completion,
            t.quality,
            q.span,
        );
        emitting_adds_only(t, ps, i + 1, q, poured(there, more, cap), cap);
    }
}

/// A translator adds candidates behind those that are there, and changes none
/// of them.
pub proof fn translators_add_only(t: Translator, there: Seq<Cand>, q: Question, cap: int)
    ensures
        there.is_prefix_of(t.pours(there, q, cap)),
{
    match t {
        Translator::Graph(g) => {
            let ps = g.spelling.paths(q.text, TRANSLATE_PATHS as int);
            let ws = g.lexicon.words();
            let start = if covers_whole(ws, ps, q.text.len() as int) {
                there
            } else {
                poured(there, sentence_cands(&g.spelling, ws, q.text, q.span, there), cap)
            };
            emitting_adds_only(&g, ps, 0, q, start, cap);
            assert(there.is_prefix_of(start));
        },
        _ => {},
    }
}

proof fn later_translators_add_only(
    ts: Seq<AnyTranslator>,
    active: Seq<Seq<char>>,
    q: Question,
    cap: int,
    n: int,
    m: int,
)
    requires
        0 <= n <= m,
    ensures
        poured_freely(ts, active, q, cap, n).is_prefix_of(poured_freely(ts, active, q, cap, m)),
    decreases m,
{
    if n < m {
        later_translators_add_only(ts, active, q, cap, n, m - 1);
        translators_add_only(
            ts[m - 1].bare(),
            poured_freely(ts, active, q, cap, m - 1),
            q,
            cap,
        );
    }
}

proof fn tagged_translators_add_only(
    ts: Seq<AnyTranslator>,
    tag: Seq<char>,
    active: Seq<Seq<char>>,
    there: Seq<Cand>,
    q: Question,
    cap: int,
    n: int,
)
    ensures
        there.is_prefix_of(poured_for(ts, tag, active, there, q, cap, n)),
    decreases n,
{
    if n > 0 {
        tagged_translators_add_only(ts, tag, active, there, q, cap, n - 1);
        translators_add_only(
            ts[n - 1].bare(),
            poured_for(ts, tag, active, there, q, cap, n - 1),
            q,
            cap,
        );
    }
}

proof fn tags_add_only(
    ts: Seq<AnyTranslator>,
    cs: Seq<Cutter>,
    active: Seq<Seq<char>>,
    q: Question,
    cap: int,
    n: int,
)
    ensures
        poured_freely(ts, active, q, cap, ts.len() as int).is_prefix_of(
            poured_by_tags(ts, cs, active, q, cap, n),
        ),
    decreases n,
{
    if n > 0 {
        tags_add_only(ts, cs, active, q, cap, n - 1);
        let tag = active[n - 1];
        let body = body_text(q.input, body_offset(cs, tag, 0));
        tagged_translators_add_only(
            ts,
            tag,
            active,
            poured_by_tags(ts, cs, active, q, cap, n - 1),
            Question { text: body, ..q },
            cap,
            ts.len() as int,
        );
    }
}

proof fn same_contents_same_texts(a: Seq<Cand>, b: Seq<Cand>, t: Seq<char>)
    requires
        a.to_multiset() == b.to_multiset(),
        has_text(a, t),
    ensures
        has_text(b, t),
{
    broadcast use vstd::seq_lib::group_to_multiset_ensures;

    let i = choose|i: int| 0 <= i < a.len() && (#[trigger] a[i]).text == t;
    assert(a.contains(a[i]));
    assert(a.to_multiset().count(a[i]) > 0);
    assert(b.contains(a[i]));
    let j = choose|j: int| 0 <= j < b.len() && b[j] == a[i];
    assert(b[j].text == t);
}

/// Whether no candidate with a text gets other capitals under an input.
pub open spec fn keeps_capitals(input: Seq<char>, t: Seq<char>) -> bool {
    forall|c: Cand| c.text == t ==> (#[trigger] with_capitals(input, c)).text == t
}

/// What was typed keeps its capitals, unless it holds punctuation or blanks.
pub proof fn what_was_typed_keeps_its_capitals(input: Seq<char>)
    requires
        bare(input) == input,
    ensures
        keeps_capitals(input, input),
{
}

/// A filter loses no text, unless it writes it with other capitals.
pub proof fn filters_lose_no_text(
    f: Filter,
    input: Seq<char>,
    options: Map<Seq<char>, bool>,
    cs: Seq<Cand>,
    t: Seq<char>,
)
    requires
        f.wf(),
        f is AutoCap ==> keeps_capitals(input, t),
        has_text(cs, t),
    ensures
        has_text(f.leaves(input, options, cs), t),
{
    let r = f.leaves(input, options, cs);
    let i = choose|i: int| 0 <= i < cs.len() && (#[trigger] cs[i]).text == t;
    match f {
        Filter::Uniquifier(_) => {
            unique_keeps_the_best(cs, i);
            let k = choose|k: int| #![trigger r[k]]
                0 <= k < r.len() && r[k].text == cs[i].text;
            assert(r[k].text == t);
        },
        Filter::ReverseLookup(g) => {
            assert(r[i].text == t);
        },
        Filter::Converter(g) => {
            assert(r[i].text == t);
        },
        Filter::V(g) => {
            single_characters_first_is_a_permutation(&g, input, cs);
            same_contents_same_texts(cs, r, t);
        },
        Filter::ReduceEnglish(g) => {
            english_down_is_a_permutation(&g, input, cs);
            same_contents_same_texts(cs, r, t);
        },
        Filter::LongWord(g) => {
            long_words_up_is_a_permutation(&g, cs);
            same_contents_same_texts(cs, r, t);
        },
        Filter::AutoCap(_) => {
            assert(with_capitals(input, cs[i]).text == t);
            assert(r[i].text == t);
        },
        Filter::Pin(g) => {
            if letters(input).len() > 0 {
                match found_for(g.table.table(), letters(input)) {
                    Some(ws) => {
                        words_first_keeps_every_text(ws, cs, i);
                        let k = choose|k: int|
                            0 <= k < r.len() && (#[trigger] r[k]).text == cs[i].text;
                        assert(r[k].text == t);
                    },
                    None => {
                        assert(r[i].text == t);
                    },
                }
            } else {
                assert(r[i].text == t);
            }
        },
    }
}

proof fn filtering_loses_no_text(
    fs: Seq<AnyFilter>,
    active: Seq<Seq<char>>,
    input: Seq<char>,
    options: Map<Seq<char>, bool>,
    cs: Seq<Cand>,
    n: int,
    t: Seq<char>,
)
    requires
        0 <= n <= fs.len(),
        forall|i: int|
            0 <= i < fs.len() ==> (#[trigger] fs[i]).bare().wf() && (fs[i].bare() is AutoCap
                ==> keeps_capitals(input, t)),
        has_text(cs, t),
    ensures
        has_text(filtered(fs, active, input, options, cs, n), t),
    decreases n,
{
    if n > 0 {
        filtering_loses_no_text(fs, active, input, options, cs, n - 1, t);
        assert(fs[n - 1].bare().wf());
        if fs[n - 1].admits(active) {
            filters_lose_no_text(
                fs[n - 1].bare(),
                input,
                options,
                filtered(fs, active, input, options, cs, n - 1),
                t,
            );
        }
    }
}

proof fn splicing_loses_no_text(cs: Seq<Cand>, b: Seq<Cand>, t: Seq<char>)
    requires
        has_text(cs, t),
    ensures
        has_text(spliced(cs, b), t),
{
    let i = choose|i: int| 0 <= i < cs.len() && (#[trigger] cs[i]).text == t;
    if b.len() > 0 {
        let at = super::prediction::block_place(cs.len() as int);
        if i < at {
            assert(spliced(cs, b)[i].text == t);
        } else {
            assert(spliced(cs, b)[i + b.len()].text == t);
        }
    }
}

/// Whether the translators before place `k` leave room in the buffer.
pub open spec fn leaves_room(p: &PipelineImpl, s: State, k: int) -> bool {
    poured_freely(
        p.translators@,
        p.active(p.parts(s.input)),
        (Question {
            input: s.input,
            text: s.input,
            options: s.options,
            span: (Span { start: 0, end: bytes_len(s.input) as usize }),
        }),
        p.cap as int,
        k,
    ).len() < p.cap
}

/// What was typed can always be committed as it is: a pipeline that echoes the
/// input has it among the candidates, whatever the lexicon says. (The echo
/// comes at place `k` among the translators and finds room in the buffer, and
/// no filter changes its capitals.)
pub proof fn what_was_typed_can_be_committed(p: &PipelineImpl, s: State, k: int)
    requires
        p.wf(),
        s.input.len() > 0,
        0 <= k < p.translators@.len(),
        p.translators@[k] is Plain,
        p.translators@[k]->Plain_0 is Echo,
        leaves_room(p, s, k),
        forall|i: int|
            0 <= i < p.filters@.len() ==> ((#[trigger] p.filters@[i]).bare() is AutoCap
                ==> keeps_capitals(s.input, s.input)),
    ensures
        has_text(p.composed(s).1, s.input),
{
    let parts = p.parts(s.input);
    let active = p.active(parts);
    let span = Span { start: 0, end: bytes_len(s.input) as usize };
    let q = Question { input: s.input, text: s.input, options: s.options, span };
    let ts = p.translators@;
    let cap = p.cap as int;
    let before = poured_freely(ts, active, q, cap, k);
    let after = poured_freely(ts, active, q, cap, k + 1);
    let raw = p.translated(s.input, s.options, active);
    assert(after[before.len() as int].text == s.input);
    later_translators_add_only(ts, active, q, cap, k + 1, ts.len() as int);
    tags_add_only(ts, p.cutters(), active, q, cap, active.len() as int);
    assert(raw[before.len() as int] == after[before.len() as int]);
    let sorted = ranked(raw);
    sorted_from(raw, |a: Cand, b: Cand| ranks_before(a, b));
    assert(raw.contains(raw[before.len() as int]));
    assert(sorted.contains(raw[before.len() as int]));
    let j = choose|j: int| 0 <= j < sorted.len() && sorted[j] == raw[before.len() as int];
    assert(sorted[j].text == s.input);
    filtering_loses_no_text(
        p.filters@,
        active,
        s.input,
        s.options,
        sorted,
        p.filters@.len() as int,
        s.input,
    );
    let cs = p.chosen(s.input, s.options, active, raw);
    splicing_loses_no_text(cs, block(foreseen(p.predictions), s, cs), s.input);
}

/// There are exactly as many pages as the candidates take, and the page that is
/// shown is one of them.
pub proof fn pages_fit_the_candidates(p: &PipelineImpl, s: State)
    requires
        p.page_size >= 1,
        s.page >= 0,
    ensures
        ({
            let (t, cs) = p.composed(s);
            &&& t.count == cs.len()
            &&& (t.pages - 1) * p.page_size < cs.len() || t.pages == 0
            &&& cs.len() <= t.pages * p.page_size
            &&& (t.pages == 0 ==> t.page == 0)
            &&& (t.pages > 0 ==> 0 <= t.page < t.pages)
        }),
{
    let (t, cs) = p.composed(s);
    let n = cs.len() as int;
    let size = p.page_size as int;
    assert(n == size * (n / size) + n % size && 0 <= n % size < size) by (nonlinear_arith)
        requires
            size >= 1,
    ;
    let d = n / size;
    assert(d >= 0) by (nonlinear_arith)
        requires
            n >= 0,
            size >= 1,
            d == n / size,
    ;
    assert((d + 1) * size == size * d + size && d * size == size * d && (d - 1) * size == size * d
        - size) by (nonlinear_arith);
    assert(t.pages == page_count(n, size));
}

/// Putting together the candidates changes nothing that was typed, chosen or
/// committed.
pub proof fn composing_keeps_what_was_typed(p: &PipelineImpl, s: State)
    ensures
        ({
            let t = p.composed(s).0;
            &&& t.input == s.input
            &&& t.caret == s.caret
            &&& t.options == s.options
            &&& t.context == s.context
            &&& t.pending == s.pending
            &&& t.sent == s.sent
            &&& t.events == s.events
        }),
{
}

/// Putting together the candidates once more changes nothing.
pub proof fn composing_again_changes_nothing(p: &PipelineImpl, s: State)
    requires
        p.page_size >= 1,
    ensures
        p.composed(p.composed(s).0) == p.composed(s),
{
    let (t, cs) = p.composed(s);
    let (u, ds) = p.composed(t);
    assert(cs == ds);
    assert(u.page == t.page);
    assert(u == t);
}

/// Two pipelines with the same components put together the same candidates.
pub proof fn same_parts_compose_alike(p: &PipelineImpl, q: &PipelineImpl, s: State)
    requires
        p.same_parts(q),
    ensures
        p.composed(s) == q.composed(s),
        p.wf() == q.wf(),
{
}

/// A processor that accepts or refuses a key ends the matter: those behind it
/// do not see the key.
pub proof fn the_first_verdict_stands(ps: Seq<Processor>, s: State, key: Key)
    requires
        ps.len() > 0,
        ps[0].works(s.options),
        ps[0].step(s, key).2 != ProcessResult::Noop,
    ensures
        dispatched(ps, s, key, 0).1 == ps[0].step(s, key).1,
        dispatched(ps, s, key, 0).2 == ps[0].step(s, key).2,
        dispatched(ps, s, key, 0).0 == ps.update(0, ps[0].step(s, key).0),
{
}

proof fn redirected_keys_send_none(ps: Seq<Processor>, s: State, key: Key, from: int)
    requires
        s.redirecting,
    ensures
        dispatched(ps, s, key, from).1.sent == s.sent,
    decreases ps.len() - from,
{
    if 0 <= from < ps.len() {
        if !ps[from].works(s.options) {
            redirected_keys_send_none(ps, s, key, from + 1);
        } else {
            let (p, t, r) = ps[from].step(s, key);
            assert(t.sent == s.sent && t.redirecting);
            redirected_keys_send_none(ps.update(from, p), t, key, from + 1);
        }
    }
}

proof fn no_round_sends_more(ps: Seq<Processor>, s: State, keys: Seq<Key>, from: int)
    ensures
        redirected(ps, s, keys, from).1.sent == s.sent,
    decreases keys.len() - from,
{
    if 0 <= from < keys.len() {
        let t = State { redirecting: true, ..s };
        redirected_keys_send_none(ps, t, keys[from], 0);
        let (qs, u, _) = dispatched(ps, t, keys[from], 0);
        no_round_sends_more(qs, u, keys, from + 1);
    }
}

/// Every key that a key was replaced with goes through the processors, in
/// order, and none is left over.
pub proof fn every_sent_key_is_handled(ps: Seq<Processor>, s: State, key: Key)
    ensures
        ({
            let (qs, t, r) = dispatched(ps, State { redirecting: false, ..s }, key, 0);
            let (rs, u) = redirected(qs, State { sent: seq![], ..t }, t.sent, 0);
            let (end, v) = turned_back(rs, State { sent: seq![], ..u }, s.input);
            keyed(ps, s, key) == (end, v, r)
        }),
{
    let (qs, t, r) = dispatched(ps, State { redirecting: false, ..s }, key, 0);
    let bare = State { sent: seq![], ..t };
    let (rs, u) = redirected(qs, bare, t.sent, 0);
    no_round_sends_more(qs, bare, t.sent, 0);
    reveal_with_fuel(resent, 2);
    if t.sent.len() == 0 {
        assert(t.sent =~= seq![]);
    }
}

proof fn pages_are_counted_up(n: int, size: int)
    requires
        n >= 0,
        size >= 1,
    ensures
        page_count(n, size) >= 0,
{
    vstd::arithmetic::div_mod::lemma_div_pos_is_pos(n, size);
}

/// An input that a key has changed is shown from the first page on, and pages
/// are turned from there.
pub proof fn another_input_starts_at_the_first_page(p: &PipelineImpl, s: State, key: Key)
    requires
        p.page_size >= 1,
        keyed(p.processors@, s, key).1.input != s.input,
    ensures
        p.composed(keyed(p.processors@, s, key).1).0.page == 0,
        ({
            let ps = keyed(p.processors@, s, key).0;
            forall|i: int|
                0 <= i < ps.len() ==> ((#[trigger] ps[i]) matches Processor::Navigator(n) ==> n.page
                    == 0)
        }),
{
    let t = keyed(p.processors@, s, key).1;
    let out = p.composed(t).1;
    pages_are_counted_up(out.len() as int, p.page_size as int);
}

/// What the translators of a tag are asked for and the prefix before it make up
/// the input: nothing of it is lost and nothing is asked twice. Where the prefix
/// ends within a character, or beyond the input, nothing is asked.
pub proof fn prefix_and_body_are_the_input(s: Seq<char>, offset: int, n: int)
    ensures
        0 <= n <= s.len() && bytes_len(s.take(n)) == offset ==> {
            &&& s.take(n) + body_text(s, offset) == s
            &&& bytes_len(body_text(s, offset)) == bytes_len(s) - offset
        },
        (forall|k: int| 0 <= k <= s.len() ==> bytes_len(#[trigger] s.take(k)) != offset)
            ==> body_text(s, offset).len() == 0,
{
    at_byte_finds(s, offset);
    if 0 <= n <= s.len() && bytes_len(s.take(n)) == offset {
        at_byte_inverse(s, n);
        prefix_bytes(s, n);
        assert(s.take(n) + s.skip(n) =~= s);
    }
    if at_byte(s, offset) is Some {
        assert(bytes_len(s.take(at_byte(s, offset)->0)) == offset);
    }
}

proof fn the_first_body_counts(cs: Seq<Cutter>, tag: Seq<char>, from: int, k: int)
    requires
        0 <= from <= k < cs.len(),
        cs[k].body() matches Some((t, _)) && t == tag,
        forall|i: int|
            from <= i < k ==> ((#[trigger] cs[i]).body() matches Some((t, _)) ==> t != tag),
    ensures
        body_offset(cs, tag, from) == (cs[k].body()->0).1,
    decreases k - from,
{
    if from < k {
        the_first_body_counts(cs, tag, from + 1, k);
    }
}

/// The translators of a tag that stands behind a prefix are asked for what
/// follows the prefix, and for nothing else: an input of the prefix and `w`
/// asks them for `w`.
pub proof fn prefixed_tags_are_asked_for_the_body(
    ts: Seq<AnyTranslator>,
    cs: Seq<Cutter>,
    active: Seq<Seq<char>>,
    q: Question,
    cap: int,
    n: int,
    k: int,
    prefix: Seq<char>,
    w: Seq<char>,
)
    requires
        0 < n <= active.len(),
        0 <= k < cs.len(),
        q.input == prefix + w,
        cs[k] matches Cutter::Affix { prefixes, tags, .. } && prefixes.len() > 0 && prefixes[0]
            == prefix && tags[0] == active[n - 1],
        forall|i: int|
            0 <= i < k ==> ((#[trigger] cs[i]) matches Cutter::Affix { tags, .. } ==> tags[0]
                != active[n - 1]),
    ensures
        poured_by_tags(ts, cs, active, q, cap, n) == poured_for(
            ts,
            active[n - 1],
            active,
            poured_by_tags(ts, cs, active, q, cap, n - 1),
            (Question { text: w, ..q }),
            cap,
            ts.len() as int,
        ),
{
    let tag = active[n - 1];
    assert forall|i: int| 0 <= i < k implies ((#[trigger] cs[i]).body() matches Some((t, _)) ==> t
        != tag) by {}
    the_first_body_counts(cs, tag, 0, k);
    let s = q.input;
    assert(s.take(prefix.len() as int) =~= prefix);
    assert(s.skip(prefix.len() as int) =~= w);
    at_byte_inverse(s, prefix.len() as int);
}

/// The translators of a tag without a prefix are asked for the whole input.
pub proof fn other_tags_are_asked_for_the_input(
    ts: Seq<AnyTranslator>,
    cs: Seq<Cutter>,
    active: Seq<Seq<char>>,
    q: Question,
    cap: int,
    n: int,
)
    requires
        0 < n <= active.len(),
        forall|i: int|
            0 <= i < cs.len() ==> ((#[trigger] cs[i]) matches Cutter::Affix { tags, .. } ==> tags[0]
                != active[n - 1]),
    ensures
        poured_by_tags(ts, cs, active, q, cap, n) == poured_for(
            ts,
            active[n - 1],
            active,
            poured_by_tags(ts, cs, active, q, cap, n - 1),
            (Question { text: q.input, ..q }),
            cap,
            ts.len() as int,
        ),
{
    no_body_is_known(cs, active[n - 1], 0);
    assert(q.input.skip(0) =~= q.input);
}

proof fn no_body_is_known(cs: Seq<Cutter>, tag: Seq<char>, from: int)
    requires
        0 <= from,
        forall|i: int|
            from <= i < cs.len() ==> ((#[trigger] cs[i]) matches Cutter::Affix { tags, .. }
                ==> tags[0] != tag),
    ensures
        body_offset(cs, tag, from) == 0,
    decreases cs.len() - from,
{
    if from < cs.len() {
        no_body_is_known(cs, tag, from + 1);
    }
}

/// A translator that is bound to tags answers for a tag of its own and for no
/// other; what it adds to a tag is what it has to say of the text it is asked
/// for.
pub proof fn bound_translators_answer_for_their_tags(
    ts: Seq<AnyTranslator>,
    tag: Seq<char>,
    active: Seq<Seq<char>>,
    there: Seq<Cand>,
    q: Question,
    cap: int,
    n: int,
)
    requires
        0 < n <= ts.len(),
        active.contains(tag),
    ensures
        !ts[n - 1].aims().contains(tag) ==> poured_for(ts, tag, active, there, q, cap, n)
            == poured_for(ts, tag, active, there, q, cap, n - 1),
        ts[n - 1] is Tagged && ts[n - 1].aims().contains(tag) ==> poured_for(
            ts,
            tag,
            active,
            there,
            q,
            cap,
            n,
        ) == ts[n - 1].bare().pours(poured_for(ts, tag, active, there, q, cap, n - 1), q, cap),
        ts[n - 1].aims().len() > 0 ==> poured_freely(ts, active, q, cap, n) == poured_freely(
            ts,
            active,
            q,
            cap,
            n - 1,
        ),
{
    let i = choose|i: int| 0 <= i < active.len() && active[i] == tag;
    if ts[n - 1].aims().contains(tag) {
        assert(ts[n - 1].aims().contains(active[i]));
    }
}

/// The page that was shown stays, as long as there is such a page; beyond the
/// last page the last is shown.
pub proof fn pages_stay_where_they_can(p: &PipelineImpl, s: State)
    requires
        s.input.len() > 0,
        s.page >= 0,
    ensures
        ({
            let t = p.composed(s).0;
            &&& s.page < t.pages ==> t.page == s.page
            &&& s.page >= t.pages && t.pages > 0 ==> t.page == t.pages - 1
        }),
{
}

/// A filter that is for other tags leaves the list as it is; any other works on
/// what those before it have left.
pub proof fn filters_work_in_turn(
    fs: Seq<AnyFilter>,
    active: Seq<Seq<char>>,
    input: Seq<char>,
    options: Map<Seq<char>, bool>,
    cs: Seq<Cand>,
    n: int,
)
    requires
        0 < n <= fs.len(),
    ensures
        ({
            let before = filtered(fs, active, input, options, cs, n - 1);
            let after = filtered(fs, active, input, options, cs, n);
            match fs[n - 1] {
                AnyFilter::Plain(f) => after == f.leaves(input, options, before),
                AnyFilter::Tagged(f) => {
                    &&& (exists|i: int|
                        0 <= i < active.len() && views(f.tags@).contains(#[trigger] active[i]))
                        ==> after == f.inner.leaves(input, options, before)
                    &&& (forall|i: int|
                        0 <= i < active.len() ==> !views(f.tags@).contains(#[trigger] active[i]))
                        ==> after == before
                },
            }
        }),
{
}

/// Without filters the candidates are shown as they are ranked, with the
/// predictions among them.
pub proof fn candidates_are_ranked_before_filters(p: &PipelineImpl, s: State, raw: Seq<Cand>)
    requires
        p.filters@.len() == 0,
    ensures
        p.finished(s, p.parts(s.input), raw).1 == spliced(
            ranked(raw),
            block(foreseen(p.predictions), s, ranked(raw)),
        ),
{
}

/// An input of one part and several units is laid out unit by unit, and every
/// unit has the candidates. Otherwise the parts stay, and those that cover the
/// input have them.
pub proof fn candidates_belong_to_the_parts(
    parts: Seq<Part>,
    spans: Seq<Span>,
    out: Seq<Cand>,
    len: int,
    tag: Seq<char>,
    i: int,
)
    ensures
        parts.len() <= 1 && spans.len() > 1 && 0 <= i < spans.len() ==> {
            let r = laid_out(parts, spans, out, len, tag);
            &&& r.len() == spans.len()
            &&& r[i].span == spans[i] && r[i].candidates == out && r[i].tags == seq![tag]
        },
        (parts.len() > 1 || spans.len() <= 1) && 0 <= i < parts.len() ==> {
            let r = laid_out(parts, spans, out, len, tag);
            &&& r.len() == parts.len()
            &&& r[i].span == parts[i].span && r[i].tags == parts[i].tags && r[i].status
                == parts[i].status
            &&& parts[i].span.start == 0 && parts[i].span.end >= len ==> r[i].candidates
                == parts[i].candidates + out
            &&& parts[i].span.start > 0 || parts[i].span.end < len ==> r[i].candidates
                == parts[i].candidates
        },
{
}

/// Without an input only what may come next is shown, from the first page on.
pub proof fn an_empty_input_shows_predictions_only(p: &PipelineImpl, s: State, i: int)
    requires
        s.input.len() == 0,
    ensures
        ({
            let (t, cs) = p.composed(s);
            &&& t.page == 0 && t.preedit.len() == 0 && t.segments.len() == 0
            &&& t.count == cs.len()
            &&& 0 <= i < cs.len() ==> cs[i].lane == Lane::Predict
        }),
{
    predictions_are_few_and_new(foreseen(p.predictions), s, seq![]);
}

/// A processor that is switched off is passed over, and one that does not care
/// lets the next one have the key.
pub proof fn idle_processors_are_passed_over(ps: Seq<Processor>, s: State, key: Key, from: int)
    requires
        0 <= from < ps.len(),
    ensures
        !ps[from].works(s.options) ==> dispatched(ps, s, key, from) == dispatched(
            ps,
            s,
            key,
            from + 1,
        ),
        ps[from].works(s.options) && ps[from].step(s, key).2 == ProcessResult::Noop ==> dispatched(
            ps,
            s,
            key,
            from,
        ) == dispatched(ps.update(from, ps[from].step(s, key).0), ps[from].step(s, key).1, key, from
            + 1),
        ps[from].works(s.options) && ps[from].step(s, key).2 != ProcessResult::Noop ==> dispatched(
            ps,
            s,
            key,
            from,
        ).1 == ps[from].step(s, key).1 && dispatched(ps, s, key, from).2 == ps[from].step(s, key).2,
{
}

} // verus!
