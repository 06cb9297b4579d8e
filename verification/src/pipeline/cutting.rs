//! Cutting the input into tagged parts.

use vstd::prelude::*;
use crate::candidate::Span;
use crate::component::{Cutter, Segmentor};
use crate::order::views;
use crate::regex::matching::attempt_bounds;
use crate::segmentor::{
    best_pattern, boundary, claim_index, end_of_parts, longest_prefix, next_start, segments_end,
    tagged, Claim, InputScan, Part, Recognizer, Segment,
};
use crate::tag::{holds_tag, Tag};
use crate::text::{
    at_byte, at_byte_finds, at_byte_inverse, byte_len, bytes_cover_chars, bytes_len, prefix_bytes,
};

verus! {

/// What a recognizer, if there is one, claims of the input.
pub open spec fn claims_of(r: Option<Recognizer>, s: Seq<char>) -> Seq<Claim> {
    match r {
        None => seq![],
        Some(r) => if s.len() == 0 {
            seq![]
        } else {
            match best_pattern(r.patterns@, s, r.patterns@.len() as int) {
                None => seq![],
                Some((i, e)) => seq![
                    Claim {
                        start: 0,
                        end: bytes_len(s.take(e)) as usize,
                        tag: r.patterns@[i].tag,
                    },
                ],
            }
        },
    }
}

/// Scans the input, where there is a recognizer.
pub(crate) fn scan_input(recognizer: &Option<Recognizer>, input: &str) -> (r: InputScan)
    ensures
        r.claims@ == claims_of(*recognizer, input@),
{
    match recognizer {
        Some(rec) => {
            let scan = rec.scan(input);
            assert(scan.claims@ =~= claims_of(*recognizer, input@));
            scan
        },
        None => InputScan::new(),
    }
}

/// Whether every claim is a stretch of the input, cut between characters.
pub open spec fn claims_fit(claims: Seq<Claim>, s: Seq<char>) -> bool {
    forall|i: int|
        0 <= i < claims.len() ==> {
            &&& (#[trigger] claims[i]).start < claims[i].end <= bytes_len(s)
            &&& boundary(s, claims[i].start as int)
            &&& boundary(s, claims[i].end as int)
        }
}

proof fn longer_takes_more(s: Seq<char>, a: int, b: int)
    requires
        0 <= a <= b <= s.len(),
    ensures
        bytes_len(s.take(a)) <= bytes_len(s.take(b)) <= bytes_len(s),
        a < b ==> bytes_len(s.take(a)) < bytes_len(s.take(b)),
{
    let t = s.take(b);
    assert(t.take(a) =~= s.take(a));
    prefix_bytes(t, a);
    bytes_cover_chars(t.skip(a));
    prefix_bytes(s, b);
}

proof fn best_pattern_bounds(r: &Recognizer, s: Seq<char>, n: int)
    requires
        0 <= n <= r.patterns@.len(),
        s.len() <= usize::MAX,
    ensures
        best_pattern(r.patterns@, s, n) matches Some((i, e)) ==> 0 < e <= s.len(),
    decreases n,
{
    if n > 0 {
        best_pattern_bounds(r, s, n - 1);
        let c = r.patterns@[n - 1];
        attempt_bounds(
            c.regex.root,
            c.regex.groups as int,
            c.regex.step_budget as nat,
            s,
            0,
            c.to_end,
        );
    }
}

/// What a recognizer claims is a stretch of the input, cut between characters.
pub proof fn recognized_claims_fit(r: Option<Recognizer>, s: Seq<char>)
    requires
        bytes_len(s) <= usize::MAX,
    ensures
        claims_fit(claims_of(r, s), s),
{
    match r {
        None => {},
        Some(rec) => {
            let n = rec.patterns@.len() as int;
            bytes_cover_chars(s);
            best_pattern_bounds(&rec, s, n);
            match best_pattern(rec.patterns@, s, n) {
                None => {},
                Some((i, e)) => {
                    longer_takes_more(s, 0, e);
                    at_byte_inverse(s, e);
                    assert(s.take(0) =~= seq![]);
                },
            }
        },
    }
}

/// The part that the first willing segmentor, from `from` on, takes at `pos`.
pub open spec fn first_part(
    cs: Seq<Cutter>,
    s: Seq<char>,
    claims: Seq<Claim>,
    pos: int,
    from: int,
) -> Option<Part>
    decreases cs.len() - from,
{
    if from < 0 || from >= cs.len() {
        None
    } else {
        match cs[from].takes(s, claims, pos) {
            Some(p) => Some(p),
            None => first_part(cs, s, claims, pos, from + 1),
        }
    }
}

/// The parts of the input from `pos` on. Each is taken by the first willing
/// segmentor; where none is, all the rest is one part under `tag`.
pub open spec fn cut_from(
    cs: Seq<Cutter>,
    tag: Seq<char>,
    s: Seq<char>,
    claims: Seq<Claim>,
    pos: int,
) -> Seq<Part>
    decreases bytes_len(s) - pos,
{
    let len = bytes_len(s) as int;
    if pos >= len {
        seq![]
    } else {
        match first_part(cs, s, claims, pos, 0) {
            None => seq![
                tagged(Span { start: pos as usize, end: len as usize }, seq![tag]),
            ],
            Some(p) => if pos < p.span.end <= len {
                seq![p] + cut_from(cs, tag, s, claims, p.span.end as int)
            } else {
                seq![p]
            },
        }
    }
}

proof fn next_start_is_a_start(claims: Seq<Claim>, pos: int, from: int)
    requires
        0 <= from,
    ensures
        next_start(claims, pos, from) matches Some(e) ==> e > pos && exists|i: int|
            0 <= i < claims.len() && (#[trigger] claims[i]).start == e,
    decreases claims.len() - from,
{
    if from < claims.len() {
        if claims[from].start > pos {
            assert(claims[from].start == next_start(claims, pos, from)->0);
        } else {
            next_start_is_a_start(claims, pos, from + 1);
        }
    }
}

proof fn claim_index_finds(claims: Seq<Claim>, pos: int, from: int)
    requires
        0 <= from,
    ensures
        claim_index(claims, pos, from) matches Some(i) ==> 0 <= i < claims.len()
            && claims[i].start == pos,
    decreases claims.len() - from,
{
    if from < claims.len() && claims[from].start != pos {
        claim_index_finds(claims, pos, from + 1);
    }
}

proof fn longest_prefix_fits(ps: Seq<Seq<char>>, rest: Seq<char>, n: int)
    requires
        0 <= n <= ps.len(),
    ensures
        longest_prefix(ps, rest, n) matches Some(i) ==> 0 <= i < n && ps[i].is_prefix_of(rest),
    decreases n,
{
    if n > 0 {
        longest_prefix_fits(ps, rest, n - 1);
    }
}

proof fn whole_ends_at_a_boundary(s: Seq<char>)
    ensures
        boundary(s, bytes_len(s) as int),
{
    at_byte_inverse(s, s.len() as int);
    assert(s.take(s.len() as int) =~= s);
}

/// A segmentor that takes a part starts it at the place it was asked for, goes
/// forward, and stops within the input, between two characters.
pub proof fn parts_go_forward(c: Cutter, s: Seq<char>, claims: Seq<Claim>, pos: int)
    requires
        claims_fit(claims, s),
        bytes_len(s) <= usize::MAX,
        boundary(s, pos),
        0 <= pos < bytes_len(s),
    ensures
        c.takes(s, claims, pos) matches Some(p) ==> {
            &&& p.span.start == pos
            &&& pos < p.span.end <= bytes_len(s)
            &&& boundary(s, p.span.end as int)
        },
{
    at_byte_finds(s, pos);
    whole_ends_at_a_boundary(s);
    let n = at_byte(s, pos)->0;
    match c {
        Cutter::Match { tags } => {
            claim_index_finds(claims, pos, 0);
        },
        Cutter::Affix { prefixes, suffix, tags, .. } => {
            let rest = s.skip(n);
            longest_prefix_fits(prefixes, rest, prefixes.len() as int);
            match longest_prefix(prefixes, rest, prefixes.len() as int) {
                None => {},
                Some(i) => {
                    let body = n + prefixes[i].len();
                    assert(body <= s.len());
                    let end = match suffix {
                        None => s.len() as int,
                        Some(suf) => s.len() - suf.len(),
                    };
                    if body < end && end <= s.len() {
                        longer_takes_more(s, n, end);
                        at_byte_inverse(s, end);
                    }
                },
            }
        },
        Cutter::Code { tag } => {
            next_start_is_a_start(claims, pos, 0);
        },
        Cutter::Symbol { marks, prefix, tag } => {},
    }
}

proof fn first_part_goes_forward(
    cs: Seq<Cutter>,
    s: Seq<char>,
    claims: Seq<Claim>,
    pos: int,
    from: int,
)
    requires
        claims_fit(claims, s),
        bytes_len(s) <= usize::MAX,
        boundary(s, pos),
        0 <= pos < bytes_len(s),
        0 <= from,
    ensures
        first_part(cs, s, claims, pos, from) matches Some(p) ==> {
            &&& p.span.start == pos
            &&& pos < p.span.end <= bytes_len(s)
            &&& boundary(s, p.span.end as int)
        },
    decreases cs.len() - from,
{
    if from < cs.len() {
        parts_go_forward(cs[from], s, claims, pos);
        first_part_goes_forward(cs, s, claims, pos, from + 1);
    }
}

/// Cuts the input into parts.
pub(crate) fn cut(segmentors: &Vec<Segmentor>, tag: Tag, input: &str, scan: &InputScan) -> (r: Vec<
    Segment,
>)
    requires
        claims_fit(scan.claims@, input@),
        forall|i: int|
            0 <= i < segmentors@.len() ==> (#[trigger] segmentors@[i]).follows(scan.claims@),
    ensures
        views(r@) == cut_from(views(segmentors@), tag@, input@, scan.claims@, 0),
{
    let len: usize = byte_len(input);
    let ghost cs = views(segmentors@);
    let ghost s = input@;
    let ghost claims = scan.claims@;
    let ghost goal = cut_from(cs, tag@, s, claims, 0);
    let mut segs: Vec<Segment> = Vec::new();
    assert(views(segs@) =~= seq![]);
    assert(seq![] + goal =~= goal);
    let mut pos: usize = 0;
    while pos < len
        invariant
            pos <= len == bytes_len(s),
            s == input@,
            claims == scan.claims@,
            cs == views(segmentors@),
            claims_fit(claims, s),
            boundary(s, pos as int),
            forall|i: int|
                0 <= i < segmentors@.len() ==> (#[trigger] segmentors@[i]).follows(claims),
            pos == end_of_parts(views(segs@)),
            views(segs@) + cut_from(cs, tag@, s, claims, pos as int) == goal,
        decreases len - pos,
    {
        let ghost had = views(segs@);
        let mut taken = false;
        let mut i: usize = 0;
        while i < segmentors.len() && !taken
            invariant
                i <= segmentors@.len(),
                s == input@,
                cs == views(segmentors@),
                boundary(s, pos as int),
                pos == end_of_parts(had),
                forall|j: int|
                    0 <= j < segmentors@.len() ==> (#[trigger] segmentors@[j]).follows(claims),
                !taken ==> views(segs@) == had && first_part(cs, s, claims, pos as int, 0)
                    == first_part(cs, s, claims, pos as int, i as int),
                taken ==> (first_part(cs, s, claims, pos as int, 0) matches Some(p) && views(segs@)
                    == had.push(p)),
            decreases segmentors.len() - i,
        {
            assert(cs[i as int] == segmentors@[i as int]@);
            assert(segmentors@[i as int].follows(claims));
            taken = segmentors[i].proceed(input, &mut segs);
            i += 1;
        }
        proof {
            first_part_goes_forward(cs, s, claims, pos as int, 0);
        }
        if !taken {
            let mut tags: Vec<Tag> = Vec::new();
            tags.push(tag);
            assert(views(tags@) =~= seq![tag@]);
            let rest = Segment::guess(Span::new(pos, len), tags);
            let ghost p = rest@;
            segs.push(rest);
            proof {
                whole_ends_at_a_boundary(s);
                assert(views(segs@) =~= had.push(p));
                assert(cut_from(cs, tag@, s, claims, pos as int) =~= seq![p]);
                assert(views(segs@) + cut_from(cs, tag@, s, claims, len as int) =~= had + seq![p]);
            }
            pos = len;
        } else {
            let ghost p = first_part(cs, s, claims, pos as int, 0)->0;
            let end: usize = segments_end(&segs);
            proof {
                assert(had.push(p) + cut_from(cs, tag@, s, claims, end as int) =~= had + (seq![p]
                    + cut_from(cs, tag@, s, claims, end as int)));
            }
            pos = end;
        }
    }
    assert(views(segs@) + seq![] =~= views(segs@));
    segs
}

/// `acc` with those of `more` that are new.
pub open spec fn with_new(acc: Seq<Seq<char>>, more: Seq<Seq<char>>) -> Seq<Seq<char>>
    decreases more.len(),
{
    if more.len() == 0 {
        acc
    } else {
        let head = with_new(acc, more.drop_last());
        if head.contains(more.last()) {
            head
        } else {
            head.push(more.last())
        }
    }
}

/// The tags of some parts, each once.
pub open spec fn tags_of_parts(ps: Seq<Part>) -> Seq<Seq<char>>
    decreases ps.len(),
{
    if ps.len() == 0 {
        seq![]
    } else {
        with_new(tags_of_parts(ps.drop_last()), ps.last().tags)
    }
}

/// The tags that some segmentors can give, each once.
pub open spec fn tags_of_cutters(cs: Seq<Cutter>) -> Seq<Seq<char>>
    decreases cs.len(),
{
    if cs.len() == 0 {
        seq![]
    } else {
        with_new(tags_of_cutters(cs.drop_last()), cs.last().gives())
    }
}

/// Tags, or the one of the scheme where there are none.
pub open spec fn or_tag(tags: Seq<Seq<char>>, tag: Seq<char>) -> Seq<Seq<char>> {
    if tags.len() == 0 {
        seq![tag]
    } else {
        tags
    }
}

/// Appends the tags that are new.
pub(crate) fn add_tags(out: &mut Vec<Tag>, more: &Vec<Tag>)
    ensures
        views(final(out)@) == with_new(views(old(out)@), views(more@)),
{
    let ghost before = views(out@);
    let ghost all = views(more@);
    let mut i: usize = 0;
    assert(all.take(0) =~= seq![]);
    while i < more.len()
        invariant
            i <= more@.len(),
            all == views(more@),
            views(out@) == with_new(before, all.take(i as int)),
        decreases more.len() - i,
    {
        let t = more[i];
        let ghost had = views(out@);
        proof {
            let f = all.take(i + 1);
            assert(f.drop_last() =~= all.take(i as int));
            assert(f.last() == t@);
        }
        if !holds_tag(out, t) {
            out.push(t);
            assert(views(out@) =~= had.push(t@));
        }
        i += 1;
    }
    assert(all.take(i as int) =~= all);
}

/// The tags of the parts, or the one of the scheme.
pub(crate) fn active_tags(segs: &Vec<Segment>, tag: Tag) -> (r: Vec<Tag>)
    ensures
        views(r@) == or_tag(tags_of_parts(views(segs@)), tag@),
{
    let ghost ps = views(segs@);
    let mut out: Vec<Tag> = Vec::new();
    assert(views(out@) =~= seq![]);
    assert(ps.take(0) =~= seq![]);
    let mut i: usize = 0;
    while i < segs.len()
        invariant
            i <= segs@.len(),
            ps == views(segs@),
            views(out@) == tags_of_parts(ps.take(i as int)),
        decreases segs.len() - i,
    {
        proof {
            let f = ps.take(i + 1);
            assert(f.drop_last() =~= ps.take(i as int));
            assert(f.last() == segs@[i as int]@);
        }
        add_tags(&mut out, &segs[i].tags);
        i += 1;
    }
    assert(ps.take(i as int) =~= ps);
    assert(views(out@).len() == out@.len());
    if out.len() == 0 {
        out.push(tag);
        assert(views(out@) =~= seq![tag@]);
    }
    out
}

/// The tags that the segmentors can give, or the one of the scheme.
pub(crate) fn declared_tags(segmentors: &Vec<Segmentor>, tag: Tag) -> (r: Vec<Tag>)
    ensures
        views(r@) == or_tag(tags_of_cutters(views(segmentors@)), tag@),
{
    let ghost cs = views(segmentors@);
    let mut out: Vec<Tag> = Vec::new();
    assert(views(out@) =~= seq![]);
    assert(cs.take(0) =~= seq![]);
    let mut i: usize = 0;
    while i < segmentors.len()
        invariant
            i <= segmentors@.len(),
            cs == views(segmentors@),
            views(out@) == tags_of_cutters(cs.take(i as int)),
        decreases segmentors.len() - i,
    {
        proof {
            let f = cs.take(i + 1);
            assert(f.drop_last() =~= cs.take(i as int));
            assert(f.last() == segmentors@[i as int]@);
        }
        let more = segmentors[i].tags();
        add_tags(&mut out, &more);
        i += 1;
    }
    assert(cs.take(i as int) =~= cs);
    assert(views(out@).len() == out@.len());
    if out.len() == 0 {
        out.push(tag);
        assert(views(out@) =~= seq![tag@]);
    }
    out
}

// ---------------------------------------------------------------------------
// Laws
// ---------------------------------------------------------------------------

/// Whether parts stand side by side from `from` to `to`, none of them empty.
pub open spec fn tiles(ps: Seq<Part>, from: int, to: int) -> bool
    decreases ps.len(),
{
    if ps.len() == 0 {
        from == to
    } else {
        &&& ps[0].span.start == from
        &&& from < ps[0].span.end
        &&& tiles(ps.drop_first(), ps[0].span.end as int, to)
    }
}

/// The parts cover the input from the beginning to the end, without a gap and
/// without an overlap, whatever the segmentors are.
pub proof fn parts_cover_the_input(
    cs: Seq<Cutter>,
    tag: Seq<char>,
    s: Seq<char>,
    claims: Seq<Claim>,
    pos: int,
)
    requires
        claims_fit(claims, s),
        bytes_len(s) <= usize::MAX,
        boundary(s, pos),
        0 <= pos <= bytes_len(s),
    ensures
        tiles(cut_from(cs, tag, s, claims, pos), pos, bytes_len(s) as int),
    decreases bytes_len(s) - pos,
{
    let ps = cut_from(cs, tag, s, claims, pos);
    if pos < bytes_len(s) {
        first_part_goes_forward(cs, s, claims, pos, 0);
        match first_part(cs, s, claims, pos, 0) {
            None => {
                assert(ps.drop_first() =~= seq![]);
                assert(tiles(ps.drop_first(), bytes_len(s) as int, bytes_len(s) as int));
            },
            Some(p) => {
                parts_cover_the_input(cs, tag, s, claims, p.span.end as int);
                assert(ps.drop_first() =~= cut_from(cs, tag, s, claims, p.span.end as int));
            },
        }
    }
}

proof fn new_tags_differ(acc: Seq<Seq<char>>, more: Seq<Seq<char>>)
    requires
        acc.no_duplicates(),
    ensures
        with_new(acc, more).no_duplicates(),
        forall|t: Seq<char>| #[trigger]
            with_new(acc, more).contains(t) <==> acc.contains(t) || more.contains(t),
    decreases more.len(),
{
    if more.len() > 0 {
        let d = more.drop_last();
        let head = with_new(acc, d);
        new_tags_differ(acc, d);
        assert(more =~= d.push(more.last()));
        assert forall|t: Seq<char>| #[trigger] with_new(acc, more).contains(t) <==> acc.contains(
            t,
        ) || more.contains(t) by {
            assert(more.contains(t) <==> d.contains(t) || t == more.last()) by {
                if d.contains(t) {
                    let i = d.index_of(t);
                    assert(more[i] == t);
                }
                if t == more.last() {
                    assert(more[more.len() - 1] == t);
                }
                if more.contains(t) && t != more.last() {
                    let i = more.index_of(t);
                    assert(d[i] == t);
                }
            }
            assert(head.contains(t) <==> acc.contains(t) || d.contains(t));
            if !head.contains(more.last()) {
                assert(head.push(more.last()).contains(t) <==> head.contains(t) || t
                    == more.last()) by {
                    if head.contains(t) {
                        let i = head.index_of(t);
                        assert(head.push(more.last())[i] == t);
                    }
                    assert(head.push(more.last())[head.len() as int] == more.last());
                }
            }
        }
    }
}

/// Each tag of the parts is listed once, and no other.
pub proof fn active_tags_are_those_of_the_parts(ps: Seq<Part>)
    ensures
        tags_of_parts(ps).no_duplicates(),
        forall|t: Seq<char>| #[trigger]
            tags_of_parts(ps).contains(t) <==> exists|i: int|
                0 <= i < ps.len() && (#[trigger] ps[i]).tags.contains(t),
    decreases ps.len(),
{
    if ps.len() > 0 {
        let d = ps.drop_last();
        active_tags_are_those_of_the_parts(d);
        new_tags_differ(tags_of_parts(d), ps.last().tags);
        assert forall|t: Seq<char>| #[trigger] tags_of_parts(ps).contains(t) <==> exists|i: int|
            0 <= i < ps.len() && (#[trigger] ps[i]).tags.contains(t) by {
            if tags_of_parts(d).contains(t) {
                let i = choose|i: int| 0 <= i < d.len() && (#[trigger] d[i]).tags.contains(t);
                assert(ps[i].tags.contains(t));
            }
            if ps.last().tags.contains(t) {
                assert(ps[ps.len() - 1].tags.contains(t));
            }
            if exists|i: int| 0 <= i < ps.len() && (#[trigger] ps[i]).tags.contains(t) {
                let i = choose|i: int| 0 <= i < ps.len() && (#[trigger] ps[i]).tags.contains(t);
                if i < ps.len() - 1 {
                    assert(d[i].tags.contains(t));
                }
            }
        }
    }
}

/// At each place the first segmentor that is willing takes its part.
pub proof fn the_first_willing_segmentor_cuts(
    cs: Seq<Cutter>,
    s: Seq<char>,
    claims: Seq<Claim>,
    pos: int,
    from: int,
    k: int,
)
    requires
        0 <= from <= k < cs.len(),
        cs[k].takes(s, claims, pos) is Some,
        forall|i: int| from <= i < k ==> (#[trigger] cs[i]).takes(s, claims, pos) is None,
    ensures
        first_part(cs, s, claims, pos, from) == cs[k].takes(s, claims, pos),
    decreases k - from,
{
    if from < k {
        the_first_willing_segmentor_cuts(cs, s, claims, pos, from + 1, k);
    }
}

/// Where no segmentor is willing the rest of the input is one part under the tag
/// of the scheme; where one is, the input goes on behind its part.
pub proof fn cutting_goes_on_behind_each_part(
    cs: Seq<Cutter>,
    tag: Seq<char>,
    s: Seq<char>,
    claims: Seq<Claim>,
    pos: int,
)
    requires
        0 <= pos < bytes_len(s) <= usize::MAX,
    ensures
        first_part(cs, s, claims, pos, 0) is None ==> {
            let r = cut_from(cs, tag, s, claims, pos);
            &&& r.len() == 1
            &&& r[0].span.start == pos && r[0].span.end == bytes_len(s) && r[0].tags == seq![tag]
        },
        first_part(cs, s, claims, pos, 0) matches Some(p) ==> {
            let r = cut_from(cs, tag, s, claims, pos);
            &&& r.len() > 0 && r[0] == p
            &&& pos < p.span.end <= bytes_len(s) ==> r.skip(1) == cut_from(
                cs,
                tag,
                s,
                claims,
                p.span.end as int,
            )
        },
{
    if let Some(p) = first_part(cs, s, claims, pos, 0) {
        if pos < p.span.end <= bytes_len(s) {
            let rest = cut_from(cs, tag, s, claims, p.span.end as int);
            assert((seq![p] + rest).skip(1) =~= rest);
        }
    }
}

/// The recognizer claims what its best pattern matches, from the beginning of
/// the input, under the tag of the pattern.
pub proof fn the_best_pattern_claims(r: Recognizer, s: Seq<char>)
    requires
        s.len() > 0,
        bytes_len(s) <= usize::MAX,
    ensures
        match best_pattern(r.patterns@, s, r.patterns@.len() as int) {
            Some((i, e)) => {
                let c = claims_of(Some(r), s);
                &&& c.len() == 1 && c[0].start == 0 && c[0].tag == r.patterns@[i].tag
                &&& bytes_len(s.take(e)) <= usize::MAX ==> c[0].end == bytes_len(s.take(e))
            },
            None => claims_of(Some(r), s).len() == 0,
        },
        claims_of(None, s).len() == 0,
{
}

} // verus!
