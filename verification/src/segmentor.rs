//! Segmentors: cut the input into segments and tag each of them.
//!
//! Tags bind segments to translators. The recognizer looks for patterns at the
//! beginning of the input and claims what it finds; segmentors turn claims and
//! what is left between them into segments.

use vstd::prelude::*;
use crate::candidate::{copy_opt, text_opt, Cand, Candidate, Span};
use crate::order::views;
use crate::regex::{DEFAULT_STEP_BUDGET, match_starts_with_required_prefix, prefix_of, Regex};
use crate::regex::syntax::{parse, refusal_text};
use crate::spec::{AffixSpec, PunctuatorSpec, RecogPattern, RecognizerSpec};
use crate::tag::{copy_tags, holds_tag, Tag, TagTable};
use crate::text::{
    at_byte, at_byte_inverse, byte_len, bytes_len, bytes_upto, decimal, decimal_text, ends_at,
    find_byte, starts_at, text_before, text_less, text_less_irreflexive,
    text_less_transitive, texts, to_chars,
};

verus! {

/// A part of the input that a pattern has claimed, in bytes.
#[derive(Clone, Copy, Debug, PartialEq, Eq)]
pub struct Claim {
    pub start: usize,
    pub end: usize,
    pub tag: Tag,
}

/// What one scan of the input has found.
#[derive(Debug)]
pub struct InputScan {
    pub claims: Vec<Claim>,
    /// Where the body of each claim starts.
    pub body_start: Vec<usize>,
}

impl Clone for InputScan {
    fn clone(&self) -> (r: Self)
        ensures
            r.claims@ == self.claims@,
            r.body_start@ == self.body_start@,
    {
        let mut claims: Vec<Claim> = Vec::new();
        let mut i: usize = 0;
        while i < self.claims.len()
            invariant
                i <= self.claims@.len(),
                claims@ == self.claims@.take(i as int),
            decreases self.claims.len() - i,
        {
            claims.push(self.claims[i]);
            i += 1;
        }
        assert(claims@ =~= self.claims@);
        let mut body_start: Vec<usize> = Vec::new();
        let mut k: usize = 0;
        while k < self.body_start.len()
            invariant
                k <= self.body_start@.len(),
                body_start@ == self.body_start@.take(k as int),
            decreases self.body_start.len() - k,
        {
            body_start.push(self.body_start[k]);
            k += 1;
        }
        assert(body_start@ =~= self.body_start@);
        InputScan { claims, body_start }
    }
}

impl Default for InputScan {
    fn default() -> (r: Self)
        ensures
            r.claims@ == Seq::<Claim>::empty(),
            r.body_start@ == Seq::<usize>::empty(),
    {
        InputScan::new()
    }
}

/// The first claim, from `from` on, that starts at `pos`.
pub open spec fn claim_index(claims: Seq<Claim>, pos: int, from: int) -> Option<int>
    decreases claims.len() - from,
{
    if from < 0 || from >= claims.len() {
        None
    } else if claims[from].start == pos {
        Some(from)
    } else {
        claim_index(claims, pos, from + 1)
    }
}

/// The start of the first claim, from `from` on, that starts behind `pos`.
pub open spec fn next_start(claims: Seq<Claim>, pos: int, from: int) -> Option<int>
    decreases claims.len() - from,
{
    if from < 0 || from >= claims.len() {
        None
    } else if claims[from].start > pos {
        Some(claims[from].start as int)
    } else {
        next_start(claims, pos, from + 1)
    }
}

impl InputScan {
    /// A scan that found nothing.
    pub fn new() -> (r: Self)
        ensures
            r.claims@ == Seq::<Claim>::empty(),
            r.body_start@ == Seq::<usize>::empty(),
    {
        InputScan { claims: Vec::new(), body_start: Vec::new() }
    }

    /// The number of the claim that starts at `pos`.
    pub fn claim_at(&self, pos: usize) -> (r: Option<usize>)
        ensures
            match claim_index(self.claims@, pos as int, 0) {
                Some(i) => r matches Some(k) && k == i && 0 <= i < self.claims@.len(),
                None => r is None,
            },
    {
        let mut i: usize = 0;
        while i < self.claims.len()
            invariant
                i <= self.claims.len(),
                claim_index(self.claims@, pos as int, 0) == claim_index(
                    self.claims@,
                    pos as int,
                    i as int,
                ),
            decreases self.claims.len() - i,
        {
            if self.claims[i].start == pos {
                return Some(i);
            }
            i += 1;
        }
        None
    }

    /// The claim that starts at `pos`.
    pub fn claim(&self, pos: usize) -> (r: Option<Claim>)
        ensures
            match claim_index(self.claims@, pos as int, 0) {
                Some(i) => r == Some(self.claims@[i]),
                None => r is None,
            },
    {
        match self.claim_at(pos) {
            Some(i) => Some(self.claims[i]),
            None => None,
        }
    }

    /// Where the next claim behind `pos` starts.
    pub fn next_claim_start(&self, pos: usize) -> (r: Option<usize>)
        ensures
            match next_start(self.claims@, pos as int, 0) {
                Some(s) => r matches Some(k) && k == s && s > pos,
                None => r is None,
            },
    {
        let mut i: usize = 0;
        while i < self.claims.len()
            invariant
                i <= self.claims.len(),
                next_start(self.claims@, pos as int, 0) == next_start(
                    self.claims@,
                    pos as int,
                    i as int,
                ),
            decreases self.claims.len() - i,
        {
            if self.claims[i].start > pos {
                return Some(self.claims[i].start);
            }
            i += 1;
        }
        None
    }
}

// ---------------------------------------------------------------------------
// The recognizer
// ---------------------------------------------------------------------------

/// The literal text that every match of a pattern starts with; empty where the
/// pattern does not show one or does not compile.
pub open spec fn leading_of(regex: Seq<char>) -> Seq<char> {
    match parse(regex) {
        Ok((root, _)) => prefix_of(root),
        Err(_) => seq![],
    }
}

/// The literal text that every match of a pattern starts with. It only ever
/// rules out texts that cannot match: where it is in doubt it is empty.
#[must_use]
pub fn leading_literal(regex: &str) -> (r: String)
    ensures
        r@ == leading_of(regex@),
{
    match Regex::compile(regex) {
        Ok(re) => re.required_prefix(),
        Err(_) => {
            let s = String::new();
            assert(s@ =~= seq![]);
            s
        },
    }
}

/// Whether a pattern ends with an anchor, and not with an escaped `$`.
pub open spec fn anchored(regex: Seq<char>) -> bool {
    regex.len() > 0 && regex.last() == '$' && !(regex.len() > 1 && regex[regex.len() - 2] == '\\')
}

fn ends_with_anchor(regex: &str) -> (r: bool)
    ensures
        r == anchored(regex@),
{
    let cs = to_chars(regex);
    let n: usize = cs.len();
    n > 0 && cs[n - 1] == '$' && !(n > 1 && cs[n - 2] == '\\')
}

/// A pattern ready for use.
#[derive(Debug)]
pub struct CompiledPattern {
    pub tag: Tag,
    pub name: String,
    pub leading: String,
    pub regex: Regex,
    pub to_end: bool,
}

/// The leading text of a pattern: what it states, or what its regex shows.
pub open spec fn leading_for(stated: Seq<char>, regex: Seq<char>) -> Seq<char> {
    if stated.len() == 0 {
        leading_of(regex)
    } else {
        stated
    }
}

/// Whether `c` is the compiled form of `p`.
pub open spec fn compiles_to(p: RecogPattern, c: CompiledPattern) -> bool {
    &&& c.tag@ == p.name@
    &&& c.name@ == p.name@
    &&& c.leading@ == leading_for(p.leading@, p.regex@)
    &&& c.to_end == anchored(p.regex@)
    &&& parse(p.regex@) matches Ok((root, groups))
    &&& c.regex.root == root
    &&& c.regex.groups == groups
    &&& c.regex.step_budget == DEFAULT_STEP_BUDGET
}

/// Why the recognizer's configuration was refused.
#[derive(Clone, Debug, PartialEq, Eq)]
pub enum RecognizerError {
    /// A pattern does not compile.
    BadPattern { name: String, regex: String, reason: String, line: usize },
}

/// What is said of a pattern that does not compile.
pub open spec fn bad_pattern_text(
    name: Seq<char>,
    regex: Seq<char>,
    reason: Seq<char>,
    line: nat,
) -> Seq<char> {
    "第 "@ + decimal(line) + " 行：`recognizer/patterns/"@ + name + "` 的正则 `"@ + regex
        + "` 编译失败："@ + reason
}

impl RecognizerError {
    /// The message for a scheme author.
    pub fn message(&self) -> (r: String)
        ensures
            match self {
                RecognizerError::BadPattern { name, regex, reason, line } => r@
                    == bad_pattern_text(name@, regex@, reason@, *line as nat),
            },
    {
        match self {
            RecognizerError::BadPattern { name, regex, reason, line } => "第 ".to_owned().concat(
                decimal_text(*line as u64).as_str(),
            ).concat(" 行：`recognizer/patterns/").concat(name.as_str()).concat(
                "` 的正则 `",
            ).concat(regex.as_str()).concat("` 编译失败：").concat(reason.as_str()),
        }
    }
}

/// The first pattern, from `from` on, that does not compile.
pub open spec fn first_bad(ps: Seq<RecogPattern>, from: int) -> Option<int>
    decreases ps.len() - from,
{
    if from < 0 || from >= ps.len() {
        None
    } else if parse(ps[from].regex@) is Err {
        Some(from)
    } else {
        first_bad(ps, from + 1)
    }
}

/// Whether one of the first `n` patterns is called `t`.
pub open spec fn named_among(ps: Seq<RecogPattern>, n: int, t: Seq<char>) -> bool {
    exists|i: int| 0 <= i < n && (#[trigger] ps[i]).name@ == t
}

/// How many patterns are compiled before one fails.
pub open spec fn compiled_count(ps: Seq<RecogPattern>) -> int {
    match first_bad(ps, 0) {
        Some(i) => i,
        None => ps.len() as int,
    }
}

/// Looks for patterns at the beginning of the input.
#[derive(Debug)]
pub struct Recognizer {
    pub patterns: Vec<CompiledPattern>,
    pub import_preset: Option<String>,
}

/// How many characters a pattern matches, where it matches any.
pub open spec fn pattern_hit(c: CompiledPattern, input: Seq<char>) -> Option<int> {
    if !c.leading@.is_prefix_of(input) {
        None
    } else {
        match c.regex.at_start(input, c.to_end) {
            Some((e, _)) => if e > 0 {
                Some(e)
            } else {
                None
            },
            None => None,
        }
    }
}

/// The pattern, among the first `n`, that matches most, of equals the one whose
/// name comes first.
pub open spec fn best_pattern(ps: Seq<CompiledPattern>, input: Seq<char>, n: int) -> Option<
    (int, int),
>
    decreases n,
{
    if n <= 0 {
        None
    } else {
        let head = best_pattern(ps, input, n - 1);
        match pattern_hit(ps[n - 1], input) {
            None => head,
            Some(e) => match head {
                None => Some((n - 1, e)),
                Some((b, len)) => if e > len || (e == len && text_less(
                    ps[n - 1].name@,
                    ps[b].name@,
                )) {
                    Some((n - 1, e))
                } else {
                    head
                },
            },
        }
    }
}

impl Recognizer {
    /// Compiles the patterns and enters their names as tags.
    pub fn new(spec: &RecognizerSpec, tags: &mut TagTable) -> (r: Result<Self, RecognizerError>)
        requires
            old(tags).wf(),
        ensures
            final(tags).wf(),
            forall|t: Seq<char>| #[trigger]
                final(tags).known().contains(t) <==> (old(tags).known().contains(t) || named_among(
                    spec.patterns@,
                    compiled_count(spec.patterns@),
                    t,
                )),
            match first_bad(spec.patterns@, 0) {
                Some(i) => {
                    let p = spec.patterns@[i];
                    &&& r matches Err(RecognizerError::BadPattern { name, regex, reason, line })
                    &&& name@ == p.name@
                    &&& regex@ == p.regex@
                    &&& line == p.at.line
                    &&& reason@ == refusal_text(parse(p.regex@)->Err_0)
                },
                None => {
                    &&& r matches Ok(rec)
                    &&& rec.patterns@.len() == spec.patterns@.len()
                    &&& text_opt(rec.import_preset) == text_opt(spec.import_preset)
                    &&& forall|i: int|
                        0 <= i < spec.patterns@.len() ==> compiles_to(
                            #[trigger] spec.patterns@[i],
                            rec.patterns@[i],
                        )
                },
            },
    {
        let mut patterns: Vec<CompiledPattern> = Vec::new();
        let ghost ps = spec.patterns@;
        let mut n: usize = 0;
        while n < spec.patterns.len()
            invariant
                n <= spec.patterns.len(),
                ps == spec.patterns@,
                tags.wf(),
                first_bad(ps, 0) == first_bad(ps, n as int),
                patterns@.len() == n,
                forall|i: int|
                    0 <= i < n ==> compiles_to(#[trigger] ps[i], patterns@[i]),
                forall|t: Seq<char>| #[trigger]
                    tags.known().contains(t) <==> (old(tags).known().contains(t) || named_among(
                        ps,
                        n as int,
                        t,
                    )),
            decreases spec.patterns.len() - n,
        {
            let p = &spec.patterns[n];
            let regex = match Regex::compile(p.regex.as_str()) {
                Ok(re) => re,
                Err(e) => {
                    return Err(
                        RecognizerError::BadPattern {
                            name: p.name.clone(),
                            regex: p.regex.clone(),
                            reason: e.message(),
                            line: p.at.line,
                        },
                    );
                },
            };
            let ghost had = tags.known();
            let tag = tags.intern(p.name.as_str());
            proof {
                assert forall|t: Seq<char>| named_among(ps, n + 1, t) <==> (#[trigger] named_among(
                    ps,
                    n as int,
                    t,
                ) || t == p.name@) by {
                    assert(ps[n as int].name@ == p.name@);
                }
                assert forall|t: Seq<char>| #[trigger] tags.known().contains(t) <==> (old(
                    tags,
                ).known().contains(t) || named_among(ps, n + 1, t)) by {
                    assert(had.contains(t) <==> (old(tags).known().contains(t) || named_among(
                        ps,
                        n as int,
                        t,
                    )));
                }
            }
            let leading = if p.leading.as_str().is_empty() {
                leading_literal(p.regex.as_str())
            } else {
                p.leading.clone()
            };
            patterns.push(
                CompiledPattern {
                    tag,
                    name: p.name.clone(),
                    leading,
                    regex,
                    to_end: ends_with_anchor(p.regex.as_str()),
                },
            );
            n += 1;
        }
        Ok(Recognizer { patterns, import_preset: copy_opt(&spec.import_preset) })
    }

    /// The preset that the configuration asks for.
    pub fn import_preset(&self) -> (r: Option<&str>)
        ensures
            match text_opt(self.import_preset) {
                Some(t) => r matches Some(x) && x@ == t,
                None => r is None,
            },
    {
        match &self.import_preset {
            Some(s) => Some(s.as_str()),
            None => None,
        }
    }

    /// The names of the patterns, which are the tags they can give.
    pub fn pattern_names(&self) -> (r: Vec<&str>)
        ensures
            r@.len() == self.patterns@.len(),
            forall|i: int| 0 <= i < r@.len() ==> (#[trigger] r@[i])@ == self.patterns@[i].name@,
    {
        let mut out: Vec<&str> = Vec::new();
        let mut i: usize = 0;
        while i < self.patterns.len()
            invariant
                i <= self.patterns.len(),
                out@.len() == i,
                forall|j: int| 0 <= j < i ==> (#[trigger] out@[j])@ == self.patterns@[j].name@,
            decreases self.patterns.len() - i,
        {
            out.push(self.patterns[i].name.as_str());
            i += 1;
        }
        out
    }

    /// Claims the beginning of the input for the pattern that matches most of
    /// it.
    pub fn scan(&self, input: &str) -> (r: InputScan)
        ensures
            match best_pattern(self.patterns@, input@, self.patterns@.len() as int) {
                Some((i, e)) => if input@.len() > 0 {
                    r.claims@ == seq![
                        Claim {
                            start: 0,
                            end: bytes_len(input@.take(e)) as usize,
                            tag: self.patterns@[i].tag,
                        },
                    ] && r.body_start@ == seq![0usize]
                } else {
                    r.claims@.len() == 0 && r.body_start@.len() == 0
                },
                None => r.claims@.len() == 0 && r.body_start@.len() == 0,
            },
    {
        let mut scan = InputScan::new();
        if input.is_empty() {
            return scan;
        }
        let cs = to_chars(input);
        let ghost ps = self.patterns@;
        let mut best: Option<(usize, usize)> = None;
        let mut n: usize = 0;
        while n < self.patterns.len()
            invariant
                n <= self.patterns.len(),
                ps == self.patterns@,
                cs@ == input@,
                match best_pattern(ps, input@, n as int) {
                    Some((i, e)) => best matches Some((b, l)) && b == i && l == e && 0 <= i < n && 0
                        < e <= input@.len(),
                    None => best is None,
                },
            decreases self.patterns.len() - n,
        {
            let p = &self.patterns[n];
            assert(cs@.skip(0) =~= cs@);
            if starts_at(&cs, 0, p.leading.as_str()) {
                if let Some(e) = p.regex.match_prefix_len(input, p.to_end) {
                    if e > 0 {
                        let better = match best {
                            None => true,
                            Some((b, len)) => e > len || (e == len && text_before(
                                p.name.as_str(),
                                self.patterns[b].name.as_str(),
                            )),
                        };
                        if better {
                            best = Some((n, e));
                        }
                    }
                }
            }
            n += 1;
        }
        if let Some((i, e)) = best {
            let end: usize = bytes_upto(&cs, e);
            scan.claims.push(Claim { start: 0, end, tag: self.patterns[i].tag });
            scan.body_start.push(0);
            assert(scan.claims@ =~= seq![Claim { start: 0, end, tag: self.patterns@[i as int].tag }]);
            assert(scan.body_start@ =~= seq![0usize]);
        }
        scan
    }
}

/// The leading texts of a list of patterns.
#[must_use]
pub fn all_leadings(patterns: &[RecogPattern]) -> (r: Vec<String>)
    ensures
        r@.len() == patterns@.len(),
        forall|i: int|
            0 <= i < r@.len() ==> (#[trigger] r@[i])@ == leading_for(
                patterns@[i].leading@,
                patterns@[i].regex@,
            ),
{
    let mut out: Vec<String> = Vec::new();
    let mut i: usize = 0;
    while i < patterns.len()
        invariant
            i <= patterns.len(),
            out@.len() == i,
            forall|j: int|
                0 <= j < i ==> (#[trigger] out@[j])@ == leading_for(
                    patterns@[j].leading@,
                    patterns@[j].regex@,
                ),
        decreases patterns.len() - i,
    {
        let p = &patterns[i];
        if p.leading.as_str().is_empty() {
            out.push(leading_literal(p.regex.as_str()));
        } else {
            out.push(p.leading.clone());
        }
        i += 1;
    }
    out
}

// ---------------------------------------------------------------------------
// Segments
// ---------------------------------------------------------------------------

/// How sure a segment is.
#[derive(Clone, Copy, Debug, PartialEq, Eq, Structural)]
pub enum SegmentStatus {
    /// Nothing is known of it.
    Void,
    /// It was tagged.
    Guess,
}

/// A tagged part of the input.
#[derive(Debug)]
pub struct Segment {
    pub span: Span,
    pub status: SegmentStatus,
    pub tags: Vec<Tag>,
    pub candidates: Vec<Candidate>,
}

/// The mathematical reading of a [`Segment`].
pub struct Part {
    pub span: Span,
    pub status: SegmentStatus,
    pub tags: Seq<Seq<char>>,
    pub candidates: Seq<Cand>,
}

impl View for Segment {
    type V = Part;

    open spec fn view(&self) -> Part {
        Part {
            span: self.span,
            status: self.status,
            tags: views(self.tags@),
            candidates: views(self.candidates@),
        }
    }
}

/// A part that was tagged and has no candidates yet.
pub open spec fn tagged(span: Span, tags: Seq<Seq<char>>) -> Part {
    Part { span, status: SegmentStatus::Guess, tags, candidates: seq![] }
}

impl Segment {
    /// A segment of which nothing is known.
    pub fn new(span: Span) -> (r: Self)
        ensures
            r@ == (Part { span, status: SegmentStatus::Void, tags: seq![], candidates: seq![] }),
    {
        let r = Segment {
            span,
            status: SegmentStatus::Void,
            tags: Vec::new(),
            candidates: Vec::new(),
        };
        assert(views(r.tags@) =~= seq![]);
        assert(views(r.candidates@) =~= seq![]);
        r
    }

    /// A segment with tags.
    pub fn guess(span: Span, tags: Vec<Tag>) -> (r: Self)
        ensures
            r@ == tagged(span, views(tags@)),
    {
        let r = Segment { span, status: SegmentStatus::Guess, tags, candidates: Vec::new() };
        assert(views(r.candidates@) =~= seq![]);
        r
    }
}

/// Where the segments end so far.
pub open spec fn end_of_parts(ps: Seq<Part>) -> int {
    if ps.len() == 0 {
        0
    } else {
        ps.last().span.end as int
    }
}

/// Where the segments end so far.
pub fn segments_end(segs: &Vec<Segment>) -> (r: usize)
    ensures
        r == end_of_parts(views(segs@)),
{
    if segs.len() == 0 {
        0
    } else {
        assert(views(segs@).last() == segs@[segs@.len() - 1]@);
        segs[segs.len() - 1].span.end
    }
}

/// Whether `s` is cut at `pos` between two characters.
pub open spec fn boundary(s: Seq<char>, pos: int) -> bool {
    at_byte(s, pos) is Some
}

/// What a segmentor that gave `made` has done to the segments.
pub open spec fn appended(before: Seq<Part>, after: Seq<Part>, made: Option<Part>, r: bool) -> bool {
    match made {
        Some(p) => r && after == before.push(p),
        None => !r && after == before,
    }
}

fn push_segment(segs: &mut Vec<Segment>, start: usize, end: usize, tags: Vec<Tag>)
    ensures
        views(final(segs)@) == views(old(segs)@).push(
            tagged(Span { start, end }, views(tags@)),
        ),
{
    let ghost before = views(segs@);
    let s = Segment::guess(Span::new(start, end), tags);
    let ghost p = s@;
    segs.push(s);
    assert(views(segs@) =~= before.push(p));
}

/// Turns the claims of its own tags into segments.
#[derive(Debug)]
pub struct Matcher {
    pub tags: Vec<Tag>,
    pub scan: InputScan,
}

/// The segment that a matcher makes of a claim at `pos`.
pub open spec fn matched(claims: Seq<Claim>, tags: Seq<Seq<char>>, pos: int) -> Option<Part> {
    match claim_index(claims, pos, 0) {
        None => None,
        Some(i) => if tags.contains(claims[i].tag@) {
            Some(
                tagged(
                    Span { start: claims[i].start, end: claims[i].end },
                    seq![claims[i].tag@],
                ),
            )
        } else {
            None
        },
    }
}

impl Matcher {
    pub fn new(scan: InputScan, tags: Vec<Tag>) -> (r: Self)
        ensures
            r.tags == tags,
            r.scan == scan,
    {
        Matcher { tags, scan }
    }

    /// Takes the scan of another input.
    pub fn rescan_all(&mut self, scan: InputScan)
        ensures
            *final(self) == (Matcher { scan, ..*old(self) }),
    {
        self.scan = scan;
    }

    pub fn proceed(&self, segs: &mut Vec<Segment>) -> (r: bool)
        ensures
            appended(
                views(old(segs)@),
                views(final(segs)@),
                matched(self.scan.claims@, views(self.tags@), end_of_parts(views(old(segs)@))),
                r,
            ),
    {
        let pos: usize = segments_end(segs);
        match self.scan.claim(pos) {
            None => false,
            Some(claim) => {
                if !holds_tag(&self.tags, claim.tag) {
                    return false;
                }
                let mut tags: Vec<Tag> = Vec::new();
                tags.push(claim.tag);
                assert(views(tags@) =~= seq![claim.tag@]);
                push_segment(segs, claim.start, claim.end, tags);
                true
            },
        }
    }
}

/// Strips a prefix and a suffix, and gives what stands between to other
/// translators.
#[derive(Debug)]
pub struct AffixSegmentor {
    pub tag: Tag,
    pub prefixes: Vec<String>,
    pub suffix: Option<String>,
    pub extra_tags: Vec<Tag>,
    pub tips: Option<String>,
    pub scan: InputScan,
}

/// A prefix as a list: itself, or nothing where it is empty.
pub open spec fn prefix_list(raw: Option<Seq<char>>) -> Seq<Seq<char>> {
    match raw {
        Some(s) => if s.len() > 0 {
            seq![s]
        } else {
            seq![]
        },
        None => seq![],
    }
}

/// A prefix as a list. It is one literal text, whatever letters it has.
#[must_use]
pub fn expand_prefix(raw: Option<&str>) -> (r: Vec<String>)
    ensures
        texts(r@) == prefix_list(match raw {
            Some(s) => Some(s@),
            None => None,
        }),
{
    let mut v: Vec<String> = Vec::new();
    if let Some(s) = raw {
        if !s.is_empty() {
            v.push(s.to_owned());
        }
    }
    assert(texts(v@) =~= prefix_list(match raw {
        Some(s) => Some(s@),
        None => None,
    }));
    v
}

/// The longest of the first `n` prefixes that `rest` starts with, of equals the
/// last.
pub open spec fn longest_prefix(ps: Seq<Seq<char>>, rest: Seq<char>, n: int) -> Option<int>
    decreases n,
{
    if n <= 0 {
        None
    } else {
        let head = longest_prefix(ps, rest, n - 1);
        if !ps[n - 1].is_prefix_of(rest) {
            head
        } else {
            match head {
                None => Some(n - 1),
                Some(b) => if ps[n - 1].len() >= ps[b].len() {
                    Some(n - 1)
                } else {
                    head
                },
            }
        }
    }
}

/// The segment that an affix segmentor makes at `pos`: it needs the prefix
/// there, the suffix at the end, and something between.
pub open spec fn affixed(
    ps: Seq<Seq<char>>,
    suffix: Option<Seq<char>>,
    tags: Seq<Seq<char>>,
    s: Seq<char>,
    pos: int,
) -> Option<Part> {
    let n = at_byte(s, pos)->0;
    match longest_prefix(ps, s.skip(n), ps.len() as int) {
        None => None,
        Some(i) => {
            let body = n + ps[i].len();
            let end = match suffix {
                None => s.len() as int,
                Some(suf) => s.len() - suf.len(),
            };
            if (suffix matches Some(suf) && !suf.is_suffix_of(s.skip(body))) || end <= body {
                None
            } else {
                Some(
                    tagged(
                        Span { start: pos as usize, end: bytes_len(s.take(end)) as usize },
                        tags,
                    ),
                )
            }
        },
    }
}

/// The tag of an affix segmentor, and its further tags.
pub open spec fn affix_tags(tag: Seq<char>, extra: Seq<Seq<char>>) -> Seq<Seq<char>> {
    seq![tag] + extra
}

impl AffixSegmentor {
    /// Builds the segmentor; without a tag of its own it takes `fallback`.
    pub fn new(spec: &AffixSpec, tags: &mut TagTable, fallback: &str) -> (r: Self)
        requires
            old(tags).wf(),
        ensures
            final(tags).wf(),
            forall|t: Seq<char>| #[trigger]
                final(tags).known().contains(t) <==> (old(tags).known().contains(t) || (spec.tag
                    is None && t == fallback@)),
            r.tag@ == (match spec.tag {
                Some(t) => t@,
                None => fallback@,
            }),
            texts(r.prefixes@) == prefix_list(text_opt(spec.prefix)),
            text_opt(r.suffix) == text_opt(spec.suffix),
            r.extra_tags@ == spec.extra_tags@,
            text_opt(r.tips) == text_opt(spec.tips),
    {
        let tag = match spec.tag {
            Some(t) => t,
            None => tags.intern(fallback),
        };
        let prefixes = expand_prefix(
            match &spec.prefix {
                Some(s) => Some(s.as_str()),
                None => None,
            },
        );
        AffixSegmentor {
            tag,
            prefixes,
            suffix: copy_opt(&spec.suffix),
            extra_tags: copy_tags(&spec.extra_tags),
            tips: copy_opt(&spec.tips),
            scan: InputScan::new(),
        }
    }

    /// Takes the scan of another input.
    pub fn rescan_all(&mut self, scan: InputScan)
        ensures
            *final(self) == (AffixSegmentor { scan, ..*old(self) }),
    {
        self.scan = scan;
    }

    /// What is shown beside the input.
    pub fn tips(&self) -> (r: Option<&str>)
        ensures
            match text_opt(self.tips) {
                Some(t) => r matches Some(x) && x@ == t,
                None => r is None,
            },
    {
        match &self.tips {
            Some(s) => Some(s.as_str()),
            None => None,
        }
    }

    pub fn prefixes(&self) -> (r: &Vec<String>)
        ensures
            *r == self.prefixes,
    {
        &self.prefixes
    }

    pub fn suffix(&self) -> (r: Option<&str>)
        ensures
            match text_opt(self.suffix) {
                Some(t) => r matches Some(x) && x@ == t,
                None => r is None,
            },
    {
        match &self.suffix {
            Some(s) => Some(s.as_str()),
            None => None,
        }
    }

    /// The tag, and how many bytes of a segment come before its body.
    pub fn body_start(&self) -> (r: Option<(Tag, usize)>)
        ensures
            r matches Some((t, n)) && t == self.tag && n == (if self.prefixes@.len() > 0 {
                bytes_len(self.prefixes@[0]@)
            } else {
                0
            }),
    {
        let n: usize = if self.prefixes.len() > 0 {
            byte_len(self.prefixes[0].as_str())
        } else {
            0
        };
        Some((self.tag, n))
    }

    pub fn proceed(&self, input: &str, segs: &mut Vec<Segment>) -> (r: bool)
        requires
            boundary(input@, end_of_parts(views(old(segs)@))),
        ensures
            appended(
                views(old(segs)@),
                views(final(segs)@),
                affixed(
                    texts(self.prefixes@),
                    text_opt(self.suffix),
                    affix_tags(self.tag@, views(self.extra_tags@)),
                    input@,
                    end_of_parts(views(old(segs)@)),
                ),
                r,
            ),
    {
        let pos: usize = segments_end(segs);
        let cs = to_chars(input);
        let ghost s = cs@;
        let ghost ps = texts(self.prefixes@);
        let n: usize = match find_byte(&cs, pos) {
            Some(n) => n,
            None => {
                return false;
            },
        };
        let mut hit: Option<usize> = None;
        let mut width: usize = 0;
        let mut i: usize = 0;
        while i < self.prefixes.len()
            invariant
                i <= self.prefixes.len(),
                n <= cs.len(),
                s == cs@,
                ps == texts(self.prefixes@),
                match longest_prefix(ps, s.skip(n as int), i as int) {
                    Some(b) => hit matches Some(x) && x == b && 0 <= b < i && width == ps[b].len()
                        && width <= cs.len() - n,
                    None => hit is None,
                },
            decreases self.prefixes.len() - i,
        {
            let p = &self.prefixes[i];
            assert(ps[i as int] == p@);
            if starts_at(&cs, n, p.as_str()) {
                let len: usize = to_chars(p.as_str()).len();
                if hit.is_none() || len >= width {
                    hit = Some(i);
                    width = len;
                }
            }
            i += 1;
        }
        if hit.is_none() {
            return false;
        }
        let body: usize = n + width;
        let end: usize = match &self.suffix {
            None => cs.len(),
            Some(suf) => {
                if !ends_at(&cs, body, suf.as_str()) {
                    return false;
                }
                cs.len() - to_chars(suf.as_str()).len()
            },
        };
        if end <= body {
            return false;
        }
        let stop: usize = bytes_upto(&cs, end);
        let mut tags: Vec<Tag> = Vec::new();
        tags.push(self.tag);
        let mut k: usize = 0;
        while k < self.extra_tags.len()
            invariant
                k <= self.extra_tags.len(),
                tags@ == seq![self.tag] + self.extra_tags@.take(k as int),
            decreases self.extra_tags.len() - k,
        {
            tags.push(self.extra_tags[k]);
            k += 1;
            assert(tags@ =~= seq![self.tag] + self.extra_tags@.take(k as int));
        }
        assert(views(tags@) =~= affix_tags(self.tag@, views(self.extra_tags@)));
        push_segment(segs, pos, stop, tags);
        true
    }
}

/// Every tag that an affix segmentor gives.
pub fn affix_all_tags(spec: &AffixSpec, tags: &mut TagTable, fallback: &str) -> (r: Vec<Tag>)
    requires
        old(tags).wf(),
    ensures
        final(tags).wf(),
        forall|t: Seq<char>| #[trigger]
            final(tags).known().contains(t) <==> (old(tags).known().contains(t) || (spec.tag is None
                && t == fallback@)),
        views(r@) == affix_tags(
            match spec.tag {
                Some(t) => t@,
                None => fallback@,
            },
            views(spec.extra_tags@),
        ),
{
    let tag = match spec.tag {
        Some(t) => t,
        None => tags.intern(fallback),
    };
    let mut out: Vec<Tag> = Vec::new();
    out.push(tag);
    let mut k: usize = 0;
    while k < spec.extra_tags.len()
        invariant
            k <= spec.extra_tags.len(),
            out@ == seq![tag] + spec.extra_tags@.take(k as int),
        decreases spec.extra_tags.len() - k,
    {
        out.push(spec.extra_tags[k]);
        k += 1;
        assert(out@ =~= seq![tag] + spec.extra_tags@.take(k as int));
    }
    assert(views(out@) =~= affix_tags(tag@, views(spec.extra_tags@)));
    out
}

/// Takes what nobody has claimed as code. It comes last.
#[derive(Debug)]
pub struct CodingSegmentor {
    pub tag: Tag,
    pub scan: InputScan,
}

/// The segment that the fallback makes at `pos`: up to the next claim, and
/// nothing where a claim starts.
pub open spec fn coded(claims: Seq<Claim>, tag: Seq<char>, len: int, pos: int) -> Option<Part> {
    if pos >= len || claim_index(claims, pos, 0) is Some {
        None
    } else {
        let end = match next_start(claims, pos, 0) {
            Some(e) => e,
            None => len,
        };
        if end <= pos {
            None
        } else {
            Some(
                tagged(Span { start: pos as usize, end: end as usize }, seq![tag]),
            )
        }
    }
}

impl CodingSegmentor {
    pub fn new(tag: Tag, scan: InputScan) -> (r: Self)
        ensures
            r.tag == tag,
            r.scan == scan,
    {
        CodingSegmentor { tag, scan }
    }

    /// Takes the scan of another input.
    pub fn rescan_all(&mut self, scan: InputScan)
        ensures
            *final(self) == (CodingSegmentor { scan, ..*old(self) }),
    {
        self.scan = scan;
    }

    pub fn proceed(&self, input: &str, segs: &mut Vec<Segment>) -> (r: bool)
        ensures
            appended(
                views(old(segs)@),
                views(final(segs)@),
                coded(
                    self.scan.claims@,
                    self.tag@,
                    bytes_len(input@) as int,
                    end_of_parts(views(old(segs)@)),
                ),
                r,
            ),
    {
        let pos: usize = segments_end(segs);
        let len: usize = byte_len(input);
        if pos >= len {
            return false;
        }
        if self.scan.claim_at(pos).is_some() {
            return false;
        }
        let end: usize = match self.scan.next_claim_start(pos) {
            Some(e) => e,
            None => len,
        };
        if end <= pos {
            return false;
        }
        let mut tags: Vec<Tag> = Vec::new();
        tags.push(self.tag);
        assert(views(tags@) =~= seq![self.tag@]);
        push_segment(segs, pos, end, tags);
        true
    }
}

/// Takes a single punctuation mark, or anything behind the symbol prefix.
#[derive(Debug)]
pub struct SymbolSegmentor {
    pub tag: Tag,
    pub singles: Vec<char>,
    pub symbol_prefix: Option<char>,
}

/// Whether some row of a table is keyed by exactly this character.
pub open spec fn keyed_by(rows: Seq<(String, String)>, c: char) -> bool {
    exists|i: int| 0 <= i < rows.len() && (#[trigger] rows[i]).0@ == seq![c]
}

/// Whether a text is a single mark or starts with the symbol prefix.
pub open spec fn is_symbol(singles: Set<char>, prefix: Option<char>, text: Seq<char>) -> bool {
    (prefix matches Some(p) && text.len() > 0 && text[0] == p) || (text.len() == 1
        && singles.contains(text[0]))
}

/// The segment that a symbol segmentor makes at `pos`: all the rest.
pub open spec fn symbolic(
    singles: Set<char>,
    prefix: Option<char>,
    tag: Seq<char>,
    s: Seq<char>,
    pos: int,
) -> Option<Part> {
    if is_symbol(singles, prefix, s.skip(at_byte(s, pos)->0)) {
        Some(tagged(Span { start: pos as usize, end: bytes_len(s) as usize }, seq![tag]))
    } else {
        None
    }
}

fn has_char(v: &Vec<char>, c: char) -> (r: bool)
    ensures
        r == v@.contains(c),
{
    let mut i: usize = 0;
    while i < v.len()
        invariant
            i <= v.len(),
            forall|j: int| 0 <= j < i ==> v@[j] != c,
        decreases v.len() - i,
    {
        if v[i] == c {
            return true;
        }
        i += 1;
    }
    false
}

fn collect_singles(rows: &Vec<(String, String)>, out: &mut Vec<char>)
    ensures
        forall|c: char| #[trigger]
            final(out)@.contains(c) <==> (old(out)@.contains(c) || keyed_by(rows@, c)),
{
    let ghost before = out@;
    let mut i: usize = 0;
    while i < rows.len()
        invariant
            i <= rows.len(),
            forall|c: char| #[trigger]
                out@.contains(c) <==> (before.contains(c) || keyed_by(rows@.take(i as int), c)),
        decreases rows.len() - i,
    {
        let k = to_chars(rows[i].0.as_str());
        let ghost had = out@;
        let ghost row = rows@[i as int];
        proof {
            assert forall|c: char| keyed_by(rows@.take(i + 1), c) <==> (#[trigger] keyed_by(
                rows@.take(i as int),
                c,
            ) || row.0@ == seq![c]) by {
                if keyed_by(rows@.take(i as int), c) {
                    let j = choose|j: int|
                        0 <= j < rows@.take(i as int).len() && (#[trigger] rows@.take(
                            i as int,
                        )[j]).0@ == seq![c];
                    assert(rows@.take(i + 1)[j].0@ == seq![c]);
                }
                if row.0@ == seq![c] {
                    assert(rows@.take(i + 1)[i as int].0@ == seq![c]);
                }
                if keyed_by(rows@.take(i + 1), c) {
                    let j = choose|j: int|
                        0 <= j < rows@.take(i + 1).len() && (#[trigger] rows@.take(i + 1)[j]).0@
                            == seq![c];
                    if j < i {
                        assert(rows@.take(i as int)[j].0@ == seq![c]);
                    }
                }
            }
        }
        if k.len() == 1 {
            assert(row.0@ =~= seq![k@[0]]);
            if !has_char(out, k[0]) {
                out.push(k[0]);
                assert forall|c: char| #[trigger] out@.contains(c) <==> (had.contains(c) || c
                    == k@[0]) by {
                    if had.contains(c) {
                        let j = choose|j: int| 0 <= j < had.len() && had[j] == c;
                        assert(out@[j] == c);
                    }
                    assert(out@[had.len() as int] == k@[0]);
                }
            }
            assert forall|c: char| row.0@ == seq![c] <==> c == k@[0] by {
                if row.0@ == seq![c] {
                    assert(row.0@[0] == c);
                }
            }
        } else {
            assert forall|c: char| row.0@ != seq![c] by {
                assert(seq![c].len() == 1);
            }
        }
        assert forall|c: char| #[trigger] out@.contains(c) <==> (before.contains(c) || keyed_by(
            rows@.take(i + 1),
            c,
        )) by {
            assert(had.contains(c) <==> (before.contains(c) || keyed_by(
                rows@.take(i as int),
                c,
            )));
        }
        i += 1;
    }
    assert(rows@.take(i as int) =~= rows@);
}

impl SymbolSegmentor {
    /// Whether a character is one of the single marks.
    pub open spec fn mark_set(&self) -> Set<char> {
        self.singles@.to_set()
    }

    /// Builds the segmentor from the punctuation tables.
    pub fn new(tag: Tag, spec: &PunctuatorSpec) -> (r: Self)
        ensures
            r.tag == tag,
            r.symbol_prefix == spec.symbol_prefix,
            forall|c: char| #[trigger]
                r.mark_set().contains(c) <==> (keyed_by(spec.full_shape@, c) || keyed_by(
                    spec.half_shape@,
                    c,
                )),
    {
        let mut singles: Vec<char> = Vec::new();
        collect_singles(&spec.full_shape, &mut singles);
        collect_singles(&spec.half_shape, &mut singles);
        let r = SymbolSegmentor { tag, singles, symbol_prefix: spec.symbol_prefix };
        assert forall|c: char| #[trigger] r.mark_set().contains(c) <==> (keyed_by(
            spec.full_shape@,
            c,
        ) || keyed_by(spec.half_shape@, c)) by {
            assert(r.mark_set().contains(c) <==> r.singles@.contains(c));
        }
        r
    }

    /// Whether a text belongs to this segmentor.
    pub fn matches(&self, text: &str) -> (r: bool)
        ensures
            r == is_symbol(self.mark_set(), self.symbol_prefix, text@),
    {
        let cs = to_chars(text);
        if let Some(p) = self.symbol_prefix {
            if cs.len() > 0 && cs[0] == p {
                return true;
            }
        }
        proof {
            assert forall|c: char| #[trigger] self.mark_set().contains(c) <==> self.singles@.contains(
                c,
            ) by {}
        }
        cs.len() == 1 && has_char(&self.singles, cs[0])
    }

    pub fn proceed(&self, input: &str, segs: &mut Vec<Segment>) -> (r: bool)
        requires
            boundary(input@, end_of_parts(views(old(segs)@))),
        ensures
            appended(
                views(old(segs)@),
                views(final(segs)@),
                symbolic(
                    self.mark_set(),
                    self.symbol_prefix,
                    self.tag@,
                    input@,
                    end_of_parts(views(old(segs)@)),
                ),
                r,
            ),
    {
        let pos: usize = segments_end(segs);
        let cs = to_chars(input);
        let n: usize = match find_byte(&cs, pos) {
            Some(n) => n,
            None => {
                return false;
            },
        };
        let rest = crate::text::part(&cs, n, cs.len());
        assert(rest@ =~= input@.skip(n as int));
        if !self.matches(rest.as_str()) {
            return false;
        }
        let mut tags: Vec<Tag> = Vec::new();
        tags.push(self.tag);
        assert(views(tags@) =~= seq![self.tag@]);
        push_segment(segs, pos, byte_len(input), tags);
        true
    }
}

// ---------------------------------------------------------------------------
// Laws
// ---------------------------------------------------------------------------

/// A pattern whose leading text was worked out from its regex claims exactly
/// the inputs that the regex matches from the beginning: the leading text
/// spares work and never changes the verdict.
pub proof fn leading_text_never_changes_the_verdict(p: RecogPattern, c: CompiledPattern, input: Seq<char>)
    requires
        compiles_to(p, c),
        p.leading@.len() == 0 || p.leading@ == leading_of(p.regex@),
    ensures
        pattern_hit(c, input) is Some <==> (c.regex.at_start(input, c.to_end) matches Some((e, _)) && e > 0),
{
    match_starts_with_required_prefix(&c.regex, input, c.to_end);
}

/// No pattern matches more of the input than the one that claims it.
pub proof fn claim_is_the_longest_match(ps: Seq<CompiledPattern>, input: Seq<char>, n: int, i: int)
    requires
        0 <= i < n <= ps.len(),
    ensures
        pattern_hit(ps[i], input) matches Some(e) ==> (best_pattern(ps, input, n) matches Some(
            (b, len),
        ) && 0 <= b < n && e <= len && pattern_hit(ps[b], input) == Some(len)),
    decreases n,
{
    best_is_a_hit(ps, input, n - 1);
    if i < n - 1 {
        claim_is_the_longest_match(ps, input, n - 1, i);
    }
}

proof fn best_is_a_hit(ps: Seq<CompiledPattern>, input: Seq<char>, n: int)
    requires
        0 <= n <= ps.len(),
    ensures
        best_pattern(ps, input, n) matches Some((b, len)) ==> 0 <= b < n && pattern_hit(
            ps[b],
            input,
        ) == Some(len),
    decreases n,
{
    if n > 0 {
        best_is_a_hit(ps, input, n - 1);
    }
}

/// A claim is found by where it starts: the first in the list that starts there,
/// and none where no claim starts there. The next claim is the first in the list
/// that starts farther on.
pub proof fn claims_are_found_by_their_start(claims: Seq<Claim>, pos: int, from: int)
    requires
        0 <= from,
    ensures
        match claim_index(claims, pos, from) {
            Some(i) => from <= i < claims.len() && claims[i].start == pos && forall|j: int|
                from <= j < i ==> (#[trigger] claims[j]).start != pos,
            None => forall|j: int| from <= j < claims.len() ==> (#[trigger] claims[j]).start != pos,
        },
        match next_start(claims, pos, from) {
            Some(e) => e > pos && exists|i: int|
                {
                    &&& from <= i < claims.len()
                    &&& (#[trigger] claims[i]).start == e
                    &&& forall|j: int| from <= j < i ==> (#[trigger] claims[j]).start <= pos
                },
            None => forall|j: int| from <= j < claims.len() ==> (#[trigger] claims[j]).start <= pos,
        },
    decreases claims.len() - from,
{
    if from < claims.len() {
        claims_are_found_by_their_start(claims, pos, from + 1);
        if claims[from].start > pos {
            assert(claims[from].start == next_start(claims, pos, from)->0);
        } else if let Some(e) = next_start(claims, pos, from + 1) {
            let i = choose|i: int|
                {
                    &&& from + 1 <= i < claims.len()
                    &&& (#[trigger] claims[i]).start == e
                    &&& forall|j: int| from + 1 <= j < i ==> (#[trigger] claims[j]).start <= pos
                };
            assert(claims[i].start == e);
        }
    }
}

/// A matcher turns a claim of one of its tags into a segment of the same extent,
/// with the tag of the claim; any other claim it leaves alone.
pub proof fn matchers_take_their_claims(claims: Seq<Claim>, tags: Seq<Seq<char>>, pos: int, i: int)
    requires
        0 <= i < claims.len(),
        claims[i].start == pos,
        forall|j: int| 0 <= j < i ==> (#[trigger] claims[j]).start != pos,
    ensures
        tags.contains(claims[i].tag@) ==> (matched(claims, tags, pos) matches Some(p)
            && p.span.start == pos && p.span.end == claims[i].end && p.tags == seq![
            claims[i].tag@,
        ] && p.status == SegmentStatus::Guess && p.candidates.len() == 0),
        !tags.contains(claims[i].tag@) ==> matched(claims, tags, pos) is None,
{
    claims_are_found_by_their_start(claims, pos, 0);
    let k = claim_index(claims, pos, 0);
    if let Some(k) = k {
        if k < i {
            assert(claims[k].start != pos);
        }
    } else {
        assert(claims[i].start != pos);
    }
}

/// What nobody has claimed is code: from where the last segment ended to the
/// next claim, or to the end of the input.
pub proof fn unclaimed_input_is_code(claims: Seq<Claim>, tag: Seq<char>, len: int, pos: int)
    requires
        0 <= pos < len <= usize::MAX,
        forall|j: int| 0 <= j < claims.len() ==> (#[trigger] claims[j]).start < len,
    ensures
        (exists|j: int| 0 <= j < claims.len() && (#[trigger] claims[j]).start == pos) ==> coded(
            claims,
            tag,
            len,
            pos,
        ) is None,
        (forall|j: int| 0 <= j < claims.len() ==> (#[trigger] claims[j]).start < pos) ==> (coded(
            claims,
            tag,
            len,
            pos,
        ) matches Some(p) && p.span.start == pos && p.span.end == len && p.tags == seq![tag]),
        coded(claims, tag, len, pos) matches Some(p) ==> {
            &&& p.span.start == pos && pos < p.span.end <= len
            &&& p.tags == seq![tag]
            &&& p.span.end < len ==> exists|j: int|
                0 <= j < claims.len() && (#[trigger] claims[j]).start == p.span.end
        },
{
    claims_are_found_by_their_start(claims, pos, 0);
}

proof fn the_longest_is_found(ps: Seq<Seq<char>>, rest: Seq<char>, n: int)
    requires
        0 <= n <= ps.len(),
    ensures
        match longest_prefix(ps, rest, n) {
            Some(b) => 0 <= b < n && ps[b].is_prefix_of(rest) && forall|j: int|
                0 <= j < n && (#[trigger] ps[j]).is_prefix_of(rest) ==> ps[j].len() <= ps[b].len(),
            None => forall|j: int| 0 <= j < n ==> !(#[trigger] ps[j]).is_prefix_of(rest),
        },
    decreases n,
{
    if n > 0 {
        the_longest_is_found(ps, rest, n - 1);
    }
}

/// Of several prefixes the longest that stands there counts.
pub proof fn the_longest_prefix_counts(ps: Seq<Seq<char>>, rest: Seq<char>, i: int)
    requires
        0 <= i < ps.len(),
        ps[i].is_prefix_of(rest),
    ensures
        longest_prefix(ps, rest, ps.len() as int) matches Some(b) && 0 <= b < ps.len()
            && ps[b].is_prefix_of(rest) && ps[i].len() <= ps[b].len(),
{
    the_longest_is_found(ps, rest, ps.len() as int);
}

/// An input of a prefix, a body and a suffix becomes one segment: it begins with
/// the prefix, ends before the suffix, and has all tags. Without a body, without
/// the prefix or without the suffix there is none.
pub proof fn affixes_enclose_a_body(
    prefix: Seq<char>,
    suffix: Option<Seq<char>>,
    tags: Seq<Seq<char>>,
    body: Seq<char>,
    s: Seq<char>,
)
    requires
        prefix.len() > 0,
        bytes_len(prefix + body) <= usize::MAX,
    ensures
        body.len() > 0 && suffix is None ==> (affixed(seq![prefix], suffix, tags, prefix + body, 0)
            matches Some(p) && p.span.start == 0 && p.span.end == bytes_len(prefix + body) && p.tags
            == tags),
        body.len() > 0 && suffix is Some ==> (affixed(
            seq![prefix],
            suffix,
            tags,
            prefix + body + suffix->0,
            0,
        ) matches Some(p) && p.span.start == 0 && p.span.end == bytes_len(prefix + body) && p.tags
            == tags),
        affixed(seq![prefix], None, tags, prefix, 0) is None,
        suffix is Some ==> affixed(seq![prefix], suffix, tags, prefix + suffix->0, 0) is None,
        !prefix.is_prefix_of(s) ==> affixed(seq![prefix], suffix, tags, s, 0) is None,
        (suffix matches Some(suf) && !suf.is_suffix_of(s)) ==> affixed(
            seq![prefix],
            suffix,
            tags,
            prefix + s,
            0,
        ) is None,
{
    let ps = seq![prefix];
    let a = prefix + body;
    start_of(a);
    start_of(prefix);
    start_of(s);
    start_of(prefix + s);
    the_longest_is_found(ps, a, 1);
    the_longest_is_found(ps, prefix, 1);
    the_longest_is_found(ps, s, 1);
    the_longest_is_found(ps, prefix + s, 1);
    assert(ps[0] == prefix);
    assert(a.take(prefix.len() as int) =~= prefix);
    assert(prefix.take(prefix.len() as int) =~= prefix);
    assert((prefix + s).take(prefix.len() as int) =~= prefix);
    assert(prefix.is_prefix_of(a) && prefix.is_prefix_of(prefix) && prefix.is_prefix_of(prefix + s));
    assert(a.take(a.len() as int) =~= a);
    assert((prefix + s).skip(prefix.len() as int) =~= s);
    if let Some(suf) = suffix {
        let b = prefix + body + suf;
        let c = prefix + suf;
        start_of(b);
        start_of(c);
        the_longest_is_found(ps, b, 1);
        the_longest_is_found(ps, c, 1);
        assert(b.take(prefix.len() as int) =~= prefix);
        assert(c.take(prefix.len() as int) =~= prefix);
        assert(prefix.is_prefix_of(b) && prefix.is_prefix_of(c));
        assert(b.skip(prefix.len() as int) =~= body + suf);
        assert(suf.is_suffix_of(body + suf)) by {
            assert((body + suf).subrange(body.len() as int, (body + suf).len() as int) =~= suf);
        }
        assert(b.take(a.len() as int) =~= a);
    }
}

proof fn start_of(s: Seq<char>)
    ensures
        at_byte(s, 0) == Some(0int),
        s.skip(0) == s,
{
    at_byte_inverse(s, 0);
    assert(s.take(0) =~= Seq::<char>::empty());
    assert(bytes_len(s.take(0)) == 0);
    assert(s.skip(0) =~= s);
}

/// A single mark, or all that begins with the prefix of symbols, is one segment
/// to the end of the input; anything else is none.
pub proof fn marks_are_segments(
    singles: Set<char>,
    prefix: Option<char>,
    tag: Seq<char>,
    s: Seq<char>,
)
    requires
        s.len() > 0,
        bytes_len(s) <= usize::MAX,
    ensures
        (prefix == Some(s[0]) || s.len() == 1 && singles.contains(s[0])) ==> (symbolic(
            singles,
            prefix,
            tag,
            s,
            0,
        ) matches Some(p) && p.span.start == 0 && p.span.end == bytes_len(s) && p.tags == seq![
            tag,
        ]),
        prefix != Some(s[0]) && (s.len() > 1 || !singles.contains(s[0])) ==> symbolic(
            singles,
            prefix,
            tag,
            s,
            0,
        ) is None,
{
    start_of(s);
}

/// Of two patterns that match as much, the one whose name comes first has the
/// claim.
pub proof fn equal_matches_go_by_name(ps: Seq<CompiledPattern>, input: Seq<char>, n: int, i: int)
    requires
        0 <= i < n <= ps.len(),
    ensures
        best_pattern(ps, input, n) matches Some((b, len)) ==> {
            pattern_hit(ps[i], input) == Some(len) ==> !text_less(ps[i].name@, ps[b].name@)
        },
    decreases n,
{
    best_is_a_hit(ps, input, n - 1);
    if n > 1 {
        if i < n - 1 {
            equal_matches_go_by_name(ps, input, n - 1, i);
            claim_is_the_longest_match(ps, input, n - 1, i);
            if let (Some((b, len)), Some((c, m))) = (
                best_pattern(ps, input, n - 1),
                best_pattern(ps, input, n),
            ) {
                if m == len && c == n - 1 && pattern_hit(ps[i], input) == Some(len) {
                    if text_less(ps[i].name@, ps[c].name@) {
                        text_less_transitive(ps[i].name@, ps[c].name@, ps[b].name@);
                    }
                }
            }
        } else {
            text_less_irreflexive(ps[i].name@);
        }
    } else {
        text_less_irreflexive(ps[i].name@);
    }
}

} // verus!
