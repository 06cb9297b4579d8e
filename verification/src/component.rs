//! The parts that a pipeline is made of, each kind under one type.

use vstd::prelude::*;
use crate::candidate::{text_opt, Cand, Candidate, Span};
use crate::filter::{unique, Converter, ReverseLookupFilter, Uniquifier};
use crate::inline::inline_cands;
use crate::inline::number::{number_for, NumberTranslator};
use crate::inline::pin::PinCandFilter;
use crate::inline::reorder::{
    with_capitals, AutoCapFilter, LongWordFilter, ReduceEnglishFilter, VFilter,
};
use crate::inline::unicode::{unicode_for, UnicodeTranslator};
use crate::keyspec::Key;
use crate::lexicon::TextIndex;
use crate::options::Options;
use crate::order::views;
use crate::processor::{
    selector_step, AsciiComposer, Editor, KeyBinder, Navigator, Selector, Speller,
};
use crate::punctuator::{PunctTranslator, Punctuator};
use crate::segmentor::{
    affix_tags, affixed, appended, boundary, coded, end_of_parts, matched, symbolic, AffixSegmentor,
    Claim, CodingSegmentor, InputScan, Matcher, Part, Segment, SymbolSegmentor,
};
use crate::spelling::poured;
use crate::state::{ProcessResult, SessionState, State};
use crate::tag::{copy_tags, share_tag, tags_meet, Tag};
use crate::text::{bytes_len, texts};
use crate::translator::{
    echo_cands, exact_cands, graph_cands, EchoTranslator, ExactCodeTranslator,
    SpellingGraphTranslator,
};

verus! {

// ---------------------------------------------------------------------------
// Processors
// ---------------------------------------------------------------------------

/// A processor of keys.
#[derive(Debug)]
pub enum Processor {
    Speller(Speller),
    Editor(Editor),
    AsciiComposer(AsciiComposer),
    Navigator(Navigator),
    KeyBinder(KeyBinder),
    Selector(Selector),
    Punctuator(Punctuator),
}

impl Processor {
    /// Whether the processor works under these switches.
    pub open spec fn works(&self, options: Map<Seq<char>, bool>) -> bool {
        match *self {
            Processor::Speller(p) => p.works(options),
            _ => true,
        }
    }

    /// What becomes of the processor and the state at a key.
    pub open spec fn step(self, s: State, key: Key) -> (Processor, State, ProcessResult) {
        match self {
            Processor::Speller(p) => (self, p.step(s, key).0, p.step(s, key).1),
            Processor::Editor(p) => (self, p.step(s, key).0, p.step(s, key).1),
            Processor::AsciiComposer(p) => (self, p.step(s, key).0, p.step(s, key).1),
            Processor::Navigator(p) => match p.turns(s, key) {
                Some(page) => (
                    Processor::Navigator(Navigator { page: page as usize, ..p }),
                    State { page, ..s },
                    ProcessResult::Accepted,
                ),
                None => (self, s, ProcessResult::Noop),
            },
            Processor::KeyBinder(p) => (self, p.step(s, key).0, p.step(s, key).1),
            Processor::Selector(_) => (self, selector_step(s, key).0, selector_step(s, key).1),
            Processor::Punctuator(p) => (self, p.step(s, key).0, p.step(s, key).1),
        }
    }

    pub fn enabled(&self, options: &Options) -> (r: bool)
        ensures
            r == self.works(options@),
    {
        match self {
            Processor::Speller(p) => p.enabled(options),
            _ => true,
        }
    }

    pub fn process(&mut self, state: &mut SessionState, key: &Key) -> (r: ProcessResult)
        requires
            old(state).wf(),
        ensures
            (*final(self), final(state)@, r) == old(self).step(old(state)@, *key),
            final(state).wf(),
            final(state).context == old(state).context,
            final(state).predict_count == old(state).predict_count,
    {
        match self {
            Processor::Speller(p) => p.process(state, key),
            Processor::Editor(p) => p.process(state, key),
            Processor::AsciiComposer(p) => p.process(state, key),
            Processor::Navigator(p) => p.process(state, key),
            Processor::KeyBinder(p) => p.process(state, key),
            Processor::Selector(p) => p.process(state, key),
            Processor::Punctuator(p) => p.process(state, key),
        }
    }
}

// ---------------------------------------------------------------------------
// Segmentors
// ---------------------------------------------------------------------------

/// A segmentor of the input.
#[derive(Debug)]
pub enum Segmentor {
    Matcher(Matcher),
    Affix(AffixSegmentor),
    Coding(CodingSegmentor),
    Symbol(SymbolSegmentor),
}

/// The rule of a segmentor, whatever input it has seen.
pub enum Cutter {
    Match { tags: Seq<Seq<char>> },
    Affix {
        prefixes: Seq<Seq<char>>,
        suffix: Option<Seq<char>>,
        tags: Seq<Seq<char>>,
        tips: Option<Seq<char>>,
    },
    Code { tag: Seq<char> },
    Symbol { marks: Set<char>, prefix: Option<char>, tag: Seq<char> },
}

impl View for Segmentor {
    type V = Cutter;

    open spec fn view(&self) -> Cutter {
        match *self {
            Segmentor::Matcher(m) => Cutter::Match { tags: views(m.tags@) },
            Segmentor::Affix(a) => Cutter::Affix {
                prefixes: texts(a.prefixes@),
                suffix: text_opt(a.suffix),
                tags: affix_tags(a.tag@, views(a.extra_tags@)),
                tips: text_opt(a.tips),
            },
            Segmentor::Coding(c) => Cutter::Code { tag: c.tag@ },
            Segmentor::Symbol(c) => Cutter::Symbol {
                marks: c.mark_set(),
                prefix: c.symbol_prefix,
                tag: c.tag@,
            },
        }
    }
}

impl Cutter {
    /// The part that the segmentor takes at `pos`.
    pub open spec fn takes(self, s: Seq<char>, claims: Seq<Claim>, pos: int) -> Option<Part> {
        match self {
            Cutter::Match { tags } => matched(claims, tags, pos),
            Cutter::Affix { prefixes, suffix, tags, .. } => affixed(
                prefixes,
                suffix,
                tags,
                s,
                pos,
            ),
            Cutter::Code { tag } => coded(claims, tag, bytes_len(s) as int, pos),
            Cutter::Symbol { marks, prefix, tag } => symbolic(marks, prefix, tag, s, pos),
        }
    }

    /// The tags that the segmentor can give.
    pub open spec fn gives(self) -> Seq<Seq<char>> {
        match self {
            Cutter::Match { tags } => tags,
            Cutter::Affix { tags, .. } => tags,
            Cutter::Code { tag } => seq![tag],
            Cutter::Symbol { tag, .. } => seq![tag],
        }
    }

    /// The tag whose segments have a body, and where the body starts.
    pub open spec fn body(self) -> Option<(Seq<char>, int)> {
        match self {
            Cutter::Affix { prefixes, tags, .. } => Some(
                (
                    tags[0],
                    if prefixes.len() > 0 {
                        bytes_len(prefixes[0]) as int
                    } else {
                        0
                    },
                ),
            ),
            _ => None,
        }
    }
}

impl Segmentor {
    /// The claims of the last scan, where the segmentor keeps them.
    pub open spec fn seen(&self) -> Seq<Claim> {
        match *self {
            Segmentor::Matcher(m) => m.scan.claims@,
            Segmentor::Affix(a) => a.scan.claims@,
            Segmentor::Coding(c) => c.scan.claims@,
            Segmentor::Symbol(_) => seq![],
        }
    }

    /// Whether the segmentor goes by these claims, if by any.
    pub open spec fn follows(&self, claims: Seq<Claim>) -> bool {
        self is Symbol || self.seen() == claims
    }

    /// Takes the scan of another input.
    pub fn rescan(&mut self, scan: &InputScan)
        ensures
            final(self)@ == old(self)@,
            final(self).follows(scan.claims@),
    {
        match self {
            Segmentor::Matcher(m) => m.rescan_all(scan.clone()),
            Segmentor::Affix(a) => a.rescan_all(scan.clone()),
            Segmentor::Coding(c) => c.rescan_all(scan.clone()),
            Segmentor::Symbol(_) => {},
        }
    }

    /// Takes the next part of the input, where it belongs to this segmentor.
    pub fn proceed(&self, input: &str, segs: &mut Vec<Segment>) -> (r: bool)
        requires
            boundary(input@, end_of_parts(views(old(segs)@))),
        ensures
            appended(
                views(old(segs)@),
                views(final(segs)@),
                self@.takes(input@, self.seen(), end_of_parts(views(old(segs)@))),
                r,
            ),
    {
        match self {
            Segmentor::Matcher(m) => m.proceed(segs),
            Segmentor::Affix(a) => a.proceed(input, segs),
            Segmentor::Coding(c) => c.proceed(input, segs),
            Segmentor::Symbol(c) => c.proceed(input, segs),
        }
    }

    /// The tags that the segmentor can give.
    pub fn tags(&self) -> (r: Vec<Tag>)
        ensures
            views(r@) == self@.gives(),
    {
        match self {
            Segmentor::Matcher(m) => copy_tags(&m.tags),
            Segmentor::Affix(a) => {
                let mut v: Vec<Tag> = Vec::new();
                v.push(a.tag);
                let mut i: usize = 0;
                while i < a.extra_tags.len()
                    invariant
                        i <= a.extra_tags@.len(),
                        v@ == seq![a.tag] + a.extra_tags@.take(i as int),
                    decreases a.extra_tags.len() - i,
                {
                    v.push(a.extra_tags[i]);
                    i += 1;
                    assert(v@ =~= seq![a.tag] + a.extra_tags@.take(i as int));
                }
                assert(views(v@) =~= affix_tags(a.tag@, views(a.extra_tags@)));
                v
            },
            Segmentor::Coding(c) => one_tag(c.tag),
            Segmentor::Symbol(c) => one_tag(c.tag),
        }
    }

    /// The tag whose segments have a body, and where the body starts.
    pub fn body_start(&self) -> (r: Option<(Tag, usize)>)
        ensures
            match self@.body() {
                Some((t, n)) => r matches Some((x, k)) && x@ == t && k == n,
                None => r is None,
            },
    {
        match self {
            Segmentor::Affix(a) => {
                assert(affix_tags(a.tag@, views(a.extra_tags@))[0] == a.tag@);
                a.body_start()
            },
            _ => None,
        }
    }
}

fn one_tag(tag: Tag) -> (r: Vec<Tag>)
    ensures
        views(r@) == seq![tag@],
{
    let mut v: Vec<Tag> = Vec::new();
    v.push(tag);
    assert(views(v@) =~= seq![tag@]);
    v
}

// ---------------------------------------------------------------------------
// Translators
// ---------------------------------------------------------------------------

/// A translator from text to candidates.
#[derive(Debug)]
pub enum Translator {
    Exact(ExactCodeTranslator),
    Graph(SpellingGraphTranslator),
    Echo(EchoTranslator),
    Punct(PunctTranslator),
    Unicode(UnicodeTranslator),
    Number(NumberTranslator),
}

/// What a translator is asked.
pub struct Question {
    /// The whole input.
    pub input: Seq<char>,
    /// The text of the segment, without its prefix.
    pub text: Seq<char>,
    pub options: Map<Seq<char>, bool>,
    pub span: Span,
}

impl Translator {
    pub open spec fn wf(&self) -> bool {
        match *self {
            Translator::Exact(t) => t.alphabet.wf(),
            Translator::Graph(t) => t.spelling.wf(),
            Translator::Punct(t) => t.wf(),
            _ => true,
        }
    }

    /// A buffer of `cap` places after the translator has answered.
    pub open spec fn pours(&self, there: Seq<Cand>, q: Question, cap: int) -> Seq<Cand> {
        match *self {
            Translator::Exact(t) => poured(
                there,
                exact_cands(
                    t.lexicon.words(),
                    t.alphabet@,
                    t.completion,
                    t.quality,
                    q.text,
                    q.span,
                ),
                cap,
            ),
            Translator::Graph(t) => graph_cands(
                &t.spelling,
                t.lexicon.words(),
                t.completion,
                t.quality,
                q.text,
                q.span,
                there,
                cap,
            ),
            Translator::Echo(t) => poured(there, echo_cands(q.input, q.span, t.lift), cap),
            Translator::Punct(t) => poured(there, t.offers(q.options, q.text, q.span), cap),
            Translator::Unicode(t) => poured(
                there,
                inline_cands(unicode_for(t.prefix, q.text), q.span),
                cap,
            ),
            Translator::Number(t) => poured(
                there,
                inline_cands(number_for(t.prefix, q.text), q.span),
                cap,
            ),
        }
    }

    /// The tags of the segments that the translator is for; none where it is
    /// for every input.
    pub open spec fn aims(&self) -> Seq<Seq<char>> {
        match *self {
            Translator::Punct(_) => seq!["punct"@],
            Translator::Unicode(t) => views(t.tags@),
            Translator::Number(t) => views(t.tags@),
            _ => seq![],
        }
    }

    /// Whether the translator has anything to say where these tags stand.
    pub open spec fn admits(&self, active: Seq<Seq<char>>) -> bool {
        match *self {
            Translator::Exact(_) => true,
            Translator::Graph(_) => true,
            Translator::Echo(_) => true,
            _ => share_tag(active, self.aims()),
        }
    }

    pub fn translate(
        &self,
        input: &str,
        text: &str,
        options: &Options,
        span: Span,
        out: &mut Vec<Candidate>,
        cap: usize,
    )
        requires
            self.wf(),
            span.start + bytes_len(text@) <= usize::MAX,
        ensures
            views(final(out)@) == self.pours(
                views(old(out)@),
                (Question { input: input@, text: text@, options: options@, span }),
                cap as int,
            ),
    {
        match self {
            Translator::Exact(t) => t.translate(text, span, out, cap),
            Translator::Graph(t) => t.translate(text, span, out, cap),
            Translator::Echo(t) => t.translate(input, span, out, cap),
            Translator::Punct(t) => t.translate(text, options, span, out, cap),
            Translator::Unicode(t) => t.translate(text, span, out, cap),
            Translator::Number(t) => t.translate(text, span, out, cap),
        }
    }

    pub fn targets(&self) -> (r: Vec<Tag>)
        ensures
            views(r@) == self.aims(),
    {
        match self {
            Translator::Punct(_) => one_tag("punct"),
            Translator::Unicode(t) => copy_tags(&t.tags),
            Translator::Number(t) => copy_tags(&t.tags),
            _ => {
                let v: Vec<Tag> = Vec::new();
                assert(views(v@) =~= seq![]);
                v
            },
        }
    }

    pub fn accepts(&self, tags: &Vec<Tag>) -> (r: bool)
        ensures
            r == self.admits(views(tags@)),
    {
        match self {
            Translator::Exact(_) => true,
            Translator::Graph(_) => true,
            Translator::Echo(_) => true,
            _ => tags_meet(tags, &self.targets()),
        }
    }
}

/// A translator that is for segments with certain tags only.
#[derive(Debug)]
pub struct TaggedTranslator {
    pub inner: Translator,
    pub tags: Vec<Tag>,
    /// Whether the translator asks for the text without its prefix.
    pub strip_affix: bool,
}

impl TaggedTranslator {
    #[must_use]
    pub fn new(inner: Translator, tags: Vec<Tag>) -> (r: Self)
        ensures
            r == (TaggedTranslator { inner, tags, strip_affix: true }),
    {
        TaggedTranslator { inner, tags, strip_affix: true }
    }

    /// Notes that the translator asks for the text with its prefix.
    #[must_use]
    pub fn without_affix_stripping(self) -> (r: Self)
        ensures
            r == (TaggedTranslator { strip_affix: false, ..self }),
    {
        let mut r = self;
        r.strip_affix = false;
        r
    }

    /// Whether one of the tags is for this translator.
    #[must_use]
    pub fn accepts(&self, tags: &Vec<Tag>) -> (r: bool)
        ensures
            r == share_tag(views(tags@), views(self.tags@)),
    {
        tags_meet(tags, &self.tags)
    }
}

/// A translator of a pipeline, with tags or without.
#[derive(Debug)]
pub enum AnyTranslator {
    Plain(Translator),
    Tagged(TaggedTranslator),
}

impl AnyTranslator {
    /// The translator itself.
    pub open spec fn bare(&self) -> Translator {
        match *self {
            AnyTranslator::Plain(t) => t,
            AnyTranslator::Tagged(t) => t.inner,
        }
    }

    pub open spec fn aims(&self) -> Seq<Seq<char>> {
        match *self {
            AnyTranslator::Plain(t) => t.aims(),
            AnyTranslator::Tagged(t) => views(t.tags@),
        }
    }

    pub open spec fn admits(&self, active: Seq<Seq<char>>) -> bool {
        match *self {
            AnyTranslator::Plain(t) => t.admits(active),
            AnyTranslator::Tagged(t) => share_tag(active, views(t.tags@)),
        }
    }

    pub fn bare_ref(&self) -> (r: &Translator)
        ensures
            *r == self.bare(),
    {
        match self {
            AnyTranslator::Plain(t) => t,
            AnyTranslator::Tagged(t) => &t.inner,
        }
    }

    pub fn targets(&self) -> (r: Vec<Tag>)
        ensures
            views(r@) == self.aims(),
    {
        match self {
            AnyTranslator::Plain(t) => t.targets(),
            AnyTranslator::Tagged(t) => copy_tags(&t.tags),
        }
    }

    pub fn accepts(&self, tags: &Vec<Tag>) -> (r: bool)
        ensures
            r == self.admits(views(tags@)),
    {
        match self {
            AnyTranslator::Plain(t) => t.accepts(tags),
            AnyTranslator::Tagged(t) => t.accepts(tags),
        }
    }
}

// ---------------------------------------------------------------------------
// Filters
// ---------------------------------------------------------------------------

/// A filter of candidates.
#[derive(Debug)]
pub enum Filter {
    Uniquifier(Uniquifier),
    ReverseLookup(ReverseLookupFilter<TextIndex>),
    Converter(Converter),
    V(VFilter),
    ReduceEnglish(ReduceEnglishFilter),
    LongWord(LongWordFilter),
    AutoCap(AutoCapFilter),
    Pin(PinCandFilter),
}

impl Filter {
    pub open spec fn wf(&self) -> bool {
        match *self {
            Filter::Converter(f) => f.wf(),
            Filter::LongWord(f) => f.wf(),
            Filter::Pin(f) => f.wf(),
            _ => true,
        }
    }

    /// What the filter makes of the candidates for an input.
    pub open spec fn leaves(
        &self,
        input: Seq<char>,
        options: Map<Seq<char>, bool>,
        cs: Seq<Cand>,
    ) -> Seq<Cand> {
        match *self {
            Filter::Uniquifier(_) => unique(cs),
            Filter::ReverseLookup(f) => cs.map_values(|c: Cand| f.annotates(c)),
            Filter::Converter(f) => if f.active(options) {
                cs + f.added(cs)
            } else {
                cs
            },
            Filter::V(f) => f.moves(input, cs),
            Filter::ReduceEnglish(f) => f.moves(input, cs),
            Filter::LongWord(f) => f.moves(cs),
            Filter::AutoCap(_) => cs.map_values(|c: Cand| with_capitals(input, c)),
            Filter::Pin(f) => f.moves(input, cs),
        }
    }

    pub fn apply(&self, input: &str, options: &Options, cands: &mut Vec<Candidate>)
        requires
            self.wf(),
        ensures
            views(final(cands)@) == self.leaves(input@, options@, views(old(cands)@)),
    {
        let ghost before = views(cands@);
        match self {
            Filter::Uniquifier(f) => f.apply(cands),
            Filter::ReverseLookup(f) => {
                f.apply(cands);
                assert(views(cands@) =~= before.map_values(|c: Cand| f.annotates(c)));
            },
            Filter::Converter(f) => f.apply(options, cands),
            Filter::V(f) => f.apply(input, cands),
            Filter::ReduceEnglish(f) => f.apply(input, cands),
            Filter::LongWord(f) => f.apply(cands),
            Filter::AutoCap(f) => {
                f.apply(input, cands);
                assert(views(cands@) =~= before.map_values(|c: Cand| with_capitals(input@, c)));
            },
            Filter::Pin(f) => f.apply(input, cands),
        }
    }
}

/// A filter that is for inputs with certain tags only.
#[derive(Debug)]
pub struct TaggedFilter {
    pub inner: Filter,
    pub tags: Vec<Tag>,
}

impl TaggedFilter {
    #[must_use]
    pub fn new(inner: Filter, tags: Vec<Tag>) -> (r: Self)
        ensures
            r == (TaggedFilter { inner, tags }),
    {
        TaggedFilter { inner, tags }
    }

    /// Whether one of the tags is for this filter.
    #[must_use]
    pub fn applies_to(&self, tags: &Vec<Tag>) -> (r: bool)
        ensures
            r == share_tag(views(tags@), views(self.tags@)),
    {
        tags_meet(tags, &self.tags)
    }
}

/// A filter of a pipeline, with tags or without.
#[derive(Debug)]
pub enum AnyFilter {
    Plain(Filter),
    Tagged(TaggedFilter),
}

impl AnyFilter {
    /// The filter itself.
    pub open spec fn bare(&self) -> Filter {
        match *self {
            AnyFilter::Plain(f) => f,
            AnyFilter::Tagged(f) => f.inner,
        }
    }

    /// Whether the filter is for inputs with these tags.
    pub open spec fn admits(&self, active: Seq<Seq<char>>) -> bool {
        match *self {
            AnyFilter::Plain(_) => true,
            AnyFilter::Tagged(f) => share_tag(active, views(f.tags@)),
        }
    }

    pub fn bare_ref(&self) -> (r: &Filter)
        ensures
            *r == self.bare(),
    {
        match self {
            AnyFilter::Plain(f) => f,
            AnyFilter::Tagged(f) => &f.inner,
        }
    }

    pub fn applies_to(&self, tags: &Vec<Tag>) -> (r: bool)
        ensures
            r == self.admits(views(tags@)),
    {
        match self {
            AnyFilter::Plain(_) => true,
            AnyFilter::Tagged(f) => f.applies_to(tags),
        }
    }
}

} // verus!
