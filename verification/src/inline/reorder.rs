//! Filters that move candidates by what they are.

use vstd::prelude::*;
use crate::candidate::{append_clones, Cand, Candidate, CandidateKind};
use crate::order::views;
use crate::spec::{LongWordSpec, ReduceEnglishSpec, ReduceMode};
use crate::text::{
    all_ascii, ascii_letter, char_is_alphabetic, char_is_alphanumeric, char_text, from_chars,
    holds_text, is_alphabetic, is_alphanumeric, is_ascii, is_ascii_letter, is_digit, lower_case,
    lower_case_text, lowered, part, push_char, raised, split_on, split_text, starts_at, texts,
    to_chars, upper_case, upper_case_text,
};

verus! {

// ---------------------------------------------------------------------------
// Picking
// ---------------------------------------------------------------------------

/// The candidates with a property, in order.
pub open spec fn picked(cs: Seq<Cand>, p: spec_fn(Cand) -> bool) -> Seq<Cand>
    decreases cs.len(),
{
    if cs.len() == 0 {
        seq![]
    } else {
        let head = picked(cs.drop_last(), p);
        if p(cs.last()) {
            head.push(cs.last())
        } else {
            head
        }
    }
}

/// The candidates with a property, then the others, each in order.
pub open spec fn parted(cs: Seq<Cand>, p: spec_fn(Cand) -> bool) -> Seq<Cand> {
    picked(cs, p) + picked(cs, |c: Cand| !p(c))
}

// ---------------------------------------------------------------------------
// Single characters first
// ---------------------------------------------------------------------------

/// Puts single characters first behind a `v` and one more character.
#[derive(Debug)]
pub struct VFilter {
    /// Texts that go with the single characters, however long they are.
    pub exceptions: Vec<String>,
}

/// Whether an input is a `v` and one more character.
pub open spec fn v_mode(input: Seq<char>) -> bool {
    input.len() == 2 && input[0] == 'v'
}

/// Whether a text goes with the single characters.
pub open spec fn goes_first(exceptions: Seq<Seq<char>>, text: Seq<char>) -> bool {
    text.len() == 1 || exceptions.contains(text)
}

impl Default for VFilter {
    fn default() -> (r: Self)
        ensures
            texts(r.exceptions@) == seq![
                "0️⃣"@,
                "1️⃣"@,
                "2️⃣"@,
                "3️⃣"@,
                "4️⃣"@,
                "5️⃣"@,
                "6️⃣"@,
                "7️⃣"@,
                "8️⃣"@,
                "9️⃣"@,
                "Vs."@,
            ],
    {
        let exceptions: Vec<String> = vec![
            "0️⃣".to_owned(),
            "1️⃣".to_owned(),
            "2️⃣".to_owned(),
            "3️⃣".to_owned(),
            "4️⃣".to_owned(),
            "5️⃣".to_owned(),
            "6️⃣".to_owned(),
            "7️⃣".to_owned(),
            "8️⃣".to_owned(),
            "9️⃣".to_owned(),
            "Vs.".to_owned(),
        ];
        let r = VFilter { exceptions };
        assert(texts(r.exceptions@) =~= seq![
            "0️⃣"@,
            "1️⃣"@,
            "2️⃣"@,
            "3️⃣"@,
            "4️⃣"@,
            "5️⃣"@,
            "6️⃣"@,
            "7️⃣"@,
            "8️⃣"@,
            "9️⃣"@,
            "Vs."@,
        ]);
        r
    }
}

impl VFilter {
    pub fn new(exceptions: Vec<String>) -> (r: Self)
        ensures
            r.exceptions == exceptions,
    {
        VFilter { exceptions }
    }

    /// What the filter makes of a list.
    pub open spec fn moves(&self, input: Seq<char>, cs: Seq<Cand>) -> Seq<Cand> {
        if v_mode(input) {
            parted(cs, |c: Cand| goes_first(texts(self.exceptions@), c.text))
        } else {
            cs
        }
    }

    pub fn apply(&self, input: &str, cands: &mut Vec<Candidate>)
        ensures
            views(final(cands)@) == self.moves(input@, views(old(cands)@)),
    {
        let code = to_chars(input);
        if code.len() != 2 || code[0] != 'v' {
            return;
        }
        let ghost before = views(cands@);
        let ghost p = |c: Cand| goes_first(texts(self.exceptions@), c.text);
        let ghost q = |c: Cand| !p(c);
        let mut head: Vec<Candidate> = Vec::new();
        let mut tail: Vec<Candidate> = Vec::new();
        let mut i: usize = 0;
        assert(before.take(0) =~= seq![]);
        assert(views(head@) =~= seq![]);
        assert(views(tail@) =~= seq![]);
        while i < cands.len()
            invariant
                i <= cands@.len(),
                before == views(cands@),
                p == (|c: Cand| goes_first(texts(self.exceptions@), c.text)),
                q == (|c: Cand| !p(c)),
                views(head@) == picked(before.take(i as int), p),
                views(tail@) == picked(before.take(i as int), q),
            decreases cands.len() - i,
        {
            let c = cands[i].clone();
            let ghost v = c@;
            let ghost hv = views(head@);
            let ghost tv = views(tail@);
            proof {
                let t = before.take(i + 1);
                assert(t.drop_last() =~= before.take(i as int));
                assert(t.last() == v);
            }
            let n: usize = to_chars(c.text.as_str()).len();
            if n == 1 || holds_text(&self.exceptions, c.text.as_str()) {
                head.push(c);
                assert(views(head@) =~= hv.push(v));
            } else {
                tail.push(c);
                assert(views(tail@) =~= tv.push(v));
            }
            i += 1;
        }
        assert(before.take(i as int) =~= before);
        append_clones(&tail, &mut head);
        *cands = head;
    }
}

// ---------------------------------------------------------------------------
// English words down
// ---------------------------------------------------------------------------

/// Moves English words down where the code looks like a spelling.
#[derive(Debug)]
pub struct ReduceEnglishFilter {
    pub mode: ReduceMode,
    pub idx: usize,
    pub words: Vec<String>,
    pub builtin: Vec<String>,
}

/// Common short words that look like spellings.
pub open spec fn builtin_words() -> Seq<Seq<char>> {
    split_on(
        "aid aim air and ant any bad bag ban band bang bank bar bat bay bed ben bend bent bet bib bid big bin bit bob bog bop bow box boy bud bug bus but buy cab cad cam can cap car cat ceo chi cod cop cry cum cup cur cut dam day den dew did dig dim din dip dog dot dry dub dun duo ear eat egg end era err eye fad fan far fat fax fee few fig fin fit fix flu fly fog for fox fry fun fur gag gap gas gay gel gem get gin god got gum gun gut guy gym had ham has hat hay hen her hey hid him hip his hit hop hot how hub hug hum hut ice ill ink ion jar jaw jazz jet jog joy jug key kid kin kit lab lad lag lap law lay led leg let lid lie lip lit log lot low mad man map mat max may men met mix mob mom mop mud mug nap net new nil nip nod nor not now nun nut oak odd off oil old one our out owe owl own pad pal pan par pat paw pay pea peg pen per pet pie pig pin pit pod pop pot pro pub pup put ram ran rap rat raw ray red rib rid rig rim rip rob rod rot row rub rug rum run rut sad sag sail sam sap sat saw say sea see set sew she shy sin sip sir sis sit six ski sky sly sob sod son sow soy spa spy sub sue sum sun sup tab tag tan tap tar tax tea ten the tie tin tip toe ton too top toy try tub tug two ugh van vat vet via vow wag war was wax way web wed wet who why wig win wit woe wok won wow yak yam yap yes yet you zap zen zip zoo cd cn hk js ml mt ps pk as ak dj"@,
        ' ',
    )
}

/// Whether a text is one English word: ASCII, with a letter and without a
/// blank.
pub open spec fn english(text: Seq<char>) -> bool {
    &&& forall|i: int| 0 <= i < text.len() ==> is_ascii(#[trigger] text[i]) && text[i] != ' '
    &&& exists|i: int| 0 <= i < text.len() && is_ascii_letter(#[trigger] text[i])
}

/// Whether a text is one English word.
pub fn is_english_word(text: &str) -> (r: bool)
    ensures
        r == english(text@),
{
    let cs = to_chars(text);
    let mut letter = false;
    let mut i: usize = 0;
    while i < cs.len()
        invariant
            i <= cs@.len(),
            cs@ == text@,
            forall|j: int|
                0 <= j < i ==> is_ascii(#[trigger] text@[j]) && text@[j] != ' ',
            letter == exists|j: int| 0 <= j < i && is_ascii_letter(#[trigger] text@[j]),
        decreases cs.len() - i,
    {
        let c = cs[i];
        if c > '\x7f' || c == ' ' {
            assert(!english(text@));
            return false;
        }
        if ascii_letter(c) {
            assert(is_ascii_letter(text@[i as int]));
            letter = true;
        }
        i += 1;
    }
    letter
}

/// Texts in lower case.
pub open spec fn lower_cased(s: Seq<Seq<char>>) -> Seq<Seq<char>> {
    s.map_values(|w: Seq<char>| lower_case_text(w))
}

impl ReduceEnglishFilter {
    pub fn new(spec: &ReduceEnglishSpec) -> (r: Self)
        ensures
            r.mode == spec.mode,
            r.idx == (if spec.idx == 0 {
                1
            } else {
                spec.idx
            }),
            texts(r.words@) == lower_cased(texts(spec.words@)),
            texts(r.builtin@) == builtin_words(),
    {
        let mut words: Vec<String> = Vec::new();
        let mut i: usize = 0;
        while i < spec.words.len()
            invariant
                i <= spec.words@.len(),
                words@.len() == i,
                forall|j: int|
                    0 <= j < i ==> (#[trigger] words@[j])@ == lower_case_text(spec.words@[j]@),
            decreases spec.words.len() - i,
        {
            words.push(lower_case(spec.words[i].as_str()));
            i += 1;
        }
        assert(texts(words@) =~= lower_cased(texts(spec.words@)));
        ReduceEnglishFilter {
            mode: spec.mode,
            idx: if spec.idx == 0 {
                1
            } else {
                spec.idx
            },
            words,
            builtin: Self::builtin(),
        }
    }

    /// The built-in codes.
    pub fn builtin() -> (r: Vec<String>)
        ensures
            texts(r@) == builtin_words(),
    {
        split_text(
            "aid aim air and ant any bad bag ban band bang bank bar bat bay bed ben bend bent bet bib bid big bin bit bob bog bop bow box boy bud bug bus but buy cab cad cam can cap car cat ceo chi cod cop cry cum cup cur cut dam day den dew did dig dim din dip dog dot dry dub dun duo ear eat egg end era err eye fad fan far fat fax fee few fig fin fit fix flu fly fog for fox fry fun fur gag gap gas gay gel gem get gin god got gum gun gut guy gym had ham has hat hay hen her hey hid him hip his hit hop hot how hub hug hum hut ice ill ink ion jar jaw jazz jet jog joy jug key kid kin kit lab lad lag lap law lay led leg let lid lie lip lit log lot low mad man map mat max may men met mix mob mom mop mud mug nap net new nil nip nod nor not now nun nut oak odd off oil old one our out owe owl own pad pal pan par pat paw pay pea peg pen per pet pie pig pin pit pod pop pot pro pub pup put ram ran rap rat raw ray red rib rid rig rim rip rob rod rot row rub rug rum run rut sad sag sail sam sap sat saw say sea see set sew she shy sin sip sir sis sit six ski sky sly sob sod son sow soy spa spy sub sue sum sun sup tab tag tan tap tar tax tea ten the tie tin tip toe ton too top toy try tub tug two ugh van vat vet via vow wag war was wax way web wed wet who why wig win wit woe wok won wow yak yam yap yes yet you zap zen zip zoo cd cn hk js ml mt ps pk as ak dj",
            ' ',
        )
    }

    /// Whether a code moves English words down.
    pub open spec fn fires(&self, code: Seq<char>) -> bool {
        match self.mode {
            ReduceMode::Never => false,
            ReduceMode::Custom => texts(self.words@).contains(code),
            ReduceMode::All => texts(self.words@).contains(code) || texts(
                self.builtin@,
            ).contains(code),
        }
    }

    /// Whether a code moves English words down.
    #[must_use]
    pub fn triggers(&self, code: &str) -> (r: bool)
        ensures
            r == self.fires(code@),
    {
        match self.mode {
            ReduceMode::Never => false,
            ReduceMode::Custom => holds_text(&self.words, code),
            ReduceMode::All => holds_text(&self.words, code) || holds_text(&self.builtin, code),
        }
    }

    /// Whether a candidate is moved: a word of the user's own never is.
    pub open spec fn stays(c: Cand) -> bool {
        !(english(c.text) && c.kind != CandidateKind::UserTable)
    }

    /// What the filter makes of a list: among the first `idx` candidates the
    /// English words go behind the others.
    pub open spec fn moves(&self, input: Seq<char>, cs: Seq<Cand>) -> Seq<Cand> {
        if self.fires(input) {
            let n = if self.idx < cs.len() {
                self.idx as int
            } else {
                cs.len() as int
            };
            parted(cs.take(n), |c: Cand| Self::stays(c)) + cs.skip(n)
        } else {
            cs
        }
    }

    pub fn apply(&self, input: &str, cands: &mut Vec<Candidate>)
        ensures
            views(final(cands)@) == self.moves(input@, views(old(cands)@)),
    {
        if !self.triggers(input) {
            return;
        }
        let ghost before = views(cands@);
        let n: usize = if self.idx < cands.len() {
            self.idx
        } else {
            cands.len()
        };
        let ghost first = before.take(n as int);
        let ghost p = |c: Cand| Self::stays(c);
        let ghost q = |c: Cand| !p(c);
        let mut head: Vec<Candidate> = Vec::new();
        let mut down: Vec<Candidate> = Vec::new();
        let mut i: usize = 0;
        assert(first.take(0) =~= seq![]);
        assert(views(head@) =~= seq![]);
        assert(views(down@) =~= seq![]);
        while i < n
            invariant
                i <= n <= cands@.len(),
                before == views(cands@),
                first == before.take(n as int),
                p == (|c: Cand| Self::stays(c)),
                q == (|c: Cand| !p(c)),
                views(head@) == picked(first.take(i as int), p),
                views(down@) == picked(first.take(i as int), q),
            decreases n - i,
        {
            let c = cands[i].clone();
            let ghost v = c@;
            let ghost hv = views(head@);
            let ghost dv = views(down@);
            proof {
                let t = first.take(i + 1);
                assert(t.drop_last() =~= first.take(i as int));
                assert(t.last() == v);
            }
            if is_english_word(c.text.as_str()) && c.kind != CandidateKind::UserTable {
                down.push(c);
                assert(views(down@) =~= dv.push(v));
            } else {
                head.push(c);
                assert(views(head@) =~= hv.push(v));
            }
            i += 1;
        }
        assert(first.take(i as int) =~= first);
        append_clones(&down, &mut head);
        let ghost moved = views(head@);
        assert(moved =~= parted(first, p));
        let mut k: usize = n;
        assert(moved + before.subrange(n as int, n as int) =~= moved);
        while k < cands.len()
            invariant
                n <= k <= cands@.len(),
                before == views(cands@),
                views(head@) == moved + before.subrange(n as int, k as int),
            decreases cands.len() - k,
        {
            let ghost had = views(head@);
            head.push(cands[k].clone());
            assert(views(head@) =~= had.push(before[k as int]));
            k += 1;
            assert(views(head@) =~= moved + before.subrange(n as int, k as int));
        }
        assert(before.subrange(n as int, k as int) =~= before.skip(n as int));
        *cands = head;
    }
}

// ---------------------------------------------------------------------------
// Long words up
// ---------------------------------------------------------------------------

/// Moves words that are longer than the first candidate up to a place.
#[derive(Clone, Copy, Debug)]
pub struct LongWordFilter {
    /// How many words are moved at most.
    pub count: usize,
    /// The place, counted from one, that they are moved to.
    pub idx: usize,
}

/// Whether a text holds an ASCII letter or digit.
pub open spec fn has_alnum(text: Seq<char>) -> bool {
    exists|i: int| 0 <= i < text.len() && (is_ascii_letter(#[trigger] text[i]) || is_digit(text[i]))
}

/// The first `count` long words of a list, and the rest of it.
pub open spec fn long_words(cs: Seq<Cand>, count: int, base: int) -> (Seq<Cand>, Seq<Cand>)
    decreases cs.len(),
{
    if cs.len() == 0 {
        (seq![], seq![])
    } else {
        let (up, rest) = long_words(cs.drop_last(), count, base);
        let c = cs.last();
        if up.len() < count && c.text.len() > base && !has_alnum(c.text) {
            (up.push(c), rest)
        } else {
            (up, rest.push(c))
        }
    }
}

fn holds_alnum(cs: &Vec<char>) -> (r: bool)
    ensures
        r == has_alnum(cs@),
{
    let mut i: usize = 0;
    while i < cs.len()
        invariant
            i <= cs@.len(),
            forall|j: int|
                0 <= j < i ==> !(is_ascii_letter(#[trigger] cs@[j]) || is_digit(cs@[j])),
        decreases cs.len() - i,
    {
        let c = cs[i];
        if ascii_letter(c) || ('0' <= c && c <= '9') {
            assert(is_ascii_letter(cs@[i as int]) || is_digit(cs@[i as int]));
            return true;
        }
        i += 1;
    }
    false
}

impl LongWordFilter {
    pub open spec fn wf(&self) -> bool {
        self.idx >= 1
    }

    pub fn new(spec: &LongWordSpec) -> (r: Self)
        ensures
            r.wf(),
            r.count == (if spec.count == 0 {
                1
            } else {
                spec.count
            }),
            r.idx == (if spec.idx == 0 {
                1
            } else {
                spec.idx
            }),
    {
        LongWordFilter {
            count: if spec.count == 0 {
                1
            } else {
                spec.count
            },
            idx: if spec.idx == 0 {
                1
            } else {
                spec.idx
            },
        }
    }

    /// What the filter makes of a list: the candidates before the place stay,
    /// then come the long words, then the others.
    pub open spec fn moves(&self, cs: Seq<Cand>) -> Seq<Cand> {
        if cs.len() <= self.idx {
            cs
        } else {
            let (up, rest) = long_words(
                cs.skip(self.idx - 1),
                self.count as int,
                cs[0].text.len() as int,
            );
            cs.take(self.idx - 1) + up + rest
        }
    }

    pub fn apply(&self, cands: &mut Vec<Candidate>)
        requires
            self.wf(),
        ensures
            views(final(cands)@) == self.moves(views(old(cands)@)),
    {
        if cands.len() <= self.idx {
            return;
        }
        let ghost before = views(cands@);
        assert(before[0] == cands@[0]@);
        let base: usize = to_chars(cands[0].text.as_str()).len();
        let n: usize = self.idx - 1;
        let ghost tail = before.skip(n as int);
        let mut out: Vec<Candidate> = Vec::new();
        let mut i: usize = 0;
        assert(views(out@) =~= before.take(0));
        while i < n
            invariant
                i <= n < cands@.len(),
                before == views(cands@),
                views(out@) == before.take(i as int),
            decreases n - i,
        {
            let ghost had = views(out@);
            out.push(cands[i].clone());
            assert(views(out@) =~= had.push(before[i as int]));
            i += 1;
            assert(views(out@) =~= before.take(i as int));
        }
        let mut up: Vec<Candidate> = Vec::new();
        let mut rest: Vec<Candidate> = Vec::new();
        let mut k: usize = n;
        assert(tail.take(0) =~= seq![]);
        assert(views(up@) =~= seq![]);
        assert(views(rest@) =~= seq![]);
        while k < cands.len()
            invariant
                n <= k <= cands@.len(),
                before == views(cands@),
                tail == before.skip(n as int),
                base == before[0].text.len(),
                (views(up@), views(rest@)) == long_words(
                    tail.take(k - n),
                    self.count as int,
                    base as int,
                ),
            decreases cands.len() - k,
        {
            let c = cands[k].clone();
            let ghost v = c@;
            let ghost uv = views(up@);
            let ghost rv = views(rest@);
            proof {
                let t = tail.take(k - n + 1);
                assert(t.drop_last() =~= tail.take(k - n));
                assert(t.last() == v);
            }
            let text = to_chars(c.text.as_str());
            assert(uv.len() == up@.len());
            if up.len() < self.count && text.len() > base && !holds_alnum(&text) {
                up.push(c);
                assert(views(up@) =~= uv.push(v));
            } else {
                rest.push(c);
                assert(views(rest@) =~= rv.push(v));
            }
            k += 1;
        }
        assert(tail.take(k - n) =~= tail);
        append_clones(&up, &mut out);
        append_clones(&rest, &mut out);
        *cands = out;
    }
}

// ---------------------------------------------------------------------------
// Capitals
// ---------------------------------------------------------------------------

/// Writes English candidates with the capitals of the input.
#[derive(Clone, Copy, Debug)]
pub struct AutoCapFilter;

/// Whether a character is ASCII punctuation.
pub open spec fn is_punctuation(c: char) -> bool {
    '!' <= c <= '/' || ':' <= c <= '@' || '[' <= c <= '`' || '{' <= c <= '~'
}

pub open spec fn is_capital(c: char) -> bool {
    'A' <= c <= 'Z'
}

fn punctuation(c: char) -> (r: bool)
    ensures
        r == is_punctuation(c),
{
    ('!' <= c && c <= '/') || (':' <= c && c <= '@') || ('[' <= c && c <= '`') || ('{' <= c && c
        <= '~')
}

/// A text without punctuation and blanks.
pub open spec fn bare(s: Seq<char>) -> Seq<char>
    decreases s.len(),
{
    if s.len() == 0 {
        seq![]
    } else {
        let head = bare(s.drop_last());
        if is_punctuation(s.last()) || s.last() == ' ' {
            head
        } else {
            head.push(s.last())
        }
    }
}

/// A text without punctuation and blanks.
pub fn strip_punct(s: &str) -> (r: String)
    ensures
        r@ == bare(s@),
{
    let cs = to_chars(s);
    let mut out = String::new();
    let mut i: usize = 0;
    assert(cs@.take(0) =~= seq![]);
    assert(out@ =~= seq![]);
    while i < cs.len()
        invariant
            i <= cs@.len(),
            out@ == bare(cs@.take(i as int)),
        decreases cs.len() - i,
    {
        proof {
            let t = cs@.take(i + 1);
            assert(t.drop_last() =~= cs@.take(i as int));
            assert(t.last() == cs@[i as int]);
        }
        if !(punctuation(cs[i]) || cs[i] == ' ') {
            push_char(&mut out, cs[i]);
        }
        i += 1;
    }
    assert(cs@.take(i as int) =~= cs@);
    out
}

/// Whether a character is a letter, of any script.
pub open spec fn is_letter(c: char) -> bool {
    if is_ascii(c) {
        is_ascii_letter(c)
    } else {
        char_is_alphabetic(c)
    }
}

/// A text in upper case, of any script.
pub open spec fn in_capitals(s: Seq<char>) -> Seq<char> {
    if all_ascii(s) {
        raised(s)
    } else {
        upper_case_text(s)
    }
}

/// A text in lower case, of any script.
pub open spec fn in_small_letters(s: Seq<char>) -> Seq<char> {
    if all_ascii(s) {
        lowered(s)
    } else {
        lower_case_text(s)
    }
}

/// The first letter of a text, from `from` on.
pub open spec fn first_letter(s: Seq<char>, from: int) -> Option<int>
    decreases s.len() - from,
{
    if from < 0 || from >= s.len() {
        None
    } else if is_letter(s[from]) {
        Some(from)
    } else {
        first_letter(s, from + 1)
    }
}

/// A text with its first letter, or with all letters, as capitals. (The capital
/// of one letter may take several characters.)
pub open spec fn capitalised(s: Seq<char>, all: bool) -> Seq<char> {
    if all {
        in_capitals(s)
    } else {
        match first_letter(s, 0) {
            Some(i) => s.take(i) + in_capitals(seq![s[i]]) + s.skip(i + 1),
            None => s,
        }
    }
}

/// Whether a character is a Chinese character: one of the blocks of CJK
/// ideographs, or the ideographic zero.
pub open spec fn is_chinese(c: char) -> bool {
    let n = c as int;
    ||| n == 0x3007
    ||| 0x3400 <= n <= 0x4dbf
    ||| 0x4e00 <= n <= 0x9fff
    ||| 0xf900 <= n <= 0xfaff
    ||| 0x20000 <= n <= 0x3ffff
}

/// Whether a character may stand in a word: a letter or digit of any script but
/// the Chinese, or ASCII punctuation.
pub open spec fn stands_in_words(c: char) -> bool {
    ||| is_punctuation(c)
    ||| if is_ascii(c) {
        is_ascii_letter(c) || is_digit(c)
    } else {
        char_is_alphanumeric(c) && !is_chinese(c)
    }
}

/// Whether a text is made of letters, digits and punctuation alone.
pub open spec fn word_like(s: Seq<char>) -> bool {
    forall|i: int| 0 <= i < s.len() ==> stands_in_words(#[trigger] s[i])
}

/// Whether an input asks for capitals.
pub open spec fn asks_capitals(code: Seq<char>) -> bool {
    code.len() >= 2 && is_capital(code[0])
}

/// Whether a candidate takes the capitals of an input: it is a word, it is not
/// already what was typed, and it begins with that or completes it.
pub open spec fn takes_capitals(code: Seq<char>, c: Cand) -> bool {
    &&& word_like(c.text)
    &&& !code.is_prefix_of(bare(c.text))
    &&& c.kind == CandidateKind::Completion || in_small_letters(bare(code)).is_prefix_of(
        in_small_letters(bare(c.text)),
    )
}

/// A candidate with the capitals of an input.
pub open spec fn with_capitals(code: Seq<char>, c: Cand) -> Cand {
    if asks_capitals(code) && takes_capitals(code, c) {
        Cand { text: capitalised(c.text, is_capital(code[1])), ..c }
    } else {
        c
    }
}

fn chinese(c: char) -> (r: bool)
    ensures
        r == is_chinese(c),
{
    let n: u32 = c as u32;
    n == 0x3007 || (0x3400 <= n && n <= 0x4dbf) || (0x4e00 <= n && n <= 0x9fff) || (0xf900 <= n
        && n <= 0xfaff) || (0x20000 <= n && n <= 0x3ffff)
}

fn looks_like_word(cs: &Vec<char>) -> (r: bool)
    ensures
        r == word_like(cs@),
{
    let mut i: usize = 0;
    while i < cs.len()
        invariant
            i <= cs@.len(),
            forall|j: int| 0 <= j < i ==> stands_in_words(#[trigger] cs@[j]),
        decreases cs.len() - i,
    {
        let c = cs[i];
        if !punctuation(c) && (!is_alphanumeric(c) || chinese(c)) {
            assert(!stands_in_words(cs@[i as int]));
            return false;
        }
        i += 1;
    }
    true
}

fn capitalise(cs: &Vec<char>, all: bool) -> (r: String)
    ensures
        r@ == capitalised(cs@, all),
{
    let text = from_chars(cs.as_slice());
    if all {
        return upper_case(text.as_str());
    }
    let mut i: usize = 0;
    while i < cs.len()
        invariant
            i <= cs@.len(),
            !all,
            first_letter(cs@, 0) == first_letter(cs@, i as int),
        decreases cs.len() - i,
    {
        if is_alphabetic(cs[i]) {
            let mut out = part(cs, 0, i);
            out.append(upper_case(char_text(cs[i]).as_str()).as_str());
            out.append(part(cs, i + 1, cs.len()).as_str());
            assert(out@ =~= capitalised(cs@, all));
            return out;
        }
        i += 1;
    }
    text
}

impl AutoCapFilter {
    pub fn apply(&self, input: &str, cands: &mut Vec<Candidate>)
        ensures
            final(cands)@.len() == old(cands)@.len(),
            forall|i: int|
                0 <= i < old(cands)@.len() ==> views(final(cands)@)[i] == with_capitals(
                    input@,
                    #[trigger] views(old(cands)@)[i],
                ),
    {
        let code = to_chars(input);
        if code.len() < 2 || !('A' <= code[0] && code[0] <= 'Z') {
            return;
        }
        let all = 'A' <= code[1] && code[1] <= 'Z';
        let pure_code = lower_case(strip_punct(input).as_str());
        let ghost before = views(cands@);
        let mut i: usize = 0;
        while i < cands.len()
            invariant
                i <= cands@.len(),
                code@ == input@,
                asks_capitals(input@),
                all == is_capital(input@[1]),
                pure_code@ == in_small_letters(bare(input@)),
                before == views(old(cands)@),
                cands@.len() == old(cands)@.len(),
                forall|j: int| i <= j < cands@.len() ==> (#[trigger] cands@[j])@ == before[j],
                forall|j: int|
                    0 <= j < i ==> (#[trigger] cands@[j])@ == with_capitals(input@, before[j]),
            decreases cands.len() - i,
        {
            let mut c = cands[i].clone();
            let text = to_chars(c.text.as_str());
            let pure_text = strip_punct(c.text.as_str());
            let pure = to_chars(pure_text.as_str());
            let low = to_chars(lower_case(pure_text.as_str()).as_str());
            assert(pure@.skip(0) =~= pure@);
            assert(low@.skip(0) =~= low@);
            if looks_like_word(&text) && !starts_at(&pure, 0, input) && (c.kind
                == CandidateKind::Completion || starts_at(&low, 0, pure_code.as_str())) {
                c.text = capitalise(&text, all);
            }
            assert(c@ == with_capitals(input@, before[i as int]));
            cands.set(i, c);
            i += 1;
        }
    }
}

// ---------------------------------------------------------------------------
// Laws
// ---------------------------------------------------------------------------

proof fn parted_is_a_permutation(cs: Seq<Cand>, p: spec_fn(Cand) -> bool)
    ensures
        parted(cs, p).to_multiset() == cs.to_multiset(),
    decreases cs.len(),
{
    broadcast use vstd::seq_lib::group_to_multiset_ensures;

    let q = |c: Cand| !p(c);
    if cs.len() == 0 {
        assert(parted(cs, p) =~= cs);
    } else {
        let head = cs.drop_last();
        let c = cs.last();
        parted_is_a_permutation(head, p);
        assert(cs =~= head.push(c));
        let a = picked(head, p);
        let b = picked(head, q);
        vstd::seq_lib::lemma_multiset_commutative(a, b);
        if p(c) {
            vstd::seq_lib::lemma_multiset_commutative(a.push(c), b);
            assert(parted(cs, p) =~= a.push(c) + b);
        } else {
            vstd::seq_lib::lemma_multiset_commutative(a, b.push(c));
            assert(parted(cs, p) =~= a + b.push(c));
        }
        assert(parted(cs, p).to_multiset() =~= cs.to_multiset());
    }
}

/// Putting single characters first loses and adds no candidate.
pub proof fn single_characters_first_is_a_permutation(
    f: &VFilter,
    input: Seq<char>,
    cs: Seq<Cand>,
)
    ensures
        f.moves(input, cs).to_multiset() == cs.to_multiset(),
{
    parted_is_a_permutation(cs, |c: Cand| goes_first(texts(f.exceptions@), c.text));
}

/// Moving English words down loses and adds no candidate.
pub proof fn english_down_is_a_permutation(
    f: &ReduceEnglishFilter,
    input: Seq<char>,
    cs: Seq<Cand>,
)
    ensures
        f.moves(input, cs).to_multiset() == cs.to_multiset(),
{
    if f.fires(input) {
        let n = if f.idx < cs.len() {
            f.idx as int
        } else {
            cs.len() as int
        };
        let p = |c: Cand| ReduceEnglishFilter::stays(c);
        parted_is_a_permutation(cs.take(n), p);
        vstd::seq_lib::lemma_multiset_commutative(parted(cs.take(n), p), cs.skip(n));
        vstd::seq_lib::lemma_multiset_commutative(cs.take(n), cs.skip(n));
        assert(cs.take(n) + cs.skip(n) =~= cs);
    }
}

/// No more than `idx` candidates move when English words go down: the rest
/// stays where it was.
pub proof fn english_down_leaves_the_rest(
    f: &ReduceEnglishFilter,
    input: Seq<char>,
    cs: Seq<Cand>,
    i: int,
)
    requires
        f.idx <= i < cs.len(),
    ensures
        f.moves(input, cs).len() == cs.len(),
        f.moves(input, cs)[i] == cs[i],
{
    if f.fires(input) {
        let n = f.idx as int;
        parted_len(cs.take(n), |c: Cand| ReduceEnglishFilter::stays(c));
    }
}

proof fn parted_len(cs: Seq<Cand>, p: spec_fn(Cand) -> bool)
    ensures
        parted(cs, p).len() == cs.len(),
    decreases cs.len(),
{
    if cs.len() > 0 {
        parted_len(cs.drop_last(), p);
    }
}

proof fn long_words_split(cs: Seq<Cand>, count: int, base: int)
    ensures
        ({
            let (up, rest) = long_words(cs, count, base);
            (up + rest).to_multiset() == cs.to_multiset()
        }),
    decreases cs.len(),
{
    broadcast use vstd::seq_lib::group_to_multiset_ensures;

    let (up, rest) = long_words(cs, count, base);
    if cs.len() == 0 {
        assert(up + rest =~= cs);
    } else {
        let head = cs.drop_last();
        let c = cs.last();
        let (a, b) = long_words(head, count, base);
        long_words_split(head, count, base);
        assert(cs =~= head.push(c));
        vstd::seq_lib::lemma_multiset_commutative(a, b);
        vstd::seq_lib::lemma_multiset_commutative(up, rest);
        assert((up + rest).to_multiset() =~= cs.to_multiset());
    }
}

/// Moving long words up loses and adds no candidate.
pub proof fn long_words_up_is_a_permutation(f: &LongWordFilter, cs: Seq<Cand>)
    requires
        f.wf(),
    ensures
        f.moves(cs).to_multiset() == cs.to_multiset(),
{
    if cs.len() > f.idx {
        let n = f.idx - 1;
        let (up, rest) = long_words(cs.skip(n), f.count as int, cs[0].text.len() as int);
        long_words_split(cs.skip(n), f.count as int, cs[0].text.len() as int);
        vstd::seq_lib::lemma_multiset_commutative(cs.take(n), up + rest);
        vstd::seq_lib::lemma_multiset_commutative(cs.take(n), cs.skip(n));
        assert(cs.take(n) + cs.skip(n) =~= cs);
        assert(f.moves(cs) =~= cs.take(n) + (up + rest));
    }
}

proof fn picking_is_filtering(cs: Seq<Cand>, p: spec_fn(Cand) -> bool, q: spec_fn(Cand) -> bool)
    requires
        forall|c: Cand| #[trigger] p(c) == q(c),
    ensures
        picked(cs, p) == cs.filter(q),
    decreases cs.len(),
{
    reveal(Seq::filter);
    if cs.len() > 0 {
        picking_is_filtering(cs.drop_last(), p, q);
        assert(p(cs.last()) == q(cs.last()));
    }
}

proof fn parting_is_filtering(
    cs: Seq<Cand>,
    p: spec_fn(Cand) -> bool,
    q: spec_fn(Cand) -> bool,
    r: spec_fn(Cand) -> bool,
)
    requires
        forall|c: Cand| #[trigger] p(c) == q(c),
        forall|c: Cand| #[trigger] r(c) == !q(c),
    ensures
        parted(cs, p) == cs.filter(q) + cs.filter(r),
{
    picking_is_filtering(cs, p, q);
    let n = |c: Cand| !p(c);
    assert forall|c: Cand| #[trigger] n(c) == r(c) by {
        assert(p(c) == q(c));
        assert(r(c) == !q(c));
    }
    picking_is_filtering(cs, n, r);
}

/// Behind a `v` and one character come the texts of one character and the
/// exceptions, in the order they had, and all others behind them, in theirs.
/// Behind any other input nothing moves.
pub proof fn single_characters_come_first(f: &VFilter, c: char, input: Seq<char>, cs: Seq<Cand>)
    ensures
        f.moves(seq!['v', c], cs) == cs.filter(
            |x: Cand| x.text.len() == 1 || texts(f.exceptions@).contains(x.text),
        ) + cs.filter(|x: Cand| x.text.len() != 1 && !texts(f.exceptions@).contains(x.text)),
        input.len() != 2 || input[0] != 'v' ==> f.moves(input, cs) == cs,
{
    let p = |x: Cand| goes_first(texts(f.exceptions@), x.text);
    let q = |x: Cand| x.text.len() == 1 || texts(f.exceptions@).contains(x.text);
    let r = |x: Cand| x.text.len() != 1 && !texts(f.exceptions@).contains(x.text);
    parting_is_filtering(cs, p, q, r);
}

/// Whether a text is an English word: ASCII throughout, with a letter, without a
/// blank.
pub open spec fn in_english(text: Seq<char>) -> bool {
    &&& forall|i: int| 0 <= i < text.len() ==> (#[trigger] text[i] as int) < 128 && text[i] != ' '
    &&& exists|i: int|
        0 <= i < text.len() && ('a' <= #[trigger] text[i] <= 'z' || 'A' <= text[i] <= 'Z')
}

/// Where a code asks for it, the English words among the first `idx` candidates
/// go behind the others of those, but for the user's own words; each part keeps
/// its order. A filter that never fires moves nothing, and one with words of
/// its own fires for each of them.
pub proof fn english_words_go_down(
    f: &ReduceEnglishFilter,
    code: Seq<char>,
    cs: Seq<Cand>,
    n: int,
)
    requires
        0 <= n <= cs.len(),
        n == f.idx || n == cs.len() && n < f.idx,
    ensures
        f.mode == ReduceMode::Never ==> f.moves(code, cs) == cs,
        f.mode == ReduceMode::Custom && !texts(f.words@).contains(code) ==> f.moves(code, cs) == cs,
        !texts(f.words@).contains(code) && !texts(f.builtin@).contains(code) ==> f.moves(code, cs)
            == cs,
        f.mode != ReduceMode::Never && texts(f.words@).contains(code) || f.mode == ReduceMode::All
            && texts(f.builtin@).contains(code) ==> f.moves(code, cs) == cs.take(n).filter(
            |c: Cand| !in_english(c.text) || c.kind == CandidateKind::UserTable,
        ) + cs.take(n).filter(
            |c: Cand| in_english(c.text) && c.kind != CandidateKind::UserTable,
        ) + cs.skip(n),
{
    let p = |c: Cand| ReduceEnglishFilter::stays(c);
    let q = |c: Cand| !in_english(c.text) || c.kind == CandidateKind::UserTable;
    let r = |c: Cand| in_english(c.text) && c.kind != CandidateKind::UserTable;
    assert forall|c: Cand| #[trigger] p(c) == q(c) by {
        english_is_english(c.text);
    }
    parting_is_filtering(cs.take(n), p, q, r);
}

proof fn english_is_english(text: Seq<char>)
    ensures
        english(text) == in_english(text),
{
    if english(text) {
        let i = choose|i: int| 0 <= i < text.len() && is_ascii_letter(#[trigger] text[i]);
        assert('a' <= text[i] <= 'z' || 'A' <= text[i] <= 'Z');
        assert(forall|i: int| 0 <= i < text.len() ==> is_ascii(#[trigger] text[i]));
    }
    if in_english(text) {
        let i = choose|i: int|
            0 <= i < text.len() && ('a' <= #[trigger] text[i] <= 'z' || 'A' <= text[i] <= 'Z');
        assert(is_ascii_letter(text[i]));
        assert forall|j: int| 0 <= j < text.len() implies is_ascii(#[trigger] text[j]) && text[j]
            != ' ' by {
            assert((text[j] as int) < 128);
        }
    }
}

proof fn long_words_are_the_first(cs: Seq<Cand>, count: int, base: int, p: spec_fn(Cand) -> bool)
    requires
        count >= 0,
        forall|c: Cand| #[trigger] p(c) == (c.text.len() > base && !has_alnum(c.text)),
    ensures
        ({
            let (up, rest) = long_words(cs, count, base);
            let all = cs.filter(p);
            &&& all.len() <= count ==> up == all
            &&& all.len() > count ==> up == all.take(count)
            &&& rest.len() + up.len() == cs.len()
            &&& all.len() <= count ==> rest == cs.filter(|c: Cand| !p(c))
        }),
    decreases cs.len(),
{
    reveal(Seq::filter);
    if cs.len() > 0 {
        let c = cs.last();
        long_words_are_the_first(cs.drop_last(), count, base, p);
        assert(p(c) == (c.text.len() > base && !has_alnum(c.text)));
        let was = cs.drop_last().filter(p);
        let all = cs.filter(p);
        let (up, rest) = long_words(cs, count, base);
        if p(c) {
            assert(all == was.push(c));
            if was.len() >= count {
                assert(all.take(count) =~= was.take(count));
                assert(was.take(was.len() as int) =~= was);
            }
        }
    }
}

/// Long words come up to their place: those before it stay, then come the words
/// with more characters than the first candidate and without letters or digits
/// of ASCII, the first `count` of them in their order; where there are no more
/// of them, all others follow in theirs.
pub proof fn long_words_come_up(f: &LongWordFilter, cs: Seq<Cand>)
    requires
        f.wf(),
        cs.len() > f.idx,
    ensures
        ({
            let n = f.idx - 1;
            let long = |c: Cand| c.text.len() > cs[0].text.len() && !has_alnum(c.text);
            let all = cs.skip(n).filter(long);
            let k = if all.len() < f.count {
                all.len() as int
            } else {
                f.count as int
            };
            &&& f.moves(cs).len() == cs.len()
            &&& f.moves(cs).take(n) == cs.take(n)
            &&& f.moves(cs).subrange(n, n + k) == all.take(k)
            &&& all.len() <= f.count ==> f.moves(cs).skip(n + k) == cs.skip(n).filter(
                |c: Cand| !long(c),
            )
        }),
{
    let n = f.idx - 1;
    let base = cs[0].text.len() as int;
    let long = |c: Cand| c.text.len() > cs[0].text.len() && !has_alnum(c.text);
    long_words_are_the_first(cs.skip(n), f.count as int, base, long);
    let (up, rest) = long_words(cs.skip(n), f.count as int, base);
    let all = cs.skip(n).filter(long);
    let k = if all.len() < f.count {
        all.len() as int
    } else {
        f.count as int
    };
    assert(all.take(all.len() as int) =~= all);
    assert(up == all.take(k));
    let m = f.moves(cs);
    assert(m == cs.take(n) + up + rest);
    assert(m.take(n) =~= cs.take(n));
    assert(m.subrange(n, n + k) =~= up);
    assert(m.skip(n + k) =~= rest);
}

proof fn letters_are_bare(s: Seq<char>)
    requires
        forall|i: int|
            0 <= i < s.len() ==> ('a' <= #[trigger] s[i] <= 'z' || 'A' <= s[i] <= 'Z'),
    ensures
        bare(s) == s,
    decreases s.len(),
{
    if s.len() > 0 {
        let t = s.drop_last();
        assert forall|i: int| 0 <= i < t.len() implies ('a' <= #[trigger] t[i] <= 'z' || 'A' <= t[i]
            <= 'Z') by {
            assert(t[i] == s[i]);
        }
        letters_are_bare(t);
        let c = s[s.len() - 1];
        assert('a' <= c <= 'z' || 'A' <= c <= 'Z');
        assert(s =~= t.push(c));
    }
}

/// A word in small letters that begins with what was typed takes its capitals:
/// all of them where two were typed, the first alone where one was. A small
/// letter at the beginning of the input leaves every candidate as it is.
pub proof fn capitals_are_taken(code: Seq<char>, c: Cand, i: int)
    requires
        code.len() >= 2,
        forall|j: int|
            0 <= j < code.len() ==> ('a' <= #[trigger] code[j] <= 'z' || 'A' <= code[j] <= 'Z'),
        forall|j: int| 0 <= j < c.text.len() ==> 'a' <= #[trigger] c.text[j] <= 'z',
        0 <= i < c.text.len(),
        code.len() <= c.text.len(),
        forall|j: int|
            0 <= j < code.len() ==> c.text[j] == #[trigger] code[j] || c.text[j] as int
                == code[j] as int + 32,
    ensures
        ({
            let r = with_capitals(code, c);
            let small = c.text[i] as int;
            &&& r == (Cand { text: r.text, ..c })
            &&& r.text.len() == c.text.len()
            &&& 'A' <= code[0] <= 'Z' && 'A' <= code[1] <= 'Z' ==> r.text[i] as int == small - 32
            &&& 'A' <= code[0] <= 'Z' && 'a' <= code[1] <= 'z' ==> r.text[i] as int == (if i == 0 {
                small - 32
            } else {
                small
            })
            &&& 'a' <= code[0] <= 'z' ==> r == c
        }),
{
    let t = c.text;
    assert('a' <= t[i] <= 'z');
    assert('a' <= t[0] <= 'z');
    letters_are_bare(code);
    letters_are_bare(t);
    assert(all_ascii(code));
    assert(all_ascii(t));
    assert forall|j: int| 0 <= j < t.len() implies stands_in_words(#[trigger] t[j]) by {
        assert('a' <= t[j] <= 'z');
    }
    if 'A' <= code[0] <= 'Z' {
        assert(asks_capitals(code));
        assert(!code.is_prefix_of(t)) by {
            if code.is_prefix_of(t) {
                assert(code[0] == t[0]);
            }
        }
        assert(lowered(code).is_prefix_of(lowered(t))) by {
            assert forall|j: int| 0 <= j < code.len() implies #[trigger] lowered(code)[j]
                == lowered(t)[j] by {
                assert(c.text[j] == code[j] || c.text[j] as int == code[j] as int + 32);
                assert('a' <= t[j] <= 'z');
            }
            assert(lowered(code) =~= lowered(t).take(code.len() as int));
        }
        assert(first_letter(t, 0) == Some(0int));
        assert(all_ascii(seq![t[0]]));
        assert(raised(seq![t[0]]) =~= seq![(t[0] as int - 32) as char]);
    }
}

/// Capitals change no candidate that is no word, or that already stands as it
/// was typed.
pub proof fn other_texts_take_no_capitals(code: Seq<char>, c: Cand, i: int)
    ensures
        code.len() < 2 ==> with_capitals(code, c) == c,
        code.is_prefix_of(bare(c.text)) ==> with_capitals(code, c) == c,
        0 <= i < c.text.len() && (0x4e00 <= c.text[i] as int <= 0x9fff || c.text[i] == ' ')
            ==> with_capitals(code, c) == c,
{
    if 0 <= i < c.text.len() && (0x4e00 <= c.text[i] as int <= 0x9fff || c.text[i] == ' ') {
        assert(!stands_in_words(c.text[i]));
    }
}

} // verus!
