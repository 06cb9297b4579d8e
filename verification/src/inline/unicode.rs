//! Characters by their numbers, and random identifiers.

use vstd::prelude::*;
use crate::candidate::{Candidate, Span};
use crate::inline::{emit, inline_cands, rendered_view, Rendered};
use crate::memory::{le_bytes, put_number};
use crate::order::views;
use crate::spec::{UnicodeSpec, UuidSpec};
use crate::spelling::poured;
use crate::tag::Tag;
use crate::text::{
    char_of, char_text, hex_digit, hexadecimal, hexadecimal_text, is_char_number, is_digit,
    push_char, same_text, to_chars,
};

verus! {

// ---------------------------------------------------------------------------
// Characters by their numbers
// ---------------------------------------------------------------------------

/// Offers the character whose number follows a prefix, and those after it.
#[derive(Debug)]
pub struct UnicodeTranslator {
    pub prefix: char,
    pub tags: Vec<Tag>,
}

/// Whether a character is a hexadecimal digit.
pub open spec fn is_hex(c: char) -> bool {
    is_digit(c) || 'a' <= c <= 'f' || 'A' <= c <= 'F'
}

/// What a hexadecimal digit is worth.
pub open spec fn hex_worth(c: char) -> int {
    if is_digit(c) {
        c as int - 48
    } else if 'a' <= c <= 'f' {
        c as int - 87
    } else {
        c as int - 55
    }
}

/// What hexadecimal digits are worth.
pub open spec fn hex_value(s: Seq<char>) -> int
    decreases s.len(),
{
    if s.len() == 0 {
        0
    } else {
        16 * hex_value(s.drop_last()) + hex_worth(s.last())
    }
}

/// Whether all characters are hexadecimal digits.
pub open spec fn all_hex(s: Seq<char>) -> bool {
    forall|i: int| 0 <= i < s.len() ==> is_hex(#[trigger] s[i])
}

/// The last number of a character.
pub const LAST_CHAR: u32 = 0x10_FFFF;

/// The first number past the basic plane.
pub const BASIC_PLANE_END: u32 = 0x1_0000;

/// The characters that follow a number, up to `n` behind it, with how far
/// behind they are. Control characters are left out.
pub open spec fn following(code: int, n: int) -> Seq<(Seq<char>, Option<Seq<char>>)>
    decreases n,
{
    if n <= 0 {
        seq![]
    } else {
        let head = following(code, n - 1);
        if is_char_number(code + n) && code + n >= 0x20 {
            head.push(
                (
                    seq![(code + n) as char],
                    Some("U"@ + hexadecimal(code as nat) + "~"@ + hexadecimal(n as nat)),
                ),
            )
        } else {
            head
        }
    }
}

/// What an input stands for.
pub open spec fn unicode_for(prefix: char, s: Seq<char>) -> Seq<(Seq<char>, Option<Seq<char>>)> {
    let hex = s.skip(1);
    let code = hex_value(hex);
    if s.len() < 3 || s[0] != prefix || !all_hex(hex) {
        seq![]
    } else if !is_char_number(code) {
        seq![("数值超限！"@, None)]
    } else {
        seq![(seq![code as char], Some("U"@ + hexadecimal(code as nat)))] + following(
            code,
            if code < BASIC_PLANE_END {
                15
            } else {
                0
            },
        )
    }
}

fn hex_digit_worth(c: char) -> (r: Option<u32>)
    ensures
        match r {
            Some(d) => is_hex(c) && d == hex_worth(c) && d < 16,
            None => !is_hex(c),
        },
{
    if '0' <= c && c <= '9' {
        Some(c as u32 - 48)
    } else if 'a' <= c && c <= 'f' {
        Some(c as u32 - 87)
    } else if 'A' <= c && c <= 'F' {
        Some(c as u32 - 55)
    } else {
        None
    }
}

/// The value of hexadecimal digits: none where one is no such digit, and one
/// past the last character where it is larger than that.
fn read_hex(cs: &Vec<char>, from: usize) -> (r: Option<u32>)
    requires
        from <= cs@.len(),
    ensures
        ({
            let hex = cs@.skip(from as int);
            if !all_hex(hex) {
                r is None
            } else {
                r matches Some(v) && (v == hex_value(hex) || (v > LAST_CHAR && hex_value(hex)
                    > LAST_CHAR))
            }
        }),
{
    let ghost hex = cs@.skip(from as int);
    let mut acc: u32 = 0;
    let mut over = false;
    let mut i: usize = from;
    assert(hex.take(0) =~= seq![]);
    while i < cs.len()
        invariant
            from <= i <= cs@.len(),
            hex == cs@.skip(from as int),
            forall|j: int| 0 <= j < i - from ==> is_hex(#[trigger] hex[j]),
            !over ==> acc == hex_value(hex.take(i - from)),
            over ==> hex_value(hex.take(i - from)) > LAST_CHAR,
            acc <= LAST_CHAR,
        decreases cs.len() - i,
    {
        let c = cs[i];
        assert(hex[i - from] == c);
        match hex_digit_worth(c) {
            None => {
                return None;
            },
            Some(d) => {
                proof {
                    let t = hex.take(i - from + 1);
                    assert(t.drop_last() =~= hex.take(i - from));
                    assert(t.last() == c);
                }
                if !over {
                    let next: u32 = acc * 16 + d;
                    if next > LAST_CHAR {
                        over = true;
                    } else {
                        acc = next;
                    }
                }
            },
        }
        i += 1;
    }
    assert(hex.take(i - from) =~= hex);
    if over {
        Some(LAST_CHAR + 1)
    } else {
        Some(acc)
    }
}

impl UnicodeTranslator {
    pub fn new(spec: &UnicodeSpec, tags: Vec<Tag>) -> (r: Self)
        ensures
            r.prefix == spec.prefix,
            r.tags == tags,
    {
        UnicodeTranslator { prefix: spec.prefix, tags }
    }

    /// What an input stands for: the character with that number and, in the
    /// basic plane, those after it.
    pub fn render(&self, input: &str) -> (r: Rendered)
        ensures
            rendered_view(r@) == unicode_for(self.prefix, input@),
            r@.len() <= 16,
    {
        let cs = to_chars(input);
        let mut out: Rendered = Vec::new();
        assert(rendered_view(out@) =~= seq![]);
        if cs.len() < 3 || cs[0] != self.prefix {
            return out;
        }
        let code: u32 = match read_hex(&cs, 1) {
            Some(v) => v,
            None => {
                return out;
            },
        };
        let ghost value = hex_value(cs@.skip(1));
        let c = match char_of(code) {
            Some(c) => c,
            None => {
                out.push(("数值超限！".to_owned(), None));
                assert(rendered_view(out@) =~= unicode_for(self.prefix, input@));
                return out;
            },
        };
        assert(code == value);
        assert(c as int == value);
        assert((value as char) as int == value);
        let hex = hexadecimal_text(code as u64);
        let label = "U".to_owned().concat(hex.as_str());
        out.push((char_text(c), Some(label.clone())));
        let ghost first = (seq![value as char], Some("U"@ + hexadecimal(value as nat)));
        assert(rendered_view(out@) =~= seq![first]);
        assert(rendered_view(out@) =~= seq![first] + following(value, 0));
        if code < BASIC_PLANE_END {
            let mut i: u32 = 0;
            while i < 15
                invariant
                    i <= 15,
                    code == value,
                    code < BASIC_PLANE_END,
                    label@ == "U"@ + hexadecimal(value as nat),
                    out@.len() <= 1 + i,
                    rendered_view(out@) == seq![first] + following(value, i as int),
                decreases 15 - i,
            {
                i += 1;
                let n: u32 = code + i;
                let ghost had = rendered_view(out@);
                if let Some(nc) = char_of(n) {
                    if n >= 0x20 {
                        let comment = label.clone().concat("~").concat(
                            hexadecimal_text(i as u64).as_str(),
                        );
                        out.push((char_text(nc), Some(comment)));
                        assert(nc as int == value + i);
                        assert(((value + i) as char) as int == value + i);
                        assert(rendered_view(out@) =~= had.push(
                            (
                                seq![nc],
                                Some(
                                    "U"@ + hexadecimal(value as nat) + "~"@ + hexadecimal(
                                        i as nat,
                                    ),
                                ),
                            ),
                        ));
                    }
                }
                assert(rendered_view(out@) =~= seq![first] + following(value, i as int));
            }
        }
        out
    }

    /// Offers what [`UnicodeTranslator::render`] gives to a buffer of `cap`
    /// places.
    pub fn translate(&self, segment: &str, span: Span, out: &mut Vec<Candidate>, cap: usize)
        ensures
            views(final(out)@) == poured(
                views(old(out)@),
                inline_cands(unicode_for(self.prefix, segment@), span),
                cap as int,
            ),
    {
        let rendered = self.render(segment);
        emit(rendered, span, out, cap);
    }
}

// ---------------------------------------------------------------------------
// Identifiers
// ---------------------------------------------------------------------------

/// Offers a random identifier for a trigger word. The random numbers, it is
/// given.
#[derive(Debug)]
pub struct UuidTranslator {
    pub trigger: String,
    pub tags: Vec<Tag>,
}

/// The sixteen bytes of two numbers.
pub open spec fn random_bytes(a: u64, b: u64) -> Seq<u8> {
    le_bytes(a as nat, 8) + le_bytes(b as nat, 8)
}

/// The byte at `i` of a version-four identifier: two bytes carry the version
/// and the variant in their upper bits.
pub open spec fn uuid_byte(raw: Seq<u8>, i: int) -> int {
    if i == 6 {
        raw[i] as int % 16 + 0x40
    } else if i == 8 {
        raw[i] as int % 64 + 0x80
    } else {
        raw[i] as int
    }
}

/// The first `n` bytes of an identifier in hexadecimal, with its hyphens.
pub open spec fn uuid_text(raw: Seq<u8>, n: int) -> Seq<char>
    decreases n,
{
    if n <= 0 {
        seq![]
    } else {
        let head = uuid_text(raw, n - 1);
        let b = uuid_byte(raw, n - 1);
        (if n == 5 || n == 7 || n == 9 || n == 11 {
            head.push('-')
        } else {
            head
        }).push(hex_digit(b / 16)).push(hex_digit(b % 16))
    }
}

fn hex_char(d: u8) -> (r: char)
    requires
        d < 16,
    ensures
        r == hex_digit(d as int),
{
    if d < 10 {
        (d + 48) as char
    } else {
        (d - 10 + 97) as char
    }
}

/// What a trigger word stands for, given two random numbers.
pub open spec fn uuid_for(trigger: Seq<char>, s: Seq<char>, a: u64, b: u64) -> Seq<
    (Seq<char>, Option<Seq<char>>),
> {
    if s == trigger {
        seq![(uuid_text(random_bytes(a, b), 16), None)]
    } else {
        seq![]
    }
}

proof fn random_bytes_len(a: u64, b: u64)
    ensures
        random_bytes(a, b).len() == 16,
{
    reveal_with_fuel(le_bytes, 9);
}

impl UuidTranslator {
    pub fn new(spec: &UuidSpec, tags: Vec<Tag>) -> (r: Self)
        ensures
            r.trigger@ == spec.trigger@,
            r.tags == tags,
    {
        UuidTranslator { trigger: spec.trigger.clone(), tags }
    }

    /// An identifier made of two random numbers.
    pub fn generate(&self, a: u64, b: u64) -> (r: String)
        ensures
            r@ == uuid_text(random_bytes(a, b), 16),
    {
        let mut raw: Vec<u8> = Vec::new();
        put_number(&mut raw, a, 8);
        put_number(&mut raw, b, 8);
        proof {
            random_bytes_len(a, b);
            assert(raw@ =~= random_bytes(a, b));
        }
        let mut out = String::new();
        let mut i: usize = 0;
        assert(out@ =~= seq![]);
        while i < 16
            invariant
                i <= 16,
                raw@ == random_bytes(a, b),
                raw@.len() == 16,
                out@ == uuid_text(raw@, i as int),
            decreases 16 - i,
        {
            if i == 4 || i == 6 || i == 8 || i == 10 {
                push_char(&mut out, '-');
            }
            let byte: u8 = if i == 6 {
                raw[i] % 16 + 0x40
            } else if i == 8 {
                raw[i] % 64 + 0x80
            } else {
                raw[i]
            };
            push_char(&mut out, hex_char(byte / 16));
            push_char(&mut out, hex_char(byte % 16));
            i += 1;
        }
        out
    }

    /// Offers an identifier for the trigger word to a buffer of `cap` places.
    pub fn translate(
        &self,
        segment: &str,
        a: u64,
        b: u64,
        span: Span,
        out: &mut Vec<Candidate>,
        cap: usize,
    )
        ensures
            views(final(out)@) == poured(
                views(old(out)@),
                inline_cands(uuid_for(self.trigger@, segment@, a, b), span),
                cap as int,
            ),
    {
        let mut rendered: Rendered = Vec::new();
        if same_text(segment, self.trigger.as_str()) {
            rendered.push((self.generate(a, b), None));
        }
        assert(rendered_view(rendered@) =~= uuid_for(self.trigger@, segment@, a, b));
        emit(rendered, span, out, cap);
    }
}

// ---------------------------------------------------------------------------
// Laws
// ---------------------------------------------------------------------------

/// Every identifier has thirty-six characters, hyphens after the eighth,
/// twelfth, sixteenth and twentieth digit, the version digit 4, and one of four
/// variant digits.
pub proof fn identifiers_are_of_version_four(a: u64, b: u64)
    ensures
        ({
            let t = uuid_text(random_bytes(a, b), 16);
            &&& t.len() == 36
            &&& t[8] == '-' && t[13] == '-' && t[18] == '-' && t[23] == '-'
            &&& t[14] == '4'
            &&& t[19] == '8' || t[19] == '9' || t[19] == 'a' || t[19] == 'b'
        }),
{
    let raw = random_bytes(a, b);
    random_bytes_len(a, b);
    let t4 = uuid_text(raw, 4);
    let t6 = uuid_text(raw, 6);
    let t7 = uuid_text(raw, 7);
    let t8 = uuid_text(raw, 8);
    let t9 = uuid_text(raw, 9);
    let t10 = uuid_text(raw, 10);
    assert(uuid_text(raw, 0).len() == 0);
    assert(uuid_text(raw, 1).len() == 2);
    assert(uuid_text(raw, 2).len() == 4);
    assert(uuid_text(raw, 3).len() == 6);
    assert(t4.len() == 8);
    let t5 = uuid_text(raw, 5);
    assert(t5.len() == 11 && t5[8] == '-');
    assert(t6.len() == 13 && t6[8] == '-');
    assert(t7.len() == 16 && t7[8] == '-' && t7[13] == '-' && t7[14] == hex_digit(4));
    assert(t8.len() == 18 && t8[8] == '-' && t8[13] == '-' && t8[14] == '4');
    let v = uuid_byte(raw, 8);
    assert(8 <= v / 16 <= 11);
    assert(t9.len() == 21 && t9[8] == '-' && t9[13] == '-' && t9[14] == '4' && t9[18] == '-'
        && t9[19] == hex_digit(v / 16));
    assert(t9[19] == '8' || t9[19] == '9' || t9[19] == 'a' || t9[19] == 'b');
    assert(t10.len() == 23);
    let t11 = uuid_text(raw, 11);
    assert(t11.len() == 26 && t11[23] == '-');
    let t12 = uuid_text(raw, 12);
    let t13 = uuid_text(raw, 13);
    let t14 = uuid_text(raw, 14);
    let t15 = uuid_text(raw, 15);
    assert(t12.len() == 28 && t13.len() == 30 && t14.len() == 32 && t15.len() == 34);
}

} // verus!
