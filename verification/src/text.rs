//! Text helpers: characters, byte lengths, ordering and small renderings.
//!
//! Contracts speak of a text as a `Seq<char>`; byte offsets are offsets into
//! the UTF-8 encoding of that sequence.

use vstd::prelude::*;
use vstd::utf8::{encode_scalar, encode_utf8};

verus! {

/// Whether the Unicode tables of the standard library class `c` as alphanumeric.
pub uninterp spec fn char_is_alphanumeric(c: char) -> bool;

/// `char::is_alphanumeric`: the answer depends on the character alone. Of the
/// ASCII characters, these are the letters and the digits.
#[verifier::external_body]
pub(crate) fn is_alphanumeric(c: char) -> (r: bool)
    ensures
        r == char_is_alphanumeric(c),
        is_ascii(c) ==> r == (is_ascii_letter(c) || is_digit(c)),
{
    c.is_alphanumeric()
}

/// Whether the Unicode tables of the standard library class `c` as alphabetic.
pub uninterp spec fn char_is_alphabetic(c: char) -> bool;

/// `char::is_alphabetic`: the answer depends on the character alone. Of the
/// ASCII characters, these are the letters.
#[verifier::external_body]
pub(crate) fn is_alphabetic(c: char) -> (r: bool)
    ensures
        r == char_is_alphabetic(c),
        is_ascii(c) ==> r == is_ascii_letter(c),
{
    c.is_alphabetic()
}

/// Whether a character is white space: the Unicode property `White_Space`.
pub open spec fn char_is_whitespace(c: char) -> bool {
    let n = c as int;
    ||| 0x9 <= n <= 0xd
    ||| n == 0x20
    ||| n == 0x85
    ||| n == 0xa0
    ||| n == 0x1680
    ||| 0x2000 <= n <= 0x200a
    ||| 0x2028 <= n <= 0x2029
    ||| n == 0x202f
    ||| n == 0x205f
    ||| n == 0x3000
}

/// Decides [`char_is_whitespace`].
pub(crate) fn is_whitespace(c: char) -> (r: bool)
    ensures
        r == char_is_whitespace(c),
{
    let n: u32 = c as u32;
    (0x9 <= n && n <= 0xd) || n == 0x20 || n == 0x85 || n == 0xa0 || n == 0x1680 || (0x2000 <= n
        && n <= 0x200a) || (0x2028 <= n && n <= 0x2029) || n == 0x202f || n == 0x205f || n
        == 0x3000
}

/// `String::push`: appends one character and changes nothing else.
#[verifier::external_body]
pub(crate) fn push_char(s: &mut String, c: char)
    ensures
        final(s)@ == old(s)@.push(c),
{
    s.push(c)
}

/// The characters of `s`, in order.
pub fn to_chars(s: &str) -> (r: Vec<char>)
    ensures
        r@ == s@,
{
    let mut v: Vec<char> = Vec::new();
    for c in it: s.chars()
        invariant
            v@ == it.seq().take(it.index() as int),
            it.seq() == s@,
    {
        v.push(c);
    }
    v
}

/// The text made of `cs`.
pub fn from_chars(cs: &[char]) -> (r: String)
    ensures
        r@ == cs@,
{
    let mut s = String::new();
    let mut i: usize = 0;
    while i < cs.len()
        invariant
            i <= cs.len(),
            s@ == cs@.take(i as int),
        decreases cs.len() - i,
    {
        push_char(&mut s, cs[i]);
        i += 1;
    }
    s
}

/// An ASCII digit.
pub open spec fn is_digit(c: char) -> bool {
    '0' <= c && c <= '9'
}

/// Decides [`is_digit`].
pub fn is_ascii_digit(c: char) -> (r: bool)
    ensures
        r == is_digit(c),
{
    '0' <= c && c <= '9'
}

/// Whether two texts hold the same characters.
pub fn same_text(a: &str, b: &str) -> (r: bool)
    ensures
        r == (a@ == b@),
{
    let x = to_chars(a);
    let y = to_chars(b);
    if x.len() != y.len() {
        return false;
    }
    let mut i: usize = 0;
    while i < x.len()
        invariant
            i <= x.len(),
            x.len() == y.len(),
            x@ == a@,
            y@ == b@,
            forall|j: int| 0 <= j < i ==> x@[j] == y@[j],
        decreases x.len() - i,
    {
        if x[i] != y[i] {
            return false;
        }
        i += 1;
    }
    assert(a@ =~= b@);
    true
}

/// The number of bytes in the UTF-8 encoding of `s`.
pub fn byte_len(s: &str) -> (r: usize)
    ensures
        r == encode_utf8(s@).len(),
{
    s.as_bytes().len()
}

/// The digit that writes `d`.
pub open spec fn digit_char(d: int) -> char {
    ('0' as int + d) as char
}

/// `n` in decimal, without leading zeros.
pub open spec fn decimal(n: nat) -> Seq<char>
    decreases n,
{
    if n < 10 {
        seq![digit_char(n as int)]
    } else {
        decimal(n / 10).push(digit_char((n % 10) as int))
    }
}

/// Renders [`decimal`].
pub fn decimal_text(n: u64) -> (r: String)
    ensures
        r@ == decimal(n as nat),
    decreases n,
{
    let mut s = if n < 10 {
        String::new()
    } else {
        decimal_text(n / 10)
    };
    let d: u8 = (n % 10) as u8;
    push_char(&mut s, (48 + d) as char);
    assert(s@ =~= decimal(n as nat));
    s
}

/// Strict dictionary order by code point, which is the order of the UTF-8
/// bytes as well.
pub open spec fn text_less(a: Seq<char>, b: Seq<char>) -> bool
    decreases a.len(),
{
    if b.len() == 0 {
        false
    } else if a.len() == 0 {
        true
    } else {
        a[0] < b[0] || (a[0] == b[0] && text_less(a.drop_first(), b.drop_first()))
    }
}

/// [`text_less`] puts no text before itself.
pub proof fn text_less_irreflexive(a: Seq<char>)
    ensures
        !text_less(a, a),
    decreases a.len(),
{
    if a.len() > 0 {
        text_less_irreflexive(a.drop_first());
    }
}

/// [`text_less`] is transitive.
pub proof fn text_less_transitive(a: Seq<char>, b: Seq<char>, c: Seq<char>)
    requires
        text_less(a, b),
        text_less(b, c),
    ensures
        text_less(a, c),
    decreases a.len(),
{
    if a.len() > 0 && a[0] == b[0] && b[0] == c[0] {
        text_less_transitive(a.drop_first(), b.drop_first(), c.drop_first());
    }
}

/// Of two different texts one comes first.
pub proof fn text_less_total(a: Seq<char>, b: Seq<char>)
    ensures
        a != b ==> text_less(a, b) || text_less(b, a),
        text_less(a, b) ==> !text_less(b, a) && a != b,
    decreases a.len(),
{
    if a.len() > 0 && b.len() > 0 {
        text_less_total(a.drop_first(), b.drop_first());
        if a[0] == b[0] && a.drop_first() == b.drop_first() {
            assert(a =~= seq![a[0]] + a.drop_first());
            assert(b =~= seq![b[0]] + b.drop_first());
        }
    } else if a.len() == 0 && b.len() == 0 {
        assert(a =~= b);
    }
}

/// Decides [`text_less`].
pub fn text_before(a: &str, b: &str) -> (r: bool)
    ensures
        r == text_less(a@, b@),
{
    let x = to_chars(a);
    let y = to_chars(b);
    let mut i: usize = 0;
    assert(a@.skip(0) =~= a@ && b@.skip(0) =~= b@);
    while i < x.len() && i < y.len()
        invariant
            i <= x.len(),
            i <= y.len(),
            x@ == a@,
            y@ == b@,
            text_less(a@, b@) == text_less(a@.skip(i as int), b@.skip(i as int)),
        decreases x.len() - i,
    {
        if x[i] != y[i] {
            return x[i] < y[i];
        }
        assert(a@.skip(i as int).drop_first() =~= a@.skip(i + 1));
        assert(b@.skip(i as int).drop_first() =~= b@.skip(i + 1));
        i += 1;
    }
    i < y.len()
}

/// The text that `{:?}` gives for a character.
pub uninterp spec fn char_debug_text(c: char) -> Seq<char>;

/// `char`'s `Debug` rendering: a quoted literal that depends on the character
/// alone.
#[verifier::external_body]
pub(crate) fn char_debug(c: char) -> (r: String)
    ensures
        r@ == char_debug_text(c),
{
    format!("{:?}", c)
}

/// `s` without leading white space.
pub open spec fn trim_front(s: Seq<char>) -> Seq<char>
    decreases s.len(),
{
    if s.len() > 0 && char_is_whitespace(s[0]) {
        trim_front(s.drop_first())
    } else {
        s
    }
}

/// `s` without trailing white space.
pub open spec fn trim_back(s: Seq<char>) -> Seq<char>
    decreases s.len(),
{
    if s.len() > 0 && char_is_whitespace(s.last()) {
        trim_back(s.drop_last())
    } else {
        s
    }
}

/// `s` without white space at either end.
pub open spec fn trimmed(s: Seq<char>) -> Seq<char> {
    trim_back(trim_front(s))
}

/// Renders [`trimmed`].
pub fn trim_text(s: &str) -> (r: String)
    ensures
        r@ == trimmed(s@),
{
    let cs = to_chars(s);
    let mut a: usize = 0;
    assert(cs@.skip(0) =~= cs@);
    while a < cs.len() && is_whitespace(cs[a])
        invariant
            a <= cs.len(),
            trim_front(cs@) == trim_front(cs@.skip(a as int)),
        decreases cs.len() - a,
    {
        assert(cs@.skip(a as int).drop_first() =~= cs@.skip(a + 1));
        a += 1;
    }
    let ghost front = cs@.skip(a as int);
    assert(trim_front(cs@) == front);
    let mut b: usize = cs.len();
    assert(front.take(b - a) =~= front);
    while b > a && is_whitespace(cs[b - 1])
        invariant
            a <= b <= cs.len(),
            front == cs@.skip(a as int),
            trim_back(front) == trim_back(front.take(b - a)),
        decreases b - a,
    {
        assert(front.take(b - a).drop_last() =~= front.take(b - 1 - a));
        b -= 1;
    }
    assert(trim_back(front) == front.take(b - a)) by {
        if b > a {
            assert(front.take(b - a).last() == cs@[b - 1]);
        }
    }
    assert(front.take(b - a) =~= cs@.subrange(a as int, b as int));
    part(&cs, a, b)
}

/// The text made of the characters from `a` to `b`.
pub fn part(cs: &Vec<char>, a: usize, b: usize) -> (r: String)
    requires
        a <= b <= cs.len(),
    ensures
        r@ == cs@.subrange(a as int, b as int),
{
    let mut s = String::new();
    let mut i: usize = a;
    assert(s@ =~= cs@.subrange(a as int, i as int));
    while i < b
        invariant
            a <= i <= b <= cs.len(),
            s@ == cs@.subrange(a as int, i as int),
        decreases b - i,
    {
        push_char(&mut s, cs[i]);
        i += 1;
        assert(s@ =~= cs@.subrange(a as int, i as int));
    }
    s
}

/// The pieces of `s` between the separators.
pub open spec fn split_on(s: Seq<char>, sep: char) -> Seq<Seq<char>>
    decreases s.len(),
{
    if s.len() == 0 {
        seq![seq![]]
    } else {
        let head = split_on(s.drop_last(), sep);
        if s.last() == sep {
            head.push(seq![])
        } else {
            head.drop_last().push(head.last().push(s.last()))
        }
    }
}

/// There is always at least one piece.
pub proof fn split_on_some(s: Seq<char>, sep: char)
    ensures
        split_on(s, sep).len() >= 1,
    decreases s.len(),
{
    if s.len() > 0 {
        split_on_some(s.drop_last(), sep);
    }
}

/// Renders [`split_on`].
pub fn split_text(s: &str, sep: char) -> (r: Vec<String>)
    ensures
        texts(r@) == split_on(s@, sep),
        r@.len() >= 1,
{
    let cs = to_chars(s);
    let mut out: Vec<String> = Vec::new();
    let mut cur = String::new();
    let mut i: usize = 0;
    assert(texts(out@).push(cur@) =~= split_on(cs@.take(0), sep));
    while i < cs.len()
        invariant
            i <= cs.len(),
            texts(out@).push(cur@) == split_on(cs@.take(i as int), sep),
        decreases cs.len() - i,
    {
        let c = cs[i];
        let ghost was_out = out@;
        let ghost was_cur = cur@;
        proof {
            let t = cs@.take(i + 1);
            assert(t.drop_last() =~= cs@.take(i as int));
            assert(t.last() == c);
        }
        if c == sep {
            out.push(cur);
            cur = String::new();
            assert(texts(out@).push(cur@) =~= texts(was_out).push(was_cur).push(seq![]));
        } else {
            push_char(&mut cur, c);
            assert(texts(out@).push(cur@) =~= texts(was_out).push(was_cur).drop_last().push(
                was_cur.push(c),
            ));
        }
        i += 1;
    }
    assert(cs@.take(i as int) =~= cs@);
    let ghost was_out = out@;
    let ghost was_cur = cur@;
    out.push(cur);
    assert(texts(out@) =~= texts(was_out).push(was_cur));
    out
}

/// The texts of a list of strings.
pub open spec fn texts(v: Seq<String>) -> Seq<Seq<char>> {
    Seq::new(v.len(), |i: int| v[i]@)
}

/// Whether one of the texts is `t`.
pub(crate) fn holds_text(v: &Vec<String>, t: &str) -> (r: bool)
    ensures
        r == texts(v@).contains(t@),
{
    let mut i: usize = 0;
    while i < v.len()
        invariant
            i <= v@.len(),
            forall|j: int| 0 <= j < i ==> #[trigger] texts(v@)[j] != t@,
        decreases v.len() - i,
    {
        assert(texts(v@)[i as int] == v@[i as int]@);
        if same_text(v[i].as_str(), t) {
            return true;
        }
        i += 1;
    }
    false
}

/// How many bytes the UTF-8 encoding of `s` has.
pub open spec fn bytes_len(s: Seq<char>) -> nat {
    encode_utf8(s).len()
}

/// The encoding of joined texts is their encodings, joined.
pub proof fn encode_joined(a: Seq<char>, b: Seq<char>)
    ensures
        encode_utf8(a + b) == encode_utf8(a) + encode_utf8(b),
    decreases a.len(),
{
    if a.len() == 0 {
        assert(a + b =~= b);
        assert(encode_utf8(a) + encode_utf8(b) =~= encode_utf8(b));
    } else {
        encode_joined(a.drop_first(), b);
        assert((a + b).drop_first() =~= a.drop_first() + b);
        assert((a + b)[0] == a[0]);
        assert(encode_utf8(a + b) =~= encode_utf8(a) + encode_utf8(b));
    }
}

/// Every character takes at least one byte, so a text has no fewer bytes than
/// characters.
pub proof fn bytes_cover_chars(s: Seq<char>)
    ensures
        s.len() <= bytes_len(s),
    decreases s.len(),
{
    if s.len() > 0 {
        bytes_cover_chars(s.drop_first());
    }
}

/// The byte length of a prefix is at most that of the text.
pub proof fn prefix_bytes(s: Seq<char>, n: int)
    requires
        0 <= n <= s.len(),
    ensures
        bytes_len(s.take(n)) + bytes_len(s.skip(n)) == bytes_len(s),
{
    assert(s.take(n) + s.skip(n) =~= s);
    encode_joined(s.take(n), s.skip(n));
}

/// How many bytes the UTF-8 encoding of a character has.
pub open spec fn width(c: char) -> nat {
    encode_scalar(c as u32).len()
}

/// Computes [`width`].
pub fn char_width(c: char) -> (r: usize)
    ensures
        r == width(c),
        1 <= r <= 4,
{
    let v: u32 = c as u32;
    if v <= 0x7F {
        1
    } else if v <= 0x7FF {
        2
    } else if v <= 0xFFFF {
        3
    } else {
        4
    }
}

/// How many characters the first `pos` bytes of `s` hold, where a character
/// starts or ends there.
pub open spec fn at_byte(s: Seq<char>, pos: int) -> Option<int>
    decreases s.len(),
{
    if pos == 0 {
        Some(0)
    } else if s.len() == 0 || pos < width(s[0]) {
        None
    } else {
        match at_byte(s.drop_first(), pos - width(s[0])) {
            Some(n) => Some(n + 1),
            None => None,
        }
    }
}

/// [`at_byte`] is the inverse of the byte length of a prefix.
pub proof fn at_byte_inverse(s: Seq<char>, n: int)
    requires
        0 <= n <= s.len(),
    ensures
        at_byte(s, bytes_len(s.take(n)) as int) == Some(n),
    decreases s.len(),
{
    if n > 0 {
        at_byte_inverse(s.drop_first(), n - 1);
        assert(s.take(n).drop_first() =~= s.drop_first().take(n - 1));
        assert(s.take(n)[0] == s[0]);
    } else {
        assert(s.take(0) =~= seq![]);
    }
}

/// What [`at_byte`] finds is a prefix of that many bytes.
pub proof fn at_byte_finds(s: Seq<char>, pos: int)
    ensures
        at_byte(s, pos) matches Some(n) ==> 0 <= n <= s.len() && bytes_len(s.take(n)) == pos,
    decreases s.len(),
{
    if pos == 0 {
        assert(s.take(0) =~= seq![]);
    } else if s.len() > 0 && pos >= width(s[0]) {
        at_byte_finds(s.drop_first(), pos - width(s[0]));
        match at_byte(s.drop_first(), pos - width(s[0])) {
            Some(n) => {
                assert(s.take(n + 1).drop_first() =~= s.drop_first().take(n));
                assert(s.take(n + 1)[0] == s[0]);
            },
            None => {},
        }
    }
}

/// Computes [`at_byte`].
pub fn find_byte(cs: &Vec<char>, pos: usize) -> (r: Option<usize>)
    ensures
        match at_byte(cs@, pos as int) {
            Some(n) => r matches Some(k) && k == n && n <= cs@.len(),
            None => r is None,
        },
{
    let mut left: usize = pos;
    let mut i: usize = 0;
    assert(cs@.skip(0) =~= cs@);
    while left > 0
        invariant
            i <= cs.len(),
            match at_byte(cs@.skip(i as int), left as int) {
                Some(n) => at_byte(cs@, pos as int) == Some(n + i) && n <= cs@.len() - i,
                None => at_byte(cs@, pos as int) is None,
            } || at_byte(cs@, pos as int) == (match at_byte(cs@.skip(i as int), left as int) {
                Some(n) => Some(n + i),
                None => None,
            }),
        decreases left,
    {
        if i == cs.len() {
            return None;
        }
        let w: usize = char_width(cs[i]);
        assert(cs@.skip(i as int)[0] == cs@[i as int]);
        if left < w {
            return None;
        }
        assert(cs@.skip(i as int).drop_first() =~= cs@.skip(i + 1));
        left -= w;
        i += 1;
    }
    Some(i)
}

/// The number of bytes that the first `n` characters take.
pub fn bytes_upto(cs: &Vec<char>, n: usize) -> (r: usize)
    requires
        n <= cs.len(),
    ensures
        r == bytes_len(cs@.take(n as int)),
{
    let head = part(cs, 0, n);
    assert(cs@.subrange(0, n as int) =~= cs@.take(n as int));
    byte_len(head.as_str())
}

/// Whether the characters from `from` on start with `t`.
pub fn starts_at(cs: &Vec<char>, from: usize, t: &str) -> (r: bool)
    requires
        from <= cs.len(),
    ensures
        r == t@.is_prefix_of(cs@.skip(from as int)),
{
    let ts = to_chars(t);
    let ghost rest = cs@.skip(from as int);
    if ts.len() > cs.len() - from {
        return false;
    }
    let mut i: usize = 0;
    while i < ts.len()
        invariant
            i <= ts.len() <= cs.len() - from,
            from <= cs.len(),
            ts@ == t@,
            rest == cs@.skip(from as int),
            forall|j: int| 0 <= j < i ==> ts@[j] == #[trigger] rest[j],
        decreases ts.len() - i,
    {
        if cs[from + i] != ts[i] {
            assert(rest[i as int] != ts@[i as int]);
            assert(rest.subrange(0, t@.len() as int)[i as int] == rest[i as int]);
            return false;
        }
        i += 1;
    }
    assert(rest.subrange(0, t@.len() as int) =~= t@);
    true
}

/// Whether the characters from `from` on end with `t`.
pub fn ends_at(cs: &Vec<char>, from: usize, t: &str) -> (r: bool)
    requires
        from <= cs.len(),
    ensures
        r == t@.is_suffix_of(cs@.skip(from as int)),
{
    let ts = to_chars(t);
    let ghost rest = cs@.skip(from as int);
    if ts.len() > cs.len() - from {
        return false;
    }
    let at: usize = cs.len() - ts.len();
    let mut i: usize = 0;
    let ghost tail = rest.subrange(rest.len() - t@.len(), rest.len() as int);
    while i < ts.len()
        invariant
            i <= ts.len() <= cs.len() - from,
            from <= cs.len(),
            at == cs.len() - ts.len(),
            ts@ == t@,
            rest == cs@.skip(from as int),
            tail == rest.subrange(rest.len() - t@.len(), rest.len() as int),
            forall|j: int| 0 <= j < i ==> ts@[j] == #[trigger] tail[j],
        decreases ts.len() - i,
    {
        assert(tail[i as int] == cs@[at + i]);
        if cs[at + i] != ts[i] {
            return false;
        }
        i += 1;
    }
    assert(tail =~= t@);
    true
}

/// A hexadecimal digit.
pub open spec fn hex_digit(d: int) -> char {
    if d < 10 {
        digit_char(d)
    } else {
        (d - 10 + 97) as char
    }
}

/// A number in hexadecimal digits.
pub open spec fn hexadecimal(n: nat) -> Seq<char>
    decreases n,
{
    if n < 16 {
        seq![hex_digit(n as int)]
    } else {
        hexadecimal(n / 16).push(hex_digit((n % 16) as int))
    }
}

/// Renders [`hexadecimal`].
pub fn hexadecimal_text(n: u64) -> (r: String)
    ensures
        r@ == hexadecimal(n as nat),
    decreases n,
{
    let d: u8 = (n % 16) as u8;
    let c: char = if d < 10 {
        (d + 48) as char
    } else {
        (d - 10 + 97) as char
    };
    let mut s = if n < 16 {
        String::new()
    } else {
        hexadecimal_text(n / 16)
    };
    push_char(&mut s, c);
    assert(s@ =~= hexadecimal(n as nat));
    s
}

/// Whether a number is that of a character.
pub open spec fn is_char_number(n: int) -> bool {
    0 <= n <= 0x10_FFFF && !(0xD800 <= n <= 0xDFFF)
}

/// `char::from_u32`: the character with a number, where there is one.
#[verifier::external_body]
pub(crate) fn char_of(n: u32) -> (r: Option<char>)
    ensures
        match r {
            Some(c) => is_char_number(n as int) && c as int == n,
            None => !is_char_number(n as int),
        },
{
    char::from_u32(n)
}

/// The text of one character.
pub fn char_text(c: char) -> (r: String)
    ensures
        r@ == seq![c],
{
    let mut s = String::new();
    push_char(&mut s, c);
    assert(s@ =~= seq![c]);
    s
}

/// An ASCII letter in lower case; any other character as it is.
pub open spec fn ascii_lower(c: char) -> char {
    if 'A' <= c && c <= 'Z' {
        (c as int + 32) as char
    } else {
        c
    }
}

pub open spec fn lowered(s: Seq<char>) -> Seq<char> {
    s.map_values(|c: char| ascii_lower(c))
}

pub fn lower_char(c: char) -> (r: char)
    ensures
        r == ascii_lower(c),
{
    if 'A' <= c && c <= 'Z' {
        ((c as u8) + 32) as char
    } else {
        c
    }
}

/// Whether a character is one of the letters `a` to `z` and `A` to `Z`.
pub open spec fn is_ascii_letter(c: char) -> bool {
    'a' <= c <= 'z' || 'A' <= c <= 'Z'
}

/// Decides [`is_ascii_letter`].
pub(crate) fn ascii_letter(c: char) -> (r: bool)
    ensures
        r == is_ascii_letter(c),
{
    ('a' <= c && c <= 'z') || ('A' <= c && c <= 'Z')
}

/// Renders [`lowered`].
pub fn lower_text(s: &str) -> (r: String)
    ensures
        r@ == lowered(s@),
{
    let cs = to_chars(s);
    let mut out = String::new();
    let mut i: usize = 0;
    while i < cs.len()
        invariant
            i <= cs.len(),
            cs@ == s@,
            out@ == lowered(s@.take(i as int)),
        decreases cs.len() - i,
    {
        push_char(&mut out, lower_char(cs[i]));
        i += 1;
        assert(out@ =~= lowered(s@.take(i as int)));
    }
    assert(s@.take(i as int) =~= s@);
    out
}

pub open spec fn is_ascii(c: char) -> bool {
    c <= '\x7f'
}

/// Whether all characters are ASCII.
pub open spec fn all_ascii(s: Seq<char>) -> bool {
    forall|i: int| 0 <= i < s.len() ==> is_ascii(#[trigger] s[i])
}

/// A text in lower case, by the Unicode tables of the standard library.
pub uninterp spec fn lower_case_text(s: Seq<char>) -> Seq<char>;

/// `str::to_lowercase`: the result depends on the text alone. Of an ASCII text
/// the letters from `A` to `Z` become those from `a` to `z`.
#[verifier::external_body]
pub(crate) fn lower_case(s: &str) -> (r: String)
    ensures
        r@ == lower_case_text(s@),
        all_ascii(s@) ==> r@ == lowered(s@),
{
    s.to_lowercase()
}

/// An ASCII letter as a capital; any other character as it is.
pub open spec fn ascii_upper(c: char) -> char {
    if 'a' <= c <= 'z' {
        (c as int - 32) as char
    } else {
        c
    }
}

pub open spec fn raised(s: Seq<char>) -> Seq<char> {
    s.map_values(|c: char| ascii_upper(c))
}

/// A text in upper case, by the Unicode tables of the standard library.
pub uninterp spec fn upper_case_text(s: Seq<char>) -> Seq<char>;

/// `str::to_uppercase`: the result depends on the text alone. Of an ASCII text
/// the letters from `a` to `z` become those from `A` to `Z`.
#[verifier::external_body]
pub(crate) fn upper_case(s: &str) -> (r: String)
    ensures
        r@ == upper_case_text(s@),
        all_ascii(s@) ==> r@ == raised(s@),
{
    s.to_uppercase()
}

/// What holds no separator goes on with the last piece of what is before it.
pub proof fn one_more_piece(w: Seq<char>, before: Seq<char>, sep: char)
    requires
        !w.contains(sep),
    ensures
        ({
            let p = split_on(before, sep);
            &&& p.len() > 0
            &&& split_on(before + w, sep) == p.drop_last().push(p.last() + w)
        }),
    decreases w.len(),
{
    split_on_some(before, sep);
    let p = split_on(before, sep);
    if w.len() == 0 {
        assert(before + w =~= before);
        assert(p.last() + w =~= p.last());
        assert(p.drop_last().push(p.last()) =~= p);
    } else {
        let t = w.drop_last();
        assert(w[w.len() - 1] != sep);
        assert forall|i: int| 0 <= i < t.len() implies #[trigger] t[i] != sep by {
            assert(t[i] == w[i]);
        }
        one_more_piece(t, before, sep);
        assert((before + w).drop_last() =~= before + t);
        assert((before + w).last() == w.last());
        let q = split_on(before + t, sep);
        assert(q.drop_last() =~= p.drop_last());
        assert((p.last() + t).push(w.last()) =~= p.last() + w);
    }
}

/// A separator parts the pieces before it from those behind it.
pub proof fn separators_part(a: Seq<char>, b: Seq<char>, sep: char)
    ensures
        split_on(a + seq![sep] + b, sep) == split_on(a, sep) + split_on(b, sep),
    decreases b.len(),
{
    let s = a + seq![sep] + b;
    split_on_some(b, sep);
    if b.len() == 0 {
        assert(s.drop_last() =~= a);
        assert(s.last() == sep);
        assert(split_on(b, sep) =~= seq![Seq::<char>::empty()]);
        assert(split_on(s, sep) =~= split_on(a, sep) + split_on(b, sep));
    } else {
        let t = b.drop_last();
        separators_part(a, t, sep);
        split_on_some(t, sep);
        assert(s.drop_last() =~= a + seq![sep] + t);
        assert(s.last() == b.last());
        let x = split_on(a, sep);
        let y = split_on(t, sep);
        assert((x + y).drop_last() =~= x + y.drop_last());
        assert((x + y).last() == y.last());
        assert(split_on(s, sep) =~= split_on(a, sep) + split_on(b, sep));
    }
}

/// A trimmed text neither starts nor ends with white space, and what was cut off
/// was white space.
pub proof fn trimming_cuts_white_space(s: Seq<char>)
    ensures
        trimmed(s).len() > 0 ==> !char_is_whitespace(trimmed(s)[0]) && !char_is_whitespace(
            trimmed(s).last(),
        ),
        exists|a: int, b: int|
            0 <= a <= b <= s.len() && trimmed(s) == #[trigger] s.subrange(a, b) && (forall|i: int|
                0 <= i < a || b <= i < s.len() ==> char_is_whitespace(#[trigger] s[i])),
{
    front_is_cut(s);
    let a = choose|a: int|
        0 <= a <= s.len() && trim_front(s) == #[trigger] s.skip(a) && (forall|i: int|
            0 <= i < a ==> char_is_whitespace(#[trigger] s[i]));
    let t = trim_front(s);
    back_is_cut(t);
    let n = choose|n: int|
        0 <= n <= t.len() && trim_back(t) == #[trigger] t.take(n) && (forall|i: int|
            n <= i < t.len() ==> char_is_whitespace(#[trigger] t[i]));
    assert(t.take(n) =~= s.subrange(a, a + n));
    assert forall|i: int| 0 <= i < a || a + n <= i < s.len() implies char_is_whitespace(
        #[trigger] s[i],
    ) by {
        if i >= a + n {
            assert(t[i - a] == s[i]);
        }
    }
    if trimmed(s).len() > 0 {
        assert(trimmed(s)[0] == t[0]);
    }
}

proof fn front_is_cut(s: Seq<char>)
    ensures
        exists|a: int|
            0 <= a <= s.len() && trim_front(s) == #[trigger] s.skip(a) && (forall|i: int|
                0 <= i < a ==> char_is_whitespace(#[trigger] s[i])),
        trim_front(s).len() > 0 ==> !char_is_whitespace(trim_front(s)[0]),
    decreases s.len(),
{
    if s.len() > 0 && char_is_whitespace(s[0]) {
        let t = s.drop_first();
        front_is_cut(t);
        let a = choose|a: int|
            0 <= a <= t.len() && trim_front(t) == #[trigger] t.skip(a) && (forall|i: int|
                0 <= i < a ==> char_is_whitespace(#[trigger] t[i]));
        assert(t.skip(a) =~= s.skip(a + 1));
        assert forall|i: int| 0 <= i < a + 1 implies char_is_whitespace(#[trigger] s[i]) by {
            if i > 0 {
                assert(t[i - 1] == s[i]);
            }
        }
    } else {
        assert(s.skip(0) =~= s);
    }
}

proof fn back_is_cut(s: Seq<char>)
    ensures
        exists|n: int|
            0 <= n <= s.len() && trim_back(s) == #[trigger] s.take(n) && (forall|i: int|
                n <= i < s.len() ==> char_is_whitespace(#[trigger] s[i])),
        trim_back(s).len() > 0 ==> !char_is_whitespace(trim_back(s).last()),
    decreases s.len(),
{
    if s.len() > 0 && char_is_whitespace(s.last()) {
        let t = s.drop_last();
        back_is_cut(t);
        let n = choose|n: int|
            0 <= n <= t.len() && trim_back(t) == #[trigger] t.take(n) && (forall|i: int|
                n <= i < t.len() ==> char_is_whitespace(#[trigger] t[i]));
        assert(t.take(n) =~= s.take(n));
        assert forall|i: int| n <= i < s.len() implies char_is_whitespace(#[trigger] s[i]) by {
            if i < t.len() {
                assert(t[i] == s[i]);
            }
        }
    } else {
        assert(s.take(s.len() as int) =~= s);
    }
}

} // verus!
