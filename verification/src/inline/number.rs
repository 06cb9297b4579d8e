//! Numbers in Chinese: as figures and as amounts of money, plain and formal.

use vstd::prelude::*;
use vstd::string::StrSliceExecFns;
use crate::candidate::{Candidate, Span};
use crate::inline::{emit, inline_cands, rendered_view, Rendered};
use crate::order::views;
use crate::spec::NumberSpec;
use crate::spelling::poured;
use crate::tag::Tag;
use crate::text::{from_chars, is_ascii_letter, is_digit, to_chars};

verus! {

/// Offers the Chinese readings of a number behind a prefix.
#[derive(Debug)]
pub struct NumberTranslator {
    pub prefix: char,
    pub tags: Vec<Tag>,
}

/// Which set of characters a reading uses.
#[derive(Clone, Copy, Debug, PartialEq, Eq, Structural)]
pub enum NumberStyle {
    /// The everyday ones.
    Lower,
    /// Those of account books.
    Upper,
}

/// The character of a digit.
pub open spec fn figure(style: NumberStyle, d: int) -> char {
    match style {
        NumberStyle::Lower => if d == 1 {
            '一'
        } else if d == 2 {
            '二'
        } else if d == 3 {
            '三'
        } else if d == 4 {
            '四'
        } else if d == 5 {
            '五'
        } else if d == 6 {
            '六'
        } else if d == 7 {
            '七'
        } else if d == 8 {
            '八'
        } else if d == 9 {
            '九'
        } else {
            '〇'
        },
        NumberStyle::Upper => if d == 1 {
            '壹'
        } else if d == 2 {
            '贰'
        } else if d == 3 {
            '叁'
        } else if d == 4 {
            '肆'
        } else if d == 5 {
            '伍'
        } else if d == 6 {
            '陆'
        } else if d == 7 {
            '柒'
        } else if d == 8 {
            '捌'
        } else if d == 9 {
            '玖'
        } else {
            '零'
        },
    }
}

/// The character of nought.
pub open spec fn nought(style: NumberStyle) -> char {
    figure(style, 0)
}

/// The name of a place inside a group of four digits, counted from the right;
/// the last has none.
pub open spec fn place_name(style: NumberStyle, place: int) -> Seq<char> {
    match style {
        NumberStyle::Lower => if place == 1 {
            seq!['十']
        } else if place == 2 {
            seq!['百']
        } else if place == 3 {
            seq!['千']
        } else {
            seq![]
        },
        NumberStyle::Upper => if place == 1 {
            seq!['拾']
        } else if place == 2 {
            seq!['佰']
        } else if place == 3 {
            seq!['仟']
        } else {
            seq![]
        },
    }
}

impl NumberStyle {
    fn figures(self, d: u32) -> (r: char)
        ensures
            r == figure(self, d as int),
    {
        match self {
            NumberStyle::Lower => match d {
                1 => '一',
                2 => '二',
                3 => '三',
                4 => '四',
                5 => '五',
                6 => '六',
                7 => '七',
                8 => '八',
                9 => '九',
                _ => '〇',
            },
            NumberStyle::Upper => match d {
                1 => '壹',
                2 => '贰',
                3 => '叁',
                4 => '肆',
                5 => '伍',
                6 => '陆',
                7 => '柒',
                8 => '捌',
                9 => '玖',
                _ => '零',
            },
        }
    }

    fn units(self, place: usize) -> (r: Option<char>)
        ensures
            place_name(self, place as int) == (match r {
                Some(c) => seq![c],
                None => seq![],
            }),
    {
        match self {
            NumberStyle::Lower => match place {
                1 => Some('十'),
                2 => Some('百'),
                3 => Some('千'),
                _ => None,
            },
            NumberStyle::Upper => match place {
                1 => Some('拾'),
                2 => Some('佰'),
                3 => Some('仟'),
                _ => None,
            },
        }
    }

    fn zero(self) -> (r: char)
        ensures
            r == nought(self),
    {
        self.figures(0)
    }
}

// ---------------------------------------------------------------------------
// Rewriting
// ---------------------------------------------------------------------------

/// Whether `t` stands in `s` at `i`.
pub open spec fn stands_in(s: Seq<char>, t: Seq<char>, i: int) -> bool {
    0 <= i && i + t.len() <= s.len() && s.subrange(i, i + t.len()) == t
}

/// The first place, from `i` on, where `t` stands in `s`.
pub open spec fn first_place(s: Seq<char>, t: Seq<char>, i: int) -> Option<int>
    decreases s.len() + 1 - i,
{
    if i < 0 || i > s.len() {
        None
    } else if stands_in(s, t, i) {
        Some(i)
    } else {
        first_place(s, t, i + 1)
    }
}

/// A text with the first occurrence of `t` replaced.
pub open spec fn replaced_once(s: Seq<char>, t: Seq<char>, by: Seq<char>) -> Seq<char> {
    match first_place(s, t, 0) {
        Some(i) => s.take(i) + by + s.skip(i + t.len()),
        None => s,
    }
}

/// A text whose first double nought is a single one.
pub open spec fn collapsed(s: Seq<char>, zero: char) -> Seq<char> {
    replaced_once(s, seq![zero, zero], seq![zero])
}

/// A text without a nought at its end.
pub open spec fn without_last(s: Seq<char>, zero: char) -> Seq<char> {
    if s.len() > 0 && s.last() == zero {
        s.drop_last()
    } else {
        s
    }
}

/// A text without a nought at its beginning.
pub open spec fn without_first(s: Seq<char>, zero: char) -> Seq<char> {
    if s.len() > 0 && s[0] == zero {
        s.skip(1)
    } else {
        s
    }
}

fn stands(s: &Vec<char>, t: &Vec<char>, i: usize) -> (r: bool)
    requires
        i <= s@.len(),
    ensures
        r == stands_in(s@, t@, i as int),
{
    if t.len() > s.len() - i {
        return false;
    }
    let mut k: usize = 0;
    while k < t.len()
        invariant
            k <= t@.len(),
            i <= s.len(),
            t@.len() <= s@.len() - i,
            forall|j: int| 0 <= j < k ==> s@[i + j] == t@[j],
        decreases t.len() - k,
    {
        if s[i + k] != t[k] {
            proof {
                let sub = s@.subrange(i as int, i + t@.len());
                assert(sub[k as int] == s@[i + k]);
            }
            return false;
        }
        k += 1;
    }
    assert(s@.subrange(i as int, i + t@.len()) =~= t@);
    true
}

fn copy_part(s: &Vec<char>, a: usize, b: usize, out: &mut Vec<char>)
    requires
        a <= b <= s@.len(),
    ensures
        final(out)@ == old(out)@ + s@.subrange(a as int, b as int),
{
    let ghost before = out@;
    let mut i: usize = a;
    assert(out@ =~= before + s@.subrange(a as int, a as int));
    while i < b
        invariant
            a <= i <= b <= s@.len(),
            out@ == before + s@.subrange(a as int, i as int),
        decreases b - i,
    {
        out.push(s[i]);
        i += 1;
        assert(out@ =~= before + s@.subrange(a as int, i as int));
    }
}

fn place_in(s: &Vec<char>, t: &Vec<char>) -> (r: Option<usize>)
    ensures
        match first_place(s@, t@, 0) {
            Some(i) => r matches Some(k) && k == i && stands_in(s@, t@, i),
            None => r is None,
        },
{
    let mut i: usize = 0;
    while i < s.len()
        invariant
            i <= s@.len(),
            first_place(s@, t@, 0) == first_place(s@, t@, i as int),
        decreases s.len() - i,
    {
        if stands(s, t, i) {
            return Some(i);
        }
        i += 1;
    }
    assert(first_place(s@, t@, i + 1) is None);
    if stands(s, t, i) {
        Some(i)
    } else {
        None
    }
}

fn replace_once(s: &Vec<char>, t: &Vec<char>, by: &Vec<char>) -> (r: Vec<char>)
    ensures
        r@ == replaced_once(s@, t@, by@),
{
    let mut out: Vec<char> = Vec::new();
    match place_in(s, t) {
        Some(i) => {
            copy_part(s, 0, i, &mut out);
            copy_part(by, 0, by.len(), &mut out);
            let n: usize = s.len();
            assert(i + t@.len() <= n);
            copy_part(s, i + t.len(), n, &mut out);
            assert(out@ =~= s@.take(i as int) + by@ + s@.skip(i + t@.len()));
        },
        None => {
            copy_part(s, 0, s.len(), &mut out);
            assert(out@ =~= s@);
        },
    }
    out
}

fn collapse_zeros(s: &Vec<char>, zero: char) -> (r: Vec<char>)
    ensures
        r@ == collapsed(s@, zero),
{
    let two: Vec<char> = vec![zero, zero];
    let one: Vec<char> = vec![zero];
    assert(two@ =~= seq![zero, zero]);
    assert(one@ =~= seq![zero]);
    replace_once(s, &two, &one)
}

fn drop_last_zero(s: Vec<char>, zero: char) -> (r: Vec<char>)
    ensures
        r@ == without_last(s@, zero),
{
    let mut s = s;
    let n: usize = s.len();
    if n > 0 && s[n - 1] == zero {
        s.pop();
    }
    s
}

// ---------------------------------------------------------------------------
// Readings
// ---------------------------------------------------------------------------

/// What a digit is worth.
pub open spec fn worth(c: char) -> int {
    c as int - 48
}

pub open spec fn all_digits(s: Seq<char>) -> bool {
    forall|i: int| 0 <= i < s.len() ==> is_digit(#[trigger] s[i])
}

/// The reading of one digit with `place` digits behind it.
pub open spec fn digit_reading(style: NumberStyle, c: char, place: int) -> Seq<char> {
    if worth(c) == 0 {
        seq![nought(style)]
    } else {
        seq![figure(style, worth(c))] + place_name(style, place)
    }
}

/// The digits of a group read one by one.
pub open spec fn spelled_group(style: NumberStyle, num: Seq<char>) -> Seq<char>
    decreases num.len(),
{
    if num.len() == 0 {
        seq![]
    } else {
        digit_reading(style, num[0], num.len() - 1) + spelled_group(style, num.skip(1))
    }
}

/// The reading of a group of up to four digits.
pub open spec fn group_reading(style: NumberStyle, num: Seq<char>) -> Seq<char> {
    let zero = nought(style);
    if num.len() > 4 || forall|i: int| 0 <= i < num.len() ==> #[trigger] num[i] == '0' {
        seq![zero]
    } else {
        without_last(without_last(collapsed(spelled_group(style, num), zero), zero), zero)
    }
}

/// What is said of a number that has no reading.
pub open spec fn out_of_range() -> Seq<char> {
    "数值超限！"@
}

/// The groups of a number with the names of their scales between them.
pub open spec fn grouped(digits: Seq<char>, style: NumberStyle, scale: (char, char)) -> Seq<char> {
    let n = digits.len() as int;
    if n < 5 {
        group_reading(style, digits)
    } else if n < 9 {
        group_reading(style, digits.take(n - 4)) + seq![scale.0] + group_reading(
            style,
            digits.skip(n - 4),
        )
    } else if n < 13 {
        group_reading(style, digits.take(n - 8)) + seq![scale.1] + group_reading(
            style,
            digits.subrange(n - 8, n - 4),
        ) + seq![scale.0] + group_reading(style, digits.skip(n - 4))
    } else {
        seq![]
    }
}

/// A grouped number after its noughts were tidied.
pub open spec fn tidied(s: Seq<char>, zero: char, scale: (char, char)) -> Seq<char> {
    let a = without_first(s, zero);
    let b = replaced_once(a, seq![zero, scale.0], seq![]);
    let c = replaced_once(b, seq![zero, scale.1], seq![]);
    without_last(collapsed(c, zero), zero)
}

/// A reading that starts with ten, and not with one ten.
pub open spec fn ten_first(s: Seq<char>, style: NumberStyle) -> Seq<char> {
    let one_ten = seq![figure(style, 1)] + place_name(style, 1);
    if one_ten.is_prefix_of(s) {
        place_name(style, 1) + s.skip(2)
    } else {
        s
    }
}

/// The reading of a whole number of up to twelve digits, with what follows it.
pub open spec fn number_reading(
    digits: Seq<char>,
    style: NumberStyle,
    zero: char,
    scale: (char, char),
    tail: Seq<char>,
) -> Seq<char> {
    let t = tidied(grouped(digits, style, scale), zero, scale);
    let u = if digits.len() > 4 {
        ten_first(t, style)
    } else {
        t
    };
    if u.len() == 0 {
        out_of_range()
    } else {
        u + tail
    }
}

/// Decimals read digit by digit.
pub open spec fn decimals_reading(dec: Seq<char>, style: NumberStyle) -> Seq<char> {
    let zero = nought(style);
    collapsed(collapsed(dec.map_values(|c: char| figure(style, worth(c))), zero), zero)
}

/// The name of a decimal place of an amount of money.
pub open spec fn coin(place: int) -> char {
    if place == 0 {
        '角'
    } else if place == 1 {
        '分'
    } else if place == 2 {
        '厘'
    } else {
        '毫'
    }
}

/// Digits without the noughts at their end.
pub open spec fn significant(s: Seq<char>) -> Seq<char>
    decreases s.len(),
{
    if s.len() > 0 && s.last() == '0' {
        significant(s.drop_last())
    } else {
        s
    }
}

/// Decimal places as coins.
pub open spec fn coins(d: Seq<char>, style: NumberStyle) -> Seq<char>
    decreases d.len(),
{
    if d.len() == 0 {
        seq![]
    } else {
        let c = d.last();
        coins(d.drop_last(), style) + (if worth(c) != 0 {
            seq![figure(style, worth(c)), coin(d.len() - 1)]
        } else {
            seq![nought(style)]
        })
    }
}

/// The decimals of an amount of money: up to four places.
pub open spec fn coins_reading(dec: Seq<char>, style: NumberStyle) -> Seq<char> {
    let zero = nought(style);
    let d = significant(dec.take(if dec.len() < 4 {
        dec.len() as int
    } else {
        4
    }));
    if d.len() == 0 {
        seq!['整']
    } else {
        collapsed(collapsed(coins(d, style), zero), zero)
    }
}

fn group_to_chinese(num: &Vec<char>, a: usize, b: usize, style: NumberStyle) -> (r: Vec<char>)
    requires
        a <= b <= num@.len(),
        all_digits(num@),
    ensures
        r@ == group_reading(style, num@.subrange(a as int, b as int)),
{
    let ghost g = num@.subrange(a as int, b as int);
    let zero = style.zero();
    let mut blank = true;
    let mut i: usize = a;
    while i < b
        invariant
            a <= i <= b <= num@.len(),
            g == num@.subrange(a as int, b as int),
            blank ==> forall|j: int| 0 <= j < i - a ==> #[trigger] g[j] == '0',
            !blank ==> exists|j: int| 0 <= j < i - a && #[trigger] g[j] != '0',
        decreases b - i,
    {
        assert(g[i - a] == num@[i as int]);
        if num[i] != '0' {
            blank = false;
        }
        i += 1;
    }
    if b - a > 4 || blank {
        let r: Vec<char> = vec![zero];
        assert(r@ =~= seq![zero]);
        return r;
    }
    let mut out: Vec<char> = Vec::new();
    let mut k: usize = a;
    assert(g.skip(0) =~= g);
    assert(out@ + spelled_group(style, g) =~= spelled_group(style, g));
    while k < b
        invariant
            a <= k <= b <= num@.len(),
            g == num@.subrange(a as int, b as int),
            all_digits(num@),
            zero == nought(style),
            out@ + spelled_group(style, g.skip(k - a)) == spelled_group(style, g),
        decreases b - k,
    {
        let c = num[k];
        let ghost rest = g.skip(k - a);
        let ghost had = out@;
        proof {
            assert(is_digit(num@[k as int]));
            assert(rest[0] == c);
            assert(rest.skip(1) =~= g.skip(k - a + 1));
        }
        let d: u32 = c as u32 - 48;
        if d == 0 {
            out.push(zero);
        } else {
            out.push(style.figures(d));
            if let Some(u) = style.units(b - k - 1) {
                out.push(u);
            }
        }
        assert(out@ =~= had + digit_reading(style, c, rest.len() - 1));
        assert(had + (digit_reading(style, c, rest.len() - 1) + spelled_group(style, rest.skip(1)))
            =~= out@ + spelled_group(style, rest.skip(1)));
        k += 1;
    }
    assert(out@ =~= spelled_group(style, g));
    drop_last_zero(drop_last_zero(collapse_zeros(&out, zero), zero), zero)
}

#[verifier::rlimit(30)]
fn number_to_chinese(
    digits: &Vec<char>,
    style: NumberStyle,
    zero: char,
    scale: (char, char),
    tail: Option<char>,
) -> (r: Vec<char>)
    requires
        all_digits(digits@),
    ensures
        r@ == number_reading(
            digits@,
            style,
            zero,
            scale,
            match tail {
                Some(c) => seq![c],
                None => seq![],
            },
        ),
{
    let n: usize = digits.len();
    let mut out: Vec<char> = Vec::new();
    if n < 5 {
        assert(digits@.subrange(0, n as int) =~= digits@);
        out = group_to_chinese(digits, 0, n, style);
    } else if n < 9 {
        assert(digits@.subrange(0, n - 4) =~= digits@.take(n - 4));
        assert(digits@.subrange(n - 4, n as int) =~= digits@.skip(n - 4));
        out = group_to_chinese(digits, 0, n - 4, style);
        out.push(scale.0);
        let last = group_to_chinese(digits, n - 4, n, style);
        copy_part(&last, 0, last.len(), &mut out);
        assert(out@ =~= grouped(digits@, style, scale));
    } else if n < 13 {
        assert(digits@.subrange(0, n - 8) =~= digits@.take(n - 8));
        assert(digits@.subrange(n - 4, n as int) =~= digits@.skip(n - 4));
        out = group_to_chinese(digits, 0, n - 8, style);
        out.push(scale.1);
        let mid = group_to_chinese(digits, n - 8, n - 4, style);
        copy_part(&mid, 0, mid.len(), &mut out);
        out.push(scale.0);
        let last = group_to_chinese(digits, n - 4, n, style);
        copy_part(&last, 0, last.len(), &mut out);
        assert(out@ =~= grouped(digits@, style, scale));
    }
    assert(out@ =~= grouped(digits@, style, scale));
    let mut a: Vec<char> = Vec::new();
    if out.len() > 0 && out[0] == zero {
        copy_part(&out, 1, out.len(), &mut a);
    } else {
        copy_part(&out, 0, out.len(), &mut a);
    }
    assert(a@ =~= without_first(out@, zero));
    let nothing: Vec<char> = Vec::new();
    let zero_first: Vec<char> = vec![zero, scale.0];
    let zero_second: Vec<char> = vec![zero, scale.1];
    assert(zero_first@ =~= seq![zero, scale.0]);
    assert(zero_second@ =~= seq![zero, scale.1]);
    assert(nothing@ =~= seq![]);
    let b = replace_once(&a, &zero_first, &nothing);
    let c = replace_once(&b, &zero_second, &nothing);
    let mut t = drop_last_zero(collapse_zeros(&c, zero), zero);
    assert(t@ == tidied(grouped(digits@, style, scale), zero, scale));
    if n > 4 {
        let mut one_ten: Vec<char> = Vec::new();
        one_ten.push(style.figures(1));
        let mut ten: Vec<char> = Vec::new();
        if let Some(u) = style.units(1) {
            one_ten.push(u);
            ten.push(u);
        }
        assert(one_ten@ =~= seq![figure(style, 1)] + place_name(style, 1));
        assert(ten@ =~= place_name(style, 1));
        let ghost ot = one_ten@;
        proof {
            if stands_in(t@, ot, 0) {
                assert(t@.subrange(0, ot.len() as int) =~= t@.take(ot.len() as int));
                assert(ot.is_prefix_of(t@));
            }
            if ot.is_prefix_of(t@) {
                assert(t@.subrange(0, ot.len() as int) =~= ot);
            }
        }
        if stands(&t, &one_ten, 0) {
            let mut u = ten;
            copy_part(&t, 2, t.len(), &mut u);
            assert(u@ =~= ten_first(t@, style));
            t = u;
        }
    }
    if t.len() == 0 {
        to_chars("数值超限！")
    } else {
        let ghost was = t@;
        if let Some(x) = tail {
            t.push(x);
            assert(t@ =~= was + seq![x]);
        } else {
            assert(t@ =~= was + seq![]);
        }
        t
    }
}

fn digit_by_digit(dec: &Vec<char>, style: NumberStyle) -> (r: Vec<char>)
    requires
        all_digits(dec@),
    ensures
        r@ == decimals_reading(dec@, style),
{
    let zero = style.zero();
    let mut out: Vec<char> = Vec::new();
    let mut i: usize = 0;
    while i < dec.len()
        invariant
            i <= dec@.len(),
            all_digits(dec@),
            out@.len() == i,
            forall|j: int| 0 <= j < i ==> out@[j] == figure(style, worth(#[trigger] dec@[j])),
        decreases dec.len() - i,
    {
        assert(is_digit(dec@[i as int]));
        out.push(style.figures(dec[i] as u32 - 48));
        i += 1;
    }
    assert(out@ =~= dec@.map_values(|c: char| figure(style, worth(c))));
    let once = collapse_zeros(&out, zero);
    collapse_zeros(&once, zero)
}

fn decimal_func(dec: &Vec<char>, style: NumberStyle) -> (r: Vec<char>)
    requires
        all_digits(dec@),
    ensures
        r@ == coins_reading(dec@, style),
{
    let zero = style.zero();
    let mut n: usize = if dec.len() < 4 {
        dec.len()
    } else {
        4
    };
    let ghost cut = dec@.take(n as int);
    assert(cut.take(n as int) =~= cut);
    while n > 0 && dec[n - 1] == '0'
        invariant
            n <= cut.len() <= dec@.len(),
            cut == dec@.take(cut.len() as int),
            significant(cut) == significant(cut.take(n as int)),
        decreases n,
    {
        let ghost t = cut.take(n as int);
        assert(t.last() == dec@[n - 1]);
        assert(t.drop_last() =~= cut.take(n - 1));
        n -= 1;
    }
    let ghost d = cut.take(n as int);
    assert(n > 0 ==> d.last() == dec@[n - 1]);
    assert(significant(cut) == d);
    if n == 0 {
        let r: Vec<char> = vec!['整'];
        assert(r@ =~= seq!['整']);
        return r;
    }
    let mut out: Vec<char> = Vec::new();
    let mut i: usize = 0;
    assert(d.take(0) =~= seq![]);
    while i < n
        invariant
            i <= n <= 4,
            n <= cut.len() <= dec@.len(),
            cut == dec@.take(cut.len() as int),
            d == cut.take(n as int),
            all_digits(dec@),
            zero == nought(style),
            out@ == coins(d.take(i as int), style),
        decreases n - i,
    {
        let c = dec[i];
        let ghost had = out@;
        proof {
            assert(is_digit(dec@[i as int]));
            let t = d.take(i + 1);
            assert(t.drop_last() =~= d.take(i as int));
            assert(t.last() == c);
        }
        let w: u32 = c as u32 - 48;
        if w != 0 {
            out.push(style.figures(w));
            let name = match i {
                0 => '角',
                1 => '分',
                2 => '厘',
                _ => '毫',
            };
            out.push(name);
            assert(out@ =~= had + seq![figure(style, worth(c)), coin(i as int)]);
        } else {
            out.push(zero);
            assert(out@ =~= had + seq![zero]);
        }
        i += 1;
    }
    assert(d.take(i as int) =~= d);
    let once = collapse_zeros(&out, zero);
    collapse_zeros(&once, zero)
}

// ---------------------------------------------------------------------------
// The translator
// ---------------------------------------------------------------------------

/// How many digits a text starts with.
pub open spec fn digit_run(s: Seq<char>, from: int) -> int
    decreases s.len() - from,
{
    if from < 0 || from >= s.len() || !is_digit(s[from]) {
        0
    } else {
        1 + digit_run(s, from + 1)
    }
}

proof fn digit_run_bounds(s: Seq<char>, from: int)
    requires
        0 <= from <= s.len(),
    ensures
        0 <= digit_run(s, from) <= s.len() - from,
        forall|i: int| from <= i < from + digit_run(s, from) ==> is_digit(#[trigger] s[i]),
    decreases s.len() - from,
{
    if from < s.len() && is_digit(s[from]) {
        digit_run_bounds(s, from + 1);
    }
}

/// The whole part of a number and, behind a point, its decimals.
pub open spec fn number_parts(s: Seq<char>) -> (Seq<char>, Option<Seq<char>>) {
    let n = digit_run(s, 0);
    let m = digit_run(s, n + 1);
    if n < s.len() && s[n] == '.' {
        (s.take(n), Some(s.subrange(n + 1, n + 1 + m)))
    } else {
        (s.take(n), None)
    }
}

fn count_digits(cs: &Vec<char>, from: usize) -> (r: usize)
    requires
        from <= cs@.len(),
    ensures
        r == digit_run(cs@, from as int),
        r <= cs@.len() - from,
{
    let mut i: usize = from;
    while i < cs.len() && '0' <= cs[i] && cs[i] <= '9'
        invariant
            from <= i <= cs.len(),
            digit_run(cs@, from as int) == (i - from) + digit_run(cs@, i as int),
        decreases cs.len() - i,
    {
        i += 1;
    }
    i - from
}

/// The whole part of a number and, behind a point, its decimals.
pub fn split_number(s: &str) -> (r: (&str, Option<&str>))
    ensures
        r.0@ == number_parts(s@).0,
        match number_parts(s@).1 {
            Some(d) => r.1 matches Some(x) && x@ == d,
            None => r.1 is None,
        },
{
    let cs = to_chars(s);
    let n: usize = count_digits(&cs, 0);
    let whole = s.substring_char(0, n);
    assert(s@.subrange(0, n as int) =~= s@.take(n as int));
    if n < cs.len() && cs[n] == '.' {
        let m: usize = count_digits(&cs, n + 1);
        (whole, Some(s.substring_char(n + 1, n + 1 + m)))
    } else {
        (whole, None)
    }
}

/// A text without the letters it starts with.
pub open spec fn behind_letters(s: Seq<char>) -> Seq<char>
    decreases s.len(),
{
    if s.len() > 0 && is_ascii_letter(s[0]) {
        behind_letters(s.skip(1))
    } else {
        s
    }
}

/// A formal amount that starts with ten is written with one ten, where it
/// reaches ten thousand.
pub open spec fn formal_ten(amount: Seq<char>, digits: int) -> Seq<char> {
    if digits > 4 && amount.len() > 0 && amount[0] == '拾' && (amount.contains('万')
        || amount.contains('亿')) {
        seq!['壹'] + amount
    } else {
        amount
    }
}

/// The four readings of a number: as figures and as an amount, plain and
/// formal.
pub open spec fn number_readings(whole: Seq<char>, dec: Option<Seq<char>>) -> Seq<
    (Seq<char>, Option<Seq<char>>),
> {
    let ds = match dec {
        Some(d) => d,
        None => seq![],
    };
    let lower = NumberStyle::Lower;
    let upper = NumberStyle::Upper;
    let plain = if dec is Some {
        number_reading(whole, lower, '〇', ('万', '亿'), seq!['点']) + decimals_reading(ds, lower)
    } else {
        number_reading(whole, lower, '〇', ('万', '亿'), seq![])
    };
    let formal = if dec is Some {
        number_reading(whole, upper, '〇', ('萬', '億'), seq!['点']) + decimals_reading(ds, upper)
    } else {
        number_reading(whole, upper, '零', ('萬', '億'), seq![])
    };
    let plain_amount = number_reading(whole, lower, '〇', ('万', '亿'), seq!['元'])
        + coins_reading(ds, lower);
    let formal_amount = number_reading(whole, upper, '零', ('万', '亿'), seq!['元'])
        + coins_reading(ds, upper);
    seq![
        (plain, Some("〔数字小写〕"@)),
        (formal, Some("〔数字大写〕"@)),
        (plain_amount, Some("〔金额小写〕"@)),
        (formal_ten(formal_amount, whole.len() as int), Some("〔金额大写〕"@)),
    ]
}

/// What an input stands for.
pub open spec fn number_for(prefix: char, s: Seq<char>) -> Seq<(Seq<char>, Option<Seq<char>>)> {
    let (whole, dec) = number_parts(behind_letters(s));
    if s.len() == 0 || s[0] != prefix || (whole.len() == 0 && !(dec matches Some(d) && d.len()
        > 0)) {
        seq![]
    } else {
        number_readings(whole, dec)
    }
}

fn joined(a: Vec<char>, b: Vec<char>) -> (r: Vec<char>)
    ensures
        r@ == a@ + b@,
{
    let mut out = a;
    copy_part(&b, 0, b.len(), &mut out);
    assert(out@ =~= a@ + b@);
    out
}

fn holds(s: &Vec<char>, c: char) -> (r: bool)
    ensures
        r == s@.contains(c),
{
    let mut i: usize = 0;
    while i < s.len()
        invariant
            i <= s@.len(),
            forall|j: int| 0 <= j < i ==> s@[j] != c,
        decreases s.len() - i,
    {
        if s[i] == c {
            return true;
        }
        i += 1;
    }
    false
}

#[verifier::rlimit(30)]
fn all_readings(whole: &Vec<char>, dec: Option<&Vec<char>>) -> (r: Rendered)
    requires
        all_digits(whole@),
        dec matches Some(d) ==> all_digits(d@),
    ensures
        rendered_view(r@) == number_readings(
            whole@,
            match dec {
                Some(d) => Some(d@),
                None => None,
            },
        ),
        r@.len() == 4,
{
    let lower = NumberStyle::Lower;
    let upper = NumberStyle::Upper;
    let mut ds: Vec<char> = Vec::new();
    if let Some(d) = dec {
        copy_part(d, 0, d.len(), &mut ds);
        assert(ds@ =~= d@);
    } else {
        assert(ds@ =~= seq![]);
    }
    let plain = if dec.is_some() {
        joined(
            number_to_chinese(whole, lower, '〇', ('万', '亿'), Some('点')),
            digit_by_digit(&ds, lower),
        )
    } else {
        number_to_chinese(whole, lower, '〇', ('万', '亿'), None)
    };
    let formal = if dec.is_some() {
        joined(
            number_to_chinese(whole, upper, '〇', ('萬', '億'), Some('点')),
            digit_by_digit(&ds, upper),
        )
    } else {
        number_to_chinese(whole, upper, '零', ('萬', '億'), None)
    };
    let plain_amount = joined(
        number_to_chinese(whole, lower, '〇', ('万', '亿'), Some('元')),
        decimal_func(&ds, lower),
    );
    let amount = joined(
        number_to_chinese(whole, upper, '零', ('万', '亿'), Some('元')),
        decimal_func(&ds, upper),
    );
    let ghost was = amount@;
    let formal_amount = if whole.len() > 4 && amount.len() > 0 && amount[0] == '拾' && (holds(
        &amount,
        '万',
    ) || holds(&amount, '亿')) {
        let one: Vec<char> = vec!['壹'];
        assert(one@ =~= seq!['壹']);
        joined(one, amount)
    } else {
        amount
    };
    assert(formal_amount@ == formal_ten(was, whole@.len() as int));
    let mut out: Rendered = Vec::new();
    out.push((from_chars(plain.as_slice()), Some("〔数字小写〕".to_owned())));
    out.push((from_chars(formal.as_slice()), Some("〔数字大写〕".to_owned())));
    out.push((from_chars(plain_amount.as_slice()), Some("〔金额小写〕".to_owned())));
    out.push((from_chars(formal_amount.as_slice()), Some("〔金额大写〕".to_owned())));
    assert(rendered_view(out@) =~= number_readings(
        whole@,
        match dec {
            Some(d) => Some(d@),
            None => None,
        },
    ));
    out
}

fn skip_letters(cs: &Vec<char>) -> (r: Vec<char>)
    ensures
        r@ == behind_letters(cs@),
{
    let mut from: usize = 0;
    assert(cs@.skip(0) =~= cs@);
    while from < cs.len() && (('a' <= cs[from] && cs[from] <= 'z') || ('A' <= cs[from] && cs[from]
        <= 'Z'))
        invariant
            from <= cs@.len(),
            behind_letters(cs@) == behind_letters(cs@.skip(from as int)),
        decreases cs.len() - from,
    {
        let ghost t = cs@.skip(from as int);
        assert(t[0] == cs@[from as int]);
        assert(t.skip(1) =~= cs@.skip(from + 1));
        from += 1;
    }
    let ghost body = cs@.skip(from as int);
    assert(from < cs@.len() ==> body[0] == cs@[from as int]);
    let mut rest: Vec<char> = Vec::new();
    copy_part(cs, from, cs.len(), &mut rest);
    assert(rest@ =~= body);
    rest
}

fn take_parts(cs: &Vec<char>) -> (r: (Vec<char>, Option<Vec<char>>))
    ensures
        r.0@ == number_parts(cs@).0,
        match number_parts(cs@).1 {
            Some(d) => r.1 matches Some(x) && x@ == d && all_digits(x@),
            None => r.1 is None,
        },
        all_digits(r.0@),
{
    let n: usize = count_digits(cs, 0);
    let mut whole: Vec<char> = Vec::new();
    copy_part(cs, 0, n, &mut whole);
    assert(whole@ =~= cs@.take(n as int));
    proof {
        digit_run_bounds(cs@, 0);
    }
    if n < cs.len() && cs[n] == '.' {
        let m: usize = count_digits(cs, n + 1);
        let mut dec: Vec<char> = Vec::new();
        copy_part(cs, n + 1, n + 1 + m, &mut dec);
        assert(dec@ =~= cs@.subrange(n + 1, n + 1 + m));
        proof {
            digit_run_bounds(cs@, n + 1);
            assert forall|i: int| 0 <= i < dec@.len() implies is_digit(#[trigger] dec@[i]) by {
                assert(is_digit(cs@[n + 1 + i]));
            }
        }
        (whole, Some(dec))
    } else {
        (whole, None)
    }
}

impl NumberTranslator {
    pub fn new(spec: &NumberSpec, tags: Vec<Tag>) -> (r: Self)
        ensures
            r.prefix == spec.prefix,
            r.tags == tags,
    {
        NumberTranslator { prefix: spec.prefix, tags }
    }

    /// The readings of the number in an input.
    pub fn render(&self, input: &str) -> (r: Rendered)
        ensures
            rendered_view(r@) == number_for(self.prefix, input@),
            r@.len() <= 4,
    {
        let cs = to_chars(input);
        let nothing: Rendered = Vec::new();
        assert(rendered_view(nothing@) =~= seq![]);
        if cs.len() == 0 || cs[0] != self.prefix {
            return nothing;
        }
        let (whole, dec) = take_parts(&skip_letters(&cs));
        match dec {
            Some(d) => {
                if whole.len() == 0 && d.len() == 0 {
                    nothing
                } else {
                    all_readings(&whole, Some(&d))
                }
            },
            None => {
                if whole.len() == 0 {
                    nothing
                } else {
                    all_readings(&whole, None)
                }
            },
        }
    }

    /// Offers what [`NumberTranslator::render`] gives to a buffer of `cap`
    /// places.
    pub fn translate(&self, segment: &str, span: Span, out: &mut Vec<Candidate>, cap: usize)
        ensures
            views(final(out)@) == poured(
                views(old(out)@),
                inline_cands(number_for(self.prefix, segment@), span),
                cap as int,
            ),
    {
        let rendered = self.render(segment);
        emit(rendered, span, out, cap);
    }
}

} // verus!
