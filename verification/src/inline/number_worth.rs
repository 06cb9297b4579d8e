//! What a number read aloud is worth: a listener who knows what each character
//! stands for hears the number that was typed.

use vstd::prelude::*;
use crate::inline::number::{
    all_digits, behind_letters, coins, coins_reading, collapsed, decimals_reading, digit_reading,
    digit_run, figure, first_place, formal_ten, group_reading, grouped, nought, number_for,
    number_reading, number_readings, place_name, replaced_once, significant, spelled_group,
    stands_in, ten_first, tidied, without_first, without_last, worth, NumberStyle,
};
use crate::text::{is_ascii_letter, is_digit};

verus! {

// ---------------------------------------------------------------------------
// The listener
// ---------------------------------------------------------------------------

/// What a character counts by itself: one to nine, plain or formal.
pub open spec fn counts(c: char) -> int {
    if c == '一' || c == '壹' {
        1
    } else if c == '二' || c == '贰' {
        2
    } else if c == '三' || c == '叁' {
        3
    } else if c == '四' || c == '肆' {
        4
    } else if c == '五' || c == '伍' {
        5
    } else if c == '六' || c == '陆' {
        6
    } else if c == '七' || c == '柒' {
        7
    } else if c == '八' || c == '捌' {
        8
    } else if c == '九' || c == '玖' {
        9
    } else {
        0
    }
}

/// By how much a character multiplies the figure before it.
pub open spec fn multiplies(c: char) -> int {
    if c == '十' || c == '拾' {
        10
    } else if c == '百' || c == '佰' {
        100
    } else if c == '千' || c == '仟' {
        1000
    } else {
        0
    }
}

/// By how much a character multiplies all that was said since the last such one.
pub open spec fn raises(c: char) -> int {
    if c == '万' || c == '萬' {
        10_000
    } else if c == '亿' || c == '億' {
        100_000_000
    } else {
        0
    }
}

/// What was heard so far: what is settled, what waits for a scale, and a figure
/// that waits for its place.
pub struct Heard {
    pub settled: int,
    pub waiting: int,
    pub figure: int,
}

/// Nothing heard yet.
pub open spec fn silence() -> Heard {
    Heard { settled: 0, waiting: 0, figure: 0 }
}

/// What is heard with one more character. Ten said without a figure is one ten.
pub open spec fn hear(h: Heard, c: char) -> Heard {
    if counts(c) > 0 {
        Heard { figure: counts(c), ..h }
    } else if multiplies(c) > 0 {
        Heard {
            waiting: h.waiting + (if h.figure == 0 {
                1
            } else {
                h.figure
            }) * multiplies(c),
            figure: 0,
            ..h
        }
    } else if raises(c) > 0 {
        Heard {
            settled: h.settled + (h.waiting + h.figure) * raises(c),
            waiting: 0,
            figure: 0,
        }
    } else {
        h
    }
}

/// What is heard with a text.
pub open spec fn listened(h: Heard, s: Seq<char>) -> Heard
    decreases s.len(),
{
    if s.len() == 0 {
        h
    } else {
        hear(listened(h, s.drop_last()), s.last())
    }
}

/// The number that a text tells.
pub open spec fn told(s: Seq<char>) -> int {
    let h = listened(silence(), s);
    h.settled + h.waiting + h.figure
}

/// The number that digits write.
pub open spec fn written(digits: Seq<char>) -> int
    decreases digits.len(),
{
    if digits.len() == 0 {
        0
    } else {
        10 * written(digits.drop_last()) + (digits.last() as int - '0' as int)
    }
}

proof fn listened_on(h: Heard, a: Seq<char>, b: Seq<char>)
    ensures
        listened(h, a + b) == listened(listened(h, a), b),
    decreases b.len(),
{
    if b.len() == 0 {
        assert(a + b =~= a);
    } else {
        listened_on(h, a, b.drop_last());
        assert((a + b).drop_last() =~= a + b.drop_last());
        assert((a + b).last() == b.last());
    }
}

proof fn heard_one(h: Heard, c: char)
    ensures
        listened(h, seq![c]) == hear(h, c),
{
    reveal_with_fuel(listened, 2);
    assert(seq![c].drop_last() =~= Seq::<char>::empty());
}

// ---------------------------------------------------------------------------
// Noughts are not heard
// ---------------------------------------------------------------------------

spec fn is_nought(c: char) -> bool {
    c == '〇' || c == '零'
}

proof fn a_place_stands(s: Seq<char>, t: Seq<char>, from: int)
    requires
        0 <= from,
    ensures
        match first_place(s, t, from) {
            Some(i) => from <= i && stands_in(s, t, i) && forall|j: int|
                from <= j < i ==> !#[trigger] stands_in(s, t, j),
            None => forall|j: int| from <= j <= s.len() ==> !#[trigger] stands_in(s, t, j),
        },
    decreases s.len() + 1 - from,
{
    if from <= s.len() && !stands_in(s, t, from) {
        a_place_stands(s, t, from + 1);
    }
}

proof fn two_stand(s: Seq<char>, p: char, q: char, i: int)
    ensures
        stands_in(s, seq![p, q], i) <==> 0 <= i && i + 2 <= s.len() && s[i] == p && s[i + 1] == q,
{
    if 0 <= i && i + 2 <= s.len() {
        let sub = s.subrange(i, i + 2);
        if sub == seq![p, q] {
            assert(sub[0] == s[i] && sub[1] == s[i + 1]);
        }
        if s[i] == p && s[i + 1] == q {
            assert(sub =~= seq![p, q]);
        }
    }
}

/// Where the first double nought was.
proof fn collapsing(s: Seq<char>, z: char)
    ensures
        match first_place(s, seq![z, z], 0) {
            Some(i) => 0 <= i && i + 2 <= s.len() && s[i] == z && s[i + 1] == z && collapsed(s, z)
                == s.take(i) + seq![z] + s.skip(i + 2) && forall|j: int|
                0 <= j < i ==> !((#[trigger] s[j]) == z && s[j + 1] == z),
            None => collapsed(s, z) == s && forall|j: int|
                0 <= j < s.len() - 1 ==> !((#[trigger] s[j]) == z && s[j + 1] == z),
        },
{
    a_place_stands(s, seq![z, z], 0);
    match first_place(s, seq![z, z], 0) {
        Some(i) => {
            two_stand(s, z, z, i);
            assert forall|j: int| 0 <= j < i implies !((#[trigger] s[j]) == z && s[j + 1] == z) by {
                two_stand(s, z, z, j);
                assert(!stands_in(s, seq![z, z], j));
            }
        },
        None => {
            assert forall|j: int| 0 <= j < s.len() - 1 implies !((#[trigger] s[j]) == z && s[j + 1]
                == z) by {
                two_stand(s, z, z, j);
                assert(!stands_in(s, seq![z, z], j));
            }
        },
    }
}

proof fn collapsing_is_not_heard(h: Heard, s: Seq<char>, z: char)
    requires
        is_nought(z),
    ensures
        listened(h, collapsed(s, z)) == listened(h, s),
{
    collapsing(s, z);
    match first_place(s, seq![z, z], 0) {
        Some(i) => {
            let a = s.take(i);
            let b = s.skip(i + 2);
            assert(s =~= a + (seq![z] + (seq![z] + b)));
            assert(a + seq![z] + b =~= a + (seq![z] + b));
            listened_on(h, a, seq![z] + (seq![z] + b));
            listened_on(h, a, seq![z] + b);
            let k = listened(h, a);
            listened_on(k, seq![z], seq![z] + b);
            listened_on(k, seq![z], b);
            heard_one(k, z);
        },
        None => {},
    }
}

proof fn the_end_is_not_heard(h: Heard, s: Seq<char>, z: char)
    requires
        is_nought(z),
    ensures
        listened(h, without_last(s, z)) == listened(h, s),
{
}

// ---------------------------------------------------------------------------
// One group
// ---------------------------------------------------------------------------

spec fn zeros_only(num: Seq<char>) -> bool {
    forall|i: int| 0 <= i < num.len() ==> #[trigger] num[i] == '0'
}

/// The characters of a group: figures, noughts and places.
spec fn of_group(style: NumberStyle, c: char) -> bool {
    &&& raises(c) == 0
    &&& is_nought(c) ==> c == nought(style)
}

proof fn digits_are_told(style: NumberStyle, c: char, place: int)
    requires
        is_digit(c),
        0 <= place <= 3,
    ensures
        ({
            let r = digit_reading(style, c, place);
            let w = c as int - '0' as int;
            let p = if place == 0 {
                1
            } else if place == 1 {
                10
            } else if place == 2 {
                100
            } else {
                1000int
            };
            &&& forall|h: Heard|
                h.figure == 0 ==> {
                    let k = #[trigger] listened(h, r);
                    &&& k.settled == h.settled
                    &&& k.waiting + k.figure == h.waiting + w * p
                    &&& place > 0 ==> k.figure == 0
                }
            &&& r.len() > 0
            &&& forall|i: int| 0 <= i < r.len() ==> of_group(style, #[trigger] r[i])
            &&& w == 0 ==> r == seq![nought(style)]
            &&& w > 0 ==> !is_nought(r[0]) && !is_nought(r.last()) && r.len() == (if place == 0 {
                1
            } else {
                2int
            }) && counts(r[0]) == w
        }),
{
    let r = digit_reading(style, c, place);
    let w = worth(c);
    if w == 0 {
        assert forall|h: Heard| h.figure == 0 implies #[trigger] listened(h, r) == h by {
            heard_one(h, nought(style));
        }
    } else {
        let f = figure(style, w);
        assert(counts(f) == w);
        if place == 0 {
            assert(r =~= seq![f]);
            assert forall|h: Heard| h.figure == 0 implies #[trigger] listened(h, r) == hear(
                h,
                f,
            ) by {
                heard_one(h, f);
            }
        } else {
            let g = place_name(style, place)[0];
            assert(place_name(style, place) =~= seq![g]);
            assert(r =~= seq![f] + seq![g]);
            assert forall|h: Heard| h.figure == 0 implies #[trigger] listened(h, r) == hear(
                hear(h, f),
                g,
            ) by {
                heard_one(h, f);
                heard_one(hear(h, f), g);
                listened_on(h, seq![f], seq![g]);
            }
            assert(multiplies(g) == (if place == 1 {
                10
            } else if place == 2 {
                100
            } else {
                1000int
            }));
            assert forall|h: Heard| h.figure == 0 implies ({
                let k = #[trigger] listened(h, r);
                k.settled == h.settled && k.waiting == h.waiting + w * multiplies(g) && k.figure
                    == 0
            }) by {
                assert(hear(h, f).figure == w);
            }
        }
    }
}

proof fn written_from_the_left(digits: Seq<char>)
    requires
        0 < digits.len() <= 4,
    ensures
        written(digits) == (digits[0] as int - '0' as int) * (if digits.len() == 1 {
            1
        } else if digits.len() == 2 {
            10
        } else if digits.len() == 3 {
            100
        } else {
            1000int
        }) + written(digits.skip(1)),
    decreases digits.len(),
{
    if digits.len() == 1 {
        assert(digits.drop_last() =~= Seq::<char>::empty());
        assert(digits.skip(1) =~= Seq::<char>::empty());
    } else {
        written_from_the_left(digits.drop_last());
        assert(digits.drop_last().skip(1) =~= digits.skip(1).drop_last());
        assert(digits.skip(1).last() == digits.last());
    }
}

proof fn spelled_groups_are_told(style: NumberStyle, num: Seq<char>, h: Heard)
    requires
        num.len() <= 4,
        all_digits(num),
        h.figure == 0,
    ensures
        ({
            let s = spelled_group(style, num);
            let k = listened(h, s);
            &&& k.settled == h.settled
            &&& k.waiting + k.figure == h.waiting + written(num)
            &&& s.len() >= num.len()
            &&& forall|i: int| 0 <= i < s.len() ==> of_group(style, #[trigger] s[i])
            &&& num.len() > 0 ==> (s[0] == nought(style) <==> num[0] == '0')
            &&& num.len() > 0 && num[0] != '0' ==> counts(s[0]) == num[0] as int - '0' as int
            &&& num.len() > 0 ==> (s.last() == nought(style) <==> num.last() == '0')
            &&& num.len() > 1 && num.last() == '0' ==> (s[s.len() - 2] == nought(style)
                <==> num[num.len() - 2] == '0')
        }),
    decreases num.len(),
{
    if num.len() > 0 {
        let d = digit_reading(style, num[0], num.len() - 1);
        let rest = num.skip(1);
        let t = spelled_group(style, rest);
        digits_are_told(style, num[0], num.len() - 1);
        written_from_the_left(num);
        assert forall|i: int| 0 <= i < rest.len() implies is_digit(#[trigger] rest[i]) by {
            assert(rest[i] == num[i + 1]);
        }
        listened_on(h, d, t);
        if num.len() > 1 {
            spelled_groups_are_told(style, rest, listened(h, d));
            assert(rest.last() == num.last());
            assert((d + t).last() == t.last());
            if rest.len() > 1 {
                assert(rest[rest.len() - 2] == num[num.len() - 2]);
                assert((d + t)[(d + t).len() - 2] == t[t.len() - 2]);
            } else if num.last() == '0' {
                digits_are_told(style, rest[0], 0);
                reveal_with_fuel(spelled_group, 2);
                assert(t =~= seq![nought(style)]);
                assert((d + t)[(d + t).len() - 2] == d.last());
            }
        } else {
            assert(rest =~= Seq::<char>::empty());
            assert(d + t =~= d);
        }
    } else {
        assert(written(num) == 0);
    }
}

/// A group that is not nought reads on to a figure or a place, not to a nought.
proof fn groups_are_told(style: NumberStyle, num: Seq<char>, h: Heard)
    requires
        0 < num.len() <= 4,
        all_digits(num),
        h.figure == 0,
    ensures
        ({
            let r = group_reading(style, num);
            let k = listened(h, r);
            &&& k.settled == h.settled
            &&& k.waiting + k.figure == h.waiting + written(num)
            &&& r.len() > 0
            &&& forall|i: int| 0 <= i < r.len() ==> of_group(style, #[trigger] r[i])
            &&& zeros_only(num) ==> r == seq![nought(style)] && written(num) == 0
            &&& !zeros_only(num) ==> r.last() != nought(style)
            &&& num[0] != '0' ==> counts(r[0]) == num[0] as int - '0' as int
        }),
{
    let z = nought(style);
    let r = group_reading(style, num);
    if zeros_only(num) {
        heard_one(h, z);
        zeros_write_nothing(num);
    } else {
        let s = spelled_group(style, num);
        let c = collapsed(s, z);
        spelled_groups_are_told(style, num, h);
        collapsing(s, z);
        collapsing_is_not_heard(h, s, z);
        the_end_is_not_heard(h, c, z);
        the_end_is_not_heard(h, without_last(c, z), z);
        assert(is_nought(z));
        assert forall|i: int| 0 <= i < c.len() implies of_group(style, #[trigger] c[i]) by {}
        group_ends(style, num);
        assert forall|i: int| 0 <= i < r.len() implies of_group(style, #[trigger] r[i]) by {
            assert(r[i] == c[i]);
        }
        if num[0] != '0' {
            assert(s[0] != z);
            assert(c[0] == s[0]);
            assert(r[0] == c[0]);
        }
    }
}

proof fn zeros_write_nothing(num: Seq<char>)
    requires
        zeros_only(num),
    ensures
        written(num) == 0,
    decreases num.len(),
{
    if num.len() > 0 {
        assert forall|i: int| 0 <= i < num.len() - 1 implies #[trigger] num.drop_last()[i]
            == '0' by {
            assert(num.drop_last()[i] == num[i]);
        }
        zeros_write_nothing(num.drop_last());
        assert(num[num.len() - 1] == '0');
    }
}

#[verifier::rlimit(60)]
proof fn group_ends(style: NumberStyle, num: Seq<char>)
    requires
        0 < num.len() <= 4,
        all_digits(num),
        !zeros_only(num),
    ensures
        group_reading(style, num).len() > 0,
        group_reading(style, num).last() != nought(style),
        group_reading(style, num).is_prefix_of(collapsed(spelled_group(style, num), nought(style))),
{
    let z = nought(style);
    let s = spelled_group(style, num);
    let c = collapsed(s, z);
    let n = num.len() as int;
    spelled_groups_are_told(style, num, silence());
    collapsing(s, z);
    if num.last() != '0' {
        assert(c.last() == s.last());
    } else {
        assert(num[n - 1] == '0');
        if num[n - 2] != '0' {
            assert(s.len() >= 2 && s[s.len() - 1] == z && s[s.len() - 2] != z);
            assert(c[c.len() - 1] == z && c[c.len() - 2] == s[s.len() - 2]);
        } else if num[n - 3] != '0' {
            reveal_with_fuel(spelled_group, 5);
            digits_are_told(style, num[n - 3], 2);
            digits_are_told(style, num[n - 2], 1);
            digits_are_told(style, num[n - 1], 0);
            let y = digit_reading(style, num[n - 3], 2);
            let end = y + seq![z, z];
            if n == 3 {
                assert(num.skip(1)[0] == num[1] && num.skip(1).skip(1)[0] == num[2]);
                assert(s =~= end);
                assert(s[2] == z && s[3] == z && s[0] != z && s[1] != z);
                assert(c =~= y + seq![z]);
            } else {
                digits_are_told(style, num[0], 3);
                let x = digit_reading(style, num[0], 3);
                assert(num.skip(1)[0] == num[1] && num.skip(1).skip(1)[0] == num[2]
                    && num.skip(1).skip(1).skip(1)[0] == num[3]);
                assert(s =~= x + end);
                let m = x.len() as int;
                assert(s[m] == y[0] && s[m + 1] == y[1]);
                assert(s[m + 2] == z && s[m + 3] == z);
                assert(c =~= x + y + seq![z]);
            }
        } else {
            assert(num[0] != '0');
            reveal_with_fuel(spelled_group, 5);
            digits_are_told(style, num[0], 3);
            digits_are_told(style, num[1], 2);
            digits_are_told(style, num[2], 1);
            digits_are_told(style, num[3], 0);
            let y = digit_reading(style, num[0], 3);
            assert(num.skip(1)[0] == num[1] && num.skip(1).skip(1)[0] == num[2]
                && num.skip(1).skip(1).skip(1)[0] == num[3]);
            assert(s =~= y + seq![z, z, z]);
            assert(s[0] != z && s[1] != z && s[2] == z && s[3] == z);
            assert(c =~= y + seq![z, z]);
        }
    }
}

// ---------------------------------------------------------------------------
// Whole numbers
// ---------------------------------------------------------------------------

proof fn four_more_digits(digits: Seq<char>)
    requires
        digits.len() >= 4,
    ensures
        written(digits) == 10_000 * written(digits.take(digits.len() - 4)) + written(
            digits.skip(digits.len() - 4),
        ),
{
    let n = digits.len() as int;
    reveal_with_fuel(written, 5);
    let d = digits.skip(n - 4);
    assert(d.drop_last() =~= digits.subrange(n - 4, n - 1));
    assert(d.drop_last().drop_last() =~= digits.subrange(n - 4, n - 2));
    assert(d.drop_last().drop_last().drop_last() =~= digits.subrange(n - 4, n - 3));
    assert(d.drop_last().drop_last().drop_last().drop_last() =~= Seq::<char>::empty());
    assert(digits.drop_last().drop_last().drop_last().drop_last() =~= digits.take(n - 4));
    assert(d[3] == digits[n - 1] && d[2] == digits[n - 2] && d[1] == digits[n - 3] && d[0]
        == digits[n - 4]);
}

proof fn parts_of_digits(digits: Seq<char>, a: int, b: int)
    requires
        all_digits(digits),
        0 <= a <= b <= digits.len(),
    ensures
        all_digits(digits.subrange(a, b)),
{
    let d = digits.subrange(a, b);
    assert forall|i: int| 0 <= i < d.len() implies is_digit(#[trigger] d[i]) by {
        assert(d[i] == digits[a + i]);
    }
}

proof fn not_there(s: Seq<char>, p: char, q: char)
    requires
        forall|i: int| 0 <= i < s.len() - 1 ==> !((#[trigger] s[i]) == p && s[i + 1] == q),
    ensures
        replaced_once(s, seq![p, q], seq![]) == s,
{
    a_place_stands(s, seq![p, q], 0);
    if let Some(i) = first_place(s, seq![p, q], 0) {
        two_stand(s, p, q, i);
        assert(s[i] == p && s[i + 1] == q);
    }
}

proof fn there_once(s: Seq<char>, p: char, q: char, at: int)
    requires
        0 <= at && at + 2 <= s.len(),
        s[at] == p && s[at + 1] == q,
        forall|i: int| 0 <= i < s.len() && i != at + 1 ==> #[trigger] s[i] != q,
    ensures
        replaced_once(s, seq![p, q], seq![]) == s.take(at) + s.skip(at + 2),
{
    a_place_stands(s, seq![p, q], 0);
    two_stand(s, p, q, at);
    let t = seq![p, q];
    assert(stands_in(s, t, at));
    if let Some(i) = first_place(s, t, 0) {
        two_stand(s, p, q, i);
        assert(s[i + 1] == q);
        assert(i == at);
    }
    assert(s.take(at) + Seq::<char>::empty() + s.skip(at + 2) =~= s.take(at) + s.skip(at + 2));
}

/// The two pairs of scales, plain and formal.
pub open spec fn scales(scale: (char, char)) -> bool {
    scale == ('万', '亿') || scale == ('萬', '億')
}

proof fn tidied_groups_of_four(digits: Seq<char>, style: NumberStyle, zero: char, scale: (char, char))
    requires
        0 < digits.len() <= 4,
        all_digits(digits),
        digits[0] != '0',
        is_nought(zero),
        scales(scale),
    ensures
        ({
            let t = tidied(grouped(digits, style, scale), zero, scale);
            &&& told(t) == written(digits)
            &&& t.len() > 0 && counts(t[0]) > 0
        }),
{
    let g = group_reading(style, digits);
    let h = silence();
    groups_are_told(style, digits, h);
    assert(!is_nought(g[0]));
    not_there(g, zero, scale.0);
    not_there(g, zero, scale.1);
    collapsing_is_not_heard(h, g, zero);
    collapsing(g, zero);
    the_end_is_not_heard(h, collapsed(g, zero), zero);
    assert(collapsed(g, zero)[0] == g[0]);
    assert(tidied(g, zero, scale)[0] == g[0]);
}

proof fn tidied_groups_of_eight(
    digits: Seq<char>,
    style: NumberStyle,
    zero: char,
    scale: (char, char),
)
    requires
        4 < digits.len() <= 8,
        all_digits(digits),
        digits[0] != '0',
        is_nought(zero),
        scales(scale),
    ensures
        ({
            let t = tidied(grouped(digits, style, scale), zero, scale);
            &&& told(t) == written(digits)
            &&& t.len() > 0 && counts(t[0]) > 0
        }),
{
    let n = digits.len() as int;
    let d1 = digits.take(n - 4);
    let d2 = digits.skip(n - 4);
    let g1 = group_reading(style, d1);
    let g2 = group_reading(style, d2);
    let w = seq![scale.0];
    let s = g1 + w + g2;
    parts_of_digits(digits, 0, n - 4);
    parts_of_digits(digits, n - 4, n);
    assert(d1 =~= digits.subrange(0, n - 4));
    assert(d2 =~= digits.subrange(n - 4, n));
    four_more_digits(digits);
    let h = silence();
    groups_are_told(style, d1, h);
    assert(d1[0] == digits[0]);
    let h1 = listened(h, g1);
    heard_one(h1, scale.0);
    let h2 = hear(h1, scale.0);
    groups_are_told(style, d2, h2);
    listened_on(h, g1, w);
    listened_on(h, g1 + w, g2);
    assert(s[0] == g1[0] && !is_nought(s[0]));
    let m = g1.len() as int;
    assert(s[m - 1] == g1.last() && s[m - 1] != zero);
    assert(s[m] == scale.0);
    assert forall|i: int| 0 <= i < s.len() && i != m implies raises(#[trigger] s[i]) == 0 by {
        if i < m {
            assert(s[i] == g1[i]);
        } else {
            assert(s[i] == g2[i - m - 1]);
        }
    }
    assert forall|i: int| 0 <= i < s.len() - 1 implies !((#[trigger] s[i]) == zero && s[i + 1]
        == scale.0) by {
        assert(i + 1 == m || raises(s[i + 1]) == 0);
    }
    assert forall|i: int| 0 <= i < s.len() - 1 implies !((#[trigger] s[i]) == zero && s[i + 1]
        == scale.1) by {
        assert(i + 1 == m || raises(s[i + 1]) == 0);
    }
    not_there(s, zero, scale.0);
    not_there(s, zero, scale.1);
    collapsing_is_not_heard(h, s, zero);
    collapsing(s, zero);
    the_end_is_not_heard(h, collapsed(s, zero), zero);
    assert(collapsed(s, zero)[0] == s[0]);
    assert(tidied(s, zero, scale)[0] == s[0]);
}

#[verifier::rlimit(60)]
proof fn tidied_groups_of_twelve(
    digits: Seq<char>,
    style: NumberStyle,
    zero: char,
    scale: (char, char),
)
    requires
        8 < digits.len() <= 12,
        all_digits(digits),
        digits[0] != '0',
        is_nought(zero),
        scales(scale),
    ensures
        ({
            let t = tidied(grouped(digits, style, scale), zero, scale);
            &&& told(t) == written(digits)
            &&& t.len() > 0 && counts(t[0]) > 0
        }),
{
    let n = digits.len() as int;
    let d1 = digits.take(n - 8);
    let d2 = digits.subrange(n - 8, n - 4);
    let d3 = digits.skip(n - 4);
    let g1 = group_reading(style, d1);
    let g2 = group_reading(style, d2);
    let g3 = group_reading(style, d3);
    let y = seq![scale.1];
    let w = seq![scale.0];
    let s = g1 + y + g2 + w + g3;
    parts_of_digits(digits, 0, n - 8);
    parts_of_digits(digits, n - 8, n - 4);
    parts_of_digits(digits, n - 4, n);
    assert(d1 =~= digits.subrange(0, n - 8));
    assert(d3 =~= digits.subrange(n - 4, n));
    four_more_digits(digits);
    four_more_digits(digits.take(n - 4));
    assert(digits.take(n - 4).take(n - 8) =~= d1);
    assert(digits.take(n - 4).skip(n - 8) =~= d2);
    let h = silence();
    groups_are_told(style, d1, h);
    assert(d1[0] == digits[0]);
    let h1 = listened(h, g1);
    heard_one(h1, scale.1);
    let h2 = hear(h1, scale.1);
    groups_are_told(style, d2, h2);
    let h3 = listened(h2, g2);
    heard_one(h3, scale.0);
    let h4 = hear(h3, scale.0);
    groups_are_told(style, d3, h4);
    listened_on(h, g1, y);
    listened_on(h, g1 + y, g2);
    listened_on(h, g1 + y + g2, w);
    listened_on(h, g1 + y + g2 + w, g3);
    let m = g1.len() as int;
    let k = m + 1 + g2.len();
    assert(s[m] == scale.1);
    assert(s[k] == scale.0);
    assert(s[m - 1] == g1.last());
    assert(s[k - 1] == g2.last());
    assert(s[0] == g1[0] && !is_nought(s[0]));
    assert forall|i: int| 0 <= i < s.len() && i != m && i != k implies raises(#[trigger] s[i])
        == 0 by {
        if i < m {
            assert(s[i] == g1[i]);
        } else if i < k {
            assert(s[i] == g2[i - m - 1]);
        } else {
            assert(s[i] == g3[i - k - 1]);
        }
    }
    assert(of_group(style, g1[m - 1]));
    assert(of_group(style, g2[g2.len() - 1]));
    let b = replaced_once(s, seq![zero, scale.0], seq![]);
    if g2.last() == zero {
        assert(zeros_only(d2));
        assert(h2.waiting == 0 && h2.figure == 0);
        there_once(s, zero, scale.0, k - 1);
        assert(s.take(k - 1) =~= g1 + y);
        assert(s.skip(k + 1) =~= g3);
        assert(b == g1 + y + g3);
        listened_on(h, g1 + y, g3);
        assert(h3 == h2) by {
            heard_one(h2, nought(style));
        }
        assert(h4 == h2);
        assert(listened(h, b) == listened(h, s));
        assert forall|i: int| 0 <= i < b.len() && i != m implies raises(#[trigger] b[i]) == 0 by {
            if i < m {
                assert(b[i] == g1[i]);
            } else {
                assert(b[i] == g3[i - m - 1]);
            }
        }
        assert(b[m - 1] == g1.last() && b[m] == scale.1 && b[0] == g1[0]);
        assert forall|i: int| 0 <= i < b.len() - 1 implies !((#[trigger] b[i]) == zero && b[i + 1]
            == scale.1) by {
            assert(i + 1 == m || raises(b[i + 1]) == 0);
        }
    } else {
        assert forall|i: int| 0 <= i < s.len() - 1 implies !((#[trigger] s[i]) == zero && s[i + 1]
            == scale.0) by {
            assert(i + 1 == m || i + 1 == k || raises(s[i + 1]) == 0);
        }
        not_there(s, zero, scale.0);
        assert forall|i: int| 0 <= i < b.len() - 1 implies !((#[trigger] b[i]) == zero && b[i + 1]
            == scale.1) by {
            assert(i + 1 == m || i + 1 == k || raises(s[i + 1]) == 0);
        }
    }
    not_there(b, zero, scale.1);
    collapsing_is_not_heard(h, b, zero);
    collapsing(b, zero);
    the_end_is_not_heard(h, collapsed(b, zero), zero);
    assert(collapsed(b, zero)[0] == b[0]);
    assert(tidied(s, zero, scale)[0] == b[0]);
}

proof fn starting_with_ten_is_not_heard(s: Seq<char>, style: NumberStyle)
    ensures
        told(ten_first(s, style)) == told(s),
        s.len() > 0 ==> ten_first(s, style).len() > 0,
{
    let one = figure(style, 1);
    let ten = place_name(style, 1);
    let t = ten[0];
    assert(ten =~= seq![t]);
    if (seq![one] + ten).is_prefix_of(s) {
        let h = silence();
        let rest = s.skip(2);
        assert((seq![one] + ten)[0] == s[0] && (seq![one] + ten)[1] == s[1]);
        assert(s =~= seq![one] + (seq![t] + rest));
        listened_on(h, seq![one], seq![t] + rest);
        heard_one(h, one);
        listened_on(hear(h, one), seq![t], rest);
        heard_one(hear(h, one), t);
        listened_on(h, seq![t], rest);
        heard_one(h, t);
        assert(hear(hear(h, one), t) == hear(h, t));
    }
}

/// A number of up to twelve digits that does not start with a nought is read as
/// itself: a listener hears the number that the digits write, whichever
/// characters the reading uses. What follows the number stands behind it.
pub proof fn readings_tell_the_number(
    digits: Seq<char>,
    style: NumberStyle,
    zero: char,
    scale: (char, char),
    tail: Seq<char>,
)
    requires
        0 < digits.len() <= 12,
        all_digits(digits),
        digits[0] != '0',
        zero == '〇' || zero == '零',
        scales(scale),
    ensures
        told(number_reading(digits, style, zero, scale, seq![])) == written(digits),
        number_reading(digits, style, zero, scale, tail) == number_reading(
            digits,
            style,
            zero,
            scale,
            seq![],
        ) + tail,
{
    let n = digits.len();
    let t = tidied(grouped(digits, style, scale), zero, scale);
    if n <= 4 {
        tidied_groups_of_four(digits, style, zero, scale);
        assert(t + Seq::<char>::empty() =~= t);
    } else {
        if n <= 8 {
            tidied_groups_of_eight(digits, style, zero, scale);
        } else {
            tidied_groups_of_twelve(digits, style, zero, scale);
        }
        starting_with_ten_is_not_heard(t, style);
        let u = ten_first(t, style);
        assert(u + Seq::<char>::empty() =~= u);
    }
}

proof fn all_run(s: Seq<char>, from: int, n: int)
    requires
        0 <= from <= n <= s.len(),
        forall|i: int| from <= i < n ==> is_digit(#[trigger] s[i]),
        n < s.len() ==> !is_digit(s[n]),
    ensures
        digit_run(s, from) == n - from,
    decreases n - from,
{
    if from < n {
        all_run(s, from + 1, n);
    }
}

/// A prefix and a number stand for four readings of the number; with a point
/// and decimals behind it, for four readings of both.
pub proof fn numbers_are_read_behind_their_prefix(
    prefix: char,
    whole: Seq<char>,
    dec: Seq<char>,
)
    requires
        is_ascii_letter(prefix),
        all_digits(whole),
        all_digits(dec),
        whole.len() > 0,
    ensures
        number_for(prefix, seq![prefix] + whole) == number_readings(whole, None),
        number_for(prefix, seq![prefix] + whole + seq!['.'] + dec) == number_readings(
            whole,
            Some(dec),
        ),
{
    reveal_with_fuel(behind_letters, 2);
    let a = seq![prefix] + whole;
    assert(a.skip(1) =~= whole);
    assert(!is_ascii_letter(whole[0])) by {
        assert(is_digit(whole[0]));
    }
    all_run(whole, 0, whole.len() as int);
    assert(whole.take(whole.len() as int) =~= whole);
    let b = whole + seq!['.'] + dec;
    assert((seq![prefix] + whole + seq!['.'] + dec).skip(1) =~= b);
    let n = whole.len() as int;
    assert(b[0] == whole[0]);
    assert forall|i: int| 0 <= i < n implies is_digit(#[trigger] b[i]) by {
        assert(b[i] == whole[i]);
    }
    all_run(b, 0, n);
    assert forall|i: int| n + 1 <= i < b.len() implies is_digit(#[trigger] b[i]) by {
        assert(b[i] == dec[i - n - 1]);
    }
    all_run(b, n + 1, b.len() as int);
    assert(b.take(n) =~= whole);
    assert(b.subrange(n + 1, b.len() as int) =~= dec);
}

/// Whether a reading starts with a number that is told, and goes on with `rest`.
pub open spec fn starts_with_the_number(reading: Seq<char>, rest: Seq<char>, n: int) -> bool {
    exists|r: Seq<char>| #[trigger] (r + rest) == reading && told(r) == n
}

proof fn a_ten_may_be_one_ten(r: Seq<char>, rest: Seq<char>, digits: int)
    requires
        r.len() > 0,
    ensures
        starts_with_the_number(formal_ten(r + rest, digits), rest, told(r)),
{
    let amount = r + rest;
    if formal_ten(amount, digits) == amount {
        assert(r + rest == amount);
    } else {
        assert(r[0] == amount[0]);
        let one = seq!['壹'];
        let ten = seq!['拾'];
        let h = silence();
        assert(r =~= ten + r.skip(1));
        listened_on(h, ten, r.skip(1));
        heard_one(h, '拾');
        listened_on(h, one, r);
        heard_one(h, '壹');
        listened_on(hear(h, '壹'), ten, r.skip(1));
        heard_one(hear(h, '壹'), '拾');
        assert(hear(hear(h, '壹'), '拾') == hear(h, '拾'));
        assert(told(one + r) == told(r));
        assert((one + r) + rest =~= formal_ten(amount, digits));
    }
}

proof fn told_with_what_follows(r: Seq<char>, tail: Seq<char>, behind: Seq<char>, digits: int, n: int)
    requires
        told(r) == n,
        n > 0,
    ensures
        starts_with_the_number(r + tail + behind, tail + behind, n),
        starts_with_the_number(formal_ten(r + tail + behind, digits), tail + behind, n),
{
    let rest = tail + behind;
    assert(r + rest =~= r + tail + behind);
    if r.len() == 0 {
        assert(told(r) == 0);
    }
    a_ten_may_be_one_ten(r, rest, digits);
}

proof fn one_reading_tells_the_number(
    whole: Seq<char>,
    style: NumberStyle,
    zero: char,
    scale: (char, char),
    tail: Seq<char>,
    behind: Seq<char>,
)
    requires
        0 < whole.len() <= 12,
        all_digits(whole),
        whole[0] != '0',
        zero == '〇' || zero == '零',
        scales(scale),
    ensures
        ({
            let all = number_reading(whole, style, zero, scale, tail) + behind;
            &&& starts_with_the_number(all, tail + behind, written(whole))
            &&& starts_with_the_number(
                formal_ten(all, whole.len() as int),
                tail + behind,
                written(whole),
            )
        }),
{
    let none = Seq::<char>::empty();
    readings_tell_the_number(whole, style, zero, scale, tail);
    let r = number_reading(whole, style, zero, scale, none);
    written_is_more_than_nought(whole);
    told_with_what_follows(r, tail, behind, whole.len() as int, written(whole));
}

/// Each of the four readings of a number starts with the number. The first two
/// end there, or go on with a point and the decimals; the other two go on with
/// the unit of money and the coins, or with the word for no coins.
pub proof fn all_four_readings_tell_the_number(whole: Seq<char>, dec: Option<Seq<char>>)
    requires
        0 < whole.len() <= 12,
        all_digits(whole),
        whole[0] != '0',
    ensures
        ({
            let all = number_readings(whole, dec);
            let n = written(whole);
            &&& all.len() == 4
            &&& match dec {
                None => {
                    &&& told(all[0].0) == n
                    &&& told(all[1].0) == n
                    &&& starts_with_the_number(all[2].0, seq!['元', '整'], n)
                    &&& starts_with_the_number(all[3].0, seq!['元', '整'], n)
                },
                Some(d) => {
                    let lower = NumberStyle::Lower;
                    let upper = NumberStyle::Upper;
                    &&& starts_with_the_number(all[0].0, seq!['点'] + decimals_reading(d, lower), n)
                    &&& starts_with_the_number(all[1].0, seq!['点'] + decimals_reading(d, upper), n)
                    &&& starts_with_the_number(all[2].0, seq!['元'] + coins_reading(d, lower), n)
                    &&& starts_with_the_number(all[3].0, seq!['元'] + coins_reading(d, upper), n)
                },
            }
        }),
{
    let lower = NumberStyle::Lower;
    let upper = NumberStyle::Upper;
    let plain = ('万', '亿');
    let formal = ('萬', '億');
    let none = Seq::<char>::empty();
    let yuan = seq!['元'];
    let point = seq!['点'];
    match dec {
        None => {
            assert(none.take(0) =~= none);
            assert(significant(none) == none);
            assert(coins_reading(none, lower) == seq!['整']);
            assert(coins_reading(none, upper) == seq!['整']);
            assert(yuan + seq!['整'] =~= seq!['元', '整']);
            readings_tell_the_number(whole, lower, '〇', plain, none);
            readings_tell_the_number(whole, upper, '零', formal, none);
            one_reading_tells_the_number(whole, lower, '〇', plain, yuan, seq!['整']);
            one_reading_tells_the_number(whole, upper, '零', plain, yuan, seq!['整']);
        },
        Some(d) => {
            one_reading_tells_the_number(
                whole,
                lower,
                '〇',
                plain,
                point,
                decimals_reading(d, lower),
            );
            one_reading_tells_the_number(
                whole,
                upper,
                '〇',
                formal,
                point,
                decimals_reading(d, upper),
            );
            one_reading_tells_the_number(whole, lower, '〇', plain, yuan, coins_reading(d, lower));
            one_reading_tells_the_number(whole, upper, '零', plain, yuan, coins_reading(d, upper));
        },
    }
}

proof fn written_is_more_than_nought(digits: Seq<char>)
    requires
        digits.len() > 0,
        all_digits(digits),
        digits[0] != '0',
    ensures
        written(digits) > 0,
    decreases digits.len(),
{
    reveal_with_fuel(written, 2);
    assert(is_digit(digits[0]));
    if digits.len() > 1 {
        let d = digits.drop_last();
        assert forall|i: int| 0 <= i < d.len() implies is_digit(#[trigger] d[i]) by {
            assert(d[i] == digits[i]);
        }
        written_is_more_than_nought(d);
        assert(is_digit(digits[digits.len() - 1]));
    } else {
        assert(digits.drop_last() =~= Seq::<char>::empty());
    }
}

/// Two numbers of up to twelve digits are never read alike.
pub proof fn different_numbers_are_read_differently(
    a: Seq<char>,
    b: Seq<char>,
    style: NumberStyle,
    zero: char,
    scale: (char, char),
)
    requires
        0 < a.len() <= 12,
        0 < b.len() <= 12,
        all_digits(a),
        all_digits(b),
        a[0] != '0',
        b[0] != '0',
        zero == '〇' || zero == '零',
        scales(scale),
        written(a) != written(b),
    ensures
        number_reading(a, style, zero, scale, seq![]) != number_reading(
            b,
            style,
            zero,
            scale,
            seq![],
        ),
{
    readings_tell_the_number(a, style, zero, scale, seq![]);
    readings_tell_the_number(b, style, zero, scale, seq![]);
}

// ---------------------------------------------------------------------------
// Decimals and coins
// ---------------------------------------------------------------------------

/// Decimals of which no two noughts stand together are read digit by digit, in
/// their order: each by the character that counts it.
pub proof fn decimals_are_told_one_by_one(dec: Seq<char>, style: NumberStyle, i: int)
    requires
        all_digits(dec),
        0 <= i < dec.len(),
        forall|j: int| 0 <= j < dec.len() - 1 ==> !((#[trigger] dec[j]) == '0' && dec[j + 1] == '0'),
    ensures
        decimals_reading(dec, style).len() == dec.len(),
        counts(decimals_reading(dec, style)[i]) == dec[i] as int - '0' as int,
        dec[i] == '0' ==> decimals_reading(dec, style)[i] == (match style {
            NumberStyle::Lower => '〇',
            NumberStyle::Upper => '零',
        }),
{
    let z = nought(style);
    let s = dec.map_values(|c: char| figure(style, worth(c)));
    assert forall|j: int| 0 <= j < dec.len() implies (#[trigger] s[j] == z <==> dec[j] == '0') by {
        assert(is_digit(dec[j]));
    }
    collapsing(s, z);
    if let Some(k) = first_place(s, seq![z, z], 0) {
        assert(s[k] == z && s[k + 1] == z);
        assert(dec[k] == '0' && dec[k + 1] == '0');
    }
    assert(is_digit(dec[i]));
}

/// What a coin is worth, in the smallest of them.
pub open spec fn coin_worth(c: char) -> int {
    if c == '角' {
        1000
    } else if c == '分' {
        100
    } else if c == '厘' {
        10
    } else if c == '毫' {
        1
    } else {
        0
    }
}

/// What a purse holds after one more character: a figure waits for its coin.
pub open spec fn counted(purse: (int, int), c: char) -> (int, int) {
    if coin_worth(c) > 0 {
        (purse.0 + purse.1 * coin_worth(c), 0)
    } else {
        (purse.0, counts(c))
    }
}

/// What a purse holds after a text.
pub open spec fn counted_all(purse: (int, int), s: Seq<char>) -> (int, int)
    decreases s.len(),
{
    if s.len() == 0 {
        purse
    } else {
        counted(counted_all(purse, s.drop_last()), s.last())
    }
}

/// What the first four decimals are worth, in the smallest coin.
pub open spec fn small_change(dec: Seq<char>) -> int {
    (if dec.len() > 0 {
        1000 * (dec[0] as int - '0' as int)
    } else {
        0
    }) + (if dec.len() > 1 {
        100 * (dec[1] as int - '0' as int)
    } else {
        0
    }) + (if dec.len() > 2 {
        10 * (dec[2] as int - '0' as int)
    } else {
        0
    }) + (if dec.len() > 3 {
        dec[3] as int - '0' as int
    } else {
        0
    })
}

proof fn counted_on(purse: (int, int), a: Seq<char>, b: Seq<char>)
    ensures
        counted_all(purse, a + b) == counted_all(counted_all(purse, a), b),
    decreases b.len(),
{
    if b.len() == 0 {
        assert(a + b =~= a);
    } else {
        counted_on(purse, a, b.drop_last());
        assert((a + b).drop_last() =~= a + b.drop_last());
        assert((a + b).last() == b.last());
    }
}

proof fn counted_one(purse: (int, int), c: char)
    ensures
        counted_all(purse, seq![c]) == counted(purse, c),
{
    reveal_with_fuel(counted_all, 2);
    assert(seq![c].drop_last() =~= Seq::<char>::empty());
}

proof fn collapsing_is_not_counted(s: Seq<char>, z: char)
    requires
        is_nought(z),
    ensures
        counted_all((0, 0), collapsed(s, z)) == counted_all((0, 0), s),
{
    let purse = (0int, 0int);
    collapsing(s, z);
    match first_place(s, seq![z, z], 0) {
        Some(i) => {
            let a = s.take(i);
            let b = s.skip(i + 2);
            assert(s =~= a + (seq![z] + (seq![z] + b)));
            assert(a + seq![z] + b =~= a + (seq![z] + b));
            counted_on(purse, a, seq![z] + (seq![z] + b));
            counted_on(purse, a, seq![z] + b);
            let k = counted_all(purse, a);
            counted_on(k, seq![z], seq![z] + b);
            counted_on(k, seq![z], b);
            counted_one(k, z);
            let l = counted(k, z);
            counted_on(l, seq![z], b);
            counted_one(l, z);
        },
        None => {},
    }
}

proof fn coins_are_counted(d: Seq<char>, style: NumberStyle)
    requires
        d.len() <= 4,
        all_digits(d),
    ensures
        counted_all((0, 0), coins(d, style)) == (small_change(d), 0int),
    decreases d.len(),
{
    if d.len() > 0 {
        let e = d.drop_last();
        let c = d.last();
        assert(is_digit(d[d.len() - 1]));
        assert forall|i: int| 0 <= i < e.len() implies is_digit(#[trigger] e[i]) by {
            assert(e[i] == d[i]);
        }
        coins_are_counted(e, style);
        let p = (small_change(e), 0int);
        if worth(c) != 0 {
            let f = figure(style, worth(c));
            let k = crate::inline::number::coin(d.len() - 1);
            assert(counts(f) == worth(c) && coin_worth(f) == 0);
            assert(seq![f, k] =~= seq![f] + seq![k]);
            counted_on((0, 0), coins(e, style), seq![f, k]);
            counted_on(p, seq![f], seq![k]);
            counted_one(p, f);
            counted_one(counted(p, f), k);
            assert(coin_worth(k) == (if d.len() == 1 {
                1000
            } else if d.len() == 2 {
                100
            } else if d.len() == 3 {
                10
            } else {
                1int
            }));
            assert(small_change(d) == small_change(e) + worth(c) * coin_worth(k));
        } else {
            counted_on((0, 0), coins(e, style), seq![nought(style)]);
            counted_one(p, nought(style));
            assert(small_change(d) == small_change(e));
        }
    }
}

proof fn trailing_noughts_are_nothing(d: Seq<char>)
    requires
        d.len() <= 4,
        all_digits(d),
    ensures
        small_change(significant(d)) == small_change(d),
        significant(d).len() == 0 <==> small_change(d) == 0,
        significant(d).len() <= 4,
        all_digits(significant(d)),
    decreases d.len(),
{
    if d.len() > 0 {
        assert(is_digit(d[d.len() - 1]));
        assert(forall|i: int| 0 <= i < d.len() ==> is_digit(d[i]));
        if d.last() == '0' {
            let e = d.drop_last();
            assert forall|i: int| 0 <= i < e.len() implies is_digit(#[trigger] e[i]) by {
                assert(e[i] == d[i]);
            }
            trailing_noughts_are_nothing(e);
            assert(small_change(d) == small_change(e));
        } else {
            assert(small_change(d) > 0);
        }
    }
}

/// The coins behind an amount of money are worth what its first four decimals
/// are worth; where those are all noughts, the word for no coins stands there.
pub proof fn coins_are_worth_the_decimals(dec: Seq<char>, style: NumberStyle)
    requires
        all_digits(dec),
    ensures
        counted_all((0, 0), coins_reading(dec, style)).0 == small_change(dec),
        small_change(dec) == 0 <==> coins_reading(dec, style) == seq!['整'],
{
    let z = nought(style);
    let n = if dec.len() < 4 {
        dec.len() as int
    } else {
        4
    };
    let first = dec.take(n);
    assert forall|i: int| 0 <= i < first.len() implies is_digit(#[trigger] first[i]) by {
        assert(first[i] == dec[i]);
    }
    assert(small_change(first) == small_change(dec));
    trailing_noughts_are_nothing(first);
    let d = significant(first);
    if d.len() == 0 {
        counted_one((0, 0), '整');
    } else {
        coins_are_counted(d, style);
        let s = coins(d, style);
        collapsing_is_not_counted(s, z);
        collapsing_is_not_counted(collapsed(s, z), z);
        let r = coins_reading(dec, style);
        if r == seq!['整'] {
            counted_one((0, 0), '整');
        }
    }
}

// ---------------------------------------------------------------------------
// The characters of a reading
// ---------------------------------------------------------------------------

/// The characters of everyday readings.
pub open spec fn everyday(c: char) -> bool {
    "〇一二三四五六七八九十百千万亿"@.contains(c)
}

/// The characters of account books, with either set of scales.
pub open spec fn formal(c: char) -> bool {
    "零壹贰叁肆伍陆柒捌玖拾佰仟万亿萬億"@.contains(c)
}

/// Whether a text is made of the characters of a style.
pub open spec fn in_style(style: NumberStyle, s: Seq<char>) -> bool {
    forall|i: int|
        0 <= i < s.len() ==> match style {
            NumberStyle::Lower => everyday(#[trigger] s[i]),
            NumberStyle::Upper => formal(s[i]),
        }
}

spec fn drawn_from(s: Seq<char>, t: Seq<char>) -> bool {
    forall|i: int| 0 <= i < s.len() ==> t.contains(#[trigger] s[i])
}

proof fn drawn_in_style(style: NumberStyle, s: Seq<char>, t: Seq<char>)
    requires
        drawn_from(s, t),
        in_style(style, t),
    ensures
        in_style(style, s),
{
    assert forall|i: int| 0 <= i < s.len() implies match style {
        NumberStyle::Lower => everyday(#[trigger] s[i]),
        NumberStyle::Upper => formal(s[i]),
    } by {
        let j = choose|j: int| 0 <= j < t.len() && t[j] == s[i];
        assert(t[j] == s[i]);
    }
}

proof fn replacing_draws(s: Seq<char>, t: Seq<char>, by: Seq<char>)
    requires
        drawn_from(by, t),
    ensures
        drawn_from(replaced_once(s, t, by), s),
{
    a_place_stands(s, t, 0);
    if let Some(i) = first_place(s, t, 0) {
        let r = replaced_once(s, t, by);
        assert forall|j: int| 0 <= j < r.len() implies s.contains(#[trigger] r[j]) by {
            if j < i {
                assert(r[j] == s[j]);
            } else if j < i + by.len() {
                assert(r[j] == by[j - i]);
                let k = choose|k: int| 0 <= k < t.len() && t[k] == by[j - i];
                assert(s.subrange(i, i + t.len())[k] == s[i + k]);
                assert(s[i + k] == r[j]);
            } else {
                assert(r[j] == s[j - by.len() + t.len()]);
            }
        }
    } else {
        assert forall|j: int| 0 <= j < s.len() implies s.contains(#[trigger] s[j]) by {}
    }
}

proof fn characters_of_styles(style: NumberStyle, c: char)
    ensures
        (exists|d: int| #[trigger] figure(style, d) == c) || (exists|p: int|
            0 < p <= 3 && #[trigger] place_name(style, p)[0] == c) || c == '万' || c == '亿' || (style
            == NumberStyle::Upper && (c == '萬' || c == '億')) ==> in_style(style, seq![c]),
{
    reveal_strlit("〇一二三四五六七八九十百千万亿");
    reveal_strlit("零壹贰叁肆伍陆柒捌玖拾佰仟万亿萬億");
    let e = "〇一二三四五六七八九十百千万亿"@;
    let f = "零壹贰叁肆伍陆柒捌玖拾佰仟万亿萬億"@;
    assert(e[0] == '〇' && e[1] == '一' && e[2] == '二' && e[3] == '三' && e[4] == '四' && e[5]
        == '五' && e[6] == '六' && e[7] == '七' && e[8] == '八' && e[9] == '九' && e[10] == '十'
        && e[11] == '百' && e[12] == '千' && e[13] == '万' && e[14] == '亿');
    assert(f[0] == '零' && f[1] == '壹' && f[2] == '贰' && f[3] == '叁' && f[4] == '肆' && f[5]
        == '伍' && f[6] == '陆' && f[7] == '柒' && f[8] == '捌' && f[9] == '玖' && f[10] == '拾'
        && f[11] == '佰' && f[12] == '仟' && f[13] == '万' && f[14] == '亿' && f[15] == '萬'
        && f[16] == '億');
}

proof fn spelled_in_style(style: NumberStyle, num: Seq<char>)
    requires
        num.len() <= 4,
    ensures
        in_style(style, spelled_group(style, num)),
    decreases num.len(),
{
    if num.len() > 0 {
        spelled_in_style(style, num.skip(1));
        let f = figure(style, worth(num[0]));
        characters_of_styles(style, f);
        assert(seq![f][0] == f);
        characters_of_styles(style, nought(style));
        assert(seq![nought(style)][0] == nought(style));
        if num.len() > 1 {
            let g = place_name(style, num.len() - 1)[0];
            characters_of_styles(style, g);
            assert(seq![g][0] == g);
        }
        let d = digit_reading(style, num[0], num.len() - 1);
        assert(in_style(style, d));
    }
}

proof fn group_in_style(style: NumberStyle, num: Seq<char>)
    ensures
        in_style(style, group_reading(style, num)),
{
    let z = nought(style);
    characters_of_styles(style, z);
    assert(seq![z][0] == z);
    if num.len() <= 4 {
        spelled_in_style(style, num);
        let s = spelled_group(style, num);
        assert(seq![z, z][0] == z);
        replacing_draws(s, seq![z, z], seq![z]);
        drawn_in_style(style, collapsed(s, z), s);
    }
}

/// A reading is made of the characters of its style alone: everyday ones or
/// those of account books, never of both.
pub proof fn readings_keep_their_style(
    digits: Seq<char>,
    style: NumberStyle,
    zero: char,
    scale: (char, char),
)
    requires
        0 < digits.len() <= 12,
        all_digits(digits),
        digits[0] != '0',
        zero == '〇' || zero == '零',
        scale == ('万', '亿') || style == NumberStyle::Upper && scale == ('萬', '億'),
    ensures
        in_style(style, number_reading(digits, style, zero, scale, seq![])),
{
    let n = digits.len() as int;
    characters_of_styles(style, scale.0);
    characters_of_styles(style, scale.1);
    assert(seq![scale.0][0] == scale.0);
    assert(seq![scale.1][0] == scale.1);
    let s = grouped(digits, style, scale);
    group_in_style(style, digits);
    group_in_style(style, digits.take(n - 4));
    group_in_style(style, digits.skip(n - 4));
    group_in_style(style, digits.take(n - 8));
    group_in_style(style, digits.subrange(n - 8, n - 4));
    assert(in_style(style, s));
    tidied_in_style(s, style, zero, scale);
    let t = tidied(s, zero, scale);
    characters_of_styles(style, place_name(style, 1)[0]);
    assert(seq![place_name(style, 1)[0]][0] == place_name(style, 1)[0]);
    let u = ten_first(t, style);
    assert(in_style(style, u));
    readings_tell_the_number(digits, style, zero, scale, seq![]);
    written_is_more_than_nought(digits);
    if n <= 4 {
        tidied_groups_of_four(digits, style, zero, scale);
        assert(t + Seq::<char>::empty() =~= t);
    } else {
        if n <= 8 {
            tidied_groups_of_eight(digits, style, zero, scale);
        } else {
            tidied_groups_of_twelve(digits, style, zero, scale);
        }
        starting_with_ten_is_not_heard(t, style);
        assert(u + Seq::<char>::empty() =~= u);
    }
}

proof fn tidied_in_style(s: Seq<char>, style: NumberStyle, zero: char, scale: (char, char))
    requires
        in_style(style, s),
    ensures
        in_style(style, tidied(s, zero, scale)),
{
    let a = without_first(s, zero);
    assert(in_style(style, a)) by {
        if a != s {
            assert forall|i: int| 0 <= i < a.len() implies s.contains(#[trigger] a[i]) by {
                assert(a[i] == s[i + 1]);
            }
            drawn_in_style(style, a, s);
        }
    }
    let b = replaced_once(a, seq![zero, scale.0], seq![]);
    replacing_draws(a, seq![zero, scale.0], seq![]);
    drawn_in_style(style, b, a);
    let c = replaced_once(b, seq![zero, scale.1], seq![]);
    replacing_draws(b, seq![zero, scale.1], seq![]);
    drawn_in_style(style, c, b);
    assert(seq![zero, zero][0] == zero);
    replacing_draws(c, seq![zero, zero], seq![zero]);
    drawn_in_style(style, collapsed(c, zero), c);
}

// ---------------------------------------------------------------------------
// Noughts
// ---------------------------------------------------------------------------

/// Whether a nought stands between two other digits.
pub open spec fn skips_a_place(digits: Seq<char>) -> bool {
    exists|i: int, j: int|
        0 <= i < j < digits.len() && #[trigger] digits[i] == '0' && #[trigger] digits[j] != '0'
}

/// What is said of the noughts of a group that starts with another digit.
spec fn few_noughts(style: NumberStyle, num: Seq<char>) -> bool {
    let g = group_reading(style, num);
    let z = nought(style);
    &&& g.len() > 0 && g[0] != z && g.last() != z
    &&& forall|i: int| 0 <= i < g.len() - 1 ==> !((#[trigger] g[i]) == z && g[i + 1] == z)
    &&& g.contains(z) <==> skips_a_place(num)
}

#[verifier::rlimit(40)]
proof fn groups_of_one(style: NumberStyle, num: Seq<char>)
    requires
        num.len() == 1,
        all_digits(num),
        num[0] != '0',
    ensures
        few_noughts(style, num),
{
    let zero = nought(style);
    let z = seq![zero];
    let s = spelled_group(style, num);
    let c0 = collapsed(s, zero);
    let g = group_reading(style, num);
    reveal_with_fuel(spelled_group, 2);
    collapsing(s, zero);
    let a = digit_reading(style, num[0], 0);
    digits_are_told(style, num[0], 0);
    assert(s =~= a);
    assert(c0 =~= a);
    assert(g =~= a);
}

#[verifier::rlimit(40)]
proof fn groups_of_two(style: NumberStyle, num: Seq<char>)
    requires
        num.len() == 2,
        all_digits(num),
        num[0] != '0',
    ensures
        few_noughts(style, num),
{
    let zero = nought(style);
    let z = seq![zero];
    let s = spelled_group(style, num);
    let c0 = collapsed(s, zero);
    let g = group_reading(style, num);
    reveal_with_fuel(spelled_group, 3);
    collapsing(s, zero);
    let a = digit_reading(style, num[0], 1);
    digits_are_told(style, num[0], 1);
    let b = digit_reading(style, num[1], 0);
    digits_are_told(style, num[1], 0);
    assert(num.skip(1)[0] == num[1]);
    if num[1] == '0' {
        assert(s =~= a + b);
        assert(c0 =~= a + z);
        assert(g =~= a);
    } else {
        assert(s =~= a + b);
        assert(c0 =~= a + b);
        assert(g =~= a + b);
    }
}

#[verifier::rlimit(40)]
proof fn groups_of_three(style: NumberStyle, num: Seq<char>)
    requires
        num.len() == 3,
        all_digits(num),
        num[0] != '0',
    ensures
        few_noughts(style, num),
{
    let zero = nought(style);
    let z = seq![zero];
    let s = spelled_group(style, num);
    let c0 = collapsed(s, zero);
    let g = group_reading(style, num);
    reveal_with_fuel(spelled_group, 4);
    collapsing(s, zero);
    let a = digit_reading(style, num[0], 2);
    digits_are_told(style, num[0], 2);
    let b = digit_reading(style, num[1], 1);
    digits_are_told(style, num[1], 1);
    assert(num.skip(1)[0] == num[1]);
    let c = digit_reading(style, num[2], 0);
    digits_are_told(style, num[2], 0);
    assert(num.skip(1).skip(1)[0] == num[2]);
    if num[1] == '0' && num[2] == '0' {
        assert(s =~= a + b + c);
        assert(s[2] == zero && s[3] == zero);
        assert(c0 =~= a + z);
        assert(g =~= a);
    } else if num[1] == '0' && num[2] != '0' {
        assert(s =~= a + b + c);
        assert(c0 =~= a + z + c);
        assert(g =~= a + z + c);
        assert(num[1] == '0' && num[2] != '0');
        assert(g[2] == zero);
    } else if num[1] != '0' && num[2] == '0' {
        assert(s =~= a + b + c);
        assert(c0 =~= a + b + z);
        assert(g =~= a + b);
    } else {
        assert(s =~= a + b + c);
        assert(c0 =~= a + b + c);
        assert(g =~= a + b + c);
    }
}

#[verifier::rlimit(40)]
proof fn groups_of_four(style: NumberStyle, num: Seq<char>)
    requires
        num.len() == 4,
        all_digits(num),
        num[0] != '0',
    ensures
        few_noughts(style, num),
{
    let zero = nought(style);
    let z = seq![zero];
    let s = spelled_group(style, num);
    let c0 = collapsed(s, zero);
    let g = group_reading(style, num);
    reveal_with_fuel(spelled_group, 5);
    collapsing(s, zero);
    let a = digit_reading(style, num[0], 3);
    digits_are_told(style, num[0], 3);
    let b = digit_reading(style, num[1], 2);
    digits_are_told(style, num[1], 2);
    assert(num.skip(1)[0] == num[1]);
    let c = digit_reading(style, num[2], 1);
    digits_are_told(style, num[2], 1);
    assert(num.skip(1).skip(1)[0] == num[2]);
    let d = digit_reading(style, num[3], 0);
    digits_are_told(style, num[3], 0);
    assert(num.skip(1).skip(1).skip(1)[0] == num[3]);
    if num[1] == '0' && num[2] == '0' && num[3] == '0' {
        assert(s =~= a + b + c + d);
        assert(s[2] == zero && s[3] == zero);
        assert(c0 =~= a + z + z);
        assert(g =~= a);
    } else if num[1] == '0' && num[2] == '0' && num[3] != '0' {
        assert(s =~= a + b + c + d);
        assert(s[2] == zero && s[3] == zero);
        assert(c0 =~= a + z + d);
        assert(g =~= a + z + d);
        assert(num[1] == '0' && num[3] != '0');
        assert(g[2] == zero);
    } else if num[1] == '0' && num[2] != '0' && num[3] == '0' {
        assert(s =~= a + b + c + d);
        assert(c0 =~= a + z + c + z);
        assert(g =~= a + z + c);
        assert(num[1] == '0' && num[2] != '0');
        assert(g[2] == zero);
    } else if num[1] == '0' && num[2] != '0' && num[3] != '0' {
        assert(s =~= a + b + c + d);
        assert(c0 =~= a + z + c + d);
        assert(g =~= a + z + c + d);
        assert(num[1] == '0' && num[2] != '0');
        assert(g[2] == zero);
    } else if num[1] != '0' && num[2] == '0' && num[3] == '0' {
        assert(s =~= a + b + c + d);
        assert(s[4] == zero && s[5] == zero);
        assert(c0 =~= a + b + z);
        assert(g =~= a + b);
    } else if num[1] != '0' && num[2] == '0' && num[3] != '0' {
        assert(s =~= a + b + c + d);
        assert(c0 =~= a + b + z + d);
        assert(g =~= a + b + z + d);
        assert(num[2] == '0' && num[3] != '0');
        assert(g[4] == zero);
    } else if num[1] != '0' && num[2] != '0' && num[3] == '0' {
        assert(s =~= a + b + c + d);
        assert(c0 =~= a + b + c + z);
        assert(g =~= a + b + c);
    } else {
        assert(s =~= a + b + c + d);
        assert(c0 =~= a + b + c + d);
        assert(g =~= a + b + c + d);
    }
}

/// A number of up to four digits is read with one nought where it skips places,
/// and with none where it does not: never with two together, and never with one
/// at its beginning or its end.
pub proof fn skipped_places_are_told(
    digits: Seq<char>,
    style: NumberStyle,
    zero: char,
    scale: (char, char),
)
    requires
        0 < digits.len() <= 4,
        all_digits(digits),
        digits[0] != '0',
        scales(scale),
        zero == (match style {
            NumberStyle::Lower => '〇',
            NumberStyle::Upper => '零',
        }),
    ensures
        ({
            let r = number_reading(digits, style, zero, scale, seq![]);
            &&& r.len() > 0 && r[0] != zero && r.last() != zero
            &&& forall|i: int|
                0 <= i < r.len() - 1 ==> !((#[trigger] r[i]) == zero && r[i + 1] == zero)
            &&& r.contains(zero) <==> skips_a_place(digits)
        }),
{
    let g = group_reading(style, digits);
    if digits.len() == 1 {
        groups_of_one(style, digits);
    } else if digits.len() == 2 {
        groups_of_two(style, digits);
    } else if digits.len() == 3 {
        groups_of_three(style, digits);
    } else {
        groups_of_four(style, digits);
    }
    groups_are_told(style, digits, silence());
    not_there(g, zero, scale.0);
    not_there(g, zero, scale.1);
    collapsing(g, zero);
    assert(tidied(g, zero, scale) == g);
    assert(g + Seq::<char>::empty() =~= g);
}

#[verifier::rlimit(60)]
proof fn groups_from_nought(style: NumberStyle, num: Seq<char>)
    requires
        num.len() == 4,
        all_digits(num),
        num[0] == '0',
        !zeros_only(num),
    ensures
        ({
            let g = group_reading(style, num);
            let z = nought(style);
            &&& g.len() > 1 && g[0] == z && g.last() != z
            &&& forall|i: int|
                0 < i < g.len() - 1 ==> !((#[trigger] g[i]) == z && g[i + 1] == z)
            &&& g[1] == z ==> g.len() == 3
        }),
{
    let zero = nought(style);
    let z = seq![zero];
    let s = spelled_group(style, num);
    let c0 = collapsed(s, zero);
    let g = group_reading(style, num);
    reveal_with_fuel(spelled_group, 5);
    collapsing(s, zero);
    let a = digit_reading(style, num[0], 3);
    digits_are_told(style, num[0], 3);
    let b = digit_reading(style, num[1], 2);
    digits_are_told(style, num[1], 2);
    assert(num.skip(1)[0] == num[1]);
    let c = digit_reading(style, num[2], 1);
    digits_are_told(style, num[2], 1);
    assert(num.skip(1).skip(1)[0] == num[2]);
    let d = digit_reading(style, num[3], 0);
    digits_are_told(style, num[3], 0);
    assert(num.skip(1).skip(1).skip(1)[0] == num[3]);
    if num[1] == '0' && num[2] == '0' && num[3] != '0' {
        assert(s =~= a + b + c + d);
        assert(s[0] == zero && s[1] == zero);
        assert(c0 =~= z + z + d);
        assert(g =~= z + z + d);
    } else if num[1] == '0' && num[2] != '0' && num[3] == '0' {
        assert(s =~= a + b + c + d);
        assert(s[0] == zero && s[1] == zero);
        assert(c0 =~= z + c + z);
        assert(g =~= z + c);
    } else if num[1] == '0' && num[2] != '0' && num[3] != '0' {
        assert(s =~= a + b + c + d);
        assert(s[0] == zero && s[1] == zero);
        assert(c0 =~= z + c + d);
        assert(g =~= z + c + d);
    } else if num[1] != '0' && num[2] == '0' && num[3] == '0' {
        assert(s =~= a + b + c + d);
        assert(s[3] == zero && s[4] == zero);
        assert(c0 =~= z + b + z);
        assert(g =~= z + b);
    } else if num[1] != '0' && num[2] == '0' && num[3] != '0' {
        assert(s =~= a + b + c + d);
        assert(c0 =~= z + b + z + d);
        assert(g =~= z + b + z + d);
    } else if num[1] != '0' && num[2] != '0' && num[3] == '0' {
        assert(s =~= a + b + c + d);
        assert(c0 =~= z + b + c + z);
        assert(g =~= z + b + c);
    } else {
        assert(s =~= a + b + c + d);
        assert(c0 =~= z + b + c + d);
        assert(g =~= z + b + c + d);
    }
}

/// Whether no two noughts stand together, and none at either end.
pub open spec fn noughts_stand_alone(r: Seq<char>, zero: char) -> bool {
    &&& r.len() > 0 && r[0] != zero && r.last() != zero
    &&& forall|i: int| 0 <= i < r.len() - 1 ==> !((#[trigger] r[i]) == zero && r[i + 1] == zero)
}

proof fn first_groups(style: NumberStyle, num: Seq<char>)
    requires
        0 < num.len() <= 4,
        all_digits(num),
        num[0] != '0',
    ensures
        noughts_stand_alone(group_reading(style, num), nought(style)),
{
    if num.len() == 1 {
        groups_of_one(style, num);
    } else if num.len() == 2 {
        groups_of_two(style, num);
    } else if num.len() == 3 {
        groups_of_three(style, num);
    } else {
        groups_of_four(style, num);
    }
}

/// What tidying leaves of two groups.
proof fn two_groups_are_tidied(g1: Seq<char>, w: char, g2: Seq<char>, z: char)
    requires
        noughts_stand_alone(g1, z),
        w != z,
        g2.len() > 0,
        g2 == seq![z] || (g2.last() != z && (forall|i: int|
            0 < i < g2.len() - 1 ==> !((#[trigger] g2[i]) == z && g2[i + 1] == z)) && (g2[0] == z
            && g2.len() > 1 && g2[1] == z ==> g2.len() == 3)),
    ensures
        ({
            let s = g1 + seq![w] + g2;
            noughts_stand_alone(without_last(collapsed(s, z), z), z)
        }),
{
    let s = g1 + seq![w] + g2;
    let m = g1.len() as int;
    let c = collapsed(s, z);
    collapsing(s, z);
    assert(s[0] == g1[0] && s[m - 1] == g1.last() && s[m] == w && s[m + 1] == g2[0]);
    assert forall|i: int| 0 <= i < s.len() - 1 && #[trigger] s[i] == z && s[i + 1] == z implies i == m
        + 1 by {
        if i < m - 1 {
            assert(s[i] == g1[i] && s[i + 1] == g1[i + 1]);
        } else if i > m + 1 {
            assert(s[i] == g2[i - m - 1] && s[i + 1] == g2[i - m]);
        }
    }
    match first_place(s, seq![z, z], 0) {
        Some(k) => {
            assert(k == m + 1);
            assert(g2.len() == 3 && g2[0] == z && g2[1] == z);
            assert(c =~= g1 + seq![w] + seq![z, g2[2]]);
            assert forall|i: int| 0 <= i < c.len() - 1 implies !((#[trigger] c[i]) == z && c[i + 1]
                == z) by {
                if i < m - 1 {
                    assert(c[i] == g1[i] && c[i + 1] == g1[i + 1]);
                }
            }
        },
        None => {
            if g2 == seq![z] {
                assert(s.drop_last() =~= g1 + seq![w]);
                let r = s.drop_last();
                assert forall|i: int| 0 <= i < r.len() - 1 implies !((#[trigger] r[i]) == z && r[i
                    + 1] == z) by {
                    assert(r[i] == s[i] && r[i + 1] == s[i + 1]);
                }
            }
        },
    }
}

/// A number of five to eight digits is read without two noughts together, and
/// without one at its beginning or its end.
pub proof fn longer_readings_have_lone_noughts(
    digits: Seq<char>,
    style: NumberStyle,
    zero: char,
    scale: (char, char),
)
    requires
        4 < digits.len() <= 8,
        all_digits(digits),
        digits[0] != '0',
        scales(scale),
        zero == (match style {
            NumberStyle::Lower => '〇',
            NumberStyle::Upper => '零',
        }),
    ensures
        noughts_stand_alone(number_reading(digits, style, zero, scale, seq![]), zero),
{
    let n = digits.len() as int;
    let d1 = digits.take(n - 4);
    let d2 = digits.skip(n - 4);
    let g1 = group_reading(style, d1);
    let g2 = group_reading(style, d2);
    let s = g1 + seq![scale.0] + g2;
    parts_of_digits(digits, 0, n - 4);
    parts_of_digits(digits, n - 4, n);
    assert(d1 =~= digits.subrange(0, n - 4));
    assert(d2 =~= digits.subrange(n - 4, n));
    assert(d1[0] == digits[0]);
    first_groups(style, d1);
    groups_are_told(style, d1, silence());
    groups_are_told(style, d2, silence());
    if !zeros_only(d2) {
        if d2[0] == '0' {
            groups_from_nought(style, d2);
        } else {
            first_groups(style, d2);
        }
    }
    two_groups_are_tidied(g1, scale.0, g2, zero);
    let m = g1.len() as int;
    assert(s[m - 1] == g1.last() && s[m] == scale.0 && s[0] == g1[0]);
    assert forall|i: int| 0 <= i < s.len() && i != m implies raises(#[trigger] s[i]) == 0 by {
        if i < m {
            assert(s[i] == g1[i]);
        } else {
            assert(s[i] == g2[i - m - 1]);
        }
    }
    assert forall|i: int| 0 <= i < s.len() - 1 implies !((#[trigger] s[i]) == zero && s[i + 1]
        == scale.0) by {
        assert(i + 1 == m || raises(s[i + 1]) == 0);
    }
    assert forall|i: int| 0 <= i < s.len() - 1 implies !((#[trigger] s[i]) == zero && s[i + 1]
        == scale.1) by {
        assert(i + 1 == m || raises(s[i + 1]) == 0);
    }
    not_there(s, zero, scale.0);
    not_there(s, zero, scale.1);
    let t = tidied(s, zero, scale);
    assert(t == without_last(collapsed(s, zero), zero));
    ten_first_keeps_noughts_alone(t, style, zero);
    let u = ten_first(t, style);
    assert(u + Seq::<char>::empty() =~= u);
}

proof fn ten_first_keeps_noughts_alone(t: Seq<char>, style: NumberStyle, zero: char)
    requires
        noughts_stand_alone(t, zero),
        zero == '〇' || zero == '零',
    ensures
        noughts_stand_alone(ten_first(t, style), zero),
{
    let one_ten = seq![figure(style, 1)] + place_name(style, 1);
    let u = ten_first(t, style);
    if one_ten.is_prefix_of(t) {
        assert(one_ten[1] == t[1]);
        assert(place_name(style, 1) =~= seq![t[1]]);
        assert(u =~= t.skip(1));
        assert forall|i: int| 0 <= i < u.len() - 1 implies !((#[trigger] u[i]) == zero && u[i + 1]
            == zero) by {
            assert(u[i] == t[i + 1] && u[i + 1] == t[i + 2]);
        }
    }
}

} // verus!
