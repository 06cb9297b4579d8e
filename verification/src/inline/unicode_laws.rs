//! Characters by their numbers, and random identifiers: what the digits tell.

use vstd::prelude::*;
use crate::inline::unicode::{
    all_hex, following, hex_value, hex_worth, is_hex, random_bytes, unicode_for, uuid_byte,
    uuid_for, uuid_text,
};
use crate::memory::le_bytes;
use crate::text::{hex_digit, hexadecimal, is_char_number};

verus! {

proof fn digits_are_worth(d: int)
    requires
        0 <= d < 16,
    ensures
        is_hex(hex_digit(d)),
        hex_worth(hex_digit(d)) == d,
{
}

/// A number written in hexadecimal digits reads as that number again, and has
/// two digits from sixteen on.
pub proof fn hexadecimals_read_back(n: nat)
    ensures
        all_hex(hexadecimal(n)),
        hex_value(hexadecimal(n)) == n,
        hexadecimal(n).len() >= 1,
        n >= 16 ==> hexadecimal(n).len() >= 2,
    decreases n,
{
    reveal_with_fuel(hex_value, 2);
    if n >= 16 {
        hexadecimals_read_back(n / 16);
        digits_are_worth((n % 16) as int);
        assert(hexadecimal(n).drop_last() =~= hexadecimal(n / 16));
    } else {
        digits_are_worth(n as int);
        assert(hexadecimal(n).drop_last() =~= Seq::<char>::empty());
    }
}

/// Capital digits are worth what small ones are worth.
pub proof fn capitals_are_worth_the_same(d: int)
    requires
        10 <= d < 16,
    ensures
        is_hex((d + 55) as char) && hex_worth((d + 55) as char) == d,
        is_hex((d + 87) as char) && hex_worth((d + 87) as char) == d,
        hex_digit(d) == (d + 87) as char,
{
}

proof fn those_that_follow(code: int, n: int)
    requires
        0x20 <= code,
        0 <= n,
        code + n < 0xD800,
    ensures
        following(code, n).len() == n,
        forall|i: int|
            0 <= i < n ==> (#[trigger] following(code, n)[i]).0 == seq![(code + i + 1) as char],
        forall|i: int|
            0 <= i < n ==> (#[trigger] following(code, n)[i]).1 == Some(
                "U"@ + hexadecimal(code as nat) + "~"@ + hexadecimal((i + 1) as nat),
            ),
    decreases n,
{
    if n > 0 {
        those_that_follow(code, n - 1);
    }
}

/// The number of a character behind the prefix, in hexadecimal digits, stands
/// for the character. In the basic plane the fifteen that follow it come behind
/// it, in their order; beyond it, the character stands alone.
pub proof fn characters_are_found_by_their_numbers(prefix: char, code: nat)
    requires
        16 <= code,
        is_char_number(code as int),
    ensures
        ({
            let r = unicode_for(prefix, seq![prefix] + hexadecimal(code));
            &&& r.len() > 0
            &&& r[0].0 == seq![code as char]
            &&& r[0].1 == Some("U"@ + hexadecimal(code))
            &&& 0x20 <= code < 0xD7F0 ==> r.len() == 16 && forall|i: int|
                0 <= i < 16 ==> (#[trigger] r[i]).0 == seq![(code + i) as char]
            &&& code >= 0x1_0000 ==> r.len() == 1
        }),
{
    hexadecimals_read_back(code);
    let s = seq![prefix] + hexadecimal(code);
    assert(s.skip(1) =~= hexadecimal(code));
    let r = unicode_for(prefix, s);
    let n = if code < 0x1_0000 {
        15int
    } else {
        0
    };
    let tail = following(code as int, n);
    assert(r =~= seq![(seq![code as char], Some("U"@ + hexadecimal(code)))] + tail);
    if 0x20 <= code < 0xD7F0 {
        those_that_follow(code as int, 15);
        assert forall|i: int| 0 <= i < 16 implies (#[trigger] r[i]).0 == seq![
            (code + i) as char,
        ] by {
            if i > 0 {
                assert(r[i] == tail[i - 1]);
            }
        }
    }
}

/// A number that no character has is out of range, and what is no number stands
/// for nothing.
pub proof fn other_numbers_have_no_character(prefix: char, code: nat, c: char, s: Seq<char>)
    requires
        16 <= code,
        code > 0x10_FFFF || 0xD800 <= code <= 0xDFFF,
        !('0' <= c <= '9' || 'a' <= c <= 'f' || 'A' <= c <= 'F'),
        s.contains(c),
    ensures
        unicode_for(prefix, seq![prefix] + hexadecimal(code)) == seq![
            ("数值超限！"@, None::<Seq<char>>),
        ],
        unicode_for(prefix, seq![prefix] + s).len() == 0,
{
    hexadecimals_read_back(code);
    assert((seq![prefix] + hexadecimal(code)).skip(1) =~= hexadecimal(code));
    assert((seq![prefix] + s).skip(1) =~= s);
    let i = choose|i: int| 0 <= i < s.len() && s[i] == c;
    assert(!is_hex(s[i]));
}

/// Where the two digits of a byte stand in an identifier.
pub open spec fn byte_place(i: int) -> int {
    2 * i + (if i < 4 {
        0
    } else if i < 6 {
        1
    } else if i < 8 {
        2
    } else if i < 10 {
        3
    } else {
        4int
    })
}

proof fn bytes_are_written(raw: Seq<u8>, n: int, i: int)
    requires
        0 <= i < n <= 16,
    ensures
        ({
            let t = uuid_text(raw, n);
            &&& t.len() == byte_place(n - 1) + 2
            &&& t[byte_place(i)] == hex_digit(uuid_byte(raw, i) / 16)
            &&& t[byte_place(i) + 1] == hex_digit(uuid_byte(raw, i) % 16)
        }),
    decreases n,
{
    if n > 1 {
        if i < n - 1 {
            bytes_are_written(raw, n - 1, i);
        } else {
            bytes_are_written(raw, n - 1, 0);
        }
    } else {
        assert(uuid_text(raw, 0) =~= Seq::<char>::empty());
    }
}

/// Dividing by 256 again and again.
pub open spec fn shifted(n: nat, i: int) -> nat
    decreases i,
{
    if i <= 0 {
        n
    } else {
        shifted(n / 256, i - 1)
    }
}

proof fn byte_of(n: nat, k: nat, i: int)
    requires
        0 <= i < k,
    ensures
        le_bytes(n, k).len() == k,
        le_bytes(n, k)[i] == shifted(n, i) % 256,
    decreases k,
{
    if k > 1 {
        if i > 0 {
            byte_of(n / 256, (k - 1) as nat, i - 1);
        } else {
            byte_of(n / 256, (k - 1) as nat, 0);
        }
    } else {
        assert(le_bytes(n / 256, 0) =~= Seq::<u8>::empty());
    }
}

/// An identifier shows its two random numbers, byte by byte, the first number
/// first and the lowest byte of each first, but for the bits of the version and
/// the variant.
pub proof fn identifiers_show_their_numbers(trigger: Seq<char>, a: u64, b: u64, i: int)
    requires
        0 <= i < 16,
    ensures
        ({
            let r = uuid_for(trigger, trigger, a, b);
            let t = r[0].0;
            let shown = 16 * hex_worth(t[byte_place(i)]) + hex_worth(t[byte_place(i) + 1]);
            let byte = (if i < 8 {
                shifted(a as nat, i)
            } else {
                shifted(b as nat, i - 8)
            }) % 256;
            &&& r.len() == 1
            &&& i != 6 && i != 8 ==> shown == byte
            &&& i == 6 ==> shown % 16 == byte % 16 && shown / 16 == 4
            &&& i == 8 ==> shown % 64 == byte % 64 && shown / 64 == 2
        }),
{
    let raw = random_bytes(a, b);
    bytes_are_written(raw, 16, i);
    if i < 8 {
        byte_of(a as nat, 8, i);
        byte_of(b as nat, 8, 0);
    } else {
        byte_of(a as nat, 8, 0);
        byte_of(b as nat, 8, i - 8);
    }
    let u = uuid_byte(raw, i);
    digits_are_worth(u / 16);
    digits_are_worth(u % 16);
}

/// A text that is not the trigger gets no identifier.
pub proof fn other_texts_get_no_identifier(trigger: Seq<char>, s: Seq<char>, a: u64, b: u64)
    requires
        s != trigger,
    ensures
        uuid_for(trigger, s, a, b).len() == 0,
{
}

} // verus!
