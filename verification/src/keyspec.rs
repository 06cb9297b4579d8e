//! Keys, and the names that schemes write for them.

use vstd::prelude::*;
use crate::text::{
    ascii_lower, decimal, decimal_text, lower_char, lower_text, lowered, part, push_char, same_text,
    to_chars,
};

verus! {

/// A key that has a name rather than a character.
#[derive(Clone, Copy, Debug, PartialEq, Eq, PartialOrd, Ord, Structural)]
pub enum NamedKey {
    Space,
    Enter,
    Backspace,
    Delete,
    Escape,
    Tab,
    Left,
    Right,
    Up,
    Down,
    Home,
    End,
    PageUp,
    PageDown,
    Shift,
    CapsLock,
    Digit(u8),
}

/// Which key.
#[derive(Clone, Copy, Debug, PartialEq, Eq, PartialOrd, Ord, Structural)]
pub enum KeyCode {
    Char(char),
    Named(NamedKey),
}

/// The modifiers held down.
#[derive(Clone, Copy, Debug, PartialEq, Eq, PartialOrd, Ord, Structural)]
pub struct Modifiers {
    pub shift: bool,
    pub ctrl: bool,
    pub alt: bool,
    pub meta: bool,
    pub caps: bool,
}

pub open spec fn no_mods() -> Modifiers {
    Modifiers { shift: false, ctrl: false, alt: false, meta: false, caps: false }
}

pub open spec fn mods_union(a: Modifiers, b: Modifiers) -> Modifiers {
    Modifiers {
        shift: a.shift || b.shift,
        ctrl: a.ctrl || b.ctrl,
        alt: a.alt || b.alt,
        meta: a.meta || b.meta,
        caps: a.caps || b.caps,
    }
}

pub open spec fn mods_within(a: Modifiers, b: Modifiers) -> bool {
    mods_union(a, b) == b
}

/// How many modifiers are held down.
pub open spec fn mods_count(m: Modifiers) -> int {
    (if m.shift { 1int } else { 0 }) + (if m.ctrl { 1int } else { 0 }) + (if m.alt { 1int } else {
        0
    }) + (if m.meta { 1int } else { 0 }) + (if m.caps { 1int } else { 0 })
}

impl Modifiers {
    pub fn none() -> (r: Modifiers)
        ensures
            r == no_mods(),
    {
        Modifiers { shift: false, ctrl: false, alt: false, meta: false, caps: false }
    }

    pub fn shift() -> (r: Modifiers)
        ensures
            r == (Modifiers { shift: true, ctrl: false, alt: false, meta: false, caps: false }),
    {
        Modifiers { shift: true, ctrl: false, alt: false, meta: false, caps: false }
    }

    pub fn ctrl() -> (r: Modifiers)
        ensures
            r == (Modifiers { shift: false, ctrl: true, alt: false, meta: false, caps: false }),
    {
        Modifiers { shift: false, ctrl: true, alt: false, meta: false, caps: false }
    }

    pub fn alt() -> (r: Modifiers)
        ensures
            r == (Modifiers { shift: false, ctrl: false, alt: true, meta: false, caps: false }),
    {
        Modifiers { shift: false, ctrl: false, alt: true, meta: false, caps: false }
    }

    pub fn meta() -> (r: Modifiers)
        ensures
            r == (Modifiers { shift: false, ctrl: false, alt: false, meta: true, caps: false }),
    {
        Modifiers { shift: false, ctrl: false, alt: false, meta: true, caps: false }
    }

    /// Everything held down in either.
    pub fn union(self, other: Modifiers) -> (r: Modifiers)
        ensures
            r == mods_union(self, other),
    {
        Modifiers {
            shift: self.shift || other.shift,
            ctrl: self.ctrl || other.ctrl,
            alt: self.alt || other.alt,
            meta: self.meta || other.meta,
            caps: self.caps || other.caps,
        }
    }

    /// Whether everything held down in `other` is held down here.
    pub fn contains(self, other: Modifiers) -> (r: bool)
        ensures
            r == mods_within(other, self),
    {
        (self.shift || !other.shift) && (self.ctrl || !other.ctrl) && (self.alt || !other.alt) && (
        self.meta || !other.meta) && (self.caps || !other.caps)
    }

    pub fn count(self) -> (r: u8)
        ensures
            r == mods_count(self),
    {
        let mut n: u8 = 0;
        if self.shift {
            n += 1;
        }
        if self.ctrl {
            n += 1;
        }
        if self.alt {
            n += 1;
        }
        if self.meta {
            n += 1;
        }
        if self.caps {
            n += 1;
        }
        n
    }
}

/// One key event.
#[derive(Clone, Copy, Debug, PartialEq, Eq, Structural)]
pub struct Key {
    pub code: KeyCode,
    pub mods: Modifiers,
    pub release: bool,
}

impl Key {
    /// The key of a character, pressed alone.
    pub fn ch(c: char) -> (r: Key)
        ensures
            r == (Key { code: KeyCode::Char(c), mods: no_mods(), release: false }),
    {
        Key { code: KeyCode::Char(c), mods: Modifiers::none(), release: false }
    }

    pub fn press(code: KeyCode, mods: Modifiers) -> (r: Key)
        ensures
            r == (Key { code, mods, release: false }),
    {
        Key { code, mods, release: false }
    }
}

/// A key with modifiers, as bindings name it.
#[derive(Clone, Copy, Debug, PartialEq, Eq, PartialOrd, Ord, Structural)]
pub struct KeyChord {
    pub code: KeyCode,
    pub mods: Modifiers,
}

/// Whether a key event is an instance of a chord: pressed, the same key, and
/// with at least the modifiers that the chord names.
pub open spec fn chord_hit(chord: KeyChord, key: Key) -> bool {
    !key.release && chord.code == key.code && mods_within(chord.mods, key.mods)
}

/// Whether `s` starts with `p`, whatever the case of its ASCII letters.
pub open spec fn starts_like(s: Seq<char>, p: Seq<char>) -> bool {
    p.len() <= s.len() && lowered(s.take(p.len() as int)) == p
}

/// The modifier that a name starts with, and how long its prefix is.
pub open spec fn mod_prefix(s: Seq<char>) -> Option<(Modifiers, int)> {
    if starts_like(s, "control+"@) {
        Some(
            (Modifiers { shift: false, ctrl: true, alt: false, meta: false, caps: false }, "control+"@.len() as int),
        )
    } else if starts_like(s, "ctrl+"@) {
        Some(
            (Modifiers { shift: false, ctrl: true, alt: false, meta: false, caps: false }, "ctrl+"@.len() as int),
        )
    } else if starts_like(s, "shift+"@) {
        Some(
            (Modifiers { shift: true, ctrl: false, alt: false, meta: false, caps: false }, "shift+"@.len() as int),
        )
    } else if starts_like(s, "alt+"@) {
        Some(
            (Modifiers { shift: false, ctrl: false, alt: true, meta: false, caps: false }, "alt+"@.len() as int),
        )
    } else if starts_like(s, "super+"@) {
        Some(
            (Modifiers { shift: false, ctrl: false, alt: false, meta: true, caps: false }, "super+"@.len() as int),
        )
    } else {
        None
    }
}

/// The modifiers that a name starts with, and the rest of it.
pub open spec fn split_mods(s: Seq<char>) -> (Modifiers, Seq<char>)
    decreases s.len(),
{
    match mod_prefix(s) {
        Some((m, n)) => if 0 < n <= s.len() {
            let (more, rest) = split_mods(s.skip(n));
            (mods_union(m, more), rest)
        } else {
            (no_mods(), s)
        },
        None => (no_mods(), s),
    }
}

/// The key that a lower-case name stands for.
pub open spec fn named_code(name: Seq<char>) -> Option<KeyCode> {
    if name == "space"@ {
        Some(KeyCode::Named(NamedKey::Space))
    } else if name == "return"@ || name == "enter"@ {
        Some(KeyCode::Named(NamedKey::Enter))
    } else if name == "backspace"@ {
        Some(KeyCode::Named(NamedKey::Backspace))
    } else if name == "delete"@ || name == "delete_forward"@ {
        Some(KeyCode::Named(NamedKey::Delete))
    } else if name == "escape"@ || name == "esc"@ {
        Some(KeyCode::Named(NamedKey::Escape))
    } else if name == "tab"@ {
        Some(KeyCode::Named(NamedKey::Tab))
    } else if name == "left"@ {
        Some(KeyCode::Named(NamedKey::Left))
    } else if name == "right"@ {
        Some(KeyCode::Named(NamedKey::Right))
    } else if name == "up"@ {
        Some(KeyCode::Named(NamedKey::Up))
    } else if name == "down"@ {
        Some(KeyCode::Named(NamedKey::Down))
    } else if name == "home"@ {
        Some(KeyCode::Named(NamedKey::Home))
    } else if name == "end"@ {
        Some(KeyCode::Named(NamedKey::End))
    } else if name == "prior"@ || name == "page_up"@ {
        Some(KeyCode::Named(NamedKey::PageUp))
    } else if name == "next"@ || name == "page_down"@ {
        Some(KeyCode::Named(NamedKey::PageDown))
    } else if name == "minus"@ {
        Some(KeyCode::Char('-'))
    } else if name == "equal"@ {
        Some(KeyCode::Char('='))
    } else if name == "comma"@ {
        Some(KeyCode::Char(','))
    } else if name == "period"@ {
        Some(KeyCode::Char('.'))
    } else if name == "slash"@ {
        Some(KeyCode::Char('/'))
    } else if name == "semicolon"@ {
        Some(KeyCode::Char(';'))
    } else if name == "apostrophe"@ {
        Some(KeyCode::Char('\''))
    } else if name == "grave"@ {
        Some(KeyCode::Char('`'))
    } else if name == "bracketleft"@ {
        Some(KeyCode::Char('['))
    } else if name == "bracketright"@ {
        Some(KeyCode::Char(']'))
    } else if name == "backslash"@ {
        Some(KeyCode::Char('\\'))
    } else {
        None
    }
}

/// The chord that a name stands for.
pub open spec fn chord_of(name: Seq<char>) -> Option<KeyChord> {
    let (mods, rest) = split_mods(name);
    match named_code(lowered(rest)) {
        Some(code) => Some(KeyChord { code, mods }),
        None => if rest.len() == 1 {
            Some(KeyChord { code: KeyCode::Char(rest[0]), mods })
        } else {
            None
        },
    }
}

/// The name of a key.
pub open spec fn code_name(code: KeyCode) -> Seq<char> {
    match code {
        KeyCode::Char(c) => seq![c],
        KeyCode::Named(n) => match n {
            NamedKey::Space => "space"@,
            NamedKey::Enter => "Return"@,
            NamedKey::Backspace => "BackSpace"@,
            NamedKey::Delete => "Delete"@,
            NamedKey::Escape => "Escape"@,
            NamedKey::Tab => "Tab"@,
            NamedKey::Left => "Left"@,
            NamedKey::Right => "Right"@,
            NamedKey::Up => "Up"@,
            NamedKey::Down => "Down"@,
            NamedKey::Home => "Home"@,
            NamedKey::End => "End"@,
            NamedKey::PageUp => "Page_Up"@,
            NamedKey::PageDown => "Page_Down"@,
            NamedKey::Digit(d) => decimal(d as nat),
            NamedKey::Shift => "Shift"@,
            NamedKey::CapsLock => "Caps_Lock"@,
        },
    }
}

/// The name of a chord.
pub open spec fn chord_name(c: KeyChord) -> Seq<char> {
    (if c.mods.ctrl {
        "Control+"@
    } else {
        seq![]
    }) + (if c.mods.shift {
        "Shift+"@
    } else {
        seq![]
    }) + (if c.mods.alt {
        "Alt+"@
    } else {
        seq![]
    }) + (if c.mods.meta {
        "Super+"@
    } else {
        seq![]
    }) + code_name(c.code)
}

impl KeyChord {
    #[must_use]
    pub fn new(code: KeyCode, mods: Modifiers) -> (r: Self)
        ensures
            r == (KeyChord { code, mods }),
    {
        KeyChord { code, mods }
    }

    /// Whether a key event is an instance of this chord. Modifiers that the
    /// chord does not name may be held down or not.
    #[must_use]
    pub fn matches(&self, key: &Key) -> (r: bool)
        ensures
            r == chord_hit(*self, *key),
    {
        if key.release {
            return false;
        }
        self.code == key.code && key.mods.contains(self.mods)
    }

    /// The name of this chord.
    #[must_use]
    pub fn to_name(self) -> (r: String)
        ensures
            r@ == chord_name(self),
    {
        let mut out = String::new();
        if self.mods.ctrl {
            out.append("Control+");
        }
        assert(out@ =~= (if self.mods.ctrl {
            "Control+"@
        } else {
            seq![]
        }));
        let ghost a = out@;
        if self.mods.shift {
            out.append("Shift+");
        }
        assert(out@ =~= a + (if self.mods.shift {
            "Shift+"@
        } else {
            seq![]
        }));
        let ghost b = out@;
        if self.mods.alt {
            out.append("Alt+");
        }
        assert(out@ =~= b + (if self.mods.alt {
            "Alt+"@
        } else {
            seq![]
        }));
        let ghost c = out@;
        if self.mods.meta {
            out.append("Super+");
        }
        assert(out@ =~= c + (if self.mods.meta {
            "Super+"@
        } else {
            seq![]
        }));
        out.append(key_code_name(self.code).as_str());
        out
    }
}

/// The name of a key.
#[must_use]
pub fn key_code_name(code: KeyCode) -> (r: String)
    ensures
        r@ == code_name(code),
{
    match code {
        KeyCode::Char(c) => {
            let mut s = String::new();
            push_char(&mut s, c);
            assert(s@ =~= seq![c]);
            s
        },
        KeyCode::Named(n) => match n {
            NamedKey::Space => "space".to_owned(),
            NamedKey::Enter => "Return".to_owned(),
            NamedKey::Backspace => "BackSpace".to_owned(),
            NamedKey::Delete => "Delete".to_owned(),
            NamedKey::Escape => "Escape".to_owned(),
            NamedKey::Tab => "Tab".to_owned(),
            NamedKey::Left => "Left".to_owned(),
            NamedKey::Right => "Right".to_owned(),
            NamedKey::Up => "Up".to_owned(),
            NamedKey::Down => "Down".to_owned(),
            NamedKey::Home => "Home".to_owned(),
            NamedKey::End => "End".to_owned(),
            NamedKey::PageUp => "Page_Up".to_owned(),
            NamedKey::PageDown => "Page_Down".to_owned(),
            NamedKey::Digit(d) => decimal_text(d as u64),
            NamedKey::Shift => "Shift".to_owned(),
            NamedKey::CapsLock => "Caps_Lock".to_owned(),
        },
    }
}

fn begins_like(cs: &Vec<char>, from: usize, p: &str) -> (r: Option<usize>)
    requires
        from <= cs.len(),
    ensures
        match r {
            Some(n) => starts_like(cs@.skip(from as int), p@) && n == p@.len(),
            None => !starts_like(cs@.skip(from as int), p@),
        },
{
    let ps = to_chars(p);
    let ghost s = cs@.skip(from as int);
    if ps.len() > cs.len() - from {
        return None;
    }
    let mut i: usize = 0;
    while i < ps.len()
        invariant
            i <= ps.len() <= cs.len() - from,
            from <= cs.len(),
            ps@ == p@,
            s == cs@.skip(from as int),
            forall|j: int| 0 <= j < i ==> ascii_lower(#[trigger] s[j]) == ps@[j],
        decreases ps.len() - i,
    {
        if lower_char(cs[from + i]) != ps[i] {
            assert(lowered(s.take(p@.len() as int))[i as int] == ascii_lower(s[i as int]));
            return None;
        }
        i += 1;
    }
    assert(lowered(s.take(p@.len() as int)) =~= p@);
    Some(ps.len())
}

fn parse_mod(cs: &Vec<char>, from: usize) -> (r: Option<(Modifiers, usize)>)
    requires
        from <= cs.len(),
    ensures
        match mod_prefix(cs@.skip(from as int)) {
            Some((m, n)) => r matches Some((x, k)) && x == m && k == n && n <= cs@.len() - from,
            None => r is None,
        },
{
    if let Some(n) = begins_like(cs, from, "control+") {
        return Some((Modifiers::ctrl(), n));
    }
    if let Some(n) = begins_like(cs, from, "ctrl+") {
        return Some((Modifiers::ctrl(), n));
    }
    if let Some(n) = begins_like(cs, from, "shift+") {
        return Some((Modifiers::shift(), n));
    }
    if let Some(n) = begins_like(cs, from, "alt+") {
        return Some((Modifiers::alt(), n));
    }
    if let Some(n) = begins_like(cs, from, "super+") {
        return Some((Modifiers::meta(), n));
    }
    None
}

fn parse_named(name: &str) -> (r: Option<KeyCode>)
    ensures
        r == named_code(name@),
{
    if same_text(name, "space") {
        Some(KeyCode::Named(NamedKey::Space))
    } else if same_text(name, "return") || same_text(name, "enter") {
        Some(KeyCode::Named(NamedKey::Enter))
    } else if same_text(name, "backspace") {
        Some(KeyCode::Named(NamedKey::Backspace))
    } else if same_text(name, "delete") || same_text(name, "delete_forward") {
        Some(KeyCode::Named(NamedKey::Delete))
    } else if same_text(name, "escape") || same_text(name, "esc") {
        Some(KeyCode::Named(NamedKey::Escape))
    } else if same_text(name, "tab") {
        Some(KeyCode::Named(NamedKey::Tab))
    } else if same_text(name, "left") {
        Some(KeyCode::Named(NamedKey::Left))
    } else if same_text(name, "right") {
        Some(KeyCode::Named(NamedKey::Right))
    } else if same_text(name, "up") {
        Some(KeyCode::Named(NamedKey::Up))
    } else if same_text(name, "down") {
        Some(KeyCode::Named(NamedKey::Down))
    } else if same_text(name, "home") {
        Some(KeyCode::Named(NamedKey::Home))
    } else if same_text(name, "end") {
        Some(KeyCode::Named(NamedKey::End))
    } else if same_text(name, "prior") || same_text(name, "page_up") {
        Some(KeyCode::Named(NamedKey::PageUp))
    } else if same_text(name, "next") || same_text(name, "page_down") {
        Some(KeyCode::Named(NamedKey::PageDown))
    } else if same_text(name, "minus") {
        Some(KeyCode::Char('-'))
    } else if same_text(name, "equal") {
        Some(KeyCode::Char('='))
    } else if same_text(name, "comma") {
        Some(KeyCode::Char(','))
    } else if same_text(name, "period") {
        Some(KeyCode::Char('.'))
    } else if same_text(name, "slash") {
        Some(KeyCode::Char('/'))
    } else if same_text(name, "semicolon") {
        Some(KeyCode::Char(';'))
    } else if same_text(name, "apostrophe") {
        Some(KeyCode::Char('\''))
    } else if same_text(name, "grave") {
        Some(KeyCode::Char('`'))
    } else if same_text(name, "bracketleft") {
        Some(KeyCode::Char('['))
    } else if same_text(name, "bracketright") {
        Some(KeyCode::Char(']'))
    } else if same_text(name, "backslash") {
        Some(KeyCode::Char('\\'))
    } else {
        None
    }
}

/// Reads the name of a chord: modifiers, each followed by `+`, then the name of
/// a key or a single character. Case does not matter in names.
#[must_use]
pub fn parse_key_name(name: &str) -> (r: Option<KeyChord>)
    ensures
        r == chord_of(name@),
{
    let cs = to_chars(name);
    let mut mods = Modifiers::none();
    let mut from: usize = 0;
    assert(cs@.skip(0) =~= cs@);
    let ghost goal = split_mods(cs@);
    loop
        invariant_except_break
            goal.1 == split_mods(cs@.skip(from as int)).1,
            goal.0 == mods_union(mods, split_mods(cs@.skip(from as int)).0),
        invariant
            from <= cs.len(),
            goal == split_mods(cs@),
        ensures
            goal == (mods, cs@.skip(from as int)),
        decreases cs.len() - from,
    {
        match parse_mod(&cs, from) {
            None => {
                break;
            },
            Some((m, n)) => {
                if n == 0 {
                    break;
                }
                assert(cs@.skip(from as int).skip(n as int) =~= cs@.skip(from + n));
                mods = mods.union(m);
                from += n;
            },
        }
    }
    let rest = part(&cs, from, cs.len());
    assert(rest@ =~= cs@.skip(from as int));
    let key = lower_text(rest.as_str());
    match parse_named(key.as_str()) {
        Some(code) => Some(KeyChord::new(code, mods)),
        None => {
            if cs.len() - from == 1 {
                Some(KeyChord::new(KeyCode::Char(cs[from]), mods))
            } else {
                None
            }
        },
    }
}

/// The key that most likely types a character: space, tab and line ends have
/// keys of their own.
pub open spec fn char_key(c: char) -> Key {
    Key {
        code: if c == ' ' {
            KeyCode::Named(NamedKey::Space)
        } else if c == '\t' {
            KeyCode::Named(NamedKey::Tab)
        } else if c == '\n' || c == '\r' {
            KeyCode::Named(NamedKey::Enter)
        } else {
            KeyCode::Char(c)
        },
        mods: no_mods(),
        release: false,
    }
}

/// The key that most likely types a character.
#[must_use]
pub fn key_for_char(c: char) -> (r: Key)
    ensures
        r == char_key(c),
{
    match c {
        ' ' => Key::press(KeyCode::Named(NamedKey::Space), Modifiers::none()),
        '\t' => Key::press(KeyCode::Named(NamedKey::Tab), Modifiers::none()),
        '\n' | '\r' => Key::press(KeyCode::Named(NamedKey::Enter), Modifiers::none()),
        other => Key::ch(other),
    }
}

// ---------------------------------------------------------------------------
// Laws
// ---------------------------------------------------------------------------

proof fn reveal_prefixes()
    ensures
        "control+"@ == seq!['c', 'o', 'n', 't', 'r', 'o', 'l', '+'],
        "ctrl+"@ == seq!['c', 't', 'r', 'l', '+'],
        "shift+"@ == seq!['s', 'h', 'i', 'f', 't', '+'],
        "alt+"@ == seq!['a', 'l', 't', '+'],
        "super+"@ == seq!['s', 'u', 'p', 'e', 'r', '+'],
{
    reveal_strlit("control+");
    reveal_strlit("ctrl+");
    reveal_strlit("shift+");
    reveal_strlit("alt+");
    reveal_strlit("super+");
    assert("control+"@ =~= seq!['c', 'o', 'n', 't', 'r', 'o', 'l', '+']);
    assert("ctrl+"@ =~= seq!['c', 't', 'r', 'l', '+']);
    assert("shift+"@ =~= seq!['s', 'h', 'i', 'f', 't', '+']);
    assert("alt+"@ =~= seq!['a', 'l', 't', '+']);
    assert("super+"@ =~= seq!['s', 'u', 'p', 'e', 'r', '+']);
}

proof fn starts_like_first(s: Seq<char>, p: Seq<char>)
    requires
        starts_like(s, p),
        p.len() >= 2,
    ensures
        ascii_lower(s[0]) == p[0],
        ascii_lower(s[1]) == p[1],
{
    let l = lowered(s.take(p.len() as int));
    assert(l[0] == ascii_lower(s[0]));
    assert(l[1] == ascii_lower(s[1]));
}

proof fn split_after(p: Seq<char>, low: Seq<char>, m: Modifiers, s: Seq<char>)
    requires
        low.len() == p.len() > 0,
        lowered(p) == low,
        forall|t: Seq<char>| #[trigger]
            starts_like(t, low) ==> mod_prefix(t) == Some((m, low.len() as int)),
    ensures
        split_mods(p + s) == (mods_union(m, split_mods(s).0), split_mods(s).1),
{
    let t = p + s;
    assert(t.take(p.len() as int) =~= p);
    assert(starts_like(t, low));
    assert(t.skip(p.len() as int) =~= s);
}

proof fn split_named(name: Seq<char>)
    requires
        name.len() >= 1,
        name.len() == 1 || (ascii_lower(name[0]) != 'c' && ascii_lower(name[0]) != 'a' && !(
        ascii_lower(name[0]) == 's' && (ascii_lower(name[1]) == 'h' || ascii_lower(name[1])
            == 'u'))),
    ensures
        split_mods(name) == (no_mods(), name),
{
    reveal_prefixes();
    if starts_like(name, "control+"@) {
        starts_like_first(name, "control+"@);
    }
    if starts_like(name, "ctrl+"@) {
        starts_like_first(name, "ctrl+"@);
    }
    if starts_like(name, "shift+"@) {
        starts_like_first(name, "shift+"@);
    }
    if starts_like(name, "alt+"@) {
        starts_like_first(name, "alt+"@);
    }
    if starts_like(name, "super+"@) {
        starts_like_first(name, "super+"@);
    }
}

#[verifier::rlimit(30)]
proof fn modifiers_split(mods: Modifiers, name: Seq<char>)
    requires
        !mods.caps,
        split_mods(name) == (no_mods(), name),
    ensures
        split_mods(
            (if mods.ctrl {
                "Control+"@
            } else {
                seq![]
            }) + (if mods.shift {
                "Shift+"@
            } else {
                seq![]
            }) + (if mods.alt {
                "Alt+"@
            } else {
                seq![]
            }) + (if mods.meta {
                "Super+"@
            } else {
                seq![]
            }) + name,
        ) == (mods, name),
{
    reveal_prefixes();
    reveal_strlit("Control+");
    reveal_strlit("Shift+");
    reveal_strlit("Alt+");
    reveal_strlit("Super+");
    assert(lowered("Control+"@) =~= "control+"@);
    assert(lowered("Shift+"@) =~= "shift+"@);
    assert(lowered("Alt+"@) =~= "alt+"@);
    assert(lowered("Super+"@) =~= "super+"@);
    let none = Seq::<char>::empty();
    let c = if mods.ctrl { "Control+"@ } else { none };
    let s = if mods.shift { "Shift+"@ } else { none };
    let a = if mods.alt { "Alt+"@ } else { none };
    let m = if mods.meta { "Super+"@ } else { none };
    assert forall|t: Seq<char>| #[trigger] starts_like(t, "shift+"@) implies mod_prefix(t) == Some(
        (
            Modifiers { shift: true, ctrl: false, alt: false, meta: false, caps: false },
            "shift+"@.len() as int,
        ),
    ) by {
        starts_like_first(t, "shift+"@);
        if starts_like(t, "control+"@) {
            starts_like_first(t, "control+"@);
        }
        if starts_like(t, "ctrl+"@) {
            starts_like_first(t, "ctrl+"@);
        }
    }
    assert forall|t: Seq<char>| #[trigger] starts_like(t, "alt+"@) implies mod_prefix(t) == Some(
        (
            Modifiers { shift: false, ctrl: false, alt: true, meta: false, caps: false },
            "alt+"@.len() as int,
        ),
    ) by {
        starts_like_first(t, "alt+"@);
        if starts_like(t, "control+"@) {
            starts_like_first(t, "control+"@);
        }
        if starts_like(t, "ctrl+"@) {
            starts_like_first(t, "ctrl+"@);
        }
        if starts_like(t, "shift+"@) {
            starts_like_first(t, "shift+"@);
        }
    }
    assert forall|t: Seq<char>| #[trigger] starts_like(t, "super+"@) implies mod_prefix(t) == Some(
        (
            Modifiers { shift: false, ctrl: false, alt: false, meta: true, caps: false },
            "super+"@.len() as int,
        ),
    ) by {
        starts_like_first(t, "super+"@);
        if starts_like(t, "control+"@) {
            starts_like_first(t, "control+"@);
        }
        if starts_like(t, "ctrl+"@) {
            starts_like_first(t, "ctrl+"@);
        }
        if starts_like(t, "shift+"@) {
            starts_like_first(t, "shift+"@);
        }
        if starts_like(t, "alt+"@) {
            starts_like_first(t, "alt+"@);
        }
    }
    let n0 = name;
    let n1 = m + n0;
    if mods.meta {
        split_after(
            "Super+"@,
            "super+"@,
            Modifiers { shift: false, ctrl: false, alt: false, meta: true, caps: false },
            n0,
        );
    } else {
        assert(n1 =~= n0);
    }
    let n2 = a + n1;
    if mods.alt {
        split_after(
            "Alt+"@,
            "alt+"@,
            Modifiers { shift: false, ctrl: false, alt: true, meta: false, caps: false },
            n1,
        );
    } else {
        assert(n2 =~= n1);
    }
    let n3 = s + n2;
    if mods.shift {
        split_after(
            "Shift+"@,
            "shift+"@,
            Modifiers { shift: true, ctrl: false, alt: false, meta: false, caps: false },
            n2,
        );
    } else {
        assert(n3 =~= n2);
    }
    let n4 = c + n3;
    if mods.ctrl {
        split_after(
            "Control+"@,
            "control+"@,
            Modifiers { shift: false, ctrl: true, alt: false, meta: false, caps: false },
            n3,
        );
    } else {
        assert(n4 =~= n3);
    }
    assert(c + s + a + m + name =~= n4);
}

proof fn key_name_reads_back(n: NamedKey)
    requires
        !(n is Digit) && !(n is Shift) && !(n is CapsLock),
    ensures
        named_code(lowered(code_name(KeyCode::Named(n)))) == Some(KeyCode::Named(n)),
        split_mods(code_name(KeyCode::Named(n))) == (no_mods(), code_name(KeyCode::Named(n))),
{
    reveal_strlit("space");
    reveal_strlit("return");
    reveal_strlit("enter");
    reveal_strlit("backspace");
    reveal_strlit("delete");
    reveal_strlit("delete_forward");
    reveal_strlit("escape");
    reveal_strlit("esc");
    reveal_strlit("tab");
    reveal_strlit("left");
    reveal_strlit("right");
    reveal_strlit("up");
    reveal_strlit("down");
    reveal_strlit("home");
    reveal_strlit("end");
    reveal_strlit("prior");
    reveal_strlit("page_up");
    reveal_strlit("next");
    reveal_strlit("page_down");
    reveal_strlit("minus");
    reveal_strlit("equal");
    reveal_strlit("comma");
    reveal_strlit("period");
    reveal_strlit("slash");
    reveal_strlit("semicolon");
    reveal_strlit("apostrophe");
    reveal_strlit("grave");
    reveal_strlit("bracketleft");
    reveal_strlit("bracketright");
    reveal_strlit("backslash");
    reveal_strlit("Return");
    reveal_strlit("BackSpace");
    reveal_strlit("Delete");
    reveal_strlit("Escape");
    reveal_strlit("Tab");
    reveal_strlit("Left");
    reveal_strlit("Right");
    reveal_strlit("Up");
    reveal_strlit("Down");
    reveal_strlit("Home");
    reveal_strlit("End");
    reveal_strlit("Page_Up");
    reveal_strlit("Page_Down");
    assert("space"@[0] == 's' && "space"@[1] == 'p');
    assert("return"@[0] == 'r' && "return"@[1] == 'e');
    assert("enter"@[0] == 'e' && "enter"@[1] == 'n');
    assert("backspace"@[0] == 'b' && "backspace"@[1] == 'a');
    assert("delete"@[0] == 'd' && "delete"@[1] == 'e');
    assert("delete_forward"@[0] == 'd' && "delete_forward"@[1] == 'e');
    assert("escape"@[0] == 'e' && "escape"@[1] == 's');
    assert("esc"@[0] == 'e' && "esc"@[1] == 's');
    assert("tab"@[0] == 't' && "tab"@[1] == 'a');
    assert("left"@[0] == 'l' && "left"@[1] == 'e');
    assert("right"@[0] == 'r' && "right"@[1] == 'i');
    assert("up"@[0] == 'u' && "up"@[1] == 'p');
    assert("down"@[0] == 'd' && "down"@[1] == 'o');
    assert("home"@[0] == 'h' && "home"@[1] == 'o');
    assert("end"@[0] == 'e' && "end"@[1] == 'n');
    assert("prior"@[0] == 'p' && "prior"@[1] == 'r');
    assert("page_up"@[0] == 'p' && "page_up"@[1] == 'a');
    assert("next"@[0] == 'n' && "next"@[1] == 'e');
    assert("page_down"@[0] == 'p' && "page_down"@[1] == 'a');
    let name = code_name(KeyCode::Named(n));
    match n {
        NamedKey::Space => {
            assert(lowered(name) =~= "space"@);
        },
        NamedKey::Enter => {
            assert(lowered(name) =~= "return"@);
        },
        NamedKey::Backspace => {
            assert(lowered(name) =~= "backspace"@);
        },
        NamedKey::Delete => {
            assert(lowered(name) =~= "delete"@);
        },
        NamedKey::Escape => {
            assert(lowered(name) =~= "escape"@);
        },
        NamedKey::Tab => {
            assert(lowered(name) =~= "tab"@);
        },
        NamedKey::Left => {
            assert(lowered(name) =~= "left"@);
        },
        NamedKey::Right => {
            assert(lowered(name) =~= "right"@);
        },
        NamedKey::Up => {
            assert(lowered(name) =~= "up"@);
        },
        NamedKey::Down => {
            assert(lowered(name) =~= "down"@);
        },
        NamedKey::Home => {
            assert(lowered(name) =~= "home"@);
        },
        NamedKey::End => {
            assert(lowered(name) =~= "end"@);
        },
        NamedKey::PageUp => {
            assert(lowered(name) =~= "page_up"@);
        },
        NamedKey::PageDown => {
            assert(lowered(name) =~= "page_down"@);
        },
        _ => {},
    }
    split_named(name);
}

proof fn single_char_has_no_name(c: char)
    ensures
        named_code(lowered(seq![c])) is None,
{
    reveal_strlit("space");
    reveal_strlit("return");
    reveal_strlit("enter");
    reveal_strlit("backspace");
    reveal_strlit("delete");
    reveal_strlit("delete_forward");
    reveal_strlit("escape");
    reveal_strlit("esc");
    reveal_strlit("tab");
    reveal_strlit("left");
    reveal_strlit("right");
    reveal_strlit("up");
    reveal_strlit("down");
    reveal_strlit("home");
    reveal_strlit("end");
    reveal_strlit("prior");
    reveal_strlit("page_up");
    reveal_strlit("next");
    reveal_strlit("page_down");
    reveal_strlit("minus");
    reveal_strlit("equal");
    reveal_strlit("comma");
    reveal_strlit("period");
    reveal_strlit("slash");
    reveal_strlit("semicolon");
    reveal_strlit("apostrophe");
    reveal_strlit("grave");
    reveal_strlit("bracketleft");
    reveal_strlit("bracketright");
    reveal_strlit("backslash");
    assert(lowered(seq![c]).len() == 1);
}

/// A chord is read back from its name, unless it is a digit key, a bare
/// modifier key or asks for caps lock, none of which a name can tell.
pub proof fn chord_names_read_back(c: KeyChord)
    requires
        !c.mods.caps,
        c.code matches KeyCode::Named(n) ==> !(n is Digit) && !(n is Shift) && !(n is CapsLock),
    ensures
        chord_of(chord_name(c)) == Some(c),
{
    match c.code {
        KeyCode::Char(x) => {
            split_named(seq![x]);
            single_char_has_no_name(x);
        },
        KeyCode::Named(n) => {
            key_name_reads_back(n);
        },
    }
    modifiers_split(c.mods, code_name(c.code));
}

/// A key is an instance of a chord where it is pressed, is the same key, and
/// every modifier that the chord names is held; further ones do no harm.
pub proof fn chords_are_hit_with_their_modifiers(c: KeyChord, key: Key)
    ensures
        chord_hit(c, key) <==> {
            &&& !key.release
            &&& c.code == key.code
            &&& c.mods.shift ==> key.mods.shift
            &&& c.mods.ctrl ==> key.mods.ctrl
            &&& c.mods.alt ==> key.mods.alt
            &&& c.mods.meta ==> key.mods.meta
            &&& c.mods.caps ==> key.mods.caps
        },
{
}

/// One more modifier counts one more.
pub proof fn modifiers_are_counted(m: Modifiers)
    ensures
        0 <= mods_count(m) <= 5,
        mods_count(m) == 0 <==> m == no_mods(),
        !m.shift ==> mods_count(Modifiers { shift: true, ..m }) == mods_count(m) + 1,
        !m.ctrl ==> mods_count(Modifiers { ctrl: true, ..m }) == mods_count(m) + 1,
        !m.alt ==> mods_count(Modifiers { alt: true, ..m }) == mods_count(m) + 1,
        !m.meta ==> mods_count(Modifiers { meta: true, ..m }) == mods_count(m) + 1,
        !m.caps ==> mods_count(Modifiers { caps: true, ..m }) == mods_count(m) + 1,
{
}

proof fn prefix_differs(p: Seq<char>, q: Seq<char>, s: Seq<char>, k: int)
    requires
        0 <= k < p.len(),
        0 <= k < q.len(),
        p[k] != q[k],
        lowered(p) == p,
    ensures
        !starts_like(p + s, q),
{
    if starts_like(p + s, q) {
        let t = (p + s).take(q.len() as int);
        assert(t[k] == p[k]);
        assert(lowered(t)[k] == q[k]);
        assert(lowered(p)[k] == p[k]);
    }
}

proof fn prefix_is_seen(p: Seq<char>, s: Seq<char>)
    requires
        lowered(p) == p,
    ensures
        starts_like(p + s, p),
        (p + s).skip(p.len() as int) == s,
{
    assert((p + s).take(p.len() as int) =~= p);
    assert((p + s).skip(p.len() as int) =~= s);
}

/// A modifier before the name of a chord is held with it, and changes nothing
/// else of it: `shift+`, `ctrl+` or `control+`, `alt+` and `super+`.
pub proof fn named_modifiers_are_held(name: Seq<char>, c: KeyChord)
    requires
        chord_of(name) == Some(c),
    ensures
        chord_of("shift+"@ + name) == Some(
            KeyChord { mods: Modifiers { shift: true, ..c.mods }, ..c },
        ),
        chord_of("ctrl+"@ + name) == Some(
            KeyChord { mods: Modifiers { ctrl: true, ..c.mods }, ..c },
        ),
        chord_of("control+"@ + name) == Some(
            KeyChord { mods: Modifiers { ctrl: true, ..c.mods }, ..c },
        ),
        chord_of("alt+"@ + name) == Some(KeyChord { mods: Modifiers { alt: true, ..c.mods }, ..c }),
        chord_of("super+"@ + name) == Some(
            KeyChord { mods: Modifiers { meta: true, ..c.mods }, ..c },
        ),
{
    reveal_strlit("control+");
    reveal_strlit("ctrl+");
    reveal_strlit("shift+");
    reveal_strlit("alt+");
    reveal_strlit("super+");
    assert(lowered("control+"@) =~= "control+"@);
    assert(lowered("ctrl+"@) =~= "ctrl+"@);
    assert(lowered("shift+"@) =~= "shift+"@);
    assert(lowered("alt+"@) =~= "alt+"@);
    assert(lowered("super+"@) =~= "super+"@);
    prefix_is_seen("control+"@, name);
    prefix_is_seen("ctrl+"@, name);
    prefix_is_seen("shift+"@, name);
    prefix_is_seen("alt+"@, name);
    prefix_is_seen("super+"@, name);
    prefix_differs("ctrl+"@, "control+"@, name, 1);
    prefix_differs("shift+"@, "control+"@, name, 0);
    prefix_differs("shift+"@, "ctrl+"@, name, 0);
    prefix_differs("alt+"@, "control+"@, name, 0);
    prefix_differs("alt+"@, "ctrl+"@, name, 0);
    prefix_differs("alt+"@, "shift+"@, name, 0);
    prefix_differs("super+"@, "control+"@, name, 0);
    prefix_differs("super+"@, "ctrl+"@, name, 0);
    prefix_differs("super+"@, "shift+"@, name, 1);
    prefix_differs("super+"@, "alt+"@, name, 0);
}

/// Characters are typed by their own keys; white space has keys with names.
pub proof fn characters_have_keys(c: char)
    ensures
        char_key(c).mods == no_mods() && !char_key(c).release,
        c != ' ' && c != '\t' && c != '\n' && c != '\r' ==> char_key(c).code == KeyCode::Char(c),
        char_key(' ').code == KeyCode::Named(NamedKey::Space),
        char_key('\t').code == KeyCode::Named(NamedKey::Tab),
        char_key('\n') == char_key('\r'),
        char_key('\n').code == KeyCode::Named(NamedKey::Enter),
{
}

} // verus!
