//! Codes, scores and spelling attributes.

use vstd::prelude::*;
use crate::text::{same_text, texts};

verus! {

/// A fixed-point score in the log domain, in thousandths.
#[derive(Clone, Copy, Debug, PartialEq, Eq, PartialOrd, Ord, Hash, Structural)]
pub struct Score {
    pub milli: i32,
}

/// `x`, held within the range of `i32`.
pub open spec fn clamp_milli(x: int) -> int {
    if x > i32::MAX {
        i32::MAX as int
    } else if x < i32::MIN {
        i32::MIN as int
    } else {
        x
    }
}

pub open spec fn milli(x: int) -> Score {
    Score { milli: clamp_milli(x) as i32 }
}

/// The sum of two scores, held at the ends of the range.
pub open spec fn plus(a: Score, b: Score) -> Score {
    milli(a.milli + b.milli)
}

impl Score {
    /// The neutral score.
    pub fn zero() -> (r: Score)
        ensures
            r == milli(0),
    {
        Score { milli: 0 }
    }

    /// The lowest score.
    pub fn floor() -> (r: Score)
        ensures
            r.milli == i32::MIN,
    {
        Score { milli: i32::MIN }
    }

    pub fn from_milli_log(n: i32) -> (r: Score)
        ensures
            r.milli == n,
    {
        Score { milli: n }
    }

    pub fn as_milli_log(self) -> (r: i32)
        ensures
            r == self.milli,
    {
        self.milli
    }

    pub fn saturating_add(self, other: Score) -> (r: Score)
        ensures
            r == plus(self, other),
    {
        let sum: i64 = self.milli as i64 + other.milli as i64;
        if sum > i32::MAX as i64 {
            Score { milli: i32::MAX }
        } else if sum < i32::MIN as i64 {
            Score { milli: i32::MIN }
        } else {
            Score { milli: sum as i32 }
        }
    }
}

/// How a spelling deviates from the canonical one.
#[derive(Clone, Copy, Debug, PartialEq, Eq, PartialOrd, Ord, Hash, Structural)]
pub struct SpellingAttr {
    pub fuzzy: bool,
    pub abbrev: bool,
    pub completion: bool,
}

pub open spec fn normal() -> SpellingAttr {
    SpellingAttr { fuzzy: false, abbrev: false, completion: false }
}

pub open spec fn attr_union(a: SpellingAttr, b: SpellingAttr) -> SpellingAttr {
    SpellingAttr {
        fuzzy: a.fuzzy || b.fuzzy,
        abbrev: a.abbrev || b.abbrev,
        completion: a.completion || b.completion,
    }
}

pub open spec fn attr_meet(a: SpellingAttr, b: SpellingAttr) -> SpellingAttr {
    SpellingAttr {
        fuzzy: a.fuzzy && b.fuzzy,
        abbrev: a.abbrev && b.abbrev,
        completion: a.completion && b.completion,
    }
}

pub open spec fn attr_bits(a: SpellingAttr) -> int {
    (if a.fuzzy {
        1int
    } else {
        0
    }) + (if a.abbrev {
        2int
    } else {
        0
    }) + (if a.completion {
        4int
    } else {
        0
    })
}

impl SpellingAttr {
    /// The canonical spelling.
    pub fn normal() -> (r: SpellingAttr)
        ensures
            r == normal(),
    {
        SpellingAttr { fuzzy: false, abbrev: false, completion: false }
    }

    pub fn fuzzy() -> (r: SpellingAttr)
        ensures
            r == (SpellingAttr { fuzzy: true, abbrev: false, completion: false }),
    {
        SpellingAttr { fuzzy: true, abbrev: false, completion: false }
    }

    pub fn abbrev() -> (r: SpellingAttr)
        ensures
            r == (SpellingAttr { fuzzy: false, abbrev: true, completion: false }),
    {
        SpellingAttr { fuzzy: false, abbrev: true, completion: false }
    }

    pub fn completion() -> (r: SpellingAttr)
        ensures
            r == (SpellingAttr { fuzzy: false, abbrev: false, completion: true }),
    {
        SpellingAttr { fuzzy: false, abbrev: false, completion: true }
    }

    /// What either of two ways carries.
    pub fn union(self, other: SpellingAttr) -> (r: SpellingAttr)
        ensures
            r == attr_union(self, other),
    {
        SpellingAttr {
            fuzzy: self.fuzzy || other.fuzzy,
            abbrev: self.abbrev || other.abbrev,
            completion: self.completion || other.completion,
        }
    }

    /// What both of two ways carry.
    pub fn intersect(self, other: SpellingAttr) -> (r: SpellingAttr)
        ensures
            r == attr_meet(self, other),
    {
        SpellingAttr {
            fuzzy: self.fuzzy && other.fuzzy,
            abbrev: self.abbrev && other.abbrev,
            completion: self.completion && other.completion,
        }
    }

    /// Whether every mark of `other` is set.
    pub fn contains(self, other: SpellingAttr) -> (r: bool)
        ensures
            r == (attr_union(self, other) == self),
    {
        (self.fuzzy || !other.fuzzy) && (self.abbrev || !other.abbrev) && (self.completion
            || !other.completion)
    }

    /// Whether any mark is set.
    pub fn is_derived(self) -> (r: bool)
        ensures
            r == (self != normal()),
    {
        self.fuzzy || self.abbrev || self.completion
    }

    pub fn bits(self) -> (r: u8)
        ensures
            r == attr_bits(self),
    {
        let a: u8 = if self.fuzzy {
            1
        } else {
            0
        };
        let b: u8 = if self.abbrev {
            2
        } else {
            0
        };
        let c: u8 = if self.completion {
            4
        } else {
            0
        };
        a + b + c
    }
}

/// The number of a code unit in its alphabet.
#[derive(Clone, Copy, Debug, PartialEq, Eq, PartialOrd, Ord, Hash, Structural)]
pub struct CodeUnitId(pub u32);

/// The code units of a scheme, by number.
#[derive(Debug)]
pub struct CodeAlphabet {
    pub units: Vec<String>,
}

/// The first place of `t` in `units` at or after `from`.
pub open spec fn place_of(units: Seq<Seq<char>>, t: Seq<char>, from: int) -> Option<int>
    decreases units.len() - from,
{
    if from < 0 || from >= units.len() {
        None
    } else if units[from] == t {
        Some(from)
    } else {
        place_of(units, t, from + 1)
    }
}

/// [`place_of`] finds the text where it says, and misses none.
pub proof fn place_of_finds(units: Seq<Seq<char>>, t: Seq<char>, from: int)
    requires
        0 <= from,
    ensures
        match place_of(units, t, from) {
            Some(i) => from <= i < units.len() && units[i] == t && forall|j: int|
                from <= j < i ==> #[trigger] units[j] != t,
            None => forall|j: int| from <= j < units.len() ==> #[trigger] units[j] != t,
        },
    decreases units.len() - from,
{
    if from < units.len() && units[from] != t {
        place_of_finds(units, t, from + 1);
    }
}

impl View for CodeAlphabet {
    type V = Seq<Seq<char>>;

    open spec fn view(&self) -> Seq<Seq<char>> {
        texts(self.units@)
    }
}

/// Copies a list of strings.
pub(crate) fn copy_texts(v: &Vec<String>) -> (r: Vec<String>)
    ensures
        texts(r@) == texts(v@),
        r@.len() == v@.len(),
{
    let mut out: Vec<String> = Vec::new();
    let mut i: usize = 0;
    while i < v.len()
        invariant
            i <= v.len(),
            out@.len() == i,
            forall|j: int| 0 <= j < i ==> (#[trigger] out@[j])@ == v@[j]@,
        decreases v.len() - i,
    {
        out.push(v[i].clone());
        i += 1;
    }
    assert(texts(out@) =~= texts(v@));
    out
}

impl Clone for CodeAlphabet {
    fn clone(&self) -> (r: Self)
        ensures
            r@ == self@,
            r.units@.len() == self.units@.len(),
    {
        CodeAlphabet { units: copy_texts(&self.units) }
    }
}

impl CodeAlphabet {
    /// How many units fit the numbering.
    pub open spec fn wf(&self) -> bool {
        self.units@.len() <= u32::MAX
    }

    pub fn new(units: Vec<String>) -> (r: CodeAlphabet)
        ensures
            r@ == texts(units@),
            r.units@ == units@,
    {
        CodeAlphabet { units }
    }

    pub fn len(&self) -> (r: usize)
        ensures
            r == self@.len(),
    {
        self.units.len()
    }

    pub fn is_empty(&self) -> (r: bool)
        ensures
            r == (self@.len() == 0),
    {
        self.units.len() == 0
    }

    /// The text of a unit.
    pub fn text(&self, id: CodeUnitId) -> (r: Option<&str>)
        ensures
            match r {
                Some(t) => id.0 < self@.len() && t@ == self@[id.0 as int],
                None => id.0 >= self@.len(),
            },
    {
        let i: usize = id.0 as usize;
        if i < self.units.len() {
            Some(self.units[i].as_str())
        } else {
            None
        }
    }

    /// The number of the unit written `t`, the first where several are.
    pub fn id_of(&self, t: &str) -> (r: Option<CodeUnitId>)
        requires
            self.wf(),
        ensures
            match place_of(self@, t@, 0) {
                Some(i) => r == Some(CodeUnitId(i as u32)) && i < u32::MAX,
                None => r is None,
            },
    {
        let mut i: usize = 0;
        while i < self.units.len()
            invariant
                i <= self.units.len(),
                self.wf(),
                place_of(self@, t@, 0) == place_of(self@, t@, i as int),
            decreases self.units.len() - i,
        {
            if same_text(self.units[i].as_str(), t) {
                return Some(CodeUnitId(i as u32));
            }
            i += 1;
        }
        None
    }
}

/// Scores are summed up, and stop at the ends of their range.
pub proof fn scores_are_summed(a: Score, b: Score)
    ensures
        i32::MIN <= a.milli + b.milli <= i32::MAX ==> plus(a, b).milli == a.milli + b.milli,
        a.milli + b.milli > i32::MAX ==> plus(a, b).milli == i32::MAX,
        a.milli + b.milli < i32::MIN ==> plus(a, b).milli == i32::MIN,
        plus(a, b) == plus(b, a),
        plus(a, Score { milli: 0 }) == a,
{
}

/// Each mark has a bit of its own, so that the bits tell the marks.
pub proof fn marks_have_their_own_bits(a: SpellingAttr, b: SpellingAttr)
    ensures
        attr_bits(a) == attr_bits(b) ==> a == b,
        attr_bits(a) == 0 <==> a == normal(),
        a.fuzzy == (attr_bits(a) % 2 == 1),
        a.abbrev == ((attr_bits(a) / 2) % 2 == 1),
        a.completion == ((attr_bits(a) / 4) % 2 == 1),
{
}

/// What either carries, both joined carry; what both carry, their meeting does.
pub proof fn marks_join_and_meet(a: SpellingAttr, b: SpellingAttr)
    ensures
        attr_union(a, b) == attr_union(b, a),
        attr_union(a, normal()) == a,
        attr_meet(a, attr_union(a, b)) == a,
        attr_union(a, attr_meet(a, b)) == a,
        attr_meet(a, normal()) == normal(),
{
}

} // verus!
