//! The spelling layer: from what is typed to codes, with a cost and marks.
//!
//! The engine knows nothing of abbreviations or fuzzy sounds. It knows that a
//! piece of spelling can take an edge to a code unit, at a cost and with
//! marks; everything particular to a scheme is data.
//!
//! Rules are applied one after the other, each once, starting from the
//! canonical spelling of every unit. Their order is part of their meaning.

use vstd::prelude::*;
use crate::code::{attr_bits, attr_union, milli, normal, plus};
use crate::code::{CodeAlphabet, CodeUnitId, Score, SpellingAttr};
use crate::order::{
    dedup_by, dedup_covers, dedup_from, dedup_in_order, dedup_vec, in_order, sort_by, sort_vec,
    sorted_from, sorting_orders, views, weak_order,
};
use crate::regex::{replaced, Refusal, Regex, RegexError};
use crate::regex::matching::attempt;
use crate::regex::syntax::{parse, refusal_text, Node};
use crate::text::{
    decimal, decimal_text, push_char, same_text, split_on, split_text, text_before, text_less,
    texts, to_chars, trim_text, trimmed,
};

verus! {

/// One spelling operation.
#[derive(Clone, Debug)]
pub enum Rule {
    /// Replaces characters of the left alphabet by those of the right one. The
    /// former spelling is no longer valid.
    Xlit { from: Vec<char>, to: Vec<char> },
    /// Rewrites every match. The former spelling is no longer valid.
    Xform { pattern: Regex, repl: String },
    /// Removes spellings that the pattern matches as a whole.
    Erase { pattern: Regex },
    /// Replaces characters by their equivalents and keeps the former spelling
    /// beside the new, fuzzy one.
    Equivalence { pairs: Vec<(char, char)>, cost: Score },
    /// Rewrites every match and keeps the former spelling beside the new one.
    Derive { pattern: Regex, repl: String, cost: Score, attr: SpellingAttr },
}

/// Why a rule was refused.
#[derive(Clone, Debug, PartialEq, Eq)]
pub enum RuleError {
    /// The rule is empty.
    Empty,
    /// There is no such operation.
    UnknownOp(String),
    /// The operation got too few arguments.
    WrongArity { op: String, expected: usize, got: usize },
    /// The two alphabets of `xlit` differ in length.
    XlitLengthMismatch { left: usize, right: usize },
    /// The pattern does not compile.
    BadRegex { op: String, error: RegexError },
}

/// The mathematical reading of [`RuleError`].
pub enum RuleRefusal {
    Empty,
    UnknownOp(Seq<char>),
    WrongArity { op: Seq<char>, expected: int, got: int },
    XlitLengthMismatch { left: int, right: int },
    BadRegex { op: Seq<char>, error: Refusal },
}

impl View for RuleError {
    type V = RuleRefusal;

    open spec fn view(&self) -> RuleRefusal {
        match self {
            RuleError::Empty => RuleRefusal::Empty,
            RuleError::UnknownOp(op) => RuleRefusal::UnknownOp(op@),
            RuleError::WrongArity { op, expected, got } => RuleRefusal::WrongArity {
                op: op@,
                expected: *expected as int,
                got: *got as int,
            },
            RuleError::XlitLengthMismatch { left, right } => RuleRefusal::XlitLengthMismatch {
                left: *left as int,
                right: *right as int,
            },
            RuleError::BadRegex { op, error } => RuleRefusal::BadRegex { op: op@, error: error@ },
        }
    }
}

/// The text of a refusal, as shown to a scheme author.
pub open spec fn rule_refusal_text(r: RuleRefusal) -> Seq<char> {
    match r {
        RuleRefusal::Empty => "拼写运算规则是空的"@,
        RuleRefusal::UnknownOp(op) => "不认识的拼写运算子 `"@ + op
            + "`。可用的是 xlit / xform / erase / derive / fuzz / abbrev"@,
        RuleRefusal::WrongArity { op, expected, got } => "运算子 `"@ + op + "` 需要 "@ + decimal(
            expected as nat,
        ) + " 个参数，实际给了 "@ + decimal(got as nat) + " 个。写法是 `"@ + op
            + "<分隔符>参数1<分隔符>参数2<分隔符>`，例如 `xform/^([nl])ue$/$1ve/`"@,
        RuleRefusal::XlitLengthMismatch { left, right } =>
            "`xlit` 两侧字母表长度必须相同（左 "@ + decimal(left as nat) + " 个、右 "@ + decimal(
            right as nat,
        ) + " 个字符）"@,
        RuleRefusal::BadRegex { op, error } => "运算子 `"@ + op + "` 的正则有问题："@
            + refusal_text(error),
    }
}

impl RuleError {
    /// The message for a scheme author.
    pub fn message(&self) -> (r: String)
        ensures
            r@ == rule_refusal_text(self@),
    {
        match self {
            RuleError::Empty => "拼写运算规则是空的".to_owned(),
            RuleError::UnknownOp(op) => "不认识的拼写运算子 `".to_owned().concat(
                op.as_str(),
            ).concat("`。可用的是 xlit / xform / erase / derive / fuzz / abbrev"),
            RuleError::WrongArity { op, expected, got } => "运算子 `".to_owned().concat(
                op.as_str(),
            ).concat("` 需要 ").concat(decimal_text(*expected as u64).as_str()).concat(
                " 个参数，实际给了 ",
            ).concat(decimal_text(*got as u64).as_str()).concat(" 个。写法是 `").concat(
                op.as_str(),
            ).concat("<分隔符>参数1<分隔符>参数2<分隔符>`，例如 `xform/^([nl])ue$/$1ve/`"),
            RuleError::XlitLengthMismatch { left, right } =>
                "`xlit` 两侧字母表长度必须相同（左 ".to_owned().concat(
                decimal_text(*left as u64).as_str(),
            ).concat(" 个、右 ").concat(decimal_text(*right as u64).as_str()).concat(" 个字符）"),
            RuleError::BadRegex { op, error } => "运算子 `".to_owned().concat(
                op.as_str(),
            ).concat("` 的正则有问题：").concat(error.message().as_str()),
        }
    }
}

/// The mathematical reading of a compiled pattern.
pub struct Pattern {
    pub root: Node,
    pub groups: int,
    pub budget: nat,
}

impl View for Regex {
    type V = Pattern;

    open spec fn view(&self) -> Pattern {
        Pattern { root: self.root, groups: self.groups as int, budget: self.step_budget as nat }
    }
}

impl Pattern {
    /// `text` with every match replaced.
    pub open spec fn rewrite(self, text: Seq<char>, repl: Seq<char>) -> Seq<char> {
        replaced(self.root, self.groups, self.budget, text, repl, 0)
    }

    /// Whether the whole of `text` matches.
    pub open spec fn covers(self, text: Seq<char>) -> bool {
        attempt(self.root, self.groups, self.budget, text, 0, true).0 is Hit
    }
}

/// A pattern with the default budget.
pub open spec fn pattern_of(root: Node, groups: int) -> Pattern {
    Pattern { root, groups, budget: crate::regex::DEFAULT_STEP_BUDGET as nat }
}

/// The mathematical reading of a [`Rule`].
pub enum Operation {
    Xlit { from: Seq<char>, to: Seq<char> },
    Xform { pattern: Pattern, repl: Seq<char> },
    Erase { pattern: Pattern },
    Equivalence { pairs: Seq<(char, char)>, cost: Score },
    Derive { pattern: Pattern, repl: Seq<char>, cost: Score, attr: SpellingAttr },
}

impl View for Rule {
    type V = Operation;

    open spec fn view(&self) -> Operation {
        match self {
            Rule::Xlit { from, to } => Operation::Xlit { from: from@, to: to@ },
            Rule::Xform { pattern, repl } => Operation::Xform { pattern: pattern@, repl: repl@ },
            Rule::Erase { pattern } => Operation::Erase { pattern: pattern@ },
            Rule::Equivalence { pairs, cost } => Operation::Equivalence {
                pairs: pairs@,
                cost: *cost,
            },
            Rule::Derive { pattern, repl, cost, attr } => Operation::Derive {
                pattern: pattern@,
                repl: repl@,
                cost: *cost,
                attr: *attr,
            },
        }
    }
}

/// An ASCII character that is neither a letter nor a digit.
pub open spec fn separates(c: char) -> bool {
    (c as u32) < 128 && !(('0' <= c && c <= '9') || ('a' <= c && c <= 'z') || ('A' <= c && c
        <= 'Z'))
}

/// The separator of a rule: its first ASCII character that is neither a letter
/// nor a digit, and `/` where there is none.
pub open spec fn separator(s: Seq<char>) -> char
    decreases s.len(),
{
    if s.len() == 0 {
        '/'
    } else if separates(s[0]) {
        s[0]
    } else {
        separator(s.drop_first())
    }
}

/// The marks that a deriving operation gives to what it derives.
pub open spec fn derived_marks(op: Seq<char>) -> SpellingAttr {
    if op == "fuzz"@ {
        SpellingAttr { fuzzy: true, abbrev: false, completion: false }
    } else if op == "abbrev"@ {
        SpellingAttr { fuzzy: false, abbrev: true, completion: false }
    } else {
        normal()
    }
}

/// The operation `op` with its arguments.
pub open spec fn operation(op: Seq<char>, args: Seq<Seq<char>>) -> Result<Operation, RuleRefusal> {
    if op == "xlit"@ {
        if args.len() < 2 {
            Err(RuleRefusal::WrongArity { op, expected: 2, got: args.len() as int })
        } else if args[0].len() != args[1].len() {
            Err(
                RuleRefusal::XlitLengthMismatch {
                    left: args[0].len() as int,
                    right: args[1].len() as int,
                },
            )
        } else {
            Ok(Operation::Xlit { from: args[0], to: args[1] })
        }
    } else if op == "xform"@ || op == "derive"@ || op == "fuzz"@ || op == "abbrev"@ {
        if args.len() < 2 {
            Err(RuleRefusal::WrongArity { op, expected: 2, got: args.len() as int })
        } else {
            match parse(args[0]) {
                Err(error) => Err(RuleRefusal::BadRegex { op, error }),
                Ok((root, groups)) => {
                    let pattern = pattern_of(root, groups);
                    if op == "xform"@ {
                        Ok(Operation::Xform { pattern, repl: args[1] })
                    } else {
                        Ok(
                            Operation::Derive {
                                pattern,
                                repl: args[1],
                                cost: milli(0),
                                attr: derived_marks(op),
                            },
                        )
                    }
                },
            }
        }
    } else if op == "erase"@ {
        if args.len() == 0 {
            Err(RuleRefusal::WrongArity { op, expected: 1, got: 0 })
        } else {
            match parse(args[0]) {
                Err(error) => Err(RuleRefusal::BadRegex { op, error }),
                Ok((root, groups)) => Ok(Operation::Erase { pattern: pattern_of(root, groups) }),
            }
        }
    } else {
        Err(RuleRefusal::UnknownOp(op))
    }
}

/// The parts of a written rule: its operation and its arguments.
pub open spec fn rule_parts(spec_text: Seq<char>) -> Seq<Seq<char>> {
    let s = trimmed(spec_text);
    split_on(s, separator(s))
}

/// What a written rule means, or why it is refused.
pub open spec fn rule_of(spec_text: Seq<char>) -> Result<Operation, RuleRefusal> {
    if trimmed(spec_text).len() == 0 {
        Err(RuleRefusal::Empty)
    } else {
        let parts = rule_parts(spec_text);
        operation(trimmed(parts[0]), parts.drop_first())
    }
}

/// The pattern of a rule, as it was written.
pub open spec fn pattern_source(r: Rule) -> Option<Seq<char>> {
    match r {
        Rule::Xform { pattern, .. } => Some(pattern.source@),
        Rule::Erase { pattern } => Some(pattern.source@),
        Rule::Derive { pattern, .. } => Some(pattern.source@),
        _ => None,
    }
}

/// Whether a rule is what a text says: it means the same, and its pattern, where
/// it has one, stands there.
pub open spec fn read_from(r: Rule, spec_text: Seq<char>) -> bool {
    &&& rule_of(spec_text) == Ok::<Operation, RuleRefusal>(r@)
    &&& pattern_source(r) matches Some(p) ==> p == rule_parts(spec_text)[1]
}

/// The pattern that cuts a spelling of lower-case letters to its first `take`.
pub open spec fn abbrev_pattern(take: int) -> Seq<char> {
    "^([a-z]{"@ + decimal(take as nat) + "}).+$"@
}

/// What `r` says, compared with what it must say.
pub open spec fn says(r: Result<Rule, RuleError>, meant: Result<Operation, RuleRefusal>) -> bool {
    match meant {
        Ok(op) => r matches Ok(x) && x@ == op,
        Err(e) => r matches Err(x) && x@ == e,
    }
}

fn find_separator(s: &str) -> (r: char)
    ensures
        r == separator(s@),
{
    let cs = to_chars(s);
    let mut i: usize = 0;
    assert(cs@.skip(0) =~= cs@);
    while i < cs.len()
        invariant
            i <= cs.len(),
            cs@ == s@,
            separator(cs@) == separator(cs@.skip(i as int)),
        decreases cs.len() - i,
    {
        let c = cs[i];
        assert(cs@.skip(i as int)[0] == c);
        if (c as u32) < 128 && !(('0' <= c && c <= '9') || ('a' <= c && c <= 'z') || ('A' <= c && c
            <= 'Z')) {
            return c;
        }
        assert(cs@.skip(i as int).drop_first() =~= cs@.skip(i + 1));
        i += 1;
    }
    '/'
}

fn bad_regex(op: &str, error: RegexError) -> (r: RuleError)
    ensures
        r@ == (RuleRefusal::BadRegex { op: op@, error: error@ }),
{
    RuleError::BadRegex { op: op.to_owned(), error }
}

impl Rule {
    /// Reads a rule as scheme authors write it: an operation and its arguments,
    /// each followed by the separator.
    pub fn parse(spec_text: &str) -> (r: Result<Self, RuleError>)
        ensures
            says(r, rule_of(spec_text@)),
            r matches Ok(x) ==> read_from(x, spec_text@),
    {
        let s = trim_text(spec_text);
        if s.as_str().is_empty() {
            return Err(RuleError::Empty);
        }
        let sep = find_separator(s.as_str());
        let parts = split_text(s.as_str(), sep);
        let op_text = trim_text(parts[0].as_str());
        let op = op_text.as_str();
        let n: usize = parts.len() - 1;
        let ghost args = texts(parts@).drop_first();
        assert(rule_of(spec_text@) == operation(op@, args));
        if same_text(op, "xlit") {
            if n < 2 {
                return Err(RuleError::WrongArity { op: op.to_owned(), expected: 2, got: n });
            }
            let from = to_chars(parts[1].as_str());
            let to = to_chars(parts[2].as_str());
            if from.len() != to.len() {
                return Err(
                    RuleError::XlitLengthMismatch { left: from.len(), right: to.len() },
                );
            }
            return Ok(Rule::Xlit { from, to });
        }
        let rewrites = same_text(op, "xform");
        let fuzz = same_text(op, "fuzz");
        let abbrev = same_text(op, "abbrev");
        if rewrites || same_text(op, "derive") || fuzz || abbrev {
            if n < 2 {
                return Err(RuleError::WrongArity { op: op.to_owned(), expected: 2, got: n });
            }
            let pattern = match Regex::compile(parts[1].as_str()) {
                Ok(re) => re,
                Err(e) => return Err(bad_regex(op, e)),
            };
            let repl = parts[2].clone();
            if rewrites {
                return Ok(Rule::Xform { pattern, repl });
            }
            let attr = if fuzz {
                SpellingAttr::fuzzy()
            } else if abbrev {
                SpellingAttr::abbrev()
            } else {
                SpellingAttr::normal()
            };
            return Ok(Rule::Derive { pattern, repl, cost: Score::zero(), attr });
        }
        if same_text(op, "erase") {
            if n == 0 {
                return Err(RuleError::WrongArity { op: op.to_owned(), expected: 1, got: 0 });
            }
            return match Regex::compile(parts[1].as_str()) {
                Ok(pattern) => Ok(Rule::Erase { pattern }),
                Err(e) => Err(bad_regex(op, e)),
            };
        }
        Err(RuleError::UnknownOp(op.to_owned()))
    }

    /// The rule that lets the first `take` letters stand for a spelling.
    pub fn abbrev(take: usize, cost: Score) -> (r: Result<Self, RuleError>)
        ensures
            take == 0 ==> says(
                r,
                Err(RuleRefusal::WrongArity { op: "abbrev"@, expected: 1, got: 0 }),
            ),
            take > 0 ==> says(
                r,
                match parse(abbrev_pattern(take as int)) {
                    Err(error) => Err(RuleRefusal::BadRegex { op: "abbrev"@, error }),
                    Ok((root, groups)) => Ok(
                        Operation::Derive {
                            pattern: pattern_of(root, groups),
                            repl: "$1"@,
                            cost,
                            attr: SpellingAttr { fuzzy: false, abbrev: true, completion: false },
                        },
                    ),
                },
            ),
            r matches Ok(x) ==> pattern_source(x) == Some(abbrev_pattern(take as int)),
    {
        if take == 0 {
            return Err(RuleError::WrongArity { op: "abbrev".to_owned(), expected: 1, got: 0 });
        }
        let source = "^([a-z]{".to_owned().concat(decimal_text(take as u64).as_str()).concat(
            "}).+$",
        );
        match Regex::compile(source.as_str()) {
            Ok(pattern) => Ok(
                Rule::Derive { pattern, repl: "$1".to_owned(), cost, attr: SpellingAttr::abbrev() },
            ),
            Err(e) => Err(bad_regex("abbrev", e)),
        }
    }

    /// The rule that lets characters be typed as their equivalents.
    pub fn equivalence(pairs: &[(char, char)], cost: Score) -> (r: Self)
        ensures
            r@ == (Operation::Equivalence { pairs: pairs@, cost }),
    {
        let mut copy: Vec<(char, char)> = Vec::new();
        let mut i: usize = 0;
        while i < pairs.len()
            invariant
                i <= pairs.len(),
                copy@ == pairs@.take(i as int),
            decreases pairs.len() - i,
        {
            copy.push(pairs[i]);
            i += 1;
        }
        assert(pairs@.take(i as int) =~= pairs@);
        Rule::Equivalence { pairs: copy, cost }
    }
}

// ---------------------------------------------------------------------------
// Edges
// ---------------------------------------------------------------------------

/// A spelling of a code unit.
#[derive(Clone, Debug)]
pub struct UnitEdge {
    pub text: String,
    pub unit: CodeUnitId,
    pub attr: SpellingAttr,
    pub cost: Score,
}

/// The mathematical reading of a [`UnitEdge`].
pub struct Edge {
    pub text: Seq<char>,
    pub unit: CodeUnitId,
    pub attr: SpellingAttr,
    pub cost: Score,
}

impl View for UnitEdge {
    type V = Edge;

    open spec fn view(&self) -> Edge {
        Edge { text: self.text@, unit: self.unit, attr: self.attr, cost: self.cost }
    }
}

fn copy_edge(e: &UnitEdge) -> (r: UnitEdge)
    ensures
        r@ == e@,
{
    UnitEdge { text: e.text.clone(), unit: e.unit, attr: e.attr, cost: e.cost }
}

/// The first place of `c` in `s`.
pub open spec fn char_place(s: Seq<char>, c: char, from: int) -> Option<int>
    decreases s.len() - from,
{
    if from < 0 || from >= s.len() {
        None
    } else if s[from] == c {
        Some(from)
    } else {
        char_place(s, c, from + 1)
    }
}

/// `c` transliterated. A place that the right alphabet lacks changes nothing.
pub open spec fn xlit_char(from: Seq<char>, to: Seq<char>, c: char) -> char {
    match char_place(from, c, 0) {
        Some(i) => if i < to.len() {
            to[i]
        } else {
            c
        },
        None => c,
    }
}

/// The first equivalent of `c`.
pub open spec fn equivalent_char(pairs: Seq<(char, char)>, c: char, from: int) -> char
    decreases pairs.len() - from,
{
    if from < 0 || from >= pairs.len() {
        c
    } else if pairs[from].0 == c {
        pairs[from].1
    } else {
        equivalent_char(pairs, c, from + 1)
    }
}

/// The spelling derived from `e`, where it differs from `e`.
pub open spec fn derived(
    e: Edge,
    text: Seq<char>,
    cost: Score,
    attr: SpellingAttr,
) -> Seq<Edge> {
    if text == e.text {
        seq![]
    } else {
        seq![Edge { text, unit: e.unit, attr: attr_union(e.attr, attr), cost: plus(e.cost, cost) }]
    }
}

/// The spellings that stand in the place of `e` after an operation.
pub open spec fn projected(op: Operation, e: Edge) -> Seq<Edge> {
    match op {
        Operation::Xlit { from, to } => seq![
            Edge { text: e.text.map_values(|c: char| xlit_char(from, to, c)), ..e },
        ],
        Operation::Xform { pattern, repl } => seq![
            Edge { text: pattern.rewrite(e.text, repl), ..e },
        ],
        Operation::Erase { pattern } => if pattern.covers(e.text) {
            seq![]
        } else {
            seq![e]
        },
        Operation::Equivalence { pairs, cost } => seq![e] + derived(
            e,
            e.text.map_values(|c: char| equivalent_char(pairs, c, 0)),
            cost,
            SpellingAttr { fuzzy: true, abbrev: false, completion: false },
        ),
        Operation::Derive { pattern, repl, cost, attr } => seq![e] + derived(
            e,
            pattern.rewrite(e.text, repl),
            cost,
            attr,
        ),
    }
}

/// [`projected`], for a whole list.
pub open spec fn projected_all(op: Operation, es: Seq<Edge>) -> Seq<Edge>
    decreases es.len(),
{
    if es.len() == 0 {
        seq![]
    } else {
        projected_all(op, es.drop_last()) + projected(op, es.last())
    }
}

/// Every unit under its canonical spelling.
pub open spec fn canonical(units: Seq<Seq<char>>) -> Seq<Edge> {
    Seq::new(
        units.len(),
        |i: int|
            Edge {
                text: units[i],
                unit: CodeUnitId(i as u32),
                attr: normal(),
                cost: milli(0),
            },
    )
}

/// The spellings after the operations, in turn.
pub open spec fn after_rules(units: Seq<Seq<char>>, ops: Seq<Operation>) -> Seq<Edge>
    decreases ops.len(),
{
    if ops.len() == 0 {
        canonical(units)
    } else {
        projected_all(ops.last(), after_rules(units, ops.drop_last()))
    }
}

/// By spelling, then by unit, then by marks.
pub open spec fn edge_before(a: Edge, b: Edge) -> bool {
    text_less(a.text, b.text) || (a.text == b.text && (a.unit.0 < b.unit.0 || (a.unit.0
        == b.unit.0 && attr_bits(a.attr) < attr_bits(b.attr))))
}

/// The same way of spelling the same unit.
pub open spec fn same_edge(a: Edge, b: Edge) -> bool {
    a.text == b.text && a.unit == b.unit && a.attr == b.attr
}

/// The edges of a table.
pub open spec fn edges_of(units: Seq<Seq<char>>, ops: Seq<Operation>) -> Seq<Edge> {
    dedup_by(
        sort_by(after_rules(units, ops), |a: Edge, b: Edge| edge_before(a, b)),
        |a: Edge, b: Edge| same_edge(a, b),
    )
}

fn push_derived(
    out: &mut Vec<UnitEdge>,
    e: &UnitEdge,
    text: String,
    cost: Score,
    attr: SpellingAttr,
)
    ensures
        views(final(out)@) == views(old(out)@) + derived(e@, text@, cost, attr),
{
    let ghost before = out@;
    if !same_text(text.as_str(), e.text.as_str()) {
        out.push(
            UnitEdge {
                text,
                unit: e.unit,
                attr: e.attr.union(attr),
                cost: e.cost.saturating_add(cost),
            },
        );
    }
    assert(views(out@) =~= views(before) + derived(e@, text@, cost, attr));
}

fn transliterate(text: &str, from: &Vec<char>, to: &Vec<char>) -> (r: String)
    ensures
        r@ == text@.map_values(|c: char| xlit_char(from@, to@, c)),
{
    let cs = to_chars(text);
    let mut s = String::new();
    let mut i: usize = 0;
    while i < cs.len()
        invariant
            i <= cs.len(),
            cs@ == text@,
            s@ == text@.take(i as int).map_values(|c: char| xlit_char(from@, to@, c)),
        decreases cs.len() - i,
    {
        let c = cs[i];
        let mut j: usize = 0;
        while j < from.len() && from[j] != c
            invariant
                j <= from.len(),
                char_place(from@, c, 0) == char_place(from@, c, j as int),
            decreases from.len() - j,
        {
            j += 1;
        }
        push_char(
            &mut s,
            if j < from.len() && j < to.len() {
                to[j]
            } else {
                c
            },
        );
        i += 1;
        assert(s@ =~= text@.take(i as int).map_values(|c: char| xlit_char(from@, to@, c)));
    }
    assert(text@.take(i as int) =~= text@);
    s
}

fn equivalent(text: &str, pairs: &Vec<(char, char)>) -> (r: String)
    ensures
        r@ == text@.map_values(|c: char| equivalent_char(pairs@, c, 0)),
{
    let cs = to_chars(text);
    let mut s = String::new();
    let mut i: usize = 0;
    while i < cs.len()
        invariant
            i <= cs.len(),
            cs@ == text@,
            s@ == text@.take(i as int).map_values(|c: char| equivalent_char(pairs@, c, 0)),
        decreases cs.len() - i,
    {
        let c = cs[i];
        let mut j: usize = 0;
        while j < pairs.len() && pairs[j].0 != c
            invariant
                j <= pairs.len(),
                equivalent_char(pairs@, c, 0) == equivalent_char(pairs@, c, j as int),
            decreases pairs.len() - j,
        {
            j += 1;
        }
        push_char(
            &mut s,
            if j < pairs.len() {
                pairs[j].1
            } else {
                c
            },
        );
        i += 1;
        assert(s@ =~= text@.take(i as int).map_values(
            |c: char| equivalent_char(pairs@, c, 0),
        ));
    }
    assert(text@.take(i as int) =~= text@);
    s
}

/// Appends what an operation makes of one spelling.
fn apply_rule(rule: &Rule, e: &UnitEdge, out: &mut Vec<UnitEdge>)
    ensures
        views(final(out)@) == views(old(out)@) + projected(rule@, e@),
{
    let ghost before = views(out@);
    match rule {
        Rule::Xlit { from, to } => {
            let text = transliterate(e.text.as_str(), from, to);
            out.push(UnitEdge { text, unit: e.unit, attr: e.attr, cost: e.cost });
            assert(views(out@) =~= before + projected(rule@, e@));
        },
        Rule::Xform { pattern, repl } => {
            let text = pattern.replace_all(e.text.as_str(), repl.as_str());
            out.push(UnitEdge { text, unit: e.unit, attr: e.attr, cost: e.cost });
            assert(views(out@) =~= before + projected(rule@, e@));
        },
        Rule::Erase { pattern } => {
            if !pattern.is_full_match(e.text.as_str()) {
                out.push(copy_edge(e));
            }
            assert(views(out@) =~= before + projected(rule@, e@));
        },
        Rule::Equivalence { pairs, cost } => {
            out.push(copy_edge(e));
            assert(views(out@) =~= before + seq![e@]);
            let text = equivalent(e.text.as_str(), pairs);
            push_derived(out, e, text, *cost, SpellingAttr::fuzzy());
            assert(views(out@) =~= before + projected(rule@, e@));
        },
        Rule::Derive { pattern, repl, cost, attr } => {
            out.push(copy_edge(e));
            assert(views(out@) =~= before + seq![e@]);
            let text = pattern.replace_all(e.text.as_str(), repl.as_str());
            push_derived(out, e, text, *cost, *attr);
            assert(views(out@) =~= before + projected(rule@, e@));
        },
    }
}

/// What a rule makes of a text that is only shown.
pub open spec fn reworded(op: Operation, t: Seq<char>) -> Seq<char> {
    match op {
        Operation::Xlit { from, to } => t.map_values(|c: char| xlit_char(from, to, c)),
        Operation::Xform { pattern, repl } => pattern.rewrite(t, repl),
        _ => t,
    }
}

/// What rules make of a text that is only shown, one after the other.
pub open spec fn formatted(ops: Seq<Operation>, t: Seq<char>) -> Seq<char>
    decreases ops.len(),
{
    if ops.len() == 0 {
        t
    } else {
        reworded(ops.last(), formatted(ops.drop_last(), t))
    }
}

/// The first text, from `from` on, that is no rule.
pub open spec fn first_refusal(specs: Seq<Seq<char>>, from: int) -> Option<RuleRefusal>
    decreases specs.len() - from,
{
    if from < 0 || from >= specs.len() {
        None
    } else {
        match rule_of(specs[from]) {
            Err(e) => Some(e),
            Ok(_) => first_refusal(specs, from + 1),
        }
    }
}

/// Rules for texts that are only shown.
#[derive(Debug)]
pub struct SpellingFormat {
    pub rules: Vec<Rule>,
}

impl SpellingFormat {
    /// The rules, read mathematically.
    pub open spec fn operations(&self) -> Seq<Operation> {
        views(self.rules@)
    }

    /// Reads a list of rules; the first that cannot be read refuses it.
    pub fn parse_all(specs: &[String]) -> (r: Result<Self, RuleError>)
        ensures
            match first_refusal(views(specs@), 0) {
                Some(e) => r matches Err(x) && x@ == e,
                None => r matches Ok(f) && f.rules@.len() == specs@.len() && forall|i: int|
                    0 <= i < specs@.len() ==> rule_of(#[trigger] views(specs@)[i]) == Ok::<
                        Operation,
                        RuleRefusal,
                    >(f.operations()[i]),
            },
    {
        let ghost all = views(specs@);
        let mut rules: Vec<Rule> = Vec::new();
        let mut i: usize = 0;
        while i < specs.len()
            invariant
                i <= specs@.len(),
                all == views(specs@),
                rules@.len() == i,
                first_refusal(all, 0) == first_refusal(all, i as int),
                forall|j: int|
                    0 <= j < i ==> rule_of(#[trigger] all[j]) == Ok::<Operation, RuleRefusal>(
                        rules@[j]@,
                    ),
            decreases specs.len() - i,
        {
            assert(all[i as int] == specs@[i as int]@);
            match Rule::parse(specs[i].as_str()) {
                Ok(rule) => {
                    rules.push(rule);
                },
                Err(e) => {
                    return Err(e);
                },
            }
            i += 1;
        }
        Ok(SpellingFormat { rules })
    }

    #[must_use]
    pub fn is_empty(&self) -> (r: bool)
        ensures
            r == (self.operations().len() == 0),
    {
        self.rules.len() == 0
    }

    /// Puts a text into its shown form.
    #[must_use]
    pub fn apply(&self, text: &str) -> (r: String)
        ensures
            r@ == formatted(self.operations(), text@),
    {
        let ghost ops = self.operations();
        let mut out = text.to_owned();
        let mut i: usize = 0;
        assert(ops.take(0) =~= seq![]);
        while i < self.rules.len()
            invariant
                i <= self.rules@.len(),
                ops == self.operations(),
                out@ == formatted(ops.take(i as int), text@),
            decreases self.rules.len() - i,
        {
            proof {
                let t = ops.take(i + 1);
                assert(t.drop_last() =~= ops.take(i as int));
                assert(t.last() == self.rules@[i as int]@);
            }
            match &self.rules[i] {
                Rule::Xlit { from, to } => {
                    out = transliterate(out.as_str(), from, to);
                },
                Rule::Xform { pattern, repl } => {
                    out = pattern.replace_all(out.as_str(), repl.as_str());
                },
                _ => {},
            }
            i += 1;
        }
        assert(ops.take(i as int) =~= ops);
        out
    }
}


fn edge_comes_first(a: &UnitEdge, b: &UnitEdge) -> (r: bool)
    ensures
        r == edge_before(a@, b@),
{
    if text_before(a.text.as_str(), b.text.as_str()) {
        return true;
    }
    if !same_text(a.text.as_str(), b.text.as_str()) {
        return false;
    }
    a.unit.0 < b.unit.0 || (a.unit.0 == b.unit.0 && a.attr.bits() < b.attr.bits())
}

fn edge_repeats(a: &UnitEdge, b: &UnitEdge) -> (r: bool)
    ensures
        r == same_edge(a@, b@),
{
    same_text(a.text.as_str(), b.text.as_str()) && a.unit == b.unit && a.attr == b.attr
}

/// A scheme's spellings: alphabet, edges and limits on how much is explored.
#[derive(Debug)]
pub struct SpellingTable {
    pub alphabet: CodeAlphabet,
    pub edges: Vec<UnitEdge>,
    pub max_expansions: usize,
    pub max_units: usize,
}

/// One way to read a spelling as code units.
#[derive(Clone, Debug, PartialEq, Eq)]
pub struct Expansion {
    pub code: Vec<CodeUnitId>,
    pub cost: Score,
    pub attr: SpellingAttr,
}

/// The mathematical reading of an [`Expansion`].
pub struct Reading {
    pub code: Seq<CodeUnitId>,
    pub cost: Score,
    pub attr: SpellingAttr,
}

impl View for Expansion {
    type V = Reading;

    open spec fn view(&self) -> Reading {
        Reading { code: self.code@, cost: self.cost, attr: self.attr }
    }
}

/// A reading of the first `pos` characters of a spelling.
pub struct Path {
    pub pos: int,
    pub reading: Reading,
}

/// Whether `t` stands in `s` at `pos`.
pub open spec fn stands_at(s: Seq<char>, pos: int, t: Seq<char>) -> bool {
    0 <= pos && pos + t.len() <= s.len() && s.subrange(pos, pos + t.len()) == t
}

/// `p` after taking `e`.
pub open spec fn took(p: Path, e: Edge) -> Path {
    Path {
        pos: p.pos + e.text.len(),
        reading: Reading {
            code: p.reading.code.push(e.unit),
            cost: plus(p.reading.cost, e.cost),
            attr: attr_union(p.reading.attr, e.attr),
        },
    }
}

/// The paths that go on from `p` by one edge, in the order of the edges.
pub open spec fn branches(es: Seq<Edge>, s: Seq<char>, p: Path) -> Seq<Path>
    decreases es.len(),
{
    if es.len() == 0 {
        seq![]
    } else {
        let head = branches(es.drop_last(), s, p);
        let e = es.last();
        if e.text.len() > 0 && stands_at(s, p.pos, e.text) {
            head.push(took(p, e))
        } else {
            head
        }
    }
}

/// The complete readings found from the open paths, the newest path first,
/// until there are `most` of them or `budget` paths have been looked at.
pub open spec fn explored(
    es: Seq<Edge>,
    s: Seq<char>,
    open_paths: Seq<Path>,
    done: Seq<Reading>,
    budget: int,
    most: int,
    units: int,
) -> Seq<Reading>
    decreases budget,
{
    if open_paths.len() == 0 || budget <= 0 || done.len() >= most {
        done
    } else {
        let p = open_paths.last();
        let rest = open_paths.drop_last();
        if p.pos == s.len() {
            explored(es, s, rest, done.push(p.reading), budget - 1, most, units)
        } else if p.reading.code.len() >= units {
            explored(es, s, rest, done, budget - 1, most, units)
        } else {
            explored(es, s, rest + branches(es, s, p), done, budget - 1, most, units)
        }
    }
}

/// Codes in dictionary order.
pub open spec fn code_less(a: Seq<CodeUnitId>, b: Seq<CodeUnitId>) -> bool
    decreases a.len(),
{
    if b.len() == 0 {
        false
    } else if a.len() == 0 {
        true
    } else {
        a[0].0 < b[0].0 || (a[0].0 == b[0].0 && code_less(a.drop_first(), b.drop_first()))
    }
}

/// The best score first, then by code, then by marks.
pub open spec fn reading_before(a: Reading, b: Reading) -> bool {
    a.cost.milli > b.cost.milli || (a.cost.milli == b.cost.milli && (code_less(a.code, b.code) || (
    a.code == b.code && attr_bits(a.attr) < attr_bits(b.attr))))
}

/// The path on which nothing has been read yet.
pub open spec fn no_path() -> Path {
    Path { pos: 0, reading: Reading { code: seq![], cost: milli(0), attr: normal() } }
}

/// What a table makes of a spelling.
pub open spec fn readings(es: Seq<Edge>, s: Seq<char>, most: int, units: int) -> Seq<Reading> {
    if s.len() == 0 {
        seq![]
    } else {
        dedup_by(
            sort_by(
                explored(es, s, seq![no_path()], seq![], most * units * 8, most, units),
                |a: Reading, b: Reading| reading_before(a, b),
            ),
            |a: Reading, b: Reading| a == b,
        )
    }
}

/// Decides [`code_less`].
pub fn code_before(a: &Vec<CodeUnitId>, b: &Vec<CodeUnitId>) -> (r: bool)
    ensures
        r == code_less(a@, b@),
{
    let mut i: usize = 0;
    assert(a@.skip(0) =~= a@ && b@.skip(0) =~= b@);
    while i < a.len() && i < b.len()
        invariant
            i <= a.len(),
            i <= b.len(),
            code_less(a@, b@) == code_less(a@.skip(i as int), b@.skip(i as int)),
        decreases a.len() - i,
    {
        if a[i].0 != b[i].0 {
            return a[i].0 < b[i].0;
        }
        assert(a@.skip(i as int).drop_first() =~= a@.skip(i + 1));
        assert(b@.skip(i as int).drop_first() =~= b@.skip(i + 1));
        i += 1;
    }
    i < b.len()
}

/// Whether two codes are the same.
pub fn same_code(a: &Vec<CodeUnitId>, b: &Vec<CodeUnitId>) -> (r: bool)
    ensures
        r == (a@ == b@),
{
    if a.len() != b.len() {
        return false;
    }
    let mut i: usize = 0;
    while i < a.len()
        invariant
            i <= a.len(),
            a.len() == b.len(),
            forall|j: int| 0 <= j < i ==> a@[j] == b@[j],
        decreases a.len() - i,
    {
        if a[i].0 != b[i].0 {
            return false;
        }
        i += 1;
    }
    assert(a@ =~= b@);
    true
}

fn reading_comes_first(a: &Expansion, b: &Expansion) -> (r: bool)
    ensures
        r == reading_before(a@, b@),
{
    if a.cost.milli != b.cost.milli {
        return a.cost.milli > b.cost.milli;
    }
    code_before(&a.code, &b.code) || (same_code(&a.code, &b.code) && a.attr.bits()
        < b.attr.bits())
}

fn reading_repeats(a: &Expansion, b: &Expansion) -> (r: bool)
    ensures
        r == (a@ == b@),
{
    same_code(&a.code, &b.code) && a.cost == b.cost && a.attr == b.attr
}

/// An open path of the exploration.
struct OpenPath {
    pos: usize,
    code: Vec<CodeUnitId>,
    cost: Score,
    attr: SpellingAttr,
}

impl View for OpenPath {
    type V = Path;

    closed spec fn view(&self) -> Path {
        Path {
            pos: self.pos as int,
            reading: Reading { code: self.code@, cost: self.cost, attr: self.attr },
        }
    }
}

/// `old` with as much of `new` as a buffer of `cap` places takes.
pub open spec fn poured<T>(old_items: Seq<T>, new: Seq<T>, cap: int) -> Seq<T> {
    if old_items.len() >= cap {
        old_items
    } else if old_items.len() + new.len() <= cap {
        old_items + new
    } else {
        old_items + new.take(cap - old_items.len())
    }
}

fn stands(cs: &Vec<char>, pos: usize, t: &str) -> (r: Option<usize>)
    requires
        pos <= cs.len(),
    ensures
        match r {
            Some(end) => stands_at(cs@, pos as int, t@) && end == pos + t@.len(),
            None => !stands_at(cs@, pos as int, t@),
        },
{
    let ts = to_chars(t);
    if ts.len() > cs.len() - pos {
        return None;
    }
    let mut i: usize = 0;
    while i < ts.len()
        invariant
            i <= ts.len(),
            pos <= cs.len(),
            ts.len() <= cs.len() - pos,
            ts@ == t@,
            forall|j: int| 0 <= j < i ==> cs@[pos + j] == ts@[j],
        decreases ts.len() - i,
    {
        if cs[pos + i] != ts[i] {
            assert(cs@.subrange(pos as int, pos + t@.len())[i as int] != t@[i as int]);
            return None;
        }
        i += 1;
    }
    assert(cs@.subrange(pos as int, pos + t@.len()) =~= t@);
    Some(pos + ts.len())
}

fn copy_code(code: &Vec<CodeUnitId>) -> (r: Vec<CodeUnitId>)
    ensures
        r@ == code@,
{
    let mut out: Vec<CodeUnitId> = Vec::new();
    let mut i: usize = 0;
    while i < code.len()
        invariant
            i <= code.len(),
            out@ == code@.take(i as int),
        decreases code.len() - i,
    {
        out.push(code[i]);
        i += 1;
    }
    out
}

impl SpellingTable {
    pub open spec fn wf(&self) -> bool {
        &&& self.alphabet.wf()
        &&& self.max_expansions * self.max_units * 8 <= usize::MAX
    }

    /// The edges, read mathematically.
    pub open spec fn edge_seq(&self) -> Seq<Edge> {
        views(self.edges@)
    }

    /// What the table makes of a spelling.
    pub open spec fn reads(&self, s: Seq<char>) -> Seq<Reading> {
        readings(self.edge_seq(), s, self.max_expansions as int, self.max_units as int)
    }

    /// Builds the edges of an alphabet under a list of rules.
    pub fn compile(alphabet: CodeAlphabet, rules: &[Rule]) -> (r: Self)
        requires
            alphabet.wf(),
        ensures
            r.wf(),
            r.alphabet@ == alphabet@,
            r.edge_seq() == edges_of(alphabet@, views(rules@)),
            r.max_expansions == 64,
            r.max_units == 16,
    {
        let mut current: Vec<UnitEdge> = Vec::new();
        let mut i: usize = 0;
        assert(views(current@) =~= canonical(alphabet@).take(0));
        while i < alphabet.units.len()
            invariant
                i <= alphabet.units.len(),
                alphabet.wf(),
                views(current@) == canonical(alphabet@).take(i as int),
            decreases alphabet.units.len() - i,
        {
            let ghost was = current@;
            current.push(
                UnitEdge {
                    text: alphabet.units[i].clone(),
                    unit: CodeUnitId(i as u32),
                    attr: SpellingAttr::normal(),
                    cost: Score::zero(),
                },
            );
            assert(current@.last()@ == canonical(alphabet@)[i as int]);
            assert(views(current@) =~= views(was).push(current@.last()@));
            i += 1;
            assert(views(current@) =~= canonical(alphabet@).take(i as int));
        }
        assert(canonical(alphabet@).take(i as int) =~= canonical(alphabet@));
        let ghost ops = views(rules@);
        let mut n: usize = 0;
        assert(ops.take(0) =~= seq![]);
        while n < rules.len()
            invariant
                n <= rules.len(),
                ops == views(rules@),
                views(current@) == after_rules(alphabet@, ops.take(n as int)),
            decreases rules.len() - n,
        {
            let mut next: Vec<UnitEdge> = Vec::new();
            let mut j: usize = 0;
            let ghost es = views(current@);
            assert(es.take(0) =~= seq![]);
            assert(views(next@) =~= projected_all(ops[n as int], es.take(0)));
            while j < current.len()
                invariant
                    j <= current.len(),
                    n < rules.len(),
                    ops == views(rules@),
                    es == views(current@),
                    views(next@) == projected_all(ops[n as int], es.take(j as int)),
                decreases current.len() - j,
            {
                apply_rule(&rules[n], &current[j], &mut next);
                proof {
                    let t = es.take(j + 1);
                    assert(t.drop_last() =~= es.take(j as int));
                    assert(t.last() == current@[j as int]@);
                }
                j += 1;
            }
            proof {
                assert(es.take(j as int) =~= es);
                let t = ops.take(n + 1);
                assert(t.drop_last() =~= ops.take(n as int));
                assert(t.last() == ops[n as int]);
            }
            current = next;
            n += 1;
        }
        assert(ops.take(n as int) =~= ops);
        let sorted = sort_vec(
            current,
            edge_comes_first,
            Ghost(|a: Edge, b: Edge| edge_before(a, b)),
        );
        let edges = dedup_vec(
            sorted,
            edge_repeats,
            Ghost(|a: Edge, b: Edge| same_edge(a, b)),
        );
        SpellingTable { alphabet, edges, max_expansions: 64, max_units: 16 }
    }

    /// The same table with other limits, each of at least one.
    #[must_use]
    pub fn with_limits(self, max_expansions: usize, max_units: usize) -> (r: Self)
        requires
            self.wf(),
            max_expansions * max_units * 8 <= usize::MAX,
            max_expansions * 8 <= usize::MAX,
            max_units * 8 <= usize::MAX,
        ensures
            r.wf(),
            r.alphabet == self.alphabet,
            r.edges == self.edges,
            r.max_expansions == (if max_expansions == 0 {
                1
            } else {
                max_expansions
            }),
            r.max_units == (if max_units == 0 {
                1
            } else {
                max_units
            }),
    {
        let mut r = self;
        r.max_expansions = if max_expansions == 0 {
            1
        } else {
            max_expansions
        };
        r.max_units = if max_units == 0 {
            1
        } else {
            max_units
        };
        assert(1 * r.max_units == r.max_units && r.max_expansions * 1 == r.max_expansions)
            by (nonlinear_arith);
        r
    }

    /// Whether a spelling can be read at all.
    #[must_use]
    pub fn looks_up(&self, spelling: &str) -> (r: bool)
        requires
            self.wf(),
        ensures
            r == (self.reads(spelling@).len() > 0),
    {
        let mut buf: Vec<Expansion> = Vec::new();
        self.expand_into(spelling, &mut buf, 8);
        buf.len() > 0
    }

    pub fn alphabet(&self) -> (r: &CodeAlphabet)
        ensures
            *r == self.alphabet,
    {
        &self.alphabet
    }

    /// How many edges the table has.
    #[must_use]
    pub fn edge_count(&self) -> (r: usize)
        ensures
            r == self.edge_seq().len(),
    {
        self.edges.len()
    }

    /// Appends the readings of a spelling to a buffer of `cap` places, the best
    /// first.
    pub fn expand_into(&self, spelling: &str, out: &mut Vec<Expansion>, cap: usize)
        requires
            self.wf(),
        ensures
            views(final(out)@) == poured(views(old(out)@), self.reads(spelling@), cap as int),
    {
        let ghost before = views(out@);
        let cs = to_chars(spelling);
        if cs.len() == 0 {
            assert(poured(before, seq![], cap as int) =~= before);
            return ;
        }
        let found = self.explore(&cs);
        let sorted = sort_vec(
            found,
            reading_comes_first,
            Ghost(|a: Reading, b: Reading| reading_before(a, b)),
        );
        let mut rest = dedup_vec(
            sorted,
            reading_repeats,
            Ghost(|a: Reading, b: Reading| a == b),
        );
        let ghost all = views(rest@);
        assert(all == self.reads(spelling@));
        let ghost mut n: int = 0;
        assert(poured(before, all.take(0), cap as int) =~= before);
        assert(all.skip(0) =~= all);
        while rest.len() > 0
            invariant
                0 <= n <= all.len(),
                views(rest@) == all.skip(n),
                views(out@) == poured(before, all.take(n), cap as int),
            decreases rest.len(),
        {
            let ghost was = rest@;
            let ghost held = out@;
            let e = rest.remove(0);
            proof {
                assert(views(was).len() == was.len());
                assert(all.skip(n)[0] == all[n]);
                assert(e@ == views(was)[0]);
                assert(views(rest@) =~= views(was).drop_first());
                assert(all.skip(n).drop_first() =~= all.skip(n + 1));
            }
            if out.len() < cap {
                out.push(e);
                assert(views(out@) =~= views(held).push(e@));
            }
            proof {
                assert(held.len() == views(held).len());
                assert(views(out@) =~= poured(before, all.take(n + 1), cap as int));
                n = n + 1;
            }
        }
        assert(all.take(n) =~= all);
    }

    fn explore(&self, cs: &Vec<char>) -> (r: Vec<Expansion>)
        requires
            self.wf(),
        ensures
            views(r@) == explored(
                self.edge_seq(),
                cs@,
                seq![no_path()],
                seq![],
                self.max_expansions * self.max_units * 8,
                self.max_expansions as int,
                self.max_units as int,
            ),
    {
        let ghost es = self.edge_seq();
        let mut open: Vec<OpenPath> = Vec::new();
        open.push(
            OpenPath {
                pos: 0,
                code: Vec::new(),
                cost: Score::zero(),
                attr: SpellingAttr::normal(),
            },
        );
        let mut done: Vec<Expansion> = Vec::new();
        assert(self.max_expansions * self.max_units <= usize::MAX) by (nonlinear_arith)
            requires
                self.max_expansions * self.max_units * 8 <= usize::MAX,
                self.max_expansions >= 0,
                self.max_units >= 0,
        ;
        let mut budget: usize = self.max_expansions * self.max_units * 8;
        assert(views(open@) =~= seq![no_path()]);
        assert(views(done@) =~= seq![]);
        let ghost goal = explored(
            es,
            cs@,
            seq![no_path()],
            seq![],
            budget as int,
            self.max_expansions as int,
            self.max_units as int,
        );
        loop
            invariant_except_break
                goal == explored(
                    es,
                    cs@,
                    views(open@),
                    views(done@),
                    budget as int,
                    self.max_expansions as int,
                    self.max_units as int,
                ),
            invariant
                es == self.edge_seq(),
                forall|i: int| 0 <= i < open@.len() ==> (#[trigger] open@[i]).pos <= cs.len(),
            ensures
                goal == views(done@),
            decreases budget,
        {
            let ghost was = open@;
            let ghost had = done@;
            let p = match open.pop() {
                Some(p) => p,
                None => {
                    break;
                },
            };
            assert(views(was).last() == p@);
            assert(views(was).drop_last() =~= views(open@));
            assert(was.len() == views(was).len() && had.len() == views(had).len());
            assert(was[was.len() - 1].pos <= cs.len());
            if budget == 0 || done.len() >= self.max_expansions {
                break;
            }
            budget -= 1;
            if p.pos == cs.len() {
                done.push(Expansion { code: p.code, cost: p.cost, attr: p.attr });
                assert(views(done@) =~= views(had).push(p@.reading));
                continue;
            }
            if p.code.len() >= self.max_units {
                continue;
            }
            let ghost rest = views(open@);
            let mut i: usize = 0;
            assert(es.take(0) =~= seq![]);
            assert(views(open@) =~= rest + branches(es.take(0), cs@, p@));
            while i < self.edges.len()
                invariant
                    i <= self.edges.len(),
                    es == self.edge_seq(),
                    p.pos <= cs.len(),
                    views(open@) == rest + branches(es.take(i as int), cs@, p@),
                    forall|j: int| 0 <= j < open@.len() ==> (#[trigger] open@[j]).pos <= cs.len(),
                decreases self.edges.len() - i,
            {
                let edge = &self.edges[i];
                let ghost held = open@;
                proof {
                    let t = es.take(i + 1);
                    assert(t.drop_last() =~= es.take(i as int));
                    assert(t.last() == edge@);
                }
                if !edge.text.as_str().is_empty() {
                    if let Some(end) = stands(cs, p.pos, edge.text.as_str()) {
                        let mut code = copy_code(&p.code);
                        code.push(edge.unit);
                        let next = OpenPath {
                            pos: end,
                            code,
                            cost: p.cost.saturating_add(edge.cost),
                            attr: p.attr.union(edge.attr),
                        };
                        assert(next@ == took(p@, edge@));
                        open.push(next);
                        assert(views(open@) =~= views(held).push(took(p@, edge@)));
                        assert(views(open@) =~= rest + branches(es.take(i as int), cs@, p@).push(
                            took(p@, edge@),
                        ));
                    }
                }
                i += 1;
            }
            assert(es.take(i as int) =~= es);
        }
        done
    }
}

/// A reading of the first characters of an input.
#[derive(Clone, Debug, PartialEq, Eq)]
pub struct SpellingPath {
    pub code: Vec<CodeUnitId>,
    /// How many characters of the input the reading takes up.
    pub consumed: usize,
    pub cost: Score,
    pub attr: SpellingAttr,
}

impl View for SpellingPath {
    type V = Path;

    open spec fn view(&self) -> Path {
        Path {
            pos: self.consumed as int,
            reading: Reading { code: self.code@, cost: self.cost, attr: self.attr },
        }
    }
}

/// Readings of the first `pos` characters.
pub open spec fn paths_to(rs: Seq<Reading>, pos: int) -> Seq<Path> {
    Seq::new(rs.len(), |i: int| Path { pos, reading: rs[i] })
}

/// The readings of `s` cut to `n` characters, then to one fewer, and so on.
pub open spec fn prefix_paths(es: Seq<Edge>, s: Seq<char>, most: int, units: int, n: int) -> Seq<
    Path,
>
    decreases n,
{
    if n <= 0 {
        seq![]
    } else {
        paths_to(readings(es, s.take(n), most, units), n) + prefix_paths(es, s, most, units, n - 1)
    }
}

impl SpellingTable {
    /// The readings of a text and of its prefixes, the longest first, up to
    /// `cap` of them.
    pub open spec fn paths(&self, s: Seq<char>, cap: int) -> Seq<Path> {
        poured(
            seq![],
            prefix_paths(
                self.edge_seq(),
                s,
                self.max_expansions as int,
                self.max_units as int,
                s.len() as int,
            ),
            cap,
        )
    }

    /// Reads a text and its prefixes, the longest first, into a buffer of `cap`
    /// places.
    pub fn expand_paths(&self, cs: &Vec<char>, cap: usize) -> (r: Vec<SpellingPath>)
        requires
            self.wf(),
        ensures
            views(r@) == self.paths(cs@, cap as int),
            forall|i: int| 0 <= i < r@.len() ==> 0 < (#[trigger] r@[i]).consumed <= cs@.len(),
    {
        let mut out: Vec<SpellingPath> = Vec::new();
        let mut n: usize = cs.len();
        let ghost most = self.max_expansions as int;
        let ghost units = self.max_units as int;
        let ghost es = self.edge_seq();
        let ghost all = prefix_paths(es, cs@, most, units, n as int);
        let ghost mut given = Seq::<Path>::empty();
        assert(given + all =~= all);
        assert(views(out@) =~= poured(seq![], given, cap as int));
        while n > 0
            invariant
                self.wf(),
                n <= cs.len(),
                es == self.edge_seq(),
                most == self.max_expansions,
                units == self.max_units,
                all == given + prefix_paths(es, cs@, most, units, n as int),
                views(out@) == poured(seq![], given, cap as int),
                forall|i: int| 0 <= i < out@.len() ==> 0 < (#[trigger] out@[i]).consumed <= cs@.len(),
            decreases n,
        {
            let prefix = crate::text::part(cs, 0, n);
            let mut found: Vec<Expansion> = Vec::new();
            self.expand_into(prefix.as_str(), &mut found, usize::MAX);
            let ghost rs = readings(es, cs@.take(n as int), most, units);
            proof {
                assert(cs@.subrange(0, n as int) =~= cs@.take(n as int));
                assert(views(Seq::<Expansion>::empty()) =~= seq![]);
                if rs.len() <= usize::MAX {
                    assert(views(found@) =~= rs);
                } else {
                    assert(views(found@) =~= rs.take(usize::MAX as int));
                }
            }
            let mut i: usize = 0;
            let ghost step = paths_to(views(found@), n as int);
            assert(given + step.take(0) =~= given);
            while i < found.len()
                invariant
                    i <= found.len(),
                    0 < n <= cs.len(),
                    step == paths_to(views(found@), n as int),
                    views(out@) == poured(seq![], given + step.take(i as int), cap as int),
                    forall|j: int|
                        0 <= j < out@.len() ==> 0 < (#[trigger] out@[j]).consumed <= cs@.len(),
                decreases found.len() - i,
            {
                let ghost had = out@;
                if out.len() < cap {
                    let e = &found[i];
                    out.push(
                        SpellingPath {
                            code: copy_code(&e.code),
                            consumed: n,
                            cost: e.cost,
                            attr: e.attr,
                        },
                    );
                    assert(out@.last()@ == step[i as int]);
                    assert(views(out@) =~= views(had).push(step[i as int]));
                }
                assert(views(had).len() == had.len());
                assert(step.take(i + 1) =~= step.take(i as int).push(step[i as int]));
                i += 1;
                assert(views(out@) =~= poured(seq![], given + step.take(i as int), cap as int));
            }
            proof {
                assert(step.take(i as int) =~= step);
                let whole = paths_to(rs, n as int);
                if rs.len() > usize::MAX {
                    assert(views(out@) =~= poured(seq![], given + whole, cap as int));
                } else {
                    assert(step =~= whole);
                }
                assert(all =~= given + whole + prefix_paths(es, cs@, most, units, n - 1));
                given = given + whole;
            }
            n -= 1;
        }
        assert(given + seq![] =~= given);
        out
    }
}

// ---------------------------------------------------------------------------
// Laws
// ---------------------------------------------------------------------------

/// The path that takes the edges numbered by `picks`, in turn.
pub open spec fn walk(es: Seq<Edge>, picks: Seq<int>) -> Path
    decreases picks.len(),
{
    if picks.len() == 0 {
        no_path()
    } else {
        took(walk(es, picks.drop_last()), es[picks.last()])
    }
}

/// The spellings of the edges numbered by `picks`, joined.
pub open spec fn spelled(es: Seq<Edge>, picks: Seq<int>) -> Seq<char>
    decreases picks.len(),
{
    if picks.len() == 0 {
        seq![]
    } else {
        spelled(es, picks.drop_last()) + es[picks.last()].text
    }
}

/// `picks` numbers edges that lead to `p` and spell what `p` has read of `s`.
pub open spec fn leads_to(es: Seq<Edge>, s: Seq<char>, picks: Seq<int>, p: Path) -> bool {
    &&& forall|i: int| 0 <= i < picks.len() ==> 0 <= #[trigger] picks[i] < es.len()
    &&& walk(es, picks) == p
    &&& 0 <= p.pos <= s.len()
    &&& spelled(es, picks) == s.take(p.pos)
}

/// Some edges of the table lead to `p`.
pub open spec fn reachable(es: Seq<Edge>, s: Seq<char>, p: Path) -> bool {
    exists|picks: Seq<int>| leads_to(es, s, picks, p)
}

/// Some edges of the table, joined, spell the whole of `s` and give `r`.
pub open spec fn genuine(es: Seq<Edge>, s: Seq<char>, r: Reading) -> bool {
    reachable(es, s, Path { pos: s.len() as int, reading: r })
}

proof fn branches_reachable(es: Seq<Edge>, all: Seq<Edge>, s: Seq<char>, p: Path)
    requires
        reachable(all, s, p),
        exists|n: int| 0 <= n <= all.len() && #[trigger] all.take(n) == es,
    ensures
        forall|i: int|
            0 <= i < branches(es, s, p).len() ==> reachable(all, s, #[trigger] branches(es, s, p)[i]),
    decreases es.len(),
{
    if es.len() > 0 {
        let n = choose|n: int| 0 <= n <= all.len() && #[trigger] all.take(n) == es;
        assert(all.take(n - 1) =~= es.drop_last());
        branches_reachable(es.drop_last(), all, s, p);
        let e = es.last();
        let r = branches(es, s, p);
        assert forall|i: int| 0 <= i < r.len() implies reachable(all, s, #[trigger] r[i]) by {
            let head = branches(es.drop_last(), s, p);
            if i < head.len() {
                assert(r[i] == head[i]);
            } else {
                let picks = choose|picks: Seq<int>| leads_to(all, s, picks, p);
                let more = picks.push(n - 1);
                assert(more.drop_last() =~= picks);
                assert(all[n - 1] == e);
                assert(walk(all, more) == took(p, e));
                assert(s.take(p.pos) + s.subrange(p.pos, p.pos + e.text.len()) =~= s.take(
                    p.pos + e.text.len(),
                ));
                assert(spelled(all, more) =~= s.take(p.pos + e.text.len()));
                assert(leads_to(all, s, more, took(p, e)));
            }
        }
    }
}

proof fn explored_are_genuine(
    es: Seq<Edge>,
    s: Seq<char>,
    open_paths: Seq<Path>,
    done: Seq<Reading>,
    budget: int,
    most: int,
    units: int,
)
    requires
        forall|i: int| 0 <= i < open_paths.len() ==> reachable(es, s, #[trigger] open_paths[i]),
        forall|i: int| 0 <= i < done.len() ==> genuine(es, s, #[trigger] done[i]),
    ensures
        forall|i: int|
            0 <= i < explored(es, s, open_paths, done, budget, most, units).len() ==> genuine(
                es,
                s,
                #[trigger] explored(es, s, open_paths, done, budget, most, units)[i],
            ),
    decreases budget,
{
    let all = explored(es, s, open_paths, done, budget, most, units);
    if open_paths.len() == 0 || budget <= 0 || done.len() >= most {
    } else {
        let p = open_paths.last();
        let rest = open_paths.drop_last();
        assert(reachable(es, s, open_paths[open_paths.len() - 1]));
        if p.pos == s.len() {
            assert(p == Path { pos: s.len() as int, reading: p.reading });
            let more = done.push(p.reading);
            assert forall|i: int| 0 <= i < more.len() implies genuine(es, s, #[trigger] more[i]) by {
                if i < done.len() {
                    assert(more[i] == done[i]);
                }
            }
            assert forall|i: int| 0 <= i < rest.len() implies reachable(es, s, #[trigger] rest[i]) by {
                assert(rest[i] == open_paths[i]);
            }
            explored_are_genuine(es, s, rest, more, budget - 1, most, units);
            assert(all == explored(es, s, rest, more, budget - 1, most, units));
        } else if p.reading.code.len() >= units {
            assert forall|i: int| 0 <= i < rest.len() implies reachable(es, s, #[trigger] rest[i]) by {
                assert(rest[i] == open_paths[i]);
            }
            explored_are_genuine(es, s, rest, done, budget - 1, most, units);
            assert(all == explored(es, s, rest, done, budget - 1, most, units));
        } else {
            assert(es.take(es.len() as int) =~= es);
            branches_reachable(es, es, s, p);
            let next = rest + branches(es, s, p);
            assert forall|i: int| 0 <= i < next.len() implies reachable(es, s, #[trigger] next[i]) by {
                if i < rest.len() {
                    assert(next[i] == open_paths[i]);
                } else {
                    assert(next[i] == branches(es, s, p)[i - rest.len()]);
                }
            }
            explored_are_genuine(es, s, next, done, budget - 1, most, units);
            assert(all == explored(es, s, next, done, budget - 1, most, units));
        }
    }
}

/// Every reading of a spelling comes from edges of the table that, joined,
/// spell it: their units are its code, the sum of their costs its cost, and
/// what any of them carries its marks.
pub proof fn readings_spell_the_input(es: Seq<Edge>, s: Seq<char>, most: int, units: int)
    ensures
        forall|i: int|
            0 <= i < readings(es, s, most, units).len() ==> genuine(
                es,
                s,
                #[trigger] readings(es, s, most, units)[i],
            ),
{
    if s.len() > 0 {
        let start = seq![no_path()];
        let none = Seq::<Reading>::empty();
        let found = explored(es, s, start, none, most * units * 8, most, units);
        let order = |a: Reading, b: Reading| reading_before(a, b);
        let same = |a: Reading, b: Reading| a == b;
        assert(leads_to(es, s, Seq::<int>::empty(), no_path())) by {
            assert(s.take(0) =~= seq![]);
        }
        explored_are_genuine(es, s, start, none, most * units * 8, most, units);
        sorted_from(found, order);
        dedup_from(sort_by(found, order), same);
        let r = readings(es, s, most, units);
        assert forall|i: int| 0 <= i < r.len() implies genuine(es, s, #[trigger] r[i]) by {
            assert(r.contains(r[i]));
            assert(sort_by(found, order).contains(r[i]));
            assert(found.contains(r[i]));
        }
    }
}

proof fn code_less_facts(a: Seq<CodeUnitId>, b: Seq<CodeUnitId>)
    ensures
        code_less(a, b) ==> !code_less(b, a) && a != b,
        !code_less(a, b) && !code_less(b, a) ==> a == b,
    decreases a.len(),
{
    if a.len() > 0 && b.len() > 0 {
        code_less_facts(a.drop_first(), b.drop_first());
        if a[0].0 == b[0].0 {
            assert(a =~= seq![a[0]] + a.drop_first());
            assert(b =~= seq![b[0]] + b.drop_first());
        }
    } else if a.len() == 0 && b.len() == 0 {
        assert(a =~= b);
    }
}

proof fn code_less_transitive(a: Seq<CodeUnitId>, b: Seq<CodeUnitId>, c: Seq<CodeUnitId>)
    requires
        code_less(a, b),
        code_less(b, c),
    ensures
        code_less(a, c),
    decreases a.len(),
{
    if a.len() > 0 && a[0].0 == b[0].0 && b[0].0 == c[0].0 {
        code_less_transitive(a.drop_first(), b.drop_first(), c.drop_first());
    }
}

proof fn reading_order_is_weak()
    ensures
        weak_order(|a: Reading, b: Reading| reading_before(a, b)),
{
    let f = |a: Reading, b: Reading| reading_before(a, b);
    assert forall|a: Reading, b: Reading| #[trigger] f(a, b) implies !f(b, a) by {
        code_less_facts(a.code, b.code);
    }
    assert forall|a: Reading, b: Reading, c: Reading|
        !(#[trigger] f(a, b)) && !(#[trigger] f(b, c)) implies !f(a, c) by {
        code_less_facts(a.code, b.code);
        code_less_facts(b.code, c.code);
        code_less_facts(a.code, c.code);
        if code_less(c.code, b.code) && code_less(b.code, a.code) {
            code_less_transitive(c.code, b.code, a.code);
        }
    }
}

/// Readings come in order: none costs less than one before it, and what ties
/// on cost is ordered by code and then by marks.
pub proof fn readings_come_best_first(es: Seq<Edge>, s: Seq<char>, most: int, units: int)
    ensures
        in_order(readings(es, s, most, units), |a: Reading, b: Reading| reading_before(a, b)),
        forall|i: int, j: int|
            0 <= i < j < readings(es, s, most, units).len() ==> (#[trigger] readings(
                es,
                s,
                most,
                units,
            )[i]).cost.milli >= (#[trigger] readings(es, s, most, units)[j]).cost.milli,
{
    let order = |a: Reading, b: Reading| reading_before(a, b);
    let same = |a: Reading, b: Reading| a == b;
    let r = readings(es, s, most, units);
    if s.len() > 0 {
        let found = explored(es, s, seq![no_path()], seq![], most * units * 8, most, units);
        reading_order_is_weak();
        sorting_orders(found, order);
        dedup_in_order(sort_by(found, order), same, order);
    }
    assert(in_order(r, order));
    assert forall|i: int, j: int| 0 <= i < j < r.len() implies (#[trigger] r[i]).cost.milli >= (
    #[trigger] r[j]).cost.milli by {
        assert(!order(r[j], r[i]));
    }
}

/// Without rules a table holds the canonical spelling of every unit and
/// nothing else.
pub proof fn no_rules_means_canonical_only(units: Seq<Seq<char>>)
    requires
        units.len() <= u32::MAX,
    ensures
        forall|e: Edge| #[trigger]
            edges_of(units, seq![]).contains(e) ==> exists|i: int|
                0 <= i < units.len() && e == #[trigger] canonical(units)[i],
        forall|i: int|
            0 <= i < units.len() ==> exists|j: int|
                0 <= j < edges_of(units, seq![]).len() && same_edge(
                    #[trigger] canonical(units)[i],
                    #[trigger] edges_of(units, seq![])[j],
                ),
{
    let order = |a: Edge, b: Edge| edge_before(a, b);
    let same = |a: Edge, b: Edge| same_edge(a, b);
    let all = canonical(units);
    let sorted = sort_by(all, order);
    let es = edges_of(units, seq![]);
    sorted_from(all, order);
    dedup_from(sorted, same);
    dedup_covers(sorted, same);
    assert forall|e: Edge| #[trigger] es.contains(e) implies exists|i: int|
        0 <= i < units.len() && e == #[trigger] all[i] by {
        assert(sorted.contains(e));
        assert(all.contains(e));
        let i = choose|i: int| 0 <= i < all.len() && all[i] == e;
        assert(e == all[i]);
    }
    assert forall|i: int| 0 <= i < units.len() implies exists|j: int|
        0 <= j < es.len() && same_edge(#[trigger] all[i], #[trigger] es[j]) by {
        assert(all.contains(all[i]));
        assert(sorted.contains(all[i]));
        let j = choose|j: int|
            0 <= j < es.len() && (#[trigger] es[j] == all[i] || same(all[i], es[j]));
        assert(same_edge(all[i], es[j]));
    }
}

/// A deriving rule keeps every former spelling beside what it adds; a
/// rewriting one leaves exactly one spelling in its place; an erasing one
/// removes exactly the spellings that its pattern covers.
pub proof fn rules_keep_or_replace(op: Operation, e: Edge)
    ensures
        op is Derive || op is Equivalence ==> projected(op, e).len() >= 1 && projected(op, e)[0]
            == e && projected(op, e).len() <= 2,
        op is Xform || op is Xlit ==> projected(op, e).len() == 1 && projected(op, e)[0].unit
            == e.unit && projected(op, e)[0].cost == e.cost && projected(op, e)[0].attr == e.attr,
        op matches Operation::Erase { pattern } ==> (projected(op, e).len() == 0 <==> pattern.covers(
            e.text,
        )),
{
}

/// A text in which every character was transliterated.
pub open spec fn xlit_text(from: Seq<char>, to: Seq<char>, text: Seq<char>) -> Seq<char> {
    text.map_values(|c: char| xlit_char(from, to, c))
}

proof fn a_place_is_found(s: Seq<char>, c: char, from: int)
    requires
        0 <= from,
    ensures
        match char_place(s, c, from) {
            Some(i) => from <= i < s.len() && s[i] == c && forall|j: int|
                from <= j < i ==> s[j] != c,
            None => forall|j: int| from <= j < s.len() ==> s[j] != c,
        },
    decreases s.len() - from,
{
    if from < s.len() && s[from] != c {
        a_place_is_found(s, c, from + 1);
    }
}

/// The character at a place of the left alphabet becomes that at the same place
/// of the right one, whatever the place; a character that the left alphabet
/// lacks stays.
pub proof fn letters_change_place_by_place(from: Seq<char>, to: Seq<char>, i: int, c: char)
    requires
        from.len() == to.len(),
        from.no_duplicates(),
    ensures
        0 <= i < from.len() ==> xlit_char(from, to, from[i]) == to[i],
        !from.contains(c) ==> xlit_char(from, to, c) == c,
{
    a_place_is_found(from, from[i], 0);
    a_place_is_found(from, c, 0);
}

/// The left alphabet, transliterated as a text, is the right one.
pub proof fn one_alphabet_becomes_the_other(from: Seq<char>, to: Seq<char>)
    requires
        from.len() == to.len(),
        from.no_duplicates(),
    ensures
        xlit_text(from, to, from) == to,
{
    assert forall|i: int| 0 <= i < from.len() implies xlit_char(from, to, #[trigger] from[i])
        == to[i] by {
        letters_change_place_by_place(from, to, i, 'a');
    }
    assert(xlit_text(from, to, from) =~= to);
}

/// Transliterating back, with the alphabets exchanged, gives a text again that
/// holds no character of the right alphabet.
pub proof fn transliteration_can_be_undone(from: Seq<char>, to: Seq<char>, text: Seq<char>)
    requires
        from.len() == to.len(),
        from.no_duplicates(),
        to.no_duplicates(),
        forall|i: int| 0 <= i < text.len() ==> !to.contains(#[trigger] text[i]),
    ensures
        xlit_text(to, from, xlit_text(from, to, text)) == text,
        xlit_text(from, to, text).len() == text.len(),
{
    assert forall|i: int| 0 <= i < text.len() implies xlit_char(
        to,
        from,
        xlit_char(from, to, #[trigger] text[i]),
    ) == text[i] by {
        let c = text[i];
        a_place_is_found(from, c, 0);
        match char_place(from, c, 0) {
            Some(k) => {
                letters_change_place_by_place(to, from, k, c);
            },
            None => {
                letters_change_place_by_place(to, from, 0, c);
            },
        }
    }
    assert(xlit_text(to, from, xlit_text(from, to, text)) =~= text);
}

/// A transliterating rule leaves one spelling of the unit in the place of each:
/// with every character of the left alphabet replaced by its counterpart, and
/// every other as it was.
pub proof fn units_are_spelled_with_the_other_letters(
    from: Seq<char>,
    to: Seq<char>,
    e: Edge,
    i: int,
    k: int,
)
    requires
        from.len() == to.len(),
        from.no_duplicates(),
        0 <= i < e.text.len(),
    ensures
        ({
            let after = projected(Operation::Xlit { from, to }, e);
            &&& after.len() == 1
            &&& after[0] == (Edge { text: after[0].text, ..e })
            &&& after[0].text.len() == e.text.len()
            &&& (0 <= k < from.len() && e.text[i] == from[k] ==> after[0].text[i] == to[k])
            &&& (!from.contains(e.text[i]) ==> after[0].text[i] == e.text[i])
        }),
{
    letters_change_place_by_place(from, to, k, e.text[i]);
}

/// Letters that a rule makes equivalent can be typed for each other: beside the
/// former spelling stands one with every such letter replaced by its partner,
/// marked as fuzzy and at the cost of the rule.
pub proof fn equivalent_letters_are_exchanged(
    pairs: Seq<(char, char)>,
    cost: Score,
    e: Edge,
    i: int,
    k: int,
)
    requires
        0 <= i < e.text.len(),
        0 <= k < pairs.len(),
        e.text[i] == pairs[k].0,
        pairs[k].0 != pairs[k].1,
        forall|j: int| 0 <= j < k ==> (#[trigger] pairs[j]).0 != pairs[k].0,
    ensures
        ({
            let after = projected(Operation::Equivalence { pairs, cost }, e);
            &&& after.len() == 2
            &&& after[0] == e
            &&& after[1].text.len() == e.text.len()
            &&& after[1].text[i] == pairs[k].1
            &&& after[1].unit == e.unit
            &&& after[1].attr == (SpellingAttr { fuzzy: true, ..e.attr })
            &&& (i32::MIN <= e.cost.milli + cost.milli <= i32::MAX ==> after[1].cost.milli
                == e.cost.milli + cost.milli)
        }),
{
    the_first_partner_counts(pairs, e.text[i], 0, k);
    let text = e.text.map_values(|c: char| equivalent_char(pairs, c, 0));
    assert(text[i] != e.text[i]);
}

proof fn the_first_partner_counts(pairs: Seq<(char, char)>, c: char, from: int, k: int)
    requires
        0 <= from <= k < pairs.len(),
        pairs[k].0 == c,
        forall|j: int| from <= j < k ==> (#[trigger] pairs[j]).0 != c,
    ensures
        equivalent_char(pairs, c, from) == pairs[k].1,
    decreases k - from,
{
    if from < k {
        the_first_partner_counts(pairs, c, from + 1, k);
    }
}

/// A letter without a partner stays as it is.
pub proof fn other_letters_stay(pairs: Seq<(char, char)>, c: char, from: int)
    requires
        0 <= from,
        forall|j: int| from <= j < pairs.len() ==> (#[trigger] pairs[j]).0 != c,
    ensures
        equivalent_char(pairs, c, from) == c,
    decreases pairs.len() - from,
{
    if from < pairs.len() {
        other_letters_stay(pairs, c, from + 1);
    }
}

/// What a rule derives is marked as the rule says, on top of the marks that were
/// there, and costs what the rule costs, on top of the former cost.
pub proof fn derived_spellings_are_marked(
    pattern: Pattern,
    repl: Seq<char>,
    cost: Score,
    attr: SpellingAttr,
    e: Edge,
)
    ensures
        ({
            let after = projected(Operation::Derive { pattern, repl, cost, attr }, e);
            &&& after[0] == e
            &&& (pattern.rewrite(e.text, repl) == e.text ==> after.len() == 1)
            &&& (pattern.rewrite(e.text, repl) != e.text ==> {
                &&& after.len() == 2
                &&& after[1].text == pattern.rewrite(e.text, repl)
                &&& after[1].unit == e.unit
                &&& after[1].attr.fuzzy == (e.attr.fuzzy || attr.fuzzy)
                &&& after[1].attr.abbrev == (e.attr.abbrev || attr.abbrev)
                &&& after[1].attr.completion == (e.attr.completion || attr.completion)
                &&& (i32::MIN <= e.cost.milli + cost.milli <= i32::MAX ==> after[1].cost.milli
                    == e.cost.milli + cost.milli)
            })
        }),
{
}

/// A rule is applied to every spelling, and to none twice: what stands after it
/// is what each spelling became, in their order.
pub proof fn rules_reach_every_spelling(op: Operation, a: Seq<Edge>, b: Seq<Edge>, e: Edge)
    ensures
        projected_all(op, a + b) == projected_all(op, a) + projected_all(op, b),
        projected_all(op, seq![e]) == projected(op, e),
    decreases b.len(),
{
    reveal_with_fuel(projected_all, 2);
    assert(seq![e].drop_last() =~= Seq::<Edge>::empty());
    assert(projected_all(op, seq![e]) =~= projected(op, e));
    if b.len() == 0 {
        assert(a + b =~= a);
        assert(projected_all(op, a + b) =~= projected_all(op, a) + projected_all(op, b));
    } else {
        rules_reach_every_spelling(op, a, b.drop_last(), e);
        assert((a + b).drop_last() =~= a + b.drop_last());
        assert(projected_all(op, a + b) =~= projected_all(op, a) + projected_all(op, b));
    }
}

/// Rules are applied one after the other, the first first: each to what those
/// before it have left.
pub proof fn rules_are_applied_in_turn(units: Seq<Seq<char>>, ops: Seq<Operation>, op: Operation)
    ensures
        after_rules(units, ops.push(op)) == projected_all(op, after_rules(units, ops)),
        after_rules(units, seq![]).len() == units.len(),
        forall|i: int|
            0 <= i < units.len() <= u32::MAX ==> (#[trigger] after_rules(units, seq![])[i]) == (
            Edge {
                text: units[i],
                unit: CodeUnitId(i as u32),
                attr: SpellingAttr { fuzzy: false, abbrev: false, completion: false },
                cost: Score { milli: 0 },
            }),
{
    assert(ops.push(op).drop_last() =~= ops);
}

/// A table holds every spelling that the rules leave, and no other.
pub proof fn tables_hold_what_the_rules_leave(units: Seq<Seq<char>>, ops: Seq<Operation>, e: Edge)
    ensures
        edges_of(units, ops).contains(e) ==> after_rules(units, ops).contains(e),
        after_rules(units, ops).contains(e) ==> exists|j: int|
            {
                &&& 0 <= j < edges_of(units, ops).len()
                &&& (#[trigger] edges_of(units, ops)[j]).text == e.text
                &&& edges_of(units, ops)[j].unit == e.unit
                &&& edges_of(units, ops)[j].attr == e.attr
            },
{
    let order = |a: Edge, b: Edge| edge_before(a, b);
    let same = |a: Edge, b: Edge| same_edge(a, b);
    let all = after_rules(units, ops);
    let sorted = sort_by(all, order);
    let es = edges_of(units, ops);
    sorted_from(all, order);
    dedup_from(sorted, same);
    dedup_covers(sorted, same);
    if es.contains(e) {
        assert(sorted.contains(e));
    }
    if all.contains(e) {
        assert(sorted.contains(e));
        let i = choose|i: int| 0 <= i < sorted.len() && sorted[i] == e;
        let j = choose|j: int|
            0 <= j < es.len() && (#[trigger] es[j] == sorted[i] || same(sorted[i], es[j]));
        assert(es[j].text == e.text);
    }
}

/// Rules for what is shown work one after the other, and only those that rewrite
/// change what is shown.
pub proof fn shown_texts_are_rewritten_in_turn(
    ops: Seq<Operation>,
    op: Operation,
    t: Seq<char>,
    from: Seq<char>,
    to: Seq<char>,
)
    requires
        op is Derive || op is Equivalence || op is Erase,
    ensures
        formatted(seq![], t) == t,
        formatted(ops.push(op), t) == formatted(ops, t),
        formatted(ops.push(Operation::Xlit { from, to }), t) == xlit_text(
            from,
            to,
            formatted(ops, t),
        ),
{
    assert(ops.push(op).drop_last() =~= ops);
    assert(ops.push(Operation::Xlit { from, to }).drop_last() =~= ops);
}

/// From a path a reading goes on with every spelling that stands there, and with
/// no other: by its unit, its cost and its marks.
pub proof fn readings_go_on_with_what_stands_there(es: Seq<Edge>, s: Seq<char>, p: Path, q: Path)
    ensures
        branches(es, s, p).contains(q) <==> exists|i: int|
            {
                &&& 0 <= i < es.len()
                &&& (#[trigger] es[i]).text.len() > 0
                &&& stands_at(s, p.pos, es[i].text)
                &&& q.pos == p.pos + es[i].text.len()
                &&& q.reading.code == p.reading.code.push(es[i].unit)
                &&& q.reading.cost == plus(p.reading.cost, es[i].cost)
                &&& q.reading.attr == attr_union(p.reading.attr, es[i].attr)
            },
    decreases es.len(),
{
    if es.len() > 0 {
        let t = es.drop_last();
        let e = es.last();
        readings_go_on_with_what_stands_there(t, s, p, q);
        let head = branches(t, s, p);
        let all = branches(es, s, p);
        if head.contains(q) {
            let k = choose|k: int| 0 <= k < head.len() && head[k] == q;
            assert(all[k] == q);
            let i = choose|i: int|
                {
                    &&& 0 <= i < t.len()
                    &&& (#[trigger] t[i]).text.len() > 0
                    &&& stands_at(s, p.pos, t[i].text)
                    &&& q.pos == p.pos + t[i].text.len()
                    &&& q.reading.code == p.reading.code.push(t[i].unit)
                    &&& q.reading.cost == plus(p.reading.cost, t[i].cost)
                    &&& q.reading.attr == attr_union(p.reading.attr, t[i].attr)
                };
            assert(es[i] == t[i]);
        }
        if all.contains(q) && !head.contains(q) {
            let k = choose|k: int| 0 <= k < all.len() && all[k] == q;
            if k < head.len() {
                assert(head[k] == q);
            }
            assert(q == took(p, e));
            assert(es[es.len() - 1] == e);
        }
        if exists|i: int|
            {
                &&& 0 <= i < es.len()
                &&& (#[trigger] es[i]).text.len() > 0
                &&& stands_at(s, p.pos, es[i].text)
                &&& q.pos == p.pos + es[i].text.len()
                &&& q.reading.code == p.reading.code.push(es[i].unit)
                &&& q.reading.cost == plus(p.reading.cost, es[i].cost)
                &&& q.reading.attr == attr_union(p.reading.attr, es[i].attr)
            } {
            let i = choose|i: int|
                {
                    &&& 0 <= i < es.len()
                    &&& (#[trigger] es[i]).text.len() > 0
                    &&& stands_at(s, p.pos, es[i].text)
                    &&& q.pos == p.pos + es[i].text.len()
                    &&& q.reading.code == p.reading.code.push(es[i].unit)
                    &&& q.reading.cost == plus(p.reading.cost, es[i].cost)
                    &&& q.reading.attr == attr_union(p.reading.attr, es[i].attr)
                };
            if i < t.len() {
                assert(t[i] == es[i]);
                assert(head.contains(q));
            } else {
                assert(took(p, e) == q);
                assert(all[all.len() - 1] == q);
            }
        }
    }
}

proof fn longer_prefixes_come_first(es: Seq<Edge>, s: Seq<char>, most: int, units: int, n: int)
    requires
        0 <= n <= s.len(),
    ensures
        forall|i: int|
            0 <= i < prefix_paths(es, s, most, units, n).len() ==> 0 < (#[trigger] prefix_paths(
                es,
                s,
                most,
                units,
                n,
            )[i]).pos <= n && readings(es, s.take(prefix_paths(es, s, most, units, n)[i].pos), most, units).contains(
                prefix_paths(es, s, most, units, n)[i].reading,
            ),
        forall|i: int, j: int|
            0 <= i < j < prefix_paths(es, s, most, units, n).len() ==> (#[trigger] prefix_paths(
                es,
                s,
                most,
                units,
                n,
            )[i]).pos >= (#[trigger] prefix_paths(es, s, most, units, n)[j]).pos,
    decreases n,
{
    if n > 0 {
        longer_prefixes_come_first(es, s, most, units, n - 1);
        let rs = readings(es, s.take(n), most, units);
        let front = paths_to(rs, n);
        let back = prefix_paths(es, s, most, units, n - 1);
        let all = prefix_paths(es, s, most, units, n);
        assert(all == front + back);
        assert forall|i: int| 0 <= i < all.len() implies 0 < (#[trigger] all[i]).pos <= n
            && readings(es, s.take(all[i].pos), most, units).contains(all[i].reading) by {
            if i < front.len() {
                assert(all[i] == front[i]);
                assert(rs[i] == all[i].reading);
            } else {
                assert(all[i] == back[i - front.len()]);
            }
        }
        assert forall|i: int, j: int| 0 <= i < j < all.len() implies (#[trigger] all[i]).pos >= (
        #[trigger] all[j]).pos by {
            if j < front.len() {
                assert(all[j] == front[j] && all[i] == front[i]);
            } else {
                assert(all[j] == back[j - front.len()]);
                if i < front.len() {
                    assert(all[i] == front[i]);
                } else {
                    assert(all[i] == back[i - front.len()]);
                }
            }
        }
    }
}

/// Readings of the whole input come before readings of its beginnings, and
/// longer beginnings before shorter ones; each is a reading of its beginning.
pub proof fn longer_readings_come_first(t: &SpellingTable, s: Seq<char>, cap: int, i: int, j: int)
    requires
        0 <= i < j < t.paths(s, cap).len(),
    ensures
        t.paths(s, cap)[i].pos >= t.paths(s, cap)[j].pos,
        0 < t.paths(s, cap)[j].pos <= s.len(),
        t.reads(s.take(t.paths(s, cap)[j].pos)).contains(t.paths(s, cap)[j].reading),
{
    longer_prefixes_come_first(
        t.edge_seq(),
        s,
        t.max_expansions as int,
        t.max_units as int,
        s.len() as int,
    );
    let all = prefix_paths(
        t.edge_seq(),
        s,
        t.max_expansions as int,
        t.max_units as int,
        s.len() as int,
    );
    assert(t.paths(s, cap)[i] == all[i]);
    assert(t.paths(s, cap)[j] == all[j]);
}

/// What a fuzzy rule derives is marked as fuzzy, what an abbreviating one
/// derives as short, and what a plain one derives not at all; none of them costs
/// anything by itself.
pub proof fn written_rules_mark_what_they_derive(args: Seq<Seq<char>>)
    requires
        args.len() >= 2,
        parse(args[0]) is Ok,
    ensures
        operation("fuzz"@, args) matches Ok(Operation::Derive { repl, cost, attr, .. }) && repl
            == args[1] && cost.milli == 0 && attr.fuzzy && !attr.abbrev && !attr.completion,
        operation("abbrev"@, args) matches Ok(Operation::Derive { repl, cost, attr, .. }) && repl
            == args[1] && cost.milli == 0 && !attr.fuzzy && attr.abbrev && !attr.completion,
        operation("derive"@, args) matches Ok(Operation::Derive { repl, cost, attr, .. }) && repl
            == args[1] && cost.milli == 0 && !attr.fuzzy && !attr.abbrev && !attr.completion,
        operation("xform"@, args) matches Ok(Operation::Xform { repl, .. }) && repl == args[1],
        operation("erase"@, args) matches Ok(Operation::Erase { .. }),
        args[0].len() == args[1].len() ==> operation("xlit"@, args)
            == Ok::<Operation, RuleRefusal>(Operation::Xlit { from: args[0], to: args[1] }),
{
    reveal_strlit("fuzz");
    reveal_strlit("abbrev");
    reveal_strlit("derive");
    reveal_strlit("xform");
    reveal_strlit("erase");
    reveal_strlit("xlit");
    assert("xlit"@.len() == 4 && "fuzz"@.len() == 4 && "xform"@.len() == 5 && "erase"@.len() == 5
        && "derive"@.len() == 6 && "abbrev"@.len() == 6);
    assert("xlit"@[0] != "fuzz"@[0]);
    assert("xform"@[0] != "erase"@[0]);
    assert("derive"@[0] != "abbrev"@[0]);
}

} // verus!
