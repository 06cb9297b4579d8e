//! A regular-expression subset for spelling rules and input recognition.
//!
//! | Supported | Meaning |
//! | --- | --- |
//! | `abc` | literal characters |
//! | `.` | any character |
//! | `[...]` `[^...]` `[a-z]` | character classes |
//! | `\d` `\w` `\s` and their upper-case complements | predefined classes |
//! | `(...)` | capturing group, written `$1` to `$9` in a replacement; `$0` is the whole match |
//! | `a\|b` | alternatives |
//! | `*` `+` `?` `{n}` `{n,}` `{n,m}` | greedy quantifiers |
//! | `^` `$` | anchors |
//! | `\.` and the like | escapes |
//!
//! Anything else is refused when the pattern is compiled: a rule that is
//! silently misread shows up as words that cannot be typed. A repetition
//! inside a repetition is refused too, and every call runs under a budget of
//! steps, so that no input can stall the matcher. What is not found within the
//! budget counts as not there.

use vstd::prelude::*;
use crate::regex::matching::{
    attempt, attempt_bounds, caps_in, matches_part, no_caps, node_is_sound, resume, run_attempt,
    run_node, run_seq, Caps, Cont, Found, Verdict,
};
use crate::regex::syntax::{parse, parse_pattern, ClassItem, ClassItems, Node, Nodes};
use crate::text::{
    char_debug, char_debug_text, decimal, decimal_text, is_ascii_digit,
    is_digit, push_char, text_before, text_less, text_less_total, text_less_transitive, to_chars,
};

pub mod matching;
pub mod syntax;

pub use crate::regex::syntax::{Refusal, RegexError};

verus! {

/// The steps that one call may take unless told otherwise.
pub const DEFAULT_STEP_BUDGET: u64 = 100_000;

/// A compiled pattern.
#[derive(Clone, Debug)]
pub struct Regex {
    /// The pattern as a tree.
    pub root: Node,
    /// How many capturing groups the pattern has.
    pub groups: usize,
    /// The pattern as written.
    pub source: String,
    /// The steps that one call may take.
    pub step_budget: u64,
}

/// Where a pattern matched.
#[derive(Clone, Debug, PartialEq, Eq)]
pub struct Match {
    /// Index of the first matched character.
    pub start: usize,
    /// Index after the last matched character.
    pub end: usize,
    /// The whole match, and the part that each group matched; `None` where a
    /// group took no part.
    pub groups: Vec<Option<(usize, usize)>>,
}

/// The leftmost match at or after `from`, with a budget of `steps` for all
/// attempts together, and the steps that are left. An attempt that reaches the
/// end of the budget ends the search.
pub open spec fn search(root: Node, groups: int, steps: nat, text: Seq<char>, from: int) -> (
    Option<(int, int, Caps)>,
    nat,
)
    decreases text.len() - from,
{
    if from > text.len() {
        (None, steps)
    } else {
        let o = attempt(root, groups, steps, text, from, false);
        match o.0 {
            Verdict::Hit(e, caps) => (Some((from, e, caps)), o.1),
            Verdict::Spent => (None, o.1),
            Verdict::Miss => if from == text.len() {
                (None, o.1)
            } else {
                search(root, groups, o.1, text, from + 1)
            },
        }
    }
}

/// A match that [`search`] reports lies between `from` and the end of the text.
pub proof fn search_bounds(root: Node, groups: int, steps: nat, text: Seq<char>, from: int)
    requires
        0 <= from,
        text.len() <= usize::MAX,
    ensures
        search(root, groups, steps, text, from).0 matches Some((s, e, caps)) ==> from <= s <= e
            <= text.len() && caps_in(caps, text.len() as int),
        search(root, groups, steps, text, from).1 <= steps,
    decreases text.len() - from,
{
    if from <= text.len() {
        attempt_bounds(root, groups, steps, text, from, false);
        if from < text.len() {
            search_bounds(
                root,
                groups,
                attempt(root, groups, steps, text, from, false).1,
                text,
                from + 1,
            );
        }
    }
}

/// The replacement with `$$` and the group references from `i` on filled in.
/// A reference to a group that took no part stays as written.
pub open spec fn filled(rep: Seq<char>, i: int, text: Seq<char>, caps: Caps) -> Seq<char>
    decreases rep.len() - i,
{
    if i < 0 || i >= rep.len() {
        seq![]
    } else if rep[i] == '$' && i + 1 < rep.len() && rep[i + 1] == '$' {
        seq!['$'] + filled(rep, i + 2, text, caps)
    } else if rep[i] == '$' && i + 1 < rep.len() && is_digit(rep[i + 1]) && group_ref(
        caps,
        rep[i + 1],
    ) is Some {
        let (a, b) = group_ref(caps, rep[i + 1])->0;
        text.subrange(a as int, b as int) + filled(rep, i + 2, text, caps)
    } else {
        seq![rep[i]] + filled(rep, i + 1, text, caps)
    }
}

/// What the group that digit `d` names has matched.
pub open spec fn group_ref(caps: Caps, d: char) -> Option<(usize, usize)> {
    let idx = d as int - '0' as int;
    if 0 <= idx < caps.len() {
        caps[idx]
    } else {
        None
    }
}

/// `text` from `from` on, with every match replaced that is found with `steps`
/// steps. After an empty match the next character is kept and skipped.
pub open spec fn replaced(
    root: Node,
    groups: int,
    steps: nat,
    text: Seq<char>,
    rep: Seq<char>,
    from: int,
) -> Seq<char>
    decreases text.len() + 1 - from,
    when 0 <= from && text.len() <= usize::MAX
{
    proof {
        search_bounds(root, groups, steps, text, from);
    }
    if from > text.len() {
        seq![]
    } else {
        let (found, left) = search(root, groups, steps, text, from);
        match found {
            None => text.subrange(from, text.len() as int),
            Some((s, e, caps)) => text.subrange(from, s) + filled(rep, 0, text, caps) + (if e == s {
                (if e < text.len() {
                    seq![text[e]]
                } else {
                    seq![]
                }) + replaced(root, groups, left, text, rep, e + 1)
            } else {
                replaced(root, groups, left, text, rep, e)
            }),
        }
    }
}

/// The characters that every match from the beginning starts with, as far as
/// the top level of the pattern shows it.
pub open spec fn prefix_of(root: Node) -> Seq<char> {
    match root {
        Node::Char(c) => seq![c],
        Node::Concat(items) => match *items {
            Nodes::Cons(head, rest) => if *head is Start {
                literal_run(*rest)
            } else {
                literal_run(*items)
            },
            Nodes::Nil => seq![],
        },
        _ => seq![],
    }
}

/// The literal characters that a list of trees starts with.
pub open spec fn literal_run(ns: Nodes) -> Seq<char>
    decreases ns,
{
    match ns {
        Nodes::Cons(head, rest) => match *head {
            Node::Char(c) => seq![c] + literal_run(*rest),
            _ => seq![],
        },
        Nodes::Nil => seq![],
    }
}

fn collect_literals(ns: &Nodes, out: &mut String)
    ensures
        final(out)@ == old(out)@ + literal_run(*ns),
    decreases ns,
{
    let ghost before = out@;
    match ns {
        Nodes::Cons(head, rest) => {
            match &**head {
                Node::Char(c) => {
                    push_char(out, *c);
                    collect_literals(rest, out);
                    assert(out@ =~= before + (seq![*c] + literal_run(**rest)));
                },
                _ => {
                    assert(out@ =~= before + seq![]);
                },
            }
        },
        Nodes::Nil => {
            assert(out@ =~= before + seq![]);
        },
    }
}

fn required_prefix_of(root: &Node) -> (r: String)
    ensures
        r@ == prefix_of(*root),
{
    let mut out = String::new();
    match root {
        Node::Char(c) => push_char(&mut out, *c),
        Node::Concat(items) => match &**items {
            Nodes::Cons(head, rest) => match &**head {
                Node::Start => collect_literals(rest, &mut out),
                _ => collect_literals(items, &mut out),
            },
            Nodes::Nil => {},
        },
        _ => {},
    }
    assert(out@ =~= prefix_of(*root));
    out
}

impl Regex {
    /// The leftmost match at or after `from`.
    pub open spec fn found(&self, text: Seq<char>, from: int) -> Option<(int, int, Caps)> {
        search(self.root, self.groups as int, self.step_budget as nat, text, from).0
    }

    /// What an attempt at the beginning of the text reports.
    pub open spec fn at_start(&self, text: Seq<char>, to_end: bool) -> Option<(int, Caps)> {
        match attempt(self.root, self.groups as int, self.step_budget as nat, text, 0, to_end).0 {
            Verdict::Hit(e, caps) => Some((e, caps)),
            _ => None,
        }
    }

    /// Compiles a pattern.
    pub fn compile(pattern: &str) -> (r: Result<Self, RegexError>)
        ensures
            match parse(pattern@) {
                Err(e) => r matches Err(x) && x@ == e,
                Ok((root, groups)) => r matches Ok(re) && re.root == root && re.groups == groups
                    && re.source@ == pattern@ && re.step_budget == DEFAULT_STEP_BUDGET,
            },
    {
        let (root, groups) = parse_pattern(pattern)?;
        Ok(Regex { root, groups, source: pattern.to_owned(), step_budget: DEFAULT_STEP_BUDGET })
    }

    /// The same pattern with another budget, of at least one step.
    #[must_use]
    pub fn with_step_budget(self, steps: u64) -> (r: Self)
        ensures
            r.root == self.root,
            r.groups == self.groups,
            r.source == self.source,
            r.step_budget == (if steps == 0 {
                1
            } else {
                steps
            }),
    {
        let mut r = self;
        r.step_budget = if steps == 0 {
            1
        } else {
            steps
        };
        r
    }

    /// A text that every match from the beginning starts with.
    #[must_use]
    pub fn required_prefix(&self) -> (r: String)
        ensures
            r@ == prefix_of(self.root),
    {
        required_prefix_of(&self.root)
    }

    /// Whether the pattern matches the whole text.
    #[must_use]
    pub fn is_full_match(&self, text: &str) -> (r: bool)
        ensures
            r == self.at_start(text@, true) is Some,
    {
        let chars = to_chars(text);
        let mut steps: u64 = self.step_budget;
        match run_attempt(&self.root, self.groups, &mut steps, &chars, 0, true) {
            Found::Hit(_, _) => true,
            _ => false,
        }
    }

    /// The leftmost match.
    #[must_use]
    pub fn find(&self, text: &str) -> (r: Option<Match>)
        ensures
            match self.found(text@, 0) {
                Some((s, e, caps)) => r matches Some(m) && m.start == s && m.end == e
                    && m.groups@ == caps,
                None => r is None,
            },
    {
        let chars = to_chars(text);
        let mut steps: u64 = self.step_budget;
        self.find_from(&chars, 0, &mut steps)
    }

    fn find_from(&self, chars: &Vec<char>, from: usize, steps: &mut u64) -> (r: Option<Match>)
        requires
            from <= chars.len(),
        ensures
            ({
                let o = search(
                    self.root,
                    self.groups as int,
                    *old(steps) as nat,
                    chars@,
                    from as int,
                );
                &&& *final(steps) == o.1
                &&& match o.0 {
                    Some((s, e, caps)) => r matches Some(m) && m.start == s && m.end == e
                        && m.groups@ == caps,
                    None => r is None,
                }
            }),
            r matches Some(m) ==> from <= m.start <= m.end <= chars@.len() && caps_in(
                m.groups@,
                chars@.len() as int,
            ),
    {
        let mut start: usize = from;
        let ghost goal = search(self.root, self.groups as int, *steps as nat, chars@, from as int);
        loop
            invariant
                from <= start <= chars.len(),
                goal == search(
                    self.root,
                    self.groups as int,
                    *old(steps) as nat,
                    chars@,
                    from as int,
                ),
                goal == search(
                    self.root,
                    self.groups as int,
                    *steps as nat,
                    chars@,
                    start as int,
                ),
            decreases chars.len() - start,
        {
            match run_attempt(&self.root, self.groups, steps, chars, start, false) {
                Found::Hit(end, groups) => {
                    return Some(Match { start, end, groups });
                },
                Found::Spent => {
                    return None;
                },
                Found::Miss => {},
            }
            if start == chars.len() {
                return None;
            }
            start += 1;
        }
    }

    /// How many characters from the beginning the pattern matches; with
    /// `require_to_end` only a match of the whole text counts.
    #[must_use]
    pub fn match_prefix_len(&self, text: &str, require_to_end: bool) -> (r: Option<usize>)
        ensures
            match self.at_start(text@, require_to_end) {
                Some((e, _)) => r matches Some(n) && n == e,
                None => r is None,
            },
            r matches Some(n) ==> n <= text@.len(),
    {
        let chars = to_chars(text);
        let mut steps: u64 = self.step_budget;
        match run_attempt(&self.root, self.groups, &mut steps, &chars, 0, require_to_end) {
            Found::Hit(e, _) => Some(e),
            _ => None,
        }
    }

    /// The text with every match replaced; the text itself where nothing
    /// matches.
    #[must_use]
    pub fn replace_all(&self, text: &str, replacement: &str) -> (r: String)
        ensures
            r@ == replaced(
                self.root,
                self.groups as int,
                self.step_budget as nat,
                text@,
                replacement@,
                0,
            ),
    {
        let chars = to_chars(text);
        let rep = to_chars(replacement);
        let mut out = String::new();
        let mut pos: usize = 0;
        let mut steps: u64 = self.step_budget;
        let ghost goal = replaced(
            self.root,
            self.groups as int,
            steps as nat,
            text@,
            rep@,
            0,
        );
        loop
            invariant_except_break
                goal == out@ + replaced(
                    self.root,
                    self.groups as int,
                    steps as nat,
                    text@,
                    rep@,
                    pos as int,
                ),
            invariant
                pos <= chars.len(),
                chars@ == text@,
                rep@ == replacement@,
            ensures
                out@ == goal,
            decreases chars.len() - pos,
        {
            let ghost before = out@;
            match self.find_from(&chars, pos, &mut steps) {
                None => {
                    push_part(&mut out, &chars, pos, chars.len());
                    break;
                },
                Some(m) => {
                    push_part(&mut out, &chars, pos, m.start);
                    let fill = expand(&rep, &chars, &m.groups);
                    out.append(fill.as_str());
                    if m.end == m.start {
                        if m.end == chars.len() {
                            assert(out@ =~= before + (text@.subrange(pos as int, m.start as int)
                                + filled(rep@, 0, text@, m.groups@)));
                            assert(replaced(
                                self.root,
                                self.groups as int,
                                steps as nat,
                                text@,
                                rep@,
                                m.end + 1,
                            ) =~= seq![]);
                            assert(out@ =~= goal);
                            break;
                        }
                        push_char(&mut out, chars[m.end]);
                        pos = m.end + 1;
                    } else {
                        pos = m.end;
                    }
                    assert(out@ + replaced(
                        self.root,
                        self.groups as int,
                        steps as nat,
                        text@,
                        rep@,
                        pos as int,
                    ) =~= goal);
                },
            }
        }
        out
    }
}

fn push_part(out: &mut String, chars: &Vec<char>, from: usize, to: usize)
    requires
        from <= to <= chars.len(),
    ensures
        final(out)@ == old(out)@ + chars@.subrange(from as int, to as int),
{
    let ghost before = out@;
    let mut i: usize = from;
    assert(out@ =~= before + chars@.subrange(from as int, i as int));
    while i < to
        invariant
            from <= i <= to <= chars.len(),
            out@ == before + chars@.subrange(from as int, i as int),
        decreases to - i,
    {
        push_char(out, chars[i]);
        i += 1;
        assert(out@ =~= before + chars@.subrange(from as int, i as int));
    }
}

/// Fills in a replacement.
fn expand(rep: &Vec<char>, text: &Vec<char>, groups: &Vec<Option<(usize, usize)>>) -> (r: String)
    requires
        caps_in(groups@, text@.len() as int),
    ensures
        r@ == filled(rep@, 0, text@, groups@),
{
    let mut out = String::new();
    let mut i: usize = 0;
    let ghost goal = filled(rep@, 0, text@, groups@);
    assert(out@ + filled(rep@, 0, text@, groups@) =~= goal);
    while i < rep.len()
        invariant
            i <= rep.len(),
            caps_in(groups@, text@.len() as int),
            out@ + filled(rep@, i as int, text@, groups@) == goal,
        decreases rep.len() - i,
    {
        let c = rep[i];
        let ghost before = out@;
        if c == '$' && rep.len() - i > 1 {
            let d = rep[i + 1];
            if d == '$' {
                push_char(&mut out, '$');
                assert(out@ + filled(rep@, i + 2, text@, groups@) =~= goal);
                i += 2;
                continue;
            }
            if is_ascii_digit(d) {
                let idx: usize = (d as usize) - 48;
                if idx < groups.len() {
                    if let Some((a, b)) = groups[idx] {
                        assert(group_ref(groups@, d) == Some((a, b)));
                        push_part(&mut out, text, a, b);
                        assert(out@ + filled(rep@, i + 2, text@, groups@) =~= goal);
                        i += 2;
                        continue;
                    }
                }
            }
        }
        push_char(&mut out, c);
        assert(out@ + filled(rep@, i + 1, text@, groups@) =~= goal);
        i += 1;
    }
    assert(out@ =~= goal);
    out
}

// ---------------------------------------------------------------------------
// Diagnostics
// ---------------------------------------------------------------------------

pub open spec fn flag_text(b: bool) -> Seq<char> {
    if b {
        "true"@
    } else {
        "false"@
    }
}

pub open spec fn item_text(item: ClassItem) -> Seq<char> {
    match item {
        ClassItem::Char(c) => "Char("@ + char_debug_text(c) + ")"@,
        ClassItem::Range(a, b) => "Range("@ + char_debug_text(a) + ", "@ + char_debug_text(b)
            + ")"@,
        ClassItem::Digit(n) => "Digit("@ + flag_text(n) + ")"@,
        ClassItem::Word(n) => "Word("@ + flag_text(n) + ")"@,
        ClassItem::Space(n) => "Space("@ + flag_text(n) + ")"@,
    }
}

/// The members separated by commas.
pub open spec fn items_text(items: ClassItems) -> Seq<char>
    decreases items,
{
    match items {
        ClassItems::Nil => seq![],
        ClassItems::Cons(item, rest) => if *rest is Nil {
            item_text(item)
        } else {
            item_text(item) + ", "@ + items_text(*rest)
        },
    }
}

/// A tree written out, variants and fields by name.
pub open spec fn node_text(node: Node) -> Seq<char>
    decreases node,
{
    match node {
        Node::Empty => "Empty"@,
        Node::Char(c) => "Char("@ + char_debug_text(c) + ")"@,
        Node::Any => "Any"@,
        Node::Class { neg, items } => "Class { neg: "@ + flag_text(neg) + ", items: ["@
            + items_text(items) + "] }"@,
        Node::Start => "Start"@,
        Node::End => "End"@,
        Node::Group(inner, idx) => "Group("@ + node_text(*inner) + ", "@ + decimal(idx as nat)
            + ")"@,
        Node::Concat(items) => "Concat(["@ + nodes_text(*items) + "])"@,
        Node::Alt(items) => "Alt(["@ + nodes_text(*items) + "])"@,
        Node::Repeat { node: inner, min, max } => "Repeat { node: "@ + node_text(*inner)
            + ", min: "@ + decimal(min as nat) + ", max: "@ + (match max {
            Some(m) => "Some("@ + decimal(m as nat) + ")"@,
            None => "None"@,
        }) + " }"@,
    }
}

pub open spec fn nodes_text(ns: Nodes) -> Seq<char>
    decreases ns,
{
    match ns {
        Nodes::Nil => seq![],
        Nodes::Cons(n, rest) => if *rest is Nil {
            node_text(*n)
        } else {
            node_text(*n) + ", "@ + nodes_text(*rest)
        },
    }
}

fn join2(a: String, b: &str) -> (r: String)
    ensures
        r@ == a@ + b@,
{
    a.concat(b)
}

fn flag(b: bool) -> (r: &'static str)
    ensures
        r@ == flag_text(b),
{
    if b {
        "true"
    } else {
        "false"
    }
}

fn describe_item(item: &ClassItem) -> (r: String)
    ensures
        r@ == item_text(*item),
{
    match item {
        ClassItem::Char(c) => join2(join2("Char(".to_owned(), char_debug(*c).as_str()), ")"),
        ClassItem::Range(a, b) => join2(
            join2(
                join2(join2("Range(".to_owned(), char_debug(*a).as_str()), ", "),
                char_debug(*b).as_str(),
            ),
            ")",
        ),
        ClassItem::Digit(n) => join2(join2("Digit(".to_owned(), flag(*n)), ")"),
        ClassItem::Word(n) => join2(join2("Word(".to_owned(), flag(*n)), ")"),
        ClassItem::Space(n) => join2(join2("Space(".to_owned(), flag(*n)), ")"),
    }
}

fn describe_items(items: &ClassItems) -> (r: String)
    ensures
        r@ == items_text(*items),
    decreases items,
{
    match items {
        ClassItems::Nil => String::new(),
        ClassItems::Cons(item, rest) => match &**rest {
            ClassItems::Nil => describe_item(item),
            _ => join2(join2(describe_item(item), ", "), describe_items(rest).as_str()),
        },
    }
}

fn describe_node(node: &Node) -> (r: String)
    ensures
        r@ == node_text(*node),
    decreases node,
{
    match node {
        Node::Empty => "Empty".to_owned(),
        Node::Char(c) => join2(join2("Char(".to_owned(), char_debug(*c).as_str()), ")"),
        Node::Any => "Any".to_owned(),
        Node::Class { neg, items } => join2(
            join2(
                join2(join2("Class { neg: ".to_owned(), flag(*neg)), ", items: ["),
                describe_items(items).as_str(),
            ),
            "] }",
        ),
        Node::Start => "Start".to_owned(),
        Node::End => "End".to_owned(),
        Node::Group(inner, idx) => join2(
            join2(
                join2(join2("Group(".to_owned(), describe_node(inner).as_str()), ", "),
                decimal_text(*idx as u64).as_str(),
            ),
            ")",
        ),
        Node::Concat(items) => join2(
            join2("Concat([".to_owned(), describe_nodes(items).as_str()),
            "])",
        ),
        Node::Alt(items) => join2(join2("Alt([".to_owned(), describe_nodes(items).as_str()), "])"),
        Node::Repeat { node: inner, min, max } => {
            let head = join2(
                join2("Repeat { node: ".to_owned(), describe_node(inner).as_str()),
                ", min: ",
            );
            let head = join2(join2(head, decimal_text(*min as u64).as_str()), ", max: ");
            let bound = match max {
                Some(m) => join2(
                    join2("Some(".to_owned(), decimal_text(*m as u64).as_str()),
                    ")",
                ),
                None => "None".to_owned(),
            };
            join2(join2(head, bound.as_str()), " }")
        },
    }
}

fn describe_nodes(ns: &Nodes) -> (r: String)
    ensures
        r@ == nodes_text(*ns),
    decreases ns,
{
    match ns {
        Nodes::Nil => String::new(),
        Nodes::Cons(n, rest) => match &**rest {
            Nodes::Nil => describe_node(n),
            _ => join2(join2(describe_node(n), ", "), describe_nodes(rest).as_str()),
        },
    }
}

/// The compiled tree written out, for diagnosis.
#[must_use]
pub fn describe(re: &Regex) -> (r: String)
    ensures
        r@ == node_text(re.root),
{
    describe_node(&re.root)
}

/// How many capturing groups a pattern has.
#[must_use]
pub fn group_count(re: &Regex) -> (r: usize)
    ensures
        r == re.groups,
{
    re.groups
}

/// The number of groups of a pattern that compiles.
pub open spec fn groups_of(p: Seq<char>) -> Option<int> {
    match parse(p) {
        Ok((_, g)) => Some(g),
        Err(_) => None,
    }
}

/// Names in strictly rising order.
pub open spec fn keys_rise(m: Seq<(String, usize)>) -> bool {
    forall|i: int, j: int| 0 <= i < j < m.len() ==> text_less(#[trigger] m[i].0@, #[trigger] m[j].0@)
}

/// Whether a name is listed.
pub open spec fn is_listed(m: Seq<(String, usize)>, p: Seq<char>) -> bool {
    exists|i: int| 0 <= i < m.len() && (#[trigger] m[i]).0@ == p
}

/// Whether every listed name is one of the patterns, with its group count.
pub open spec fn lists_only(m: Seq<(String, usize)>, patterns: Seq<&str>) -> bool {
    forall|i: int|
        0 <= i < m.len() ==> groups_of((#[trigger] m[i]).0@) == Some(m[i].1 as int)
            && among(patterns, m[i].0@)
}

/// Whether a text is one of the patterns.
pub open spec fn among(patterns: Seq<&str>, t: Seq<char>) -> bool {
    exists|j: int| 0 <= j < patterns.len() && (#[trigger] patterns[j])@ == t
}

proof fn inserted_keys_rise(m: Seq<(String, usize)>, at: int, e: (String, usize))
    requires
        0 <= at <= m.len(),
        keys_rise(m),
        forall|i: int| 0 <= i < at ==> text_less((#[trigger] m[i]).0@, e.0@),
        at < m.len() ==> text_less(e.0@, m[at].0@),
    ensures
        keys_rise(m.insert(at, e)),
{
    let new = m.insert(at, e);
    assert forall|i: int, j: int| 0 <= i < j < new.len() implies text_less(
        #[trigger] new[i].0@,
        #[trigger] new[j].0@,
    ) by {
        if j == at {
            assert(new[i] == m[i]);
        } else if i == at {
            assert(new[j] == m[j - 1]);
            if j - 1 > at {
                assert(text_less(m[at].0@, m[j - 1].0@));
                text_less_transitive(e.0@, m[at].0@, m[j - 1].0@);
            }
        } else {
            let i0 = if i < at { i } else { i - 1 };
            let j0 = if j < at { j } else { j - 1 };
            assert(new[i] == m[i0] && new[j] == m[j0]);
        }
    }
}

proof fn inserted_is_listed(m: Seq<(String, usize)>, at: int, e: (String, usize), p: Seq<char>)
    requires
        0 <= at <= m.len(),
        is_listed(m, p) || p == e.0@,
    ensures
        is_listed(m.insert(at, e), p),
{
    let new = m.insert(at, e);
    if p == e.0@ {
        assert(new[at].0@ == p);
    } else {
        let i = choose|i: int| 0 <= i < m.len() && (#[trigger] m[i]).0@ == p;
        if i < at {
            assert(new[i].0@ == p);
        } else {
            assert(new[i + 1].0@ == p);
        }
    }
}

fn list_pattern(m: &mut Vec<(String, usize)>, p: &str, groups: usize)
    requires
        keys_rise(old(m)@),
    ensures
        keys_rise(final(m)@),
        forall|q: Seq<char>| is_listed(old(m)@, q) || q == p@ ==> #[trigger] is_listed(final(m)@, q),
        forall|ps: Seq<&str>|
            lists_only(old(m)@, ps) && groups_of(p@) == Some(groups as int) && among(ps, p@)
                ==> #[trigger] lists_only(final(m)@, ps),
{
    let ghost before = m@;
    let mut at: usize = 0;
    while at < m.len() && text_before(m[at].0.as_str(), p)
        invariant
            at <= m.len(),
            m@ == before,
            forall|i: int| 0 <= i < at ==> text_less((#[trigger] m@[i]).0@, p@),
        decreases m.len() - at,
    {
        at += 1;
    }
    if at < m.len() && !text_before(p, m[at].0.as_str()) {
        proof {
            text_less_total(p@, m@[at as int].0@);
            assert(m@[at as int].0@ == p@);
        }
        return ;
    }
    let e = (p.to_owned(), groups);
    let ghost new = e;
    m.insert(at, e);
    proof {
        inserted_keys_rise(before, at as int, new);
        assert forall|q: Seq<char>| is_listed(before, q) || q == p@ implies #[trigger] is_listed(
            m@,
            q,
        ) by {
            inserted_is_listed(before, at as int, new, q);
        }
        assert forall|ps: Seq<&str>|
            lists_only(before, ps) && groups_of(p@) == Some(groups as int) && among(
                ps,
                p@,
            ) implies #[trigger] lists_only(m@, ps) by {
            assert forall|i: int| 0 <= i < m@.len() implies groups_of((#[trigger] m@[i]).0@)
                == Some(m@[i].1 as int) && among(ps, m@[i].0@) by {
                if i < at {
                    assert(m@[i] == before[i]);
                } else if i > at {
                    assert(m@[i] == before[i - 1]);
                }
            }
        }
    }
}

/// The patterns that compile, each once and in order, with their group counts.
#[must_use]
pub fn group_index(patterns: &[&str]) -> (r: Vec<(String, usize)>)
    ensures
        keys_rise(r@),
        lists_only(r@, patterns@),
        forall|j: int|
            0 <= j < patterns@.len() && groups_of((#[trigger] patterns@[j])@) is Some ==> is_listed(
                r@,
                patterns@[j]@,
            ),
{
    let mut m: Vec<(String, usize)> = Vec::new();
    let mut n: usize = 0;
    while n < patterns.len()
        invariant
            n <= patterns.len(),
            keys_rise(m@),
            lists_only(m@, patterns@),
            forall|j: int|
                0 <= j < n && groups_of((#[trigger] patterns@[j])@) is Some ==> is_listed(
                    m@,
                    patterns@[j]@,
                ),
        decreases patterns.len() - n,
    {
        let p = patterns[n];
        if let Ok(re) = Regex::compile(p) {
            assert(among(patterns@, p@)) by {
                assert(patterns@[n as int]@ == p@);
            }
            list_pattern(&mut m, p, re.groups);
        }
        n += 1;
    }
    m
}

// ---------------------------------------------------------------------------
// Laws
// ---------------------------------------------------------------------------

/// Whatever is reported as a match from the beginning is one: the pattern does
/// match that part of the text, and the whole text where that was asked for.
/// The budget can lose a match; it cannot invent one.
pub proof fn reported_prefix_is_a_match(re: &Regex, text: Seq<char>, to_end: bool)
    ensures
        re.at_start(text, to_end) matches Some((e, _)) ==> matches_part(re.root, text, 0, e) && (
        to_end ==> e == text.len()),
{
    let k = Cont::Done(to_end);
    let caps = no_caps(re.groups as int);
    node_is_sound(re.root, text, 0, caps, re.step_budget as nat, 0, k);
}

/// The steps that are left when the position `i` is tried, where a search from
/// `from` with `steps` steps gets that far.
pub open spec fn steps_at(
    root: Node,
    groups: int,
    steps: nat,
    text: Seq<char>,
    from: int,
    i: int,
) -> nat
    decreases i - from,
{
    if i <= from {
        steps
    } else {
        steps_at(root, groups, attempt(root, groups, steps, text, from, false).1, text, from + 1, i)
    }
}

/// Whatever [`Regex::find`] reports is a match of the pattern in the text, and
/// at every earlier position all ways to match were tried and failed.
pub proof fn found_is_the_leftmost_match(re: &Regex, text: Seq<char>)
    ensures
        re.found(text, 0) matches Some((s, e, _)) ==> matches_part(re.root, text, s, e)
            && forall|i: int|
            0 <= i < s ==> attempt(
                re.root,
                re.groups as int,
                #[trigger] steps_at(
                    re.root,
                    re.groups as int,
                    re.step_budget as nat,
                    text,
                    0,
                    i,
                ),
                text,
                i,
                false,
            ).0 is Miss,
{
    found_from_is_leftmost(re, re.step_budget as nat, text, 0);
}

proof fn found_from_is_leftmost(re: &Regex, steps: nat, text: Seq<char>, from: int)
    ensures
        search(re.root, re.groups as int, steps, text, from).0 matches Some((s, e, _))
            ==> matches_part(re.root, text, s, e) && from <= s && forall|i: int|
            from <= i < s ==> attempt(
                re.root,
                re.groups as int,
                #[trigger] steps_at(re.root, re.groups as int, steps, text, from, i),
                text,
                i,
                false,
            ).0 is Miss,
    decreases text.len() - from,
{
    if from <= text.len() {
        let k = Cont::Done(false);
        let g = re.groups as int;
        let o = attempt(re.root, g, steps, text, from, false);
        node_is_sound(re.root, text, from, no_caps(g), steps, 0, k);
        if from < text.len() && o.0 is Miss {
            found_from_is_leftmost(re, o.1, text, from + 1);
            if let Some((s, _, _)) = search(re.root, g, steps, text, from).0 {
                assert forall|i: int| from <= i < s implies attempt(
                    re.root,
                    g,
                    #[trigger] steps_at(re.root, g, steps, text, from, i),
                    text,
                    i,
                    false,
                ).0 is Miss by {
                    if i > from {
                        assert(steps_at(re.root, g, steps, text, from, i) == steps_at(
                            re.root,
                            g,
                            o.1,
                            text,
                            from + 1,
                            i,
                        ));
                    }
                }
            }
        }
    }
}

/// A match from the beginning starts with the required prefix, so a text that
/// does not start with it can be passed over without trying.
pub proof fn match_starts_with_required_prefix(re: &Regex, text: Seq<char>, to_end: bool)
    ensures
        re.at_start(text, to_end) is Some ==> prefix_of(re.root).is_prefix_of(text),
{
    let k = Cont::Done(to_end);
    let caps = no_caps(re.groups as int);
    let steps = re.step_budget as nat;
    if re.at_start(text, to_end) is Some {
        match re.root {
            Node::Concat(items) => match *items {
                Nodes::Cons(head, rest) => {
                    let s = (steps - 1) as nat;
                    assert(run_node(re.root, text, 0, caps, steps, 0, k) == run_seq(
                        *items,
                        text,
                        0,
                        caps,
                        s,
                        0,
                        k,
                    ));
                    if *head is Start {
                        let then = Cont::Then { rest: &*rest, depth: 0, next: &k };
                        assert(run_seq(*items, text, 0, caps, s, 0, k) == run_node(
                            *head,
                            text,
                            0,
                            caps,
                            s,
                            0,
                            then,
                        ));
                        assert(run_node(*head, text, 0, caps, s, 0, then) == resume(
                            then,
                            text,
                            0,
                            caps,
                            (s - 1) as nat,
                        ));
                        literals_stand_at(*rest, text, 0, caps, (s - 1) as nat, 0, k);
                    } else {
                        literals_stand_at(*items, text, 0, caps, s, 0, k);
                    }
                    assert(text.subrange(0, prefix_of(re.root).len() as int) =~= prefix_of(
                        re.root,
                    ));
                },
                Nodes::Nil => {},
            },
            _ => {},
        }
    }
}

proof fn literals_stand_at(
    ns: Nodes,
    text: Seq<char>,
    pos: int,
    caps: Caps,
    steps: nat,
    depth: u32,
    k: Cont,
)
    requires
        0 <= pos <= text.len(),
        run_seq(ns, text, pos, caps, steps, depth, k).0 is Hit,
    ensures
        pos + literal_run(ns).len() <= text.len(),
        text.subrange(pos, pos + literal_run(ns).len()) == literal_run(ns),
    decreases ns,
{
    match ns {
        Nodes::Cons(head, rest) => match *head {
            Node::Char(c) => {
                let then = Cont::Then { rest: &*rest, depth, next: &k };
                assert(run_node(*head, text, pos, caps, steps, depth, then) == resume(
                    then,
                    text,
                    pos + 1,
                    caps,
                    (steps - 1) as nat,
                ));
                literals_stand_at(*rest, text, pos + 1, caps, (steps - 1) as nat, depth, k);
                assert(text.subrange(pos, pos + literal_run(ns).len()) =~= literal_run(ns));
            },
            _ => {
                assert(text.subrange(pos, pos) =~= seq![]);
            },
        },
        Nodes::Nil => {
            assert(text.subrange(pos, pos) =~= seq![]);
        },
    }
}

/// A text in which the pattern is found nowhere is left alone by a replacement.
pub proof fn replacement_needs_a_match(re: &Regex, text: Seq<char>, rep: Seq<char>)
    requires
        re.found(text, 0) is None,
        text.len() <= usize::MAX,
    ensures
        replaced(re.root, re.groups as int, re.step_budget as nat, text, rep, 0) == text,
{
    assert(text.subrange(0, text.len() as int) =~= text);
}

proof fn plain_text_is_copied(rep: Seq<char>, i: int, j: int, text: Seq<char>, caps: Caps)
    requires
        0 <= i <= j <= rep.len(),
        forall|k: int| i <= k < j ==> #[trigger] rep[k] != '$',
    ensures
        filled(rep, i, text, caps) == rep.subrange(i, j) + filled(rep, j, text, caps),
    decreases j - i,
{
    if i < j {
        plain_text_is_copied(rep, i + 1, j, text, caps);
        assert(rep[i] != '$');
        assert(rep.subrange(i, j) =~= seq![rep[i]] + rep.subrange(i + 1, j));
        assert(filled(rep, i, text, caps) =~= rep.subrange(i, j) + filled(rep, j, text, caps));
    } else {
        assert(rep.subrange(i, j) =~= Seq::<char>::empty());
        assert(Seq::<char>::empty() + filled(rep, j, text, caps) =~= filled(rep, j, text, caps));
    }
}

proof fn filled_from_there(front: Seq<char>, rep: Seq<char>, i: int, text: Seq<char>, caps: Caps)
    requires
        0 <= i <= rep.len(),
    ensures
        filled(front + rep, front.len() + i, text, caps) == filled(rep, i, text, caps),
    decreases rep.len() - i,
{
    let all = front + rep;
    let n = front.len() as int;
    if i < rep.len() {
        assert(all[n + i] == rep[i]);
        if i + 1 < rep.len() {
            assert(all[n + i + 1] == rep[i + 1]);
            filled_from_there(front, rep, i + 2, text, caps);
        }
        filled_from_there(front, rep, i + 1, text, caps);
    }
}

/// A replacement stands as it is written, but for its references: `$` and the
/// number of a group stand for what the group has matched, and two of `$` for
/// one.
pub proof fn references_are_filled_in(
    plain: Seq<char>,
    d: char,
    rest: Seq<char>,
    text: Seq<char>,
    caps: Caps,
)
    requires
        !plain.contains('$'),
        is_digit(d),
    ensures
        filled(plain, 0, text, caps) == plain,
        (0 <= d as int - '0' as int) && (d as int - '0' as int) < caps.len() && caps[d as int
            - '0' as int] is Some ==> filled(plain + seq!['$', d] + rest, 0, text, caps) == plain
            + text.subrange(
            (caps[d as int - '0' as int]->0).0 as int,
            (caps[d as int - '0' as int]->0).1 as int,
        ) + filled(rest, 0, text, caps),
        filled(plain + seq!['$', '$'] + rest, 0, text, caps) == plain.push('$') + filled(
            rest,
            0,
            text,
            caps,
        ),
{
    let n = plain.len() as int;
    assert forall|k: int| 0 <= k < n implies #[trigger] plain[k] != '$' by {
        assert(plain.contains(plain[k]));
    }
    plain_text_is_copied(plain, 0, n, text, caps);
    assert(plain.subrange(0, n) =~= plain);
    assert(plain + Seq::<char>::empty() =~= plain);
    let a = plain + seq!['$', d];
    let b = plain + seq!['$', '$'];
    assert forall|k: int| 0 <= k < n implies #[trigger] (a + rest)[k] != '$' by {
        assert((a + rest)[k] == plain[k]);
    }
    assert forall|k: int| 0 <= k < n implies #[trigger] (b + rest)[k] != '$' by {
        assert((b + rest)[k] == plain[k]);
    }
    plain_text_is_copied(a + rest, 0, n, text, caps);
    plain_text_is_copied(b + rest, 0, n, text, caps);
    assert((a + rest).subrange(0, n) =~= plain);
    assert((b + rest).subrange(0, n) =~= plain);
    filled_from_there(a, rest, 0, text, caps);
    filled_from_there(b, rest, 0, text, caps);
    assert((a + rest)[n] == '$' && (a + rest)[n + 1] == d);
    assert((b + rest)[n] == '$' && (b + rest)[n + 1] == '$');
    let tail = filled(rest, 0, text, caps);
    assert(plain + (seq!['$'] + tail) =~= plain.push('$') + tail);
    if let Some((x, y)) = group_ref(caps, d) {
        let part = text.subrange(x as int, y as int);
        assert(plain + (part + tail) =~= plain + part + tail);
    }
}

/// A text with every `c` exchanged for `by`.
pub open spec fn exchanged(text: Seq<char>, c: char, by: Seq<char>, from: int) -> Seq<char>
    decreases text.len() - from,
{
    if from < 0 || from >= text.len() {
        seq![]
    } else {
        (if text[from] == c {
            by
        } else {
            seq![text[from]]
        }) + exchanged(text, c, by, from + 1)
    }
}

proof fn one_character_is_tried(c: char, groups: int, steps: nat, text: Seq<char>, from: int)
    requires
        steps > 0,
        0 <= from <= text.len(),
        groups >= 0,
        text.len() < usize::MAX,
    ensures
        ({
            let o = attempt(Node::Char(c), groups, steps, text, from, false);
            &&& o.1 == steps - 1
            &&& from < text.len() && text[from] == c ==> (o.0 matches Verdict::Hit(e, _) && e == from
                + 1)
            &&& from == text.len() || text[from] != c ==> o.0 is Miss
        }),
{
    reveal_with_fuel(run_node, 2);
    reveal_with_fuel(resume, 2);
}

/// A pattern of one character exchanges every such character, and leaves all
/// others as they are, wherever the budget allows a look at each.
pub proof fn single_characters_are_replaced(
    c: char,
    groups: int,
    steps: nat,
    text: Seq<char>,
    rep: Seq<char>,
    from: int,
)
    requires
        0 <= from <= text.len(),
        steps > text.len() - from,
        groups >= 0,
        text.len() < usize::MAX,
        !rep.contains('$'),
    ensures
        replaced(Node::Char(c), groups, steps, text, rep, from) == exchanged(text, c, rep, from),
    decreases text.len() - from,
{
    let root = Node::Char(c);
    one_character_is_tried(c, groups, steps, text, from);
    let (found, left) = search(root, groups, steps, text, from);
    search_bounds(root, groups, steps, text, from);
    if from == text.len() {
        assert(found is None);
        assert(text.subrange(from, from) =~= Seq::<char>::empty());
    } else if text[from] == c {
        single_characters_are_replaced(c, groups, (steps - 1) as nat, text, rep, from + 1);
        let caps = (found->0).2;
        references_are_filled_in(rep, '0', seq![], text, caps);
        assert(text.subrange(from, from) + rep =~= rep);
        assert(replaced(root, groups, steps, text, rep, from) =~= rep + replaced(
            root,
            groups,
            left,
            text,
            rep,
            from + 1,
        ));
    } else {
        let fewer = (steps - 1) as nat;
        single_characters_are_replaced(c, groups, fewer, text, rep, from + 1);
        search_bounds(root, groups, fewer, text, from + 1);
        assert(search(root, groups, steps, text, from) == search(root, groups, fewer, text, from + 1));
        let next = replaced(root, groups, fewer, text, rep, from + 1);
        match found {
            None => {
                assert(text.subrange(from, text.len() as int) =~= seq![text[from]] + text.subrange(
                    from + 1,
                    text.len() as int,
                ));
            },
            Some((s, e, caps)) => {
                assert(text.subrange(from, s) =~= seq![text[from]] + text.subrange(from + 1, s));
                assert(replaced(root, groups, steps, text, rep, from) =~= seq![text[from]] + next);
            },
        }
    }
}

} // verus!
