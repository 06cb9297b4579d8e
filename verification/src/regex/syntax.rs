//! Pattern syntax: the tree a pattern denotes and the parser that builds it.
//!
//! The grammar is given by the `*_at` spec functions: each says which tree
//! starts at a position of the pattern, where it ends, and how many groups
//! have been opened by then.

use vstd::prelude::*;
use crate::text::{ascii_letter, is_ascii_digit, is_ascii_letter, is_digit, to_chars};

verus! {

/// Why a pattern was refused.
#[derive(Clone, Debug, PartialEq, Eq)]
pub enum RegexError {
    /// A parenthesis has no partner.
    UnbalancedParen,
    /// A `[` is never closed.
    UnclosedClass,
    /// A quantifier has nothing to repeat.
    DanglingQuantifier,
    /// Syntax outside the supported subset, with the reason.
    Unsupported(String),
    /// A repetition inside a repetition.
    NestedRepeat,
    /// The empty pattern.
    Empty,
}

/// The mathematical reading of [`RegexError`].
pub enum Refusal {
    UnbalancedParen,
    UnclosedClass,
    DanglingQuantifier,
    Unsupported(Seq<char>),
    NestedRepeat,
    Empty,
}

impl View for RegexError {
    type V = Refusal;

    open spec fn view(&self) -> Refusal {
        match self {
            RegexError::UnbalancedParen => Refusal::UnbalancedParen,
            RegexError::UnclosedClass => Refusal::UnclosedClass,
            RegexError::DanglingQuantifier => Refusal::DanglingQuantifier,
            RegexError::Unsupported(m) => Refusal::Unsupported(m@),
            RegexError::NestedRepeat => Refusal::NestedRepeat,
            RegexError::Empty => Refusal::Empty,
        }
    }
}

/// The text of a refusal, as shown to a scheme author.
pub open spec fn refusal_text(r: Refusal) -> Seq<char> {
    match r {
        Refusal::UnbalancedParen => "括号不配对"@,
        Refusal::UnclosedClass => "字符类 `[` 没有闭合的 `]`"@,
        Refusal::DanglingQuantifier => "量词（* + ? {}）前面没有可重复的东西"@,
        Refusal::Unsupported(m) => "不支持的正则语法："@ + m
            + "。本引擎只实现拼写代数用得上的子集——遇到不支持的语法一律报错，而不是'大概能跑'"@,
        Refusal::NestedRepeat =>
            "不支持**重复套重复**（例如 `(a+)+`、`(ab*)*`）：这种写法会让回溯匹配的耗时随输入长度指数增长（实测 `^(a+)+$` 对 24 个 a 要 848 ms，28 个超过 3 秒）。同一份实现也被 `recognizer` 用，而那里的输入长度由用户决定。请把它改写成不含嵌套量词的形式，或拆成多条规则。"@,
        Refusal::Empty => "空模式"@,
    }
}

impl RegexError {
    /// The message for a scheme author.
    pub fn message(&self) -> (r: String)
        ensures
            r@ == refusal_text(self@),
    {
        match self {
            RegexError::UnbalancedParen => "括号不配对".to_owned(),
            RegexError::UnclosedClass => "字符类 `[` 没有闭合的 `]`".to_owned(),
            RegexError::DanglingQuantifier => "量词（* + ? {}）前面没有可重复的东西".to_owned(),
            RegexError::Unsupported(m) => {
                let mut s = "不支持的正则语法：".to_owned();
                s.append(m.as_str());
                s.append("。本引擎只实现拼写代数用得上的子集——遇到不支持的语法一律报错，而不是'大概能跑'");
                s
            },
            RegexError::NestedRepeat => "不支持**重复套重复**（例如 `(a+)+`、`(ab*)*`）：这种写法会让回溯匹配的耗时随输入长度指数增长（实测 `^(a+)+$` 对 24 个 a 要 848 ms，28 个超过 3 秒）。同一份实现也被 `recognizer` 用，而那里的输入长度由用户决定。请把它改写成不含嵌套量词的形式，或拆成多条规则。".to_owned(),
            RegexError::Empty => "空模式".to_owned(),
        }
    }
}

/// One member of a character class.
#[derive(Clone, Copy, Debug)]
pub enum ClassItem {
    Char(char),
    Range(char, char),
    /// `\d`, or `\D` when the flag is set.
    Digit(bool),
    /// `\w`, or `\W` when the flag is set.
    Word(bool),
    /// `\s`, or `\S` when the flag is set.
    Space(bool),
}

/// The members of a character class, in pattern order.
#[derive(Debug)]
pub enum ClassItems {
    Nil,
    Cons(ClassItem, Box<ClassItems>),
}

/// A pattern as a tree.
#[derive(Debug)]
pub enum Node {
    Empty,
    Char(char),
    Any,
    Class { neg: bool, items: ClassItems },
    Start,
    End,
    Group(Box<Node>, usize),
    Concat(Box<Nodes>),
    Alt(Box<Nodes>),
    Repeat { node: Box<Node>, min: u32, max: Option<u32> },
}

/// A list of trees, in pattern order.
#[derive(Debug)]
pub enum Nodes {
    Nil,
    Cons(Box<Node>, Box<Nodes>),
}

impl Clone for ClassItems {
    fn clone(&self) -> (r: Self)
        ensures
            r == *self,
        decreases self,
    {
        match self {
            ClassItems::Nil => ClassItems::Nil,
            ClassItems::Cons(item, rest) => ClassItems::Cons(*item, Box::new((&**rest).clone())),
        }
    }
}

impl Clone for Node {
    fn clone(&self) -> (r: Self)
        ensures
            r == *self,
        decreases self,
    {
        match self {
            Node::Empty => Node::Empty,
            Node::Char(c) => Node::Char(*c),
            Node::Any => Node::Any,
            Node::Class { neg, items } => Node::Class { neg: *neg, items: items.clone() },
            Node::Start => Node::Start,
            Node::End => Node::End,
            Node::Group(inner, idx) => Node::Group(Box::new((&**inner).clone()), *idx),
            Node::Concat(items) => Node::Concat(Box::new((&**items).clone())),
            Node::Alt(items) => Node::Alt(Box::new((&**items).clone())),
            Node::Repeat { node, min, max } => Node::Repeat {
                node: Box::new((&**node).clone()),
                min: *min,
                max: *max,
            },
        }
    }
}

impl Clone for Nodes {
    fn clone(&self) -> (r: Self)
        ensures
            r == *self,
        decreases self,
    {
        match self {
            Nodes::Nil => Nodes::Nil,
            Nodes::Cons(n, rest) => Nodes::Cons(
                Box::new((&**n).clone()),
                Box::new((&**rest).clone()),
            ),
        }
    }
}

/// Whether a repetition stands inside a repetition.
pub open spec fn nested_repeat(node: Node, inside: bool) -> bool
    decreases node,
{
    match node {
        Node::Group(inner, _) => nested_repeat(*inner, inside),
        Node::Concat(items) => nested_repeat_in(*items, inside),
        Node::Alt(items) => nested_repeat_in(*items, inside),
        Node::Repeat { node: inner, .. } => inside || nested_repeat(*inner, true),
        _ => false,
    }
}

pub open spec fn nested_repeat_in(nodes: Nodes, inside: bool) -> bool
    decreases nodes,
{
    match nodes {
        Nodes::Nil => false,
        Nodes::Cons(n, rest) => nested_repeat(*n, inside) || nested_repeat_in(*rest, inside),
    }
}

/// Decides [`nested_repeat`].
pub(crate) fn contains_nested_repeat(node: &Node, inside: bool) -> (r: bool)
    ensures
        r == nested_repeat(*node, inside),
    decreases node,
{
    match node {
        Node::Group(inner, _) => contains_nested_repeat(inner, inside),
        Node::Concat(items) => any_nested_repeat(items, inside),
        Node::Alt(items) => any_nested_repeat(items, inside),
        Node::Repeat { node: inner, .. } => {
            if inside {
                return true;
            }
            contains_nested_repeat(inner, true)
        },
        _ => false,
    }
}

fn any_nested_repeat(nodes: &Nodes, inside: bool) -> (r: bool)
    ensures
        r == nested_repeat_in(*nodes, inside),
    decreases nodes,
{
    match nodes {
        Nodes::Nil => false,
        Nodes::Cons(n, rest) => contains_nested_repeat(n, inside) || any_nested_repeat(rest, inside),
    }
}

/// The position `p`, held between `lo` and `hi`.
pub open spec fn forward(p: int, lo: int, hi: int) -> int {
    if p < lo {
        lo
    } else if p > hi {
        hi
    } else {
        p
    }
}

/// A parse step: the tree, the position after it and the groups opened so far.
pub type Parsed = Result<(Node, int, int), Refusal>;

/// Branches separated by `|`: a lone branch stands for itself.
pub open spec fn alt_at(cs: Seq<char>, pos: int, groups: int) -> Parsed
    decreases cs.len() - pos, 4int,
{
    match branches_at(cs, pos, groups) {
        Err(e) => Err(e),
        Ok((ns, p, g)) => Ok((join_branches(ns), p, g)),
    }
}

pub open spec fn join_branches(ns: Nodes) -> Node {
    match ns {
        Nodes::Cons(n, rest) => if *rest is Nil { *n } else { Node::Alt(Box::new(ns)) },
        Nodes::Nil => Node::Empty,
    }
}

pub open spec fn branches_at(cs: Seq<char>, pos: int, groups: int) -> Result<
    (Nodes, int, int),
    Refusal,
>
    decreases cs.len() - pos, 3int,
{
    match concat_at(cs, pos, groups) {
        Err(e) => Err(e),
        Ok((n, p, g)) => if pos <= p < cs.len() && cs[p] == '|' {
            match branches_at(cs, p + 1, g) {
                Err(e) => Err(e),
                Ok((rest, p2, g2)) => Ok((Nodes::Cons(Box::new(n), Box::new(rest)), p2, g2)),
            }
        } else {
            Ok((Nodes::Cons(Box::new(n), Box::new(Nodes::Nil)), p, g))
        },
    }
}

/// Items one after the other, up to `|`, `)` or the end.
pub open spec fn concat_at(cs: Seq<char>, pos: int, groups: int) -> Parsed
    decreases cs.len() - pos, 2int,
{
    match items_at(cs, pos, groups) {
        Err(e) => Err(e),
        Ok((ns, p, g)) => Ok((join_items(ns), p, g)),
    }
}

pub open spec fn join_items(ns: Nodes) -> Node {
    match ns {
        Nodes::Nil => Node::Empty,
        Nodes::Cons(n, rest) => if *rest is Nil { *n } else { Node::Concat(Box::new(ns)) },
    }
}

pub open spec fn items_at(cs: Seq<char>, pos: int, groups: int) -> Result<
    (Nodes, int, int),
    Refusal,
>
    decreases cs.len() - pos, 1int,
{
    if pos < 0 || pos >= cs.len() || cs[pos] == '|' || cs[pos] == ')' {
        Ok((Nodes::Nil, pos, groups))
    } else {
        match atom_at(cs, pos, groups) {
            Err(e) => Err(e),
            Ok((atom, p, g)) => match quantifier_at(cs, p, atom) {
                Err(e) => Err(e),
                Ok((n, p2)) => match items_at(cs, forward(p2, pos + 1, cs.len() as int), g) {
                    Err(e) => Err(e),
                    Ok((rest, p3, g3)) => Ok(
                        (Nodes::Cons(Box::new(n), Box::new(rest)), p3, g3),
                    ),
                },
            },
        }
    }
}

/// One unquantified item.
pub open spec fn atom_at(cs: Seq<char>, pos: int, groups: int) -> Parsed
    decreases cs.len() - pos, 0int,
{
    if pos < 0 || pos >= cs.len() {
        Err(Refusal::DanglingQuantifier)
    } else {
        let c = cs[pos];
        if c == '(' {
            if pos + 1 < cs.len() && cs[pos + 1] == '?' {
                Err(Refusal::Unsupported("`(?` 开头的分组（环视、非捕获组、命名组）"@))
            } else {
                match alt_at(cs, pos + 1, groups + 1) {
                    Err(e) => Err(e),
                    Ok((inner, p, g)) => if 0 <= p < cs.len() && cs[p] == ')' {
                        Ok((Node::Group(Box::new(inner), (groups + 1) as usize), p + 1, g))
                    } else {
                        Err(Refusal::UnbalancedParen)
                    },
                }
            }
        } else if c == ')' {
            Err(Refusal::UnbalancedParen)
        } else if c == '[' {
            let neg = pos + 1 < cs.len() && cs[pos + 1] == '^';
            match class_items_at(cs, if neg { pos + 2 } else { pos + 1 }, true) {
                Err(e) => Err(e),
                Ok((items, p)) => Ok((Node::Class { neg, items }, p, groups)),
            }
        } else if c == '.' {
            Ok((Node::Any, pos + 1, groups))
        } else if c == '^' {
            Ok((Node::Start, pos + 1, groups))
        } else if c == '$' {
            Ok((Node::End, pos + 1, groups))
        } else if c == '\\' {
            if pos + 1 >= cs.len() {
                Err(Refusal::Unsupported("末尾的反斜杠"@))
            } else {
                match escape(cs[pos + 1]) {
                    Err(e) => Err(e),
                    Ok(n) => Ok((n, pos + 2, groups)),
                }
            }
        } else if c == '*' || c == '+' || c == '?' {
            Err(Refusal::DanglingQuantifier)
        } else {
            Ok((Node::Char(c), pos + 1, groups))
        }
    }
}

pub open spec fn single(item: ClassItem) -> Node {
    Node::Class { neg: false, items: ClassItems::Cons(item, Box::new(ClassItems::Nil)) }
}

/// The predefined class that `\e` names, if it names one.
pub open spec fn predefined(e: char) -> Option<ClassItem> {
    if e == 'd' {
        Some(ClassItem::Digit(false))
    } else if e == 'D' {
        Some(ClassItem::Digit(true))
    } else if e == 'w' {
        Some(ClassItem::Word(false))
    } else if e == 'W' {
        Some(ClassItem::Word(true))
    } else if e == 's' {
        Some(ClassItem::Space(false))
    } else if e == 'S' {
        Some(ClassItem::Space(true))
    } else {
        None
    }
}

/// Whether `\e` looks like the name of a class and is none: `\p` and the like.
pub open spec fn names_nothing(e: char) -> bool {
    is_ascii_letter(e) && predefined(e) is None
}

/// Why such a name is refused.
pub open spec fn unknown_class() -> Refusal {
    Refusal::Unsupported("不认识的预定义类（例如 Unicode 属性类 `\\p`）"@)
}

/// What `\e` stands for outside a class.
pub open spec fn escape(e: char) -> Result<Node, Refusal> {
    match predefined(e) {
        Some(item) => Ok(single(item)),
        None => if '1' <= e && e <= '9' {
            Err(Refusal::Unsupported("反向引用（`\\1`）。替换式里用 `$1` 引用捕获组"@))
        } else if names_nothing(e) {
            Err(unknown_class())
        } else {
            Ok(Node::Char(e))
        },
    }
}

/// The members of a class up to its `]`; a `]` in first place is a member.
pub open spec fn class_items_at(cs: Seq<char>, pos: int, first: bool) -> Result<
    (ClassItems, int),
    Refusal,
>
    decreases cs.len() - pos,
{
    if pos < 0 || pos >= cs.len() {
        Err(Refusal::UnclosedClass)
    } else if cs[pos] == ']' && !first {
        Ok((ClassItems::Nil, pos + 1))
    } else if cs[pos] == '\\' && pos + 1 >= cs.len() {
        Err(Refusal::UnclosedClass)
    } else if cs[pos] == '\\' && names_nothing(cs[pos + 1]) {
        Err(unknown_class())
    } else {
        let (item, next) = class_item_at(cs, pos);
        match class_items_at(cs, next, false) {
            Err(e) => Err(e),
            Ok((rest, p)) => Ok((ClassItems::Cons(item, Box::new(rest)), p)),
        }
    }
}

/// The class member at `pos` and the position after it.
pub open spec fn class_item_at(cs: Seq<char>, pos: int) -> (ClassItem, int) {
    let c = cs[pos];
    if c == ']' {
        (ClassItem::Char(']'), pos + 1)
    } else if c == '\\' {
        let e = cs[pos + 1];
        (
            match predefined(e) {
                Some(item) => item,
                None => ClassItem::Char(e),
            },
            pos + 2,
        )
    } else if pos + 2 < cs.len() && cs[pos + 1] == '-' && cs[pos + 2] != ']' {
        (ClassItem::Range(c, cs[pos + 2]), pos + 3)
    } else {
        (ClassItem::Char(c), pos + 1)
    }
}

/// The end of the digits that start at `pos`.
pub open spec fn digits_end(cs: Seq<char>, pos: int) -> int
    decreases cs.len() - pos,
{
    if 0 <= pos < cs.len() && is_digit(cs[pos]) {
        digits_end(cs, pos + 1)
    } else {
        pos
    }
}

/// The number that the digits from `a` to `b` write.
pub open spec fn digits_value(cs: Seq<char>, a: int, b: int) -> int
    decreases b - a,
{
    if a >= b {
        0
    } else {
        10 * digits_value(cs, a, b - 1) + (cs[b - 1] as int - '0' as int)
    }
}

/// Bounds that a quantifier at `pos` states and the position after it;
/// `None` where no quantifier stands there.
pub open spec fn bounds_at(cs: Seq<char>, pos: int) -> Result<
    Option<(u32, Option<u32>, int)>,
    Refusal,
> {
    if pos < 0 || pos >= cs.len() {
        Ok(None)
    } else if cs[pos] == '*' {
        Ok(Some((0, None, pos + 1)))
    } else if cs[pos] == '+' {
        Ok(Some((1, None, pos + 1)))
    } else if cs[pos] == '?' {
        Ok(Some((0, Some(1), pos + 1)))
    } else if cs[pos] == '{' {
        let a = pos + 1;
        let b = digits_end(cs, a);
        if b == a {
            Ok(None)
        } else if digits_value(cs, a, b) > u32::MAX {
            Err(Refusal::Unsupported("{n} 太大"@))
        } else {
            let lo = digits_value(cs, a, b) as u32;
            if b < cs.len() && cs[b] == '}' {
                Ok(Some((lo, Some(lo), b + 1)))
            } else if b < cs.len() && cs[b] == ',' {
                let d = digits_end(cs, b + 1);
                if !(d < cs.len() && cs[d] == '}') {
                    Err(Refusal::Unsupported("`{n,m}` 没有闭合"@))
                } else if d == b + 1 {
                    Ok(Some((lo, None, d + 1)))
                } else if digits_value(cs, b + 1, d) > u32::MAX {
                    Err(Refusal::Unsupported("{n,m} 太大"@))
                } else {
                    Ok(Some((lo, Some(digits_value(cs, b + 1, d) as u32), d + 1)))
                }
            } else {
                Err(Refusal::Unsupported("`{` 量词没有闭合"@))
            }
        }
    } else {
        Ok(None)
    }
}

/// `atom` with the quantifier at `pos`, if one stands there.
pub open spec fn quantifier_at(cs: Seq<char>, pos: int, atom: Node) -> Result<
    (Node, int),
    Refusal,
> {
    match bounds_at(cs, pos) {
        Err(e) => Err(e),
        Ok(None) => Ok((atom, pos)),
        Ok(Some((min, max, p))) => if 0 <= p < cs.len() && cs[p] == '?' {
            Err(Refusal::Unsupported("非贪婪量词 `*?`"@))
        } else if 0 <= p < cs.len() && cs[p] == '+' {
            Err(Refusal::Unsupported("占有量词 `*+`"@))
        } else {
            Ok((Node::Repeat { node: Box::new(atom), min, max }, p))
        },
    }
}

/// The tree and the number of groups of a whole pattern, or why it is refused.
pub open spec fn parse(cs: Seq<char>) -> Result<(Node, int), Refusal> {
    if cs.len() == 0 {
        Err(Refusal::Empty)
    } else {
        match alt_at(cs, 0, 0) {
            Err(e) => Err(e),
            Ok((root, p, g)) => if p != cs.len() {
                Err(Refusal::UnbalancedParen)
            } else if nested_repeat(root, false) {
                Err(Refusal::NestedRepeat)
            } else {
                Ok((root, g))
            },
        }
    }
}

fn refuse_class() -> (r: RegexError)
    ensures
        r@ == unknown_class(),
{
    RegexError::Unsupported("不认识的预定义类（例如 Unicode 属性类 `\\p`）".to_owned())
}

struct Parser {
    chars: Vec<char>,
    pos: usize,
    groups: usize,
}

/// What a parser method that returned `r` has done, as a grammar result.
spec fn step<T>(r: Result<T, RegexError>, after: Parser) -> Result<(T, int, int), Refusal> {
    match r {
        Ok(n) => Ok((n, after.pos as int, after.groups as int)),
        Err(e) => Err(e@),
    }
}

spec fn step2<T>(r: Result<T, RegexError>, after: Parser) -> Result<(T, int), Refusal> {
    match r {
        Ok(n) => Ok((n, after.pos as int)),
        Err(e) => Err(e@),
    }
}

impl Parser {
    spec fn wf(self) -> bool {
        self.groups <= self.pos <= self.chars.len()
    }

    /// Same pattern, and the cursor has moved from `before` by at least `n`.
    spec fn past(self, before: Parser, n: int) -> bool {
        &&& self.chars@ == before.chars@
        &&& self.wf()
        &&& self.pos >= before.pos + n
    }

    /// Whether the next character is `c`.
    fn at(&self, c: char) -> (r: bool)
        requires
            self.wf(),
        ensures
            r == (self.pos < self.chars@.len() && self.chars@[self.pos as int] == c),
    {
        self.pos < self.chars.len() && self.chars[self.pos] == c
    }

    fn parse_alt(&mut self) -> (r: Result<Node, RegexError>)
        requires
            old(self).wf(),
        ensures
            step(r, *final(self)) == alt_at(
                old(self).chars@,
                old(self).pos as int,
                old(self).groups as int,
            ),
            r is Ok ==> final(self).past(*old(self), 0),
            final(self).chars@ == old(self).chars@,
        decreases old(self).chars@.len() - old(self).pos, 4int,
    {
        let branches = self.parse_branches()?;
        Ok(
            match branches {
                Nodes::Cons(n, rest) => match *rest {
                    Nodes::Nil => *n,
                    rest => Node::Alt(Box::new(Nodes::Cons(n, Box::new(rest)))),
                },
                Nodes::Nil => Node::Empty,
            },
        )
    }

    fn parse_branches(&mut self) -> (r: Result<Nodes, RegexError>)
        requires
            old(self).wf(),
        ensures
            step(r, *final(self)) == branches_at(
                old(self).chars@,
                old(self).pos as int,
                old(self).groups as int,
            ),
            r is Ok ==> final(self).past(*old(self), 0),
            final(self).chars@ == old(self).chars@,
        decreases old(self).chars@.len() - old(self).pos, 3int,
    {
        let n = self.parse_concat()?;
        if self.at('|') {
            self.pos += 1;
            let rest = self.parse_branches()?;
            Ok(Nodes::Cons(Box::new(n), Box::new(rest)))
        } else {
            Ok(Nodes::Cons(Box::new(n), Box::new(Nodes::Nil)))
        }
    }

    fn parse_concat(&mut self) -> (r: Result<Node, RegexError>)
        requires
            old(self).wf(),
        ensures
            step(r, *final(self)) == concat_at(
                old(self).chars@,
                old(self).pos as int,
                old(self).groups as int,
            ),
            r is Ok ==> final(self).past(*old(self), 0),
            final(self).chars@ == old(self).chars@,
        decreases old(self).chars@.len() - old(self).pos, 2int,
    {
        let items = self.parse_items()?;
        Ok(
            match items {
                Nodes::Nil => Node::Empty,
                Nodes::Cons(n, rest) => match *rest {
                    Nodes::Nil => *n,
                    rest => Node::Concat(Box::new(Nodes::Cons(n, Box::new(rest)))),
                },
            },
        )
    }

    fn parse_items(&mut self) -> (r: Result<Nodes, RegexError>)
        requires
            old(self).wf(),
        ensures
            step(r, *final(self)) == items_at(
                old(self).chars@,
                old(self).pos as int,
                old(self).groups as int,
            ),
            r is Ok ==> final(self).past(*old(self), 0),
            final(self).chars@ == old(self).chars@,
        decreases old(self).chars@.len() - old(self).pos, 1int,
    {
        if self.pos >= self.chars.len() || self.at('|') || self.at(')') {
            return Ok(Nodes::Nil);
        }
        let atom = self.parse_atom()?;
        let n = self.parse_quantifier(atom)?;
        let rest = self.parse_items()?;
        Ok(Nodes::Cons(Box::new(n), Box::new(rest)))
    }

    fn parse_atom(&mut self) -> (r: Result<Node, RegexError>)
        requires
            old(self).wf(),
        ensures
            step(r, *final(self)) == atom_at(
                old(self).chars@,
                old(self).pos as int,
                old(self).groups as int,
            ),
            r is Ok ==> final(self).past(*old(self), 1),
            final(self).chars@ == old(self).chars@,
        decreases old(self).chars@.len() - old(self).pos, 0int,
    {
        if self.pos >= self.chars.len() {
            return Err(RegexError::DanglingQuantifier);
        }
        let c = self.chars[self.pos];
        self.pos += 1;
        if c == '(' {
            if self.at('?') {
                return Err(
                    RegexError::Unsupported(
                        "`(?` 开头的分组（环视、非捕获组、命名组）".to_owned(),
                    ),
                );
            }
            self.groups += 1;
            let idx: usize = self.groups;
            let inner = self.parse_alt()?;
            if !self.at(')') {
                return Err(RegexError::UnbalancedParen);
            }
            self.pos += 1;
            Ok(Node::Group(Box::new(inner), idx))
        } else if c == ')' {
            Err(RegexError::UnbalancedParen)
        } else if c == '[' {
            self.parse_class()
        } else if c == '.' {
            Ok(Node::Any)
        } else if c == '^' {
            Ok(Node::Start)
        } else if c == '$' {
            Ok(Node::End)
        } else if c == '\\' {
            self.parse_escape()
        } else if c == '*' || c == '+' || c == '?' {
            Err(RegexError::DanglingQuantifier)
        } else {
            Ok(Node::Char(c))
        }
    }

    /// The escape whose backslash has just been read.
    fn parse_escape(&mut self) -> (r: Result<Node, RegexError>)
        requires
            old(self).wf(),
        ensures
            step2(r, *final(self)) == (if old(self).pos >= old(self).chars@.len() {
                Err(Refusal::Unsupported("末尾的反斜杠"@))
            } else {
                match escape(old(self).chars@[old(self).pos as int]) {
                    Err(e) => Err(e),
                    Ok(n) => Ok((n, old(self).pos + 1)),
                }
            }),
            r is Ok ==> final(self).past(*old(self), 1),
            final(self).chars@ == old(self).chars@,
            final(self).groups == old(self).groups,
    {
        if self.pos >= self.chars.len() {
            return Err(RegexError::Unsupported("末尾的反斜杠".to_owned()));
        }
        let e = self.chars[self.pos];
        self.pos += 1;
        match predefined_class(e) {
            Some(item) => Ok(
                Node::Class { neg: false, items: ClassItems::Cons(item, Box::new(ClassItems::Nil)) },
            ),
            None => if '1' <= e && e <= '9' {
                Err(
                    RegexError::Unsupported(
                        "反向引用（`\\1`）。替换式里用 `$1` 引用捕获组".to_owned(),
                    ),
                )
            } else if ascii_letter(e) {
                Err(refuse_class())
            } else {
                Ok(Node::Char(e))
            },
        }
    }

    /// The class whose `[` has just been read.
    fn parse_class(&mut self) -> (r: Result<Node, RegexError>)
        requires
            old(self).wf(),
        ensures
            ({
                let cs = old(self).chars@;
                let pos = old(self).pos as int;
                let neg = pos < cs.len() && cs[pos] == '^';
                step2(r, *final(self)) == (match class_items_at(
                    cs,
                    if neg { pos + 1 } else { pos },
                    true,
                ) {
                    Err(e) => Err(e),
                    Ok((items, p)) => Ok((Node::Class { neg, items }, p)),
                })
            }),
            r is Ok ==> final(self).past(*old(self), 1),
            final(self).chars@ == old(self).chars@,
            final(self).groups == old(self).groups,
    {
        let neg = self.at('^');
        if neg {
            self.pos += 1;
        }
        let items = self.parse_class_items(true)?;
        Ok(Node::Class { neg, items })
    }

    fn parse_class_items(&mut self, first: bool) -> (r: Result<ClassItems, RegexError>)
        requires
            old(self).wf(),
        ensures
            step2(r, *final(self)) == class_items_at(
                old(self).chars@,
                old(self).pos as int,
                first,
            ),
            r is Ok ==> final(self).past(*old(self), 1),
            final(self).chars@ == old(self).chars@,
            final(self).groups == old(self).groups,
        decreases old(self).chars@.len() - old(self).pos,
    {
        if self.pos >= self.chars.len() {
            return Err(RegexError::UnclosedClass);
        }
        let c = self.chars[self.pos];
        self.pos += 1;
        if c == ']' {
            if !first {
                return Ok(ClassItems::Nil);
            }
            let rest = self.parse_class_items(false)?;
            return Ok(ClassItems::Cons(ClassItem::Char(']'), Box::new(rest)));
        }
        let item = if c == '\\' {
            if self.pos >= self.chars.len() {
                return Err(RegexError::UnclosedClass);
            }
            let e = self.chars[self.pos];
            self.pos += 1;
            match predefined_class(e) {
                Some(item) => item,
                None => {
                    if ascii_letter(e) {
                        return Err(refuse_class());
                    }
                    ClassItem::Char(e)
                },
            }
        } else if self.at('-') && self.chars.len() - self.pos > 1 && self.chars[self.pos + 1]
            != ']' {
            let hi = self.chars[self.pos + 1];
            self.pos += 2;
            ClassItem::Range(c, hi)
        } else {
            ClassItem::Char(c)
        };
        let rest = self.parse_class_items(false)?;
        Ok(ClassItems::Cons(item, Box::new(rest)))
    }

    /// Reads digits; the value is `None` when it does not fit.
    fn parse_digits(&mut self) -> (r: Option<u32>)
        requires
            old(self).wf(),
        ensures
            final(self).past(*old(self), 0),
            final(self).groups == old(self).groups,
            final(self).pos == digits_end(old(self).chars@, old(self).pos as int),
            ({
                let v = digits_value(old(self).chars@, old(self).pos as int, final(self).pos as int);
                r == (if v > u32::MAX { None } else { Some(v as u32) })
            }),
    {
        let start: usize = self.pos;
        let mut value: u64 = 0;
        let mut fits: bool = true;
        let ghost cs = self.chars@;
        while self.pos < self.chars.len() && is_ascii_digit(self.chars[self.pos])
            invariant
                self.chars@ == cs,
                cs == old(self).chars@,
                start == old(self).pos,
                self.wf(),
                start <= self.pos,
                self.groups == old(self).groups,
                digits_end(cs, start as int) == digits_end(cs, self.pos as int),
                fits ==> value == digits_value(cs, start as int, self.pos as int) && value
                    <= u32::MAX,
                !fits ==> digits_value(cs, start as int, self.pos as int) > u32::MAX,
            decreases self.chars.len() - self.pos,
        {
            let d: u64 = (self.chars[self.pos] as u64) - 48;
            if fits {
                value = value * 10 + d;
                if value > u32::MAX as u64 {
                    fits = false;
                }
            }
            self.pos += 1;
        }
        if fits {
            Some(value as u32)
        } else {
            None
        }
    }

    /// The bounds stated by a quantifier, if one stands at the cursor.
    fn parse_bounds(&mut self) -> (r: Result<Option<(u32, Option<u32>)>, RegexError>)
        requires
            old(self).wf(),
        ensures
            match bounds_at(old(self).chars@, old(self).pos as int) {
                Err(e) => r matches Err(x) && x@ == e,
                Ok(None) => r matches Ok(None) && final(self).pos == old(self).pos,
                Ok(Some((min, max, p))) => r == Ok::<_, RegexError>(Some((min, max)))
                    && final(self).pos == p,
            },
            r is Ok ==> final(self).past(*old(self), 0),
            final(self).chars@ == old(self).chars@,
            final(self).groups == old(self).groups,
    {
        if self.at('*') {
            self.pos += 1;
            return Ok(Some((0, None)));
        }
        if self.at('+') {
            self.pos += 1;
            return Ok(Some((1, None)));
        }
        if self.at('?') {
            self.pos += 1;
            return Ok(Some((0, Some(1))));
        }
        if !self.at('{') {
            return Ok(None);
        }
        let save: usize = self.pos;
        self.pos += 1;
        let low = self.parse_digits();
        if self.pos == save + 1 {
            self.pos = save;
            return Ok(None);
        }
        let lo: u32 = match low {
            Some(v) => v,
            None => return Err(RegexError::Unsupported("{n} 太大".to_owned())),
        };
        if self.at('}') {
            self.pos += 1;
            return Ok(Some((lo, Some(lo))));
        }
        if !self.at(',') {
            return Err(RegexError::Unsupported("`{` 量词没有闭合".to_owned()));
        }
        self.pos += 1;
        let from: usize = self.pos;
        let high = self.parse_digits();
        if !self.at('}') {
            return Err(RegexError::Unsupported("`{n,m}` 没有闭合".to_owned()));
        }
        let empty = self.pos == from;
        self.pos += 1;
        if empty {
            return Ok(Some((lo, None)));
        }
        match high {
            Some(v) => Ok(Some((lo, Some(v)))),
            None => Err(RegexError::Unsupported("{n,m} 太大".to_owned())),
        }
    }

    fn parse_quantifier(&mut self, atom: Node) -> (r: Result<Node, RegexError>)
        requires
            old(self).wf(),
        ensures
            step2(r, *final(self)) == quantifier_at(
                old(self).chars@,
                old(self).pos as int,
                atom,
            ),
            r is Ok ==> final(self).past(*old(self), 0),
            final(self).chars@ == old(self).chars@,
            final(self).groups == old(self).groups,
    {
        match self.parse_bounds()? {
            None => Ok(atom),
            Some((min, max)) => {
                if self.at('?') {
                    return Err(RegexError::Unsupported("非贪婪量词 `*?`".to_owned()));
                }
                if self.at('+') {
                    return Err(RegexError::Unsupported("占有量词 `*+`".to_owned()));
                }
                Ok(Node::Repeat { node: Box::new(atom), min, max })
            },
        }
    }
}

/// Parses a whole pattern into its tree and its number of groups.
pub(crate) fn parse_pattern(pattern: &str) -> (r: Result<(Node, usize), RegexError>)
    ensures
        match parse(pattern@) {
            Err(e) => r matches Err(x) && x@ == e,
            Ok((root, groups)) => r == Ok::<(Node, usize), RegexError>((root, groups as usize))
                && groups == groups as usize,
        },
{
    if pattern.is_empty() {
        return Err(RegexError::Empty);
    }
    let mut p = Parser { chars: to_chars(pattern), pos: 0, groups: 0 };
    let root = p.parse_alt()?;
    if p.pos != p.chars.len() {
        return Err(RegexError::UnbalancedParen);
    }
    if contains_nested_repeat(&root, false) {
        return Err(RegexError::NestedRepeat);
    }
    Ok((root, p.groups))
}

fn predefined_class(e: char) -> (r: Option<ClassItem>)
    ensures
        r == predefined(e),
{
    match e {
        'd' => Some(ClassItem::Digit(false)),
        'D' => Some(ClassItem::Digit(true)),
        'w' => Some(ClassItem::Word(false)),
        'W' => Some(ClassItem::Word(true)),
        's' => Some(ClassItem::Space(false)),
        'S' => Some(ClassItem::Space(true)),
        _ => None,
    }
}

/// Whether a character stands for itself in a pattern.
pub open spec fn stands_for_itself(c: char) -> bool {
    c != '(' && c != ')' && c != '[' && c != '{' && c != '|' && c != '.' && c != '^' && c != '$' && c
        != '\\' && c != '*' && c != '+' && c != '?'
}

/// The characters of a text from `pos` on, one tree each.
pub open spec fn letter_by_letter(cs: Seq<char>, pos: int) -> Nodes
    decreases cs.len() - pos,
{
    if pos < 0 || pos >= cs.len() {
        Nodes::Nil
    } else {
        Nodes::Cons(Box::new(Node::Char(cs[pos])), Box::new(letter_by_letter(cs, pos + 1)))
    }
}

proof fn letters_are_items(cs: Seq<char>, pos: int, groups: int)
    requires
        0 <= pos <= cs.len(),
        forall|i: int| 0 <= i < cs.len() ==> stands_for_itself(#[trigger] cs[i]),
    ensures
        items_at(cs, pos, groups) == Ok::<(Nodes, int, int), Refusal>(
            (letter_by_letter(cs, pos), cs.len() as int, groups),
        ),
        !nested_repeat_in(letter_by_letter(cs, pos), false),
    decreases cs.len() - pos,
{
    reveal_with_fuel(nested_repeat_in, 2);
    reveal_with_fuel(nested_repeat, 2);
    if pos < cs.len() {
        assert(stands_for_itself(cs[pos]));
        letters_are_items(cs, pos + 1, groups);
        assert(!nested_repeat(Node::Char(cs[pos]), false));
        if pos + 1 < cs.len() {
            assert(stands_for_itself(cs[pos + 1]));
        }
        assert(atom_at(cs, pos, groups) == Ok::<(Node, int, int), Refusal>(
            (Node::Char(cs[pos]), pos + 1, groups),
        ));
        assert(quantifier_at(cs, pos + 1, Node::Char(cs[pos])) == Ok::<(Node, int), Refusal>(
            (Node::Char(cs[pos]), pos + 1),
        ));
    }
}

/// A pattern without special characters is read letter by letter, and has no
/// groups.
pub proof fn plain_patterns_are_read_by_letters(cs: Seq<char>)
    requires
        cs.len() > 0,
        forall|i: int| 0 <= i < cs.len() ==> stands_for_itself(#[trigger] cs[i]),
    ensures
        parse(cs) == Ok::<(Node, int), Refusal>((join_items(letter_by_letter(cs, 0)), 0)),
{
    letters_are_items(cs, 0, 0);
}

/// What the signs of repetition mean, wherever they stand: any number, at least
/// one, at most one.
pub proof fn signs_of_repetition(cs: Seq<char>, pos: int)
    requires
        0 <= pos < cs.len(),
    ensures
        bounds_at(cs, pos) matches Ok(b) ==> {
            &&& cs[pos] == '*' ==> b == Some((0u32, None::<u32>, pos + 1))
            &&& cs[pos] == '+' ==> b == Some((1u32, None::<u32>, pos + 1))
            &&& cs[pos] == '?' ==> b == Some((0u32, Some(1u32), pos + 1))
            &&& stands_for_itself(cs[pos]) ==> b is None
        },
        cs[pos] != '{' ==> bounds_at(cs, pos) is Ok,
{
}

} // verus!
