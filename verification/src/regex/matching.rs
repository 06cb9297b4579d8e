//! Backtracking matching with a step budget and a depth limit.
//!
//! The `run_*` spec functions define the search exactly: alternatives from
//! left to right, repetitions greedily, and one step for each tree visited. An
//! attempt that reaches the end of the budget or the depth limit is over: it
//! counts as no match, whatever was still to be tried. What is still to be
//! matched after a tree is a [`Cont`].

use vstd::prelude::*;
use crate::regex::syntax::{
    join_items, letter_by_letter, parse, plain_patterns_are_read_by_letters, stands_for_itself,
    ClassItem, ClassItems, Node, Nodes,
};
use crate::text::{
    char_is_alphanumeric, char_is_whitespace, is_alphanumeric, is_ascii_digit, is_digit,
    is_whitespace,
};

verus! {

/// The deepest nesting of groups, branches and repetitions that is followed.
pub const MAX_DEPTH: u32 = 1024;

/// The part of the text that each group matched.
pub type Caps = Seq<Option<(usize, usize)>>;

/// What remains to be matched after a tree.
pub enum Cont<'a> {
    /// Nothing; the text has to be used up where the flag is set.
    Done(bool),
    /// The rest of a concatenation.
    Then { rest: &'a Nodes, depth: u32, next: &'a Cont<'a> },
    /// The end of group `idx`, which began at `start`.
    Close { idx: usize, start: usize, next: &'a Cont<'a> },
    /// More rounds of a repetition, of which `done` came before the one that
    /// began at `from`.
    Again {
        node: &'a Node,
        min: u32,
        max: Option<u32>,
        done: u32,
        from: usize,
        depth: u32,
        next: &'a Cont<'a>,
    },
}

pub open spec fn height(k: Cont) -> nat
    decreases k,
{
    match k {
        Cont::Done(_) => 0,
        Cont::Then { next, .. } => height(*next) + 1,
        Cont::Close { next, .. } => height(*next) + 1,
        Cont::Again { next, .. } => height(*next) + 1,
    }
}

pub open spec fn node_count(ns: Nodes) -> nat
    decreases ns,
{
    match ns {
        Nodes::Nil => 0,
        Nodes::Cons(_, rest) => node_count(*rest) + 1,
    }
}

/// One level deeper. Levels past the limit all fail alike, so they are not
/// told apart.
pub open spec fn deeper(depth: u32) -> u32 {
    if depth > MAX_DEPTH {
        depth
    } else {
        (depth + 1) as u32
    }
}

/// One more round; the count stays at the largest number.
pub open spec fn one_more(done: u32) -> u32 {
    if done == u32::MAX {
        done
    } else {
        (done + 1) as u32
    }
}

pub open spec fn item_hit(item: ClassItem, c: char) -> bool {
    match item {
        ClassItem::Char(x) => x == c,
        ClassItem::Range(a, b) => a <= c && c <= b,
        ClassItem::Digit(neg) => is_digit(c) != neg,
        ClassItem::Word(neg) => (char_is_alphanumeric(c) || c == '_') != neg,
        ClassItem::Space(neg) => char_is_whitespace(c) != neg,
    }
}

pub open spec fn items_hit(items: ClassItems, c: char) -> bool
    decreases items,
{
    match items {
        ClassItems::Nil => false,
        ClassItems::Cons(item, rest) => item_hit(item, c) || items_hit(*rest, c),
    }
}

/// Whether a class holds `c`.
pub open spec fn class_hit(neg: bool, items: ClassItems, c: char) -> bool {
    items_hit(items, c) != neg
}

pub open spec fn set_cap(caps: Caps, idx: usize, start: int, end: int) -> Caps {
    if idx < caps.len() {
        caps.update(idx as int, Some((start as usize, end as usize)))
    } else {
        caps
    }
}

/// The budget left over, which an attempt never raises.
pub open spec fn left_of(after: nat, before: nat) -> nat {
    if after <= before {
        after
    } else {
        before
    }
}

/// What came of an attempt.
pub enum Verdict {
    /// It succeeded: where the whole match ends, and what the groups hold.
    Hit(int, Caps),
    /// Everything was tried, and nothing matched.
    Miss,
    /// The budget or the depth limit was reached before everything was tried.
    Spent,
}

/// What came of an attempt, and the steps left in the budget.
pub type Outcome = (Verdict, nat);

/// Where a successful outcome ends.
pub open spec fn end_of(r: Outcome) -> int {
    match r.0 {
        Verdict::Hit(e, _) => e,
        _ => 0,
    }
}

/// Matches `node` at `pos` and then what `k` says.
pub open spec fn run_node(
    node: Node,
    text: Seq<char>,
    pos: int,
    caps: Caps,
    steps: nat,
    depth: u32,
    k: Cont,
) -> Outcome
    decreases steps, 0nat, 0nat,
{
    if steps == 0 || depth > MAX_DEPTH {
        (Verdict::Spent, steps)
    } else {
        let s = (steps - 1) as nat;
        match node {
            Node::Empty => resume(k, text, pos, caps, s),
            Node::Char(c) => if 0 <= pos < text.len() && text[pos] == c {
                resume(k, text, pos + 1, caps, s)
            } else {
                (Verdict::Miss, s)
            },
            Node::Any => if 0 <= pos < text.len() {
                resume(k, text, pos + 1, caps, s)
            } else {
                (Verdict::Miss, s)
            },
            Node::Class { neg, items } => if 0 <= pos < text.len() && class_hit(
                neg,
                items,
                text[pos],
            ) {
                resume(k, text, pos + 1, caps, s)
            } else {
                (Verdict::Miss, s)
            },
            Node::Start => if pos == 0 {
                resume(k, text, pos, caps, s)
            } else {
                (Verdict::Miss, s)
            },
            Node::End => if pos == text.len() {
                resume(k, text, pos, caps, s)
            } else {
                (Verdict::Miss, s)
            },
            Node::Group(inner, idx) => run_node(
                *inner,
                text,
                pos,
                caps,
                s,
                deeper(depth),
                Cont::Close { idx, start: pos as usize, next: &k },
            ),
            Node::Concat(items) => run_seq(*items, text, pos, caps, s, depth, k),
            Node::Alt(branches) => run_alt(*branches, text, pos, caps, s, deeper(depth), k),
            Node::Repeat { node: inner, min, max } => run_repeat(
                *inner,
                text,
                pos,
                caps,
                s,
                depth,
                min,
                max,
                0,
                k,
            ),
        }
    }
}

/// Matches a list of trees one after the other.
pub open spec fn run_seq(
    items: Nodes,
    text: Seq<char>,
    pos: int,
    caps: Caps,
    steps: nat,
    depth: u32,
    k: Cont,
) -> Outcome
    decreases steps, height(k), 2nat,
{
    match items {
        Nodes::Nil => resume(k, text, pos, caps, steps),
        Nodes::Cons(head, rest) => run_node(
            *head,
            text,
            pos,
            caps,
            steps,
            depth,
            Cont::Then { rest: &*rest, depth, next: &k },
        ),
    }
}

/// Tries the branches from left to right.
pub open spec fn run_alt(
    branches: Nodes,
    text: Seq<char>,
    pos: int,
    caps: Caps,
    steps: nat,
    depth: u32,
    k: Cont,
) -> Outcome
    decreases steps, node_count(branches), 3nat,
{
    match branches {
        Nodes::Nil => (Verdict::Miss, steps),
        Nodes::Cons(b, rest) => {
            let r = run_node(*b, text, pos, caps, steps, depth, k);
            if r.0 is Miss {
                run_alt(*rest, text, pos, caps, left_of(r.1, steps), depth, k)
            } else {
                r
            }
        },
    }
}

/// Tries one more round first, then goes on without it. A round that matches
/// nothing does not count as one.
pub open spec fn run_repeat(
    node: Node,
    text: Seq<char>,
    pos: int,
    caps: Caps,
    steps: nat,
    depth: u32,
    min: u32,
    max: Option<u32>,
    done: u32,
    k: Cont,
) -> Outcome
    decreases steps, height(k), 2nat,
{
    let more: Outcome = if max is None || done < max->0 {
        run_node(
            node,
            text,
            pos,
            caps,
            steps,
            deeper(depth),
            Cont::Again { node: &node, min, max, done, from: pos as usize, depth, next: &k },
        )
    } else {
        (Verdict::Miss, steps)
    };
    let s = left_of(more.1, steps);
    if !(more.0 is Miss) {
        (more.0, s)
    } else if done >= min {
        resume(k, text, pos, caps, s)
    } else {
        (Verdict::Miss, s)
    }
}

/// Goes on with `k` at `pos`.
pub open spec fn resume(k: Cont, text: Seq<char>, pos: int, caps: Caps, steps: nat) -> Outcome
    decreases steps, height(k), 1nat,
{
    match k {
        Cont::Done(to_end) => if to_end && pos != text.len() {
            (Verdict::Miss, steps)
        } else {
            (Verdict::Hit(pos, caps), steps)
        },
        Cont::Then { rest, depth, next } => run_seq(*rest, text, pos, caps, steps, depth, *next),
        Cont::Close { idx, start, next } => resume(
            *next,
            text,
            pos,
            set_cap(caps, idx, start as int, pos),
            steps,
        ),
        Cont::Again { node, min, max, done, from, depth, next } => if pos == from {
            (Verdict::Miss, steps)
        } else {
            run_repeat(
                *node,
                text,
                pos,
                caps,
                steps,
                deeper(depth),
                min,
                max,
                one_more(done),
                *next,
            )
        },
    }
}

// ---------------------------------------------------------------------------
// Bounds
// ---------------------------------------------------------------------------

/// Every recorded part lies in a text of length `len`.
pub open spec fn caps_in(caps: Caps, len: int) -> bool {
    forall|i: int|
        0 <= i < caps.len() ==> (#[trigger] caps[i] matches Some((a, b)) ==> a <= b && b <= len)
}

/// Every group still open in `k` began at or before `pos`.
pub open spec fn opened_by(k: Cont, pos: int) -> bool
    decreases k,
{
    match k {
        Cont::Done(_) => true,
        Cont::Then { next, .. } => opened_by(*next, pos),
        Cont::Close { start, next, .. } => start <= pos && opened_by(*next, pos),
        Cont::Again { next, .. } => opened_by(*next, pos),
    }
}

proof fn opened_by_later(k: Cont, pos: int, later: int)
    requires
        opened_by(k, pos),
        pos <= later,
    ensures
        opened_by(k, later),
    decreases k,
{
    match k {
        Cont::Done(_) => {},
        Cont::Then { next, .. } => opened_by_later(*next, pos, later),
        Cont::Close { next, .. } => opened_by_later(*next, pos, later),
        Cont::Again { next, .. } => opened_by_later(*next, pos, later),
    }
}

/// A match lies in the text, ends at or after the position it was tried from,
/// and so do the parts its groups hold.
pub open spec fn in_bounds(r: Outcome, pos: int, len: int, n: nat) -> bool {
    r.0 matches Verdict::Hit(e, caps) ==> pos <= e <= len && caps_in(caps, len) && caps.len() == n
}

proof fn node_bounds(
    node: Node,
    text: Seq<char>,
    pos: int,
    caps: Caps,
    steps: nat,
    depth: u32,
    k: Cont,
)
    requires
        0 <= pos <= text.len() <= usize::MAX,
        caps_in(caps, text.len() as int),
        opened_by(k, pos),
    ensures
        in_bounds(
            run_node(node, text, pos, caps, steps, depth, k),
            pos,
            text.len() as int,
            caps.len(),
        ),
    decreases steps, 0nat, 0nat,
{
    if steps == 0 || depth > MAX_DEPTH {
    } else {
        let s = (steps - 1) as nat;
        opened_by_later(k, pos, pos + 1);
        match node {
            Node::Group(inner, idx) => {
                let c = Cont::Close { idx, start: pos as usize, next: &k };
                node_bounds(*inner, text, pos, caps, s, deeper(depth), c);
            },
            Node::Concat(items) => seq_bounds(*items, text, pos, caps, s, depth, k),
            Node::Alt(branches) => alt_bounds(*branches, text, pos, caps, s, deeper(depth), k),
            Node::Repeat { node: inner, min, max } => repeat_bounds(
                *inner,
                text,
                pos,
                caps,
                s,
                depth,
                min,
                max,
                0,
                k,
            ),
            _ => {
                resume_bounds(k, text, pos, caps, s);
                if pos < text.len() {
                    resume_bounds(k, text, pos + 1, caps, s);
                }
            },
        }
    }
}

proof fn seq_bounds(
    items: Nodes,
    text: Seq<char>,
    pos: int,
    caps: Caps,
    steps: nat,
    depth: u32,
    k: Cont,
)
    requires
        0 <= pos <= text.len() <= usize::MAX,
        caps_in(caps, text.len() as int),
        opened_by(k, pos),
    ensures
        in_bounds(
            run_seq(items, text, pos, caps, steps, depth, k),
            pos,
            text.len() as int,
            caps.len(),
        ),
    decreases steps, height(k), 2nat,
{
    match items {
        Nodes::Nil => resume_bounds(k, text, pos, caps, steps),
        Nodes::Cons(head, rest) => {
            let c = Cont::Then { rest: &*rest, depth, next: &k };
            node_bounds(*head, text, pos, caps, steps, depth, c);
        },
    }
}

proof fn alt_bounds(
    branches: Nodes,
    text: Seq<char>,
    pos: int,
    caps: Caps,
    steps: nat,
    depth: u32,
    k: Cont,
)
    requires
        0 <= pos <= text.len() <= usize::MAX,
        caps_in(caps, text.len() as int),
        opened_by(k, pos),
    ensures
        in_bounds(
            run_alt(branches, text, pos, caps, steps, depth, k),
            pos,
            text.len() as int,
            caps.len(),
        ),
    decreases steps, node_count(branches), 3nat,
{
    match branches {
        Nodes::Nil => {},
        Nodes::Cons(b, rest) => {
            let r = run_node(*b, text, pos, caps, steps, depth, k);
            node_bounds(*b, text, pos, caps, steps, depth, k);
            if r.0 is Miss {
                alt_bounds(*rest, text, pos, caps, left_of(r.1, steps), depth, k);
            }
        },
    }
}

proof fn repeat_bounds(
    node: Node,
    text: Seq<char>,
    pos: int,
    caps: Caps,
    steps: nat,
    depth: u32,
    min: u32,
    max: Option<u32>,
    done: u32,
    k: Cont,
)
    requires
        0 <= pos <= text.len() <= usize::MAX,
        caps_in(caps, text.len() as int),
        opened_by(k, pos),
    ensures
        in_bounds(
            run_repeat(node, text, pos, caps, steps, depth, min, max, done, k),
            pos,
            text.len() as int,
            caps.len(),
        ),
    decreases steps, height(k), 2nat,
{
    let c = Cont::Again { node: &node, min, max, done, from: pos as usize, depth, next: &k };
    let more = run_node(node, text, pos, caps, steps, deeper(depth), c);
    node_bounds(node, text, pos, caps, steps, deeper(depth), c);
    resume_bounds(k, text, pos, caps, left_of(more.1, steps));
    resume_bounds(k, text, pos, caps, steps);
}

proof fn resume_bounds(k: Cont, text: Seq<char>, pos: int, caps: Caps, steps: nat)
    requires
        0 <= pos <= text.len() <= usize::MAX,
        caps_in(caps, text.len() as int),
        opened_by(k, pos),
    ensures
        in_bounds(resume(k, text, pos, caps, steps), pos, text.len() as int, caps.len()),
    decreases steps, height(k), 1nat,
{
    match k {
        Cont::Done(_) => {},
        Cont::Then { rest, depth, next } => seq_bounds(
            *rest,
            text,
            pos,
            caps,
            steps,
            depth,
            *next,
        ),
        Cont::Close { idx, start, next } => {
            let set = set_cap(caps, idx, start as int, pos);
            assert(caps_in(set, text.len() as int));
            resume_bounds(*next, text, pos, set, steps);
        },
        Cont::Again { node, min, max, done, from, depth, next } => {
            if pos != from {
                repeat_bounds(
                    *node,
                    text,
                    pos,
                    caps,
                    steps,
                    deeper(depth),
                    min,
                    max,
                    one_more(done),
                    *next,
                );
            }
        },
    }
}

// ---------------------------------------------------------------------------
// What a pattern means
// ---------------------------------------------------------------------------

/// Names a split of the text, or a number of rounds, that a match uses.
pub open spec fn cut(m: int) -> bool {
    true
}

/// Whether `node` can match the text from `i` to `j`, whatever the order of
/// attempts and the budget.
pub open spec fn matches_part(node: Node, text: Seq<char>, i: int, j: int) -> bool
    decreases node, 0nat,
{
    match node {
        Node::Empty => i == j,
        Node::Char(c) => 0 <= i < text.len() && text[i] == c && j == i + 1,
        Node::Any => 0 <= i < text.len() && j == i + 1,
        Node::Class { neg, items } => 0 <= i < text.len() && class_hit(neg, items, text[i]) && j
            == i + 1,
        Node::Start => i == 0 && j == i,
        Node::End => i == text.len() && j == i,
        Node::Group(inner, _) => matches_part(*inner, text, i, j),
        Node::Concat(items) => matches_all(*items, text, i, j),
        Node::Alt(branches) => matches_any(*branches, text, i, j),
        Node::Repeat { node: inner, min, max } => exists|n: int|
            #[trigger] cut(n) && min <= n && (max matches Some(m) ==> n <= m) && matches_times(
                *inner,
                n as nat,
                text,
                i,
                j,
            ),
    }
}

pub open spec fn matches_all(ns: Nodes, text: Seq<char>, i: int, j: int) -> bool
    decreases ns, 0nat,
{
    match ns {
        Nodes::Nil => i == j,
        Nodes::Cons(head, rest) => exists|m: int| #[trigger]
            cut(m) && matches_part(*head, text, i, m) && matches_all(*rest, text, m, j),
    }
}

pub open spec fn matches_any(ns: Nodes, text: Seq<char>, i: int, j: int) -> bool
    decreases ns, 0nat,
{
    match ns {
        Nodes::Nil => false,
        Nodes::Cons(head, rest) => matches_part(*head, text, i, j) || matches_any(
            *rest,
            text,
            i,
            j,
        ),
    }
}

pub open spec fn matches_times(node: Node, n: nat, text: Seq<char>, i: int, j: int) -> bool
    decreases node, n + 1,
{
    if n == 0 {
        i == j
    } else {
        exists|m: int| #[trigger]
            cut(m) && matches_part(node, text, i, m) && matches_times(node, (n - 1) as nat, text, m, j)
    }
}

/// What is left in `k` can take the text from `i` to the end `e` of a match.
pub open spec fn completes(k: Cont, text: Seq<char>, i: int, e: int) -> bool
    decreases k,
{
    match k {
        Cont::Done(to_end) => i == e && (to_end ==> e == text.len()),
        Cont::Then { rest, next, .. } => exists|m: int| #[trigger]
            cut(m) && matches_all(*rest, text, i, m) && completes(*next, text, m, e),
        Cont::Close { next, .. } => completes(*next, text, i, e),
        Cont::Again { node, min, max, done, next, .. } => exists|n: nat, m: int|
            #![trigger cut(n as int), cut(m)]
            cut(n as int) && cut(m) && matches_times(*node, n, text, i, m) && min <= n + done + 1 && (max matches Some(x)
                ==> n == 0 || n + done + 1 <= x) && completes(*next, text, m, e),
    }
}

/// Whether the outcome is a failure, or a real match of `node` followed by `k`.
pub open spec fn genuine(node: Node, k: Cont, text: Seq<char>, pos: int, r: Outcome) -> bool {
    r.0 matches Verdict::Hit(e, _) ==> exists|m: int| #[trigger]
        matches_part(node, text, pos, m) && completes(k, text, m, e)
}

pub open spec fn genuine_rest(k: Cont, text: Seq<char>, pos: int, r: Outcome) -> bool {
    r.0 matches Verdict::Hit(e, _) ==> completes(k, text, pos, e)
}

pub proof fn node_is_sound(
    node: Node,
    text: Seq<char>,
    pos: int,
    caps: Caps,
    steps: nat,
    depth: u32,
    k: Cont,
)
    ensures
        genuine(node, k, text, pos, run_node(node, text, pos, caps, steps, depth, k)),
    decreases steps, 0nat, 0nat,
{
    let r = run_node(node, text, pos, caps, steps, depth, k);
    if r.0 is Hit {
        let e = end_of(r);
        let s = (steps - 1) as nat;
        match node {
            Node::Group(inner, idx) => {
                let c = Cont::Close { idx, start: pos as usize, next: &k };
                node_is_sound(*inner, text, pos, caps, s, deeper(depth), c);
                let m = choose|m: int| #[trigger]
                    matches_part(*inner, text, pos, m) && completes(c, text, m, e);
                assert(matches_part(node, text, pos, m) && completes(k, text, m, e));
            },
            Node::Concat(items) => {
                seq_is_sound(*items, text, pos, caps, s, depth, k);
                let m = choose|m: int| #[trigger]
                    matches_all(*items, text, pos, m) && completes(k, text, m, e);
                assert(matches_part(node, text, pos, m) && completes(k, text, m, e));
            },
            Node::Alt(branches) => {
                alt_is_sound(*branches, text, pos, caps, s, deeper(depth), k);
                let m = choose|m: int| #[trigger]
                    matches_any(*branches, text, pos, m) && completes(k, text, m, e);
                assert(matches_part(node, text, pos, m) && completes(k, text, m, e));
            },
            Node::Repeat { node: inner, min, max } => {
                repeat_is_sound(*inner, text, pos, caps, s, depth, min, max, 0, k);
                let (n, m) = choose|n: nat, m: int| #[trigger]
                    matches_times(*inner, n, text, pos, m) && min <= n + 0 && (max matches Some(x)
                        ==> n == 0 || n + 0 <= x) && completes(k, text, m, e);
                assert(cut(n as int));
                assert(matches_part(node, text, pos, m) && completes(k, text, m, e));
            },
            _ => {
                let m = if node is Char || node is Any || node is Class { pos + 1 } else { pos };
                resume_is_sound(k, text, m, caps, s);
                assert(matches_part(node, text, pos, m) && completes(k, text, m, e));
            },
        }
    }
}

proof fn seq_is_sound(
    items: Nodes,
    text: Seq<char>,
    pos: int,
    caps: Caps,
    steps: nat,
    depth: u32,
    k: Cont,
)
    ensures
        run_seq(items, text, pos, caps, steps, depth, k).0 matches Verdict::Hit(e, _) ==> exists|m: int|
            #[trigger] matches_all(items, text, pos, m) && completes(k, text, m, e),
    decreases steps, height(k), 2nat,
{
    let r = run_seq(items, text, pos, caps, steps, depth, k);
    if r.0 is Hit {
        let e = end_of(r);
        match items {
            Nodes::Nil => {
                resume_is_sound(k, text, pos, caps, steps);
                assert(matches_all(items, text, pos, pos));
            },
            Nodes::Cons(head, rest) => {
                let c = Cont::Then { rest: &*rest, depth, next: &k };
                node_is_sound(*head, text, pos, caps, steps, depth, c);
                let m = choose|m: int| #[trigger]
                    matches_part(*head, text, pos, m) && completes(c, text, m, e);
                let m2 = choose|m2: int| #[trigger]
                    cut(m2) && matches_all(*rest, text, m, m2) && completes(k, text, m2, e);
                assert(cut(m) && matches_part(*head, text, pos, m) && matches_all(*rest, text, m, m2));
                assert(matches_all(items, text, pos, m2));
            },
        }
    }
}

proof fn alt_is_sound(
    branches: Nodes,
    text: Seq<char>,
    pos: int,
    caps: Caps,
    steps: nat,
    depth: u32,
    k: Cont,
)
    ensures
        run_alt(branches, text, pos, caps, steps, depth, k).0 matches Verdict::Hit(e, _) ==> exists|
            m: int,
        | #[trigger] matches_any(branches, text, pos, m) && completes(k, text, m, e),
    decreases steps, node_count(branches), 3nat,
{
    let r = run_alt(branches, text, pos, caps, steps, depth, k);
    if r.0 is Hit {
        let e = end_of(r);
        match branches {
            Nodes::Nil => {},
            Nodes::Cons(b, rest) => {
                let first = run_node(*b, text, pos, caps, steps, depth, k);
                if first.0 is Hit {
                    node_is_sound(*b, text, pos, caps, steps, depth, k);
                    let m = choose|m: int| #[trigger]
                        matches_part(*b, text, pos, m) && completes(k, text, m, e);
                    assert(matches_any(branches, text, pos, m));
                } else {
                    alt_is_sound(*rest, text, pos, caps, left_of(first.1, steps), depth, k);
                    let m = choose|m: int| #[trigger]
                        matches_any(*rest, text, pos, m) && completes(k, text, m, e);
                    assert(matches_any(branches, text, pos, m));
                }
            },
        }
    }
}

proof fn repeat_is_sound(
    node: Node,
    text: Seq<char>,
    pos: int,
    caps: Caps,
    steps: nat,
    depth: u32,
    min: u32,
    max: Option<u32>,
    done: u32,
    k: Cont,
)
    ensures
        run_repeat(node, text, pos, caps, steps, depth, min, max, done, k).0 matches Verdict::Hit(e, _)
            ==> exists|n: nat, m: int| #[trigger]
            matches_times(node, n, text, pos, m) && min <= n + done && (max matches Some(x) ==> n
                == 0 || n + done <= x) && completes(k, text, m, e),
    decreases steps, height(k), 2nat,
{
    let r = run_repeat(node, text, pos, caps, steps, depth, min, max, done, k);
    if r.0 is Hit {
        let e = end_of(r);
        let c = Cont::Again { node: &node, min, max, done, from: pos as usize, depth, next: &k };
        let more = run_node(node, text, pos, caps, steps, deeper(depth), c);
        if (max is None || done < max->0) && more.0 is Hit {
            node_is_sound(node, text, pos, caps, steps, deeper(depth), c);
            let m = choose|m: int| #[trigger]
                matches_part(node, text, pos, m) && completes(c, text, m, e);
            let (n, m2) = choose|n: nat, m2: int|
                #![trigger cut(n as int), cut(m2)]
                cut(n as int) && cut(m2) && matches_times(node, n, text, m, m2) && min <= n + done + 1 && (max matches Some(x)
                    ==> n == 0 || n + done + 1 <= x) && completes(k, text, m2, e);
            assert(cut(m) && matches_part(node, text, pos, m) && matches_times(
                node,
                ((n + 1) - 1) as nat,
                text,
                m,
                m2,
            ));
            assert(matches_times(node, n + 1, text, pos, m2));
        } else {
            let s = if max is None || done < max->0 { left_of(more.1, steps) } else { steps };
            resume_is_sound(k, text, pos, caps, s);
            assert(matches_times(node, 0, text, pos, pos));
        }
    }
}

proof fn resume_is_sound(k: Cont, text: Seq<char>, pos: int, caps: Caps, steps: nat)
    ensures
        genuine_rest(k, text, pos, resume(k, text, pos, caps, steps)),
    decreases steps, height(k), 1nat,
{
    let r = resume(k, text, pos, caps, steps);
    if r.0 is Hit {
        match k {
            Cont::Done(_) => {},
            Cont::Then { rest, depth, next } => {
                seq_is_sound(*rest, text, pos, caps, steps, depth, *next);
                let e = end_of(r);
                let m = choose|m: int| #[trigger]
                    matches_all(*rest, text, pos, m) && completes(*next, text, m, e);
                assert(cut(m));
            },
            Cont::Close { idx, start, next } => resume_is_sound(
                *next,
                text,
                pos,
                set_cap(caps, idx, start as int, pos),
                steps,
            ),
            Cont::Again { node, min, max, done, from, depth, next } => {
                repeat_is_sound(
                    *node,
                    text,
                    pos,
                    caps,
                    steps,
                    deeper(depth),
                    min,
                    max,
                    one_more(done),
                    *next,
                );
                let e = end_of(r);
                let (n, m) = choose|n: nat, m: int| #[trigger]
                    matches_times(*node, n, text, pos, m) && min <= n + one_more(done) && (
                    max matches Some(x) ==> n == 0 || n + one_more(done) <= x) && completes(
                        *next,
                        text,
                        m,
                        e,
                    );
                assert(cut(n as int) && cut(m));
            },
        }
    }
}

// ---------------------------------------------------------------------------
// The matcher
// ---------------------------------------------------------------------------

fn item_matches(item: &ClassItem, c: char) -> (r: bool)
    ensures
        r == item_hit(*item, c),
{
    match item {
        ClassItem::Char(x) => *x == c,
        ClassItem::Range(a, b) => *a <= c && c <= *b,
        ClassItem::Digit(neg) => is_ascii_digit(c) != *neg,
        ClassItem::Word(neg) => (is_alphanumeric(c) || c == '_') != *neg,
        ClassItem::Space(neg) => is_whitespace(c) != *neg,
    }
}

fn items_match(items: &ClassItems, c: char) -> (r: bool)
    ensures
        r == items_hit(*items, c),
    decreases items,
{
    match items {
        ClassItems::Nil => false,
        ClassItems::Cons(item, rest) => item_matches(item, c) || items_match(rest, c),
    }
}

fn class_matches(neg: bool, items: &ClassItems, c: char) -> (r: bool)
    ensures
        r == class_hit(neg, *items, c),
{
    items_match(items, c) != neg
}

fn go_deeper(depth: u32) -> (r: u32)
    ensures
        r == deeper(depth),
{
    if depth > MAX_DEPTH {
        depth
    } else {
        depth + 1
    }
}

/// What came of trying a tree, and where a match ended.
#[derive(Clone, Copy)]
enum Trial {
    Found(usize),
    Missed,
    Spent,
}

/// What an attempt has done, compared with the outcome it must have.
spec fn did(
    r: Trial,
    caps_before: Caps,
    caps_after: Caps,
    steps_after: u64,
    o: Outcome,
) -> bool {
    &&& steps_after == o.1
    &&& match o.0 {
        Verdict::Hit(e, caps) => r == Trial::Found(e as usize) && e == e as usize && caps_after
            == caps,
        Verdict::Miss => r is Missed && caps_after == caps_before,
        Verdict::Spent => r is Spent && caps_after == caps_before,
    }
}

fn match_node(
    node: &Node,
    text: &[char],
    pos: usize,
    caps: &mut Vec<Option<(usize, usize)>>,
    steps: &mut u64,
    depth: u32,
    k: &Cont,
) -> (r: Trial)
    requires
        pos <= text.len(),
    ensures
        did(
            r,
            old(caps)@,
            final(caps)@,
            *final(steps),
            run_node(*node, text@, pos as int, old(caps)@, *old(steps) as nat, depth, *k),
        ),
        *final(steps) <= *old(steps),
    decreases *old(steps), 0nat, 0nat,
{
    if *steps == 0 || depth > MAX_DEPTH {
        return Trial::Spent;
    }
    *steps = *steps - 1;
    match node {
        Node::Empty => continue_with(k, text, pos, caps, steps),
        Node::Char(c) => {
            if pos < text.len() && text[pos] == *c {
                continue_with(k, text, pos + 1, caps, steps)
            } else {
                Trial::Missed
            }
        },
        Node::Any => {
            if pos < text.len() {
                continue_with(k, text, pos + 1, caps, steps)
            } else {
                Trial::Missed
            }
        },
        Node::Class { neg, items } => {
            if pos < text.len() && class_matches(*neg, items, text[pos]) {
                continue_with(k, text, pos + 1, caps, steps)
            } else {
                Trial::Missed
            }
        },
        Node::Start => {
            if pos == 0 {
                continue_with(k, text, pos, caps, steps)
            } else {
                Trial::Missed
            }
        },
        Node::End => {
            if pos == text.len() {
                continue_with(k, text, pos, caps, steps)
            } else {
                Trial::Missed
            }
        },
        Node::Group(inner, idx) => {
            let close = Cont::Close { idx: *idx, start: pos, next: k };
            match_node(inner, text, pos, caps, steps, go_deeper(depth), &close)
        },
        Node::Concat(items) => match_seq(items, text, pos, caps, steps, depth, k),
        Node::Alt(branches) => match_alt(branches, text, pos, caps, steps, go_deeper(depth), k),
        Node::Repeat { node: inner, min, max } => match_repeat(
            inner,
            text,
            pos,
            caps,
            steps,
            depth,
            *min,
            *max,
            0,
            k,
        ),
    }
}

fn match_seq(
    items: &Nodes,
    text: &[char],
    pos: usize,
    caps: &mut Vec<Option<(usize, usize)>>,
    steps: &mut u64,
    depth: u32,
    k: &Cont,
) -> (r: Trial)
    requires
        pos <= text.len(),
    ensures
        did(
            r,
            old(caps)@,
            final(caps)@,
            *final(steps),
            run_seq(*items, text@, pos as int, old(caps)@, *old(steps) as nat, depth, *k),
        ),
        *final(steps) <= *old(steps),
    decreases *old(steps), height(*k), 2nat,
{
    match items {
        Nodes::Nil => continue_with(k, text, pos, caps, steps),
        Nodes::Cons(head, rest) => {
            let then = Cont::Then { rest, depth, next: k };
            match_node(head, text, pos, caps, steps, depth, &then)
        },
    }
}

fn match_alt(
    branches: &Nodes,
    text: &[char],
    pos: usize,
    caps: &mut Vec<Option<(usize, usize)>>,
    steps: &mut u64,
    depth: u32,
    k: &Cont,
) -> (r: Trial)
    requires
        pos <= text.len(),
    ensures
        did(
            r,
            old(caps)@,
            final(caps)@,
            *final(steps),
            run_alt(*branches, text@, pos as int, old(caps)@, *old(steps) as nat, depth, *k),
        ),
        *final(steps) <= *old(steps),
    decreases *old(steps), node_count(*branches), 3nat,
{
    match branches {
        Nodes::Nil => Trial::Missed,
        Nodes::Cons(b, rest) => {
            let hit = match_node(b, text, pos, caps, steps, depth, k);
            match hit {
                Trial::Missed => match_alt(rest, text, pos, caps, steps, depth, k),
                _ => hit,
            }
        },
    }
}

fn match_repeat(
    node: &Node,
    text: &[char],
    pos: usize,
    caps: &mut Vec<Option<(usize, usize)>>,
    steps: &mut u64,
    depth: u32,
    min: u32,
    max: Option<u32>,
    done: u32,
    k: &Cont,
) -> (r: Trial)
    requires
        pos <= text.len(),
    ensures
        did(
            r,
            old(caps)@,
            final(caps)@,
            *final(steps),
            run_repeat(
                *node,
                text@,
                pos as int,
                old(caps)@,
                *old(steps) as nat,
                depth,
                min,
                max,
                done,
                *k,
            ),
        ),
        *final(steps) <= *old(steps),
    decreases *old(steps), height(*k), 2nat,
{
    let can_more = match max {
        None => true,
        Some(m) => done < m,
    };
    if can_more {
        let again = Cont::Again { node, min, max, done, from: pos, depth, next: k };
        let hit = match_node(node, text, pos, caps, steps, go_deeper(depth), &again);
        match hit {
            Trial::Missed => {},
            _ => {
                return hit;
            },
        }
    }
    if done >= min {
        continue_with(k, text, pos, caps, steps)
    } else {
        Trial::Missed
    }
}

fn continue_with(
    k: &Cont,
    text: &[char],
    pos: usize,
    caps: &mut Vec<Option<(usize, usize)>>,
    steps: &mut u64,
) -> (r: Trial)
    requires
        pos <= text.len(),
    ensures
        did(
            r,
            old(caps)@,
            final(caps)@,
            *final(steps),
            resume(*k, text@, pos as int, old(caps)@, *old(steps) as nat),
        ),
        *final(steps) <= *old(steps),
    decreases *old(steps), height(*k), 1nat,
{
    match k {
        Cont::Done(to_end) => {
            if *to_end && pos != text.len() {
                Trial::Missed
            } else {
                Trial::Found(pos)
            }
        },
        Cont::Then { rest, depth, next } => match_seq(rest, text, pos, caps, steps, *depth, next),
        Cont::Close { idx, start, next } => {
            if *idx < caps.len() {
                let before = caps[*idx];
                let ghost was = caps@;
                caps.set(*idx, Some((*start, pos)));
                let hit = continue_with(next, text, pos, caps, steps);
                match hit {
                    Trial::Found(_) => {},
                    _ => {
                        caps.set(*idx, before);
                        assert(caps@ =~= was);
                    },
                }
                hit
            } else {
                continue_with(next, text, pos, caps, steps)
            }
        },
        Cont::Again { node, min, max, done, from, depth, next } => {
            if pos == *from {
                return Trial::Missed;
            }
            let more: u32 = if *done == u32::MAX {
                *done
            } else {
                *done + 1
            };
            match_repeat(
                node,
                text,
                pos,
                caps,
                steps,
                go_deeper(*depth),
                *min,
                *max,
                more,
                next,
            )
        },
    }
}

/// The slots of a fresh attempt: the whole match and `groups` groups, all unset.
pub open spec fn no_caps(groups: int) -> Caps {
    Seq::new((groups + 1) as nat, |i: int| None)
}

/// One attempt at `start` with a budget of `steps`. The whole match goes into
/// slot 0.
pub open spec fn attempt(
    root: Node,
    groups: int,
    steps: nat,
    text: Seq<char>,
    start: int,
    to_end: bool,
) -> Outcome {
    let r = run_node(root, text, start, no_caps(groups), steps, 0, Cont::Done(to_end));
    (
        match r.0 {
            Verdict::Hit(e, caps) => Verdict::Hit(e, set_cap(caps, 0, start, e)),
            v => v,
        },
        left_of(r.1, steps),
    )
}

/// A success of [`attempt`] lies in the text.
pub proof fn attempt_bounds(
    root: Node,
    groups: int,
    steps: nat,
    text: Seq<char>,
    start: int,
    to_end: bool,
)
    requires
        0 <= start <= text.len() <= usize::MAX,
    ensures
        attempt(root, groups, steps, text, start, to_end).0 matches Verdict::Hit(e, caps)
            ==> start <= e <= text.len() && caps_in(caps, text.len() as int) && (groups >= 0
            ==> caps.len() == groups + 1 && caps[0] == Some((start as usize, e as usize))),
{
    node_bounds(root, text, start, no_caps(groups), steps, 0, Cont::Done(to_end));
}

/// What an attempt found: where the match ends, and what the groups hold.
pub(crate) enum Found {
    Hit(usize, Vec<Option<(usize, usize)>>),
    Miss,
    Spent,
}

/// Runs [`attempt`] and takes its steps from the budget.
pub(crate) fn run_attempt(
    root: &Node,
    groups: usize,
    steps: &mut u64,
    text: &[char],
    start: usize,
    to_end: bool,
) -> (r: Found)
    requires
        start <= text.len(),
    ensures
        ({
            let o = attempt(*root, groups as int, *old(steps) as nat, text@, start as int, to_end);
            &&& *final(steps) == o.1
            &&& match o.0 {
                Verdict::Hit(e, caps) => r matches Found::Hit(x, c) && x == e && c@ == caps,
                Verdict::Miss => r is Miss,
                Verdict::Spent => r is Spent,
            }
        }),
        r matches Found::Hit(e, c) ==> start <= e <= text@.len() && caps_in(
            c@,
            text@.len() as int,
        ),
{
    let mut caps: Vec<Option<(usize, usize)>> = Vec::new();
    caps.push(None);
    let mut i: usize = 0;
    while i < groups
        invariant
            i <= groups,
            caps@ == no_caps(i as int),
        decreases groups - i,
    {
        caps.push(None);
        i += 1;
        assert(caps@ =~= no_caps(i as int));
    }
    assert(caps@ =~= no_caps(groups as int));
    proof {
        let n = *steps as nat;
        attempt_bounds(*root, groups as int, n, text@, start as int, to_end);
        node_bounds(
            *root,
            text@,
            start as int,
            no_caps(groups as int),
            n,
            0,
            Cont::Done(to_end),
        );
    }
    match match_node(root, text, start, &mut caps, steps, 0, &Cont::Done(to_end)) {
        Trial::Found(e) => {
            caps.set(0, Some((start, e)));
            Found::Hit(e, caps)
        },
        Trial::Missed => Found::Miss,
        Trial::Spent => Found::Spent,
    }
}

/// A class that is turned round holds exactly the characters that it did not
/// hold; a range holds its ends and what is between them; digits are those of
/// ASCII.
pub proof fn classes_hold_their_members(items: ClassItems, a: char, b: char, c: char)
    ensures
        class_hit(true, items, c) <==> !class_hit(false, items, c),
        item_hit(ClassItem::Char(a), c) <==> c == a,
        item_hit(ClassItem::Range(a, b), c) <==> a as int <= c as int <= b as int,
        item_hit(ClassItem::Digit(false), c) <==> '0' <= c <= '9',
        item_hit(ClassItem::Digit(true), c) <==> !('0' <= c <= '9'),
        item_hit(ClassItem::Word(true), c) <==> !item_hit(ClassItem::Word(false), c),
        item_hit(ClassItem::Word(false), '_'),
        item_hit(ClassItem::Space(true), c) <==> !item_hit(ClassItem::Space(false), c),
        item_hit(ClassItem::Space(false), ' '),
        class_hit(false, ClassItems::Cons(ClassItem::Char(a), Box::new(items)), c) <==> c == a
            || class_hit(false, items, c),
{
}

proof fn letters_match_themselves(cs: Seq<char>, pos: int, text: Seq<char>, i: int, j: int)
    requires
        0 <= pos <= cs.len(),
        0 <= i,
    ensures
        matches_all(letter_by_letter(cs, pos), text, i, j) <==> j == i + cs.len() - pos && (pos
            < cs.len() ==> j <= text.len()) && forall|k: int|
            pos <= k < cs.len() ==> text[i + k - pos] == #[trigger] cs[k],
    decreases cs.len() - pos,
{
    if pos < cs.len() {
        let rest = letter_by_letter(cs, pos + 1);
        letters_match_themselves(cs, pos + 1, text, i + 1, j);
        let head = Node::Char(cs[pos]);
        if matches_all(letter_by_letter(cs, pos), text, i, j) {
            let m = choose|m: int| #[trigger]
                cut(m) && matches_part(head, text, i, m) && matches_all(rest, text, m, j);
            assert(m == i + 1);
            assert forall|k: int| pos <= k < cs.len() implies text[i + k - pos]
                == #[trigger] cs[k] by {
                if k > pos {
                    assert(text[i + 1 + k - (pos + 1)] == cs[k]);
                }
            }
        }
        if j == i + cs.len() - pos && j <= text.len() && forall|k: int|
            pos <= k < cs.len() ==> text[i + k - pos] == #[trigger] cs[k] {
            assert(text[i + pos - pos] == cs[pos]);
            assert(matches_part(head, text, i, i + 1));
            assert forall|k: int| pos + 1 <= k < cs.len() implies text[i + 1 + k - (pos + 1)]
                == #[trigger] cs[k] by {
                assert(text[i + k - pos] == cs[k]);
            }
            assert(cut(i + 1));
        }
    }
}

/// A pattern without special characters matches its own text, and no other.
pub proof fn plain_patterns_match_their_text(cs: Seq<char>, text: Seq<char>, i: int, j: int)
    requires
        cs.len() > 0,
        forall|k: int| 0 <= k < cs.len() ==> stands_for_itself(#[trigger] cs[k]),
        0 <= i <= j <= text.len(),
    ensures
        parse(cs) matches Ok((root, _)) && (matches_part(root, text, i, j) <==> text.subrange(i, j)
            == cs),
{
    plain_patterns_are_read_by_letters(cs);
    letters_match_themselves(cs, 0, text, i, j);
    let root = join_items(letter_by_letter(cs, 0));
    if cs.len() == 1 {
        assert(letter_by_letter(cs, 1) == Nodes::Nil);
        assert(root == Node::Char(cs[0]));
        if text.subrange(i, j) == cs {
            assert(text.subrange(i, j)[0] == text[i]);
        }
        if matches_part(root, text, i, j) {
            assert(text.subrange(i, j) =~= cs);
        }
    } else {
        assert(letter_by_letter(cs, 1) is Cons);
        assert(root == Node::Concat(Box::new(letter_by_letter(cs, 0))));
        if text.subrange(i, j) == cs {
            assert forall|k: int| 0 <= k < cs.len() implies text[i + k - 0] == #[trigger] cs[k] by {
                assert(text.subrange(i, j)[k] == text[i + k]);
            }
        }
        if matches_part(root, text, i, j) {
            assert forall|k: int| 0 <= k < cs.len() implies text.subrange(i, j)[k] == cs[k] by {
                assert(text[i + k - 0] == cs[k]);
            }
            assert(text.subrange(i, j) =~= cs);
        }
    }
}

} // verus!
