//! Switches that a scheme declares and a session turns.

use vstd::prelude::*;
use crate::order::views;
use crate::text::same_text;

verus! {

/// A switch as a scheme declares it.
#[derive(Debug, PartialEq, Eq)]
pub struct Switch {
    pub name: String,
    pub on: bool,
}

impl Switch {
    pub fn new(name: &str, on: bool) -> (r: Self)
        ensures
            r.name@ == name@,
            r.on == on,
    {
        Switch { name: name.to_owned(), on }
    }
}

impl Clone for Switch {
    fn clone(&self) -> (r: Self)
        ensures
            r@ == self@,
    {
        Switch { name: self.name.clone(), on: self.on }
    }
}

impl View for Switch {
    type V = (Seq<char>, bool);

    open spec fn view(&self) -> (Seq<char>, bool) {
        (self.name@, self.on)
    }
}

/// The switches of a session. The view is a map from the declared names to
/// their positions.
#[derive(Debug, PartialEq, Eq)]
pub struct Options {
    pub switches: Vec<Switch>,
}

/// The first switch called `name`, from `from` on.
pub open spec fn switch_place(s: Seq<(Seq<char>, bool)>, name: Seq<char>, from: int) -> Option<int>
    decreases s.len() - from,
{
    if from < 0 || from >= s.len() {
        None
    } else if s[from].0 == name {
        Some(from)
    } else {
        switch_place(s, name, from + 1)
    }
}

proof fn switch_place_finds(s: Seq<(Seq<char>, bool)>, name: Seq<char>, from: int)
    requires
        0 <= from <= s.len(),
    ensures
        match switch_place(s, name, from) {
            Some(i) => from <= i < s.len() && s[i].0 == name && forall|j: int|
                from <= j < i ==> (#[trigger] s[j]).0 != name,
            None => forall|j: int| from <= j < s.len() ==> (#[trigger] s[j]).0 != name,
        },
    decreases s.len() - from,
{
    if from < s.len() && s[from].0 != name {
        switch_place_finds(s, name, from + 1);
    }
}

/// The first of the places that two lists give for a name is the same where
/// their names are.
proof fn same_names_same_places(
    s: Seq<(Seq<char>, bool)>,
    t: Seq<(Seq<char>, bool)>,
    name: Seq<char>,
    from: int,
)
    requires
        0 <= from <= s.len(),
        s.len() == t.len(),
        forall|i: int| 0 <= i < s.len() ==> (#[trigger] s[i]).0 == t[i].0,
    ensures
        switch_place(s, name, from) == switch_place(t, name, from),
    decreases s.len() - from,
{
    if from < s.len() {
        assert(s[from].0 == t[from].0);
        same_names_same_places(s, t, name, from + 1);
    }
}

/// A name joins a list at its end.
proof fn pushed_place(s: Seq<(Seq<char>, bool)>, x: (Seq<char>, bool), name: Seq<char>, from: int)
    requires
        0 <= from <= s.len(),
    ensures
        switch_place(s.push(x), name, from) == (match switch_place(s, name, from) {
            Some(i) => Some(i),
            None => if x.0 == name {
                Some(s.len() as int)
            } else {
                None
            },
        }),
    decreases s.len() - from,
{
    let p = s.push(x);
    if from < s.len() {
        assert(p[from] == s[from]);
        pushed_place(s, x, name, from + 1);
    } else {
        assert(p[from] == x);
        assert(switch_place(p, name, from + 1) is None);
    }
}

impl View for Options {
    type V = Map<Seq<char>, bool>;

    open spec fn view(&self) -> Map<Seq<char>, bool> {
        Map::new(
            |n: Seq<char>| switch_place(views(self.switches@), n, 0) is Some,
            |n: Seq<char>| views(self.switches@)[switch_place(views(self.switches@), n, 0)->0].1,
        )
    }
}

/// Whether a switch is declared and on.
pub open spec fn is_on(options: Map<Seq<char>, bool>, name: Seq<char>) -> bool {
    options.contains_key(name) && options[name]
}

impl Options {
    pub fn new() -> (r: Self)
        ensures
            r@ == Map::<Seq<char>, bool>::empty(),
    {
        let r = Options { switches: Vec::new() };
        assert(r@ =~= Map::<Seq<char>, bool>::empty());
        r
    }

    fn place(&self, name: &str) -> (r: Option<usize>)
        ensures
            match switch_place(views(self.switches@), name@, 0) {
                Some(i) => r matches Some(k) && k == i && k < self.switches@.len(),
                None => r is None,
            },
    {
        let ghost s = views(self.switches@);
        let mut i: usize = 0;
        while i < self.switches.len()
            invariant
                i <= self.switches.len(),
                s == views(self.switches@),
                switch_place(s, name@, 0) == switch_place(s, name@, i as int),
            decreases self.switches.len() - i,
        {
            assert(s[i as int] == self.switches@[i as int]@);
            if same_text(self.switches[i].name.as_str(), name) {
                return Some(i);
            }
            i += 1;
        }
        None
    }

    /// Declares a switch. A switch that is declared again takes the new
    /// position.
    pub fn declare(&mut self, switch: Switch)
        ensures
            final(self)@ == old(self)@.insert(switch@.0, switch@.1),
    {
        let ghost s = views(self.switches@);
        let ghost x = switch@;
        let ghost before = self@;
        match self.place(switch.name.as_str()) {
            Some(i) => {
                proof {
                    switch_place_finds(s, x.0, 0);
                }
                self.switches.set(i, switch);
                proof {
                    let t = views(self.switches@);
                    assert(t =~= s.update(i as int, x));
                    assert forall|n: Seq<char>| switch_place(t, n, 0) == #[trigger] switch_place(
                        s,
                        n,
                        0,
                    ) by {
                        same_names_same_places(s, t, n, 0);
                    }
                    assert forall|n: Seq<char>| self@.contains_key(n) implies #[trigger] self@[n]
                        == before.insert(x.0, x.1)[n] by {
                        switch_place_finds(s, n, 0);
                        assert(switch_place(t, n, 0) == switch_place(s, n, 0));
                    }
                    assert(self@ =~= before.insert(x.0, x.1));
                }
            },
            None => {
                self.switches.push(switch);
                proof {
                    let t = views(self.switches@);
                    assert(t =~= s.push(x));
                    assert forall|n: Seq<char>| #[trigger] self@.contains_key(n) <==> before.insert(
                        x.0,
                        x.1,
                    ).contains_key(n) by {
                        pushed_place(s, x, n, 0);
                    }
                    assert forall|n: Seq<char>| self@.contains_key(n) implies #[trigger] self@[n]
                        == before.insert(x.0, x.1)[n] by {
                        pushed_place(s, x, n, 0);
                        switch_place_finds(s, n, 0);
                    }
                    assert(self@ =~= before.insert(x.0, x.1));
                }
            },
        }
    }

    /// Whether a switch is on. One that was not declared is off.
    #[must_use]
    pub fn get(&self, name: &str) -> (r: bool)
        ensures
            r == is_on(self@, name@),
    {
        match self.place(name) {
            Some(i) => {
                assert(views(self.switches@)[i as int] == self.switches@[i as int]@);
                self.switches[i].on
            },
            None => false,
        }
    }

    /// Turns a switch. One that was not declared is not made: the answer tells.
    pub fn set(&mut self, name: &str, on: bool) -> (r: bool)
        ensures
            r == old(self)@.contains_key(name@),
            final(self)@ == (if r {
                old(self)@.insert(name@, on)
            } else {
                old(self)@
            }),
    {
        let declared = self.place(name).is_some();
        if declared {
            self.declare(Switch::new(name, on));
        }
        declared
    }

    /// The names among `names` that are not declared, in order.
    #[must_use]
    pub fn missing(&self, names: &[&str]) -> (r: Vec<String>)
        ensures
            views(r@) == undeclared(self@, views(names@)),
    {
        let ghost all = views(names@);
        let mut out: Vec<String> = Vec::new();
        let mut i: usize = 0;
        assert(all.take(0) =~= seq![]);
        assert(views(out@) =~= seq![]);
        while i < names.len()
            invariant
                i <= names@.len(),
                all == views(names@),
                views(out@) == undeclared(self@, all.take(i as int)),
            decreases names.len() - i,
        {
            let name = names[i];
            let ghost had = out@;
            proof {
                let t = all.take(i + 1);
                assert(t.drop_last() =~= all.take(i as int));
                assert(t.last() == name@);
            }
            if self.place(name).is_none() {
                out.push(name.to_owned());
                assert(views(out@) =~= views(had).push(name@));
            }
            i += 1;
        }
        assert(all.take(i as int) =~= all);
        out
    }
}

/// The names that are not declared, in order.
pub open spec fn undeclared(options: Map<Seq<char>, bool>, names: Seq<Seq<char>>) -> Seq<Seq<char>>
    decreases names.len(),
{
    if names.len() == 0 {
        seq![]
    } else {
        let head = undeclared(options, names.drop_last());
        if options.contains_key(names.last()) {
            head
        } else {
            head.push(names.last())
        }
    }
}

impl Clone for Options {
    fn clone(&self) -> (r: Self)
        ensures
            r@ == self@,
    {
        let mut switches: Vec<Switch> = Vec::new();
        let mut i: usize = 0;
        while i < self.switches.len()
            invariant
                i <= self.switches@.len(),
                switches@.len() == i,
                forall|j: int| 0 <= j < i ==> (#[trigger] switches@[j])@ == self.switches@[j]@,
            decreases self.switches.len() - i,
        {
            switches.push(self.switches[i].clone());
            i += 1;
        }
        assert(views(switches@) =~= views(self.switches@));
        Options { switches }
    }
}

impl Default for Options {
    fn default() -> (r: Self)
        ensures
            r@ == Map::<Seq<char>, bool>::empty(),
    {
        Options::new()
    }
}

/// The names that were not declared are reported, in their order.
pub proof fn undeclared_names_are_reported(options: Map<Seq<char>, bool>, names: Seq<Seq<char>>)
    ensures
        undeclared(options, names) == names.filter(|n: Seq<char>| !options.contains_key(n)),
    decreases names.len(),
{
    reveal(Seq::filter);
    if names.len() > 0 {
        undeclared_names_are_reported(options, names.drop_last());
    }
}

} // verus!
