//! Tag names that scheme data spell out, kept once each for the life of the
//! program.

use vstd::prelude::*;
use crate::order::views;
use crate::text::{same_text, text_before, text_less, text_less_total, text_less_transitive};

verus! {

/// A segment's tag.
pub type Tag = &'static str;

/// `Box::leak`: gives up ownership of a copy of `name`, which then lives as
/// long as the program.
#[verifier::external_body]
fn keep_forever(name: &str) -> (r: &'static str)
    ensures
        r@ == name@,
{
    Box::leak(name.to_owned().into_boxed_str())
}

/// The names met so far, in order, each once.
#[derive(Debug)]
pub struct TagTable {
    pub names: Vec<&'static str>,
}

/// Texts in strictly rising order.
pub open spec fn texts_rise(s: Seq<Seq<char>>) -> bool {
    forall|i: int, j: int| 0 <= i < j < s.len() ==> text_less(#[trigger] s[i], #[trigger] s[j])
}

impl TagTable {
    /// The names, read mathematically.
    pub open spec fn known(&self) -> Seq<Seq<char>> {
        views(self.names@)
    }

    pub open spec fn wf(&self) -> bool {
        texts_rise(self.known())
    }

    /// An empty table.
    #[must_use]
    pub fn new() -> (r: Self)
        ensures
            r.wf(),
            r.known() == Seq::<Seq<char>>::empty(),
    {
        let r = TagTable { names: Vec::new() };
        assert(r.known() =~= Seq::<Seq<char>>::empty());
        r
    }

    /// How many names come before `name`, and whether the next one is it.
    fn find(&self, name: &str) -> (r: (usize, bool))
        requires
            self.wf(),
        ensures
            r.0 <= self.names@.len(),
            forall|i: int| 0 <= i < r.0 ==> text_less(#[trigger] self.known()[i], name@),
            forall|i: int|
                r.0 <= i < self.names@.len() ==> !text_less(#[trigger] self.known()[i], name@),
            r.1 == (r.0 < self.names@.len() && self.known()[r.0 as int] == name@),
            r.1 == self.known().contains(name@),
    {
        let mut at: usize = 0;
        while at < self.names.len() && text_before(self.names[at], name)
            invariant
                at <= self.names.len(),
                forall|i: int| 0 <= i < at ==> text_less(#[trigger] self.known()[i], name@),
            decreases self.names.len() - at,
        {
            assert(self.known()[at as int] == self.names@[at as int]@);
            at += 1;
        }
        proof {
            let ks = self.known();
            assert forall|i: int| at <= i < ks.len() implies !text_less(#[trigger] ks[i], name@) by {
                assert(ks[at as int] == self.names@[at as int]@);
                if i > at && text_less(ks[i], name@) {
                    text_less_transitive(ks[at as int], ks[i], name@);
                }
            }
            if ks.contains(name@) {
                let i = choose|i: int| 0 <= i < ks.len() && ks[i] == name@;
                text_less_total(name@, name@);
                if i > at {
                    assert(text_less(ks[at as int], ks[i]));
                }
                assert(i == at);
            }
        }
        let hit = at < self.names.len() && same_text(self.names[at], name);
        proof {
            if hit {
                assert(self.known()[at as int] == name@);
            }
        }
        (at, hit)
    }

    /// The tag of a name, entered into the table where it is new.
    pub fn intern(&mut self, name: &str) -> (r: Tag)
        requires
            old(self).wf(),
        ensures
            final(self).wf(),
            r@ == name@,
            final(self).known().contains(name@),
            old(self).known().contains(name@) ==> final(self).known() == old(self).known(),
            !old(self).known().contains(name@) ==> final(self).known().len()
                == old(self).known().len() + 1,
            forall|t: Seq<char>| #[trigger]
                final(self).known().contains(t) <==> (old(self).known().contains(t) || t == name@),
    {
        let ghost ks = self.known();
        let (at, hit) = self.find(name);
        if hit {
            assert(ks[at as int] == name@);
            return self.names[at];
        }
        let tag = keep_forever(name);
        self.names.insert(at, tag);
        proof {
            let a = at as int;
            let new = self.known();
            assert(new =~= ks.insert(a, name@));
            assert forall|i: int, j: int| 0 <= i < j < new.len() implies text_less(
                #[trigger] new[i],
                #[trigger] new[j],
            ) by {
                if j == a {
                    assert(new[i] == ks[i]);
                } else if i == a {
                    assert(new[j] == ks[j - 1]);
                    text_less_total(ks[j - 1], name@);
                    assert(ks.contains(ks[j - 1]));
                } else {
                    let i0 = if i < a { i } else { i - 1 };
                    let j0 = if j < a { j } else { j - 1 };
                    assert(new[i] == ks[i0] && new[j] == ks[j0]);
                }
            }
            assert forall|t: Seq<char>| #[trigger] new.contains(t) <==> (ks.contains(t) || t
                == name@) by {
                if ks.contains(t) {
                    let i = choose|i: int| 0 <= i < ks.len() && ks[i] == t;
                    assert(new[if i < a { i } else { i + 1 }] == t);
                }
                if t == name@ {
                    assert(new[a] == t);
                }
                if new.contains(t) && t != name@ {
                    let i = choose|i: int| 0 <= i < new.len() && new[i] == t;
                    assert(ks[if i < a { i } else { i - 1 }] == t);
                }
            }
        }
        tag
    }

    /// The tag of a name, where the table has it.
    #[must_use]
    pub fn get(&self, name: &str) -> (r: Option<Tag>)
        requires
            self.wf(),
        ensures
            match r {
                Some(t) => t@ == name@ && self.known().contains(name@),
                None => !self.known().contains(name@),
            },
    {
        let (at, hit) = self.find(name);
        if hit {
            assert(self.known()[at as int] == self.names@[at as int]@);
            Some(self.names[at])
        } else {
            None
        }
    }

    /// All names, in order.
    pub fn all(&self) -> (r: Vec<Tag>)
        ensures
            views(r@) == self.known(),
    {
        let mut out: Vec<&'static str> = Vec::new();
        let mut i: usize = 0;
        while i < self.names.len()
            invariant
                i <= self.names.len(),
                out@ == self.names@.take(i as int),
            decreases self.names.len() - i,
        {
            out.push(self.names[i]);
            i += 1;
        }
        assert(out@ =~= self.names@);
        out
    }

    #[must_use]
    pub fn len(&self) -> (r: usize)
        ensures
            r == self.known().len(),
    {
        self.names.len()
    }

    #[must_use]
    pub fn is_empty(&self) -> (r: bool)
        ensures
            r == (self.known().len() == 0),
    {
        self.names.len() == 0
    }
}

/// Decides whether `t` is among `tags`.
pub fn holds_tag(tags: &Vec<Tag>, t: &str) -> (r: bool)
    ensures
        r == views(tags@).contains(t@),
{
    let mut i: usize = 0;
    while i < tags.len()
        invariant
            i <= tags.len(),
            forall|j: int| 0 <= j < i ==> (#[trigger] views(tags@)[j]) != t@,
        decreases tags.len() - i,
    {
        assert(views(tags@)[i as int] == tags@[i as int]@);
        if same_text(tags[i], t) {
            return true;
        }
        i += 1;
    }
    false
}

/// Whether two lists of tags have one in common.
pub open spec fn share_tag(a: Seq<Seq<char>>, b: Seq<Seq<char>>) -> bool {
    exists|i: int| 0 <= i < a.len() && b.contains(#[trigger] a[i])
}

/// Decides [`share_tag`].
pub fn tags_meet(a: &Vec<Tag>, b: &Vec<Tag>) -> (r: bool)
    ensures
        r == share_tag(views(a@), views(b@)),
{
    let mut i: usize = 0;
    while i < a.len()
        invariant
            i <= a.len(),
            forall|j: int| 0 <= j < i ==> !views(b@).contains(#[trigger] views(a@)[j]),
        decreases a.len() - i,
    {
        assert(views(a@)[i as int] == a@[i as int]@);
        if holds_tag(b, a[i]) {
            return true;
        }
        i += 1;
    }
    false
}

/// Copies a list of tags.
pub(crate) fn copy_tags(v: &Vec<Tag>) -> (r: Vec<Tag>)
    ensures
        r@ == v@,
{
    let mut out: Vec<&'static str> = Vec::new();
    let mut i: usize = 0;
    while i < v.len()
        invariant
            i <= v.len(),
            out@ == v@.take(i as int),
        decreases v.len() - i,
    {
        out.push(v[i]);
        i += 1;
    }
    assert(out@ =~= v@);
    out
}

} // verus!
