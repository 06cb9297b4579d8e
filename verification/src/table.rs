//! A map from texts to values, kept in the order of its keys.

use vstd::prelude::*;
use crate::tag::texts_rise;
use crate::text::{same_text, text_before, text_less, text_less_total, text_less_transitive};

verus! {

/// A map from texts to values. Its view is the map; [`TextTable::keys`] lists
/// its keys in order.
#[derive(Debug)]
pub struct TextTable<V> {
    pub rows: Vec<(String, V)>,
}

/// The keys of rows, read mathematically.
pub open spec fn row_keys<V>(rows: Seq<(String, V)>) -> Seq<Seq<char>> {
    Seq::new(rows.len(), |i: int| rows[i].0@)
}

impl<V> View for TextTable<V> {
    type V = Map<Seq<char>, V>;

    open spec fn view(&self) -> Map<Seq<char>, V> {
        Map::new(
            |k: Seq<char>| self.keys().contains(k),
            |k: Seq<char>| self.rows@[self.keys().index_of(k)].1,
        )
    }
}

impl<V> TextTable<V> {
    /// The keys, in order.
    pub open spec fn keys(&self) -> Seq<Seq<char>> {
        row_keys(self.rows@)
    }

    pub open spec fn wf(&self) -> bool {
        texts_rise(self.keys())
    }

    /// What the row at `i` says of the map.
    pub proof fn row_stands(&self, i: int)
        requires
            self.wf(),
            0 <= i < self.rows@.len(),
        ensures
            self@.contains_key(self.keys()[i]),
            self@[self.keys()[i]] == self.rows@[i].1,
    {
        let ks = self.keys();
        assert(ks.contains(ks[i]));
        let j = ks.index_of(ks[i]);
        text_less_total(ks[i], ks[i]);
        if j < i {
            assert(text_less(ks[j], ks[i]));
        }
        if i < j {
            assert(text_less(ks[i], ks[j]));
        }
    }

    /// An empty map.
    pub fn new() -> (r: Self)
        ensures
            r.wf(),
            r@ == Map::<Seq<char>, V>::empty(),
            r.keys().len() == 0,
    {
        let r = TextTable { rows: Vec::new() };
        assert(r@ =~= Map::<Seq<char>, V>::empty());
        r
    }

    /// How many keys come before `key`, and whether the next one is it.
    fn find(&self, key: &str) -> (r: (usize, bool))
        requires
            self.wf(),
        ensures
            r.0 <= self.rows@.len(),
            forall|i: int| 0 <= i < r.0 ==> text_less(#[trigger] self.keys()[i], key@),
            forall|i: int|
                r.0 <= i < self.rows@.len() ==> !text_less(#[trigger] self.keys()[i], key@),
            r.1 == (r.0 < self.rows@.len() && self.keys()[r.0 as int] == key@),
            r.1 == self.keys().contains(key@),
    {
        let mut at: usize = 0;
        while at < self.rows.len() && text_before(self.rows[at].0.as_str(), key)
            invariant
                at <= self.rows.len(),
                forall|i: int| 0 <= i < at ==> text_less(#[trigger] self.keys()[i], key@),
            decreases self.rows.len() - at,
        {
            assert(self.keys()[at as int] == self.rows@[at as int].0@);
            at += 1;
        }
        proof {
            let ks = self.keys();
            assert forall|i: int| at <= i < ks.len() implies !text_less(#[trigger] ks[i], key@) by {
                assert(ks[at as int] == self.rows@[at as int].0@);
                if i > at && text_less(ks[i], key@) {
                    text_less_transitive(ks[at as int], ks[i], key@);
                }
            }
            if ks.contains(key@) {
                let i = choose|i: int| 0 <= i < ks.len() && ks[i] == key@;
                text_less_total(key@, key@);
                if i > at {
                    assert(text_less(ks[at as int], ks[i]));
                }
                assert(i == at);
            }
        }
        let hit = at < self.rows.len() && same_text(self.rows[at].0.as_str(), key);
        proof {
            if hit {
                assert(self.keys()[at as int] == key@);
            }
        }
        (at, hit)
    }

    /// Enters a value, in place of the one that stood under the key.
    pub fn insert(&mut self, key: String, value: V)
        requires
            old(self).wf(),
        ensures
            final(self).wf(),
            final(self)@ == old(self)@.insert(key@, value),
            old(self)@.contains_key(key@) ==> final(self).keys() == old(self).keys(),
            !old(self)@.contains_key(key@) ==> final(self).keys().len() == old(self).keys().len()
                + 1,
    {
        let ghost before = *self;
        let ghost ks = self.keys();
        let ghost k = key@;
        let (at, hit) = self.find(key.as_str());
        let ghost a = at as int;
        if hit {
            self.rows.set(at, (key, value));
            proof {
                assert(self.keys() =~= ks);
                assert forall|t: Seq<char>| self@.contains_key(t) implies #[trigger] self@[t]
                    == before@.insert(k, value)[t] by {
                    let i = ks.index_of(t);
                    assert(ks[i] == t);
                    if t == k {
                        self.row_stands(a);
                    } else {
                        assert(i != a);
                    }
                }
                assert(self@ =~= before@.insert(k, value));
            }
        } else {
            self.rows.insert(at, (key, value));
            proof {
                let new = self.keys();
                assert(new =~= ks.insert(a, k));
                assert forall|i: int, j: int| 0 <= i < j < new.len() implies text_less(
                    #[trigger] new[i],
                    #[trigger] new[j],
                ) by {
                    if j == a {
                        assert(new[i] == ks[i]);
                    } else if i == a {
                        assert(new[j] == ks[j - 1]);
                        text_less_total(ks[j - 1], k);
                        assert(ks.contains(ks[j - 1]));
                    } else {
                        let i0 = if i < a { i } else { i - 1 };
                        let j0 = if j < a { j } else { j - 1 };
                        assert(new[i] == ks[i0] && new[j] == ks[j0]);
                    }
                }
                assert(new[a] == k);
                assert forall|t: Seq<char>| #[trigger] self@.contains_key(t) <==> before@.insert(
                    k,
                    value,
                ).contains_key(t) by {
                    if ks.contains(t) {
                        let i = ks.index_of(t);
                        assert(new[if i < a { i } else { i + 1 }] == t);
                    }
                    if new.contains(t) && t != k {
                        let i = new.index_of(t);
                        assert(ks[if i < a { i } else { i - 1 }] == t);
                    }
                }
                assert forall|t: Seq<char>| self@.contains_key(t) implies #[trigger] self@[t]
                    == before@.insert(k, value)[t] by {
                    let i = new.index_of(t);
                    assert(new[i] == t);
                    self.row_stands(i);
                    if t == k {
                        self.row_stands(a);
                    } else {
                        let i0 = if i < a { i } else { i - 1 };
                        assert(i != a);
                        assert(ks[i0] == t);
                        before.row_stands(i0);
                    }
                }
                assert(self@ =~= before@.insert(k, value));
            }
        }
    }

    /// The value under a key.
    pub fn get(&self, key: &str) -> (r: Option<&V>)
        requires
            self.wf(),
        ensures
            match r {
                Some(v) => self@.contains_key(key@) && *v == self@[key@],
                None => !self@.contains_key(key@),
            },
    {
        let (at, hit) = self.find(key);
        if hit {
            proof {
                self.row_stands(at as int);
            }
            Some(&self.rows[at].1)
        } else {
            None
        }
    }

    /// How many keys there are.
    pub fn len(&self) -> (r: usize)
        ensures
            r == self.keys().len(),
    {
        self.rows.len()
    }

    pub fn is_empty(&self) -> (r: bool)
        ensures
            r == (self.keys().len() == 0),
    {
        self.rows.len() == 0
    }
}

/// The keys of a table are those of its map, each once.
pub proof fn keys_are_the_domain<V>(t: &TextTable<V>)
    requires
        t.wf(),
    ensures
        t.keys().to_set() == t@.dom(),
        t.keys().no_duplicates(),
        t@.dom().finite(),
        t@.dom().len() == t.keys().len(),
{
    let ks = t.keys();
    assert(ks.to_set() =~= t@.dom());
    assert forall|i: int, j: int| 0 <= i < ks.len() && 0 <= j < ks.len() && i != j implies ks[i]
        != ks[j] by {
        text_less_total(ks[i], ks[i]);
        if i < j {
            assert(text_less(ks[i], ks[j]));
        } else {
            assert(text_less(ks[j], ks[i]));
        }
    }
    ks.unique_seq_to_set();
}

} // verus!
