//! Stable sorting and removal of repeats, over any strict order.

use vstd::prelude::*;
use vstd::seq_lib::group_to_multiset_ensures;

verus! {

/// The views of a sequence of values.
pub open spec fn views<T: View>(s: Seq<T>) -> Seq<T::V> {
    Seq::new(s.len(), |i: int| s[i]@)
}

/// `s` with `x` placed behind everything that need not come after it.
pub open spec fn insert_by<T>(s: Seq<T>, x: T, before: spec_fn(T, T) -> bool) -> Seq<T>
    decreases s.len(),
{
    if s.len() > 0 && before(x, s.last()) {
        insert_by(s.drop_last(), x, before).push(s.last())
    } else {
        s.push(x)
    }
}

/// `s` in the order of `before`; what the order does not tell apart stays as
/// it was.
pub open spec fn sort_by<T>(s: Seq<T>, before: spec_fn(T, T) -> bool) -> Seq<T>
    decreases s.len(),
{
    if s.len() == 0 {
        s
    } else {
        insert_by(sort_by(s.drop_last(), before), s.last(), before)
    }
}

/// No element must come before an earlier one.
pub open spec fn in_order<T>(s: Seq<T>, before: spec_fn(T, T) -> bool) -> bool {
    forall|i: int, j: int| 0 <= i < j < s.len() ==> !before(#[trigger] s[j], #[trigger] s[i])
}

/// A strict order in which "neither before the other" is an equivalence.
pub open spec fn weak_order<T>(before: spec_fn(T, T) -> bool) -> bool {
    &&& forall|a: T, b: T| #[trigger] before(a, b) ==> !before(b, a)
    &&& forall|a: T, b: T, c: T|
        !(#[trigger] before(a, b)) && !(#[trigger] before(b, c)) ==> !before(a, c)
}

proof fn insert_keeps<T>(s: Seq<T>, x: T, before: spec_fn(T, T) -> bool)
    ensures
        insert_by(s, x, before).to_multiset() == s.to_multiset().insert(x),
        insert_by(s, x, before).len() == s.len() + 1,
    decreases s.len(),
{
    broadcast use group_to_multiset_ensures;

    if s.len() > 0 && before(x, s.last()) {
        insert_keeps(s.drop_last(), x, before);
        assert(s =~= s.drop_last().push(s.last()));
        assert(insert_by(s, x, before).to_multiset() =~= s.to_multiset().insert(x));
    }
}

proof fn insert_in_order<T>(s: Seq<T>, x: T, before: spec_fn(T, T) -> bool)
    requires
        weak_order(before),
        in_order(s, before),
    ensures
        in_order(insert_by(s, x, before), before),
        forall|i: int|
            0 <= i < insert_by(s, x, before).len() ==> (#[trigger] insert_by(s, x, before)[i] == x
                || s.contains(insert_by(s, x, before)[i])),
    decreases s.len(),
{
    let r = insert_by(s, x, before);
    insert_keeps(s, x, before);
    if s.len() > 0 && before(x, s.last()) {
        let head = s.drop_last();
        insert_in_order(head, x, before);
        let h = insert_by(head, x, before);
        insert_keeps(head, x, before);
        assert forall|i: int| 0 <= i < r.len() implies (#[trigger] r[i] == x || s.contains(r[i])) by {
            if i < h.len() {
                assert(h[i] == x || head.contains(h[i]));
                if head.contains(h[i]) {
                    let j = choose|j: int| 0 <= j < head.len() && head[j] == h[i];
                    assert(s[j] == h[i]);
                }
            } else {
                assert(s[s.len() - 1] == r[i]);
            }
        }
        assert forall|i: int, j: int| 0 <= i < j < r.len() implies !before(
            #[trigger] r[j],
            #[trigger] r[i],
        ) by {
            if j < h.len() {
                assert(!before(h[j], h[i]));
            } else {
                assert(h[i] == x || head.contains(h[i]));
                if head.contains(h[i]) {
                    let n = choose|n: int| 0 <= n < head.len() && head[n] == h[i];
                    assert(s[n] == h[i]);
                    assert(!before(s[s.len() - 1], s[n]));
                }
            }
        }
    } else {
        assert forall|i: int| 0 <= i < r.len() implies (#[trigger] r[i] == x || s.contains(r[i])) by {
            if i < s.len() {
                assert(s[i] == r[i]);
            }
        }
        assert forall|i: int, j: int| 0 <= i < j < r.len() implies !before(
            #[trigger] r[j],
            #[trigger] r[i],
        ) by {
            if j < s.len() {
                assert(!before(s[j], s[i]));
            } else if i < s.len() - 1 {
                assert(!before(s[s.len() - 1], s[i]));
                assert(!before(x, s[s.len() - 1]));
            }
        }
    }
}

/// Sorting puts the elements in order and neither adds nor drops any.
pub proof fn sorting_orders<T>(s: Seq<T>, before: spec_fn(T, T) -> bool)
    requires
        weak_order(before),
    ensures
        in_order(sort_by(s, before), before),
        sort_by(s, before).to_multiset() == s.to_multiset(),
        sort_by(s, before).len() == s.len(),
    decreases s.len(),
{
    sorting_keeps(s, before);
    if s.len() > 0 {
        sorting_orders(s.drop_last(), before);
        insert_in_order(sort_by(s.drop_last(), before), s.last(), before);
    }
}

/// Sorting neither adds nor drops an element, whatever the order.
pub proof fn sorting_keeps<T>(s: Seq<T>, before: spec_fn(T, T) -> bool)
    ensures
        sort_by(s, before).to_multiset() == s.to_multiset(),
        sort_by(s, before).len() == s.len(),
    decreases s.len(),
{
    broadcast use group_to_multiset_ensures;

    if s.len() > 0 {
        sorting_keeps(s.drop_last(), before);
        insert_keeps(sort_by(s.drop_last(), before), s.last(), before);
        assert(s =~= s.drop_last().push(s.last()));
        assert(sort_by(s, before).to_multiset() =~= s.to_multiset());
    }
}

/// What stands in a sorted sequence was there before.
pub proof fn sorted_from<T>(s: Seq<T>, before: spec_fn(T, T) -> bool)
    ensures
        forall|x: T| #[trigger] sort_by(s, before).contains(x) <==> s.contains(x),
{
    broadcast use group_to_multiset_ensures;

    sorting_keeps(s, before);
    assert forall|x: T| #[trigger] sort_by(s, before).contains(x) <==> s.contains(x) by {
        assert(sort_by(s, before).contains(x) <==> sort_by(s, before).to_multiset().count(x) > 0);
        assert(s.contains(x) <==> s.to_multiset().count(x) > 0);
    }
}

proof fn insert_views<T: View>(
    s: Seq<T>,
    x: T,
    of: spec_fn(T, T) -> bool,
    before: spec_fn(T::V, T::V) -> bool,
)
    requires
        forall|a: T, b: T| #[trigger] of(a, b) == before(a@, b@),
    ensures
        views(insert_by(s, x, of)) == insert_by(views(s), x@, before),
    decreases s.len(),
{
    if s.len() > 0 {
        assert(views(s).last() == s.last()@);
        assert(of(x, s.last()) == before(x@, s.last()@));
        if of(x, s.last()) {
            insert_views(s.drop_last(), x, of, before);
            assert(views(s).drop_last() =~= views(s.drop_last()));
            assert(views(insert_by(s, x, of)) =~= views(insert_by(s.drop_last(), x, of)).push(
                s.last()@,
            ));
        } else {
            assert(views(s.push(x)) =~= views(s).push(x@));
        }
    } else {
        assert(views(s.push(x)) =~= views(s).push(x@));
    }
}

/// Sorting values by their views sorts the views.
pub proof fn sort_views<T: View>(
    s: Seq<T>,
    of: spec_fn(T, T) -> bool,
    before: spec_fn(T::V, T::V) -> bool,
)
    requires
        forall|a: T, b: T| #[trigger] of(a, b) == before(a@, b@),
    ensures
        views(sort_by(s, of)) == sort_by(views(s), before),
    decreases s.len(),
{
    if s.len() > 0 {
        sort_views(s.drop_last(), of, before);
        insert_views(sort_by(s.drop_last(), of), s.last(), of, before);
        assert(views(s).drop_last() =~= views(s.drop_last()));
        assert(views(s).last() == s.last()@);
    } else {
        assert(views(s) =~= Seq::<T::V>::empty());
    }
}

/// Sorts by `less`, which decides `before` on views.
pub(crate) fn sort_vec<T: View, F: Fn(&T, &T) -> bool>(
    items: Vec<T>,
    less: F,
    Ghost(before): Ghost<spec_fn(T::V, T::V) -> bool>,
) -> (r: Vec<T>)
    requires
        forall|a: &T, b: &T| #[trigger] call_requires(less, (a, b)),
        forall|a: &T, b: &T, o: bool| #[trigger]
            call_ensures(less, (a, b), o) ==> o == before(a@, b@),
    ensures
        views(r@) == sort_by(views(items@), before),
{
    let ghost of = |a: T, b: T| before(a@, b@);
    let ghost all = items@;
    let mut rest: Vec<T> = items;
    let mut out: Vec<T> = Vec::new();
    let ghost mut n: int = 0;
    while rest.len() > 0
        invariant
            forall|a: &T, b: &T| #[trigger] call_requires(less, (a, b)),
            forall|a: &T, b: &T, o: bool| #[trigger]
                call_ensures(less, (a, b), o) ==> o == before(a@, b@),
            of == (|a: T, b: T| before(a@, b@)),
            0 <= n <= all.len(),
            rest@ == all.skip(n),
            out@ == sort_by(all.take(n), of),
        decreases rest.len(),
    {
        let x = rest.remove(0);
        let ghost sorted = out@;
        let mut at: usize = out.len();
        proof {
            assert(sorted.take(at as int) =~= sorted);
            assert(insert_by(sorted, x, of) + sorted.skip(at as int) =~= insert_by(sorted, x, of));
        }
        while at > 0 && less(&x, &out[at - 1])
            invariant
                at <= out.len(),
                out@ == sorted,
                forall|a: &T, b: &T| #[trigger] call_requires(less, (a, b)),
                forall|a: &T, b: &T, o: bool| #[trigger]
                    call_ensures(less, (a, b), o) ==> o == before(a@, b@),
                of == (|a: T, b: T| before(a@, b@)),
                insert_by(sorted, x, of) == insert_by(sorted.take(at as int), x, of)
                    + sorted.skip(at as int),
            decreases at,
        {
            proof {
                let t = sorted.take(at as int);
                assert(t.last() == sorted[at - 1]);
                assert(t.drop_last() =~= sorted.take(at - 1));
                assert(insert_by(t, x, of) + sorted.skip(at as int) =~= insert_by(
                    sorted.take(at - 1),
                    x,
                    of,
                ) + sorted.skip(at - 1));
            }
            at -= 1;
        }
        proof {
            assert(sorted.take(sorted.len() as int) =~= sorted);
            let t = sorted.take(at as int);
            if at > 0 {
                assert(t.last() == sorted[at - 1]);
            }
            assert(insert_by(t, x, of) =~= t.push(x));
            assert(sorted.insert(at as int, x) =~= t.push(x) + sorted.skip(at as int));
            assert(all.take(n + 1).drop_last() =~= all.take(n));
            assert(all.take(n + 1).last() == x);
            assert(all.skip(n).remove(0) =~= all.skip(n + 1));
            n = n + 1;
        }
        out.insert(at, x);
    }
    proof {
        assert(all.take(n) =~= all);
        sort_views(all, of, before);
    }
    out
}

/// `s` without each element that repeats the last one kept.
pub open spec fn dedup_by<T>(s: Seq<T>, same: spec_fn(T, T) -> bool) -> Seq<T>
    decreases s.len(),
{
    if s.len() == 0 {
        s
    } else {
        let head = dedup_by(s.drop_last(), same);
        if head.len() > 0 && same(s.last(), head.last()) {
            head
        } else {
            head.push(s.last())
        }
    }
}

/// What is left after removing repeats was there before.
pub proof fn dedup_from<T>(s: Seq<T>, same: spec_fn(T, T) -> bool)
    ensures
        forall|x: T| #[trigger] dedup_by(s, same).contains(x) ==> s.contains(x),
        dedup_by(s, same).len() <= s.len(),
    decreases s.len(),
{
    if s.len() > 0 {
        dedup_from(s.drop_last(), same);
        let r = dedup_by(s, same);
        let head = dedup_by(s.drop_last(), same);
        assert forall|x: T| #[trigger] r.contains(x) implies s.contains(x) by {
            let i = choose|i: int| 0 <= i < r.len() && r[i] == x;
            if i < head.len() {
                assert(head[i] == x);
                assert(head.contains(x));
                let j = choose|j: int| 0 <= j < s.drop_last().len() && s.drop_last()[j] == x;
                assert(s[j] == x);
            } else {
                assert(s[s.len() - 1] == x);
            }
        }
    }
}

/// Removes repeats of the last element kept; `equal` decides `same` on views.
pub(crate) fn dedup_vec<T: View, F: Fn(&T, &T) -> bool>(
    items: Vec<T>,
    equal: F,
    Ghost(same): Ghost<spec_fn(T::V, T::V) -> bool>,
) -> (r: Vec<T>)
    requires
        forall|a: &T, b: &T| #[trigger] call_requires(equal, (a, b)),
        forall|a: &T, b: &T, o: bool| #[trigger]
            call_ensures(equal, (a, b), o) ==> o == same(a@, b@),
    ensures
        views(r@) == dedup_by(views(items@), same),
{
    let ghost all = items@;
    let mut rest: Vec<T> = items;
    let mut out: Vec<T> = Vec::new();
    let ghost mut n: int = 0;
    assert(views(out@) =~= dedup_by(views(all).take(0), same));
    while rest.len() > 0
        invariant
            forall|a: &T, b: &T| #[trigger] call_requires(equal, (a, b)),
            forall|a: &T, b: &T, o: bool| #[trigger]
                call_ensures(equal, (a, b), o) ==> o == same(a@, b@),
            0 <= n <= all.len(),
            rest@ == all.skip(n),
            views(out@) == dedup_by(views(all).take(n), same),
        decreases rest.len(),
    {
        let x = rest.remove(0);
        let ghost kept = out@;
        let repeat = if out.len() > 0 {
            equal(&x, &out[out.len() - 1])
        } else {
            false
        };
        proof {
            let t = views(all).take(n + 1);
            assert(t.drop_last() =~= views(all).take(n));
            assert(t.last() == x@);
            assert(all.skip(n).remove(0) =~= all.skip(n + 1));
            if kept.len() > 0 {
                assert(views(kept).last() == kept.last()@);
            }
            assert(views(kept.push(x)) =~= views(kept).push(x@));
            n = n + 1;
        }
        if !repeat {
            out.push(x);
        }
    }
    assert(views(all).take(n) =~= views(all));
    out
}

/// Removing repeats drops an element only where one that it repeats stays.
pub proof fn dedup_covers<T>(s: Seq<T>, same: spec_fn(T, T) -> bool)
    ensures
        forall|x: T| #[trigger]
            s.contains(x) ==> exists|i: int|
                0 <= i < dedup_by(s, same).len() && (#[trigger] dedup_by(s, same)[i] == x || same(
                    x,
                    dedup_by(s, same)[i],
                )),
    decreases s.len(),
{
    if s.len() > 0 {
        let head = s.drop_last();
        dedup_covers(head, same);
        let r = dedup_by(s, same);
        let h = dedup_by(head, same);
        assert forall|x: T| #[trigger] s.contains(x) implies exists|i: int|
            0 <= i < r.len() && (#[trigger] r[i] == x || same(x, r[i])) by {
            let n = choose|n: int| 0 <= n < s.len() && s[n] == x;
            if n < head.len() {
                assert(head[n] == x);
                assert(head.contains(x));
                let i = choose|i: int| 0 <= i < h.len() && (#[trigger] h[i] == x || same(x, h[i]));
                assert(r[i] == h[i]);
            } else {
                assert(r[r.len() - 1] == x || same(x, r[r.len() - 1]));
            }
        }
    }
}

/// Removing repeats keeps the order.
pub proof fn dedup_in_order<T>(
    s: Seq<T>,
    same: spec_fn(T, T) -> bool,
    before: spec_fn(T, T) -> bool,
)
    requires
        in_order(s, before),
    ensures
        in_order(dedup_by(s, same), before),
    decreases s.len(),
{
    if s.len() > 0 {
        let head = s.drop_last();
        assert(in_order(head, before)) by {
            assert forall|i: int, j: int| 0 <= i < j < head.len() implies !before(
                #[trigger] head[j],
                #[trigger] head[i],
            ) by {
                assert(!before(s[j], s[i]));
            }
        }
        dedup_in_order(head, same, before);
        dedup_from(head, same);
        let r = dedup_by(s, same);
        let h = dedup_by(head, same);
        assert forall|i: int, j: int| 0 <= i < j < r.len() implies !before(
            #[trigger] r[j],
            #[trigger] r[i],
        ) by {
            if j < h.len() {
                assert(!before(h[j], h[i]));
            } else {
                assert(h.contains(h[i]));
                let n = choose|n: int| 0 <= n < head.len() && head[n] == h[i];
                assert(s[n] == h[i]);
                assert(!before(s[s.len() - 1], s[n]));
            }
        }
    }
}

/// What comes neither before nor after `c`.
pub open spec fn equal_to<T>(c: T, before: spec_fn(T, T) -> bool) -> spec_fn(T) -> bool {
    |x: T| !before(x, c) && !before(c, x)
}

/// The items that come neither before nor after `c`, in their order.
pub open spec fn equals_of<T>(s: Seq<T>, c: T, before: spec_fn(T, T) -> bool) -> Seq<T> {
    s.filter(equal_to(c, before))
}

proof fn inserting_is_stable<T>(s: Seq<T>, x: T, c: T, before: spec_fn(T, T) -> bool)
    requires
        weak_order(before),
        in_order(s, before),
    ensures
        equals_of(insert_by(s, x, before), c, before) == equals_of(s.push(x), c, before),
    decreases s.len(),
{
    reveal(Seq::filter);
    let p = equal_to(c, before);
    assert(s.push(x).drop_last() =~= s);
    if s.len() > 0 && before(x, s.last()) {
        let t = s.drop_last();
        let l = s.last();
        assert forall|i: int, j: int| 0 <= i < j < t.len() implies !before(
            #[trigger] t[j],
            #[trigger] t[i],
        ) by {
            assert(!before(s[j], s[i]));
        }
        inserting_is_stable(t, x, c, before);
        let r = insert_by(t, x, before);
        assert(r.push(l).drop_last() =~= r);
        assert(t.push(x).drop_last() =~= t);
        assert(!(p(x) && p(l)));
        assert(r.push(l).filter(p) == (if p(l) {
            r.filter(p).push(l)
        } else {
            r.filter(p)
        }));
        assert(s.filter(p) == (if p(l) {
            t.filter(p).push(l)
        } else {
            t.filter(p)
        }));
        assert(t.push(x).filter(p) == (if p(x) {
            t.filter(p).push(x)
        } else {
            t.filter(p)
        }));
    }
}

/// Sorting is stable: items that come neither before nor after each other keep
/// the order they had.
pub proof fn sorting_is_stable<T>(s: Seq<T>, c: T, before: spec_fn(T, T) -> bool)
    requires
        weak_order(before),
    ensures
        equals_of(sort_by(s, before), c, before) == equals_of(s, c, before),
    decreases s.len(),
{
    if s.len() > 0 {
        let t = s.drop_last();
        let x = s.last();
        sorting_is_stable(t, c, before);
        sorting_orders(t, before);
        inserting_is_stable(sort_by(t, before), x, c, before);
        reveal(Seq::filter);
        assert(sort_by(t, before).push(x).drop_last() =~= sort_by(t, before));
    }
}

/// Of items that are the same and stand together the first is kept: no two that
/// are left beside each other are the same.
pub proof fn neighbours_differ<T>(s: Seq<T>, same: spec_fn(T, T) -> bool, i: int)
    requires
        0 <= i < dedup_by(s, same).len() - 1,
    ensures
        !same(dedup_by(s, same)[i + 1], dedup_by(s, same)[i]),
    decreases s.len(),
{
    let head = dedup_by(s.drop_last(), same);
    if i < head.len() - 1 {
        neighbours_differ(s.drop_last(), same, i);
    }
}

/// Items of which no two neighbours are the same all stay.
pub proof fn different_neighbours_stay<T>(s: Seq<T>, same: spec_fn(T, T) -> bool)
    requires
        forall|i: int| 0 < i < s.len() ==> !same(#[trigger] s[i], s[i - 1]),
    ensures
        dedup_by(s, same) == s,
    decreases s.len(),
{
    if s.len() > 0 {
        let t = s.drop_last();
        assert forall|i: int| 0 < i < t.len() implies !same(#[trigger] t[i], t[i - 1]) by {
            assert(t[i] == s[i]);
        }
        different_neighbours_stay(t, same);
        if t.len() > 0 {
            assert(!same(s[s.len() - 1], s[s.len() - 2]));
        }
        assert(dedup_by(s, same) =~= s);
    }
}

} // verus!
