//! Stable sorting by a total preorder.

use vstd::prelude::*;

verus! {

/// `s` with `x` put behind the last item that is not greater than it.
pub open spec fn insert_by<T>(s: Seq<T>, x: T, le: spec_fn(T, T) -> bool) -> Seq<T>
    decreases s.len(),
{
    if s.len() == 0 || le(s.last(), x) {
        s.push(x)
    } else {
        insert_by(s.drop_last(), x, le).push(s.last())
    }
}

/// `s` in ascending order, items of equal rank in the order in which they came.
pub open spec fn stable_sort<T>(s: Seq<T>, le: spec_fn(T, T) -> bool) -> Seq<T>
    decreases s.len(),
{
    if s.len() == 0 {
        s
    } else {
        insert_by(stable_sort(s.drop_last(), le), s.last(), le)
    }
}

/// Any two items compare, and the comparison is transitive.
pub open spec fn is_ranking<T>(le: spec_fn(T, T) -> bool) -> bool {
    &&& forall|a: T, b: T| #[trigger] le(a, b) || le(b, a)
    &&& forall|a: T, b: T, c: T| #[trigger] le(a, b) && #[trigger] le(b, c) ==> le(a, c)
}

/// Every item is at most every later one.
pub open spec fn is_ascending<T>(s: Seq<T>, le: spec_fn(T, T) -> bool) -> bool {
    forall|i: int, j: int| 0 <= i < j < s.len() ==> #[trigger] le(s[i], s[j])
}

/// The items of the same rank as `x`.
pub open spec fn same_rank<T>(x: T, le: spec_fn(T, T) -> bool) -> spec_fn(T) -> bool {
    |y: T| le(x, y) && le(y, x)
}

proof fn lemma_insert_at<T>(s: Seq<T>, x: T, le: spec_fn(T, T) -> bool, pos: int)
    requires
        0 <= pos <= s.len(),
        forall|i: int| pos <= i < s.len() ==> !le(#[trigger] s[i], x),
        pos > 0 ==> le(s[pos - 1], x),
    ensures
        insert_by(s, x, le) == s.insert(pos, x),
    decreases s.len(),
{
    if pos < s.len() {
        let t = s.drop_last();
        assert(!le(s[s.len() - 1], x));
        assert forall|i: int| pos <= i < t.len() implies !le(#[trigger] t[i], x) by {
            assert(!le(s[i], x));
        }
        lemma_insert_at(t, x, le, pos);
        assert(t.insert(pos, x).push(s.last()) =~= s.insert(pos, x));
    } else {
        assert(s.insert(pos, x) =~= s.push(x));
    }
}

/// Pushing onto a filtered sequence: the new item stays if it is wanted.
pub proof fn lemma_filter_push<A>(s: Seq<A>, keep: spec_fn(A) -> bool, x: A)
    ensures
        s.push(x).filter(keep) == if keep(x) {
            s.filter(keep).push(x)
        } else {
            s.filter(keep)
        },
{
    reveal(Seq::filter);
    assert(s.push(x).drop_last() =~= s);
}

/// Filtering drops nothing where everything is wanted.
pub proof fn lemma_all_kept<T>(s: Seq<T>, keep: spec_fn(T) -> bool)
    requires
        forall|i: int| 0 <= i < s.len() ==> keep(#[trigger] s[i]),
    ensures
        s.filter(keep) == s,
    decreases s.len(),
{
    reveal(Seq::filter);
    if s.len() > 0 {
        let t = s.drop_last();
        assert forall|i: int| 0 <= i < t.len() implies keep(#[trigger] t[i]) by {
            assert(keep(s[i]));
        }
        assert(keep(s[s.len() - 1]));
        lemma_all_kept(t, keep);
        assert(s =~= t.push(s.last()));
    } else {
        assert(s.filter(keep) =~= s);
    }
}

/// Where filtering drops nothing, everything is as it was.
pub proof fn lemma_none_dropped<T>(s: Seq<T>, keep: spec_fn(T) -> bool)
    ensures
        s.filter(keep).len() <= s.len(),
        s.filter(keep).len() == s.len() ==> s.filter(keep) == s,
    decreases s.len(),
{
    reveal(Seq::filter);
    if s.len() > 0 {
        lemma_none_dropped(s.drop_last(), keep);
        assert(s =~= s.drop_last().push(s.last()));
    } else {
        assert(s.filter(keep) =~= s);
    }
}

/// Filtering by one wish and by another is filtering by both.
pub proof fn lemma_filter_twice<T>(
    s: Seq<T>,
    first: spec_fn(T) -> bool,
    second: spec_fn(T) -> bool,
    both: spec_fn(T) -> bool,
)
    requires
        forall|x: T| #[trigger] both(x) == (first(x) && second(x)),
    ensures
        s.filter(first).filter(second) == s.filter(both),
    decreases s.len(),
{
    reveal(Seq::filter);
    if s.len() > 0 {
        let rest = s.drop_last();
        let x = s.last();
        lemma_filter_twice(rest, first, second, both);
        assert(both(x) == (first(x) && second(x)));
        lemma_filter_push(rest.filter(first), second, x);
    }
}

/// Filtering keeps the wanted items and no others.
pub proof fn lemma_filter_members<A>(s: Seq<A>, keep: spec_fn(A) -> bool)
    ensures
        forall|i: int| 0 <= i < s.filter(keep).len() ==> keep(#[trigger] s.filter(keep)[i]) && s.contains(s.filter(keep)[i]),
        forall|i: int| 0 <= i < s.len() && keep(#[trigger] s[i]) ==> s.filter(keep).contains(s[i]),
    decreases s.len(),
{
    reveal(Seq::filter);
    if s.len() > 0 {
        let t = s.drop_last();
        let x = s.last();
        let kept = t.filter(keep);
        lemma_filter_members(t, keep);
        assert forall|i: int| 0 <= i < s.filter(keep).len() implies keep(#[trigger] s.filter(keep)[i]) && s.contains(
            s.filter(keep)[i],
        ) by {
            if i < kept.len() {
                assert(t.contains(kept[i]));
                let k = choose|k: int| 0 <= k < t.len() && t[k] == kept[i];
                assert(s[k] == kept[i]);
            } else {
                assert(s[s.len() - 1] == x);
            }
        }
        assert forall|i: int| 0 <= i < s.len() && keep(#[trigger] s[i]) implies s.filter(keep).contains(s[i]) by {
            if i < t.len() {
                assert(t[i] == s[i]);
                assert(kept.contains(t[i]));
                let k = choose|k: int| 0 <= k < kept.len() && kept[k] == t[i];
                assert(s.filter(keep)[k] == s[i]);
            } else {
                assert(s.filter(keep)[kept.len() as int] == x);
            }
        }
    }
}

proof fn lemma_insert_keeps_items<T>(s: Seq<T>, x: T, le: spec_fn(T, T) -> bool)
    ensures
        insert_by(s, x, le).len() == s.len() + 1,
        insert_by(s, x, le).to_multiset() == s.to_multiset().insert(x),
    decreases s.len(),
{
    broadcast use vstd::seq_lib::group_to_multiset_ensures;

    if s.len() == 0 || le(s.last(), x) {
    } else {
        lemma_insert_keeps_items(s.drop_last(), x, le);
        assert(s =~= s.drop_last().push(s.last()));
        assert(s.drop_last().to_multiset().insert(x).insert(s.last()) =~= s.drop_last().to_multiset().insert(
            s.last(),
        ).insert(x));
    }
}

/// Sorting neither adds nor loses an item.
pub proof fn lemma_sort_keeps_items<T>(s: Seq<T>, le: spec_fn(T, T) -> bool)
    ensures
        stable_sort(s, le).len() == s.len(),
        stable_sort(s, le).to_multiset() == s.to_multiset(),
    decreases s.len(),
{
    broadcast use vstd::seq_lib::group_to_multiset_ensures;

    if s.len() > 0 {
        lemma_sort_keeps_items(s.drop_last(), le);
        lemma_insert_keeps_items(stable_sort(s.drop_last(), le), s.last(), le);
        assert(s =~= s.drop_last().push(s.last()));
    }
}

proof fn lemma_insert_ascending<T>(s: Seq<T>, x: T, le: spec_fn(T, T) -> bool, bound: T)
    requires
        is_ranking(le),
        is_ascending(s, le),
    ensures
        is_ascending(insert_by(s, x, le), le),
        (forall|i: int| 0 <= i < s.len() ==> le(#[trigger] s[i], bound)) && le(x, bound) ==> forall|i: int|
            0 <= i < insert_by(s, x, le).len() ==> le(#[trigger] insert_by(s, x, le)[i], bound),
    decreases s.len(),
{
    let r = insert_by(s, x, le);
    if s.len() == 0 || le(s.last(), x) {
        assert forall|i: int, j: int| 0 <= i < j < r.len() implies #[trigger] le(r[i], r[j]) by {
            if j == s.len() && i < s.len() - 1 {
                assert(le(s[i], s[s.len() - 1]));
            }
        }
    } else {
        let t = s.drop_last();
        let m = s.last();
        assert forall|i: int, j: int| 0 <= i < j < t.len() implies #[trigger] le(t[i], t[j]) by {
            assert(le(s[i], s[j]));
        }
        assert forall|i: int| 0 <= i < t.len() implies le(#[trigger] t[i], m) by {
            assert(le(s[i], s[s.len() - 1]));
        }
        assert(le(x, m) || le(m, x));
        lemma_insert_ascending(t, x, le, m);
        lemma_insert_ascending(t, x, le, bound);
        let inner = insert_by(t, x, le);
        assert forall|i: int, j: int| 0 <= i < j < r.len() implies #[trigger] le(r[i], r[j]) by {
            if j < inner.len() {
                assert(le(inner[i], inner[j]));
            } else {
                assert(le(inner[i], m));
            }
        }
        if (forall|i: int| 0 <= i < s.len() ==> le(#[trigger] s[i], bound)) && le(x, bound) {
            assert forall|i: int| 0 <= i < t.len() implies le(#[trigger] t[i], bound) by {
                assert(le(s[i], bound));
            }
            assert(le(s[s.len() - 1], bound));
            assert forall|i: int| 0 <= i < r.len() implies le(#[trigger] r[i], bound) by {
                if i < inner.len() {
                    assert(le(inner[i], bound));
                }
            }
        }
    }
}

/// Sorting puts every item at or after those that are at most it.
pub proof fn lemma_sort_ascending<T>(s: Seq<T>, le: spec_fn(T, T) -> bool)
    requires
        is_ranking(le),
    ensures
        is_ascending(stable_sort(s, le), le),
    decreases s.len(),
{
    if s.len() > 0 {
        lemma_sort_ascending(s.drop_last(), le);
        lemma_insert_ascending(stable_sort(s.drop_last(), le), s.last(), le, s.last());
    }
}

/// Sorting what is in order changes nothing.
pub proof fn lemma_in_order_already<T>(s: Seq<T>, le: spec_fn(T, T) -> bool)
    requires
        is_ascending(s, le),
    ensures
        stable_sort(s, le) == s,
    decreases s.len(),
{
    if s.len() > 0 {
        let t = s.drop_last();
        assert forall|i: int, j: int| 0 <= i < j < t.len() implies #[trigger] le(t[i], t[j]) by {
            assert(le(s[i], s[j]));
        }
        lemma_in_order_already(t, le);
        if t.len() > 0 {
            assert(le(s[t.len() - 1], s[s.len() - 1]));
        }
        assert(s =~= t.push(s.last()));
    }
}

proof fn lemma_insert_stable<T>(s: Seq<T>, y: T, le: spec_fn(T, T) -> bool, x: T)
    requires
        is_ranking(le),
    ensures
        insert_by(s, y, le).filter(same_rank(x, le)) == s.push(y).filter(same_rank(x, le)),
    decreases s.len(),
{
    let keep = same_rank(x, le);
    if s.len() == 0 || le(s.last(), y) {
    } else {
        let t = s.drop_last();
        let m = s.last();
        lemma_insert_stable(t, y, le, x);
        assert(s =~= t.push(m));
        lemma_filter_push(insert_by(t, y, le), keep, m);
        lemma_filter_push(t, keep, y);
        lemma_filter_push(t, keep, m);
        lemma_filter_push(s, keep, y);
        assert(le(y, m) || le(m, y));
        assert(!(keep(y) && keep(m))) by {
            if keep(y) && keep(m) {
                assert(le(m, x) && le(x, y));
                assert(le(m, y));
            }
        }
    }
}

/// Sorting leaves items of equal rank in the order in which they came.
pub proof fn lemma_sort_stable<T>(s: Seq<T>, le: spec_fn(T, T) -> bool, x: T)
    requires
        is_ranking(le),
    ensures
        stable_sort(s, le).filter(same_rank(x, le)) == s.filter(same_rank(x, le)),
    decreases s.len(),
{
    let keep = same_rank(x, le);
    if s.len() > 0 {
        let t = s.drop_last();
        lemma_sort_stable(t, le, x);
        lemma_insert_stable(stable_sort(t, le), s.last(), le, x);
        lemma_filter_push(stable_sort(t, le), keep, s.last());
        lemma_filter_push(t, keep, s.last());
        assert(s =~= t.push(s.last()));
    }
}

/// Stable insertion sort. `before(a, b)` says whether `a` may stand in front of `b`.
pub(crate) fn sort_by<T: DeepView, F: Fn(&T, &T) -> bool>(
    items: Vec<T>,
    before: F,
    Ghost(le): Ghost<spec_fn(T::V, T::V) -> bool>,
) -> (sorted: Vec<T>)
    requires
        forall|a: &T, b: &T| before.requires((a, b)),
        forall|a: &T, b: &T, r: bool|
            before.ensures((a, b), r) ==> r == le(a.deep_view(), b.deep_view()),
    ensures
        sorted.deep_view() == stable_sort(items.deep_view(), le),
        sorted@.len() == items@.len(),
{
    let ghost all = items.deep_view();
    let mut rest = items;
    let mut sorted: Vec<T> = Vec::new();
    let ghost mut n: int = 0;
    proof {
        assert(rest.deep_view() =~= all.skip(0));
        assert(sorted.deep_view() =~= stable_sort(all.take(0), le));
    }
    while rest.len() > 0
        invariant
            forall|a: &T, b: &T| before.requires((a, b)),
            forall|a: &T, b: &T, r: bool|
                before.ensures((a, b), r) ==> r == le(a.deep_view(), b.deep_view()),
            0 <= n <= all.len(),
            rest.deep_view() == all.skip(n),
            sorted.deep_view() == stable_sort(all.take(n), le),
            rest@.len() + sorted@.len() == all.len(),
        decreases rest@.len(),
    {
        let ghost before_rest = rest.deep_view();
        let x = rest.remove(0);
        proof {
            assert(x.deep_view() == before_rest[0]);
            assert(rest.deep_view() =~= before_rest.skip(1));
            assert(before_rest.skip(1) =~= all.skip(n + 1));
        }
        let mut pos: usize = sorted.len();
        while pos > 0 && !before(&sorted[pos - 1], &x)
            invariant
                forall|a: &T, b: &T| before.requires((a, b)),
                forall|a: &T, b: &T, r: bool|
                    before.ensures((a, b), r) ==> r == le(a.deep_view(), b.deep_view()),
                pos <= sorted@.len(),
                forall|i: int|
                    pos <= i < sorted@.len() ==> !le(#[trigger] sorted.deep_view()[i], x.deep_view()),
            decreases pos,
        {
            pos = pos - 1;
        }
        let ghost s = sorted.deep_view();
        let ghost v = x.deep_view();
        sorted.insert(pos, x);
        proof {
            lemma_insert_at(s, v, le, pos as int);
            assert(sorted.deep_view() =~= s.insert(pos as int, v));
            assert(all.take(n + 1).drop_last() =~= all.take(n));
            n = n + 1;
        }
    }
    proof {
        assert(all.take(n) =~= all);
    }
    sorted
}

} // verus!
