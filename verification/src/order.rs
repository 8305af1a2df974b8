//! Stable sorting by a total preorder.
//!
//! The order in which equal items come out decides what a bucket file holds,
//! so the sort is specified exactly: `stable_sort` is the one sorted
//! arrangement in which items that rank alike keep the order they came in.

use vstd::prelude::*;
use vstd::seq_lib::*;

verus! {

/// `le` relates any two items one way or the other.
pub open spec fn total<T>(le: spec_fn(T, T) -> bool) -> bool {
    forall|a: T, b: T| #[trigger] le(a, b) || #[trigger] le(b, a)
}

pub open spec fn transitive<T>(le: spec_fn(T, T) -> bool) -> bool {
    forall|a: T, b: T, c: T| #[trigger] le(a, b) && #[trigger] le(b, c) ==> le(a, c)
}

/// Every item is related to every later one.
pub open spec fn sorted<T>(s: Seq<T>, le: spec_fn(T, T) -> bool) -> bool {
    forall|i: int, j: int| 0 <= i <= j < s.len() ==> #[trigger] le(s[i], s[j])
}

/// Where `x` goes in `s`: behind the last item that may stand before it.
pub open spec fn insert_point<T>(s: Seq<T>, x: T, le: spec_fn(T, T) -> bool) -> nat
    decreases s.len(),
{
    if s.len() == 0 {
        0
    } else if le(s.last(), x) {
        s.len()
    } else {
        insert_point(s.drop_last(), x, le)
    }
}

/// The items of `s` taken one by one from the front, each put behind the last
/// item already placed that may stand before it.
pub open spec fn stable_sort<T>(s: Seq<T>, le: spec_fn(T, T) -> bool) -> Seq<T>
    decreases s.len(),
{
    if s.len() == 0 {
        s
    } else {
        let done = stable_sort(s.drop_last(), le);
        done.insert(insert_point(done, s.last(), le) as int, s.last())
    }
}

pub proof fn lemma_insert_point<T>(s: Seq<T>, x: T, le: spec_fn(T, T) -> bool)
    ensures
        insert_point(s, x, le) <= s.len(),
        forall|k: int| insert_point(s, x, le) <= k < s.len() ==> !le(#[trigger] s[k], x),
        insert_point(s, x, le) > 0 ==> le(s[insert_point(s, x, le) - 1], x),
    decreases s.len(),
{
    if s.len() > 0 && !le(s.last(), x) {
        let front = s.drop_last();
        lemma_insert_point(front, x, le);
        assert forall|k: int| insert_point(s, x, le) <= k < s.len() implies !le(
            #[trigger] s[k],
            x,
        ) by {
            if k < front.len() {
                assert(!le(front[k], x));
            }
        }
    }
}

/// The point is the only index with nothing that may stand before `x` behind
/// it and something that may directly in front of it.
pub proof fn lemma_insert_point_unique<T>(s: Seq<T>, x: T, le: spec_fn(T, T) -> bool, j: int)
    requires
        0 <= j <= s.len(),
        forall|k: int| j <= k < s.len() ==> !le(#[trigger] s[k], x),
        j > 0 ==> le(s[j - 1], x),
    ensures
        insert_point(s, x, le) == j,
    decreases s.len(),
{
    if s.len() > 0 {
        if le(s.last(), x) {
            assert(j == s.len());
        } else {
            lemma_insert_point_unique(s.drop_last(), x, le, j);
        }
    }
}

pub proof fn lemma_stable_sort_len<T>(s: Seq<T>, le: spec_fn(T, T) -> bool)
    ensures
        stable_sort(s, le).len() == s.len(),
    decreases s.len(),
{
    if s.len() > 0 {
        let done = stable_sort(s.drop_last(), le);
        lemma_stable_sort_len(s.drop_last(), le);
        lemma_insert_point(done, s.last(), le);
    }
}

/// Sorting puts the items in order.
pub proof fn lemma_stable_sort_sorted<T>(s: Seq<T>, le: spec_fn(T, T) -> bool)
    requires
        total(le),
        transitive(le),
    ensures
        sorted(stable_sort(s, le), le),
    decreases s.len(),
{
    if s.len() > 0 {
        let done = stable_sort(s.drop_last(), le);
        let x = s.last();
        let p = insert_point(done, x, le) as int;
        lemma_stable_sort_sorted(s.drop_last(), le);
        lemma_insert_point(done, x, le);
        let r = done.insert(p, x);
        assert forall|i: int, j: int| 0 <= i <= j < r.len() implies #[trigger] le(r[i], r[j]) by {
            if i < p && j == p {
                assert(le(done[i], done[p - 1]));
                assert(le(done[p - 1], x));
            } else if i == p && j > p {
                assert(!le(done[j - 1], x));
                assert(le(done[j - 1], x) || le(x, done[j - 1]));
            } else if i == p && j == p {
                assert(le(x, x) || le(x, x));
            } else if i < p && j > p {
                assert(le(done[i], done[j - 1]));
            } else if i < p && j < p {
                assert(le(done[i], done[j]));
            } else {
                assert(le(done[i - 1], done[j - 1]));
            }
        }
    }
}

/// Sorting neither loses nor adds an item.
pub proof fn lemma_stable_sort_permutes<T>(s: Seq<T>, le: spec_fn(T, T) -> bool)
    ensures
        stable_sort(s, le).to_multiset() == s.to_multiset(),
    decreases s.len(),
{
    broadcast use group_to_multiset_ensures;

    if s.len() > 0 {
        let done = stable_sort(s.drop_last(), le);
        let x = s.last();
        let p = insert_point(done, x, le) as int;
        lemma_stable_sort_permutes(s.drop_last(), le);
        lemma_insert_point(done, x, le);
        let r = done.insert(p, x);
        assert(r.remove(p) =~= done);
        assert(r[p] == x);
        assert(r.contains(x));
        assert(r.to_multiset() =~= done.to_multiset().insert(x));
        assert(s =~= s.drop_last().push(x));
        assert(s.to_multiset() =~= s.drop_last().to_multiset().insert(x));
    }
}

/// What is in order already stays as it is.
pub proof fn lemma_stable_sort_of_sorted<T>(s: Seq<T>, le: spec_fn(T, T) -> bool)
    requires
        sorted(s, le),
    ensures
        stable_sort(s, le) == s,
    decreases s.len(),
{
    if s.len() > 0 {
        let front = s.drop_last();
        assert forall|i: int, j: int| 0 <= i <= j < front.len() implies #[trigger] le(
            front[i],
            front[j],
        ) by {
            assert(le(s[i], s[j]));
        }
        lemma_stable_sort_of_sorted(front, le);
        if front.len() > 0 {
            assert(le(s[front.len() - 1], s[s.len() - 1]));
        }
        assert(front.insert(front.len() as int, s.last()) =~= s);
    }
}

/// Sorting in two goes, the second over what the first gave with more items
/// behind it, ends where one sort over all the items ends.
pub proof fn lemma_stable_sort_resumes<T>(a: Seq<T>, b: Seq<T>, le: spec_fn(T, T) -> bool)
    requires
        total(le),
        transitive(le),
    ensures
        stable_sort(stable_sort(a, le) + b, le) == stable_sort(a + b, le),
    decreases b.len(),
{
    if b.len() == 0 {
        assert(stable_sort(a, le) + b =~= stable_sort(a, le));
        assert(a + b =~= a);
        lemma_stable_sort_sorted(a, le);
        lemma_stable_sort_of_sorted(stable_sort(a, le), le);
    } else {
        lemma_stable_sort_resumes(a, b.drop_last(), le);
        assert((stable_sort(a, le) + b).drop_last() =~= stable_sort(a, le) + b.drop_last());
        assert((a + b).drop_last() =~= a + b.drop_last());
    }
}

/// Sorting commutes with a map that keeps the order.
pub proof fn lemma_stable_sort_maps<T, U>(
    s: Seq<T>,
    f: spec_fn(T) -> U,
    le_t: spec_fn(T, T) -> bool,
    le_u: spec_fn(U, U) -> bool,
)
    requires
        forall|a: T, b: T| #[trigger] le_t(a, b) == le_u(f(a), f(b)),
    ensures
        stable_sort(s, le_t).map_values(f) == stable_sort(s.map_values(f), le_u),
    decreases s.len(),
{
    if s.len() == 0 {
        assert(s.map_values(f) =~= Seq::<U>::empty());
        assert(stable_sort(s, le_t).map_values(f) =~= Seq::<U>::empty());
    } else {
        let front = s.drop_last();
        let x = s.last();
        let done = stable_sort(front, le_t);
        lemma_stable_sort_maps(front, f, le_t, le_u);
        assert(s.map_values(f).drop_last() =~= front.map_values(f));
        let done_u = done.map_values(f);
        lemma_insert_point(done, x, le_t);
        let p = insert_point(done, x, le_t) as int;
        assert forall|k: int| p <= k < done_u.len() implies !le_u(#[trigger] done_u[k], f(x)) by {
            assert(!le_t(done[k], x));
        }
        if p > 0 {
            assert(le_t(done[p - 1], x));
        }
        lemma_insert_point_unique(done_u, f(x), le_u, p);
        assert(done.insert(p, x).map_values(f) =~= done_u.insert(p, f(x)));
    }
}

/// What one item more adds to a filtered prefix.
pub proof fn lemma_filter_take<T>(s: Seq<T>, keep: spec_fn(T) -> bool, i: int)
    requires
        0 <= i < s.len(),
    ensures
        s.take(i + 1).filter(keep) == if keep(s[i]) {
            s.take(i).filter(keep).push(s[i])
        } else {
            s.take(i).filter(keep)
        },
{
    reveal(Seq::filter);
    assert(s.take(i + 1).drop_last() =~= s.take(i));
}

/// Of nothing, nothing is kept.
pub proof fn lemma_filter_none<T>(s: Seq<T>, keep: spec_fn(T) -> bool)
    ensures
        s.take(0).filter(keep) == Seq::<T>::empty(),
{
    reveal(Seq::filter);
}

/// Where nothing before `i` is kept and `s[i]` is, the kept items start with
/// `s[i]`.
pub proof fn lemma_filter_first<T>(s: Seq<T>, keep: spec_fn(T) -> bool, i: int, upto: int)
    requires
        0 <= i < upto <= s.len(),
        s.take(i).filter(keep).len() == 0,
        keep(s[i]),
    ensures
        s.take(upto).filter(keep).len() > 0,
        s.take(upto).filter(keep)[0] == s[i],
    decreases upto - i,
{
    lemma_filter_take(s, keep, upto - 1);
    if i + 1 < upto {
        lemma_filter_first(s, keep, i, upto - 1);
    }
}

/// What is kept was there before.
pub proof fn lemma_filter_within<T>(s: Seq<T>, keep: spec_fn(T) -> bool)
    ensures
        forall|x: T| #[trigger] s.filter(keep).contains(x) ==> s.contains(x) && keep(x),
    decreases s.len(),
{
    reveal(Seq::filter);
    if s.len() > 0 {
        let front = s.drop_last();
        lemma_filter_within(front, keep);
        assert forall|x: T| #[trigger] s.filter(keep).contains(x) implies s.contains(x) && keep(
            x,
        ) by {
            let kept = s.filter(keep);
            let k = choose|k: int| 0 <= k < kept.len() && kept[k] == x;
            if k < front.filter(keep).len() {
                assert(front.filter(keep)[k] == x);
                assert(front.filter(keep).contains(x));
                assert(front.contains(x));
                let j = choose|j: int| 0 <= j < front.len() && front[j] == x;
                assert(s[j] == x);
            } else {
                assert(s[s.len() - 1] == x);
            }
        }
    } else {
        assert(s.filter(keep) =~= Seq::<T>::empty());
    }
}

/// What is kept of a sorted sequence is sorted.
pub proof fn lemma_filter_sorted<T>(s: Seq<T>, keep: spec_fn(T) -> bool, le: spec_fn(T, T) -> bool)
    requires
        sorted(s, le),
    ensures
        sorted(s.filter(keep), le),
    decreases s.len(),
{
    reveal(Seq::filter);
    if s.len() > 0 {
        let front = s.drop_last();
        assert forall|i: int, j: int| 0 <= i <= j < front.len() implies #[trigger] le(
            front[i],
            front[j],
        ) by {
            assert(le(s[i], s[j]));
        }
        lemma_filter_sorted(front, keep, le);
        lemma_filter_within(front, keep);
        let kept = s.filter(keep);
        assert forall|i: int, j: int| 0 <= i <= j < kept.len() implies #[trigger] le(
            kept[i],
            kept[j],
        ) by {
            if j < front.filter(keep).len() {
                assert(le(front.filter(keep)[i], front.filter(keep)[j]));
            } else if i < j {
                assert(front.filter(keep).contains(front.filter(keep)[i]));
                let k = choose|k: int| 0 <= k < front.len() && front[k] == kept[i];
                assert(le(s[k], s[s.len() - 1]));
            } else {
                assert(le(s[s.len() - 1], s[s.len() - 1]));
            }
        }
    }
}

/// A type whose values are ranked by a total preorder that can be computed.
pub trait Ranked: Sized {
    /// `self` may stand before `other`.
    spec fn rank_le(&self, other: &Self) -> bool;

    fn precedes(&self, other: &Self) -> (r: bool)
        ensures
            r == self.rank_le(other),
    ;

    proof fn lemma_rank_total(a: &Self, b: &Self)
        ensures
            a.rank_le(b) || b.rank_le(a),
    ;

    proof fn lemma_rank_transitive(a: &Self, b: &Self, c: &Self)
        requires
            a.rank_le(b),
            b.rank_le(c),
        ensures
            a.rank_le(c),
    ;
}

/// The order of a ranked type as a relation.
pub open spec fn rank_order<T: Ranked>() -> spec_fn(T, T) -> bool {
    |a: T, b: T| a.rank_le(&b)
}

pub proof fn lemma_rank_order<T: Ranked>()
    ensures
        total(rank_order::<T>()),
        transitive(rank_order::<T>()),
{
    let le = rank_order::<T>();
    assert forall|a: T, b: T| #[trigger] le(a, b) || #[trigger] le(b, a) by {
        T::lemma_rank_total(&a, &b);
    }
    assert forall|a: T, b: T, c: T| #[trigger] le(a, b) && #[trigger] le(b, c) implies le(
        a,
        c,
    ) by {
        T::lemma_rank_transitive(&a, &b, &c);
    }
}

/// Sorts `v` by rank; items of equal rank keep their order.
pub fn sort_by_rank<T: Ranked>(v: &mut Vec<T>)
    ensures
        final(v)@ == stable_sort(old(v)@, rank_order::<T>()),
        sorted(final(v)@, rank_order::<T>()),
        final(v)@.to_multiset() == old(v)@.to_multiset(),
{
    let ghost le = rank_order::<T>();
    let ghost start = v@;
    let n: usize = v.len();
    let mut i: usize = 0;
    while i < n
        invariant
            le == rank_order::<T>(),
            n == v.len(),
            n == start.len(),
            i <= n,
            v@.subrange(0, i as int) == stable_sort(start.subrange(0, i as int), le),
            v@.subrange(i as int, n as int) == start.subrange(i as int, n as int),
        decreases n - i,
    {
        let ghost done = v@.subrange(0, i as int);
        let ghost x = v@[i as int];
        assert(x == start[i as int]) by {
            assert(v@.subrange(i as int, n as int)[0] == start.subrange(i as int, n as int)[0]);
        }
        let mut j: usize = i;
        while j > 0 && !v[j - 1].precedes(&v[i])
            invariant
                le == rank_order::<T>(),
                j <= i < n,
                n == v.len(),
                x == v@[i as int],
                done == v@.subrange(0, i as int),
                forall|k: int| j <= k < i ==> !le(#[trigger] done[k], x),
            decreases j,
        {
            j = j - 1;
        }
        proof {
            if j > 0 {
                assert(le(done[j - 1], x));
            }
            lemma_insert_point_unique(done, x, le, j as int);
            assert(start.subrange(0, i + 1).drop_last() =~= start.subrange(0, i as int));
            assert(start.subrange(0, i + 1).last() == x);
        }
        let ghost before = v@;
        if j < i {
            let item = v.remove(i);
            v.insert(j, item);
        }
        proof {
            assert(v@.subrange(0, i + 1) =~= done.insert(j as int, x));
            assert(v@.subrange(i + 1, n as int) =~= before.subrange(i + 1, n as int));
            assert(before.subrange(i + 1, n as int) =~= start.subrange(i as int, n as int).subrange(
                1,
                n - i,
            ));
            assert(start.subrange(i + 1, n as int) =~= start.subrange(i as int, n as int).subrange(
                1,
                n - i,
            ));
        }
        i = i + 1;
    }
    proof {
        assert(v@.subrange(0, n as int) =~= v@);
        assert(start.subrange(0, n as int) =~= start);
        lemma_rank_order::<T>();
        lemma_stable_sort_sorted(start, le);
        lemma_stable_sort_permutes(start, le);
    }
}

} // verus!
