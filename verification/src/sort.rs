//! Stable insertion sort under a caller-supplied order.

use vstd::prelude::*;

verus! {

/// `s` with `x` placed after the last element that is not above it.
pub open spec fn insert_stable<T>(s: Seq<T>, x: T, le: spec_fn(T, T) -> bool) -> Seq<T>
    decreases s.len(),
{
    if s.len() == 0 || le(s.last(), x) {
        s.push(x)
    } else {
        insert_stable(s.drop_last(), x, le).push(s.last())
    }
}

/// The elements of `s` in ascending order; equal elements keep their order.
pub open spec fn stable_sort<T>(s: Seq<T>, le: spec_fn(T, T) -> bool) -> Seq<T>
    decreases s.len(),
{
    if s.len() == 0 {
        s
    } else {
        insert_stable(stable_sort(s.drop_last(), le), s.last(), le)
    }
}

/// `le` is reflexive, transitive and total.
pub open spec fn total_preorder<T>(le: spec_fn(T, T) -> bool) -> bool {
    &&& forall|a: T| #[trigger] le(a, a)
    &&& forall|a: T, b: T| #[trigger] le(a, b) || le(b, a)
    &&& forall|a: T, b: T, c: T| #[trigger] le(a, b) && #[trigger] le(b, c) ==> le(a, c)
}

/// Every element is at most every later one.
pub open spec fn ascending<T>(s: Seq<T>, le: spec_fn(T, T) -> bool) -> bool {
    forall|i: int, j: int| 0 <= i <= j < s.len() ==> #[trigger] le(s[i], s[j])
}

proof fn lemma_insert<T>(s: Seq<T>, x: T, le: spec_fn(T, T) -> bool)
    requires
        total_preorder(le),
        ascending(s, le),
    ensures
        ascending(insert_stable(s, x, le), le),
        insert_stable(s, x, le).to_multiset() == s.to_multiset().insert(x),
        insert_stable(s, x, le).len() == s.len() + 1,
        forall|y: T| (forall|i: int| 0 <= i < s.len() ==> #[trigger] le(s[i], y)) && #[trigger] le(x, y) ==> (
        forall|i: int| 0 <= i <= s.len() ==> #[trigger] le(insert_stable(s, x, le)[i], y)),
    decreases s.len(),
{
    broadcast use vstd::seq_lib::group_to_multiset_ensures;

    if s.len() == 0 || le(s.last(), x) {
        let r = s.push(x);
        assert forall|i: int, j: int| 0 <= i <= j < r.len() implies #[trigger] le(r[i], r[j]) by {
            if j == s.len() && i < s.len() {
                assert(le(s[i], s.last()));
            }
        }
    } else {
        let d = s.drop_last();
        assert(s =~= d.push(s.last()));
        lemma_insert(d, x, le);
        let r0 = insert_stable(d, x, le);
        let r = r0.push(s.last());
        assert(forall|i: int| 0 <= i < d.len() ==> #[trigger] le(d[i], s.last())) by {
            assert forall|i: int| 0 <= i < d.len() implies #[trigger] le(d[i], s.last()) by {
                assert(le(s[i], s[s.len() - 1]));
            }
        }
        assert(le(x, s.last()));
        assert forall|i: int, j: int| 0 <= i <= j < r.len() implies #[trigger] le(r[i], r[j]) by {
            if j == r0.len() && i < r0.len() {
                assert(le(r0[i], s.last()));
            }
        }
        assert(r.to_multiset() =~= s.to_multiset().insert(x));
        assert forall|y: T|
            (forall|i: int| 0 <= i < s.len() ==> #[trigger] le(s[i], y)) && #[trigger] le(x, y) implies (forall|
            i: int,
        |
            0 <= i <= s.len() ==> #[trigger] le(r[i], y)) by {
            assert forall|i: int| 0 <= i < d.len() implies #[trigger] le(d[i], y) by {
                assert(le(s[i], y));
            }
            assert forall|i: int| 0 <= i <= s.len() implies #[trigger] le(r[i], y) by {
                if i < r0.len() {
                    assert(le(r0[i], y));
                } else {
                    assert(le(s[s.len() - 1], y));
                }
            }
        }
    }
}

/// Sorting permutes the elements and leaves them in ascending order.
pub proof fn sorting_orders_and_permutes<T>(s: Seq<T>, le: spec_fn(T, T) -> bool)
    requires
        total_preorder(le),
    ensures
        ascending(stable_sort(s, le), le),
        stable_sort(s, le).to_multiset() == s.to_multiset(),
        stable_sort(s, le).len() == s.len(),
    decreases s.len(),
{
    broadcast use vstd::seq_lib::group_to_multiset_ensures;

    if s.len() > 0 {
        assert(s =~= s.drop_last().push(s.last()));
        sorting_orders_and_permutes(s.drop_last(), le);
        lemma_insert(stable_sort(s.drop_last(), le), s.last(), le);
    }
}

/// Neither of the two comes before the other.
pub open spec fn level<T>(x: T, le: spec_fn(T, T) -> bool) -> spec_fn(T) -> bool {
    |y: T| le(x, y) && le(y, x)
}

proof fn lemma_insert_level<T>(s: Seq<T>, x: T, le: spec_fn(T, T) -> bool, z: T)
    requires
        total_preorder(le),
        ascending(s, le),
    ensures
        insert_stable(s, x, le).filter(level(z, le)) == s.push(x).filter(level(z, le)),
    decreases s.len(),
{
    let p = level(z, le);
    if !(s.len() == 0 || le(s.last(), x)) {
        let d = s.drop_last();
        let l = s.last();
        assert forall|i: int, j: int| 0 <= i <= j < d.len() implies #[trigger] le(d[i], d[j]) by {
            assert(le(s[i], s[j]));
        }
        lemma_insert_level(d, x, le, z);
        let r0 = insert_stable(d, x, le);
        r0.lemma_filter_push(l, p);
        d.lemma_filter_push(x, p);
        d.lemma_filter_push(l, p);
        assert(s =~= d.push(l));
        s.lemma_filter_push(x, p);
        if p(x) && p(l) {
            assert(le(l, z) && le(z, x));
            assert(le(l, x));
        }
    }
}

/// Sorting is stable: elements of which neither comes before the other keep their order.
pub proof fn level_elements_keep_their_order<T>(s: Seq<T>, le: spec_fn(T, T) -> bool, z: T)
    requires
        total_preorder(le),
    ensures
        stable_sort(s, le).filter(level(z, le)) == s.filter(level(z, le)),
    decreases s.len(),
{
    if s.len() > 0 {
        let d = s.drop_last();
        level_elements_keep_their_order(d, le, z);
        sorting_orders_and_permutes(d, le);
        let sorted = stable_sort(d, le);
        lemma_insert_level(sorted, s.last(), le, z);
        sorted.lemma_filter_push(s.last(), level(z, le));
        d.lemma_filter_push(s.last(), level(z, le));
        assert(s =~= d.push(s.last()));
    }
}

pub proof fn lemma_insert_at<T>(s: Seq<T>, x: T, le: spec_fn(T, T) -> bool, at: int)
    requires
        0 <= at <= s.len(),
        at == 0 || le(s[at - 1], x),
        forall|j: int| at <= j < s.len() ==> !#[trigger] le(s[j], x),
    ensures
        insert_stable(s, x, le) == s.insert(at, x),
    decreases s.len(),
{
    if at == s.len() {
        assert(s.insert(at, x) =~= s.push(x));
    } else {
        assert(!le(s[s.len() - 1], x));
        let d = s.drop_last();
        assert forall|j: int| at <= j < d.len() implies !#[trigger] le(d[j], x) by {
            assert(!le(s[j], x));
        }
        lemma_insert_at(d, x, le, at);
        assert(d.insert(at, x).push(s.last()) =~= s.insert(at, x));
    }
}

proof fn lemma_insert_len<T>(s: Seq<T>, x: T, le: spec_fn(T, T) -> bool)
    ensures
        insert_stable(s, x, le).len() == s.len() + 1,
    decreases s.len(),
{
    if s.len() == 0 || le(s.last(), x) {
    } else {
        lemma_insert_len(s.drop_last(), x, le);
    }
}

proof fn lemma_sort_len<T>(s: Seq<T>, le: spec_fn(T, T) -> bool)
    ensures
        stable_sort(s, le).len() == s.len(),
    decreases s.len(),
{
    if s.len() > 0 {
        lemma_sort_len(s.drop_last(), le);
        lemma_insert_len(stable_sort(s.drop_last(), le), s.last(), le);
    }
}

proof fn lemma_insert_map<T, U>(
    s: Seq<T>,
    x: T,
    le: spec_fn(T, T) -> bool,
    f: spec_fn(T) -> U,
    le2: spec_fn(U, U) -> bool,
)
    requires
        forall|a: T, b: T| #[trigger] le(a, b) == le2(f(a), f(b)),
    ensures
        insert_stable(s, x, le).map_values(f) == insert_stable(s.map_values(f), f(x), le2),
    decreases s.len(),
{
    if s.len() == 0 || le(s.last(), x) {
        if s.len() > 0 {
            assert(s.map_values(f).last() == f(s.last()));
        }
        assert(s.push(x).map_values(f) =~= s.map_values(f).push(f(x)));
    } else {
        assert(s.map_values(f).last() == f(s.last()));
        assert(s.map_values(f).drop_last() =~= s.drop_last().map_values(f));
        lemma_insert_map(s.drop_last(), x, le, f, le2);
        let r0 = insert_stable(s.drop_last(), x, le);
        assert(r0.push(s.last()).map_values(f) =~= r0.map_values(f).push(f(s.last())));
    }
}

/// Sorting commutes with a map that keeps the order.
pub proof fn lemma_sort_map<T, U>(
    s: Seq<T>,
    le: spec_fn(T, T) -> bool,
    f: spec_fn(T) -> U,
    le2: spec_fn(U, U) -> bool,
)
    requires
        forall|a: T, b: T| #[trigger] le(a, b) == le2(f(a), f(b)),
    ensures
        stable_sort(s, le).map_values(f) == stable_sort(s.map_values(f), le2),
    decreases s.len(),
{
    if s.len() == 0 {
        assert(s.map_values(f) =~= Seq::<U>::empty());
        assert(stable_sort(s, le).map_values(f) =~= Seq::<U>::empty());
    } else {
        lemma_sort_map(s.drop_last(), le, f, le2);
        assert(s.map_values(f).drop_last() =~= s.drop_last().map_values(f));
        assert(s.map_values(f).last() == f(s.last()));
        lemma_insert_map(stable_sort(s.drop_last(), le), s.last(), le, f, le2);
    }
}

/// Sorts `v` in place; `at_most` decides the order that `le` states.
pub fn sort_stable<T, F: Fn(&T, &T) -> bool>(
    v: &mut Vec<T>,
    at_most: F,
    Ghost(le): Ghost<spec_fn(T, T) -> bool>,
)
    requires
        forall|a: &T, b: &T| #[trigger] at_most.requires((a, b)),
        forall|a: &T, b: &T, r: bool| #[trigger] at_most.ensures((a, b), r) ==> r == le(*a, *b),
    ensures
        final(v)@ == stable_sort(old(v)@, le),
{
    let ghost start = v@;
    let n: usize = v.len();
    let mut i: usize = 0;
    while i < n
        invariant
            i <= n,
            n == start.len(),
            v@ == stable_sort(start.take(i as int), le) + start.skip(i as int),
            stable_sort(start.take(i as int), le).len() == i,
            forall|a: &T, b: &T| #[trigger] at_most.requires((a, b)),
            forall|a: &T, b: &T, r: bool|
                #[trigger] at_most.ensures((a, b), r) ==> r == le(*a, *b),
        decreases n - i,
    {
        let ghost done = stable_sort(start.take(i as int), le);
        let mut at: usize = i;
        let mut searching: bool = true;
        while searching && at > 0
            invariant
                at <= i < v@.len(),
                v@[i as int] == start[i as int],
                done.len() == i,
                forall|j: int| 0 <= j < i ==> v@[j] == done[j],
                forall|j: int| at <= j < i ==> !#[trigger] le(done[j], start[i as int]),
                !searching ==> at > 0 && le(done[at - 1], start[i as int]),
                forall|a: &T, b: &T| #[trigger] at_most.requires((a, b)),
                forall|a: &T, b: &T, r: bool|
                    #[trigger] at_most.ensures((a, b), r) ==> r == le(*a, *b),
            decreases at + if searching { 1int } else { 0int },
        {
            if at_most(&v[at - 1], &v[i]) {
                searching = false;
            } else {
                at = at - 1;
            }
        }
        proof {
            lemma_insert_at(done, start[i as int], le, at as int);
            lemma_sort_len(start.take(i + 1), le);
            assert(start.take(i + 1).drop_last() =~= start.take(i as int));
        }
        let x = v.remove(i);
        v.insert(at, x);
        proof {
            assert(v@ =~= done.insert(at as int, start[i as int]) + start.skip(i + 1));
        }
        i = i + 1;
    }
    proof {
        assert(start.take(n as int) =~= start);
        assert(v@ =~= stable_sort(start, le));
    }
}

} // verus!
