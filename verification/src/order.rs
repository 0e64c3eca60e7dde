//! Finding, selecting and stable sorting.

use vstd::prelude::*;

verus! {

/// `s` with `x` put in: after every element that `x` need not precede,
/// counted from the end.
pub open spec fn placed<M>(s: Seq<M>, x: M, before: spec_fn(M, M) -> bool) -> Seq<M>
    decreases s.len(),
{
    if s.len() > 0 && before(x, s.last()) {
        placed(s.drop_last(), x, before).push(s.last())
    } else {
        s.push(x)
    }
}

/// The elements of `s` in the order of `before`; elements that neither
/// precedes keep their order.
pub open spec fn sorted<M>(s: Seq<M>, before: spec_fn(M, M) -> bool) -> Seq<M>
    decreases s.len(),
{
    if s.len() == 0 {
        s
    } else {
        placed(sorted(s.drop_last(), before), s.last(), before)
    }
}

/// A strict order in which "does not precede" is transitive.
pub open spec fn is_order<M>(before: spec_fn(M, M) -> bool) -> bool {
    &&& forall|a: M, b: M| #[trigger] before(a, b) ==> !before(b, a)
    &&& forall|a: M, b: M, c: M|
        #![trigger before(b, a), before(c, b)]
        !before(b, a) && !before(c, b) ==> !before(c, a)
}

/// No later element of `s` precedes an earlier one.
pub open spec fn in_order<M>(s: Seq<M>, before: spec_fn(M, M) -> bool) -> bool {
    forall|i: int, j: int| 0 <= i < j < s.len() ==> !before(#[trigger] s[j], #[trigger] s[i])
}

/// The views of a sequence of values.
pub open spec fn views<T: View>(s: Seq<T>) -> Seq<T::V> {
    s.map_values(|x: T| x@)
}

proof fn lemma_placed_multiset<M>(s: Seq<M>, x: M, before: spec_fn(M, M) -> bool)
    ensures
        placed(s, x, before).to_multiset() == s.to_multiset().insert(x),
        placed(s, x, before).len() == s.len() + 1,
    decreases s.len(),
{
    broadcast use vstd::seq_lib::group_to_multiset_ensures;

    if s.len() > 0 && before(x, s.last()) {
        lemma_placed_multiset(s.drop_last(), x, before);
        assert(s =~= s.drop_last().push(s.last()));
        assert(placed(s, x, before).to_multiset() =~= s.to_multiset().insert(x));
    }
}

/// Sorting keeps every element as often as it occurs.
pub proof fn sorted_is_permutation<M>(s: Seq<M>, before: spec_fn(M, M) -> bool)
    ensures
        sorted(s, before).to_multiset() == s.to_multiset(),
        sorted(s, before).len() == s.len(),
        forall|x: M| sorted(s, before).contains(x) <==> s.contains(x),
    decreases s.len(),
{
    broadcast use vstd::seq_lib::group_to_multiset_ensures;

    if s.len() > 0 {
        sorted_is_permutation(s.drop_last(), before);
        lemma_placed_multiset(sorted(s.drop_last(), before), s.last(), before);
        assert(s =~= s.drop_last().push(s.last()));
    }
    assert forall|x: M| sorted(s, before).contains(x) <==> s.contains(x) by {
        assert(sorted(s, before).contains(x) <==> sorted(s, before).to_multiset().count(x) > 0);
        assert(s.contains(x) <==> s.to_multiset().count(x) > 0);
    }
}

proof fn lemma_placed_contains<M>(s: Seq<M>, x: M, before: spec_fn(M, M) -> bool, y: M)
    ensures
        placed(s, x, before).contains(y) <==> s.contains(y) || y == x,
{
    broadcast use vstd::seq_lib::group_to_multiset_ensures;

    lemma_placed_multiset(s, x, before);
    assert(placed(s, x, before).contains(y) <==> placed(s, x, before).to_multiset().count(y) > 0);
    assert(s.contains(y) <==> s.to_multiset().count(y) > 0);
}

proof fn lemma_placed_in_order<M>(s: Seq<M>, x: M, before: spec_fn(M, M) -> bool)
    requires
        is_order(before),
        in_order(s, before),
    ensures
        in_order(placed(s, x, before), before),
    decreases s.len(),
{
    let r = placed(s, x, before);
    if s.len() > 0 && before(x, s.last()) {
        let t = s.drop_last();
        lemma_placed_in_order(t, x, before);
        let p = placed(t, x, before);
        assert forall|i: int, j: int| 0 <= i < j < r.len() implies !before(
            #[trigger] r[j],
            #[trigger] r[i],
        ) by {
            if j < p.len() {
                assert(!before(p[j], p[i]));
            } else {
                assert(r[i] == p[i]);
                lemma_placed_contains(t, x, before, p[i]);
                assert(p.contains(p[i]));
                if p[i] != x {
                    let k = choose|k: int| 0 <= k < t.len() && t[k] == p[i];
                    assert(s[k] == p[i]);
                    assert(!before(s[s.len() - 1], s[k]));
                }
            }
        }
    } else {
        assert forall|i: int, j: int| 0 <= i < j < r.len() implies !before(
            #[trigger] r[j],
            #[trigger] r[i],
        ) by {
            if j < s.len() {
                assert(!before(s[j], s[i]));
            } else if i < s.len() - 1 {
                assert(!before(s[s.len() - 1], s[i]));
                assert(!before(x, s[s.len() - 1]));
            }
        }
    }
}

/// Sorting puts the elements in order.
pub proof fn sorted_is_in_order<M>(s: Seq<M>, before: spec_fn(M, M) -> bool)
    requires
        is_order(before),
    ensures
        in_order(sorted(s, before), before),
    decreases s.len(),
{
    if s.len() > 0 {
        sorted_is_in_order(s.drop_last(), before);
        lemma_placed_in_order(sorted(s.drop_last(), before), s.last(), before);
    }
}

/// Without duplicates, elements of which one always precedes the other have
/// one order.
proof fn lemma_one_order<M>(a: Seq<M>, b: Seq<M>, before: spec_fn(M, M) -> bool)
    requires
        in_order(a, before),
        in_order(b, before),
        a.no_duplicates(),
        b.no_duplicates(),
        forall|x: M| #[trigger] a.contains(x) <==> b.contains(x),
        forall|x: M, y: M|
            a.contains(x) && a.contains(y) && x != y ==> #[trigger] before(x, y) || before(y, x),
    ensures
        a == b,
    decreases a.len(),
{
    if a.len() == 0 {
        if b.len() > 0 {
            assert(b.contains(b[0]));
            assert(a.contains(b[0]));
        }
        assert(a =~= b);
    } else {
        assert(a.contains(a[a.len() - 1]));
        let k = choose|k: int| 0 <= k < b.len() && b[k] == a.last();
        assert(b.contains(b[b.len() - 1]));
        assert(a.contains(b.last()));
        let m = choose|m: int| 0 <= m < a.len() && a[m] == b.last();
        if a.last() != b.last() {
            assert(!before(a[a.len() - 1], a[m]));
            assert(!before(b[b.len() - 1], b[k]));
            assert(before(a.last(), b.last()) || before(b.last(), a.last()));
        }
        let s = a.drop_last();
        let t = b.drop_last();
        assert forall|x: M| #[trigger] s.contains(x) <==> t.contains(x) by {
            if s.contains(x) {
                let i = choose|i: int| 0 <= i < s.len() && s[i] == x;
                assert(a[i] == x);
                assert(a.contains(x));
                assert(b.contains(x));
                let j = choose|j: int| 0 <= j < b.len() && b[j] == x;
                assert(t[j] == x);
            }
            if t.contains(x) {
                let i = choose|i: int| 0 <= i < t.len() && t[i] == x;
                assert(b[i] == x);
                assert(b.contains(x));
                assert(a.contains(x));
                let j = choose|j: int| 0 <= j < a.len() && a[j] == x;
                assert(s[j] == x);
            }
        }
        assert forall|x: M, y: M| s.contains(x) && s.contains(y) && x != y implies #[trigger] before(
            x,
            y,
        ) || before(y, x) by {
            let i = choose|i: int| 0 <= i < s.len() && s[i] == x;
            let j = choose|j: int| 0 <= j < s.len() && s[j] == y;
            assert(a[i] == x && a[j] == y);
            assert(a.contains(x) && a.contains(y));
        }
        lemma_one_order(s, t, before);
        assert(a =~= s.push(a.last()));
        assert(b =~= t.push(b.last()));
    }
}

/// Sorting does not depend on the order that elements come in, where they
/// occur once and one of two always precedes the other.
pub proof fn sorting_forgets_the_order<M>(a: Seq<M>, b: Seq<M>, before: spec_fn(M, M) -> bool)
    requires
        is_order(before),
        a.no_duplicates(),
        b.no_duplicates(),
        forall|x: M| #[trigger] a.contains(x) <==> b.contains(x),
        forall|x: M, y: M|
            a.contains(x) && a.contains(y) && x != y ==> #[trigger] before(x, y) || before(y, x),
    ensures
        sorted(a, before) == sorted(b, before),
{
    sorted_is_permutation(a, before);
    sorted_is_permutation(b, before);
    sorted_is_in_order(a, before);
    sorted_is_in_order(b, before);
    a.lemma_multiset_has_no_duplicates();
    b.lemma_multiset_has_no_duplicates();
    sorted(a, before).lemma_multiset_has_no_duplicates_conv();
    sorted(b, before).lemma_multiset_has_no_duplicates_conv();
    assert forall|x: M| #[trigger] sorted(a, before).contains(x) <==> sorted(b, before).contains(
        x,
    ) by {
        assert(a.contains(x) <==> b.contains(x));
    }
    lemma_one_order(sorted(a, before), sorted(b, before), before);
}

proof fn lemma_placed_at<M>(s: Seq<M>, x: M, before: spec_fn(M, M) -> bool, k: int)
    requires
        0 <= k <= s.len(),
        forall|i: int| k <= i < s.len() ==> before(x, #[trigger] s[i]),
        k > 0 ==> !before(x, s[k - 1]),
    ensures
        placed(s, x, before) == s.insert(k, x),
    decreases s.len() - k,
{
    if k < s.len() {
        lemma_placed_at(s.drop_last(), x, before, k);
        assert(placed(s, x, before) =~= s.insert(k, x));
    } else {
        assert(s.insert(k, x) =~= s.push(x));
    }
}

/// Sorts `items` by `before`, stably.
pub(crate) fn sort<T: View, F: Fn(&T, &T) -> bool>(
    items: Vec<T>,
    before: F,
    Ghost(order): Ghost<spec_fn(T::V, T::V) -> bool>,
) -> (r: Vec<T>)
    requires
        forall|a: T, b: T| call_requires(before, (&a, &b)),
        forall|a: T, b: T, r: bool| call_ensures(before, (&a, &b), r) ==> r == order(a@, b@),
    ensures
        views(r@) == sorted(views(items@), order),
{
    let mut v = items;
    let ghost all = views(items@);
    let mut i: usize = 0;
    while i < v.len()
        invariant
            i <= v.len(),
            v@.len() == all.len(),
            views(v@.take(i as int)) == sorted(all.take(i as int), order),
            views(v@.skip(i as int)) == all.skip(i as int),
            forall|a: T, b: T| call_requires(before, (&a, &b)),
            forall|a: T, b: T, r: bool| call_ensures(before, (&a, &b), r) ==> r == order(a@, b@),
        decreases all.len() - i,
    {
        let mut k: usize = i;
        while k > 0 && before(&v[i], &v[k - 1])
            invariant
                k <= i < v.len(),
                forall|j: int| k <= j < i ==> order(v@[i as int]@, #[trigger] v@[j]@),
                forall|a: T, b: T| call_requires(before, (&a, &b)),
                forall|a: T, b: T, r: bool|
                    call_ensures(before, (&a, &b), r) ==> r == order(a@, b@),
            ensures
                k <= i < v.len(),
                forall|j: int| k <= j < i ==> order(v@[i as int]@, #[trigger] v@[j]@),
                k > 0 ==> !order(v@[i as int]@, v@[k - 1]@),
            decreases k,
        {
            k -= 1;
        }
        let ghost pre = v@;
        let x = v.remove(i);
        v.insert(k, x);
        proof {
            let head = views(pre.take(i as int));
            lemma_placed_at(head, x@, order, k as int);
            assert(all.take(i + 1).drop_last() =~= all.take(i as int));
            assert(views(pre.skip(i as int))[0] == all.skip(i as int)[0]);
            assert(all.take(i + 1).last() == x@);
            assert(views(v@.take(i + 1)) =~= head.insert(k as int, x@));
            assert(views(v@.skip(i + 1)) =~= all.skip(i + 1)) by {
                assert forall|j: int| 0 <= j < all.len() - i - 1 implies #[trigger] views(
                    v@.skip(i + 1),
                )[j] == all.skip(i + 1)[j] by {
                    assert(v@[i + 1 + j] == pre[i + 1 + j]);
                    assert(views(pre.skip(i as int))[j + 1] == all.skip(i as int)[j + 1]);
                }
            }
        }
        i += 1;
    }
    assert(v@.take(i as int) =~= v@);
    assert(all.take(i as int) =~= all);
    v
}

// --- finding and selecting -----------------------------------------------

/// A value that can be copied whole.
pub trait Keep: View + Sized {
    /// A copy that holds the same.
    fn keep(&self) -> (r: Self)
        ensures
            r@ == self@,
    ;
}

/// The index of the first element for which `p` holds.
pub open spec fn position<M>(s: Seq<M>, p: spec_fn(M) -> bool) -> Option<int>
    decreases s.len(),
{
    if s.len() == 0 {
        None
    } else {
        match position(s.drop_last(), p) {
            Some(i) => Some(i),
            None => if p(s.last()) {
                Some(s.len() - 1)
            } else {
                None
            },
        }
    }
}

/// `position` is the first index with the property, if there is one.
pub proof fn lemma_position<M>(s: Seq<M>, p: spec_fn(M) -> bool)
    ensures
        position(s, p) matches Some(i) ==> 0 <= i < s.len() && p(s[i]) && forall|j: int|
            0 <= j < i ==> !p(#[trigger] s[j]),
        position(s, p) is None ==> forall|j: int| 0 <= j < s.len() ==> !p(#[trigger] s[j]),
    decreases s.len(),
{
    if s.len() > 0 {
        let t = s.drop_last();
        lemma_position(t, p);
        assert forall|j: int| 0 <= j < t.len() implies #[trigger] s[j] == t[j] by {}
    }
}

/// An index before which the property fails, and at which it holds, is the
/// position.
pub proof fn lemma_position_is<M>(s: Seq<M>, p: spec_fn(M) -> bool, i: int)
    requires
        0 <= i < s.len(),
        p(s[i]),
        forall|j: int| 0 <= j < i ==> !p(#[trigger] s[j]),
    ensures
        position(s, p) == Some(i),
{
    lemma_position(s, p);
}

/// A property that holds at the same indices has the same position.
pub proof fn lemma_position_same<M>(a: Seq<M>, b: Seq<M>, p: spec_fn(M) -> bool)
    requires
        a.len() == b.len(),
        forall|i: int| 0 <= i < a.len() ==> p(#[trigger] a[i]) == p(b[i]),
    ensures
        position(a, p) == position(b, p),
    decreases a.len(),
{
    if a.len() > 0 {
        let x = a.drop_last();
        let y = b.drop_last();
        assert forall|i: int| 0 <= i < x.len() implies p(#[trigger] x[i]) == p(y[i]) by {
            assert(x[i] == a[i] && y[i] == b[i]);
        }
        lemma_position_same(x, y, p);
        assert(a[a.len() - 1] == a.last());
    }
}

/// Nothing is left of elements without the property.
pub proof fn lemma_filter_empty<M>(s: Seq<M>, p: spec_fn(M) -> bool)
    requires
        forall|i: int| 0 <= i < s.len() ==> !p(#[trigger] s[i]),
    ensures
        s.filter(p) == Seq::<M>::empty(),
{
    lemma_filter_contains(s, p);
    if s.filter(p).len() > 0 {
        let x = s.filter(p)[0];
        assert(s.filter(p).contains(x));
        let i = choose|i: int| 0 <= i < s.len() && s[i] == x;
        assert(!p(s[i]));
    }
    assert(s.filter(p) =~= Seq::<M>::empty());
}

/// Finds the first value with the property.
pub(crate) fn find<T: View, F: Fn(&T) -> bool>(
    items: &Vec<T>,
    test: F,
    Ghost(p): Ghost<spec_fn(T::V) -> bool>,
) -> (r: Option<usize>)
    requires
        forall|a: T| call_requires(test, (&a,)),
        forall|a: T, r: bool| call_ensures(test, (&a,), r) ==> r == p(a@),
    ensures
        r is Some <==> position(views(items@), p) is Some,
        r matches Some(i) ==> position(views(items@), p) == Some(i as int) && i < items@.len()
            && p(items@[i as int]@),
        r is None ==> forall|i: int| 0 <= i < items@.len() ==> !p(#[trigger] items@[i]@),
{
    let mut i: usize = 0;
    while i < items.len()
        invariant
            i <= items.len(),
            forall|j: int| 0 <= j < i ==> !p(#[trigger] items@[j]@),
            forall|a: T| call_requires(test, (&a,)),
            forall|a: T, r: bool| call_ensures(test, (&a,), r) ==> r == p(a@),
        decreases items.len() - i,
    {
        if test(&items[i]) {
            proof {
                let s = views(items@);
                assert forall|j: int| 0 <= j < i implies !p(#[trigger] s[j]) by {
                    assert(!p(items@[j]@));
                }
                lemma_position_is(s, p, i as int);
            }
            return Some(i);
        }
        i += 1;
    }
    proof {
        lemma_position(views(items@), p);
        if position(views(items@), p) is Some {
            let k = position(views(items@), p)->Some_0;
            assert(!p(items@[k]@));
        }
    }
    None
}

/// A filtered sequence holds exactly the elements with the property.
pub proof fn lemma_filter_contains<M>(s: Seq<M>, p: spec_fn(M) -> bool)
    ensures
        forall|x: M| #[trigger] s.filter(p).contains(x) <==> s.contains(x) && p(x),
    decreases s.len(),
{
    reveal(Seq::filter);
    if s.len() > 0 {
        let t = s.drop_last();
        lemma_filter_contains(t, p);
        assert forall|x: M| #[trigger] s.filter(p).contains(x) <==> s.contains(x) && p(x) by {
            assert(s =~= t.push(s.last()));
            if s.contains(x) && p(x) {
                if x == s.last() {
                    assert(s.filter(p).last() == x);
                } else {
                    let k = choose|k: int| 0 <= k < s.len() && s[k] == x;
                    assert(t[k] == x);
                    assert(t.filter(p).contains(x));
                    let m = choose|m: int| 0 <= m < t.filter(p).len() && t.filter(p)[m] == x;
                    assert(s.filter(p)[m] == x);
                }
            }
            if s.filter(p).contains(x) {
                let m = choose|m: int| 0 <= m < s.filter(p).len() && s.filter(p)[m] == x;
                if m < t.filter(p).len() {
                    assert(t.filter(p)[m] == x);
                    assert(t.filter(p).contains(x));
                    let k = choose|k: int| 0 <= k < t.len() && t[k] == x;
                    assert(s[k] == x);
                } else {
                    assert(x == s.last());
                    assert(s[s.len() - 1] == x);
                }
            }
        }
    }
}

/// Where the elements of a filtered sequence stood.
pub open spec fn kept_from<M>(s: Seq<M>, p: spec_fn(M) -> bool) -> Seq<int>
    decreases s.len(),
{
    if s.len() == 0 {
        seq![]
    } else if p(s.last()) {
        kept_from(s.drop_last(), p).push(s.len() - 1)
    } else {
        kept_from(s.drop_last(), p)
    }
}

/// Filtering keeps elements in their order.
pub proof fn lemma_kept_from<M>(s: Seq<M>, p: spec_fn(M) -> bool)
    ensures
        kept_from(s, p).len() == s.filter(p).len(),
        forall|i: int|
            0 <= i < s.filter(p).len() ==> 0 <= #[trigger] kept_from(s, p)[i] < s.len()
                && s.filter(p)[i] == s[kept_from(s, p)[i]] && p(s.filter(p)[i]),
        forall|i: int, j: int|
            0 <= i < j < s.filter(p).len() ==> #[trigger] kept_from(s, p)[i]
                < #[trigger] kept_from(s, p)[j],
    decreases s.len(),
{
    reveal(Seq::filter);
    if s.len() > 0 {
        lemma_kept_from(s.drop_last(), p);
    }
}

/// Elements that are kept by a narrower property may first be kept by a wider
/// one.
pub proof fn lemma_filter_within<M>(s: Seq<M>, wide: spec_fn(M) -> bool, narrow: spec_fn(M) -> bool)
    requires
        forall|x: M| #[trigger] narrow(x) ==> wide(x),
    ensures
        s.filter(narrow) == s.filter(wide).filter(narrow),
    decreases s.len(),
{
    reveal(Seq::filter);
    if s.len() > 0 {
        let t = s.drop_last();
        lemma_filter_within(t, wide, narrow);
        if wide(s.last()) {
            assert(t.filter(wide).push(s.last()).drop_last() =~= t.filter(wide));
        }
    } else {
        assert(s.filter(wide) =~= s);
    }
}

/// Filtering one element more.
pub proof fn lemma_filter_step<M>(s: Seq<M>, i: int, p: spec_fn(M) -> bool)
    requires
        0 <= i < s.len(),
    ensures
        s.take(i + 1).filter(p) == (if p(s[i]) {
            s.take(i).filter(p).push(s[i])
        } else {
            s.take(i).filter(p)
        }),
{
    reveal(Seq::filter);
    assert(s.take(i + 1).drop_last() =~= s.take(i));
}

/// Filtering nothing.
pub proof fn lemma_filter_none<M>(s: Seq<M>, p: spec_fn(M) -> bool)
    ensures
        s.take(0).filter(p) == Seq::<M>::empty(),
{
    reveal(Seq::filter);
    assert(s.take(0).filter(p) =~= Seq::<M>::empty());
}

/// The sum of `f` over the elements.
pub open spec fn sum<M>(s: Seq<M>, f: spec_fn(M) -> nat) -> nat
    decreases s.len(),
{
    if s.len() == 0 {
        0
    } else {
        sum(s.drop_last(), f) + f(s.last())
    }
}

/// Summing one element more.
pub proof fn lemma_sum_push<M>(s: Seq<M>, x: M, f: spec_fn(M) -> nat)
    ensures
        sum(s.push(x), f) == sum(s, f) + f(x),
{
    assert(s.push(x).drop_last() =~= s);
}

/// No element is larger than the sum, and no part of the front.
pub proof fn lemma_sum_take<M>(s: Seq<M>, f: spec_fn(M) -> nat, i: int)
    requires
        0 <= i <= s.len(),
    ensures
        sum(s.take(i), f) <= sum(s, f),
        i < s.len() ==> sum(s.take(i + 1), f) == sum(s.take(i), f) + f(s[i]),
    decreases s.len(),
{
    if i < s.len() {
        assert(s.take(i + 1).drop_last() =~= s.take(i));
        let t = s.drop_last();
        lemma_sum_take(t, f, i);
        assert(t.take(i) =~= s.take(i));
    } else {
        assert(s.take(i) =~= s);
    }
}

/// The sum over elements that are mapped.
pub proof fn lemma_sum_map<M, N>(s: Seq<M>, g: spec_fn(M) -> N, f: spec_fn(N) -> nat)
    ensures
        sum(s.map_values(g), f) == sum(s, |x: M| f(g(x))),
    decreases s.len(),
{
    if s.len() > 0 {
        lemma_sum_map(s.drop_last(), g, f);
        assert(s.map_values(g).drop_last() =~= s.drop_last().map_values(g));
    }
}

/// Functions that agree on the elements have the same sum.
pub proof fn lemma_sum_same<M>(s: Seq<M>, f: spec_fn(M) -> nat, g: spec_fn(M) -> nat)
    requires
        forall|i: int| 0 <= i < s.len() ==> f(#[trigger] s[i]) == g(s[i]),
    ensures
        sum(s, f) == sum(s, g),
    decreases s.len(),
{
    if s.len() > 0 {
        let t = s.drop_last();
        assert forall|i: int| 0 <= i < t.len() implies f(#[trigger] t[i]) == g(t[i]) by {
            assert(t[i] == s[i]);
        }
        lemma_sum_same(t, f, g);
        assert(s[s.len() - 1] == s.last());
    }
}

/// A function that is larger by `d` at one element has a sum that is larger
/// by `d`.
pub proof fn lemma_sum_change<M>(s: Seq<M>, f: spec_fn(M) -> nat, g: spec_fn(M) -> nat, k: int, d: nat)
    requires
        0 <= k < s.len(),
        g(s[k]) == f(s[k]) + d,
        forall|i: int| 0 <= i < s.len() && i != k ==> f(#[trigger] s[i]) == g(s[i]),
    ensures
        sum(s, g) == sum(s, f) + d,
    decreases s.len(),
{
    let t = s.drop_last();
    if k < t.len() {
        assert forall|i: int| 0 <= i < t.len() && i != k implies f(#[trigger] t[i]) == g(t[i]) by {
            assert(t[i] == s[i]);
        }
        lemma_sum_change(t, f, g, k, d);
        assert(s[s.len() - 1] == s.last());
    } else {
        assert forall|i: int| 0 <= i < t.len() implies f(#[trigger] t[i]) == g(t[i]) by {
            assert(t[i] == s[i]);
        }
        lemma_sum_same(t, f, g);
    }
}

proof fn lemma_sum_placed<M>(s: Seq<M>, x: M, before: spec_fn(M, M) -> bool, f: spec_fn(M) -> nat)
    ensures
        sum(placed(s, x, before), f) == sum(s, f) + f(x),
    decreases s.len(),
{
    if s.len() > 0 && before(x, s.last()) {
        lemma_sum_placed(s.drop_last(), x, before, f);
        lemma_sum_push(placed(s.drop_last(), x, before), s.last(), f);
    } else {
        lemma_sum_push(s, x, f);
    }
}

/// Sorting keeps the sum.
pub proof fn lemma_sum_sorted<M>(s: Seq<M>, before: spec_fn(M, M) -> bool, f: spec_fn(M) -> nat)
    ensures
        sum(sorted(s, before), f) == sum(s, f),
    decreases s.len(),
{
    if s.len() > 0 {
        lemma_sum_sorted(s.drop_last(), before, f);
        lemma_sum_placed(sorted(s.drop_last(), before), s.last(), before, f);
    }
}

/// The elements of `s`, each where it occurs first.
pub open spec fn distinct<M>(s: Seq<M>) -> Seq<M>
    decreases s.len(),
{
    if s.len() == 0 {
        s
    } else {
        let rest = distinct(s.drop_last());
        if rest.contains(s.last()) {
            rest
        } else {
            rest.push(s.last())
        }
    }
}

/// `distinct` holds what the sequence holds, once each.
pub proof fn lemma_distinct<M>(s: Seq<M>)
    ensures
        distinct(s).no_duplicates(),
        forall|x: M| #[trigger] distinct(s).contains(x) <==> s.contains(x),
        distinct(s).len() <= s.len(),
    decreases s.len(),
{
    if s.len() > 0 {
        let t = s.drop_last();
        lemma_distinct(t);
        assert(s =~= t.push(s.last()));
        let rest = distinct(t);
        assert forall|x: M| #[trigger] distinct(s).contains(x) <==> s.contains(x) by {
            if s.contains(x) {
                let k = choose|k: int| 0 <= k < s.len() && s[k] == x;
                if k < t.len() {
                    assert(t[k] == x);
                    assert(rest.contains(x));
                    let m = choose|m: int| 0 <= m < rest.len() && rest[m] == x;
                    assert(distinct(s)[m] == x);
                } else if !rest.contains(x) {
                    assert(distinct(s).last() == x);
                }
            }
            if distinct(s).contains(x) {
                let m = choose|m: int| 0 <= m < distinct(s).len() && distinct(s)[m] == x;
                if m < rest.len() {
                    assert(rest[m] == x);
                    assert(rest.contains(x));
                    let k = choose|k: int| 0 <= k < t.len() && t[k] == x;
                    assert(s[k] == x);
                } else {
                    assert(s[s.len() - 1] == x);
                }
            }
        }
    }
}

/// Copies the values with the property, in order.
pub(crate) fn select<T: Keep, F: Fn(&T) -> bool>(
    items: &Vec<T>,
    test: F,
    Ghost(p): Ghost<spec_fn(T::V) -> bool>,
) -> (r: Vec<T>)
    requires
        forall|a: T| call_requires(test, (&a,)),
        forall|a: T, r: bool| call_ensures(test, (&a,), r) ==> r == p(a@),
    ensures
        views(r@) == views(items@).filter(p),
{
    let mut r: Vec<T> = Vec::new();
    let ghost all = views(items@);
    let mut i: usize = 0;
    proof {
        reveal(Seq::filter);
        assert(views(r@) =~= all.take(0).filter(p));
    }
    while i < items.len()
        invariant
            i <= items.len(),
            all == views(items@),
            views(r@) == all.take(i as int).filter(p),
            forall|a: T| call_requires(test, (&a,)),
            forall|a: T, r: bool| call_ensures(test, (&a,), r) ==> r == p(a@),
        decreases items.len() - i,
    {
        let ghost done = views(r@);
        proof {
            reveal(Seq::filter);
            assert(all.take(i + 1).drop_last() =~= all.take(i as int));
            assert(all.take(i + 1).last() == items@[i as int]@);
        }
        if test(&items[i]) {
            let x = items[i].keep();
            r.push(x);
            assert(views(r@) =~= done.push(x@));
        }
        i += 1;
    }
    assert(all.take(i as int) =~= all);
    r
}

/// Whether `p` holds of every value.
pub(crate) fn every<T: View, F: Fn(&T) -> bool>(
    items: &Vec<T>,
    test: F,
    Ghost(p): Ghost<spec_fn(T::V) -> bool>,
) -> (r: bool)
    requires
        forall|a: T| call_requires(test, (&a,)),
        forall|a: T, r: bool| call_ensures(test, (&a,), r) ==> r == p(a@),
    ensures
        r == (forall|i: int| 0 <= i < items@.len() ==> p(#[trigger] views(items@)[i])),
{
    let mut i: usize = 0;
    while i < items.len()
        invariant
            i <= items.len(),
            forall|j: int| 0 <= j < i ==> p(#[trigger] views(items@)[j]),
            forall|a: T| call_requires(test, (&a,)),
            forall|a: T, r: bool| call_ensures(test, (&a,), r) ==> r == p(a@),
        decreases items.len() - i,
    {
        assert(views(items@)[i as int] == items@[i as int]@);
        if !test(&items[i]) {
            return false;
        }
        i += 1;
    }
    true
}

/// Whether `p` holds of every value together with each one after it.
pub(crate) fn every_pair<T: View, F: Fn(&T, &T) -> bool>(
    items: &Vec<T>,
    test: F,
    Ghost(p): Ghost<spec_fn(T::V, T::V) -> bool>,
) -> (r: bool)
    requires
        forall|a: T, b: T| call_requires(test, (&a, &b)),
        forall|a: T, b: T, r: bool| call_ensures(test, (&a, &b), r) ==> r == p(a@, b@),
    ensures
        r == (forall|i: int, j: int|
            0 <= i < j < items@.len() ==> p(#[trigger] views(items@)[i], #[trigger] views(items@)[j])),
{
    let mut i: usize = 0;
    while i < items.len()
        invariant
            i <= items.len(),
            forall|k: int, j: int|
                0 <= k < j < items@.len() && k < i ==> p(
                    #[trigger] views(items@)[k],
                    #[trigger] views(items@)[j],
                ),
            forall|a: T, b: T| call_requires(test, (&a, &b)),
            forall|a: T, b: T, r: bool| call_ensures(test, (&a, &b), r) ==> r == p(a@, b@),
        decreases items.len() - i,
    {
        let mut j: usize = i + 1;
        while j < items.len()
            invariant
                i < j <= items.len(),
                forall|m: int|
                    i < m < j ==> p(views(items@)[i as int], #[trigger] views(items@)[m]),
                forall|a: T, b: T| call_requires(test, (&a, &b)),
                forall|a: T, b: T, r: bool| call_ensures(test, (&a, &b), r) ==> r == p(a@, b@),
            decreases items.len() - j,
        {
            assert(views(items@)[i as int] == items@[i as int]@);
            assert(views(items@)[j as int] == items@[j as int]@);
            if !test(&items[i], &items[j]) {
                return false;
            }
            j += 1;
        }
        i += 1;
    }
    true
}

/// Copies all values, in order.
pub(crate) fn copy_all<T: Keep>(items: &Vec<T>) -> (r: Vec<T>)
    ensures
        views(r@) == views(items@),
{
    let mut r: Vec<T> = Vec::new();
    let ghost all = views(items@);
    let mut i: usize = 0;
    while i < items.len()
        invariant
            i <= items.len(),
            all == views(items@),
            views(r@) == all.take(i as int),
        decreases items.len() - i,
    {
        let ghost done = views(r@);
        let x = items[i].keep();
        r.push(x);
        assert(views(r@) =~= done.push(x@));
        assert(all.take(i + 1) =~= all.take(i as int).push(all[i as int]));
        i += 1;
    }
    assert(all.take(i as int) =~= all);
    r
}

/// The first `n` elements, or all where there are fewer.
pub open spec fn first<A>(s: Seq<A>, n: int) -> Seq<A> {
    if s.len() <= n {
        s
    } else if n <= 0 {
        Seq::empty()
    } else {
        s.take(n)
    }
}

/// Where `x` occurs first, `distinct` does not change by what follows: the
/// elements stand in the order in which they occur first.
pub proof fn distinct_keeps_the_first_of_each<M>(s: Seq<M>, t: Seq<M>)
    ensures
        distinct(s).is_prefix_of(distinct(s + t)),
        (forall|i: int| 0 <= i < t.len() ==> s.contains(#[trigger] t[i])) ==> distinct(s + t)
            == distinct(s),
    decreases t.len(),
{
    if t.len() > 0 {
        let rest = t.drop_last();
        distinct_keeps_the_first_of_each(s, rest);
        assert((s + t).drop_last() =~= s + rest);
        assert((s + t).last() == t.last());
        lemma_distinct(s + rest);
        lemma_distinct(s);
        let d = distinct(s + rest);
        if forall|i: int| 0 <= i < t.len() ==> s.contains(#[trigger] t[i]) {
            assert forall|i: int| 0 <= i < rest.len() implies s.contains(#[trigger] rest[i]) by {
                assert(rest[i] == t[i]);
            }
            assert(s.contains(t[t.len() - 1]));
            assert(d.contains(t.last()));
        }
        assert(distinct(s).is_prefix_of(d));
        assert(d.is_prefix_of(distinct(s + t))) by {
            assert(distinct(s + t).subrange(0, d.len() as int) =~= d);
        }
        assert(distinct(s + t).subrange(0, distinct(s).len() as int) =~= distinct(s)) by {
            assert(d.subrange(0, distinct(s).len() as int) =~= distinct(s));
            assert forall|i: int| 0 <= i < distinct(s).len() implies distinct(s + t)[i]
                == distinct(s)[i] by {
                assert(d[i] == d.subrange(0, distinct(s).len() as int)[i]);
            }
        }
    } else {
        assert(s + t =~= s);
        assert(distinct(s).subrange(0, distinct(s).len() as int) =~= distinct(s));
    }
}

proof fn lemma_placed_keeps<M>(
    s: Seq<M>,
    x: M,
    before: spec_fn(M, M) -> bool,
    q: spec_fn(M) -> bool,
)
    requires
        forall|a: M, b: M| q(a) && q(b) ==> !#[trigger] before(a, b),
    ensures
        placed(s, x, before).filter(q) == (if q(x) {
            s.filter(q).push(x)
        } else {
            s.filter(q)
        }),
    decreases s.len(),
{
    reveal(Seq::filter);
    if s.len() > 0 && before(x, s.last()) {
        let rest = s.drop_last();
        lemma_placed_keeps(rest, x, before, q);
        let front = placed(rest, x, before);
        let r = front.push(s.last());
        assert(r.drop_last() =~= front);
        assert(r.last() == s.last());
    } else {
        let r = s.push(x);
        assert(r.drop_last() =~= s);
        assert(r.last() == x);
    }
}

/// Sorting leaves elements that neither precedes in their order.
pub proof fn equal_elements_keep_their_order<M>(
    s: Seq<M>,
    before: spec_fn(M, M) -> bool,
    q: spec_fn(M) -> bool,
)
    requires
        forall|a: M, b: M| q(a) && q(b) ==> !#[trigger] before(a, b),
    ensures
        sorted(s, before).filter(q) == s.filter(q),
    decreases s.len(),
{
    if s.len() > 0 {
        equal_elements_keep_their_order(s.drop_last(), before, q);
        lemma_placed_keeps(sorted(s.drop_last(), before), s.last(), before, q);
        assert(s.filter(q) == (if q(s.last()) {
            s.drop_last().filter(q).push(s.last())
        } else {
            s.drop_last().filter(q)
        })) by {
            reveal(Seq::filter);
        }
    }
}

/// Whether `a` occurs in `s` before `b` does.
pub open spec fn occurs_sooner<M>(s: Seq<M>, a: M, b: M) -> bool {
    exists|k: int|
        0 <= k < s.len() && #[trigger] s[k] == a && forall|m: int| 0 <= m <= k ==> #[trigger] s[m] != b
}

/// Distinct elements stand in the order in which they occur first.
pub proof fn distinct_stands_as_it_occurs<M>(s: Seq<M>, i: int, j: int)
    requires
        0 <= i < j < distinct(s).len(),
    ensures
        occurs_sooner(s, distinct(s)[i], distinct(s)[j]),
    decreases s.len(),
{
    let t = s.drop_last();
    let rest = distinct(t);
    let a = distinct(s)[i];
    let b = distinct(s)[j];
    lemma_distinct(t);
    assert(rest[i] == a);
    if j < rest.len() {
        assert(rest[j] == b);
        distinct_stands_as_it_occurs(t, i, j);
        let k = choose|k: int|
            0 <= k < t.len() && #[trigger] t[k] == a && forall|m: int|
                0 <= m <= k ==> #[trigger] t[m] != b;
        assert(s[k] == a);
        assert forall|m: int| 0 <= m <= k implies #[trigger] s[m] != b by {
            assert(t[m] == s[m]);
        }
    } else {
        assert(b == s.last());
        assert(rest.contains(a));
        let k = choose|k: int| 0 <= k < t.len() && t[k] == a;
        assert(s[k] == a);
        assert forall|m: int| 0 <= m <= k implies #[trigger] s[m] != b by {
            if s[m] == b {
                assert(t[m] == b);
                assert(t.contains(b));
                assert(rest.contains(b));
            }
        }
    }
}

} // verus!
