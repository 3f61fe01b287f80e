//! A stable sort.

use vstd::prelude::*;
use vstd::seq_lib::*;

verus! {

/// Values with an order among them.
pub trait Ranked: View + Sized {
    /// Whether a value with the first view may stand before one with the
    /// second.
    spec fn in_order(a: Self::V, b: Self::V) -> bool;

    /// Of any two values one may stand before the other.
    proof fn total(a: Self::V, b: Self::V)
        ensures
            Self::in_order(a, b) || Self::in_order(b, a),
    ;

    /// What may stand before a value may stand before what follows it.
    proof fn transitive(a: Self::V, b: Self::V, c: Self::V)
        requires
            Self::in_order(a, b),
            Self::in_order(b, c),
        ensures
            Self::in_order(a, c),
    ;

    /// Whether this value may stand before the other.
    fn not_after(&self, other: &Self) -> (b: bool)
        ensures
            b == Self::in_order(self@, other@),
    ;
}

/// A sorted list with one more value, behind every value that may stand before
/// it.
pub open spec fn inserted<T: Ranked>(s: Seq<T::V>, x: T::V) -> Seq<T::V>
    decreases s.len(),
{
    if s.len() == 0 || T::in_order(s.last(), x) {
        s.push(x)
    } else {
        inserted::<T>(s.drop_last(), x).push(s.last())
    }
}

/// The list in order, values that rank alike in the order they had.
pub open spec fn sorted<T: Ranked>(s: Seq<T::V>) -> Seq<T::V>
    decreases s.len(),
{
    if s.len() == 0 {
        Seq::empty()
    } else {
        inserted::<T>(sorted::<T>(s.drop_last()), s.last())
    }
}

/// Whether every value may stand before every later one.
pub open spec fn is_sorted<T: Ranked>(s: Seq<T::V>) -> bool {
    forall|i: int, j: int| 0 <= i < j < s.len() ==> T::in_order(#[trigger] s[i], #[trigger] s[j])
}

/// What a list of values holds.
pub open spec fn views<T: View>(s: Seq<T>) -> Seq<T::V> {
    s.map_values(|x: T| x@)
}

proof fn lemma_inserted_at<T: Ranked>(s: Seq<T::V>, x: T::V, at: int)
    requires
        0 <= at <= s.len(),
        at > 0 ==> T::in_order(s[at - 1], x),
        forall|i: int| at <= i < s.len() ==> !T::in_order(#[trigger] s[i], x),
    ensures
        inserted::<T>(s, x) == s.insert(at, x),
    decreases s.len(),
{
    if at == s.len() {
        assert(s.insert(at, x) =~= s.push(x));
    } else {
        assert(!T::in_order(s[s.len() - 1], x));
        let less = s.drop_last();
        assert forall|i: int| at <= i < less.len() implies !T::in_order(#[trigger] less[i], x) by {
            assert(less[i] == s[i]);
        }
        lemma_inserted_at::<T>(less, x, at);
        assert(less.insert(at, x).push(s.last()) =~= s.insert(at, x));
    }
}

proof fn lemma_inserted<T: Ranked>(s: Seq<T::V>, x: T::V)
    requires
        is_sorted::<T>(s),
    ensures
        is_sorted::<T>(inserted::<T>(s, x)),
        inserted::<T>(s, x).len() == s.len() + 1,
        inserted::<T>(s, x).to_multiset() == s.to_multiset().insert(x),
        forall|i: int|
            0 <= i < s.len() + 1 ==> (#[trigger] inserted::<T>(s, x)[i] == x || s.contains(
                inserted::<T>(s, x)[i],
            )),
    decreases s.len(),
{
    broadcast use group_to_multiset_ensures;

    let made = inserted::<T>(s, x);
    if s.len() == 0 {
    } else if T::in_order(s.last(), x) {
        assert forall|i: int, j: int| 0 <= i < j < made.len() implies T::in_order(
            #[trigger] made[i],
            #[trigger] made[j],
        ) by {
            if j < s.len() {
                assert(made[i] == s[i] && made[j] == s[j]);
            } else if i < s.len() - 1 {
                assert(T::in_order(s[i], s[s.len() - 1]));
                T::transitive(s[i], s[s.len() - 1], x);
            }
        }
        assert forall|i: int| 0 <= i < s.len() + 1 implies (#[trigger] made[i] == x || s.contains(
            made[i],
        )) by {
            if i < s.len() {
                assert(made[i] == s[i]);
            }
        }
    } else {
        let less = s.drop_last();
        assert forall|i: int, j: int| 0 <= i < j < less.len() implies T::in_order(
            #[trigger] less[i],
            #[trigger] less[j],
        ) by {
            assert(less[i] == s[i] && less[j] == s[j]);
        }
        lemma_inserted::<T>(less, x);
        let head = inserted::<T>(less, x);
        T::total(s.last(), x);
        assert forall|i: int, j: int| 0 <= i < j < made.len() implies T::in_order(
            #[trigger] made[i],
            #[trigger] made[j],
        ) by {
            if j < head.len() {
                assert(made[i] == head[i] && made[j] == head[j]);
            } else {
                assert(made[j] == s.last());
                assert(made[i] == head[i]);
                if head[i] != x {
                    let k = choose|k: int| 0 <= k < less.len() && less[k] == head[i];
                    assert(T::in_order(s[k], s[s.len() - 1]));
                }
            }
        }
        assert forall|i: int| 0 <= i < s.len() + 1 implies (#[trigger] made[i] == x || s.contains(
            made[i],
        )) by {
            if i < head.len() {
                assert(made[i] == head[i]);
                if head[i] != x {
                    let k = choose|k: int| 0 <= k < less.len() && less[k] == head[i];
                    assert(s[k] == made[i]);
                }
            } else {
                assert(made[i] == s[s.len() - 1]);
            }
        }
        assert(s =~= less.push(s.last()));
        assert(made.to_multiset() =~= s.to_multiset().insert(x));
    }
}

/// Sorting gives a list in order that holds the same values, each as often.
pub proof fn law_sorted<T: Ranked>(s: Seq<T::V>)
    ensures
        is_sorted::<T>(sorted::<T>(s)),
        sorted::<T>(s).len() == s.len(),
        sorted::<T>(s).to_multiset() == s.to_multiset(),
    decreases s.len(),
{
    broadcast use group_to_multiset_ensures;

    if s.len() > 0 {
        law_sorted::<T>(s.drop_last());
        lemma_inserted::<T>(sorted::<T>(s.drop_last()), s.last());
        assert(s =~= s.drop_last().push(s.last()));
    } else {
        assert(s =~= Seq::<T::V>::empty());
    }
}

/// A list already in order stays as it is.
pub proof fn law_sorted_keeps_order<T: Ranked>(s: Seq<T::V>)
    requires
        is_sorted::<T>(s),
    ensures
        sorted::<T>(s) == s,
    decreases s.len(),
{
    if s.len() > 0 {
        let less = s.drop_last();
        assert forall|i: int, j: int| 0 <= i < j < less.len() implies T::in_order(
            #[trigger] less[i],
            #[trigger] less[j],
        ) by {
            assert(less[i] == s[i] && less[j] == s[j]);
        }
        law_sorted_keeps_order::<T>(less);
        if less.len() > 0 {
            assert(T::in_order(s[s.len() - 2], s[s.len() - 1]));
        }
        assert(less.push(s.last()) =~= s);
    } else {
        assert(s =~= Seq::<T::V>::empty());
    }
}

/// What a function picks of a list, in order.
pub open spec fn picked<A, B>(s: Seq<A>, f: spec_fn(A) -> Option<B>) -> Seq<B>
    decreases s.len(),
{
    if s.len() == 0 {
        Seq::empty()
    } else {
        match f(s.last()) {
            Some(x) => picked(s.drop_last(), f).push(x),
            None => picked(s.drop_last(), f),
        }
    }
}

proof fn lemma_picked_without<A, B>(s: Seq<A>, f: spec_fn(A) -> Option<B>, i: int)
    requires
        0 <= i < s.len(),
    ensures
        picked(s, f).to_multiset() == match f(s[i]) {
            Some(x) => picked(s.remove(i), f).to_multiset().insert(x),
            None => picked(s.remove(i), f).to_multiset(),
        },
    decreases s.len(),
{
    broadcast use group_to_multiset_ensures;

    let rest = s.remove(i);
    if i == s.len() - 1 {
        assert(rest =~= s.drop_last());
    } else {
        assert(rest.drop_last() =~= s.drop_last().remove(i));
        assert(rest.last() == s.last());
        lemma_picked_without(s.drop_last(), f, i);
        match (f(s.last()), f(s[i])) {
            (Some(x), Some(y)) => {
                let m = picked(s.drop_last().remove(i), f).to_multiset();
                assert(m.insert(y).insert(x) =~= m.insert(x).insert(y));
            },
            _ => {},
        }
    }
}

/// Of two lists that hold the same values each as often, the same is picked,
/// each as often.
pub proof fn lemma_picked_alike<A, B>(a: Seq<A>, b: Seq<A>, f: spec_fn(A) -> Option<B>)
    requires
        a.to_multiset() == b.to_multiset(),
    ensures
        picked(a, f).to_multiset() == picked(b, f).to_multiset(),
        picked(a, f).len() == picked(b, f).len(),
    decreases a.len(),
{
    broadcast use group_to_multiset_ensures;

    assert(a.to_multiset().len() == a.len() && b.to_multiset().len() == b.len());
    if a.len() > 0 {
        let x = a.last();
        let less = a.drop_last();
        assert(a =~= less.push(x));
        assert(a[a.len() - 1] == x);
        assert(a.contains(x));
        assert(a.to_multiset().count(x) > 0);
        assert(b.contains(x));
        let i = choose|i: int| 0 <= i < b.len() && b[i] == x;
        let rest = b.remove(i);
        assert(rest.to_multiset() =~= b.to_multiset().remove(x));
        assert(less.to_multiset() =~= a.to_multiset().remove(x));
        lemma_picked_alike(less, rest, f);
        lemma_picked_without(a, f, a.len() - 1);
        assert(a.remove(a.len() - 1) =~= less);
        lemma_picked_without(b, f, i);
    }
    assert(picked(a, f).len() == picked(a, f).to_multiset().len());
    assert(picked(b, f).len() == picked(b, f).to_multiset().len());
}

/// Mapping a list is picking the image of everything.
pub proof fn lemma_picked_all<A, B>(s: Seq<A>, g: spec_fn(A) -> B)
    ensures
        picked(s, |x: A| Some(g(x))) == s.map_values(g),
    decreases s.len(),
{
    if s.len() > 0 {
        lemma_picked_all(s.drop_last(), g);
        assert(s.map_values(g) =~= s.drop_last().map_values(g).push(g(s.last())));
    } else {
        assert(s.map_values(g) =~= Seq::<B>::empty());
    }
}

/// The images of two lists that hold the same values each as often do so too.
pub proof fn lemma_mapped_alike<A, B>(a: Seq<A>, b: Seq<A>, g: spec_fn(A) -> B)
    requires
        a.to_multiset() == b.to_multiset(),
    ensures
        a.map_values(g).to_multiset() == b.map_values(g).to_multiset(),
{
    let f = |x: A| Some(g(x));
    lemma_picked_alike(a, b, f);
    lemma_picked_all(a, g);
    lemma_picked_all(b, g);
}

/// Two lists in order that hold the same values each as often are the same,
/// where no two of those values may stand in either order.
pub proof fn law_order_is_unique<T: Ranked>(a: Seq<T::V>, b: Seq<T::V>)
    requires
        is_sorted::<T>(a),
        is_sorted::<T>(b),
        a.to_multiset() == b.to_multiset(),
        forall|i: int, j: int|
            0 <= i < j < a.len() ==> !T::in_order(#[trigger] a[j], #[trigger] a[i]),
    ensures
        a == b,
    decreases a.len(),
{
    broadcast use group_to_multiset_ensures;

    assert(a.to_multiset().len() == a.len() && b.to_multiset().len() == b.len());
    if a.len() > 0 {
        let n = a.len() - 1;
        let x = a[n];
        let y = b[n];
        assert(a.contains(x));
        assert(a.to_multiset().count(x) > 0);
        assert(b.contains(x));
        assert(b.contains(y));
        assert(b.to_multiset().count(y) > 0);
        assert(a.contains(y));
        let i = choose|i: int| 0 <= i < a.len() && a[i] == y;
        let j = choose|j: int| 0 <= j < b.len() && b[j] == x;
        if i < n {
            // `x` stands in `b` no later than `y`, and in `a` only after it.
            if j < n {
                assert(T::in_order(b[j], b[n]));
            }
            assert(!T::in_order(a[n], a[i]));
        }
        assert(x == y);
        let less = a.drop_last();
        let fewer = b.drop_last();
        assert(a =~= less.push(x));
        assert(b =~= fewer.push(x));
        assert(less.to_multiset() =~= a.to_multiset().remove(x));
        assert(fewer.to_multiset() =~= b.to_multiset().remove(x));
        assert forall|i: int, j: int| 0 <= i < j < less.len() implies T::in_order(
            #[trigger] less[i],
            #[trigger] less[j],
        ) && !T::in_order(less[j], less[i]) by {
            assert(less[i] == a[i] && less[j] == a[j]);
        }
        assert forall|i: int, j: int| 0 <= i < j < fewer.len() implies T::in_order(
            #[trigger] fewer[i],
            #[trigger] fewer[j],
        ) by {
            assert(fewer[i] == b[i] && fewer[j] == b[j]);
        }
        law_order_is_unique::<T>(less, fewer);
    } else {
        assert(a =~= b);
    }
}

/// The list in order, values that rank alike in the order they had.
pub fn sort<T: Ranked>(items: Vec<T>) -> (out: Vec<T>)
    ensures
        views(out@) == sorted::<T>(views(items@)),
{
    let ghost all = views(items@);
    let mut out: Vec<T> = Vec::new();
    assert(views(out@) =~= sorted::<T>(all.take(0)));
    for x in source: items
        invariant
            views(source.seq()) == all,
            out@.len() == source.index(),
            views(out@) == sorted::<T>(all.take(source.index())),
    {
        let ghost before = out@;
        let ghost i = source.index();
        let ghost seen = x@;
        let at: usize = place(&out, &x, Ghost(all.take(i)));
        proof {
            assert(x@ == all[i]);
            assert(all.take(i + 1).drop_last() =~= all.take(i));
            lemma_inserted_at::<T>(views(before), x@, at as int);
        }
        out.insert(at, x);
        assert(views(out@) =~= views(before).insert(at as int, seen));
    }
    assert(all.take(all.len() as int) =~= all);
    out
}

/// Where a value goes in a sorted list.
fn place<T: Ranked>(out: &Vec<T>, x: &T, Ghost(source): Ghost<Seq<T::V>>) -> (at: usize)
    requires
        views(out@) == sorted::<T>(source),
    ensures
        at <= out@.len(),
        at > 0 ==> T::in_order(views(out@)[at - 1], x@),
        forall|i: int| at <= i < out@.len() ==> !T::in_order(#[trigger] views(out@)[i], x@),
{
    let ghost s = views(out@);
    proof {
        law_sorted::<T>(source);
    }
    let mut low: usize = 0;
    let mut high: usize = out.len();
    while low < high
        invariant
            low <= high <= out@.len(),
            s == views(out@),
            is_sorted::<T>(s),
            low > 0 ==> T::in_order(s[low - 1], x@),
            forall|i: int| high <= i < out@.len() ==> !T::in_order(#[trigger] s[i], x@),
        decreases high - low,
    {
        let middle: usize = low + (high - low) / 2;
        let ghost m = middle as int;
        assert(s[m] == out@[m]@);
        if out[middle].not_after(x) {
            low = middle + 1;
        } else {
            assert forall|i: int| middle <= i < out@.len() implies !T::in_order(
                #[trigger] s[i],
                x@,
            ) by {
                if i > m && T::in_order(s[i], x@) {
                    assert(T::in_order(s[m], s[i]));
                    T::transitive(s[m], s[i], x@);
                }
            }
            high = middle;
        }
    }
    low
}

}
