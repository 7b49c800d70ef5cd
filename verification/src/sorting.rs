//! A stable sort.
use vstd::prelude::*;

verus! {

broadcast use vstd::seq::group_seq_axioms;

/// A type whose values have a rank. Two values may share one.
pub trait Rank: Sized {
    /// Whether the rank of `self` is that of `other` or one before it.
    spec fn ranks_before(self, other: Self) -> bool;

    proof fn rank_is_transitive(a: Self, b: Self, c: Self)
        requires
            a.ranks_before(b),
            b.ranks_before(c),
        ensures
            a.ranks_before(c),
    ;

    proof fn rank_is_total(a: Self, b: Self)
        ensures
            a.ranks_before(b) || b.ranks_before(a),
    ;
}

/// A type whose values can be told apart by their rank when the program runs.
pub trait Ranked: Rank {
    /// Whether the rank of `self` is that of `other` or one before it.
    fn is_ranked_before(&self, other: &Self) -> (yes: bool)
        ensures
            yes == self.ranks_before(*other),
    ;
}

/// Whether no element has a rank behind that of a later element.
pub open spec fn in_rank_order<T: Rank>(s: Seq<T>) -> bool {
    forall|i: int, j: int| 0 <= i <= j < s.len() ==> (#[trigger] s[i]).ranks_before(#[trigger] s[j])
}

/// Whether two values share a rank.
pub open spec fn same_rank<T: Rank>(a: T, b: T) -> bool {
    a.ranks_before(b) && b.ranks_before(a)
}

/// The elements of `s` that share the rank of `k`, in the order in which they stand in `s`.
pub open spec fn of_rank<T: Rank>(s: Seq<T>, k: T) -> Seq<T> {
    s.filter(|e: T| same_rank(e, k))
}

/// Whether `r` holds the elements of `s` in rank order, and those that share a rank in the
/// order in which they stand in `s`.
pub open spec fn stable_sort_of<T: Rank>(r: Seq<T>, s: Seq<T>) -> bool {
    &&& in_rank_order(r)
    &&& r.to_multiset() == s.to_multiset()
    &&& forall|k: T| #[trigger] of_rank(r, k) == of_rank(s, k)
}

/// The elements of `s` in rank order, and those that share a rank in the order in which they
/// stand in `s`.
pub open spec fn stably_sorted<T: Rank>(s: Seq<T>) -> Seq<T> {
    choose|r: Seq<T>| stable_sort_of(r, s)
}

proof fn lemma_of_rank_insert<T: Rank>(r: Seq<T>, p: int, x: T, k: T)
    requires
        in_rank_order(r),
        0 <= p <= r.len(),
        forall|i: int| 0 <= i < p ==> !x.ranks_before(#[trigger] r[i]),
    ensures
        of_rank(r.insert(p, x), k) == of_rank(seq![x] + r, k),
{
    let pred = |e: T| same_rank(e, k);
    let front = r.take(p);
    let back = r.skip(p);
    assert(r =~= front + back);
    assert(r.insert(p, x) =~= front + seq![x] + back);
    Seq::filter_distributes_over_add(front + seq![x], back, pred);
    Seq::filter_distributes_over_add(front, seq![x], pred);
    Seq::filter_distributes_over_add(seq![x], r, pred);
    Seq::filter_distributes_over_add(front, back, pred);
    let one = seq![x];
    if pred(x) {
        assert forall|i: int| 0 <= i < front.len() implies !pred(#[trigger] front[i]) by {
            let e = r[i];
            if pred(e) {
                T::rank_is_transitive(x, k, e);
            }
        }
        assert(front.all(|e: T| !pred(e)));
        front.lemma_all_neg_filter_empty(pred);
        assert(front.filter(pred) =~= Seq::empty());
        assert(Seq::<T>::empty() + one.filter(pred) + back.filter(pred) =~= one.filter(pred) + (
        Seq::<T>::empty() + back.filter(pred)));
    } else {
        assert(one.all(|e: T| !pred(e)));
        one.lemma_all_neg_filter_empty(pred);
        assert(one.filter(pred) =~= Seq::empty());
        assert(front.filter(pred) + Seq::<T>::empty() + back.filter(pred) =~= Seq::<T>::empty() + (
        front.filter(pred) + back.filter(pred)));
    }
}

proof fn lemma_insert_in_order<T: Rank>(sorted: Seq<T>, tail: Seq<T>, x: T, p: int)
    requires
        stable_sort_of(sorted, tail),
        0 <= p <= sorted.len(),
        forall|i: int| 0 <= i < p ==> !x.ranks_before(#[trigger] sorted[i]),
        p < sorted.len() ==> x.ranks_before(sorted[p]),
    ensures
        stable_sort_of(sorted.insert(p, x), seq![x] + tail),
{
    let r = sorted.insert(p, x);
    assert forall|i: int, j: int| 0 <= i <= j < r.len() implies (#[trigger] r[i]).ranks_before(
        #[trigger] r[j],
    ) by {
        let a = if i < p {
            i
        } else {
            i - 1
        };
        let b = if j < p {
            j
        } else {
            j - 1
        };
        T::rank_is_total(x, x);
        if i == p && j > p {
            assert(x.ranks_before(sorted[p]));
            assert(sorted[p].ranks_before(sorted[b]));
            T::rank_is_transitive(x, sorted[p], sorted[b]);
        } else if i < p && j == p {
            assert(!x.ranks_before(sorted[i]));
            T::rank_is_total(x, sorted[i]);
        } else if i != p && j != p {
            assert(sorted[a].ranks_before(sorted[b]));
        }
    }
    assert(seq![x] + tail =~= tail.insert(0, x));
    vstd::seq_lib::to_multiset_insert(tail, 0, x);
    vstd::seq_lib::to_multiset_insert(sorted, p, x);
    assert forall|k: T| #[trigger] of_rank(r, k) == of_rank(seq![x] + tail, k) by {
        lemma_of_rank_insert(sorted, p, x, k);
        let pred = |e: T| same_rank(e, k);
        Seq::filter_distributes_over_add(seq![x], sorted, pred);
        Seq::filter_distributes_over_add(seq![x], tail, pred);
        assert(of_rank(sorted, k) == of_rank(tail, k));
    }
}

/// Sorts by rank; elements that share a rank keep their order.
pub fn stable_sort<T: Ranked>(items: Vec<T>) -> (r: Vec<T>)
    ensures
        stable_sort_of(r@, items@),
        r@ == stably_sorted(items@),
{
    let mut rest = items;
    let mut r: Vec<T> = Vec::new();
    proof {
        assert(items@.skip(items@.len() as int) =~= r@);
    }
    while rest.len() > 0
        invariant
            rest@.len() <= items@.len(),
            rest@ == items@.take(rest@.len() as int),
            stable_sort_of(r@, items@.skip(rest@.len() as int)),
        decreases rest@.len(),
    {
        let ghost n = rest@.len() as int;
        let ghost sorted = r@;
        let ghost tail = items@.skip(n);
        let x = match rest.pop() {
            Some(x) => x,
            None => return r,
        };
        let mut p: usize = 0;
        while p < r.len() && !x.is_ranked_before(&r[p])
            invariant
                p <= r@.len(),
                forall|i: int| 0 <= i < p ==> !x.ranks_before(#[trigger] r@[i]),
            decreases r@.len() - p,
        {
            p = p + 1;
        }
        r.insert(p, x);
        proof {
            assert(items@.skip(n - 1) =~= seq![x] + tail);
            assert(rest@ =~= items@.take(n - 1));
            assert(r@ =~= sorted.insert(p as int, x));
            lemma_insert_in_order(sorted, tail, x, p as int);
        }
    }
    proof {
        assert(items@.skip(0) =~= items@);
        lemma_stably_sorted(r@, items@);
    }
    r
}

// ---------------------------------------------------------------------------
// Laws
// ---------------------------------------------------------------------------

proof fn lemma_first_of_rank<T: Rank>(s: Seq<T>, k: T)
    requires
        s.len() > 0,
    ensures
        of_rank(s, k) == if same_rank(s[0], k) {
            seq![s[0]] + of_rank(s.skip(1), k)
        } else {
            of_rank(s.skip(1), k)
        },
{
    let pred = |e: T| same_rank(e, k);
    let first = seq![s[0]];
    assert(s =~= first + s.skip(1));
    Seq::filter_distributes_over_add(first, s.skip(1), pred);
    assert(first.drop_last() =~= Seq::empty());
    reveal(Seq::filter);
    assert(Seq::<T>::empty().filter(pred) =~= Seq::empty());
    if pred(s[0]) {
        assert(first.filter(pred) =~= first);
    } else {
        assert(first.filter(pred) =~= Seq::empty());
        assert(Seq::<T>::empty() + s.skip(1).filter(pred) =~= s.skip(1).filter(pred));
    }
}

proof fn lemma_of_rank_is_part<T: Rank>(s: Seq<T>, k: T)
    ensures
        forall|i: int|
            0 <= i < of_rank(s, k).len() ==> s.contains(#[trigger] of_rank(s, k)[i]) && same_rank(
                of_rank(s, k)[i],
                k,
            ),
    decreases s.len(),
{
    if s.len() > 0 {
        lemma_first_of_rank(s, k);
        lemma_of_rank_is_part(s.skip(1), k);
        let all = of_rank(s, k);
        let later = of_rank(s.skip(1), k);
        assert forall|i: int| 0 <= i < all.len() implies s.contains(#[trigger] all[i]) && same_rank(
            all[i],
            k,
        ) by {
            if same_rank(s[0], k) && i == 0 {
                assert(all[i] == s[0]);
            } else {
                let j = if same_rank(s[0], k) {
                    i - 1
                } else {
                    i
                };
                assert(all[i] == later[j]);
                assert(s.skip(1).contains(later[j]));
                let p = choose|p: int| 0 <= p < s.skip(1).len() && s.skip(1)[p] == later[j];
                assert(s[p + 1] == later[j]);
            }
        }
    } else {
        reveal(Seq::filter);
    }
}

proof fn lemma_first_is_first<T: Rank>(a: Seq<T>, b: Seq<T>)
    requires
        in_rank_order(a),
        a.len() > 0,
        b.len() > 0,
        of_rank(a, b[0]) == of_rank(b, b[0]),
    ensures
        a[0].ranks_before(b[0]),
{
    let x = b[0];
    T::rank_is_total(x, x);
    lemma_first_of_rank(b, x);
    let e = of_rank(a, x)[0];
    lemma_of_rank_is_part(a, x);
    assert(a.contains(e) && same_rank(e, x));
    let p = choose|p: int| 0 <= p < a.len() && a[p] == e;
    assert(a[0].ranks_before(a[p]));
    T::rank_is_transitive(a[0], e, x);
}

proof fn lemma_same_ranks_same_order<T: Rank>(a: Seq<T>, b: Seq<T>)
    requires
        in_rank_order(a),
        in_rank_order(b),
        forall|k: T| #[trigger] of_rank(a, k) == of_rank(b, k),
    ensures
        a == b,
    decreases a.len(),
{
    if a.len() == 0 || b.len() == 0 {
        if b.len() > 0 {
            T::rank_is_total(b[0], b[0]);
            lemma_first_of_rank(b, b[0]);
            assert(of_rank(a, b[0]) == of_rank(b, b[0]));
            lemma_of_rank_is_part(a, b[0]);
            assert(a.contains(of_rank(a, b[0])[0]));
        }
        if a.len() > 0 {
            T::rank_is_total(a[0], a[0]);
            lemma_first_of_rank(a, a[0]);
            assert(of_rank(a, a[0]) == of_rank(b, a[0]));
            lemma_of_rank_is_part(b, a[0]);
            assert(b.contains(of_rank(b, a[0])[0]));
        }
        assert(a =~= b);
    } else {
        assert(of_rank(a, b[0]) == of_rank(b, b[0]));
        assert(of_rank(a, a[0]) == of_rank(b, a[0]));
        lemma_first_is_first(a, b);
        lemma_first_is_first(b, a);
        T::rank_is_total(a[0], a[0]);
        lemma_first_of_rank(a, a[0]);
        lemma_first_of_rank(b, a[0]);
        assert(of_rank(a, a[0])[0] == a[0]);
        assert(of_rank(b, a[0])[0] == b[0]);
        let x = a.skip(1);
        let y = b.skip(1);
        assert forall|k: T| #[trigger] of_rank(x, k) == of_rank(y, k) by {
            assert(of_rank(a, k) == of_rank(b, k));
            lemma_first_of_rank(a, k);
            lemma_first_of_rank(b, k);
            if same_rank(a[0], k) {
                assert(of_rank(x, k) =~= of_rank(a, k).skip(1));
                assert(of_rank(y, k) =~= of_rank(b, k).skip(1));
            }
        }
        assert(in_rank_order(x)) by {
            assert forall|i: int, j: int| 0 <= i <= j < x.len() implies (
            #[trigger] x[i]).ranks_before(#[trigger] x[j]) by {
                assert(a[i + 1].ranks_before(a[j + 1]));
            }
        }
        assert(in_rank_order(y)) by {
            assert forall|i: int, j: int| 0 <= i <= j < y.len() implies (
            #[trigger] y[i]).ranks_before(#[trigger] y[j]) by {
                assert(b[i + 1].ranks_before(b[j + 1]));
            }
        }
        lemma_same_ranks_same_order(x, y);
        assert(a =~= seq![a[0]] + x);
        assert(b =~= seq![b[0]] + y);
    }
}

/// There is only one way to sort and keep the order of what shares a rank.
pub proof fn law_stable_sort_is_unique<T: Rank>(a: Seq<T>, b: Seq<T>, s: Seq<T>)
    requires
        stable_sort_of(a, s),
        stable_sort_of(b, s),
    ensures
        a == b,
{
    assert forall|k: T| #[trigger] of_rank(a, k) == of_rank(b, k) by {
        assert(of_rank(a, k) == of_rank(s, k));
        assert(of_rank(b, k) == of_rank(s, k));
    }
    lemma_same_ranks_same_order(a, b);
}

pub proof fn lemma_stably_sorted<T: Rank>(r: Seq<T>, s: Seq<T>)
    requires
        stable_sort_of(r, s),
    ensures
        r == stably_sorted(s),
        stable_sort_of(stably_sorted(s), s),
{
    law_stable_sort_is_unique(r, stably_sorted(s), s);
}

proof fn lemma_place<T: Rank>(sorted: Seq<T>, x: T, from: int) -> (p: int)
    requires
        0 <= from <= sorted.len(),
        forall|i: int| 0 <= i < from ==> !x.ranks_before(#[trigger] sorted[i]),
    ensures
        from <= p <= sorted.len(),
        forall|i: int| 0 <= i < p ==> !x.ranks_before(#[trigger] sorted[i]),
        p < sorted.len() ==> x.ranks_before(sorted[p]),
    decreases sorted.len() - from,
{
    if from == sorted.len() || x.ranks_before(sorted[from]) {
        from
    } else {
        lemma_place(sorted, x, from + 1)
    }
}

/// Every sequence can be sorted.
pub proof fn law_every_sequence_can_be_sorted<T: Rank>(s: Seq<T>)
    ensures
        stable_sort_of(stably_sorted(s), s),
    decreases s.len(),
{
    if s.len() == 0 {
        assert(stable_sort_of(s, s));
    } else {
        let x = s[0];
        let tail = s.skip(1);
        law_every_sequence_can_be_sorted(tail);
        let sorted = stably_sorted(tail);
        let p = lemma_place(sorted, x, 0);
        lemma_insert_in_order(sorted, tail, x, p);
        assert(seq![x] + tail =~= s);
        assert(stable_sort_of(sorted.insert(p, x), s));
    }
}

proof fn lemma_filter_of_map<A, B>(s: Seq<A>, f: spec_fn(A) -> B, pred: spec_fn(B) -> bool)
    ensures
        s.map_values(f).filter(pred) == s.filter(|x: A| pred(f(x))).map_values(f),
    decreases s.len(),
{
    reveal(Seq::filter);
    let own = |x: A| pred(f(x));
    if s.len() == 0 {
        assert(s.map_values(f).filter(pred) =~= s.filter(own).map_values(f));
    } else {
        let before = s.drop_last();
        lemma_filter_of_map(before, f, pred);
        assert(s.map_values(f).drop_last() =~= before.map_values(f));
        if own(s.last()) {
            assert(before.filter(own).push(s.last()).map_values(f) =~= before.filter(
                own,
            ).map_values(f).push(f(s.last())));
        }
        assert(s.map_values(f).filter(pred) =~= s.filter(own).map_values(f));
    }
}

/// Sequences of the same elements have images of the same elements.
pub proof fn lemma_images_alike<A, B>(a: Seq<A>, b: Seq<A>, f: spec_fn(A) -> B)
    requires
        a.to_multiset() == b.to_multiset(),
    ensures
        a.map_values(f).to_multiset() == b.map_values(f).to_multiset(),
    decreases a.len(),
{
    broadcast use vstd::seq_lib::group_to_multiset_ensures;

    assert(a.len() == a.to_multiset().len());
    assert(b.len() == b.to_multiset().len());
    if a.len() == 0 {
        assert(a.map_values(f) =~= b.map_values(f));
    } else {
        let x = a[0];
        assert(a.contains(x));
        assert(b.to_multiset().contains(x));
        let p = choose|p: int| 0 <= p < b.len() && b[p] == x;
        assert(a.remove(0).to_multiset() =~= a.to_multiset().remove(x));
        assert(b.remove(p).to_multiset() =~= b.to_multiset().remove(x));
        lemma_images_alike(a.remove(0), b.remove(p), f);
        let u = a.map_values(f);
        let v = b.map_values(f);
        assert(a.remove(0).map_values(f) =~= u.remove(0));
        assert(b.remove(p).map_values(f) =~= v.remove(p));
        assert(u.remove(0).insert(0, f(x)) =~= u);
        assert(v.remove(p).insert(p, f(x)) =~= v);
        vstd::seq_lib::to_multiset_insert(u.remove(0), 0, f(x));
        vstd::seq_lib::to_multiset_insert(v.remove(p), p, f(x));
    }
}

proof fn lemma_of_rank_image<A: Rank, B: Rank>(r: Seq<A>, s: Seq<A>, f: spec_fn(A) -> B, k: B)
    requires
        stable_sort_of(r, s),
        forall|x: A, y: A| #[trigger] f(x).ranks_before(#[trigger] f(y)) == x.ranks_before(y),
    ensures
        of_rank(r.map_values(f), k) == of_rank(s.map_values(f), k),
{
    broadcast use vstd::seq_lib::group_to_multiset_ensures;

    let pred = |e: B| same_rank(e, k);
    let own = |x: A| pred(f(x));
    lemma_filter_of_map(r, f, pred);
    lemma_filter_of_map(s, f, pred);
    if exists|x: A| s.contains(x) && #[trigger] own(x) {
        let k0 = choose|x: A| s.contains(x) && #[trigger] own(x);
        assert forall|x: A| #[trigger] own(x) == same_rank(x, k0) by {
            if own(x) {
                B::rank_is_transitive(f(x), k, f(k0));
                B::rank_is_transitive(f(k0), k, f(x));
            }
            if same_rank(x, k0) {
                assert(f(x).ranks_before(f(k0)) && f(k0).ranks_before(f(x)));
                B::rank_is_transitive(f(x), f(k0), k);
                B::rank_is_transitive(k, f(k0), f(x));
            }
        }
        assert(own =~= |x: A| same_rank(x, k0));
        assert(of_rank(r, k0) == of_rank(s, k0));
    } else {
        assert(r.all(|x: A| !own(x))) by {
            assert forall|i: int| 0 <= i < r.len() implies !own(#[trigger] r[i]) by {
                assert(r.contains(r[i]));
                assert(r.to_multiset().contains(r[i]));
                assert(s.contains(r[i]));
            }
        }
        assert(s.all(|x: A| !own(x))) by {
            assert forall|i: int| 0 <= i < s.len() implies !own(#[trigger] s[i]) by {
                assert(s.contains(s[i]));
            }
        }
        r.lemma_all_neg_filter_empty(own);
        s.lemma_all_neg_filter_empty(own);
        assert(r.filter(own) =~= s.filter(own));
    }
}

/// What keeps the ranks turns a sorted sequence into a sorted one.
pub proof fn lemma_sorted_image<A: Rank, B: Rank>(r: Seq<A>, s: Seq<A>, f: spec_fn(A) -> B)
    requires
        stable_sort_of(r, s),
        forall|x: A, y: A| #[trigger] f(x).ranks_before(#[trigger] f(y)) == x.ranks_before(y),
    ensures
        stable_sort_of(r.map_values(f), s.map_values(f)),
{
    lemma_images_alike(r, s, f);
    let t = r.map_values(f);
    assert forall|i: int, j: int| 0 <= i <= j < t.len() implies (#[trigger] t[i]).ranks_before(
        #[trigger] t[j],
    ) by {
        assert(r[i].ranks_before(r[j]));
        assert(f(r[i]).ranks_before(f(r[j])));
    }
    assert forall|k: B| #[trigger] of_rank(t, k) == of_rank(s.map_values(f), k) by {
        lemma_of_rank_image(r, s, f, k);
    }
}

/// Where no two different elements share a rank, the order in which they come does not matter.
pub proof fn law_sorted_in_whatever_order<T: Rank>(a: Seq<T>, s: Seq<T>, b: Seq<T>, t: Seq<T>)
    requires
        stable_sort_of(a, s),
        stable_sort_of(b, t),
        s.to_multiset() == t.to_multiset(),
        forall|x: T, y: T|
            #[trigger] s.contains(x) && #[trigger] s.contains(y) && same_rank(x, y) ==> x == y,
    ensures
        a == b,
{
    broadcast use vstd::seq_lib::group_to_multiset_ensures;

    assert forall|x: T, y: T|
        #[trigger] a.contains(x) && #[trigger] a.contains(y) && same_rank(x, y) implies x == y by {
        assert(a.to_multiset().contains(x) && a.to_multiset().contains(y));
        assert(s.contains(x) && s.contains(y));
    }
    lemma_sorted_alike(a, b);
}

proof fn lemma_sorted_alike<T: Rank>(a: Seq<T>, b: Seq<T>)
    requires
        in_rank_order(a),
        in_rank_order(b),
        a.to_multiset() == b.to_multiset(),
        forall|x: T, y: T|
            #[trigger] a.contains(x) && #[trigger] a.contains(y) && same_rank(x, y) ==> x == y,
    ensures
        a == b,
    decreases a.len(),
{
    broadcast use vstd::seq_lib::group_to_multiset_ensures;

    assert(a.len() == a.to_multiset().len());
    assert(b.len() == b.to_multiset().len());
    if a.len() == 0 {
        assert(a =~= b);
    } else {
        assert(a.contains(a[0]));
        assert(b.contains(b[0]));
        assert(a.to_multiset().contains(b[0]) && b.to_multiset().contains(a[0]));
        let p = choose|p: int| 0 <= p < a.len() && a[p] == b[0];
        let q = choose|q: int| 0 <= q < b.len() && b[q] == a[0];
        assert(a[0].ranks_before(a[p]));
        assert(b[0].ranks_before(b[q]));
        assert(a[0] == b[0]);
        let x = a.skip(1);
        let y = b.skip(1);
        assert(x =~= a.remove(0));
        assert(y =~= b.remove(0));
        assert(x.to_multiset() =~= a.to_multiset().remove(a[0]));
        assert(y.to_multiset() =~= b.to_multiset().remove(b[0]));
        assert forall|i: int, j: int| 0 <= i <= j < x.len() implies (
        #[trigger] x[i]).ranks_before(#[trigger] x[j]) by {
            assert(a[i + 1].ranks_before(a[j + 1]));
        }
        assert forall|i: int, j: int| 0 <= i <= j < y.len() implies (
        #[trigger] y[i]).ranks_before(#[trigger] y[j]) by {
            assert(b[i + 1].ranks_before(b[j + 1]));
        }
        assert forall|u: T, v: T|
            #[trigger] x.contains(u) && #[trigger] x.contains(v) && same_rank(u, v) implies u
            == v by {
            let i = choose|i: int| 0 <= i < x.len() && x[i] == u;
            let j = choose|j: int| 0 <= j < x.len() && x[j] == v;
            assert(a[i + 1] == u && a[j + 1] == v);
            assert(a.contains(u) && a.contains(v));
        }
        lemma_sorted_alike(x, y);
        assert(a =~= seq![a[0]] + x);
        assert(b =~= seq![b[0]] + y);
    }
}

} // verus!
