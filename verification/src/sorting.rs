//! A stable sort by rank.

use vstd::prelude::*;

verus! {

/// A value with a rank by which a list of such values is put in order.
pub trait Ranked: Sized {
    /// The rank of the value.
    spec fn rank_of(&self) -> int;

    /// Computes the rank.
    fn rank(&self) -> (r: u64)
        ensures
            r == self.rank_of(),
    ;
}

/// Whether the ranks of `s` never fall.
pub open spec fn in_order<T: Ranked>(s: Seq<T>) -> bool {
    forall|i: int, j: int|
        0 <= i <= j < s.len() ==> (#[trigger] s[i]).rank_of() <= (#[trigger] s[j]).rank_of()
}

/// Whether an item has rank `k`.
pub open spec fn has_rank<T: Ranked>(k: int) -> spec_fn(T) -> bool {
    |x: T| x.rank_of() == k
}

/// The items of `s` that have rank `k`, in order.
pub open spec fn of_rank<T: Ranked>(s: Seq<T>, k: int) -> Seq<T> {
    s.filter(has_rank(k))
}

/// Whether `r` is `s` put in order by rank, with items of one rank in the order that
/// they had.
pub open spec fn stably_sorted<T: Ranked>(r: Seq<T>, s: Seq<T>) -> bool {
    in_order(r) && forall|k: int| #[trigger] of_rank(r, k) == of_rank(s, k)
}

proof fn lemma_of_rank_add<T: Ranked>(a: Seq<T>, b: Seq<T>, k: int)
    ensures
        of_rank(a + b, k) == of_rank(a, k) + of_rank(b, k),
{
    Seq::filter_distributes_over_add(a, b, has_rank(k));
}

proof fn lemma_of_rank_one<T: Ranked>(x: T, k: int)
    ensures
        of_rank(seq![x], k) == (if x.rank_of() == k {
            seq![x]
        } else {
            Seq::<T>::empty()
        }),
{
    let pred = has_rank::<T>(k);
    let none = Seq::<T>::empty();
    assert(seq![x] =~= none.push(x));
    none.lemma_filter_push(x, pred);
    reveal(Seq::filter);
    assert(none.filter(pred) =~= none);
}

proof fn lemma_of_rank_none<T: Ranked>(s: Seq<T>, k: int)
    requires
        forall|i: int| 0 <= i < s.len() ==> (#[trigger] s[i]).rank_of() != k,
    ensures
        of_rank(s, k) == Seq::<T>::empty(),
    decreases s.len(),
{
    reveal(Seq::filter);
    if s.len() > 0 {
        lemma_of_rank_none(s.drop_last(), k);
        assert(s.last().rank_of() != k);
    }
    assert(of_rank(s, k) =~= Seq::<T>::empty());
}

/// Every item of a list is found among the items of its rank.
pub proof fn of_rank_contains<T: Ranked>(s: Seq<T>, x: T)
    ensures
        s.contains(x) <==> of_rank(s, x.rank_of()).contains(x),
{
    let k = x.rank_of();
    let pred = has_rank::<T>(k);
    if s.contains(x) {
        let i = choose|i: int| 0 <= i < s.len() && s[i] == x;
        s.lemma_filter_contains(pred, i);
    }
    if s.filter(pred).contains(x) {
        s.lemma_filter_contains_rev(pred, x);
    }
}

/// A stably sorted list holds the items of the given list and no others.
pub proof fn stably_sorted_same_items<T: Ranked>(r: Seq<T>, s: Seq<T>, x: T)
    requires
        stably_sorted(r, s),
    ensures
        r.contains(x) <==> s.contains(x),
{
    of_rank_contains(r, x);
    of_rank_contains(s, x);
    assert(of_rank(r, x.rank_of()) == of_rank(s, x.rank_of()));
}

proof fn lemma_filter_positions<T>(s: Seq<T>, pred: spec_fn(T) -> bool, i: int, j: int)
    requires
        0 <= i < j < s.filter(pred).len(),
    ensures
        exists|a: int, b: int|
            0 <= a < b < s.len() && #[trigger] s[a] == s.filter(pred)[i] && #[trigger] s[b]
                == s.filter(pred)[j],
    decreases s.len(),
{
    reveal(Seq::filter);
    if s.len() > 0 {
        let fewer = s.drop_last();
        let n = s.len() - 1;
        if j < fewer.filter(pred).len() {
            lemma_filter_positions(fewer, pred, i, j);
            let (a, b) = choose|a: int, b: int|
                0 <= a < b < fewer.len() && #[trigger] fewer[a] == fewer.filter(pred)[i]
                    && #[trigger] fewer[b] == fewer.filter(pred)[j];
            assert(s[a] == fewer[a] && s[b] == fewer[b]);
        } else {
            let x = fewer.filter(pred)[i];
            assert(fewer.filter(pred).contains(x));
            fewer.lemma_filter_contains_rev(pred, x);
            let a = choose|a: int| 0 <= a < fewer.len() && fewer[a] == x;
            assert(s[a] == x && s[n] == s.filter(pred)[j]);
        }
    }
}

/// Of two items of a list, the one that comes first still comes first when the list is
/// stably sorted, unless it has the greater rank.
pub proof fn stably_sorted_keeps_order<T: Ranked>(r: Seq<T>, s: Seq<T>, a: int, b: int)
    requires
        stably_sorted(r, s),
        0 <= a < b < s.len(),
        s[a].rank_of() <= s[b].rank_of(),
    ensures
        exists|i: int, j: int|
            0 <= i < j < r.len() && #[trigger] r[i] == s[a] && #[trigger] r[j] == s[b],
{
    let (x, y) = (s[a], s[b]);
    if x.rank_of() < y.rank_of() {
        assert(s.contains(x) && s.contains(y));
        stably_sorted_same_items(r, s, x);
        stably_sorted_same_items(r, s, y);
        let i = choose|i: int| 0 <= i < r.len() && r[i] == x;
        let j = choose|j: int| 0 <= j < r.len() && r[j] == y;
        assert(i < j) by {
            if j < i {
                assert(r[j].rank_of() <= r[i].rank_of());
            }
        }
        assert(r[i] == x && r[j] == y);
    } else {
        let k = x.rank_of();
        let (head, tail) = (s.take(b), s.skip(b));
        assert(s =~= head + tail);
        lemma_of_rank_add(head, tail, k);
        assert(head[a] == x && tail[0] == y);
        assert(head.contains(x) && tail.contains(y));
        of_rank_contains(head, x);
        of_rank_contains(tail, y);
        let (h, t) = (of_rank(head, k), of_rank(tail, k));
        let i = choose|i: int| 0 <= i < h.len() && h[i] == x;
        let j = choose|j: int| 0 <= j < t.len() && t[j] == y;
        assert(of_rank(r, k) == h + t);
        assert((h + t)[i] == x && (h + t)[h.len() + j] == y);
        lemma_filter_positions(r, has_rank(k), i, h.len() + j);
    }
}

proof fn lemma_filter_count<T>(s: Seq<T>, pred: spec_fn(T) -> bool, x: T)
    requires
        pred(x),
    ensures
        s.filter(pred).to_multiset().count(x) == s.to_multiset().count(x),
    decreases s.len(),
{
    broadcast use vstd::seq_lib::group_to_multiset_ensures;

    reveal(Seq::filter);
    if s.len() > 0 {
        let fewer = s.drop_last();
        lemma_filter_count(fewer, pred, x);
        assert(s =~= fewer.push(s.last()));
    } else {
        assert(s.filter(pred) =~= s);
    }
}

/// A stably sorted list holds every item as often as the given list.
pub proof fn stably_sorted_same_counts<T: Ranked>(r: Seq<T>, s: Seq<T>)
    requires
        stably_sorted(r, s),
    ensures
        r.to_multiset() == s.to_multiset(),
{
    assert forall|x: T| r.to_multiset().count(x) == s.to_multiset().count(x) by {
        let k = x.rank_of();
        lemma_filter_count(r, has_rank(k), x);
        lemma_filter_count(s, has_rank(k), x);
        assert(of_rank(r, k) == of_rank(s, k));
    }
    assert(r.to_multiset() =~= s.to_multiset());
}

/// The sum of what `f` makes of the items of a list.
pub open spec fn total_by<T>(s: Seq<T>, f: spec_fn(T) -> int) -> int
    decreases s.len(),
{
    if s.len() == 0 {
        0
    } else {
        total_by(s.drop_last(), f) + f(s.last())
    }
}

proof fn lemma_total_remove<T>(s: Seq<T>, f: spec_fn(T) -> int, i: int)
    requires
        0 <= i < s.len(),
    ensures
        total_by(s.remove(i), f) == total_by(s, f) - f(s[i]),
    decreases s.len(),
{
    if i == s.len() - 1 {
        assert(s.remove(i) =~= s.drop_last());
    } else {
        lemma_total_remove(s.drop_last(), f, i);
        assert(s.remove(i).drop_last() =~= s.drop_last().remove(i));
    }
}

/// Lists that hold every item equally often have the same sum.
pub proof fn same_counts_same_total<T>(a: Seq<T>, b: Seq<T>, f: spec_fn(T) -> int)
    requires
        a.to_multiset() == b.to_multiset(),
    ensures
        total_by(a, f) == total_by(b, f),
    decreases a.len(),
{
    broadcast use vstd::seq_lib::group_to_multiset_ensures;

    assert(a.len() == a.to_multiset().len());
    assert(b.len() == b.to_multiset().len());
    if a.len() > 0 {
        let x = a.last();
        assert(a[a.len() - 1] == x);
        assert(a.to_multiset().count(x) > 0);
        assert(b.to_multiset().count(x) > 0);
        let i = choose|i: int| 0 <= i < b.len() && b[i] == x;
        assert(a.drop_last() =~= a.remove(a.len() - 1));
        assert(a.remove(a.len() - 1).to_multiset() == a.to_multiset().remove(x));
        assert(b.remove(i).to_multiset() == b.to_multiset().remove(x));
        same_counts_same_total(a.drop_last(), b.remove(i), f);
        lemma_total_remove(b, f, i);
        assert(total_by(a, f) == total_by(a.drop_last(), f) + f(x));
    }
}

/// Puts items in order by rank, keeping the order of items of one rank.
pub fn stable_sort<T: Ranked>(items: Vec<T>) -> (r: Vec<T>)
    ensures
        stably_sorted(r@, items@),
{
    let ghost all = items@;
    let mut left = items;
    let mut out: Vec<T> = Vec::new();
    while left.len() > 0
        invariant
            in_order(out@),
            forall|k: int| #[trigger] of_rank(all, k) == of_rank(left@, k) + of_rank(out@, k),
        decreases left@.len(),
    {
        let ghost left0 = left@;
        let ghost out0 = out@;
        let x = left.pop().unwrap();
        let rank: u64 = x.rank();
        let mut i: usize = 0;
        while i < out.len() && out[i].rank() < rank
            invariant
                i <= out@.len(),
                out@ == out0,
                forall|j: int| 0 <= j < i ==> (#[trigger] out0[j]).rank_of() < rank,
            decreases out@.len() - i,
        {
            i = i + 1;
        }
        assert(i < out0.len() ==> out0[i as int].rank_of() >= rank);
        out.insert(i, x);
        proof {
            let head = out0.take(i as int);
            let tail = out0.skip(i as int);
            assert(out0 =~= head + tail);
            assert(out@ =~= head + (seq![x] + tail));
            assert(left0 =~= left@ + seq![x]);
            assert forall|k: int| #[trigger] of_rank(all, k) == of_rank(left@, k) + of_rank(
                out@,
                k,
            ) by {
                lemma_of_rank_add(head, tail, k);
                lemma_of_rank_add(head, seq![x] + tail, k);
                lemma_of_rank_add(seq![x], tail, k);
                lemma_of_rank_add(left@, seq![x], k);
                lemma_of_rank_one(x, k);
                if k == x.rank_of() {
                    lemma_of_rank_none(head, k);
                }
                assert(of_rank(left@, k) + of_rank(out@, k) =~= of_rank(left0, k) + of_rank(
                    out0,
                    k,
                ));
            }
        }
    }
    proof {
        assert forall|k: int| #[trigger] of_rank(out@, k) == of_rank(all, k) by {
            lemma_of_rank_none(left@, k);
            assert(of_rank(left@, k) + of_rank(out@, k) =~= of_rank(out@, k));
        }
    }
    out
}

} // verus!
