use vstd::prelude::*;

verus! {

/// Appending one element extends a filtered sequence by exactly that
/// element when it satisfies the predicate, and not at all otherwise.
pub proof fn lemma_filter_push<A>(s: Seq<A>, pred: spec_fn(A) -> bool, x: A)
    ensures
        pred(x) ==> s.push(x).filter(pred) == s.filter(pred).push(x),
        !pred(x) ==> s.push(x).filter(pred) == s.filter(pred),
{
    reveal(Seq::filter);
    assert(s.push(x).drop_last() =~= s);
    assert(s.push(x).last() == x);
}

pub proof fn lemma_map_values_push<A, B>(s: Seq<A>, f: spec_fn(A) -> B, x: A)
    ensures
        s.push(x).map_values(f) == s.map_values(f).push(f(x)),
{
    assert(s.push(x).map_values(f) =~= s.map_values(f).push(f(x)));
}

/// A single element satisfying the predicate keeps its place in the filter.
pub proof fn lemma_filter_index<A>(s: Seq<A>, pred: spec_fn(A) -> bool, i: int) -> (r: int)
    requires
        0 <= i < s.len(),
        pred(s[i]),
    ensures
        0 <= r < s.filter(pred).len(),
        s.filter(pred)[r] == s[i],
    decreases s.len(),
{
    reveal(Seq::filter);
    if i == s.len() - 1 {
        s.filter(pred).len() - 1
    } else {
        let r = lemma_filter_index(s.drop_last(), pred, i);
        assert(s.drop_last()[i] == s[i]);
        r
    }
}

/// Two elements at distinct positions that satisfy the predicate appear at
/// distinct positions, in the same order, in the filtered sequence.
pub proof fn lemma_filter_two_indices<A>(s: Seq<A>, pred: spec_fn(A) -> bool, i: int, j: int) -> (r:
    (int, int))
    requires
        0 <= i < j < s.len(),
        pred(s[i]),
        pred(s[j]),
    ensures
        0 <= r.0 < r.1 < s.filter(pred).len(),
        s.filter(pred)[r.0] == s[i],
        s.filter(pred)[r.1] == s[j],
    decreases s.len(),
{
    reveal(Seq::filter);
    if j == s.len() - 1 {
        let a = lemma_filter_index(s.drop_last(), pred, i);
        assert(s.drop_last()[i] == s[i]);
        (a, s.filter(pred).len() - 1)
    } else {
        let (a, b) = lemma_filter_two_indices(s.drop_last(), pred, i, j);
        assert(s.drop_last()[i] == s[i]);
        assert(s.drop_last()[j] == s[j]);
        (a, b)
    }
}

/// Every element of a filtered sequence comes from somewhere in the source.
pub proof fn lemma_filter_source_index<A>(s: Seq<A>, pred: spec_fn(A) -> bool, r: int) -> (i: int)
    requires
        0 <= r < s.filter(pred).len(),
    ensures
        0 <= i < s.len(),
        s[i] == s.filter(pred)[r],
        pred(s[i]),
    decreases s.len(),
{
    reveal(Seq::filter);
    if s.len() == 0 {
        assert(false);
        0
    } else {
        let sub = s.drop_last().filter(pred);
        if pred(s.last()) && r == sub.len() {
            s.len() - 1
        } else {
            let i = lemma_filter_source_index(s.drop_last(), pred, r);
            assert(s.drop_last()[i] == s[i]);
            i
        }
    }
}

/// Two positions of a filtered sequence come from two positions of the
/// source, in the same order.
pub proof fn lemma_filter_two_sources<A>(s: Seq<A>, pred: spec_fn(A) -> bool, r1: int, r2: int) -> (ij: (
    int,
    int,
))
    requires
        0 <= r1 < r2 < s.filter(pred).len(),
    ensures
        0 <= ij.0 < ij.1 < s.len(),
        s[ij.0] == s.filter(pred)[r1],
        s[ij.1] == s.filter(pred)[r2],
        pred(s[ij.0]),
        pred(s[ij.1]),
    decreases s.len(),
{
    reveal(Seq::filter);
    if s.len() == 0 {
        assert(false);
        (0, 0)
    } else {
        let sub = s.drop_last().filter(pred);
        if pred(s.last()) && r2 == sub.len() {
            let i = lemma_filter_source_index(s.drop_last(), pred, r1);
            assert(s.drop_last()[i] == s[i]);
            (i, s.len() - 1)
        } else {
            let (i, j) = lemma_filter_two_sources(s.drop_last(), pred, r1, r2);
            assert(s.drop_last()[i] == s[i]);
            assert(s.drop_last()[j] == s[j]);
            (i, j)
        }
    }
}

/// If every element satisfies the predicate, the filter keeps them all.
pub proof fn lemma_filter_all<A>(s: Seq<A>, pred: spec_fn(A) -> bool)
    requires
        forall|k: int| 0 <= k < s.len() ==> pred(#[trigger] s[k]),
    ensures
        s.filter(pred) == s,
    decreases s.len(),
{
    reveal(Seq::filter);
    if s.len() > 0 {
        assert(forall|k: int| 0 <= k < s.drop_last().len() ==> s.drop_last()[k] == s[k]);
        lemma_filter_all(s.drop_last(), pred);
        assert(pred(s.last())) by {
            assert(s[s.len() - 1] == s.last());
        }
        assert(s.drop_last().push(s.last()) =~= s);
    }
}

/// If no element satisfies the predicate, the filter is empty.
pub proof fn lemma_filter_none<A>(s: Seq<A>, pred: spec_fn(A) -> bool)
    requires
        forall|k: int| 0 <= k < s.len() ==> !pred(s[k]),
    ensures
        s.filter(pred).len() == 0,
    decreases s.len(),
{
    reveal(Seq::filter);
    if s.len() > 0 {
        assert(forall|k: int| 0 <= k < s.drop_last().len() ==> s.drop_last()[k] == s[k]);
        lemma_filter_none(s.drop_last(), pred);
    }
}

/// If at most one position can satisfy the predicate, the filter has at
/// most one element.
pub proof fn lemma_filter_at_most_one<A>(s: Seq<A>, pred: spec_fn(A) -> bool, i: int)
    requires
        forall|k: int| 0 <= k < s.len() && pred(s[k]) ==> k == i,
    ensures
        s.filter(pred).len() <= 1,
    decreases s.len(),
{
    reveal(Seq::filter);
    if s.len() > 0 {
        assert(forall|k: int| 0 <= k < s.drop_last().len() ==> s.drop_last()[k] == s[k]);
        if pred(s.last()) {
            lemma_filter_none(s.drop_last(), pred);
        } else {
            lemma_filter_at_most_one(s.drop_last(), pred, i);
        }
    }
}

/// Filtering a one-element sequence.
pub proof fn lemma_filter_singleton<A>(x: A, pred: spec_fn(A) -> bool)
    ensures
        pred(x) ==> seq![x].filter(pred) == seq![x],
        !pred(x) ==> seq![x].filter(pred) == Seq::<A>::empty(),
{
    reveal(Seq::filter);
    assert(seq![x].drop_last() =~= Seq::<A>::empty());
    assert(seq![x].last() == x);
    assert(Seq::<A>::empty().filter(pred) == Seq::<A>::empty());
    if pred(x) {
        assert(Seq::<A>::empty().push(x) =~= seq![x]);
    }
}

/// Removing one element shortens the filtered sequence by one when the
/// element satisfies the predicate, and not at all otherwise.
pub proof fn lemma_filter_remove_len<A>(s: Seq<A>, pred: spec_fn(A) -> bool, k: int)
    requires
        0 <= k < s.len(),
    ensures
        s.filter(pred).len() == s.remove(k).filter(pred).len() + (if pred(s[k]) {
            1int
        } else {
            0int
        }),
{
    let pre = s.take(k);
    let mid = seq![s[k]];
    let post = s.skip(k + 1);
    assert(s =~= (pre + mid) + post);
    assert(s.remove(k) =~= pre + post);
    Seq::filter_distributes_over_add(pre + mid, post, pred);
    Seq::filter_distributes_over_add(pre, mid, pred);
    Seq::filter_distributes_over_add(pre, post, pred);
    lemma_filter_singleton(s[k], pred);
}

/// Sequences with the same elements, as multisets, filter to the same
/// number of elements.
pub proof fn lemma_filter_len_permutation<A>(a: Seq<A>, b: Seq<A>, pred: spec_fn(A) -> bool)
    requires
        a.to_multiset() == b.to_multiset(),
    ensures
        a.filter(pred).len() == b.filter(pred).len(),
    decreases a.len(),
{
    broadcast use vstd::seq_lib::group_to_multiset_ensures;

    if a.len() == 0 {
        assert(a.to_multiset().len() == 0);
        assert(b.to_multiset().len() == b.len());
        assert(b.len() == 0);
        reveal(Seq::filter);
    } else {
        let x = a.last();
        let a1 = a.drop_last();
        assert(a =~= a1.push(x));
        assert(a.contains(x)) by {
            assert(a[a.len() - 1] == x);
        }
        assert(b.to_multiset().count(x) > 0);
        assert(b.contains(x));
        let k = choose|k: int| 0 <= k < b.len() && b[k] == x;
        let b1 = b.remove(k);
        assert(b1.to_multiset() == b.to_multiset().remove(x));
        assert(a.to_multiset() == a1.to_multiset().insert(x));
        assert(a1.to_multiset() =~= b1.to_multiset()) by {
            assert(b1.to_multiset() == a1.to_multiset().insert(x).remove(x));
            assert(a1.to_multiset().insert(x).remove(x) =~= a1.to_multiset());
        }
        lemma_filter_len_permutation(a1, b1, pred);
        lemma_filter_push(a1, pred, x);
        lemma_filter_remove_len(b, pred, k);
    }
}

/// Filtering a mapped sequence is mapping the correspondingly filtered
/// source.
pub proof fn lemma_filter_map_exchange<A, B>(s: Seq<A>, f: spec_fn(A) -> B, q: spec_fn(B) -> bool, p: spec_fn(A) -> bool)
    requires
        forall|x: A| #[trigger] p(x) == q(f(x)),
    ensures
        s.map_values(f).filter(q) == s.filter(p).map_values(f),
    decreases s.len(),
{
    reveal(Seq::filter);
    if s.len() == 0 {
        assert(s.map_values(f) =~= Seq::<B>::empty());
        assert(s.filter(p).map_values(f) =~= Seq::<B>::empty());
    } else {
        let s1 = s.drop_last();
        let x = s.last();
        lemma_filter_map_exchange(s1, f, q, p);
        assert(s.map_values(f).drop_last() =~= s1.map_values(f));
        assert(s.map_values(f).last() == f(x));
        assert(s =~= s1.push(x));
        lemma_filter_push(s1, p, x);
        assert(p(x) == q(f(x)));
        if q(f(x)) {
            lemma_map_values_push(s1.filter(p), f, x);
        }
    }
}

/// The conjunction of two predicates, for filtering in one pass.
pub open spec fn pred_and<A>(p: spec_fn(A) -> bool, q: spec_fn(A) -> bool) -> spec_fn(A) -> bool {
    |x: A| p(x) && q(x)
}

/// Filtering twice is filtering once by the conjunction.
pub proof fn lemma_filter_filter<A>(s: Seq<A>, p: spec_fn(A) -> bool, q: spec_fn(A) -> bool)
    ensures
        s.filter(p).filter(q) == s.filter(pred_and(p, q)),
    decreases s.len(),
{
    reveal(Seq::filter);
    if s.len() > 0 {
        let s1 = s.drop_last();
        lemma_filter_filter(s1, p, q);
        assert(s =~= s1.push(s.last()));
        lemma_filter_push(s1, p, s.last());
        lemma_filter_push(s1, pred_and(p, q), s.last());
        if p(s.last()) {
            lemma_filter_push(s1.filter(p), q, s.last());
        }
    }
}

/// Predicates that agree on every element filter a sequence identically.
pub proof fn lemma_filter_congruence<A>(s: Seq<A>, p: spec_fn(A) -> bool, q: spec_fn(A) -> bool)
    requires
        forall|k: int| 0 <= k < s.len() ==> p(#[trigger] s[k]) == q(s[k]),
    ensures
        s.filter(p) == s.filter(q),
    decreases s.len(),
{
    reveal(Seq::filter);
    if s.len() > 0 {
        assert(forall|k: int| 0 <= k < s.drop_last().len() ==> s.drop_last()[k] == s[k]);
        lemma_filter_congruence(s.drop_last(), p, q);
        assert(p(s.last()) == q(s.last())) by {
            assert(s[s.len() - 1] == s.last());
        }
    }
}

} // verus!
