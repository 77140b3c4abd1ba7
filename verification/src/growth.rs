use vstd::prelude::*;
use vstd::set_lib::lemma_len_subset;

verus! {

broadcast use vstd::seq_lib::group_seq_properties;

/// How far a list is from holding every element of the finite universe `u`.
pub open spec fn gap_of<A>(l: Seq<A>, u: Set<A>) -> int {
    u.len() - l.to_set().len()
}

/// The total distance of the lists of an association list from `u`: it falls
/// each time a list gains an element of `u` that it lacked, and it cannot fall
/// below zero, which bounds the passes of a fixpoint computation.
pub open spec fn gap_sum<K, A>(s: Seq<(K, Seq<A>)>, u: Set<A>) -> int
    decreases s.len(),
{
    if s.len() == 0 {
        0
    } else {
        gap_sum(s.drop_last(), u) + gap_of(s.last().1, u)
    }
}

/// Every list of `s` draws its elements from `u`.
pub open spec fn within<K, A>(s: Seq<(K, Seq<A>)>, u: Set<A>) -> bool {
    forall|i: int, x: A| 0 <= i < s.len() && #[trigger] s[i].1.contains(x) ==> u.contains(x)
}

pub proof fn lemma_gap_of_nonneg<A>(l: Seq<A>, u: Set<A>)
    requires
        u.finite(),
        forall|x: A| l.contains(x) ==> u.contains(x),
    ensures
        gap_of(l, u) >= 0,
{
    assert(l.to_set().subset_of(u));
    lemma_len_subset(l.to_set(), u);
}

pub proof fn lemma_gap_sum_nonneg<K, A>(s: Seq<(K, Seq<A>)>, u: Set<A>)
    requires
        u.finite(),
        within(s, u),
    ensures
        gap_sum(s, u) >= 0,
    decreases s.len(),
{
    if s.len() > 0 {
        let t = s.drop_last();
        assert forall|i: int, x: A| 0 <= i < t.len() && #[trigger] t[i].1.contains(x) implies u.contains(x) by {
            assert(s[i] == t[i]);
        }
        lemma_gap_sum_nonneg(t, u);
        assert forall|x: A| s.last().1.contains(x) implies u.contains(x) by {
            assert(s[s.len() - 1].1.contains(x));
        }
        lemma_gap_of_nonneg(s.last().1, u);
    }
}

/// Replacing one entry changes the total by the change of that entry's gap.
pub proof fn lemma_gap_sum_update<K, A>(s: Seq<(K, Seq<A>)>, i: int, e: (K, Seq<A>), u: Set<A>)
    requires
        0 <= i < s.len(),
    ensures
        gap_sum(s.update(i, e), u) == gap_sum(s, u) - gap_of(s[i].1, u) + gap_of(e.1, u),
    decreases s.len(),
{
    let t = s.update(i, e);
    if i == s.len() - 1 {
        assert(t.drop_last() =~= s.drop_last());
    } else {
        assert(t.drop_last() =~= s.drop_last().update(i, e));
        lemma_gap_sum_update(s.drop_last(), i, e, u);
    }
}

/// A list that gains an element of `u` it lacked moves one step closer to `u`.
pub proof fn lemma_gap_of_push<A>(l: Seq<A>, x: A, u: Set<A>)
    requires
        !l.contains(x),
    ensures
        gap_of(l.push(x), u) == gap_of(l, u) - 1,
{
    assert(l.push(x).to_set() =~= l.to_set().insert(x));
}

/// Lists with the same elements are equally far from `u`.
pub proof fn lemma_gap_of_same<A>(l1: Seq<A>, l2: Seq<A>, u: Set<A>)
    requires
        forall|x: A| l1.contains(x) <==> l2.contains(x),
    ensures
        gap_of(l1, u) == gap_of(l2, u),
{
    assert(l1.to_set() =~= l2.to_set());
}

} // verus!

verus! {

/// A list that grows within `u` does not move away from it, and moves closer
/// when it gains an element.
pub proof fn lemma_gap_of_grow<A>(l: Seq<A>, l2: Seq<A>, u: Set<A>)
    requires
        u.finite(),
        forall|x: A| l.contains(x) ==> l2.contains(x),
        forall|x: A| l2.contains(x) ==> u.contains(x),
    ensures
        gap_of(l2, u) <= gap_of(l, u),
        (exists|x: A| l2.contains(x) && !l.contains(x)) ==> gap_of(l2, u) < gap_of(l, u),
{
    let a = l.to_set();
    let b = l2.to_set();
    assert(b.subset_of(u));
    lemma_len_subset(b, u);
    assert(b.finite());
    assert(a.subset_of(b));
    lemma_len_subset(a, b);
    if exists|x: A| l2.contains(x) && !l.contains(x) {
        let x = choose|x: A| l2.contains(x) && !l.contains(x);
        assert(a.insert(x).subset_of(b));
        lemma_len_subset(a.insert(x), b);
        assert(a.finite());
    }
}

} // verus!

verus! {

/// The concatenation of a sequence of sequences.
pub open spec fn flat<A>(ss: Seq<Seq<A>>) -> Seq<A>
    decreases ss.len(),
{
    if ss.len() == 0 {
        Seq::<A>::empty()
    } else {
        flat(ss.drop_last()) + ss.last()
    }
}

pub proof fn lemma_flat_contains<A>(ss: Seq<Seq<A>>, i: int, x: A)
    requires
        0 <= i < ss.len(),
        ss[i].contains(x),
    ensures
        flat(ss).contains(x),
    decreases ss.len(),
{
    let p = flat(ss.drop_last());
    let q = ss.last();
    if i == ss.len() - 1 {
        let j = choose|j: int| 0 <= j < q.len() && q[j] == x;
        assert((p + q)[p.len() + j] == x);
    } else {
        assert(ss.drop_last()[i] == ss[i]);
        lemma_flat_contains(ss.drop_last(), i, x);
        let j = choose|j: int| 0 <= j < p.len() && p[j] == x;
        assert((p + q)[j] == x);
    }
}

} // verus!

verus! {

/// What holds of every element of every inner sequence holds of every element
/// of their concatenation.
pub proof fn lemma_flat_all<A>(ss: Seq<Seq<A>>, p: spec_fn(A) -> bool)
    requires
        forall|i: int, j: int| 0 <= i < ss.len() && 0 <= j < ss[i].len() ==> #[trigger] p(ss[i][j]),
    ensures
        forall|k: int| 0 <= k < flat(ss).len() ==> #[trigger] p(flat(ss)[k]),
    decreases ss.len(),
{
    if ss.len() > 0 {
        let pre = ss.drop_last();
        assert forall|i: int, j: int| 0 <= i < pre.len() && 0 <= j < pre[i].len() implies #[trigger] p(pre[i][j]) by {
            assert(pre[i] == ss[i]);
        }
        lemma_flat_all(pre, p);
        let a = flat(pre);
        let b = ss.last();
        assert forall|k: int| 0 <= k < flat(ss).len() implies #[trigger] p(flat(ss)[k]) by {
            assert(flat(ss) == a + b);
            if k < a.len() {
                assert(flat(ss)[k] == a[k]);
            } else {
                assert(flat(ss)[k] == b[k - a.len()]);
                assert(ss[ss.len() - 1][k - a.len()] == b[k - a.len()]);
            }
        }
    }
}

} // verus!
