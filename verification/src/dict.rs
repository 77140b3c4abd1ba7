use vstd::prelude::*;

verus! {

/// Keys that can be compared for equality of their (deep) views.
pub trait SameKey: DeepView + Sized {
    fn same_key(&self, other: &Self) -> (r: bool)
        ensures
            r == (self.deep_view() == other.deep_view()),
    ;
}

impl SameKey for String {
    fn same_key(&self, other: &Self) -> (r: bool) {
        *self == *other
    }
}

impl SameKey for usize {
    fn same_key(&self, other: &Self) -> (r: bool) {
        *self == *other
    }
}

impl<A: SameKey, B: SameKey> SameKey for (A, B) {
    fn same_key(&self, other: &Self) -> (r: bool) {
        self.0.same_key(&other.0) && self.1.same_key(&other.1)
    }
}

/// The keys of an association list, in order.
pub open spec fn keys_of<A, B>(s: Seq<(A, B)>) -> Seq<A> {
    Seq::new(s.len(), |i: int| s[i].0)
}

/// The value stored under `k` in an association list whose keys are distinct.
pub open spec fn lookup<A, B>(s: Seq<(A, B)>, k: A) -> Option<B> {
    if keys_of(s).contains(k) {
        Some(s[keys_of(s).index_of(k)].1)
    } else {
        None
    }
}

/// Stores `v` under `k`: the entry of `k` is replaced in place, or a new entry
/// is appended at the end.
pub open spec fn put<A, B>(s: Seq<(A, B)>, k: A, v: B) -> Seq<(A, B)> {
    if keys_of(s).contains(k) {
        s.update(keys_of(s).index_of(k), (k, v))
    } else {
        s.push((k, v))
    }
}

/// In a list with distinct keys, the entry at `i` is the one that `lookup` finds.
pub proof fn lemma_lookup_at<A, B>(s: Seq<(A, B)>, i: int)
    requires
        keys_of(s).no_duplicates(),
        0 <= i < s.len(),
    ensures
        keys_of(s).index_of(s[i].0) == i,
        lookup(s, s[i].0) == Some(s[i].1),
{
    assert(keys_of(s)[i] == s[i].0);
    assert(keys_of(s).contains(s[i].0));
}

/// `put` keeps the keys distinct and stores the value.
pub proof fn lemma_put<A, B>(s: Seq<(A, B)>, k: A, v: B)
    requires
        keys_of(s).no_duplicates(),
    ensures
        keys_of(put(s, k, v)).no_duplicates(),
        keys_of(put(s, k, v)).to_set() == keys_of(s).to_set().insert(k),
        lookup(put(s, k, v), k) == Some(v),
        forall|j: A| j != k ==> lookup(put(s, k, v), j) == lookup(s, j),
        keys_of(s).contains(k) ==> keys_of(put(s, k, v)) == keys_of(s),
        !keys_of(s).contains(k) ==> keys_of(put(s, k, v)) == keys_of(s).push(k),
{
    let t = put(s, k, v);
    if keys_of(s).contains(k) {
        let i = keys_of(s).index_of(k);
        assert(keys_of(t) =~= keys_of(s));
        lemma_lookup_at(t, i);
    } else {
        assert(keys_of(t) =~= keys_of(s).push(k));
        lemma_lookup_at(t, s.len() as int);
    }
    assert forall|x: A| keys_of(t).contains(x) <==> keys_of(s).to_set().insert(k).contains(x) by {
        if keys_of(s).contains(k) {
        } else {
            if keys_of(t).contains(x) {
                let i = choose|i: int| 0 <= i < keys_of(t).len() && keys_of(t)[i] == x;
                if i < s.len() {
                    assert(keys_of(s)[i] == x);
                }
            }
            if keys_of(s).contains(x) {
                let i = choose|i: int| 0 <= i < keys_of(s).len() && keys_of(s)[i] == x;
                assert(keys_of(t)[i] == x);
            }
            if x == k {
                assert(keys_of(t)[s.len() as int] == k);
            }
        }
    }
    assert(keys_of(t).to_set() =~= keys_of(s).to_set().insert(k));
    assert forall|j: A| j != k implies lookup(t, j) == lookup(s, j) by {
        if keys_of(s).contains(j) {
            let i = keys_of(s).index_of(j);
            lemma_lookup_at(s, i);
            assert(t[i] == s[i]);
            lemma_lookup_at(t, i);
        } else {
            assert(!keys_of(t).contains(j));
        }
    }
}

/// An association list with distinct keys, kept in insertion order.
pub struct Dict<K, V> {
    pub entries: Vec<(K, V)>,
}

impl<K: SameKey, V: DeepView> Dict<K, V> {
    /// The entries, as values.
    pub open spec fn dview(&self) -> Seq<(K::V, V::V)> {
        self.entries.deep_view()
    }

    pub open spec fn wf(&self) -> bool {
        keys_of(self.dview()).no_duplicates()
    }

    pub fn new() -> (d: Self)
        ensures
            d.dview() == Seq::<(K::V, V::V)>::empty(),
            d.wf(),
    {
        let d = Dict { entries: Vec::new() };
        assert(d.dview() =~= Seq::<(K::V, V::V)>::empty());
        d
    }

    pub fn len(&self) -> (n: usize)
        ensures
            n == self.dview().len(),
    {
        self.entries.len()
    }

    /// The index of the entry stored under `k`.
    pub fn find(&self, k: &K) -> (r: Option<usize>)
        requires
            self.wf(),
        ensures
            r is None <==> !keys_of(self.dview()).contains(k.deep_view()),
            r matches Some(i) ==> i < self.dview().len() && self.dview()[i as int].0
                == k.deep_view() && keys_of(self.dview()).index_of(k.deep_view()) == i,
    {
        let n = self.entries.len();
        for i in 0..n
            invariant
                n == self.entries@.len(),
                self.wf(),
                forall|j: int| 0 <= j < i ==> self.dview()[j].0 != k.deep_view(),
        {
            if self.entries[i].0.same_key(k) {
                proof {
                    lemma_lookup_at(self.dview(), i as int);
                }
                return Some(i);
            }
        }
        assert(!keys_of(self.dview()).contains(k.deep_view()));
        None
    }

    pub fn contains_key(&self, k: &K) -> (r: bool)
        requires
            self.wf(),
        ensures
            r == keys_of(self.dview()).contains(k.deep_view()),
    {
        self.find(k).is_some()
    }

    /// The value stored under `k`, if any.
    pub fn get(&self, k: &K) -> (r: Option<&V>)
        requires
            self.wf(),
        ensures
            r is None <==> lookup(self.dview(), k.deep_view()) is None,
            r matches Some(v) ==> lookup(self.dview(), k.deep_view()) == Some(v.deep_view()),
    {
        match self.find(k) {
            Some(i) => Some(&self.entries[i].1),
            None => None,
        }
    }

    /// Stores `v` under `k`, replacing an entry in place or appending one.
    pub fn insert(&mut self, k: K, v: V)
        requires
            old(self).wf(),
        ensures
            final(self).wf(),
            final(self).dview() == put(old(self).dview(), k.deep_view(), v.deep_view()),
    {
        let ghost kv = k.deep_view();
        let ghost vv = v.deep_view();
        proof {
            lemma_put(self.dview(), kv, vv);
        }
        match self.find(&k) {
            Some(i) => {
                self.entries.set(i, (k, v));
                assert(self.dview() =~= put(old(self).dview(), kv, vv));
            },
            None => {
                self.entries.push((k, v));
                assert(self.dview() =~= put(old(self).dview(), kv, vv));
            },
        }
    }
}

} // verus!
