use vstd::prelude::*;
use crate::text::appended_new;
use crate::dict::{Dict, keys_of, lemma_lookup_at, lookup, put};
use crate::growth::{
    gap_of, gap_sum, lemma_gap_of_nonneg, lemma_gap_of_push, lemma_gap_of_same,
    lemma_gap_sum_nonneg, lemma_gap_sum_update, within,
};
use crate::language::Language;
use crate::text::{clone_strings, contains_string};

verus! {

broadcast use vstd::seq_lib::group_seq_properties;

/// The productions of `a` in a grammar (none if `a` has no entry).
pub open spec fn prods_of(g: Seq<(Seq<char>, Seq<Seq<Seq<char>>>)>, a: Seq<char>) -> Seq<
    Seq<Seq<char>>,
> {
    match lookup(g, a) {
        Some(p) => p,
        None => Seq::<Seq<Seq<char>>>::empty(),
    }
}

/// Every production of the grammar has at least one symbol.
pub open spec fn nonempty_bodies(g: Seq<(Seq<char>, Seq<Seq<Seq<char>>>)>) -> bool {
    forall|i: int, j: int| 0 <= i < g.len() && 0 <= j < g[i].1.len() ==> #[trigger] g[i].1[j].len() > 0
}

/// The first symbols of the productions that start with a terminal, in order.
pub open spec fn init_first(ps: Seq<Seq<Seq<char>>>, t: Seq<Seq<char>>) -> Seq<Seq<char>>
    decreases ps.len(),
{
    if ps.len() == 0 {
        Seq::<Seq<char>>::empty()
    } else {
        let p = init_first(ps.drop_last(), t);
        if t.contains(ps.last()[0]) {
            p.push(ps.last()[0])
        } else {
            p
        }
    }
}

/// `x` reaches the FIRST set of `a` in `k` propagation steps: `x` is a
/// terminal that starts a production of `a`, or `a` is a nonterminal with a
/// production that starts with a nonterminal whose FIRST set has `x` in
/// `k - 1` steps.
pub open spec fn first_step(
    g: Seq<(Seq<char>, Seq<Seq<Seq<char>>>)>,
    t: Seq<Seq<char>>,
    n: Seq<Seq<char>>,
    a: Seq<char>,
    x: Seq<char>,
    k: nat,
) -> bool
    decreases k,
{
    &&& lookup(g, a) is Some
    &&& {
        ||| init_first(prods_of(g, a), t).contains(x)
        ||| (k > 0 && n.contains(a) && exists|j: int|
            0 <= j < prods_of(g, a).len() && n.contains(#[trigger] prods_of(g, a)[j][0])
                && first_step(g, t, n, prods_of(g, a)[j][0], x, (k - 1) as nat))
    }
}

/// `x` is in the FIRST set of `a`: the least sets that hold the terminals that
/// start the productions of a head, and that grow, for each nonterminal head,
/// by the FIRST set of each nonterminal that starts one of its productions.
pub open spec fn in_first(
    g: Seq<(Seq<char>, Seq<Seq<Seq<char>>>)>,
    t: Seq<Seq<char>>,
    n: Seq<Seq<char>>,
    a: Seq<char>,
    x: Seq<char>,
) -> bool {
    exists|k: nat| first_step(g, t, n, a, x, k)
}

/// The computation of FIRST sets reads only productions that exist: a
/// nonterminal that starts a production of a nonterminal head has productions.
pub open spec fn first_ready(g: Seq<(Seq<char>, Seq<Seq<Seq<char>>>)>, n: Seq<Seq<char>>) -> bool {
    &&& keys_of(g).no_duplicates()
    &&& nonempty_bodies(g)
    &&& forall|i: int, j: int|
        0 <= i < g.len() && 0 <= j < g[i].1.len() && n.contains(g[i].0) && n.contains(
            #[trigger] g[i].1[j][0],
        ) ==> keys_of(g).contains(g[i].1[j][0])
}

/// The list stored under `a` holds `x`.
pub open spec fn holds(l: Seq<(Seq<char>, Seq<Seq<char>>)>, a: Seq<char>, x: Seq<char>) -> bool {
    lookup(l, a) matches Some(v) && v.contains(x)
}

/// The FIRST sets as lists: one per head of the grammar, in the grammar's
/// order, each holding exactly the FIRST set of its head.
pub open spec fn first_exact(
    g: Seq<(Seq<char>, Seq<Seq<Seq<char>>>)>,
    t: Seq<Seq<char>>,
    n: Seq<Seq<char>>,
    l: Seq<(Seq<char>, Seq<Seq<char>>)>,
) -> bool {
    &&& keys_of(l) == keys_of(g)
    &&& forall|i: int, x: Seq<char>|
        0 <= i < l.len() ==> (#[trigger] l[i].1.contains(x) <==> in_first(g, t, n, l[i].0, x))
    &&& forall|i: int| 0 <= i < l.len() ==> #[trigger] appended_new(init_first(g[i].1, t), l[i].1)
}

/// `l` with each symbol of `add` that it lacks appended, in `add`'s order.
pub open spec fn with_missing(l: Seq<Seq<char>>, add: Seq<Seq<char>>) -> Seq<Seq<char>>
    decreases add.len(),
{
    if add.len() == 0 {
        l
    } else {
        let r = with_missing(l, add.drop_last());
        if r.contains(add.last()) {
            r
        } else {
            r.push(add.last())
        }
    }
}

/// The lists after reading the productions `ps` of head `w` in order: for
/// each one that starts with a nonterminal, that nonterminal's list (as it
/// is then) is merged into `w`'s (see `with_missing`).
pub open spec fn pass_bodies(
    l: Seq<(Seq<char>, Seq<Seq<char>>)>,
    n: Seq<Seq<char>>,
    w: Seq<char>,
    ps: Seq<Seq<Seq<char>>>,
) -> Seq<(Seq<char>, Seq<Seq<char>>)>
    decreases ps.len(),
{
    if ps.len() == 0 {
        l
    } else {
        let r = pass_bodies(l, n, w, ps.drop_last());
        let s0 = ps.last()[0];
        if n.contains(s0) {
            put(r, w, with_missing(lookup(r, w).unwrap(), lookup(r, s0).unwrap()))
        } else {
            r
        }
    }
}

/// The lists after one sweep over the nonterminals `ws` in order; one with
/// no list is passed over.
pub open spec fn pass_words(
    l: Seq<(Seq<char>, Seq<Seq<char>>)>,
    g: Seq<(Seq<char>, Seq<Seq<Seq<char>>>)>,
    n: Seq<Seq<char>>,
    ws: Seq<Seq<char>>,
) -> Seq<(Seq<char>, Seq<Seq<char>>)>
    decreases ws.len(),
{
    if ws.len() == 0 {
        l
    } else {
        let r = pass_words(l, g, n, ws.drop_last());
        if keys_of(r).contains(ws.last()) {
            pass_bodies(r, n, ws.last(), prods_of(g, ws.last()))
        } else {
            r
        }
    }
}

/// The lists before any sweep: each head with the terminals that start its
/// productions (see `init_first`).
pub open spec fn first_init(
    g: Seq<(Seq<char>, Seq<Seq<Seq<char>>>)>,
    t: Seq<Seq<char>>,
) -> Seq<(Seq<char>, Seq<Seq<char>>)> {
    Seq::new(g.len(), |j: int| (g[j].0, init_first(g[j].1, t)))
}

/// The lists after `k` sweeps over all the nonterminals.
pub open spec fn sweeps(
    g: Seq<(Seq<char>, Seq<Seq<Seq<char>>>)>,
    t: Seq<Seq<char>>,
    n: Seq<Seq<char>>,
    k: nat,
) -> Seq<(Seq<char>, Seq<Seq<char>>)>
    decreases k,
{
    if k == 0 {
        first_init(g, t)
    } else {
        pass_words(sweeps(g, t, n, (k - 1) as nat), g, n, n)
    }
}

/// The FIRST lists in the order the sweeps give them: the lists after the
/// first sweep that changes nothing.
pub open spec fn first_swept(
    g: Seq<(Seq<char>, Seq<Seq<Seq<char>>>)>,
    t: Seq<Seq<char>>,
    n: Seq<Seq<char>>,
    l: Seq<(Seq<char>, Seq<Seq<char>>)>,
) -> bool {
    exists|k: nat| #[trigger] sweeps(g, t, n, k) == l && pass_words(l, g, n, n) == l
}

/// Once a sweep changes nothing, no later sweep does.
proof fn lemma_sweeps_stay(
    g: Seq<(Seq<char>, Seq<Seq<Seq<char>>>)>,
    t: Seq<Seq<char>>,
    n: Seq<Seq<char>>,
    k: nat,
    j: nat,
)
    requires
        pass_words(sweeps(g, t, n, k), g, n, n) == sweeps(g, t, n, k),
    ensures
        sweeps(g, t, n, k + j) == sweeps(g, t, n, k),
    decreases j,
{
    if j > 0 {
        lemma_sweeps_stay(g, t, n, k, (j - 1) as nat);
        assert(sweeps(g, t, n, k + j) == pass_words(sweeps(g, t, n, (k + j - 1) as nat), g, n, n));
    }
}

/// The order of `first_swept` is one order: two lists of lists that both
/// meet it are equal.
pub proof fn lemma_swept_unique(
    g: Seq<(Seq<char>, Seq<Seq<Seq<char>>>)>,
    t: Seq<Seq<char>>,
    n: Seq<Seq<char>>,
    l1: Seq<(Seq<char>, Seq<Seq<char>>)>,
    l2: Seq<(Seq<char>, Seq<Seq<char>>)>,
)
    requires
        first_swept(g, t, n, l1),
        first_swept(g, t, n, l2),
    ensures
        l1 == l2,
{
    let k1 = choose|k: nat| #[trigger] sweeps(g, t, n, k) == l1 && pass_words(l1, g, n, n) == l1;
    let k2 = choose|k: nat| #[trigger] sweeps(g, t, n, k) == l2 && pass_words(l2, g, n, n) == l2;
    if k1 <= k2 {
        lemma_sweeps_stay(g, t, n, k1, (k2 - k1) as nat);
    } else {
        lemma_sweeps_stay(g, t, n, k2, (k1 - k2) as nat);
    }
}

/// The terminals that start productions, over the whole grammar.
pub open spec fn inits_flat(g: Seq<(Seq<char>, Seq<Seq<Seq<char>>>)>, t: Seq<Seq<char>>) -> Seq<
    Seq<char>,
>
    decreases g.len(),
{
    if g.len() == 0 {
        Seq::<Seq<char>>::empty()
    } else {
        inits_flat(g.drop_last(), t) + init_first(g.last().1, t)
    }
}

proof fn lemma_inits_flat(g: Seq<(Seq<char>, Seq<Seq<Seq<char>>>)>, t: Seq<Seq<char>>, i: int, x: Seq<char>)
    requires
        0 <= i < g.len(),
        init_first(g[i].1, t).contains(x),
    ensures
        inits_flat(g, t).contains(x),
    decreases g.len(),
{
    let p = inits_flat(g.drop_last(), t);
    let q = init_first(g.last().1, t);
    if i == g.len() - 1 {
        let j = choose|j: int| 0 <= j < q.len() && q[j] == x;
        assert((p + q)[p.len() + j] == x);
    } else {
        assert(g.drop_last()[i] == g[i]);
        lemma_inits_flat(g.drop_last(), t, i, x);
        let j = choose|j: int| 0 <= j < p.len() && p[j] == x;
        assert((p + q)[j] == x);
    }
}

proof fn lemma_first_up(
    g: Seq<(Seq<char>, Seq<Seq<Seq<char>>>)>,
    t: Seq<Seq<char>>,
    n: Seq<Seq<char>>,
    a: Seq<char>,
    j: int,
    x: Seq<char>,
)
    requires
        lookup(g, a) is Some,
        n.contains(a),
        0 <= j < prods_of(g, a).len(),
        n.contains(prods_of(g, a)[j][0]),
        in_first(g, t, n, prods_of(g, a)[j][0], x),
    ensures
        in_first(g, t, n, a, x),
{
    let k = choose|k: nat| first_step(g, t, n, prods_of(g, a)[j][0], x, k);
    let k1 = k + 1;
    assert((k1 - 1) as nat == k);
    assert(first_step(g, t, n, prods_of(g, a)[j][0], x, (k1 - 1) as nat));
    assert(first_step(g, t, n, a, x, k1));
}

/// The propagation rule holds for production `j` of `w`.
pub open spec fn first_ok_at(
    g: Seq<(Seq<char>, Seq<Seq<Seq<char>>>)>,
    n: Seq<Seq<char>>,
    l: Seq<(Seq<char>, Seq<Seq<char>>)>,
    w: Seq<char>,
    j: int,
) -> bool {
    n.contains(prods_of(g, w)[j][0]) ==> forall|x: Seq<char>|
        #[trigger] holds(l, prods_of(g, w)[j][0], x) ==> holds(l, w, x)
}

/// The lists are closed under the propagation rule.
pub open spec fn first_closed(
    g: Seq<(Seq<char>, Seq<Seq<Seq<char>>>)>,
    n: Seq<Seq<char>>,
    l: Seq<(Seq<char>, Seq<Seq<char>>)>,
) -> bool {
    forall|w: Seq<char>, j: int|
        n.contains(w) && keys_of(g).contains(w) && 0 <= j < prods_of(g, w).len()
            ==> #[trigger] first_ok_at(g, n, l, w, j)
}

proof fn lemma_first_complete(
    g: Seq<(Seq<char>, Seq<Seq<Seq<char>>>)>,
    t: Seq<Seq<char>>,
    n: Seq<Seq<char>>,
    l: Seq<(Seq<char>, Seq<Seq<char>>)>,
    a: Seq<char>,
    x: Seq<char>,
    k: nat,
)
    requires
        keys_of(g).no_duplicates(),
        keys_of(l) == keys_of(g),
        forall|i: int, y: Seq<char>|
            0 <= i < g.len() && #[trigger] init_first(g[i].1, t).contains(y) ==> l[i].1.contains(y),
        first_closed(g, n, l),
        first_step(g, t, n, a, x, k),
    ensures
        holds(l, a, x),
    decreases k,
{
    let i = keys_of(g).index_of(a);
    assert(keys_of(g).contains(a));
    lemma_lookup_at(g, i);
    lemma_lookup_at(l, i);
    assert(l[i].0 == keys_of(l)[i]);
    if init_first(prods_of(g, a), t).contains(x) {
        assert(init_first(g[i].1, t).contains(x));
    } else {
        assert(k > 0);
        let j = choose|j: int|
            0 <= j < prods_of(g, a).len() && n.contains(#[trigger] prods_of(g, a)[j][0])
                && first_step(g, t, n, prods_of(g, a)[j][0], x, (k - 1) as nat);
        lemma_first_complete(g, t, n, l, prods_of(g, a)[j][0], x, (k - 1) as nat);
        assert(first_ok_at(g, n, l, a, j));
    }
}

/// Computes the FIRST sets of a language into `first` (which starts empty).
#[verifier::spinoff_prover]
pub fn gen_first(first: &mut Dict<String, Vec<String>>, lg: &Language)
    requires
        old(first).dview().len() == 0,
        lg.lg.wf(),
        first_ready(lg.lg.dview(), lg.ntwords.deep_view()),
    ensures
        final(first).wf(),
        first_exact(
            lg.lg.dview(),
            lg.twords.deep_view(),
            lg.ntwords.deep_view(),
            final(first).dview(),
        ),
        first_swept(lg.lg.dview(), lg.twords.deep_view(), lg.ntwords.deep_view(), final(first).dview()),
{
    let ghost g = lg.lg.dview();
    let ghost t = lg.twords.deep_view();
    let ghost n = lg.ntwords.deep_view();
    let ghost u = inits_flat(g, t).to_set();
    // The terminals that start the productions of each head.
    let m = lg.lg.entries.len();
    for i in 0..m
        invariant
            m == g.len(),
            g == lg.lg.dview(),
            t == lg.twords.deep_view(),
            lg.lg.wf(),
            first_ready(g, n),
            first.wf(),
            first.dview() == Seq::new(i as nat, |j: int| (g[j].0, init_first(g[j].1, t))),
    {
        let entry = &lg.lg.entries[i];
        let ghost ps = g[i as int].1;
        let mut word: Vec<String> = Vec::new();
        let nb = entry.1.len();
        for vi in 0..nb
            invariant
                nb == ps.len(),
                ps == entry.1.deep_view(),
                t == lg.twords.deep_view(),
                nonempty_bodies(g),
                g[i as int].1 == ps,
                0 <= i < g.len(),
                word.deep_view() == init_first(ps.take(vi as int), t),
        {
            assert(ps.take(vi + 1).drop_last() =~= ps.take(vi as int));
            assert(g[i as int].1[vi as int].len() > 0);
            let v = &entry.1[vi];
            if contains_string(&lg.twords, &v[0]) {
                let ghost old_word = word.deep_view();
                word.push(v[0].clone());
                assert(word.deep_view() =~= old_word.push(ps[vi as int][0]));
            }
        }
        assert(ps.take(nb as int) =~= ps);
        let ghost before = first.dview();
        assert(keys_of(before) =~= keys_of(g).take(i as int));
        assert(!keys_of(before).contains(g[i as int].0)) by {
            if keys_of(before).contains(g[i as int].0) {
                let j = choose|j: int| 0 <= j < keys_of(before).len() && keys_of(before)[j] == g[i as int].0;
                assert(keys_of(g)[j] == keys_of(g)[i as int]);
            }
        }
        first.insert(entry.0.clone(), word);
        assert(first.dview() =~= Seq::new((i + 1) as nat, |j: int| (g[j].0, init_first(g[j].1, t))));
    }
    proof {
        assert(keys_of(first.dview()) =~= keys_of(g));
        assert forall|i: int| 0 <= i < first.dview().len() implies #[trigger] appended_new(init_first(g[i].1, t), first.dview()[i].1) by {
            let l0 = init_first(g[i].1, t);
            assert(first.dview()[i].1 == l0);
            assert(l0.take(l0.len() as int) =~= l0);
            assert(l0.skip(l0.len() as int) =~= Seq::<Seq<char>>::empty());
        }
        assert forall|i: int, x: Seq<char>| 0 <= i < first.dview().len() && #[trigger] first.dview()[i].1.contains(x)
            implies u.contains(x) && in_first(g, t, n, first.dview()[i].0, x) by {
            lemma_inits_flat(g, t, i, x);
            lemma_lookup_at(g, i);
            assert(first_step(g, t, n, g[i].0, x, 0));
        }
        lemma_gap_sum_nonneg(first.dview(), u);
        assert(first.dview() =~= first_init(g, t));
    }
    // Propagation until nothing changes.
    let mut changed = true;
    let ghost mut rounds: nat = 0;
    while changed
        invariant
            first.dview() == sweeps(g, t, n, rounds),
            !changed ==> pass_words(first.dview(), g, n, n) == first.dview(),
            g == lg.lg.dview(),
            t == lg.twords.deep_view(),
            n == lg.ntwords.deep_view(),
            u == inits_flat(g, t).to_set(),
            lg.lg.wf(),
            first_ready(g, n),
            first.wf(),
            keys_of(first.dview()) == keys_of(g),
            forall|i2: int| 0 <= i2 < first.dview().len() ==> #[trigger] appended_new(init_first(g[i2].1, t), first.dview()[i2].1),
            within(first.dview(), u),
            forall|i: int, x: Seq<char>|
                0 <= i < first.dview().len() && #[trigger] first.dview()[i].1.contains(x)
                    ==> in_first(g, t, n, first.dview()[i].0, x),
            forall|i: int, y: Seq<char>|
                0 <= i < g.len() && #[trigger] init_first(g[i].1, t).contains(y)
                    ==> first.dview()[i].1.contains(y),
            !changed ==> first_closed(g, n, first.dview()),
        decreases gap_sum(first.dview(), u) + if changed { 1int } else { 0int },
    {
        changed = false;
        let ghost l0 = first.dview();
        let ghost m0 = gap_sum(l0, u);
        let nn = lg.ntwords.len();
        for wi in 0..nn
            invariant
                first.dview() == pass_words(l0, g, n, n.take(wi as int)),
                nn == n.len(),
                g == lg.lg.dview(),
                t == lg.twords.deep_view(),
                n == lg.ntwords.deep_view(),
                u == inits_flat(g, t).to_set(),
                lg.lg.wf(),
                first_ready(g, n),
                first.wf(),
                keys_of(first.dview()) == keys_of(g),
                forall|i2: int| 0 <= i2 < first.dview().len() ==> #[trigger] appended_new(init_first(g[i2].1, t), first.dview()[i2].1),
                within(first.dview(), u),
                forall|i: int, x: Seq<char>|
                    0 <= i < first.dview().len() && #[trigger] first.dview()[i].1.contains(x)
                        ==> in_first(g, t, n, first.dview()[i].0, x),
                forall|i: int, y: Seq<char>|
                    0 <= i < g.len() && #[trigger] init_first(g[i].1, t).contains(y)
                        ==> first.dview()[i].1.contains(y),
                gap_sum(first.dview(), u) + (if changed { 1int } else { 0int }) <= m0,
                !changed ==> first.dview() == l0,
                !changed ==> forall|w: Seq<char>, j: int|
                    (exists|wj: int| 0 <= wj < wi && n[wj] == w) && keys_of(g).contains(w) && 0 <= j
                        < prods_of(g, w).len() ==> #[trigger] first_ok_at(g, n, first.dview(), w, j),
        {
            let word = &lg.ntwords[wi];
            let ghost lw = first.dview();
            assert(n.take(wi + 1).drop_last() =~= n.take(wi as int));
            assert(n.take(wi + 1).last() == n[wi as int]);
            assert(word@ == n[wi as int]);
            let found = first.find(word);
            if found.is_some() {
            let idx = found.unwrap();
            let ghost w = word@;
            proof {
                assert(n[wi as int] == w);
                lemma_lookup_at(g, idx as int);
                assert(keys_of(first.dview())[idx as int] == keys_of(g)[idx as int]);
            }
            let mut word_first = clone_strings(&first.entries[idx].1);
            let right = lg.lg.get(word).unwrap();
            let ghost ps = prods_of(g, w);
            assert(right.deep_view() == ps);
            let nr = right.len();
            for ri in 0..nr
                invariant
                    first.dview() == pass_bodies(lw, n, w, ps.take(ri as int)),
                    lw == pass_words(l0, g, n, n.take(wi as int)),
                    nr == ps.len(),
                    word@ == w,
                    right.deep_view() == ps,
                    ps == prods_of(g, w),
                    lookup(g, w) is Some,
                    n.contains(w),
                    n[wi as int] == w,
                    0 <= wi < n.len(),
                    idx < first.dview().len(),
                    first.dview()[idx as int].0 == w,
                    word_first.deep_view() == first.dview()[idx as int].1,
                    g == lg.lg.dview(),
                    t == lg.twords.deep_view(),
                    n == lg.ntwords.deep_view(),
                    u == inits_flat(g, t).to_set(),
                    lg.lg.wf(),
                    first_ready(g, n),
                    first.wf(),
                    keys_of(first.dview()) == keys_of(g),
                    forall|i2: int| 0 <= i2 < first.dview().len() ==> #[trigger] appended_new(init_first(g[i2].1, t), first.dview()[i2].1),
                    within(first.dview(), u),
                    forall|i: int, x: Seq<char>|
                        0 <= i < first.dview().len() && #[trigger] first.dview()[i].1.contains(x)
                            ==> in_first(g, t, n, first.dview()[i].0, x),
                    forall|i: int, y: Seq<char>|
                        0 <= i < g.len() && #[trigger] init_first(g[i].1, t).contains(y)
                            ==> first.dview()[i].1.contains(y),
                    gap_sum(first.dview(), u) + (if changed { 1int } else { 0int }) <= m0,
                    !changed ==> first.dview() == l0,
                    !changed ==> forall|w2: Seq<char>, j: int|
                        (exists|wj: int| 0 <= wj < wi && n[wj] == w2) && keys_of(g).contains(w2) && 0
                            <= j < prods_of(g, w2).len() ==> #[trigger] first_ok_at(
                            g,
                            n,
                            first.dview(),
                            w2,
                            j,
                        ),
                    !changed ==> forall|j: int| 0 <= j < ri ==> #[trigger] first_ok_at(g, n, first.dview(), w, j),
            {
                proof {
                    let gi = keys_of(g).index_of(w);
                    assert(keys_of(g).contains(w));
                    lemma_lookup_at(g, gi);
                    assert(g[gi].1[ri as int].len() > 0);
                }
                let r0 = &right[ri][0];
                let ghost s0 = ps[ri as int][0];
                assert(r0@ == s0);
                assert(ps.take(ri + 1).drop_last() =~= ps.take(ri as int));
                assert(ps.take(ri + 1).last() == ps[ri as int]);
                if contains_string(&lg.ntwords, r0) {
                    proof {
                        let gi = keys_of(g).index_of(w);
                        lemma_lookup_at(g, gi);
                        assert(g[gi].1[ri as int][0] == s0);
                        assert(keys_of(g).contains(s0));
                    }
                    let src = clone_strings(first.get(r0).unwrap());
                    let ghost si = keys_of(first.dview()).index_of(s0);
                    proof {
                        assert(keys_of(first.dview()).contains(s0));
                        lemma_lookup_at(first.dview(), si);
                    }
                    assert(src.deep_view() == first.dview()[si].1);
                    let ghost l1 = first.dview();
                    assert(l1.update(idx as int, (w, word_first.deep_view())) =~= l1);
                    let ghost c1 = changed;
                    let ns = src.len();
                    let ghost wf0 = word_first.deep_view();
                    for k in 0..ns
                        invariant
                            word_first.deep_view() == with_missing(wf0, src.deep_view().take(k as int)),
                            ns == src.deep_view().len(),
                            c1 ==> changed,
                            src.deep_view() == l1[si].1,
                            0 <= si < l1.len(),
                            l1[si].0 == s0,
                            s0 == ps[ri as int][0],
                            0 <= ri < ps.len(),
                            ps == prods_of(g, w),
                            lookup(g, w) is Some,
                            n.contains(w),
                            n.contains(s0),
                            first.dview() == l1,
                            keys_of(l1) == keys_of(g),
                            forall|i2: int| 0 <= i2 < l1.len() ==> #[trigger] appended_new(init_first(g[i2].1, t), l1[i2].1),
                            appended_new(init_first(g[idx as int].1, t), word_first.deep_view()),
                            idx < l1.len(),
                            l1[idx as int].0 == w,
                            u.finite(),
                            within(l1, u),
                            forall|i: int, x: Seq<char>|
                                0 <= i < l1.len() && #[trigger] l1[i].1.contains(x)
                                    ==> in_first(g, t, n, l1[i].0, x),
                            forall|x: Seq<char>| #[trigger] l1[idx as int].1.contains(x) ==> word_first.deep_view().contains(x),
                            forall|x: Seq<char>| #[trigger] word_first.deep_view().contains(x) ==> (u.contains(x) && in_first(g, t, n, w, x)),
                            gap_sum(l1.update(idx as int, (w, word_first.deep_view())), u) + (if changed { 1int } else { 0int }) <= m0,
                            !changed ==> word_first.deep_view() == l1[idx as int].1,
                            forall|kk: int| 0 <= kk < k ==> word_first.deep_view().contains(#[trigger] src.deep_view()[kk]),
                            forall|x: Seq<char>| word_first.deep_view().contains(x) ==> #[trigger] l1[idx as int].1.contains(x) || src.deep_view().contains(x),
                    {
                        let ghost x = src.deep_view()[k as int];
                        assert(src.deep_view().take(k + 1).drop_last() =~= src.deep_view().take(k as int));
                        assert(src.deep_view().take(k + 1).last() == x);
                        assert(l1[si].1.contains(x));
                        if !contains_string(&word_first, &src[k]) {
                            let ghost before = word_first.deep_view();
                            word_first.push(src[k].clone());
                            assert(word_first.deep_view() =~= before.push(x));
                            proof {
                                crate::text::lemma_appended_push(init_first(g[idx as int].1, t), before, x);
                            }
                            proof {
                                lemma_first_up(g, t, n, w, ri as int, x);
                                lemma_gap_of_push(before, x, u);
                                lemma_gap_sum_update(l1, idx as int, (w, before), u);
                                lemma_gap_sum_update(l1, idx as int, (w, word_first.deep_view()), u);
                                assert(l1.update(idx as int, (w, before)).update(idx as int, (w, word_first.deep_view()))
                                    =~= l1.update(idx as int, (w, word_first.deep_view())));
                                lemma_gap_sum_update(l1.update(idx as int, (w, before)), idx as int, (w, word_first.deep_view()), u);
                            }
                            changed = true;
                        }
                    }
                    let ghost wf = word_first.deep_view();
                    assert(src.deep_view().take(ns as int) =~= src.deep_view());
                    proof {
                        lemma_lookup_at(l1, idx as int);
                        lemma_lookup_at(l1, si);
                        assert(wf == with_missing(lookup(l1, w).unwrap(), lookup(l1, s0).unwrap()));
                    }
                    proof {
                        assert(keys_of(first.dview()).index_of(w) == idx) by {
                            lemma_lookup_at(first.dview(), idx as int);
                        }
                        assert(keys_of(first.dview())[idx as int] == w);
                        assert(keys_of(first.dview()).contains(w));
                    }
                    let key = word.clone();
                    let val = clone_strings(&word_first);
                    assert(key@ == w);
                    assert(put(l1, w, wf) == l1.update(idx as int, (w, wf)));
                    first.insert(key, val);
                    proof {
                        let l2 = first.dview();
                        assert(l2 =~= l1.update(idx as int, (w, wf)));
                        // lists only grew
                        assert forall|i: int, x: Seq<char>| 0 <= i < l2.len() && #[trigger] l2[i].1.contains(x)
                            implies u.contains(x) && in_first(g, t, n, l2[i].0, x) by {
                            if i == idx {
                            } else {
                                assert(l2[i] == l1[i]);
                            }
                        }
                        assert(keys_of(l2) =~= keys_of(l1));
                        assert forall|i2: int| 0 <= i2 < l2.len() implies #[trigger] appended_new(init_first(g[i2].1, t), l2[i2].1) by {
                            if i2 != idx {
                                assert(l2[i2] == l1[i2]);
                            }
                        }
                        assert forall|i: int, y: Seq<char>|
                            0 <= i < g.len() && #[trigger] init_first(g[i].1, t).contains(y)
                                implies l2[i].1.contains(y) by {
                            assert(l1[i].1.contains(y));
                            if i == idx {
                            } else {
                                assert(l2[i] == l1[i]);
                            }
                        }
                        if !changed {
                            assert(l2 =~= l1);
                            assert forall|x: Seq<char>| #[trigger] holds(l2, s0, x) implies holds(l2, w, x) by {
                                lemma_lookup_at(l2, si);
                                lemma_lookup_at(l2, idx as int);
                                let kk = choose|kk: int| 0 <= kk < src.deep_view().len() && src.deep_view()[kk] == x;
                                assert(word_first.deep_view().contains(src.deep_view()[kk]));
                            }
                            assert(first_ok_at(g, n, l2, w, ri as int));
                        }
                    }
                } else {
                    assert(first_ok_at(g, n, first.dview(), w, ri as int));
                }
            }
            }
            proof {
                if !changed {
                    assert forall|w2: Seq<char>, j: int|
                        (exists|wj: int| 0 <= wj < wi + 1 && n[wj] == w2) && keys_of(g).contains(w2) && 0
                            <= j < prods_of(g, w2).len() implies #[trigger] first_ok_at(
                            g,
                            n,
                            first.dview(),
                            w2,
                            j,
                        ) by {
                        let wj = choose|wj: int| 0 <= wj < wi + 1 && n[wj] == w2;
                        if wj < wi {
                        } else {
                        }
                    }
                }
            }
        }
        proof {
            if !changed {
                assert forall|w: Seq<char>, j: int|
                    n.contains(w) && keys_of(g).contains(w) && 0 <= j < prods_of(g, w).len()
                        implies #[trigger] first_ok_at(g, n, first.dview(), w, j) by {
                    let wj = choose|wj: int| 0 <= wj < n.len() && n[wj] == w;
                }
            }
            lemma_gap_sum_nonneg(first.dview(), u);
            assert(n.take(nn as int) =~= n);
            assert(first.dview() == pass_words(l0, g, n, n));
            rounds = rounds + 1;
            assert(first.dview() == sweeps(g, t, n, rounds));
        }
    }
    proof {
        let l = first.dview();
        assert(sweeps(g, t, n, rounds) == l && pass_words(l, g, n, n) == l);
        assert forall|i: int, x: Seq<char>| 0 <= i < l.len() implies (#[trigger] l[i].1.contains(x)
            <==> in_first(g, t, n, l[i].0, x)) by {
            if in_first(g, t, n, l[i].0, x) {
                let k = choose|k: nat| first_step(g, t, n, l[i].0, x, k);
                lemma_first_complete(g, t, n, l, l[i].0, x, k);
                assert(keys_of(l)[i] == l[i].0);
                lemma_lookup_at(l, i);
            }
        }
    }
}

} // verus!
