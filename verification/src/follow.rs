use vstd::prelude::*;
use crate::dict::{Dict, keys_of, lemma_lookup_at, lemma_put, lookup, put};
use crate::first::{holds, nonempty_bodies};
use crate::growth::{
    flat, gap_of, gap_sum, lemma_flat_contains, lemma_gap_of_grow, lemma_gap_sum_nonneg,
    lemma_gap_sum_update, within,
};
use crate::language::Language;
use crate::text::{add_missing, clone_strings, contains_string, owned};

verus! {

broadcast use vstd::seq_lib::group_seq_properties;

/// Symbol `i` of production `j` of entry `gi` is followed by another symbol.
pub open spec fn is_pos(g: Seq<(Seq<char>, Seq<Seq<Seq<char>>>)>, gi: int, j: int, i: int) -> bool {
    0 <= gi < g.len() && 0 <= j < g[gi].1.len() && 0 <= i && i + 1 < g[gi].1[j].len()
}

/// Production `j` of entry `gi` exists.
pub open spec fn is_prod(g: Seq<(Seq<char>, Seq<Seq<Seq<char>>>)>, gi: int, j: int) -> bool {
    0 <= gi < g.len() && 0 <= j < g[gi].1.len()
}

pub open spec fn sym(g: Seq<(Seq<char>, Seq<Seq<Seq<char>>>)>, gi: int, j: int, i: int) -> Seq<char> {
    g[gi].1[j][i]
}

pub open spec fn last_sym(g: Seq<(Seq<char>, Seq<Seq<Seq<char>>>)>, gi: int, j: int) -> Seq<char> {
    g[gi].1[j].last()
}

/// What a symbol `y` right after a nonterminal gives its FOLLOW set
/// directly: the FIRST set of `y` without `"nil"`, or `y` itself when `y` has
/// no FIRST set.
pub open spec fn direct_at(f: Seq<(Seq<char>, Seq<Seq<char>>)>, y: Seq<char>, x: Seq<char>) -> bool {
    match lookup(f, y) {
        Some(v) => v.contains(x) && x != "nil"@,
        None => x == y,
    }
}

/// The FIRST set of `y` holds `"nil"`.
pub open spec fn nullable_at(f: Seq<(Seq<char>, Seq<Seq<char>>)>, y: Seq<char>) -> bool {
    lookup(f, y) matches Some(v) && v.contains("nil"@)
}

/// `x` reaches the FOLLOW set of nonterminal `a` in `k` propagation steps:
/// `x` is `"#"`; or `a` is followed in a production by a symbol that gives
/// `x` directly; or (with `k - 1` steps) `a` is followed by a symbol whose
/// FIRST set holds `"nil"` and whose FOLLOW set has `x`, or `a` ends a
/// production of a head whose FOLLOW set has `x`.
pub open spec fn follow_step(
    g: Seq<(Seq<char>, Seq<Seq<Seq<char>>>)>,
    n: Seq<Seq<char>>,
    f: Seq<(Seq<char>, Seq<Seq<char>>)>,
    a: Seq<char>,
    x: Seq<char>,
    k: nat,
) -> bool
    decreases k,
{
    &&& n.contains(a)
    &&& {
        ||| x == "#"@
        ||| exists|gi: int, j: int, i: int|
            is_pos(g, gi, j, i) && #[trigger] sym(g, gi, j, i) == a && direct_at(
                f,
                sym(g, gi, j, i + 1),
                x,
            )
        ||| (k > 0 && exists|gi: int, j: int, i: int|
            is_pos(g, gi, j, i) && #[trigger] sym(g, gi, j, i) == a && nullable_at(
                f,
                sym(g, gi, j, i + 1),
            ) && follow_step(g, n, f, sym(g, gi, j, i + 1), x, (k - 1) as nat))
        ||| (k > 0 && exists|gi: int, j: int|
            is_prod(g, gi, j) && #[trigger] last_sym(g, gi, j) == a && follow_step(
                g,
                n,
                f,
                g[gi].0,
                x,
                (k - 1) as nat,
            ))
    }
}

/// `x` is in the FOLLOW set of `a`: the least sets, one per nonterminal, that
/// hold `"#"`, what the symbol after each occurrence of the nonterminal gives
/// directly, the FOLLOW set of that symbol when its FIRST set holds `"nil"`,
/// and the FOLLOW set of the head of each production that the nonterminal
/// ends.
pub open spec fn in_follow(
    g: Seq<(Seq<char>, Seq<Seq<Seq<char>>>)>,
    n: Seq<Seq<char>>,
    f: Seq<(Seq<char>, Seq<Seq<char>>)>,
    a: Seq<char>,
    x: Seq<char>,
) -> bool {
    exists|k: nat| follow_step(g, n, f, a, x, k)
}

/// The computation of FOLLOW sets reads only entries that exist.
pub open spec fn follow_ready(
    g: Seq<(Seq<char>, Seq<Seq<Seq<char>>>)>,
    n: Seq<Seq<char>>,
    f: Seq<(Seq<char>, Seq<Seq<char>>)>,
) -> bool {
    &&& nonempty_bodies(g)
    &&& forall|gi: int, j: int, i: int|
        is_pos(g, gi, j, i) && n.contains(#[trigger] sym(g, gi, j, i)) && nullable_at(
            f,
            sym(g, gi, j, i + 1),
        ) ==> n.contains(sym(g, gi, j, i + 1))
    &&& forall|gi: int, j: int|
        is_prod(g, gi, j) && n.contains(#[trigger] last_sym(g, gi, j)) ==> n.contains(g[gi].0)
}

/// The FOLLOW lists before propagation: `["#"]` under each nonterminal, in
/// the order of their first occurrence.
pub open spec fn follow_init(n: Seq<Seq<char>>) -> Seq<(Seq<char>, Seq<Seq<char>>)>
    decreases n.len(),
{
    if n.len() == 0 {
        Seq::<(Seq<char>, Seq<Seq<char>>)>::empty()
    } else {
        put(follow_init(n.drop_last()), n.last(), seq!["#"@])
    }
}

/// The FOLLOW lists start with one entry per distinct nonterminal.
pub proof fn lemma_follow_init_keys(n: Seq<Seq<char>>)
    ensures
        forall|x: Seq<char>| keys_of(follow_init(n)).contains(x) <==> n.contains(x),
{
    lemma_follow_init(n);
}

proof fn lemma_follow_init(n: Seq<Seq<char>>)
    ensures
        keys_of(follow_init(n)).no_duplicates(),
        forall|x: Seq<char>| keys_of(follow_init(n)).contains(x) <==> n.contains(x),
        forall|i: int| 0 <= i < follow_init(n).len() ==> #[trigger] follow_init(n)[i].1 == seq!["#"@],
    decreases n.len(),
{
    if n.len() > 0 {
        let p = follow_init(n.drop_last());
        lemma_follow_init(n.drop_last());
        lemma_put(p, n.last(), seq!["#"@]);
        let q = follow_init(n);
        assert forall|x: Seq<char>| keys_of(q).contains(x) <==> n.contains(x) by {
            assert(keys_of(q).to_set().contains(x) == keys_of(q).contains(x));
            if n.contains(x) && x != n.last() {
                let j = choose|j: int| 0 <= j < n.len() && n[j] == x;
                assert(n.drop_last()[j] == x);
            }
            if n.drop_last().contains(x) {
                let j = choose|j: int| 0 <= j < n.drop_last().len() && n.drop_last()[j] == x;
                assert(n[j] == x);
            }
            assert(n[n.len() - 1] == n.last());
        }
        assert forall|i: int| 0 <= i < q.len() implies #[trigger] q[i].1 == seq!["#"@] by {
            if keys_of(p).contains(n.last()) {
                let k = keys_of(p).index_of(n.last());
                if i != k {
                    assert(q[i] == p[i]);
                }
            } else {
                if i < p.len() {
                    assert(q[i] == p[i]);
                }
            }
        }
    }
}

/// Every symbol of the grammar, every element of a FIRST list, and `"#"`:
/// all that FOLLOW lists can hold.
pub open spec fn follow_universe(
    g: Seq<(Seq<char>, Seq<Seq<Seq<char>>>)>,
    f: Seq<(Seq<char>, Seq<Seq<char>>)>,
) -> Set<Seq<char>> {
    (seq!["#"@] + flat(Seq::new(g.len(), |i: int| flat(g[i].1))) + flat(
        Seq::new(f.len(), |i: int| f[i].1),
    )).to_set()
}

proof fn lemma_universe_sym(
    g: Seq<(Seq<char>, Seq<Seq<Seq<char>>>)>,
    f: Seq<(Seq<char>, Seq<Seq<char>>)>,
    gi: int,
    j: int,
    i: int,
)
    requires
        is_prod(g, gi, j),
        0 <= i < g[gi].1[j].len(),
    ensures
        follow_universe(g, f).contains(g[gi].1[j][i]),
{
    let x = g[gi].1[j][i];
    let a = seq!["#"@];
    let b = flat(Seq::new(g.len(), |k: int| flat(g[k].1)));
    let c = flat(Seq::new(f.len(), |k: int| f[k].1));
    assert(g[gi].1[j].contains(x));
    lemma_flat_contains(g[gi].1, j, x);
    lemma_flat_contains(Seq::new(g.len(), |k: int| flat(g[k].1)), gi, x);
    let p = choose|p: int| 0 <= p < b.len() && b[p] == x;
    assert((a + b + c)[1 + p] == x);
}

proof fn lemma_universe_first(
    g: Seq<(Seq<char>, Seq<Seq<Seq<char>>>)>,
    f: Seq<(Seq<char>, Seq<Seq<char>>)>,
    y: Seq<char>,
    x: Seq<char>,
)
    requires
        holds(f, y, x),
    ensures
        follow_universe(g, f).contains(x),
{
    let a = seq!["#"@];
    let b = flat(Seq::new(g.len(), |k: int| flat(g[k].1)));
    let c = flat(Seq::new(f.len(), |k: int| f[k].1));
    let i = keys_of(f).index_of(y);
    lemma_flat_contains(Seq::new(f.len(), |k: int| f[k].1), i, x);
    let p = choose|p: int| 0 <= p < c.len() && c[p] == x;
    assert((a + b + c)[1 + b.len() + p] == x);
}

/// What each propagation pass keeps of the FOLLOW lists.
pub open spec fn follow_inv(
    g: Seq<(Seq<char>, Seq<Seq<Seq<char>>>)>,
    n: Seq<Seq<char>>,
    f: Seq<(Seq<char>, Seq<Seq<char>>)>,
    l: Seq<(Seq<char>, Seq<Seq<char>>)>,
) -> bool {
    &&& keys_of(l).no_duplicates()
    &&& forall|x: Seq<char>| keys_of(l).contains(x) <==> n.contains(x)
    &&& within(l, follow_universe(g, f))
    &&& forall|i: int| 0 <= i < l.len() ==> #[trigger] l[i].1.contains("#"@)
    &&& forall|i: int|
        0 <= i < l.len() ==> #[trigger] follow_shaped(l[i].1)
    &&& forall|i: int, x: Seq<char>|
        0 <= i < l.len() && #[trigger] l[i].1.contains(x) ==> in_follow(g, n, f, l[i].0, x)
}

/// A FOLLOW list starts with `"#"` and holds no symbol twice.
pub open spec fn follow_shaped(s: Seq<Seq<char>>) -> bool {
    s.len() > 0 && s[0] == "#"@ && s.no_duplicates()
}

/// Extending a FOLLOW list by new distinct symbols keeps its shape.
proof fn lemma_shaped_extend(s0: Seq<Seq<char>>, s: Seq<Seq<char>>)
    requires
        follow_shaped(s0),
        crate::text::appended_new(s0, s),
    ensures
        follow_shaped(s),
{
    crate::text::lemma_appended_distinct(s0, s);
    assert(s.take(s0.len() as int)[0] == s0[0]);
}

/// The propagation rules for position `i` of production `j` of entry `gi`
/// hold of the lists.
pub open spec fn pos_ok(
    g: Seq<(Seq<char>, Seq<Seq<Seq<char>>>)>,
    n: Seq<Seq<char>>,
    f: Seq<(Seq<char>, Seq<Seq<char>>)>,
    l: Seq<(Seq<char>, Seq<Seq<char>>)>,
    gi: int,
    j: int,
    i: int,
) -> bool {
    let a = sym(g, gi, j, i);
    let y = sym(g, gi, j, i + 1);
    n.contains(a) ==> {
        &&& forall|x: Seq<char>| #[trigger] direct_at(f, y, x) ==> holds(l, a, x)
        &&& nullable_at(f, y) ==> forall|x: Seq<char>| #[trigger] holds(l, y, x) ==> holds(l, a, x)
    }
}

/// The propagation rule for the end of production `j` of entry `gi` holds.
pub open spec fn end_ok(
    g: Seq<(Seq<char>, Seq<Seq<Seq<char>>>)>,
    n: Seq<Seq<char>>,
    l: Seq<(Seq<char>, Seq<Seq<char>>)>,
    gi: int,
    j: int,
) -> bool {
    n.contains(last_sym(g, gi, j)) ==> forall|x: Seq<char>|
        #[trigger] holds(l, g[gi].0, x) ==> holds(l, last_sym(g, gi, j), x)
}

/// All rules of production `j` of entry `gi` hold.
pub open spec fn prod_done(
    g: Seq<(Seq<char>, Seq<Seq<Seq<char>>>)>,
    n: Seq<Seq<char>>,
    f: Seq<(Seq<char>, Seq<Seq<char>>)>,
    l: Seq<(Seq<char>, Seq<Seq<char>>)>,
    gi: int,
    j: int,
) -> bool {
    &&& forall|i: int| 0 <= i && i + 1 < g[gi].1[j].len() ==> #[trigger] pos_ok(g, n, f, l, gi, j, i)
    &&& end_ok(g, n, l, gi, j)
}

proof fn lemma_holds_at(l: Seq<(Seq<char>, Seq<Seq<char>>)>, a: Seq<char>)
    requires
        keys_of(l).no_duplicates(),
        keys_of(l).contains(a),
    ensures
        0 <= keys_of(l).index_of(a) < l.len(),
        l[keys_of(l).index_of(a)].0 == a,
        forall|x: Seq<char>| holds(l, a, x) <==> l[keys_of(l).index_of(a)].1.contains(x),
{
    let i = keys_of(l).index_of(a);
    lemma_lookup_at(l, i);
}

proof fn lemma_follow_complete(
    g: Seq<(Seq<char>, Seq<Seq<Seq<char>>>)>,
    n: Seq<Seq<char>>,
    f: Seq<(Seq<char>, Seq<Seq<char>>)>,
    l: Seq<(Seq<char>, Seq<Seq<char>>)>,
    a: Seq<char>,
    x: Seq<char>,
    k: nat,
)
    requires
        follow_inv(g, n, f, l),
        forall|gi: int, j: int| is_prod(g, gi, j) ==> #[trigger] prod_done(g, n, f, l, gi, j),
        follow_step(g, n, f, a, x, k),
    ensures
        holds(l, a, x),
    decreases k,
{
    lemma_holds_at(l, a);
    let ai = keys_of(l).index_of(a);
    if x == "#"@ {
        assert(l[ai].1.contains("#"@));
    } else if exists|gi: int, j: int, i: int|
        is_pos(g, gi, j, i) && #[trigger] sym(g, gi, j, i) == a && direct_at(f, sym(g, gi, j, i + 1), x) {
        let (gi, j, i) = choose|gi: int, j: int, i: int|
            is_pos(g, gi, j, i) && #[trigger] sym(g, gi, j, i) == a && direct_at(f, sym(g, gi, j, i + 1), x);
        assert(prod_done(g, n, f, l, gi, j));
        assert(pos_ok(g, n, f, l, gi, j, i));
    } else if exists|gi: int, j: int, i: int|
        is_pos(g, gi, j, i) && #[trigger] sym(g, gi, j, i) == a && nullable_at(f, sym(g, gi, j, i + 1))
            && follow_step(g, n, f, sym(g, gi, j, i + 1), x, (k - 1) as nat) {
        let (gi, j, i) = choose|gi: int, j: int, i: int|
            is_pos(g, gi, j, i) && #[trigger] sym(g, gi, j, i) == a && nullable_at(f, sym(g, gi, j, i + 1))
                && follow_step(g, n, f, sym(g, gi, j, i + 1), x, (k - 1) as nat);
        lemma_follow_complete(g, n, f, l, sym(g, gi, j, i + 1), x, (k - 1) as nat);
        assert(prod_done(g, n, f, l, gi, j));
        assert(pos_ok(g, n, f, l, gi, j, i));
    } else {
        let (gi, j) = choose|gi: int, j: int|
            is_prod(g, gi, j) && #[trigger] last_sym(g, gi, j) == a && follow_step(g, n, f, g[gi].0, x, (k - 1) as nat);
        lemma_follow_complete(g, n, f, l, g[gi].0, x, (k - 1) as nat);
        assert(prod_done(g, n, f, l, gi, j));
    }
}

} // verus!

verus! {

/// Lists that only grow keep their entries' keys and lose nothing.
pub open spec fn grew(l: Seq<(Seq<char>, Seq<Seq<char>>)>, l2: Seq<(Seq<char>, Seq<Seq<char>>)>) -> bool {
    &&& keys_of(l2) == keys_of(l)
    &&& forall|i: int, x: Seq<char>| 0 <= i < l.len() && #[trigger] l[i].1.contains(x) ==> l2[i].1.contains(x)
}

proof fn lemma_in_follow_direct(
    g: Seq<(Seq<char>, Seq<Seq<Seq<char>>>)>,
    n: Seq<Seq<char>>,
    f: Seq<(Seq<char>, Seq<Seq<char>>)>,
    gi: int,
    j: int,
    i: int,
    x: Seq<char>,
)
    requires
        is_pos(g, gi, j, i),
        n.contains(sym(g, gi, j, i)),
        direct_at(f, sym(g, gi, j, i + 1), x),
    ensures
        in_follow(g, n, f, sym(g, gi, j, i), x),
{
    assert(follow_step(g, n, f, sym(g, gi, j, i), x, 0));
}

proof fn lemma_in_follow_nullable(
    g: Seq<(Seq<char>, Seq<Seq<Seq<char>>>)>,
    n: Seq<Seq<char>>,
    f: Seq<(Seq<char>, Seq<Seq<char>>)>,
    gi: int,
    j: int,
    i: int,
    x: Seq<char>,
)
    requires
        is_pos(g, gi, j, i),
        n.contains(sym(g, gi, j, i)),
        nullable_at(f, sym(g, gi, j, i + 1)),
        in_follow(g, n, f, sym(g, gi, j, i + 1), x),
    ensures
        in_follow(g, n, f, sym(g, gi, j, i), x),
{
    let y = sym(g, gi, j, i + 1);
    let k = choose|k: nat| follow_step(g, n, f, y, x, k);
    let k1 = k + 1;
    assert((k1 - 1) as nat == k);
    assert(follow_step(g, n, f, y, x, (k1 - 1) as nat));
    assert(follow_step(g, n, f, sym(g, gi, j, i), x, k1));
}

proof fn lemma_in_follow_end(
    g: Seq<(Seq<char>, Seq<Seq<Seq<char>>>)>,
    n: Seq<Seq<char>>,
    f: Seq<(Seq<char>, Seq<Seq<char>>)>,
    gi: int,
    j: int,
    x: Seq<char>,
)
    requires
        is_prod(g, gi, j),
        n.contains(last_sym(g, gi, j)),
        in_follow(g, n, f, g[gi].0, x),
    ensures
        in_follow(g, n, f, last_sym(g, gi, j), x),
{
    let k = choose|k: nat| follow_step(g, n, f, g[gi].0, x, k);
    let k1 = k + 1;
    assert((k1 - 1) as nat == k);
    assert(follow_step(g, n, f, g[gi].0, x, (k1 - 1) as nat));
    assert(follow_step(g, n, f, last_sym(g, gi, j), x, k1));
}

/// Replacing the list of one entry by a list that has it as a prefix.
proof fn lemma_follow_update(
    g: Seq<(Seq<char>, Seq<Seq<Seq<char>>>)>,
    n: Seq<Seq<char>>,
    f: Seq<(Seq<char>, Seq<Seq<char>>)>,
    l: Seq<(Seq<char>, Seq<Seq<char>>)>,
    idx: int,
    fl: Seq<Seq<char>>,
)
    requires
        follow_inv(g, n, f, l),
        0 <= idx < l.len(),
        forall|x: Seq<char>| l[idx].1.contains(x) ==> fl.contains(x),
        forall|x: Seq<char>| #[trigger] fl.contains(x) ==> follow_universe(g, f).contains(x) && in_follow(g, n, f, l[idx].0, x),
        follow_shaped(fl),
    ensures
        follow_inv(g, n, f, l.update(idx, (l[idx].0, fl))),
        grew(l, l.update(idx, (l[idx].0, fl))),
        gap_sum(l.update(idx, (l[idx].0, fl)), follow_universe(g, f)) <= gap_sum(l, follow_universe(g, f)),
        (exists|x: Seq<char>| fl.contains(x) && !l[idx].1.contains(x)) ==> gap_sum(
            l.update(idx, (l[idx].0, fl)),
            follow_universe(g, f),
        ) < gap_sum(l, follow_universe(g, f)),
{
    let u = follow_universe(g, f);
    let l2 = l.update(idx, (l[idx].0, fl));
    assert(keys_of(l2) =~= keys_of(l));
    assert forall|i: int| 0 <= i < l2.len() implies #[trigger] follow_shaped(l2[i].1) by {
        if i != idx {
            assert(l2[i] == l[i]);
        }
    }
    assert forall|i: int, x: Seq<char>| 0 <= i < l.len() && #[trigger] l[i].1.contains(x) implies l2[i].1.contains(x) by {
        if i != idx {
            assert(l2[i] == l[i]);
        }
    }
    assert(l[idx].1.contains("#"@));
    assert forall|i: int, x: Seq<char>| 0 <= i < l2.len() && #[trigger] l2[i].1.contains(x) implies u.contains(x) && in_follow(g, n, f, l2[i].0, x) by {
        if i != idx {
            assert(l2[i] == l[i]);
        }
    }
    assert forall|x: Seq<char>| l[idx].1.contains(x) implies u.contains(x) by {
        assert(l[idx].1.contains(x));
    }
    lemma_gap_of_grow(l[idx].1, fl, u);
    lemma_gap_sum_update(l, idx, (l[idx].0, fl), u);
}

/// Applies the rules of position `i` of production `r` (production `j` of
/// entry `gi`) to the FOLLOW lists; says whether a list grew.
fn follow_at(
    first: &Dict<String, Vec<String>>,
    follow: &mut Dict<String, Vec<String>>,
    r: &Vec<String>,
    i: usize,
    Ghost(g): Ghost<Seq<(Seq<char>, Seq<Seq<Seq<char>>>)>>,
    Ghost(n): Ghost<Seq<Seq<char>>>,
    Ghost(gi): Ghost<int>,
    Ghost(j): Ghost<int>,
) -> (added: bool)
    requires
        first.wf(),
        old(follow).wf(),
        follow_ready(g, n, first.dview()),
        follow_inv(g, n, first.dview(), old(follow).dview()),
        is_pos(g, gi, j, i as int),
        r.deep_view() == g[gi].1[j],
    ensures
        final(follow).wf(),
        follow_inv(g, n, first.dview(), final(follow).dview()),
        grew(old(follow).dview(), final(follow).dview()),
        gap_sum(final(follow).dview(), follow_universe(g, first.dview())) + (if added { 1int } else { 0int })
            <= gap_sum(old(follow).dview(), follow_universe(g, first.dview())),
        !added ==> final(follow).dview() == old(follow).dview(),
        !added ==> pos_ok(g, n, first.dview(), final(follow).dview(), gi, j, i as int),
{
    let ghost f = first.dview();
    let ghost l = follow.dview();
    let ghost u = follow_universe(g, f);
    let ghost a = sym(g, gi, j, i as int);
    let ghost y = sym(g, gi, j, i as int + 1);
    let rl = r.len();
    assert(r@.len() == r.deep_view().len());
    assert(i + 1 < rl);
    assert(r@[i as int]@ == a);
    assert(r@[i as int + 1]@ == y);
    let found = follow.find(&r[i]);
    if found.is_none() {
        assert(!n.contains(a));
        return false;
    }
    let idx = found.unwrap();
    proof {
        lemma_holds_at(l, a);
    }
    let mut fl = clone_strings(&follow.entries[idx].1);
    let ghost fl0 = fl.deep_view();
    assert(fl0 == l[idx as int].1);
    let added;
    let nil = owned("nil");
    match first.get(&r[i + 1]) {
        Some(v) => {
            let ghost vv = v.deep_view();
            assert(lookup(f, y) == Some(vv));
            let a1 = add_missing(&mut fl, v, true);
            let ghost fl1 = fl.deep_view();
            proof {
                assert(follow_shaped(l[idx as int].1));
                lemma_shaped_extend(fl0, fl1);
                assert forall|x: Seq<char>| #[trigger] fl1.contains(x) implies u.contains(x) && in_follow(g, n, f, a, x) by {
                    if !fl0.contains(x) {
                        lemma_universe_first(g, f, y, x);
                        lemma_in_follow_direct(g, n, f, gi, j, i as int, x);
                    } else {
                        assert(l[idx as int].1.contains(x));
                    }
                }
            }
            if contains_string(v, &nil) {
                proof {
                    assert(nullable_at(f, y));
                    assert(n.contains(y));
                    lemma_holds_at(l, y);
                }
                let f1 = clone_strings(follow.get(&r[i + 1]).unwrap());
                let ghost yi = keys_of(l).index_of(y);
                assert(f1.deep_view() == l[yi].1);
                let a2 = add_missing(&mut fl, &f1, false);
                proof {
                    let fl2 = fl.deep_view();
                    lemma_shaped_extend(fl1, fl2);
                    assert forall|x: Seq<char>| #[trigger] fl2.contains(x) implies u.contains(x) && in_follow(g, n, f, a, x) by {
                        if !fl1.contains(x) {
                            assert(l[yi].1.contains(x));
                            lemma_in_follow_nullable(g, n, f, gi, j, i as int, x);
                        }
                    }
                }
                added = a1 || a2;
            } else {
                assert(!nullable_at(f, y));
                added = a1;
            }
        },
        None => {
            let mut single: Vec<String> = Vec::new();
            single.push(r[i + 1].clone());
            assert(single.deep_view() =~= seq![y]);
            added = add_missing(&mut fl, &single, false);
            proof {
                let fl2 = fl.deep_view();
                assert(follow_shaped(l[idx as int].1));
                lemma_shaped_extend(fl0, fl2);
                assert forall|x: Seq<char>| #[trigger] fl2.contains(x) implies u.contains(x) && in_follow(g, n, f, a, x) by {
                    if !fl0.contains(x) {
                        assert(x == y);
                        lemma_universe_sym(g, f, gi, j, i as int + 1);
                        lemma_in_follow_direct(g, n, f, gi, j, i as int, x);
                    } else {
                        assert(l[idx as int].1.contains(x));
                    }
                }
            }
        },
    }
    let ghost flv = fl.deep_view();
    proof {
        assert forall|x: Seq<char>| l[idx as int].1.contains(x) implies flv.contains(x) by {}
        lemma_follow_update(g, n, f, l, idx as int, flv);
        assert(keys_of(l).index_of(a) == idx as int);
        assert(keys_of(l)[idx as int] == a);
    }
    let key = r[i].clone();
    follow.insert(key, fl);
    proof {
        let l2 = follow.dview();
        assert(l2 == l.update(idx as int, (l[idx as int].0, flv)));
        if !added {
            assert(flv =~= fl0);
            assert(l2 =~= l);
            lemma_holds_at(l2, a);
            assert forall|x: Seq<char>| #[trigger] direct_at(f, y, x) implies holds(l2, a, x) by {
                assert(flv.contains(x));
            }
            if nullable_at(f, y) {
                lemma_holds_at(l2, y);
                assert forall|x: Seq<char>| #[trigger] holds(l2, y, x) implies holds(l2, a, x) by {
                    assert(flv.contains(x));
                }
            }
        }
    }
    added
}

} // verus!

verus! {

/// Applies the rule for the end of production `r` of `head` (production `j`
/// of entry `gi`); says whether a list grew.
fn follow_end(
    follow: &mut Dict<String, Vec<String>>,
    head: &String,
    r: &Vec<String>,
    Ghost(g): Ghost<Seq<(Seq<char>, Seq<Seq<Seq<char>>>)>>,
    Ghost(n): Ghost<Seq<Seq<char>>>,
    Ghost(f): Ghost<Seq<(Seq<char>, Seq<Seq<char>>)>>,
    Ghost(gi): Ghost<int>,
    Ghost(j): Ghost<int>,
) -> (added: bool)
    requires
        old(follow).wf(),
        follow_ready(g, n, f),
        follow_inv(g, n, f, old(follow).dview()),
        is_prod(g, gi, j),
        head@ == g[gi].0,
        r.deep_view() == g[gi].1[j],
    ensures
        final(follow).wf(),
        follow_inv(g, n, f, final(follow).dview()),
        grew(old(follow).dview(), final(follow).dview()),
        gap_sum(final(follow).dview(), follow_universe(g, f)) + (if added { 1int } else { 0int })
            <= gap_sum(old(follow).dview(), follow_universe(g, f)),
        !added ==> final(follow).dview() == old(follow).dview(),
        !added ==> end_ok(g, n, final(follow).dview(), gi, j),
{
    let ghost l = follow.dview();
    let ghost u = follow_universe(g, f);
    let ghost z = last_sym(g, gi, j);
    let ghost a = g[gi].0;
    let rl = r.len();
    assert(r@.len() == r.deep_view().len());
    assert(g[gi].1[j].len() > 0);
    assert(r@[rl - 1]@ == z);
    let found = follow.find(&r[rl - 1]);
    if found.is_none() {
        assert(!n.contains(z));
        return false;
    }
    let idx = found.unwrap();
    proof {
        lemma_holds_at(l, z);
        assert(n.contains(a));
        lemma_holds_at(l, a);
    }
    let mut fl = clone_strings(&follow.entries[idx].1);
    let ghost fl0 = fl.deep_view();
    let f1 = clone_strings(follow.get(head).unwrap());
    let ghost ai = keys_of(l).index_of(a);
    assert(f1.deep_view() == l[ai].1);
    let added = add_missing(&mut fl, &f1, false);
    let ghost flv = fl.deep_view();
    proof {
        assert(follow_shaped(l[idx as int].1));
        lemma_shaped_extend(fl0, flv);
        assert forall|x: Seq<char>| #[trigger] flv.contains(x) implies u.contains(x) && in_follow(g, n, f, l[idx as int].0, x) by {
            if !fl0.contains(x) {
                assert(l[ai].1.contains(x));
                lemma_in_follow_end(g, n, f, gi, j, x);
            } else {
                assert(l[idx as int].1.contains(x));
            }
        }
        assert forall|x: Seq<char>| l[idx as int].1.contains(x) implies flv.contains(x) by {}
        lemma_follow_update(g, n, f, l, idx as int, flv);
        assert(keys_of(l)[idx as int] == z);
    }
    let key = r[rl - 1].clone();
    follow.insert(key, fl);
    proof {
        let l2 = follow.dview();
        assert(l2 == l.update(idx as int, (l[idx as int].0, flv)));
        if !added {
            assert(flv =~= fl0);
            assert(l2 =~= l);
            assert forall|x: Seq<char>| #[trigger] holds(l2, a, x) implies holds(l2, z, x) by {
                assert(flv.contains(x));
            }
        }
    }
    added
}

/// Computes the FOLLOW sets of a language into `follow` (which starts
/// empty), from its FIRST sets `first`.
#[verifier::spinoff_prover]
pub fn gen_follow(first: &Dict<String, Vec<String>>, follow: &mut Dict<String, Vec<String>>, lg: &Language)
    requires
        first.wf(),
        old(follow).dview().len() == 0,
        lg.lg.wf(),
        follow_ready(lg.lg.dview(), lg.ntwords.deep_view(), first.dview()),
    ensures
        final(follow).wf(),
        keys_of(final(follow).dview()) == keys_of(follow_init(lg.ntwords.deep_view())),
        forall|i: int, x: Seq<char>|
            0 <= i < final(follow).dview().len() ==> (#[trigger] final(follow).dview()[i].1.contains(x)
                <==> in_follow(lg.lg.dview(), lg.ntwords.deep_view(), first.dview(), final(follow).dview()[i].0, x)),
        forall|i: int| 0 <= i < final(follow).dview().len() ==> #[trigger] follow_shaped(final(follow).dview()[i].1),
{
    let ghost g = lg.lg.dview();
    let ghost n = lg.ntwords.deep_view();
    let ghost f = first.dview();
    let ghost u = follow_universe(g, f);
    let nn = lg.ntwords.len();
    for wi in 0..nn
        invariant
            nn == n.len(),
            n == lg.ntwords.deep_view(),
            follow.wf(),
            follow.dview() == follow_init(n.take(wi as int)),
    {
        assert(n.take(wi + 1).drop_last() =~= n.take(wi as int));
        let mut v: Vec<String> = Vec::new();
        v.push(owned("#"));
        assert(v.deep_view() =~= seq!["#"@]);
        follow.insert(lg.ntwords[wi].clone(), v);
    }
    assert(n.take(nn as int) =~= n);
    proof {
        let l = follow.dview();
        lemma_follow_init(n);
        assert forall|i: int, x: Seq<char>| 0 <= i < l.len() && #[trigger] l[i].1.contains(x) implies u.contains(x) && in_follow(g, n, f, l[i].0, x) by {
            assert(l[i].1 == seq!["#"@]);
            assert(x == "#"@);
            assert((seq!["#"@] + flat(Seq::new(g.len(), |k: int| flat(g[k].1))) + flat(
                Seq::new(f.len(), |k: int| f[k].1)))[0] == x);
            assert(keys_of(l)[i] == l[i].0);
            assert(follow_step(g, n, f, l[i].0, x, 0));
        }
        assert forall|i: int| 0 <= i < l.len() implies #[trigger] l[i].1.contains("#"@) by {
            assert(l[i].1[0] == "#"@);
        }
        assert forall|i: int| 0 <= i < l.len() implies #[trigger] follow_shaped(l[i].1) by {
            assert(l[i].1 == seq!["#"@]);
        }
        lemma_gap_sum_nonneg(l, u);
    }
    let ghost keys0 = keys_of(follow.dview());
    let mut changed = true;
    while changed
        invariant
            g == lg.lg.dview(),
            n == lg.ntwords.deep_view(),
            f == first.dview(),
            u == follow_universe(g, f),
            u.finite(),
            first.wf(),
            lg.lg.wf(),
            follow_ready(g, n, f),
            follow.wf(),
            follow_inv(g, n, f, follow.dview()),
            keys_of(follow.dview()) == keys0,
            keys0 == keys_of(follow_init(n)),
            gap_sum(follow.dview(), u) >= 0,
            !changed ==> forall|gi: int, j: int| is_prod(g, gi, j) ==> #[trigger] prod_done(g, n, f, follow.dview(), gi, j),
        decreases gap_sum(follow.dview(), u) + if changed { 1int } else { 0int },
    {
        changed = false;
        let ghost l0 = follow.dview();
        let ghost m0 = gap_sum(l0, u);
        let ne = lg.lg.entries.len();
        for gi in 0..ne
            invariant
                ne == g.len(),
                g == lg.lg.dview(),
                n == lg.ntwords.deep_view(),
                f == first.dview(),
                u == follow_universe(g, f),
                u.finite(),
                first.wf(),
                lg.lg.wf(),
                follow_ready(g, n, f),
                follow.wf(),
                follow_inv(g, n, f, follow.dview()),
                keys_of(follow.dview()) == keys0,
                gap_sum(follow.dview(), u) + (if changed { 1int } else { 0int }) <= m0,
                !changed ==> follow.dview() == l0,
                !changed ==> forall|gj: int, j: int| 0 <= gj < gi && is_prod(g, gj, j) ==> #[trigger] prod_done(g, n, f, follow.dview(), gj, j),
        {
            let entry = &lg.lg.entries[gi];
            let nb = entry.1.len();
            assert(entry.1.deep_view() == g[gi as int].1);
            for j in 0..nb
                invariant
                    nb == g[gi as int].1.len(),
                    0 <= gi < g.len(),
                    entry.1.deep_view() == g[gi as int].1,
                    entry.0@ == g[gi as int].0,
                    g == lg.lg.dview(),
                    n == lg.ntwords.deep_view(),
                    f == first.dview(),
                    u == follow_universe(g, f),
                    u.finite(),
                    first.wf(),
                    lg.lg.wf(),
                    follow_ready(g, n, f),
                    follow.wf(),
                    follow_inv(g, n, f, follow.dview()),
                    keys_of(follow.dview()) == keys0,
                    gap_sum(follow.dview(), u) + (if changed { 1int } else { 0int }) <= m0,
                    !changed ==> follow.dview() == l0,
                    !changed ==> forall|gj: int, j2: int| 0 <= gj < gi && is_prod(g, gj, j2) ==> #[trigger] prod_done(g, n, f, follow.dview(), gj, j2),
                    !changed ==> forall|j2: int| 0 <= j2 < j ==> #[trigger] prod_done(g, n, f, follow.dview(), gi as int, j2),
            {
                let r = &entry.1[j];
                assert(r.deep_view() == g[gi as int].1[j as int]);
                assert(g[gi as int].1[j as int].len() > 0);
                assert(r@.len() == r.deep_view().len());
                let rl = r.len();
                for i in 0..rl - 1
                    invariant
                        rl == g[gi as int].1[j as int].len(),
                        rl > 0,
                        r.deep_view() == g[gi as int].1[j as int],
                        is_prod(g, gi as int, j as int),
                        g == lg.lg.dview(),
                        n == lg.ntwords.deep_view(),
                        f == first.dview(),
                        u == follow_universe(g, f),
                        first.wf(),
                        follow_ready(g, n, f),
                        follow.wf(),
                        follow_inv(g, n, f, follow.dview()),
                        keys_of(follow.dview()) == keys0,
                        gap_sum(follow.dview(), u) + (if changed { 1int } else { 0int }) <= m0,
                        !changed ==> follow.dview() == l0,
                        !changed ==> forall|gj: int, j2: int| 0 <= gj < gi && is_prod(g, gj, j2) ==> #[trigger] prod_done(g, n, f, follow.dview(), gj, j2),
                        !changed ==> forall|j2: int| 0 <= j2 < j ==> #[trigger] prod_done(g, n, f, follow.dview(), gi as int, j2),
                        !changed ==> forall|i2: int| 0 <= i2 < i ==> #[trigger] pos_ok(g, n, f, follow.dview(), gi as int, j as int, i2),
                {
                    let a = follow_at(first, follow, r, i, Ghost(g), Ghost(n), Ghost(gi as int), Ghost(j as int));
                    changed = changed || a;
                }
                let a = follow_end(follow, &entry.0, r, Ghost(g), Ghost(n), Ghost(f), Ghost(gi as int), Ghost(j as int));
                changed = changed || a;
                proof {
                    if !changed {
                        assert(prod_done(g, n, f, follow.dview(), gi as int, j as int));
                    }
                }
            }
        }
        proof {
            lemma_gap_sum_nonneg(follow.dview(), u);
        }
    }
    proof {
        let l = follow.dview();
        assert forall|i: int, x: Seq<char>| 0 <= i < l.len() implies (#[trigger] l[i].1.contains(x)
            <==> in_follow(g, n, f, l[i].0, x)) by {
            if in_follow(g, n, f, l[i].0, x) {
                let k = choose|k: nat| follow_step(g, n, f, l[i].0, x, k);
                lemma_follow_complete(g, n, f, l, l[i].0, x, k);
                assert(keys_of(l)[i] == l[i].0);
                lemma_holds_at(l, l[i].0);
                lemma_lookup_at(l, i);
            }
        }
    }
}

} // verus!
