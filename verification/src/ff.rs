use vstd::prelude::*;
use crate::dict::{Dict, keys_of, lemma_lookup_at, lookup, put};
use crate::first::{first_exact, first_ready, gen_first, in_first, nonempty_bodies, prods_of};
use crate::follow::{follow_init, follow_ready, gen_follow, in_follow, is_pos, is_prod, nullable_at, sym, last_sym};
use crate::history::{History, rule_text};
use crate::language::{Language, clone_grammar};
use crate::text::{clone_strings, contains_string, owned};

verus! {

broadcast use vstd::seq_lib::group_seq_properties;

/// The value of a table cell that holds no production.
pub open spec fn err_entry() -> (Seq<char>, Seq<Seq<char>>) {
    ("Err"@, Seq::<Seq<char>>::empty())
}

/// The columns of a table built over `cols`: its last word is replaced by `"#"`.
pub open spec fn table_cols(cols: Seq<Seq<char>>) -> Seq<Seq<char>> {
    cols.drop_last().push("#"@)
}

/// Stores `err_entry()` under `(r, c)` for each row `r`.
pub open spec fn init_rows(
    d: Seq<((Seq<char>, Seq<char>), (Seq<char>, Seq<Seq<char>>))>,
    c: Seq<char>,
    rows: Seq<Seq<char>>,
) -> Seq<((Seq<char>, Seq<char>), (Seq<char>, Seq<Seq<char>>))>
    decreases rows.len(),
{
    if rows.len() == 0 {
        d
    } else {
        put(init_rows(d, c, rows.drop_last()), (rows.last(), c), err_entry())
    }
}

/// The cells of a new table: column by column, each row of the column.
pub open spec fn init_cells(
    cols: Seq<Seq<char>>,
    rows: Seq<Seq<char>>,
) -> Seq<((Seq<char>, Seq<char>), (Seq<char>, Seq<Seq<char>>))>
    decreases cols.len(),
{
    if cols.len() == 0 {
        Seq::empty()
    } else {
        init_rows(init_cells(cols.drop_last(), rows), cols.last(), rows)
    }
}

/// Stores `val` under `(a, k)` for each `k` of `ks`, in order.
pub open spec fn put_all(
    d: Seq<((Seq<char>, Seq<char>), (Seq<char>, Seq<Seq<char>>))>,
    a: Seq<char>,
    ks: Seq<Seq<char>>,
    val: (Seq<char>, Seq<Seq<char>>),
) -> Seq<((Seq<char>, Seq<char>), (Seq<char>, Seq<Seq<char>>))>
    decreases ks.len(),
{
    if ks.len() == 0 {
        d
    } else {
        put(put_all(d, a, ks.drop_last(), val), (a, ks.last()), val)
    }
}

/// The FIRST list of a production body: its first symbol when that is a
/// terminal, else the FIRST list of that symbol.
pub open spec fn body_first(
    t: Seq<Seq<char>>,
    f: Seq<(Seq<char>, Seq<Seq<char>>)>,
    v: Seq<Seq<char>>,
) -> Seq<Seq<char>> {
    if t.contains(v[0]) {
        seq![v[0]]
    } else {
        lookup(f, v[0]).unwrap()
    }
}

/// The table after entering production `a -> v`: under each terminal of the
/// body's FIRST list, and, when that list holds `"nil"`, under each symbol of
/// the FOLLOW list of `a`.
pub open spec fn enter_prod(
    d: Seq<((Seq<char>, Seq<char>), (Seq<char>, Seq<Seq<char>>))>,
    t: Seq<Seq<char>>,
    f: Seq<(Seq<char>, Seq<Seq<char>>)>,
    fo: Seq<(Seq<char>, Seq<Seq<char>>)>,
    a: Seq<char>,
    v: Seq<Seq<char>>,
) -> Seq<((Seq<char>, Seq<char>), (Seq<char>, Seq<Seq<char>>))> {
    let k1 = body_first(t, f, v);
    let d1 = put_all(d, a, k1, (a, v));
    if k1.contains("nil"@) {
        put_all(d1, a, lookup(fo, a).unwrap(), (a, v))
    } else {
        d1
    }
}

/// The table after entering the productions `ps` of `a`, in order.
pub open spec fn enter_bodies(
    d: Seq<((Seq<char>, Seq<char>), (Seq<char>, Seq<Seq<char>>))>,
    t: Seq<Seq<char>>,
    f: Seq<(Seq<char>, Seq<Seq<char>>)>,
    fo: Seq<(Seq<char>, Seq<Seq<char>>)>,
    a: Seq<char>,
    ps: Seq<Seq<Seq<char>>>,
) -> Seq<((Seq<char>, Seq<char>), (Seq<char>, Seq<Seq<char>>))>
    decreases ps.len(),
{
    if ps.len() == 0 {
        d
    } else {
        enter_prod(enter_bodies(d, t, f, fo, a, ps.drop_last()), t, f, fo, a, ps.last())
    }
}

/// The table after entering every production of the grammar, head by head
/// in the grammar's order.
pub open spec fn enter_grammar(
    d: Seq<((Seq<char>, Seq<char>), (Seq<char>, Seq<Seq<char>>))>,
    t: Seq<Seq<char>>,
    f: Seq<(Seq<char>, Seq<Seq<char>>)>,
    fo: Seq<(Seq<char>, Seq<Seq<char>>)>,
    g: Seq<(Seq<char>, Seq<Seq<Seq<char>>>)>,
) -> Seq<((Seq<char>, Seq<char>), (Seq<char>, Seq<Seq<char>>))>
    decreases g.len(),
{
    if g.len() == 0 {
        d
    } else {
        enter_bodies(enter_grammar(d, t, f, fo, g.drop_last()), t, f, fo, g.last().0, g.last().1)
    }
}

/// The LL(1) analysis table: rows are nonterminals, columns terminals, and
/// each cell the production to apply (`Err` where there is none).
pub struct Table {
    col_index: Vec<String>,
    row_index: Vec<String>,
    data: Dict<(String, String), (String, Vec<String>)>,
    err: (String, Vec<String>),
}

impl Table {
    pub closed spec fn cols(&self) -> Seq<Seq<char>> {
        self.col_index.deep_view()
    }

    pub closed spec fn rows(&self) -> Seq<Seq<char>> {
        self.row_index.deep_view()
    }

    /// The cells that hold a value, in the order they were first stored.
    pub closed spec fn cells(&self) -> Seq<((Seq<char>, Seq<char>), (Seq<char>, Seq<Seq<char>>))> {
        self.data.dview()
    }

    pub closed spec fn wf(&self) -> bool {
        &&& self.data.wf()
        &&& self.err.0@ == "Err"@
        &&& self.err.1@.len() == 0
    }

    /// A table whose cells, over the rows `row_index` and the columns
    /// `col_index` with its last word replaced by `"#"`, all hold `Err`.
    pub fn new(col_index: Vec<String>, row_index: Vec<String>) -> (t: Table)
        requires
            col_index@.len() > 0,
        ensures
            t.wf(),
            t.cols() == table_cols(col_index.deep_view()),
            t.rows() == row_index.deep_view(),
            t.cells() == init_cells(table_cols(col_index.deep_view()), row_index.deep_view()),
    {
        let mut data: Dict<(String, String), (String, Vec<String>)> = Dict::new();
        let err = (owned("Err"), Vec::new());
        assert(err.1.deep_view() =~= Seq::<Seq<char>>::empty());
        let mut col_index = col_index;
        let ghost c0 = col_index.deep_view();
        let last = col_index.len() - 1;
        col_index.remove(last);
        col_index.push(owned("#"));
        assert(col_index.deep_view() =~= table_cols(c0));
        let nc = col_index.len();
        let nr = row_index.len();
        let ghost cols = col_index.deep_view();
        let ghost rows = row_index.deep_view();
        for ci in 0..nc
            invariant
                nc == cols.len(),
                nr == rows.len(),
                cols == col_index.deep_view(),
                rows == row_index.deep_view(),
                err.0@ == "Err"@,
                err.1.deep_view() == Seq::<Seq<char>>::empty(),
                data.wf(),
                data.dview() == init_cells(cols.take(ci as int), rows),
        {
            assert(cols.take(ci + 1).drop_last() =~= cols.take(ci as int));
            let ghost d0 = data.dview();
            for ri in 0..nr
                invariant
                    nc == cols.len(),
                    nr == rows.len(),
                    0 <= ci < nc,
                    cols == col_index.deep_view(),
                    rows == row_index.deep_view(),
                    err.0@ == "Err"@,
                    err.1.deep_view() == Seq::<Seq<char>>::empty(),
                    data.wf(),
                    data.dview() == init_rows(d0, cols[ci as int], rows.take(ri as int)),
            {
                assert(rows.take(ri + 1).drop_last() =~= rows.take(ri as int));
                let key = (row_index[ri].clone(), col_index[ci].clone());
                let val = (err.0.clone(), clone_strings(&err.1));
                data.insert(key, val);
            }
            assert(rows.take(nr as int) =~= rows);
        }
        assert(cols.take(nc as int) =~= cols);
        Table { col_index, row_index, data, err }
    }

    /// Stores a production in a cell.
    pub fn insert(&mut self, key: (String, String), v: (String, Vec<String>))
        requires
            old(self).wf(),
        ensures
            final(self).wf(),
            final(self).cols() == old(self).cols(),
            final(self).rows() == old(self).rows(),
            final(self).cells() == put(old(self).cells(), key.deep_view(), v.deep_view()),
    {
        self.data.insert(key, v);
    }

    /// The cells of a table are stored under distinct keys.
    pub proof fn lemma_keys_distinct(&self)
        requires
            self.wf(),
        ensures
            keys_of(self.cells()).no_duplicates(),
    {
    }

    /// A cell read after storing `v` in cell `k` (see `insert` and `index`)
    /// gives `v`, any other cell reads as it did before, and a cell in which
    /// nothing was ever stored reads `Err`.
    pub proof fn lemma_read_after_write(
        &self,
        k: (Seq<char>, Seq<char>),
        v: (Seq<char>, Seq<Seq<char>>),
        other: (Seq<char>, Seq<char>),
    )
        requires
            self.wf(),
        ensures
            cell_value(put(self.cells(), k, v), k) == v,
            other != k ==> cell_value(put(self.cells(), k, v), other) == cell_value(self.cells(), other),
            !keys_of(self.cells()).contains(other) ==> cell_value(self.cells(), other) == err_entry(),
    {
        crate::dict::lemma_put(self.cells(), k, v);
    }

    /// The production in a cell, or `Err` when the cell holds none.
    pub fn index(&self, key: &(String, String)) -> (r: &(String, Vec<String>))
        requires
            self.wf(),
        ensures
            r.deep_view() == cell_value(self.cells(), key.deep_view()),
    {
        match self.data.get(key) {
            Some(v) => v,
            None => &self.err,
        }
    }
}

/// The value of a cell: the stored production, or `Err`.
pub open spec fn cell_value(
    d: Seq<((Seq<char>, Seq<char>), (Seq<char>, Seq<Seq<char>>))>,
    k: (Seq<char>, Seq<char>),
) -> (Seq<char>, Seq<Seq<char>>) {
    match lookup(d, k) {
        Some(v) => v,
        None => err_entry(),
    }
}

} // verus!

verus! {

/// Entering the grammar into the table reads only lists that exist.
pub open spec fn table_ready(
    g: Seq<(Seq<char>, Seq<Seq<Seq<char>>>)>,
    t: Seq<Seq<char>>,
    f: Seq<(Seq<char>, Seq<Seq<char>>)>,
    fo: Seq<(Seq<char>, Seq<Seq<char>>)>,
) -> bool {
    &&& nonempty_bodies(g)
    &&& forall|gi: int, j: int|
        is_prod(g, gi, j) && !t.contains(#[trigger] g[gi].1[j][0]) ==> keys_of(f).contains(g[gi].1[j][0])
    &&& forall|gi: int, j: int|
        is_prod(g, gi, j) && #[trigger] body_first(t, f, g[gi].1[j]).contains("nil"@)
            ==> keys_of(fo).contains(g[gi].0)
}

/// Stores `val` under `(a, k)` for each `k` of `ks`.
fn insert_all(table: &mut Table, a: &String, ks: &Vec<String>, val: &(String, Vec<String>))
    requires
        old(table).wf(),
    ensures
        final(table).wf(),
        final(table).cols() == old(table).cols(),
        final(table).rows() == old(table).rows(),
        final(table).cells() == put_all(old(table).cells(), a@, ks.deep_view(), val.deep_view()),
{
    let n = ks.len();
    let ghost d0 = table.cells();
    for k in 0..n
        invariant
            n == ks@.len(),
            table.wf(),
            table.cols() == old(table).cols(),
            table.rows() == old(table).rows(),
            d0 == old(table).cells(),
            table.cells() == put_all(d0, a@, ks.deep_view().take(k as int), val.deep_view()),
    {
        assert(ks.deep_view().take(k + 1).drop_last() =~= ks.deep_view().take(k as int));
        let key = (a.clone(), ks[k].clone());
        let v = (val.0.clone(), clone_strings(&val.1));
        table.insert(key, v);
    }
    assert(ks.deep_view().take(n as int) =~= ks.deep_view());
}


/// An LL(1) analyser: the FIRST and FOLLOW sets of a language, its analysis
/// table, and the log of the productions applied so far.
pub struct FF {
    source_language: Dict<String, Vec<Vec<String>>>,
    first: Dict<String, Vec<String>>,
    follow: Dict<String, Vec<String>>,
    lg: Language,
    table: Table,
    history: History,
}

impl FF {
    /// Enters every production of the language into the table: under the
    /// terminals of the body's FIRST list, and under the FOLLOW list of the
    /// head when that FIRST list holds `"nil"`.
    #[verifier::spinoff_prover]
    fn build_table(&mut self)
        requires
            old(self).table.wf(),
            old(self).lg.lg.wf(),
            old(self).first.wf(),
            old(self).follow.wf(),
            table_ready(old(self).lg.lg.dview(), old(self).lg.twords.deep_view(), old(self).first.dview(), old(self).follow.dview()),
        ensures
            final(self).table.wf(),
            final(self).table.cols() == old(self).table.cols(),
            final(self).table.rows() == old(self).table.rows(),
            final(self).table.cells() == enter_grammar(
                old(self).table.cells(),
                old(self).lg.twords.deep_view(),
                old(self).first.dview(),
                old(self).follow.dview(),
                old(self).lg.lg.dview(),
            ),
            final(self).lg == old(self).lg,
            final(self).first == old(self).first,
            final(self).follow == old(self).follow,
            final(self).source_language == old(self).source_language,
            final(self).history == old(self).history,
    {
        let ghost old_table = self.table;
        let table = &mut self.table;
        let lg = &self.lg;
        let first = &self.first;
        let follow = &self.follow;

    let ghost g = lg.lg.dview();
    let ghost t = lg.twords.deep_view();
    let ghost f = first.dview();
    let ghost fo = follow.dview();
    let ghost d0 = table.cells();
    let nil = owned("nil");
    let ne = lg.lg.entries.len();
    for gi in 0..ne
        invariant
            ne == g.len(),
            g == lg.lg.dview(),
            t == lg.twords.deep_view(),
            f == first.dview(),
            fo == follow.dview(),
            nil@ == "nil"@,
            first.wf(),
            follow.wf(),
            table_ready(g, t, f, fo),
            table.wf(),
            table.cols() == old_table.cols(),
            table.rows() == old_table.rows(),
            d0 == old_table.cells(),
            table.cells() == enter_grammar(d0, t, f, fo, g.take(gi as int)),
    {
        assert(g.take(gi + 1).drop_last() =~= g.take(gi as int));
        let entity = &lg.lg.entries[gi];
        let ghost ps = g[gi as int].1;
        let ghost a = g[gi as int].0;
        assert(entity.1.deep_view() == ps);
        let ghost d1 = table.cells();
        let nb = entity.1.len();
        for j in 0..nb
            invariant
                nb == ps.len(),
                0 <= gi < g.len(),
                ps == g[gi as int].1,
                a == g[gi as int].0,
                entity.1.deep_view() == ps,
                entity.0@ == a,
                g == lg.lg.dview(),
                t == lg.twords.deep_view(),
                f == first.dview(),
                fo == follow.dview(),
                nil@ == "nil"@,
                first.wf(),
                follow.wf(),
                table_ready(g, t, f, fo),
                table.wf(),
                table.cols() == old_table.cols(),
                table.rows() == old_table.rows(),
                table.cells() == enter_bodies(d1, t, f, fo, a, ps.take(j as int)),
        {
            assert(ps.take(j + 1).drop_last() =~= ps.take(j as int));
            let v = &entity.1[j];
            let ghost vv = ps[j as int];
            assert(v.deep_view() == vv);
            assert(is_prod(g, gi as int, j as int));
            assert(g[gi as int].1[j as int].len() > 0);
            let fst: Vec<String>;
            if contains_string(&lg.twords, &v[0]) {
                let mut one: Vec<String> = Vec::new();
                one.push(v[0].clone());
                assert(one.deep_view() =~= seq![vv[0]]);
                fst = one;
            } else {
                assert(keys_of(f).contains(vv[0]));
                fst = clone_strings(first.get(&v[0]).unwrap());
            }
            assert(fst.deep_view() == body_first(t, f, vv));
            let val = (entity.0.clone(), clone_strings(v));
            assert(val.deep_view() == (a, vv));
            insert_all(table, &entity.0, &fst, &val);
            if contains_string(&fst, &nil) {
                assert(keys_of(fo).contains(a));
                let fol = clone_strings(follow.get(&entity.0).unwrap());
                insert_all(table, &entity.0, &fol, &val);
            }
        }
        assert(ps.take(nb as int) =~= ps);
    }
    assert(g.take(ne as int) =~= g);
    }
}

} // verus!

verus! {

/// A production body derives `"nil"` first: it starts with `"nil"`, or with
/// a nonterminal whose FIRST set holds `"nil"`.
pub open spec fn body_nullable(
    g: Seq<(Seq<char>, Seq<Seq<Seq<char>>>)>,
    t: Seq<Seq<char>>,
    n: Seq<Seq<char>>,
    v: Seq<Seq<char>>,
) -> bool {
    if t.contains(v[0]) {
        v[0] == "nil"@
    } else {
        in_first(g, t, n, v[0], "nil"@)
    }
}

/// Building an analyser for a language reads only entries that exist: every
/// production has a symbol; a nonterminal that starts a production of a
/// nonterminal head, and every non-terminal first symbol, has productions; a
/// nonterminal followed by a nonterminal whose FIRST set holds `"nil"` is
/// followed by a nonterminal; a production that a nonterminal ends, or whose
/// body derives `"nil"` first, has a nonterminal head; and there is at least
/// one terminal word.
pub open spec fn ff_ready(
    g: Seq<(Seq<char>, Seq<Seq<Seq<char>>>)>,
    t: Seq<Seq<char>>,
    n: Seq<Seq<char>>,
) -> bool {
    &&& first_ready(g, n)
    &&& t.len() > 0
    &&& forall|gi: int, j: int, i: int|
        is_pos(g, gi, j, i) && n.contains(#[trigger] sym(g, gi, j, i)) && keys_of(g).contains(
            sym(g, gi, j, i + 1),
        ) && in_first(g, t, n, sym(g, gi, j, i + 1), "nil"@) ==> n.contains(sym(g, gi, j, i + 1))
    &&& forall|gi: int, j: int|
        is_prod(g, gi, j) && n.contains(#[trigger] last_sym(g, gi, j)) ==> n.contains(g[gi].0)
    &&& forall|gi: int, j: int|
        is_prod(g, gi, j) && !t.contains(#[trigger] g[gi].1[j][0]) ==> keys_of(g).contains(g[gi].1[j][0])
    &&& forall|gi: int, j: int|
        is_prod(g, gi, j) && #[trigger] body_nullable(g, t, n, g[gi].1[j]) ==> n.contains(g[gi].0)
}

proof fn lemma_first_lookup(
    g: Seq<(Seq<char>, Seq<Seq<Seq<char>>>)>,
    t: Seq<Seq<char>>,
    n: Seq<Seq<char>>,
    f: Seq<(Seq<char>, Seq<Seq<char>>)>,
    y: Seq<char>,
)
    requires
        keys_of(g).no_duplicates(),
        first_exact(g, t, n, f),
    ensures
        lookup(f, y) is Some <==> keys_of(g).contains(y),
        lookup(f, y) is Some ==> forall|x: Seq<char>| #[trigger] lookup(f, y).unwrap().contains(x) <==> in_first(g, t, n, y, x),
{
    if keys_of(f).contains(y) {
        let i = keys_of(f).index_of(y);
        lemma_lookup_at(f, i);
        assert(f[i].0 == keys_of(f)[i]);
        assert forall|x: Seq<char>| #[trigger] lookup(f, y).unwrap().contains(x) <==> in_first(g, t, n, y, x) by {
            assert(f[i].1.contains(x) <==> in_first(g, t, n, f[i].0, x));
        }
    }
}

/// What `FF::new` builds from language `lg`: an analyser of that language
/// (as it is now, also as its source) whose FIRST lists are those of
/// `first_exact`, in the order of `first_swept`, whose FOLLOW lists, one
/// per nonterminal, start with `"#"`, hold no symbol twice and hold exactly
/// the FOLLOW sets, whose table is the
/// grammar entered into the empty table, and whose history is empty.
pub open spec fn ff_built(ff: FF, lg: Language) -> bool {
    &&& ff.wf()
    &&& ff.language().same_as(&lg)
    &&& ff.source() == lg.lg.dview()
    &&& first_exact(lg.lg.dview(), lg.twords.deep_view(), lg.ntwords.deep_view(), ff.first_lists())
    &&& crate::first::first_swept(lg.lg.dview(), lg.twords.deep_view(), lg.ntwords.deep_view(), ff.first_lists())
    &&& keys_of(ff.follow_lists()) == keys_of(follow_init(lg.ntwords.deep_view()))
    &&& forall|i: int| 0 <= i < ff.follow_lists().len() ==> #[trigger] crate::follow::follow_shaped(ff.follow_lists()[i].1)
    &&& forall|i: int, x: Seq<char>|
        0 <= i < ff.follow_lists().len() ==> (#[trigger] ff.follow_lists()[i].1.contains(x)
            <==> in_follow(lg.lg.dview(), lg.ntwords.deep_view(), ff.first_lists(), ff.follow_lists()[i].0, x))
    &&& ff.table().cols() == table_cols(lg.twords.deep_view())
    &&& ff.table().rows() == lg.ntwords.deep_view()
    &&& ff.table().cells() == enter_grammar(
        init_cells(table_cols(lg.twords.deep_view()), lg.ntwords.deep_view()),
        lg.twords.deep_view(),
        ff.first_lists(),
        ff.follow_lists(),
        lg.lg.dview(),
    )
    &&& ff.history().steps() == 0
    &&& ff.history().actions().len() == 0
    &&& ff.history().rules().len() == 0
}

impl FF {
    /// The language analysed.
    pub closed spec fn language(&self) -> Language {
        self.lg
    }

    /// The FIRST lists, one per head of the grammar.
    pub closed spec fn first_lists(&self) -> Seq<(Seq<char>, Seq<Seq<char>>)> {
        self.first.dview()
    }

    /// The FOLLOW lists, one per nonterminal.
    pub closed spec fn follow_lists(&self) -> Seq<(Seq<char>, Seq<Seq<char>>)> {
        self.follow.dview()
    }

    /// The analysis table.
    pub closed spec fn table(&self) -> Table {
        self.table
    }

    /// The log of the productions applied.
    pub closed spec fn history(&self) -> History {
        self.history
    }

    /// The grammar as it was when the analyser was built.
    pub closed spec fn source(&self) -> Seq<(Seq<char>, Seq<Seq<Seq<char>>>)> {
        self.source_language.dview()
    }

    pub closed spec fn wf(&self) -> bool {
        &&& self.source_language.wf()
        &&& self.first.wf()
        &&& self.follow.wf()
        &&& self.lg.lg.wf()
        &&& self.table.wf()
        &&& self.history.wf()
    }

    /// Builds the analyser of a language: its FIRST sets, its FOLLOW sets, and
    /// its analysis table over the terminal words (the last replaced by `"#"`)
    /// and the nonterminal words (see `ff_built`).
    pub fn new(lg: Language) -> (ff: FF)
        requires
            lg.lg.wf(),
            ff_ready(lg.lg.dview(), lg.twords.deep_view(), lg.ntwords.deep_view()),
        ensures
            ff.language() == lg,
            ff_built(ff, lg),
    {
        let ghost g = lg.lg.dview();
        let ghost t = lg.twords.deep_view();
        let ghost n = lg.ntwords.deep_view();
        let mut first: Dict<String, Vec<String>> = Dict::new();
        let mut follow: Dict<String, Vec<String>> = Dict::new();
        gen_first(&mut first, &lg);
        let ghost f = first.dview();
        proof {
            assert forall|gi: int, j: int, i: int|
                is_pos(g, gi, j, i) && n.contains(#[trigger] sym(g, gi, j, i)) && nullable_at(
                    f,
                    sym(g, gi, j, i + 1),
                ) implies n.contains(sym(g, gi, j, i + 1)) by {
                lemma_first_lookup(g, t, n, f, sym(g, gi, j, i + 1));
            }
        }
        gen_follow(&first, &mut follow, &lg);
        let ghost fo = follow.dview();
        proof {
            assert forall|gi: int, j: int|
                is_prod(g, gi, j) && !t.contains(#[trigger] g[gi].1[j][0]) implies keys_of(f).contains(g[gi].1[j][0]) by {
            }
            assert forall|gi: int, j: int|
                is_prod(g, gi, j) && #[trigger] body_first(t, f, g[gi].1[j]).contains("nil"@)
                    implies keys_of(fo).contains(g[gi].0) by {
                let v = g[gi].1[j];
                if !t.contains(v[0]) {
                    lemma_first_lookup(g, t, n, f, v[0]);
                } else {
                    assert(seq![v[0]].contains("nil"@));
                    assert(seq![v[0]][0] == v[0]);
                }
                assert(body_nullable(g, t, n, v));
                crate::follow::lemma_follow_init_keys(n);
            }
        }
        let source_language = clone_grammar(&lg.lg);
        let cols = clone_strings(&lg.twords);
        let rows = clone_strings(&lg.ntwords);
        let table = Table::new(cols, rows);
        let mut ff = FF {
            source_language,
            first,
            follow,
            lg,
            table,
            history: History::new(),
        };
        ff.build_table();
        ff
    }
}

} // verus!

verus! {

/// How a sentence is cut into words: characters are gathered until the
/// gathered text is a known word, which is then taken; what is left at the
/// end is dropped.
pub open spec fn segment_state(cs: Seq<char>, dict: Seq<Seq<char>>) -> (Seq<Seq<char>>, Seq<char>)
    decreases cs.len(),
{
    if cs.len() == 0 {
        (Seq::<Seq<char>>::empty(), Seq::<char>::empty())
    } else {
        let (w, t) = segment_state(cs.drop_last(), dict);
        let t2 = t.push(cs.last());
        if dict.contains(t2) {
            (w.push(t2), Seq::<char>::empty())
        } else {
            (w, t2)
        }
    }
}

/// The words of a sentence (see `segment_state`).
pub open spec fn sentence_words(cs: Seq<char>, dict: Seq<Seq<char>>) -> Seq<Seq<char>> {
    segment_state(cs, dict).0
}

/// The word at `pos`, or `"#"` past the end.
pub open spec fn cur_word(words: Seq<Seq<char>>, pos: nat) -> Seq<char> {
    if pos < words.len() {
        words[pos as int]
    } else {
        "#"@
    }
}

/// The symbols of a body that are not `"nil"`, last first: the order in which
/// they are pushed on the analysis stack.
pub open spec fn rev_nonnil(s: Seq<Seq<char>>) -> Seq<Seq<char>>
    decreases s.len(),
{
    if s.len() == 0 {
        Seq::<Seq<char>>::empty()
    } else {
        let rest = rev_nonnil(s.drop_first());
        if s[0] != "nil"@ {
            rest.push(s[0])
        } else {
            rest
        }
    }
}

/// The message of a failed analysis.
pub open spec fn error_text(focus: Seq<char>) -> Seq<char> {
    "Error when looking "@ + focus
}

/// One step of LL(1) analysis from stack `stack` at input position `pos`:
/// whether it ends the analysis, with which message, the next stack and
/// position, and the step to log (the word looked at and the production
/// applied) if one is applied.
pub open spec fn ll_step(
    d: Seq<((Seq<char>, Seq<char>), (Seq<char>, Seq<Seq<char>>))>,
    t: Seq<Seq<char>>,
    words: Seq<Seq<char>>,
    stack: Seq<Seq<char>>,
    pos: nat,
) -> (bool, Seq<char>, Seq<Seq<char>>, nat, Option<(Seq<char>, (Seq<char>, Seq<Seq<char>>))>) {
    let focus = stack.last();
    let word = cur_word(words, pos);
    if focus == "#"@ && word == "#"@ {
        (true, "Succeed"@, stack, pos, None)
    } else if t.contains(focus) || focus == "#"@ {
        if focus == word {
            (false, Seq::<char>::empty(), stack.drop_last(), pos + 1, None)
        } else {
            (true, error_text(focus), stack, pos, None)
        }
    } else {
        let data = cell_value(d, (focus, word));
        if data.0 == focus {
            (false, Seq::<char>::empty(), stack.drop_last() + rev_nonnil(data.1), pos, Some((word, data)))
        } else {
            (true, error_text(focus), stack, pos, None)
        }
    }
}

/// LL(1) analysis with at most `fuel` more steps: its message and the steps
/// it logs. A run that has used up its steps stops with the message for the
/// symbol on top of the stack.
pub open spec fn ll_run(
    d: Seq<((Seq<char>, Seq<char>), (Seq<char>, Seq<Seq<char>>))>,
    t: Seq<Seq<char>>,
    words: Seq<Seq<char>>,
    stack: Seq<Seq<char>>,
    pos: nat,
    fuel: nat,
) -> (Seq<char>, Seq<(Seq<char>, (Seq<char>, Seq<Seq<char>>))>)
    decreases fuel,
{
    let s = ll_step(d, t, words, stack, pos);
    if s.0 {
        (s.1, Seq::empty())
    } else if fuel == 0 {
        (error_text(stack.last()), Seq::empty())
    } else {
        let r = ll_run(d, t, words, s.2, s.3, (fuel - 1) as nat);
        (
            r.0,
            match s.4 {
                Some(e) => seq![e] + r.1,
                None => r.1,
            },
        )
    }
}

/// The actions that the log records for analysis steps.
pub open spec fn log_actions(log: Seq<(Seq<char>, (Seq<char>, Seq<Seq<char>>))>) -> Seq<Seq<char>> {
    Seq::new(log.len(), |i: int| "Anazying "@ + log[i].0)
}

/// The productions that the log records for analysis steps.
pub open spec fn log_rules(log: Seq<(Seq<char>, (Seq<char>, Seq<Seq<char>>))>) -> Seq<Seq<char>> {
    Seq::new(log.len(), |i: int| rule_text(log[i].1.0, log[i].1.1))
}

/// Cuts a sentence into words (see `segment_state`).
pub fn segment(sentence: &String, dict: &Vec<String>) -> (r: Vec<String>)
    ensures
        r.deep_view() == sentence_words(sentence@, dict.deep_view()),
{
    let cs = crate::text::chars_of(sentence.as_str());
    let mut words: Vec<String> = Vec::new();
    let mut temp = String::new();
    let n = cs.len();
    for i in 0..n
        invariant
            n == cs@.len(),
            (words.deep_view(), temp@) == segment_state(cs@.take(i as int), dict.deep_view()),
    {
        assert(cs@.take(i + 1).drop_last() =~= cs@.take(i as int));
        crate::text::push_char(&mut temp, cs[i]);
        if contains_string(dict, &temp) {
            let ghost old_w = words.deep_view();
            words.push(temp.clone());
            temp = String::new();
            assert(words.deep_view() =~= old_w.push(words@[words@.len() - 1]@));
        }
    }
    assert(cs@.take(n as int) =~= cs@);
    words
}

} // verus!

verus! {

impl FF {
    /// Analyses a sentence with the LL(1) table: cuts it into words, then
    /// runs the stack machine from `["#", first word]`, logging each
    /// production it applies; returns `"Succeed"` or the error for the symbol
    /// it could not match. The machine takes at most `usize::MAX` steps.
    #[verifier::spinoff_prover]
    pub fn analyze(&mut self, sentence: String) -> (status: String)
        requires
            old(self).wf(),
        ensures
            final(self).wf(),
            final(self).language() == old(self).language(),
            final(self).first_lists() == old(self).first_lists(),
            final(self).follow_lists() == old(self).follow_lists(),
            final(self).table() == old(self).table(),
            final(self).source() == old(self).source(),
            ({
                let run = ll_run(
                    old(self).table().cells(),
                    old(self).language().twords.deep_view(),
                    sentence_words(sentence@, old(self).language().words.deep_view()),
                    seq!["#"@, old(self).language().first_word@],
                    0,
                    usize::MAX as nat,
                );
                &&& status@ == run.0
                &&& final(self).history().steps() == old(self).history().steps() + run.1.len()
                &&& final(self).history().actions() == old(self).history().actions() + log_actions(run.1)
                &&& final(self).history().rules() == old(self).history().rules() + log_rules(run.1)
            }),
    {
        let ghost d = self.table.cells();
        let ghost t = self.lg.twords.deep_view();
        let words = segment(&sentence, &self.lg.words);
        let ghost wv = words.deep_view();
        let eof = owned("#");
        let mut stack: Vec<String> = Vec::new();
        stack.push(owned("#"));
        stack.push(self.lg.first_word.clone());
        assert(stack.deep_view() =~= seq!["#"@, self.lg.first_word@]);
        let ghost stack0 = stack.deep_view();
        let ghost total = ll_run(d, t, wv, stack0, 0, usize::MAX as nat);
        let ghost h0 = self.history;
        let ghost mut done: Seq<(Seq<char>, (Seq<char>, Seq<Seq<char>>))> = Seq::empty();
        let mut pos: usize = 0;
        let mut fuel: usize = usize::MAX;
        let nil = owned("nil");
        loop
            invariant
                d == self.table.cells(),
                t == self.lg.twords.deep_view(),
                wv == words.deep_view(),
                wv == sentence_words(sentence@, old(self).lg.words.deep_view()),
                stack0 == seq!["#"@, old(self).lg.first_word@],
                eof@ == "#"@,
                nil@ == "nil"@,
                self.wf(),
                self.lg == old(self).lg,
                self.first == old(self).first,
                self.follow == old(self).follow,
                self.table == old(self).table,
                self.source_language == old(self).source_language,
                h0 == old(self).history,
                stack@.len() >= 1,
                stack@[0]@ == "#"@,
                pos <= wv.len(),
                total == ll_run(d, t, wv, stack0, 0, usize::MAX as nat),
                total.0 == ll_run(d, t, wv, stack.deep_view(), pos as nat, fuel as nat).0,
                total.1 == done + ll_run(d, t, wv, stack.deep_view(), pos as nat, fuel as nat).1,
                self.history.steps() == h0.steps() + done.len(),
                self.history.actions() == h0.actions() + log_actions(done),
                self.history.rules() == h0.rules() + log_rules(done),
            decreases fuel,
        {
            let ghost sv = stack.deep_view();
            let sl = stack.len();
            let focus = stack[sl - 1].clone();
            assert(focus@ == sv.last());
            let word = if pos < words.len() {
                words[pos].clone()
            } else {
                eof.clone()
            };
            assert(word@ == cur_word(wv, pos as nat));
            let ghost step = ll_step(d, t, wv, sv, pos as nat);
            if focus == eof && word == eof {
                let s = owned("Succeed");
                assert(step.0);
                assert(step.1 == "Succeed"@);
                assert(ll_run(d, t, wv, sv, pos as nat, fuel as nat).0 == "Succeed"@);
                assert(total.1 =~= done + Seq::empty());
                return s;
            } else if contains_string(&self.lg.twords, &focus) || focus == eof {
                if focus == word {
                    if fuel == 0 {
                        let mut s = owned("Error when looking ");
                        s.append(focus.as_str());
                        assert(total.1 =~= done + Seq::empty());
                        return s;
                    }
                    assert(sl >= 2) by {
                        if sl == 1 {
                            assert(sv.last() == sv[0]);
                        }
                    }
                    stack.pop();
                    assert(stack.deep_view() =~= sv.drop_last());
                    pos = pos + 1;
                } else {
                    let mut s = owned("Error when looking ");
                    s.append(focus.as_str());
                    assert(total.1 =~= done + Seq::empty());
                    return s;
                }
            } else {
                let key = (focus.clone(), word.clone());
                let cell = self.table.index(&key);
                let data = (cell.0.clone(), clone_strings(&cell.1));
                assert(data.deep_view() == cell_value(d, (focus@, word@)));
                if data.0 == focus {
                    if fuel == 0 {
                        let mut s = owned("Error when looking ");
                        s.append(focus.as_str());
                        assert(total.1 =~= done + Seq::empty());
                        return s;
                    }
                    assert(sl >= 2) by {
                        if sl == 1 {
                            assert(sv.last() == sv[0]);
                        }
                    }
                    stack.pop();
                    assert(stack.deep_view() =~= sv.drop_last());
                    self.history.log(&word, &data);
                    let ghost e = (word@, data.deep_view());
                    proof {
                        assert(log_actions(done.push(e)) =~= log_actions(done).push("Anazying "@ + word@));
                        assert(log_rules(done.push(e)) =~= log_rules(done).push(rule_text(data.0@, data.1.deep_view())));
                        assert(done.push(e) + ll_run(d, t, wv, step.2, step.3, (fuel - 1) as nat).1
                            =~= done + (seq![e] + ll_run(d, t, wv, step.2, step.3, (fuel - 1) as nat).1));
                        done = done.push(e);
                    }
                    let body = &data.1;
                    let nb = body.len();
                    let ghost base = stack.deep_view();
                    for k in 0..nb
                        invariant
                            nb == body@.len(),
                            nil@ == "nil"@,
                            base.len() >= 1,
                            base[0] == "#"@,
                            stack.deep_view() == base + rev_nonnil(body.deep_view().subrange(nb - k, nb as int)),
                    {
                        let ghost suf = body.deep_view().subrange(nb - k, nb as int);
                        let ghost suf2 = body.deep_view().subrange(nb - k - 1, nb as int);
                        assert(suf2.drop_first() =~= suf);
                        assert(suf2[0] == body@[nb - k - 1]@);
                        let w = &body[nb - 1 - k];
                        if *w != nil {
                            let ghost before = stack.deep_view();
                            stack.push(w.clone());
                            assert(stack.deep_view() =~= before.push(w@));
                        }
                        assert(stack.deep_view() =~= base + rev_nonnil(suf2));
                    }
                    assert(body.deep_view().subrange(0, nb as int) =~= body.deep_view());
                    assert(stack.deep_view() =~= step.2);
                    assert(stack@[0]@ == "#"@) by {
                        assert(stack.deep_view()[0] == base[0]);
                    }
                } else {
                    let mut s = owned("Error when looking ");
                    s.append(focus.as_str());
                    assert(total.1 =~= done + Seq::empty());
                    return s;
                }
            }
            fuel = fuel - 1;
        }
    }

    /// The FIRST list stored under `w`.
    pub fn first_of(&self, w: &String) -> (r: Option<&Vec<String>>)
        requires
            self.wf(),
        ensures
            r is None <==> lookup(self.first_lists(), w@) is None,
            r matches Some(v) ==> lookup(self.first_lists(), w@) == Some(v.deep_view()),
    {
        self.first.get(w)
    }

    /// The log of the productions applied so far, as a table.
    pub fn get_history(&self) -> (s: String)
        requires
            self.wf(),
        ensures
            s@ == "step\taction\trule\n"@ + crate::history::history_lines(
                self.history().actions(),
                self.history().rules(),
                self.history().steps(),
            ),
    {
        self.history.render()
    }
}

} // verus!

verus! {

/// Words each followed by a tab.
pub open spec fn tabbed(ws: Seq<Seq<char>>) -> Seq<char>
    decreases ws.len(),
{
    if ws.len() == 0 {
        Seq::<char>::empty()
    } else {
        tabbed(ws.drop_last()) + ws.last() + "\t"@
    }
}

/// How a cell is written: the head, `->` unless it is `Err`, the body, a tab.
pub open spec fn cell_text(v: (Seq<char>, Seq<Seq<char>>)) -> Seq<char> {
    v.0 + (if v.0 != "Err"@ {
        "->"@
    } else {
        Seq::<char>::empty()
    }) + crate::history::join_all(v.1) + "\t"@
}

/// The cells of row `r` over the columns `cols`.
pub open spec fn row_text(
    d: Seq<((Seq<char>, Seq<char>), (Seq<char>, Seq<Seq<char>>))>,
    r: Seq<char>,
    cols: Seq<Seq<char>>,
) -> Seq<char>
    decreases cols.len(),
{
    if cols.len() == 0 {
        Seq::<char>::empty()
    } else {
        row_text(d, r, cols.drop_last()) + cell_text(cell_value(d, (r, cols.last())))
    }
}

/// The rows `rows`, each its name, a tab, its cells and a newline.
pub open spec fn rows_text(
    d: Seq<((Seq<char>, Seq<char>), (Seq<char>, Seq<Seq<char>>))>,
    rows: Seq<Seq<char>>,
    cols: Seq<Seq<char>>,
) -> Seq<char>
    decreases rows.len(),
{
    if rows.len() == 0 {
        Seq::<char>::empty()
    } else {
        rows_text(d, rows.drop_last(), cols) + rows.last() + "\t"@ + row_text(d, rows.last(), cols) + "\n"@
    }
}

/// The table as text: a header of the columns, then the rows.
pub open spec fn table_text(
    cols: Seq<Seq<char>>,
    rows: Seq<Seq<char>>,
    d: Seq<((Seq<char>, Seq<char>), (Seq<char>, Seq<Seq<char>>))>,
) -> Seq<char> {
    "***\t"@ + tabbed(cols) + "\n"@ + rows_text(d, rows, cols) + "\n"@
}

/// Each entry of an association list: the key, a tab, the list as `{:?}`
/// writes it, a newline.
pub open spec fn lists_text(l: Seq<(Seq<char>, Seq<Seq<char>>)>) -> Seq<char>
    decreases l.len(),
{
    if l.len() == 0 {
        Seq::<char>::empty()
    } else {
        lists_text(l.drop_last()) + l.last().0 + "\t"@ + crate::text::debug_list(l.last().1) + "\n"@
    }
}

impl Table {
    /// The table as text (see `table_text`).
    pub fn render(&self) -> (s: String)
        requires
            self.wf(),
        ensures
            s@ == table_text(self.cols(), self.rows(), self.cells()),
    {
        let ghost cols = self.col_index.deep_view();
        let ghost rows = self.row_index.deep_view();
        let ghost d = self.data.dview();
        let mut s = owned("***\t");
        let nc = self.col_index.len();
        let ghost s0 = s@;
        for ci in 0..nc
            invariant
                nc == cols.len(),
                cols == self.col_index.deep_view(),
                s@ == s0 + tabbed(cols.take(ci as int)),
        {
            assert(cols.take(ci + 1).drop_last() =~= cols.take(ci as int));
            s.append(self.col_index[ci].as_str());
            s.append("\t");
        }
        assert(cols.take(nc as int) =~= cols);
        s.append("\n");
        let ghost s1 = s@;
        let nr = self.row_index.len();
        for ri in 0..nr
            invariant
                nr == rows.len(),
                nc == cols.len(),
                cols == self.col_index.deep_view(),
                rows == self.row_index.deep_view(),
                d == self.data.dview(),
                self.wf(),
                s@ == s1 + rows_text(d, rows.take(ri as int), cols),
        {
            assert(rows.take(ri + 1).drop_last() =~= rows.take(ri as int));
            let r = &self.row_index[ri];
            s.append(r.as_str());
            s.append("\t");
            let ghost s2 = s@;
            for ci in 0..nc
                invariant
                    nc == cols.len(),
                    cols == self.col_index.deep_view(),
                    d == self.data.dview(),
                    self.wf(),
                    r@ == rows[ri as int],
                    s@ == s2 + row_text(d, r@, cols.take(ci as int)),
            {
                assert(cols.take(ci + 1).drop_last() =~= cols.take(ci as int));
                let key = (r.clone(), self.col_index[ci].clone());
                assert(key.deep_view() == (r@, cols[ci as int]));
                assert(cols.take(ci + 1).last() == cols[ci as int]);
                let v = self.index(&key);
                s.append(v.0.as_str());
                let err = owned("Err");
                if v.0 != err {
                    s.append("->");
                }
                let nb = v.1.len();
                let ghost s3 = s@;
                for bi in 0..nb
                    invariant
                        nb == v.1@.len(),
                        s@ == s3 + crate::history::join_all(v.1.deep_view().take(bi as int)),
                {
                    assert(v.1.deep_view().take(bi + 1).drop_last() =~= v.1.deep_view().take(bi as int));
                    s.append(v.1[bi].as_str());
                }
                assert(v.1.deep_view().take(nb as int) =~= v.1.deep_view());
                s.append("\t");
                assert(s@ =~= s2 + row_text(d, r@, cols.take(ci + 1)));
            }
            assert(cols.take(nc as int) =~= cols);
            s.append("\n");
            assert(s@ =~= s1 + rows_text(d, rows.take(ri + 1), cols));
        }
        assert(rows.take(nr as int) =~= rows);
        s.append("\n");
        s
    }
}

/// Each entry of a dictionary of lists (see `lists_text`).
fn lists_render(l: &Dict<String, Vec<String>>) -> (s: String)
    ensures
        s@ == lists_text(l.dview()),
{
    let ghost lv = l.dview();
    let mut s = String::new();
    let n = l.entries.len();
    for i in 0..n
        invariant
            n == lv.len(),
            lv == l.dview(),
            s@ == lists_text(lv.take(i as int)),
    {
        assert(lv.take(i + 1).drop_last() =~= lv.take(i as int));
        let e = &l.entries[i];
        assert(lv[i as int] == (e.0@, e.1.deep_view()));
        s.append(e.0.as_str());
        s.append("\t");
        let t = crate::text::debug_text(&e.1);
        s.append(t.as_str());
        s.append("\n");
    }
    assert(lv.take(n as int) =~= lv);
    s
}

/// An LL(1) analyser as text: the FIRST lists, the FOLLOW lists and the
/// table.
pub open spec fn ff_text(ff: FF) -> Seq<char> {
    "First collection is:\n"@ + lists_text(ff.first_lists()) + "\n\nFollow collection is:\n"@ + lists_text(
        ff.follow_lists(),
    ) + "\n\nTable is:\n"@ + table_text(ff.table().cols(), ff.table().rows(), ff.table().cells())
}

impl FF {
    /// The analyser as text (see `ff_text`).
    pub fn render(&self) -> (s: String)
        requires
            self.wf(),
        ensures
            s@ == ff_text(*self),
    {
        let mut s = owned("First collection is:\n");
        let a = lists_render(&self.first);
        s.append(a.as_str());
        s.append("\n\nFollow collection is:\n");
        let b = lists_render(&self.follow);
        s.append(b.as_str());
        s.append("\n\nTable is:\n");
        let t = self.table.render();
        s.append(t.as_str());
        s
    }
}

} // verus!

verus! {

/// Cutting a sentence into words loses no character: the words, one after
/// another, then the characters still gathered, spell the sentence.
pub proof fn lemma_segment_keeps_text(cs: Seq<char>, dict: Seq<Seq<char>>)
    ensures
        crate::history::join_all(segment_state(cs, dict).0) + segment_state(cs, dict).1 == cs,
    decreases cs.len(),
{
    if cs.len() > 0 {
        lemma_segment_keeps_text(cs.drop_last(), dict);
        let (w, t) = segment_state(cs.drop_last(), dict);
        let t2 = t.push(cs.last());
        assert(cs.drop_last().push(cs.last()) =~= cs);
        if dict.contains(t2) {
            assert(w.push(t2).drop_last() =~= w);
            assert(crate::history::join_all(w.push(t2)) + Seq::<char>::empty() =~= crate::history::join_all(w) + t + seq![
                cs.last(),
            ]);
        } else {
            assert(crate::history::join_all(w) + t2 =~= crate::history::join_all(w) + t + seq![cs.last()]);
        }
        assert(crate::history::join_all(w) + t + seq![cs.last()] =~= cs.drop_last().push(cs.last()));
    }
}

} // verus!

verus! {

/// Production `j` of entry `gi` has a symbol, and when both its head and its
/// first symbol are nonterminals, that symbol has productions.
pub open spec fn prod_first_ok(g: Seq<(Seq<char>, Seq<Seq<Seq<char>>>)>, n: Seq<Seq<char>>, gi: int, j: int) -> bool {
    &&& g[gi].1[j].len() > 0
    &&& n.contains(g[gi].0) && n.contains(g[gi].1[j][0]) ==> keys_of(g).contains(g[gi].1[j][0])
}

/// What `ff_ready` asks of production `j` of entry `gi`.
pub open spec fn prod_ff_ok(
    g: Seq<(Seq<char>, Seq<Seq<Seq<char>>>)>,
    t: Seq<Seq<char>>,
    n: Seq<Seq<char>>,
    gi: int,
    j: int,
) -> bool {
    &&& forall|i: int|
        is_pos(g, gi, j, i) && n.contains(#[trigger] sym(g, gi, j, i)) && keys_of(g).contains(sym(g, gi, j, i + 1))
            && in_first(g, t, n, sym(g, gi, j, i + 1), "nil"@) ==> n.contains(sym(g, gi, j, i + 1))
    &&& n.contains(last_sym(g, gi, j)) ==> n.contains(g[gi].0)
    &&& !t.contains(g[gi].1[j][0]) ==> keys_of(g).contains(g[gi].1[j][0])
    &&& body_nullable(g, t, n, g[gi].1[j]) ==> n.contains(g[gi].0)
}

/// Whether every production has a symbol and the FIRST sets can be computed
/// (see `first_ready`).
pub fn first_check(lg: &Language) -> (r: bool)
    requires
        lg.lg.wf(),
    ensures
        r == first_ready(lg.lg.dview(), lg.ntwords.deep_view()),
{
    let ghost g = lg.lg.dview();
    let ghost n = lg.ntwords.deep_view();
    let ng = lg.lg.entries.len();
    for gi in 0..ng
        invariant
            ng == g.len(),
            g == lg.lg.dview(),
            n == lg.ntwords.deep_view(),
            lg.lg.wf(),
            forall|a: int, b: int| 0 <= a < gi && 0 <= b < g[a].1.len() ==> #[trigger] prod_first_ok(g, n, a, b),
    {
        let e = &lg.lg.entries[gi];
        assert(g[gi as int] == (e.0@, e.1.deep_view()));
        let nb = e.1.len();
        for j in 0..nb
            invariant
                ng == g.len(),
                0 <= gi < ng,
                g == lg.lg.dview(),
                n == lg.ntwords.deep_view(),
                lg.lg.wf(),
                g[gi as int] == (e.0@, e.1.deep_view()),
                nb == e.1@.len(),
                forall|a: int, b: int| 0 <= a < gi && 0 <= b < g[a].1.len() ==> #[trigger] prod_first_ok(g, n, a, b),
                forall|b: int| 0 <= b < j ==> #[trigger] prod_first_ok(g, n, gi as int, b),
        {
            let v = &e.1[j];
            assert(g[gi as int].1[j as int] == v.deep_view());
            if v.len() == 0 {
                assert(!crate::first::nonempty_bodies(g)) by {
                    assert(g[gi as int].1[j as int].len() == 0);
                }
                return false;
            }
            assert(g[gi as int].1[j as int][0] == v@[0]@);
            if contains_string(&lg.ntwords, &e.0) && contains_string(&lg.ntwords, &v[0]) && !lg.lg.contains_key(&v[0]) {
                return false;
            }
            assert(prod_first_ok(g, n, gi as int, j as int));
        }
    }
    proof {
        assert forall|i: int, j: int| 0 <= i < g.len() && 0 <= j < g[i].1.len() implies #[trigger] g[i].1[j].len() > 0 by {
            assert(prod_first_ok(g, n, i, j));
        }
        assert forall|i: int, j: int|
            0 <= i < g.len() && 0 <= j < g[i].1.len() && n.contains(g[i].0) && n.contains(#[trigger] g[i].1[j][0])
            implies keys_of(g).contains(g[i].1[j][0]) by {
            assert(prod_first_ok(g, n, i, j));
        }
    }
    true
}

/// Whether a language can be given to `FF::new` (see `ff_ready`): this
/// computes its FIRST sets and reads every production.
#[verifier::spinoff_prover]
pub fn ff_check(lg: &Language) -> (r: bool)
    requires
        lg.lg.wf(),
    ensures
        r == ff_ready(lg.lg.dview(), lg.twords.deep_view(), lg.ntwords.deep_view()),
{
    let ghost g = lg.lg.dview();
    let ghost t = lg.twords.deep_view();
    let ghost n = lg.ntwords.deep_view();
    if !first_check(lg) {
        return false;
    }
    if lg.twords.len() == 0 {
        return false;
    }
    let mut first: Dict<String, Vec<String>> = Dict::new();
    gen_first(&mut first, lg);
    let ghost f = first.dview();
    let nil = owned("nil");
    let ng = lg.lg.entries.len();
    for gi in 0..ng
        invariant
            ng == g.len(),
            g == lg.lg.dview(),
            t == lg.twords.deep_view(),
            n == lg.ntwords.deep_view(),
            f == first.dview(),
            first.wf(),
            lg.lg.wf(),
            nil@ == "nil"@,
            first_ready(g, n),
            t.len() > 0,
            first_exact(g, t, n, f),
            forall|a: int, b: int| 0 <= a < gi && 0 <= b < g[a].1.len() ==> #[trigger] prod_ff_ok(g, t, n, a, b),
    {
        let e = &lg.lg.entries[gi];
        assert(g[gi as int] == (e.0@, e.1.deep_view()));
        let head_nt = contains_string(&lg.ntwords, &e.0);
        let nb = e.1.len();
        for j in 0..nb
            invariant
                ng == g.len(),
                0 <= gi < ng,
                g == lg.lg.dview(),
                t == lg.twords.deep_view(),
                n == lg.ntwords.deep_view(),
                f == first.dview(),
                first.wf(),
                lg.lg.wf(),
                nil@ == "nil"@,
                first_ready(g, n),
                t.len() > 0,
                first_exact(g, t, n, f),
                g[gi as int] == (e.0@, e.1.deep_view()),
                head_nt == n.contains(e.0@),
                nb == e.1@.len(),
                forall|a: int, b: int| 0 <= a < gi && 0 <= b < g[a].1.len() ==> #[trigger] prod_ff_ok(g, t, n, a, b),
                forall|b: int| 0 <= b < j ==> #[trigger] prod_ff_ok(g, t, n, gi as int, b),
        {
            let v = &e.1[j];
            let ghost vv = v.deep_view();
            assert(g[gi as int].1[j as int] == vv);
            assert(vv.len() > 0) by {
                assert(g[gi as int].1[j as int].len() > 0);
            }
            let len = v.len();
            assert(vv[0] == v@[0]@);
            let first_t = contains_string(&lg.twords, &v[0]);
            if !first_t && !lg.lg.contains_key(&v[0]) {
                return false;
            }
            assert(vv.last() == v@[len - 1]@);
            if contains_string(&lg.ntwords, &v[len - 1]) && !head_nt {
                assert(n.contains(last_sym(g, gi as int, j as int)));
                return false;
            }
            let nullable = if first_t {
                v[0] == nil
            } else {
                match first.get(&v[0]) {
                    Some(l) => contains_string(l, &nil),
                    None => false,
                }
            };
            proof {
                lemma_first_lookup(g, t, n, f, vv[0]);
                if !first_t {
                    if lookup(f, vv[0]) is Some {
                        assert(lookup(f, vv[0]).unwrap().contains("nil"@) <==> in_first(g, t, n, vv[0], "nil"@));
                    }
                }
                assert(nullable == body_nullable(g, t, n, vv));
            }
            if nullable && !head_nt {
                return false;
            }
            let mut i: usize = 0;
            while i + 1 < len
                invariant
                    len == vv.len(),
                    vv == v.deep_view(),
                    g[gi as int].1[j as int] == vv,
                    0 <= gi < g.len(),
                    0 <= j < g[gi as int].1.len(),
                    g == lg.lg.dview(),
                    t == lg.twords.deep_view(),
                    n == lg.ntwords.deep_view(),
                    f == first.dview(),
                    first.wf(),
                    lg.lg.wf(),
                    nil@ == "nil"@,
                    first_exact(g, t, n, f),
                    keys_of(g).no_duplicates(),
                    i + 1 <= len,
                    forall|q: int|
                        0 <= q < i && is_pos(g, gi as int, j as int, q) && n.contains(#[trigger] sym(g, gi as int, j as int, q))
                            && keys_of(g).contains(sym(g, gi as int, j as int, q + 1)) && in_first(
                            g,
                            t,
                            n,
                            sym(g, gi as int, j as int, q + 1),
                            "nil"@,
                        ) ==> n.contains(sym(g, gi as int, j as int, q + 1)),
                decreases len - i,
            {
                let y = &v[i + 1];
                assert(sym(g, gi as int, j as int, i as int) == v@[i as int]@);
                assert(sym(g, gi as int, j as int, i + 1) == y@);
                if contains_string(&lg.ntwords, &v[i]) && !contains_string(&lg.ntwords, y) {
                    match first.get(y) {
                        Some(l) => {
                            if contains_string(l, &nil) {
                                proof {
                                    lemma_first_lookup(g, t, n, f, y@);
                                    assert(is_pos(g, gi as int, j as int, i as int));
                                }
                                return false;
                            }
                            proof {
                                lemma_first_lookup(g, t, n, f, y@);
                            }
                        },
                        None => {
                            proof {
                                lemma_first_lookup(g, t, n, f, y@);
                            }
                        },
                    }
                }
                i = i + 1;
            }
            assert(prod_ff_ok(g, t, n, gi as int, j as int));
        }
    }
    proof {
        assert forall|gi: int, j: int, i: int|
            is_pos(g, gi, j, i) && n.contains(#[trigger] sym(g, gi, j, i)) && keys_of(g).contains(sym(g, gi, j, i + 1))
                && in_first(g, t, n, sym(g, gi, j, i + 1), "nil"@) implies n.contains(sym(g, gi, j, i + 1)) by {
            assert(prod_ff_ok(g, t, n, gi, j));
        }
        assert forall|gi: int, j: int| is_prod(g, gi, j) && n.contains(#[trigger] last_sym(g, gi, j)) implies n.contains(g[gi].0) by {
            assert(prod_ff_ok(g, t, n, gi, j));
        }
        assert forall|gi: int, j: int| is_prod(g, gi, j) && !t.contains(#[trigger] g[gi].1[j][0]) implies keys_of(g).contains(g[gi].1[j][0]) by {
            assert(prod_ff_ok(g, t, n, gi, j));
        }
        assert forall|gi: int, j: int| is_prod(g, gi, j) && #[trigger] body_nullable(g, t, n, g[gi].1[j]) implies n.contains(g[gi].0) by {
            assert(prod_ff_ok(g, t, n, gi, j));
        }
    }
    true
}

} // verus!

verus! {

/// Where an LL(1) run with at most `fuel` more steps stops: the stack and
/// the input position of the step that ends it (or of the last one when
/// its steps run out).
pub open spec fn ll_stop(
    d: Seq<((Seq<char>, Seq<char>), (Seq<char>, Seq<Seq<char>>))>,
    t: Seq<Seq<char>>,
    words: Seq<Seq<char>>,
    stack: Seq<Seq<char>>,
    pos: nat,
    fuel: nat,
) -> (Seq<Seq<char>>, nat)
    decreases fuel,
{
    let s = ll_step(d, t, words, stack, pos);
    if s.0 || fuel == 0 {
        (stack, pos)
    } else {
        ll_stop(d, t, words, s.2, s.3, (fuel - 1) as nat)
    }
}

/// An error message is never `"Succeed"`.
proof fn lemma_error_not_succeed(focus: Seq<char>)
    ensures
        error_text(focus) != "Succeed"@,
{
    reveal_strlit("Error when looking ");
    reveal_strlit("Succeed");
    assert(error_text(focus)[0] == 'E');
    assert("Succeed"@[0] == 'S');
}

/// An LL(1) analysis answers `"Succeed"` only with the input consumed: the
/// run stops with the end marker `"#"` on top of the stack and `"#"` as the
/// word read, so when no word of the sentence is `"#"` every word has been
/// matched (the stop position is past the last word).
pub proof fn lemma_ll_succeed_consumes(
    d: Seq<((Seq<char>, Seq<char>), (Seq<char>, Seq<Seq<char>>))>,
    t: Seq<Seq<char>>,
    words: Seq<Seq<char>>,
    stack: Seq<Seq<char>>,
    pos: nat,
    fuel: nat,
)
    ensures
        ll_run(d, t, words, stack, pos, fuel).0 == "Succeed"@ ==> {
            let (st, p) = ll_stop(d, t, words, stack, pos, fuel);
            &&& st.last() == "#"@
            &&& cur_word(words, p) == "#"@
            &&& !words.contains("#"@) ==> p >= words.len()
        },
    decreases fuel,
{
    let s = ll_step(d, t, words, stack, pos);
    lemma_error_not_succeed(stack.last());
    if s.0 {
    } else if fuel == 0 {
    } else {
        lemma_ll_succeed_consumes(d, t, words, s.2, s.3, (fuel - 1) as nat);
    }
    let (st, p) = ll_stop(d, t, words, stack, pos, fuel);
    if ll_run(d, t, words, stack, pos, fuel).0 == "Succeed"@ && !words.contains("#"@) && p < words.len() {
        assert(words[p as int] == cur_word(words, p));
    }
}

} // verus!

verus! {

/// Cell `(a, y)` holds a production of `a` whose body is one of `ps`.
pub open spec fn holds_prod_of(
    d: Seq<((Seq<char>, Seq<char>), (Seq<char>, Seq<Seq<char>>))>,
    a: Seq<char>,
    ps: Seq<Seq<Seq<char>>>,
    y: Seq<char>,
) -> bool {
    lookup(d, (a, y)) matches Some(v) && v.0 == a && ps.contains(v.1)
}

/// Storing a production of `a` under row `a` keeps the keys distinct, leaves
/// the other rows as they were, keeps every cell of row `a` holding a
/// production of `a`, and fills the cells of `ks`.
proof fn lemma_put_all_row(
    d: Seq<((Seq<char>, Seq<char>), (Seq<char>, Seq<Seq<char>>))>,
    a: Seq<char>,
    ks: Seq<Seq<char>>,
    w: Seq<Seq<char>>,
    ps: Seq<Seq<Seq<char>>>,
)
    requires
        keys_of(d).no_duplicates(),
        ps.contains(w),
    ensures
        keys_of(put_all(d, a, ks, (a, w))).no_duplicates(),
        forall|b: Seq<char>, y: Seq<char>| b != a ==> #[trigger] lookup(put_all(d, a, ks, (a, w)), (b, y)) == lookup(d, (b, y)),
        forall|y: Seq<char>| #[trigger] holds_prod_of(d, a, ps, y) ==> holds_prod_of(put_all(d, a, ks, (a, w)), a, ps, y),
        forall|y: Seq<char>| ks.contains(y) ==> #[trigger] holds_prod_of(put_all(d, a, ks, (a, w)), a, ps, y),
    decreases ks.len(),
{
    if ks.len() > 0 {
        let r = put_all(d, a, ks.drop_last(), (a, w));
        lemma_put_all_row(d, a, ks.drop_last(), w, ps);
        crate::dict::lemma_put(r, (a, ks.last()), (a, w));
        let d2 = put_all(d, a, ks, (a, w));
        assert forall|b: Seq<char>, y: Seq<char>| b != a implies #[trigger] lookup(d2, (b, y)) == lookup(d, (b, y)) by {
            assert((b, y) != (a, ks.last()));
            assert(lookup(r, (b, y)) == lookup(d, (b, y)));
        }
        assert forall|y: Seq<char>| #[trigger] holds_prod_of(d, a, ps, y) implies holds_prod_of(d2, a, ps, y) by {
            assert(holds_prod_of(r, a, ps, y));
            if y != ks.last() {
                assert((a, y) != (a, ks.last()));
            }
        }
        assert forall|y: Seq<char>| ks.contains(y) implies #[trigger] holds_prod_of(d2, a, ps, y) by {
            if y != ks.last() {
                let k = choose|k: int| 0 <= k < ks.len() && ks[k] == y;
                assert(ks.drop_last()[k] == y);
                assert(ks.drop_last().contains(y));
                assert(holds_prod_of(r, a, ps, y));
                assert((a, y) != (a, ks.last()));
            }
        }
    }
}

/// Entering a production of `a` whose body is one of `ps`: as for
/// `lemma_put_all_row`, with the cells of the body's FIRST list filled.
proof fn lemma_enter_prod_row(
    d: Seq<((Seq<char>, Seq<char>), (Seq<char>, Seq<Seq<char>>))>,
    t: Seq<Seq<char>>,
    f: Seq<(Seq<char>, Seq<Seq<char>>)>,
    fo: Seq<(Seq<char>, Seq<Seq<char>>)>,
    a: Seq<char>,
    v: Seq<Seq<char>>,
    ps: Seq<Seq<Seq<char>>>,
)
    requires
        keys_of(d).no_duplicates(),
        ps.contains(v),
    ensures
        keys_of(enter_prod(d, t, f, fo, a, v)).no_duplicates(),
        forall|b: Seq<char>, y: Seq<char>| b != a ==> #[trigger] lookup(enter_prod(d, t, f, fo, a, v), (b, y)) == lookup(d, (b, y)),
        forall|y: Seq<char>| #[trigger] holds_prod_of(d, a, ps, y) ==> holds_prod_of(enter_prod(d, t, f, fo, a, v), a, ps, y),
        forall|y: Seq<char>| body_first(t, f, v).contains(y) ==> #[trigger] holds_prod_of(enter_prod(d, t, f, fo, a, v), a, ps, y),
        body_first(t, f, v).contains("nil"@) ==> forall|y: Seq<char>|
            lookup(fo, a).unwrap().contains(y) ==> #[trigger] holds_prod_of(enter_prod(d, t, f, fo, a, v), a, ps, y),
{
    let k1 = body_first(t, f, v);
    let d1 = put_all(d, a, k1, (a, v));
    lemma_put_all_row(d, a, k1, v, ps);
    if k1.contains("nil"@) {
        let fl = lookup(fo, a).unwrap();
        lemma_put_all_row(d1, a, fl, v, ps);
        assert forall|y: Seq<char>| body_first(t, f, v).contains(y) implies #[trigger] holds_prod_of(enter_prod(d, t, f, fo, a, v), a, ps, y) by {
            assert(holds_prod_of(d1, a, ps, y));
        }
        assert forall|y: Seq<char>| #[trigger] holds_prod_of(d, a, ps, y) implies holds_prod_of(enter_prod(d, t, f, fo, a, v), a, ps, y) by {
            assert(holds_prod_of(d1, a, ps, y));
        }
    }
}

/// Entering the productions `ps` of `a` (each one of `all`): as for
/// `lemma_enter_prod_row`, with the cells of each body's FIRST list filled.
proof fn lemma_enter_bodies_row(
    d: Seq<((Seq<char>, Seq<char>), (Seq<char>, Seq<Seq<char>>))>,
    t: Seq<Seq<char>>,
    f: Seq<(Seq<char>, Seq<Seq<char>>)>,
    fo: Seq<(Seq<char>, Seq<Seq<char>>)>,
    a: Seq<char>,
    ps: Seq<Seq<Seq<char>>>,
    all: Seq<Seq<Seq<char>>>,
)
    requires
        keys_of(d).no_duplicates(),
        forall|j: int| 0 <= j < ps.len() ==> all.contains(#[trigger] ps[j]),
    ensures
        keys_of(enter_bodies(d, t, f, fo, a, ps)).no_duplicates(),
        forall|b: Seq<char>, y: Seq<char>| b != a ==> #[trigger] lookup(enter_bodies(d, t, f, fo, a, ps), (b, y)) == lookup(d, (b, y)),
        forall|j: int, y: Seq<char>| 0 <= j < ps.len() && #[trigger] body_first(t, f, ps[j]).contains(y) ==> holds_prod_of(enter_bodies(d, t, f, fo, a, ps), a, all, y),
        forall|j: int, y: Seq<char>|
            0 <= j < ps.len() && #[trigger] body_first(t, f, ps[j]).contains("nil"@) && lookup(fo, a).unwrap().contains(y)
                ==> #[trigger] holds_prod_of(enter_bodies(d, t, f, fo, a, ps), a, all, y),
    decreases ps.len(),
{
    if ps.len() > 0 {
        let pre = ps.drop_last();
        let r = enter_bodies(d, t, f, fo, a, pre);
        assert forall|j: int| 0 <= j < pre.len() implies all.contains(#[trigger] pre[j]) by {
            assert(pre[j] == ps[j]);
        }
        lemma_enter_bodies_row(d, t, f, fo, a, pre, all);
        assert(all.contains(ps[ps.len() - 1]));
        lemma_enter_prod_row(r, t, f, fo, a, ps.last(), all);
        assert forall|j: int, y: Seq<char>| 0 <= j < ps.len() && #[trigger] body_first(t, f, ps[j]).contains(y)
            implies holds_prod_of(enter_bodies(d, t, f, fo, a, ps), a, all, y) by {
            if j < pre.len() {
                assert(pre[j] == ps[j]);
                assert(holds_prod_of(r, a, all, y));
            }
        }
        assert forall|j: int, y: Seq<char>|
            0 <= j < ps.len() && #[trigger] body_first(t, f, ps[j]).contains("nil"@) && lookup(fo, a).unwrap().contains(y)
            implies #[trigger] holds_prod_of(enter_bodies(d, t, f, fo, a, ps), a, all, y) by {
            if j < pre.len() {
                assert(pre[j] == ps[j]);
                assert(holds_prod_of(r, a, all, y));
            }
        }
    }
}

/// The LL(1) table covers the FIRST lists: for every production `A -> v`
/// and every symbol `x` other than `"nil"` of the FIRST list of `v` (its
/// first symbol when that is a terminal, else that symbol's FIRST list),
/// the cell `(A, x)` of the entered table holds a production of `A`, not
/// `Err`.
pub proof fn lemma_table_covers_first(
    d: Seq<((Seq<char>, Seq<char>), (Seq<char>, Seq<Seq<char>>))>,
    t: Seq<Seq<char>>,
    f: Seq<(Seq<char>, Seq<Seq<char>>)>,
    fo: Seq<(Seq<char>, Seq<Seq<char>>)>,
    g: Seq<(Seq<char>, Seq<Seq<Seq<char>>>)>,
    gi: int,
    j: int,
    x: Seq<char>,
)
    requires
        keys_of(d).no_duplicates(),
        keys_of(g).no_duplicates(),
        is_prod(g, gi, j),
        body_first(t, f, g[gi].1[j]).contains(x),
        x != "nil"@,
    ensures
        holds_prod_of(enter_grammar(d, t, f, fo, g), g[gi].0, g[gi].1, x),
        cell_value(enter_grammar(d, t, f, fo, g), (g[gi].0, x)).0 == g[gi].0,
        g[gi].1.contains(cell_value(enter_grammar(d, t, f, fo, g), (g[gi].0, x)).1),
    decreases g.len(),
{
    let pre = g.drop_last();
    let last = g.last();
    let r = enter_grammar(d, t, f, fo, pre);
    lemma_enter_grammar_keys(d, t, f, fo, pre);
    assert forall|k: int| 0 <= k < last.1.len() implies last.1.contains(#[trigger] last.1[k]) by {}
    lemma_enter_bodies_row(r, t, f, fo, last.0, last.1, last.1);
    if gi == g.len() - 1 {
        assert(body_first(t, f, last.1[j]).contains(x));
    } else {
        assert(keys_of(pre) =~= keys_of(g).drop_last());
        assert(pre[gi] == g[gi]);
        lemma_table_covers_first(d, t, f, fo, pre, gi, j, x);
        assert(keys_of(g)[gi] != keys_of(g)[g.len() - 1]);
        assert(lookup(enter_grammar(d, t, f, fo, g), (g[gi].0, x)) == lookup(r, (g[gi].0, x)));
    }
}

/// Entering productions keeps the table's keys distinct.
proof fn lemma_enter_grammar_keys(
    d: Seq<((Seq<char>, Seq<char>), (Seq<char>, Seq<Seq<char>>))>,
    t: Seq<Seq<char>>,
    f: Seq<(Seq<char>, Seq<Seq<char>>)>,
    fo: Seq<(Seq<char>, Seq<Seq<char>>)>,
    g: Seq<(Seq<char>, Seq<Seq<Seq<char>>>)>,
)
    requires
        keys_of(d).no_duplicates(),
    ensures
        keys_of(enter_grammar(d, t, f, fo, g)).no_duplicates(),
    decreases g.len(),
{
    if g.len() > 0 {
        let last = g.last();
        lemma_enter_grammar_keys(d, t, f, fo, g.drop_last());
        assert forall|k: int| 0 <= k < last.1.len() implies last.1.contains(#[trigger] last.1[k]) by {}
        lemma_enter_bodies_row(enter_grammar(d, t, f, fo, g.drop_last()), t, f, fo, last.0, last.1, last.1);
    }
}

/// A new table's cells are stored under distinct keys.
proof fn lemma_init_cells_keys(cols: Seq<Seq<char>>, rows: Seq<Seq<char>>)
    ensures
        keys_of(init_cells(cols, rows)).no_duplicates(),
    decreases cols.len(),
{
    if cols.len() > 0 {
        lemma_init_cells_keys(cols.drop_last(), rows);
        lemma_init_rows_keys(init_cells(cols.drop_last(), rows), cols.last(), rows);
    }
}

proof fn lemma_init_rows_keys(
    d: Seq<((Seq<char>, Seq<char>), (Seq<char>, Seq<Seq<char>>))>,
    c: Seq<char>,
    rows: Seq<Seq<char>>,
)
    requires
        keys_of(d).no_duplicates(),
    ensures
        keys_of(init_rows(d, c, rows)).no_duplicates(),
    decreases rows.len(),
{
    if rows.len() > 0 {
        lemma_init_rows_keys(d, c, rows.drop_last());
        crate::dict::lemma_put(init_rows(d, c, rows.drop_last()), (rows.last(), c), err_entry());
    }
}

/// The table of an LL(1) analyser covers the FIRST lists (see
/// `lemma_table_covers_first`): for every production `A -> v` of its
/// language and every symbol `x` other than `"nil"` of the FIRST list of
/// `v`, the cell `(A, x)` holds a production of `A`.
pub proof fn lemma_ff_table_covers_first(ff: FF, lg: Language, gi: int, j: int, x: Seq<char>)
    requires
        ff_built(ff, lg),
        lg.lg.wf(),
        is_prod(lg.lg.dview(), gi, j),
        body_first(lg.twords.deep_view(), ff.first_lists(), lg.lg.dview()[gi].1[j]).contains(x),
        x != "nil"@,
    ensures
        cell_value(ff.table().cells(), (lg.lg.dview()[gi].0, x)).0 == lg.lg.dview()[gi].0,
        lg.lg.dview()[gi].1.contains(cell_value(ff.table().cells(), (lg.lg.dview()[gi].0, x)).1),
{
    let t = lg.twords.deep_view();
    lemma_init_cells_keys(table_cols(t), lg.ntwords.deep_view());
    lemma_table_covers_first(
        init_cells(table_cols(t), lg.ntwords.deep_view()),
        t,
        ff.first_lists(),
        ff.follow_lists(),
        lg.lg.dview(),
        gi,
        j,
        x,
    );
}

/// The LL(1) table covers the FOLLOW lists of nullable productions: for
/// every production `A -> v` whose FIRST list holds `"nil"` and every symbol
/// `x` of the FOLLOW list of `A`, the cell `(A, x)` of the entered table
/// holds a production of `A`, not `Err`.
pub proof fn lemma_table_covers_follow(
    d: Seq<((Seq<char>, Seq<char>), (Seq<char>, Seq<Seq<char>>))>,
    t: Seq<Seq<char>>,
    f: Seq<(Seq<char>, Seq<Seq<char>>)>,
    fo: Seq<(Seq<char>, Seq<Seq<char>>)>,
    g: Seq<(Seq<char>, Seq<Seq<Seq<char>>>)>,
    gi: int,
    j: int,
    x: Seq<char>,
)
    requires
        keys_of(d).no_duplicates(),
        keys_of(g).no_duplicates(),
        is_prod(g, gi, j),
        body_first(t, f, g[gi].1[j]).contains("nil"@),
        lookup(fo, g[gi].0).unwrap().contains(x),
    ensures
        holds_prod_of(enter_grammar(d, t, f, fo, g), g[gi].0, g[gi].1, x),
        cell_value(enter_grammar(d, t, f, fo, g), (g[gi].0, x)).0 == g[gi].0,
        g[gi].1.contains(cell_value(enter_grammar(d, t, f, fo, g), (g[gi].0, x)).1),
    decreases g.len(),
{
    let pre = g.drop_last();
    let last = g.last();
    let r = enter_grammar(d, t, f, fo, pre);
    lemma_enter_grammar_keys(d, t, f, fo, pre);
    assert forall|k: int| 0 <= k < last.1.len() implies last.1.contains(#[trigger] last.1[k]) by {}
    lemma_enter_bodies_row(r, t, f, fo, last.0, last.1, last.1);
    if gi == g.len() - 1 {
        assert(body_first(t, f, last.1[j]).contains("nil"@));
    } else {
        assert(keys_of(pre) =~= keys_of(g).drop_last());
        assert(pre[gi] == g[gi]);
        lemma_table_covers_follow(d, t, f, fo, pre, gi, j, x);
        assert(keys_of(g)[gi] != keys_of(g)[g.len() - 1]);
        assert(lookup(enter_grammar(d, t, f, fo, g), (g[gi].0, x)) == lookup(r, (g[gi].0, x)));
    }
}

/// The table of an LL(1) analyser covers the FOLLOW lists of nullable
/// productions (see `lemma_table_covers_follow`).
pub proof fn lemma_ff_table_covers_follow(ff: FF, lg: Language, gi: int, j: int, x: Seq<char>)
    requires
        ff_built(ff, lg),
        lg.lg.wf(),
        is_prod(lg.lg.dview(), gi, j),
        body_first(lg.twords.deep_view(), ff.first_lists(), lg.lg.dview()[gi].1[j]).contains("nil"@),
        lookup(ff.follow_lists(), lg.lg.dview()[gi].0).unwrap().contains(x),
    ensures
        cell_value(ff.table().cells(), (lg.lg.dview()[gi].0, x)).0 == lg.lg.dview()[gi].0,
        lg.lg.dview()[gi].1.contains(cell_value(ff.table().cells(), (lg.lg.dview()[gi].0, x)).1),
{
    let t = lg.twords.deep_view();
    lemma_init_cells_keys(table_cols(t), lg.ntwords.deep_view());
    lemma_table_covers_follow(
        init_cells(table_cols(t), lg.ntwords.deep_view()),
        t,
        ff.first_lists(),
        ff.follow_lists(),
        lg.lg.dview(),
        gi,
        j,
        x,
    );
}

} // verus!
