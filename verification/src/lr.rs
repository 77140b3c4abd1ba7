use vstd::prelude::*;
use crate::dict::{Dict, SameKey, keys_of, lemma_lookup_at, lookup, put};
use crate::ff::FF;
use crate::growth::flat;
use crate::language::Language;
use crate::ff::segment_state;
use crate::pattern::{Pattern, regex_compiles, regex_group, regex_matches};
use crate::text::{clone_strings, contains_string, decimal, decimal_string, owned, parse_usize, parse_usize_spec};

verus! {

broadcast use vstd::seq_lib::group_seq_properties;

/// An LR(1) item as a value: the production (head and body), the lookahead,
/// the dot position, and the body length.
pub type Item = ((Seq<char>, Seq<Seq<char>>), Seq<char>, usize, usize);

/// An LR(1) item: a production with a dot position and a lookahead symbol.
pub struct Gen {
    pub gen: (String, Vec<String>),
    pub ahead: String,
    pub p: usize,
    pub len: usize,
}

impl DeepView for Gen {
    type V = Item;

    open spec fn deep_view(&self) -> Item {
        (self.gen.deep_view(), self.ahead@, self.p, self.len)
    }
}

/// Whether two lists of strings are equal.
pub fn strings_eq(a: &Vec<String>, b: &Vec<String>) -> (r: bool)
    ensures
        r == (a.deep_view() == b.deep_view()),
{
    if a.len() != b.len() {
        assert(a.deep_view().len() != b.deep_view().len());
        return false;
    }
    let n = a.len();
    for i in 0..n
        invariant
            n == a@.len(),
            n == b@.len(),
            forall|j: int| 0 <= j < i ==> a@[j]@ == b@[j]@,
    {
        if a[i] != b[i] {
            assert(a.deep_view()[i as int] != b.deep_view()[i as int]);
            return false;
        }
    }
    assert(a.deep_view() =~= b.deep_view());
    true
}

impl SameKey for Gen {
    fn same_key(&self, other: &Self) -> (r: bool) {
        self.ahead == other.ahead && self.len == other.len && self.gen.0 == other.gen.0 && strings_eq(
            &self.gen.1,
            &other.gen.1,
        ) && self.p == other.p
    }
}

/// The item's production symbol at `p`, or `"#"` past the end.
pub open spec fn sym_at(body: Seq<Seq<char>>, p: int) -> Seq<char> {
    if 0 <= p < body.len() {
        body[p]
    } else {
        "#"@
    }
}

/// The item with another lookahead.
pub open spec fn with_ahead(g: Item, a: Seq<char>) -> Item {
    (g.0, a, g.2, g.3)
}

/// The item with its dot moved one symbol on, when it is not at the end.
pub open spec fn moved(g: Item) -> Item {
    if g.2 < g.3 {
        (g.0, g.1, (g.2 + 1) as usize, g.3)
    } else {
        g
    }
}

impl Gen {
    /// The item of production `source` with the dot at `p` and lookahead
    /// `ahead` (`"#"` when none is given).
    pub fn new(source: &(String, Vec<String>), ahead: Option<String>, p: usize) -> (g: Gen)
        ensures
            g.deep_view() == (
                source.deep_view(),
                match ahead {
                    Some(a) => a@,
                    None => "#"@,
                },
                p,
                source.1@.len() as usize,
            ),
    {
        Gen {
            gen: (source.0.clone(), clone_strings(&source.1)),
            ahead: match ahead {
                Some(v) => v,
                None => owned("#"),
            },
            p: p,
            len: source.1.len(),
        }
    }

    /// The symbol after the dot, or `"#"` at the end of the body.
    pub fn get_current_place(&self) -> (s: String)
        ensures
            s@ == sym_at(self.gen.1.deep_view(), self.p as int),
    {
        if self.p < self.gen.1.len() {
            self.gen.1[self.p].clone()
        } else {
            owned("#")
        }
    }

    /// The symbol one past the one after the dot, or `"#"` when there is none.
    pub fn get_next_place(&self) -> (s: String)
        requires
            self.p < usize::MAX,
        ensures
            s@ == sym_at(self.gen.1.deep_view(), self.p + 1),
    {
        if self.p + 1 < self.gen.1.len() {
            self.gen.1[self.p + 1].clone()
        } else {
            owned("#")
        }
    }

    /// Moves the dot one symbol on; fails at the end of the body.
    pub fn move_to_next(&mut self) -> (r: bool)
        ensures
            r == (old(self).p < old(self).len),
            final(self).deep_view() == moved(old(self).deep_view()),
    {
        if self.p < self.len {
            self.p = self.p + 1;
            true
        } else {
            false
        }
    }

    /// A copy of the item.
    pub fn duplicate(&self) -> (g: Gen)
        ensures
            g.deep_view() == self.deep_view(),
    {
        Gen {
            gen: (self.gen.0.clone(), clone_strings(&self.gen.1)),
            ahead: self.ahead.clone(),
            p: self.p,
            len: self.len,
        }
    }
}

/// Whether a list of items holds `g`.
pub fn gens_contains(v: &Vec<Gen>, g: &Gen) -> (r: bool)
    ensures
        r == v.deep_view().contains(g.deep_view()),
{
    let n = v.len();
    for i in 0..n
        invariant
            n == v@.len(),
            forall|j: int| 0 <= j < i ==> v@[j].deep_view() != g.deep_view(),
    {
        if v[i].same_key(g) {
            assert(v.deep_view()[i as int] == g.deep_view());
            return true;
        }
    }
    assert(!v.deep_view().contains(g.deep_view())) by {
        if v.deep_view().contains(g.deep_view()) {
            let j = choose|j: int| 0 <= j < v.deep_view().len() && v.deep_view()[j] == g.deep_view();
            assert(v@[j].deep_view() == g.deep_view());
        }
    }
    false
}

/// Whether two lists of items are equal.
pub fn gens_eq(a: &Vec<Gen>, b: &Vec<Gen>) -> (r: bool)
    ensures
        r == (a.deep_view() == b.deep_view()),
{
    if a.len() != b.len() {
        assert(a.deep_view().len() != b.deep_view().len());
        return false;
    }
    let n = a.len();
    for i in 0..n
        invariant
            n == a@.len(),
            n == b@.len(),
            forall|j: int| 0 <= j < i ==> a@[j].deep_view() == b@[j].deep_view(),
    {
        if !a[i].same_key(&b[i]) {
            assert(a.deep_view()[i as int] != b.deep_view()[i as int]);
            return false;
        }
    }
    assert(a.deep_view() =~= b.deep_view());
    true
}

/// A copy of a list of items.
pub fn clone_gens(v: &Vec<Gen>) -> (r: Vec<Gen>)
    ensures
        r.deep_view() == v.deep_view(),
{
    let mut r: Vec<Gen> = Vec::new();
    let n = v.len();
    for i in 0..n
        invariant
            n == v@.len(),
            r.deep_view() == v.deep_view().take(i as int),
    {
        let x = v[i].duplicate();
        let ghost old_r = r.deep_view();
        r.push(x);
        assert(r.deep_view() =~= old_r.push(v@[i as int].deep_view()));
        assert(r.deep_view() =~= v.deep_view().take(i + 1));
    }
    assert(v.deep_view().take(n as int) =~= v.deep_view());
    r
}

} // verus!

verus! {

/// Words each preceded by a space, one after another.
pub open spec fn spaced(ws: Seq<Seq<char>>) -> Seq<char>
    decreases ws.len(),
{
    if ws.len() == 0 {
        Seq::<char>::empty()
    } else {
        spaced(ws.drop_last()) + " "@ + ws.last()
    }
}

/// Numbers in decimal, each preceded by a space, one after another.
pub open spec fn spaced_nums(ns: Seq<usize>) -> Seq<char>
    decreases ns.len(),
{
    if ns.len() == 0 {
        Seq::<char>::empty()
    } else {
        spaced_nums(ns.drop_last()) + " "@ + decimal(ns.last() as nat)
    }
}

/// One line of the rendered LR(1) log.
pub open spec fn lr_line(i: nat, step: Seq<char>, input: Seq<char>) -> Seq<char> {
    decimal(i) + "\t"@ + step + "\t"@ + input + "\n"@
}

/// The lines of the rendered LR(1) log for its first `n` steps.
pub open spec fn lr_lines(steps: Seq<Seq<char>>, inputs: Seq<Seq<char>>, n: nat) -> Seq<char>
    decreases n,
{
    if n == 0 {
        Seq::<char>::empty()
    } else {
        lr_lines(steps, inputs, (n - 1) as nat) + lr_line((n - 1) as nat, steps[n - 1], inputs[n - 1])
    }
}

/// Words each preceded by a space.
pub fn spaced_exec(ws: &Vec<String>) -> (s: String)
    ensures
        s@ == spaced(ws.deep_view()),
{
    let mut s = String::new();
    let n = ws.len();
    for i in 0..n
        invariant
            n == ws@.len(),
            s@ == spaced(ws.deep_view().take(i as int)),
    {
        assert(ws.deep_view().take(i + 1).drop_last() =~= ws.deep_view().take(i as int));
        s.append(" ");
        s.append(ws[i].as_str());
    }
    assert(ws.deep_view().take(n as int) =~= ws.deep_view());
    s
}

/// Numbers each preceded by a space.
pub fn spaced_nums_exec(ns: &Vec<usize>) -> (s: String)
    ensures
        s@ == spaced_nums(ns@),
{
    let mut s = String::new();
    let n = ns.len();
    for i in 0..n
        invariant
            n == ns@.len(),
            s@ == spaced_nums(ns@.take(i as int)),
    {
        assert(ns@.take(i + 1).drop_last() =~= ns@.take(i as int));
        s.append(" ");
        let d = decimal_string(ns[i]);
        s.append(d.as_str());
    }
    assert(ns@.take(n as int) =~= ns@);
    s
}

/// The log of an LR(1) analysis: the symbol stack and state stack after each
/// step, and the input left.
pub struct History {
    len: usize,
    step: Vec<String>,
    input: Vec<String>,
}

impl History {
    pub closed spec fn wf(&self) -> bool {
        self.len == self.step@.len() && self.len == self.input@.len()
    }

    /// For each step: the symbols and then the states on the stacks.
    pub closed spec fn steps(&self) -> Seq<Seq<char>> {
        self.step.deep_view()
    }

    /// For each step: the input left.
    pub closed spec fn inputs(&self) -> Seq<Seq<char>> {
        self.input.deep_view()
    }

    pub fn new() -> (h: Self)
        ensures
            h.wf(),
            h.steps().len() == 0,
            h.inputs().len() == 0,
    {
        History { len: 0, step: Vec::new(), input: Vec::new() }
    }

    /// Logs the stacks and the input left after a step.
    pub fn log(&mut self, word_stack: Vec<String>, status_stack: Vec<usize>, input: Vec<String>)
        requires
            old(self).wf(),
        ensures
            final(self).wf(),
            final(self).steps() == old(self).steps().push(
                spaced(word_stack.deep_view()) + "\t"@ + spaced_nums(status_stack@),
            ),
            final(self).inputs() == old(self).inputs().push(spaced(input.deep_view())),
    {
        let mut ws = spaced_exec(&word_stack);
        let ss = spaced_nums_exec(&status_stack);
        ws.append("\t");
        ws.append(ss.as_str());
        let ghost s0 = self.step.deep_view();
        self.step.push(ws);
        assert(self.step.deep_view() =~= s0.push(self.step@[self.step@.len() - 1]@));
        let i = spaced_exec(&input);
        let ghost i0 = self.input.deep_view();
        self.input.push(i);
        assert(self.input.deep_view() =~= i0.push(self.input@[self.input@.len() - 1]@));
        let l = self.step.len();
        assert(l == self.len + 1);
        self.len = self.len + 1;
    }

    /// The log as a table: a header, then the number, the stacks and the
    /// input left of each step.
    pub fn render(&self) -> (s: String)
        requires
            self.wf(),
        ensures
            s@ == "\tword_stack\tstatus_stack\tinput\n"@ + lr_lines(self.steps(), self.inputs(), self.steps().len()),
    {
        let mut s = owned("\tword_stack\tstatus_stack\tinput\n");
        let n = self.step.len();
        for i in 0..n
            invariant
                n == self.step@.len(),
                self.wf(),
                s@ == "\tword_stack\tstatus_stack\tinput\n"@ + lr_lines(self.steps(), self.inputs(), i as nat),
        {
            let num = decimal_string(i);
            s.append(num.as_str());
            s.append("\t");
            s.append(self.step[i].as_str());
            s.append("\t");
            s.append(self.input[i].as_str());
            s.append("\n");
            assert(self.steps()[i as int] == self.step@[i as int]@);
            assert(self.inputs()[i as int] == self.input@[i as int]@);
        }
        s
    }
}

} // verus!

verus! {

/// What `get_first` gives for a symbol: a terminal or `"#"` stands for itself
/// (`"nil"` for `"#"`), a nonterminal for its FIRST list.
pub open spec fn lr_first(
    t: Seq<Seq<char>>,
    f: Seq<(Seq<char>, Seq<Seq<char>>)>,
    w: Seq<char>,
) -> Seq<Seq<char>> {
    if t.contains(w) || w == "#"@ {
        if w == "nil"@ {
            seq!["#"@]
        } else {
            seq![w]
        }
    } else {
        lookup(f, w).unwrap()
    }
}

/// `get_first` can answer for `w`: a terminal, `"#"`, or a nonterminal with
/// a FIRST list.
pub open spec fn first_arg_ok(
    t: Seq<Seq<char>>,
    n: Seq<Seq<char>>,
    f: Seq<(Seq<char>, Seq<Seq<char>>)>,
    w: Seq<char>,
) -> bool {
    t.contains(w) || w == "#"@ || (n.contains(w) && keys_of(f).contains(w))
}

/// The item of production `a -> body` with lookahead `ahead` and dot at `p`.
pub open spec fn lr_item(a: Seq<char>, body: Seq<Seq<char>>, ahead: Seq<char>, p: usize) -> Item {
    ((a, body), ahead, p, body.len() as usize)
}

/// The words other than `"nil"` that serve as lookaheads for the items of
/// head `a`: none for the start head `fw`.
pub open spec fn ahead_words(words: Seq<Seq<char>>, a: Seq<char>, fw: Seq<char>) -> Seq<Seq<char>>
    decreases words.len(),
{
    if words.len() == 0 {
        Seq::<Seq<char>>::empty()
    } else {
        let r = ahead_words(words.drop_last(), a, fw);
        if words.last() != "nil"@ && a != fw {
            r.push(words.last())
        } else {
            r
        }
    }
}

/// The items with the dot at `p`: lookahead `"#"`, then one per lookahead
/// word; each with its head and dot position.
pub open spec fn items_at(
    a: Seq<char>,
    body: Seq<Seq<char>>,
    p: usize,
    words: Seq<Seq<char>>,
    fw: Seq<char>,
) -> Seq<(Seq<char>, usize, Item)> {
    let aw = ahead_words(words, a, fw);
    seq![(a, p, lr_item(a, body, "#"@, p))] + Seq::new(
        aw.len(),
        |k: int| (a, p, lr_item(a, body, aw[k], p)),
    )
}

/// The items of production `a -> body`: for each dot position when the body
/// has no `"nil"`, else those of the empty body with the dot at 0.
pub open spec fn body_items(
    a: Seq<char>,
    body: Seq<Seq<char>>,
    words: Seq<Seq<char>>,
    fw: Seq<char>,
) -> Seq<(Seq<char>, usize, Item)> {
    if !body.contains("nil"@) {
        flat(Seq::new((body.len() + 1) as nat, |p: int| items_at(a, body, p as usize, words, fw)))
    } else {
        items_at(a, Seq::<Seq<char>>::empty(), 0, words, fw)
    }
}

/// The items of the productions `ps` of `a`, in order.
pub open spec fn entry_items(
    a: Seq<char>,
    ps: Seq<Seq<Seq<char>>>,
    words: Seq<Seq<char>>,
    fw: Seq<char>,
) -> Seq<(Seq<char>, usize, Item)> {
    flat(Seq::new(ps.len(), |j: int| body_items(a, ps[j], words, fw)))
}

/// The items of every production of the grammar, head by head.
pub open spec fn gen_items(
    g: Seq<(Seq<char>, Seq<Seq<Seq<char>>>)>,
    words: Seq<Seq<char>>,
    fw: Seq<char>,
) -> Seq<(Seq<char>, usize, Item)> {
    flat(Seq::new(g.len(), |gi: int| entry_items(g[gi].0, g[gi].1, words, fw)))
}

/// The head and dot position of each item.
pub open spec fn index_of_items(items: Seq<(Seq<char>, usize, Item)>) -> Seq<(Seq<char>, usize)> {
    Seq::new(items.len(), |i: int| (items[i].0, items[i].1))
}

/// An LR(1) analyser under construction: the augmented language, its FIRST
/// sets (through an LL(1) analyser), the items of every production, and the
/// item sets (closures).
pub struct LR {
    pub ll: FF,
    lang: Language,
    gen_list: Vec<(String, usize, Gen)>,
    closeure: Vec<Vec<Gen>>,
    index: Vec<(String, usize)>,
}

impl LR {
    pub closed spec fn language(&self) -> Language {
        self.lang
    }

    /// The LL(1) analyser that gives the FIRST sets.
    pub closed spec fn analyser(&self) -> FF {
        self.ll
    }

    pub closed spec fn items(&self) -> Seq<(Seq<char>, usize, Item)> {
        self.gen_list.deep_view()
    }

    pub closed spec fn item_index(&self) -> Seq<(Seq<char>, usize)> {
        self.index.deep_view()
    }

    pub closed spec fn closures(&self) -> Seq<Seq<Item>> {
        self.closeure.deep_view()
    }

    /// The FIRST list for a symbol (see `lr_first`).
    fn get_first(&self, word: &String) -> (r: Vec<String>)
        requires
            self.ll.wf(),
            first_arg_ok(
                self.lang.twords.deep_view(),
                self.lang.ntwords.deep_view(),
                self.ll.first_lists(),
                word@,
            ),
        ensures
            r.deep_view() == lr_first(self.lang.twords.deep_view(), self.ll.first_lists(), word@),
    {
        let eof = owned("#");
        if contains_string(&self.lang.twords, word) || *word == eof {
            let mut r: Vec<String> = Vec::new();
            if *word == owned("nil") {
                r.push(eof);
            } else {
                r.push(word.clone());
            }
            assert(r.deep_view() =~= lr_first(self.lang.twords.deep_view(), self.ll.first_lists(), word@));
            r
        } else {
            clone_strings(self.ll.first_of(word).unwrap())
        }
    }
}

} // verus!

verus! {

proof fn lemma_flat_take<A>(ss: Seq<Seq<A>>, k: int)
    requires
        0 <= k < ss.len(),
    ensures
        flat(ss.take(k + 1)) == flat(ss.take(k)) + ss[k],
{
    assert(ss.take(k + 1).drop_last() =~= ss.take(k));
}

/// Appends the items with the dot at `p` (see `items_at`).
fn push_items_at(
    gen_list: &mut Vec<(String, usize, Gen)>,
    index: &mut Vec<(String, usize)>,
    gen: &(String, Vec<String>),
    p: usize,
    words: &Vec<String>,
    first_word: &String,
)
    requires
        index_of_items(old(gen_list).deep_view()) == old(index).deep_view(),
    ensures
        final(gen_list).deep_view() == old(gen_list).deep_view() + items_at(
            gen.0@,
            gen.1.deep_view(),
            p,
            words.deep_view(),
            first_word@,
        ),
        index_of_items(final(gen_list).deep_view()) == final(index).deep_view(),
{
    let ghost a = gen.0@;
    let ghost body = gen.1.deep_view();
    let ghost wv = words.deep_view();
    let ghost fw = first_word@;
    let ghost base = gen_list.deep_view();
    let ghost idx0 = index.deep_view();
    let g = Gen::new(gen, None, p);
    gen_list.push((gen.0.clone(), p, g));
    index.push((gen.0.clone(), p));
    assert(gen_list.deep_view() =~= base.push((a, p, lr_item(a, body, "#"@, p))));
    assert(index.deep_view() =~= idx0.push((a, p)));
    assert(index_of_items(gen_list.deep_view()) =~= index_of_items(base).push((a, p)));
    let nil = owned("nil");
    let n = words.len();
    for k in 0..n
        invariant
            n == wv.len(),
            wv == words.deep_view(),
            a == gen.0@,
            body == gen.1.deep_view(),
            fw == first_word@,
            nil@ == "nil"@,
            gen_list.deep_view() == base + seq![(a, p, lr_item(a, body, "#"@, p))] + Seq::new(
                ahead_words(wv.take(k as int), a, fw).len(),
                |q: int| (a, p, lr_item(a, body, ahead_words(wv.take(k as int), a, fw)[q], p)),
            ),
            index_of_items(gen_list.deep_view()) == index.deep_view(),
    {
        assert(wv.take(k + 1).drop_last() =~= wv.take(k as int));
        let ghost before = gen_list.deep_view();
        let ghost aw0 = ahead_words(wv.take(k as int), a, fw);
        let ghost aw1 = ahead_words(wv.take(k + 1), a, fw);
        let ghost idx1 = index.deep_view();
        if words[k] != nil && gen.0 != *first_word {
            let g = Gen::new(gen, Some(words[k].clone()), p);
            gen_list.push((gen.0.clone(), p, g));
            index.push((gen.0.clone(), p));
            assert(aw1 == aw0.push(wv[k as int]));
            assert(gen_list.deep_view() =~= before.push((a, p, lr_item(a, body, wv[k as int], p))));
            assert(index.deep_view() =~= idx1.push((a, p)));
            assert(index_of_items(gen_list.deep_view()) =~= index_of_items(before).push((a, p)));
            assert(gen_list.deep_view() =~= base + seq![(a, p, lr_item(a, body, "#"@, p))] + Seq::new(
                aw1.len(),
                |q: int| (a, p, lr_item(a, body, aw1[q], p)),
            ));
            assert(index_of_items(gen_list.deep_view()) =~= index.deep_view());
        } else {
            assert(aw1 == aw0);
        }
    }
    assert(wv.take(n as int) =~= wv);
    assert(gen_list.deep_view() =~= base + items_at(a, body, p, wv, fw));
}

impl LR {
    /// Lists the items of every production of the language, with the head
    /// and dot position of each (see `gen_items`).
    #[verifier::spinoff_prover]
    fn gen_genlist(&mut self)
        requires
            index_of_items(old(self).gen_list.deep_view()) == old(self).index.deep_view(),
        ensures
            final(self).gen_list.deep_view() == old(self).gen_list.deep_view() + gen_items(
                old(self).lang.lg.dview(),
                old(self).lang.words.deep_view(),
                old(self).lang.first_word@,
            ),
            forall|k: int|
                old(self).gen_list.deep_view().len() <= k < final(self).gen_list.deep_view().len() ==> (
                #[trigger] final(self).gen_list.deep_view()[k]).2.0.0 == final(self).gen_list.deep_view()[k].0
                    && final(self).gen_list.deep_view()[k].2.2 == final(self).gen_list.deep_view()[k].1,
            index_of_items(final(self).gen_list.deep_view()) == final(self).index.deep_view(),
            final(self).lang == old(self).lang,
            final(self).ll == old(self).ll,
            final(self).closeure == old(self).closeure,
    {
        let ghost g = self.lang.lg.dview();
        let ghost wv = self.lang.words.deep_view();
        let ghost fw = self.lang.first_word@;
        let ghost base = self.gen_list.deep_view();
        let ghost es = Seq::new(g.len(), |gi: int| entry_items(g[gi].0, g[gi].1, wv, fw));
        let nil = owned("nil");
        let ne = self.lang.lg.entries.len();
        for gi in 0..ne
            invariant
                ne == g.len(),
                g == self.lang.lg.dview(),
                wv == self.lang.words.deep_view(),
                fw == self.lang.first_word@,
                es == Seq::new(g.len(), |gi: int| entry_items(g[gi].0, g[gi].1, wv, fw)),
                nil@ == "nil"@,
                self.lang == old(self).lang,
                self.ll == old(self).ll,
                self.closeure == old(self).closeure,
                base == old(self).gen_list.deep_view(),
                self.gen_list.deep_view() == base + flat(es.take(gi as int)),
                index_of_items(self.gen_list.deep_view()) == self.index.deep_view(),
        {
            proof {
                lemma_flat_take(es, gi as int);
            }
            let ghost b1 = self.gen_list.deep_view();
            let ghost a = g[gi as int].0;
            let ghost ps = g[gi as int].1;
            let ghost bs = Seq::new(ps.len(), |j: int| body_items(a, ps[j], wv, fw));
            let nb = self.lang.lg.entries[gi].1.len();
            assert(self.lang.lg.entries@[gi as int].1.deep_view() == ps);
            for j in 0..nb
                invariant
                    nb == ps.len(),
                    0 <= gi < g.len(),
                    ps == g[gi as int].1,
                    a == g[gi as int].0,
                    bs == Seq::new(ps.len(), |j: int| body_items(a, ps[j], wv, fw)),
                    g == self.lang.lg.dview(),
                    wv == self.lang.words.deep_view(),
                    fw == self.lang.first_word@,
                    nil@ == "nil"@,
                    self.lang == old(self).lang,
                    self.ll == old(self).ll,
                    self.closeure == old(self).closeure,
                    self.gen_list.deep_view() == b1 + flat(bs.take(j as int)),
                    index_of_items(self.gen_list.deep_view()) == self.index.deep_view(),
            {
                proof {
                    lemma_flat_take(bs, j as int);
                }
                let ghost b2 = self.gen_list.deep_view();
                let entry = &self.lang.lg.entries[gi];
                assert(entry.0@ == a);
                assert(entry.1@[j as int].deep_view() == ps[j as int]);
                let gen = (entry.0.clone(), clone_strings(&entry.1[j]));
                let ghost body = ps[j as int];
                if !contains_string(&gen.1, &nil) {
                    let ghost ats = Seq::new((body.len() + 1) as nat, |p: int| items_at(a, body, p as usize, wv, fw));
                    let nl = gen.1.len();
                    for p in 0..nl
                        invariant
                            nl == body.len(),
                            gen.0@ == a,
                            gen.1.deep_view() == body,
                            ats == Seq::new((body.len() + 1) as nat, |p: int| items_at(a, body, p as usize, wv, fw)),
                            wv == self.lang.words.deep_view(),
                            fw == self.lang.first_word@,
                            self.lang == old(self).lang,
                            self.ll == old(self).ll,
                            self.closeure == old(self).closeure,
                            self.gen_list.deep_view() == b2 + flat(ats.take(p as int)),
                            index_of_items(self.gen_list.deep_view()) == self.index.deep_view(),
                    {
                        proof {
                            lemma_flat_take(ats, p as int);
                        }
                        push_items_at(&mut self.gen_list, &mut self.index, &gen, p, &self.lang.words, &self.lang.first_word);
                    }
                    proof {
                        lemma_flat_take(ats, nl as int);
                    }
                    push_items_at(&mut self.gen_list, &mut self.index, &gen, nl, &self.lang.words, &self.lang.first_word);
                    assert(ats.take((nl + 1) as int) =~= ats);
                } else {
                    let empty_gen = (gen.0.clone(), Vec::new());
                    assert(empty_gen.1.deep_view() =~= Seq::<Seq<char>>::empty());
                    push_items_at(&mut self.gen_list, &mut self.index, &empty_gen, 0, &self.lang.words, &self.lang.first_word);
                    assert(flat(seq![items_at(a, Seq::<Seq<char>>::empty(), 0, wv, fw)]) =~= items_at(a, Seq::<Seq<char>>::empty(), 0, wv, fw)) by {
                        let s1 = seq![items_at(a, Seq::<Seq<char>>::empty(), 0, wv, fw)];
                        let e = s1.drop_last();
                        assert(e =~= Seq::<Seq<(Seq<char>, usize, Item)>>::empty());
                        assert(flat(e) =~= Seq::<(Seq<char>, usize, Item)>::empty());
                        assert(Seq::<(Seq<char>, usize, Item)>::empty() + s1[0] =~= s1[0]);
                    }
                }
                assert(self.gen_list.deep_view() =~= b2 + body_items(a, body, wv, fw));
                assert(b2 + bs[j as int] =~= b1 + flat(bs.take(j + 1)));
            }
            assert(bs.take(nb as int) =~= bs);
            assert(self.gen_list.deep_view() =~= b1 + entry_items(a, ps, wv, fw));
        }
        assert(es.take(ne as int) =~= es);
        proof {
            let gi = gen_items(g, wv, fw);
            lemma_items_tagged(g, wv, fw);
            assert forall|k: int| base.len() <= k < self.gen_list.deep_view().len() implies (
            #[trigger] self.gen_list.deep_view()[k]).2.0.0 == self.gen_list.deep_view()[k].0
                && self.gen_list.deep_view()[k].2.2 == self.gen_list.deep_view()[k].1 by {
                assert(self.gen_list.deep_view()[k] == gi[k - base.len()]);
            }
        }
    }
}

} // verus!

verus! {

/// The symbol after the dot of an item.
pub open spec fn cur_sym(g: Item) -> Seq<char> {
    sym_at(g.0.1, g.2 as int)
}

/// Set `c` with item `h` added under each lookahead of `fs` other than
/// `"nil"` that it lacks, in order.
pub open spec fn expand_firsts(c: Seq<Item>, h: Item, fs: Seq<Seq<char>>) -> Seq<Item>
    decreases fs.len(),
{
    if fs.len() == 0 {
        c
    } else {
        let r = expand_firsts(c, h, fs.drop_last());
        let x = with_ahead(h, fs.last());
        if !r.contains(x) && fs.last() != "nil"@ {
            r.push(x)
        } else {
            r
        }
    }
}

/// Set `c` with, for each of the first `m` entries of the item list that is
/// an item of `sym` with the dot at the start, that item under the
/// lookaheads `fs` (see `expand_firsts`).
pub open spec fn expand_over(
    c: Seq<Item>,
    sym: Seq<char>,
    gl: Seq<(Seq<char>, usize, Item)>,
    fs: Seq<Seq<char>>,
    m: nat,
) -> Seq<Item>
    decreases m,
{
    if m == 0 {
        c
    } else {
        let r = expand_over(c, sym, gl, fs, (m - 1) as nat);
        if gl[m - 1].0 == sym && gl[m - 1].1 == 0 {
            expand_firsts(r, gl[m - 1].2, fs)
        } else {
            r
        }
    }
}

/// Set `c` after expanding item `g`: when the symbol after its dot is a
/// nonterminal, its items with the dot at the start under each lookahead of
/// `expand_first` (see `expand_over`); otherwise `c` itself.
pub open spec fn expand_spec(
    c: Seq<Item>,
    g: Item,
    gl: Seq<(Seq<char>, usize, Item)>,
    t: Seq<Seq<char>>,
    n: Seq<Seq<char>>,
    f: Seq<(Seq<char>, Seq<Seq<char>>)>,
) -> Seq<Item> {
    if n.contains(cur_sym(g)) {
        expand_over(c, cur_sym(g), gl, expand_first(t, f, g), gl.len())
    } else {
        c
    }
}

/// Set `c` after expanding each of `items` in turn.
pub open spec fn close_items(
    c: Seq<Item>,
    items: Seq<Item>,
    gl: Seq<(Seq<char>, usize, Item)>,
    t: Seq<Seq<char>>,
    n: Seq<Seq<char>>,
    f: Seq<(Seq<char>, Seq<Seq<char>>)>,
) -> Seq<Item>
    decreases items.len(),
{
    if items.len() == 0 {
        c
    } else {
        expand_spec(close_items(c, items.drop_last(), gl, t, n, f), items.last(), gl, t, n, f)
    }
}

/// One pass of closing a set: each of its items, as they were before the
/// pass, expanded in turn.
pub open spec fn close_pass(
    c: Seq<Item>,
    gl: Seq<(Seq<char>, usize, Item)>,
    t: Seq<Seq<char>>,
    n: Seq<Seq<char>>,
    f: Seq<(Seq<char>, Seq<Seq<char>>)>,
) -> Seq<Item> {
    close_items(c, c, gl, t, n, f)
}

/// Set `c` after `p` passes of closing.
pub open spec fn close_iter(
    c: Seq<Item>,
    p: nat,
    gl: Seq<(Seq<char>, usize, Item)>,
    t: Seq<Seq<char>>,
    n: Seq<Seq<char>>,
    f: Seq<(Seq<char>, Seq<Seq<char>>)>,
) -> Seq<Item>
    decreases p,
{
    if p == 0 {
        c
    } else {
        close_pass(close_iter(c, (p - 1) as nat, gl, t, n, f), gl, t, n, f)
    }
}

/// `m` is what passes of closing make of `c` once a pass changes nothing.
pub open spec fn closure_of(
    m: Seq<Item>,
    c: Seq<Item>,
    gl: Seq<(Seq<char>, usize, Item)>,
    t: Seq<Seq<char>>,
    n: Seq<Seq<char>>,
    f: Seq<(Seq<char>, Seq<Seq<char>>)>,
) -> bool {
    &&& close_pass(m, gl, t, n, f) == m
    &&& exists|p: nat| #[trigger] close_iter(c, p, gl, t, n, f) == m
}

/// The item sets to start from: for each of the first `m` entries of the
/// item list, the item and its expansions, each distinct set once.
pub open spec fn initial_sets_of(
    gl: Seq<(Seq<char>, usize, Item)>,
    t: Seq<Seq<char>>,
    n: Seq<Seq<char>>,
    f: Seq<(Seq<char>, Seq<Seq<char>>)>,
    m: nat,
) -> Seq<Seq<Item>>
    decreases m,
{
    if m == 0 {
        Seq::<Seq<Item>>::empty()
    } else {
        let r = initial_sets_of(gl, t, n, f, (m - 1) as nat);
        let g = gl[m - 1].2;
        let c = expand_spec(seq![g], g, gl, t, n, f);
        if r.contains(c) {
            r
        } else {
            r.push(c)
        }
    }
}

/// The position of the first set of `cs` from position `i` on that equals
/// `c`, or `cs.len()` when none does.
pub open spec fn first_equal(cs: Seq<Seq<Item>>, c: Seq<Item>, i: nat) -> int
    decreases cs.len() - i,
{
    if i >= cs.len() {
        cs.len() as int
    } else if cs[i as int] == c {
        i as int
    } else {
        first_equal(cs, c, i + 1)
    }
}

/// The sets without the one equal to the first set holding `g` less its
/// first item (when that is not empty, and some set equals it).
pub open spec fn drop_rest(cs: Seq<Seq<Item>>, g: Item) -> Seq<Seq<Item>> {
    let c = first_holding(cs, g, cs.len() as int, 0);
    if 0 <= c < cs.len() && cs[c].drop_first().len() > 0 {
        let j = first_equal(cs, cs[c].drop_first(), 0);
        if 0 <= j < cs.len() {
            cs.remove(j)
        } else {
            cs
        }
    } else {
        cs
    }
}

/// What passes of closing make of `c` once a pass changes nothing (see
/// `closure_of`, which holds of at most one set).
pub open spec fn closed_of(
    c: Seq<Item>,
    gl: Seq<(Seq<char>, usize, Item)>,
    t: Seq<Seq<char>>,
    n: Seq<Seq<char>>,
    f: Seq<(Seq<char>, Seq<Seq<char>>)>,
) -> Seq<Item> {
    close_iter(
        c,
        choose|p: nat| #[trigger] close_pass(close_iter(c, p, gl, t, n, f), gl, t, n, f) == close_iter(c, p, gl, t, n, f),
        gl,
        t,
        n,
        f,
    )
}

proof fn lemma_iter_stays(
    c: Seq<Item>,
    p: nat,
    d: nat,
    gl: Seq<(Seq<char>, usize, Item)>,
    t: Seq<Seq<char>>,
    n: Seq<Seq<char>>,
    f: Seq<(Seq<char>, Seq<Seq<char>>)>,
)
    requires
        close_pass(close_iter(c, p, gl, t, n, f), gl, t, n, f) == close_iter(c, p, gl, t, n, f),
    ensures
        close_iter(c, p + d, gl, t, n, f) == close_iter(c, p, gl, t, n, f),
    decreases d,
{
    if d > 0 {
        lemma_iter_stays(c, p, (d - 1) as nat, gl, t, n, f);
        assert(close_iter(c, p + d, gl, t, n, f) == close_pass(close_iter(c, (p + d - 1) as nat, gl, t, n, f), gl, t, n, f));
    }
}

/// A set that passes of closing reach and do not change is `closed_of`.
proof fn lemma_closure_unique(
    m: Seq<Item>,
    c: Seq<Item>,
    gl: Seq<(Seq<char>, usize, Item)>,
    t: Seq<Seq<char>>,
    n: Seq<Seq<char>>,
    f: Seq<(Seq<char>, Seq<Seq<char>>)>,
)
    requires
        closure_of(m, c, gl, t, n, f),
    ensures
        m == closed_of(c, gl, t, n, f),
{
    let p = choose|p: nat| #[trigger] close_iter(c, p, gl, t, n, f) == m;
    assert(close_pass(close_iter(c, p, gl, t, n, f), gl, t, n, f) == close_iter(c, p, gl, t, n, f));
    let q = choose|q: nat| #[trigger] close_pass(close_iter(c, q, gl, t, n, f), gl, t, n, f) == close_iter(c, q, gl, t, n, f);
    if p <= q {
        lemma_iter_stays(c, p, (q - p) as nat, gl, t, n, f);
        assert(p + (q - p) as nat == q);
    } else {
        lemma_iter_stays(c, q, (p - q) as nat, gl, t, n, f);
        assert(q + (p - q) as nat == p);
    }
}

/// The item sets of an analyser over the item list `gl` (with index `ix`):
/// the initial sets (see `initial_sets_of`), each closed (see `closed_of`),
/// less the start set's rest (see `drop_rest`).
pub open spec fn lr_sets(
    gl: Seq<(Seq<char>, usize, Item)>,
    ix: Seq<(Seq<char>, usize)>,
    t: Seq<Seq<char>>,
    n: Seq<Seq<char>>,
    f: Seq<(Seq<char>, Seq<Seq<char>>)>,
    fw: Seq<char>,
) -> Seq<Seq<Item>> {
    let init = initial_sets_of(gl, t, n, f, gl.len());
    drop_rest(Seq::new(init.len(), |i: int| closed_of(init[i], gl, t, n, f)), gl[last_index_of(ix, (fw, 0usize))].2)
}

/// The lookaheads that expanding an item gives: the FIRST list of the symbol
/// one past the dot, or of the item's lookahead when there is none.
pub open spec fn expand_first(t: Seq<Seq<char>>, f: Seq<(Seq<char>, Seq<Seq<char>>)>, g: Item) -> Seq<
    Seq<char>,
> {
    let nx = sym_at(g.0.1, g.2 + 1);
    if nx == "#"@ {
        lr_first(t, f, g.1)
    } else {
        lr_first(t, f, nx)
    }
}

/// An item set holds every expansion of item `g`: when the symbol after the
/// dot is a nonterminal `B`, each item of `B` with the dot at the start, with
/// each lookahead of `expand_first` other than `"nil"`.
pub open spec fn item_closed(
    t: Seq<Seq<char>>,
    n: Seq<Seq<char>>,
    f: Seq<(Seq<char>, Seq<Seq<char>>)>,
    gl: Seq<(Seq<char>, usize, Item)>,
    c: Seq<Item>,
    g: Item,
) -> bool {
    n.contains(cur_sym(g)) ==> forall|i: int, a: Seq<char>|
        0 <= i < gl.len() && gl[i].0 == cur_sym(g) && gl[i].1 == 0 && #[trigger] expand_first(t, f, g).contains(a)
            && a != "nil"@ ==> c.contains(#[trigger] with_ahead(gl[i].2, a))
}

/// Every item of the set has its expansions in the set: an LR(1) closure.
pub open spec fn set_closed(
    t: Seq<Seq<char>>,
    n: Seq<Seq<char>>,
    f: Seq<(Seq<char>, Seq<Seq<char>>)>,
    gl: Seq<(Seq<char>, usize, Item)>,
    c: Seq<Item>,
) -> bool {
    forall|k: int| 0 <= k < c.len() ==> #[trigger] item_closed(t, n, f, gl, c, c[k])
}

/// The symbol whose FIRST list gives the lookaheads of an item's
/// expansions: the one after the symbol after the dot, or the item's own
/// lookahead where that is the end (`"#"`).
pub open spec fn first_source(g: Item) -> Seq<char> {
    let nx = sym_at(g.0.1, g.2 + 1);
    if nx == "#"@ {
        g.1
    } else {
        nx
    }
}

/// `get_first` can answer for what an item's expansion asks it about (when
/// the symbol after the dot is a nonterminal), and the dot is within a body
/// shorter than `usize::MAX`.
pub open spec fn item_ok(
    t: Seq<Seq<char>>,
    n: Seq<Seq<char>>,
    f: Seq<(Seq<char>, Seq<Seq<char>>)>,
    g: Item,
) -> bool {
    &&& n.contains(cur_sym(g)) ==> first_arg_ok(t, n, f, first_source(g))
    &&& g.2 <= g.3
    &&& g.3 == g.0.1.len()
    &&& g.3 < usize::MAX
}

/// The lookaheads that items can have: `"#"`, the words and the terminals.
pub open spec fn ahead_universe(words: Seq<Seq<char>>, t: Seq<Seq<char>>) -> Seq<Seq<char>> {
    seq!["#"@] + words + t
}

/// Every item of the list with each possible lookahead: all that item sets
/// can hold.
pub open spec fn item_universe(gl: Seq<(Seq<char>, usize, Item)>, aseq: Seq<Seq<char>>) -> Set<Item> {
    flat(Seq::new(gl.len(), |k: int| Seq::new(aseq.len(), |j: int| with_ahead(gl[k].2, aseq[j])))).to_set()
}

proof fn lemma_in_universe(gl: Seq<(Seq<char>, usize, Item)>, aseq: Seq<Seq<char>>, k: int, a: Seq<char>)
    requires
        0 <= k < gl.len(),
        aseq.contains(a),
    ensures
        item_universe(gl, aseq).contains(with_ahead(gl[k].2, a)),
{
    let j = choose|j: int| 0 <= j < aseq.len() && aseq[j] == a;
    let ss = Seq::new(gl.len(), |k2: int| Seq::new(aseq.len(), |j2: int| with_ahead(gl[k2].2, aseq[j2])));
    assert(ss[k][j] == with_ahead(gl[k].2, a));
    crate::growth::lemma_flat_contains(ss, k, with_ahead(gl[k].2, a));
}

/// FIRST lists hold only terminals.
proof fn lemma_first_terminal(
    g: Seq<(Seq<char>, Seq<Seq<Seq<char>>>)>,
    t: Seq<Seq<char>>,
    n: Seq<Seq<char>>,
    a: Seq<char>,
    x: Seq<char>,
    k: nat,
)
    requires
        crate::first::first_step(g, t, n, a, x, k),
    ensures
        t.contains(x),
    decreases k,
{
    let ps = crate::first::prods_of(g, a);
    if crate::first::init_first(ps, t).contains(x) {
        lemma_init_first_terminal(ps, t, x);
    } else {
        let j = choose|j: int|
            0 <= j < ps.len() && n.contains(#[trigger] ps[j][0])
                && crate::first::first_step(g, t, n, ps[j][0], x, (k - 1) as nat);
        lemma_first_terminal(g, t, n, ps[j][0], x, (k - 1) as nat);
    }
}

proof fn lemma_init_first_terminal(ps: Seq<Seq<Seq<char>>>, t: Seq<Seq<char>>, x: Seq<char>)
    requires
        crate::first::init_first(ps, t).contains(x),
    ensures
        t.contains(x),
    decreases ps.len(),
{
    if ps.len() > 0 {
        let p = crate::first::init_first(ps.drop_last(), t);
        if t.contains(ps.last()[0]) && x == ps.last()[0] {
        } else if t.contains(ps.last()[0]) {
            let i = choose|i: int| 0 <= i < p.push(ps.last()[0]).len() && p.push(ps.last()[0])[i] == x;
            assert(p[i] == x);
            lemma_init_first_terminal(ps.drop_last(), t, x);
        } else {
            lemma_init_first_terminal(ps.drop_last(), t, x);
        }
    }
}

} // verus!

verus! {

impl LR {
    /// What the item sets are built on: the LL(1) analyser holds the FIRST
    /// sets of the language, the index lists the head and dot position of each
    /// item, and every item is one that `get_first` can expand.
    pub closed spec fn wf(&self) -> bool {
        &&& self.ll.wf()
        &&& self.lang.lg.wf()
        &&& crate::first::first_exact(
            self.lang.lg.dview(),
            self.lang.twords.deep_view(),
            self.lang.ntwords.deep_view(),
            self.ll.first_lists(),
        )
        &&& index_of_items(self.gen_list.deep_view()) == self.index.deep_view()
        &&& forall|k: int|
            0 <= k < self.gen_list.deep_view().len() ==> item_ok(
                self.lang.twords.deep_view(),
                self.lang.ntwords.deep_view(),
                self.ll.first_lists(),
                #[trigger] self.gen_list.deep_view()[k].2,
            ) && ahead_universe(self.lang.words.deep_view(), self.lang.twords.deep_view()).contains(
                self.gen_list.deep_view()[k].2.1,
            )
    }

    /// Every lookahead that `get_first` gives is `"#"` or a terminal.
    proof fn lemma_lr_first(&self, w: Seq<char>, a: Seq<char>)
        requires
            self.wf(),
            first_arg_ok(self.lang.twords.deep_view(), self.lang.ntwords.deep_view(), self.ll.first_lists(), w),
            lr_first(self.lang.twords.deep_view(), self.ll.first_lists(), w).contains(a),
        ensures
            a == "#"@ || self.lang.twords.deep_view().contains(a),
    {
        let t = self.lang.twords.deep_view();
        let f = self.ll.first_lists();
        let g = self.lang.lg.dview();
        let n = self.lang.ntwords.deep_view();
        if t.contains(w) || w == "#"@ {
            if w == "nil"@ {
                assert(seq!["#"@][0] == "#"@);
            } else {
                assert(seq![w][0] == w);
            }
        } else {
            let i = keys_of(f).index_of(w);
            lemma_lookup_at(f, i);
            assert(f[i].1.contains(a));
            assert(crate::first::in_first(g, t, n, f[i].0, a));
            let k = choose|k: nat| crate::first::first_step(g, t, n, f[i].0, a, k);
            lemma_first_terminal(g, t, n, f[i].0, a, k);
        }
    }

    /// Adds to `c` every expansion of item `g` that it lacks (see
    /// `item_closed`); says whether it added any.
    #[verifier::spinoff_prover]
    fn expand_item(&self, c: &mut Vec<Gen>, g: &Gen) -> (added: bool)
        requires
            self.wf(),
            item_ok(self.lang.twords.deep_view(), self.lang.ntwords.deep_view(), self.ll.first_lists(), g.deep_view()),
            forall|x: Item| #[trigger] old(c).deep_view().contains(x) ==> item_ok(
                self.lang.twords.deep_view(),
                self.lang.ntwords.deep_view(),
                self.ll.first_lists(),
                x,
            ) && item_universe(
                self.gen_list.deep_view(),
                ahead_universe(self.lang.words.deep_view(), self.lang.twords.deep_view()),
            ).contains(x),
        ensures
            final(c).deep_view().len() >= old(c).deep_view().len(),
            final(c).deep_view().take(old(c).deep_view().len() as int) == old(c).deep_view(),
            forall|x: Item| #[trigger] final(c).deep_view().contains(x) ==> item_ok(
                self.lang.twords.deep_view(),
                self.lang.ntwords.deep_view(),
                self.ll.first_lists(),
                x,
            ) && item_universe(
                self.gen_list.deep_view(),
                ahead_universe(self.lang.words.deep_view(), self.lang.twords.deep_view()),
            ).contains(x),
            added <==> exists|x: Item| #[trigger] final(c).deep_view().contains(x) && !old(c).deep_view().contains(x),
            !added ==> final(c).deep_view() == old(c).deep_view(),
            item_closed(
                self.lang.twords.deep_view(),
                self.lang.ntwords.deep_view(),
                self.ll.first_lists(),
                self.gen_list.deep_view(),
                final(c).deep_view(),
                g.deep_view(),
            ),
            final(c).deep_view() == expand_spec(
                old(c).deep_view(),
                g.deep_view(),
                self.gen_list.deep_view(),
                self.lang.twords.deep_view(),
                self.lang.ntwords.deep_view(),
                self.ll.first_lists(),
            ),
    {
        let ghost t = self.lang.twords.deep_view();
        let ghost n = self.lang.ntwords.deep_view();
        let ghost f = self.ll.first_lists();
        let ghost gl = self.gen_list.deep_view();
        let ghost aseq = ahead_universe(self.lang.words.deep_view(), t);
        let ghost u = item_universe(gl, aseq);
        let ghost gv = g.deep_view();
        let ghost c0 = c.deep_view();
        let curr = g.get_current_place();
        if !contains_string(&self.lang.ntwords, &curr) {
            assert(c.deep_view().take(c0.len() as int) =~= c0);
            return false;
        }
        let nx = g.get_next_place();
        let eof = owned("#");
        let fst = if nx == eof {
            self.get_first(&g.ahead)
        } else {
            assert(gv.2 + 1 < gv.0.1.len());
            assert(first_arg_ok(t, n, f, gv.0.1[gv.2 + 1]));
            self.get_first(&nx)
        };
        assert(fst.deep_view() == expand_first(t, f, gv));
        proof {
            assert forall|a: Seq<char>| fst.deep_view().contains(a) implies aseq.contains(a) && first_arg_ok(t, n, f, a) by {
                if nx@ == "#"@ {
                    self.lemma_lr_first(gv.1, a);
                } else {
                    self.lemma_lr_first(nx@, a);
                }
                if a == "#"@ {
                    assert(aseq[0] == a);
                } else {
                    let j = choose|j: int| 0 <= j < t.len() && t[j] == a;
                    assert(aseq[1 + self.lang.words.deep_view().len() + j] == a);
                }
            }
        }
        let nil = owned("nil");
        let mut added = false;
        let ni = self.index.len();
        assert(self.index.deep_view().len() == self.index@.len());
        for i in 0..ni
            invariant
                ni == gl.len(),
                self.index@.len() == ni,
                self.wf(),
                t == self.lang.twords.deep_view(),
                n == self.lang.ntwords.deep_view(),
                f == self.ll.first_lists(),
                gl == self.gen_list.deep_view(),
                aseq == ahead_universe(self.lang.words.deep_view(), t),
                u == item_universe(gl, aseq),
                gv == g.deep_view(),
                curr@ == cur_sym(gv),
                nil@ == "nil"@,
                fst.deep_view() == expand_first(t, f, gv),
                forall|a: Seq<char>| #[trigger] fst.deep_view().contains(a) ==> aseq.contains(a) && first_arg_ok(t, n, f, a),
                c.deep_view().len() >= c0.len(),
                c.deep_view().take(c0.len() as int) == c0,
                forall|x: Item| #[trigger] c.deep_view().contains(x) ==> item_ok(t, n, f, x) && u.contains(x),
                added <==> exists|x: Item| #[trigger] c.deep_view().contains(x) && !c0.contains(x),
                !added ==> c.deep_view() == c0,
                forall|i2: int, a: Seq<char>|
                    0 <= i2 < i && gl[i2].0 == cur_sym(gv) && gl[i2].1 == 0 && #[trigger] fst.deep_view().contains(a) && a
                        != "nil"@ ==> c.deep_view().contains(#[trigger] with_ahead(gl[i2].2, a)),
                c.deep_view() == expand_over(c0, cur_sym(gv), gl, fst.deep_view(), i as nat),
        {
            assert(self.index.deep_view()[i as int] == (gl[i as int].0, gl[i as int].1));
            let ghost ci = c.deep_view();
            if self.index[i].0 == curr && self.index[i].1 == 0 {
                let h = &self.gen_list[i].2;
                let ghost hv = gl[i as int].2;
                assert(h.deep_view() == hv);
                assert(item_ok(t, n, f, hv));
                let nf = fst.len();
                for fi in 0..nf
                    invariant
                        nf == fst@.len(),
                        0 <= i < gl.len(),
                        hv == gl[i as int].2,
                        h.deep_view() == hv,
                        item_ok(t, n, f, hv),
                        u == item_universe(gl, aseq),
                        nil@ == "nil"@,
                        forall|a: Seq<char>| #[trigger] fst.deep_view().contains(a) ==> aseq.contains(a) && first_arg_ok(t, n, f, a),
                        c.deep_view().len() >= c0.len(),
                        c.deep_view().take(c0.len() as int) == c0,
                        forall|x: Item| #[trigger] c.deep_view().contains(x) ==> item_ok(t, n, f, x) && u.contains(x),
                        added <==> exists|x: Item| #[trigger] c.deep_view().contains(x) && !c0.contains(x),
                        !added ==> c.deep_view() == c0,
                        forall|i2: int, a: Seq<char>|
                            0 <= i2 < i && gl[i2].0 == cur_sym(gv) && gl[i2].1 == 0 && #[trigger] fst.deep_view().contains(a)
                                && a != "nil"@ ==> c.deep_view().contains(#[trigger] with_ahead(gl[i2].2, a)),
                        forall|k: int| 0 <= k < fi && fst.deep_view()[k] != "nil"@ ==> c.deep_view().contains(
                            #[trigger] with_ahead(hv, fst.deep_view()[k]),
                        ),
                        c.deep_view() == expand_firsts(ci, hv, fst.deep_view().take(fi as int)),
                {
                    assert(fst.deep_view().take(fi + 1).drop_last() =~= fst.deep_view().take(fi as int));
                    assert(fst.deep_view().take(fi + 1).last() == fst.deep_view()[fi as int]);
                    let mut gt = h.duplicate();
                    gt.ahead = fst[fi].clone();
                    let ghost a = fst.deep_view()[fi as int];
                    assert(gt.deep_view() == with_ahead(hv, a));
                    assert(fst.deep_view().contains(a));
                    let ghost before = c.deep_view();
                    if !gens_contains(c, &gt) && fst[fi] != nil {
                        proof {
                            lemma_in_universe(gl, aseq, i as int, a);
                        }
                        assert(item_ok(t, n, f, with_ahead(hv, a))) by {
                            assert(first_arg_ok(t, n, f, a));
                            assert(cur_sym(with_ahead(hv, a)) == cur_sym(hv));
                        }
                        c.push(gt);
                        assert(c.deep_view() =~= before.push(with_ahead(hv, a)));
                        assert(c.deep_view().contains(with_ahead(hv, a)));
                        assert(c.deep_view().take(c0.len() as int) =~= before.take(c0.len() as int));
                        assert(c.deep_view()[before.len() as int] == with_ahead(hv, a));
                        assert(!c0.contains(with_ahead(hv, a))) by {
                            if c0.contains(with_ahead(hv, a)) {
                                let q = choose|q: int| 0 <= q < c0.len() && c0[q] == with_ahead(hv, a);
                                assert(before[q] == c0[q]);
                            }
                        }
                        assert forall|x: Item| #[trigger] c.deep_view().contains(x) implies item_ok(t, n, f, x) && u.contains(x) by {
                            if x != with_ahead(hv, a) {
                                let q = choose|q: int| 0 <= q < c.deep_view().len() && c.deep_view()[q] == x;
                                assert(before[q] == x);
                            }
                        }
                        assert forall|x: Item| before.contains(x) implies c.deep_view().contains(x) by {
                            let q = choose|q: int| 0 <= q < before.len() && before[q] == x;
                            assert(c.deep_view()[q] == x);
                        }
                        added = true;
                    } else {
                    }
                    assert forall|x: Item| before.contains(x) implies c.deep_view().contains(x) by {
                        if before.contains(x) {
                            let q = choose|q: int| 0 <= q < before.len() && before[q] == x;
                            assert(c.deep_view()[q] == x);
                        }
                    }
                }
            }
        }
        added
    }
}

} // verus!

verus! {

/// Whether a list of item sets holds the set `c`.
pub fn closures_contains(cs: &Vec<Vec<Gen>>, c: &Vec<Gen>) -> (r: bool)
    ensures
        r == cs.deep_view().contains(c.deep_view()),
{
    let n = cs.len();
    for i in 0..n
        invariant
            n == cs@.len(),
            forall|j: int| 0 <= j < i ==> cs@[j].deep_view() != c.deep_view(),
    {
        if gens_eq(&cs[i], c) {
            assert(cs.deep_view()[i as int] == c.deep_view());
            return true;
        }
    }
    assert(!cs.deep_view().contains(c.deep_view())) by {
        if cs.deep_view().contains(c.deep_view()) {
            let j = choose|j: int| 0 <= j < cs.deep_view().len() && cs.deep_view()[j] == c.deep_view();
            assert(cs@[j].deep_view() == c.deep_view());
        }
    }
    false
}

/// The item sets, each with its position as key.
pub open spec fn cl_pairs(cs: Seq<Seq<Item>>) -> Seq<(int, Seq<Item>)> {
    Seq::new(cs.len(), |i: int| (i, cs[i]))
}

/// Every item of every set is one that `get_first` can expand and one of the
/// finitely many that sets can hold.
pub open spec fn sets_ok(
    t: Seq<Seq<char>>,
    n: Seq<Seq<char>>,
    f: Seq<(Seq<char>, Seq<Seq<char>>)>,
    u: Set<Item>,
    cs: Seq<Seq<Item>>,
) -> bool {
    forall|i: int, x: Item| 0 <= i < cs.len() && #[trigger] cs[i].contains(x) ==> item_ok(t, n, f, x) && u.contains(x)
}

/// Every set starts with an item of the list (with its own lookahead).
pub open spec fn sets_seeded(gl: Seq<(Seq<char>, usize, Item)>, cs: Seq<Seq<Item>>) -> bool {
    forall|i: int| 0 <= i < cs.len() ==> #[trigger] cs[i].len() > 0 && exists|k: int| 0 <= k < gl.len() && cs[i][0] == gl[k].2
}

proof fn lemma_item_closed_grow(
    t: Seq<Seq<char>>,
    n: Seq<Seq<char>>,
    f: Seq<(Seq<char>, Seq<Seq<char>>)>,
    gl: Seq<(Seq<char>, usize, Item)>,
    c: Seq<Item>,
    c2: Seq<Item>,
    g: Item,
)
    requires
        item_closed(t, n, f, gl, c, g),
        forall|x: Item| c.contains(x) ==> c2.contains(x),
    ensures
        item_closed(t, n, f, gl, c2, g),
{
}

impl LR {
    /// The items that item sets can hold.
    pub closed spec fn universe(&self) -> Set<Item> {
        item_universe(self.gen_list.deep_view(), ahead_universe(self.lang.words.deep_view(), self.lang.twords.deep_view()))
    }

    /// The item sets hold items that can be expanded, drawn from the universe.
    pub closed spec fn sets_ok(&self) -> bool {
        sets_ok(self.lang.twords.deep_view(), self.lang.ntwords.deep_view(), self.ll.first_lists(), self.universe(), self.closeure.deep_view())
    }

    /// Every item set is an LR(1) closure.
    pub closed spec fn sets_closed(&self) -> bool {
        forall|i: int|
            0 <= i < self.closeure.deep_view().len() ==> #[trigger] set_closed(
                self.lang.twords.deep_view(),
                self.lang.ntwords.deep_view(),
                self.ll.first_lists(),
                self.gen_list.deep_view(),
                self.closeure.deep_view()[i],
            )
    }

    /// Expands every item of `c` once; says whether an item was added.
    #[verifier::spinoff_prover]
    #[verifier::rlimit(30)]
    fn close_one(&self, c: &mut Vec<Gen>) -> (added: bool)
        requires
            self.wf(),
            old(c).deep_view().len() > 0,
            forall|x: Item| #[trigger] old(c).deep_view().contains(x) ==> item_ok(
                self.lang.twords.deep_view(),
                self.lang.ntwords.deep_view(),
                self.ll.first_lists(),
                x,
            ) && self.universe().contains(x),
        ensures
            final(c).deep_view().len() >= old(c).deep_view().len(),
            final(c).deep_view().take(old(c).deep_view().len() as int) == old(c).deep_view(),
            forall|x: Item| #[trigger] final(c).deep_view().contains(x) ==> item_ok(
                self.lang.twords.deep_view(),
                self.lang.ntwords.deep_view(),
                self.ll.first_lists(),
                x,
            ) && self.universe().contains(x),
            added <==> exists|x: Item| #[trigger] final(c).deep_view().contains(x) && !old(c).deep_view().contains(x),
            !added ==> final(c).deep_view() == old(c).deep_view(),
            !added ==> set_closed(
                self.lang.twords.deep_view(),
                self.lang.ntwords.deep_view(),
                self.ll.first_lists(),
                self.gen_list.deep_view(),
                final(c).deep_view(),
            ),
            final(c).deep_view() == close_pass(
                old(c).deep_view(),
                self.gen_list.deep_view(),
                self.lang.twords.deep_view(),
                self.lang.ntwords.deep_view(),
                self.ll.first_lists(),
            ),
    {
        let ghost t = self.lang.twords.deep_view();
        let ghost n = self.lang.ntwords.deep_view();
        let ghost f = self.ll.first_lists();
        let ghost gl = self.gen_list.deep_view();
        let ghost u = self.universe();
        let ghost c0 = c.deep_view();
        let snap = clone_gens(c);
        let ns = snap.len();
        let mut added = false;
        assert(c0.take(0) =~= Seq::<Item>::empty());
        for gi in 0..ns
            invariant
                ns == snap@.len(),
                snap.deep_view() == c0,
                self.wf(),
                t == self.lang.twords.deep_view(),
                n == self.lang.ntwords.deep_view(),
                f == self.ll.first_lists(),
                gl == self.gen_list.deep_view(),
                u == self.universe(),
                c.deep_view().len() >= c0.len(),
                c.deep_view().take(c0.len() as int) == c0,
                forall|x: Item| #[trigger] c.deep_view().contains(x) ==> item_ok(t, n, f, x) && u.contains(x),
                added <==> exists|x: Item| #[trigger] c.deep_view().contains(x) && !c0.contains(x),
                !added ==> c.deep_view() == c0,
                forall|k: int| 0 <= k < gi ==> #[trigger] item_closed(t, n, f, gl, c.deep_view(), c0[k]),
                c.deep_view() == close_items(c0, c0.take(gi as int), gl, t, n, f),
        {
            assert(c0.take(gi + 1).drop_last() =~= c0.take(gi as int));
            assert(c0.take(gi + 1).last() == c0[gi as int]);
            let ghost before = c.deep_view();
            assert(c0.contains(c0[gi as int]));
            assert(before.take(c0.len() as int)[gi as int] == c0[gi as int]);
            assert(before.contains(c0[gi as int]));
            assert(snap.deep_view()[gi as int] == c0[gi as int]);
            let a = self.expand_item(c, &snap[gi]);
            proof {
                let after = c.deep_view();
                assert forall|x: Item| before.contains(x) implies after.contains(x) by {
                    let q = choose|q: int| 0 <= q < before.len() && before[q] == x;
                    assert(after.take(before.len() as int)[q] == x);
                }
                assert(after.take(c0.len() as int) =~= before.take(c0.len() as int)) by {
                    assert(after.take(before.len() as int) == before);
                }
                assert forall|k: int| 0 <= k < gi + 1 implies #[trigger] item_closed(t, n, f, gl, after, c0[k]) by {
                    if k < gi {
                        lemma_item_closed_grow(t, n, f, gl, before, after, c0[k]);
                    }
                }
                if a {
                    let x = choose|x: Item| #[trigger] after.contains(x) && !before.contains(x);
                    if c0.contains(x) {
                        let q = choose|q: int| 0 <= q < c0.len() && c0[q] == x;
                        assert(before.take(c0.len() as int)[q] == x);
                    }
                }
                if added {
                    let x = choose|x: Item| #[trigger] before.contains(x) && !c0.contains(x);
                    assert(after.contains(x));
                }
            }
            added = added || a;
        }
        proof {
            assert(c0.take(ns as int) =~= c0);
            if !added {
                assert forall|k: int| 0 <= k < c.deep_view().len() implies #[trigger] item_closed(t, n, f, gl, c.deep_view(), c.deep_view()[k]) by {
                    assert(c.deep_view()[k] == c0[k]);
                }
            }
        }
        added
    }

    /// One item set per item of the list: the item and its expansions, each
    /// distinct set once.
    fn initial_sets(&mut self)
        requires
            old(self).wf(),
            old(self).closeure@.len() == 0,
        ensures
            final(self).wf(),
            final(self).lang == old(self).lang,
            final(self).ll == old(self).ll,
            final(self).gen_list == old(self).gen_list,
            final(self).index == old(self).index,
            final(self).sets_ok(),
            sets_seeded(final(self).gen_list.deep_view(), final(self).closeure.deep_view()),
            final(self).closeure.deep_view() == initial_sets_of(
                old(self).gen_list.deep_view(),
                old(self).lang.twords.deep_view(),
                old(self).lang.ntwords.deep_view(),
                old(self).ll.first_lists(),
                old(self).gen_list.deep_view().len(),
            ),
    {
        let ghost t = self.lang.twords.deep_view();
        let ghost n = self.lang.ntwords.deep_view();
        let ghost f = self.ll.first_lists();
        let ghost gl = self.gen_list.deep_view();
        let ghost aseq = ahead_universe(self.lang.words.deep_view(), t);
        let ghost u = self.universe();
        let ng = self.gen_list.len();
        assert(self.closeure.deep_view() =~= Seq::<Seq<Item>>::empty());
        for k in 0..ng
            invariant
                ng == gl.len(),
                self.wf(),
                self.lang == old(self).lang,
                self.ll == old(self).ll,
                self.gen_list == old(self).gen_list,
                self.index == old(self).index,
                t == self.lang.twords.deep_view(),
                n == self.lang.ntwords.deep_view(),
                f == self.ll.first_lists(),
                gl == self.gen_list.deep_view(),
                aseq == ahead_universe(self.lang.words.deep_view(), t),
                u == self.universe(),
                sets_ok(t, n, f, u, self.closeure.deep_view()),
                sets_seeded(gl, self.closeure.deep_view()),
                self.closeure.deep_view() == initial_sets_of(gl, t, n, f, k as nat),
        {
            let gen = self.gen_list[k].2.duplicate();
            let ghost gv = gl[k as int].2;
            assert(gen.deep_view() == gv);
            assert(item_ok(t, n, f, gv));
            proof {
                lemma_in_universe(gl, aseq, k as int, gv.1);
                assert(with_ahead(gl[k as int].2, gv.1) == gv);
            }
            let mut closure: Vec<Gen> = Vec::new();
            closure.push(gen.duplicate());
            assert(closure.deep_view() =~= seq![gv]);
            let _ = self.expand_item(&mut closure, &gen);
            assert(closure.deep_view().take(1)[0] == gv);
            assert(closure.deep_view()[0] == gv);
            if !closures_contains(&self.closeure, &closure) {
                let ghost before = self.closeure.deep_view();
                self.closeure.push(closure);
                assert(self.closeure.deep_view() =~= before.push(self.closeure@[self.closeure@.len() - 1].deep_view()));
                assert forall|i: int, x: Item| 0 <= i < self.closeure.deep_view().len() && #[trigger] self.closeure.deep_view()[i].contains(x)
                    implies item_ok(t, n, f, x) && u.contains(x) by {
                    if i < before.len() {
                        assert(self.closeure.deep_view()[i] == before[i]);
                    }
                }
                assert forall|i: int| 0 <= i < self.closeure.deep_view().len() implies #[trigger] self.closeure.deep_view()[i].len() > 0
                    && exists|k2: int| 0 <= k2 < gl.len() && self.closeure.deep_view()[i][0] == gl[k2].2 by {
                    if i < before.len() {
                        assert(self.closeure.deep_view()[i] == before[i]);
                    } else {
                        assert(self.closeure.deep_view()[i][0] == gl[k as int].2);
                    }
                }
            }
        }
    }

    /// Expands the item sets until each is an LR(1) closure.
    #[verifier::spinoff_prover]
    fn close_sets(&mut self)
        requires
            old(self).wf(),
            old(self).sets_ok(),
            sets_seeded(old(self).gen_list.deep_view(), old(self).closeure.deep_view()),
        ensures
            final(self).wf(),
            final(self).lang == old(self).lang,
            final(self).ll == old(self).ll,
            final(self).gen_list == old(self).gen_list,
            final(self).index == old(self).index,
            final(self).sets_ok(),
            sets_seeded(final(self).gen_list.deep_view(), final(self).closeure.deep_view()),
            final(self).sets_closed(),
            final(self).closeure.deep_view().len() == old(self).closeure.deep_view().len(),
            forall|i: int|
                0 <= i < old(self).closeure.deep_view().len() ==> #[trigger] closure_of(
                    final(self).closeure.deep_view()[i],
                    old(self).closeure.deep_view()[i],
                    old(self).gen_list.deep_view(),
                    old(self).lang.twords.deep_view(),
                    old(self).lang.ntwords.deep_view(),
                    old(self).ll.first_lists(),
                ),
    {
        let ghost t = self.lang.twords.deep_view();
        let ghost n = self.lang.ntwords.deep_view();
        let ghost f = self.ll.first_lists();
        let ghost gl = self.gen_list.deep_view();
        let ghost u = self.universe();
        let ghost init = self.closeure.deep_view();
        let ghost mut p: nat = 0;
        proof {
            crate::growth::lemma_gap_sum_nonneg(cl_pairs(self.closeure.deep_view()), u);
            assert forall|i: int| 0 <= i < init.len() implies #[trigger] close_iter(init[i], 0, gl, t, n, f) == self.closeure.deep_view()[i] by {}
        }
        let mut changed = true;
        while changed
            invariant
                self.wf(),
                self.lang == old(self).lang,
                self.ll == old(self).ll,
                self.gen_list == old(self).gen_list,
                self.index == old(self).index,
                t == self.lang.twords.deep_view(),
                n == self.lang.ntwords.deep_view(),
                f == self.ll.first_lists(),
                gl == self.gen_list.deep_view(),
                u == self.universe(),
                u.finite(),
                sets_ok(t, n, f, u, self.closeure.deep_view()),
                sets_seeded(gl, self.closeure.deep_view()),
                crate::growth::gap_sum(cl_pairs(self.closeure.deep_view()), u) >= 0,
                !changed ==> forall|i: int| 0 <= i < self.closeure.deep_view().len() ==> #[trigger] set_closed(t, n, f, gl, self.closeure.deep_view()[i]),
                init == old(self).closeure.deep_view(),
                self.closeure.deep_view().len() == init.len(),
                forall|i: int| 0 <= i < init.len() ==> #[trigger] close_iter(init[i], p, gl, t, n, f) == self.closeure.deep_view()[i],
                !changed ==> forall|i: int| 0 <= i < init.len() ==> #[trigger] close_pass(self.closeure.deep_view()[i], gl, t, n, f) == self.closeure.deep_view()[i],
            decreases crate::growth::gap_sum(cl_pairs(self.closeure.deep_view()), u) + if changed { 1int } else { 0int },
        {
            changed = false;
            let ghost l0 = self.closeure.deep_view();
            let ghost m0 = crate::growth::gap_sum(cl_pairs(l0), u);
            let nc = self.closeure.len();
            for ci in 0..nc
                invariant
                    nc == self.closeure@.len(),
                    self.wf(),
                    self.lang == old(self).lang,
                    self.ll == old(self).ll,
                    self.gen_list == old(self).gen_list,
                    self.index == old(self).index,
                    t == self.lang.twords.deep_view(),
                    n == self.lang.ntwords.deep_view(),
                    f == self.ll.first_lists(),
                    gl == self.gen_list.deep_view(),
                    u == self.universe(),
                    u.finite(),
                    sets_ok(t, n, f, u, self.closeure.deep_view()),
                    sets_seeded(gl, self.closeure.deep_view()),
                    crate::growth::gap_sum(cl_pairs(self.closeure.deep_view()), u) + (if changed { 1int } else { 0int }) <= m0,
                    !changed ==> self.closeure.deep_view() == l0,
                    !changed ==> forall|i: int| 0 <= i < ci ==> #[trigger] set_closed(t, n, f, gl, self.closeure.deep_view()[i]),
                    init == old(self).closeure.deep_view(),
                    l0.len() == init.len(),
                    self.closeure.deep_view().len() == init.len(),
                    forall|i: int| 0 <= i < init.len() ==> #[trigger] close_iter(init[i], p, gl, t, n, f) == l0[i],
                    forall|i: int| 0 <= i < ci ==> #[trigger] close_pass(l0[i], gl, t, n, f) == self.closeure.deep_view()[i],
                    forall|i: int| ci <= i < init.len() ==> #[trigger] self.closeure.deep_view()[i] == l0[i],
            {
                let ghost cs = self.closeure.deep_view();
                let ghost c0 = cs[ci as int];
                let mut c = clone_gens(&self.closeure[ci]);
                assert(c0.len() > 0);
                assert forall|x: Item| #[trigger] c0.contains(x) implies item_ok(t, n, f, x) && u.contains(x) by {
                    assert(cs[ci as int].contains(x));
                }
                let a = self.close_one(&mut c);
                let ghost cv = c.deep_view();
                proof {
                    crate::growth::lemma_gap_of_grow(c0, cv, u);
                    assert forall|x: Item| c0.contains(x) implies cv.contains(x) by {
                        let q = choose|q: int| 0 <= q < c0.len() && c0[q] == x;
                        assert(cv.take(c0.len() as int)[q] == x);
                    }
                    crate::growth::lemma_gap_of_grow(c0, cv, u);
                    crate::growth::lemma_gap_sum_update(cl_pairs(cs), ci as int, (ci as int, cv), u);
                    assert(cl_pairs(cs)[ci as int] == (ci as int, c0));
                }
                self.closeure.set(ci, c);
                proof {
                    assert(self.closeure.deep_view() =~= cs.update(ci as int, cv));
                    assert(cl_pairs(self.closeure.deep_view()) =~= cl_pairs(cs).update(ci as int, (ci as int, cv)));
                    assert forall|i: int, x: Item| 0 <= i < self.closeure.deep_view().len() && #[trigger] self.closeure.deep_view()[i].contains(x)
                        implies item_ok(t, n, f, x) && u.contains(x) by {
                        if i != ci {
                            assert(self.closeure.deep_view()[i] == cs[i]);
                        }
                    }
                    assert forall|i: int| 0 <= i < self.closeure.deep_view().len() implies #[trigger] self.closeure.deep_view()[i].len() > 0
                        && exists|k2: int| 0 <= k2 < gl.len() && self.closeure.deep_view()[i][0] == gl[k2].2 by {
                        if i != ci {
                            assert(self.closeure.deep_view()[i] == cs[i]);
                        } else {
                            assert(cv.take(c0.len() as int)[0] == c0[0]);
                        }
                    }
                    if !(changed || a) {
                        assert(self.closeure.deep_view() =~= cs);
                    }
                }
                changed = changed || a;
            }
            proof {
                crate::growth::lemma_gap_sum_nonneg(cl_pairs(self.closeure.deep_view()), u);
                assert forall|i: int| 0 <= i < init.len() implies #[trigger] close_iter(init[i], p + 1, gl, t, n, f) == self.closeure.deep_view()[i] by {
                    assert(close_iter(init[i], p, gl, t, n, f) == l0[i]);
                    assert(close_pass(l0[i], gl, t, n, f) == self.closeure.deep_view()[i]);
                }
                p = p + 1;
            }
        }
        proof {
            assert forall|i: int| 0 <= i < old(self).closeure.deep_view().len() implies #[trigger] closure_of(
                self.closeure.deep_view()[i],
                init[i],
                gl,
                t,
                n,
                f,
            ) by {
                assert(close_iter(init[i], p, gl, t, n, f) == self.closeure.deep_view()[i]);
            }
        }
    }

    /// Drops the item set equal to the start item's set without its first
    /// item, if there is one (see `drop_rest`).
    fn drop_start_rest(&mut self)
        requires
            old(self).wf(),
            exists|k: int|
                0 <= k < old(self).gen_list.deep_view().len() && #[trigger] old(self).gen_list.deep_view()[k].0
                    == old(self).lang.first_word@ && old(self).gen_list.deep_view()[k].1 == 0,
        ensures
            final(self).lang == old(self).lang,
            final(self).ll == old(self).ll,
            final(self).gen_list == old(self).gen_list,
            final(self).index == old(self).index,
            final(self).closeure.deep_view() == drop_rest(
                old(self).closeure.deep_view(),
                old(self).gen_list.deep_view()[last_index_of(old(self).index.deep_view(), (old(self).lang.first_word@, 0usize))].2,
            ),
    {
        let ghost gl = self.gen_list.deep_view();
        let ghost ix = self.index.deep_view();
        let ghost cv = self.closeure.deep_view();
        let k = last_index_exec(&self.index, &self.lang.first_word, 0);
        proof {
            assert(ix.len() == gl.len());
        }
        let first_gen = self.gen_list[k].2.duplicate();
        let ghost g = gl[k as int].2;
        assert(first_gen.deep_view() == g);
        let nc = self.closeure.len();
        let mut tc: Vec<Gen> = Vec::new();
        let mut c: usize = 0;
        let mut searching = true;
        while searching && c < nc
            invariant
                nc == cv.len(),
                cv == self.closeure.deep_view(),
                first_gen.deep_view() == g,
                c <= nc,
                searching ==> tc.deep_view().len() == 0 && first_holding(cv, g, nc as int, 0) == first_holding(cv, g, nc as int, c as nat),
                !searching ==> c < nc && first_holding(cv, g, nc as int, 0) == c as int && tc.deep_view() == cv[c as int].drop_first(),
            decreases nc - c + if searching { 1int } else { 0int },
        {
            if gens_contains(&self.closeure[c], &first_gen) {
                let mut cc = clone_gens(&self.closeure[c]);
                assert(cc.deep_view().contains(g));
                assert(cc@.len() > 0);
                let ghost cc0 = cc.deep_view();
                cc.remove(0);
                assert(cc.deep_view() =~= cc0.drop_first());
                tc = cc;
                searching = false;
            } else {
                c = c + 1;
            }
        }
        let ghost fh = first_holding(cv, g, nc as int, 0);
        assert(searching ==> fh == nc);
        proof {
            lemma_last_index(ix, (self.lang.first_word@, 0usize));
        }
        if tc.len() > 0 {
            let len = self.closeure.len();
            let ghost tv = tc.deep_view();
            assert(tv == cv[fh].drop_first());
            for i in 0..len
                invariant
                    len == self.closeure@.len(),
                    self.closeure.deep_view() == cv,
                    cv.len() == len,
                    tv == tc.deep_view(),
                    first_equal(cv, tv, 0) == first_equal(cv, tv, i as nat),
                    0 <= fh < cv.len(),
                    tv == cv[fh].drop_first(),
                    tv.len() > 0,
                    fh == first_holding(cv, g, nc as int, 0),
                    nc == cv.len(),
                    cv == old(self).closeure.deep_view(),
                    gl == old(self).gen_list.deep_view(),
                    ix == old(self).index.deep_view(),
                    k as int == last_index_of(ix, (self.lang.first_word@, 0usize)),
                    k < gl.len(),
                    g == gl[k as int].2,
                    self.lang == old(self).lang,
                    self.ll == old(self).ll,
                    self.gen_list == old(self).gen_list,
                    self.index == old(self).index,
            {
                if gens_eq(&self.closeure[i], &tc) {
                    assert(cv[i as int] == tv);
                    assert(first_equal(cv, tv, 0) == i);
                    self.closeure.remove(i);
                    assert(self.closeure.deep_view() =~= cv.remove(i as int));
                    return;
                }
            }
        }
    }

    /// Builds the item sets: for each item of the list, the set of it and its
    /// expansions (each distinct set once); then every set is expanded until
    /// each is an LR(1) closure; then the set equal to the start item's set
    /// without its first item, if there is one, is dropped.
    fn gen_clousre(&mut self)
        requires
            old(self).wf(),
            old(self).closeure@.len() == 0,
            exists|k: int|
                0 <= k < old(self).gen_list.deep_view().len() && #[trigger] old(self).gen_list.deep_view()[k].0
                    == old(self).lang.first_word@ && old(self).gen_list.deep_view()[k].1 == 0,
        ensures
            final(self).wf(),
            final(self).lang == old(self).lang,
            final(self).ll == old(self).ll,
            final(self).gen_list == old(self).gen_list,
            final(self).index == old(self).index,
            final(self).sets_ok(),
            sets_seeded(final(self).gen_list.deep_view(), final(self).closeure.deep_view()),
            final(self).sets_closed(),
            final(self).closeure.deep_view() == lr_sets(
                old(self).gen_list.deep_view(),
                old(self).index.deep_view(),
                old(self).lang.twords.deep_view(),
                old(self).lang.ntwords.deep_view(),
                old(self).ll.first_lists(),
                old(self).lang.first_word@,
            ),
    {
        let ghost gl = self.gen_list.deep_view();
        let ghost t = self.lang.twords.deep_view();
        let ghost n = self.lang.ntwords.deep_view();
        let ghost f = self.ll.first_lists();
        self.initial_sets();
        let ghost init = self.closeure.deep_view();
        self.close_sets();
        let ghost before = self.closeure.deep_view();
        proof {
            assert forall|i: int| 0 <= i < init.len() implies before[i] == closed_of(init[i], gl, t, n, f) by {
                assert(closure_of(before[i], init[i], gl, t, n, f));
                lemma_closure_unique(before[i], init[i], gl, t, n, f);
            }
            assert(before =~= Seq::new(init.len(), |i: int| closed_of(init[i], gl, t, n, f)));
        }
        self.drop_start_rest();
        proof {
            let after = self.closeure.deep_view();
            if after != before {
                let i = choose|i: int| 0 <= i < before.len() && after == before.remove(i);
                assert forall|j: int| 0 <= j < after.len() implies after[j] == before[if j < i { j } else { j + 1 }] by {}
            }
        }
    }
}

} // verus!

verus! {

/// The grammar with the start production `'S -> S` for start word `S`.
pub open spec fn augmented(
    g: Seq<(Seq<char>, Seq<Seq<Seq<char>>>)>,
    fw: Seq<char>,
) -> Seq<(Seq<char>, Seq<Seq<Seq<char>>>)> {
    put(g, "'"@ + fw, seq![seq![fw]])
}

/// `get_first` can answer for `w` in the grammar `g`.
pub open spec fn sym_ready(
    t: Seq<Seq<char>>,
    n: Seq<Seq<char>>,
    g: Seq<(Seq<char>, Seq<Seq<Seq<char>>>)>,
    w: Seq<char>,
) -> bool {
    t.contains(w) || w == "#"@ || (n.contains(w) && keys_of(g).contains(w))
}

/// The body that items are built on: a production with `"nil"` in it has
/// the empty body.
pub open spec fn item_body(body: Seq<Seq<char>>) -> Seq<Seq<char>> {
    if body.contains("nil"@) {
        Seq::<Seq<char>>::empty()
    } else {
        body
    }
}

/// Every symbol of `b` that follows a nonterminal is one `get_first` can
/// answer for: the expansions of an item with the dot before that
/// nonterminal ask for its FIRST list.
pub open spec fn body_ready(
    t: Seq<Seq<char>>,
    n: Seq<Seq<char>>,
    g: Seq<(Seq<char>, Seq<Seq<Seq<char>>>)>,
    b: Seq<Seq<char>>,
) -> bool {
    forall|q: int| 1 <= q < b.len() && n.contains(b[q - 1]) ==> sym_ready(t, n, g, #[trigger] b[q])
}

/// With the dot at `p` of body `b`, the symbol after the dot is a
/// nonterminal and nothing follows it: the expansions take their lookaheads
/// from the item's own lookahead.
pub open spec fn tail_expands(n: Seq<Seq<char>>, b: Seq<Seq<char>>, p: int) -> bool {
    n.contains(sym_at(b, p)) && sym_at(b, p + 1) == "#"@
}

/// Some dot position of body `b` is one where `tail_expands` holds.
pub open spec fn ends_expanding(n: Seq<Seq<char>>, b: Seq<Seq<char>>) -> bool {
    exists|p: int| 0 <= p <= b.len() && #[trigger] tail_expands(n, b, p)
}

/// Some production of a head other than the start word `fw` has a body that
/// ends expanding: then the words, as the lookaheads of its items, are asked
/// for their FIRST lists.
pub open spec fn words_asked(
    g: Seq<(Seq<char>, Seq<Seq<Seq<char>>>)>,
    n: Seq<Seq<char>>,
    fw: Seq<char>,
) -> bool {
    exists|gi: int, j: int|
        crate::follow::is_prod(g, gi, j) && g[gi].0 != fw && #[trigger] ends_expanding(n, item_body(g[gi].1[j]))
}

/// Building the item sets of a language (given augmented, with start word
/// `fw`) reads only what exists: the LL(1) analyser can be built, no
/// production is `usize::MAX` symbols long, and whatever `get_first` is asked
/// about is a terminal, `"#"` or a nonterminal with productions: each symbol
/// that follows a nonterminal in a body, and the words other than `"nil"`
/// where `words_asked` holds.
pub open spec fn lr_ready(
    g: Seq<(Seq<char>, Seq<Seq<Seq<char>>>)>,
    t: Seq<Seq<char>>,
    n: Seq<Seq<char>>,
    words: Seq<Seq<char>>,
    fw: Seq<char>,
) -> bool {
    &&& crate::ff::ff_ready(g, t, n)
    &&& forall|gi: int, j: int|
        crate::follow::is_prod(g, gi, j) ==> #[trigger] g[gi].1[j].len() < usize::MAX && body_ready(
            t,
            n,
            g,
            item_body(g[gi].1[j]),
        )
    &&& words_asked(g, n, fw) ==> forall|k: int|
        0 <= k < words.len() && words[k] != "nil"@ ==> sym_ready(t, n, g, #[trigger] words[k])
}

proof fn lemma_ahead_words_in(words: Seq<Seq<char>>, a: Seq<char>, fw: Seq<char>, k: int)
    requires
        0 <= k < ahead_words(words, a, fw).len(),
    ensures
        words.contains(ahead_words(words, a, fw)[k]),
        ahead_words(words, a, fw)[k] != "nil"@,
        a != fw,
    decreases words.len(),
{
    let r = ahead_words(words.drop_last(), a, fw);
    if k < r.len() {
        lemma_ahead_words_in(words.drop_last(), a, fw, k);
        let j = choose|j: int| 0 <= j < words.drop_last().len() && words.drop_last()[j] == r[k];
        assert(words[j] == r[k]);
    } else {
        assert(words[words.len() - 1] == words.last());
    }
}

proof fn lemma_items_ok(
    g: Seq<(Seq<char>, Seq<Seq<Seq<char>>>)>,
    t: Seq<Seq<char>>,
    n: Seq<Seq<char>>,
    f: Seq<(Seq<char>, Seq<Seq<char>>)>,
    words: Seq<Seq<char>>,
    fw: Seq<char>,
)
    requires
        keys_of(f) == keys_of(g),
        lr_ready(g, t, n, words, fw),
    ensures
        forall|k: int| 0 <= k < gen_items(g, words, fw).len() ==> item_ok(t, n, f, #[trigger] gen_items(g, words, fw)[k].2)
            && ahead_universe(words, t).contains(gen_items(g, words, fw)[k].2.1),
{
    let aseq = ahead_universe(words, t);
    let p = |e: (Seq<char>, usize, Item)| item_ok(t, n, f, e.2) && aseq.contains(e.2.1);
    assert(aseq[0] == "#"@);
    assert forall|w: Seq<char>| #[trigger] sym_ready(t, n, g, w) implies first_arg_ok(t, n, f, w) by {}
    let es = Seq::new(g.len(), |gi: int| entry_items(g[gi].0, g[gi].1, words, fw));
    assert forall|gi: int, jj: int| 0 <= gi < es.len() && 0 <= jj < es[gi].len() implies #[trigger] p(es[gi][jj]) by {
        let a = g[gi].0;
        let ps = g[gi].1;
        let bs = Seq::new(ps.len(), |j: int| body_items(a, ps[j], words, fw));
        assert forall|j: int, m: int| 0 <= j < bs.len() && 0 <= m < bs[j].len() implies #[trigger] p(bs[j][m]) by {
            let body = ps[j];
            let ib = item_body(body);
            assert(crate::follow::is_prod(g, gi, j));
            assert(g[gi].1[j].len() < usize::MAX);
            assert(body_ready(t, n, g, ib));
            let aw = ahead_words(words, a, fw);
            // every item built at a dot position within the body is fine
            assert forall|pp: usize, mm: int|
                pp <= ib.len() && 0 <= mm < items_at(a, ib, pp, words, fw).len()
                implies #[trigger] p(items_at(a, ib, pp, words, fw)[mm]) by {
                let e = items_at(a, ib, pp, words, fw)[mm];
                if n.contains(cur_sym(e.2)) {
                    let nx = sym_at(ib, pp + 1);
                    if nx != "#"@ {
                        assert(sym_ready(t, n, g, ib[pp + 1]));
                    } else if mm > 0 {
                        lemma_ahead_words_in(words, a, fw, mm - 1);
                        assert(tail_expands(n, ib, pp as int));
                        assert(ends_expanding(n, item_body(g[gi].1[j])));
                        let w = aw[mm - 1];
                        let kk = choose|kk: int| 0 <= kk < words.len() && words[kk] == w;
                        assert(sym_ready(t, n, g, words[kk]));
                    }
                }
                if mm > 0 {
                    lemma_ahead_words_in(words, a, fw, mm - 1);
                    let w = aw[mm - 1];
                    let kk = choose|kk: int| 0 <= kk < words.len() && words[kk] == w;
                    assert(aseq[1 + kk] == w);
                }
            }
            if !body.contains("nil"@) {
                let ats = Seq::new((body.len() + 1) as nat, |pp: int| items_at(a, body, pp as usize, words, fw));
                assert forall|x: int, y: int| 0 <= x < ats.len() && 0 <= y < ats[x].len() implies #[trigger] p(ats[x][y]) by {
                    assert(p(items_at(a, ib, x as usize, words, fw)[y]));
                }
                crate::growth::lemma_flat_all(ats, p);
            } else {
                assert(p(items_at(a, ib, 0, words, fw)[m]));
            }
        }
        crate::growth::lemma_flat_all(bs, p);
    }
    crate::growth::lemma_flat_all(es, p);
    assert(gen_items(g, words, fw) == flat(es));
    assert forall|k: int| 0 <= k < gen_items(g, words, fw).len() implies item_ok(t, n, f, #[trigger] gen_items(g, words, fw)[k].2)
        && ahead_universe(words, t).contains(gen_items(g, words, fw)[k].2.1) by {
        assert(p(flat(es)[k]));
    }
}

/// Each entry of the item list is tagged with its item's head and dot
/// position: the index built beside the list (see `index_of_items`) names
/// each item's head and dot.
pub proof fn lemma_items_tagged(
    g: Seq<(Seq<char>, Seq<Seq<Seq<char>>>)>,
    words: Seq<Seq<char>>,
    fw: Seq<char>,
)
    ensures
        forall|k: int|
            0 <= k < gen_items(g, words, fw).len() ==> (#[trigger] gen_items(g, words, fw)[k]).2.0.0
                == gen_items(g, words, fw)[k].0 && gen_items(g, words, fw)[k].2.2 == gen_items(g, words, fw)[k].1,
{
    let p = |e: (Seq<char>, usize, Item)| e.2.0.0 == e.0 && e.2.2 == e.1;
    let es = Seq::new(g.len(), |gi: int| entry_items(g[gi].0, g[gi].1, words, fw));
    assert forall|gi: int, jj: int| 0 <= gi < es.len() && 0 <= jj < es[gi].len() implies #[trigger] p(es[gi][jj]) by {
        let a = g[gi].0;
        let ps = g[gi].1;
        let bs = Seq::new(ps.len(), |j: int| body_items(a, ps[j], words, fw));
        assert forall|j: int, m: int| 0 <= j < bs.len() && 0 <= m < bs[j].len() implies #[trigger] p(bs[j][m]) by {
            let body = ps[j];
            let ib = item_body(body);
            assert forall|pp: usize, mm: int|
                pp <= ib.len() && 0 <= mm < items_at(a, ib, pp, words, fw).len()
                implies #[trigger] p(items_at(a, ib, pp, words, fw)[mm]) by {
            }
            if !body.contains("nil"@) {
                let ats = Seq::new((body.len() + 1) as nat, |pp: int| items_at(a, body, pp as usize, words, fw));
                assert forall|x: int, y: int| 0 <= x < ats.len() && 0 <= y < ats[x].len() implies #[trigger] p(ats[x][y]) by {
                    assert(p(items_at(a, ib, x as usize, words, fw)[y]));
                }
                crate::growth::lemma_flat_all(ats, p);
            } else {
                assert(p(items_at(a, ib, 0, words, fw)[m]));
            }
        }
        crate::growth::lemma_flat_all(bs, p);
    }
    crate::growth::lemma_flat_all(es, p);
    assert(gen_items(g, words, fw) == flat(es));
    assert forall|k: int| 0 <= k < gen_items(g, words, fw).len() implies p(#[trigger] gen_items(g, words, fw)[k]) by {
        assert(p(flat(es)[k]));
    }
}

/// The list has an item of head `g[gi].0` with the dot at the start.
proof fn lemma_head_item(g: Seq<(Seq<char>, Seq<Seq<Seq<char>>>)>, words: Seq<Seq<char>>, fw: Seq<char>, gi: int)
    requires
        0 <= gi < g.len(),
        g[gi].1.len() > 0,
    ensures
        exists|k: int|
            0 <= k < gen_items(g, words, fw).len() && #[trigger] gen_items(g, words, fw)[k].0 == g[gi].0
                && gen_items(g, words, fw)[k].1 == 0,
{
    let a = g[gi].0;
    let ps = g[gi].1;
    let body = ps[0];
    let bi = body_items(a, body, words, fw);
    let e = (a, 0usize, lr_item(a, if body.contains("nil"@) { Seq::<Seq<char>>::empty() } else { body }, "#"@, 0));
    if !body.contains("nil"@) {
        let ats = Seq::new((body.len() + 1) as nat, |pp: int| items_at(a, body, pp as usize, words, fw));
        assert(ats[0][0] == e);
        crate::growth::lemma_flat_contains(ats, 0, e);
    } else {
        assert(bi[0] == e);
    }
    assert(bi.contains(e));
    let bs = Seq::new(ps.len(), |j: int| body_items(a, ps[j], words, fw));
    assert(bs[0] == bi);
    crate::growth::lemma_flat_contains(bs, 0, e);
    let es = Seq::new(g.len(), |i: int| entry_items(g[i].0, g[i].1, words, fw));
    assert(es[gi] == entry_items(a, ps, words, fw));
    crate::growth::lemma_flat_contains(es, gi, e);
    let k = choose|k: int| 0 <= k < gen_items(g, words, fw).len() && gen_items(g, words, fw)[k] == e;
    assert(gen_items(g, words, fw)[k].0 == a);
}

} // verus!

verus! {

impl LR {
    /// Builds the item sets of a language: the language is augmented with
    /// the start production `'S -> S` (`'S` its new start word, nonterminal and
    /// word), its FIRST sets are computed by an LL(1) analyser, the items of
    /// every production are listed, and the item sets are built (see
    /// `gen_clousre`).
    #[verifier::spinoff_prover]
    pub fn new(lang: &Language) -> (lr: LR)
        requires
            lang.lg.wf(),
            lr_ready(
                augmented(lang.lg.dview(), lang.first_word@),
                lang.twords.deep_view(),
                lang.ntwords.deep_view().push("'"@ + lang.first_word@),
                lang.words.deep_view().push("'"@ + lang.first_word@),
                "'"@ + lang.first_word@,
            ),
        ensures
            lr.wf(),
            lr.language().twords.deep_view() == lang.twords.deep_view(),
            lr.language().ntwords.deep_view() == lang.ntwords.deep_view().push("'"@ + lang.first_word@),
            lr.language().words.deep_view() == lang.words.deep_view().push("'"@ + lang.first_word@),
            lr.language().lg.dview() == augmented(lang.lg.dview(), lang.first_word@),
            lr.language().first_word@ == "'"@ + lang.first_word@,
            lr.language().conf_path@ == lang.conf_path@,
            lr.items() == gen_items(
                augmented(lang.lg.dview(), lang.first_word@),
                lang.words.deep_view().push("'"@ + lang.first_word@),
                "'"@ + lang.first_word@,
            ),
            lr.item_index() == index_of_items(lr.items()),
            lr.sets_ok(),
            sets_seeded(lr.items(), lr.closures()),
            lr.sets_closed(),
            crate::ff::ff_built(lr.analyser(), lr.language()),
            lr.closures() == lr_sets(
                lr.items(),
                lr.item_index(),
                lr.language().twords.deep_view(),
                lr.language().ntwords.deep_view(),
                lr.analyser().first_lists(),
                lr.language().first_word@,
            ),
    {
        let mut lang = lang.duplicate();
        let first = lang.first_word.clone();
        let mut new_first = owned("'");
        new_first.append(first.as_str());
        let mut start_body: Vec<String> = Vec::new();
        start_body.push(first.clone());
        assert(start_body.deep_view() =~= seq![first@]);
        let mut start_prods: Vec<Vec<String>> = Vec::new();
        let ghost sb = start_body.deep_view();
        start_prods.push(start_body);
        assert(start_prods.deep_view()[0] == sb);
        assert(start_prods.deep_view() =~= seq![seq![first@]]);
        let ghost g_before = lang.lg.dview();
        lang.lg.insert(new_first.clone(), start_prods);
        lang.first_word = new_first.clone();
        let ghost n0 = lang.ntwords.deep_view();
        lang.ntwords.push(new_first.clone());
        assert(lang.ntwords.deep_view() =~= n0.push(new_first@));
        let ghost w0 = lang.words.deep_view();
        lang.words.push(new_first);
        assert(lang.words.deep_view() =~= w0.push(lang.first_word@));
        let ll = FF::new(lang.duplicate());
        let mut lr = LR { ll, lang, gen_list: Vec::new(), closeure: Vec::new(), index: Vec::new() };
        assert(lr.gen_list.deep_view() =~= Seq::<(Seq<char>, usize, Item)>::empty());
        assert(lr.index.deep_view() =~= Seq::<(Seq<char>, usize)>::empty());
        assert(index_of_items(lr.gen_list.deep_view()) =~= lr.index.deep_view());
        lr.gen_genlist();
        let ghost g = lr.lang.lg.dview();
        let ghost t = lr.lang.twords.deep_view();
        let ghost n = lr.lang.ntwords.deep_view();
        let ghost f = lr.ll.first_lists();
        proof {
            assert(lr.gen_list.deep_view() =~= gen_items(g, lr.lang.words.deep_view(), lr.lang.first_word@));
            lemma_items_ok(g, t, n, f, lr.lang.words.deep_view(), lr.lang.first_word@);
            let gi = keys_of(g).index_of(lr.lang.first_word@);
            crate::dict::lemma_put(g_before, lr.lang.first_word@, seq![seq![first@]]);
            assert(keys_of(g).contains(lr.lang.first_word@));
            lemma_lookup_at(g, gi);
            assert(g[gi].1 == seq![seq![first@]]);
            lemma_head_item(g, lr.lang.words.deep_view(), lr.lang.first_word@, gi);
        }
        lr.gen_clousre();
        lr
    }
}

} // verus!

verus! {

/// Set `i` has an item, not at the end of its body, whose dot moved on is in
/// set `s`: the transition `i -> s`.
pub open spec fn edge(cs: Seq<Seq<Item>>, i: int, s: int) -> bool {
    &&& 0 <= i < cs.len()
    &&& 0 <= s < cs.len()
    &&& exists|k: int| 0 <= k < cs[i].len() && #[trigger] cs[i][k].2 < cs[i][k].3 && cs[s].contains(moved(cs[i][k]))
}

/// The transition `i -> s` is recorded: both ends are marked used and `s` is
/// among the targets of `i`.
pub open spec fn recorded(used: Seq<usize>, way: Seq<(usize, Seq<usize>)>, i: int, s: int) -> bool {
    &&& used.contains(i as usize)
    &&& used.contains(s as usize)
    &&& lookup(way, i as usize) matches Some(v) && v.contains(s as usize)
}

/// What the transition lists hold: every used set is an end of a transition,
/// every target list is non-empty, and each target is a transition.
pub open spec fn transitions_sound(cs: Seq<Seq<Item>>, used: Seq<usize>, way: Seq<(usize, Seq<usize>)>) -> bool {
    &&& used.no_duplicates()
    &&& keys_of(way).no_duplicates()
    &&& forall|x: usize| #[trigger] used.contains(x) ==> (exists|s: int| edge(cs, x as int, s)) || (exists|i: int| edge(cs, i, x as int))
    &&& forall|i: usize| #[trigger] targets_ok(cs, lookup(way, i), i)
}

/// The targets recorded for set `i` (if any) are distinct transitions, and
/// there is at least one.
pub open spec fn targets_ok(cs: Seq<Seq<Item>>, o: Option<Seq<usize>>, i: usize) -> bool {
    match o {
        Some(v) => v.no_duplicates() && v.len() > 0 && forall|s: usize| #[trigger] v.contains(s) ==> edge(cs, i as int, s as int),
        None => true,
    }
}

/// Every transition is recorded.
pub open spec fn transitions_complete(cs: Seq<Seq<Item>>, used: Seq<usize>, way: Seq<(usize, Seq<usize>)>) -> bool {
    forall|i: int, s: int| #[trigger] edge(cs, i, s) ==> recorded(used, way, i, s)
}

/// Whether a list of indices holds `x`.
pub fn contains_index(v: &Vec<usize>, x: usize) -> (r: bool)
    ensures
        r == v@.contains(x),
{
    let n = v.len();
    for i in 0..n
        invariant
            n == v@.len(),
            forall|j: int| 0 <= j < i ==> v@[j] != x,
    {
        if v[i] == x {
            return true;
        }
    }
    false
}

/// Appends `x` to `v` unless it holds it already; says whether it did.
pub fn add_index(v: &mut Vec<usize>, x: usize) -> (added: bool)
    ensures
        added == !old(v)@.contains(x),
        final(v)@ == if added { old(v)@.push(x) } else { old(v)@ },
        final(v)@.contains(x),
        forall|y: usize| #[trigger] final(v)@.contains(y) <==> (old(v)@.contains(y) || y == x),
        old(v)@.no_duplicates() ==> final(v)@.no_duplicates(),
{
    if contains_index(v, x) {
        false
    } else {
        let ghost v0 = v@;
        v.push(x);
        assert(v@[v0.len() as int] == x);
        assert forall|y: usize| #[trigger] v@.contains(y) <==> (v0.contains(y) || y == x) by {
            if v0.contains(y) {
                let q = choose|q: int| 0 <= q < v0.len() && v0[q] == y;
                assert(v@[q] == y);
            }
            if v@.contains(y) && y != x {
                let q = choose|q: int| 0 <= q < v@.len() && v@[q] == y;
                assert(v0[q] == y);
            }
        }
        true
    }
}

/// Records the transition `i -> s`; says whether anything was new.
fn record(used: &mut Vec<usize>, way: &mut Dict<usize, Vec<usize>>, i: usize, s: usize, Ghost(cs): Ghost<Seq<Seq<Item>>>) -> (changed: bool)
    requires
        old(way).wf(),
        transitions_sound(cs, old(used)@, old(way).dview()),
        edge(cs, i as int, s as int),
    ensures
        final(way).wf(),
        transitions_sound(cs, final(used)@, final(way).dview()),
        recorded(final(used)@, final(way).dview(), i as int, s as int),
        forall|i2: int, s2: int| recorded(old(used)@, old(way).dview(), i2, s2) ==> recorded(final(used)@, final(way).dview(), i2, s2),
        !changed ==> final(used)@ == old(used)@ && final(way).dview() == old(way).dview(),
        recorded(old(used)@, old(way).dview(), i as int, s as int) ==> !changed,
{
    let ghost u0 = used@;
    let ghost w0 = way.dview();
    let a1 = add_index(used, i);
    let a2 = add_index(used, s);
    let ghost u1 = used@;
    let mut changed = a1 || a2;
    let mut v2: Vec<usize> = match way.get(&i) {
        Some(v) => {
            let c = v.clone();
            assert(c@ =~= v@);
            assert(v.deep_view() =~= v@);
            c
        },
        None => Vec::new(),
    };
    let ghost v0 = v2@;
    assert(lookup(w0, i) is Some ==> lookup(w0, i) == Some(v0));
    let a3 = add_index(&mut v2, s);
    let ghost vv = v2@;
    assert(v2.deep_view() =~= vv);
    if a3 {
        way.insert(i, v2);
        changed = true;
    }
    proof {
        let w1 = way.dview();
        crate::dict::lemma_put(w0, i, vv);
        assert(v0.len() == 0 ==> v0.no_duplicates());
        if a3 {
            assert(w1 == put(w0, i, vv));
        } else {
            assert(lookup(w0, i) == Some(vv));
        }
        assert forall|x: usize| #[trigger] u1.contains(x) implies (exists|s2: int| edge(cs, x as int, s2)) || (exists|i2: int| edge(cs, i2, x as int)) by {
            if x == i {
                assert(edge(cs, i as int, s as int));
            } else if x == s {
                assert(edge(cs, i as int, s as int));
            } else {
                assert(u0.contains(x));
            }
        }
        assert forall|j: usize| #[trigger] targets_ok(cs, lookup(w1, j), j) by {
            assert(targets_ok(cs, lookup(w0, j), j));
            if j == i {
                assert(lookup(w1, j) == Some(vv));
                assert forall|s2: usize| #[trigger] vv.contains(s2) implies edge(cs, j as int, s2 as int) by {
                    if s2 != s {
                        assert(v0.contains(s2));
                    }
                }
            } else {
                assert(lookup(w1, j) == lookup(w0, j));
            }
        }
        assert forall|i2: int, s2: int| recorded(u0, w0, i2, s2) implies recorded(u1, w1, i2, s2) by {
            if i2 as usize == i {
                assert(lookup(w0, i2 as usize) == Some(v0));
                assert(vv.contains(s2 as usize));
            } else {
                assert(lookup(w1, i2 as usize) == lookup(w0, i2 as usize));
            }
        }
        if !changed {
            assert(u1 == u0);
        }
    }
    changed
}


/// Finds the transitions between the item sets `cs`: which sets are an end
/// of one, and the targets of each set, passing over the sets until nothing
/// new is found.
#[verifier::spinoff_prover]
fn transitions(cs: &Vec<Vec<Gen>>) -> (r: (Vec<usize>, Dict<usize, Vec<usize>>))
    ensures
        r.1.wf(),
        transitions_sound(cs.deep_view(), r.0@, r.1.dview()),
        transitions_complete(cs.deep_view(), r.0@, r.1.dview()),
{
    let ghost cv = cs.deep_view();
    let mut used: Vec<usize> = Vec::new();
    let mut way: Dict<usize, Vec<usize>> = Dict::new();
    let ghost mut done_once = false;
    let mut changed = true;
    let nc = cs.len();
    assert(cv.len() == nc);
    proof {
        assert(used@.no_duplicates());
        assert forall|i: usize| #[trigger] targets_ok(cv, lookup(way.dview(), i), i) by {
            assert(!keys_of(way.dview()).contains(i));
        }
    }
    while changed
        invariant
            nc == cv.len(),
            cv == cs.deep_view(),
            way.wf(),
            transitions_sound(cv, used@, way.dview()),
            done_once ==> transitions_complete(cv, used@, way.dview()),
            !changed ==> done_once,
        decreases (if done_once { 0int } else { 2int }) + (if changed { 1int } else { 0int }),
    {
        changed = false;
        let ghost complete0 = transitions_complete(cv, used@, way.dview());
        let ghost u0 = used@;
        let ghost w0 = way.dview();
        for i in 0..nc
            invariant
                nc == cv.len(),
                cv == cs.deep_view(),
                way.wf(),
                transitions_sound(cv, used@, way.dview()),
                forall|i2: int, s2: int| 0 <= i2 < i && #[trigger] edge(cv, i2, s2) ==> recorded(used@, way.dview(), i2, s2),
                complete0 ==> !changed && used@ == u0 && way.dview() == w0,
                complete0 == transitions_complete(cv, u0, w0),
        {
            let c = clone_gens(&cs[i]);
            let nk = c.len();
            assert(c.deep_view() == cv[i as int]);
            for k in 0..nk
                invariant
                    nk == cv[i as int].len(),
                    0 <= i < cv.len(),
                    c.deep_view() == cv[i as int],
                    nc == cv.len(),
                    cv == cs.deep_view(),
                    way.wf(),
                    transitions_sound(cv, used@, way.dview()),
                    forall|i2: int, s2: int| 0 <= i2 < i && #[trigger] edge(cv, i2, s2) ==> recorded(used@, way.dview(), i2, s2),
                    forall|k2: int, s2: int| 0 <= k2 < k && 0 <= s2 < cv.len() && cv[i as int][k2].2 < cv[i as int][k2].3
                        && #[trigger] cv[s2].contains(moved(cv[i as int][k2])) ==> recorded(used@, way.dview(), i as int, s2),
                    complete0 ==> !changed && used@ == u0 && way.dview() == w0,
                    complete0 == transitions_complete(cv, u0, w0),
            {
                let mut gen = c[k].duplicate();
                let ghost g0 = cv[i as int][k as int];
                assert(gen.deep_view() == g0);
                if gen.move_to_next() {
                    for s in 0..nc
                        invariant
                            nk == cv[i as int].len(),
                            0 <= i < cv.len(),
                            0 <= k < nk,
                            g0 == cv[i as int][k as int],
                            g0.2 < g0.3,
                            gen.deep_view() == moved(g0),
                            nc == cv.len(),
                            cv == cs.deep_view(),
                            way.wf(),
                            transitions_sound(cv, used@, way.dview()),
                            forall|i2: int, s2: int| 0 <= i2 < i && #[trigger] edge(cv, i2, s2) ==> recorded(used@, way.dview(), i2, s2),
                            forall|k2: int, s2: int| 0 <= k2 < k && 0 <= s2 < cv.len() && cv[i as int][k2].2 < cv[i as int][k2].3
                                && #[trigger] cv[s2].contains(moved(cv[i as int][k2])) ==> recorded(used@, way.dview(), i as int, s2),
                            forall|s2: int| 0 <= s2 < s && #[trigger] cv[s2].contains(moved(g0)) ==> recorded(used@, way.dview(), i as int, s2),
                            complete0 ==> !changed && used@ == u0 && way.dview() == w0,
                            complete0 == transitions_complete(cv, u0, w0),
                    {
                        if gens_contains(&cs[s], &gen) {
                            assert(edge(cv, i as int, s as int));
                            let ghost ub = used@;
                            let ghost wb = way.dview();
                            let ch = record(&mut used, &mut way, i, s, Ghost(cv));
                            proof {
                                if complete0 {
                                    assert(recorded(ub, wb, i as int, s as int));
                                }
                            }
                            changed = changed || ch;
                        }
                    }
                }
            }
            proof {
                assert forall|i2: int, s2: int| 0 <= i2 < i + 1 && #[trigger] edge(cv, i2, s2) implies recorded(used@, way.dview(), i2, s2) by {
                    if i2 == i {
                        let k2 = choose|k2: int| 0 <= k2 < cv[i2].len() && #[trigger] cv[i2][k2].2 < cv[i2][k2].3 && cv[s2].contains(moved(cv[i2][k2]));
                    }
                }
            }
        }
        proof {
            done_once = true;
        }
    }
    (used, way)
}

} // verus!

verus! {

/// A list of distinct indices below `b` has at most `b` of them.
proof fn lemma_distinct_bounded(s: Seq<usize>, b: nat)
    requires
        s.no_duplicates(),
        forall|x: usize| #[trigger] s.contains(x) ==> x < b,
    ensures
        s.len() <= b,
    decreases b,
{
    if b == 0 {
        if s.len() > 0 {
            assert(s.contains(s[0]));
        }
    } else {
        let m = (b - 1) as usize;
        if s.contains(m) {
            let j = choose|j: int| 0 <= j < s.len() && s[j] == m;
            let s2 = s.remove(j);
            assert forall|x: usize| #[trigger] s2.contains(x) implies x < (b - 1) as nat by {
                let q = choose|q: int| 0 <= q < s2.len() && s2[q] == x;
                if q < j {
                    assert(s[q] == x);
                    assert(q != j);
                } else {
                    assert(s[q + 1] == x);
                }
                assert(s.contains(x));
            }
            assert(s2.no_duplicates()) by {
                assert forall|p: int, q: int| 0 <= p < s2.len() && 0 <= q < s2.len() && p != q implies s2[p] != s2[q] by {
                    let pp = if p < j { p } else { p + 1 };
                    let qq = if q < j { q } else { q + 1 };
                    assert(s2[p] == s[pp]);
                    assert(s2[q] == s[qq]);
                }
            }
            lemma_distinct_bounded(s2, (b - 1) as nat);
        } else {
            assert forall|x: usize| #[trigger] s.contains(x) implies x < (b - 1) as nat by {}
            lemma_distinct_bounded(s, (b - 1) as nat);
        }
    }
}

/// `x` is among the targets recorded for `y`.
pub open spec fn has_target(way: Seq<(usize, Seq<usize>)>, y: usize, x: usize) -> bool {
    match lookup(way, y) {
        Some(v) => v.contains(x),
        None => false,
    }
}

/// `x` is reachable from `start` in at most `k` transitions.
pub open spec fn reach(way: Seq<(usize, Seq<usize>)>, start: usize, x: usize, k: nat) -> bool
    decreases k,
{
    if k == 0 {
        x == start
    } else {
        reach(way, start, x, (k - 1) as nat) || exists|y: usize|
            #[trigger] has_target(way, y, x) && reach(way, start, y, (k - 1) as nat)
    }
}

/// The sets reachable from `start`: `start` itself, and the targets of
/// every set reached.
#[verifier::spinoff_prover]
fn reachable(way: &Dict<usize, Vec<usize>>, start: usize, Ghost(bound): Ghost<nat>) -> (fact: Vec<usize>)
    requires
        way.wf(),
        start < bound,
        forall|i: usize, s: usize| #[trigger] has_target(way.dview(), i, s) ==> s < bound,
    ensures
        fact@.no_duplicates(),
        forall|x: usize| #[trigger] fact@.contains(x) <==> exists|k: nat| reach(way.dview(), start, x, k),
{
    let ghost wv = way.dview();
    let mut fact: Vec<usize> = Vec::new();
    fact.push(start);
    proof {
        assert(fact@.contains(start) ==> reach(wv, start, start, 0));
        assert forall|x: usize| #[trigger] fact@.contains(x) implies exists|k: nat| reach(wv, start, x, k) by {
            assert(fact@[0] == start);
            assert(reach(wv, start, x, 0));
        }
    }
    let ghost mut done_once = false;
    let mut changed = true;
    while changed
        invariant
            way.wf(),
            wv == way.dview(),
            start < bound,
            forall|i: usize, s: usize| #[trigger] has_target(wv, i, s) ==> s < bound,
            fact@.no_duplicates(),
            fact@.contains(start),
            forall|x: usize| #[trigger] fact@.contains(x) ==> x < bound && exists|k: nat| reach(wv, start, x, k),
            !changed ==> forall|y: usize, x: usize| fact@.contains(y) && #[trigger] has_target(wv, y, x) ==> fact@.contains(x),
        decreases bound - fact@.len() + (if changed { 1int } else { 0int }),
    {
        proof {
            lemma_distinct_bounded(fact@, bound);
        }
        changed = false;
        let ghost f0 = fact@;
        let snap = fact.clone();
        assert(snap@ =~= f0);
        let nf = snap.len();
        for fi in 0..nf
            invariant
                nf == f0.len(),
                snap@ == f0,
                way.wf(),
                wv == way.dview(),
                start < bound,
                forall|i: usize, s: usize| #[trigger] has_target(wv, i, s) ==> s < bound,
                fact@.no_duplicates(),
                fact@.contains(start),
                forall|x: usize| #[trigger] fact@.contains(x) ==> x < bound && exists|k: nat| reach(wv, start, x, k),
                fact@.len() >= f0.len(),
                fact@.take(f0.len() as int) == f0,
                changed ==> fact@.len() > f0.len(),
                !changed ==> fact@ == f0,
                forall|j: int, x: usize| 0 <= j < fi && #[trigger] has_target(wv, f0[j], x) ==> fact@.contains(x),
        {
            let y = snap[fi];
            assert(f0.contains(y));
            assert(fact@.take(f0.len() as int)[fi as int] == y);
            assert(fact@.contains(y));
            match way.get(&y) {
                None => {},
                Some(next) => {
                    let ghost nv = next.deep_view();
                    assert(nv =~= next@);
                    let nn = next.len();
                    for ni in 0..nn
                        invariant
                            nn == next@.len(),
                            nv == next@,
                            lookup(wv, y) == Some(nv),
                            fact@.contains(y),
                            way.wf(),
                            wv == way.dview(),
                            start < bound,
                            forall|i: usize, s: usize| #[trigger] has_target(wv, i, s) ==> s < bound,
                            fact@.no_duplicates(),
                            fact@.contains(start),
                            forall|x: usize| #[trigger] fact@.contains(x) ==> x < bound && exists|k: nat| reach(wv, start, x, k),
                            fact@.len() >= f0.len(),
                            fact@.take(f0.len() as int) == f0,
                            changed ==> fact@.len() > f0.len(),
                            !changed ==> fact@ == f0,
                            forall|j: int, x: usize| 0 <= j < fi && #[trigger] has_target(wv, f0[j], x) ==> fact@.contains(x),
                            forall|q: int| 0 <= q < ni ==> #[trigger] fact@.contains(nv[q]),
                    {
                        let x = next[ni];
                        assert(nv.contains(x));
                        let ghost fb = fact@;
                        proof {
                            let k = choose|k: nat| reach(wv, start, y, k);
                            assert(has_target(wv, y, x));
                            assert(reach(wv, start, x, k + 1));
                        }
                        let a = add_index(&mut fact, x);
                        proof {
                            if a {
                                assert(fact@.take(f0.len() as int) =~= fb.take(f0.len() as int));
                            }
                            assert forall|j: int, x2: usize| 0 <= j < fi && #[trigger] has_target(wv, f0[j], x2) implies fact@.contains(x2) by {
                                assert(fb.contains(x2));
                            }
                            assert forall|q: int| 0 <= q < ni + 1 implies #[trigger] fact@.contains(nv[q]) by {
                                if q < ni {
                                    assert(fb.contains(nv[q]));
                                }
                            }
                        }
                        changed = changed || a;
                    }
                },
            }
            proof {
                assert forall|j: int, x: usize| 0 <= j < fi + 1 && #[trigger] has_target(wv, f0[j], x) implies fact@.contains(x) by {
                    if j == fi {
                        let v = lookup(wv, y).unwrap();
                        let q = choose|q: int| 0 <= q < v.len() && v[q] == x;
                    }
                }
            }
        }
        proof {
            lemma_distinct_bounded(fact@, bound);
            if !changed {
                assert forall|y: usize, x: usize| fact@.contains(y) && #[trigger] has_target(wv, y, x) implies fact@.contains(x) by {
                    let j = choose|j: int| 0 <= j < f0.len() && f0[j] == y;
                }
            }
        }
    }
    proof {
        assert forall|x: usize| (exists|k: nat| reach(wv, start, x, k)) implies #[trigger] fact@.contains(x) by {
            let k = choose|k: nat| reach(wv, start, x, k);
            lemma_reach_closed(wv, start, fact@, x, k);
        }
    }
    fact
}

proof fn lemma_reach_closed(wv: Seq<(usize, Seq<usize>)>, start: usize, fact: Seq<usize>, x: usize, k: nat)
    requires
        fact.contains(start),
        forall|y: usize, x2: usize| fact.contains(y) && #[trigger] has_target(wv, y, x2) ==> fact.contains(x2),
        reach(wv, start, x, k),
    ensures
        fact.contains(x),
    decreases k,
{
    if k > 0 {
        if reach(wv, start, x, (k - 1) as nat) {
            lemma_reach_closed(wv, start, fact, x, (k - 1) as nat);
        } else {
            let y = choose|y: usize| #[trigger] has_target(wv, y, x) && reach(wv, start, y, (k - 1) as nat);
            lemma_reach_closed(wv, start, fact, y, (k - 1) as nat);
        }
    }
}

} // verus!

verus! {

/// Item `k` of set `i`, not at the end of its body, has `w` after the dot,
/// and set `s` holds it with the dot moved on.
pub open spec fn item_goes(cs: Seq<Seq<Item>>, i: int, k: int, w: Seq<char>, s: int) -> bool {
    &&& 0 <= k < cs[i].len()
    &&& cs[i][k].2 < cs[i][k].3
    &&& cur_sym(cs[i][k]) == w
    &&& cs[s].contains(moved(cs[i][k]))
}

/// Set `i` goes to set `s` on symbol `w`.
pub open spec fn goto_edge(cs: Seq<Seq<Item>>, i: int, w: Seq<char>, s: int) -> bool {
    &&& 0 <= i < cs.len()
    &&& 0 <= s < cs.len()
    &&& exists|k: int| #[trigger] item_goes(cs, i, k, w, s)
}

/// No set goes to two sets on one symbol.
pub open spec fn deterministic(cs: Seq<Seq<Item>>) -> bool {
    forall|i: int, w: Seq<char>, s1: int, s2: int|
        #[trigger] goto_edge(cs, i, w, s1) && #[trigger] goto_edge(cs, i, w, s2) ==> s1 == s2
}

/// The table holds a target for `(i, w)` exactly when set `i` goes somewhere
/// on `w`, and each target it holds is one.
pub open spec fn goto_table_ok(cs: Seq<Seq<Item>>, tbl: Seq<((usize, Seq<char>), usize)>) -> bool {
    &&& forall|i: usize, w: Seq<char>|
        #[trigger] lookup(tbl, (i, w)) is Some ==> goto_edge(cs, i as int, w, lookup(tbl, (i, w)).unwrap() as int)
    &&& forall|i: int, w: Seq<char>, s: int| #[trigger] goto_edge(cs, i, w, s) ==> lookup(tbl, (i as usize, w)) is Some
}

/// Each pair names two sets, the first before the second.
pub open spec fn pairs_ok(pairs: Seq<(usize, usize)>, n: nat) -> bool {
    forall|q: int| #![trigger pairs[q]] 0 <= q < pairs.len() ==> pairs[q].0 < pairs[q].1 && pairs[q].1 < n
}

/// The table and pairs of a pass after it finds that set `i` goes to set `s`
/// on the symbol of `key`: the target is stored, and when the table held
/// another target for `key`, the two (smaller first) become a pair unless
/// they are one already.
pub open spec fn pass_put(
    st: (Seq<((usize, Seq<char>), usize)>, Seq<(usize, usize)>),
    key: (usize, Seq<char>),
    s: usize,
) -> (Seq<((usize, Seq<char>), usize)>, Seq<(usize, usize)>) {
    let p1 = match lookup(st.0, key) {
        Some(v) => if s != v && !st.1.contains((s, v)) && !st.1.contains((v, s)) {
            st.1.push(if v > s { (s, v) } else { (v, s) })
        } else {
            st.1
        },
        None => st.1,
    };
    (put(st.0, key, s), p1)
}

/// A pass over the first `m` sets as targets of item `g` of set `i`.
pub open spec fn pass_targets(
    st: (Seq<((usize, Seq<char>), usize)>, Seq<(usize, usize)>),
    cs: Seq<Seq<Item>>,
    i: usize,
    g: Item,
    m: nat,
) -> (Seq<((usize, Seq<char>), usize)>, Seq<(usize, usize)>)
    decreases m,
{
    if m == 0 {
        st
    } else {
        let st0 = pass_targets(st, cs, i, g, (m - 1) as nat);
        if cs[m - 1].contains(moved(g)) {
            pass_put(st0, (i, cur_sym(g)), (m - 1) as usize)
        } else {
            st0
        }
    }
}

/// A pass over the items `items` of set `i`: each not at the end of its body
/// is looked for, moved on, in every set.
pub open spec fn pass_items(
    st: (Seq<((usize, Seq<char>), usize)>, Seq<(usize, usize)>),
    cs: Seq<Seq<Item>>,
    i: usize,
    items: Seq<Item>,
) -> (Seq<((usize, Seq<char>), usize)>, Seq<(usize, usize)>)
    decreases items.len(),
{
    if items.len() == 0 {
        st
    } else {
        let st0 = pass_items(st, cs, i, items.drop_last());
        let g = items.last();
        if g.2 < g.3 {
            pass_targets(st0, cs, i, g, cs.len())
        } else {
            st0
        }
    }
}

/// A pass over the first `m` sets.
pub open spec fn pass_sets(cs: Seq<Seq<Item>>, m: nat) -> (Seq<((usize, Seq<char>), usize)>, Seq<(usize, usize)>)
    decreases m,
{
    if m == 0 {
        (Seq::empty(), Seq::empty())
    } else {
        pass_items(pass_sets(cs, (m - 1) as nat), cs, (m - 1) as usize, cs[m - 1])
    }
}

/// One pass over the item sets: the transition table (the last target found
/// for each set and symbol) and the pairs of sets that one set reaches on one
/// symbol.
pub open spec fn pass_of(cs: Seq<Seq<Item>>) -> (Seq<((usize, Seq<char>), usize)>, Seq<(usize, usize)>) {
    pass_sets(cs, cs.len())
}

/// Set `a` with the items of `b` that it lacks appended, in order.
pub open spec fn union_items(a: Seq<Item>, b: Seq<Item>) -> Seq<Item>
    decreases b.len(),
{
    if b.len() == 0 {
        a
    } else {
        let r = union_items(a, b.drop_last());
        if r.contains(b.last()) {
            r
        } else {
            r.push(b.last())
        }
    }
}

/// For each pair in order, the second set's items merged into the first.
pub open spec fn apply_unions(cs: Seq<Seq<Item>>, pairs: Seq<(usize, usize)>) -> Seq<Seq<Item>>
    decreases pairs.len(),
{
    if pairs.len() == 0 {
        cs
    } else {
        let c = apply_unions(cs, pairs.drop_last());
        let p = pairs.last();
        c.update(p.0 as int, union_items(c[p.0 as int], c[p.1 as int]))
    }
}

/// Removes the set at `x` `c` times (each time the set that moved into `x`);
/// `None` when `x` runs past the end.
pub open spec fn remove_times(cs: Seq<Seq<Item>>, x: int, c: nat) -> Option<Seq<Seq<Item>>>
    decreases c,
{
    if c == 0 {
        Some(cs)
    } else if 0 <= x < cs.len() {
        remove_times(cs.remove(x), x, (c - 1) as nat)
    } else {
        None
    }
}

/// Removes, for each position below `x` from the highest down, the set there
/// as often as the position occurs in `remove` (see `remove_times`).
pub open spec fn remove_from(cs: Seq<Seq<Item>>, remove: Seq<usize>, x: nat) -> Option<Seq<Seq<Item>>>
    decreases x,
{
    if x == 0 {
        Some(cs)
    } else {
        match remove_times(cs, x - 1, count_in(remove, (x - 1) as usize)) {
            Some(c2) => remove_from(c2, remove, (x - 1) as nat),
            None => None,
        }
    }
}

/// The second sets of the pairs.
pub open spec fn second_of(pairs: Seq<(usize, usize)>) -> Seq<usize> {
    Seq::new(pairs.len(), |q: int| pairs[q].1)
}

/// One round of merging: the pairs a pass finds are merged (see
/// `apply_unions`) and their second sets removed (see `remove_from`).
pub open spec fn merge_round(cs: Seq<Seq<Item>>) -> Option<Seq<Seq<Item>>> {
    let pairs = pass_of(cs).1;
    remove_from(apply_unions(cs, pairs), second_of(pairs), cs.len())
}

/// Rounds of merging, at most `fuel`, until a pass finds no pair; `None` when
/// a removal runs past the end (or the rounds run out).
pub open spec fn merge_all(cs: Seq<Seq<Item>>, fuel: nat) -> Option<Seq<Seq<Item>>>
    decreases fuel,
{
    if pass_of(cs).1.len() == 0 {
        Some(cs)
    } else if fuel == 0 {
        None
    } else {
        match merge_round(cs) {
            Some(c2) => merge_all(c2, (fuel - 1) as nat),
            None => None,
        }
    }
}

/// Set `x` is an end of some transition.
pub open spec fn is_end(cs: Seq<Seq<Item>>, x: int) -> bool {
    (exists|s: int| #[trigger] edge(cs, x, s)) || (exists|i: int| #[trigger] edge(cs, i, x))
}

/// Set `x` is reached from `start` in at most `k` transitions.
pub open spec fn reach_e(cs: Seq<Seq<Item>>, start: usize, x: usize, k: nat) -> bool
    decreases k,
{
    if k == 0 {
        x == start
    } else {
        reach_e(cs, start, x, (k - 1) as nat) || exists|y: usize|
            #[trigger] edge(cs, y as int, x as int) && reach_e(cs, start, y, (k - 1) as nat)
    }
}

/// The sets that are an end of a transition and reached from `start`, in
/// order.
pub open spec fn prune(cs: Seq<Seq<Item>>, all: Seq<Seq<Item>>, start: usize) -> Seq<Seq<Item>>
    decreases cs.len(),
{
    if cs.len() == 0 {
        Seq::<Seq<Item>>::empty()
    } else {
        let r = prune(cs.drop_last(), all, start);
        let i = (cs.len() - 1) as usize;
        if is_end(all, i as int) && exists|k: nat| reach_e(all, start, i, k) {
            r.push(cs.last())
        } else {
            r
        }
    }
}

/// In a list, there is an entry `key` exactly when the last one found is it.
proof fn lemma_last_index(ix: Seq<(Seq<char>, usize)>, key: (Seq<char>, usize))
    ensures
        (exists|j: int| 0 <= j < ix.len() && ix[j] == key) <==> (0 <= last_index_of(ix, key) < ix.len() && ix[last_index_of(ix, key)] == key),
        0 <= last_index_of(ix, key),
        ix.len() > 0 ==> last_index_of(ix, key) < ix.len(),
    decreases ix.len(),
{
    if ix.len() > 0 {
        let p = ix.drop_last();
        lemma_last_index(p, key);
        if ix.last() != key {
            if exists|j: int| 0 <= j < ix.len() && ix[j] == key {
                let j = choose|j: int| 0 <= j < ix.len() && ix[j] == key;
                assert(j < p.len());
                assert(p[j] == key);
            }
            if 0 <= last_index_of(p, key) < p.len() && p[last_index_of(p, key)] == key {
                assert(ix[last_index_of(p, key)] == key);
            }
        }
    }
}

/// The first set of `cs` from position `i` on that holds `g`, or `dflt` when
/// none does.
pub open spec fn first_holding(cs: Seq<Seq<Item>>, g: Item, dflt: int, i: nat) -> int
    decreases cs.len() - i,
{
    if i >= cs.len() {
        dflt
    } else if cs[i as int].contains(g) {
        i as int
    } else {
        first_holding(cs, g, dflt, i + 1)
    }
}

/// The set the transitions are traced from: the first set holding the item
/// `'S -> ·S` found last in the list (or that item's position when no set
/// holds it); `None` when the list has no such item.
pub open spec fn start_of(
    ix: Seq<(Seq<char>, usize)>,
    gl: Seq<(Seq<char>, usize, Item)>,
    cs: Seq<Seq<Item>>,
    fw: Seq<char>,
) -> Option<int> {
    let k = last_index_of(ix, (fw, 0));
    if 0 <= k < ix.len() && ix[k] == (fw, 0usize) {
        Some(first_holding(cs, gl[k].2, k, 0))
    } else {
        None
    }
}

/// What `GO::new` leaves as the item sets, if it succeeds: the pruned sets
/// (see `prune`) merged until no set goes to two sets on one symbol (see
/// `merge_all`).
pub open spec fn go_sets(
    ix: Seq<(Seq<char>, usize)>,
    gl: Seq<(Seq<char>, usize, Item)>,
    cs: Seq<Seq<Item>>,
    fw: Seq<char>,
) -> Option<Seq<Seq<Item>>> {
    match start_of(ix, gl, cs, fw) {
        Some(st) => merge_all(prune(cs, cs, st as usize), cs.len() + 1),
        None => None,
    }
}

/// Whether a list of pairs holds `p`.
fn pairs_contains(v: &Vec<(usize, usize)>, p: (usize, usize)) -> (r: bool)
    ensures
        r == v@.contains(p),
{
    let n = v.len();
    for i in 0..n
        invariant
            n == v@.len(),
            forall|j: int| 0 <= j < i ==> v@[j] != p,
    {
        if v[i].0 == p.0 && v[i].1 == p.1 {
            assert(v@[i as int] == p);
            return true;
        }
    }
    false
}

/// One pass over the item sets: the transition table, each `(set, symbol)`
/// with the last target found for it, and the pairs of sets (smaller index
/// first, each pair once) that one set reaches on one symbol.
#[verifier::spinoff_prover]
fn goto_pass(cs: &Vec<Vec<Gen>>) -> (r: (Dict<(usize, String), usize>, Vec<(usize, usize)>))
    ensures
        r.0.wf(),
        goto_table_ok(cs.deep_view(), r.0.dview()),
        r.1@.len() == 0 <==> deterministic(cs.deep_view()),
        pairs_ok(r.1@, cs.deep_view().len()),
        (r.0.dview(), r.1@) == pass_of(cs.deep_view()),
{
    let ghost cv = cs.deep_view();
    let mut tbl: Dict<(usize, String), usize> = Dict::new();
    let mut pairs: Vec<(usize, usize)> = Vec::new();
    let nc = cs.len();
    assert(cv.len() == nc);
    for i in 0..nc
        invariant
            nc == cv.len(),
            cv == cs.deep_view(),
            tbl.wf(),
            forall|i2: usize, w: Seq<char>|
                #[trigger] lookup(tbl.dview(), (i2, w)) is Some ==> goto_edge(cv, i2 as int, w, lookup(tbl.dview(), (i2, w)).unwrap() as int),
            forall|i2: int, k2: int, w: Seq<char>, s2: int|
                0 <= i2 < i && 0 <= s2 < nc && #[trigger] item_goes(cv, i2, k2, w, s2) ==> lookup(tbl.dview(), (i2 as usize, w)) is Some
                    && (pairs@.len() == 0 ==> lookup(tbl.dview(), (i2 as usize, w)) == Some(s2 as usize)),
            pairs@.len() > 0 ==> !deterministic(cv),
            pairs_ok(pairs@, nc as nat),
            (tbl.dview(), pairs@) == pass_sets(cv, i as nat),
    {
        let c = clone_gens(&cs[i]);
        let ghost st_i = pass_sets(cv, i as nat);
        assert(cv[i as int].take(0) =~= Seq::<Item>::empty());
        let nk = c.len();
        assert(c.deep_view() == cv[i as int]);
        for k in 0..nk
            invariant
                nk == cv[i as int].len(),
                0 <= i < nc,
                c.deep_view() == cv[i as int],
                nc == cv.len(),
                cv == cs.deep_view(),
                tbl.wf(),
                forall|i2: usize, w: Seq<char>|
                    #[trigger] lookup(tbl.dview(), (i2, w)) is Some ==> goto_edge(cv, i2 as int, w, lookup(tbl.dview(), (i2, w)).unwrap() as int),
                forall|i2: int, k2: int, w: Seq<char>, s2: int|
                    (0 <= i2 < i || (i2 == i && k2 < k)) && 0 <= s2 < nc && #[trigger] item_goes(cv, i2, k2, w, s2)
                        ==> lookup(tbl.dview(), (i2 as usize, w)) is Some
                        && (pairs@.len() == 0 ==> lookup(tbl.dview(), (i2 as usize, w)) == Some(s2 as usize)),
                pairs@.len() > 0 ==> !deterministic(cv),
                pairs_ok(pairs@, nc as nat),
                (tbl.dview(), pairs@) == pass_items(st_i, cv, i, cv[i as int].take(k as int)),
        {
            assert(cv[i as int].take(k + 1).drop_last() =~= cv[i as int].take(k as int));
            assert(cv[i as int].take(k + 1).last() == cv[i as int][k as int]);
            let ghost st_k = (tbl.dview(), pairs@);
            let mut gen = c[k].duplicate();
            let ghost g0 = cv[i as int][k as int];
            assert(gen.deep_view() == g0);
            let word = gen.get_current_place();
            assert(word@ == cur_sym(g0));
            if gen.move_to_next() {
                for s in 0..nc
                    invariant
                        nk == cv[i as int].len(),
                        0 <= i < nc,
                        0 <= k < nk,
                        g0 == cv[i as int][k as int],
                        g0.2 < g0.3,
                        word@ == cur_sym(g0),
                        gen.deep_view() == moved(g0),
                        nc == cv.len(),
                        cv == cs.deep_view(),
                        tbl.wf(),
                        forall|i2: usize, w: Seq<char>|
                            #[trigger] lookup(tbl.dview(), (i2, w)) is Some ==> goto_edge(cv, i2 as int, w, lookup(tbl.dview(), (i2, w)).unwrap() as int),
                        forall|i2: int, k2: int, w: Seq<char>, s2: int|
                            (0 <= i2 < i || (i2 == i && k2 < k) || (i2 == i && k2 == k && s2 < s)) && 0 <= s2 < nc
                                && #[trigger] item_goes(cv, i2, k2, w, s2)
                                ==> lookup(tbl.dview(), (i2 as usize, w)) is Some
                                && (pairs@.len() == 0 ==> lookup(tbl.dview(), (i2 as usize, w)) == Some(s2 as usize)),
                        pairs@.len() > 0 ==> !deterministic(cv),
                        pairs_ok(pairs@, nc as nat),
                        (tbl.dview(), pairs@) == pass_targets(st_k, cv, i, g0, s as nat),
                {
                    if gens_contains(&cs[s], &gen) {
                        assert(item_goes(cv, i as int, k as int, word@, s as int));
                        assert(goto_edge(cv, i as int, word@, s as int));
                        let key = (i, word.clone());
                        let ghost kv = (i, word@);
                        assert(key.deep_view() == kv);
                        let ghost t0 = tbl.dview();
                        let ghost p0 = pairs@;
                        let prev: Option<usize> = match tbl.get(&key) {
                            Some(v) => Some(*v),
                            None => None,
                        };
                        tbl.insert(key, s);
                        proof {
                            crate::dict::lemma_put(t0, kv, s);
                        }
                        match prev {
                            Some(v) => {
                                assert(goto_edge(cv, i as int, word@, v as int));
                                if s != v && !pairs_contains(&pairs, (s, v)) && !pairs_contains(&pairs, (v, s)) {
                                    if v > s {
                                        pairs.push((s, v));
                                    } else {
                                        pairs.push((v, s));
                                    }
                                    assert(pairs@[pairs@.len() - 1].0 < pairs@[pairs@.len() - 1].1);
                                }
                                proof {
                                    if s != v {
                                        assert(!deterministic(cv));
                                    }
                                    if pairs@.len() == 0 {
                                        assert(p0.len() == 0);
                                        assert(s == v);
                                    }
                                }
                            },
                            None => {},
                        }
                        proof {
                            let t1 = tbl.dview();
                            assert forall|i2: usize, w: Seq<char>|
                                #[trigger] lookup(t1, (i2, w)) is Some implies goto_edge(cv, i2 as int, w, lookup(t1, (i2, w)).unwrap() as int) by {
                                if (i2, w) != kv {
                                    assert(lookup(t1, (i2, w)) == lookup(t0, (i2, w)));
                                }
                            }
                            assert forall|i2: int, k2: int, w: Seq<char>, s2: int|
                                (0 <= i2 < i || (i2 == i && k2 < k) || (i2 == i && k2 == k && s2 < s + 1)) && 0 <= s2 < nc
                                    && #[trigger] item_goes(cv, i2, k2, w, s2)
                                    implies lookup(t1, (i2 as usize, w)) is Some
                                    && (pairs@.len() == 0 ==> lookup(t1, (i2 as usize, w)) == Some(s2 as usize)) by {
                                if (i2 as usize, w) != kv {
                                    assert(lookup(t1, (i2 as usize, w)) == lookup(t0, (i2 as usize, w)));
                                    if i2 == i && k2 == k && s2 == s {
                                        assert(w == word@);
                                    }
                                    if pairs@.len() == 0 {
                                        assert(p0.len() == 0);
                                    }
                                } else {
                                    if pairs@.len() == 0 {
                                        assert(p0.len() == 0);
                                        if !(i2 == i && k2 == k && s2 == s) {
                                            assert(lookup(t0, (i2 as usize, w)) == Some(s2 as usize));
                                            assert(prev == Some(s2 as usize));
                                        }
                                    }
                                }
                            }
                            assert((tbl.dview(), pairs@) == pass_put((t0, p0), kv, s));
                        }
                    }
                }
            }
        }
        assert(cv[i as int].take(nk as int) =~= cv[i as int]);
    }
    proof {
        let tv = tbl.dview();
        assert forall|i: int, w: Seq<char>, s: int| #[trigger] goto_edge(cv, i, w, s) implies lookup(tv, (i as usize, w)) is Some by {
            let k = choose|k: int| #[trigger] item_goes(cv, i, k, w, s);
        }
        if pairs@.len() == 0 {
            assert forall|i: int, w: Seq<char>, s1: int, s2: int|
                #[trigger] goto_edge(cv, i, w, s1) && #[trigger] goto_edge(cv, i, w, s2) implies s1 == s2 by {
                let k1 = choose|k: int| #[trigger] item_goes(cv, i, k, w, s1);
                let k2 = choose|k: int| #[trigger] item_goes(cv, i, k, w, s2);
            }
        }
    }
    (tbl, pairs)
}

} // verus!

verus! {

/// Entry `k` of the item list is an item of the start word with the dot at
/// the start.
pub open spec fn start_entry(gl: Seq<(Seq<char>, usize, Item)>, fw: Seq<char>, k: int) -> bool {
    0 <= k < gl.len() && gl[k].0 == fw && gl[k].1 == 0
}

/// The sets of `cs` at the positions that are both used and reached, in order.
pub open spec fn keep_where(cs: Seq<Seq<Item>>, used: Seq<usize>, fact: Seq<usize>) -> Seq<Seq<Item>>
    decreases cs.len(),
{
    if cs.len() == 0 {
        Seq::<Seq<Item>>::empty()
    } else {
        let r = keep_where(cs.drop_last(), used, fact);
        let i = (cs.len() - 1) as usize;
        if used.contains(i) && fact.contains(i) {
            r.push(cs.last())
        } else {
            r
        }
    }
}

proof fn lemma_keep_where_len(cs: Seq<Seq<Item>>, used: Seq<usize>, fact: Seq<usize>)
    ensures
        keep_where(cs, used, fact).len() <= cs.len(),
    decreases cs.len(),
{
    if cs.len() > 0 {
        lemma_keep_where_len(cs.drop_last(), used, fact);
    }
}

proof fn lemma_keep_where_from(cs: Seq<Seq<Item>>, used: Seq<usize>, fact: Seq<usize>, q: int)
    requires
        0 <= q < keep_where(cs, used, fact).len(),
    ensures
        cs.contains(keep_where(cs, used, fact)[q]),
    decreases cs.len(),
{
    let r = keep_where(cs.drop_last(), used, fact);
    if q < r.len() {
        lemma_keep_where_from(cs.drop_last(), used, fact, q);
        let j = choose|j: int| 0 <= j < cs.drop_last().len() && cs.drop_last()[j] == r[q];
        assert(cs[j] == r[q]);
    } else {
        assert(cs[cs.len() - 1] == cs.last());
    }
}

/// The sets of `cs` whose positions are in both `used` and `fact`.
fn keep_sets(cs: &Vec<Vec<Gen>>, used: &Vec<usize>, fact: &Vec<usize>) -> (r: Vec<Vec<Gen>>)
    ensures
        r.deep_view() == keep_where(cs.deep_view(), used@, fact@),
{
    let ghost cv = cs.deep_view();
    let mut r: Vec<Vec<Gen>> = Vec::new();
    let n = cs.len();
    assert(cv.take(0) =~= Seq::<Seq<Item>>::empty());
    for i in 0..n
        invariant
            n == cv.len(),
            cv == cs.deep_view(),
            r.deep_view() == keep_where(cv.take(i as int), used@, fact@),
    {
        assert(cv.take(i + 1).drop_last() =~= cv.take(i as int));
        assert(cv.take(i + 1).last() == cv[i as int]);
        if contains_index(used, i) && contains_index(fact, i) {
            let c = clone_gens(&cs[i]);
            let ghost r0 = r.deep_view();
            r.push(c);
            assert(r.deep_view() =~= r0.push(cv[i as int]));
        }
    }
    assert(cv.take(n as int) =~= cv);
    r
}

/// Every item of every set of `cs` is in some set of `orig`.
pub open spec fn drawn_from(cs: Seq<Seq<Item>>, orig: Seq<Seq<Item>>) -> bool {
    forall|i: int, x: Item|
        0 <= i < cs.len() && #[trigger] cs[i].contains(x) ==> exists|j: int| 0 <= j < orig.len() && #[trigger] orig[j].contains(x)
}

/// What item sets keep while their transitions are worked out: their items can
/// be expanded and come from the universe, every set is an LR(1) closure, and
/// every item was in a set of `orig`.
pub open spec fn sets_fine(
    t: Seq<Seq<char>>,
    n: Seq<Seq<char>>,
    f: Seq<(Seq<char>, Seq<Seq<char>>)>,
    gl: Seq<(Seq<char>, usize, Item)>,
    u: Set<Item>,
    cs: Seq<Seq<Item>>,
    orig: Seq<Seq<Item>>,
) -> bool {
    &&& sets_ok(t, n, f, u, cs)
    &&& forall|i: int| 0 <= i < cs.len() ==> #[trigger] set_closed(t, n, f, gl, cs[i])
    &&& drawn_from(cs, orig)
}

/// Adds to set `a` the items of set `b` that it lacks.
#[verifier::spinoff_prover]
fn union_into(
    cs: &mut Vec<Vec<Gen>>,
    a: usize,
    b: usize,
    Ghost(t): Ghost<Seq<Seq<char>>>,
    Ghost(n): Ghost<Seq<Seq<char>>>,
    Ghost(f): Ghost<Seq<(Seq<char>, Seq<Seq<char>>)>>,
    Ghost(gl): Ghost<Seq<(Seq<char>, usize, Item)>>,
    Ghost(u): Ghost<Set<Item>>,
    Ghost(orig): Ghost<Seq<Seq<Item>>>,
)
    requires
        a < b < old(cs)@.len(),
        sets_fine(t, n, f, gl, u, old(cs).deep_view(), orig),
    ensures
        final(cs)@.len() == old(cs)@.len(),
        sets_fine(t, n, f, gl, u, final(cs).deep_view(), orig),
        forall|x: Item| #[trigger] final(cs).deep_view()[a as int].contains(x) <==> old(cs).deep_view()[a as int].contains(x)
            || old(cs).deep_view()[b as int].contains(x),
        forall|j: int| 0 <= j < old(cs)@.len() && j != a ==> #[trigger] final(cs).deep_view()[j] == old(cs).deep_view()[j],
        final(cs).deep_view() == old(cs).deep_view().update(
            a as int,
            union_items(old(cs).deep_view()[a as int], old(cs).deep_view()[b as int]),
        ),
{
    let ghost c0 = cs.deep_view();
    let src = clone_gens(&cs[b]);
    let mut dst = clone_gens(&cs[a]);
    let ghost sv = c0[b as int];
    let ghost dv0 = c0[a as int];
    assert(src.deep_view() == sv);
    assert(sv.take(0) =~= Seq::<Item>::empty());
    let m = src.len();
    for q in 0..m
        invariant
            m == sv.len(),
            src.deep_view() == sv,
            forall|x: Item| #[trigger] dst.deep_view().contains(x) <==> dv0.contains(x) || sv.take(q as int).contains(x),
            dst.deep_view() == union_items(dv0, sv.take(q as int)),
    {
        assert(sv.take(q + 1).drop_last() =~= sv.take(q as int));
        assert(sv.take(q + 1).last() == sv[q as int]);
        let g = src[q].duplicate();
        let ghost d0 = dst.deep_view();
        assert(g.deep_view() == sv[q as int]);
        if !gens_contains(&dst, &g) {
            dst.push(g);
            assert(dst.deep_view() =~= d0.push(sv[q as int]));
        }
        assert forall|x: Item| #[trigger] dst.deep_view().contains(x) <==> dv0.contains(x) || sv.take(q + 1).contains(x) by {
            assert(sv.take(q + 1) =~= sv.take(q as int).push(sv[q as int]));
        }
    }
    assert(sv.take(m as int) =~= sv);
    let ghost dv = dst.deep_view();
    cs.set(a, dst);
    proof {
        let c1 = cs.deep_view();
        assert(c1 =~= c0.update(a as int, dv));
        assert(set_closed(t, n, f, gl, dv0));
        assert(set_closed(t, n, f, gl, sv));
        assert forall|k: int| 0 <= k < dv.len() implies #[trigger] item_closed(t, n, f, gl, dv, dv[k]) by {
            let x = dv[k];
            assert(dv.contains(x));
            if dv0.contains(x) {
                let k0 = choose|k0: int| 0 <= k0 < dv0.len() && dv0[k0] == x;
                assert(item_closed(t, n, f, gl, dv0, dv0[k0]));
                lemma_item_closed_grow(t, n, f, gl, dv0, dv, x);
            } else {
                let k0 = choose|k0: int| 0 <= k0 < sv.len() && sv[k0] == x;
                assert(item_closed(t, n, f, gl, sv, sv[k0]));
                lemma_item_closed_grow(t, n, f, gl, sv, dv, x);
            }
        }
        assert(set_closed(t, n, f, gl, dv));
        assert forall|i: int| 0 <= i < c1.len() implies #[trigger] set_closed(t, n, f, gl, c1[i]) by {
            if i != a {
                assert(c1[i] == c0[i]);
            }
        }
        assert forall|i: int, x: Item| 0 <= i < c1.len() && #[trigger] c1[i].contains(x) implies item_ok(t, n, f, x) && u.contains(x) by {
            if i == a {
                if dv0.contains(x) {
                    assert(c0[a as int].contains(x));
                } else {
                    assert(c0[b as int].contains(x));
                }
            } else {
                assert(c0[i].contains(x));
            }
        }
        assert forall|i: int, x: Item| 0 <= i < c1.len() && #[trigger] c1[i].contains(x) implies exists|j: int|
            0 <= j < orig.len() && #[trigger] orig[j].contains(x) by {
            if i == a {
                if dv0.contains(x) {
                    assert(c0[a as int].contains(x));
                } else {
                    assert(c0[b as int].contains(x));
                }
            } else {
                assert(c0[i].contains(x));
            }
        }
    }
}

} // verus!

verus! {

/// How many times `x` occurs in `s`.
pub open spec fn count_in(s: Seq<usize>, x: usize) -> nat
    decreases s.len(),
{
    if s.len() == 0 {
        0
    } else {
        count_in(s.drop_last(), x) + if s.last() == x { 1nat } else { 0nat }
    }
}

proof fn lemma_count_zero(s: Seq<usize>, x: usize)
    ensures
        count_in(s, x) == 0 <==> !s.contains(x),
    decreases s.len(),
{
    if s.len() > 0 {
        lemma_count_zero(s.drop_last(), x);
        if s.drop_last().contains(x) {
            let j = choose|j: int| 0 <= j < s.drop_last().len() && s.drop_last()[j] == x;
            assert(s[j] == x);
        }
        if s.contains(x) && s.last() != x {
            let j = choose|j: int| 0 <= j < s.len() && s[j] == x;
            assert(s.drop_last()[j] == x);
        }
    }
}

/// How many times `x` occurs in `v`.
fn count_of(v: &Vec<usize>, x: usize) -> (c: usize)
    ensures
        c == count_in(v@, x),
{
    let mut c: usize = 0;
    let n = v.len();
    assert(v@.take(0) =~= Seq::<usize>::empty());
    for i in 0..n
        invariant
            n == v@.len(),
            c == count_in(v@.take(i as int), x),
            c <= i,
    {
        assert(v@.take(i + 1).drop_last() =~= v@.take(i as int));
        if v[i] == x {
            c = c + 1;
        }
    }
    assert(v@.take(n as int) =~= v@);
    c
}

/// Removes the sets at the positions in `remove`, from the highest down, each
/// position as often as it occurs (so a repeated position takes the set that
/// moved into it); fails when a position is past the end (see
/// `remove_from`).
#[verifier::spinoff_prover]
fn remove_marked(
    cs: &mut Vec<Vec<Gen>>,
    remove: &Vec<usize>,
    Ghost(t): Ghost<Seq<Seq<char>>>,
    Ghost(n): Ghost<Seq<Seq<char>>>,
    Ghost(f): Ghost<Seq<(Seq<char>, Seq<Seq<char>>)>>,
    Ghost(gl): Ghost<Seq<(Seq<char>, usize, Item)>>,
    Ghost(u): Ghost<Set<Item>>,
    Ghost(orig): Ghost<Seq<Seq<Item>>>,
) -> (ok: bool)
    requires
        sets_fine(t, n, f, gl, u, old(cs).deep_view(), orig),
        remove@.len() > 0,
        forall|q: int| 0 <= q < remove@.len() ==> #[trigger] remove@[q] < old(cs)@.len(),
    ensures
        sets_fine(t, n, f, gl, u, final(cs).deep_view(), orig),
        final(cs)@.len() <= old(cs)@.len(),
        ok ==> final(cs)@.len() < old(cs)@.len(),
        ok == remove_from(old(cs).deep_view(), remove@, old(cs)@.len() as nat) is Some,
        ok ==> remove_from(old(cs).deep_view(), remove@, old(cs)@.len() as nat) == Some(final(cs).deep_view()),
{
    let n0 = cs.len();
    let ghost c0 = cs.deep_view();
    let ghost target = remove_from(c0, remove@, n0 as nat);
    let mut x = n0;
    let ghost mut removed = false;
    while x > 0
        invariant
            x <= n0,
            n0 == old(cs)@.len(),
            c0 == old(cs).deep_view(),
            target == remove_from(c0, remove@, n0 as nat),
            target == remove_from(cs.deep_view(), remove@, x as nat),
            sets_fine(t, n, f, gl, u, cs.deep_view(), orig),
            cs@.len() <= n0,
            removed ==> cs@.len() < n0,
            !removed ==> cs@.len() == n0 && forall|q: int| 0 <= q < remove@.len() ==> #[trigger] remove@[q] < x,
        decreases x,
    {
        x = x - 1;
        let c = count_of(remove, x);
        let ghost cx = cs.deep_view();
        proof {
            lemma_count_zero(remove@, x);
            if !removed && c == 0 {
                assert forall|q: int| 0 <= q < remove@.len() implies #[trigger] remove@[q] < x by {
                    if remove@[q] == x {
                        assert(remove@.contains(x));
                    }
                }
            }
        }
        let mut j: usize = 0;
        while j < c
            invariant
                x < n0,
                n0 == old(cs)@.len(),
                j <= c,
                c == count_in(remove@, x),
                c0 == old(cs).deep_view(),
                target == remove_from(c0, remove@, n0 as nat),
                target == match remove_times(cx, x as int, c as nat) {
                    Some(c2) => remove_from(c2, remove@, x as nat),
                    None => None,
                },
                remove_times(cx, x as int, c as nat) == remove_times(cs.deep_view(), x as int, (c - j) as nat),
                sets_fine(t, n, f, gl, u, cs.deep_view(), orig),
                cs@.len() <= n0,
                removed ==> cs@.len() < n0,
                !removed ==> j == 0 && cs@.len() == n0,
                !removed && c == 0 ==> forall|q: int| 0 <= q < remove@.len() ==> #[trigger] remove@[q] < x,
            decreases c - j,
        {
            if x < cs.len() {
                let ghost c0b = cs.deep_view();
                cs.remove(x);
                proof {
                    let c1 = cs.deep_view();
                    assert(c1 =~= c0b.remove(x as int));
                    assert forall|i: int| 0 <= i < c1.len() implies #[trigger] set_closed(t, n, f, gl, c1[i]) by {
                        if i < x {
                            assert(c1[i] == c0b[i]);
                        } else {
                            assert(c1[i] == c0b[i + 1]);
                        }
                    }
                    assert forall|i: int, y: Item| 0 <= i < c1.len() && #[trigger] c1[i].contains(y) implies item_ok(t, n, f, y) && u.contains(y) by {
                        if i < x {
                            assert(c1[i] == c0b[i]);
                        } else {
                            assert(c1[i] == c0b[i + 1]);
                        }
                    }
                    assert forall|i: int, y: Item| 0 <= i < c1.len() && #[trigger] c1[i].contains(y) implies exists|jj: int|
                        0 <= jj < orig.len() && #[trigger] orig[jj].contains(y) by {
                        if i < x {
                            assert(c1[i] == c0b[i]);
                            assert(c0b[i].contains(y));
                        } else {
                            assert(c1[i] == c0b[i + 1]);
                            assert(c0b[i + 1].contains(y));
                        }
                    }
                    removed = true;
                }
            } else {
                assert(remove_times(cs.deep_view(), x as int, (c - j) as nat) is None);
                assert(remove_times(cx, x as int, c as nat) is None);
                assert(target is None);
                assert(remove_from(old(cs).deep_view(), remove@, old(cs)@.len() as nat) is None);
                return false;
            }
            j = j + 1;
        }
    }
    proof {
        if !removed {
            assert(remove@[0] < 0);
        }
    }
    true
}

/// The transitions between the item sets of an LR(1) analyser: for each set
/// and symbol, the set it goes to.
pub struct GO {
    go: Dict<(usize, String), usize>,
}

impl GO {
    /// The table: `(set, symbol)` with its target set.
    pub closed spec fn table(&self) -> Seq<((usize, Seq<char>), usize)> {
        self.go.dview()
    }

    pub closed spec fn wf(&self) -> bool {
        self.go.wf()
    }
}

} // verus!

verus! {

impl LR {
    /// The set the transitions are traced from (see `start_of`).
    fn start_set(&self) -> (r: Option<usize>)
        requires
            self.wf(),
        ensures
            r is None <==> !exists|k: int| start_entry(self.gen_list.deep_view(), self.lang.first_word@, k),
            r == match start_of(self.index.deep_view(), self.gen_list.deep_view(), self.closeure.deep_view(), self.lang.first_word@) {
                Some(x) => Some(x as usize),
                None => None::<usize>,
            },
    {
        let ghost gl = self.gen_list.deep_view();
        let ghost ix = self.index.deep_view();
        let ghost fw = self.lang.first_word@;
        let ghost cv = self.closeure.deep_view();
        let k = last_index_exec(&self.index, &self.lang.first_word, 0);
        proof {
            lemma_last_index(ix, (fw, 0usize));
            assert(ix.len() == gl.len());
            assert forall|j: int| start_entry(gl, fw, j) <==> 0 <= j < ix.len() && ix[j] == (fw, 0usize) by {
                if 0 <= j < ix.len() {
                    assert(ix[j] == (gl[j].0, gl[j].1));
                }
            }
        }
        if !(k < self.index.len() && self.index[k].0 == self.lang.first_word && self.index[k].1 == 0) {
            proof {
                if k < self.index@.len() {
                    assert(ix[k as int] == (self.index@[k as int].0@, self.index@[k as int].1));
                }
                if exists|j: int| start_entry(gl, fw, j) {
                    let j = choose|j: int| start_entry(gl, fw, j);
                    assert(ix[j] == (gl[j].0, gl[j].1));
                    assert(ix[j] == (fw, 0usize));
                }
            }
            return None;
        }
        assert(ix[k as int] == (self.index@[k as int].0@, self.index@[k as int].1));
        assert(start_entry(gl, fw, k as int));
        let first_gen = self.gen_list[k].2.duplicate();
        assert(first_gen.deep_view() == gl[k as int].2);
        let nc = self.closeure.len();
        for c in 0..nc
            invariant
                nc == cv.len(),
                cv == self.closeure.deep_view(),
                gl == self.gen_list.deep_view(),
                ix == self.index.deep_view(),
                fw == self.lang.first_word@,
                k < gl.len(),
                k < ix.len(),
                k as int == last_index_of(ix, (fw, 0usize)),
                ix[k as int] == (fw, 0usize),
                start_entry(gl, fw, k as int),
                first_gen.deep_view() == gl[k as int].2,
                first_holding(cv, gl[k as int].2, k as int, 0) == first_holding(cv, gl[k as int].2, k as int, c as nat),
        {
            if gens_contains(&self.closeure[c], &first_gen) {
                return Some(c);
            }
        }
        Some(k)
    }
}

/// The recorded targets are the transitions, so what the lists reach is
/// what the transitions reach.
proof fn lemma_reach_same(
    cs: Seq<Seq<Item>>,
    way: Seq<(usize, Seq<usize>)>,
    start: usize,
    x: usize,
    k: nat,
)
    requires
        forall|y: usize, z: usize| #[trigger] has_target(way, y, z) <==> edge(cs, y as int, z as int),
    ensures
        reach(way, start, x, k) <==> reach_e(cs, start, x, k),
    decreases k,
{
    if k > 0 {
        lemma_reach_same(cs, way, start, x, (k - 1) as nat);
        if reach(way, start, x, k) && !reach(way, start, x, (k - 1) as nat) {
            let y = choose|y: usize| #[trigger] has_target(way, y, x) && reach(way, start, y, (k - 1) as nat);
            lemma_reach_same(cs, way, start, y, (k - 1) as nat);
            assert(edge(cs, y as int, x as int));
        }
        if reach_e(cs, start, x, k) && !reach_e(cs, start, x, (k - 1) as nat) {
            let y = choose|y: usize| #[trigger] edge(cs, y as int, x as int) && reach_e(cs, start, y, (k - 1) as nat);
            lemma_reach_same(cs, way, start, y, (k - 1) as nat);
            assert(has_target(way, y, x));
        }
    }
}

/// Keeping the sets that are used and reached is pruning, when `used` holds
/// the ends of transitions and `fact` the sets reached.
proof fn lemma_prune_same(
    cs: Seq<Seq<Item>>,
    all: Seq<Seq<Item>>,
    used: Seq<usize>,
    fact: Seq<usize>,
    start: usize,
)
    requires
        cs.len() <= all.len(),
        all.len() <= usize::MAX,
        forall|i: usize| i < all.len() ==> (#[trigger] used.contains(i) <==> is_end(all, i as int)),
        forall|i: usize| i < all.len() ==> (#[trigger] fact.contains(i) <==> exists|k: nat| reach_e(all, start, i, k)),
    ensures
        keep_where(cs, used, fact) == prune(cs, all, start),
    decreases cs.len(),
{
    if cs.len() > 0 {
        lemma_prune_same(cs.drop_last(), all, used, fact, start);
        let i = (cs.len() - 1) as usize;
        assert(used.contains(i) <==> is_end(all, i as int));
        assert(fact.contains(i) <==> exists|k: nat| reach_e(all, start, i, k));
    }
}

impl GO {
    /// Works out the transitions of the analyser's item sets (see `go_sets`):
    /// the sets that are an end of no transition, or that the start set does
    /// not reach, are dropped (see `prune`); then, while one set goes to two
    /// sets on one symbol, the second of each such pair is merged into the
    /// first and dropped (see `merge_all`). The result gives, for each set and
    /// symbol, the set it goes to. `None` when the analyser has no start item,
    /// or a set to drop is past the end.
    #[verifier::spinoff_prover]
    pub fn new(lr: &mut LR) -> (r: Option<GO>)
        requires
            old(lr).wf(),
            old(lr).sets_ok(),
            old(lr).sets_closed(),
        ensures
            final(lr).wf(),
            final(lr).language() == old(lr).language(),
            final(lr).analyser() == old(lr).analyser(),
            final(lr).items() == old(lr).items(),
            final(lr).item_index() == old(lr).item_index(),
            final(lr).sets_ok(),
            final(lr).sets_closed(),
            drawn_from(final(lr).closures(), old(lr).closures()),
            final(lr).closures().len() <= old(lr).closures().len(),
            !(exists|k: int| start_entry(old(lr).items(), old(lr).language().first_word@, k)) ==> r is None,
            ({
                let res = go_sets(old(lr).item_index(), old(lr).items(), old(lr).closures(), old(lr).language().first_word@);
                &&& (r is None <==> res is None)
                &&& r is Some ==> res == Some(final(lr).closures())
            }),
            r matches Some(go) ==> go.wf() && go.table() == pass_of(final(lr).closures()).0 && deterministic(final(lr).closures())
                && goto_table_ok(final(lr).closures(), go.table()),
    {
        let ghost t = lr.lang.twords.deep_view();
        let ghost n = lr.lang.ntwords.deep_view();
        let ghost f = lr.ll.first_lists();
        let ghost gl = lr.gen_list.deep_view();
        let ghost u = lr.universe();
        let ghost orig = lr.closeure.deep_view();
        let ghost ix = lr.index.deep_view();
        let ghost fw = lr.lang.first_word@;
        let (used, way) = transitions(&lr.closeure);
        let start = match lr.start_set() {
            Some(x) => x,
            None => {
                return None;
            },
        };
        let ghost res = go_sets(ix, gl, orig, fw);
        let nc = lr.closeure.len();
        assert(orig.len() == nc);
        let ghost bound: nat = if start < nc { nc as nat } else { start as nat + 1 };
        proof {
            assert forall|i: usize, s: usize| #[trigger] has_target(way.dview(), i, s) implies s < bound by {
                assert(targets_ok(orig, lookup(way.dview(), i), i));
            }
        }
        let fact = reachable(&way, start, Ghost(bound));
        let mut cs = keep_sets(&lr.closeure, &used, &fact);
        let ghost pruned = cs.deep_view();
        proof {
            let kv = cs.deep_view();
            lemma_keep_where_len(orig, used@, fact@);
            assert forall|i: int| 0 <= i < kv.len() implies #[trigger] set_closed(t, n, f, gl, kv[i]) by {
                lemma_keep_where_from(orig, used@, fact@, i);
                let j = choose|j: int| 0 <= j < orig.len() && orig[j] == kv[i];
                assert(set_closed(t, n, f, gl, orig[j]));
            }
            assert forall|i: int, x: Item| 0 <= i < kv.len() && #[trigger] kv[i].contains(x) implies item_ok(t, n, f, x) && u.contains(x)
                && exists|j: int| 0 <= j < orig.len() && #[trigger] orig[j].contains(x) by {
                lemma_keep_where_from(orig, used@, fact@, i);
                let j = choose|j: int| 0 <= j < orig.len() && orig[j] == kv[i];
                assert(orig[j].contains(x));
            }
            let wv = way.dview();
            assert forall|y: usize, z: usize| #[trigger] has_target(wv, y, z) <==> edge(orig, y as int, z as int) by {
                if has_target(wv, y, z) {
                    assert(targets_ok(orig, lookup(wv, y), y));
                }
                if edge(orig, y as int, z as int) {
                    assert(recorded(used@, wv, y as int, z as int));
                }
            }
            assert forall|i: usize| i < orig.len() implies (#[trigger] used@.contains(i) <==> is_end(orig, i as int)) by {
                if is_end(orig, i as int) {
                    if exists|s2: int| #[trigger] edge(orig, i as int, s2) {
                        let s2 = choose|s2: int| #[trigger] edge(orig, i as int, s2);
                        assert(recorded(used@, wv, i as int, s2));
                    } else {
                        let i2 = choose|i2: int| #[trigger] edge(orig, i2, i as int);
                        assert(recorded(used@, wv, i2, i as int));
                    }
                }
            }
            assert forall|i: usize| i < orig.len() implies (#[trigger] fact@.contains(i) <==> exists|k: nat| reach_e(orig, start, i, k)) by {
                if fact@.contains(i) {
                    let k = choose|k: nat| reach(wv, start, i, k);
                    lemma_reach_same(orig, wv, start, i, k);
                }
                if exists|k: nat| reach_e(orig, start, i, k) {
                    let k = choose|k: nat| reach_e(orig, start, i, k);
                    lemma_reach_same(orig, wv, start, i, k);
                }
            }
            lemma_prune_same(orig, orig, used@, fact@, start);
            assert(res == merge_all(pruned, orig.len() + 1));
        }
        let ghost mut fuel: nat = (orig.len() + 1) as nat;
        let mut merging = true;
        while merging
            invariant
                *lr == *old(lr),
                lr.wf(),
                t == lr.lang.twords.deep_view(),
                n == lr.lang.ntwords.deep_view(),
                f == lr.ll.first_lists(),
                gl == lr.gen_list.deep_view(),
                u == lr.universe(),
                orig == lr.closeure.deep_view(),
                ix == lr.index.deep_view(),
                fw == lr.lang.first_word@,
                res == go_sets(ix, gl, orig, fw),
                sets_fine(t, n, f, gl, u, cs.deep_view(), orig),
                cs@.len() <= orig.len(),
                fuel >= cs@.len() + 1,
                res == merge_all(cs.deep_view(), fuel),
                !merging ==> deterministic(cs.deep_view()) && res == Some(cs.deep_view()),
            decreases cs@.len() + if merging { 1int } else { 0int },
        {
            let ghost c_start = cs.deep_view();
            let (_, pairs) = goto_pass(&cs);
            if pairs.len() == 0 {
                merging = false;
            } else {
                let np = pairs.len();
                let ghost n0 = cs@.len();
                assert(pairs@.take(0) =~= Seq::<(usize, usize)>::empty());
                for q in 0..np
                    invariant
                        np == pairs@.len(),
                        pairs_ok(pairs@, n0 as nat),
                        cs@.len() == n0,
                        *lr == *old(lr),
                        sets_fine(t, n, f, gl, u, cs.deep_view(), orig),
                        cs.deep_view() == apply_unions(c_start, pairs@.take(q as int)),
                {
                    assert(pairs@[q as int].0 < pairs@[q as int].1);
                    assert(pairs@.take(q + 1).drop_last() =~= pairs@.take(q as int));
                    assert(pairs@.take(q + 1).last() == pairs@[q as int]);
                    union_into(&mut cs, pairs[q].0, pairs[q].1, Ghost(t), Ghost(n), Ghost(f), Ghost(gl), Ghost(u), Ghost(orig));
                }
                assert(pairs@.take(np as int) =~= pairs@);
                let mut remove: Vec<usize> = Vec::new();
                for q in 0..np
                    invariant
                        np == pairs@.len(),
                        pairs_ok(pairs@, n0 as nat),
                        remove@.len() == q,
                        *lr == *old(lr),
                        forall|q2: int| 0 <= q2 < q ==> #[trigger] remove@[q2] < n0,
                        remove@ == second_of(pairs@).take(q as int),
                {
                    assert(pairs@[q as int].1 < n0);
                    remove.push(pairs[q].1);
                    assert(remove@ =~= second_of(pairs@).take(q + 1));
                }
                assert(second_of(pairs@).take(np as int) =~= second_of(pairs@));
                if !remove_marked(&mut cs, &remove, Ghost(t), Ghost(n), Ghost(f), Ghost(gl), Ghost(u), Ghost(orig)) {
                    assert(merge_round(c_start) is None);
                    lr.closeure = cs;
                    return None;
                }
                proof {
                    assert(merge_round(c_start) == Some(cs.deep_view()));
                    fuel = (fuel - 1) as nat;
                }
            }
        }
        let (tbl, _) = goto_pass(&cs);
        lr.closeure = cs;
        Some(GO { go: tbl })
    }
}

} // verus!

verus! {

/// The position of the last entry of `ix` equal to `key`, or 0 when there is
/// none.
pub open spec fn last_index_of(ix: Seq<(Seq<char>, usize)>, key: (Seq<char>, usize)) -> int
    decreases ix.len(),
{
    if ix.len() == 0 {
        0
    } else if ix.last() == key {
        ix.len() - 1
    } else {
        last_index_of(ix.drop_last(), key)
    }
}

/// The position of the last set of `cs` that holds `g`, or `dflt` when none
/// does.
pub open spec fn last_holding(cs: Seq<Seq<Item>>, g: Item, dflt: int) -> int
    decreases cs.len(),
{
    if cs.len() == 0 {
        dflt
    } else if cs.last().contains(g) {
        cs.len() - 1
    } else {
        last_holding(cs.drop_last(), g, dflt)
    }
}

/// The accepting set: the last set holding the item `'S -> S·` found last in
/// the list (or, when no set holds it, its position in the list).
pub open spec fn end_state(
    ix: Seq<(Seq<char>, usize)>,
    gl: Seq<(Seq<char>, usize, Item)>,
    cs: Seq<Seq<Item>>,
    fw: Seq<char>,
) -> int {
    let e = last_index_of(ix, (fw, 1));
    last_holding(cs, gl[e].2, e)
}

/// The shift entries: each transition on a terminal, in table order; a
/// transition on a terminal into the accepting set `end` first marks
/// `(end, "#")` with `nsets`.
pub open spec fn action_of(
    tbl: Seq<((usize, Seq<char>), usize)>,
    t: Seq<Seq<char>>,
    end: int,
    nsets: usize,
) -> Seq<((usize, Seq<char>), usize)>
    decreases tbl.len(),
{
    if tbl.len() == 0 {
        Seq::empty()
    } else {
        let r = action_of(tbl.drop_last(), t, end, nsets);
        let e = tbl.last();
        if t.contains(e.0.1) {
            let r2 = if e.1 as int == end {
                put(r, (e.1, "#"@), nsets)
            } else {
                r
            };
            put(r2, e.0, e.1)
        } else {
            r
        }
    }
}

/// The goto entries: each transition on a nonterminal (that is not also a
/// terminal), in table order.
pub open spec fn goto_of(
    tbl: Seq<((usize, Seq<char>), usize)>,
    t: Seq<Seq<char>>,
    n: Seq<Seq<char>>,
) -> Seq<((usize, Seq<char>), usize)>
    decreases tbl.len(),
{
    if tbl.len() == 0 {
        Seq::empty()
    } else {
        let r = goto_of(tbl.drop_last(), t, n);
        let e = tbl.last();
        if !t.contains(e.0.1) && n.contains(e.0.1) {
            put(r, e.0, e.1)
        } else {
            r
        }
    }
}

/// What a reduction by production `s` of `head` is written as: `head-s`, or
/// `acc` for the start word `fw`.
pub open spec fn reduce_label(head: Seq<char>, s: nat, fw: Seq<char>) -> Seq<char> {
    if head != fw {
        head + "-"@ + decimal(s)
    } else {
        "acc"@
    }
}

/// The reductions for complete item `g` of set `i` by the productions
/// `bodies` of `head`: each body equal to the item's enters the reduction
/// on the item's lookahead.
pub open spec fn reg_bodies(
    r: Seq<((usize, Seq<char>), Seq<char>)>,
    i: usize,
    g: Item,
    head: Seq<char>,
    bodies: Seq<Seq<Seq<char>>>,
    fw: Seq<char>,
) -> Seq<((usize, Seq<char>), Seq<char>)>
    decreases bodies.len(),
{
    if bodies.len() == 0 {
        r
    } else {
        let r0 = reg_bodies(r, i, g, head, bodies.drop_last(), fw);
        if bodies.last() == g.0.1 {
            put(r0, (i, g.1), reduce_label(head, (bodies.len() - 1) as nat, fw))
        } else {
            r0
        }
    }
}

/// The reductions for complete item `g` of set `i`, over the grammar's
/// entries whose head is the item's.
pub open spec fn reg_prods(
    r: Seq<((usize, Seq<char>), Seq<char>)>,
    i: usize,
    g: Item,
    lg: Seq<(Seq<char>, Seq<Seq<Seq<char>>>)>,
    fw: Seq<char>,
) -> Seq<((usize, Seq<char>), Seq<char>)>
    decreases lg.len(),
{
    if lg.len() == 0 {
        r
    } else {
        let r0 = reg_prods(r, i, g, lg.drop_last(), fw);
        if lg.last().0 == g.0.0 {
            reg_bodies(r0, i, g, lg.last().0, lg.last().1, fw)
        } else {
            r0
        }
    }
}

/// The reductions for the complete items (dot at the end) of set `i`.
pub open spec fn reg_items(
    r: Seq<((usize, Seq<char>), Seq<char>)>,
    i: usize,
    items: Seq<Item>,
    lg: Seq<(Seq<char>, Seq<Seq<Seq<char>>>)>,
    fw: Seq<char>,
) -> Seq<((usize, Seq<char>), Seq<char>)>
    decreases items.len(),
{
    if items.len() == 0 {
        r
    } else {
        let r0 = reg_items(r, i, items.drop_last(), lg, fw);
        if items.last().2 == items.last().3 {
            reg_prods(r0, i, items.last(), lg, fw)
        } else {
            r0
        }
    }
}

/// The reductions of every set, set by set.
pub open spec fn reg_sets(
    r: Seq<((usize, Seq<char>), Seq<char>)>,
    cs: Seq<Seq<Item>>,
    lg: Seq<(Seq<char>, Seq<Seq<Seq<char>>>)>,
    fw: Seq<char>,
) -> Seq<((usize, Seq<char>), Seq<char>)>
    decreases cs.len(),
{
    if cs.len() == 0 {
        r
    } else {
        reg_items(reg_sets(r, cs.drop_last(), lg, fw), (cs.len() - 1) as usize, cs.last(), lg, fw)
    }
}

/// The position of the last entry of `ix` that is `(w, p)`, or 0.
fn last_index_exec(ix: &Vec<(String, usize)>, w: &String, p: usize) -> (r: usize)
    ensures
        r as int == last_index_of(ix.deep_view(), (w@, p)),
        ix@.len() > 0 ==> r < ix@.len(),
{
    let ghost iv = ix.deep_view();
    let mut r: usize = 0;
    let n = ix.len();
    assert(iv.take(0) =~= Seq::<(Seq<char>, usize)>::empty());
    for i in 0..n
        invariant
            n == iv.len(),
            iv == ix.deep_view(),
            r as int == last_index_of(iv.take(i as int), (w@, p)),
            n > 0 ==> r < n,
    {
        assert(iv.take(i + 1).drop_last() =~= iv.take(i as int));
        assert(iv.take(i + 1).last() == iv[i as int]);
        assert(iv[i as int] == (ix@[i as int].0@, ix@[i as int].1));
        if ix[i].0 == *w && ix[i].1 == p {
            r = i;
        }
    }
    assert(iv.take(n as int) =~= iv);
    r
}

/// The position of the last set of `cs` that holds `g`, or `dflt`.
fn last_holding_exec(cs: &Vec<Vec<Gen>>, g: &Gen, dflt: usize) -> (r: usize)
    ensures
        r as int == last_holding(cs.deep_view(), g.deep_view(), dflt as int),
{
    let ghost cv = cs.deep_view();
    let mut r: usize = dflt;
    let n = cs.len();
    assert(cv.take(0) =~= Seq::<Seq<Item>>::empty());
    for i in 0..n
        invariant
            n == cv.len(),
            cv == cs.deep_view(),
            r as int == last_holding(cv.take(i as int), g.deep_view(), dflt as int),
    {
        assert(cv.take(i + 1).drop_last() =~= cv.take(i as int));
        assert(cv.take(i + 1).last() == cv[i as int]);
        if gens_contains(&cs[i], g) {
            r = i;
        }
    }
    assert(cv.take(n as int) =~= cv);
    r
}

} // verus!

verus! {

/// How a reduction by production `s` of `head` is written (see
/// `reduce_label`).
fn reduce_label_exec(head: &String, s: usize, fw: &String) -> (l: String)
    ensures
        l@ == reduce_label(head@, s as nat, fw@),
{
    if *head != *fw {
        let mut l = head.clone();
        l.append("-");
        let d = decimal_string(s);
        l.append(d.as_str());
        l
    } else {
        owned("acc")
    }
}

/// Enters the reductions of complete item `g` of set `i` by the productions
/// `bodies` of `head` (see `reg_bodies`).
fn reg_for_bodies(
    reg: &mut Dict<(usize, String), String>,
    i: usize,
    g: &Gen,
    head: &String,
    bodies: &Vec<Vec<String>>,
    fw: &String,
)
    requires
        old(reg).wf(),
    ensures
        final(reg).wf(),
        final(reg).dview() == reg_bodies(old(reg).dview(), i, g.deep_view(), head@, bodies.deep_view(), fw@),
{
    let ghost bv = bodies.deep_view();
    let ghost r0 = reg.dview();
    let n = bodies.len();
    assert(bv.take(0) =~= Seq::<Seq<Seq<char>>>::empty());
    for s in 0..n
        invariant
            n == bv.len(),
            bv == bodies.deep_view(),
            reg.wf(),
            reg.dview() == reg_bodies(r0, i, g.deep_view(), head@, bv.take(s as int), fw@),
    {
        assert(bv.take(s + 1).drop_last() =~= bv.take(s as int));
        assert(bv.take(s + 1).last() == bv[s as int]);
        if strings_eq(&bodies[s], &g.gen.1) {
            let l = reduce_label_exec(head, s, fw);
            let key = (i, g.ahead.clone());
            reg.insert(key, l);
        }
    }
    assert(bv.take(n as int) =~= bv);
}

/// Enters the reductions of complete item `g` of set `i` (see `reg_prods`).
fn reg_for_item(
    reg: &mut Dict<(usize, String), String>,
    i: usize,
    g: &Gen,
    lg: &Dict<String, Vec<Vec<String>>>,
    fw: &String,
)
    requires
        old(reg).wf(),
    ensures
        final(reg).wf(),
        final(reg).dview() == reg_prods(old(reg).dview(), i, g.deep_view(), lg.dview(), fw@),
{
    let ghost lv = lg.dview();
    let ghost r0 = reg.dview();
    let n = lg.entries.len();
    assert(lv.take(0) =~= Seq::<(Seq<char>, Seq<Seq<Seq<char>>>)>::empty());
    for e in 0..n
        invariant
            n == lv.len(),
            lv == lg.dview(),
            reg.wf(),
            reg.dview() == reg_prods(r0, i, g.deep_view(), lv.take(e as int), fw@),
    {
        assert(lv.take(e + 1).drop_last() =~= lv.take(e as int));
        assert(lv.take(e + 1).last() == lv[e as int]);
        let entry = &lg.entries[e];
        assert(lv[e as int] == (entry.0@, entry.1.deep_view()));
        if entry.0 == g.gen.0 {
            reg_for_bodies(reg, i, g, &entry.0, &entry.1, fw);
        }
    }
    assert(lv.take(n as int) =~= lv);
}

/// The analysis tables of an LR(1) analyser: shifts, gotos and reductions,
/// keyed by state and symbol, with the analyser and the log of the last
/// analyses.
pub struct AnalyzeTable {
    action: Dict<(usize, String), usize>,
    goto: Dict<(usize, String), usize>,
    reg: Dict<(usize, String), String>,
    lr: LR,
    history: History,
}

impl AnalyzeTable {
    /// The shift entries: `(state, terminal)` with the state to go to.
    pub closed spec fn actions(&self) -> Seq<((usize, Seq<char>), usize)> {
        self.action.dview()
    }

    /// The goto entries: `(state, nonterminal)` with the state to go to.
    pub closed spec fn gotos(&self) -> Seq<((usize, Seq<char>), usize)> {
        self.goto.dview()
    }

    /// The reduction entries: `(state, lookahead)` with `head-n` or `acc`.
    pub closed spec fn reductions(&self) -> Seq<((usize, Seq<char>), Seq<char>)> {
        self.reg.dview()
    }

    /// The LR(1) analyser the tables were built from.
    pub closed spec fn analyser(&self) -> LR {
        self.lr
    }

    /// The log of the analysis steps.
    pub closed spec fn history(&self) -> History {
        self.history
    }

    pub closed spec fn wf(&self) -> bool {
        &&& self.action.wf()
        &&& self.goto.wf()
        &&& self.reg.wf()
        &&& self.lr.wf()
        &&& self.history.wf()
    }

    /// Builds the tables of a language: its LR(1) analyser (see `LR::new`)
    /// and the transitions of its item sets (see `GO::new`); each transition
    /// on a terminal is a shift, on a nonterminal a goto (see `action_of`,
    /// `goto_of`), and each complete item enters the reduction by its
    /// production on its lookahead (see `reg_sets`). `None` when the
    /// transitions cannot be worked out, or the analyser has no items.
    #[verifier::spinoff_prover]
    pub fn new(lang: &Language) -> (r: Option<AnalyzeTable>)
        requires
            lang.lg.wf(),
            lr_ready(
                augmented(lang.lg.dview(), lang.first_word@),
                lang.twords.deep_view(),
                lang.ntwords.deep_view().push("'"@ + lang.first_word@),
                lang.words.deep_view().push("'"@ + lang.first_word@),
                "'"@ + lang.first_word@,
            ),
        ensures
            r matches Some(at) ==> {
                let lr = at.analyser();
                let cs = lr.closures();
                let l = lr.language();
                &&& at.wf()
                &&& l.twords.deep_view() == lang.twords.deep_view()
                &&& l.ntwords.deep_view() == lang.ntwords.deep_view().push("'"@ + lang.first_word@)
                &&& l.words.deep_view() == lang.words.deep_view().push("'"@ + lang.first_word@)
                &&& l.lg.dview() == augmented(lang.lg.dview(), lang.first_word@)
                &&& l.first_word@ == "'"@ + lang.first_word@
                &&& l.conf_path@ == lang.conf_path@
                &&& lr.items() == gen_items(
                    augmented(lang.lg.dview(), lang.first_word@),
                    lang.words.deep_view().push("'"@ + lang.first_word@),
                    "'"@ + lang.first_word@,
                )
                &&& lr.item_index() == index_of_items(lr.items())
                &&& crate::ff::ff_built(lr.analyser(), l)
                &&& go_sets(
                    lr.item_index(),
                    lr.items(),
                    lr_sets(
                        lr.items(),
                        lr.item_index(),
                        l.twords.deep_view(),
                        l.ntwords.deep_view(),
                        lr.analyser().first_lists(),
                        l.first_word@,
                    ),
                    l.first_word@,
                ) == Some(cs)
                &&& lr.sets_ok()
                &&& lr.sets_closed()
                &&& deterministic(cs)
                &&& goto_table_ok(cs, pass_of(cs).0)
                &&& keys_of(pass_of(cs).0).no_duplicates()
                &&& at.actions() == action_of(
                    pass_of(cs).0,
                    l.twords.deep_view(),
                    end_state(lr.item_index(), lr.items(), cs, l.first_word@),
                    cs.len() as usize,
                )
                &&& at.gotos() == goto_of(pass_of(cs).0, l.twords.deep_view(), l.ntwords.deep_view())
                &&& at.reductions() == reg_sets(Seq::empty(), cs, l.lg.dview(), l.first_word@)
                &&& at.history().steps().len() == 0
                &&& at.history().inputs().len() == 0
            },
            r is None ==> {
                let g = augmented(lang.lg.dview(), lang.first_word@);
                let fw = "'"@ + lang.first_word@;
                let items = gen_items(g, lang.words.deep_view().push(fw), fw);
                let t = lang.twords.deep_view();
                let n = lang.ntwords.deep_view().push(fw);
                ||| items.len() == 0
                ||| exists|f: Seq<(Seq<char>, Seq<Seq<char>>)>|
                    crate::first::first_exact(g, t, n, f) && crate::first::first_swept(g, t, n, f) && #[trigger] go_sets(
                        index_of_items(items),
                        items,
                        lr_sets(items, index_of_items(items), t, n, f, fw),
                        fw,
                    ) is None
            },
    {
        let mut lr = LR::new(lang);
        let go = match GO::new(&mut lr) {
            Some(go) => go,
            None => {
                return None;
            },
        };
        let ghost cs = lr.closeure.deep_view();
        let ghost t = lr.lang.twords.deep_view();
        let ghost n = lr.lang.ntwords.deep_view();
        let ghost tbl = go.go.dview();
        if lr.gen_list.len() == 0 {
            return None;
        }
        let mut end = last_index_exec(&lr.index, &lr.lang.first_word, 1);
        proof {
            assert(lr.index.deep_view().len() == lr.gen_list.deep_view().len());
        }
        let end_gen = lr.gen_list[end].2.duplicate();
        end = last_holding_exec(&lr.closeure, &end_gen, end);
        let ghost endv = end_state(lr.index.deep_view(), lr.gen_list.deep_view(), cs, lr.lang.first_word@);
        assert(end as int == endv);
        let nsets = lr.closeure.len();
        let mut action: Dict<(usize, String), usize> = Dict::new();
        let mut goto: Dict<(usize, String), usize> = Dict::new();
        let ne = go.go.entries.len();
        assert(tbl.take(0) =~= Seq::<((usize, Seq<char>), usize)>::empty());
        for q in 0..ne
            invariant
                ne == tbl.len(),
                tbl == go.go.dview(),
                t == lr.lang.twords.deep_view(),
                n == lr.lang.ntwords.deep_view(),
                action.wf(),
                goto.wf(),
                action.dview() == action_of(tbl.take(q as int), t, endv, nsets),
                goto.dview() == goto_of(tbl.take(q as int), t, n),
                end as int == endv,
        {
            assert(tbl.take(q + 1).drop_last() =~= tbl.take(q as int));
            assert(tbl.take(q + 1).last() == tbl[q as int]);
            let entry = &go.go.entries[q];
            assert(tbl[q as int] == ((entry.0.0, entry.0.1@), entry.1));
            if contains_string(&lr.lang.twords, &entry.0.1) {
                if entry.1 == end {
                    action.insert((entry.1, owned("#")), nsets);
                }
                action.insert((entry.0.0, entry.0.1.clone()), entry.1);
            } else if contains_string(&lr.lang.ntwords, &entry.0.1) {
                goto.insert((entry.0.0, entry.0.1.clone()), entry.1);
            }
        }
        assert(tbl.take(ne as int) =~= tbl);
        let mut reg: Dict<(usize, String), String> = Dict::new();
        let ghost lv = lr.lang.lg.dview();
        let ghost fw = lr.lang.first_word@;
        assert(cs.take(0) =~= Seq::<Seq<Item>>::empty());
        for i in 0..nsets
            invariant
                nsets == cs.len(),
                cs == lr.closeure.deep_view(),
                lv == lr.lang.lg.dview(),
                fw == lr.lang.first_word@,
                reg.wf(),
                reg.dview() == reg_sets(Seq::empty(), cs.take(i as int), lv, fw),
        {
            assert(cs.take(i + 1).drop_last() =~= cs.take(i as int));
            assert(cs.take(i + 1).last() == cs[i as int]);
            let c = &lr.closeure[i];
            let ghost r0 = reg.dview();
            let ghost iv = cs[i as int];
            let m = c.len();
            assert(c.deep_view() == iv);
            assert(iv.take(0) =~= Seq::<Item>::empty());
            for k in 0..m
                invariant
                    m == iv.len(),
                    iv == c.deep_view(),
                    lv == lr.lang.lg.dview(),
                    fw == lr.lang.first_word@,
                    reg.wf(),
                    reg.dview() == reg_items(r0, i, iv.take(k as int), lv, fw),
            {
                assert(iv.take(k + 1).drop_last() =~= iv.take(k as int));
                assert(iv.take(k + 1).last() == iv[k as int]);
                let g = &c[k];
                assert(g.deep_view() == iv[k as int]);
                if g.p == g.len {
                    reg_for_item(&mut reg, i, g, &lr.lang.lg, &lr.lang.first_word);
                }
            }
            assert(iv.take(m as int) =~= iv);
        }
        assert(cs.take(nsets as int) =~= cs);
        let at = AnalyzeTable { action, goto, reg, lr, history: History::new() };
        Some(at)
    }
}

} // verus!

verus! {

/// The three patterns that read reduction entries all compile.
pub open spec fn patterns_compile() -> bool {
    regex_compiles(reduce_pattern()) && regex_compiles(number_pattern()) && regex_compiles(head_pattern())
}

/// The pattern of a reduction entry: a head, `-`, a digit.
pub open spec fn reduce_pattern() -> Seq<char> {
    "('|\\w)+-(\\d)"@
}

/// The pattern that finds the production number in a reduction entry.
pub open spec fn number_pattern() -> Seq<char> {
    "([0-9])+"@
}

/// The pattern that finds the head in a reduction entry.
pub open spec fn head_pattern() -> Seq<char> {
    "('|[A-Z])+"@
}

/// The words of a sentence for LR(1) analysis: cut as for LL(1) analysis
/// (see `segment_state`), with the characters left at the end as one more
/// word, then `"#"`.
pub open spec fn lr_sentence(cs: Seq<char>, dict: Seq<Seq<char>>) -> Seq<Seq<char>> {
    let (w, t) = segment_state(cs, dict);
    (if t.len() > 0 {
        w.push(t)
    } else {
        w
    }).push("#"@)
}

/// The state the analysis starts in: the last set holding the item
/// `'S -> ·S` found last in the list (or the number of sets when none does).
pub open spec fn start_state(
    ix: Seq<(Seq<char>, usize)>,
    gl: Seq<(Seq<char>, usize, Item)>,
    cs: Seq<Seq<Item>>,
    fw: Seq<char>,
) -> int {
    last_holding(cs, gl[last_index_of(ix, (fw, 0))].2, cs.len() as int)
}

/// The stack with its top `k` entries taken off (all of them when it has
/// fewer).
pub open spec fn pop_n<A>(s: Seq<A>, k: nat) -> Seq<A> {
    if k <= s.len() {
        s.take(s.len() - k)
    } else {
        Seq::<A>::empty()
    }
}

/// The table entry for state `st` and word `w`: the shift target in decimal,
/// else the reduction, else `"e"`.
pub open spec fn status_text(
    act: Seq<((usize, Seq<char>), usize)>,
    reg: Seq<((usize, Seq<char>), Seq<char>)>,
    st: usize,
    w: Seq<char>,
) -> Seq<char> {
    match lookup(act, (st, w)) {
        Some(v) => decimal(v as nat),
        None => match lookup(reg, (st, w)) {
            Some(v) => v,
            None => "e"@,
        },
    }
}

/// What one step of LR(1) analysis does.
pub enum LrStep {
    /// The sentence is accepted.
    Accept,
    /// The table has no entry for the word.
    Reject(Seq<char>),
    /// The analysis cannot go on: the input ran out, a word is unknown, a
    /// stack is empty, or an entry names no production or state.
    Stuck,
    /// The new symbol stack, state stack and input position.
    Next(Seq<Seq<char>>, Seq<usize>, nat),
}

/// A reduction step given what the patterns find in the entry: the
/// production is the one numbered `number` among those of the head `head`;
/// its symbols are taken off both stacks, then the head and the goto target
/// of the state below are pushed.
pub open spec fn reduce_by(
    gt: Seq<((usize, Seq<char>), usize)>,
    lg: Seq<(Seq<char>, Seq<Seq<Seq<char>>>)>,
    ws: Seq<Seq<char>>,
    ss: Seq<usize>,
    i: nat,
    number: Option<Seq<char>>,
    head: Option<Seq<char>>,
) -> LrStep {
    match (number, head) {
        (Some(nt), Some(genp)) => match (parse_usize_spec(nt), lookup(lg, genp)) {
            (Some(num), Some(prods)) => if num < prods.len() {
                let k = prods[num as int].len();
                let ss2 = pop_n(ss, k);
                let ws2 = pop_n(ws, k);
                if ss2.len() == 0 {
                    LrStep::Stuck
                } else {
                    match lookup(gt, (ss2.last(), genp)) {
                        Some(nx) => LrStep::Next(ws2.push(genp), ss2.push(nx), i),
                        None => LrStep::Stuck,
                    }
                }
            } else {
                LrStep::Stuck
            },
            _ => LrStep::Stuck,
        },
        _ => LrStep::Stuck,
    }
}

/// One step of LR(1) analysis given what the patterns say of the entry for
/// the top state and the word (see `step_entry`): whether the reduction
/// pattern matches it, and the number and head that the number and head
/// patterns find in it. The entry decides acceptance, an error, a reduction
/// (see `reduce_by`) or a shift (an entry that is a number).
pub open spec fn step_by(
    act: Seq<((usize, Seq<char>), usize)>,
    reg: Seq<((usize, Seq<char>), Seq<char>)>,
    gt: Seq<((usize, Seq<char>), usize)>,
    dict: Seq<Seq<char>>,
    lg: Seq<(Seq<char>, Seq<Seq<Seq<char>>>)>,
    sen: Seq<Seq<char>>,
    ws: Seq<Seq<char>>,
    ss: Seq<usize>,
    i: nat,
    is_reduce: bool,
    number: Option<Seq<char>>,
    head: Option<Seq<char>>,
) -> LrStep {
    if i >= sen.len() {
        LrStep::Stuck
    } else {
        let word = sen[i as int];
        if !(dict.contains(word) || word == "#"@) || ss.len() == 0 {
            LrStep::Stuck
        } else {
            let ns = status_text(act, reg, ss.last(), word);
            if ns == "acc"@ {
                LrStep::Accept
            } else if ns == "e"@ {
                LrStep::Reject(word)
            } else if is_reduce {
                reduce_by(gt, lg, ws, ss, i, number, head)
            } else {
                match parse_usize_spec(ns) {
                    Some(v) => LrStep::Next(ws.push(word), ss.push(v), i + 1),
                    None => LrStep::Stuck,
                }
            }
        }
    }
}

/// The entry a step reads: the one for the top state and the word at `i`.
pub open spec fn step_entry(
    act: Seq<((usize, Seq<char>), usize)>,
    reg: Seq<((usize, Seq<char>), Seq<char>)>,
    sen: Seq<Seq<char>>,
    ss: Seq<usize>,
    i: nat,
) -> Seq<char> {
    status_text(act, reg, ss.last(), sen[i as int])
}

/// One step of LR(1) analysis at input position `i` with symbol stack `ws`
/// and state stack `ss`: the entry for the top state and the word decides
/// acceptance, an error, a reduction (an entry the reduction pattern
/// matches) or a shift (an entry that is a number); see `step_by`.
pub open spec fn lr_step(
    act: Seq<((usize, Seq<char>), usize)>,
    reg: Seq<((usize, Seq<char>), Seq<char>)>,
    gt: Seq<((usize, Seq<char>), usize)>,
    dict: Seq<Seq<char>>,
    lg: Seq<(Seq<char>, Seq<Seq<Seq<char>>>)>,
    sen: Seq<Seq<char>>,
    ws: Seq<Seq<char>>,
    ss: Seq<usize>,
    i: nat,
) -> LrStep {
    let ns = step_entry(act, reg, sen, ss, i);
    step_by(
        act,
        reg,
        gt,
        dict,
        lg,
        sen,
        ws,
        ss,
        i,
        regex_matches(reduce_pattern(), ns),
        regex_group(number_pattern(), ns, 1),
        regex_group(head_pattern(), ns, 1),
    )
}

/// LR(1) analysis with at most `fuel` more steps: how it ends (`Next` never)
/// and the stacks and input left after each step. A run that has used up its
/// steps is stuck.
pub open spec fn lr_run(
    act: Seq<((usize, Seq<char>), usize)>,
    reg: Seq<((usize, Seq<char>), Seq<char>)>,
    gt: Seq<((usize, Seq<char>), usize)>,
    dict: Seq<Seq<char>>,
    lg: Seq<(Seq<char>, Seq<Seq<Seq<char>>>)>,
    sen: Seq<Seq<char>>,
    ws: Seq<Seq<char>>,
    ss: Seq<usize>,
    i: nat,
    fuel: nat,
) -> (LrStep, Seq<(Seq<Seq<char>>, Seq<usize>, Seq<Seq<char>>)>)
    decreases fuel,
{
    match lr_step(act, reg, gt, dict, lg, sen, ws, ss, i) {
        LrStep::Next(ws2, ss2, i2) => if fuel == 0 {
            (LrStep::Stuck, Seq::empty())
        } else {
            let r = lr_run(act, reg, gt, dict, lg, sen, ws2, ss2, i2, (fuel - 1) as nat);
            (r.0, seq![(ws2, ss2, sen.subrange(i2 as int, sen.len() as int))] + r.1)
        },
        other => (other, Seq::empty()),
    }
}

/// The stack lines that the log records for analysis steps.
pub open spec fn lr_log_steps(log: Seq<(Seq<Seq<char>>, Seq<usize>, Seq<Seq<char>>)>) -> Seq<Seq<char>> {
    Seq::new(log.len(), |k: int| spaced(log[k].0) + "\t"@ + spaced_nums(log[k].1))
}

/// The input lines that the log records for analysis steps.
pub open spec fn lr_log_inputs(log: Seq<(Seq<Seq<char>>, Seq<usize>, Seq<Seq<char>>)>) -> Seq<Seq<char>> {
    Seq::new(log.len(), |k: int| spaced(log[k].2))
}

/// Cuts a sentence into words for LR(1) analysis (see `lr_sentence`).
pub fn lr_words(sentence: &String, dict: &Vec<String>) -> (r: Vec<String>)
    ensures
        r.deep_view() == lr_sentence(sentence@, dict.deep_view()),
{
    let cs = crate::text::chars_of(sentence.as_str());
    let mut words: Vec<String> = Vec::new();
    let mut temp = String::new();
    let n = cs.len();
    for i in 0..n
        invariant
            n == cs@.len(),
            (words.deep_view(), temp@) == segment_state(cs@.take(i as int), dict.deep_view()),
    {
        assert(cs@.take(i + 1).drop_last() =~= cs@.take(i as int));
        crate::text::push_char(&mut temp, cs[i]);
        if contains_string(dict, &temp) {
            let ghost old_w = words.deep_view();
            words.push(temp.clone());
            temp = String::new();
            assert(words.deep_view() =~= old_w.push(words@[words@.len() - 1]@));
        }
    }
    assert(cs@.take(n as int) =~= cs@);
    if !temp.as_str().is_empty() {
        let ghost old_w = words.deep_view();
        words.push(temp);
        assert(words.deep_view() =~= old_w.push(words@[words@.len() - 1]@));
    }
    let ghost w1 = words.deep_view();
    words.push(owned("#"));
    assert(words.deep_view() =~= w1.push("#"@));
    words
}

/// The words of `v` from position `i` on.
fn words_from(v: &Vec<String>, i: usize) -> (r: Vec<String>)
    requires
        i <= v@.len(),
    ensures
        r.deep_view() == v.deep_view().subrange(i as int, v@.len() as int),
{
    let mut r: Vec<String> = Vec::new();
    let n = v.len();
    let mut j = i;
    while j < n
        invariant
            i <= j <= n,
            n == v@.len(),
            r.deep_view() == v.deep_view().subrange(i as int, j as int),
        decreases n - j,
    {
        let ghost r0 = r.deep_view();
        r.push(v[j].clone());
        assert(r.deep_view() =~= r0.push(v@[j as int]@));
        assert(v.deep_view().subrange(i as int, j + 1) =~= v.deep_view().subrange(i as int, j as int).push(v@[j as int]@));
        j = j + 1;
    }
    r
}

/// A copy of a list of states.
fn copy_states(v: &Vec<usize>) -> (r: Vec<usize>)
    ensures
        r@ == v@,
{
    let mut r: Vec<usize> = Vec::new();
    let n = v.len();
    for j in 0..n
        invariant
            n == v@.len(),
            r@ == v@.take(j as int),
    {
        r.push(v[j]);
        assert(r@ =~= v@.take(j + 1));
    }
    assert(v@.take(n as int) =~= v@);
    r
}

} // verus!

verus! {

/// How the analysis of a sentence with the tables ends, and the stacks and
/// input left that it logs: before the first step, and after each step (see
/// `lr_run`), from the start state with `"#"` on the symbol stack.
pub open spec fn lr_analysis(at: AnalyzeTable, sentence: Seq<char>) -> (LrStep, Seq<(Seq<Seq<char>>, Seq<usize>, Seq<Seq<char>>)>) {
    let lr = at.analyser();
    let l = lr.language();
    let sen = lr_sentence(sentence, l.words.deep_view());
    let st = start_state(lr.item_index(), lr.items(), lr.closures(), l.first_word@) as usize;
    let run = lr_run(
        at.actions(),
        at.reductions(),
        at.gotos(),
        l.words.deep_view(),
        l.lg.dview(),
        sen,
        seq!["#"@],
        seq![st],
        0,
        usize::MAX as nat,
    );
    (run.0, seq![(seq!["#"@], seq![st], sen)] + run.1)
}

/// The answer of an analysis that ends with `end`, given the log `h` then:
/// `"Succeed"`, or the log and the word that has no entry.
pub open spec fn lr_message(end: LrStep, h: History) -> Seq<char> {
    match end {
        LrStep::Accept => "Succeed"@,
        LrStep::Reject(w) => "history is:\n"@ + "\tword_stack\tstatus_stack\tinput\n"@ + lr_lines(
            h.steps(),
            h.inputs(),
            h.steps().len(),
        ) + "Error When Processing "@ + w,
        _ => Seq::empty(),
    }
}

/// One step of `lr_run`: a step that ends the analysis ends the run; a step
/// on goes on with one step less, logging where it got to.
proof fn lemma_run_step(
    act: Seq<((usize, Seq<char>), usize)>,
    reg: Seq<((usize, Seq<char>), Seq<char>)>,
    gt: Seq<((usize, Seq<char>), usize)>,
    dict: Seq<Seq<char>>,
    lg: Seq<(Seq<char>, Seq<Seq<Seq<char>>>)>,
    sen: Seq<Seq<char>>,
    ws: Seq<Seq<char>>,
    ss: Seq<usize>,
    i: nat,
    fuel: nat,
)
    ensures
        ({
            let step = lr_step(act, reg, gt, dict, lg, sen, ws, ss, i);
            let run = lr_run(act, reg, gt, dict, lg, sen, ws, ss, i, fuel);
            match step {
                LrStep::Next(w2, s2, i2) => if fuel == 0 {
                    run == (LrStep::Stuck, Seq::<(Seq<Seq<char>>, Seq<usize>, Seq<Seq<char>>)>::empty())
                } else {
                    let r = lr_run(act, reg, gt, dict, lg, sen, w2, s2, i2, (fuel - 1) as nat);
                    run == (r.0, seq![(w2, s2, sen.subrange(i2 as int, sen.len() as int))] + r.1)
                },
                _ => run == (step, Seq::<(Seq<Seq<char>>, Seq<usize>, Seq<Seq<char>>)>::empty()),
            }
        }),
{
}

/// The log lines of two runs of steps are those of each in turn.
proof fn lemma_log_concat(
    a: Seq<(Seq<Seq<char>>, Seq<usize>, Seq<Seq<char>>)>,
    b: Seq<(Seq<Seq<char>>, Seq<usize>, Seq<Seq<char>>)>,
)
    ensures
        lr_log_steps(a + b) == lr_log_steps(a) + lr_log_steps(b),
        lr_log_inputs(a + b) == lr_log_inputs(a) + lr_log_inputs(b),
{
    assert(lr_log_steps(a + b) =~= lr_log_steps(a) + lr_log_steps(b));
    assert(lr_log_inputs(a + b) =~= lr_log_inputs(a) + lr_log_inputs(b));
}

/// What one step of analysis does, as a value the analyser can act on.
pub enum Outcome {
    /// The sentence is accepted.
    Accept,
    /// The table has no entry for the word.
    Reject,
    /// The analysis cannot go on.
    Stuck,
    /// The new symbol stack, state stack and input position.
    Next(Vec<String>, Vec<usize>, usize),
}

impl AnalyzeTable {
    /// A reduction step given what the patterns found in the entry: the
    /// production number `number` and head `head` (see `reduce_by`).
    pub fn reduce_with(
        &self,
        ws: &Vec<String>,
        ss: &Vec<usize>,
        i: usize,
        number: Option<String>,
        head: Option<String>,
    ) -> (m: Outcome)
        requires
            self.wf(),
        ensures
            match m {
                Outcome::Next(w2, s2, i2) => reduce_by(
                    self.gotos(),
                    self.analyser().language().lg.dview(),
                    ws.deep_view(),
                    ss@,
                    i as nat,
                    number.deep_view(),
                    head.deep_view(),
                ) == LrStep::Next(w2.deep_view(), s2@, i2 as nat) && i2 == i,
                Outcome::Stuck => reduce_by(
                    self.gotos(),
                    self.analyser().language().lg.dview(),
                    ws.deep_view(),
                    ss@,
                    i as nat,
                    number.deep_view(),
                    head.deep_view(),
                ) is Stuck,
                _ => false,
            },
    {
        let ghost gt = self.goto.dview();
        let ghost lg = self.lr.lang.lg.dview();
        let ghost wv = ws.deep_view();
        let ghost sq = ss@;
        let (ntext, genp) = match (number, head) {
            (Some(a), Some(b)) => (a, b),
            _ => {
                return Outcome::Stuck;
            },
        };
        let num = match parse_usize(&ntext) {
            Some(v) => v,
            None => {
                return Outcome::Stuck;
            },
        };
        let prods = match self.lr.lang.lg.get(&genp) {
            Some(p) => p,
            None => {
                return Outcome::Stuck;
            },
        };
        if num >= prods.len() {
            return Outcome::Stuck;
        }
        let k = prods[num].len();
        assert(prods.deep_view()[num as int].len() == k);
        let mut ss2 = copy_states(ss);
        let mut ws2 = clone_strings(ws);
        for j in 0..k
            invariant
                ss2@ == pop_n(sq, j as nat),
                ws2.deep_view() == pop_n(wv, j as nat),
        {
            let ghost s1 = ss2@;
            let ghost w1 = ws2.deep_view();
            ss2.pop();
            ws2.pop();
            proof {
                if s1.len() > 0 {
                    assert(ss2@ =~= s1.drop_last());
                }
                if w1.len() > 0 {
                    assert(ws2.deep_view() =~= w1.drop_last());
                }
                assert(pop_n(sq, (j + 1) as nat) =~= if s1.len() > 0 { s1.drop_last() } else { s1 });
                assert(pop_n(wv, (j + 1) as nat) =~= if w1.len() > 0 { w1.drop_last() } else { w1 });
            }
        }
        if ss2.len() == 0 {
            return Outcome::Stuck;
        }
        let curr2 = ss2[ss2.len() - 1];
        let key2 = (curr2, genp.clone());
        assert(key2.deep_view() == (curr2, genp@));
        let nx = match self.goto.get(&key2) {
            Some(v) => *v,
            None => {
                return Outcome::Stuck;
            },
        };
        ss2.push(nx);
        let ghost w2 = ws2.deep_view();
        ws2.push(genp);
        assert(ws2.deep_view() =~= w2.push(ws2@[ws2@.len() - 1]@));
        Outcome::Next(ws2, ss2, i)
    }

    /// The entry for state `st` and word `word`: the shift target in
    /// decimal, else the reduction, else `"e"` (see `status_text`).
    fn entry_text(&self, st: usize, word: &String) -> (ns: String)
        requires
            self.wf(),
        ensures
            ns@ == status_text(self.action.dview(), self.reg.dview(), st, word@),
    {
        let key = (st, word.clone());
        assert(key.deep_view() == (st, word@));
        match self.action.get(&key) {
            Some(v) => decimal_string(*v),
            None => match self.reg.get(&key) {
                Some(v) => v.clone(),
                None => owned("e"),
            },
        }
    }

    /// One step of analysis given what the patterns say of the entry for
    /// the top state and the word (see `step_by`): whether the reduction
    /// pattern matches it, and the number and head found in it.
    pub fn step_with(
        &self,
        sen: &Vec<String>,
        ws: &Vec<String>,
        ss: &Vec<usize>,
        i: usize,
        is_reduce: bool,
        number: Option<String>,
        head: Option<String>,
    ) -> (m: Outcome)
        requires
            self.wf(),
            i <= sen@.len(),
        ensures
            ({
                let step = step_by(
                    self.actions(),
                    self.reductions(),
                    self.gotos(),
                    self.analyser().language().words.deep_view(),
                    self.analyser().language().lg.dview(),
                    sen.deep_view(),
                    ws.deep_view(),
                    ss@,
                    i as nat,
                    is_reduce,
                    number.deep_view(),
                    head.deep_view(),
                );
                match m {
                    Outcome::Accept => step is Accept,
                    Outcome::Reject => i < sen@.len() && step == LrStep::Reject(sen.deep_view()[i as int]),
                    Outcome::Stuck => step is Stuck,
                    Outcome::Next(w2, s2, i2) => step == LrStep::Next(w2.deep_view(), s2@, i2 as nat) && i2 <= sen@.len(),
                }
            }),
    {
        let ghost sv = sen.deep_view();
        if i >= sen.len() {
            return Outcome::Stuck;
        }
        let word = sen[i].clone();
        assert(word@ == sv[i as int]);
        let hash = owned("#");
        if !(contains_string(&self.lr.lang.words, &word) || word == hash) || ss.len() == 0 {
            return Outcome::Stuck;
        }
        let curr = ss[ss.len() - 1];
        let ns = self.entry_text(curr, &word);
        let acc = owned("acc");
        let err = owned("e");
        if ns == acc {
            return Outcome::Accept;
        }
        if ns == err {
            return Outcome::Reject;
        }
        if is_reduce {
            self.reduce_with(ws, ss, i, number, head)
        } else {
            match parse_usize(&ns) {
                Some(v) => {
                    let mut ss2 = copy_states(ss);
                    ss2.push(v);
                    let mut ws2 = clone_strings(ws);
                    let ghost w1 = ws2.deep_view();
                    ws2.push(word);
                    assert(ws2.deep_view() =~= w1.push(word@));
                    assert(ss2@ =~= ss@.push(v));
                    Outcome::Next(ws2, ss2, i + 1)
                },
                None => Outcome::Stuck,
            }
        }
    }

    /// One step of analysis (see `lr_step`): reads the entry for the top
    /// state and the word with the three patterns, then steps (see
    /// `step_with`).
    fn next_move(
        &self,
        sen: &Vec<String>,
        ws: &Vec<String>,
        ss: &Vec<usize>,
        i: usize,
        shape: &Pattern,
        digits: &Pattern,
        heads: &Pattern,
    ) -> (m: Outcome)
        requires
            self.wf(),
            i <= sen@.len(),
            shape.source() == reduce_pattern(),
            digits.source() == number_pattern(),
            heads.source() == head_pattern(),
        ensures
            ({
                let step = lr_step(
                    self.action.dview(),
                    self.reg.dview(),
                    self.goto.dview(),
                    self.lr.lang.words.deep_view(),
                    self.lr.lang.lg.dview(),
                    sen.deep_view(),
                    ws.deep_view(),
                    ss@,
                    i as nat,
                );
                match m {
                    Outcome::Accept => step is Accept,
                    Outcome::Reject => i < sen@.len() && step == LrStep::Reject(sen.deep_view()[i as int]),
                    Outcome::Stuck => step is Stuck,
                    Outcome::Next(w2, s2, i2) => step == LrStep::Next(w2.deep_view(), s2@, i2 as nat) && i2 <= sen@.len(),
                }
            }),
    {
        if i >= sen.len() || ss.len() == 0 {
            return self.step_with(sen, ws, ss, i, false, None, None);
        }
        let ns = self.entry_text(ss[ss.len() - 1], &sen[i]);
        let is_reduce = shape.is_match(ns.as_str());
        let number = digits.group(ns.as_str(), 1);
        let head = heads.group(ns.as_str(), 1);
        proof {
            assert(number.deep_view() == regex_group(number_pattern(), ns@, 1));
            assert(head.deep_view() == regex_group(head_pattern(), ns@, 1));
        }
        self.step_with(sen, ws, ss, i, is_reduce, number, head)
    }

    /// Analyses a sentence with the tables, given the three patterns that read
    /// reduction entries (see `lr_run`): cuts it into words (see
    /// `lr_sentence`), starts from the start state (see `start_state`) with
    /// `"#"` on the symbol stack, and logs the stacks and the input left
    /// before the first step and after each step. Returns `"Succeed"`, or the
    /// log and the word that has no entry; `None` when the analysis gets stuck
    /// (or runs `usize::MAX` steps), or the analyser has no items.
    #[verifier::rlimit(40)]
    #[verifier::spinoff_prover]
    pub fn analyze_with(&mut self, sentence: String, shape: &Pattern, digits: &Pattern, heads: &Pattern) -> (r: Option<String>)
        requires
            old(self).wf(),
            shape.source() == reduce_pattern(),
            digits.source() == number_pattern(),
            heads.source() == head_pattern(),
        ensures
            final(self).wf(),
            final(self).actions() == old(self).actions(),
            final(self).gotos() == old(self).gotos(),
            final(self).reductions() == old(self).reductions(),
            final(self).analyser() == old(self).analyser(),
            old(self).analyser().items().len() == 0 ==> r is None && final(self).history() == old(self).history(),
            old(self).analyser().items().len() > 0 ==> ({
                let (end, log) = lr_analysis(*old(self), sentence@);
                &&& final(self).history().steps() == old(self).history().steps() + lr_log_steps(log)
                &&& final(self).history().inputs() == old(self).history().inputs() + lr_log_inputs(log)
                &&& (r is None <==> end is Stuck)
                &&& r matches Some(m) ==> m@ == lr_message(end, final(self).history())
            }),
    {
        let sen = lr_words(&sentence, &self.lr.lang.words);
        if self.lr.gen_list.len() == 0 {
            return None;
        }
        let ghost act = self.action.dview();
        let ghost reg = self.reg.dview();
        let ghost gt = self.goto.dview();
        let ghost dict = self.lr.lang.words.deep_view();
        let ghost lg = self.lr.lang.lg.dview();
        let ghost sv = sen.deep_view();
        let index = last_index_exec(&self.lr.index, &self.lr.lang.first_word, 0);
        proof {
            assert(self.lr.index.deep_view().len() == self.lr.gen_list.deep_view().len());
        }
        let first_gen = self.lr.gen_list[index].2.duplicate();
        let nsets = self.lr.closeure.len();
        let start = last_holding_exec(&self.lr.closeure, &first_gen, nsets);
        let ghost st = start_state(self.lr.index.deep_view(), self.lr.gen_list.deep_view(), self.lr.closeure.deep_view(), self.lr.lang.first_word@) as usize;
        assert(start == st);
        let mut ss: Vec<usize> = Vec::new();
        ss.push(start);
        let mut ws: Vec<String> = Vec::new();
        ws.push(owned("#"));
        assert(ws.deep_view() =~= seq!["#"@]);
        assert(ss@ =~= seq![st]);
        let ghost ws0 = ws.deep_view();
        let ghost ss0 = ss@;
        let ghost h0 = self.history;
        let ghost first = (ws0, ss0, sv);
        assert(sv.subrange(0, sv.len() as int) =~= sv);
        self.history.log(clone_strings(&ws), copy_states(&ss), words_from(&sen, 0));
        let ghost total = lr_run(act, reg, gt, dict, lg, sv, ws0, ss0, 0, usize::MAX as nat);
        let ghost mut done: Seq<(Seq<Seq<char>>, Seq<usize>, Seq<Seq<char>>)> = Seq::empty();
        proof {
            assert(lr_log_steps(seq![first]) =~= seq![spaced(ws0) + "\t"@ + spaced_nums(ss0)]);
            assert(lr_log_inputs(seq![first]) =~= seq![spaced(sv)]);
            assert(seq![first] + done =~= seq![first]);
        }
        let mut i: usize = 0;
        let mut fuel: usize = usize::MAX;
        loop
            invariant
                act == self.action.dview(),
                reg == self.reg.dview(),
                gt == self.goto.dview(),
                dict == self.lr.lang.words.deep_view(),
                lg == self.lr.lang.lg.dview(),
                sv == sen.deep_view(),
                self.wf(),
                self.action == old(self).action,
                self.goto == old(self).goto,
                self.reg == old(self).reg,
                self.lr == old(self).lr,
                shape.source() == reduce_pattern(),
                digits.source() == number_pattern(),
                heads.source() == head_pattern(),
                h0 == old(self).history,
                old(self).analyser().items().len() > 0,
                sv == lr_sentence(sentence@, old(self).analyser().language().words.deep_view()),
                st == start_state(old(self).analyser().item_index(), old(self).analyser().items(), old(self).analyser().closures(), old(self).analyser().language().first_word@) as usize,
                act == old(self).actions(),
                reg == old(self).reductions(),
                gt == old(self).gotos(),
                dict == old(self).analyser().language().words.deep_view(),
                lg == old(self).analyser().language().lg.dview(),
                i <= sv.len(),
                ws0 == seq!["#"@],
                ss0 == seq![st],
                first == (ws0, ss0, sv),
                total == lr_run(act, reg, gt, dict, lg, sv, ws0, ss0, 0, usize::MAX as nat),
                total.0 == lr_run(act, reg, gt, dict, lg, sv, ws.deep_view(), ss@, i as nat, fuel as nat).0,
                total.1 == done + lr_run(act, reg, gt, dict, lg, sv, ws.deep_view(), ss@, i as nat, fuel as nat).1,
                self.history.steps() == h0.steps() + lr_log_steps(seq![first] + done),
                self.history.inputs() == h0.inputs() + lr_log_inputs(seq![first] + done),
            decreases fuel,
        {
            let m = self.next_move(&sen, &ws, &ss, i, shape, digits, heads);
            proof {
                lemma_run_step(act, reg, gt, dict, lg, sv, ws.deep_view(), ss@, i as nat, fuel as nat);
            }
            match m {
                Outcome::Accept => {
                    assert(total.1 =~= done + Seq::empty());
                    return Some(owned("Succeed"));
                },
                Outcome::Reject => {
                    assert(total.1 =~= done + Seq::empty());
                    let h = self.history.render();
                    assert(sv[i as int] == sen@[i as int]@);
                    let mut msg = owned("history is:\n");
                    msg.append(h.as_str());
                    msg.append("Error When Processing ");
                    msg.append(sen[i].as_str());
                    return Some(msg);
                },
                Outcome::Stuck => {
                    assert(total.1 =~= done + Seq::empty());
                    return None;
                },
                Outcome::Next(w2, s2, i2) => {
                    if fuel == 0 {
                        assert(total.1 =~= done + Seq::empty());
                        return None;
                    }
                    ws = w2;
                    ss = s2;
                    i = i2;
                },
            }
            let ghost entry = (ws.deep_view(), ss@, sv.subrange(i as int, sv.len() as int));
            self.history.log(clone_strings(&ws), copy_states(&ss), words_from(&sen, i));
            proof {
                lemma_log_concat(seq![first] + done, seq![entry]);
                assert(lr_log_steps(seq![entry]) =~= seq![spaced(entry.0) + "\t"@ + spaced_nums(entry.1)]);
                assert(lr_log_inputs(seq![entry]) =~= seq![spaced(entry.2)]);
                assert(seq![first] + done + seq![entry] =~= seq![first] + done.push(entry));
                assert(done.push(entry) + lr_run(act, reg, gt, dict, lg, sv, ws.deep_view(), ss@, i as nat, (fuel - 1) as nat).1
                    =~= done + (seq![entry] + lr_run(act, reg, gt, dict, lg, sv, ws.deep_view(), ss@, i as nat, (fuel - 1) as nat).1));
                done = done.push(entry);
            }
            fuel = fuel - 1;
        }
    }
}

} // verus!

verus! {

impl AnalyzeTable {
    /// Analyses a sentence with the tables (see `analyze_with`), compiling the
    /// three patterns that read reduction entries first; `None` also when one
    /// of them does not compile.
    pub fn analyze(&mut self, sentence: String) -> (r: Option<String>)
        requires
            old(self).wf(),
        ensures
            final(self).wf(),
            final(self).actions() == old(self).actions(),
            final(self).gotos() == old(self).gotos(),
            final(self).reductions() == old(self).reductions(),
            final(self).analyser() == old(self).analyser(),
            old(self).analyser().items().len() == 0 ==> r is None,
            lr_analysis(*old(self), sentence@).0 is Stuck ==> r is None,
            !patterns_compile() ==> r is None && final(self).history() == old(self).history(),
            patterns_compile() && old(self).analyser().items().len() == 0 ==> final(self).history() == old(self).history(),
            patterns_compile() && old(self).analyser().items().len() > 0 ==> ({
                let (end, log) = lr_analysis(*old(self), sentence@);
                &&& final(self).history().steps() == old(self).history().steps() + lr_log_steps(log)
                &&& final(self).history().inputs() == old(self).history().inputs() + lr_log_inputs(log)
                &&& (r is None <==> end is Stuck)
                &&& r matches Some(m) ==> m@ == lr_message(end, final(self).history())
            }),
            r matches Some(m) ==> ({
                let (end, log) = lr_analysis(*old(self), sentence@);
                &&& old(self).analyser().items().len() > 0
                &&& final(self).history().steps() == old(self).history().steps() + lr_log_steps(log)
                &&& final(self).history().inputs() == old(self).history().inputs() + lr_log_inputs(log)
                &&& m@ == lr_message(end, final(self).history())
            }),
    {
        let shape = match Pattern::compile("('|\\w)+-(\\d)") {
            Ok(p) => p,
            Err(_) => {
                return None;
            },
        };
        let digits = match Pattern::compile("([0-9])+") {
            Ok(p) => p,
            Err(_) => {
                return None;
            },
        };
        let heads = match Pattern::compile("('|[A-Z])+") {
            Ok(p) => p,
            Err(_) => {
                return None;
            },
        };
        self.analyze_with(sentence, &shape, &digits, &heads)
    }

    /// The log of the analyses so far, as a table.
    pub fn get_history(&self) -> (s: String)
        requires
            self.wf(),
        ensures
            s@ == "\tword_stack\tstatus_stack\tinput\n"@ + lr_lines(
                self.history().steps(),
                self.history().inputs(),
                self.history().steps().len(),
            ),
    {
        self.history.render()
    }
}

} // verus!

verus! {

/// The body of an item up to position `k`, with `·` before the symbol at the
/// dot.
pub open spec fn marked_body(body: Seq<Seq<char>>, p: int, k: nat) -> Seq<char>
    decreases k,
{
    if k == 0 {
        Seq::<char>::empty()
    } else {
        marked_body(body, p, (k - 1) as nat) + if k - 1 == p {
            "·"@ + body[k - 1]
        } else {
            body[k - 1]
        }
    }
}

/// How an item is written: `A ->` and the body with `·` at the dot (at the
/// end when the dot is there), then ` , ` and the lookahead.
pub open spec fn gen_text(g: Item) -> Seq<char> {
    g.0.0 + " ->"@ + marked_body(g.0.1, g.2 as int, g.3 as nat) + (if g.2 == g.3 {
        "·"@
    } else {
        Seq::<char>::empty()
    }) + " , "@ + g.1
}

/// The items of a set, one per line.
pub open spec fn gen_lines(c: Seq<Item>) -> Seq<char>
    decreases c.len(),
{
    if c.len() == 0 {
        Seq::<char>::empty()
    } else {
        gen_lines(c.drop_last()) + gen_text(c.last()) + "\n"@
    }
}

/// The item sets, each headed `closeure` and its number.
pub open spec fn sets_text(cs: Seq<Seq<Item>>) -> Seq<char>
    decreases cs.len(),
{
    if cs.len() == 0 {
        Seq::<char>::empty()
    } else {
        sets_text(cs.drop_last()) + "closeure"@ + decimal((cs.len() - 1) as nat) + ":\n"@ + gen_lines(cs.last()) + "\n"@
    }
}

impl Gen {
    /// The item as text (see `gen_text`).
    pub fn render(&self) -> (s: String)
        requires
            self.len <= self.gen.1@.len(),
        ensures
            s@ == gen_text(self.deep_view()),
    {
        let ghost body = self.gen.1.deep_view();
        let mut s = self.gen.0.clone();
        s.append(" ->");
        let ghost s0 = s@;
        let n = self.len;
        for i in 0..n
            invariant
                n == self.len,
                n <= self.gen.1@.len(),
                body == self.gen.1.deep_view(),
                s@ == s0 + marked_body(body, self.p as int, i as nat),
        {
            if i == self.p {
                s.append("·");
            }
            s.append(self.gen.1[i].as_str());
            assert(s@ =~= s0 + marked_body(body, self.p as int, (i + 1) as nat));
        }
        if self.p == n {
            s.append("·");
        }
        s.append(" , ");
        s.append(self.ahead.as_str());
        s
    }
}

impl LR {
    /// The analyser as text: its LL(1) analyser, a newline, then its item
    /// sets (see `sets_text`).
    pub fn render(&self) -> (s: String)
        requires
            self.wf(),
            self.sets_ok(),
        ensures
            s@ == crate::ff::ff_text(self.analyser()) + "\n"@ + sets_text(self.closures()),
    {
        let ghost cs = self.closeure.deep_view();
        let mut s = self.ll.render();
        s.append("\n");
        let ghost s0 = s@;
        let nc = self.closeure.len();
        for i in 0..nc
            invariant
                nc == cs.len(),
                cs == self.closeure.deep_view(),
                self.wf(),
                self.sets_ok(),
                s@ == s0 + sets_text(cs.take(i as int)),
        {
            assert(cs.take(i + 1).drop_last() =~= cs.take(i as int));
            assert(cs.take(i + 1).last() == cs[i as int]);
            s.append("closeure");
            let d = decimal_string(i);
            s.append(d.as_str());
            s.append(":\n");
            let c = &self.closeure[i];
            let ghost cv = cs[i as int];
            let ghost s1 = s@;
            let m = c.len();
            for k in 0..m
                invariant
                    m == cv.len(),
                    cv == c.deep_view(),
                    0 <= i < cs.len(),
                    cv == cs[i as int],
                    cs == self.closeure.deep_view(),
                    self.sets_ok(),
                    s@ == s1 + gen_lines(cv.take(k as int)),
            {
                assert(cv.take(k + 1).drop_last() =~= cv.take(k as int));
                assert(cv.take(k + 1).last() == cv[k as int]);
                assert(cs[i as int].contains(cv[k as int]));
                let t = c[k].render();
                s.append(t.as_str());
                s.append("\n");
            }
            assert(cv.take(m as int) =~= cv);
            s.append("\n");
            assert(s@ =~= s0 + sets_text(cs.take(i + 1)));
        }
        assert(cs.take(nc as int) =~= cs);
        s
    }
}

/// The transitions, one per line: `c<set> --<symbol>-> c<target>`.
pub open spec fn moves_text(tbl: Seq<((usize, Seq<char>), usize)>) -> Seq<char>
    decreases tbl.len(),
{
    if tbl.len() == 0 {
        Seq::<char>::empty()
    } else {
        let e = tbl.last();
        moves_text(tbl.drop_last()) + "c"@ + decimal(e.0.0 as nat) + " --"@ + e.0.1 + "-> c"@ + decimal(e.1 as nat) + "\n"@
    }
}

impl GO {
    /// The transitions as text (see `moves_text`).
    pub fn render(&self) -> (s: String)
        ensures
            s@ == moves_text(self.table()),
    {
        let ghost tv = self.go.dview();
        let mut s = String::new();
        let n = self.go.entries.len();
        for q in 0..n
            invariant
                n == tv.len(),
                tv == self.go.dview(),
                s@ == moves_text(tv.take(q as int)),
        {
            assert(tv.take(q + 1).drop_last() =~= tv.take(q as int));
            let e = &self.go.entries[q];
            assert(tv[q as int] == ((e.0.0, e.0.1@), e.1));
            s.append("c");
            let a = decimal_string(e.0.0);
            s.append(a.as_str());
            s.append(" --");
            s.append(e.0.1.as_str());
            s.append("-> c");
            let b = decimal_string(e.1);
            s.append(b.as_str());
            s.append("\n");
        }
        assert(tv.take(n as int) =~= tv);
        s
    }
}

} // verus!

verus! {

/// A state's cell for a terminal: `s` and the shift target, else `r:` and
/// the reduction, else `e`; then a tab.
pub open spec fn shift_cell(
    act: Seq<((usize, Seq<char>), usize)>,
    reg: Seq<((usize, Seq<char>), Seq<char>)>,
    i: usize,
    w: Seq<char>,
) -> Seq<char> {
    match lookup(act, (i, w)) {
        Some(v) => "s"@ + decimal(v as nat) + "\t"@,
        None => match lookup(reg, (i, w)) {
            Some(v) => "r:"@ + v + "\t"@,
            None => "e\t"@,
        },
    }
}

/// A state's cell for a nonterminal: the goto target, else `e`; then a tab.
pub open spec fn goto_cell(gt: Seq<((usize, Seq<char>), usize)>, i: usize, w: Seq<char>) -> Seq<char> {
    match lookup(gt, (i, w)) {
        Some(v) => decimal(v as nat) + "\t"@,
        None => "e\t"@,
    }
}

/// State `i`'s cells for the terminals `ws`.
pub open spec fn shift_cells(
    act: Seq<((usize, Seq<char>), usize)>,
    reg: Seq<((usize, Seq<char>), Seq<char>)>,
    i: usize,
    ws: Seq<Seq<char>>,
) -> Seq<char>
    decreases ws.len(),
{
    if ws.len() == 0 {
        Seq::<char>::empty()
    } else {
        shift_cells(act, reg, i, ws.drop_last()) + shift_cell(act, reg, i, ws.last())
    }
}

/// State `i`'s cells for the nonterminals `ws`.
pub open spec fn goto_cells(gt: Seq<((usize, Seq<char>), usize)>, i: usize, ws: Seq<Seq<char>>) -> Seq<char>
    decreases ws.len(),
{
    if ws.len() == 0 {
        Seq::<char>::empty()
    } else {
        goto_cells(gt, i, ws.drop_last()) + goto_cell(gt, i, ws.last())
    }
}

/// The rows of the first `k` states: the state's number, a tab, its cells for
/// the terminals and `"#"`, its cells for the nonterminals, a newline.
pub open spec fn state_rows(
    act: Seq<((usize, Seq<char>), usize)>,
    reg: Seq<((usize, Seq<char>), Seq<char>)>,
    gt: Seq<((usize, Seq<char>), usize)>,
    t: Seq<Seq<char>>,
    n: Seq<Seq<char>>,
    k: nat,
) -> Seq<char>
    decreases k,
{
    if k == 0 {
        Seq::<char>::empty()
    } else {
        let i = (k - 1) as usize;
        state_rows(act, reg, gt, t, n, (k - 1) as nat) + decimal(i as nat) + "\t"@ + shift_cells(act, reg, i, t.push("#"@))
            + goto_cells(gt, i, n) + "\n"@
    }
}

impl AnalyzeTable {
    /// The tables as text: the analyser, then a header of the terminals,
    /// `"#"` and the nonterminals, then a row per state (see `state_rows`).
    pub fn render(&self) -> (s: String)
        requires
            self.wf(),
            self.analyser().sets_ok(),
        ensures
            ({
                let l = self.analyser().language();
                s@ == crate::ff::ff_text(self.analyser().analyser()) + "\n"@ + sets_text(self.analyser().closures())
                    + "\n \t"@ + crate::ff::tabbed(l.twords.deep_view()) + "#\t"@ + crate::ff::tabbed(l.ntwords.deep_view())
                    + "\n"@ + state_rows(
                    self.actions(),
                    self.reductions(),
                    self.gotos(),
                    l.twords.deep_view(),
                    l.ntwords.deep_view(),
                    self.analyser().closures().len(),
                )
            }),
    {
        let ghost act = self.action.dview();
        let ghost reg = self.reg.dview();
        let ghost gt = self.goto.dview();
        let ghost t = self.lr.lang.twords.deep_view();
        let ghost n = self.lr.lang.ntwords.deep_view();
        let mut s = self.lr.render();
        s.append("\n \t");
        let ghost s0 = s@;
        let nt = self.lr.lang.twords.len();
        for q in 0..nt
            invariant
                nt == t.len(),
                t == self.lr.lang.twords.deep_view(),
                s@ == s0 + crate::ff::tabbed(t.take(q as int)),
        {
            assert(t.take(q + 1).drop_last() =~= t.take(q as int));
            s.append(self.lr.lang.twords[q].as_str());
            s.append("\t");
        }
        assert(t.take(nt as int) =~= t);
        s.append("#\t");
        let ghost s1 = s@;
        let nn = self.lr.lang.ntwords.len();
        for q in 0..nn
            invariant
                nn == n.len(),
                n == self.lr.lang.ntwords.deep_view(),
                s@ == s1 + crate::ff::tabbed(n.take(q as int)),
        {
            assert(n.take(q + 1).drop_last() =~= n.take(q as int));
            s.append(self.lr.lang.ntwords[q].as_str());
            s.append("\t");
        }
        assert(n.take(nn as int) =~= n);
        s.append("\n");
        let mut cols = clone_strings(&self.lr.lang.twords);
        let ghost c0 = cols.deep_view();
        cols.push(owned("#"));
        assert(cols.deep_view() =~= c0.push("#"@));
        let ghost tc = cols.deep_view();
        let ghost s2 = s@;
        let nsets = self.lr.closeure.len();
        for i in 0..nsets
            invariant
                nsets == self.lr.closeure.deep_view().len(),
                tc == cols.deep_view(),
                tc == t.push("#"@),
                t == self.lr.lang.twords.deep_view(),
                n == self.lr.lang.ntwords.deep_view(),
                nn == n.len(),
                act == self.action.dview(),
                reg == self.reg.dview(),
                gt == self.goto.dview(),
                self.wf(),
                s@ == s2 + state_rows(act, reg, gt, t, n, i as nat),
        {
            let d = decimal_string(i);
            s.append(d.as_str());
            s.append("\t");
            let ghost s3 = s@;
            let nc = cols.len();
            for q in 0..nc
                invariant
                    nc == tc.len(),
                    tc == cols.deep_view(),
                    act == self.action.dview(),
                    reg == self.reg.dview(),
                    self.wf(),
                    s@ == s3 + shift_cells(act, reg, i, tc.take(q as int)),
            {
                assert(tc.take(q + 1).drop_last() =~= tc.take(q as int));
                assert(tc.take(q + 1).last() == tc[q as int]);
                let key = (i, cols[q].clone());
                assert(key.deep_view() == (i, tc[q as int]));
                match self.action.get(&key) {
                    Some(v) => {
                        s.append("s");
                        let x = decimal_string(*v);
                        s.append(x.as_str());
                        s.append("\t");
                    },
                    None => match self.reg.get(&key) {
                        Some(v) => {
                            s.append("r:");
                            s.append(v.as_str());
                            s.append("\t");
                        },
                        None => {
                            s.append("e\t");
                        },
                    },
                }
            }
            assert(tc.take(nc as int) =~= tc);
            let ghost s4 = s@;
            for q in 0..nn
                invariant
                    nn == n.len(),
                    n == self.lr.lang.ntwords.deep_view(),
                    gt == self.goto.dview(),
                    self.wf(),
                    s@ == s4 + goto_cells(gt, i, n.take(q as int)),
            {
                assert(n.take(q + 1).drop_last() =~= n.take(q as int));
                assert(n.take(q + 1).last() == n[q as int]);
                let key = (i, self.lr.lang.ntwords[q].clone());
                assert(key.deep_view() == (i, n[q as int]));
                match self.goto.get(&key) {
                    Some(v) => {
                        let x = decimal_string(*v);
                        s.append(x.as_str());
                        s.append("\t");
                    },
                    None => {
                        s.append("e\t");
                    },
                }
            }
            assert(n.take(nn as int) =~= n);
            s.append("\n");
            assert(s@ =~= s2 + state_rows(act, reg, gt, t, n, (i + 1) as nat));
        }
        s
    }
}

} // verus!

verus! {

/// The words of a sentence for LR(1) analysis end with `"#"`, and the others,
/// one after another, spell the sentence.
pub proof fn lemma_lr_sentence_spells(cs: Seq<char>, dict: Seq<Seq<char>>)
    ensures
        lr_sentence(cs, dict).last() == "#"@,
        crate::history::join_all(lr_sentence(cs, dict).drop_last()) == cs,
{
    crate::ff::lemma_segment_keeps_text(cs, dict);
    let (w, t) = segment_state(cs, dict);
    let s = lr_sentence(cs, dict);
    if t.len() > 0 {
        assert(s.drop_last() =~= w.push(t));
        assert(w.push(t).drop_last() =~= w);
    } else {
        assert(s.drop_last() =~= w);
        assert(t =~= Seq::<char>::empty());
        assert(crate::history::join_all(w) + t =~= crate::history::join_all(w));
    }
}

/// After the dot moves on, the symbol after it is the one that was one past
/// it: `get_current_place` after `move_to_next` gives what `get_next_place`
/// gave before.
pub proof fn lemma_move_reads_next(g: Item)
    requires
        g.2 < g.3,
    ensures
        cur_sym(moved(g)) == sym_at(g.0.1, g.2 + 1),
{
}

/// In a list with distinct keys, the last entry answers for its key and the
/// others for the rest.
proof fn lemma_lookup_last<K, V>(s: Seq<(K, V)>, k: K)
    requires
        keys_of(s).no_duplicates(),
        s.len() > 0,
    ensures
        lookup(s, k) == if k == s.last().0 {
            Some(s.last().1)
        } else {
            lookup(s.drop_last(), k)
        },
{
    let p = s.drop_last();
    assert(keys_of(s) =~= keys_of(p).push(s.last().0));
    lemma_lookup_at(s, s.len() - 1);
    if k != s.last().0 {
        if keys_of(p).contains(k) {
            let i = keys_of(p).index_of(k);
            assert(keys_of(p).no_duplicates()) by {
                assert forall|a: int, b: int| 0 <= a < keys_of(p).len() && 0 <= b < keys_of(p).len() && a != b
                    implies keys_of(p)[a] != keys_of(p)[b] by {
                    assert(keys_of(p)[a] == keys_of(s)[a]);
                    assert(keys_of(p)[b] == keys_of(s)[b]);
                }
            }
            lemma_lookup_at(p, i);
            assert(s[i] == p[i]);
            lemma_lookup_at(s, i);
        } else {
            assert(!keys_of(s).contains(k)) by {
                if keys_of(s).contains(k) {
                    let j = choose|j: int| 0 <= j < keys_of(s).len() && keys_of(s)[j] == k;
                    assert(j < p.len());
                    assert(keys_of(p)[j] == k);
                }
            }
        }
    }
}

proof fn lemma_keys_drop_last<K, V>(s: Seq<(K, V)>)
    requires
        keys_of(s).no_duplicates(),
        s.len() > 0,
    ensures
        keys_of(s.drop_last()).no_duplicates(),
{
    let p = s.drop_last();
    assert forall|a: int, b: int| 0 <= a < keys_of(p).len() && 0 <= b < keys_of(p).len() && a != b
        implies keys_of(p)[a] != keys_of(p)[b] by {
        assert(keys_of(p)[a] == keys_of(s)[a]);
        assert(keys_of(p)[b] == keys_of(s)[b]);
    }
}

/// For every symbol other than `"#"`, the shift entries are the transitions
/// on terminals.
pub proof fn lemma_action_of(
    tbl: Seq<((usize, Seq<char>), usize)>,
    t: Seq<Seq<char>>,
    end: int,
    nsets: usize,
    k: (usize, Seq<char>),
)
    requires
        keys_of(tbl).no_duplicates(),
        k.1 != "#"@,
    ensures
        lookup(action_of(tbl, t, end, nsets), k) == if t.contains(k.1) {
            lookup(tbl, k)
        } else {
            None
        },
    decreases tbl.len(),
{
    if tbl.len() == 0 {
        assert(!keys_of(action_of(tbl, t, end, nsets)).contains(k));
        assert(!keys_of(tbl).contains(k));
    } else {
        let p = tbl.drop_last();
        let e = tbl.last();
        lemma_keys_drop_last(tbl);
        lemma_action_of(p, t, end, nsets, k);
        lemma_lookup_last(tbl, k);
        let r = action_of(p, t, end, nsets);
        lemma_action_keys(p, t, end, nsets);
        if t.contains(e.0.1) {
            let r2 = if e.1 as int == end {
                put(r, (e.1, "#"@), nsets)
            } else {
                r
            };
            crate::dict::lemma_put(r, (e.1, "#"@), nsets);
            crate::dict::lemma_put(r2, e.0, e.1);
            if k != e.0 && e.1 as int == end {
                assert(k != (e.1, "#"@));
            }
        }
    }
}

proof fn lemma_action_keys(tbl: Seq<((usize, Seq<char>), usize)>, t: Seq<Seq<char>>, end: int, nsets: usize)
    ensures
        keys_of(action_of(tbl, t, end, nsets)).no_duplicates(),
    decreases tbl.len(),
{
    if tbl.len() > 0 {
        let r = action_of(tbl.drop_last(), t, end, nsets);
        let e = tbl.last();
        lemma_action_keys(tbl.drop_last(), t, end, nsets);
        crate::dict::lemma_put(r, (e.1, "#"@), nsets);
        let r2 = if e.1 as int == end {
            put(r, (e.1, "#"@), nsets)
        } else {
            r
        };
        crate::dict::lemma_put(r2, e.0, e.1);
    }
}

/// The goto entries are the transitions on nonterminals that are not
/// terminals.
pub proof fn lemma_goto_of(
    tbl: Seq<((usize, Seq<char>), usize)>,
    t: Seq<Seq<char>>,
    n: Seq<Seq<char>>,
    k: (usize, Seq<char>),
)
    requires
        keys_of(tbl).no_duplicates(),
    ensures
        keys_of(goto_of(tbl, t, n)).no_duplicates(),
        lookup(goto_of(tbl, t, n), k) == if !t.contains(k.1) && n.contains(k.1) {
            lookup(tbl, k)
        } else {
            None
        },
    decreases tbl.len(),
{
    if tbl.len() == 0 {
        assert(!keys_of(goto_of(tbl, t, n)).contains(k));
        assert(!keys_of(tbl).contains(k));
    } else {
        let e = tbl.last();
        lemma_keys_drop_last(tbl);
        lemma_goto_of(tbl.drop_last(), t, n, k);
        lemma_lookup_last(tbl, k);
        let r = goto_of(tbl.drop_last(), t, n);
        crate::dict::lemma_put(r, e.0, e.1);
    }
}

/// In the tables built from an automaton, the shift entry for a state and a
/// terminal other than `"#"` is the state's transition on it, and a
/// transition on a terminal always has its shift entry.
pub proof fn lemma_shift_is_transition(
    cs: Seq<Seq<Item>>,
    tbl: Seq<((usize, Seq<char>), usize)>,
    t: Seq<Seq<char>>,
    end: int,
    nsets: usize,
    i: usize,
    w: Seq<char>,
    s: usize,
)
    requires
        keys_of(tbl).no_duplicates(),
        goto_table_ok(cs, tbl),
        deterministic(cs),
        w != "#"@,
    ensures
        lookup(action_of(tbl, t, end, nsets), (i, w)) == Some(s) <==> t.contains(w) && goto_edge(cs, i as int, w, s as int),
{
    lemma_action_of(tbl, t, end, nsets, (i, w));
    if t.contains(w) && goto_edge(cs, i as int, w, s as int) {
        assert(lookup(tbl, (i, w)) is Some);
        assert(goto_edge(cs, i as int, w, lookup(tbl, (i, w)).unwrap() as int));
    }
    if lookup(action_of(tbl, t, end, nsets), (i, w)) == Some(s) {
        assert(lookup(tbl, (i, w)) is Some);
    }
}

} // verus!

verus! {

/// In the tables built from an automaton, the goto entry for a state and a
/// nonterminal (that is not a terminal) is the state's transition on it, and
/// such a transition always has its goto entry.
pub proof fn lemma_goto_is_transition(
    cs: Seq<Seq<Item>>,
    tbl: Seq<((usize, Seq<char>), usize)>,
    t: Seq<Seq<char>>,
    n: Seq<Seq<char>>,
    i: usize,
    w: Seq<char>,
    s: usize,
)
    requires
        keys_of(tbl).no_duplicates(),
        goto_table_ok(cs, tbl),
        deterministic(cs),
    ensures
        lookup(goto_of(tbl, t, n), (i, w)) == Some(s) <==> !t.contains(w) && n.contains(w) && goto_edge(cs, i as int, w, s as int),
{
    lemma_goto_of(tbl, t, n, (i, w));
    if !t.contains(w) && n.contains(w) && goto_edge(cs, i as int, w, s as int) {
        assert(lookup(tbl, (i, w)) is Some);
        assert(goto_edge(cs, i as int, w, lookup(tbl, (i, w)).unwrap() as int));
    }
    if lookup(goto_of(tbl, t, n), (i, w)) == Some(s) {
        assert(lookup(tbl, (i, w)) is Some);
    }
}

/// Complete item `g` reduces with label `l`: some production of its head,
/// numbered `s` in the grammar's list for that head, is its body, and `l` is
/// that production's label.
pub open spec fn item_reduces(
    g: Item,
    lg: Seq<(Seq<char>, Seq<Seq<Seq<char>>>)>,
    fw: Seq<char>,
    l: Seq<char>,
) -> bool {
    exists|e: int, s: int|
        0 <= e < lg.len() && lg[e].0 == g.0.0 && 0 <= s < lg[e].1.len() && #[trigger] lg[e].1[s] == g.0.1
            && l == reduce_label(lg[e].0, s as nat, fw)
}

/// Set `i` has a complete item with lookahead `a` that reduces with `l`.
pub open spec fn reduction_source(
    cs: Seq<Seq<Item>>,
    lg: Seq<(Seq<char>, Seq<Seq<Seq<char>>>)>,
    fw: Seq<char>,
    i: usize,
    a: Seq<char>,
    l: Seq<char>,
) -> bool {
    &&& i < cs.len()
    &&& exists|k: int|
        0 <= k < cs[i as int].len() && #[trigger] cs[i as int][k].2 == cs[i as int][k].3 && cs[i as int][k].1 == a
            && item_reduces(cs[i as int][k], lg, fw, l)
}

proof fn lemma_reg_bodies(
    r: Seq<((usize, Seq<char>), Seq<char>)>,
    i: usize,
    g: Item,
    head: Seq<char>,
    bodies: Seq<Seq<Seq<char>>>,
    fw: Seq<char>,
    key: (usize, Seq<char>),
    l: Seq<char>,
)
    requires
        keys_of(r).no_duplicates(),
    ensures
        keys_of(reg_bodies(r, i, g, head, bodies, fw)).no_duplicates(),
        lookup(reg_bodies(r, i, g, head, bodies, fw), key) == Some(l) ==> lookup(r, key) == Some(l) || (key == (i, g.1)
            && exists|s: int| 0 <= s < bodies.len() && #[trigger] bodies[s] == g.0.1 && l == reduce_label(head, s as nat, fw)),
    decreases bodies.len(),
{
    if bodies.len() > 0 {
        let r0 = reg_bodies(r, i, g, head, bodies.drop_last(), fw);
        lemma_reg_bodies(r, i, g, head, bodies.drop_last(), fw, key, l);
        let s = bodies.len() - 1;
        crate::dict::lemma_put(r0, (i, g.1), reduce_label(head, s as nat, fw));
        if lookup(reg_bodies(r, i, g, head, bodies, fw), key) == Some(l) && lookup(r, key) != Some(l) {
            if bodies.last() == g.0.1 && key == (i, g.1) {
                assert(bodies[s] == g.0.1);
            } else {
                let s2 = choose|s2: int| 0 <= s2 < bodies.drop_last().len() && #[trigger] bodies.drop_last()[s2] == g.0.1
                    && l == reduce_label(head, s2 as nat, fw);
                assert(bodies[s2] == g.0.1);
            }
        }
    }
}

proof fn lemma_reg_prods(
    r: Seq<((usize, Seq<char>), Seq<char>)>,
    i: usize,
    g: Item,
    lg: Seq<(Seq<char>, Seq<Seq<Seq<char>>>)>,
    fw: Seq<char>,
    key: (usize, Seq<char>),
    l: Seq<char>,
)
    requires
        keys_of(r).no_duplicates(),
    ensures
        keys_of(reg_prods(r, i, g, lg, fw)).no_duplicates(),
        lookup(reg_prods(r, i, g, lg, fw), key) == Some(l) ==> lookup(r, key) == Some(l) || (key == (i, g.1)
            && item_reduces(g, lg, fw, l)),
    decreases lg.len(),
{
    if lg.len() > 0 {
        let p = lg.drop_last();
        let r0 = reg_prods(r, i, g, p, fw);
        lemma_reg_prods(r, i, g, p, fw, key, l);
        lemma_reg_bodies(r0, i, g, lg.last().0, lg.last().1, fw, key, l);
        if lookup(reg_prods(r, i, g, lg, fw), key) == Some(l) && lookup(r, key) != Some(l) {
            if lg.last().0 == g.0.0 && lookup(r0, key) != Some(l) {
                let s = choose|s: int| 0 <= s < lg.last().1.len() && #[trigger] lg.last().1[s] == g.0.1
                    && l == reduce_label(lg.last().0, s as nat, fw);
                assert(lg[lg.len() - 1].1[s] == g.0.1);
            } else {
                let (e, s) = choose|e: int, s: int|
                    0 <= e < p.len() && p[e].0 == g.0.0 && 0 <= s < p[e].1.len() && #[trigger] p[e].1[s] == g.0.1
                        && l == reduce_label(p[e].0, s as nat, fw);
                assert(lg[e] == p[e]);
                assert(lg[e].1[s] == g.0.1);
            }
        }
    }
}

proof fn lemma_reg_items(
    r: Seq<((usize, Seq<char>), Seq<char>)>,
    i: usize,
    items: Seq<Item>,
    lg: Seq<(Seq<char>, Seq<Seq<Seq<char>>>)>,
    fw: Seq<char>,
    key: (usize, Seq<char>),
    l: Seq<char>,
)
    requires
        keys_of(r).no_duplicates(),
    ensures
        keys_of(reg_items(r, i, items, lg, fw)).no_duplicates(),
        lookup(reg_items(r, i, items, lg, fw), key) == Some(l) ==> lookup(r, key) == Some(l) || (key.0 == i
            && exists|k: int|
            0 <= k < items.len() && #[trigger] items[k].2 == items[k].3 && items[k].1 == key.1 && item_reduces(
                items[k],
                lg,
                fw,
                l,
            )),
    decreases items.len(),
{
    if items.len() > 0 {
        let p = items.drop_last();
        let r0 = reg_items(r, i, p, lg, fw);
        lemma_reg_items(r, i, p, lg, fw, key, l);
        let g = items.last();
        lemma_reg_prods(r0, i, g, lg, fw, key, l);
        if lookup(reg_items(r, i, items, lg, fw), key) == Some(l) && lookup(r, key) != Some(l) {
            if g.2 == g.3 && lookup(r0, key) != Some(l) {
                assert(items[items.len() - 1] == g);
            } else {
                let k = choose|k: int|
                    0 <= k < p.len() && #[trigger] p[k].2 == p[k].3 && p[k].1 == key.1 && item_reduces(p[k], lg, fw, l);
                assert(items[k] == p[k]);
            }
        }
    }
}

/// Every reduction entry, for state `i` and lookahead `a`, comes from a
/// complete item of set `i` with lookahead `a`, by a production of the
/// grammar equal to the item's and with that production's label.
pub proof fn lemma_reduction_source(
    cs: Seq<Seq<Item>>,
    lg: Seq<(Seq<char>, Seq<Seq<Seq<char>>>)>,
    fw: Seq<char>,
    i: usize,
    a: Seq<char>,
    l: Seq<char>,
)
    requires
        cs.len() <= usize::MAX,
        lookup(reg_sets(Seq::empty(), cs, lg, fw), (i, a)) == Some(l),
    ensures
        reduction_source(cs, lg, fw, i, a, l),
{
    lemma_reg_sets(cs, lg, fw, i, a, l);
}

proof fn lemma_reg_sets(
    cs: Seq<Seq<Item>>,
    lg: Seq<(Seq<char>, Seq<Seq<Seq<char>>>)>,
    fw: Seq<char>,
    i: usize,
    a: Seq<char>,
    l: Seq<char>,
)
    requires
        cs.len() <= usize::MAX,
    ensures
        keys_of(reg_sets(Seq::empty(), cs, lg, fw)).no_duplicates(),
        lookup(reg_sets(Seq::empty(), cs, lg, fw), (i, a)) == Some(l) ==> reduction_source(cs, lg, fw, i, a, l),
    decreases cs.len(),
{
    if cs.len() == 0 {
        assert(!keys_of(Seq::<((usize, Seq<char>), Seq<char>)>::empty()).contains((i, a)));
    } else {
        let p = cs.drop_last();
        lemma_reg_sets(p, lg, fw, i, a, l);
        let r0 = reg_sets(Seq::empty(), p, lg, fw);
        let j = (cs.len() - 1) as usize;
        lemma_reg_items(r0, j, cs.last(), lg, fw, (i, a), l);
        if lookup(reg_sets(Seq::empty(), cs, lg, fw), (i, a)) == Some(l) {
            if lookup(r0, (i, a)) == Some(l) {
                let k = choose|k: int|
                    0 <= k < p[i as int].len() && #[trigger] p[i as int][k].2 == p[i as int][k].3 && p[i as int][k].1 == a
                        && item_reduces(p[i as int][k], lg, fw, l);
                assert(cs[i as int] == p[i as int]);
            } else {
                assert(cs[j as int] == cs.last());
            }
        }
    }
}

} // verus!

verus! {

/// A step keeps the symbol stack and the state stack the same height.
proof fn lemma_step_balanced(
    act: Seq<((usize, Seq<char>), usize)>,
    reg: Seq<((usize, Seq<char>), Seq<char>)>,
    gt: Seq<((usize, Seq<char>), usize)>,
    dict: Seq<Seq<char>>,
    lg: Seq<(Seq<char>, Seq<Seq<Seq<char>>>)>,
    sen: Seq<Seq<char>>,
    ws: Seq<Seq<char>>,
    ss: Seq<usize>,
    i: nat,
)
    requires
        ws.len() == ss.len(),
    ensures
        lr_step(act, reg, gt, dict, lg, sen, ws, ss, i) matches LrStep::Next(w2, s2, _) ==> w2.len() == s2.len(),
{
}

/// Throughout an LR(1) analysis the symbol stack and the state stack have
/// the same height: every step it logs has as many symbols as states.
pub proof fn lemma_run_balanced(
    act: Seq<((usize, Seq<char>), usize)>,
    reg: Seq<((usize, Seq<char>), Seq<char>)>,
    gt: Seq<((usize, Seq<char>), usize)>,
    dict: Seq<Seq<char>>,
    lg: Seq<(Seq<char>, Seq<Seq<Seq<char>>>)>,
    sen: Seq<Seq<char>>,
    ws: Seq<Seq<char>>,
    ss: Seq<usize>,
    i: nat,
    fuel: nat,
    q: int,
)
    requires
        ws.len() == ss.len(),
        0 <= q < lr_run(act, reg, gt, dict, lg, sen, ws, ss, i, fuel).1.len(),
    ensures
        lr_run(act, reg, gt, dict, lg, sen, ws, ss, i, fuel).1[q].0.len() == lr_run(act, reg, gt, dict, lg, sen, ws, ss, i, fuel).1[q].1.len(),
    decreases fuel,
{
    lemma_step_balanced(act, reg, gt, dict, lg, sen, ws, ss, i);
    match lr_step(act, reg, gt, dict, lg, sen, ws, ss, i) {
        LrStep::Next(w2, s2, i2) => {
            if fuel > 0 && q > 0 {
                lemma_run_balanced(act, reg, gt, dict, lg, sen, w2, s2, i2, (fuel - 1) as nat, q - 1);
            }
        },
        _ => {},
    }
}

} // verus!

verus! {

/// The language with the start production `'S -> S` for its start word `S`:
/// `'S` is its new start word, a nonterminal and a word.
pub fn augment(lang: &Language) -> (r: Language)
    requires
        lang.lg.wf(),
    ensures
        r.lg.wf(),
        r.twords.deep_view() == lang.twords.deep_view(),
        r.ntwords.deep_view() == lang.ntwords.deep_view().push("'"@ + lang.first_word@),
        r.words.deep_view() == lang.words.deep_view().push("'"@ + lang.first_word@),
        r.lg.dview() == augmented(lang.lg.dview(), lang.first_word@),
        r.first_word@ == "'"@ + lang.first_word@,
{
    let mut r = lang.duplicate();
    let first = r.first_word.clone();
    let mut new_first = owned("'");
    new_first.append(first.as_str());
    let mut start_body: Vec<String> = Vec::new();
    start_body.push(first.clone());
    assert(start_body.deep_view() =~= seq![first@]);
    let mut start_prods: Vec<Vec<String>> = Vec::new();
    let ghost sb = start_body.deep_view();
    start_prods.push(start_body);
    assert(start_prods.deep_view()[0] == sb);
    assert(start_prods.deep_view() =~= seq![seq![first@]]);
    r.lg.insert(new_first.clone(), start_prods);
    r.first_word = new_first.clone();
    let ghost n0 = r.ntwords.deep_view();
    r.ntwords.push(new_first.clone());
    assert(r.ntwords.deep_view() =~= n0.push(new_first@));
    let ghost w0 = r.words.deep_view();
    r.words.push(new_first);
    assert(r.words.deep_view() =~= w0.push(r.first_word@));
    r
}

/// Whether a symbol is one that `get_first` can answer for in `lang`'s
/// grammar (see `sym_ready`).
fn sym_check(lang: &Language, w: &String) -> (r: bool)
    requires
        lang.lg.wf(),
    ensures
        r == sym_ready(lang.twords.deep_view(), lang.ntwords.deep_view(), lang.lg.dview(), w@),
{
    let hash = owned("#");
    contains_string(&lang.twords, w) || *w == hash || (contains_string(&lang.ntwords, w) && lang.lg.contains_key(w))
}

/// Whether the item body of `v` is one whose symbols after a nonterminal
/// `get_first` can answer for (`body_ready`), and, when it is, whether it
/// ends expanding.
fn body_check(lang: &Language, v: &Vec<String>) -> (r: (bool, bool))
    requires
        lang.lg.wf(),
    ensures
        r.0 == body_ready(lang.twords.deep_view(), lang.ntwords.deep_view(), lang.lg.dview(), item_body(v.deep_view())),
        r.0 ==> r.1 == ends_expanding(lang.ntwords.deep_view(), item_body(v.deep_view())),
{
    let ghost t = lang.twords.deep_view();
    let ghost n = lang.ntwords.deep_view();
    let ghost g = lang.lg.dview();
    let ghost b = item_body(v.deep_view());
    let hash = owned("#");
    let nil = owned("nil");
    let at_end = contains_string(&lang.ntwords, &hash);
    if contains_string(v, &nil) {
        proof {
            assert(b =~= Seq::<Seq<char>>::empty());
            if at_end {
                assert(tail_expands(n, b, 0));
            }
        }
        return (true, at_end);
    }
    assert(b == v.deep_view());
    let nv = v.len();
    for q in 0..nv
        invariant
            nv == b.len(),
            b == v.deep_view(),
            b == item_body(v.deep_view()),
            t == lang.twords.deep_view(),
            n == lang.ntwords.deep_view(),
            g == lang.lg.dview(),
            lang.lg.wf(),
            forall|q2: int| 1 <= q2 < q && n.contains(b[q2 - 1]) ==> sym_ready(t, n, g, #[trigger] b[q2]),
    {
        if q > 0 {
            assert(b[q - 1] == v@[q - 1]@);
            assert(b[q as int] == v@[q as int]@);
            if contains_string(&lang.ntwords, &v[q - 1]) && !sym_check(lang, &v[q]) {
                assert(n.contains(b[q - 1]));
                assert(!sym_ready(t, n, g, b[q as int]));
                assert(!body_ready(t, n, g, b));
                return (false, false);
            }
        }
    }
    assert(body_ready(t, n, g, b));
    (true, ends_check(lang, v))
}

/// Whether body `v` (one without `"nil"`) ends expanding.
fn ends_check(lang: &Language, v: &Vec<String>) -> (r: bool)
    requires
        !v.deep_view().contains("nil"@),
    ensures
        r == ends_expanding(lang.ntwords.deep_view(), item_body(v.deep_view())),
{
    let ghost n = lang.ntwords.deep_view();
    let ghost b = item_body(v.deep_view());
    assert(b == v.deep_view());
    let hash = owned("#");
    let at_end = contains_string(&lang.ntwords, &hash);
    let nv = v.len();
    for p in 0..nv
        invariant
            nv == b.len(),
            b == v.deep_view(),
            b == item_body(v.deep_view()),
            n == lang.ntwords.deep_view(),
            hash@ == "#"@,
            forall|p2: int| 0 <= p2 < p ==> !#[trigger] tail_expands(n, b, p2),
    {
        assert(b[p as int] == v@[p as int]@);
        assert(sym_at(b, p as int) == b[p as int]);
        if contains_string(&lang.ntwords, &v[p]) {
            if p + 1 == nv {
                assert(tail_expands(n, b, p as int));
                return true;
            }
            assert(b[p + 1] == v@[p + 1]@);
            assert(sym_at(b, p + 1) == b[p + 1]);
            if v[p + 1] == hash {
                assert(tail_expands(n, b, p as int));
                return true;
            }
            assert(!tail_expands(n, b, p as int));
        } else {
            assert(!tail_expands(n, b, p as int));
        }
    }
    proof {
        if at_end {
            assert(tail_expands(n, b, nv as int));
        }
        if ends_expanding(n, b) {
            let p2 = choose|p2: int| 0 <= p2 <= b.len() && #[trigger] tail_expands(n, b, p2);
            assert(p2 == nv);
        }
    }
    at_end
}

/// Whether a language can be given to `LR::new` and `AnalyzeTable::new` (see
/// `lr_ready`): it augments the language and reads every production, and the
/// words where `words_asked` holds.
pub fn lr_check(lang: &Language) -> (r: bool)
    requires
        lang.lg.wf(),
    ensures
        r == lr_ready(
            augmented(lang.lg.dview(), lang.first_word@),
            lang.twords.deep_view(),
            lang.ntwords.deep_view().push("'"@ + lang.first_word@),
            lang.words.deep_view().push("'"@ + lang.first_word@),
            "'"@ + lang.first_word@,
        ),
{
    let aug = augment(lang);
    let ghost g = aug.lg.dview();
    let ghost t = aug.twords.deep_view();
    let ghost n = aug.ntwords.deep_view();
    let ghost ws = aug.words.deep_view();
    let ghost fw = aug.first_word@;
    if !crate::ff::ff_check(&aug) {
        return false;
    }
    let ng = aug.lg.entries.len();
    let mut asked = false;
    for gi in 0..ng
        invariant
            g == augmented(lang.lg.dview(), lang.first_word@),
            t == lang.twords.deep_view(),
            n == lang.ntwords.deep_view().push("'"@ + lang.first_word@),
            ws == lang.words.deep_view().push("'"@ + lang.first_word@),
            fw == "'"@ + lang.first_word@,
            ng == g.len(),
            g == aug.lg.dview(),
            t == aug.twords.deep_view(),
            n == aug.ntwords.deep_view(),
            fw == aug.first_word@,
            aug.lg.wf(),
            forall|a: int, j: int|
                0 <= a < gi && crate::follow::is_prod(g, a, j) ==> #[trigger] g[a].1[j].len() < usize::MAX && body_ready(
                    t,
                    n,
                    g,
                    item_body(g[a].1[j]),
                ),
            asked <==> exists|a: int, j: int|
                0 <= a < gi && crate::follow::is_prod(g, a, j) && g[a].0 != fw && #[trigger] ends_expanding(
                    n,
                    item_body(g[a].1[j]),
                ),
    {
        let e = &aug.lg.entries[gi];
        assert(g[gi as int] == (e.0@, e.1.deep_view()));
        let is_start = e.0 == aug.first_word;
        let nb = e.1.len();
        let ghost asked0 = asked;
        for j in 0..nb
            invariant
                g == augmented(lang.lg.dview(), lang.first_word@),
                t == lang.twords.deep_view(),
                n == lang.ntwords.deep_view().push("'"@ + lang.first_word@),
                ws == lang.words.deep_view().push("'"@ + lang.first_word@),
                fw == "'"@ + lang.first_word@,
                ng == g.len(),
                0 <= gi < ng,
                g == aug.lg.dview(),
                t == aug.twords.deep_view(),
                n == aug.ntwords.deep_view(),
                fw == aug.first_word@,
                aug.lg.wf(),
                g[gi as int] == (e.0@, e.1.deep_view()),
                is_start == (e.0@ == fw),
                nb == e.1@.len(),
                forall|a: int, j2: int|
                    0 <= a < gi && crate::follow::is_prod(g, a, j2) ==> #[trigger] g[a].1[j2].len() < usize::MAX
                        && body_ready(t, n, g, item_body(g[a].1[j2])),
                forall|j2: int|
                    0 <= j2 < j ==> #[trigger] g[gi as int].1[j2].len() < usize::MAX && body_ready(
                        t,
                        n,
                        g,
                        item_body(g[gi as int].1[j2]),
                    ),
                asked0 <==> exists|a: int, j2: int|
                    0 <= a < gi && crate::follow::is_prod(g, a, j2) && g[a].0 != fw && #[trigger] ends_expanding(
                        n,
                        item_body(g[a].1[j2]),
                    ),
                asked <==> asked0 || exists|j2: int|
                    0 <= j2 < j && !is_start && #[trigger] ends_expanding(n, item_body(g[gi as int].1[j2])),
        {
            let v = &e.1[j];
            assert(g[gi as int].1[j as int] == v.deep_view());
            if v.len() == usize::MAX {
                assert(crate::follow::is_prod(g, gi as int, j as int));
                assert(!(g[gi as int].1[j as int].len() < usize::MAX));
                return false;
            }
            let (ready, ends) = body_check(&aug, v);
            if !ready {
                assert(crate::follow::is_prod(g, gi as int, j as int));
                return false;
            }
            let ghost asked1 = asked;
            if ends && !is_start {
                asked = true;
            }
            proof {
                if asked && !asked1 {
                    assert(ends_expanding(n, item_body(g[gi as int].1[j as int])));
                }
                if exists|j2: int| 0 <= j2 < j + 1 && !is_start && #[trigger] ends_expanding(n, item_body(g[gi as int].1[j2])) {
                    let j2 = choose|j2: int| 0 <= j2 < j + 1 && !is_start && #[trigger] ends_expanding(n, item_body(g[gi as int].1[j2]));
                    if j2 == j {
                        assert(asked);
                    }
                }
            }
        }
        proof {
            if asked && !asked0 {
                let j2 = choose|j2: int| 0 <= j2 < nb && !is_start && #[trigger] ends_expanding(n, item_body(g[gi as int].1[j2]));
                assert(crate::follow::is_prod(g, gi as int, j2));
                assert(ends_expanding(n, item_body(g[gi as int].1[j2])));
            }
            if exists|a: int, j2: int|
                0 <= a < gi + 1 && crate::follow::is_prod(g, a, j2) && g[a].0 != fw && #[trigger] ends_expanding(n, item_body(g[a].1[j2])) {
                let (a, j2) = choose|a: int, j2: int|
                    0 <= a < gi + 1 && crate::follow::is_prod(g, a, j2) && g[a].0 != fw && #[trigger] ends_expanding(n, item_body(g[a].1[j2]));
                if a == gi {
                    assert(ends_expanding(n, item_body(g[gi as int].1[j2])));
                    assert(asked);
                } else {
                    assert(asked0);
                }
            }
        }
    }
    assert(asked == words_asked(g, n, fw));
    if asked {
        let nil = owned("nil");
        let nw = aug.words.len();
        for k in 0..nw
            invariant
                g == augmented(lang.lg.dview(), lang.first_word@),
                t == lang.twords.deep_view(),
                n == lang.ntwords.deep_view().push("'"@ + lang.first_word@),
                ws == lang.words.deep_view().push("'"@ + lang.first_word@),
                nw == ws.len(),
                ws == aug.words.deep_view(),
                g == aug.lg.dview(),
                t == aug.twords.deep_view(),
                n == aug.ntwords.deep_view(),
                aug.lg.wf(),
                nil@ == "nil"@,
                fw == "'"@ + lang.first_word@,
                words_asked(g, n, fw),
                forall|k2: int| 0 <= k2 < k && ws[k2] != "nil"@ ==> sym_ready(t, n, g, #[trigger] ws[k2]),
        {
            assert(ws[k as int] == aug.words@[k as int]@);
            if !(aug.words[k] == nil) && !sym_check(&aug, &aug.words[k]) {
                assert(ws[k as int] != "nil"@);
                assert(!sym_ready(t, n, g, ws[k as int]));
                return false;
            }
        }
    }
    true
}

} // verus!

verus! {

/// A reduction by production `num` of head `head` (whose body has `k`
/// symbols) takes exactly `k` entries off both stacks, then pushes the head
/// on the symbol stack and, on the state stack, the goto target of the state
/// left on top; the input position stays. It goes on exactly when the state
/// stack holds more than `k` states and that goto target exists.
pub proof fn lemma_reduce_pops_body(
    gt: Seq<((usize, Seq<char>), usize)>,
    lg: Seq<(Seq<char>, Seq<Seq<Seq<char>>>)>,
    ws: Seq<Seq<char>>,
    ss: Seq<usize>,
    i: nat,
    number: Seq<char>,
    head: Seq<char>,
    num: usize,
    prods: Seq<Seq<Seq<char>>>,
)
    requires
        parse_usize_spec(number) == Some(num),
        lookup(lg, head) == Some(prods),
        num < prods.len(),
    ensures
        ({
            let k = prods[num as int].len();
            let step = reduce_by(gt, lg, ws, ss, i, Some(number), Some(head));
            &&& (step is Next <==> k < ss.len() && lookup(gt, (ss[ss.len() - k - 1], head)) is Some)
            &&& step matches LrStep::Next(ws2, ss2, i2) ==> {
                &&& i2 == i
                &&& ss2.len() == ss.len() - k + 1
                &&& forall|q: int| 0 <= q < ss.len() - k ==> ss2[q] == ss[q]
                &&& lookup(gt, (ss[ss.len() - k - 1], head)) == Some(ss2[ss2.len() - 1])
                &&& ws2[ws2.len() - 1] == head
                &&& k <= ws.len() ==> ws2.len() == ws.len() - k + 1 && forall|q: int| 0 <= q < ws.len() - k ==> ws2[q] == ws[q]
            }
        }),
{
    let k = prods[num as int].len();
    if k < ss.len() {
        assert(pop_n(ss, k).last() == ss[ss.len() - k - 1]);
    }
}

/// The reduction table is complete: every complete item `[A -> β·, a]` of
/// set `i`, where `A -> β` is a production of the grammar, has an entry for
/// `(i, a)` (a reduction, or `acc` for the start word).
pub proof fn lemma_reductions_complete(
    r: Seq<((usize, Seq<char>), Seq<char>)>,
    cs: Seq<Seq<Item>>,
    lg: Seq<(Seq<char>, Seq<Seq<Seq<char>>>)>,
    fw: Seq<char>,
    i: int,
    g: Item,
    gi: int,
    s: int,
)
    requires
        cs.len() <= usize::MAX,
        0 <= i < cs.len(),
        cs[i].contains(g),
        g.2 == g.3,
        0 <= gi < lg.len(),
        lg[gi].0 == g.0.0,
        0 <= s < lg[gi].1.len(),
        lg[gi].1[s] == g.0.1,
    ensures
        keys_of(reg_sets(r, cs, lg, fw)).contains((i as usize, g.1)),
    decreases cs.len(),
{
    let pre = cs.drop_last();
    let r0 = reg_sets(r, pre, lg, fw);
    if i == cs.len() - 1 {
        let k = choose|k: int| 0 <= k < cs.last().len() && cs.last()[k] == g;
        lemma_reg_items_hit(r0, i as usize, cs.last(), lg, fw, k, gi, s);
    } else {
        assert(pre[i] == cs[i]);
        lemma_reductions_complete(r, pre, lg, fw, i, g, gi, s);
        lemma_reg_items_keep(r0, (cs.len() - 1) as usize, cs.last(), lg, fw, (i as usize, g.1));
    }
}

/// `put` keeps every key and adds its own.
proof fn lemma_put_keeps<A, B>(r: Seq<(A, B)>, k: A, v: B, x: A)
    ensures
        keys_of(r).contains(x) || x == k ==> keys_of(put(r, k, v)).contains(x),
{
    let p = put(r, k, v);
    if keys_of(r).contains(k) {
        let ik = keys_of(r).index_of(k);
        if keys_of(r).contains(x) {
            let j = choose|j: int| 0 <= j < keys_of(r).len() && keys_of(r)[j] == x;
            assert(keys_of(p)[j] == x);
        }
        if x == k {
            assert(keys_of(p)[ik] == k);
        }
    } else {
        if keys_of(r).contains(x) {
            let j = choose|j: int| 0 <= j < keys_of(r).len() && keys_of(r)[j] == x;
            assert(keys_of(p)[j] == x);
        }
        if x == k {
            assert(keys_of(p)[r.len() as int] == k);
        }
    }
}

proof fn lemma_reg_bodies_keep(
    r: Seq<((usize, Seq<char>), Seq<char>)>,
    i: usize,
    g: Item,
    head: Seq<char>,
    bodies: Seq<Seq<Seq<char>>>,
    fw: Seq<char>,
    x: (usize, Seq<char>),
)
    requires
        keys_of(r).contains(x),
    ensures
        keys_of(reg_bodies(r, i, g, head, bodies, fw)).contains(x),
    decreases bodies.len(),
{
    if bodies.len() > 0 {
        lemma_reg_bodies_keep(r, i, g, head, bodies.drop_last(), fw, x);
        let r0 = reg_bodies(r, i, g, head, bodies.drop_last(), fw);
        lemma_put_keeps(r0, (i, g.1), reduce_label(head, (bodies.len() - 1) as nat, fw), x);
    }
}

proof fn lemma_reg_bodies_hit(
    r: Seq<((usize, Seq<char>), Seq<char>)>,
    i: usize,
    g: Item,
    head: Seq<char>,
    bodies: Seq<Seq<Seq<char>>>,
    fw: Seq<char>,
    s: int,
)
    requires
        0 <= s < bodies.len(),
        bodies[s] == g.0.1,
    ensures
        keys_of(reg_bodies(r, i, g, head, bodies, fw)).contains((i, g.1)),
    decreases bodies.len(),
{
    let pre = bodies.drop_last();
    let r0 = reg_bodies(r, i, g, head, pre, fw);
    if s == bodies.len() - 1 {
        lemma_put_keeps(r0, (i, g.1), reduce_label(head, (bodies.len() - 1) as nat, fw), (i, g.1));
    } else {
        assert(pre[s] == bodies[s]);
        lemma_reg_bodies_hit(r, i, g, head, pre, fw, s);
        lemma_put_keeps(r0, (i, g.1), reduce_label(head, (bodies.len() - 1) as nat, fw), (i, g.1));
    }
}

proof fn lemma_reg_prods_keep(
    r: Seq<((usize, Seq<char>), Seq<char>)>,
    i: usize,
    g: Item,
    lg: Seq<(Seq<char>, Seq<Seq<Seq<char>>>)>,
    fw: Seq<char>,
    x: (usize, Seq<char>),
)
    requires
        keys_of(r).contains(x),
    ensures
        keys_of(reg_prods(r, i, g, lg, fw)).contains(x),
    decreases lg.len(),
{
    if lg.len() > 0 {
        lemma_reg_prods_keep(r, i, g, lg.drop_last(), fw, x);
        let r0 = reg_prods(r, i, g, lg.drop_last(), fw);
        if lg.last().0 == g.0.0 {
            lemma_reg_bodies_keep(r0, i, g, lg.last().0, lg.last().1, fw, x);
        }
    }
}

proof fn lemma_reg_prods_hit(
    r: Seq<((usize, Seq<char>), Seq<char>)>,
    i: usize,
    g: Item,
    lg: Seq<(Seq<char>, Seq<Seq<Seq<char>>>)>,
    fw: Seq<char>,
    gi: int,
    s: int,
)
    requires
        0 <= gi < lg.len(),
        lg[gi].0 == g.0.0,
        0 <= s < lg[gi].1.len(),
        lg[gi].1[s] == g.0.1,
    ensures
        keys_of(reg_prods(r, i, g, lg, fw)).contains((i, g.1)),
    decreases lg.len(),
{
    let pre = lg.drop_last();
    let r0 = reg_prods(r, i, g, pre, fw);
    if gi == lg.len() - 1 {
        lemma_reg_bodies_hit(r0, i, g, lg.last().0, lg.last().1, fw, s);
    } else {
        assert(pre[gi] == lg[gi]);
        lemma_reg_prods_hit(r, i, g, pre, fw, gi, s);
        if lg.last().0 == g.0.0 {
            lemma_reg_bodies_keep(r0, i, g, lg.last().0, lg.last().1, fw, (i, g.1));
        }
    }
}

proof fn lemma_reg_items_keep(
    r: Seq<((usize, Seq<char>), Seq<char>)>,
    i: usize,
    items: Seq<Item>,
    lg: Seq<(Seq<char>, Seq<Seq<Seq<char>>>)>,
    fw: Seq<char>,
    x: (usize, Seq<char>),
)
    requires
        keys_of(r).contains(x),
    ensures
        keys_of(reg_items(r, i, items, lg, fw)).contains(x),
    decreases items.len(),
{
    if items.len() > 0 {
        lemma_reg_items_keep(r, i, items.drop_last(), lg, fw, x);
        let r0 = reg_items(r, i, items.drop_last(), lg, fw);
        if items.last().2 == items.last().3 {
            lemma_reg_prods_keep(r0, i, items.last(), lg, fw, x);
        }
    }
}

proof fn lemma_reg_items_hit(
    r: Seq<((usize, Seq<char>), Seq<char>)>,
    i: usize,
    items: Seq<Item>,
    lg: Seq<(Seq<char>, Seq<Seq<Seq<char>>>)>,
    fw: Seq<char>,
    k: int,
    gi: int,
    s: int,
)
    requires
        0 <= k < items.len(),
        items[k].2 == items[k].3,
        0 <= gi < lg.len(),
        lg[gi].0 == items[k].0.0,
        0 <= s < lg[gi].1.len(),
        lg[gi].1[s] == items[k].0.1,
    ensures
        keys_of(reg_items(r, i, items, lg, fw)).contains((i, items[k].1)),
    decreases items.len(),
{
    let pre = items.drop_last();
    let r0 = reg_items(r, i, pre, lg, fw);
    if k == items.len() - 1 {
        lemma_reg_prods_hit(r0, i, items.last(), lg, fw, gi, s);
    } else {
        assert(pre[k] == items[k]);
        lemma_reg_items_hit(r, i, pre, lg, fw, k, gi, s);
        if items.last().2 == items.last().3 {
            lemma_reg_prods_keep(r0, i, items.last(), lg, fw, (i, items[k].1));
        }
    }
}

impl LR {
    /// The item sets take their lookaheads from FIRST of what follows: in
    /// every set, an item `[A -> α·B x β, a]` whose `B` is a nonterminal and
    /// whose `x` is a terminal other than `"nil"` brings in every item of
    /// `B` with the dot at the start under the lookahead `x`.
    pub proof fn lemma_closure_lookahead(&self, i: int, k: int, j: int)
        requires
            self.sets_closed(),
            0 <= i < self.closures().len(),
            0 <= k < self.closures()[i].len(),
            self.language().ntwords.deep_view().contains(cur_sym(self.closures()[i][k])),
            self.language().twords.deep_view().contains(
                sym_at(self.closures()[i][k].0.1, self.closures()[i][k].2 + 1),
            ),
            sym_at(self.closures()[i][k].0.1, self.closures()[i][k].2 + 1) != "nil"@,
            sym_at(self.closures()[i][k].0.1, self.closures()[i][k].2 + 1) != "#"@,
            0 <= j < self.items().len(),
            self.items()[j].0 == cur_sym(self.closures()[i][k]),
            self.items()[j].1 == 0,
        ensures
            self.closures()[i].contains(
                with_ahead(self.items()[j].2, sym_at(self.closures()[i][k].0.1, self.closures()[i][k].2 + 1)),
            ),
    {
        let t = self.lang.twords.deep_view();
        let n = self.lang.ntwords.deep_view();
        let f = self.ll.first_lists();
        let c = self.closeure.deep_view()[i];
        let g = c[k];
        let x = sym_at(g.0.1, g.2 + 1);
        assert(set_closed(t, n, f, self.gen_list.deep_view(), c));
        assert(item_closed(t, n, f, self.gen_list.deep_view(), c, c[k]));
        assert(lr_first(t, f, x) == seq![x]);
        assert(seq![x][0] == x);
        assert(expand_first(t, f, g).contains(x));
    }

    /// An item `[A -> α·B, a]` with nothing after its nonterminal `B` (or
    /// the end marker) passes its own lookahead on: when `a` is `"#"` or a
    /// terminal other than `"nil"`, the set holds every item of `B` with the
    /// dot at the start under the lookahead `a`.
    pub proof fn lemma_closure_end_lookahead(&self, i: int, k: int, j: int)
        requires
            self.sets_closed(),
            0 <= i < self.closures().len(),
            0 <= k < self.closures()[i].len(),
            self.language().ntwords.deep_view().contains(cur_sym(self.closures()[i][k])),
            sym_at(self.closures()[i][k].0.1, self.closures()[i][k].2 + 1) == "#"@,
            self.closures()[i][k].1 == "#"@ || (self.language().twords.deep_view().contains(self.closures()[i][k].1)
                && self.closures()[i][k].1 != "nil"@),
            0 <= j < self.items().len(),
            self.items()[j].0 == cur_sym(self.closures()[i][k]),
            self.items()[j].1 == 0,
        ensures
            self.closures()[i].contains(with_ahead(self.items()[j].2, self.closures()[i][k].1)),
    {
        let t = self.lang.twords.deep_view();
        let n = self.lang.ntwords.deep_view();
        let f = self.ll.first_lists();
        let c = self.closeure.deep_view()[i];
        let g = c[k];
        let a = g.1;
        assert(set_closed(t, n, f, self.gen_list.deep_view(), c));
        assert(item_closed(t, n, f, self.gen_list.deep_view(), c, c[k]));
        reveal_strlit("nil");
        reveal_strlit("#");
        assert("#"@.len() == 1 && "nil"@.len() == 3);
        assert("#"@ != "nil"@);
        assert(a != "nil"@);
        assert(lr_first(t, f, a) == seq![a]);
        assert(seq![a][0] == a);
        assert(expand_first(t, f, g).contains(a));
    }
}

} // verus!
