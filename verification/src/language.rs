use vstd::prelude::*;
use crate::dict::{Dict, keys_of, lookup, put};
use crate::text::{
    chars_of, clone_string_lists, clone_strings, contains_string, lemma_split_nonempty, lines_of,
    lines_spec, owned, push_char, split_spec, split_str,
};

verus! {

/// The symbol-by-symbol state of `tokenize`: the symbols found so far and the
/// characters gathered since the last one.
pub open spec fn tokenize_state(cs: Seq<char>, dict: Seq<Seq<char>>) -> (Seq<Seq<char>>, Seq<char>)
    decreases cs.len(),
{
    if cs.len() == 0 {
        (Seq::<Seq<char>>::empty(), Seq::<char>::empty())
    } else {
        let (g, t) = tokenize_state(cs.drop_last(), dict);
        if dict.contains(t) {
            (g.push(t), seq![cs.last()])
        } else {
            (g, t.push(cs.last()))
        }
    }
}

/// Cuts the text of one alternative into grammar symbols: characters are
/// gathered until the gathered text is a known word, and that word is taken
/// just before the next character is added; what is left at the end is taken
/// only if it is a known word.
pub open spec fn tokenize(cs: Seq<char>, dict: Seq<Seq<char>>) -> Seq<Seq<char>> {
    let (g, t) = tokenize_state(cs, dict);
    if dict.contains(t) {
        g.push(t)
    } else {
        g
    }
}

/// The productions written by the alternatives `alts`, those that give no
/// symbol left out.
pub open spec fn bodies_of(alts: Seq<Seq<char>>, dict: Seq<Seq<char>>) -> Seq<Seq<Seq<char>>>
    decreases alts.len(),
{
    if alts.len() == 0 {
        Seq::<Seq<Seq<char>>>::empty()
    } else {
        let p = bodies_of(alts.drop_last(), dict);
        let g = tokenize(alts.last(), dict);
        if g.len() > 0 {
            p.push(g)
        } else {
            p
        }
    }
}

/// A grammar line has a head and, after the first space, the alternatives.
pub open spec fn line_ok(line: Seq<char>) -> bool {
    split_spec(line, ' ').len() >= 2
}

/// The head that a grammar line defines.
pub open spec fn line_head(line: Seq<char>) -> Seq<char> {
    split_spec(line, ' ')[0]
}

/// The productions that a grammar line gives its head.
pub open spec fn line_bodies(line: Seq<char>, dict: Seq<Seq<char>>) -> Seq<Seq<Seq<char>>> {
    bodies_of(split_spec(split_spec(line, ' ')[1], '|'), dict)
}

/// Adds the productions `r` of `head` to a grammar: before those it had, or
/// as a new entry at the end.
pub open spec fn add_rules(
    g: Seq<(Seq<char>, Seq<Seq<Seq<char>>>)>,
    head: Seq<char>,
    r: Seq<Seq<Seq<char>>>,
) -> Seq<(Seq<char>, Seq<Seq<Seq<char>>>)> {
    match lookup(g, head) {
        Some(old) => put(g, head, r + old),
        None => put(g, head, r),
    }
}

/// The grammar after reading `lines` one after another.
pub open spec fn grammar_after(
    g: Seq<(Seq<char>, Seq<Seq<Seq<char>>>)>,
    lines: Seq<Seq<char>>,
    dict: Seq<Seq<char>>,
) -> Seq<(Seq<char>, Seq<Seq<Seq<char>>>)>
    decreases lines.len(),
{
    if lines.len() == 0 {
        g
    } else {
        let l = lines.last();
        add_rules(grammar_after(g, lines.drop_last(), dict), line_head(l), line_bodies(l, dict))
    }
}

/// Cuts one alternative into symbols (see `tokenize`).
pub fn tokenize_exec(s: &String, dict: &Vec<String>) -> (r: Vec<String>)
    ensures
        r.deep_view() == tokenize(s@, dict.deep_view()),
{
    let cs = chars_of(s.as_str());
    let mut gen: Vec<String> = Vec::new();
    let mut t = String::new();
    let n = cs.len();
    for i in 0..n
        invariant
            n == cs@.len(),
            (gen.deep_view(), t@) == tokenize_state(cs@.take(i as int), dict.deep_view()),
    {
        assert(cs@.take(i + 1).drop_last() =~= cs@.take(i as int));
        let c = cs[i];
        let ghost old_gen = gen.deep_view();
        if contains_string(dict, &t) {
            gen.push(t);
            t = String::new();
            push_char(&mut t, c);
            assert(gen.deep_view() =~= old_gen.push(gen@[gen@.len() - 1]@));
            assert(t@ =~= seq![c]);
        } else {
            push_char(&mut t, c);
            assert(gen.deep_view() =~= old_gen);
        }
    }
    assert(cs@.take(n as int) =~= cs@);
    if contains_string(dict, &t) {
        let ghost old_gen = gen.deep_view();
        gen.push(t);
        assert(gen.deep_view() =~= old_gen.push(gen@[gen@.len() - 1]@));
    }
    gen
}

/// The productions written by a `|`-separated list of alternatives.
pub fn bodies_exec(alts_text: &String, dict: &Vec<String>) -> (r: Vec<Vec<String>>)
    ensures
        r.deep_view() == bodies_of(split_spec(alts_text@, '|'), dict.deep_view()),
{
    let alts = split_str(alts_text.as_str(), '|');
    let mut r: Vec<Vec<String>> = Vec::new();
    let n = alts.len();
    for i in 0..n
        invariant
            n == alts@.len(),
            alts.deep_view() == split_spec(alts_text@, '|'),
            r.deep_view() == bodies_of(alts.deep_view().take(i as int), dict.deep_view()),
    {
        assert(alts.deep_view().take(i + 1).drop_last() =~= alts.deep_view().take(i as int));
        let gen = tokenize_exec(&alts[i], dict);
        if gen.len() > 0 {
            let ghost old_r = r.deep_view();
            r.push(gen);
            assert(r.deep_view() =~= old_r.push(r@[r@.len() - 1].deep_view()));
        }
    }
    assert(alts.deep_view().take(n as int) =~= alts.deep_view());
    r
}

/// A grammar as read from its three text files: the terminal words, the
/// nonterminal words, and the productions of each head.
pub struct Language {
    pub twords: Vec<String>,
    pub ntwords: Vec<String>,
    pub words: Vec<String>,
    pub lg: Dict<String, Vec<Vec<String>>>,
    pub conf_path: String,
    pub first_word: String,
}

impl Language {
    /// Where the productions were read from.
    pub closed spec fn conf_path_view(&self) -> Seq<char> {
        self.conf_path@
    }

    /// An empty language.
    pub fn start() -> (l: Language)
        ensures
            l.twords@.len() == 0,
            l.ntwords@.len() == 0,
            l.words@.len() == 0,
            l.lg.dview().len() == 0,
            l.lg.wf(),
            l.conf_path_view().len() == 0,
            l.first_word@.len() == 0,
    {
        Language {
            twords: Vec::new(),
            ntwords: Vec::new(),
            words: Vec::new(),
            lg: Dict::new(),
            conf_path: String::new(),
            first_word: String::new(),
        }
    }

    /// Reads a language from the texts of its files: the terminal words and the
    /// nonterminal words are separated by single spaces; each line of the
    /// productions is a head, a space, and `|`-separated alternatives, each cut
    /// into known words. The productions of a head that several lines define
    /// are those of the later lines first.
    #[verifier::spinoff_prover]
    pub fn new(&mut self, conf_path: &str, conf_text: &str, t_text: &str, nt_text: &str)
        requires
            old(self).lg.wf(),
            forall|i: int|
                0 <= i < lines_spec(conf_text@).len() ==> line_ok(
                    #[trigger] lines_spec(conf_text@)[i],
                ),
        ensures
            final(self).lg.wf(),
            final(self).twords.deep_view() == split_spec(t_text@, ' '),
            final(self).ntwords.deep_view() == split_spec(nt_text@, ' '),
            final(self).words.deep_view() == split_spec(nt_text@, ' ') + split_spec(t_text@, ' '),
            final(self).conf_path_view() == conf_path@,
            final(self).lg.dview() == grammar_after(
                old(self).lg.dview(),
                lines_spec(conf_text@),
                final(self).words.deep_view(),
            ),
            lines_spec(conf_text@).len() > 0 ==> final(self).first_word@ == line_head(
                lines_spec(conf_text@)[0],
            ),
            lines_spec(conf_text@).len() == 0 ==> final(self).first_word@ == old(self).first_word@,
    {
        self.twords = split_str(t_text, ' ');
        self.ntwords = split_str(nt_text, ' ');
        let mut words = clone_strings(&self.ntwords);
        let mut tw = clone_strings(&self.twords);
        let ghost w1 = words.deep_view();
        let ghost w2 = tw.deep_view();
        words.append(&mut tw);
        assert(words.deep_view() =~= w1 + w2);
        self.words = words;
        self.conf_path = owned(conf_path);
        let lines = lines_of(conf_text);
        let ghost dict = self.words.deep_view();
        let ghost g0 = self.lg.dview();
        let n = lines.len();
        for li in 0..n
            invariant
                n == lines@.len(),
                lines.deep_view() == lines_spec(conf_text@),
                forall|i: int| 0 <= i < lines_spec(conf_text@).len() ==> line_ok(
                    #[trigger] lines_spec(conf_text@)[i],
                ),
                dict == self.words.deep_view(),
                self.lg.wf(),
                self.lg.dview() == grammar_after(g0, lines.deep_view().take(li as int), dict),
                li > 0 ==> self.first_word@ == line_head(lines_spec(conf_text@)[0]),
                li == 0 ==> self.first_word@ == old(self).first_word@,
                self.twords.deep_view() == split_spec(t_text@, ' '),
                self.ntwords.deep_view() == split_spec(nt_text@, ' '),
                self.words.deep_view() == split_spec(nt_text@, ' ') + split_spec(t_text@, ' '),
                self.conf_path@ == conf_path@,
        {
            assert(lines.deep_view().take(li + 1).drop_last() =~= lines.deep_view().take(
                li as int,
            ));
            let ghost l = lines.deep_view()[li as int];
            assert(line_ok(lines_spec(conf_text@)[li as int]));
            let ws = split_str(lines[li].as_str(), ' ');
            let key = ws[0].clone();
            if li == 0 {
                self.first_word = ws[0].clone();
            }
            let mut r = bodies_exec(&ws[1], &self.words);
            match self.lg.get(&key) {
                Some(source) => {
                    let mut source = clone_string_lists(source);
                    let ghost rv = r.deep_view();
                    let ghost sv = source.deep_view();
                    r.append(&mut source);
                    assert(r.deep_view() =~= rv + sv);
                    self.lg.insert(key, r);
                },
                None => {
                    self.lg.insert(key, r);
                },
            }
        }
        assert(lines.deep_view().take(n as int) =~= lines.deep_view());
    }
}

} // verus!

verus! {

/// A copy of a grammar.
pub fn clone_grammar(d: &Dict<String, Vec<Vec<String>>>) -> (r: Dict<String, Vec<Vec<String>>>)
    requires
        d.wf(),
    ensures
        r.wf(),
        r.dview() == d.dview(),
{
    let mut entries: Vec<(String, Vec<Vec<String>>)> = Vec::new();
    let n = d.entries.len();
    for i in 0..n
        invariant
            n == d.entries@.len(),
            entries.deep_view() == d.dview().take(i as int),
    {
        let k = d.entries[i].0.clone();
        let v = clone_string_lists(&d.entries[i].1);
        let ghost old_e = entries.deep_view();
        entries.push((k, v));
        assert(entries.deep_view() =~= old_e.push(d.dview()[i as int]));
        assert(entries.deep_view() =~= d.dview().take(i + 1));
    }
    assert(d.dview().take(n as int) =~= d.dview());
    Dict { entries }
}

} // verus!

verus! {

impl Language {
    /// Two languages hold the same words, productions and start word.
    pub open spec fn same_as(&self, other: &Language) -> bool {
        &&& self.twords.deep_view() == other.twords.deep_view()
        &&& self.ntwords.deep_view() == other.ntwords.deep_view()
        &&& self.words.deep_view() == other.words.deep_view()
        &&& self.lg.dview() == other.lg.dview()
        &&& self.conf_path@ == other.conf_path@
        &&& self.first_word@ == other.first_word@
    }

    /// A copy of the language.
    pub fn duplicate(&self) -> (r: Language)
        requires
            self.lg.wf(),
        ensures
            r.same_as(self),
            r.lg.wf(),
    {
        Language {
            twords: clone_strings(&self.twords),
            ntwords: clone_strings(&self.ntwords),
            words: clone_strings(&self.words),
            lg: clone_grammar(&self.lg),
            conf_path: self.conf_path.clone(),
            first_word: self.first_word.clone(),
        }
    }
}

} // verus!

verus! {

/// Whether every line of a productions text has a head and alternatives (see
/// `line_ok`), as `Language::new` needs.
pub fn conf_check(conf_text: &str) -> (r: bool)
    ensures
        r == forall|i: int| 0 <= i < lines_spec(conf_text@).len() ==> line_ok(#[trigger] lines_spec(conf_text@)[i]),
{
    let lines = lines_of(conf_text);
    let n = lines.len();
    for li in 0..n
        invariant
            n == lines@.len(),
            lines.deep_view() == lines_spec(conf_text@),
            forall|i: int| 0 <= i < li ==> line_ok(#[trigger] lines_spec(conf_text@)[i]),
    {
        let ws = split_str(lines[li].as_str(), ' ');
        assert(lines_spec(conf_text@)[li as int] == lines@[li as int]@);
        if ws.len() < 2 {
            assert(!line_ok(lines_spec(conf_text@)[li as int]));
            return false;
        }
    }
    true
}

} // verus!
