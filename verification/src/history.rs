use vstd::prelude::*;
use crate::text::{decimal, decimal_string, owned};

verus! {

/// The concatenation of a sequence of symbols.
pub open spec fn join_all(s: Seq<Seq<char>>) -> Seq<char>
    decreases s.len(),
{
    if s.len() == 0 {
        Seq::<char>::empty()
    } else {
        join_all(s.drop_last()) + s.last()
    }
}

/// How a production is written in the log: the head, `->`, then the symbols
/// of the body one after another.
pub open spec fn rule_text(head: Seq<char>, body: Seq<Seq<char>>) -> Seq<char> {
    head + "->"@ + join_all(body)
}

/// One line of the rendered log.
pub open spec fn history_line(i: nat, action: Seq<char>, rule: Seq<char>) -> Seq<char> {
    decimal(i) + "\t"@ + action + "\t"@ + rule + "\n"@
}

/// The lines of the rendered log for its first `n` steps.
pub open spec fn history_lines(actions: Seq<Seq<char>>, rules: Seq<Seq<char>>, n: nat) -> Seq<char>
    decreases n,
{
    if n == 0 {
        Seq::<char>::empty()
    } else {
        history_lines(actions, rules, (n - 1) as nat) + history_line(
            (n - 1) as nat,
            actions[n - 1],
            rules[n - 1],
        )
    }
}

/// The log of the productions that an LL(1) analysis applied, one step per
/// production, with the input word that was being looked at.
pub struct History {
    step: usize,
    rule: Vec<String>,
    action: Vec<String>,
}

impl History {
    /// The step count agrees with both logs.
    pub closed spec fn wf(&self) -> bool {
        self.step == self.rule@.len() && self.step == self.action@.len()
    }

    /// The action of each step: `"Anazying "` followed by the word looked at.
    pub closed spec fn actions(&self) -> Seq<Seq<char>> {
        self.action.deep_view()
    }

    /// The production of each step, as `rule_text` writes it.
    pub closed spec fn rules(&self) -> Seq<Seq<char>> {
        self.rule.deep_view()
    }

    /// The number of steps logged.
    pub closed spec fn steps(&self) -> nat {
        self.step as nat
    }

    pub fn new() -> (h: Self)
        ensures
            h.wf(),
            h.steps() == 0,
            h.actions() == Seq::<Seq<char>>::empty(),
            h.rules() == Seq::<Seq<char>>::empty(),
    {
        let h = History { step: 0, rule: Vec::new(), action: Vec::new() };
        assert(h.action.deep_view() =~= Seq::<Seq<char>>::empty());
        assert(h.rule.deep_view() =~= Seq::<Seq<char>>::empty());
        h
    }

    /// Logs one step: the word looked at and the production applied.
    pub fn log(&mut self, word: &String, rule: &(String, Vec<String>))
        requires
            old(self).wf(),
        ensures
            final(self).wf(),
            final(self).steps() == old(self).steps() + 1,
            final(self).actions() == old(self).actions().push("Anazying "@ + word@),
            final(self).rules() == old(self).rules().push(
                rule_text(rule.0@, rule.1.deep_view()),
            ),
    {
        let mut w = owned("Anazying ");
        w.append(word.as_str());
        let ghost old_action = self.action.deep_view();
        self.action.push(w);
        assert(self.action.deep_view() =~= old_action.push("Anazying "@ + word@));
        let mut ru = rule.0.clone();
        ru.append("->");
        let n = rule.1.len();
        for i in 0..n
            invariant
                n == rule.1@.len(),
                ru@ == rule.0@ + "->"@ + join_all(rule.1.deep_view().take(i as int)),
        {
            ru.append(rule.1[i].as_str());
            assert(rule.1.deep_view().take(i + 1).drop_last() =~= rule.1.deep_view().take(
                i as int,
            ));
        }
        assert(rule.1.deep_view().take(n as int) =~= rule.1.deep_view());
        let ghost old_rule = self.rule.deep_view();
        self.rule.push(ru);
        assert(self.rule.deep_view() =~= old_rule.push(
            rule_text(rule.0@, rule.1.deep_view()),
        ));
        let len = self.action.len();
        assert(len == self.step + 1);
        self.step = self.step + 1;
    }

    /// The log as a table: a header line, then one line per step with its
    /// number, its action and its production.
    pub fn render(&self) -> (s: String)
        requires
            self.wf(),
        ensures
            s@ == "step\taction\trule\n"@ + history_lines(self.actions(), self.rules(), self.steps()),
    {
        let mut s = owned("step\taction\trule\n");
        let n = self.step;
        for i in 0..n
            invariant
                n == self.step,
                self.step == self.rule@.len(),
                self.step == self.action@.len(),
                s@ == "step\taction\trule\n"@ + history_lines(
                    self.actions(),
                    self.rules(),
                    i as nat,
                ),
        {
            let num = decimal_string(i);
            s.append(num.as_str());
            s.append("\t");
            s.append(self.action[i].as_str());
            s.append("\t");
            s.append(self.rule[i].as_str());
            s.append("\n");
            assert(self.actions()[i as int] == self.action@[i as int]@);
            assert(self.rules()[i as int] == self.rule@[i as int]@);
        }
        s
    }
}

} // verus!
