use grammar_analyzer::ff::{ff_check, first_check, segment, Table, FF};
use grammar_analyzer::history::History;
use grammar_analyzer::language::{conf_check, Language};
use grammar_analyzer::lr::{augment, lr_check, lr_words, AnalyzeTable, Gen, Outcome, GO, LR};
use grammar_analyzer::text::{decimal_string, parse_usize};

fn ll_language() -> Language {
    let mut lg = Language::start();
    lg.new(
        "language.txt",
        "E TG\nG +TG|nil\nT FS\nS *FS|nil\nF (E)|i",
        "i + * ( ) nil",
        "E G T S F",
    );
    lg
}

fn single_language() -> Language {
    let mut lg = Language::start();
    lg.new("language.txt", "S a", "a", "S");
    lg
}

#[test]
fn test_builder() {
    let mut ff = FF::new(ll_language());
    let st = ff.analyze("i+i*(i+i)#".to_owned());
    assert!(st.contains("Succeed"));
}

#[test]
fn language_reads_productions() {
    let lg = ll_language();
    assert_eq!(lg.first_word, "E");
    assert_eq!(lg.twords, vec!["i", "+", "*", "(", ")", "nil"]);
    assert_eq!(lg.ntwords, vec!["E", "G", "T", "S", "F"]);
    assert_eq!(lg.words.len(), 11);
    assert_eq!(lg.words[0], "E");
    let g = lg.lg.get(&"G".to_owned()).unwrap();
    assert_eq!(g.len(), 2);
    assert_eq!(g[0], vec!["+", "T", "G"]);
    assert_eq!(g[1], vec!["nil"]);
    let f = lg.lg.get(&"F".to_owned()).unwrap();
    assert_eq!(f[0], vec!["(", "E", ")"]);
    assert_eq!(f[1], vec!["i"]);
}

#[test]
fn language_later_lines_come_first() {
    let mut lg = Language::start();
    lg.new("g.txt", "A a\nA b", "a b", "A");
    let a = lg.lg.get(&"A".to_owned()).unwrap();
    assert_eq!(a.len(), 2);
    assert_eq!(a[0], vec!["b"]);
    assert_eq!(a[1], vec!["a"]);
}

#[test]
fn first_sets_of_expression_grammar() {
    let ff = FF::new(ll_language());
    let e = ff.first_of(&"E".to_owned()).unwrap();
    assert!(e.contains(&"(".to_owned()));
    assert!(e.contains(&"i".to_owned()));
    assert_eq!(e.len(), 2);
    let g = ff.first_of(&"G".to_owned()).unwrap();
    assert!(g.contains(&"+".to_owned()));
    assert!(g.contains(&"nil".to_owned()));
    assert_eq!(g.len(), 2);
    assert!(ff.first_of(&"x".to_owned()).is_none());
}

#[test]
fn ll_analysis_rejects_bad_sentence() {
    let mut ff = FF::new(ll_language());
    let st = ff.analyze("i+*i#".to_owned());
    assert!(st.starts_with("Error when looking "));
    assert!(!st.contains("Succeed"));
}

#[test]
fn ll_analysis_logs_history() {
    let mut ff = FF::new(ll_language());
    let st = ff.analyze("i#".to_owned());
    assert_eq!(st, "Succeed");
    let h = ff.get_history();
    assert!(h.starts_with("step\taction\trule\n"));
    assert!(h.contains("0\tAnazying i\tE->TG\n"));
}

#[test]
fn history_log_and_render() {
    let mut h = History::new();
    h.log(&"i".to_owned(), &("E".to_owned(), vec!["T".to_owned(), "G".to_owned()]));
    h.log(&"+".to_owned(), &("G".to_owned(), vec!["+".to_owned(), "T".to_owned(), "G".to_owned()]));
    assert_eq!(
        h.render(),
        "step\taction\trule\n0\tAnazying i\tE->TG\n1\tAnazying +\tG->+TG\n"
    );
}

#[test]
fn parse_and_print_numbers() {
    assert_eq!(parse_usize(&"42".to_owned()), Some(42));
    assert_eq!(parse_usize(&"+7".to_owned()), Some(7));
    assert_eq!(parse_usize(&"4a".to_owned()), None);
    assert_eq!(parse_usize(&"".to_owned()), None);
    assert_eq!(decimal_string(1203), "1203");
    assert_eq!(decimal_string(0), "0");
}

#[test]
fn gen_places_and_moves() {
    let src = ("E".to_owned(), vec!["E".to_owned(), "+".to_owned(), "T".to_owned()]);
    let mut g = Gen::new(&src, None, 1);
    assert_eq!(g.ahead, "#");
    assert_eq!(g.len, 3);
    assert_eq!(g.get_current_place(), "+");
    assert_eq!(g.get_next_place(), "T");
    assert!(g.move_to_next());
    assert_eq!(g.p, 2);
    assert_eq!(g.get_current_place(), "T");
    assert_eq!(g.get_next_place(), "#");
    assert!(g.move_to_next());
    assert_eq!(g.get_current_place(), "#");
    assert!(!g.move_to_next());
    assert_eq!(g.p, 3);
    let h = Gen::new(&src, Some("i".to_owned()), 0);
    assert_eq!(h.ahead, "i");
}

#[test]
fn lr_analysis_accepts_sentence() {
    let mut at = AnalyzeTable::new(&single_language()).unwrap();
    let r = at.analyze("a".to_owned());
    assert_eq!(r, Some("Succeed".to_owned()));
    assert_eq!(
        at.get_history(),
        "\tword_stack\tstatus_stack\tinput\n0\t #\t 1\t a #\n1\t # a\t 1 0\t #\n2\t # S\t 1 2\t #\n"
    );
}

#[test]
fn lr_analysis_rejects_sentence() {
    let mut at = AnalyzeTable::new(&single_language()).unwrap();
    let r = at.analyze("aa".to_owned());
    assert_eq!(
        r,
        Some(
            "history is:\n\tword_stack\tstatus_stack\tinput\n0\t #\t 1\t a a #\n1\t # a\t 1 0\t a #\nError When Processing a"
                .to_owned()
        )
    );
}

#[test]
fn lr_analysis_stops_on_unknown_word() {
    let mut at = AnalyzeTable::new(&single_language()).unwrap();
    assert_eq!(at.analyze("b".to_owned()), None);
}

#[test]
fn gen_render_marks_the_dot() {
    let src = ("E".to_owned(), vec!["E".to_owned(), "+".to_owned(), "T".to_owned()]);
    assert_eq!(Gen::new(&src, None, 1).render(), "E ->E·+T , #");
    assert_eq!(Gen::new(&src, Some("i".to_owned()), 3).render(), "E ->E+T· , i");
    assert_eq!(Gen::new(&src, None, 0).render(), "E ->·E+T , #");
}

#[test]
fn table_cells_and_render() {
    let mut t = Table::new(vec!["a".to_owned(), "b".to_owned()], vec!["S".to_owned()]);
    assert_eq!(t.index(&("S".to_owned(), "a".to_owned())).0, "Err");
    assert_eq!(t.index(&("S".to_owned(), "b".to_owned())).0, "Err");
    t.insert(("S".to_owned(), "a".to_owned()), ("S".to_owned(), vec!["a".to_owned()]));
    assert_eq!(t.index(&("S".to_owned(), "a".to_owned())).1, vec!["a".to_owned()]);
    assert_eq!(t.render(), "***\ta\t#\t\nS\tS->a\tErr\t\n\n");
}

#[test]
fn ff_render_lists_sets_and_table() {
    let ff = FF::new(single_language());
    assert_eq!(
        ff.render(),
        "First collection is:\nS\t[\"a\"]\n\n\nFollow collection is:\nS\t[\"#\"]\n\n\nTable is:\n***\t#\t\nS\tErr\t\n\n"
    );
}

#[test]
fn lr_item_sets_of_single_rule() {
    let mut lr = LR::new(&single_language());
    let text = lr.render();
    assert!(text.contains("closeure0:\n"));
    let go = GO::new(&mut lr).unwrap();
    assert_eq!(go.render(), "c1 --S-> c2\nc1 --a-> c0\n");
    let text = lr.render();
    assert!(text.ends_with(
        "closeure0:\nS ->a· , #\n\ncloseure1:\n'S ->·S , #\nS ->·a , #\n\ncloseure2:\n'S ->S· , #\n\n"
    ));
}

#[test]
fn analyze_table_render_rows() {
    let at = AnalyzeTable::new(&single_language()).unwrap();
    let text = at.render();
    assert!(text.ends_with(
        "closeure2:\n'S ->S· , #\n\n\n \ta\t#\tS\t'S\t\n0\te\tr:S-0\te\te\t\n1\ts0\te\t2\te\t\n2\te\tr:acc\te\te\t\n"
    ));
}

#[test]
fn decimal_text_parses_back() {
    for n in [0usize, 7, 10, 99, 1203, 65536, usize::MAX] {
        assert_eq!(parse_usize(&decimal_string(n)), Some(n));
    }
}

#[test]
fn segmenting_keeps_the_text() {
    let dict: Vec<String> = vec!["i".to_owned(), "+".to_owned(), "ab".to_owned()];
    let w = segment(&"i+abi+a".to_owned(), &dict);
    assert_eq!(w, vec!["i", "+", "ab", "i", "+"]);
    let lw = lr_words(&"i+abi+a".to_owned(), &dict);
    assert_eq!(lw, vec!["i", "+", "ab", "i", "+", "a", "#"]);
    assert_eq!(lw[..lw.len() - 1].concat(), "i+abi+a");
    assert_eq!(lr_words(&"".to_owned(), &dict), vec!["#"]);
}

#[test]
fn readiness_checks() {
    assert!(conf_check("E TG\nG +TG|nil"));
    assert!(!conf_check("E TG\nG"));
    let lg = ll_language();
    assert!(first_check(&lg));
    assert!(ff_check(&lg));
    let mut bad = Language::start();
    bad.new("g.txt", "S AB", "a", "S A B");
    assert!(!first_check(&bad));
    assert!(!ff_check(&bad));
    let mut no_terminal_follow = Language::start();
    no_terminal_follow.new("g.txt", "S a", "a", "S");
    assert!(ff_check(&no_terminal_follow));
}

#[test]
fn lr_readiness_and_augmenting() {
    let lg = single_language();
    let aug = augment(&lg);
    assert_eq!(aug.first_word, "'S");
    assert_eq!(aug.ntwords, vec!["S", "'S"]);
    assert_eq!(aug.words, vec!["S", "a", "'S"]);
    assert_eq!(aug.lg.get(&"'S".to_owned()).unwrap(), &vec![vec!["S".to_owned()]]);
    assert!(lr_check(&lg));
    let mut unused = Language::start();
    unused.new("g.txt", "S a", "a", "S B");
    assert!(ff_check(&unused));
    assert!(lr_check(&unused));
    let mut asked = Language::start();
    asked.new("g.txt", "S aA\nA a", "a", "S A B");
    assert!(ff_check(&asked));
    assert!(!lr_check(&asked));
}

#[test]
fn lr_accepts_nonterminal_without_productions() {
    let mut lg = Language::start();
    lg.new("g.txt", "S aBc", "a c", "S B");
    assert!(ff_check(&lg));
    assert!(lr_check(&lg));
    let _ = AnalyzeTable::new(&lg);
}

#[test]
fn lr_analyser_first_lists() {
    let lr = LR::new(&single_language());
    let text = lr.ll.render();
    assert!(text.starts_with("First collection is:\nS\t[\"a\"]\n'S\t[\"a\"]\n"));
    assert!(text.contains("Follow collection is:\nS\t[\"#\"]\n'S\t[\"#\"]\n"));
}

#[test]
fn table_store_overwrites_one_cell() {
    let mut t = Table::new(vec!["a".to_owned(), "b".to_owned()], vec!["S".to_owned(), "T".to_owned()]);
    t.insert(("S".to_owned(), "a".to_owned()), ("S".to_owned(), vec!["a".to_owned()]));
    t.insert(("S".to_owned(), "a".to_owned()), ("S".to_owned(), vec!["b".to_owned()]));
    assert_eq!(t.index(&("S".to_owned(), "a".to_owned())).1, vec!["b".to_owned()]);
    assert_eq!(t.index(&("T".to_owned(), "#".to_owned())).0, "Err");
    assert_eq!(t.index(&("X".to_owned(), "y".to_owned())).0, "Err");
    assert!(t.index(&("X".to_owned(), "y".to_owned())).1.is_empty());
}

#[test]
fn lr_steps_with_given_pattern_results() {
    let at = AnalyzeTable::new(&single_language()).unwrap();
    let sen = vec!["a".to_owned(), "#".to_owned()];
    let ws = vec!["#".to_owned()];
    match at.step_with(&sen, &ws, &vec![1], 0, false, None, None) {
        Outcome::Next(w2, s2, i2) => {
            assert_eq!(w2, vec!["#", "a"]);
            assert_eq!(s2, vec![1, 0]);
            assert_eq!(i2, 1);
        },
        _ => panic!("a shift was expected"),
    }
    let ws1 = vec!["#".to_owned(), "a".to_owned()];
    match at.step_with(&sen, &ws1, &vec![1, 0], 1, true, Some("0".to_owned()), Some("S".to_owned())) {
        Outcome::Next(w2, s2, i2) => {
            assert_eq!(w2, vec!["#", "S"]);
            assert_eq!(s2, vec![1, 2]);
            assert_eq!(i2, 1);
        },
        _ => panic!("a reduction was expected"),
    }
    assert!(matches!(
        at.step_with(&sen, &ws1, &vec![1, 0], 1, true, Some("0".to_owned()), None),
        Outcome::Stuck
    ));
    assert!(matches!(
        at.reduce_with(&ws1, &vec![1, 0], 1, Some("1".to_owned()), Some("S".to_owned())),
        Outcome::Stuck
    ));
    let ws2 = vec!["#".to_owned(), "S".to_owned()];
    assert!(matches!(at.step_with(&sen, &ws2, &vec![1, 2], 1, false, None, None), Outcome::Accept));
    assert!(matches!(at.step_with(&sen, &ws, &vec![1], 1, false, None, None), Outcome::Reject));
    assert!(matches!(at.step_with(&sen, &ws, &vec![1], 2, false, None, None), Outcome::Stuck));
}

#[test]
fn follow_sets_of_expression_grammar() {
    let ff = FF::new(ll_language());
    let text = ff.render();
    assert!(text.contains("\n\nFollow collection is:\nE\t[\"#\", \")\"]\nG\t[\"#\", \")\"]\nT\t[\"#\", \"+\", \")\"]\nS\t[\"#\", \"+\", \")\"]\nF\t[\"#\", \"*\", \"+\", \")\"]\n"));
    assert!(text.starts_with("First collection is:\nE\t[\"(\", \"i\"]\n"));
}
