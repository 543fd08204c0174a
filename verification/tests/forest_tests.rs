use earlgrey::chart::Token;
use earlgrey::forest::{EarleyForest, EvalError};
use earlgrey::grammar::{Grammar, GrammarBuilder, Pattern, Symbol};
use earlgrey::parser::{ParseError, Parser};
use earlgrey::trees::{all_trees, one_tree};

fn exact(builder: &mut GrammarBuilder, text: &str) {
    builder.symbol(Symbol::terminal(text, Pattern::Exact(text.to_string()))).unwrap();
}

fn rule(builder: &mut GrammarBuilder, head: &str, body: &[&str]) {
    let body: Vec<String> = body.iter().map(|s| s.to_string()).collect();
    builder.rule(head, &body).unwrap();
}

fn words(input: &str) -> Vec<Token> {
    input.split_whitespace().map(|w| Token::new(w, w)).collect()
}

fn nullable_grammar() -> Grammar {
    let mut b = GrammarBuilder::new();
    b.symbol(Symbol::nonterminal("S")).unwrap();
    b.symbol(Symbol::nonterminal("A")).unwrap();
    exact(&mut b, "x");
    rule(&mut b, "S", &["A", "A"]);
    rule(&mut b, "A", &["x"]);
    rule(&mut b, "A", &[]);
    b.into_grammar("S").unwrap()
}

fn ambiguous_grammar() -> Grammar {
    let mut b = GrammarBuilder::new();
    b.symbol(Symbol::nonterminal("S")).unwrap();
    exact(&mut b, "a");
    rule(&mut b, "S", &["S", "S"]);
    rule(&mut b, "S", &["a"]);
    b.into_grammar("S").unwrap()
}

#[test]
fn nullable_empty_input_has_one_tree() {
    let p = Parser::new(nullable_grammar());
    let trees = p.parse(words("")).unwrap();
    let all = all_trees(&trees).unwrap();
    assert_eq!(
        format!("{:?}", all),
        r#"[Node("S -> A A", [Node("A -> ", []), Node("A -> ", [])])]"#
    );
}

#[test]
fn nullable_single_token_has_two_trees() {
    let p = Parser::new(nullable_grammar());
    let trees = p.parse(words("x")).unwrap();
    let all = all_trees(&trees).unwrap();
    assert_eq!(all.len(), 2);
    let shown: Vec<String> = all.iter().map(|t| format!("{:?}", t)).collect();
    assert!(shown.contains(&r#"Node("S -> A A", [Node("A -> x", [Leaf("x", "x")]), Node("A -> ", [])])"#.to_string()));
    assert!(shown.contains(&r#"Node("S -> A A", [Node("A -> ", []), Node("A -> x", [Leaf("x", "x")])])"#.to_string()));
}

#[test]
fn ambiguous_grammar_has_two_trees_for_three_tokens() {
    let p = Parser::new(ambiguous_grammar());
    let trees = p.parse(words("a a a")).unwrap();
    let all = all_trees(&trees).unwrap();
    assert_eq!(all.len(), 2);
    let shown: Vec<String> = all.iter().map(|t| format!("{:?}", t)).collect();
    let a = r#"Node("S -> a", [Leaf("a", "a")])"#;
    let left = format!(r#"Node("S -> S S", [Node("S -> S S", [{a}, {a}]), {a}])"#);
    let right = format!(r#"Node("S -> S S", [{a}, Node("S -> S S", [{a}, {a}])])"#);
    assert!(shown.contains(&left));
    assert!(shown.contains(&right));
    assert!(one_tree(&trees).is_some());
}

#[test]
fn unexpected_token_names_column_and_lexeme() {
    let p = Parser::new(ambiguous_grammar());
    match p.parse(words("a b")) {
        Err(ParseError::UnexpectedToken(col, lex)) => {
            assert_eq!(col, 1);
            assert_eq!(lex, "b");
        }
        _ => panic!("expected an unexpected token"),
    }
}

#[test]
fn unexpected_end_names_last_column() {
    let mut b = GrammarBuilder::new();
    b.symbol(Symbol::nonterminal("S")).unwrap();
    exact(&mut b, "a");
    exact(&mut b, "b");
    rule(&mut b, "S", &["a", "b"]);
    let p = Parser::new(b.into_grammar("S").unwrap());
    match p.parse(words("a")) {
        Err(ParseError::UnexpectedEnd(col)) => assert_eq!(col, 1),
        _ => panic!("expected an unexpected end"),
    }
}

#[test]
fn eval_all_counts_ambiguous_trees() {
    let p = Parser::new(ambiguous_grammar());
    let trees = p.parse(words("a a a")).unwrap();
    let mut forest: EarleyForest<String, _, Box<dyn Fn(Vec<String>) -> String>> =
        EarleyForest::new(|_sym: &str, lex: &str| lex.to_string());
    forest.action("S -> S S", Box::new(|args: Vec<String>| format!("({} {})", args[0], args[1])));
    forest.action("S -> a", Box::new(|mut args: Vec<String>| args.swap_remove(0)));
    let all = forest.eval_all_recursive(&trees).unwrap();
    assert_eq!(all.len(), 2);
    assert!(all.contains(&"((a a) a)".to_string()));
    assert!(all.contains(&"(a (a a))".to_string()));
    assert_eq!(forest.eval_recursive(&trees).unwrap(), all[0]);
    assert!(forest.num_trees().is_none());
}

#[test]
fn missing_action_is_reported_by_rule_name() {
    let p = Parser::new(ambiguous_grammar());
    let trees = p.parse(words("a")).unwrap();
    let forest: EarleyForest<String, _, Box<dyn Fn(Vec<String>) -> String>> =
        EarleyForest::new(|_sym: &str, lex: &str| lex.to_string());
    match forest.eval_recursive(&trees) {
        Err(EvalError::MissingAction(rule)) => assert_eq!(rule, "S -> a"),
        _ => panic!("expected a missing action"),
    }
}

#[test]
fn the_two_evaluators_meet_missing_actions_from_opposite_ends() {
    let mut b = GrammarBuilder::new();
    b.symbol(Symbol::nonterminal("S")).unwrap();
    b.symbol(Symbol::nonterminal("A")).unwrap();
    b.symbol(Symbol::nonterminal("B")).unwrap();
    exact(&mut b, "a");
    exact(&mut b, "b");
    rule(&mut b, "S", &["A", "B"]);
    rule(&mut b, "A", &["a"]);
    rule(&mut b, "B", &["b"]);
    let p = Parser::new(b.into_grammar("S").unwrap());
    let trees = p.parse(words("a b")).unwrap();
    let forest: EarleyForest<String, _, Box<dyn Fn(Vec<String>) -> String>> =
        EarleyForest::new(|_sym: &str, lex: &str| lex.to_string());
    match forest.eval_recursive(&trees) {
        Err(EvalError::MissingAction(rule)) => assert_eq!(rule, "A -> a"),
        _ => panic!("expected a missing action"),
    }
    match forest.eval(&trees) {
        Err(EvalError::MissingAction(rule)) => assert_eq!(rule, "B -> b"),
        _ => panic!("expected a missing action"),
    }
}

#[test]
fn action_is_called_once_for_each_complete_span() {
    let p = Parser::new(ambiguous_grammar());
    let trees = p.parse(words("a")).unwrap();
    let calls = std::cell::Cell::new(0u32);
    let mut forest = EarleyForest::new(|_sym: &str, lex: &str| lex.to_string());
    forest.action("S -> a", |mut args: Vec<String>| {
        calls.set(calls.get() + 1);
        args.swap_remove(0)
    });
    assert_eq!(forest.eval(&trees).unwrap(), "a");
    assert_eq!(calls.get(), 1);
    assert_eq!(forest.eval_recursive(&trees).unwrap(), "a");
    assert_eq!(calls.get(), 2);
}

#[test]
fn forest_lists_every_bracketing_once() {
    let p = Parser::new(ambiguous_grammar());
    for (n, count) in [(1usize, 1usize), (2, 1), (3, 2), (4, 5), (5, 14)] {
        let input = vec!["a"; n].join(" ");
        let trees = p.parse(words(&input)).unwrap();
        let mut shown: Vec<String> = all_trees(&trees).unwrap().iter().map(|t| format!("{:?}", t)).collect();
        assert_eq!(shown.len(), count);
        shown.sort();
        shown.dedup();
        assert_eq!(shown.len(), count);
    }
}
