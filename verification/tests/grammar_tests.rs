use earlgrey::chart::Token;
use earlgrey::forest::{EarleyForest, EvalError};
use earlgrey::grammar::{GrammarBuilder, GrammarError, Pattern, Symbol};
use earlgrey::parser::Parser;
use earlgrey::trees::one_tree;

fn strings(v: &[&str]) -> Vec<String> {
    v.iter().map(|s| s.to_string()).collect()
}

fn sum_parser() -> Parser {
    let mut b = GrammarBuilder::new();
    b.symbol(Symbol::nonterminal("expr")).unwrap();
    b.symbol(Symbol::terminal("n", Pattern::Among("0123456789".chars().collect()))).unwrap();
    b.symbol(Symbol::terminal("+", Pattern::Exact("+".to_string()))).unwrap();
    b.rule("expr", &strings(&["expr", "+", "n"])).unwrap();
    b.rule("expr", &strings(&["n"])).unwrap();
    Parser::new(b.into_grammar("expr").unwrap())
}

fn sum_tokens(terms: usize) -> Vec<Token> {
    let mut out = vec![Token::new("n", "1")];
    for _ in 1..terms {
        out.push(Token::new("+", "+"));
        out.push(Token::new("n", "1"));
    }
    out
}

#[test]
fn builder_refuses_unknown_symbols() {
    let mut b = GrammarBuilder::new();
    b.symbol(Symbol::nonterminal("S")).unwrap();
    b.symbol(Symbol::terminal("a", Pattern::Any)).unwrap();
    match b.rule("T", &strings(&["a"])) {
        Err(GrammarError::UnknownSymbol(n)) => assert_eq!(n, "T"),
        _ => panic!("expected an unknown head"),
    }
    match b.rule("a", &strings(&["a"])) {
        Err(GrammarError::UnknownSymbol(n)) => assert_eq!(n, "a"),
        _ => panic!("expected a refused terminal head"),
    }
    match b.rule("S", &strings(&["a", "x", "y"])) {
        Err(GrammarError::UnknownSymbol(n)) => assert_eq!(n, "x"),
        _ => panic!("expected an unknown body symbol"),
    }
    assert_eq!(b.rules.len(), 0);
}

#[test]
fn builder_accepts_same_symbol_twice_and_refuses_another() {
    let mut b = GrammarBuilder::new();
    b.symbol(Symbol::terminal("a", Pattern::Exact("a".to_string()))).unwrap();
    b.symbol(Symbol::terminal("a", Pattern::Exact("a".to_string()))).unwrap();
    assert_eq!(b.symbols.len(), 1);
    match b.symbol(Symbol::terminal("a", Pattern::Any)) {
        Err(GrammarError::DuplicateSymbol(n)) => assert_eq!(n, "a"),
        _ => panic!("expected a duplicate"),
    }
    match b.symbol(Symbol::nonterminal("a")) {
        Err(GrammarError::DuplicateSymbol(n)) => assert_eq!(n, "a"),
        _ => panic!("expected a duplicate"),
    }
    assert_eq!(b.symbols.len(), 1);
}

#[test]
fn builder_refuses_bad_start() {
    let mut b = GrammarBuilder::new();
    b.symbol(Symbol::nonterminal("S")).unwrap();
    b.symbol(Symbol::terminal("a", Pattern::Any)).unwrap();
    match b.into_grammar("a") {
        Err(GrammarError::BadStart(n)) => assert_eq!(n, "a"),
        _ => panic!("expected a bad start"),
    }
    let b = GrammarBuilder::new();
    match b.into_grammar("S") {
        Err(e) => assert_eq!(e.message(), "Bad start symbol: S"),
        _ => panic!("expected a bad start"),
    }
}

#[test]
fn rules_have_canonical_names_and_no_duplicates() {
    let mut b = GrammarBuilder::new();
    b.symbol(Symbol::nonterminal("S")).unwrap();
    b.symbol(Symbol::terminal("a", Pattern::Any)).unwrap();
    b.rule("S", &strings(&["S", "a", "a"])).unwrap();
    b.rule("S", &strings(&[])).unwrap();
    b.rule("S", &strings(&["a"])).unwrap();
    b.rule("S", &strings(&["S", "a", "a"])).unwrap();
    let g = b.into_grammar("S").unwrap();
    assert_eq!(g.rules.len(), 3);
    assert_eq!(g.rule_name(0), "S -> S a a");
    assert_eq!(g.rule_name(1), "S -> ");
    assert_eq!(g.rule_name(2), "S -> a");
    assert_eq!(g.rules_for("S"), vec![0, 1, 2]);
    assert_eq!(g.rules_for("a"), Vec::<usize>::new());
    assert!(g.is_terminal("a"));
    assert!(!g.is_terminal("S"));
    assert!(!g.is_terminal("b"));
    assert!(g.matches("a", "anything"));
    assert!(!g.matches("S", "a"));
}

#[test]
fn patterns_accept_what_they_say() {
    let among = Pattern::Among(vec!['a', 'b']);
    assert!(among.matches(&"abba".to_string()));
    assert!(!among.matches(&"abc".to_string()));
    assert!(!among.matches(&"".to_string()));
    assert!(Pattern::Exact("x".to_string()).matches(&"x".to_string()));
    assert!(!Pattern::Exact("x".to_string()).matches(&"xx".to_string()));
    assert!(Pattern::Any.matches(&"".to_string()));
    assert!(among.same(&among.duplicate()));
    assert!(!among.same(&Pattern::Among(vec!['a'])));
    assert!(!among.same(&Pattern::Any));
}

#[test]
fn stack_evaluation_agrees_with_recursion() {
    let p = sum_parser();
    let state = p.parse(sum_tokens(5)).unwrap();
    let mut forest: EarleyForest<String, _, Box<dyn Fn(Vec<String>) -> String>> =
        EarleyForest::new(|sym: &str, lex: &str| format!("{}:{}", sym, lex));
    forest.action("expr -> expr + n", Box::new(|a: Vec<String>| format!("[{} {} {}]", a[0], a[1], a[2])));
    forest.action("expr -> n", Box::new(|a: Vec<String>| format!("<{}>", a[0])));
    let by_stack = forest.eval(&state).unwrap();
    let by_recursion = forest.eval_recursive(&state).unwrap();
    assert_eq!(by_stack, by_recursion);
    assert_eq!(by_stack, "[[[[<n:1> +:+ n:1] +:+ n:1] +:+ n:1] +:+ n:1]");
    let again = p.parse(sum_tokens(5)).unwrap();
    assert_eq!(forest.eval(&again).unwrap(), by_stack);
    assert_eq!(format!("{:?}", one_tree(&again)), format!("{:?}", one_tree(&state)));
}

#[test]
fn stack_evaluation_handles_long_left_recursion() {
    let p = sum_parser();
    let state = p.parse(sum_tokens(400)).unwrap();
    let mut forest: EarleyForest<u64, _, Box<dyn Fn(Vec<u64>) -> u64>> =
        EarleyForest::new(|sym: &str, lex: &str| if sym == "n" { lex.parse().unwrap() } else { 0 });
    forest.action("expr -> expr + n", Box::new(|a: Vec<u64>| a[0] + a[2]));
    forest.action("expr -> n", Box::new(|a: Vec<u64>| a[0]));
    assert_eq!(forest.eval(&state).unwrap(), 400);
}

#[test]
fn later_action_replaces_earlier() {
    let p = sum_parser();
    let state = p.parse(sum_tokens(1)).unwrap();
    let mut forest: EarleyForest<u64, _, Box<dyn Fn(Vec<u64>) -> u64>> =
        EarleyForest::new(|_: &str, _: &str| 1);
    forest.action("expr -> n", Box::new(|_: Vec<u64>| 10));
    forest.action("expr -> n", Box::new(|_: Vec<u64>| 20));
    assert_eq!(forest.eval(&state).unwrap(), 20);
    assert_eq!(forest.eval_recursive(&state).unwrap(), 20);
}

#[test]
fn stack_evaluation_reports_missing_action() {
    let p = sum_parser();
    let state = p.parse(sum_tokens(2)).unwrap();
    let mut forest: EarleyForest<u64, _, Box<dyn Fn(Vec<u64>) -> u64>> =
        EarleyForest::new(|_: &str, _: &str| 1);
    forest.action("expr -> n", Box::new(|a: Vec<u64>| a[0]));
    match forest.eval(&state) {
        Err(EvalError::MissingAction(rule)) => assert_eq!(rule, "expr -> expr + n"),
        _ => panic!("expected a missing action"),
    }
    match forest.eval_all_recursive(&state) {
        Err(e) => assert_eq!(e.message(), "Missing Action: expr -> expr + n"),
        _ => panic!("expected a missing action"),
    }
}

#[test]
fn circular_grammar_is_reported() {
    let mut b = GrammarBuilder::new();
    b.symbol(Symbol::nonterminal("A")).unwrap();
    b.symbol(Symbol::terminal("a", Pattern::Any)).unwrap();
    b.rule("A", &strings(&["A"])).unwrap();
    b.rule("A", &strings(&["a"])).unwrap();
    let p = Parser::new(b.into_grammar("A").unwrap());
    let state = p.parse(vec![Token::new("a", "a")]).unwrap();
    assert_eq!(state.len(), 2);
    let mut forest: EarleyForest<u64, _, Box<dyn Fn(Vec<u64>) -> u64>> =
        EarleyForest::new(|_: &str, _: &str| 1);
    forest.action("A -> A", Box::new(|a: Vec<u64>| a[0]));
    forest.action("A -> a", Box::new(|a: Vec<u64>| a[0]));
    assert!(matches!(forest.eval_all_recursive(&state), Err(EvalError::Cyclic)));
}

#[test]
fn spans_are_not_repeated() {
    let p = sum_parser();
    let state = p.parse(sum_tokens(6)).unwrap();
    let mut keys: Vec<(usize, usize, usize, usize)> =
        state.chart.spans.iter().map(|s| (s.rule, s.dot, s.origin, s.end)).collect();
    let n = keys.len();
    keys.sort();
    keys.dedup();
    assert_eq!(keys.len(), n);
}
