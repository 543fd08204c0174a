use earlgrey::chart::Token;
use earlgrey::ebnf::{EbnfError, ParserBuilder};
use earlgrey::ebnf_tokenizer::EbnfTokenizer;
use earlgrey::forest::EarleyForest;
use earlgrey::grammar::{GrammarError, Pattern};
use earlgrey::trees::all_trees;

fn tokens_of(input: &str) -> Vec<Token> {
    input.split(' ').filter(|w| !w.is_empty()).map(|w| Token::new(w, w)).collect()
}

fn lex(text: &str) -> Vec<String> {
    let mut t = EbnfTokenizer::new(text);
    let mut out = Vec::new();
    while let Some(tok) = t.next() {
        out.push(tok);
    }
    out
}

#[test]
fn test_minimal_parser() {
    let g = r#" Number := "0" ; "#;
    let p = ParserBuilder::new(&g).into_parser("Number").unwrap();
    let state = p.parse(tokens_of("0")).unwrap();
    let trees = all_trees(&state).unwrap();
    assert_eq!(format!("{:?}", trees),
               r#"[Node("Number -> 0", [Leaf("0", "0")])]"#);
    assert_eq!(p.grammar.start(), "Number");
}

#[test]
fn test_arith_parser() {
    let g = r#"
        expr := Number
              | expr "+" Number ;

        Number := "0" | "1" | "2" | "3" ;
    "#;
    let p = ParserBuilder::new(&g).into_parser("expr").unwrap();
    let state = p.parse(tokens_of("3 + 2 + 1")).unwrap();
    let trees = all_trees(&state).unwrap();
    assert_eq!(format!("{:?}", trees),
               r#"[Node("expr -> expr + Number", [Node("expr -> expr + Number", [Node("expr -> Number", [Node("Number -> 3", [Leaf("3", "3")])]), Leaf("+", "+"), Node("Number -> 2", [Leaf("2", "2")])]), Leaf("+", "+"), Node("Number -> 1", [Leaf("1", "1")])])]"#);
}

#[test]
fn test_repetition() {
    let g = r#"
        arg := b { "," b } ;
        b := "0" | "1" ;
    "#;
    let p = ParserBuilder::new(&g).into_parser("arg").unwrap();
    let state = p.parse(tokens_of("1 , 0 , 1")).unwrap();
    let trees = all_trees(&state).unwrap();
    assert_eq!(format!("{:?}", trees),
               r#"[Node("arg -> b <Uniq-2>", [Node("b -> 1", [Leaf("1", "1")]), Node("<Uniq-2> -> , b <Uniq-2>", [Leaf(",", ","), Node("b -> 0", [Leaf("0", "0")]), Node("<Uniq-2> -> , b <Uniq-2>", [Leaf(",", ","), Node("b -> 1", [Leaf("1", "1")]), Node("<Uniq-2> -> ", [])])])])]"#);
}

#[test]
fn test_option() {
    let g = r#"
        complex := d [ "i" ];
        d := "0" | "1" | "2";
    "#;
    let p = ParserBuilder::new(&g).into_parser("complex").unwrap();
    let state = p.parse(tokens_of("1")).unwrap();
    let trees = all_trees(&state).unwrap();
    assert_eq!(format!("{:?}", trees),
               r#"[Node("complex -> d <Uniq-2>", [Node("d -> 1", [Leaf("1", "1")]), Node("<Uniq-2> -> ", [])])]"#);
    assert!(p.parse(tokens_of("2 i")).is_ok());
}

#[test]
fn test_group() {
    let g = r#"
        row := ("a" | "b") ("0" | "1") ;
    "#;
    let p = ParserBuilder::new(&g).into_parser("row").unwrap();
    let state = p.parse(tokens_of("b 1")).unwrap();
    let trees = all_trees(&state).unwrap();
    assert_eq!(format!("{:?}", trees),
               r#"[Node("row -> <Uniq-1> <Uniq-4>", [Node("<Uniq-1> -> b", [Leaf("b", "b")]), Node("<Uniq-4> -> 1", [Leaf("1", "1")])])]"#);
    assert!(p.parse(tokens_of("a 0")).is_ok());
}

#[test]
fn ambiguous_text_grammar_yields_two_values() {
    let p = ParserBuilder::new(r#" S := S S | "a" ; "#).into_parser("S").unwrap();
    let state = p.parse(tokens_of("a a a")).unwrap();
    let mut forest: EarleyForest<String, _, Box<dyn Fn(Vec<String>) -> String>> =
        EarleyForest::new(|_: &str, lex: &str| lex.to_string());
    forest.action("S -> S S", Box::new(|a: Vec<String>| format!("({}{})", a[0], a[1])));
    forest.action("S -> a", Box::new(|a: Vec<String>| a[0].clone()));
    let mut all = forest.eval_all_recursive(&state).unwrap();
    all.sort();
    assert_eq!(all, vec!["((aa)a)".to_string(), "(a(aa))".to_string()]);
}

#[test]
fn nullable_text_grammar_counts_trees() {
    let p = ParserBuilder::new(r#" S := A A ; A := "x" | ; "#).into_parser("S").unwrap();
    assert_eq!(all_trees(&p.parse(tokens_of("")).unwrap()).unwrap().len(), 1);
    assert_eq!(all_trees(&p.parse(tokens_of("x")).unwrap()).unwrap().len(), 2);
    assert_eq!(all_trees(&p.parse(tokens_of("x x")).unwrap()).unwrap().len(), 1);
    assert!(p.parse(tokens_of("x x x")).is_err());
}

#[test]
fn tokenizer_splits_punctuation_strings_and_names() {
    let toks = lex("# a comment\n expr := @num-1 { '+' \"in it\" } | [ (x_2) ] ; # tail");
    let want = vec![
        "expr", ":=", "@num-1", "{", "'", "+", "'", "\"", "in it", "\"", "}", "|", "[", "(", "x_2", ")", "]", ";",
    ];
    assert_eq!(toks, want);
}

#[test]
fn tokenizer_stops_before_what_begins_no_token() {
    assert_eq!(lex("a : b"), vec!["a"]);
    assert_eq!(lex("a 'open"), vec!["a"]);
    assert_eq!(lex("a 9b"), vec!["a"]);
    assert_eq!(lex("   "), Vec::<String>::new());
    assert_eq!(lex("a # no newline"), vec!["a"]);
}

#[test]
fn scanner_reads_peeks_and_gives_back() {
    let mut s = EbnfTokenizer::scanner("a := b ;");
    assert_eq!(s.peek().unwrap(), "a");
    assert_eq!(s.next().unwrap(), "a");
    assert_eq!(s.next().unwrap(), ":=");
    s.prev();
    assert_eq!(s.next().unwrap(), ":=");
    assert_eq!(s.next().unwrap(), "b");
    assert_eq!(s.next().unwrap(), ";");
    assert!(s.next().is_none());
    assert!(s.peek().is_none());
}

#[test]
fn syntax_errors_name_the_token() {
    match ParserBuilder::new("a b ;").into_parser("a") {
        Err(EbnfError::Syntax(at)) => assert_eq!(at, 1),
        _ => panic!("expected a syntax error"),
    }
    match ParserBuilder::new("a := b").into_parser("a") {
        Err(EbnfError::Syntax(at)) => assert_eq!(at, 3),
        _ => panic!("expected a syntax error"),
    }
    match ParserBuilder::new("a := b ;").into_parser("c") {
        Err(EbnfError::Grammar(GrammarError::BadStart(name))) => assert_eq!(name, "c"),
        _ => panic!("expected a bad start"),
    }
}

#[test]
fn plugged_terminals_are_used_by_name() {
    let mut b = ParserBuilder::new(r#" sum := num { "+" num } ; "#);
    b.plug_terminal("num", Pattern::Among("0123456789".chars().collect())).unwrap();
    let p = b.into_parser("sum").unwrap();
    let toks = vec![Token::new("num", "12"), Token::new("+", "+"), Token::new("num", "7")];
    let state = p.parse(toks).unwrap();
    let mut forest: EarleyForest<u64, _, Box<dyn Fn(Vec<u64>) -> u64>> =
        EarleyForest::new(|sym: &str, lex: &str| if sym == "num" { lex.parse().unwrap() } else { 0 });
    forest.action("sum -> num <Uniq-2>", Box::new(|a: Vec<u64>| a[0] + a[1]));
    forest.action("<Uniq-2> -> + num <Uniq-2>", Box::new(|a: Vec<u64>| a[1] + a[2]));
    forest.action("<Uniq-2> -> ", Box::new(|_: Vec<u64>| 0));
    assert_eq!(forest.eval(&state).unwrap(), 19);
    assert_eq!(forest.eval_recursive(&state).unwrap(), 19);
    assert!(p.parse(vec![Token::new("num", "1x")]).is_err());
    assert!(p.parse(vec![Token::new("word", "12")]).is_err());
}

#[test]
fn fresh_names_count_the_symbols() {
    let text = r#" s := "a" "b" "c" "d" "e" "f" "g" "h" "i" [ "j" ] ; "#;
    let p = ParserBuilder::new(text).into_parser("s").unwrap();
    let state = p.parse(tokens_of("a b c d e f g h i")).unwrap();
    let shown = format!("{:?}", all_trees(&state).unwrap());
    assert!(shown.starts_with(r#"[Node("s -> a b c d e f g h i <Uniq-10>""#));
    assert!(shown.ends_with(r#"Node("<Uniq-10> -> ", [])])]"#));
}

#[test]
fn text_and_identifier_of_one_name_collide() {
    match ParserBuilder::new(r#" a := "a" ; "#).into_parser("a") {
        Err(EbnfError::Grammar(GrammarError::DuplicateSymbol(name))) => assert_eq!(name, "a"),
        _ => panic!("expected a duplicate symbol"),
    }
}

#[test]
fn unclosed_bracket_is_a_syntax_error() {
    match ParserBuilder::new(r#" a := ( "x" ; "#).into_parser("a") {
        Err(EbnfError::Syntax(at)) => assert_eq!(at, 6),
        _ => panic!("expected a syntax error"),
    }
    match ParserBuilder::new(r#" a := ( "x" "#).into_parser("a") {
        Err(EbnfError::Syntax(at)) => assert_eq!(at, 6),
        _ => panic!("expected a syntax error"),
    }
}

#[test]
fn parse_accepts_exactly_the_language() {
    let p = ParserBuilder::new(r#" s := "(" s ")" s | ; "#).into_parser("s").unwrap();
    for (input, ok) in [("", true), ("( )", true), ("( ( ) ) ( )", true), ("( ( )", false), (") (", false), ("( ) )", false)] {
        assert_eq!(p.parse(tokens_of(input)).is_ok(), ok);
    }
}
