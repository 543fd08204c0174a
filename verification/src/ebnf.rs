//! Grammars written in EBNF: alternation, options, repetitions and groups
//! are rewritten into plain rules over fresh non-terminals.

use crate::ebnf_tokenizer::{texts_of, tokens_from, EbnfTokenizer, Scanner};
use crate::grammar::{
    find_symbol, index_of_name, same_text, texts, with_rule, with_symbol, Grammar, GrammarBuilder, GrammarError,
    GrammarErrorView, GrammarView, Pattern, PatternView, Symbol, SymbolKindView, SymbolView,
};
use crate::parser::Parser;
use vstd::prelude::*;

verus! {

/// Why grammar text was refused.
#[derive(Debug)]
pub enum EbnfError {
    /// The token at this place, counted from zero, cannot stand there; the
    /// number of tokens when the text ends too early.
    Syntax(usize),
    /// The text names its symbols in a way that the grammar refuses.
    Grammar(GrammarError),
}

/// The mathematical value of an `EbnfError`.
pub enum EbnfErrorView {
    Syntax(int),
    Grammar(GrammarErrorView),
}

impl View for EbnfError {
    type V = EbnfErrorView;

    open spec fn view(&self) -> EbnfErrorView {
        match self {
            EbnfError::Syntax(at) => EbnfErrorView::Syntax(*at as int),
            EbnfError::Grammar(e) => EbnfErrorView::Grammar(e@),
        }
    }
}

/// Whether `token` is one of the tokens that are no identifier.
pub open spec fn reserved(token: Seq<char>) -> bool {
    token == "["@ || token == "]"@ || token == "{"@ || token == "}"@ || token == "("@ || token == ")"@ || token
        == "|"@ || token == ";"@ || token == ":="@ || token == "\""@ || token == "'"@
}

/// The non-terminal called `name`.
pub open spec fn nonterminal_view(name: Seq<char>) -> SymbolView {
    SymbolView { name, kind: SymbolKindView::NonTerminal }
}

/// The terminal called `text` that accepts the lexeme `text`.
pub open spec fn literal_view(text: Seq<char>) -> SymbolView {
    SymbolView { name: text, kind: SymbolKindView::Terminal(PatternView::Exact(text)) }
}

/// The table after the identifier `name` was met: a name that is not yet
/// there becomes a non-terminal.
pub open spec fn with_mention(v: GrammarView, name: Seq<char>) -> GrammarView {
    if index_of_name(v.symbols, name) is Some {
        v
    } else {
        GrammarView { symbols: v.symbols.push(nonterminal_view(name)), rules: v.rules, start: v.start }
    }
}

/// The token that closes what `open` opens.
pub open spec fn closer_of(open: Seq<char>) -> Seq<char> {
    if open == "("@ {
        ")"@
    } else if open == "["@ {
        "]"@
    } else {
        "}"@
    }
}

/// What reading the alternatives of `head` from place `pos` on gives, with
/// `body` read so far of the current alternative: the place behind the
/// token `closer` and the symbols and rules then, or the first error.
/// Every alternative becomes a rule of `head`, ended by `head` itself
/// under `repeat`. A quoted text becomes a terminal for that text; an
/// identifier becomes a non-terminal unless it is known; a bracket
/// becomes a fresh non-terminal, named after the number of symbols at
/// that moment, with the alternatives inside as its rules, and with the
/// empty rule too for an option or a repetition.
pub open spec fn body_read(
    tokens: Seq<Seq<char>>,
    pos: int,
    v: GrammarView,
    body: Seq<Seq<char>>,
    head: Seq<char>,
    closer: Seq<char>,
    repeat: bool,
) -> Result<(int, GrammarView), EbnfErrorView>
    decreases tokens.len() - pos,
{
    if pos < 0 || pos >= tokens.len() {
        Err(EbnfErrorView::Syntax(pos))
    } else {
        let token = tokens[pos];
        if token == closer || token == "|"@ {
            match with_rule(
                v,
                head,
                if repeat {
                    body.push(head)
                } else {
                    body
                },
            ) {
                Err(e) => Err(EbnfErrorView::Grammar(e)),
                Ok(next) => if token == closer {
                    Ok((pos + 1, next))
                } else {
                    body_read(tokens, pos + 1, next, Seq::empty(), head, closer, repeat)
                },
            }
        } else if token == "\""@ || token == "'"@ {
            if pos + 2 >= tokens.len() {
                Err(EbnfErrorView::Syntax(pos))
            } else {
                match with_symbol(v, literal_view(tokens[pos + 1])) {
                    Err(e) => Err(EbnfErrorView::Grammar(e)),
                    Ok(next) => body_read(tokens, pos + 3, next, body.push(tokens[pos + 1]), head, closer, repeat),
                }
            }
        } else if token == "("@ || token == "["@ || token == "{"@ {
            let fresh = unique_name(v.symbols.len());
            match with_symbol(v, nonterminal_view(fresh)) {
                Err(e) => Err(EbnfErrorView::Grammar(e)),
                Ok(next) => match body_read(
                    tokens,
                    pos + 1,
                    next,
                    Seq::empty(),
                    fresh,
                    closer_of(token),
                    token == "{"@,
                ) {
                    Err(e) => Err(e),
                    Ok((behind, inner)) => if behind <= pos || behind > tokens.len() {
                        Err(EbnfErrorView::Syntax(pos))
                    } else if token == "("@ {
                        body_read(tokens, behind, inner, body.push(fresh), head, closer, repeat)
                    } else {
                        match with_rule(inner, fresh, Seq::empty()) {
                            Err(e) => Err(EbnfErrorView::Grammar(e)),
                            Ok(last) => body_read(tokens, behind, last, body.push(fresh), head, closer, repeat),
                        }
                    },
                },
            }
        } else if reserved(token) {
            Err(EbnfErrorView::Syntax(pos))
        } else {
            body_read(tokens, pos + 1, with_mention(v, token), body.push(token), head, closer, repeat)
        }
    }
}

/// What reading the productions `name := body ;` from place `pos` on
/// gives: the symbols and rules at the end of the tokens, or the first error.
pub open spec fn grammar_read(tokens: Seq<Seq<char>>, pos: int, v: GrammarView) -> Result<GrammarView, EbnfErrorView>
    decreases tokens.len() - pos,
{
    if pos < 0 || pos >= tokens.len() {
        Ok(v)
    } else if reserved(tokens[pos]) {
        Err(EbnfErrorView::Syntax(pos))
    } else if pos + 1 >= tokens.len() || tokens[pos + 1] != ":="@ {
        Err(EbnfErrorView::Syntax(pos + 1))
    } else {
        match body_read(tokens, pos + 2, with_mention(v, tokens[pos]), Seq::empty(), tokens[pos], ";"@, false) {
            Err(e) => Err(e),
            Ok((behind, next)) => if behind <= pos || behind > tokens.len() {
                Err(EbnfErrorView::Syntax(pos))
            } else {
                grammar_read(tokens, behind, next)
            },
        }
    }
}

/// The digit `d` as a character.
pub open spec fn digit(d: nat) -> char {
    "0123456789"@[d as int]
}

/// The decimal digits of `n`.
pub open spec fn decimal(n: nat) -> Seq<char>
    decreases n,
{
    if n < 10 {
        seq![digit(n)]
    } else {
        decimal(n / 10) + seq![digit(n % 10)]
    }
}

/// The name of the fresh non-terminal number `n`.
pub open spec fn unique_name(n: nat) -> Seq<char> {
    "<Uniq-"@ + decimal(n) + ">"@
}

/// Writes `n` in decimal digits.
pub fn write_decimal(n: usize) -> (r: String)
    ensures
        r@ == decimal(n as nat),
    decreases n,
{
    proof {
        reveal_strlit("0123456789");
    }
    let digits = "0123456789";
    if n < 10 {
        let d = digits.substring_char(n, n + 1).to_owned();
        assert(d@ =~= seq![digit(n as nat)]);
        d
    } else {
        let d = digits.substring_char(n % 10, n % 10 + 1);
        assert(d@ =~= seq![digit((n % 10) as nat)]);
        write_decimal(n / 10).concat(d)
    }
}

/// Writes the name of the fresh non-terminal number `n`.
pub fn write_unique_name(n: usize) -> (r: String)
    ensures
        r@ == unique_name(n as nat),
{
    let number = write_decimal(n);
    "<Uniq-".to_owned().concat(number.as_str()).concat(">")
}

/// Whether `token` is the text `text`.
pub fn is_text(token: &String, text: &str) -> (r: bool)
    ensures
        r == (token@ == text@),
{
    let other = text.to_owned();
    same_text(token, &other)
}

/// Whether `token` is one of the tokens that are no identifier.
pub fn is_reserved(token: &String) -> (r: bool)
    ensures
        r == reserved(token@),
{
    is_text(token, "[") || is_text(token, "]") || is_text(token, "{") || is_text(token, "}") || is_text(
        token,
        "(",
    ) || is_text(token, ")") || is_text(token, "|") || is_text(token, ";") || is_text(token, ":=") || is_text(
        token,
        "\"",
    ) || is_text(token, "'")
}

/// Adds `name` as a non-terminal unless a symbol of that name is there.
pub fn mention(builder: &mut GrammarBuilder, name: &String) -> (r: Result<(), GrammarError>)
    requires
        old(builder).wf(),
    ensures
        final(builder).wf(),
        r is Ok,
        final(builder)@ == with_mention(old(builder)@, name@),
{
    match find_symbol(&builder.symbols, name) {
        Some(i) => {
            assert(builder@.symbols[i as int].name == name@);
            Ok(())
        },
        None => {
            proof {
                assert forall|j: int| 0 <= j < builder@.symbols.len() implies (#[trigger] builder@.symbols[j]).name
                    != name@ by {
                    assert(builder.symbols@[j].name@ != name@);
                }
            }
            let r = builder.symbol(Symbol::nonterminal(name.as_str()));
            r
        },
    }
}

/// Reads the alternatives of `head` up to the token `closer` and adds a
/// rule for each. With `repeat`, `head` itself ends every alternative.
pub fn read_body(
    tokens: &mut Scanner,
    builder: &mut GrammarBuilder,
    head: &String,
    closer: &str,
    repeat: bool,
) -> (r: Result<(), EbnfError>)
    requires
        old(tokens).wf(),
        old(builder).wf(),
    ensures
        final(tokens).wf(),
        final(builder).wf(),
        final(tokens).buffer@ == old(tokens).buffer@,
        final(tokens).pos >= old(tokens).pos,
        r is Ok ==> final(tokens).pos > old(tokens).pos,
        match body_read(
            texts_of(old(tokens).buffer@),
            old(tokens).pos as int,
            old(builder)@,
            Seq::empty(),
            head@,
            closer@,
            repeat,
        ) {
            Ok((behind, v)) => r is Ok && final(tokens).pos == behind && final(builder)@ == v,
            Err(e) => r is Err && r->Err_0@ == e,
        },
    decreases old(tokens).buffer@.len() - old(tokens).pos,
{
    let mut body: Vec<String> = Vec::new();
    let ghost all = texts_of(tokens.buffer@);
    let ghost goal = body_read(all, tokens.pos as int, builder@, Seq::empty(), head@, closer@, repeat);
    assert(texts(body@) =~= Seq::empty());
    loop
        invariant
            tokens.wf(),
            builder.wf(),
            tokens.buffer@ == old(tokens).buffer@,
            tokens.pos >= old(tokens).pos,
            all == texts_of(tokens.buffer@),
            goal == body_read(
                all,
                old(tokens).pos as int,
                old(builder)@,
                Seq::empty(),
                head@,
                closer@,
                repeat,
            ),
            body_read(all, tokens.pos as int, builder@, texts(body@), head@, closer@, repeat) == goal,
        decreases tokens.buffer@.len() - tokens.pos,
    {
        let at: usize = tokens.pos;
        let ghost had = texts(body@);
        assert(at < tokens.buffer@.len() ==> all[at as int] == tokens.buffer@[at as int]@);
        assert(at + 1 < tokens.buffer@.len() ==> all[at + 1] == tokens.buffer@[at + 1]@);
        let token = match tokens.next() {
            Some(token) => token,
            None => {
                return Err(EbnfError::Syntax(at));
            },
        };
        if is_text(&token, closer) || is_text(&token, "|") {
            if repeat {
                body.push(head.clone());
                assert(texts(body@) =~= had.push(head@));
            }
            match builder.rule(head.as_str(), &body) {
                Ok(()) => {},
                Err(e) => {
                    return Err(EbnfError::Grammar(e));
                },
            }
            if is_text(&token, closer) {
                return Ok(());
            }
            body = Vec::new();
            assert(texts(body@) =~= Seq::empty());
        } else if is_text(&token, "\"") || is_text(&token, "'") {
            let text = match tokens.next() {
                Some(text) => text,
                None => {
                    return Err(EbnfError::Syntax(at));
                },
            };
            match tokens.next() {
                Some(_) => {},
                None => {
                    return Err(EbnfError::Syntax(at));
                },
            }
            match builder.symbol(Symbol::terminal(text.as_str(), Pattern::Exact(text.clone()))) {
                Ok(()) => {},
                Err(e) => {
                    return Err(EbnfError::Grammar(e));
                },
            }
            body.push(text);
            assert(texts(body@) =~= had.push(all[at + 1]));
        } else if is_text(&token, "(") || is_text(&token, "[") || is_text(&token, "{") {
            let fresh = write_unique_name(builder.symbols.len());
            match builder.symbol(Symbol::nonterminal(fresh.as_str())) {
                Ok(()) => {},
                Err(e) => {
                    return Err(EbnfError::Grammar(e));
                },
            }
            let closing: &str = if is_text(&token, "(") {
                ")"
            } else if is_text(&token, "[") {
                "]"
            } else {
                "}"
            };
            let again: bool = is_text(&token, "{");
            assert(closing@ == closer_of(token@));
            let inner = read_body(tokens, builder, &fresh, closing, again);
            match inner {
                Ok(()) => {},
                Err(e) => {
                    return Err(e);
                },
            }
            if !is_text(&token, "(") {
                let empty: Vec<String> = Vec::new();
                assert(texts(empty@) =~= Seq::empty());
                match builder.rule(fresh.as_str(), &empty) {
                    Ok(()) => {},
                    Err(e) => {
                        return Err(EbnfError::Grammar(e));
                    },
                }
            }
            let ghost name = fresh@;
            body.push(fresh);
            assert(texts(body@) =~= had.push(name));
        } else if is_reserved(&token) {
            return Err(EbnfError::Syntax(at));
        } else {
            match mention(builder, &token) {
                Ok(()) => {},
                Err(e) => {
                    return Err(EbnfError::Grammar(e));
                },
            }
            let ghost name = token@;
            body.push(token);
            assert(texts(body@) =~= had.push(name));
        }
    }
}

/// Reads productions `name := body ;` until the tokens end.
pub fn read_grammar(tokens: &mut Scanner, builder: &mut GrammarBuilder) -> (r: Result<(), EbnfError>)
    requires
        old(tokens).wf(),
        old(builder).wf(),
    ensures
        final(tokens).wf(),
        final(builder).wf(),
        final(tokens).buffer@ == old(tokens).buffer@,
        match grammar_read(texts_of(old(tokens).buffer@), old(tokens).pos as int, old(builder)@) {
            Ok(v) => r is Ok && final(builder)@ == v,
            Err(e) => r is Err && r->Err_0@ == e,
        },
{
    let ghost all = texts_of(tokens.buffer@);
    let ghost goal = grammar_read(all, tokens.pos as int, builder@);
    loop
        invariant
            tokens.wf(),
            builder.wf(),
            tokens.buffer@ == old(tokens).buffer@,
            all == texts_of(tokens.buffer@),
            goal == grammar_read(all, old(tokens).pos as int, old(builder)@),
            grammar_read(all, tokens.pos as int, builder@) == goal,
        decreases tokens.buffer@.len() - tokens.pos,
    {
        let at: usize = tokens.pos;
        assert(at < tokens.buffer@.len() ==> all[at as int] == tokens.buffer@[at as int]@);
        assert(at + 1 < tokens.buffer@.len() ==> all[at + 1] == tokens.buffer@[at + 1]@);
        let head = match tokens.next() {
            Some(head) => head,
            None => {
                return Ok(());
            },
        };
        if is_reserved(&head) {
            return Err(EbnfError::Syntax(at));
        }
        let at: usize = tokens.pos;
        match tokens.next() {
            Some(assign) => {
                if !is_text(&assign, ":=") {
                    return Err(EbnfError::Syntax(at));
                }
            },
            None => {
                return Err(EbnfError::Syntax(at));
            },
        }
        match mention(builder, &head) {
            Ok(()) => {},
            Err(e) => {
                return Err(EbnfError::Grammar(e));
            },
        }
        match read_body(tokens, builder, &head, ";", false) {
            Ok(()) => {},
            Err(e) => {
                return Err(e);
            },
        }
    }
}

/// Builds parsers from grammar text.
pub struct ParserBuilder {
    pub tokens: Scanner,
    pub builder: GrammarBuilder,
}

impl ParserBuilder {
    pub open spec fn wf(&self) -> bool {
        self.tokens.wf() && self.builder.wf()
    }

    /// A builder for the grammar written in `text`.
    pub fn new(text: &str) -> (r: ParserBuilder)
        ensures
            r.wf(),
            r.tokens.pos == 0,
            texts_of(r.tokens.buffer@) == tokens_from(text@, 0),
            r.builder@.symbols.len() == 0,
            r.builder@.rules.len() == 0,
    {
        ParserBuilder { tokens: EbnfTokenizer::scanner(text), builder: GrammarBuilder::new() }
    }

    /// Makes the terminal `name` known before the text is read, so that
    /// the text can use it as an identifier.
    pub fn plug_terminal(&mut self, name: &str, pattern: Pattern) -> (r: Result<(), GrammarError>)
        requires
            old(self).wf(),
        ensures
            final(self).wf(),
            final(self).tokens == old(self).tokens,
            match with_symbol(
                old(self).builder@,
                SymbolView { name: name@, kind: SymbolKindView::Terminal(pattern@) },
            ) {
                Ok(v) => r is Ok && final(self).builder@ == v,
                Err(e) => r is Err && r->Err_0@ == e && final(self).builder@ == old(self).builder@,
            },
    {
        self.builder.symbol(Symbol::terminal(name, pattern))
    }

    /// What the builder's tokens describe with `start` as the start
    /// symbol, read into the terminals that were plugged in.
    pub open spec fn described(&self, start: Seq<char>) -> Result<GrammarView, EbnfErrorView> {
        match grammar_read(texts_of(self.tokens.buffer@), self.tokens.pos as int, self.builder@) {
            Err(e) => Err(e),
            Ok(read) => match index_of_name(read.symbols, start) {
                Some(s) if !read.symbols[s].is_terminal() => Ok(
                    GrammarView { symbols: read.symbols, rules: read.rules, start: s },
                ),
                _ => Err(EbnfErrorView::Grammar(GrammarErrorView::BadStart(start))),
            },
        }
    }

    /// Reads the text and closes the grammar with `start` as its start symbol.
    pub fn into_grammar(self, start: &str) -> (r: Result<Grammar, EbnfError>)
        requires
            self.wf(),
        ensures
            match self.described(start@) {
                Ok(v) => r is Ok && r->Ok_0@ == v && r->Ok_0.wf(),
                Err(e) => r is Err && r->Err_0@ == e,
            },
    {
        let mut tokens = self.tokens;
        let mut builder = self.builder;
        match read_grammar(&mut tokens, &mut builder) {
            Ok(()) => {},
            Err(e) => {
                return Err(e);
            },
        }
        match builder.into_grammar(start) {
            Ok(g) => Ok(g),
            Err(e) => Err(EbnfError::Grammar(e)),
        }
    }

    /// Reads the text and makes a parser for the grammar, with `start` as its start symbol.
    pub fn into_parser(self, start: &str) -> (r: Result<Parser, EbnfError>)
        requires
            self.wf(),
        ensures
            match self.described(start@) {
                Ok(v) => r is Ok && r->Ok_0.grammar@ == v && r->Ok_0.grammar.wf(),
                Err(e) => r is Err && r->Err_0@ == e,
            },
    {
        match self.into_grammar(start) {
            Ok(g) => Ok(Parser::new(g)),
            Err(e) => Err(e),
        }
    }
}

} // verus!
