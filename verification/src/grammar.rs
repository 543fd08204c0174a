//! Symbols, rules and grammars, and the builder that checks them.

use vstd::prelude::*;

verus! {

/// What a terminal accepts.
pub enum Pattern {
    /// Every lexeme.
    Any,
    /// The lexeme equal to the given text.
    Exact(String),
    /// Every non-empty lexeme made only of the given characters.
    Among(Vec<char>),
}

/// The mathematical value of a `Pattern`.
pub enum PatternView {
    Any,
    Exact(Seq<char>),
    Among(Seq<char>),
}

impl View for Pattern {
    type V = PatternView;

    open spec fn view(&self) -> PatternView {
        match self {
            Pattern::Any => PatternView::Any,
            Pattern::Exact(t) => PatternView::Exact(t@),
            Pattern::Among(cs) => PatternView::Among(cs@),
        }
    }
}

impl PatternView {
    /// Whether the pattern accepts `lexeme`.
    pub open spec fn accepts(self, lexeme: Seq<char>) -> bool {
        match self {
            PatternView::Any => true,
            PatternView::Exact(t) => lexeme == t,
            PatternView::Among(cs) => lexeme.len() > 0 && forall|i: int|
                0 <= i < lexeme.len() ==> cs.contains(#[trigger] lexeme[i]),
        }
    }
}

/// Whether two strings hold the same text.
pub fn same_text(a: &String, b: &String) -> (r: bool)
    ensures
        r == (a@ == b@),
{
    *a == *b
}

/// Whether `c` occurs in `set`.
pub fn char_among(set: &Vec<char>, c: char) -> (r: bool)
    ensures
        r == set@.contains(c),
{
    let mut i: usize = 0;
    while i < set.len()
        invariant
            i <= set.len(),
            forall|j: int| 0 <= j < i ==> set@[j] != c,
        decreases set.len() - i,
    {
        if set[i] == c {
            return true;
        }
        i += 1;
    }
    false
}

impl Pattern {
    /// Runs the pattern on a lexeme.
    pub fn matches(&self, lexeme: &String) -> (r: bool)
        ensures
            r == self@.accepts(lexeme@),
    {
        match self {
            Pattern::Any => true,
            Pattern::Exact(t) => same_text(lexeme, t),
            Pattern::Among(cs) => {
                let text = lexeme.as_str();
                let n: usize = text.unicode_len();
                if n == 0 {
                    return false;
                }
                let mut i: usize = 0;
                while i < n
                    invariant
                        i <= n,
                        n == lexeme@.len(),
                        text@ == lexeme@,
                        self@ == PatternView::Among(cs@),
                        forall|j: int| 0 <= j < i ==> cs@.contains(#[trigger] lexeme@[j]),
                    decreases n - i,
                {
                    let c = text.get_char(i);
                    if !char_among(cs, c) {
                        assert(!cs@.contains(lexeme@[i as int]));
                        return false;
                    }
                    i += 1;
                }
                true
            },
        }
    }

    /// Whether two patterns are the same pattern.
    pub fn same(&self, other: &Pattern) -> (r: bool)
        ensures
            r == (self@ == other@),
    {
        match (self, other) {
            (Pattern::Any, Pattern::Any) => true,
            (Pattern::Exact(a), Pattern::Exact(b)) => same_text(a, b),
            (Pattern::Among(a), Pattern::Among(b)) => {
                if a.len() != b.len() {
                    return false;
                }
                let mut i: usize = 0;
                while i < a.len()
                    invariant
                        i <= a.len(),
                        a.len() == b.len(),
                        self@ == PatternView::Among(a@),
                        other@ == PatternView::Among(b@),
                        forall|j: int| 0 <= j < i ==> a@[j] == b@[j],
                    decreases a.len() - i,
                {
                    if a[i] != b[i] {
                        assert(a@[i as int] != b@[i as int]);
                        return false;
                    }
                    i += 1;
                }
                assert(a@ =~= b@);
                true
            },
            _ => false,
        }
    }

    /// A copy of the pattern.
    pub fn duplicate(&self) -> (r: Pattern)
        ensures
            r@ == self@,
    {
        match self {
            Pattern::Any => Pattern::Any,
            Pattern::Exact(t) => Pattern::Exact(t.clone()),
            Pattern::Among(cs) => {
                let mut out: Vec<char> = Vec::new();
                let mut i: usize = 0;
                while i < cs.len()
                    invariant
                        i <= cs.len(),
                        out@ == cs@.take(i as int),
                    decreases cs.len() - i,
                {
                    out.push(cs[i]);
                    assert(cs@.take(i + 1) =~= cs@.take(i as int).push(cs@[i as int]));
                    i += 1;
                }
                assert(cs@.take(cs.len() as int) =~= cs@);
                Pattern::Among(out)
            },
        }
    }
}

/// The two kinds of symbol.
pub enum SymbolKind {
    NonTerminal,
    Terminal(Pattern),
}

/// The mathematical value of a `SymbolKind`.
pub enum SymbolKindView {
    NonTerminal,
    Terminal(PatternView),
}

impl View for SymbolKind {
    type V = SymbolKindView;

    open spec fn view(&self) -> SymbolKindView {
        match self {
            SymbolKind::NonTerminal => SymbolKindView::NonTerminal,
            SymbolKind::Terminal(p) => SymbolKindView::Terminal(p@),
        }
    }
}

/// A named symbol of a grammar.
pub struct Symbol {
    pub name: String,
    pub kind: SymbolKind,
}

/// The mathematical value of a `Symbol`.
pub struct SymbolView {
    pub name: Seq<char>,
    pub kind: SymbolKindView,
}

impl SymbolView {
    pub open spec fn is_terminal(self) -> bool {
        self.kind is Terminal
    }

    /// Whether this symbol is a terminal that accepts the token `(name, lexeme)`.
    pub open spec fn accepts(self, name: Seq<char>, lexeme: Seq<char>) -> bool {
        match self.kind {
            SymbolKindView::NonTerminal => false,
            SymbolKindView::Terminal(p) => self.name == name && p.accepts(lexeme),
        }
    }
}

impl View for Symbol {
    type V = SymbolView;

    open spec fn view(&self) -> SymbolView {
        SymbolView { name: self.name@, kind: self.kind@ }
    }
}

impl Symbol {
    /// A non-terminal called `name`.
    pub fn nonterminal(name: &str) -> (r: Symbol)
        ensures
            r@ == (SymbolView { name: name@, kind: SymbolKindView::NonTerminal }),
    {
        Symbol { name: name.to_owned(), kind: SymbolKind::NonTerminal }
    }

    /// A terminal called `name` that accepts what `pattern` accepts.
    pub fn terminal(name: &str, pattern: Pattern) -> (r: Symbol)
        ensures
            r@ == (SymbolView { name: name@, kind: SymbolKindView::Terminal(pattern@) }),
    {
        Symbol { name: name.to_owned(), kind: SymbolKind::Terminal(pattern) }
    }

    /// Whether two symbols have the same kind and, for terminals, the same pattern.
    pub fn same_kind(&self, other: &Symbol) -> (r: bool)
        ensures
            r == (self@.kind == other@.kind),
    {
        match (&self.kind, &other.kind) {
            (SymbolKind::NonTerminal, SymbolKind::NonTerminal) => true,
            (SymbolKind::Terminal(a), SymbolKind::Terminal(b)) => a.same(b),
            _ => false,
        }
    }

    pub fn is_terminal(&self) -> (r: bool)
        ensures
            r == self@.is_terminal(),
    {
        match &self.kind {
            SymbolKind::NonTerminal => false,
            SymbolKind::Terminal(_) => true,
        }
    }
}

/// The views of a list of symbols.
pub open spec fn symbol_views(symbols: Seq<Symbol>) -> Seq<SymbolView> {
    Seq::new(symbols.len(), |i: int| symbols[i]@)
}

/// A production: the head and the body name symbols by their place in the
/// grammar's symbol table; `name` is the canonical text of the rule.
pub struct Rule {
    pub head: usize,
    pub body: Vec<usize>,
    pub name: String,
}

/// The mathematical value of a `Rule`.
pub struct RuleView {
    pub head: int,
    pub body: Seq<int>,
    pub name: Seq<char>,
}

impl View for Rule {
    type V = RuleView;

    open spec fn view(&self) -> RuleView {
        RuleView {
            head: self.head as int,
            body: Seq::new(self.body@.len(), |i: int| self.body@[i] as int),
            name: self.name@,
        }
    }
}

/// The views of a list of rules.
pub open spec fn rule_views(rules: Seq<Rule>) -> Seq<RuleView> {
    Seq::new(rules.len(), |i: int| rules[i]@)
}

/// The text between the head and the body of a canonical rule name.
pub open spec fn arrow() -> Seq<char> {
    seq![' ', '-', '>', ' ']
}

/// The names of the symbols of `body`, with one space between neighbours.
pub open spec fn joined_names(symbols: Seq<SymbolView>, body: Seq<int>) -> Seq<char>
    decreases body.len(),
{
    if body.len() == 0 {
        Seq::empty()
    } else if body.len() == 1 {
        symbols[body[0]].name
    } else {
        joined_names(symbols, body.drop_last()) + seq![' '] + symbols[body.last()].name
    }
}

/// The canonical text of a rule: the head's name, ` -> `, and the body's
/// names separated by single spaces. An empty body leaves nothing after the
/// arrow.
pub open spec fn canonical_name(symbols: Seq<SymbolView>, head: int, body: Seq<int>) -> Seq<char> {
    symbols[head].name + arrow() + joined_names(symbols, body)
}

/// The mathematical value of a grammar or of a builder: the symbol table and
/// the rules in the order in which they were added.
pub struct GrammarView {
    pub symbols: Seq<SymbolView>,
    pub rules: Seq<RuleView>,
    pub start: int,
}

/// What holds of every symbol table and rule list that the builder makes.
pub open spec fn well_formed(symbols: Seq<SymbolView>, rules: Seq<RuleView>) -> bool {
    &&& forall|i: int, j: int|
        0 <= i < j < symbols.len() ==> #[trigger] symbols[i].name != #[trigger] symbols[j].name
    &&& forall|r: int|
        0 <= r < rules.len() ==> {
            &&& 0 <= (#[trigger] rules[r]).head < symbols.len()
            &&& !symbols[rules[r].head].is_terminal()
            &&& forall|k: int|
                0 <= k < rules[r].body.len() ==> 0 <= #[trigger] rules[r].body[k] < symbols.len()
            &&& rules[r].name == canonical_name(symbols, rules[r].head, rules[r].body)
        }
    &&& forall|r: int, s: int|
        0 <= r < s < rules.len() ==> !((#[trigger] rules[r]).head == (#[trigger] rules[s]).head
            && rules[r].body == rules[s].body)
}

impl GrammarView {
    pub open spec fn wf(self) -> bool {
        &&& well_formed(self.symbols, self.rules)
        &&& 0 <= self.start < self.symbols.len()
        &&& !self.symbols[self.start].is_terminal()
    }

    /// The place of the symbol called `name`, if there is one.
    pub open spec fn index_of(self, name: Seq<char>) -> Option<int> {
        index_of_name(self.symbols, name)
    }
}

/// The place of the symbol called `name` in `symbols`, if there is one.
pub open spec fn index_of_name(symbols: Seq<SymbolView>, name: Seq<char>) -> Option<int> {
    if exists|i: int| 0 <= i < symbols.len() && #[trigger] symbols[i].name == name {
        Some(choose|i: int| 0 <= i < symbols.len() && #[trigger] symbols[i].name == name)
    } else {
        None
    }
}

/// Why a grammar was refused. Each variant carries the offending name.
#[derive(Debug)]
pub enum GrammarError {
    /// A rule names a symbol that was never added, or its head is a terminal.
    UnknownSymbol(String),
    /// A name was added twice with different payloads.
    DuplicateSymbol(String),
    /// The start symbol is undefined or a terminal.
    BadStart(String),
}

/// The mathematical value of a `GrammarError`.
pub enum GrammarErrorView {
    UnknownSymbol(Seq<char>),
    DuplicateSymbol(Seq<char>),
    BadStart(Seq<char>),
}

impl View for GrammarError {
    type V = GrammarErrorView;

    open spec fn view(&self) -> GrammarErrorView {
        match self {
            GrammarError::UnknownSymbol(n) => GrammarErrorView::UnknownSymbol(n@),
            GrammarError::DuplicateSymbol(n) => GrammarErrorView::DuplicateSymbol(n@),
            GrammarError::BadStart(n) => GrammarErrorView::BadStart(n@),
        }
    }
}

impl GrammarError {
    /// The error as a line of text.
    pub fn message(&self) -> (r: String)
        ensures
            r@ == match self {
                GrammarError::UnknownSymbol(n) => "Unknown symbol: "@ + n@,
                GrammarError::DuplicateSymbol(n) => "Duplicate symbol: "@ + n@,
                GrammarError::BadStart(n) => "Bad start symbol: "@ + n@,
            },
    {
        match self {
            GrammarError::UnknownSymbol(n) => "Unknown symbol: ".to_owned().concat(n.as_str()),
            GrammarError::DuplicateSymbol(n) => "Duplicate symbol: ".to_owned().concat(n.as_str()),
            GrammarError::BadStart(n) => "Bad start symbol: ".to_owned().concat(n.as_str()),
        }
    }
}

/// Finds the symbol called `name`.
pub fn find_symbol(symbols: &Vec<Symbol>, name: &String) -> (r: Option<usize>)
    ensures
        match r {
            Some(i) => i < symbols.len() && symbols@[i as int].name@ == name@ && forall|j: int|
                0 <= j < i ==> symbols@[j].name@ != name@,
            None => forall|j: int| 0 <= j < symbols.len() ==> symbols@[j].name@ != name@,
        },
{
    let mut i: usize = 0;
    while i < symbols.len()
        invariant
            i <= symbols.len(),
            forall|j: int| 0 <= j < i ==> symbols@[j].name@ != name@,
        decreases symbols.len() - i,
    {
        if same_text(&symbols[i].name, name) {
            return Some(i);
        }
        i += 1;
    }
    None
}

/// Whether two bodies are the same sequence of symbols.
pub fn same_body(a: &Vec<usize>, b: &Vec<usize>) -> (r: bool)
    ensures
        r == (a@ == b@),
{
    if a.len() != b.len() {
        return false;
    }
    let mut i: usize = 0;
    while i < a.len()
        invariant
            i <= a.len(),
            a.len() == b.len(),
            forall|j: int| 0 <= j < i ==> a@[j] == b@[j],
        decreases a.len() - i,
    {
        if a[i] != b[i] {
            return false;
        }
        i += 1;
    }
    assert(a@ =~= b@);
    true
}


/// The texts of a list of strings.
pub open spec fn texts(names: Seq<String>) -> Seq<Seq<char>> {
    Seq::new(names.len(), |i: int| names[i]@)
}

/// Whether every name of `names` is the name of a symbol.
pub open spec fn all_defined(symbols: Seq<SymbolView>, names: Seq<Seq<char>>) -> bool {
    forall|k: int| 0 <= k < names.len() ==> index_of_name(symbols, #[trigger] names[k]) is Some
}

/// The places of the symbols called `names`.
pub open spec fn resolved(symbols: Seq<SymbolView>, names: Seq<Seq<char>>) -> Seq<int> {
    Seq::new(names.len(), |k: int| index_of_name(symbols, names[k]).unwrap())
}

/// The first name of `names` that names no symbol; `names.len()` if there is none.
pub open spec fn first_undefined(symbols: Seq<SymbolView>, names: Seq<Seq<char>>) -> int
    decreases names.len(),
{
    if names.len() == 0 {
        0
    } else if first_undefined(symbols, names.drop_last()) < names.len() - 1 {
        first_undefined(symbols, names.drop_last())
    } else if index_of_name(symbols, names.last()) is None {
        names.len() - 1
    } else {
        names.len() as int
    }
}

/// Whether `rules` holds a rule with this head and body.
pub open spec fn has_rule(rules: Seq<RuleView>, head: int, body: Seq<int>) -> bool {
    exists|r: int| 0 <= r < rules.len() && (#[trigger] rules[r]).head == head && rules[r].body == body
}

/// The table and rules after `sym` is added, or why it is refused.
pub open spec fn with_symbol(v: GrammarView, sym: SymbolView) -> Result<GrammarView, GrammarErrorView> {
    match index_of_name(v.symbols, sym.name) {
        Some(i) => if v.symbols[i].kind == sym.kind {
            Ok(v)
        } else {
            Err(GrammarErrorView::DuplicateSymbol(sym.name))
        },
        None => Ok(GrammarView { symbols: v.symbols.push(sym), rules: v.rules, start: v.start }),
    }
}

/// The table and rules after the rule `head -> names` is added, or why it is refused.
pub open spec fn with_rule(v: GrammarView, head: Seq<char>, names: Seq<Seq<char>>) -> Result<
    GrammarView,
    GrammarErrorView,
> {
    let stop = first_undefined(v.symbols, names);
    match index_of_name(v.symbols, head) {
        Some(h) if !v.symbols[h].is_terminal() => {
            if stop < names.len() {
                Err(GrammarErrorView::UnknownSymbol(names[stop]))
            } else {
                let ids = resolved(v.symbols, names);
                Ok(
                    GrammarView {
                        symbols: v.symbols,
                        rules: if has_rule(v.rules, h, ids) {
                            v.rules
                        } else {
                            v.rules.push(RuleView { head: h, body: ids, name: canonical_name(v.symbols, h, ids) })
                        },
                        start: v.start,
                    },
                )
            }
        },
        _ => Err(GrammarErrorView::UnknownSymbol(head)),
    }
}

/// With distinct names, a place whose name is `name` is the place that `index_of_name` gives.
pub proof fn lemma_index_of_name(symbols: Seq<SymbolView>, name: Seq<char>, i: int)
    requires
        forall|a: int, b: int|
            0 <= a < b < symbols.len() ==> #[trigger] symbols[a].name != #[trigger] symbols[b].name,
        0 <= i < symbols.len(),
        symbols[i].name == name,
    ensures
        index_of_name(symbols, name) == Some(i),
{
    let j = choose|j: int| 0 <= j < symbols.len() && #[trigger] symbols[j].name == name;
    if j < i {
        assert(symbols[j].name != symbols[i].name);
    } else if i < j {
        assert(symbols[i].name != symbols[j].name);
    }
}

/// Finds the symbol called `name` in a table without repeated names.
pub fn lookup(symbols: &Vec<Symbol>, name: &String) -> (r: Option<usize>)
    requires
        forall|a: int, b: int|
            0 <= a < b < symbols.len() ==> #[trigger] symbols@[a].name@ != #[trigger] symbols@[b].name@,
    ensures
        match r {
            Some(i) => i < symbols.len() && index_of_name(symbol_views(symbols@), name@) == Some(
                i as int,
            ),
            None => index_of_name(symbol_views(symbols@), name@) is None,
        },
{
    let r = find_symbol(symbols, name);
    proof {
        let views = symbol_views(symbols@);
        match r {
            Some(i) => {
                assert forall|a: int, b: int| 0 <= a < b < views.len() implies #[trigger] views[a].name
                    != #[trigger] views[b].name by {
                    assert(symbols@[a].name@ != symbols@[b].name@);
                }
                lemma_index_of_name(views, name@, i as int);
            },
            None => {
                assert forall|j: int| 0 <= j < views.len() implies #[trigger] views[j].name
                    != name@ by {
                    assert(symbols@[j].name@ != name@);
                }
            },
        }
    }
    r
}

/// Writes the canonical text of the rule `head -> body`.
pub fn write_rule_name(symbols: &Vec<Symbol>, head: usize, body: &Vec<usize>) -> (r: String)
    requires
        head < symbols.len(),
        forall|k: int| 0 <= k < body.len() ==> body@[k] < symbols.len(),
    ensures
        r@ == canonical_name(
            symbol_views(symbols@),
            head as int,
            Seq::new(body@.len(), |i: int| body@[i] as int),
        ),
{
    let ghost views = symbol_views(symbols@);
    let ghost ids = Seq::new(body@.len(), |i: int| body@[i] as int);
    let mut out: String = symbols[head].name.clone();
    proof {
        reveal_strlit(" -> ");
        reveal_strlit(" ");
    }
    out.append(" -> ");
    assert(" -> "@ =~= arrow());
    assert(ids.take(0) =~= Seq::<int>::empty());
    let mut i: usize = 0;
    while i < body.len()
        invariant
            i <= body.len(),
            views == symbol_views(symbols@),
            ids == Seq::new(body@.len(), |i: int| body@[i] as int),
            forall|k: int| 0 <= k < body.len() ==> body@[k] < symbols.len(),
            out@ == views[head as int].name + arrow() + joined_names(views, ids.take(i as int)),
            " "@ == seq![' '],
        decreases body.len() - i,
    {
        let ghost before = joined_names(views, ids.take(i as int));
        let ghost next = ids.take(i + 1);
        assert(next.drop_last() =~= ids.take(i as int));
        assert(next.last() == body@[i as int] as int);
        assert(views[body@[i as int] as int].name == symbols@[body@[i as int] as int].name@);
        if i > 0 {
            out.append(" ");
        }
        out.append(symbols[body[i]].name.as_str());
        proof {
            let name = views[body@[i as int] as int].name;
            if i == 0 {
                assert(before =~= Seq::<char>::empty());
                assert(next.len() == 1);
                assert(next[0] == body@[0] as int);
                assert(joined_names(views, next) == name);
                assert(out@ =~= views[head as int].name + arrow() + joined_names(views, next));
            } else {
                assert(joined_names(views, next) == before + seq![' '] + name);
                assert(out@ =~= views[head as int].name + arrow() + joined_names(views, next));
            }
        }
        i += 1;
    }
    assert(ids.take(body.len() as int) =~= ids);
    out
}

/// Collects symbols and rules, refusing what would break a grammar.
pub struct GrammarBuilder {
    pub symbols: Vec<Symbol>,
    pub rules: Vec<Rule>,
}

/// A checked grammar, fixed once built.
pub struct Grammar {
    pub symbols: Vec<Symbol>,
    pub rules: Vec<Rule>,
    pub start: usize,
}

impl View for GrammarBuilder {
    type V = GrammarView;

    open spec fn view(&self) -> GrammarView {
        GrammarView { symbols: symbol_views(self.symbols@), rules: rule_views(self.rules@), start: 0 }
    }
}

impl View for Grammar {
    type V = GrammarView;

    open spec fn view(&self) -> GrammarView {
        GrammarView {
            symbols: symbol_views(self.symbols@),
            rules: rule_views(self.rules@),
            start: self.start as int,
        }
    }
}

/// What the rules' indices are known to satisfy once the views are well formed.
pub proof fn lemma_rule_bounds(symbols: Seq<Symbol>, rules: Seq<Rule>, r: int)
    requires
        well_formed(symbol_views(symbols), rule_views(rules)),
        0 <= r < rules.len(),
    ensures
        rules[r].head < symbols.len(),
        !symbols[rules[r].head as int]@.is_terminal(),
        forall|k: int| 0 <= k < rules[r].body@.len() ==> #[trigger] rules[r].body@[k] < symbols.len(),
        rules[r].name@ == canonical_name(symbol_views(symbols), rules[r]@.head, rules[r]@.body),
{
    let rv = rule_views(rules);
    assert(rv[r] == rules[r]@);
    assert forall|k: int| 0 <= k < rules[r].body@.len() implies #[trigger] rules[r].body@[k]
        < symbols.len() by {
        assert(rv[r].body[k] == rules[r].body@[k] as int);
    }
}

/// The names of a table are distinct once its views are well formed.
pub proof fn lemma_names_distinct(symbols: Seq<Symbol>, rules: Seq<Rule>)
    requires
        well_formed(symbol_views(symbols), rule_views(rules)),
    ensures
        forall|a: int, b: int|
            0 <= a < b < symbols.len() ==> #[trigger] symbols[a].name@ != #[trigger] symbols[b].name@,
{
    let views = symbol_views(symbols);
    assert forall|a: int, b: int| 0 <= a < b < symbols.len() implies #[trigger] symbols[a].name@
        != #[trigger] symbols[b].name@ by {
        assert(views[a].name != views[b].name);
    }
}

impl GrammarBuilder {
    pub open spec fn wf(&self) -> bool {
        well_formed(self@.symbols, self@.rules)
    }

    /// A builder with no symbols and no rules.
    pub fn new() -> (r: GrammarBuilder)
        ensures
            r.wf(),
            r@.symbols.len() == 0,
            r@.rules.len() == 0,
    {
        GrammarBuilder { symbols: Vec::new(), rules: Vec::new() }
    }

    /// Adds a symbol. A name that is already there is accepted again with the
    /// same payload and refused with another.
    pub fn symbol(&mut self, sym: Symbol) -> (r: Result<(), GrammarError>)
        requires
            old(self).wf(),
        ensures
            final(self).wf(),
            final(self)@.rules == old(self)@.rules,
            match index_of_name(old(self)@.symbols, sym@.name) {
                Some(i) => final(self)@.symbols == old(self)@.symbols && (if old(self)@.symbols[i].kind
                    == sym@.kind {
                    r is Ok
                } else {
                    r is Err && r->Err_0@ == GrammarErrorView::DuplicateSymbol(sym@.name)
                }),
                None => r is Ok && final(self)@.symbols == old(self)@.symbols.push(sym@),
            },
            match with_symbol(old(self)@, sym@) {
                Ok(v) => r is Ok && final(self)@ == v,
                Err(e) => r is Err && r->Err_0@ == e && final(self)@ == old(self)@,
            },
    {
        proof {
            lemma_names_distinct(self.symbols@, self.rules@);
        }
        match lookup(&self.symbols, &sym.name) {
            Some(i) => {
                assert(self@.symbols[i as int] == self.symbols@[i as int]@);
                if self.symbols[i].same_kind(&sym) {
                    Ok(())
                } else {
                    Err(GrammarError::DuplicateSymbol(sym.name))
                }
            },
            None => {
                let ghost old_symbols = self@.symbols;
                let ghost rules = self@.rules;
                let ghost added = sym@;
                self.symbols.push(sym);
                proof {
                    let now = self@.symbols;
                    assert(now =~= old_symbols.push(added));
                    assert forall|i: int, j: int| 0 <= i < j < now.len() implies #[trigger] now[i].name
                        != #[trigger] now[j].name by {
                        if j < old_symbols.len() {
                            assert(old_symbols[i].name != old_symbols[j].name);
                        } else {
                            assert(old_symbols[i].name != added.name);
                        }
                    }
                    assert forall|r: int| 0 <= r < rules.len() implies (#[trigger] rules[r]).name
                        == canonical_name(now, rules[r].head, rules[r].body) by {
                        lemma_joined_names_grow(old_symbols, added, rules[r].body);
                    }
                }
                Ok(())
            },
        }
    }
}

/// Adding a symbol at the end changes no rule name made of earlier symbols.
pub proof fn lemma_joined_names_grow(symbols: Seq<SymbolView>, added: SymbolView, body: Seq<int>)
    requires
        forall|k: int| 0 <= k < body.len() ==> 0 <= #[trigger] body[k] < symbols.len(),
    ensures
        joined_names(symbols.push(added), body) == joined_names(symbols, body),
    decreases body.len(),
{
    if body.len() >= 2 {
        lemma_joined_names_grow(symbols, added, body.drop_last());
    }
}


/// What `first_undefined` says of the names before it and of the name at it.
pub proof fn lemma_first_undefined(symbols: Seq<SymbolView>, names: Seq<Seq<char>>)
    ensures
        0 <= first_undefined(symbols, names) <= names.len(),
        forall|k: int|
            0 <= k < first_undefined(symbols, names) ==> index_of_name(symbols, #[trigger] names[k]) is Some,
        first_undefined(symbols, names) < names.len() ==> index_of_name(
            symbols,
            names[first_undefined(symbols, names)],
        ) is None,
    decreases names.len(),
{
    if names.len() > 0 {
        let front = names.drop_last();
        lemma_first_undefined(symbols, front);
        assert forall|k: int| 0 <= k < first_undefined(symbols, names) implies index_of_name(
            symbols,
            #[trigger] names[k],
        ) is Some by {
            if k < front.len() {
                assert(front[k] == names[k]);
            }
        }
        if first_undefined(symbols, front) < front.len() {
            assert(front[first_undefined(symbols, front)] == names[first_undefined(symbols, front)]);
        }
    }
}

impl GrammarBuilder {
    /// Adds the rule `head -> body`. The head must be a non-terminal that was
    /// added before, and so must every symbol of the body; the first name that
    /// fails is reported. A rule that is already there is not added again.
    pub fn rule(&mut self, head: &str, body: &Vec<String>) -> (r: Result<(), GrammarError>)
        requires
            old(self).wf(),
        ensures
            final(self).wf(),
            final(self)@.symbols == old(self)@.symbols,
            ({
                let symbols = old(self)@.symbols;
                let names = texts(body@);
                let stop = first_undefined(symbols, names);
                match index_of_name(symbols, head@) {
                    Some(h) if !symbols[h].is_terminal() => {
                        if stop < names.len() {
                            &&& r is Err
                            &&& r->Err_0@ == GrammarErrorView::UnknownSymbol(names[stop])
                            &&& final(self)@.rules == old(self)@.rules
                        } else {
                            let ids = resolved(symbols, names);
                            &&& r is Ok
                            &&& final(self)@.rules == if has_rule(old(self)@.rules, h, ids) {
                                old(self)@.rules
                            } else {
                                old(self)@.rules.push(
                                    RuleView { head: h, body: ids, name: canonical_name(symbols, h, ids) },
                                )
                            }
                        }
                    },
                    _ => {
                        &&& r is Err
                        &&& r->Err_0@ == GrammarErrorView::UnknownSymbol(head@)
                        &&& final(self)@.rules == old(self)@.rules
                    },
                }
            }),
            match with_rule(old(self)@, head@, texts(body@)) {
                Ok(v) => r is Ok && final(self)@ == v,
                Err(e) => r is Err && r->Err_0@ == e && final(self)@ == old(self)@,
            },
    {
        let ghost symbols = self@.symbols;
        let ghost names = texts(body@);
        proof {
            lemma_names_distinct(self.symbols@, self.rules@);
            lemma_first_undefined(symbols, names);
        }
        let head_name = head.to_owned();
        let h = match lookup(&self.symbols, &head_name) {
            Some(h) => h,
            None => {
                return Err(GrammarError::UnknownSymbol(head_name));
            },
        };
        assert(symbols[h as int] == self.symbols@[h as int]@);
        if self.symbols[h].is_terminal() {
            return Err(GrammarError::UnknownSymbol(head_name));
        }
        let mut ids: Vec<usize> = Vec::new();
        let mut k: usize = 0;
        while k < body.len()
            invariant
                k <= body.len(),
                ids.len() == k,
                *self == *old(self),
                old(self).wf(),
                symbols == old(self)@.symbols,
                names == texts(body@),
                h < self.symbols.len(),
                index_of_name(symbols, head@) == Some(h as int),
                !symbols[h as int].is_terminal(),
                forall|a: int, b: int|
                    0 <= a < b < self.symbols.len() ==> #[trigger] self.symbols@[a].name@
                        != #[trigger] self.symbols@[b].name@,
                forall|j: int|
                    0 <= j < k ==> index_of_name(symbols, #[trigger] names[j]) == Some(ids@[j] as int),
                forall|j: int| 0 <= j < k ==> ids@[j] < self.symbols.len(),
                first_undefined(symbols, names.take(k as int)) == k,
            decreases body.len() - k,
        {
            assert(names.take(k + 1).drop_last() =~= names.take(k as int));
            assert(names.take(k + 1).last() == names[k as int]);
            assert(names[k as int] == body@[k as int]@);
            match lookup(&self.symbols, &body[k]) {
                Some(id) => {
                    ids.push(id);
                },
                None => {
                    proof {
                        lemma_first_undefined_prefix(symbols, names, k as int);
                    }
                    return Err(GrammarError::UnknownSymbol(body[k].clone()));
                },
            }
            k += 1;
        }
        assert(names.take(body.len() as int) =~= names);
        assert(symbols[h as int] == self.symbols@[h as int]@);
        let ghost wanted = resolved(symbols, names);
        let ghost id_view = Seq::new(ids@.len(), |i: int| ids@[i] as int);
        assert(id_view =~= wanted);
        let mut r: usize = 0;
        while r < self.rules.len()
            invariant
                r <= self.rules.len(),
                id_view == Seq::new(ids@.len(), |i: int| ids@[i] as int),
                id_view == resolved(symbols, names),
                first_undefined(symbols, names) == names.len(),
                forall|j: int| 0 <= j < ids@.len() ==> ids@[j] < self.symbols.len(),
                *self == *old(self),
                old(self).wf(),
                symbols == old(self)@.symbols,
                names == texts(body@),
                h < self.symbols.len(),
                index_of_name(symbols, head@) == Some(h as int),
                !symbols[h as int].is_terminal(),
                forall|q: int|
                    0 <= q < r ==> !((#[trigger] self@.rules[q]).head == h && self@.rules[q].body
                        == id_view),
            decreases self.rules.len() - r,
        {
            if self.rules[r].head == h && same_body(&self.rules[r].body, &ids) {
                proof {
                    assert(self@.rules[r as int] == self.rules@[r as int]@);
                    assert(self@.rules[r as int].body =~= id_view);
                }
                return Ok(());
            }
            proof {
                assert(self@.rules[r as int] == self.rules@[r as int]@);
                if self.rules@[r as int].body@ != ids@ {
                    lemma_id_views_differ(self.rules@[r as int].body@, ids@);
                }
            }
            r += 1;
        }
        let name = write_rule_name(&self.symbols, h, &ids);
        let ghost old_rules = self@.rules;
        let rule = Rule { head: h, body: ids, name };
        let ghost added = rule@;
        assert(added.body =~= id_view);
        self.rules.push(rule);
        proof {
            let now = self@.rules;
            assert(now =~= old_rules.push(added));
            assert forall|q: int| 0 <= q < now.len() implies {
                &&& 0 <= (#[trigger] now[q]).head < symbols.len()
                &&& !symbols[now[q].head].is_terminal()
                &&& forall|k: int| 0 <= k < now[q].body.len() ==> 0 <= #[trigger] now[q].body[k] < symbols.len()
                &&& now[q].name == canonical_name(symbols, now[q].head, now[q].body)
            } by {
                if q < old_rules.len() {
                    assert(now[q] == old_rules[q]);
                }
            }
            assert forall|q: int, s: int| 0 <= q < s < now.len() implies !((#[trigger] now[q]).head == (
            #[trigger] now[s]).head && now[q].body == now[s].body) by {
                if s < old_rules.len() {
                    assert(now[q] == old_rules[q] && now[s] == old_rules[s]);
                } else {
                    assert(now[q] == old_rules[q]);
                }
            }
        }
        Ok(())
    }

    /// Closes the builder: `start` must be a non-terminal that was added.
    pub fn into_grammar(self, start: &str) -> (r: Result<Grammar, GrammarError>)
        requires
            self.wf(),
        ensures
            match index_of_name(self@.symbols, start@) {
                Some(s) if !self@.symbols[s].is_terminal() => {
                    &&& r is Ok
                    &&& r->Ok_0@ == (GrammarView { symbols: self@.symbols, rules: self@.rules, start: s })
                    &&& r->Ok_0@.wf()
                },
                _ => r is Err && r->Err_0@ == GrammarErrorView::BadStart(start@),
            },
    {
        proof {
            lemma_names_distinct(self.symbols@, self.rules@);
        }
        let name = start.to_owned();
        match lookup(&self.symbols, &name) {
            Some(s) => {
                assert(self@.symbols[s as int] == self.symbols@[s as int]@);
                if self.symbols[s].is_terminal() {
                    Err(GrammarError::BadStart(name))
                } else {
                    Ok(Grammar { symbols: self.symbols, rules: self.rules, start: s })
                }
            },
            None => Err(GrammarError::BadStart(name)),
        }
    }
}

/// When the names before `k` are all defined and the one at `k` is not, `k` is the first undefined.
pub proof fn lemma_first_undefined_prefix(symbols: Seq<SymbolView>, names: Seq<Seq<char>>, k: int)
    requires
        0 <= k < names.len(),
        first_undefined(symbols, names.take(k)) == k,
        index_of_name(symbols, names[k]) is None,
    ensures
        first_undefined(symbols, names) == k,
    decreases names.len() - k,
{
    assert(names.take(k + 1).drop_last() =~= names.take(k));
    assert(names.take(k + 1).last() == names[k]);
    assert(first_undefined(symbols, names.take(k + 1)) == k);
    lemma_first_undefined_stays(symbols, names, k + 1, k);
}

/// Once a prefix has an undefined name, longer prefixes have the same first one.
pub proof fn lemma_first_undefined_stays(symbols: Seq<SymbolView>, names: Seq<Seq<char>>, n: int, k: int)
    requires
        0 <= k < n <= names.len(),
        first_undefined(symbols, names.take(n)) == k,
    ensures
        first_undefined(symbols, names) == k,
    decreases names.len() - n,
{
    if n == names.len() {
        assert(names.take(n) =~= names);
    } else {
        assert(names.take(n + 1).drop_last() =~= names.take(n));
        lemma_first_undefined_stays(symbols, names, n + 1, k);
    }
}

/// Bodies that differ as machine integers differ as integers.
pub proof fn lemma_id_views_differ(a: Seq<usize>, b: Seq<usize>)
    requires
        a != b,
    ensures
        Seq::new(a.len(), |i: int| a[i] as int) != Seq::new(b.len(), |i: int| b[i] as int),
{
    let av = Seq::new(a.len(), |i: int| a[i] as int);
    let bv = Seq::new(b.len(), |i: int| b[i] as int);
    if av == bv {
        assert(av.len() == bv.len());
        assert forall|i: int| 0 <= i < a.len() implies a[i] == b[i] by {
            assert(av[i] == bv[i]);
        }
        assert(a =~= b);
    }
}

impl Grammar {
    pub open spec fn wf(&self) -> bool {
        self@.wf()
    }

    /// The name of the start symbol.
    pub fn start(&self) -> (r: &String)
        requires
            self.wf(),
        ensures
            r@ == self@.symbols[self@.start].name,
    {
        &self.symbols[self.start].name
    }

    /// Whether `name` is the name of a terminal.
    pub fn is_terminal(&self, name: &str) -> (r: bool)
        requires
            self.wf(),
        ensures
            r == match self@.index_of(name@) {
                Some(i) => self@.symbols[i].is_terminal(),
                None => false,
            },
    {
        proof {
            lemma_names_distinct(self.symbols@, self.rules@);
        }
        let name = name.to_owned();
        match lookup(&self.symbols, &name) {
            Some(i) => self.symbols[i].is_terminal(),
            None => false,
        }
    }

    /// Whether the terminal called `name` accepts `lexeme`.
    pub fn matches(&self, name: &str, lexeme: &str) -> (r: bool)
        requires
            self.wf(),
        ensures
            r == match self@.index_of(name@) {
                Some(i) => self@.symbols[i].accepts(name@, lexeme@),
                None => false,
            },
    {
        proof {
            lemma_names_distinct(self.symbols@, self.rules@);
        }
        let name = name.to_owned();
        let lexeme = lexeme.to_owned();
        match lookup(&self.symbols, &name) {
            Some(i) => match &self.symbols[i].kind {
                SymbolKind::NonTerminal => false,
                SymbolKind::Terminal(p) => p.matches(&lexeme),
            },
            None => false,
        }
    }

    /// The rules whose head is called `head`, by their places, in the order
    /// in which they were added.
    pub fn rules_for(&self, head: &str) -> (r: Vec<usize>)
        requires
            self.wf(),
        ensures
            r@.len() <= self@.rules.len(),
            forall|k: int| 0 <= k < r@.len() ==> r@[k] < self@.rules.len()
                && self@.symbols[self@.rules[r@[k] as int].head].name == head@,
            forall|k: int, l: int| 0 <= k < l < r@.len() ==> r@[k] < r@[l],
            forall|q: int|
                0 <= q < self@.rules.len() && self@.symbols[(#[trigger] self@.rules[q]).head].name == head@
                    ==> r@.contains(q as usize),
    {
        let head = head.to_owned();
        let mut out: Vec<usize> = Vec::new();
        let mut q: usize = 0;
        while q < self.rules.len()
            invariant
                q <= self.rules.len(),
                self.wf(),
                out@.len() <= q,
                forall|k: int| 0 <= k < out@.len() ==> out@[k] < q
                    && self@.symbols[self@.rules[out@[k] as int].head].name == head@,
                forall|k: int, l: int| 0 <= k < l < out@.len() ==> out@[k] < out@[l],
                forall|p: int|
                    0 <= p < q && self@.symbols[(#[trigger] self@.rules[p]).head].name == head@
                        ==> out@.contains(p as usize),
            decreases self.rules.len() - q,
        {
            proof {
                lemma_rule_bounds(self.symbols@, self.rules@, q as int);
                assert(self@.rules[q as int] == self.rules@[q as int]@);
                assert(self@.symbols[self.rules@[q as int].head as int]
                    == self.symbols@[self.rules@[q as int].head as int]@);
            }
            let ghost before = out@;
            if same_text(&self.symbols[self.rules[q].head].name, &head) {
                out.push(q);
                assert(out@[out@.len() - 1] == q);
            }
            proof {
                assert forall|p: int|
                    0 <= p < q + 1 && self@.symbols[(#[trigger] self@.rules[p]).head].name
                        == head@ implies out@.contains(p as usize) by {
                    if p < q {
                        let w = choose|w: int| 0 <= w < before.len() && before[w] == p as usize;
                        assert(out@[w] == p as usize);
                    } else {
                        assert(out@[out@.len() - 1] == q);
                    }
                }
            }
            q += 1;
        }
        out
    }

    /// The canonical text of rule `r`.
    pub fn rule_name(&self, r: usize) -> (name: &String)
        requires
            self.wf(),
            r < self@.rules.len(),
        ensures
            name@ == self@.rules[r as int].name,
            name@ == canonical_name(self@.symbols, self@.rules[r as int].head, self@.rules[r as int].body),
    {
        &self.rules[r].name
    }
}

} // verus!
