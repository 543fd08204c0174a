//! The chart: deduplicated spans, column by column, each with the sources
//! that explain how it came to exist.

use crate::grammar::GrammarView;
use vstd::prelude::*;

verus! {

/// One token of the input: the name selects a terminal, the lexeme is what
/// that terminal's pattern sees.
pub struct Token {
    pub name: String,
    pub lexeme: String,
}

/// The mathematical value of a `Token`.
pub struct TokenView {
    pub name: Seq<char>,
    pub lexeme: Seq<char>,
}

impl View for Token {
    type V = TokenView;

    open spec fn view(&self) -> TokenView {
        TokenView { name: self.name@, lexeme: self.lexeme@ }
    }
}

impl Token {
    /// A token whose name and lexeme are the given texts.
    pub fn new(name: &str, lexeme: &str) -> (r: Token)
        ensures
            r@ == (TokenView { name: name@, lexeme: lexeme@ }),
    {
        Token { name: name.to_owned(), lexeme: lexeme.to_owned() }
    }
}

/// The views of a list of tokens.
pub open spec fn token_views(tokens: Seq<Token>) -> Seq<TokenView> {
    Seq::new(tokens.len(), |i: int| tokens[i]@)
}

/// One way in which a span came to exist. Spans are named by their place in
/// the chart. A span without sources is a prediction.
#[derive(Clone, Copy, PartialEq, Eq, Structural)]
pub enum SpanSource {
    /// `source` was advanced over the input token at place `token`.
    Scan { source: usize, token: usize },
    /// `source` was advanced over a non-terminal that `trigger` completed.
    Completion { source: usize, trigger: usize },
}

/// A dotted rule with the column where it began and the column it lies in.
pub struct Span {
    pub rule: usize,
    pub dot: usize,
    pub origin: usize,
    pub end: usize,
    pub sources: Vec<SpanSource>,
}

/// What identifies a span.
pub struct SpanKey {
    pub rule: int,
    pub dot: int,
    pub origin: int,
    pub end: int,
}

impl Span {
    /// The length of the body of the span's rule.
    pub open spec fn body_len(&self, g: GrammarView) -> int {
        g.rules[self.rule as int].body.len() as int
    }

    /// What identifies the span.
    pub open spec fn key(&self) -> SpanKey {
        SpanKey {
            rule: self.rule as int,
            dot: self.dot as int,
            origin: self.origin as int,
            end: self.end as int,
        }
    }
}

/// Whether the dot of `k` stands at the end of its rule.
pub open spec fn is_complete(g: GrammarView, k: SpanKey) -> bool {
    k.dot == g.rules[k.rule].body.len()
}

/// Whether `k` names a rule of `g`, a dot inside it and columns in order.
pub open spec fn key_ok(g: GrammarView, k: SpanKey) -> bool {
    &&& 0 <= k.rule < g.rules.len()
    &&& 0 <= k.dot <= g.rules[k.rule].body.len()
    &&& 0 <= k.origin <= k.end
    &&& (k.dot == 0 ==> k.origin == k.end)
}

/// Whether `src` explains a span with key `k`: the source is the same rule
/// one step earlier, and what it was advanced over is the symbol before the
/// dot of `k`, matched between the source's column and the column of `k`.
pub open spec fn source_ok(
    g: GrammarView,
    keys: Seq<SpanKey>,
    tokens: Seq<TokenView>,
    k: SpanKey,
    src: SpanSource,
) -> bool {
    match src {
        SpanSource::Scan { source, token } => {
            &&& source < keys.len()
            &&& keys[source as int].rule == k.rule
            &&& keys[source as int].dot + 1 == k.dot
            &&& keys[source as int].origin == k.origin
            &&& keys[source as int].end + 1 == k.end
            &&& token == keys[source as int].end
            &&& token < tokens.len()
            &&& g.symbols[g.rules[k.rule].body[k.dot - 1]].accepts(
                tokens[token as int].name,
                tokens[token as int].lexeme,
            )
        },
        SpanSource::Completion { source, trigger } => {
            &&& source < keys.len()
            &&& trigger < keys.len()
            &&& keys[source as int].rule == k.rule
            &&& keys[source as int].dot + 1 == k.dot
            &&& keys[source as int].origin == k.origin
            &&& is_complete(g, keys[trigger as int])
            &&& keys[trigger as int].origin == keys[source as int].end
            &&& keys[trigger as int].end == k.end
            &&& g.rules[keys[trigger as int].rule].head == g.rules[k.rule].body[k.dot - 1]
        },
    }
}

/// Whether `src` names only spans before place `i`.
pub open spec fn earlier(src: SpanSource, i: int) -> bool {
    match src {
        SpanSource::Scan { source, token } => source < i,
        SpanSource::Completion { source, trigger } => source < i && trigger < i,
    }
}

/// A source stays valid when spans are added behind those it names.
pub proof fn lemma_source_ok_extends(
    g: GrammarView,
    keys: Seq<SpanKey>,
    later: Seq<SpanKey>,
    tokens: Seq<TokenView>,
    k: SpanKey,
    src: SpanSource,
)
    requires
        source_ok(g, keys, tokens, k, src),
        keys.len() <= later.len(),
        forall|i: int| 0 <= i < keys.len() ==> later[i] == keys[i],
    ensures
        source_ok(g, later, tokens, k, src),
{
}

/// The spans of all columns, the place where each column begins, and the input.
pub struct Chart {
    pub spans: Vec<Span>,
    pub starts: Vec<usize>,
    pub tokens: Vec<Token>,
}

impl Chart {
    /// The keys of the spans, by place.
    pub open spec fn keys(&self) -> Seq<SpanKey> {
        Seq::new(self.spans@.len(), |i: int| self.spans@[i].key())
    }

    /// The sources of the span at place `i`, in the order in which they were found.
    pub open spec fn sources(&self, i: int) -> Seq<SpanSource> {
        self.spans@[i].sources@
    }

    /// The input.
    pub open spec fn input(&self) -> Seq<TokenView> {
        token_views(self.tokens@)
    }

    /// The number of the last column.
    pub open spec fn last(&self) -> int {
        self.starts@.len() - 1
    }

    /// The columns lie one after the other, and every span lies in the column of its `end`.
    pub open spec fn columns_ok(&self) -> bool {
        &&& self.starts@.len() >= 1
        &&& self.starts@.len() <= self.tokens@.len() + 1
        &&& self.starts@[0] == 0
        &&& forall|c: int, d: int|
            0 <= c <= d < self.starts@.len() ==> #[trigger] self.starts@[c] <= #[trigger] self.starts@[d]
        &&& forall|c: int| 0 <= c < self.starts@.len() ==> #[trigger] self.starts@[c] <= self.spans@.len()
        &&& forall|i: int|
            0 <= i < self.spans@.len() ==> {
                &&& (#[trigger] self.spans@[i]).end < self.starts@.len()
                &&& self.starts@[self.spans@[i].end as int] <= i
                &&& (self.spans@[i].end + 1 < self.starts@.len() ==> i
                    < self.starts@[self.spans@[i].end + 1])
            }
    }

    /// The first source of the span at place `i`.
    pub open spec fn first_source(&self, i: int) -> SpanSource {
        self.spans@[i].sources@[0]
    }

    /// The first source of a span, with which it was made, names earlier spans.
    pub open spec fn ordered(&self) -> bool {
        forall|i: int|
            0 <= i < self.spans@.len() && self.spans@[i].sources@.len() > 0 ==> earlier(
                #[trigger] self.first_source(i),
                i,
            )
    }

    /// Every span is a dotted rule of `g`, predictions have no sources and
    /// every other span has one, and every source explains its span.
    pub open spec fn spans_ok(&self, g: GrammarView) -> bool {
        &&& forall|i: int|
            0 <= i < self.spans@.len() ==> {
                &&& key_ok(g, (#[trigger] self.spans@[i]).key())
                &&& (self.spans@[i].dot == 0 <==> self.spans@[i].sources@.len() == 0)
            }
        &&& forall|i: int, s: int|
            0 <= i < self.spans@.len() && 0 <= s < self.spans@[i].sources@.len() ==> source_ok(
                g,
                self.keys(),
                self.input(),
                self.spans@[i].key(),
                #[trigger] self.spans@[i].sources@[s],
            )
    }

    /// No two spans have the same key, and no span has the same source twice.
    pub open spec fn deduplicated(&self) -> bool {
        &&& forall|i: int, j: int|
            0 <= i < j < self.spans@.len() ==> (#[trigger] self.spans@[i]).key()
                != (#[trigger] self.spans@[j]).key()
        &&& forall|i: int, s: int, t: int|
            0 <= i < self.spans@.len() && 0 <= s < t < self.spans@[i].sources@.len()
                ==> #[trigger] self.spans@[i].sources@[s] != #[trigger] self.spans@[i].sources@[t]
    }

    /// What holds of a chart at every moment of recognition and ever after.
    pub open spec fn wf(&self, g: GrammarView) -> bool {
        &&& self.columns_ok()
        &&& self.spans_ok(g)
        &&& self.deduplicated()
        &&& self.ordered()
    }

    /// Whether `later` is this chart with spans and sources added and nothing else changed.
    pub open spec fn grown_to(&self, later: &Chart) -> bool {
        &&& self.starts@ == later.starts@
        &&& self.tokens@ == later.tokens@
        &&& self.spans@.len() <= later.spans@.len()
        &&& forall|i: int|
            0 <= i < self.spans@.len() ==> (#[trigger] later.spans@[i]).key() == self.spans@[i].key()
        &&& self.sources_kept(later)
    }

    /// Whether every span of this chart has its sources in `later` too.
    pub open spec fn sources_kept(&self, later: &Chart) -> bool {
        forall|i: int, s: SpanSource|
            0 <= i < self.spans@.len() && i < later.spans@.len() && self.spans@[i].sources@.contains(s)
                ==> #[trigger] later.spans@[i].sources@.contains(s)
    }
}

/// Whether `src` occurs in `sources`.
pub fn has_source(sources: &Vec<SpanSource>, src: SpanSource) -> (r: bool)
    ensures
        r == sources@.contains(src),
{
    let mut i: usize = 0;
    while i < sources.len()
        invariant
            i <= sources.len(),
            forall|j: int| 0 <= j < i ==> sources@[j] != src,
        decreases sources.len() - i,
    {
        if sources[i] == src {
            return true;
        }
        i += 1;
    }
    false
}

impl Chart {
    /// Puts the span `(rule, dot, origin)` into the last column, or finds it
    /// there, and gives it `source` unless it has that source already.
    /// Returns the place of the span.
    pub(crate) fn add(
        &mut self,
        Ghost(g): Ghost<GrammarView>,
        rule: usize,
        dot: usize,
        origin: usize,
        source: Option<SpanSource>,
    ) -> (place: usize)
        requires
            old(self).wf(g),
            key_ok(
                g,
                SpanKey { rule: rule as int, dot: dot as int, origin: origin as int, end: old(self).last() },
            ),
            dot == 0 <==> source is None,
            source matches Some(src) ==> source_ok(
                g,
                old(self).keys(),
                old(self).input(),
                SpanKey { rule: rule as int, dot: dot as int, origin: origin as int, end: old(self).last() },
                src,
            ),
        ensures
            final(self).wf(g),
            old(self).grown_to(final(self)),
            final(self).spans@.len() <= old(self).spans@.len() + 1,
            place < final(self).spans@.len(),
            final(self).spans@[place as int].key() == (SpanKey {
                rule: rule as int,
                dot: dot as int,
                origin: origin as int,
                end: old(self).last(),
            }),
            source matches Some(src) ==> final(self).spans@[place as int].sources@.contains(src),
    {
        let last: usize = self.starts.len() - 1;
        let ghost key = SpanKey { rule: rule as int, dot: dot as int, origin: origin as int, end: last as int };
        let ghost before = *self;
        let mut j: usize = self.starts[last];
        while j < self.spans.len()
            invariant
                *self == before,
                before == *old(self),
                before.wf(g),
                dot == 0 <==> source is None,
                source matches Some(src) ==> source_ok(g, before.keys(), before.input(), key, src),
                last == before.last(),
                self.starts@[last as int] <= j <= self.spans.len(),
                key == (SpanKey { rule: rule as int, dot: dot as int, origin: origin as int, end: last as int }),
                forall|i: int| self.starts@[last as int] <= i < j ==> (#[trigger] self.spans@[i]).key() != key,
            decreases self.spans.len() - j,
        {
            if self.spans[j].rule == rule && self.spans[j].dot == dot && self.spans[j].origin == origin {
                assert(self.spans@[j as int].key() == key);
                match source {
                    None => {},
                    Some(src) => {
                        if !has_source(&self.spans[j].sources, src) {
                            self.spans[j].sources.push(src);
                            proof {
                                assert(self.keys() =~= before.keys());
                                assert(self.input() == before.input());
                                assert forall|i: int, s: SpanSource|
                                    0 <= i < before.spans@.len() && before.spans@[i].sources@.contains(
                                        s,
                                    ) implies #[trigger] self.spans@[i].sources@.contains(s) by {
                                    let w = choose|w: int|
                                        0 <= w < before.spans@[i].sources@.len() && before.spans@[i].sources@[w] == s;
                                    assert(self.spans@[i].sources@[w] == s);
                                }
                                assert forall|i: int|
                                    0 <= i < self.spans@.len() implies (#[trigger] self.spans@[i]).key()
                                    == before.spans@[i].key() by {}
                                assert forall|i: int, s: int|
                                    0 <= i < self.spans@.len() && 0 <= s
                                        < self.spans@[i].sources@.len() implies source_ok(
                                    g,
                                    self.keys(),
                                    self.input(),
                                    self.spans@[i].key(),
                                    #[trigger] self.spans@[i].sources@[s],
                                ) by {
                                    if i == j && s == before.spans@[i].sources@.len() {
                                        assert(self.spans@[i].sources@[s] == src);
                                    } else {
                                        assert(before.spans@[i].key() == self.spans@[i].key());
                                        assert(self.spans@[i].sources@[s] == before.spans@[i].sources@[s]);
                                    }
                                }
                                assert forall|i: int, s: int, t: int|
                                    0 <= i < self.spans@.len() && 0 <= s < t
                                        < self.spans@[i].sources@.len() implies #[trigger] self.spans@[i].sources@[s]
                                    != #[trigger] self.spans@[i].sources@[t] by {
                                    if i == j && t == before.spans@[i].sources@.len() {
                                        assert(self.spans@[i].sources@[s] == before.spans@[i].sources@[s]);
                                    } else {
                                        assert(self.spans@[i].sources@[s] == before.spans@[i].sources@[s]);
                                        assert(self.spans@[i].sources@[t] == before.spans@[i].sources@[t]);
                                    }
                                }
                                assert(self.spans@[j as int].sources@[before.spans@[j as int].sources@.len() as int]
                                    == src);
                                assert forall|i: int|
                                    0 <= i < self.spans@.len() && self.spans@[i].sources@.len() > 0 implies earlier(
                                    #[trigger] self.first_source(i),
                                    i,
                                ) by {
                                    assert(before.spans@[i].sources@.len() > 0);
                                    assert(self.first_source(i) == before.first_source(i));
                                }
                            }
                        }
                    },
                }
                return j;
            }
            j += 1;
        }
        let mut sources: Vec<SpanSource> = Vec::new();
        match source {
            None => {},
            Some(src) => {
                sources.push(src);
            },
        }
        let place: usize = self.spans.len();
        self.spans.push(Span { rule, dot, origin, end: last, sources });
        proof {
            if source is Some {
                assert(self.spans@[place as int].sources@[0] == source->Some_0);
            }
            assert(self.input() == before.input());
            assert forall|i: int| 0 <= i < before.spans@.len() implies (#[trigger] self.spans@[i])
                == before.spans@[i] by {}
            assert forall|i: int| 0 <= i < before.keys().len() implies self.keys()[i] == before.keys()[i] by {}
            assert forall|i: int, s: int|
                0 <= i < self.spans@.len() && 0 <= s < self.spans@[i].sources@.len() implies source_ok(
                g,
                self.keys(),
                self.input(),
                self.spans@[i].key(),
                #[trigger] self.spans@[i].sources@[s],
            ) by {
                if i < place {
                    assert(self.spans@[i] == before.spans@[i]);
                    lemma_source_ok_extends(
                        g,
                        before.keys(),
                        self.keys(),
                        before.input(),
                        before.spans@[i].key(),
                        before.spans@[i].sources@[s],
                    );
                } else {
                    lemma_source_ok_extends(
                        g,
                        before.keys(),
                        self.keys(),
                        before.input(),
                        key,
                        source->Some_0,
                    );
                }
            }
            assert forall|i: int, s: SpanSource|
                0 <= i < before.spans@.len() && before.spans@[i].sources@.contains(
                    s,
                ) implies #[trigger] self.spans@[i].sources@.contains(s) by {
                assert(self.spans@[i] == before.spans@[i]);
            }
            assert forall|i: int| 0 <= i < self.spans@.len() && self.spans@[i].sources@.len() > 0 implies earlier(
                #[trigger] self.first_source(i),
                i,
            ) by {
                if i < place {
                    assert(self.spans@[i] == before.spans@[i]);
                    assert(self.first_source(i) == before.first_source(i));
                }
            }
            assert forall|i: int, k: int| 0 <= i < k < self.spans@.len() implies (#[trigger] self.spans@[i]).key()
                != (#[trigger] self.spans@[k]).key() by {
                assert(self.spans@[i] == before.spans@[i]);
                if k < place {
                    assert(self.spans@[k] == before.spans@[k]);
                } else if i < before.starts@[last as int] {
                    assert(before.spans@[i].end != last);
                }
            }
        }
        place
    }
}

} // verus!
