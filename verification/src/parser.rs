//! The recogniser: it fills the chart column by column with predictions,
//! completions and scans, and hands out the spans that derive the whole input.

use crate::chart::{is_complete, key_ok, source_ok, token_views, Chart, SpanKey, SpanSource, Token};
use crate::completeness::{
    advanced, begun, closed, completed, expects, has, lemma_closed_grows, lemma_completed_grows, lemma_has_grows,
    lemma_predicted_grows, lemma_scanned_grows, lemma_worked_grows, lemma_worked_step, occupied, predicted, scanned,
    worked,
};
use crate::grammar::{
    lemma_names_distinct, lemma_rule_bounds, lookup, Grammar, GrammarView, RuleView, SymbolKind,
};
use vstd::prelude::*;

verus! {

/// Why an input was refused.
#[derive(Debug)]
pub enum ParseError {
    /// No span of the given column could be advanced over the token with this lexeme.
    UnexpectedToken(usize, String),
    /// The input ended in the given column before the start symbol was complete.
    UnexpectedEnd(usize),
}

impl ParseError {
    /// The column that the error names.
    pub fn column(&self) -> (c: usize)
        ensures
            c == match self {
                ParseError::UnexpectedToken(c, _) => *c,
                ParseError::UnexpectedEnd(c) => *c,
            },
    {
        match self {
            ParseError::UnexpectedToken(c, _) => *c,
            ParseError::UnexpectedEnd(c) => *c,
        }
    }
}

/// The length of the longest body among `rules`.
pub open spec fn longest_body(rules: Seq<RuleView>) -> int
    decreases rules.len(),
{
    if rules.len() == 0 {
        0
    } else if rules.last().body.len() > longest_body(rules.drop_last()) {
        rules.last().body.len() as int
    } else {
        longest_body(rules.drop_last())
    }
}

/// No body is longer than the longest.
pub proof fn lemma_longest_body(rules: Seq<RuleView>, r: int)
    requires
        0 <= r < rules.len(),
    ensures
        rules[r].body.len() <= longest_body(rules),
    decreases rules.len(),
{
    if r < rules.len() - 1 {
        lemma_longest_body(rules.drop_last(), r);
    }
}

/// How many different spans column `k` can hold: one for each origin up to
/// `k`, each rule and each place of the dot.
pub open spec fn column_room(g: GrammarView, k: int) -> int {
    (k + 1) * g.rules.len() * (longest_body(g.rules) + 1)
}

/// A number that tells the spans of one column apart.
pub open spec fn span_code(g: GrammarView, k: SpanKey) -> int {
    (k.origin * g.rules.len() + k.rule) * (longest_body(g.rules) + 1) + k.dot
}

proof fn lemma_code_range(origin: int, rule: int, dot: int, k: int, r: int, l: int)
    requires
        0 <= origin <= k,
        0 <= rule < r,
        0 <= dot <= l,
    ensures
        0 <= (origin * r + rule) * (l + 1) + dot < (k + 1) * r * (l + 1),
{
    assert(0 <= origin * r + rule < (k + 1) * r) by (nonlinear_arith)
        requires
            0 <= origin <= k,
            0 <= rule < r,
    ;
    let a = origin * r + rule;
    let b = (k + 1) * r;
    assert(0 <= a * (l + 1) + dot < b * (l + 1)) by (nonlinear_arith)
        requires
            0 <= a < b,
            0 <= dot <= l,
    ;
}

proof fn lemma_pair_apart(a1: int, b1: int, a2: int, b2: int, m: int)
    requires
        0 <= b1 < m,
        0 <= b2 < m,
        a1 * m + b1 == a2 * m + b2,
    ensures
        a1 == a2,
        b1 == b2,
{
    assert(a1 == a2) by (nonlinear_arith)
        requires
            0 <= b1 < m,
            0 <= b2 < m,
            a1 * m + b1 == a2 * m + b2,
    ;
}

/// Distinct numbers below `n` are at most `n` many.
pub proof fn lemma_distinct_bounded(codes: Seq<int>, n: int)
    requires
        0 <= n,
        forall|i: int| 0 <= i < codes.len() ==> 0 <= #[trigger] codes[i] < n,
        forall|i: int, j: int| 0 <= i < j < codes.len() ==> codes[i] != codes[j],
    ensures
        codes.len() <= n,
{
    assert(codes.no_duplicates()) by {
        assert forall|i: int, j: int| 0 <= i < codes.len() && 0 <= j < codes.len() && i != j implies codes[i]
            != codes[j] by {
            if i < j {
            } else {
                assert(codes[j] != codes[i]);
            }
        }
    }
    codes.unique_seq_to_set();
    vstd::set_lib::lemma_int_range(0, n);
    assert(codes.to_set().subset_of(vstd::set_lib::set_int_range(0, n))) by {
        assert forall|c: int| codes.to_set().contains(c) implies vstd::set_lib::set_int_range(0, n).contains(
            c,
        ) by {
            let i = choose|i: int| 0 <= i < codes.len() && codes[i] == c;
            assert(0 <= codes[i] < n);
        }
    }
    vstd::set_lib::lemma_len_subset(codes.to_set(), vstd::set_lib::set_int_range(0, n));
}

/// A span whose place lies in column `c` has `c` as its end.
pub proof fn lemma_column_of(chart: &Chart, j: int, c: int)
    requires
        chart.columns_ok(),
        0 <= c < chart.starts@.len(),
        chart.starts@[c] <= j < chart.spans@.len(),
        c + 1 < chart.starts@.len() ==> j < chart.starts@[c + 1],
    ensures
        chart.spans@[j].end == c,
{
    let e = chart.spans@[j].end as int;
    if e < c {
        assert(chart.starts@[e + 1] <= chart.starts@[c]);
    } else if e > c {
        assert(chart.starts@[c + 1] <= chart.starts@[e]);
    }
}

/// Where column `c` ends.
pub open spec fn column_end(chart: &Chart, c: int) -> int {
    if c + 1 < chart.starts@.len() {
        chart.starts@[c + 1] as int
    } else {
        chart.spans@.len() as int
    }
}

/// A column never holds more spans than there are keys for it.
pub proof fn lemma_column_bound(chart: &Chart, g: GrammarView, c: int)
    requires
        chart.wf(g),
        0 <= c < chart.starts@.len(),
    ensures
        column_end(chart, c) - chart.starts@[c] <= column_room(g, c),
{
    let lo = chart.starts@[c] as int;
    let hi = column_end(chart, c);
    assert(lo <= hi <= chart.spans@.len()) by {
        if c + 1 < chart.starts@.len() {
            assert(chart.starts@[c] <= chart.starts@[c + 1]);
        }
    }
    let n = hi - lo;
    let r = g.rules.len() as int;
    let l = longest_body(g.rules);
    let codes = Seq::new(n as nat, |i: int| span_code(g, chart.spans@[lo + i].key()));
    assert forall|i: int| 0 <= i < codes.len() implies 0 <= #[trigger] codes[i] < column_room(g, c) by {
        let k = chart.spans@[lo + i].key();
        lemma_column_of(chart, lo + i, c);
        lemma_longest_body(g.rules, k.rule);
        lemma_code_range(k.origin, k.rule, k.dot, c, r, l);
    }
    assert forall|i: int, j: int| 0 <= i < j < codes.len() implies codes[i] != codes[j] by {
        let a = chart.spans@[lo + i].key();
        let b = chart.spans@[lo + j].key();
        lemma_column_of(chart, lo + i, c);
        lemma_column_of(chart, lo + j, c);
        lemma_longest_body(g.rules, a.rule);
        lemma_longest_body(g.rules, b.rule);
        if codes[i] == codes[j] {
            lemma_pair_apart(a.origin * r + a.rule, a.dot, b.origin * r + b.rule, b.dot, l + 1);
            lemma_pair_apart(a.origin, a.rule, b.origin, b.rule, r);
            assert(a == b);
        }
    }
    assert(0 <= column_room(g, c)) by (nonlinear_arith)
        requires
            c >= 0,
            r >= 0,
            l >= 0,
            column_room(g, c) == (c + 1) * r * (l + 1),
    ;
    lemma_distinct_bounded(codes, column_room(g, c));
}

/// The room of the first `n` columns together.
pub open spec fn chart_room(g: GrammarView, n: int) -> int
    decreases n,
{
    if n <= 0 {
        0
    } else {
        chart_room(g, n - 1) + column_room(g, n - 1)
    }
}

/// Sharing: the columns before column `c` hold no more spans than there
/// are keys for them, one for each end, origin, rule and place of the dot.
pub proof fn lemma_columns_bound(chart: &Chart, g: GrammarView, c: int)
    requires
        chart.wf(g),
        0 <= c < chart.starts@.len(),
    ensures
        chart.starts@[c] <= chart_room(g, c),
    decreases c,
{
    if c > 0 {
        lemma_columns_bound(chart, g, c - 1);
        lemma_column_bound(chart, g, c - 1);
    }
}

/// Sharing: a chart holds no more spans than there are keys, so its size
/// is bounded by the grammar's size and the square of the number of columns.
pub proof fn lemma_sharing(chart: &Chart, g: GrammarView)
    requires
        chart.wf(g),
    ensures
        chart.deduplicated(),
        chart.spans@.len() <= chart_room(g, chart.starts@.len() as int),
{
    lemma_columns_bound(chart, g, chart.last());
    lemma_column_bound(chart, g, chart.last());
}

/// Prediction for the span at place `i`, which stands before the
/// non-terminal `sym`: every rule of `sym` begins in the last column, and
/// the span is advanced over every empty derivation of `sym` that the
/// column already holds.
fn predict(g: &Grammar, chart: &mut Chart, i: usize, sym: usize)
    requires
        g.wf(),
        old(chart).wf(g@),
        i < old(chart).spans@.len(),
        old(chart).spans@[i as int].end == old(chart).last(),
        old(chart).spans@[i as int].dot < g@.rules[old(chart).spans@[i as int].rule as int].body.len(),
        g@.rules[old(chart).spans@[i as int].rule as int].body[old(chart).spans@[i as int].dot as int] == sym,
        closed(g@, old(chart), i as int),
    ensures
        final(chart).wf(g@),
        old(chart).grown_to(final(chart)),
        closed(g@, final(chart), i as int),
        predicted(g@, final(chart), i as int),
        forall|t: int| 0 <= t <= i ==> #[trigger] completed(g@, final(chart), i as int, t),
{
    let last: usize = chart.starts.len() - 1;
    let rule: usize = chart.spans[i].rule;
    let dot: usize = chart.spans[i].dot;
    let origin: usize = chart.spans[i].origin;
    let ghost key = chart.spans@[i as int].key();
    proof {
        lemma_rule_bounds(g.symbols@, g.rules@, rule as int);
        assert(g@.rules[rule as int] == g.rules@[rule as int]@);
    }
    let body_len: usize = g.rules[rule].body.len();
    let mut r: usize = 0;
    while r < g.rules.len()
        invariant
            g.wf(),
            chart.wf(g@),
            old(chart).grown_to(chart),
            last == chart.last(),
            i < old(chart).spans@.len(),
            r <= g.rules.len(),
            closed(g@, chart, i as int),
            forall|q: int| 0 <= q < r && (#[trigger] g@.rules[q]).head == sym ==> has(chart, begun(q, last as int)),
        decreases g.rules.len() - r,
    {
        proof {
            assert(g@.rules[r as int] == g.rules@[r as int]@);
        }
        if g.rules[r].head == sym {
            let ghost mid = *chart;
            chart.add(Ghost(g@), r, 0, last, None);
            proof {
                lemma_closed_grows(g@, &mid, chart, i as int);
                assert forall|q: int| 0 <= q < r + 1 && (#[trigger] g@.rules[q]).head == sym implies has(
                    chart,
                    begun(q, last as int),
                ) by {
                    if q < r {
                        lemma_has_grows(&mid, chart, begun(q, last as int));
                    }
                }
            }
        }
        r += 1;
    }
    let hi: usize = chart.spans.len();
    let mut j: usize = chart.starts[last];
    proof {
        assert(chart.spans@[i as int].key() == key);
        assert(predicted(g@, chart, i as int));
        assert forall|t: int| 0 <= t < j && t < chart.spans@.len() implies #[trigger] completed(
            g@,
            chart,
            i as int,
            t,
        ) by {
            assert(key_ok(g@, chart.spans@[t].key()));
            assert(chart.starts@[chart.spans@[t].end as int] <= t);
        }
    }
    while j < hi
        invariant
            g.wf(),
            chart.wf(g@),
            old(chart).grown_to(chart),
            last == chart.last(),
            hi <= chart.spans@.len(),
            i < old(chart).spans@.len(),
            chart.starts@[last as int] <= j,
            key == chart.spans@[i as int].key(),
            key == (SpanKey { rule: rule as int, dot: dot as int, origin: origin as int, end: last as int }),
            dot < g@.rules[rule as int].body.len(),
            dot < body_len,
            g@.rules[rule as int].body[dot as int] == sym,
            closed(g@, chart, i as int),
            predicted(g@, chart, i as int),
            i < hi,
            forall|t: int| 0 <= t < j && t < chart.spans@.len() ==> #[trigger] completed(g@, chart, i as int, t),
        decreases hi - j,
    {
        let ghost mid = *chart;
        let t_rule: usize = chart.spans[j].rule;
        proof {
            lemma_rule_bounds(g.symbols@, g.rules@, t_rule as int);
            lemma_rule_bounds(g.symbols@, g.rules@, rule as int);
            assert(g@.rules[t_rule as int] == g.rules@[t_rule as int]@);
            assert(g@.rules[rule as int] == g.rules@[rule as int]@);
            lemma_column_of(chart, j as int, last as int);
        }
        if chart.spans[j].dot == g.rules[t_rule].body.len() && chart.spans[j].origin == last
            && g.rules[t_rule].head == sym {
            chart.add(
                Ghost(g@),
                rule,
                dot + 1,
                origin,
                Some(SpanSource::Completion { source: i, trigger: j }),
            );
        }
        proof {
            lemma_closed_grows(g@, &mid, chart, i as int);
            lemma_predicted_grows(g@, &mid, chart, i as int);
            assert forall|t: int| 0 <= t < j + 1 && t < chart.spans@.len() implies #[trigger] completed(
                g@,
                chart,
                i as int,
                t,
            ) by {
                if t < j {
                    lemma_completed_grows(g@, &mid, chart, i as int, t);
                } else {
                    assert(chart.spans@[t].key() == mid.spans@[t].key());
                    assert(chart.spans@[i as int].key() == key);
                }
            }
        }
        j += 1;
    }
}

/// Completion for the complete span at place `i` of the last column: every
/// span of its origin column that stands before its head is advanced.
fn complete(g: &Grammar, chart: &mut Chart, i: usize)
    requires
        g.wf(),
        old(chart).wf(g@),
        i < old(chart).spans@.len(),
        old(chart).spans@[i as int].end == old(chart).last(),
        is_complete(g@, old(chart).spans@[i as int].key()),
        closed(g@, old(chart), i as int),
    ensures
        final(chart).wf(g@),
        old(chart).grown_to(final(chart)),
        closed(g@, final(chart), i as int),
        forall|x: int| 0 <= x <= i ==> #[trigger] completed(g@, final(chart), x, i as int),
{
    let last: usize = chart.starts.len() - 1;
    let rule: usize = chart.spans[i].rule;
    let origin: usize = chart.spans[i].origin;
    proof {
        lemma_rule_bounds(g.symbols@, g.rules@, rule as int);
        assert(g@.rules[rule as int] == g.rules@[rule as int]@);
    }
    let head: usize = g.rules[rule].head;
    let ghost key = chart.spans@[i as int].key();
    let hi: usize = if origin == last {
        chart.spans.len()
    } else {
        chart.starts[origin + 1]
    };
    let mut j: usize = chart.starts[origin];
    proof {
        assert forall|x: int| 0 <= x < j && x < chart.spans@.len() implies #[trigger] completed(
            g@,
            chart,
            x,
            i as int,
        ) by {
            assert(chart.starts@[chart.spans@[x].end as int] <= x);
            if chart.spans@[x].end >= origin {
                assert(chart.starts@[origin as int] <= chart.starts@[chart.spans@[x].end as int]);
            }
        }
    }
    while j < hi
        invariant
            g.wf(),
            chart.wf(g@),
            old(chart).grown_to(chart),
            last == chart.last(),
            closed(g@, chart, i as int),
            origin == last ==> i < hi,
            forall|x: int| 0 <= x < j && x < chart.spans@.len() ==> #[trigger] completed(g@, chart, x, i as int),
            origin <= last,
            hi <= chart.spans@.len(),
            origin < last ==> hi == chart.starts@[origin + 1],
            i < old(chart).spans@.len(),
            chart.starts@[origin as int] <= j,
            key == chart.spans@[i as int].key(),
            key.end == last,
            key.origin == origin,
            key.rule == rule,
            is_complete(g@, key),
            head == g@.rules[rule as int].head,
        decreases hi - j,
    {
        let ghost mid = *chart;
        let s_rule: usize = chart.spans[j].rule;
        let s_dot: usize = chart.spans[j].dot;
        let s_origin: usize = chart.spans[j].origin;
        proof {
            lemma_rule_bounds(g.symbols@, g.rules@, s_rule as int);
            assert(g@.rules[s_rule as int] == g.rules@[s_rule as int]@);
            lemma_column_of(chart, j as int, origin as int);
        }
        if s_dot < g.rules[s_rule].body.len() && g.rules[s_rule].body[s_dot] == head {
            assert(g@.rules[s_rule as int].body[s_dot as int] == g.rules@[s_rule as int].body@[s_dot as int]);
            chart.add(
                Ghost(g@),
                s_rule,
                s_dot + 1,
                s_origin,
                Some(SpanSource::Completion { source: j, trigger: i }),
            );
        }
        proof {
            lemma_closed_grows(g@, &mid, chart, i as int);
            assert forall|x: int| 0 <= x < j + 1 && x < chart.spans@.len() implies #[trigger] completed(
                g@,
                chart,
                x,
                i as int,
            ) by {
                if x < j {
                    lemma_completed_grows(g@, &mid, chart, x, i as int);
                } else {
                    assert(chart.spans@[x].key() == mid.spans@[x].key());
                    assert(chart.spans@[i as int].key() == key);
                }
            }
        }
        j += 1;
    }
    proof {
        assert forall|x: int| 0 <= x <= i implies #[trigger] completed(g@, chart, x, i as int) by {
            if x >= hi {
                assert(chart.starts@[chart.spans@[x].end as int] <= x);
                assert(chart.spans@[x].end + 1 < chart.starts@.len() ==> x < chart.starts@[chart.spans@[x].end + 1]);
                assert(chart.spans@[i as int].key() == key);
            }
        }
    }
}

/// Closure of the last column: every span of it, those found on the way
/// too, is visited once, in the order in which it was found.
fn close_column(g: &Grammar, chart: &mut Chart)
    requires
        g.wf(),
        old(chart).wf(g@),
        closed(g@, old(chart), old(chart).starts@[old(chart).last()] as int),
    ensures
        final(chart).wf(g@),
        old(chart).grown_to(final(chart)),
        closed(g@, final(chart), final(chart).spans@.len() as int),
{
    let last: usize = chart.starts.len() - 1;
    let mut i: usize = chart.starts[last];
    while i < chart.spans.len()
        invariant
            g.wf(),
            chart.wf(g@),
            old(chart).grown_to(chart),
            last == chart.last(),
            chart.starts@[last as int] <= i <= chart.spans@.len(),
            closed(g@, chart, i as int),
        decreases chart.starts@[last as int] + column_room(g@, last as int) - i,
    {
        proof {
            lemma_column_bound(chart, g@, last as int);
            lemma_column_of(chart, i as int, last as int);
        }
        let rule: usize = chart.spans[i].rule;
        let dot: usize = chart.spans[i].dot;
        proof {
            lemma_rule_bounds(g.symbols@, g.rules@, rule as int);
            assert(g@.rules[rule as int] == g.rules@[rule as int]@);
        }
        let ghost key = chart.spans@[i as int].key();
        if dot < g.rules[rule].body.len() {
            let sym: usize = g.rules[rule].body[dot];
            assert(g@.rules[rule as int].body[dot as int] == sym);
            if !g.symbols[sym].is_terminal() {
                predict(g, chart, i, sym);
            } else {
                proof {
                    assert(g@.symbols[sym as int] == g.symbols@[sym as int]@);
                    assert forall|q: int|
                        0 <= q < g@.rules.len() && expects(g@, key, (#[trigger] g@.rules[q]).head) implies has(
                        chart,
                        begun(q, key.end),
                    ) by {
                        assert(!g@.symbols[g@.rules[q].head].is_terminal());
                    }
                    assert forall|t: int| 0 <= t <= i implies #[trigger] completed(g@, chart, i as int, t) by {
                        assert(key_ok(g@, chart.spans@[t].key()));
                        assert(!g@.symbols[g@.rules[chart.spans@[t].rule as int].head].is_terminal());
                    }
                }
            }
            proof {
                assert(chart.spans@[i as int].key() == key);
                assert forall|x: int| 0 <= x <= i implies #[trigger] completed(g@, chart, x, i as int) by {}
            }
        } else {
            complete(g, chart, i);
            proof {
                assert(chart.spans@[i as int].key() == key);
                assert(predicted(g@, chart, i as int));
                assert forall|t: int| 0 <= t <= i implies #[trigger] completed(g@, chart, i as int, t) by {}
            }
        }
        proof {
            lemma_worked_step(g@, chart, i as int);
        }
        i += 1;
    }
}


/// The terminal that accepts `token`, if there is one.
pub fn accepting_terminal(g: &Grammar, token: &Token) -> (r: Option<usize>)
    requires
        g.wf(),
    ensures
        match r {
            Some(t) => t < g@.symbols.len() && g@.symbols[t as int].accepts(token@.name, token@.lexeme),
            None => forall|t: int|
                0 <= t < g@.symbols.len() ==> !(#[trigger] g@.symbols[t]).accepts(
                    token@.name,
                    token@.lexeme,
                ),
        },
{
    proof {
        lemma_names_distinct(g.symbols@, g.rules@);
    }
    match lookup(&g.symbols, &token.name) {
        Some(t) => {
            assert(g@.symbols[t as int] == g.symbols@[t as int]@);
            let hit = match &g.symbols[t].kind {
                SymbolKind::NonTerminal => false,
                SymbolKind::Terminal(p) => p.matches(&token.lexeme),
            };
            if hit {
                Some(t)
            } else {
                proof {
                    assert forall|u: int| 0 <= u < g@.symbols.len() implies !(#[trigger] g@.symbols[u]).accepts(
                        token@.name,
                        token@.lexeme,
                    ) by {
                        if g@.symbols[u].name == token@.name {
                            crate::grammar::lemma_index_of_name(g@.symbols, token@.name, u);
                        }
                    }
                }
                None
            }
        },
        None => None,
    }
}

/// Opens column `k + 1` and advances into it every span of column `k` that
/// stands before the terminal `t`, which accepts token `k`.
fn scan_column(g: &Grammar, chart: &mut Chart, k: usize, t: Option<usize>)
    requires
        g.wf(),
        old(chart).wf(g@),
        k == old(chart).last(),
        k < old(chart).tokens@.len(),
        t matches Some(t) ==> t < g@.symbols.len() && g@.symbols[t as int].accepts(
            old(chart).input()[k as int].name,
            old(chart).input()[k as int].lexeme,
        ),
        t is None ==> forall|s: int|
            0 <= s < g@.symbols.len() ==> !(#[trigger] g@.symbols[s]).accepts(
                old(chart).input()[k as int].name,
                old(chart).input()[k as int].lexeme,
            ),
        closed(g@, old(chart), old(chart).spans@.len() as int),
    ensures
        final(chart).wf(g@),
        final(chart).tokens@ == old(chart).tokens@,
        final(chart).starts@ == old(chart).starts@.push(old(chart).spans@.len() as usize),
        old(chart).spans@.len() <= final(chart).spans@.len(),
        closed(g@, final(chart), old(chart).spans@.len() as int),
{
    let lo: usize = chart.starts[k];
    let hi: usize = chart.spans.len();
    let ghost before = *chart;
    chart.starts.push(hi);
    proof {
        assert(chart.keys() =~= before.keys());
        assert(chart.input() == before.input());
        assert forall|c: int, d: int| 0 <= c <= d < chart.starts@.len() implies #[trigger] chart.starts@[c]
            <= #[trigger] chart.starts@[d] by {
            if d < before.starts@.len() {
                assert(before.starts@[c] <= before.starts@[d]);
            } else if c < before.starts@.len() {
                assert(before.starts@[c] <= before.spans@.len());
            }
        }
        assert forall|i: int| 0 <= i < chart.spans@.len() && chart.spans@[i].sources@.len() > 0 implies crate::chart::earlier(
            #[trigger] chart.first_source(i),
            i,
        ) by {
            assert(chart.first_source(i) == before.first_source(i));
        }
        assert forall|i: int| 0 <= i < chart.spans@.len() implies {
            &&& (#[trigger] chart.spans@[i]).end < chart.starts@.len()
            &&& chart.starts@[chart.spans@[i].end as int] <= i
            &&& (chart.spans@[i].end + 1 < chart.starts@.len() ==> i < chart.starts@[chart.spans@[i].end + 1])
        } by {
            assert(chart.spans@[i] == before.spans@[i]);
        }
        assert(chart.wf(g@));
        assert(before.sources_kept(chart)) by {
            assert forall|i: int, s: SpanSource|
                0 <= i < before.spans@.len() && i < chart.spans@.len() && before.spans@[i].sources@.contains(
                    s,
                ) implies #[trigger] chart.spans@[i].sources@.contains(s) by {
                assert(chart.spans@[i] == before.spans@[i]);
            }
        }
        lemma_worked_grows(g@, &before, chart, hi as int);
        assert forall|x: int| 0 <= x < chart.spans@.len() && (x < lo || t is None) implies #[trigger] scanned(
            g@,
            chart,
            x,
        ) by {
            assert(scanned(g@, &before, x));
            assert(chart.spans@[x] == before.spans@[x]);
            assert(key_ok(g@, chart.spans@[x].key()));
            if x < lo {
                assert(before.starts@[before.spans@[x].end as int] <= x);
                if before.spans@[x].end >= k {
                    assert(before.starts@[k as int] <= before.starts@[before.spans@[x].end as int]);
                }
                lemma_scanned_grows(g@, &before, chart, x);
            } else {
                lemma_column_of(chart, x, k as int);
                lemma_rule_bounds(g.symbols@, g.rules@, chart.spans@[x].rule as int);
            }
        }
    }
    let t = match t {
        Some(t) => t,
        None => {
            return ;
        },
    };
    let mut j: usize = lo;
    while j < hi
        invariant
            g.wf(),
            chart.wf(g@),
            chart.tokens@ == before.tokens@,
            chart.starts@ == before.starts@.push(hi),
            k + 1 == chart.last(),
            k < chart.tokens@.len(),
            lo == chart.starts@[k as int],
            hi == chart.starts@[k + 1],
            hi <= chart.spans@.len(),
            lo <= j,
            t < g@.symbols.len(),
            g@.symbols[t as int].accepts(chart.input()[k as int].name, chart.input()[k as int].lexeme),
            worked(g@, chart, hi as int),
            forall|x: int| 0 <= x < chart.spans@.len() && (x < j || x >= hi) ==> #[trigger] scanned(g@, chart, x),
        decreases hi - j,
    {
        let ghost mid = *chart;
        let rule: usize = chart.spans[j].rule;
        let dot: usize = chart.spans[j].dot;
        let origin: usize = chart.spans[j].origin;
        proof {
            lemma_rule_bounds(g.symbols@, g.rules@, rule as int);
            assert(g@.rules[rule as int] == g.rules@[rule as int]@);
            lemma_column_of(chart, j as int, k as int);
        }
        if dot < g.rules[rule].body.len() && g.rules[rule].body[dot] == t {
            assert(g@.rules[rule as int].body[dot as int] == t);
            let ghost mid = *chart;
            chart.add(Ghost(g@), rule, dot + 1, origin, Some(SpanSource::Scan { source: j, token: k }));
            assert(chart.input() == mid.input());
        }
        proof {
            lemma_worked_grows(g@, &mid, chart, hi as int);
            assert(chart.input() == mid.input());
            assert forall|x: int|
                0 <= x < chart.spans@.len() && (x < j + 1 || x >= hi) implies #[trigger] scanned(g@, chart, x) by {
                if x < j {
                    lemma_scanned_grows(g@, &mid, chart, x);
                } else if x == j {
                    assert(chart.spans@[x].key() == mid.spans@[x].key());
                    let s = g@.rules[rule as int].body[dot as int];
                    if dot < g@.rules[rule as int].body.len() && s != t && g@.symbols[s].accepts(
                        chart.input()[k as int].name,
                        chart.input()[k as int].lexeme,
                    ) {
                        assert(g@.symbols[s].name == g@.symbols[t as int].name);
                        if s < t {
                            assert(g@.symbols[s].name != g@.symbols[t as int].name);
                        } else {
                            assert(g@.symbols[t as int].name != g@.symbols[s].name);
                        }
                    }
                } else {
                    lemma_column_of(chart, x, k + 1);
                }
            }
        }
        j += 1;
    }
}

/// Whether a span with key `k` derives the whole input from the start symbol.
pub open spec fn is_root(g: GrammarView, k: SpanKey, last: int) -> bool {
    &&& is_complete(g, k)
    &&& k.origin == 0
    &&& k.end == last
    &&& g.rules[k.rule].head == g.start
}

/// The outcome of a successful parse: the chart, and the places of the
/// spans that derive the whole input from the start symbol.
pub struct ParseTrees<'a> {
    pub grammar: &'a Grammar,
    pub chart: Chart,
    pub roots: Vec<usize>,
}

impl<'a> ParseTrees<'a> {
    /// The chart is a chart of the grammar with one column for each token
    /// boundary, and the roots are the root spans of its last column, all
    /// of them, in the order of the chart; there is at least one.
    pub open spec fn wf(&self) -> bool {
        &&& self.grammar.wf()
        &&& self.chart.wf(self.grammar@)
        &&& self.chart.starts@.len() == self.chart.tokens@.len() + 1
        &&& self.roots@.len() > 0
        &&& forall|r: int|
            0 <= r < self.roots@.len() ==> (#[trigger] self.roots@[r]) < self.chart.spans@.len() && is_root(
                self.grammar@,
                self.chart.spans@[self.roots@[r] as int].key(),
                self.chart.last(),
            )
        &&& forall|r: int, s: int| 0 <= r < s < self.roots@.len() ==> self.roots@[r] < self.roots@[s]
        &&& forall|i: int|
            0 <= i < self.chart.spans@.len() && is_root(
                self.grammar@,
                (#[trigger] self.chart.spans@[i]).key(),
                self.chart.last(),
            ) ==> self.roots@.contains(i as usize)
    }

    /// How many root spans there are.
    pub fn len(&self) -> (n: usize)
        ensures
            n == self.roots@.len(),
    {
        self.roots.len()
    }
}

/// An Earley parser for one grammar.
pub struct Parser {
    pub grammar: Grammar,
}

impl Parser {
    /// A parser for `grammar`.
    pub fn new(grammar: Grammar) -> (r: Parser)
        ensures
            r.grammar == grammar,
    {
        Parser { grammar }
    }

    /// Recognises `tokens`: it succeeds if and only if the start symbol
    /// derives them. On success the chart has a column for every token
    /// boundary and at least one root. An unexpected token is reported
    /// with its column and lexeme, an early end with the last column.
    pub fn parse<'a>(&'a self, tokens: Vec<Token>) -> (r: Result<ParseTrees<'a>, ParseError>)
        requires
            self.grammar.wf(),
        ensures
            match r {
                Ok(trees) => {
                    &&& trees.wf()
                    &&& trees.grammar == &self.grammar
                    &&& trees.chart.tokens@ == tokens@
                    &&& closed(self.grammar@, &trees.chart, trees.chart.spans@.len() as int)
                },
                Err(ParseError::UnexpectedToken(c, lexeme)) => c < tokens@.len() && lexeme@
                    == tokens@[c as int].lexeme@,
                Err(ParseError::UnexpectedEnd(c)) => c == tokens@.len(),
            },
            r is Ok <==> crate::derivation::in_language(self.grammar@, token_views(tokens@)),
    {
        let g = &self.grammar;
        let n: usize = tokens.len();
        let ghost input = tokens@;
        let mut starts: Vec<usize> = Vec::new();
        starts.push(0);
        let mut chart = Chart { spans: Vec::new(), starts, tokens };
        assert(chart.wf(g@));
        let mut r: usize = 0;
        while r < g.rules.len()
            invariant
                g.wf(),
                chart.wf(g@),
                chart.last() == 0,
                chart.tokens@ == input,
                r <= g.rules.len(),
                forall|q: int| 0 <= q < r && (#[trigger] g@.rules[q]).head == g@.start ==> has(&chart, begun(q, 0)),
            decreases g.rules.len() - r,
        {
            proof {
                assert(g@.rules[r as int] == g.rules@[r as int]@);
            }
            if g.rules[r].head == g.start {
                let ghost mid = chart;
                chart.add(Ghost(g@), r, 0, 0, None);
                assert(chart.starts@ == mid.starts@);
                proof {
                    assert forall|q: int| 0 <= q < r + 1 && (#[trigger] g@.rules[q]).head == g@.start implies has(
                        &chart,
                        begun(q, 0),
                    ) by {
                        if q < r {
                            lemma_has_grows(&mid, &chart, begun(q, 0));
                        }
                    }
                }
            }
            r += 1;
        }
        let ghost mid = chart;
        proof {
            assert forall|x: int| 0 <= x < chart.spans@.len() implies #[trigger] scanned(g@, &chart, x) by {
                assert(chart.spans@[x].end < chart.starts@.len());
            }
            assert(closed(g@, &chart, 0));
        }
        close_column(g, &mut chart);
        assert(chart.starts@ == mid.starts@);
        let mut k: usize = 0;
        while k < n
            invariant
                g.wf(),
                chart.wf(g@),
                chart.last() == k,
                chart.tokens@ == input,
                input == tokens@,
                n == input.len(),
                k <= n,
                g == &self.grammar,
                closed(g@, &chart, chart.spans@.len() as int),
            decreases n - k,
        {
            let hit = accepting_terminal(g, &chart.tokens[k]);
            assert(chart.input()[k as int] == chart.tokens@[k as int]@);
            let before: usize = chart.spans.len();
            scan_column(g, &mut chart, k, hit);
            if chart.spans.len() == before {
                proof {
                    assert(chart.input() == token_views(tokens@));
                    if crate::derivation::in_language(g@, chart.input()) {
                        crate::completeness::lemma_complete(g@, &chart);
                        let w = choose|w: int| 0 <= w < chart.spans@.len() && (#[trigger] chart.spans@[w]).end == chart.last();
                        assert(chart.starts@[chart.spans@[w].end as int] <= w);
                    }
                }
                return Err(ParseError::UnexpectedToken(k, chart.tokens[k].lexeme.clone()));
            }
            let ghost mid = chart;
            close_column(g, &mut chart);
            assert(chart.starts@ == mid.starts@);
            k += 1;
        }
        let mut roots: Vec<usize> = Vec::new();
        let mut i: usize = chart.starts[n];
        let ghost lo = i;
        while i < chart.spans.len()
            invariant
                g.wf(),
                chart.wf(g@),
                chart.last() == n,
                chart.tokens@ == input,
                input == tokens@,
                n == input.len(),
                g == &self.grammar,
                closed(g@, &chart, chart.spans@.len() as int),
                lo == chart.starts@[n as int],
                lo <= i <= chart.spans@.len(),
                forall|r: int|
                    0 <= r < roots@.len() ==> (#[trigger] roots@[r]) < i && is_root(
                        g@,
                        chart.spans@[roots@[r] as int].key(),
                        n as int,
                    ),
                forall|r: int, s: int| 0 <= r < s < roots@.len() ==> roots@[r] < roots@[s],
                forall|j: int|
                    lo <= j < i && j < chart.spans@.len() && is_root(g@, (#[trigger] chart.spans@[j]).key(), n as int)
                        ==> roots@.contains(j as usize),
            decreases chart.spans.len() - i,
        {
            let rule: usize = chart.spans[i].rule;
            proof {
                lemma_rule_bounds(g.symbols@, g.rules@, rule as int);
                assert(g@.rules[rule as int] == g.rules@[rule as int]@);
                lemma_column_of(&chart, i as int, n as int);
            }
            let ghost found = roots@;
            if chart.spans[i].dot == g.rules[rule].body.len() && chart.spans[i].origin == 0
                && g.rules[rule].head == g.start {
                roots.push(i);
                assert(roots@[roots@.len() - 1] == i);
            }
            proof {
                assert forall|j: int|
                    lo <= j < i + 1 && j < chart.spans@.len() && is_root(
                        g@,
                        (#[trigger] chart.spans@[j]).key(),
                        n as int,
                    ) implies roots@.contains(j as usize) by {
                    if j < i {
                        let w = choose|w: int| 0 <= w < found.len() && found[w] == j as usize;
                        assert(roots@[w] == j as usize);
                    } else {
                        assert(roots@[roots@.len() - 1] == i);
                    }
                }
            }
            i += 1;
        }
        proof {
            assert forall|j: int|
                0 <= j < chart.spans@.len() && is_root(g@, (#[trigger] chart.spans@[j]).key(), n as int) implies roots@.contains(
                j as usize,
            ) by {
                if j < lo {
                    assert(chart.starts@[chart.spans@[j].end as int] <= j);
                }
            }
            assert(chart.input() == token_views(tokens@));
        }
        if roots.len() == 0 {
            proof {
                if crate::derivation::in_language(g@, chart.input()) {
                    crate::completeness::lemma_complete(g@, &chart);
                    let w = choose|w: int|
                        0 <= w < chart.spans@.len() && is_root(g@, (#[trigger] chart.spans@[w]).key(), chart.last());
                    assert(roots@.contains(w as usize));
                }
            }
            return Err(ParseError::UnexpectedEnd(n));
        }
        proof {
            crate::derivation::lemma_recognised(g@, &chart, roots@[0] as int);
        }
        Ok(ParseTrees { grammar: g, chart, roots })
    }
}

} // verus!
