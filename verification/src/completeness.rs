//! Why the recogniser misses no derivation: a chart that is closed under
//! prediction, scanning and completion holds a root for every derivation
//! of the input.

use crate::chart::{is_complete, Chart, SpanKey, SpanSource};
use crate::derivation::{derives, in_language, leaves, leaves_of};
use crate::grammar::GrammarView;
use crate::parser::is_root;
use crate::trees::TreeView;
use vstd::prelude::*;

verus! {

/// Whether the chart holds a span with key `key`.
pub open spec fn has(chart: &Chart, key: SpanKey) -> bool {
    exists|i: int| 0 <= i < chart.spans@.len() && #[trigger] chart.spans@[i].key() == key
}

/// Whether the chart holds a span with key `key` that has the source `src`.
pub open spec fn sourced(chart: &Chart, key: SpanKey, src: SpanSource) -> bool {
    exists|i: int|
        0 <= i < chart.spans@.len() && #[trigger] chart.spans@[i].key() == key && chart.spans@[i].sources@.contains(
            src,
        )
}

/// A span that has a source is there.
pub proof fn lemma_sourced_has(chart: &Chart, key: SpanKey, src: SpanSource)
    requires
        sourced(chart, key, src),
    ensures
        has(chart, key),
{
    let i = choose|i: int|
        0 <= i < chart.spans@.len() && #[trigger] chart.spans@[i].key() == key && chart.spans@[i].sources@.contains(
            src,
        );
    assert(chart.spans@[i].key() == key);
}

/// Whether column `c` holds a span.
pub open spec fn occupied(chart: &Chart, c: int) -> bool {
    exists|i: int| 0 <= i < chart.spans@.len() && (#[trigger] chart.spans@[i]).end == c
}

/// Whether the dot of `k` stands before the symbol at place `symbol`.
pub open spec fn expects(g: GrammarView, k: SpanKey, symbol: int) -> bool {
    0 <= k.dot < g.rules[k.rule].body.len() && g.rules[k.rule].body[k.dot] == symbol
}

/// `k` with its dot one symbol further and its end at `end`.
pub open spec fn advanced(k: SpanKey, end: int) -> SpanKey {
    SpanKey { rule: k.rule, dot: k.dot + 1, origin: k.origin, end }
}

/// The key of a rule that begins in column `c`.
pub open spec fn begun(rule: int, c: int) -> SpanKey {
    SpanKey { rule, dot: 0, origin: c, end: c }
}

/// Prediction was made for the span at place `x`: every rule of the
/// symbol it expects begins in its column.
pub open spec fn predicted(g: GrammarView, chart: &Chart, x: int) -> bool {
    forall|q: int|
        0 <= q < g.rules.len() && expects(g, chart.spans@[x].key(), (#[trigger] g.rules[q]).head) ==> has(
            chart,
            begun(q, chart.spans@[x].end as int),
        )
}

/// Completion was made for the spans at places `x` and `t`: if `t` is
/// complete, begins where `x` ends and derives what `x` expects, the chart
/// holds `x` advanced to the end of `t`, with the two as a source.
pub open spec fn completed(g: GrammarView, chart: &Chart, x: int, t: int) -> bool {
    is_complete(g, chart.spans@[t].key()) && chart.spans@[t].origin == chart.spans@[x].end && expects(
        g,
        chart.spans@[x].key(),
        g.rules[chart.spans@[t].rule as int].head,
    ) ==> sourced(
        chart,
        advanced(chart.spans@[x].key(), chart.spans@[t].end as int),
        SpanSource::Completion { source: x as usize, trigger: t as usize },
    )
}

/// The scan was made for the span at place `x`: if the column behind its
/// own was begun and it expects a terminal that accepts the token at its
/// end, the chart holds it advanced over that token, with the scan as a source.
pub open spec fn scanned(g: GrammarView, chart: &Chart, x: int) -> bool {
    let k = chart.spans@[x].key();
    k.end + 1 < chart.starts@.len() && 0 <= k.dot < g.rules[k.rule].body.len() && g.symbols[g.rules[k.rule].body[k.dot]].accepts(
        chart.input()[k.end].name,
        chart.input()[k.end].lexeme,
    ) ==> sourced(chart, advanced(k, k.end + 1), SpanSource::Scan { source: x as usize, token: k.end as usize })
}

/// Whether the rules of the start symbol begin in the first column and,
/// for the spans before place `i`, prediction and completion were made.
pub open spec fn worked(g: GrammarView, chart: &Chart, i: int) -> bool {
    &&& forall|q: int| 0 <= q < g.rules.len() && (#[trigger] g.rules[q]).head == g.start ==> has(chart, begun(q, 0))
    &&& forall|x: int| 0 <= x < i && x < chart.spans@.len() ==> #[trigger] predicted(g, chart, x)
    &&& forall|x: int, t: int|
        0 <= x < i && 0 <= t < i && x < chart.spans@.len() && t < chart.spans@.len() ==> #[trigger] completed(
            g,
            chart,
            x,
            t,
        )
}

/// Whether the chart is closed as far as the spans before place `i` go:
/// the rules of the start symbol begin in the first column, every span
/// was scanned into the column behind its own if that was begun, and for
/// the spans before `i` prediction and completion were made.
pub open spec fn closed(g: GrammarView, chart: &Chart, i: int) -> bool {
    &&& worked(g, chart, i)
    &&& forall|x: int| 0 <= x < chart.spans@.len() ==> #[trigger] scanned(g, chart, x)
}

/// What a chart holds it still holds when it has grown.
pub proof fn lemma_has_grows(a: &Chart, b: &Chart, key: SpanKey)
    requires
        a.spans@.len() <= b.spans@.len(),
        forall|i: int| 0 <= i < a.spans@.len() ==> (#[trigger] b.spans@[i]).key() == a.spans@[i].key(),
        has(a, key),
    ensures
        has(b, key),
{
    let i = choose|i: int| 0 <= i < a.spans@.len() && #[trigger] a.spans@[i].key() == key;
    assert(b.spans@[i].key() == key);
}

/// The work done on a chart stays done when spans are added to it.
pub proof fn lemma_worked_grows(g: GrammarView, a: &Chart, b: &Chart, i: int)
    requires
        a.sources_kept(b),
        a.spans@.len() <= b.spans@.len(),
        forall|x: int| 0 <= x < a.spans@.len() ==> (#[trigger] b.spans@[x]).key() == a.spans@[x].key(),
        worked(g, a, i),
        i <= a.spans@.len(),
    ensures
        worked(g, b, i),
{
    assert forall|q: int| 0 <= q < g.rules.len() && (#[trigger] g.rules[q]).head == g.start implies has(
        b,
        begun(q, 0),
    ) by {
        lemma_has_grows(a, b, begun(q, 0));
    }
    assert forall|x: int| 0 <= x < i && x < b.spans@.len() implies #[trigger] predicted(g, b, x) by {
        lemma_predicted_grows(g, a, b, x);
    }
    assert forall|x: int, t: int|
        0 <= x < i && 0 <= t < i && x < b.spans@.len() && t < b.spans@.len() implies #[trigger] completed(
        g,
        b,
        x,
        t,
    ) by {
        lemma_completed_grows(g, a, b, x, t);
    }
}

/// A prediction that was made stays made when spans are added.
pub proof fn lemma_predicted_grows(g: GrammarView, a: &Chart, b: &Chart, x: int)
    requires
        a.spans@.len() <= b.spans@.len(),
        forall|i: int| 0 <= i < a.spans@.len() ==> (#[trigger] b.spans@[i]).key() == a.spans@[i].key(),
        0 <= x < a.spans@.len(),
        predicted(g, a, x),
    ensures
        predicted(g, b, x),
{
    assert(b.spans@[x].key() == a.spans@[x].key());
    assert forall|q: int|
        0 <= q < g.rules.len() && expects(g, b.spans@[x].key(), (#[trigger] g.rules[q]).head) implies has(
        b,
        begun(q, b.spans@[x].end as int),
    ) by {
        lemma_has_grows(a, b, begun(q, a.spans@[x].end as int));
    }
}

/// A source that a span has it still has when the chart has grown.
pub proof fn lemma_sourced_grows(a: &Chart, b: &Chart, key: SpanKey, src: SpanSource)
    requires
        a.spans@.len() <= b.spans@.len(),
        forall|i: int| 0 <= i < a.spans@.len() ==> (#[trigger] b.spans@[i]).key() == a.spans@[i].key(),
        a.sources_kept(b),
        sourced(a, key, src),
    ensures
        sourced(b, key, src),
{
    let i = choose|i: int|
        0 <= i < a.spans@.len() && #[trigger] a.spans@[i].key() == key && a.spans@[i].sources@.contains(src);
    assert(b.spans@[i].key() == key);
    assert(b.spans@[i].sources@.contains(src));
}

/// A completion that was made stays made when spans are added.
pub proof fn lemma_completed_grows(g: GrammarView, a: &Chart, b: &Chart, x: int, t: int)
    requires
        a.sources_kept(b),
        a.spans@.len() <= b.spans@.len(),
        forall|i: int| 0 <= i < a.spans@.len() ==> (#[trigger] b.spans@[i]).key() == a.spans@[i].key(),
        0 <= x < a.spans@.len(),
        0 <= t < a.spans@.len(),
        completed(g, a, x, t),
    ensures
        completed(g, b, x, t),
{
    assert(b.spans@[x].key() == a.spans@[x].key());
    assert(b.spans@[t].key() == a.spans@[t].key());
    if is_complete(g, a.spans@[t].key()) && a.spans@[t].origin == a.spans@[x].end && expects(
        g,
        a.spans@[x].key(),
        g.rules[a.spans@[t].rule as int].head,
    ) {
        lemma_sourced_grows(
            a,
            b,
            advanced(a.spans@[x].key(), a.spans@[t].end as int),
            SpanSource::Completion { source: x as usize, trigger: t as usize },
        );
    }
}

/// A closed chart stays closed, as far as it was, when spans are added to
/// its last column.
pub proof fn lemma_closed_grows(g: GrammarView, a: &Chart, b: &Chart, i: int)
    requires
        a.wf(g),
        b.wf(g),
        a.grown_to(b),
        closed(g, a, i),
        i <= a.spans@.len(),
    ensures
        closed(g, b, i),
{
    lemma_worked_grows(g, a, b, i);
    assert(a.input() == b.input());
    assert forall|x: int| 0 <= x < b.spans@.len() implies #[trigger] scanned(g, b, x) by {
        let k = b.spans@[x].key();
        if x < a.spans@.len() {
            assert(scanned(g, a, x));
            assert(a.spans@[x].key() == k);
            if k.end + 1 < a.starts@.len() && 0 <= k.dot < g.rules[k.rule].body.len()
                && g.symbols[g.rules[k.rule].body[k.dot]].accepts(a.input()[k.end].name, a.input()[k.end].lexeme) {
                lemma_sourced_grows(
                    a,
                    b,
                    advanced(k, k.end + 1),
                    SpanSource::Scan { source: x as usize, token: k.end as usize },
                );
            }
        } else {
            if k.end + 1 < b.starts@.len() {
                assert(x < b.starts@[k.end + 1]);
                assert(a.starts@[k.end + 1] <= a.spans@.len());
            }
        }
    }
}

/// A scan that was made stays made when spans are added.
pub proof fn lemma_scanned_grows(g: GrammarView, a: &Chart, b: &Chart, x: int)
    requires
        a.sources_kept(b),
        a.spans@.len() <= b.spans@.len(),
        forall|i: int| 0 <= i < a.spans@.len() ==> (#[trigger] b.spans@[i]).key() == a.spans@[i].key(),
        a.starts@.len() <= b.starts@.len(),
        a.input() == b.input(),
        0 <= x < a.spans@.len(),
        a.starts@.len() == b.starts@.len() || a.spans@[x].end + 1 < a.starts@.len(),
        scanned(g, a, x),
    ensures
        scanned(g, b, x),
{
    let k = a.spans@[x].key();
    assert(b.spans@[x].key() == k);
    if k.end + 1 < a.starts@.len() && 0 <= k.dot < g.rules[k.rule].body.len() {
        if g.symbols[g.rules[k.rule].body[k.dot]].accepts(a.input()[k.end].name, a.input()[k.end].lexeme) {
            lemma_sourced_grows(
                a,
                b,
                advanced(k, k.end + 1),
                SpanSource::Scan { source: x as usize, token: k.end as usize },
            );
        }
    }
}

/// The work reaches one span further once prediction and completion are
/// made for the span at place `i`.
pub proof fn lemma_worked_step(g: GrammarView, chart: &Chart, i: int)
    requires
        worked(g, chart, i),
        0 <= i < chart.spans@.len(),
        predicted(g, chart, i),
        forall|x: int| 0 <= x <= i ==> #[trigger] completed(g, chart, x, i),
        forall|t: int| 0 <= t <= i ==> #[trigger] completed(g, chart, i, t),
    ensures
        worked(g, chart, i + 1),
{
    assert forall|x: int, t: int|
        0 <= x < i + 1 && 0 <= t < i + 1 && x < chart.spans@.len() && t < chart.spans@.len() implies #[trigger] completed(
        g,
        chart,
        x,
        t,
    ) by {
        if x == i {
            assert(completed(g, chart, i, t));
        } else if t == i {
            assert(completed(g, chart, x, i));
        }
    }
}

/// The leaves of the first trees of a list begin the leaves of more of them.
pub proof fn lemma_leaves_split(trees: Seq<TreeView>, p: nat, m: nat)
    requires
        p <= m <= trees.len(),
    ensures
        leaves_of(trees, p).len() <= leaves_of(trees, m).len(),
        leaves_of(trees, m).take(leaves_of(trees, p).len() as int) == leaves_of(trees, p),
    decreases m,
{
    if p < m {
        lemma_leaves_split(trees, p, (m - 1) as nat);
        assert(leaves_of(trees, m).take(leaves_of(trees, p).len() as int) =~= leaves_of(trees, (m - 1) as nat).take(
            leaves_of(trees, p).len() as int,
        ));
    } else {
        assert(leaves_of(trees, m).take(leaves_of(trees, m).len() as int) =~= leaves_of(trees, m));
    }
}

/// In a closed chart a span that expects a symbol is advanced over every
/// tree that the symbol derives from the input behind the span, as far as
/// the columns go; if the tree ends behind the last column, that column
/// holds a span.
pub proof fn lemma_advance(g: GrammarView, chart: &Chart, x: int, tree: TreeView, k: int)
    requires
        g.wf(),
        chart.wf(g),
        closed(g, chart, chart.spans@.len() as int),
        0 <= x < chart.spans@.len(),
        0 <= chart.spans@[x].dot < g.rules[chart.spans@[x].rule as int].body.len(),
        derives(g, tree, g.rules[chart.spans@[x].rule as int].body[chart.spans@[x].dot as int]),
        chart.spans@[x].end <= k <= chart.input().len(),
        leaves(tree) == chart.input().subrange(chart.spans@[x].end as int, k),
    ensures
        k <= chart.last() ==> has(chart, advanced(chart.spans@[x].key(), k)),
        k > chart.last() ==> occupied(chart, chart.last()),
    decreases tree, 0nat,
{
    let kx = chart.spans@[x].key();
    let j = kx.end;
    let sym = g.rules[kx.rule].body[kx.dot];
    assert(chart.spans@[x].end < chart.starts@.len());
    match tree {
        TreeView::Leaf(name, lexeme) => {
            assert(leaves(tree).len() == 1);
            assert(k == j + 1);
            assert(chart.input().subrange(j, k)[0] == chart.input()[j]);
            assert(leaves(tree)[0] == chart.input()[j]);
            if j < chart.last() {
                assert(scanned(g, chart, x));
                lemma_sourced_has(
                    chart,
                    advanced(kx, j + 1),
                    SpanSource::Scan { source: x as usize, token: j as usize },
                );
            }
        },
        TreeView::Node(name, children) => {
            let q = choose|r: int|
                {
                    &&& 0 <= r < g.rules.len()
                    &&& (#[trigger] g.rules[r]).head == sym
                    &&& g.rules[r].name == name
                    &&& children.len() == g.rules[r].body.len()
                    &&& forall|m: int| 0 <= m < children.len() ==> derives(g, children[m], #[trigger] g.rules[r].body[m])
                };
            assert(predicted(g, chart, x));
            assert(expects(g, kx, g.rules[q].head));
            assert(has(chart, begun(q, j)));
            lemma_walk(g, chart, q, children, j, k, children.len());
            assert(leaves_of(children, children.len()).len() == k - j);
            if k <= chart.last() {
                let done = SpanKey { rule: q, dot: children.len() as int, origin: j, end: k };
                let t = choose|t: int| 0 <= t < chart.spans@.len() && #[trigger] chart.spans@[t].key() == done;
                assert(completed(g, chart, x, t));
                lemma_sourced_has(
                    chart,
                    advanced(kx, k),
                    SpanSource::Completion { source: x as usize, trigger: t as usize },
                );
            }
        },
    }
}

/// In a closed chart a rule that begins in a column is advanced over the
/// first `p` trees that the symbols of its body derive from the input
/// behind that column, as far as the columns go.
pub proof fn lemma_walk(g: GrammarView, chart: &Chart, q: int, children: Seq<TreeView>, j: int, k: int, p: nat)
    requires
        g.wf(),
        chart.wf(g),
        closed(g, chart, chart.spans@.len() as int),
        0 <= q < g.rules.len(),
        children.len() <= g.rules[q].body.len(),
        forall|m: int| 0 <= m < children.len() ==> derives(g, children[m], #[trigger] g.rules[q].body[m]),
        p <= children.len(),
        0 <= j <= k <= chart.input().len(),
        leaves_of(children, children.len()) == chart.input().subrange(j, k),
        has(chart, begun(q, j)),
    ensures
        j + leaves_of(children, p).len() <= k,
        j + leaves_of(children, p).len() <= chart.last() ==> has(
            chart,
            SpanKey { rule: q, dot: p as int, origin: j, end: j + leaves_of(children, p).len() },
        ),
        j + leaves_of(children, p).len() > chart.last() ==> occupied(chart, chart.last()),
    decreases children, p,
{
    lemma_leaves_split(children, p, children.len());
    if p == 0 {
        let w = choose|w: int| 0 <= w < chart.spans@.len() && #[trigger] chart.spans@[w].key() == begun(q, j);
        assert(chart.spans@[w].end < chart.starts@.len());
    } else {
        let whole = leaves_of(children, children.len());
        let a = leaves_of(children, (p - 1) as nat);
        let b = leaves_of(children, p);
        lemma_leaves_split(children, (p - 1) as nat, children.len());
        lemma_walk(g, chart, q, children, j, k, (p - 1) as nat);
        let ja = j + a.len();
        let jb = j + b.len();
        if ja <= chart.last() {
            let at = SpanKey { rule: q, dot: p - 1, origin: j, end: ja };
            let x = choose|x: int| 0 <= x < chart.spans@.len() && #[trigger] chart.spans@[x].key() == at;
            let kid = children[p - 1];
            assert(b == a + leaves(kid));
            assert(leaves(kid) =~= chart.input().subrange(ja, jb)) by {
                assert(b == whole.take(b.len() as int));
                assert(leaves(kid) =~= b.skip(a.len() as int));
                assert(whole.take(b.len() as int).skip(a.len() as int) =~= chart.input().subrange(ja, jb));
            }
            lemma_advance(g, chart, x, kid, jb);
            assert(advanced(at, jb) == (SpanKey { rule: q, dot: p as int, origin: j, end: jb }));
        }
    }
}

/// Completeness: when the start symbol derives the input, a closed chart
/// holds a span in its last column and, if it has a column for every token
/// boundary, a root.
pub proof fn lemma_complete(g: GrammarView, chart: &Chart)
    requires
        g.wf(),
        chart.wf(g),
        closed(g, chart, chart.spans@.len() as int),
        in_language(g, chart.input()),
    ensures
        occupied(chart, chart.last()),
        chart.last() == chart.input().len() ==> exists|i: int|
            0 <= i < chart.spans@.len() && is_root(g, (#[trigger] chart.spans@[i]).key(), chart.last()),
{
    let tree = choose|tree: TreeView| #[trigger] derives(g, tree, g.start) && leaves(tree) == chart.input();
    let n = chart.input().len() as int;
    match tree {
        TreeView::Leaf(name, lexeme) => {
            assert(g.symbols[g.start].is_terminal());
        },
        TreeView::Node(name, children) => {
            let q = choose|r: int|
                {
                    &&& 0 <= r < g.rules.len()
                    &&& (#[trigger] g.rules[r]).head == g.start
                    &&& g.rules[r].name == name
                    &&& children.len() == g.rules[r].body.len()
                    &&& forall|m: int| 0 <= m < children.len() ==> derives(g, children[m], #[trigger] g.rules[r].body[m])
                };
            assert(has(chart, begun(q, 0)));
            assert(chart.input().subrange(0, n) =~= chart.input());
            lemma_walk(g, chart, q, children, 0, n, children.len());
            assert(leaves_of(children, children.len()).len() == n);
            if n <= chart.last() {
                let done = SpanKey { rule: q, dot: children.len() as int, origin: 0, end: n };
                let t = choose|t: int| 0 <= t < chart.spans@.len() && #[trigger] chart.spans@[t].key() == done;
                assert(is_root(g, chart.spans@[t].key(), chart.last()));
                assert(chart.spans@[t].end == chart.last());
            }
        },
    }
}

} // verus!
