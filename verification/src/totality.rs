//! Why the forest misses no tree: in a closed chart every derivation of
//! the input is among the trees that the sources give.

use crate::chart::{is_complete, key_ok, source_ok, Chart, SpanKey, SpanSource};
use crate::completeness::{
    advanced, begun, closed, completed, expects, has, lemma_leaves_split, lemma_walk, predicted, scanned, sourced,
};
use crate::derivation::{derives, explains, leaves, leaves_of, lemma_leaves_of_prefix, lemma_span_in_input};
use crate::grammar::GrammarView;
use crate::parser::is_root;
use crate::trees::{
    all_children, all_trees_of, children_by, extend_each, forest_of, leaf_of, nodes_of, product, TreeView,
};
use vstd::prelude::*;

verus! {

/// The rule of every span begins in the column of the span's origin.
pub proof fn lemma_begun(g: GrammarView, chart: &Chart, y: int)
    requires
        chart.wf(g),
        0 <= y < chart.spans@.len(),
    ensures
        has(chart, begun(chart.spans@[y].rule as int, chart.spans@[y].origin as int)),
    decreases chart.spans@[y].dot,
{
    let k = chart.spans@[y].key();
    assert(key_ok(g, k));
    if k.dot == 0 {
        assert(chart.spans@[y].key() == begun(k.rule, k.origin));
    } else {
        assert(source_ok(g, chart.keys(), chart.input(), k, chart.spans@[y].sources@[0]));
        match chart.spans@[y].sources@[0] {
            SpanSource::Scan { source, token } => {
                assert(chart.keys()[source as int] == chart.spans@[source as int].key());
                lemma_begun(g, chart, source as int);
            },
            SpanSource::Completion { source, trigger } => {
                assert(chart.keys()[source as int] == chart.spans@[source as int].key());
                lemma_begun(g, chart, source as int);
            },
        }
    }
}

/// The source that a key has, the span with that key has.
pub proof fn lemma_source_of(g: GrammarView, chart: &Chart, y: int, src: SpanSource)
    requires
        chart.wf(g),
        0 <= y < chart.spans@.len(),
        sourced(chart, chart.spans@[y].key(), src),
    ensures
        chart.spans@[y].sources@.contains(src),
{
    let w = choose|w: int|
        0 <= w < chart.spans@.len() && #[trigger] chart.spans@[w].key() == chart.spans@[y].key()
            && chart.spans@[w].sources@.contains(src);
    if w < y {
        assert(chart.spans@[w].key() != chart.spans@[y].key());
    } else if y < w {
        assert(chart.spans@[y].key() != chart.spans@[w].key());
    }
}

/// A list of the first factor with a tree of the second is in the product.
pub proof fn lemma_product_contains(prefixes: Seq<Seq<TreeView>>, lasts: Seq<TreeView>, i: int, j: int)
    requires
        0 <= i < prefixes.len(),
        0 <= j < lasts.len(),
    ensures
        product(prefixes, lasts).contains(prefixes[i].push(lasts[j])),
    decreases prefixes.len(),
{
    let front = product(prefixes.drop_last(), lasts);
    let all = product(prefixes, lasts);
    if i == prefixes.len() - 1 {
        assert(extend_each(prefixes.last(), lasts)[j] == prefixes[i].push(lasts[j]));
        assert(all[front.len() + j] == prefixes[i].push(lasts[j]));
    } else {
        lemma_product_contains(prefixes.drop_last(), lasts, i, j);
        let z = choose|z: int| 0 <= z < front.len() && front[z] == prefixes.drop_last()[i].push(lasts[j]);
        assert(all[z] == prefixes[i].push(lasts[j]));
    }
}

/// When the first `n` sources of a span give lists, the spans that each
/// of these sources names give lists too.
pub proof fn lemma_children_by_parts(g: GrammarView, chart: &Chart, y: int, fuel: nat, n: nat, s: int)
    requires
        0 <= s < n <= chart.sources(y).len(),
        children_by(g, chart, y, fuel, n) is Some,
    ensures
        fuel > 0,
        match chart.sources(y)[s] {
            SpanSource::Scan { source, token } => all_children(g, chart, source as int, (fuel - 1) as nat) is Some,
            SpanSource::Completion { source, trigger } => all_children(
                g,
                chart,
                source as int,
                (fuel - 1) as nat,
            ) is Some && all_children(g, chart, trigger as int, (fuel - 1) as nat) is Some,
        },
    decreases n,
{
    if s < n - 1 {
        lemma_children_by_parts(g, chart, y, fuel, (n - 1) as nat, s);
    }
}

/// What one of the first `n` sources of a span gives is among what they give together.
pub proof fn lemma_children_by_member(
    g: GrammarView,
    chart: &Chart,
    y: int,
    fuel: nat,
    n: nat,
    s: int,
    before: Seq<TreeView>,
    last: TreeView,
)
    requires
        0 <= s < n <= chart.sources(y).len(),
        fuel > 0,
        children_by(g, chart, y, fuel, n) is Some,
        match chart.sources(y)[s] {
            SpanSource::Scan { source, token } => {
                &&& all_children(g, chart, source as int, (fuel - 1) as nat) matches Some(lists)
                &&& lists.contains(before)
                &&& last == leaf_of(g, chart, chart.spans@[y].rule as int, chart.spans@[y].dot as int, token as int)
            },
            SpanSource::Completion { source, trigger } => {
                &&& all_children(g, chart, source as int, (fuel - 1) as nat) matches Some(lists)
                &&& lists.contains(before)
                &&& all_children(g, chart, trigger as int, (fuel - 1) as nat) matches Some(below)
                &&& nodes_of(g.rules[chart.spans@[trigger as int].rule as int].name, below).contains(last)
            },
        },
    ensures
        children_by(g, chart, y, fuel, n)->Some_0.contains(before.push(last)),
    decreases n,
{
    let all = children_by(g, chart, y, fuel, n)->Some_0;
    let rest = children_by(g, chart, y, fuel, (n - 1) as nat)->Some_0;
    if s < n - 1 {
        lemma_children_by_member(g, chart, y, fuel, (n - 1) as nat, s, before, last);
        let z = choose|z: int| 0 <= z < rest.len() && rest[z] == before.push(last);
        assert(all[z] == before.push(last));
    } else {
        match chart.sources(y)[s] {
            SpanSource::Scan { source, token } => {
                let lists = all_children(g, chart, source as int, (fuel - 1) as nat)->Some_0;
                let i = choose|i: int| 0 <= i < lists.len() && lists[i] == before;
                let lasts = seq![last];
                lemma_product_contains(lists, lasts, i, 0);
                let here = product(lists, lasts);
                let z = choose|z: int| 0 <= z < here.len() && here[z] == lists[i].push(lasts[0]);
                assert(all[rest.len() + z] == before.push(last));
            },
            SpanSource::Completion { source, trigger } => {
                let lists = all_children(g, chart, source as int, (fuel - 1) as nat)->Some_0;
                let below = all_children(g, chart, trigger as int, (fuel - 1) as nat)->Some_0;
                let lasts = nodes_of(g.rules[chart.spans@[trigger as int].rule as int].name, below);
                let i = choose|i: int| 0 <= i < lists.len() && lists[i] == before;
                let j = choose|j: int| 0 <= j < lasts.len() && lasts[j] == last;
                lemma_product_contains(lists, lasts, i, j);
                let here = product(lists, lasts);
                let z = choose|z: int| 0 <= z < here.len() && here[z] == lists[i].push(lasts[j]);
                assert(all[rest.len() + z] == before.push(last));
            },
        }
    }
}

/// In a closed chart, children that explain a span with its dot behind
/// a symbol are children that explain an earlier span of the same rule,
/// and a last tree that the symbol derives from the input behind that span.
pub proof fn lemma_split_last(g: GrammarView, chart: &Chart, y: int, children: Seq<TreeView>) -> (x: int)
    requires
        g.wf(),
        chart.wf(g),
        closed(g, chart, chart.spans@.len() as int),
        0 <= y < chart.spans@.len(),
        explains(g, chart, y, children),
        chart.spans@[y].dot > 0,
    ensures
        0 <= x < chart.spans@.len(),
        chart.spans@[x].rule == chart.spans@[y].rule,
        chart.spans@[x].dot + 1 == chart.spans@[y].dot,
        chart.spans@[x].origin == chart.spans@[y].origin,
        chart.spans@[x].end <= chart.spans@[y].end,
        explains(g, chart, x, children.drop_last()),
        derives(
            g,
            children.last(),
            g.rules[chart.spans@[y].rule as int].body[chart.spans@[y].dot - 1],
        ),
        leaves(children.last()) == chart.input().subrange(
            chart.spans@[x].end as int,
            chart.spans@[y].end as int,
        ),
{
    let k = chart.spans@[y].key();
    lemma_span_in_input(g, chart, y);
    assert(chart.spans@[y].end < chart.starts@.len());
    let d = k.dot;
    let before = children.drop_last();
    let last = children.last();
    assert(derives(g, children[d - 1], g.rules[k.rule].body[d - 1]));
    let whole = leaves_of(children, d as nat);
    let a = leaves_of(children, (d - 1) as nat);
    lemma_leaves_split(children, (d - 1) as nat, d as nat);
    let m = k.origin + a.len();
    assert(leaves(last) =~= chart.input().subrange(m, k.end)) by {
        assert(whole == a + leaves(last));
        assert(leaves(last) =~= whole.skip(a.len() as int));
    }
    assert(a =~= chart.input().subrange(k.origin, m)) by {
        assert(a == whole.take(a.len() as int));
    }
    lemma_leaves_of_prefix(before, children, (d - 1) as nat);
    lemma_begun(g, chart, y);
    lemma_walk(g, chart, k.rule, children, k.origin, k.end, (d - 1) as nat);
    let at = SpanKey { rule: k.rule, dot: d - 1, origin: k.origin, end: m };
    let x = choose|x: int| 0 <= x < chart.spans@.len() && #[trigger] chart.spans@[x].key() == at;
    let kx = chart.spans@[x].key();
    assert forall|p: int| 0 <= p < before.len() implies derives(g, before[p], #[trigger] g.rules[kx.rule].body[p]) by {
        assert(before[p] == children[p]);
        assert(derives(g, children[p], g.rules[k.rule].body[p]));
    }
    x
}

/// In a closed chart the source that a last tree stands for is a source
/// of the span: a scan for a leaf, and for a node a completion by a span
/// that the node's children explain.
pub proof fn lemma_source_for(g: GrammarView, chart: &Chart, y: int, x: int, last: TreeView) -> (s: int)
    requires
        g.wf(),
        chart.wf(g),
        closed(g, chart, chart.spans@.len() as int),
        0 <= y < chart.spans@.len(),
        0 <= x < chart.spans@.len(),
        chart.spans@[x].rule == chart.spans@[y].rule,
        chart.spans@[x].dot + 1 == chart.spans@[y].dot,
        chart.spans@[x].origin == chart.spans@[y].origin,
        chart.spans@[x].end <= chart.spans@[y].end,
        derives(g, last, g.rules[chart.spans@[y].rule as int].body[chart.spans@[y].dot - 1]),
        leaves(last) == chart.input().subrange(chart.spans@[x].end as int, chart.spans@[y].end as int),
    ensures
        0 <= s < chart.sources(y).len(),
        match chart.sources(y)[s] {
            SpanSource::Scan { source, token } => source == x && last == leaf_of(
                g,
                chart,
                chart.spans@[y].rule as int,
                chart.spans@[y].dot as int,
                token as int,
            ),
            SpanSource::Completion { source, trigger } => source == x && trigger < chart.spans@.len() && last
                is Node && last->Node_0 == g.rules[chart.spans@[trigger as int].rule as int].name && explains(
                g,
                chart,
                trigger as int,
                last->Node_1,
            ),
        },
{
    let k = chart.spans@[y].key();
    let kx = chart.spans@[x].key();
    let m = kx.end;
    let sym = g.rules[k.rule].body[k.dot - 1];
    assert(chart.spans@.len() <= usize::MAX) by {
        assert(chart.spans.len() == chart.spans@.len());
    }
    lemma_span_in_input(g, chart, y);
    lemma_span_in_input(g, chart, x);
    assert(chart.spans@[y].end < chart.starts@.len());
    assert(scanned(g, chart, x));
    assert(predicted(g, chart, x));
    match last {
        TreeView::Leaf(name, lexeme) => {
            assert(leaves(last).len() == 1);
            assert(k.end == m + 1);
            assert(chart.input().subrange(m, k.end)[0] == chart.input()[m]);
            assert(leaves(last)[0] == chart.input()[m]);
            let src = SpanSource::Scan { source: x as usize, token: m as usize };
            assert(advanced(kx, m + 1) == k);
            lemma_source_of(g, chart, y, src);
            let s = choose|s: int| 0 <= s < chart.sources(y).len() && chart.sources(y)[s] == src;
            assert(last == leaf_of(g, chart, k.rule, k.dot, m));
            s
        },
        TreeView::Node(name, below) => {
            let q = choose|r: int|
                {
                    &&& 0 <= r < g.rules.len()
                    &&& (#[trigger] g.rules[r]).head == sym
                    &&& g.rules[r].name == name
                    &&& below.len() == g.rules[r].body.len()
                    &&& forall|p: int| 0 <= p < below.len() ==> derives(g, below[p], #[trigger] g.rules[r].body[p])
                };
            assert(expects(g, kx, g.rules[q].head));
            assert(has(chart, begun(q, m)));
            lemma_walk(g, chart, q, below, m, k.end, below.len());
            assert(leaves_of(below, below.len()).len() == k.end - m);
            let done = SpanKey { rule: q, dot: below.len() as int, origin: m, end: k.end };
            let t = choose|t: int| 0 <= t < chart.spans@.len() && #[trigger] chart.spans@[t].key() == done;
            assert(completed(g, chart, x, t));
            let src = SpanSource::Completion { source: x as usize, trigger: t as usize };
            assert(advanced(kx, k.end) == k);
            lemma_source_of(g, chart, y, src);
            let s = choose|s: int| 0 <= s < chart.sources(y).len() && chart.sources(y)[s] == src;
            assert(explains(g, chart, t, below));
            s
        },
    }
}

/// Forest totality, span by span: in a closed chart every list of
/// children that the symbols before the dot of a span derive from the
/// input between its origin and its end is among the lists that the
/// sources of the span give.
pub proof fn lemma_listed(g: GrammarView, chart: &Chart, y: int, fuel: nat, children: Seq<TreeView>)
    requires
        g.wf(),
        chart.wf(g),
        closed(g, chart, chart.spans@.len() as int),
        0 <= y < chart.spans@.len(),
        explains(g, chart, y, children),
        all_children(g, chart, y, fuel) is Some,
    ensures
        all_children(g, chart, y, fuel)->Some_0.contains(children),
    decreases fuel,
{
    let lists = all_children(g, chart, y, fuel)->Some_0;
    if chart.spans@[y].dot == 0 {
        assert(children =~= Seq::empty());
        assert(lists[0] == children);
    } else {
        let n = chart.sources(y).len();
        let before = children.drop_last();
        let last = children.last();
        assert(children =~= before.push(last));
        let x = lemma_split_last(g, chart, y, children);
        let s = lemma_source_for(g, chart, y, x, last);
        lemma_children_by_parts(g, chart, y, fuel, n, s);
        lemma_listed(g, chart, x, (fuel - 1) as nat, before);
        match chart.sources(y)[s] {
            SpanSource::Scan { source, token } => {},
            SpanSource::Completion { source, trigger } => {
                let below = last->Node_1;
                lemma_listed(g, chart, trigger as int, (fuel - 1) as nat, below);
                let lower = all_children(g, chart, trigger as int, (fuel - 1) as nat)->Some_0;
                let w = choose|w: int| 0 <= w < lower.len() && lower[w] == below;
                assert(nodes_of(g.rules[chart.spans@[trigger as int].rule as int].name, lower)[w] == last);
            },
        }
        lemma_children_by_member(g, chart, y, fuel, n, s, before, last);
    }
}

/// The trees of one root are among the trees of all the roots.
pub proof fn lemma_forest_contains(g: GrammarView, chart: &Chart, roots: Seq<usize>, fuel: nat, r: int, tree: TreeView)
    requires
        0 <= r < roots.len(),
        forest_of(g, chart, roots, fuel) is Some,
        all_trees_of(g, chart, roots[r] as int, fuel) matches Some(trees) && trees.contains(tree),
    ensures
        forest_of(g, chart, roots, fuel)->Some_0.contains(tree),
    decreases roots.len(),
{
    let all = forest_of(g, chart, roots, fuel)->Some_0;
    let front = forest_of(g, chart, roots.drop_last(), fuel)->Some_0;
    if r < roots.len() - 1 {
        assert(roots.drop_last()[r] == roots[r]);
        lemma_forest_contains(g, chart, roots.drop_last(), fuel, r, tree);
        let z = choose|z: int| 0 <= z < front.len() && front[z] == tree;
        assert(all[z] == tree);
    } else {
        assert(roots.last() == roots[r]);
        let here = all_trees_of(g, chart, roots[r] as int, fuel)->Some_0;
        let z = choose|z: int| 0 <= z < here.len() && here[z] == tree;
        assert(all[front.len() + z] == tree);
    }
}

/// Forest totality: when the sources lead in no circle, every derivation
/// of the whole input from the start symbol is among the trees of the
/// parse. With forest soundness, the trees of a parse are the derivations
/// of the input, each of them and nothing else.
pub proof fn lemma_forest_total(g: GrammarView, chart: &Chart, roots: Seq<usize>, fuel: nat, tree: TreeView)
    requires
        g.wf(),
        chart.wf(g),
        closed(g, chart, chart.spans@.len() as int),
        chart.starts@.len() == chart.tokens@.len() + 1,
        forall|i: int|
            0 <= i < chart.spans@.len() && is_root(g, (#[trigger] chart.spans@[i]).key(), chart.last())
                ==> roots.contains(i as usize),
        derives(g, tree, g.start),
        leaves(tree) == chart.input(),
        forest_of(g, chart, roots, fuel) is Some,
    ensures
        forest_of(g, chart, roots, fuel)->Some_0.contains(tree),
{
    let n = chart.input().len() as int;
    match tree {
        TreeView::Leaf(name, lexeme) => {
            assert(g.symbols[g.start].is_terminal());
        },
        TreeView::Node(name, children) => {
            let q = choose|r: int|
                {
                    &&& 0 <= r < g.rules.len()
                    &&& (#[trigger] g.rules[r]).head == g.start
                    &&& g.rules[r].name == name
                    &&& children.len() == g.rules[r].body.len()
                    &&& forall|m: int| 0 <= m < children.len() ==> derives(g, children[m], #[trigger] g.rules[r].body[m])
                };
            assert(has(chart, begun(q, 0)));
            assert(chart.input().subrange(0, n) =~= chart.input());
            lemma_walk(g, chart, q, children, 0, n, children.len());
            assert(leaves_of(children, children.len()).len() == n);
            let done = SpanKey { rule: q, dot: children.len() as int, origin: 0, end: n };
            let i = choose|i: int| 0 <= i < chart.spans@.len() && #[trigger] chart.spans@[i].key() == done;
            assert(is_root(g, chart.spans@[i].key(), chart.last()));
            assert(chart.spans@.len() <= usize::MAX) by {
                assert(chart.spans.len() == chart.spans@.len());
            }
            assert(roots.contains(i as usize));
            let r = choose|r: int| 0 <= r < roots.len() && roots[r] == i as usize;
            assert(roots[r] as int == i);
            lemma_forest_parts(g, chart, roots, fuel, r);
            assert(explains(g, chart, i, children));
            lemma_listed(g, chart, i, fuel, children);
            let lists = all_children(g, chart, i, fuel)->Some_0;
            let w = choose|w: int| 0 <= w < lists.len() && lists[w] == children;
            assert(nodes_of(g.rules[q].name, lists)[w] == tree);
            assert(all_trees_of(g, chart, i, fuel) == Some(nodes_of(g.rules[q].name, lists)));
            lemma_forest_contains(g, chart, roots, fuel, r, tree);
        },
    }
}

/// When all the roots give trees, each of them does.
pub proof fn lemma_forest_parts(g: GrammarView, chart: &Chart, roots: Seq<usize>, fuel: nat, r: int)
    requires
        0 <= r < roots.len(),
        forest_of(g, chart, roots, fuel) is Some,
    ensures
        all_trees_of(g, chart, roots[r] as int, fuel) is Some,
        all_children(g, chart, roots[r] as int, fuel) is Some,
    decreases roots.len(),
{
    if r < roots.len() - 1 {
        assert(roots.drop_last()[r] == roots[r]);
        lemma_forest_parts(g, chart, roots.drop_last(), fuel, r);
    } else {
        assert(roots.last() == roots[r]);
    }
}

} // verus!
