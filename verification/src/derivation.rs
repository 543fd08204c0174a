//! What a derivation is, and why every tree read off a chart is one.

use crate::chart::{source_ok, key_ok, Chart, SpanSource, TokenView};
use crate::grammar::GrammarView;
use crate::parser::is_root;
use crate::trees::{
    all_children, children_by, extend_each, first_children, first_tree, forest_of, leaf_of, nodes_of, product,
    TreeView,
};
use vstd::prelude::*;

verus! {

/// The tokens under `tree`, from left to right.
pub open spec fn leaves(tree: TreeView) -> Seq<TokenView>
    decreases tree,
{
    match tree {
        TreeView::Leaf(name, lexeme) => seq![TokenView { name, lexeme }],
        TreeView::Node(_, children) => leaves_of(children, children.len()),
    }
}

/// The tokens under the first `n` of `trees`, from left to right.
pub open spec fn leaves_of(trees: Seq<TreeView>, n: nat) -> Seq<TokenView>
    decreases trees, n,
{
    if n == 0 || n > trees.len() {
        Seq::empty()
    } else {
        leaves_of(trees, (n - 1) as nat) + leaves(trees[n - 1])
    }
}

/// Whether `tree` derives its leaves from the symbol at place `symbol`: a
/// leaf is a token that the terminal accepts; a node is a rule of the
/// symbol whose body's symbols derive the children, one each and in order.
pub open spec fn derives(g: GrammarView, tree: TreeView, symbol: int) -> bool
    decreases tree,
{
    match tree {
        TreeView::Leaf(name, lexeme) => 0 <= symbol < g.symbols.len() && g.symbols[symbol].accepts(name, lexeme),
        TreeView::Node(name, children) => exists|r: int|
            {
                &&& 0 <= r < g.rules.len()
                &&& (#[trigger] g.rules[r]).head == symbol
                &&& g.rules[r].name == name
                &&& children.len() == g.rules[r].body.len()
                &&& forall|k: int| 0 <= k < children.len() ==> derives(g, children[k], #[trigger] g.rules[r].body[k])
            },
    }
}

/// Whether `children` are derived by the symbols before the dot of the
/// span at place `i`, one each and in order, from the input between the
/// span's origin and its end.
pub open spec fn explains(g: GrammarView, chart: &Chart, i: int, children: Seq<TreeView>) -> bool {
    let k = chart.spans@[i].key();
    &&& children.len() == k.dot
    &&& forall|p: int| 0 <= p < children.len() ==> derives(g, children[p], #[trigger] g.rules[k.rule].body[p])
    &&& leaves_of(children, children.len()) == chart.input().subrange(k.origin, k.end)
}

/// The leaves of the first trees of a list do not depend on what follows them.
pub proof fn lemma_leaves_of_prefix(trees: Seq<TreeView>, more: Seq<TreeView>, n: nat)
    requires
        n <= trees.len() <= more.len(),
        forall|p: int| 0 <= p < trees.len() ==> more[p] == trees[p],
    ensures
        leaves_of(more, n) == leaves_of(trees, n),
    decreases n,
{
    if n > 0 {
        lemma_leaves_of_prefix(trees, more, (n - 1) as nat);
    }
}

/// The leaves of a list with one more tree are the list's and that tree's.
pub proof fn lemma_leaves_of_push(trees: Seq<TreeView>, last: TreeView)
    ensures
        leaves_of(trees.push(last), trees.len() + 1) == leaves_of(trees, trees.len()) + leaves(last),
{
    lemma_leaves_of_prefix(trees, trees.push(last), trees.len());
}

/// Every list of a product is a list of the first factor with a tree of the second.
pub proof fn lemma_product(prefixes: Seq<Seq<TreeView>>, lasts: Seq<TreeView>, z: int)
    requires
        0 <= z < product(prefixes, lasts).len(),
    ensures
        exists|x: int, y: int|
            0 <= x < prefixes.len() && 0 <= y < lasts.len() && product(prefixes, lasts)[z] == (#[trigger] prefixes[x]).push(
                #[trigger] lasts[y],
            ),
    decreases prefixes.len(),
{
    if prefixes.len() > 0 {
        let front = product(prefixes.drop_last(), lasts);
        if z < front.len() {
            lemma_product(prefixes.drop_last(), lasts, z);
            let (x, y) = choose|x: int, y: int|
                0 <= x < prefixes.drop_last().len() && 0 <= y < lasts.len() && front[z] == (
                #[trigger] prefixes.drop_last()[x]).push(#[trigger] lasts[y]);
            assert(prefixes[x] == prefixes.drop_last()[x]);
            assert(product(prefixes, lasts)[z] == prefixes[x].push(lasts[y]));
        } else {
            let y = z - front.len();
            let x = prefixes.len() - 1;
            assert(extend_each(prefixes.last(), lasts)[y] == prefixes.last().push(lasts[y]));
            assert(product(prefixes, lasts)[z] == prefixes[x].push(lasts[y]));
        }
    }
}

/// Children that explain a source, with one more tree that its last
/// symbol derives from the input up to the span's end, explain the span.
pub proof fn lemma_explains_push(
    g: GrammarView,
    chart: &Chart,
    i: int,
    source: int,
    before: Seq<TreeView>,
    last: TreeView,
    middle: int,
)
    requires
        0 <= i < chart.spans@.len(),
        0 <= source < chart.spans@.len(),
        explains(g, chart, source, before),
        chart.spans@[source].rule == chart.spans@[i].rule,
        chart.spans@[source].dot + 1 == chart.spans@[i].dot,
        chart.spans@[source].origin == chart.spans@[i].origin,
        chart.spans@[source].end == middle,
        chart.spans@[source].origin <= middle <= chart.spans@[i].end <= chart.input().len(),
        derives(g, last, g.rules[chart.spans@[i].rule as int].body[chart.spans@[i].dot - 1]),
        leaves(last) == chart.input().subrange(middle, chart.spans@[i].end as int),
    ensures
        explains(g, chart, i, before.push(last)),
{
    let k = chart.spans@[i].key();
    let all = before.push(last);
    lemma_leaves_of_push(before, last);
    assert(chart.input().subrange(k.origin, middle) + chart.input().subrange(middle, k.end) =~= chart.input().subrange(
        k.origin,
        k.end,
    ));
    assert forall|p: int| 0 <= p < all.len() implies derives(g, all[p], #[trigger] g.rules[k.rule].body[p]) by {
        let ks = chart.spans@[source].key();
        assert(ks.rule == k.rule);
        if p < before.len() {
            assert(all[p] == before[p]);
            assert(derives(g, before[p], g.rules[ks.rule].body[p]));
        } else {
            assert(all[p] == last);
            assert(p == k.dot - 1);
        }
    }
}

/// Every span ends inside the input.
pub proof fn lemma_span_in_input(g: GrammarView, chart: &Chart, i: int)
    requires
        chart.wf(g),
        0 <= i < chart.spans@.len(),
    ensures
        0 <= chart.spans@[i].origin <= chart.spans@[i].end <= chart.input().len(),
        key_ok(g, chart.spans@[i].key()),
{
    assert(key_ok(g, chart.spans@[i].key()));
    assert(chart.spans@[i].end < chart.starts@.len());
}

/// Forest soundness, span by span: every list of children that the
/// sources of a span give is derived by the symbols before its dot from
/// the input between its origin and its end.
pub proof fn lemma_children_sound(g: GrammarView, chart: &Chart, i: int, fuel: nat)
    requires
        g.wf(),
        chart.wf(g),
        0 <= i < chart.spans@.len(),
    ensures
        all_children(g, chart, i, fuel) matches Some(lists) ==> forall|a: int|
            0 <= a < lists.len() ==> explains(g, chart, i, #[trigger] lists[a]),
    decreases fuel, chart.sources(i).len() + 1,
{
    if fuel > 0 {
        lemma_span_in_input(g, chart, i);
        if chart.sources(i).len() == 0 {
            let k = chart.spans@[i].key();
            let none = Seq::<TreeView>::empty();
            assert(chart.input().subrange(k.origin, k.end) =~= Seq::empty());
            assert(explains(g, chart, i, none));
        } else {
            lemma_children_by_sound(g, chart, i, fuel, chart.sources(i).len());
        }
    }
}

/// Forest soundness for the first `n` sources of a span.
pub proof fn lemma_children_by_sound(g: GrammarView, chart: &Chart, i: int, fuel: nat, n: nat)
    requires
        g.wf(),
        chart.wf(g),
        0 <= i < chart.spans@.len(),
        n <= chart.sources(i).len(),
    ensures
        children_by(g, chart, i, fuel, n) matches Some(lists) ==> forall|a: int|
            0 <= a < lists.len() ==> explains(g, chart, i, #[trigger] lists[a]),
    decreases fuel, n,
{
    if fuel > 0 && n > 0 {
        lemma_children_by_sound(g, chart, i, fuel, (n - 1) as nat);
        match children_by(g, chart, i, fuel, n) {
            Some(lists) => {
                let rest = children_by(g, chart, i, fuel, (n - 1) as nat)->Some_0;
                let k = chart.spans@[i].key();
                let src = chart.sources(i)[n - 1];
                assert(source_ok(g, chart.keys(), chart.input(), k, chart.spans@[i].sources@[n - 1]));
                lemma_span_in_input(g, chart, i);
                assert forall|a: int| 0 <= a < lists.len() implies explains(g, chart, i, #[trigger] lists[a]) by {
                    if a < rest.len() {
                        assert(lists[a] == rest[a]);
                    } else {
                        let z = a - rest.len();
                        match src {
                            SpanSource::Scan { source, token } => {
                                let before = all_children(g, chart, source as int, (fuel - 1) as nat)->Some_0;
                                let leaf = leaf_of(g, chart, k.rule, k.dot, token as int);
                                let here = product(before, seq![leaf]);
                                assert(lists[a] == here[z]);
                                lemma_product(before, seq![leaf], z);
                                let (x, y) = choose|x: int, y: int|
                                    0 <= x < before.len() && 0 <= y < seq![leaf].len() && here[z] == (
                                    #[trigger] before[x]).push(#[trigger] seq![leaf][y]);
                                lemma_children_sound(g, chart, source as int, (fuel - 1) as nat);
                                lemma_span_in_input(g, chart, source as int);
                                assert(chart.keys()[source as int] == chart.spans@[source as int].key());
                                let tok = chart.input()[token as int];
                                assert(leaves(leaf) =~= chart.input().subrange(token as int, k.end));
                                lemma_explains_push(g, chart, i, source as int, before[x], leaf, token as int);
                            },
                            SpanSource::Completion { source, trigger } => {
                                let before = all_children(g, chart, source as int, (fuel - 1) as nat)->Some_0;
                                let below = all_children(g, chart, trigger as int, (fuel - 1) as nat)->Some_0;
                                let name = g.rules[chart.spans@[trigger as int].rule as int].name;
                                let lasts = nodes_of(name, below);
                                let here = product(before, lasts);
                                assert(lists[a] == here[z]);
                                lemma_product(before, lasts, z);
                                let (x, y) = choose|x: int, y: int|
                                    0 <= x < before.len() && 0 <= y < lasts.len() && here[z] == (
                                    #[trigger] before[x]).push(#[trigger] lasts[y]);
                                lemma_children_sound(g, chart, source as int, (fuel - 1) as nat);
                                lemma_children_sound(g, chart, trigger as int, (fuel - 1) as nat);
                                lemma_span_in_input(g, chart, source as int);
                                lemma_span_in_input(g, chart, trigger as int);
                                assert(chart.keys()[source as int] == chart.spans@[source as int].key());
                                assert(chart.keys()[trigger as int] == chart.spans@[trigger as int].key());
                                assert(explains(g, chart, trigger as int, below[y]));
                                lemma_node_derives(g, chart, trigger as int, below[y]);
                                assert(lasts[y] == TreeView::Node(name, below[y]));
                                lemma_explains_push(
                                    g,
                                    chart,
                                    i,
                                    source as int,
                                    before[x],
                                    lasts[y],
                                    chart.spans@[source as int].end as int,
                                );
                            },
                        }
                    }
                }
            },
            None => {},
        }
    }
}

/// Children that explain a complete span make a node that the head of
/// its rule derives from the input between the span's origin and its end.
pub proof fn lemma_node_derives(g: GrammarView, chart: &Chart, i: int, children: Seq<TreeView>)
    requires
        chart.wf(g),
        0 <= i < chart.spans@.len(),
        crate::chart::is_complete(g, chart.spans@[i].key()),
        explains(g, chart, i, children),
    ensures
        derives(
            g,
            TreeView::Node(g.rules[chart.spans@[i].rule as int].name, children),
            g.rules[chart.spans@[i].rule as int].head,
        ),
        leaves(TreeView::Node(g.rules[chart.spans@[i].rule as int].name, children)) == chart.input().subrange(
            chart.spans@[i].origin as int,
            chart.spans@[i].end as int,
        ),
{
    let r = chart.spans@[i].rule as int;
    assert(key_ok(g, chart.spans@[i].key()));
    assert(g.rules[r].head == g.rules[r].head);
}

/// Forest soundness: every tree of a parse is a derivation of the whole
/// input from the start symbol.
pub proof fn lemma_forest_sound(g: GrammarView, chart: &Chart, roots: Seq<usize>, fuel: nat)
    requires
        g.wf(),
        chart.wf(g),
        chart.starts@.len() == chart.tokens@.len() + 1,
        forall|r: int|
            0 <= r < roots.len() ==> (#[trigger] roots[r]) < chart.spans@.len() && is_root(
                g,
                chart.spans@[roots[r] as int].key(),
                chart.last(),
            ),
    ensures
        forest_of(g, chart, roots, fuel) matches Some(trees) ==> forall|t: int|
            0 <= t < trees.len() ==> derives(g, #[trigger] trees[t], g.start) && leaves(trees[t]) == chart.input(),
    decreases roots.len(),
{
    if roots.len() > 0 {
        let front = roots.drop_last();
        assert forall|r: int| 0 <= r < front.len() implies (#[trigger] front[r]) < chart.spans@.len() && is_root(
            g,
            chart.spans@[front[r] as int].key(),
            chart.last(),
        ) by {
            assert(front[r] == roots[r]);
        }
        lemma_forest_sound(g, chart, front, fuel);
        match forest_of(g, chart, roots, fuel) {
            Some(trees) => {
                let before = forest_of(g, chart, front, fuel)->Some_0;
                let i = roots.last() as int;
                assert(roots[roots.len() - 1] == roots.last());
                let lists = all_children(g, chart, i, fuel)->Some_0;
                let name = g.rules[chart.spans@[i].rule as int].name;
                lemma_children_sound(g, chart, i, fuel);
                assert forall|t: int| 0 <= t < trees.len() implies derives(g, #[trigger] trees[t], g.start) && leaves(
                    trees[t],
                ) == chart.input() by {
                    if t < before.len() {
                        assert(trees[t] == before[t]);
                    } else {
                        let y = t - before.len();
                        assert(trees[t] == TreeView::Node(name, lists[y]));
                        assert(explains(g, chart, i, lists[y]));
                        lemma_node_derives(g, chart, i, lists[y]);
                        assert(chart.input().subrange(0, chart.input().len() as int) =~= chart.input());
                    }
                }
            },
            None => {},
        }
    }
}


/// The children that the first sources give to a span are derived by the
/// symbols before its dot from the input between its origin and its end.
pub proof fn lemma_first_children_sound(g: GrammarView, chart: &Chart, i: int, fuel: nat)
    requires
        g.wf(),
        chart.wf(g),
        0 <= i < chart.spans@.len(),
    ensures
        first_children(g, chart, i, fuel) matches Some(children) ==> explains(g, chart, i, children),
    decreases fuel,
{
    if fuel > 0 {
        lemma_span_in_input(g, chart, i);
        let k = chart.spans@[i].key();
        if chart.sources(i).len() == 0 {
            assert(chart.input().subrange(k.origin, k.end) =~= Seq::empty());
            assert(explains(g, chart, i, Seq::<TreeView>::empty()));
        } else if first_children(g, chart, i, fuel) is Some {
            assert(source_ok(g, chart.keys(), chart.input(), k, chart.spans@[i].sources@[0]));
            match chart.sources(i)[0] {
                SpanSource::Scan { source, token } => {
                    let before = first_children(g, chart, source as int, (fuel - 1) as nat)->Some_0;
                    let leaf = leaf_of(g, chart, k.rule, k.dot, token as int);
                    lemma_first_children_sound(g, chart, source as int, (fuel - 1) as nat);
                    lemma_span_in_input(g, chart, source as int);
                    assert(chart.keys()[source as int] == chart.spans@[source as int].key());
                    assert(leaves(leaf) =~= chart.input().subrange(token as int, k.end));
                    lemma_explains_push(g, chart, i, source as int, before, leaf, token as int);
                },
                SpanSource::Completion { source, trigger } => {
                    let before = first_children(g, chart, source as int, (fuel - 1) as nat)->Some_0;
                    let below = first_children(g, chart, trigger as int, (fuel - 1) as nat)->Some_0;
                    let name = g.rules[chart.spans@[trigger as int].rule as int].name;
                    lemma_first_children_sound(g, chart, source as int, (fuel - 1) as nat);
                    lemma_first_children_sound(g, chart, trigger as int, (fuel - 1) as nat);
                    lemma_span_in_input(g, chart, source as int);
                    lemma_span_in_input(g, chart, trigger as int);
                    assert(chart.keys()[source as int] == chart.spans@[source as int].key());
                    assert(chart.keys()[trigger as int] == chart.spans@[trigger as int].key());
                    lemma_node_derives(g, chart, trigger as int, below);
                    lemma_explains_push(
                        g,
                        chart,
                        i,
                        source as int,
                        before,
                        TreeView::Node(name, below),
                        chart.spans@[source as int].end as int,
                    );
                },
            }
        }
    }
}

/// The first tree of a root, which `eval` and `eval_recursive` evaluate,
/// is a derivation of the whole input from the start symbol.
pub proof fn lemma_first_tree_sound(g: GrammarView, chart: &Chart, root: int, fuel: nat)
    requires
        g.wf(),
        chart.wf(g),
        chart.starts@.len() == chart.tokens@.len() + 1,
        0 <= root < chart.spans@.len(),
        is_root(g, chart.spans@[root].key(), chart.last()),
    ensures
        first_tree(g, chart, root, fuel) matches Some(tree) ==> derives(g, tree, g.start) && leaves(tree)
            == chart.input(),
{
    lemma_first_children_sound(g, chart, root, fuel);
    match first_children(g, chart, root, fuel) {
        Some(children) => {
            lemma_node_derives(g, chart, root, children);
            assert(chart.input().subrange(0, chart.input().len() as int) =~= chart.input());
        },
        None => {},
    }
}


/// Following first sources never runs out of fuel that exceeds the place
/// of the span: every first source names earlier spans.
pub proof fn lemma_first_children_exist(g: GrammarView, chart: &Chart, i: int, fuel: nat)
    requires
        chart.wf(g),
        0 <= i < chart.spans@.len(),
        fuel > i,
    ensures
        first_children(g, chart, i, fuel) is Some,
    decreases fuel,
{
    if chart.sources(i).len() > 0 {
        assert(crate::chart::earlier(chart.first_source(i), i));
        match chart.sources(i)[0] {
            SpanSource::Scan { source, token } => {
                lemma_first_children_exist(g, chart, source as int, (fuel - 1) as nat);
            },
            SpanSource::Completion { source, trigger } => {
                lemma_first_children_exist(g, chart, source as int, (fuel - 1) as nat);
                lemma_first_children_exist(g, chart, trigger as int, (fuel - 1) as nat);
            },
        }
    }
}

/// Whether the start symbol of `g` derives `input`.
pub open spec fn in_language(g: GrammarView, input: Seq<TokenView>) -> bool {
    exists|tree: TreeView| #[trigger] derives(g, tree, g.start) && leaves(tree) == input
}

/// A chart with a root has a first tree, which derives the whole input
/// from the start symbol: what the recogniser accepts is in the language.
pub proof fn lemma_recognised(g: GrammarView, chart: &Chart, root: int)
    requires
        g.wf(),
        chart.wf(g),
        chart.starts@.len() == chart.tokens@.len() + 1,
        0 <= root < chart.spans@.len(),
        is_root(g, chart.spans@[root].key(), chart.last()),
    ensures
        first_tree(g, chart, root, chart.spans@.len()) is Some,
        in_language(g, chart.input()),
{
    lemma_first_children_exist(g, chart, root, chart.spans@.len());
    lemma_first_tree_sound(g, chart, root, chart.spans@.len());
    let tree = first_tree(g, chart, root, chart.spans@.len())->Some_0;
    assert(derives(g, tree, g.start) && leaves(tree) == chart.input());
}

} // verus!
