//! Derivation trees, and how to read them off a chart by following sources.

use crate::chart::{Chart, SpanSource};
use crate::grammar::{lemma_rule_bounds, Grammar, GrammarView};
use crate::parser::ParseTrees;
use vstd::prelude::*;

verus! {

/// A derivation tree: a leaf is a scanned token under the name of its
/// terminal, a node is a rule, under its canonical name, with one child for
/// each symbol of its body.
#[derive(Debug)]
pub enum Tree {
    Leaf(String, String),
    Node(String, Vec<Tree>),
}

/// The mathematical value of a `Tree`.
pub enum TreeView {
    Leaf(Seq<char>, Seq<char>),
    Node(Seq<char>, Seq<TreeView>),
}

impl View for Tree {
    type V = TreeView;

    open spec fn view(&self) -> TreeView
        decreases self,
    {
        match self {
            Tree::Leaf(symbol, lexeme) => TreeView::Leaf(symbol@, lexeme@),
            Tree::Node(rule, children) => TreeView::Node(
                rule@,
                Seq::new(
                    children.len() as nat,
                    |i: int|
                        if 0 <= i < children.len() {
                            children[i].view()
                        } else {
                            TreeView::Node(Seq::empty(), Seq::empty())
                        },
                ),
            ),
        }
    }
}

/// The views of a list of trees.
pub open spec fn tree_views(trees: Seq<Tree>) -> Seq<TreeView> {
    Seq::new(trees.len(), |i: int| trees[i]@)
}

/// The view of a node is the node of its children's views.
pub proof fn lemma_node_view(rule: String, children: Vec<Tree>)
    ensures
        Tree::Node(rule, children)@ == TreeView::Node(rule@, tree_views(children@)),
{
    let t = Tree::Node(rule, children);
    assert(t@ == TreeView::Node(rule@, tree_views(children@))) by {
        assert(t@->Node_1 =~= tree_views(children@));
    }
}

/// A copy of a list of trees.
pub fn copy_trees(trees: &Vec<Tree>) -> (r: Vec<Tree>)
    ensures
        tree_views(r@) == tree_views(trees@),
    decreases trees,
{
    let mut out: Vec<Tree> = Vec::new();
    let mut i: usize = 0;
    while i < trees.len()
        invariant
            i <= trees.len(),
            out@.len() == i,
            forall|j: int| 0 <= j < i ==> out@[j]@ == trees@[j]@,
        decreases trees.len() - i,
    {
        let t = match &trees[i] {
            Tree::Leaf(symbol, lexeme) => Tree::Leaf(symbol.clone(), lexeme.clone()),
            Tree::Node(rule, children) => {
                let kids = copy_trees(children);
                proof {
                    lemma_node_view(*rule, *children);
                    lemma_node_view(*rule, kids);
                }
                Tree::Node(rule.clone(), kids)
            },
        };
        out.push(t);
        i += 1;
    }
    assert(tree_views(out@) =~= tree_views(trees@));
    out
}

impl Tree {
    /// A copy of the tree.
    pub fn duplicate(&self) -> (r: Tree)
        ensures
            r@ == self@,
    {
        match self {
            Tree::Leaf(symbol, lexeme) => Tree::Leaf(symbol.clone(), lexeme.clone()),
            Tree::Node(rule, children) => {
                let kids = copy_trees(children);
                proof {
                    lemma_node_view(*rule, *children);
                    lemma_node_view(*rule, kids);
                }
                Tree::Node(rule.clone(), kids)
            },
        }
    }
}

/// The leaf that a scan of token `token` gives to the span with rule `rule`
/// and its dot at `dot`.
pub open spec fn leaf_of(g: GrammarView, chart: &Chart, rule: int, dot: int, token: int) -> TreeView {
    TreeView::Leaf(g.symbols[g.rules[rule].body[dot - 1]].name, chart.input()[token].lexeme)
}

/// The node of the span at place `i` over the given children, if there are any.
pub open spec fn node_of(g: GrammarView, chart: &Chart, i: int, children: Option<Seq<TreeView>>) -> Option<
    TreeView,
> {
    match children {
        Some(children) => Some(TreeView::Node(g.rules[chart.spans@[i].rule as int].name, children)),
        None => None,
    }
}

/// The children that the span at place `i` has when the first source is
/// followed at every span: as many trees as symbols lie before its dot.
/// `None` when following sources leads more than `fuel` spans deep.
pub open spec fn first_children(g: GrammarView, chart: &Chart, i: int, fuel: nat) -> Option<Seq<TreeView>>
    decreases fuel,
{
    if fuel == 0 {
        None
    } else if chart.sources(i).len() == 0 {
        Some(Seq::empty())
    } else {
        match chart.sources(i)[0] {
            SpanSource::Scan { source, token } => match first_children(g, chart, source as int, (fuel - 1) as nat) {
                Some(before) => Some(
                    before.push(
                        leaf_of(g, chart, chart.spans@[i].rule as int, chart.spans@[i].dot as int, token as int),
                    ),
                ),
                None => None,
            },
            SpanSource::Completion { source, trigger } => match (
                first_children(g, chart, source as int, (fuel - 1) as nat),
                node_of(g, chart, trigger as int, first_children(g, chart, trigger as int, (fuel - 1) as nat)),
            ) {
                (Some(before), Some(child)) => Some(before.push(child)),
                _ => None,
            },
        }
    }
}

/// The tree of the span at place `i` when the first source is followed at every span.
pub open spec fn first_tree(g: GrammarView, chart: &Chart, i: int, fuel: nat) -> Option<TreeView> {
    node_of(g, chart, i, first_children(g, chart, i, fuel))
}


/// Whether `r` holds the trees `s`, or neither holds any.
pub open spec fn same_forest(r: Option<Vec<Tree>>, s: Option<Seq<TreeView>>) -> bool {
    match (r, s) {
        (Some(v), Some(s)) => tree_views(v@) == s,
        (None, None) => true,
        _ => false,
    }
}

/// Follows the first source of every span from the span at place `i`
/// and returns its children, unless that leads more than `fuel` spans deep.
pub fn first_children_of(g: &Grammar, chart: &Chart, i: usize, fuel: usize) -> (r: Option<Vec<Tree>>)
    requires
        g.wf(),
        chart.wf(g@),
        i < chart.spans@.len(),
    ensures
        same_forest(r, first_children(g@, chart, i as int, fuel as nat)),
    decreases fuel,
{
    if fuel == 0 {
        return None;
    }
    let span = &chart.spans[i];
    if span.sources.len() == 0 {
        let kids: Vec<Tree> = Vec::new();
        assert(tree_views(kids@) =~= Seq::empty());
        return Some(kids);
    }
    let src = span.sources[0];
    proof {
        assert(crate::chart::source_ok(g@, chart.keys(), chart.input(), span.key(), chart.spans@[i as int].sources@[0]));
        lemma_rule_bounds(g.symbols@, g.rules@, span.rule as int);
        assert(g@.rules[span.rule as int] == g.rules@[span.rule as int]@);
    }
    match src {
        SpanSource::Scan { source, token } => {
            let mut kids = match first_children_of(g, chart, source, fuel - 1) {
                Some(kids) => kids,
                None => {
                    return None;
                },
            };
            let ghost before = tree_views(kids@);
            let sym: usize = g.rules[span.rule].body[span.dot - 1];
            assert(g@.rules[span.rule as int].body[span.dot - 1] == sym);
            assert(g@.symbols[sym as int] == g.symbols@[sym as int]@);
            assert(chart.input()[token as int] == chart.tokens@[token as int]@);
            let leaf = Tree::Leaf(g.symbols[sym].name.clone(), chart.tokens[token].lexeme.clone());
            assert(leaf@ == leaf_of(g@, chart, span.rule as int, span.dot as int, token as int));
            kids.push(leaf);
            assert(tree_views(kids@) =~= before.push(leaf@));
            Some(kids)
        },
        SpanSource::Completion { source, trigger } => {
            let mut kids = match first_children_of(g, chart, source, fuel - 1) {
                Some(kids) => kids,
                None => {
                    return None;
                },
            };
            let below = match first_children_of(g, chart, trigger, fuel - 1) {
                Some(below) => below,
                None => {
                    return None;
                },
            };
            let ghost before = tree_views(kids@);
            let t_rule: usize = chart.spans[trigger].rule;
            proof {
                assert(crate::chart::key_ok(g@, chart.spans@[trigger as int].key()));
                assert(g@.rules[t_rule as int] == g.rules@[t_rule as int]@);
            }
            let name = g.rules[t_rule].name.clone();
            proof {
                lemma_node_view(name, below);
            }
            let child = Tree::Node(name, below);
            kids.push(child);
            assert(tree_views(kids@) =~= before.push(child@));
            Some(kids)
        },
    }
}

/// The tree of the root at place `i`, by first sources.
pub fn first_tree_of(g: &Grammar, chart: &Chart, i: usize, fuel: usize) -> (r: Option<Tree>)
    requires
        g.wf(),
        chart.wf(g@),
        i < chart.spans@.len(),
    ensures
        match (r, first_tree(g@, chart, i as int, fuel as nat)) {
            (Some(t), Some(s)) => t@ == s,
            (None, None) => true,
            _ => false,
        },
{
    match first_children_of(g, chart, i, fuel) {
        Some(kids) => {
            let rule: usize = chart.spans[i].rule;
            proof {
                assert(crate::chart::key_ok(g@, chart.spans@[i as int].key()));
                assert(g@.rules[rule as int] == g.rules@[rule as int]@);
            }
            let name = g.rules[rule].name.clone();
            proof {
                lemma_node_view(name, kids);
            }
            Some(Tree::Node(name, kids))
        },
        None => None,
    }
}


/// The views of a list of lists of trees.
pub open spec fn forest_views(lists: Seq<Vec<Tree>>) -> Seq<Seq<TreeView>> {
    Seq::new(lists.len(), |k: int| tree_views(lists[k]@))
}

/// `prefix` followed by each of `lasts` in turn.
pub open spec fn extend_each(prefix: Seq<TreeView>, lasts: Seq<TreeView>) -> Seq<Seq<TreeView>> {
    Seq::new(lasts.len(), |j: int| prefix.push(lasts[j]))
}

/// Every list of `prefixes` followed by every tree of `lasts`: the lists
/// in their order and, for each list, the trees in theirs.
pub open spec fn product(prefixes: Seq<Seq<TreeView>>, lasts: Seq<TreeView>) -> Seq<Seq<TreeView>>
    decreases prefixes.len(),
{
    if prefixes.len() == 0 {
        Seq::empty()
    } else {
        product(prefixes.drop_last(), lasts) + extend_each(prefixes.last(), lasts)
    }
}

/// One node called `name` over each list of children.
pub open spec fn nodes_of(name: Seq<char>, lists: Seq<Seq<TreeView>>) -> Seq<TreeView> {
    Seq::new(lists.len(), |k: int| TreeView::Node(name, lists[k]))
}

/// Every list of children that the span at place `i` can have, in the
/// order of its sources; for a completion the choices for the source vary
/// slowest. `None` when following sources leads more than `fuel` spans deep.
pub open spec fn all_children(g: GrammarView, chart: &Chart, i: int, fuel: nat) -> Option<Seq<Seq<TreeView>>>
    decreases fuel, chart.sources(i).len() + 1,
{
    if fuel == 0 {
        None
    } else if chart.sources(i).len() == 0 {
        Some(seq![Seq::empty()])
    } else {
        children_by(g, chart, i, fuel, chart.sources(i).len())
    }
}

/// The lists of children that the first `n` sources of the span at place `i` give.
pub open spec fn children_by(g: GrammarView, chart: &Chart, i: int, fuel: nat, n: nat) -> Option<
    Seq<Seq<TreeView>>,
>
    decreases fuel, n,
{
    if fuel == 0 {
        None
    } else if n == 0 {
        Some(Seq::empty())
    } else {
        let here = match chart.sources(i)[n - 1] {
            SpanSource::Scan { source, token } => match all_children(g, chart, source as int, (fuel - 1) as nat) {
                Some(before) => Some(
                    product(
                        before,
                        seq![
                            leaf_of(g, chart, chart.spans@[i].rule as int, chart.spans@[i].dot as int, token as int),
                        ],
                    ),
                ),
                None => None,
            },
            SpanSource::Completion { source, trigger } => match (
                all_children(g, chart, source as int, (fuel - 1) as nat),
                all_children(g, chart, trigger as int, (fuel - 1) as nat),
            ) {
                (Some(before), Some(below)) => Some(
                    product(before, nodes_of(g.rules[chart.spans@[trigger as int].rule as int].name, below)),
                ),
                _ => None,
            },
        };
        match (children_by(g, chart, i, fuel, (n - 1) as nat), here) {
            (Some(rest), Some(here)) => Some(rest + here),
            _ => None,
        }
    }
}

/// Every tree of the span at place `i`.
pub open spec fn all_trees_of(g: GrammarView, chart: &Chart, i: int, fuel: nat) -> Option<Seq<TreeView>> {
    match all_children(g, chart, i, fuel) {
        Some(lists) => Some(nodes_of(g.rules[chart.spans@[i].rule as int].name, lists)),
        None => None,
    }
}

/// Once some source leads too deep, so do all the sources together.
pub proof fn lemma_children_by_none(g: GrammarView, chart: &Chart, i: int, fuel: nat, n: nat, m: nat)
    requires
        n <= m,
        children_by(g, chart, i, fuel, n) is None,
    ensures
        children_by(g, chart, i, fuel, m) is None,
    decreases m,
{
    if n < m {
        lemma_children_by_none(g, chart, i, fuel, n, (m - 1) as nat);
    }
}

/// Adds to `out` every list of `prefixes` followed by every tree of `lasts`.
pub fn cross(prefixes: &Vec<Vec<Tree>>, lasts: &Vec<Tree>, out: &mut Vec<Vec<Tree>>)
    ensures
        forest_views(final(out)@) == forest_views(old(out)@) + product(
            forest_views(prefixes@),
            tree_views(lasts@),
        ),
{
    let ghost start = forest_views(out@);
    let ghost pv = forest_views(prefixes@);
    let ghost lv = tree_views(lasts@);
    let mut a: usize = 0;
    assert(pv.take(0) =~= Seq::empty());
    assert(forest_views(out@) =~= start + product(pv.take(0), lv));
    while a < prefixes.len()
        invariant
            a <= prefixes.len(),
            pv == forest_views(prefixes@),
            lv == tree_views(lasts@),
            forest_views(out@) == start + product(pv.take(a as int), lv),
        decreases prefixes.len() - a,
    {
        let ghost row = forest_views(out@);
        let mut b: usize = 0;
        assert(extend_each(pv[a as int], lv.take(0)) =~= Seq::empty());
        assert(row + extend_each(pv[a as int], lv.take(0)) =~= row);
        while b < lasts.len()
            invariant
                a < prefixes.len(),
                b <= lasts.len(),
                pv == forest_views(prefixes@),
                lv == tree_views(lasts@),
                forest_views(out@) == row + extend_each(pv[a as int], lv.take(b as int)),
            decreases lasts.len() - b,
        {
            let ghost had = forest_views(out@);
            let mut list = copy_trees(&prefixes[a]);
            let last = lasts[b].duplicate();
            let ghost front = tree_views(list@);
            list.push(last);
            assert(tree_views(list@) =~= front.push(lv[b as int]));
            out.push(list);
            assert(forest_views(out@) =~= had.push(pv[a as int].push(lv[b as int])));
            assert(extend_each(pv[a as int], lv.take(b + 1)) =~= extend_each(pv[a as int], lv.take(b as int)).push(
                pv[a as int].push(lv[b as int]),
            ));
            b += 1;
        }
        proof {
            assert(lv.take(lasts.len() as int) =~= lv);
            assert(pv.take(a + 1).drop_last() =~= pv.take(a as int));
            assert(pv.take(a + 1).last() == pv[a as int]);
            assert(forest_views(out@) =~= start + product(pv.take(a + 1), lv));
        }
        a += 1;
    }
    assert(pv.take(prefixes.len() as int) =~= pv);
}

/// Whether `r` holds the lists `s`, or neither holds any.
pub open spec fn same_lists(r: Option<Vec<Vec<Tree>>>, s: Option<Seq<Seq<TreeView>>>) -> bool {
    match (r, s) {
        (Some(v), Some(s)) => forest_views(v@) == s,
        (None, None) => true,
        _ => false,
    }
}

/// One node called `name` over a copy of each list.
pub fn nodes_over(name: &String, lists: &Vec<Vec<Tree>>) -> (r: Vec<Tree>)
    ensures
        tree_views(r@) == nodes_of(name@, forest_views(lists@)),
{
    let mut out: Vec<Tree> = Vec::new();
    let mut k: usize = 0;
    while k < lists.len()
        invariant
            k <= lists.len(),
            out@.len() == k,
            forall|j: int| 0 <= j < k ==> out@[j]@ == TreeView::Node(name@, tree_views(lists@[j]@)),
        decreases lists.len() - k,
    {
        let kids = copy_trees(&lists[k]);
        let label = name.clone();
        proof {
            lemma_node_view(label, kids);
        }
        out.push(Tree::Node(label, kids));
        k += 1;
    }
    assert(tree_views(out@) =~= nodes_of(name@, forest_views(lists@)));
    out
}

/// Follows every source of every span from the span at place `i` and
/// returns every list of children it can have, unless that leads more than
/// `fuel` spans deep.
pub fn all_children_of(g: &Grammar, chart: &Chart, i: usize, fuel: usize) -> (r: Option<Vec<Vec<Tree>>>)
    requires
        g.wf(),
        chart.wf(g@),
        i < chart.spans@.len(),
    ensures
        same_lists(r, all_children(g@, chart, i as int, fuel as nat)),
    decreases fuel,
{
    if fuel == 0 {
        return None;
    }
    let span = &chart.spans[i];
    let mut out: Vec<Vec<Tree>> = Vec::new();
    if span.sources.len() == 0 {
        let kids: Vec<Tree> = Vec::new();
        assert(tree_views(kids@) =~= Seq::empty());
        out.push(kids);
        assert(forest_views(out@) =~= seq![Seq::<TreeView>::empty()]);
        return Some(out);
    }
    proof {
        lemma_rule_bounds(g.symbols@, g.rules@, span.rule as int);
        assert(g@.rules[span.rule as int] == g.rules@[span.rule as int]@);
    }
    let n: usize = span.sources.len();
    let mut s: usize = 0;
    assert(forest_views(out@) =~= Seq::empty());
    while s < n
        invariant
            g.wf(),
            chart.wf(g@),
            i < chart.spans@.len(),
            span == &chart.spans@[i as int],
            n == span.sources@.len(),
            s <= n,
            fuel > 0,
            forall|k: int| 0 <= k < span.body_len(g@) ==> (#[trigger] g.rules@[span.rule as int].body@[k]) < g.symbols@.len(),
            span.rule < g.rules@.len(),
            g@.rules[span.rule as int] == g.rules@[span.rule as int]@,
            children_by(g@, chart, i as int, fuel as nat, s as nat) == Some(forest_views(out@)),
        decreases n - s,
    {
        let src = span.sources[s];
        let ghost had = forest_views(out@);
        proof {
            assert(crate::chart::source_ok(g@, chart.keys(), chart.input(), span.key(), chart.spans@[i as int].sources@[s as int]));
        }
        match src {
            SpanSource::Scan { source, token } => {
                let before = match all_children_of(g, chart, source, fuel - 1) {
                    Some(before) => before,
                    None => {
                        proof {
                            lemma_children_by_none(g@, chart, i as int, fuel as nat, (s + 1) as nat, n as nat);
                        }
                        return None;
                    },
                };
                let sym: usize = g.rules[span.rule].body[span.dot - 1];
                assert(g@.rules[span.rule as int].body[span.dot - 1] == sym);
                assert(g@.symbols[sym as int] == g.symbols@[sym as int]@);
                assert(chart.input()[token as int] == chart.tokens@[token as int]@);
                let leaf = Tree::Leaf(g.symbols[sym].name.clone(), chart.tokens[token].lexeme.clone());
                let mut lasts: Vec<Tree> = Vec::new();
                lasts.push(leaf);
                assert(tree_views(lasts@) =~= seq![
                    leaf_of(g@, chart, span.rule as int, span.dot as int, token as int),
                ]);
                cross(&before, &lasts, &mut out);
            },
            SpanSource::Completion { source, trigger } => {
                let before = match all_children_of(g, chart, source, fuel - 1) {
                    Some(before) => before,
                    None => {
                        proof {
                            lemma_children_by_none(g@, chart, i as int, fuel as nat, (s + 1) as nat, n as nat);
                        }
                        return None;
                    },
                };
                let below = match all_children_of(g, chart, trigger, fuel - 1) {
                    Some(below) => below,
                    None => {
                        proof {
                            lemma_children_by_none(g@, chart, i as int, fuel as nat, (s + 1) as nat, n as nat);
                        }
                        return None;
                    },
                };
                let t_rule: usize = chart.spans[trigger].rule;
                proof {
                    assert(crate::chart::key_ok(g@, chart.spans@[trigger as int].key()));
                    assert(g@.rules[t_rule as int] == g.rules@[t_rule as int]@);
                }
                let lasts = nodes_over(&g.rules[t_rule].name, &below);
                cross(&before, &lasts, &mut out);
            },
        }
        s += 1;
    }
    Some(out)
}



/// Every tree of the spans at the places `roots`, root by root.
pub open spec fn forest_of(g: GrammarView, chart: &Chart, roots: Seq<usize>, fuel: nat) -> Option<Seq<TreeView>>
    decreases roots.len(),
{
    if roots.len() == 0 {
        Some(Seq::empty())
    } else {
        match (forest_of(g, chart, roots.drop_last(), fuel), all_trees_of(g, chart, roots.last() as int, fuel)) {
            (Some(before), Some(here)) => Some(before + here),
            _ => None,
        }
    }
}

/// Once the trees of some roots lead too deep, so do those of all the roots.
pub proof fn lemma_forest_of_none(g: GrammarView, chart: &Chart, roots: Seq<usize>, fuel: nat, n: int)
    requires
        0 <= n <= roots.len(),
        forest_of(g, chart, roots.take(n), fuel) is None,
    ensures
        forest_of(g, chart, roots, fuel) is None,
    decreases roots.len() - n,
{
    if n < roots.len() {
        assert(roots.take(n + 1).drop_last() =~= roots.take(n));
        lemma_forest_of_none(g, chart, roots, fuel, n + 1);
    } else {
        assert(roots.take(n) =~= roots);
    }
}

/// The first tree of a parse: from the first root, the first source of every span.
/// `None` when the sources lead in a circle.
pub fn one_tree(ptrees: &ParseTrees) -> (r: Option<Tree>)
    requires
        ptrees.wf(),
    ensures
        match (r, first_tree(ptrees.grammar@, &ptrees.chart, ptrees.roots@[0] as int, ptrees.chart.spans@.len())) {
            (Some(t), Some(s)) => t@ == s,
            (None, None) => true,
            _ => false,
        },
{
    first_tree_of(ptrees.grammar, &ptrees.chart, ptrees.roots[0], ptrees.chart.spans.len())
}

/// Every tree of a parse: root by root and, below each span, source by
/// source. `None` when the sources lead in a circle.
pub fn all_trees(ptrees: &ParseTrees) -> (r: Option<Vec<Tree>>)
    requires
        ptrees.wf(),
    ensures
        same_forest(r, forest_of(ptrees.grammar@, &ptrees.chart, ptrees.roots@, ptrees.chart.spans@.len())),
{
    let g = ptrees.grammar;
    let chart = &ptrees.chart;
    let fuel: usize = chart.spans.len();
    let mut out: Vec<Tree> = Vec::new();
    let mut k: usize = 0;
    assert(ptrees.roots@.take(0) =~= Seq::empty());
    assert(tree_views(out@) =~= Seq::empty());
    while k < ptrees.roots.len()
        invariant
            ptrees.wf(),
            g == ptrees.grammar,
            chart == &ptrees.chart,
            fuel == chart.spans@.len(),
            k <= ptrees.roots@.len(),
            forest_of(g@, chart, ptrees.roots@.take(k as int), fuel as nat) == Some(tree_views(out@)),
        decreases ptrees.roots.len() - k,
    {
        let root: usize = ptrees.roots[k];
        let ghost had = tree_views(out@);
        proof {
            assert(ptrees.roots@.take(k + 1).drop_last() =~= ptrees.roots@.take(k as int));
            assert(ptrees.roots@.take(k + 1).last() == root);
        }
        match all_children_of(g, chart, root, fuel) {
            None => {
                proof {
                    lemma_forest_of_none(g@, chart, ptrees.roots@, fuel as nat, k + 1);
                }
                return None;
            },
            Some(lists) => {
                let rule: usize = chart.spans[root].rule;
                proof {
                    assert(crate::chart::key_ok(g@, chart.spans@[root as int].key()));
                    assert(g@.rules[rule as int] == g.rules@[rule as int]@);
                }
                let mut here = nodes_over(&g.rules[rule].name, &lists);
                let ghost added = tree_views(here@);
                out.append(&mut here);
                assert(tree_views(out@) =~= had + added);
            },
        }
        k += 1;
    }
    assert(ptrees.roots@.take(ptrees.roots@.len() as int) =~= ptrees.roots@);
    Some(out)
}

} // verus!
