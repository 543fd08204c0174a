//! Semantic evaluation of a parse forest: a leaf builder and one action for
//! each rule turn derivation trees into values of the host's choice.

use crate::chart::{Chart, SpanSource};
use crate::grammar::{lemma_rule_bounds, same_text, GrammarView};
use crate::parser::ParseTrees;
use crate::trees::{
    first_children, first_tree, first_tree_of, leaf_of, lemma_node_view, node_of, tree_views, Tree, TreeView,
};
use vstd::prelude::*;

verus! {

/// Why a forest could not be evaluated.
#[derive(Debug)]
pub enum EvalError {
    /// A rule of the tree, given by its canonical name, has no action.
    MissingAction(String),
    /// The sources of the chart lead back to a span they started from, so
    /// that there is no finite tree to evaluate.
    Cyclic,
}

/// The mathematical value of an `EvalError`.
pub enum EvalErrorView {
    MissingAction(Seq<char>),
    Cyclic,
}

impl View for EvalError {
    type V = EvalErrorView;

    open spec fn view(&self) -> EvalErrorView {
        match self {
            EvalError::MissingAction(rule) => EvalErrorView::MissingAction(rule@),
            EvalError::Cyclic => EvalErrorView::Cyclic,
        }
    }
}

impl EvalError {
    /// The error as a line of text.
    pub fn message(&self) -> (r: String)
        ensures
            r@ == match self {
                EvalError::MissingAction(rule) => "Missing Action: "@ + rule@,
                EvalError::Cyclic => "Cyclic derivation"@,
            },
    {
        match self {
            EvalError::MissingAction(rule) => "Missing Action: ".to_owned().concat(rule.as_str()),
            EvalError::Cyclic => "Cyclic derivation".to_owned(),
        }
    }
}

/// A leaf builder and the actions registered so far, each under the
/// canonical name of its rule. Of two actions under one name the later counts.
#[verifier::reject_recursive_types(A)]
pub struct EarleyForest<A, L: Fn(&str, &str) -> A, F: Fn(Vec<A>) -> A> {
    pub actions: Vec<(String, F)>,
    pub leaf_builder: L,
}

impl<A, L: Fn(&str, &str) -> A, F: Fn(Vec<A>) -> A> EarleyForest<A, L, F> {
    /// Whether the action at place `h` is the one that counts for `rule`.
    pub open spec fn handles(&self, h: int, rule: Seq<char>) -> bool {
        &&& 0 <= h < self.actions@.len()
        &&& self.actions@[h].0@ == rule
        &&& forall|j: int| h < j < self.actions@.len() ==> (#[trigger] self.actions@[j]).0@ != rule
    }

    /// Whether some action is registered for `rule`.
    pub open spec fn registered(&self, rule: Seq<char>) -> bool {
        exists|h: int| 0 <= h < self.actions@.len() && (#[trigger] self.actions@[h]).0@ == rule
    }

    /// Whether the leaf builder and every action may be called on every input.
    pub open spec fn total(&self) -> bool {
        &&& forall|symbol: &str, lexeme: &str| call_requires(self.leaf_builder, (symbol, lexeme))
        &&& forall|h: int, args: Vec<A>|
            0 <= h < self.actions@.len() ==> #[trigger] call_requires(self.actions@[h].1, (args,))
    }

    /// Whether `value` is a value that the leaf builder and the actions may
    /// give for `tree`: a leaf's value comes from the leaf builder on its
    /// symbol and lexeme, a node's from the action of its rule on values of
    /// its children in their order.
    pub open spec fn folds(&self, tree: TreeView, value: A) -> bool
        decreases tree,
    {
        match tree {
            TreeView::Leaf(symbol, lexeme) => exists|s: &str, l: &str|
                s@ == symbol && l@ == lexeme && call_ensures(self.leaf_builder, (s, l), value),
            TreeView::Node(rule, children) => exists|h: int, args: Vec<A>|
                {
                    &&& self.handles(h, rule)
                    &&& args@.len() == children.len()
                    &&& forall|k: int| 0 <= k < children.len() ==> self.folds(children[k], #[trigger] args@[k])
                    &&& call_ensures(self.actions@[h].1, (args,), value)
                },
        }
    }

    /// The first rule without an action among the first `n` children of
    /// `tree`, each child read children first and from left to right.
    pub open spec fn missing_among(&self, tree: TreeView, n: nat) -> Option<Seq<char>>
        decreases tree, n,
    {
        match tree {
            TreeView::Leaf(_, _) => None,
            TreeView::Node(_, children) => if n == 0 || n > children.len() {
                None
            } else {
                match self.missing_among(tree, (n - 1) as nat) {
                    Some(rule) => Some(rule),
                    None => self.first_missing(children[n - 1]),
                }
            },
        }
    }

    /// The first rule of `tree` without an action, children before their
    /// parent and from left to right; `None` if every rule has one.
    pub open spec fn first_missing(&self, tree: TreeView) -> Option<Seq<char>>
        decreases tree, tree->Node_1.len() + 1,
    {
        match tree {
            TreeView::Leaf(_, _) => None,
            TreeView::Node(rule, children) => match self.missing_among(tree, children.len()) {
                Some(rule) => Some(rule),
                None => if self.registered(rule) {
                    None
                } else {
                    Some(rule)
                },
            },
        }
    }

    /// A forest with this leaf builder and no actions.
    pub fn new(leaf_builder: L) -> (r: Self)
        ensures
            r.actions@.len() == 0,
            r.leaf_builder == leaf_builder,
    {
        EarleyForest { actions: Vec::new(), leaf_builder }
    }

    /// Registers `action` for the rule with canonical name `rule`.
    pub fn action(&mut self, rule: &str, action: F)
        ensures
            final(self).leaf_builder == old(self).leaf_builder,
            final(self).actions@.len() == old(self).actions@.len() + 1,
            forall|j: int| 0 <= j < old(self).actions@.len() ==> final(self).actions@[j] == old(self).actions@[j],
            final(self).actions@[old(self).actions@.len() as int].0@ == rule@,
            final(self).actions@[old(self).actions@.len() as int].1 == action,
            final(self).handles(old(self).actions@.len() as int, rule@),
    {
        self.actions.push((rule.to_owned(), action));
    }

    /// The place of the action that counts for `rule`.
    pub fn handler(&self, rule: &String) -> (r: Option<usize>)
        ensures
            match r {
                Some(h) => self.handles(h as int, rule@),
                None => !self.registered(rule@),
            },
    {
        let mut h: usize = self.actions.len();
        while h > 0
            invariant
                h <= self.actions@.len(),
                forall|j: int| h <= j < self.actions@.len() ==> (#[trigger] self.actions@[j]).0@ != rule@,
            decreases h,
        {
            h -= 1;
            if same_text(&self.actions[h].0, rule) {
                return Some(h);
            }
        }
        None
    }

    /// No estimate of the number of trees is made.
    pub fn num_trees(&self) -> (r: Option<u32>)
        ensures
            r is None,
    {
        None
    }
}


impl<A, L: Fn(&str, &str) -> A, F: Fn(Vec<A>) -> A> EarleyForest<A, L, F> {
    /// A rule found missing among some children is found among more of them.
    pub proof fn lemma_missing_stays(&self, tree: TreeView, n: nat, m: nat)
        requires
            tree is Node,
            n <= m <= tree->Node_1.len(),
            self.missing_among(tree, n) is Some,
        ensures
            self.missing_among(tree, m) == self.missing_among(tree, n),
        decreases m,
    {
        if n < m {
            self.lemma_missing_stays(tree, n, (m - 1) as nat);
        }
    }

    /// Evaluates one tree, children before their parent and from left to
    /// right. It fails at the first rule without an action.
    pub fn fold(&self, tree: &Tree) -> (r: Result<A, EvalError>)
        requires
            self.total(),
        ensures
            match self.first_missing(tree@) {
                Some(rule) => r is Err && r->Err_0@ == EvalErrorView::MissingAction(rule),
                None => r is Ok && self.folds(tree@, r->Ok_0),
            },
        decreases tree,
    {
        match tree {
            Tree::Leaf(symbol, lexeme) => {
                let s = symbol.as_str();
                let l = lexeme.as_str();
                let value = (self.leaf_builder)(s, l);
                assert(s@ == symbol@ && l@ == lexeme@ && call_ensures(self.leaf_builder, (s, l), value));
                Ok(value)
            },
            Tree::Node(rule, children) => {
                proof {
                    lemma_node_view(*rule, *children);
                }
                let ghost kids = tree_views(children@);
                let mut args: Vec<A> = Vec::new();
                let mut k: usize = 0;
                while k < children.len()
                    invariant
                        self.total(),
                        k <= children.len(),
                        args@.len() == k,
                        tree == Tree::Node(*rule, *children),
                        tree@ == TreeView::Node(rule@, kids),
                        kids == tree_views(children@),
                        self.missing_among(tree@, k as nat) is None,
                        forall|j: int| 0 <= j < k ==> self.folds(kids[j], #[trigger] args@[j]),
                    decreases children.len() - k,
                {
                    assert(kids[k as int] == children@[k as int]@);
                    match self.fold(&children[k]) {
                        Ok(value) => {
                            args.push(value);
                        },
                        Err(e) => {
                            proof {
                                self.lemma_missing_stays(tree@, (k + 1) as nat, children.len() as nat);
                            }
                            return Err(e);
                        },
                    }
                    k += 1;
                }
                match self.handler(rule) {
                    None => Err(EvalError::MissingAction(rule.clone())),
                    Some(h) => {
                        let ghost given = args;
                        let value = (self.actions[h].1)(args);
                        proof {
                            assert(self.handles(h as int, rule@));
                            assert(call_ensures(self.actions@[h as int].1, (given,), value));
                            assert(self.registered(rule@));
                        }
                        Ok(value)
                    },
                }
            },
        }
    }

    /// Evaluates the first tree of the forest: at every span the first of
    /// its sources is followed, by recursion. There always is a first tree.
    pub fn eval_recursive(&self, ptrees: &ParseTrees) -> (r: Result<A, EvalError>)
        requires
            self.total(),
            ptrees.wf(),
        ensures
            first_tree(ptrees.grammar@, &ptrees.chart, ptrees.roots@[0] as int, ptrees.chart.spans@.len()) is Some,
            match first_tree(
                ptrees.grammar@,
                &ptrees.chart,
                ptrees.roots@[0] as int,
                ptrees.chart.spans@.len(),
            ) {
                None => r is Err && r->Err_0@ == EvalErrorView::Cyclic,
                Some(tree) => match self.first_missing(tree) {
                    Some(rule) => r is Err && r->Err_0@ == EvalErrorView::MissingAction(rule),
                    None => r is Ok && self.folds(tree, r->Ok_0),
                },
            },
    {
        let fuel: usize = ptrees.chart.spans.len();
        proof {
            crate::derivation::lemma_recognised(ptrees.grammar@, &ptrees.chart, ptrees.roots@[0] as int);
        }
        match first_tree_of(ptrees.grammar, &ptrees.chart, ptrees.roots[0], fuel) {
            None => Err(EvalError::Cyclic),
            Some(tree) => self.fold(&tree),
        }
    }
}


impl<A, L: Fn(&str, &str) -> A, F: Fn(Vec<A>) -> A> EarleyForest<A, L, F> {
    /// The first rule without an action among the first `n` of `trees`.
    pub open spec fn first_missing_in(&self, trees: Seq<TreeView>, n: nat) -> Option<Seq<char>>
        decreases n,
    {
        if n == 0 || n > trees.len() {
            None
        } else {
            match self.first_missing_in(trees, (n - 1) as nat) {
                Some(rule) => Some(rule),
                None => self.first_missing(trees[n - 1]),
            }
        }
    }

    /// A rule found missing among some trees is found among more of them.
    pub proof fn lemma_missing_in_stays(&self, trees: Seq<TreeView>, n: nat, m: nat)
        requires
            n <= m <= trees.len(),
            self.first_missing_in(trees, n) is Some,
        ensures
            self.first_missing_in(trees, m) == self.first_missing_in(trees, n),
        decreases m,
    {
        if n < m {
            self.lemma_missing_in_stays(trees, n, (m - 1) as nat);
        }
    }

    /// Evaluates every tree of the forest, in the order in which
    /// `all_trees` lists them.
    pub fn eval_all_recursive(&self, ptrees: &ParseTrees) -> (r: Result<Vec<A>, EvalError>)
        requires
            self.total(),
            ptrees.wf(),
        ensures
            match crate::trees::forest_of(
                ptrees.grammar@,
                &ptrees.chart,
                ptrees.roots@,
                ptrees.chart.spans@.len(),
            ) {
                None => r is Err && r->Err_0@ == EvalErrorView::Cyclic,
                Some(trees) => match self.first_missing_in(trees, trees.len()) {
                    Some(rule) => r is Err && r->Err_0@ == EvalErrorView::MissingAction(rule),
                    None => {
                        &&& r is Ok
                        &&& r->Ok_0@.len() == trees.len()
                        &&& forall|k: int| 0 <= k < trees.len() ==> self.folds(trees[k], #[trigger] r->Ok_0@[k])
                    },
                },
            },
    {
        let trees = match crate::trees::all_trees(ptrees) {
            None => {
                return Err(EvalError::Cyclic);
            },
            Some(trees) => trees,
        };
        let ghost views = tree_views(trees@);
        let mut out: Vec<A> = Vec::new();
        let mut k: usize = 0;
        while k < trees.len()
            invariant
                self.total(),
                k <= trees.len(),
                out@.len() == k,
                views == tree_views(trees@),
                crate::trees::forest_of(
                    ptrees.grammar@,
                    &ptrees.chart,
                    ptrees.roots@,
                    ptrees.chart.spans@.len(),
                ) == Some(views),
                self.first_missing_in(views, k as nat) is None,
                forall|j: int| 0 <= j < k ==> self.folds(views[j], #[trigger] out@[j]),
            decreases trees.len() - k,
        {
            assert(views[k as int] == trees@[k as int]@);
            match self.fold(&trees[k]) {
                Ok(value) => {
                    out.push(value);
                },
                Err(e) => {
                    proof {
                        self.lemma_missing_in_stays(views, (k + 1) as nat, trees.len() as nat);
                    }
                    return Err(e);
                },
            }
            k += 1;
        }
        Ok(out)
    }
}


/// One rule under evaluation on the work stack: the complete span whose
/// value is wanted, the span reached on the way back to the start of its
/// rule, how much deeper the sources may still be followed, and the values
/// of the children passed so far, the last child first.
pub struct Frame<A> {
    pub complete: usize,
    pub cursor: usize,
    pub fuel: usize,
    pub args: Vec<A>,
}

/// A frame with the trees of its values in place of the values.
pub struct FrameView {
    pub complete: int,
    pub cursor: int,
    pub fuel: nat,
    pub done: Seq<TreeView>,
}

/// Three to the power `n`.
pub open spec fn pow3(n: nat) -> nat
    decreases n,
{
    if n == 0 {
        1
    } else {
        3 * pow3((n - 1) as nat)
    }
}

/// What bounds the steps that a work stack can still take.
pub open spec fn weight(frames: Seq<FrameView>) -> nat
    decreases frames.len(),
{
    if frames.len() == 0 {
        0
    } else {
        weight(frames.drop_last()) + pow3(frames.last().fuel)
    }
}

/// The tree that a work stack stands for: the top frame's rule over the
/// children still to come from its cursor, then `carried`, then the
/// children already passed; that tree is carried into the frame below,
/// and so on down to the first frame.
pub open spec fn settle(g: GrammarView, chart: &Chart, frames: Seq<FrameView>, carried: Option<Seq<TreeView>>) -> Option<
    TreeView,
>
    decreases frames.len(),
{
    if frames.len() == 0 {
        None
    } else {
        let top = frames.last();
        let tree = node_of(g, chart, top.complete, children_at(g, chart, top, carried));
        if frames.len() == 1 {
            tree
        } else {
            settle(
                g,
                chart,
                frames.drop_last(),
                match tree {
                    Some(t) => Some(seq![t]),
                    None => None,
                },
            )
        }
    }
}

/// The children of a frame's rule once `carried` is known.
pub open spec fn children_at(g: GrammarView, chart: &Chart, top: FrameView, carried: Option<Seq<TreeView>>) -> Option<
    Seq<TreeView>,
> {
    match (first_children(g, chart, top.cursor, top.fuel), carried) {
        (Some(before), Some(carried)) => Some(before + carried + top.done.reverse()),
        _ => None,
    }
}

/// Moves the values of `args` into a list in the opposite order.
pub fn reversed<A>(args: Vec<A>) -> (r: Vec<A>)
    ensures
        r@ == args@.reverse(),
{
    let mut args = args;
    let ghost all = args@;
    let mut out: Vec<A> = Vec::new();
    while args.len() > 0
        invariant
            args@.len() + out@.len() == all.len(),
            args@ == all.take(args@.len() as int),
            forall|k: int| 0 <= k < out@.len() ==> out@[k] == all[all.len() - 1 - k],
        decreases args.len(),
    {
        let ghost before = args@;
        let value = args.pop().unwrap();
        assert(value == all[before.len() - 1]);
        out.push(value);
        assert(args@ =~= all.take(args@.len() as int));
    }
    assert(out@ =~= all.reverse());
    out
}

impl<A, L: Fn(&str, &str) -> A, F: Fn(Vec<A>) -> A> EarleyForest<A, L, F> {
    /// A tree with a child that lacks an action lacks one itself.
    pub proof fn lemma_missing_child(&self, rule: Seq<char>, children: Seq<TreeView>, k: int)
        requires
            0 <= k < children.len(),
            self.first_missing(children[k]) is Some,
        ensures
            self.first_missing(TreeView::Node(rule, children)) is Some,
    {
        let tree = TreeView::Node(rule, children);
        assert(self.missing_among(tree, (k + 1) as nat) is Some);
        self.lemma_missing_stays(tree, (k + 1) as nat, children.len());
    }

    /// A work stack into which a tree without an action is carried stands
    /// for a tree without an action.
    pub proof fn lemma_settle_missing(
        &self,
        g: GrammarView,
        chart: &Chart,
        frames: Seq<FrameView>,
        carried: Seq<TreeView>,
    )
        requires
            carried.len() == 1,
            self.first_missing(carried[0]) is Some,
        ensures
            settle(g, chart, frames, Some(carried)) matches Some(t) ==> self.first_missing(t) is Some,
        decreases frames.len(),
    {
        if frames.len() > 0 {
            let top = frames.last();
            match children_at(g, chart, top, Some(carried)) {
                Some(kids) => {
                    let before = first_children(g, chart, top.cursor, top.fuel)->Some_0;
                    assert(kids[before.len() as int] == carried[0]);
                    let name = g.rules[chart.spans@[top.complete].rule as int].name;
                    self.lemma_missing_child(name, kids, before.len() as int);
                    if frames.len() > 1 {
                        self.lemma_settle_missing(g, chart, frames.drop_last(), seq![TreeView::Node(name, kids)]);
                    }
                },
                None => {
                    if frames.len() > 1 {
                        assert(settle(g, chart, frames, Some(carried)) == settle(g, chart, frames.drop_last(), None));
                        lemma_settle_none(g, chart, frames.drop_last());
                    }
                },
            }
        }
    }

    /// Whether `frame` holds values for the trees of `view`.
    pub open spec fn frame_ok(&self, chart: &Chart, frame: Frame<A>, view: FrameView) -> bool {
        &&& frame.complete == view.complete
        &&& frame.cursor == view.cursor
        &&& frame.fuel == view.fuel
        &&& frame.complete < chart.spans@.len()
        &&& frame.cursor < chart.spans@.len()
        &&& frame.args@.len() == view.done.len()
        &&& forall|k: int| 0 <= k < frame.args@.len() ==> self.folds(view.done[k], #[trigger] frame.args@[k])
    }

    /// Whether the work stack `frames` holds values for the trees of `views`.
    pub open spec fn stack_ok(&self, chart: &Chart, frames: Seq<Frame<A>>, views: Seq<FrameView>) -> bool {
        &&& frames.len() == views.len()
        &&& forall|j: int| 0 <= j < frames.len() ==> self.frame_ok(chart, #[trigger] frames[j], views[j])
    }

    /// A stack is in order when its top frame and the stack below are.
    pub proof fn lemma_stack_push(
        &self,
        chart: &Chart,
        frames: Seq<Frame<A>>,
        views: Seq<FrameView>,
        frame: Frame<A>,
        view: FrameView,
    )
        requires
            self.stack_ok(chart, frames, views),
            self.frame_ok(chart, frame, view),
        ensures
            self.stack_ok(chart, frames.push(frame), views.push(view)),
    {
        assert forall|j: int| 0 <= j < frames.push(frame).len() implies self.frame_ok(
            chart,
            #[trigger] frames.push(frame)[j],
            views.push(view)[j],
        ) by {
            if j < frames.len() {
                assert(self.frame_ok(chart, frames[j], views[j]));
            }
        }
    }

    /// The top frame of a stack in order and the stack below are in order.
    pub proof fn lemma_stack_pop(&self, chart: &Chart, frames: Seq<Frame<A>>, views: Seq<FrameView>)
        requires
            self.stack_ok(chart, frames, views),
            frames.len() > 0,
        ensures
            self.stack_ok(chart, frames.drop_last(), views.drop_last()),
            self.frame_ok(chart, frames.last(), views.last()),
    {
        assert forall|j: int| 0 <= j < frames.drop_last().len() implies self.frame_ok(
            chart,
            #[trigger] frames.drop_last()[j],
            views.drop_last()[j],
        ) by {
            assert(self.frame_ok(chart, frames[j], views[j]));
        }
    }

    /// A frame stays in order when a value is passed to it together with its tree.
    pub proof fn lemma_frame_pass(
        &self,
        chart: &Chart,
        frame: Frame<A>,
        view: FrameView,
        after: Frame<A>,
        later: FrameView,
        value: A,
        tree: TreeView,
    )
        requires
            self.frame_ok(chart, frame, view),
            self.folds(tree, value),
            after.args@ == frame.args@.push(value),
            later.done == view.done.push(tree),
            after.complete == later.complete,
            after.cursor == later.cursor,
            after.fuel == later.fuel,
            after.complete < chart.spans@.len(),
            after.cursor < chart.spans@.len(),
        ensures
            self.frame_ok(chart, after, later),
    {
        assert forall|k: int| 0 <= k < after.args@.len() implies self.folds(later.done[k], #[trigger] after.args@[k]) by {
            if k < frame.args@.len() {
                assert(self.folds(view.done[k], frame.args@[k]));
            }
        }
    }

    /// The value that an action gives for the values of a frame, last
    /// child first, is a value of the frame's tree.
    pub proof fn lemma_frame_folds(
        &self,
        chart: &Chart,
        frame: Frame<A>,
        view: FrameView,
        rule: Seq<char>,
        h: int,
        given: Vec<A>,
        value: A,
    )
        requires
            self.frame_ok(chart, frame, view),
            self.handles(h, rule),
            given@ == frame.args@.reverse(),
            call_ensures(self.actions@[h].1, (given,), value),
        ensures
            self.folds(TreeView::Node(rule, view.done.reverse()), value),
    {
        let kids = view.done.reverse();
        assert forall|k: int| 0 <= k < kids.len() implies self.folds(kids[k], #[trigger] given@[k]) by {
            assert(given@[k] == frame.args@[frame.args@.len() - 1 - k]);
            assert(kids[k] == view.done[view.done.len() - 1 - k]);
        }
    }

    /// Evaluates the first tree of the forest as `eval_recursive` does, on a
    /// work stack in place of recursion: at every span the first of its
    /// sources is followed back to the start of the rule, where the rule's
    /// action is applied to the values passed on the way. It succeeds
    /// when `eval_recursive` does, with a value of the same tree, and fails
    /// when that fails, with the first rule without an action that it
    /// meets on its way from right to left.
    pub fn eval(&self, ptrees: &ParseTrees) -> (r: Result<A, EvalError>)
        requires
            self.total(),
            ptrees.wf(),
        ensures
            first_tree(ptrees.grammar@, &ptrees.chart, ptrees.roots@[0] as int, ptrees.chart.spans@.len()) is Some,
            match self.last_missing(
                first_tree(
                    ptrees.grammar@,
                    &ptrees.chart,
                    ptrees.roots@[0] as int,
                    ptrees.chart.spans@.len(),
                )->Some_0,
            ) {
                Some(rule) => r is Err && r->Err_0@ == EvalErrorView::MissingAction(rule),
                None => r is Ok && self.folds(
                    first_tree(
                        ptrees.grammar@,
                        &ptrees.chart,
                        ptrees.roots@[0] as int,
                        ptrees.chart.spans@.len(),
                    )->Some_0,
                    r->Ok_0,
                ),
            },
            (self.last_missing(
                first_tree(
                    ptrees.grammar@,
                    &ptrees.chart,
                    ptrees.roots@[0] as int,
                    ptrees.chart.spans@.len(),
                )->Some_0,
            ) is None) == (self.first_missing(
                first_tree(
                    ptrees.grammar@,
                    &ptrees.chart,
                    ptrees.roots@[0] as int,
                    ptrees.chart.spans@.len(),
                )->Some_0,
            ) is None),
    {
        let g = ptrees.grammar;
        let chart = &ptrees.chart;
        let root: usize = ptrees.roots[0];
        let ghost goal = first_tree(g@, chart, root as int, chart.spans@.len());
        proof {
            crate::derivation::lemma_recognised(g@, chart, root as int);
        }
        let mut frames: Vec<Frame<A>> = Vec::new();
        frames.push(Frame { complete: root, cursor: root, fuel: chart.spans.len(), args: Vec::new() });
        let ghost mut views: Seq<FrameView> = seq![
            FrameView { complete: root as int, cursor: root as int, fuel: chart.spans@.len(), done: Seq::empty() },
        ];
        let mut result: Option<A> = None;
        proof {
            lemma_fresh_frame(g@, chart, views[0]);
        }
        while result.is_none()
            invariant
                self.total(),
                ptrees.wf(),
                g == ptrees.grammar,
                chart == &ptrees.chart,
                goal == first_tree(g@, chart, ptrees.roots@[0] as int, chart.spans@.len()),
                goal is Some,
                result is None ==> frames@.len() > 0 && self.stack_ok(chart, frames@, views) && settle(
                    g@,
                    chart,
                    views,
                    Some(Seq::empty()),
                ) == goal,
                result matches Some(value) ==> goal matches Some(tree) && self.first_missing(tree) is None
                    && self.last_missing(tree) is None && self.folds(tree, value),
            decreases weight(views) + (if result is None { 1nat } else { 0nat }),
        {
            let ghost old_views = views;
            let ghost was = frames@;
            let ghost lower = views.drop_last();
            let ghost tv = views.last();
            proof {
                self.lemma_stack_pop(chart, was, views);
                assert(lower.push(tv) =~= views);
                lemma_weight_push(lower, tv);
                lemma_pow3_positive(tv.fuel);
            }
            let mut top = frames.pop().unwrap();
            let ghost popped = top;
            if top.fuel == 0 {
                proof {
                    lemma_settle_top_none(g@, chart, views, Some(Seq::empty()));
                }
                return Err(EvalError::Cyclic);
            }
            let span = &chart.spans[top.cursor];
            proof {
                assert(crate::chart::key_ok(g@, chart.spans@[top.cursor as int].key()));
                assert(crate::chart::key_ok(g@, chart.spans@[top.complete as int].key()));
                lemma_rule_bounds(g.symbols@, g.rules@, span.rule as int);
                assert(g@.rules[span.rule as int] == g.rules@[span.rule as int]@);
            }
            if span.sources.len() == 0 {
                let rule: usize = chart.spans[top.complete].rule;
                assert(g@.rules[rule as int] == g.rules@[rule as int]@);
                let name = &g.rules[rule].name;
                let ghost tree = TreeView::Node(name@, tv.done.reverse());
                proof {
                    lemma_frame_tree(g@, chart, tv);
                }
                let h = match self.handler(name) {
                    Some(h) => h,
                    None => {
                        proof {
                            assert(self.first_missing(tree) is Some);
                            self.lemma_stack_covered(chart, was, views);
                            assert forall|k: int| 0 <= k < tv.done.reverse().len() implies self.last_missing(
                                #[trigger] tv.done.reverse()[k],
                            ) is None by {
                                assert(tv.done.reverse()[k] == views[views.len() - 1].done[tv.done.len() - 1 - k]);
                            }
                            self.lemma_nothing_behind(tree, 0);
                            assert(self.last_missing(tree) == Some(name@));
                            if views.len() > 1 {
                                lemma_settle_pop(g@, chart, views, Some(Seq::empty()));
                                self.lemma_settle_missing(g@, chart, lower, seq![tree]);
                                assert forall|j: int, k: int|
                                    0 <= j < lower.len() && 0 <= k < lower[j].done.len() implies self.last_missing(
                                    #[trigger] lower[j].done[k],
                                ) is None by {
                                    assert(lower[j] == views[j]);
                                }
                                self.lemma_settle_last_missing(g@, chart, lower, tree);
                            }
                        }
                        return Err(EvalError::MissingAction(name.clone()));
                    },
                };
                let args = reversed(top.args);
                let ghost given = args;
                let value = (self.actions[h].1)(args);
                proof {
                    self.lemma_frame_folds(chart, popped, tv, name@, h as int, given, value);
                    self.lemma_folds_covered(tree, value);
                    self.lemma_folds_nothing_missing(tree, value);
                }
                if frames.len() == 0 {
                    result = Some(value);
                    proof {
                        views = lower;
                        assert(weight(lower) == 0);
                    }
                } else {
                    let ghost deeper = frames@.drop_last();
                    proof {
                        self.lemma_stack_pop(chart, frames@, lower);
                    }
                    let mut below = frames.pop().unwrap();
                    let ghost bf = below;
                    let ghost bv = lower.last();
                    below.args.push(value);
                    let ghost nf = below;
                    frames.push(below);
                    proof {
                        let nv = FrameView { done: bv.done.push(tree), ..bv };
                        views = lower.drop_last().push(nv);
                        self.lemma_frame_pass(chart, bf, bv, nf, nv, value, tree);
                        self.lemma_stack_push(chart, deeper, lower.drop_last(), nf, nv);
                        assert(frames@ =~= deeper.push(nf));
                        assert(lower.drop_last().push(bv) =~= lower);
                        lemma_weight_push(lower.drop_last(), bv);
                        lemma_weight_push(lower.drop_last(), nv);
                        lemma_settle_pop(g@, chart, old_views, Some(Seq::empty()));
                        lemma_passed(g@, chart, bv, nv, tree);
                        lemma_settle_same_top(g@, chart, lower.drop_last(), nv, Some(Seq::empty()), bv, Some(seq![tree]));
                    }
                }
            } else {
                let src = span.sources[0];
                proof {
                    assert(crate::chart::source_ok(
                        g@,
                        chart.keys(),
                        chart.input(),
                        span.key(),
                        chart.spans@[top.cursor as int].sources@[0],
                    ));
                }
                match src {
                    SpanSource::Scan { source, token } => {
                        let sym: usize = g.rules[span.rule].body[span.dot - 1];
                        assert(g@.rules[span.rule as int].body[span.dot - 1] == sym);
                        assert(g@.symbols[sym as int] == g.symbols@[sym as int]@);
                        assert(chart.input()[token as int] == chart.tokens@[token as int]@);
                        let s = g.symbols[sym].name.as_str();
                        let l = chart.tokens[token].lexeme.as_str();
                        let value = (self.leaf_builder)(s, l);
                        let ghost leaf = leaf_of(g@, chart, span.rule as int, span.dot as int, token as int);
                        assert(self.folds(leaf, value)) by {
                            assert(s@ == leaf->Leaf_0 && l@ == leaf->Leaf_1 && call_ensures(
                                self.leaf_builder,
                                (s, l),
                                value,
                            ));
                        }
                        top.args.push(value);
                        top.cursor = source;
                        top.fuel = top.fuel - 1;
                        let ghost nf = top;
                        frames.push(top);
                        proof {
                            let nv = FrameView {
                                complete: tv.complete,
                                cursor: source as int,
                                fuel: (tv.fuel - 1) as nat,
                                done: tv.done.push(leaf),
                            };
                            views = lower.push(nv);
                            self.lemma_frame_pass(chart, popped, tv, nf, nv, value, leaf);
                            self.lemma_stack_push(chart, was.drop_last(), lower, nf, nv);
                            assert(frames@ =~= was.drop_last().push(nf));
                            lemma_weight_push(lower, nv);
                            lemma_scanned(g@, chart, tv, nv, leaf);
                            lemma_settle_same_top(g@, chart, lower, nv, Some(Seq::empty()), tv, Some(Seq::empty()));
                        }
                    },
                    SpanSource::Completion { source, trigger } => {
                        top.cursor = source;
                        top.fuel = top.fuel - 1;
                        let fuel: usize = top.fuel;
                        let ghost nf = top;
                        frames.push(top);
                        let fresh_frame = Frame { complete: trigger, cursor: trigger, fuel, args: Vec::new() };
                        let ghost ff = fresh_frame;
                        frames.push(fresh_frame);
                        proof {
                            let nv = FrameView {
                                complete: tv.complete,
                                cursor: source as int,
                                fuel: (tv.fuel - 1) as nat,
                                done: tv.done,
                            };
                            let fresh = FrameView {
                                complete: trigger as int,
                                cursor: trigger as int,
                                fuel: (tv.fuel - 1) as nat,
                                done: Seq::empty(),
                            };
                            views = lower.push(nv).push(fresh);
                            assert(self.frame_ok(chart, nf, nv));
                            assert(self.frame_ok(chart, ff, fresh));
                            self.lemma_stack_push(chart, was.drop_last(), lower, nf, nv);
                            self.lemma_stack_push(chart, was.drop_last().push(nf), lower.push(nv), ff, fresh);
                            assert(frames@ =~= was.drop_last().push(nf).push(ff));
                            lemma_weight_push(lower, nv);
                            lemma_weight_push(lower.push(nv), fresh);
                            lemma_fresh_frame(g@, chart, fresh);
                            lemma_settle_pop(g@, chart, views, Some(Seq::empty()));
                            assert(views.drop_last() =~= lower.push(nv));
                            let carried = match first_tree(g@, chart, trigger as int, fresh.fuel) {
                                Some(t) => Some(seq![t]),
                                None => None,
                            };
                            lemma_completed(g@, chart, tv, nv, trigger as int);
                            lemma_settle_same_top(g@, chart, lower, nv, carried, tv, Some(Seq::empty()));
                        }
                    },
                }
            }
        }
        Ok(result.unwrap())
    }

    /// A tree that has a value has an action for every rule.
    pub proof fn lemma_folds_covered(&self, tree: TreeView, value: A)
        requires
            self.folds(tree, value),
        ensures
            self.first_missing(tree) is None,
        decreases tree,
    {
        match tree {
            TreeView::Leaf(_, _) => {},
            TreeView::Node(rule, children) => {
                let (h, args) = choose|h: int, args: Vec<A>|
                    {
                        &&& self.handles(h, rule)
                        &&& args@.len() == children.len()
                        &&& forall|k: int| 0 <= k < children.len() ==> self.folds(children[k], #[trigger] args@[k])
                        &&& call_ensures(self.actions@[h].1, (args,), value)
                    };
                assert forall|k: int| 0 <= k < children.len() implies self.first_missing(children[k]) is None by {
                    assert(self.folds(children[k], args@[k]));
                    self.lemma_folds_covered(children[k], args@[k]);
                }
                self.lemma_none_missing(tree, children.len());
                assert(self.actions@[h].0@ == rule);
            },
        }
    }

    /// Children that all have their actions have no first missing rule.
    pub proof fn lemma_none_missing(&self, tree: TreeView, n: nat)
        requires
            tree is Node,
            n <= tree->Node_1.len(),
            forall|k: int| 0 <= k < tree->Node_1.len() ==> self.first_missing(tree->Node_1[k]) is None,
        ensures
            self.missing_among(tree, n) is None,
        decreases n,
    {
        if n > 0 {
            self.lemma_none_missing(tree, (n - 1) as nat);
        }
    }
}

/// Every power of three is at least one.
pub proof fn lemma_pow3_positive(n: nat)
    ensures
        pow3(n) >= 1,
        n > 0 ==> pow3(n) == 3 * pow3((n - 1) as nat),
    decreases n,
{
    if n > 0 {
        lemma_pow3_positive((n - 1) as nat);
    }
}

/// A work stack into which no tree is carried stands for no tree.
pub proof fn lemma_settle_none(g: GrammarView, chart: &Chart, frames: Seq<FrameView>)
    ensures
        settle(g, chart, frames, None) is None,
    decreases frames.len(),
{
    if frames.len() > 1 {
        lemma_settle_none(g, chart, frames.drop_last());
    }
}

/// A work stack whose top frame has no fuel left stands for no tree.
pub proof fn lemma_settle_top_none(g: GrammarView, chart: &Chart, frames: Seq<FrameView>, carried: Option<Seq<TreeView>>)
    requires
        frames.len() > 0,
        frames.last().fuel == 0,
    ensures
        settle(g, chart, frames, carried) is None,
{
    if frames.len() > 1 {
        lemma_settle_none(g, chart, frames.drop_last());
    }
}


/// The weight of a stack is the weight below its top frame and the top frame's own.
pub proof fn lemma_weight_push(frames: Seq<FrameView>, top: FrameView)
    ensures
        weight(frames.push(top)) == weight(frames) + pow3(top.fuel),
{
    assert(frames.push(top).drop_last() =~= frames);
}

/// What a stack of more than one frame stands for is what the stack below
/// stands for with the top frame's tree carried into it.
pub proof fn lemma_settle_pop(g: GrammarView, chart: &Chart, frames: Seq<FrameView>, carried: Option<Seq<TreeView>>)
    requires
        frames.len() > 1,
    ensures
        settle(g, chart, frames, carried) == settle(
            g,
            chart,
            frames.drop_last(),
            match node_of(g, chart, frames.last().complete, children_at(g, chart, frames.last(), carried)) {
                Some(t) => Some(seq![t]),
                None => None,
            },
        ),
{
}

/// Two top frames for the same span with the same children stand for the same tree.
pub proof fn lemma_settle_same_top(
    g: GrammarView,
    chart: &Chart,
    lower: Seq<FrameView>,
    a: FrameView,
    into_a: Option<Seq<TreeView>>,
    b: FrameView,
    into_b: Option<Seq<TreeView>>,
)
    requires
        a.complete == b.complete,
        children_at(g, chart, a, into_a) == children_at(g, chart, b, into_b),
    ensures
        settle(g, chart, lower.push(a), into_a) == settle(g, chart, lower.push(b), into_b),
{
    assert(lower.push(a).drop_last() =~= lower);
    assert(lower.push(b).drop_last() =~= lower);
}

/// A frame that has passed nothing stands for the tree of its span.
pub proof fn lemma_fresh_frame(g: GrammarView, chart: &Chart, top: FrameView)
    requires
        top.done.len() == 0,
        top.complete == top.cursor,
    ensures
        node_of(g, chart, top.complete, children_at(g, chart, top, Some(Seq::empty()))) == first_tree(
            g,
            chart,
            top.cursor,
            top.fuel,
        ),
{
    assert(top.done.reverse() =~= Seq::empty());
    match first_children(g, chart, top.cursor, top.fuel) {
        Some(b) => {
            assert(b + Seq::empty() + top.done.reverse() =~= b);
        },
        None => {},
    }
}

/// At the start of its rule a frame's children are those it has passed.
pub proof fn lemma_frame_tree(g: GrammarView, chart: &Chart, top: FrameView)
    requires
        top.fuel > 0,
        chart.sources(top.cursor).len() == 0,
    ensures
        children_at(g, chart, top, Some(Seq::empty())) == Some(top.done.reverse()),
{
    assert(Seq::<TreeView>::empty() + Seq::<TreeView>::empty() + top.done.reverse() =~= top.done.reverse());
}

/// Passing the carried tree to a frame leaves its children as they were.
pub proof fn lemma_passed(g: GrammarView, chart: &Chart, before: FrameView, after: FrameView, tree: TreeView)
    requires
        after.cursor == before.cursor,
        after.fuel == before.fuel,
        after.done == before.done.push(tree),
    ensures
        children_at(g, chart, after, Some(Seq::empty())) == children_at(g, chart, before, Some(seq![tree])),
{
    assert(after.done.reverse() =~= seq![tree] + before.done.reverse());
    match first_children(g, chart, before.cursor, before.fuel) {
        Some(b) => {
            assert(b + Seq::empty() + after.done.reverse() =~= b + seq![tree] + before.done.reverse());
        },
        None => {},
    }
}

/// Stepping back over a scan and passing its leaf leaves the children as they were.
pub proof fn lemma_scanned(g: GrammarView, chart: &Chart, before: FrameView, after: FrameView, leaf: TreeView)
    requires
        before.fuel > 0,
        chart.sources(before.cursor).len() > 0,
        chart.sources(before.cursor)[0] matches SpanSource::Scan { source, token } && after.cursor == source && leaf
            == leaf_of(
            g,
            chart,
            chart.spans@[before.cursor].rule as int,
            chart.spans@[before.cursor].dot as int,
            token as int,
        ),
        after.fuel == before.fuel - 1,
        after.done == before.done.push(leaf),
    ensures
        children_at(g, chart, after, Some(Seq::empty())) == children_at(g, chart, before, Some(Seq::empty())),
{
    assert(after.done.reverse() =~= seq![leaf] + before.done.reverse());
    match first_children(g, chart, after.cursor, after.fuel) {
        Some(b) => {
            assert(b + Seq::empty() + after.done.reverse() =~= b.push(leaf) + Seq::empty() + before.done.reverse());
        },
        None => {},
    }
}

/// Stepping back over a completion, with the trigger's tree carried in,
/// leaves the children as they were.
pub proof fn lemma_completed(g: GrammarView, chart: &Chart, before: FrameView, after: FrameView, trigger: int)
    requires
        before.fuel > 0,
        chart.sources(before.cursor).len() > 0,
        chart.sources(before.cursor)[0] matches SpanSource::Completion { source, trigger: t } && after.cursor
            == source && t == trigger,
        after.fuel == before.fuel - 1,
        after.done == before.done,
    ensures
        children_at(
            g,
            chart,
            after,
            match first_tree(g, chart, trigger, after.fuel) {
                Some(t) => Some(seq![t]),
                None => None,
            },
        ) == children_at(g, chart, before, Some(Seq::empty())),
{
    match (first_children(g, chart, after.cursor, after.fuel), first_tree(g, chart, trigger, after.fuel)) {
        (Some(b), Some(t)) => {
            assert(b + seq![t] + before.done.reverse() =~= b.push(t) + Seq::empty() + before.done.reverse());
        },
        _ => {},
    }
}


impl<A, L: Fn(&str, &str) -> A, F: Fn(Vec<A>) -> A> EarleyForest<A, L, F> {
    /// Whether the leaf builder and every action give one value for one input.
    pub open spec fn deterministic(&self) -> bool {
        &&& forall|s: &str, l: &str, t: &str, m: &str, a: A, b: A|
            s@ == t@ && l@ == m@ && #[trigger] call_ensures(self.leaf_builder, (s, l), a) && #[trigger] call_ensures(
                self.leaf_builder,
                (t, m),
                b,
            ) ==> a == b
        &&& forall|h: int, x: Vec<A>, y: Vec<A>, a: A, b: A|
            0 <= h < self.actions@.len() && x@ == y@ && #[trigger] call_ensures(self.actions@[h].1, (x,), a)
                && #[trigger] call_ensures(self.actions@[h].1, (y,), b) ==> a == b
    }

    /// Determinism: when the leaf builder and the actions give one value
    /// for one input, a tree has one value. `eval` and `eval_recursive`
    /// both return a value of the first tree of the forest, so they return
    /// the same value, and so do two evaluations of the same forest.
    pub proof fn lemma_one_value(&self, tree: TreeView, a: A, b: A)
        requires
            self.deterministic(),
            self.folds(tree, a),
            self.folds(tree, b),
        ensures
            a == b,
        decreases tree,
    {
        match tree {
            TreeView::Leaf(symbol, lexeme) => {
                let (s, l) = choose|s: &str, l: &str|
                    s@ == symbol && l@ == lexeme && call_ensures(self.leaf_builder, (s, l), a);
                let (t, m) = choose|t: &str, m: &str|
                    t@ == symbol && m@ == lexeme && call_ensures(self.leaf_builder, (t, m), b);
                assert(call_ensures(self.leaf_builder, (s, l), a) && call_ensures(self.leaf_builder, (t, m), b));
            },
            TreeView::Node(rule, children) => {
                let (h, x) = choose|h: int, x: Vec<A>|
                    {
                        &&& self.handles(h, rule)
                        &&& x@.len() == children.len()
                        &&& forall|k: int| 0 <= k < children.len() ==> self.folds(children[k], #[trigger] x@[k])
                        &&& call_ensures(self.actions@[h].1, (x,), a)
                    };
                let (i, y) = choose|i: int, y: Vec<A>|
                    {
                        &&& self.handles(i, rule)
                        &&& y@.len() == children.len()
                        &&& forall|k: int| 0 <= k < children.len() ==> self.folds(children[k], #[trigger] y@[k])
                        &&& call_ensures(self.actions@[i].1, (y,), b)
                    };
                assert(h == i) by {
                    if h < i {
                        assert(self.actions@[i].0@ != rule);
                    } else if i < h {
                        assert(self.actions@[h].0@ != rule);
                    }
                }
                assert forall|k: int| 0 <= k < children.len() implies x@[k] == y@[k] by {
                    assert(self.folds(children[k], x@[k]));
                    assert(self.folds(children[k], y@[k]));
                    self.lemma_one_value(children[k], x@[k], y@[k]);
                }
                assert(x@ =~= y@);
                assert(call_ensures(self.actions@[h].1, (x,), a) && call_ensures(self.actions@[h].1, (y,), b));
            },
        }
    }
}


impl<A, L: Fn(&str, &str) -> A, F: Fn(Vec<A>) -> A> EarleyForest<A, L, F> {
    /// The first rule without an action among the children of `tree` from
    /// place `n` on, each child read children first and from right to left.
    pub open spec fn missing_behind(&self, tree: TreeView, n: nat) -> Option<Seq<char>>
        decreases tree, tree->Node_1.len() - n,
    {
        match tree {
            TreeView::Leaf(_, _) => None,
            TreeView::Node(_, children) => if n >= children.len() {
                None
            } else {
                match self.missing_behind(tree, n + 1) {
                    Some(rule) => Some(rule),
                    None => self.last_missing(children[n as int]),
                }
            },
        }
    }

    /// The first rule of `tree` without an action when children are read
    /// before their parent and from right to left, as the work stack of
    /// `eval` reads them; `None` if every rule has an action.
    pub open spec fn last_missing(&self, tree: TreeView) -> Option<Seq<char>>
        decreases tree, tree->Node_1.len() + 1,
    {
        match tree {
            TreeView::Leaf(_, _) => None,
            TreeView::Node(rule, children) => match self.missing_behind(tree, 0) {
                Some(rule) => Some(rule),
                None => if self.registered(rule) {
                    None
                } else {
                    Some(rule)
                },
            },
        }
    }

    /// What is missing behind a place is missing behind every place before it.
    pub proof fn lemma_missing_behind_stays(&self, tree: TreeView, n: nat, m: nat)
        requires
            tree is Node,
            n <= m,
            self.missing_behind(tree, m) is Some,
        ensures
            self.missing_behind(tree, n) == self.missing_behind(tree, m),
        decreases m - n,
    {
        if n < m {
            self.lemma_missing_behind_stays(tree, n + 1, m);
        }
    }

    /// Nothing is missing behind a place when every child from there on has its actions.
    pub proof fn lemma_nothing_behind(&self, tree: TreeView, n: nat)
        requires
            tree is Node,
            forall|k: int| n <= k < tree->Node_1.len() ==> self.last_missing(#[trigger] tree->Node_1[k]) is None,
        ensures
            self.missing_behind(tree, n) is None,
        decreases tree->Node_1.len() - n,
    {
        if n < tree->Node_1.len() {
            self.lemma_nothing_behind(tree, n + 1);
        }
    }

    /// A tree that has a value has an action for every rule, in whatever
    /// order the rules are read.
    pub proof fn lemma_folds_nothing_missing(&self, tree: TreeView, value: A)
        requires
            self.folds(tree, value),
        ensures
            self.last_missing(tree) is None,
        decreases tree,
    {
        match tree {
            TreeView::Leaf(_, _) => {},
            TreeView::Node(rule, children) => {
                let (h, args) = choose|h: int, args: Vec<A>|
                    {
                        &&& self.handles(h, rule)
                        &&& args@.len() == children.len()
                        &&& forall|k: int| 0 <= k < children.len() ==> self.folds(children[k], #[trigger] args@[k])
                        &&& call_ensures(self.actions@[h].1, (args,), value)
                    };
                assert forall|k: int| 0 <= k < children.len() implies self.last_missing(#[trigger] children[k]) is None by {
                    assert(self.folds(children[k], args@[k]));
                    self.lemma_folds_nothing_missing(children[k], args@[k]);
                }
                self.lemma_nothing_behind(tree, 0);
                assert(self.actions@[h].0@ == rule);
            },
        }
    }

    /// In a node whose children behind place `at` have their actions, the
    /// rule that the child at `at` misses is the rule that the node misses.
    pub proof fn lemma_missing_at(&self, rule: Seq<char>, children: Seq<TreeView>, at: int)
        requires
            0 <= at < children.len(),
            self.last_missing(children[at]) is Some,
            forall|k: int| at < k < children.len() ==> self.last_missing(#[trigger] children[k]) is None,
        ensures
            self.last_missing(TreeView::Node(rule, children)) == self.last_missing(children[at]),
    {
        let tree = TreeView::Node(rule, children);
        self.lemma_nothing_behind(tree, (at + 1) as nat);
        assert(self.missing_behind(tree, at as nat) == self.last_missing(children[at]));
        self.lemma_missing_behind_stays(tree, 0, at as nat);
    }

    /// A work stack whose values all have trees with their actions, into
    /// which a tree that misses a rule is carried, stands for a tree that
    /// misses that rule first, read from right to left.
    pub proof fn lemma_settle_last_missing(
        &self,
        g: GrammarView,
        chart: &Chart,
        frames: Seq<FrameView>,
        carried: TreeView,
    )
        requires
            self.last_missing(carried) is Some,
            forall|j: int, k: int|
                0 <= j < frames.len() && 0 <= k < frames[j].done.len() ==> self.last_missing(
                    #[trigger] frames[j].done[k],
                ) is None,
        ensures
            settle(g, chart, frames, Some(seq![carried])) matches Some(t) ==> self.last_missing(t)
                == self.last_missing(carried),
        decreases frames.len(),
    {
        if frames.len() > 0 {
            let top = frames.last();
            match children_at(g, chart, top, Some(seq![carried])) {
                Some(kids) => {
                    let before = first_children(g, chart, top.cursor, top.fuel)->Some_0;
                    let at = before.len() as int;
                    assert(kids[at] == carried);
                    assert forall|k: int| at < k < kids.len() implies self.last_missing(#[trigger] kids[k]) is None by {
                        assert(kids[k] == top.done.reverse()[k - at - 1]);
                        assert(kids[k] == top.done[top.done.len() - 1 - (k - at - 1)]);
                    }
                    let name = g.rules[chart.spans@[top.complete].rule as int].name;
                    self.lemma_missing_at(name, kids, at);
                    if frames.len() > 1 {
                        assert forall|j: int, k: int|
                            0 <= j < frames.drop_last().len() && 0 <= k < frames.drop_last()[j].done.len() implies self.last_missing(
                            #[trigger] frames.drop_last()[j].done[k],
                        ) is None by {
                            assert(frames.drop_last()[j] == frames[j]);
                        }
                        self.lemma_settle_last_missing(g, chart, frames.drop_last(), TreeView::Node(name, kids));
                    }
                },
                None => {
                    if frames.len() > 1 {
                        assert(settle(g, chart, frames, Some(seq![carried])) == settle(
                            g,
                            chart,
                            frames.drop_last(),
                            None,
                        ));
                        lemma_settle_none(g, chart, frames.drop_last());
                    }
                },
            }
        }
    }

    /// The trees of the values on a work stack in order have their actions.
    pub proof fn lemma_stack_covered(&self, chart: &Chart, frames: Seq<Frame<A>>, views: Seq<FrameView>)
        requires
            self.stack_ok(chart, frames, views),
        ensures
            forall|j: int, k: int|
                0 <= j < views.len() && 0 <= k < views[j].done.len() ==> self.last_missing(
                    #[trigger] views[j].done[k],
                ) is None,
    {
        assert forall|j: int, k: int| 0 <= j < views.len() && 0 <= k < views[j].done.len() implies self.last_missing(
            #[trigger] views[j].done[k],
        ) is None by {
            assert(self.frame_ok(chart, frames[j], views[j]));
            assert(self.folds(views[j].done[k], frames[j].args@[k]));
            self.lemma_folds_nothing_missing(views[j].done[k], frames[j].args@[k]);
        }
    }
}

} // verus!
