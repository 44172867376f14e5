//! What can be told of a forest without running it.
use crate::ir::{Forest, MissingDirection, Node, PostTransform, SplitKind};
#[allow(unused_imports)]
use crate::ir::{ForestView, NodeView, SplitView, TreeView};
use crate::number::{self, F64};
use crate::text;
use vstd::prelude::*;

verus! {

/// The bits of the double that is a thousand.
pub const THOUSAND_BITS: u64 = 0x408f_4000_0000_0000;

/// How many splits send missing values each way.
#[derive(Debug, Clone, Copy, PartialEq, Eq, Structural)]
pub struct MissingCounts {
    pub left: usize,
    pub right: usize,
    pub na_vs_rest: usize,
    pub unspecified: usize,
}

/// What one tree is made of.
#[derive(Debug, Clone, Copy, PartialEq, Eq, Structural)]
pub struct TreeProfile {
    pub depth: usize,
    pub nodes: usize,
    pub leaves: usize,
    pub numeric: usize,
    pub categorical: usize,
    pub missing: MissingCounts,
}

/// What a forest is made of.
#[derive(Debug, Clone, Copy, PartialEq, Eq, Structural)]
pub struct Statistics {
    pub min_depth: usize,
    pub max_depth: usize,
    pub depth_sum: usize,
    pub oblivious: usize,
    pub nodes: usize,
    pub leaves: usize,
    pub numeric: usize,
    pub categorical: usize,
    pub missing: MissingCounts,
}

/// How often a feature is split on.
#[derive(Debug, Clone, Copy, PartialEq, Eq, Structural)]
pub struct FeatureUse {
    pub feature: usize,
    pub splits: usize,
    /// Whether one of the splits is on a set of categories.
    pub categorical: bool,
}

impl NodeView {
    /// How many splits of the tree are numeric.
    pub open spec fn numeric_splits(self) -> nat
        decreases self,
    {
        match self {
            NodeView::Leaf { .. } => 0,
            NodeView::Split { split, left, right, .. } => (if split is Numeric {
                1nat
            } else {
                0nat
            }) + left.numeric_splits() + right.numeric_splits(),
        }
    }

    /// How many splits of the tree are on categories.
    pub open spec fn other_splits(self) -> nat
        decreases self,
    {
        match self {
            NodeView::Leaf { .. } => 0,
            NodeView::Split { split, left, right, .. } => (if split is Numeric {
                0nat
            } else {
                1nat
            }) + left.other_splits() + right.other_splits(),
        }
    }

    /// How many splits of the tree send missing values one way.
    pub open spec fn sending(self, way: MissingDirection) -> nat
        decreases self,
    {
        match self {
            NodeView::Leaf { .. } => 0,
            NodeView::Split { left, right, missing, .. } => (if missing == way {
                1nat
            } else {
                0nat
            }) + left.sending(way) + right.sending(way),
        }
    }

    /// How many splits of the tree are on a feature.
    pub open spec fn uses(self, feature: usize) -> nat
        decreases self,
    {
        match self {
            NodeView::Leaf { .. } => 0,
            NodeView::Split { feature_idx, left, right, .. } => (if feature_idx == feature {
                1nat
            } else {
                0nat
            }) + left.uses(feature) + right.uses(feature),
        }
    }

    /// Whether the tree splits on a set of a feature's categories.
    pub open spec fn sorts(self, feature: usize) -> bool
        decreases self,
    {
        match self {
            NodeView::Leaf { .. } => false,
            NodeView::Split { feature_idx, split, left, right, .. } => (feature_idx == feature
                && split is Categorical) || left.sorts(feature) || right.sorts(feature),
        }
    }
}

impl MissingCounts {
    /// Whether these are the counts of a tree.
    pub open spec fn of(self, node: NodeView) -> bool {
        &&& self.left == number::counted(node.sending(MissingDirection::Left) as int)
        &&& self.right == number::counted(node.sending(MissingDirection::Right) as int)
        &&& self.na_vs_rest == number::counted(node.sending(MissingDirection::NaVsRest) as int)
        &&& self.unspecified == number::counted(
            node.sending(MissingDirection::Unspecified) as int,
        )
    }
}

impl TreeProfile {
    /// Whether this is the profile of a tree.
    pub open spec fn of(self, node: NodeView) -> bool {
        &&& self.depth == number::counted(node.depth() as int)
        &&& self.nodes == number::counted(node.size() as int)
        &&& self.leaves == number::counted(node.tips() as int)
        &&& self.numeric == number::counted(node.numeric_splits() as int)
        &&& self.categorical == number::counted(node.other_splits() as int)
        &&& self.missing.of(node)
    }
}

/// The sum of a measure over the first `n` trees.
pub open spec fn total(trees: Seq<TreeView>, measure: spec_fn(NodeView) -> nat, n: int) -> nat
    decreases n,
{
    if n <= 0 {
        0
    } else {
        total(trees, measure, n - 1) + measure(trees[n - 1].root)
    }
}

/// The smallest depth of the first `n` trees; zero if there are none.
pub open spec fn least_depth(trees: Seq<TreeView>, n: int) -> nat
    decreases n,
{
    if n <= 0 {
        0
    } else if n == 1 || trees[n - 1].root.depth() < least_depth(trees, n - 1) {
        trees[n - 1].root.depth()
    } else {
        least_depth(trees, n - 1)
    }
}

/// The greatest depth of the first `n` trees; zero if there are none.
pub open spec fn greatest_depth(trees: Seq<TreeView>, n: int) -> nat
    decreases n,
{
    if n <= 0 {
        0
    } else if trees[n - 1].root.depth() > greatest_depth(trees, n - 1) {
        trees[n - 1].root.depth()
    } else {
        greatest_depth(trees, n - 1)
    }
}

/// One for an oblivious tree.
pub open spec fn oblivious_one(node: NodeView) -> nat {
    if node.oblivious() {
        1
    } else {
        0
    }
}

/// One for a tree that is a leaf.
pub open spec fn leaf_one(node: NodeView) -> nat {
    if node is Leaf {
        1
    } else {
        0
    }
}

impl Statistics {
    /// Whether these are the statistics of the first `n` trees.
    pub open spec fn of(self, trees: Seq<TreeView>, n: int) -> bool {
        &&& self.min_depth == number::counted(least_depth(trees, n) as int)
        &&& self.max_depth == number::counted(greatest_depth(trees, n) as int)
        &&& self.depth_sum == number::counted(total(trees, |t: NodeView| t.depth(), n) as int)
        &&& self.oblivious == number::counted(
            total(trees, |t: NodeView| oblivious_one(t), n) as int,
        )
        &&& self.nodes == number::counted(total(trees, |t: NodeView| t.size(), n) as int)
        &&& self.leaves == number::counted(total(trees, |t: NodeView| t.tips(), n) as int)
        &&& self.numeric == number::counted(
            total(trees, |t: NodeView| t.numeric_splits(), n) as int,
        )
        &&& self.categorical == number::counted(
            total(trees, |t: NodeView| t.other_splits(), n) as int,
        )
        &&& self.missing.left == number::counted(
            total(trees, |t: NodeView| t.sending(MissingDirection::Left), n) as int,
        )
        &&& self.missing.right == number::counted(
            total(trees, |t: NodeView| t.sending(MissingDirection::Right), n) as int,
        )
        &&& self.missing.na_vs_rest == number::counted(
            total(trees, |t: NodeView| t.sending(MissingDirection::NaVsRest), n) as int,
        )
        &&& self.missing.unspecified == number::counted(
            total(trees, |t: NodeView| t.sending(MissingDirection::Unspecified), n) as int,
        )
    }
}

/// The count of three disjoint lots, from their counts.
fn sum(
    a: usize,
    b: usize,
    c: usize,
    Ghost(x): Ghost<nat>,
    Ghost(y): Ghost<nat>,
    Ghost(z): Ghost<nat>,
) -> (r: usize)
    requires
        a == number::counted(x as int),
        b == number::counted(y as int),
        c == number::counted(z as int),
    ensures
        r == number::counted((x + y + z) as int),
{
    a.saturating_add(b).saturating_add(c)
}

/// One if a split sends missing values this way.
fn one_if(here: MissingDirection, way: MissingDirection) -> (r: usize)
    ensures
        r == (if here == way {
            1int
        } else {
            0int
        }),
{
    if here == way {
        1
    } else {
        0
    }
}

/// The counts of a split node, from those of its children.
fn missing_counts(
    a: MissingCounts,
    b: MissingCounts,
    here: MissingDirection,
    Ghost(node): Ghost<NodeView>,
) -> (r: MissingCounts)
    requires
        node is Split,
        node->missing == here,
        a.of(*node->left),
        b.of(*node->right),
    ensures
        r.of(node),
{
    let ghost left = *node->left;
    let ghost right = *node->right;
    let to_left: usize = one_if(here, MissingDirection::Left);
    let to_right: usize = one_if(here, MissingDirection::Right);
    let to_rest: usize = one_if(here, MissingDirection::NaVsRest);
    let nowhere: usize = one_if(here, MissingDirection::Unspecified);
    MissingCounts {
        left: sum(
            a.left,
            b.left,
            to_left,
            Ghost(left.sending(MissingDirection::Left)),
            Ghost(right.sending(MissingDirection::Left)),
            Ghost(to_left as nat),
        ),
        right: sum(
            a.right,
            b.right,
            to_right,
            Ghost(left.sending(MissingDirection::Right)),
            Ghost(right.sending(MissingDirection::Right)),
            Ghost(to_right as nat),
        ),
        na_vs_rest: sum(
            a.na_vs_rest,
            b.na_vs_rest,
            to_rest,
            Ghost(left.sending(MissingDirection::NaVsRest)),
            Ghost(right.sending(MissingDirection::NaVsRest)),
            Ghost(to_rest as nat),
        ),
        unspecified: sum(
            a.unspecified,
            b.unspecified,
            nowhere,
            Ghost(left.sending(MissingDirection::Unspecified)),
            Ghost(right.sending(MissingDirection::Unspecified)),
            Ghost(nowhere as nat),
        ),
    }
}

/// What a tree is made of.
pub fn analyze_tree(node: &Node) -> (r: TreeProfile)
    ensures
        r.of(node@),
    decreases node,
{
    match node {
        Node::Leaf { .. } => TreeProfile {
            depth: 0,
            nodes: 1,
            leaves: 1,
            numeric: 0,
            categorical: 0,
            missing: MissingCounts { left: 0, right: 0, na_vs_rest: 0, unspecified: 0 },
        },
        Node::Split { split, left_child, right_child, missing_direction, .. } => {
            let a = analyze_tree(left_child);
            let b = analyze_tree(right_child);
            let below: usize = if a.depth >= b.depth {
                a.depth
            } else {
                b.depth
            };
            let (numeric, categorical): (usize, usize) = match split {
                SplitKind::Numeric { .. } => (1, 0),
                _ => (0, 1),
            };
            TreeProfile {
                depth: below.saturating_add(1),
                nodes: sum(
                    a.nodes,
                    b.nodes,
                    1,
                    Ghost(left_child@.size()),
                    Ghost(right_child@.size()),
                    Ghost(1),
                ),
                leaves: sum(
                    a.leaves,
                    b.leaves,
                    0,
                    Ghost(left_child@.tips()),
                    Ghost(right_child@.tips()),
                    Ghost(0),
                ),
                numeric: sum(
                    a.numeric,
                    b.numeric,
                    numeric,
                    Ghost(left_child@.numeric_splits()),
                    Ghost(right_child@.numeric_splits()),
                    Ghost(numeric as nat),
                ),
                categorical: sum(
                    a.categorical,
                    b.categorical,
                    categorical,
                    Ghost(left_child@.other_splits()),
                    Ghost(right_child@.other_splits()),
                    Ghost(categorical as nat),
                ),
                missing: missing_counts(a.missing, b.missing, *missing_direction, Ghost(node@)),
            }
        },
    }
}

/// What a forest is made of.
pub fn statistics(forest: &Forest) -> (r: Statistics)
    ensures
        r.of(forest@.trees, forest.trees.len() as int),
{
    let mut all = Statistics {
        min_depth: 0,
        max_depth: 0,
        depth_sum: 0,
        oblivious: 0,
        nodes: 0,
        leaves: 0,
        numeric: 0,
        categorical: 0,
        missing: MissingCounts { left: 0, right: 0, na_vs_rest: 0, unspecified: 0 },
    };
    let mut i: usize = 0;
    while i < forest.trees.len()
        invariant
            i <= forest.trees.len(),
            all.of(forest@.trees, i as int),
        decreases forest.trees.len() - i,
    {
        assert(forest@.trees[i as int].root == forest.trees[i as int].root@);
        let root = &forest.trees[i].root;
        let one = analyze_tree(root);
        let oblivious: usize = if root.get_oblivious_splits().is_some() {
            1
        } else {
            0
        };
        all =
        Statistics {
            min_depth: if i == 0 || one.depth < all.min_depth {
                one.depth
            } else {
                all.min_depth
            },
            max_depth: if one.depth > all.max_depth {
                one.depth
            } else {
                all.max_depth
            },
            depth_sum: all.depth_sum.saturating_add(one.depth),
            oblivious: all.oblivious.saturating_add(oblivious),
            nodes: all.nodes.saturating_add(one.nodes),
            leaves: all.leaves.saturating_add(one.leaves),
            numeric: all.numeric.saturating_add(one.numeric),
            categorical: all.categorical.saturating_add(one.categorical),
            missing: MissingCounts {
                left: all.missing.left.saturating_add(one.missing.left),
                right: all.missing.right.saturating_add(one.missing.right),
                na_vs_rest: all.missing.na_vs_rest.saturating_add(one.missing.na_vs_rest),
                unspecified: all.missing.unspecified.saturating_add(one.missing.unspecified),
            },
        };
        i = i + 1;
    }
    all
}

/// How many trees of a forest are single leaves.
pub open spec fn single_leaves(forest: ForestView) -> nat {
    total(forest.trees, |t: NodeView| leaf_one(t), forest.trees.len() as int)
}

/// How many trees of a forest are single leaves.
pub fn single_leaf_trees(forest: &Forest) -> (r: usize)
    ensures
        r == single_leaves(forest@),
{
    let mut count: usize = 0;
    let mut i: usize = 0;
    while i < forest.trees.len()
        invariant
            i <= forest.trees.len(),
            count <= i,
            count == total(forest@.trees, |t: NodeView| leaf_one(t), i as int),
        decreases forest.trees.len() - i,
    {
        assert(forest@.trees[i as int].root == forest.trees[i as int].root@);
        match &forest.trees[i].root {
            Node::Leaf { .. } => {
                count = count + 1;
            },
            _ => {},
        }
        i = i + 1;
    }
    count
}

/// Whether a base score is unusual: its absolute value exceeds a thousand.
pub open spec fn unusual_score(score: F64) -> bool {
    !score.nan() && score.unsigned() > THOUSAND_BITS
}

/// Whether a base score is unusual: its absolute value exceeds a thousand.
pub fn is_unusual_score(score: F64) -> (r: bool)
    ensures
        r == unusual_score(score),
{
    !score.is_nan() && score.bits % 0x8000_0000_0000_0000 > THOUSAND_BITS
}

/// The task that a model is inferred to be for.
pub open spec fn task(transform: PostTransform) -> Seq<char> {
    match transform {
        PostTransform::Logit => "Binary Classification"@,
        PostTransform::Identity => "Regression"@,
        PostTransform::Log => "Regression (log-transformed)"@,
        PostTransform::Softmax { n_classes } => "Multi-class Classification ("@ + text::decimal(
            n_classes as nat,
        ) + " classes)"@,
    }
}

/// The task that a model is inferred to be for.
pub fn inferred_task(post_transform: PostTransform) -> (r: String)
    ensures
        r@ == task(post_transform),
{
    match post_transform {
        PostTransform::Logit => "Binary Classification".to_owned(),
        PostTransform::Identity => "Regression".to_owned(),
        PostTransform::Log => "Regression (log-transformed)".to_owned(),
        PostTransform::Softmax { n_classes } => {
            let mut out = "Multi-class Classification (".to_owned();
            text::push_decimal(&mut out, n_classes as u64);
            out.append(" classes)");
            out
        },
    }
}

/// Every tree has one leaf more than it has splits, and every split sends missing values
/// one way.
pub proof fn counts_add_up(node: NodeView)
    ensures
        node.size() == 2 * node.tips() - 1,
        node.numeric_splits() + node.other_splits() == node.tips() - 1,
        node.sending(MissingDirection::Left) + node.sending(MissingDirection::Right)
            + node.sending(MissingDirection::NaVsRest) + node.sending(
            MissingDirection::Unspecified,
        ) == node.tips() - 1,
    decreases node,
{
    if let NodeView::Split { left, right, .. } = node {
        counts_add_up(*left);
        counts_add_up(*right);
    }
}

impl NodeView {
    /// The splits of the tree, a node before its children, left before right: the feature,
    /// and whether the split is on a set of its categories.
    pub open spec fn split_list(self) -> Seq<(usize, bool)>
        decreases self,
    {
        match self {
            NodeView::Leaf { .. } => seq![],
            NodeView::Split { feature_idx, split, left, right, .. } => seq![
                (feature_idx, split is Categorical),
            ] + left.split_list() + right.split_list(),
        }
    }
}

/// The splits of the first `n` trees.
pub open spec fn splits_of(trees: Seq<TreeView>, n: int) -> Seq<(usize, bool)>
    decreases n,
{
    if n <= 0 {
        seq![]
    } else {
        splits_of(trees, n - 1) + trees[n - 1].root.split_list()
    }
}

/// How many splits of a list are on a feature.
pub open spec fn occurrences(list: Seq<(usize, bool)>, feature: usize) -> nat
    decreases list.len(),
{
    if list.len() == 0 {
        0
    } else {
        occurrences(list.drop_last(), feature) + (if list.last().0 == feature {
            1nat
        } else {
            0nat
        })
    }
}

/// Whether a split of a list is on a set of a feature's categories.
pub open spec fn sorted_by(list: Seq<(usize, bool)>, feature: usize) -> bool {
    list.contains((feature, true))
}

/// Whether features are listed in order, each once.
pub open spec fn ascending(usage: Seq<FeatureUse>) -> bool {
    forall|i: int, j: int| 0 <= i < j < usage.len() ==> usage[i].feature < usage[j].feature
}

/// Whether a list tells exactly how often each feature is split on.
pub open spec fn tallies(usage: Seq<FeatureUse>, list: Seq<(usize, bool)>) -> bool {
    &&& ascending(usage)
    &&& forall|i: int|
        0 <= i < usage.len() ==> {
            let u = #[trigger] usage[i];
            &&& u.splits == occurrences(list, u.feature)
            &&& u.splits > 0
            &&& u.categorical == sorted_by(list, u.feature)
        }
    &&& forall|f: usize| #[trigger]
        occurrences(list, f) > 0 ==> exists|i: int| 0 <= i < usage.len() && usage[i].feature == f
}

fn collect_splits(node: &Node, out: &mut Vec<(usize, bool)>)
    ensures
        final(out)@ == old(out)@ + node@.split_list(),
    decreases node,
{
    match node {
        Node::Leaf { .. } => {
            assert(out@ =~= old(out)@ + Seq::<(usize, bool)>::empty());
        },
        Node::Split { feature_idx, split, left_child, right_child, .. } => {
            let categorical: bool = match split {
                SplitKind::Categorical { .. } => true,
                _ => false,
            };
            out.push((*feature_idx, categorical));
            collect_splits(left_child, out);
            collect_splits(right_child, out);
            assert(out@ =~= old(out)@ + (seq![(*feature_idx, categorical)]
                + left_child@.split_list() + right_child@.split_list()));
        },
    }
}

/// A feature occurs at most as often as there are splits.
proof fn lemma_occurrences(list: Seq<(usize, bool)>, feature: usize)
    ensures
        occurrences(list, feature) <= list.len(),
        sorted_by(list, feature) ==> occurrences(list, feature) > 0,
    decreases list.len(),
{
    if list.len() > 0 {
        let rest = list.drop_last();
        lemma_occurrences(rest, feature);
        if sorted_by(list, feature) && list.last().0 != feature {
            let i = choose|i: int| 0 <= i < list.len() && list[i] == (feature, true);
            assert(rest[i] == (feature, true));
        }
    }
}

proof fn lemma_one_more(list: Seq<(usize, bool)>, split: (usize, bool))
    ensures
        forall|f: usize| #[trigger]
            occurrences(list.push(split), f) == occurrences(list, f) + (if f == split.0 {
                1nat
            } else {
                0nat
            }),
        forall|f: usize| #[trigger]
            sorted_by(list.push(split), f) <==> sorted_by(list, f) || (f == split.0 && split.1),
{
    let more = list.push(split);
    assert(more.drop_last() =~= list);
    assert forall|f: usize| #[trigger] sorted_by(more, f) <==> sorted_by(list, f) || (f == split.0
        && split.1) by {
        if sorted_by(more, f) {
            let i = choose|i: int| 0 <= i < more.len() && more[i] == (f, true);
            if i < list.len() {
                assert(list[i] == (f, true));
            }
        }
        if sorted_by(list, f) {
            let i = choose|i: int| 0 <= i < list.len() && list[i] == (f, true);
            assert(more[i] == (f, true));
        }
        if f == split.0 && split.1 {
            assert(more[list.len() as int] == (f, true));
        }
    }
}

/// Takes one more split into a tally.
fn note(usage: &mut Vec<FeatureUse>, split: (usize, bool), Ghost(list): Ghost<Seq<(usize, bool)>>)
    requires
        tallies(old(usage)@, list),
        list.len() < usize::MAX,
    ensures
        tallies(final(usage)@, list.push(split)),
{
    let feature: usize = split.0;
    let mut low: usize = 0;
    let mut high: usize = usage.len();
    while low < high
        invariant
            low <= high <= usage.len(),
            tallies(usage@, list),
            forall|i: int| 0 <= i < low ==> usage[i].feature < feature,
            forall|i: int| high <= i < usage.len() ==> usage[i].feature >= feature,
        decreases high - low,
    {
        let mid: usize = low + (high - low) / 2;
        if usage[mid].feature < feature {
            low = mid + 1;
        } else {
            high = mid;
        }
    }
    let ghost before = usage@;
    let ghost more = list.push(split);
    proof {
        lemma_one_more(list, split);
        lemma_occurrences(list, feature);
    }
    if low < usage.len() && usage[low].feature == feature {
        let one = usage[low];
        usage.set(
            low,
            FeatureUse {
                feature,
                splits: one.splits + 1,
                categorical: one.categorical || split.1,
            },
        );
        proof {
            assert forall|f: usize| #[trigger] occurrences(more, f) > 0 implies exists|i: int|
                0 <= i < usage.len() && usage[i].feature == f by {
                if f == feature {
                    assert(usage[low as int].feature == f);
                } else {
                    assert(occurrences(list, f) > 0);
                    let i = choose|i: int| 0 <= i < before.len() && before[i].feature == f;
                    assert(usage[i].feature == f);
                }
            }
        }
    } else {
        proof {
            if occurrences(list, feature) > 0 {
                let i = choose|i: int| 0 <= i < before.len() && before[i].feature == feature;
                assert(i >= low);
                if i > low {
                    assert(before[low as int].feature < before[i].feature);
                }
                assert(false);
            }
            lemma_occurrences(list, feature);
        }
        usage.insert(low, FeatureUse { feature, splits: 1, categorical: split.1 });
        proof {
            assert forall|i: int| 0 <= i < usage.len() implies ({
                let u = #[trigger] usage[i];
                &&& u.splits == occurrences(more, u.feature)
                &&& u.splits > 0
                &&& u.categorical == sorted_by(more, u.feature)
            }) by {
                if i < low {
                    assert(usage[i] == before[i]);
                } else if i > low {
                    assert(usage[i] == before[i - 1]);
                }
            }
            assert forall|i: int, j: int| 0 <= i < j < usage.len() implies usage[i].feature
                < usage[j].feature by {
                if j < low {
                    assert(before[i].feature < before[j].feature);
                } else if i > low {
                    assert(before[i - 1].feature < before[j - 1].feature);
                } else if i < low && j > low {
                    assert(before[i].feature < before[j - 1].feature);
                } else if i == low {
                    assert(before[j - 1].feature >= feature);
                    if before[j - 1].feature == feature {
                        assert(occurrences(list, feature) > 0);
                    }
                }
            }
            assert forall|f: usize| #[trigger] occurrences(more, f) > 0 implies exists|i: int|
                0 <= i < usage.len() && usage[i].feature == f by {
                if f == feature {
                    assert(usage[low as int].feature == f);
                } else {
                    assert(occurrences(list, f) > 0);
                    let i = choose|i: int| 0 <= i < before.len() && before[i].feature == f;
                    if i < low {
                        assert(usage[i].feature == f);
                    } else {
                        assert(usage[i + 1].feature == f);
                    }
                }
            }
        }
    }
}

fn tally(list: &Vec<(usize, bool)>) -> (r: Vec<FeatureUse>)
    ensures
        tallies(r@, list@),
{
    let mut usage: Vec<FeatureUse> = Vec::new();
    let mut i: usize = 0;
    proof {
        assert forall|f: usize| #[trigger] occurrences(list@.take(0), f) > 0 implies exists|i: int|
            0 <= i < usage.len() && usage[i].feature == f by {
            assert(list@.take(0).len() == 0);
        }
    }
    while i < list.len()
        invariant
            i <= list.len(),
            tallies(usage@, list@.take(i as int)),
        decreases list.len() - i,
    {
        proof {
            assert(list@.take(i as int).push(list@[i as int]) =~= list@.take(i + 1));
        }
        note(&mut usage, list[i], Ghost(list@.take(i as int)));
        i = i + 1;
    }
    assert(list@.take(list.len() as int) =~= list@);
    usage
}

/// How often each feature is split on, by feature.
pub fn feature_usage(forest: &Forest) -> (r: Vec<FeatureUse>)
    ensures
        tallies(r@, splits_of(forest@.trees, forest.trees.len() as int)),
{
    let mut list: Vec<(usize, bool)> = Vec::new();
    let mut i: usize = 0;
    assert(list@ =~= seq![]);
    while i < forest.trees.len()
        invariant
            i <= forest.trees.len(),
            list@ == splits_of(forest@.trees, i as int),
        decreases forest.trees.len() - i,
    {
        assert(forest@.trees[i as int].root == forest.trees[i as int].root@);
        collect_splits(&forest.trees[i].root, &mut list);
        i = i + 1;
    }
    tally(&list)
}

/// Whether a feature comes before another in the order of use: more splits first, the lower
/// feature first where both have as many.
pub open spec fn precedes(a: FeatureUse, b: FeatureUse) -> bool {
    a.splits > b.splits || (a.splits == b.splits && a.feature < b.feature)
}

fn comes_first(a: FeatureUse, b: FeatureUse) -> (r: bool)
    ensures
        r == precedes(a, b),
{
    a.splits > b.splits || (a.splits == b.splits && a.feature < b.feature)
}

/// The features that are split on most, at most `limit` of them, the most used first.
pub fn most_used(usage: &Vec<FeatureUse>, limit: usize) -> (r: Vec<FeatureUse>)
    requires
        ascending(usage@),
    ensures
        r.len() == (if usage.len() < limit {
            usage.len() as int
        } else {
            limit as int
        }),
        forall|i: int| 0 <= i < r.len() ==> usage@.contains(#[trigger] r@[i]),
        forall|i: int, j: int| 0 <= i < j < r.len() ==> precedes(r[i], r[j]),
        forall|u: FeatureUse, i: int|
            usage@.contains(u) && !r@.contains(u) && 0 <= i < r.len() ==> #[trigger] precedes(
                r[i],
                u,
            ),
{
    let mut out: Vec<FeatureUse> = Vec::new();
    while out.len() < limit && out.len() < usage.len()
        invariant
            ascending(usage@),
            out.len() <= limit,
            out.len() <= usage.len(),
            forall|i: int| 0 <= i < out.len() ==> usage@.contains(#[trigger] out@[i]),
            forall|i: int, j: int| 0 <= i < j < out.len() ==> precedes(out[i], out[j]),
            forall|k: int|
                0 <= k < usage.len() ==> out@.contains(#[trigger] usage[k]) || out.len() == 0
                    || precedes(out@.last(), usage[k]),
        decreases limit - out.len(),
    {
        let count: usize = out.len();
        let ghost chosen = out@;
        let mut best: Option<usize> = None;
        let mut i: usize = 0;
        while i < usage.len()
            invariant
                i <= usage.len(),
                count == out.len(),
                out@ == chosen,
                match best {
                    None => forall|k: int|
                        0 <= k < i ==> count > 0 && !precedes(chosen.last(), #[trigger] usage[k]),
                    Some(b) => b < i && (count == 0 || precedes(chosen.last(), usage[b as int]))
                        && forall|k: int|
                        0 <= k < i ==> (count > 0 && !precedes(chosen.last(), #[trigger] usage[k]))
                            || usage[k] == usage[b as int] || precedes(
                            usage[b as int],
                            usage[k],
                        ),
                },
                ascending(usage@),
            decreases usage.len() - i,
        {
            let open: bool = count == 0 || comes_first(out[count - 1], usage[i]);
            if open {
                match best {
                    None => {
                        best = Some(i);
                    },
                    Some(b) => {
                        assert(usage[b as int].feature < usage[i as int].feature);
                        if comes_first(usage[i], usage[b]) {
                            best = Some(i);
                        }
                    },
                }
            }
            i = i + 1;
        }
        match best {
            None => {
                proof {
                    lemma_all_chosen(usage@, chosen);
                    assert(false);
                }
                return out;
            },
            Some(b) => {
                let pick = usage[b];
                proof {
                    assert(usage@.contains(usage@[b as int]));
                }
                out.push(pick);
                proof {
                    assert forall|k: int| 0 <= k < usage.len() implies out@.contains(
                        #[trigger] usage[k],
                    ) || precedes(out@.last(), usage[k]) by {
                        if chosen.contains(usage[k]) {
                            let j = choose|j: int| 0 <= j < chosen.len() && chosen[j] == usage[k];
                            assert(out@[j] == usage[k]);
                        } else if usage[k] == pick {
                            assert(out@[count as int] == usage[k]);
                        }
                    }
                    assert forall|i: int, j: int| 0 <= i < j < out.len() implies precedes(
                        out[i],
                        out[j],
                    ) by {
                        if j == count && i < count - 1 {
                            assert(precedes(out[i], out[count - 1]));
                        }
                    }
                }
            },
        }
    }
    proof {
        assert forall|u: FeatureUse, i: int|
            usage@.contains(u) && !out@.contains(u) && 0 <= i < out.len() implies #[trigger]
        precedes(out[i], u) by {
            let k = choose|k: int| 0 <= k < usage.len() && usage@[k] == u;
            assert(precedes(out@.last(), usage[k]));
            if i < out.len() - 1 {
                assert(precedes(out[i], out[out.len() - 1]));
            }
        }
    }
    out
}

/// Distinct picks that are all there is are no fewer than there are.
proof fn lemma_all_chosen(usage: Seq<FeatureUse>, chosen: Seq<FeatureUse>)
    requires
        ascending(usage),
        forall|k: int| 0 <= k < usage.len() ==> chosen.contains(#[trigger] usage[k]),
    ensures
        chosen.len() >= usage.len(),
{
    usage.unique_seq_to_set();
    assert(usage.no_duplicates());
    assert(usage.to_set().subset_of(chosen.to_set())) by {
        assert forall|u: FeatureUse| usage.to_set().contains(u) implies chosen.to_set().contains(
            u,
        ) by {
            let k = choose|k: int| 0 <= k < usage.len() && usage[k] == u;
            assert(chosen.contains(usage[k]));
        }
    }
    chosen.lemma_cardinality_of_set();
    vstd::set_lib::lemma_len_subset(usage.to_set(), chosen.to_set());
}

/// A set of categories that a split is on.
#[derive(Debug)]
pub struct CategoricalSplitInfo {
    pub feature: usize,
    pub bitoff: u16,
    pub nbits: u32,
    pub data_len: usize,
    /// The first bytes of the set, eight at most.
    pub data_sample: Vec<u8>,
}

/// The sets that a feature's categories are split by.
#[derive(Debug)]
pub struct CategoricalSummary {
    pub feature: usize,
    pub splits: usize,
    pub min_bitoff: u16,
    pub max_bitoff: u16,
    pub min_nbits: u32,
    pub max_nbits: u32,
    /// Which of all sets is the feature's first.
    pub first: usize,
}

#[verifier::ext_equal]
pub ghost struct SetView {
    pub feature: usize,
    pub bitoff: u16,
    pub nbits: u32,
    pub data_len: usize,
    pub data_sample: Seq<u8>,
}

impl View for CategoricalSplitInfo {
    type V = SetView;

    open spec fn view(&self) -> SetView {
        SetView {
            feature: self.feature,
            bitoff: self.bitoff,
            nbits: self.nbits,
            data_len: self.data_len,
            data_sample: self.data_sample@,
        }
    }
}

/// The first bytes of a set.
pub open spec fn sample(data: Seq<u8>) -> Seq<u8> {
    if data.len() <= 8 {
        data
    } else {
        data.take(8)
    }
}

impl NodeView {
    /// The sets of the tree, a node before its children, left before right.
    pub open spec fn sets(self) -> Seq<SetView>
        decreases self,
    {
        match self {
            NodeView::Leaf { .. } => seq![],
            NodeView::Split { feature_idx, split, left, right, .. } => (match split {
                SplitView::Categorical { bitoff, nbits, data } => seq![
                    SetView {
                        feature: feature_idx,
                        bitoff,
                        nbits,
                        data_len: data.len() as usize,
                        data_sample: sample(data),
                    },
                ],
                _ => seq![],
            }) + left.sets() + right.sets(),
        }
    }
}

/// The sets of the first `n` trees.
pub open spec fn sets_of(trees: Seq<TreeView>, n: int) -> Seq<SetView>
    decreases n,
{
    if n <= 0 {
        seq![]
    } else {
        sets_of(trees, n - 1) + trees[n - 1].root.sets()
    }
}

/// How many of the first `n` sets are of a feature.
pub open spec fn sets_on(sets: Seq<SetView>, feature: usize, n: int) -> nat
    decreases n,
{
    if n <= 0 {
        0
    } else {
        sets_on(sets, feature, n - 1) + (if sets[n - 1].feature == feature {
            1nat
        } else {
            0nat
        })
    }
}

impl CategoricalSummary {
    /// Whether this sums up the feature's sets among the first `n`.
    pub open spec fn of(self, sets: Seq<SetView>, n: int) -> bool {
        &&& self.splits == sets_on(sets, self.feature, n)
        &&& 0 <= self.first < n && sets[self.first as int].feature == self.feature
        &&& forall|i: int|
            0 <= i < n && (#[trigger] sets[i]).feature == self.feature ==> self.first <= i
                && self.min_bitoff <= sets[i].bitoff <= self.max_bitoff && self.min_nbits
                <= sets[i].nbits <= self.max_nbits
        &&& exists|i: int|
            0 <= i < n && (#[trigger] sets[i]).feature == self.feature && sets[i].bitoff
                == self.min_bitoff
        &&& exists|i: int|
            0 <= i < n && (#[trigger] sets[i]).feature == self.feature && sets[i].bitoff
                == self.max_bitoff
        &&& exists|i: int|
            0 <= i < n && (#[trigger] sets[i]).feature == self.feature && sets[i].nbits
                == self.min_nbits
        &&& exists|i: int|
            0 <= i < n && (#[trigger] sets[i]).feature == self.feature && sets[i].nbits
                == self.max_nbits
    }
}

/// The views of the sets in a list.
pub open spec fn set_views(sets: Seq<CategoricalSplitInfo>) -> Seq<SetView> {
    sets.map_values(|s: CategoricalSplitInfo| s@)
}

fn sample_of(data: &Vec<u8>) -> (r: Vec<u8>)
    ensures
        r@ == sample(data@),
{
    let mut out: Vec<u8> = Vec::new();
    let mut i: usize = 0;
    while i < data.len() && i < 8
        invariant
            i <= data.len(),
            i <= 8,
            out@ == data@.take(i as int),
        decreases data.len() - i,
    {
        out.push(data[i]);
        i = i + 1;
    }
    assert(out@ =~= sample(data@));
    out
}

fn collect_categorical_info(node: &Node, out: &mut Vec<CategoricalSplitInfo>)
    ensures
        set_views(final(out)@) == set_views(old(out)@) + node@.sets(),
    decreases node,
{
    match node {
        Node::Leaf { .. } => {
            assert(set_views(out@) =~= set_views(old(out)@) + Seq::<SetView>::empty());
        },
        Node::Split { feature_idx, split, left_child, right_child, .. } => {
            let ghost here = node@.sets().take(
                node@.sets().len() - left_child@.sets().len() - right_child@.sets().len(),
            );
            match split {
                SplitKind::Categorical { bitoff, nbits, data } => {
                    let info = CategoricalSplitInfo {
                        feature: *feature_idx,
                        bitoff: *bitoff,
                        nbits: *nbits,
                        data_len: data.len(),
                        data_sample: sample_of(data),
                    };
                    out.push(info);
                    proof {
                        assert(here =~= seq![info@]);
                        assert(set_views(out@) =~= set_views(old(out)@) + here);
                    }
                },
                _ => {
                    proof {
                        assert(here =~= seq![]);
                        assert(set_views(out@) =~= set_views(old(out)@) + here);
                    }
                },
            }
            collect_categorical_info(left_child, out);
            collect_categorical_info(right_child, out);
            assert(node@.sets() =~= here + left_child@.sets() + right_child@.sets());
            assert(set_views(out@) =~= set_views(old(out)@) + node@.sets());
        },
    }
}

/// The sets of a forest, tree by tree.
pub fn categorical_sets(forest: &Forest) -> (r: Vec<CategoricalSplitInfo>)
    ensures
        set_views(r@) == sets_of(forest@.trees, forest.trees.len() as int),
{
    let mut out: Vec<CategoricalSplitInfo> = Vec::new();
    let mut i: usize = 0;
    assert(set_views(out@) =~= seq![]);
    while i < forest.trees.len()
        invariant
            i <= forest.trees.len(),
            set_views(out@) == sets_of(forest@.trees, i as int),
        decreases forest.trees.len() - i,
    {
        assert(forest@.trees[i as int].root == forest.trees[i as int].root@);
        collect_categorical_info(&forest.trees[i].root, &mut out);
        i = i + 1;
    }
    out
}

/// Sums up a feature's sets; nothing if it has none.
pub fn summarize(sets: &Vec<CategoricalSplitInfo>, feature: usize) -> (r: Option<
    CategoricalSummary,
>)
    ensures
        match r {
            Some(summary) => summary.feature == feature && summary.of(
                set_views(sets@),
                sets.len() as int,
            ),
            None => sets_on(set_views(sets@), feature, sets.len() as int) == 0,
        },
{
    let ghost views = set_views(sets@);
    let mut found: Option<CategoricalSummary> = None;
    let mut i: usize = 0;
    while i < sets.len()
        invariant
            i <= sets.len(),
            views == set_views(sets@),
            sets_on(views, feature, i as int) <= i,
            match found {
                Some(summary) => summary.feature == feature && summary.of(views, i as int),
                None => sets_on(views, feature, i as int) == 0 && forall|j: int|
                    0 <= j < i ==> (#[trigger] views[j]).feature != feature,
            },
        decreases sets.len() - i,
    {
        let set = &sets[i];
        assert(views[i as int] == set@);
        if set.feature == feature {
            found =
            match found {
                None => Some(
                    CategoricalSummary {
                        feature,
                        splits: 1,
                        min_bitoff: set.bitoff,
                        max_bitoff: set.bitoff,
                        min_nbits: set.nbits,
                        max_nbits: set.nbits,
                        first: i,
                    },
                ),
                Some(s) => Some(
                    CategoricalSummary {
                        feature,
                        splits: s.splits + 1,
                        min_bitoff: if set.bitoff < s.min_bitoff {
                            set.bitoff
                        } else {
                            s.min_bitoff
                        },
                        max_bitoff: if set.bitoff > s.max_bitoff {
                            set.bitoff
                        } else {
                            s.max_bitoff
                        },
                        min_nbits: if set.nbits < s.min_nbits {
                            set.nbits
                        } else {
                            s.min_nbits
                        },
                        max_nbits: if set.nbits > s.max_nbits {
                            set.nbits
                        } else {
                            s.max_nbits
                        },
                        first: s.first,
                    },
                ),
            };
        }
        i = i + 1;
    }
    found
}

/// The smallest and the greatest depth are those of some tree, and no tree is less or more deep.
pub proof fn depths_are_between_the_extremes(trees: Seq<TreeView>, n: int)
    requires
        0 < n <= trees.len(),
    ensures
        forall|i: int|
            0 <= i < n ==> least_depth(trees, n) <= (#[trigger] trees[i]).root.depth()
                <= greatest_depth(trees, n),
        exists|i: int| 0 <= i < n && (#[trigger] trees[i]).root.depth() == least_depth(trees, n),
        exists|i: int| 0 <= i < n && (#[trigger] trees[i]).root.depth() == greatest_depth(trees, n),
    decreases n,
{
    if n == 1 {
        assert(greatest_depth(trees, 0) == 0);
        assert(trees[0].root.depth() == least_depth(trees, 1));
        assert(trees[0].root.depth() == greatest_depth(trees, 1));
    } else {
        depths_are_between_the_extremes(trees, n - 1);
        let low = choose|i: int|
            0 <= i < n - 1 && (#[trigger] trees[i]).root.depth() == least_depth(trees, n - 1);
        let high = choose|i: int|
            0 <= i < n - 1 && (#[trigger] trees[i]).root.depth() == greatest_depth(trees, n - 1);
        let last = trees[n - 1].root.depth();
        if last < least_depth(trees, n - 1) {
            assert(trees[n - 1].root.depth() == least_depth(trees, n));
        } else {
            assert(trees[low].root.depth() == least_depth(trees, n));
        }
        if last > greatest_depth(trees, n - 1) {
            assert(trees[n - 1].root.depth() == greatest_depth(trees, n));
        } else {
            assert(trees[high].root.depth() == greatest_depth(trees, n));
        }
    }
}

/// What holds of every tree's counts holds of their totals: the nodes are the leaves and the
/// splits, and every split is numeric or not.
pub proof fn totals_add_up(trees: Seq<TreeView>, n: int)
    requires
        0 <= n <= trees.len(),
    ensures
        ({
            let nodes = total(trees, |t: NodeView| t.size(), n);
            let leaves = total(trees, |t: NodeView| t.tips(), n);
            let numeric = total(trees, |t: NodeView| t.numeric_splits(), n);
            let others = total(trees, |t: NodeView| t.other_splits(), n);
            &&& nodes == leaves + numeric + others
            &&& leaves == numeric + others + n
        }),
    decreases n,
{
    if n > 0 {
        totals_add_up(trees, n - 1);
        counts_add_up(trees[n - 1].root);
    }
}

/// A feature is split on as often as it is listed, and sorted by category if it is so listed.
pub proof fn lists_hold_every_split(node: NodeView, f: usize)
    ensures
        occurrences(node.split_list(), f) == node.uses(f),
        sorted_by(node.split_list(), f) == node.sorts(f),
        node.split_list().len() == node.tips() - 1,
    decreases node,
{
    match node {
        NodeView::Leaf { .. } => {
            assert(!sorted_by(Seq::<(usize, bool)>::empty(), f));
        },
        NodeView::Split { feature_idx, split, left, right, .. } => {
            lists_hold_every_split(*left, f);
            lists_hold_every_split(*right, f);
            let own = seq![(feature_idx, split is Categorical)];
            let a = left.split_list();
            let b = right.split_list();
            lemma_occurrences_add(own, a, f);
            lemma_occurrences_add(own + a, b, f);
            assert(own.drop_last() =~= seq![]);
            assert(occurrences(Seq::<(usize, bool)>::empty(), f) == 0);
            assert(occurrences(own, f) == (if feature_idx == f {
                1nat
            } else {
                0nat
            }));
            let all = own + a + b;
            if sorted_by(all, f) {
                let i = choose|i: int| 0 <= i < all.len() && all[i] == (f, true);
                if i == 0 {
                    assert(own[0] == (f, true));
                } else if i < 1 + a.len() {
                    assert(a[i - 1] == (f, true));
                } else {
                    assert(b[i - 1 - a.len()] == (f, true));
                }
            }
            if feature_idx == f && split is Categorical {
                assert(all[0] == (f, true));
            }
            if sorted_by(a, f) {
                let i = choose|i: int| 0 <= i < a.len() && a[i] == (f, true);
                assert(all[i + 1] == (f, true));
            }
            if sorted_by(b, f) {
                let i = choose|i: int| 0 <= i < b.len() && b[i] == (f, true);
                assert(all[i + 1 + a.len()] == (f, true));
            }
        },
    }
}

proof fn lemma_occurrences_add(a: Seq<(usize, bool)>, b: Seq<(usize, bool)>, f: usize)
    ensures
        occurrences(a + b, f) == occurrences(a, f) + occurrences(b, f),
    decreases b.len(),
{
    if b.len() == 0 {
        assert(a + b =~= a);
    } else {
        lemma_occurrences_add(a, b.drop_last(), f);
        assert((a + b).drop_last() =~= a + b.drop_last());
    }
}

proof fn lemma_single_leaves(trees: Seq<TreeView>, n: int)
    requires
        0 <= n <= trees.len(),
    ensures
        total(trees, |t: NodeView| leaf_one(t), n) == trees.take(n).filter(
            |t: TreeView| t.root is Leaf,
        ).len(),
        total(trees, |t: NodeView| leaf_one(t), n) == 0 <==> forall|i: int|
            0 <= i < n ==> (#[trigger] trees[i]).root is Split,
    decreases n,
{
    reveal(Seq::filter);
    if n > 0 {
        lemma_single_leaves(trees, n - 1);
        assert(trees.take(n).drop_last() =~= trees.take(n - 1));
        assert(trees.take(n).last() == trees[n - 1]);
    } else {
        assert(trees.take(0) =~= seq![]);
    }
}

/// The single leaves of a forest are its trees without a split.
pub proof fn single_leaves_are_counted(forest: ForestView)
    ensures
        single_leaves(forest) == forest.trees.filter(|t: TreeView| t.root is Leaf).len(),
        single_leaves(forest) == 0 <==> forall|i: int|
            0 <= i < forest.trees.len() ==> (#[trigger] forest.trees[i]).root is Split,
{
    lemma_single_leaves(forest.trees, forest.trees.len() as int);
    assert(forest.trees.take(forest.trees.len() as int) =~= forest.trees);
}

} // verus!
