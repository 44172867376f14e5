//! Array-layout code generation.
//!
//! The forest becomes static parallel arrays walked by a small loop, instead of one
//! function per tree, so that very large forests stay practical to compile. Numeric splits
//! only.
use crate::error::{Failure, Problem};
#[allow(unused_imports)]
use crate::error::FailureView;
use crate::interpreter;
#[allow(unused_imports)]
use crate::interpreter::Term;
#[allow(unused_imports)]
use crate::backends::code;
use crate::backends::rust;
use crate::backends::templates as t;
use crate::backends::tokens;
use crate::backends::tokens::Token;
use crate::ir::{
    AggregationKind, Forest, MissingDirection, Node, Operator, PostTransform, SplitKind, Tree,
};
#[allow(unused_imports)]
use crate::ir::{ForestView, NodeView, SplitView, TreeView};
#[allow(unused_imports)]
use crate::ir;
use crate::number::{F32, F64};
#[allow(unused_imports)]
use crate::number::ONE_BITS;
#[allow(unused_imports)]
use crate::text;
use vstd::prelude::*;

verus! {

/// The bits of a flag byte that hold the operator.
pub const OP_MASK: u8 = 7;

/// Set where NaN goes left.
pub const FLAG_MISSING_LEFT: u8 = 8;

/// Set where the split is on NaN-ness alone.
pub const FLAG_NA_VS_REST: u8 = 16;

pub const OP_LT: u8 = 0;

pub const OP_LE: u8 = 1;

pub const OP_GT: u8 = 2;

pub const OP_GE: u8 = 3;

pub const OP_EQ: u8 = 4;

pub const OP_NE: u8 = 5;

/// The forest as parallel arrays: entry `i` of the first five is split node `i`. A child
/// link that is not negative is a node, a negative link `v` is leaf `!v`.
#[derive(Debug)]
pub struct FlatForest {
    pub feat: Vec<u32>,
    pub thr: Vec<F32>,
    pub flags: Vec<u8>,
    pub left: Vec<i32>,
    pub right: Vec<i32>,
    pub leaves: Vec<F64>,
    pub roots: Vec<i32>,
    pub weights: Vec<F64>,
}

#[verifier::ext_equal]
pub ghost struct FlatView {
    pub feat: Seq<u32>,
    pub thr: Seq<F32>,
    pub flags: Seq<u8>,
    pub left: Seq<i32>,
    pub right: Seq<i32>,
    pub leaves: Seq<F64>,
    pub roots: Seq<i32>,
    pub weights: Seq<F64>,
}

impl View for FlatForest {
    type V = FlatView;

    open spec fn view(&self) -> FlatView {
        FlatView {
            feat: self.feat@,
            thr: self.thr@,
            flags: self.flags@,
            left: self.left@,
            right: self.right@,
            leaves: self.leaves@,
            roots: self.roots@,
            weights: self.weights@,
        }
    }
}

/// The number of an operator in the flag byte.
pub open spec fn operator_code(operator: Operator) -> u8 {
    match operator {
        Operator::LessThan => OP_LT,
        Operator::LessOrEqual => OP_LE,
        Operator::GreaterThan => OP_GT,
        Operator::GreaterOrEqual => OP_GE,
        Operator::Equal => OP_EQ,
        Operator::NotEqual => OP_NE,
    }
}

/// The flag byte of a numeric split.
pub open spec fn flag_byte(operator: Operator, missing: MissingDirection) -> u8 {
    match missing {
        MissingDirection::Left => (operator_code(operator) + FLAG_MISSING_LEFT) as u8,
        MissingDirection::NaVsRest => (operator_code(operator) + FLAG_NA_VS_REST) as u8,
        MissingDirection::Right => operator_code(operator),
        MissingDirection::Unspecified => operator_code(operator),
    }
}

/// The threshold as stored. Where the split is on NaN-ness alone, the threshold is not read
/// and NaN is stored as zero.
pub open spec fn stored_threshold(threshold: F32, missing: MissingDirection) -> F32 {
    if missing == MissingDirection::NaVsRest && threshold.nan() {
        F32 { bits: 0 }
    } else {
        threshold
    }
}

impl NodeView {
    /// Whether all splits of the tree are numeric.
    pub open spec fn numeric_only(self) -> bool
        decreases self,
    {
        match self {
            NodeView::Leaf { .. } => true,
            NodeView::Split { split, left, right, .. } => split is Numeric && left.numeric_only()
                && right.numeric_only(),
        }
    }

    /// How many split nodes the tree has.
    pub open spec fn splits(self) -> nat
        decreases self,
    {
        match self {
            NodeView::Leaf { .. } => 0,
            NodeView::Split { left, right, .. } => 1 + left.splits() + right.splits(),
        }
    }

    /// How many leaves the tree has.
    pub open spec fn tips(self) -> nat
        decreases self,
    {
        match self {
            NodeView::Leaf { .. } => 1,
            NodeView::Split { left, right, .. } => left.tips() + right.tips(),
        }
    }

    /// The features of the split nodes, a node before its children, left before right.
    pub open spec fn flat_features(self) -> Seq<u32>
        decreases self,
    {
        match self {
            NodeView::Leaf { .. } => seq![],
            NodeView::Split { feature_idx, left, right, .. } => seq![feature_idx as u32]
                + left.flat_features() + right.flat_features(),
        }
    }

    /// The stored thresholds, in the order of the features.
    pub open spec fn flat_thresholds(self) -> Seq<F32>
        decreases self,
    {
        match self {
            NodeView::Leaf { .. } => seq![],
            NodeView::Split { split, left, right, missing, .. } => seq![
                stored_threshold(split->Numeric_threshold, missing),
            ] + left.flat_thresholds() + right.flat_thresholds(),
        }
    }

    /// The flag bytes, in the order of the features.
    pub open spec fn flat_flags(self) -> Seq<u8>
        decreases self,
    {
        match self {
            NodeView::Leaf { .. } => seq![],
            NodeView::Split { split, left, right, missing, .. } => seq![
                flag_byte(split->operator, missing),
            ] + left.flat_flags() + right.flat_flags(),
        }
    }

    /// The leaf values from left to right.
    pub open spec fn flat_leaves(self) -> Seq<F64>
        decreases self,
    {
        match self {
            NodeView::Leaf { value } => seq![value],
            NodeView::Split { left, right, .. } => left.flat_leaves() + right.flat_leaves(),
        }
    }

    /// The link to this tree when its first split is node `node` and its first leaf is leaf
    /// `leaf`.
    pub open spec fn link(self, node: int, leaf: int) -> i32 {
        if self is Leaf {
            !(leaf as i32)
        } else {
            node as i32
        }
    }

    /// The links to the left children, in the order of the features.
    pub open spec fn flat_left(self, node: int, leaf: int) -> Seq<i32>
        decreases self,
    {
        match self {
            NodeView::Leaf { .. } => seq![],
            NodeView::Split { left, right, .. } => seq![left.link(node + 1, leaf)]
                + left.flat_left(node + 1, leaf) + right.flat_left(
                node + 1 + left.splits(),
                leaf + left.tips(),
            ),
        }
    }

    /// The links to the right children, in the order of the features.
    pub open spec fn flat_right(self, node: int, leaf: int) -> Seq<i32>
        decreases self,
    {
        match self {
            NodeView::Leaf { .. } => seq![],
            NodeView::Split { left, right, .. } => seq![
                right.link(node + 1 + left.splits(), leaf + left.tips()),
            ] + left.flat_right(node + 1, leaf) + right.flat_right(
                node + 1 + left.splits(),
                leaf + left.tips(),
            ),
        }
    }
}

impl FlatView {
    /// The arrays with one more tree's nodes and leaves in them.
    pub open spec fn grown(self, node: NodeView) -> FlatView {
        FlatView {
            feat: self.feat + node.flat_features(),
            thr: self.thr + node.flat_thresholds(),
            flags: self.flags + node.flat_flags(),
            left: self.left + node.flat_left(self.feat.len() as int, self.leaves.len() as int),
            right: self.right + node.flat_right(self.feat.len() as int, self.leaves.len() as int),
            leaves: self.leaves + node.flat_leaves(),
            roots: self.roots,
            weights: self.weights,
        }
    }

    /// The arrays of a list of trees.
    pub open spec fn of(trees: Seq<TreeView>) -> FlatView
        decreases trees.len(),
    {
        if trees.len() == 0 {
            FlatView {
                feat: seq![],
                thr: seq![],
                flags: seq![],
                left: seq![],
                right: seq![],
                leaves: seq![],
                roots: seq![],
                weights: seq![],
            }
        } else {
            let before = FlatView::of(trees.drop_last());
            let root = trees.last().root;
            FlatView {
                roots: before.roots.push(
                    root.link(before.feat.len() as int, before.leaves.len() as int),
                ),
                weights: before.weights.push(trees.last().weight),
                ..before.grown(root)
            }
        }
    }

    /// Whether every link fits.
    pub open spec fn fits(self) -> bool {
        self.feat.len() < i32::MAX && self.leaves.len() < i32::MAX
    }

    /// Whether the arrays of nodes have the same length.
    pub open spec fn aligned(self) -> bool {
        self.thr.len() == self.feat.len() && self.flags.len() == self.feat.len()
            && self.left.len() == self.feat.len() && self.right.len() == self.feat.len()
    }
}

pub open spec fn all_numeric(trees: Seq<TreeView>) -> bool {
    forall|i: int| 0 <= i < trees.len() ==> (#[trigger] trees[i]).root.numeric_only()
}

/// The stored threshold and the flag byte of a split.
pub fn encode_split(split: &SplitKind, missing_direction: MissingDirection) -> (r: Result<
    (F32, u8),
    Failure,
>)
    ensures
        match r {
            Ok((thr, flags)) => split@ matches SplitView::Numeric { threshold, operator } && thr
                == stored_threshold(threshold, missing_direction) && flags == flag_byte(
                operator,
                missing_direction,
            ),
            Err(e) => !(split@ is Numeric) && e@ == FailureView::Plain(Problem::ArrayNumericOnly),
        },
{
    match split {
        SplitKind::Numeric { threshold, operator } => {
            let code: u8 = match operator {
                Operator::LessThan => OP_LT,
                Operator::LessOrEqual => OP_LE,
                Operator::GreaterThan => OP_GT,
                Operator::GreaterOrEqual => OP_GE,
                Operator::Equal => OP_EQ,
                Operator::NotEqual => OP_NE,
            };
            let flags: u8 = match missing_direction {
                MissingDirection::Left => code + FLAG_MISSING_LEFT,
                MissingDirection::NaVsRest => code + FLAG_NA_VS_REST,
                MissingDirection::Right => code,
                MissingDirection::Unspecified => code,
            };
            let thr: F32 = if missing_direction == MissingDirection::NaVsRest
                && threshold.is_nan() {
                F32 { bits: 0 }
            } else {
                *threshold
            };
            Ok((thr, flags))
        },
        _ => Err(Failure::Plain(Problem::ArrayNumericOnly)),
    }
}

impl FlatForest {
    /// Appends a tree's nodes and leaves and returns the link to its root.
    fn flatten(&mut self, node: &Node) -> (r: Result<i32, Failure>)
        requires
            old(self)@.aligned(),
        ensures
            match r {
                Ok(link) => node@.numeric_only() && final(self)@ == old(self)@.grown(node@)
                    && final(self)@.aligned() && final(self).feat.len() == old(self).feat.len()
                    + node@.splits() && final(self).leaves.len() == old(self).leaves.len()
                    + node@.tips() && link == node@.link(
                    old(self).feat.len() as int,
                    old(self).leaves.len() as int,
                ),
                Err(e) => !node@.numeric_only() && e@ == FailureView::Plain(
                    Problem::ArrayNumericOnly,
                ),
            },
        decreases node,
    {
        let ghost start = self@;
        match node {
            Node::Leaf { value } => {
                let at: usize = self.leaves.len();
                self.leaves.push(*value);
                proof {
                    assert(self@ =~= start.grown(node@));
                }
                Ok(!(at as i32))
            },
            Node::Split { feature_idx, split, left_child, right_child, missing_direction } => {
                match encode_split(split, *missing_direction) {
                    Err(e) => Err(e),
                    Ok((thr, flags)) => {
                        let idx: usize = self.feat.len();
                        self.feat.push(*feature_idx as u32);
                        self.thr.push(thr);
                        self.flags.push(flags);
                        self.left.push(0);
                        self.right.push(0);
                        let ghost opened = self@;
                        let l: i32 = match self.flatten(left_child) {
                            Ok(link) => link,
                            Err(e) => {
                                return Err(e);
                            },
                        };
                        let ghost middle = self@;
                        let r: i32 = match self.flatten(right_child) {
                            Ok(link) => link,
                            Err(e) => {
                                return Err(e);
                            },
                        };
                        self.left.set(idx, l);
                        self.right.set(idx, r);
                        proof {
                            let target = start.grown(node@);
                            assert(self@.feat =~= target.feat);
                            assert(self@.thr =~= target.thr);
                            assert(self@.flags =~= target.flags);
                            assert(self@.left =~= target.left);
                            assert(self@.right =~= target.right);
                            assert(self@.leaves =~= target.leaves);
                        }
                        Ok(idx as i32)
                    },
                }
            },
        }
    }

    /// The arrays of a list of trees.
    pub fn from_trees(trees: &[Tree]) -> (r: Result<FlatForest, Failure>)
        ensures
            match r {
                Ok(flat) => all_numeric(ir::tree_views(trees@)) && flat@ == FlatView::of(
                    ir::tree_views(trees@),
                ) && flat@.fits(),
                Err(e) => if !all_numeric(ir::tree_views(trees@)) {
                    e@ == FailureView::Plain(Problem::ArrayNumericOnly)
                } else {
                    let flat = FlatView::of(ir::tree_views(trees@));
                    !flat.fits() && e@ == FailureView::Plain(
                        Problem::ForestTooLarge {
                            nodes: flat.feat.len() as usize,
                            leaves: flat.leaves.len() as usize,
                        },
                    )
                },
            },
    {
        let mut flat = FlatForest {
            feat: Vec::new(),
            thr: Vec::new(),
            flags: Vec::new(),
            left: Vec::new(),
            right: Vec::new(),
            leaves: Vec::new(),
            roots: Vec::new(),
            weights: Vec::new(),
        };
        let ghost views = ir::tree_views(trees@);
        let mut i: usize = 0;
        assert(flat@ =~= FlatView::of(views.take(0)));
        while i < trees.len()
            invariant
                i <= trees.len(),
                views == ir::tree_views(trees@),
                flat@ == FlatView::of(views.take(i as int)),
                flat@.aligned(),
                forall|j: int| 0 <= j < i ==> (#[trigger] views[j]).root.numeric_only(),
            decreases trees.len() - i,
        {
            let ghost before = flat@;
            proof {
                assert(views[i as int].root == trees[i as int].root@);
                assert(views.take(i + 1).drop_last() =~= views.take(i as int));
            }
            match flat.flatten(&trees[i].root) {
                Err(e) => {
                    return Err(e);
                },
                Ok(root) => {
                    flat.roots.push(root);
                    flat.weights.push(trees[i].weight);
                },
            }
            assert(flat@ =~= FlatView::of(views.take(i + 1)));
            i = i + 1;
        }
        assert(views.take(views.len() as int) =~= views);
        if flat.feat.len() >= i32::MAX as usize || flat.leaves.len() >= i32::MAX as usize {
            return Err(
                Failure::Plain(
                    Problem::ForestTooLarge { nodes: flat.feat.len(), leaves: flat.leaves.len() },
                ),
            );
        }
        Ok(flat)
    }
}

/// Which way the generated walker goes at a node.
pub open spec fn walker_goes_left(flags: u8, thr: F32, val: F32) -> bool {
    if val.nan() {
        flags & FLAG_MISSING_LEFT != 0
    } else if flags & FLAG_NA_VS_REST != 0 {
        true
    } else {
        let code = flags & OP_MASK;
        if code == OP_LT {
            val.less(thr)
        } else if code == OP_LE {
            val.at_most(thr)
        } else if code == OP_GT {
            thr.less(val)
        } else if code == OP_GE {
            thr.at_most(val)
        } else if code == OP_EQ {
            val.same(thr)
        } else {
            !val.same(thr)
        }
    }
}

impl FlatView {
    /// What the generated walker returns from a link in at most `steps` steps; nothing if
    /// it reads what is not there.
    pub open spec fn walk(self, link: i32, row: Seq<F32>, steps: nat) -> Option<F64>
        decreases steps,
    {
        if link < 0 {
            let leaf = -link - 1;
            if leaf < self.leaves.len() {
                Some(self.leaves[leaf])
            } else {
                None
            }
        } else if steps == 0 || link >= self.feat.len() || self.feat[link as int] >= row.len() {
            None
        } else {
            let i = link as int;
            let go_left = walker_goes_left(
                self.flags[i],
                self.thr[i],
                row[self.feat[i] as int],
            );
            self.walk(
                if go_left {
                    self.left[i]
                } else {
                    self.right[i]
                },
                row,
                (steps - 1) as nat,
            )
        }
    }

    /// Whether a tree stands in the arrays from node `node` and leaf `leaf` on.
    pub open spec fn holds(self, tree: NodeView, node: int, leaf: int) -> bool {
        let nodes = node + tree.splits();
        let leaves = leaf + tree.tips();
        &&& 0 <= node && nodes <= self.feat.len()
        &&& 0 <= leaf && leaves <= self.leaves.len()
        &&& self.feat.subrange(node, nodes) == tree.flat_features()
        &&& self.thr.subrange(node, nodes) == tree.flat_thresholds()
        &&& self.flags.subrange(node, nodes) == tree.flat_flags()
        &&& self.left.subrange(node, nodes) == tree.flat_left(node, leaf)
        &&& self.right.subrange(node, nodes) == tree.flat_right(node, leaf)
        &&& self.leaves.subrange(leaf, leaves) == tree.flat_leaves()
    }
}

impl NodeView {
    /// Whether the arrays can hold every feature index of the tree as it is.
    pub open spec fn storable(self) -> bool
        decreases self,
    {
        match self {
            NodeView::Leaf { .. } => true,
            NodeView::Split { feature_idx, left, right, .. } => feature_idx <= u32::MAX
                && left.storable() && right.storable(),
        }
    }
}

proof fn lemma_flat_lengths(tree: NodeView, node: int, leaf: int)
    ensures
        tree.flat_features().len() == tree.splits(),
        tree.flat_thresholds().len() == tree.splits(),
        tree.flat_flags().len() == tree.splits(),
        tree.flat_left(node, leaf).len() == tree.splits(),
        tree.flat_right(node, leaf).len() == tree.splits(),
        tree.flat_leaves().len() == tree.tips(),
    decreases tree,
{
    if let NodeView::Split { left, right, .. } = tree {
        lemma_flat_lengths(*left, node + 1, leaf);
        lemma_flat_lengths(*right, node + 1 + left.splits(), leaf + left.tips());
    }
}

/// The walker goes at a stored split where the interpreter goes.
pub proof fn flags_decide_alike(
    threshold: F32,
    operator: Operator,
    missing: MissingDirection,
    val: F32,
)
    ensures
        walker_goes_left(flag_byte(operator, missing), stored_threshold(threshold, missing), val)
            == (SplitView::Numeric { threshold, operator }).goes_left(missing, val),
{
    let code = operator_code(operator);
    assert(code < 6 ==> code & 7 == code && code & 8 == 0 && code & 16 == 0 && ((code + 8) as u8)
        & 7 == code && ((code + 8) as u8) & 8 != 0 && ((code + 8) as u8) & 16 == 0 && ((code
        + 16) as u8) & 8 == 0 && ((code + 16) as u8) & 16 != 0) by (bit_vector);
}

/// The parts of a tree that stands in the arrays stand in them too.
proof fn lemma_children_held(flat: FlatView, tree: NodeView, node: int, leaf: int)
    requires
        flat.aligned(),
        flat.holds(tree, node, leaf),
        tree is Split,
    ensures
        flat.holds(*tree->left, node + 1, leaf),
        flat.holds(*tree->right, node + 1 + tree->left.splits(), leaf + tree->left.tips()),
        flat.feat[node] == tree->feature_idx as u32,
        flat.thr[node] == stored_threshold(tree->split->Numeric_threshold, tree->missing),
        flat.flags[node] == flag_byte(tree->split->operator, tree->missing),
        flat.left[node] == tree->left.link(node + 1, leaf),
        flat.right[node] == tree->right.link(
            node + 1 + tree->left.splits(),
            leaf + tree->left.tips(),
        ),
{
    let left = *tree->left;
    let right = *tree->right;
    let mid = node + 1 + left.splits();
    let tip = leaf + left.tips();
    let end = node + tree.splits();
    let last = leaf + tree.tips();
    lemma_flat_lengths(left, node + 1, leaf);
    lemma_flat_lengths(right, mid, tip);
    let n = left.splits() as int;
    let m = right.splits() as int;
    let feat = flat.feat.subrange(node, end);
    assert(flat.feat[node] == feat[0]);
    assert(feat.subrange(1, 1 + n) =~= left.flat_features());
    assert(feat.subrange(1 + n, 1 + n + m) =~= right.flat_features());
    assert(flat.feat.subrange(node + 1, mid) =~= feat.subrange(1, 1 + n));
    assert(flat.feat.subrange(mid, end) =~= feat.subrange(1 + n, 1 + n + m));
    let thr = flat.thr.subrange(node, end);
    assert(flat.thr[node] == thr[0]);
    assert(thr.subrange(1, 1 + n) =~= left.flat_thresholds());
    assert(thr.subrange(1 + n, 1 + n + m) =~= right.flat_thresholds());
    assert(flat.thr.subrange(node + 1, mid) =~= thr.subrange(1, 1 + n));
    assert(flat.thr.subrange(mid, end) =~= thr.subrange(1 + n, 1 + n + m));
    let flags = flat.flags.subrange(node, end);
    assert(flat.flags[node] == flags[0]);
    assert(flags.subrange(1, 1 + n) =~= left.flat_flags());
    assert(flags.subrange(1 + n, 1 + n + m) =~= right.flat_flags());
    assert(flat.flags.subrange(node + 1, mid) =~= flags.subrange(1, 1 + n));
    assert(flat.flags.subrange(mid, end) =~= flags.subrange(1 + n, 1 + n + m));
    let lefts = flat.left.subrange(node, end);
    assert(flat.left[node] == lefts[0]);
    assert(lefts.subrange(1, 1 + n) =~= left.flat_left(node + 1, leaf));
    assert(lefts.subrange(1 + n, 1 + n + m) =~= right.flat_left(mid, tip));
    assert(flat.left.subrange(node + 1, mid) =~= lefts.subrange(1, 1 + n));
    assert(flat.left.subrange(mid, end) =~= lefts.subrange(1 + n, 1 + n + m));
    let rights = flat.right.subrange(node, end);
    assert(flat.right[node] == rights[0]);
    assert(rights.subrange(1, 1 + n) =~= left.flat_right(node + 1, leaf));
    assert(rights.subrange(1 + n, 1 + n + m) =~= right.flat_right(mid, tip));
    assert(flat.right.subrange(node + 1, mid) =~= rights.subrange(1, 1 + n));
    assert(flat.right.subrange(mid, end) =~= rights.subrange(1 + n, 1 + n + m));
    let leaves = flat.leaves.subrange(leaf, last);
    let a = left.tips() as int;
    let b = right.tips() as int;
    assert(leaves.subrange(0, a) =~= left.flat_leaves());
    assert(leaves.subrange(a, a + b) =~= right.flat_leaves());
    assert(flat.leaves.subrange(leaf, tip) =~= leaves.subrange(0, a));
    assert(flat.leaves.subrange(tip, last) =~= leaves.subrange(a, a + b));
}

/// Walking a tree that stands in the arrays gives what the interpreter gives.
proof fn lemma_walk(
    flat: FlatView,
    tree: NodeView,
    node: int,
    leaf: int,
    row: Seq<F32>,
    steps: nat,
)
    requires
        flat.aligned(),
        flat.fits(),
        flat.holds(tree, node, leaf),
        tree.numeric_only(),
        tree.storable(),
        steps >= tree.splits(),
    ensures
        flat.walk(tree.link(node, leaf), row, steps) == tree.value(row).ok(),
    decreases tree,
{
    match tree {
        NodeView::Leaf { value } => {
            let at = leaf as i32;
            assert(0 <= at ==> !at == -at - 1) by (bit_vector);
            assert(flat.leaves[leaf] == flat.leaves.subrange(leaf, leaf + 1)[0]);
        },
        NodeView::Split { feature_idx, split, left, right, missing } => {
            lemma_children_held(flat, tree, node, leaf);
            lemma_walk(flat, *left, node + 1, leaf, row, (steps - 1) as nat);
            lemma_walk(
                flat,
                *right,
                node + 1 + left.splits(),
                leaf + left.tips(),
                row,
                (steps - 1) as nat,
            );
            if feature_idx < row.len() {
                flags_decide_alike(
                    split->Numeric_threshold,
                    split->operator,
                    missing,
                    row[feature_idx as int],
                );
            }
        },
    }
}

/// What stands in the arrays stays there when more is appended.
proof fn lemma_held_after_growth(flat: FlatView, more: FlatView, tree: NodeView, node: int, leaf: int)
    requires
        flat.aligned(),
        more.aligned(),
        flat.holds(tree, node, leaf),
        flat.feat.is_prefix_of(more.feat),
        flat.thr.is_prefix_of(more.thr),
        flat.flags.is_prefix_of(more.flags),
        flat.left.is_prefix_of(more.left),
        flat.right.is_prefix_of(more.right),
        flat.leaves.is_prefix_of(more.leaves),
    ensures
        more.holds(tree, node, leaf),
{
    let nodes = node + tree.splits();
    let leaves = leaf + tree.tips();
    assert(more.feat.subrange(node, nodes) =~= flat.feat.subrange(node, nodes));
    assert(more.thr.subrange(node, nodes) =~= flat.thr.subrange(node, nodes));
    assert(more.flags.subrange(node, nodes) =~= flat.flags.subrange(node, nodes));
    assert(more.left.subrange(node, nodes) =~= flat.left.subrange(node, nodes));
    assert(more.right.subrange(node, nodes) =~= flat.right.subrange(node, nodes));
    assert(more.leaves.subrange(leaf, leaves) =~= flat.leaves.subrange(leaf, leaves));
}

/// Where tree `i` of a list stands in the arrays of the list.
proof fn lemma_tree_held(trees: Seq<TreeView>, i: int)
    requires
        0 <= i < trees.len(),
    ensures
        FlatView::of(trees).aligned(),
        FlatView::of(trees).roots.len() == trees.len(),
        ({
            let before = FlatView::of(trees.take(i));
            let node = before.feat.len() as int;
            let leaf = before.leaves.len() as int;
            let root = trees[i].root;
            FlatView::of(trees).holds(root, node, leaf) && FlatView::of(trees).roots[i]
                == root.link(node, leaf)
        }),
    decreases trees.len(),
{
    let rest = trees.drop_last();
    let before = FlatView::of(rest);
    let flat = FlatView::of(trees);
    let last = trees.last().root;
    let node = before.feat.len() as int;
    let leaf = before.leaves.len() as int;
    lemma_flat_lengths(last, node, leaf);
    lemma_aligned(rest);
    if i == trees.len() - 1 {
        assert(trees.take(i) =~= rest);
        let nodes = node + last.splits();
        assert(flat.feat.subrange(node, nodes) =~= last.flat_features());
        assert(flat.thr.subrange(node, nodes) =~= last.flat_thresholds());
        assert(flat.flags.subrange(node, nodes) =~= last.flat_flags());
        assert(flat.left.subrange(node, nodes) =~= last.flat_left(node, leaf));
        assert(flat.right.subrange(node, nodes) =~= last.flat_right(node, leaf));
        assert(flat.leaves.subrange(leaf, leaf + last.tips()) =~= last.flat_leaves());
    } else {
        lemma_tree_held(rest, i);
        assert(rest.take(i) =~= trees.take(i));
        let at = FlatView::of(trees.take(i));
        assert(before.feat =~= flat.feat.subrange(0, before.feat.len() as int));
        assert(before.thr =~= flat.thr.subrange(0, before.thr.len() as int));
        assert(before.flags =~= flat.flags.subrange(0, before.flags.len() as int));
        assert(before.left =~= flat.left.subrange(0, before.left.len() as int));
        assert(before.right =~= flat.right.subrange(0, before.right.len() as int));
        assert(before.leaves =~= flat.leaves.subrange(0, before.leaves.len() as int));
        lemma_held_after_growth(
            before,
            flat,
            trees[i].root,
            at.feat.len() as int,
            at.leaves.len() as int,
        );
    }
}

proof fn lemma_aligned(trees: Seq<TreeView>)
    ensures
        FlatView::of(trees).aligned(),
        FlatView::of(trees).roots.len() == trees.len(),
        FlatView::of(trees).weights.len() == trees.len(),
    decreases trees.len(),
{
    if trees.len() > 0 {
        lemma_aligned(trees.drop_last());
        let before = FlatView::of(trees.drop_last());
        lemma_flat_lengths(
            trees.last().root,
            before.feat.len() as int,
            before.leaves.len() as int,
        );
    }
}

/// The walker, started at the root of a tree, ends within as many steps as the tree has
/// splits, returns the leaf that the interpreter reaches, and fails on the rows on which
/// the interpreter fails.
pub proof fn walker_computes_the_tree(trees: Seq<TreeView>, i: int, row: Seq<F32>, steps: nat)
    requires
        0 <= i < trees.len(),
        trees[i].root.numeric_only(),
        trees[i].root.storable(),
        FlatView::of(trees).fits(),
        steps >= trees[i].root.splits(),
    ensures
        FlatView::of(trees).walk(FlatView::of(trees).roots[i], row, steps)
            == trees[i].root.value(row).ok(),
{
    lemma_tree_held(trees, i);
    let before = FlatView::of(trees.take(i));
    lemma_walk(
        FlatView::of(trees),
        trees[i].root,
        before.feat.len() as int,
        before.leaves.len() as int,
        row,
        steps,
    );
}

/// The loop that a score becomes: what the walker returns for each root of the class, times its
/// weight if the loop is weighted, is added to the start in order; then the sum is divided.
pub ghost struct LoopView {
    pub start: F64,
    pub weighted: bool,
    pub divisor: Option<usize>,
}

impl LoopView {
    /// The loop that the score of class `c` becomes.
    pub open spec fn of(forest: ForestView, c: int) -> LoopView {
        LoopView {
            start: match forest.aggregation {
                AggregationKind::Sum => forest.bias(c),
                AggregationKind::Average => F64 { bits: 0 },
            },
            weighted: forest.weighted(),
            divisor: match forest.aggregation {
                AggregationKind::Sum => None,
                AggregationKind::Average => Some(
                    (forest.trees.len() as int / forest.classes() as int) as usize,
                ),
            },
        }
    }
}

impl FlatView {
    /// What the loop over the roots adds up for class `c` among the first `n` trees, each
    /// times its weight if the loop is weighted; nothing if the walker fails or takes more than
    /// `steps` steps in a tree of the class.
    pub open spec fn contributions(
        self,
        classes: int,
        c: int,
        weighted: bool,
        row: Seq<F32>,
        steps: nat,
        n: int,
    ) -> Option<Seq<Term>>
        decreases n,
    {
        if n <= 0 {
            Some(seq![])
        } else if (n - 1) % classes != c {
            self.contributions(classes, c, weighted, row, steps, n - 1)
        } else {
            match (
                self.contributions(classes, c, weighted, row, steps, n - 1),
                self.walk(self.roots[n - 1], row, steps),
            ) {
                (Some(terms), Some(leaf)) => Some(
                    terms.push(
                        Term {
                            leaf,
                            weight: if weighted {
                                self.weights[n - 1]
                            } else {
                                F64 { bits: ONE_BITS }
                            },
                        },
                    ),
                ),
                _ => None,
            }
        }
    }
}

proof fn lemma_weights(trees: Seq<TreeView>, i: int)
    requires
        0 <= i < trees.len(),
    ensures
        FlatView::of(trees).weights[i] == trees[i].weight,
    decreases trees.len(),
{
    let rest = trees.drop_last();
    lemma_aligned(rest);
    if i < rest.len() {
        lemma_weights(rest, i);
        assert(rest[i] == trees[i]);
    }
}

proof fn lemma_array_contributions(
    forest: ForestView,
    c: int,
    row: Seq<F32>,
    steps: nat,
    n: int,
)
    requires
        0 <= n <= forest.trees.len(),
        all_numeric(forest.trees),
        forall|i: int|
            0 <= i < forest.trees.len() ==> (#[trigger] forest.trees[i]).root.storable()
                && forest.trees[i].root.splits() <= steps,
        FlatView::of(forest.trees).fits(),
    ensures
        FlatView::of(forest.trees).contributions(
            forest.classes() as int,
            c,
            forest.weighted(),
            row,
            steps,
            n,
        ) == (if code::class_has_leaves(forest, row, c, n) {
            Some(forest.terms(row, c, n))
        } else {
            None
        }),
    decreases n,
{
    if n > 0 {
        let classes = forest.classes() as int;
        lemma_array_contributions(forest, c, row, steps, n - 1);
        lemma_weights(forest.trees, n - 1);
        walker_computes_the_tree(forest.trees, n - 1, row, steps);
        assert(code::class_has_leaves(forest, row, c, n) ==> code::class_has_leaves(
            forest,
            row,
            c,
            n - 1,
        ));
        if (n - 1) % classes == c && code::class_has_leaves(forest, row, c, n) {
            assert(forest.trees[n - 1].root.value(row) is Ok);
        }
    }
}

/// The loop of the array layout starts where the interpreter starts, adds the terms that the
/// interpreter lists, in the same order, and divides as the interpreter says. It fails on the
/// rows on which one of the trees fails.
pub proof fn array_scores_add_the_terms(forest: ForestView, c: int, row: Seq<F32>, steps: nat)
    requires
        all_numeric(forest.trees),
        forall|i: int|
            0 <= i < forest.trees.len() ==> (#[trigger] forest.trees[i]).root.storable()
                && forest.trees[i].root.splits() <= steps,
        FlatView::of(forest.trees).fits(),
    ensures
        FlatView::of(forest.trees).contributions(
            forest.classes() as int,
            c,
            LoopView::of(forest, c).weighted,
            row,
            steps,
            forest.trees.len() as int,
        ) == (if code::class_has_leaves(forest, row, c, forest.trees.len() as int) {
            Some(forest.score(row, c).terms)
        } else {
            None
        }),
        LoopView::of(forest, c).start == forest.score(row, c).start,
        LoopView::of(forest, c).divisor == forest.score(row, c).divisor,
{
    lemma_array_contributions(forest, c, row, steps, forest.trees.len() as int);
}

/// Appends a static array, from its name on.
pub open spec fn with_array<T: Token>(out: Seq<char>, head: Seq<char>, items: Seq<T>) -> Seq<char> {
    out + head + (items.len() as usize).spelling() + t::DATA_LENGTH@ + tokens::joined(
        tokens::spellings(items),
        tokens::COMMA@,
    ) + t::DATA_END@
}

/// Appends the static arrays and the walker. The weights are left out where they do not count.
pub open spec fn with_data_and_walker(out: Seq<char>, flat: FlatView, weighted: bool) -> Seq<
    char,
> {
    let feat = with_array(out, t::DATA_FEAT@, flat.feat);
    let thr = with_array(feat, t::DATA_THR@, flat.thr);
    let flags = with_array(thr, t::DATA_FLAGS@, flat.flags);
    let left = with_array(flags, t::DATA_LEFT@, flat.left);
    let right = with_array(left, t::DATA_RIGHT@, flat.right);
    let leaves = with_array(right, t::DATA_LEAVES@, flat.leaves);
    let roots = with_array(leaves, t::DATA_ROOTS@, flat.roots);
    let weights = if weighted {
        with_array(roots, t::DATA_WEIGHTS@, flat.weights)
    } else {
        roots
    };
    weights + t::WALKER_MISSING@ + FLAG_MISSING_LEFT.spelling() + t::WALKER_NA@
        + FLAG_NA_VS_REST.spelling() + t::WALKER_OP@ + OP_MASK.spelling() + t::WALKER_END@
}

/// Appends the score of a model with one output.
pub open spec fn with_accumulated(out: Seq<char>, forest: ForestView) -> Seq<char> {
    let n = forest.trees.len() as usize;
    let score = LoopView::of(forest, 0);
    match score.divisor {
        None => out + t::ACC_START@ + score.start.spelling() + t::ACC_LOOP@ + n.spelling()
            + t::ACC_END@,
        Some(divisor) => rust::with_count(
            out + t::MEAN_LOOP@ + n.spelling() + t::MEAN_DIVIDE@,
            divisor as int,
        ) + t::MEAN_END@,
    }
}

/// The start values of the class scores.
pub open spec fn starts(forest: ForestView) -> Seq<F64> {
    Seq::new(forest.classes(), |c: int| LoopView::of(forest, c).start)
}

/// Appends the start values of the class scores.
pub open spec fn with_start(out: Seq<char>, forest: ForestView) -> Seq<char> {
    match forest.aggregation {
        AggregationKind::Sum => out + t::LIST_OPEN@ + tokens::joined(
            tokens::spellings(starts(forest)),
            tokens::COMMA@,
        ) + t::LIST_CLOSE@,
        AggregationKind::Average => out + t::ZEROS_OPEN@ + (forest.classes() as usize).spelling()
            + t::ZEROS_CLOSE@,
    }
}

/// Appends the computation of the exponentials of the class scores.
pub open spec fn with_core(out: Seq<char>, forest: ForestView, no_std: bool) -> Seq<char> {
    let n = forest.classes() as usize;
    let trees = forest.trees.len() as usize;
    let raw = with_start(out + t::RAW_CLASSES@ + n.spelling() + t::RAW_START@, forest)
        + t::RAW_LOOP@ + trees.spelling() + t::RAW_CLASS@ + n.spelling() + t::RAW_ADD@;
    let averaged = match LoopView::of(forest, 0).divisor {
        None => raw,
        Some(divisor) => rust::with_count(raw + t::RAW_DIVIDE@, divisor as int)
            + t::RAW_DIVIDE_END@,
    };
    let head = averaged + t::SOFT_MAX@ + n.spelling() + t::SOFT_LOOP@ + n.spelling()
        + t::SOFT_EXP@;
    rust::with_exp(head, t::SOFT_DIFFERENCE@, no_std) + t::SOFT_END@
}

/// Appends the model with several outputs, up to the data.
pub open spec fn with_softmax(out: Seq<char>, forest: ForestView, no_std: bool) -> Seq<char> {
    let n = forest.classes() as usize;
    let head = out + t::ARRAY_SOFTMAX_OPEN@ + n.spelling();
    if no_std {
        with_core(head + t::PROBA_INTO_OPEN@, forest, no_std) + t::INTO_LOOP@ + n.spelling()
            + t::INTO_STORE@ + n.spelling() + t::INTO_BATCH@
    } else {
        with_core(head + t::PROBA_OPEN@, forest, no_std) + t::OUT_CAPACITY@ + n.spelling()
            + t::OUT_LOOP@ + n.spelling() + t::OUT_PUSH@ + n.spelling() + t::OUT_BATCH@
    }
}

/// Appends the model with one output, up to the data.
pub open spec fn with_scalar(out: Seq<char>, forest: ForestView, no_std: bool) -> Seq<char> {
    rust::with_transform(
        with_accumulated(out + t::ARRAY_SCALAR_OPEN@, forest) + t::SPACE@,
        forest.post_transform,
        no_std,
    ) + t::ARRAY_SCALAR_CLOSE@
}

/// The source of a forest in the array layout.
pub open spec fn array_source(forest: ForestView, no_std: bool) -> Seq<char> {
    let model = if forest.post_transform is Softmax {
        with_softmax(seq![], forest, no_std)
    } else {
        with_scalar(seq![], forest, no_std)
    };
    with_data_and_walker(model, FlatView::of(forest.trees), LoopView::of(forest, 0).weighted)
}

/// Why no source can be generated for a forest in the array layout.
pub open spec fn array_failure(forest: ForestView) -> Option<FailureView> {
    let flat = FlatView::of(forest.trees);
    if !all_numeric(forest.trees) {
        Some(FailureView::Plain(Problem::ArrayNumericOnly))
    } else if !flat.fits() {
        Some(
            FailureView::Plain(
                Problem::ForestTooLarge {
                    nodes: flat.feat.len() as usize,
                    leaves: flat.leaves.len() as usize,
                },
            ),
        )
    } else {
        rust::softmax_failure(forest)
    }
}

fn push_array<T: Token>(out: &mut String, head: &str, items: &Vec<T>)
    ensures
        final(out)@ == with_array(old(out)@, head@, items@),
{
    out.append(head);
    items.len().put(out);
    out.append(t::DATA_LENGTH);
    tokens::push_list(out, items);
    out.append(t::DATA_END);
}

/// Appends the static arrays and the walker that all models share.
fn build_data_and_walker(out: &mut String, flat: &FlatForest, weighted: bool)
    ensures
        final(out)@ == with_data_and_walker(old(out)@, flat@, weighted),
{
    push_array(out, t::DATA_FEAT, &flat.feat);
    push_array(out, t::DATA_THR, &flat.thr);
    push_array(out, t::DATA_FLAGS, &flat.flags);
    push_array(out, t::DATA_LEFT, &flat.left);
    push_array(out, t::DATA_RIGHT, &flat.right);
    push_array(out, t::DATA_LEAVES, &flat.leaves);
    push_array(out, t::DATA_ROOTS, &flat.roots);
    if weighted {
        push_array(out, t::DATA_WEIGHTS, &flat.weights);
    }
    out.append(t::WALKER_MISSING);
    FLAG_MISSING_LEFT.put(out);
    out.append(t::WALKER_NA);
    FLAG_NA_VS_REST.put(out);
    out.append(t::WALKER_OP);
    OP_MASK.put(out);
    out.append(t::WALKER_END);
}

fn push_scalar(out: &mut String, forest: &Forest, no_std: bool)
    requires
        !(forest.post_transform is Softmax),
    ensures
        final(out)@ == with_scalar(old(out)@, forest@, no_std),
{
    out.append(t::ARRAY_SCALAR_OPEN);
    match forest.aggregation {
        AggregationKind::Sum => {
            out.append(t::ACC_START);
            forest.base_score.put(out);
            out.append(t::ACC_LOOP);
            forest.trees.len().put(out);
            out.append(t::ACC_END);
        },
        AggregationKind::Average => {
            out.append(t::MEAN_LOOP);
            forest.trees.len().put(out);
            out.append(t::MEAN_DIVIDE);
            rust::push_count(out, forest.trees.len());
            out.append(t::MEAN_END);
        },
    }
    out.append(t::SPACE);
    rust::post_transform_expr(out, forest.post_transform, no_std);
    out.append(t::ARRAY_SCALAR_CLOSE);
}

fn push_start(out: &mut String, forest: &Forest, n_classes: usize)
    requires
        n_classes == forest@.classes(),
    ensures
        final(out)@ == with_start(old(out)@, forest@),
{
    match forest.aggregation {
        AggregationKind::Sum => {
            let mut bases: Vec<F64> = Vec::new();
            let mut c: usize = 0;
            while c < n_classes
                invariant
                    c <= n_classes == forest@.classes(),
                    forest.aggregation == AggregationKind::Sum,
                    bases@ == starts(forest@).take(c as int),
                decreases n_classes - c,
            {
                bases.push(rust::bias_of(forest, c));
                c = c + 1;
            }
            assert(bases@ =~= starts(forest@));
            out.append(t::LIST_OPEN);
            tokens::push_list(out, &bases);
            out.append(t::LIST_CLOSE);
        },
        AggregationKind::Average => {
            out.append(t::ZEROS_OPEN);
            n_classes.put(out);
            out.append(t::ZEROS_CLOSE);
        },
    }
}

fn push_core(out: &mut String, forest: &Forest, n_classes: usize, no_std: bool)
    requires
        n_classes == forest@.classes(),
        n_classes > 0,
    ensures
        final(out)@ == with_core(old(out)@, forest@, no_std),
{
    out.append(t::RAW_CLASSES);
    n_classes.put(out);
    out.append(t::RAW_START);
    push_start(out, forest, n_classes);
    out.append(t::RAW_LOOP);
    forest.trees.len().put(out);
    out.append(t::RAW_CLASS);
    n_classes.put(out);
    out.append(t::RAW_ADD);
    match forest.aggregation {
        AggregationKind::Sum => {},
        AggregationKind::Average => {
            out.append(t::RAW_DIVIDE);
            rust::push_count(out, forest.trees.len() / n_classes);
            out.append(t::RAW_DIVIDE_END);
        },
    }
    out.append(t::SOFT_MAX);
    n_classes.put(out);
    out.append(t::SOFT_LOOP);
    n_classes.put(out);
    out.append(t::SOFT_EXP);
    rust::exp_expr(out, t::SOFT_DIFFERENCE, no_std);
    out.append(t::SOFT_END);
}

fn build_softmax(out: &mut String, forest: &Forest, n_classes: usize, no_std: bool)
    requires
        n_classes == forest@.classes(),
        n_classes > 0,
    ensures
        final(out)@ == with_softmax(old(out)@, forest@, no_std),
{
    out.append(t::ARRAY_SOFTMAX_OPEN);
    n_classes.put(out);
    if no_std {
        out.append(t::PROBA_INTO_OPEN);
        push_core(out, forest, n_classes, no_std);
        out.append(t::INTO_LOOP);
        n_classes.put(out);
        out.append(t::INTO_STORE);
        n_classes.put(out);
        out.append(t::INTO_BATCH);
    } else {
        out.append(t::PROBA_OPEN);
        push_core(out, forest, n_classes, no_std);
        out.append(t::OUT_CAPACITY);
        n_classes.put(out);
        out.append(t::OUT_LOOP);
        n_classes.put(out);
        out.append(t::OUT_PUSH);
        n_classes.put(out);
        out.append(t::OUT_BATCH);
    }
}

/// Generates a standalone Rust source file in the array layout. The scores are added up as
/// in the if/else layout, in the same order.
pub fn generate(forest: &Forest, no_std: bool) -> (r: Result<String, Failure>)
    requires
        array_failure(forest@) is None ==> forest@.literal(),
    ensures
        match r {
            Ok(code) => array_failure(forest@) is None && code@ == array_source(forest@, no_std),
            Err(e) => array_failure(forest@) == Some(e@),
        },
{
    let flat = match FlatForest::from_trees(&forest.trees) {
        Ok(flat) => flat,
        Err(e) => {
            return Err(e);
        },
    };
    match rust::softmax_refusal(forest) {
        Some(e) => {
            return Err(e);
        },
        None => {},
    }
    let mut out = String::new();
    match forest.post_transform {
        PostTransform::Softmax { n_classes } => {
            build_softmax(&mut out, forest, n_classes, no_std);
        },
        _ => {
            push_scalar(&mut out, forest, no_std);
        },
    }
    build_data_and_walker(&mut out, &flat, interpreter::weights_count(forest));
    Ok(out)
}

/// The text of the loop for several outputs, up to the division of averaged scores.
pub open spec fn with_summed(out: Seq<char>, forest: ForestView) -> Seq<char> {
    let n = text::decimal(forest.classes()) + "usize"@;
    let trees = text::decimal(forest.trees.len() as usize as nat) + "usize"@;
    let head = out + "let mut raw : [f64 ; "@ + n + "] = "@;
    let begun = match forest.aggregation {
        AggregationKind::Sum => head + "["@ + tokens::joined(
            tokens::spellings(Seq::new(forest.classes(), |c: int| forest.bias(c))),
            " , "@,
        ) + "]"@,
        AggregationKind::Average => head + "[0.0f64 ; "@ + n + "]"@,
    };
    begun + " ; for t in 0 .. "@ + trees + " { raw [t % "@ + n
        + "] += eval_tree (ROOTS [t] , features) * WEIGHTS [t] ; }"@
}

/// The loop for several outputs starts from the biases, or from zero where it averages; adds
/// what tree `t` returns, times its weight, to the score of class `t` modulo the number of
/// classes; divides averaged scores by the number of trees per class; and takes the exponential
/// of every score less the greatest. All of it is spelled as Rust spells it.
pub proof fn loops_are_spelled_as_rust(out: Seq<char>, forest: ForestView, no_std: bool)
    requires
        forest.post_transform is Softmax,
    ensures
        ({
            let n = text::decimal(forest.classes()) + "usize"@;
            let summed = with_summed(out, forest);
            let scored = match forest.aggregation {
                AggregationKind::Sum => summed,
                AggregationKind::Average => summed + " for r in raw . iter_mut () { * r /= "@
                    + text::decimal(
                    (forest.trees.len() as int / forest.classes() as int) as usize as nat,
                ) + "f64"@ + " ; }"@,
            };
            let head = scored
                + " let mut max_raw = raw [0] ; for r in raw . iter () . skip (1) { if * r > max_raw { max_raw = * r ; } } let mut e = [0.0f64 ; "@
                + n + "] ; let mut sum_e = 0.0f64 ; for j in 0 .. "@ + n + " { e [j] = "@;
            with_core(out, forest, no_std) == (if no_std {
                head + "libm :: exp ("@ + "raw [j] - max_raw"@ + ")"@
            } else {
                head + "("@ + "raw [j] - max_raw"@ + ") . exp ()"@
            }) + " ; sum_e += e [j] ; }"@
        }),
{
    assert(forest.classes() <= usize::MAX);
    if forest.aggregation == AggregationKind::Sum {
        assert(starts(forest) =~= Seq::new(forest.classes(), |c: int| forest.bias(c)));
    }
}

/// Every output of the array layout is its exponential's share of their sum, and a batch holds
/// the outputs of its rows side by side.
pub proof fn outputs_are_spelled_as_rust(out: Seq<char>, forest: ForestView)
    requires
        forest.post_transform is Softmax,
    ensures
        ({
            let n = text::decimal(forest.classes()) + "usize"@;
            let head = out
                + "# [doc = r\" Auto-generated by bonsai (array layout).\"] # [doc = r\" Do not edit manually.\"] pub struct Model ; # [allow (dead_code)] impl Model { pub const N_CLASSES : usize = "@
                + n;
            &&& with_softmax(out, forest, false) == with_core(
                head
                    + " ; pub fn predict_proba (& self , features : & [f32]) -> Vec < f32 > { "@,
                forest,
                false,
            ) + " let mut out = Vec :: with_capacity ("@ + n + ") ; for j in 0 .. "@ + n
                + " { out . push ((e [j] / sum_e) as f32) ; } out } pub fn predict_batch (& self , features : & [f32] , n_features : usize , out : & mut [f32]) { let n_classes = "@
                + n
                + " ; for (i , row) in features . chunks_exact (n_features) . enumerate () { let probs = self . predict_proba (row) ; for (j , prob) in probs . into_iter () . enumerate () { out [i * n_classes + j] = prob ; } } } } "@
            &&& with_softmax(out, forest, true) == with_core(
                head
                    + " ; pub fn predict_proba_into (& self , features : & [f32] , out : & mut [f32]) { "@,
                forest,
                true,
            ) + " for j in 0 .. "@ + n
                + " { out [j] = (e [j] / sum_e) as f32 ; } } pub fn predict_batch (& self , features : & [f32] , n_features : usize , out : & mut [f32]) { let n_classes = "@
                + n
                + " ; for (i , row) in features . chunks_exact (n_features) . enumerate () { self . predict_proba_into (row , & mut out [i * n_classes .. (i + 1) * n_classes]) ; } } } "@
        }),
{
    assert(forest.classes() <= usize::MAX);
}

} // verus!
