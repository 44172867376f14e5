//! What the generated tree functions compute.
//!
//! A tree becomes nested branches, or, if it is oblivious, a lookup of a leaf by the
//! outcomes of its tests. This module gives both forms a meaning of their own and proves
//! that they return the leaf that the tests of the tree select, which is the leaf that the
//! interpreter reaches where no test is on a counter.
#[allow(unused_imports)]
use crate::interpreter;
#[allow(unused_imports)]
use crate::interpreter::{ArithmeticView, ScoreView, Term};
#[allow(unused_imports)]
use crate::ir::{
    AggregationKind, ForestView, LevelView, MissingDirection, NodeView, Operator, SplitView,
    TreeView,
};
#[allow(unused_imports)]
use crate::number::{F32, F64, ONE_BITS};
use vstd::prelude::*;

verus! {

/// The test that a generated branch makes of the feature value `val`.
pub ghost enum ConditionView {
    /// `! val . is_nan ()`.
    Present,
    /// A comparison; `missing_left` tells whether NaN passes the test.
    Compare { missing_left: bool, operator: Operator, threshold: F32 },
    /// Absence from a set; `missing_left` tells whether NaN passes the test.
    Outside { missing_left: bool, bitoff: u16, nbits: u32, data: Seq<u8> },
    /// A comparison of a counter.
    Counter { ctr_idx: usize, threshold: F32 },
}

impl ConditionView {
    /// The test that a split becomes.
    pub open spec fn of(split: SplitView, missing: MissingDirection) -> ConditionView {
        if missing == MissingDirection::NaVsRest {
            ConditionView::Present
        } else {
            let missing_left = missing == MissingDirection::Left;
            match split {
                SplitView::Numeric { threshold, operator } => ConditionView::Compare {
                    missing_left,
                    operator,
                    threshold,
                },
                SplitView::Categorical { bitoff, nbits, data } => ConditionView::Outside {
                    missing_left,
                    bitoff,
                    nbits,
                    data,
                },
                SplitView::OnlineCtr { ctr_idx, threshold } => ConditionView::Counter {
                    ctr_idx,
                    threshold,
                },
            }
        }
    }

    /// Whether the test can be made: a counter has to be there.
    pub open spec fn defined(self, ctrs: Seq<F64>) -> bool {
        match self {
            ConditionView::Counter { ctr_idx, .. } => ctr_idx < ctrs.len(),
            _ => true,
        }
    }

    /// The outcome of the test. The set helper subtracts the offset from the category as
    /// 32-bit integers; the outcome is that of a subtraction that does not overflow.
    pub open spec fn holds(self, val: F32, ctrs: Seq<F64>) -> bool {
        match self {
            ConditionView::Present => !val.nan(),
            ConditionView::Compare { missing_left, operator, threshold } => {
                let outcome = interpreter::compares(operator, val, threshold);
                if missing_left {
                    val.nan() || outcome
                } else {
                    !val.nan() && outcome
                }
            },
            ConditionView::Outside { missing_left, bitoff, nbits, data } => {
                let inside = interpreter::member(
                    bitoff as int,
                    nbits as int,
                    data,
                    val.truncated(),
                );
                if missing_left {
                    val.nan() || !inside
                } else {
                    !val.nan() && !inside
                }
            },
            ConditionView::Counter { ctr_idx, threshold } => threshold.widened().at_most(
                ctrs[ctr_idx as int],
            ),
        }
    }
}

/// The body of a generated tree function in nested form.
pub ghost enum CodeView {
    Value(F64),
    Branch {
        feature_idx: usize,
        condition: ConditionView,
        yes: Box<CodeView>,
        no: Box<CodeView>,
    },
}

impl CodeView {
    /// The nested branches that a tree becomes.
    pub open spec fn of(node: NodeView) -> CodeView
        decreases node,
    {
        match node {
            NodeView::Leaf { value } => CodeView::Value(value),
            NodeView::Split { feature_idx, split, left, right, missing } => CodeView::Branch {
                feature_idx,
                condition: ConditionView::of(split, missing),
                yes: Box::new(CodeView::of(*left)),
                no: Box::new(CodeView::of(*right)),
            },
        }
    }

    /// What the branches return; nothing if they read a feature or counter that is not
    /// there.
    pub open spec fn run(self, row: Seq<F32>, ctrs: Seq<F64>) -> Option<F64>
        decreases self,
    {
        match self {
            CodeView::Value(value) => Some(value),
            CodeView::Branch { feature_idx, condition, yes, no } => {
                if feature_idx >= row.len() || !condition.defined(ctrs) {
                    None
                } else if condition.holds(row[feature_idx as int], ctrs) {
                    yes.run(row, ctrs)
                } else {
                    no.run(row, ctrs)
                }
            },
        }
    }
}

/// The position of the leaf that the outcomes of the tests select, the first test being
/// the highest bit.
pub open spec fn position(levels: Seq<LevelView>, row: Seq<F32>, ctrs: Seq<F64>) -> int
    decreases levels.len(),
{
    if levels.len() == 0 {
        0
    } else {
        let level = levels[0];
        let rest = position(levels.skip(1), row, ctrs);
        if ConditionView::of(level.split, level.missing).holds(
            row[level.feature_idx as int],
            ctrs,
        ) {
            vstd::arithmetic::power2::pow2((levels.len() - 1) as nat) + rest
        } else {
            rest
        }
    }
}

/// Whether all tests can be made.
pub open spec fn readable(levels: Seq<LevelView>, row: Seq<F32>, ctrs: Seq<F64>) -> bool {
    forall|i: int|
        0 <= i < levels.len() ==> (#[trigger] levels[i]).feature_idx < row.len()
            && ConditionView::of(levels[i].split, levels[i].missing).defined(ctrs)
}

/// What the lookup of a leaf returns; nothing if a test reads what is not there.
pub open spec fn lookup(
    levels: Seq<LevelView>,
    leaves: Seq<F64>,
    row: Seq<F32>,
    ctrs: Seq<F64>,
) -> Option<F64> {
    let at = position(levels, row, ctrs);
    if readable(levels, row, ctrs) && 0 <= at < leaves.len() {
        Some(leaves[at])
    } else {
        None
    }
}

/// One test of the lookup of a leaf, and what it adds to the position of the leaf if it holds.
pub ghost struct TestView {
    pub feature_idx: usize,
    pub condition: ConditionView,
    pub bit: nat,
}

/// The body of a generated tree function that looks up a leaf: the tests, each with its bit of
/// the position, and the leaves.
pub ghost struct LookupView {
    pub tests: Seq<TestView>,
    pub leaves: Seq<F64>,
}

impl LookupView {
    /// The lookup that the tests and leaves of an oblivious tree become.
    pub open spec fn of(levels: Seq<LevelView>, leaves: Seq<F64>) -> LookupView {
        LookupView {
            tests: Seq::new(
                levels.len(),
                |i: int|
                    TestView {
                        feature_idx: levels[i].feature_idx,
                        condition: ConditionView::of(levels[i].split, levels[i].missing),
                        bit: vstd::arithmetic::power2::pow2((levels.len() - 1 - i) as nat),
                    },
            ),
            leaves,
        }
    }

    /// What the first `n` tests add up to. Their bits differ, so that setting them adds them.
    pub open spec fn index(self, row: Seq<F32>, ctrs: Seq<F64>, n: int) -> int
        decreases n,
    {
        if n <= 0 {
            0
        } else {
            let test = self.tests[n - 1];
            self.index(row, ctrs, n - 1) + (if test.condition.holds(
                row[test.feature_idx as int],
                ctrs,
            ) {
                test.bit as int
            } else {
                0
            })
        }
    }

    /// What the lookup returns; nothing if a test reads what is not there.
    pub open spec fn run(self, row: Seq<F32>, ctrs: Seq<F64>) -> Option<F64> {
        let at = self.index(row, ctrs, self.tests.len() as int);
        if (forall|i: int|
            0 <= i < self.tests.len() ==> (#[trigger] self.tests[i]).feature_idx < row.len()
                && self.tests[i].condition.defined(ctrs)) && 0 <= at < self.leaves.len() {
            Some(self.leaves[at])
        } else {
            None
        }
    }
}

/// What the function generated for a tree returns.
pub open spec fn outcome(node: NodeView, row: Seq<F32>, ctrs: Seq<F64>) -> Option<F64> {
    if node.oblivious() {
        LookupView::of(node.spine(), node.leaves()).run(row, ctrs)
    } else {
        CodeView::of(node).run(row, ctrs)
    }
}

impl SplitView {
    /// Whether the split can be decided: a counter that it reads has to be there.
    pub open spec fn answered(self, missing: MissingDirection, ctrs: Seq<F64>) -> bool {
        missing == MissingDirection::NaVsRest || (self matches SplitView::OnlineCtr {
            ctr_idx,
            ..
        } ==> ctr_idx < ctrs.len())
    }

    /// Whether a row goes left, given the value of the split's feature and the counters: a
    /// counter goes left if it is at least the threshold.
    pub open spec fn passes(self, missing: MissingDirection, value: F32, ctrs: Seq<F64>) -> bool {
        match self {
            SplitView::OnlineCtr { ctr_idx, threshold } if missing != MissingDirection::NaVsRest =>
            threshold.widened().at_most(ctrs[ctr_idx as int]),
            _ => self.goes_left(missing, value),
        }
    }
}

impl NodeView {
    /// The leaf value that the tests select for a row with the given counters; nothing if a
    /// test reads a feature or counter that is not there.
    pub open spec fn selected(self, row: Seq<F32>, ctrs: Seq<F64>) -> Option<F64>
        decreases self,
    {
        match self {
            NodeView::Leaf { value } => Some(value),
            NodeView::Split { feature_idx, split, left, right, missing } => {
                if feature_idx >= row.len() || !split.answered(missing, ctrs) {
                    None
                } else if split.passes(missing, row[feature_idx as int], ctrs) {
                    left.selected(row, ctrs)
                } else {
                    right.selected(row, ctrs)
                }
            },
        }
    }

    /// Whether no split of the tree reads a counter.
    pub open spec fn counter_free(self) -> bool
        decreases self,
    {
        match self {
            NodeView::Leaf { .. } => true,
            NodeView::Split { split, left, right, missing, .. } => split.decidable(missing)
                && left.counter_free() && right.counter_free(),
        }
    }
}

/// The generated test can be made where the split can be decided, and decides alike.
pub proof fn condition_decides_the_split(
    split: SplitView,
    missing: MissingDirection,
    val: F32,
    ctrs: Seq<F64>,
)
    ensures
        ConditionView::of(split, missing).defined(ctrs) == split.answered(missing, ctrs),
        ConditionView::of(split, missing).holds(val, ctrs) == split.passes(missing, val, ctrs),
{
}

/// The generated test decides as the interpreter does.
pub proof fn condition_decides_alike(
    split: SplitView,
    missing: MissingDirection,
    val: F32,
    ctrs: Seq<F64>,
)
    requires
        split.decidable(missing),
    ensures
        ConditionView::of(split, missing).defined(ctrs),
        ConditionView::of(split, missing).holds(val, ctrs) == split.goes_left(missing, val),
{
}

/// Where no test is on a counter, the leaf that the tests select is the leaf that the
/// interpreter reaches, and no leaf is selected on the rows on which it fails.
pub proof fn interpreter_reaches_the_selected_leaf(node: NodeView, row: Seq<F32>, ctrs: Seq<F64>)
    requires
        node.counter_free(),
    ensures
        node.selected(row, ctrs) == node.value(row).ok(),
    decreases node,
{
    if let NodeView::Split { left, right, .. } = node {
        interpreter_reaches_the_selected_leaf(*left, row, ctrs);
        interpreter_reaches_the_selected_leaf(*right, row, ctrs);
    }
}

/// Nested branches return the leaf that the tests select.
pub proof fn branches_return_the_selected_leaf(node: NodeView, row: Seq<F32>, ctrs: Seq<F64>)
    ensures
        CodeView::of(node).run(row, ctrs) == node.selected(row, ctrs),
    decreases node,
{
    if let NodeView::Split { feature_idx, split, left, right, missing } = node {
        branches_return_the_selected_leaf(*left, row, ctrs);
        branches_return_the_selected_leaf(*right, row, ctrs);
        condition_decides_the_split(split, missing, row[feature_idx as int], ctrs);
    }
}

/// Nested branches return the leaf that the interpreter reaches, and fail on the rows on
/// which it fails.
pub proof fn branches_compute_the_tree(node: NodeView, row: Seq<F32>, ctrs: Seq<F64>)
    requires
        node.counter_free(),
    ensures
        CodeView::of(node).run(row, ctrs) == node.value(row).ok(),
{
    branches_return_the_selected_leaf(node, row, ctrs);
    interpreter_reaches_the_selected_leaf(node, row, ctrs);
}

/// A tree that follows `n` tests has 2^n leaves.
proof fn lemma_follower_leaves(node: NodeView, levels: Seq<LevelView>)
    requires
        node.follows(levels),
    ensures
        node.leaves().len() == vstd::arithmetic::power2::pow2(levels.len()),
    decreases node,
{
    match node {
        NodeView::Leaf { .. } => {
            vstd::arithmetic::power2::lemma2_to64();
        },
        NodeView::Split { left, right, .. } => {
            lemma_follower_leaves(*left, levels.skip(1));
            lemma_follower_leaves(*right, levels.skip(1));
            vstd::arithmetic::power2::lemma_pow2_unfold(levels.len());
        },
    }
}

/// An oblivious tree with `n` tests has 2^n leaves.
pub proof fn oblivious_leaf_count(node: NodeView)
    requires
        node.oblivious(),
    ensures
        node.leaves().len() == vstd::arithmetic::power2::pow2(node.spine().len()),
    decreases node,
{
    match node {
        NodeView::Leaf { .. } => {
            vstd::arithmetic::power2::lemma2_to64();
        },
        NodeView::Split { left, right, .. } => {
            oblivious_leaf_count(*left);
            lemma_follower_leaves(*right, left.spine());
            vstd::arithmetic::power2::lemma_pow2_unfold(node.spine().len());
        },
    }
}

proof fn lemma_position(levels: Seq<LevelView>, row: Seq<F32>, ctrs: Seq<F64>)
    ensures
        0 <= position(levels, row, ctrs) < vstd::arithmetic::power2::pow2(levels.len()),
    decreases levels.len(),
{
    if levels.len() == 0 {
        vstd::arithmetic::power2::lemma2_to64();
    } else {
        lemma_position(levels.skip(1), row, ctrs);
        vstd::arithmetic::power2::lemma_pow2_unfold(levels.len());
    }
}

/// Tests that agree have the same outcome on every value.
proof fn lemma_agreeing_tests(a: LevelView, b: LevelView, val: F32, ctrs: Seq<F64>)
    requires
        a.agrees(b),
    ensures
        a.split.answered(a.missing, ctrs) == b.split.answered(b.missing, ctrs),
        a.split.passes(a.missing, val, ctrs) == b.split.passes(b.missing, val, ctrs),
{
    if let SplitView::OnlineCtr { threshold: t, .. } = a.split {
        if let SplitView::OnlineCtr { threshold: u, .. } = b.split {
            assert(t.widened().rank() == u.widened().rank());
        }
    }
}

proof fn lemma_readable_step(levels: Seq<LevelView>, row: Seq<F32>, ctrs: Seq<F64>)
    requires
        levels.len() > 0,
    ensures
        readable(levels, row, ctrs) <==> levels[0].feature_idx < row.len() && ConditionView::of(
            levels[0].split,
            levels[0].missing,
        ).defined(ctrs) && readable(levels.skip(1), row, ctrs),
{
    let rest = levels.skip(1);
    if levels[0].feature_idx < row.len() && ConditionView::of(
        levels[0].split,
        levels[0].missing,
    ).defined(ctrs) && readable(rest, row, ctrs) {
        assert forall|i: int| 0 <= i < levels.len() implies (#[trigger] levels[i]).feature_idx
            < row.len() && ConditionView::of(levels[i].split, levels[i].missing).defined(ctrs) by {
            if i > 0 {
                assert(levels[i] == rest[i - 1]);
            }
        }
    }
    if readable(levels, row, ctrs) {
        assert forall|i: int| 0 <= i < rest.len() implies (#[trigger] rest[i]).feature_idx
            < row.len() && ConditionView::of(rest[i].split, rest[i].missing).defined(ctrs) by {
            assert(rest[i] == levels[i + 1]);
        }
    }
}

/// Looking up a leaf by the tests that a tree follows gives the leaf that its tests select.
proof fn lemma_follower_lookup(
    node: NodeView,
    levels: Seq<LevelView>,
    row: Seq<F32>,
    ctrs: Seq<F64>,
)
    requires
        node.follows(levels),
    ensures
        lookup(levels, node.leaves(), row, ctrs) == node.selected(row, ctrs),
    decreases node,
{
    lemma_follower_leaves(node, levels);
    lemma_position(levels, row, ctrs);
    if let NodeView::Split { feature_idx, split, left, right, missing } = node {
        let rest = levels.skip(1);
        lemma_follower_lookup(*left, rest, row, ctrs);
        lemma_follower_lookup(*right, rest, row, ctrs);
        lemma_follower_leaves(*left, rest);
        lemma_follower_leaves(*right, rest);
        lemma_position(rest, row, ctrs);
        lemma_readable_step(levels, row, ctrs);
        let val = row[feature_idx as int];
        lemma_agreeing_tests(levels[0], node.level(), val, ctrs);
        condition_decides_the_split(levels[0].split, levels[0].missing, val, ctrs);
    }
}

proof fn lemma_oblivious_lookup(node: NodeView, row: Seq<F32>, ctrs: Seq<F64>)
    requires
        node.oblivious(),
    ensures
        lookup(node.spine(), node.leaves(), row, ctrs) == node.selected(row, ctrs),
    decreases node,
{
    oblivious_leaf_count(node);
    lemma_position(node.spine(), row, ctrs);
    match node {
        NodeView::Leaf { value } => {
            assert(node.leaves()[0] == value);
        },
        NodeView::Split { feature_idx, split, left, right, missing } => {
            let levels = node.spine();
            let rest = left.spine();
            assert(levels.skip(1) =~= rest);
            lemma_oblivious_lookup(*left, row, ctrs);
            lemma_follower_lookup(*right, rest, row, ctrs);
            oblivious_leaf_count(*left);
            lemma_follower_leaves(*right, rest);
            lemma_position(rest, row, ctrs);
            lemma_readable_step(levels, row, ctrs);
            condition_decides_the_split(split, missing, row[feature_idx as int], ctrs);
        },
    }
}

proof fn lemma_index_step(
    levels: Seq<LevelView>,
    leaves: Seq<F64>,
    row: Seq<F32>,
    ctrs: Seq<F64>,
    n: int,
)
    requires
        0 < n <= levels.len(),
    ensures
        ({
            let all = LookupView::of(levels, leaves);
            let rest = LookupView::of(levels.skip(1), leaves);
            all.index(row, ctrs, n) == all.index(row, ctrs, 1) + rest.index(row, ctrs, n - 1)
        }),
    decreases n,
{
    let all = LookupView::of(levels, leaves);
    let rest = LookupView::of(levels.skip(1), leaves);
    if n > 1 {
        lemma_index_step(levels, leaves, row, ctrs, n - 1);
        assert(all.tests[n - 1] == rest.tests[n - 2]);
    }
}

proof fn lemma_index(levels: Seq<LevelView>, leaves: Seq<F64>, row: Seq<F32>, ctrs: Seq<F64>)
    ensures
        LookupView::of(levels, leaves).index(row, ctrs, levels.len() as int) == position(
            levels,
            row,
            ctrs,
        ),
    decreases levels.len(),
{
    if levels.len() > 0 {
        let all = LookupView::of(levels, leaves);
        lemma_index(levels.skip(1), leaves, row, ctrs);
        lemma_index_step(levels, leaves, row, ctrs, levels.len() as int);
        assert(all.index(row, ctrs, 0) == 0);
        assert(all.tests[0].bit == vstd::arithmetic::power2::pow2((levels.len() - 1) as nat));
        assert(all.index(row, ctrs, 1) == (if all.tests[0].condition.holds(
            row[all.tests[0].feature_idx as int],
            ctrs,
        ) {
            all.tests[0].bit as int
        } else {
            0
        }));
    }
}

proof fn lemma_run(levels: Seq<LevelView>, leaves: Seq<F64>, row: Seq<F32>, ctrs: Seq<F64>)
    ensures
        LookupView::of(levels, leaves).run(row, ctrs) == lookup(levels, leaves, row, ctrs),
{
    lemma_index(levels, leaves, row, ctrs);
    let all = LookupView::of(levels, leaves);
    if readable(levels, row, ctrs) {
        assert forall|i: int| 0 <= i < all.tests.len() implies (
        #[trigger] all.tests[i]).feature_idx < row.len() && all.tests[i].condition.defined(
            ctrs,
        ) by {
            assert(levels[i].feature_idx < row.len());
        }
    } else {
        let i = choose|i: int|
            0 <= i < levels.len() && !((#[trigger] levels[i]).feature_idx < row.len()
                && ConditionView::of(levels[i].split, levels[i].missing).defined(ctrs));
        assert(all.tests[i].feature_idx == levels[i].feature_idx);
    }
}

/// The function generated for a tree, in either form, returns the leaf that the tests of the
/// tree select, whether they are on features or on counters, and fails exactly if a test on
/// the way reads a feature or counter that is not there.
pub proof fn tree_function_returns_the_selected_leaf(
    node: NodeView,
    row: Seq<F32>,
    ctrs: Seq<F64>,
)
    ensures
        outcome(node, row, ctrs) == node.selected(row, ctrs),
{
    if node.oblivious() {
        lemma_oblivious_lookup(node, row, ctrs);
        lemma_run(node.spine(), node.leaves(), row, ctrs);
    } else {
        branches_return_the_selected_leaf(node, row, ctrs);
    }
}

/// The function generated for a tree, in either form, returns the leaf that the
/// interpreter reaches, and fails on the rows on which the interpreter fails.
pub proof fn tree_function_computes_the_tree(node: NodeView, row: Seq<F32>, ctrs: Seq<F64>)
    requires
        node.counter_free(),
    ensures
        outcome(node, row, ctrs) == node.value(row).ok(),
{
    tree_function_returns_the_selected_leaf(node, row, ctrs);
    interpreter_reaches_the_selected_leaf(node, row, ctrs);
}

/// One call of a tree function in a sum, and the factor of what it returns if there is one.
pub ghost struct CallView {
    pub tree: int,
    pub weight: Option<F64>,
}

impl CallView {
    /// The call of tree `i` of a forest.
    pub open spec fn of(forest: ForestView, i: int) -> CallView {
        CallView {
            tree: i,
            weight: if forest.weighted() {
                Some(forest.trees[i].weight)
            } else {
                None
            },
        }
    }

    /// What the call contributes when it returns a leaf.
    pub open spec fn term(self, leaf: F64) -> Term {
        Term {
            leaf,
            weight: match self.weight {
                Some(weight) => weight,
                None => F64 { bits: ONE_BITS },
            },
        }
    }
}

/// The calls for class `c` among the first `n` trees.
pub open spec fn calls_of(forest: ForestView, c: int, n: int) -> Seq<CallView>
    decreases n,
{
    if n <= 0 {
        seq![]
    } else if (n - 1) % (forest.classes() as int) == c {
        calls_of(forest, c, n - 1).push(CallView::of(forest, n - 1))
    } else {
        calls_of(forest, c, n - 1)
    }
}

/// The expression that a score becomes: what the calls return, each times its factor, is added
/// to the start from left to right; then the sum is divided.
pub ghost struct SumView {
    pub start: F64,
    pub calls: Seq<CallView>,
    pub divisor: Option<usize>,
}

impl SumView {
    /// The expression that the score of class `c` becomes.
    pub open spec fn of(forest: ForestView, c: int) -> SumView {
        let classes = forest.classes() as int;
        let n = forest.trees.len() as int;
        SumView {
            start: match forest.aggregation {
                AggregationKind::Sum => forest.bias(c),
                AggregationKind::Average => F64 { bits: 0 },
            },
            calls: calls_of(forest, c, n),
            divisor: match forest.aggregation {
                AggregationKind::Sum => None,
                AggregationKind::Average => Some((n / classes) as usize),
            },
        }
    }
}

/// What the calls contribute to the sum; nothing if one of them fails.
pub open spec fn contributions(
    trees: Seq<TreeView>,
    calls: Seq<CallView>,
    row: Seq<F32>,
    ctrs: Seq<F64>,
) -> Option<Seq<Term>>
    decreases calls.len(),
{
    if calls.len() == 0 {
        Some(seq![])
    } else {
        let call = calls.last();
        match (
            contributions(trees, calls.drop_last(), row, ctrs),
            outcome(trees[call.tree].root, row, ctrs),
        ) {
            (Some(terms), Some(leaf)) => Some(terms.push(call.term(leaf))),
            _ => None,
        }
    }
}

/// Whether the interpreter finds a leaf in every tree of class `c` among the first `n`.
pub open spec fn class_has_leaves(forest: ForestView, row: Seq<F32>, c: int, n: int) -> bool {
    forall|i: int|
        0 <= i < n && i % (forest.classes() as int) == c ==> (
        #[trigger] forest.trees[i]).root.value(row) is Ok
}

proof fn lemma_contributions(forest: ForestView, c: int, row: Seq<F32>, ctrs: Seq<F64>, n: int)
    requires
        0 <= n <= forest.trees.len(),
        forall|i: int|
            0 <= i < forest.trees.len() ==> (#[trigger] forest.trees[i]).root.counter_free(),
    ensures
        contributions(forest.trees, calls_of(forest, c, n), row, ctrs) == (if class_has_leaves(
            forest,
            row,
            c,
            n,
        ) {
            Some(forest.terms(row, c, n))
        } else {
            None
        }),
    decreases n,
{
    if n > 0 {
        let classes = forest.classes() as int;
        let before = calls_of(forest, c, n - 1);
        lemma_contributions(forest, c, row, ctrs, n - 1);
        tree_function_computes_the_tree(forest.trees[n - 1].root, row, ctrs);
        let call = CallView::of(forest, n - 1);
        assert(before.push(call).drop_last() =~= before);
        assert(class_has_leaves(forest, row, c, n) ==> class_has_leaves(forest, row, c, n - 1));
        if (n - 1) % classes == c && class_has_leaves(forest, row, c, n) {
            assert(forest.trees[n - 1].root.value(row) is Ok);
        }
    }
}

/// The expression generated for a score starts where the interpreter starts, adds the terms
/// that the interpreter lists, in the same order, and divides as the interpreter says. It
/// fails on the rows on which one of its trees fails.
pub proof fn generated_scores_add_the_terms(
    forest: ForestView,
    c: int,
    row: Seq<F32>,
    ctrs: Seq<F64>,
)
    requires
        forall|i: int|
            0 <= i < forest.trees.len() ==> (#[trigger] forest.trees[i]).root.counter_free(),
    ensures
        contributions(forest.trees, SumView::of(forest, c).calls, row, ctrs) == (
        if class_has_leaves(forest, row, c, forest.trees.len() as int) {
            Some(forest.score(row, c).terms)
        } else {
            None
        }),
        SumView::of(forest, c).divisor == forest.score(row, c).divisor,
        SumView::of(forest, c).start == forest.score(row, c).start,
{
    lemma_contributions(forest, c, row, ctrs, forest.trees.len() as int);
}

/// A variable of the generated method for several outputs.
pub ghost enum NameView {
    /// The score of a class.
    Score(nat),
    /// The greatest score.
    Greatest,
    /// The exponential of a class.
    Exponential(nat),
    /// The sum of the exponentials.
    Total,
}

/// An expression of the generated method for several outputs.
pub ghost enum ExprView {
    /// A sum of calls.
    Score(SumView),
    /// The greatest of some variables.
    Greatest(Seq<NameView>),
    /// The exponential of the difference of two variables.
    Exponential(NameView, NameView),
    /// The sum of some variables.
    Total(Seq<NameView>),
    /// The quotient of two variables.
    Share(NameView, NameView),
}

/// The generated method for several outputs: variables with their values, then the outputs.
pub ghost struct MethodView {
    pub lets: Seq<(NameView, ExprView)>,
    pub outputs: Seq<ExprView>,
}

/// The names of the scores of `n` classes.
pub open spec fn score_names(n: nat) -> Seq<NameView> {
    Seq::new(n, |k: int| NameView::Score(k as nat))
}

/// The names of the exponentials of `n` classes.
pub open spec fn exponential_names(n: nat) -> Seq<NameView> {
    Seq::new(n, |k: int| NameView::Exponential(k as nat))
}

/// The declarations of the exponentials of `n` classes.
pub open spec fn exponential_lets(n: nat) -> Seq<(NameView, ExprView)> {
    Seq::new(
        n,
        |c: int|
            (
                NameView::Exponential(c as nat),
                ExprView::Exponential(NameView::Score(c as nat), NameView::Greatest),
            ),
    )
}

/// The outputs of `n` classes.
pub open spec fn shares(n: nat) -> Seq<ExprView> {
    Seq::new(n, |c: int| ExprView::Share(NameView::Exponential(c as nat), NameView::Total))
}

impl MethodView {
    /// The variable that is declared at place `k`: the scores come first, then the greatest,
    /// the exponentials and their sum.
    pub open spec fn declared(forest: ForestView, k: int) -> (NameView, ExprView) {
        let n = forest.classes();
        if k < n {
            (NameView::Score(k as nat), ExprView::Score(SumView::of(forest, k)))
        } else if k == n {
            (NameView::Greatest, ExprView::Greatest(score_names(n)))
        } else if k <= 2 * n {
            let c = (k - n - 1) as nat;
            (
                NameView::Exponential(c),
                ExprView::Exponential(NameView::Score(c), NameView::Greatest),
            )
        } else {
            (NameView::Total, ExprView::Total(exponential_names(n)))
        }
    }

    /// The method that a forest with several outputs gets.
    pub open spec fn of(forest: ForestView) -> MethodView {
        let n = forest.classes();
        MethodView {
            lets: Seq::new(2 * n + 2, |k: int| MethodView::declared(forest, k)),
            outputs: shares(n),
        }
    }
}

/// The values of some variables; nothing if one has none.
pub open spec fn values_of<V>(env: Map<NameView, V>, names: Seq<NameView>) -> Option<Seq<V>> {
    if forall|i: int| 0 <= i < names.len() ==> env.dom().contains(#[trigger] names[i]) {
        Some(names.map_values(|name: NameView| env[name]))
    } else {
        None
    }
}

impl ExprView {
    /// What the expression comes to, given the values of the variables; nothing if a variable
    /// has none, or if a call fails.
    pub open spec fn run<V>(
        self,
        arithmetic: ArithmeticView<V>,
        env: Map<NameView, V>,
        trees: Seq<TreeView>,
        row: Seq<F32>,
        ctrs: Seq<F64>,
    ) -> Option<V> {
        match self {
            ExprView::Score(sum) => match contributions(trees, sum.calls, row, ctrs) {
                Some(terms) => Some(
                    (arithmetic.score)(
                        ScoreView { start: sum.start, terms, divisor: sum.divisor },
                    ),
                ),
                None => None,
            },
            ExprView::Greatest(names) => match values_of(env, names) {
                Some(values) => Some(arithmetic.greatest(values)),
                None => None,
            },
            ExprView::Exponential(a, b) => match values_of(env, seq![a, b]) {
                Some(values) => Some((arithmetic.exp)((arithmetic.minus)(values[0], values[1]))),
                None => None,
            },
            ExprView::Total(names) => match values_of(env, names) {
                Some(values) => Some(arithmetic.total(values)),
                None => None,
            },
            ExprView::Share(a, b) => match values_of(env, seq![a, b]) {
                Some(values) => Some((arithmetic.quotient)(values[0], values[1])),
                None => None,
            },
        }
    }
}

impl MethodView {
    /// The values of the variables after the first `n` declarations.
    pub open spec fn env<V>(
        self,
        arithmetic: ArithmeticView<V>,
        trees: Seq<TreeView>,
        row: Seq<F32>,
        ctrs: Seq<F64>,
        n: int,
    ) -> Option<Map<NameView, V>>
        decreases n,
    {
        if n <= 0 {
            Some(Map::empty())
        } else {
            match self.env(arithmetic, trees, row, ctrs, n - 1) {
                None => None,
                Some(env) => match self.lets[n - 1].1.run(arithmetic, env, trees, row, ctrs) {
                    None => None,
                    Some(value) => Some(env.insert(self.lets[n - 1].0, value)),
                },
            }
        }
    }

    /// What output `c` of the method is; nothing if the method fails.
    pub open spec fn output<V>(
        self,
        arithmetic: ArithmeticView<V>,
        trees: Seq<TreeView>,
        row: Seq<F32>,
        ctrs: Seq<F64>,
        c: int,
    ) -> Option<V> {
        match self.env(arithmetic, trees, row, ctrs, self.lets.len() as int) {
            None => None,
            Some(env) => self.outputs[c].run(arithmetic, env, trees, row, ctrs),
        }
    }
}

/// What the scores of a prediction come to.
spec fn raw_values<V>(
    arithmetic: ArithmeticView<V>,
    forest: ForestView,
    row: Seq<F32>,
) -> Seq<V> {
    Seq::new(forest.classes(), |c: int| (arithmetic.score)(forest.score(row, c)))
}

/// What the exponentials of a prediction come to.
spec fn exp_values<V>(
    arithmetic: ArithmeticView<V>,
    forest: ForestView,
    row: Seq<F32>,
) -> Seq<V> {
    let raw = raw_values(arithmetic, forest, row);
    raw.map_values(|x: V| (arithmetic.exp)((arithmetic.minus)(x, arithmetic.greatest(raw))))
}

/// What is known of the variables after the first `k` declarations.
spec fn known<V>(
    arithmetic: ArithmeticView<V>,
    forest: ForestView,
    row: Seq<F32>,
    env: Map<NameView, V>,
    k: int,
) -> bool {
    let n = forest.classes();
    let raw = raw_values(arithmetic, forest, row);
    let exps = exp_values(arithmetic, forest, row);
    &&& forall|c: nat|
        c < n && c < k ==> #[trigger] env.dom().contains(NameView::Score(c))
            && env[NameView::Score(c)] == raw[c as int]
    &&& n < k ==> env.dom().contains(NameView::Greatest) && env[NameView::Greatest]
        == arithmetic.greatest(raw)
    &&& forall|c: nat|
        c < n && n + 1 + c < k ==> #[trigger] env.dom().contains(NameView::Exponential(c))
            && env[NameView::Exponential(c)] == exps[c as int]
    &&& 2 * n + 1 < k ==> env.dom().contains(NameView::Total) && env[NameView::Total]
        == arithmetic.total(exps)
}

#[verifier::spinoff_prover]
proof fn lemma_env<V>(
    arithmetic: ArithmeticView<V>,
    forest: ForestView,
    row: Seq<F32>,
    ctrs: Seq<F64>,
    k: int,
)
    requires
        forall|i: int|
            0 <= i < forest.trees.len() ==> (#[trigger] forest.trees[i]).root.counter_free()
                && forest.trees[i].root.value(row) is Ok,
        forest.classes() >= 1,
        0 <= k <= 2 * forest.classes() + 2,
    ensures
        MethodView::of(forest).env(arithmetic, forest.trees, row, ctrs, k) matches Some(env)
            && known(arithmetic, forest, row, env, k),
    decreases k,
{
    if k > 0 {
        lemma_env(arithmetic, forest, row, ctrs, k - 1);
        let method = MethodView::of(forest);
        let env = method.env(arithmetic, forest.trees, row, ctrs, k - 1)->0;
        let n = forest.classes();
        let raw = raw_values(arithmetic, forest, row);
        let exps = exp_values(arithmetic, forest, row);
        let (name, expr) = method.lets[k - 1];
        assert((name, expr) == MethodView::declared(forest, k - 1));
        let value = expr.run(arithmetic, env, forest.trees, row, ctrs);
        if k - 1 < n {
            generated_scores_add_the_terms(forest, k - 1, row, ctrs);
            let sum = SumView::of(forest, k - 1);
            let terms = contributions(forest.trees, sum.calls, row, ctrs)->0;
            assert(class_has_leaves(forest, row, k - 1, forest.trees.len() as int));
            assert(ScoreView { start: sum.start, terms, divisor: sum.divisor } == forest.score(
                row,
                k - 1,
            ));
            assert(value == Some(raw[k - 1]));
        } else if k - 1 == n {
            let names = score_names(n);
            assert forall|i: int| 0 <= i < names.len() implies env.dom().contains(
                #[trigger] names[i],
            ) by {
                assert(env.dom().contains(NameView::Score(i as nat)));
            }
            assert(names.map_values(|name: NameView| env[name]) =~= raw) by {
                assert forall|i: int| 0 <= i < names.len() implies env[names[i]] == raw[i] by {
                    assert(env.dom().contains(NameView::Score(i as nat)));
                }
            }
            assert(value == Some(arithmetic.greatest(raw)));
        } else if k - 1 <= 2 * n {
            let c = (k - 1 - n - 1) as nat;
            let names = seq![NameView::Score(c), NameView::Greatest];
            assert(env.dom().contains(NameView::Score(c)));
            assert(names[0] == NameView::Score(c) && names[1] == NameView::Greatest);
            assert(value == Some(exps[c as int]));
        } else {
            let names = exponential_names(n);
            assert forall|i: int| 0 <= i < names.len() implies env.dom().contains(
                #[trigger] names[i],
            ) by {
                assert(env.dom().contains(NameView::Exponential(i as nat)));
            }
            assert(names.map_values(|name: NameView| env[name]) =~= exps) by {
                assert forall|i: int| 0 <= i < names.len() implies env[names[i]] == exps[i] by {
                    assert(env.dom().contains(NameView::Exponential(i as nat)));
                }
            }
            assert(value == Some(arithmetic.total(exps)));
        }
        let after = env.insert(name, value->0);
        assert forall|c: nat| c < n && c < k implies #[trigger] after.dom().contains(
            NameView::Score(c),
        ) && after[NameView::Score(c)] == raw[c as int] by {
            if c < k - 1 {
                assert(env.dom().contains(NameView::Score(c)));
            }
        }
        assert forall|c: nat| c < n && n + 1 + c < k implies #[trigger] after.dom().contains(
            NameView::Exponential(c),
        ) && after[NameView::Exponential(c)] == exps[c as int] by {
            if n + 1 + c < k - 1 {
                assert(env.dom().contains(NameView::Exponential(c)));
            }
        }
        assert(n < k ==> after.dom().contains(NameView::Greatest) && after[NameView::Greatest]
            == arithmetic.greatest(raw));
        assert(2 * n + 1 < k ==> after.dom().contains(NameView::Total) && after[NameView::Total]
            == arithmetic.total(exps));
        assert(known(arithmetic, forest, row, after, k));
        assert(method.env(arithmetic, forest.trees, row, ctrs, k) == Some(after));
    } else {
        let env = MethodView::of(forest).env(arithmetic, forest.trees, row, ctrs, k)->0;
        assert(known(arithmetic, forest, row, env, k));
    }
}

/// Output `c` of the generated method is entry `c` of the softmax of the interpreter's scores,
/// in every arithmetic: the exponential of the score of class `c` less the greatest score,
/// divided by the sum over all classes of the exponentials of theirs.
pub proof fn generated_outputs_are_the_softmax<V>(
    arithmetic: ArithmeticView<V>,
    forest: ForestView,
    row: Seq<F32>,
    ctrs: Seq<F64>,
    c: int,
)
    requires
        forest.post_transform is Softmax,
        forest.prediction(row) is Ok,
        forall|i: int|
            0 <= i < forest.trees.len() ==> (#[trigger] forest.trees[i]).root.counter_free(),
        0 <= c < forest.classes(),
    ensures
        ({
            let scores = forest.prediction(row)->Ok_0.scores.map_values(arithmetic.score);
            &&& scores.len() == forest.classes()
            &&& MethodView::of(forest).outputs.len() == forest.classes()
            &&& MethodView::of(forest).output(arithmetic, forest.trees, row, ctrs, c) == Some(
                arithmetic.softmax(scores)[c],
            )
        }),
{
    let n = forest.classes();
    lemma_no_failure(forest, row, 0);
    lemma_env(arithmetic, forest, row, ctrs, 2 * n as int + 2);
    let raw = raw_values(arithmetic, forest, row);
    let exps = exp_values(arithmetic, forest, row);
    let scores = forest.prediction(row)->Ok_0.scores.map_values(arithmetic.score);
    assert(scores =~= raw);
    assert(exps =~= raw.map_values(
        |x: V| (arithmetic.exp)((arithmetic.minus)(x, arithmetic.greatest(raw))),
    ));
    let method = MethodView::of(forest);
    let env = method.env(arithmetic, forest.trees, row, ctrs, method.lets.len() as int)->0;
    let names = seq![NameView::Exponential(c as nat), NameView::Total];
    assert(env.dom().contains(NameView::Exponential(c as nat)));
    assert(names[0] == NameView::Exponential(c as nat) && names[1] == NameView::Total);
    assert(method.outputs[c] == ExprView::Share(names[0], names[1]));
}

proof fn lemma_no_failure(forest: ForestView, row: Seq<F32>, from: int)
    requires
        0 <= from,
        forest.first_failure(row, from) is None,
    ensures
        forall|i: int|
            from <= i < forest.trees.len() ==> (#[trigger] forest.trees[i]).root.value(row) is Ok,
    decreases forest.trees.len() - from,
{
    if from < forest.trees.len() {
        lemma_no_failure(forest, row, from + 1);
    }
}

} // verus!
