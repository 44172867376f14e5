//! If/else code generation, and the choice between the layouts.
//!
//! The functions here append source to a text. What each appends is a spec function from
//! the text before to the text after.
#[allow(unused_imports)]
use crate::backends::code;
#[allow(unused_imports)]
use crate::backends::code::{
    CallView, CodeView, ConditionView, ExprView, LookupView, MethodView, NameView, SumView,
    TestView,
};
use crate::backends::templates as t;
use crate::backends::tokens;
use crate::backends::tokens::Token;
#[allow(unused_imports)]
use crate::ir::{self, LevelView, NodeView, SplitView, TreeView};
use crate::backends::catboost;
use crate::backends::rust_array;
use crate::interpreter;
use crate::error::{Complaint, Failure, Problem};
#[allow(unused_imports)]
use crate::error::FailureView;
use crate::ir::{
    AggregationKind, CatboostMetadata, Forest, MissingDirection, Node, Operator, PostTransform,
    SplitKind, Tree,
};
#[allow(unused_imports)]
use crate::ir::{CtrView, ForestView, MetadataView};
use crate::number::F64;
use crate::text;
use vstd::prelude::*;

verus! {

/// The start of a comparison of the value.
pub open spec fn comparison(operator: Operator) -> Seq<char> {
    match operator {
        Operator::LessThan => t::VAL_LT@,
        Operator::LessOrEqual => t::VAL_LE@,
        Operator::GreaterThan => t::VAL_GT@,
        Operator::GreaterOrEqual => t::VAL_GE@,
        Operator::Equal => t::VAL_EQ@,
        Operator::NotEqual => t::VAL_NE@,
    }
}

/// What decides on NaN in front of a test.
pub open spec fn guard(missing_left: bool) -> Seq<char> {
    if missing_left {
        t::OR_MISSING@
    } else {
        t::AND_PRESENT@
    }
}

/// Appends a test.
pub open spec fn with_condition(out: Seq<char>, condition: ConditionView) -> Seq<char> {
    match condition {
        ConditionView::Present => out + t::PRESENT@,
        ConditionView::Compare { missing_left, operator, threshold } => out + guard(missing_left)
            + t::OPEN@ + comparison(operator) + threshold.spelling() + t::CLOSE@,
        ConditionView::Outside { missing_left, bitoff, nbits, data } => out + guard(missing_left)
            + t::SET_CALL@ + bitoff.spelling() + t::SET_SIZE@ + nbits.spelling() + t::SET_DATA@
            + tokens::joined(tokens::spellings(data), tokens::COMMA@) + t::SET_END@,
        ConditionView::Counter { ctr_idx, threshold } => out + t::COUNTER@ + ctr_idx.spelling()
            + t::COUNTER_AT_LEAST@ + threshold.spelling() + t::COUNTER_END@,
    }
}

/// Appends nested branches.
pub open spec fn with_code(out: Seq<char>, code: CodeView) -> Seq<char>
    decreases code,
{
    match code {
        CodeView::Value(value) => out + value.spelling(),
        CodeView::Branch { feature_idx, condition, yes, no } => {
            let head = out + t::BRANCH@ + feature_idx.spelling() + t::BRANCH_IF@;
            let tested = with_condition(head, condition) + t::BRANCH_LEFT@;
            with_code(with_code(tested, *yes) + t::BRANCH_ELSE@, *no) + t::BRANCH_END@
        },
    }
}

/// Appends one test of the lookup of a leaf, with the bit that it sets.
pub open spec fn with_test(out: Seq<char>, test: TestView) -> Seq<char> {
    let head = out + t::TEST@ + test.feature_idx.spelling() + t::TEST_CONDITION@;
    with_condition(head, test.condition) + t::TEST_BIT@ + (test.bit as usize).spelling()
        + t::TEST_END@
}

/// Appends the first `n` tests of the lookup of a leaf.
pub open spec fn with_tests(out: Seq<char>, tests: Seq<TestView>, n: int) -> Seq<char>
    decreases n,
{
    if n <= 0 {
        out
    } else {
        with_test(with_tests(out, tests, n - 1), tests[n - 1])
    }
}

/// Appends the lookup of a leaf and the end of its function.
pub open spec fn with_lookup(out: Seq<char>, lookup: LookupView) -> Seq<char> {
    with_tests(out + t::INDEX@, lookup.tests, lookup.tests.len() as int) + t::LEAVES@ + (
    lookup.leaves.len() as usize).spelling() + t::LEAVES_ITEMS@ + tokens::joined(
        tokens::spellings(lookup.leaves),
        tokens::COMMA@,
    ) + t::LEAVES_END@
}

/// Appends the function of tree `i`.
pub open spec fn with_tree_fn(out: Seq<char>, i: int, root: NodeView) -> Seq<char> {
    let head = out + t::TREE_FN@ + t::TREE_NAME@ + text::decimal(i as nat) + t::TREE_BODY@;
    if root.oblivious() {
        with_lookup(head, LookupView::of(root.spine(), root.leaves()))
    } else {
        with_code(head, CodeView::of(root)) + t::BLOCK_END@
    }
}

/// Appends the functions of the first `n` trees.
pub open spec fn with_tree_fns(out: Seq<char>, trees: Seq<TreeView>, n: int) -> Seq<char>
    decreases n,
{
    if n <= 0 {
        out
    } else {
        with_tree_fn(with_tree_fns(out, trees, n - 1), n - 1, trees[n - 1].root)
    }
}

fn compile_condition(out: &mut String, split: &SplitKind, missing_direction: MissingDirection)
    ensures
        final(out)@ == with_condition(old(out)@, ConditionView::of(split@, missing_direction)),
{
    if missing_direction == MissingDirection::NaVsRest {
        out.append(t::PRESENT);
        return;
    }
    let missing_left: bool = missing_direction == MissingDirection::Left;
    match split {
        SplitKind::Numeric { threshold, operator } => {
            push_guard(out, missing_left);
            out.append(t::OPEN);
            out.append(
                match operator {
                    Operator::LessThan => t::VAL_LT,
                    Operator::LessOrEqual => t::VAL_LE,
                    Operator::GreaterThan => t::VAL_GT,
                    Operator::GreaterOrEqual => t::VAL_GE,
                    Operator::Equal => t::VAL_EQ,
                    Operator::NotEqual => t::VAL_NE,
                },
            );
            threshold.put(out);
            out.append(t::CLOSE);
        },
        SplitKind::Categorical { bitoff, nbits, data } => {
            push_guard(out, missing_left);
            out.append(t::SET_CALL);
            bitoff.put(out);
            out.append(t::SET_SIZE);
            nbits.put(out);
            out.append(t::SET_DATA);
            tokens::push_list(out, data);
            out.append(t::SET_END);
        },
        SplitKind::OnlineCtr { ctr_idx, threshold } => {
            out.append(t::COUNTER);
            ctr_idx.put(out);
            out.append(t::COUNTER_AT_LEAST);
            threshold.put(out);
            out.append(t::COUNTER_END);
        },
    }
}

fn push_guard(out: &mut String, missing_left: bool)
    ensures
        final(out)@ == old(out)@ + guard(missing_left),
{
    if missing_left {
        out.append(t::OR_MISSING);
    } else {
        out.append(t::AND_PRESENT);
    }
}

fn compile_node(out: &mut String, node: &Node)
    ensures
        final(out)@ == with_code(old(out)@, CodeView::of(node@)),
    decreases node,
{
    match node {
        Node::Leaf { value } => value.put(out),
        Node::Split { feature_idx, split, left_child, right_child, missing_direction } => {
            out.append(t::BRANCH);
            feature_idx.put(out);
            out.append(t::BRANCH_IF);
            compile_condition(out, split, *missing_direction);
            out.append(t::BRANCH_LEFT);
            compile_node(out, left_child);
            out.append(t::BRANCH_ELSE);
            compile_node(out, right_child);
            out.append(t::BRANCH_END);
        },
    }
}

/// Appends the lookup of a leaf by the outcomes of the tests, the root's as the highest
/// bit.
fn compile_oblivious_tree(
    out: &mut String,
    splits: &Vec<(usize, SplitKind, MissingDirection)>,
    leaves: &Vec<F64>,
)
    requires
        leaves.len() == vstd::arithmetic::power2::pow2(splits.len() as nat),
    ensures
        final(out)@ == with_lookup(
            old(out)@,
            LookupView::of(ir::level_views(splits@), leaves@),
        ),
{
    let ghost levels = ir::level_views(splits@);
    let ghost tests = LookupView::of(levels, leaves@).tests;
    out.append(t::INDEX);
    let ghost start = out@;
    let mut bit: usize = leaves.len();
    let mut i: usize = 0;
    while i < splits.len()
        invariant
            i <= splits.len(),
            levels == ir::level_views(splits@),
            tests == LookupView::of(levels, leaves@).tests,
            bit == vstd::arithmetic::power2::pow2((splits.len() - i) as nat),
            out@ == with_tests(start, tests, i as int),
        decreases splits.len() - i,
    {
        proof {
            vstd::arithmetic::power2::lemma_pow2_unfold((splits.len() - i) as nat);
            assert(levels[i as int] == ir::level_view(splits[i as int]));
        }
        bit = bit / 2;
        let level = &splits[i];
        out.append(t::TEST);
        level.0.put(out);
        out.append(t::TEST_CONDITION);
        compile_condition(out, &level.1, level.2);
        out.append(t::TEST_BIT);
        bit.put(out);
        out.append(t::TEST_END);
        i = i + 1;
    }
    out.append(t::LEAVES);
    leaves.len().put(out);
    out.append(t::LEAVES_ITEMS);
    tokens::push_list(out, leaves);
    out.append(t::LEAVES_END);
}

fn push_tree_fn(out: &mut String, i: usize, root: &Node)
    ensures
        final(out)@ == with_tree_fn(old(out)@, i as int, root@),
{
    out.append(t::TREE_FN);
    out.append(t::TREE_NAME);
    text::push_decimal(out, i as u64);
    out.append(t::TREE_BODY);
    match root.get_oblivious_splits() {
        Some(splits) => {
            let mut leaves: Vec<F64> = Vec::new();
            root.collect_leaves(&mut leaves);
            proof {
                assert(leaves@ =~= root@.leaves());
                crate::backends::code::oblivious_leaf_count(root@);
            }
            compile_oblivious_tree(out, &splits, &leaves);
        },
        None => {
            compile_node(out, root);
            out.append(t::BLOCK_END);
        },
    }
}

fn push_tree_fns(out: &mut String, trees: &Vec<Tree>)
    ensures
        final(out)@ == with_tree_fns(old(out)@, ir::tree_views(trees@), trees.len() as int),
{
    let mut i: usize = 0;
    while i < trees.len()
        invariant
            i <= trees.len(),
            out@ == with_tree_fns(old(out)@, ir::tree_views(trees@), i as int),
        decreases trees.len() - i,
    {
        assert(ir::tree_views(trees@)[i as int].root == trees[i as int].root@);
        push_tree_fn(out, i, &trees[i].root);
        i = i + 1;
    }
}

/// Appends the exponential of an expression.
pub open spec fn with_exp(out: Seq<char>, inner: Seq<char>, no_std: bool) -> Seq<char> {
    if no_std {
        out + t::LIBM_OPEN@ + inner + t::LIBM_CLOSE@
    } else {
        out + t::EXP_OPEN@ + inner + t::EXP_CLOSE@
    }
}

/// Appends the transform of the score `raw`.
pub open spec fn with_transform(out: Seq<char>, transform: PostTransform, no_std: bool) -> Seq<
    char,
> {
    match transform {
        PostTransform::Logit => with_exp(out + t::POST_LOGIT_OPEN@, t::NEGATED_RAW@, no_std)
            + t::POST_LOGIT_CLOSE@,
        PostTransform::Log => if no_std {
            with_exp(out, t::RAW@, true) + t::POST_LOG_CLOSE@
        } else {
            out + t::RAW_EXP@ + t::POST_LOG_CLOSE@
        },
        _ => out + t::POST_IDENTITY@,
    }
}

/// Appends a count as a floating-point literal.
pub open spec fn with_count(out: Seq<char>, n: int) -> Seq<char> {
    out + text::decimal(n as nat) + "f64"@
}

/// Appends the sum of calls.
pub open spec fn with_calls(out: Seq<char>, calls: Seq<CallView>) -> Seq<char>
    decreases calls.len(),
{
    if calls.len() == 0 {
        out
    } else {
        let before = with_calls(out, calls.drop_last());
        let apart = if calls.len() > 1 {
            before + tokens::PLUS@
        } else {
            before
        };
        let called = apart + t::CALL@ + text::decimal(calls.last().tree as nat)
            + t::CALL_ARGUMENTS@;
        match calls.last().weight {
            Some(weight) => called + t::TIMES@ + weight.spelling(),
            None => called,
        }
    }
}

/// Appends the expression of a score.
pub open spec fn with_sum(out: Seq<char>, sum: SumView) -> Seq<char> {
    match sum.divisor {
        Some(n) => with_count(
            with_calls(out + t::OPEN@ + sum.start.spelling() + tokens::PLUS@, sum.calls)
                + t::DIVIDED@,
            n as int,
        ),
        None => with_calls(out + sum.start.spelling() + tokens::PLUS@, sum.calls),
    }
}

/// Appends the score of class `c`.
pub open spec fn with_score(out: Seq<char>, forest: ForestView, c: int) -> Seq<char> {
    with_sum(out, SumView::of(forest, c))
}

/// The exponential of an expression, through `libm` where there is no standard library.
pub(crate) fn exp_expr(out: &mut String, inner: &str, no_std: bool)
    ensures
        final(out)@ == with_exp(old(out)@, inner@, no_std),
{
    if no_std {
        out.append(t::LIBM_OPEN);
        out.append(inner);
        out.append(t::LIBM_CLOSE);
    } else {
        out.append(t::EXP_OPEN);
        out.append(inner);
        out.append(t::EXP_CLOSE);
    }
}

/// The transform of the score of a model with one output.
pub(crate) fn post_transform_expr(out: &mut String, post_transform: PostTransform, no_std: bool)
    requires
        !(post_transform is Softmax),
    ensures
        final(out)@ == with_transform(old(out)@, post_transform, no_std),
{
    match post_transform {
        PostTransform::Logit => {
            out.append(t::POST_LOGIT_OPEN);
            exp_expr(out, t::NEGATED_RAW, no_std);
            out.append(t::POST_LOGIT_CLOSE);
        },
        PostTransform::Log => {
            if no_std {
                exp_expr(out, t::RAW, true);
            } else {
                out.append(t::RAW_EXP);
            }
            out.append(t::POST_LOG_CLOSE);
        },
        _ => out.append(t::POST_IDENTITY),
    }
}

/// A count as a floating-point literal.
pub(crate) fn push_count(out: &mut String, n: usize)
    ensures
        final(out)@ == with_count(old(out)@, n as int),
{
    text::push_decimal(out, n as u64);
    out.append("f64");
}

fn push_calls(out: &mut String, forest: &Forest, classes: usize, c: usize)
    requires
        classes == forest@.classes(),
        c < classes,
    ensures
        final(out)@ == with_calls(
            old(out)@,
            code::calls_of(forest@, c as int, forest.trees.len() as int),
        ),
{
    let weighted: bool = interpreter::weights_count(forest);
    let mut i: usize = 0;
    let mut first: bool = true;
    while i < forest.trees.len()
        invariant
            i <= forest.trees.len(),
            classes == forest@.classes(),
            c < classes,
            weighted == forest@.weighted(),
            first <==> code::calls_of(forest@, c as int, i as int).len() == 0,
            out@ == with_calls(old(out)@, code::calls_of(forest@, c as int, i as int)),
        decreases forest.trees.len() - i,
    {
        assert(forest@.trees[i as int] == forest.trees[i as int]@);
        if i % classes == c {
            proof {
                let before = code::calls_of(forest@, c as int, i as int);
                let call = CallView::of(forest@, i as int);
                assert(before.push(call).drop_last() =~= before);
            }
            if !first {
                out.append(tokens::PLUS);
            }
            out.append(t::CALL);
            text::push_decimal(out, i as u64);
            out.append(t::CALL_ARGUMENTS);
            if weighted {
                out.append(t::TIMES);
                forest.trees[i].weight.put(out);
            }
            first = false;
        }
        i = i + 1;
    }
}

/// The bias of class `c`.
pub(crate) fn bias_of(forest: &Forest, c: usize) -> (r: F64)
    ensures
        r == forest@.bias(c as int),
{
    match forest.post_transform {
        PostTransform::Softmax { .. } if c < forest.base_scores.len() => forest.base_scores[c],
        _ => forest.base_score,
    }
}

fn push_score(out: &mut String, forest: &Forest, classes: usize, c: usize)
    requires
        classes == forest@.classes(),
        c < classes,
    ensures
        final(out)@ == with_score(old(out)@, forest@, c as int),
{
    match forest.aggregation {
        AggregationKind::Sum => {
            bias_of(forest, c).put(out);
            out.append(tokens::PLUS);
            push_calls(out, forest, classes, c);
        },
        AggregationKind::Average => {
            out.append(t::OPEN);
            F64 { bits: 0 }.put(out);
            out.append(tokens::PLUS);
            push_calls(out, forest, classes, c);
            out.append(t::DIVIDED);
            push_count(out, forest.trees.len() / classes);
        },
    }
}

/// Code layout of the generated source.
#[derive(Debug, Clone, Copy, PartialEq, Eq, Structural)]
pub enum Layout {
    /// The array layout for large numeric-only forests, if/else otherwise.
    Auto,
    /// One nested if/else function per tree.
    IfElse,
    /// Static arrays walked by a loop. Numeric splits only.
    Array,
}

impl Default for Layout {
    fn default() -> (r: Self)
        ensures
            r == Layout::Auto,
    {
        Layout::Auto
    }
}

/// What to generate.
#[derive(Debug, Clone, Copy, PartialEq, Eq, Structural)]
pub struct CodegenOptions {
    pub layout: Layout,
    /// Whether the source may use the core library only.
    pub no_std: bool,
}

/// Node count above which `Layout::Auto` switches to the array layout.
pub const ARRAY_LAYOUT_NODE_THRESHOLD: usize = 10_000;

impl NodeView {
    /// Whether the tree has a split on a set of categories.
    pub open spec fn has_categorical(self) -> bool
        decreases self,
    {
        match self {
            NodeView::Leaf { .. } => false,
            NodeView::Split { split, left, right, .. } => split is Categorical
                || left.has_categorical() || right.has_categorical(),
        }
    }

    /// Whether the thresholds of the tree's counter splits are finite.
    pub open spec fn counters_finite(self) -> bool
        decreases self,
    {
        match self {
            NodeView::Leaf { .. } => true,
            NodeView::Split { split, left, right, missing, .. } => (split matches
                SplitView::OnlineCtr { threshold, .. } ==> missing == MissingDirection::NaVsRest
                || threshold.finite()) && left.counters_finite() && right.counters_finite(),
        }
    }
}

/// How many nodes the first `n` trees have.
pub open spec fn node_count(trees: Seq<TreeView>, n: int) -> nat
    decreases n,
{
    if n <= 0 {
        0
    } else {
        node_count(trees, n - 1) + trees[n - 1].root.size()
    }
}

impl CtrView {
    pub open spec fn finite(self) -> bool {
        self.prior_numerator.finite() && self.prior_denominator.finite() && self.shift.finite()
            && self.scale.finite()
    }
}

impl MetadataView {
    pub open spec fn finite(self) -> bool {
        forall|i: int| 0 <= i < self.ctrs.len() ==> (#[trigger] self.ctrs[i]).finite()
    }
}

impl ForestView {
    /// Whether every tree is oblivious.
    pub open spec fn all_oblivious(self) -> bool {
        forall|i: int| 0 <= i < self.trees.len() ==> (#[trigger] self.trees[i]).root.oblivious()
    }

    /// Whether some tree has a split on a set of categories.
    pub open spec fn has_categorical(self) -> bool {
        exists|i: int|
            0 <= i < self.trees.len() && (#[trigger] self.trees[i]).root.has_categorical()
    }

    /// Whether the array layout can hold the forest.
    pub open spec fn array_ok(self) -> bool {
        self.catboost_metadata is None && rust_array::all_numeric(self.trees)
    }

    /// Whether every number that has to be written as a literal is finite.
    pub open spec fn literal(self) -> bool {
        &&& self.weighted() ==> forall|i: int|
            0 <= i < self.trees.len() ==> (#[trigger] self.trees[i]).weight.finite()
        &&& forall|i: int|
            0 <= i < self.trees.len() ==> (#[trigger] self.trees[i]).root.counters_finite()
        &&& self.aggregation == AggregationKind::Sum ==> forall|c: int|
            0 <= c < self.classes() ==> (#[trigger] self.bias(c)).finite()
        &&& self.catboost_metadata matches Some(metadata) ==> metadata.finite()
    }
}

/// The layout that is used for a forest when one is requested.
pub open spec fn resolved(forest: ForestView, requested: Layout) -> Result<Layout, FailureView> {
    match requested {
        Layout::IfElse => Ok(Layout::IfElse),
        Layout::Array => if forest.array_ok() {
            Ok(Layout::Array)
        } else {
            Err(FailureView::Plain(Problem::ArrayUnsupported))
        },
        Layout::Auto => if forest.array_ok() && !forest.all_oblivious() && node_count(
            forest.trees,
            forest.trees.len() as int,
        ) > ARRAY_LAYOUT_NODE_THRESHOLD {
            Ok(Layout::Array)
        } else {
            Ok(Layout::IfElse)
        },
    }
}

fn numeric_only(node: &Node) -> (r: bool)
    ensures
        r == node@.numeric_only(),
    decreases node,
{
    match node {
        Node::Leaf { .. } => true,
        Node::Split { split, left_child, right_child, .. } => {
            let numeric: bool = match split {
                SplitKind::Numeric { .. } => true,
                _ => false,
            };
            numeric && numeric_only(left_child) && numeric_only(right_child)
        },
    }
}

/// How many nodes a tree has, as far as `usize` counts.
fn count_nodes(node: &Node) -> (r: usize)
    ensures
        r == crate::number::counted(node@.size() as int),
    decreases node,
{
    match node {
        Node::Leaf { .. } => 1,
        Node::Split { left_child, right_child, .. } => {
            let left: usize = count_nodes(left_child);
            let right: usize = count_nodes(right_child);
            left.saturating_add(right).saturating_add(1)
        },
    }
}

/// Whether a tree has a split on a set of categories.
fn has_categorical(node: &Node) -> (r: bool)
    ensures
        r == node@.has_categorical(),
    decreases node,
{
    match node {
        Node::Leaf { .. } => false,
        Node::Split { split, left_child, right_child, .. } => {
            let here: bool = match split {
                SplitKind::Categorical { .. } => true,
                _ => false,
            };
            here || has_categorical(left_child) || has_categorical(right_child)
        },
    }
}

/// Whether some tree of a forest has a split on a set of categories.
pub(crate) fn any_categorical(forest: &Forest) -> (r: bool)
    ensures
        r == forest@.has_categorical(),
{
    let mut i: usize = 0;
    while i < forest.trees.len()
        invariant
            i <= forest.trees.len(),
            forall|j: int|
                0 <= j < i ==> !(#[trigger] forest@.trees[j]).root.has_categorical(),
        decreases forest.trees.len() - i,
    {
        assert(forest@.trees[i as int].root == forest.trees[i as int].root@);
        if has_categorical(&forest.trees[i].root) {
            return true;
        }
        i = i + 1;
    }
    false
}

fn array_ok(forest: &Forest) -> (r: bool)
    ensures
        r == forest@.array_ok(),
{
    if forest.catboost_metadata.is_some() {
        return false;
    }
    let mut i: usize = 0;
    while i < forest.trees.len()
        invariant
            i <= forest.trees.len(),
            forest.catboost_metadata is None,
            forall|j: int| 0 <= j < i ==> (#[trigger] forest@.trees[j]).root.numeric_only(),
        decreases forest.trees.len() - i,
    {
        assert(forest@.trees[i as int].root == forest.trees[i as int].root@);
        if !numeric_only(&forest.trees[i].root) {
            return false;
        }
        i = i + 1;
    }
    true
}

fn all_oblivious(forest: &Forest) -> (r: bool)
    ensures
        r == forest@.all_oblivious(),
{
    let mut i: usize = 0;
    while i < forest.trees.len()
        invariant
            i <= forest.trees.len(),
            forall|j: int| 0 <= j < i ==> (#[trigger] forest@.trees[j]).root.oblivious(),
        decreases forest.trees.len() - i,
    {
        assert(forest@.trees[i as int].root == forest.trees[i as int].root@);
        if forest.trees[i].root.get_oblivious_splits().is_none() {
            return false;
        }
        i = i + 1;
    }
    true
}

/// Whether the forest has more nodes than the array layout starts at.
fn is_large(forest: &Forest) -> (r: bool)
    ensures
        r == (node_count(forest@.trees, forest.trees.len() as int) > ARRAY_LAYOUT_NODE_THRESHOLD),
{
    let mut total: usize = 0;
    let mut i: usize = 0;
    while i < forest.trees.len()
        invariant
            i <= forest.trees.len(),
            total == crate::number::counted(node_count(forest@.trees, i as int) as int),
        decreases forest.trees.len() - i,
    {
        assert(forest@.trees[i as int].root == forest.trees[i as int].root@);
        total = total.saturating_add(count_nodes(&forest.trees[i].root));
        i = i + 1;
    }
    total > ARRAY_LAYOUT_NODE_THRESHOLD
}

/// Decides which layout to use for a forest.
pub fn resolve_layout(forest: &Forest, requested: Layout) -> (r: Result<Layout, Failure>)
    ensures
        match r {
            Ok(layout) => resolved(forest@, requested) == Ok::<Layout, FailureView>(layout),
            Err(e) => resolved(forest@, requested) == Err::<Layout, FailureView>(e@),
        },
{
    match requested {
        Layout::IfElse => Ok(Layout::IfElse),
        Layout::Array => if array_ok(forest) {
            Ok(Layout::Array)
        } else {
            Err(Failure::Plain(Problem::ArrayUnsupported))
        },
        Layout::Auto => if array_ok(forest) && !all_oblivious(forest) && is_large(forest) {
            Ok(Layout::Array)
        } else {
            Ok(Layout::IfElse)
        },
    }
}

/// Appends what stands before the model: the comment and the helpers.
pub open spec fn with_preamble(out: Seq<char>, forest: ForestView) -> Seq<char> {
    let documented = out + t::DOC@;
    let sets = if forest.has_categorical() {
        documented + t::BITSET_HELPER@
    } else {
        documented
    };
    match forest.catboost_metadata {
        Some(metadata) => catboost::with_helpers(sets + t::ALLOW@, metadata),
        None => sets + t::ALLOW@,
    }
}

/// Appends the if/else layout of a model with one output.
pub open spec fn with_scalar_model(out: Seq<char>, forest: ForestView, no_std: bool) -> Seq<char> {
    let model = with_preamble(out, forest) + t::SCALAR_MODEL@;
    let methods = if forest.catboost_metadata is Some {
        model + t::PREDICT_CAT@
    } else {
        model
    };
    let scored = with_score(methods + t::SCALAR_INTERNAL@, forest, 0) + t::STATEMENT_END@;
    let transformed = with_transform(scored, forest.post_transform, no_std) + t::BLOCK_END@;
    with_tree_fns(transformed, forest.trees, forest.trees.len() as int) + t::BLOCK_END@
}

/// Appends the name of a variable.
pub open spec fn with_name(out: Seq<char>, name: NameView) -> Seq<char> {
    match name {
        NameView::Score(c) => out + t::RAW_OF@ + text::decimal(c),
        NameView::Greatest => out + t::MAX_NAME@,
        NameView::Exponential(c) => out + t::EXP_OF@ + text::decimal(c),
        NameView::Total => out + t::SUM_NAME@,
    }
}

/// Appends the greatest of some variables.
pub open spec fn with_greatest(out: Seq<char>, names: Seq<NameView>) -> Seq<char>
    decreases names.len(),
{
    if names.len() == 0 {
        out
    } else if names.len() == 1 {
        with_name(out, names[0])
    } else {
        with_name(with_greatest(out, names.drop_last()) + t::MAX_WITH@, names.last()) + t::CLOSE@
    }
}

/// Appends the sum of some variables.
pub open spec fn with_total(out: Seq<char>, names: Seq<NameView>) -> Seq<char>
    decreases names.len(),
{
    if names.len() == 0 {
        out
    } else if names.len() == 1 {
        with_name(out, names[0])
    } else {
        with_name(with_total(out, names.drop_last()) + tokens::PLUS@, names.last())
    }
}

/// Appends the exponential of the difference of two variables.
pub open spec fn with_exponential(
    out: Seq<char>,
    a: NameView,
    b: NameView,
    no_std: bool,
) -> Seq<char> {
    if no_std {
        with_name(with_name(out + t::LIBM_OPEN@, a) + t::LESS@, b) + t::LIBM_CLOSE@
    } else {
        with_name(with_name(out + t::EXP_OPEN@, a) + t::LESS@, b) + t::EXP_CLOSE@
    }
}

/// Appends the quotient of two variables as an output.
pub open spec fn with_share(out: Seq<char>, a: NameView, b: NameView) -> Seq<char> {
    with_name(with_name(out + t::OPEN@, a) + t::OVER@, b) + t::AS_SINGLE@
}

/// Appends an expression.
pub open spec fn with_expr(out: Seq<char>, expr: ExprView, no_std: bool) -> Seq<char> {
    match expr {
        ExprView::Score(sum) => with_sum(out, sum),
        ExprView::Greatest(names) => with_greatest(out, names),
        ExprView::Exponential(a, b) => with_exponential(out, a, b, no_std),
        ExprView::Total(names) => with_total(out, names),
        ExprView::Share(a, b) => with_share(out, a, b),
    }
}

/// Appends the first `n` declarations.
pub open spec fn with_lets(
    out: Seq<char>,
    lets: Seq<(NameView, ExprView)>,
    no_std: bool,
    n: int,
) -> Seq<char>
    decreases n,
{
    if n <= 0 {
        out
    } else {
        let (name, expr) = lets[n - 1];
        let head = with_name(with_lets(out, lets, no_std, n - 1) + t::LET@, name) + t::LET_TYPE@;
        with_expr(head, expr, no_std) + t::STATEMENT_END@
    }
}

/// Appends a list of the first `n` outputs.
pub open spec fn with_output_list(
    out: Seq<char>,
    outputs: Seq<ExprView>,
    no_std: bool,
    n: int,
) -> Seq<char>
    decreases n,
{
    if n <= 0 {
        out
    } else {
        let before = with_output_list(out, outputs, no_std, n - 1);
        let apart = if n > 1 {
            before + tokens::COMMA@
        } else {
            before
        };
        with_expr(apart, outputs[n - 1], no_std)
    }
}

/// Appends the declarations of the first `n` class scores.
pub open spec fn with_raws(out: Seq<char>, forest: ForestView, no_std: bool, n: int) -> Seq<char> {
    with_lets(out, MethodView::of(forest).lets, no_std, n)
}

/// Appends the greatest of the first `n` class scores.
pub open spec fn with_maxima(out: Seq<char>, n: int) -> Seq<char> {
    with_greatest(out, code::score_names(n as nat))
}

/// Appends the declarations of the first `n` exponentials.
pub open spec fn with_exps(out: Seq<char>, no_std: bool, n: int) -> Seq<char> {
    with_lets(out, code::exponential_lets(n as nat), no_std, n)
}

/// Appends the sum of the first `n` exponentials.
pub open spec fn with_exp_sum(out: Seq<char>, n: int) -> Seq<char> {
    with_total(out, code::exponential_names(n as nat))
}

/// Appends the probability of class `c`.
pub open spec fn with_probability(out: Seq<char>, c: int) -> Seq<char> {
    with_share(out, NameView::Exponential(c as nat), NameView::Total)
}

/// Appends a list of the first `n` probabilities.
pub open spec fn with_probabilities(out: Seq<char>, n: int) -> Seq<char> {
    with_output_list(out, code::shares(n as nat), false, n)
}

/// Appends the assignment of an output to its place.
pub open spec fn with_assignment(
    out: Seq<char>,
    place: nat,
    output: ExprView,
    no_std: bool,
) -> Seq<char> {
    with_expr(out + t::OUT_AT@ + (place as usize).spelling() + t::OUT_IS@, output, no_std)
        + t::STATEMENT_END@
}

/// Appends assignments of the first `n` outputs.
pub open spec fn with_assignments(
    out: Seq<char>,
    outputs: Seq<ExprView>,
    no_std: bool,
    n: int,
) -> Seq<char>
    decreases n,
{
    if n <= 0 {
        out
    } else {
        with_assignment(
            with_assignments(out, outputs, no_std, n - 1),
            (n - 1) as nat,
            outputs[n - 1],
            no_std,
        )
    }
}

/// Appends the body of the method for several outputs and its end.
pub open spec fn with_method(out: Seq<char>, method: MethodView, no_std: bool) -> Seq<char> {
    let n = method.outputs.len() as int;
    let declared = with_lets(out, method.lets, no_std, method.lets.len() as int);
    if no_std {
        with_assignments(declared, method.outputs, no_std, n) + t::BRACE@
    } else {
        with_output_list(declared + t::VEC_OPEN@, method.outputs, no_std, n) + t::VEC_CLOSE@
    }
}

/// The difference of a class score to the greatest.
pub open spec fn difference(c: int) -> Seq<char> {
    with_name(with_name(seq![], NameView::Score(c as nat)) + t::LESS@, NameView::Greatest)
}

/// Appends the softmax of `n` class scores and the end of its method.
pub open spec fn with_softmax(out: Seq<char>, n: int, no_std: bool) -> Seq<char> {
    let head = with_name(out + t::LET@, NameView::Greatest) + t::LET_TYPE@;
    let greatest = with_maxima(head, n) + t::STATEMENT_END@;
    let exps = with_exps(greatest, no_std, n);
    let total = with_name(exps + t::LET@, NameView::Total) + t::LET_TYPE@;
    let summed = with_exp_sum(total, n) + t::STATEMENT_END@;
    if no_std {
        with_assignments(summed, code::shares(n as nat), true, n) + t::BRACE@
    } else {
        with_probabilities(summed + t::VEC_OPEN@, n) + t::VEC_CLOSE@
    }
}

/// Appends the methods of a model with several outputs, up to the scores.
pub open spec fn with_softmax_methods(out: Seq<char>, forest: ForestView, no_std: bool) -> Seq<
    char,
> {
    let classes = forest.classes() as usize;
    let model = out + t::SOFTMAX_MODEL@ + classes.spelling();
    if no_std {
        model + t::SOFTMAX_INTO@ + classes.spelling() + t::SOFTMAX_INTO_INTERNAL@
    } else {
        let proba = model + t::SOFTMAX_PROBA@;
        let methods = if forest.catboost_metadata is Some {
            proba + t::PREDICT_CAT_PROBA@
        } else {
            proba
        };
        methods + t::SOFTMAX_BATCH@ + classes.spelling() + t::SOFTMAX_INTERNAL@
    }
}

/// Appends the if/else layout of a model with several outputs.
pub open spec fn with_softmax_model(out: Seq<char>, forest: ForestView, no_std: bool) -> Seq<char> {
    let methods = with_softmax_methods(with_preamble(out, forest), forest, no_std);
    let predicted = with_method(methods, MethodView::of(forest), no_std);
    with_tree_fns(predicted, forest.trees, forest.trees.len() as int) + t::BLOCK_END@
}

/// Why no source can be generated for a forest in the if/else layout.
pub open spec fn ifelse_failure(forest: ForestView) -> Option<FailureView> {
    let classes = forest.classes();
    let missing = match forest.catboost_metadata {
        Some(metadata) => metadata.missing_table(0),
        None => None,
    };
    match missing {
        Some(identifier) => Some(
            FailureView::About { complaint: Complaint::CtrTable, text: identifier },
        ),
        None => softmax_failure(forest),
    }
}

/// Why the trees of a forest do not spread over its classes.
pub open spec fn softmax_failure(forest: ForestView) -> Option<FailureView> {
    let classes = forest.classes();
    if forest.post_transform is Softmax && classes < 2 {
        Some(FailureView::Plain(Problem::SoftmaxClasses { classes: classes as usize }))
    } else if forest.trees.len() as int % (classes as int) != 0 {
        Some(
            FailureView::Plain(
                Problem::UnevenSoftmax {
                    trees: forest.trees.len() as usize,
                    classes: classes as usize,
                },
            ),
        )
    } else {
        None
    }
}

/// The if/else source of a forest.
pub open spec fn ifelse_source(forest: ForestView, no_std: bool) -> Seq<char> {
    if forest.post_transform is Softmax {
        with_softmax_model(seq![], forest, no_std)
    } else {
        with_scalar_model(seq![], forest, no_std)
    }
}

fn push_preamble(out: &mut String, forest: &Forest) -> (r: Result<(), Failure>)
    ensures
        match r {
            Ok(_) => (forest@.catboost_metadata matches Some(metadata) ==> metadata.missing_table(
                0,
            ) is None) && final(out)@ == with_preamble(old(out)@, forest@),
            Err(e) => forest@.catboost_metadata matches Some(metadata) && metadata.missing_table(
                0,
            ) matches Some(identifier) && e@ == (FailureView::About {
                complaint: Complaint::CtrTable,
                text: identifier,
            }),
        },
{
    out.append(t::DOC);
    if any_categorical(forest) {
        out.append(t::BITSET_HELPER);
    }
    out.append(t::ALLOW);
    match &forest.catboost_metadata {
        Some(metadata) => catboost::build_catboost_helpers(out, metadata),
        None => Ok(()),
    }
}

fn push_scalar_model(out: &mut String, forest: &Forest, no_std: bool)
    requires
        !(forest.post_transform is Softmax),
    ensures
        forall|before: Seq<char>|
            old(out)@ == #[trigger] with_preamble(before, forest@) ==> final(out)@
                == with_scalar_model(before, forest@, no_std),
{
    out.append(t::SCALAR_MODEL);
    if forest.catboost_metadata.is_some() {
        out.append(t::PREDICT_CAT);
    }
    out.append(t::SCALAR_INTERNAL);
    push_score(out, forest, 1, 0);
    out.append(t::STATEMENT_END);
    post_transform_expr(out, forest.post_transform, no_std);
    out.append(t::BLOCK_END);
    push_tree_fns(out, &forest.trees);
    out.append(t::BLOCK_END);
}

/// A variable of the generated method for several outputs.
#[derive(Clone, Copy)]
enum Name {
    Score(usize),
    Greatest,
    Exponential(usize),
    Total,
}

impl Name {
    spec fn model(self) -> NameView {
        match self {
            Name::Score(c) => NameView::Score(c as nat),
            Name::Greatest => NameView::Greatest,
            Name::Exponential(c) => NameView::Exponential(c as nat),
            Name::Total => NameView::Total,
        }
    }
}

fn push_name(out: &mut String, name: Name)
    ensures
        final(out)@ == with_name(old(out)@, name.model()),
{
    match name {
        Name::Score(c) => {
            out.append(t::RAW_OF);
            text::push_decimal(out, c as u64);
        },
        Name::Greatest => out.append(t::MAX_NAME),
        Name::Exponential(c) => {
            out.append(t::EXP_OF);
            text::push_decimal(out, c as u64);
        },
        Name::Total => out.append(t::SUM_NAME),
    }
}

/// Appends the start of a declaration.
fn push_let(out: &mut String, name: Name)
    ensures
        final(out)@ == with_name(old(out)@ + t::LET@, name.model()) + t::LET_TYPE@,
{
    out.append(t::LET);
    push_name(out, name);
    out.append(t::LET_TYPE);
}

fn push_raws(out: &mut String, forest: &Forest, classes: usize, no_std: bool)
    requires
        classes == forest@.classes(),
    ensures
        final(out)@ == with_raws(old(out)@, forest@, no_std, classes as int),
{
    let ghost lets = MethodView::of(forest@).lets;
    let mut c: usize = 0;
    while c < classes
        invariant
            c <= classes == forest@.classes(),
            lets == MethodView::of(forest@).lets,
            out@ == with_raws(old(out)@, forest@, no_std, c as int),
        decreases classes - c,
    {
        assert(lets[c as int] == MethodView::declared(forest@, c as int));
        push_let(out, Name::Score(c));
        push_score(out, forest, classes, c);
        out.append(t::STATEMENT_END);
        c = c + 1;
    }
}

fn push_maxima(out: &mut String, classes: usize)
    requires
        classes >= 1,
    ensures
        final(out)@ == with_maxima(old(out)@, classes as int),
{
    let mut c: usize = 1;
    push_name(out, Name::Score(0));
    while c < classes
        invariant
            1 <= c <= classes,
            out@ == with_maxima(old(out)@, c as int),
        decreases classes - c,
    {
        proof {
            let longer = code::score_names((c + 1) as nat);
            assert(longer.drop_last() =~= code::score_names(c as nat));
        }
        out.append(t::MAX_WITH);
        push_name(out, Name::Score(c));
        out.append(t::CLOSE);
        c = c + 1;
    }
}

/// Declarations may be written in two parts.
proof fn lemma_lets_in_parts(
    out: Seq<char>,
    lets: Seq<(NameView, ExprView)>,
    part: Seq<(NameView, ExprView)>,
    no_std: bool,
    at: int,
    n: int,
)
    requires
        0 <= at,
        forall|k: int| 0 <= k < n ==> #[trigger] part[k] == lets[at + k],
    ensures
        n >= 0 ==> with_lets(with_lets(out, lets, no_std, at), part, no_std, n) == with_lets(
            out,
            lets,
            no_std,
            at + n,
        ),
    decreases n,
{
    if n > 0 {
        lemma_lets_in_parts(out, lets, part, no_std, at, n - 1);
        assert(part[n - 1] == lets[at + (n - 1)]);
    }
}

fn push_exps(out: &mut String, classes: usize, no_std: bool)
    ensures
        final(out)@ == with_exps(old(out)@, no_std, classes as int),
{
    let ghost lets = code::exponential_lets(classes as nat);
    let mut c: usize = 0;
    while c < classes
        invariant
            c <= classes,
            lets == code::exponential_lets(classes as nat),
            out@ == with_lets(old(out)@, lets, no_std, c as int),
        decreases classes - c,
    {
        push_let(out, Name::Exponential(c));
        push_exponential(out, Name::Score(c), Name::Greatest, no_std);
        out.append(t::STATEMENT_END);
        c = c + 1;
    }
}

fn push_exponential(out: &mut String, a: Name, b: Name, no_std: bool)
    ensures
        final(out)@ == with_exponential(old(out)@, a.model(), b.model(), no_std),
{
    if no_std {
        out.append(t::LIBM_OPEN);
    } else {
        out.append(t::EXP_OPEN);
    }
    push_name(out, a);
    out.append(t::LESS);
    push_name(out, b);
    if no_std {
        out.append(t::LIBM_CLOSE);
    } else {
        out.append(t::EXP_CLOSE);
    }
}

fn push_exp_sum(out: &mut String, classes: usize)
    ensures
        final(out)@ == with_exp_sum(old(out)@, classes as int),
{
    let mut c: usize = 0;
    while c < classes
        invariant
            c <= classes,
            out@ == with_exp_sum(old(out)@, c as int),
        decreases classes - c,
    {
        proof {
            let longer = code::exponential_names((c + 1) as nat);
            assert(longer.drop_last() =~= code::exponential_names(c as nat));
        }
        if c > 0 {
            out.append(tokens::PLUS);
        }
        push_name(out, Name::Exponential(c));
        c = c + 1;
    }
}

fn push_probability(out: &mut String, c: usize)
    ensures
        final(out)@ == with_probability(old(out)@, c as int),
{
    out.append(t::OPEN);
    push_name(out, Name::Exponential(c));
    out.append(t::OVER);
    push_name(out, Name::Total);
    out.append(t::AS_SINGLE);
}

fn push_probabilities(out: &mut String, classes: usize)
    ensures
        final(out)@ == with_probabilities(old(out)@, classes as int),
{
    let ghost outputs = code::shares(classes as nat);
    let mut c: usize = 0;
    while c < classes
        invariant
            c <= classes,
            outputs == code::shares(classes as nat),
            out@ == with_output_list(old(out)@, outputs, false, c as int),
        decreases classes - c,
    {
        if c > 0 {
            out.append(tokens::COMMA);
        }
        push_probability(out, c);
        c = c + 1;
    }
}

fn push_assignments(out: &mut String, classes: usize)
    ensures
        final(out)@ == with_assignments(
            old(out)@,
            code::shares(classes as nat),
            true,
            classes as int,
        ),
{
    let ghost outputs = code::shares(classes as nat);
    let mut c: usize = 0;
    while c < classes
        invariant
            c <= classes,
            outputs == code::shares(classes as nat),
            out@ == with_assignments(old(out)@, outputs, true, c as int),
        decreases classes - c,
    {
        out.append(t::OUT_AT);
        c.put(out);
        out.append(t::OUT_IS);
        push_probability(out, c);
        out.append(t::STATEMENT_END);
        c = c + 1;
    }
}

/// Appends the body of the method for several outputs and its end.
fn push_method(out: &mut String, forest: &Forest, classes: usize, no_std: bool)
    requires
        classes == forest@.classes(),
        classes >= 1,
    ensures
        final(out)@ == with_method(old(out)@, MethodView::of(forest@), no_std),
{
    let ghost lets = MethodView::of(forest@).lets;
    let ghost start = out@;
    push_raws(out, forest, classes, no_std);
    assert(lets[classes as int] == MethodView::declared(forest@, classes as int));
    push_let(out, Name::Greatest);
    push_maxima(out, classes);
    out.append(t::STATEMENT_END);
    assert(out@ == with_lets(start, lets, no_std, classes + 1));
    push_exps(out, classes, no_std);
    proof {
        let exps = code::exponential_lets(classes as nat);
        assert forall|k: int| 0 <= k < classes implies #[trigger] exps[k] == lets[(classes + 1)
            + k] by {
            assert(lets[(classes + 1) + k] == MethodView::declared(forest@, (classes + 1) + k));
        }
        lemma_lets_in_parts(start, lets, exps, no_std, classes + 1, classes as int);
    }
    assert(lets[2 * classes + 1] == MethodView::declared(forest@, 2 * classes + 1));
    push_let(out, Name::Total);
    push_exp_sum(out, classes);
    out.append(t::STATEMENT_END);
    assert(out@ == with_lets(start, lets, no_std, 2 * classes + 2));
    if no_std {
        push_assignments(out, classes);
        out.append(t::BRACE);
    } else {
        out.append(t::VEC_OPEN);
        push_probabilities(out, classes);
        out.append(t::VEC_CLOSE);
    }
}

fn push_softmax_methods(out: &mut String, forest: &Forest, classes: usize, no_std: bool)
    requires
        classes == forest@.classes(),
    ensures
        final(out)@ == with_softmax_methods(old(out)@, forest@, no_std),
{
    out.append(t::SOFTMAX_MODEL);
    classes.put(out);
    if no_std {
        out.append(t::SOFTMAX_INTO);
        classes.put(out);
        out.append(t::SOFTMAX_INTO_INTERNAL);
    } else {
        out.append(t::SOFTMAX_PROBA);
        if forest.catboost_metadata.is_some() {
            out.append(t::PREDICT_CAT_PROBA);
        }
        out.append(t::SOFTMAX_BATCH);
        classes.put(out);
        out.append(t::SOFTMAX_INTERNAL);
    }
}

fn build_softmax_model(out: &mut String, forest: &Forest, n_classes: usize, no_std: bool)
    requires
        n_classes == forest@.classes(),
        n_classes >= 1,
    ensures
        forall|before: Seq<char>|
            old(out)@ == #[trigger] with_preamble(before, forest@) ==> final(out)@
                == with_softmax_model(before, forest@, no_std),
{
    push_softmax_methods(out, forest, n_classes, no_std);
    push_method(out, forest, n_classes, no_std);
    push_tree_fns(out, &forest.trees);
    out.append(t::BLOCK_END);
}

/// The if/else layout:
///
/// - a set helper, if the forest has splits on categories
/// - the hash and the counters, if it is a CatBoost model with categorical features
/// - a `Model` with its prediction methods
/// - one function per tree
fn generate_ifelse(forest: &Forest, no_std: bool) -> (r: Result<String, Failure>)
    ensures
        match r {
            Ok(code) => ifelse_failure(forest@) is None && code@ == ifelse_source(
                forest@,
                no_std,
            ),
            Err(e) => ifelse_failure(forest@) == Some(e@),
        },
{
    let mut out = String::new();
    match push_preamble(&mut out, forest) {
        Err(e) => {
            return Err(e);
        },
        Ok(_) => {},
    }
    match softmax_refusal(forest) {
        Some(e) => {
            return Err(e);
        },
        None => {},
    }
    match forest.post_transform {
        PostTransform::Softmax { n_classes } => {
            build_softmax_model(&mut out, forest, n_classes, no_std);
        },
        _ => {
            push_scalar_model(&mut out, forest, no_std);
        },
    }
    Ok(out)
}

/// Why no source can be generated for a forest.
pub open spec fn failure(forest: ForestView, options: CodegenOptions) -> Option<FailureView> {
    if forest.trees.len() == 0 {
        Some(FailureView::Plain(Problem::EmptyForest))
    } else {
        match resolved(forest, options.layout) {
            Err(e) => Some(e),
            Ok(layout) => if options.no_std && forest.catboost_metadata is Some {
                Some(FailureView::Plain(Problem::NoStdCatboost))
            } else if layout == Layout::Array {
                rust_array::array_failure(forest)
            } else {
                ifelse_failure(forest)
            },
        }
    }
}

/// The source that is generated for a forest.
pub open spec fn source(forest: ForestView, options: CodegenOptions) -> Seq<char> {
    if resolved(forest, options.layout) == Ok::<Layout, FailureView>(Layout::Array) {
        rust_array::array_source(forest, options.no_std)
    } else {
        ifelse_source(forest, options.no_std)
    }
}

/// Generates a standalone Rust source file from a forest.
pub fn generate_with_options(forest: &Forest, options: CodegenOptions) -> (r: Result<
    String,
    Failure,
>)
    requires
        failure(forest@, options) is None ==> forest@.literal(),
    ensures
        match r {
            Ok(code) => failure(forest@, options) is None && code@ == source(forest@, options),
            Err(e) => failure(forest@, options) == Some(e@),
        },
{
    if forest.trees.len() == 0 {
        return Err(Failure::Plain(Problem::EmptyForest));
    }
    match resolve_layout(forest, options.layout) {
        Err(e) => Err(e),
        Ok(layout) => {
            if options.no_std && forest.catboost_metadata.is_some() {
                return Err(Failure::Plain(Problem::NoStdCatboost));
            }
            if layout == Layout::Array {
                rust_array::generate(forest, options.no_std)
            } else {
                generate_ifelse(forest, options.no_std)
            }
        },
    }
}

/// Generates a standalone Rust source file in the requested layout.
pub fn generate_with_layout(forest: &Forest, layout: Layout) -> (r: Result<String, Failure>)
    requires
        failure(forest@, (CodegenOptions { layout, no_std: false })) is None ==> forest@.literal(),
    ensures
        ({
            let options = CodegenOptions { layout, no_std: false };
            match r {
                Ok(code) => failure(forest@, options) is None && code@ == source(forest@, options),
                Err(e) => failure(forest@, options) == Some(e@),
            }
        }),
{
    generate_with_options(forest, CodegenOptions { layout, no_std: false })
}

/// Generates a standalone Rust source file, choosing the layout automatically.
pub fn generate(forest: &Forest) -> (r: Result<String, Failure>)
    requires
        failure(forest@, (CodegenOptions { layout: Layout::Auto, no_std: false })) is None
            ==> forest@.literal(),
    ensures
        ({
            let options = CodegenOptions { layout: Layout::Auto, no_std: false };
            match r {
                Ok(code) => failure(forest@, options) is None && code@ == source(forest@, options),
                Err(e) => failure(forest@, options) == Some(e@),
            }
        }),
{
    generate_with_layout(forest, Layout::Auto)
}

fn counters_finite(node: &Node) -> (r: bool)
    ensures
        r == node@.counters_finite(),
    decreases node,
{
    match node {
        Node::Leaf { .. } => true,
        Node::Split { split, left_child, right_child, missing_direction, .. } => {
            let here: bool = match split {
                SplitKind::OnlineCtr { threshold, .. } => *missing_direction
                    == MissingDirection::NaVsRest || threshold.is_finite(),
                _ => true,
            };
            here && counters_finite(left_child) && counters_finite(right_child)
        },
    }
}

/// Why no source can be generated for a forest in the if/else layout.
fn ifelse_refusal(forest: &Forest) -> (r: Option<Failure>)
    ensures
        match r {
            Some(e) => ifelse_failure(forest@) == Some(e@),
            None => ifelse_failure(forest@) is None,
        },
{
    match &forest.catboost_metadata {
        Some(metadata) => match catboost::find_missing_table(metadata) {
            Some(identifier) => {
                return Some(Failure::About { complaint: Complaint::CtrTable, text: identifier });
            },
            None => {},
        },
        None => {},
    }
    softmax_refusal(forest)
}

/// Why the trees of a forest do not spread over its classes.
pub(crate) fn softmax_refusal(forest: &Forest) -> (r: Option<Failure>)
    ensures
        match r {
            Some(e) => softmax_failure(forest@) == Some(e@),
            None => softmax_failure(forest@) is None,
        },
{
    match forest.post_transform {
        PostTransform::Softmax { n_classes } => {
            if n_classes < 2 {
                Some(Failure::Plain(Problem::SoftmaxClasses { classes: n_classes }))
            } else if forest.trees.len() % n_classes != 0 {
                Some(
                    Failure::Plain(
                        Problem::UnevenSoftmax { trees: forest.trees.len(), classes: n_classes },
                    ),
                )
            } else {
                None
            }
        },
        _ => None,
    }
}

/// Why no source can be generated for a forest; nothing if it can.
pub fn refusal(forest: &Forest, options: CodegenOptions) -> (r: Option<Failure>)
    ensures
        match r {
            Some(e) => failure(forest@, options) == Some(e@),
            None => failure(forest@, options) is None,
        },
{
    if forest.trees.len() == 0 {
        return Some(Failure::Plain(Problem::EmptyForest));
    }
    match resolve_layout(forest, options.layout) {
        Err(e) => Some(e),
        Ok(layout) => {
            if options.no_std && forest.catboost_metadata.is_some() {
                return Some(Failure::Plain(Problem::NoStdCatboost));
            }
            if layout == Layout::Array {
                match rust_array::FlatForest::from_trees(&forest.trees) {
                    Err(e) => Some(e),
                    Ok(_) => softmax_refusal(forest),
                }
            } else {
                ifelse_refusal(forest)
            }
        },
    }
}

/// Whether every number of the forest that has to be written as a literal is finite, which
/// code generation requires of a forest that it does not refuse.
pub fn is_literal(forest: &Forest) -> (r: bool)
    ensures
        r == forest@.literal(),
{
    let weighted: bool = interpreter::weights_count(forest);
    let mut i: usize = 0;
    while i < forest.trees.len()
        invariant
            i <= forest.trees.len(),
            weighted == forest@.weighted(),
            weighted ==> forall|j: int|
                0 <= j < i ==> (#[trigger] forest@.trees[j]).weight.finite(),
            forall|j: int| 0 <= j < i ==> (#[trigger] forest@.trees[j]).root.counters_finite(),
        decreases forest.trees.len() - i,
    {
        assert(forest@.trees[i as int] == forest.trees[i as int]@);
        if weighted && !forest.trees[i].weight.is_finite() {
            return false;
        }
        if !counters_finite(&forest.trees[i].root) {
            return false;
        }
        i = i + 1;
    }
    if forest.aggregation == AggregationKind::Sum {
        let classes: usize = match forest.post_transform {
            PostTransform::Softmax { n_classes } => n_classes,
            _ => 1,
        };
        let mut c: usize = 0;
        while c < classes
            invariant
                c <= classes == forest@.classes(),
                forest.aggregation == AggregationKind::Sum,
                forall|k: int| 0 <= k < c ==> (#[trigger] forest@.bias(k)).finite(),
            decreases classes - c,
        {
            if !bias_of(forest, c).is_finite() {
                return false;
            }
            c = c + 1;
        }
    }
    match &forest.catboost_metadata {
        None => true,
        Some(metadata) => metadata_finite(metadata),
    }
}

fn metadata_finite(metadata: &CatboostMetadata) -> (r: bool)
    ensures
        r == metadata@.finite(),
{
    let mut k: usize = 0;
    while k < metadata.ctrs.len()
        invariant
            k <= metadata.ctrs.len(),
            forall|j: int| 0 <= j < k ==> (#[trigger] metadata@.ctrs[j]).finite(),
        decreases metadata.ctrs.len() - k,
    {
        let ctr = &metadata.ctrs[k];
        assert(metadata@.ctrs[k as int] == ctr@);
        if !ctr.prior_numerator.is_finite() || !ctr.prior_denominator.is_finite()
            || !ctr.shift.is_finite() || !ctr.scale.is_finite() {
            return false;
        }
        k = k + 1;
    }
    true
}

/// What a variable is called.
pub open spec fn name_of(name: NameView) -> Seq<char> {
    with_name(seq![], name)
}

proof fn lemma_name(out: Seq<char>, name: NameView)
    ensures
        with_name(out, name) == out + name_of(name),
        !name_of(name).contains(' '),
        name_of(name).len() > 0,
{
    reveal_strlit("raw_");
    reveal_strlit("max_raw");
    reveal_strlit("e_");
    reveal_strlit("sum_e");
    assert("raw_"@.len() == 4 && "max_raw"@.len() == 7 && "e_"@.len() == 2 && "sum_e"@.len() == 5);
    assert(with_name(out, name) =~= out + name_of(name));
    match name {
        NameView::Score(c) => {
            text::decimals_write_the_number(c);
            assert(name_of(name) =~= "raw_"@ + text::decimal(c));
            assert forall|i: int| 0 <= i < name_of(name).len() implies name_of(name)[i] != ' ' by {
                if i >= 4 {
                    assert(text::is_digit(text::decimal(c)[i - 4]));
                }
            }
        },
        NameView::Exponential(c) => {
            text::decimals_write_the_number(c);
            assert(name_of(name) =~= "e_"@ + text::decimal(c));
            assert forall|i: int| 0 <= i < name_of(name).len() implies name_of(name)[i] != ' ' by {
                if i >= 2 {
                    assert(text::is_digit(text::decimal(c)[i - 2]));
                }
            }
        },
        NameView::Greatest => {
            assert(name_of(name) =~= "max_raw"@);
        },
        NameView::Total => {
            assert(name_of(name) =~= "sum_e"@);
        },
    }
}

/// Different variables have different names.
pub proof fn names_tell_variables_apart(a: NameView, b: NameView)
    ensures
        name_of(a) == name_of(b) ==> a == b,
{
    reveal_strlit("raw_");
    reveal_strlit("max_raw");
    reveal_strlit("e_");
    reveal_strlit("sum_e");
    assert("raw_"@.len() == 4 && "max_raw"@.len() == 7 && "e_"@.len() == 2 && "sum_e"@.len() == 5);
    assert("raw_"@[0] == 'r' && "max_raw"@[0] == 'm' && "e_"@[0] == 'e' && "sum_e"@[0] == 's');
    if name_of(a) == name_of(b) {
        assert(name_of(a)[0] == name_of(b)[0]);
        match (a, b) {
            (NameView::Score(c), NameView::Score(d)) => {
                assert(text::decimal(c) =~= name_of(a).skip(4));
                assert(text::decimal(d) =~= name_of(b).skip(4));
                text::decimals_tell_numbers_apart(c, d);
            },
            (NameView::Exponential(c), NameView::Exponential(d)) => {
                assert(text::decimal(c) =~= name_of(a).skip(2));
                assert(text::decimal(d) =~= name_of(b).skip(2));
                text::decimals_tell_numbers_apart(c, d);
            },
            _ => {},
        }
    }
}

/// Two variables with something between them, a space at either end of it.
proof fn lemma_pair(
    a: NameView,
    b: NameView,
    c: NameView,
    d: NameView,
    between: Seq<char>,
)
    requires
        between.len() > 0,
        between[0] == ' ',
        between.last() == ' ',
        name_of(a) + between + name_of(b) == name_of(c) + between + name_of(d),
    ensures
        a == c,
        b == d,
{
    lemma_name(seq![], a);
    lemma_name(seq![], b);
    lemma_name(seq![], c);
    lemma_name(seq![], d);
    let x = between + name_of(b);
    let y = between + name_of(d);
    assert(name_of(a) + between + name_of(b) =~= name_of(a) + x);
    assert(name_of(c) + between + name_of(d) =~= name_of(c) + y);
    text::words_end_at_a_space(name_of(a), x, name_of(c), y);
    assert(name_of(b) =~= x.skip(between.len() as int));
    assert(name_of(d) =~= y.skip(between.len() as int));
    names_tell_variables_apart(a, c);
    names_tell_variables_apart(b, d);
}

proof fn lemma_middle(x: Seq<char>, a: Seq<char>, b: Seq<char>, y: Seq<char>)
    requires
        x + a + y == x + b + y,
    ensures
        a == b,
{
    let s = x + a + y;
    let r = x + b + y;
    assert(s.len() == r.len());
    assert(a =~= s.subrange(x.len() as int, (x.len() + a.len()) as int));
    assert(b =~= r.subrange(x.len() as int, (x.len() + b.len()) as int));
}

/// The texts of exponentials and of outputs tell which variables they are of.
pub proof fn texts_tell_operands_apart(
    out: Seq<char>,
    a: NameView,
    b: NameView,
    c: NameView,
    d: NameView,
    no_std: bool,
)
    ensures
        with_exponential(out, a, b, no_std) == with_exponential(out, c, d, no_std) ==> a == c && b
            == d,
        with_share(out, a, b) == with_share(out, c, d) ==> a == c && b == d,
{
    reveal_strlit(" - ");
    reveal_strlit(" / ");
    assert(" - "@.len() == 3 && " / "@.len() == 3);
    if no_std {
        lemma_wrapped(out + t::LIBM_OPEN@, a, b, c, d, t::LESS@, t::LIBM_CLOSE@);
    } else {
        lemma_wrapped(out + t::EXP_OPEN@, a, b, c, d, t::LESS@, t::EXP_CLOSE@);
    }
    lemma_wrapped(out + t::OPEN@, a, b, c, d, t::OVER@, t::AS_SINGLE@);
}

proof fn lemma_unwrapped(
    open: Seq<char>,
    a: NameView,
    b: NameView,
    between: Seq<char>,
    close: Seq<char>,
)
    ensures
        with_name(with_name(open, a) + between, b) + close == open + (name_of(a) + between
            + name_of(b)) + close,
{
    lemma_name(open, a);
    lemma_name(with_name(open, a) + between, b);
    assert(with_name(with_name(open, a) + between, b) + close =~= open + (name_of(a) + between
        + name_of(b)) + close);
}

proof fn lemma_wrapped(
    open: Seq<char>,
    a: NameView,
    b: NameView,
    c: NameView,
    d: NameView,
    between: Seq<char>,
    close: Seq<char>,
)
    requires
        between.len() > 0,
        between[0] == ' ',
        between.last() == ' ',
    ensures
        with_name(with_name(open, a) + between, b) + close == with_name(
            with_name(open, c) + between,
            d,
        ) + close ==> a == c && b == d,
{
    if with_name(with_name(open, a) + between, b) + close == with_name(
        with_name(open, c) + between,
        d,
    ) + close {
        lemma_unwrapped(open, a, b, between, close);
        lemma_unwrapped(open, c, d, between, close);
        lemma_middle(
            open,
            name_of(a) + between + name_of(b),
            name_of(c) + between + name_of(d),
            close,
        );
        lemma_pair(a, b, c, d, between);
    }
}

/// The texts of the greatest and of the sum of some variables tell which variables they are of.
pub proof fn texts_tell_lists_apart(out: Seq<char>, a: Seq<NameView>, b: Seq<NameView>)
    requires
        a.len() == b.len(),
    ensures
        with_greatest(out, a) == with_greatest(out, b) ==> a == b,
        with_total(out, a) == with_total(out, b) ==> a == b,
    decreases a.len(),
{
    if a.len() == 0 {
        assert(a =~= b);
    } else if a.len() == 1 {
        lemma_name(out, a[0]);
        lemma_name(out, b[0]);
        if with_name(out, a[0]) == with_name(out, b[0]) {
            assert(name_of(a[0]) =~= with_name(out, a[0]).skip(out.len() as int));
            assert(name_of(b[0]) =~= with_name(out, b[0]).skip(out.len() as int));
            names_tell_variables_apart(a[0], b[0]);
            assert(a =~= b);
        }
    } else {
        reveal_strlit(" . max (");
        reveal_strlit(" + ");
        reveal_strlit(")");
        assert(" . max ("@.len() == 8 && " + "@.len() == 3 && ")"@.len() == 1);
        texts_tell_lists_apart(out, a.drop_last(), b.drop_last());
        lemma_name(with_greatest(out, a.drop_last()) + t::MAX_WITH@, a.last());
        lemma_name(with_greatest(out, b.drop_last()) + t::MAX_WITH@, b.last());
        lemma_name(with_total(out, a.drop_last()) + tokens::PLUS@, a.last());
        lemma_name(with_total(out, b.drop_last()) + tokens::PLUS@, b.last());
        if with_total(out, a) == with_total(out, b) {
            let x = with_total(out, a.drop_last()) + tokens::PLUS@;
            let y = with_total(out, b.drop_last()) + tokens::PLUS@;
            text::words_start_behind_a_space(x, name_of(a.last()), y, name_of(b.last()));
            names_tell_variables_apart(a.last(), b.last());
            assert(with_total(out, a.drop_last()) =~= x.take(x.len() - 3));
            assert(with_total(out, b.drop_last()) =~= y.take(y.len() - 3));
            assert(a.drop_last().push(a.last()) =~= a);
            assert(b.drop_last().push(b.last()) =~= b);
        }
        if with_greatest(out, a) == with_greatest(out, b) {
            let before = with_greatest(out, a.drop_last());
            let other = with_greatest(out, b.drop_last());
            let bracket = seq!['('];
            let w = seq![' ', '.', ' ', 'm', 'a', 'x', ' '];
            assert(t::MAX_WITH@ =~= w + bracket);
            let p = with_greatest(out, a);
            let q = with_greatest(out, b);
            let u = bracket + name_of(a.last()) + t::CLOSE@;
            let v = bracket + name_of(b.last()) + t::CLOSE@;
            assert(p =~= (before + w) + u);
            assert(q =~= (other + w) + v);
            assert(!u.contains(' ')) by {
                assert forall|i: int| 0 <= i < u.len() implies u[i] != ' ' by {
                    if 0 < i < u.len() - 1 {
                        assert(u[i] == name_of(a.last())[i - 1]);
                    }
                }
            }
            assert(!v.contains(' ')) by {
                assert forall|i: int| 0 <= i < v.len() implies v[i] != ' ' by {
                    if 0 < i < v.len() - 1 {
                        assert(v[i] == name_of(b.last())[i - 1]);
                    }
                }
            }
            text::words_start_behind_a_space(before + w, u, other + w, v);
            lemma_middle(bracket, name_of(a.last()), name_of(b.last()), t::CLOSE@);
            names_tell_variables_apart(a.last(), b.last());
            assert(before =~= (before + w).take((before + w).len() - 7));
            assert(other =~= (other + w).take((other + w).len() - 7));
            assert(a.drop_last().push(a.last()) =~= a);
            assert(b.drop_last().push(b.last()) =~= b);
        }
    }
}

/// The texts of assignments tell to which place they assign, and which output.
pub proof fn texts_tell_places_apart(
    out: Seq<char>,
    place: usize,
    other: usize,
    a: ExprView,
    b: ExprView,
    no_std: bool,
)
    requires
        a is Share,
        b is Share,
    ensures
        with_assignment(out, place as nat, a, no_std) == with_assignment(
            out,
            other as nat,
            b,
            no_std,
        ) ==> place == other && a == b,
{
    reveal_strlit("usize");
    reveal_strlit("] = ");
    assert("usize"@.len() == 5 && "] = "@.len() == 4);
    if with_assignment(out, place as nat, a, no_std) == with_assignment(
        out,
        other as nat,
        b,
        no_std,
    ) {
        text::decimals_write_the_number(place as nat);
        text::decimals_write_the_number(other as nat);
        let x = text::decimal(place as nat);
        let y = text::decimal(other as nat);
        let head = out + t::OUT_AT@;
        let p = head + place.spelling() + t::OUT_IS@;
        let q = head + other.spelling() + t::OUT_IS@;
        lemma_share_grows(p, a->Share_0, a->Share_1);
        lemma_share_grows(q, b->Share_0, b->Share_1);
        let e = with_share(seq![], a->Share_0, a->Share_1);
        let f = with_share(seq![], b->Share_0, b->Share_1);
        let rest = "usize"@ + t::OUT_IS@ + e + t::STATEMENT_END@;
        let last = "usize"@ + t::OUT_IS@ + f + t::STATEMENT_END@;
        let first = with_assignment(out, place as nat, a, no_std);
        let second = with_assignment(out, other as nat, b, no_std);
        assert(first =~= head + (x + rest));
        assert(second =~= head + (y + last));
        assert(x + rest =~= first.skip(head.len() as int));
        assert(y + last =~= second.skip(head.len() as int));
        text::digits_end_where_they_end(x, rest, y, last);
        text::decimals_tell_numbers_apart(place as nat, other as nat);
        assert(rest =~= ("usize"@ + t::OUT_IS@) + e + t::STATEMENT_END@);
        assert(last =~= ("usize"@ + t::OUT_IS@) + f + t::STATEMENT_END@);
        lemma_middle("usize"@ + t::OUT_IS@, e, f, t::STATEMENT_END@);
        texts_tell_operands_apart(
            seq![],
            a->Share_0,
            a->Share_1,
            b->Share_0,
            b->Share_1,
            no_std,
        );
    }
}

proof fn lemma_share_grows(out: Seq<char>, a: NameView, b: NameView)
    ensures
        with_share(out, a, b) == out + with_share(seq![], a, b),
{
    lemma_name(out + t::OPEN@, a);
    lemma_name(seq![] + t::OPEN@, a);
    lemma_name(with_name(out + t::OPEN@, a) + t::OVER@, b);
    lemma_name(with_name(seq![] + t::OPEN@, a) + t::OVER@, b);
    assert(with_share(out, a, b) =~= out + with_share(seq![], a, b));
}

/// Every operator is spelled as Rust spells it, and a missing value passes a test exactly where
/// the guard lets it.
pub proof fn tests_are_spelled_as_rust(operator: Operator)
    ensures
        comparison(operator) == "val "@ + (match operator {
            Operator::LessThan => "<"@,
            Operator::LessOrEqual => "<="@,
            Operator::GreaterThan => ">"@,
            Operator::GreaterOrEqual => ">="@,
            Operator::Equal => "=="@,
            Operator::NotEqual => "!="@,
        }) + " "@,
        guard(true) == "val . is_nan () || "@,
        guard(false) == "! val . is_nan () && "@,
{
    reveal_strlit("val ");
    reveal_strlit(" ");
    reveal_strlit("<");
    reveal_strlit("<=");
    reveal_strlit(">");
    reveal_strlit(">=");
    reveal_strlit("==");
    reveal_strlit("!=");
    reveal_strlit("val < ");
    reveal_strlit("val <= ");
    reveal_strlit("val > ");
    reveal_strlit("val >= ");
    reveal_strlit("val == ");
    reveal_strlit("val != ");
    assert("val "@ =~= seq!['v', 'a', 'l', ' ']);
    assert(" "@ =~= seq![' ']);
    match operator {
        Operator::LessThan => {
            assert("<"@ =~= seq!['<']);
            assert("val < "@ =~= "val "@ + "<"@ + " "@);
        },
        Operator::LessOrEqual => {
            assert("<="@ =~= seq!['<', '=']);
            assert("val <= "@ =~= "val "@ + "<="@ + " "@);
        },
        Operator::GreaterThan => {
            assert(">"@ =~= seq!['>']);
            assert("val > "@ =~= "val "@ + ">"@ + " "@);
        },
        Operator::GreaterOrEqual => {
            assert(">="@ =~= seq!['>', '=']);
            assert("val >= "@ =~= "val "@ + ">="@ + " "@);
        },
        Operator::Equal => {
            assert("=="@ =~= seq!['=', '=']);
            assert("val == "@ =~= "val "@ + "=="@ + " "@);
        },
        Operator::NotEqual => {
            assert("!="@ =~= seq!['!', '=']);
            assert("val != "@ =~= "val "@ + "!="@ + " "@);
        },
    }
}

/// The transforms are spelled as Rust spells them: the logistic function, the exponential up to
/// the greatest single, and the score itself.
pub proof fn transforms_are_spelled_as_rust(out: Seq<char>, transform: PostTransform)
    ensures
        transform == PostTransform::Logit ==> with_transform(out, transform, false) == out
            + "(1.0f64 / (1.0f64 + "@ + "("@ + "- raw"@ + ") . exp ()"@ + ")) as f32"@
            && with_transform(out, transform, true) == out + "(1.0f64 / (1.0f64 + "@
            + "libm :: exp ("@ + "- raw"@ + ")"@ + ")) as f32"@,
        transform == PostTransform::Log ==> with_transform(out, transform, false) == out
            + "raw . exp ()"@ + " . min (f32 :: MAX as f64) as f32"@ && with_transform(
            out,
            transform,
            true,
        ) == out + "libm :: exp ("@ + "raw"@ + ")"@ + " . min (f32 :: MAX as f64) as f32"@,
        transform == PostTransform::Identity ==> with_transform(out, transform, false) == out
            + "raw as f32"@ && with_transform(out, transform, true) == out + "raw as f32"@,
{
}

/// The steps of a softmax are spelled as Rust spells them.
pub proof fn softmax_steps_are_spelled_as_rust(
    out: Seq<char>,
    names: Seq<NameView>,
    a: NameView,
    b: NameView,
)
    ensures
        with_exponential(out, a, b, false) == with_name(
            with_name(out + "("@, a) + " - "@,
            b,
        ) + ") . exp ()"@,
        with_exponential(out, a, b, true) == with_name(
            with_name(out + "libm :: exp ("@, a) + " - "@,
            b,
        ) + ")"@,
        with_share(out, a, b) == with_name(with_name(out + "("@, a) + " / "@, b) + ") as f32"@,
        names.len() > 1 ==> with_greatest(out, names) == with_name(
            with_greatest(out, names.drop_last()) + " . max ("@,
            names.last(),
        ) + ")"@,
        names.len() > 1 ==> with_total(out, names) == with_name(
            with_total(out, names.drop_last()) + " + "@,
            names.last(),
        ),
{
}

proof fn lemma_condition_grows(out: Seq<char>, condition: ConditionView)
    ensures
        with_condition(out, condition) == out + with_condition(seq![], condition),
{
    assert(with_condition(out, condition) =~= out + with_condition(seq![], condition));
}

/// The texts of two tests of a lookup that differ in their feature or in their bit differ.
pub proof fn texts_tell_tests_apart(
    out: Seq<char>,
    condition: ConditionView,
    f: usize,
    g: usize,
    x: usize,
    y: usize,
)
    ensures
        with_test(out, (TestView { feature_idx: f, condition, bit: x as nat })) == with_test(
            out,
            (TestView { feature_idx: g, condition, bit: y as nat }),
        ) ==> f == g && x == y,
{
    let a = TestView { feature_idx: f, condition, bit: x as nat };
    let b = TestView { feature_idx: g, condition, bit: y as nat };
    if with_test(out, a) == with_test(out, b) {
        reveal_strlit("usize");
        assert("usize"@.len() == 5);
        text::decimals_write_the_number(f as nat);
        text::decimals_write_the_number(g as nat);
        text::decimals_write_the_number(x as nat);
        text::decimals_write_the_number(y as nat);
        let head = out + t::TEST@;
        lemma_condition_grows(head + f.spelling() + t::TEST_CONDITION@, condition);
        lemma_condition_grows(head + g.spelling() + t::TEST_CONDITION@, condition);
        let middle = "usize"@ + t::TEST_CONDITION@ + with_condition(seq![], condition)
            + t::TEST_BIT@;
        let tail = "usize"@ + t::TEST_END@;
        let p = text::decimal(x as nat) + tail;
        let q = text::decimal(y as nat) + tail;
        lemma_numbered(head, f, middle + p);
        lemma_numbered(head, g, middle + q);
        assert(with_test(out, a) =~= head + (text::decimal(f as nat) + (middle + p)));
        assert(with_test(out, b) =~= head + (text::decimal(g as nat) + (middle + q)));
        lemma_after(head, text::decimal(f as nat) + (middle + p), text::decimal(g as nat) + (middle
            + q));
        assert((middle + p)[0] == "usize"@[0]);
        assert((middle + q)[0] == "usize"@[0]);
        text::digits_end_where_they_end(
            text::decimal(f as nat),
            middle + p,
            text::decimal(g as nat),
            middle + q,
        );
        text::decimals_tell_numbers_apart(f as nat, g as nat);
        lemma_after(middle, p, q);
        assert(tail[0] == "usize"@[0]);
        text::digits_end_where_they_end(text::decimal(x as nat), tail, text::decimal(y as nat), tail);
        text::decimals_tell_numbers_apart(x as nat, y as nat);
    }
}

proof fn lemma_numbered(head: Seq<char>, n: usize, tail: Seq<char>)
    ensures
        head + (text::decimal(n as nat) + tail) == head + text::decimal(n as nat) + tail,
{
    assert(head + (text::decimal(n as nat) + tail) =~= head + text::decimal(n as nat) + tail);
}

proof fn lemma_after(head: Seq<char>, a: Seq<char>, b: Seq<char>)
    requires
        head + a == head + b,
    ensures
        a == b,
{
    assert(a =~= (head + a).skip(head.len() as int));
    assert(b =~= (head + b).skip(head.len() as int));
}

proof fn lemma_code_grows(out: Seq<char>, code: CodeView)
    ensures
        with_code(out, code) == out + with_code(seq![], code),
    decreases code,
{
    match code {
        CodeView::Value(value) => {
            assert(with_code(out, code) =~= out + with_code(seq![], code));
        },
        CodeView::Branch { feature_idx, condition, yes, no } => {
            let head = out + t::BRANCH@ + feature_idx.spelling() + t::BRANCH_IF@;
            let bare = Seq::<char>::empty() + t::BRANCH@ + feature_idx.spelling() + t::BRANCH_IF@;
            lemma_condition_grows(head, condition);
            lemma_condition_grows(bare, condition);
            let tested = with_condition(head, condition) + t::BRANCH_LEFT@;
            let bare_tested = with_condition(bare, condition) + t::BRANCH_LEFT@;
            lemma_code_grows(tested, *yes);
            lemma_code_grows(bare_tested, *yes);
            let other = with_code(tested, *yes) + t::BRANCH_ELSE@;
            let bare_other = with_code(bare_tested, *yes) + t::BRANCH_ELSE@;
            lemma_code_grows(other, *no);
            lemma_code_grows(bare_other, *no);
            assert(head =~= out + bare);
            assert(tested =~= out + bare_tested);
            assert(other =~= out + bare_other);
            assert(with_code(out, code) =~= out + with_code(seq![], code));
        },
    }
}

/// The texts of two branches that differ in their feature differ, whatever they test and return.
pub proof fn texts_tell_features_apart(out: Seq<char>, a: CodeView, b: CodeView)
    requires
        a is Branch,
        b is Branch,
    ensures
        with_code(out, a) == with_code(out, b) ==> a->feature_idx == b->feature_idx,
{
    if with_code(out, a) == with_code(out, b) {
        reveal_strlit("usize");
        assert("usize"@.len() == 5);
        let f = a->feature_idx;
        let g = b->feature_idx;
        text::decimals_write_the_number(f as nat);
        text::decimals_write_the_number(g as nat);
        let x = lemma_branch(out, a);
        let y = lemma_branch(out, b);
        lemma_after(
            out + t::BRANCH@,
            text::decimal(f as nat) + ("usize"@ + x),
            text::decimal(g as nat) + ("usize"@ + y),
        );
        assert(("usize"@ + x)[0] == "usize"@[0]);
        assert(("usize"@ + y)[0] == "usize"@[0]);
        text::digits_end_where_they_end(
            text::decimal(f as nat),
            "usize"@ + x,
            text::decimal(g as nat),
            "usize"@ + y,
        );
        text::decimals_tell_numbers_apart(f as nat, g as nat);
    }
}

#[verifier::rlimit(50)]
#[verifier::spinoff_prover]
proof fn lemma_branch(out: Seq<char>, code: CodeView) -> (rest: Seq<char>)
    requires
        code is Branch,
    ensures
        with_code(out, code) == (out + t::BRANCH@) + (text::decimal(code->feature_idx as nat) + (
        "usize"@ + rest)),
{
    let head = out + t::BRANCH@ + code->feature_idx.spelling() + t::BRANCH_IF@;
    let condition = code->condition;
    lemma_condition_grows(head, condition);
    let tested = with_condition(head, condition) + t::BRANCH_LEFT@;
    lemma_code_grows(tested, *code->yes);
    let other = with_code(tested, *code->yes) + t::BRANCH_ELSE@;
    lemma_code_grows(other, *code->no);
    let rest = t::BRANCH_IF@ + with_condition(seq![], condition) + t::BRANCH_LEFT@ + with_code(
        seq![],
        *code->yes,
    ) + t::BRANCH_ELSE@ + with_code(seq![], *code->no) + t::BRANCH_END@;
    assert(with_code(out, code) =~= (out + t::BRANCH@) + (text::decimal(
        code->feature_idx as nat,
    ) + ("usize"@ + rest)));
    rest
}

/// The texts of two calls of tree functions in a sum differ if they call different trees.
pub proof fn texts_tell_calls_apart(
    out: Seq<char>,
    before: Seq<CallView>,
    i: nat,
    j: nat,
    weight: Option<F64>,
)
    ensures
        with_calls(out, before.push(CallView { tree: i as int, weight })) == with_calls(
            out,
            before.push(CallView { tree: j as int, weight }),
        ) ==> i == j,
{
    let a = before.push(CallView { tree: i as int, weight });
    let b = before.push(CallView { tree: j as int, weight });
    assert(a.drop_last() =~= before);
    assert(b.drop_last() =~= before);
    if with_calls(out, a) == with_calls(out, b) {
        reveal_strlit(" (features , ctrs)");
        assert(" (features , ctrs)"@.len() == 18);
        text::decimals_write_the_number(i);
        text::decimals_write_the_number(j);
        let apart = if a.len() > 1 {
            with_calls(out, before) + tokens::PLUS@
        } else {
            with_calls(out, before)
        };
        let tail = match weight {
            Some(w) => t::CALL_ARGUMENTS@ + t::TIMES@ + w.spelling(),
            None => t::CALL_ARGUMENTS@,
        };
        let head = apart + t::CALL@;
        assert(with_calls(out, a) =~= head + (text::decimal(i) + tail));
        assert(with_calls(out, b) =~= head + (text::decimal(j) + tail));
        lemma_after(head, text::decimal(i) + tail, text::decimal(j) + tail);
        assert(tail[0] == ' ');
        text::digits_end_where_they_end(text::decimal(i), tail, text::decimal(j), tail);
        text::decimals_tell_numbers_apart(i, j);
    }
}

/// The methods for several outputs are spelled as Rust spells them: a batch holds the outputs of
/// its rows side by side.
pub proof fn methods_are_spelled_as_rust(out: Seq<char>, forest: ForestView)
    requires
        forest.post_transform is Softmax,
    ensures
        ({
            let n = text::decimal(forest.classes()) + "usize"@;
            let head = out
                + " pub struct Model ; # [allow (unused_variables , dead_code)] impl Model { pub const N_CLASSES : usize = "@
                + n;
            &&& forest.catboost_metadata is None ==> with_softmax_methods(out, forest, false)
                == head
                + " ; pub fn predict_proba (& self , features : & [f32]) -> Vec < f32 > { self . predict_proba_internal (features , & []) }"@
                + " pub fn predict_batch (& self , features : & [f32] , n_features : usize , out : & mut [f32]) { let n_classes = "@
                + n
                + " ; for (i , row) in features . chunks_exact (n_features) . enumerate () { let probs = self . predict_proba (row) ; for (j , prob) in probs . into_iter () . enumerate () { out [i * n_classes + j] = prob ; } } } fn predict_proba_internal (& self , features : & [f32] , ctrs : & [f64]) -> Vec < f32 > { "@
            &&& forest.catboost_metadata is Some ==> with_softmax_methods(out, forest, false)
                == head
                + " ; pub fn predict_proba (& self , features : & [f32]) -> Vec < f32 > { self . predict_proba_internal (features , & []) }"@
                + " pub fn predict_cat_proba (& self , float_features : & [f32] , cat_features : & [& str]) -> Vec < f32 > { let ctrs = calculate_ctrs (float_features , cat_features) ; self . predict_proba_internal (float_features , & ctrs) }"@
                + " pub fn predict_batch (& self , features : & [f32] , n_features : usize , out : & mut [f32]) { let n_classes = "@
                + n
                + " ; for (i , row) in features . chunks_exact (n_features) . enumerate () { let probs = self . predict_proba (row) ; for (j , prob) in probs . into_iter () . enumerate () { out [i * n_classes + j] = prob ; } } } fn predict_proba_internal (& self , features : & [f32] , ctrs : & [f64]) -> Vec < f32 > { "@
            &&& with_softmax_methods(out, forest, true) == head
                + " ; pub fn predict_proba_into (& self , features : & [f32] , out : & mut [f32]) { self . predict_proba_internal (features , & [] , out) } pub fn predict_batch (& self , features : & [f32] , n_features : usize , out : & mut [f32]) { let n_classes = "@
                + n
                + " ; for (i , row) in features . chunks_exact (n_features) . enumerate () { self . predict_proba_into (row , & mut out [i * n_classes .. (i + 1) * n_classes]) ; } } fn predict_proba_internal (& self , features : & [f32] , ctrs : & [f64] , out : & mut [f32]) { "@
        }),
{
    assert(forest.classes() <= usize::MAX);
}

/// The lookup of a leaf is spelled as Rust spells it: the bits of the tests that hold are set in
/// the position of the leaf.
pub proof fn lookups_are_spelled_as_rust(out: Seq<char>, lookup: LookupView, test: TestView)
    ensures
        with_lookup(out, lookup) == with_tests(
            out + "let index = 0usize"@,
            lookup.tests,
            lookup.tests.len() as int,
        ) + " ; const LEAVES : [f64 ; "@ + (lookup.leaves.len() as usize).spelling() + "] = ["@
            + tokens::joined(tokens::spellings(lookup.leaves), " , "@)
            + "] ; LEAVES [index] }"@,
        with_test(out, test) == with_condition(
            out + " | if { let val = features ["@ + test.feature_idx.spelling() + "] ; "@,
            test.condition,
        ) + " } { "@ + (test.bit as usize).spelling() + " } else { 0 }"@,
{
}

/// A sum is spelled as Rust spells it, and calls the functions by the names that they have.
pub proof fn sums_are_spelled_as_rust(out: Seq<char>, sum: SumView, i: nat, root: NodeView)
    ensures
        t::CALL@ == "Self :: "@ + t::TREE_NAME@,
        sum.divisor is None ==> with_sum(out, sum) == with_calls(
            out + sum.start.spelling() + " + "@,
            sum.calls,
        ),
        sum.divisor matches Some(n) ==> with_sum(out, sum) == with_calls(
            out + "("@ + sum.start.spelling() + " + "@,
            sum.calls,
        ) + ") / "@ + text::decimal(n as nat) + "f64"@,
        !root.oblivious() ==> with_tree_fn(out, i as int, root) == with_code(
            out + " # [inline (always)] # [allow (unused_variables)] fn "@ + "tree_"@
                + text::decimal(i) + " (features : & [f32] , ctrs : & [f64]) -> f64 { "@,
            CodeView::of(root),
        ) + " }"@,
        root.oblivious() ==> with_tree_fn(out, i as int, root) == with_lookup(
            out + " # [inline (always)] # [allow (unused_variables)] fn "@ + "tree_"@
                + text::decimal(i) + " (features : & [f32] , ctrs : & [f64]) -> f64 { "@,
            LookupView::of(root.spine(), root.leaves()),
        ),
{
    reveal_strlit("Self :: tree_");
    reveal_strlit("Self :: ");
    reveal_strlit("tree_");
    assert("Self :: "@.len() == 8 && "tree_"@.len() == 5 && "Self :: tree_"@.len() == 13);
    assert("Self :: tree_"@ =~= "Self :: "@ + "tree_"@);
}

/// Resolving a layout leaves no choice open, and resolving it again changes nothing.
pub proof fn resolution_is_final(forest: ForestView, requested: Layout)
    requires
        resolved(forest, requested) is Ok,
    ensures
        resolved(forest, requested)->Ok_0 != Layout::Auto,
        resolved(forest, resolved(forest, requested)->Ok_0) == resolved(forest, requested),
{
}

/// The array layout is used for numeric-only forests alone.
pub proof fn array_layout_is_numeric(forest: ForestView, requested: Layout)
    requires
        resolved(forest, requested) == Ok::<Layout, FailureView>(Layout::Array),
    ensures
        rust_array::all_numeric(forest.trees),
        forest.catboost_metadata is None,
{
}

/// Every layout computes a score alike: the expression of the if/else layout and the loop of
/// the array layout start with the same number, add the same terms in the same order and
/// divide by the same number, on every row and for every class. Feature indices and the number
/// of nodes have to fit the arrays.
pub proof fn layouts_agree(
    forest: ForestView,
    c: int,
    row: Seq<crate::number::F32>,
    ctrs: Seq<F64>,
    steps: nat,
)
    requires
        rust_array::all_numeric(forest.trees),
        forall|i: int|
            0 <= i < forest.trees.len() ==> (#[trigger] forest.trees[i]).root.storable()
                && forest.trees[i].root.splits() <= steps,
        rust_array::FlatView::of(forest.trees).fits(),
    ensures
        rust_array::FlatView::of(forest.trees).contributions(
            forest.classes() as int,
            c,
            rust_array::LoopView::of(forest, c).weighted,
            row,
            steps,
            forest.trees.len() as int,
        ) == code::contributions(forest.trees, SumView::of(forest, c).calls, row, ctrs),
        rust_array::LoopView::of(forest, c).start == SumView::of(forest, c).start,
        rust_array::LoopView::of(forest, c).divisor == SumView::of(forest, c).divisor,
{
    assert forall|i: int| 0 <= i < forest.trees.len() implies (
    #[trigger] forest.trees[i]).root.counter_free() by {
        lemma_numeric_is_counter_free(forest.trees[i].root);
    }
    code::generated_scores_add_the_terms(forest, c, row, ctrs);
    rust_array::array_scores_add_the_terms(forest, c, row, steps);
}

proof fn lemma_numeric_is_counter_free(node: NodeView)
    requires
        node.numeric_only(),
    ensures
        node.counter_free(),
    decreases node,
{
    if let NodeView::Split { left, right, .. } = node {
        lemma_numeric_is_counter_free(*left);
        lemma_numeric_is_counter_free(*right);
    }
}

/// Which layout is used: the requested one, if the forest can be laid out so; where the choice is
/// left open, arrays for numeric forests of more than ten thousand nodes that are not all
/// oblivious, and branches for all others.
pub proof fn layouts_are_chosen_by_size(forest: ForestView)
    ensures
        resolved(forest, Layout::IfElse) == Ok::<Layout, FailureView>(Layout::IfElse),
        resolved(forest, Layout::Array) is Ok <==> forest.catboost_metadata is None && forall|
            i: int,
        |
            0 <= i < forest.trees.len() ==> (#[trigger] forest.trees[i]).root.numeric_only(),
        resolved(forest, Layout::Array) matches Ok(layout) ==> layout == Layout::Array,
        resolved(forest, Layout::Auto) == Ok::<Layout, FailureView>(
            if resolved(forest, Layout::Array) is Ok && node_count(
                forest.trees,
                forest.trees.len() as int,
            ) > 10000 && !(forall|i: int|
                0 <= i < forest.trees.len() ==> (#[trigger] forest.trees[i]).root.oblivious()) {
                Layout::Array
            } else {
                Layout::IfElse
            },
        ),
{
}

/// For which forests source is generated: not for one without trees, nor for counters without
/// the standard library or without a table, and for several classes only if there are two at
/// least and the trees spread over them.
pub proof fn source_is_refused_for_a_reason(forest: ForestView, no_std: bool)
    ensures
        ({
            let options = CodegenOptions { layout: Layout::IfElse, no_std };
            let refused = failure(forest, options);
            let n = forest.classes() as int;
            &&& forest.trees.len() == 0 ==> refused == Some(
                FailureView::Plain(Problem::EmptyForest),
            )
            &&& forest.trees.len() > 0 && forest.catboost_metadata is None && !(
            forest.post_transform is Softmax) ==> refused is None
            &&& forest.trees.len() > 0 && forest.catboost_metadata is None
                && forest.post_transform is Softmax ==> (refused is None <==> n >= 2
                && forest.trees.len() as int % n == 0)
            &&& forest.trees.len() > 0 && forest.catboost_metadata is Some && no_std ==> refused
                == Some(FailureView::Plain(Problem::NoStdCatboost))
        }),
{
    assert(forest.trees.len() as int % 1 == 0);
}

/// The method for several outputs declares the scores, and is the softmax of them from there on.
pub proof fn methods_are_the_softmax_of_the_scores(
    out: Seq<char>,
    forest: ForestView,
    no_std: bool,
)
    requires
        forest.classes() >= 1,
    ensures
        ({
            let n = forest.classes() as int;
            with_method(out, MethodView::of(forest), no_std) == with_softmax(
                with_raws(out, forest, no_std, n),
                n,
                no_std,
            )
        }),
{
    let n = forest.classes() as int;
    let lets = MethodView::of(forest).lets;
    let exps = code::exponential_lets(n as nat);
    assert(lets[n] == MethodView::declared(forest, n));
    assert forall|k: int| 0 <= k < n implies #[trigger] exps[k] == lets[(n + 1) + k] by {
        assert(lets[(n + 1) + k] == MethodView::declared(forest, (n + 1) + k));
    }
    lemma_lets_in_parts(out, lets, exps, no_std, n + 1, n);
    assert(lets[2 * n + 1] == MethodView::declared(forest, 2 * n + 1));
    assert(with_lets(out, lets, no_std, (n + 1) + n) == with_lets(out, lets, no_std, 2 * n + 1));
}

/// An exponential in the method for several outputs is that of the difference of a class score to
/// the greatest.
pub proof fn exponentials_are_of_differences(out: Seq<char>, c: nat, no_std: bool)
    ensures
        with_exponential(out, NameView::Score(c), NameView::Greatest, no_std) == with_exp(
            out,
            difference(c as int),
            no_std,
        ),
{
    assert(with_exponential(out, NameView::Score(c), NameView::Greatest, no_std) =~= with_exp(
        out,
        difference(c as int),
        no_std,
    ));
}

} // verus!
