//! Direct evaluation of a forest.
//!
//! Routing a row through the trees is exact and is done here. What remains for the
//! caller is arithmetic: a [`Prediction`] lists, per output, the terms to add up in
//! order, so that everybody who adds them gets bit-identical results.
use crate::error::{Failure, Problem};
#[allow(unused_imports)]
use crate::error::FailureView;
use crate::ir::{AggregationKind, Forest, MissingDirection, Node, Operator, PostTransform, SplitKind};
#[allow(unused_imports)]
use crate::ir::{ForestView, NodeView, SplitView};
use crate::number::{F32, F64, ONE_BITS};
use vstd::prelude::*;

verus! {

/// Bit `k` of a byte.
pub open spec fn bit(byte: u8, k: int) -> bool {
    byte & (1u8 << (k as u8)) != 0
}

/// Whether a category is in the set whose `nbits` bits start at category `bitoff`. A set
/// of 2^31 or more bits holds nothing: its size does not fit the signed index.
pub open spec fn member(bitoff: int, nbits: int, data: Seq<u8>, category: int) -> bool {
    let index = category - bitoff;
    0 <= index < nbits && nbits < 0x8000_0000 && bit(data[index / 8], index % 8)
}

/// Whether looking up a category in a set stays within the bytes of the set.
pub open spec fn within_data(bitoff: int, nbits: int, data: Seq<u8>, category: int) -> bool {
    let index = category - bitoff;
    0 <= index < nbits && nbits < 0x8000_0000 ==> index / 8 < data.len()
}

/// `value <operator> threshold`.
pub open spec fn compares(operator: Operator, value: F32, threshold: F32) -> bool {
    match operator {
        Operator::LessThan => value.less(threshold),
        Operator::LessOrEqual => value.at_most(threshold),
        Operator::GreaterThan => threshold.less(value),
        Operator::GreaterOrEqual => threshold.at_most(value),
        Operator::Equal => value.same(threshold),
        Operator::NotEqual => !value.same(threshold),
    }
}

impl SplitView {
    /// Whether a value goes left at a split that is not on a counter.
    pub open spec fn goes_left(self, missing: MissingDirection, value: F32) -> bool {
        if missing == MissingDirection::NaVsRest {
            !value.nan()
        } else if value.nan() {
            missing == MissingDirection::Left
        } else {
            match self {
                SplitView::Numeric { threshold, operator } => compares(operator, value, threshold),
                SplitView::Categorical { bitoff, nbits, data } => !member(
                    bitoff as int,
                    nbits as int,
                    data,
                    value.truncated(),
                ),
                SplitView::OnlineCtr { .. } => false,
            }
        }
    }

    /// Whether deciding the split for a value stays within the bytes of its set. The value
    /// that is no number counts as category zero, and a split on missing values alone reads no
    /// set.
    pub open spec fn stays_within(self, missing: MissingDirection, value: F32) -> bool {
        missing != MissingDirection::NaVsRest ==> (self matches SplitView::Categorical {
            bitoff,
            nbits,
            data,
        } ==> within_data(bitoff as int, nbits as int, data, value.truncated()))
    }

    /// Whether the split can be decided from one feature alone.
    pub open spec fn decidable(self, missing: MissingDirection) -> bool {
        missing == MissingDirection::NaVsRest || !(self is OnlineCtr)
    }
}

impl NodeView {
    /// The leaf value that a row reaches, or why it reaches none.
    pub open spec fn value(self, row: Seq<F32>) -> Result<F64, FailureView>
        decreases self,
    {
        match self {
            NodeView::Leaf { value } => Ok(value),
            NodeView::Split { feature_idx, split, left, right, missing } => {
                if feature_idx >= row.len() {
                    Err(
                        FailureView::Plain(
                            Problem::FeatureOutOfBounds {
                                index: feature_idx,
                                count: row.len() as usize,
                            },
                        ),
                    )
                } else if !split.decidable(missing) {
                    Err(FailureView::Plain(Problem::CtrSplit))
                } else if split.goes_left(missing, row[feature_idx as int]) {
                    left.value(row)
                } else {
                    right.value(row)
                }
            },
        }
    }
}

impl NodeView {
    /// Whether the way of a row through the tree stays within the bytes of the sets on it.
    pub open spec fn stays_within(self, row: Seq<F32>) -> bool
        decreases self,
    {
        match self {
            NodeView::Leaf { .. } => true,
            NodeView::Split { feature_idx, split, left, right, missing } => feature_idx < row.len()
                ==> {
                let value = row[feature_idx as int];
                split.stays_within(missing, value) && (split.decidable(missing) ==> if split.goes_left(
                    missing,
                    value,
                ) {
                    left.stays_within(row)
                } else {
                    right.stays_within(row)
                })
            },
        }
    }
}

/// One tree's part in a score: the leaf it reached, and the factor of it.
#[derive(Debug, Clone, Copy, PartialEq, Eq, Structural)]
pub struct Term {
    pub leaf: F64,
    pub weight: F64,
}

/// How to compute one score: add `leaf * weight` of every term to `start`, in order,
/// then divide if there is a divisor.
#[derive(Debug)]
pub struct Score {
    pub start: F64,
    pub terms: Vec<Term>,
    pub divisor: Option<usize>,
}

/// How to compute a prediction: one score per output, then the transform over them.
#[derive(Debug)]
pub struct Prediction {
    pub scores: Vec<Score>,
    pub post_transform: PostTransform,
}

#[verifier::ext_equal]
pub ghost struct ScoreView {
    pub start: F64,
    pub terms: Seq<Term>,
    pub divisor: Option<usize>,
}

#[verifier::ext_equal]
pub ghost struct PredictionView {
    pub scores: Seq<ScoreView>,
    pub post_transform: PostTransform,
}

impl View for Score {
    type V = ScoreView;

    open spec fn view(&self) -> ScoreView {
        ScoreView { start: self.start, terms: self.terms@, divisor: self.divisor }
    }
}

impl View for Prediction {
    type V = PredictionView;

    open spec fn view(&self) -> PredictionView {
        PredictionView {
            scores: self.scores@.map_values(|s: Score| s@),
            post_transform: self.post_transform,
        }
    }
}

impl ForestView {
    /// How many outputs the model has.
    pub open spec fn classes(self) -> nat {
        match self.post_transform {
            PostTransform::Softmax { n_classes } => n_classes as nat,
            _ => 1,
        }
    }

    /// The failure of the first tree at or after `from` that has one.
    pub open spec fn first_failure(self, row: Seq<F32>, from: int) -> Option<FailureView>
        decreases self.trees.len() - from,
    {
        if from < 0 || from >= self.trees.len() {
            None
        } else {
            match self.trees[from].root.value(row) {
                Err(e) => Some(e),
                Ok(_) => self.first_failure(row, from + 1),
            }
        }
    }

    /// Whether the tree weights count: they do not in the average of a model with one output.
    pub open spec fn weighted(self) -> bool {
        self.aggregation == AggregationKind::Sum || self.post_transform is Softmax
    }

    /// The factor of tree `i`.
    pub open spec fn factor(self, i: int) -> F64 {
        if self.weighted() {
            self.trees[i].weight
        } else {
            F64 { bits: ONE_BITS }
        }
    }

    /// The terms of class `c` among the first `n` trees.
    pub open spec fn terms(self, row: Seq<F32>, c: int, n: int) -> Seq<Term>
        decreases n,
    {
        if n <= 0 {
            seq![]
        } else if (n - 1) % (self.classes() as int) == c {
            self.terms(row, c, n - 1).push(
                Term {
                    leaf: self.trees[n - 1].root.value(row)->Ok_0,
                    weight: self.factor(n - 1),
                },
            )
        } else {
            self.terms(row, c, n - 1)
        }
    }

    /// The bias of class `c`.
    pub open spec fn bias(self, c: int) -> F64 {
        if self.post_transform is Softmax && 0 <= c < self.base_scores.len() {
            self.base_scores[c]
        } else {
            self.base_score
        }
    }

    /// How the score of class `c` is computed.
    pub open spec fn score(self, row: Seq<F32>, c: int) -> ScoreView {
        ScoreView {
            start: match self.aggregation {
                AggregationKind::Sum => self.bias(c),
                AggregationKind::Average => F64 { bits: 0 },
            },
            terms: self.terms(row, c, self.trees.len() as int),
            divisor: match self.aggregation {
                AggregationKind::Sum => None,
                AggregationKind::Average => Some(
                    (self.trees.len() as int / self.classes() as int) as usize,
                ),
            },
        }
    }

    /// Whether the trees spread evenly over the classes.
    pub open spec fn even(self) -> bool {
        self.post_transform is Softmax ==> self.classes() >= 2 && self.trees.len() as int % (
        self.classes() as int) == 0
    }

    /// Whether the trees from `from` on, up to the first that fails, stay within the bytes of
    /// their sets.
    pub open spec fn stays_within_from(self, row: Seq<F32>, from: int) -> bool
        decreases self.trees.len() - from,
    {
        0 <= from < self.trees.len() ==> {
            let root = self.trees[from].root;
            root.stays_within(row) && (root.value(row) is Ok ==> self.stays_within_from(
                row,
                from + 1,
            ))
        }
    }

    /// Whether predicting a row stays within the bytes of the sets that it reads.
    pub open spec fn stays_within(self, row: Seq<F32>) -> bool {
        self.catboost_metadata is None && self.even() ==> self.stays_within_from(row, 0)
    }

    /// What the model predicts for a row.
    pub open spec fn prediction(self, row: Seq<F32>) -> Result<PredictionView, FailureView> {
        if self.catboost_metadata is Some {
            Err(FailureView::Plain(Problem::CtrModel))
        } else if !self.even() {
            Err(
                FailureView::Plain(
                    Problem::SoftmaxTrees {
                        trees: self.trees.len() as usize,
                        classes: self.classes() as usize,
                    },
                ),
            )
        } else if let Some(e) = self.first_failure(row, 0) {
            Err(e)
        } else {
            Ok(
                PredictionView {
                    scores: Seq::new(self.classes(), |c: int| self.score(row, c)),
                    post_transform: self.post_transform,
                },
            )
        }
    }
}

/// Whether a category is in a set.
fn bitset_contains(bitoff: u16, nbits: u32, data: &Vec<u8>, category: i32) -> (r: bool)
    requires
        within_data(bitoff as int, nbits as int, data@, category as int),
    ensures
        r == member(bitoff as int, nbits as int, data@, category as int),
{
    let index: i64 = category as i64 - bitoff as i64;
    if index < 0 || index >= nbits as i64 || nbits >= 0x8000_0000 {
        return false;
    }
    let at: usize = (index / 8) as usize;
    let k: u8 = (index % 8) as u8;
    (data[at] & (1u8 << k)) != 0
}

/// Whether a value goes left at a split.
fn condition(split: &SplitKind, missing_direction: MissingDirection, val: F32) -> (r: Result<
    bool,
    Failure,
>)
    requires
        split@.stays_within(missing_direction, val),
    ensures
        match r {
            Ok(left) => split@.decidable(missing_direction) && left == split@.goes_left(
                missing_direction,
                val,
            ),
            Err(e) => !split@.decidable(missing_direction) && e@ == FailureView::Plain(
                Problem::CtrSplit,
            ),
        },
{
    if missing_direction == MissingDirection::NaVsRest {
        return Ok(!val.is_nan());
    }
    match split {
        SplitKind::Numeric { threshold, operator } => {
            let holds: bool = match operator {
                Operator::LessThan => val.lt(*threshold),
                Operator::LessOrEqual => val.le(*threshold),
                Operator::GreaterThan => threshold.lt(val),
                Operator::GreaterOrEqual => threshold.le(val),
                Operator::Equal => val.equals(*threshold),
                Operator::NotEqual => !val.equals(*threshold),
            };
            Ok(
                match missing_direction {
                    MissingDirection::Left => val.is_nan() || holds,
                    _ => !val.is_nan() && holds,
                },
            )
        },
        SplitKind::Categorical { bitoff, nbits, data } => {
            let membership: bool = bitset_contains(*bitoff, *nbits, data, val.to_i32());
            Ok(
                match missing_direction {
                    MissingDirection::Left => val.is_nan() || !membership,
                    _ => !val.is_nan() && !membership,
                },
            )
        },
        SplitKind::OnlineCtr { .. } => Err(Failure::Plain(Problem::CtrSplit)),
    }
}

/// The leaf value that a row reaches.
pub fn eval_node(node: &Node, features: &[F32]) -> (r: Result<F64, Failure>)
    requires
        node@.stays_within(features@),
    ensures
        match r {
            Ok(value) => node@.value(features@) == Ok::<F64, FailureView>(value),
            Err(e) => node@.value(features@) == Err::<F64, FailureView>(e@),
        },
    decreases node,
{
    match node {
        Node::Leaf { value } => Ok(*value),
        Node::Split { feature_idx, split, left_child, right_child, missing_direction } => {
            if *feature_idx >= features.len() {
                return Err(
                    Failure::Plain(
                        Problem::FeatureOutOfBounds { index: *feature_idx, count: features.len() },
                    ),
                );
            }
            match condition(split, *missing_direction, features[*feature_idx]) {
                Err(e) => Err(e),
                Ok(go_left) => if go_left {
                    eval_node(left_child, features)
                } else {
                    eval_node(right_child, features)
                },
            }
        },
    }
}

/// Whether the way of a row through a tree stays within the bytes of the sets on it.
fn node_stays_within(node: &Node, features: &[F32]) -> (r: bool)
    ensures
        r == node@.stays_within(features@),
    decreases node,
{
    match node {
        Node::Leaf { .. } => true,
        Node::Split { feature_idx, split, left_child, right_child, missing_direction } => {
            if *feature_idx >= features.len() {
                return true;
            }
            let value: F32 = features[*feature_idx];
            if *missing_direction != MissingDirection::NaVsRest {
                match split {
                    SplitKind::Categorical { bitoff, nbits, data } => {
                        let index: i64 = value.to_i32() as i64 - *bitoff as i64;
                        if 0 <= index && index < *nbits as i64 && *nbits < 0x8000_0000 && (index
                            / 8) as usize >= data.len() {
                            return false;
                        }
                    },
                    _ => {},
                }
            }
            match condition(split, *missing_direction, value) {
                Err(_) => true,
                Ok(go_left) => if go_left {
                    node_stays_within(left_child, features)
                } else {
                    node_stays_within(right_child, features)
                },
            }
        },
    }
}

/// Whether predicting a row stays within the bytes of the sets that it reads, which `predict`
/// requires.
pub fn stays_within(forest: &Forest, features: &[F32]) -> (r: bool)
    ensures
        r == forest@.stays_within(features@),
{
    let even: bool = match forest.post_transform {
        PostTransform::Softmax { n_classes } => n_classes >= 2 && forest.trees.len() % n_classes
            == 0,
        _ => true,
    };
    if forest.catboost_metadata.is_some() || !even {
        return true;
    }
    let mut i: usize = 0;
    while i < forest.trees.len()
        invariant
            i <= forest.trees.len(),
            forest@.catboost_metadata is None,
            forest@.even(),
            forest@.stays_within_from(features@, 0) == forest@.stays_within_from(
                features@,
                i as int,
            ),
        decreases forest.trees.len() - i,
    {
        assert(forest@.trees[i as int].root == forest.trees[i as int].root@);
        if !node_stays_within(&forest.trees[i].root, features) {
            return false;
        }
        if eval_node(&forest.trees[i].root, features).is_err() {
            return true;
        }
        i = i + 1;
    }
    true
}

/// Predicts one row: one score for scalar models, one per class for softmax models.
pub fn predict(forest: &Forest, features: &[F32]) -> (r: Result<Prediction, Failure>)
    requires
        forest@.stays_within(features@),
    ensures
        match r {
            Ok(p) => forest@.prediction(features@) == Ok::<PredictionView, FailureView>(p@),
            Err(e) => forest@.prediction(features@) == Err::<PredictionView, FailureView>(e@),
        },
{
    if forest.catboost_metadata.is_some() {
        return Err(Failure::Plain(Problem::CtrModel));
    }
    let trees: usize = forest.trees.len();
    let classes: usize = match forest.post_transform {
        PostTransform::Softmax { n_classes } => {
            if n_classes < 2 || trees % n_classes != 0 {
                return Err(Failure::Plain(Problem::SoftmaxTrees { trees, classes: n_classes }));
            }
            n_classes
        },
        _ => 1,
    };
    let mut leaves: Vec<F64> = Vec::new();
    let mut i: usize = 0;
    while i < trees
        invariant
            i <= trees == forest.trees.len(),
            forest@.stays_within_from(features@, i as int),
            forest@.catboost_metadata is None,
            forest@.even(),
            leaves.len() == i,
            forest@.first_failure(features@, 0) == forest@.first_failure(features@, i as int),
            forall|j: int|
                0 <= j < i ==> (#[trigger] forest@.trees[j]).root.value(features@) == Ok::<
                    F64,
                    FailureView,
                >(leaves[j]),
        decreases trees - i,
    {
        assert(forest@.trees[i as int].root == forest.trees[i as int].root@);
        match eval_node(&forest.trees[i].root, features) {
            Err(e) => {
                return Err(e);
            },
            Ok(value) => {
                leaves.push(value);
            },
        }
        i = i + 1;
    }
    let mut scores: Vec<Score> = Vec::new();
    let mut c: usize = 0;
    while c < classes
        invariant
            c <= classes == forest@.classes(),
            classes > 0,
            trees == forest.trees.len(),
            leaves.len() == trees,
            scores.len() == c,
            forall|j: int|
                0 <= j < trees ==> (#[trigger] forest@.trees[j]).root.value(features@) == Ok::<
                    F64,
                    FailureView,
                >(leaves[j]),
            forall|k: int| 0 <= k < c ==> (#[trigger] scores[k])@ == forest@.score(features@, k),
        decreases classes - c,
    {
        let score = class_score(forest, Ghost(features@), &leaves, classes, c);
        scores.push(score);
        c = c + 1;
    }
    let p = Prediction { scores, post_transform: forest.post_transform };
    assert(p@.scores =~= Seq::new(forest@.classes(), |k: int| forest@.score(features@, k)));
    Ok(p)
}

/// Whether the tree weights count.
pub(crate) fn weights_count(forest: &Forest) -> (r: bool)
    ensures
        r == forest@.weighted(),
{
    match forest.post_transform {
        PostTransform::Softmax { .. } => true,
        _ => forest.aggregation == AggregationKind::Sum,
    }
}

/// The score of one class, from the leaves that the trees reached.
fn class_score(
    forest: &Forest,
    Ghost(row): Ghost<Seq<F32>>,
    leaves: &Vec<F64>,
    classes: usize,
    c: usize,
) -> (r: Score)
    requires
        leaves.len() == forest.trees.len(),
        classes == forest@.classes(),
        c < classes,
        forall|j: int|
            0 <= j < leaves.len() ==> (#[trigger] forest@.trees[j]).root.value(row) == Ok::<
                F64,
                FailureView,
            >(leaves[j]),
    ensures
        r@ == forest@.score(row, c as int),
{
    let trees: usize = forest.trees.len();
    let weighted: bool = weights_count(forest);
    let mut terms: Vec<Term> = Vec::new();
    let mut i: usize = 0;
    while i < trees
        invariant
            i <= trees == forest.trees.len(),
            leaves.len() == trees,
            classes == forest@.classes(),
            c < classes,
            weighted == forest@.weighted(),
            terms@ == forest@.terms(row, c as int, i as int),
            forall|j: int|
                0 <= j < leaves.len() ==> (#[trigger] forest@.trees[j]).root.value(row) == Ok::<
                    F64,
                    FailureView,
                >(leaves[j]),
        decreases trees - i,
    {
        assert(forest@.trees[i as int] == forest.trees[i as int]@);
        if i % classes == c {
            let weight: F64 = if weighted {
                forest.trees[i].weight
            } else {
                F64 { bits: ONE_BITS }
            };
            terms.push(Term { leaf: leaves[i], weight });
        }
        i = i + 1;
    }
    let bias: F64 = match forest.post_transform {
        PostTransform::Softmax { .. } if c < forest.base_scores.len() => forest.base_scores[c],
        _ => forest.base_score,
    };
    match forest.aggregation {
        AggregationKind::Sum => Score { start: bias, terms, divisor: None },
        AggregationKind::Average => Score {
            start: F64 { bits: 0 },
            terms,
            divisor: Some(trees / classes),
        },
    }
}

/// The arithmetic in which a prediction is computed: what a score comes to, and the operations
/// on what scores come to.
#[verifier::reject_recursive_types(V)]
pub ghost struct ArithmeticView<V> {
    pub score: spec_fn(ScoreView) -> V,
    pub max: spec_fn(V, V) -> V,
    pub minus: spec_fn(V, V) -> V,
    pub exp: spec_fn(V) -> V,
    pub plus: spec_fn(V, V) -> V,
    pub quotient: spec_fn(V, V) -> V,
}

impl<V> ArithmeticView<V> {
    /// The greatest of some values, taken from left to right.
    pub open spec fn greatest(self, values: Seq<V>) -> V
        decreases values.len(),
    {
        if values.len() <= 1 {
            values[0]
        } else {
            (self.max)(self.greatest(values.drop_last()), values.last())
        }
    }

    /// The sum of some values, taken from left to right.
    pub open spec fn total(self, values: Seq<V>) -> V
        decreases values.len(),
    {
        if values.len() <= 1 {
            values[0]
        } else {
            (self.plus)(self.total(values.drop_last()), values.last())
        }
    }

    /// The softmax of some values: the exponential of what each is above the greatest, divided
    /// by the sum of all these exponentials.
    pub open spec fn softmax(self, values: Seq<V>) -> Seq<V> {
        let exponentials = values.map_values(
            |value: V| (self.exp)((self.minus)(value, self.greatest(values))),
        );
        exponentials.map_values(|e: V| (self.quotient)(e, self.total(exponentials)))
    }
}

/// A tree whose sets have all their bits can be evaluated on every row.
pub proof fn sound_trees_stay_within(node: NodeView, row: Seq<F32>)
    requires
        node.sound(),
    ensures
        node.stays_within(row),
    decreases node,
{
    if let NodeView::Split { left, right, .. } = node {
        sound_trees_stay_within(*left, row);
        sound_trees_stay_within(*right, row);
    }
}

/// A forest whose sets have all their bits can be evaluated on every row.
pub proof fn sound_forests_stay_within(forest: ForestView, row: Seq<F32>)
    requires
        forest.sound(),
    ensures
        forest.stays_within(row),
{
    lemma_sound_from(forest, row, 0);
}

proof fn lemma_sound_from(forest: ForestView, row: Seq<F32>, from: int)
    requires
        forest.sound(),
        0 <= from,
    ensures
        forest.stays_within_from(row, from),
    decreases forest.trees.len() - from,
{
    if from < forest.trees.len() {
        sound_trees_stay_within(forest.trees[from].root, row);
        lemma_sound_from(forest, row, from + 1);
    }
}

/// A missing value goes left exactly if the split says so; where a split is on missing values
/// alone, all others go left.
pub proof fn missing_values_are_routed(split: SplitView, missing: MissingDirection, value: F32)
    ensures
        value.nan() ==> split.goes_left(missing, value) == (missing == MissingDirection::Left),
        missing == MissingDirection::NaVsRest && !value.nan() ==> split.goes_left(missing, value),
{
}

/// At a split on categories, a category in the set goes right and any other goes left.
pub proof fn members_go_right(split: SplitView, missing: MissingDirection, value: F32)
    requires
        split is Categorical,
        !value.nan(),
        missing != MissingDirection::NaVsRest,
    ensures
        split.goes_left(missing, value) <==> !member(
            split->bitoff as int,
            split->nbits as int,
            split->data,
            value.truncated(),
        ),
{
}

/// The average of a model with one output takes the tree outputs as they are.
pub proof fn averages_ignore_weights(forest: ForestView, other: ForestView, row: Seq<F32>)
    requires
        !forest.weighted(),
        other.trees.len() == forest.trees.len(),
        forall|i: int|
            0 <= i < forest.trees.len() ==> (#[trigger] other.trees[i]).root
                == forest.trees[i].root,
        other == (ForestView { trees: other.trees, ..forest }),
    ensures
        other.prediction(row) == forest.prediction(row),
{
    lemma_same_failures(forest, other, row, 0);
    assert forall|c: int| #[trigger] other.score(row, c) == forest.score(row, c) by {
        lemma_same_terms(forest, other, row, c, forest.trees.len() as int);
    }
    assert(Seq::new(other.classes(), |c: int| other.score(row, c)) =~= Seq::new(
        forest.classes(),
        |c: int| forest.score(row, c),
    ));
}

proof fn lemma_same_failures(forest: ForestView, other: ForestView, row: Seq<F32>, from: int)
    requires
        0 <= from,
        other.trees.len() == forest.trees.len(),
        forall|i: int|
            0 <= i < forest.trees.len() ==> (#[trigger] other.trees[i]).root
                == forest.trees[i].root,
    ensures
        other.first_failure(row, from) == forest.first_failure(row, from),
    decreases forest.trees.len() - from,
{
    if from < forest.trees.len() {
        assert(other.trees[from].root == forest.trees[from].root);
        lemma_same_failures(forest, other, row, from + 1);
    }
}

proof fn lemma_same_terms(forest: ForestView, other: ForestView, row: Seq<F32>, c: int, n: int)
    requires
        !forest.weighted(),
        0 <= n <= forest.trees.len() == other.trees.len(),
        other == (ForestView { trees: other.trees, ..forest }),
        forall|i: int|
            0 <= i < forest.trees.len() ==> (#[trigger] other.trees[i]).root
                == forest.trees[i].root,
    ensures
        other.terms(row, c, n) == forest.terms(row, c, n),
    decreases n,
{
    if n > 0 {
        assert(other.trees[n - 1].root == forest.trees[n - 1].root);
        lemma_same_terms(forest, other, row, c, n - 1);
    }
}

/// A prediction has one score per class, and every tree contributes to exactly one of them:
/// tree `i` to that of class `i % n_classes`.
pub proof fn every_tree_counts_once(forest: ForestView, row: Seq<F32>, i: int)
    requires
        0 <= i < forest.trees.len(),
        forest.prediction(row) is Ok,
    ensures
        forest.prediction(row)->Ok_0.scores.len() == forest.classes(),
        forall|c: int|
            0 <= c < forest.classes() ==> #[trigger] forest.terms(row, c, i + 1).len()
                == forest.terms(row, c, i).len() + (if c == i % (forest.classes() as int) {
                1int
            } else {
                0int
            }),
{
}

/// At a numeric split, a number goes left exactly if its value stands to that of the threshold as
/// the operator says.
pub proof fn values_decide_numeric_splits(
    threshold: F32,
    operator: Operator,
    missing: MissingDirection,
    value: F32,
)
    requires
        threshold.finite(),
        value.finite(),
        missing != MissingDirection::NaVsRest,
    ensures
        (SplitView::Numeric { threshold, operator }).goes_left(missing, value) == (match operator {
            Operator::LessThan => value.scaled() < threshold.scaled(),
            Operator::LessOrEqual => value.scaled() <= threshold.scaled(),
            Operator::GreaterThan => value.scaled() > threshold.scaled(),
            Operator::GreaterOrEqual => value.scaled() >= threshold.scaled(),
            Operator::Equal => value.scaled() == threshold.scaled(),
            Operator::NotEqual => value.scaled() != threshold.scaled(),
        }),
{
    crate::number::order_is_by_value(value, threshold);
    crate::number::order_is_by_value(threshold, value);
}

/// A row that goes left at the root reaches what it reaches in the left subtree, and otherwise
/// what it reaches in the right one.
pub proof fn rows_go_down_the_tree(node: NodeView, row: Seq<F32>)
    requires
        node is Split,
        node->feature_idx < row.len(),
        node->missing == MissingDirection::NaVsRest || !(node->split is OnlineCtr),
    ensures
        ({
            let value = row[node->feature_idx as int];
            &&& node->split.goes_left(node->missing, value) ==> node.value(row) == node->left.value(
                row,
            )
            &&& !node->split.goes_left(node->missing, value) ==> node.value(row)
                == node->right.value(row)
        }),
{
}

/// Whether a term is that of tree `i`.
pub open spec fn is_term_of(forest: ForestView, row: Seq<F32>, term: Term, i: int) -> bool {
    &&& 0 <= i < forest.trees.len()
    &&& forest.trees[i].root.value(row) is Ok ==> forest.trees[i].root.value(row)->Ok_0
        == term.leaf
    &&& term.weight == (if forest.post_transform is Softmax || forest.aggregation
        == AggregationKind::Sum {
        forest.trees[i].weight
    } else {
        F64 { bits: 0x3ff0_0000_0000_0000 }
    })
}

proof fn lemma_terms(forest: ForestView, row: Seq<F32>, c: int, n: int)
    requires
        0 <= c < forest.classes(),
        0 <= n <= forest.trees.len(),
    ensures
        ({
            let classes = forest.classes() as int;
            let terms = forest.terms(row, c, n);
            &&& terms.len() * classes + c >= n
            &&& forall|j: int|
                0 <= j < terms.len() ==> is_term_of(
                    forest,
                    row,
                    #[trigger] terms[j],
                    j * classes + c,
                )
            &&& terms.len() > 0 ==> (terms.len() - 1) * classes + c < n
        }),
    decreases n,
{
    let m = forest.classes() as int;
    if n > 0 {
        lemma_terms(forest, row, c, n - 1);
        let before = forest.terms(row, c, n - 1);
        let k = before.len() as int;
        let terms = forest.terms(row, c, n);
        let at = n - 1;
        vstd::arithmetic::div_mod::lemma_fundamental_div_mod(at, m);
        let q = at / m;
        if at % m == c {
            assert(q == k) by (nonlinear_arith)
                requires
                    at == m * q + c,
                    k * m + c >= at,
                    k > 0 ==> (k - 1) * m + c < at,
                    k >= 0,
                    at >= 0,
                    0 <= c < m,
            ;
            assert(at == k * m + c) by (nonlinear_arith)
                requires
                    at == m * q + c,
                    q == k,
            ;
            assert((k + 1) * m + c >= n) by (nonlinear_arith)
                requires
                    n - 1 == k * m + c,
                    m > 0,
            ;
            assert(terms.len() as int == k + 1);
            assert(terms.len() * m == (k + 1) * m);
            assert forall|j: int| 0 <= j < terms.len() implies is_term_of(
                forest,
                row,
                #[trigger] terms[j],
                j * m + c,
            ) by {
                if j < k {
                    assert(terms[j] == before[j]);
                }
            }
        } else {
            assert(k * m + c != at) by {
                if k * m + c == at {
                    vstd::arithmetic::div_mod::lemma_fundamental_div_mod_converse(at, m, k, c);
                }
            }
            assert(terms.len() * m == k * m);
            assert forall|j: int| 0 <= j < terms.len() implies is_term_of(
                forest,
                row,
                #[trigger] terms[j],
                j * m + c,
            ) by {
                assert(terms[j] == before[j]);
            }
        }
    } else {
        assert(0 * m == 0) by (nonlinear_arith);
    }
}

/// The score of class `c` has one term for each of the trees `c`, `c + n_classes` and so on, in
/// this order: the leaf that the row reaches there, and the weight of the tree where weights
/// count. A sum starts at the bias of the class; an average starts at zero and is divided by the
/// number of trees per class.
pub proof fn scores_have_the_terms_of_their_trees(forest: ForestView, row: Seq<F32>, c: int)
    requires
        forest.prediction(row) is Ok,
        0 <= c < forest.classes(),
    ensures
        ({
            let prediction = forest.prediction(row)->Ok_0;
            let score = prediction.scores[c];
            let classes = forest.classes() as int;
            let several = forest.post_transform is Softmax;
            &&& prediction.scores.len() == classes
            &&& prediction.post_transform == forest.post_transform
            &&& score.terms.len() * classes == forest.trees.len()
            &&& forall|j: int|
                0 <= j < score.terms.len() ==> is_term_of(
                    forest,
                    row,
                    #[trigger] score.terms[j],
                    j * classes + c,
                )
            &&& forall|i: int|
                0 <= i < forest.trees.len() ==> (#[trigger] forest.trees[i]).root.value(row) is Ok
            &&& forest.aggregation == AggregationKind::Sum ==> score.divisor is None
                && score.start == (if several && c < forest.base_scores.len() {
                forest.base_scores[c]
            } else {
                forest.base_score
            })
            &&& forest.aggregation == AggregationKind::Average ==> score.start.bits == 0
                && score.divisor == Some((forest.trees.len() as int / classes) as usize)
        }),
{
    let n = forest.trees.len() as int;
    let m = forest.classes() as int;
    let terms = forest.terms(row, c, n);
    let k = terms.len() as int;
    lemma_terms(forest, row, c, n);
    lemma_all_leaves(forest, row, 0);
    assert(n % m == 0) by {
        if m == 1 {
            assert(n % 1 == 0);
        }
    }
    vstd::arithmetic::div_mod::lemma_fundamental_div_mod(n, m);
    let q = n / m;
    assert(k * m == n) by (nonlinear_arith)
        requires
            n == m * q,
            k * m + c >= n,
            k > 0 ==> (k - 1) * m + c < n,
            k >= 0,
            n >= 0,
            0 <= c < m,
    ;
    let score = forest.prediction(row)->Ok_0.scores[c];
    assert(score == forest.score(row, c));
    assert(score.terms.len() * m == k * m);
}

proof fn lemma_all_leaves(forest: ForestView, row: Seq<F32>, from: int)
    requires
        0 <= from,
        forest.first_failure(row, from) is None,
    ensures
        forall|i: int|
            from <= i < forest.trees.len() ==> (#[trigger] forest.trees[i]).root.value(row) is Ok,
    decreases forest.trees.len() - from,
{
    if from < forest.trees.len() {
        lemma_all_leaves(forest, row, from + 1);
    }
}

proof fn lemma_first_failure(forest: ForestView, row: Seq<F32>, from: int)
    requires
        0 <= from <= forest.trees.len(),
    ensures
        match forest.first_failure(row, from) {
            None => forall|i: int|
                from <= i < forest.trees.len() ==> (#[trigger] forest.trees[i]).root.value(
                    row,
                ) is Ok,
            Some(e) => exists|i: int|
                from <= i < forest.trees.len() && (#[trigger] forest.trees[i]).root.value(row)
                    == Err::<F64, FailureView>(e) && forall|j: int|
                    from <= j < i ==> (#[trigger] forest.trees[j]).root.value(row) is Ok,
        },
    decreases forest.trees.len() - from,
{
    if from < forest.trees.len() {
        if forest.trees[from].root.value(row) is Ok {
            lemma_first_failure(forest, row, from + 1);
            if let Some(e) = forest.first_failure(row, from + 1) {
                let i = choose|i: int|
                    from + 1 <= i < forest.trees.len() && (
                    #[trigger] forest.trees[i]).root.value(row) == Err::<F64, FailureView>(e)
                        && forall|j: int|
                        from + 1 <= j < i ==> (#[trigger] forest.trees[j]).root.value(row) is Ok;
                assert(forest.trees[i].root.value(row) == Err::<F64, FailureView>(e));
            }
        } else {
            assert(forest.trees[from].root.value(row) is Err);
        }
    }
}

/// A row is predicted exactly if the model has no counters, its trees spread over its classes,
/// and every tree has a leaf for the row. Otherwise the failure is that of the first tree that
/// has none.
pub proof fn rows_are_predicted_unless_a_tree_fails(forest: ForestView, row: Seq<F32>)
    ensures
        forest.prediction(row) is Ok <==> forest.catboost_metadata is None && (
        forest.post_transform is Softmax ==> forest.classes() >= 2 && forest.trees.len() as int
            % forest.classes() as int == 0) && forall|i: int|
            0 <= i < forest.trees.len() ==> (#[trigger] forest.trees[i]).root.value(row) is Ok,
        forest.catboost_metadata is None && forest.even() ==> (forest.prediction(row) matches Err(e)
            ==> exists|i: int|
            0 <= i < forest.trees.len() && (#[trigger] forest.trees[i]).root.value(row) == Err::<
                F64,
                FailureView,
            >(e) && forall|j: int|
                0 <= j < i ==> (#[trigger] forest.trees[j]).root.value(row) is Ok),
{
    lemma_first_failure(forest, row, 0);
}

} // verus!
