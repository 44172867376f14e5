//! The model that every frontend produces and every backend consumes: a forest of
//! binary decision trees.
use crate::number::{F32, F64};
use vstd::prelude::*;

verus! {

/// Comparison operator for numeric splits.
#[derive(Debug, Clone, Copy, PartialEq, Eq, Structural)]
pub enum Operator {
    LessThan,
    LessOrEqual,
    GreaterThan,
    GreaterOrEqual,
    Equal,
    NotEqual,
}

/// Where a NaN value routes at a split node.
///
/// Left and Right: NaN goes to that child, any other value follows the comparison.
/// NaVsRest: the split is on NaN-ness alone (NaN goes right), the threshold is ignored.
/// Unspecified: the format did not say; NaN goes right.
#[derive(Debug, Clone, Copy, PartialEq, Eq, Hash, Structural)]
pub enum MissingDirection {
    Left,
    Right,
    NaVsRest,
    Unspecified,
}

/// The test at an internal node.
#[derive(Debug)]
pub enum SplitKind {
    /// `feature <operator> threshold`.
    Numeric { threshold: F32, operator: Operator },
    /// Membership of a category in a set, held as bits from `bitoff` on. A category in
    /// the set goes right, any other left.
    Categorical { bitoff: u16, nbits: u32, data: Vec<u8> },
    /// A CatBoost split on the counter `ctr_idx` of the row's categories.
    OnlineCtr { ctr_idx: usize, threshold: F32 },
}

/// A node of a decision tree. The left child is taken when the split's test holds.
#[derive(Debug)]
pub enum Node {
    Split {
        feature_idx: usize,
        split: SplitKind,
        left_child: Box<Node>,
        right_child: Box<Node>,
        missing_direction: MissingDirection,
    },
    Leaf { value: F64 },
}

/// A single decision tree of the ensemble.
#[derive(Debug)]
pub struct Tree {
    pub root: Node,
    /// The factor of this tree's output.
    pub weight: F64,
}

/// How tree outputs are combined before the post-transform.
#[derive(Debug, Clone, Copy, PartialEq, Eq, Structural)]
pub enum AggregationKind {
    /// The base score plus the weighted outputs.
    Sum,
    /// The outputs divided by how many trees there are; no base score. The weights count in
    /// the averages of a model with several outputs alone.
    Average,
}

/// What is applied to the aggregated score.
#[derive(Debug, Clone, Copy, PartialEq, Eq, Structural)]
pub enum PostTransform {
    /// The score itself.
    Identity,
    /// The logistic function of the score.
    Logit,
    /// The exponential of the score.
    Log,
    /// Softmax over one score per class. Tree `i` belongs to class `i % n_classes`.
    Softmax { n_classes: usize },
}

/// What a CatBoost model needs to evaluate splits on categories.
#[derive(Debug)]
pub struct CatboostMetadata {
    pub ctrs: Vec<CtrInfo>,
    /// The counter tables, each under its identifier.
    pub ctr_data: Vec<(String, CtrValueTable)>,
}

/// One counter of a CatBoost model.
#[derive(Debug)]
pub struct CtrInfo {
    pub elements: Vec<CtrElement>,
    pub identifier: String,
    pub prior_numerator: F64,
    pub prior_denominator: F64,
    pub scale: F64,
    pub shift: F64,
}

/// One feature that a counter's hash is made of.
#[derive(Debug)]
pub struct CtrElement {
    pub cat_feature_index: usize,
    pub combination_element: String,
}

/// A counter's table: rows of `hash_stride` numbers, a hash followed by its counts.
#[derive(Debug)]
pub struct CtrValueTable {
    pub hash_map: Vec<u64>,
    pub hash_stride: usize,
    pub counter_denominator: i64,
}

/// The complete ensemble.
#[derive(Debug)]
pub struct Forest {
    pub trees: Vec<Tree>,
    /// The bias of a model with one output.
    pub base_score: F64,
    /// The biases per class; a class beyond them has `base_score`.
    pub base_scores: Vec<F64>,
    pub aggregation: AggregationKind,
    pub post_transform: PostTransform,
    /// Present in CatBoost models that use categorical features.
    pub catboost_metadata: Option<CatboostMetadata>,
}

#[verifier::ext_equal]
pub ghost enum SplitView {
    Numeric { threshold: F32, operator: Operator },
    Categorical { bitoff: u16, nbits: u32, data: Seq<u8> },
    OnlineCtr { ctr_idx: usize, threshold: F32 },
}

#[verifier::ext_equal]
pub ghost enum NodeView {
    Split {
        feature_idx: usize,
        split: SplitView,
        left: Box<NodeView>,
        right: Box<NodeView>,
        missing: MissingDirection,
    },
    Leaf { value: F64 },
}

/// The test at one depth of an oblivious tree.
pub ghost struct LevelView {
    pub feature_idx: usize,
    pub split: SplitView,
    pub missing: MissingDirection,
}

pub ghost struct TreeView {
    pub root: NodeView,
    pub weight: F64,
}

pub ghost struct ElementView {
    pub cat_feature_index: usize,
    pub combination_element: Seq<char>,
}

#[verifier::ext_equal]
pub ghost struct CtrView {
    pub elements: Seq<ElementView>,
    pub identifier: Seq<char>,
    pub prior_numerator: F64,
    pub prior_denominator: F64,
    pub scale: F64,
    pub shift: F64,
}

#[verifier::ext_equal]
pub ghost struct TableView {
    pub hash_map: Seq<u64>,
    pub hash_stride: usize,
    pub counter_denominator: i64,
}

#[verifier::ext_equal]
pub ghost struct MetadataView {
    pub ctrs: Seq<CtrView>,
    pub ctr_data: Seq<(Seq<char>, TableView)>,
}

#[verifier::ext_equal]
pub ghost struct ForestView {
    pub trees: Seq<TreeView>,
    pub base_score: F64,
    pub base_scores: Seq<F64>,
    pub aggregation: AggregationKind,
    pub post_transform: PostTransform,
    pub catboost_metadata: Option<MetadataView>,
}

impl View for SplitKind {
    type V = SplitView;

    open spec fn view(&self) -> SplitView {
        match *self {
            SplitKind::Numeric { threshold, operator } => SplitView::Numeric {
                threshold,
                operator,
            },
            SplitKind::Categorical { bitoff, nbits, data } => SplitView::Categorical {
                bitoff,
                nbits,
                data: data@,
            },
            SplitKind::OnlineCtr { ctr_idx, threshold } => SplitView::OnlineCtr {
                ctr_idx,
                threshold,
            },
        }
    }
}

impl Node {
    pub open spec fn model(self) -> NodeView
        decreases self,
    {
        match self {
            Node::Leaf { value } => NodeView::Leaf { value },
            Node::Split { feature_idx, split, left_child, right_child, missing_direction } =>
            NodeView::Split {
                feature_idx,
                split: split@,
                left: Box::new(left_child.model()),
                right: Box::new(right_child.model()),
                missing: missing_direction,
            },
        }
    }
}

impl View for Node {
    type V = NodeView;

    open spec fn view(&self) -> NodeView {
        self.model()
    }
}

impl View for Tree {
    type V = TreeView;

    open spec fn view(&self) -> TreeView {
        TreeView { root: self.root@, weight: self.weight }
    }
}

impl View for CtrElement {
    type V = ElementView;

    open spec fn view(&self) -> ElementView {
        ElementView {
            cat_feature_index: self.cat_feature_index,
            combination_element: self.combination_element@,
        }
    }
}

impl View for CtrInfo {
    type V = CtrView;

    open spec fn view(&self) -> CtrView {
        CtrView {
            elements: self.elements@.map_values(|e: CtrElement| e@),
            identifier: self.identifier@,
            prior_numerator: self.prior_numerator,
            prior_denominator: self.prior_denominator,
            scale: self.scale,
            shift: self.shift,
        }
    }
}

impl View for CtrValueTable {
    type V = TableView;

    open spec fn view(&self) -> TableView {
        TableView {
            hash_map: self.hash_map@,
            hash_stride: self.hash_stride,
            counter_denominator: self.counter_denominator,
        }
    }
}

impl View for CatboostMetadata {
    type V = MetadataView;

    open spec fn view(&self) -> MetadataView {
        MetadataView {
            ctrs: self.ctrs@.map_values(|c: CtrInfo| c@),
            ctr_data: self.ctr_data@.map_values(|e: (String, CtrValueTable)| (e.0@, e.1@)),
        }
    }
}

/// The views of the trees in a list.
pub open spec fn tree_views(trees: Seq<Tree>) -> Seq<TreeView> {
    trees.map_values(|t: Tree| t@)
}

impl View for Forest {
    type V = ForestView;

    open spec fn view(&self) -> ForestView {
        ForestView {
            trees: tree_views(self.trees@),
            base_score: self.base_score,
            base_scores: self.base_scores@,
            aggregation: self.aggregation,
            post_transform: self.post_transform,
            catboost_metadata: match self.catboost_metadata {
                Some(metadata) => Some(metadata@),
                None => None,
            },
        }
    }
}

/// The view of one level of an oblivious tree.
pub open spec fn level_view(level: (usize, SplitKind, MissingDirection)) -> LevelView {
    LevelView { feature_idx: level.0, split: level.1@, missing: level.2 }
}

/// The views of the levels in a list.
pub open spec fn level_views(levels: Seq<(usize, SplitKind, MissingDirection)>) -> Seq<LevelView> {
    levels.map_values(|l: (usize, SplitKind, MissingDirection)| level_view(l))
}

impl SplitView {
    /// Whether two splits test the same thing: thresholds compare as numbers.
    pub open spec fn agrees(self, other: SplitView) -> bool {
        match (self, other) {
            (
                SplitView::Numeric { threshold: t, operator: o },
                SplitView::Numeric { threshold: u, operator: p },
            ) => t.same(u) && o == p,
            (
                SplitView::Categorical { bitoff: o, nbits: n, data: d },
                SplitView::Categorical { bitoff: p, nbits: m, data: e },
            ) => o == p && n == m && d == e,
            (
                SplitView::OnlineCtr { ctr_idx: i, threshold: t },
                SplitView::OnlineCtr { ctr_idx: j, threshold: u },
            ) => i == j && t.same(u),
            _ => false,
        }
    }

    /// Whether the bits of a set are all there. A set of 2^31 or more bits is never read.
    pub open spec fn sound(self) -> bool {
        match self {
            SplitView::Categorical { bitoff, nbits, data } => nbits <= 8 * data.len() || nbits
                >= 0x8000_0000,
            _ => true,
        }
    }
}

impl LevelView {
    pub open spec fn agrees(self, other: LevelView) -> bool {
        self.feature_idx == other.feature_idx && self.split.agrees(other.split) && self.missing
            == other.missing
    }
}

impl NodeView {
    /// The test at a split node.
    pub open spec fn level(self) -> LevelView {
        LevelView {
            feature_idx: self->feature_idx,
            split: self->split,
            missing: self->missing,
        }
    }

    /// The tests down the left edge of the tree.
    pub open spec fn spine(self) -> Seq<LevelView>
        decreases self,
    {
        match self {
            NodeView::Leaf { .. } => seq![],
            NodeView::Split { left, .. } => seq![self.level()] + left.spine(),
        }
    }

    /// Whether every path applies the given tests, in order, and then ends.
    pub open spec fn follows(self, levels: Seq<LevelView>) -> bool
        decreases self,
    {
        match self {
            NodeView::Leaf { .. } => levels.len() == 0,
            NodeView::Split { left, right, .. } => levels.len() > 0 && levels[0].agrees(
                self.level(),
            ) && left.follows(levels.skip(1)) && right.follows(levels.skip(1)),
        }
    }

    /// Whether the tree is oblivious: every path applies the tests of the left edge.
    pub open spec fn oblivious(self) -> bool
        decreases self,
    {
        match self {
            NodeView::Leaf { .. } => true,
            NodeView::Split { left, right, .. } => left.oblivious() && right.follows(left.spine()),
        }
    }

    /// The leaf values from right to left.
    pub open spec fn leaves(self) -> Seq<F64>
        decreases self,
    {
        match self {
            NodeView::Leaf { value } => seq![value],
            NodeView::Split { left, right, .. } => right.leaves() + left.leaves(),
        }
    }

    /// The same splits over other leaf values, given from right to left from `from` on.
    pub open spec fn relabelled(self, values: Seq<F64>, from: int) -> NodeView
        decreases self,
    {
        match self {
            NodeView::Leaf { .. } => NodeView::Leaf { value: values[from] },
            NodeView::Split { feature_idx, split, left, right, missing } => NodeView::Split {
                feature_idx,
                split,
                left: Box::new(left.relabelled(values, from + right.leaves().len())),
                right: Box::new(right.relabelled(values, from)),
                missing,
            },
        }
    }

    /// Whether every set in the tree has its bits.
    pub open spec fn sound(self) -> bool
        decreases self,
    {
        match self {
            NodeView::Leaf { .. } => true,
            NodeView::Split { split, left, right, .. } => split.sound() && left.sound()
                && right.sound(),
        }
    }

    /// How many splits the longest path has.
    pub open spec fn depth(self) -> nat
        decreases self,
    {
        match self {
            NodeView::Leaf { .. } => 0,
            NodeView::Split { left, right, .. } => 1 + if left.depth() >= right.depth() {
                left.depth()
            } else {
                right.depth()
            },
        }
    }

    /// How many nodes the tree has.
    pub open spec fn size(self) -> nat
        decreases self,
    {
        match self {
            NodeView::Leaf { .. } => 1,
            NodeView::Split { left, right, .. } => 1 + left.size() + right.size(),
        }
    }
}

impl ForestView {
    /// Whether every set in the forest has its bits.
    pub open spec fn sound(self) -> bool {
        forall|i: int| 0 <= i < self.trees.len() ==> (#[trigger] self.trees[i]).root.sound()
    }
}

impl Clone for SplitKind {
    fn clone(&self) -> (r: Self)
        ensures
            r@ == self@,
    {
        match self {
            SplitKind::Numeric { threshold, operator } => SplitKind::Numeric {
                threshold: *threshold,
                operator: *operator,
            },
            SplitKind::Categorical { bitoff, nbits, data } => {
                let copy = data.clone();
                assert(copy@ =~= data@);
                SplitKind::Categorical { bitoff: *bitoff, nbits: *nbits, data: copy }
            },
            SplitKind::OnlineCtr { ctr_idx, threshold } => SplitKind::OnlineCtr {
                ctr_idx: *ctr_idx,
                threshold: *threshold,
            },
        }
    }
}

impl Node {
    fn copy(&self) -> (r: Node)
        ensures
            r@ == self@,
        decreases self,
    {
        match self {
            Node::Leaf { value } => Node::Leaf { value: *value },
            Node::Split { feature_idx, split, left_child, right_child, missing_direction } =>
            Node::Split {
                feature_idx: *feature_idx,
                split: split.clone(),
                left_child: Box::new(left_child.copy()),
                right_child: Box::new(right_child.copy()),
                missing_direction: *missing_direction,
            },
        }
    }
}

impl Clone for Node {
    fn clone(&self) -> (r: Self)
        ensures
            r@ == self@,
    {
        self.copy()
    }
}

impl Clone for Tree {
    fn clone(&self) -> (r: Self)
        ensures
            r@ == self@,
    {
        Tree { root: self.root.clone(), weight: self.weight }
    }
}

fn same_bytes(a: &Vec<u8>, b: &Vec<u8>) -> (r: bool)
    ensures
        r == (a@ == b@),
{
    if a.len() != b.len() {
        return false;
    }
    let mut i: usize = 0;
    while i < a.len()
        invariant
            i <= a.len() == b.len(),
            forall|j: int| 0 <= j < i ==> a[j] == b[j],
        decreases a.len() - i,
    {
        if a[i] != b[i] {
            assert(a@[i as int] != b@[i as int]);
            return false;
        }
        i = i + 1;
    }
    assert(a@ =~= b@);
    true
}

fn split_kind_eq(a: &SplitKind, b: &SplitKind) -> (r: bool)
    ensures
        r == a@.agrees(b@),
{
    match (a, b) {
        (
            SplitKind::Numeric { threshold: t, operator: o },
            SplitKind::Numeric { threshold: u, operator: p },
        ) => t.equals(*u) && *o == *p,
        (
            SplitKind::Categorical { bitoff: o, nbits: n, data: d },
            SplitKind::Categorical { bitoff: p, nbits: m, data: e },
        ) => *o == *p && *n == *m && same_bytes(d, e),
        (
            SplitKind::OnlineCtr { ctr_idx: i, threshold: t },
            SplitKind::OnlineCtr { ctr_idx: j, threshold: u },
        ) => *i == *j && t.equals(*u),
        _ => false,
    }
}

impl Node {
    /// The tests of an oblivious tree from the root down; `None` if the tree is not
    /// oblivious.
    pub fn get_oblivious_splits(&self) -> (r: Option<Vec<(usize, SplitKind, MissingDirection)>>)
        ensures
            r is Some <==> self@.oblivious(),
            r matches Some(levels) ==> level_views(levels@) == self@.spine(),
        decreases self,
    {
        match self {
            Node::Leaf { .. } => {
                let levels: Vec<(usize, SplitKind, MissingDirection)> = Vec::new();
                assert(level_views(levels@) =~= seq![]);
                Some(levels)
            },
            Node::Split { feature_idx, split, left_child, right_child, missing_direction } => {
                match left_child.get_oblivious_splits() {
                    None => None,
                    Some(mut levels) => {
                        let ghost below = levels@;
                        proof {
                            assert(level_views(below).skip(0) =~= level_views(below));
                        }
                        if !right_child.follows_levels(&levels, 0) {
                            return None;
                        }
                        levels.insert(0, (*feature_idx, split.clone(), *missing_direction));
                        proof {
                            assert(level_views(levels@) =~= seq![self@.level()] + level_views(
                                below,
                            ));
                        }
                        Some(levels)
                    },
                }
            },
        }
    }

    /// Whether every path from here applies the tests from `depth` on and then ends.
    fn follows_levels(
        &self,
        levels: &Vec<(usize, SplitKind, MissingDirection)>,
        depth: usize,
    ) -> (r: bool)
        requires
            depth <= levels.len(),
        ensures
            r == self@.follows(level_views(levels@).skip(depth as int)),
        decreases self,
    {
        let ghost rest = level_views(levels@).skip(depth as int);
        match self {
            Node::Leaf { .. } => depth == levels.len(),
            Node::Split { feature_idx, split, left_child, right_child, missing_direction } => {
                if depth == levels.len() {
                    return false;
                }
                proof {
                    assert(rest.skip(1) =~= level_views(levels@).skip(depth + 1));
                    assert(rest[0] == level_view(levels[depth as int]));
                }
                let level = &levels[depth];
                level.0 == *feature_idx && split_kind_eq(&level.1, split) && level.2
                    == *missing_direction && left_child.follows_levels(levels, depth + 1)
                    && right_child.follows_levels(levels, depth + 1)
            },
        }
    }

    /// Appends all leaf values, from right to left: the order in which the tests of an
    /// oblivious tree, the root's as the highest bit, number them.
    pub fn collect_leaves(&self, out: &mut Vec<F64>)
        ensures
            final(out)@ == old(out)@ + self@.leaves(),
        decreases self,
    {
        match self {
            Node::Leaf { value } => {
                out.push(*value);
                assert(out@ =~= old(out)@ + seq![*value]);
            },
            Node::Split { left_child, right_child, .. } => {
                right_child.collect_leaves(out);
                left_child.collect_leaves(out);
                assert(out@ =~= old(out)@ + (right_child@.leaves() + left_child@.leaves()));
            },
        }
    }

    /// The same splits over other leaf values, given in the order of `collect_leaves`.
    pub fn with_leaves(&self, values: &Vec<F64>) -> (r: Node)
        requires
            values.len() == self@.leaves().len(),
        ensures
            r@ == self@.relabelled(values@, 0),
    {
        self.relabel(values, 0).0
    }

    /// The node over the leaf values from `from` on, and where the values go on after it.
    fn relabel(&self, values: &Vec<F64>, from: usize) -> (r: (Node, usize))
        requires
            from + self@.leaves().len() <= values.len(),
        ensures
            r.0@ == self@.relabelled(values@, from as int),
            r.1 == from + self@.leaves().len(),
        decreases self,
    {
        match self {
            Node::Leaf { .. } => (Node::Leaf { value: values[from] }, from + 1),
            Node::Split { feature_idx, split, left_child, right_child, missing_direction } => {
                let (right, middle) = right_child.relabel(values, from);
                let (left, end) = left_child.relabel(values, middle);
                (
                    Node::Split {
                        feature_idx: *feature_idx,
                        split: split.clone(),
                        left_child: Box::new(left),
                        right_child: Box::new(right),
                        missing_direction: *missing_direction,
                    },
                    end,
                )
            },
        }
    }
}

/// A tree over other leaf values has those values as its leaves, and the tests of its left
/// edge stay as they were.
pub proof fn new_leaves_are_read_back(node: NodeView, values: Seq<F64>, from: int)
    requires
        0 <= from,
        from + node.leaves().len() <= values.len(),
    ensures
        node.relabelled(values, from).leaves() == values.subrange(
            from,
            from + node.leaves().len(),
        ),
        node.relabelled(values, from).spine() == node.spine(),
        node.relabelled(values, from).oblivious() == node.oblivious(),
    decreases node,
{
    match node {
        NodeView::Leaf { .. } => {
            assert(node.relabelled(values, from).leaves() =~= values.subrange(from, from + 1));
        },
        NodeView::Split { left, right, .. } => {
            let middle = from + right.leaves().len();
            new_leaves_are_read_back(*right, values, from);
            new_leaves_are_read_back(*left, values, middle);
            lemma_relabelling_keeps_the_levels(*right, values, from, left.spine());
            assert(node.relabelled(values, from).leaves() =~= values.subrange(
                from,
                from + node.leaves().len(),
            ));
        },
    }
}

proof fn lemma_relabelling_keeps_the_levels(
    node: NodeView,
    values: Seq<F64>,
    from: int,
    levels: Seq<LevelView>,
)
    ensures
        node.relabelled(values, from).follows(levels) == node.follows(levels),
    decreases node,
{
    if let NodeView::Split { left, right, .. } = node {
        lemma_relabelling_keeps_the_levels(*right, values, from, levels.skip(1));
        lemma_relabelling_keeps_the_levels(
            *left,
            values,
            from + right.leaves().len(),
            levels.skip(1),
        );
    }
}

/// A tree over its own leaf values is the tree itself.
pub proof fn own_leaves_change_nothing(node: NodeView, values: Seq<F64>, from: int)
    requires
        0 <= from,
        from + node.leaves().len() <= values.len(),
        values.subrange(from, from + node.leaves().len()) == node.leaves(),
    ensures
        node.relabelled(values, from) == node,
    decreases node,
{
    let own = values.subrange(from, from + node.leaves().len());
    match node {
        NodeView::Leaf { value } => {
            assert(own[0] == values[from]);
        },
        NodeView::Split { left, right, .. } => {
            let middle = from + right.leaves().len();
            assert(values.subrange(from, middle) =~= own.take(right.leaves().len() as int));
            assert(right.leaves() =~= node.leaves().take(right.leaves().len() as int));
            assert(values.subrange(middle, middle + left.leaves().len()) =~= own.skip(
                right.leaves().len() as int,
            ));
            assert(left.leaves() =~= node.leaves().skip(right.leaves().len() as int));
            own_leaves_change_nothing(*right, values, from);
            own_leaves_change_nothing(*left, values, middle);
        },
    }
}

impl NodeView {
    /// The node that a path leads to: at each split it goes left or not. Nothing if the path
    /// leads out of the tree.
    pub open spec fn node_at(self, path: Seq<bool>) -> Option<NodeView>
        decreases path.len(),
    {
        if path.len() == 0 {
            Some(self)
        } else {
            match self {
                NodeView::Leaf { .. } => None,
                NodeView::Split { left, right, .. } => if path[0] {
                    left.node_at(path.skip(1))
                } else {
                    right.node_at(path.skip(1))
                },
            }
        }
    }

    /// Whether a path that leads to a node finds the test of its depth there, or a leaf below
    /// the last of the tests.
    pub open spec fn meets(self, path: Seq<bool>, levels: Seq<LevelView>) -> bool {
        match self.node_at(path) {
            None => true,
            Some(NodeView::Leaf { .. }) => path.len() == levels.len(),
            Some(node) => path.len() < levels.len() && levels[path.len() as int].agrees(
                node.level(),
            ),
        }
    }
}

proof fn lemma_follows_by_path(node: NodeView, levels: Seq<LevelView>)
    ensures
        node.follows(levels) <==> forall|path: Seq<bool>| #[trigger] node.meets(path, levels),
    decreases node,
{
    match node {
        NodeView::Leaf { .. } => {
            assert(node.meets(seq![], levels) == (levels.len() == 0));
        },
        NodeView::Split { left, right, .. } => {
            lemma_follows_by_path(*left, levels.skip(1));
            lemma_follows_by_path(*right, levels.skip(1));
            if node.follows(levels) {
                assert forall|path: Seq<bool>| #[trigger] node.meets(path, levels) by {
                    if path.len() > 0 {
                        let rest = path.skip(1);
                        assert(left.meets(rest, levels.skip(1)));
                        assert(right.meets(rest, levels.skip(1)));
                        assert(rest.len() < levels.skip(1).len() ==> levels.skip(
                            1,
                        )[rest.len() as int] == levels[path.len() as int]);
                    }
                }
            }
            if forall|path: Seq<bool>| #[trigger] node.meets(path, levels) {
                assert(node.meets(seq![], levels));
                assert forall|path: Seq<bool>| #[trigger] left.meets(path, levels.skip(1)) by {
                    let whole = seq![true] + path;
                    assert(whole.skip(1) =~= path);
                    assert(node.meets(whole, levels));
                }
                assert forall|path: Seq<bool>| #[trigger] right.meets(path, levels.skip(1)) by {
                    let whole = seq![false] + path;
                    assert(whole.skip(1) =~= path);
                    assert(node.meets(whole, levels));
                }
            }
        },
    }
}

/// The path that goes left so many times.
pub open spec fn leftmost(n: nat) -> Seq<bool> {
    Seq::new(n, |i: int| true)
}

/// The tests of the left edge are those that the paths which only go left lead to, and the edge
/// ends in a leaf.
pub proof fn spines_go_left(node: NodeView, n: nat)
    ensures
        n < node.spine().len() ==> (node.node_at(leftmost(n)) matches Some(at) && at is Split
            && node.spine()[n as int] == at.level()),
        n == node.spine().len() ==> (node.node_at(leftmost(n)) matches Some(at) && at is Leaf),
        n > node.spine().len() ==> node.node_at(leftmost(n)) is None,
    decreases node,
{
    if let NodeView::Split { left, .. } = node {
        if n > 0 {
            spines_go_left(*left, (n - 1) as nat);
            assert(leftmost(n).skip(1) =~= leftmost((n - 1) as nat));
        }
    }
}

/// A tree is oblivious exactly if every path that turns right somewhere finds the tests of the
/// left edge, each at its depth, and a leaf where the left edge has one.
pub proof fn oblivious_trees_test_by_depth(node: NodeView)
    ensures
        node.oblivious() <==> forall|path: Seq<bool>|
            path.contains(false) ==> #[trigger] node.meets(path, node.spine()),
    decreases node,
{
    match node {
        NodeView::Leaf { .. } => {},
        NodeView::Split { left, right, .. } => {
            let spine = node.spine();
            assert(spine.skip(1) =~= left.spine());
            oblivious_trees_test_by_depth(*left);
            lemma_follows_by_path(*right, left.spine());
            if node.oblivious() {
                assert forall|path: Seq<bool>| path.contains(false) implies #[trigger] node.meets(
                    path,
                    spine,
                ) by {
                    let rest = path.skip(1);
                    if path[0] {
                        let k = choose|k: int| 0 <= k < path.len() && path[k] == false;
                        assert(rest[k - 1] == false);
                        assert(left.meets(rest, left.spine()));
                    } else {
                        assert(right.meets(rest, left.spine()));
                    }
                    assert(rest.len() < left.spine().len() ==> left.spine()[rest.len() as int]
                        == spine[path.len() as int]);
                }
            }
            if forall|path: Seq<bool>|
                path.contains(false) ==> #[trigger] node.meets(path, spine) {
                assert forall|path: Seq<bool>| path.contains(false) implies #[trigger] left.meets(
                    path,
                    left.spine(),
                ) by {
                    let whole = seq![true] + path;
                    let k = choose|k: int| 0 <= k < path.len() && path[k] == false;
                    assert(whole[k + 1] == false);
                    assert(whole.skip(1) =~= path);
                    assert(node.meets(whole, spine));
                }
                assert forall|path: Seq<bool>| #[trigger] right.meets(path, left.spine()) by {
                    let whole = seq![false] + path;
                    assert(whole[0] == false);
                    assert(whole.skip(1) =~= path);
                    assert(node.meets(whole, spine));
                }
            }
        },
    }
}

/// A tree is as deep as its longest path to a leaf: no path to a node is longer, and one to a
/// leaf is as long.
pub proof fn depths_are_the_longest_paths(node: NodeView)
    ensures
        forall|path: Seq<bool>|
            #[trigger] node.node_at(path) is Some ==> path.len() <= node.depth(),
        exists|path: Seq<bool>|
            (#[trigger] node.node_at(path) matches Some(at) && at is Leaf) && path.len()
                == node.depth(),
    decreases node,
{
    match node {
        NodeView::Leaf { .. } => {
            let path = Seq::<bool>::empty();
            assert(node.node_at(path) == Some(node));
        },
        NodeView::Split { left, right, .. } => {
            depths_are_the_longest_paths(*left);
            depths_are_the_longest_paths(*right);
            assert forall|path: Seq<bool>| #[trigger] node.node_at(path) is Some implies path.len()
                <= node.depth() by {
                if path.len() > 0 {
                    let rest = path.skip(1);
                    assert(left.node_at(rest) is Some || right.node_at(rest) is Some);
                }
            }
            let goes_left = left.depth() >= right.depth();
            let deeper = if goes_left {
                *left
            } else {
                *right
            };
            let path = choose|path: Seq<bool>|
                (#[trigger] deeper.node_at(path) matches Some(at) && at is Leaf) && path.len()
                    == deeper.depth();
            let whole = seq![goes_left] + path;
            assert(whole.skip(1) =~= path);
            assert(node.node_at(whole) == deeper.node_at(path));
        },
    }
}

/// Other leaf values change no test: a path leads to a split with the same test as before, or to
/// a leaf where one was before.
pub proof fn other_leaves_change_no_test(
    node: NodeView,
    values: Seq<F64>,
    from: int,
    path: Seq<bool>,
)
    ensures
        match (node.node_at(path), node.relabelled(values, from).node_at(path)) {
            (None, None) => true,
            (Some(a), Some(b)) => (a is Leaf && b is Leaf) || (a is Split && b is Split
                && a.level() == b.level()),
            _ => false,
        },
    decreases path.len(),
{
    if let NodeView::Split { left, right, .. } = node {
        if path.len() > 0 {
            if path[0] {
                other_leaves_change_no_test(
                    *left,
                    values,
                    from + right.leaves().len(),
                    path.skip(1),
                );
            } else {
                other_leaves_change_no_test(*right, values, from, path.skip(1));
            }
        }
    }
}

} // verus!
