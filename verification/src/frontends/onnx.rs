//! ONNX models with a tree-ensemble operator.
use crate::error::{Complaint, Failure, Problem};
#[allow(unused_imports)]
use crate::error::FailureView;
use crate::frontends::Frontend;
use crate::ir::{
    AggregationKind, Forest, MissingDirection, Node, Operator, PostTransform, SplitKind, Tree,
};
#[allow(unused_imports)]
use crate::ir::{self, ForestView, NodeView, SplitView, TreeView};
use crate::number::{F32, F64, ONE_BITS};
use crate::text;
use std::collections::HashMap;
use vstd::prelude::*;

verus! {

broadcast use vstd::std_specs::hash::group_hash_axioms;

/// An attribute of an operator.
#[derive(Debug)]
pub struct Attribute {
    pub name: Option<String>,
    pub s: Option<Vec<u8>>,
    pub ints: Vec<i64>,
    pub floats: Vec<F32>,
    pub strings: Vec<Vec<u8>>,
}

/// An operator of a graph.
#[derive(Debug)]
pub struct GraphNode {
    pub op_type: Option<String>,
    pub attribute: Vec<Attribute>,
}

/// The operators of a model.
#[derive(Debug)]
pub struct Graph {
    pub node: Vec<GraphNode>,
}

/// A model as its file gives it.
#[derive(Debug)]
pub struct Model {
    pub graph: Option<Graph>,
}

/// Reads ONNX models.
pub struct OnnxFrontend;

/// How a node decides.
#[derive(Debug, Clone, Copy, PartialEq, Eq, Structural)]
pub enum Mode {
    Leaf,
    Branch(Operator),
}

/// A node as the parallel arrays give it.
#[derive(Debug, Clone, Copy, PartialEq, Eq, Structural)]
pub struct SplitInfo {
    pub feature_idx: usize,
    pub threshold: F32,
    pub mode: Mode,
    pub true_child: i64,
    pub false_child: i64,
    /// Whether a missing value follows the true child.
    pub missing_tracks_true: bool,
}

#[verifier::ext_equal]
pub ghost struct AttributeView {
    pub name: Option<Seq<char>>,
    pub s: Option<Seq<u8>>,
    pub ints: Seq<i64>,
    pub floats: Seq<F32>,
    pub strings: Seq<Seq<u8>>,
}

impl View for Attribute {
    type V = AttributeView;

    open spec fn view(&self) -> AttributeView {
        AttributeView {
            name: match self.name {
                Some(name) => Some(name@),
                None => None,
            },
            s: match self.s {
                Some(bytes) => Some(bytes@),
                None => None,
            },
            ints: self.ints@,
            floats: self.floats@,
            strings: self.strings@.map_values(|bytes: Vec<u8>| bytes@),
        }
    }
}

/// Whether bytes spell a word of ASCII characters.
pub open spec fn spells(bytes: Seq<u8>, word: Seq<char>) -> bool {
    bytes.len() == word.len() && forall|i: int|
        0 <= i < bytes.len() ==> #[trigger] bytes[i] as u32 == word[i] as u32
}

/// Whether an optional text is the given one.
pub open spec fn is_text(value: Option<String>, word: Seq<char>) -> bool {
    match value {
        Some(s) => s@ == word,
        None => false,
    }
}

/// The first attribute at or after `from` that has the name.
pub open spec fn attribute_from(attributes: Seq<Attribute>, name: Seq<char>, from: int) -> Option<
    AttributeView,
>
    decreases attributes.len() - from,
{
    if from < 0 || from >= attributes.len() {
        None
    } else if attributes[from]@.name == Some(name) {
        Some(attributes[from]@)
    } else {
        attribute_from(attributes, name, from + 1)
    }
}

/// The attribute of an operator that has the name.
pub open spec fn attribute(node: GraphNode, name: Seq<char>) -> Option<AttributeView> {
    attribute_from(node.attribute@, name, 0)
}

/// The integers of an attribute, none if it is not there.
pub open spec fn ints(node: GraphNode, name: Seq<char>) -> Seq<i64> {
    match attribute(node, name) {
        Some(a) => a.ints,
        None => seq![],
    }
}

/// The singles of an attribute, none if it is not there.
pub open spec fn floats(node: GraphNode, name: Seq<char>) -> Seq<F32> {
    match attribute(node, name) {
        Some(a) => a.floats,
        None => seq![],
    }
}

/// Whether the text of an attribute spells a word.
pub open spec fn says(node: GraphNode, name: Seq<char>, word: Seq<char>) -> bool {
    match attribute(node, name) {
        Some(a) => match a.s {
            Some(bytes) => spells(bytes, word),
            None => false,
        },
        None => false,
    }
}

pub open spec fn is_ensemble(node: GraphNode) -> bool {
    is_text(node.op_type, "TreeEnsembleRegressor"@) || is_text(
        node.op_type,
        "TreeEnsembleClassifier"@,
    )
}

/// The first tree-ensemble operator at or after `from`.
pub open spec fn ensemble_from(nodes: Seq<GraphNode>, from: int) -> Option<GraphNode>
    decreases nodes.len() - from,
{
    if from < 0 || from >= nodes.len() {
        None
    } else if is_ensemble(nodes[from]) {
        Some(nodes[from])
    } else {
        ensemble_from(nodes, from + 1)
    }
}

/// The mode that bytes spell; what they do not spell is `<=`.
pub open spec fn mode_of(bytes: Seq<u8>) -> Mode {
    if spells(bytes, "LEAF"@) {
        Mode::Leaf
    } else if spells(bytes, "BRANCH_LT"@) {
        Mode::Branch(Operator::LessThan)
    } else if spells(bytes, "BRANCH_GT"@) {
        Mode::Branch(Operator::GreaterThan)
    } else if spells(bytes, "BRANCH_GEQ"@) {
        Mode::Branch(Operator::GreaterOrEqual)
    } else if spells(bytes, "BRANCH_EQ"@) {
        Mode::Branch(Operator::Equal)
    } else if spells(bytes, "BRANCH_NEQ"@) {
        Mode::Branch(Operator::NotEqual)
    } else {
        Mode::Branch(Operator::LessOrEqual)
    }
}

/// The parallel arrays of an operator's nodes.
#[verifier::ext_equal]
pub ghost struct NodesView {
    pub tree_ids: Seq<i64>,
    pub node_ids: Seq<i64>,
    pub feature_ids: Seq<i64>,
    pub values: Seq<F32>,
    pub modes: Seq<Seq<u8>>,
    pub true_ids: Seq<i64>,
    pub false_ids: Seq<i64>,
    pub tracks_true: Seq<i64>,
}

impl NodesView {
    pub open spec fn aligned(self) -> bool {
        let n = self.tree_ids.len();
        self.node_ids.len() == n && self.feature_ids.len() == n && self.values.len() == n
            && self.modes.len() == n && self.true_ids.len() == n && self.false_ids.len() == n
    }

    /// Node `i`.
    pub open spec fn info(self, i: int) -> SplitInfo {
        SplitInfo {
            feature_idx: self.feature_ids[i] as usize,
            threshold: self.values[i],
            mode: mode_of(self.modes[i]),
            true_child: self.true_ids[i],
            false_child: self.false_ids[i],
            missing_tracks_true: i < self.tracks_true.len() && self.tracks_true[i] != 0,
        }
    }
}

pub open spec fn missing_attribute(name: Seq<char>) -> FailureView {
    FailureView::About { complaint: Complaint::MissingAttribute, text: name }
}

/// The arrays of an operator's nodes, or the first one that is missing.
pub open spec fn nodes_of(node: GraphNode) -> Result<NodesView, FailureView> {
    match attribute(node, "nodes_treeids"@) {
        None => Err(missing_attribute("nodes_treeids"@)),
        Some(tree_ids) => match attribute(node, "nodes_nodeids"@) {
            None => Err(missing_attribute("nodes_nodeids"@)),
            Some(node_ids) => match attribute(node, "nodes_featureids"@) {
                None => Err(missing_attribute("nodes_featureids"@)),
                Some(feature_ids) => match attribute(node, "nodes_values"@) {
                    None => Err(missing_attribute("nodes_values"@)),
                    Some(values) => match attribute(node, "nodes_modes"@) {
                        None => Err(missing_attribute("nodes_modes"@)),
                        Some(modes) => match attribute(node, "nodes_truenodeids"@) {
                            None => Err(missing_attribute("nodes_truenodeids"@)),
                            Some(true_ids) => match attribute(node, "nodes_falsenodeids"@) {
                                None => Err(missing_attribute("nodes_falsenodeids"@)),
                                Some(false_ids) => checked_nodes(
                                    node,
                                    NodesView {
                                        tree_ids: tree_ids.ints,
                                        node_ids: node_ids.ints,
                                        feature_ids: feature_ids.ints,
                                        values: values.floats,
                                        modes: modes.strings,
                                        true_ids: true_ids.ints,
                                        false_ids: false_ids.ints,
                                        tracks_true: ints(
                                            node,
                                            "nodes_missing_value_tracks_true"@,
                                        ),
                                    },
                                ),
                            },
                        },
                    },
                },
            },
        },
    }
}

/// The arrays if they belong together and no node tests categories.
pub open spec fn checked_nodes(node: GraphNode, nodes: NodesView) -> Result<
    NodesView,
    FailureView,
> {
    if attribute(node, "nodes_categorical_attributes"@) matches Some(a) && a.strings.len() > 0 {
        Err(FailureView::Plain(Problem::CategoricalNodes))
    } else if !nodes.aligned() {
        Err(
            FailureView::Plain(
                Problem::NodeArrays { entries: nodes.tree_ids.len() as usize },
            ),
        )
    } else {
        Ok(nodes)
    }
}

/// The nodes of one tree by their number, and its leaf values by theirs.
#[verifier::ext_equal]
pub ghost struct BuilderView {
    pub splits: Map<i64, SplitInfo>,
    pub leaves: Map<i64, F64>,
}

/// What is known of all trees: their parts by the number of the tree, and the numbers in
/// order.
#[verifier::ext_equal]
pub ghost struct TreesView {
    pub builders: Map<i64, BuilderView>,
    pub ids: Seq<i64>,
}

/// Numbers in order with one more among them, if it is not there yet.
pub open spec fn with_id(ids: Seq<i64>, id: i64) -> Seq<i64>
    decreases ids.len(),
{
    if ids.len() == 0 || ids.last() < id {
        ids.push(id)
    } else if ids.last() == id {
        ids
    } else {
        with_id(ids.drop_last(), id).push(ids.last())
    }
}

impl TreesView {
    pub open spec fn empty() -> TreesView {
        TreesView { builders: Map::empty(), ids: seq![] }
    }

    /// The parts of a tree, none if there are none yet.
    pub open spec fn builder(self, tree: i64) -> BuilderView {
        if self.builders.dom().contains(tree) {
            self.builders[tree]
        } else {
            BuilderView { splits: Map::empty(), leaves: Map::empty() }
        }
    }

    /// With one more node of a tree, in place of any with the same number.
    pub open spec fn with_split(self, tree: i64, node: i64, info: SplitInfo) -> TreesView {
        let b = self.builder(tree);
        TreesView {
            builders: self.builders.insert(
                tree,
                BuilderView { splits: b.splits.insert(node, info), leaves: b.leaves },
            ),
            ids: with_id(self.ids, tree),
        }
    }

    /// With one more leaf value of a tree, in place of any with the same number.
    pub open spec fn with_leaf(self, tree: i64, node: i64, value: F64) -> TreesView {
        let b = self.builder(tree);
        TreesView {
            builders: self.builders.insert(
                tree,
                BuilderView { splits: b.splits, leaves: b.leaves.insert(node, value) },
            ),
            ids: with_id(self.ids, tree),
        }
    }
}

/// The trees after the first `n` nodes.
pub open spec fn after_nodes(nodes: NodesView, n: int) -> TreesView
    decreases n,
{
    if n <= 0 {
        TreesView::empty()
    } else {
        after_nodes(nodes, n - 1).with_split(
            nodes.tree_ids[n - 1],
            nodes.node_ids[n - 1],
            nodes.info(n - 1),
        )
    }
}

/// The parallel arrays of leaf values: of a regressor the trees alone tell how many entries
/// there are, of a classifier the classes do.
#[verifier::ext_equal]
pub ghost struct LeavesView {
    pub tree_ids: Seq<i64>,
    pub node_ids: Seq<i64>,
    pub weights: Seq<F32>,
}

impl LeavesView {
    /// Whether entry `i` is there.
    pub open spec fn has(self, i: int) -> bool {
        i < self.tree_ids.len() && i < self.node_ids.len() && i < self.weights.len()
    }
}

/// The trees after the leaf values from `from` on of a regressor, or that one is not there.
pub open spec fn after_targets(trees: TreesView, leaves: LeavesView, from: int) -> Result<
    TreesView,
    FailureView,
>
    decreases leaves.tree_ids.len() - from,
{
    if from < 0 || from >= leaves.tree_ids.len() {
        Ok(trees)
    } else if !leaves.has(from) {
        Err(FailureView::Plain(Problem::LeafArrays))
    } else {
        after_targets(
            trees.with_leaf(
                leaves.tree_ids[from],
                leaves.node_ids[from],
                leaves.weights[from].widened(),
            ),
            leaves,
            from + 1,
        )
    }
}

/// The greatest of the first `n` class numbers; -1 if there are none.
pub open spec fn greatest_class(ids: Seq<i64>, n: int) -> int
    decreases n,
{
    if n <= 0 {
        -1
    } else if n == 1 || ids[n - 1] > greatest_class(ids, n - 1) {
        ids[n - 1] as int
    } else {
        greatest_class(ids, n - 1)
    }
}

/// The remainder of a division that rounds toward zero.
pub open spec fn remainder(value: int, modulus: int) -> int {
    if value >= 0 {
        value % modulus
    } else {
        -((-value) % modulus)
    }
}

/// Whether the entry of a class number counts for a tree. With two classes the positive one
/// counts; with more, tree `t` has the values of class `t` modulo their number.
pub open spec fn counts(class: i64, top: int, tree: i64) -> bool {
    if top < -1 {
        false
    } else if top <= 1 {
        class == (if top == 1 {
            1int
        } else {
            0int
        })
    } else {
        class == remainder(tree as int, top + 1)
    }
}

/// The trees after the leaf values from `from` on of a classifier, or that one is not there.
pub open spec fn after_classes(
    trees: TreesView,
    classes: Seq<i64>,
    leaves: LeavesView,
    from: int,
) -> Result<TreesView, FailureView>
    decreases classes.len() - from,
{
    let top = greatest_class(classes, classes.len() as int);
    if from < 0 || from >= classes.len() {
        Ok(trees)
    } else if top > 1 && from >= leaves.tree_ids.len() {
        Err(FailureView::Plain(Problem::LeafArrays))
    } else if !counts(
        classes[from],
        top,
        if from < leaves.tree_ids.len() {
            leaves.tree_ids[from]
        } else {
            0
        },
    ) {
        after_classes(trees, classes, leaves, from + 1)
    } else if !leaves.has(from) {
        Err(FailureView::Plain(Problem::LeafArrays))
    } else {
        after_classes(
            trees.with_leaf(
                leaves.tree_ids[from],
                leaves.node_ids[from],
                leaves.weights[from].widened(),
            ),
            classes,
            leaves,
            from + 1,
        )
    }
}

impl BuilderView {
    /// The tree below a node. A path that meets more nodes than there are runs in circles.
    pub open spec fn node(self, id: i64, fuel: nat) -> Result<NodeView, FailureView>
        decreases fuel,
    {
        if self.leaves.dom().contains(id) {
            Ok(NodeView::Leaf { value: self.leaves[id] })
        } else if !self.splits.dom().contains(id) {
            Err(FailureView::Plain(Problem::UnknownNode { id }))
        } else {
            let info = self.splits[id];
            match info.mode {
                Mode::Leaf => Err(FailureView::Plain(Problem::LeafWithoutWeight { id })),
                Mode::Branch(operator) => if fuel == 0 {
                    Err(FailureView::Plain(Problem::CyclicTree { id }))
                } else {
                    match self.node(info.true_child, (fuel - 1) as nat) {
                        Err(e) => Err(e),
                        Ok(left) => match self.node(info.false_child, (fuel - 1) as nat) {
                            Err(e) => Err(e),
                            Ok(right) => Ok(
                                NodeView::Split {
                                    feature_idx: info.feature_idx,
                                    split: SplitView::Numeric {
                                        threshold: info.threshold,
                                        operator,
                                    },
                                    left: Box::new(left),
                                    right: Box::new(right),
                                    missing: if info.missing_tracks_true {
                                        MissingDirection::Left
                                    } else {
                                        MissingDirection::Right
                                    },
                                },
                            ),
                        },
                    }
                },
            }
        }
    }
}

/// The trees from `from` on, in the order of their numbers, behind those built before.
pub open spec fn built_from(trees: TreesView, from: int, before: Seq<TreeView>) -> Result<
    Seq<TreeView>,
    FailureView,
>
    decreases trees.ids.len() - from,
{
    if from < 0 || from >= trees.ids.len() {
        Ok(before)
    } else {
        let builder = trees.builder(trees.ids[from]);
        match builder.node(0, builder.splits.len()) {
            Err(e) => Err(e),
            Ok(root) => built_from(
                trees,
                from + 1,
                before.push(TreeView { root, weight: F64 { bits: ONE_BITS } }),
            ),
        }
    }
}

/// The trees of an operator.
pub open spec fn trees_of(node: GraphNode) -> Result<Seq<TreeView>, FailureView> {
    let targets = LeavesView {
        tree_ids: ints(node, "target_treeids"@),
        node_ids: ints(node, "target_nodeids"@),
        weights: floats(node, "target_weights"@),
    };
    let outputs = LeavesView {
        tree_ids: ints(node, "class_treeids"@),
        node_ids: ints(node, "class_nodeids"@),
        weights: floats(node, "class_weights"@),
    };
    match nodes_of(node) {
        Err(e) => Err(e),
        Ok(nodes) => match after_targets(
            after_nodes(nodes, nodes.tree_ids.len() as int),
            targets,
            0,
        ) {
            Err(e) => Err(e),
            Ok(regressed) => if top_class(node) == i64::MAX {
                Err(FailureView::Plain(Problem::ClassIds))
            } else {
                match after_classes(regressed, ints(node, "class_ids"@), outputs, 0) {
                    Err(e) => Err(e),
                    Ok(trees) => built_from(trees, 0, seq![]),
                }
            },
        },
    }
}

/// The greatest class number of an operator.
pub open spec fn top_class(node: GraphNode) -> int {
    let classes = ints(node, "class_ids"@);
    greatest_class(classes, classes.len() as int)
}

/// The transform of an operator. Softmax is for three classes and more.
pub open spec fn transform_of(node: GraphNode) -> PostTransform {
    let name = "post_transform"@;
    let classes = if ints(node, "class_ids"@).len() == 0 {
        1usize
    } else {
        (top_class(node) + 1) as usize
    };
    if says(node, name, "LOGISTIC"@) {
        PostTransform::Logit
    } else if (says(node, name, "SOFTMAX"@) || says(node, name, "SOFTMAX_ZERO"@)) && classes > 2 {
        PostTransform::Softmax { n_classes: classes }
    } else {
        PostTransform::Identity
    }
}

/// The forest of a model.
pub open spec fn forest_of(model: Model) -> Result<ForestView, FailureView> {
    match model.graph {
        None => Err(FailureView::Plain(Problem::NoGraph)),
        Some(graph) => match ensemble_from(graph.node@, 0) {
            None => Err(FailureView::Plain(Problem::NoTreeEnsemble)),
            Some(node) => match trees_of(node) {
                Err(e) => Err(e),
                Ok(trees) => {
                    let bases = floats(node, "base_values"@);
                    Ok(
                        ForestView {
                            trees,
                            base_score: if bases.len() > 0 {
                                bases[0].widened()
                            } else {
                                F64 { bits: 0 }
                            },
                            base_scores: seq![],
                            aggregation: if says(node, "aggregate_function"@, "AVERAGE"@) {
                                AggregationKind::Average
                            } else {
                                AggregationKind::Sum
                            },
                            post_transform: transform_of(node),
                            catboost_metadata: None,
                        },
                    )
                },
            },
        },
    }
}

/// The parts of one tree.
struct TreeBuilder {
    splits: HashMap<i64, SplitInfo>,
    leaves: HashMap<i64, F64>,
}

impl View for TreeBuilder {
    type V = BuilderView;

    closed spec fn view(&self) -> BuilderView {
        BuilderView { splits: self.splits@, leaves: self.leaves@ }
    }
}

/// The parts of all trees by the number of the tree, and the numbers in order.
struct Trees {
    builders: HashMap<i64, TreeBuilder>,
    ids: Vec<i64>,
}

impl View for Trees {
    type V = TreesView;

    closed spec fn view(&self) -> TreesView {
        TreesView {
            builders: self.builders@.map_values(|b: TreeBuilder| b@),
            ids: self.ids@,
        }
    }
}

/// Puts a number in its place among others in order, if it is not there yet.
fn add_id(ids: &mut Vec<i64>, id: i64)
    ensures
        final(ids)@ == with_id(old(ids)@, id),
{
    let ghost all = ids@;
    let mut at: usize = ids.len();
    assert(all.take(at as int) =~= all);
    assert(all.skip(at as int) =~= seq![]);
    while at > 0 && ids[at - 1] > id
        invariant
            at <= ids.len(),
            ids@ == all,
            with_id(all, id) == with_id(all.take(at as int), id) + all.skip(at as int),
        decreases at,
    {
        proof {
            let shorter = all.take(at as int);
            assert(shorter.drop_last() =~= all.take(at - 1));
            assert(with_id(all.take(at - 1), id).push(all[at - 1]) + all.skip(at as int)
                =~= with_id(all.take(at - 1), id) + all.skip(at - 1));
        }
        at = at - 1;
    }
    if at > 0 && ids[at - 1] == id {
        proof {
            assert(all.take(at as int) + all.skip(at as int) =~= all);
        }
        return;
    }
    ids.insert(at, id);
    proof {
        assert(ids@ =~= all.take(at as int).push(id) + all.skip(at as int));
    }
}

impl Trees {
    fn new() -> (r: Trees)
        ensures
            r@ == TreesView::empty(),
    {
        let trees = Trees { builders: HashMap::new(), ids: Vec::new() };
        proof {
            assert(trees@.builders =~= Map::empty());
            assert(trees@.ids =~= seq![]);
        }
        trees
    }

    fn add_split(&mut self, tree: i64, node: i64, info: SplitInfo)
        ensures
            final(self)@ == old(self)@.with_split(tree, node, info),
    {
        let ghost before = self.builders@;
        add_id(&mut self.ids, tree);
        let entry = self.builders.entry(tree);
        let builder = entry.or_insert(
            TreeBuilder { splits: HashMap::new(), leaves: HashMap::new() },
        );
        builder.splits.insert(node, info);
        proof {
            assert(self@.builders =~= old(self)@.with_split(tree, node, info).builders);
        }
    }

    fn add_leaf(&mut self, tree: i64, node: i64, value: F64)
        ensures
            final(self)@ == old(self)@.with_leaf(tree, node, value),
    {
        add_id(&mut self.ids, tree);
        let entry = self.builders.entry(tree);
        let builder = entry.or_insert(
            TreeBuilder { splits: HashMap::new(), leaves: HashMap::new() },
        );
        builder.leaves.insert(node, value);
        proof {
            assert(self@.builders =~= old(self)@.with_leaf(tree, node, value).builders);
        }
    }
}

fn is_word(value: &Option<String>, word: &str) -> (r: bool)
    ensures
        r == is_text(*value, word@),
{
    match value {
        Some(s) => text::same(s.as_str(), word),
        None => false,
    }
}

fn spelled(bytes: &Vec<u8>, word: &str) -> (r: bool)
    ensures
        r == spells(bytes@, word@),
{
    let chars = text::to_chars(word);
    if bytes.len() != chars.len() {
        return false;
    }
    let mut i: usize = 0;
    while i < bytes.len()
        invariant
            i <= bytes.len() == chars.len(),
            chars@ == word@,
            forall|j: int| 0 <= j < i ==> #[trigger] bytes[j] as u32 == word@[j] as u32,
        decreases bytes.len() - i,
    {
        if bytes[i] as u32 != chars[i] as u32 {
            assert(bytes@[i as int] as u32 != word@[i as int] as u32);
            return false;
        }
        i = i + 1;
    }
    true
}

fn get_attr<'a>(node: &'a GraphNode, name: &str) -> (r: Option<&'a Attribute>)
    ensures
        match r {
            Some(a) => attribute(*node, name@) == Some(a@),
            None => attribute(*node, name@) is None,
        },
{
    let mut i: usize = 0;
    while i < node.attribute.len()
        invariant
            i <= node.attribute.len(),
            attribute(*node, name@) == attribute_from(node.attribute@, name@, i as int),
        decreases node.attribute.len() - i,
    {
        if is_word(&node.attribute[i].name, name) {
            return Some(&node.attribute[i]);
        }
        i = i + 1;
    }
    None
}

fn get_required<'a>(node: &'a GraphNode, name: &str) -> (r: Result<&'a Attribute, Failure>)
    ensures
        match r {
            Ok(a) => attribute(*node, name@) == Some(a@),
            Err(e) => attribute(*node, name@) is None && e@ == missing_attribute(name@),
        },
{
    match get_attr(node, name) {
        Some(a) => Ok(a),
        None => Err(
            Failure::About { complaint: Complaint::MissingAttribute, text: name.to_owned() },
        ),
    }
}

fn get_ints(node: &GraphNode, name: &str) -> (r: Vec<i64>)
    ensures
        r@ == ints(*node, name@),
{
    match get_attr(node, name) {
        Some(a) => {
            let copy = a.ints.clone();
            assert(copy@ =~= a.ints@);
            copy
        },
        None => {
            let none: Vec<i64> = Vec::new();
            assert(none@ =~= seq![]);
            none
        },
    }
}

fn copy_floats(items: &Vec<F32>) -> (r: Vec<F32>)
    ensures
        r@ == items@,
{
    let mut out: Vec<F32> = Vec::new();
    let mut i: usize = 0;
    while i < items.len()
        invariant
            i <= items.len(),
            out@ == items@.take(i as int),
        decreases items.len() - i,
    {
        out.push(items[i]);
        i = i + 1;
    }
    assert(items@.take(items.len() as int) =~= items@);
    out
}

fn get_floats(node: &GraphNode, name: &str) -> (r: Vec<F32>)
    ensures
        r@ == floats(*node, name@),
{
    match get_attr(node, name) {
        Some(a) => copy_floats(&a.floats),
        None => {
            let none: Vec<F32> = Vec::new();
            assert(none@ =~= seq![]);
            none
        },
    }
}

fn attribute_says(node: &GraphNode, name: &str, word: &str) -> (r: bool)
    ensures
        r == says(*node, name@, word@),
{
    match get_attr(node, name) {
        Some(a) => match &a.s {
            Some(bytes) => spelled(bytes, word),
            None => false,
        },
        None => false,
    }
}

fn parse_mode(bytes: &Vec<u8>) -> (r: Mode)
    ensures
        r == mode_of(bytes@),
{
    if spelled(bytes, "LEAF") {
        Mode::Leaf
    } else if spelled(bytes, "BRANCH_LT") {
        Mode::Branch(Operator::LessThan)
    } else if spelled(bytes, "BRANCH_GT") {
        Mode::Branch(Operator::GreaterThan)
    } else if spelled(bytes, "BRANCH_GEQ") {
        Mode::Branch(Operator::GreaterOrEqual)
    } else if spelled(bytes, "BRANCH_EQ") {
        Mode::Branch(Operator::Equal)
    } else if spelled(bytes, "BRANCH_NEQ") {
        Mode::Branch(Operator::NotEqual)
    } else {
        Mode::Branch(Operator::LessOrEqual)
    }
}

/// The parallel arrays of an operator's nodes.
struct Nodes<'a> {
    tree_ids: &'a Vec<i64>,
    node_ids: &'a Vec<i64>,
    feature_ids: &'a Vec<i64>,
    values: &'a Vec<F32>,
    modes: &'a Vec<Vec<u8>>,
    true_ids: &'a Vec<i64>,
    false_ids: &'a Vec<i64>,
    tracks_true: Vec<i64>,
}

impl<'a> View for Nodes<'a> {
    type V = NodesView;

    closed spec fn view(&self) -> NodesView {
        NodesView {
            tree_ids: self.tree_ids@,
            node_ids: self.node_ids@,
            feature_ids: self.feature_ids@,
            values: self.values@,
            modes: self.modes@.map_values(|bytes: Vec<u8>| bytes@),
            true_ids: self.true_ids@,
            false_ids: self.false_ids@,
            tracks_true: self.tracks_true@,
        }
    }
}

fn parse_nodes<'a>(node: &'a GraphNode) -> (r: Result<Nodes<'a>, Failure>)
    ensures
        match r {
            Ok(nodes) => nodes_of(*node) == Ok::<NodesView, FailureView>(nodes@)
                && nodes@.aligned(),
            Err(e) => nodes_of(*node) == Err::<NodesView, FailureView>(e@),
        },
{
    let tree_ids = match get_required(node, "nodes_treeids") {
        Ok(a) => &a.ints,
        Err(e) => {
            return Err(e);
        },
    };
    let node_ids = match get_required(node, "nodes_nodeids") {
        Ok(a) => &a.ints,
        Err(e) => {
            return Err(e);
        },
    };
    let feature_ids = match get_required(node, "nodes_featureids") {
        Ok(a) => &a.ints,
        Err(e) => {
            return Err(e);
        },
    };
    let values = match get_required(node, "nodes_values") {
        Ok(a) => &a.floats,
        Err(e) => {
            return Err(e);
        },
    };
    let modes = match get_required(node, "nodes_modes") {
        Ok(a) => &a.strings,
        Err(e) => {
            return Err(e);
        },
    };
    let true_ids = match get_required(node, "nodes_truenodeids") {
        Ok(a) => &a.ints,
        Err(e) => {
            return Err(e);
        },
    };
    let false_ids = match get_required(node, "nodes_falsenodeids") {
        Ok(a) => &a.ints,
        Err(e) => {
            return Err(e);
        },
    };
    match get_attr(node, "nodes_categorical_attributes") {
        Some(a) => {
            if a.strings.len() > 0 {
                return Err(Failure::Plain(Problem::CategoricalNodes));
            }
        },
        None => {},
    }
    let n: usize = tree_ids.len();
    let tracks_true = get_ints(node, "nodes_missing_value_tracks_true");
    let nodes = Nodes {
        tree_ids,
        node_ids,
        feature_ids,
        values,
        modes,
        true_ids,
        false_ids,
        tracks_true,
    };
    if node_ids.len() != n || feature_ids.len() != n || values.len() != n || modes.len() != n
        || true_ids.len() != n || false_ids.len() != n {
        return Err(Failure::Plain(Problem::NodeArrays { entries: n }));
    }
    Ok(nodes)
}

fn add_nodes(nodes: &Nodes) -> (r: Trees)
    requires
        nodes@.aligned(),
    ensures
        r@ == after_nodes(nodes@, nodes@.tree_ids.len() as int),
{
    let mut trees = Trees::new();
    let mut i: usize = 0;
    while i < nodes.tree_ids.len()
        invariant
            i <= nodes.tree_ids.len(),
            nodes@.aligned(),
            trees@ == after_nodes(nodes@, i as int),
        decreases nodes.tree_ids.len() - i,
    {
        let info = SplitInfo {
            feature_idx: nodes.feature_ids[i] as usize,
            threshold: nodes.values[i],
            mode: parse_mode(&nodes.modes[i]),
            true_child: nodes.true_ids[i],
            false_child: nodes.false_ids[i],
            missing_tracks_true: i < nodes.tracks_true.len() && nodes.tracks_true[i] != 0,
        };
        assert(info == nodes@.info(i as int));
        trees.add_split(nodes.tree_ids[i], nodes.node_ids[i], info);
        i = i + 1;
    }
    trees
}

/// The parallel arrays of leaf values.
struct Leaves {
    tree_ids: Vec<i64>,
    node_ids: Vec<i64>,
    weights: Vec<F32>,
}

impl View for Leaves {
    type V = LeavesView;

    closed spec fn view(&self) -> LeavesView {
        LeavesView {
            tree_ids: self.tree_ids@,
            node_ids: self.node_ids@,
            weights: self.weights@,
        }
    }
}

fn add_targets(trees: Trees, leaves: &Leaves) -> (r: Result<Trees, Failure>)
    ensures
        match r {
            Ok(out) => after_targets(trees@, leaves@, 0) == Ok::<TreesView, FailureView>(out@),
            Err(e) => after_targets(trees@, leaves@, 0) == Err::<TreesView, FailureView>(e@),
        },
{
    let mut out = trees;
    let mut i: usize = 0;
    while i < leaves.tree_ids.len()
        invariant
            i <= leaves.tree_ids.len(),
            after_targets(trees@, leaves@, 0) == after_targets(out@, leaves@, i as int),
        decreases leaves.tree_ids.len() - i,
    {
        if i >= leaves.node_ids.len() || i >= leaves.weights.len() {
            return Err(Failure::Plain(Problem::LeafArrays));
        }
        out.add_leaf(leaves.tree_ids[i], leaves.node_ids[i], leaves.weights[i].widen());
        i = i + 1;
    }
    Ok(out)
}

fn find_top_class(classes: &Vec<i64>) -> (r: i64)
    ensures
        r == greatest_class(classes@, classes.len() as int),
{
    let mut top: i64 = -1;
    let mut i: usize = 0;
    while i < classes.len()
        invariant
            i <= classes.len(),
            top == greatest_class(classes@, i as int),
        decreases classes.len() - i,
    {
        if i == 0 || classes[i] > top {
            top = classes[i];
        }
        i = i + 1;
    }
    top
}

fn class_counts(class: i64, top: i64, tree: i64) -> (r: bool)
    requires
        top < i64::MAX,
    ensures
        r == counts(class, top as int, tree),
{
    if top < -1 {
        return false;
    }
    if top == 1 {
        return class == 1;
    }
    if top < 1 {
        return class == 0;
    }
    let modulus: u64 = (top + 1) as u64;
    if tree >= 0 {
        let rest: u64 = tree as u64 % modulus;
        class == rest as i64
    } else {
        let opposite: u64 = (-(tree + 1)) as u64 + 1;
        let rest: u64 = opposite % modulus;
        class == -(rest as i64)
    }
}

fn add_classes(trees: Trees, classes: &Vec<i64>, leaves: &Leaves) -> (r: Result<Trees, Failure>)
    requires
        greatest_class(classes@, classes.len() as int) < i64::MAX,
    ensures
        match r {
            Ok(out) => after_classes(trees@, classes@, leaves@, 0) == Ok::<TreesView, FailureView>(
                out@,
            ),
            Err(e) => after_classes(trees@, classes@, leaves@, 0) == Err::<TreesView, FailureView>(
                e@,
            ),
        },
{
    let top: i64 = find_top_class(classes);
    let mut out = trees;
    let mut i: usize = 0;
    while i < classes.len()
        invariant
            i <= classes.len(),
            top == greatest_class(classes@, classes.len() as int),
            top < i64::MAX,
            after_classes(trees@, classes@, leaves@, 0) == after_classes(
                out@,
                classes@,
                leaves@,
                i as int,
            ),
        decreases classes.len() - i,
    {
        let here: bool = i < leaves.tree_ids.len();
        if top > 1 && !here {
            return Err(Failure::Plain(Problem::LeafArrays));
        }
        let tree: i64 = if here {
            leaves.tree_ids[i]
        } else {
            0
        };
        if class_counts(classes[i], top, tree) {
            if !here || i >= leaves.node_ids.len() || i >= leaves.weights.len() {
                return Err(Failure::Plain(Problem::LeafArrays));
            }
            out.add_leaf(tree, leaves.node_ids[i], leaves.weights[i].widen());
        }
        i = i + 1;
    }
    Ok(out)
}

/// The tree below a node.
fn build_recursive(node_id: i64, builder: &TreeBuilder, fuel: usize) -> (r: Result<Node, Failure>)
    ensures
        match r {
            Ok(node) => builder@.node(node_id, fuel as nat) == Ok::<NodeView, FailureView>(node@),
            Err(e) => builder@.node(node_id, fuel as nat) == Err::<NodeView, FailureView>(e@),
        },
    decreases fuel,
{
    match builder.leaves.get(&node_id) {
        Some(value) => {
            return Ok(Node::Leaf { value: *value });
        },
        None => {},
    }
    let info: SplitInfo = match builder.splits.get(&node_id) {
        Some(info) => *info,
        None => {
            return Err(Failure::Plain(Problem::UnknownNode { id: node_id }));
        },
    };
    let operator = match info.mode {
        Mode::Leaf => {
            return Err(Failure::Plain(Problem::LeafWithoutWeight { id: node_id }));
        },
        Mode::Branch(operator) => operator,
    };
    if fuel == 0 {
        return Err(Failure::Plain(Problem::CyclicTree { id: node_id }));
    }
    let left = match build_recursive(info.true_child, builder, fuel - 1) {
        Ok(left) => left,
        Err(e) => {
            return Err(e);
        },
    };
    let right = match build_recursive(info.false_child, builder, fuel - 1) {
        Ok(right) => right,
        Err(e) => {
            return Err(e);
        },
    };
    Ok(
        Node::Split {
            feature_idx: info.feature_idx,
            split: SplitKind::Numeric { threshold: info.threshold, operator },
            left_child: Box::new(left),
            right_child: Box::new(right),
            missing_direction: if info.missing_tracks_true {
                MissingDirection::Left
            } else {
                MissingDirection::Right
            },
        },
    )
}

fn build_trees(trees: &Trees) -> (r: Result<Vec<Tree>, Failure>)
    ensures
        match r {
            Ok(out) => built_from(trees@, 0, seq![]) == Ok::<Seq<TreeView>, FailureView>(
                ir::tree_views(out@),
            ),
            Err(e) => built_from(trees@, 0, seq![]) == Err::<Seq<TreeView>, FailureView>(e@),
        },
{
    let none = TreeBuilder { splits: HashMap::new(), leaves: HashMap::new() };
    let mut out: Vec<Tree> = Vec::new();
    let mut i: usize = 0;
    assert(ir::tree_views(out@) =~= seq![]);
    while i < trees.ids.len()
        invariant
            i <= trees.ids.len(),
            none@.splits == Map::<i64, SplitInfo>::empty(),
            none@.leaves == Map::<i64, F64>::empty(),
            built_from(trees@, 0, seq![]) == built_from(
                trees@,
                i as int,
                ir::tree_views(out@),
            ),
        decreases trees.ids.len() - i,
    {
        let ghost before = ir::tree_views(out@);
        let id: i64 = trees.ids[i];
        let builder: &TreeBuilder = match trees.builders.get(&id) {
            Some(builder) => builder,
            None => &none,
        };
        assert(builder@ == trees@.builder(id));
        match build_recursive(0, builder, builder.splits.len()) {
            Err(e) => {
                return Err(e);
            },
            Ok(root) => {
                let tree = Tree { root, weight: F64 { bits: ONE_BITS } };
                out.push(tree);
                proof {
                    assert(ir::tree_views(out@) =~= before.push(tree@));
                }
            },
        }
        i = i + 1;
    }
    Ok(out)
}

fn parse_trees(node: &GraphNode) -> (r: Result<Vec<Tree>, Failure>)
    ensures
        match r {
            Ok(trees) => trees_of(*node) == Ok::<Seq<TreeView>, FailureView>(
                ir::tree_views(trees@),
            ) && top_class(*node) < i64::MAX,
            Err(e) => trees_of(*node) == Err::<Seq<TreeView>, FailureView>(e@),
        },
{
    let nodes = match parse_nodes(node) {
        Ok(nodes) => nodes,
        Err(e) => {
            return Err(e);
        },
    };
    let targets = Leaves {
        tree_ids: get_ints(node, "target_treeids"),
        node_ids: get_ints(node, "target_nodeids"),
        weights: get_floats(node, "target_weights"),
    };
    let outputs = Leaves {
        tree_ids: get_ints(node, "class_treeids"),
        node_ids: get_ints(node, "class_nodeids"),
        weights: get_floats(node, "class_weights"),
    };
    let regressed = match add_targets(add_nodes(&nodes), &targets) {
        Ok(trees) => trees,
        Err(e) => {
            return Err(e);
        },
    };
    let classes = get_ints(node, "class_ids");
    if find_top_class(&classes) == i64::MAX {
        return Err(Failure::Plain(Problem::ClassIds));
    }
    match add_classes(regressed, &classes, &outputs) {
        Err(e) => Err(e),
        Ok(trees) => build_trees(&trees),
    }
}

fn parse_transform(node: &GraphNode) -> (r: PostTransform)
    requires
        top_class(*node) < i64::MAX,
    ensures
        r == transform_of(*node),
{
    let class_ids = get_ints(node, "class_ids");
    let classes: usize = if class_ids.len() == 0 {
        1
    } else {
        (find_top_class(&class_ids) + 1) as usize
    };
    if attribute_says(node, "post_transform", "LOGISTIC") {
        PostTransform::Logit
    } else if (attribute_says(node, "post_transform", "SOFTMAX") || attribute_says(
        node,
        "post_transform",
        "SOFTMAX_ZERO",
    )) && classes > 2 {
        PostTransform::Softmax { n_classes: classes }
    } else {
        PostTransform::Identity
    }
}

/// The first tree-ensemble operator of a graph.
pub fn find_ensemble<'a>(nodes: &'a Vec<GraphNode>) -> (r: Option<&'a GraphNode>)
    ensures
        match r {
            Some(node) => ensemble_from(nodes@, 0) == Some(*node),
            None => ensemble_from(nodes@, 0) is None,
        },
{
    let mut i: usize = 0;
    while i < nodes.len()
        invariant
            i <= nodes.len(),
            ensemble_from(nodes@, 0) == ensemble_from(nodes@, i as int),
        decreases nodes.len() - i,
    {
        if is_word(&nodes[i].op_type, "TreeEnsembleRegressor") || is_word(
            &nodes[i].op_type,
            "TreeEnsembleClassifier",
        ) {
            return Some(&nodes[i]);
        }
        i = i + 1;
    }
    None
}

impl OnnxFrontend {
    pub fn new() -> (r: Self)
        ensures
            r == OnnxFrontend,
    {
        OnnxFrontend
    }
}

impl Frontend for OnnxFrontend {
    type Input = Model;

    open spec fn parsed(input: Model) -> Result<ForestView, FailureView> {
        forest_of(input)
    }

    /// Reads the forest of the first tree-ensemble operator.
    fn parse(&self, input: &Model) -> (r: Result<Forest, Failure>) {
        let graph = match &input.graph {
            Some(graph) => graph,
            None => {
                return Err(Failure::Plain(Problem::NoGraph));
            },
        };
        let node = match find_ensemble(&graph.node) {
            Some(node) => node,
            None => {
                return Err(Failure::Plain(Problem::NoTreeEnsemble));
            },
        };
        let trees = match parse_trees(node) {
            Ok(trees) => trees,
            Err(e) => {
                return Err(e);
            },
        };
        let aggregation = if attribute_says(node, "aggregate_function", "AVERAGE") {
            AggregationKind::Average
        } else {
            AggregationKind::Sum
        };
        let post_transform = parse_transform(node);
        let bases = get_floats(node, "base_values");
        let base_score = if bases.len() > 0 {
            bases[0].widen()
        } else {
            F64 { bits: 0 }
        };
        let base_scores: Vec<F64> = Vec::new();
        assert(base_scores@ =~= seq![]);
        Ok(
            Forest {
                trees,
                base_score,
                base_scores,
                aggregation,
                post_transform,
                catboost_metadata: None,
            },
        )
    }
}

/// What a tree is does not depend on how many steps it may take.
proof fn lemma_more_steps(builder: BuilderView, id: i64, few: nat, many: nat)
    requires
        builder.node(id, few) is Ok,
        few <= many,
    ensures
        builder.node(id, many) == builder.node(id, few),
    decreases few,
{
    if !builder.leaves.dom().contains(id) && builder.splits.dom().contains(id) && few > 0 {
        let info = builder.splits[id];
        lemma_more_steps(builder, info.true_child, (few - 1) as nat, (many - 1) as nat);
        lemma_more_steps(builder, info.false_child, (few - 1) as nat, (many - 1) as nat);
    }
}

/// Whether a node is the root of a finite tree with more than `size` nodes.
spec fn larger(builder: BuilderView, id: i64, size: nat) -> bool {
    exists|steps: nat|
        (#[trigger] builder.node(id, steps)) matches Ok(tree) && tree.size() > size
}

/// A finite tree is built in as many steps as there are nodes outside a set that it cannot
/// meet.
proof fn lemma_steps_suffice(builder: BuilderView, id: i64, steps: nat, above: Set<i64>)
    requires
        builder.splits.dom().finite(),
        above.subset_of(builder.splits.dom()),
        builder.node(id, steps) is Ok,
        forall|v: i64|
            above.contains(v) ==> larger(builder, v, builder.node(id, steps)->Ok_0.size()),
    ensures
        above.len() <= builder.splits.dom().len(),
        builder.node(id, (builder.splits.dom().len() - above.len()) as nat) == builder.node(
            id,
            steps,
        ),
    decreases steps,
{
    let dom = builder.splits.dom();
    let tree = builder.node(id, steps)->Ok_0;
    vstd::set_lib::lemma_len_subset(above, dom);
    if !builder.leaves.dom().contains(id) {
        let info = builder.splits[id];
        if above.contains(id) {
            let other = choose|other: nat|
                (#[trigger] builder.node(id, other)) matches Ok(t) && t.size() > tree.size();
            if steps <= other {
                lemma_more_steps(builder, id, steps, other);
            } else {
                lemma_more_steps(builder, id, other, steps);
            }
            assert(false);
        }
        let met = above.insert(id);
        assert(met.subset_of(dom));
        vstd::set_lib::lemma_len_subset(met, dom);
        let left = builder.node(info.true_child, (steps - 1) as nat)->Ok_0;
        let right = builder.node(info.false_child, (steps - 1) as nat)->Ok_0;
        assert(tree.size() == 1 + left.size() + right.size());
        assert forall|v: i64| met.contains(v) implies larger(builder, v, left.size()) by {
            if v == id {
                assert(builder.node(id, steps) matches Ok(t) && t.size() > left.size());
            } else {
                let other = choose|other: nat|
                    (#[trigger] builder.node(v, other)) matches Ok(t) && t.size() > tree.size();
                assert(builder.node(v, other) matches Ok(t) && t.size() > left.size());
            }
        }
        assert forall|v: i64| met.contains(v) implies larger(builder, v, right.size()) by {
            if v == id {
                assert(builder.node(id, steps) matches Ok(t) && t.size() > right.size());
            } else {
                let other = choose|other: nat|
                    (#[trigger] builder.node(v, other)) matches Ok(t) && t.size() > tree.size();
                assert(builder.node(v, other) matches Ok(t) && t.size() > right.size());
            }
        }
        lemma_steps_suffice(builder, info.true_child, (steps - 1) as nat, met);
        lemma_steps_suffice(builder, info.false_child, (steps - 1) as nat, met);
    }
}

/// The steps that building a tree may take are no limit: a tree that can be built in any
/// number of them is built.
pub proof fn every_finite_tree_is_built(builder: BuilderView, id: i64, steps: nat)
    requires
        builder.splits.dom().finite(),
        builder.node(id, steps) is Ok,
    ensures
        builder.node(id, builder.splits.len()) == builder.node(id, steps),
{
    lemma_steps_suffice(builder, id, steps, Set::empty());
}

proof fn lemma_numeric(builder: BuilderView, id: i64, fuel: nat)
    ensures
        builder.node(id, fuel) matches Ok(tree) ==> tree.numeric_only() && tree.sound(),
    decreases fuel,
{
    if !builder.leaves.dom().contains(id) && builder.splits.dom().contains(id) && fuel > 0 {
        let info = builder.splits[id];
        lemma_numeric(builder, info.true_child, (fuel - 1) as nat);
        lemma_numeric(builder, info.false_child, (fuel - 1) as nat);
    }
}

proof fn lemma_built(trees: TreesView, from: int, before: Seq<TreeView>)
    requires
        forall|i: int|
            0 <= i < before.len() ==> (#[trigger] before[i]).root.numeric_only()
                && before[i].root.sound(),
    ensures
        built_from(trees, from, before) matches Ok(out) ==> forall|i: int|
            0 <= i < out.len() ==> (#[trigger] out[i]).root.numeric_only() && out[i].root.sound(),
    decreases trees.ids.len() - from,
{
    if 0 <= from < trees.ids.len() {
        let builder = trees.builder(trees.ids[from]);
        lemma_numeric(builder, 0, builder.splits.len());
        if let Ok(root) = builder.node(0, builder.splits.len()) {
            lemma_built(
                trees,
                from + 1,
                before.push(TreeView { root, weight: F64 { bits: ONE_BITS } }),
            );
        }
    }
}

/// A forest read from a model has numeric splits only, so every layout and the interpreter
/// can take it.
pub proof fn parsed_forests_are_numeric(model: Model)
    ensures
        forest_of(model) matches Ok(forest) ==> forest.sound() && forest.catboost_metadata is None
            && forall|i: int|
            0 <= i < forest.trees.len() ==> (#[trigger] forest.trees[i]).root.numeric_only(),
{
    if let Some(graph) = model.graph {
        if let Some(node) = ensemble_from(graph.node@, 0) {
            if let Ok(nodes) = nodes_of(node) {
                let targets = LeavesView {
                    tree_ids: ints(node, "target_treeids"@),
                    node_ids: ints(node, "target_nodeids"@),
                    weights: floats(node, "target_weights"@),
                };
                let outputs = LeavesView {
                    tree_ids: ints(node, "class_treeids"@),
                    node_ids: ints(node, "class_nodeids"@),
                    weights: floats(node, "class_weights"@),
                };
                let start = after_nodes(nodes, nodes.tree_ids.len() as int);
                if let Ok(regressed) = after_targets(start, targets, 0) {
                    if let Ok(trees) = after_classes(
                        regressed,
                        ints(node, "class_ids"@),
                        outputs,
                        0,
                    ) {
                        lemma_built(trees, 0, seq![]);
                    }
                }
            }
        }
    }
}

/// Whether numbers ascend.
pub open spec fn ascending(ids: Seq<i64>) -> bool {
    forall|i: int, j: int| 0 <= i < j < ids.len() ==> ids[i] < ids[j]
}

/// Putting a number among others keeps them in order and adds no other number.
pub proof fn numbers_stay_in_order(ids: Seq<i64>, id: i64)
    requires
        ascending(ids),
    ensures
        ascending(with_id(ids, id)),
        forall|v: i64| #[trigger] with_id(ids, id).contains(v) <==> ids.contains(v) || v == id,
    decreases ids.len(),
{
    if ids.len() == 0 || ids.last() < id {
        let more = ids.push(id);
        assert forall|v: i64| #[trigger] more.contains(v) <==> ids.contains(v) || v == id by {
            if ids.contains(v) {
                let i = choose|i: int| 0 <= i < ids.len() && ids[i] == v;
                assert(more[i] == v);
            }
            if v == id {
                assert(more[ids.len() as int] == v);
            }
        }
        assert forall|i: int, j: int| 0 <= i < j < more.len() implies more[i] < more[j] by {
            if j == ids.len() && i < ids.len() - 1 {
                assert(ids[i] < ids[ids.len() - 1]);
            }
        }
    } else if ids.last() == id {
        assert(ids[ids.len() - 1] == id);
    } else {
        let rest = ids.drop_last();
        let last = ids.last();
        numbers_stay_in_order(rest, id);
        let inner = with_id(rest, id);
        let more = inner.push(last);
        assert forall|v: i64| inner.contains(v) implies v < last by {
            if rest.contains(v) {
                let i = choose|i: int| 0 <= i < rest.len() && rest[i] == v;
                assert(ids[i] < ids[ids.len() - 1]);
            }
        }
        assert forall|i: int, j: int| 0 <= i < j < more.len() implies more[i] < more[j] by {
            if j == inner.len() {
                assert(inner.contains(inner[i]));
            }
        }
        assert forall|v: i64| #[trigger] more.contains(v) <==> ids.contains(v) || v == id by {
            if more.contains(v) {
                let i = choose|i: int| 0 <= i < more.len() && more[i] == v;
                if i < inner.len() {
                    assert(inner.contains(v));
                    if rest.contains(v) {
                        let j = choose|j: int| 0 <= j < rest.len() && rest[j] == v;
                        assert(ids[j] == v);
                    }
                } else {
                    assert(ids[ids.len() - 1] == v);
                }
            }
            if ids.contains(v) || v == id {
                if v == last {
                    assert(more[inner.len() as int] == v);
                } else {
                    if ids.contains(v) {
                        let j = choose|j: int| 0 <= j < ids.len() && ids[j] == v;
                        assert(rest[j] == v);
                    }
                    assert(inner.contains(v));
                    let i = choose|i: int| 0 <= i < inner.len() && inner[i] == v;
                    assert(more[i] == v);
                }
            }
        }
    }
}

/// The last of the first `n` places at which two lists hold a tree and a node.
pub open spec fn last_place(
    trees: Seq<i64>,
    nodes: Seq<i64>,
    tree: i64,
    node: i64,
    n: int,
) -> Option<int>
    decreases n,
{
    if n <= 0 {
        None
    } else if trees[n - 1] == tree && nodes[n - 1] == node {
        Some(n - 1)
    } else {
        last_place(trees, nodes, tree, node, n - 1)
    }
}

/// Whether the entry of a class is the one that a tree's leaf has its value from: the only
/// class, the second of two, or of more the one that the tree's number gives.
pub open spec fn chosen_class(class: i64, top: int, tree: i64) -> bool {
    if top == 1 {
        class == 1
    } else if top == 0 || top == -1 {
        class == 0
    } else if top >= 2 && tree >= 0 {
        class == tree as int % (top + 1)
    } else if top >= 2 {
        class == -((-tree) % (top + 1))
    } else {
        false
    }
}

/// The last of the first `n` places at which a classifier's lists hold a tree and a node, with
/// the class that counts for the tree.
pub open spec fn last_class_place(
    classes: Seq<i64>,
    leaves: LeavesView,
    top: int,
    tree: i64,
    node: i64,
    n: int,
) -> Option<int>
    decreases n,
{
    if n <= 0 {
        None
    } else if leaves.tree_ids[n - 1] == tree && leaves.node_ids[n - 1] == node && chosen_class(
        classes[n - 1],
        top,
        tree,
    ) {
        Some(n - 1)
    } else {
        last_class_place(classes, leaves, top, tree, node, n - 1)
    }
}

/// The value of a node that is a leaf: the weight of the last entry for the node.
pub open spec fn leaf_value(node: GraphNode, tree: i64, id: i64) -> Option<F64> {
    let targets = LeavesView {
        tree_ids: ints(node, "target_treeids"@),
        node_ids: ints(node, "target_nodeids"@),
        weights: floats(node, "target_weights"@),
    };
    let outputs = LeavesView {
        tree_ids: ints(node, "class_treeids"@),
        node_ids: ints(node, "class_nodeids"@),
        weights: floats(node, "class_weights"@),
    };
    let classes = ints(node, "class_ids"@);
    let n = classes.len() as int;
    match last_class_place(classes, outputs, greatest_class(classes, n), tree, id, n) {
        Some(i) => Some(outputs.weights[i].widened()),
        None => match last_place(
            targets.tree_ids,
            targets.node_ids,
            tree,
            id,
            targets.tree_ids.len() as int,
        ) {
            Some(i) => Some(targets.weights[i].widened()),
            None => None,
        },
    }
}

/// Whether a value goes to the true child of entry `i` of the node lists. Missing values do if
/// the entry says so; others if they stand to the entry's value as its mode says.
pub open spec fn holds(nodes: NodesView, i: int, value: F32) -> bool {
    let mode = nodes.modes[i];
    let other = nodes.values[i];
    if value.nan() {
        i < nodes.tracks_true.len() && nodes.tracks_true[i] != 0
    } else if spells(mode, "BRANCH_LT"@) {
        value.less(other)
    } else if spells(mode, "BRANCH_GT"@) {
        other.less(value)
    } else if spells(mode, "BRANCH_GEQ"@) {
        other.at_most(value)
    } else if spells(mode, "BRANCH_EQ"@) {
        value.same(other)
    } else if spells(mode, "BRANCH_NEQ"@) {
        !value.same(other)
    } else {
        value.at_most(other)
    }
}

/// Where an operator's lists lead a row in a tree from a node on: to the value of a leaf, or to
/// the child that the last entry for the node selects. Nothing if the row has no such feature,
/// or if it takes more than `steps` steps.
pub open spec fn walk(
    node: GraphNode,
    nodes: NodesView,
    tree: i64,
    id: i64,
    row: Seq<F32>,
    steps: nat,
) -> Option<F64>
    decreases steps,
{
    match leaf_value(node, tree, id) {
        Some(value) => Some(value),
        None => match last_place(
            nodes.tree_ids,
            nodes.node_ids,
            tree,
            id,
            nodes.tree_ids.len() as int,
        ) {
            None => None,
            Some(i) => {
                let feature = nodes.feature_ids[i];
                if steps == 0 || !(0 <= feature < row.len()) {
                    None
                } else {
                    let next = if holds(nodes, i, row[feature as int]) {
                        nodes.true_ids[i]
                    } else {
                        nodes.false_ids[i]
                    };
                    walk(node, nodes, tree, next, row, (steps - 1) as nat)
                }
            },
        },
    }
}

proof fn lemma_last_place(trees: Seq<i64>, nodes: Seq<i64>, tree: i64, node: i64, n: int)
    requires
        0 <= n,
    ensures
        last_place(trees, nodes, tree, node, n) matches Some(i) ==> 0 <= i < n && trees[i] == tree
            && nodes[i] == node,
    decreases n,
{
    if n > 0 {
        lemma_last_place(trees, nodes, tree, node, n - 1);
    }
}

/// What is known of the trees after the first `n` nodes.
spec fn nodes_known(nodes: NodesView, trees: TreesView, n: int) -> bool {
    forall|tree: i64, id: i64|
        #![trigger last_place(nodes.tree_ids, nodes.node_ids, tree, id, n)]
        {
            let found = last_place(nodes.tree_ids, nodes.node_ids, tree, id, n);
            let splits = trees.builder(tree).splits;
            &&& splits.dom().contains(id) <==> found is Some
            &&& found matches Some(i) ==> splits[id] == nodes.info(i)
        }
}

proof fn lemma_nodes_known(nodes: NodesView, n: int)
    requires
        0 <= n,
    ensures
        nodes_known(nodes, after_nodes(nodes, n), n),
        forall|tree: i64| #[trigger] after_nodes(nodes, n).builder(tree).leaves == Map::<
            i64,
            F64,
        >::empty(),
        ascending(after_nodes(nodes, n).ids),
        forall|tree: i64| #[trigger]
            after_nodes(nodes, n).ids.contains(tree) <==> exists|i: int|
                0 <= i < n && #[trigger] nodes.tree_ids[i] == tree,
    decreases n,
{
    if n > 0 {
        lemma_nodes_known(nodes, n - 1);
        let before = after_nodes(nodes, n - 1);
        let after = after_nodes(nodes, n);
        let t = nodes.tree_ids[n - 1];
        numbers_stay_in_order(before.ids, t);
        assert forall|tree: i64, id: i64|
            #![trigger last_place(nodes.tree_ids, nodes.node_ids, tree, id, n)]
            ({
                let found = last_place(nodes.tree_ids, nodes.node_ids, tree, id, n);
                let splits = after.builder(tree).splits;
                &&& splits.dom().contains(id) <==> found is Some
                &&& found matches Some(i) ==> splits[id] == nodes.info(i)
            }) by {
            let earlier = last_place(nodes.tree_ids, nodes.node_ids, tree, id, n - 1);
            if tree != t {
                assert(after.builder(tree) == before.builder(tree));
            }
        }
        assert forall|tree: i64| #[trigger] after.builder(tree).leaves == Map::<
            i64,
            F64,
        >::empty() by {
            assert(before.builder(tree).leaves == Map::<i64, F64>::empty());
            if tree != t {
                assert(after.builder(tree) == before.builder(tree));
            }
        }
        assert forall|tree: i64| #[trigger] after.ids.contains(tree) <==> exists|i: int|
            0 <= i < n && #[trigger] nodes.tree_ids[i] == tree by {
            assert(after.ids.contains(tree) <==> before.ids.contains(tree) || tree == t);
            if exists|i: int| 0 <= i < n && #[trigger] nodes.tree_ids[i] == tree {
                let i = choose|i: int| 0 <= i < n && #[trigger] nodes.tree_ids[i] == tree;
                if i < n - 1 {
                    assert(before.ids.contains(tree));
                }
            }
            if tree == t {
                assert(nodes.tree_ids[n - 1] == tree);
            }
        }
    } else {
        assert(ascending(Seq::<i64>::empty()));
    }
}

/// The value of a leaf, given the first `n` entries of a regressor and `k` of a classifier.
spec fn value_so_far(
    targets: LeavesView,
    n: int,
    classes: Seq<i64>,
    outputs: LeavesView,
    k: int,
    tree: i64,
    id: i64,
) -> Option<F64> {
    let top = greatest_class(classes, classes.len() as int);
    match last_class_place(classes, outputs, top, tree, id, k) {
        Some(i) => Some(outputs.weights[i].widened()),
        None => match last_place(targets.tree_ids, targets.node_ids, tree, id, n) {
            Some(i) => Some(targets.weights[i].widened()),
            None => None,
        },
    }
}

/// What is known of the leaves after so many entries.
spec fn leaves_known(
    trees: TreesView,
    targets: LeavesView,
    n: int,
    classes: Seq<i64>,
    outputs: LeavesView,
    k: int,
) -> bool {
    forall|tree: i64, id: i64|
        #![trigger value_so_far(targets, n, classes, outputs, k, tree, id)]
        {
            let found = value_so_far(targets, n, classes, outputs, k, tree, id);
            let leaves = trees.builder(tree).leaves;
            &&& leaves.dom().contains(id) <==> found is Some
            &&& found matches Some(value) ==> leaves[id] == value
        }
}

/// Whether two states of the trees have the same nodes.
spec fn same_splits(a: TreesView, b: TreesView) -> bool {
    forall|tree: i64| #[trigger] a.builder(tree).splits == b.builder(tree).splits
}

proof fn lemma_targets_known(
    trees: TreesView,
    targets: LeavesView,
    classes: Seq<i64>,
    outputs: LeavesView,
    from: int,
)
    requires
        0 <= from <= targets.tree_ids.len(),
        leaves_known(trees, targets, from, classes, outputs, 0),
        ascending(trees.ids),
    ensures
        after_targets(trees, targets, from) matches Ok(after) ==> {
            &&& leaves_known(after, targets, targets.tree_ids.len() as int, classes, outputs, 0)
            &&& same_splits(after, trees)
            &&& ascending(after.ids)
            &&& forall|tree: i64| trees.ids.contains(tree) ==> #[trigger] after.ids.contains(tree)
        },
    decreases targets.tree_ids.len() - from,
{
    if from < targets.tree_ids.len() && targets.has(from) {
        let t = targets.tree_ids[from];
        let next = trees.with_leaf(t, targets.node_ids[from], targets.weights[from].widened());
        numbers_stay_in_order(trees.ids, t);
        assert forall|tree: i64, id: i64|
            #![trigger value_so_far(targets, from + 1, classes, outputs, 0, tree, id)]
            ({
                let found = value_so_far(targets, from + 1, classes, outputs, 0, tree, id);
                let leaves = next.builder(tree).leaves;
                &&& leaves.dom().contains(id) <==> found is Some
                &&& found matches Some(value) ==> leaves[id] == value
            }) by {
            let earlier = value_so_far(targets, from, classes, outputs, 0, tree, id);
            if tree != t {
                assert(next.builder(tree) == trees.builder(tree));
            }
        }
        assert(same_splits(next, trees)) by {
            assert forall|tree: i64| #[trigger] next.builder(tree).splits == trees.builder(
                tree,
            ).splits by {
                if tree != t {
                    assert(next.builder(tree) == trees.builder(tree));
                }
            }
        }
        lemma_targets_known(next, targets, classes, outputs, from + 1);
        if let Ok(after) = after_targets(trees, targets, from) {
            assert forall|tree: i64| #[trigger] after.builder(tree).splits == trees.builder(
                tree,
            ).splits by {
                assert(next.builder(tree).splits == trees.builder(tree).splits);
            }
            assert forall|tree: i64| trees.ids.contains(tree) implies #[trigger] after.ids.contains(
                tree,
            ) by {
                assert(next.ids.contains(tree));
            }
        }
    }
}

proof fn lemma_chosen(class: i64, top: int, tree: i64)
    requires
        -1 <= top,
    ensures
        counts(class, top, tree) == chosen_class(class, top, tree),
{
}

proof fn lemma_classes_known(
    trees: TreesView,
    targets: LeavesView,
    classes: Seq<i64>,
    outputs: LeavesView,
    from: int,
)
    requires
        0 <= from <= classes.len(),
        greatest_class(classes, classes.len() as int) >= -1,
        outputs.tree_ids.len() >= classes.len(),
        leaves_known(
            trees,
            targets,
            targets.tree_ids.len() as int,
            classes,
            outputs,
            from,
        ),
        ascending(trees.ids),
    ensures
        after_classes(trees, classes, outputs, from) matches Ok(after) ==> {
            &&& leaves_known(
                after,
                targets,
                targets.tree_ids.len() as int,
                classes,
                outputs,
                classes.len() as int,
            )
            &&& same_splits(after, trees)
            &&& ascending(after.ids)
            &&& forall|tree: i64| trees.ids.contains(tree) ==> #[trigger] after.ids.contains(tree)
        },
    decreases classes.len() - from,
{
    let top = greatest_class(classes, classes.len() as int);
    let n = targets.tree_ids.len() as int;
    if from < classes.len() {
        let t = outputs.tree_ids[from];
        lemma_chosen(classes[from], top, t);
        let taken = counts(classes[from], top, t);
        let next = if taken {
            trees.with_leaf(t, outputs.node_ids[from], outputs.weights[from].widened())
        } else {
            trees
        };
        numbers_stay_in_order(trees.ids, t);
        assert forall|tree: i64, id: i64|
            #![trigger value_so_far(targets, n, classes, outputs, from + 1, tree, id)]
            ({
                let found = value_so_far(targets, n, classes, outputs, from + 1, tree, id);
                let leaves = next.builder(tree).leaves;
                &&& leaves.dom().contains(id) <==> found is Some
                &&& found matches Some(value) ==> leaves[id] == value
            }) by {
            let earlier = value_so_far(targets, n, classes, outputs, from, tree, id);
            if tree != t || !taken {
                assert(next.builder(tree) == trees.builder(tree));
            }
        }
        assert(same_splits(next, trees)) by {
            assert forall|tree: i64| #[trigger] next.builder(tree).splits == trees.builder(
                tree,
            ).splits by {
                if tree != t || !taken {
                    assert(next.builder(tree) == trees.builder(tree));
                }
            }
        }
        lemma_classes_known(next, targets, classes, outputs, from + 1);
        if let Ok(after) = after_classes(trees, classes, outputs, from) {
            assert forall|tree: i64| #[trigger] after.builder(tree).splits == trees.builder(
                tree,
            ).splits by {
                assert(next.builder(tree).splits == trees.builder(tree).splits);
            }
            assert forall|tree: i64| trees.ids.contains(tree) implies #[trigger] after.ids.contains(
                tree,
            ) by {
                assert(next.ids.contains(tree));
            }
        }
    }
}

proof fn lemma_walk(
    node: GraphNode,
    nodes: NodesView,
    trees: TreesView,
    tree: i64,
    id: i64,
    row: Seq<F32>,
    fuel: nat,
)
    requires
        nodes.aligned(),
        nodes_known(nodes, trees, nodes.tree_ids.len() as int),
        forall|i: int|
            0 <= i < nodes.feature_ids.len() ==> 0 <= #[trigger] nodes.feature_ids[i]
                <= usize::MAX,
        forall|tree: i64, id: i64|
            #![trigger leaf_value(node, tree, id)]
            {
                let leaves = trees.builder(tree).leaves;
                &&& leaves.dom().contains(id) <==> leaf_value(node, tree, id) is Some
                &&& leaf_value(node, tree, id) matches Some(value) ==> leaves[id] == value
            },
        trees.builder(tree).node(id, fuel) is Ok,
    ensures
        trees.builder(tree).node(id, fuel)->Ok_0.value(row).ok() == walk(
            node,
            nodes,
            tree,
            id,
            row,
            fuel,
        ),
    decreases fuel,
{
    let builder = trees.builder(tree);
    let n = nodes.tree_ids.len() as int;
    let found = leaf_value(node, tree, id);
    if found is None {
        let place = last_place(nodes.tree_ids, nodes.node_ids, tree, id, n);
        lemma_last_place(nodes.tree_ids, nodes.node_ids, tree, id, n);
        let i = place->0;
        assert(builder.splits[id] == nodes.info(i));
        assert(0 <= nodes.feature_ids[i] <= usize::MAX);
        let info = nodes.info(i);
        lemma_walk(node, nodes, trees, tree, info.true_child, row, (fuel - 1) as nat);
        lemma_walk(node, nodes, trees, tree, info.false_child, row, (fuel - 1) as nat);
        assert(info.mode is Branch);
    }
}

proof fn lemma_built_in_order(trees: TreesView, from: int, before: Seq<TreeView>)
    requires
        0 <= from <= trees.ids.len(),
    ensures
        built_from(trees, from, before) matches Ok(out) ==> {
            &&& out.len() == before.len() + trees.ids.len() - from
            &&& forall|i: int| 0 <= i < before.len() ==> out[i] == #[trigger] before[i]
            &&& forall|i: int|
                from <= i < trees.ids.len() ==> {
                    let builder = trees.builder(#[trigger] trees.ids[i]);
                    let tree = out[before.len() + i - from];
                    &&& builder.node(0, builder.splits.len()) == Ok::<NodeView, FailureView>(
                        tree.root,
                    )
                    &&& tree.weight.bits == 0x3ff0_0000_0000_0000
                }
        },
    decreases trees.ids.len() - from,
{
    if from < trees.ids.len() {
        let builder = trees.builder(trees.ids[from]);
        if let Ok(root) = builder.node(0, builder.splits.len()) {
            let longer = before.push(TreeView { root, weight: F64 { bits: ONE_BITS } });
            lemma_built_in_order(trees, from + 1, longer);
            if let Ok(out) = built_from(trees, from, before) {
                assert forall|i: int| 0 <= i < before.len() implies out[i]
                    == #[trigger] before[i] by {
                    assert(longer[i] == before[i]);
                }
                assert(out[before.len() as int] == longer[before.len() as int]);
                assert forall|i: int| from <= i < trees.ids.len() implies {
                    let b = trees.builder(#[trigger] trees.ids[i]);
                    let tree = out[before.len() + i - from];
                    &&& b.node(0, b.splits.len()) == Ok::<NodeView, FailureView>(tree.root)
                    &&& tree.weight.bits == 0x3ff0_0000_0000_0000
                } by {
                    if i > from {
                        assert(out[longer.len() + i - (from + 1)] == out[before.len() + i - from]);
                    }
                }
            }
        }
    }
}

/// An operator's trees come in the order of their numbers, `ids`, and count once each. Every one
/// leads every row where the operator's lists lead it from node zero on, in at most `steps`
/// steps. No number of the node lists is left out.
pub proof fn trees_decide_as_their_lists(node: GraphNode, row: Seq<F32>) -> (out: (
    Seq<i64>,
    Seq<nat>,
))
    requires
        trees_of(node) is Ok,
        forall|i: int|
            0 <= i < ints(node, "nodes_featureids"@).len() ==> 0 <= #[trigger] ints(
                node,
                "nodes_featureids"@,
            )[i] <= usize::MAX,
        top_class(node) >= -1,
        ints(node, "class_treeids"@).len() >= ints(node, "class_ids"@).len(),
    ensures
        ({
            let (ids, steps) = out;
            let trees = trees_of(node)->Ok_0;
            let nodes = nodes_of(node)->Ok_0;
            &&& nodes_of(node) is Ok
            &&& ids.len() == trees.len()
            &&& steps.len() == trees.len()
            &&& forall|i: int, j: int| 0 <= i < j < ids.len() ==> ids[i] < ids[j]
            &&& forall|i: int|
                0 <= i < nodes.tree_ids.len() ==> ids.contains(#[trigger] nodes.tree_ids[i])
            &&& forall|i: int|
                0 <= i < trees.len() ==> (#[trigger] trees[i]).weight.bits == 0x3ff0_0000_0000_0000
                    && trees[i].root.value(row).ok() == walk(node, nodes, ids[i], 0, row, steps[i])
        }),
{
    let nodes = nodes_of(node)->Ok_0;
    let n = nodes.tree_ids.len() as int;
    let targets = LeavesView {
        tree_ids: ints(node, "target_treeids"@),
        node_ids: ints(node, "target_nodeids"@),
        weights: floats(node, "target_weights"@),
    };
    let outputs = LeavesView {
        tree_ids: ints(node, "class_treeids"@),
        node_ids: ints(node, "class_nodeids"@),
        weights: floats(node, "class_weights"@),
    };
    let classes = ints(node, "class_ids"@);
    let start = after_nodes(nodes, n);
    lemma_nodes_known(nodes, n);
    assert(leaves_known(start, targets, 0, classes, outputs, 0)) by {
        assert forall|tree: i64, id: i64|
            #![trigger value_so_far(targets, 0, classes, outputs, 0, tree, id)]
            ({
                let found = value_so_far(targets, 0, classes, outputs, 0, tree, id);
                let leaves = start.builder(tree).leaves;
                &&& leaves.dom().contains(id) <==> found is Some
                &&& found matches Some(value) ==> leaves[id] == value
            }) by {
            assert(start.builder(tree).leaves == Map::<i64, F64>::empty());
        }
    }
    lemma_targets_known(start, targets, classes, outputs, 0);
    let regressed = after_targets(start, targets, 0)->Ok_0;
    lemma_classes_known(regressed, targets, classes, outputs, 0);
    let all = after_classes(regressed, classes, outputs, 0)->Ok_0;
    lemma_built_in_order(all, 0, seq![]);
    let trees = trees_of(node)->Ok_0;
    let steps = Seq::new(trees.len(), |i: int| all.builder(all.ids[i]).splits.len());
    assert(nodes_known(nodes, all, n)) by {
        assert forall|tree: i64, id: i64|
            #![trigger last_place(nodes.tree_ids, nodes.node_ids, tree, id, n)]
            ({
                let found = last_place(nodes.tree_ids, nodes.node_ids, tree, id, n);
                let splits = all.builder(tree).splits;
                &&& splits.dom().contains(id) <==> found is Some
                &&& found matches Some(i) ==> splits[id] == nodes.info(i)
            }) by {
            assert(all.builder(tree).splits == regressed.builder(tree).splits);
            assert(regressed.builder(tree).splits == start.builder(tree).splits);
        }
    }
    assert forall|tree: i64, id: i64|
        #![trigger leaf_value(node, tree, id)]
        ({
            let leaves = all.builder(tree).leaves;
            &&& leaves.dom().contains(id) <==> leaf_value(node, tree, id) is Some
            &&& leaf_value(node, tree, id) matches Some(value) ==> leaves[id] == value
        }) by {
        let found = value_so_far(
            targets,
            targets.tree_ids.len() as int,
            classes,
            outputs,
            classes.len() as int,
            tree,
            id,
        );
        assert(found == leaf_value(node, tree, id));
    }
    assert(nodes.feature_ids == ints(node, "nodes_featureids"@));
    assert forall|i: int| 0 <= i < trees.len() implies (#[trigger] trees[i]).weight.bits
        == 0x3ff0_0000_0000_0000 && trees[i].root.value(row).ok() == walk(
        node,
        nodes,
        all.ids[i],
        0,
        row,
        steps[i],
    ) by {
        let id = all.ids[i];
        let builder = all.builder(id);
        assert(trees[0 + i - 0] == trees[i]);
        assert(builder.node(0, builder.splits.len()) == Ok::<NodeView, FailureView>(
            trees[i].root,
        ));
        lemma_walk(node, nodes, all, id, 0, row, builder.splits.len());
    }
    assert forall|i: int| 0 <= i < n implies all.ids.contains(#[trigger] nodes.tree_ids[i]) by {
        assert(start.ids.contains(nodes.tree_ids[i]));
        assert(regressed.ids.contains(nodes.tree_ids[i]));
    }
    (all.ids, steps)
}

/// What an operator says of the forest as a whole: the first of its base values starts every
/// score, an average is taken if it asks for one, and of several classes softmax needs three.
pub proof fn operators_say_how_scores_are_used(model: Model)
    requires
        forest_of(model) is Ok,
    ensures
        ({
            let forest = forest_of(model)->Ok_0;
            let found = ensemble_from(model.graph->0.node@, 0);
            let node = found->0;
            let bases = floats(node, "base_values"@);
            let classes = ints(node, "class_ids"@);
            &&& model.graph is Some
            &&& found is Some
            &&& trees_of(node) == Ok::<Seq<TreeView>, FailureView>(forest.trees)
            &&& bases.len() > 0 ==> forest.base_score == bases[0].widened()
            &&& bases.len() == 0 ==> forest.base_score.bits == 0
            &&& forest.base_scores.len() == 0
            &&& forest.aggregation == AggregationKind::Average <==> says(
                node,
                "aggregate_function"@,
                "AVERAGE"@,
            )
            &&& forest.post_transform == PostTransform::Logit <==> says(
                node,
                "post_transform"@,
                "LOGISTIC"@,
            )
            &&& forest.post_transform matches PostTransform::Softmax { n_classes } ==> (says(
                node,
                "post_transform"@,
                "SOFTMAX"@,
            ) || says(node, "post_transform"@, "SOFTMAX_ZERO"@)) && n_classes > 2 && n_classes
                == (top_class(node) + 1) as usize
            &&& (says(node, "post_transform"@, "SOFTMAX"@) || says(
                node,
                "post_transform"@,
                "SOFTMAX_ZERO"@,
            )) && classes.len() > 0 && 2 <= top_class(node) < usize::MAX && !says(
                node,
                "post_transform"@,
                "LOGISTIC"@,
            ) ==> forest.post_transform is Softmax
            &&& forest.post_transform != PostTransform::Log
        }),
{
}

proof fn lemma_greatest(ids: Seq<i64>, n: int)
    requires
        0 <= n <= ids.len(),
    ensures
        forall|i: int| 0 <= i < n ==> #[trigger] ids[i] <= greatest_class(ids, n),
        n > 0 ==> exists|i: int| 0 <= i < n && #[trigger] ids[i] == greatest_class(ids, n),
    decreases n,
{
    if n > 0 {
        lemma_greatest(ids, n - 1);
        if n > 1 && ids[n - 1] <= greatest_class(ids, n - 1) {
            let i = choose|i: int| 0 <= i < n - 1 && #[trigger] ids[i] == greatest_class(ids, n - 1);
            assert(ids[i] == greatest_class(ids, n));
        } else {
            assert(ids[n - 1] == greatest_class(ids, n));
        }
    }
}

/// The greatest class number is one of them, and none exceeds it.
pub proof fn top_class_is_the_greatest(node: GraphNode)
    ensures
        ({
            let classes = ints(node, "class_ids"@);
            &&& forall|i: int| 0 <= i < classes.len() ==> #[trigger] classes[i] <= top_class(node)
            &&& classes.len() > 0 ==> exists|i: int|
                0 <= i < classes.len() && #[trigger] classes[i] == top_class(node)
        }),
{
    let classes = ints(node, "class_ids"@);
    lemma_greatest(classes, classes.len() as int);
}

proof fn lemma_attribute_from(attributes: Seq<Attribute>, name: Seq<char>, from: int)
    requires
        0 <= from <= attributes.len(),
    ensures
        match attribute_from(attributes, name, from) {
            Some(a) => exists|k: int|
                from <= k < attributes.len() && (#[trigger] attributes[k])@ == a && a.name == Some(
                    name,
                ) && forall|j: int|
                    from <= j < k ==> (#[trigger] attributes[j])@.name != Some(name),
            None => forall|k: int|
                from <= k < attributes.len() ==> (#[trigger] attributes[k])@.name != Some(name),
        },
    decreases attributes.len() - from,
{
    if from < attributes.len() {
        if attributes[from]@.name == Some(name) {
            assert(attributes[from]@ == attributes[from]@);
        } else {
            lemma_attribute_from(attributes, name, from + 1);
            if let Some(a) = attribute_from(attributes, name, from + 1) {
                let k = choose|k: int|
                    from + 1 <= k < attributes.len() && (#[trigger] attributes[k])@ == a && a.name
                        == Some(name) && forall|j: int|
                        from + 1 <= j < k ==> (#[trigger] attributes[j])@.name != Some(name);
                assert(attributes[k]@ == a);
            }
        }
    }
}

/// The numbers of an attribute are those of the first attribute that has its name.
pub proof fn attributes_are_found_by_name(node: GraphNode, name: Seq<char>)
    ensures
        (exists|k: int|
            0 <= k < node.attribute@.len() && (#[trigger] node.attribute@[k])@.name == Some(name)
                && ints(node, name) == node.attribute@[k]@.ints && floats(node, name)
                == node.attribute@[k]@.floats && forall|j: int|
                0 <= j < k ==> (#[trigger] node.attribute@[j])@.name != Some(name)) || ((forall|
            k: int,
        |
            0 <= k < node.attribute@.len() ==> (#[trigger] node.attribute@[k])@.name != Some(name))
            && ints(node, name).len() == 0 && floats(node, name).len() == 0),
{
    lemma_attribute_from(node.attribute@, name, 0);
    if let Some(a) = attribute_from(node.attribute@, name, 0) {
        let k = choose|k: int|
            0 <= k < node.attribute@.len() && (#[trigger] node.attribute@[k])@ == a && a.name
                == Some(name) && forall|j: int|
                0 <= j < k ==> (#[trigger] node.attribute@[j])@.name != Some(name);
        assert(node.attribute@[k]@.name == Some(name));
    }
}

proof fn lemma_ensemble_from(nodes: Seq<GraphNode>, from: int)
    requires
        0 <= from <= nodes.len(),
    ensures
        match ensemble_from(nodes, from) {
            Some(node) => exists|k: int|
                from <= k < nodes.len() && #[trigger] nodes[k] == node && is_ensemble(node)
                    && forall|j: int| from <= j < k ==> !is_ensemble(#[trigger] nodes[j]),
            None => forall|k: int| from <= k < nodes.len() ==> !is_ensemble(#[trigger] nodes[k]),
        },
    decreases nodes.len() - from,
{
    if from < nodes.len() {
        if is_ensemble(nodes[from]) {
            assert(nodes[from] == nodes[from]);
        } else {
            lemma_ensemble_from(nodes, from + 1);
            if let Some(node) = ensemble_from(nodes, from + 1) {
                let k = choose|k: int|
                    from + 1 <= k < nodes.len() && #[trigger] nodes[k] == node && is_ensemble(node)
                        && forall|j: int| from + 1 <= j < k ==> !is_ensemble(#[trigger] nodes[j]);
                assert(nodes[k] == node);
            }
        }
    }
}

/// A model is read by its first operator that is an ensemble of trees, and is read exactly if it
/// has one whose trees are all built.
pub proof fn first_ensembles_are_read(model: Model)
    ensures
        match model.graph {
            None => forest_of(model) is Err,
            Some(graph) => forest_of(model) is Ok <==> exists|k: int|
                0 <= k < graph.node@.len() && is_ensemble(#[trigger] graph.node@[k]) && trees_of(
                    graph.node@[k],
                ) is Ok && forall|j: int|
                    0 <= j < k ==> !is_ensemble(#[trigger] graph.node@[j]),
        },
        model.graph matches Some(graph) ==> (forest_of(model) matches Ok(forest) ==> exists|k: int|
            0 <= k < graph.node@.len() && is_ensemble(#[trigger] graph.node@[k]) && trees_of(
                graph.node@[k],
            ) == Ok::<Seq<TreeView>, FailureView>(forest.trees) && forall|j: int|
                0 <= j < k ==> !is_ensemble(#[trigger] graph.node@[j])),
{
    if let Some(graph) = model.graph {
        lemma_ensemble_from(graph.node@, 0);
        if let Some(node) = ensemble_from(graph.node@, 0) {
            let k = choose|k: int|
                0 <= k < graph.node@.len() && #[trigger] graph.node@[k] == node && is_ensemble(node)
                    && forall|j: int| 0 <= j < k ==> !is_ensemble(#[trigger] graph.node@[j]);
            assert(is_ensemble(graph.node@[k]));
            assert forall|i: int|
                0 <= i < graph.node@.len() && is_ensemble(#[trigger] graph.node@[i]) && (forall|
                    j: int,
                |
                    0 <= j < i ==> !is_ensemble(#[trigger] graph.node@[j])) implies i == k by {
                if i < k {
                    assert(!is_ensemble(graph.node@[i]));
                } else if k < i {
                    assert(!is_ensemble(graph.node@[k]));
                }
            }
        }
    }
}

/// Which nodes are read: those of an operator that has all seven lists, as long as each other,
/// and no test on categories.
pub proof fn complete_nodes_are_read(node: GraphNode)
    ensures
        ({
            let n = ints(node, "nodes_treeids"@).len();
            nodes_of(node) is Ok <==> {
                &&& attribute(node, "nodes_treeids"@) is Some
                &&& attribute(node, "nodes_nodeids"@) matches Some(a) && a.ints.len() == n
                &&& attribute(node, "nodes_featureids"@) matches Some(a) && a.ints.len() == n
                &&& attribute(node, "nodes_values"@) matches Some(a) && a.floats.len() == n
                &&& attribute(node, "nodes_modes"@) matches Some(a) && a.strings.len() == n
                &&& attribute(node, "nodes_truenodeids"@) matches Some(a) && a.ints.len() == n
                &&& attribute(node, "nodes_falsenodeids"@) matches Some(a) && a.ints.len() == n
                &&& attribute(node, "nodes_categorical_attributes"@) matches Some(a)
                    ==> a.strings.len() == 0
            }
        }),
{
}

proof fn lemma_targets_read(trees: TreesView, leaves: LeavesView, from: int)
    requires
        0 <= from <= leaves.tree_ids.len(),
    ensures
        after_targets(trees, leaves, from) is Ok <==> from == leaves.tree_ids.len() || (
        leaves.node_ids.len() >= leaves.tree_ids.len() && leaves.weights.len()
            >= leaves.tree_ids.len()),
    decreases leaves.tree_ids.len() - from,
{
    if from < leaves.tree_ids.len() && leaves.has(from) {
        let next = trees.with_leaf(
            leaves.tree_ids[from],
            leaves.node_ids[from],
            leaves.weights[from].widened(),
        );
        lemma_targets_read(next, leaves, from + 1);
    }
}

proof fn lemma_classes_read(trees: TreesView, classes: Seq<i64>, leaves: LeavesView, from: int)
    requires
        0 <= from <= classes.len(),
        leaves.tree_ids.len() >= classes.len(),
        leaves.node_ids.len() >= classes.len(),
        leaves.weights.len() >= classes.len(),
    ensures
        after_classes(trees, classes, leaves, from) is Ok,
    decreases classes.len() - from,
{
    if from < classes.len() {
        let next = trees.with_leaf(
            leaves.tree_ids[from],
            leaves.node_ids[from],
            leaves.weights[from].widened(),
        );
        lemma_classes_read(trees, classes, leaves, from + 1);
        lemma_classes_read(next, classes, leaves, from + 1);
    }
}

proof fn lemma_all_built(trees: TreesView, from: int, before: Seq<TreeView>)
    requires
        0 <= from <= trees.ids.len(),
    ensures
        built_from(trees, from, before) is Ok <==> forall|i: int|
            from <= i < trees.ids.len() ==> trees.builder(#[trigger] trees.ids[i]).node(
                0,
                trees.builder(trees.ids[i]).splits.len(),
            ) is Ok,
    decreases trees.ids.len() - from,
{
    if from < trees.ids.len() {
        let builder = trees.builder(trees.ids[from]);
        if let Ok(root) = builder.node(0, builder.splits.len()) {
            lemma_all_built(
                trees,
                from + 1,
                before.push(TreeView { root, weight: F64 { bits: ONE_BITS } }),
            );
        }
    }
}

/// Whether every way down a tree from a node on comes, over entries of the lists that are no
/// leaves, to a node with a leaf value within so many steps.
pub open spec fn leads_to_leaves(
    node: GraphNode,
    nodes: NodesView,
    tree: i64,
    id: i64,
    steps: nat,
) -> bool
    decreases steps,
{
    leaf_value(node, tree, id) is Some || (last_place(
        nodes.tree_ids,
        nodes.node_ids,
        tree,
        id,
        nodes.tree_ids.len() as int,
    ) matches Some(i) && steps > 0 && !spells(nodes.modes[i], "LEAF"@) && leads_to_leaves(
        node,
        nodes,
        tree,
        nodes.true_ids[i],
        (steps - 1) as nat,
    ) && leads_to_leaves(node, nodes, tree, nodes.false_ids[i], (steps - 1) as nat))
}

/// Whether an operator's lists name a tree.
pub open spec fn is_listed(node: GraphNode, tree: i64) -> bool {
    ints(node, "nodes_treeids"@).contains(tree) || ints(node, "target_treeids"@).contains(tree)
        || ints(node, "class_treeids"@).contains(tree)
}

proof fn lemma_leads(
    node: GraphNode,
    nodes: NodesView,
    trees: TreesView,
    tree: i64,
    id: i64,
    steps: nat,
)
    requires
        nodes.aligned(),
        nodes_known(nodes, trees, nodes.tree_ids.len() as int),
        forall|tree: i64, id: i64|
            #![trigger leaf_value(node, tree, id)]
            trees.builder(tree).leaves.dom().contains(id) <==> leaf_value(node, tree, id) is Some,
        leads_to_leaves(node, nodes, tree, id, steps),
    ensures
        trees.builder(tree).node(id, steps) is Ok,
    decreases steps,
{
    let n = nodes.tree_ids.len() as int;
    if leaf_value(node, tree, id) is None {
        let i = last_place(nodes.tree_ids, nodes.node_ids, tree, id, n)->0;
        assert(trees.builder(tree).splits[id] == nodes.info(i));
        lemma_leads(node, nodes, trees, tree, nodes.true_ids[i], (steps - 1) as nat);
        lemma_leads(node, nodes, trees, tree, nodes.false_ids[i], (steps - 1) as nat);
        assert(nodes.info(i).mode is Branch);
    }
}

proof fn lemma_splits_finite(nodes: NodesView, n: int, tree: i64)
    ensures
        after_nodes(nodes, n).builder(tree).splits.dom().finite(),
    decreases n,
{
    if n > 0 {
        lemma_splits_finite(nodes, n - 1, tree);
    }
}

proof fn lemma_target_ids(trees: TreesView, leaves: LeavesView, from: int, tree: i64)
    requires
        0 <= from,
        ascending(trees.ids),
    ensures
        after_targets(trees, leaves, from) matches Ok(after) ==> (after.ids.contains(tree)
            ==> trees.ids.contains(tree) || leaves.tree_ids.contains(tree)),
    decreases leaves.tree_ids.len() - from,
{
    if from < leaves.tree_ids.len() && leaves.has(from) {
        let next = trees.with_leaf(
            leaves.tree_ids[from],
            leaves.node_ids[from],
            leaves.weights[from].widened(),
        );
        numbers_stay_in_order(trees.ids, leaves.tree_ids[from]);
        lemma_target_ids(next, leaves, from + 1, tree);
        assert(leaves.tree_ids.contains(leaves.tree_ids[from]));
    }
}

proof fn lemma_class_ids(
    trees: TreesView,
    classes: Seq<i64>,
    leaves: LeavesView,
    from: int,
    tree: i64,
)
    requires
        0 <= from,
        ascending(trees.ids),
    ensures
        after_classes(trees, classes, leaves, from) matches Ok(after) ==> (after.ids.contains(tree)
            ==> trees.ids.contains(tree) || leaves.tree_ids.contains(tree)),
    decreases classes.len() - from,
{
    if from < classes.len() {
        lemma_class_ids(trees, classes, leaves, from + 1, tree);
        if leaves.has(from) {
            let next = trees.with_leaf(
                leaves.tree_ids[from],
                leaves.node_ids[from],
                leaves.weights[from].widened(),
            );
            numbers_stay_in_order(trees.ids, leaves.tree_ids[from]);
            lemma_class_ids(next, classes, leaves, from + 1, tree);
            assert(leaves.tree_ids.contains(leaves.tree_ids[from]));
        }
    }
}

/// An operator is read if its node lists and its leaf lists are complete, and every way down any
/// tree that they name comes to a leaf value.
pub proof fn complete_operators_are_read(node: GraphNode)
    requires
        nodes_of(node) is Ok,
        ints(node, "target_nodeids"@).len() == ints(node, "target_treeids"@).len(),
        floats(node, "target_weights"@).len() == ints(node, "target_treeids"@).len(),
        ints(node, "class_treeids"@).len() == ints(node, "class_ids"@).len(),
        ints(node, "class_nodeids"@).len() == ints(node, "class_ids"@).len(),
        floats(node, "class_weights"@).len() == ints(node, "class_ids"@).len(),
        -1 <= top_class(node) < i64::MAX,
        forall|tree: i64| #[trigger]
            is_listed(node, tree) ==> exists|steps: nat|
                leads_to_leaves(node, nodes_of(node)->Ok_0, tree, 0, steps),
    ensures
        trees_of(node) is Ok,
{
    let nodes = nodes_of(node)->Ok_0;
    let n = nodes.tree_ids.len() as int;
    let targets = LeavesView {
        tree_ids: ints(node, "target_treeids"@),
        node_ids: ints(node, "target_nodeids"@),
        weights: floats(node, "target_weights"@),
    };
    let outputs = LeavesView {
        tree_ids: ints(node, "class_treeids"@),
        node_ids: ints(node, "class_nodeids"@),
        weights: floats(node, "class_weights"@),
    };
    let classes = ints(node, "class_ids"@);
    let start = after_nodes(nodes, n);
    lemma_nodes_known(nodes, n);
    assert(leaves_known(start, targets, 0, classes, outputs, 0)) by {
        assert forall|tree: i64, id: i64|
            #![trigger value_so_far(targets, 0, classes, outputs, 0, tree, id)]
            ({
                let found = value_so_far(targets, 0, classes, outputs, 0, tree, id);
                let leaves = start.builder(tree).leaves;
                &&& leaves.dom().contains(id) <==> found is Some
                &&& found matches Some(value) ==> leaves[id] == value
            }) by {
            assert(start.builder(tree).leaves == Map::<i64, F64>::empty());
        }
    }
    lemma_targets_read(start, targets, 0);
    lemma_targets_known(start, targets, classes, outputs, 0);
    let regressed = after_targets(start, targets, 0)->Ok_0;
    lemma_classes_read(regressed, classes, outputs, 0);
    lemma_classes_known(regressed, targets, classes, outputs, 0);
    let all = after_classes(regressed, classes, outputs, 0)->Ok_0;
    assert(nodes_known(nodes, all, n)) by {
        assert forall|tree: i64, id: i64|
            #![trigger last_place(nodes.tree_ids, nodes.node_ids, tree, id, n)]
            ({
                let found = last_place(nodes.tree_ids, nodes.node_ids, tree, id, n);
                let splits = all.builder(tree).splits;
                &&& splits.dom().contains(id) <==> found is Some
                &&& found matches Some(i) ==> splits[id] == nodes.info(i)
            }) by {
            assert(all.builder(tree).splits == regressed.builder(tree).splits);
            assert(regressed.builder(tree).splits == start.builder(tree).splits);
        }
    }
    assert forall|tree: i64, id: i64|
        #![trigger leaf_value(node, tree, id)]
        all.builder(tree).leaves.dom().contains(id) <==> leaf_value(node, tree, id) is Some by {
        let found = value_so_far(
            targets,
            targets.tree_ids.len() as int,
            classes,
            outputs,
            classes.len() as int,
            tree,
            id,
        );
        assert(found == leaf_value(node, tree, id));
    }
    assert(nodes.tree_ids == ints(node, "nodes_treeids"@));
    assert forall|i: int| 0 <= i < all.ids.len() implies all.builder(#[trigger] all.ids[i]).node(
        0,
        all.builder(all.ids[i]).splits.len(),
    ) is Ok by {
        let tree = all.ids[i];
        assert(all.ids.contains(tree));
        lemma_class_ids(regressed, classes, outputs, 0, tree);
        lemma_target_ids(start, targets, 0, tree);
        if start.ids.contains(tree) {
            let k = choose|k: int| 0 <= k < n && nodes.tree_ids[k] == tree;
            assert(nodes.tree_ids.contains(nodes.tree_ids[k]));
        }
        assert(is_listed(node, tree));
        let steps = choose|steps: nat| leads_to_leaves(node, nodes, tree, 0, steps);
        lemma_leads(node, nodes, all, tree, 0, steps);
        lemma_splits_finite(nodes, n, tree);
        assert(all.builder(tree).splits == regressed.builder(tree).splits);
        assert(regressed.builder(tree).splits == start.builder(tree).splits);
        every_finite_tree_is_built(all.builder(tree), 0, steps);
    }
    lemma_all_built(all, 0, seq![]);
}

} // verus!
