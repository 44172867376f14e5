//! LightGBM JSON models.
use crate::error::{Complaint, Failure, Part, Problem};
#[allow(unused_imports)]
use crate::error::FailureView;
#[allow(unused_imports)]
use crate::interpreter;
use crate::ir::{
    AggregationKind, Forest, MissingDirection, Node, Operator, PostTransform, SplitKind, Tree,
};
#[allow(unused_imports)]
use crate::ir::{self, ForestView, NodeView, SplitView, TreeView};
use crate::json::{self, Json};
#[allow(unused_imports)]
use crate::json::JsonView;
use crate::number::{self, F32, F64, ONE_BITS};
use crate::text;
use vstd::prelude::*;

verus! {

/// How many splits a path may have.
pub const MAX_TREE_DEPTH: usize = 256;

/// The transform that an objective stands for. Unknown objectives give raw scores.
pub open spec fn objective_transform(name: Seq<char>, classes: usize) -> Result<
    PostTransform,
    FailureView,
> {
    if name == "binary"@ || name == "cross_entropy"@ || name == "binary_crossentropy"@ || name
        == "xentropy"@ {
        Ok(PostTransform::Logit)
    } else if name == "multiclass"@ || name == "softmax"@ {
        Ok(
            PostTransform::Softmax {
                n_classes: if classes > 2 {
                    classes
                } else {
                    2
                },
            },
        )
    } else if name == "multiclassova"@ || name == "multiclass_ova"@ || name == "ova"@ || name
        == "ovr"@ {
        Err(FailureView::Plain(Problem::OneVersusAll))
    } else if name == "cross_entropy_lambda"@ || name == "xentlambda"@ {
        Err(FailureView::Plain(Problem::CrossEntropyLambda))
    } else if name == "poisson"@ || name == "gamma"@ || name == "tweedie"@ {
        Ok(PostTransform::Log)
    } else {
        Ok(PostTransform::Identity)
    }
}

/// Whether an objective is known to give raw scores.
pub open spec fn raw_objective(name: Seq<char>) -> bool {
    name == "regression"@ || name == "regression_l2"@ || name == "l2"@
        || name == "mean_squared_error"@ || name == "mse"@ || name == "l2_root"@
        || name == "root_mean_squared_error"@ || name == "rmse"@ || name == "regression_l1"@
        || name == "l1"@ || name == "mean_absolute_error"@ || name == "mae"@ || name == "huber"@
        || name == "fair"@ || name == "quantile"@ || name == "mape"@
        || name == "mean_absolute_percentage_error"@ || name == "lambdarank"@
        || name == "rank_xendcg"@ || name == "xendcg"@ || name == "xe_ndcg"@
        || name == "xe_ndcg_mart"@ || name == "xendcg_mart"@
}

/// The name of the objective: the first of a list, or the first word of a text.
pub open spec fn objective_name(value: JsonView) -> Seq<char> {
    match value {
        JsonView::Array(items) => if items.len() > 0 && items[0].text() is Some {
            items[0].text()->0
        } else {
            "regression"@
        },
        JsonView::Text(s) => if text::word(s).len() > 0 {
            text::word(s)
        } else {
            "regression"@
        },
        _ => "regression"@,
    }
}

/// Where two bars first stand in `s` at or after `from`; the length if nowhere.
pub open spec fn find_bars(s: Seq<char>, from: int) -> int
    decreases s.len() - from,
{
    if from < 0 || from + 1 >= s.len() {
        s.len() as int
    } else if s[from] == '|' && s[from + 1] == '|' {
        from
    } else {
        find_bars(s, from + 1)
    }
}

/// `find_bars` gives the place of two bars or the end.
pub proof fn lemma_find_bars(s: Seq<char>, from: int)
    requires
        0 <= from <= s.len(),
    ensures
        from <= find_bars(s, from) <= s.len(),
        find_bars(s, from) < s.len() ==> find_bars(s, from) + 2 <= s.len(),
    decreases s.len() - from,
{
    if from + 1 < s.len() && !(s[from] == '|' && s[from + 1] == '|') {
        lemma_find_bars(s, from + 1);
    }
}

/// What `str::parse` says of a text that writes no 32-bit unsigned integer.
pub uninterp spec fn integer_fault(text: Seq<char>) -> Seq<char>;

/// Reads a 32-bit unsigned integer with `str::parse`: an optional plus sign and digits. What is
/// said of any other text is a function of the text.
#[verifier::external_body]
fn read_category(text: &str) -> (r: Result<u32, String>)
    ensures
        match r {
            Ok(n) => text::unsigned(text@, u32::MAX as int) == Some(n as int),
            Err(fault) => text::unsigned(text@, u32::MAX as int) is None && fault@ == integer_fault(
                text@,
            ),
        },
{
    match text.parse() {
        Ok(n) => Ok(n),
        Err(fault) => Err(std::num::ParseIntError::to_string(&fault)),
    }
}

/// The categories that the text from `from` on lists between bars, behind those read
/// before, or why it lists anything else.
pub open spec fn categories_from(s: Seq<char>, from: int, before: Seq<u32>) -> Result<
    Seq<u32>,
    Seq<char>,
>
    decreases s.len() - from,
    when 0 <= from <= s.len()
{
    let end = find_bars(s, from);
    proof {
        lemma_find_bars(s, from);
    }
    let piece = text::trimmed(s.subrange(from, end));
    match text::unsigned(piece, u32::MAX as int) {
        None => Err(integer_fault(piece)),
        Some(n) => if end < s.len() {
            categories_from(s, end + 2, before.push(n as u32))
        } else {
            Ok(before.push(n as u32))
        },
    }
}

/// The greatest of the first `n` categories.
pub open spec fn greatest(categories: Seq<u32>, n: int) -> u32
    decreases n,
{
    if n <= 0 {
        0
    } else if categories[n - 1] > greatest(categories, n - 1) {
        categories[n - 1]
    } else {
        greatest(categories, n - 1)
    }
}

/// Byte `at` of the set of the first `n` categories.
pub open spec fn set_byte(categories: Seq<u32>, n: int, at: int) -> u8
    decreases n,
{
    if n <= 0 {
        0
    } else if categories[n - 1] / 8 == at {
        set_byte(categories, n - 1, at) | (1u8 << ((categories[n - 1] % 8) as u8))
    } else {
        set_byte(categories, n - 1, at)
    }
}

/// The split on membership in a list of categories.
pub open spec fn category_split(categories: Seq<u32>) -> SplitView {
    let n = categories.len() as int;
    let top = greatest(categories, n);
    SplitView::Categorical {
        bitoff: 0,
        nbits: (top + 1) as u32,
        data: Seq::new((top / 8 + 1) as nat, |at: int| set_byte(categories, n, at)),
    }
}

/// The categories that a text lists.
pub open spec fn listed_categories(s: Seq<char>) -> Result<Seq<u32>, FailureView> {
    match categories_from(s, 0, seq![]) {
        Ok(categories) => Ok(categories),
        Err(fault) => Err(
            FailureView::Caused { complaint: Complaint::Categories, text: s, fault },
        ),
    }
}

/// The categories of a categorical threshold. A number is one category; any number that is
/// none is read, and complained of, as it is written.
pub open spec fn threshold_categories(value: JsonView) -> Result<Seq<u32>, FailureView> {
    let found = match value {
        JsonView::Text(s) => listed_categories(s),
        JsonView::Number(n) => if n.unsigned is Some && n.unsigned->0 <= u32::MAX {
            Ok(seq![n.unsigned->0 as u32])
        } else {
            listed_categories(json::value_display(value))
        },
        _ => Err(
            FailureView::About {
                complaint: Complaint::CategoricalThreshold,
                text: json::value_debug(value),
            },
        ),
    };
    match found {
        Ok(categories) => if greatest(categories, categories.len() as int) == u32::MAX {
            Err(FailureView::Plain(Problem::CategoryTooLarge))
        } else {
            Ok(categories)
        },
        Err(e) => Err(e),
    }
}

/// The threshold of a numeric split.
pub open spec fn threshold_of(value: JsonView) -> Result<F32, FailureView> {
    match value {
        JsonView::Number(n) => match n.double {
            Some(x) => Ok(x.narrowed()),
            None => Err(FailureView::Plain(Problem::ThresholdNotFloat)),
        },
        JsonView::Text(s) => match number::double_of_text(s) {
            Ok(bits) => Ok((F64 { bits }).narrowed()),
            Err(fault) => Err(
                FailureView::Caused { complaint: Complaint::Threshold, text: s, fault },
            ),
        },
        _ => Err(
            FailureView::About {
                complaint: Complaint::ThresholdType,
                text: json::value_debug(value),
            },
        ),
    }
}

/// The operator of a numeric split.
pub open spec fn operator_of(decision: Seq<char>) -> Result<Operator, FailureView> {
    if decision == "<="@ {
        Ok(Operator::LessOrEqual)
    } else if decision == "<"@ {
        Ok(Operator::LessThan)
    } else if decision == ">"@ {
        Ok(Operator::GreaterThan)
    } else if decision == ">="@ {
        Ok(Operator::GreaterOrEqual)
    } else {
        Err(FailureView::About { complaint: Complaint::DecisionType, text: decision })
    }
}

/// How a split node decides.
pub open spec fn decision_of(node: JsonView) -> Seq<char> {
    match node.at("decision_type"@).text() {
        Some(s) => s,
        None => "<="@,
    }
}

/// Whether missing values go left at a split node.
pub open spec fn default_left(node: JsonView) -> bool {
    node.at("default_left"@).boolean() == Some(true)
}

/// The split node with these children. A categorical split of LightGBM takes the categories
/// in its list left, so the children and the direction of missing values change places.
pub open spec fn split_of(
    node: JsonView,
    feature_idx: usize,
    left: NodeView,
    right: NodeView,
) -> Result<NodeView, FailureView> {
    if decision_of(node) == "=="@ {
        match threshold_categories(node.at("threshold"@)) {
            Err(e) => Err(e),
            Ok(categories) => Ok(
                NodeView::Split {
                    feature_idx,
                    split: category_split(categories),
                    left: Box::new(right),
                    right: Box::new(left),
                    missing: if default_left(node) {
                        MissingDirection::Right
                    } else {
                        MissingDirection::Left
                    },
                },
            ),
        }
    } else {
        match threshold_of(node.at("threshold"@)) {
            Err(e) => Err(e),
            Ok(threshold) => match operator_of(decision_of(node)) {
                Err(e) => Err(e),
                Ok(operator) => Ok(
                    NodeView::Split {
                        feature_idx,
                        split: SplitView::Numeric { threshold, operator },
                        left: Box::new(left),
                        right: Box::new(right),
                        missing: if default_left(node) {
                            MissingDirection::Left
                        } else {
                            MissingDirection::Right
                        },
                    },
                ),
            },
        }
    }
}

/// The tree that a node of a document describes, `depth` splits away from the root.
pub open spec fn node_of(node: JsonView, depth: int) -> Result<NodeView, FailureView>
    decreases MAX_TREE_DEPTH + 1 - depth,
{
    if depth > MAX_TREE_DEPTH {
        Err(FailureView::Plain(Problem::TooDeep))
    } else if let Some(value) = node.get("leaf_value"@) {
        match value.double() {
            Some(x) => Ok(NodeView::Leaf { value: x }),
            None => Err(
                FailureView::About {
                    complaint: Complaint::LeafNotNumber,
                    text: json::value_debug(value),
                },
            ),
        }
    } else {
        match node.at("split_feature"@).unsigned() {
            None => Err(FailureView::Plain(Problem::MissingSplitFeature)),
            Some(feature) => match node_of(node.at("left_child"@), depth + 1) {
                Err(cause) => Err(
                    FailureView::Within { part: Part::LeftChild, cause: Box::new(cause) },
                ),
                Ok(left) => match node_of(node.at("right_child"@), depth + 1) {
                    Err(cause) => Err(
                        FailureView::Within { part: Part::RightChild, cause: Box::new(cause) },
                    ),
                    Ok(right) => split_of(node, feature as usize, left, right),
                },
            },
        }
    }
}

/// The tree that a document describes.
pub open spec fn tree_of(tree: JsonView) -> Result<TreeView, FailureView> {
    match tree.get("tree_structure"@) {
        None => Err(FailureView::Plain(Problem::MissingTreeStructure)),
        Some(structure) => match node_of(structure, 0) {
            Err(cause) => Err(
                FailureView::Within { part: Part::TreeStructure, cause: Box::new(cause) },
            ),
            Ok(root) => Ok(TreeView { root, weight: F64 { bits: ONE_BITS } }),
        },
    }
}

/// The trees from `from` on behind those read before, or the first failure among them.
pub open spec fn trees_from(items: Seq<JsonView>, from: int, before: Seq<TreeView>) -> Result<
    Seq<TreeView>,
    FailureView,
>
    decreases items.len() - from,
{
    if from < 0 || from >= items.len() {
        Ok(before)
    } else {
        match tree_of(items[from]) {
            Err(cause) => Err(
                FailureView::Within {
                    part: Part::Tree { index: from as usize },
                    cause: Box::new(cause),
                },
            ),
            Ok(tree) => trees_from(items, from + 1, before.push(tree)),
        }
    }
}

/// The forest that a document describes.
pub open spec fn forest_of(root: JsonView) -> Result<ForestView, FailureView> {
    let classes = match root.at("num_tree_per_iteration"@).unsigned() {
        Some(n) => n as usize,
        None => 1,
    };
    match root.get("tree_info"@) {
        None => Err(FailureView::Plain(Problem::MissingTreeInfo)),
        Some(info) => match objective_transform(
            objective_name(root.at("objective"@)),
            classes,
        ) {
            Err(e) => Err(e),
            Ok(post_transform) => match info {
                JsonView::Array(items) => match trees_from(items, 0, seq![]) {
                    Err(e) => Err(e),
                    Ok(trees) => Ok(
                        ForestView {
                            trees,
                            base_score: F64 { bits: 0 },
                            base_scores: seq![],
                            aggregation: if root.at("average_output"@).boolean() == Some(true) {
                                AggregationKind::Average
                            } else {
                                AggregationKind::Sum
                            },
                            post_transform,
                            catboost_metadata: None,
                        },
                    ),
                },
                _ => Err(FailureView::Plain(Problem::TreeInfoNotArray)),
            },
        },
    }
}

/// The transform that an objective stands for.
pub fn post_transform_for_objective(name: &str, num_tree_per_iteration: usize) -> (r: Result<
    PostTransform,
    Failure,
>)
    ensures
        match r {
            Ok(transform) => objective_transform(name@, num_tree_per_iteration) == Ok::<
                PostTransform,
                FailureView,
            >(transform),
            Err(e) => objective_transform(name@, num_tree_per_iteration) == Err::<
                PostTransform,
                FailureView,
            >(e@),
        },
{
    if text::same(name, "binary") || text::same(name, "cross_entropy") || text::same(
        name,
        "binary_crossentropy",
    ) || text::same(name, "xentropy") {
        Ok(PostTransform::Logit)
    } else if text::same(name, "multiclass") || text::same(name, "softmax") {
        let n_classes: usize = if num_tree_per_iteration > 2 {
            num_tree_per_iteration
        } else {
            2
        };
        Ok(PostTransform::Softmax { n_classes })
    } else if text::same(name, "multiclassova") || text::same(name, "multiclass_ova")
        || text::same(name, "ova") || text::same(name, "ovr") {
        Err(Failure::Plain(Problem::OneVersusAll))
    } else if text::same(name, "cross_entropy_lambda") || text::same(name, "xentlambda") {
        Err(Failure::Plain(Problem::CrossEntropyLambda))
    } else if text::same(name, "poisson") || text::same(name, "gamma") || text::same(
        name,
        "tweedie",
    ) {
        Ok(PostTransform::Log)
    } else {
        Ok(PostTransform::Identity)
    }
}

/// Whether an objective is known: to have a transform, to have one that cannot be expressed, or
/// to give raw scores.
pub fn is_known_objective(name: &str) -> (r: bool)
    ensures
        r == (objective_transform(name@, 0) != Ok::<PostTransform, FailureView>(
            PostTransform::Identity,
        ) || raw_objective(name@)),
{
    match post_transform_for_objective(name, 0) {
        Ok(PostTransform::Identity) => is_raw_objective(name),
        _ => true,
    }
}

fn is_raw_objective(name: &str) -> (r: bool)
    ensures
        r == raw_objective(name@),
{
    text::same(name, "regression") || text::same(name, "regression_l2")
        || text::same(name, "l2") || text::same(name, "mean_squared_error")
        || text::same(name, "mse") || text::same(name, "l2_root")
        || text::same(name, "root_mean_squared_error") || text::same(name, "rmse")
        || text::same(name, "regression_l1") || text::same(name, "l1")
        || text::same(name, "mean_absolute_error") || text::same(name, "mae")
        || text::same(name, "huber") || text::same(name, "fair") || text::same(name, "quantile")
        || text::same(name, "mape") || text::same(name, "mean_absolute_percentage_error")
        || text::same(name, "lambdarank") || text::same(name, "rank_xendcg")
        || text::same(name, "xendcg") || text::same(name, "xe_ndcg")
        || text::same(name, "xe_ndcg_mart") || text::same(name, "xendcg_mart")
}

/// The name of a model's objective.
pub fn objective(root: &Json) -> (r: String)
    ensures
        r@ == objective_name(json::document(*root).at("objective"@)),
{
    parse_objective(json::at(root, "objective"))
}

fn parse_objective(value: &Json) -> (r: String)
    ensures
        r@ == objective_name(json::document(*value)),
{
    match json::as_array(value) {
        Some(items) => {
            if items.len() > 0 {
                assert(json::json_views(items@)[0] == json::document(items[0]));
                match json::as_text(&items[0]) {
                    Some(s) => {
                        return s.clone();
                    },
                    None => {},
                }
            }
            "regression".to_owned()
        },
        None => match json::as_text(value) {
            Some(s) => {
                let word = text::first_word(s.as_str());
                if text::to_chars(word.as_str()).len() > 0 {
                    word
                } else {
                    "regression".to_owned()
                }
            },
            None => "regression".to_owned(),
        },
    }
}

fn parse_categories(s: &str) -> (r: Result<Vec<u32>, Failure>)
    ensures
        listed_categories(s@) == (match r {
            Ok(categories) => Ok::<Seq<u32>, FailureView>(categories@),
            Err(e) => Err(e@),
        }),
{
    let chars = text::to_chars(s);
    let mut categories: Vec<u32> = Vec::new();
    let mut from: usize = 0;
    loop
        invariant
            chars@ == s@,
            from <= chars.len(),
            categories_from(s@, 0, seq![]) == categories_from(s@, from as int, categories@),
        decreases chars.len() - from,
    {
        let end: usize = bars_in(&chars, from);
        let piece = text::piece(&chars, from, end);
        match read_category(text::trim(piece.as_str()).as_str()) {
            Err(fault) => {
                return Err(
                    Failure::Caused { complaint: Complaint::Categories, text: s.to_owned(), fault },
                );
            },
            Ok(n) => {
                categories.push(n);
            },
        }
        if end == chars.len() {
            return Ok(categories);
        }
        from = end + 2;
    }
}

fn bars_in(chars: &[char], from: usize) -> (r: usize)
    requires
        from <= chars.len(),
    ensures
        r == find_bars(chars@, from as int),
        from <= r <= chars.len(),
        r < chars.len() ==> r + 2 <= chars.len(),
{
    let mut i: usize = from;
    while i < chars.len() && chars.len() - i > 1
        invariant
            from <= i <= chars.len(),
            find_bars(chars@, from as int) == find_bars(chars@, i as int),
        decreases chars.len() - i,
    {
        if chars[i] == '|' && chars[i + 1] == '|' {
            return i;
        }
        i = i + 1;
    }
    chars.len()
}

fn greatest_of(categories: &Vec<u32>) -> (r: u32)
    ensures
        r == greatest(categories@, categories.len() as int),
{
    let mut top: u32 = 0;
    let mut i: usize = 0;
    while i < categories.len()
        invariant
            i <= categories.len(),
            top == greatest(categories@, i as int),
        decreases categories.len() - i,
    {
        if categories[i] > top {
            top = categories[i];
        }
        i = i + 1;
    }
    top
}

proof fn lemma_greatest(categories: Seq<u32>, n: int, i: int)
    requires
        0 <= i < n <= categories.len(),
    ensures
        categories[i] <= greatest(categories, n),
    decreases n,
{
    if i < n - 1 {
        lemma_greatest(categories, n - 1, i);
    }
}

/// The split on membership in a list of categories.
fn build_category_split(categories: &Vec<u32>) -> (r: SplitKind)
    requires
        greatest(categories@, categories.len() as int) < u32::MAX,
    ensures
        r@ == category_split(categories@),
{
    let top: u32 = greatest_of(categories);
    let nbytes: usize = (top / 8 + 1) as usize;
    let mut data: Vec<u8> = vec![0u8; nbytes];
    let mut i: usize = 0;
    while i < categories.len()
        invariant
            i <= categories.len(),
            data.len() == nbytes == top / 8 + 1,
            top == greatest(categories@, categories.len() as int),
            forall|at: int|
                0 <= at < nbytes ==> data[at] == #[trigger] set_byte(categories@, i as int, at),
        decreases categories.len() - i,
    {
        let category: u32 = categories[i];
        proof {
            lemma_greatest(categories@, categories.len() as int, i as int);
        }
        let at: usize = (category / 8) as usize;
        let byte: u8 = data[at] | (1u8 << ((category % 8) as u8));
        let ghost before = data@;
        data.set(at, byte);
        proof {
            assert forall|k: int| 0 <= k < nbytes implies data[k] == #[trigger] set_byte(
                categories@,
                i + 1,
                k,
            ) by {
                assert(before[k] == set_byte(categories@, i as int, k));
            }
        }
        i = i + 1;
    }
    let split = SplitKind::Categorical { bitoff: 0, nbits: top + 1, data };
    assert(split@->data =~= category_split(categories@)->data);
    split
}

fn parse_threshold_categories(value: &Json) -> (r: Result<Vec<u32>, Failure>)
    ensures
        match r {
            Ok(categories) => threshold_categories(json::document(*value)) == Ok::<
                Seq<u32>,
                FailureView,
            >(categories@),
            Err(e) => threshold_categories(json::document(*value)) == Err::<Seq<u32>, FailureView>(
                e@,
            ),
        },
{
    let found = match json::peel(value) {
        json::Layer::Text(s) => parse_categories(s.as_str()),
        json::Layer::Number(n) => match n.unsigned {
            Some(u) if u <= u32::MAX as u64 => {
                let mut one: Vec<u32> = Vec::new();
                one.push(u as u32);
                assert(one@ =~= seq![u as u32]);
                Ok(one)
            },
            _ => parse_categories(json::spell(value).as_str()),
        },
        _ => Err(
            Failure::About {
                complaint: Complaint::CategoricalThreshold,
                text: json::describe(value),
            },
        ),
    };
    let categories: Vec<u32> = match found {
        Ok(categories) => categories,
        Err(e) => {
            return Err(e);
        },
    };
    if greatest_of(&categories) == u32::MAX {
        return Err(Failure::Plain(Problem::CategoryTooLarge));
    }
    Ok(categories)
}

fn parse_threshold(value: &Json) -> (r: Result<F32, Failure>)
    ensures
        match r {
            Ok(threshold) => threshold_of(json::document(*value)) == Ok::<F32, FailureView>(
                threshold,
            ),
            Err(e) => threshold_of(json::document(*value)) == Err::<F32, FailureView>(e@),
        },
{
    match json::peel(value) {
        json::Layer::Number(n) => match n.double {
            Some(x) => Ok(x.narrow()),
            None => Err(Failure::Plain(Problem::ThresholdNotFloat)),
        },
        json::Layer::Text(s) => match number::parse_double(s.as_str()) {
            Ok(bits) => Ok((F64 { bits }).narrow()),
            Err(fault) => Err(
                Failure::Caused { complaint: Complaint::Threshold, text: s.clone(), fault },
            ),
        },
        _ => Err(
            Failure::About { complaint: Complaint::ThresholdType, text: json::describe(value) },
        ),
    }
}

fn parse_operator(decision: &str) -> (r: Result<Operator, Failure>)
    ensures
        match r {
            Ok(operator) => operator_of(decision@) == Ok::<Operator, FailureView>(operator),
            Err(e) => operator_of(decision@) == Err::<Operator, FailureView>(e@),
        },
{
    if text::same(decision, "<=") {
        Ok(Operator::LessOrEqual)
    } else if text::same(decision, "<") {
        Ok(Operator::LessThan)
    } else if text::same(decision, ">") {
        Ok(Operator::GreaterThan)
    } else if text::same(decision, ">=") {
        Ok(Operator::GreaterOrEqual)
    } else {
        Err(Failure::About { complaint: Complaint::DecisionType, text: decision.to_owned() })
    }
}

/// The split node with these children.
fn parse_split(node: &Json, feature_idx: usize, left: Node, right: Node) -> (r: Result<
    Node,
    Failure,
>)
    ensures
        match r {
            Ok(out) => split_of(json::document(*node), feature_idx, left@, right@) == Ok::<
                NodeView,
                FailureView,
            >(out@),
            Err(e) => split_of(json::document(*node), feature_idx, left@, right@) == Err::<
                NodeView,
                FailureView,
            >(e@),
        },
{
    let decision: &str = match json::as_text(json::at(node, "decision_type")) {
        Some(s) => s.as_str(),
        None => "<=",
    };
    let default_left: bool = match json::as_bool(json::at(node, "default_left")) {
        Some(b) => b,
        None => false,
    };
    let threshold = json::at(node, "threshold");
    if text::same(decision, "==") {
        return match parse_threshold_categories(threshold) {
            Err(e) => Err(e),
            Ok(categories) => Ok(
                Node::Split {
                    feature_idx,
                    split: build_category_split(&categories),
                    left_child: Box::new(right),
                    right_child: Box::new(left),
                    missing_direction: if default_left {
                        MissingDirection::Right
                    } else {
                        MissingDirection::Left
                    },
                },
            ),
        };
    }
    let threshold = match parse_threshold(threshold) {
        Ok(threshold) => threshold,
        Err(e) => {
            return Err(e);
        },
    };
    let operator = match parse_operator(decision) {
        Ok(operator) => operator,
        Err(e) => {
            return Err(e);
        },
    };
    Ok(
        Node::Split {
            feature_idx,
            split: SplitKind::Numeric { threshold, operator },
            left_child: Box::new(left),
            right_child: Box::new(right),
            missing_direction: if default_left {
                MissingDirection::Left
            } else {
                MissingDirection::Right
            },
        },
    )
}

/// Reads a node and all below it.
fn parse_node(node: &Json, depth: usize) -> (r: Result<Node, Failure>)
    requires
        depth <= MAX_TREE_DEPTH + 1,
    ensures
        match r {
            Ok(out) => node_of(json::document(*node), depth as int) == Ok::<NodeView, FailureView>(
                out@,
            ),
            Err(e) => node_of(json::document(*node), depth as int) == Err::<NodeView, FailureView>(
                e@,
            ),
        },
    decreases MAX_TREE_DEPTH + 1 - depth,
{
    if depth > MAX_TREE_DEPTH {
        return Err(Failure::Plain(Problem::TooDeep));
    }
    match json::get(node, "leaf_value") {
        Some(value) => {
            return match json::as_double(value) {
                Some(x) => Ok(Node::Leaf { value: x }),
                None => Err(
                    Failure::About {
                        complaint: Complaint::LeafNotNumber,
                        text: json::describe(value),
                    },
                ),
            };
        },
        None => {},
    }
    let feature_idx: usize = match json::as_unsigned(json::at(node, "split_feature")) {
        Some(n) => n as usize,
        None => {
            return Err(Failure::Plain(Problem::MissingSplitFeature));
        },
    };
    let left = match parse_node(json::at(node, "left_child"), depth + 1) {
        Ok(left) => left,
        Err(cause) => {
            return Err(Failure::Within { part: Part::LeftChild, cause: Box::new(cause) });
        },
    };
    let right = match parse_node(json::at(node, "right_child"), depth + 1) {
        Ok(right) => right,
        Err(cause) => {
            return Err(Failure::Within { part: Part::RightChild, cause: Box::new(cause) });
        },
    };
    parse_split(node, feature_idx, left, right)
}

/// Reads a tree. Its leaf values are already scaled by the learning rate.
fn parse_tree(tree: &Json) -> (r: Result<Tree, Failure>)
    ensures
        match r {
            Ok(t) => tree_of(json::document(*tree)) == Ok::<TreeView, FailureView>(t@),
            Err(e) => tree_of(json::document(*tree)) == Err::<TreeView, FailureView>(e@),
        },
{
    match json::get(tree, "tree_structure") {
        None => Err(Failure::Plain(Problem::MissingTreeStructure)),
        Some(structure) => match parse_node(structure, 0) {
            Err(cause) => Err(
                Failure::Within { part: Part::TreeStructure, cause: Box::new(cause) },
            ),
            Ok(root) => Ok(Tree { root, weight: F64 { bits: ONE_BITS } }),
        },
    }
}

fn parse_trees(items: &Vec<Json>) -> (r: Result<Vec<Tree>, Failure>)
    ensures
        match r {
            Ok(trees) => trees_from(json::json_views(items@), 0, seq![]) == Ok::<
                Seq<TreeView>,
                FailureView,
            >(ir::tree_views(trees@)),
            Err(e) => trees_from(json::json_views(items@), 0, seq![]) == Err::<
                Seq<TreeView>,
                FailureView,
            >(e@),
        },
{
    let mut trees: Vec<Tree> = Vec::new();
    let mut i: usize = 0;
    assert(ir::tree_views(trees@) =~= seq![]);
    while i < items.len()
        invariant
            i <= items.len(),
            trees_from(json::json_views(items@), 0, seq![]) == trees_from(
                json::json_views(items@),
                i as int,
                ir::tree_views(trees@),
            ),
        decreases items.len() - i,
    {
        let ghost before = ir::tree_views(trees@);
        assert(json::json_views(items@)[i as int] == json::document(items[i as int]));
        match parse_tree(&items[i]) {
            Err(cause) => {
                return Err(
                    Failure::Within { part: Part::Tree { index: i }, cause: Box::new(cause) },
                );
            },
            Ok(tree) => {
                trees.push(tree);
                proof {
                    assert(ir::tree_views(trees@) =~= before.push(tree@));
                }
            },
        }
        i = i + 1;
    }
    Ok(trees)
}

/// Reads a LightGBM model.
pub fn parse_json(root: &Json) -> (r: Result<Forest, Failure>)
    ensures
        match r {
            Ok(forest) => forest_of(json::document(*root)) == Ok::<ForestView, FailureView>(
                forest@,
            ),
            Err(e) => forest_of(json::document(*root)) == Err::<ForestView, FailureView>(e@),
        },
{
    let info = match json::get(root, "tree_info") {
        Some(info) => info,
        None => {
            return Err(Failure::Plain(Problem::MissingTreeInfo));
        },
    };
    let classes: usize = match json::as_unsigned(json::at(root, "num_tree_per_iteration")) {
        Some(n) => n as usize,
        None => 1,
    };
    let name = parse_objective(json::at(root, "objective"));
    let post_transform = match post_transform_for_objective(name.as_str(), classes) {
        Ok(transform) => transform,
        Err(e) => {
            return Err(e);
        },
    };
    let aggregation = match json::as_bool(json::at(root, "average_output")) {
        Some(true) => AggregationKind::Average,
        _ => AggregationKind::Sum,
    };
    match json::as_array(info) {
        None => Err(Failure::Plain(Problem::TreeInfoNotArray)),
        Some(items) => match parse_trees(items) {
            Err(e) => Err(e),
            Ok(trees) => {
                let base_scores: Vec<F64> = Vec::new();
                assert(base_scores@ =~= seq![]);
                Ok(
                    Forest {
                        trees,
                        base_score: F64 { bits: 0 },
                        base_scores,
                        aggregation,
                        post_transform,
                        catboost_metadata: None,
                    },
                )
            },
        },
    }
}

/// A bit of a set is set exactly for the categories that it stands for.
proof fn lemma_set_byte(categories: Seq<u32>, n: int, at: int, k: int)
    requires
        0 <= n <= categories.len(),
        0 <= k < 8,
    ensures
        interpreter::bit(set_byte(categories, n, at), k) <==> exists|i: int|
            0 <= i < n && categories[i] == 8 * at + k,
    decreases n,
{
    let small = k as u8;
    if n == 0 {
        assert(0u8 & (1u8 << small) == 0) by (bit_vector);
    } else {
        lemma_set_byte(categories, n - 1, at, k);
        let last = categories[n - 1];
        let before = set_byte(categories, n - 1, at);
        if last / 8 == at {
            let j = (last % 8) as u8;
            assert(small < 8 && j < 8 ==> ((before | (1u8 << j)) & (1u8 << small) != 0 <==> (before
                & (1u8 << small) != 0 || j == small))) by (bit_vector);
            assert(last == 8 * at + last % 8);
        }
        if exists|i: int| 0 <= i < n && categories[i] == 8 * at + k {
            let i = choose|i: int| 0 <= i < n && categories[i] == 8 * at + k;
            if i == n - 1 {
                assert(last / 8 == at);
            } else {
                assert(exists|i: int| 0 <= i < n - 1 && categories[i] == 8 * at + k);
            }
        }
        if interpreter::bit(set_byte(categories, n, at), k) {
            if interpreter::bit(before, k) {
                let i = choose|i: int| 0 <= i < n - 1 && categories[i] == 8 * at + k;
                assert(0 <= i < n && categories[i] == 8 * at + k);
            } else {
                assert(categories[n - 1] == 8 * at + k);
            }
        }
    }
}

/// The set of a categorical split holds the listed categories and no others.
pub proof fn category_set_is_the_list(categories: Seq<u32>, category: int)
    requires
        greatest(categories, categories.len() as int) < 0x7fff_ffff,
    ensures
        ({
            let split = category_split(categories);
            interpreter::member(
                split->bitoff as int,
                split->nbits as int,
                split->data,
                category,
            ) <==> exists|i: int| 0 <= i < categories.len() && categories[i] == category
        }),
{
    let n = categories.len() as int;
    let top = greatest(categories, n);
    let split = category_split(categories);
    if 0 <= category <= top {
        lemma_set_byte(categories, n, category / 8, category % 8);
        assert(8 * (category / 8) + category % 8 == category);
        assert(split->data[category / 8] == set_byte(categories, n, category / 8));
    } else {
        assert forall|i: int| 0 <= i < n implies categories[i] != category by {
            lemma_greatest(categories, n, i);
        }
    }
}

/// At a categorical split, a row whose category is listed reaches what the document gives
/// as the left child, any other category what it gives as the right child.
pub proof fn listed_categories_go_left(
    node: JsonView,
    feature_idx: usize,
    left: NodeView,
    right: NodeView,
    row: Seq<F32>,
)
    requires
        decision_of(node) == "=="@,
        feature_idx < row.len(),
        !row[feature_idx as int].nan(),
        threshold_categories(node.at("threshold"@)) matches Ok(categories) && greatest(
            categories,
            categories.len() as int,
        ) < 0x7fff_ffff,
    ensures
        split_of(node, feature_idx, left, right) matches Ok(split) && split.value(row) == ({
            let categories = threshold_categories(node.at("threshold"@))->Ok_0;
            let category = row[feature_idx as int].truncated();
            if exists|i: int| 0 <= i < categories.len() && categories[i] == category {
                left.value(row)
            } else {
                right.value(row)
            }
        }),
{
    let categories = threshold_categories(node.at("threshold"@))->Ok_0;
    category_set_is_the_list(categories, row[feature_idx as int].truncated());
}

/// A tree read from a document has the bits of all its sets, and no path of it is longer
/// than the limit.
proof fn lemma_node(node: JsonView, depth: int)
    ensures
        node_of(node, depth) matches Ok(tree) ==> tree.sound() && tree.depth() + depth
            <= MAX_TREE_DEPTH,
    decreases MAX_TREE_DEPTH + 1 - depth,
{
    if depth <= MAX_TREE_DEPTH && node.get("leaf_value"@) is None {
        lemma_node(node.at("left_child"@), depth + 1);
        lemma_node(node.at("right_child"@), depth + 1);
    }
}

proof fn lemma_trees(items: Seq<JsonView>, from: int, before: Seq<TreeView>)
    requires
        forall|i: int|
            0 <= i < before.len() ==> (#[trigger] before[i]).root.sound() && before[i].root.depth()
                <= MAX_TREE_DEPTH,
    ensures
        trees_from(items, from, before) matches Ok(trees) ==> forall|i: int|
            0 <= i < trees.len() ==> (#[trigger] trees[i]).root.sound() && trees[i].root.depth()
                <= MAX_TREE_DEPTH,
    decreases items.len() - from,
{
    if 0 <= from < items.len() {
        if let Ok(tree) = tree_of(items[from]) {
            lemma_node(items[from].get("tree_structure"@)->0, 0);
            lemma_trees(items, from + 1, before.push(tree));
        }
    }
}

/// A forest read from a document has the bits of all its sets, so it can be evaluated, and
/// no path in it is longer than the limit.
pub proof fn parsed_forests_are_sound(root: JsonView)
    ensures
        forest_of(root) matches Ok(forest) ==> forest.sound() && forall|i: int|
            0 <= i < forest.trees.len() ==> (#[trigger] forest.trees[i]).root.depth()
                <= MAX_TREE_DEPTH,
{
    if let Some(JsonView::Array(items)) = root.get("tree_info"@) {
        lemma_trees(items, 0, seq![]);
    }
}

proof fn lemma_trees_in_order(items: Seq<JsonView>, from: int, before: Seq<TreeView>)
    requires
        0 <= from <= items.len(),
    ensures
        trees_from(items, from, before) matches Ok(trees) ==> {
            &&& trees.len() == before.len() + items.len() - from
            &&& forall|i: int| 0 <= i < before.len() ==> trees[i] == #[trigger] before[i]
            &&& forall|i: int|
                from <= i < items.len() ==> tree_of(#[trigger] items[i]) == Ok::<
                    TreeView,
                    FailureView,
                >(trees[before.len() + i - from])
        },
    decreases items.len() - from,
{
    if from < items.len() {
        if let Ok(tree) = tree_of(items[from]) {
            let longer = before.push(tree);
            lemma_trees_in_order(items, from + 1, longer);
            if let Ok(trees) = trees_from(items, from, before) {
                assert forall|i: int| 0 <= i < before.len() implies trees[i]
                    == #[trigger] before[i] by {
                    assert(longer[i] == before[i]);
                }
                assert(trees[before.len() as int] == longer[before.len() as int]);
                assert forall|i: int| from <= i < items.len() implies tree_of(#[trigger] items[i])
                    == Ok::<TreeView, FailureView>(trees[before.len() + i - from]) by {
                    if i > from {
                        assert(trees[longer.len() + i - (from + 1)] == trees[before.len() + i
                            - from]);
                    }
                }
            }
        }
    }
}

/// A forest has the trees that its document lists, in the order of the list, and each counts
/// once. It averages them if the document says so, and adds them up otherwise.
pub proof fn trees_come_as_listed(root: JsonView)
    requires
        forest_of(root) is Ok,
    ensures
        ({
            let forest = forest_of(root)->Ok_0;
            root.at("tree_info"@) matches JsonView::Array(items) && {
                &&& forest.trees.len() == items.len()
                &&& forall|i: int|
                    0 <= i < items.len() ==> tree_of(#[trigger] items[i]) == Ok::<
                        TreeView,
                        FailureView,
                    >(forest.trees[i])
                &&& forall|i: int|
                    0 <= i < items.len() ==> (#[trigger] forest.trees[i]).weight.bits
                        == 0x3ff0_0000_0000_0000
                &&& forest.aggregation == AggregationKind::Average <==> root.at("average_output"@)
                    == JsonView::Bool(true)
                &&& forest.base_score.bits == 0
                &&& forest.base_scores.len() == 0
            }
        }),
{
    if let JsonView::Array(items) = root.at("tree_info"@) {
        lemma_trees_in_order(items, 0, seq![]);
        let trees = forest_of(root)->Ok_0.trees;
        assert forall|i: int| 0 <= i < items.len() implies tree_of(#[trigger] items[i]) == Ok::<
            TreeView,
            FailureView,
        >(trees[i]) by {
            assert(trees[0 + i - 0] == trees[i]);
        }
        assert forall|i: int| 0 <= i < items.len() implies (#[trigger] trees[i]).weight.bits
            == 0x3ff0_0000_0000_0000 by {
            assert(tree_of(items[i]) == Ok::<TreeView, FailureView>(trees[i]));
        }
    }
}

/// The number that a threshold writes, rounded to a single.
pub open spec fn written_threshold(value: JsonView) -> F32 {
    match value {
        JsonView::Text(s) => (F64 { bits: number::double_of_text(s)->Ok_0 }).narrowed(),
        _ => value.double()->0.narrowed(),
    }
}

/// Whether a value goes to the left child of a node in a document. Missing values go left if
/// the node says so; a category goes left if the node lists it; a number goes left if it stands
/// to the threshold as the node says.
pub open spec fn sends_left(node: JsonView, value: F32) -> bool {
    let threshold = written_threshold(node.at("threshold"@));
    let decision = node.at("decision_type"@);
    if value.nan() {
        node.at("default_left"@) == JsonView::Bool(true)
    } else if decision == JsonView::Text("=="@) {
        exists|i: int|
            0 <= i < threshold_categories(node.at("threshold"@))->Ok_0.len()
                && threshold_categories(node.at("threshold"@))->Ok_0[i] == value.truncated()
    } else if decision == JsonView::Text("<"@) {
        value.less(threshold)
    } else if decision == JsonView::Text(">"@) {
        threshold.less(value)
    } else if decision == JsonView::Text(">="@) {
        threshold.at_most(value)
    } else {
        value.at_most(threshold)
    }
}

/// Where the nodes of a document lead a row: to the value of a leaf, or to the child that the
/// test selects. Nothing if the row has no such feature, or if it takes more than `steps` steps.
pub open spec fn walk(node: JsonView, row: Seq<F32>, steps: nat) -> Option<F64>
    decreases steps,
{
    if node.get("leaf_value"@) is Some {
        node.at("leaf_value"@).double()
    } else if steps == 0 {
        None
    } else {
        let feature = node.at("split_feature"@).unsigned()->0;
        if feature >= row.len() {
            None
        } else if sends_left(node, row[feature as int]) {
            walk(node.at("left_child"@), row, (steps - 1) as nat)
        } else {
            walk(node.at("right_child"@), row, (steps - 1) as nat)
        }
    }
}

/// Whether the features that the nodes of a document test have numbers that an index can have,
/// and the categories that they list numbers that a row can have, within `steps` steps.
pub open spec fn representable(node: JsonView, steps: nat) -> bool
    decreases steps,
{
    node.get("leaf_value"@) is None && steps > 0 ==> {
        &&& node.at("split_feature"@).unsigned() matches Some(feature) ==> feature <= usize::MAX
        &&& node.at("decision_type"@) == JsonView::Text("=="@) ==> (threshold_categories(
            node.at("threshold"@),
        ) matches Ok(categories) ==> forall|i: int|
            0 <= i < categories.len() ==> #[trigger] categories[i] < 0x7fff_ffff)
        &&& representable(node.at("left_child"@), (steps - 1) as nat)
        &&& representable(node.at("right_child"@), (steps - 1) as nat)
    }
}

proof fn lemma_greatest_below(categories: Seq<u32>, n: int)
    requires
        0 <= n <= categories.len(),
        forall|i: int| 0 <= i < categories.len() ==> #[trigger] categories[i] < 0x7fff_ffff,
    ensures
        greatest(categories, n) < 0x7fff_ffff,
    decreases n,
{
    if n > 0 {
        lemma_greatest_below(categories, n - 1);
    }
}

proof fn lemma_walk(node: JsonView, depth: int, row: Seq<F32>)
    requires
        0 <= depth,
        node_of(node, depth) is Ok,
        representable(node, (MAX_TREE_DEPTH - depth) as nat),
    ensures
        node_of(node, depth)->Ok_0.value(row).ok() == walk(
            node,
            row,
            (MAX_TREE_DEPTH - depth) as nat,
        ),
    decreases MAX_TREE_DEPTH + 1 - depth,
{
    if node.get("leaf_value"@) is None {
        let feature = node.at("split_feature"@).unsigned()->0;
        let left = node_of(node.at("left_child"@), depth + 1)->Ok_0;
        let right = node_of(node.at("right_child"@), depth + 1)->Ok_0;
        assert(depth < MAX_TREE_DEPTH);
        lemma_walk(node.at("left_child"@), depth + 1, row);
        lemma_walk(node.at("right_child"@), depth + 1, row);
        assert(feature as usize == feature);
        reveal_strlit("==");
        reveal_strlit("<=");
        reveal_strlit(">=");
        reveal_strlit("<");
        reveal_strlit(">");
        assert("=="@.len() == 2 && "<="@.len() == 2 && ">="@.len() == 2 && "<"@.len() == 1
            && ">"@.len() == 1);
        assert("=="@[0] == '=' && "<="@[0] == '<' && ">="@[0] == '>' && "<"@[0] == '<' && ">"@[0]
            == '>');
        if feature < row.len() && !row[feature as int].nan() && decision_of(node) == "=="@ {
            let categories = threshold_categories(node.at("threshold"@))->Ok_0;
            lemma_greatest_below(categories, categories.len() as int);
            listed_categories_go_left(node, feature as usize, left, right, row);
        }
    }
}

/// A tree that is read decides every row as the nodes of its document do, walked from the root.
pub proof fn trees_decide_as_their_nodes(tree: JsonView, row: Seq<F32>)
    requires
        tree_of(tree) is Ok,
        representable(tree.at("tree_structure"@), MAX_TREE_DEPTH as nat),
    ensures
        tree_of(tree)->Ok_0.root.value(row).ok() == walk(
            tree.at("tree_structure"@),
            row,
            MAX_TREE_DEPTH as nat,
        ),
{
    lemma_walk(tree.at("tree_structure"@), 0, row);
}

/// Which objectives have which transform: those of two classes give log-odds, those of several
/// a score per class, the counting ones logarithms, and all others that are taken the scores
/// themselves.
pub proof fn objectives_have_their_transform(name: Seq<char>, classes: usize)
    ensures
        objective_transform(name, classes) == Ok::<PostTransform, FailureView>(
            PostTransform::Logit,
        ) <==> name == "binary"@ || name == "cross_entropy"@ || name == "binary_crossentropy"@
            || name == "xentropy"@,
        objective_transform(name, classes) == Ok::<PostTransform, FailureView>(
            PostTransform::Softmax {
                n_classes: if classes >= 2 {
                    classes
                } else {
                    2
                },
            },
        ) <==> name == "multiclass"@ || name == "softmax"@,
        objective_transform(name, classes) == Ok::<PostTransform, FailureView>(
            PostTransform::Log,
        ) <==> name == "poisson"@ || name == "gamma"@ || name == "tweedie"@,
        objective_transform(name, classes) == Err::<PostTransform, FailureView>(
            FailureView::Plain(Problem::OneVersusAll),
        ) <==> name == "multiclassova"@ || name == "multiclass_ova"@ || name == "ova"@ || name
            == "ovr"@,
        objective_transform(name, classes) == Err::<PostTransform, FailureView>(
            FailureView::Plain(Problem::CrossEntropyLambda),
        ) <==> name == "cross_entropy_lambda"@ || name == "xentlambda"@,
        objective_transform(name, classes) is Err <==> name == "multiclassova"@ || name
            == "multiclass_ova"@ || name == "ova"@ || name == "ovr"@ || name
            == "cross_entropy_lambda"@ || name == "xentlambda"@,
        objective_transform(name, classes) is Ok ==> objective_transform(name, classes)
            == Ok::<PostTransform, FailureView>(PostTransform::Identity) || objective_transform(
            name,
            classes,
        ) == Ok::<PostTransform, FailureView>(PostTransform::Logit) || objective_transform(
            name,
            classes,
        ) == Ok::<PostTransform, FailureView>(PostTransform::Log)
            || objective_transform(name, classes)->Ok_0 is Softmax,
{
    reveal_strlit("binary");
    reveal_strlit("cross_entropy");
    reveal_strlit("binary_crossentropy");
    reveal_strlit("xentropy");
    reveal_strlit("multiclass");
    reveal_strlit("softmax");
    reveal_strlit("multiclassova");
    reveal_strlit("multiclass_ova");
    reveal_strlit("ova");
    reveal_strlit("ovr");
    reveal_strlit("cross_entropy_lambda");
    reveal_strlit("xentlambda");
    reveal_strlit("poisson");
    reveal_strlit("gamma");
    reveal_strlit("tweedie");
    assert("binary"@.len() == 6 && "cross_entropy"@.len() == 13
        && "binary_crossentropy"@.len() == 19 && "xentropy"@.len() == 8 && "multiclass"@.len()
        == 10 && "softmax"@.len() == 7 && "multiclassova"@.len() == 13
        && "multiclass_ova"@.len() == 14 && "ova"@.len() == 3 && "ovr"@.len() == 3
        && "cross_entropy_lambda"@.len() == 20 && "xentlambda"@.len() == 10 && "poisson"@.len()
        == 7 && "gamma"@.len() == 5 && "tweedie"@.len() == 7);
    assert("cross_entropy"@[0] == 'c' && "multiclassova"@[0] == 'm' && "softmax"@[0] == 's'
        && "poisson"@[0] == 'p' && "tweedie"@[0] == 't' && "multiclass"@[0] == 'm'
        && "xentlambda"@[0] == 'x');
}

/// Categories as a list in a text: their digits with two bars between them.
pub open spec fn written_list(categories: Seq<u32>) -> Seq<char>
    decreases categories.len(),
{
    if categories.len() == 0 {
        seq![]
    } else if categories.len() == 1 {
        text::decimal(categories[0] as nat)
    } else {
        text::decimal(categories[0] as nat) + seq!['|', '|'] + written_list(categories.skip(1))
    }
}

proof fn lemma_bars_at(s: Seq<char>, from: int, end: int)
    requires
        0 <= from <= end <= s.len(),
        forall|i: int| from <= i < end ==> s[i] != '|',
        end == s.len() || (end + 1 < s.len() && s[end] == '|' && s[end + 1] == '|'),
    ensures
        find_bars(s, from) == end,
    decreases end - from,
{
    if from < end && from + 1 < s.len() {
        lemma_bars_at(s, from + 1, end);
    }
}

proof fn lemma_digits_stay(n: nat)
    ensures
        text::trimmed(text::decimal(n)) == text::decimal(n),
{
    let s = text::decimal(n);
    text::decimals_write_the_number(n);
    let start = text::trimming_takes_white_space_off(s);
    let kept = text::trimmed(s).len() as int;
    if start > 0 {
        assert(text::is_white(s[0]));
        assert(text::is_digit(s[0]));
    }
    if start + kept < s.len() {
        assert(text::is_white(s[start + kept]));
        assert(text::is_digit(s[start + kept]));
    }
    assert(s.subrange(0, s.len() as int) =~= s);
}

proof fn lemma_list_read(s: Seq<char>, from: int, categories: Seq<u32>, before: Seq<u32>)
    requires
        0 <= from <= s.len(),
        categories.len() > 0,
        s.skip(from) == written_list(categories),
    ensures
        categories_from(s, from, before) == Ok::<Seq<u32>, Seq<char>>(before + categories),
    decreases categories.len(),
{
    let n = categories[0] as nat;
    let digits = text::decimal(n);
    let rest = s.skip(from);
    let len = digits.len() as int;
    let end = from + len;
    let later = written_list(categories.skip(1));
    if categories.len() > 1 {
        assert(rest == digits + seq!['|', '|'] + later);
        assert(rest.len() == len + 2 + later.len());
    } else {
        assert(rest == digits);
    }
    assert(rest.len() == s.len() - from);
    text::decimals_write_the_number(n);
    assert forall|i: int| from <= i < end implies s[i] != '|' by {
        assert(s[i] == rest[i - from]);
        assert(text::is_digit(digits[i - from]));
    }
    if categories.len() > 1 {
        assert(rest[len] == '|' && rest[len + 1] == '|');
        assert(s[end] == rest[len] && s[end + 1] == rest[len + 1]);
    }
    lemma_bars_at(s, from, end);
    assert(s.subrange(from, end) =~= digits);
    lemma_digits_stay(n);
    text::decimals_are_read_back(n, u32::MAX as int);
    if categories.len() > 1 {
        assert(s.skip(end + 2) =~= rest.skip(len + 2));
        assert(rest.skip(len + 2) =~= written_list(categories.skip(1)));
        lemma_list_read(s, end + 2, categories.skip(1), before.push(n as u32));
        assert(before.push(n as u32) + categories.skip(1) =~= before + categories);
    } else {
        assert(before.push(n as u32) =~= before + categories);
    }
}

/// Categories that are written as a list are read back in their order, and a number alone is
/// that category.
pub proof fn listed_categories_are_read_back(categories: Seq<u32>, value: JsonView)
    requires
        categories.len() > 0,
        forall|i: int| 0 <= i < categories.len() ==> #[trigger] categories[i] < u32::MAX,
    ensures
        threshold_categories(JsonView::Text(written_list(categories))) == Ok::<
            Seq<u32>,
            FailureView,
        >(categories),
        value.unsigned() == Some(categories[0] as u64) ==> threshold_categories(value) == Ok::<
            Seq<u32>,
            FailureView,
        >(seq![categories[0]]),
{
    let s = written_list(categories);
    assert(s.skip(0) =~= s);
    lemma_list_read(s, 0, categories, seq![]);
    assert(seq![] + categories =~= categories);
    lemma_greatest_below_limit(categories, categories.len() as int);
    let single = seq![categories[0]];
    lemma_greatest_below_limit(single, 1);
}

proof fn lemma_greatest_below_limit(categories: Seq<u32>, n: int)
    requires
        0 <= n <= categories.len(),
        forall|i: int| 0 <= i < categories.len() ==> #[trigger] categories[i] < u32::MAX,
    ensures
        greatest(categories, n) < u32::MAX,
    decreases n,
{
    if n > 0 {
        lemma_greatest_below_limit(categories, n - 1);
    }
}

/// What a document says of the forest as a whole: its objective, the first of a list or the
/// first word of a text, and its number of trees per iteration decide the transform.
pub proof fn documents_say_how_scores_are_used(root: JsonView)
    requires
        forest_of(root) is Ok,
    ensures
        ({
            let forest = forest_of(root)->Ok_0;
            let name = match root.at("objective"@) {
                JsonView::Array(items) => match items[0] {
                    JsonView::Text(s) if items.len() > 0 => s,
                    _ => "regression"@,
                },
                JsonView::Text(s) => if text::word(s).len() > 0 {
                    text::word(s)
                } else {
                    "regression"@
                },
                _ => "regression"@,
            };
            let classes = match root.at("num_tree_per_iteration"@).unsigned() {
                Some(n) => n as usize,
                None => 1,
            };
            &&& objective_transform(name, classes) == Ok::<PostTransform, FailureView>(
                forest.post_transform,
            )
            &&& forest.catboost_metadata is None
        }),
{
}

/// Whether a node of a document can be read: a leaf by its value; a split by its feature and a
/// threshold that goes with the way it decides, and by its children, down to leaves within so
/// many steps.
pub open spec fn well_formed(node: JsonView, steps: nat) -> bool
    decreases steps,
{
    match node.get("leaf_value"@) {
        Some(value) => value.double() is Some,
        None => {
            let threshold = node.at("threshold"@);
            let decision = match node.at("decision_type"@) {
                JsonView::Text(s) => s,
                _ => "<="@,
            };
            &&& steps > 0
            &&& node.at("split_feature"@).unsigned() is Some
            &&& if decision == "=="@ {
                threshold_categories(threshold) is Ok
            } else {
                &&& decision == "<="@ || decision == "<"@ || decision == ">"@ || decision == ">="@
                &&& match threshold {
                    JsonView::Number(n) => n.double is Some,
                    JsonView::Text(s) => number::double_of_text(s) is Ok,
                    _ => false,
                }
            }
            &&& well_formed(node.at("left_child"@), (steps - 1) as nat)
            &&& well_formed(node.at("right_child"@), (steps - 1) as nat)
        },
    }
}

proof fn lemma_nodes_read(node: JsonView, depth: int)
    requires
        0 <= depth <= MAX_TREE_DEPTH,
    ensures
        node_of(node, depth) is Ok <==> well_formed(node, (MAX_TREE_DEPTH - depth) as nat),
    decreases MAX_TREE_DEPTH + 1 - depth,
{
    if node.get("leaf_value"@) is None {
        if depth < MAX_TREE_DEPTH {
            lemma_nodes_read(node.at("left_child"@), depth + 1);
            lemma_nodes_read(node.at("right_child"@), depth + 1);
        } else {
            assert(node_of(node.at("left_child"@), depth + 1) is Err);
        }
    }
}

/// Which trees are read: exactly those whose structure is well-formed.
pub proof fn well_formed_trees_are_read(tree: JsonView)
    ensures
        tree_of(tree) is Ok <==> tree.get("tree_structure"@) is Some && well_formed(
            tree.at("tree_structure"@),
            MAX_TREE_DEPTH as nat,
        ),
{
    if let Some(structure) = tree.get("tree_structure"@) {
        lemma_nodes_read(structure, 0);
    }
}

proof fn lemma_trees_read(items: Seq<JsonView>, from: int, before: Seq<TreeView>)
    requires
        0 <= from <= items.len(),
    ensures
        trees_from(items, from, before) is Ok <==> forall|i: int|
            from <= i < items.len() ==> tree_of(#[trigger] items[i]) is Ok,
    decreases items.len() - from,
{
    if from < items.len() {
        if let Ok(tree) = tree_of(items[from]) {
            lemma_trees_read(items, from + 1, before.push(tree));
        }
    }
}

/// Which documents are read: those with a list of trees that are all read, and with an objective
/// that has a transform.
pub proof fn well_formed_documents_are_read(root: JsonView)
    ensures
        forest_of(root) is Ok <==> {
            &&& root.at("tree_info"@) matches JsonView::Array(items) && forall|i: int|
                0 <= i < items.len() ==> tree_of(#[trigger] items[i]) is Ok
            &&& objective_transform(
                objective_name(root.at("objective"@)),
                match root.at("num_tree_per_iteration"@).unsigned() {
                    Some(n) => n as usize,
                    None => 1,
                },
            ) is Ok
        },
{
    if let JsonView::Array(items) = root.at("tree_info"@) {
        lemma_trees_read(items, 0, seq![]);
    }
}

} // verus!
