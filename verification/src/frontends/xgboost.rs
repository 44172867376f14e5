//! XGBoost JSON models.
use crate::error::{Complaint, Failure, Part, Problem};
#[allow(unused_imports)]
use crate::error::FailureView;
use crate::frontends::{Finish, ParsedModel};
#[allow(unused_imports)]
use crate::frontends::ParsedView;
use crate::ir::{
    AggregationKind, Forest, MissingDirection, Node, Operator, PostTransform, SplitKind, Tree,
};
#[allow(unused_imports)]
use crate::ir::{self, ForestView, NodeView, SplitView, TreeView};
use crate::json::{self, Json};
#[allow(unused_imports)]
use crate::json::JsonView;
use crate::number::{self, F32, F64, ONE_BITS};
use crate::text;
use vstd::prelude::*;

verus! {

/// How many splits a path may have.
pub const MAX_TREE_DEPTH: usize = 256;

pub open spec fn is_bracket(c: char) -> bool {
    c == '[' || c == ']'
}

/// `s` without square brackets at either end.
pub open spec fn without_brackets(s: Seq<char>) -> Seq<char>
    decreases s.len(),
{
    if s.len() > 0 && is_bracket(s[0]) {
        without_brackets(s.skip(1))
    } else if s.len() > 0 && is_bracket(s.last()) {
        without_brackets(s.drop_last())
    } else {
        s
    }
}

/// The doubles that the pieces from `from` on write, behind those read before, or why one of
/// them writes none. White space around a number is skipped.
pub open spec fn doubles_from(pieces: Seq<Seq<char>>, from: int, before: Seq<F64>) -> Result<
    Seq<F64>,
    Seq<char>,
>
    decreases pieces.len() - from,
{
    if from < 0 || from >= pieces.len() {
        Ok(before)
    } else {
        match number::double_of_text(text::trimmed(pieces[from])) {
            Err(fault) => Err(fault),
            Ok(bits) => doubles_from(pieces, from + 1, before.push(F64 { bits })),
        }
    }
}

/// The text of a document, or another if it is none.
pub open spec fn text_or(value: JsonView, other: Seq<char>) -> Seq<char> {
    match value.text() {
        Some(s) => s,
        None => other,
    }
}

/// The count that a document writes as text, or another if it writes none.
pub open spec fn count_or(value: JsonView, other: usize) -> usize {
    match value.text() {
        Some(s) => match text::unsigned(s, usize::MAX as int) {
            Some(n) => n as usize,
            None => other,
        },
        None => other,
    }
}

/// The transform that an objective stands for. Unknown objectives give raw scores.
pub open spec fn objective_transform(name: Seq<char>, num_class: usize) -> Result<
    PostTransform,
    FailureView,
> {
    if name == "binary:logistic"@ || name == "reg:logistic"@ {
        Ok(PostTransform::Logit)
    } else if name == "multi:softmax"@ || name == "multi:softprob"@ {
        Ok(
            PostTransform::Softmax {
                n_classes: if num_class > 2 {
                    num_class
                } else {
                    2
                },
            },
        )
    } else if name == "count:poisson"@ || name == "reg:gamma"@ || name == "reg:tweedie"@ || name
        == "survival:cox"@ || name == "survival:aft"@ {
        Ok(PostTransform::Log)
    } else if name == "binary:hinge"@ {
        Err(FailureView::Plain(Problem::HingeObjective))
    } else {
        Ok(PostTransform::Identity)
    }
}

/// Whether an objective is known to give raw scores.
pub open spec fn raw_objective(name: Seq<char>) -> bool {
    name == "binary:logitraw"@ || name == "reg:squarederror"@ || name == "reg:squaredlogerror"@
        || name == "reg:absoluteerror"@ || name == "reg:pseudohubererror"@
        || name == "reg:quantileerror"@ || name == "rank:pairwise"@ || name == "rank:ndcg"@
        || name == "rank:map"@
}

/// The name of a model's objective.
pub open spec fn objective_name(root: JsonView) -> Seq<char> {
    text_or(root.at("learner"@).at("objective"@).at("name"@), "reg:squarederror"@)
}

/// The base scores that a model starts from, and what is left to do on the single one.
pub open spec fn base_scores(written: Seq<char>, transform: PostTransform) -> Result<
    (F64, Seq<F64>, Finish),
    FailureView,
> {
    let inner = without_brackets(written);
    if text::find(inner, ',', 0) < inner.len() {
        match doubles_from(text::pieces(inner, ',', 0), 0, seq![]) {
            Ok(scores) => Ok((F64 { bits: 0 }, scores, Finish::Ready)),
            Err(fault) => Err(
                FailureView::Caused { complaint: Complaint::BaseScores, text: written, fault },
            ),
        }
    } else {
        match number::double_of_text(inner) {
            Ok(bits) => {
                let raw = F64 { bits };
                let odds = transform == PostTransform::Logit && (F64 { bits: 0 }).less(raw)
                    && raw.less(F64 { bits: ONE_BITS });
                Ok(
                    (
                        raw,
                        seq![],
                        if odds {
                            Finish::BaseLogOdds
                        } else {
                            Finish::Ready
                        },
                    ),
                )
            },
            Err(fault) => Err(
                FailureView::Caused { complaint: Complaint::BaseScore, text: written, fault },
            ),
        }
    }
}

/// The integers from `from` on behind those read before, or that one is none.
pub open spec fn integers_from(items: Seq<JsonView>, from: int, before: Seq<i64>) -> Result<
    Seq<i64>,
    FailureView,
>
    decreases items.len() - from,
{
    if from < 0 || from >= items.len() {
        Ok(before)
    } else {
        match items[from].signed() {
            None => Err(
                FailureView::About {
                    complaint: Complaint::ExpectedInteger,
                    text: json::value_debug(items[from]),
                },
            ),
            Some(n) => integers_from(items, from + 1, before.push(n)),
        }
    }
}

/// The singles from `from` on behind those read before, or that one is none.
pub open spec fn singles_from(items: Seq<JsonView>, from: int, before: Seq<F32>) -> Result<
    Seq<F32>,
    FailureView,
>
    decreases items.len() - from,
{
    if from < 0 || from >= items.len() {
        Ok(before)
    } else {
        match items[from].double() {
            None => Err(
                FailureView::About {
                    complaint: Complaint::ExpectedFloat,
                    text: json::value_debug(items[from]),
                },
            ),
            Some(x) => singles_from(items, from + 1, before.push(x.narrowed())),
        }
    }
}

/// What is said of a document that is no array: its text if it is one.
pub open spec fn no_array(value: JsonView) -> FailureView {
    FailureView::About {
        complaint: Complaint::ExpectedArray,
        text: json::text_debug(text_or(value, "?"@)),
    }
}

/// The array of integers that a member of a tree holds.
pub open spec fn integers(value: JsonView, part: Part) -> Result<Seq<i64>, FailureView> {
    let found = match value {
        JsonView::Array(items) => integers_from(items, 0, seq![]),
        _ => Err(no_array(value)),
    };
    match found {
        Ok(numbers) => Ok(numbers),
        Err(cause) => Err(FailureView::Within { part, cause: Box::new(cause) }),
    }
}

/// The array of singles that a member of a tree holds.
pub open spec fn singles(value: JsonView, part: Part) -> Result<Seq<F32>, FailureView> {
    let found = match value {
        JsonView::Array(items) => singles_from(items, 0, seq![]),
        _ => Err(no_array(value)),
    };
    match found {
        Ok(numbers) => Ok(numbers),
        Err(cause) => Err(FailureView::Within { part, cause: Box::new(cause) }),
    }
}

/// The parallel arrays of a tree.
pub ghost struct ArraysView {
    pub left: Seq<i64>,
    pub right: Seq<i64>,
    pub feat: Seq<i64>,
    pub cond: Seq<F32>,
    pub def_left: Seq<i64>,
}

impl ArraysView {
    /// Whether the arrays have the same length.
    pub open spec fn aligned(self) -> bool {
        self.left.len() == self.right.len() && self.left.len() == self.feat.len()
            && self.left.len() == self.cond.len() && self.left.len() == self.def_left.len()
    }

    /// The tree below node `id`, which is `depth` splits away from the root.
    pub open spec fn node(self, id: i64, depth: int) -> Result<NodeView, FailureView>
        decreases MAX_TREE_DEPTH + 1 - depth,
    {
        if depth > MAX_TREE_DEPTH {
            Err(FailureView::Plain(Problem::TooDeep))
        } else if id < 0 || id >= self.left.len() {
            Err(FailureView::Plain(Problem::NodeOutOfBounds { id }))
        } else {
            let at = id as int;
            let left = self.left[at];
            let right = self.right[at];
            if left == -1 {
                Ok(NodeView::Leaf { value: self.cond[at].widened() })
            } else if left < 0 || right < 0 {
                Err(FailureView::Plain(Problem::InvalidChild { id, left, right }))
            } else {
                match self.node(left, depth + 1) {
                    Err(e) => Err(e),
                    Ok(yes) => match self.node(right, depth + 1) {
                        Err(e) => Err(e),
                        Ok(no) => Ok(
                            NodeView::Split {
                                feature_idx: self.feat[at] as usize,
                                split: SplitView::Numeric {
                                    threshold: self.cond[at],
                                    operator: Operator::LessThan,
                                },
                                left: Box::new(yes),
                                right: Box::new(no),
                                missing: if self.def_left[at] != 0 {
                                    MissingDirection::Left
                                } else {
                                    MissingDirection::Right
                                },
                            },
                        ),
                    },
                }
            }
        }
    }
}

/// Whether a tree has native splits on categories.
pub open spec fn has_native_categories(tree: JsonView) -> bool {
    ||| tree.at("split_type"@) matches JsonView::Array(items) && exists|i: int|
        0 <= i < items.len() && (#[trigger] items[i]).signed() is Some && items[i].signed()
            != Some(0i64)
    ||| tree.at("categories_nodes"@) matches JsonView::Array(items) && items.len() > 0
}

/// The arrays of a tree.
pub open spec fn arrays_of(tree: JsonView) -> Result<ArraysView, FailureView> {
    match integers(tree.at("left_children"@), Part::LeftChildren) {
        Err(e) => Err(e),
        Ok(left) => match integers(tree.at("right_children"@), Part::RightChildren) {
            Err(e) => Err(e),
            Ok(right) => match integers(tree.at("split_indices"@), Part::SplitIndices) {
                Err(e) => Err(e),
                Ok(feat) => match singles(tree.at("split_conditions"@), Part::SplitConditions) {
                    Err(e) => Err(e),
                    Ok(cond) => match integers(tree.at("default_left"@), Part::DefaultLeft) {
                        Err(e) => Err(e),
                        Ok(def_left) => {
                            let arrays = ArraysView { left, right, feat, cond, def_left };
                            if arrays.aligned() {
                                Ok(arrays)
                            } else {
                                Err(FailureView::Plain(Problem::ArrayLengths))
                            }
                        },
                    },
                },
            },
        },
    }
}

/// The tree that a document describes.
pub open spec fn tree_of(tree: JsonView) -> Result<TreeView, FailureView> {
    if has_native_categories(tree) {
        Err(FailureView::Plain(Problem::CategoricalSplits))
    } else {
        match arrays_of(tree) {
            Err(e) => Err(e),
            Ok(arrays) => match arrays.node(0, 0) {
                Err(e) => Err(e),
                Ok(root) => Ok(TreeView { root, weight: F64 { bits: ONE_BITS } }),
            },
        }
    }
}

/// The trees from `from` on behind those read before, or the first failure among them.
pub open spec fn trees_from(items: Seq<JsonView>, from: int, before: Seq<TreeView>) -> Result<
    Seq<TreeView>,
    FailureView,
>
    decreases items.len() - from,
{
    if from < 0 || from >= items.len() {
        Ok(before)
    } else {
        match tree_of(items[from]) {
            Err(cause) => Err(
                FailureView::Within {
                    part: Part::Tree { index: from as usize },
                    cause: Box::new(cause),
                },
            ),
            Ok(tree) => trees_from(items, from + 1, before.push(tree)),
        }
    }
}

/// The weight that a dropped-out tree has: a number, a text that writes one, or else one.
pub open spec fn drop_weight(value: JsonView) -> F64 {
    match value.double() {
        Some(x) => x,
        None => match value.text() {
            Some(s) => match number::double_of_text(s) {
                Ok(bits) => F64 { bits },
                Err(_) => F64 { bits: ONE_BITS },
            },
            None => F64 { bits: ONE_BITS },
        },
    }
}

/// The trees with the weights that dropout training gave them, if it did.
pub open spec fn weighted(trees: Seq<TreeView>, weights: JsonView) -> Result<
    Seq<TreeView>,
    FailureView,
> {
    match weights {
        JsonView::Array(items) => if items.len() != trees.len() {
            Err(
                FailureView::Plain(
                    Problem::WeightDrop {
                        weights: items.len() as usize,
                        trees: trees.len() as usize,
                    },
                ),
            )
        } else {
            Ok(
                Seq::new(
                    trees.len(),
                    |i: int| TreeView { root: trees[i].root, weight: drop_weight(items[i]) },
                ),
            )
        },
        _ => Ok(trees),
    }
}

/// The trees of a booster.
pub open spec fn booster_trees(booster: JsonView) -> Result<Seq<TreeView>, FailureView> {
    let name = text_or(booster.at("name"@), "gbtree"@);
    let model = if name == "dart"@ {
        booster.at("gbtree"@).at("model"@)
    } else {
        booster.at("model"@)
    };
    if name == "gblinear"@ {
        Err(FailureView::Plain(Problem::LinearBooster))
    } else {
        match model.at("trees"@) {
            JsonView::Array(items) => match trees_from(items, 0, seq![]) {
                Err(e) => Err(e),
                Ok(trees) => weighted(trees, booster.at("weight_drop"@)),
            },
            _ => Err(FailureView::Plain(Problem::TreesNotArray)),
        }
    }
}

/// The model that a document describes.
pub open spec fn model_of(root: JsonView) -> Result<ParsedView, FailureView> {
    match root.get("learner"@) {
        None => Err(FailureView::Plain(Problem::MissingLearner)),
        Some(learner) => {
            let param = learner.at("learner_model_param"@);
            let targets = count_or(param.at("num_target"@), 1);
            let name = text_or(learner.at("objective"@).at("name"@), "reg:squarederror"@);
            if targets > 1 {
                Err(FailureView::Plain(Problem::MultiOutput { targets }))
            } else {
                match objective_transform(name, count_or(param.at("num_class"@), 0)) {
                    Err(e) => Err(e),
                    Ok(post_transform) => match base_scores(
                        text_or(param.at("base_score"@), "0.5"@),
                        post_transform,
                    ) {
                        Err(e) => Err(e),
                        Ok((base_score, base_scores, finish)) => match booster_trees(
                            learner.at("gradient_booster"@),
                        ) {
                            Err(e) => Err(e),
                            Ok(trees) => Ok(
                                ParsedView {
                                    forest: ForestView {
                                        trees,
                                        base_score,
                                        base_scores,
                                        aggregation: AggregationKind::Sum,
                                        post_transform,
                                        catboost_metadata: None,
                                    },
                                    finish,
                                },
                            ),
                        },
                    },
                }
            }
        },
    }
}

fn trim_brackets(written: &str) -> (r: String)
    ensures
        r@ == without_brackets(written@),
{
    let chars = text::to_chars(written);
    let mut start: usize = 0;
    assert(written@.subrange(0, written@.len() as int) =~= written@);
    while start < chars.len() && (chars[start] == '[' || chars[start] == ']')
        invariant
            start <= chars.len(),
            chars@ == written@,
            without_brackets(written@) == without_brackets(
                written@.subrange(start as int, written@.len() as int),
            ),
        decreases chars.len() - start,
    {
        proof {
            let rest = written@.subrange(start as int, written@.len() as int);
            assert(rest.skip(1) =~= written@.subrange(start + 1, written@.len() as int));
        }
        start = start + 1;
    }
    let mut end: usize = chars.len();
    while end > start && (chars[end - 1] == '[' || chars[end - 1] == ']')
        invariant
            start <= end <= chars.len(),
            chars@ == written@,
            start < chars.len() ==> !is_bracket(chars[start as int]),
            without_brackets(written@) == without_brackets(
                written@.subrange(start as int, end as int),
            ),
        decreases end - start,
    {
        proof {
            let rest = written@.subrange(start as int, end as int);
            assert(rest.drop_last() =~= written@.subrange(start as int, end - 1));
        }
        end = end - 1;
    }
    proof {
        let rest = written@.subrange(start as int, end as int);
        if rest.len() > 0 {
            assert(rest[0] == chars[start as int]);
            assert(rest.last() == chars[end - 1]);
        }
    }
    text::piece(&chars, start, end)
}

fn parse_doubles(pieces: &Vec<String>) -> (r: Result<Vec<F64>, String>)
    ensures
        doubles_from(text::views(pieces@), 0, seq![]) == (match r {
            Ok(numbers) => Ok::<Seq<F64>, Seq<char>>(numbers@),
            Err(fault) => Err(fault@),
        }),
{
    let mut numbers: Vec<F64> = Vec::new();
    let mut i: usize = 0;
    while i < pieces.len()
        invariant
            i <= pieces.len(),
            doubles_from(text::views(pieces@), 0, seq![]) == doubles_from(
                text::views(pieces@),
                i as int,
                numbers@,
            ),
        decreases pieces.len() - i,
    {
        assert(text::views(pieces@)[i as int] == pieces[i as int]@);
        match number::parse_double(text::trim(pieces[i].as_str()).as_str()) {
            Err(fault) => {
                return Err(fault);
            },
            Ok(bits) => {
                numbers.push(F64 { bits });
            },
        }
        i = i + 1;
    }
    Ok(numbers)
}

fn text_or_else<'a>(value: &'a Json, other: &'a str) -> (r: &'a str)
    ensures
        r@ == text_or(json::document(*value), other@),
{
    match json::as_text(value) {
        Some(s) => s.as_str(),
        None => other,
    }
}

fn count_or_else(value: &Json, other: usize) -> (r: usize)
    ensures
        r == count_or(json::document(*value), other),
{
    match json::as_text(value) {
        Some(s) => match text::parse_unsigned(s.as_str(), usize::MAX as u64) {
            Some(n) => n as usize,
            None => other,
        },
        None => other,
    }
}

/// The transform that an objective stands for.
pub fn post_transform_for_objective(name: &str, num_class: usize) -> (r: Result<
    PostTransform,
    Failure,
>)
    ensures
        match r {
            Ok(transform) => objective_transform(name@, num_class) == Ok::<
                PostTransform,
                FailureView,
            >(transform),
            Err(e) => objective_transform(name@, num_class) == Err::<PostTransform, FailureView>(
                e@,
            ),
        },
{
    if text::same(name, "binary:logistic") || text::same(name, "reg:logistic") {
        Ok(PostTransform::Logit)
    } else if text::same(name, "multi:softmax") || text::same(name, "multi:softprob") {
        let n_classes: usize = if num_class > 2 {
            num_class
        } else {
            2
        };
        Ok(PostTransform::Softmax { n_classes })
    } else if text::same(name, "count:poisson") || text::same(name, "reg:gamma") || text::same(
        name,
        "reg:tweedie",
    ) || text::same(name, "survival:cox") || text::same(name, "survival:aft") {
        Ok(PostTransform::Log)
    } else if text::same(name, "binary:hinge") {
        Err(Failure::Plain(Problem::HingeObjective))
    } else {
        Ok(PostTransform::Identity)
    }
}

/// Whether an objective is known: to have a transform, to have one that cannot be expressed, or
/// to give raw scores.
pub fn is_known_objective(name: &str) -> (r: bool)
    ensures
        r == (objective_transform(name@, 0) != Ok::<PostTransform, FailureView>(
            PostTransform::Identity,
        ) || raw_objective(name@)),
{
    match post_transform_for_objective(name, 0) {
        Ok(PostTransform::Identity) => is_raw_objective(name),
        _ => true,
    }
}

fn is_raw_objective(name: &str) -> (r: bool)
    ensures
        r == raw_objective(name@),
{
    text::same(name, "binary:logitraw") || text::same(name, "reg:squarederror")
        || text::same(name, "reg:squaredlogerror") || text::same(name, "reg:absoluteerror")
        || text::same(name, "reg:pseudohubererror") || text::same(name, "reg:quantileerror")
        || text::same(name, "rank:pairwise") || text::same(name, "rank:ndcg")
        || text::same(name, "rank:map")
}

/// The name of a model's objective.
pub fn objective(root: &Json) -> (r: String)
    ensures
        r@ == objective_name(json::document(*root)),
{
    let stated = json::at(json::at(json::at(root, "learner"), "objective"), "name");
    text_or_else(stated, "reg:squarederror").to_owned()
}

fn parse_base_scores(written: &str, transform: PostTransform) -> (r: Result<
    (F64, Vec<F64>, Finish),
    Failure,
>)
    ensures
        match r {
            Ok((score, scores, finish)) => base_scores(written@, transform) == Ok::<
                (F64, Seq<F64>, Finish),
                FailureView,
            >((score, scores@, finish)),
            Err(e) => base_scores(written@, transform) == Err::<
                (F64, Seq<F64>, Finish),
                FailureView,
            >(e@),
        },
{
    let inner = trim_brackets(written);
    let chars = text::to_chars(inner.as_str());
    if text::find_char(&chars, ',', 0) < chars.len() {
        let pieces = text::split(inner.as_str(), ',');
        match parse_doubles(&pieces) {
            Ok(scores) => Ok((F64 { bits: 0 }, scores, Finish::Ready)),
            Err(fault) => Err(
                Failure::Caused {
                    complaint: Complaint::BaseScores,
                    text: written.to_owned(),
                    fault,
                },
            ),
        }
    } else {
        match number::parse_double(inner.as_str()) {
            Err(fault) => Err(
                Failure::Caused {
                    complaint: Complaint::BaseScore,
                    text: written.to_owned(),
                    fault,
                },
            ),
            Ok(bits) => {
                let raw = F64 { bits };
                let odds: bool = transform == PostTransform::Logit && (F64 { bits: 0 }).lt(raw)
                    && raw.lt(F64 { bits: ONE_BITS });
                let finish = if odds {
                    Finish::BaseLogOdds
                } else {
                    Finish::Ready
                };
                let none: Vec<F64> = Vec::new();
                assert(none@ =~= seq![]);
                Ok((raw, none, finish))
            },
        }
    }
}

fn within<T>(found: Result<T, Failure>, part: Part) -> (r: Result<T, Failure>)
    ensures
        match found {
            Ok(value) => r == Ok::<T, Failure>(value),
            Err(cause) => r matches Err(e) && e@ == (FailureView::Within {
                part,
                cause: Box::new(cause@),
            }),
        },
{
    match found {
        Ok(value) => Ok(value),
        Err(cause) => Err(Failure::Within { part, cause: Box::new(cause) }),
    }
}

fn expected_array(value: &Json) -> (r: Failure)
    ensures
        r@ == no_array(json::document(*value)),
{
    Failure::About {
        complaint: Complaint::ExpectedArray,
        text: json::quote(text_or_else(value, "?")),
    }
}

fn int_array(value: &Json, part: Part) -> (r: Result<Vec<i64>, Failure>)
    ensures
        match r {
            Ok(numbers) => integers(json::document(*value), part) == Ok::<Seq<i64>, FailureView>(
                numbers@,
            ),
            Err(e) => integers(json::document(*value), part) == Err::<Seq<i64>, FailureView>(e@),
        },
{
    let items = match json::as_array(value) {
        Some(items) => items,
        None => {
            return within(Err(expected_array(value)), part);
        },
    };
    let mut numbers: Vec<i64> = Vec::new();
    let mut i: usize = 0;
    while i < items.len()
        invariant
            i <= items.len(),
            json::document(*value) == JsonView::Array(json::json_views(items@)),
            integers_from(json::json_views(items@), 0, seq![]) == integers_from(
                json::json_views(items@),
                i as int,
                numbers@,
            ),
        decreases items.len() - i,
    {
        assert(json::json_views(items@)[i as int] == json::document(items[i as int]));
        match json::as_signed(&items[i]) {
            None => {
                let text = json::describe(&items[i]);
                return within(
                    Err(Failure::About { complaint: Complaint::ExpectedInteger, text }),
                    part,
                );
            },
            Some(n) => {
                numbers.push(n);
            },
        }
        i = i + 1;
    }
    Ok(numbers)
}

fn float_array(value: &Json, part: Part) -> (r: Result<Vec<F32>, Failure>)
    ensures
        match r {
            Ok(numbers) => singles(json::document(*value), part) == Ok::<Seq<F32>, FailureView>(
                numbers@,
            ),
            Err(e) => singles(json::document(*value), part) == Err::<Seq<F32>, FailureView>(e@),
        },
{
    let items = match json::as_array(value) {
        Some(items) => items,
        None => {
            return within(Err(expected_array(value)), part);
        },
    };
    let mut numbers: Vec<F32> = Vec::new();
    let mut i: usize = 0;
    while i < items.len()
        invariant
            i <= items.len(),
            json::document(*value) == JsonView::Array(json::json_views(items@)),
            singles_from(json::json_views(items@), 0, seq![]) == singles_from(
                json::json_views(items@),
                i as int,
                numbers@,
            ),
        decreases items.len() - i,
    {
        assert(json::json_views(items@)[i as int] == json::document(items[i as int]));
        match json::as_double(&items[i]) {
            None => {
                let text = json::describe(&items[i]);
                return within(
                    Err(Failure::About { complaint: Complaint::ExpectedFloat, text }),
                    part,
                );
            },
            Some(x) => {
                numbers.push(x.narrow());
            },
        }
        i = i + 1;
    }
    Ok(numbers)
}

/// The parallel arrays of a tree: entry `i` of each is node `i`. The left child of a leaf
/// is -1, and its condition is its value.
struct Arrays {
    left: Vec<i64>,
    right: Vec<i64>,
    feat: Vec<i64>,
    cond: Vec<F32>,
    def_left: Vec<i64>,
}

impl View for Arrays {
    type V = ArraysView;

    closed spec fn view(&self) -> ArraysView {
        ArraysView {
            left: self.left@,
            right: self.right@,
            feat: self.feat@,
            cond: self.cond@,
            def_left: self.def_left@,
        }
    }
}

impl Arrays {
    /// The tree below node `id`.
    fn build_node(&self, id: i64, depth: usize) -> (r: Result<Node, Failure>)
        requires
            self@.aligned(),
            depth <= MAX_TREE_DEPTH + 1,
        ensures
            match r {
                Ok(node) => self@.node(id, depth as int) == Ok::<NodeView, FailureView>(node@),
                Err(e) => self@.node(id, depth as int) == Err::<NodeView, FailureView>(e@),
            },
        decreases MAX_TREE_DEPTH + 1 - depth,
    {
        if depth > MAX_TREE_DEPTH {
            return Err(Failure::Plain(Problem::TooDeep));
        }
        if id < 0 || id as u64 >= self.left.len() as u64 {
            return Err(Failure::Plain(Problem::NodeOutOfBounds { id }));
        }
        let at: usize = id as usize;
        let left: i64 = self.left[at];
        let right: i64 = self.right[at];
        if left == -1 {
            return Ok(Node::Leaf { value: self.cond[at].widen() });
        }
        if left < 0 || right < 0 {
            return Err(Failure::Plain(Problem::InvalidChild { id, left, right }));
        }
        let yes = match self.build_node(left, depth + 1) {
            Ok(node) => node,
            Err(e) => {
                return Err(e);
            },
        };
        let no = match self.build_node(right, depth + 1) {
            Ok(node) => node,
            Err(e) => {
                return Err(e);
            },
        };
        Ok(
            Node::Split {
                feature_idx: self.feat[at] as usize,
                split: SplitKind::Numeric {
                    threshold: self.cond[at],
                    operator: Operator::LessThan,
                },
                left_child: Box::new(yes),
                right_child: Box::new(no),
                missing_direction: if self.def_left[at] != 0 {
                    MissingDirection::Left
                } else {
                    MissingDirection::Right
                },
            },
        )
    }
}

fn native_categories(tree: &Json) -> (r: bool)
    ensures
        r == has_native_categories(json::document(*tree)),
{
    let nodes = json::at(tree, "categories_nodes");
    match json::as_array(nodes) {
        Some(items) => {
            if items.len() > 0 {
                return true;
            }
        },
        None => {},
    }
    let types = json::at(tree, "split_type");
    match json::as_array(types) {
        None => false,
        Some(items) => {
            let mut i: usize = 0;
            while i < items.len()
                invariant
                    i <= items.len(),
                    json::document(*tree).at("split_type"@) == JsonView::Array(
                        json::json_views(items@),
                    ),
                    json::document(*tree).at("categories_nodes"@) matches JsonView::Array(others)
                        ==> others.len() == 0,
                    forall|j: int|
                        0 <= j < i ==> (#[trigger] json::json_views(items@)[j]).signed() is None
                            || json::json_views(items@)[j].signed() == Some(0i64),
                decreases items.len() - i,
            {
                assert(json::json_views(items@)[i as int] == json::document(items[i as int]));
                match json::as_signed(&items[i]) {
                    Some(n) => {
                        if n != 0 {
                            return true;
                        }
                    },
                    None => {},
                }
                i = i + 1;
            }
            false
        },
    }
}

fn parse_arrays(tree: &Json) -> (r: Result<Arrays, Failure>)
    ensures
        match r {
            Ok(arrays) => arrays_of(json::document(*tree)) == Ok::<ArraysView, FailureView>(arrays@)
                && arrays@.aligned(),
            Err(e) => arrays_of(json::document(*tree)) == Err::<ArraysView, FailureView>(e@),
        },
{
    let left = match int_array(json::at(tree, "left_children"), Part::LeftChildren) {
        Ok(numbers) => numbers,
        Err(e) => {
            return Err(e);
        },
    };
    let right = match int_array(json::at(tree, "right_children"), Part::RightChildren) {
        Ok(numbers) => numbers,
        Err(e) => {
            return Err(e);
        },
    };
    let feat = match int_array(json::at(tree, "split_indices"), Part::SplitIndices) {
        Ok(numbers) => numbers,
        Err(e) => {
            return Err(e);
        },
    };
    let cond = match float_array(json::at(tree, "split_conditions"), Part::SplitConditions) {
        Ok(numbers) => numbers,
        Err(e) => {
            return Err(e);
        },
    };
    let def_left = match int_array(json::at(tree, "default_left"), Part::DefaultLeft) {
        Ok(numbers) => numbers,
        Err(e) => {
            return Err(e);
        },
    };
    let n: usize = left.len();
    if right.len() != n || feat.len() != n || cond.len() != n || def_left.len() != n {
        return Err(Failure::Plain(Problem::ArrayLengths));
    }
    Ok(Arrays { left, right, feat, cond, def_left })
}

fn parse_tree(tree: &Json) -> (r: Result<Tree, Failure>)
    ensures
        match r {
            Ok(t) => tree_of(json::document(*tree)) == Ok::<TreeView, FailureView>(t@),
            Err(e) => tree_of(json::document(*tree)) == Err::<TreeView, FailureView>(e@),
        },
{
    if native_categories(tree) {
        return Err(Failure::Plain(Problem::CategoricalSplits));
    }
    match parse_arrays(tree) {
        Err(e) => Err(e),
        Ok(arrays) => match arrays.build_node(0, 0) {
            Err(e) => Err(e),
            Ok(root) => Ok(Tree { root, weight: F64 { bits: ONE_BITS } }),
        },
    }
}

fn parse_trees(items: &Vec<Json>) -> (r: Result<Vec<Tree>, Failure>)
    ensures
        match r {
            Ok(trees) => trees_from(json::json_views(items@), 0, seq![]) == Ok::<
                Seq<TreeView>,
                FailureView,
            >(ir::tree_views(trees@)),
            Err(e) => trees_from(json::json_views(items@), 0, seq![]) == Err::<
                Seq<TreeView>,
                FailureView,
            >(e@),
        },
{
    let mut trees: Vec<Tree> = Vec::new();
    let mut i: usize = 0;
    assert(ir::tree_views(trees@) =~= seq![]);
    while i < items.len()
        invariant
            i <= items.len(),
            trees_from(json::json_views(items@), 0, seq![]) == trees_from(
                json::json_views(items@),
                i as int,
                ir::tree_views(trees@),
            ),
        decreases items.len() - i,
    {
        let ghost before = ir::tree_views(trees@);
        assert(json::json_views(items@)[i as int] == json::document(items[i as int]));
        match parse_tree(&items[i]) {
            Err(cause) => {
                return Err(
                    Failure::Within { part: Part::Tree { index: i }, cause: Box::new(cause) },
                );
            },
            Ok(tree) => {
                trees.push(tree);
                proof {
                    assert(ir::tree_views(trees@) =~= before.push(tree@));
                }
            },
        }
        i = i + 1;
    }
    Ok(trees)
}

fn parse_drop_weight(value: &Json) -> (r: F64)
    ensures
        r == drop_weight(json::document(*value)),
{
    match json::as_double(value) {
        Some(x) => x,
        None => match json::as_text(value) {
            Some(s) => match number::parse_double(s.as_str()) {
                Ok(bits) => F64 { bits },
                Err(_) => F64 { bits: ONE_BITS },
            },
            None => F64 { bits: ONE_BITS },
        },
    }
}

fn apply_weights(trees: Vec<Tree>, weights: &Json) -> (r: Result<Vec<Tree>, Failure>)
    ensures
        match r {
            Ok(out) => weighted(ir::tree_views(trees@), json::document(*weights)) == Ok::<
                Seq<TreeView>,
                FailureView,
            >(ir::tree_views(out@)),
            Err(e) => weighted(ir::tree_views(trees@), json::document(*weights)) == Err::<
                Seq<TreeView>,
                FailureView,
            >(e@),
        },
{
    let items = match json::as_array(weights) {
        Some(items) => items,
        None => {
            return Ok(trees);
        },
    };
    if items.len() != trees.len() {
        return Err(
            Failure::Plain(Problem::WeightDrop { weights: items.len(), trees: trees.len() }),
        );
    }
    let mut out: Vec<Tree> = Vec::new();
    let mut i: usize = 0;
    while i < trees.len()
        invariant
            i <= trees.len() == items.len(),
            out.len() == i,
            forall|j: int|
                0 <= j < i ==> (#[trigger] out[j])@ == (TreeView {
                    root: trees[j].root@,
                    weight: drop_weight(json::document(items[j])),
                }),
        decreases trees.len() - i,
    {
        let weight = parse_drop_weight(&items[i]);
        out.push(Tree { root: trees[i].root.clone(), weight });
        i = i + 1;
    }
    proof {
        let views = ir::tree_views(trees@);
        let documents = json::json_views(items@);
        assert(ir::tree_views(out@) =~= Seq::new(
            views.len(),
            |k: int| TreeView { root: views[k].root, weight: drop_weight(documents[k]) },
        ));
    }
    Ok(out)
}

fn parse_booster(booster: &Json) -> (r: Result<Vec<Tree>, Failure>)
    ensures
        match r {
            Ok(trees) => booster_trees(json::document(*booster)) == Ok::<
                Seq<TreeView>,
                FailureView,
            >(ir::tree_views(trees@)),
            Err(e) => booster_trees(json::document(*booster)) == Err::<Seq<TreeView>, FailureView>(
                e@,
            ),
        },
{
    let name = text_or_else(json::at(booster, "name"), "gbtree");
    if text::same(name, "gblinear") {
        return Err(Failure::Plain(Problem::LinearBooster));
    }
    let model = if text::same(name, "dart") {
        json::at(json::at(booster, "gbtree"), "model")
    } else {
        json::at(booster, "model")
    };
    match json::as_array(json::at(model, "trees")) {
        None => Err(Failure::Plain(Problem::TreesNotArray)),
        Some(items) => match parse_trees(items) {
            Err(e) => Err(e),
            Ok(trees) => apply_weights(trees, json::at(booster, "weight_drop")),
        },
    }
}

/// Reads an XGBoost model. Dropout boosters (DART) weigh their trees by `weight_drop`.
pub fn parse_json(root: &Json) -> (r: Result<ParsedModel, Failure>)
    ensures
        match r {
            Ok(model) => model_of(json::document(*root)) == Ok::<ParsedView, FailureView>(model@),
            Err(e) => model_of(json::document(*root)) == Err::<ParsedView, FailureView>(e@),
        },
{
    let learner = match json::get(root, "learner") {
        Some(learner) => learner,
        None => {
            return Err(Failure::Plain(Problem::MissingLearner));
        },
    };
    let param = json::at(learner, "learner_model_param");
    let written = text_or_else(json::at(param, "base_score"), "0.5");
    let num_class: usize = count_or_else(json::at(param, "num_class"), 0);
    let targets: usize = count_or_else(json::at(param, "num_target"), 1);
    if targets > 1 {
        return Err(Failure::Plain(Problem::MultiOutput { targets }));
    }
    let name = text_or_else(json::at(json::at(learner, "objective"), "name"), "reg:squarederror");
    let post_transform = match post_transform_for_objective(name, num_class) {
        Ok(transform) => transform,
        Err(e) => {
            return Err(e);
        },
    };
    let (base_score, scores, finish) = match parse_base_scores(written, post_transform) {
        Ok(found) => found,
        Err(e) => {
            return Err(e);
        },
    };
    match parse_booster(json::at(learner, "gradient_booster")) {
        Err(e) => Err(e),
        Ok(trees) => Ok(
            ParsedModel {
                forest: Forest {
                    trees,
                    base_score,
                    base_scores: scores,
                    aggregation: AggregationKind::Sum,
                    post_transform,
                    catboost_metadata: None,
                },
                finish,
            },
        ),
    }
}

proof fn lemma_node(arrays: ArraysView, id: i64, depth: int)
    ensures
        arrays.node(id, depth) matches Ok(tree) ==> tree.numeric_only() && tree.sound()
            && tree.depth() + depth <= MAX_TREE_DEPTH,
    decreases MAX_TREE_DEPTH + 1 - depth,
{
    if depth <= MAX_TREE_DEPTH && 0 <= id < arrays.left.len() {
        lemma_node(arrays, arrays.left[id as int], depth + 1);
        lemma_node(arrays, arrays.right[id as int], depth + 1);
    }
}

/// What holds of every tree that is read.
pub open spec fn tame(tree: TreeView) -> bool {
    tree.root.numeric_only() && tree.root.sound() && tree.root.depth() <= MAX_TREE_DEPTH
}

proof fn lemma_trees(items: Seq<JsonView>, from: int, before: Seq<TreeView>)
    requires
        forall|i: int| 0 <= i < before.len() ==> tame(#[trigger] before[i]),
    ensures
        trees_from(items, from, before) matches Ok(trees) ==> forall|i: int|
            0 <= i < trees.len() ==> tame(#[trigger] trees[i]),
    decreases items.len() - from,
{
    if 0 <= from < items.len() {
        if let Ok(tree) = tree_of(items[from]) {
            lemma_node(arrays_of(items[from])->Ok_0, 0, 0);
            lemma_trees(items, from + 1, before.push(tree));
        }
    }
}

/// A forest read from a document has numeric splits only, so every layout and the
/// interpreter can take it, and no path in it is longer than the limit.
pub proof fn parsed_forests_are_numeric(root: JsonView)
    ensures
        model_of(root) matches Ok(model) ==> model.forest.sound()
            && model.forest.catboost_metadata is None && forall|i: int|
            0 <= i < model.forest.trees.len() ==> tame(#[trigger] model.forest.trees[i]),
{
    if let Some(learner) = root.get("learner"@) {
        let booster = learner.at("gradient_booster"@);
        let name = text_or(booster.at("name"@), "gbtree"@);
        let model = if name == "dart"@ {
            booster.at("gbtree"@).at("model"@)
        } else {
            booster.at("model"@)
        };
        if let JsonView::Array(items) = model.at("trees"@) {
            lemma_trees(items, 0, seq![]);
        }
    }
}

/// What stands at place `id` of an array in a tree.
pub open spec fn entry(tree: JsonView, member: Seq<char>, id: int) -> JsonView {
    match tree.at(member) {
        JsonView::Array(items) => items[id],
        _ => JsonView::Null,
    }
}

/// Whether every feature that a tree tests has a number that an index can have.
pub open spec fn features_fit(tree: JsonView) -> bool {
    tree.at("split_indices"@) matches JsonView::Array(items) ==> forall|id: int|
        0 <= id < items.len() ==> ((#[trigger] items[id]).signed() matches Some(feature)
            ==> 0 <= feature <= usize::MAX)
}

/// Where the arrays of a tree lead a row from node `id` on: a node without a left child holds
/// its value in place of a condition; at any other, a value below the condition goes left, and
/// a missing value goes left if the node says so. Nothing if the row has no such feature, or
/// if it takes more than `steps` steps.
pub open spec fn walk(tree: JsonView, id: int, row: Seq<F32>, steps: nat) -> Option<F64>
    decreases steps,
{
    let condition = entry(tree, "split_conditions"@, id).double()->0.narrowed();
    if entry(tree, "left_children"@, id).signed() == Some(-1i64) {
        Some(condition.widened())
    } else if steps == 0 {
        None
    } else {
        let feature = entry(tree, "split_indices"@, id).signed()->0;
        if 0 <= feature < row.len() {
            let value = row[feature as int];
            let goes_left = if value.nan() {
                entry(tree, "default_left"@, id).signed() != Some(0i64)
            } else {
                value.less(condition)
            };
            let next = if goes_left {
                entry(tree, "left_children"@, id).signed()->0
            } else {
                entry(tree, "right_children"@, id).signed()->0
            };
            walk(tree, next as int, row, (steps - 1) as nat)
        } else {
            None
        }
    }
}

proof fn lemma_integers(items: Seq<JsonView>, from: int, before: Seq<i64>)
    requires
        0 <= from <= items.len(),
    ensures
        integers_from(items, from, before) matches Ok(numbers) ==> {
            &&& numbers.len() == before.len() + items.len() - from
            &&& forall|i: int| 0 <= i < before.len() ==> numbers[i] == #[trigger] before[i]
            &&& forall|i: int|
                from <= i < items.len() ==> (#[trigger] items[i]).signed() == Some(
                    numbers[before.len() + i - from],
                )
        },
    decreases items.len() - from,
{
    if from < items.len() {
        if let Some(n) = items[from].signed() {
            let longer = before.push(n);
            lemma_integers(items, from + 1, longer);
            if let Ok(numbers) = integers_from(items, from, before) {
                assert forall|i: int| 0 <= i < before.len() implies numbers[i]
                    == #[trigger] before[i] by {
                    assert(longer[i] == before[i]);
                }
                assert(numbers[before.len() as int] == longer[before.len() as int]);
                assert forall|i: int| from <= i < items.len() implies (
                #[trigger] items[i]).signed() == Some(numbers[before.len() + i - from]) by {
                    if i > from {
                        assert(numbers[longer.len() + i - (from + 1)] == numbers[before.len() + i
                            - from]);
                    }
                }
            }
        }
    }
}

proof fn lemma_singles(items: Seq<JsonView>, from: int, before: Seq<F32>)
    requires
        0 <= from <= items.len(),
    ensures
        singles_from(items, from, before) matches Ok(numbers) ==> {
            &&& numbers.len() == before.len() + items.len() - from
            &&& forall|i: int| 0 <= i < before.len() ==> numbers[i] == #[trigger] before[i]
            &&& forall|i: int|
                from <= i < items.len() ==> ((#[trigger] items[i]).double() matches Some(x)
                    && numbers[before.len() + i - from] == x.narrowed())
        },
    decreases items.len() - from,
{
    if from < items.len() {
        if let Some(x) = items[from].double() {
            let longer = before.push(x.narrowed());
            lemma_singles(items, from + 1, longer);
            if let Ok(numbers) = singles_from(items, from, before) {
                assert forall|i: int| 0 <= i < before.len() implies numbers[i]
                    == #[trigger] before[i] by {
                    assert(longer[i] == before[i]);
                }
                assert(numbers[before.len() as int] == longer[before.len() as int]);
                assert forall|i: int| from <= i < items.len() implies ((
                #[trigger] items[i]).double() matches Some(y) && numbers[before.len() + i - from]
                    == y.narrowed()) by {
                    if i > from {
                        assert(numbers[longer.len() + i - (from + 1)] == numbers[before.len() + i
                            - from]);
                    }
                }
            }
        }
    }
}

/// Whether arrays hold, place by place, what a tree's document writes.
spec fn written(tree: JsonView, arrays: ArraysView) -> bool {
    &&& arrays.aligned()
    &&& tree.at("split_indices"@) matches JsonView::Array(items) && items.len()
        == arrays.feat.len()
    &&& forall|i: int|
        0 <= i < arrays.left.len() ==> {
            &&& entry(tree, "left_children"@, i).signed() == Some(#[trigger] arrays.left[i])
            &&& entry(tree, "right_children"@, i).signed() == Some(arrays.right[i])
            &&& entry(tree, "split_indices"@, i).signed() == Some(arrays.feat[i])
            &&& entry(tree, "split_conditions"@, i).double() is Some
            &&& entry(tree, "split_conditions"@, i).double()->0.narrowed() == arrays.cond[i]
            &&& entry(tree, "default_left"@, i).signed() == Some(arrays.def_left[i])
        }
}

proof fn lemma_written(tree: JsonView)
    ensures
        arrays_of(tree) matches Ok(arrays) ==> written(tree, arrays),
{
    if let Ok(arrays) = arrays_of(tree) {
        if let JsonView::Array(items) = tree.at("left_children"@) {
            lemma_integers(items, 0, seq![]);
        }
        if let JsonView::Array(items) = tree.at("right_children"@) {
            lemma_integers(items, 0, seq![]);
        }
        if let JsonView::Array(items) = tree.at("split_indices"@) {
            lemma_integers(items, 0, seq![]);
        }
        if let JsonView::Array(items) = tree.at("default_left"@) {
            lemma_integers(items, 0, seq![]);
        }
        if let JsonView::Array(items) = tree.at("split_conditions"@) {
            lemma_singles(items, 0, seq![]);
        }
    }
}

proof fn lemma_walk(tree: JsonView, arrays: ArraysView, id: i64, depth: int, row: Seq<F32>)
    requires
        0 <= depth,
        written(tree, arrays),
        features_fit(tree),
        arrays.node(id, depth) is Ok,
    ensures
        arrays.node(id, depth)->Ok_0.value(row).ok() == walk(
            tree,
            id as int,
            row,
            (MAX_TREE_DEPTH - depth) as nat,
        ),
    decreases MAX_TREE_DEPTH + 1 - depth,
{
    let at = id as int;
    let left = arrays.left[at];
    let right = arrays.right[at];
    assert(entry(tree, "left_children"@, at).signed() == Some(left));
    if left != -1 {
        lemma_walk(tree, arrays, left, depth + 1, row);
        lemma_walk(tree, arrays, right, depth + 1, row);
        assert(depth < MAX_TREE_DEPTH);
        let feature = arrays.feat[at];
        assert(entry(tree, "split_indices"@, at).signed() == Some(feature));
        assert(0 <= feature <= usize::MAX);
        assert(feature as usize == feature);
    }
}

/// A tree that is read decides every row as its arrays do, walked from node zero.
pub proof fn trees_decide_as_their_arrays(tree: JsonView, row: Seq<F32>)
    requires
        tree_of(tree) is Ok,
        features_fit(tree),
    ensures
        tree_of(tree)->Ok_0.root.value(row).ok() == walk(tree, 0, row, MAX_TREE_DEPTH as nat),
{
    lemma_written(tree);
    lemma_walk(tree, arrays_of(tree)->Ok_0, 0, 0, row);
}

proof fn lemma_trees_in_order(items: Seq<JsonView>, from: int, before: Seq<TreeView>)
    requires
        0 <= from <= items.len(),
    ensures
        trees_from(items, from, before) matches Ok(trees) ==> {
            &&& trees.len() == before.len() + items.len() - from
            &&& forall|i: int| 0 <= i < before.len() ==> trees[i] == #[trigger] before[i]
            &&& forall|i: int|
                from <= i < items.len() ==> tree_of(#[trigger] items[i]) == Ok::<
                    TreeView,
                    FailureView,
                >(trees[before.len() + i - from])
        },
    decreases items.len() - from,
{
    if from < items.len() {
        if let Ok(tree) = tree_of(items[from]) {
            let longer = before.push(tree);
            lemma_trees_in_order(items, from + 1, longer);
            if let Ok(trees) = trees_from(items, from, before) {
                assert forall|i: int| 0 <= i < before.len() implies trees[i]
                    == #[trigger] before[i] by {
                    assert(longer[i] == before[i]);
                }
                assert(trees[before.len() as int] == longer[before.len() as int]);
                assert forall|i: int| from <= i < items.len() implies tree_of(#[trigger] items[i])
                    == Ok::<TreeView, FailureView>(trees[before.len() + i - from]) by {
                    if i > from {
                        assert(trees[longer.len() + i - (from + 1)] == trees[before.len() + i
                            - from]);
                    }
                }
            }
        }
    }
}

/// The list of trees in a booster's document: a booster trained with dropout wraps another.
pub open spec fn listed_trees(booster: JsonView) -> JsonView {
    if booster.at("name"@) == JsonView::Text("dart"@) {
        booster.at("gbtree"@).at("model"@).at("trees"@)
    } else {
        booster.at("model"@).at("trees"@)
    }
}

/// A model has the trees that its document lists, in the order of the list. A tree counts once,
/// or as often as the entry of `weight_drop` at its place says.
pub proof fn trees_come_as_listed(root: JsonView)
    requires
        model_of(root) is Ok,
    ensures
        ({
            let trees = model_of(root)->Ok_0.forest.trees;
            let booster = root.at("learner"@).at("gradient_booster"@);
            listed_trees(booster) matches JsonView::Array(items) && {
                &&& trees.len() == items.len()
                &&& forall|i: int|
                    0 <= i < items.len() ==> (tree_of(#[trigger] items[i]) matches Ok(tree)
                        && tree.root == trees[i].root)
                &&& match booster.at("weight_drop"@) {
                    JsonView::Array(weights) => weights.len() == items.len() && forall|i: int|
                        #![trigger weights[i]]
                        0 <= i < items.len() ==> (weights[i].double() matches Some(x)
                            ==> trees[i].weight == x) && (weights[i] matches JsonView::Text(s)
                            ==> (number::double_of_text(s) matches Ok(bits)
                            ==> trees[i].weight.bits == bits)),
                    _ => forall|i: int|
                        0 <= i < items.len() ==> (#[trigger] trees[i]).weight.bits
                            == 0x3ff0_0000_0000_0000,
                }
            }
        }),
{
    let booster = root.at("learner"@).at("gradient_booster"@);
    let trees = model_of(root)->Ok_0.forest.trees;
    reveal_strlit("dart");
    reveal_strlit("gbtree");
    assert("dart"@.len() == 4 && "gbtree"@.len() == 6);
    if let JsonView::Array(items) = listed_trees(booster) {
        lemma_trees_in_order(items, 0, seq![]);
        let read = trees_from(items, 0, seq![])->Ok_0;
        assert forall|i: int| 0 <= i < items.len() implies (tree_of(#[trigger] items[i]) matches Ok(
            tree,
        ) && tree.root == trees[i].root) by {
            assert(tree_of(items[i]) == Ok::<TreeView, FailureView>(read[0 + i - 0]));
        }
        assert forall|i: int| 0 <= i < items.len() implies (
        #[trigger] read[i]).weight.bits == 0x3ff0_0000_0000_0000 by {
            assert(tree_of(items[i]) == Ok::<TreeView, FailureView>(read[0 + i - 0]));
        }
    }
}

proof fn lemma_doubles(pieces: Seq<Seq<char>>, from: int, before: Seq<F64>)
    requires
        0 <= from <= pieces.len(),
    ensures
        doubles_from(pieces, from, before) matches Ok(numbers) ==> {
            &&& numbers.len() == before.len() + pieces.len() - from
            &&& forall|i: int| 0 <= i < before.len() ==> numbers[i] == #[trigger] before[i]
            &&& forall|i: int|
                from <= i < pieces.len() ==> number::double_of_text(
                    text::trimmed(#[trigger] pieces[i]),
                ) == Ok::<u64, Seq<char>>(numbers[before.len() + i - from].bits)
        },
    decreases pieces.len() - from,
{
    if from < pieces.len() {
        if let Ok(bits) = number::double_of_text(text::trimmed(pieces[from])) {
            let longer = before.push(F64 { bits });
            lemma_doubles(pieces, from + 1, longer);
            if let Ok(numbers) = doubles_from(pieces, from, before) {
                assert forall|i: int| 0 <= i < before.len() implies numbers[i]
                    == #[trigger] before[i] by {
                    assert(longer[i] == before[i]);
                }
                assert(numbers[before.len() as int] == longer[before.len() as int]);
                assert forall|i: int| from <= i < pieces.len() implies number::double_of_text(
                    text::trimmed(#[trigger] pieces[i]),
                ) == Ok::<u64, Seq<char>>(numbers[before.len() + i - from].bits) by {
                    if i > from {
                        assert(numbers[longer.len() + i - (from + 1)] == numbers[before.len() + i
                            - from]);
                    }
                }
            }
        }
    }
}

proof fn lemma_without_brackets(s: Seq<char>) -> (start: int)
    ensures
        0 <= start <= start + without_brackets(s).len() <= s.len(),
        without_brackets(s) == s.subrange(start, start + without_brackets(s).len()),
        forall|i: int|
            0 <= i < start || start + without_brackets(s).len() <= i < s.len() ==> is_bracket(
                #[trigger] s[i],
            ),
    decreases s.len(),
{
    if s.len() > 0 && is_bracket(s[0]) {
        let rest = s.skip(1);
        let start = lemma_without_brackets(rest);
        let n = without_brackets(s).len() as int;
        assert(rest.subrange(start, start + n) =~= s.subrange(start + 1, start + 1 + n));
        assert forall|i: int| 0 <= i < start + 1 || start + 1 + n <= i < s.len() implies is_bracket(
            #[trigger] s[i],
        ) by {
            if i > 0 {
                assert(s[i] == rest[i - 1]);
            }
        }
        start + 1
    } else if s.len() > 0 && is_bracket(s.last()) {
        let rest = s.drop_last();
        let start = lemma_without_brackets(rest);
        let n = without_brackets(s).len() as int;
        assert(rest.subrange(start, start + n) =~= s.subrange(start, start + n));
        assert forall|i: int| 0 <= i < start || start + n <= i < s.len() implies is_bracket(
            #[trigger] s[i],
        ) by {
            if i < rest.len() {
                assert(s[i] == rest[i]);
            }
        }
        start
    } else {
        assert(s.subrange(0, s.len() as int) =~= s);
        0
    }
}

/// Brackets are taken off a base score at its ends and nowhere else, and all of them are.
pub proof fn brackets_are_taken_off(s: Seq<char>) -> (start: int)
    ensures
        ({
            let inner = without_brackets(s);
            &&& 0 <= start <= start + inner.len() <= s.len()
            &&& inner == s.subrange(start, start + inner.len())
            &&& forall|i: int|
                0 <= i < start || start + inner.len() <= i < s.len() ==> (#[trigger] s[i] == '['
                    || s[i] == ']')
            &&& inner.len() > 0 ==> inner[0] != '[' && inner[0] != ']' && inner.last() != '['
                && inner.last() != ']'
        }),
{
    lemma_bare(s);
    lemma_without_brackets(s)
}

proof fn lemma_bare(s: Seq<char>)
    ensures
        without_brackets(s).len() > 0 ==> !is_bracket(without_brackets(s)[0]) && !is_bracket(
            without_brackets(s).last(),
        ),
    decreases s.len(),
{
    if s.len() > 0 && is_bracket(s[0]) {
        lemma_bare(s.skip(1));
    } else if s.len() > 0 && is_bracket(s.last()) {
        lemma_bare(s.drop_last());
    }
}

/// A single base score is the number that is written; a list gives class `c` the `c`-th number.
/// What is written is a probability where it lies strictly between zero and one and the scores
/// are log-odds.
pub proof fn base_scores_are_the_written_numbers(written: Seq<char>, transform: PostTransform)
    requires
        base_scores(written, transform) is Ok,
    ensures
        ({
            let (single, several, finish) = base_scores(written, transform)->Ok_0;
            let inner = without_brackets(written);
            let pieces = text::pieces(inner, ',', 0);
            if inner.contains(',') {
                &&& several.len() == pieces.len()
                &&& forall|c: int|
                    0 <= c < pieces.len() ==> number::double_of_text(
                        text::trimmed(#[trigger] pieces[c]),
                    ) == Ok::<u64, Seq<char>>(several[c].bits)
                &&& finish == Finish::Ready
            } else {
                &&& several.len() == 0
                &&& number::double_of_text(inner) == Ok::<u64, Seq<char>>(single.bits)
                &&& finish == Finish::BaseLogOdds <==> transform == PostTransform::Logit
                    && (F64 { bits: 0 }).less(single) && single.less(
                    F64 { bits: 0x3ff0_0000_0000_0000 },
                )
                &&& finish != Finish::BaseLogOdds ==> finish == Finish::Ready
            }
        }),
{
    let inner = without_brackets(written);
    lemma_find_comma(inner, 0);
    if inner.contains(',') {
        let at = choose|at: int| 0 <= at < inner.len() && inner[at] == ',';
        assert(text::find(inner, ',', 0) < inner.len());
    }
    lemma_doubles(text::pieces(inner, ',', 0), 0, seq![]);
}

proof fn lemma_find_comma(s: Seq<char>, from: int)
    requires
        0 <= from <= s.len(),
    ensures
        text::find(s, ',', from) < s.len() ==> s.contains(','),
        text::find(s, ',', from) >= s.len() ==> forall|i: int|
            from <= i < s.len() ==> #[trigger] s[i] != ',',
    decreases s.len() - from,
{
    if from < s.len() && s[from] != ',' {
        lemma_find_comma(s, from + 1);
    }
}

/// Which objectives have which transform: the logistic ones give log-odds, the ones for several
/// classes a score per class, the counting and survival ones logarithms, and all others but the
/// hinge give the scores themselves.
pub proof fn objectives_have_their_transform(name: Seq<char>, num_class: usize)
    ensures
        objective_transform(name, num_class) == Ok::<PostTransform, FailureView>(
            PostTransform::Logit,
        ) <==> name == "binary:logistic"@ || name == "reg:logistic"@,
        objective_transform(name, num_class) == Ok::<PostTransform, FailureView>(
            PostTransform::Softmax {
                n_classes: if num_class >= 2 {
                    num_class
                } else {
                    2
                },
            },
        ) <==> name == "multi:softmax"@ || name == "multi:softprob"@,
        objective_transform(name, num_class) == Ok::<PostTransform, FailureView>(
            PostTransform::Log,
        ) <==> name == "count:poisson"@ || name == "reg:gamma"@ || name == "reg:tweedie"@ || name
            == "survival:cox"@ || name == "survival:aft"@,
        objective_transform(name, num_class) is Err <==> name == "binary:hinge"@,
        objective_transform(name, num_class) == Err::<PostTransform, FailureView>(
            FailureView::Plain(Problem::HingeObjective),
        ) <==> name == "binary:hinge"@,
{
    reveal_strlit("binary:logistic");
    reveal_strlit("reg:logistic");
    reveal_strlit("multi:softmax");
    reveal_strlit("multi:softprob");
    reveal_strlit("count:poisson");
    reveal_strlit("reg:gamma");
    reveal_strlit("reg:tweedie");
    reveal_strlit("survival:cox");
    reveal_strlit("survival:aft");
    reveal_strlit("binary:hinge");
    assert("binary:logistic"@.len() == 15 && "multi:softprob"@.len() == 14);
    assert("multi:softmax"@.len() == 13 && "count:poisson"@.len() == 13);
    assert("reg:logistic"@.len() == 12 && "survival:cox"@.len() == 12 && "survival:aft"@.len()
        == 12 && "binary:hinge"@.len() == 12);
    assert("reg:tweedie"@.len() == 11 && "reg:gamma"@.len() == 9);
    assert("reg:logistic"@[0] == 'r' && "survival:cox"@[0] == 's' && "survival:aft"@[0] == 's'
        && "binary:hinge"@[0] == 'b');
    assert("multi:softmax"@[0] == 'm' && "count:poisson"@[0] == 'c');
}

/// What a document says of the model as a whole: its objective and number of classes decide the
/// transform, its base score is a half unless it writes another, and it has one target.
pub proof fn documents_say_how_scores_are_used(root: JsonView)
    requires
        model_of(root) is Ok,
    ensures
        ({
            let model = model_of(root)->Ok_0;
            let learner = root.at("learner"@);
            let param = learner.at("learner_model_param"@);
            let name = match learner.at("objective"@).at("name"@) {
                JsonView::Text(s) => s,
                _ => "reg:squarederror"@,
            };
            let classes = match param.at("num_class"@) {
                JsonView::Text(s) => match text::unsigned(s, usize::MAX as int) {
                    Some(n) => n as usize,
                    None => 0,
                },
                _ => 0,
            };
            let written = match param.at("base_score"@) {
                JsonView::Text(s) => s,
                _ => "0.5"@,
            };
            let forest = model.forest;
            &&& objective_transform(name, classes) == Ok::<PostTransform, FailureView>(
                forest.post_transform,
            )
            &&& base_scores(written, forest.post_transform) == Ok::<
                (F64, Seq<F64>, Finish),
                FailureView,
            >((forest.base_score, forest.base_scores, model.finish))
            &&& forest.aggregation == AggregationKind::Sum
            &&& forest.catboost_metadata is None
            &&& param.at("num_target"@) matches JsonView::Text(s) ==> (text::unsigned(
                s,
                usize::MAX as int,
            ) matches Some(n) ==> n <= 1)
        }),
{
    let param = root.at("learner"@).at("learner_model_param"@);
    if let JsonView::Text(s) = param.at("num_target"@) {
        text::counts_are_within_the_limit(s, usize::MAX as int);
    }
}

/// Whether a member of a tree is an array of so many integers.
pub open spec fn holds_integers(tree: JsonView, member: Seq<char>, n: nat) -> bool {
    tree.at(member) matches JsonView::Array(items) && items.len() == n && forall|i: int|
        0 <= i < items.len() ==> (#[trigger] items[i]).signed() is Some
}

/// Whether a member of a tree is an array of so many numbers.
pub open spec fn holds_numbers(tree: JsonView, member: Seq<char>, n: nat) -> bool {
    tree.at(member) matches JsonView::Array(items) && items.len() == n && forall|i: int|
        0 <= i < items.len() ==> (#[trigger] items[i]).double() is Some
}

/// Whether every way down from node `id` comes to a leaf within so many steps, over nodes that
/// the arrays of `n` entries have.
pub open spec fn leads_to_leaves(tree: JsonView, n: nat, id: int, steps: nat) -> bool
    decreases steps,
{
    let left = entry(tree, "left_children"@, id).signed()->0;
    let right = entry(tree, "right_children"@, id).signed()->0;
    0 <= id < n && (left == -1 || (steps > 0 && leads_to_leaves(
        tree,
        n,
        left as int,
        (steps - 1) as nat,
    ) && leads_to_leaves(tree, n, right as int, (steps - 1) as nat)))
}

proof fn lemma_integers_read(items: Seq<JsonView>, from: int, before: Seq<i64>)
    requires
        0 <= from <= items.len(),
    ensures
        integers_from(items, from, before) is Ok <==> forall|i: int|
            from <= i < items.len() ==> (#[trigger] items[i]).signed() is Some,
    decreases items.len() - from,
{
    if from < items.len() {
        if let Some(n) = items[from].signed() {
            lemma_integers_read(items, from + 1, before.push(n));
        }
    }
}

proof fn lemma_singles_read(items: Seq<JsonView>, from: int, before: Seq<F32>)
    requires
        0 <= from <= items.len(),
    ensures
        singles_from(items, from, before) is Ok <==> forall|i: int|
            from <= i < items.len() ==> (#[trigger] items[i]).double() is Some,
    decreases items.len() - from,
{
    if from < items.len() {
        if let Some(x) = items[from].double() {
            lemma_singles_read(items, from + 1, before.push(x.narrowed()));
        }
    }
}

proof fn lemma_integers_member(tree: JsonView, member: Seq<char>, part: Part)
    ensures
        match integers(tree.at(member), part) {
            Ok(numbers) => holds_integers(tree, member, numbers.len()),
            Err(_) => forall|n: nat| !holds_integers(tree, member, n),
        },
{
    if let JsonView::Array(items) = tree.at(member) {
        lemma_integers_read(items, 0, seq![]);
        lemma_integers(items, 0, seq![]);
    }
}

proof fn lemma_singles_member(tree: JsonView, member: Seq<char>, part: Part)
    ensures
        match singles(tree.at(member), part) {
            Ok(numbers) => holds_numbers(tree, member, numbers.len()),
            Err(_) => forall|n: nat| !holds_numbers(tree, member, n),
        },
{
    if let JsonView::Array(items) = tree.at(member) {
        lemma_singles_read(items, 0, seq![]);
        lemma_singles(items, 0, seq![]);
    }
}

proof fn lemma_nodes_read(tree: JsonView, arrays: ArraysView, id: i64, depth: int)
    requires
        0 <= depth <= MAX_TREE_DEPTH,
        written(tree, arrays),
    ensures
        arrays.node(id, depth) is Ok <==> leads_to_leaves(
            tree,
            arrays.left.len(),
            id as int,
            (MAX_TREE_DEPTH - depth) as nat,
        ),
    decreases MAX_TREE_DEPTH + 1 - depth,
{
    let at = id as int;
    if 0 <= at < arrays.left.len() {
        let left = arrays.left[at];
        let right = arrays.right[at];
        assert(entry(tree, "left_children"@, at).signed() == Some(left));
        if left != -1 {
            if depth < MAX_TREE_DEPTH {
                lemma_nodes_read(tree, arrays, left, depth + 1);
                lemma_nodes_read(tree, arrays, right, depth + 1);
            } else {
                assert(arrays.node(left, depth + 1) is Err);
            }
        }
    }
}

/// Which trees are read: those without native splits on categories whose five members are
/// arrays of numbers of one length and whose every way down from node zero comes to a leaf.
pub proof fn well_formed_trees_are_read(tree: JsonView)
    ensures
        tree_of(tree) is Ok <==> !has_native_categories(tree) && exists|n: nat|
            #![trigger holds_integers(tree, "left_children"@, n)]
            {
                &&& holds_integers(tree, "left_children"@, n)
                &&& holds_integers(tree, "right_children"@, n)
                &&& holds_integers(tree, "split_indices"@, n)
                &&& holds_numbers(tree, "split_conditions"@, n)
                &&& holds_integers(tree, "default_left"@, n)
                &&& leads_to_leaves(tree, n, 0, MAX_TREE_DEPTH as nat)
            },
{
    lemma_integers_member(tree, "left_children"@, Part::LeftChildren);
    lemma_integers_member(tree, "right_children"@, Part::RightChildren);
    lemma_integers_member(tree, "split_indices"@, Part::SplitIndices);
    lemma_singles_member(tree, "split_conditions"@, Part::SplitConditions);
    lemma_integers_member(tree, "default_left"@, Part::DefaultLeft);
    lemma_written(tree);
    if let Ok(arrays) = arrays_of(tree) {
        lemma_nodes_read(tree, arrays, 0, 0);
        assert(holds_integers(tree, "left_children"@, arrays.left.len()));
    }
}

/// A tree has native splits on categories if it gives a node a type other than zero, or lists
/// nodes that have categories.
pub proof fn native_categories_are_told_by_type(tree: JsonView)
    ensures
        (tree.at("categories_nodes"@) matches JsonView::Array(items) && items.len() > 0)
            ==> has_native_categories(tree),
        (tree.at("split_type"@) matches JsonView::Array(items) && exists|i: int|
            0 <= i < items.len() && ((#[trigger] items[i]).signed() matches Some(n) && n != 0))
            ==> has_native_categories(tree),
        (tree.at("split_type"@) matches JsonView::Array(items) ==> forall|i: int|
            0 <= i < items.len() ==> ((#[trigger] items[i]).signed() matches Some(n) ==> n == 0))
            && (tree.at("categories_nodes"@) matches JsonView::Array(items) ==> items.len() == 0)
            ==> !has_native_categories(tree),
{
}

proof fn lemma_trees_read(items: Seq<JsonView>, from: int, before: Seq<TreeView>)
    requires
        0 <= from <= items.len(),
    ensures
        trees_from(items, from, before) is Ok <==> forall|i: int|
            from <= i < items.len() ==> tree_of(#[trigger] items[i]) is Ok,
        trees_from(items, from, before) matches Ok(trees) ==> trees.len() == before.len()
            + items.len() - from,
    decreases items.len() - from,
{
    if from < items.len() {
        if let Ok(tree) = tree_of(items[from]) {
            lemma_trees_read(items, from + 1, before.push(tree));
        }
    }
}

/// Which documents are read: those of one target with an objective that has a transform and a
/// base score that is a number, and with a list of trees that are all read, each with a weight
/// if any has one.
pub proof fn well_formed_documents_are_read(root: JsonView)
    ensures
        ({
            let learner = root.at("learner"@);
            let param = learner.at("learner_model_param"@);
            let booster = learner.at("gradient_booster"@);
            let name = match learner.at("objective"@).at("name"@) {
                JsonView::Text(s) => s,
                _ => "reg:squarederror"@,
            };
            let written = match param.at("base_score"@) {
                JsonView::Text(s) => s,
                _ => "0.5"@,
            };
            model_of(root) is Ok <==> {
                &&& root.get("learner"@) is Some
                &&& param.at("num_target"@) matches JsonView::Text(s) ==> (text::unsigned(
                    s,
                    usize::MAX as int,
                ) matches Some(n) ==> n <= 1)
                &&& name != "binary:hinge"@
                &&& base_scores(written, PostTransform::Identity) is Ok
                &&& booster.at("name"@) != JsonView::Text("gblinear"@)
                &&& listed_trees(booster) matches JsonView::Array(items) && {
                    &&& forall|i: int| 0 <= i < items.len() ==> tree_of(#[trigger] items[i]) is Ok
                    &&& booster.at("weight_drop"@) matches JsonView::Array(weights)
                        ==> weights.len() == items.len()
                }
            }
        }),
{
    let learner = root.at("learner"@);
    let param = learner.at("learner_model_param"@);
    let booster = learner.at("gradient_booster"@);
    if let JsonView::Text(s) = param.at("num_target"@) {
        text::counts_are_within_the_limit(s, usize::MAX as int);
    }
    reveal_strlit("binary:hinge");
    reveal_strlit("binary:logistic");
    reveal_strlit("reg:logistic");
    reveal_strlit("multi:softmax");
    reveal_strlit("multi:softprob");
    reveal_strlit("count:poisson");
    reveal_strlit("reg:gamma");
    reveal_strlit("reg:tweedie");
    reveal_strlit("survival:cox");
    reveal_strlit("survival:aft");
    reveal_strlit("gblinear");
    reveal_strlit("gbtree");
    reveal_strlit("dart");
    assert("binary:hinge"@.len() == 12 && "binary:hinge"@[0] == 'b');
    assert("binary:logistic"@.len() == 15);
    assert("reg:logistic"@.len() == 12 && "reg:logistic"@[0] == 'r');
    assert("multi:softmax"@.len() == 13);
    assert("multi:softprob"@.len() == 14);
    assert("count:poisson"@.len() == 13);
    assert("reg:gamma"@.len() == 9);
    assert("reg:tweedie"@.len() == 11);
    assert("survival:cox"@.len() == 12 && "survival:cox"@[0] == 's');
    assert("survival:aft"@.len() == 12 && "survival:aft"@[0] == 's');
    assert("gblinear"@.len() == 8);
    assert("gbtree"@.len() == 6);
    assert("dart"@.len() == 4);
    if let JsonView::Array(items) = listed_trees(booster) {
        lemma_trees_read(items, 0, seq![]);
    }
}

proof fn lemma_doubles_read(pieces: Seq<Seq<char>>, from: int, before: Seq<F64>)
    requires
        0 <= from <= pieces.len(),
    ensures
        doubles_from(pieces, from, before) is Ok <==> forall|i: int|
            from <= i < pieces.len() ==> number::double_of_text(
                text::trimmed(#[trigger] pieces[i]),
            ) is Ok,
    decreases pieces.len() - from,
{
    if from < pieces.len() {
        if let Ok(bits) = number::double_of_text(text::trimmed(pieces[from])) {
            lemma_doubles_read(pieces, from + 1, before.push(F64 { bits }));
        }
    }
}

/// Which base scores are read: a number, or a list of numbers with commas between them, in
/// brackets or not.
pub proof fn well_formed_base_scores_are_read(written: Seq<char>, transform: PostTransform)
    ensures
        ({
            let inner = without_brackets(written);
            let pieces = text::pieces(inner, ',', 0);
            base_scores(written, transform) is Ok <==> (if inner.contains(',') {
                forall|c: int|
                    0 <= c < pieces.len() ==> number::double_of_text(
                        text::trimmed(#[trigger] pieces[c]),
                    ) is Ok
            } else {
                number::double_of_text(inner) is Ok
            })
        }),
{
    let inner = without_brackets(written);
    text::lemma_find(inner, ',', 0);
    lemma_doubles_read(text::pieces(inner, ',', 0), 0, seq![]);
    if inner.contains(',') {
        let k = choose|k: int| 0 <= k < inner.len() && inner[k] == ',';
        assert(inner[k] == ',');
    }
}

} // verus!
