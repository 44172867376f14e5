//! CatBoost JSON models.
use crate::error::{Complaint, Failure, Part, Problem};
#[allow(unused_imports)]
use crate::error::FailureView;
use crate::frontends::{Finish, ParsedModel};
#[allow(unused_imports)]
use crate::frontends::ParsedView;
use crate::ir::{
    AggregationKind, CatboostMetadata, CtrElement, CtrInfo, CtrValueTable, Forest,
    MissingDirection, Node, Operator, PostTransform, SplitKind, Tree,
};
#[allow(unused_imports)]
use crate::ir::{
    self, CtrView, ElementView, ForestView, LevelView, MetadataView, NodeView, SplitView, TableView,
    TreeView,
};
use crate::json::{self, Json};
#[allow(unused_imports)]
use crate::json::JsonView;
use crate::number::{self, F32, F64, ONE_BITS};
use crate::text;
use vstd::prelude::*;

verus! {

/// A test of an oblivious tree.
#[derive(Debug, Clone, Copy, PartialEq, Eq, Structural)]
pub enum CatboostSplit {
    Numeric { feature_idx: usize, threshold: F32 },
    Ctr { ctr_idx: usize, threshold: F32 },
}

/// How many classes a model has; one if it does not say.
pub open spec fn class_count(info: JsonView) -> usize {
    let params = info.at("params"@);
    let first = params.at("data_processing_options"@).at("classes_count"@).unsigned();
    let second = params.at("loss_function"@).at("params"@).at("classes_count"@).unsigned();
    let count = match first {
        Some(n) => n as usize,
        None => match second {
            Some(n) => n as usize,
            None => 1,
        },
    };
    if count == 0 {
        1
    } else {
        count
    }
}

/// The loss function, which models of different age keep in different places.
pub open spec fn loss_function(info: JsonView) -> Seq<char> {
    let own = info.at("loss_function"@);
    let params = info.at("params"@).at("loss_function"@);
    match own.at("type"@).text() {
        Some(s) => s,
        None => match own.text() {
            Some(s) => s,
            None => match params.at("type"@).text() {
                Some(s) => s,
                None => match params.text() {
                    Some(s) => s,
                    None => "RMSE"@,
                },
            },
        },
    }
}

/// The transform that a loss function stands for. Unknown ones give raw scores.
pub open spec fn loss_transform(loss: Seq<char>, classes: usize) -> PostTransform {
    if loss == "Logloss"@ || loss == "CrossEntropy"@ {
        PostTransform::Logit
    } else if loss == "MultiClass"@ || loss == "MultiClassOneVsAll"@ {
        PostTransform::Softmax { n_classes: classes }
    } else {
        PostTransform::Identity
    }
}

/// Whether a loss function is known to give raw scores.
pub open spec fn raw_loss(name: Seq<char>) -> bool {
    name == "RMSE"@ || name == "MAE"@ || name == "Quantile"@ || name == "Poisson"@
}

/// A count, or another if the document is none.
pub open spec fn count_or(value: JsonView, other: usize) -> usize {
    match value.unsigned() {
        Some(n) => n as usize,
        None => other,
    }
}

/// A double, or another if the document is none.
pub open spec fn double_or(value: JsonView, other: F64) -> F64 {
    match value.double() {
        Some(x) => x,
        None => other,
    }
}

/// A text, empty if the document is none.
pub open spec fn text_or_empty(value: JsonView) -> Seq<char> {
    match value.text() {
        Some(s) => s,
        None => ""@,
    }
}

/// The items of an array, none if the document is no array.
pub open spec fn items_of(value: JsonView) -> Seq<JsonView> {
    match value {
        JsonView::Array(items) => items,
        _ => seq![],
    }
}

pub open spec fn element_of(value: JsonView) -> ElementView {
    ElementView {
        cat_feature_index: count_or(value.at("cat_feature_index"@), 0),
        combination_element: text_or_empty(value.at("combination_element"@)),
    }
}

/// The counter that a document describes. The format spells the denominator of its prior as
/// `prior_denomerator`.
pub open spec fn ctr_of(value: JsonView) -> CtrView {
    CtrView {
        elements: items_of(value.at("elements"@)).map_values(|e: JsonView| element_of(e)),
        identifier: text_or_empty(value.at("identifier"@)),
        prior_numerator: double_or(value.at("prior_numerator"@), F64 { bits: 0 }),
        prior_denominator: double_or(value.at("prior_denomerator"@), F64 { bits: ONE_BITS }),
        scale: double_or(value.at("scale"@), F64 { bits: ONE_BITS }),
        shift: double_or(value.at("shift"@), F64 { bits: 0 }),
    }
}

/// The counters of a model.
pub open spec fn ctrs_of(root: JsonView) -> Seq<CtrView> {
    items_of(root.at("features_info"@).at("ctrs"@)).map_values(|c: JsonView| ctr_of(c))
}

/// A number of a hash table: a text that writes it, or a number; zero for anything else.
pub open spec fn hash_number(value: JsonView) -> u64 {
    match value.text() {
        Some(s) => match text::unsigned(s, u64::MAX as int) {
            Some(n) => n as u64,
            None => 0,
        },
        None => match value.unsigned() {
            Some(n) => n,
            None => 0,
        },
    }
}

/// The complete rows of a table.
pub open spec fn rows_of(numbers: Seq<u64>, stride: int) -> Seq<Seq<u64>> {
    Seq::new(
        (numbers.len() as int / stride) as nat,
        |i: int| numbers.subrange(i * stride, i * stride + stride),
    )
}

/// Sorted rows with one more among them, behind those with the same hash.
pub open spec fn inserted(rows: Seq<Seq<u64>>, row: Seq<u64>) -> Seq<Seq<u64>>
    decreases rows.len(),
{
    if rows.len() == 0 || rows.last()[0] <= row[0] {
        rows.push(row)
    } else {
        inserted(rows.drop_last(), row).push(rows.last())
    }
}

/// The rows sorted by their hash; rows with the same hash stay in order.
pub open spec fn sorted_rows(rows: Seq<Seq<u64>>) -> Seq<Seq<u64>>
    decreases rows.len(),
{
    if rows.len() == 0 {
        seq![]
    } else {
        inserted(sorted_rows(rows.drop_last()), rows.last())
    }
}

/// The numbers of the first `n` rows.
pub open spec fn flattened(rows: Seq<Seq<u64>>, n: int) -> Seq<u64>
    decreases n,
{
    if n <= 0 {
        seq![]
    } else {
        flattened(rows, n - 1) + rows[n - 1]
    }
}

/// How many numbers a row of the table that a document describes has.
pub open spec fn stride_of(value: JsonView) -> usize {
    count_or(value.at("hash_stride"@), 1)
}

/// The complete rows of the table that a document describes, in the order of the document.
pub open spec fn document_rows(value: JsonView) -> Seq<Seq<u64>> {
    rows_of(
        items_of(value.at("hash_map"@)).map_values(|v: JsonView| hash_number(v)),
        stride_of(value) as int,
    )
}

/// The table that a document describes, its rows sorted.
pub open spec fn table_of(value: JsonView) -> Result<TableView, FailureView> {
    let stride = stride_of(value);
    let rows = sorted_rows(document_rows(value));
    if stride == 0 {
        Err(FailureView::Plain(Problem::ZeroStride))
    } else {
        Ok(
            TableView {
                hash_map: flattened(rows, rows.len() as int),
                hash_stride: stride,
                counter_denominator: match value.at("counter_denominator"@).signed() {
                    Some(n) => n,
                    None => 0,
                },
            },
        )
    }
}

/// The tables from `from` on behind those read before.
pub open spec fn tables_from(
    members: Seq<(Seq<char>, JsonView)>,
    from: int,
    before: Seq<(Seq<char>, TableView)>,
) -> Result<Seq<(Seq<char>, TableView)>, FailureView>
    decreases members.len() - from,
{
    if from < 0 || from >= members.len() {
        Ok(before)
    } else {
        match table_of(members[from].1) {
            Err(e) => Err(e),
            Ok(table) => tables_from(members, from + 1, before.push((members[from].0, table))),
        }
    }
}

/// The tables of a model.
pub open spec fn tables_of(root: JsonView) -> Result<Seq<(Seq<char>, TableView)>, FailureView> {
    match root.at("ctr_data"@) {
        JsonView::Object(members) => tables_from(members, 0, seq![]),
        _ => Ok(seq![]),
    }
}

/// The test that a document describes.
pub open spec fn test_of(value: JsonView) -> Result<CatboostSplit, FailureView> {
    let kind = match value.at("split_type"@).text() {
        Some(s) => s,
        None => "FloatFeature"@,
    };
    let border = value.at("border"@).double();
    if kind == "FloatFeature"@ {
        match value.at("float_feature_index"@).unsigned() {
            None => Err(FailureView::Plain(Problem::MissingFloatFeature)),
            Some(feature) => match border {
                None => Err(FailureView::Plain(Problem::MissingBorder)),
                Some(x) => Ok(
                    CatboostSplit::Numeric {
                        feature_idx: feature as usize,
                        threshold: x.narrowed(),
                    },
                ),
            },
        }
    } else if kind == "OnlineCtr"@ {
        match value.at("split_index"@).unsigned() {
            None => Err(FailureView::Plain(Problem::MissingSplitIndex)),
            Some(index) => match border {
                None => Err(FailureView::Plain(Problem::MissingBorder)),
                Some(x) => Ok(
                    CatboostSplit::Ctr { ctr_idx: index as usize, threshold: x.narrowed() },
                ),
            },
        }
    } else {
        Err(FailureView::About { complaint: Complaint::SplitType, text: kind })
    }
}

/// The tests from `from` on behind those read before.
pub open spec fn tests_from(items: Seq<JsonView>, from: int, before: Seq<CatboostSplit>) -> Result<
    Seq<CatboostSplit>,
    FailureView,
>
    decreases items.len() - from,
{
    if from < 0 || from >= items.len() {
        Ok(before)
    } else {
        match test_of(items[from]) {
            Err(e) => Err(e),
            Ok(test) => tests_from(items, from + 1, before.push(test)),
        }
    }
}

/// The leaf values from `from` on behind those read before.
pub open spec fn values_from(items: Seq<JsonView>, from: int, before: Seq<F64>) -> Result<
    Seq<F64>,
    FailureView,
>
    decreases items.len() - from,
{
    if from < 0 || from >= items.len() {
        Ok(before)
    } else {
        match items[from].double() {
            None => Err(FailureView::Plain(Problem::InvalidLeafValue)),
            Some(x) => values_from(items, from + 1, before.push(x)),
        }
    }
}

/// The test of a split node.
pub open spec fn split_kind(test: CatboostSplit) -> SplitView {
    match test {
        CatboostSplit::Numeric { threshold, .. } => SplitView::Numeric {
            threshold,
            operator: Operator::GreaterThan,
        },
        CatboostSplit::Ctr { ctr_idx, threshold } => SplitView::OnlineCtr { ctr_idx, threshold },
    }
}

/// The feature that a split node reads.
pub open spec fn split_feature(test: CatboostSplit) -> usize {
    match test {
        CatboostSplit::Numeric { feature_idx, .. } => feature_idx,
        CatboostSplit::Ctr { .. } => 0,
    }
}

/// The oblivious tree with these tests, the last at the root, and these leaf values, from
/// right to left.
pub open spec fn oblivious_node(tests: Seq<CatboostSplit>, values: Seq<F64>) -> NodeView
    decreases tests.len(),
{
    if tests.len() == 0 {
        NodeView::Leaf { value: values[0] }
    } else {
        let rest = tests.drop_last();
        let mid = values.len() as int / 2;
        NodeView::Split {
            feature_idx: split_feature(tests.last()),
            split: split_kind(tests.last()),
            left: Box::new(oblivious_node(rest, values.skip(mid))),
            right: Box::new(oblivious_node(rest, values.take(mid))),
            missing: MissingDirection::Unspecified,
        }
    }
}

/// The leaf values of class `c`: the values of a leaf for all classes stand side by side.
pub open spec fn class_values(values: Seq<F64>, classes: int, c: int) -> Seq<F64> {
    Seq::new((values.len() as int / classes) as nat, |leaf: int| values[leaf * classes + c])
}

/// The trees of the first `n` classes.
pub open spec fn class_trees(
    tests: Seq<CatboostSplit>,
    values: Seq<F64>,
    classes: int,
    n: int,
) -> Seq<TreeView> {
    Seq::new(
        n as nat,
        |c: int|
            TreeView {
                root: oblivious_node(tests, class_values(values, classes, c)),
                weight: F64 { bits: ONE_BITS },
            },
    )
}

/// The trees, one per class, that a document describes.
pub open spec fn trees_of(tree: JsonView, classes: usize) -> Result<Seq<TreeView>, FailureView> {
    match tree.get("splits"@) {
        None => Err(FailureView::Plain(Problem::MissingSplits)),
        Some(JsonView::Array(split_items)) => match tests_from(split_items, 0, seq![]) {
            Err(e) => Err(e),
            Ok(tests) => match tree.get("leaf_values"@) {
                None => Err(FailureView::Plain(Problem::MissingLeafValues)),
                Some(JsonView::Array(value_items)) => match values_from(value_items, 0, seq![]) {
                    Err(e) => Err(e),
                    Ok(values) => {
                        let leaves = vstd::arithmetic::power2::pow2(tests.len()) as int;
                        if values.len() == leaves * classes {
                            Ok(class_trees(tests, values, classes as int, classes as int))
                        } else {
                            Err(
                                FailureView::Plain(
                                    Problem::LeafCount {
                                        expected: number::counted(leaves * classes) as usize,
                                        classes,
                                        leaves: number::counted(leaves) as usize,
                                        got: values.len() as usize,
                                    },
                                ),
                            )
                        }
                    },
                },
                _ => Err(FailureView::Plain(Problem::LeafValuesNotArray)),
            },
        },
        _ => Err(FailureView::Plain(Problem::SplitsNotArray)),
    }
}

/// The trees from `from` on behind those read before.
pub open spec fn forest_trees(
    items: Seq<JsonView>,
    classes: usize,
    from: int,
    before: Seq<TreeView>,
) -> Result<Seq<TreeView>, FailureView>
    decreases items.len() - from,
{
    if from < 0 || from >= items.len() {
        Ok(before)
    } else {
        match trees_of(items[from], classes) {
            Err(cause) => Err(
                FailureView::Within {
                    part: Part::Tree { index: from as usize },
                    cause: Box::new(cause),
                },
            ),
            Ok(trees) => forest_trees(items, classes, from + 1, before + trees),
        }
    }
}

/// The factor of the leaf values and the biases.
pub open spec fn scale_and_biases(value: JsonView) -> Result<(F64, Seq<F64>), FailureView> {
    match value {
        JsonView::Array(items) => if items.len() < 2 {
            Err(FailureView::Plain(Problem::ScaleAndBias))
        } else {
            Ok(
                (
                    double_or(items[0], F64 { bits: ONE_BITS }),
                    items_of(items[1]).map_values(
                        |v: JsonView| double_or(v, F64 { bits: 0 }),
                    ),
                ),
            )
        },
        _ => Ok((F64 { bits: ONE_BITS }, seq![F64 { bits: 0 }])),
    }
}

/// The model that a document describes.
pub open spec fn model_of(root: JsonView) -> Result<ParsedView, FailureView> {
    let info = root.at("model_info"@);
    let classes = class_count(info);
    let ctrs = ctrs_of(root);
    match tables_of(root) {
        Err(e) => Err(e),
        Ok(ctr_data) => match root.get("oblivious_trees"@) {
            None => Err(FailureView::Plain(Problem::MissingObliviousTrees)),
            Some(JsonView::Array(items)) => match forest_trees(items, classes, 0, seq![]) {
                Err(e) => Err(e),
                Ok(trees) => match scale_and_biases(root.at("scale_and_bias"@)) {
                    Err(e) => Err(e),
                    Ok((scale, biases)) => Ok(
                        ParsedView {
                            forest: ForestView {
                                trees,
                                base_score: if biases.len() == 1 {
                                    biases[0]
                                } else {
                                    F64 { bits: 0 }
                                },
                                base_scores: if biases.len() > 1 {
                                    biases
                                } else {
                                    seq![]
                                },
                                aggregation: AggregationKind::Sum,
                                post_transform: loss_transform(loss_function(info), classes),
                                catboost_metadata: if ctrs.len() == 0 {
                                    None
                                } else {
                                    Some(MetadataView { ctrs, ctr_data })
                                },
                            },
                            finish: if scale.bits == ONE_BITS {
                                Finish::Ready
                            } else {
                                Finish::ScaleLeaves { scale }
                            },
                        },
                    ),
                },
            },
            _ => Err(FailureView::Plain(Problem::ObliviousTreesNotArray)),
        },
    }
}

fn count_or_else(value: &Json, other: usize) -> (r: usize)
    ensures
        r == count_or(json::document(*value), other),
{
    match json::as_unsigned(value) {
        Some(n) => n as usize,
        None => other,
    }
}

fn double_or_else(value: &Json, other: F64) -> (r: F64)
    ensures
        r == double_or(json::document(*value), other),
{
    match json::as_double(value) {
        Some(x) => x,
        None => other,
    }
}

fn parse_text(value: &Json) -> (r: String)
    ensures
        r@ == text_or_empty(json::document(*value)),
{
    match json::as_text(value) {
        Some(s) => s.clone(),
        None => "".to_owned(),
    }
}

fn parse_class_count(info: &Json) -> (r: usize)
    ensures
        r == class_count(json::document(*info)),
        r >= 1,
{
    let params = json::at(info, "params");
    let first = json::as_unsigned(
        json::at(json::at(params, "data_processing_options"), "classes_count"),
    );
    let second = json::as_unsigned(
        json::at(json::at(json::at(params, "loss_function"), "params"), "classes_count"),
    );
    let count: usize = match first {
        Some(n) => n as usize,
        None => match second {
            Some(n) => n as usize,
            None => 1,
        },
    };
    if count == 0 {
        1
    } else {
        count
    }
}

/// Whether a loss function is known: to have a transform or to give raw scores.
pub fn is_known_loss(name: &str) -> (r: bool)
    ensures
        r == (loss_transform(name@, 1) != PostTransform::Identity || raw_loss(name@)),
{
    match transform_for_loss(name, 1) {
        PostTransform::Identity => is_raw_loss(name),
        _ => true,
    }
}

fn is_raw_loss(name: &str) -> (r: bool)
    ensures
        r == raw_loss(name@),
{
    text::same(name, "RMSE") || text::same(name, "MAE") || text::same(name, "Quantile")
        || text::same(name, "Poisson")
}

/// The loss function of a model.
pub fn loss(root: &Json) -> (r: String)
    ensures
        r@ == loss_function(json::document(*root).at("model_info"@)),
{
    parse_loss(json::at(root, "model_info")).to_owned()
}

/// How many classes a model has.
pub fn classes(root: &Json) -> (r: usize)
    ensures
        r == class_count(json::document(*root).at("model_info"@)),
{
    parse_class_count(json::at(root, "model_info"))
}

fn parse_loss<'a>(info: &'a Json) -> (r: &'a str)
    ensures
        r@ == loss_function(json::document(*info)),
{
    let own = json::at(info, "loss_function");
    let params = json::at(json::at(info, "params"), "loss_function");
    match json::as_text(json::at(own, "type")) {
        Some(s) => s.as_str(),
        None => match json::as_text(own) {
            Some(s) => s.as_str(),
            None => match json::as_text(json::at(params, "type")) {
                Some(s) => s.as_str(),
                None => match json::as_text(params) {
                    Some(s) => s.as_str(),
                    None => "RMSE",
                },
            },
        },
    }
}

fn parse_transform(info: &Json, classes: usize) -> (r: PostTransform)
    ensures
        r == loss_transform(loss_function(json::document(*info)), classes),
{
    transform_for_loss(parse_loss(info), classes)
}

/// The transform that a loss function stands for.
fn transform_for_loss(loss: &str, classes: usize) -> (r: PostTransform)
    ensures
        r == loss_transform(loss@, classes),
{
    if text::same(loss, "Logloss") || text::same(loss, "CrossEntropy") {
        PostTransform::Logit
    } else if text::same(loss, "MultiClass") || text::same(loss, "MultiClassOneVsAll") {
        PostTransform::Softmax { n_classes: classes }
    } else {
        PostTransform::Identity
    }
}

fn parse_element(value: &Json) -> (r: CtrElement)
    ensures
        r@ == element_of(json::document(*value)),
{
    CtrElement {
        cat_feature_index: count_or_else(json::at(value, "cat_feature_index"), 0),
        combination_element: parse_text(json::at(value, "combination_element")),
    }
}

fn parse_ctr(value: &Json) -> (r: CtrInfo)
    ensures
        r@ == ctr_of(json::document(*value)),
{
    let mut elements: Vec<CtrElement> = Vec::new();
    let ghost views = items_of(json::document(*value).at("elements"@)).map_values(
        |e: JsonView| element_of(e),
    );
    match json::as_array(json::at(value, "elements")) {
        Some(items) => {
            let mut i: usize = 0;
            while i < items.len()
                invariant
                    i <= items.len(),
                    elements.len() == i,
                    forall|j: int|
                        0 <= j < i ==> (#[trigger] elements[j])@ == element_of(
                            json::document(items[j]),
                        ),
                decreases items.len() - i,
            {
                elements.push(parse_element(&items[i]));
                i = i + 1;
            }
            assert(elements@.map_values(|e: CtrElement| e@) =~= views);
        },
        None => {
            assert(elements@.map_values(|e: CtrElement| e@) =~= views);
        },
    }
    CtrInfo {
        elements,
        identifier: parse_text(json::at(value, "identifier")),
        prior_numerator: double_or_else(json::at(value, "prior_numerator"), F64 { bits: 0 }),
        prior_denominator: double_or_else(
            json::at(value, "prior_denomerator"),
            F64 { bits: ONE_BITS },
        ),
        scale: double_or_else(json::at(value, "scale"), F64 { bits: ONE_BITS }),
        shift: double_or_else(json::at(value, "shift"), F64 { bits: 0 }),
    }
}

fn parse_ctrs(root: &Json) -> (r: Vec<CtrInfo>)
    ensures
        r@.map_values(|c: CtrInfo| c@) == ctrs_of(json::document(*root)),
{
    let mut ctrs: Vec<CtrInfo> = Vec::new();
    match json::as_array(json::at(json::at(root, "features_info"), "ctrs")) {
        Some(items) => {
            let mut i: usize = 0;
            while i < items.len()
                invariant
                    i <= items.len(),
                    ctrs.len() == i,
                    forall|j: int|
                        0 <= j < i ==> (#[trigger] ctrs[j])@ == ctr_of(json::document(items[j])),
                decreases items.len() - i,
            {
                ctrs.push(parse_ctr(&items[i]));
                i = i + 1;
            }
        },
        None => {},
    }
    assert(ctrs@.map_values(|c: CtrInfo| c@) =~= ctrs_of(json::document(*root)));
    ctrs
}

fn parse_hash_number(value: &Json) -> (r: u64)
    ensures
        r == hash_number(json::document(*value)),
{
    match json::as_text(value) {
        Some(s) => match text::parse_unsigned(s.as_str(), u64::MAX) {
            Some(n) => n,
            None => 0,
        },
        None => match json::as_unsigned(value) {
            Some(n) => n,
            None => 0,
        },
    }
}

/// The views of the rows in a list.
pub open spec fn row_views(rows: Seq<Vec<u64>>) -> Seq<Seq<u64>> {
    rows.map_values(|row: Vec<u64>| row@)
}

/// `slice::sort_by_key` sorts the rows by their first number and keeps the order of rows with
/// the same one. Every row needs a first number.
#[verifier::external_body]
fn sort_rows(rows: &mut Vec<Vec<u64>>)
    requires
        forall|i: int| 0 <= i < old(rows).len() ==> (#[trigger] old(rows)@[i]).len() > 0,
    ensures
        row_views(final(rows)@) == sorted_rows(row_views(old(rows)@)),
{
    rows.sort_by_key(|row| row[0]);
}

fn cut_rows(numbers: &Vec<u64>, stride: usize) -> (r: Vec<Vec<u64>>)
    requires
        stride > 0,
    ensures
        row_views(r@) == rows_of(numbers@, stride as int),
        forall|i: int| 0 <= i < r.len() ==> (#[trigger] r[i]).len() > 0,
{
    let count: usize = numbers.len() / stride;
    let mut rows: Vec<Vec<u64>> = Vec::new();
    let mut i: usize = 0;
    let mut start: usize = 0;
    while i < count
        invariant
            i <= count == numbers.len() as int / stride as int,
            stride > 0,
            start == i * stride,
            rows.len() == i,
            forall|j: int|
                0 <= j < i ==> (#[trigger] rows[j])@ == numbers@.subrange(
                    j * stride,
                    j * stride + stride,
                ) && rows[j].len() > 0,
        decreases count - i,
    {
        proof {
            let n = numbers.len() as int;
            assert((i + 1) * stride <= n && (i + 1) * stride == i * stride + stride)
                by (nonlinear_arith)
                requires
                    i + 1 <= n / stride as int,
                    stride > 0,
                    n >= 0,
            ;
            assert forall|j: int| 0 <= j < i implies 0 <= #[trigger] (j * stride) && j * stride
                + stride <= n by {
                assert(0 <= j * stride && j * stride + stride <= n) by (nonlinear_arith)
                    requires
                        0 <= j,
                        j + 1 <= n / stride as int,
                        stride > 0,
                        n >= 0,
                ;
            }
        }
        let mut row: Vec<u64> = Vec::new();
        let mut k: usize = 0;
        while k < stride
            invariant
                k <= stride,
                start + stride <= numbers.len(),
                row@ == numbers@.subrange(start as int, start + k),
            decreases stride - k,
        {
            row.push(numbers[start + k]);
            k = k + 1;
        }
        rows.push(row);
        start = start + stride;
        i = i + 1;
    }
    assert(row_views(rows@) =~= rows_of(numbers@, stride as int));
    rows
}

fn flatten(rows: &Vec<Vec<u64>>) -> (r: Vec<u64>)
    ensures
        r@ == flattened(row_views(rows@), rows.len() as int),
{
    let mut out: Vec<u64> = Vec::new();
    let mut i: usize = 0;
    while i < rows.len()
        invariant
            i <= rows.len(),
            out@ == flattened(row_views(rows@), i as int),
        decreases rows.len() - i,
    {
        let ghost before = out@;
        let mut k: usize = 0;
        while k < rows[i].len()
            invariant
                i < rows.len(),
                k <= rows[i as int].len(),
                out@ == before + rows[i as int]@.take(k as int),
            decreases rows[i as int].len() - k,
        {
            out.push(rows[i][k]);
            proof {
                assert(out@ =~= before + rows[i as int]@.take(k + 1));
            }
            k = k + 1;
        }
        proof {
            assert(row_views(rows@)[i as int] == rows[i as int]@);
            assert(out@ =~= before + rows[i as int]@);
        }
        i = i + 1;
    }
    out
}

fn parse_table(value: &Json) -> (r: Result<CtrValueTable, Failure>)
    ensures
        match r {
            Ok(table) => table_of(json::document(*value)) == Ok::<TableView, FailureView>(table@),
            Err(e) => table_of(json::document(*value)) == Err::<TableView, FailureView>(e@),
        },
{
    let stride: usize = count_or_else(json::at(value, "hash_stride"), 1);
    if stride == 0 {
        return Err(Failure::Plain(Problem::ZeroStride));
    }
    let mut numbers: Vec<u64> = Vec::new();
    match json::as_array(json::at(value, "hash_map")) {
        Some(items) => {
            let mut i: usize = 0;
            while i < items.len()
                invariant
                    i <= items.len(),
                    numbers.len() == i,
                    forall|j: int|
                        0 <= j < i ==> (#[trigger] numbers[j]) == hash_number(
                            json::document(items[j]),
                        ),
                decreases items.len() - i,
            {
                numbers.push(parse_hash_number(&items[i]));
                i = i + 1;
            }
        },
        None => {},
    }
    proof {
        assert(numbers@ =~= items_of(json::document(*value).at("hash_map"@)).map_values(
            |v: JsonView| hash_number(v),
        ));
    }
    let mut rows = cut_rows(&numbers, stride);
    sort_rows(&mut rows);
    let denominator: i64 = match json::as_signed(json::at(value, "counter_denominator")) {
        Some(n) => n,
        None => 0,
    };
    Ok(
        CtrValueTable {
            hash_map: flatten(&rows),
            hash_stride: stride,
            counter_denominator: denominator,
        },
    )
}

/// The views of the tables in a list.
pub open spec fn table_views(tables: Seq<(String, CtrValueTable)>) -> Seq<(Seq<char>, TableView)> {
    tables.map_values(|e: (String, CtrValueTable)| (e.0@, e.1@))
}

fn parse_tables(root: &Json) -> (r: Result<Vec<(String, CtrValueTable)>, Failure>)
    ensures
        match r {
            Ok(tables) => tables_of(json::document(*root)) == Ok::<
                Seq<(Seq<char>, TableView)>,
                FailureView,
            >(table_views(tables@)),
            Err(e) => tables_of(json::document(*root)) == Err::<
                Seq<(Seq<char>, TableView)>,
                FailureView,
            >(e@),
        },
{
    let mut tables: Vec<(String, CtrValueTable)> = Vec::new();
    assert(table_views(tables@) =~= seq![]);
    let data = json::at(root, "ctr_data");
    match json::as_object(data) {
        None => Ok(tables),
        Some(members) => {
            let mut i: usize = 0;
            while i < members.len()
                invariant
                    i <= members.len(),
                    json::document(*root).at("ctr_data"@) == JsonView::Object(
                        json::member_views(members@),
                    ),
                    tables_from(json::member_views(members@), 0, seq![]) == tables_from(
                        json::member_views(members@),
                        i as int,
                        table_views(tables@),
                    ),
                decreases members.len() - i,
            {
                let ghost before = table_views(tables@);
                assert(json::member_views(members@)[i as int] == (
                    members[i as int].0@,
                    json::document(*members[i as int].1),
                ));
                match parse_table(members[i].1) {
                    Err(e) => {
                        return Err(e);
                    },
                    Ok(table) => {
                        tables.push((members[i].0.clone(), table));
                        proof {
                            assert(table_views(tables@) =~= before.push(
                                (members[i as int].0@, table@),
                            ));
                        }
                    },
                }
                i = i + 1;
            }
            Ok(tables)
        },
    }
}

fn parse_test(value: &Json) -> (r: Result<CatboostSplit, Failure>)
    ensures
        match r {
            Ok(test) => test_of(json::document(*value)) == Ok::<CatboostSplit, FailureView>(test),
            Err(e) => test_of(json::document(*value)) == Err::<CatboostSplit, FailureView>(e@),
        },
{
    let kind: &str = match json::as_text(json::at(value, "split_type")) {
        Some(s) => s.as_str(),
        None => "FloatFeature",
    };
    let border = json::as_double(json::at(value, "border"));
    if text::same(kind, "FloatFeature") {
        match json::as_unsigned(json::at(value, "float_feature_index")) {
            None => Err(Failure::Plain(Problem::MissingFloatFeature)),
            Some(feature) => match border {
                None => Err(Failure::Plain(Problem::MissingBorder)),
                Some(x) => Ok(
                    CatboostSplit::Numeric {
                        feature_idx: feature as usize,
                        threshold: x.narrow(),
                    },
                ),
            },
        }
    } else if text::same(kind, "OnlineCtr") {
        match json::as_unsigned(json::at(value, "split_index")) {
            None => Err(Failure::Plain(Problem::MissingSplitIndex)),
            Some(index) => match border {
                None => Err(Failure::Plain(Problem::MissingBorder)),
                Some(x) => Ok(
                    CatboostSplit::Ctr { ctr_idx: index as usize, threshold: x.narrow() },
                ),
            },
        }
    } else {
        Err(Failure::About { complaint: Complaint::SplitType, text: kind.to_owned() })
    }
}

fn parse_tests(items: &Vec<Json>) -> (r: Result<Vec<CatboostSplit>, Failure>)
    ensures
        match r {
            Ok(tests) => tests_from(json::json_views(items@), 0, seq![]) == Ok::<
                Seq<CatboostSplit>,
                FailureView,
            >(tests@),
            Err(e) => tests_from(json::json_views(items@), 0, seq![]) == Err::<
                Seq<CatboostSplit>,
                FailureView,
            >(e@),
        },
{
    let mut tests: Vec<CatboostSplit> = Vec::new();
    let mut i: usize = 0;
    while i < items.len()
        invariant
            i <= items.len(),
            tests_from(json::json_views(items@), 0, seq![]) == tests_from(
                json::json_views(items@),
                i as int,
                tests@,
            ),
        decreases items.len() - i,
    {
        assert(json::json_views(items@)[i as int] == json::document(items[i as int]));
        match parse_test(&items[i]) {
            Err(e) => {
                return Err(e);
            },
            Ok(test) => {
                tests.push(test);
            },
        }
        i = i + 1;
    }
    Ok(tests)
}

fn parse_values(items: &Vec<Json>) -> (r: Result<Vec<F64>, Failure>)
    ensures
        match r {
            Ok(values) => values_from(json::json_views(items@), 0, seq![]) == Ok::<
                Seq<F64>,
                FailureView,
            >(values@),
            Err(e) => values_from(json::json_views(items@), 0, seq![]) == Err::<
                Seq<F64>,
                FailureView,
            >(e@),
        },
{
    let mut values: Vec<F64> = Vec::new();
    let mut i: usize = 0;
    while i < items.len()
        invariant
            i <= items.len(),
            values_from(json::json_views(items@), 0, seq![]) == values_from(
                json::json_views(items@),
                i as int,
                values@,
            ),
        decreases items.len() - i,
    {
        assert(json::json_views(items@)[i as int] == json::document(items[i as int]));
        match json::as_double(&items[i]) {
            None => {
                return Err(Failure::Plain(Problem::InvalidLeafValue));
            },
            Some(x) => {
                values.push(x);
            },
        }
        i = i + 1;
    }
    Ok(values)
}

/// The oblivious tree with the first `n` tests, the last of them at the root, and the leaf
/// values in a range.
fn build_oblivious_node(
    tests: &Vec<CatboostSplit>,
    n: usize,
    values: &Vec<F64>,
    from: usize,
    to: usize,
) -> (r: Node)
    requires
        n <= tests.len(),
        from <= to <= values.len(),
        to - from == vstd::arithmetic::power2::pow2(n as nat),
    ensures
        r@ == oblivious_node(
            tests@.take(n as int),
            values@.subrange(from as int, to as int),
        ),
    decreases n,
{
    proof {
        vstd::arithmetic::power2::lemma2_to64();
    }
    let ghost all = tests@.take(n as int);
    let ghost range = values@.subrange(from as int, to as int);
    if n == 0 {
        return Node::Leaf { value: values[from] };
    }
    let mid: usize = from + (to - from) / 2;
    proof {
        vstd::arithmetic::power2::lemma_pow2_unfold(n as nat);
        assert(all.drop_last() =~= tests@.take(n - 1));
        assert(range.take(range.len() as int / 2) =~= values@.subrange(from as int, mid as int));
        assert(range.skip(range.len() as int / 2) =~= values@.subrange(mid as int, to as int));
    }
    let left = build_oblivious_node(tests, n - 1, values, mid, to);
    let right = build_oblivious_node(tests, n - 1, values, from, mid);
    let test = tests[n - 1];
    let (feature_idx, split) = match test {
        CatboostSplit::Numeric { feature_idx, threshold } => (
            feature_idx,
            SplitKind::Numeric { threshold, operator: Operator::GreaterThan },
        ),
        CatboostSplit::Ctr { ctr_idx, threshold } => (
            0usize,
            SplitKind::OnlineCtr { ctr_idx, threshold },
        ),
    };
    Node::Split {
        feature_idx,
        split,
        left_child: Box::new(left),
        right_child: Box::new(right),
        missing_direction: MissingDirection::Unspecified,
    }
}

/// Two to the power `n`, if `usize` can count it.
fn power_of_two(n: usize) -> (r: Option<usize>)
    ensures
        match r {
            Some(p) => p == vstd::arithmetic::power2::pow2(n as nat),
            None => vstd::arithmetic::power2::pow2(n as nat) > usize::MAX,
        },
{
    let mut power: Option<usize> = Some(1);
    let mut i: usize = 0;
    proof {
        vstd::arithmetic::power2::lemma2_to64();
    }
    while i < n
        invariant
            i <= n,
            match power {
                Some(p) => p == vstd::arithmetic::power2::pow2(i as nat),
                None => vstd::arithmetic::power2::pow2(i as nat) > usize::MAX,
            },
        decreases n - i,
    {
        proof {
            vstd::arithmetic::power2::lemma_pow2_unfold((i + 1) as nat);
        }
        power =
        match power {
            Some(p) => p.checked_add(p),
            None => None,
        };
        i = i + 1;
    }
    power
}

fn pick_class(values: &Vec<F64>, leaves: usize, classes: usize, c: usize) -> (r: Vec<F64>)
    requires
        values.len() == leaves * classes,
        c < classes,
    ensures
        r@ == class_values(values@, classes as int, c as int),
        r.len() == leaves,
{
    let mut out: Vec<F64> = Vec::new();
    let mut leaf: usize = 0;
    while leaf < leaves
        invariant
            leaf <= leaves,
            values.len() == leaves * classes,
            c < classes,
            out.len() == leaf,
            forall|j: int|
                0 <= j < leaf ==> (#[trigger] out[j]) == values[j * classes + c],
        decreases leaves - leaf,
    {
        assert(leaf * classes + classes <= leaves * classes && 0 <= leaf * classes)
            by (nonlinear_arith)
            requires
                leaf < leaves,
                classes > 0,
        ;
        out.push(values[leaf * classes + c]);
        leaf = leaf + 1;
    }
    proof {
        vstd::arithmetic::div_mod::lemma_div_multiples_vanish(leaves as int, classes as int);
        vstd::arithmetic::mul::lemma_mul_is_commutative(leaves as int, classes as int);
        assert(out@ =~= class_values(values@, classes as int, c as int));
    }
    out
}

fn parse_oblivious_tree(tree: &Json, classes: usize) -> (r: Result<Vec<Tree>, Failure>)
    requires
        classes >= 1,
    ensures
        match r {
            Ok(trees) => trees_of(json::document(*tree), classes) == Ok::<
                Seq<TreeView>,
                FailureView,
            >(ir::tree_views(trees@)),
            Err(e) => trees_of(json::document(*tree), classes) == Err::<Seq<TreeView>, FailureView>(
                e@,
            ),
        },
{
    let tests = match json::get(tree, "splits") {
        None => {
            return Err(Failure::Plain(Problem::MissingSplits));
        },
        Some(value) => match json::as_array(value) {
            None => {
                return Err(Failure::Plain(Problem::SplitsNotArray));
            },
            Some(items) => match parse_tests(items) {
                Err(e) => {
                    return Err(e);
                },
                Ok(tests) => tests,
            },
        },
    };
    let values = match json::get(tree, "leaf_values") {
        None => {
            return Err(Failure::Plain(Problem::MissingLeafValues));
        },
        Some(value) => match json::as_array(value) {
            None => {
                return Err(Failure::Plain(Problem::LeafValuesNotArray));
            },
            Some(items) => match parse_values(items) {
                Err(e) => {
                    return Err(e);
                },
                Ok(values) => values,
            },
        },
    };
    let ghost power = vstd::arithmetic::power2::pow2(tests.len() as nat) as int;
    let power_leaves = power_of_two(tests.len());
    let expected: Option<usize> = match power_leaves {
        Some(leaves) => leaves.checked_mul(classes),
        None => None,
    };
    proof {
        if power_leaves is None {
            assert(power * classes > usize::MAX) by (nonlinear_arith)
                requires
                    power > usize::MAX,
                    classes >= 1,
            ;
        }
    }
    let got: usize = values.len();
    let leaves: usize = match (power_leaves, expected) {
        (Some(leaves), Some(total)) if total == got => leaves,
        _ => {
            let expected: usize = match expected {
                Some(total) => total,
                None => usize::MAX,
            };
            let leaves: usize = match power_leaves {
                Some(leaves) => leaves,
                None => usize::MAX,
            };
            return Err(Failure::Plain(Problem::LeafCount { expected, classes, leaves, got }));
        },
    };
    let mut trees: Vec<Tree> = Vec::new();
    let mut c: usize = 0;
    while c < classes
        invariant
            c <= classes,
            values.len() == leaves * classes,
            leaves == vstd::arithmetic::power2::pow2(tests.len() as nat),
            trees.len() == c,
            forall|j: int|
                0 <= j < c ==> (#[trigger] trees[j])@ == (TreeView {
                    root: oblivious_node(tests@, class_values(values@, classes as int, j)),
                    weight: F64 { bits: ONE_BITS },
                }),
        decreases classes - c,
    {
        let own = pick_class(&values, leaves, classes, c);
        let root = build_oblivious_node(&tests, tests.len(), &own, 0, own.len());
        proof {
            assert(tests@.take(tests.len() as int) =~= tests@);
            assert(own@.subrange(0, own.len() as int) =~= own@);
        }
        trees.push(Tree { root, weight: F64 { bits: ONE_BITS } });
        c = c + 1;
    }
    proof {
        assert(ir::tree_views(trees@) =~= class_trees(
            tests@,
            values@,
            classes as int,
            classes as int,
        ));
    }
    Ok(trees)
}

fn parse_trees(items: &Vec<Json>, classes: usize) -> (r: Result<Vec<Tree>, Failure>)
    requires
        classes >= 1,
    ensures
        match r {
            Ok(trees) => forest_trees(json::json_views(items@), classes, 0, seq![]) == Ok::<
                Seq<TreeView>,
                FailureView,
            >(ir::tree_views(trees@)),
            Err(e) => forest_trees(json::json_views(items@), classes, 0, seq![]) == Err::<
                Seq<TreeView>,
                FailureView,
            >(e@),
        },
{
    let mut all: Vec<Tree> = Vec::new();
    let mut i: usize = 0;
    assert(ir::tree_views(all@) =~= seq![]);
    while i < items.len()
        invariant
            i <= items.len(),
            classes >= 1,
            forest_trees(json::json_views(items@), classes, 0, seq![]) == forest_trees(
                json::json_views(items@),
                classes,
                i as int,
                ir::tree_views(all@),
            ),
        decreases items.len() - i,
    {
        let ghost before = all@;
        assert(json::json_views(items@)[i as int] == json::document(items[i as int]));
        match parse_oblivious_tree(&items[i], classes) {
            Err(cause) => {
                return Err(
                    Failure::Within { part: Part::Tree { index: i }, cause: Box::new(cause) },
                );
            },
            Ok(trees) => {
                let ghost more = trees@;
                let mut trees = trees;
                all.append(&mut trees);
                proof {
                    assert(ir::tree_views(all@) =~= ir::tree_views(before) + ir::tree_views(more));
                }
            },
        }
        i = i + 1;
    }
    Ok(all)
}

fn parse_scale_and_bias(value: &Json) -> (r: Result<(F64, Vec<F64>), Failure>)
    ensures
        match r {
            Ok((scale, biases)) => scale_and_biases(json::document(*value)) == Ok::<
                (F64, Seq<F64>),
                FailureView,
            >((scale, biases@)),
            Err(e) => scale_and_biases(json::document(*value)) == Err::<
                (F64, Seq<F64>),
                FailureView,
            >(e@),
        },
{
    match json::as_array(value) {
        None => {
            let mut biases: Vec<F64> = Vec::new();
            biases.push(F64 { bits: 0 });
            assert(biases@ =~= seq![F64 { bits: 0 }]);
            Ok((F64 { bits: ONE_BITS }, biases))
        },
        Some(items) => {
            if items.len() < 2 {
                return Err(Failure::Plain(Problem::ScaleAndBias));
            }
            assert(json::json_views(items@)[0] == json::document(items[0]));
            assert(json::json_views(items@)[1] == json::document(items[1]));
            let scale = double_or_else(&items[0], F64 { bits: ONE_BITS });
            let mut biases: Vec<F64> = Vec::new();
            match json::as_array(&items[1]) {
                Some(numbers) => {
                    let mut i: usize = 0;
                    while i < numbers.len()
                        invariant
                            i <= numbers.len(),
                            biases.len() == i,
                            forall|j: int|
                                0 <= j < i ==> (#[trigger] biases[j]) == double_or(
                                    json::document(numbers[j]),
                                    F64 { bits: 0 },
                                ),
                        decreases numbers.len() - i,
                    {
                        biases.push(double_or_else(&numbers[i], F64 { bits: 0 }));
                        i = i + 1;
                    }
                },
                None => {},
            }
            assert(biases@ =~= items_of(json::document(items[1])).map_values(
                |v: JsonView| double_or(v, F64 { bits: 0 }),
            ));
            Ok((scale, biases))
        },
    }
}

/// Reads a CatBoost model: one tree per class of every oblivious tree, and the counters if
/// it uses categorical features.
pub fn parse_json(root: &Json) -> (r: Result<ParsedModel, Failure>)
    ensures
        match r {
            Ok(model) => model_of(json::document(*root)) == Ok::<ParsedView, FailureView>(model@),
            Err(e) => model_of(json::document(*root)) == Err::<ParsedView, FailureView>(e@),
        },
{
    let info = json::at(root, "model_info");
    let classes: usize = parse_class_count(info);
    let post_transform = parse_transform(info, classes);
    let ctrs = parse_ctrs(root);
    let ctr_data = match parse_tables(root) {
        Ok(tables) => tables,
        Err(e) => {
            return Err(e);
        },
    };
    let catboost_metadata = if ctrs.len() == 0 {
        None
    } else {
        Some(CatboostMetadata { ctrs, ctr_data })
    };
    let trees = match json::get(root, "oblivious_trees") {
        None => {
            return Err(Failure::Plain(Problem::MissingObliviousTrees));
        },
        Some(value) => match json::as_array(value) {
            None => {
                return Err(Failure::Plain(Problem::ObliviousTreesNotArray));
            },
            Some(items) => match parse_trees(items, classes) {
                Ok(trees) => trees,
                Err(e) => {
                    return Err(e);
                },
            },
        },
    };
    let (scale, biases) = match parse_scale_and_bias(json::at(root, "scale_and_bias")) {
        Ok(found) => found,
        Err(e) => {
            return Err(e);
        },
    };
    let base_score = if biases.len() == 1 {
        biases[0]
    } else {
        F64 { bits: 0 }
    };
    let base_scores: Vec<F64> = if biases.len() > 1 {
        biases
    } else {
        Vec::new()
    };
    let finish = if scale.bits == ONE_BITS {
        Finish::Ready
    } else {
        Finish::ScaleLeaves { scale }
    };
    Ok(
        ParsedModel {
            forest: Forest {
                trees,
                base_score,
                base_scores,
                aggregation: AggregationKind::Sum,
                post_transform,
                catboost_metadata,
            },
            finish,
        },
    )
}

/// The threshold of a test.
pub open spec fn test_threshold(test: CatboostSplit) -> F32 {
    match test {
        CatboostSplit::Numeric { threshold, .. } => threshold,
        CatboostSplit::Ctr { threshold, .. } => threshold,
    }
}

/// The tests of a tree from its root down.
pub open spec fn levels_of(tests: Seq<CatboostSplit>) -> Seq<LevelView>
    decreases tests.len(),
{
    if tests.len() == 0 {
        seq![]
    } else {
        seq![
            LevelView {
                feature_idx: split_feature(tests.last()),
                split: split_kind(tests.last()),
                missing: MissingDirection::Unspecified,
            },
        ] + levels_of(tests.drop_last())
    }
}

proof fn lemma_follows(tests: Seq<CatboostSplit>, values: Seq<F64>)
    requires
        forall|i: int| 0 <= i < tests.len() ==> !test_threshold(#[trigger] tests[i]).nan(),
    ensures
        oblivious_node(tests, values).spine() == levels_of(tests),
        oblivious_node(tests, values).follows(levels_of(tests)),
        oblivious_node(tests, values).oblivious(),
    decreases tests.len(),
{
    if tests.len() > 0 {
        let rest = tests.drop_last();
        let mid = values.len() as int / 2;
        assert forall|i: int| 0 <= i < rest.len() implies !test_threshold(
            #[trigger] rest[i],
        ).nan() by {
            assert(rest[i] == tests[i]);
        }
        lemma_follows(rest, values.skip(mid));
        lemma_follows(rest, values.take(mid));
        assert(!test_threshold(tests[tests.len() - 1]).nan());
        assert(levels_of(tests).skip(1) =~= levels_of(rest));
    }
}

/// A tree built from tests is oblivious, applies the tests from the last to the first, and
/// has the leaf values that it was built from, in their order.
pub proof fn built_trees_are_oblivious(tests: Seq<CatboostSplit>, values: Seq<F64>)
    requires
        values.len() == vstd::arithmetic::power2::pow2(tests.len()),
        forall|i: int| 0 <= i < tests.len() ==> !test_threshold(#[trigger] tests[i]).nan(),
    ensures
        oblivious_node(tests, values).oblivious(),
        oblivious_node(tests, values).spine() == levels_of(tests),
        oblivious_node(tests, values).leaves() == values,
{
    lemma_follows(tests, values);
    lemma_leaves(tests, values);
}

/// The number of the leaf that a row reaches: test `i` sets bit `i` where the row's value
/// exceeds the border.
pub open spec fn leaf_number(tests: Seq<CatboostSplit>, row: Seq<F32>) -> int
    decreases tests.len(),
{
    if tests.len() == 0 {
        0
    } else {
        let n = (tests.len() - 1) as nat;
        let rest = leaf_number(tests.drop_last(), row);
        if test_threshold(tests.last()).less(row[split_feature(tests.last()) as int]) {
            vstd::arithmetic::power2::pow2(n) + rest
        } else {
            rest
        }
    }
}

/// A tree built from tests of features gives a row the leaf value that the outcomes of the
/// tests number.
pub proof fn outcomes_number_the_leaves(
    tests: Seq<CatboostSplit>,
    values: Seq<F64>,
    row: Seq<F32>,
)
    requires
        values.len() == vstd::arithmetic::power2::pow2(tests.len()),
        forall|i: int|
            0 <= i < tests.len() ==> (#[trigger] tests[i]) is Numeric && split_feature(tests[i])
                < row.len(),
    ensures
        0 <= leaf_number(tests, row) < values.len(),
        oblivious_node(tests, values).value(row) == Ok::<F64, FailureView>(
            values[leaf_number(tests, row)],
        ),
    decreases tests.len(),
{
    vstd::arithmetic::power2::lemma2_to64();
    if tests.len() > 0 {
        let rest = tests.drop_last();
        let mid = values.len() as int / 2;
        vstd::arithmetic::power2::lemma_pow2_unfold(tests.len());
        assert(tests.last() is Numeric);
        assert forall|i: int| 0 <= i < rest.len() implies (#[trigger] rest[i]) is Numeric
            && split_feature(rest[i]) < row.len() by {
            assert(rest[i] == tests[i]);
        }
        outcomes_number_the_leaves(rest, values.skip(mid), row);
        outcomes_number_the_leaves(rest, values.take(mid), row);
    }
}

proof fn lemma_leaves(tests: Seq<CatboostSplit>, values: Seq<F64>)
    requires
        values.len() == vstd::arithmetic::power2::pow2(tests.len()),
    ensures
        oblivious_node(tests, values).leaves() == values,
    decreases tests.len(),
{
    vstd::arithmetic::power2::lemma2_to64();
    if tests.len() == 0 {
        assert(seq![values[0]] =~= values);
    } else {
        let rest = tests.drop_last();
        let mid = values.len() as int / 2;
        vstd::arithmetic::power2::lemma_pow2_unfold(tests.len());
        lemma_leaves(rest, values.skip(mid));
        lemma_leaves(rest, values.take(mid));
        assert(values.take(mid) + values.skip(mid) =~= values);
    }
}

proof fn lemma_sound(tests: Seq<CatboostSplit>, values: Seq<F64>)
    ensures
        oblivious_node(tests, values).sound(),
    decreases tests.len(),
{
    if tests.len() > 0 {
        let rest = tests.drop_last();
        let mid = values.len() as int / 2;
        lemma_sound(rest, values.skip(mid));
        lemma_sound(rest, values.take(mid));
    }
}

proof fn lemma_forest_trees(
    items: Seq<JsonView>,
    classes: usize,
    from: int,
    before: Seq<TreeView>,
)
    requires
        classes >= 1,
        before.len() as int % classes as int == 0,
        forall|i: int| 0 <= i < before.len() ==> (#[trigger] before[i]).root.sound(),
    ensures
        forest_trees(items, classes, from, before) matches Ok(trees) ==> trees.len() as int
            % classes as int == 0 && forall|i: int|
            0 <= i < trees.len() ==> (#[trigger] trees[i]).root.sound(),
    decreases items.len() - from,
{
    if 0 <= from < items.len() {
        if let Ok(more) = trees_of(items[from], classes) {
            let tests = tests_from(items[from].get("splits"@)->0->Array_0, 0, seq![])->Ok_0;
            let values = values_from(
                items[from].get("leaf_values"@)->0->Array_0,
                0,
                seq![],
            )->Ok_0;
            let all = before + more;
            assert forall|i: int| 0 <= i < all.len() implies (#[trigger] all[i]).root.sound() by {
                if i < before.len() {
                    assert(all[i] == before[i]);
                } else {
                    let c = i - before.len();
                    assert(all[i] == more[c]);
                    lemma_sound(tests, class_values(values, classes as int, c));
                }
            }
            vstd::arithmetic::div_mod::lemma_mod_add_multiples_vanish(
                before.len() as int,
                classes as int,
            );
            lemma_forest_trees(items, classes, from + 1, all);
        }
    }
}

/// A forest read from a document can be evaluated: its sets have their bits, and its trees
/// spread evenly over its classes.
pub proof fn parsed_forests_are_even(root: JsonView)
    ensures
        model_of(root) matches Ok(model) ==> model.forest.sound() && model.forest.trees.len()
            as int % class_count(root.at("model_info"@)) as int == 0,
{
    let classes = class_count(root.at("model_info"@));
    if let Some(JsonView::Array(items)) = root.get("oblivious_trees"@) {
        vstd::arithmetic::div_mod::lemma_small_mod(0, classes as nat);
        lemma_forest_trees(items, classes, 0, seq![]);
    }
}

/// Whether rows are in the order of their hashes.
pub open spec fn in_order(rows: Seq<Seq<u64>>) -> bool {
    forall|i: int, j: int| 0 <= i <= j < rows.len() ==> rows[i][0] <= rows[j][0]
}

proof fn lemma_inserted(rows: Seq<Seq<u64>>, row: Seq<u64>)
    requires
        in_order(rows),
    ensures
        in_order(inserted(rows, row)),
        inserted(rows, row).to_multiset() == rows.to_multiset().insert(row),
        inserted(rows, row).len() == rows.len() + 1,
        forall|i: int|
            0 <= i < inserted(rows, row).len() ==> (#[trigger] inserted(rows, row)[i])[0] <= row[0]
                || exists|j: int| 0 <= j < rows.len() && inserted(rows, row)[i] == rows[j],
    decreases rows.len(),
{
    broadcast use vstd::seq_lib::group_to_multiset_ensures;

    if rows.len() == 0 || rows.last()[0] <= row[0] {
        assert forall|i: int| 0 <= i < rows.len() implies rows[i][0] <= row[0] by {
            assert(rows[i][0] <= rows[rows.len() - 1][0]);
        }
    } else {
        let rest = rows.drop_last();
        lemma_inserted(rest, row);
        let inner = inserted(rest, row);
        let all = inner.push(rows.last());
        assert forall|i: int| 0 <= i < inner.len() implies (#[trigger] inner[i])[0]
            <= rows.last()[0] by {
            if inner[i][0] > row[0] {
                let j = choose|j: int| 0 <= j < rest.len() && inner[i] == rest[j];
                assert(rows[j][0] <= rows[rows.len() - 1][0]);
            }
        }
        assert forall|i: int, j: int| 0 <= i <= j < all.len() implies all[i][0] <= all[j][0] by {
            if j < inner.len() {
                assert(inner[i][0] <= inner[j][0]);
            } else if i < inner.len() {
                assert(inner[i][0] <= rows.last()[0]);
            }
        }
        assert forall|i: int| 0 <= i < all.len() implies (#[trigger] all[i])[0] <= row[0]
            || exists|j: int| 0 <= j < rows.len() && all[i] == rows[j] by {
            if i < inner.len() {
                if inner[i][0] > row[0] {
                    let j = choose|j: int| 0 <= j < rest.len() && inner[i] == rest[j];
                    assert(all[i] == rows[j]);
                }
            } else {
                assert(all[i] == rows[rows.len() - 1]);
            }
        }
        assert(rows =~= rest.push(rows.last()));
        assert(all.to_multiset() =~= rows.to_multiset().insert(row));
    }
}

/// The rows of a counter's table come out in the order of their hashes, and are the rows
/// that went in.
pub proof fn tables_are_sorted(rows: Seq<Seq<u64>>)
    ensures
        in_order(sorted_rows(rows)),
        sorted_rows(rows).to_multiset() == rows.to_multiset(),
    decreases rows.len(),
{
    broadcast use vstd::seq_lib::group_to_multiset_ensures;

    if rows.len() > 0 {
        let rest = rows.drop_last();
        tables_are_sorted(rest);
        lemma_inserted(sorted_rows(rest), rows.last());
        assert(rows =~= rest.push(rows.last()));
    }
}

proof fn lemma_flattened(rows: Seq<Seq<u64>>, stride: int, n: int)
    requires
        stride > 0,
        0 <= n <= rows.len(),
        forall|i: int| 0 <= i < rows.len() ==> (#[trigger] rows[i]).len() == stride,
    ensures
        flattened(rows, n).len() == n * stride,
        forall|i: int|
            0 <= i < n ==> flattened(rows, n).subrange(i * stride, i * stride + stride)
                == #[trigger] rows[i],
    decreases n,
{
    if n > 0 {
        lemma_flattened(rows, stride, n - 1);
        let before = flattened(rows, n - 1);
        let all = flattened(rows, n);
        assert(n * stride == (n - 1) * stride + stride) by (nonlinear_arith);
        assert forall|i: int| 0 <= i < n implies all.subrange(i * stride, i * stride + stride)
            == #[trigger] rows[i] by {
            assert(0 <= i * stride && (i < n - 1 ==> i * stride + stride <= (n - 1) * stride))
                by (nonlinear_arith)
                requires
                    0 <= i,
                    stride > 0,
            ;
            if i < n - 1 {
                assert(all.subrange(i * stride, i * stride + stride) =~= before.subrange(
                    i * stride,
                    i * stride + stride,
                ));
            } else {
                assert(all.subrange(i * stride, i * stride + stride) =~= rows[i]);
            }
        }
    } else {
        assert(n * stride == 0) by (nonlinear_arith)
            requires
                n == 0,
        ;
    }
}

/// The rows of a parsed table are in order, so that the search for a hash finds a row of the
/// document with that hash if there is one; the row that it finds is a row of the document.
pub proof fn searches_find_the_rows(value: JsonView, hash: u64)
    ensures
        table_of(value) matches Ok(table) ==> table.in_order() && match table.found(hash) {
            Some(i) => document_rows(value).contains(table.row(i)) && table.row(i)[0] == hash,
            None => forall|k: int|
                0 <= k < document_rows(value).len() ==> (#[trigger] document_rows(value)[k])[0]
                    != hash,
        },
{
    broadcast use vstd::seq_lib::group_to_multiset_ensures;

    if let Ok(table) = table_of(value) {
        let given = document_rows(value);
        let rows = sorted_rows(given);
        let stride = stride_of(value) as int;
        let n = rows.len() as int;
        tables_are_sorted(given);
        assert forall|i: int| 0 <= i < n implies (#[trigger] rows[i]).len() == stride
            && given.contains(rows[i]) by {
            assert(rows.contains(rows[i]));
            assert(rows.to_multiset().count(rows[i]) > 0);
            assert(given.contains(rows[i]));
            let k = choose|k: int| 0 <= k < given.len() && given[k] == rows[i];
            lemma_row_length(value, k);
        }
        lemma_flattened(rows, stride, n);
        assert((n * stride) / stride == n) by (nonlinear_arith)
            requires
                stride > 0,
        ;
        assert(table.rows() == n);
        assert forall|i: int| 0 <= i < n implies #[trigger] table.hash_at(i) == rows[i][0]
            && table.row(i) == rows[i] by {
            assert(table.row(i) == rows[i]);
            assert(0 <= i * stride && i * stride + stride <= n * stride) by (nonlinear_arith)
                requires
                    0 <= i < n,
                    stride > 0,
            ;
            assert(table.hash_at(i) == table.row(i)[0]);
        }
        assert(table.in_order()) by {
            assert forall|i: int, j: int| 0 <= i <= j < table.rows() implies
                #[trigger] table.hash_at(i) <= #[trigger] table.hash_at(j) by {
                assert(rows[i][0] <= rows[j][0]);
            }
        }
        crate::backends::catboost::search_finds_the_row(table, hash);
        if table.found(hash) is None {
            assert forall|k: int| 0 <= k < given.len() implies (#[trigger] given[k])[0]
                != hash by {
                assert(given.contains(given[k]));
                assert(given.to_multiset().count(given[k]) > 0);
                assert(rows.contains(given[k]));
                let i = choose|i: int| 0 <= i < rows.len() && rows[i] == given[k];
                assert(table.hash_at(i) == rows[i][0]);
            }
        } else {
            assert(table.hash_at(table.found(hash)->0) == hash);
        }
    }
}

proof fn lemma_row_length(value: JsonView, k: int)
    requires
        stride_of(value) > 0,
        0 <= k < document_rows(value).len(),
    ensures
        document_rows(value)[k].len() == stride_of(value),
{
    let stride = stride_of(value) as int;
    let numbers = items_of(value.at("hash_map"@)).map_values(|v: JsonView| hash_number(v));
    let len = numbers.len() as int;
    assert(0 <= k * stride && k * stride + stride <= len) by (nonlinear_arith)
        requires
            0 <= k < len / stride,
            0 <= len,
            stride > 0,
    ;
}

/// Whether a row passes a split of a document: a feature has to exceed the border, a counter to
/// reach it.
pub open spec fn passes(split: JsonView, row: Seq<F32>, ctrs: Seq<F64>) -> bool {
    let border = split.at("border"@).double()->0.narrowed();
    if split.at("split_type"@) == JsonView::Text("OnlineCtr"@) {
        border.widened().at_most(ctrs[split.at("split_index"@).unsigned()->0 as int])
    } else {
        border.less(row[split.at("float_feature_index"@).unsigned()->0 as int])
    }
}

/// Whether what a split of a document reads is there: its feature, or its counter. A split on a
/// counter needs a row that is not empty.
pub open spec fn readable(split: JsonView, row: Seq<F32>, ctrs: Seq<F64>) -> bool {
    if split.at("split_type"@) == JsonView::Text("OnlineCtr"@) {
        row.len() > 0 && split.at("split_index"@).unsigned()->0 < ctrs.len() && ctrs.len()
            <= usize::MAX
    } else {
        split.at("float_feature_index"@).unsigned()->0 < row.len() && row.len() <= usize::MAX
    }
}

/// The number of the leaf that a row reaches: split `j` adds 2^j if the row passes it.
pub open spec fn reached(splits: Seq<JsonView>, row: Seq<F32>, ctrs: Seq<F64>, n: int) -> int
    decreases n,
{
    if n <= 0 {
        0
    } else {
        reached(splits, row, ctrs, n - 1) + (if passes(splits[n - 1], row, ctrs) {
            vstd::arithmetic::power2::pow2((n - 1) as nat) as int
        } else {
            0
        })
    }
}

proof fn lemma_tests(items: Seq<JsonView>, from: int, before: Seq<CatboostSplit>)
    requires
        0 <= from <= items.len(),
    ensures
        tests_from(items, from, before) matches Ok(tests) ==> {
            &&& tests.len() == before.len() + items.len() - from
            &&& forall|i: int| 0 <= i < before.len() ==> tests[i] == #[trigger] before[i]
            &&& forall|i: int|
                from <= i < items.len() ==> test_of(#[trigger] items[i]) == Ok::<
                    CatboostSplit,
                    FailureView,
                >(tests[before.len() + i - from])
        },
    decreases items.len() - from,
{
    if from < items.len() {
        if let Ok(test) = test_of(items[from]) {
            let longer = before.push(test);
            lemma_tests(items, from + 1, longer);
            if let Ok(tests) = tests_from(items, from, before) {
                assert forall|i: int| 0 <= i < before.len() implies tests[i]
                    == #[trigger] before[i] by {
                    assert(longer[i] == before[i]);
                }
                assert(tests[before.len() as int] == longer[before.len() as int]);
                assert forall|i: int| from <= i < items.len() implies test_of(#[trigger] items[i])
                    == Ok::<CatboostSplit, FailureView>(tests[before.len() + i - from]) by {
                    if i > from {
                        assert(tests[longer.len() + i - (from + 1)] == tests[before.len() + i
                            - from]);
                    }
                }
            }
        }
    }
}

proof fn lemma_values(items: Seq<JsonView>, from: int, before: Seq<F64>)
    requires
        0 <= from <= items.len(),
    ensures
        values_from(items, from, before) matches Ok(values) ==> {
            &&& values.len() == before.len() + items.len() - from
            &&& forall|i: int| 0 <= i < before.len() ==> values[i] == #[trigger] before[i]
            &&& forall|i: int|
                from <= i < items.len() ==> (#[trigger] items[i]).double() == Some(
                    values[before.len() + i - from],
                )
        },
    decreases items.len() - from,
{
    if from < items.len() {
        if let Some(x) = items[from].double() {
            let longer = before.push(x);
            lemma_values(items, from + 1, longer);
            if let Ok(values) = values_from(items, from, before) {
                assert forall|i: int| 0 <= i < before.len() implies values[i]
                    == #[trigger] before[i] by {
                    assert(longer[i] == before[i]);
                }
                assert(values[before.len() as int] == longer[before.len() as int]);
                assert forall|i: int| from <= i < items.len() implies (
                #[trigger] items[i]).double() == Some(values[before.len() + i - from]) by {
                    if i > from {
                        assert(values[longer.len() + i - (from + 1)] == values[before.len() + i
                            - from]);
                    }
                }
            }
        }
    }
}

proof fn lemma_reached(
    splits: Seq<JsonView>,
    tests: Seq<CatboostSplit>,
    values: Seq<F64>,
    row: Seq<F32>,
    ctrs: Seq<F64>,
)
    requires
        tests.len() <= splits.len(),
        values.len() == vstd::arithmetic::power2::pow2(tests.len()),
        forall|j: int|
            0 <= j < tests.len() ==> test_of(#[trigger] splits[j]) == Ok::<
                CatboostSplit,
                FailureView,
            >(tests[j]) && readable(splits[j], row, ctrs),
    ensures
        0 <= reached(splits, row, ctrs, tests.len() as int) < values.len(),
        oblivious_node(tests, values).selected(row, ctrs) == Some(
            values[reached(splits, row, ctrs, tests.len() as int)],
        ),
    decreases tests.len(),
{
    vstd::arithmetic::power2::lemma2_to64();
    if tests.len() > 0 {
        let rest = tests.drop_last();
        let mid = values.len() as int / 2;
        let last = splits[tests.len() - 1];
        reveal_strlit("FloatFeature");
        reveal_strlit("OnlineCtr");
        assert("FloatFeature"@.len() == 12 && "OnlineCtr"@.len() == 9);
        vstd::arithmetic::power2::lemma_pow2_unfold(tests.len());
        assert forall|j: int| 0 <= j < rest.len() implies test_of(#[trigger] splits[j]) == Ok::<
            CatboostSplit,
            FailureView,
        >(rest[j]) && readable(splits[j], row, ctrs) by {
            assert(rest[j] == tests[j]);
        }
        lemma_reached(splits, rest, values.skip(mid), row, ctrs);
        lemma_reached(splits, rest, values.take(mid), row, ctrs);
        assert(test_of(last) == Ok::<CatboostSplit, FailureView>(tests.last()));
        assert(readable(last, row, ctrs));
        let node = oblivious_node(tests, values);
        assert(node->split.passes(node->missing, row[node->feature_idx as int], ctrs) == passes(
            last,
            row,
            ctrs,
        ));
    }
}

/// Every tree of a document becomes one tree per class. For class `c` and the leaf that a row
/// reaches, that tree has the entry of `leaf_values` that stands `c` behind the entries of all
/// leaves before it.
pub proof fn rows_reach_the_listed_values(
    tree: JsonView,
    classes: usize,
    c: int,
    row: Seq<F32>,
    ctrs: Seq<F64>,
)
    requires
        trees_of(tree, classes) is Ok,
        0 <= c < classes,
        forall|j: int|
            0 <= j < items_of(tree.at("splits"@)).len() ==> readable(
                #[trigger] items_of(tree.at("splits"@))[j],
                row,
                ctrs,
            ),
    ensures
        ({
            let trees = trees_of(tree, classes)->Ok_0;
            let splits = items_of(tree.at("splits"@));
            let listed = items_of(tree.at("leaf_values"@));
            let leaf = reached(splits, row, ctrs, splits.len() as int);
            &&& trees.len() == classes
            &&& 0 <= leaf * classes + c < listed.len()
            &&& trees[c].root.selected(row, ctrs) == listed[leaf * classes + c].double()
            &&& trees[c].root.selected(row, ctrs) is Some
            &&& trees[c].weight.bits == 0x3ff0_0000_0000_0000
        }),
{
    let splits = items_of(tree.at("splits"@));
    let listed = items_of(tree.at("leaf_values"@));
    lemma_tests(splits, 0, seq![]);
    lemma_values(listed, 0, seq![]);
    let tests = tests_from(splits, 0, seq![])->Ok_0;
    let values = values_from(listed, 0, seq![])->Ok_0;
    let leaves = vstd::arithmetic::power2::pow2(tests.len()) as int;
    assert(values.len() as int / classes as int == leaves) by (nonlinear_arith)
        requires
            values.len() == leaves * classes,
            classes > 0,
    ;
    let own = class_values(values, classes as int, c);
    assert forall|j: int| 0 <= j < tests.len() implies test_of(#[trigger] splits[j]) == Ok::<
        CatboostSplit,
        FailureView,
    >(tests[j]) && readable(splits[j], row, ctrs) by {
        assert(tests[0 + j - 0] == tests[j]);
    }
    lemma_reached(splits, tests, own, row, ctrs);
    let leaf = reached(splits, row, ctrs, splits.len() as int);
    assert(0 <= leaf * classes + c < leaves * classes) by (nonlinear_arith)
        requires
            0 <= leaf < leaves,
            0 <= c < classes,
    ;
    let at = leaf * classes + c;
    assert(listed[at].double() == Some(values[0 + at - 0]));
}

/// The tree for class `c` of a tree in a document.
pub open spec fn class_tree(item: JsonView, classes: usize, c: int) -> Option<TreeView> {
    match trees_of(item, classes) {
        Ok(trees) => Some(trees[c]),
        Err(_) => None,
    }
}

proof fn lemma_trees_in_order(
    items: Seq<JsonView>,
    classes: usize,
    from: int,
    before: Seq<TreeView>,
)
    requires
        0 <= from <= items.len(),
        before.len() == from * classes,
        forall|i: int, c: int|
            0 <= i < from && 0 <= c < classes ==> #[trigger] class_tree(items[i], classes, c)
                == Some(before[i * classes + c]),
    ensures
        forest_trees(items, classes, from, before) matches Ok(trees) ==> {
            &&& trees.len() == items.len() * classes
            &&& forall|i: int, c: int|
                0 <= i < items.len() && 0 <= c < classes ==> #[trigger] class_tree(
                    items[i],
                    classes,
                    c,
                ) == Some(trees[i * classes + c])
        },
    decreases items.len() - from,
{
    if from < items.len() {
        if let Ok(more) = trees_of(items[from], classes) {
            let all = before + more;
            assert(more.len() == classes);
            assert((from + 1) * classes == from * classes + classes) by (nonlinear_arith);
            assert forall|i: int, c: int| 0 <= i < from + 1 && 0 <= c < classes implies
                #[trigger] class_tree(items[i], classes, c) == Some(all[i * classes + c]) by {
                assert(0 <= i * classes) by (nonlinear_arith)
                    requires
                        0 <= i,
                ;
                if i < from {
                    assert(i * classes + c < from * classes) by (nonlinear_arith)
                        requires
                            i < from,
                            c < classes,
                    ;
                    assert(all[i * classes + c] == before[i * classes + c]);
                } else {
                    assert(i * classes == from * classes);
                    assert(all[i * classes + c] == more[c]);
                }
            }
            lemma_trees_in_order(items, classes, from + 1, all);
        }
    }
}

/// A model has the trees that its document lists, in the order of the list: for each of them one
/// per class, in the order of the classes. One bias is the base score, several are those of the
/// classes, and the scores are added up.
pub proof fn trees_come_as_listed(root: JsonView)
    requires
        model_of(root) is Ok,
    ensures
        ({
            let model = model_of(root)->Ok_0;
            let forest = model.forest;
            let classes = class_count(root.at("model_info"@));
            let written = root.at("scale_and_bias"@);
            root.at("oblivious_trees"@) matches JsonView::Array(items) && {
                &&& forest.trees.len() == items.len() * classes
                &&& forall|i: int, c: int|
                    0 <= i < items.len() && 0 <= c < classes ==> #[trigger] class_tree(
                        items[i],
                        classes,
                        c,
                    ) == Some(forest.trees[i * classes + c])
                &&& forest.aggregation == AggregationKind::Sum
                &&& written matches JsonView::Array(parts) ==> {
                    let biases = items_of(parts[1]);
                    &&& parts.len() >= 2
                    &&& biases.len() == 1 ==> (biases[0].double() matches Some(x)
                        ==> forest.base_score == x) && forest.base_scores.len() == 0
                    &&& biases.len() > 1 ==> forest.base_scores.len() == biases.len() && forall|
                        c: int,
                    |
                        0 <= c < biases.len() ==> ((#[trigger] biases[c]).double() matches Some(x)
                            ==> forest.base_scores[c] == x)
                    &&& parts[0].double() matches Some(scale) ==> model.finish == (if scale.bits
                        == 0x3ff0_0000_0000_0000 {
                        Finish::Ready
                    } else {
                        Finish::ScaleLeaves { scale }
                    })
                }
                &&& !(written is Array) ==> forest.base_score.bits == 0
                    && forest.base_scores.len() == 0 && model.finish == Finish::Ready
            }
        }),
{
    let classes = class_count(root.at("model_info"@));
    if let JsonView::Array(items) = root.at("oblivious_trees"@) {
        assert(0 * classes == 0);
        lemma_trees_in_order(items, classes, 0, seq![]);
    }
}

/// Which losses have which transform: those of two classes give log-odds, those of several a
/// score per class, and all others the scores themselves.
pub proof fn losses_have_their_transform(loss: Seq<char>, classes: usize)
    ensures
        loss_transform(loss, classes) == PostTransform::Logit <==> loss == "Logloss"@ || loss
            == "CrossEntropy"@,
        loss_transform(loss, classes) == (PostTransform::Softmax { n_classes: classes }) <==> loss
            == "MultiClass"@ || loss == "MultiClassOneVsAll"@,
        loss != "Logloss"@ && loss != "CrossEntropy"@ && loss != "MultiClass"@ && loss
            != "MultiClassOneVsAll"@ <==> loss_transform(loss, classes) == PostTransform::Identity,
{
    reveal_strlit("Logloss");
    reveal_strlit("CrossEntropy");
    reveal_strlit("MultiClass");
    reveal_strlit("MultiClassOneVsAll");
    assert("Logloss"@.len() == 7 && "CrossEntropy"@.len() == 12 && "MultiClass"@.len() == 10
        && "MultiClassOneVsAll"@.len() == 18);
}

/// What a document says of the model as a whole: its loss and its number of classes decide the
/// transform, and its counters and their tables come along where it has counters.
pub proof fn documents_say_how_scores_are_used(root: JsonView)
    requires
        model_of(root) is Ok,
    ensures
        ({
            let forest = model_of(root)->Ok_0.forest;
            let info = root.at("model_info"@);
            let written = items_of(root.at("features_info"@).at("ctrs"@));
            &&& forest.post_transform == loss_transform(loss_function(info), class_count(info))
            &&& forest.catboost_metadata is Some <==> written.len() > 0
            &&& forest.catboost_metadata matches Some(metadata) ==> {
                &&& metadata.ctrs.len() == written.len()
                &&& forall|i: int|
                    0 <= i < written.len() ==> #[trigger] metadata.ctrs[i] == ctr_of(written[i])
            }
            &&& info.at("loss_function"@).at("type"@) matches JsonView::Text(s) ==> loss_function(
                info,
            ) == s
            &&& info.at("loss_function"@) matches JsonView::Text(s) ==> loss_function(info) == s
            &&& info.at("loss_function"@) is Null ==> (info.at("params"@).at("loss_function"@).at(
                "type"@,
            ) matches JsonView::Text(s) ==> loss_function(info) == s)
            &&& info.at("params"@).at("data_processing_options"@).at(
                "classes_count"@,
            ).unsigned() matches Some(n) ==> 0 < n <= usize::MAX ==> class_count(info) == n
        }),
{
}

/// A counter has what its document writes: its elements in their order, its identifier, and its
/// prior, scale and shift.
pub proof fn counters_are_as_written(value: JsonView)
    ensures
        ({
            let ctr = ctr_of(value);
            let elements = items_of(value.at("elements"@));
            &&& ctr.elements.len() == elements.len()
            &&& forall|i: int|
                0 <= i < elements.len() ==> {
                    let e = #[trigger] ctr.elements[i];
                    &&& elements[i].at("cat_feature_index"@).unsigned() matches Some(n)
                        ==> e.cat_feature_index == n as usize
                    &&& elements[i].at("combination_element"@) matches JsonView::Text(s)
                        ==> e.combination_element == s
                }
            &&& value.at("identifier"@) matches JsonView::Text(s) ==> ctr.identifier == s
            &&& value.at("prior_numerator"@).double() matches Some(x) ==> ctr.prior_numerator == x
            &&& value.at("prior_denomerator"@).double() matches Some(x) ==> ctr.prior_denominator
                == x
            &&& value.at("scale"@).double() matches Some(x) ==> ctr.scale == x
            &&& value.at("shift"@).double() matches Some(x) ==> ctr.shift == x
        }),
{
}

proof fn lemma_tables(
    members: Seq<(Seq<char>, JsonView)>,
    from: int,
    before: Seq<(Seq<char>, TableView)>,
)
    requires
        0 <= from <= members.len(),
    ensures
        tables_from(members, from, before) matches Ok(tables) ==> {
            &&& tables.len() == before.len() + members.len() - from
            &&& forall|i: int| 0 <= i < before.len() ==> tables[i] == #[trigger] before[i]
            &&& forall|i: int|
                from <= i < members.len() ==> {
                    let entry = tables[before.len() + i - from];
                    &&& entry.0 == (#[trigger] members[i]).0
                    &&& table_of(members[i].1) == Ok::<TableView, FailureView>(entry.1)
                }
        },
    decreases members.len() - from,
{
    if from < members.len() {
        if let Ok(table) = table_of(members[from].1) {
            let longer = before.push((members[from].0, table));
            lemma_tables(members, from + 1, longer);
            if let Ok(tables) = tables_from(members, from, before) {
                assert forall|i: int| 0 <= i < before.len() implies tables[i]
                    == #[trigger] before[i] by {
                    assert(longer[i] == before[i]);
                }
                assert(tables[before.len() as int] == longer[before.len() as int]);
                assert forall|i: int| from <= i < members.len() implies {
                    let entry = tables[before.len() + i - from];
                    &&& entry.0 == (#[trigger] members[i]).0
                    &&& table_of(members[i].1) == Ok::<TableView, FailureView>(entry.1)
                } by {
                    if i > from {
                        assert(tables[longer.len() + i - (from + 1)] == tables[before.len() + i
                            - from]);
                    }
                }
            }
        }
    }
}

/// A model has the tables of its document under their keys, in the order of the document, with
/// their number of numbers per row and their denominator.
pub proof fn tables_stand_under_their_keys(root: JsonView)
    requires
        tables_of(root) is Ok,
        root.at("ctr_data"@) is Object,
    ensures
        ({
            let tables = tables_of(root)->Ok_0;
            let members = root.at("ctr_data"@)->Object_0;
            &&& tables.len() == members.len()
            &&& forall|i: int|
                0 <= i < members.len() ==> {
                    let table = (#[trigger] tables[i]).1;
                    &&& tables[i].0 == members[i].0
                    &&& table_of(members[i].1) == Ok::<TableView, FailureView>(table)
                    &&& members[i].1.at("hash_stride"@).unsigned() matches Some(n)
                        ==> table.hash_stride == n as usize
                    &&& members[i].1.at("counter_denominator"@).signed() matches Some(n)
                        ==> table.counter_denominator == n
                }
        }),
{
    let members = root.at("ctr_data"@)->Object_0;
    let tables = tables_of(root)->Ok_0;
    lemma_tables(members, 0, seq![]);
    assert forall|i: int| 0 <= i < members.len() implies {
        let table = (#[trigger] tables[i]).1;
        &&& tables[i].0 == members[i].0
        &&& table_of(members[i].1) == Ok::<TableView, FailureView>(table)
    } by {
        assert(tables[0 + i - 0] == tables[i]);
        assert(members[i].0 == tables[0 + i - 0].0);
    }
}

/// A number of a table is the one that a text writes or that stands there as it is, and row `i`
/// of a table is the `i`-th run of as many numbers as a row has.
pub proof fn rows_are_runs_of_numbers(value: JsonView, i: int, k: int)
    requires
        stride_of(value) > 0,
        0 <= i < document_rows(value).len(),
        0 <= k < stride_of(value),
    ensures
        ({
            let numbers = items_of(value.at("hash_map"@));
            let at = i * stride_of(value) + k;
            let number = document_rows(value)[i][k];
            &&& 0 <= at < numbers.len()
            &&& document_rows(value)[i].len() == stride_of(value)
            &&& numbers[at].unsigned() matches Some(n) ==> number == n
            &&& numbers[at] matches JsonView::Text(s) ==> (text::unsigned(
                s,
                u64::MAX as int,
            ) matches Some(n) ==> number == n as u64)
        }),
{
    let numbers = items_of(value.at("hash_map"@)).map_values(|v: JsonView| hash_number(v));
    let stride = stride_of(value) as int;
    let len = numbers.len() as int;
    lemma_row_length(value, i);
    assert(0 <= i * stride && i * stride + stride <= len) by (nonlinear_arith)
        requires
            0 <= i < len / stride,
            0 <= len,
            stride > 0,
    ;
}

/// Whether a test of a document can be read: one on a number by its feature and its border, one
/// on a counter by its place and its border.
pub open spec fn well_formed(test: JsonView) -> bool {
    let place = match test.at("split_type"@) {
        JsonView::Text(s) => if s == "FloatFeature"@ {
            test.at("float_feature_index"@).unsigned()
        } else if s == "OnlineCtr"@ {
            test.at("split_index"@).unsigned()
        } else {
            None
        },
        _ => test.at("float_feature_index"@).unsigned(),
    };
    place is Some && test.at("border"@).double() is Some
}

proof fn lemma_tests_read(items: Seq<JsonView>, from: int, before: Seq<CatboostSplit>)
    requires
        0 <= from <= items.len(),
    ensures
        tests_from(items, from, before) is Ok <==> forall|i: int|
            from <= i < items.len() ==> well_formed(#[trigger] items[i]),
        tests_from(items, from, before) matches Ok(tests) ==> tests.len() == before.len()
            + items.len() - from,
    decreases items.len() - from,
{
    if from < items.len() {
        assert(test_of(items[from]) is Ok <==> well_formed(items[from]));
        if let Ok(test) = test_of(items[from]) {
            lemma_tests_read(items, from + 1, before.push(test));
        }
    }
}

proof fn lemma_values_read(items: Seq<JsonView>, from: int, before: Seq<F64>)
    requires
        0 <= from <= items.len(),
    ensures
        values_from(items, from, before) is Ok <==> forall|i: int|
            from <= i < items.len() ==> (#[trigger] items[i]).double() is Some,
        values_from(items, from, before) matches Ok(values) ==> values.len() == before.len()
            + items.len() - from,
    decreases items.len() - from,
{
    if from < items.len() {
        if let Some(x) = items[from].double() {
            lemma_values_read(items, from + 1, before.push(x));
        }
    }
}

/// Which trees are read: those whose tests are all well-formed and that list one number for every
/// class at every leaf, twice as many leaves with every test.
pub proof fn well_formed_trees_are_read(tree: JsonView, classes: usize)
    ensures
        trees_of(tree, classes) is Ok <==> {
            &&& tree.at("splits"@) matches JsonView::Array(splits) && (tree.at(
                "leaf_values"@,
            ) matches JsonView::Array(values) && {
                &&& forall|i: int| 0 <= i < splits.len() ==> well_formed(#[trigger] splits[i])
                &&& forall|i: int|
                    0 <= i < values.len() ==> (#[trigger] values[i]).double() is Some
                &&& values.len() == vstd::arithmetic::power2::pow2(splits.len()) * classes
            })
        },
{
    if let JsonView::Array(splits) = tree.at("splits"@) {
        lemma_tests_read(splits, 0, seq![]);
    }
    if let JsonView::Array(values) = tree.at("leaf_values"@) {
        lemma_values_read(values, 0, seq![]);
    }
}

proof fn lemma_forest_read(
    items: Seq<JsonView>,
    classes: usize,
    from: int,
    before: Seq<TreeView>,
)
    requires
        0 <= from <= items.len(),
    ensures
        forest_trees(items, classes, from, before) is Ok <==> forall|i: int|
            from <= i < items.len() ==> trees_of(#[trigger] items[i], classes) is Ok,
    decreases items.len() - from,
{
    if from < items.len() {
        if let Ok(trees) = trees_of(items[from], classes) {
            lemma_forest_read(items, classes, from + 1, before + trees);
        }
    }
}

proof fn lemma_tables_read(
    members: Seq<(Seq<char>, JsonView)>,
    from: int,
    before: Seq<(Seq<char>, TableView)>,
)
    requires
        0 <= from <= members.len(),
    ensures
        tables_from(members, from, before) is Ok <==> forall|i: int|
            from <= i < members.len() ==> ((#[trigger] members[i]).1.at(
                "hash_stride"@,
            ).unsigned() matches Some(n) ==> n as usize != 0),
    decreases members.len() - from,
{
    if from < members.len() {
        if let Ok(table) = table_of(members[from].1) {
            lemma_tables_read(members, from + 1, before.push((members[from].0, table)));
        }
    }
}

/// Which documents are read: those with a list of trees that are all read, whose tables have rows
/// that are not empty, and that give a scale only along with a bias.
pub proof fn well_formed_documents_are_read(root: JsonView)
    ensures
        model_of(root) is Ok <==> {
            &&& root.at("oblivious_trees"@) matches JsonView::Array(items) && forall|i: int|
                0 <= i < items.len() ==> trees_of(
                    #[trigger] items[i],
                    class_count(root.at("model_info"@)),
                ) is Ok
            &&& root.at("ctr_data"@) matches JsonView::Object(members) ==> forall|i: int|
                0 <= i < members.len() ==> ((#[trigger] members[i]).1.at(
                    "hash_stride"@,
                ).unsigned() matches Some(n) ==> n as usize != 0)
            &&& root.at("scale_and_bias"@) matches JsonView::Array(parts) ==> parts.len() >= 2
        },
{
    if let JsonView::Array(items) = root.at("oblivious_trees"@) {
        lemma_forest_read(items, class_count(root.at("model_info"@)), 0, seq![]);
    }
    if let JsonView::Object(members) = root.at("ctr_data"@) {
        lemma_tables_read(members, 0, seq![]);
    }
}

} // verus!
