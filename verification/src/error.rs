//! What can go wrong, with the facts that a message needs.
use crate::text;
use vstd::prelude::*;

verus! {

/// A failure that needs no text of the input to describe.
#[derive(Debug, Clone, Copy, PartialEq, Eq, Structural)]
pub enum Problem {
    CtrModel,
    CtrSplit,
    FeatureOutOfBounds { index: usize, count: usize },
    SoftmaxTrees { trees: usize, classes: usize },
    ArrayNumericOnly,
    ForestTooLarge { nodes: usize, leaves: usize },
    EmptyForest,
    ArrayUnsupported,
    SoftmaxClasses { classes: usize },
    UnevenSoftmax { trees: usize, classes: usize },
    NoStdCatboost,
    UnexpectedEnd,
    IniFields,
    MissingLearner,
    MultiOutput { targets: usize },
    HingeObjective,
    LinearBooster,
    TreesNotArray,
    WeightDrop { weights: usize, trees: usize },
    CategoricalSplits,
    ArrayLengths,
    TooDeep,
    NodeOutOfBounds { id: i64 },
    InvalidChild { id: i64, left: i64, right: i64 },
    MissingTreeInfo,
    TreeInfoNotArray,
    OneVersusAll,
    CrossEntropyLambda,
    MissingTreeStructure,
    MissingSplitFeature,
    CategoryTooLarge,
    ThresholdNotFloat,
    EmptyCsv,
    NoFeatureColumns,
    MissingGroundTruth,
    ColumnCount { row: usize, expected: usize, got: usize },
    VerifyCatboost,
    PredictionWidth { expected: usize, got: usize },
    PredictionCount { predictions: usize, rows: usize },
    NoGraph,
    NoTreeEnsemble,
    CategoricalNodes,
    NodeArrays { entries: usize },
    LeafArrays,
    ClassIds,
    UnknownNode { id: i64 },
    LeafWithoutWeight { id: i64 },
    CyclicTree { id: i64 },
    MissingObliviousTrees,
    ObliviousTreesNotArray,
    ZeroStride,
    ScaleAndBias,
    MissingSplits,
    SplitsNotArray,
    MissingFloatFeature,
    MissingBorder,
    MissingSplitIndex,
    MissingLeafValues,
    LeafValuesNotArray,
    InvalidLeafValue,
    LeafCount { expected: usize, classes: usize, leaves: usize, got: usize },
}

/// The part of a document that a failure was found in.
#[derive(Debug, Clone, Copy, PartialEq, Eq, Structural)]
pub enum Part {
    Tree { index: usize },
    TreeFile { index: usize },
    LeftChild,
    RightChild,
    TreeStructure,
    LeftChildren,
    RightChildren,
    SplitIndices,
    SplitConditions,
    DefaultLeft,
}

/// A failure to read a piece of text.
#[derive(Debug, Clone, Copy, PartialEq, Eq, Structural)]
pub enum Complaint {
    Extension,
    CtrTable,
    Algorithm,
    MissingTreeFile,
    MissingAuxFile,
    /// A piece of the input cannot be read; the text says why.
    Unreadable,
    NotAnArchive,
    MissingIni,
    InvalidJson,
    UnrecognizedJson,
    ExpectedArray,
    ExpectedInteger,
    ExpectedFloat,
    LeafNotNumber,
    CategoricalThreshold,
    ThresholdType,
    NoDataRows,
    BaseScore,
    BaseScores,
    Categories,
    Threshold,
    DecisionType,
    SplitType,
    MissingAttribute,
    MissingColumn { classes: usize },
    Reference { row: usize },
    Prediction,
}

#[derive(Debug)]
pub enum Failure {
    Plain(Problem),
    About { complaint: Complaint, text: String },
    /// A complaint about a text, and what is behind it.
    Caused { complaint: Complaint, text: String, fault: String },
    Cell { row: usize, column: String, value: String },
    Within { part: Part, cause: Box<Failure> },
}

pub ghost enum FailureView {
    Plain(Problem),
    About { complaint: Complaint, text: Seq<char> },
    Caused { complaint: Complaint, text: Seq<char>, fault: Seq<char> },
    Cell { row: usize, column: Seq<char>, value: Seq<char> },
    Within { part: Part, cause: Box<FailureView> },
}

impl Failure {
    pub open spec fn model(self) -> FailureView
        decreases self,
    {
        match self {
            Failure::Plain(problem) => FailureView::Plain(problem),
            Failure::About { complaint, text } => FailureView::About { complaint, text: text@ },
            Failure::Caused { complaint, text, fault } => FailureView::Caused {
                complaint,
                text: text@,
                fault: fault@,
            },
            Failure::Cell { row, column, value } => FailureView::Cell {
                row,
                column: column@,
                value: value@,
            },
            Failure::Within { part, cause } => FailureView::Within {
                part,
                cause: Box::new(cause.model()),
            },
        }
    }
}

impl View for Failure {
    type V = FailureView;

    open spec fn view(&self) -> FailureView {
        self.model()
    }
}

impl Problem {
    /// The message after the text `out`.
    pub open spec fn with_message(self, out: Seq<char>) -> Seq<char> {
        match self {
            Problem::CtrModel => out + "interpreter does not support CatBoost CTR models"@,
            Problem::CtrSplit => out + "interpreter does not support CatBoost CTR splits"@,
            Problem::FeatureOutOfBounds { index, count } => out + "feature index "@
                + text::decimal(index as nat) + " out of bounds (row has "@
                + text::decimal(count as nat) + " features)"@,
            Problem::SoftmaxTrees { trees, classes } => out + "Tree count ("@
                + text::decimal(trees as nat) + ") must be divisible by n_classes ("@
                + text::decimal(classes as nat) + ")"@,
            Problem::ArrayNumericOnly => out + "Array layout supports numeric splits only"@,
            Problem::ForestTooLarge { nodes, leaves } => out
                + "Forest too large for array layout ("@ + text::decimal(nodes as nat)
                + " nodes, "@ + text::decimal(leaves as nat) + " leaves)"@,
            Problem::EmptyForest => out + "Cannot generate code for an empty forest (0 trees)."@,
            Problem::ArrayUnsupported => out
                + "Array layout supports numeric splits only; this model contains categorical splits or CatBoost CTR features. Use --layout auto or ifelse."@,
            Problem::SoftmaxClasses { classes } => out
                + "Softmax requires at least 2 classes, got "@ + text::decimal(classes as nat),
            Problem::UnevenSoftmax { trees, classes } => out + "Tree count ("@
                + text::decimal(trees as nat) + ") must be divisible by n_classes ("@
                + text::decimal(classes as nat) + ") for softmax"@,
            Problem::NoStdCatboost => out + "CatBoost CTR models are not supported with --no-std"@,
            Problem::UnexpectedEnd => out + "failed to fill whole buffer"@,
            Problem::IniFields => out
                + "model.ini is missing required fields (h2o_version or algo)"@,
            Problem::MissingLearner => out + "Missing 'learner' key - not an XGBoost JSON model"@,
            Problem::MultiOutput { targets } => out
                + "Multi-output models are not supported (num_target = "@
                + text::decimal(targets as nat) + ")"@,
            Problem::HingeObjective => out
                + "binary:hinge outputs a 0/1 step function bonsai does not implement; retrain with binary:logistic"@,
            Problem::LinearBooster => out
                + "gblinear boosters have no trees to transpile; only tree boosters are supported"@,
            Problem::TreesNotArray => out + "learner.gradient_booster.model.trees is not an array"@,
            Problem::WeightDrop { weights, trees } => out + "weight_drop length ("@
                + text::decimal(weights as nat) + ") does not match tree count ("@
                + text::decimal(trees as nat) + ")"@,
            Problem::CategoricalSplits => out
                + "Native categorical splits are not supported. Retrain without enable_categorical, or one-hot/label encode categorical features."@,
            Problem::ArrayLengths => out + "XGBoost tree arrays have mismatched lengths"@,
            Problem::TooDeep => out + "tree depth exceeds maximum (256); possible malformed model"@,
            Problem::NodeOutOfBounds { id } => out + "node id "@ + text::signed_decimal(id as int)
                + " out of bounds"@,
            Problem::InvalidChild { id, left, right } => out + "node "@
                + text::signed_decimal(id as int) + " has invalid child id (left="@
                + text::signed_decimal(left as int) + ", right="@
                + text::signed_decimal(right as int) + ")"@,
            Problem::MissingTreeInfo => out
                + "Missing 'tree_info' key - not a LightGBM JSON model"@,
            Problem::TreeInfoNotArray => out + "'tree_info' is not an array"@,
            Problem::OneVersusAll => out
                + "multiclassova applies a per-class sigmoid, which bonsai does not implement; retrain with objective=multiclass"@,
            Problem::CrossEntropyLambda => out
                + "cross_entropy_lambda uses an output transform bonsai does not implement; retrain with objective=cross_entropy"@,
            Problem::MissingTreeStructure => out + "Missing 'tree_structure' in tree"@,
            Problem::MissingSplitFeature => out + "Missing or invalid split_feature"@,
            Problem::CategoryTooLarge => out
                + "categorical threshold exceeds the categories that a set can hold"@,
            Problem::ThresholdNotFloat => out + "threshold is not a valid float"@,
            Problem::EmptyCsv => out + "Empty CSV"@,
            Problem::NoFeatureColumns => out + "No feature columns found"@,
            Problem::MissingGroundTruth => out + "Missing 'ground_truth' column"@,
            Problem::ColumnCount { row, expected, got } => out + "Row "@
                + text::decimal(row as nat) + ": expected "@ + text::decimal(expected as nat)
                + " columns, got "@ + text::decimal(got as nat),
            Problem::VerifyCatboost => out
                + "verify does not support CatBoost categorical (CTR) models yet; their harness needs string categorical inputs"@,
            Problem::PredictionWidth { expected, got } => out + "Expected "@
                + text::decimal(expected as nat) + " values per prediction line, got "@
                + text::decimal(got as nat),
            Problem::PredictionCount { predictions, rows } => out + "Prediction count ("@
                + text::decimal(predictions as nat) + ") does not match row count ("@
                + text::decimal(rows as nat) + ")"@,
            Problem::NoGraph => out + "ONNX Model has no graph"@,
            Problem::NoTreeEnsemble => out + "No TreeEnsemble operator found in ONNX graph"@,
            Problem::CategoricalNodes => out
                + "This ONNX model contains categorical node attributes (nodes_categorical_attributes), which bonsai does not support. Only numeric splits are handled. Re-export the model with label-encoded categorical features."@,
            Problem::NodeArrays { entries } => out
                + "ONNX node arrays have mismatched lengths (nodes_treeids has "@
                + text::decimal(entries as nat) + ", others differ)"@,
            Problem::LeafArrays => out + "ONNX leaf arrays have mismatched lengths"@,
            Problem::ClassIds => out + "ONNX class ids cannot be used as class numbers"@,
            Problem::UnknownNode { id } => out + "Node ID "@ + text::signed_decimal(id as int)
                + " is neither a recorded split nor a leaf."@,
            Problem::LeafWithoutWeight { id } => out + "Node ID "@
                + text::signed_decimal(id as int)
                + " has mode LEAF but no leaf weight was found in the ONNX model."@,
            Problem::CyclicTree { id } => out + "Node ID "@ + text::signed_decimal(id as int)
                + " is its own descendant."@,
            Problem::MissingObliviousTrees => out
                + "Missing 'oblivious_trees' key — not a CatBoost JSON model"@,
            Problem::ObliviousTreesNotArray => out + "'oblivious_trees' is not an array"@,
            Problem::ZeroStride => out + "'hash_stride' is zero"@,
            Problem::ScaleAndBias => out + "'scale_and_bias' does not hold a scale and a bias"@,
            Problem::MissingSplits => out + "Missing 'splits' in tree"@,
            Problem::SplitsNotArray => out + "'splits' is not an array"@,
            Problem::MissingFloatFeature => out + "Missing 'float_feature_index'"@,
            Problem::MissingBorder => out + "Missing 'border'"@,
            Problem::MissingSplitIndex => out + "Missing 'split_index' for OnlineCtr"@,
            Problem::MissingLeafValues => out + "Missing 'leaf_values' in tree"@,
            Problem::LeafValuesNotArray => out + "'leaf_values' is not an array"@,
            Problem::InvalidLeafValue => out + "Invalid leaf value"@,
            Problem::LeafCount { expected, classes, leaves, got } => out
                + "Tree values mismatch: expected "@ + text::decimal(expected as nat)
                + " values ("@ + text::decimal(classes as nat) + " classes * "@
                + text::decimal(leaves as nat) + " leaves), got "@ + text::decimal(got as nat),
        }
    }

    fn push_message(self, out: &mut String)
        ensures
            final(out)@ == self.with_message(old(out)@),
    {
        match self {
            Problem::CtrModel => out.append("interpreter does not support CatBoost CTR models"),
            Problem::CtrSplit => out.append("interpreter does not support CatBoost CTR splits"),
            Problem::FeatureOutOfBounds { index, count } => {
                out.append("feature index ");
                text::push_decimal(out, index as u64);
                out.append(" out of bounds (row has ");
                text::push_decimal(out, count as u64);
                out.append(" features)");
            },
            Problem::SoftmaxTrees { trees, classes } => {
                out.append("Tree count (");
                text::push_decimal(out, trees as u64);
                out.append(") must be divisible by n_classes (");
                text::push_decimal(out, classes as u64);
                out.append(")");
            },
            Problem::ArrayNumericOnly => out.append("Array layout supports numeric splits only"),
            Problem::ForestTooLarge { nodes, leaves } => {
                out.append("Forest too large for array layout (");
                text::push_decimal(out, nodes as u64);
                out.append(" nodes, ");
                text::push_decimal(out, leaves as u64);
                out.append(" leaves)");
            },
            Problem::EmptyForest => out.append(
                "Cannot generate code for an empty forest (0 trees).",
            ),
            Problem::ArrayUnsupported => out.append(
                "Array layout supports numeric splits only; this model contains categorical splits or CatBoost CTR features. Use --layout auto or ifelse.",
            ),
            Problem::SoftmaxClasses { classes } => {
                out.append("Softmax requires at least 2 classes, got ");
                text::push_decimal(out, classes as u64);
            },
            Problem::UnevenSoftmax { trees, classes } => {
                out.append("Tree count (");
                text::push_decimal(out, trees as u64);
                out.append(") must be divisible by n_classes (");
                text::push_decimal(out, classes as u64);
                out.append(") for softmax");
            },
            Problem::NoStdCatboost => out.append(
                "CatBoost CTR models are not supported with --no-std",
            ),
            Problem::UnexpectedEnd => out.append("failed to fill whole buffer"),
            Problem::IniFields => out.append(
                "model.ini is missing required fields (h2o_version or algo)",
            ),
            Problem::MissingLearner => out.append(
                "Missing 'learner' key - not an XGBoost JSON model",
            ),
            Problem::MultiOutput { targets } => {
                out.append("Multi-output models are not supported (num_target = ");
                text::push_decimal(out, targets as u64);
                out.append(")");
            },
            Problem::HingeObjective => out.append(
                "binary:hinge outputs a 0/1 step function bonsai does not implement; retrain with binary:logistic",
            ),
            Problem::LinearBooster => out.append(
                "gblinear boosters have no trees to transpile; only tree boosters are supported",
            ),
            Problem::TreesNotArray => out.append(
                "learner.gradient_booster.model.trees is not an array",
            ),
            Problem::WeightDrop { weights, trees } => {
                out.append("weight_drop length (");
                text::push_decimal(out, weights as u64);
                out.append(") does not match tree count (");
                text::push_decimal(out, trees as u64);
                out.append(")");
            },
            Problem::CategoricalSplits => out.append(
                "Native categorical splits are not supported. Retrain without enable_categorical, or one-hot/label encode categorical features.",
            ),
            Problem::ArrayLengths => out.append("XGBoost tree arrays have mismatched lengths"),
            Problem::TooDeep => out.append(
                "tree depth exceeds maximum (256); possible malformed model",
            ),
            Problem::NodeOutOfBounds { id } => {
                out.append("node id ");
                text::push_signed(out, id);
                out.append(" out of bounds");
            },
            Problem::InvalidChild { id, left, right } => {
                out.append("node ");
                text::push_signed(out, id);
                out.append(" has invalid child id (left=");
                text::push_signed(out, left);
                out.append(", right=");
                text::push_signed(out, right);
                out.append(")");
            },
            Problem::MissingTreeInfo => out.append(
                "Missing 'tree_info' key - not a LightGBM JSON model",
            ),
            Problem::TreeInfoNotArray => out.append("'tree_info' is not an array"),
            Problem::OneVersusAll => out.append(
                "multiclassova applies a per-class sigmoid, which bonsai does not implement; retrain with objective=multiclass",
            ),
            Problem::CrossEntropyLambda => out.append(
                "cross_entropy_lambda uses an output transform bonsai does not implement; retrain with objective=cross_entropy",
            ),
            Problem::MissingTreeStructure => out.append("Missing 'tree_structure' in tree"),
            Problem::MissingSplitFeature => out.append("Missing or invalid split_feature"),
            Problem::CategoryTooLarge => out.append(
                "categorical threshold exceeds the categories that a set can hold",
            ),
            Problem::ThresholdNotFloat => out.append("threshold is not a valid float"),
            Problem::EmptyCsv => out.append("Empty CSV"),
            Problem::NoFeatureColumns => out.append("No feature columns found"),
            Problem::MissingGroundTruth => out.append("Missing 'ground_truth' column"),
            Problem::ColumnCount { row, expected, got } => {
                out.append("Row ");
                text::push_decimal(out, row as u64);
                out.append(": expected ");
                text::push_decimal(out, expected as u64);
                out.append(" columns, got ");
                text::push_decimal(out, got as u64);
            },
            Problem::VerifyCatboost => out.append(
                "verify does not support CatBoost categorical (CTR) models yet; their harness needs string categorical inputs",
            ),
            Problem::PredictionWidth { expected, got } => {
                out.append("Expected ");
                text::push_decimal(out, expected as u64);
                out.append(" values per prediction line, got ");
                text::push_decimal(out, got as u64);
            },
            Problem::PredictionCount { predictions, rows } => {
                out.append("Prediction count (");
                text::push_decimal(out, predictions as u64);
                out.append(") does not match row count (");
                text::push_decimal(out, rows as u64);
                out.append(")");
            },
            Problem::NoGraph => out.append("ONNX Model has no graph"),
            Problem::NoTreeEnsemble => out.append("No TreeEnsemble operator found in ONNX graph"),
            Problem::CategoricalNodes => out.append(
                "This ONNX model contains categorical node attributes (nodes_categorical_attributes), which bonsai does not support. Only numeric splits are handled. Re-export the model with label-encoded categorical features.",
            ),
            Problem::NodeArrays { entries } => {
                out.append("ONNX node arrays have mismatched lengths (nodes_treeids has ");
                text::push_decimal(out, entries as u64);
                out.append(", others differ)");
            },
            Problem::LeafArrays => out.append("ONNX leaf arrays have mismatched lengths"),
            Problem::ClassIds => out.append("ONNX class ids cannot be used as class numbers"),
            Problem::UnknownNode { id } => {
                out.append("Node ID ");
                text::push_signed(out, id);
                out.append(" is neither a recorded split nor a leaf.");
            },
            Problem::LeafWithoutWeight { id } => {
                out.append("Node ID ");
                text::push_signed(out, id);
                out.append(" has mode LEAF but no leaf weight was found in the ONNX model.");
            },
            Problem::CyclicTree { id } => {
                out.append("Node ID ");
                text::push_signed(out, id);
                out.append(" is its own descendant.");
            },
            Problem::MissingObliviousTrees => out.append(
                "Missing 'oblivious_trees' key — not a CatBoost JSON model",
            ),
            Problem::ObliviousTreesNotArray => out.append("'oblivious_trees' is not an array"),
            Problem::ZeroStride => out.append("'hash_stride' is zero"),
            Problem::ScaleAndBias => out.append(
                "'scale_and_bias' does not hold a scale and a bias",
            ),
            Problem::MissingSplits => out.append("Missing 'splits' in tree"),
            Problem::SplitsNotArray => out.append("'splits' is not an array"),
            Problem::MissingFloatFeature => out.append("Missing 'float_feature_index'"),
            Problem::MissingBorder => out.append("Missing 'border'"),
            Problem::MissingSplitIndex => out.append("Missing 'split_index' for OnlineCtr"),
            Problem::MissingLeafValues => out.append("Missing 'leaf_values' in tree"),
            Problem::LeafValuesNotArray => out.append("'leaf_values' is not an array"),
            Problem::InvalidLeafValue => out.append("Invalid leaf value"),
            Problem::LeafCount { expected, classes, leaves, got } => {
                out.append("Tree values mismatch: expected ");
                text::push_decimal(out, expected as u64);
                out.append(" values (");
                text::push_decimal(out, classes as u64);
                out.append(" classes * ");
                text::push_decimal(out, leaves as u64);
                out.append(" leaves), got ");
                text::push_decimal(out, got as u64);
            },
        }
    }
}

impl Part {
    /// The name of the part after the text `out`.
    pub open spec fn with_name(self, out: Seq<char>) -> Seq<char> {
        match self {
            Part::Tree { index } => out + "tree "@ + text::decimal(index as nat),
            Part::TreeFile { index } => out + "Failed to parse tree "@
                + text::decimal(index as nat),
            Part::LeftChild => out + "left_child"@,
            Part::RightChild => out + "right_child"@,
            Part::TreeStructure => out + "tree_structure"@,
            Part::LeftChildren => out + "left_children"@,
            Part::RightChildren => out + "right_children"@,
            Part::SplitIndices => out + "split_indices"@,
            Part::SplitConditions => out + "split_conditions"@,
            Part::DefaultLeft => out + "default_left"@,
        }
    }

    fn push_name(self, out: &mut String)
        ensures
            final(out)@ == self.with_name(old(out)@),
    {
        match self {
            Part::Tree { index } => {
                out.append("tree ");
                text::push_decimal(out, index as u64);
            },
            Part::TreeFile { index } => {
                out.append("Failed to parse tree ");
                text::push_decimal(out, index as u64);
            },
            Part::LeftChild => out.append("left_child"),
            Part::RightChild => out.append("right_child"),
            Part::TreeStructure => out.append("tree_structure"),
            Part::LeftChildren => out.append("left_children"),
            Part::RightChildren => out.append("right_children"),
            Part::SplitIndices => out.append("split_indices"),
            Part::SplitConditions => out.append("split_conditions"),
            Part::DefaultLeft => out.append("default_left"),
        }
    }
}

impl Complaint {
    /// The message about a piece of text after the text `out`.
    pub open spec fn with_message(self, out: Seq<char>, about: Seq<char>) -> Seq<char> {
        match self {
            Complaint::Extension => out + "Unsupported file extension '."@ + about
                + "'. Expected .zip (MOJO), .onnx/.pb (ONNX), or .json (XGBoost/LightGBM/CatBoost)."@,
            Complaint::CtrTable => out + "Missing CTR data for identifier: "@ + about,
            Complaint::Algorithm => out + "Unsupported algorithm '"@ + about
                + "'. Only 'gbm' and 'drf' are supported."@,
            Complaint::MissingTreeFile => out + "Missing tree file: "@ + about,
            Complaint::MissingAuxFile => out + "Missing aux file: "@ + about,
            Complaint::Unreadable => out + about,
            Complaint::NotAnArchive => out
                + "Failed to read as ZIP. Is this a valid MOJO?: "@ + about,
            Complaint::MissingIni => out
                + "Could not find 'model.ini' in the MOJO archive: "@ + about,
            Complaint::InvalidJson => out
                + "Failed to parse JSON — is this a valid model file?: "@ + about,
            Complaint::ExpectedArray => out + "expected array, got "@ + about,
            Complaint::ExpectedInteger => out + "expected integer, got "@ + about,
            Complaint::ExpectedFloat => out + "expected float, got "@ + about,
            Complaint::LeafNotNumber => out + "leaf_value is not a number: "@ + about,
            Complaint::CategoricalThreshold => out
                + "Unexpected categorical threshold type: "@ + about,
            Complaint::ThresholdType => out + "Unexpected threshold type: "@ + about,
            Complaint::NoDataRows => out + "No data rows in "@ + about,
            Complaint::UnrecognizedJson => out + "Unrecognized JSON model format in '"@ + about
                + "'. Expected XGBoost JSON (top-level 'learner' key), LightGBM JSON (top-level 'tree_info' key), or CatBoost JSON (top-level 'oblivious_trees' key)."@,
            Complaint::BaseScore => out + "Invalid base_score: '"@ + about + "'"@,
            Complaint::BaseScores => out + "Invalid multiclass base_score vector: '"@ + about
                + "'"@,
            Complaint::Categories => out + "Invalid categorical threshold '"@ + about
                + "': expected pipe-separated integers"@,
            Complaint::Threshold => out + "Invalid threshold string: '"@ + about + "'"@,
            Complaint::DecisionType => out + "Unsupported decision_type: '"@ + about + "'"@,
            Complaint::SplitType => out + "Unsupported CatBoost split type: "@ + about,
            Complaint::MissingAttribute => out + "Missing "@ + about,
            Complaint::MissingColumn { classes } => out + "Missing column '"@ + about + "' for a "@
                + text::decimal(classes as nat) + "-class model"@,
            Complaint::Reference { row } => out + "Row "@ + text::decimal(row as nat)
                + ": invalid reference value '"@ + about + "'"@,
            Complaint::Prediction => out + "Invalid prediction output '"@ + about + "'"@,
        }
    }

    fn push_message(self, out: &mut String, about: &str)
        ensures
            final(out)@ == self.with_message(old(out)@, about@),
    {
        match self {
            Complaint::Extension => {
                out.append("Unsupported file extension '.");
                out.append(about);
                out.append("'. Expected .zip (MOJO), .onnx/.pb (ONNX), or .json (XGBoost/LightGBM/CatBoost).");
            },
            Complaint::CtrTable => {
                out.append("Missing CTR data for identifier: ");
                out.append(about);
            },
            Complaint::Algorithm => {
                out.append("Unsupported algorithm '");
                out.append(about);
                out.append("'. Only 'gbm' and 'drf' are supported.");
            },
            Complaint::MissingTreeFile => {
                out.append("Missing tree file: ");
                out.append(about);
            },
            Complaint::MissingAuxFile => {
                out.append("Missing aux file: ");
                out.append(about);
            },
            Complaint::Unreadable => out.append(about),
            Complaint::NotAnArchive => {
                out.append("Failed to read as ZIP. Is this a valid MOJO?: ");
                out.append(about);
            },
            Complaint::MissingIni => {
                out.append("Could not find 'model.ini' in the MOJO archive: ");
                out.append(about);
            },
            Complaint::InvalidJson => {
                out.append("Failed to parse JSON — is this a valid model file?: ");
                out.append(about);
            },
            Complaint::ExpectedArray => {
                out.append("expected array, got ");
                out.append(about);
            },
            Complaint::ExpectedInteger => {
                out.append("expected integer, got ");
                out.append(about);
            },
            Complaint::ExpectedFloat => {
                out.append("expected float, got ");
                out.append(about);
            },
            Complaint::LeafNotNumber => {
                out.append("leaf_value is not a number: ");
                out.append(about);
            },
            Complaint::CategoricalThreshold => {
                out.append("Unexpected categorical threshold type: ");
                out.append(about);
            },
            Complaint::ThresholdType => {
                out.append("Unexpected threshold type: ");
                out.append(about);
            },
            Complaint::NoDataRows => {
                out.append("No data rows in ");
                out.append(about);
            },
            Complaint::UnrecognizedJson => {
                out.append("Unrecognized JSON model format in '");
                out.append(about);
                out.append(
                    "'. Expected XGBoost JSON (top-level 'learner' key), LightGBM JSON (top-level 'tree_info' key), or CatBoost JSON (top-level 'oblivious_trees' key).",
                );
            },
            Complaint::BaseScore => {
                out.append("Invalid base_score: '");
                out.append(about);
                out.append("'");
            },
            Complaint::BaseScores => {
                out.append("Invalid multiclass base_score vector: '");
                out.append(about);
                out.append("'");
            },
            Complaint::Categories => {
                out.append("Invalid categorical threshold '");
                out.append(about);
                out.append("': expected pipe-separated integers");
            },
            Complaint::Threshold => {
                out.append("Invalid threshold string: '");
                out.append(about);
                out.append("'");
            },
            Complaint::DecisionType => {
                out.append("Unsupported decision_type: '");
                out.append(about);
                out.append("'");
            },
            Complaint::SplitType => {
                out.append("Unsupported CatBoost split type: ");
                out.append(about);
            },
            Complaint::MissingAttribute => {
                out.append("Missing ");
                out.append(about);
            },
            Complaint::MissingColumn { classes } => {
                out.append("Missing column '");
                out.append(about);
                out.append("' for a ");
                text::push_decimal(out, classes as u64);
                out.append("-class model");
            },
            Complaint::Reference { row } => {
                out.append("Row ");
                text::push_decimal(out, row as u64);
                out.append(": invalid reference value '");
                out.append(about);
                out.append("'");
            },
            Complaint::Prediction => {
                out.append("Invalid prediction output '");
                out.append(about);
                out.append("'");
            },
        }
    }
}

impl FailureView {
    /// The message after the text `out`: the parts from the outside in, then what is wrong.
    pub open spec fn with_message(self, out: Seq<char>) -> Seq<char>
        decreases self,
    {
        match self {
            FailureView::Plain(problem) => problem.with_message(out),
            FailureView::About { complaint, text } => complaint.with_message(out, text),
            FailureView::Caused { complaint, text, fault } => complaint.with_message(out, text)
                + ": "@ + fault,
            FailureView::Cell { row, column, value } => out + "Row "@ + text::decimal(row as nat)
                + ": column '"@ + column + "' value '"@ + value
                + "' is not numeric — verify supports numeric features only (label-encode categoricals first)"@,
            FailureView::Within { part, cause } => cause.with_message(
                part.with_name(out) + ": "@,
            ),
        }
    }

    /// What is wrong, without the parts around it.
    pub open spec fn root(self) -> FailureView
        decreases self,
    {
        match self {
            FailureView::Within { cause, .. } => cause.root(),
            _ => self,
        }
    }
}

impl Failure {
    fn push_message(&self, out: &mut String)
        ensures
            final(out)@ == self@.with_message(old(out)@),
        decreases self,
    {
        match self {
            Failure::Plain(problem) => problem.push_message(out),
            Failure::About { complaint, text } => complaint.push_message(out, text.as_str()),
            Failure::Caused { complaint, text, fault } => {
                complaint.push_message(out, text.as_str());
                out.append(": ");
                out.append(fault.as_str());
            },
            Failure::Cell { row, column, value } => {
                out.append("Row ");
                text::push_decimal(out, *row as u64);
                out.append(": column '");
                out.append(column.as_str());
                out.append("' value '");
                out.append(value.as_str());
                out.append(
                    "' is not numeric — verify supports numeric features only (label-encode categoricals first)",
                );
            },
            Failure::Within { part, cause } => {
                part.push_name(out);
                out.append(": ");
                cause.push_message(out);
            },
        }
    }

    /// The message: the parts from the outside in, then what is wrong.
    pub fn message(&self) -> (r: String)
        ensures
            r@ == self@.with_message(seq![]),
    {
        let mut out = String::new();
        self.push_message(&mut out);
        out
    }

    /// What is wrong, without the parts around it.
    pub fn root_cause(&self) -> (r: &Failure)
        ensures
            r@ == self@.root(),
        decreases self,
    {
        match self {
            Failure::Within { cause, .. } => cause.root_cause(),
            _ => self,
        }
    }
}

/// The message of a failure ends with the message of its root cause.
pub proof fn message_ends_with_the_root_cause(failure: FailureView, out: Seq<char>) -> (start: Seq<
    char,
>)
    ensures
        failure.with_message(out) == failure.root().with_message(start),
    decreases failure,
{
    match failure {
        FailureView::Within { part, cause } => message_ends_with_the_root_cause(
            *cause,
            part.with_name(out) + ": "@,
        ),
        _ => out,
    }
}

} // verus!
