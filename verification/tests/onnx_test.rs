use bonsai::error::{Failure, Problem};
use bonsai::frontends::onnx::{Attribute, Graph, GraphNode, Model, OnnxFrontend};
use bonsai::frontends::Frontend;
use bonsai::interpreter::eval_node;
use bonsai::ir::{AggregationKind, Forest, MissingDirection, Node, Operator, PostTransform, SplitKind};
use bonsai::number::{F32, F64};

fn f(x: f32) -> F32 {
    F32 { bits: x.to_bits() }
}

fn d(x: f64) -> F64 {
    F64 { bits: x.to_bits() }
}

fn attribute(name: &str) -> Attribute {
    Attribute {
        name: Some(name.to_string()),
        s: None,
        ints: vec![],
        floats: vec![],
        strings: vec![],
    }
}

fn ints(name: &str, values: &[i64]) -> Attribute {
    Attribute { ints: values.to_vec(), ..attribute(name) }
}

fn floats(name: &str, values: &[f32]) -> Attribute {
    Attribute { floats: values.iter().map(|x| f(*x)).collect(), ..attribute(name) }
}

fn strings(name: &str, values: &[&str]) -> Attribute {
    Attribute { strings: values.iter().map(|s| s.as_bytes().to_vec()).collect(), ..attribute(name) }
}

fn text(name: &str, value: &str) -> Attribute {
    Attribute { s: Some(value.as_bytes().to_vec()), ..attribute(name) }
}

fn model(op_type: &str, attribute: Vec<Attribute>) -> Model {
    Model {
        graph: Some(Graph {
            node: vec![
                GraphNode { op_type: Some("Cast".to_string()), attribute: vec![] },
                GraphNode { op_type: Some(op_type.to_string()), attribute },
            ],
        }),
    }
}

fn parse(model: &Model) -> Result<Forest, Failure> {
    OnnxFrontend::new().parse(model)
}

/// Two stumps: in tree 7 the split comes last, in tree 3 it comes first.
fn stumps() -> Vec<Attribute> {
    vec![
        ints("nodes_treeids", &[7, 7, 7, 3, 3, 3]),
        ints("nodes_nodeids", &[1, 2, 0, 0, 1, 2]),
        ints("nodes_featureids", &[0, 0, 4, 1, 0, 0]),
        floats("nodes_values", &[0.0, 0.0, 2.5, 0.5, 0.0, 0.0]),
        strings("nodes_modes", &["LEAF", "LEAF", "BRANCH_GT", "BRANCH_LEQ", "LEAF", "LEAF"]),
        ints("nodes_truenodeids", &[0, 0, 1, 1, 0, 0]),
        ints("nodes_falsenodeids", &[0, 0, 2, 2, 0, 0]),
        ints("nodes_missing_value_tracks_true", &[0, 0, 1, 0, 0, 0]),
    ]
}

fn regressor() -> Vec<Attribute> {
    let mut attributes = stumps();
    attributes.push(ints("target_treeids", &[3, 3, 7, 7]));
    attributes.push(ints("target_nodeids", &[1, 2, 1, 2]));
    attributes.push(floats("target_weights", &[1.0, 2.0, 3.0, 4.0]));
    attributes
}

#[test]
fn onnx_regressor_is_read() {
    let forest = parse(&model("TreeEnsembleRegressor", regressor())).unwrap();
    assert_eq!(forest.trees.len(), 2);
    assert_eq!(forest.aggregation, AggregationKind::Sum);
    assert_eq!(forest.post_transform, PostTransform::Identity);
    assert_eq!(forest.base_score, d(0.0));
    // Trees come in the order of their identifiers.
    match &forest.trees[0].root {
        Node::Split { feature_idx, split, missing_direction, .. } => {
            assert_eq!(*feature_idx, 1);
            assert!(matches!(
                split,
                SplitKind::Numeric { threshold, operator: Operator::LessOrEqual }
                    if *threshold == f(0.5)
            ));
            assert_eq!(*missing_direction, MissingDirection::Right);
        }
        _ => panic!("expected a split"),
    }
    match &forest.trees[1].root {
        Node::Split { feature_idx, split, missing_direction, .. } => {
            assert_eq!(*feature_idx, 4);
            assert!(matches!(split, SplitKind::Numeric { operator: Operator::GreaterThan, .. }));
            assert_eq!(*missing_direction, MissingDirection::Left);
        }
        _ => panic!("expected a split"),
    }
    let mut row = vec![f(0.0); 5];
    row[1] = f(0.5);
    assert_eq!(eval_node(&forest.trees[0].root, &row).unwrap(), d(1.0));
    assert_eq!(eval_node(&forest.trees[1].root, &row).unwrap(), d(4.0));
    row[4] = f(f32::NAN);
    assert_eq!(eval_node(&forest.trees[1].root, &row).unwrap(), d(3.0));
}

#[test]
fn onnx_ensemble_attributes_are_read() {
    let mut attributes = regressor();
    attributes.push(text("aggregate_function", "AVERAGE"));
    attributes.push(text("post_transform", "LOGISTIC"));
    attributes.push(floats("base_values", &[0.25, 9.0]));
    let forest = parse(&model("TreeEnsembleRegressor", attributes)).unwrap();
    assert_eq!(forest.aggregation, AggregationKind::Average);
    assert_eq!(forest.post_transform, PostTransform::Logit);
    assert_eq!(forest.base_score, d(0.25));
}

#[test]
fn onnx_binary_classifier_takes_the_positive_class() {
    let mut attributes = stumps();
    attributes.push(ints("class_treeids", &[3, 3, 3, 3, 7, 7]));
    attributes.push(ints("class_nodeids", &[1, 1, 2, 2, 1, 2]));
    attributes.push(ints("class_ids", &[0, 1, 0, 1, 1, 1]));
    attributes.push(floats("class_weights", &[0.1, 0.2, 0.3, 0.4, 0.5, 0.6]));
    attributes.push(text("post_transform", "SOFTMAX"));
    let forest = parse(&model("TreeEnsembleClassifier", attributes)).unwrap();
    assert_eq!(forest.post_transform, PostTransform::Identity);
    let row = vec![f(0.0); 5];
    assert_eq!(eval_node(&forest.trees[0].root, &row).unwrap(), d(0.2f32 as f64));
    assert_eq!(eval_node(&forest.trees[1].root, &row).unwrap(), d(0.6f32 as f64));
}

#[test]
fn onnx_multiclass_trees_own_a_class() {
    let mut attributes = stumps();
    // Tree 3 owns class 0 and tree 7 class 1 of three.
    attributes.push(ints("class_treeids", &[3, 3, 3, 7, 7, 7]));
    attributes.push(ints("class_nodeids", &[1, 1, 2, 1, 1, 2]));
    attributes.push(ints("class_ids", &[0, 2, 0, 0, 1, 1]));
    attributes.push(floats("class_weights", &[1.0, 2.0, 3.0, 4.0, 5.0, 6.0]));
    attributes.push(text("post_transform", "SOFTMAX"));
    let forest = parse(&model("TreeEnsembleClassifier", attributes)).unwrap();
    assert_eq!(forest.post_transform, PostTransform::Softmax { n_classes: 3 });
    let mut row = vec![f(0.0); 5];
    row[4] = f(3.0);
    assert_eq!(eval_node(&forest.trees[0].root, &row).unwrap(), d(1.0));
    assert_eq!(eval_node(&forest.trees[1].root, &row).unwrap(), d(5.0));
}

#[test]
fn onnx_unknown_modes_are_less_or_equal() {
    let mut attributes = regressor();
    attributes[4] = strings("nodes_modes", &["LEAF", "LEAF", "BRANCH_XX", "BRANCH_NEQ", "LEAF", "LEAF"]);
    let forest = parse(&model("TreeEnsembleRegressor", attributes)).unwrap();
    let operator = |t: usize| match &forest.trees[t].root {
        Node::Split { split: SplitKind::Numeric { operator, .. }, .. } => *operator,
        _ => panic!("expected a split"),
    };
    assert_eq!(operator(0), Operator::NotEqual);
    assert_eq!(operator(1), Operator::LessOrEqual);
}

fn failure(attributes: Vec<Attribute>) -> Failure {
    parse(&model("TreeEnsembleRegressor", attributes)).unwrap_err()
}

#[test]
fn onnx_failures_tell_what_is_wrong() {
    assert!(matches!(
        parse(&Model { graph: None }),
        Err(Failure::Plain(Problem::NoGraph))
    ));
    assert!(matches!(
        parse(&model("Gemm", regressor())),
        Err(Failure::Plain(Problem::NoTreeEnsemble))
    ));
    for i in 0..7 {
        let mut attributes = regressor();
        let name = attributes.remove(i).name.unwrap();
        assert_eq!(failure(attributes).message(), format!("Missing {}", name));
    }
    let mut attributes = regressor();
    attributes.push(strings("nodes_categorical_attributes", &["a"]));
    assert!(matches!(failure(attributes), Failure::Plain(Problem::CategoricalNodes)));
    let mut attributes = regressor();
    attributes[1].ints.pop();
    assert_eq!(
        failure(attributes).message(),
        "ONNX node arrays have mismatched lengths (nodes_treeids has 6, others differ)"
    );
    let mut attributes = regressor();
    attributes[9].ints.pop();
    assert!(matches!(failure(attributes), Failure::Plain(Problem::LeafArrays)));
    let mut attributes = regressor();
    attributes[5] = ints("nodes_truenodeids", &[0, 0, 9, 1, 0, 0]);
    assert_eq!(
        failure(attributes).message(),
        "Node ID 9 is neither a recorded split nor a leaf."
    );
    let mut attributes = regressor();
    attributes[9] = ints("target_nodeids", &[1, 5, 1, 2]);
    assert_eq!(
        failure(attributes).message(),
        "Node ID 2 has mode LEAF but no leaf weight was found in the ONNX model."
    );
    let mut attributes = regressor();
    attributes[5] = ints("nodes_truenodeids", &[0, 0, 1, 0, 0, 0]);
    assert!(matches!(failure(attributes), Failure::Plain(Problem::CyclicTree { .. })));
}
