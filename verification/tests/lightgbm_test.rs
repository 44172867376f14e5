use bonsai::error::{Failure, Problem};
use bonsai::frontends::lightgbm::{
    is_known_objective, objective, parse_json, post_transform_for_objective,
};
use bonsai::interpreter::eval_node;
use bonsai::ir::{
    AggregationKind, Forest, MissingDirection, Node, Operator, PostTransform, SplitKind,
};
use bonsai::json;
use bonsai::number::{F32, F64};
use serde_json::Value;

fn d(x: f64) -> F64 {
    F64 { bits: x.to_bits() }
}

fn single(x: F32) -> f32 {
    f32::from_bits(x.bits)
}

fn double(x: F64) -> f64 {
    f64::from_bits(x.bits)
}

fn parse(json: &str) -> Forest {
    let root = json::parse(json).unwrap();
    parse_json(&root).unwrap()
}

// Minimal regression tree: root splits feature[0] <= 0.5; left leaf=1.0, right leaf=-1.0
const REGRESSION_JSON: &str = r#"{
  "name": "tree",
  "num_class": 1,
  "num_tree_per_iteration": 1,
  "objective": ["regression", "mean_squared_error"],
  "average_output": false,
  "tree_info": [{
    "num_leaves": 2,
    "shrinkage": 1.0,
    "tree_structure": {
      "split_index": 0,
      "split_feature": 0,
      "split_gain": 100.0,
      "threshold": "0.5",
      "decision_type": "<=",
      "default_left": false,
      "left_child":  {"leaf_index": 0, "leaf_value":  1.0},
      "right_child": {"leaf_index": 1, "leaf_value": -1.0}
    }
  }]
}"#;

// Binary classification with NaN routing to left on feature[1]
const LOGISTIC_JSON: &str = r#"{
  "name": "tree",
  "num_class": 1,
  "num_tree_per_iteration": 1,
  "objective": ["binary", "crossentropy"],
  "average_output": false,
  "tree_info": [{
    "num_leaves": 2,
    "shrinkage": 1.0,
    "tree_structure": {
      "split_index": 0,
      "split_feature": 1,
      "split_gain": 50.0,
      "threshold": "0.3",
      "decision_type": "<=",
      "default_left": true,
      "left_child":  {"leaf_index": 0, "leaf_value":  0.5},
      "right_child": {"leaf_index": 1, "leaf_value": -0.5}
    }
  }]
}"#;

// Multiclass (3 classes, 6 trees)
const MULTICLASS_JSON: &str = r#"{
  "name": "tree",
  "num_class": 3,
  "num_tree_per_iteration": 3,
  "objective": ["multiclass", "softmax"],
  "average_output": false,
  "tree_info": [
    {"num_leaves":1,"shrinkage":1.0,"tree_structure":{"leaf_index":0,"leaf_value":0.1}},
    {"num_leaves":1,"shrinkage":1.0,"tree_structure":{"leaf_index":0,"leaf_value":0.2}},
    {"num_leaves":1,"shrinkage":1.0,"tree_structure":{"leaf_index":0,"leaf_value":0.3}},
    {"num_leaves":1,"shrinkage":1.0,"tree_structure":{"leaf_index":0,"leaf_value":0.4}},
    {"num_leaves":1,"shrinkage":1.0,"tree_structure":{"leaf_index":0,"leaf_value":0.5}},
    {"num_leaves":1,"shrinkage":1.0,"tree_structure":{"leaf_index":0,"leaf_value":0.6}}
  ]
}"#;

// Threshold as JSON number (not string) - some LightGBM versions emit this
const NUMERIC_THRESHOLD_JSON: &str = r#"{
  "name": "tree",
  "num_class": 1,
  "num_tree_per_iteration": 1,
  "objective": ["regression", "mse"],
  "average_output": false,
  "tree_info": [{
    "num_leaves": 2,
    "shrinkage": 1.0,
    "tree_structure": {
      "split_index": 0,
      "split_feature": 2,
      "split_gain": 10.0,
      "threshold": 0.75,
      "decision_type": "<=",
      "default_left": false,
      "left_child":  {"leaf_index": 0, "leaf_value": 2.0},
      "right_child": {"leaf_index": 1, "leaf_value": 3.0}
    }
  }]
}"#;

#[test]
fn lightgbm_test_regression_tree_structure() {
    let forest = parse(REGRESSION_JSON);

    assert_eq!(forest.trees.len(), 1);
    assert_eq!(forest.post_transform, PostTransform::Identity);
    assert_eq!(forest.base_score, d(0.0));

    let root = &forest.trees[0].root;
    let (fi, th, op, left, right) = match root {
        Node::Split {
            feature_idx,
            split:
                SplitKind::Numeric {
                    threshold,
                    operator,
                },
            left_child,
            right_child,
            ..
        } => (
            *feature_idx,
            *threshold,
            *operator,
            left_child,
            right_child,
        ),
        _ => panic!("expected numeric split at root"),
    };

    assert_eq!(fi, 0);
    assert!((single(th) - 0.5).abs() < 1e-6, "threshold {}", single(th));
    assert_eq!(op, Operator::LessOrEqual);

    assert!(matches!(**left,  Node::Leaf { value } if (double(value) - 1.0).abs() < 1e-6));
    assert!(matches!(**right, Node::Leaf { value } if (double(value) + 1.0).abs() < 1e-6));
}

#[test]
fn lightgbm_test_logistic_post_transform_and_nan_routing() {
    let forest = parse(LOGISTIC_JSON);

    assert_eq!(forest.post_transform, PostTransform::Logit);
    assert_eq!(forest.base_score, d(0.0));

    match &forest.trees[0].root {
        Node::Split {
            feature_idx,
            missing_direction,
            ..
        } => {
            assert_eq!(*feature_idx, 1);
            assert_eq!(*missing_direction, MissingDirection::Left);
        }
        _ => panic!("expected split"),
    }
}

#[test]
fn lightgbm_test_multiclass_softmax() {
    let forest = parse(MULTICLASS_JSON);
    assert_eq!(
        forest.post_transform,
        PostTransform::Softmax { n_classes: 3 }
    );
    assert_eq!(forest.trees.len(), 6);
}

#[test]
fn test_numeric_threshold_as_json_number() {
    let forest = parse(NUMERIC_THRESHOLD_JSON);
    assert_eq!(forest.trees.len(), 1);
    match &forest.trees[0].root {
        Node::Split {
            feature_idx,
            split: SplitKind::Numeric { threshold, .. },
            ..
        } => {
            assert_eq!(*feature_idx, 2);
            assert!((single(*threshold) - 0.75).abs() < 1e-6, "threshold {}", single(*threshold));
        }
        _ => panic!("expected numeric split"),
    }
}

#[test]
fn test_missing_tree_info_key_errors() {
    let root = json::parse(r#"{"not_tree_info": []}"#).unwrap();
    assert!(parse_json(&root).is_err());
}

// Categorical split: decision_type "==" with threshold "0||2" (categories 0 and 2 go left)
const CATEGORICAL_JSON: &str = r#"{
  "name": "tree",
  "num_class": 1,
  "num_tree_per_iteration": 1,
  "objective": ["regression", "mean_squared_error"],
  "average_output": false,
  "tree_info": [{
    "num_leaves": 2,
    "shrinkage": 1.0,
    "tree_structure": {
      "split_index": 0,
      "split_feature": 3,
      "split_gain": 80.0,
      "threshold": "0||2",
      "decision_type": "==",
      "default_left": false,
      "left_child":  {"leaf_index": 0, "leaf_value": 5.0},
      "right_child": {"leaf_index": 1, "leaf_value": -5.0}
    }
  }]
}"#;

#[test]
fn test_categorical_split_parses_bitset() {
    let forest = parse(CATEGORICAL_JSON);
    assert_eq!(forest.trees.len(), 1);

    match &forest.trees[0].root {
        Node::Split {
            feature_idx,
            split:
                SplitKind::Categorical {
                    bitoff,
                    nbits,
                    data,
                },
            left_child,
            right_child,
            missing_direction,
        } => {
            assert_eq!(*feature_idx, 3);
            assert_eq!(*bitoff, 0);
            assert_eq!(*nbits, 3); // max category is 2, so nbits = 3
                                   // categories 0 and 2 are set: bits 0 and 2 → 0b00000101 = 0x05
            assert_eq!(data[0], 0x05, "bitset byte should have bits 0 and 2 set");

            // After child-swap: bonsai IN-bitset → right (given left = 5.0)
            //                   NOT in bitset   → left  (given right = -5.0)
            match left_child.as_ref() {
                Node::Leaf { value } => assert!(
                    (double(*value) + 5.0).abs() < 1e-9,
                    "left should be given right child (-5.0), got {}",
                    double(*value)
                ),
                _ => panic!("expected leaf"),
            }
            match right_child.as_ref() {
                Node::Leaf { value } => assert!(
                    (double(*value) - 5.0).abs() < 1e-9,
                    "right should be given left child (5.0), got {}",
                    double(*value)
                ),
                _ => panic!("expected leaf"),
            }

            // default_left=false → given missing goes right (given right = -5.0)
            // After swap: missing goes LEFT (the swapped right = given left = -5.0)
            assert_eq!(*missing_direction, MissingDirection::Left);
        }
        _ => panic!("expected categorical split"),
    }
}

#[test]
fn test_categorical_split_single_category() {
    let json = r#"{
      "name": "tree",
      "num_class": 1,
      "num_tree_per_iteration": 1,
      "objective": ["regression", "mse"],
      "average_output": false,
      "tree_info": [{
        "num_leaves": 2,
        "shrinkage": 1.0,
        "tree_structure": {
          "split_index": 0, "split_feature": 1, "split_gain": 10.0,
          "threshold": "7",
          "decision_type": "==",
          "default_left": true,
          "left_child":  {"leaf_index": 0, "leaf_value": 1.0},
          "right_child": {"leaf_index": 1, "leaf_value": 2.0}
        }
      }]
    }"#;
    let forest = parse(json);
    match &forest.trees[0].root {
        Node::Split {
            split: SplitKind::Categorical { nbits, data, .. },
            missing_direction,
            ..
        } => {
            assert_eq!(*nbits, 8); // category 7 → bit 7 of first byte
            assert_eq!(data[0], 0x80, "bit 7 should be set: 0x80");
            // default_left=true → after swap → MissingDirection::Right
            assert_eq!(*missing_direction, MissingDirection::Right);
        }
        _ => panic!("expected categorical split"),
    }
}

#[test]
fn test_categorical_split_invalid_threshold_errors() {
    let json = r#"{
      "name": "tree",
      "num_class": 1,
      "num_tree_per_iteration": 1,
      "objective": ["regression", "mse"],
      "average_output": false,
      "tree_info": [{
        "num_leaves": 2,
        "shrinkage": 1.0,
        "tree_structure": {
          "split_index": 0, "split_feature": 0, "split_gain": 10.0,
          "threshold": "not_a_number",
          "decision_type": "==",
          "default_left": false,
          "left_child":  {"leaf_index": 0, "leaf_value": 1.0},
          "right_child": {"leaf_index": 1, "leaf_value": 2.0}
        }
      }]
    }"#;
    let root = json::parse(json).unwrap();
    assert!(
        parse_json(&root).is_err(),
        "should fail on non-integer categorical threshold"
    );
}

#[test]
fn test_log_link_and_ranking_objectives() {
    let poisson = parse(
        &REGRESSION_JSON.replace(r#"["regression", "mean_squared_error"]"#, r#"["poisson"]"#),
    );
    assert_eq!(poisson.post_transform, PostTransform::Log);

    let rank = parse(&REGRESSION_JSON.replace(
        r#"["regression", "mean_squared_error"]"#,
        r#"["lambdarank"]"#,
    ));
    assert_eq!(rank.post_transform, PostTransform::Identity);
}

#[test]
fn test_unsupported_transforms_rejected() {
    for obj in ["multiclassova", "cross_entropy_lambda"] {
        let json = REGRESSION_JSON.replace(
            r#"["regression", "mean_squared_error"]"#,
            &format!(r#"["{}"]"#, obj),
        );
        let root = json::parse(&json).unwrap();
        assert!(
            parse_json(&root).is_err(),
            "objective '{}' should be rejected",
            obj
        );
    }
}

fn failure(json: &str) -> Failure {
    let root = json::parse(json).unwrap();
    parse_json(&root).unwrap_err()
}

#[test]
fn lightgbm_categories_go_where_the_document_sends_them() {
    let forest = parse(CATEGORICAL_JSON);
    let at = |x: f32| {
        let mut row = vec![F32 { bits: 0 }; 4];
        row[3] = F32 { bits: x.to_bits() };
        eval_node(&forest.trees[0].root, &row).unwrap()
    };
    assert_eq!(at(0.0), d(5.0));
    assert_eq!(at(1.0), d(-5.0));
    assert_eq!(at(2.0), d(5.0));
    assert_eq!(at(3.0), d(-5.0));
    assert_eq!(at(f32::NAN), d(-5.0));
}

#[test]
fn lightgbm_objectives_map_to_transforms() {
    let transform = |name: &str, classes: usize| post_transform_for_objective(name, classes);
    assert_eq!(transform("binary", 1).unwrap(), PostTransform::Logit);
    assert_eq!(transform("cross_entropy", 1).unwrap(), PostTransform::Logit);
    assert_eq!(transform("tweedie", 1).unwrap(), PostTransform::Log);
    assert_eq!(transform("quantile", 1).unwrap(), PostTransform::Identity);
    assert_eq!(transform("multiclass", 4).unwrap(), PostTransform::Softmax { n_classes: 4 });
}

#[test]
fn lightgbm_average_output_averages() {
    let forest = parse(&REGRESSION_JSON.replace(r#""average_output": false"#, r#""average_output": true"#));
    assert_eq!(forest.aggregation, AggregationKind::Average);
}

#[test]
fn lightgbm_failures_name_the_place() {
    let broken = REGRESSION_JSON.replace(r#""decision_type": "<=""#, r#""decision_type": "~""#);
    assert_eq!(
        failure(&broken).message(),
        "tree 0: tree_structure: Unsupported decision_type: '~'"
    );
    let broken = REGRESSION_JSON.replace(r#""leaf_value":  1.0"#, r#""leaf_value": "x""#);
    assert_eq!(
        failure(&broken).message(),
        "tree 0: tree_structure: left_child: leaf_value is not a number: String(\"x\")"
    );
    let broken = REGRESSION_JSON.replace(r#""split_feature": 0,"#, "");
    assert!(matches!(
        failure(&broken).root_cause(),
        Failure::Plain(Problem::MissingSplitFeature)
    ));
    let broken = REGRESSION_JSON.replace(r#""threshold": "0.5""#, r#""threshold": "half""#);
    assert_eq!(
        failure(&broken).root_cause().message(),
        "Invalid threshold string: 'half': invalid float literal"
    );
    let broken = REGRESSION_JSON.replace(r#""threshold": "0.5""#, r#""threshold": []"#);
    assert_eq!(
        failure(&broken).root_cause().message(),
        "Unexpected threshold type: Array []"
    );
    let broken = CATEGORICAL_JSON.replace(r#""threshold": "0||2""#, r#""threshold": true"#);
    assert_eq!(
        failure(&broken).root_cause().message(),
        "Unexpected categorical threshold type: Bool(true)"
    );
    let broken = CATEGORICAL_JSON.replace(r#""threshold": "0||2""#, r#""threshold": 1.5"#);
    assert_eq!(
        failure(&broken).root_cause().message(),
        "Invalid categorical threshold '1.5': expected pipe-separated integers: \
         invalid digit found in string"
    );
    let broken = CATEGORICAL_JSON.replace(r#""threshold": "0||2""#, r#""threshold": "0|x""#);
    assert_eq!(
        failure(&broken).root_cause().message(),
        "Invalid categorical threshold '0|x': expected pipe-separated integers: \
         invalid digit found in string"
    );
    let broken = REGRESSION_JSON.replace("tree_structure", "structure");
    assert!(matches!(
        failure(&broken).root_cause(),
        Failure::Plain(Problem::MissingTreeStructure)
    ));
    assert!(matches!(
        failure(r#"{"tree_info": 3}"#).root_cause(),
        Failure::Plain(Problem::TreeInfoNotArray)
    ));
}

/// An object of these members.
fn object(members: Vec<(&str, Value)>) -> Value {
    Value::Object(members.into_iter().map(|(key, value)| (key.to_string(), value)).collect())
}

/// A tree of so many splits, one below the other.
fn chain(splits: usize) -> Value {
    let leaf = |x: f64| object(vec![("leaf_value", Value::from(x))]);
    let mut node = leaf(1.0);
    for _ in 0..splits {
        node = object(vec![
            ("split_feature", Value::from(0u64)),
            ("threshold", Value::from(0.5)),
            ("left_child", node),
            ("right_child", leaf(2.0)),
        ]);
    }
    let tree = object(vec![("tree_structure", node)]);
    object(vec![("tree_info", Value::Array(vec![tree]))])
}

#[test]
fn lightgbm_trees_may_be_so_deep_and_no_deeper() {
    assert_eq!(parse_json(&chain(256)).unwrap().trees.len(), 1);
    let failure = parse_json(&chain(257)).unwrap_err();
    assert!(matches!(failure.root_cause(), Failure::Plain(Problem::TooDeep)));
}

#[test]
fn lightgbm_objectives_are_named() {
    let of = |text: &str| objective(&json::parse(text).unwrap());
    assert_eq!(of(r#"{"objective": "binary sigmoid:1"}"#), "binary");
    assert_eq!(of(r#"{"objective": ["lambdarank", "x"]}"#), "lambdarank");
    assert_eq!(of("{}"), "regression");
    assert!(is_known_objective("lambdarank"));
    assert!(is_known_objective("tweedie"));
    assert!(is_known_objective("ova"));
    assert!(!is_known_objective("unheard_of"));
}
