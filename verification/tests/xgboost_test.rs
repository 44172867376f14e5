use bonsai::error::{Failure, Problem};
use bonsai::frontends::xgboost::{
    is_known_objective, objective, parse_json, post_transform_for_objective,
};
use bonsai::frontends::{Finish, ParsedModel};
use bonsai::ir::{Forest, MissingDirection, Node, Operator, PostTransform, SplitKind};
use bonsai::json;
use bonsai::number::{F32, F64};

fn d(x: f64) -> F64 {
    F64 { bits: x.to_bits() }
}

fn single(x: F32) -> f32 {
    f32::from_bits(x.bits)
}

fn double(x: F64) -> f64 {
    f64::from_bits(x.bits)
}

fn parse(json: &str) -> Forest {
    let root = json::parse(json).unwrap();
    finished(parse_json(&root).unwrap())
}

/// Does the arithmetic that is left to do on a parsed model.
fn finished(model: ParsedModel) -> Forest {
    let mut forest = model.forest;
    if model.finish == Finish::BaseLogOdds {
        let p = double(forest.base_score);
        forest.base_score = d((p / (1.0 - p)).ln());
    }
    forest
}

// Minimal 3-node tree: root splits feature[0] < 0.5; left leaf=1.0, right leaf=-1.0
const REGRESSION_JSON: &str = r#"{
  "learner": {
    "learner_model_param": {"base_score":"0","num_class":"0","num_feature":"2"},
    "objective": {"name": "reg:squarederror"},
    "gradient_booster": {"model": {"trees": [{
      "left_children":  [1, -1, -1],
      "right_children": [2, -1, -1],
      "split_indices":  [0,  0,  0],
      "split_conditions": [0.5, 1.0, -1.0],
      "default_left":   [0,  0,  0]
    }]}}
  }
}"#;

// Same tree with binary:logistic objective and feature[1] as root, NaN→left
const LOGISTIC_JSON: &str = r#"{
  "learner": {
    "learner_model_param": {"base_score":"0","num_class":"0","num_feature":"2"},
    "objective": {"name": "binary:logistic"},
    "gradient_booster": {"model": {"trees": [{
      "left_children":  [1, -1, -1],
      "right_children": [2, -1, -1],
      "split_indices":  [1,  0,  0],
      "split_conditions": [0.3, 0.5, -0.5],
      "default_left":   [1,  0,  0]
    }]}}
  }
}"#;

const MULTICLASS_JSON: &str = r#"{
  "learner": {
    "learner_model_param": {"base_score":"0","num_class":"3","num_feature":"4"},
    "objective": {"name": "multi:softprob"},
    "gradient_booster": {"model": {"trees": [
      {"left_children":[-1],"right_children":[-1],"split_indices":[0],"split_conditions":[0.1],"default_left":[0]},
      {"left_children":[-1],"right_children":[-1],"split_indices":[0],"split_conditions":[0.2],"default_left":[0]},
      {"left_children":[-1],"right_children":[-1],"split_indices":[0],"split_conditions":[0.3],"default_left":[0]},
      {"left_children":[-1],"right_children":[-1],"split_indices":[0],"split_conditions":[0.4],"default_left":[0]},
      {"left_children":[-1],"right_children":[-1],"split_indices":[0],"split_conditions":[0.5],"default_left":[0]},
      {"left_children":[-1],"right_children":[-1],"split_indices":[0],"split_conditions":[0.6],"default_left":[0]}
    ]}}
  }
}"#;

#[test]
fn xgboost_test_regression_tree_structure() {
    let forest = parse(REGRESSION_JSON);

    assert_eq!(forest.trees.len(), 1);
    assert_eq!(forest.post_transform, PostTransform::Identity);
    assert_eq!(forest.base_score, d(0.0));

    // Root: split on feature 0, threshold 0.5, operator LessThan
    let root = &forest.trees[0].root;
    let (fi, th, op, left, right) = match root {
        Node::Split {
            feature_idx,
            split:
                SplitKind::Numeric {
                    threshold,
                    operator,
                },
            left_child,
            right_child,
            ..
        } => (
            *feature_idx,
            *threshold,
            *operator,
            left_child,
            right_child,
        ),
        _ => panic!("expected numeric split at root"),
    };
    assert_eq!(fi, 0);
    assert!((single(th) - 0.5).abs() < 1e-6, "threshold {}", single(th));
    assert_eq!(op, Operator::LessThan);

    // Left leaf = 1.0, right leaf = -1.0
    assert!(matches!(**left,  Node::Leaf { value } if (double(value) - 1.0).abs() < 1e-6));
    assert!(matches!(**right, Node::Leaf { value } if (double(value) + 1.0).abs() < 1e-6));
}

#[test]
fn xgboost_test_logistic_post_transform_and_nan_routing() {
    let forest = parse(LOGISTIC_JSON);

    assert_eq!(forest.post_transform, PostTransform::Logit);
    assert_eq!(forest.base_score, d(0.0));

    // Root split: feature 1, NaN → left (default_left = 1)
    match &forest.trees[0].root {
        Node::Split {
            feature_idx,
            missing_direction,
            ..
        } => {
            assert_eq!(*feature_idx, 1);
            assert_eq!(*missing_direction, MissingDirection::Left);
        }
        _ => panic!("expected split"),
    }
}

#[test]
fn test_base_score_logit_conversion() {
    // "5e-01" = 0.5 → logit(0.5) = 0.0
    let json = LOGISTIC_JSON.replace(r#""base_score":"0""#, r#""base_score":"5e-01""#);
    let forest = parse(&json);
    assert!(
        double(forest.base_score).abs() < 1e-9,
        "logit(0.5) should be ~0, got {}",
        double(forest.base_score)
    );
}

#[test]
fn xgboost_test_multiclass_softmax() {
    let forest = parse(MULTICLASS_JSON);
    assert_eq!(
        forest.post_transform,
        PostTransform::Softmax { n_classes: 3 }
    );
    assert_eq!(forest.trees.len(), 6);
}

#[test]
fn test_missing_learner_key_errors() {
    let root = json::parse(r#"{"not_learner": {}}"#).unwrap();
    assert!(parse_json(&root).is_err());
}

#[test]
fn test_dart_weight_drop_scaling() {
    // Modern layout: name "gbtree" with a weight_drop array.
    let json = r#"{
      "learner": {
        "learner_model_param": {"base_score":"0","num_class":"0"},
        "objective": {"name": "reg:squarederror"},
        "gradient_booster": {"name": "gbtree", "weight_drop": [0.25, 0.5], "model": {"trees": [
          {"left_children":[-1],"right_children":[-1],"split_indices":[0],"split_conditions":[1.0],"default_left":[0]},
          {"left_children":[-1],"right_children":[-1],"split_indices":[0],"split_conditions":[2.0],"default_left":[0]}
        ]}}
      }
    }"#;
    let forest = parse(json);
    assert_eq!(forest.trees[0].weight, d(0.25));
    assert_eq!(forest.trees[1].weight, d(0.5));
}

#[test]
fn test_legacy_dart_layout() {
    // Older layout: name "dart" with the model nested under "gbtree".
    let json = r#"{
      "learner": {
        "learner_model_param": {"base_score":"0","num_class":"0"},
        "objective": {"name": "reg:squarederror"},
        "gradient_booster": {"name": "dart", "weight_drop": [0.75], "gbtree": {"model": {"trees": [
          {"left_children":[-1],"right_children":[-1],"split_indices":[0],"split_conditions":[3.0],"default_left":[0]}
        ]}}}
      }
    }"#;
    let forest = parse(json);
    assert_eq!(forest.trees.len(), 1);
    assert_eq!(forest.trees[0].weight, d(0.75));
}

#[test]
fn test_gblinear_rejected() {
    let json = r#"{
      "learner": {
        "learner_model_param": {"base_score":"0","num_class":"0"},
        "objective": {"name": "reg:squarederror"},
        "gradient_booster": {"name": "gblinear", "model": {"weights": [0.1, 0.2]}}
      }
    }"#;
    let root = json::parse(json).unwrap();
    let err = parse_json(&root).unwrap_err().message();
    assert!(err.contains("gblinear"), "unexpected error: {}", err);
}

#[test]
fn test_native_categorical_split_rejected() {
    let json = REGRESSION_JSON.replace(
        r#""default_left":   [0,  0,  0]"#,
        r#""default_left":   [0,  0,  0],
           "split_type":     [1,  0,  0],
           "categories_nodes": [0]"#,
    );
    let root = json::parse(&json).unwrap();
    let err = parse_json(&root).unwrap_err().root_cause().message();
    assert!(err.contains("categorical"), "unexpected error: {}", err);
}

#[test]
fn test_multi_output_rejected() {
    let json =
        REGRESSION_JSON.replace(r#""num_class":"0""#, r#""num_class":"0","num_target":"3""#);
    let root = json::parse(&json).unwrap();
    let err = parse_json(&root).unwrap_err().message();
    assert!(err.contains("num_target"), "unexpected error: {}", err);
}

#[test]
fn test_ranking_and_log_link_objectives() {
    let rank = parse(&REGRESSION_JSON.replace("reg:squarederror", "rank:ndcg"));
    assert_eq!(rank.post_transform, PostTransform::Identity);

    let poisson = parse(&REGRESSION_JSON.replace("reg:squarederror", "count:poisson"));
    assert_eq!(poisson.post_transform, PostTransform::Log);

    let tweedie = parse(&REGRESSION_JSON.replace("reg:squarederror", "reg:tweedie"));
    assert_eq!(tweedie.post_transform, PostTransform::Log);
}

#[test]
fn test_survival_objectives_use_log_link() {
    for obj in ["survival:cox", "survival:aft"] {
        let forest = parse(&REGRESSION_JSON.replace("reg:squarederror", obj));
        assert_eq!(forest.post_transform, PostTransform::Log, "{obj}");
    }
}

#[test]
fn test_hinge_rejected() {
    let json = REGRESSION_JSON.replace("reg:squarederror", "binary:hinge");
    let root = json::parse(&json).unwrap();
    let err = parse_json(&root).unwrap_err().message();
    assert!(err.contains("binary:hinge"), "unexpected error: {err}");
}

fn failure(json: &str) -> Failure {
    let root = json::parse(json).unwrap();
    parse_json(&root).unwrap_err()
}

#[test]
fn xgboost_probabilities_need_log_odds() {
    let json = LOGISTIC_JSON.replace(r#""base_score":"0""#, r#""base_score":"2.5E-1""#);
    let root = json::parse(&json).unwrap();
    let model = parse_json(&root).unwrap();
    assert_eq!(model.finish, Finish::BaseLogOdds);
    assert_eq!(model.forest.base_score, d(0.25));
    assert!((double(finished(model).base_score) + 3.0f64.ln()).abs() < 1e-12);
    let root = json::parse(LOGISTIC_JSON).unwrap();
    assert_eq!(parse_json(&root).unwrap().finish, Finish::Ready);
}

#[test]
fn xgboost_bracketed_base_scores_are_read() {
    let forest = parse(&REGRESSION_JSON.replace(r#""base_score":"0""#, r#""base_score":"[1.5E0]""#));
    assert_eq!(forest.base_score, d(1.5));
    let forest = parse(&MULTICLASS_JSON.replace(
        r#""base_score":"0""#,
        r#""base_score":"[0.25, -1,3e0]""#,
    ));
    assert_eq!(forest.base_scores, vec![d(0.25), d(-1.0), d(3.0)]);
    assert_eq!(forest.base_score, d(0.0));
}

#[test]
fn xgboost_failures_name_the_place() {
    let broken = REGRESSION_JSON.replace(r#""base_score":"0""#, r#""base_score":"zero""#);
    assert_eq!(failure(&broken).message(), "Invalid base_score: 'zero': invalid float literal");
    let broken = MULTICLASS_JSON.replace(r#""base_score":"0""#, r#""base_score":"[1,x,2]""#);
    assert_eq!(
        failure(&broken).message(),
        "Invalid multiclass base_score vector: '[1,x,2]': invalid float literal"
    );
    let broken = REGRESSION_JSON.replace("[1, -1, -1]", r#""none""#);
    assert_eq!(
        failure(&broken).message(),
        "tree 0: left_children: expected array, got \"none\""
    );
    let broken = REGRESSION_JSON.replace("[1, -1, -1]", "7");
    assert_eq!(failure(&broken).message(), "tree 0: left_children: expected array, got \"?\"");
    let broken = REGRESSION_JSON.replace("[1, -1, -1]", r#"[1, "x", -1]"#);
    assert_eq!(
        failure(&broken).message(),
        "tree 0: left_children: expected integer, got String(\"x\")"
    );
    let broken = REGRESSION_JSON.replace("[0.5, 1.0, -1.0]", r#"[0.5, null, -1.0]"#);
    assert_eq!(failure(&broken).message(), "tree 0: split_conditions: expected float, got Null");
    let broken = REGRESSION_JSON.replace("[1, -1, -1]", "[1, -1]");
    assert_eq!(
        failure(&broken).message(),
        "tree 0: XGBoost tree arrays have mismatched lengths"
    );
    let broken = REGRESSION_JSON.replace("[1, -1, -1]", "[7, -1, -1]");
    assert_eq!(failure(&broken).message(), "tree 0: node id 7 out of bounds");
    let broken = REGRESSION_JSON.replace("[2, -1, -1]", "[-1, -1, -1]");
    assert_eq!(
        failure(&broken).message(),
        "tree 0: node 0 has invalid child id (left=1, right=-1)"
    );
    let broken = REGRESSION_JSON.replace("[1, -1, -1]", "[0, -1, -1]");
    assert!(matches!(failure(&broken).root_cause(), Failure::Plain(Problem::TooDeep)));
    let broken = REGRESSION_JSON.replace(r#""trees": ["#, r#""other": ["#);
    assert!(matches!(failure(&broken), Failure::Plain(Problem::TreesNotArray)));
}

#[test]
fn xgboost_weight_drop_has_to_fit() {
    let broken = REGRESSION_JSON.replace(
        r#""gradient_booster": {"#,
        r#""gradient_booster": {"weight_drop": [0.5, 0.5], "#,
    );
    assert_eq!(
        failure(&broken).message(),
        "weight_drop length (2) does not match tree count (1)"
    );
}

#[test]
fn xgboost_objectives_map_to_transforms() {
    let transform = |name: &str, classes: usize| post_transform_for_objective(name, classes);
    assert_eq!(transform("binary:logistic", 0).unwrap(), PostTransform::Logit);
    assert_eq!(transform("binary:logitraw", 0).unwrap(), PostTransform::Identity);
    assert_eq!(transform("multi:softmax", 5).unwrap(), PostTransform::Softmax { n_classes: 5 });
    assert!(matches!(
        transform("binary:hinge", 0),
        Err(Failure::Plain(Problem::HingeObjective))
    ));
}

#[test]
fn xgboost_objectives_are_named() {
    let named = json::parse(r#"{"learner": {"objective": {"name": "rank:ndcg"}}}"#).unwrap();
    assert_eq!(objective(&named), "rank:ndcg");
    assert_eq!(objective(&json::parse("{}").unwrap()), "reg:squarederror");
    assert!(is_known_objective("rank:ndcg"));
    assert!(is_known_objective("reg:gamma"));
    assert!(is_known_objective("binary:hinge"));
    assert!(!is_known_objective("reg:unheard_of"));
}
