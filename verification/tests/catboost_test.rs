use bonsai::backends::rust::{generate, generate_with_options, CodegenOptions, Layout};
use bonsai::error::{Failure, Problem};
use bonsai::frontends::catboost::{classes, is_known_loss, loss, parse_json};
use bonsai::frontends::{Finish, ParsedModel};
use bonsai::interpreter::eval_node;
use bonsai::ir::{Forest, Node, PostTransform, SplitKind};
use bonsai::json;
use bonsai::number::{F32, F64};

fn f(x: f32) -> F32 {
    F32 { bits: x.to_bits() }
}

fn d(x: f64) -> F64 {
    F64 { bits: x.to_bits() }
}

fn parse(json: &str) -> ParsedModel {
    parse_json(&json::parse(json).unwrap()).unwrap()
}

fn failure(json: &str) -> Failure {
    parse_json(&json::parse(json).unwrap()).unwrap_err()
}

// Bit 0 of a leaf's number is the first split, bit 1 the second.
const REGRESSION_JSON: &str = r#"{
  "model_info": {"params": {"loss_function": {"type": "RMSE"}}},
  "oblivious_trees": [{
    "splits": [
      {"float_feature_index": 0, "border": 0.5, "split_type": "FloatFeature"},
      {"float_feature_index": 1, "border": 2.5}
    ],
    "leaf_values": [10.0, 11.0, 12.0, 13.0]
  }],
  "scale_and_bias": [1, [0.75]]
}"#;

const MULTICLASS_JSON: &str = r#"{
  "model_info": {
    "loss_function": "MultiClass",
    "params": {"data_processing_options": {"classes_count": 3}}
  },
  "oblivious_trees": [{
    "splits": [{"float_feature_index": 0, "border": 0.5}],
    "leaf_values": [1, 2, 3, 4, 5, 6]
  }],
  "scale_and_bias": [1, [0.1, 0.2, 0.3]]
}"#;

const CTR_JSON: &str = r#"{
  "model_info": {"params": {"loss_function": {"type": "Logloss"}}},
  "features_info": {"ctrs": [{
    "identifier": "ctr-a",
    "elements": [{"cat_feature_index": 2, "combination_element": "cat_feature_value"}],
    "prior_numerator": 0.5, "prior_denomerator": 1, "scale": 15, "shift": 0
  }]},
  "ctr_data": {"ctr-a": {
    "hash_stride": 3,
    "hash_map": ["18446744073709551615", 1, 2, 7, 3, 4, "9", 5, 6],
    "counter_denominator": 4
  }},
  "oblivious_trees": [{
    "splits": [{"split_type": "OnlineCtr", "split_index": 0, "border": 7.5}],
    "leaf_values": [-1.5, 2.5]
  }]
}"#;

#[test]
fn catboost_leaves_are_numbered_by_their_tests() {
    let model = parse(REGRESSION_JSON);
    assert_eq!(model.finish, Finish::Ready);
    assert_eq!(model.forest.post_transform, PostTransform::Identity);
    assert_eq!(model.forest.base_score, d(0.75));
    assert_eq!(model.forest.trees.len(), 1);
    let root = &model.forest.trees[0].root;
    let at = |x: f32, y: f32| eval_node(root, &[f(x), f(y)]).unwrap();
    assert_eq!(at(0.0, 0.0), d(10.0));
    assert_eq!(at(1.0, 0.0), d(11.0));
    assert_eq!(at(0.0, 3.0), d(12.0));
    assert_eq!(at(1.0, 3.0), d(13.0));
    assert_eq!(at(0.5, 2.5), d(10.0));
    assert_eq!(at(f32::NAN, f32::NAN), d(10.0));
}

#[test]
fn catboost_trees_are_oblivious() {
    let model = parse(REGRESSION_JSON);
    let root = &model.forest.trees[0].root;
    assert_eq!(root.get_oblivious_splits().map(|s| s.len()), Some(2));
    let mut leaves = Vec::new();
    root.collect_leaves(&mut leaves);
    assert_eq!(leaves, vec![d(10.0), d(11.0), d(12.0), d(13.0)]);
}

#[test]
fn catboost_classes_get_a_tree_each() {
    let model = parse(MULTICLASS_JSON);
    let forest: &Forest = &model.forest;
    assert_eq!(forest.post_transform, PostTransform::Softmax { n_classes: 3 });
    assert_eq!(forest.base_scores, vec![d(0.1), d(0.2), d(0.3)]);
    assert_eq!(forest.base_score, d(0.0));
    assert_eq!(forest.trees.len(), 3);
    for (c, tree) in forest.trees.iter().enumerate() {
        assert_eq!(eval_node(&tree.root, &[f(0.0)]).unwrap(), d(1.0 + c as f64));
        assert_eq!(eval_node(&tree.root, &[f(1.0)]).unwrap(), d(4.0 + c as f64));
    }
}

#[test]
fn catboost_scale_is_left_to_apply() {
    let model = parse(&REGRESSION_JSON.replace("[1, [0.75]]", "[0.5, [0.75]]"));
    assert_eq!(model.finish, Finish::ScaleLeaves { scale: d(0.5) });
}

#[test]
fn catboost_tables_are_sorted_by_hash() {
    let model = parse(CTR_JSON);
    assert_eq!(model.forest.post_transform, PostTransform::Logit);
    let metadata = model.forest.catboost_metadata.as_ref().unwrap();
    assert_eq!(metadata.ctrs.len(), 1);
    assert_eq!(metadata.ctrs[0].identifier, "ctr-a");
    assert_eq!(metadata.ctrs[0].prior_numerator, d(0.5));
    assert_eq!(metadata.ctrs[0].scale, d(15.0));
    assert_eq!(metadata.ctrs[0].elements[0].cat_feature_index, 2);
    assert_eq!(metadata.ctr_data.len(), 1);
    let (name, table) = &metadata.ctr_data[0];
    assert_eq!(name, "ctr-a");
    assert_eq!(table.hash_stride, 3);
    assert_eq!(table.counter_denominator, 4);
    assert_eq!(table.hash_map, vec![7, 3, 4, 9, 5, 6, u64::MAX, 1, 2]);
    assert!(matches!(
        &model.forest.trees[0].root,
        Node::Split { feature_idx: 0, split: SplitKind::OnlineCtr { ctr_idx: 0, threshold }, .. }
            if *threshold == f(7.5)
    ));
}

#[test]
fn catboost_counters_are_generated() {
    let model = parse(CTR_JSON);
    let code = generate(&model.forest).unwrap();
    assert!(code.contains("predict_cat"), "{code}");
    assert!(code.contains("18446744073709551615u64"), "{code}");
    let options = CodegenOptions { layout: Layout::Auto, no_std: true };
    assert!(matches!(
        generate_with_options(&model.forest, options),
        Err(Failure::Plain(Problem::NoStdCatboost))
    ));
}

#[test]
fn catboost_counter_without_table_is_named() {
    let model = parse(&CTR_JSON.replace(r#""ctr_data": {"ctr-a""#, r#""ctr_data": {"ctr-b""#));
    assert_eq!(
        generate(&model.forest).unwrap_err().message(),
        "Missing CTR data for identifier: ctr-a"
    );
}

#[test]
fn catboost_failures_name_the_place() {
    assert!(matches!(failure("{}"), Failure::Plain(Problem::MissingObliviousTrees)));
    assert!(matches!(
        failure(r#"{"oblivious_trees": 1}"#),
        Failure::Plain(Problem::ObliviousTreesNotArray)
    ));
    assert_eq!(
        failure(r#"{"oblivious_trees": [{}]}"#).message(),
        "tree 0: Missing 'splits' in tree"
    );
    assert_eq!(
        failure(r#"{"oblivious_trees": [{"splits": 3}]}"#).message(),
        "tree 0: 'splits' is not an array"
    );
    assert_eq!(
        failure(r#"{"oblivious_trees": [{"splits": [{"border": 1}]}]}"#).message(),
        "tree 0: Missing 'float_feature_index'"
    );
    assert_eq!(
        failure(r#"{"oblivious_trees": [{"splits": [{"float_feature_index": 1}]}]}"#).message(),
        "tree 0: Missing 'border'"
    );
    assert_eq!(
        failure(r#"{"oblivious_trees": [{"splits": [{"split_type": "OnlineCtr"}]}]}"#).message(),
        "tree 0: Missing 'split_index' for OnlineCtr"
    );
    assert_eq!(
        failure(r#"{"oblivious_trees": [{"splits": [{"split_type": "OneHot"}]}]}"#).message(),
        "tree 0: Unsupported CatBoost split type: OneHot"
    );
    assert_eq!(
        failure(r#"{"oblivious_trees": [{"splits": []}]}"#).message(),
        "tree 0: Missing 'leaf_values' in tree"
    );
    assert_eq!(
        failure(r#"{"oblivious_trees": [{"splits": [], "leaf_values": 1}]}"#).message(),
        "tree 0: 'leaf_values' is not an array"
    );
    assert_eq!(
        failure(r#"{"oblivious_trees": [{"splits": [], "leaf_values": ["x"]}]}"#).message(),
        "tree 0: Invalid leaf value"
    );
    assert_eq!(
        failure(&MULTICLASS_JSON.replace("[1, 2, 3, 4, 5, 6]", "[1, 2, 3, 4, 5]")).message(),
        "tree 0: Tree values mismatch: expected 6 values (3 classes * 2 leaves), got 5"
    );
    assert!(matches!(
        failure(&REGRESSION_JSON.replace("[1, [0.75]]", "[]")),
        Failure::Plain(Problem::ScaleAndBias)
    ));
    assert!(matches!(
        failure(&CTR_JSON.replace(r#""hash_stride": 3"#, r#""hash_stride": 0"#)),
        Failure::Plain(Problem::ZeroStride)
    ));
}

#[test]
fn catboost_loss_functions_are_named() {
    let root = json::parse(MULTICLASS_JSON).unwrap();
    assert_eq!(loss(&root), "MultiClass");
    assert_eq!(classes(&root), 3);
    assert_eq!(loss(&json::parse("{}").unwrap()), "RMSE");
    assert!(is_known_loss("MultiClassOneVsAll"));
    assert!(is_known_loss("Poisson"));
    assert!(!is_known_loss("Unheard"));
}
