use bonsai::inspector::{
    analyze_tree, categorical_sets, feature_usage, inferred_task, most_used, single_leaf_trees,
    statistics, summarize,
};
use bonsai::ir::{
    AggregationKind, Forest, MissingDirection, Node, Operator, PostTransform, SplitKind, Tree,
};
use bonsai::number::{F32, F64};
use bonsai::report::{feature_report, set_report, tree_structures, validation_warnings};
use bonsai::scorer::feature_names;

fn f(x: f32) -> F32 {
    F32 { bits: x.to_bits() }
}

fn d(x: f64) -> F64 {
    F64 { bits: x.to_bits() }
}

fn leaf(v: f64) -> Node {
    Node::Leaf { value: d(v) }
}

fn split(feature_idx: usize, split: SplitKind, missing: MissingDirection, left: Node, right: Node) -> Node {
    Node::Split {
        feature_idx,
        split,
        left_child: Box::new(left),
        right_child: Box::new(right),
        missing_direction: missing,
    }
}

fn numeric(threshold: f32) -> SplitKind {
    SplitKind::Numeric { threshold: f(threshold), operator: Operator::LessThan }
}

fn set(data: Vec<u8>) -> SplitKind {
    SplitKind::Categorical { bitoff: 2, nbits: 9, data }
}

fn forest(trees: Vec<Node>, base_score: f64) -> Forest {
    Forest {
        trees: trees.into_iter().map(|root| Tree { root, weight: d(0.5) }).collect(),
        base_score: d(base_score),
        base_scores: vec![],
        aggregation: AggregationKind::Sum,
        post_transform: PostTransform::Identity,
        catboost_metadata: None,
    }
}

fn sample() -> Forest {
    forest(
        vec![
            split(
                3,
                numeric(0.5),
                MissingDirection::Left,
                leaf(1.0),
                split(1, set(vec![5, 1]), MissingDirection::Unspecified, leaf(2.0), leaf(-3.25)),
            ),
            leaf(7.0),
            split(3, numeric(1.5), MissingDirection::Right, leaf(1.0), leaf(2.0)),
        ],
        0.0,
    )
}

#[test]
fn structures_show_every_node() {
    assert_eq!(
        tree_structures(&sample(), 2),
        "\n--- Tree 0 (weight: 0.5) ---\n\
         ├─ Split: x[3] LessThan 0.500000 [missing: Left]\n\
         \x20 └─ Leaf: 1.000000\n\
         \x20 ├─ Split: x[1] in bitset(off=2, bits=9, 2 bytes)\n\
         \x20   └─ Leaf: 2.000000\n\
         \x20   └─ Leaf: -3.250000\n\
         \n--- Tree 1 (weight: 0.5) ---\n\
         └─ Leaf: 7.000000\n"
    );
    let counter = split(
        0,
        SplitKind::OnlineCtr { ctr_idx: 4, threshold: f(0.1) },
        MissingDirection::NaVsRest,
        leaf(0.0),
        leaf(0.0),
    );
    assert!(tree_structures(&forest(vec![counter], 0.0), 9)
        .contains("├─ Split: ctr[4] > 0.100000 [missing: NaVsRest]\n"));
    assert_eq!(tree_structures(&sample(), 0), "");
}

#[test]
fn warnings_tell_what_looks_wrong() {
    assert_eq!(
        validation_warnings(&sample()),
        vec!["⚠ 1 tree(s) have only a single leaf node"]
    );
    assert_eq!(
        validation_warnings(&forest(vec![], -1000.5)),
        vec!["⚠ Forest has no trees!", "⚠ Unusually large base score: -1000.50"]
    );
    let stump = || split(0, numeric(0.5), MissingDirection::Left, leaf(1.0), leaf(2.0));
    assert!(validation_warnings(&forest(vec![stump()], 1000.0)).is_empty());
    assert!(validation_warnings(&forest(vec![stump()], f64::NAN)).is_empty());
    assert_eq!(validation_warnings(&forest(vec![stump()], f64::INFINITY)).len(), 1);
}

#[test]
fn trees_are_counted() {
    let model = sample();
    let profile = analyze_tree(&model.trees[0].root);
    assert_eq!(profile.depth, 2);
    assert_eq!(profile.nodes, 5);
    assert_eq!(profile.leaves, 3);
    assert_eq!(profile.numeric, 1);
    assert_eq!(profile.categorical, 1);
    assert_eq!(single_leaf_trees(&model), 1);
    let all = statistics(&model);
    assert_eq!(all.min_depth, 0);
    assert_eq!(all.max_depth, 2);
    assert_eq!(all.nodes, 9);
    assert_eq!(all.leaves, 6);
}

#[test]
fn features_are_counted() {
    let usage = feature_usage(&sample());
    let listed: Vec<(usize, usize, bool)> =
        usage.iter().map(|u| (u.feature, u.splits, u.categorical)).collect();
    assert_eq!(listed, vec![(1, 1, true), (3, 2, false)]);
    let top = most_used(&usage, 1);
    assert_eq!(top.len(), 1);
    assert_eq!(top[0].feature, 3);
    assert_eq!(
        feature_report(&usage, &most_used(&usage, 10)),
        "Number of features: 4\nFeatures used:      2\n\nTop 10 most-used features:\n\
         \x20 1. Feature 3    (     numeric): 2 splits\n\
         \x20 2. Feature 1    ( categorical): 1 splits\n\
         \n⚠ Warning: 2 feature(s) are never used in splits\n"
    );
    let far = forest(
        vec![split(123456, numeric(0.5), MissingDirection::Left, leaf(1.0), leaf(2.0))],
        0.0,
    );
    let usage = feature_usage(&far);
    assert!(feature_report(&usage, &usage).contains("  1. Feature 123456 (     numeric): 1 splits\n"));
    assert_eq!(
        feature_report(&vec![], &vec![]),
        "No features found (all trees are single leaves)\n"
    );
}

#[test]
fn sets_are_summed_up() {
    let sets = categorical_sets(&sample());
    assert_eq!(sets.len(), 1);
    assert_eq!(sets[0].data_len, 2);
    assert_eq!(sets[0].data_sample, vec![5, 1]);
    assert!(summarize(&sets, 3).is_none());
    let summary = summarize(&sets, 1).unwrap();
    assert_eq!(summary.min_nbits, 9);
    assert_eq!(summary.max_bitoff, 2);
    assert_eq!(
        set_report(&summary, &sets[summary.first]),
        "\nFeature 1:\n  Number of categorical splits: 1\n  Bitset offset range: 2 to 2\n\
         \x20 Bitset size range:   9 to 9 levels\n\
         \x20 Example bitset:      bitoff=2, nbits=9, data_len=2 bytes\n\
         \x20   Data (hex):        05 01\n"
    );
}

#[test]
fn tasks_are_inferred() {
    assert_eq!(inferred_task(PostTransform::Logit), "Binary Classification");
    assert_eq!(inferred_task(PostTransform::Identity), "Regression");
    assert_eq!(inferred_task(PostTransform::Log), "Regression (log-transformed)");
    assert_eq!(
        inferred_task(PostTransform::Softmax { n_classes: 4 }),
        "Multi-class Classification (4 classes)"
    );
}

#[test]
fn targets_and_predictions_are_no_features() {
    let columns: Vec<String> =
        ["a", "target", "b", "prediction", "Target"].iter().map(|s| s.to_string()).collect();
    assert_eq!(feature_names(None, &columns), vec!["a", "b", "Target"]);
    assert_eq!(feature_names(Some(vec!["target".to_string()]), &columns), vec!["target"]);
}
