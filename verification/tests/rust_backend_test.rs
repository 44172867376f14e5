use bonsai::backends::rust::{
    generate, generate_with_layout, is_literal, refusal, CodegenOptions, Layout,
};
use bonsai::error::{Failure, Problem};
use bonsai::ir::{
    AggregationKind, Forest, MissingDirection, Node, Operator, PostTransform, SplitKind, Tree,
};
use bonsai::number::{F32, F64};

fn f(x: f32) -> F32 {
    F32 { bits: x.to_bits() }
}

fn d(x: f64) -> F64 {
    F64 { bits: x.to_bits() }
}

fn leaf(v: f64) -> Node {
    Node::Leaf { value: d(v) }
}

fn simple_split(fi: usize, th: f32, left: Node, right: Node) -> Node {
    Node::Split {
        feature_idx: fi,
        split: SplitKind::Numeric {
            threshold: f(th),
            operator: Operator::LessThan,
        },
        left_child: Box::new(left),
        right_child: Box::new(right),
        missing_direction: MissingDirection::Right,
    }
}

fn make_tree(root: Node) -> Tree {
    Tree { root, weight: d(1.0) }
}

#[test]
fn test_generate_oblivious_tree() {
    let split_kind = SplitKind::Numeric {
        threshold: f(0.5),
        operator: Operator::GreaterThan,
    };
    let root = Node::Split {
        feature_idx: 0,
        split: split_kind.clone(),
        left_child: Box::new(Node::Leaf { value: d(1.0) }),
        right_child: Box::new(Node::Leaf { value: d(0.0) }),
        missing_direction: MissingDirection::Unspecified,
    };
    let forest = Forest {
        trees: vec![Tree { root, weight: d(1.0) }],
        base_score: d(0.0),
        base_scores: vec![],
        aggregation: AggregationKind::Sum,
        post_transform: PostTransform::Identity,
        catboost_metadata: None,
    };
    let code = generate(&forest).unwrap();
    assert!(code.contains("let index = 0usize | if"));
    assert!(code.contains("const LEAVES : [f64 ; 2usize] = [0f64 , 1f64]"));
}

#[test]
fn test_generate_regression_identity() {
    let forest = Forest {
        trees: vec![make_tree(simple_split(0, 0.5, leaf(1.0), leaf(-1.0)))],
        base_score: d(0.0),
        base_scores: vec![],
        aggregation: AggregationKind::Sum,
        post_transform: PostTransform::Identity,
        catboost_metadata: None,
    };
    let code = generate(&forest).unwrap();
    assert!(code.contains("pub fn predict"));
    assert!(code.contains("pub fn predict_batch"));
    assert!(code.contains("raw as f32"));
    assert!(!code.contains("predict_proba"));
}

#[test]
fn test_generate_binary_logit() {
    let forest = Forest {
        trees: vec![make_tree(leaf(0.5))],
        base_score: d(0.0),
        base_scores: vec![],
        aggregation: AggregationKind::Sum,
        post_transform: PostTransform::Logit,
        catboost_metadata: None,
    };
    let code = generate(&forest).unwrap();
    assert!(code.contains("pub fn predict"));
    assert!(code.contains("pub fn predict_batch"));
    assert!(code.contains("exp"));
    assert!(!code.contains("predict_proba"));
}

#[test]
fn test_generate_multiclass_softmax_3_classes() {
    // 6 trees, 3 classes: tree 0,3 → class 0; tree 1,4 → class 1; tree 2,5 → class 2
    let trees: Vec<Tree> = (0..6).map(|i| make_tree(leaf(i as f64 * 0.1))).collect();
    let forest = Forest {
        trees,
        base_score: d(0.0),
        base_scores: vec![],
        aggregation: AggregationKind::Sum,
        post_transform: PostTransform::Softmax { n_classes: 3 },
        catboost_metadata: None,
    };
    let code = generate(&forest).unwrap();

    assert!(
        code.contains("predict_proba"),
        "should generate predict_proba"
    );
    assert!(
        code.contains("predict_batch"),
        "should generate predict_batch"
    );
    assert!(
        !code.contains("pub fn predict("),
        "should NOT generate predict"
    );
    assert!(
        code.contains("Vec < f32 >"),
        "return type should be Vec<f32>"
    );
    assert!(
        code.contains("max_raw"),
        "should include numerical stability max"
    );
    assert!(code.contains("sum_e"), "should include softmax denominator");
    assert!(code.contains("raw_0"), "class 0 raw score");
    assert!(code.contains("raw_1"), "class 1 raw score");
    assert!(code.contains("raw_2"), "class 2 raw score");

    let max_raw_decl_idx = code.find("let max_raw").expect("max_raw decl not found");
    let after_max = &code[max_raw_decl_idx..];
    assert!(
        after_max.contains(". max"),
        "max_raw should use .max() chaining"
    );
    let eq_pos = after_max.find('=').expect("= not found in max_raw decl");
    let after_eq = after_max[eq_pos + 1..].trim_start();
    assert!(
        !after_eq.starts_with("raw_0 raw_1"),
        "max_raw must not expand all idents: got '{}'",
        &after_eq[..after_eq.len().min(40)]
    );
}

#[test]
fn test_generate_softmax_rejects_odd_tree_count() {
    let trees: Vec<Tree> = (0..5).map(|_| make_tree(leaf(0.0))).collect();
    let forest = Forest {
        trees,
        base_score: d(0.0),
        base_scores: vec![],
        aggregation: AggregationKind::Sum,
        post_transform: PostTransform::Softmax { n_classes: 3 },
        catboost_metadata: None,
    };
    assert!(
        generate(&forest).is_err(),
        "should error on indivisible tree count"
    );
}

#[test]
fn test_generate_no_bitset_without_categoricals() {
    let forest = Forest {
        trees: vec![make_tree(leaf(1.0))],
        base_score: d(0.0),
        base_scores: vec![],
        aggregation: AggregationKind::Sum,
        post_transform: PostTransform::Identity,
        catboost_metadata: None,
    };
    let code = generate(&forest).unwrap();
    assert!(!code.contains("bitset_contains"));
}

fn forest_of(trees: Vec<Tree>, post_transform: PostTransform) -> Forest {
    Forest {
        trees,
        base_score: d(0.5),
        base_scores: vec![],
        aggregation: AggregationKind::Sum,
        post_transform,
        catboost_metadata: None,
    }
}

fn lopsided_tree() -> Tree {
    make_tree(simple_split(
        0,
        0.5,
        Node::Split {
            feature_idx: 1,
            split: SplitKind::Numeric {
                threshold: f(-1.5),
                operator: Operator::GreaterOrEqual,
            },
            left_child: Box::new(leaf(1.0)),
            right_child: Box::new(leaf(2.0)),
            missing_direction: MissingDirection::Left,
        },
        leaf(-3.5),
    ))
}

#[test]
fn infinite_numbers_are_named() {
    let tree = make_tree(simple_split(0, f32::INFINITY, leaf(f64::NEG_INFINITY), leaf(f64::NAN)));
    let code = generate(&forest_of(vec![tree], PostTransform::Identity)).unwrap();
    assert!(code.contains("f32 :: INFINITY"), "{code}");
    assert!(code.contains("f64 :: NEG_INFINITY"), "{code}");
    assert!(code.contains("f64 :: NAN"), "{code}");
}

#[test]
fn empty_forest_has_no_source() {
    let failure = generate(&forest_of(vec![], PostTransform::Identity)).unwrap_err();
    assert!(matches!(failure, Failure::Plain(Problem::EmptyForest)));
    assert_eq!(failure.message(), "Cannot generate code for an empty forest (0 trees).");
}

#[test]
fn softmax_needs_two_classes() {
    let forest = forest_of(vec![make_tree(leaf(1.0))], PostTransform::Softmax { n_classes: 1 });
    assert!(matches!(
        generate(&forest),
        Err(Failure::Plain(Problem::SoftmaxClasses { classes: 1 }))
    ));
}

#[test]
fn uneven_softmax_tells_the_counts() {
    let trees: Vec<Tree> = (0..5).map(|_| make_tree(leaf(0.0))).collect();
    let failure = generate(&forest_of(trees, PostTransform::Softmax { n_classes: 3 })).unwrap_err();
    assert_eq!(
        failure.message(),
        "Tree count (5) must be divisible by n_classes (3) for softmax"
    );
}

#[test]
fn categorical_forest_gets_the_set_helper() {
    let tree = make_tree(Node::Split {
        feature_idx: 2,
        split: SplitKind::Categorical { bitoff: 3, nbits: 10, data: vec![0xFF, 0x03] },
        left_child: Box::new(leaf(1.0)),
        right_child: Box::new(leaf(2.0)),
        missing_direction: MissingDirection::Right,
    });
    let code = generate(&forest_of(vec![tree], PostTransform::Identity)).unwrap();
    assert!(code.contains("fn bitset_contains"), "{code}");
    assert!(code.contains("255u8 , 3u8"), "{code}");
}

#[test]
fn infinite_weight_is_no_literal() {
    let mut forest = forest_of(vec![make_tree(leaf(1.0))], PostTransform::Identity);
    assert!(is_literal(&forest));
    forest.trees[0].weight = d(f64::INFINITY);
    assert!(!is_literal(&forest));
}

#[test]
fn refused_forests_need_no_literals() {
    let mut forest = forest_of(
        vec![make_tree(leaf(1.0)), make_tree(leaf(2.0)), make_tree(leaf(3.0))],
        PostTransform::Softmax { n_classes: 2 },
    );
    forest.trees[0].weight = d(f64::INFINITY);
    let options = CodegenOptions { layout: Layout::IfElse, no_std: false };
    let message = "Tree count (3) must be divisible by n_classes (2) for softmax";
    assert_eq!(refusal(&forest, options).unwrap().message(), message);
    assert_eq!(generate(&forest).unwrap_err().message(), message);
    assert_eq!(
        generate_with_layout(&forest, Layout::Array).unwrap_err().message(),
        message
    );
    let accepted = forest_of(vec![make_tree(leaf(1.0))], PostTransform::Identity);
    assert!(refusal(&accepted, options).is_none());
}

#[test]
fn averages_have_no_weights() {
    let mut forest = forest_of(vec![make_tree(leaf(2.0)), lopsided_tree()], PostTransform::Identity);
    forest.aggregation = AggregationKind::Average;
    forest.trees[0].weight = d(f64::INFINITY);
    assert!(is_literal(&forest));
    let code = generate(&forest).unwrap();
    assert!(
        code.contains(
            "(0f64 + Self :: tree_0 (features , ctrs) + Self :: tree_1 (features , ctrs)) / 2f64"
        ),
        "{code}"
    );
    let code = generate_with_layout(&forest, Layout::Array).unwrap();
    assert!(code.contains("acc += eval_tree (ROOTS [t] , features) ;"), "{code}");
    assert!(!code.contains("WEIGHTS"), "{code}");
}

#[test]
fn signs_are_tokens_of_their_own() {
    let forest = forest_of(
        vec![make_tree(simple_split(0, -0.5, leaf(-0.25), leaf(-0.0)))],
        PostTransform::Identity,
    );
    let code = generate_with_layout(&forest, Layout::Array).unwrap();
    assert!(code.contains("[- 0.5f32]"), "{code}");
    assert!(code.contains("[- 0.25f64 , - 0f64]"), "{code}");
    assert!(code.contains("[- 1i32]"), "{code}");
}

#[test]
fn same_forest_gives_the_same_source() {
    let forest = forest_of(vec![lopsided_tree()], PostTransform::Logit);
    assert_eq!(generate(&forest).unwrap(), generate(&forest).unwrap());
    assert_eq!(
        generate(&forest).unwrap(),
        generate_with_layout(&forest, Layout::IfElse).unwrap()
    );
}
