use bonsai::backends::rust::{
    generate_with_layout, generate_with_options, resolve_layout, CodegenOptions, Layout,
    ARRAY_LAYOUT_NODE_THRESHOLD,
};
use bonsai::backends::rust_array::{
    encode_split, generate, FlatForest, FLAG_MISSING_LEFT, FLAG_NA_VS_REST, OP_EQ, OP_GE, OP_GT,
    OP_LE, OP_LT, OP_MASK, OP_NE,
};
use bonsai::error::{Failure, Problem};
use bonsai::interpreter::eval_node;
use bonsai::ir::{
    AggregationKind, CatboostMetadata, Forest, MissingDirection, Node, Operator, PostTransform,
    SplitKind, Tree,
};
use bonsai::number::{F32, F64};

fn f(x: f32) -> F32 {
    F32 { bits: x.to_bits() }
}

fn d(x: f64) -> F64 {
    F64 { bits: x.to_bits() }
}

fn leaf(v: f64) -> Node {
    Node::Leaf { value: d(v) }
}

fn split(
    fi: usize,
    th: f32,
    op: Operator,
    md: MissingDirection,
    left: Node,
    right: Node,
) -> Node {
    Node::Split {
        feature_idx: fi,
        split: SplitKind::Numeric {
            threshold: f(th),
            operator: op,
        },
        left_child: Box::new(left),
        right_child: Box::new(right),
        missing_direction: md,
    }
}

fn forest(trees: Vec<Tree>, agg: AggregationKind, pt: PostTransform, base: f64) -> Forest {
    Forest {
        trees,
        aggregation: agg,
        post_transform: pt,
        base_score: d(base),
        base_scores: vec![],
        catboost_metadata: None,
    }
}

#[test]
fn test_flatten_encoding() {
    let tree = Tree {
        root: split(
            3,
            0.5,
            Operator::LessThan,
            MissingDirection::Left,
            leaf(1.0),
            leaf(2.0),
        ),
        weight: d(2.0),
    };
    let flat = FlatForest::from_trees(&[tree]).unwrap();
    assert_eq!(flat.feat, vec![3]);
    assert_eq!(flat.thr, vec![f(0.5)]);
    assert_eq!(flat.flags, vec![OP_LT | FLAG_MISSING_LEFT]);
    assert_eq!(flat.left, vec![!0]);
    assert_eq!(flat.right, vec![!1]);
    assert_eq!(flat.leaves, vec![d(1.0), d(2.0)]);
    assert_eq!(flat.roots, vec![0]);
    assert_eq!(flat.weights, vec![d(2.0)]);
}

#[test]
fn test_navsrest_threshold_sanitized() {
    let (thr, flags) = encode_split(
        &SplitKind::Numeric {
            threshold: f(f32::NAN),
            operator: Operator::LessThan,
        },
        MissingDirection::NaVsRest,
    )
    .unwrap();
    assert_eq!(thr, f(0.0));
    assert_eq!(flags, OP_LT | FLAG_NA_VS_REST);
}

#[test]
fn thresholds_that_are_read_are_kept() {
    let nan = SplitKind::Numeric { threshold: f(f32::NAN), operator: Operator::NotEqual };
    for missing in [MissingDirection::Left, MissingDirection::Right, MissingDirection::Unspecified] {
        let (thr, _) = encode_split(&nan, missing).unwrap();
        assert!(f32::from_bits(thr.bits).is_nan());
    }
}

#[test]
fn test_categorical_split_rejected() {
    let err = encode_split(
        &SplitKind::Categorical {
            bitoff: 0,
            nbits: 8,
            data: vec![0xFF],
        },
        MissingDirection::Unspecified,
    )
    .unwrap_err();
    assert!(err.message().contains("numeric splits only"));
}

#[test]
fn test_leaf_only_tree_root() {
    let flat = FlatForest::from_trees(&[Tree {
        root: leaf(4.5),
        weight: d(1.0),
    }])
    .unwrap();
    assert_eq!(flat.roots, vec![!0]);
    assert_eq!(flat.leaves, vec![d(4.5)]);
}

fn asymmetric_tree() -> Tree {
    Tree {
        root: split(
            0,
            0.5,
            Operator::LessThan,
            MissingDirection::Right,
            split(
                1,
                0.3,
                Operator::LessOrEqual,
                MissingDirection::Left,
                leaf(1.0),
                leaf(2.0),
            ),
            leaf(3.0),
        ),
        weight: d(1.0),
    }
}

#[test]
fn test_resolve_layout_auto_small_stays_ifelse() {
    let model = forest(
        vec![asymmetric_tree()],
        AggregationKind::Sum,
        PostTransform::Identity,
        0.0,
    );
    assert_eq!(resolve_layout(&model, Layout::Auto).unwrap(), Layout::IfElse);
}

#[test]
fn test_resolve_layout_auto_large_switches_to_array() {
    // 5 nodes per asymmetric tree; exceed the threshold.
    let n_trees = ARRAY_LAYOUT_NODE_THRESHOLD / 5 + 1;
    let trees = (0..n_trees).map(|_| asymmetric_tree()).collect();
    let model = forest(trees, AggregationKind::Sum, PostTransform::Identity, 0.0);
    assert_eq!(resolve_layout(&model, Layout::Auto).unwrap(), Layout::Array);
}

#[test]
fn test_resolve_layout_array_rejects_categorical() {
    let tree = Tree {
        root: Node::Split {
            feature_idx: 0,
            split: SplitKind::Categorical {
                bitoff: 0,
                nbits: 8,
                data: vec![0x01],
            },
            left_child: Box::new(leaf(1.0)),
            right_child: Box::new(leaf(2.0)),
            missing_direction: MissingDirection::Unspecified,
        },
        weight: d(1.0),
    };
    let model = forest(
        vec![tree],
        AggregationKind::Sum,
        PostTransform::Identity,
        0.0,
    );
    assert!(resolve_layout(&model, Layout::Array).is_err());
    // Auto quietly falls back instead.
    assert_eq!(resolve_layout(&model, Layout::Auto).unwrap(), Layout::IfElse);
}

#[test]
fn test_generated_structure() {
    let model = forest(
        vec![asymmetric_tree()],
        AggregationKind::Sum,
        PostTransform::Logit,
        0.5,
    );
    let code = generate(&model, false).unwrap();
    assert!(code.contains("static FEAT"));
    assert!(code.contains("static LEAVES"));
    assert!(code.contains("fn eval_tree"));
    assert!(code.contains("pub struct Model"));
    assert!(!code.contains("fn tree_0"));
}

/// A forest exercising every operator, all four missing directions,
/// non-unit weights, and an NaVsRest split.
fn differential_trees() -> Vec<Tree> {
    vec![
        asymmetric_tree(),
        Tree {
            // NaVsRest: threshold is an unused NaN sentinel, as in MOJO.
            root: split(
                1,
                f32::NAN,
                Operator::LessThan,
                MissingDirection::NaVsRest,
                leaf(0.25),
                leaf(-0.25),
            ),
            weight: d(0.5),
        },
        Tree {
            root: split(
                0,
                0.0,
                Operator::GreaterThan,
                MissingDirection::Unspecified,
                split(
                    1,
                    -1.5,
                    Operator::Equal,
                    MissingDirection::Right,
                    leaf(5.0),
                    split(
                        2,
                        0.0,
                        Operator::NotEqual,
                        MissingDirection::Left,
                        leaf(-5.0),
                        leaf(0.5),
                    ),
                ),
                split(
                    2,
                    1.0,
                    Operator::GreaterOrEqual,
                    MissingDirection::Right,
                    leaf(0.1),
                    leaf(-0.1),
                ),
            ),
            weight: d(2.0),
        },
    ]
}

fn no_std_opts(layout: Layout) -> CodegenOptions {
    CodegenOptions {
        layout,
        no_std: true,
    }
}

#[test]
fn test_no_std_logit_uses_libm() {
    let model = forest(
        differential_trees(),
        AggregationKind::Sum,
        PostTransform::Logit,
        0.0,
    );
    for layout in [Layout::IfElse, Layout::Array] {
        let code = generate_with_options(&model, no_std_opts(layout)).unwrap();
        assert!(code.contains("libm"), "expected libm exp for {:?}", layout);
    }
}

#[test]
fn test_no_std_softmax_uses_into_api() {
    let mut trees = differential_trees();
    trees.extend(differential_trees());
    let model = forest(
        trees,
        AggregationKind::Sum,
        PostTransform::Softmax { n_classes: 3 },
        0.0,
    );
    for layout in [Layout::IfElse, Layout::Array] {
        let code = generate_with_options(&model, no_std_opts(layout)).unwrap();
        assert!(code.contains("predict_proba_into"));
        assert!(!code.contains("Vec"), "no_std code must not allocate");
    }
}

#[test]
fn test_no_std_rejects_catboost_ctr() {
    let mut model = forest(
        differential_trees(),
        AggregationKind::Sum,
        PostTransform::Identity,
        0.0,
    );
    model.catboost_metadata = Some(CatboostMetadata {
        ctrs: vec![],
        ctr_data: vec![],
    });
    let err = generate_with_options(&model, no_std_opts(Layout::IfElse))
        .unwrap_err()
        .message();
    assert!(err.contains("no-std"), "unexpected error: {err}");
}

/// Walks the arrays as the generated `eval_tree` does.
fn walk(flat: &FlatForest, root: i32, features: &[f32]) -> f64 {
    let mut link = root;
    while link >= 0 {
        let i = link as usize;
        let value = features[flat.feat[i] as usize];
        let flags = flat.flags[i];
        let left = if flags & FLAG_NA_VS_REST != 0 {
            !value.is_nan()
        } else if value.is_nan() {
            flags & FLAG_MISSING_LEFT != 0
        } else {
            let threshold = f32::from_bits(flat.thr[i].bits);
            match flags & OP_MASK {
                OP_LT => value < threshold,
                OP_LE => value <= threshold,
                OP_GT => value > threshold,
                OP_GE => value >= threshold,
                OP_EQ => value == threshold,
                OP_NE => value != threshold,
                other => panic!("unknown operator {other}"),
            }
        };
        link = if left { flat.left[i] } else { flat.right[i] };
    }
    f64::from_bits(flat.leaves[!link as usize].bits)
}

#[test]
fn arrays_walk_like_the_trees() {
    let trees = differential_trees();
    let flat = FlatForest::from_trees(&trees).unwrap();
    let rows: [[f32; 3]; 7] = [
        [0.1, 5.0, -2.0],
        [0.9, -1.5, 3.5],
        [f32::NAN, 0.0, 1.0],
        [0.5, f32::NAN, f32::NAN],
        [-3.0, 2.5, 0.49],
        [1e30, -1e30, 0.0],
        [0.5, 0.3, 0.0],
    ];
    for row in &rows {
        let features: Vec<F32> = row.iter().map(|x| f(*x)).collect();
        for (t, tree) in trees.iter().enumerate() {
            let value = eval_node(&tree.root, &features).unwrap();
            assert_eq!(value, d(walk(&flat, flat.roots[t], row)), "tree {t} on {row:?}");
        }
    }
}

#[test]
fn array_layout_on_categories_says_what_to_do() {
    let tree = Tree {
        root: Node::Split {
            feature_idx: 0,
            split: SplitKind::Categorical { bitoff: 0, nbits: 8, data: vec![1] },
            left_child: Box::new(leaf(1.0)),
            right_child: Box::new(leaf(2.0)),
            missing_direction: MissingDirection::Unspecified,
        },
        weight: d(1.0),
    };
    let model = forest(vec![tree], AggregationKind::Sum, PostTransform::Identity, 0.0);
    let failure = generate_with_layout(&model, Layout::Array).unwrap_err();
    assert!(matches!(failure, Failure::Plain(Problem::ArrayUnsupported)));
    assert!(failure.message().ends_with("Use --layout auto or ifelse."));
}

#[test]
fn large_oblivious_forest_stays_ifelse() {
    let tree = || Tree {
        root: split(0, 0.5, Operator::LessThan, MissingDirection::Right, leaf(1.0), leaf(2.0)),
        weight: d(1.0),
    };
    let trees: Vec<Tree> = (0..ARRAY_LAYOUT_NODE_THRESHOLD).map(|_| tree()).collect();
    let model = forest(trees, AggregationKind::Sum, PostTransform::Identity, 0.0);
    assert_eq!(resolve_layout(&model, Layout::Auto).unwrap(), Layout::IfElse);
}

#[test]
fn resolved_layouts_resolve_to_themselves() {
    let model = forest(
        vec![asymmetric_tree()],
        AggregationKind::Sum,
        PostTransform::Identity,
        0.0,
    );
    for layout in [Layout::Auto, Layout::IfElse, Layout::Array] {
        let resolved = resolve_layout(&model, layout).unwrap();
        assert_eq!(resolve_layout(&model, resolved).unwrap(), resolved);
    }
}

#[test]
fn oblivious_tree_takes_the_fast_path() {
    let level = |l: Node, r: Node| split(1, 0.3, Operator::LessThan, MissingDirection::Right, l, r);
    let tree = Tree {
        root: split(
            0,
            0.5,
            Operator::LessThan,
            MissingDirection::Right,
            level(leaf(1.0), leaf(2.0)),
            level(leaf(3.0), leaf(4.0)),
        ),
        weight: d(1.0),
    };
    let model = forest(vec![tree], AggregationKind::Sum, PostTransform::Identity, 0.0);
    let code = generate_with_layout(&model, Layout::IfElse).unwrap();
    assert!(code.contains("const LEAVES : [f64 ; 4usize] = [4f64 , 3f64 , 2f64 , 1f64]"), "{code}");
    let array = generate_with_layout(&model, Layout::Array).unwrap();
    assert!(array.contains("static ROOTS : [i32 ; 1usize] = [0i32]"), "{array}");
}
