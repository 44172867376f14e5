use bonsai::error::{Failure, Problem};
use bonsai::interpreter::{self, eval_node, Prediction, Term};
use bonsai::ir::{
    AggregationKind, CatboostMetadata, Forest, MissingDirection, Node, Operator, PostTransform,
    SplitKind, Tree,
};
use bonsai::number::{F32, F64};

fn f(x: f32) -> F32 {
    F32 { bits: x.to_bits() }
}

fn d(x: f64) -> F64 {
    F64 { bits: x.to_bits() }
}

/// Adds up the scores of a prediction and applies its transform.
fn outputs(prediction: &Prediction) -> Vec<f32> {
    let raw: Vec<f64> = prediction
        .scores
        .iter()
        .map(|score| {
            let mut sum = f64::from_bits(score.start.bits);
            for term in &score.terms {
                sum += f64::from_bits(term.leaf.bits) * f64::from_bits(term.weight.bits);
            }
            match score.divisor {
                Some(n) => sum / n as f64,
                None => sum,
            }
        })
        .collect();
    match prediction.post_transform {
        PostTransform::Identity => vec![raw[0] as f32],
        PostTransform::Logit => vec![(1.0f64 / (1.0f64 + (-raw[0]).exp())) as f32],
        PostTransform::Log => vec![raw[0].exp().min(f32::MAX as f64) as f32],
        PostTransform::Softmax { .. } => {
            let max = raw.iter().fold(raw[0], |m, r| if *r > m { *r } else { m });
            let e: Vec<f64> = raw.iter().map(|r| (r - max).exp()).collect();
            let mut sum = 0.0f64;
            for v in &e {
                sum += v;
            }
            e.iter().map(|v| (v / sum) as f32).collect()
        }
    }
}

fn predict(forest: &Forest, row: &[f32]) -> Result<Vec<f32>, Failure> {
    let features: Vec<F32> = row.iter().map(|x| f(*x)).collect();
    interpreter::predict(forest, &features).map(|p| outputs(&p))
}

fn leaf(v: f64) -> Node {
    Node::Leaf { value: d(v) }
}

fn split(
    fi: usize,
    th: f32,
    op: Operator,
    md: MissingDirection,
    left: Node,
    right: Node,
) -> Node {
    Node::Split {
        feature_idx: fi,
        split: SplitKind::Numeric {
            threshold: f(th),
            operator: op,
        },
        left_child: Box::new(left),
        right_child: Box::new(right),
        missing_direction: md,
    }
}

fn scalar_forest(root: Node) -> Forest {
    Forest {
        trees: vec![Tree { root, weight: d(1.0) }],
        aggregation: AggregationKind::Sum,
        post_transform: PostTransform::Identity,
        base_score: d(0.0),
        base_scores: vec![],
        catboost_metadata: None,
    }
}

#[test]
fn test_missing_directions() {
    let make = |md| scalar_forest(split(0, 0.5, Operator::LessThan, md, leaf(1.0), leaf(2.0)));
    let nan = [f32::NAN];
    assert_eq!(predict(&make(MissingDirection::Left), &nan).unwrap(), [1.0]);
    assert_eq!(
        predict(&make(MissingDirection::Right), &nan).unwrap(),
        [2.0]
    );
    assert_eq!(predict(&make(MissingDirection::Unspecified), &nan).unwrap(), [2.0]);
    // NaVsRest: non-NaN left, NaN right, threshold ignored.
    assert_eq!(
        predict(&make(MissingDirection::NaVsRest), &nan).unwrap(),
        [2.0]
    );
    assert_eq!(
        predict(&make(MissingDirection::NaVsRest), &[99.0]).unwrap(),
        [1.0]
    );
}

#[test]
fn test_categorical_membership_goes_right() {
    // Category 2 in bitset -> right child (H2O semantics).
    let root = Node::Split {
        feature_idx: 0,
        split: SplitKind::Categorical {
            bitoff: 0,
            nbits: 8,
            data: vec![0b0000_0100],
        },
        left_child: Box::new(leaf(1.0)),
        right_child: Box::new(leaf(2.0)),
        missing_direction: MissingDirection::Unspecified,
    };
    let model = scalar_forest(root);
    assert_eq!(predict(&model, &[2.0]).unwrap(), [2.0]);
    assert_eq!(predict(&model, &[3.0]).unwrap(), [1.0]);
}

#[test]
fn test_out_of_bounds_feature_errors() {
    let model = scalar_forest(split(
        5,
        0.5,
        Operator::LessThan,
        MissingDirection::Unspecified,
        leaf(1.0),
        leaf(2.0),
    ));
    assert!(predict(&model, &[0.0]).is_err());
}

fn softmax_forest(values: &[f64], aggregation: AggregationKind) -> Forest {
    Forest {
        trees: values.iter().map(|v| Tree { root: leaf(*v), weight: d(1.0) }).collect(),
        aggregation,
        post_transform: PostTransform::Softmax { n_classes: 2 },
        base_score: d(0.25),
        base_scores: vec![d(0.5)],
        catboost_metadata: None,
    }
}

#[test]
fn every_operator_compares_as_numbers_do() {
    let cases: [(Operator, [f64; 3]); 6] = [
        (Operator::LessThan, [1.0, 2.0, 2.0]),
        (Operator::LessOrEqual, [1.0, 1.0, 2.0]),
        (Operator::GreaterThan, [2.0, 2.0, 1.0]),
        (Operator::GreaterOrEqual, [2.0, 1.0, 1.0]),
        (Operator::Equal, [2.0, 1.0, 2.0]),
        (Operator::NotEqual, [1.0, 2.0, 1.0]),
    ];
    for (operator, expected) in cases {
        let root = split(0, 0.5, operator, MissingDirection::Right, leaf(1.0), leaf(2.0));
        for (x, value) in [-0.5f32, 0.5, 1.5].iter().zip(expected) {
            assert_eq!(eval_node(&root, &[f(*x)]).unwrap(), d(value), "{operator:?} {x}");
        }
    }
}

#[test]
fn zeros_are_equal_whatever_their_sign() {
    let root = split(0, 0.0, Operator::Equal, MissingDirection::Right, leaf(1.0), leaf(2.0));
    assert_eq!(eval_node(&root, &[f(-0.0)]).unwrap(), d(1.0));
}

#[test]
fn fractions_of_categories_are_cut_off() {
    let root = Node::Split {
        feature_idx: 0,
        split: SplitKind::Categorical { bitoff: 0, nbits: 8, data: vec![0b0000_0101] },
        left_child: Box::new(leaf(1.0)),
        right_child: Box::new(leaf(2.0)),
        missing_direction: MissingDirection::Left,
    };
    let at = |x: f32| eval_node(&root, &[f(x)]).unwrap();
    assert_eq!(at(2.9), d(2.0));
    assert_eq!(at(-0.9), d(2.0));
    assert_eq!(at(-1.0), d(1.0));
    assert_eq!(at(8.0), d(1.0));
    assert_eq!(at(f32::INFINITY), d(1.0));
    assert_eq!(at(f32::NAN), d(1.0));
}

#[test]
fn weights_and_base_score_add_up_in_order() {
    let model = Forest {
        trees: vec![
            Tree { root: leaf(1.5), weight: d(2.0) },
            Tree { root: leaf(-0.25), weight: d(4.0) },
        ],
        aggregation: AggregationKind::Sum,
        post_transform: PostTransform::Identity,
        base_score: d(0.5),
        base_scores: vec![],
        catboost_metadata: None,
    };
    let plan = interpreter::predict(&model, &[]).unwrap();
    assert_eq!(plan.scores.len(), 1);
    assert_eq!(plan.scores[0].start, d(0.5));
    assert_eq!(
        plan.scores[0].terms,
        vec![
            Term { leaf: d(1.5), weight: d(2.0) },
            Term { leaf: d(-0.25), weight: d(4.0) },
        ]
    );
    assert_eq!(plan.scores[0].divisor, None);
    assert_eq!(outputs(&plan), vec![2.5]);
}

#[test]
fn averages_leave_the_base_score_out() {
    let model = Forest {
        trees: vec![
            Tree { root: leaf(1.0), weight: d(1.0) },
            Tree { root: leaf(2.0), weight: d(1.0) },
        ],
        aggregation: AggregationKind::Average,
        post_transform: PostTransform::Identity,
        base_score: d(100.0),
        base_scores: vec![],
        catboost_metadata: None,
    };
    assert_eq!(predict(&model, &[]).unwrap(), vec![1.5]);
}

#[test]
fn averages_leave_the_weights_out() {
    let mut model = Forest {
        trees: vec![
            Tree { root: leaf(2.0), weight: d(0.5) },
            Tree { root: leaf(4.0), weight: d(1.0) },
        ],
        aggregation: AggregationKind::Average,
        post_transform: PostTransform::Identity,
        base_score: d(10.0),
        base_scores: vec![],
        catboost_metadata: None,
    };
    assert_eq!(predict(&model, &[]).unwrap(), vec![3.0]);
    let plan = interpreter::predict(&model, &[]).unwrap();
    assert_eq!(plan.scores[0].terms[0], Term { leaf: d(2.0), weight: d(1.0) });
    model.trees[0].weight = d(f64::NAN);
    assert_eq!(predict(&model, &[]).unwrap(), vec![3.0]);
    model.post_transform = PostTransform::Softmax { n_classes: 2 };
    model.trees[0].weight = d(0.5);
    let plan = interpreter::predict(&model, &[]).unwrap();
    assert_eq!(plan.scores[0].terms, vec![Term { leaf: d(2.0), weight: d(0.5) }]);
}

#[test]
fn softmax_trees_take_turns() {
    let plan =
        interpreter::predict(&softmax_forest(&[1.0, 2.0, 3.0, 4.0], AggregationKind::Sum), &[])
            .unwrap();
    assert_eq!(plan.scores.len(), 2);
    assert_eq!(plan.scores[0].start, d(0.5));
    assert_eq!(plan.scores[1].start, d(0.25));
    let leaves = |c: usize| plan.scores[c].terms.iter().map(|t| t.leaf).collect::<Vec<F64>>();
    assert_eq!(leaves(0), vec![d(1.0), d(3.0)]);
    assert_eq!(leaves(1), vec![d(2.0), d(4.0)]);
    let probabilities = outputs(&plan);
    let ratio = (1.75f64).exp();
    assert!((probabilities[1] as f64 - ratio / (1.0 + ratio)).abs() < 1e-6);
}

#[test]
fn softmax_average_divides_by_trees_per_class() {
    let plan =
        interpreter::predict(&softmax_forest(&[1.0, 2.0, 3.0, 4.0], AggregationKind::Average), &[])
            .unwrap();
    assert_eq!(plan.scores[0].start, d(0.0));
    assert_eq!(plan.scores[0].divisor, Some(2));
}

#[test]
fn uneven_softmax_is_rejected() {
    let failure =
        interpreter::predict(&softmax_forest(&[1.0, 2.0, 3.0], AggregationKind::Sum), &[])
            .unwrap_err();
    assert_eq!(failure.message(), "Tree count (3) must be divisible by n_classes (2)");
}

#[test]
fn counter_models_are_rejected() {
    let mut model = scalar_forest(leaf(1.0));
    model.catboost_metadata = Some(CatboostMetadata { ctrs: vec![], ctr_data: vec![] });
    assert!(matches!(
        interpreter::predict(&model, &[]),
        Err(Failure::Plain(Problem::CtrModel))
    ));
}

#[test]
fn counter_splits_are_rejected() {
    let root = Node::Split {
        feature_idx: 0,
        split: SplitKind::OnlineCtr { ctr_idx: 0, threshold: f(0.5) },
        left_child: Box::new(leaf(1.0)),
        right_child: Box::new(leaf(2.0)),
        missing_direction: MissingDirection::Unspecified,
    };
    assert!(matches!(
        eval_node(&root, &[f(1.0)]),
        Err(Failure::Plain(Problem::CtrSplit))
    ));
}

#[test]
fn short_row_is_told_the_index() {
    let root = split(5, 0.5, Operator::LessThan, MissingDirection::Left, leaf(1.0), leaf(2.0));
    let failure = eval_node(&root, &[f(0.0)]).unwrap_err();
    assert_eq!(failure.message(), "feature index 5 out of bounds (row has 1 features)");
}

#[test]
fn only_sets_on_the_way_are_read() {
    // The set claims eight categories and has no byte for any of them.
    let hollow = |missing: MissingDirection| Node::Split {
        feature_idx: 1,
        split: SplitKind::Categorical { bitoff: 2, nbits: 8, data: vec![] },
        left_child: Box::new(leaf(1.0)),
        right_child: Box::new(leaf(2.0)),
        missing_direction: missing,
    };
    let root = |missing: MissingDirection| {
        split(0, 0.5, Operator::LessThan, MissingDirection::Right, leaf(0.0), hollow(missing))
    };
    let within = |forest: &Forest, row: [f32; 2]| {
        interpreter::stays_within(forest, &[f(row[0]), f(row[1])])
    };
    let forest = scalar_forest(root(MissingDirection::Left));
    assert!(within(&forest, [0.0, 5.0]));
    assert_eq!(predict(&forest, &[0.0, 5.0]).unwrap(), vec![0.0]);
    assert!(!within(&forest, [1.0, 5.0]));
    assert!(within(&forest, [1.0, 1.0]));
    assert_eq!(predict(&forest, &[1.0, 1.0]).unwrap(), vec![1.0]);
    assert!(within(&forest, [1.0, 10.0]));
    let forest = scalar_forest(root(MissingDirection::NaVsRest));
    assert!(within(&forest, [1.0, 5.0]));
    assert_eq!(predict(&forest, &[1.0, 5.0]).unwrap(), vec![1.0]);
}
