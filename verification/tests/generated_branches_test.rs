use bonsai::backends::rust::{generate_with_layout, Layout};
use bonsai::error::Failure;
use bonsai::interpreter::{self, Prediction};
use bonsai::ir::{
    AggregationKind, Forest, MissingDirection, Node, Operator, PostTransform, SplitKind, Tree,
};
use bonsai::number::{F32, F64};

// What is generated for the forest below, compiled into this file.

#[allow(unused_variables, dead_code, non_snake_case)]
pub struct Model;

#[allow(unused_variables, dead_code)]
impl Model {
    pub const N_CLASSES: usize = 1;

    pub fn predict(&self, features: &[f32]) -> f32 {
        self.predict_internal(features, &[])
    }

    pub fn predict_batch(&self, features: &[f32], n_features: usize, out: &mut [f32]) {
        for (i, row) in features.chunks_exact(n_features).enumerate() {
            out[i] = self.predict(row);
        }
    }

    fn predict_internal(&self, features: &[f32], ctrs: &[f64]) -> f32 {
        let raw: f64 = 0.5f64
            + Self::tree_0(features, ctrs) * 1f64
            + Self::tree_1(features, ctrs) * 0.5f64
            + Self::tree_2(features, ctrs) * 2f64;
        (1.0f64 / (1.0f64 + (-raw).exp())) as f32
    }

    #[allow(unused_variables)]
    fn tree_0(features: &[f32], ctrs: &[f64]) -> f64 {
        {
            let val = features[0usize];
            if !val.is_nan() && (val < 0.5f32) {
                {
                    let val = features[1usize];
                    if val.is_nan() || (val <= 0.3f32) {
                        1f64
                    } else {
                        2f64
                    }
                }
            } else {
                3f64
            }
        }
    }

    #[allow(unused_variables)]
    fn tree_1(features: &[f32], ctrs: &[f64]) -> f64 {
        let index = 0usize
            | if {
                let val = features[1usize];
                !val.is_nan()
            } {
                1usize
            } else {
                0
            };
        const LEAVES: [f64; 2usize] = [-0.25f64, 0.25f64];
        LEAVES[index]
    }

    #[allow(unused_variables)]
    fn tree_2(features: &[f32], ctrs: &[f64]) -> f64 {
        {
            let val = features[0usize];
            if !val.is_nan() && (val > 0f32) {
                {
                    let val = features[1usize];
                    if !val.is_nan() && (val == -1.5f32) {
                        5f64
                    } else {
                        {
                            let val = features[2usize];
                            if val.is_nan() || (val != 0f32) {
                                -5f64
                            } else {
                                0.5f64
                            }
                        }
                    }
                }
            } else {
                {
                    let val = features[2usize];
                    if !val.is_nan() && (val >= 1f32) {
                        0.1f64
                    } else {
                        -0.1f64
                    }
                }
            }
        }
    }
}

// The same once more, as text.
const SOURCE: &str = r#"
#[allow(unused_variables, dead_code, non_snake_case)]
pub struct Model;

#[allow(unused_variables, dead_code)]
impl Model {
    pub const N_CLASSES: usize = 1;

    pub fn predict(&self, features: &[f32]) -> f32 {
        self.predict_internal(features, &[])
    }

    pub fn predict_batch(&self, features: &[f32], n_features: usize, out: &mut [f32]) {
        for (i, row) in features.chunks_exact(n_features).enumerate() {
            out[i] = self.predict(row);
        }
    }

    fn predict_internal(&self, features: &[f32], ctrs: &[f64]) -> f32 {
        let raw: f64 = 0.5f64
            + Self::tree_0(features, ctrs) * 1f64
            + Self::tree_1(features, ctrs) * 0.5f64
            + Self::tree_2(features, ctrs) * 2f64;
        (1.0f64 / (1.0f64 + (-raw).exp())) as f32
    }

    #[allow(unused_variables)]
    fn tree_0(features: &[f32], ctrs: &[f64]) -> f64 {
        {
            let val = features[0usize];
            if !val.is_nan() && (val < 0.5f32) {
                {
                    let val = features[1usize];
                    if val.is_nan() || (val <= 0.3f32) {
                        1f64
                    } else {
                        2f64
                    }
                }
            } else {
                3f64
            }
        }
    }

    #[allow(unused_variables)]
    fn tree_1(features: &[f32], ctrs: &[f64]) -> f64 {
        let index = 0usize
            | if {
                let val = features[1usize];
                !val.is_nan()
            } {
                1usize
            } else {
                0
            };
        const LEAVES: [f64; 2usize] = [-0.25f64, 0.25f64];
        LEAVES[index]
    }

    #[allow(unused_variables)]
    fn tree_2(features: &[f32], ctrs: &[f64]) -> f64 {
        {
            let val = features[0usize];
            if !val.is_nan() && (val > 0f32) {
                {
                    let val = features[1usize];
                    if !val.is_nan() && (val == -1.5f32) {
                        5f64
                    } else {
                        {
                            let val = features[2usize];
                            if val.is_nan() || (val != 0f32) {
                                -5f64
                            } else {
                                0.5f64
                            }
                        }
                    }
                }
            } else {
                {
                    let val = features[2usize];
                    if !val.is_nan() && (val >= 1f32) {
                        0.1f64
                    } else {
                        -0.1f64
                    }
                }
            }
        }
    }
}
"#;

fn f(x: f32) -> F32 {
    F32 { bits: x.to_bits() }
}

fn d(x: f64) -> F64 {
    F64 { bits: x.to_bits() }
}

/// A source without its white space and without the attributes that change nothing.
fn squeezed(source: &str) -> String {
    let text: String = source.chars().filter(|c| !c.is_whitespace()).collect();
    text.replace("#[inline(always)]", "")
        .replace("#[doc=r\"Auto-generatedbybonsai.\"]", "")
        .replace("#[doc=r\"Auto-generatedbybonsai(arraylayout).\"]", "")
        .replace("#[doc=r\"Donoteditmanually.\"]", "")
}

/// Holds a generated source against the one that is compiled into this file.
fn assert_generated(code: &str) {
    let generated = squeezed(code);
    let compiled = squeezed(SOURCE);
    let same = generated.chars().zip(compiled.chars()).take_while(|(a, b)| a == b).count();
    let near = |text: &str| text.chars().skip(same.saturating_sub(40)).take(120).collect::<String>();
    assert_eq!(near(&generated), near(&compiled));
    assert_eq!(generated, compiled);
}

/// Adds up the scores of a prediction and applies its transform.
fn outputs(prediction: &Prediction) -> Vec<f32> {
    let raw: Vec<f64> = prediction
        .scores
        .iter()
        .map(|score| {
            let mut sum = f64::from_bits(score.start.bits);
            for term in &score.terms {
                sum += f64::from_bits(term.leaf.bits) * f64::from_bits(term.weight.bits);
            }
            match score.divisor {
                Some(n) => sum / n as f64,
                None => sum,
            }
        })
        .collect();
    match prediction.post_transform {
        PostTransform::Identity => vec![raw[0] as f32],
        PostTransform::Logit => vec![(1.0f64 / (1.0f64 + (-raw[0]).exp())) as f32],
        PostTransform::Log => vec![raw[0].exp().min(f32::MAX as f64) as f32],
        PostTransform::Softmax { .. } => {
            let max = raw.iter().fold(raw[0], |m, r| if *r > m { *r } else { m });
            let e: Vec<f64> = raw.iter().map(|r| (r - max).exp()).collect();
            let mut sum = 0.0f64;
            for v in &e {
                sum += v;
            }
            e.iter().map(|v| (v / sum) as f32).collect()
        }
    }
}

fn predict(forest: &Forest, row: &[f32]) -> Result<Vec<f32>, Failure> {
    let features: Vec<F32> = row.iter().map(|x| f(*x)).collect();
    interpreter::predict(forest, &features).map(|p| outputs(&p))
}

fn leaf(v: f64) -> Node {
    Node::Leaf { value: d(v) }
}

fn split(
    fi: usize,
    th: f32,
    op: Operator,
    md: MissingDirection,
    left: Node,
    right: Node,
) -> Node {
    Node::Split {
        feature_idx: fi,
        split: SplitKind::Numeric {
            threshold: f(th),
            operator: op,
        },
        left_child: Box::new(left),
        right_child: Box::new(right),
        missing_direction: md,
    }
}


fn forest(trees: Vec<Tree>, agg: AggregationKind, pt: PostTransform, base: f64) -> Forest {
    Forest {
        trees,
        aggregation: agg,
        post_transform: pt,
        base_score: d(base),
        base_scores: vec![],
        catboost_metadata: None,
    }
}


fn asymmetric_tree() -> Tree {
    Tree {
        root: split(
            0,
            0.5,
            Operator::LessThan,
            MissingDirection::Right,
            split(
                1,
                0.3,
                Operator::LessOrEqual,
                MissingDirection::Left,
                leaf(1.0),
                leaf(2.0),
            ),
            leaf(3.0),
        ),
        weight: d(1.0),
    }
}


/// A forest exercising every operator, all four missing directions,
/// non-unit weights, and an NaVsRest split.
fn differential_trees() -> Vec<Tree> {
    vec![
        asymmetric_tree(),
        Tree {
            // NaVsRest: threshold is an unused NaN sentinel, as in MOJO.
            root: split(
                1,
                f32::NAN,
                Operator::LessThan,
                MissingDirection::NaVsRest,
                leaf(0.25),
                leaf(-0.25),
            ),
            weight: d(0.5),
        },
        Tree {
            root: split(
                0,
                0.0,
                Operator::GreaterThan,
                MissingDirection::Unspecified,
                split(
                    1,
                    -1.5,
                    Operator::Equal,
                    MissingDirection::Right,
                    leaf(5.0),
                    split(
                        2,
                        0.0,
                        Operator::NotEqual,
                        MissingDirection::Left,
                        leaf(-5.0),
                        leaf(0.5),
                    ),
                ),
                split(
                    2,
                    1.0,
                    Operator::GreaterOrEqual,
                    MissingDirection::Right,
                    leaf(0.1),
                    leaf(-0.1),
                ),
            ),
            weight: d(2.0),
        },
    ]
}

const ROWS: [[f32; 3]; 7] = [
    [0.1, 5.0, -2.0],
    [0.9, -1.5, 3.5],
    [f32::NAN, 0.0, 1.0],
    [0.5, f32::NAN, f32::NAN],
    [-3.0, 2.5, 0.49],
    [1e30, -1e30, 0.0],
    [0.5, 0.3, 0.0],
];

#[test]
fn generated_branches_predict_like_the_interpreter() {
    let model = forest(differential_trees(), AggregationKind::Sum, PostTransform::Logit, 0.5);
    assert_generated(&generate_with_layout(&model, Layout::IfElse).unwrap());
    for row in ROWS {
        let expected = predict(&model, &row).unwrap()[0];
        assert_eq!(Model.predict(&row).to_bits(), expected.to_bits(), "{row:?}");
    }
}

#[test]
fn generated_batches_predict_row_by_row() {
    let rows: Vec<f32> = ROWS.iter().flatten().copied().collect();
    let mut out = [0.0f32; 7];
    Model.predict_batch(&rows, 3, &mut out);
    for (row, value) in ROWS.iter().zip(out) {
        assert_eq!(value.to_bits(), Model.predict(row).to_bits());
    }
}
