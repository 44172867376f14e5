use bonsai::backends::rust::{generate_with_layout, Layout};
use bonsai::error::Failure;
use bonsai::interpreter::{self, Prediction};
use bonsai::ir::{
    AggregationKind, Forest, MissingDirection, Node, Operator, PostTransform, SplitKind, Tree,
};
use bonsai::number::{F32, F64};

// What is generated for the forest below, compiled into this file.

fn bitset_contains(bitoff: u16, nbits: u32, data: &[u8], idx: i32) -> bool {
    let idx = idx - bitoff as i32;
    if idx < 0 || idx >= nbits as i32 {
        return false;
    }
    let byte_idx = (idx >> 3) as usize;
    let bit_idx = (idx & 7) as u8;
    (data[byte_idx] & (1 << bit_idx)) != 0
}

#[allow(unused_variables, dead_code, non_snake_case)]
pub struct Model;

#[allow(unused_variables, dead_code)]
impl Model {
    pub const N_CLASSES: usize = 1;

    pub fn predict(&self, features: &[f32]) -> f32 {
        self.predict_internal(features, &[])
    }

    pub fn predict_batch(&self, features: &[f32], n_features: usize, out: &mut [f32]) {
        for (i, row) in features.chunks_exact(n_features).enumerate() {
            out[i] = self.predict(row);
        }
    }

    fn predict_internal(&self, features: &[f32], ctrs: &[f64]) -> f32 {
        let raw: f64 =
            (0f64 + Self::tree_0(features, ctrs) + Self::tree_1(features, ctrs)) / 2f64;
        raw as f32
    }

    #[allow(unused_variables)]
    fn tree_0(features: &[f32], ctrs: &[f64]) -> f64 {
        {
            let val = features[0usize];
            if val.is_nan() || !bitset_contains(0u16, 8u32, &[37u8], val as i32) {
                {
                    let val = features[1usize];
                    if !val.is_nan() && !bitset_contains(3u16, 10u32, &[240u8, 1u8], val as i32) {
                        1f64
                    } else {
                        2f64
                    }
                }
            } else {
                {
                    let val = features[2usize];
                    if !val.is_nan() && (val < 4.5f32) {
                        3f64
                    } else {
                        4f64
                    }
                }
            }
        }
    }

    #[allow(unused_variables)]
    fn tree_1(features: &[f32], ctrs: &[f64]) -> f64 {
        {
            let val = features[0usize];
            if !val.is_nan() && (val < 0.5f32) {
                {
                    let val = features[1usize];
                    if val.is_nan() || (val <= 0.3f32) {
                        1f64
                    } else {
                        2f64
                    }
                }
            } else {
                3f64
            }
        }
    }
}

// The same once more, as text.
const SOURCE: &str = r#"
fn bitset_contains(bitoff: u16, nbits: u32, data: &[u8], idx: i32) -> bool {
    let idx = idx - bitoff as i32;
    if idx < 0 || idx >= nbits as i32 {
        return false;
    }
    let byte_idx = (idx >> 3) as usize;
    let bit_idx = (idx & 7) as u8;
    (data[byte_idx] & (1 << bit_idx)) != 0
}

#[allow(unused_variables, dead_code, non_snake_case)]
pub struct Model;

#[allow(unused_variables, dead_code)]
impl Model {
    pub const N_CLASSES: usize = 1;

    pub fn predict(&self, features: &[f32]) -> f32 {
        self.predict_internal(features, &[])
    }

    pub fn predict_batch(&self, features: &[f32], n_features: usize, out: &mut [f32]) {
        for (i, row) in features.chunks_exact(n_features).enumerate() {
            out[i] = self.predict(row);
        }
    }

    fn predict_internal(&self, features: &[f32], ctrs: &[f64]) -> f32 {
        let raw: f64 =
            (0f64 + Self::tree_0(features, ctrs) + Self::tree_1(features, ctrs)) / 2f64;
        raw as f32
    }

    #[allow(unused_variables)]
    fn tree_0(features: &[f32], ctrs: &[f64]) -> f64 {
        {
            let val = features[0usize];
            if val.is_nan() || !bitset_contains(0u16, 8u32, &[37u8], val as i32) {
                {
                    let val = features[1usize];
                    if !val.is_nan() && !bitset_contains(3u16, 10u32, &[240u8, 1u8], val as i32) {
                        1f64
                    } else {
                        2f64
                    }
                }
            } else {
                {
                    let val = features[2usize];
                    if !val.is_nan() && (val < 4.5f32) {
                        3f64
                    } else {
                        4f64
                    }
                }
            }
        }
    }

    #[allow(unused_variables)]
    fn tree_1(features: &[f32], ctrs: &[f64]) -> f64 {
        {
            let val = features[0usize];
            if !val.is_nan() && (val < 0.5f32) {
                {
                    let val = features[1usize];
                    if val.is_nan() || (val <= 0.3f32) {
                        1f64
                    } else {
                        2f64
                    }
                }
            } else {
                3f64
            }
        }
    }
}
"#;

fn f(x: f32) -> F32 {
    F32 { bits: x.to_bits() }
}

fn d(x: f64) -> F64 {
    F64 { bits: x.to_bits() }
}

/// A source without its white space and without the attributes that change nothing.
fn squeezed(source: &str) -> String {
    let text: String = source.chars().filter(|c| !c.is_whitespace()).collect();
    text.replace("#[inline(always)]", "")
        .replace("#[doc=r\"Auto-generatedbybonsai.\"]", "")
        .replace("#[doc=r\"Auto-generatedbybonsai(arraylayout).\"]", "")
        .replace("#[doc=r\"Donoteditmanually.\"]", "")
}

/// Holds a generated source against the one that is compiled into this file.
fn assert_generated(code: &str) {
    let generated = squeezed(code);
    let compiled = squeezed(SOURCE);
    let same = generated.chars().zip(compiled.chars()).take_while(|(a, b)| a == b).count();
    let near = |text: &str| text.chars().skip(same.saturating_sub(40)).take(120).collect::<String>();
    assert_eq!(near(&generated), near(&compiled));
    assert_eq!(generated, compiled);
}

/// Adds up the scores of a prediction and applies its transform.
fn outputs(prediction: &Prediction) -> Vec<f32> {
    let raw: Vec<f64> = prediction
        .scores
        .iter()
        .map(|score| {
            let mut sum = f64::from_bits(score.start.bits);
            for term in &score.terms {
                sum += f64::from_bits(term.leaf.bits) * f64::from_bits(term.weight.bits);
            }
            match score.divisor {
                Some(n) => sum / n as f64,
                None => sum,
            }
        })
        .collect();
    match prediction.post_transform {
        PostTransform::Identity => vec![raw[0] as f32],
        PostTransform::Logit => vec![(1.0f64 / (1.0f64 + (-raw[0]).exp())) as f32],
        PostTransform::Log => vec![raw[0].exp().min(f32::MAX as f64) as f32],
        PostTransform::Softmax { .. } => {
            let max = raw.iter().fold(raw[0], |m, r| if *r > m { *r } else { m });
            let e: Vec<f64> = raw.iter().map(|r| (r - max).exp()).collect();
            let mut sum = 0.0f64;
            for v in &e {
                sum += v;
            }
            e.iter().map(|v| (v / sum) as f32).collect()
        }
    }
}

fn predict(forest: &Forest, row: &[f32]) -> Result<Vec<f32>, Failure> {
    let features: Vec<F32> = row.iter().map(|x| f(*x)).collect();
    interpreter::predict(forest, &features).map(|p| outputs(&p))
}

fn leaf(v: f64) -> Node {
    Node::Leaf { value: d(v) }
}

fn split(
    fi: usize,
    th: f32,
    op: Operator,
    md: MissingDirection,
    left: Node,
    right: Node,
) -> Node {
    Node::Split {
        feature_idx: fi,
        split: SplitKind::Numeric {
            threshold: f(th),
            operator: op,
        },
        left_child: Box::new(left),
        right_child: Box::new(right),
        missing_direction: md,
    }
}


fn forest(trees: Vec<Tree>, agg: AggregationKind, pt: PostTransform, base: f64) -> Forest {
    Forest {
        trees,
        aggregation: agg,
        post_transform: pt,
        base_score: d(base),
        base_scores: vec![],
        catboost_metadata: None,
    }
}


fn asymmetric_tree() -> Tree {
    Tree {
        root: split(
            0,
            0.5,
            Operator::LessThan,
            MissingDirection::Right,
            split(
                1,
                0.3,
                Operator::LessOrEqual,
                MissingDirection::Left,
                leaf(1.0),
                leaf(2.0),
            ),
            leaf(3.0),
        ),
        weight: d(1.0),
    }
}


fn set_split(
    feature_idx: usize,
    set: (u16, u32, Vec<u8>),
    missing_direction: MissingDirection,
    left: Node,
    right: Node,
) -> Node {
    Node::Split {
        feature_idx,
        split: SplitKind::Categorical { bitoff: set.0, nbits: set.1, data: set.2 },
        left_child: Box::new(left),
        right_child: Box::new(right),
        missing_direction,
    }
}

#[test]
fn generated_sets_predict_like_the_interpreter() {
    let root = set_split(
        0,
        (0, 8, vec![37]),
        MissingDirection::Left,
        set_split(
            1,
            (3, 10, vec![240, 1]),
            MissingDirection::Unspecified,
            leaf(1.0),
            leaf(2.0),
        ),
        split(2, 4.5, Operator::LessThan, MissingDirection::Right, leaf(3.0), leaf(4.0)),
    );
    let trees = vec![Tree { root, weight: d(0.5) }, asymmetric_tree()];
    let model = forest(trees, AggregationKind::Average, PostTransform::Identity, 0.25);
    assert_generated(&generate_with_layout(&model, Layout::IfElse).unwrap());
    for a in [-1.0, 0.0, 1.0, 2.5, 5.0, 8.0, f32::NAN] {
        for b in [0.0, 3.0, 7.0, 11.0, 12.0, 13.0, 1e20, f32::NAN] {
            for c in [4.0, 4.5, f32::NAN] {
                let row = [a, b, c];
                let expected = predict(&model, &row).unwrap()[0];
                assert_eq!(Model.predict(&row).to_bits(), expected.to_bits(), "{row:?}");
            }
        }
    }
}
