use bonsai::backends::rust::{generate_with_options, resolve_layout, CodegenOptions, Layout};
use bonsai::error::Failure;
use bonsai::interpreter::{self, Prediction};
use bonsai::ir::{Forest, PostTransform};
use bonsai::model::detect_and_parse_json;
use bonsai::number::F32;
use bonsai::verify::{compare, mismatch_line, output_count, prepare, unreported_line, verdict, Mismatch};

// Single tree: feature[0] < 0.5 -> leaf 1.0, else leaf -1.0; base_score 0.
const SCALAR_MODEL: &str = r#"{
  "learner": {
    "learner_model_param": {"base_score":"0","num_class":"0","num_feature":"2"},
    "objective": {"name": "reg:squarederror"},
    "gradient_booster": {"model": {"trees": [{
      "left_children":  [1, -1, -1],
      "right_children": [2, -1, -1],
      "split_indices":  [0,  0,  0],
      "split_conditions": [0.5, 1.0, -1.0],
      "default_left":   [0,  0,  0]
    }]}}
  }
}"#;

// Three single-leaf trees, one per class: raw scores 0.1, 0.2, 0.3.
const MULTICLASS_MODEL: &str = r#"{
  "learner": {
    "learner_model_param": {"base_score":"[0,0,0]","num_class":"3","num_feature":"1"},
    "objective": {"name": "multi:softprob"},
    "gradient_booster": {"model": {"trees": [
      {"left_children":[-1],"right_children":[-1],"split_indices":[0],"split_conditions":[0.1],"default_left":[0]},
      {"left_children":[-1],"right_children":[-1],"split_indices":[0],"split_conditions":[0.2],"default_left":[0]},
      {"left_children":[-1],"right_children":[-1],"split_indices":[0],"split_conditions":[0.3],"default_left":[0]}
    ]}}
  }
}"#;

fn f(x: f32) -> F32 {
    F32 { bits: x.to_bits() }
}

/// Adds up the scores of a prediction and applies its transform.
fn outputs(prediction: &Prediction) -> Vec<f32> {
    let raw: Vec<f64> = prediction
        .scores
        .iter()
        .map(|score| {
            let mut sum = f64::from_bits(score.start.bits);
            for term in &score.terms {
                sum += f64::from_bits(term.leaf.bits) * f64::from_bits(term.weight.bits);
            }
            match score.divisor {
                Some(n) => sum / n as f64,
                None => sum,
            }
        })
        .collect();
    match prediction.post_transform {
        PostTransform::Identity => vec![raw[0] as f32],
        PostTransform::Logit => vec![(1.0f64 / (1.0f64 + (-raw[0]).exp())) as f32],
        PostTransform::Log => vec![raw[0].exp().min(f32::MAX as f64) as f32],
        PostTransform::Softmax { .. } => {
            let max = raw.iter().fold(raw[0], |m, r| if *r > m { *r } else { m });
            let e: Vec<f64> = raw.iter().map(|r| (r - max).exp()).collect();
            let mut sum = 0.0f64;
            for v in &e {
                sum += v;
            }
            e.iter().map(|v| (v / sum) as f32).collect()
        }
    }
}

/// The layout that a model is held to its references in, the lines on mismatches, and the
/// verdict.
struct Outcome {
    layout: String,
    lines: Vec<String>,
    verdict: Result<String, String>,
}

fn verify(forest: &Forest, csv: &str, tolerance: f32, layout: Layout) -> Result<Outcome, Failure> {
    let data = prepare(forest, csv, "data.csv")?;
    let classes = output_count(forest);
    let resolved = resolve_layout(forest, layout)?;
    generate_with_options(forest, CodegenOptions { layout: resolved, no_std: false })?;
    let mut predictions: Vec<Vec<f32>> = Vec::new();
    for row in &data.rows {
        predictions.push(outputs(&interpreter::predict(forest, row)?));
    }
    let errors: Vec<Vec<F32>> = predictions
        .iter()
        .zip(&data.references)
        .map(|(row, references)| {
            row.iter()
                .zip(references)
                .map(|(p, r)| f((p - f32::from_bits(r.bits)).abs()))
                .collect()
        })
        .collect();
    let comparison = compare(&errors, f(tolerance));
    let mut lines: Vec<String> = comparison
        .reported
        .iter()
        .map(|at| {
            mismatch_line(
                *at,
                classes,
                f(predictions[at.row][at.class]),
                data.references[at.row][at.class],
                errors[at.row][at.class],
            )
        })
        .collect();
    lines.extend(unreported_line(comparison.mismatches));
    Ok(Outcome {
        layout: format!("layout: {:?}", resolved),
        lines,
        verdict: verdict(
            comparison.mismatches,
            data.rows.len() * classes,
            f(tolerance),
            comparison.max_abs_error,
        ),
    })
}

fn run_verify(model: &str, csv: &str, tolerance: f32, layout: Layout) -> Outcome {
    let forest = detect_and_parse_json(model, "model.json").unwrap().forest;
    verify(&forest, csv, tolerance, layout).unwrap()
}

#[test]
fn test_verify_scalar_pass() {
    let csv = "feature_0,feature_1,ground_truth\n0.1,0,1.0\n0.9,0,-1.0\nnan,0,-1.0\n";
    let out = run_verify(SCALAR_MODEL, csv, 1e-5, Layout::Auto);
    let stdout = out.verdict.expect("verify failed");
    assert!(stdout.contains("all 3 predictions within"), "got: {stdout}");
}

#[test]
fn test_verify_scalar_mismatch_fails() {
    let csv = "feature_0,feature_1,ground_truth\n0.1,0,1.0\n0.9,0,5.0\n";
    let out = run_verify(SCALAR_MODEL, csv, 1e-5, Layout::Auto);
    assert!(out.verdict.is_err(), "verify should fail on bad reference");
    let combined = format!("{}\n{}", out.lines.join("\n"), out.verdict.unwrap_err());
    assert!(combined.contains("row 1"), "got: {combined}");
    assert!(combined.contains("exceed tolerance"), "got: {combined}");
    assert_eq!(
        combined,
        "   ✗ row 1: predicted -1 expected 5 (error 6.00e0)\n\
         1/2 predictions exceed tolerance 0.00001 (max abs error 6.000e0)"
    );
}

#[test]
fn test_verify_tolerance_flag() {
    // Reference off by 0.5: fails at the default 1e-5, passes at 1.0.
    let csv = "feature_0,feature_1,ground_truth\n0.1,0,0.5\n";
    let out = run_verify(SCALAR_MODEL, csv, 1e-5, Layout::Auto);
    assert!(out.verdict.is_err());
    let out = run_verify(SCALAR_MODEL, csv, 1.0, Layout::Auto);
    assert!(out.verdict.is_ok(), "{:?}", out.verdict);
}

#[test]
fn test_verify_multiclass_pass() {
    // Expected probabilities: softmax([0.1, 0.2, 0.3]) computed exactly as
    // the generated code does (f64, max-subtracted, cast to f32 at the end).
    let raw = [0.1f64, 0.2, 0.3];
    let max = raw.iter().cloned().fold(f64::MIN, f64::max);
    let exps: Vec<f64> = raw.iter().map(|r| (r - max).exp()).collect();
    let sum: f64 = exps.iter().sum();
    let probs: Vec<f32> = exps.iter().map(|e| (e / sum) as f32).collect();

    let csv = format!(
        "feature_0,target,ground_truth_proba_0,ground_truth_proba_1,ground_truth_proba_2\n\
         0.0,2,{},{},{}\n",
        probs[0], probs[1], probs[2]
    );
    let out = run_verify(MULTICLASS_MODEL, &csv, 1e-5, Layout::Auto);
    let stdout = out.verdict.expect("verify failed");
    assert!(stdout.contains("all 3 predictions within"), "got: {stdout}");
}

#[test]
fn test_verify_array_layout() {
    let csv = "feature_0,feature_1,ground_truth\n0.1,0,1.0\n0.9,0,-1.0\n";
    let out = run_verify(SCALAR_MODEL, csv, 1e-5, Layout::Array);
    assert!(out.verdict.is_ok(), "{:?}", out.verdict);
    assert!(out.layout.contains("layout: Array"), "got: {}", out.layout);
}

#[test]
fn predictions_that_are_no_numbers_fail() {
    let model = SCALAR_MODEL.replace("\"base_score\":\"0\"", "\"base_score\":\"nan\"");
    let csv = "feature_0,feature_1,ground_truth\n0.1,0,1.0\n";
    for tolerance in [1e-5, f32::INFINITY] {
        let out = run_verify(&model, csv, tolerance, Layout::Auto);
        assert_eq!(out.lines, vec!["   ✗ row 0: predicted NaN expected 1 (error NaN)"]);
        let message = out.verdict.unwrap_err();
        assert!(message.starts_with("1/1 predictions exceed tolerance"), "got: {message}");
        assert!(message.ends_with("(max abs error NaN)"), "got: {message}");
    }
}

#[test]
fn mismatches_of_classes_name_the_class() {
    assert_eq!(
        mismatch_line(Mismatch { row: 3, class: 2 }, 4, f(0.25), f(0.5), f(0.25)),
        "   ✗ row 3 class 2: predicted 0.25 expected 0.5 (error 2.50e-1)"
    );
    assert_eq!(unreported_line(5), None);
    assert_eq!(unreported_line(7).unwrap(), "   ✗ ... and 2 more mismatches");
}
