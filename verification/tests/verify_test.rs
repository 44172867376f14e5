use bonsai::error::{Failure, Problem};
use bonsai::ir::{AggregationKind, CatboostMetadata, Forest, PostTransform};
use bonsai::number::{F32, F64};
use bonsai::verify::{
    compare, harness_input, harness_source, output_count, parse_csv, parse_predictions, prepare,
    read_predictions, Mismatch, MAX_REPORTED_MISMATCHES,
};

fn f(x: f32) -> F32 {
    F32 { bits: x.to_bits() }
}

fn single(x: F32) -> f32 {
    f32::from_bits(x.bits)
}

#[test]
fn test_parse_csv_scalar() {
    let csv = "feat_0,feat_1,ground_truth\n0.5,nan,1.25\n,2.0,-0.5\n";
    let parsed = parse_csv(csv, 1).unwrap();
    assert_eq!(parsed.n_features, 2);
    assert_eq!(parsed.rows.len(), 2);
    assert!((single(parsed.rows[0][0]) - 0.5).abs() < 1e-9);
    assert!(parsed.rows[0][1].is_nan());
    assert!(parsed.rows[1][0].is_nan());
    assert_eq!(parsed.references, vec![vec![f(1.25)], vec![f(-0.5)]]);
}

#[test]
fn test_parse_csv_multiclass_and_target_skipped() {
    let csv = "feat_0,target,ground_truth_proba_0,ground_truth_proba_1\n1.0,0,0.75,0.25\n";
    let parsed = parse_csv(csv, 2).unwrap();
    assert_eq!(parsed.n_features, 1);
    assert_eq!(parsed.references, vec![vec![f(0.75), f(0.25)]]);
}

#[test]
fn test_parse_csv_missing_reference_errors() {
    let csv = "feat_0\n1.0\n";
    assert!(parse_csv(csv, 1).is_err());
    let csv = "feat_0,ground_truth_proba_0\n1.0,1.0\n";
    let err = parse_csv(csv, 3).unwrap_err().message();
    assert!(err.contains("ground_truth_proba_1"), "got: {err}");
}

#[test]
fn test_parse_csv_non_numeric_feature_errors() {
    let csv = "feat_0,cat,ground_truth\n1.0,red,0.5\n";
    let err = parse_csv(csv, 1).unwrap_err().message();
    assert!(err.contains("numeric features only"), "got: {err}");
}

#[test]
fn test_parse_predictions_shapes() {
    assert_eq!(
        parse_predictions("1.5\n-0.25\n", 1).unwrap(),
        vec![vec![f(1.5)], vec![f(-0.25)]]
    );
    assert_eq!(
        parse_predictions("0.6,0.4\n", 2).unwrap(),
        vec![vec![f(0.6), f(0.4)]]
    );
    assert!(parse_predictions("0.6,0.4\n", 3).is_err());
    assert!(parse_predictions("abc\n", 1).is_err());
}

fn forest(post_transform: PostTransform) -> Forest {
    Forest {
        trees: vec![],
        base_score: F64 { bits: 0 },
        base_scores: vec![],
        aggregation: AggregationKind::Sum,
        post_transform,
        catboost_metadata: None,
    }
}

fn problem(failure: Failure) -> Problem {
    match failure {
        Failure::Plain(problem) => problem,
        other => panic!("unexpected failure: {other:?}"),
    }
}

#[test]
fn data_failures_name_the_row() {
    assert_eq!(problem(parse_csv("", 1).unwrap_err()), Problem::EmptyCsv);
    assert_eq!(
        problem(parse_csv("target,ground_truth\n1,2\n", 1).unwrap_err()),
        Problem::NoFeatureColumns
    );
    assert_eq!(
        problem(parse_csv("a\n1\n", 1).unwrap_err()),
        Problem::MissingGroundTruth
    );
    assert_eq!(
        parse_csv("a,ground_truth\n1,2\n3\n", 1).unwrap_err().message(),
        "Row 3: expected 2 columns, got 1"
    );
    assert_eq!(
        parse_csv("a,ground_truth\n1,x\n", 1).unwrap_err().message(),
        "Row 2: invalid reference value 'x': invalid float literal"
    );
    assert_eq!(
        parse_csv("a,ground_truth_proba_0\n1,1\n", 2).unwrap_err().message(),
        "Missing column 'ground_truth_proba_1' for a 2-class model"
    );
}

#[test]
fn blank_lines_and_white_space_are_skipped() {
    let parsed = parse_csv(" a , b ,ground_truth\n\n 1 ,NaN, 2 \r\n", 1).unwrap();
    assert_eq!(parsed.rows.len(), 1);
    assert_eq!(parsed.rows[0][0], f(1.0));
    assert!(parsed.rows[0][1].is_nan());
    assert_eq!(parsed.references, vec![vec![f(2.0)]]);
}

#[test]
fn rows_are_as_wide_as_there_are_features() {
    let parsed = parse_csv("a,ground_truth,b\n1,2,3\n4,5,6\n", 1).unwrap();
    assert_eq!(parsed.n_features, 2);
    assert_eq!(parsed.rows, vec![vec![f(1.0), f(3.0)], vec![f(4.0), f(6.0)]]);
}

#[test]
fn data_without_rows_cannot_be_used() {
    let model = forest(PostTransform::Identity);
    assert_eq!(
        prepare(&model, "a,ground_truth\n", "\"t.csv\"").unwrap_err().message(),
        "No data rows in \"t.csv\""
    );
    let mut counters = forest(PostTransform::Identity);
    counters.catboost_metadata = Some(CatboostMetadata { ctrs: vec![], ctr_data: vec![] });
    assert_eq!(
        problem(prepare(&counters, "a,ground_truth\n1,2\n", "").unwrap_err()),
        Problem::VerifyCatboost
    );
}

#[test]
fn predictions_have_to_fit_the_rows() {
    assert_eq!(
        read_predictions("1\n2\n", 1, 3).unwrap_err().message(),
        "Prediction count (2) does not match row count (3)"
    );
    assert_eq!(
        parse_predictions("0.6,0.4\n", 3).unwrap_err().message(),
        "Expected 3 values per prediction line, got 2"
    );
    assert_eq!(
        parse_predictions("abc\n", 1).unwrap_err().message(),
        "Invalid prediction output 'abc': invalid float literal"
    );
    assert_eq!(output_count(&forest(PostTransform::Softmax { n_classes: 7 })), 7);
    assert_eq!(output_count(&forest(PostTransform::Log)), 1);
}

#[test]
fn errors_beyond_tolerance_are_mismatches() {
    let errors = vec![vec![f(0.0), f(0.5)], vec![f(f32::NAN), f(2.0)]];
    let outcome = compare(&errors, f(1.0));
    assert_eq!(outcome.mismatches, 2);
    assert!(f32::from_bits(outcome.max_abs_error.bits).is_nan());
    assert_eq!(
        outcome.reported,
        vec![Mismatch { row: 1, class: 0 }, Mismatch { row: 1, class: 1 }]
    );
    assert_eq!(compare(&errors, f(2.0)).mismatches, 1);
    assert_eq!(compare(&errors, f(f32::INFINITY)).mismatches, 1);
}

#[test]
fn greatest_error_is_kept() {
    let errors = vec![vec![f(0.25), f(0.5)], vec![f(0.125), f(0.375)]];
    let outcome = compare(&errors, f(0.5));
    assert_eq!(outcome.mismatches, 0);
    assert_eq!(outcome.max_abs_error, f(0.5));
    // Nothing is within a tolerance that is no number.
    assert_eq!(compare(&errors, f(f32::NAN)).mismatches, 4);
}

#[test]
fn only_the_first_mismatches_are_reported() {
    let errors: Vec<Vec<F32>> = (0..9).map(|_| vec![f(1.0)]).collect();
    let outcome = compare(&errors, f(0.5));
    assert_eq!(outcome.mismatches, 9);
    assert_eq!(outcome.reported.len(), MAX_REPORTED_MISMATCHES);
    assert_eq!(outcome.reported[4], Mismatch { row: 4, class: 0 });
}

#[test]
fn harness_scores_lines_of_features() {
    let source = harness_source(1);
    assert!(source.starts_with("#[path = \"model.rs\"]\n#[allow(dead_code)]\nmod model;\n"));
    assert!(source.contains("        println!(\"{}\", model.predict(&features));\n    }\n}\n"));
    assert!(harness_source(3).contains("let probs = model.predict_proba(&features);"));
    assert_eq!(
        harness_input(&vec![vec![f(0.5), f(f32::NAN)], vec![f(-1e10), f(f32::INFINITY)]]),
        "0.5,NaN\n-10000000000,inf\n"
    );
}
