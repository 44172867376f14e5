use bonsai::emit_crate::{
    crate_files, crate_name, fmt_f32, golden_test_source, library_source, manifest,
    max_feature_index, package_name, sanitize, smoke_test_source,
};
use bonsai::error::{Complaint, Failure, Problem};
use bonsai::ir::{
    AggregationKind, Forest, MissingDirection, Node, Operator, PostTransform, SplitKind, Tree,
};
use bonsai::number::{F32, F64};
use bonsai::verify::parse_csv;

fn f(x: f32) -> F32 {
    F32 { bits: x.to_bits() }
}

fn d(x: f64) -> F64 {
    F64 { bits: x.to_bits() }
}

fn forest(post_transform: PostTransform) -> Forest {
    let leaf = |v: f64| Box::new(Node::Leaf { value: d(v) });
    Forest {
        trees: vec![Tree {
            root: Node::Split {
                feature_idx: 4,
                split: SplitKind::Numeric { threshold: f(0.5), operator: Operator::LessThan },
                left_child: leaf(1.0),
                right_child: leaf(2.0),
                missing_direction: MissingDirection::Left,
            },
            weight: d(1.0),
        }],
        base_score: d(0.0),
        base_scores: vec![],
        aggregation: AggregationKind::Sum,
        post_transform,
        catboost_metadata: None,
    }
}

#[test]
fn test_crate_name_sanitization() {
    assert_eq!(crate_name("out/My-Model.v2"), "my_model_v2");
    assert_eq!(crate_name("out/2fast"), "m2fast");
}

#[test]
fn test_fmt_f32_special_values() {
    assert_eq!(fmt_f32(f(1.5)), "1.5f32");
    assert_eq!(fmt_f32(f(f32::NAN)), "f32::NAN");
    assert_eq!(fmt_f32(f(f32::INFINITY)), "f32::INFINITY");
}

#[test]
fn crate_names_come_from_the_last_component() {
    assert_eq!(crate_name("scorer/"), "scorer");
    assert_eq!(crate_name("/srv/models/A/./b//"), "b");
    assert_eq!(crate_name("out/Model/."), "model");
    assert_eq!(package_name("Some Dir"), "some_dir");
}

#[test]
fn crate_names_fall_back() {
    assert_eq!(crate_name("out/.."), "model");
    assert_eq!(crate_name(""), "model");
    assert_eq!(crate_name("/"), "model");
    assert_eq!(sanitize("été 1"), "_t__1");
    assert_eq!(crate_name("ÉTÉ"), "_t_");
}

#[test]
fn singles_are_written_in_full() {
    assert_eq!(fmt_f32(f(f32::NEG_INFINITY)), "f32::NEG_INFINITY");
    assert_eq!(fmt_f32(f(-0.0)), "-0.0f32");
    assert_eq!(fmt_f32(f(1e30)), "1e30f32");
    assert_eq!(fmt_f32(f(3.0)), "3.0f32");
}

#[test]
fn manifest_depends_on_libm_only_where_needed() {
    let plain = "[package]\nname = \"m\"\nversion = \"0.1.0\"\nedition = \"2021\"\n";
    assert_eq!(manifest("m", PostTransform::Logit, false), plain);
    assert_eq!(manifest("m", PostTransform::Identity, true), plain);
    assert_eq!(
        manifest("m", PostTransform::Logit, true),
        format!("{plain}\n[dependencies]\nlibm = \"0.2\"\n")
    );
}

#[test]
fn core_only_library_says_so_first() {
    assert_eq!(library_source("// code\n", true), "#![no_std]\n\n// code\n");
    assert_eq!(library_source("// code\n", false), "// code\n");
}

#[test]
fn smoke_test_predicts_zeros() {
    let model = forest(PostTransform::Identity);
    assert_eq!(max_feature_index(&model), 4);
    assert_eq!(
        smoke_test_source("scorer", &model, 1, false),
        "// Smoke test generated by `bonsai transpile --emit crate` (no --data given).\n\n\
         use scorer::Model;\n\n#[test]\nfn model_smoke() {\n    let model = Model;\n    \
         assert!(model.predict(&[0.0f32; 5]).is_finite());\n}\n"
    );
    assert!(smoke_test_source("m", &model, 3, false)
        .contains("model.predict_proba(&[0.0f32; 5]);\n    assert_eq!(probs.len(), 3);"));
    assert!(smoke_test_source("m", &model, 3, true).contains(
        "let mut probs = [0.0f32; 3];\n    model.predict_proba_into(&[0.0f32; 5], &mut probs);"
    ));
}

#[test]
fn golden_test_bakes_the_rows_in() {
    let data = parse_csv("a,b,ground_truth\n0.1,0,1.0\nnan,0,-1.0\n", 1).unwrap();
    let source = golden_test_source("scorer", &data, 1, false, f(1e-5));
    assert!(source.contains("\nuse scorer::Model;\n\nconst TOLERANCE: f32 = 1e-5;\n"));
    assert!(source.contains(
        "const ROWS: &[&[f32]] = &[\n        &[0.1f32, 0.0f32],\n        &[f32::NAN, 0.0f32],\n];\n"
    ));
    assert!(source.contains(
        "const EXPECTED: &[&[f32]] = &[\n        &[1.0f32],\n        &[-1.0f32],\n];\n"
    ));
    assert!(source.contains("let pred = model.predict(row);"));
    assert!(source.ends_with("        );\n    }\n}\n"));
    let several = golden_test_source("m", &data, 2, true, f(0.5));
    assert!(several.contains("let mut probs = [0.0f32; 2];\n        model.predict_proba_into(row, &mut probs);\n        for (c, "));
}

#[test]
fn files_depend_on_the_data() {
    let model = forest(PostTransform::Identity);
    let files = crate_files("m", &model, "code", false, None, "", f(0.5)).unwrap();
    assert!(files.test.contains("model_smoke"));
    assert_eq!(files.library, "code");
    let data = "a,ground_truth\n0.1,1.0\nnan,-1.0\n";
    let files = crate_files("m", &model, "code", true, Some(data), "t.csv", f(0.5)).unwrap();
    assert!(files.test.contains("golden_predictions"));
    assert!(files.test.contains("f32::NAN"));
    assert!(files.library.starts_with("#![no_std]"));
    assert!(matches!(
        crate_files("m", &model, "code", false, Some("a,ground_truth\n"), "t.csv", f(0.5)),
        Err(Failure::About { complaint: Complaint::NoDataRows, text }) if text == "t.csv"
    ));
    assert!(matches!(
        crate_files("m", &model, "code", false, Some(""), "t.csv", f(0.5)),
        Err(Failure::Plain(Problem::EmptyCsv))
    ));
}
