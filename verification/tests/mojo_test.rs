use bonsai::error::{Complaint, Failure, Part, Problem};
use bonsai::frontends::archive::{gather, unpack, Archive, ArchiveFile, Content};
use bonsai::frontends::mojo::{parse_archive, MojoFrontend};
use bonsai::frontends::Frontend;
use bonsai::ir::{
    AggregationKind, MissingDirection, Node, Operator, PostTransform, SplitKind,
};
use bonsai::number::{F32, F64};
use bonsai::parsers::ini::parse_model_ini;
use std::io::{Cursor, Write};

fn f(x: f32) -> F32 {
    F32 { bits: x.to_bits() }
}

fn d(x: f64) -> F64 {
    F64 { bits: x.to_bits() }
}

fn ini(algo: &str, trees: &str, link: &str) -> String {
    format!(
        "[info]\nh2o_version = 3.46.0.1\nalgo = {}\nn_trees = {}\nn_features = 2\n\
         init_f = -0.25\ndistribution = gaussian\nlink_function = {}\n\n\
         [columns]\nage\nincome\n\n[domains]\n",
        algo, trees, link
    )
}

// feature 1 < 10 -> 1.5, else -2.5; missing values go left.
fn numeric_tree() -> Vec<u8> {
    let mut data = vec![0x51];
    data.extend_from_slice(&1u16.to_le_bytes());
    data.push(4);
    data.extend_from_slice(&10.0f32.to_le_bytes());
    data.extend_from_slice(&1.5f32.to_le_bytes());
    data.extend_from_slice(&(-2.5f32).to_le_bytes());
    data
}

fn file(name: &str, data: Vec<u8>) -> ArchiveFile {
    ArchiveFile { name: name.to_string(), content: Content::Bytes(data) }
}

fn archive(ini: String) -> Archive {
    Archive {
        ini: Ok(ini),
        files: vec![
            file("trees/t00_000.bin", numeric_tree()),
            file("trees/t00_000_aux.bin", vec![]),
        ],
    }
}

#[test]
fn ini_holds_the_metadata() {
    let metadata = parse_model_ini(&ini("gbm", "17", "identity")).unwrap();
    assert_eq!(metadata.h2o_version, "3.46.0.1");
    assert_eq!(metadata.algorithm, "gbm");
    assert_eq!(metadata.n_trees, 17);
    assert_eq!(metadata.n_features, 2);
    assert_eq!(metadata.columns, vec!["age", "income"]);
    assert_eq!(metadata.init_f, d(-0.25));
    assert_eq!(metadata.distribution, "gaussian");
    assert_eq!(metadata.link_function, "identity");
    assert_eq!(metadata.category, "");
}

#[test]
fn unreadable_ini_numbers_are_zero() {
    let metadata = parse_model_ini("h2o_version=1\nalgo=drf\nn_trees=many\ninit_f=x\n").unwrap();
    assert_eq!(metadata.n_trees, 0);
    assert_eq!(metadata.init_f, d(0.0));
}

#[test]
fn ini_without_version_is_rejected() {
    match parse_model_ini("algo = gbm\n") {
        Err(Failure::Plain(problem)) => assert_eq!(problem, Problem::IniFields),
        _ => panic!("expected a failure"),
    }
}

#[test]
fn gbm_archive_becomes_a_sum() {
    let forest = parse_archive(&archive(ini("gbm", "1", "identity"))).unwrap();
    assert_eq!(forest.aggregation, AggregationKind::Sum);
    assert_eq!(forest.post_transform, PostTransform::Identity);
    assert_eq!(forest.base_score, d(-0.25));
    assert_eq!(forest.trees.len(), 1);
    assert_eq!(forest.trees[0].weight, d(1.0));
    match &forest.trees[0].root {
        Node::Split { feature_idx, split, left_child, right_child, missing_direction } => {
            assert_eq!(*feature_idx, 1);
            assert!(matches!(
                split,
                SplitKind::Numeric { threshold, operator: Operator::LessThan }
                    if *threshold == f(10.0)
            ));
            assert!(matches!(**left_child, Node::Leaf { value } if value == d(1.5)));
            assert!(matches!(**right_child, Node::Leaf { value } if value == d(-2.5)));
            assert_eq!(*missing_direction, MissingDirection::Left);
        }
        _ => panic!("expected a split"),
    }
}

#[test]
fn link_function_is_the_transform() {
    let forest = parse_archive(&archive(ini("gbm", "1", "logit"))).unwrap();
    assert_eq!(forest.post_transform, PostTransform::Logit);
    let forest = parse_archive(&archive(ini("gbm", "1", "log"))).unwrap();
    assert_eq!(forest.post_transform, PostTransform::Log);
}

#[test]
fn drf_archive_is_an_average() {
    let forest = parse_archive(&archive(ini("drf", "1", "identity"))).unwrap();
    assert_eq!(forest.aggregation, AggregationKind::Average);
}

#[test]
fn archive_without_ini_is_rejected() {
    let empty = Archive { ini: Err("gone".to_string()), files: vec![] };
    assert_eq!(
        parse_archive(&empty).unwrap_err().message(),
        "Could not find 'model.ini' in the MOJO archive: gone"
    );
}

#[test]
fn unsupported_algorithm_is_rejected() {
    let failure = parse_archive(&archive(ini("glm", "1", "identity"))).unwrap_err();
    assert!(matches!(
        &failure,
        Failure::About { complaint: Complaint::Algorithm, text } if text == "glm"
    ));
    assert_eq!(
        failure.message(),
        "Unsupported algorithm 'glm'. Only 'gbm' and 'drf' are supported."
    );
}

#[test]
fn missing_tree_file_is_named() {
    let failure = parse_archive(&archive(ini("gbm", "2", "identity"))).unwrap_err();
    assert_eq!(
        failure.message(),
        "Missing tree file: trees/t00_001.bin: specified file not found in archive"
    );
}

#[test]
fn missing_aux_file_is_named() {
    let mut input = archive(ini("gbm", "1", "identity"));
    input.files.pop();
    let failure = parse_archive(&input).unwrap_err();
    assert_eq!(
        failure.message(),
        "Missing aux file: trees/t00_000_aux.bin: specified file not found in archive"
    );
}

#[test]
fn truncated_tree_names_the_tree() {
    let mut input = archive(ini("gbm", "1", "identity"));
    let mut truncated = numeric_tree();
    truncated.pop();
    input.files[0].content = Content::Bytes(truncated);
    let failure = parse_archive(&input).unwrap_err();
    assert!(matches!(&failure, Failure::Within { part: Part::TreeFile { index: 0 }, .. }));
    assert!(matches!(failure.root_cause(), Failure::Plain(Problem::UnexpectedEnd)));
    assert_eq!(failure.message(), "Failed to parse tree 0: failed to fill whole buffer");
}

#[test]
fn closed_and_damaged_files_are_told_apart() {
    let mut input = archive(ini("gbm", "1", "identity"));
    input.files[0].content = Content::Closed("locked".to_string());
    assert_eq!(
        parse_archive(&input).unwrap_err().message(),
        "Missing tree file: trees/t00_000.bin: locked"
    );
    input.files[0].content = Content::Damaged("cut short".to_string());
    assert_eq!(
        parse_archive(&input).unwrap_err().message(),
        "cut short"
    );
}

#[test]
fn ini_has_to_be_text() {
    let text = gather(vec![file("model.ini", b"algo = gbm".to_vec())]).unwrap();
    assert_eq!(text.ini.unwrap(), "algo = gbm");
    assert_eq!(
        gather(vec![file("model.ini", vec![0xff])]).unwrap_err().message(),
        "stream did not contain valid UTF-8"
    );
    let unread = |content: Content| {
        gather(vec![ArchiveFile { name: "model.ini".to_string(), content }])
    };
    let closed = unread(Content::Closed("locked".to_string())).unwrap();
    assert_eq!(closed.ini.unwrap_err(), "locked");
    let damaged = unread(Content::Damaged("cut short".to_string())).unwrap_err();
    assert_eq!(damaged.message(), "cut short");
    assert_eq!(
        gather(vec![]).unwrap().ini.unwrap_err(),
        "specified file not found in archive"
    );
}

/// A zip archive of these files.
fn zipped(files: &[(&str, &[u8])]) -> Vec<u8> {
    let mut writer = zip::ZipWriter::new(Cursor::new(Vec::new()));
    let options = zip::write::SimpleFileOptions::default()
        .compression_method(zip::CompressionMethod::Deflated);
    for (name, data) in files {
        writer.start_file(*name, options).unwrap();
        writer.write_all(data).unwrap();
    }
    writer.finish().unwrap().into_inner()
}

#[test]
fn zipped_models_are_read() {
    let text = ini("drf", "1", "log");
    let bytes = zipped(&[
        ("model.ini", text.as_bytes()),
        ("domains/d000.txt", b"red"),
        ("trees/t00_000.bin", &numeric_tree()),
        ("trees/t00_000_aux.bin", b""),
    ]);
    let contents = unpack(bytes.clone()).unwrap();
    assert_eq!(contents.ini.unwrap(), text);
    assert_eq!(contents.files.len(), 4);
    assert_eq!(contents.files[1].name, "domains/d000.txt");
    assert!(matches!(&contents.files[1].content, Content::Bytes(data) if data == b"red"));
    let forest = MojoFrontend::new().parse(&bytes).unwrap();
    assert_eq!(forest.trees.len(), 1);
    assert_eq!(forest.aggregation, AggregationKind::Average);
    assert_eq!(forest.post_transform, PostTransform::Log);
}

#[test]
fn other_bytes_are_no_archive() {
    let failure = MojoFrontend::new().parse(&b"not a zip".to_vec()).unwrap_err();
    assert!(matches!(failure, Failure::About { complaint: Complaint::NotAnArchive, .. }));
    let start = "Failed to read as ZIP. Is this a valid MOJO?: invalid Zip archive: ";
    assert!(failure.message().starts_with(start), "{}", failure.message());
    let bytes = zipped(&[("readme.txt", b"nothing")]);
    assert_eq!(
        MojoFrontend::new().parse(&bytes).unwrap_err().message(),
        "Could not find 'model.ini' in the MOJO archive: specified file not found in archive"
    );
}
