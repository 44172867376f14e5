//! Writing a generated model as a complete crate: its manifest, its library and its test.
use crate::error::{Complaint, Failure};
#[allow(unused_imports)]
use crate::error::FailureView;
use crate::ir::{Forest, Node, PostTransform};
#[allow(unused_imports)]
use crate::ir::{ForestView, NodeView, TreeView};
use crate::number::F32;
use crate::text;
use crate::verify::{output_count, parse_csv, ParsedData};
#[allow(unused_imports)]
use crate::verify::{self, DataView};
use byteorder::ByteOrder;
use vstd::prelude::*;

verus! {

/// The manifest, up to the name of the crate.
pub const MANIFEST_OPEN: &'static str = "[package]\nname = \"";

/// The rest of the manifest.
pub const MANIFEST_CLOSE: &'static str = "\"\nversion = \"0.1.0\"\nedition = \"2021\"\n";

/// The dependency of models that need an exponential and have no standard library.
pub const MANIFEST_LIBM: &'static str = "\n[dependencies]\nlibm = \"0.2\"\n";

/// The attribute of crates without the standard library.
pub const NO_STD: &'static str = "#![no_std]\n\n";

/// The golden test, up to the name of the crate.
pub const GOLDEN_USE: &'static str = "// Golden predictions baked in by `bonsai transpile --emit crate --data ...`.\n\nuse ";

/// The golden test, from the name of the crate to the tolerance.
pub const GOLDEN_TOLERANCE: &'static str = "::Model;\n\nconst TOLERANCE: f32 = ";

/// The golden test, from the tolerance to the rows.
pub const GOLDEN_ROWS: &'static str = ";\n\nconst ROWS: &[&[f32]] = &[\n";

/// The golden test, from the rows to the references.
pub const GOLDEN_EXPECTED: &'static str = "\n];\n\nconst EXPECTED: &[&[f32]] = &[\n";

/// The golden test, from the references to the assertion.
pub const GOLDEN_LOOP: &'static str = "\n];\n\n#[test]\nfn golden_predictions() {\n    let model = Model;\n    for (i, (row, exp)) in ROWS.iter().zip(EXPECTED.iter()).enumerate() {\n        ";

/// The rest of the golden test.
pub const GOLDEN_CLOSE: &'static str = "\n    }\n}\n";

/// The assertion of a model with one output.
pub const GOLDEN_SCALAR: &'static str = "let pred = model.predict(row);\n        let expected = exp[0];\n        let error = (pred - expected).abs();\n        assert!(\n            error <= TOLERANCE,\n            \"row {i}: predicted {pred}, expected {expected} (error {error:e})\"\n        );";

/// How a model with several outputs gives its probabilities.
pub const GOLDEN_PROBA: &'static str = "let probs = model.predict_proba(row);";

/// How a model without the standard library gives its probabilities.
pub const GOLDEN_INTO_OPEN: &'static str = "let mut probs = [0.0f32; ";

pub const GOLDEN_INTO_CLOSE: &'static str = "];\n        model.predict_proba_into(row, &mut probs);";

/// The assertion of a model with several outputs.
pub const GOLDEN_SOFTMAX: &'static str = "\n        for (c, (pred, expected)) in probs.iter().zip(exp.iter()).enumerate() {\n            let error = (pred - expected).abs();\n            assert!(\n                error <= TOLERANCE,\n                \"row {i} class {c}: predicted {pred}, expected {expected} (error {error:e})\"\n            );\n        }";

/// The start of a row of literals.
pub const ROW_OPEN: &'static str = "        &[";

/// The end of a row of literals.
pub const ROW_CLOSE: &'static str = "],";

/// What stands between two values of a row.
pub const VALUE_SEPARATOR: &'static str = ", ";

/// The smoke test, up to the name of the crate.
pub const SMOKE_USE: &'static str = "// Smoke test generated by `bonsai transpile --emit crate` (no --data given).\n\nuse ";

/// The smoke test, from the name of the crate to its assertion.
pub const SMOKE_BODY: &'static str = "::Model;\n\n#[test]\nfn model_smoke() {\n    let model = Model;\n    ";

/// The rest of the smoke test.
pub const SMOKE_CLOSE: &'static str = "\n}\n";

/// The smoke test of a model with one output.
pub const SMOKE_SCALAR_OPEN: &'static str = "assert!(model.predict(&[0.0f32; ";

pub const SMOKE_SCALAR_CLOSE: &'static str = "]).is_finite());";

/// The smoke test of a model with several outputs.
pub const SMOKE_PROBA_OPEN: &'static str = "let probs = model.predict_proba(&[0.0f32; ";

pub const SMOKE_PROBA_COUNT: &'static str = "]);\n    assert_eq!(probs.len(), ";

pub const SMOKE_PROBA_CLOSE: &'static str = ");";

/// The smoke test of a model with several outputs without the standard library.
pub const SMOKE_INTO_OPEN: &'static str = "let mut probs = [0.0f32; ";

pub const SMOKE_INTO_ROW: &'static str = "];\n    model.predict_proba_into(&[0.0f32; ";

pub const SMOKE_INTO_CLOSE: &'static str = "], &mut probs);\n    assert!(probs.iter().all(|p| p.is_finite()));";

/// What `str::to_lowercase` gives.
pub uninterp spec fn lowercase(text: Seq<char>) -> Seq<char>;

/// What the debug format of a single with these bits is.
pub uninterp spec fn single_debug(bits: u32) -> Seq<char>;

/// Whether a character is an ASCII capital.
pub open spec fn capital(c: char) -> bool {
    65 <= c as u32 <= 90
}

/// `str::to_lowercase`. The result is a function of the text and holds no ASCII capital; which
/// other characters have a lower case is left to the standard library.
#[verifier::external_body]
fn to_lowercase(text: &str) -> (r: String)
    ensures
        r@ == lowercase(text@),
        forall|i: int| 0 <= i < r@.len() ==> !capital(#[trigger] r@[i]),
{
    text.to_lowercase()
}

/// A path without the slashes at its end.
pub open spec fn without_end_slashes(path: Seq<char>) -> Seq<char>
    decreases path.len(),
{
    if path.len() > 0 && path.last() == '/' {
        without_end_slashes(path.drop_last())
    } else {
        path
    }
}

/// The text behind the last slash of a path.
pub open spec fn behind_last_slash(path: Seq<char>) -> Seq<char>
    decreases path.len(),
{
    if path.len() == 0 || path.last() == '/' {
        seq![]
    } else {
        behind_last_slash(path.drop_last()).push(path.last())
    }
}

/// The last part of a path.
pub open spec fn last_part(path: Seq<char>) -> Seq<char> {
    behind_last_slash(without_end_slashes(path))
}

/// Whether a path means the same on every platform, and ends in a name.
pub open spec fn plain_path(path: Seq<char>) -> bool {
    &&& forall|i: int| 0 <= i < path.len() ==> #[trigger] path[i] != '\\' && path[i] != ':'
    &&& !(path.len() >= 2 && path[0] == '/' && path[1] == '/')
    &&& last_part(path).len() > 0
    &&& last_part(path) != seq!['.']
    &&& last_part(path) != seq!['.', '.']
}

/// `std::path::Path::file_name`, the final component of a path if there is one. It is stated for
/// plain paths; what other paths are made of is the platform's.
#[verifier::external_body]
fn file_name(path: &str) -> (r: Option<String>)
    ensures
        match r {
            Some(name) => plain_path(path@) ==> name@ == last_part(path@),
            None => !plain_path(path@),
        },
{
    std::path::Path::new(path).file_name().map(|name| name.to_string_lossy().into_owned())
}

/// The debug format of a single-precision number. It is a function of the number; which
/// digits it has is left to the standard library.
#[verifier::external_body]
fn write_debug(bits: u32) -> (r: String)
    ensures
        r@ == single_debug(bits),
{
    format!("{:?}", byteorder::LittleEndian::read_f32(&bits.to_le_bytes()))
}

/// Whether a character may stand in the name of a crate.
pub open spec fn in_names(c: char) -> bool {
    48 <= c as u32 <= 57 || 65 <= c as u32 <= 90 || 97 <= c as u32 <= 122
}

/// A text with every character that may not stand in a name replaced.
pub open spec fn replaced(s: Seq<char>) -> Seq<char> {
    s.map_values(
        |c: char|
            if in_names(c) {
                c
            } else {
                '_'
            },
    )
}

/// The name of a crate for a directory name in lower case.
pub open spec fn name_of(lowered: Seq<char>) -> Seq<char> {
    let name = replaced(lowered);
    if name.len() == 0 {
        "model"@
    } else if text::is_digit(name[0]) {
        seq!['m'] + name
    } else {
        name
    }
}

/// The name of a crate for a directory name in lower case.
pub fn sanitize(lowered: &str) -> (r: String)
    ensures
        r@ == name_of(lowered@),
{
    let chars = text::to_chars(lowered);
    if chars.len() == 0 {
        return "model".to_owned();
    }
    let mut out = String::new();
    let first: u32 = chars[0] as u32;
    if 48 <= first && first <= 57 {
        out.push('m');
    }
    let ghost head = out@;
    let mut i: usize = 0;
    while i < chars.len()
        invariant
            i <= chars.len(),
            chars@ == lowered@,
            out@ == head + replaced(lowered@).take(i as int),
        decreases chars.len() - i,
    {
        let code: u32 = chars[i] as u32;
        let keep: bool = (48 <= code && code <= 57) || (65 <= code && code <= 90) || (97 <= code
            && code <= 122);
        out.push(
            if keep {
                chars[i]
            } else {
                '_'
            },
        );
        proof {
            assert(out@ =~= head + replaced(lowered@).take(i + 1));
        }
        i = i + 1;
    }
    proof {
        assert(out@ =~= head + replaced(lowered@));
        assert(replaced(lowered@)[0] == chars[0] || replaced(lowered@)[0] == '_');
        assert(out@ =~= name_of(lowered@));
    }
    out
}

/// The name of a crate for the name of a directory, which may be empty.
pub fn package_name(directory: &str) -> (r: String)
    ensures
        r@ == name_of(lowercase(directory@)),
        valid_name(r@),
{
    let lowered = to_lowercase(directory);
    proof {
        crate_names_are_valid(lowered@);
    }
    sanitize(lowered.as_str())
}

/// A valid crate name for a path of an output directory: that of its last component, which is
/// the text behind its last slash if the path is plain. For any other path it is the component
/// that the platform finds, or none.
pub fn crate_name(out_dir: &str) -> (r: String)
    ensures
        valid_name(r@),
        plain_path(out_dir@) ==> r@ == name_of(lowercase(last_part(out_dir@))),
        exists|component: Seq<char>| r@ == name_of(#[trigger] lowercase(component)),
{
    match file_name(out_dir) {
        Some(component) => package_name(component.as_str()),
        None => package_name(""),
    }
}

/// Whether a text is a crate name: not empty, without a digit at its start, and made of
/// lower-case ASCII letters, digits and underscores.
pub open spec fn valid_name(name: Seq<char>) -> bool {
    &&& name.len() > 0
    &&& !text::is_digit(name[0])
    &&& forall|i: int|
        0 <= i < name.len() ==> (#[trigger] name[i] == '_' || in_names(name[i]) && !capital(
            name[i],
        ))
}

/// The name for a directory name in lower case is a crate name.
pub proof fn crate_names_are_valid(lowered: Seq<char>)
    requires
        forall|i: int| 0 <= i < lowered.len() ==> !capital(#[trigger] lowered[i]),
    ensures
        valid_name(name_of(lowered)),
{
    reveal_strlit("model");
}

/// Whether a model has to call a library for its exponential.
pub open spec fn needs_libm(transform: PostTransform, no_std: bool) -> bool {
    no_std && transform != PostTransform::Identity
}

/// The manifest of a crate.
pub open spec fn manifest_text(name: Seq<char>, transform: PostTransform, no_std: bool) -> Seq<
    char,
> {
    let package = MANIFEST_OPEN@ + name + MANIFEST_CLOSE@;
    if needs_libm(transform, no_std) {
        package + MANIFEST_LIBM@
    } else {
        package
    }
}

/// The manifest of a crate.
pub fn manifest(name: &str, post_transform: PostTransform, no_std: bool) -> (r: String)
    ensures
        r@ == manifest_text(name@, post_transform, no_std),
{
    let mut out = MANIFEST_OPEN.to_owned();
    out.append(name);
    out.append(MANIFEST_CLOSE);
    if no_std && post_transform != PostTransform::Identity {
        out.append(MANIFEST_LIBM);
    }
    out
}

/// The library of a crate. An inner attribute has to stand before the generated source.
pub open spec fn library_text(code: Seq<char>, no_std: bool) -> Seq<char> {
    if no_std {
        NO_STD@ + code
    } else {
        code
    }
}

/// The library of a crate.
pub fn library_source(code: &str, no_std: bool) -> (r: String)
    ensures
        r@ == library_text(code@, no_std),
{
    if no_std {
        let mut out = NO_STD.to_owned();
        out.append(code);
        out
    } else {
        code.to_owned()
    }
}

/// The literal of a single.
pub open spec fn literal(value: F32) -> Seq<char> {
    if value.nan() {
        "f32::NAN"@
    } else if !value.finite() {
        if value.negative() {
            "f32::NEG_INFINITY"@
        } else {
            "f32::INFINITY"@
        }
    } else {
        single_debug(value.bits) + "f32"@
    }
}

/// The literal of a single.
pub fn fmt_f32(v: F32) -> (r: String)
    ensures
        r@ == literal(v),
{
    if v.is_nan() {
        "f32::NAN".to_owned()
    } else if !v.is_finite() {
        if v.bits >= 0x8000_0000 {
            "f32::NEG_INFINITY".to_owned()
        } else {
            "f32::INFINITY".to_owned()
        }
    } else {
        let mut out = write_debug(v.bits);
        out.append("f32");
        out
    }
}

/// Appends the first `n` values of a row.
pub open spec fn with_values(out: Seq<char>, row: Seq<F32>, n: int) -> Seq<char>
    decreases n,
{
    if n <= 0 {
        out
    } else {
        let before = with_values(out, row, n - 1);
        let apart = if n > 1 {
            before + VALUE_SEPARATOR@
        } else {
            before
        };
        apart + literal(row[n - 1])
    }
}

/// Appends the first `n` rows, one per line.
pub open spec fn with_rows(out: Seq<char>, rows: Seq<Seq<F32>>, n: int) -> Seq<char>
    decreases n,
{
    if n <= 0 {
        out
    } else {
        let before = with_rows(out, rows, n - 1);
        let apart = if n > 1 {
            before.push('\n')
        } else {
            before
        };
        let row = rows[n - 1];
        with_values(apart + ROW_OPEN@, row, row.len() as int) + ROW_CLOSE@
    }
}

fn push_values(out: &mut String, row: &Vec<F32>)
    ensures
        final(out)@ == with_values(old(out)@, row@, row.len() as int),
{
    let mut i: usize = 0;
    while i < row.len()
        invariant
            i <= row.len(),
            out@ == with_values(old(out)@, row@, i as int),
        decreases row.len() - i,
    {
        if i > 0 {
            out.append(VALUE_SEPARATOR);
        }
        out.append(fmt_f32(row[i]).as_str());
        i = i + 1;
    }
}

fn rows_literal(out: &mut String, rows: &Vec<Vec<F32>>)
    ensures
        final(out)@ == with_rows(old(out)@, verify::row_views(rows@), rows.len() as int),
{
    let mut i: usize = 0;
    while i < rows.len()
        invariant
            i <= rows.len(),
            out@ == with_rows(old(out)@, verify::row_views(rows@), i as int),
        decreases rows.len() - i,
    {
        assert(verify::row_views(rows@)[i as int] == rows[i as int]@);
        if i > 0 {
            out.push('\n');
        }
        out.append(ROW_OPEN);
        push_values(out, &rows[i]);
        out.append(ROW_CLOSE);
        i = i + 1;
    }
}

/// Appends the assertion of the golden test.
pub open spec fn with_assertion(out: Seq<char>, classes: usize, no_std: bool) -> Seq<char> {
    if classes > 1 {
        (if no_std {
            out + GOLDEN_INTO_OPEN@ + text::decimal(classes as nat) + GOLDEN_INTO_CLOSE@
        } else {
            out + GOLDEN_PROBA@
        }) + GOLDEN_SOFTMAX@
    } else {
        out + GOLDEN_SCALAR@
    }
}

/// The golden test of a crate.
pub open spec fn golden_test(
    name: Seq<char>,
    data: DataView,
    classes: usize,
    no_std: bool,
    tolerance: F32,
) -> Seq<char> {
    let head = GOLDEN_USE@ + name + GOLDEN_TOLERANCE@ + single_debug(tolerance.bits)
        + GOLDEN_ROWS@;
    let rows = with_rows(head, data.rows, data.rows.len() as int) + GOLDEN_EXPECTED@;
    let references = with_rows(rows, data.references, data.references.len() as int)
        + GOLDEN_LOOP@;
    with_assertion(references, classes, no_std) + GOLDEN_CLOSE@
}

/// The test that holds a crate's predictions against the references of a data file.
pub fn golden_test_source(
    name: &str,
    parsed: &ParsedData,
    n_classes: usize,
    no_std: bool,
    tolerance: F32,
) -> (r: String)
    ensures
        r@ == golden_test(name@, parsed@, n_classes, no_std, tolerance),
{
    let mut out = GOLDEN_USE.to_owned();
    out.append(name);
    out.append(GOLDEN_TOLERANCE);
    out.append(write_debug(tolerance.bits).as_str());
    out.append(GOLDEN_ROWS);
    rows_literal(&mut out, &parsed.rows);
    out.append(GOLDEN_EXPECTED);
    rows_literal(&mut out, &parsed.references);
    out.append(GOLDEN_LOOP);
    if n_classes > 1 {
        if no_std {
            out.append(GOLDEN_INTO_OPEN);
            text::push_decimal(&mut out, n_classes as u64);
            out.append(GOLDEN_INTO_CLOSE);
        } else {
            out.append(GOLDEN_PROBA);
        }
        out.append(GOLDEN_SOFTMAX);
    } else {
        out.append(GOLDEN_SCALAR);
    }
    out.append(GOLDEN_CLOSE);
    out
}

impl NodeView {
    /// The greatest feature that the tree splits on; zero if it has no splits.
    pub open spec fn max_feature(self) -> usize
        decreases self,
    {
        match self {
            NodeView::Leaf { .. } => 0,
            NodeView::Split { feature_idx, left, right, .. } => {
                let below = if left.max_feature() >= right.max_feature() {
                    left.max_feature()
                } else {
                    right.max_feature()
                };
                if feature_idx >= below {
                    feature_idx
                } else {
                    below
                }
            },
        }
    }
}

/// The greatest feature that the first `n` trees split on; zero if they have no splits.
pub open spec fn max_feature(trees: Seq<TreeView>, n: int) -> usize
    decreases n,
{
    if n <= 0 {
        0
    } else if trees[n - 1].root.max_feature() > max_feature(trees, n - 1) {
        trees[n - 1].root.max_feature()
    } else {
        max_feature(trees, n - 1)
    }
}

fn tree_max_feature(node: &Node) -> (r: usize)
    ensures
        r == node@.max_feature(),
    decreases node,
{
    match node {
        Node::Leaf { .. } => 0,
        Node::Split { feature_idx, left_child, right_child, .. } => {
            let left: usize = tree_max_feature(left_child);
            let right: usize = tree_max_feature(right_child);
            let below: usize = if left >= right {
                left
            } else {
                right
            };
            if *feature_idx >= below {
                *feature_idx
            } else {
                below
            }
        },
    }
}

/// The greatest feature that a forest splits on; zero if it has no splits.
pub fn max_feature_index(forest: &Forest) -> (r: usize)
    ensures
        r == max_feature(forest@.trees, forest.trees.len() as int),
{
    let mut top: usize = 0;
    let mut i: usize = 0;
    while i < forest.trees.len()
        invariant
            i <= forest.trees.len(),
            top == max_feature(forest@.trees, i as int),
        decreases forest.trees.len() - i,
    {
        assert(forest@.trees[i as int].root == forest.trees[i as int].root@);
        let one: usize = tree_max_feature(&forest.trees[i].root);
        if one > top {
            top = one;
        }
        i = i + 1;
    }
    top
}

/// The smoke test of a crate.
pub open spec fn smoke_test(name: Seq<char>, features: int, classes: usize, no_std: bool) -> Seq<
    char,
> {
    let head = SMOKE_USE@ + name + SMOKE_BODY@;
    let width = text::decimal(features as nat);
    let count = text::decimal(classes as nat);
    (if classes > 1 {
        if no_std {
            head + SMOKE_INTO_OPEN@ + count + SMOKE_INTO_ROW@ + width + SMOKE_INTO_CLOSE@
        } else {
            head + SMOKE_PROBA_OPEN@ + width + SMOKE_PROBA_COUNT@ + count + SMOKE_PROBA_CLOSE@
        }
    } else {
        head + SMOKE_SCALAR_OPEN@ + width + SMOKE_SCALAR_CLOSE@
    }) + SMOKE_CLOSE@
}

/// The test that a crate without data gets: it predicts a row of zeros.
pub fn smoke_test_source(name: &str, forest: &Forest, n_classes: usize, no_std: bool) -> (r: String)
    requires
        max_feature(forest@.trees, forest.trees.len() as int) < usize::MAX,
    ensures
        r@ == smoke_test(
            name@,
            max_feature(forest@.trees, forest.trees.len() as int) + 1,
            n_classes,
            no_std,
        ),
{
    let width: usize = max_feature_index(forest) + 1;
    let mut out = SMOKE_USE.to_owned();
    out.append(name);
    out.append(SMOKE_BODY);
    if n_classes > 1 {
        if no_std {
            out.append(SMOKE_INTO_OPEN);
            text::push_decimal(&mut out, n_classes as u64);
            out.append(SMOKE_INTO_ROW);
            text::push_decimal(&mut out, width as u64);
            out.append(SMOKE_INTO_CLOSE);
        } else {
            out.append(SMOKE_PROBA_OPEN);
            text::push_decimal(&mut out, width as u64);
            out.append(SMOKE_PROBA_COUNT);
            text::push_decimal(&mut out, n_classes as u64);
            out.append(SMOKE_PROBA_CLOSE);
        }
    } else {
        out.append(SMOKE_SCALAR_OPEN);
        text::push_decimal(&mut out, width as u64);
        out.append(SMOKE_SCALAR_CLOSE);
    }
    out.append(SMOKE_CLOSE);
    out
}

/// The files of a crate.
#[derive(Debug)]
pub struct CrateFiles {
    /// `Cargo.toml`.
    pub manifest: String,
    /// `src/lib.rs`.
    pub library: String,
    /// `tests/golden.rs`.
    pub test: String,
}

pub ghost struct CrateView {
    pub manifest: Seq<char>,
    pub library: Seq<char>,
    pub test: Seq<char>,
}

impl View for CrateFiles {
    type V = CrateView;

    open spec fn view(&self) -> CrateView {
        CrateView { manifest: self.manifest@, library: self.library@, test: self.test@ }
    }
}

/// The test of a crate: golden with the content of a data file in some place, a smoke test
/// without.
pub open spec fn test_text(
    name: Seq<char>,
    forest: ForestView,
    no_std: bool,
    data: Option<Seq<char>>,
    place: Seq<char>,
    tolerance: F32,
) -> Result<Seq<char>, FailureView> {
    let classes = forest.classes() as usize;
    match data {
        None => Ok(
            smoke_test(
                name,
                max_feature(forest.trees, forest.trees.len() as int) + 1,
                classes,
                no_std,
            ),
        ),
        Some(content) => match verify::data_of(content, classes) {
            Err(e) => Err(e),
            Ok(rows) => if rows.rows.len() == 0 {
                Err(FailureView::About { complaint: Complaint::NoDataRows, text: place })
            } else {
                Ok(golden_test(name, rows, classes, no_std, tolerance))
            },
        },
    }
}

/// The text that there may be.
pub open spec fn optional_text(data: Option<&str>) -> Option<Seq<char>> {
    match data {
        Some(content) => Some(content@),
        None => None,
    }
}

/// The files of the crate that ships a generated model. Failures may name the place of the
/// data.
pub fn crate_files(
    name: &str,
    forest: &Forest,
    code: &str,
    no_std: bool,
    data: Option<&str>,
    place: &str,
    tolerance: F32,
) -> (r: Result<CrateFiles, Failure>)
    requires
        data is None ==> max_feature(forest@.trees, forest.trees.len() as int) < usize::MAX,
    ensures
        match r {
            Ok(files) => files@ == (CrateView {
                manifest: manifest_text(name@, forest.post_transform, no_std),
                library: library_text(code@, no_std),
                test: files.test@,
            }) && test_text(name@, forest@, no_std, optional_text(data), place@, tolerance) == Ok::<
                Seq<char>,
                FailureView,
            >(files.test@),
            Err(e) => test_text(name@, forest@, no_std, optional_text(data), place@, tolerance)
                == Err::<Seq<char>, FailureView>(e@),
        },
{
    let n_classes: usize = output_count(forest);
    let test = match data {
        None => smoke_test_source(name, forest, n_classes, no_std),
        Some(content) => match parse_csv(content, n_classes) {
            Err(e) => {
                return Err(e);
            },
            Ok(parsed) => {
                if parsed.rows.len() == 0 {
                    return Err(
                        Failure::About { complaint: Complaint::NoDataRows, text: place.to_owned() },
                    );
                }
                golden_test_source(name, &parsed, n_classes, no_std, tolerance)
            },
        },
    };
    Ok(
        CrateFiles {
            manifest: manifest(name, forest.post_transform, no_std),
            library: library_source(code, no_std),
            test,
        },
    )
}

/// The name for a directory name in lower case keeps its letters and digits in their places, has
/// an underscore for every other character, and an `m` before a digit at its start. Nothing is
/// named `model`.
pub proof fn names_keep_letters_and_digits(lowered: Seq<char>)
    ensures
        lowered.len() == 0 ==> name_of(lowered) == "model"@,
        lowered.len() > 0 ==> {
            let extra: int = if 48 <= lowered[0] as u32 <= 57 {
                1
            } else {
                0
            };
            &&& name_of(lowered).len() == lowered.len() + extra
            &&& extra == 1 ==> name_of(lowered)[0] == 'm'
            &&& forall|i: int|
                0 <= i < lowered.len() ==> name_of(lowered)[i + extra] == (if in_names(
                    #[trigger] lowered[i],
                ) {
                    lowered[i]
                } else {
                    '_'
                })
        },
{
    if lowered.len() > 0 {
        assert(replaced(lowered)[0] == lowered[0] || replaced(lowered)[0] == '_');
    }
}

proof fn lemma_max_feature(node: NodeView, f: usize)
    ensures
        node.uses(f) > 0 ==> f <= node.max_feature(),
        node is Split ==> node.uses(node.max_feature()) > 0,
        node is Leaf ==> node.max_feature() == 0,
    decreases node,
{
    if let NodeView::Split { feature_idx, left, right, .. } = node {
        lemma_max_feature(*left, f);
        lemma_max_feature(*right, f);
        lemma_max_feature(*left, node.max_feature());
        lemma_max_feature(*right, node.max_feature());
    }
}

/// The greatest feature of some trees is one that they split on, unless they have no splits, and
/// they split on none that is greater.
pub proof fn no_feature_is_greater(trees: Seq<TreeView>, n: int, f: usize)
    requires
        0 <= n <= trees.len(),
    ensures
        forall|i: int|
            0 <= i < n && (#[trigger] trees[i]).root.uses(f) > 0 ==> f <= max_feature(trees, n),
        max_feature(trees, n) > 0 ==> exists|i: int|
            0 <= i < n && (#[trigger] trees[i]).root.uses(max_feature(trees, n)) > 0,
    decreases n,
{
    if n > 0 {
        no_feature_is_greater(trees, n - 1, f);
        lemma_max_feature(trees[n - 1].root, f);
        let top = max_feature(trees, n);
        if top > 0 {
            if trees[n - 1].root.max_feature() > max_feature(trees, n - 1) {
                assert(trees[n - 1].root.uses(top) > 0);
            } else {
                let i = choose|i: int|
                    0 <= i < n - 1 && (#[trigger] trees[i]).root.uses(max_feature(trees, n - 1))
                        > 0;
                assert(trees[i].root.uses(top) > 0);
            }
        }
    }
}

/// A golden test holds the rows of the data, then their references, each a line of literals in
/// their order, and compares the predictions of the one with the other.
pub proof fn golden_tests_hold_the_data(
    name: Seq<char>,
    data: DataView,
    classes: usize,
    no_std: bool,
    tolerance: F32,
)
    ensures
        ({
            let head = "// Golden predictions baked in by `bonsai transpile --emit crate --data ...`.\n\nuse "@
                + name + "::Model;\n\nconst TOLERANCE: f32 = "@ + single_debug(tolerance.bits)
                + ";\n\nconst ROWS: &[&[f32]] = &[\n"@;
            let rows = with_rows(head, data.rows, data.rows.len() as int)
                + "\n];\n\nconst EXPECTED: &[&[f32]] = &[\n"@;
            let both = with_rows(rows, data.references, data.references.len() as int)
                + "\n];\n\n#[test]\nfn golden_predictions() {\n    let model = Model;\n    for (i, (row, exp)) in ROWS.iter().zip(EXPECTED.iter()).enumerate() {\n        "@;
            &&& classes <= 1 ==> golden_test(name, data, classes, no_std, tolerance) == both
                + "let pred = model.predict(row);\n        let expected = exp[0];\n        let error = (pred - expected).abs();\n        assert!(\n            error <= TOLERANCE,\n            \"row {i}: predicted {pred}, expected {expected} (error {error:e})\"\n        );"@
                + "\n    }\n}\n"@
            &&& classes > 1 ==> golden_test(name, data, classes, no_std, tolerance) == (if no_std {
                both + "let mut probs = [0.0f32; "@ + text::decimal(classes as nat)
                    + "];\n        model.predict_proba_into(row, &mut probs);"@
            } else {
                both + "let probs = model.predict_proba(row);"@
            })
                + "\n        for (c, (pred, expected)) in probs.iter().zip(exp.iter()).enumerate() {\n            let error = (pred - expected).abs();\n            assert!(\n                error <= TOLERANCE,\n                \"row {i} class {c}: predicted {pred}, expected {expected} (error {error:e})\"\n            );\n        }"@
                + "\n    }\n}\n"@
        }),
{
}

/// The literals of a row.
pub open spec fn literals(row: Seq<F32>) -> Seq<Seq<char>> {
    row.map_values(|x: F32| literal(x))
}

proof fn lemma_values(out: Seq<char>, row: Seq<F32>, n: int)
    requires
        0 <= n <= row.len(),
    ensures
        with_values(out, row, n) == out + crate::backends::tokens::joined(
            literals(row.take(n)),
            ", "@,
        ),
    decreases n,
{
    let parts = literals(row.take(n));
    if n == 0 {
        assert(parts.len() == 0);
        assert(out + Seq::<char>::empty() =~= out);
    } else {
        lemma_values(out, row, n - 1);
        let before = literals(row.take(n - 1));
        assert(parts.drop_last() =~= before);
        assert(parts.last() == literal(row[n - 1]));
        if n == 1 {
            assert(parts[0] == literal(row[0]));
            assert(before.len() == 0);
            assert(out + Seq::<char>::empty() =~= out);
        } else {
            assert(with_values(out, row, n) =~= out + crate::backends::tokens::joined(
                parts,
                ", "@,
            ));
        }
    }
}

/// A row of literals has the values of the row in their order, and rows have a line each.
pub proof fn rows_are_written_line_by_line(out: Seq<char>, rows: Seq<Seq<F32>>, n: int)
    requires
        0 <= n < rows.len(),
    ensures
        with_rows(out, rows, n + 1) == (if n == 0 {
            out
        } else {
            with_rows(out, rows, n).push('\n')
        }) + "        &["@ + crate::backends::tokens::joined(literals(rows[n]), ", "@) + "],"@,
{
    let row = rows[n];
    let apart = if n == 0 {
        out
    } else {
        with_rows(out, rows, n).push('\n')
    };
    lemma_values(apart + ROW_OPEN@, row, row.len() as int);
    assert(row.take(row.len() as int) =~= row);
    if n == 0 {
        assert(with_rows(out, rows, 0) == out);
    }
    assert(with_rows(out, rows, n + 1) == with_values(apart + ROW_OPEN@, row, row.len() as int)
        + ROW_CLOSE@);
}

/// Manifests and libraries say what a crate needs: `libm` where an exponential is needed without
/// the standard library, and the attribute that leaves it out.
pub proof fn crates_say_what_they_need(
    name: Seq<char>,
    transform: PostTransform,
    code: Seq<char>,
    no_std: bool,
)
    ensures
        manifest_text(name, transform, no_std) == "[package]\nname = \""@ + name
            + "\"\nversion = \"0.1.0\"\nedition = \"2021\"\n"@ + (if no_std && !(transform
            is Identity) {
            "\n[dependencies]\nlibm = \"0.2\"\n"@
        } else {
            Seq::<char>::empty()
        }),
        library_text(code, true) == "#![no_std]\n\n"@ + code,
        library_text(code, false) == code,
{
    let package = MANIFEST_OPEN@ + name + MANIFEST_CLOSE@;
    assert(package + Seq::<char>::empty() =~= package);
}

/// Without data a crate is tested on a row of zeros that has every feature of the model.
pub proof fn smoke_tests_cover_the_features(
    name: Seq<char>,
    forest: ForestView,
    no_std: bool,
    place: Seq<char>,
    tolerance: F32,
)
    ensures
        test_text(name, forest, no_std, None, place, tolerance) == Ok::<Seq<char>, FailureView>(
            smoke_test(
                name,
                max_feature(forest.trees, forest.trees.len() as int) + 1,
                forest.classes() as usize,
                no_std,
            ),
        ),
        forall|features: int, classes: usize|
            classes <= 1 ==> #[trigger] smoke_test(name, features, classes, no_std)
                == "// Smoke test generated by `bonsai transpile --emit crate` (no --data given).\n\nuse "@
                + name + "::Model;\n\n#[test]\nfn model_smoke() {\n    let model = Model;\n    "@
                + "assert!(model.predict(&[0.0f32; "@ + text::decimal(features as nat)
                + "]).is_finite());"@ + "\n}\n"@,
{
}

} // verus!
