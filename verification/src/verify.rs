//! Holding a model's predictions against reference predictions.
//!
//! The reference data is a CSV file:
//! - every column not named `target`, `ground_truth` or `ground_truth_proba_<c>` is a feature,
//!   in file order
//! - models with one output have a `ground_truth` column, models with several have one
//!   `ground_truth_proba_<c>` column per class
//! - an empty cell or `nan` is a missing value
use crate::error::{Complaint, Failure, Problem};
#[allow(unused_imports)]
use crate::error::FailureView;
use crate::ir::{Forest, PostTransform};
#[allow(unused_imports)]
use crate::ir::ForestView;
use crate::number::{self, F32};
use crate::text;
use byteorder::ByteOrder;
use vstd::prelude::*;

verus! {

/// How many mismatches are reported one by one.
pub const MAX_REPORTED_MISMATCHES: usize = 5;

pub const PROBA_PREFIX: &'static str = "ground_truth_proba_";

/// The scoring harness, up to the prediction of a row.
pub const HARNESS_OPEN: &'static str = "#[path = \"model.rs\"]\n#[allow(dead_code)]\nmod model;\n\nuse std::io::BufRead;\n\nfn main() {\n    let model = model::Model;\n    let stdin = std::io::stdin();\n    for line in stdin.lock().lines() {\n        let line = line.unwrap();\n        if line.trim().is_empty() {\n            continue;\n        }\n        let features: Vec<f32> = line\n            .split(',')\n            .map(|s| {\n                let t = s.trim();\n                if t.is_empty() || t.eq_ignore_ascii_case(\"nan\") {\n                    f32::NAN\n                } else {\n                    t.parse().unwrap_or(f32::NAN)\n                }\n            })\n            .collect();\n        ";

/// The prediction of a row by a model with several outputs.
pub const HARNESS_SOFTMAX: &'static str = "let probs = model.predict_proba(&features);\n        let strings: Vec<String> = probs.iter().map(|p| p.to_string()).collect();\n        println!(\"{}\", strings.join(\",\"));";

/// The prediction of a row by a model with one output.
pub const HARNESS_SCALAR: &'static str = "println!(\"{}\", model.predict(&features));";

/// The rest of the scoring harness.
pub const HARNESS_CLOSE: &'static str = "\n    }\n}\n";

/// The rows of a data file and the predictions that belong to them.
#[derive(Debug)]
pub struct ParsedData {
    pub rows: Vec<Vec<F32>>,
    pub references: Vec<Vec<F32>>,
    pub n_features: usize,
}

#[verifier::ext_equal]
pub ghost struct DataView {
    pub rows: Seq<Seq<F32>>,
    pub references: Seq<Seq<F32>>,
    pub n_features: usize,
}

/// The views of the rows in a list.
pub open spec fn row_views(rows: Seq<Vec<F32>>) -> Seq<Seq<F32>> {
    rows.map_values(|row: Vec<F32>| row@)
}

impl View for ParsedData {
    type V = DataView;

    open spec fn view(&self) -> DataView {
        DataView {
            rows: row_views(self.rows@),
            references: row_views(self.references@),
            n_features: self.n_features,
        }
    }
}

/// The names of the columns.
pub open spec fn column_names(line: Seq<char>) -> Seq<Seq<char>> {
    text::pieces(line, ',', 0).map_values(|name: Seq<char>| text::trimmed(name))
}

/// Whether a column holds no feature.
pub open spec fn is_reference(name: Seq<char>) -> bool {
    name == "target"@ || name == "ground_truth"@ || PROBA_PREFIX@.is_prefix_of(name)
}

/// The places of the features among the first `n` columns.
pub open spec fn feature_columns(names: Seq<Seq<char>>, n: int) -> Seq<usize>
    decreases n,
{
    if n <= 0 {
        seq![]
    } else if is_reference(names[n - 1]) {
        feature_columns(names, n - 1)
    } else {
        feature_columns(names, n - 1).push((n - 1) as usize)
    }
}

/// The place of the first column at or after `from` that has the name.
pub open spec fn column_from(names: Seq<Seq<char>>, name: Seq<char>, from: int) -> Option<usize>
    decreases names.len() - from,
{
    if from < 0 || from >= names.len() {
        None
    } else if names[from] == name {
        Some(from as usize)
    } else {
        column_from(names, name, from + 1)
    }
}

/// The name of the column with the reference of class `c`.
pub open spec fn proba_name(c: int) -> Seq<char> {
    PROBA_PREFIX@ + text::decimal(c as nat)
}

/// The places of the references of the classes from `from` on, behind those found before.
pub open spec fn proba_columns(
    names: Seq<Seq<char>>,
    classes: usize,
    from: int,
    before: Seq<usize>,
) -> Result<Seq<usize>, FailureView>
    decreases classes - from,
{
    if from < 0 || from >= classes {
        Ok(before)
    } else {
        match column_from(names, proba_name(from), 0) {
            None => Err(
                FailureView::About {
                    complaint: Complaint::MissingColumn { classes },
                    text: proba_name(from),
                },
            ),
            Some(place) => proba_columns(names, classes, from + 1, before.push(place)),
        }
    }
}

/// The places of the references.
pub open spec fn reference_columns(names: Seq<Seq<char>>, classes: usize) -> Result<
    Seq<usize>,
    FailureView,
> {
    if classes > 1 {
        proba_columns(names, classes, 0, seq![])
    } else {
        match column_from(names, "ground_truth"@, 0) {
            None => Err(FailureView::Plain(Problem::MissingGroundTruth)),
            Some(place) => Ok(seq![place]),
        }
    }
}

/// Whether a text is `nan` in any case.
pub open spec fn is_nan_word(s: Seq<char>) -> bool {
    s.len() == 3 && (s[0] == 'n' || s[0] == 'N') && (s[1] == 'a' || s[1] == 'A') && (s[2] == 'n'
        || s[2] == 'N')
}

/// The value of a feature's cell.
pub open spec fn feature_value(raw: Seq<char>, column: Seq<char>, row: usize) -> Result<
    F32,
    FailureView,
> {
    let value = text::trimmed(raw);
    if value.len() == 0 || is_nan_word(value) {
        Ok(F32 { bits: number::SINGLE_NAN_BITS })
    } else {
        match number::single_of_text(value) {
            Ok(bits) => Ok(F32 { bits }),
            Err(_) => Err(FailureView::Cell { row, column, value }),
        }
    }
}

/// The features from `from` on, behind those read before.
pub open spec fn features_from(
    cells: Seq<Seq<char>>,
    names: Seq<Seq<char>>,
    columns: Seq<usize>,
    row: usize,
    from: int,
    before: Seq<F32>,
) -> Result<Seq<F32>, FailureView>
    decreases columns.len() - from,
{
    if from < 0 || from >= columns.len() {
        Ok(before)
    } else {
        let at = columns[from] as int;
        match feature_value(cells[at], names[at], row) {
            Err(e) => Err(e),
            Ok(value) => features_from(cells, names, columns, row, from + 1, before.push(value)),
        }
    }
}

/// The references from `from` on, behind those read before.
pub open spec fn references_from(
    cells: Seq<Seq<char>>,
    columns: Seq<usize>,
    row: usize,
    from: int,
    before: Seq<F32>,
) -> Result<Seq<F32>, FailureView>
    decreases columns.len() - from,
{
    if from < 0 || from >= columns.len() {
        Ok(before)
    } else {
        let at = columns[from] as int;
        match number::single_of_text(text::trimmed(cells[at])) {
            Err(fault) => Err(
                FailureView::Caused {
                    complaint: Complaint::Reference { row },
                    text: cells[at],
                    fault,
                },
            ),
            Ok(bits) => references_from(
                cells,
                columns,
                row,
                from + 1,
                before.push(F32 { bits }),
            ),
        }
    }
}

/// The layout of a data file.
#[verifier::ext_equal]
pub ghost struct ColumnsView {
    pub names: Seq<Seq<char>>,
    pub features: Seq<usize>,
    pub references: Seq<usize>,
}

/// The layout that a header line describes.
pub open spec fn columns_of(header: Seq<char>, classes: usize) -> Result<ColumnsView, FailureView> {
    let names = column_names(header);
    let features = feature_columns(names, names.len() as int);
    if features.len() == 0 {
        Err(FailureView::Plain(Problem::NoFeatureColumns))
    } else {
        match reference_columns(names, classes) {
            Err(e) => Err(e),
            Ok(references) => Ok(ColumnsView { names, features, references }),
        }
    }
}

/// The features and references of a line.
pub open spec fn line_values(line: Seq<char>, columns: ColumnsView, row: usize) -> Result<
    (Seq<F32>, Seq<F32>),
    FailureView,
> {
    let cells = text::pieces(line, ',', 0);
    if cells.len() != columns.names.len() {
        Err(
            FailureView::Plain(
                Problem::ColumnCount {
                    row,
                    expected: columns.names.len() as usize,
                    got: cells.len() as usize,
                },
            ),
        )
    } else {
        match features_from(cells, columns.names, columns.features, row, 0, seq![]) {
            Err(e) => Err(e),
            Ok(features) => match references_from(cells, columns.references, row, 0, seq![]) {
                Err(e) => Err(e),
                Ok(references) => Ok((features, references)),
            },
        }
    }
}

/// The data of the lines from `from` on, behind that read before. Blank lines are skipped.
pub open spec fn data_from(
    lines: Seq<Seq<char>>,
    columns: ColumnsView,
    from: int,
    before: DataView,
) -> Result<DataView, FailureView>
    decreases lines.len() - from,
{
    if from < 0 || from >= lines.len() {
        Ok(before)
    } else if text::trimmed(lines[from]).len() == 0 {
        data_from(lines, columns, from + 1, before)
    } else {
        match line_values(lines[from], columns, (from + 1) as usize) {
            Err(e) => Err(e),
            Ok((features, references)) => data_from(
                lines,
                columns,
                from + 1,
                DataView {
                    rows: before.rows.push(features),
                    references: before.references.push(references),
                    n_features: before.n_features,
                },
            ),
        }
    }
}

/// The data of a file.
pub open spec fn data_of(content: Seq<char>, classes: usize) -> Result<DataView, FailureView> {
    let lines = text::lines(content, 0);
    if lines.len() == 0 {
        Err(FailureView::Plain(Problem::EmptyCsv))
    } else {
        match columns_of(lines[0], classes) {
            Err(e) => Err(e),
            Ok(columns) => data_from(
                lines,
                columns,
                1,
                DataView {
                    rows: seq![],
                    references: seq![],
                    n_features: columns.features.len() as usize,
                },
            ),
        }
    }
}

/// The layout of a data file.
struct Columns {
    names: Vec<String>,
    features: Vec<usize>,
    references: Vec<usize>,
}

impl View for Columns {
    type V = ColumnsView;

    closed spec fn view(&self) -> ColumnsView {
        ColumnsView {
            names: text::views(self.names@),
            features: self.features@,
            references: self.references@,
        }
    }
}

impl ColumnsView {
    /// Whether every place is a column.
    pub open spec fn valid(self) -> bool {
        &&& forall|i: int|
            0 <= i < self.features.len() ==> (#[trigger] self.features[i]) < self.names.len()
        &&& forall|i: int|
            0 <= i < self.references.len() ==> (#[trigger] self.references[i]) < self.names.len()
    }
}

proof fn lemma_feature_columns(names: Seq<Seq<char>>, n: int)
    requires
        0 <= n <= names.len(),
        names.len() <= usize::MAX,
    ensures
        forall|i: int|
            0 <= i < feature_columns(names, n).len() ==> (#[trigger] feature_columns(names, n)[i])
                < n,
    decreases n,
{
    if n > 0 {
        lemma_feature_columns(names, n - 1);
        let shorter = feature_columns(names, n - 1);
        let longer = feature_columns(names, n);
        assert forall|i: int| 0 <= i < longer.len() implies (#[trigger] longer[i]) < n by {
            if i < shorter.len() {
                assert(longer[i] == shorter[i]);
            }
        }
    }
}

fn find_column(names: &Vec<String>, name: &str) -> (r: Option<usize>)
    ensures
        r == column_from(text::views(names@), name@, 0),
        r matches Some(place) ==> place < names.len(),
{
    let mut i: usize = 0;
    while i < names.len()
        invariant
            i <= names.len(),
            column_from(text::views(names@), name@, 0) == column_from(
                text::views(names@),
                name@,
                i as int,
            ),
        decreases names.len() - i,
    {
        assert(text::views(names@)[i as int] == names[i as int]@);
        if text::same(names[i].as_str(), name) {
            return Some(i);
        }
        i = i + 1;
    }
    None
}

fn parse_names(header: &str) -> (r: Vec<String>)
    ensures
        text::views(r@) == column_names(header@),
{
    let raw = text::split(header, ',');
    let mut names: Vec<String> = Vec::new();
    let mut i: usize = 0;
    while i < raw.len()
        invariant
            i <= raw.len(),
            names.len() == i,
            forall|j: int| 0 <= j < i ==> (#[trigger] names[j])@ == text::trimmed(raw[j]@),
        decreases raw.len() - i,
    {
        names.push(text::trim(raw[i].as_str()));
        i = i + 1;
    }
    proof {
        assert(text::views(names@) =~= text::views(raw@).map_values(
            |name: Seq<char>| text::trimmed(name),
        ));
    }
    names
}

fn find_features(names: &Vec<String>) -> (r: Vec<usize>)
    ensures
        r@ == feature_columns(text::views(names@), names.len() as int),
{
    let mut features: Vec<usize> = Vec::new();
    let mut i: usize = 0;
    while i < names.len()
        invariant
            i <= names.len(),
            features@ == feature_columns(text::views(names@), i as int),
        decreases names.len() - i,
    {
        let name = names[i].as_str();
        assert(text::views(names@)[i as int] == names[i as int]@);
        if !(text::same(name, "target") || text::same(name, "ground_truth") || text::starts_with(
            name,
            PROBA_PREFIX,
        )) {
            features.push(i);
        }
        i = i + 1;
    }
    features
}

fn find_references(names: &Vec<String>, classes: usize) -> (r: Result<Vec<usize>, Failure>)
    ensures
        match r {
            Ok(places) => reference_columns(text::views(names@), classes) == Ok::<
                Seq<usize>,
                FailureView,
            >(places@) && forall|i: int|
                0 <= i < places.len() ==> (#[trigger] places[i]) < names.len(),
            Err(e) => reference_columns(text::views(names@), classes) == Err::<
                Seq<usize>,
                FailureView,
            >(e@),
        },
{
    let mut places: Vec<usize> = Vec::new();
    if classes <= 1 {
        return match find_column(names, "ground_truth") {
            None => Err(Failure::Plain(Problem::MissingGroundTruth)),
            Some(place) => {
                places.push(place);
                assert(places@ =~= seq![place]);
                Ok(places)
            },
        };
    }
    let mut c: usize = 0;
    while c < classes
        invariant
            c <= classes,
            classes > 1,
            proba_columns(text::views(names@), classes, 0, seq![]) == proba_columns(
                text::views(names@),
                classes,
                c as int,
                places@,
            ),
            forall|i: int| 0 <= i < places.len() ==> (#[trigger] places[i]) < names.len(),
        decreases classes - c,
    {
        let mut name = PROBA_PREFIX.to_owned();
        text::push_decimal(&mut name, c as u64);
        match find_column(names, name.as_str()) {
            None => {
                return Err(
                    Failure::About { complaint: Complaint::MissingColumn { classes }, text: name },
                );
            },
            Some(place) => {
                places.push(place);
            },
        }
        c = c + 1;
    }
    Ok(places)
}

fn parse_columns(header: &str, classes: usize) -> (r: Result<Columns, Failure>)
    ensures
        match r {
            Ok(columns) => columns_of(header@, classes) == Ok::<ColumnsView, FailureView>(
                columns@,
            ) && columns@.valid() && columns@.features.len() <= usize::MAX,
            Err(e) => columns_of(header@, classes) == Err::<ColumnsView, FailureView>(e@),
        },
{
    let names = parse_names(header);
    let features = find_features(&names);
    proof {
        lemma_feature_columns(text::views(names@), names.len() as int);
    }
    if features.len() == 0 {
        return Err(Failure::Plain(Problem::NoFeatureColumns));
    }
    match find_references(&names, classes) {
        Err(e) => Err(e),
        Ok(references) => Ok(Columns { names, features, references }),
    }
}

fn parse_feature(raw: &str, column: &str, row: usize) -> (r: Result<F32, Failure>)
    ensures
        match r {
            Ok(value) => feature_value(raw@, column@, row) == Ok::<F32, FailureView>(value),
            Err(e) => feature_value(raw@, column@, row) == Err::<F32, FailureView>(e@),
        },
{
    let value = text::trim(raw);
    let chars = text::to_chars(value.as_str());
    let missing: bool = chars.len() == 0 || (chars.len() == 3 && (chars[0] == 'n' || chars[0]
        == 'N') && (chars[1] == 'a' || chars[1] == 'A') && (chars[2] == 'n' || chars[2] == 'N'));
    if missing {
        return Ok(F32 { bits: number::SINGLE_NAN_BITS });
    }
    match number::parse_single(value.as_str()) {
        Ok(bits) => Ok(F32 { bits }),
        Err(_) => Err(Failure::Cell { row, column: column.to_owned(), value }),
    }
}

fn parse_line(line: &str, columns: &Columns, row: usize) -> (r: Result<
    (Vec<F32>, Vec<F32>),
    Failure,
>)
    requires
        columns@.valid(),
    ensures
        match r {
            Ok((features, references)) => line_values(line@, columns@, row) == Ok::<
                (Seq<F32>, Seq<F32>),
                FailureView,
            >((features@, references@)),
            Err(e) => line_values(line@, columns@, row) == Err::<
                (Seq<F32>, Seq<F32>),
                FailureView,
            >(e@),
        },
{
    let cells = text::split(line, ',');
    let ghost views = text::views(cells@);
    if cells.len() != columns.names.len() {
        return Err(
            Failure::Plain(
                Problem::ColumnCount { row, expected: columns.names.len(), got: cells.len() },
            ),
        );
    }
    let mut features: Vec<F32> = Vec::new();
    let mut i: usize = 0;
    while i < columns.features.len()
        invariant
            i <= columns.features.len(),
            columns@.valid(),
            views == text::views(cells@),
            views == text::pieces(line@, ',', 0),
            cells.len() == columns.names.len(),
            features_from(views, columns@.names, columns@.features, row, 0, seq![])
                == features_from(
                views,
                columns@.names,
                columns@.features,
                row,
                i as int,
                features@,
            ),
        decreases columns.features.len() - i,
    {
        let at: usize = columns.features[i];
        assert(columns@.features[i as int] < columns@.names.len());
        assert(views[at as int] == cells[at as int]@);
        assert(columns@.names[at as int] == columns.names[at as int]@);
        match parse_feature(cells[at].as_str(), columns.names[at].as_str(), row) {
            Err(e) => {
                return Err(e);
            },
            Ok(value) => {
                features.push(value);
            },
        }
        i = i + 1;
    }
    let mut references: Vec<F32> = Vec::new();
    let mut k: usize = 0;
    while k < columns.references.len()
        invariant
            k <= columns.references.len(),
            columns@.valid(),
            views == text::views(cells@),
            views == text::pieces(line@, ',', 0),
            cells.len() == columns.names.len(),
            features_from(views, columns@.names, columns@.features, row, 0, seq![]) == Ok::<
                Seq<F32>,
                FailureView,
            >(features@),
            references_from(views, columns@.references, row, 0, seq![]) == references_from(
                views,
                columns@.references,
                row,
                k as int,
                references@,
            ),
        decreases columns.references.len() - k,
    {
        let at: usize = columns.references[k];
        assert(columns@.references[k as int] < columns@.names.len());
        assert(views[at as int] == cells[at as int]@);
        match number::parse_single(text::trim(cells[at].as_str()).as_str()) {
            Err(fault) => {
                return Err(
                    Failure::Caused {
                        complaint: Complaint::Reference { row },
                        text: cells[at].clone(),
                        fault,
                    },
                );
            },
            Ok(bits) => {
                references.push(F32 { bits });
            },
        }
        k = k + 1;
    }
    Ok((features, references))
}

/// Reads a data file for a model with `n_classes` outputs.
pub fn parse_csv(content: &str, n_classes: usize) -> (r: Result<ParsedData, Failure>)
    ensures
        match r {
            Ok(data) => data_of(content@, n_classes) == Ok::<DataView, FailureView>(data@),
            Err(e) => data_of(content@, n_classes) == Err::<DataView, FailureView>(e@),
        },
{
    let lines = text::to_lines(content);
    let ghost views = text::views(lines@);
    if lines.len() == 0 {
        return Err(Failure::Plain(Problem::EmptyCsv));
    }
    assert(views[0] == lines[0]@);
    let columns = match parse_columns(lines[0].as_str(), n_classes) {
        Ok(columns) => columns,
        Err(e) => {
            return Err(e);
        },
    };
    let mut data = ParsedData {
        rows: Vec::new(),
        references: Vec::new(),
        n_features: columns.features.len(),
    };
    let mut i: usize = 1;
    proof {
        assert(data@.rows =~= seq![]);
        assert(data@.references =~= seq![]);
    }
    while i < lines.len()
        invariant
            1 <= i <= lines.len(),
            views == text::views(lines@),
            views == text::lines(content@, 0),
            columns@.valid(),
            columns_of(views[0], n_classes) == Ok::<ColumnsView, FailureView>(columns@),
            data_of(content@, n_classes) == data_from(views, columns@, i as int, data@),
        decreases lines.len() - i,
    {
        assert(views[i as int] == lines[i as int]@);
        let blank: bool = text::to_chars(text::trim(lines[i].as_str()).as_str()).len() == 0;
        if !blank {
            let ghost before = data@;
            match parse_line(lines[i].as_str(), &columns, i + 1) {
                Err(e) => {
                    return Err(e);
                },
                Ok((features, references)) => {
                    data.rows.push(features);
                    data.references.push(references);
                    proof {
                        assert(data@.rows =~= before.rows.push(features@));
                        assert(data@.references =~= before.references.push(references@));
                    }
                },
            }
        }
        i = i + 1;
    }
    Ok(data)
}

proof fn lemma_features_len(
    cells: Seq<Seq<char>>,
    names: Seq<Seq<char>>,
    columns: Seq<usize>,
    row: usize,
    from: int,
    before: Seq<F32>,
)
    requires
        0 <= from <= columns.len(),
    ensures
        features_from(cells, names, columns, row, from, before) matches Ok(values) ==> values.len()
            == before.len() + columns.len() - from,
    decreases columns.len() - from,
{
    if from < columns.len() {
        let at = columns[from] as int;
        if let Ok(value) = feature_value(cells[at], names[at], row) {
            lemma_features_len(cells, names, columns, row, from + 1, before.push(value));
        }
    }
}

proof fn lemma_references_len(
    cells: Seq<Seq<char>>,
    columns: Seq<usize>,
    row: usize,
    from: int,
    before: Seq<F32>,
)
    requires
        0 <= from <= columns.len(),
    ensures
        references_from(cells, columns, row, from, before) matches Ok(values) ==> values.len()
            == before.len() + columns.len() - from,
    decreases columns.len() - from,
{
    if from < columns.len() {
        let at = columns[from] as int;
        if let Ok(bits) = number::single_of_text(text::trimmed(cells[at])) {
            lemma_references_len(cells, columns, row, from + 1, before.push(F32 { bits }));
        }
    }
}

proof fn lemma_proba_len(
    names: Seq<Seq<char>>,
    classes: usize,
    from: int,
    before: Seq<usize>,
)
    requires
        0 <= from <= classes,
    ensures
        proba_columns(names, classes, from, before) matches Ok(places) ==> places.len()
            == before.len() + classes - from,
    decreases classes - from,
{
    if from < classes {
        if let Some(place) = column_from(names, proba_name(from), 0) {
            lemma_proba_len(names, classes, from + 1, before.push(place));
        }
    }
}

/// Whether data has one reference row per row, and all rows have their width.
pub open spec fn shaped(data: DataView, features: int, outputs: int) -> bool {
    &&& data.rows.len() == data.references.len()
    &&& forall|i: int| 0 <= i < data.rows.len() ==> (#[trigger] data.rows[i]).len() == features
    &&& forall|i: int|
        0 <= i < data.references.len() ==> (#[trigger] data.references[i]).len() == outputs
}

proof fn lemma_data_shape(
    lines: Seq<Seq<char>>,
    columns: ColumnsView,
    from: int,
    before: DataView,
)
    requires
        shaped(before, columns.features.len() as int, columns.references.len() as int),
    ensures
        data_from(lines, columns, from, before) matches Ok(data) ==> shaped(
            data,
            columns.features.len() as int,
            columns.references.len() as int,
        ) && data.n_features == before.n_features,
    decreases lines.len() - from,
{
    if 0 <= from < lines.len() {
        if text::trimmed(lines[from]).len() == 0 {
            lemma_data_shape(lines, columns, from + 1, before);
        } else {
            let row = (from + 1) as usize;
            if let Ok((features, references)) = line_values(lines[from], columns, row) {
                let cells = text::pieces(lines[from], ',', 0);
                lemma_features_len(cells, columns.names, columns.features, row, 0, seq![]);
                lemma_references_len(cells, columns.references, row, 0, seq![]);
                lemma_data_shape(
                    lines,
                    columns,
                    from + 1,
                    DataView {
                        rows: before.rows.push(features),
                        references: before.references.push(references),
                        n_features: before.n_features,
                    },
                );
            }
        }
    }
}

/// How many references a row has.
pub open spec fn reference_count(classes: usize) -> int {
    if classes > 1 {
        classes as int
    } else {
        1
    }
}

/// What is read from a data file has one reference row per row, as many features in every
/// row as the file has feature columns, and one reference per output.
pub proof fn data_is_rectangular(content: Seq<char>, classes: usize)
    ensures
        data_of(content, classes) matches Ok(data) ==> ({
            let columns = columns_of(text::lines(content, 0)[0], classes)->Ok_0;
            data.n_features == columns.features.len() as usize && shaped(
                data,
                columns.features.len() as int,
                reference_count(classes),
            )
        }),
{
    let lines = text::lines(content, 0);
    if lines.len() > 0 {
        if let Ok(columns) = columns_of(lines[0], classes) {
            if classes > 1 {
                lemma_proba_len(columns.names, classes, 0, seq![]);
            }
            let start = DataView {
                rows: seq![],
                references: seq![],
                n_features: columns.features.len() as usize,
            };
            lemma_data_shape(lines, columns, 1, start);
        }
    }
}

/// The values of the pieces from `from` on, behind those read before.
pub open spec fn predictions_from(pieces: Seq<Seq<char>>, from: int, before: Seq<F32>) -> Result<
    Seq<F32>,
    FailureView,
>
    decreases pieces.len() - from,
{
    if from < 0 || from >= pieces.len() {
        Ok(before)
    } else {
        match number::single_of_text(text::trimmed(pieces[from])) {
            Err(fault) => Err(
                FailureView::Caused { complaint: Complaint::Prediction, text: pieces[from], fault },
            ),
            Ok(bits) => predictions_from(pieces, from + 1, before.push(F32 { bits })),
        }
    }
}

/// The predictions of a line.
pub open spec fn prediction_line(line: Seq<char>, classes: usize) -> Result<Seq<F32>, FailureView> {
    match predictions_from(text::pieces(line, ',', 0), 0, seq![]) {
        Err(e) => Err(e),
        Ok(values) => if values.len() == classes {
            Ok(values)
        } else {
            Err(
                FailureView::Plain(
                    Problem::PredictionWidth { expected: classes, got: values.len() as usize },
                ),
            )
        },
    }
}

/// The predictions of the lines from `from` on, behind those read before. Blank lines are
/// skipped.
pub open spec fn prediction_lines(
    lines: Seq<Seq<char>>,
    classes: usize,
    from: int,
    before: Seq<Seq<F32>>,
) -> Result<Seq<Seq<F32>>, FailureView>
    decreases lines.len() - from,
{
    if from < 0 || from >= lines.len() {
        Ok(before)
    } else if text::trimmed(lines[from]).len() == 0 {
        prediction_lines(lines, classes, from + 1, before)
    } else {
        match prediction_line(lines[from], classes) {
            Err(e) => Err(e),
            Ok(values) => prediction_lines(lines, classes, from + 1, before.push(values)),
        }
    }
}

fn parse_prediction_line(line: &str, classes: usize) -> (r: Result<Vec<F32>, Failure>)
    ensures
        match r {
            Ok(values) => prediction_line(line@, classes) == Ok::<Seq<F32>, FailureView>(values@),
            Err(e) => prediction_line(line@, classes) == Err::<Seq<F32>, FailureView>(e@),
        },
{
    let pieces = text::split(line, ',');
    let mut values: Vec<F32> = Vec::new();
    let mut i: usize = 0;
    while i < pieces.len()
        invariant
            i <= pieces.len(),
            text::views(pieces@) == text::pieces(line@, ',', 0),
            predictions_from(text::views(pieces@), 0, seq![]) == predictions_from(
                text::views(pieces@),
                i as int,
                values@,
            ),
        decreases pieces.len() - i,
    {
        assert(text::views(pieces@)[i as int] == pieces[i as int]@);
        match number::parse_single(text::trim(pieces[i].as_str()).as_str()) {
            Err(fault) => {
                return Err(
                    Failure::Caused {
                        complaint: Complaint::Prediction,
                        text: pieces[i].clone(),
                        fault,
                    },
                );
            },
            Ok(bits) => {
                values.push(F32 { bits });
            },
        }
        i = i + 1;
    }
    if values.len() != classes {
        return Err(
            Failure::Plain(Problem::PredictionWidth { expected: classes, got: values.len() }),
        );
    }
    Ok(values)
}

/// Reads the output of a scoring harness: one line per row, one value per class.
pub fn parse_predictions(stdout: &str, n_classes: usize) -> (r: Result<Vec<Vec<F32>>, Failure>)
    ensures
        match r {
            Ok(rows) => prediction_lines(text::lines(stdout@, 0), n_classes, 0, seq![]) == Ok::<
                Seq<Seq<F32>>,
                FailureView,
            >(row_views(rows@)),
            Err(e) => prediction_lines(text::lines(stdout@, 0), n_classes, 0, seq![]) == Err::<
                Seq<Seq<F32>>,
                FailureView,
            >(e@),
        },
{
    let lines = text::to_lines(stdout);
    let mut rows: Vec<Vec<F32>> = Vec::new();
    let mut i: usize = 0;
    assert(row_views(rows@) =~= seq![]);
    while i < lines.len()
        invariant
            i <= lines.len(),
            text::views(lines@) == text::lines(stdout@, 0),
            prediction_lines(text::views(lines@), n_classes, 0, seq![]) == prediction_lines(
                text::views(lines@),
                n_classes,
                i as int,
                row_views(rows@),
            ),
        decreases lines.len() - i,
    {
        assert(text::views(lines@)[i as int] == lines[i as int]@);
        if text::to_chars(text::trim(lines[i].as_str()).as_str()).len() > 0 {
            let ghost before = row_views(rows@);
            match parse_prediction_line(lines[i].as_str(), n_classes) {
                Err(e) => {
                    return Err(e);
                },
                Ok(values) => {
                    rows.push(values);
                    proof {
                        assert(row_views(rows@) =~= before.push(values@));
                    }
                },
            }
        }
        i = i + 1;
    }
    Ok(rows)
}

/// How many outputs a model has.
pub fn output_count(forest: &Forest) -> (r: usize)
    ensures
        r == forest@.classes(),
{
    match forest.post_transform {
        PostTransform::Softmax { n_classes } => n_classes,
        _ => 1,
    }
}

/// The data that a model is held against, from a file in some place.
pub open spec fn usable_data(forest: ForestView, content: Seq<char>, place: Seq<char>) -> Result<
    DataView,
    FailureView,
> {
    if forest.catboost_metadata is Some {
        Err(FailureView::Plain(Problem::VerifyCatboost))
    } else {
        match data_of(content, forest.classes() as usize) {
            Err(e) => Err(e),
            Ok(data) => if data.rows.len() == 0 {
                Err(FailureView::About { complaint: Complaint::NoDataRows, text: place })
            } else {
                Ok(data)
            },
        }
    }
}

/// Reads the data that a model is to be held against. Models with counters need text
/// features, which the data has no room for. Failures may name the place of the data.
pub fn prepare(forest: &Forest, content: &str, place: &str) -> (r: Result<ParsedData, Failure>)
    ensures
        match r {
            Ok(data) => usable_data(forest@, content@, place@) == Ok::<DataView, FailureView>(
                data@,
            ),
            Err(e) => usable_data(forest@, content@, place@) == Err::<DataView, FailureView>(e@),
        },
{
    if forest.catboost_metadata.is_some() {
        return Err(Failure::Plain(Problem::VerifyCatboost));
    }
    match parse_csv(content, output_count(forest)) {
        Err(e) => Err(e),
        Ok(data) => if data.rows.len() == 0 {
            Err(Failure::About { complaint: Complaint::NoDataRows, text: place.to_owned() })
        } else {
            Ok(data)
        },
    }
}

/// The predictions of a harness for `rows` rows.
pub open spec fn usable_predictions(stdout: Seq<char>, classes: usize, rows: usize) -> Result<
    Seq<Seq<F32>>,
    FailureView,
> {
    match prediction_lines(text::lines(stdout, 0), classes, 0, seq![]) {
        Err(e) => Err(e),
        Ok(predictions) => if predictions.len() == rows {
            Ok(predictions)
        } else {
            Err(
                FailureView::Plain(
                    Problem::PredictionCount { predictions: predictions.len() as usize, rows },
                ),
            )
        },
    }
}

/// Reads the output of a scoring harness that was given `rows` rows.
pub fn read_predictions(stdout: &str, n_classes: usize, rows: usize) -> (r: Result<
    Vec<Vec<F32>>,
    Failure,
>)
    ensures
        match r {
            Ok(predictions) => usable_predictions(stdout@, n_classes, rows) == Ok::<
                Seq<Seq<F32>>,
                FailureView,
            >(row_views(predictions@)),
            Err(e) => usable_predictions(stdout@, n_classes, rows) == Err::<
                Seq<Seq<F32>>,
                FailureView,
            >(e@),
        },
{
    match parse_predictions(stdout, n_classes) {
        Err(e) => Err(e),
        Ok(predictions) => {
            assert(row_views(predictions@).len() == predictions.len());
            if predictions.len() == rows {
                Ok(predictions)
            } else {
                Err(
                    Failure::Plain(
                        Problem::PredictionCount { predictions: predictions.len(), rows },
                    ),
                )
            }
        },
    }
}

/// A prediction that is too far off.
#[derive(Debug, Clone, Copy, PartialEq, Eq, Structural)]
pub struct Mismatch {
    pub row: usize,
    pub class: usize,
}

/// The outcome of a comparison.
#[derive(Debug)]
pub struct Comparison {
    /// How many errors are not within the tolerance.
    pub mismatches: usize,
    /// The greatest error; an error that is no number is greater than any other.
    pub max_abs_error: F32,
    /// The first mismatches.
    pub reported: Vec<Mismatch>,
}

#[verifier::ext_equal]
pub ghost struct ComparisonView {
    pub mismatches: nat,
    pub max_abs_error: F32,
    pub reported: Seq<Mismatch>,
}

impl ComparisonView {
    /// Whether the mismatches are reported one by one until there are too many.
    pub open spec fn reports_first(self) -> bool {
        self.reported.len() == if self.mismatches <= MAX_REPORTED_MISMATCHES {
            self.mismatches as int
        } else {
            MAX_REPORTED_MISMATCHES as int
        }
    }

    pub open spec fn start() -> ComparisonView {
        ComparisonView { mismatches: 0, max_abs_error: F32 { bits: 0 }, reported: seq![] }
    }

    /// The outcome with one more error. An error is a mismatch unless it is at most the
    /// tolerance, so one that is no number is a mismatch.
    pub open spec fn with(self, error: F32, tolerance: F32, at: Mismatch) -> ComparisonView {
        ComparisonView {
            max_abs_error: if self.max_abs_error.nan() || error.at_most(self.max_abs_error) {
                self.max_abs_error
            } else {
                error
            },
            mismatches: self.mismatches + (if error.at_most(tolerance) {
                0nat
            } else {
                1nat
            }),
            reported: if !error.at_most(tolerance) && self.reported.len()
                < MAX_REPORTED_MISMATCHES {
                self.reported.push(at)
            } else {
                self.reported
            },
        }
    }

    /// The outcome after the first `n` errors of a row.
    pub open spec fn with_row(self, row: Seq<F32>, tolerance: F32, at: usize, n: int) -> ComparisonView
        decreases n,
    {
        if n <= 0 {
            self
        } else {
            self.with_row(row, tolerance, at, n - 1).with(
                row[n - 1],
                tolerance,
                Mismatch { row: at, class: (n - 1) as usize },
            )
        }
    }
}

/// The outcome of the first `n` rows of errors.
pub open spec fn compared(errors: Seq<Seq<F32>>, tolerance: F32, n: int) -> ComparisonView
    decreases n,
{
    if n <= 0 {
        ComparisonView::start()
    } else {
        compared(errors, tolerance, n - 1).with_row(
            errors[n - 1],
            tolerance,
            (n - 1) as usize,
            errors[n - 1].len() as int,
        )
    }
}

impl Comparison {
    /// Whether this is the outcome, its count as far as `usize` counts.
    pub open spec fn is(self, outcome: ComparisonView) -> bool {
        self.mismatches == number::counted(outcome.mismatches as int) && self.max_abs_error
            == outcome.max_abs_error && self.reported@ == outcome.reported
    }
}

/// Holds the absolute errors of predictions against a tolerance.
pub fn compare(errors: &Vec<Vec<F32>>, tolerance: F32) -> (r: Comparison)
    ensures
        r.is(compared(row_views(errors@), tolerance, errors.len() as int)),
{
    let mut out = Comparison {
        mismatches: 0,
        max_abs_error: F32 { bits: 0 },
        reported: Vec::new(),
    };
    let mut i: usize = 0;
    assert(out.reported@ =~= seq![]);
    while i < errors.len()
        invariant
            i <= errors.len(),
            out.is(compared(row_views(errors@), tolerance, i as int)),
        decreases errors.len() - i,
    {
        let row = &errors[i];
        let ghost before = compared(row_views(errors@), tolerance, i as int);
        assert(row_views(errors@)[i as int] == row@);
        let mut c: usize = 0;
        while c < row.len()
            invariant
                c <= row.len(),
                out.is(before.with_row(row@, tolerance, i, c as int)),
            decreases row.len() - c,
        {
            let error = row[c];
            if !out.max_abs_error.is_nan() && !error.le(out.max_abs_error) {
                out.max_abs_error = error;
            }
            if !error.le(tolerance) {
                out.mismatches = out.mismatches.saturating_add(1);
                if out.reported.len() < MAX_REPORTED_MISMATCHES {
                    out.reported.push(Mismatch { row: i, class: c });
                }
            }
            c = c + 1;
        }
        i = i + 1;
    }
    out
}

/// Whether every error is at most the tolerance.
pub open spec fn all_within(errors: Seq<Seq<F32>>, tolerance: F32) -> bool {
    forall|i: int, c: int|
        0 <= i < errors.len() && 0 <= c < errors[i].len() ==> (
        #[trigger] errors[i][c]).at_most(tolerance)
}

/// A comparison finds no mismatch exactly if every error is at most the tolerance, and it
/// reports every mismatch until there are too many.
pub proof fn mismatches_are_the_errors_beyond_tolerance(errors: Seq<Seq<F32>>, tolerance: F32)
    ensures
        compared(errors, tolerance, errors.len() as int).mismatches == 0 <==> all_within(
            errors,
            tolerance,
        ),
        compared(errors, tolerance, errors.len() as int).reports_first(),
{
    lemma_rows_within(errors, tolerance, errors.len() as int);
    assert(errors.take(errors.len() as int) =~= errors);
}

/// Whether some error is no number.
pub open spec fn some_nan(errors: Seq<Seq<F32>>) -> bool {
    exists|i: int, c: int|
        0 <= i < errors.len() && 0 <= c < errors[i].len() && (#[trigger] errors[i][c]).nan()
}

/// Every error is at most the greatest that a comparison gives, unless one of them is no
/// number: exactly then the greatest is none.
pub proof fn greatest_error_bounds_the_errors(errors: Seq<Seq<F32>>, tolerance: F32)
    ensures
        ({
            let greatest = compared(errors, tolerance, errors.len() as int).max_abs_error;
            if some_nan(errors) {
                greatest.nan()
            } else {
                all_within(errors, greatest)
            }
        }),
{
    lemma_rows_bounded(errors, tolerance, errors.len() as int);
    let greatest = compared(errors, tolerance, errors.len() as int).max_abs_error;
    if some_nan(errors) {
        let (i, c) = choose|i: int, c: int|
            0 <= i < errors.len() && 0 <= c < errors[i].len() && (#[trigger] errors[i][c]).nan();
        assert(bounded(errors[i][c], greatest));
    } else if greatest.nan() {
        lemma_rows_nan(errors, tolerance, errors.len() as int);
    } else {
        assert forall|i: int, c: int| 0 <= i < errors.len() && 0 <= c < errors[i].len() implies (
        #[trigger] errors[i][c]).at_most(greatest) by {
            assert(bounded(errors[i][c], greatest));
        }
    }
}

/// Whether an error is at most the bound, or the bound is no number.
spec fn bounded(error: F32, bound: F32) -> bool {
    bound.nan() || error.at_most(bound)
}

proof fn lemma_bound_grows(before: ComparisonView, error: F32, tolerance: F32, at: Mismatch, x: F32)
    requires
        bounded(x, before.max_abs_error),
    ensures
        bounded(x, before.with(error, tolerance, at).max_abs_error),
        bounded(error, before.with(error, tolerance, at).max_abs_error),
{
}

proof fn lemma_row_bounded(
    before: ComparisonView,
    row: Seq<F32>,
    tolerance: F32,
    at: usize,
    n: int,
)
    requires
        0 <= n <= row.len(),
    ensures
        forall|x: F32|
            bounded(x, before.max_abs_error) ==> #[trigger] bounded(
                x,
                before.with_row(row, tolerance, at, n).max_abs_error,
            ),
        forall|c: int|
            0 <= c < n ==> bounded(
                #[trigger] row[c],
                before.with_row(row, tolerance, at, n).max_abs_error,
            ),
    decreases n,
{
    if n > 0 {
        lemma_row_bounded(before, row, tolerance, at, n - 1);
        let middle = before.with_row(row, tolerance, at, n - 1);
        let place = Mismatch { row: at, class: (n - 1) as usize };
        let after = middle.with(row[n - 1], tolerance, place);
        assert forall|x: F32| bounded(x, middle.max_abs_error) implies #[trigger] bounded(
            x,
            after.max_abs_error,
        ) by {
            lemma_bound_grows(middle, row[n - 1], tolerance, place, x);
        }
    }
}

proof fn lemma_rows_bounded(errors: Seq<Seq<F32>>, tolerance: F32, n: int)
    requires
        0 <= n <= errors.len(),
    ensures
        forall|i: int, c: int|
            0 <= i < n && 0 <= c < errors[i].len() ==> bounded(
                #[trigger] errors[i][c],
                compared(errors, tolerance, n).max_abs_error,
            ),
    decreases n,
{
    if n > 0 {
        lemma_rows_bounded(errors, tolerance, n - 1);
        let before = compared(errors, tolerance, n - 1);
        let row = errors[n - 1];
        lemma_row_bounded(before, row, tolerance, (n - 1) as usize, row.len() as int);
    }
}

proof fn lemma_rows_nan(errors: Seq<Seq<F32>>, tolerance: F32, n: int)
    requires
        0 <= n <= errors.len(),
        compared(errors, tolerance, n).max_abs_error.nan(),
    ensures
        some_nan(errors),
    decreases n,
{
    if n > 0 {
        let before = compared(errors, tolerance, n - 1);
        if before.max_abs_error.nan() {
            lemma_rows_nan(errors, tolerance, n - 1);
        } else {
            let row = errors[n - 1];
            lemma_row_nan(before, row, tolerance, (n - 1) as usize, row.len() as int);
            let c = choose|c: int| 0 <= c < row.len() && (#[trigger] row[c]).nan();
            assert(errors[n - 1][c].nan());
        }
    }
}

proof fn lemma_row_nan(before: ComparisonView, row: Seq<F32>, tolerance: F32, at: usize, n: int)
    requires
        0 <= n <= row.len(),
        !before.max_abs_error.nan(),
        before.with_row(row, tolerance, at, n).max_abs_error.nan(),
    ensures
        exists|c: int| 0 <= c < n && (#[trigger] row[c]).nan(),
    decreases n,
{
    if n > 0 {
        if before.with_row(row, tolerance, at, n - 1).max_abs_error.nan() {
            lemma_row_nan(before, row, tolerance, at, n - 1);
        } else {
            assert(row[n - 1].nan());
        }
    }
}

proof fn lemma_rows_within(errors: Seq<Seq<F32>>, tolerance: F32, n: int)
    requires
        0 <= n <= errors.len(),
    ensures
        compared(errors, tolerance, n).mismatches == 0 <==> all_within(errors.take(n), tolerance),
        compared(errors, tolerance, n).reports_first(),
    decreases n,
{
    if n > 0 {
        let row = errors[n - 1];
        let before = compared(errors, tolerance, n - 1);
        let m = row.len() as int;
        lemma_rows_within(errors, tolerance, n - 1);
        lemma_row_within(before, row, tolerance, (n - 1) as usize, m);
        let fewer = errors.take(n - 1);
        let all = errors.take(n);
        assert(forall|i: int| 0 <= i < n - 1 ==> #[trigger] all[i] == fewer[i]);
        assert(all[n - 1] == row);
        if all_within(all, tolerance) {
            assert(all_within(fewer, tolerance)) by {
                assert forall|i: int, c: int|
                    0 <= i < fewer.len() && 0 <= c < fewer[i].len() implies (
                    #[trigger] fewer[i][c]).at_most(tolerance) by {
                    assert(all[i][c] == fewer[i][c]);
                }
            }
            assert forall|c: int| 0 <= c < m implies (#[trigger] row[c]).at_most(tolerance) by {
                assert(all[n - 1][c] == row[c]);
            }
        }
        if compared(errors, tolerance, n).mismatches == 0 {
            assert forall|i: int, c: int|
                0 <= i < all.len() && 0 <= c < all[i].len() implies (
                    #[trigger] all[i][c]).at_most(tolerance) by {
                if i < n - 1 {
                    assert(fewer[i][c] == all[i][c]);
                } else {
                    assert(row[c] == all[i][c]);
                }
            }
        }
    }
}

proof fn lemma_row_within(
    before: ComparisonView,
    row: Seq<F32>,
    tolerance: F32,
    at: usize,
    n: int,
)
    requires
        0 <= n <= row.len(),
        before.reports_first(),
    ensures
        before.with_row(row, tolerance, at, n).mismatches == 0 <==> before.mismatches == 0 && (
        forall|c: int| 0 <= c < n ==> (#[trigger] row[c]).at_most(tolerance)),
        before.with_row(row, tolerance, at, n).reports_first(),
    decreases n,
{
    if n > 0 {
        lemma_row_within(before, row, tolerance, at, n - 1);
        assert(row[n - 1] == row[n - 1]);
    }
}

/// What the display format of a single with these bits is.
pub uninterp spec fn single_display(bits: u32) -> Seq<char>;

/// The display format of a single-precision number. It is a function of the number; which
/// digits it has is left to the standard library.
#[verifier::external_body]
fn write_single(bits: u32) -> (r: String)
    ensures
        r@ == single_display(bits),
{
    format!("{}", byteorder::LittleEndian::read_f32(&bits.to_le_bytes()))
}

/// What the scientific format of a single with these bits and so many digits is.
pub uninterp spec fn single_scientific(bits: u32, digits: usize) -> Seq<char>;

/// The scientific format of a single-precision number with a precision. It is a function of
/// both; which digits it has is left to the standard library.
#[verifier::external_body]
fn write_scientific(bits: u32, digits: usize) -> (r: String)
    requires
        digits < 0x1_0000,
    ensures
        r@ == single_scientific(bits, digits),
{
    format!("{:.*e}", digits, byteorder::LittleEndian::read_f32(&bits.to_le_bytes()))
}

/// The line that reports a mismatch.
pub open spec fn mismatch_text(
    at: Mismatch,
    classes: usize,
    predicted: F32,
    expected: F32,
    error: F32,
) -> Seq<char> {
    let row = "   ✗ row "@ + text::decimal(at.row as nat);
    (if classes > 1 {
        row + " class "@ + text::decimal(at.class as nat)
    } else {
        row
    }) + ": predicted "@ + single_display(predicted.bits) + " expected "@ + single_display(
        expected.bits,
    ) + " (error "@ + single_scientific(error.bits, 2) + ")"@
}

/// The line that reports a mismatch.
pub fn mismatch_line(
    at: Mismatch,
    n_classes: usize,
    predicted: F32,
    expected: F32,
    error: F32,
) -> (r: String)
    ensures
        r@ == mismatch_text(at, n_classes, predicted, expected, error),
{
    let mut out = "   ✗ row ".to_owned();
    text::push_decimal(&mut out, at.row as u64);
    if n_classes > 1 {
        out.append(" class ");
        text::push_decimal(&mut out, at.class as u64);
    }
    out.append(": predicted ");
    out.append(write_single(predicted.bits).as_str());
    out.append(" expected ");
    out.append(write_single(expected.bits).as_str());
    out.append(" (error ");
    out.append(write_scientific(error.bits, 2).as_str());
    out.append(")");
    out
}

/// The line that counts the mismatches that are not reported; nothing if all are.
pub fn unreported_line(mismatches: usize) -> (r: Option<String>)
    ensures
        r is Some <==> mismatches > MAX_REPORTED_MISMATCHES,
        r matches Some(line) ==> line@ == "   ✗ ... and "@ + text::decimal(
            (mismatches - MAX_REPORTED_MISMATCHES) as nat,
        ) + " more mismatches"@,
{
    if mismatches > MAX_REPORTED_MISMATCHES {
        let mut out = "   ✗ ... and ".to_owned();
        text::push_decimal(&mut out, (mismatches - MAX_REPORTED_MISMATCHES) as u64);
        out.append(" more mismatches");
        Some(out)
    } else {
        None
    }
}

/// What a comparison of so many predictions comes to: success exactly if there is no mismatch.
pub open spec fn verdict_text(
    mismatches: usize,
    comparisons: usize,
    tolerance: F32,
    max_abs_error: F32,
) -> Result<Seq<char>, Seq<char>> {
    let limit = single_display(tolerance.bits) + " (max abs error "@ + single_scientific(
        max_abs_error.bits,
        3,
    ) + ")"@;
    if mismatches == 0 {
        Ok("✓ all "@ + text::decimal(comparisons as nat) + " predictions within "@ + limit)
    } else {
        Err(
            text::decimal(mismatches as nat) + "/"@ + text::decimal(comparisons as nat)
                + " predictions exceed tolerance "@ + limit,
        )
    }
}

/// What a comparison of so many predictions comes to: success exactly if there is no mismatch.
pub fn verdict(
    mismatches: usize,
    comparisons: usize,
    tolerance: F32,
    max_abs_error: F32,
) -> (r: Result<String, String>)
    ensures
        match r {
            Ok(line) => verdict_text(mismatches, comparisons, tolerance, max_abs_error) == Ok::<
                Seq<char>,
                Seq<char>,
            >(line@),
            Err(line) => verdict_text(mismatches, comparisons, tolerance, max_abs_error) == Err::<
                Seq<char>,
                Seq<char>,
            >(line@),
        },
{
    let mut limit = write_single(tolerance.bits);
    limit.append(" (max abs error ");
    limit.append(write_scientific(max_abs_error.bits, 3).as_str());
    limit.append(")");
    if mismatches == 0 {
        let mut out = "✓ all ".to_owned();
        text::push_decimal(&mut out, comparisons as u64);
        out.append(" predictions within ");
        out.append(limit.as_str());
        Ok(out)
    } else {
        let mut out = String::new();
        text::push_decimal(&mut out, mismatches as u64);
        assert(out@ =~= text::decimal(mismatches as nat));
        out.append("/");
        text::push_decimal(&mut out, comparisons as u64);
        out.append(" predictions exceed tolerance ");
        out.append(limit.as_str());
        Err(out)
    }
}

/// Appends the first `n` values of a row, with commas between them.
pub open spec fn with_cells(out: Seq<char>, row: Seq<F32>, n: int) -> Seq<char>
    decreases n,
{
    if n <= 0 {
        out
    } else {
        let before = with_cells(out, row, n - 1);
        (if n > 1 {
            before.push(',')
        } else {
            before
        }) + single_display(row[n - 1].bits)
    }
}

/// The first `n` rows as the harness reads them, a line for each.
pub open spec fn input_lines(rows: Seq<Seq<F32>>, n: int) -> Seq<char>
    decreases n,
{
    if n <= 0 {
        seq![]
    } else {
        with_cells(input_lines(rows, n - 1), rows[n - 1], rows[n - 1].len() as int).push('\n')
    }
}

/// The rows as the harness reads them, a line for each.
pub fn harness_input(rows: &Vec<Vec<F32>>) -> (r: String)
    ensures
        r@ == input_lines(row_views(rows@), rows.len() as int),
{
    let mut out = String::new();
    let mut i: usize = 0;
    while i < rows.len()
        invariant
            i <= rows.len(),
            out@ == input_lines(row_views(rows@), i as int),
        decreases rows.len() - i,
    {
        let row = &rows[i];
        assert(row_views(rows@)[i as int] == row@);
        let ghost before = out@;
        let mut c: usize = 0;
        while c < row.len()
            invariant
                c <= row.len(),
                out@ == with_cells(before, row@, c as int),
            decreases row.len() - c,
        {
            if c > 0 {
                out.push(',');
            }
            out.append(write_single(row[c].bits).as_str());
            c = c + 1;
        }
        out.push('\n');
        i = i + 1;
    }
    out
}

/// The source of the harness that scores rows with a generated model.
pub open spec fn harness(classes: usize) -> Seq<char> {
    HARNESS_OPEN@ + (if classes > 1 {
        HARNESS_SOFTMAX@
    } else {
        HARNESS_SCALAR@
    }) + HARNESS_CLOSE@
}

/// The source of a program that reads rows of features from its input and prints a line of
/// predictions for each, with the model in `model.rs` beside it.
pub fn harness_source(n_classes: usize) -> (r: String)
    ensures
        r@ == harness(n_classes),
{
    let mut out = HARNESS_OPEN.to_owned();
    if n_classes > 1 {
        out.append(HARNESS_SOFTMAX);
    } else {
        out.append(HARNESS_SCALAR);
    }
    out.append(HARNESS_CLOSE);
    out
}

/// A feature's cell is a missing value if nothing or `nan`, in any case, stands in it. Any other
/// cell is the number that it writes, and a complaint that quotes it if it writes none.
pub proof fn cells_are_the_numbers_they_write(raw: Seq<char>, column: Seq<char>, row: usize)
    ensures
        ({
            let cell = text::trimmed(raw);
            let read = feature_value(raw, column, row);
            let missing = cell.len() == 0 || (cell.len() == 3 && (cell[0] == 'n' || cell[0] == 'N')
                && (cell[1] == 'a' || cell[1] == 'A') && (cell[2] == 'n' || cell[2] == 'N'));
            &&& missing ==> (read matches Ok(value) && value.nan())
            &&& !missing ==> (number::single_of_text(cell) matches Ok(bits) ==> read == Ok::<
                F32,
                FailureView,
            >(F32 { bits }))
            &&& !missing && number::single_of_text(cell) is Err ==> read == Err::<
                F32,
                FailureView,
            >(FailureView::Cell { row, column, value: cell })
        }),
{
}

proof fn lemma_features(
    cells: Seq<Seq<char>>,
    names: Seq<Seq<char>>,
    columns: Seq<usize>,
    row: usize,
    from: int,
    before: Seq<F32>,
)
    requires
        0 <= from <= columns.len(),
    ensures
        features_from(cells, names, columns, row, from, before) matches Ok(values) ==> {
            &&& values.len() == before.len() + columns.len() - from
            &&& forall|i: int| 0 <= i < before.len() ==> values[i] == #[trigger] before[i]
            &&& forall|i: int|
                from <= i < columns.len() ==> feature_value(
                    cells[#[trigger] columns[i] as int],
                    names[columns[i] as int],
                    row,
                ) == Ok::<F32, FailureView>(values[before.len() + i - from])
        },
    decreases columns.len() - from,
{
    if from < columns.len() {
        let at = columns[from] as int;
        if let Ok(value) = feature_value(cells[at], names[at], row) {
            let longer = before.push(value);
            lemma_features(cells, names, columns, row, from + 1, longer);
            if let Ok(values) = features_from(cells, names, columns, row, from, before) {
                assert forall|i: int| 0 <= i < before.len() implies values[i]
                    == #[trigger] before[i] by {
                    assert(longer[i] == before[i]);
                }
                assert(values[before.len() as int] == longer[before.len() as int]);
                assert forall|i: int| from <= i < columns.len() implies feature_value(
                    cells[#[trigger] columns[i] as int],
                    names[columns[i] as int],
                    row,
                ) == Ok::<F32, FailureView>(values[before.len() + i - from]) by {
                    if i > from {
                        assert(values[longer.len() + i - (from + 1)] == values[before.len() + i
                            - from]);
                    }
                }
            }
        }
    }
}

proof fn lemma_references(
    cells: Seq<Seq<char>>,
    columns: Seq<usize>,
    row: usize,
    from: int,
    before: Seq<F32>,
)
    requires
        0 <= from <= columns.len(),
    ensures
        references_from(cells, columns, row, from, before) matches Ok(values) ==> {
            &&& values.len() == before.len() + columns.len() - from
            &&& forall|i: int| 0 <= i < before.len() ==> values[i] == #[trigger] before[i]
            &&& forall|i: int|
                from <= i < columns.len() ==> number::single_of_text(
                    text::trimmed(cells[#[trigger] columns[i] as int]),
                ) == Ok::<u32, Seq<char>>(values[before.len() + i - from].bits)
        },
    decreases columns.len() - from,
{
    if from < columns.len() {
        let at = columns[from] as int;
        if let Ok(bits) = number::single_of_text(text::trimmed(cells[at])) {
            let longer = before.push(F32 { bits });
            lemma_references(cells, columns, row, from + 1, longer);
            if let Ok(values) = references_from(cells, columns, row, from, before) {
                assert forall|i: int| 0 <= i < before.len() implies values[i]
                    == #[trigger] before[i] by {
                    assert(longer[i] == before[i]);
                }
                assert(values[before.len() as int] == longer[before.len() as int]);
                assert forall|i: int| from <= i < columns.len() implies number::single_of_text(
                    text::trimmed(cells[#[trigger] columns[i] as int]),
                ) == Ok::<u32, Seq<char>>(values[before.len() + i - from].bits) by {
                    if i > from {
                        assert(values[longer.len() + i - (from + 1)] == values[before.len() + i
                            - from]);
                    }
                }
            }
        }
    }
}

/// A line has a cell for every column. Feature `i` of the row is read in the cell of the `i`-th
/// feature column, and reference `k` is the number in the cell of the `k`-th reference column.
pub proof fn lines_are_read_by_column(line: Seq<char>, columns: ColumnsView, row: usize)
    requires
        line_values(line, columns, row) is Ok,
    ensures
        ({
            let (features, references) = line_values(line, columns, row)->Ok_0;
            let cells = text::pieces(line, ',', 0);
            &&& cells.len() == columns.names.len()
            &&& features.len() == columns.features.len()
            &&& references.len() == columns.references.len()
            &&& forall|i: int|
                0 <= i < features.len() ==> feature_value(
                    cells[#[trigger] columns.features[i] as int],
                    columns.names[columns.features[i] as int],
                    row,
                ) == Ok::<F32, FailureView>(features[i])
            &&& forall|k: int|
                0 <= k < references.len() ==> number::single_of_text(
                    text::trimmed(cells[#[trigger] columns.references[k] as int]),
                ) == Ok::<u32, Seq<char>>(references[k].bits)
        }),
{
    let cells = text::pieces(line, ',', 0);
    let (features, references) = line_values(line, columns, row)->Ok_0;
    lemma_features(cells, columns.names, columns.features, row, 0, seq![]);
    lemma_references(cells, columns.references, row, 0, seq![]);
    assert forall|i: int| 0 <= i < features.len() implies feature_value(
        cells[#[trigger] columns.features[i] as int],
        columns.names[columns.features[i] as int],
        row,
    ) == Ok::<F32, FailureView>(features[i]) by {
        assert(features[0 + i - 0] == features[i]);
    }
    assert forall|k: int| 0 <= k < references.len() implies number::single_of_text(
        text::trimmed(cells[#[trigger] columns.references[k] as int]),
    ) == Ok::<u32, Seq<char>>(references[k].bits) by {
        assert(references[0 + k - 0] == references[k]);
    }
}

proof fn lemma_feature_places(names: Seq<Seq<char>>, n: int)
    requires
        0 <= n <= names.len() <= usize::MAX,
    ensures
        ({
            let places = feature_columns(names, n);
            &&& forall|i: int|
                0 <= i < places.len() ==> (#[trigger] places[i]) < n && !is_reference(
                    names[places[i] as int],
                )
            &&& forall|i: int, j: int| 0 <= i < j < places.len() ==> places[i] < places[j]
            &&& forall|at: int|
                0 <= at < n && !is_reference(#[trigger] names[at]) ==> places.contains(at as usize)
        }),
    decreases n,
{
    if n > 0 {
        lemma_feature_places(names, n - 1);
        let shorter = feature_columns(names, n - 1);
        let places = feature_columns(names, n);
        assert forall|at: int| 0 <= at < n && !is_reference(
            #[trigger] names[at],
        ) implies places.contains(at as usize) by {
            if at < n - 1 {
                let i = choose|i: int| 0 <= i < shorter.len() && shorter[i] == at as usize;
                assert(places[i] == at as usize);
            } else {
                assert(places[places.len() - 1] == at as usize);
            }
        }
    }
}

/// The features are all columns but `target`, `ground_truth` and those whose name starts with
/// `ground_truth_proba_`, in the order of the file.
pub proof fn features_are_the_other_columns(header: Seq<char>, classes: usize)
    requires
        columns_of(header, classes) is Ok,
        column_names(header).len() <= usize::MAX,
    ensures
        ({
            let columns = columns_of(header, classes)->Ok_0;
            let cells = text::pieces(header, ',', 0);
            &&& columns.names.len() == cells.len()
            &&& forall|at: int|
                0 <= at < cells.len() ==> columns.names[at] == text::trimmed(#[trigger] cells[at])
            &&& forall|i: int, j: int|
                0 <= i < j < columns.features.len() ==> columns.features[i] < columns.features[j]
            &&& forall|at: int|
                0 <= at < columns.names.len() ==> (columns.features.contains(at as usize) <==> {
                    let name = #[trigger] columns.names[at];
                    name != "target"@ && name != "ground_truth"@
                        && !"ground_truth_proba_"@.is_prefix_of(name)
                })
        }),
{
    let columns = columns_of(header, classes)->Ok_0;
    let names = column_names(header);
    lemma_feature_places(names, names.len() as int);
    assert forall|at: int| 0 <= at < names.len() implies (columns.features.contains(at as usize)
        <==> {
        let name = #[trigger] names[at];
        name != "target"@ && name != "ground_truth"@ && !"ground_truth_proba_"@.is_prefix_of(name)
    }) by {
        if columns.features.contains(at as usize) {
            let i = choose|i: int|
                0 <= i < columns.features.len() && columns.features[i] == at as usize;
            assert(!is_reference(names[columns.features[i] as int]));
        }
    }
}

proof fn lemma_column(names: Seq<Seq<char>>, name: Seq<char>, from: int)
    requires
        0 <= from <= names.len() <= usize::MAX,
    ensures
        match column_from(names, name, from) {
            Some(place) => from <= place < names.len() && names[place as int] == name
                && forall|i: int| from <= i < place ==> #[trigger] names[i] != name,
            None => forall|i: int| from <= i < names.len() ==> #[trigger] names[i] != name,
        },
    decreases names.len() - from,
{
    if from < names.len() && names[from] != name {
        lemma_column(names, name, from + 1);
    }
}

proof fn lemma_proba(names: Seq<Seq<char>>, classes: usize, from: int, before: Seq<usize>)
    requires
        0 <= from <= classes,
        names.len() <= usize::MAX,
    ensures
        proba_columns(names, classes, from, before) matches Ok(places) ==> {
            &&& places.len() == before.len() + classes - from
            &&& forall|i: int| 0 <= i < before.len() ==> places[i] == #[trigger] before[i]
            &&& forall|c: int|
                from <= c < classes ==> column_from(names, #[trigger] proba_name(c), 0) == Some(
                    places[before.len() + c - from],
                )
        },
    decreases classes - from,
{
    if from < classes {
        if let Some(place) = column_from(names, proba_name(from), 0) {
            let longer = before.push(place);
            lemma_proba(names, classes, from + 1, longer);
            if let Ok(places) = proba_columns(names, classes, from, before) {
                assert forall|i: int| 0 <= i < before.len() implies places[i]
                    == #[trigger] before[i] by {
                    assert(longer[i] == before[i]);
                }
                assert(places[before.len() as int] == longer[before.len() as int]);
                assert forall|c: int| from <= c < classes implies column_from(
                    names,
                    #[trigger] proba_name(c),
                    0,
                ) == Some(places[before.len() + c - from]) by {
                    if c > from {
                        assert(places[longer.len() + c - (from + 1)] == places[before.len() + c
                            - from]);
                    }
                }
            }
        }
    }
}

/// The reference of a model with one output stands in the first column `ground_truth`, that of
/// class `c` of any other in the first column `ground_truth_proba_` and the number `c`.
pub proof fn references_are_found_by_name(names: Seq<Seq<char>>, classes: usize)
    requires
        reference_columns(names, classes) is Ok,
        names.len() <= usize::MAX,
    ensures
        ({
            let places = reference_columns(names, classes)->Ok_0;
            let outputs: int = if classes >= 2 {
                classes as int
            } else {
                1
            };
            &&& places.len() == outputs
            &&& forall|c: int|
                0 <= c < outputs ==> {
                    let place = #[trigger] places[c];
                    let name = if classes >= 2 {
                        "ground_truth_proba_"@ + text::decimal(c as nat)
                    } else {
                        "ground_truth"@
                    };
                    &&& place < names.len()
                    &&& names[place as int] == name
                    &&& forall|i: int| 0 <= i < place ==> #[trigger] names[i] != name
                }
        }),
{
    let places = reference_columns(names, classes)->Ok_0;
    if classes >= 2 {
        lemma_proba(names, classes, 0, seq![]);
        assert forall|c: int| 0 <= c < classes implies {
            let place = #[trigger] places[c];
            let name = "ground_truth_proba_"@ + text::decimal(c as nat);
            &&& place < names.len()
            &&& names[place as int] == name
            &&& forall|i: int| 0 <= i < place ==> #[trigger] names[i] != name
        } by {
            assert(column_from(names, proba_name(c), 0) == Some(places[0 + c - 0]));
            lemma_column(names, proba_name(c), 0);
        }
    } else {
        lemma_column(names, "ground_truth"@, 0);
    }
}

/// The places of the lines from `from` on in which something stands, behind those found before.
pub open spec fn solid_lines(lines: Seq<Seq<char>>, from: int, n: int) -> Seq<int>
    decreases n - from,
{
    if n <= from {
        seq![]
    } else if text::trimmed(lines[n - 1]).len() == 0 {
        solid_lines(lines, from, n - 1)
    } else {
        solid_lines(lines, from, n - 1).push(n - 1)
    }
}

proof fn lemma_data(
    lines: Seq<Seq<char>>,
    columns: ColumnsView,
    start: int,
    from: int,
    before: DataView,
)
    requires
        0 <= start <= from <= lines.len() < usize::MAX,
        before.rows.len() == solid_lines(lines, start, from).len(),
        before.references.len() == before.rows.len(),
        forall|i: int|
            0 <= i < before.rows.len() ==> line_values(
                lines[#[trigger] solid_lines(lines, start, from)[i]],
                columns,
                (solid_lines(lines, start, from)[i] + 1) as usize,
            ) == Ok::<(Seq<F32>, Seq<F32>), FailureView>((before.rows[i], before.references[i])),
    ensures
        data_from(lines, columns, from, before) matches Ok(data) ==> {
            let all = solid_lines(lines, start, lines.len() as int);
            &&& data.rows.len() == all.len()
            &&& data.references.len() == all.len()
            &&& forall|i: int|
                0 <= i < all.len() ==> line_values(
                    lines[#[trigger] all[i]],
                    columns,
                    (all[i] + 1) as usize,
                ) == Ok::<(Seq<F32>, Seq<F32>), FailureView>((data.rows[i], data.references[i]))
        },
    decreases lines.len() - from,
{
    if from < lines.len() {
        if text::trimmed(lines[from]).len() == 0 {
            assert(solid_lines(lines, start, from + 1) == solid_lines(lines, start, from));
            lemma_data(lines, columns, start, from + 1, before);
        } else if let Ok((features, references)) = line_values(
            lines[from],
            columns,
            (from + 1) as usize,
        ) {
            let earlier = solid_lines(lines, start, from);
            let now = solid_lines(lines, start, from + 1);
            let next = DataView {
                rows: before.rows.push(features),
                references: before.references.push(references),
                n_features: before.n_features,
            };
            assert(now == earlier.push(from));
            assert forall|i: int| 0 <= i < next.rows.len() implies line_values(
                lines[#[trigger] now[i]],
                columns,
                (now[i] + 1) as usize,
            ) == Ok::<(Seq<F32>, Seq<F32>), FailureView>((next.rows[i], next.references[i])) by {
                if i < earlier.len() {
                    assert(now[i] == earlier[i]);
                }
            }
            lemma_data(lines, columns, start, from + 1, next);
        }
    }
}

proof fn lemma_solid_lines(lines: Seq<Seq<char>>, from: int, n: int)
    requires
        0 <= from <= n <= lines.len(),
    ensures
        ({
            let all = solid_lines(lines, from, n);
            &&& forall|i: int|
                0 <= i < all.len() ==> from <= #[trigger] all[i] < n && text::trimmed(
                    lines[all[i]],
                ).len() > 0
            &&& forall|i: int, j: int| 0 <= i < j < all.len() ==> all[i] < all[j]
            &&& forall|at: int|
                from <= at < n && text::trimmed(#[trigger] lines[at]).len() > 0 ==> all.contains(
                    at,
                )
        }),
    decreases n - from,
{
    if from < n {
        lemma_solid_lines(lines, from, n - 1);
        let shorter = solid_lines(lines, from, n - 1);
        let all = solid_lines(lines, from, n);
        assert forall|at: int| from <= at < n && text::trimmed(
            #[trigger] lines[at],
        ).len() > 0 implies all.contains(at) by {
            if at < n - 1 {
                let i = choose|i: int| 0 <= i < shorter.len() && shorter[i] == at;
                assert(all[i] == at);
            } else {
                assert(all[all.len() - 1] == at);
            }
        }
    }
}

/// A data file has a row for every line behind the header in which something stands, in the
/// order of the file: `places` are those lines, and row `i` holds what line `places[i]` writes.
pub proof fn rows_are_the_lines(content: Seq<char>, classes: usize) -> (places: Seq<int>)
    requires
        data_of(content, classes) is Ok,
        text::lines(content, 0).len() < usize::MAX,
    ensures
        ({
            let data = data_of(content, classes)->Ok_0;
            let lines = text::lines(content, 0);
            let columns = columns_of(lines[0], classes)->Ok_0;
            &&& columns_of(lines[0], classes) is Ok
            &&& data.rows.len() == places.len()
            &&& data.references.len() == places.len()
            &&& data.n_features == columns.features.len() as usize
            &&& forall|i: int|
                0 <= i < places.len() ==> 0 < #[trigger] places[i] < lines.len() && line_values(
                    lines[places[i]],
                    columns,
                    (places[i] + 1) as usize,
                ) == Ok::<(Seq<F32>, Seq<F32>), FailureView>((data.rows[i], data.references[i]))
            &&& forall|i: int, j: int| 0 <= i < j < places.len() ==> places[i] < places[j]
            &&& forall|at: int|
                0 < at < lines.len() ==> (places.contains(at) <==> text::trimmed(
                    #[trigger] lines[at],
                ).len() > 0)
        }),
{
    let lines = text::lines(content, 0);
    let columns = columns_of(lines[0], classes)->Ok_0;
    let start = DataView {
        rows: seq![],
        references: seq![],
        n_features: columns.features.len() as usize,
    };
    let places = solid_lines(lines, 1, lines.len() as int);
    assert(solid_lines(lines, 1, 1) =~= seq![]);
    lemma_data(lines, columns, 1, 1, start);
    lemma_solid_lines(lines, 1, lines.len() as int);
    lemma_data_features(lines, columns, 1, start);
    assert forall|at: int| 0 < at < lines.len() && places.contains(at) implies text::trimmed(
        #[trigger] lines[at],
    ).len() > 0 by {
        let i = choose|i: int| 0 <= i < places.len() && places[i] == at;
        assert(text::trimmed(lines[places[i]]).len() > 0);
    }
    places
}

proof fn lemma_data_features(
    lines: Seq<Seq<char>>,
    columns: ColumnsView,
    from: int,
    before: DataView,
)
    ensures
        data_from(lines, columns, from, before) matches Ok(data) ==> data.n_features
            == before.n_features,
    decreases lines.len() - from,
{
    if 0 <= from < lines.len() {
        if text::trimmed(lines[from]).len() == 0 {
            lemma_data_features(lines, columns, from + 1, before);
        } else if let Ok((features, references)) = line_values(
            lines[from],
            columns,
            (from + 1) as usize,
        ) {
            lemma_data_features(
                lines,
                columns,
                from + 1,
                DataView {
                    rows: before.rows.push(features),
                    references: before.references.push(references),
                    n_features: before.n_features,
                },
            );
        }
    }
}

proof fn lemma_predictions(pieces: Seq<Seq<char>>, from: int, before: Seq<F32>)
    requires
        0 <= from <= pieces.len(),
    ensures
        predictions_from(pieces, from, before) matches Ok(values) ==> {
            &&& values.len() == before.len() + pieces.len() - from
            &&& forall|i: int| 0 <= i < before.len() ==> values[i] == #[trigger] before[i]
            &&& forall|i: int|
                from <= i < pieces.len() ==> number::single_of_text(
                    text::trimmed(#[trigger] pieces[i]),
                ) == Ok::<u32, Seq<char>>(values[before.len() + i - from].bits)
        },
    decreases pieces.len() - from,
{
    if from < pieces.len() {
        if let Ok(bits) = number::single_of_text(text::trimmed(pieces[from])) {
            let longer = before.push(F32 { bits });
            lemma_predictions(pieces, from + 1, longer);
            if let Ok(values) = predictions_from(pieces, from, before) {
                assert forall|i: int| 0 <= i < before.len() implies values[i]
                    == #[trigger] before[i] by {
                    assert(longer[i] == before[i]);
                }
                assert(values[before.len() as int] == longer[before.len() as int]);
                assert forall|i: int| from <= i < pieces.len() implies number::single_of_text(
                    text::trimmed(#[trigger] pieces[i]),
                ) == Ok::<u32, Seq<char>>(values[before.len() + i - from].bits) by {
                    if i > from {
                        assert(values[longer.len() + i - (from + 1)] == values[before.len() + i
                            - from]);
                    }
                }
            }
        }
    }
}

/// A line of predictions has one number per class, in the order of the classes.
pub proof fn predictions_are_read_by_class(line: Seq<char>, classes: usize)
    requires
        prediction_line(line, classes) is Ok,
    ensures
        ({
            let values = prediction_line(line, classes)->Ok_0;
            let pieces = text::pieces(line, ',', 0);
            &&& values.len() == classes
            &&& pieces.len() == classes
            &&& forall|c: int|
                0 <= c < classes ==> number::single_of_text(text::trimmed(#[trigger] pieces[c]))
                    == Ok::<u32, Seq<char>>(values[c].bits)
        }),
{
    let pieces = text::pieces(line, ',', 0);
    let values = prediction_line(line, classes)->Ok_0;
    lemma_predictions(pieces, 0, seq![]);
    assert forall|c: int| 0 <= c < classes implies number::single_of_text(
        text::trimmed(#[trigger] pieces[c]),
    ) == Ok::<u32, Seq<char>>(values[c].bits) by {
        assert(values[0 + c - 0] == values[c]);
    }
}

proof fn lemma_prediction_lines(
    lines: Seq<Seq<char>>,
    classes: usize,
    from: int,
    before: Seq<Seq<F32>>,
)
    requires
        0 <= from <= lines.len(),
        before.len() == solid_lines(lines, 0, from).len(),
        forall|i: int|
            0 <= i < before.len() ==> prediction_line(
                lines[#[trigger] solid_lines(lines, 0, from)[i]],
                classes,
            ) == Ok::<Seq<F32>, FailureView>(before[i]),
    ensures
        prediction_lines(lines, classes, from, before) matches Ok(rows) ==> {
            let all = solid_lines(lines, 0, lines.len() as int);
            &&& rows.len() == all.len()
            &&& forall|i: int|
                0 <= i < all.len() ==> prediction_line(lines[#[trigger] all[i]], classes) == Ok::<
                    Seq<F32>,
                    FailureView,
                >(rows[i])
        },
    decreases lines.len() - from,
{
    if from < lines.len() {
        if text::trimmed(lines[from]).len() == 0 {
            assert(solid_lines(lines, 0, from + 1) == solid_lines(lines, 0, from));
            lemma_prediction_lines(lines, classes, from + 1, before);
        } else if let Ok(values) = prediction_line(lines[from], classes) {
            let earlier = solid_lines(lines, 0, from);
            let now = solid_lines(lines, 0, from + 1);
            let next = before.push(values);
            assert(now == earlier.push(from));
            assert forall|i: int| 0 <= i < next.len() implies prediction_line(
                lines[#[trigger] now[i]],
                classes,
            ) == Ok::<Seq<F32>, FailureView>(next[i]) by {
                if i < earlier.len() {
                    assert(now[i] == earlier[i]);
                }
            }
            lemma_prediction_lines(lines, classes, from + 1, next);
        }
    }
}

/// The output of a harness has a prediction for every row: `places` are the lines in which
/// something stands, in order, and prediction `i` is what line `places[i]` writes.
pub proof fn predictions_are_the_lines(stdout: Seq<char>, classes: usize, rows: usize) -> (places:
    Seq<int>)
    requires
        usable_predictions(stdout, classes, rows) is Ok,
    ensures
        ({
            let predictions = usable_predictions(stdout, classes, rows)->Ok_0;
            let lines = text::lines(stdout, 0);
            &&& predictions.len() == rows
            &&& places.len() == rows
            &&& forall|i: int|
                0 <= i < rows ==> 0 <= #[trigger] places[i] < lines.len() && prediction_line(
                    lines[places[i]],
                    classes,
                ) == Ok::<Seq<F32>, FailureView>(predictions[i])
            &&& forall|i: int, j: int| 0 <= i < j < places.len() ==> places[i] < places[j]
            &&& forall|at: int|
                0 <= at < lines.len() && text::trimmed(#[trigger] lines[at]).len() > 0
                    ==> places.contains(at)
        }),
{
    let lines = text::lines(stdout, 0);
    let places = solid_lines(lines, 0, lines.len() as int);
    assert(solid_lines(lines, 0, 0) =~= seq![]);
    lemma_prediction_lines(lines, classes, 0, seq![]);
    lemma_solid_lines(lines, 0, lines.len() as int);
    places
}

/// The values of a row as the harness reads them.
pub open spec fn displays(row: Seq<F32>) -> Seq<Seq<char>> {
    row.map_values(|x: F32| single_display(x.bits))
}

proof fn lemma_together(parts: Seq<Seq<char>>, last: Seq<char>, sep: char)
    requires
        parts.len() > 0,
    ensures
        text::together(parts.push(last), sep) == text::together(parts, sep) + seq![sep] + last,
    decreases parts.len(),
{
    let all = parts.push(last);
    if parts.len() == 1 {
        assert(all.skip(1) =~= seq![last]);
        assert(text::together(seq![last], sep) == last);
    } else {
        assert(all.skip(1) =~= parts.skip(1).push(last));
        lemma_together(parts.skip(1), last, sep);
        assert(text::together(all, sep) =~= text::together(parts, sep) + seq![sep] + last);
    }
}

proof fn lemma_cells(out: Seq<char>, row: Seq<F32>, n: int)
    requires
        0 <= n <= row.len(),
    ensures
        with_cells(out, row, n) == out + text::together(displays(row.take(n)), ','),
    decreases n,
{
    if n == 0 {
        assert(displays(row.take(0)) =~= seq![]);
        assert(out + Seq::<char>::empty() =~= out);
    } else {
        lemma_cells(out, row, n - 1);
        let before = displays(row.take(n - 1));
        let last = single_display(row[n - 1].bits);
        assert(displays(row.take(n)) =~= before.push(last));
        if n == 1 {
            assert(before =~= seq![]);
            assert(text::together(seq![last], ',') == last);
            assert(before.push(last) =~= seq![last]);
            assert(out + Seq::<char>::empty() =~= out);
        } else {
            lemma_together(before, last, ',');
            assert(with_cells(out, row, n) =~= out + text::together(displays(row.take(n)), ','));
        }
    }
}

/// The harness is given a line for every row, in their order, with the values of the row in
/// theirs and commas between them.
pub proof fn rows_are_given_line_by_line(rows: Seq<Seq<F32>>, n: int)
    requires
        0 <= n < rows.len(),
    ensures
        input_lines(rows, n + 1) == input_lines(rows, n) + text::together(displays(rows[n]), ',')
            + seq!['\n'],
        input_lines(rows, 0) == Seq::<char>::empty(),
{
    let row = rows[n];
    lemma_cells(input_lines(rows, n), row, row.len() as int);
    assert(row.take(row.len() as int) =~= row);
    assert(input_lines(rows, n + 1) =~= input_lines(rows, n) + text::together(displays(row), ',')
        + seq!['\n']);
}

/// A comparison succeeds exactly if it found no mismatch.
pub proof fn verdicts_are_by_mismatches(
    mismatches: usize,
    comparisons: usize,
    tolerance: F32,
    max_abs_error: F32,
)
    ensures
        verdict_text(mismatches, comparisons, tolerance, max_abs_error) is Ok <==> mismatches == 0,
{
}

proof fn lemma_mismatches_add(before: ComparisonView, row: Seq<F32>, tolerance: F32, at: usize, n: int)
    requires
        0 <= n <= row.len(),
    ensures
        before.with_row(row, tolerance, at, n).mismatches == before.mismatches + row.take(
            n,
        ).filter(|e: F32| !e.at_most(tolerance)).len(),
    decreases n,
{
    reveal(Seq::filter);
    let beyond = |e: F32| !e.at_most(tolerance);
    if n > 0 {
        lemma_mismatches_add(before, row, tolerance, at, n - 1);
        assert(row.take(n).drop_last() =~= row.take(n - 1));
        assert(row.take(n).last() == row[n - 1]);
    }
}

/// One more row adds as many mismatches as it has errors beyond the tolerance.
pub proof fn mismatches_are_counted(errors: Seq<Seq<F32>>, tolerance: F32, n: int)
    requires
        0 <= n < errors.len(),
    ensures
        compared(errors, tolerance, n + 1).mismatches == compared(errors, tolerance, n).mismatches
            + errors[n].filter(|e: F32| !e.at_most(tolerance)).len(),
        compared(errors, tolerance, 0).mismatches == 0,
{
    let row = errors[n];
    lemma_mismatches_add(
        compared(errors, tolerance, n),
        row,
        tolerance,
        n as usize,
        row.len() as int,
    );
    assert(row.take(row.len() as int) =~= row);
}

proof fn lemma_proba_read(names: Seq<Seq<char>>, classes: usize, from: int, before: Seq<usize>)
    requires
        0 <= from <= classes,
    ensures
        proba_columns(names, classes, from, before) is Ok <==> forall|c: int|
            from <= c < classes ==> names.contains(#[trigger] proba_name(c)),
    decreases classes - from,
{
    if from < classes {
        lemma_named(names, proba_name(from), 0);
        if let Some(place) = column_from(names, proba_name(from), 0) {
            lemma_proba_read(names, classes, from + 1, before.push(place));
        } else {
            assert(!names.contains(proba_name(from)));
        }
    }
}

proof fn lemma_named(names: Seq<Seq<char>>, name: Seq<char>, from: int)
    requires
        0 <= from <= names.len(),
    ensures
        column_from(names, name, from) is Some <==> names.skip(from).contains(name),
        names.skip(0) == names,
    decreases names.len() - from,
{
    assert(names.skip(0) =~= names);
    if from < names.len() {
        lemma_named(names, name, from + 1);
        assert(names.skip(from)[0] == names[from]);
        assert(names.skip(from).skip(1) =~= names.skip(from + 1));
        if names.skip(from + 1).contains(name) {
            let rest = names.skip(from + 1);
            let k = choose|k: int| 0 <= k < rest.len() && #[trigger] rest[k] == name;
            assert(names.skip(from)[k + 1] == name);
        }
        if names.skip(from).contains(name) && names[from] != name {
            let rest = names.skip(from);
            let k = choose|k: int| 0 <= k < rest.len() && #[trigger] rest[k] == name;
            assert(names.skip(from + 1)[k - 1] == name);
        }
    }
}

proof fn lemma_feature_there(names: Seq<Seq<char>>, n: int)
    requires
        0 <= n <= names.len(),
    ensures
        feature_columns(names, n).len() > 0 <==> exists|i: int|
            0 <= i < n && !is_reference(#[trigger] names[i]),
    decreases n,
{
    if n > 0 {
        lemma_feature_there(names, n - 1);
        if !is_reference(names[n - 1]) {
            assert(!is_reference(names[n - 1]));
        }
    }
}

/// Which header lines are read: those with a column that is a feature and with the columns of
/// the references, one for every class or a single one.
pub proof fn complete_headers_are_read(header: Seq<char>, classes: usize)
    ensures
        ({
            let names = column_names(header);
            columns_of(header, classes) is Ok <==> {
                &&& exists|i: int|
                    0 <= i < names.len() && (#[trigger] names[i]) != "target"@ && names[i]
                        != "ground_truth"@ && !"ground_truth_proba_"@.is_prefix_of(names[i])
                &&& classes <= 1 ==> names.contains("ground_truth"@)
                &&& classes > 1 ==> forall|c: nat|
                    c < classes ==> names.contains(
                        "ground_truth_proba_"@ + #[trigger] text::decimal(c),
                    )
            }
        }),
{
    let names = column_names(header);
    lemma_feature_there(names, names.len() as int);
    lemma_named(names, "ground_truth"@, 0);
    lemma_proba_read(names, classes, 0, seq![]);
    if forall|c: int| 0 <= c < classes ==> names.contains(#[trigger] proba_name(c)) {
        assert forall|c: nat| c < classes implies names.contains(
            "ground_truth_proba_"@ + #[trigger] text::decimal(c),
        ) by {
            assert(names.contains(proba_name(c as int)));
        }
    }
    if forall|c: nat|
        c < classes ==> names.contains("ground_truth_proba_"@ + #[trigger] text::decimal(c)) {
        assert forall|c: int| 0 <= c < classes implies names.contains(#[trigger] proba_name(c)) by {
            assert(names.contains("ground_truth_proba_"@ + text::decimal(c as nat)));
        }
    }
}

proof fn lemma_features_read(
    cells: Seq<Seq<char>>,
    names: Seq<Seq<char>>,
    columns: Seq<usize>,
    row: usize,
    from: int,
    before: Seq<F32>,
)
    requires
        0 <= from <= columns.len(),
    ensures
        features_from(cells, names, columns, row, from, before) is Ok <==> forall|i: int|
            from <= i < columns.len() ==> feature_value(
                cells[#[trigger] columns[i] as int],
                names[columns[i] as int],
                row,
            ) is Ok,
    decreases columns.len() - from,
{
    if from < columns.len() {
        let at = columns[from] as int;
        if let Ok(value) = feature_value(cells[at], names[at], row) {
            lemma_features_read(cells, names, columns, row, from + 1, before.push(value));
        }
    }
}

proof fn lemma_references_read(
    cells: Seq<Seq<char>>,
    columns: Seq<usize>,
    row: usize,
    from: int,
    before: Seq<F32>,
)
    requires
        0 <= from <= columns.len(),
    ensures
        references_from(cells, columns, row, from, before) is Ok <==> forall|i: int|
            from <= i < columns.len() ==> number::single_of_text(
                text::trimmed(cells[#[trigger] columns[i] as int]),
            ) is Ok,
    decreases columns.len() - from,
{
    if from < columns.len() {
        let at = columns[from] as int;
        if let Ok(bits) = number::single_of_text(text::trimmed(cells[at])) {
            lemma_references_read(cells, columns, row, from + 1, before.push(F32 { bits }));
        }
    }
}

/// Which lines are read: those with a cell for every column, whose features are missing or
/// numbers and whose references are numbers.
pub proof fn complete_lines_are_read(line: Seq<char>, columns: ColumnsView, row: usize)
    ensures
        ({
            let cells = text::pieces(line, ',', 0);
            line_values(line, columns, row) is Ok <==> {
                &&& cells.len() == columns.names.len()
                &&& forall|i: int|
                    0 <= i < columns.features.len() ==> feature_value(
                        cells[#[trigger] columns.features[i] as int],
                        columns.names[columns.features[i] as int],
                        row,
                    ) is Ok
                &&& forall|i: int|
                    0 <= i < columns.references.len() ==> number::single_of_text(
                        text::trimmed(cells[#[trigger] columns.references[i] as int]),
                    ) is Ok
            }
        }),
{
    let cells = text::pieces(line, ',', 0);
    lemma_features_read(cells, columns.names, columns.features, row, 0, seq![]);
    lemma_references_read(cells, columns.references, row, 0, seq![]);
}

proof fn lemma_data_read(
    lines: Seq<Seq<char>>,
    columns: ColumnsView,
    from: int,
    before: DataView,
)
    requires
        0 <= from <= lines.len(),
    ensures
        data_from(lines, columns, from, before) is Ok <==> forall|i: int|
            from <= i < lines.len() ==> text::trimmed(#[trigger] lines[i]).len() == 0
                || line_values(lines[i], columns, (i + 1) as usize) is Ok,
    decreases lines.len() - from,
{
    if from < lines.len() {
        if text::trimmed(lines[from]).len() == 0 {
            lemma_data_read(lines, columns, from + 1, before);
        } else if let Ok((features, references)) = line_values(
            lines[from],
            columns,
            (from + 1) as usize,
        ) {
            lemma_data_read(
                lines,
                columns,
                from + 1,
                DataView {
                    rows: before.rows.push(features),
                    references: before.references.push(references),
                    n_features: before.n_features,
                },
            );
        }
    }
}

/// Which data is read: a header line that is read, and behind it lines that are blank or are
/// read.
pub proof fn complete_data_is_read(content: Seq<char>, classes: usize)
    ensures
        ({
            let lines = text::lines(content, 0);
            data_of(content, classes) is Ok <==> lines.len() > 0 && (columns_of(
                lines[0],
                classes,
            ) matches Ok(columns) && forall|i: int|
                0 < i < lines.len() ==> text::trimmed(#[trigger] lines[i]).len() == 0
                    || line_values(lines[i], columns, (i + 1) as usize) is Ok)
        }),
{
    let lines = text::lines(content, 0);
    if lines.len() > 0 {
        if let Ok(columns) = columns_of(lines[0], classes) {
            lemma_data_read(
                lines,
                columns,
                1,
                DataView {
                    rows: seq![],
                    references: seq![],
                    n_features: columns.features.len() as usize,
                },
            );
        }
    }
}

proof fn lemma_predictions_read(pieces: Seq<Seq<char>>, from: int, before: Seq<F32>)
    requires
        0 <= from <= pieces.len(),
    ensures
        predictions_from(pieces, from, before) is Ok <==> forall|i: int|
            from <= i < pieces.len() ==> number::single_of_text(
                text::trimmed(#[trigger] pieces[i]),
            ) is Ok,
        predictions_from(pieces, from, before) matches Ok(values) ==> values.len() == before.len()
            + pieces.len() - from,
    decreases pieces.len() - from,
{
    if from < pieces.len() {
        if let Ok(bits) = number::single_of_text(text::trimmed(pieces[from])) {
            lemma_predictions_read(pieces, from + 1, before.push(F32 { bits }));
        }
    }
}

/// Which prediction lines are read: those with one number for every class.
pub proof fn complete_predictions_are_read(line: Seq<char>, classes: usize)
    ensures
        ({
            let pieces = text::pieces(line, ',', 0);
            prediction_line(line, classes) is Ok <==> pieces.len() == classes && forall|i: int|
                0 <= i < pieces.len() ==> number::single_of_text(
                    text::trimmed(#[trigger] pieces[i]),
                ) is Ok
        }),
{
    lemma_predictions_read(text::pieces(line, ',', 0), 0, seq![]);
}

/// Data is held against a model exactly if the data is read and has a row, and the model has no
/// counters.
pub proof fn data_with_rows_is_usable(forest: ForestView, content: Seq<char>, place: Seq<char>)
    ensures
        usable_data(forest, content, place) is Ok <==> forest.catboost_metadata is None && (data_of(
            content,
            forest.classes() as usize,
        ) matches Ok(data) && data.rows.len() > 0),
        usable_data(forest, content, place) is Ok ==> usable_data(forest, content, place)
            == data_of(content, forest.classes() as usize),
{
}

} // verus!
