//! From the content of a model file to its forest, and from a forest to source that says where
//! it came from.
use crate::backends::rust::{generate_with_options, resolve_layout, CodegenOptions, Layout};
#[allow(unused_imports)]
use crate::backends::rust;
use crate::error::{Complaint, Failure};
#[allow(unused_imports)]
use crate::error::FailureView;
use crate::frontends::{catboost, lightgbm, xgboost, Finish, ParsedModel};
#[allow(unused_imports)]
use crate::frontends::ParsedView;
use crate::ir::Forest;
#[allow(unused_imports)]
use crate::ir::ForestView;
#[allow(unused_imports)]
use crate::json;
use crate::json::Json;
#[allow(unused_imports)]
use crate::json::JsonView;
use crate::text;
use vstd::prelude::*;

verus! {

/// The version that generated sources name.
pub const VERSION: &'static str = "0.1.0";

/// The start value of the content hash.
pub const FNV_OFFSET: u64 = 0xcbf2_9ce4_8422_2325;

/// The factor of the content hash.
pub const FNV_PRIME: u64 = 0x0000_0100_0000_01b3;

/// How a model file has to be read.
#[derive(Debug, Clone, Copy, PartialEq, Eq, Structural)]
pub enum Format {
    /// A MOJO archive of H2O-3.
    Mojo,
    /// An ONNX graph.
    Onnx,
    /// A JSON document of one of several frameworks.
    Json,
}

/// The framework that a JSON document comes from.
#[derive(Debug, Clone, Copy, PartialEq, Eq, Structural)]
pub enum Framework {
    Xgboost,
    Lightgbm,
    Catboost,
}

/// How a file with the extension has to be read.
pub open spec fn extension_format(extension: Seq<char>) -> Option<Format> {
    if extension == "zip"@ {
        Some(Format::Mojo)
    } else if extension == "onnx"@ || extension == "pb"@ {
        Some(Format::Onnx)
    } else if extension == "json"@ {
        Some(Format::Json)
    } else {
        None
    }
}

/// How a file with the extension has to be read.
pub fn format_of(extension: &str) -> (r: Result<Format, Failure>)
    ensures
        match r {
            Ok(format) => extension_format(extension@) == Some(format),
            Err(e) => extension_format(extension@) is None && e@ == (FailureView::About {
                complaint: Complaint::Extension,
                text: extension@,
            }),
        },
{
    if text::same(extension, "zip") {
        Ok(Format::Mojo)
    } else if text::same(extension, "onnx") || text::same(extension, "pb") {
        Ok(Format::Onnx)
    } else if text::same(extension, "json") {
        Ok(Format::Json)
    } else {
        Err(Failure::About { complaint: Complaint::Extension, text: extension.to_owned() })
    }
}

/// The framework that a document comes from: its topmost keys tell.
pub open spec fn framework_of(root: JsonView) -> Option<Framework> {
    if root.get("learner"@) is Some {
        Some(Framework::Xgboost)
    } else if root.get("tree_info"@) is Some {
        Some(Framework::Lightgbm)
    } else if root.get("oblivious_trees"@) is Some {
        Some(Framework::Catboost)
    } else {
        None
    }
}

/// What is said of a document in some place that no framework writes.
pub open spec fn unrecognized(place: Seq<char>) -> FailureView {
    FailureView::About { complaint: Complaint::UnrecognizedJson, text: place }
}

/// The framework that a document in some place comes from: its topmost keys tell.
pub fn detect(root: &Json, place: &str) -> (r: Result<Framework, Failure>)
    ensures
        match r {
            Ok(framework) => framework_of(json::document(*root)) == Some(framework),
            Err(e) => framework_of(json::document(*root)) is None && e@ == unrecognized(place@),
        },
{
    if json::get(root, "learner").is_some() {
        Ok(Framework::Xgboost)
    } else if json::get(root, "tree_info").is_some() {
        Ok(Framework::Lightgbm)
    } else if json::get(root, "oblivious_trees").is_some() {
        Ok(Framework::Catboost)
    } else {
        Err(Failure::About { complaint: Complaint::UnrecognizedJson, text: place.to_owned() })
    }
}

/// The model that a document in some place holds.
pub open spec fn document_model(root: JsonView, place: Seq<char>) -> Result<
    ParsedView,
    FailureView,
> {
    match framework_of(root) {
        None => Err(unrecognized(place)),
        Some(Framework::Xgboost) => xgboost::model_of(root),
        Some(Framework::Lightgbm) => match lightgbm::forest_of(root) {
            Ok(forest) => Ok(ParsedView { forest, finish: Finish::Ready }),
            Err(e) => Err(e),
        },
        Some(Framework::Catboost) => catboost::model_of(root),
    }
}

/// The model that a document in some place holds.
pub fn parse_document(root: &Json, place: &str) -> (r: Result<ParsedModel, Failure>)
    ensures
        match r {
            Ok(model) => document_model(json::document(*root), place@) == Ok::<
                ParsedView,
                FailureView,
            >(model@),
            Err(e) => document_model(json::document(*root), place@) == Err::<
                ParsedView,
                FailureView,
            >(e@),
        },
{
    match detect(root, place) {
        Err(e) => Err(e),
        Ok(Framework::Xgboost) => xgboost::parse_json(root),
        Ok(Framework::Lightgbm) => match lightgbm::parse_json(root) {
            Ok(forest) => Ok(ParsedModel { forest, finish: Finish::Ready }),
            Err(e) => Err(e),
        },
        Ok(Framework::Catboost) => catboost::parse_json(root),
    }
}

/// A forest read from a document has the bits of all its sets, so the interpreter can take it.
pub proof fn document_forests_are_sound(root: JsonView, place: Seq<char>)
    ensures
        document_model(root, place) matches Ok(model) ==> model.forest.sound(),
{
    xgboost::parsed_forests_are_numeric(root);
    lightgbm::parsed_forests_are_sound(root);
    catboost::parsed_forests_are_even(root);
}

/// Reads a JSON text from a file in some place, detects the framework from its topmost keys,
/// and parses it.
pub fn detect_and_parse_json(content: &str, place: &str) -> (r: Result<ParsedModel, Failure>)
    ensures
        match json::document_of_text(content@) {
            Ok(root) => match r {
                Ok(model) => document_model(root, place@) == Ok::<ParsedView, FailureView>(model@),
                Err(e) => document_model(root, place@) == Err::<ParsedView, FailureView>(e@),
            },
            Err(fault) => r matches Err(e) && e@ == (FailureView::About {
                complaint: Complaint::InvalidJson,
                text: fault,
            }),
        },
{
    match json::parse(content) {
        Ok(root) => parse_document(&root, place),
        Err(e) => Err(e),
    }
}

/// The content hash of the first `n` bytes.
pub open spec fn fnv(data: Seq<u8>, n: int) -> u64
    decreases n,
{
    if n <= 0 {
        FNV_OFFSET
    } else {
        (((fnv(data, n - 1) ^ (data[n - 1] as u64)) * FNV_PRIME) % 0x1_0000_0000_0000_0000) as u64
    }
}

/// The content hash: for telling files apart, not for security.
pub fn fnv1a64(data: &[u8]) -> (r: u64)
    ensures
        r == fnv(data@, data.len() as int),
{
    let mut hash: u64 = FNV_OFFSET;
    let mut i: usize = 0;
    while i < data.len()
        invariant
            i <= data.len(),
            hash == fnv(data@, i as int),
        decreases data.len() - i,
    {
        hash = (hash ^ (data[i] as u64)).wrapping_mul(FNV_PRIME);
        i = i + 1;
    }
    hash
}

/// The name of a layout.
pub open spec fn layout_name(layout: Layout) -> Seq<char> {
    match layout {
        Layout::Auto => "Auto"@,
        Layout::IfElse => "IfElse"@,
        Layout::Array => "Array"@,
    }
}

/// The comment at the top of a generated source.
pub open spec fn header(name: Seq<char>, content: Seq<u8>, layout: Layout, no_std: bool) -> Seq<
    char,
> {
    let source = "// Generated by bonsai v"@ + VERSION@ + "\n// Source: "@ + name + " (fnv1a64:"@
        + text::hex(fnv(content, content.len() as int) as nat, 16) + ")\n// Layout: "@
        + layout_name(layout);
    (if no_std {
        source + ", no_std"@
    } else {
        source
    }) + "\n\n"@
}

/// The comment at the top of a generated source: the version, the model file with its content
/// hash, and the settings. There is no time in it, so an unchanged model gives an unchanged
/// source.
pub fn provenance_header(name: &str, content: &[u8], layout: Layout, no_std: bool) -> (r: String)
    ensures
        r@ == header(name@, content@, layout, no_std),
{
    let mut out = "// Generated by bonsai v".to_owned();
    out.append(VERSION);
    out.append("\n// Source: ");
    out.append(name);
    out.append(" (fnv1a64:");
    text::push_hex(&mut out, fnv1a64(content));
    out.append(")\n// Layout: ");
    match layout {
        Layout::Auto => out.append("Auto"),
        Layout::IfElse => out.append("IfElse"),
        Layout::Array => out.append("Array"),
    }
    if no_std {
        out.append(", no_std");
    }
    out.append("\n\n");
    out
}

/// A source with its provenance, and the layout that was picked for it.
#[derive(Debug)]
pub struct Transpiled {
    pub layout: Layout,
    pub code: String,
}

pub ghost struct TranspiledView {
    pub layout: Layout,
    pub code: Seq<char>,
}

impl View for Transpiled {
    type V = TranspiledView;

    open spec fn view(&self) -> TranspiledView {
        TranspiledView { layout: self.layout, code: self.code@ }
    }
}

/// What a forest is transpiled to.
pub open spec fn transpiled(
    forest: ForestView,
    options: CodegenOptions,
    name: Seq<char>,
    content: Seq<u8>,
) -> Result<TranspiledView, FailureView> {
    match rust::resolved(forest, options.layout) {
        Err(e) => Err(e),
        Ok(layout) => {
            let settled = CodegenOptions { layout, no_std: options.no_std };
            match rust::failure(forest, settled) {
                Some(e) => Err(e),
                None => Ok(
                    TranspiledView {
                        layout,
                        code: header(name, content, layout, options.no_std) + rust::source(
                            forest,
                            settled,
                        ),
                    },
                ),
            }
        },
    }
}

/// The source of a forest under a header that names the model file and its content.
pub fn transpile(forest: &Forest, options: CodegenOptions, name: &str, content: &[u8]) -> (r: Result<
    Transpiled,
    Failure,
>)
    requires
        transpiled(forest@, options, name@, content@) is Ok ==> forest@.literal(),
    ensures
        match r {
            Ok(out) => transpiled(forest@, options, name@, content@) == Ok::<
                TranspiledView,
                FailureView,
            >(out@),
            Err(e) => transpiled(forest@, options, name@, content@) == Err::<
                TranspiledView,
                FailureView,
            >(e@),
        },
{
    match resolve_layout(forest, options.layout) {
        Err(e) => Err(e),
        Ok(layout) => {
            match generate_with_options(
                forest,
                CodegenOptions { layout, no_std: options.no_std },
            ) {
                Err(e) => Err(e),
                Ok(source) => {
                    let mut code = provenance_header(name, content, layout, options.no_std);
                    code.append(source.as_str());
                    Ok(Transpiled { layout, code })
                },
            }
        },
    }
}

/// Picking the layout first and generating with it gives the source that generating with the
/// requested layout gives.
pub proof fn settled_layout_gives_the_same_source(
    forest: ForestView,
    options: CodegenOptions,
    name: Seq<char>,
    content: Seq<u8>,
)
    ensures
        forest.trees.len() > 0 ==> match transpiled(forest, options, name, content) {
            Ok(out) => rust::failure(forest, options) is None && out.code == header(
                name,
                content,
                out.layout,
                options.no_std,
            ) + rust::source(forest, options),
            Err(e) => rust::failure(forest, options) == Some(e),
        },
{
}

/// Which extensions have which format: archives, graphs and documents, and no other file is read.
pub proof fn extensions_have_their_format(extension: Seq<char>)
    ensures
        extension_format(extension) == Some(Format::Mojo) <==> extension == "zip"@,
        extension_format(extension) == Some(Format::Onnx) <==> extension == "onnx"@ || extension
            == "pb"@,
        extension_format(extension) == Some(Format::Json) <==> extension == "json"@,
{
    reveal_strlit("zip");
    reveal_strlit("onnx");
    reveal_strlit("pb");
    reveal_strlit("json");
    assert("zip"@.len() == 3 && "onnx"@.len() == 4 && "pb"@.len() == 2 && "json"@.len() == 4);
    assert("onnx"@[0] == 'o' && "json"@[0] == 'j');
}

/// A document with a `learner` is read as XGBoost writes it, one without but with a `tree_info`
/// as LightGBM does, and one with neither but with `oblivious_trees` as CatBoost does.
pub proof fn documents_are_read_by_their_keys(root: JsonView, place: Seq<char>)
    ensures
        root.get("learner"@) is Some ==> document_model(root, place) == xgboost::model_of(root),
        root.get("learner"@) is None && root.get("tree_info"@) is Some ==> match lightgbm::forest_of(
            root,
        ) {
            Ok(forest) => document_model(root, place) == Ok::<ParsedView, FailureView>(
                ParsedView { forest, finish: Finish::Ready },
            ),
            Err(e) => document_model(root, place) == Err::<ParsedView, FailureView>(e),
        },
        root.get("learner"@) is None && root.get("tree_info"@) is None && root.get(
            "oblivious_trees"@,
        ) is Some ==> document_model(root, place) == catboost::model_of(root),
        root.get("learner"@) is None && root.get("tree_info"@) is None && root.get(
            "oblivious_trees"@,
        ) is None ==> document_model(root, place) == Err::<ParsedView, FailureView>(
            FailureView::About { complaint: Complaint::UnrecognizedJson, text: place },
        ),
{
}

/// The content hash is the 64-bit FNV-1a hash: it starts at the offset basis, and every byte is
/// set in by exclusive or before the product with the prime.
pub proof fn hashes_take_every_byte_in_turn(data: Seq<u8>, n: int)
    requires
        0 <= n < data.len(),
    ensures
        fnv(data, 0) == 14695981039346656037,
        fnv(data, n + 1) == ((fnv(data, n) ^ (data[n] as u64)) * 1099511628211)
            % 0x1_0000_0000_0000_0000,
{
}

/// The header of a source names the version, the model file, its content hash, the layout and
/// whether the standard library is left out.
pub proof fn headers_say_where_a_source_came_from(
    name: Seq<char>,
    content: Seq<u8>,
    layout: Layout,
    no_std: bool,
)
    ensures
        ({
            let head = "// Generated by bonsai v"@ + "0.1.0"@ + "\n// Source: "@ + name
                + " (fnv1a64:"@ + text::hex(fnv(content, content.len() as int) as nat, 16)
                + ")\n// Layout: "@ + (match layout {
                Layout::Auto => "Auto"@,
                Layout::IfElse => "IfElse"@,
                Layout::Array => "Array"@,
            });
            &&& no_std ==> header(name, content, layout, no_std) == head + ", no_std"@ + "\n\n"@
            &&& !no_std ==> header(name, content, layout, no_std) == head + "\n\n"@
        }),
{
}

} // verus!
