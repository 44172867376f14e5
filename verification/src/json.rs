//! JSON documents.
//!
//! Texts are read by `serde_json`, and the documents are its values. What a value holds is
//! described by the library's own view, which the frontends' contracts speak of.
use crate::error::{Complaint, Failure};
#[allow(unused_imports)]
use crate::error::FailureView;
use crate::number::F64;
use vstd::prelude::*;

verus! {

/// A document.
pub type Json = serde_json::Value;

/// A number of a document, in every form that it can be read in.
#[derive(Debug, Clone, Copy, PartialEq, Eq, Structural)]
pub struct Number {
    /// The number, if it is an unsigned integer.
    pub unsigned: Option<u64>,
    /// The number, if it is a signed integer.
    pub signed: Option<i64>,
    /// The number as a double.
    pub double: Option<F64>,
}

pub ghost enum JsonView {
    Null,
    Bool(bool),
    Number(Number),
    Text(Seq<char>),
    Array(Seq<JsonView>),
    Object(Seq<(Seq<char>, JsonView)>),
}

/// The value type of `serde_json`.
#[verifier::external_type_specification]
#[verifier::external_body]
pub struct ExValue(serde_json::Value);

/// The document that a value of `serde_json` holds: its variant, the numbers that
/// `as_u64`, `as_i64` and `as_f64` give, and the items and members in the order in which it
/// hands them out.
pub uninterp spec fn document(value: serde_json::Value) -> JsonView;

/// The document that `serde_json::from_str` reads in a text, or its words on why it rejects
/// the text.
pub uninterp spec fn document_of_text(text: Seq<char>) -> Result<JsonView, Seq<char>>;

/// The debug format of a value of `serde_json` that holds a document.
pub uninterp spec fn value_debug(value: JsonView) -> Seq<char>;

/// The display format of a value of `serde_json` that holds a document.
pub uninterp spec fn value_display(value: JsonView) -> Seq<char>;

/// The debug format of a text.
pub uninterp spec fn text_debug(text: Seq<char>) -> Seq<char>;

/// One layer of a value.
pub(crate) enum Layer<'a> {
    Null,
    Bool(bool),
    Number(Number),
    Text(&'a String),
    Array(&'a Vec<Json>),
    Object(Vec<(&'a String, &'a Json)>),
}

/// The views of the documents in a list.
pub open spec fn json_views(items: Seq<Json>) -> Seq<JsonView> {
    items.map_values(|j: Json| document(j))
}

/// The views of the members in a list.
pub open spec fn member_views(members: Seq<(&String, &Json)>) -> Seq<(Seq<char>, JsonView)> {
    members.map_values(|m: (&String, &Json)| (m.0@, document(*m.1)))
}

impl<'a> Layer<'a> {
    pub(crate) open spec fn model(self) -> JsonView {
        match self {
            Layer::Null => JsonView::Null,
            Layer::Bool(b) => JsonView::Bool(b),
            Layer::Number(n) => JsonView::Number(n),
            Layer::Text(s) => JsonView::Text(s@),
            Layer::Array(items) => JsonView::Array(json_views(items@)),
            Layer::Object(members) => JsonView::Object(member_views(members@)),
        }
    }
}

/// `serde_json::from_str` reads a text or rejects it; what it reads, and what it says of a text
/// that it rejects, is a function of the text. Which texts it reads, and as what, is left to
/// that crate.
#[verifier::external_body]
fn read_value(text: &str) -> (r: Result<Json, String>)
    ensures
        document_of_text(text@) == (match r {
            Ok(value) => Ok::<JsonView, Seq<char>>(document(value)),
            Err(fault) => Err(fault@),
        }),
{
    match serde_json::from_str(text) {
        Ok(value) => Ok(value),
        Err(fault) => Err(fault.to_string()),
    }
}

/// The outermost layer of a `serde_json::Value`: its variant, and what that holds. Of a number
/// it is what `as_u64`, `as_i64` and `as_f64` give.
#[verifier::external_body]
pub(crate) fn peel<'a>(value: &'a Json) -> (r: Layer<'a>)
    ensures
        r.model() == document(*value),
{
    match value {
        serde_json::Value::Null => Layer::Null,
        serde_json::Value::Bool(b) => Layer::Bool(*b),
        serde_json::Value::Number(n) => Layer::Number(Number {
            unsigned: n.as_u64(),
            signed: n.as_i64(),
            double: match n.as_f64() { Some(x) => Some(F64 { bits: x.to_bits() }), None => None },
        }),
        serde_json::Value::String(s) => Layer::Text(s),
        serde_json::Value::Array(items) => Layer::Array(items),
        serde_json::Value::Object(members) => Layer::Object(members.iter().collect()),
    }
}

/// `serde_json::Value::get` with a key: the member of an object that has the key, nothing for
/// any other value.
#[verifier::external_body]
pub(crate) fn get<'a>(value: &'a Json, key: &str) -> (r: Option<&'a Json>)
    ensures
        match r {
            Some(member) => document(*value).get(key@) == Some(document(*member)),
            None => document(*value).get(key@) is None,
        },
{
    value.get(key)
}

/// `serde_json::Value` indexed with a key: the member of an object that has the key, null for
/// any other value.
#[verifier::external_body]
pub(crate) fn at<'a>(value: &'a Json, key: &str) -> (r: &'a Json)
    ensures
        document(*r) == document(*value).at(key@),
{
    &value[key]
}

/// The debug format of a `serde_json::Value`. It is a function of the document that the value
/// holds; how it spells the document is left to that crate.
#[verifier::external_body]
pub(crate) fn describe(value: &Json) -> (r: String)
    ensures
        r@ == value_debug(document(*value)),
{
    format!("{:?}", value)
}

/// The display format of a `serde_json::Value`. It is a function of the document that the value
/// holds; how it spells the document is left to that crate.
#[verifier::external_body]
pub(crate) fn spell(value: &Json) -> (r: String)
    ensures
        r@ == value_display(document(*value)),
{
    value.to_string()
}

/// The debug format of a text. It is a function of the text; what it escapes is left to the
/// standard library.
#[verifier::external_body]
pub(crate) fn quote(text: &str) -> (r: String)
    ensures
        r@ == text_debug(text@),
{
    format!("{:?}", text)
}

impl JsonView {
    /// The value of the first member at or after `from` that has the key.
    pub open spec fn member_from(members: Seq<(Seq<char>, JsonView)>, key: Seq<char>, from: int) -> Option<
        JsonView,
    >
        decreases members.len() - from,
    {
        if from < 0 || from >= members.len() {
            None
        } else if members[from].0 == key {
            Some(members[from].1)
        } else {
            JsonView::member_from(members, key, from + 1)
        }
    }

    /// The member with the key, if the document is an object that has it.
    pub open spec fn get(self, key: Seq<char>) -> Option<JsonView> {
        match self {
            JsonView::Object(members) => JsonView::member_from(members, key, 0),
            _ => None,
        }
    }

    /// The member with the key; null if there is none.
    pub open spec fn at(self, key: Seq<char>) -> JsonView {
        match self.get(key) {
            Some(value) => value,
            None => JsonView::Null,
        }
    }

    pub open spec fn text(self) -> Option<Seq<char>> {
        match self {
            JsonView::Text(s) => Some(s),
            _ => None,
        }
    }

    pub open spec fn unsigned(self) -> Option<u64> {
        match self {
            JsonView::Number(n) => n.unsigned,
            _ => None,
        }
    }

    pub open spec fn signed(self) -> Option<i64> {
        match self {
            JsonView::Number(n) => n.signed,
            _ => None,
        }
    }

    pub open spec fn double(self) -> Option<F64> {
        match self {
            JsonView::Number(n) => n.double,
            _ => None,
        }
    }

    pub open spec fn boolean(self) -> Option<bool> {
        match self {
            JsonView::Bool(b) => Some(b),
            _ => None,
        }
    }
}

/// Reads a text.
pub fn parse(text: &str) -> (r: Result<Json, Failure>)
    ensures
        match (r, document_of_text(text@)) {
            (Ok(json), Ok(view)) => document(json) == view,
            (Err(e), Err(fault)) => e@ == (FailureView::About {
                complaint: Complaint::InvalidJson,
                text: fault,
            }),
            _ => false,
        },
{
    match read_value(text) {
        Ok(value) => Ok(value),
        Err(fault) => Err(Failure::About { complaint: Complaint::InvalidJson, text: fault }),
    }
}

pub fn as_text<'a>(value: &'a Json) -> (r: Option<&'a String>)
    ensures
        match r {
            Some(s) => document(*value).text() == Some(s@),
            None => document(*value).text() is None,
        },
{
    match peel(value) {
        Layer::Text(s) => Some(s),
        _ => None,
    }
}

pub fn as_unsigned(value: &Json) -> (r: Option<u64>)
    ensures
        r == document(*value).unsigned(),
{
    match peel(value) {
        Layer::Number(n) => n.unsigned,
        _ => None,
    }
}

pub fn as_signed(value: &Json) -> (r: Option<i64>)
    ensures
        r == document(*value).signed(),
{
    match peel(value) {
        Layer::Number(n) => n.signed,
        _ => None,
    }
}

pub fn as_double(value: &Json) -> (r: Option<F64>)
    ensures
        r == document(*value).double(),
{
    match peel(value) {
        Layer::Number(n) => n.double,
        _ => None,
    }
}

pub fn as_bool(value: &Json) -> (r: Option<bool>)
    ensures
        r == document(*value).boolean(),
{
    match peel(value) {
        Layer::Bool(b) => Some(b),
        _ => None,
    }
}

pub fn as_array<'a>(value: &'a Json) -> (r: Option<&'a Vec<Json>>)
    ensures
        match r {
            Some(items) => document(*value) == JsonView::Array(json_views(items@)),
            None => !(document(*value) is Array),
        },
{
    match peel(value) {
        Layer::Array(items) => Some(items),
        _ => None,
    }
}

pub fn as_object<'a>(value: &'a Json) -> (r: Option<Vec<(&'a String, &'a Json)>>)
    ensures
        match r {
            Some(members) => document(*value) == JsonView::Object(member_views(members@)),
            None => !(document(*value) is Object),
        },
{
    match peel(value) {
        Layer::Object(members) => Some(members),
        _ => None,
    }
}

proof fn lemma_member_from(members: Seq<(Seq<char>, JsonView)>, key: Seq<char>, from: int)
    requires
        0 <= from <= members.len(),
    ensures
        match JsonView::member_from(members, key, from) {
            Some(value) => exists|k: int|
                from <= k < members.len() && #[trigger] members[k] == (key, value) && forall|j: int|
                    from <= j < k ==> (#[trigger] members[j]).0 != key,
            None => forall|k: int| from <= k < members.len() ==> (#[trigger] members[k]).0 != key,
        },
    decreases members.len() - from,
{
    if from < members.len() {
        if members[from].0 == key {
            assert(members[from] == (key, members[from].1));
        } else {
            lemma_member_from(members, key, from + 1);
            if let Some(value) = JsonView::member_from(members, key, from + 1) {
                let k = choose|k: int|
                    from + 1 <= k < members.len() && #[trigger] members[k] == (key, value)
                        && forall|j: int| from + 1 <= j < k ==> (#[trigger] members[j]).0 != key;
                assert(members[k] == (key, value));
            }
        }
    }
}

/// A member of an object is found by its key, the first if several have it; other documents have
/// no members.
pub proof fn members_are_found_by_key(value: JsonView, key: Seq<char>)
    ensures
        match value {
            JsonView::Object(members) => match value.get(key) {
                Some(member) => value.at(key) == member && exists|k: int|
                    0 <= k < members.len() && #[trigger] members[k] == (key, member) && forall|
                        j: int,
                    |
                        0 <= j < k ==> (#[trigger] members[j]).0 != key,
                None => value.at(key) is Null && forall|k: int|
                    0 <= k < members.len() ==> (#[trigger] members[k]).0 != key,
            },
            _ => value.get(key) is None && value.at(key) is Null,
        },
{
    if let JsonView::Object(members) = value {
        lemma_member_from(members, key, 0);
    }
}

} // verus!
