//! The text of artifact documents: JSON text read into the library's [`JsonValue`] and written
//! back, through `serde_json`.
use vstd::prelude::*;
use vstd::string::*;
use crate::library::{
    FactView, Json, JsonValue, LibraryError, LibraryErrorView, SemanticFactRecord, artifact_document, artifact_facts,
    artifact_json, exportable, facts_view, parse_artifact_json,
};

verus! {

#[verifier::external_type_specification]
#[verifier::external_body]
pub struct ExSerdeJsonValue(serde_json::Value);

/// Converts a `serde_json` value into the library's document, node for node: a number becomes
/// its value where `as_u64` gives one and its text as `Display` writes it, an object keeps the
/// entries in the order the map yields.
#[verifier::external_body]
fn json_from_serde(v: &serde_json::Value) -> (r: JsonValue) {
    match v {
        serde_json::Value::Null => JsonValue::Null,
        serde_json::Value::Bool(b) => JsonValue::Bool(*b),
        serde_json::Value::Number(n) => JsonValue::Number(n.as_u64(), n.to_string()),
        serde_json::Value::String(s) => JsonValue::String(s.clone()),
        serde_json::Value::Array(items) => JsonValue::Array(items.iter().map(json_from_serde).collect()),
        serde_json::Value::Object(m) => JsonValue::Object(m.iter().map(|(k, x)| (k.clone(), json_from_serde(x))).collect()),
    }
}

/// Converts the library's document into a `serde_json` value, node for node; a number is read
/// back from its text, and a text that is no JSON number becomes `null`.
#[verifier::external_body]
fn json_to_serde(v: &JsonValue) -> (r: serde_json::Value) {
    match v {
        JsonValue::Null => serde_json::Value::Null,
        JsonValue::Bool(b) => serde_json::Value::Bool(*b),
        JsonValue::Number(_, t) => match t.parse::<serde_json::Number>() {
            Ok(n) => serde_json::Value::Number(n),
            Err(_) => serde_json::Value::Null,
        },
        JsonValue::String(s) => serde_json::Value::String(s.clone()),
        JsonValue::Array(items) => serde_json::Value::Array(items.iter().map(json_to_serde).collect()),
        JsonValue::Object(es) => serde_json::Value::Object(es.iter().map(|(k, x)| (k.clone(), json_to_serde(x))).collect()),
    }
}

/// What `serde_json::from_str::<serde_json::Value>` makes of a text: the document, or the
/// error's message.
pub uninterp spec fn json_parse_result(text: Seq<char>) -> Result<Json, Seq<char>>;

/// The compact text `serde_json` writes for a document (`Value`'s `Display`).
pub uninterp spec fn compact_json(j: Json) -> Seq<char>;

/// What `serde_json::to_string_pretty` makes of a document: the text, or the error's message.
pub uninterp spec fn pretty_json_result(j: Json) -> Result<Seq<char>, Seq<char>>;

pub open spec fn parse_view(r: Result<JsonValue, String>) -> Result<Json, Seq<char>> {
    match r {
        Ok(v) => Ok(v@),
        Err(e) => Err(e@),
    }
}

pub open spec fn text_view(r: Result<String, String>) -> Result<Seq<char>, Seq<char>> {
    match r {
        Ok(s) => Ok(s@),
        Err(e) => Err(e@),
    }
}

/// `serde_json::from_str` into a `serde_json::Value`, converted. The contract claims only that
/// the outcome is the same for the same text; what it is, is not stated.
#[verifier::external_body]
fn json_parse(text: &str) -> (r: Result<JsonValue, String>)
    ensures
        parse_view(r) == json_parse_result(text@),
{
    match serde_json::from_str::<serde_json::Value>(text) {
        Ok(v) => Ok(json_from_serde(&v)),
        Err(e) => Err(e.to_string()),
    }
}

/// `Display` (`to_string`) of a `serde_json::Value`: the compact text. The contract claims only
/// that the text is the same for the same document.
#[verifier::external_body]
fn json_compact(v: &JsonValue) -> (r: String)
    ensures
        r@ == compact_json(v@),
{
    json_to_serde(v).to_string()
}

/// `serde_json::to_string_pretty` of a `serde_json::Value`. The contract claims only that the
/// outcome is the same for the same document.
#[verifier::external_body]
fn json_pretty(v: &JsonValue) -> (r: Result<String, String>)
    ensures
        text_view(r) == pretty_json_result(v@),
{
    match serde_json::to_string_pretty(&json_to_serde(v)) {
        Ok(s) => Ok(s),
        Err(e) => Err(e.to_string()),
    }
}

/// The facts of the artifact text read from `path`, requested as the entity `kind`/`name`: a
/// text that is not JSON is a parse error naming the path; a document is decoded as
/// [`artifact_facts`] says, with its compact text quoted when its root is not an object.
pub open spec fn artifact_text_facts(path: Seq<char>, text: Seq<char>, kind: Seq<char>, name: Seq<char>) -> Result<
    Seq<FactView>,
    LibraryErrorView,
> {
    match json_parse_result(text) {
        Err(e) => Err(LibraryErrorView::Parse("artifact "@ + path + " is not valid JSON: "@ + e)),
        Ok(j) => artifact_facts(j, compact_json(j), kind, name),
    }
}

/// The facts of the artifact text read from `path` (named in the error when the text is not
/// JSON), requested as the entity `expected_kind`/`expected_name`.
pub fn parse_artifact_text(path: &str, text: &str, expected_kind: &str, expected_name: &str) -> (r: Result<
    Vec<SemanticFactRecord>,
    LibraryError,
>)
    ensures
        match r {
            Ok(fs) => artifact_text_facts(path@, text@, expected_kind@, expected_name@) == Ok::<
                Seq<FactView>,
                LibraryErrorView,
            >(facts_view(fs@)),
            Err(e) => artifact_text_facts(path@, text@, expected_kind@, expected_name@) == Err::<
                Seq<FactView>,
                LibraryErrorView,
            >(e@),
        },
{
    match json_parse(text) {
        Err(e) => {
            let mut m = String::from_str("artifact ");
            m.append(path);
            m.append(" is not valid JSON: ");
            m.append(e.as_str());
            Err(LibraryError::Parse(m))
        },
        Ok(v) => {
            let root_text = json_compact(&v);
            parse_artifact_json(&v, root_text.as_str(), expected_kind, expected_name)
        },
    }
}

/// The artifact text for the exportable facts among `facts`, for the entity `kind`/`name`: the
/// pretty-printed document, or a write error carrying the serializer's message.
pub open spec fn artifact_text_spec(kind: Seq<char>, name: Seq<char>, facts: Seq<SemanticFactRecord>) -> Result<
    Seq<char>,
    LibraryErrorView,
> {
    match pretty_json_result(artifact_json(kind, name, facts_view(exportable(facts)))) {
        Ok(s) => Ok(s),
        Err(e) => Err(LibraryErrorView::Write("failed to serialise artifact JSON: "@ + e)),
    }
}

/// The artifact text to write for the exportable facts among `facts`.
pub fn artifact_text(kind: &str, name: &str, facts: &[SemanticFactRecord]) -> (r: Result<String, LibraryError>)
    ensures
        match r {
            Ok(s) => artifact_text_spec(kind@, name@, facts@) == Ok::<Seq<char>, LibraryErrorView>(s@),
            Err(e) => artifact_text_spec(kind@, name@, facts@) == Err::<Seq<char>, LibraryErrorView>(e@),
        },
{
    let doc = artifact_document(kind, name, facts);
    match json_pretty(&doc) {
        Ok(s) => Ok(s),
        Err(e) => {
            let mut m = String::from_str("failed to serialise artifact JSON: ");
            m.append(e.as_str());
            Err(LibraryError::Write(m))
        },
    }
}

} // verus!
