//! The compilation-artifact library: the fact records that one compilation shares with another,
//! their JSON encoding, and the decoding that checks an artifact against the entity it was
//! requested for.
//!
//! Reading and writing the artifact files is I/O and stays with the caller; this module builds
//! the JSON document that is written and decodes the document that was read, both as values of
//! [`JsonValue`].
use vstd::prelude::*;
use vstd::string::*;
use crate::names::{str_eq, str_to_string};
use crate::facts::{ascii_lower, str_ascii_lowercase};
use crate::text::{decimal, push_decimal, push_decimal_u64};

verus! {

broadcast use vstd::std_specs::vec::axiom_vec_index_decreases;

/// The artifact format version this library writes and the newest it reads.
pub const ARTIFACT_FORMAT_VERSION: u32 = 1;

// ---------------------------------------------------------------------------------------------
// Errors
// ---------------------------------------------------------------------------------------------

/// An error of the artifact library; every variant carries a readable message.
#[derive(Debug, Clone, PartialEq, Eq)]
pub enum LibraryError {
    /// The requested artifact does not exist.
    NotFound(String),
    /// The artifact exists but cannot be read.
    Io(String),
    /// The artifact is malformed or fails the schema check.
    Parse(String),
    /// The artifact's format version is newer than this library supports.
    UnsupportedFormat(String),
    /// Writing failed.
    Write(String),
}

/// The model of a [`LibraryError`]: the variant and its message.
pub enum LibraryErrorView {
    NotFound(Seq<char>),
    Io(Seq<char>),
    Parse(Seq<char>),
    UnsupportedFormat(Seq<char>),
    Write(Seq<char>),
}

impl View for LibraryError {
    type V = LibraryErrorView;

    open spec fn view(&self) -> LibraryErrorView {
        match *self {
            LibraryError::NotFound(s) => LibraryErrorView::NotFound(s@),
            LibraryError::Io(s) => LibraryErrorView::Io(s@),
            LibraryError::Parse(s) => LibraryErrorView::Parse(s@),
            LibraryError::UnsupportedFormat(s) => LibraryErrorView::UnsupportedFormat(s@),
            LibraryError::Write(s) => LibraryErrorView::Write(s@),
        }
    }
}

impl LibraryError {
    /// The message the error carries.
    pub fn message(&self) -> (r: &String)
        ensures
            *r == match *self {
                LibraryError::NotFound(s) => s,
                LibraryError::Io(s) => s,
                LibraryError::Parse(s) => s,
                LibraryError::UnsupportedFormat(s) => s,
                LibraryError::Write(s) => s,
            },
    {
        match self {
            LibraryError::NotFound(s) => s,
            LibraryError::Io(s) => s,
            LibraryError::Parse(s) => s,
            LibraryError::UnsupportedFormat(s) => s,
            LibraryError::Write(s) => s,
        }
    }
}

// ---------------------------------------------------------------------------------------------
// Fact records
// ---------------------------------------------------------------------------------------------

/// The value a fact is about (its name).
#[derive(Debug, Clone, PartialEq, Eq)]
pub enum SemanticRuntimeValue {
    Identifier(String),
    String(String),
    Number(String),
    Boolean(bool),
    Null,
    RuleReference(String),
}

/// A value of a fact attribute.
#[derive(Debug, PartialEq, Eq)]
pub enum UnifiedSemanticValue {
    Identifier(String),
    String(String),
    Number(String),
    Boolean(bool),
    Null,
    Array(Vec<UnifiedSemanticValue>),
    Object(Vec<UnifiedSemanticProperty>),
    RuleReference(String),
}

/// One `key: value` attribute of a fact.
#[derive(Debug, PartialEq, Eq)]
pub struct UnifiedSemanticProperty {
    pub key: String,
    pub value: UnifiedSemanticValue,
}

/// The scope a fact was recorded in.
#[derive(Debug, Clone, Copy, PartialEq, Eq)]
pub struct ScopeId {
    pub id: u64,
}

impl ScopeId {
    /// The outermost scope.
    pub fn root() -> (r: ScopeId)
        ensures
            r.id == 0,
    {
        ScopeId { id: 0 }
    }
}

/// A fact as the semantic runtime records it.
#[derive(Debug, PartialEq, Eq)]
pub struct SemanticFactRecord {
    pub kind: String,
    pub name: SemanticRuntimeValue,
    pub scope_depth: usize,
    pub scope_id: ScopeId,
    pub attributes: Vec<UnifiedSemanticProperty>,
}

/// The model of a [`SemanticRuntimeValue`].
pub enum RuntimeView {
    Identifier(Seq<char>),
    Str(Seq<char>),
    Number(Seq<char>),
    Boolean(bool),
    Null,
    RuleReference(Seq<char>),
}

/// The model of a [`UnifiedSemanticValue`].
pub enum ValueView {
    Identifier(Seq<char>),
    Str(Seq<char>),
    Number(Seq<char>),
    Boolean(bool),
    Null,
    Array(Seq<ValueView>),
    Object(Seq<(Seq<char>, ValueView)>),
    RuleReference(Seq<char>),
}

/// The model of a [`SemanticFactRecord`].
pub struct FactView {
    pub kind: Seq<char>,
    pub name: RuntimeView,
    pub scope_depth: nat,
    pub scope_id: u64,
    pub attributes: Seq<(Seq<char>, ValueView)>,
}

pub open spec fn runtime_view(v: SemanticRuntimeValue) -> RuntimeView {
    match v {
        SemanticRuntimeValue::Identifier(s) => RuntimeView::Identifier(s@),
        SemanticRuntimeValue::String(s) => RuntimeView::Str(s@),
        SemanticRuntimeValue::Number(s) => RuntimeView::Number(s@),
        SemanticRuntimeValue::Boolean(b) => RuntimeView::Boolean(b),
        SemanticRuntimeValue::Null => RuntimeView::Null,
        SemanticRuntimeValue::RuleReference(s) => RuntimeView::RuleReference(s@),
    }
}

impl View for SemanticRuntimeValue {
    type V = RuntimeView;

    open spec fn view(&self) -> RuntimeView {
        runtime_view(*self)
    }
}

pub open spec fn value_view(v: UnifiedSemanticValue) -> ValueView
    decreases v,
{
    match v {
        UnifiedSemanticValue::Identifier(s) => ValueView::Identifier(s@),
        UnifiedSemanticValue::String(s) => ValueView::Str(s@),
        UnifiedSemanticValue::Number(s) => ValueView::Number(s@),
        UnifiedSemanticValue::Boolean(b) => ValueView::Boolean(b),
        UnifiedSemanticValue::Null => ValueView::Null,
        UnifiedSemanticValue::Array(items) => ValueView::Array(values_view(items@)),
        UnifiedSemanticValue::Object(props) => ValueView::Object(props_view(props@)),
        UnifiedSemanticValue::RuleReference(s) => ValueView::RuleReference(s@),
    }
}

pub open spec fn values_view(s: Seq<UnifiedSemanticValue>) -> Seq<ValueView>
    decreases s,
{
    if s.len() == 0 {
        Seq::empty()
    } else {
        values_view(s.drop_last()).push(value_view(s.last()))
    }
}

pub open spec fn props_view(s: Seq<UnifiedSemanticProperty>) -> Seq<(Seq<char>, ValueView)>
    decreases s,
{
    if s.len() == 0 {
        Seq::empty()
    } else {
        props_view(s.drop_last()).push((s.last().key@, value_view(s.last().value)))
    }
}

impl View for UnifiedSemanticValue {
    type V = ValueView;

    open spec fn view(&self) -> ValueView {
        value_view(*self)
    }
}

pub open spec fn fact_view(f: SemanticFactRecord) -> FactView {
    FactView {
        kind: f.kind@,
        name: f.name@,
        scope_depth: f.scope_depth as nat,
        scope_id: f.scope_id.id,
        attributes: props_view(f.attributes@),
    }
}

impl View for SemanticFactRecord {
    type V = FactView;

    open spec fn view(&self) -> FactView {
        fact_view(*self)
    }
}

pub open spec fn facts_view(s: Seq<SemanticFactRecord>) -> Seq<FactView> {
    s.map_values(|f: SemanticFactRecord| f@)
}

pub proof fn lemma_values_view(s: Seq<UnifiedSemanticValue>)
    ensures
        values_view(s) == s.map_values(|v: UnifiedSemanticValue| value_view(v)),
    decreases s.len(),
{
    if s.len() > 0 {
        lemma_values_view(s.drop_last());
        assert(values_view(s) =~= s.map_values(|v: UnifiedSemanticValue| value_view(v)));
    } else {
        assert(values_view(s) =~= s.map_values(|v: UnifiedSemanticValue| value_view(v)));
    }
}

pub proof fn lemma_props_view(s: Seq<UnifiedSemanticProperty>)
    ensures
        props_view(s) == s.map_values(|p: UnifiedSemanticProperty| (p.key@, value_view(p.value))),
    decreases s.len(),
{
    if s.len() > 0 {
        lemma_props_view(s.drop_last());
        assert(props_view(s) =~= s.map_values(|p: UnifiedSemanticProperty| (p.key@, value_view(p.value))));
    } else {
        assert(props_view(s) =~= s.map_values(|p: UnifiedSemanticProperty| (p.key@, value_view(p.value))));
    }
}

// ---------------------------------------------------------------------------------------------
// JSON documents
// ---------------------------------------------------------------------------------------------

/// A JSON document as the artifact logic reads and writes it. A number is carried by its value
/// where it is a non-negative integer that fits in 64 bits (`None` otherwise) and by its JSON text.
#[derive(Debug, PartialEq, Eq)]
pub enum JsonValue {
    Null,
    Bool(bool),
    Number(Option<u64>, String),
    String(String),
    Array(Vec<JsonValue>),
    Object(Vec<(String, JsonValue)>),
}

/// The model of a [`JsonValue`].
pub enum Json {
    Null,
    Bool(bool),
    Number(Option<u64>, Seq<char>),
    Str(Seq<char>),
    Array(Seq<Json>),
    Object(Seq<(Seq<char>, Json)>),
}

pub open spec fn json_view(v: JsonValue) -> Json
    decreases v,
{
    match v {
        JsonValue::Null => Json::Null,
        JsonValue::Bool(b) => Json::Bool(b),
        JsonValue::Number(n, t) => Json::Number(n, t@),
        JsonValue::String(s) => Json::Str(s@),
        JsonValue::Array(items) => Json::Array(jsons_view(items@)),
        JsonValue::Object(entries) => Json::Object(entries_view(entries@)),
    }
}

pub open spec fn jsons_view(s: Seq<JsonValue>) -> Seq<Json>
    decreases s,
{
    if s.len() == 0 {
        Seq::empty()
    } else {
        jsons_view(s.drop_last()).push(json_view(s.last()))
    }
}

pub open spec fn entries_view(s: Seq<(String, JsonValue)>) -> Seq<(Seq<char>, Json)>
    decreases s,
{
    if s.len() == 0 {
        Seq::empty()
    } else {
        entries_view(s.drop_last()).push((s.last().0@, json_view(s.last().1)))
    }
}

impl View for JsonValue {
    type V = Json;

    open spec fn view(&self) -> Json {
        json_view(*self)
    }
}

pub proof fn lemma_jsons_view(s: Seq<JsonValue>)
    ensures
        jsons_view(s) == s.map_values(|v: JsonValue| json_view(v)),
    decreases s.len(),
{
    if s.len() > 0 {
        lemma_jsons_view(s.drop_last());
    }
    assert(jsons_view(s) =~= s.map_values(|v: JsonValue| json_view(v)));
}

pub proof fn lemma_entries_view(s: Seq<(String, JsonValue)>)
    ensures
        entries_view(s) == s.map_values(|e: (String, JsonValue)| (e.0@, json_view(e.1))),
    decreases s.len(),
{
    if s.len() > 0 {
        lemma_entries_view(s.drop_last());
    }
    assert(entries_view(s) =~= s.map_values(|e: (String, JsonValue)| (e.0@, json_view(e.1))));
}

// ---------------------------------------------------------------------------------------------
// Encoding
// ---------------------------------------------------------------------------------------------

/// `{"kind": kind, "text": text}`.
pub open spec fn text_json(kind: Seq<char>, text: Seq<char>) -> Json {
    Json::Object(seq![("kind"@, Json::Str(kind)), ("text"@, Json::Str(text))])
}

/// `{"kind": kind}`.
pub open spec fn kind_json(kind: Seq<char>) -> Json {
    Json::Object(seq![("kind"@, Json::Str(kind))])
}

/// `{"kind": "boolean", "value": b}`.
pub open spec fn boolean_json(b: bool) -> Json {
    Json::Object(seq![("kind"@, Json::Str("boolean"@)), ("value"@, Json::Bool(b))])
}

/// The encoding of a fact's name.
pub open spec fn runtime_json(r: RuntimeView) -> Json {
    match r {
        RuntimeView::Identifier(s) => text_json("identifier"@, s),
        RuntimeView::Str(s) => text_json("string"@, s),
        RuntimeView::Number(s) => text_json("number"@, s),
        RuntimeView::Boolean(b) => boolean_json(b),
        RuntimeView::Null => kind_json("null"@),
        RuntimeView::RuleReference(s) => text_json("rule_reference"@, s),
    }
}

/// The encoding of an attribute value: primitives as tagged objects, arrays element-wise, an
/// object or an unresolved rule reference as a marker.
pub open spec fn value_json(v: ValueView) -> Json
    decreases v,
{
    match v {
        ValueView::Identifier(s) => text_json("identifier"@, s),
        ValueView::Str(s) => text_json("string"@, s),
        ValueView::Number(s) => text_json("number"@, s),
        ValueView::Boolean(b) => boolean_json(b),
        ValueView::Null => kind_json("null"@),
        ValueView::Array(items) => Json::Array(values_json(items)),
        ValueView::Object(_) => kind_json("object_unsupported_in_artifact_v0"@),
        ValueView::RuleReference(s) => text_json("rule_reference_unresolved"@, s),
    }
}

pub open spec fn values_json(s: Seq<ValueView>) -> Seq<Json>
    decreases s,
{
    if s.len() == 0 {
        Seq::empty()
    } else {
        values_json(s.drop_last()).push(value_json(s.last()))
    }
}

pub proof fn lemma_values_json(s: Seq<ValueView>)
    ensures
        values_json(s) == s.map_values(|v: ValueView| value_json(v)),
    decreases s.len(),
{
    if s.len() > 0 {
        lemma_values_json(s.drop_last());
    }
    assert(values_json(s) =~= s.map_values(|v: ValueView| value_json(v)));
}

/// `{"key": key, "value": <value>}`.
pub open spec fn attribute_json(p: (Seq<char>, ValueView)) -> Json {
    Json::Object(seq![("key"@, Json::Str(p.0)), ("value"@, value_json(p.1))])
}

/// `{"kind": .., "name": .., "attributes": [..]}`.
pub open spec fn fact_json(f: FactView) -> Json {
    Json::Object(
        seq![
            ("kind"@, Json::Str(f.kind)),
            ("name"@, runtime_json(f.name)),
            ("attributes"@, Json::Array(f.attributes.map_values(|p: (Seq<char>, ValueView)| attribute_json(p)))),
        ],
    )
}

/// The artifact document of the entity `kind`/`name` holding `facts`.
pub open spec fn artifact_json(kind: Seq<char>, name: Seq<char>, facts: Seq<FactView>) -> Json {
    Json::Object(
        seq![
            ("format_version"@, Json::Number(Some(ARTIFACT_FORMAT_VERSION as u64), decimal(ARTIFACT_FORMAT_VERSION as nat))),
            ("kind"@, Json::Str(kind)),
            ("name"@, Json::Str(name)),
            ("facts"@, Json::Array(facts.map_values(|f: FactView| fact_json(f)))),
        ],
    )
}

fn json_string(s: &str) -> (r: JsonValue)
    ensures
        r@ == Json::Str(s@),
{
    JsonValue::String(str_to_string(s))
}

fn entry(key: &str, value: JsonValue) -> (r: (String, JsonValue))
    ensures
        r.0@ == key@,
        r.1 == value,
{
    (str_to_string(key), value)
}

fn object2(k1: &str, v1: JsonValue, k2: &str, v2: JsonValue) -> (r: JsonValue)
    ensures
        r@ == Json::Object(seq![(k1@, v1@), (k2@, v2@)]),
{
    let mut entries: Vec<(String, JsonValue)> = Vec::new();
    entries.push(entry(k1, v1));
    entries.push(entry(k2, v2));
    proof {
        lemma_entries_view(entries@);
        assert(entries_view(entries@) =~= seq![(k1@, v1@), (k2@, v2@)]);
    }
    JsonValue::Object(entries)
}

fn text_object(kind: &str, text: &str) -> (r: JsonValue)
    ensures
        r@ == text_json(kind@, text@),
{
    object2("kind", json_string(kind), "text", json_string(text))
}

fn kind_object(kind: &str) -> (r: JsonValue)
    ensures
        r@ == kind_json(kind@),
{
    let mut entries: Vec<(String, JsonValue)> = Vec::new();
    entries.push(entry("kind", json_string(kind)));
    proof {
        lemma_entries_view(entries@);
        assert(entries_view(entries@) =~= seq![("kind"@, Json::Str(kind@))]);
    }
    JsonValue::Object(entries)
}

fn boolean_object(b: bool) -> (r: JsonValue)
    ensures
        r@ == boolean_json(b),
{
    object2("kind", json_string("boolean"), "value", JsonValue::Bool(b))
}

/// The encoding of a fact's name.
pub fn runtime_value_to_json(v: &SemanticRuntimeValue) -> (r: JsonValue)
    ensures
        r@ == runtime_json(v@),
{
    match v {
        SemanticRuntimeValue::Identifier(s) => text_object("identifier", s.as_str()),
        SemanticRuntimeValue::String(s) => text_object("string", s.as_str()),
        SemanticRuntimeValue::Number(s) => text_object("number", s.as_str()),
        SemanticRuntimeValue::Boolean(b) => boolean_object(*b),
        SemanticRuntimeValue::Null => kind_object("null"),
        SemanticRuntimeValue::RuleReference(s) => text_object("rule_reference", s.as_str()),
    }
}

/// The encoding of an attribute value.
pub fn semantic_value_to_json(v: &UnifiedSemanticValue) -> (r: JsonValue)
    ensures
        r@ == value_json(v@),
    decreases v,
{
    match v {
        UnifiedSemanticValue::Identifier(s) => text_object("identifier", s.as_str()),
        UnifiedSemanticValue::String(s) => text_object("string", s.as_str()),
        UnifiedSemanticValue::Number(s) => text_object("number", s.as_str()),
        UnifiedSemanticValue::Boolean(b) => boolean_object(*b),
        UnifiedSemanticValue::Null => kind_object("null"),
        UnifiedSemanticValue::Array(items) => JsonValue::Array(values_to_json(items)),
        UnifiedSemanticValue::Object(_) => kind_object("object_unsupported_in_artifact_v0"),
        UnifiedSemanticValue::RuleReference(s) => text_object("rule_reference_unresolved", s.as_str()),
    }
}

/// The element-wise encoding of attribute values.
fn values_to_json(items: &Vec<UnifiedSemanticValue>) -> (r: Vec<JsonValue>)
    ensures
        jsons_view(r@) == values_json(values_view(items@)),
    decreases items,
{
    let mut out: Vec<JsonValue> = Vec::new();
    let mut i: usize = 0;
    while i < items.len()
        invariant
            i <= items@.len(),
            out@.len() == i,
            forall|j: int| 0 <= j < i ==> (#[trigger] out@[j])@ == value_json(items@[j]@),
        decreases items@.len() - i,
    {
        proof {
            assert(decreases_to!(items => items@[i as int]));
        }
        let e = semantic_value_to_json(&items[i]);
        out.push(e);
        i = i + 1;
    }
    proof {
        lemma_jsons_view(out@);
        lemma_values_view(items@);
        lemma_values_json(values_view(items@));
        assert(jsons_view(out@) =~= values_json(values_view(items@)));
    }
    out
}

fn attribute_to_json(p: &UnifiedSemanticProperty) -> (r: JsonValue)
    ensures
        r@ == attribute_json((p.key@, p.value@)),
{
    object2("key", json_string(p.key.as_str()), "value", semantic_value_to_json(&p.value))
}

/// The encoding of one fact.
pub fn fact_to_json(f: &SemanticFactRecord) -> (r: JsonValue)
    ensures
        r@ == fact_json(f@),
{
    let mut attrs: Vec<JsonValue> = Vec::new();
    let mut i: usize = 0;
    while i < f.attributes.len()
        invariant
            i <= f.attributes@.len(),
            attrs@.len() == i,
            forall|j: int| 0 <= j < i ==> (#[trigger] attrs@[j])@ == attribute_json((f.attributes@[j].key@, f.attributes@[j].value@)),
        decreases f.attributes@.len() - i,
    {
        let a = attribute_to_json(&f.attributes[i]);
        attrs.push(a);
        i = i + 1;
    }
    let mut entries: Vec<(String, JsonValue)> = Vec::new();
    entries.push(entry("kind", json_string(f.kind.as_str())));
    entries.push(entry("name", runtime_value_to_json(&f.name)));
    let ghost av = attrs@;
    entries.push(entry("attributes", JsonValue::Array(attrs)));
    proof {
        lemma_jsons_view(av);
        lemma_props_view(f.attributes@);
        assert(jsons_view(av) =~= props_view(f.attributes@).map_values(|p: (Seq<char>, ValueView)| attribute_json(p)));
        lemma_entries_view(entries@);
        assert(entries_view(entries@) =~= seq![
            ("kind"@, Json::Str(f.kind@)),
            ("name"@, runtime_json(f.name@)),
            ("attributes"@, Json::Array(props_view(f.attributes@).map_values(|p: (Seq<char>, ValueView)| attribute_json(p)))),
        ]);
    }
    JsonValue::Object(entries)
}

/// The artifact document of the entity `kind`/`name` holding `facts`:
/// `{"format_version": 1, "kind": kind, "name": name, "facts": [..]}`.
pub fn build_artifact_json(kind: &str, name: &str, facts: &[&SemanticFactRecord]) -> (r: JsonValue)
    ensures
        r@ == artifact_json(kind@, name@, facts@.map_values(|f: &SemanticFactRecord| f@)),
{
    let mut out: Vec<JsonValue> = Vec::new();
    let mut i: usize = 0;
    while i < facts.len()
        invariant
            i <= facts@.len(),
            out@.len() == i,
            forall|j: int| 0 <= j < i ==> (#[trigger] out@[j])@ == fact_json(facts@[j]@),
        decreases facts@.len() - i,
    {
        let e = fact_to_json(facts[i]);
        out.push(e);
        i = i + 1;
    }
    let mut entries: Vec<(String, JsonValue)> = Vec::new();
    let version_text = crate::text::decimal_string(ARTIFACT_FORMAT_VERSION as usize);
    entries.push(entry("format_version", JsonValue::Number(Some(ARTIFACT_FORMAT_VERSION as u64), version_text)));
    entries.push(entry("kind", json_string(kind)));
    entries.push(entry("name", json_string(name)));
    let ghost ov = out@;
    entries.push(entry("facts", JsonValue::Array(out)));
    proof {
        lemma_jsons_view(ov);
        assert(jsons_view(ov) =~= facts@.map_values(|f: &SemanticFactRecord| f@).map_values(|f: FactView| fact_json(f)));
        lemma_entries_view(entries@);
        assert(entries_view(entries@) =~= seq![
            ("format_version"@, Json::Number(Some(ARTIFACT_FORMAT_VERSION as u64), decimal(ARTIFACT_FORMAT_VERSION as nat))),
            ("kind"@, Json::Str(kind@)),
            ("name"@, Json::Str(name@)),
            ("facts"@, Json::Array(facts@.map_values(|f: &SemanticFactRecord| f@).map_values(|f: FactView| fact_json(f)))),
        ]);
    }
    JsonValue::Object(entries)
}

// ---------------------------------------------------------------------------------------------
// Which facts an artifact carries
// ---------------------------------------------------------------------------------------------

/// `s` with its ASCII capitals made small.
pub open spec fn lowered(s: Seq<char>) -> Seq<char> {
    s.map_values(|c: char| ascii_lower(c))
}

/// ASCII case-insensitive string equality.
fn eq_ignore_ascii_case(a: &str, b: &str) -> (r: bool)
    ensures
        r == (lowered(a@) == lowered(b@)),
{
    let la = str_ascii_lowercase(a);
    let lb = str_ascii_lowercase(b);
    str_eq(la.as_str(), lb.as_str())
}

/// The fact kinds an artifact carries across compilations: `type_name`, in any ASCII case.
pub open spec fn is_exportable_kind(kind: Seq<char>) -> bool {
    lowered(kind) == lowered("type_name"@)
}

/// Whether facts of `kind` are carried by artifacts.
pub fn is_exportable_fact_kind(kind: &str) -> (r: bool)
    ensures
        r == is_exportable_kind(kind@),
{
    eq_ignore_ascii_case(kind, "type_name")
}

/// The facts of exportable kinds, in their order.
pub open spec fn exportable(facts: Seq<SemanticFactRecord>) -> Seq<SemanticFactRecord> {
    facts.filter(|f: SemanticFactRecord| is_exportable_kind(f.kind@))
}

/// The facts of exportable kinds, in their order.
pub fn exportable_facts<'a>(facts: &'a [SemanticFactRecord]) -> (r: Vec<&'a SemanticFactRecord>)
    ensures
        r@.map_values(|f: &SemanticFactRecord| *f) == exportable(facts@),
{
    let ghost pred = |f: SemanticFactRecord| is_exportable_kind(f.kind@);
    let mut out: Vec<&SemanticFactRecord> = Vec::new();
    let mut i: usize = 0;
    while i < facts.len()
        invariant
            pred == (|f: SemanticFactRecord| is_exportable_kind(f.kind@)),
            i <= facts@.len(),
            out@.map_values(|f: &SemanticFactRecord| *f) == facts@.take(i as int).filter(pred),
        decreases facts@.len() - i,
    {
        let f = &facts[i];
        proof {
            assert(facts@.take(i + 1) =~= facts@.take(i as int).push(*f));
            facts@.take(i as int).lemma_filter_push(*f, pred);
        }
        if is_exportable_fact_kind(f.kind.as_str()) {
            let ghost before = out@;
            out.push(f);
            proof {
                assert(out@.map_values(|x: &SemanticFactRecord| *x) =~= before.map_values(|x: &SemanticFactRecord| *x).push(*f));
            }
        }
        i = i + 1;
    }
    proof {
        assert(facts@.take(i as int) =~= facts@);
    }
    out
}

/// The artifact document that records the exportable facts among `facts` for the entity
/// `kind`/`name`.
pub fn artifact_document(kind: &str, name: &str, facts: &[SemanticFactRecord]) -> (r: JsonValue)
    ensures
        r@ == artifact_json(kind@, name@, facts_view(exportable(facts@))),
{
    let ex = exportable_facts(facts);
    let r = build_artifact_json(kind, name, ex.as_slice());
    proof {
        assert(ex@.map_values(|f: &SemanticFactRecord| f@) =~= facts_view(exportable(facts@)));
    }
    r
}

// ---------------------------------------------------------------------------------------------
// Decoding
// ---------------------------------------------------------------------------------------------

/// The value under `key` in an object's entries (the first entry with that key).
pub open spec fn json_get(entries: Seq<(Seq<char>, Json)>, key: Seq<char>) -> Option<Json>
    decreases entries.len(),
{
    if entries.len() == 0 {
        None
    } else if entries[0].0 == key {
        Some(entries[0].1)
    } else {
        json_get(entries.drop_first(), key)
    }
}

/// The string under `key`, if there is one.
pub open spec fn get_str(entries: Seq<(Seq<char>, Json)>, key: Seq<char>) -> Option<Seq<char>> {
    match json_get(entries, key) {
        Some(Json::Str(s)) => Some(s),
        _ => None,
    }
}

/// `Ok(f(text))` where the object has a string `text`, else `Err(missing)`.
pub open spec fn with_text(
    o: Seq<(Seq<char>, Json)>,
    missing: Seq<char>,
    f: spec_fn(Seq<char>) -> RuntimeView,
) -> Result<RuntimeView, Seq<char>> {
    match get_str(o, "text"@) {
        Some(t) => Ok(f(t)),
        None => Err(missing),
    }
}

/// The decoding of a fact's name, or what is wrong with it.
pub open spec fn name_of(j: Json) -> Result<RuntimeView, Seq<char>> {
    match j {
        Json::Object(o) => match get_str(o, "kind"@) {
            None => Err("name.kind missing"@),
            Some(k) => if k == "identifier"@ {
                with_text(o, "identifier.text missing"@, |t: Seq<char>| RuntimeView::Identifier(t))
            } else if k == "string"@ {
                with_text(o, "string.text missing"@, |t: Seq<char>| RuntimeView::Str(t))
            } else if k == "number"@ {
                with_text(o, "number.text missing"@, |t: Seq<char>| RuntimeView::Number(t))
            } else if k == "boolean"@ {
                match json_get(o, "value"@) {
                    Some(Json::Bool(b)) => Ok(RuntimeView::Boolean(b)),
                    _ => Err("boolean.value missing"@),
                }
            } else if k == "null"@ {
                Ok(RuntimeView::Null)
            } else if k == "rule_reference"@ {
                with_text(o, "rule_reference.text missing"@, |t: Seq<char>| RuntimeView::RuleReference(t))
            } else {
                Err("unknown name kind '"@ + k + "'"@)
            },
        },
        _ => Err("name is not an object"@),
    }
}

/// The decoding of a primitive attribute value; `None` for anything else.
pub open spec fn attribute_value_of(j: Json) -> Option<ValueView> {
    match j {
        Json::Object(o) => match get_str(o, "kind"@) {
            None => None,
            Some(k) => if k == "identifier"@ {
                match get_str(o, "text"@) {
                    Some(t) => Some(ValueView::Identifier(t)),
                    None => None,
                }
            } else if k == "string"@ {
                match get_str(o, "text"@) {
                    Some(t) => Some(ValueView::Str(t)),
                    None => None,
                }
            } else if k == "number"@ {
                match get_str(o, "text"@) {
                    Some(t) => Some(ValueView::Number(t)),
                    None => None,
                }
            } else if k == "boolean"@ {
                match json_get(o, "value"@) {
                    Some(Json::Bool(b)) => Some(ValueView::Boolean(b)),
                    _ => None,
                }
            } else if k == "null"@ {
                Some(ValueView::Null)
            } else {
                None
            },
        },
        _ => None,
    }
}

/// The decoding of one attribute entry `{"key": .., "value": ..}`; `None` where it is not one
/// or its value is not primitive.
pub open spec fn attribute_of(j: Json) -> Option<(Seq<char>, ValueView)> {
    match j {
        Json::Object(o) => match (get_str(o, "key"@), json_get(o, "value"@)) {
            (Some(k), Some(v)) => match attribute_value_of(v) {
                Some(x) => Some((k, x)),
                None => None,
            },
            _ => None,
        },
        _ => None,
    }
}

/// The attribute entries that decode, in order.
pub open spec fn attributes_of(items: Seq<Json>) -> Seq<(Seq<char>, ValueView)>
    decreases items.len(),
{
    if items.len() == 0 {
        Seq::empty()
    } else {
        let rest = attributes_of(items.drop_last());
        match attribute_of(items.last()) {
            Some(p) => rest.push(p),
            None => rest,
        }
    }
}

/// `artifact facts[<i>`: the start of every message about the fact at index `i`.
pub open spec fn fact_prefix(i: nat) -> Seq<char> {
    "artifact facts["@ + decimal(i)
}

/// The decoding of the fact at index `i`, or the message saying what is wrong with it. A
/// decoded fact is placed at depth 0 in the root scope.
pub open spec fn fact_of(j: Json, i: nat) -> Result<FactView, Seq<char>> {
    match j {
        Json::Object(o) => match get_str(o, "kind"@) {
            None => Err(fact_prefix(i) + "] missing 'kind'"@),
            Some(k) => match json_get(o, "name"@) {
                None => Err(fact_prefix(i) + "] missing 'name'"@),
                Some(nj) => match name_of(nj) {
                    Err(e) => Err(fact_prefix(i) + "] bad name: "@ + e),
                    Ok(n) => Ok(
                        FactView {
                            kind: k,
                            name: n,
                            scope_depth: 0,
                            scope_id: 0,
                            attributes: match json_get(o, "attributes"@) {
                                Some(Json::Array(a)) => attributes_of(a),
                                _ => Seq::empty(),
                            },
                        },
                    ),
                },
            },
        },
        _ => Err(fact_prefix(i) + "] is not an object"@),
    }
}

/// The decoding of the fact list, stopping at the first fact that does not decode.
pub open spec fn facts_of(items: Seq<Json>) -> Result<Seq<FactView>, Seq<char>>
    decreases items.len(),
{
    if items.len() == 0 {
        Ok(Seq::empty())
    } else {
        match facts_of(items.drop_last()) {
            Err(e) => Err(e),
            Ok(s) => match fact_of(items.last(), (items.len() - 1) as nat) {
                Err(e) => Err(e),
                Ok(f) => Ok(s.push(f)),
            },
        }
    }
}

/// The facts of an artifact document requested as the entity `kind`/`name`, or the error:
/// the root must be an object, with a `format_version` no newer than this library's, `kind`
/// and `name` strings that match the request (the kind in any ASCII case), and a `facts`
/// array whose every element decodes. `root_text` is the root's JSON text, quoted when the
/// root is not an object.
pub open spec fn artifact_facts(root: Json, root_text: Seq<char>, kind: Seq<char>, name: Seq<char>) -> Result<
    Seq<FactView>,
    LibraryErrorView,
> {
    match root {
        Json::Object(o) => match json_get(o, "format_version"@) {
            Some(Json::Number(Some(fv), _)) => if fv > ARTIFACT_FORMAT_VERSION {
                Err(
                    LibraryErrorView::UnsupportedFormat(
                        "artifact format_version="@ + decimal(fv as nat) + " exceeds supported version "@ + decimal(
                            ARTIFACT_FORMAT_VERSION as nat,
                        ),
                    ),
                )
            } else {
                match (get_str(o, "kind"@), get_str(o, "name"@)) {
                    (None, _) => Err(LibraryErrorView::Parse("artifact missing 'kind' string"@)),
                    (Some(_), None) => Err(LibraryErrorView::Parse("artifact missing 'name' string"@)),
                    (Some(k), Some(n)) => if lowered(k) != lowered(kind) {
                        Err(LibraryErrorView::Parse("artifact kind mismatch: expected "@ + kind + " got "@ + k))
                    } else if n != name {
                        Err(LibraryErrorView::Parse("artifact name mismatch: expected "@ + name + " got "@ + n))
                    } else {
                        match json_get(o, "facts"@) {
                            Some(Json::Array(items)) => match facts_of(items) {
                                Ok(s) => Ok(s),
                                Err(e) => Err(LibraryErrorView::Parse(e)),
                            },
                            _ => Err(LibraryErrorView::Parse("artifact missing 'facts' array"@)),
                        }
                    },
                }
            },
            _ => Err(LibraryErrorView::Parse("artifact missing or non-integer 'format_version'"@)),
        },
        _ => Err(LibraryErrorView::Parse("artifact root is not an object: "@ + root_text)),
    }
}

/// The value under `key` in an object's entries.
fn object_get<'a>(entries: &'a Vec<(String, JsonValue)>, key: &str) -> (r: Option<&'a JsonValue>)
    ensures
        match r {
            Some(v) => json_get(entries_view(entries@), key@) == Some(v@),
            None => json_get(entries_view(entries@), key@) is None,
        },
{
    let ghost ev = entries_view(entries@);
    proof {
        lemma_entries_view(entries@);
        assert(ev.subrange(0, ev.len() as int) =~= ev);
    }
    let mut i: usize = 0;
    while i < entries.len()
        invariant
            ev == entries_view(entries@),
            ev == entries@.map_values(|e: (String, JsonValue)| (e.0@, json_view(e.1))),
            i <= entries@.len(),
            json_get(ev, key@) == json_get(ev.subrange(i as int, ev.len() as int), key@),
        decreases entries@.len() - i,
    {
        let ghost rest = ev.subrange(i as int, ev.len() as int);
        proof {
            assert(rest[0] == ev[i as int]);
            assert(rest.drop_first() =~= ev.subrange(i + 1, ev.len() as int));
        }
        if str_eq(entries[i].0.as_str(), key) {
            return Some(&entries[i].1);
        }
        i = i + 1;
    }
    None
}

/// The string under `key` in an object's entries.
fn object_get_str<'a>(entries: &'a Vec<(String, JsonValue)>, key: &str) -> (r: Option<&'a String>)
    ensures
        match r {
            Some(s) => get_str(entries_view(entries@), key@) == Some(s@),
            None => get_str(entries_view(entries@), key@) is None,
        },
{
    match object_get(entries, key) {
        Some(JsonValue::String(s)) => Some(s),
        _ => None,
    }
}

fn message(s: &str) -> (r: String)
    ensures
        r@ == s@,
{
    str_to_string(s)
}

/// The decoding of a fact's name, or what is wrong with it.
pub fn parse_name_value(v: &JsonValue) -> (r: Result<SemanticRuntimeValue, String>)
    ensures
        match r {
            Ok(x) => name_of(v@) == Ok::<RuntimeView, Seq<char>>(x@),
            Err(e) => name_of(v@) == Err::<RuntimeView, Seq<char>>(e@),
        },
{
    let o = match v {
        JsonValue::Object(o) => o,
        _ => {
            return Err(message("name is not an object"));
        },
    };
    let k = match object_get_str(o, "kind") {
        Some(k) => k,
        None => {
            return Err(message("name.kind missing"));
        },
    };
    if str_eq(k.as_str(), "identifier") {
        match object_get_str(o, "text") {
            Some(t) => Ok(SemanticRuntimeValue::Identifier(t.clone())),
            None => Err(message("identifier.text missing")),
        }
    } else if str_eq(k.as_str(), "string") {
        match object_get_str(o, "text") {
            Some(t) => Ok(SemanticRuntimeValue::String(t.clone())),
            None => Err(message("string.text missing")),
        }
    } else if str_eq(k.as_str(), "number") {
        match object_get_str(o, "text") {
            Some(t) => Ok(SemanticRuntimeValue::Number(t.clone())),
            None => Err(message("number.text missing")),
        }
    } else if str_eq(k.as_str(), "boolean") {
        match object_get(o, "value") {
            Some(JsonValue::Bool(b)) => Ok(SemanticRuntimeValue::Boolean(*b)),
            _ => Err(message("boolean.value missing")),
        }
    } else if str_eq(k.as_str(), "null") {
        Ok(SemanticRuntimeValue::Null)
    } else if str_eq(k.as_str(), "rule_reference") {
        match object_get_str(o, "text") {
            Some(t) => Ok(SemanticRuntimeValue::RuleReference(t.clone())),
            None => Err(message("rule_reference.text missing")),
        }
    } else {
        let mut m = message("unknown name kind '");
        m.append(k.as_str());
        m.append("'");
        Err(m)
    }
}

/// The decoding of a primitive attribute value; `None` for anything else.
pub fn parse_attribute_value(v: &JsonValue) -> (r: Option<UnifiedSemanticValue>)
    ensures
        match r {
            Some(x) => attribute_value_of(v@) == Some(x@),
            None => attribute_value_of(v@) is None,
        },
{
    let o = match v {
        JsonValue::Object(o) => o,
        _ => {
            return None;
        },
    };
    let k = match object_get_str(o, "kind") {
        Some(k) => k,
        None => {
            return None;
        },
    };
    if str_eq(k.as_str(), "identifier") {
        match object_get_str(o, "text") {
            Some(t) => Some(UnifiedSemanticValue::Identifier(t.clone())),
            None => None,
        }
    } else if str_eq(k.as_str(), "string") {
        match object_get_str(o, "text") {
            Some(t) => Some(UnifiedSemanticValue::String(t.clone())),
            None => None,
        }
    } else if str_eq(k.as_str(), "number") {
        match object_get_str(o, "text") {
            Some(t) => Some(UnifiedSemanticValue::Number(t.clone())),
            None => None,
        }
    } else if str_eq(k.as_str(), "boolean") {
        match object_get(o, "value") {
            Some(JsonValue::Bool(b)) => Some(UnifiedSemanticValue::Boolean(*b)),
            _ => None,
        }
    } else if str_eq(k.as_str(), "null") {
        Some(UnifiedSemanticValue::Null)
    } else {
        None
    }
}

/// The decoding of one attribute entry.
fn parse_attribute(a: &JsonValue) -> (r: Option<UnifiedSemanticProperty>)
    ensures
        match r {
            Some(p) => attribute_of(a@) == Some((p.key@, p.value@)),
            None => attribute_of(a@) is None,
        },
{
    let o = match a {
        JsonValue::Object(o) => o,
        _ => {
            return None;
        },
    };
    let key = match object_get_str(o, "key") {
        Some(k) => k,
        None => {
            return None;
        },
    };
    let value_json = match object_get(o, "value") {
        Some(v) => v,
        None => {
            return None;
        },
    };
    match parse_attribute_value(value_json) {
        Some(value) => Some(UnifiedSemanticProperty { key: key.clone(), value }),
        None => None,
    }
}

/// The attribute entries that decode, in order.
fn parse_attributes(items: &Vec<JsonValue>) -> (r: Vec<UnifiedSemanticProperty>)
    ensures
        props_view(r@) == attributes_of(jsons_view(items@)),
{
    let ghost jv = jsons_view(items@);
    proof {
        lemma_jsons_view(items@);
    }
    let mut out: Vec<UnifiedSemanticProperty> = Vec::new();
    let mut i: usize = 0;
    while i < items.len()
        invariant
            jv == items@.map_values(|v: JsonValue| json_view(v)),
            i <= items@.len(),
            props_view(out@) == attributes_of(jv.take(i as int)),
        decreases items@.len() - i,
    {
        proof {
            assert(jv.take(i + 1).drop_last() =~= jv.take(i as int));
            assert(jv.take(i + 1).last() == items@[i as int]@);
        }
        match parse_attribute(&items[i]) {
            Some(p) => {
                let ghost before = out@;
                out.push(p);
                proof {
                    assert(out@.drop_last() =~= before);
                }
            },
            None => {},
        }
        i = i + 1;
    }
    proof {
        assert(jv.take(i as int) =~= jv);
    }
    out
}

/// The file name of the artifact of the entity `name`: `<name>.facts.json`.
pub fn artifact_file_name(name: &str) -> (r: String)
    ensures
        r@ == name@ + ".facts.json"@,
{
    let mut s = message(name);
    s.append(".facts.json");
    s
}

/// `artifact facts[<i>` followed by `tail`.
fn fact_message(i: usize, tail: &str) -> (r: String)
    ensures
        r@ == fact_prefix(i as nat) + tail@,
{
    let mut m = message("artifact facts[");
    push_decimal(&mut m, i);
    m.append(tail);
    m
}

/// The decoding of the fact at index `i`, or the message saying what is wrong with it.
fn parse_fact(f: &JsonValue, i: usize) -> (r: Result<SemanticFactRecord, String>)
    ensures
        match r {
            Ok(x) => fact_of(f@, i as nat) == Ok::<FactView, Seq<char>>(x@),
            Err(e) => fact_of(f@, i as nat) == Err::<FactView, Seq<char>>(e@),
        },
{
    let o = match f {
        JsonValue::Object(o) => o,
        _ => {
            return Err(fact_message(i, "] is not an object"));
        },
    };
    let kind = match object_get_str(o, "kind") {
        Some(k) => k.clone(),
        None => {
            return Err(fact_message(i, "] missing 'kind'"));
        },
    };
    let name_json = match object_get(o, "name") {
        Some(n) => n,
        None => {
            return Err(fact_message(i, "] missing 'name'"));
        },
    };
    let name = match parse_name_value(name_json) {
        Ok(n) => n,
        Err(e) => {
            let mut m = fact_message(i, "] bad name: ");
            m.append(e.as_str());
            return Err(m);
        },
    };
    let attributes = match object_get(o, "attributes") {
        Some(JsonValue::Array(a)) => parse_attributes(a),
        _ => Vec::new(),
    };
    let scope_id = ScopeId::root();
    Ok(SemanticFactRecord { kind, name, scope_depth: 0, scope_id, attributes })
}

/// Once a prefix of the fact list fails to decode, the whole list fails the same way.
proof fn lemma_facts_of_err(items: Seq<Json>, n: int)
    requires
        0 <= n <= items.len(),
        facts_of(items.take(n)) is Err,
    ensures
        facts_of(items) == facts_of(items.take(n)),
    decreases items.len() - n,
{
    if n < items.len() {
        assert(items.take(n + 1).drop_last() =~= items.take(n));
        lemma_facts_of_err(items, n + 1);
    } else {
        assert(items.take(n) =~= items);
    }
}

/// The facts of an artifact document requested as the entity `expected_kind`/`expected_name`,
/// or the error that refuses it (see [`artifact_facts`]). `root_text` is the root's JSON text,
/// quoted in the error when the root is not an object.
#[verifier::loop_isolation(false)]
pub fn parse_artifact_json(v: &JsonValue, root_text: &str, expected_kind: &str, expected_name: &str) -> (r: Result<
    Vec<SemanticFactRecord>,
    LibraryError,
>)
    ensures
        match r {
            Ok(fs) => artifact_facts(v@, root_text@, expected_kind@, expected_name@) == Ok::<
                Seq<FactView>,
                LibraryErrorView,
            >(facts_view(fs@)),
            Err(e) => artifact_facts(v@, root_text@, expected_kind@, expected_name@) == Err::<
                Seq<FactView>,
                LibraryErrorView,
            >(e@),
        },
{
    let o = match v {
        JsonValue::Object(o) => o,
        _ => {
            let mut m = message("artifact root is not an object: ");
            m.append(root_text);
            return Err(LibraryError::Parse(m));
        },
    };
    let format_version = match object_get(o, "format_version") {
        Some(JsonValue::Number(Some(fv), _)) => *fv,
        _ => {
            return Err(LibraryError::Parse(message("artifact missing or non-integer 'format_version'")));
        },
    };
    if format_version > ARTIFACT_FORMAT_VERSION as u64 {
        let mut m = message("artifact format_version=");
        push_decimal_u64(&mut m, format_version);
        m.append(" exceeds supported version ");
        push_decimal_u64(&mut m, ARTIFACT_FORMAT_VERSION as u64);
        return Err(LibraryError::UnsupportedFormat(m));
    }
    let kind = match object_get_str(o, "kind") {
        Some(k) => k,
        None => {
            return Err(LibraryError::Parse(message("artifact missing 'kind' string")));
        },
    };
    let name = match object_get_str(o, "name") {
        Some(n) => n,
        None => {
            return Err(LibraryError::Parse(message("artifact missing 'name' string")));
        },
    };
    if !eq_ignore_ascii_case(kind.as_str(), expected_kind) {
        let mut m = message("artifact kind mismatch: expected ");
        m.append(expected_kind);
        m.append(" got ");
        m.append(kind.as_str());
        return Err(LibraryError::Parse(m));
    }
    if !str_eq(name.as_str(), expected_name) {
        let mut m = message("artifact name mismatch: expected ");
        m.append(expected_name);
        m.append(" got ");
        m.append(name.as_str());
        return Err(LibraryError::Parse(m));
    }
    let items = match object_get(o, "facts") {
        Some(JsonValue::Array(items)) => items,
        _ => {
            return Err(LibraryError::Parse(message("artifact missing 'facts' array")));
        },
    };
    let ghost jv = jsons_view(items@);
    let mut out: Vec<SemanticFactRecord> = Vec::new();
    proof {
        lemma_jsons_view(items@);
        assert(jv.take(0) =~= Seq::<Json>::empty());
        assert(facts_view(out@) =~= Seq::<FactView>::empty());
    }
    let mut i: usize = 0;
    while i < items.len()
        invariant
            jv == items@.map_values(|x: JsonValue| json_view(x)),
            i <= items@.len(),
            facts_of(jv.take(i as int)) == Ok::<Seq<FactView>, Seq<char>>(facts_view(out@)),
        decreases items@.len() - i,
    {
        proof {
            assert(jv.take(i + 1).drop_last() =~= jv.take(i as int));
            assert(jv.take(i + 1).last() == items@[i as int]@);
        }
        match parse_fact(&items[i], i) {
            Ok(f) => {
                let ghost before = out@;
                out.push(f);
                proof {
                    assert(facts_view(out@) =~= facts_view(before).push(f@));
                }
            },
            Err(e) => {
                proof {
                    lemma_facts_of_err(jv, i + 1);
                }
                return Err(LibraryError::Parse(e));
            },
        }
        i = i + 1;
    }
    proof {
        assert(jv.take(i as int) =~= jv);
    }
    Ok(out)
}

// ---------------------------------------------------------------------------------------------
// What an artifact gives back
// ---------------------------------------------------------------------------------------------

/// The attribute values an artifact keeps: identifiers, strings, numbers, booleans and null.
pub open spec fn is_primitive(v: ValueView) -> bool {
    match v {
        ValueView::Identifier(_) | ValueView::Str(_) | ValueView::Number(_) | ValueView::Boolean(_) | ValueView::Null => true,
        _ => false,
    }
}

/// What an artifact keeps of a fact: its kind, its name and its primitive attributes; the scope
/// is the importer's to set, so the fact reads back at depth 0 in the root scope.
pub open spec fn stored_fact(f: FactView) -> FactView {
    FactView {
        kind: f.kind,
        name: f.name,
        scope_depth: 0,
        scope_id: 0,
        attributes: f.attributes.filter(|p: (Seq<char>, ValueView)| is_primitive(p.1)),
    }
}

proof fn lemma_get_first(a: (Seq<char>, Json), rest: Seq<(Seq<char>, Json)>, key: Seq<char>)
    ensures
        json_get(seq![a] + rest, key) == if a.0 == key {
            Some(a.1)
        } else {
            json_get(rest, key)
        },
{
    assert((seq![a] + rest).drop_first() =~= rest);
}

proof fn lemma_two(a: (Seq<char>, Json), b: (Seq<char>, Json), key: Seq<char>)
    ensures
        json_get(seq![a, b], key) == if a.0 == key {
            Some(a.1)
        } else if b.0 == key {
            Some(b.1)
        } else {
            None::<Json>
        },
{
    lemma_get_first(a, seq![b], key);
    lemma_get_first(b, Seq::empty(), key);
    assert(seq![a, b] =~= seq![a] + seq![b]);
    assert(seq![b] =~= seq![b] + Seq::<(Seq<char>, Json)>::empty());
}

proof fn lemma_kinds_distinct()
    ensures
        "kind"@ != "text"@,
        "kind"@ != "value"@,
        "kind"@ != "name"@,
        "key"@ != "value"@,
        "identifier"@ != "string"@,
        "identifier"@ != "number"@,
        "identifier"@ != "boolean"@,
        "identifier"@ != "null"@,
        "identifier"@ != "rule_reference"@,
        "string"@ != "number"@,
        "string"@ != "boolean"@,
        "string"@ != "null"@,
        "string"@ != "rule_reference"@,
        "number"@ != "boolean"@,
        "number"@ != "null"@,
        "number"@ != "rule_reference"@,
        "boolean"@ != "null"@,
        "boolean"@ != "rule_reference"@,
        "null"@ != "rule_reference"@,
        "object_unsupported_in_artifact_v0"@ != "identifier"@,
        "object_unsupported_in_artifact_v0"@ != "string"@,
        "object_unsupported_in_artifact_v0"@ != "number"@,
        "object_unsupported_in_artifact_v0"@ != "boolean"@,
        "object_unsupported_in_artifact_v0"@ != "null"@,
        "rule_reference_unresolved"@ != "identifier"@,
        "rule_reference_unresolved"@ != "string"@,
        "rule_reference_unresolved"@ != "number"@,
        "rule_reference_unresolved"@ != "boolean"@,
        "rule_reference_unresolved"@ != "null"@,
        "format_version"@ != "kind"@,
        "format_version"@ != "name"@,
        "format_version"@ != "facts"@,
        "kind"@ != "facts"@,
        "name"@ != "facts"@,
        "kind"@ != "attributes"@,
        "name"@ != "attributes"@,
{
    reveal_strlit("kind");
    reveal_strlit("text");
    reveal_strlit("value");
    reveal_strlit("name");
    reveal_strlit("key");
    reveal_strlit("identifier");
    reveal_strlit("string");
    reveal_strlit("number");
    reveal_strlit("boolean");
    reveal_strlit("null");
    reveal_strlit("rule_reference");
    reveal_strlit("object_unsupported_in_artifact_v0");
    reveal_strlit("rule_reference_unresolved");
    reveal_strlit("format_version");
    reveal_strlit("facts");
    reveal_strlit("attributes");
    assert("kind"@.len() == 4);
    assert("text"@.len() == 4);
    assert("value"@.len() == 5);
    assert("name"@.len() == 4);
    assert("key"@.len() == 3);
    assert("identifier"@.len() == 10);
    assert("string"@.len() == 6);
    assert("number"@.len() == 6);
    assert("boolean"@.len() == 7);
    assert("null"@.len() == 4);
    assert("rule_reference"@.len() == 14);
    assert("object_unsupported_in_artifact_v0"@.len() == 33);
    assert("rule_reference_unresolved"@.len() == 25);
    assert("format_version"@.len() == 14);
    assert("facts"@.len() == 5);
    assert("attributes"@.len() == 10);
    assert("kind"@[0] != "text"@[0]);
    assert("kind"@[0] != "name"@[0]);
    assert("string"@[0] != "number"@[0]);
}

/// A name decodes to itself.
proof fn lemma_name_round_trip(r: RuntimeView)
    ensures
        name_of(runtime_json(r)) == Ok::<RuntimeView, Seq<char>>(r),
{
    lemma_kinds_distinct();
    match r {
        RuntimeView::Identifier(t) => lemma_two(("kind"@, Json::Str("identifier"@)), ("text"@, Json::Str(t)), "text"@),
        RuntimeView::Str(t) => lemma_two(("kind"@, Json::Str("string"@)), ("text"@, Json::Str(t)), "text"@),
        RuntimeView::Number(t) => lemma_two(("kind"@, Json::Str("number"@)), ("text"@, Json::Str(t)), "text"@),
        RuntimeView::Boolean(b) => lemma_two(("kind"@, Json::Str("boolean"@)), ("value"@, Json::Bool(b)), "value"@),
        RuntimeView::Null => {},
        RuntimeView::RuleReference(t) => lemma_two(
            ("kind"@, Json::Str("rule_reference"@)),
            ("text"@, Json::Str(t)),
            "text"@,
        ),
    }
}

/// An attribute value decodes to itself where it is primitive, and is dropped otherwise.
proof fn lemma_value_round_trip(v: ValueView)
    ensures
        attribute_value_of(value_json(v)) == if is_primitive(v) {
            Some(v)
        } else {
            None::<ValueView>
        },
{
    lemma_kinds_distinct();
    match v {
        ValueView::Identifier(t) => lemma_two(("kind"@, Json::Str("identifier"@)), ("text"@, Json::Str(t)), "text"@),
        ValueView::Str(t) => lemma_two(("kind"@, Json::Str("string"@)), ("text"@, Json::Str(t)), "text"@),
        ValueView::Number(t) => lemma_two(("kind"@, Json::Str("number"@)), ("text"@, Json::Str(t)), "text"@),
        ValueView::Boolean(b) => lemma_two(("kind"@, Json::Str("boolean"@)), ("value"@, Json::Bool(b)), "value"@),
        ValueView::Null => {},
        ValueView::Array(_) => {},
        ValueView::Object(_) => {},
        ValueView::RuleReference(t) => lemma_two(
            ("kind"@, Json::Str("rule_reference_unresolved"@)),
            ("text"@, Json::Str(t)),
            "kind"@,
        ),
    }
}

/// An attribute decodes to itself where its value is primitive, and is dropped otherwise.
proof fn lemma_attribute_round_trip(p: (Seq<char>, ValueView))
    ensures
        attribute_of(attribute_json(p)) == if is_primitive(p.1) {
            Some(p)
        } else {
            None::<(Seq<char>, ValueView)>
        },
{
    lemma_kinds_distinct();
    lemma_two(("key"@, Json::Str(p.0)), ("value"@, value_json(p.1)), "key"@);
    lemma_two(("key"@, Json::Str(p.0)), ("value"@, value_json(p.1)), "value"@);
    lemma_value_round_trip(p.1);
}

proof fn lemma_attributes_round_trip(s: Seq<(Seq<char>, ValueView)>)
    ensures
        attributes_of(s.map_values(|p: (Seq<char>, ValueView)| attribute_json(p))) == s.filter(
            |p: (Seq<char>, ValueView)| is_primitive(p.1),
        ),
    decreases s.len(),
{
    let enc = s.map_values(|p: (Seq<char>, ValueView)| attribute_json(p));
    if s.len() > 0 {
        lemma_attributes_round_trip(s.drop_last());
        assert(enc.drop_last() =~= s.drop_last().map_values(|p: (Seq<char>, ValueView)| attribute_json(p)));
        lemma_attribute_round_trip(s.last());
        assert(s.drop_last().push(s.last()) =~= s);
        s.drop_last().lemma_filter_push(s.last(), |p: (Seq<char>, ValueView)| is_primitive(p.1));
    } else {
        assert(s.filter(|p: (Seq<char>, ValueView)| is_primitive(p.1)) =~= Seq::<(Seq<char>, ValueView)>::empty()) by {
            reveal(Seq::filter);
        }
    }
}

/// A fact decodes to what the artifact keeps of it.
proof fn lemma_fact_round_trip(f: FactView, i: nat)
    ensures
        fact_of(fact_json(f), i) == Ok::<FactView, Seq<char>>(stored_fact(f)),
{
    lemma_kinds_distinct();
    let attrs = Json::Array(f.attributes.map_values(|p: (Seq<char>, ValueView)| attribute_json(p)));
    let e0 = ("kind"@, Json::Str(f.kind));
    let e1 = ("name"@, runtime_json(f.name));
    let e2 = ("attributes"@, attrs);
    assert(seq![e0, e1, e2] =~= seq![e0] + seq![e1, e2]);
    lemma_get_first(e0, seq![e1, e2], "kind"@);
    lemma_get_first(e0, seq![e1, e2], "name"@);
    lemma_get_first(e0, seq![e1, e2], "attributes"@);
    lemma_two(e1, e2, "name"@);
    lemma_two(e1, e2, "attributes"@);
    lemma_name_round_trip(f.name);
    lemma_attributes_round_trip(f.attributes);
}

proof fn lemma_facts_round_trip(facts: Seq<FactView>)
    ensures
        facts_of(facts.map_values(|f: FactView| fact_json(f))) == Ok::<Seq<FactView>, Seq<char>>(
            facts.map_values(|f: FactView| stored_fact(f)),
        ),
    decreases facts.len(),
{
    let enc = facts.map_values(|f: FactView| fact_json(f));
    if facts.len() > 0 {
        lemma_facts_round_trip(facts.drop_last());
        assert(enc.drop_last() =~= facts.drop_last().map_values(|f: FactView| fact_json(f)));
        lemma_fact_round_trip(facts.last(), (facts.len() - 1) as nat);
        assert(facts.map_values(|f: FactView| stored_fact(f)) =~= facts.drop_last().map_values(
            |f: FactView| stored_fact(f),
        ).push(stored_fact(facts.last())));
    } else {
        assert(facts.map_values(|f: FactView| stored_fact(f)) =~= Seq::<FactView>::empty());
    }
}

/// Reading back an artifact document, requested as the entity it was built for, gives every
/// fact it was built from, in order, as the artifact keeps it: kind and name unchanged, only
/// the primitive attributes, at depth 0 in the root scope.
pub proof fn lemma_artifact_round_trip(kind: Seq<char>, name: Seq<char>, facts: Seq<FactView>, root_text: Seq<char>)
    ensures
        artifact_facts(artifact_json(kind, name, facts), root_text, kind, name) == Ok::<
            Seq<FactView>,
            LibraryErrorView,
        >(facts.map_values(|f: FactView| stored_fact(f))),
{
    lemma_kinds_distinct();
    let e0 = ("format_version"@, Json::Number(Some(ARTIFACT_FORMAT_VERSION as u64), decimal(ARTIFACT_FORMAT_VERSION as nat)));
    let e1 = ("kind"@, Json::Str(kind));
    let e2 = ("name"@, Json::Str(name));
    let e3 = ("facts"@, Json::Array(facts.map_values(|f: FactView| fact_json(f))));
    assert(seq![e0, e1, e2, e3] =~= seq![e0] + (seq![e1] + seq![e2, e3]));
    lemma_get_first(e0, seq![e1] + seq![e2, e3], "format_version"@);
    lemma_get_first(e0, seq![e1] + seq![e2, e3], "kind"@);
    lemma_get_first(e0, seq![e1] + seq![e2, e3], "name"@);
    lemma_get_first(e0, seq![e1] + seq![e2, e3], "facts"@);
    lemma_get_first(e1, seq![e2, e3], "kind"@);
    lemma_get_first(e1, seq![e2, e3], "name"@);
    lemma_get_first(e1, seq![e2, e3], "facts"@);
    lemma_two(e2, e3, "name"@);
    lemma_two(e2, e3, "facts"@);
    lemma_facts_round_trip(facts);
}

} // verus!
