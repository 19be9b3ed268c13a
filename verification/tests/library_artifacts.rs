use pgen_grammar::artifact_text::{artifact_text, parse_artifact_text};
use pgen_grammar::library::{
    artifact_document, artifact_file_name, build_artifact_json, is_exportable_fact_kind, parse_artifact_json,
    parse_attribute_value, parse_name_value, runtime_value_to_json, semantic_value_to_json, JsonValue, LibraryError,
    ScopeId, SemanticFactRecord, SemanticRuntimeValue, UnifiedSemanticProperty, UnifiedSemanticValue,
};

fn sample_fact(name: &str, family: &str) -> SemanticFactRecord {
    SemanticFactRecord {
        kind: "type_name".to_string(),
        name: SemanticRuntimeValue::Identifier(name.to_string()),
        scope_depth: 0,
        scope_id: ScopeId::root(),
        attributes: vec![UnifiedSemanticProperty {
            key: "declaration_family".to_string(),
            value: UnifiedSemanticValue::Identifier(family.to_string()),
        }],
    }
}

fn entry(k: &str, v: JsonValue) -> (String, JsonValue) {
    (k.to_string(), v)
}

fn jstr(s: &str) -> JsonValue {
    JsonValue::String(s.to_string())
}

fn header(version: u64, kind: &str, name: &str, facts: Vec<JsonValue>) -> JsonValue {
    JsonValue::Object(vec![
        entry("format_version", JsonValue::Number(Some(version), version.to_string())),
        entry("kind", jstr(kind)),
        entry("name", jstr(name)),
        entry("facts", JsonValue::Array(facts)),
    ])
}

fn parse_message(r: Result<Vec<SemanticFactRecord>, LibraryError>) -> String {
    match r {
        Err(LibraryError::Parse(m)) => m,
        other => panic!("expected a parse error, got {:?}", other),
    }
}

#[test]
fn artifact_roundtrip_preserves_type_name_facts() {
    let facts = vec![sample_fact("el2_trigger_pkt_t", "typedef"), sample_fact("el2_lsu_pkt_t", "typedef")];
    let doc = artifact_document("package", "el2_pkg", &facts);
    let read = parse_artifact_json(&doc, "", "package", "el2_pkg").expect("read");
    assert_eq!(read.len(), 2);
    assert_eq!(read[0].kind, "type_name");
    assert_eq!(read[0].name, SemanticRuntimeValue::Identifier("el2_trigger_pkt_t".to_string()));
    assert_eq!(read[0].attributes.len(), 1);
}

#[test]
fn non_exportable_kinds_are_filtered_on_write() {
    let facts = vec![
        sample_fact("el2_trigger_pkt_t", "typedef"),
        SemanticFactRecord {
            kind: "package_name".to_string(),
            name: SemanticRuntimeValue::Identifier("el2_pkg".to_string()),
            scope_depth: 0,
            scope_id: ScopeId::root(),
            attributes: vec![],
        },
    ];
    let doc = artifact_document("package", "el2_pkg", &facts);
    let read = parse_artifact_json(&doc, "", "package", "el2_pkg").expect("read");
    assert_eq!(read.len(), 1, "only type_name should survive v0 filter");
    assert_eq!(read[0].kind, "type_name");
}

#[test]
fn artifact_kind_or_name_mismatch_is_parse_error() {
    let facts = vec![sample_fact("x", "typedef")];
    let doc = artifact_document("package", "p1", &facts);
    let err = parse_artifact_json(&doc, "", "package", "p2").expect_err("expect err");
    assert!(matches!(err, LibraryError::Parse(_)));
    assert_eq!(err.message(), "artifact name mismatch: expected p2 got p1");
    let err = parse_artifact_json(&doc, "", "module", "p1").expect_err("expect err");
    assert_eq!(err.message(), "artifact kind mismatch: expected module got package");
}

#[test]
fn artifact_kind_matches_in_any_ascii_case() {
    let doc = artifact_document("Package", "p", &[sample_fact("x", "typedef")]);
    let read = parse_artifact_json(&doc, "", "PACKAGE", "p").expect("read");
    assert_eq!(read.len(), 1);
}

#[test]
fn read_facts_land_in_the_root_scope() {
    let mut f = sample_fact("x", "typedef");
    f.scope_depth = 3;
    f.scope_id = ScopeId { id: 7 };
    let doc = artifact_document("package", "p", &[f]);
    let read = parse_artifact_json(&doc, "", "package", "p").expect("read");
    assert_eq!(read[0].scope_depth, 0);
    assert_eq!(read[0].scope_id, ScopeId::root());
    assert_eq!(ScopeId::root().id, 0);
}

#[test]
fn exportable_kinds_ignore_ascii_case() {
    assert!(is_exportable_fact_kind("type_name"));
    assert!(is_exportable_fact_kind("TYPE_Name"));
    assert!(!is_exportable_fact_kind("package_name"));
    assert!(!is_exportable_fact_kind("type_names"));
}

#[test]
fn the_document_has_the_artifact_layout() {
    let f = sample_fact("t", "typedef");
    let doc = build_artifact_json("package", "p", &[&f]);
    let expected_fact = JsonValue::Object(vec![
        entry("kind", jstr("type_name")),
        entry("name", JsonValue::Object(vec![entry("kind", jstr("identifier")), entry("text", jstr("t"))])),
        entry(
            "attributes",
            JsonValue::Array(vec![JsonValue::Object(vec![
                entry("key", jstr("declaration_family")),
                entry("value", JsonValue::Object(vec![entry("kind", jstr("identifier")), entry("text", jstr("typedef"))])),
            ])]),
        ),
    ]);
    assert_eq!(doc, header(1, "package", "p", vec![expected_fact]));
    assert_eq!(artifact_file_name("el2_pkg"), "el2_pkg.facts.json");
}

#[test]
fn only_primitive_attributes_survive_a_round_trip() {
    let f = SemanticFactRecord {
        kind: "type_name".to_string(),
        name: SemanticRuntimeValue::Number("42".to_string()),
        scope_depth: 0,
        scope_id: ScopeId::root(),
        attributes: vec![
            UnifiedSemanticProperty { key: "b".into(), value: UnifiedSemanticValue::Boolean(true) },
            UnifiedSemanticProperty {
                key: "arr".into(),
                value: UnifiedSemanticValue::Array(vec![UnifiedSemanticValue::Null]),
            },
            UnifiedSemanticProperty { key: "obj".into(), value: UnifiedSemanticValue::Object(vec![]) },
            UnifiedSemanticProperty { key: "rr".into(), value: UnifiedSemanticValue::RuleReference("r".into()) },
            UnifiedSemanticProperty { key: "n".into(), value: UnifiedSemanticValue::Null },
        ],
    };
    let doc = artifact_document("package", "p", &[f]);
    let read = parse_artifact_json(&doc, "", "package", "p").expect("read");
    assert_eq!(read[0].name, SemanticRuntimeValue::Number("42".to_string()));
    let keys: Vec<&str> = read[0].attributes.iter().map(|p| p.key.as_str()).collect();
    assert_eq!(keys, vec!["b", "n"]);
    assert_eq!(read[0].attributes[0].value, UnifiedSemanticValue::Boolean(true));
}

#[test]
fn attribute_values_encode_as_tagged_objects() {
    let arr = UnifiedSemanticValue::Array(vec![UnifiedSemanticValue::String("s".into()), UnifiedSemanticValue::Null]);
    assert_eq!(
        semantic_value_to_json(&arr),
        JsonValue::Array(vec![
            JsonValue::Object(vec![entry("kind", jstr("string")), entry("text", jstr("s"))]),
            JsonValue::Object(vec![entry("kind", jstr("null"))]),
        ])
    );
    assert_eq!(
        semantic_value_to_json(&UnifiedSemanticValue::Object(vec![])),
        JsonValue::Object(vec![entry("kind", jstr("object_unsupported_in_artifact_v0"))])
    );
    assert_eq!(
        semantic_value_to_json(&UnifiedSemanticValue::RuleReference("r".into())),
        JsonValue::Object(vec![entry("kind", jstr("rule_reference_unresolved")), entry("text", jstr("r"))])
    );
    let b = JsonValue::Object(vec![entry("kind", jstr("boolean")), entry("value", JsonValue::Bool(false))]);
    assert_eq!(parse_attribute_value(&b), Some(UnifiedSemanticValue::Boolean(false)));
    assert_eq!(parse_attribute_value(&JsonValue::Array(vec![])), None);
}

#[test]
fn every_name_variant_round_trips() {
    let names = vec![
        SemanticRuntimeValue::Identifier("i".into()),
        SemanticRuntimeValue::String("s".into()),
        SemanticRuntimeValue::Number("1".into()),
        SemanticRuntimeValue::Boolean(true),
        SemanticRuntimeValue::Null,
        SemanticRuntimeValue::RuleReference("r".into()),
    ];
    for n in names {
        assert_eq!(parse_name_value(&runtime_value_to_json(&n)), Ok(n.clone()));
    }
}

#[test]
fn bad_names_are_explained() {
    assert_eq!(parse_name_value(&JsonValue::Null), Err("name is not an object".to_string()));
    assert_eq!(parse_name_value(&JsonValue::Object(vec![])), Err("name.kind missing".to_string()));
    let weird = JsonValue::Object(vec![entry("kind", jstr("weird"))]);
    assert_eq!(parse_name_value(&weird), Err("unknown name kind 'weird'".to_string()));
    let no_text = JsonValue::Object(vec![entry("kind", jstr("string"))]);
    assert_eq!(parse_name_value(&no_text), Err("string.text missing".to_string()));
    let doc = header(1, "package", "p", vec![JsonValue::Object(vec![entry("kind", jstr("type_name")), entry("name", weird)])]);
    assert_eq!(
        parse_message(parse_artifact_json(&doc, "", "package", "p")),
        "artifact facts[0] bad name: unknown name kind 'weird'"
    );
}

#[test]
fn malformed_documents_are_parse_errors() {
    assert_eq!(
        parse_message(parse_artifact_json(&JsonValue::Array(vec![]), "[]", "package", "p")),
        "artifact root is not an object: []"
    );
    let no_version = JsonValue::Object(vec![entry("kind", jstr("package"))]);
    assert_eq!(
        parse_message(parse_artifact_json(&no_version, "", "package", "p")),
        "artifact missing or non-integer 'format_version'"
    );
    let negative = JsonValue::Object(vec![entry("format_version", JsonValue::Number(None, "-1".to_string()))]);
    assert_eq!(
        parse_message(parse_artifact_json(&negative, "", "package", "p")),
        "artifact missing or non-integer 'format_version'"
    );
    let no_kind = JsonValue::Object(vec![entry("format_version", JsonValue::Number(Some(1), "1".to_string()))]);
    assert_eq!(parse_message(parse_artifact_json(&no_kind, "", "package", "p")), "artifact missing 'kind' string");
    let no_name = JsonValue::Object(vec![
        entry("format_version", JsonValue::Number(Some(0), "0".to_string())),
        entry("kind", jstr("package")),
    ]);
    assert_eq!(parse_message(parse_artifact_json(&no_name, "", "package", "p")), "artifact missing 'name' string");
    let no_facts = JsonValue::Object(vec![
        entry("format_version", JsonValue::Number(Some(1), "1".to_string())),
        entry("kind", jstr("package")),
        entry("name", jstr("p")),
    ]);
    assert_eq!(parse_message(parse_artifact_json(&no_facts, "", "package", "p")), "artifact missing 'facts' array");
    let second_bad = header(1, "package", "p", vec![
        JsonValue::Object(vec![entry("kind", jstr("type_name")), entry("name", JsonValue::Object(vec![entry("kind", jstr("null"))]))]),
        jstr("oops"),
    ]);
    assert_eq!(parse_message(parse_artifact_json(&second_bad, "", "package", "p")), "artifact facts[1] is not an object");
    let no_fact_kind = header(1, "package", "p", vec![JsonValue::Object(vec![])]);
    assert_eq!(parse_message(parse_artifact_json(&no_fact_kind, "", "package", "p")), "artifact facts[0] missing 'kind'");
    let no_fact_name = header(1, "package", "p", vec![JsonValue::Object(vec![entry("kind", jstr("type_name"))])]);
    assert_eq!(parse_message(parse_artifact_json(&no_fact_name, "", "package", "p")), "artifact facts[0] missing 'name'");
}

#[test]
fn newer_format_versions_are_refused() {
    let doc = header(2, "package", "p", vec![]);
    let err = parse_artifact_json(&doc, "", "package", "p").expect_err("newer");
    assert_eq!(err, LibraryError::UnsupportedFormat("artifact format_version=2 exceeds supported version 1".to_string()));
    let empty = header(1, "package", "p", vec![]);
    assert_eq!(parse_artifact_json(&empty, "", "package", "p"), Ok(vec![]));
}

#[test]
fn artifact_text_round_trips_through_json() {
    let facts = vec![sample_fact("el2_trigger_pkt_t", "typedef"), sample_fact("el2_lsu_pkt_t", "typedef")];
    let text = artifact_text("package", "el2_pkg", &facts).expect("serialise");
    assert!(text.contains("\"format_version\": 1"));
    let read = parse_artifact_text("lib/package/el2_pkg.facts.json", &text, "package", "el2_pkg").expect("read");
    assert_eq!(read.len(), 2);
    assert_eq!(read[1].name, SemanticRuntimeValue::Identifier("el2_lsu_pkt_t".to_string()));
    let err = parse_artifact_text("p.json", "{not json", "package", "x").expect_err("bad text");
    assert!(err.message().starts_with("artifact p.json is not valid JSON: "), "{err:?}");
    let err = parse_artifact_text("p.json", "[1, 2]", "package", "x").expect_err("array root");
    assert_eq!(err, LibraryError::Parse("artifact root is not an object: [1,2]".to_string()));
}

#[test]
fn a_root_that_is_a_number_is_quoted_as_written() {
    let err = parse_artifact_text("p.json", "-1.5", "package", "x").expect_err("number root");
    assert_eq!(err, LibraryError::Parse("artifact root is not an object: -1.5".to_string()));
    let err = parse_artifact_text("p.json", "[2.5, -3]", "package", "x").expect_err("array root");
    assert_eq!(err, LibraryError::Parse("artifact root is not an object: [2.5,-3]".to_string()));
}
