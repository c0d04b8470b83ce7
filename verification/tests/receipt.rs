use kerml_text::json::{json_equal, member, JsonNumber, JsonValue};
use kerml_text::publication::SystemsPublicationCacheError;
use kerml_text::receipt::{check_interpretation, check_receipt_documents, ReceiptInterpretation};

const FORMAT: &str = "agq-sysml-accepted-publication/1";

fn digest(n: u64) -> JsonValue {
    JsonValue::Array(vec![JsonValue::Number(JsonNumber::PosInt(n))])
}

fn text(s: &str) -> JsonValue {
    JsonValue::String(s.to_string())
}

fn identity_fields() -> Vec<(String, JsonValue)> {
    vec![
        ("publication_digest".to_string(), digest(1)),
        ("semantic_digest".to_string(), digest(2)),
        ("accepted_kerml_digest".to_string(), digest(3)),
        ("systems_kpar".to_string(), text("fixture-kpar")),
        ("systems_source_content_set".to_string(), digest(4)),
        ("operational_profile".to_string(), text("fixture-profile")),
        ("rule_set".to_string(), text("fixture-rules")),
        ("producer_registry_digest".to_string(), digest(5)),
        ("producer_closure_digest".to_string(), digest(6)),
    ]
}

fn binding_fields() -> Vec<(String, JsonValue)> {
    let mut fields: Vec<(String, JsonValue)> =
        identity_fields().into_iter().filter(|(k, _)| k != "publication_digest").collect();
    fields.push(("accepted_systems_digest".to_string(), digest(1)));
    fields.push(("format".to_string(), text("agq-sysml-accepted-bindings/1")));
    fields.push(("source_content_set".to_string(), text("fixture-sources")));
    fields
}

fn without(fields: Vec<(String, JsonValue)>, field: &str) -> JsonValue {
    JsonValue::Object(fields.into_iter().filter(|(k, _)| k != field).collect())
}

fn changed(fields: Vec<(String, JsonValue)>, field: &str) -> JsonValue {
    JsonValue::Object(
        fields.into_iter().map(|(k, v)| if k == field { (k, text("changed")) } else { (k, v) }).collect(),
    )
}

fn check(format: &str, sources: &str, identity: &JsonValue, bindings: &JsonValue) -> Result<(), SystemsPublicationCacheError> {
    check_receipt_documents(format, sources, identity, bindings)
}

#[test]
fn systems_receipt_schema_rejects_missing_or_mismatched_fields() {
    let identity = JsonValue::Object(identity_fields());
    let bindings = JsonValue::Object(binding_fields());
    check(FORMAT, "fixture-sources", &identity, &bindings).unwrap();
    assert!(check("other-format", "fixture-sources", &identity, &bindings).is_err());
    assert!(check(FORMAT, "other-sources", &identity, &bindings).is_err());
    for (field, _) in binding_fields() {
        assert!(
            check(FORMAT, "fixture-sources", &identity, &without(binding_fields(), &field)).is_err(),
            "missing binding field {field}"
        );
        assert!(
            check(FORMAT, "fixture-sources", &identity, &changed(binding_fields(), &field)).is_err(),
            "changed binding field {field}"
        );
    }
    for (field, _) in identity_fields() {
        let missing = without(identity_fields(), &field);
        assert!(check(FORMAT, "fixture-sources", &missing, &bindings).is_err(), "missing receipt field {field}");
        assert!(
            check(FORMAT, "fixture-sources", &changed(identity_fields(), &field), &bindings).is_err(),
            "changed receipt field {field}"
        );
        let binding = if field == "publication_digest" { "accepted_systems_digest" } else { field.as_str() };
        let absent_both = without(binding_fields(), binding);
        assert!(
            check(FORMAT, "fixture-sources", &missing, &absent_both).is_err(),
            "matching omissions {field} must not count as identity agreement"
        );
    }
}

#[test]
fn receipt_errors_separate_schema_from_identity() {
    let identity = JsonValue::Object(identity_fields());
    let bindings = JsonValue::Object(binding_fields());
    assert_eq!(
        check("other-format", "fixture-sources", &identity, &bindings),
        Err(SystemsPublicationCacheError::Mismatch("receipt document schema"))
    );
    assert_eq!(
        check(FORMAT, "fixture-sources", &identity, &without(binding_fields(), "format")),
        Err(SystemsPublicationCacheError::Mismatch("receipt document schema"))
    );
    assert_eq!(
        check(FORMAT, "fixture-sources", &changed(identity_fields(), "rule_set"), &bindings),
        Err(SystemsPublicationCacheError::Mismatch("receipt binding identity"))
    );
    assert_eq!(
        check(FORMAT, "fixture-sources", &JsonValue::Null, &bindings),
        Err(SystemsPublicationCacheError::Mismatch("receipt binding identity"))
    );
    let mut explicit_null = identity_fields();
    explicit_null[6].1 = JsonValue::Null;
    let mut null_binding = binding_fields();
    for entry in null_binding.iter_mut() {
        if entry.0 == "rule_set" {
            entry.1 = JsonValue::Null;
        }
    }
    assert!(check(FORMAT, "fixture-sources", &JsonValue::Object(explicit_null), &JsonValue::Object(null_binding)).is_err());
}

#[test]
fn json_equality_ignores_member_order_but_not_number_kind() {
    let a = JsonValue::Object(vec![("x".to_string(), digest(1)), ("y".to_string(), text("t"))]);
    let b = JsonValue::Object(vec![("y".to_string(), text("t")), ("x".to_string(), digest(1))]);
    assert!(json_equal(&a, &b));
    let c = JsonValue::Object(vec![("y".to_string(), text("t")), ("x".to_string(), digest(2))]);
    assert!(!json_equal(&a, &c));
    let d = JsonValue::Object(vec![("x".to_string(), digest(1))]);
    assert!(!json_equal(&a, &d));
    assert!(!json_equal(
        &JsonValue::Number(JsonNumber::PosInt(1)),
        &JsonValue::Number(JsonNumber::FloatBits(1.0f64.to_bits()))
    ));
    assert!(json_equal(&JsonValue::Array(vec![]), &JsonValue::Array(vec![])));
    assert!(!json_equal(&JsonValue::Array(vec![]), &JsonValue::Null));
    assert!(matches!(member(&a, "y"), Some(JsonValue::String(s)) if s == "t"));
    assert!(member(&a, "z").is_none());
    assert!(member(&JsonValue::Null, "x").is_none());
}

fn interpretation() -> ReceiptInterpretation {
    ReceiptInterpretation {
        entry_names: vec!["kernel.jsonl".to_string(), "closure.json".to_string(), "facade.json".to_string()],
        publication_format: FORMAT.to_string(),
        receipt_source_content_set: "fixture-sources".to_string(),
        identity: JsonValue::Object(identity_fields()),
        bindings: JsonValue::Object(binding_fields()),
        sources_content_set: "fixture-sources".to_string(),
        kerml_source_content_set: "fixture-sources".to_string(),
        kerml_semantic_digest: [3; 32],
        contract_kerml_digest: [3; 32],
        library_archive_sha256: Some("fixture-kpar".to_string()),
        contract_artifact_sha256: "fixture-kpar".to_string(),
        accepted_kerml_digest: digest(3),
        systems_kpar: text("fixture-kpar"),
        systems_source_content_set: digest(4),
        operational_profile: text("fixture-profile"),
        rule_set: text("fixture-rules"),
        grammar_compatibility_manifest: JsonValue::Null,
        semantic_correction_manifest: JsonValue::Null,
        combined_descriptor_graph: JsonValue::Null,
    }
}

#[test]
fn receipt_interpretation_checks_entries_documents_dependencies_and_fields_in_order() {
    assert_eq!(check_interpretation(&interpretation()), Ok(()));
    let mut x = interpretation();
    x.entry_names.pop();
    assert_eq!(check_interpretation(&x), Err(SystemsPublicationCacheError::Mismatch("receipt archive entries")));
    let mut x = interpretation();
    x.entry_names.push("receipt.json".to_string());
    assert_eq!(check_interpretation(&x), Err(SystemsPublicationCacheError::Mismatch("receipt archive entries")));
    let mut x = interpretation();
    x.entry_names.push("kernel.jsonl".to_string());
    assert_eq!(check_interpretation(&x), Ok(()), "the entry population is a set");
    let mut x = interpretation();
    x.publication_format = "other".to_string();
    assert_eq!(check_interpretation(&x), Err(SystemsPublicationCacheError::Mismatch("receipt document schema")));
    let mut x = interpretation();
    x.sources_content_set = "other".to_string();
    x.kerml_source_content_set = "other".to_string();
    assert_eq!(
        check_interpretation(&x),
        Err(SystemsPublicationCacheError::Mismatch("verified source or dependency identity"))
    );
    let mut x = interpretation();
    x.library_archive_sha256 = None;
    assert_eq!(
        check_interpretation(&x),
        Err(SystemsPublicationCacheError::Mismatch("verified source or dependency identity"))
    );
    let mut x = interpretation();
    x.contract_kerml_digest[31] = 0;
    assert_eq!(
        check_interpretation(&x),
        Err(SystemsPublicationCacheError::Mismatch("verified source or dependency identity"))
    );
    let mut x = interpretation();
    x.systems_kpar = text("other");
    x.rule_set = text("other");
    assert_eq!(check_interpretation(&x), Err(SystemsPublicationCacheError::Mismatch("systems_kpar")));
    let mut x = interpretation();
    x.combined_descriptor_graph = digest(9);
    assert_eq!(check_interpretation(&x), Err(SystemsPublicationCacheError::Mismatch("combined_descriptor_graph")));
}
