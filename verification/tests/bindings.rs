use kerml_text::bindings::{binding_source, check_binding_manifest, check_binding_sources, BindingDocument};
use kerml_text::corrections::LibraryLoadError;
use kerml_text::ids::{ByteRange, DocumentId, ElementId, FactKey, LibraryId, SourceOrigin, SourceRevisionId};
use kerml_text::json::{JsonNumber, JsonValue};
use kerml_text::library::LibrarySourceMap;

fn message<T>(result: Result<T, LibraryLoadError>) -> Option<String> {
    match result {
        Err(LibraryLoadError::Interpretation(m)) => Some(m),
        _ => None,
    }
}

fn origin(document: u128, revision: u128) -> SourceOrigin {
    SourceOrigin {
        document: DocumentId(document),
        revision: SourceRevisionId(revision),
        range: ByteRange { start: 3, end: 9 },
        syntax_node: None,
    }
}

fn documents() -> Vec<BindingDocument> {
    vec![
        BindingDocument { document: DocumentId(1), revision: SourceRevisionId(10), library: LibraryId(100) },
        BindingDocument { document: DocumentId(2), revision: SourceRevisionId(20), library: LibraryId(200) },
    ]
}

#[test]
fn binding_sources_must_identify_the_publication() {
    assert!(check_binding_sources(true).is_ok());
    assert_eq!(
        message(check_binding_sources(false)),
        Some("Binding sources do not identify this accepted publication".to_string())
    );
}

#[test]
fn bound_elements_trace_to_their_verified_documents() {
    let map = LibrarySourceMap {
        entries: vec![
            (FactKey::Element(ElementId(5)), origin(2, 20)),
            (FactKey::Element(ElementId(6)), origin(3, 30)),
            (FactKey::Element(ElementId(7)), origin(1, 11)),
            (FactKey::Element(ElementId(8)), origin(1, 10)),
        ],
    };
    let docs = documents();
    assert_eq!(binding_source("Base", ElementId(5), LibraryId(200), &map, &docs).ok(), Some((origin(2, 20), 1)));
    assert_eq!(
        message(binding_source("Anything", ElementId(9), LibraryId(200), &map, &docs)),
        Some("Missing accepted source for Anything".to_string())
    );
    assert_eq!(
        message(binding_source("Things", ElementId(6), LibraryId(200), &map, &docs)),
        Some("Missing source document for Things".to_string())
    );
    assert_eq!(
        message(binding_source("Base", ElementId(7), LibraryId(100), &map, &docs)),
        Some("Accepted source identity mismatch for Base".to_string())
    );
    assert_eq!(
        message(binding_source("Base", ElementId(8), LibraryId(200), &map, &docs)),
        Some("Accepted source identity mismatch for Base".to_string())
    );
    assert_eq!(binding_source("Base", ElementId(8), LibraryId(100), &map, &docs).ok(), Some((origin(1, 10), 0)));
}

#[test]
fn manifests_compare_structurally() {
    let object = |fields: Vec<(&str, JsonValue)>| {
        JsonValue::Object(fields.into_iter().map(|(k, v)| (k.to_string(), v)).collect())
    };
    let generated = object(vec![
        ("format", JsonValue::String("agq-kerml-accepted-bindings/2".to_string())),
        ("entries", JsonValue::Array(vec![JsonValue::Number(JsonNumber::PosInt(1))])),
    ]);
    let reordered = object(vec![
        ("entries", JsonValue::Array(vec![JsonValue::Number(JsonNumber::PosInt(1))])),
        ("format", JsonValue::String("agq-kerml-accepted-bindings/2".to_string())),
    ]);
    let stale = object(vec![
        ("entries", JsonValue::Array(vec![])),
        ("format", JsonValue::String("agq-kerml-accepted-bindings/2".to_string())),
    ]);
    assert!(check_binding_manifest(&generated, &reordered).is_ok());
    assert_eq!(
        message(check_binding_manifest(&generated, &stale)),
        Some("Accepted KerML binding manifest is stale".to_string())
    );
}

#[test]
fn a_generated_manifest_passes_its_own_check() {
    let generated = JsonValue::Object(vec![
        ("format".to_string(), JsonValue::String("agq-kerml-accepted-bindings/2".to_string())),
        (
            "entries".to_string(),
            JsonValue::Array(vec![JsonValue::Object(vec![
                ("role".to_string(), JsonValue::String("Base::Anything".to_string())),
                ("line".to_string(), JsonValue::Number(JsonNumber::PosInt(3))),
            ])]),
        ),
    ]);
    assert!(check_binding_manifest(&generated, &generated).is_ok());
}
