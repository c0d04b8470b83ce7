use kerml_text::corrections::{
    parse_i64, uuid, CorrectionDocument, CorrectionInputs, LibraryCorrectionEntry, LibraryLoadError,
    LibraryPatchOperation, OperationalLibraryPatchSet, PatchElement, PatchValue, PinnedElementSelector,
    PlannedOrigin,
};
use kerml_text::ids::{
    id, ByteRange, DeclaredOrigin, DocumentId, ElementId, FactKey, LibraryId, MetaclassId, Origin, PropertyId,
    SourceOrigin, SourceRevisionId,
};
use kerml_text::library::{LibrarySourceMap, PendingLibraryReference, QualifiedName};
use kerml_text::model::{ConstructionView, ElementRecord, SlotValue, Value};
use kerml_text::text::identity_text;

const LIBRARY: LibraryId = LibraryId(0x11);
const ELEMENT_ID: PropertyId = PropertyId(0x3ff);

fn u(n: u128) -> String {
    identity_text(n)
}

fn library_origin() -> Origin {
    Origin::Declared(DeclaredOrigin::StandardLibrary { library: LIBRARY })
}

fn inputs() -> CorrectionInputs {
    let record = ElementRecord {
        id: id(0x100),
        metaclass: MetaclassId(0x200),
        origin: library_origin(),
        slots: vec![
            (PropertyId(0x300), SlotValue::Scalar(Value::Boolean(false)), library_origin()),
            (PropertyId(0x301), SlotValue::Ordered(vec![Value::Reference(id(0x100))]), library_origin()),
            (PropertyId(0x302), SlotValue::Scalar(Value::Integer(1)), library_origin()),
        ],
    };
    let source = SourceOrigin {
        document: DocumentId(1),
        revision: SourceRevisionId(2),
        range: ByteRange::new(4, 8).unwrap(),
        syntax_node: None,
    };
    CorrectionInputs {
        profile_accepts: true,
        content_set_id: "fixture-set".to_string(),
        documents: vec![CorrectionDocument {
            document: DocumentId(1),
            path: "Kernel.kerml".to_string(),
            sha256: "abc".to_string(),
            library: LIBRARY,
            origin: DeclaredOrigin::StandardLibrary { library: LIBRARY },
        }],
        model: ConstructionView { elements: vec![record], occurrences: vec![], obligations: vec![], containment: vec![] },
        source_map: LibrarySourceMap { entries: vec![(FactKey::Element(id(0x100)), source)] },
        references: vec![reference(0x300), reference(0x302)],
        element_id_property: ELEMENT_ID,
    }
}

fn reference(property: u128) -> PendingLibraryReference {
    PendingLibraryReference {
        relationship: id(0x100),
        property: PropertyId(property),
        expected: MetaclassId(0x200),
        name: QualifiedName { absolute: false, segments: vec!["Target".to_string()] },
        membership_target: false,
        executable_expression: false,
        origin: SourceOrigin {
            document: DocumentId(1),
            revision: SourceRevisionId(2),
            range: ByteRange::new(4, 8).unwrap(),
            syntax_node: None,
        },
    }
}

fn selector() -> PinnedElementSelector {
    PinnedElementSelector {
        id: u(0x100),
        document: "Kernel.kerml".to_string(),
        sha256: "abc".to_string(),
        range: [4, 8],
        metaclass: u(0x200),
    }
}

fn pinned(key: &str) -> PatchElement {
    PatchElement::Pinned(key.to_string())
}

fn operations() -> Vec<LibraryPatchOperation> {
    vec![
        LibraryPatchOperation::Create { key: "new".to_string(), metaclass: u(0x202) },
        LibraryPatchOperation::SetValue {
            key: "s1".to_string(),
            element: pinned("target"),
            property: u(0x300),
            value: PatchValue::Boolean(true),
        },
        LibraryPatchOperation::Append {
            key: "a1".to_string(),
            element: pinned("target"),
            property: u(0x301),
            target: PatchElement::Output("new".to_string()),
        },
        LibraryPatchOperation::Reclassify { key: "r1".to_string(), element: pinned("target"), metaclass: u(0x201) },
    ]
}

fn patch_set(operations: Vec<LibraryPatchOperation>) -> OperationalLibraryPatchSet {
    OperationalLibraryPatchSet {
        profile_id: "operational-v3".to_string(),
        library_set: "fixture-set".to_string(),
        selectors: vec![("target".to_string(), selector())],
        entries: vec![LibraryCorrectionEntry {
            id: "E1".to_string(),
            document: "Kernel.kerml".to_string(),
            authority: vec!["review".to_string()],
            operations,
        }],
    }
}

fn message(result: Result<kerml_text::corrections::CorrectionPlan, LibraryLoadError>) -> String {
    match result {
        Err(LibraryLoadError::Interpretation(m)) => m,
        Err(LibraryLoadError::Syntax(m)) => format!("syntax {m}"),
        Ok(_) => "accepted".to_string(),
    }
}

fn reviewed_key(origin: &PlannedOrigin) -> Option<String> {
    match origin {
        PlannedOrigin::Reviewed(r) => Some(r.output_key.clone()),
        PlannedOrigin::Kept(_) => None,
    }
}

#[test]
fn reviewed_identities_parse_every_uuid_form() {
    let value = 0x550e8400e29b41d4a716446655440000u128;
    assert_eq!(uuid("550e8400-e29b-41d4-a716-446655440000").ok(), Some(value));
    assert_eq!(uuid("550e8400e29b41d4a716446655440000").ok(), Some(value));
    assert_eq!(uuid("{550e8400-e29b-41d4-a716-446655440000}").ok(), Some(value));
    assert_eq!(uuid("urn:uuid:550E8400-E29B-41D4-A716-446655440000").ok(), Some(value));
    assert!(matches!(
        uuid("not-a-uuid"),
        Err(LibraryLoadError::Interpretation(m)) if m == "Invalid reviewed semantic identity"
    ));
    assert!(uuid("").is_err());
}

#[test]
fn identity_text_is_lowercase_hyphenated_hex() {
    assert_eq!(identity_text(0x550e8400e29b41d4a716446655440000), "550e8400-e29b-41d4-a716-446655440000");
    assert_eq!(identity_text(0), "00000000-0000-0000-0000-000000000000");
    assert_eq!(identity_text(u128::MAX), "ffffffff-ffff-ffff-ffff-ffffffffffff");
    assert_eq!(uuid(&identity_text(0x1234)).ok(), Some(0x1234));
}

#[test]
fn correction_integers_follow_decimal_i64_syntax() {
    for text in [
        "42", "-42", "+7", "", "-", "+", "0", "-0", "00012", "1_000", " 1", "1 ", "9223372036854775807",
        "9223372036854775808", "-9223372036854775808", "-9223372036854775809", "+-1", "99999999999999999999999",
    ] {
        assert_eq!(parse_i64(text), text.parse::<i64>().ok(), "{text:?}");
    }
}

#[test]
fn output_identities_are_name_based_in_a_private_namespace() {
    let set = patch_set(vec![]);
    let expected = uuid::Uuid::new_v5(
        &uuid::Uuid::from_u128(0x802a939427b154e9b496e1d88bd98722),
        &serde_json::to_vec(&(
            "agentique-operational-library-output/1",
            "operational-v3",
            "fixture-set",
            identity_text(LIBRARY.0),
            "E1",
            "new",
        ))
        .unwrap(),
    )
    .as_u128();
    assert_eq!(set.output_id(LIBRARY, "E1", "new"), ElementId::from_u128(expected));
    assert_ne!(set.output_id(LIBRARY, "E1", "new"), set.output_id(LIBRARY, "E1", "other"));
    assert_ne!(set.output_id(LIBRARY, "E1", "new"), set.output_id(LibraryId(0x12), "E1", "new"));
}

#[test]
fn corrections_plan_reviewed_changes_with_separate_provenance() {
    let set = patch_set(operations());
    let plan = set.apply(&inputs()).unwrap();
    let output = set.output_id(LIBRARY, "E1", "new");
    let (class, origin) = plan.creates.get(&id(0x100)).unwrap();
    assert_eq!(class, MetaclassId(0x201));
    assert_eq!(reviewed_key(&origin).as_deref(), Some("r1"));
    let (class, origin) = plan.output_creates.get(&output).unwrap();
    assert_eq!(class, MetaclassId(0x202));
    assert_eq!(reviewed_key(&origin).as_deref(), Some("new"));
    match plan.corrected_slots.get(&(id(0x100), PropertyId(0x300))).unwrap() {
        (SlotValue::Scalar(Value::Boolean(true)), origin) => assert_eq!(reviewed_key(&origin).as_deref(), Some("s1")),
        other => panic!("{other:?}"),
    }
    match plan.corrected_slots.get(&(id(0x100), PropertyId(0x301))).unwrap() {
        (SlotValue::Ordered(values), _) => {
            assert!(matches!(values.as_slice(), [Value::Reference(a), Value::Reference(b)] if *a == id(0x100) && *b == output))
        }
        other => panic!("{other:?}"),
    }
    match plan.corrected_slots.get(&(output, ELEMENT_ID)).unwrap() {
        (SlotValue::Scalar(Value::String(text)), _) => assert_eq!(text, identity_text(output.0)),
        other => panic!("{other:?}"),
    }
    assert!(plan.kept_slots.get(&(id(0x100), PropertyId(0x300))).is_none());
    match plan.kept_slots.get(&(id(0x100), PropertyId(0x302))).unwrap() {
        (SlotValue::Scalar(Value::Integer(1)), PlannedOrigin::Kept(_)) => {}
        other => panic!("{other:?}"),
    }
    assert_eq!(plan.references.len(), 1);
    assert_eq!(plan.references[0].property, PropertyId(0x302));
    assert_eq!(plan.superseded_references.len(), 1);
    assert_eq!(plan.superseded_references[0].property, PropertyId(0x300));
    match plan.creates.get(&id(0x100)).unwrap().1 {
        PlannedOrigin::Reviewed(r) => {
            assert_eq!(r.source_key, "Kernel.kerml#sha256:abc");
            assert_eq!(r.entry, "E1");
            assert_eq!(r.profile, "operational-v3");
            assert_eq!(r.authority, vec!["review".to_string()]);
            assert_eq!(r.library, LIBRARY);
        }
        other => panic!("{other:?}"),
    }
}

#[test]
fn an_empty_patch_set_keeps_every_declared_fact() {
    let plan = patch_set(vec![]).apply(&inputs()).unwrap();
    assert!(matches!(plan.creates.get(&id(0x100)), Some((MetaclassId(0x200), PlannedOrigin::Kept(_)))));
    assert_eq!(plan.kept_slots.len(), 3);
    assert_eq!(plan.corrected_slots.len(), 0);
    assert_eq!(plan.output_creates.len(), 0);
    assert_eq!(plan.references.len(), 2);
    assert!(plan.superseded_references.is_empty());
}

#[test]
fn profile_and_content_set_must_match() {
    let mut refused = inputs();
    refused.profile_accepts = false;
    assert_eq!(message(patch_set(operations()).apply(&refused)), "Correction profile or exact library content set mismatch");
    let mut other = inputs();
    other.content_set_id = "other".to_string();
    assert_eq!(message(patch_set(operations()).apply(&other)), "Correction profile or exact library content set mismatch");
}

#[test]
fn selectors_pin_identity_source_digest_range_metaclass_and_origin() {
    let mut set = patch_set(operations());
    set.selectors[0].1.sha256 = "other".to_string();
    assert_eq!(message(set.apply(&inputs())), "Reviewed selector mismatch: target");
    let mut set = patch_set(operations());
    set.selectors[0].1.range = [4, 9];
    assert_eq!(message(set.apply(&inputs())), "Reviewed selector mismatch: target");
    let mut set = patch_set(operations());
    set.selectors[0].1.metaclass = u(0x999);
    assert_eq!(message(set.apply(&inputs())), "Reviewed selector mismatch: target");
    let mut set = patch_set(operations());
    set.selectors[0].1.metaclass = "bad".to_string();
    assert_eq!(message(set.apply(&inputs())), "Invalid reviewed semantic identity");
    let mut set = patch_set(operations());
    set.selectors[0].1.id = u(0x101);
    assert_eq!(message(set.apply(&inputs())), "Missing patch input target");
    let mut set = patch_set(operations());
    set.selectors[0].1.id = "bad".to_string();
    assert_eq!(message(set.apply(&inputs())), "Invalid reviewed semantic identity");
    let mut unsourced = inputs();
    unsourced.source_map.entries.clear();
    assert_eq!(message(patch_set(operations()).apply(&unsourced)), "Patch input lacks pinned source");
    let mut undocumented = inputs();
    undocumented.documents[0].document = DocumentId(9);
    assert_eq!(message(patch_set(operations()).apply(&undocumented)), "Patch source document missing");
    let mut authored = inputs();
    authored.model.elements[0].origin = Origin::Declared(DeclaredOrigin::Authored { source: None });
    assert_eq!(message(patch_set(operations()).apply(&authored)), "Reviewed selector mismatch: target");
}

#[test]
fn entries_need_a_verified_document_and_authority() {
    let mut set = patch_set(operations());
    set.entries[0].document = "Missing.kerml".to_string();
    assert_eq!(message(set.apply(&inputs())), "Correction document missing");
    let mut set = patch_set(operations());
    set.entries[0].authority.clear();
    assert_eq!(message(set.apply(&inputs())), "Correction authority missing");
}

#[test]
fn operations_are_checked_before_any_plan_is_returned() {
    let mut ops = operations();
    ops.push(LibraryPatchOperation::Create { key: "new".to_string(), metaclass: u(0x202) });
    assert_eq!(message(patch_set(ops).apply(&inputs())), "Correction output identity collision");
    let mut ops = operations();
    ops.push(LibraryPatchOperation::Reclassify { key: "s1".to_string(), element: pinned("target"), metaclass: u(0x201) });
    assert_eq!(message(patch_set(ops).apply(&inputs())), "Duplicate correction operation key");
    let mut ops = operations();
    ops.push(LibraryPatchOperation::SetValue {
        key: "s2".to_string(),
        element: pinned("target"),
        property: u(0x300),
        value: PatchValue::Boolean(false),
    });
    assert_eq!(message(patch_set(ops).apply(&inputs())), "Repeated correction slot replacement");
    let ops = vec![LibraryPatchOperation::Append {
        key: "a".to_string(),
        element: pinned("target"),
        property: u(0x300),
        target: pinned("target"),
    }];
    assert_eq!(message(patch_set(ops).apply(&inputs())), "Append requires ordered canonical storage");
    let ops = vec![LibraryPatchOperation::Reclassify {
        key: "r".to_string(),
        element: PatchElement::Output("nope".to_string()),
        metaclass: u(0x201),
    }];
    assert_eq!(message(patch_set(ops).apply(&inputs())), "Unknown correction reference");
    let ops = vec![LibraryPatchOperation::SetValue {
        key: "i".to_string(),
        element: pinned("target"),
        property: u(0x302),
        value: PatchValue::Integer("12x".to_string()),
    }];
    assert_eq!(message(patch_set(ops).apply(&inputs())), "Invalid correction Integer");
    let ops = vec![LibraryPatchOperation::SetValue {
        key: "e".to_string(),
        element: pinned("target"),
        property: u(0x302),
        value: PatchValue::Enumeration("bad".to_string()),
    }];
    assert_eq!(message(patch_set(ops).apply(&inputs())), "Invalid reviewed semantic identity");
    let mut derived = inputs();
    derived.model.elements[0].slots[2].2 = Origin::Derived;
    assert_eq!(message(patch_set(operations()).apply(&derived)), "Correction input slot must be declared");
}

#[test]
fn set_values_convert_each_patch_value_kind() {
    let ops = vec![
        LibraryPatchOperation::SetValue {
            key: "i".to_string(),
            element: pinned("target"),
            property: u(0x302),
            value: PatchValue::Integer("-17".to_string()),
        },
        LibraryPatchOperation::SetValue {
            key: "e".to_string(),
            element: pinned("target"),
            property: u(0x303),
            value: PatchValue::Enumeration(u(0x777)),
        },
        LibraryPatchOperation::SetValue {
            key: "t".to_string(),
            element: pinned("target"),
            property: u(0x304),
            value: PatchValue::String("text".to_string()),
        },
    ];
    let plan = patch_set(ops).apply(&inputs()).unwrap();
    assert!(matches!(
        plan.corrected_slots.get(&(id(0x100), PropertyId(0x302))),
        Some((SlotValue::Scalar(Value::Integer(-17)), _))
    ));
    assert!(matches!(
        plan.corrected_slots.get(&(id(0x100), PropertyId(0x303))),
        Some((SlotValue::Scalar(Value::Enumeration(e)), _)) if e.0 == 0x777
    ));
    assert!(matches!(
        plan.corrected_slots.get(&(id(0x100), PropertyId(0x304))),
        Some((SlotValue::Scalar(Value::String(s)), _)) if s == "text"
    ));
    assert_eq!(plan.kept_slots.len(), 2);
}

#[test]
fn uuid_forms_follow_the_parser_exactly() {
    let value = 0x550e8400e29b41d4a716446655440000u128;
    assert_eq!(uuid("URN:UUID:550e8400-e29b-41d4-a716-446655440000").ok(), Some(value));
    assert_eq!(uuid("550E8400E29B41D4A716446655440000").ok(), Some(value));
    // Wrong hyphen positions, wrong wrapping, a wrong prefix, stray characters.
    assert!(uuid("550e8400e-29b-41d4-a716-446655440000").is_err());
    assert!(uuid("(550e8400-e29b-41d4-a716-446655440000)").is_err());
    assert!(uuid("urn:uuix:550e8400-e29b-41d4-a716-446655440000").is_err());
    assert!(uuid("550e8400-e29b-41d4-a716-44665544000g").is_err());
    assert!(uuid("550e8400-e29b-41d4-a716-4466554400é").is_err());
    assert!(uuid("{550e8400e29b41d4a716446655440000}").is_err());
}

#[test]
fn output_identities_escape_entry_and_key_as_json() {
    let set = patch_set(vec![]);
    for (entry, key) in [("E\"1", "new\n"), ("Ä\\", "\u{1}\t"), ("/", "\u{7f}")] {
        let expected = uuid::Uuid::new_v5(
            &uuid::Uuid::from_u128(0x802a939427b154e9b496e1d88bd98722),
            &serde_json::to_vec(&(
                "agentique-operational-library-output/1",
                "operational-v3",
                "fixture-set",
                identity_text(LIBRARY.0),
                entry,
                key,
            ))
            .unwrap(),
        )
        .as_u128();
        assert_eq!(set.output_id(LIBRARY, entry, key), ElementId::from_u128(expected));
    }
}

#[test]
fn patch_sets_hold_selectors_and_authorities_in_strict_name_order() {
    let mut set = patch_set(operations());
    assert!(set.is_well_formed());
    set.selectors.push(("alpha".to_string(), selector()));
    assert!(!set.is_well_formed());
    set.selectors.swap(0, 1);
    assert!(set.is_well_formed());
    set.selectors.push(("target".to_string(), selector()));
    assert!(!set.is_well_formed());
    let mut set = patch_set(operations());
    set.entries[0].authority = vec!["a".to_string(), "b".to_string()];
    assert!(set.is_well_formed());
    set.entries[0].authority = vec!["b".to_string(), "a".to_string()];
    assert!(!set.is_well_formed());
    set.entries[0].authority = vec!["a".to_string(), "a".to_string()];
    assert!(!set.is_well_formed());
}
