use kerml_text::facade::{audit_input_documents, DocumentMetadata, FacadeMetadata, VerifiedSource, SYSTEMS_DOCUMENTS};
use kerml_text::ids::{
    id, AssociationOccurrenceId, ByteRange, DeclaredOrigin, DocumentId, FactKey, LibraryId, MetaclassId, Origin,
    PropertyId, SourceOrigin, SourceRevisionId, SyntaxNodeId,
};
use kerml_text::model::{
    reproduces_declarations, AssociationOccurrence, ConstructionObligation, ConstructionView, ElementRecord, ElementSet,
    SlotValue, Value,
};
use kerml_text::publication::{
    checked_families, valid_source_origin, SourceDocumentNodes, SourceNodes, SystemsPublicationAudit,
    SystemsPublicationCacheError, SystemsPublicationFamily, SystemsPublicationFinding, SYSTEMS_MANDATORY_REFERENCE_ASSERTIONS,
};

const PROFILE: &str = "sysml-operational-v2";
const FAMILIES: [&str; 13] = [
    "Syntax",
    "CanonicalLowering",
    "NamespacesImports",
    "DefinitionUsage",
    "AttributeItemPart",
    "OccurrenceActionState",
    "CalculationConstraintRequirementCase",
    "PortConnectionInterfaceFlow",
    "ViewMetadata",
    "TypingSpecializationSubsettingRedefinition",
    "MayTimeVary",
    "StandardBindings",
    "IdentityProvenance",
];

fn sources() -> Vec<VerifiedSource> {
    (0..SYSTEMS_DOCUMENTS as u128)
        .map(|n| VerifiedSource {
            document: DocumentId(n + 1),
            path: format!("Systems Library/D{n}.sysml"),
            sha256: format!("sha{n}"),
            revision: SourceRevisionId(100 + n),
            source: "package Café { part def A; }".as_bytes().to_vec(),
        })
        .collect()
}

fn origin(document: u128, start: u64, end: u64) -> SourceOrigin {
    SourceOrigin {
        document: DocumentId(document),
        revision: SourceRevisionId(99 + document),
        range: ByteRange { start, end },
        syntax_node: Some(SyntaxNodeId(7)),
    }
}

fn metadata() -> FacadeMetadata {
    FacadeMetadata {
        format: "agq-sysml-publication-facade/1".to_string(),
        source_content_set: "fixture-set".to_string(),
        roots: vec![id(1)],
        source_map: vec![
            (FactKey::Element(id(1)), origin(1, 0, 7)),
            (FactKey::Element(id(2)), origin(2, 8, 14)),
            (FactKey::Property { element: id(1), property: PropertyId(3) }, origin(1, 0, 29)),
        ],
        documents: sources()
            .iter()
            .map(|source| DocumentMetadata {
                path: source.path.clone(),
                document: source.document,
                sha256: source.sha256.clone(),
                profile: PROFILE.to_string(),
                parsed: true,
                byte_exact: true,
                recovery_count: 0,
                production_count: 1,
                construction_gap: None,
            })
            .collect(),
        mandatory_references: SYSTEMS_MANDATORY_REFERENCE_ASSERTIONS,
        complete_references: SYSTEMS_MANDATORY_REFERENCE_ASSERTIONS,
        checked: FAMILIES.iter().map(|name| (name.to_string(), 1)).collect(),
    }
}

fn validate(metadata: &FacadeMetadata) -> Result<(), SystemsPublicationCacheError> {
    metadata.validate(&sources(), "fixture-set", PROFILE)
}

fn mismatch(reason: &'static str) -> Result<(), SystemsPublicationCacheError> {
    Err(SystemsPublicationCacheError::Mismatch(reason))
}

#[test]
fn systems_metadata_accepts_exact_populations_and_sources() {
    assert_eq!(validate(&metadata()), Ok(()));
}

#[test]
fn systems_metadata_rejects_incomplete_populations_and_stale_sources() {
    let populations = mismatch("facade populations or source map order");
    let mut m = metadata();
    m.format = "agq-sysml-publication-facade/2".to_string();
    assert_eq!(validate(&m), populations);
    let mut m = metadata();
    m.mandatory_references -= 1;
    assert_eq!(validate(&m), populations);
    let mut m = metadata();
    m.documents.pop();
    assert_eq!(validate(&m), populations);
    let mut m = metadata();
    m.documents[3].document = DocumentId(999);
    assert_eq!(validate(&m), populations);
    let mut m = metadata();
    m.roots.clear();
    assert_eq!(validate(&m), populations);
    let mut m = metadata();
    m.roots.push(id(1));
    assert_eq!(validate(&m), populations);
    let mut m = metadata();
    m.source_map.swap(0, 1);
    assert_eq!(validate(&m), populations);
    assert_eq!(metadata().validate(&sources(), "other-set", PROFILE), populations);
    assert_eq!(metadata().validate(&sources()[1..], "fixture-set", PROFILE), populations);

    let status = mismatch("exact document identity or status");
    let mut m = metadata();
    m.documents[4].recovery_count = 1;
    assert_eq!(validate(&m), status);
    let mut m = metadata();
    m.documents[4].sha256 = "stale".to_string();
    assert_eq!(validate(&m), status);
    let mut m = metadata();
    m.documents[4].construction_gap = Some("gap".to_string());
    assert_eq!(validate(&m), status);
    assert_eq!(metadata().validate(&sources(), "fixture-set", "other-profile"), status);

    let provenance = mismatch("source provenance");
    let mut m = metadata();
    m.source_map[0].1.revision = SourceRevisionId(1);
    assert_eq!(validate(&m), provenance);
    let mut m = metadata();
    m.source_map[0].1.syntax_node = None;
    assert_eq!(validate(&m), provenance);
    let mut m = metadata();
    m.source_map[0].1.range = ByteRange { start: 12, end: 14 };
    assert_eq!(validate(&m), provenance, "a range inside a character is no slice");
    let mut m = metadata();
    m.source_map[0].1.range = ByteRange { start: 0, end: 100 };
    assert_eq!(validate(&m), provenance);

    let mut m = metadata();
    m.checked[2].1 = 0;
    assert_eq!(validate(&m), mismatch("checked family population"));
    let mut m = metadata();
    m.checked.pop();
    assert_eq!(validate(&m), mismatch("checked family population"));
}

const SYSTEMS: LibraryId = LibraryId(0x51);

fn declared(library: LibraryId) -> Origin {
    Origin::Declared(DeclaredOrigin::StandardLibrary { library })
}

fn local_graph() -> ConstructionView {
    ConstructionView {
        elements: vec![
            ElementRecord {
                id: id(1),
                metaclass: MetaclassId(9),
                origin: declared(SYSTEMS),
                slots: vec![(PropertyId(3), SlotValue::Scalar(Value::Boolean(true)), declared(SYSTEMS))],
            },
            ElementRecord { id: id(2), metaclass: MetaclassId(9), origin: declared(SYSTEMS), slots: vec![] },
        ],
        occurrences: vec![AssociationOccurrence {
            id: AssociationOccurrenceId(4),
            association: MetaclassId(8),
            ends: vec![],
            positions: vec![],
            origin: declared(SYSTEMS),
        }],
        obligations: vec![],
        containment: vec![],
    }
}

fn set(ids: &[u128]) -> ElementSet {
    let mut s = ElementSet::new();
    for &n in ids {
        s.insert(id(n));
    }
    s
}

fn graph_metadata() -> FacadeMetadata {
    let mut m = metadata();
    m.source_map.push((FactKey::AssociationOccurrence(AssociationOccurrenceId(4)), origin(1, 0, 7)));
    m
}

#[test]
fn facade_source_map_covers_exactly_the_local_graph() {
    let m = graph_metadata();
    let model = set(&[1, 2, 100]);
    let dependency = set(&[100]);
    assert_eq!(m.validate_graph(&local_graph(), &dependency, &model, SYSTEMS), Ok(()));
    // A root that belongs to the dependency, or is absent from the model.
    let mut foreign_root = graph_metadata();
    foreign_root.roots = vec![id(100)];
    assert_eq!(
        foreign_root.validate_graph(&local_graph(), &dependency, &model, SYSTEMS),
        mismatch("source map graph provenance")
    );
    let mut missing_root = graph_metadata();
    missing_root.roots = vec![id(5)];
    assert_eq!(
        missing_root.validate_graph(&local_graph(), &dependency, &model, SYSTEMS),
        mismatch("source map graph provenance")
    );
    // A fact declared by another library, or not in the local graph at all.
    assert_eq!(
        m.validate_graph(&local_graph(), &dependency, &model, LibraryId(0x52)),
        mismatch("source map graph provenance")
    );
    let mut extra = graph_metadata();
    extra.source_map.push((FactKey::AssociationOccurrence(AssociationOccurrenceId(5)), origin(1, 0, 7)));
    assert_eq!(extra.validate_graph(&local_graph(), &dependency, &model, SYSTEMS), mismatch("source map graph provenance"));
    // A local fact the source map leaves out.
    let mut incomplete = graph_metadata();
    incomplete.source_map.remove(2);
    assert_eq!(
        incomplete.validate_graph(&local_graph(), &dependency, &model, SYSTEMS),
        mismatch("complete declared source map")
    );
    let mut no_occurrence = graph_metadata();
    no_occurrence.source_map.pop();
    assert_eq!(
        no_occurrence.validate_graph(&local_graph(), &dependency, &model, SYSTEMS),
        mismatch("complete declared source map")
    );
}

#[test]
fn persisted_family_counts_are_read_in_family_order() {
    let entries: Vec<(String, usize)> = FAMILIES.iter().rev().enumerate().map(|(i, name)| (name.to_string(), i + 1)).collect();
    let families = checked_families(&entries).unwrap();
    assert_eq!(families.len(), FAMILIES.len());
    assert_eq!(families[0], (SystemsPublicationFamily::Syntax, FAMILIES.len()));
    assert_eq!(families[FAMILIES.len() - 1], (SystemsPublicationFamily::IdentityProvenance, 1));
    let missing: Vec<(String, usize)> = entries[1..].to_vec();
    assert_eq!(checked_families(&missing), Err(SystemsPublicationCacheError::Mismatch("checked family population")));
}

#[test]
fn source_origins_are_valid_only_at_exact_nodes() {
    let nodes = SourceNodes {
        documents: vec![SourceDocumentNodes {
            document: DocumentId(1),
            revision: SourceRevisionId(100),
            nodes: vec![(SyntaxNodeId(7), ByteRange { start: 0, end: 7 })],
        }],
    };
    assert!(valid_source_origin(&origin(1, 0, 7), &nodes));
    assert!(!valid_source_origin(&origin(1, 0, 8), &nodes));
    assert!(!valid_source_origin(&origin(2, 0, 7), &nodes));
    let mut no_node = origin(1, 0, 7);
    no_node.syntax_node = None;
    assert!(!valid_source_origin(&no_node, &nodes));
    let mut other_revision = origin(1, 0, 7);
    other_revision.revision = SourceRevisionId(5);
    assert!(!valid_source_origin(&other_revision, &nodes));
}

fn document_findings(audit: &SystemsPublicationAudit) -> Vec<(String, String)> {
    audit
        .findings
        .iter()
        .filter_map(|f| match f {
            SystemsPublicationFinding::Document { path, reason } => Some((path.clone(), reason.clone())),
            _ => None,
        })
        .collect()
}

#[test]
fn candidate_documents_count_syntax_and_lowering_when_exact() {
    let docs = metadata().documents;
    let mut audit = SystemsPublicationAudit::default();
    audit_input_documents(&docs, &sources(), PROFILE, &mut audit);
    assert!(audit.findings.is_empty());
    assert_eq!(audit.checked.get(SystemsPublicationFamily::Syntax), Some(SYSTEMS_DOCUMENTS));
    assert_eq!(audit.checked.get(SystemsPublicationFamily::CanonicalLowering), Some(SYSTEMS_DOCUMENTS));
    assert_eq!(audit.checked.get(SystemsPublicationFamily::IdentityProvenance), None);

    let mut docs = metadata().documents;
    docs[2].construction_gap = Some("unsupported construct".to_string());
    docs[5].byte_exact = false;
    docs.pop();
    let mut audit = SystemsPublicationAudit::default();
    audit_input_documents(&docs, &sources(), PROFILE, &mut audit);
    assert!(matches!(audit.findings[0], SystemsPublicationFinding::Identity("exact 21 Systems documents")));
    assert_eq!(
        document_findings(&audit),
        vec![
            (docs[2].path.clone(), "unsupported construct".to_string()),
            (docs[5].path.clone(), "strict operational parse or original byte identity failed".to_string()),
        ]
    );
    assert_eq!(audit.checked.get(SystemsPublicationFamily::Syntax), Some(SYSTEMS_DOCUMENTS - 3));
}

#[test]
fn reconstruction_must_reproduce_restored_declarations() {
    assert!(reproduces_declarations(&local_graph(), &local_graph()));
    let mut changed = local_graph();
    changed.elements[0].slots[0].1 = SlotValue::Scalar(Value::Boolean(false));
    assert!(!reproduces_declarations(&changed, &local_graph()));
    let mut fewer = local_graph();
    fewer.occurrences.clear();
    assert!(!reproduces_declarations(&fewer, &local_graph()));
    let mut open = local_graph();
    open.obligations.push(ConstructionObligation { element: id(1), property: PropertyId(3), actual: 0 });
    assert!(!reproduces_declarations(&open, &local_graph()));
    let mut relabeled = local_graph();
    relabeled.elements[1].origin = Origin::Derived;
    assert!(!reproduces_declarations(&relabeled, &local_graph()));
}
