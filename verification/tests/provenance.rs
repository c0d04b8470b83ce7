use kerml_text::ids::{
    id, AssociationOccurrenceId, ByteRange, DeclaredOrigin, DocumentId, FactKey, LibraryId, MetaclassId, Origin,
    PropertyId, SourceOrigin, SourceRevisionId, SyntaxNodeId,
};
use kerml_text::library::LibrarySourceMap;
use kerml_text::model::{AssociationOccurrence, ConstructionView, ElementRecord, SlotValue, Value};
use kerml_text::provenance::audit_local_provenance;
use kerml_text::publication::{
    SourceDocumentNodes, SourceNodes, SystemsPublicationAudit, SystemsPublicationFamily, SystemsPublicationFinding,
};

const SYSTEMS: LibraryId = LibraryId(0x51);

fn declared() -> Origin {
    Origin::Declared(DeclaredOrigin::StandardLibrary { library: SYSTEMS })
}

fn evidence(node: u128) -> SourceOrigin {
    SourceOrigin {
        document: DocumentId(1),
        revision: SourceRevisionId(10),
        range: ByteRange { start: 0, end: 4 },
        syntax_node: Some(SyntaxNodeId(node)),
    }
}

#[test]
fn local_facts_are_audited_in_order() {
    let local = ConstructionView {
        elements: vec![
            ElementRecord {
                id: id(1),
                metaclass: MetaclassId(9),
                origin: declared(),
                slots: vec![
                    (PropertyId(3), SlotValue::Scalar(Value::Boolean(true)), declared()),
                    (PropertyId(4), SlotValue::Scalar(Value::Integer(2)), Origin::Derived),
                ],
            },
            ElementRecord { id: id(2), metaclass: MetaclassId(9), origin: declared(), slots: vec![] },
        ],
        occurrences: vec![AssociationOccurrence {
            id: AssociationOccurrenceId(5),
            association: MetaclassId(8),
            ends: vec![],
            positions: vec![],
            origin: declared(),
        }],
        obligations: vec![],
        containment: vec![],
    };
    let property = |p: u128| FactKey::Property { element: id(1), property: PropertyId(p) };
    let source_map = LibrarySourceMap {
        entries: vec![
            (FactKey::Element(id(1)), evidence(7)),
            (property(3), evidence(7)),
            (property(4), evidence(7)),
            // Evidence at a node the syntax arena does not have.
            (FactKey::Element(id(2)), evidence(8)),
            (FactKey::AssociationOccurrence(AssociationOccurrenceId(5)), evidence(7)),
        ],
    };
    let nodes = SourceNodes {
        documents: vec![SourceDocumentNodes {
            document: DocumentId(1),
            revision: SourceRevisionId(10),
            nodes: vec![(SyntaxNodeId(7), ByteRange { start: 0, end: 4 })],
        }],
    };
    let mut audit = SystemsPublicationAudit::default();
    audit_local_provenance(&local, &declared(), &source_map, &nodes, &mut audit);
    assert_eq!(audit.checked.get(SystemsPublicationFamily::IdentityProvenance), Some(3));
    let findings: Vec<FactKey> = audit
        .findings
        .iter()
        .map(|f| match f {
            SystemsPublicationFinding::Provenance(fact) => *fact,
            other => panic!("unexpected {other:?}"),
        })
        .collect();
    assert_eq!(findings, vec![property(4), FactKey::Element(id(2))]);
}
