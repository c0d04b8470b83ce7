use kerml_text::ids::{
    AssociationOccurrenceId, ByteRange, DocumentId, ElementId, FactKey, PropertyId, SourceOrigin, SourceRevisionId,
    SyntaxNodeId,
};
use kerml_text::library::LibrarySourceMap;
use kerml_text::retirement::retire_dead_origins;

fn origin(document: u128, node: Option<u128>) -> SourceOrigin {
    SourceOrigin {
        document: DocumentId(document),
        revision: SourceRevisionId(1),
        range: ByteRange { start: 0, end: 4 },
        syntax_node: node.map(SyntaxNodeId),
    }
}

#[test]
fn dead_origins_retire_records_and_occurrences() {
    let element = |n| FactKey::Element(ElementId(n));
    let occurrence = |n| FactKey::AssociationOccurrence(AssociationOccurrenceId(n));
    let property = FactKey::Property { element: ElementId(1), property: PropertyId(9) };
    let ledger = LibrarySourceMap {
        entries: vec![
            (element(1), origin(1, Some(10))),
            (element(2), origin(1, Some(11))),
            (occurrence(3), origin(2, Some(10))),
            (occurrence(4), origin(2, Some(12))),
            (property, origin(1, Some(13))),
            (element(5), origin(1, None)),
        ],
    };
    // Node 10 is live in document 1 only; node 12 is live in document 2.
    let live = vec![(DocumentId(1), SyntaxNodeId(10)), (DocumentId(2), SyntaxNodeId(12))];
    let r = retire_dead_origins(ledger, &live);
    assert_eq!(r.kept.entries, vec![(element(1), origin(1, Some(10))), (occurrence(4), origin(2, Some(12)))]);
    assert_eq!(r.elements, vec![ElementId(2), ElementId(5)]);
    assert_eq!(r.occurrences, vec![AssociationOccurrenceId(3)]);
}

#[test]
fn an_all_live_ledger_is_kept_whole() {
    let ledger = LibrarySourceMap { entries: vec![(FactKey::Element(ElementId(1)), origin(1, Some(1)))] };
    let r = retire_dead_origins(ledger, &vec![(DocumentId(1), SyntaxNodeId(1))]);
    assert_eq!(r.kept.entries.len(), 1);
    assert!(r.elements.is_empty());
    assert!(r.occurrences.is_empty());
    let r = retire_dead_origins(LibrarySourceMap { entries: vec![] }, &vec![]);
    assert!(r.kept.entries.is_empty());
}
