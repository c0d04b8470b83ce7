use kerml_text::frontier::{
    changed_document_syntax, DeclaredFact, FrontierDocument, FrontierSource, SourceEditFrontier, SyntaxNodeShape,
    SyntaxSnapshot,
};
use kerml_text::ids::{
    id, ByteRange, DeclaredOrigin, DocumentId, FactKey, LibraryId, MetaclassId, Origin, PropertyId, SourceRevisionId,
    SyntaxNodeId,
};
use kerml_text::model::{SlotValue, Value};

fn node(n: u128, kind: u16, start: u64, end: u64, children: &[u128]) -> SyntaxNodeShape {
    SyntaxNodeShape {
        id: SyntaxNodeId(n),
        kind,
        range: ByteRange::new(start, end).unwrap(),
        children: children.iter().map(|c| SyntaxNodeId(*c)).collect(),
    }
}

const SOURCE: &str = "package P { part def A; part def B; }";

fn snapshot(source: &str, nodes: Vec<SyntaxNodeShape>) -> SyntaxSnapshot {
    SyntaxSnapshot { source: source.as_bytes().to_vec(), nodes }
}

fn parsed(source: &str) -> SyntaxSnapshot {
    snapshot(source, vec![node(1, 1, 0, 37, &[2, 3]), node(2, 2, 12, 23, &[]), node(3, 2, 24, 35, &[])])
}

#[test]
fn retained_syntax_reports_content_range_and_children_changes() {
    let before = parsed(SOURCE);
    assert!(changed_document_syntax(&before, &before).is_empty());

    let same_width = parsed("package P { part def C; part def B; }");
    assert_eq!(changed_document_syntax(&before, &same_width), vec![SyntaxNodeId(1), SyntaxNodeId(2)]);

    let replaced_child = snapshot(SOURCE, vec![node(1, 1, 0, 37, &[2, 4]), node(2, 2, 12, 23, &[]), node(4, 2, 24, 35, &[])]);
    assert_eq!(changed_document_syntax(&before, &replaced_child), vec![SyntaxNodeId(1)]);

    let shifted = snapshot(
        "package P { part def Longer; part def B; }",
        vec![node(1, 1, 0, 42, &[2, 3]), node(2, 2, 12, 28, &[]), node(3, 2, 29, 40, &[])],
    );
    assert_eq!(changed_document_syntax(&before, &shifted), vec![SyntaxNodeId(1), SyntaxNodeId(2), SyntaxNodeId(3)]);

    let rekinded = snapshot(SOURCE, vec![node(1, 1, 0, 37, &[2, 3]), node(2, 2, 12, 23, &[]), node(3, 9, 24, 35, &[])]);
    assert_eq!(changed_document_syntax(&before, &rekinded), vec![SyntaxNodeId(3)]);
}

fn declared() -> Origin {
    Origin::Declared(DeclaredOrigin::Authored { source: None })
}

fn document(n: u128, revision: u128, syntax: Option<SyntaxSnapshot>) -> FrontierDocument {
    FrontierDocument { id: DocumentId(n), revision: SourceRevisionId(revision), syntax }
}

fn compilation(first_revision: u128, with_second: bool, third: bool, name: &str) -> FrontierSource {
    let mut documents = vec![document(1, first_revision, Some(parsed(SOURCE)))];
    if with_second {
        documents.push(document(2, 20, None));
    }
    if third {
        documents.push(document(3, 30, Some(snapshot("x", vec![node(9, 1, 0, 1, &[])]))));
    }
    let mut facts = vec![
        (FactKey::Element(id(1)), DeclaredFact::Element(MetaclassId(5), declared())),
        (
            FactKey::Property { element: id(1), property: PropertyId(7) },
            DeclaredFact::Slot(SlotValue::Scalar(Value::String(name.to_string())), declared()),
        ),
    ];
    if with_second {
        facts.push((FactKey::Element(id(2)), DeclaredFact::Element(MetaclassId(5), declared())));
    }
    if third {
        facts.push((FactKey::Element(id(3)), DeclaredFact::Element(MetaclassId(6), declared())));
    }
    FrontierSource { documents, facts }
}

#[test]
fn first_compilation_reports_everything_as_added() {
    let next = compilation(10, true, false, "a");
    let frontier = SourceEditFrontier::between(None, &next);
    assert_eq!(frontier.source_revisions.len(), 2);
    assert_eq!(frontier.source_revisions.get(&DocumentId(1)), Some((None, Some(SourceRevisionId(10)))));
    assert_eq!(frontier.syntax_nodes_added.len(), 3);
    assert_eq!(frontier.syntax_nodes_removed.len(), 0);
    assert_eq!(frontier.syntax_nodes_changed.len(), 0);
    assert_eq!(frontier.declared_facts_added.len(), 3);
    assert_eq!(frontier.declared_facts_removed.len(), 0);
    assert_eq!(frontier.declared_facts_changed.len(), 0);
}

#[test]
fn identical_compilations_have_an_empty_frontier() {
    let a = compilation(10, true, false, "a");
    let b = compilation(10, true, false, "a");
    let frontier = SourceEditFrontier::between(Some(&a), &b);
    assert_eq!(frontier.source_revisions.len(), 0);
    assert_eq!(frontier.syntax_nodes_added.len(), 0);
    assert_eq!(frontier.syntax_nodes_removed.len(), 0);
    assert_eq!(frontier.syntax_nodes_changed.len(), 0);
    assert_eq!(frontier.declared_facts_added.len(), 0);
    assert_eq!(frontier.declared_facts_removed.len(), 0);
    assert_eq!(frontier.declared_facts_changed.len(), 0);
}

#[test]
fn edits_report_revisions_syntax_and_declared_facts() {
    let before = compilation(10, true, false, "a");
    let mut after = compilation(11, false, true, "b");
    after.documents[0].syntax = Some(parsed("package P { part def C; part def B; }"));
    let frontier = SourceEditFrontier::between(Some(&before), &after);
    assert_eq!(frontier.source_revisions.len(), 3);
    assert_eq!(
        frontier.source_revisions.get(&DocumentId(1)),
        Some((Some(SourceRevisionId(10)), Some(SourceRevisionId(11))))
    );
    assert_eq!(frontier.source_revisions.get(&DocumentId(2)), Some((Some(SourceRevisionId(20)), None)));
    assert_eq!(frontier.source_revisions.get(&DocumentId(3)), Some((None, Some(SourceRevisionId(30)))));
    assert!(frontier.syntax_nodes_added.contains(&SyntaxNodeId(9)));
    assert_eq!(frontier.syntax_nodes_added.len(), 1);
    assert_eq!(frontier.syntax_nodes_removed.len(), 0);
    assert!(frontier.syntax_nodes_changed.contains(&SyntaxNodeId(1)));
    assert!(frontier.syntax_nodes_changed.contains(&SyntaxNodeId(2)));
    assert!(!frontier.syntax_nodes_changed.contains(&SyntaxNodeId(3)));
    assert!(frontier.declared_facts_added.contains(&FactKey::Element(id(3))));
    assert!(frontier.declared_facts_removed.contains(&FactKey::Element(id(2))));
    assert!(frontier
        .declared_facts_changed
        .contains(&FactKey::Property { element: id(1), property: PropertyId(7) }));
    assert!(!frontier.declared_facts_changed.contains(&FactKey::Element(id(1))));
    assert_eq!(frontier.declared_facts_changed.len(), 1);
}

#[test]
fn a_changed_fact_origin_counts_as_a_change() {
    let before = compilation(10, false, false, "a");
    let mut after = compilation(10, false, false, "a");
    after.facts[0].1 = DeclaredFact::Element(MetaclassId(5), Origin::Declared(DeclaredOrigin::StandardLibrary { library: LibraryId(1) }));
    let frontier = SourceEditFrontier::between(Some(&before), &after);
    assert!(frontier.declared_facts_changed.contains(&FactKey::Element(id(1))));
    assert_eq!(frontier.declared_facts_changed.len(), 1);
}
