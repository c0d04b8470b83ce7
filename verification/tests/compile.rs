use kerml_text::compile::{
    check_history, choose_frontier, record_declared_origins, FrontierKind, InputDocument, Omissions, SyntaxDiagnostic,
};
use kerml_text::corrections::LibraryLoadError;
use kerml_text::ids::{
    AssociationOccurrenceId, ByteRange, DocumentId, ElementId, FactKey, ProjectId, PropertyId, SourceOrigin,
    SourceRevisionId,
};
use kerml_text::library::LibrarySourceMap;
use kerml_text::source::{CompilationWork, DocumentStatus};

fn interpretation<T>(result: Result<T, LibraryLoadError>) -> Option<String> {
    match result {
        Err(LibraryLoadError::Interpretation(message)) => Some(message),
        _ => None,
    }
}

fn origin(document: u128) -> SourceOrigin {
    SourceOrigin {
        document: DocumentId(document),
        revision: SourceRevisionId(1),
        range: ByteRange { start: 0, end: 1 },
        syntax_node: None,
    }
}

#[test]
fn only_own_histories_continue() {
    assert!(check_history(ProjectId(1), None).is_ok());
    assert!(check_history(ProjectId(1), Some((ProjectId(1), true))).is_ok());
    let foreign = Some("foreign source compilation history".to_string());
    assert_eq!(interpretation(check_history(ProjectId(1), Some((ProjectId(2), true)))), foreign);
    assert_eq!(interpretation(check_history(ProjectId(1), Some((ProjectId(1), false)))), foreign);
}

#[test]
fn unparsed_documents_are_omitted_with_diagnostics() {
    let documents = vec![
        InputDocument { id: DocumentId(1), revision: SourceRevisionId(10), status: DocumentStatus::Parsed },
        InputDocument { id: DocumentId(2), revision: SourceRevisionId(20), status: DocumentStatus::Recovered },
        InputDocument { id: DocumentId(3), revision: SourceRevisionId(30), status: DocumentStatus::FrontendUnavailable },
    ];
    let (mut omissions, diagnostics) = Omissions::unparsed(&documents);
    assert_eq!(
        diagnostics,
        vec![
            SyntaxDiagnostic { document: DocumentId(2), revision: SourceRevisionId(20), status: DocumentStatus::Recovered },
            SyntaxDiagnostic {
                document: DocumentId(3),
                revision: SourceRevisionId(30),
                status: DocumentStatus::FrontendUnavailable,
            },
        ]
    );
    assert!(omissions.includes(DocumentId(1)));
    assert!(!omissions.includes(DocumentId(2)));
    assert!(omissions.root_pending());
    // An unsupported construct in a lowered document omits it and retries once.
    assert!(omissions.omit_unsupported(DocumentId(1)));
    assert!(!omissions.includes(DocumentId(1)));
    assert!(!omissions.omit_unsupported(DocumentId(1)));

    let (clean, diagnostics) = Omissions::unparsed(&vec![InputDocument {
        id: DocumentId(1),
        revision: SourceRevisionId(1),
        status: DocumentStatus::Parsed,
    }]);
    assert!(diagnostics.is_empty());
    assert!(!clean.root_pending());
}

#[test]
fn strict_results_need_nothing_pending() {
    assert_eq!(choose_frontier(true, true, false).ok(), Some(FrontierKind::Strict));
    assert_eq!(choose_frontier(true, true, true).ok(), Some(FrontierKind::Strict));
    assert_eq!(choose_frontier(false, true, false).ok(), Some(FrontierKind::Construction));
    assert_eq!(choose_frontier(true, false, false).ok(), Some(FrontierKind::Construction));
    assert_eq!(
        interpretation(choose_frontier(true, false, true)),
        Some("semantic cache requires strict source declarations".to_string())
    );
}

#[test]
fn declared_origins_update_the_ledger_for_identities_only() {
    let record = FactKey::Element(ElementId(1));
    let occurrence = FactKey::AssociationOccurrence(AssociationOccurrenceId(2));
    let property = FactKey::Property { element: ElementId(1), property: PropertyId(3) };
    let kept = FactKey::Element(ElementId(4));
    let mut ledger = LibrarySourceMap { entries: vec![(record, origin(1)), (kept, origin(1))] };
    let source_map = LibrarySourceMap { entries: vec![(property, origin(5)), (occurrence, origin(6)), (record, origin(7))] };
    record_declared_origins(&mut ledger, &source_map);
    assert_eq!(ledger.get(record), Some(origin(7)));
    assert_eq!(ledger.get(occurrence), Some(origin(6)));
    assert_eq!(ledger.get(kept), Some(origin(1)));
    assert_eq!(ledger.get(property), None);
    assert_eq!(ledger.entries.len(), 3);
    let facts: Vec<FactKey> = ledger.entries.iter().map(|(fact, _)| *fact).collect();
    assert_eq!(facts, vec![record, kept, occurrence]);
}

#[test]
fn measured_work_adds_producer_subjects_and_subtracts_reuse() {
    let work = CompilationWork::measured(true, 2, 3, 4, 5, 6, 7, 8, Some(9), 10, 4, 11);
    assert!(work.semantic_cache_used);
    assert_eq!(work.documents_reparsed, 2);
    assert_eq!(work.producer_subjects_evaluated, 17);
    assert_eq!(work.effective_audit_subjects_evaluated, 6);
    assert_eq!(work.effective_audit_subjects_reused, 4);
    assert_eq!(work.effective_audit_checks_reused, 11);
    let work = CompilationWork::measured(false, 0, 0, 0, 0, 0, 0, 8, None, 3, 3, 0);
    assert_eq!(work.producer_subjects_evaluated, 8);
    assert_eq!(work.effective_audit_subjects_evaluated, 0);
}
