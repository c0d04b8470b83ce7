use kerml_text::ids::{DocumentId, RevisionId};
use kerml_text::project::{
    check_base, documents_reparsed, edit_fits, ChangeKind, PathChange, ProjectError, ProjectHistory, ProjectPaths,
};

fn path(text: &str) -> String {
    text.to_string()
}

fn invalid(result: Result<(), ProjectError>) -> Option<String> {
    match result {
        Err(ProjectError::InvalidPath(p)) => Some(p),
        _ => None,
    }
}

fn missing<T>(result: Result<T, ProjectError>) -> Option<DocumentId> {
    match result {
        Err(ProjectError::MissingDocument(d)) => Some(d),
        _ => None,
    }
}

#[test]
fn batches_apply_only_to_the_current_revision() {
    assert!(check_base(RevisionId(4), RevisionId(4)).is_ok());
    match check_base(RevisionId(4), RevisionId(3)) {
        Err(ProjectError::StaleRevision(r)) => assert_eq!(r, RevisionId(3)),
        other => panic!("unexpected {other:?}"),
    }
}

#[test]
fn paths_are_non_empty_and_unique() {
    let mut paths = ProjectPaths::new();
    assert_eq!(paths.len(), 0);
    assert_eq!(invalid(paths.add(path(""), DocumentId(1))), Some(path("")));
    assert!(paths.add(path("a.kerml"), DocumentId(1)).is_ok());
    assert_eq!(invalid(paths.add(path("a.kerml"), DocumentId(2))), Some(path("a.kerml")));
    assert!(paths.add(path("b.sysml"), DocumentId(2)).is_ok());
    assert_eq!(paths.len(), 2);
    assert_eq!(paths.document_at(&path("a.kerml")), Some(DocumentId(1)));
    assert_eq!(paths.document_at(&path("b.sysml")), Some(DocumentId(2)));
    assert_eq!(paths.document_at(&path("c")), None);
    assert!(paths.check_path(&path("c")).is_ok());
    assert_eq!(invalid(paths.check_path(&path("b.sysml"))), Some(path("b.sysml")));
}

#[test]
fn documents_are_found_by_identity() {
    let mut paths = ProjectPaths::new();
    paths.add(path("a"), DocumentId(10)).unwrap();
    paths.add(path("b"), DocumentId(20)).unwrap();
    assert_eq!(paths.path_of(DocumentId(20)).unwrap(), "b");
    assert_eq!(paths.path_of(DocumentId(10)).unwrap(), "a");
    assert_eq!(missing(paths.path_of(DocumentId(30))), Some(DocumentId(30)));
    assert!(paths.contains_document(DocumentId(10)));
    assert!(!paths.contains_document(DocumentId(30)));
}

#[test]
fn removing_an_added_document_restores_the_layout() {
    let mut paths = ProjectPaths::new();
    paths.add(path("a"), DocumentId(1)).unwrap();
    paths.add(path("b"), DocumentId(2)).unwrap();
    assert_eq!(paths.remove(DocumentId(2)).unwrap(), "b");
    assert_eq!(paths.len(), 1);
    assert_eq!(paths.document_at(&path("b")), None);
    assert_eq!(paths.document_at(&path("a")), Some(DocumentId(1)));
    assert_eq!(missing(paths.remove(DocumentId(2))), Some(DocumentId(2)));
    assert_eq!(paths.len(), 1);
}

#[test]
fn renaming_moves_only_the_label() {
    let mut paths = ProjectPaths::new();
    paths.add(path("a"), DocumentId(1)).unwrap();
    paths.add(path("b"), DocumentId(2)).unwrap();
    // Renaming to the current path changes nothing.
    assert!(paths.rename(DocumentId(1), path("a")).is_ok());
    assert_eq!(paths.document_at(&path("a")), Some(DocumentId(1)));
    // A taken or empty target path is refused and nothing moves.
    assert_eq!(invalid(paths.rename(DocumentId(1), path("b"))), Some(path("b")));
    assert_eq!(invalid(paths.rename(DocumentId(1), path(""))), Some(path("")));
    assert_eq!(paths.document_at(&path("a")), Some(DocumentId(1)));
    assert_eq!(missing(paths.rename(DocumentId(9), path("z"))), Some(DocumentId(9)));
    // A fresh path takes the document; renaming back restores the layout.
    paths.rename(DocumentId(1), path("c")).unwrap();
    assert_eq!(paths.document_at(&path("a")), None);
    assert_eq!(paths.document_at(&path("c")), Some(DocumentId(1)));
    assert_eq!(paths.len(), 2);
    paths.rename(DocumentId(1), path("a")).unwrap();
    assert_eq!(paths.document_at(&path("a")), Some(DocumentId(1)));
    assert_eq!(paths.document_at(&path("c")), None);
    assert_eq!(paths.path_of(DocumentId(2)).unwrap(), "b");
}

#[test]
fn edit_limits_count_the_resulting_length() {
    assert!(edit_fits(10, 2, 2, 10));
    assert!(!edit_fits(10, 2, 3, 10));
    assert!(edit_fits(10, 10, 0, 0));
    assert!(!edit_fits(12, 0, 0, 10));
    assert!(!edit_fits(12, 1, 0, 10));
    assert!(edit_fits(12, 2, 0, 10));
    assert!(edit_fits(0, 0, usize::MAX, usize::MAX));
    assert!(!edit_fits(1, 0, usize::MAX, usize::MAX));
}

#[test]
fn only_additions_edits_and_replacements_reparse() {
    assert_eq!(documents_reparsed(&vec![]), 0);
    assert_eq!(documents_reparsed(&vec![ChangeKind::Add, ChangeKind::Edit, ChangeKind::Replace, ChangeKind::Remove, ChangeKind::RenameDocument]), 3);
    assert_eq!(documents_reparsed(&vec![ChangeKind::Remove, ChangeKind::RenameDocument, ChangeKind::Remove]), 0);
    assert_eq!(documents_reparsed(&vec![ChangeKind::Edit, ChangeKind::Edit]), 2);
}

fn layout(paths: &ProjectPaths, labels: &[&str]) -> Vec<Option<DocumentId>> {
    labels.iter().map(|label| paths.document_at(&label.to_string())).collect()
}

#[test]
fn batches_apply_all_changes_in_order() {
    let mut paths = ProjectPaths::new();
    paths.add(path("a"), DocumentId(1)).unwrap();
    paths.add(path("b"), DocumentId(2)).unwrap();
    let batch = vec![
        PathChange::Add { path: path("c"), document: DocumentId(3) },
        PathChange::Edit { document: DocumentId(1) },
        PathChange::Remove { document: DocumentId(2) },
        // The freed label can be taken again within the same batch.
        PathChange::RenameDocument { document: DocumentId(3), path: path("b") },
        PathChange::Replace { document: DocumentId(3) },
    ];
    assert!(paths.apply_batch(&batch).is_ok());
    assert_eq!(paths.len(), 2);
    assert_eq!(layout(&paths, &["a", "b", "c"]), vec![Some(DocumentId(1)), Some(DocumentId(3)), None]);
}

#[test]
fn a_refused_batch_changes_nothing() {
    let mut paths = ProjectPaths::new();
    paths.add(path("a"), DocumentId(1)).unwrap();
    paths.add(path("b"), DocumentId(2)).unwrap();
    let batch = vec![
        PathChange::Remove { document: DocumentId(1) },
        PathChange::Add { path: path("c"), document: DocumentId(3) },
        PathChange::RenameDocument { document: DocumentId(3), path: path("b") },
        PathChange::Edit { document: DocumentId(9) },
    ];
    match paths.apply_batch(&batch) {
        Err((2, ProjectError::InvalidPath(p))) => assert_eq!(p, "b"),
        other => panic!("unexpected {other:?}"),
    }
    assert_eq!(paths.len(), 2);
    assert_eq!(layout(&paths, &["a", "b", "c"]), vec![Some(DocumentId(1)), Some(DocumentId(2)), None]);
    // The first refusal is the one reported.
    let batch = vec![PathChange::Edit { document: DocumentId(9) }, PathChange::Add { path: path(""), document: DocumentId(4) }];
    match paths.apply_batch(&batch) {
        Err((0, ProjectError::MissingDocument(d))) => assert_eq!(d, DocumentId(9)),
        other => panic!("unexpected {other:?}"),
    }
    // A document removed earlier in the batch is missing afterwards.
    let batch = vec![PathChange::Remove { document: DocumentId(2) }, PathChange::Replace { document: DocumentId(2) }];
    match paths.apply_batch(&batch) {
        Err((1, ProjectError::MissingDocument(d))) => assert_eq!(d, DocumentId(2)),
        other => panic!("unexpected {other:?}"),
    }
    assert_eq!(layout(&paths, &["a", "b"]), vec![Some(DocumentId(1)), Some(DocumentId(2))]);
}

#[test]
fn documents_are_listed_by_path_whatever_the_insertion_order() {
    let mut first = ProjectPaths::new();
    first.add(path("b.sysml"), DocumentId(2)).unwrap();
    first.add(path("a/z.kerml"), DocumentId(1)).unwrap();
    first.add(path("a.kerml"), DocumentId(3)).unwrap();
    first.add(path("B"), DocumentId(4)).unwrap();
    first.add(path("é"), DocumentId(5)).unwrap();
    let mut second = ProjectPaths::new();
    second.add(path("é"), DocumentId(5)).unwrap();
    second.add(path("a.kerml"), DocumentId(3)).unwrap();
    second.add(path("B"), DocumentId(4)).unwrap();
    second.add(path("b.sysml"), DocumentId(2)).unwrap();
    second.add(path("a/z.kerml"), DocumentId(1)).unwrap();
    let listing = first.documents();
    assert_eq!(listing, second.documents());
    let expected: Vec<(String, DocumentId)> = {
        let mut all = vec![
            (path("b.sysml"), DocumentId(2)),
            (path("a/z.kerml"), DocumentId(1)),
            (path("a.kerml"), DocumentId(3)),
            (path("B"), DocumentId(4)),
            (path("é"), DocumentId(5)),
        ];
        all.sort();
        all
    };
    assert_eq!(listing, expected);
    assert_eq!(listing[0].0, "B");
    assert_eq!(listing[4].0, "é");
    assert!(ProjectPaths::new().documents().is_empty());
}

#[test]
fn paths_compare_by_their_utf8_bytes() {
    for (a, b) in [("a", "b"), ("a", "ab"), ("", "a"), ("B", "a"), ("z", "é"), ("ab", "abc"), ("same", "same")] {
        assert_eq!(kerml_text::order::path_less(a, b), a < b, "{a:?} < {b:?}");
        assert_eq!(kerml_text::order::path_less(b, a), b < a, "{b:?} < {a:?}");
    }
}

#[test]
fn stale_and_refused_batches_leave_every_revision_and_published_ones_stay() {
    let mut first = ProjectPaths::new();
    first.add(path("a"), DocumentId(1)).unwrap();
    let mut history = ProjectHistory::new(RevisionId(10), first, "one");
    // A batch prepared against another revision is stale before any change.
    match history.prepare(RevisionId(9), &vec![PathChange::Remove { document: DocumentId(1) }]) {
        Err((0, ProjectError::StaleRevision(r))) => assert_eq!(r, RevisionId(9)),
        other => panic!("unexpected {other:?}"),
    }
    // A refused change reports its position; nothing is published.
    match history.prepare(RevisionId(10), &vec![PathChange::Add { path: path("a"), document: DocumentId(2) }]) {
        Err((0, ProjectError::InvalidPath(p))) => assert_eq!(p, "a"),
        other => panic!("unexpected {other:?}"),
    }
    assert_eq!(history.current(), RevisionId(10));
    let next = history
        .prepare(RevisionId(10), &vec![PathChange::Add { path: path("b"), document: DocumentId(2) }])
        .unwrap();
    assert!(!history.contains_revision(RevisionId(11)));
    history.publish(RevisionId(11), next, "two");
    assert_eq!(history.current(), RevisionId(11));
    let (paths, data) = history.current_revision();
    assert_eq!((paths.len(), *data), (2, "two"));
    // The earlier revision keeps its layout and data.
    let (paths, data) = history.revision(RevisionId(10)).unwrap();
    assert_eq!((layout(paths, &["a", "b"]), *data), (vec![Some(DocumentId(1)), None], "one"));
    assert!(history.revision(RevisionId(12)).is_none());
    // The old base is now stale.
    assert!(matches!(history.prepare(RevisionId(10), &vec![]), Err((0, ProjectError::StaleRevision(_)))));
}
