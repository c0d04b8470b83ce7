use kerml_text::checkpoint::{check_checkpoint_header, identity_ledger, CheckpointMismatch, RestoredIdentities};
use kerml_text::ids::{ByteRange, DocumentId, ElementId, FactKey, SourceOrigin, SourceRevisionId, SyntaxNodeId};
use kerml_text::source::SourceSemanticCache;
use sha2::{Digest, Sha256};

fn sha(text: &str) -> [u8; 32] {
    Sha256::digest(text.as_bytes()).into()
}

fn origin(document: u128) -> SourceOrigin {
    SourceOrigin {
        document: DocumentId(document),
        revision: SourceRevisionId(1),
        range: ByteRange { start: 0, end: 1 },
        syntax_node: None,
    }
}

#[test]
fn checkpoint_header_checks_format_publications_and_population() {
    let k = [1u8; 32];
    let s = [2u8; 32];
    assert_eq!(check_checkpoint_header(1, &k, &s, &k, &s, 3, 3), Ok(()));
    assert_eq!(check_checkpoint_header(2, &k, &s, &k, &s, 3, 3), Err(CheckpointMismatch::FormatVersion));
    assert_eq!(check_checkpoint_header(2, &k, &k, &s, &s, 1, 3), Err(CheckpointMismatch::FormatVersion));
    assert_eq!(check_checkpoint_header(1, &s, &s, &k, &s, 3, 3), Err(CheckpointMismatch::PublicationIdentities));
    assert_eq!(check_checkpoint_header(1, &k, &k, &k, &s, 3, 3), Err(CheckpointMismatch::PublicationIdentities));
    assert_eq!(check_checkpoint_header(1, &k, &s, &k, &s, 2, 3), Err(CheckpointMismatch::SourcePopulation));
    assert_eq!(CheckpointMismatch::SourcePopulation.message(), "source population");
    assert_eq!(CheckpointMismatch::CacheArchiveChecksum.message(), "semantic cache archive checksum");
}

#[test]
fn documents_are_admitted_once_with_exact_bytes() {
    let mut identities = RestoredIdentities::new();
    let source = "package P;".to_string();
    let nodes = vec![SyntaxNodeId(1), SyntaxNodeId(2)];
    assert_eq!(identities.admit_document(DocumentId(7), &nodes, &sha("package P;"), Some(&source)), Ok(()));
    // The same document identity again.
    assert_eq!(
        identities.admit_document(DocumentId(7), &vec![], &sha("package P;"), Some(&source)),
        Err(CheckpointMismatch::DuplicateDocumentIdentity)
    );
    // A syntax identity of an earlier document.
    assert_eq!(
        identities.admit_document(DocumentId(8), &vec![SyntaxNodeId(3), SyntaxNodeId(2)], &sha("x"), None),
        Err(CheckpointMismatch::DuplicateSyntaxIdentity)
    );
    // A syntax identity repeated within one document.
    let mut fresh = RestoredIdentities::new();
    assert_eq!(
        fresh.admit_document(DocumentId(8), &vec![SyntaxNodeId(4), SyntaxNodeId(4)], &sha("x"), None),
        Err(CheckpointMismatch::DuplicateSyntaxIdentity)
    );
    let mut fresh = RestoredIdentities::new();
    assert_eq!(fresh.admit_document(DocumentId(9), &vec![], &sha("x"), None), Err(CheckpointMismatch::SourceBlob));
    let mut fresh = RestoredIdentities::new();
    let other = "package Q;".to_string();
    assert_eq!(
        fresh.admit_document(DocumentId(9), &vec![], &sha("package P;"), Some(&other)),
        Err(CheckpointMismatch::SourceContentDigest)
    );
    // Non-ASCII text is digested as its UTF-8 bytes.
    let mut fresh = RestoredIdentities::new();
    let text = "part π;".to_string();
    assert_eq!(fresh.admit_document(DocumentId(9), &vec![], &sha("part π;"), Some(&text)), Ok(()));
}

#[test]
fn path_labels_are_admitted_once() {
    let mut identities = RestoredIdentities::new();
    assert_eq!(identities.admit_path("a.sysml".to_string()), Ok(()));
    assert_eq!(identities.admit_path("b.sysml".to_string()), Ok(()));
    assert_eq!(identities.admit_path("a.sysml".to_string()), Err(CheckpointMismatch::DuplicatePathLabel));
}

#[test]
fn identity_ledger_refuses_repeated_facts() {
    let a = FactKey::Element(ElementId(1));
    let b = FactKey::Element(ElementId(2));
    let ledger = identity_ledger(vec![(a, origin(1)), (b, origin(2))]).unwrap();
    assert_eq!(ledger.entries, vec![(a, origin(1)), (b, origin(2))]);
    assert_eq!(identity_ledger(vec![]).unwrap().entries, vec![]);
    // The ledger is kept in fact order, whatever order the checkpoint listed.
    let occurrence = FactKey::AssociationOccurrence(kerml_text::ids::AssociationOccurrenceId(1));
    let ledger = identity_ledger(vec![(occurrence, origin(3)), (b, origin(2)), (a, origin(1))]).unwrap();
    assert_eq!(ledger.entries, vec![(a, origin(1)), (b, origin(2)), (occurrence, origin(3))]);
    assert_eq!(
        identity_ledger(vec![(a, origin(1)), (b, origin(2)), (a, origin(3))]).err(),
        Some(CheckpointMismatch::DuplicateIdentityOrigin)
    );
}

#[test]
fn cached_restore_checks_identity_and_archive_checksum() {
    let cache = SourceSemanticCache::new([9; 32], [1; 32], [2; 32], [3; 32], [4; 32], [5; 32], b"archive".to_vec());
    assert_eq!(cache.kernel_frontier_digest, <[u8; 32]>::from(Sha256::digest(b"archive")));
    assert_eq!(cache.check_restorable(&[9; 32]), Ok(()));
    assert_eq!(cache.check_restorable(&[8; 32]), Err(CheckpointMismatch::CacheSourceIdentity));
    let mut newer = cache.clone();
    newer.format_version = 2;
    assert_eq!(newer.check_restorable(&[9; 32]), Err(CheckpointMismatch::CacheSourceIdentity));
    let mut tampered = cache.clone();
    tampered.kernel_frontier.push(0);
    assert_eq!(tampered.check_restorable(&[9; 32]), Err(CheckpointMismatch::CacheArchiveChecksum));
}
