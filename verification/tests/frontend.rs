use kerml_text::authority::{owned_path, Ownership};
use kerml_text::comment::comment_body;
use kerml_text::ids::{id, ElementId};
use kerml_text::ids::Completeness;
use kerml_text::checkpoint::CheckpointMismatch;
use kerml_text::corrections::LibraryLoadError;
use kerml_text::digest::sha256_of;
use kerml_text::source::{
    cache_candidate, SourceSemanticCache,
    audit_batch_size, document_status, elapsed_micros, is_complete_slice, AuditSettingError, CompilationTimings,
    CompilationWork, DocumentStatus, SyntaxOutcome,
};
use kerml_text::stage::{CompilationStage, SystemsFinalizationAuditMode, STAGE_COUNT};

#[test]
fn comment_bodies_drop_delimiters_and_line_decoration_only() {
    assert_eq!(comment_body("/* hello */"), " hello ");
    assert_eq!(comment_body("/*\n * first\n * second\n */"), "first\nsecond\n");
    assert_eq!(comment_body("/*a\n  *b\n*/"), "a\nb\n");
    assert_eq!(comment_body("/**/"), "");
    assert_eq!(comment_body("/* \r\n x */"), "x ");
    assert_eq!(comment_body("/*\n\t*  two spaces\n*/"), " two spaces\n");
    assert_eq!(comment_body("/* keep * stars */"), " keep * stars ");
}

#[test]
fn stage_codes_round_trip_and_stay_below_the_count() {
    let stages = [
        CompilationStage::Queued,
        CompilationStage::Parsing,
        CompilationStage::DeclaredModel,
        CompilationStage::Resolving,
        CompilationStage::SemanticClosure,
        CompilationStage::EffectiveValidation,
        CompilationStage::PreparingReview,
    ];
    for (index, stage) in stages.iter().enumerate() {
        assert_eq!(stage.code() as usize, index);
        assert!(stage.code() < STAGE_COUNT);
        assert_eq!(CompilationStage::from_code(stage.code()), *stage);
    }
}

#[test]
fn audit_modes_choose_their_worker_count() {
    assert_eq!(SystemsFinalizationAuditMode::Serial.workers(), 1);
    assert_eq!(SystemsFinalizationAuditMode::ParallelTwo.workers(), 2);
    assert_eq!(SystemsFinalizationAuditMode::default(), SystemsFinalizationAuditMode::Serial);
}

#[test]
fn elapsed_microseconds_saturate() {
    assert_eq!(elapsed_micros(0), 0);
    assert_eq!(elapsed_micros(1_234), 1_234);
    assert_eq!(elapsed_micros(u64::MAX as u128), u64::MAX);
    assert_eq!(elapsed_micros(u64::MAX as u128 + 1), u64::MAX);
}

#[test]
fn work_and_timings_start_at_zero() {
    let work = CompilationWork::default();
    assert!(!work.semantic_cache_used);
    assert_eq!(work.records_lowered, 0);
    let timings = CompilationTimings::default();
    assert_eq!(timings.total_compile_micros, 0);
    assert_eq!(timings.edit_frontier_micros, 0);
}

fn ownership() -> Ownership {
    Ownership {
        members: vec![
            (id(1), id(10), id(11)),
            (id(1), id(12), id(13)),
            (id(11), id(14), id(15)),
            (id(13), id(16), id(17)),
        ],
        names: vec![
            (id(11), "A".to_string()),
            (id(13), "B".to_string()),
            (id(15), "C".to_string()),
            (id(17), "C".to_string()),
        ],
    }
}

#[test]
fn owned_paths_follow_declared_names_through_owned_members() {
    let o = ownership();
    let roots: [ElementId; 1] = [id(1)];
    assert_eq!(owned_path(&o, &roots, &["A", "C"]), vec![(id(14), id(15))]);
    assert_eq!(owned_path(&o, &roots, &["B", "C"]), vec![(id(16), id(17))]);
    assert_eq!(owned_path(&o, &roots, &["A"]), vec![(id(10), id(11))]);
    assert!(owned_path(&o, &roots, &["Z"]).is_empty());
    assert!(owned_path(&o, &roots, &["Z", "C"]).is_empty());
    assert!(owned_path(&o, &roots, &[]).is_empty());
    assert!(owned_path(&o, &[], &["A"]).is_empty());
    assert_eq!(owned_path(&o, &[id(11), id(1)], &["C"]), vec![(id(14), id(15))]);
}

#[test]
fn document_status_prefers_the_production_parse() {
    assert_eq!(document_status(Some(true), None), DocumentStatus::Parsed);
    assert_eq!(document_status(Some(false), Some(SyntaxOutcome::Success)), DocumentStatus::Recovered);
    assert_eq!(document_status(None, Some(SyntaxOutcome::Success)), DocumentStatus::Parsed);
    assert_eq!(document_status(None, Some(SyntaxOutcome::Recovered)), DocumentStatus::Recovered);
    assert_eq!(document_status(None, None), DocumentStatus::FrontendUnavailable);
}

#[test]
fn complete_slices_need_clean_diagnostics_converged_producers_and_parsed_documents() {
    let parsed = [DocumentStatus::Parsed, DocumentStatus::Parsed];
    assert!(is_complete_slice(0, 0, None, &parsed));
    assert!(is_complete_slice(0, 0, Some((true, Completeness::Complete)), &parsed));
    assert!(!is_complete_slice(1, 0, None, &parsed));
    assert!(!is_complete_slice(0, 2, None, &parsed));
    assert!(!is_complete_slice(0, 0, Some((false, Completeness::Complete)), &parsed));
    assert!(!is_complete_slice(0, 0, Some((true, Completeness::Incomplete)), &parsed));
    assert!(!is_complete_slice(0, 0, None, &[DocumentStatus::Parsed, DocumentStatus::Recovered]));
    assert!(is_complete_slice(0, 0, None, &[]));
}

#[test]
fn audit_batch_sizes_are_exact() {
    assert_eq!(audit_batch_size(None), Ok(32));
    assert_eq!(audit_batch_size(Some("32")), Ok(32));
    assert_eq!(audit_batch_size(Some("128")), Ok(128));
    assert_eq!(audit_batch_size(Some("256")), Ok(256));
    assert_eq!(audit_batch_size(Some("64")), Err(AuditSettingError::BatchSize));
    assert_eq!(audit_batch_size(Some(" 32")), Err(AuditSettingError::BatchSize));
}

fn outcome(result: Result<(), LibraryLoadError>) -> Result<(), String> {
    match result {
        Ok(()) => Ok(()),
        Err(LibraryLoadError::Interpretation(message)) => Err(message),
        Err(LibraryLoadError::Syntax(message)) => Err(format!("syntax: {message}")),
    }
}

fn sample_cache() -> SourceSemanticCache {
    SourceSemanticCache::new([1; 32], [2; 32], [3; 32], [4; 32], [5; 32], [6; 32], b"frontier".to_vec())
}

#[test]
fn cache_candidates_are_refused_in_order() {
    assert_eq!(cache_candidate(false, false, false, false, None), Err(CheckpointMismatch::MissingClosureCertificate));
    assert_eq!(cache_candidate(true, false, true, true, Some(true)), Err(CheckpointMismatch::NonStrictSourceGraph));
    assert_eq!(cache_candidate(true, true, false, true, Some(true)), Err(CheckpointMismatch::UnacceptedCacheCandidate));
    assert_eq!(cache_candidate(true, true, true, false, Some(true)), Err(CheckpointMismatch::UnacceptedCacheCandidate));
    assert_eq!(cache_candidate(true, true, true, true, Some(false)), Err(CheckpointMismatch::UnacceptedCacheCandidate));
    assert_eq!(cache_candidate(true, true, true, true, None), Err(CheckpointMismatch::UnacceptedCacheCandidate));
    assert_eq!(cache_candidate(true, true, true, true, Some(true)), Ok(()));
    assert_eq!(CheckpointMismatch::MissingClosureCertificate.message(), "missing closure certificate");
    assert_eq!(CheckpointMismatch::NonStrictSourceGraph.message(), "non-strict source graph");
    assert_eq!(CheckpointMismatch::UnacceptedCacheCandidate.message(), "unaccepted authored cache candidate");
}

#[test]
fn semantic_cache_digests_its_frontier() {
    let cache = sample_cache();
    assert_eq!(cache.format_version, 1);
    assert_eq!(cache.kernel_frontier, b"frontier".to_vec());
    assert_eq!(cache.kernel_frontier_digest, sha256_of(b"frontier"));
    assert_ne!(cache.kernel_frontier_digest, sha256_of(b""));
    // SHA-256 of the empty input.
    assert_eq!(
        sha256_of(b"")[..4],
        [0xe3, 0xb0, 0xc4, 0x42]
    );
}

#[test]
fn semantic_cache_dependency_and_context_checks() {
    let cache = sample_cache();
    assert_eq!(outcome(cache.check_dependencies(&[6; 32], &[4; 32])), Ok(()));
    let dependency_error: Result<(), String> =
        Err("authored semantic cache mismatch: format or language/descriptor/producer dependencies".to_string());
    assert_eq!(outcome(cache.check_dependencies(&[7; 32], &[4; 32])), dependency_error.clone());
    assert_eq!(outcome(cache.check_dependencies(&[6; 32], &[7; 32])), dependency_error.clone());
    let mut old_format = sample_cache();
    old_format.format_version = 2;
    assert_eq!(outcome(old_format.check_dependencies(&[6; 32], &[4; 32])), dependency_error.clone());

    assert_eq!(outcome(cache.check_context(&[2; 32], &[3; 32])), Ok(()));
    let context_error: Result<(), String> =
        Err("authored semantic cache mismatch: canonical graph/provenance or semantic context".to_string());
    assert_eq!(outcome(cache.check_context(&[9; 32], &[3; 32])), context_error.clone());
    assert_eq!(outcome(cache.check_context(&[2; 32], &[9; 32])), context_error.clone());
}

#[test]
fn semantic_cache_closure_must_be_reproduced() {
    let cache = sample_cache();
    assert_eq!(outcome(cache.verify_closed(&[2; 32], &[3; 32], Some(([4; 32], [5; 32])))), Ok(()));
    let error: Result<(), String> = Err("authored semantic cache did not reproduce its graph and closure".to_string());
    assert_eq!(outcome(cache.verify_closed(&[2; 32], &[3; 32], None)), error.clone());
    assert_eq!(outcome(cache.verify_closed(&[2; 32], &[3; 32], Some(([4; 32], [0; 32])))), error.clone());
    assert_eq!(outcome(cache.verify_closed(&[2; 32], &[3; 32], Some(([0; 32], [5; 32])))), error.clone());
    assert_eq!(outcome(cache.verify_closed(&[0; 32], &[3; 32], Some(([4; 32], [5; 32])))), error.clone());
    assert_eq!(outcome(cache.verify_closed(&[2; 32], &[0; 32], Some(([4; 32], [5; 32])))), error.clone());
}
