//! Authored source compilation records: languages, document status, measured
//! work and timings, semantic cache identities and query availability.
use crate::checkpoint::CheckpointMismatch;
use crate::corrections::{LibraryLoadError, LoadErrorView};
use crate::digest::{sha256_digest, sha256_of};
use crate::ids::Completeness;
use crate::text::text_eq;
use vstd::prelude::*;
use vstd::string::*;

verus! {

/// Explicit document language; an extension never determines semantic identity.
#[derive(Clone, Copy, Debug, PartialEq, Eq, Structural)]
pub enum SourceLanguage {
    KerMl,
    SysMl,
}

/// Frontend capability is distinct from successfully parsing an empty document.
#[derive(Clone, Copy, Debug, PartialEq, Eq, Structural)]
pub enum DocumentStatus {
    Parsed,
    Recovered,
    FrontendUnavailable,
}

/// Query factory failure for this exact compilation, never an earlier graph.
#[derive(Clone, Debug)]
pub enum QueryUnavailable {
    Context(String),
}

/// Measured work for one authored reconstruction, independent of wall-clock timing.
#[derive(Clone, Debug, PartialEq, Eq, Structural)]
pub struct CompilationWork {
    /// Authenticated persisted effective facts were revalidated on current declarations.
    pub semantic_cache_used: bool,
    /// Actual frontend parse calls while applying this source change batch.
    pub documents_reparsed: usize,
    /// Actual lowering traversals, including repeated full reference-refinement passes.
    pub documents_lowered: usize,
    /// Reused immutable document fragments across all refinement passes.
    pub lowering_cache_hits: usize,
    /// Local declared records traversed by lowering, including rejected trial work.
    pub records_lowered: usize,
    /// Local records created, changed or removed in kernel transactions across
    /// all passes. Every resulting record still undergoes kernel validation.
    pub records_rebuilt: usize,
    /// Unchanged declared records retained from the previous strict snapshot
    /// across construction passes; no record/slot mutations were submitted.
    pub records_reused: usize,
    /// Subject evaluations across every preparatory and final producer schedule.
    pub producer_subjects_evaluated: usize,
    /// Current local canonical subjects visited by the final effective audit.
    pub effective_audit_subjects_evaluated: usize,
    /// Successful strict audit outcomes retained after explicit read/writer proof.
    pub effective_audit_subjects_reused: usize,
    /// Actual successful query/family checks transported; zero-query subjects
    /// do not inflate this work-elimination measure.
    pub effective_audit_checks_reused: usize,
}

impl Default for CompilationWork {
    fn default() -> (work: Self)
        ensures
            !work.semantic_cache_used,
            work.documents_reparsed == 0,
            work.documents_lowered == 0,
            work.lowering_cache_hits == 0,
            work.records_lowered == 0,
            work.records_rebuilt == 0,
            work.records_reused == 0,
            work.producer_subjects_evaluated == 0,
            work.effective_audit_subjects_evaluated == 0,
            work.effective_audit_subjects_reused == 0,
            work.effective_audit_checks_reused == 0,
    {
        CompilationWork {
            semantic_cache_used: false,
            documents_reparsed: 0,
            documents_lowered: 0,
            lowering_cache_hits: 0,
            records_lowered: 0,
            records_rebuilt: 0,
            records_reused: 0,
            producer_subjects_evaluated: 0,
            effective_audit_subjects_evaluated: 0,
            effective_audit_subjects_reused: 0,
            effective_audit_checks_reused: 0,
        }
    }
}

/// Observed elapsed times for one authored compilation, in microseconds.
///
/// These measurements are excluded from semantic identities, checkpoints, caches
/// and acceptance. Nested measurements overlap their enclosing phase: source
/// preparation includes construction, refinement and preparatory producers.
/// Parsing happens before compilation and is not included in the total.
#[derive(Clone, Debug)]
pub struct CompilationTimings {
    /// Complete authored compile call, excluding input parsing.
    pub total_compile_micros: u64,
    /// Prior identity reconciliation and lowering-cache preparation.
    pub identity_preparation_micros: u64,
    /// Entire declaration/reference preparation, including trial passes.
    pub source_preparation_micros: u64,
    /// Kernel construction and declared identity reconciliation across all passes.
    pub declared_construction_micros: u64,
    /// Refinement context binding, change detection and reference resolution;
    /// excludes construction and producer closure inside construction callbacks.
    pub reference_refinement_micros: u64,
    /// Preparatory producer schedules, checkpoint capture and closure binding.
    pub preparatory_producers_micros: u64,
    /// Final declared graph validation before effective producer closure.
    pub strict_kernel_validation_micros: u64,
    /// Final producer schedule, certificate checkpoint/rebinding and certification.
    /// Certification remains inside the measured closure operation.
    pub final_closure_micros: u64,
    /// Prior producer certificate/context/signature capture inside final closure.
    pub closure_checkpoint_micros: u64,
    /// Exact prior producer read revalidation inside final closure.
    pub closure_rebind_micros: u64,
    /// Final source references checked against the closed semantic context.
    pub final_references_micros: u64,
    /// Strict current local-subject audit, including effective context binding.
    pub effective_audit_micros: u64,
    /// Closed-context read signature capture/delta inside the strict audit.
    pub effective_audit_reuse_setup_micros: u64,
    /// Exact source and declared-fact delta capture after the effective audit.
    pub edit_frontier_micros: u64,
}

impl Default for CompilationTimings {
    fn default() -> (timings: Self)
        ensures
            timings.total_compile_micros == 0,
            timings.identity_preparation_micros == 0,
            timings.source_preparation_micros == 0,
            timings.declared_construction_micros == 0,
            timings.reference_refinement_micros == 0,
            timings.preparatory_producers_micros == 0,
            timings.strict_kernel_validation_micros == 0,
            timings.final_closure_micros == 0,
            timings.closure_checkpoint_micros == 0,
            timings.closure_rebind_micros == 0,
            timings.final_references_micros == 0,
            timings.effective_audit_micros == 0,
            timings.effective_audit_reuse_setup_micros == 0,
            timings.edit_frontier_micros == 0,
    {
        CompilationTimings {
            total_compile_micros: 0,
            identity_preparation_micros: 0,
            source_preparation_micros: 0,
            declared_construction_micros: 0,
            reference_refinement_micros: 0,
            preparatory_producers_micros: 0,
            strict_kernel_validation_micros: 0,
            final_closure_micros: 0,
            closure_checkpoint_micros: 0,
            closure_rebind_micros: 0,
            final_references_micros: 0,
            effective_audit_micros: 0,
            effective_audit_reuse_setup_micros: 0,
            edit_frontier_micros: 0,
        }
    }
}

/// Elapsed microseconds as a timing field, saturating at `u64::MAX`.
pub fn elapsed_micros(elapsed: u128) -> (micros: u64)
    ensures
        micros == (if elapsed <= u64::MAX { elapsed as u64 } else { u64::MAX }),
{
    if elapsed <= u64::MAX as u128 {
        elapsed as u64
    } else {
        u64::MAX
    }
}

/// Versioned local effective-graph cache. Accepted standards remain an external
/// authenticated dependency. Source, context and closure identities are checked;
/// every restored graph also passes ordinary producer and effective-query audits.
#[derive(Clone, Debug)]
pub struct SourceSemanticCache {
    pub format_version: u32,
    pub source_identity_digest: [u8; 32],
    pub model_digest: [u8; 32],
    pub context_contract_digest: [u8; 32],
    pub producer_registry_digest: [u8; 32],
    pub semantic_closure_digest: [u8; 32],
    pub sysml_dependency_digest: [u8; 32],
    pub kernel_frontier_digest: [u8; 32],
    pub kernel_frontier: Vec<u8>,
}

/// How the fallback syntax frontend ended.
#[derive(Clone, Copy, Debug, PartialEq, Eq, Structural)]
pub enum SyntaxOutcome {
    Success,
    Recovered,
}

/// Status of a project document: the production parse decides when there is
/// one (complete or recovered); otherwise the fallback syntax outcome; with
/// neither, no frontend was available for the document.
pub fn document_status(production_complete: Option<bool>, syntax: Option<SyntaxOutcome>) -> (status: DocumentStatus)
    ensures
        status == (match production_complete {
            Some(true) => DocumentStatus::Parsed,
            Some(false) => DocumentStatus::Recovered,
            None => match syntax {
                Some(SyntaxOutcome::Success) => DocumentStatus::Parsed,
                Some(SyntaxOutcome::Recovered) => DocumentStatus::Recovered,
                None => DocumentStatus::FrontendUnavailable,
            },
        }),
{
    match production_complete {
        Some(true) => DocumentStatus::Parsed,
        Some(false) => DocumentStatus::Recovered,
        None => match syntax {
            Some(SyntaxOutcome::Success) => DocumentStatus::Parsed,
            Some(SyntaxOutcome::Recovered) => DocumentStatus::Recovered,
            None => DocumentStatus::FrontendUnavailable,
        },
    }
}

/// A project revision is a complete slice when it has no project or model
/// diagnostics, its producers (when run) converged completely, and every
/// document parsed.
pub fn is_complete_slice(
    project_diagnostics: usize,
    model_diagnostics: usize,
    producers: Option<(bool, Completeness)>,
    statuses: &[DocumentStatus],
) -> (complete: bool)
    ensures
        complete == (project_diagnostics == 0 && model_diagnostics == 0 && match producers {
            Some((converged, completeness)) => converged && completeness == Completeness::Complete,
            None => true,
        } && forall|i: int| 0 <= i < statuses@.len() ==> statuses@[i] == DocumentStatus::Parsed),
{
    if project_diagnostics != 0 || model_diagnostics != 0 {
        return false;
    }
    match producers {
        Some((converged, completeness)) => {
            if !converged || completeness != Completeness::Complete {
                return false;
            }
        },
        None => {},
    }
    let mut i: usize = 0;
    while i < statuses.len()
        invariant
            i <= statuses@.len(),
            forall|k: int| 0 <= k < i ==> statuses@[k] == DocumentStatus::Parsed,
        decreases statuses.len() - i,
    {
        if statuses[i] != DocumentStatus::Parsed {
            return false;
        }
        i = i + 1;
    }
    true
}

/// Why an audit setting was refused.
#[derive(Clone, Copy, Debug, PartialEq, Eq, Structural)]
pub enum AuditSettingError {
    /// The verification audit batch size must be exactly 32, 128 or 256.
    BatchSize,
}

/// The verification audit batch size from its setting: 32 when unset, else
/// exactly 32, 128 or 256.
pub fn audit_batch_size(setting: Option<&str>) -> (size: Result<usize, AuditSettingError>)
    ensures
        match setting {
            None => size == Ok::<usize, AuditSettingError>(32),
            Some(text) => if text@ == "32"@ {
                size == Ok::<usize, AuditSettingError>(32)
            } else if text@ == "128"@ {
                size == Ok::<usize, AuditSettingError>(128)
            } else if text@ == "256"@ {
                size == Ok::<usize, AuditSettingError>(256)
            } else {
                size == Err::<usize, AuditSettingError>(AuditSettingError::BatchSize)
            },
        },
{
    match setting {
        None => Ok(32),
        Some(text) => if text_eq(text, "32") {
            Ok(32)
        } else if text_eq(text, "128") {
            Ok(128)
        } else if text_eq(text, "256") {
            Ok(256)
        } else {
            Err(AuditSettingError::BatchSize)
        },
    }
}

/// A compilation is exported only with a closure certificate, a strict
/// graph, no diagnostics, a fully closed model and a clean effective audit
/// (`audit_clean` is `None` when no audit ran).
pub fn cache_candidate(
    has_certificate: bool,
    strict: bool,
    diagnostics_empty: bool,
    fully_closed: bool,
    audit_clean: Option<bool>,
) -> (result: Result<(), CheckpointMismatch>)
    ensures
        result == (if !has_certificate {
            Err::<(), CheckpointMismatch>(CheckpointMismatch::MissingClosureCertificate)
        } else if !strict {
            Err(CheckpointMismatch::NonStrictSourceGraph)
        } else if !diagnostics_empty || !fully_closed || audit_clean != Some(true) {
            Err(CheckpointMismatch::UnacceptedCacheCandidate)
        } else {
            Ok(())
        }),
{
    if !has_certificate {
        return Err(CheckpointMismatch::MissingClosureCertificate);
    }
    if !strict {
        return Err(CheckpointMismatch::NonStrictSourceGraph);
    }
    let audited = match audit_clean {
        Some(clean) => clean,
        None => false,
    };
    if !diagnostics_empty || !fully_closed || !audited {
        return Err(CheckpointMismatch::UnacceptedCacheCandidate);
    }
    Ok(())
}

fn same_digest(a: &[u8; 32], b: &[u8; 32]) -> (same: bool)
    ensures
        same == (a@ == b@),
{
    let mut i: usize = 0;
    while i < 32
        invariant
            a@.len() == 32,
            b@.len() == 32,
            i <= 32,
            forall|k: int| 0 <= k < i ==> a@[k] == b@[k],
        decreases 32 - i,
    {
        if a[i] != b[i] {
            return false;
        }
        i = i + 1;
    }
    assert(a@ =~= b@);
    true
}

pub open spec fn cache_mismatch(field: Seq<char>) -> LoadErrorView {
    LoadErrorView::Interpretation("authored semantic cache mismatch: "@ + field)
}

impl SourceSemanticCache {
    /// A cache whose kernel frontier digest is the SHA-256 of its frontier.
    pub fn new(
        source_identity_digest: [u8; 32],
        model_digest: [u8; 32],
        context_contract_digest: [u8; 32],
        producer_registry_digest: [u8; 32],
        semantic_closure_digest: [u8; 32],
        sysml_dependency_digest: [u8; 32],
        kernel_frontier: Vec<u8>,
    ) -> (cache: SourceSemanticCache)
        ensures
            cache.format_version == 1,
            cache.source_identity_digest == source_identity_digest,
            cache.model_digest == model_digest,
            cache.context_contract_digest == context_contract_digest,
            cache.producer_registry_digest == producer_registry_digest,
            cache.semantic_closure_digest == semantic_closure_digest,
            cache.sysml_dependency_digest == sysml_dependency_digest,
            cache.kernel_frontier_digest@ == sha256_digest(kernel_frontier@),
            cache.kernel_frontier@ == kernel_frontier@,
    {
        let kernel_frontier_digest = sha256_of(kernel_frontier.as_slice());
        SourceSemanticCache {
            format_version: 1,
            source_identity_digest,
            model_digest,
            context_contract_digest,
            producer_registry_digest,
            semantic_closure_digest,
            sysml_dependency_digest,
            kernel_frontier_digest,
            kernel_frontier,
        }
    }

    /// Before restoring: the cache format and the language, descriptor and
    /// producer dependencies must be exactly the accepted ones.
    pub fn check_dependencies(&self, dependency_context_digest: &[u8; 32], registry_digest: &[u8; 32]) -> (result: Result<(), LibraryLoadError>)
        ensures
            result is Ok <==> (self.format_version == 1 && self.sysml_dependency_digest@ == dependency_context_digest@
                && self.producer_registry_digest@ == registry_digest@),
            result matches Err(e) ==> e@ == cache_mismatch("format or language/descriptor/producer dependencies"@),
    {
        if self.format_version != 1 || !same_digest(&self.sysml_dependency_digest, dependency_context_digest)
            || !same_digest(&self.producer_registry_digest, registry_digest) {
            let mut message = String::from_str("authored semantic cache mismatch: ");
            message.append("format or language/descriptor/producer dependencies");
            return Err(LibraryLoadError::Interpretation(message));
        }
        Ok(())
    }

    /// After restoring: the restored graph's context must reproduce the
    /// cached model and closure contract digests.
    pub fn check_context(&self, model_digest: &[u8; 32], contract_digest: &[u8; 32]) -> (result: Result<(), LibraryLoadError>)
        ensures
            result is Ok <==> (self.model_digest@ == model_digest@ && self.context_contract_digest@ == contract_digest@),
            result matches Err(e) ==> e@ == cache_mismatch("canonical graph/provenance or semantic context"@),
    {
        if !same_digest(&self.model_digest, model_digest) || !same_digest(&self.context_contract_digest, contract_digest) {
            let mut message = String::from_str("authored semantic cache mismatch: ");
            message.append("canonical graph/provenance or semantic context");
            return Err(LibraryLoadError::Interpretation(message));
        }
        Ok(())
    }

    /// The restored graph and its closure certificate (registry digest,
    /// closure digest) must reproduce the cached identities.
    pub fn verify_closed(
        &self,
        model_digest: &[u8; 32],
        contract_digest: &[u8; 32],
        certificate: Option<([u8; 32], [u8; 32])>,
    ) -> (result: Result<(), LibraryLoadError>)
        ensures
            result is Ok <==> (self.model_digest@ == model_digest@ && self.context_contract_digest@ == contract_digest@
                && (certificate matches Some(c) && c.0@ == self.producer_registry_digest@ && c.1@
                == self.semantic_closure_digest@)),
            result matches Err(e) ==> e@ == LoadErrorView::Interpretation(
                "authored semantic cache did not reproduce its graph and closure"@,
            ),
    {
        let certified = match &certificate {
            Some(c) => same_digest(&c.0, &self.producer_registry_digest) && same_digest(&c.1, &self.semantic_closure_digest),
            None => false,
        };
        if !same_digest(&self.model_digest, model_digest) || !same_digest(&self.context_contract_digest, contract_digest)
            || !certified {
            return Err(LibraryLoadError::Interpretation(
                String::from_str("authored semantic cache did not reproduce its graph and closure"),
            ));
        }
        Ok(())
    }
}

} // verus!
