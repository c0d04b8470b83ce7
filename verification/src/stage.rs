//! Compilation stage codes and the finalization audit resource policy.
use vstd::prelude::*;

verus! {

/// Last actually entered operation. Refinement can revisit earlier stages.
/// Effective validation is the source audit, not a platform Validated handle.
#[derive(Clone, Copy, Debug, PartialEq, Eq, Structural)]
pub enum CompilationStage {
    Queued,
    Parsing,
    DeclaredModel,
    Resolving,
    SemanticClosure,
    EffectiveValidation,
    PreparingReview,
}

/// The stored code of each stage: its declaration position.
pub open spec fn stage_code(stage: CompilationStage) -> u8 {
    match stage {
        CompilationStage::Queued => 0,
        CompilationStage::Parsing => 1,
        CompilationStage::DeclaredModel => 2,
        CompilationStage::Resolving => 3,
        CompilationStage::SemanticClosure => 4,
        CompilationStage::EffectiveValidation => 5,
        CompilationStage::PreparingReview => 6,
    }
}

/// Number of distinct stages; every code is below it.
pub const STAGE_COUNT: u8 = 7;

impl CompilationStage {
    /// The single-byte code under which a control stores this stage.
    pub fn code(self) -> (code: u8)
        ensures
            code == stage_code(self),
            code < STAGE_COUNT,
    {
        match self {
            CompilationStage::Queued => 0,
            CompilationStage::Parsing => 1,
            CompilationStage::DeclaredModel => 2,
            CompilationStage::Resolving => 3,
            CompilationStage::SemanticClosure => 4,
            CompilationStage::EffectiveValidation => 5,
            CompilationStage::PreparingReview => 6,
        }
    }

    /// Decode a stored code. Codes are written only from stages, so a code
    /// outside the stage range is never stored.
    pub fn from_code(code: u8) -> (stage: CompilationStage)
        requires
            code < STAGE_COUNT,
        ensures
            stage_code(stage) == code,
    {
        match code {
            0 => CompilationStage::Queued,
            1 => CompilationStage::Parsing,
            2 => CompilationStage::DeclaredModel,
            3 => CompilationStage::Resolving,
            4 => CompilationStage::SemanticClosure,
            5 => CompilationStage::EffectiveValidation,
            _ => CompilationStage::PreparingReview,
        }
    }
}

/// Decoding a stored stage code gives back the stage that was stored, and
/// distinct stages are stored under distinct codes.
pub proof fn lemma_stage_code_roundtrip(a: CompilationStage, b: CompilationStage)
    ensures
        stage_code(a) < STAGE_COUNT,
        stage_code(a) == stage_code(b) <==> a == b,
{
}

/// Resource policy for read-only effective API acceptance. Both modes execute
/// the identical queries and merge findings in the original subject order.
#[derive(Clone, Copy, Debug, PartialEq, Eq, Structural)]
pub enum SystemsFinalizationAuditMode {
    Serial,
    ParallelTwo,
}

impl Default for SystemsFinalizationAuditMode {
    fn default() -> (mode: Self)
        ensures
            mode == SystemsFinalizationAuditMode::Serial,
    {
        SystemsFinalizationAuditMode::Serial
    }
}

impl SystemsFinalizationAuditMode {
    /// Number of concurrent read-only query contexts this mode uses.
    pub fn workers(self) -> (workers: usize)
        ensures
            workers == (match self {
                SystemsFinalizationAuditMode::Serial => 1usize,
                SystemsFinalizationAuditMode::ParallelTwo => 2usize,
            }),
    {
        match self {
            SystemsFinalizationAuditMode::Serial => 1,
            SystemsFinalizationAuditMode::ParallelTwo => 2,
        }
    }
}

} // verus!
