//! Acceptance gates of the exact Systems Library publication: reference
//! outcomes, authority conflicts, source provenance and capability counts.
use crate::ids::{Completeness, DocumentId, ElementId, FactKey, Origin, SourceOrigin, SourceRevisionId, SyntaxNodeId, ByteRange};
use crate::library::{LibrarySourceMap, PendingLibraryReference, reference_key, same_reference};
use crate::text::text_eq;
use vstd::prelude::*;

verus! {

/// Publication capabilities, not the complete set of SysML validation rules.
#[derive(Clone, Copy, Debug, PartialEq, Eq, Structural)]
pub enum SystemsPublicationFamily {
    Syntax,
    CanonicalLowering,
    NamespacesImports,
    DefinitionUsage,
    AttributeItemPart,
    OccurrenceActionState,
    CalculationConstraintRequirementCase,
    PortConnectionInterfaceFlow,
    ViewMetadata,
    TypingSpecializationSubsettingRedefinition,
    MayTimeVary,
    StandardBindings,
    IdentityProvenance,
}

/// Number of publication families.
pub const FAMILY_COUNT: usize = 13;

/// Declaration position of a family, which is also its order.
pub open spec fn family_index(family: SystemsPublicationFamily) -> int {
    match family {
        SystemsPublicationFamily::Syntax => 0,
        SystemsPublicationFamily::CanonicalLowering => 1,
        SystemsPublicationFamily::NamespacesImports => 2,
        SystemsPublicationFamily::DefinitionUsage => 3,
        SystemsPublicationFamily::AttributeItemPart => 4,
        SystemsPublicationFamily::OccurrenceActionState => 5,
        SystemsPublicationFamily::CalculationConstraintRequirementCase => 6,
        SystemsPublicationFamily::PortConnectionInterfaceFlow => 7,
        SystemsPublicationFamily::ViewMetadata => 8,
        SystemsPublicationFamily::TypingSpecializationSubsettingRedefinition => 9,
        SystemsPublicationFamily::MayTimeVary => 10,
        SystemsPublicationFamily::StandardBindings => 11,
        SystemsPublicationFamily::IdentityProvenance => 12,
    }
}

/// The family at a declaration position.
pub open spec fn family_at(index: int) -> SystemsPublicationFamily {
    if index == 0 {
        SystemsPublicationFamily::Syntax
    } else if index == 1 {
        SystemsPublicationFamily::CanonicalLowering
    } else if index == 2 {
        SystemsPublicationFamily::NamespacesImports
    } else if index == 3 {
        SystemsPublicationFamily::DefinitionUsage
    } else if index == 4 {
        SystemsPublicationFamily::AttributeItemPart
    } else if index == 5 {
        SystemsPublicationFamily::OccurrenceActionState
    } else if index == 6 {
        SystemsPublicationFamily::CalculationConstraintRequirementCase
    } else if index == 7 {
        SystemsPublicationFamily::PortConnectionInterfaceFlow
    } else if index == 8 {
        SystemsPublicationFamily::ViewMetadata
    } else if index == 9 {
        SystemsPublicationFamily::TypingSpecializationSubsettingRedefinition
    } else if index == 10 {
        SystemsPublicationFamily::MayTimeVary
    } else if index == 11 {
        SystemsPublicationFamily::StandardBindings
    } else {
        SystemsPublicationFamily::IdentityProvenance
    }
}

/// Every family sits at its own position, and positions cover exactly the families.
pub proof fn lemma_family_positions(family: SystemsPublicationFamily, index: int)
    ensures
        0 <= family_index(family) < FAMILY_COUNT,
        family_at(family_index(family)) == family,
        0 <= index < FAMILY_COUNT ==> family_index(family_at(index)) == index,
{
}

impl SystemsPublicationFamily {
    /// Declaration position of this family.
    pub fn index(self) -> (index: usize)
        ensures
            index == family_index(self),
    {
        match self {
            SystemsPublicationFamily::Syntax => 0,
            SystemsPublicationFamily::CanonicalLowering => 1,
            SystemsPublicationFamily::NamespacesImports => 2,
            SystemsPublicationFamily::DefinitionUsage => 3,
            SystemsPublicationFamily::AttributeItemPart => 4,
            SystemsPublicationFamily::OccurrenceActionState => 5,
            SystemsPublicationFamily::CalculationConstraintRequirementCase => 6,
            SystemsPublicationFamily::PortConnectionInterfaceFlow => 7,
            SystemsPublicationFamily::ViewMetadata => 8,
            SystemsPublicationFamily::TypingSpecializationSubsettingRedefinition => 9,
            SystemsPublicationFamily::MayTimeVary => 10,
            SystemsPublicationFamily::StandardBindings => 11,
            SystemsPublicationFamily::IdentityProvenance => 12,
        }
    }

    /// The family at a declaration position.
    pub fn at(index: usize) -> (family: SystemsPublicationFamily)
        requires
            index < FAMILY_COUNT,
        ensures
            family == family_at(index as int),
    {
        match index {
            0 => SystemsPublicationFamily::Syntax,
            1 => SystemsPublicationFamily::CanonicalLowering,
            2 => SystemsPublicationFamily::NamespacesImports,
            3 => SystemsPublicationFamily::DefinitionUsage,
            4 => SystemsPublicationFamily::AttributeItemPart,
            5 => SystemsPublicationFamily::OccurrenceActionState,
            6 => SystemsPublicationFamily::CalculationConstraintRequirementCase,
            7 => SystemsPublicationFamily::PortConnectionInterfaceFlow,
            8 => SystemsPublicationFamily::ViewMetadata,
            9 => SystemsPublicationFamily::TypingSpecializationSubsettingRedefinition,
            10 => SystemsPublicationFamily::MayTimeVary,
            11 => SystemsPublicationFamily::StandardBindings,
            _ => SystemsPublicationFamily::IdentityProvenance,
        }
    }
}

/// Per-family success counts. A family is either unrecorded or has a count.
#[derive(Debug)]
pub struct FamilyCounts {
    counts: Vec<Option<usize>>,
}

impl FamilyCounts {
    pub closed spec fn wf(&self) -> bool {
        self.counts@.len() == FAMILY_COUNT
    }

    /// The recorded count of a family.
    pub closed spec fn count(&self, family: SystemsPublicationFamily) -> Option<usize> {
        self.counts@[family_index(family)]
    }

    /// No family recorded.
    pub fn new() -> (counts: FamilyCounts)
        ensures
            counts.wf(),
            forall|f: SystemsPublicationFamily| counts.count(f) is None,
    {
        let mut counts: Vec<Option<usize>> = Vec::new();
        let mut i: usize = 0;
        while i < FAMILY_COUNT
            invariant
                i <= FAMILY_COUNT,
                counts@.len() == i,
                forall|j: int| 0 <= j < i ==> counts@[j] is None,
            decreases FAMILY_COUNT - i,
        {
            counts.push(None);
            i = i + 1;
        }
        FamilyCounts { counts }
    }

    /// The recorded count of a family.
    pub fn get(&self, family: SystemsPublicationFamily) -> (count: Option<usize>)
        requires
            self.wf(),
        ensures
            count == self.count(family),
    {
        self.counts[family.index()]
    }

    /// Add `n` successes to a family, recording it if it was not yet.
    pub fn add(&mut self, family: SystemsPublicationFamily, n: usize)
        requires
            old(self).wf(),
            old(self).count(family) matches Some(c) ==> c + n <= usize::MAX,
        ensures
            final(self).wf(),
            final(self).count(family) == Some((match old(self).count(family) {
                Some(c) => c + n,
                None => n as int,
            }) as usize),
            forall|f: SystemsPublicationFamily| f != family ==> final(self).count(f) == old(self).count(f),
    {
        let index = family.index();
        let current = match self.counts[index] {
            Some(c) => c,
            None => 0,
        };
        self.counts.set(index, Some(current + n));
        proof {
            assert forall|f: SystemsPublicationFamily| f != family implies self.count(f) == old(self).count(f) by {
                lemma_family_positions(f, 0);
                lemma_family_positions(family, 0);
            }
        }
    }
    /// Whether adding `other` to these counts stays within `usize`.
    pub open spec fn mergeable(&self, other: &FamilyCounts) -> bool {
        forall|f: SystemsPublicationFamily|
            #![trigger self.count(f), other.count(f)]
            self.count(f) matches Some(a) ==> (other.count(f) matches Some(b) ==> a + b <= usize::MAX)
    }

    /// Add every recorded count of `other`; a family recorded on either side stays recorded.
    pub fn merge(&mut self, other: &FamilyCounts)
        requires
            old(self).wf(),
            other.wf(),
            old(self).mergeable(other),
        ensures
            final(self).wf(),
            forall|f: SystemsPublicationFamily| #[trigger] final(self).count(f) == combined(old(self).count(f), other.count(f)),
    {
        let mut i: usize = 0;
        while i < FAMILY_COUNT
            invariant
                self.wf(),
                other.wf(),
                i <= FAMILY_COUNT,
                old(self).wf(),
                forall|f: SystemsPublicationFamily|
                    #![trigger old(self).count(f), other.count(f)]
                    old(self).count(f) matches Some(a) ==> (other.count(f) matches Some(b) ==> a + b <= usize::MAX),
                forall|j: int| 0 <= j < i ==> #[trigger] self.counts@[j] == combined(old(self).counts@[j], other.counts@[j]),
                forall|j: int| i <= j < FAMILY_COUNT ==> #[trigger] self.counts@[j] == old(self).counts@[j],
            decreases FAMILY_COUNT - i,
        {
            let family = SystemsPublicationFamily::at(i);
            proof {
                lemma_family_positions(family, i as int);
                assert(old(self).count(family) == old(self).counts@[i as int]);
                assert(other.count(family) == other.counts@[i as int]);
            }
            match other.counts[i] {
                Some(n) => {
                    let current = self.counts[i];
                    match current {
                        Some(c) => {
                            self.counts.set(i, Some(c + n));
                        },
                        None => {
                            self.counts.set(i, Some(n));
                        },
                    }
                },
                None => {},
            }
            i = i + 1;
        }
        proof {
            assert forall|f: SystemsPublicationFamily| #[trigger] self.count(f) == combined(old(self).count(f), other.count(f)) by {
                lemma_family_positions(f, 0);
            }
        }
    }

    /// Equal counts in a new table.
    pub fn duplicate(&self) -> (copy: FamilyCounts)
        requires
            self.wf(),
        ensures
            copy.wf(),
            forall|f: SystemsPublicationFamily| #[trigger] copy.count(f) == self.count(f),
            copy.total() == self.total(),
    {
        let mut counts: Vec<Option<usize>> = Vec::new();
        let mut i: usize = 0;
        while i < self.counts.len()
            invariant
                i <= self.counts@.len(),
                counts@ == self.counts@.subrange(0, i as int),
            decreases self.counts@.len() - i,
        {
            counts.push(self.counts[i]);
            proof {
                assert(counts@ =~= self.counts@.subrange(0, i + 1));
            }
            i = i + 1;
        }
        proof {
            assert(counts@ =~= self.counts@);
        }
        FamilyCounts { counts }
    }

    /// The sum of the recorded counts.
    pub closed spec fn total(&self) -> int {
        counts_total(self.counts@)
    }

    /// A sum of counts is never negative.
    pub proof fn lemma_total_nonnegative(&self)
        ensures
            self.total() >= 0,
    {
        lemma_counts_total_nonnegative(self.counts@);
    }

    /// The sum of the recorded counts, when it fits.
    pub fn sum(&self) -> (total: usize)
        requires
            self.wf(),
            self.total() <= usize::MAX,
        ensures
            total == self.total(),
    {
        let mut total: usize = 0;
        let mut i: usize = 0;
        while i < self.counts.len()
            invariant
                i <= self.counts@.len(),
                total == counts_total(self.counts@.subrange(0, i as int)),
                counts_total(self.counts@) <= usize::MAX,
            decreases self.counts@.len() - i,
        {
            proof {
                assert(self.counts@.subrange(0, i + 1).drop_last() =~= self.counts@.subrange(0, i as int));
                lemma_counts_total_prefix(self.counts@, i + 1);
            }
            match self.counts[i] {
                Some(n) => {
                    total = total + n;
                },
                None => {},
            }
            i = i + 1;
        }
        proof {
            assert(self.counts@.subrange(0, self.counts@.len() as int) =~= self.counts@);
        }
        total
    }
}

/// Two optional counts combined: an absent count adds nothing.
pub open spec fn combined(a: Option<usize>, b: Option<usize>) -> Option<usize> {
    match (a, b) {
        (None, None) => None,
        (Some(x), None) => Some(x),
        (None, Some(y)) => Some(y),
        (Some(x), Some(y)) => Some((x + y) as usize),
    }
}

/// Sum of optional counts.
pub open spec fn counts_total(counts: Seq<Option<usize>>) -> int
    decreases counts.len(),
{
    if counts.len() == 0 {
        0
    } else {
        counts_total(counts.drop_last()) + match counts.last() {
            Some(n) => n as int,
            None => 0,
        }
    }
}

/// A sum of counts is never negative.
proof fn lemma_counts_total_nonnegative(counts: Seq<Option<usize>>)
    ensures
        counts_total(counts) >= 0,
    decreases counts.len(),
{
    if counts.len() > 0 {
        lemma_counts_total_nonnegative(counts.drop_last());
    }
}

/// A prefix sums to no more than the whole.
proof fn lemma_counts_total_prefix(counts: Seq<Option<usize>>, k: int)
    requires
        0 <= k <= counts.len(),
    ensures
        counts_total(counts.subrange(0, k)) <= counts_total(counts),
    decreases counts.len(),
{
    if k < counts.len() {
        assert(counts.drop_last().subrange(0, k) =~= counts.subrange(0, k));
        lemma_counts_total_prefix(counts.drop_last(), k);
    } else {
        assert(counts.subrange(0, k) =~= counts);
    }
}


/// A semantic diagnostic: a stable code, its subject and a message.
#[derive(Debug)]
pub struct Diagnostic {
    pub code: &'static str,
    pub subject: ElementId,
    pub message: String,
}

impl Clone for Diagnostic {
    fn clone(&self) -> (copy: Self)
        ensures
            copy == *self,
    {
        Diagnostic { code: self.code, subject: self.subject, message: self.message.clone() }
    }
}

/// One producer stage of a publication schedule, as far as acceptance reads it.
#[derive(Clone, Debug)]
pub struct PublicationStage {
    pub stage: usize,
    pub completeness: Completeness,
    pub diagnostics: Vec<Diagnostic>,
}

/// Outcome of the construction producer schedule.
#[derive(Clone, Debug)]
pub struct SystemsConstructionProduction {
    pub final_predicates: bool,
    pub completeness: Completeness,
    pub converged: bool,
    pub stages: Vec<PublicationStage>,
}

/// An exact formal target absent from the original Systems corpus. These are
/// unresolved decisions; no spelling correction or source alias is implied.
#[derive(Clone, Copy, Debug, PartialEq, Eq)]
pub struct SystemsAuthorityConflict {
    pub rule: &'static str,
    pub formal_target: &'static str,
    pub original_declaration: &'static str,
    pub subject: ElementId,
}

/// Mutually exclusive outcome for a mandatory source assertion.
#[derive(Clone, Copy, Debug, PartialEq, Eq, Structural)]
pub enum SystemsReferenceStatus {
    Complete,
    Unresolved,
    Incomplete,
    Ambiguous,
    Invalid,
    EndpointMismatch,
}

#[derive(Clone, Debug)]
pub struct SystemsReferenceFailure {
    pub relationship: ElementId,
    pub status: SystemsReferenceStatus,
    pub candidates: Vec<ElementId>,
    pub stored: Vec<ElementId>,
}

/// Findings are computed internally; callers cannot provide acceptance labels.
#[derive(Debug)]
pub enum SystemsPublicationFinding {
    Identity(&'static str),
    Document { path: String, reason: String },
    KernelObligations(usize),
    Producers { completeness: Completeness, converged: bool },
    /// Outstanding final-frontier evidence retained when authority rejects the
    /// input before repeating strict producer work.
    ProducerDiagnostic(Diagnostic),
    Capability { family: SystemsPublicationFamily, diagnostic: Diagnostic },
    Authority(SystemsAuthorityConflict),
    Reference(SystemsReferenceFailure),
    Provenance(FactKey),
}

/// A report records scoped successes and all failed gates without conferring
/// publication or conformance on an unpublished construction overlay.
#[derive(Debug)]
pub struct SystemsPublicationAudit {
    pub checked: FamilyCounts,
    pub mandatory_references: usize,
    pub complete_references: usize,
    pub findings: Vec<SystemsPublicationFinding>,
}

impl Default for SystemsPublicationAudit {
    fn default() -> (audit: Self)
        ensures
            audit.checked.wf(),
            forall|f: SystemsPublicationFamily| audit.checked.count(f) is None,
            audit.mandatory_references == 0,
            audit.complete_references == 0,
            audit.findings@.len() == 0,
    {
        SystemsPublicationAudit {
            checked: FamilyCounts::new(),
            mandatory_references: 0,
            complete_references: 0,
            findings: Vec::new(),
        }
    }
}

impl SystemsPublicationAudit {
    pub open spec fn wf(&self) -> bool {
        self.checked.wf()
    }

    /// Record `count` successes of one family.
    pub fn checked(&mut self, family: SystemsPublicationFamily, count: usize)
        requires
            old(self).wf(),
            old(self).checked.count(family) matches Some(c) ==> c + count <= usize::MAX,
        ensures
            final(self).wf(),
            final(self).checked.count(family) == Some((match old(self).checked.count(family) {
                Some(c) => c + count,
                None => count as int,
            }) as usize),
            forall|f: SystemsPublicationFamily| f != family ==> final(self).checked.count(f) == old(self).checked.count(f),
            final(self).mandatory_references == old(self).mandatory_references,
            final(self).complete_references == old(self).complete_references,
            final(self).findings@ == old(self).findings@,
    {
        self.checked.add(family, count);
    }
}

/// Outcome of one mandatory source assertion from its final lookup answer,
/// the stored endpoints and whether the single candidate has the expected kind.
pub open spec fn reference_status_spec(
    completeness: Completeness,
    candidates: Seq<ElementId>,
    stored: Seq<ElementId>,
    kind_valid: bool,
) -> SystemsReferenceStatus {
    match completeness {
        Completeness::Incomplete => SystemsReferenceStatus::Incomplete,
        Completeness::Invalid => SystemsReferenceStatus::Invalid,
        Completeness::Complete => if candidates.len() == 0 {
            SystemsReferenceStatus::Unresolved
        } else if candidates.len() == 1 {
            if !kind_valid {
                SystemsReferenceStatus::Invalid
            } else if candidates != stored {
                SystemsReferenceStatus::EndpointMismatch
            } else {
                SystemsReferenceStatus::Complete
            }
        } else {
            SystemsReferenceStatus::Ambiguous
        },
    }
}

/// How a mandatory reference is judged. A result that is not complete is
/// `Incomplete` or `Invalid` as it stands; a complete one with no candidate is
/// unresolved and with several is ambiguous. A single candidate of the wrong
/// kind is invalid whatever the stored endpoints are; only a candidate of the
/// right kind is compared with them, and it is complete exactly when the
/// stored endpoints are that one candidate.
pub proof fn law_reference_status(
    completeness: Completeness,
    candidates: Seq<ElementId>,
    stored: Seq<ElementId>,
    kind_valid: bool,
)
    ensures
        ({
            let s = reference_status_spec(completeness, candidates, stored, kind_valid);
            let single = completeness == Completeness::Complete && candidates.len() == 1;
            &&& (s == SystemsReferenceStatus::Complete) <==> (single && kind_valid && stored == candidates)
            &&& (s == SystemsReferenceStatus::EndpointMismatch) <==> (single && kind_valid && stored != candidates)
            &&& (s == SystemsReferenceStatus::Invalid) <==> (completeness == Completeness::Invalid || (single
                && !kind_valid))
            &&& (s == SystemsReferenceStatus::Unresolved) <==> (completeness == Completeness::Complete
                && candidates.len() == 0)
            &&& (s == SystemsReferenceStatus::Ambiguous) <==> (completeness == Completeness::Complete
                && candidates.len() > 1)
            &&& (s == SystemsReferenceStatus::Incomplete) <==> completeness == Completeness::Incomplete
        }),
{
}

/// Whether two identity lists are equal element by element.
pub fn same_ids(a: &[ElementId], b: &[ElementId]) -> (same: bool)
    ensures
        same == (a@ == b@),
{
    if a.len() != b.len() {
        return false;
    }
    let mut i: usize = 0;
    while i < a.len()
        invariant
            a@.len() == b@.len(),
            i <= a@.len(),
            forall|j: int| 0 <= j < i ==> a@[j] == b@[j],
        decreases a.len() - i,
    {
        if a[i] != b[i] {
            return false;
        }
        i = i + 1;
    }
    assert(a@ =~= b@);
    true
}

/// Mutually exclusive outcome of a mandatory source assertion.
pub fn reference_status(
    completeness: Completeness,
    candidates: &[ElementId],
    stored: &[ElementId],
    kind_valid: bool,
) -> (status: SystemsReferenceStatus)
    ensures
        status == reference_status_spec(completeness, candidates@, stored@, kind_valid),
        completeness == Completeness::Complete && candidates@.len() == 1 && !kind_valid ==> status
            == SystemsReferenceStatus::Invalid,
        status == SystemsReferenceStatus::EndpointMismatch ==> kind_valid && candidates@ != stored@,
        status == SystemsReferenceStatus::Complete ==> kind_valid && candidates@.len() == 1 && candidates@ == stored@,
{
    proof {
        law_reference_status(completeness, candidates@, stored@, kind_valid);
    }
    match completeness {
        Completeness::Incomplete => SystemsReferenceStatus::Incomplete,
        Completeness::Invalid => SystemsReferenceStatus::Invalid,
        Completeness::Complete => {
            if candidates.len() == 0 {
                SystemsReferenceStatus::Unresolved
            } else if candidates.len() == 1 {
                if !kind_valid {
                    SystemsReferenceStatus::Invalid
                } else if !same_ids(candidates, stored) {
                    SystemsReferenceStatus::EndpointMismatch
                } else {
                    SystemsReferenceStatus::Complete
                }
            } else {
                SystemsReferenceStatus::Ambiguous
            }
        },
    }
}

fn copy_ids(ids: &[ElementId]) -> (copy: Vec<ElementId>)
    ensures
        copy@ == ids@,
{
    let mut copy: Vec<ElementId> = Vec::new();
    let mut i: usize = 0;
    while i < ids.len()
        invariant
            i <= ids@.len(),
            copy@ == ids@.subrange(0, i as int),
        decreases ids.len() - i,
    {
        copy.push(ids[i]);
        i = i + 1;
    }
    assert(copy@ =~= ids@);
    copy
}

/// Record the final outcome of one mandatory assertion: its answer
/// completeness, candidate endpoints (in answer order), stored endpoints and
/// whether the single candidate has the expected kind.
pub fn audit_reference_answer(
    audit: &mut SystemsPublicationAudit,
    relationship: ElementId,
    completeness: Completeness,
    targets: &[ElementId],
    stored: &[ElementId],
    kind_valid: bool,
)
    requires
        old(audit).mandatory_references < usize::MAX,
        old(audit).complete_references < usize::MAX,
    ensures
        final(audit).checked == old(audit).checked,
        final(audit).mandatory_references == old(audit).mandatory_references + 1,
        ({
            let status = reference_status_spec(completeness, targets@, stored@, kind_valid);
            if status == SystemsReferenceStatus::Complete {
                &&& final(audit).complete_references == old(audit).complete_references + 1
                &&& final(audit).findings@ == old(audit).findings@
            } else {
                &&& final(audit).complete_references == old(audit).complete_references
                &&& final(audit).findings@.len() == old(audit).findings@.len() + 1
                &&& final(audit).findings@.subrange(0, old(audit).findings@.len() as int) == old(audit).findings@
                &&& final(audit).findings@.last() matches SystemsPublicationFinding::Reference(failure)
                &&& failure.relationship == relationship
                &&& failure.status == status
                &&& failure.candidates@ == targets@
                &&& failure.stored@ == stored@
            }
        }),
{
    let status = reference_status(completeness, targets, stored, kind_valid);
    audit.mandatory_references = audit.mandatory_references + 1;
    if status == SystemsReferenceStatus::Complete {
        audit.complete_references = audit.complete_references + 1;
    } else {
        let failure = SystemsReferenceFailure {
            relationship,
            status,
            candidates: copy_ids(targets),
            stored: copy_ids(stored),
        };
        audit.findings.push(SystemsPublicationFinding::Reference(failure));
        assert(audit.findings@.subrange(0, old(audit).findings@.len() as int) =~= old(audit).findings@);
    }
}

/// The exact formal target, original declaration and the message of its
/// failed read, for each rule whose formal target is absent from the corpus.
pub open spec fn authority_targets(rule: Seq<char>) -> Option<(&'static str, &'static str, &'static str)> {
    if rule == "checkViewpointDefinitionSpecialization"@ {
        Some(("Views::Viewpoint", "Views::ViewpointCheck", "Exact formal target Views::Viewpoint is unavailable"))
    } else if rule == "checkViewpointUsageSpecialization"@ {
        Some(("Views::viewpoints", "Views::viewpointChecks", "Exact formal target Views::viewpoints is unavailable"))
    } else if rule == "checkConnectionDefinitionBinarySpecialization"@ {
        Some((
            "Connections::BinaryConnections",
            "Connections::BinaryConnection",
            "Exact formal target Connections::BinaryConnections is unavailable",
        ))
    } else {
        None
    }
}

/// A known standards conflict is witnessed only by the exact failed read of
/// the rule's formal target.
pub open spec fn authority_conflict_spec(
    rule: &'static str,
    subject: ElementId,
    diagnostic: Diagnostic,
) -> Option<SystemsAuthorityConflict> {
    match authority_targets(rule@) {
        Some((formal_target, original_declaration, message)) => if diagnostic.code@
            == "SQ_TARGET_MISSING"@ && diagnostic.message@ == message@ {
            Some(SystemsAuthorityConflict { rule, formal_target, original_declaration, subject })
        } else {
            None
        },
        None => None,
    }
}

pub fn authority_conflict(rule: &'static str, subject: ElementId, diagnostic: &Diagnostic) -> (conflict: Option<SystemsAuthorityConflict>)
    ensures
        conflict == authority_conflict_spec(rule, subject, *diagnostic),
{
    let (formal_target, original_declaration, message) = if text_eq(rule, "checkViewpointDefinitionSpecialization") {
        ("Views::Viewpoint", "Views::ViewpointCheck", "Exact formal target Views::Viewpoint is unavailable")
    } else if text_eq(rule, "checkViewpointUsageSpecialization") {
        ("Views::viewpoints", "Views::viewpointChecks", "Exact formal target Views::viewpoints is unavailable")
    } else if text_eq(rule, "checkConnectionDefinitionBinarySpecialization") {
        (
            "Connections::BinaryConnections",
            "Connections::BinaryConnection",
            "Exact formal target Connections::BinaryConnections is unavailable",
        )
    } else {
        return None;
    };
    if text_eq(diagnostic.code, "SQ_TARGET_MISSING") && text_eq(diagnostic.message.as_str(), message) {
        Some(SystemsAuthorityConflict { rule, formal_target, original_declaration, subject })
    } else {
        None
    }
}

/// At most one conflict, as a sequence.
pub open spec fn optional_conflict(c: Option<SystemsAuthorityConflict>) -> Seq<SystemsAuthorityConflict> {
    match c {
        Some(c) => seq![c],
        None => Seq::empty(),
    }
}

/// Conflicts witnessed by one diagnostic, in rule order.
pub open spec fn diagnostic_conflicts(d: Diagnostic) -> Seq<SystemsAuthorityConflict> {
    optional_conflict(authority_conflict_spec("checkViewpointDefinitionSpecialization", d.subject, d))
        + optional_conflict(authority_conflict_spec("checkViewpointUsageSpecialization", d.subject, d))
        + optional_conflict(authority_conflict_spec("checkConnectionDefinitionBinarySpecialization", d.subject, d))
}

/// Conflicts witnessed by a diagnostic population, in diagnostic order.
pub open spec fn population_conflicts(ds: Seq<Diagnostic>) -> Seq<SystemsAuthorityConflict>
    decreases ds.len(),
{
    if ds.len() == 0 {
        Seq::empty()
    } else {
        population_conflicts(ds.drop_last()) + diagnostic_conflicts(ds.last())
    }
}

/// Only the final producer stage can witness a standards authority conflict.
pub open spec fn final_conflicts_spec(stages: Seq<PublicationStage>) -> Seq<SystemsAuthorityConflict> {
    if stages.len() == 0 {
        Seq::empty()
    } else {
        population_conflicts(stages.last().diagnostics@)
    }
}

fn conflicts_of(d: &Diagnostic) -> (conflicts: Vec<SystemsAuthorityConflict>)
    ensures
        conflicts@ == diagnostic_conflicts(*d),
{
    let mut out: Vec<SystemsAuthorityConflict> = Vec::new();
    let c0 = authority_conflict("checkViewpointDefinitionSpecialization", d.subject, d);
    let c1 = authority_conflict("checkViewpointUsageSpecialization", d.subject, d);
    let c2 = authority_conflict("checkConnectionDefinitionBinarySpecialization", d.subject, d);
    if let Some(c) = c0 {
        out.push(c);
    }
    assert(out@ =~= optional_conflict(c0));
    if let Some(c) = c1 {
        out.push(c);
    }
    assert(out@ =~= optional_conflict(c0) + optional_conflict(c1));
    if let Some(c) = c2 {
        out.push(c);
    }
    assert(out@ =~= optional_conflict(c0) + optional_conflict(c1) + optional_conflict(c2));
    out
}

/// Authority conflicts witnessed by the final stage's diagnostics.
pub fn final_authority_conflicts(stages: &[PublicationStage]) -> (conflicts: Vec<SystemsAuthorityConflict>)
    ensures
        conflicts@ == final_conflicts_spec(stages@),
{
    let mut out: Vec<SystemsAuthorityConflict> = Vec::new();
    if stages.len() == 0 {
        return out;
    }
    let last = &stages[stages.len() - 1];
    let mut i: usize = 0;
    while i < last.diagnostics.len()
        invariant
            i <= last.diagnostics@.len(),
            out@ == population_conflicts(last.diagnostics@.take(i as int)),
        decreases last.diagnostics.len() - i,
    {
        let found = conflicts_of(&last.diagnostics[i]);
        let mut k: usize = 0;
        let ghost before = out@;
        while k < found.len()
            invariant
                k <= found@.len(),
                out@ == before + found@.take(k as int),
            decreases found.len() - k,
        {
            out.push(found[k]);
            k = k + 1;
            assert(found@.take(k as int) =~= found@.take(k - 1).push(found@[k - 1]));
        }
        assert(found@.take(k as int) =~= found@);
        assert(last.diagnostics@.take(i + 1).drop_last() =~= last.diagnostics@.take(i as int));
        i = i + 1;
    }
    assert(last.diagnostics@.take(i as int) =~= last.diagnostics@);
    out
}

/// Findings for a prior production whose final stage witnessed authority
/// conflicts: each conflict, the producer outcome, then every outstanding
/// final diagnostic in its original form.
pub open spec fn prior_authority_findings(production: SystemsConstructionProduction) -> Seq<SystemsPublicationFinding> {
    let conflicts = final_conflicts_spec(production.stages@);
    if production.stages@.len() == 0 || conflicts.len() == 0 {
        Seq::empty()
    } else {
        conflicts.map_values(|c: SystemsAuthorityConflict| SystemsPublicationFinding::Authority(c))
            + seq![SystemsPublicationFinding::Producers {
                completeness: production.completeness,
                converged: production.converged,
            }]
            + production.stages@.last().diagnostics@.map_values(|d: Diagnostic| SystemsPublicationFinding::ProducerDiagnostic(d))
    }
}

/// A known standards conflict does not relabel ordinary implementation gaps;
/// a transient failure in a superseded stage is no final authority witness.
pub fn audit_prior_authority(
    production: Option<&SystemsConstructionProduction>,
    audit: &mut SystemsPublicationAudit,
)
    ensures
        final(audit).checked == old(audit).checked,
        final(audit).mandatory_references == old(audit).mandatory_references,
        final(audit).complete_references == old(audit).complete_references,
        final(audit).findings@ == old(audit).findings@ + match production {
            Some(p) => prior_authority_findings(*p),
            None => Seq::empty(),
        },
{
    let production = match production {
        Some(p) => p,
        None => {
            assert(audit.findings@ =~= old(audit).findings@ + Seq::<SystemsPublicationFinding>::empty());
            return;
        },
    };
    if production.stages.len() == 0 {
        assert(audit.findings@ =~= old(audit).findings@ + Seq::<SystemsPublicationFinding>::empty());
        return;
    }
    let conflicts = final_authority_conflicts(production.stages.as_slice());
    if conflicts.len() == 0 {
        assert(audit.findings@ =~= old(audit).findings@ + Seq::<SystemsPublicationFinding>::empty());
        return;
    }
    let last = &production.stages[production.stages.len() - 1];
    let ghost start = audit.findings@;
    let mut i: usize = 0;
    while i < conflicts.len()
        invariant
            i <= conflicts@.len(),
            audit.findings@ == start + conflicts@.take(i as int).map_values(|c: SystemsAuthorityConflict| SystemsPublicationFinding::Authority(c)),
            audit.checked == old(audit).checked,
            audit.mandatory_references == old(audit).mandatory_references,
            audit.complete_references == old(audit).complete_references,
        decreases conflicts.len() - i,
    {
        audit.findings.push(SystemsPublicationFinding::Authority(conflicts[i]));
        i = i + 1;
        assert(conflicts@.take(i as int).map_values(|c: SystemsAuthorityConflict| SystemsPublicationFinding::Authority(c))
            =~= conflicts@.take(i - 1).map_values(|c: SystemsAuthorityConflict| SystemsPublicationFinding::Authority(c)).push(SystemsPublicationFinding::Authority(conflicts@[i - 1])));
    }
    assert(conflicts@.take(i as int) =~= conflicts@);
    audit.findings.push(SystemsPublicationFinding::Producers {
        completeness: production.completeness,
        converged: production.converged,
    });
    let ghost middle = audit.findings@;
    let mut k: usize = 0;
    while k < last.diagnostics.len()
        invariant
            k <= last.diagnostics@.len(),
            audit.findings@ == middle + last.diagnostics@.take(k as int).map_values(|d: Diagnostic| SystemsPublicationFinding::ProducerDiagnostic(d)),
            audit.checked == old(audit).checked,
            audit.mandatory_references == old(audit).mandatory_references,
            audit.complete_references == old(audit).complete_references,
        decreases last.diagnostics.len() - k,
    {
        audit.findings.push(SystemsPublicationFinding::ProducerDiagnostic(last.diagnostics[k].clone()));
        k = k + 1;
        assert(last.diagnostics@.take(k as int).map_values(|d: Diagnostic| SystemsPublicationFinding::ProducerDiagnostic(d))
            =~= last.diagnostics@.take(k - 1).map_values(|d: Diagnostic| SystemsPublicationFinding::ProducerDiagnostic(d)).push(SystemsPublicationFinding::ProducerDiagnostic(last.diagnostics@[k - 1])));
    }
    assert(last.diagnostics@.take(k as int) =~= last.diagnostics@);
    assert(audit.findings@ =~= old(audit).findings@ + prior_authority_findings(*production));
}

/// Corpus acceptance baseline for the exact pinned Systems source set: the
/// number of its mandatory reference assertions. This is not a limit on
/// authored SysML projects or a language conformance rule.
pub const SYSTEMS_MANDATORY_REFERENCE_ASSERTIONS: usize = 1327;

/// No two references are the same source assertion.
pub open spec fn distinct_assertions(references: Seq<PendingLibraryReference>) -> bool {
    forall|i: int, j: int|
        0 <= i < j < references.len() ==> reference_key(references[i]) != reference_key(references[j])
}

pub open spec fn reference_population_findings(references: Seq<PendingLibraryReference>) -> Seq<SystemsPublicationFinding> {
    (if references.len() != SYSTEMS_MANDATORY_REFERENCE_ASSERTIONS {
        seq![SystemsPublicationFinding::Identity("exact 1,327 Systems mandatory reference assertions")]
    } else {
        Seq::empty()
    }) + (if !distinct_assertions(references) {
        seq![SystemsPublicationFinding::Identity("distinct Systems mandatory source assertions")]
    } else {
        Seq::empty()
    })
}

/// Whether a reference population holds no repeated source assertion. One
/// relationship/property pair can carry distinct assertions; only an exact
/// duplicate, including source identity and range, could pad the population.
pub fn all_distinct_assertions(references: &[PendingLibraryReference]) -> (distinct: bool)
    ensures
        distinct == distinct_assertions(references@),
{
    let n = references.len();
    let mut i: usize = 0;
    while i < n
        invariant
            n == references@.len(),
            i <= n,
            forall|a: int, b: int| 0 <= a < b < n && a < i ==> reference_key(references@[a]) != reference_key(references@[b]),
        decreases n - i,
    {
        let mut j: usize = i + 1;
        while j < n
            invariant
                n == references@.len(),
                i < n,
                i < j <= n,
                forall|a: int, b: int| 0 <= a < b < n && a < i ==> reference_key(references@[a]) != reference_key(references@[b]),
                forall|b: int| i < b < j ==> reference_key(references@[i as int]) != reference_key(references@[b]),
            decreases n - j,
        {
            if same_reference(&references[i], &references[j]) {
                return false;
            }
            j = j + 1;
        }
        i = i + 1;
    }
    true
}

/// The pinned mandatory population must be exact and free of padding.
pub fn audit_reference_population(references: &[PendingLibraryReference], audit: &mut SystemsPublicationAudit)
    ensures
        final(audit).checked == old(audit).checked,
        final(audit).mandatory_references == old(audit).mandatory_references,
        final(audit).complete_references == old(audit).complete_references,
        final(audit).findings@ == old(audit).findings@ + reference_population_findings(references@),
{
    if references.len() != SYSTEMS_MANDATORY_REFERENCE_ASSERTIONS {
        audit.findings.push(SystemsPublicationFinding::Identity("exact 1,327 Systems mandatory reference assertions"));
    }
    let ghost after_count = audit.findings@;
    if !all_distinct_assertions(references) {
        audit.findings.push(SystemsPublicationFinding::Identity("distinct Systems mandatory source assertions"));
    }
    assert(audit.findings@ =~= old(audit).findings@ + reference_population_findings(references@));
}

/// The exact syntax node ranges of one complete source revision.
#[derive(Clone, Debug)]
pub struct SourceDocumentNodes {
    pub document: DocumentId,
    pub revision: SourceRevisionId,
    pub nodes: Vec<(SyntaxNodeId, ByteRange)>,
}

/// Syntax arenas of complete source documents, one entry per document.
#[derive(Clone, Debug)]
pub struct SourceNodes {
    pub documents: Vec<SourceDocumentNodes>,
}

impl SourceNodes {
    /// Documents and, within each, syntax nodes appear at most once.
    pub open spec fn wf(&self) -> bool {
        &&& forall|i: int, j: int|
            0 <= i < j < self.documents@.len() ==> self.documents@[i].document != self.documents@[j].document
        &&& forall|i: int, a: int, b: int|
            0 <= i < self.documents@.len() && 0 <= a < b < self.documents@[i].nodes@.len()
                ==> self.documents@[i].nodes@[a].0 != self.documents@[i].nodes@[b].0
    }
}

/// Source evidence is valid only at an exact node of the exact revision.
pub open spec fn valid_source_origin_spec(origin: SourceOrigin, nodes: SourceNodes) -> bool {
    exists|i: int| #![trigger nodes.documents@[i]]
        0 <= i < nodes.documents@.len() && nodes.documents@[i].document == origin.document
            && nodes.documents@[i].revision == origin.revision && match origin.syntax_node {
            Some(node) => exists|j: int|
                0 <= j < nodes.documents@[i].nodes@.len() && nodes.documents@[i].nodes@[j] == (node, origin.range),
            None => false,
        }
}

pub fn valid_source_origin(origin: &SourceOrigin, nodes: &SourceNodes) -> (valid: bool)
    requires
        nodes.wf(),
    ensures
        valid == valid_source_origin_spec(*origin, *nodes),
{
    let mut i: usize = 0;
    while i < nodes.documents.len()
        invariant
            nodes.wf(),
            i <= nodes.documents@.len(),
            forall|k: int| 0 <= k < i ==> nodes.documents@[k].document != origin.document,
        decreases nodes.documents.len() - i,
    {
        let entry = &nodes.documents[i];
        if entry.document == origin.document {
            if entry.revision != origin.revision {
                return false;
            }
            let node = match origin.syntax_node {
                Some(node) => node,
                None => return false,
            };
            let mut j: usize = 0;
            while j < entry.nodes.len()
                invariant
                    nodes.wf(),
                    i < nodes.documents@.len(),
                    *entry == nodes.documents@[i as int],
                    entry.document == origin.document,
                    entry.revision == origin.revision,
                    origin.syntax_node == Some(node),
                    forall|k: int| 0 <= k < i ==> nodes.documents@[k].document != origin.document,
                    j <= entry.nodes@.len(),
                    forall|k: int| 0 <= k < j ==> entry.nodes@[k].0 != node,
                decreases entry.nodes.len() - j,
            {
                if entry.nodes[j].0 == node {
                    let found = entry.nodes[j].1 == origin.range;
                    proof {
                        if found {
                            assert(nodes.documents@[i as int].nodes@[j as int] == (node, origin.range));
                        } else {
                            assert forall|d: int| 0 <= d < nodes.documents@.len() && nodes.documents@[d].document == origin.document
                                implies !(exists|k: int| 0 <= k < nodes.documents@[d].nodes@.len() && nodes.documents@[d].nodes@[k] == (node, origin.range)) by {
                                if d != i {
                                    if d < i {
                                    } else {
                                        assert(nodes.documents@[i as int].document != nodes.documents@[d].document);
                                    }
                                }
                                assert forall|k: int| 0 <= k < entry.nodes@.len() implies entry.nodes@[k] != (node, origin.range) by {
                                    if k != j && entry.nodes@[k].0 == node {
                                        if k > j {
                                            assert(entry.nodes@[j as int].0 != entry.nodes@[k].0);
                                        }
                                    }
                                }
                            }
                        }
                    }
                    return found;
                }
                j = j + 1;
            }
            return false;
        }
        i = i + 1;
    }
    false
}

/// A declared fact is accepted only with the expected origin and valid exact
/// source evidence; otherwise its key is a provenance finding.
pub fn audit_source_fact(
    fact: FactKey,
    origin: &Origin,
    expected: &Origin,
    source_map: &LibrarySourceMap,
    source_nodes: &SourceNodes,
    audit: &mut SystemsPublicationAudit,
)
    requires
        old(audit).wf(),
        source_map.wf(),
        source_nodes.wf(),
        old(audit).checked.count(SystemsPublicationFamily::IdentityProvenance) matches Some(c) ==> c < usize::MAX,
    ensures
        final(audit).wf(),
        final(audit).mandatory_references == old(audit).mandatory_references,
        final(audit).complete_references == old(audit).complete_references,
        ({
            let accepted = *origin == *expected && match source_map.lookup(fact) {
                Some(s) => valid_source_origin_spec(s, *source_nodes),
                None => false,
            };
            if accepted {
                &&& final(audit).findings@ == old(audit).findings@
                &&& final(audit).checked.count(SystemsPublicationFamily::IdentityProvenance) == Some(
                    (match old(audit).checked.count(SystemsPublicationFamily::IdentityProvenance) {
                        Some(c) => c + 1,
                        None => 1,
                    }) as usize)
                &&& forall|f: SystemsPublicationFamily| f != SystemsPublicationFamily::IdentityProvenance
                    ==> final(audit).checked.count(f) == old(audit).checked.count(f)
            } else {
                &&& final(audit).findings@ == old(audit).findings@.push(SystemsPublicationFinding::Provenance(fact))
                &&& final(audit).checked == old(audit).checked
            }
        }),
{
    let valid = *origin == *expected && match source_map.get(fact) {
        Some(s) => valid_source_origin(&s, source_nodes),
        None => false,
    };
    if !valid {
        audit.findings.push(SystemsPublicationFinding::Provenance(fact));
    } else {
        audit.checked(SystemsPublicationFamily::IdentityProvenance, 1);
    }
}

/// The identity findings of the failing checks, in order.
pub open spec fn identity_findings(checks: Seq<(bool, &'static str)>) -> Seq<SystemsPublicationFinding>
    decreases checks.len(),
{
    if checks.len() == 0 {
        Seq::empty()
    } else {
        let rest = identity_findings(checks.drop_last());
        if checks.last().0 {
            rest
        } else {
            rest.push(SystemsPublicationFinding::Identity(checks.last().1))
        }
    }
}

/// Record an identity finding for each failing named identity check, in order.
pub fn audit_identity_fields(checks: &[(bool, &'static str)], audit: &mut SystemsPublicationAudit)
    ensures
        final(audit).findings@ == old(audit).findings@ + identity_findings(checks@),
        final(audit).checked == old(audit).checked,
        final(audit).mandatory_references == old(audit).mandatory_references,
        final(audit).complete_references == old(audit).complete_references,
{
    let mut i: usize = 0;
    while i < checks.len()
        invariant
            i <= checks@.len(),
            audit.checked == old(audit).checked,
            audit.mandatory_references == old(audit).mandatory_references,
            audit.complete_references == old(audit).complete_references,
            audit.findings@ == old(audit).findings@ + identity_findings(checks@.subrange(0, i as int)),
        decreases checks@.len() - i,
    {
        proof {
            assert(checks@.subrange(0, i + 1).drop_last() =~= checks@.subrange(0, i as int));
            assert(checks@.subrange(0, i + 1).last() == checks@[i as int]);
        }
        let (valid, field) = checks[i];
        if !valid {
            audit.findings.push(SystemsPublicationFinding::Identity(field));
            proof {
                assert(audit.findings@ =~= old(audit).findings@ + identity_findings(checks@.subrange(0, i + 1)));
            }
        }
        i = i + 1;
    }
    proof {
        assert(checks@.subrange(0, checks@.len() as int) =~= checks@);
    }
}

/// Semantic publication families reported by the KerML producer schedule.
#[derive(Clone, Copy, Debug, PartialEq, Eq, Structural)]
pub enum PublicationFamily {
    NamespaceImports,
    EffectiveMembership,
    StandardBindings,
    IdentityProvenance,
    ConnectorsAssociations,
    Specialization,
    Typing,
    Featuring,
    FeatureChains,
    CrossFeatures,
    ExpressionResults,
    FeatureValues,
    Multiplicity,
}

pub open spec fn map_family_spec(family: PublicationFamily) -> SystemsPublicationFamily {
    match family {
        PublicationFamily::NamespaceImports | PublicationFamily::EffectiveMembership => SystemsPublicationFamily::NamespacesImports,
        PublicationFamily::StandardBindings => SystemsPublicationFamily::StandardBindings,
        PublicationFamily::IdentityProvenance => SystemsPublicationFamily::IdentityProvenance,
        PublicationFamily::ConnectorsAssociations => SystemsPublicationFamily::PortConnectionInterfaceFlow,
        _ => SystemsPublicationFamily::TypingSpecializationSubsettingRedefinition,
    }
}

/// The Systems capability family under which a KerML family's checks count.
pub fn map_family(family: PublicationFamily) -> (mapped: SystemsPublicationFamily)
    ensures
        mapped == map_family_spec(family),
{
    match family {
        PublicationFamily::NamespaceImports | PublicationFamily::EffectiveMembership => SystemsPublicationFamily::NamespacesImports,
        PublicationFamily::StandardBindings => SystemsPublicationFamily::StandardBindings,
        PublicationFamily::IdentityProvenance => SystemsPublicationFamily::IdentityProvenance,
        PublicationFamily::ConnectorsAssociations => SystemsPublicationFamily::PortConnectionInterfaceFlow,
        PublicationFamily::Specialization
        | PublicationFamily::Typing
        | PublicationFamily::Featuring
        | PublicationFamily::FeatureChains
        | PublicationFamily::CrossFeatures
        | PublicationFamily::ExpressionResults
        | PublicationFamily::FeatureValues
        | PublicationFamily::Multiplicity => SystemsPublicationFamily::TypingSpecializationSubsettingRedefinition,
    }
}

/// The debug spelling of each family, under which persisted counts are keyed.
pub open spec fn family_name_spec(family: SystemsPublicationFamily) -> &'static str {
    match family {
        SystemsPublicationFamily::Syntax => "Syntax",
        SystemsPublicationFamily::CanonicalLowering => "CanonicalLowering",
        SystemsPublicationFamily::NamespacesImports => "NamespacesImports",
        SystemsPublicationFamily::DefinitionUsage => "DefinitionUsage",
        SystemsPublicationFamily::AttributeItemPart => "AttributeItemPart",
        SystemsPublicationFamily::OccurrenceActionState => "OccurrenceActionState",
        SystemsPublicationFamily::CalculationConstraintRequirementCase => "CalculationConstraintRequirementCase",
        SystemsPublicationFamily::PortConnectionInterfaceFlow => "PortConnectionInterfaceFlow",
        SystemsPublicationFamily::ViewMetadata => "ViewMetadata",
        SystemsPublicationFamily::TypingSpecializationSubsettingRedefinition => "TypingSpecializationSubsettingRedefinition",
        SystemsPublicationFamily::MayTimeVary => "MayTimeVary",
        SystemsPublicationFamily::StandardBindings => "StandardBindings",
        SystemsPublicationFamily::IdentityProvenance => "IdentityProvenance",
    }
}

impl SystemsPublicationFamily {
    /// The debug spelling of this family.
    pub fn name(self) -> (name: &'static str)
        ensures
            name == family_name_spec(self),
    {
        match self {
            SystemsPublicationFamily::Syntax => "Syntax",
            SystemsPublicationFamily::CanonicalLowering => "CanonicalLowering",
            SystemsPublicationFamily::NamespacesImports => "NamespacesImports",
            SystemsPublicationFamily::DefinitionUsage => "DefinitionUsage",
            SystemsPublicationFamily::AttributeItemPart => "AttributeItemPart",
            SystemsPublicationFamily::OccurrenceActionState => "OccurrenceActionState",
            SystemsPublicationFamily::CalculationConstraintRequirementCase => "CalculationConstraintRequirementCase",
            SystemsPublicationFamily::PortConnectionInterfaceFlow => "PortConnectionInterfaceFlow",
            SystemsPublicationFamily::ViewMetadata => "ViewMetadata",
            SystemsPublicationFamily::TypingSpecializationSubsettingRedefinition => "TypingSpecializationSubsettingRedefinition",
            SystemsPublicationFamily::MayTimeVary => "MayTimeVary",
            SystemsPublicationFamily::StandardBindings => "StandardBindings",
            SystemsPublicationFamily::IdentityProvenance => "IdentityProvenance",
        }
    }
}

/// A persisted publication facade failed an exact identity or population check.
#[derive(Clone, Copy, Debug, PartialEq, Eq)]
pub enum SystemsPublicationCacheError {
    Mismatch(&'static str),
}

/// Keys of a persisted name-keyed table; each key appears at most once.
pub open spec fn distinct_names<V>(entries: Seq<(String, V)>) -> bool {
    forall|i: int, j: int| 0 <= i < j < entries.len() ==> entries[i].0@ != entries[j].0@
}

/// The nonzero persisted count of a family, if its name is present.
pub open spec fn persisted_family_count(entries: Seq<(String, usize)>, family: SystemsPublicationFamily) -> Option<usize> {
    if exists|i: int| 0 <= i < entries.len() && entries[i].0@ == family_name_spec(family)@ {
        let i = choose|i: int| 0 <= i < entries.len() && entries[i].0@ == family_name_spec(family)@;
        Some(entries[i].1)
    } else {
        None
    }
}

/// A persisted count table is accepted only with exactly one nonzero count
/// per family, keyed by its debug spelling.
pub open spec fn families_complete(entries: Seq<(String, usize)>) -> bool {
    &&& entries.len() == FAMILY_COUNT
    &&& forall|f: SystemsPublicationFamily| #[trigger] persisted_family_count(entries, f) matches Some(c) && c != 0
}

fn find_count(entries: &[(String, usize)], name: &'static str) -> (found: Option<usize>)
    requires
        distinct_names(entries@),
    ensures
        found == (if exists|i: int| 0 <= i < entries@.len() && entries@[i].0@ == name@ {
            let i = choose|i: int| 0 <= i < entries@.len() && entries@[i].0@ == name@;
            Some(entries@[i].1)
        } else {
            None::<usize>
        }),
{
    let mut i: usize = 0;
    while i < entries.len()
        invariant
            distinct_names(entries@),
            i <= entries@.len(),
            forall|k: int| 0 <= k < i ==> entries@[k].0@ != name@,
        decreases entries.len() - i,
    {
        if text_eq(entries[i].0.as_str(), name) {
            proof {
                let k = choose|k: int| 0 <= k < entries@.len() && entries@[k].0@ == name@;
                assert(k == i);
            }
            return Some(entries[i].1);
        }
        i = i + 1;
    }
    None
}

/// Read the persisted per-family counts, in family order.
pub fn checked_families(entries: &[(String, usize)]) -> (families: Result<Vec<(SystemsPublicationFamily, usize)>, SystemsPublicationCacheError>)
    requires
        distinct_names(entries@),
    ensures
        families is Ok <==> families_complete(entries@),
        families matches Err(e) ==> e == SystemsPublicationCacheError::Mismatch("checked family population"),
        families matches Ok(v) ==> v@.len() == FAMILY_COUNT && forall|i: int| 0 <= i < FAMILY_COUNT ==>
            v@[i].0 == family_at(i) && Some(v@[i].1) == persisted_family_count(entries@, family_at(i)),
{
    if entries.len() != FAMILY_COUNT {
        return Err(SystemsPublicationCacheError::Mismatch("checked family population"));
    }
    let mut out: Vec<(SystemsPublicationFamily, usize)> = Vec::new();
    let mut i: usize = 0;
    while i < FAMILY_COUNT
        invariant
            distinct_names(entries@),
            entries@.len() == FAMILY_COUNT,
            i <= FAMILY_COUNT,
            out@.len() == i,
            forall|k: int| 0 <= k < i ==> out@[k].0 == family_at(k) && Some(out@[k].1) == persisted_family_count(entries@, family_at(k)) && out@[k].1 != 0,
        decreases FAMILY_COUNT - i,
    {
        let family = SystemsPublicationFamily::at(i);
        match find_count(entries, family.name()) {
            Some(count) if count != 0 => {
                out.push((family, count));
            },
            _ => {
                return Err(SystemsPublicationCacheError::Mismatch("checked family population"));
            },
        }
        i = i + 1;
    }
    proof {
        assert forall|f: SystemsPublicationFamily| #[trigger] persisted_family_count(entries@, f) matches Some(c) && c != 0 by {
            lemma_family_positions(f, 0);
            let k = family_index(f);
            assert(out@[k].0 == f);
        }
    }
    Ok(out)
}

/// The exact entries of a Systems publication archive.
pub open spec fn archive_entry_names() -> Set<Seq<char>> {
    set!["closure.json"@, "facade.json"@, "kernel.jsonl"@]
}

/// An archive entry is a directory or repeats an earlier name.
pub open spec fn has_directory_or_duplicate(entries: Seq<(String, bool)>) -> bool {
    exists|i: int| 0 <= i < entries.len() && (entries[i].1 || exists|j: int| 0 <= j < i && entries[j].0@ == entries[i].0@)
}

pub open spec fn entry_names(entries: Seq<(String, bool)>) -> Set<Seq<char>> {
    Set::new(|name: Seq<char>| exists|i: int| 0 <= i < entries.len() && entries[i].0@ == name)
}

fn name_is_entry(name: &str) -> (member: bool)
    ensures
        member == archive_entry_names().contains(name@),
{
    text_eq(name, "closure.json") || text_eq(name, "facade.json") || text_eq(name, "kernel.jsonl")
}

/// Archive entries, in archive order, as (name, is directory). The archive
/// must hold exactly the publication entries: no directory, alias or duplicate.
pub fn check_entries(entries: &[(String, bool)]) -> (result: Result<(), SystemsPublicationCacheError>)
    ensures
        has_directory_or_duplicate(entries@) ==> result == Err::<(), _>(SystemsPublicationCacheError::Mismatch("archive duplicate or directory")),
        !has_directory_or_duplicate(entries@) ==> (result is Ok <==> entry_names(entries@) == archive_entry_names()),
        !has_directory_or_duplicate(entries@) && result is Err ==> result == Err::<(), _>(SystemsPublicationCacheError::Mismatch("archive entries")),
{
    let n = entries.len();
    let mut i: usize = 0;
    while i < n
        invariant
            n == entries@.len(),
            i <= n,
            forall|k: int| 0 <= k < i ==> !entries@[k].1,
            forall|j: int, k: int| 0 <= j < k < i ==> entries@[j].0@ != entries@[k].0@,
        decreases n - i,
    {
        if entries[i].1 {
            return Err(SystemsPublicationCacheError::Mismatch("archive duplicate or directory"));
        }
        let mut j: usize = 0;
        while j < i
            invariant
                n == entries@.len(),
                i < n,
                j <= i,
                forall|k: int| 0 <= k < i ==> !entries@[k].1,
                forall|a: int, k: int| 0 <= a < k < i ==> entries@[a].0@ != entries@[k].0@,
                forall|k: int| 0 <= k < j ==> entries@[k].0@ != entries@[i as int].0@,
            decreases i - j,
        {
            if entries[j].0 == entries[i].0 {
                return Err(SystemsPublicationCacheError::Mismatch("archive duplicate or directory"));
            }
            j = j + 1;
        }
        i = i + 1;
    }
    // Distinct names: the set is exact iff there are three, all expected.
    if n != 3 {
        proof {
            lemma_distinct_names_len(entries@);
        }
        return Err(SystemsPublicationCacheError::Mismatch("archive entries"));
    }
    let ok = name_is_entry(entries[0].0.as_str()) && name_is_entry(entries[1].0.as_str()) && name_is_entry(entries[2].0.as_str());
    proof {
        lemma_distinct_names_len(entries@);
        if ok {
            let names = entry_names(entries@);
            assert(names.subset_of(archive_entry_names()));
            assert(names.len() == 3);
            vstd::set_lib::lemma_subset_equality(names, archive_entry_names());
        } else {
            assert(!entry_names(entries@).subset_of(archive_entry_names()));
        }
    }
    if ok { Ok(()) } else { Err(SystemsPublicationCacheError::Mismatch("archive entries")) }
}

/// Distinct entry names have as many names as entries.
proof fn lemma_distinct_names_len(entries: Seq<(String, bool)>)
    requires
        forall|j: int, k: int| 0 <= j < k < entries.len() ==> entries[j].0@ != entries[k].0@,
    ensures
        entry_names(entries).finite(),
        entry_names(entries).len() == entries.len(),
        archive_entry_names().len() == 3,
    decreases entries.len(),
{
    assert(archive_entry_names().len() == 3) by {
        reveal_strlit("closure.json");
        reveal_strlit("facade.json");
        reveal_strlit("kernel.jsonl");
        assert("closure.json"@.len() != "facade.json"@.len());
        assert("closure.json"@[0] != "kernel.jsonl"@[0]);
        assert("facade.json"@.len() != "kernel.jsonl"@.len());
    }
    if entries.len() == 0 {
        assert(entry_names(entries) =~= Set::empty());
    } else {
        let init = entries.drop_last();
        lemma_distinct_names_len(init);
        assert forall|name: Seq<char>| entry_names(entries).contains(name) <==> entry_names(init).insert(entries.last().0@).contains(name) by {
            if entry_names(entries).contains(name) {
                let i = choose|i: int| 0 <= i < entries.len() && entries[i].0@ == name;
                if i < entries.len() - 1 {
                    assert(init[i] == entries[i]);
                }
            }
            if entry_names(init).contains(name) {
                let i = choose|i: int| 0 <= i < init.len() && init[i].0@ == name;
                assert(entries[i] == init[i]);
            }
            if name == entries.last().0@ {
                assert(entries[entries.len() - 1].0@ == name);
            }
        }
        assert(entry_names(entries) =~= entry_names(init).insert(entries.last().0@));
        assert(!entry_names(init).contains(entries.last().0@));
    }
}


/// The admission findings of a candidate: a restricted population is no
/// acceptance, and neither is a construction with kernel obligations left.
pub open spec fn admission_findings(restricted: bool, obligations: usize) -> Seq<SystemsPublicationFinding> {
    (if restricted {
        seq![SystemsPublicationFinding::Identity("restricted publication population")]
    } else {
        Seq::empty()
    }) + (if obligations != 0 {
        seq![SystemsPublicationFinding::KernelObligations(obligations)]
    } else {
        Seq::empty()
    })
}

/// The admission gate of publication. After the input audit, record the
/// restricted-population and kernel-obligation findings and the prior
/// authority findings, in that order; the candidate passes on only when the
/// report then holds no finding at all, and is rejected with the report
/// otherwise.
pub fn admit_candidate(
    restricted: bool,
    obligations: usize,
    production: Option<&SystemsConstructionProduction>,
    audit: SystemsPublicationAudit,
) -> (r: Result<SystemsPublicationAudit, SystemsPublicationAudit>)
    ensures
        ({
            let report = match r {
                Ok(a) => a,
                Err(a) => a,
            };
            &&& report.checked == audit.checked
            &&& report.mandatory_references == audit.mandatory_references
            &&& report.complete_references == audit.complete_references
            &&& report.findings@ == audit.findings@ + admission_findings(restricted, obligations) + match production {
                Some(p) => prior_authority_findings(*p),
                None => Seq::empty(),
            }
            &&& (r is Ok <==> report.findings@.len() == 0)
        }),
{
    let mut audit = audit;
    let ghost start = audit.findings@;
    if restricted {
        audit.findings.push(SystemsPublicationFinding::Identity("restricted publication population"));
    }
    if obligations != 0 {
        audit.findings.push(SystemsPublicationFinding::KernelObligations(obligations));
    }
    assert(audit.findings@ =~= start + admission_findings(restricted, obligations));
    audit_prior_authority(production, &mut audit);
    if audit.findings.len() == 0 {
        Ok(audit)
    } else {
        Err(audit)
    }
}

} // verus!
