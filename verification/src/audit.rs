//! Tallying an authored effective audit subject by subject. A subject whose
//! earlier successful outcome is still valid contributes that outcome again;
//! any other subject is evaluated, and its outcome is kept for reuse only when
//! it succeeded within a closed audit context.
use crate::publication::{combined, FamilyCounts, SystemsPublicationAudit, SystemsPublicationFamily};
use vstd::prelude::*;

verus! {

/// A successful subject audit that a later compilation may reuse.
#[derive(Debug)]
pub struct SuccessfulAudit {
    pub checked: FamilyCounts,
    pub mandatory_references: usize,
    pub complete_references: usize,
}

/// The running report of an effective audit with its reuse counters.
#[derive(Debug)]
pub struct AuditTally {
    pub report: SystemsPublicationAudit,
    /// Subjects whose earlier outcome was reused.
    pub reused: usize,
    /// Family checks carried over by reuse.
    pub reused_checks: usize,
}

impl AuditTally {
    /// Nothing tallied yet.
    pub fn new() -> (tally: AuditTally)
        ensures
            tally.report.wf(),
            forall|f: SystemsPublicationFamily| #[trigger] tally.report.checked.count(f) is None,
            tally.report.mandatory_references == 0,
            tally.report.complete_references == 0,
            tally.report.findings@.len() == 0,
            tally.reused == 0,
            tally.reused_checks == 0,
    {
        AuditTally { report: SystemsPublicationAudit::default(), reused: 0, reused_checks: 0 }
    }

    /// Count a subject by its still-valid earlier outcome.
    pub fn reuse(&mut self, entry: &SuccessfulAudit)
        requires
            old(self).report.wf(),
            entry.checked.wf(),
            old(self).report.checked.mergeable(&entry.checked),
            old(self).reused < usize::MAX,
            old(self).reused_checks + entry.checked.total() <= usize::MAX,
            old(self).report.mandatory_references + entry.mandatory_references <= usize::MAX,
            old(self).report.complete_references + entry.complete_references <= usize::MAX,
        ensures
            final(self).report.wf(),
            forall|f: SystemsPublicationFamily| #[trigger] final(self).report.checked.count(f) == combined(
                old(self).report.checked.count(f),
                entry.checked.count(f),
            ),
            final(self).report.mandatory_references == old(self).report.mandatory_references + entry.mandatory_references,
            final(self).report.complete_references == old(self).report.complete_references + entry.complete_references,
            final(self).report.findings@ == old(self).report.findings@,
            final(self).reused == old(self).reused + 1,
            final(self).reused_checks == old(self).reused_checks + entry.checked.total(),
    {
        proof {
            entry.checked.lemma_total_nonnegative();
        }
        let carried = entry.checked.sum();
        self.report.checked.merge(&entry.checked);
        self.report.mandatory_references = self.report.mandatory_references + entry.mandatory_references;
        self.report.complete_references = self.report.complete_references + entry.complete_references;
        self.reused = self.reused + 1;
        self.reused_checks = self.reused_checks + carried;
    }

    /// Count a freshly evaluated subject. Its outcome is kept for reuse when the
    /// audit context is closed and the subject produced no finding.
    pub fn evaluate(&mut self, one: SystemsPublicationAudit, closed: bool) -> (retained: Option<SuccessfulAudit>)
        requires
            old(self).report.wf(),
            one.wf(),
            old(self).report.checked.mergeable(&one.checked),
            old(self).report.mandatory_references + one.mandatory_references <= usize::MAX,
            old(self).report.complete_references + one.complete_references <= usize::MAX,
        ensures
            final(self).report.wf(),
            forall|f: SystemsPublicationFamily| #[trigger] final(self).report.checked.count(f) == combined(
                old(self).report.checked.count(f),
                one.checked.count(f),
            ),
            final(self).report.mandatory_references == old(self).report.mandatory_references + one.mandatory_references,
            final(self).report.complete_references == old(self).report.complete_references + one.complete_references,
            final(self).report.findings@ == old(self).report.findings@ + one.findings@,
            final(self).reused == old(self).reused,
            final(self).reused_checks == old(self).reused_checks,
            retained is Some <==> closed && one.findings@.len() == 0,
            retained matches Some(r) ==> r.checked.wf() && (forall|f: SystemsPublicationFamily| #[trigger] r.checked.count(f)
                == one.checked.count(f)) && r.checked.total() == one.checked.total() && r.mandatory_references
                == one.mandatory_references && r.complete_references == one.complete_references,
    {
        let mut one = one;
        let retained = if closed && one.findings.len() == 0 {
            Some(
                SuccessfulAudit {
                    checked: one.checked.duplicate(),
                    mandatory_references: one.mandatory_references,
                    complete_references: one.complete_references,
                },
            )
        } else {
            None
        };
        self.report.checked.merge(&one.checked);
        self.report.mandatory_references = self.report.mandatory_references + one.mandatory_references;
        self.report.complete_references = self.report.complete_references + one.complete_references;
        self.report.findings.append(&mut one.findings);
        retained
    }
}

} // verus!
