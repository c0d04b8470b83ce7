use kerml_text::audit::AuditTally;
use kerml_text::publication::{
    audit_identity_fields, SystemsPublicationAudit, SystemsPublicationFamily, SystemsPublicationFinding,
};

fn outcome(checks: &[(SystemsPublicationFamily, usize)], mandatory: usize, complete: usize) -> SystemsPublicationAudit {
    let mut one = SystemsPublicationAudit::default();
    for &(family, count) in checks {
        one.checked(family, count);
    }
    one.mandatory_references = mandatory;
    one.complete_references = complete;
    one
}

#[test]
fn evaluated_subjects_add_their_outcome() {
    let mut tally = AuditTally::new();
    let retained = tally.evaluate(outcome(&[(SystemsPublicationFamily::Syntax, 2)], 1, 1), true);
    let retained = retained.expect("a clean outcome in a closed context is kept");
    assert_eq!(retained.checked.get(SystemsPublicationFamily::Syntax), Some(2));
    assert_eq!(retained.mandatory_references, 1);
    let mut failing = outcome(&[(SystemsPublicationFamily::Syntax, 1), (SystemsPublicationFamily::ViewMetadata, 3)], 2, 0);
    failing.findings.push(SystemsPublicationFinding::Identity("subject"));
    assert!(tally.evaluate(failing, true).is_none());
    assert!(tally.evaluate(outcome(&[], 0, 0), false).is_none());
    assert_eq!(tally.report.checked.get(SystemsPublicationFamily::Syntax), Some(3));
    assert_eq!(tally.report.checked.get(SystemsPublicationFamily::ViewMetadata), Some(3));
    assert_eq!(tally.report.checked.get(SystemsPublicationFamily::MayTimeVary), None);
    assert_eq!(tally.report.mandatory_references, 3);
    assert_eq!(tally.report.complete_references, 1);
    assert_eq!(tally.report.findings.len(), 1);
    assert_eq!(tally.reused, 0);
    assert_eq!(tally.reused_checks, 0);
}

#[test]
fn reusing_a_retained_outcome_tallies_what_evaluating_it_did() {
    let clean = || outcome(&[(SystemsPublicationFamily::Syntax, 2), (SystemsPublicationFamily::StandardBindings, 5)], 4, 3);
    let mut evaluated = AuditTally::new();
    let retained = evaluated.evaluate(clean(), true).unwrap();
    let mut reused = AuditTally::new();
    reused.reuse(&retained);
    for family in [SystemsPublicationFamily::Syntax, SystemsPublicationFamily::StandardBindings, SystemsPublicationFamily::Syntax] {
        assert_eq!(reused.report.checked.get(family), evaluated.report.checked.get(family));
    }
    assert_eq!(reused.report.mandatory_references, evaluated.report.mandatory_references);
    assert_eq!(reused.report.complete_references, evaluated.report.complete_references);
    assert_eq!(reused.reused, 1);
    assert_eq!(reused.reused_checks, 7);
    assert_eq!(retained.checked.sum(), 7);
}

#[test]
fn failing_identity_checks_are_findings_in_order() {
    let mut audit = SystemsPublicationAudit::default();
    audit_identity_fields(
        &[(true, "candidate dependency contract"), (false, "SysML syntax profile"), (false, "KerML rule set")],
        &mut audit,
    );
    let fields: Vec<&str> = audit
        .findings
        .iter()
        .map(|f| match f {
            SystemsPublicationFinding::Identity(field) => *field,
            _ => "",
        })
        .collect();
    assert_eq!(fields, vec!["SysML syntax profile", "KerML rule set"]);
    assert_eq!(audit.checked.get(SystemsPublicationFamily::Syntax), None);
}
