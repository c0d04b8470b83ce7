use kerml_text::ids::{
    AssociationOccurrenceId, ByteRange, Completeness, DeclaredOrigin, DocumentId, ElementId, FactKey, LibraryId,
    MetaclassId, Origin, PropertyId, SourceOrigin, SourceRevisionId, SyntaxNodeId,
};
use kerml_text::library::{LibrarySourceMap, PendingLibraryReference, QualifiedName};
use kerml_text::publication::{
    admit_candidate, audit_prior_authority, audit_reference_answer, audit_reference_population, audit_source_fact,
    authority_conflict, final_authority_conflicts, map_family, reference_status, Diagnostic, PublicationFamily,
    PublicationStage,
    SourceDocumentNodes, SourceNodes, SystemsConstructionProduction, SystemsPublicationAudit,
    SystemsPublicationFamily, SystemsPublicationFinding, SystemsReferenceStatus,
    SYSTEMS_MANDATORY_REFERENCE_ASSERTIONS,
};

fn reference(index: usize) -> PendingLibraryReference {
    PendingLibraryReference {
        relationship: ElementId::from_u128(index as u128 + 1),
        property: PropertyId(0x51),
        expected: MetaclassId(0x71),
        name: QualifiedName { absolute: false, segments: vec!["Target".to_string()] },
        membership_target: false,
        executable_expression: false,
        origin: SourceOrigin {
            document: DocumentId(1),
            revision: SourceRevisionId(2),
            range: ByteRange::new(index as u64, index as u64 + 1).unwrap(),
            syntax_node: Some(SyntaxNodeId(index as u128 + 1)),
        },
    }
}

fn population_findings(population: &[PendingLibraryReference]) -> Vec<SystemsPublicationFinding> {
    let mut audit = SystemsPublicationAudit::default();
    audit_reference_population(population, &mut audit);
    audit.findings
}

#[test]
fn pinned_reference_population_rejects_omissions_and_duplicate_padding() {
    let references: Vec<_> = (0..SYSTEMS_MANDATORY_REFERENCE_ASSERTIONS).map(reference).collect();
    assert!(population_findings(&references).is_empty());
    assert!(matches!(
        population_findings(&references[..references.len() - 1]).as_slice(),
        [SystemsPublicationFinding::Identity("exact 1,327 Systems mandatory reference assertions")]
    ));
    let mut duplicated = references.clone();
    duplicated[1] = duplicated[0].clone();
    assert!(matches!(
        population_findings(&duplicated).as_slice(),
        [SystemsPublicationFinding::Identity("distinct Systems mandatory source assertions")]
    ));
    let mut distinct_source = references.clone();
    distinct_source[1].relationship = distinct_source[0].relationship;
    assert!(
        population_findings(&distinct_source).is_empty(),
        "different source assertions on one property remain distinct"
    );
}

#[test]
fn short_and_padded_population_reports_both_findings_in_order() {
    let mut references: Vec<_> = (0..3).map(reference).collect();
    references[2] = references[0].clone();
    assert!(matches!(
        population_findings(&references).as_slice(),
        [
            SystemsPublicationFinding::Identity("exact 1,327 Systems mandatory reference assertions"),
            SystemsPublicationFinding::Identity("distinct Systems mandatory source assertions")
        ]
    ));
}

fn stage(stage: usize, diagnostics: Vec<Diagnostic>) -> PublicationStage {
    PublicationStage { stage, completeness: Completeness::Incomplete, diagnostics }
}

#[test]
fn authority_preflight_retains_ordinary_failures_and_ignores_superseded_frontiers() {
    let missing = Diagnostic {
        code: "SQ_TARGET_MISSING",
        subject: ElementId::from_u128(1),
        message: "Exact formal target Views::Viewpoint is unavailable".to_string(),
    };
    let ordinary = Diagnostic {
        code: "KQ_PENDING_SUPERTYPES",
        subject: ElementId::from_u128(2),
        message: "Pending ordinary producer".to_string(),
    };
    let mut production = SystemsConstructionProduction {
        final_predicates: true,
        completeness: Completeness::Incomplete,
        converged: true,
        stages: vec![stage(0, vec![missing, ordinary.clone()])],
    };
    let mut audit = SystemsPublicationAudit::default();
    audit_prior_authority(Some(&production), &mut audit);
    assert_eq!(final_authority_conflicts(&production.stages).len(), 1);
    assert_eq!(
        audit.findings.iter().filter(|f| matches!(f, SystemsPublicationFinding::Authority(_))).count(),
        1
    );
    assert!(audit.findings.iter().any(|f| matches!(
        f,
        SystemsPublicationFinding::ProducerDiagnostic(d)
            if d.code == ordinary.code && d.subject == ordinary.subject && d.message == ordinary.message
    )));
    let mut last = production.stages[0].clone();
    last.stage = 1;
    last.diagnostics = vec![ordinary];
    production.stages.push(last);
    assert!(
        final_authority_conflicts(&production.stages).is_empty(),
        "strict final acceptance must ignore a superseded authority diagnostic"
    );
    assert!(final_authority_conflicts(&[]).is_empty());
    let mut audit = SystemsPublicationAudit::default();
    audit_prior_authority(Some(&production), &mut audit);
    assert!(audit.findings.is_empty(), "a transient failure is not a final authority witness");
}

#[test]
fn authority_preflight_without_production_records_nothing() {
    let mut audit = SystemsPublicationAudit::default();
    audit_prior_authority(None, &mut audit);
    assert!(audit.findings.is_empty());
}

#[test]
fn source_gate_requires_exact_node_revision_range_and_origin_for_every_fact_kind() {
    let document = DocumentId(1);
    let revision = SourceRevisionId(2);
    let node = SyntaxNodeId(3);
    let range = ByteRange::new(4, 8).unwrap();
    let source = SourceOrigin { document, revision, range, syntax_node: Some(node) };
    let nodes = SourceNodes {
        documents: vec![SourceDocumentNodes { document, revision, nodes: vec![(node, range)] }],
    };
    let expected = Origin::Declared(DeclaredOrigin::StandardLibrary { library: LibraryId(7) });
    for fact in [
        FactKey::Element(ElementId::from_u128(4)),
        FactKey::Property { element: ElementId::from_u128(4), property: PropertyId(0x61) },
        FactKey::AssociationOccurrence(AssociationOccurrenceId(5)),
    ] {
        let mut audit = SystemsPublicationAudit::default();
        let source_map = LibrarySourceMap { entries: vec![(fact, source)] };
        audit_source_fact(fact, &expected, &expected, &source_map, &nodes, &mut audit);
        assert!(audit.findings.is_empty());
        assert_eq!(audit.checked.get(SystemsPublicationFamily::IdentityProvenance), Some(1));
        for invalid in [
            SourceOrigin { document: DocumentId(99), ..source },
            SourceOrigin { revision: SourceRevisionId(99), ..source },
            SourceOrigin { syntax_node: None, ..source },
            SourceOrigin { syntax_node: Some(SyntaxNodeId(99)), ..source },
            SourceOrigin { range: ByteRange::new(4, 7).unwrap(), ..source },
        ] {
            let source_map = LibrarySourceMap { entries: vec![(fact, invalid)] };
            audit_source_fact(fact, &expected, &expected, &source_map, &nodes, &mut audit);
        }
        let empty = LibrarySourceMap { entries: vec![] };
        audit_source_fact(fact, &expected, &expected, &empty, &nodes, &mut audit);
        audit_source_fact(
            fact,
            &Origin::Declared(DeclaredOrigin::Authored { source: None }),
            &expected,
            &source_map,
            &nodes,
            &mut audit,
        );
        assert_eq!(audit.findings.len(), 7);
        assert!(audit
            .findings
            .iter()
            .all(|finding| matches!(finding, SystemsPublicationFinding::Provenance(key) if *key == fact)));
        assert_eq!(audit.checked.get(SystemsPublicationFamily::IdentityProvenance), Some(1));
    }
}

#[test]
fn reference_gate_requires_complete_unique_correct_kind_matching_endpoint() {
    let a = ElementId::from_u128(1);
    let b = ElementId::from_u128(2);
    let cases = [
        (Completeness::Complete, vec![a], vec![a], true, SystemsReferenceStatus::Complete),
        (Completeness::Incomplete, vec![a], vec![a], true, SystemsReferenceStatus::Incomplete),
        (Completeness::Invalid, vec![a], vec![a], true, SystemsReferenceStatus::Invalid),
        (Completeness::Complete, vec![], vec![], true, SystemsReferenceStatus::Unresolved),
        (Completeness::Complete, vec![a, b], vec![a], true, SystemsReferenceStatus::Ambiguous),
        (Completeness::Complete, vec![a], vec![a], false, SystemsReferenceStatus::Invalid),
        (Completeness::Complete, vec![a], vec![b], true, SystemsReferenceStatus::EndpointMismatch),
        (Completeness::Complete, vec![a], vec![a, a], true, SystemsReferenceStatus::EndpointMismatch),
    ];
    for (completeness, candidates, stored, kind, expected) in cases {
        assert_eq!(reference_status(completeness, &candidates, &stored, kind), expected);
    }
}

#[test]
fn reference_answers_count_complete_outcomes_and_record_failures() {
    let a = ElementId::from_u128(1);
    let b = ElementId::from_u128(2);
    let mut audit = SystemsPublicationAudit::default();
    audit_reference_answer(&mut audit, a, Completeness::Complete, &[a], &[a], true);
    audit_reference_answer(&mut audit, b, Completeness::Complete, &[a, b], &[a], true);
    assert_eq!(audit.mandatory_references, 2);
    assert_eq!(audit.complete_references, 1);
    assert_eq!(audit.findings.len(), 1);
    assert!(matches!(
        &audit.findings[0],
        SystemsPublicationFinding::Reference(failure)
            if failure.relationship == b && failure.status == SystemsReferenceStatus::Ambiguous
                && failure.candidates == vec![a, b] && failure.stored == vec![a]
    ));
}

#[test]
fn authority_findings_require_the_exact_failed_target_read() {
    let subject = ElementId::from_u128(1);
    let rule = "checkViewpointDefinitionSpecialization";
    let mut diagnostic = Diagnostic {
        code: "SQ_TARGET_MISSING",
        subject,
        message: "Exact formal target Views::Viewpoint is unavailable".to_string(),
    };
    assert_eq!(authority_conflict(rule, subject, &diagnostic).unwrap().original_declaration, "Views::ViewpointCheck");
    diagnostic.code = "SQ_TARGET_NAMESPACE_PENDING";
    assert!(authority_conflict(rule, subject, &diagnostic).is_none());
    diagnostic.code = "SQ_TARGET_MISSING";
    diagnostic.message = "Exact formal target Actions::Action is unavailable".to_string();
    assert!(authority_conflict(rule, subject, &diagnostic).is_none());
    diagnostic.message = "Exact formal target Views::Viewpoint is unavailable".to_string();
    let conflict = authority_conflict(rule, ElementId::from_u128(2), &diagnostic).unwrap();
    assert_eq!(conflict.subject, ElementId::from_u128(2));
    assert_eq!(conflict.formal_target, "Views::Viewpoint");
    assert!(authority_conflict("unknownRule", subject, &diagnostic).is_none());
}

#[test]
fn kerml_families_count_under_their_systems_capability() {
    assert_eq!(map_family(PublicationFamily::NamespaceImports), SystemsPublicationFamily::NamespacesImports);
    assert_eq!(map_family(PublicationFamily::EffectiveMembership), SystemsPublicationFamily::NamespacesImports);
    assert_eq!(map_family(PublicationFamily::StandardBindings), SystemsPublicationFamily::StandardBindings);
    assert_eq!(map_family(PublicationFamily::IdentityProvenance), SystemsPublicationFamily::IdentityProvenance);
    assert_eq!(
        map_family(PublicationFamily::ConnectorsAssociations),
        SystemsPublicationFamily::PortConnectionInterfaceFlow
    );
    for family in [
        PublicationFamily::Specialization,
        PublicationFamily::Typing,
        PublicationFamily::Featuring,
        PublicationFamily::FeatureChains,
        PublicationFamily::CrossFeatures,
        PublicationFamily::ExpressionResults,
        PublicationFamily::FeatureValues,
        PublicationFamily::Multiplicity,
    ] {
        assert_eq!(map_family(family), SystemsPublicationFamily::TypingSpecializationSubsettingRedefinition);
    }
}

#[test]
fn admission_rejects_a_restricted_population_and_outstanding_kernel_obligations_in_order() {
    let rejected = admit_candidate(true, 3, None, SystemsPublicationAudit::default()).unwrap_err();
    assert_eq!(rejected.findings.len(), 2);
    assert!(matches!(rejected.findings[0], SystemsPublicationFinding::Identity("restricted publication population")));
    assert!(matches!(rejected.findings[1], SystemsPublicationFinding::KernelObligations(3)));
    let rejected = admit_candidate(false, 1, None, SystemsPublicationAudit::default()).unwrap_err();
    assert_eq!(rejected.findings.len(), 1);
    assert!(matches!(rejected.findings[0], SystemsPublicationFinding::KernelObligations(1)));
    let admitted = admit_candidate(false, 0, None, SystemsPublicationAudit::default()).unwrap();
    assert!(admitted.findings.is_empty());
}

#[test]
fn admission_rejects_earlier_findings_and_appends_authority_findings_after_its_own() {
    let mut audit = SystemsPublicationAudit::default();
    audit_reference_population(&[], &mut audit);
    let earlier = audit.findings.len();
    assert!(earlier > 0);
    assert_eq!(admit_candidate(false, 0, None, audit).unwrap_err().findings.len(), earlier);
    let missing = Diagnostic {
        code: "SQ_TARGET_MISSING",
        subject: ElementId::from_u128(1),
        message: "Exact formal target Views::Viewpoint is unavailable".to_string(),
    };
    let production = SystemsConstructionProduction {
        final_predicates: true,
        completeness: Completeness::Incomplete,
        converged: true,
        stages: vec![stage(0, vec![missing])],
    };
    let rejected = admit_candidate(true, 0, Some(&production), SystemsPublicationAudit::default()).unwrap_err();
    assert!(matches!(rejected.findings[0], SystemsPublicationFinding::Identity("restricted publication population")));
    assert!(matches!(rejected.findings[1], SystemsPublicationFinding::Authority(_)));
}
