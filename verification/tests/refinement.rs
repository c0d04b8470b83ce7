use kerml_text::ids::{
    id, AssociationOccurrenceId, ByteRange, DeclaredOrigin, DocumentId, ElementId, LibraryId, MetaclassId, Origin,
    PropertyId, SourceOrigin, SourceRevisionId,
};
use kerml_text::library::{PendingLibraryReference, QualifiedName};
use kerml_text::model::{
    AssociationOccurrence, ConstructionObligation, ConstructionView, ElementRecord, ElementSet, SlotValue, Value,
};
use kerml_text::refinement::{
    candidate_records, changed_population, context_changes, reusable, select_target, CachedReference, Endpoints,
    LookupMember, ReferenceRefinementStrategy, RefinementError, RefinementProgress, SemanticContextScopes,
};

const NAMESPACE: MetaclassId = MetaclassId(10);
const FEATURE: MetaclassId = MetaclassId(11);
const OWNING_MEMBERSHIP: MetaclassId = MetaclassId(12);
const CROSS_SUBSETTING: MetaclassId = MetaclassId(13);
const OWNED_RELATIONSHIP: PropertyId = PropertyId(20);
const OWNED_RELATED_ELEMENT: PropertyId = PropertyId(21);
const CROSSED_FEATURE: PropertyId = PropertyId(22);
const DECLARED_NAME: PropertyId = PropertyId(23);

fn declared() -> Origin {
    Origin::Declared(DeclaredOrigin::StandardLibrary { library: LibraryId(1) })
}

fn record(element: u128, metaclass: MetaclassId, slots: Vec<(PropertyId, SlotValue)>) -> ElementRecord {
    ElementRecord {
        id: id(element),
        metaclass,
        origin: declared(),
        slots: slots.into_iter().map(|(p, v)| (p, v, declared())).collect(),
    }
}

fn refs(targets: &[u128]) -> SlotValue {
    SlotValue::Ordered(targets.iter().map(|t| Value::Reference(id(*t))).collect())
}

fn name(text: &str) -> SlotValue {
    SlotValue::Scalar(Value::String(text.to_string()))
}

/// Namespace 1 owns memberships 3, 5 and 7, which own features 2, 4 and 6;
/// feature 2 owns cross subsetting 8, which may cross `target`.
fn candidate(target: Option<u128>) -> ConstructionView {
    let mut cross = vec![];
    let mut occurrences = vec![];
    if let Some(target) = target {
        cross.push((CROSSED_FEATURE, SlotValue::Scalar(Value::Reference(id(target)))));
        occurrences.push(AssociationOccurrence {
            id: AssociationOccurrenceId(100),
            association: MetaclassId(30),
            ends: vec![(PropertyId(40), id(8)), (PropertyId(41), id(target))],
            positions: vec![],
            origin: declared(),
        });
    }
    ConstructionView {
        elements: vec![
            record(1, NAMESPACE, vec![(OWNED_RELATIONSHIP, refs(&[3, 5, 7]))]),
            record(2, FEATURE, vec![(OWNED_RELATIONSHIP, refs(&[8])), (DECLARED_NAME, name("a"))]),
            record(3, OWNING_MEMBERSHIP, vec![(OWNED_RELATED_ELEMENT, refs(&[2]))]),
            record(4, FEATURE, vec![(DECLARED_NAME, name("b"))]),
            record(5, OWNING_MEMBERSHIP, vec![(OWNED_RELATED_ELEMENT, refs(&[4]))]),
            record(6, FEATURE, vec![(DECLARED_NAME, name("c"))]),
            record(7, OWNING_MEMBERSHIP, vec![(OWNED_RELATED_ELEMENT, refs(&[6]))]),
            record(8, CROSS_SUBSETTING, cross),
        ],
        occurrences,
        obligations: vec![],
        containment: vec![
            (id(1), id(3)),
            (id(3), id(2)),
            (id(1), id(5)),
            (id(5), id(4)),
            (id(1), id(7)),
            (id(7), id(6)),
            (id(2), id(8)),
        ],
    }
}

#[test]
fn changed_population_includes_old_and_new_occurrence_endpoints_and_owners() {
    let before = candidate(Some(4));
    let after = candidate(Some(6));
    assert_eq!(before.occurrences.len(), 1);
    let affected = changed_population(&before, &after);
    for participant in [1, 2, 3, 4, 5, 6, 7, 8] {
        assert!(affected.contains(id(participant)), "missing {participant}");
    }
    let removed = candidate(None);
    let affected = changed_population(&before, &removed);
    assert!(affected.contains(id(4)));
    assert!(affected.contains(id(8)));
    assert_eq!(changed_population(&before, &candidate(Some(4))).len(), 0);
}

#[test]
fn changed_obligations_touch_their_element_and_its_owners() {
    let before = candidate(Some(4));
    let mut after = candidate(Some(4));
    after.obligations.push(ConstructionObligation { element: id(6), property: CROSSED_FEATURE, actual: 0 });
    let affected = changed_population(&before, &after);
    let members = affected.to_vec();
    assert_eq!(members.len(), 3);
    for element in [6, 7, 1] {
        assert!(affected.contains(id(element)));
    }
    assert!(!affected.contains(id(2)));
}

fn scopes() -> SemanticContextScopes {
    SemanticContextScopes {
        pending_specialization_scopes: vec![id(2)],
        pending_namespace_scopes: vec![id(1)],
        construction_obligations: vec![(id(8), CROSSED_FEATURE)],
    }
}

#[test]
fn pending_scope_changes_are_local_but_semantic_contract_changes_invalidate_all() {
    let previous = scopes();
    let mut current = scopes();
    current.pending_namespace_scopes.push(id(4));
    let mut affected = ElementSet::new();
    assert!(!context_changes(&previous, &current, true, &mut affected));
    assert_eq!(affected.to_vec(), vec![id(4)]);
    let mut affected = ElementSet::new();
    assert!(context_changes(&previous, &scopes(), false, &mut affected));
    assert_eq!(affected.len(), 0);
}

#[test]
fn obligation_and_specialization_scope_changes_touch_both_sides() {
    let previous = scopes();
    let current = SemanticContextScopes {
        pending_specialization_scopes: vec![id(3)],
        pending_namespace_scopes: vec![id(1)],
        construction_obligations: vec![(id(9), CROSSED_FEATURE)],
    };
    let mut affected = ElementSet::new();
    assert!(!context_changes(&previous, &current, true, &mut affected));
    let mut members = affected.to_vec();
    members.sort();
    assert_eq!(members, vec![id(2), id(3), id(8), id(9)]);
}

fn request(relationship: u128) -> PendingLibraryReference {
    PendingLibraryReference {
        relationship: id(relationship),
        property: CROSSED_FEATURE,
        expected: FEATURE,
        name: QualifiedName { absolute: false, segments: vec!["a".to_string()] },
        membership_target: false,
        executable_expression: false,
        origin: SourceOrigin {
            document: DocumentId(1),
            revision: SourceRevisionId(1),
            range: ByteRange::new(0, 1).unwrap(),
            syntax_node: None,
        },
    }
}

#[test]
fn cached_outcomes_are_reused_only_when_nothing_they_read_changed() {
    let cached = CachedReference { request: request(8), candidates: vec![id(2), id(3)], selected: Some(id(2)) };
    let mut affected = ElementSet::new();
    affected.insert(id(4));
    let dependency = ReferenceRefinementStrategy::DependencyDriven;
    assert!(reusable(dependency, &cached, &request(8), &affected, false));
    assert!(!reusable(ReferenceRefinementStrategy::ReferenceFullScan, &cached, &request(8), &affected, false));
    assert!(!reusable(dependency, &cached, &request(9), &affected, false));
    assert!(!reusable(dependency, &cached, &request(8), &affected, true));
    affected.insert(id(3));
    assert!(!reusable(dependency, &cached, &request(8), &affected, false));
}

#[test]
fn a_lookup_selects_only_a_unique_member() {
    let a = LookupMember { element: id(2), membership: id(3) };
    let b = LookupMember { element: id(4), membership: id(5) };
    assert_eq!(select_target(&[a], false), Some(id(2)));
    assert_eq!(select_target(&[a], true), Some(id(3)));
    assert_eq!(select_target(&[a, b], false), None);
    assert_eq!(select_target(&[], false), None);
    let mut candidates = candidate_records(&[a, b]).to_vec();
    candidates.sort();
    assert_eq!(candidates, vec![id(2), id(3), id(4), id(5)]);
}

#[test]
fn refinement_stops_at_a_fixed_point_and_refuses_cycles() {
    let mut progress = RefinementProgress::new();
    assert_eq!(progress.begin_round(), Ok(0));
    let mut next = Endpoints::new();
    next.insert(id(8), CROSSED_FEATURE, id(4));
    assert!(!progress.finish_round(next));
    assert_eq!(progress.resolved().get(id(8), CROSSED_FEATURE), Some(id(4)));
    assert_eq!(progress.begin_round(), Ok(1));
    let mut same = Endpoints::new();
    same.insert(id(8), CROSSED_FEATURE, id(4));
    assert!(progress.finish_round(same));

    let mut cycling = RefinementProgress::new();
    assert_eq!(cycling.begin_round(), Ok(0));
    let mut first = Endpoints::new();
    first.insert(id(8), CROSSED_FEATURE, id(4));
    assert!(!cycling.finish_round(first));
    assert_eq!(cycling.begin_round(), Ok(1));
    assert!(!cycling.finish_round(Endpoints::new()));
    assert_eq!(cycling.begin_round(), Err(RefinementError::ResolutionCycle));
}

#[test]
fn endpoints_replace_per_key_and_compare_by_content() {
    let mut a = Endpoints::new();
    a.insert(id(1), CROSSED_FEATURE, id(2));
    a.insert(id(1), CROSSED_FEATURE, id(3));
    a.insert(id(4), DECLARED_NAME, id(5));
    assert_eq!(a.len(), 2);
    assert_eq!(a.get(id(1), CROSSED_FEATURE), Some(id(3)));
    let mut b = Endpoints::new();
    b.insert(id(4), DECLARED_NAME, id(5));
    b.insert(id(1), CROSSED_FEATURE, id(3));
    assert!(a.same_as(&b));
    assert!(a.copy().same_as(&a));
    b.insert(id(4), DECLARED_NAME, id(6));
    assert!(!a.same_as(&b));
}

#[test]
fn a_candidate_compared_with_itself_affects_nothing() {
    let build = |target: Option<u128>| {
        let mut v = candidate(target);
        v.obligations.push(ConstructionObligation { element: id(6), property: CROSSED_FEATURE, actual: 0 });
        v
    };
    for target in [None, Some(4), Some(6)] {
        assert_eq!(changed_population(&build(target), &build(target)).len(), 0);
    }
}
