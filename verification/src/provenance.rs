//! Source provenance of a local declared graph: every record, slot and
//! association occurrence outside the accepted dependency must carry this
//! library's origin and exact source evidence.
use crate::ids::{FactKey, Origin};
use crate::library::LibrarySourceMap;
use crate::model::{AssociationOccurrence, ConstructionView, ElementRecord};
use crate::publication::{
    audit_source_fact, valid_source_origin_spec, SourceNodes, SystemsPublicationAudit, SystemsPublicationFamily,
    SystemsPublicationFinding,
};
use vstd::prelude::*;

verus! {

/// The facts a record declares, with their origins: the record, then its slots.
pub open spec fn record_facts(r: ElementRecord) -> Seq<(FactKey, Origin)> {
    seq![(FactKey::Element(r.id), r.origin)] + r.slots@.map_values(
        |s: (crate::ids::PropertyId, crate::model::SlotValue, Origin)| (FactKey::Property { element: r.id, property: s.0 }, s.2),
    )
}

/// The facts of a sequence of records, record by record.
pub open spec fn element_facts(records: Seq<ElementRecord>) -> Seq<(FactKey, Origin)>
    decreases records.len(),
{
    if records.len() == 0 {
        Seq::empty()
    } else {
        element_facts(records.drop_last()) + record_facts(records.last())
    }
}

/// The facts of a sequence of association occurrences.
pub open spec fn occurrence_facts(occurrences: Seq<AssociationOccurrence>) -> Seq<(FactKey, Origin)> {
    occurrences.map_values(|o: AssociationOccurrence| (FactKey::AssociationOccurrence(o.id), o.origin))
}

/// Every fact of a local graph in audit order: records with their slots, then occurrences.
pub open spec fn local_facts(local: ConstructionView) -> Seq<(FactKey, Origin)> {
    element_facts(local.elements@) + occurrence_facts(local.occurrences@)
}

/// A fact is accepted with the expected origin and valid exact source evidence.
pub open spec fn fact_accepted(
    fact: (FactKey, Origin),
    expected: Origin,
    source_map: LibrarySourceMap,
    nodes: SourceNodes,
) -> bool {
    fact.1 == expected && match source_map.lookup(fact.0) {
        Some(s) => valid_source_origin_spec(s, nodes),
        None => false,
    }
}

/// The provenance findings of a sequence of facts, in order.
pub open spec fn provenance_findings(
    facts: Seq<(FactKey, Origin)>,
    expected: Origin,
    source_map: LibrarySourceMap,
    nodes: SourceNodes,
) -> Seq<SystemsPublicationFinding>
    decreases facts.len(),
{
    if facts.len() == 0 {
        Seq::empty()
    } else {
        let rest = provenance_findings(facts.drop_last(), expected, source_map, nodes);
        if fact_accepted(facts.last(), expected, source_map, nodes) {
            rest
        } else {
            rest.push(SystemsPublicationFinding::Provenance(facts.last().0))
        }
    }
}

/// How many facts of a sequence are accepted.
pub open spec fn accepted_count(
    facts: Seq<(FactKey, Origin)>,
    expected: Origin,
    source_map: LibrarySourceMap,
    nodes: SourceNodes,
) -> nat
    decreases facts.len(),
{
    if facts.len() == 0 {
        0
    } else {
        accepted_count(facts.drop_last(), expected, source_map, nodes) + if fact_accepted(
            facts.last(),
            expected,
            source_map,
            nodes,
        ) {
            1nat
        } else {
            0nat
        }
    }
}

/// A family count after `n` more successes.
pub open spec fn bumped(count: Option<usize>, n: nat) -> Option<usize> {
    if n == 0 {
        count
    } else {
        Some(
            (match count {
                Some(c) => c as int,
                None => 0,
            } + n) as usize,
        )
    }
}

proof fn lemma_accepted_count_bound(facts: Seq<(FactKey, Origin)>, expected: Origin, source_map: LibrarySourceMap, nodes: SourceNodes)
    ensures
        accepted_count(facts, expected, source_map, nodes) <= facts.len(),
    decreases facts.len(),
{
    if facts.len() > 0 {
        lemma_accepted_count_bound(facts.drop_last(), expected, source_map, nodes);
    }
}

/// The audit state after auditing `done` from `start`.
pub open spec fn audited(
    start: SystemsPublicationAudit,
    now: SystemsPublicationAudit,
    done: Seq<(FactKey, Origin)>,
    expected: Origin,
    source_map: LibrarySourceMap,
    nodes: SourceNodes,
) -> bool {
    &&& now.wf()
    &&& now.mandatory_references == start.mandatory_references
    &&& now.complete_references == start.complete_references
    &&& now.findings@ == start.findings@ + provenance_findings(done, expected, source_map, nodes)
    &&& now.checked.count(SystemsPublicationFamily::IdentityProvenance) == bumped(
        start.checked.count(SystemsPublicationFamily::IdentityProvenance),
        accepted_count(done, expected, source_map, nodes),
    )
    &&& forall|f: SystemsPublicationFamily| f != SystemsPublicationFamily::IdentityProvenance ==> #[trigger] now.checked.count(f)
        == start.checked.count(f)
}

/// Audit one more fact.
fn audit_step(
    fact: FactKey,
    origin: &Origin,
    expected: &Origin,
    source_map: &LibrarySourceMap,
    nodes: &SourceNodes,
    audit: &mut SystemsPublicationAudit,
    Ghost(start): Ghost<SystemsPublicationAudit>,
    Ghost(done): Ghost<Seq<(FactKey, Origin)>>,
    Ghost(total): Ghost<nat>,
)
    requires
        audited(start, *old(audit), done, *expected, *source_map, *nodes),
        source_map.wf(),
        nodes.wf(),
        done.len() < total,
        (match start.checked.count(SystemsPublicationFamily::IdentityProvenance) {
            Some(c) => c as int,
            None => 0,
        }) + total <= usize::MAX,
    ensures
        audited(start, *final(audit), done.push((fact, *origin)), *expected, *source_map, *nodes),
{
    proof {
        lemma_accepted_count_bound(done, *expected, *source_map, *nodes);
        assert(done.push((fact, *origin)).drop_last() =~= done);
    }
    audit_source_fact(fact, origin, expected, source_map, nodes, audit);
    proof {
        let next = done.push((fact, *origin));
        assert(next.last() == (fact, *origin));
    }
}

/// Audit the provenance of every fact of the local graph, in order: each
/// accepted fact counts once for identity provenance, each other fact is a
/// provenance finding.
pub fn audit_local_provenance(
    local: &ConstructionView,
    expected: &Origin,
    source_map: &LibrarySourceMap,
    nodes: &SourceNodes,
    audit: &mut SystemsPublicationAudit,
)
    requires
        old(audit).wf(),
        source_map.wf(),
        nodes.wf(),
        (match old(audit).checked.count(SystemsPublicationFamily::IdentityProvenance) {
            Some(c) => c as int,
            None => 0,
        }) + local_facts(*local).len() <= usize::MAX,
    ensures
        audited(*old(audit), *final(audit), local_facts(*local), *expected, *source_map, *nodes),
{
    let ghost start = *audit;
    let ghost total = local_facts(*local).len();
    let ghost records = local.elements@;
    proof {
        assert(audited(start, *audit, Seq::empty(), *expected, *source_map, *nodes)) by {
            assert(audit.findings@ =~= start.findings@ + Seq::<SystemsPublicationFinding>::empty());
        }
        lemma_element_facts_prefix_len(records, records.len() as int);
    }
    let mut i: usize = 0;
    while i < local.elements.len()
        invariant
            source_map.wf(),
            nodes.wf(),
            records == local.elements@,
            total == local_facts(*local).len(),
            i <= records.len(),
            element_facts(records).len() <= total,
            (match start.checked.count(SystemsPublicationFamily::IdentityProvenance) {
                Some(c) => c as int,
                None => 0,
            }) + total <= usize::MAX,
            audited(start, *audit, element_facts(records.subrange(0, i as int)), *expected, *source_map, *nodes),
        decreases records.len() - i,
    {
        let record = &local.elements[i];
        let ghost before = element_facts(records.subrange(0, i as int));
        proof {
            lemma_element_facts_prefix_len(records, i + 1);
            assert(records.subrange(0, i + 1).drop_last() =~= records.subrange(0, i as int));
            assert(records.subrange(0, i + 1).last() == *record);
            assert(element_facts(records.subrange(0, i + 1)) == before + record_facts(*record));
        }
        audit_step(
            FactKey::Element(record.id),
            &record.origin,
            expected,
            source_map,
            nodes,
            audit,
            Ghost(start),
            Ghost(before),
            Ghost(total),
        );
        proof {
            assert(before + record_facts(*record).subrange(0, 1) =~= before.push((FactKey::Element(record.id), record.origin)));
        }
        let mut j: usize = 0;
        while j < record.slots.len()
            invariant
                source_map.wf(),
                nodes.wf(),
                record == local.elements@[i as int],
                j <= record.slots@.len(),
                before + record_facts(*record) == element_facts(records.subrange(0, i + 1)),
                element_facts(records.subrange(0, i + 1)).len() <= total,
                (match start.checked.count(SystemsPublicationFamily::IdentityProvenance) {
                    Some(c) => c as int,
                    None => 0,
                }) + total <= usize::MAX,
                audited(start, *audit, before + record_facts(*record).subrange(0, j + 1), *expected, *source_map, *nodes),
            decreases record.slots@.len() - j,
        {
            let ghost done = before + record_facts(*record).subrange(0, j + 1);
            proof {
                assert(done.len() < total);
                assert(before + record_facts(*record).subrange(0, j + 2) =~= done.push(
                    (FactKey::Property { element: record.id, property: record.slots@[j as int].0 }, record.slots@[j as int].2),
                ));
            }
            audit_step(
                FactKey::Property { element: record.id, property: record.slots[j].0 },
                &record.slots[j].2,
                expected,
                source_map,
                nodes,
                audit,
                Ghost(start),
                Ghost(done),
                Ghost(total),
            );
            j = j + 1;
        }
        proof {
            assert(record_facts(*record).subrange(0, record.slots@.len() + 1int) =~= record_facts(*record));
        }
        i = i + 1;
    }
    proof {
        assert(records.subrange(0, records.len() as int) =~= records);
    }
    let ghost elements_done = element_facts(records);
    let mut k: usize = 0;
    while k < local.occurrences.len()
        invariant
            source_map.wf(),
            nodes.wf(),
            records == local.elements@,
            elements_done == element_facts(records),
            total == local_facts(*local).len(),
            local_facts(*local) == elements_done + occurrence_facts(local.occurrences@),
            k <= local.occurrences@.len(),
            (match start.checked.count(SystemsPublicationFamily::IdentityProvenance) {
                Some(c) => c as int,
                None => 0,
            }) + total <= usize::MAX,
            audited(start, *audit, elements_done + occurrence_facts(local.occurrences@).subrange(0, k as int), *expected, *source_map, *nodes),
        decreases local.occurrences@.len() - k,
    {
        let occurrence = &local.occurrences[k];
        let ghost done = elements_done + occurrence_facts(local.occurrences@).subrange(0, k as int);
        proof {
            assert(elements_done + occurrence_facts(local.occurrences@).subrange(0, k + 1) =~= done.push(
                (FactKey::AssociationOccurrence(occurrence.id), occurrence.origin),
            ));
        }
        audit_step(
            FactKey::AssociationOccurrence(occurrence.id),
            &occurrence.origin,
            expected,
            source_map,
            nodes,
            audit,
            Ghost(start),
            Ghost(done),
            Ghost(total),
        );
        k = k + 1;
    }
    proof {
        assert(occurrence_facts(local.occurrences@).subrange(0, local.occurrences@.len() as int) =~= occurrence_facts(
            local.occurrences@,
        ));
    }
}

/// A prefix of the records declares no more facts than all of them.
proof fn lemma_element_facts_prefix_len(records: Seq<ElementRecord>, k: int)
    requires
        0 <= k <= records.len(),
    ensures
        element_facts(records.subrange(0, k)).len() <= element_facts(records).len(),
    decreases records.len(),
{
    if k < records.len() {
        assert(records.drop_last().subrange(0, k) =~= records.subrange(0, k));
        lemma_element_facts_prefix_len(records.drop_last(), k);
    } else {
        assert(records.subrange(0, k) =~= records);
    }
}

} // verus!
