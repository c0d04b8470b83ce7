//! Dependency-driven reference refinement: change detection between
//! successive canonical candidates, semantic contract changes, cache reuse and
//! the fixed-point round protocol.
use crate::ids::{ElementId, PropertyId};
use crate::model::{
    AssociationOccurrence, ConstructionObligation, ConstructionView, ElementRecord, ElementSet,
    OccurrenceView, RecordView, SlotValue, Value, ValueView, occurrence_eq, occurrence_participants,
    record_eq, record_participants, slot_values,
};
use crate::library::{PendingLibraryReference, reference_key, same_reference};
use core::time::Duration;
use vstd::prelude::*;

verus! {

/// Records (and occurrences) are ordered by strictly increasing identity.
pub open spec fn sorted_records(s: Seq<ElementRecord>) -> bool {
    forall|i: int, j: int| 0 <= i < j < s.len() ==> s[i].id.0 < s[j].id.0
}

pub open spec fn sorted_occurrences(s: Seq<AssociationOccurrence>) -> bool {
    forall|i: int, j: int| 0 <= i < j < s.len() ==> s[i].id.0 < s[j].id.0
}

/// An identical record exists in the population.
pub open spec fn record_in(r: RecordView, s: Seq<ElementRecord>) -> bool {
    exists|k: int| 0 <= k < s.len() && s[k]@ == r
}

pub open spec fn occurrence_in(o: OccurrenceView, s: Seq<AssociationOccurrence>) -> bool {
    exists|k: int| 0 <= k < s.len() && s[k]@ == o
}

/// Participants of the first `n` records of `s` that have no identical
/// counterpart in `t`.
pub open spec fn removed_record_participant(s: Seq<ElementRecord>, n: int, t: Seq<ElementRecord>, x: ElementId) -> bool {
    exists|k: int| 0 <= k < n && !record_in(s[k]@, t) && #[trigger] record_participants(s[k]@).contains(x)
}

pub open spec fn removed_occurrence_participant(s: Seq<AssociationOccurrence>, n: int, t: Seq<AssociationOccurrence>, x: ElementId) -> bool {
    exists|k: int| 0 <= k < n && !occurrence_in(s[k]@, t) && #[trigger] occurrence_participants(s[k]@).contains(x)
}

/// Every participant of a record or occurrence present on one side and not
/// identically on the other: a retarget or removal invalidates both its old
/// and new navigation participants.
pub open spec fn changed_facts(before: ConstructionView, after: ConstructionView) -> Set<ElementId> {
    Set::new(|x: ElementId|
        removed_record_participant(before.elements@, before.elements@.len() as int, after.elements@, x)
        || removed_record_participant(after.elements@, after.elements@.len() as int, before.elements@, x)
        || removed_occurrence_participant(before.occurrences@, before.occurrences@.len() as int, after.occurrences@, x)
        || removed_occurrence_participant(after.occurrences@, after.occurrences@.len() as int, before.occurrences@, x))
}

/// Elements whose outstanding obligations differ between the candidates.
pub open spec fn changed_obligations(before: Seq<ConstructionObligation>, after: Seq<ConstructionObligation>) -> Set<ElementId> {
    Set::new(|x: ElementId|
        (exists|i: int| 0 <= i < before.len() && before[i].element == x && !after.contains(before[i]))
        || (exists|j: int| 0 <= j < after.len() && after[j].element == x && !before.contains(after[j])))
}

/// Direct containment owners of `x`.
pub open spec fn owners(edges: Seq<(ElementId, ElementId)>, x: ElementId) -> Set<ElementId> {
    Set::new(|o: ElementId| exists|k: int| 0 <= k < edges.len() && edges[k] == (o, x))
}

/// One and two containment hops above `x`: the owning relationship, then its
/// namespace or type owner. Descendants are never propagated to all ancestors.
pub open spec fn two_hop_owners(edges: Seq<(ElementId, ElementId)>, x: ElementId) -> Set<ElementId> {
    Set::new(|o: ElementId| owners(edges, x).contains(o) || exists|o1: ElementId| owners(edges, x).contains(o1) && owners(edges, o1).contains(o))
}

pub open spec fn owners_of_all(edges: Seq<(ElementId, ElementId)>, p: Set<ElementId>) -> Set<ElementId> {
    Set::new(|o: ElementId| exists|x: ElementId| p.contains(x) && two_hop_owners(edges, x).contains(o))
}

/// The population a candidate change can affect.
pub open spec fn changed_population_spec(before: ConstructionView, after: ConstructionView) -> Set<ElementId> {
    let base = changed_facts(before, after).union(changed_obligations(before.obligations@, after.obligations@));
    base.union(owners_of_all(before.containment@, base)).union(owners_of_all(after.containment@, base))
}

/// A candidate compared with itself affects nothing: every record,
/// occurrence and obligation has its identical counterpart, so no element is
/// invalidated and no owner is reached.
pub proof fn law_unchanged_candidate_affects_nothing(v: ConstructionView)
    ensures
        changed_population_spec(v, v) == Set::<ElementId>::empty(),
{
    assert forall|x: ElementId| !changed_facts(v, v).contains(x) by {
        assert forall|k: int| 0 <= k < v.elements@.len() implies record_in(v.elements@[k]@, v.elements@) by {}
        assert forall|k: int| 0 <= k < v.occurrences@.len() implies occurrence_in(v.occurrences@[k]@, v.occurrences@) by {}
    }
    assert forall|x: ElementId| !changed_obligations(v.obligations@, v.obligations@).contains(x) by {
        assert forall|i: int| 0 <= i < v.obligations@.len() implies v.obligations@.contains(v.obligations@[i]) by {}
    }
    let base = changed_facts(v, v).union(changed_obligations(v.obligations@, v.obligations@));
    assert(base =~= Set::<ElementId>::empty());
    assert(owners_of_all(v.containment@, base) =~= Set::<ElementId>::empty());
    assert(changed_population_spec(v, v) =~= Set::<ElementId>::empty());
}

/// References held by the first `k` values of a list.
pub open spec fn value_refs(vs: Seq<ValueView>, k: int) -> Set<ElementId> {
    Set::new(|x: ElementId| exists|b: int| 0 <= b < k && vs[b] == ValueView::Reference(x))
}

/// References held by the first `i` slots of a record.
pub open spec fn slot_refs(r: RecordView, i: int) -> Set<ElementId> {
    Set::new(|x: ElementId| exists|a: int, b: int|
        0 <= a < i && 0 <= b < slot_values(r.slots[a].1).len() && slot_values(r.slots[a].1)[b] == ValueView::Reference(x))
}

proof fn lemma_slot_refs_step(r: RecordView, i: int)
    requires
        0 <= i < r.slots.len(),
    ensures
        slot_refs(r, i + 1) == slot_refs(r, i).union(value_refs(slot_values(r.slots[i].1), slot_values(r.slots[i].1).len() as int)),
{
    let vs = slot_values(r.slots[i].1);
    assert forall|x: ElementId| slot_refs(r, i + 1).contains(x) <==> slot_refs(r, i).union(value_refs(vs, vs.len() as int)).contains(x) by {
        if slot_refs(r, i + 1).contains(x) {
            let (a, b) = choose|a: int, b: int| 0 <= a < i + 1 && 0 <= b < slot_values(r.slots[a].1).len() && slot_values(r.slots[a].1)[b] == ValueView::Reference(x);
            if a < i {
                assert(slot_refs(r, i).contains(x));
            } else {
                assert(value_refs(vs, vs.len() as int).contains(x));
            }
        }
        if slot_refs(r, i).contains(x) {
            let (a, b) = choose|a: int, b: int| 0 <= a < i && 0 <= b < slot_values(r.slots[a].1).len() && slot_values(r.slots[a].1)[b] == ValueView::Reference(x);
            assert(0 <= a < i + 1 && 0 <= b < slot_values(r.slots[a].1).len() && slot_values(r.slots[a].1)[b] == ValueView::Reference(x));
        }
        if value_refs(vs, vs.len() as int).contains(x) {
            let b = choose|b: int| 0 <= b < vs.len() && vs[b] == ValueView::Reference(x);
            assert(0 <= i < i + 1 && 0 <= b < slot_values(r.slots[i].1).len() && slot_values(r.slots[i].1)[b] == ValueView::Reference(x));
        }
    }
    assert(slot_refs(r, i + 1) =~= slot_refs(r, i).union(value_refs(vs, vs.len() as int)));
}

fn touch_values(vs: &Vec<Value>, affected: &mut ElementSet)
    requires
        old(affected).wf(),
    ensures
        final(affected).wf(),
        final(affected)@ == old(affected)@.union(value_refs(vs@.map_values(|v: Value| v@), vs@.len() as int)),
{
    let ghost views = vs@.map_values(|v: Value| v@);
    let mut k: usize = 0;
    while k < vs.len()
        invariant
            affected.wf(),
            k <= vs@.len(),
            views == vs@.map_values(|v: Value| v@),
            affected@ == old(affected)@.union(value_refs(views, k as int)),
        decreases vs.len() - k,
    {
        let ghost kk = k as int;
        if let Value::Reference(t) = &vs[k] {
            affected.insert(*t);
            assert(views[kk] == ValueView::Reference(*t));
            assert(value_refs(views, kk + 1) =~= value_refs(views, kk).insert(*t));
        } else {
            assert(value_refs(views, kk + 1) =~= value_refs(views, kk));
        }
        k = k + 1;
        assert(affected@ =~= old(affected)@.union(value_refs(views, k as int)));
    }
}

fn touch_record(r: &ElementRecord, affected: &mut ElementSet)
    requires
        old(affected).wf(),
    ensures
        final(affected).wf(),
        final(affected)@ == old(affected)@.union(record_participants(r@)),
{
    affected.insert(r.id);
    let mut i: usize = 0;
    assert(slot_refs(r@, 0) =~= Set::<ElementId>::empty());
    while i < r.slots.len()
        invariant
            affected.wf(),
            i <= r.slots@.len(),
            affected@ == old(affected)@.insert(r.id).union(slot_refs(r@, i as int)),
        decreases r.slots.len() - i,
    {
        proof {
            lemma_slot_refs_step(r@, i as int);
        }
        match &r.slots[i].1 {
            SlotValue::Scalar(v) => {
                let ghost vs = slot_values(r@.slots[i as int].1);
                if let Value::Reference(t) = v {
                    affected.insert(*t);
                    assert(vs.len() == 1);
                    assert(vs[0] == ValueView::Reference(*t));
                    assert forall|x: ElementId| value_refs(vs, vs.len() as int).contains(x) <==> x == *t by {
                        if x == *t {
                            assert(0 <= 0 < vs.len() && vs[0] == ValueView::Reference(x));
                        }
                    }
                    assert(value_refs(vs, vs.len() as int) =~= set![*t]);
                } else {
                    assert(value_refs(vs, vs.len() as int) =~= Set::<ElementId>::empty());
                }
            },
            SlotValue::Ordered(vs) => {
                touch_values(vs, affected);
            },
        }
        i = i + 1;
        assert(affected@ =~= old(affected)@.insert(r.id).union(slot_refs(r@, i as int)));
    }
    assert(affected@ =~= old(affected)@.union(record_participants(r@)));
}

fn touch_occurrence(o: &AssociationOccurrence, affected: &mut ElementSet)
    requires
        old(affected).wf(),
    ensures
        final(affected).wf(),
        final(affected)@ == old(affected)@.union(occurrence_participants(o@)),
{
    let mut i: usize = 0;
    while i < o.ends.len()
        invariant
            affected.wf(),
            i <= o.ends@.len(),
            forall|x: ElementId| affected@.contains(x) <==> old(affected)@.contains(x) || exists|a: int| 0 <= a < i && o.ends@[a].1 == x,
        decreases o.ends.len() - i,
    {
        affected.insert(o.ends[i].1);
        i = i + 1;
    }
    assert(affected@ =~= old(affected)@.union(occurrence_participants(o@)));
}

proof fn lemma_record_absent(r: RecordView, s: Seq<ElementRecord>, j: int)
    requires
        sorted_records(s),
        0 <= j <= s.len(),
        forall|m: int| 0 <= m < j ==> s[m].id.0 < r.id.0,
        j < s.len() ==> s[j].id.0 > r.id.0,
    ensures
        !record_in(r, s),
{
    assert forall|k: int| 0 <= k < s.len() implies s[k]@ != r by {
        if k >= j && j < s.len() && k > j {
            assert(s[j].id.0 < s[k].id.0);
        }
    }
}

proof fn lemma_record_match(r: RecordView, s: Seq<ElementRecord>, j: int)
    requires
        sorted_records(s),
        0 <= j < s.len(),
        s[j].id == r.id,
    ensures
        record_in(r, s) <==> s[j]@ == r,
{
    if record_in(r, s) {
        let k = choose|k: int| 0 <= k < s.len() && s[k]@ == r;
        if k < j {
            assert(s[k].id.0 < s[j].id.0);
        } else if k > j {
            assert(s[j].id.0 < s[k].id.0);
        }
    }
}

proof fn lemma_occurrence_absent(r: OccurrenceView, s: Seq<AssociationOccurrence>, j: int)
    requires
        sorted_occurrences(s),
        0 <= j <= s.len(),
        forall|m: int| 0 <= m < j ==> s[m].id.0 < r.id.0,
        j < s.len() ==> s[j].id.0 > r.id.0,
    ensures
        !occurrence_in(r, s),
{
    assert forall|k: int| 0 <= k < s.len() implies s[k]@ != r by {
        if k >= j && j < s.len() && k > j {
            assert(s[j].id.0 < s[k].id.0);
        }
    }
}

proof fn lemma_occurrence_match(r: OccurrenceView, s: Seq<AssociationOccurrence>, j: int)
    requires
        sorted_occurrences(s),
        0 <= j < s.len(),
        s[j].id == r.id,
    ensures
        occurrence_in(r, s) <==> s[j]@ == r,
{
    if occurrence_in(r, s) {
        let k = choose|k: int| 0 <= k < s.len() && s[k]@ == r;
        if k < j {
            assert(s[k].id.0 < s[j].id.0);
        } else if k > j {
            assert(s[j].id.0 < s[k].id.0);
        }
    }
}

/// Merge walk over two identity-ordered record populations.
fn walk_records(before: &Vec<ElementRecord>, after: &Vec<ElementRecord>, affected: &mut ElementSet)
    requires
        old(affected).wf(),
        sorted_records(before@),
        sorted_records(after@),
    ensures
        final(affected).wf(),
        forall|x: ElementId| final(affected)@.contains(x) <==> old(affected)@.contains(x)
            || removed_record_participant(before@, before@.len() as int, after@, x)
            || removed_record_participant(after@, after@.len() as int, before@, x),
{
    let mut i: usize = 0;
    let mut j: usize = 0;
    while i < before.len() && j < after.len()
        invariant
            affected.wf(),
            sorted_records(before@),
            sorted_records(after@),
            i <= before@.len(),
            j <= after@.len(),
            i < before@.len() ==> forall|m: int| 0 <= m < j ==> after@[m].id.0 < before@[i as int].id.0,
            j < after@.len() ==> forall|m: int| 0 <= m < i ==> before@[m].id.0 < after@[j as int].id.0,
            forall|x: ElementId| affected@.contains(x) <==> old(affected)@.contains(x)
                || removed_record_participant(before@, i as int, after@, x)
                || removed_record_participant(after@, j as int, before@, x),
        decreases before@.len() - i + after@.len() - j,
    {
        let a = &before[i];
        let b = &after[j];
        let ghost ii = i as int;
        let ghost jj = j as int;
        if a.id.0 < b.id.0 {
            proof {
                lemma_record_absent(a@, after@, jj);
            }
            touch_record(a, affected);
            i = i + 1;
            proof {
                assert forall|x: ElementId| removed_record_participant(before@, i as int, after@, x) <==>
                    removed_record_participant(before@, ii, after@, x) || record_participants(before@[ii]@).contains(x) by {
                    if record_participants(before@[ii]@).contains(x) {
                        assert(!record_in(before@[ii]@, after@) && record_participants(before@[ii]@).contains(x));
                    }
                }
                if i < before@.len() {
                    assert(before@[ii].id.0 < before@[i as int].id.0);
                }
            }
        } else if a.id.0 > b.id.0 {
            proof {
                lemma_record_absent(b@, before@, ii);
            }
            touch_record(b, affected);
            j = j + 1;
            proof {
                assert forall|x: ElementId| removed_record_participant(after@, j as int, before@, x) <==>
                    removed_record_participant(after@, jj, before@, x) || record_participants(after@[jj]@).contains(x) by {
                    if record_participants(after@[jj]@).contains(x) {
                        assert(!record_in(after@[jj]@, before@) && record_participants(after@[jj]@).contains(x));
                    }
                }
                if j < after@.len() {
                    assert(after@[jj].id.0 < after@[j as int].id.0);
                }
            }
        } else {
            proof {
                lemma_record_match(a@, after@, jj);
                lemma_record_match(b@, before@, ii);
            }
            let same = record_eq(a, b);
            if !same {
                touch_record(a, affected);
                touch_record(b, affected);
            }
            i = i + 1;
            j = j + 1;
            proof {
                assert forall|x: ElementId| removed_record_participant(before@, i as int, after@, x) <==>
                    removed_record_participant(before@, ii, after@, x) || (!same && record_participants(before@[ii]@).contains(x)) by {
                    if !same && record_participants(before@[ii]@).contains(x) {
                        assert(!record_in(before@[ii]@, after@) && record_participants(before@[ii]@).contains(x));
                    }
                }
                assert forall|x: ElementId| removed_record_participant(after@, j as int, before@, x) <==>
                    removed_record_participant(after@, jj, before@, x) || (!same && record_participants(after@[jj]@).contains(x)) by {
                    if !same && record_participants(after@[jj]@).contains(x) {
                        assert(!record_in(after@[jj]@, before@) && record_participants(after@[jj]@).contains(x));
                    }
                }
                if i < before@.len() {
                    assert(before@[ii].id.0 < before@[i as int].id.0);
                }
                if j < after@.len() {
                    assert(after@[jj].id.0 < after@[j as int].id.0);
                }
            }
        }
    }
    while i < before.len()
        invariant
            affected.wf(),
            sorted_records(before@),
            sorted_records(after@),
            i <= before@.len(),
            j <= after@.len(),
            i < before@.len() ==> j == after@.len(),
            i < before@.len() ==> forall|m: int| 0 <= m < j ==> after@[m].id.0 < before@[i as int].id.0,
            j < after@.len() ==> forall|m: int| 0 <= m < i ==> before@[m].id.0 < after@[j as int].id.0,
            forall|x: ElementId| affected@.contains(x) <==> old(affected)@.contains(x)
                || removed_record_participant(before@, i as int, after@, x)
                || removed_record_participant(after@, j as int, before@, x),
        decreases before@.len() - i,
    {
        let ghost ii = i as int;
        proof {
            lemma_record_absent(before@[ii]@, after@, j as int);
        }
        touch_record(&before[i], affected);
        i = i + 1;
        proof {
            assert forall|x: ElementId| removed_record_participant(before@, i as int, after@, x) <==>
                removed_record_participant(before@, ii, after@, x) || record_participants(before@[ii]@).contains(x) by {
                if record_participants(before@[ii]@).contains(x) {
                    assert(!record_in(before@[ii]@, after@) && record_participants(before@[ii]@).contains(x));
                }
            }
            if i < before@.len() {
                assert(before@[ii].id.0 < before@[i as int].id.0);
            }
        }
    }
    while j < after.len()
        invariant
            affected.wf(),
            sorted_records(before@),
            sorted_records(after@),
            i == before@.len(),
            j <= after@.len(),
            j < after@.len() ==> forall|m: int| 0 <= m < i ==> before@[m].id.0 < after@[j as int].id.0,
            forall|x: ElementId| affected@.contains(x) <==> old(affected)@.contains(x)
                || removed_record_participant(before@, i as int, after@, x)
                || removed_record_participant(after@, j as int, before@, x),
        decreases after@.len() - j,
    {
        let ghost jj = j as int;
        proof {
            lemma_record_absent(after@[jj]@, before@, i as int);
        }
        touch_record(&after[j], affected);
        j = j + 1;
        proof {
            assert forall|x: ElementId| removed_record_participant(after@, j as int, before@, x) <==>
                removed_record_participant(after@, jj, before@, x) || record_participants(after@[jj]@).contains(x) by {
                if record_participants(after@[jj]@).contains(x) {
                    assert(!record_in(after@[jj]@, before@) && record_participants(after@[jj]@).contains(x));
                }
            }
            if j < after@.len() {
                assert(after@[jj].id.0 < after@[j as int].id.0);
            }
        }
    }
}

/// Merge walk over two identity-ordered occurrence populations.
fn walk_occurrences(before: &Vec<AssociationOccurrence>, after: &Vec<AssociationOccurrence>, affected: &mut ElementSet)
    requires
        old(affected).wf(),
        sorted_occurrences(before@),
        sorted_occurrences(after@),
    ensures
        final(affected).wf(),
        forall|x: ElementId| final(affected)@.contains(x) <==> old(affected)@.contains(x)
            || removed_occurrence_participant(before@, before@.len() as int, after@, x)
            || removed_occurrence_participant(after@, after@.len() as int, before@, x),
{
    let mut i: usize = 0;
    let mut j: usize = 0;
    while i < before.len() && j < after.len()
        invariant
            affected.wf(),
            sorted_occurrences(before@),
            sorted_occurrences(after@),
            i <= before@.len(),
            j <= after@.len(),
            i < before@.len() ==> forall|m: int| 0 <= m < j ==> after@[m].id.0 < before@[i as int].id.0,
            j < after@.len() ==> forall|m: int| 0 <= m < i ==> before@[m].id.0 < after@[j as int].id.0,
            forall|x: ElementId| affected@.contains(x) <==> old(affected)@.contains(x)
                || removed_occurrence_participant(before@, i as int, after@, x)
                || removed_occurrence_participant(after@, j as int, before@, x),
        decreases before@.len() - i + after@.len() - j,
    {
        let a = &before[i];
        let b = &after[j];
        let ghost ii = i as int;
        let ghost jj = j as int;
        if a.id.0 < b.id.0 {
            proof {
                lemma_occurrence_absent(a@, after@, jj);
            }
            touch_occurrence(a, affected);
            i = i + 1;
            proof {
                assert forall|x: ElementId| removed_occurrence_participant(before@, i as int, after@, x) <==>
                    removed_occurrence_participant(before@, ii, after@, x) || occurrence_participants(before@[ii]@).contains(x) by {
                    if occurrence_participants(before@[ii]@).contains(x) {
                        assert(!occurrence_in(before@[ii]@, after@) && occurrence_participants(before@[ii]@).contains(x));
                    }
                }
                if i < before@.len() {
                    assert(before@[ii].id.0 < before@[i as int].id.0);
                }
            }
        } else if a.id.0 > b.id.0 {
            proof {
                lemma_occurrence_absent(b@, before@, ii);
            }
            touch_occurrence(b, affected);
            j = j + 1;
            proof {
                assert forall|x: ElementId| removed_occurrence_participant(after@, j as int, before@, x) <==>
                    removed_occurrence_participant(after@, jj, before@, x) || occurrence_participants(after@[jj]@).contains(x) by {
                    if occurrence_participants(after@[jj]@).contains(x) {
                        assert(!occurrence_in(after@[jj]@, before@) && occurrence_participants(after@[jj]@).contains(x));
                    }
                }
                if j < after@.len() {
                    assert(after@[jj].id.0 < after@[j as int].id.0);
                }
            }
        } else {
            proof {
                lemma_occurrence_match(a@, after@, jj);
                lemma_occurrence_match(b@, before@, ii);
            }
            let same = occurrence_eq(a, b);
            if !same {
                touch_occurrence(a, affected);
                touch_occurrence(b, affected);
            }
            i = i + 1;
            j = j + 1;
            proof {
                assert forall|x: ElementId| removed_occurrence_participant(before@, i as int, after@, x) <==>
                    removed_occurrence_participant(before@, ii, after@, x) || (!same && occurrence_participants(before@[ii]@).contains(x)) by {
                    if !same && occurrence_participants(before@[ii]@).contains(x) {
                        assert(!occurrence_in(before@[ii]@, after@) && occurrence_participants(before@[ii]@).contains(x));
                    }
                }
                assert forall|x: ElementId| removed_occurrence_participant(after@, j as int, before@, x) <==>
                    removed_occurrence_participant(after@, jj, before@, x) || (!same && occurrence_participants(after@[jj]@).contains(x)) by {
                    if !same && occurrence_participants(after@[jj]@).contains(x) {
                        assert(!occurrence_in(after@[jj]@, before@) && occurrence_participants(after@[jj]@).contains(x));
                    }
                }
                if i < before@.len() {
                    assert(before@[ii].id.0 < before@[i as int].id.0);
                }
                if j < after@.len() {
                    assert(after@[jj].id.0 < after@[j as int].id.0);
                }
            }
        }
    }
    while i < before.len()
        invariant
            affected.wf(),
            sorted_occurrences(before@),
            sorted_occurrences(after@),
            i <= before@.len(),
            j <= after@.len(),
            i < before@.len() ==> j == after@.len(),
            i < before@.len() ==> forall|m: int| 0 <= m < j ==> after@[m].id.0 < before@[i as int].id.0,
            j < after@.len() ==> forall|m: int| 0 <= m < i ==> before@[m].id.0 < after@[j as int].id.0,
            forall|x: ElementId| affected@.contains(x) <==> old(affected)@.contains(x)
                || removed_occurrence_participant(before@, i as int, after@, x)
                || removed_occurrence_participant(after@, j as int, before@, x),
        decreases before@.len() - i,
    {
        let ghost ii = i as int;
        proof {
            lemma_occurrence_absent(before@[ii]@, after@, j as int);
        }
        touch_occurrence(&before[i], affected);
        i = i + 1;
        proof {
            assert forall|x: ElementId| removed_occurrence_participant(before@, i as int, after@, x) <==>
                removed_occurrence_participant(before@, ii, after@, x) || occurrence_participants(before@[ii]@).contains(x) by {
                if occurrence_participants(before@[ii]@).contains(x) {
                    assert(!occurrence_in(before@[ii]@, after@) && occurrence_participants(before@[ii]@).contains(x));
                }
            }
            if i < before@.len() {
                assert(before@[ii].id.0 < before@[i as int].id.0);
            }
        }
    }
    while j < after.len()
        invariant
            affected.wf(),
            sorted_occurrences(before@),
            sorted_occurrences(after@),
            i == before@.len(),
            j <= after@.len(),
            j < after@.len() ==> forall|m: int| 0 <= m < i ==> before@[m].id.0 < after@[j as int].id.0,
            forall|x: ElementId| affected@.contains(x) <==> old(affected)@.contains(x)
                || removed_occurrence_participant(before@, i as int, after@, x)
                || removed_occurrence_participant(after@, j as int, before@, x),
        decreases after@.len() - j,
    {
        let ghost jj = j as int;
        proof {
            lemma_occurrence_absent(after@[jj]@, before@, i as int);
        }
        touch_occurrence(&after[j], affected);
        j = j + 1;
        proof {
            assert forall|x: ElementId| removed_occurrence_participant(after@, j as int, before@, x) <==>
                removed_occurrence_participant(after@, jj, before@, x) || occurrence_participants(after@[jj]@).contains(x) by {
                if occurrence_participants(after@[jj]@).contains(x) {
                    assert(!occurrence_in(after@[jj]@, before@) && occurrence_participants(after@[jj]@).contains(x));
                }
            }
            if j < after@.len() {
                assert(after@[jj].id.0 < after@[j as int].id.0);
            }
        }
    }
}


fn obligation_present(o: ConstructionObligation, s: &Vec<ConstructionObligation>) -> (found: bool)
    ensures
        found == s@.contains(o),
{
    let mut i: usize = 0;
    while i < s.len()
        invariant
            i <= s@.len(),
            forall|k: int| 0 <= k < i ==> s@[k] != o,
        decreases s.len() - i,
    {
        if s[i] == o {
            assert(s@[i as int] == o);
            return true;
        }
        i = i + 1;
    }
    false
}

/// Elements of obligations in `s` that are absent from `t`.
pub open spec fn departed_obligations(s: Seq<ConstructionObligation>, n: int, t: Seq<ConstructionObligation>) -> Set<ElementId> {
    Set::new(|x: ElementId| exists|i: int| 0 <= i < n && s[i].element == x && !t.contains(s[i]))
}

fn touch_departed(s: &Vec<ConstructionObligation>, t: &Vec<ConstructionObligation>, affected: &mut ElementSet)
    requires
        old(affected).wf(),
    ensures
        final(affected).wf(),
        final(affected)@ == old(affected)@.union(departed_obligations(s@, s@.len() as int, t@)),
{
    let mut i: usize = 0;
    while i < s.len()
        invariant
            affected.wf(),
            i <= s@.len(),
            affected@ == old(affected)@.union(departed_obligations(s@, i as int, t@)),
        decreases s.len() - i,
    {
        let ghost ii = i as int;
        if !obligation_present(s[i], t) {
            affected.insert(s[i].element);
            assert(departed_obligations(s@, ii + 1, t@) =~= departed_obligations(s@, ii, t@).insert(s@[ii].element));
        } else {
            assert(departed_obligations(s@, ii + 1, t@) =~= departed_obligations(s@, ii, t@));
        }
        i = i + 1;
        assert(affected@ =~= old(affected)@.union(departed_obligations(s@, i as int, t@)));
    }
}

/// Elements owning `x` directly, one containment hop up.
pub open spec fn owners_prefix(edges: Seq<(ElementId, ElementId)>, n: int, x: ElementId) -> Set<ElementId> {
    Set::new(|o: ElementId| exists|k: int| 0 <= k < n && edges[k] == (o, x))
}

fn touch_owners(edges: &Vec<(ElementId, ElementId)>, x: ElementId, affected: &mut ElementSet)
    requires
        old(affected).wf(),
    ensures
        final(affected).wf(),
        final(affected)@ == old(affected)@.union(owners(edges@, x)),
{
    let mut k: usize = 0;
    while k < edges.len()
        invariant
            affected.wf(),
            k <= edges@.len(),
            affected@ == old(affected)@.union(owners_prefix(edges@, k as int, x)),
        decreases edges.len() - k,
    {
        let ghost kk = k as int;
        if edges[k].1 == x {
            affected.insert(edges[k].0);
            assert(owners_prefix(edges@, kk + 1, x) =~= owners_prefix(edges@, kk, x).insert(edges@[kk].0));
        } else {
            assert(owners_prefix(edges@, kk + 1, x) =~= owners_prefix(edges@, kk, x));
        }
        k = k + 1;
        assert(affected@ =~= old(affected)@.union(owners_prefix(edges@, k as int, x)));
    }
    assert(owners_prefix(edges@, edges@.len() as int, x) =~= owners(edges@, x));
}

/// Owners one and two hops above `x`, through the first `n` edges for the first hop.
pub open spec fn two_hop_prefix(edges: Seq<(ElementId, ElementId)>, n: int, x: ElementId) -> Set<ElementId> {
    Set::new(|o: ElementId| owners_prefix(edges, n, x).contains(o) || exists|o1: ElementId| owners_prefix(edges, n, x).contains(o1) && owners(edges, o1).contains(o))
}

fn touch_two_hop_owners(edges: &Vec<(ElementId, ElementId)>, x: ElementId, affected: &mut ElementSet)
    requires
        old(affected).wf(),
    ensures
        final(affected).wf(),
        final(affected)@ == old(affected)@.union(two_hop_owners(edges@, x)),
{
    let mut k: usize = 0;
    while k < edges.len()
        invariant
            affected.wf(),
            k <= edges@.len(),
            affected@ == old(affected)@.union(two_hop_prefix(edges@, k as int, x)),
        decreases edges.len() - k,
    {
        let ghost kk = k as int;
        if edges[k].1 == x {
            let owner = edges[k].0;
            affected.insert(owner);
            touch_owners(edges, owner, affected);
            assert(owners_prefix(edges@, kk + 1, x) =~= owners_prefix(edges@, kk, x).insert(owner));
            assert forall|o: ElementId| two_hop_prefix(edges@, kk + 1, x).contains(o) <==> two_hop_prefix(edges@, kk, x).insert(owner).union(owners(edges@, owner)).contains(o) by {
                if two_hop_prefix(edges@, kk + 1, x).contains(o) && !owners_prefix(edges@, kk + 1, x).contains(o) {
                    let o1 = choose|o1: ElementId| owners_prefix(edges@, kk + 1, x).contains(o1) && owners(edges@, o1).contains(o);
                    if o1 != owner {
                        assert(owners_prefix(edges@, kk, x).contains(o1));
                    }
                }
                if owners(edges@, owner).contains(o) {
                    assert(owners_prefix(edges@, kk + 1, x).contains(owner));
                }
                if two_hop_prefix(edges@, kk, x).contains(o) && !owners_prefix(edges@, kk, x).contains(o) {
                    let o1 = choose|o1: ElementId| owners_prefix(edges@, kk, x).contains(o1) && owners(edges@, o1).contains(o);
                    assert(owners_prefix(edges@, kk + 1, x).contains(o1));
                }
            }
            assert(two_hop_prefix(edges@, kk + 1, x) =~= two_hop_prefix(edges@, kk, x).insert(owner).union(owners(edges@, owner)));
        } else {
            assert(owners_prefix(edges@, kk + 1, x) =~= owners_prefix(edges@, kk, x));
            assert(two_hop_prefix(edges@, kk + 1, x) =~= two_hop_prefix(edges@, kk, x));
        }
        k = k + 1;
        assert(affected@ =~= old(affected)@.union(two_hop_prefix(edges@, k as int, x)));
    }
    assert(owners_prefix(edges@, edges@.len() as int, x) =~= owners(edges@, x));
    assert(two_hop_prefix(edges@, edges@.len() as int, x) =~= two_hop_owners(edges@, x));
}

/// Owners (two hops) of the first `n` listed participants.
pub open spec fn owners_of_listed(edges: Seq<(ElementId, ElementId)>, p: Seq<ElementId>, n: int) -> Set<ElementId> {
    Set::new(|o: ElementId| exists|i: int| 0 <= i < n && two_hop_owners(edges, p[i]).contains(o))
}

fn touch_owners_of_all(edges: &Vec<(ElementId, ElementId)>, participants: &Vec<ElementId>, affected: &mut ElementSet)
    requires
        old(affected).wf(),
    ensures
        final(affected).wf(),
        final(affected)@ == old(affected)@.union(owners_of_all(edges@, participants@.to_set())),
{
    let mut i: usize = 0;
    while i < participants.len()
        invariant
            affected.wf(),
            i <= participants@.len(),
            affected@ == old(affected)@.union(owners_of_listed(edges@, participants@, i as int)),
        decreases participants.len() - i,
    {
        let ghost ii = i as int;
        touch_two_hop_owners(edges, participants[i], affected);
        i = i + 1;
        assert(owners_of_listed(edges@, participants@, ii + 1) =~= owners_of_listed(edges@, participants@, ii).union(two_hop_owners(edges@, participants@[ii])));
        assert(affected@ =~= old(affected)@.union(owners_of_listed(edges@, participants@, i as int)));
    }
    assert forall|o: ElementId| owners_of_listed(edges@, participants@, participants@.len() as int).contains(o) <==> owners_of_all(edges@, participants@.to_set()).contains(o) by {
        if owners_of_all(edges@, participants@.to_set()).contains(o) {
            let x = choose|x: ElementId| participants@.to_set().contains(x) && two_hop_owners(edges@, x).contains(o);
            let i = participants@.index_of(x);
            assert(participants@[i] == x);
        }
        if owners_of_listed(edges@, participants@, participants@.len() as int).contains(o) {
            let i = choose|i: int| 0 <= i < participants@.len() && two_hop_owners(edges@, participants@[i]).contains(o);
            assert(participants@.to_set().contains(participants@[i]));
        }
    }
    assert(owners_of_listed(edges@, participants@, participants@.len() as int) =~= owners_of_all(edges@, participants@.to_set()));
}

/// The population whose cached reference reads a candidate change can
/// invalidate: participants of changed records and occurrences, elements of
/// changed obligations, and their one- and two-hop containment owners in
/// either candidate.
pub fn changed_population(before: &ConstructionView, after: &ConstructionView) -> (affected: ElementSet)
    requires
        before.wf(),
        after.wf(),
    ensures
        affected.wf(),
        affected@ == changed_population_spec(*before, *after),
{
    let mut affected = ElementSet::new();
    walk_records(&before.elements, &after.elements, &mut affected);
    walk_occurrences(&before.occurrences, &after.occurrences, &mut affected);
    let ghost facts = affected@;
    assert(facts =~= changed_facts(*before, *after));
    touch_departed(&before.obligations, &after.obligations, &mut affected);
    touch_departed(&after.obligations, &before.obligations, &mut affected);
    let ghost base = affected@;
    assert(base =~= changed_facts(*before, *after).union(changed_obligations(before.obligations@, after.obligations@)));
    let participants = affected.to_vec();
    touch_owners_of_all(&before.containment, &participants, &mut affected);
    touch_owners_of_all(&after.containment, &participants, &mut affected);
    assert(affected@ =~= changed_population_spec(*before, *after));
    affected
}

/// Both strategies reconstruct the same ordinary canonical candidate each round.
#[derive(Clone, Copy, Debug, PartialEq, Eq, Structural)]
pub enum ReferenceRefinementStrategy {
    DependencyDriven,
    /// Re-evaluate every source reference, independent of cache invalidation.
    ReferenceFullScan,
}

impl Default for ReferenceRefinementStrategy {
    fn default() -> (strategy: Self)
        ensures
            strategy == ReferenceRefinementStrategy::DependencyDriven,
    {
        ReferenceRefinementStrategy::DependencyDriven
    }
}

/// Observations never participate in reference selection or semantic acceptance.
#[derive(Debug)]
pub struct ReferenceRefinementRound {
    pub round: usize,
    pub input_endpoints: usize,
    pub selected_endpoints: usize,
    pub structural_obligations: usize,
    pub references_considered: usize,
    pub references_evaluated: usize,
    pub references_reused: usize,
    pub affected_elements: usize,
    pub construction_elapsed: Duration,
    pub context_elapsed: Duration,
    pub change_detection_elapsed: Duration,
    pub resolution_elapsed: Duration,
}

/// The parts of a semantic context identity that scope pending work.
#[derive(Clone, Debug)]
pub struct SemanticContextScopes {
    pub pending_specialization_scopes: Vec<ElementId>,
    pub pending_namespace_scopes: Vec<ElementId>,
    pub construction_obligations: Vec<(ElementId, PropertyId)>,
}

pub open spec fn symmetric_difference(a: Seq<ElementId>, b: Seq<ElementId>) -> Set<ElementId> {
    a.to_set().difference(b.to_set()).union(b.to_set().difference(a.to_set()))
}

pub open spec fn obligation_scope_changes(a: Seq<(ElementId, PropertyId)>, b: Seq<(ElementId, PropertyId)>) -> Set<ElementId> {
    Set::new(|x: ElementId| exists|p: PropertyId|
        (a.contains((x, p)) && !b.contains((x, p))) || (b.contains((x, p)) && !a.contains((x, p))))
}

fn id_present(x: ElementId, s: &Vec<ElementId>) -> (found: bool)
    ensures
        found == s@.contains(x),
{
    let mut i: usize = 0;
    while i < s.len()
        invariant
            i <= s@.len(),
            forall|k: int| 0 <= k < i ==> s@[k] != x,
        decreases s.len() - i,
    {
        if s[i] == x {
            assert(s@[i as int] == x);
            return true;
        }
        i = i + 1;
    }
    false
}

fn pair_present(x: (ElementId, PropertyId), s: &Vec<(ElementId, PropertyId)>) -> (found: bool)
    ensures
        found == s@.contains(x),
{
    let mut i: usize = 0;
    while i < s.len()
        invariant
            i <= s@.len(),
            forall|k: int| 0 <= k < i ==> s@[k] != x,
        decreases s.len() - i,
    {
        if s[i].0 == x.0 && s[i].1 == x.1 {
            assert(s@[i as int] == x);
            return true;
        }
        i = i + 1;
    }
    false
}

fn touch_missing(a: &Vec<ElementId>, b: &Vec<ElementId>, affected: &mut ElementSet)
    requires
        old(affected).wf(),
    ensures
        final(affected).wf(),
        final(affected)@ == old(affected)@.union(a@.to_set().difference(b@.to_set())),
{
    let mut i: usize = 0;
    while i < a.len()
        invariant
            affected.wf(),
            i <= a@.len(),
            affected@ == old(affected)@.union(a@.take(i as int).to_set().difference(b@.to_set())),
        decreases a.len() - i,
    {
        let ghost ii = i as int;
        if !id_present(a[i], b) {
            affected.insert(a[i]);
        }
        i = i + 1;
        assert(a@.take(i as int) =~= a@.take(ii).push(a@[ii]));
        assert forall|x: ElementId| a@.take(i as int).to_set().contains(x) <==> a@.take(ii).to_set().insert(a@[ii]).contains(x) by {
            if a@.take(i as int).to_set().contains(x) {
                let k = a@.take(i as int).index_of(x);
                if k < ii {
                    assert(a@.take(ii)[k] == x);
                }
            }
            if a@.take(ii).to_set().contains(x) {
                let k = a@.take(ii).index_of(x);
                assert(a@.take(i as int)[k] == x);
            }
            if x == a@[ii] {
                assert(a@.take(i as int)[ii] == x);
            }
        }
        assert(a@.take(i as int).to_set() =~= a@.take(ii).to_set().insert(a@[ii]));
        assert(affected@ =~= old(affected)@.union(a@.take(i as int).to_set().difference(b@.to_set())));
    }
    assert(a@.take(i as int) =~= a@);
}

fn touch_missing_pairs(a: &Vec<(ElementId, PropertyId)>, b: &Vec<(ElementId, PropertyId)>, affected: &mut ElementSet)
    requires
        old(affected).wf(),
    ensures
        final(affected).wf(),
        final(affected)@ == old(affected)@.union(Set::new(|x: ElementId| exists|p: PropertyId| a@.contains((x, p)) && !b@.contains((x, p)))),
{
    let mut i: usize = 0;
    while i < a.len()
        invariant
            affected.wf(),
            i <= a@.len(),
            affected@ == old(affected)@.union(Set::new(|x: ElementId| exists|p: PropertyId| a@.take(i as int).contains((x, p)) && !b@.contains((x, p)))),
        decreases a.len() - i,
    {
        let ghost ii = i as int;
        let ghost before = Set::new(|x: ElementId| exists|p: PropertyId| a@.take(ii).contains((x, p)) && !b@.contains((x, p)));
        if !pair_present(a[i], b) {
            affected.insert(a[i].0);
        }
        i = i + 1;
        proof {
            assert(a@.take(i as int) =~= a@.take(ii).push(a@[ii]));
            let after = Set::new(|x: ElementId| exists|p: PropertyId| a@.take(i as int).contains((x, p)) && !b@.contains((x, p)));
            assert forall|x: ElementId| after.contains(x) <==> (before.contains(x) || (x == a@[ii].0 && !b@.contains(a@[ii]))) by {
                if after.contains(x) {
                    let p = choose|p: PropertyId| a@.take(i as int).contains((x, p)) && !b@.contains((x, p));
                    let k = a@.take(i as int).index_of((x, p));
                    if k < ii {
                        assert(a@.take(ii)[k] == (x, p));
                        assert(before.contains(x));
                    }
                }
                if before.contains(x) {
                    let p = choose|p: PropertyId| a@.take(ii).contains((x, p)) && !b@.contains((x, p));
                    let k = a@.take(ii).index_of((x, p));
                    assert(a@.take(i as int)[k] == (x, p));
                }
                if x == a@[ii].0 && !b@.contains(a@[ii]) {
                    assert(a@.take(i as int)[ii] == (x, a@[ii].1));
                }
            }
            if !b@.contains(a@[ii]) {
                assert(after =~= before.insert(a@[ii].0));
            } else {
                assert(after =~= before);
            }
        }
        assert(affected@ =~= old(affected)@.union(Set::new(|x: ElementId| exists|p: PropertyId| a@.take(i as int).contains((x, p)) && !b@.contains((x, p)))));
    }
    assert(a@.take(i as int) =~= a@);
}

/// Pending scope changes are local: they add exactly the changed scopes and
/// obligation owners to the affected population. Whether the semantic
/// contract itself changed, which invalidates every cached read, is the
/// context compatibility verdict `compatible`.
pub fn context_changes(
    previous: &SemanticContextScopes,
    current: &SemanticContextScopes,
    compatible: bool,
    affected: &mut ElementSet,
) -> (contract_changed: bool)
    requires
        old(affected).wf(),
    ensures
        final(affected).wf(),
        contract_changed == !compatible,
        final(affected)@ == old(affected)@
            .union(symmetric_difference(previous.pending_specialization_scopes@, current.pending_specialization_scopes@))
            .union(symmetric_difference(previous.pending_namespace_scopes@, current.pending_namespace_scopes@))
            .union(obligation_scope_changes(previous.construction_obligations@, current.construction_obligations@)),
{
    touch_missing(&previous.pending_specialization_scopes, &current.pending_specialization_scopes, affected);
    touch_missing(&current.pending_specialization_scopes, &previous.pending_specialization_scopes, affected);
    touch_missing(&previous.pending_namespace_scopes, &current.pending_namespace_scopes, affected);
    touch_missing(&current.pending_namespace_scopes, &previous.pending_namespace_scopes, affected);
    touch_missing_pairs(&previous.construction_obligations, &current.construction_obligations, affected);
    touch_missing_pairs(&current.construction_obligations, &previous.construction_obligations, affected);
    assert(affected@ =~= old(affected)@
        .union(symmetric_difference(previous.pending_specialization_scopes@, current.pending_specialization_scopes@))
        .union(symmetric_difference(previous.pending_namespace_scopes@, current.pending_namespace_scopes@))
        .union(obligation_scope_changes(previous.construction_obligations@, current.construction_obligations@)));
    !compatible
}

/// A reference outcome evaluated in an earlier round, with the records its
/// expected-metaclass filter read (explicit positive cache dependencies).
#[derive(Debug)]
pub struct CachedReference {
    pub request: PendingLibraryReference,
    pub candidates: Vec<ElementId>,
    pub selected: Option<ElementId>,
}

/// A cached outcome is reused only under the dependency-driven strategy, for
/// the identical request, when no candidate record and no recorded read is
/// affected (`reads_affected` is the read set's own invalidation verdict).
pub open spec fn reusable_spec(
    strategy: ReferenceRefinementStrategy,
    cached: CachedReference,
    reference: PendingLibraryReference,
    affected: Set<ElementId>,
    reads_affected: bool,
) -> bool {
    &&& strategy == ReferenceRefinementStrategy::DependencyDriven
    &&& reference_key(cached.request) == reference_key(reference)
    &&& cached.candidates@.to_set().disjoint(affected)
    &&& !reads_affected
}

/// The full-scan strategy never reuses an earlier answer: every reference is
/// evaluated afresh in every round.
pub proof fn law_full_scan_never_reuses(
    cached: CachedReference,
    reference: PendingLibraryReference,
    affected: Set<ElementId>,
    reads_affected: bool,
)
    ensures
        !reusable_spec(ReferenceRefinementStrategy::ReferenceFullScan, cached, reference, affected, reads_affected),
{
}

pub fn reusable(
    strategy: ReferenceRefinementStrategy,
    cached: &CachedReference,
    reference: &PendingLibraryReference,
    affected: &ElementSet,
    reads_affected: bool,
) -> (reuse: bool)
    requires
        affected.wf(),
    ensures
        reuse == reusable_spec(strategy, *cached, *reference, affected@, reads_affected),
{
    if strategy != ReferenceRefinementStrategy::DependencyDriven || !same_reference(&cached.request, reference) || reads_affected {
        return false;
    }
    let mut i: usize = 0;
    while i < cached.candidates.len()
        invariant
            affected.wf(),
            i <= cached.candidates@.len(),
            forall|k: int| 0 <= k < i ==> !affected@.contains(cached.candidates@[k]),
        decreases cached.candidates.len() - i,
    {
        if affected.contains(cached.candidates[i]) {
            assert(cached.candidates@.to_set().contains(cached.candidates@[i as int]));
            return false;
        }
        i = i + 1;
    }
    assert(cached.candidates@.to_set().disjoint(affected@)) by {
        assert forall|x: ElementId| cached.candidates@.to_set().contains(x) implies !affected@.contains(x) by {
            let k = cached.candidates@.index_of(x);
        }
    }
    true
}

/// One lookup member: the found element and the membership that exposes it.
#[derive(Clone, Copy, Debug, PartialEq, Eq, Structural)]
pub struct LookupMember {
    pub element: ElementId,
    pub membership: ElementId,
}

/// The provisional endpoint of a lookup: present only for exactly one member,
/// its membership or element as the reference requests.
pub open spec fn lookup_target(members: Seq<LookupMember>, membership_target: bool) -> Option<ElementId> {
    if members.len() == 1 {
        Some(if membership_target { members[0].membership } else { members[0].element })
    } else {
        None
    }
}

pub fn select_target(members: &[LookupMember], membership_target: bool) -> (target: Option<ElementId>)
    ensures
        target == lookup_target(members@, membership_target),
{
    if members.len() == 1 {
        Some(if membership_target { members[0].membership } else { members[0].element })
    } else {
        None
    }
}

/// Every element and membership a lookup answer names: the candidate records
/// that the outcome depends on beyond its query reads.
pub open spec fn lookup_candidates(members: Seq<LookupMember>) -> Set<ElementId> {
    Set::new(|x: ElementId| exists|i: int| 0 <= i < members.len() && (members[i].element == x || members[i].membership == x))
}

pub fn candidate_records(members: &[LookupMember]) -> (candidates: ElementSet)
    ensures
        candidates.wf(),
        candidates@ == lookup_candidates(members@),
{
    let mut out = ElementSet::new();
    let mut i: usize = 0;
    while i < members.len()
        invariant
            out.wf(),
            i <= members@.len(),
            out@ == Set::new(|x: ElementId| exists|k: int| 0 <= k < i && (members@[k].element == x || members@[k].membership == x)),
        decreases members.len() - i,
    {
        let ghost ii = i as int;
        out.insert(members[i].element);
        out.insert(members[i].membership);
        i = i + 1;
        assert(out@ =~= Set::new(|x: ElementId| exists|k: int| 0 <= k < i && (members@[k].element == x || members@[k].membership == x)));
    }
    assert(out@ =~= lookup_candidates(members@));
    out
}

/// Resolved endpoints, keyed by (relationship, property); each key once.
#[derive(Debug)]
pub struct Endpoints {
    entries: Vec<(ElementId, PropertyId, ElementId)>,
}

impl View for Endpoints {
    type V = Map<(ElementId, PropertyId), ElementId>;

    closed spec fn view(&self) -> Map<(ElementId, PropertyId), ElementId> {
        Map::new(
            |k: (ElementId, PropertyId)| exists|i: int| 0 <= i < self.entries@.len() && (self.entries@[i].0, self.entries@[i].1) == k,
            |k: (ElementId, PropertyId)| {
                let i = choose|i: int| 0 <= i < self.entries@.len() && (self.entries@[i].0, self.entries@[i].1) == k;
                self.entries@[i].2
            },
        )
    }
}

impl Endpoints {
    pub closed spec fn wf(&self) -> bool {
        forall|i: int, j: int| 0 <= i < j < self.entries@.len() ==>
            (self.entries@[i].0, self.entries@[i].1) != (self.entries@[j].0, self.entries@[j].1)
    }

    pub fn new() -> (e: Endpoints)
        ensures
            e.wf(),
            e@ == Map::<(ElementId, PropertyId), ElementId>::empty(),
    {
        let e = Endpoints { entries: Vec::new() };
        assert(e@ =~= Map::<(ElementId, PropertyId), ElementId>::empty());
        e
    }

    proof fn lemma_entry(&self, i: int)
        requires
            self.wf(),
            0 <= i < self.entries@.len(),
        ensures
            self@.contains_key((self.entries@[i].0, self.entries@[i].1)),
            self@[(self.entries@[i].0, self.entries@[i].1)] == self.entries@[i].2,
    {
        let k = (self.entries@[i].0, self.entries@[i].1);
        let c = choose|c: int| 0 <= c < self.entries@.len() && (self.entries@[c].0, self.entries@[c].1) == k;
        if c != i {
            if c < i {
            } else {
            }
        }
    }

    fn find(&self, relationship: ElementId, property: PropertyId) -> (index: Option<usize>)
        requires
            self.wf(),
        ensures
            match index {
                Some(i) => i < self.entries@.len() && self.entries@[i as int].0 == relationship && self.entries@[i as int].1 == property,
                None => !self@.contains_key((relationship, property)),
            },
    {
        let mut i: usize = 0;
        while i < self.entries.len()
            invariant
                i <= self.entries@.len(),
                forall|k: int| 0 <= k < i ==> (self.entries@[k].0, self.entries@[k].1) != (relationship, property),
            decreases self.entries.len() - i,
        {
            if self.entries[i].0 == relationship && self.entries[i].1 == property {
                return Some(i);
            }
            i = i + 1;
        }
        None
    }

    /// The endpoint recorded for a key.
    pub fn get(&self, relationship: ElementId, property: PropertyId) -> (target: Option<ElementId>)
        requires
            self.wf(),
        ensures
            target == (if self@.contains_key((relationship, property)) {
                Some(self@[(relationship, property)])
            } else {
                None::<ElementId>
            }),
    {
        match self.find(relationship, property) {
            Some(i) => {
                proof {
                    self.lemma_entry(i as int);
                }
                Some(self.entries[i].2)
            },
            None => None,
        }
    }

    /// Record (or replace) the endpoint of a key.
    pub fn insert(&mut self, relationship: ElementId, property: PropertyId, target: ElementId)
        requires
            old(self).wf(),
        ensures
            final(self).wf(),
            final(self)@ == old(self)@.insert((relationship, property), target),
    {
        let key = (relationship, property);
        match self.find(relationship, property) {
            Some(i) => {
                let ghost before = self.entries@;
                self.entries.set(i, (relationship, property, target));
                proof {
                    assert forall|k: (ElementId, PropertyId)| #[trigger] self@.contains_key(k) == old(self)@.insert(key, target).contains_key(k) by {
                        if old(self)@.contains_key(k) {
                            let c = choose|c: int| 0 <= c < before.len() && (before[c].0, before[c].1) == k;
                            assert((self.entries@[c].0, self.entries@[c].1) == k);
                        }
                        if self@.contains_key(k) {
                            let c = choose|c: int| 0 <= c < self.entries@.len() && (self.entries@[c].0, self.entries@[c].1) == k;
                            if c != i {
                                assert((before[c].0, before[c].1) == k);
                            }
                        }
                        if k == key {
                            assert((self.entries@[i as int].0, self.entries@[i as int].1) == k);
                        }
                    }
                    assert forall|k: (ElementId, PropertyId)| self@.contains_key(k) implies self@[k] == old(self)@.insert(key, target)[k] by {
                        let c = choose|c: int| 0 <= c < self.entries@.len() && (self.entries@[c].0, self.entries@[c].1) == k;
                        self.lemma_entry(c);
                        if c != i {
                            old(self).lemma_entry(c);
                        }
                    }
                    assert(self@ =~= old(self)@.insert(key, target));
                }
            },
            None => {
                let ghost before = self.entries@;
                self.entries.push((relationship, property, target));
                proof {
                    assert forall|k: (ElementId, PropertyId)| #[trigger] self@.contains_key(k) == old(self)@.insert(key, target).contains_key(k) by {
                        if old(self)@.contains_key(k) {
                            let c = choose|c: int| 0 <= c < before.len() && (before[c].0, before[c].1) == k;
                            assert((self.entries@[c].0, self.entries@[c].1) == k);
                        }
                        if self@.contains_key(k) {
                            let c = choose|c: int| 0 <= c < self.entries@.len() && (self.entries@[c].0, self.entries@[c].1) == k;
                            if c < before.len() {
                                assert((before[c].0, before[c].1) == k);
                            }
                        }
                        if k == key {
                            assert((self.entries@[before.len() as int].0, self.entries@[before.len() as int].1) == k);
                        }
                    }
                    assert forall|k: (ElementId, PropertyId)| self@.contains_key(k) implies self@[k] == old(self)@.insert(key, target)[k] by {
                        let c = choose|c: int| 0 <= c < self.entries@.len() && (self.entries@[c].0, self.entries@[c].1) == k;
                        self.lemma_entry(c);
                        if c < before.len() {
                            old(self).lemma_entry(c);
                        }
                    }
                    assert(self@ =~= old(self)@.insert(key, target));
                }
            },
        }
    }

    /// An identical, independent copy.
    pub fn copy(&self) -> (copy: Endpoints)
        requires
            self.wf(),
        ensures
            copy.wf(),
            copy@ == self@,
    {
        let mut entries: Vec<(ElementId, PropertyId, ElementId)> = Vec::new();
        let mut i: usize = 0;
        while i < self.entries.len()
            invariant
                i <= self.entries@.len(),
                entries@ == self.entries@.take(i as int),
            decreases self.entries.len() - i,
        {
            entries.push(self.entries[i]);
            i = i + 1;
            assert(entries@ =~= self.entries@.take(i as int));
        }
        assert(entries@ =~= self.entries@);
        let copy = Endpoints { entries };
        assert(copy@ =~= self@);
        copy
    }

    /// Number of keys.
    pub fn len(&self) -> (n: usize)
        requires
            self.wf(),
        ensures
            n == self@.len(),
    {
        proof {
            self.lemma_len();
        }
        self.entries.len()
    }

    proof fn lemma_len(&self)
        requires
            self.wf(),
        ensures
            self@.len() == self.entries@.len(),
            self@.dom().finite(),
    {
        let keys = self.entries@.map_values(|e: (ElementId, PropertyId, ElementId)| (e.0, e.1));
        assert(keys.no_duplicates()) by {
            assert forall|i: int, j: int| 0 <= i < keys.len() && 0 <= j < keys.len() && i != j implies keys[i] != keys[j] by {
                if i < j {
                } else {
                }
            }
        }
        assert(self@.dom() =~= keys.to_set()) by {
            assert forall|k: (ElementId, PropertyId)| self@.dom().contains(k) <==> keys.to_set().contains(k) by {
                if keys.to_set().contains(k) {
                    let i = keys.index_of(k);
                    assert((self.entries@[i].0, self.entries@[i].1) == k);
                }
                if self@.dom().contains(k) {
                    let c = choose|c: int| 0 <= c < self.entries@.len() && (self.entries@[c].0, self.entries@[c].1) == k;
                    assert(keys[c] == k);
                }
            }
        }
        keys.unique_seq_to_set();
    }

    /// Whether both record the same endpoint for the same keys.
    pub fn same_as(&self, other: &Endpoints) -> (same: bool)
        requires
            self.wf(),
            other.wf(),
        ensures
            same == (self@ == other@),
    {
        if self.len() != other.len() {
            return false;
        }
        let mut i: usize = 0;
        while i < self.entries.len()
            invariant
                self.wf(),
                other.wf(),
                self@.len() == other@.len(),
                i <= self.entries@.len(),
                forall|k: int| 0 <= k < i ==> other@.contains_key((self.entries@[k].0, self.entries@[k].1))
                    && other@[(self.entries@[k].0, self.entries@[k].1)] == self.entries@[k].2,
            decreases self.entries.len() - i,
        {
            let (r, p, t) = self.entries[i];
            proof {
                self.lemma_entry(i as int);
            }
            match other.get(r, p) {
                Some(u) if u == t => {},
                _ => {
                    return false;
                },
            }
            i = i + 1;
        }
        proof {
            self.lemma_len();
            other.lemma_len();
            assert(self@.dom().subset_of(other@.dom())) by {
                assert forall|k: (ElementId, PropertyId)| self@.dom().contains(k) implies other@.dom().contains(k) by {
                    let c = choose|c: int| 0 <= c < self.entries@.len() && (self.entries@[c].0, self.entries@[c].1) == k;
                }
            }
            vstd::set_lib::lemma_subset_equality(self@.dom(), other@.dom());
            assert forall|k: (ElementId, PropertyId)| self@.contains_key(k) implies self@[k] == other@[k] by {
                let c = choose|c: int| 0 <= c < self.entries@.len() && (self.entries@[c].0, self.entries@[c].1) == k;
                self.lemma_entry(c);
            }
            assert(self@ =~= other@);
        }
        true
    }
}

/// Why reference refinement stopped without a stable endpoint set.
#[derive(Clone, Copy, Debug, PartialEq, Eq, Structural)]
pub enum RefinementError {
    /// A round was asked to resolve an endpoint set already tried.
    ResolutionCycle,
}

/// The fixed-point protocol of reference refinement: each round constructs
/// from the current endpoints and selects next endpoints; refinement ends when
/// a round selects exactly its input, and fails on a repeated input.
pub struct RefinementProgress {
    resolved: Endpoints,
    previous: Vec<Endpoints>,
    round: usize,
}

impl RefinementProgress {
    pub closed spec fn wf(&self) -> bool {
        &&& self.resolved.wf()
        &&& forall|i: int| 0 <= i < self.previous@.len() ==> self.previous@[i].wf()
    }

    /// Endpoints the next round constructs from.
    pub closed spec fn resolved_view(&self) -> Map<(ElementId, PropertyId), ElementId> {
        self.resolved@
    }

    /// Endpoint sets already constructed from, in round order.
    pub closed spec fn tried(&self) -> Seq<Map<(ElementId, PropertyId), ElementId>> {
        self.previous@.map_values(|e: Endpoints| e@)
    }

    pub closed spec fn round_number(&self) -> usize {
        self.round
    }

    /// Refinement starts from no endpoints, at round zero.
    pub fn new() -> (progress: RefinementProgress)
        ensures
            progress.wf(),
            progress.resolved_view() == Map::<(ElementId, PropertyId), ElementId>::empty(),
            progress.tried() == Seq::<Map<(ElementId, PropertyId), ElementId>>::empty(),
            progress.round_number() == 0,
    {
        let p = RefinementProgress { resolved: Endpoints::new(), previous: Vec::new(), round: 0 };
        assert(p.tried() =~= Seq::<Map<(ElementId, PropertyId), ElementId>>::empty());
        p
    }

    /// The endpoints this round constructs from.
    pub fn resolved(&self) -> (resolved: &Endpoints)
        requires
            self.wf(),
        ensures
            resolved.wf(),
            resolved@ == self.resolved_view(),
    {
        &self.resolved
    }

    /// Begin a round: an endpoint set already constructed from is a cycle.
    pub fn begin_round(&mut self) -> (round: Result<usize, RefinementError>)
        requires
            old(self).wf(),
        ensures
            final(self).wf(),
            final(self).resolved_view() == old(self).resolved_view(),
            final(self).round_number() == old(self).round_number(),
            old(self).tried().contains(old(self).resolved_view()) ==> round == Err::<usize, RefinementError>(RefinementError::ResolutionCycle)
                && final(self).tried() == old(self).tried(),
            !old(self).tried().contains(old(self).resolved_view()) ==> round == Ok::<usize, RefinementError>(old(self).round_number())
                && final(self).tried() == old(self).tried().push(old(self).resolved_view()),
    {
        let mut i: usize = 0;
        while i < self.previous.len()
            invariant
                self.wf(),
                i <= self.previous@.len(),
                forall|k: int| 0 <= k < i ==> self.previous@[k]@ != self.resolved@,
            decreases self.previous.len() - i,
        {
            if self.previous[i].same_as(&self.resolved) {
                assert(self.tried()[i as int] == self.resolved_view());
                return Err(RefinementError::ResolutionCycle);
            }
            i = i + 1;
        }
        assert(!self.tried().contains(self.resolved_view())) by {
            if self.tried().contains(self.resolved_view()) {
                let k = self.tried().index_of(self.resolved_view());
                assert(self.previous@[k]@ == self.resolved@);
            }
        }
        let snapshot = self.resolved.copy();
        self.previous.push(snapshot);
        assert(self.tried() =~= old(self).tried().push(old(self).resolved_view()));
        Ok(self.round)
    }

    /// Finish a round with the endpoints it selected: a round that selects
    /// exactly its input is stable and ends refinement; otherwise the next
    /// round constructs from the selection.
    pub fn finish_round(&mut self, next: Endpoints) -> (stable: bool)
        requires
            old(self).wf(),
            next.wf(),
            old(self).round_number() < usize::MAX,
        ensures
            final(self).wf(),
            stable == (next@ == old(self).resolved_view()),
            final(self).tried() == old(self).tried(),
            stable ==> final(self).resolved_view() == old(self).resolved_view() && final(self).round_number() == old(self).round_number(),
            !stable ==> final(self).resolved_view() == next@ && final(self).round_number() == old(self).round_number() + 1,
    {
        if next.same_as(&self.resolved) {
            return true;
        }
        self.resolved = next;
        self.round = self.round + 1;
        false
    }
}

} // verus!

