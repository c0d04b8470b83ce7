//! Identity retirement before an authored recompilation: an identity origin
//! stays in the ledger only while the syntax node it was recorded from is still
//! live in its document; the records and occurrences of the other origins are
//! retired from the declared identity history.
use crate::ids::{fact_key_lt, AssociationOccurrenceId, DocumentId, ElementId, FactKey, SourceOrigin, SyntaxNodeId};
use crate::library::LibrarySourceMap;
use vstd::prelude::*;

verus! {

/// The origin still points at a live syntax node of its document.
pub open spec fn origin_live(live: Seq<(DocumentId, SyntaxNodeId)>, origin: SourceOrigin) -> bool {
    match origin.syntax_node {
        Some(node) => live.contains((origin.document, node)),
        None => false,
    }
}

/// The ledger entries that stay, in ledger order.
pub open spec fn kept_entries(
    entries: Seq<(FactKey, SourceOrigin)>,
    live: Seq<(DocumentId, SyntaxNodeId)>,
) -> Seq<(FactKey, SourceOrigin)> {
    entries.filter(|entry: (FactKey, SourceOrigin)| origin_live(live, entry.1))
}

/// Records whose origin is no longer live.
pub open spec fn retired_element(
    entries: Seq<(FactKey, SourceOrigin)>,
    live: Seq<(DocumentId, SyntaxNodeId)>,
    id: ElementId,
) -> bool {
    exists|i: int|
        0 <= i < entries.len() && #[trigger] entries[i].0 == FactKey::Element(id) && !origin_live(live, entries[i].1)
}

/// Association occurrences whose origin is no longer live.
pub open spec fn retired_occurrence(
    entries: Seq<(FactKey, SourceOrigin)>,
    live: Seq<(DocumentId, SyntaxNodeId)>,
    id: AssociationOccurrenceId,
) -> bool {
    exists|i: int|
        0 <= i < entries.len() && #[trigger] entries[i].0 == FactKey::AssociationOccurrence(id)
            && !origin_live(live, entries[i].1)
}

/// What leaves the identity history when dead origins are dropped.
#[derive(Debug)]
pub struct Retirement {
    /// Ledger entries whose syntax node is still live.
    pub kept: LibrarySourceMap,
    /// Records to retire.
    pub elements: Vec<ElementId>,
    /// Association occurrences to retire.
    pub occurrences: Vec<AssociationOccurrenceId>,
}

fn is_live(live: &Vec<(DocumentId, SyntaxNodeId)>, origin: &SourceOrigin) -> (alive: bool)
    ensures
        alive == origin_live(live@, *origin),
{
    let node = match origin.syntax_node {
        Some(node) => node,
        None => {
            return false;
        },
    };
    let mut i: usize = 0;
    while i < live.len()
        invariant
            i <= live@.len(),
            origin.syntax_node == Some(node),
            forall|j: int| 0 <= j < i ==> live@[j] != (origin.document, node),
        decreases live@.len() - i,
    {
        let (document, candidate) = live[i];
        if document.0 == origin.document.0 && candidate.0 == node.0 {
            proof {
                assert(live@[i as int] == (origin.document, node));
            }
            return true;
        }
        i = i + 1;
    }
    false
}

/// Split `ledger` into the origins that stay and the identities to retire.
/// Property facts are never retired on their own.
pub fn retire_dead_origins(ledger: LibrarySourceMap, live: &Vec<(DocumentId, SyntaxNodeId)>) -> (r: Retirement)
    requires
        ledger.wf(),
    ensures
        r.kept.entries@ == kept_entries(ledger.entries@, live@),
        r.kept.wf(),
        ledger.ascending() ==> r.kept.ascending(),
        forall|id: ElementId| r.elements@.contains(id) <==> retired_element(ledger.entries@, live@, id),
        forall|id: AssociationOccurrenceId| r.occurrences@.contains(id) <==> retired_occurrence(ledger.entries@, live@, id),
        r.elements@.no_duplicates(),
        r.occurrences@.no_duplicates(),
{
    let entries = ledger.entries;
    let ghost all = entries@;
    let ghost pred = |entry: (FactKey, SourceOrigin)| origin_live(live@, entry.1);
    let mut kept: Vec<(FactKey, SourceOrigin)> = Vec::new();
    let mut elements: Vec<ElementId> = Vec::new();
    let mut occurrences: Vec<AssociationOccurrenceId> = Vec::new();
    let mut i: usize = 0;
    while i < entries.len()
        invariant
            entries@ == all,
            i <= all.len(),
            forall|a: int, b: int| 0 <= a < b < all.len() ==> all[a].0 != all[b].0,
            pred == (|entry: (FactKey, SourceOrigin)| origin_live(live@, entry.1)),
            kept@ == all.subrange(0, i as int).filter(pred),
            forall|id: ElementId| elements@.contains(id) <==> retired_element(all.subrange(0, i as int), live@, id),
            forall|id: AssociationOccurrenceId| occurrences@.contains(id) <==> retired_occurrence(all.subrange(0, i as int), live@, id),
            elements@.no_duplicates(),
            occurrences@.no_duplicates(),
        decreases all.len() - i,
    {
        let (fact, origin) = entries[i];
        let ghost prefix = all.subrange(0, i as int);
        let ghost next = all.subrange(0, i + 1);
        proof {
            assert(next.drop_last() =~= prefix);
            assert(next.last() == (fact, origin));
            reveal(Seq::filter);
        }
        let ghost elements_before = elements@;
        let ghost occurrences_before = occurrences@;
        let alive = is_live(live, &origin);
        if alive {
            kept.push((fact, origin));
            proof {
                assert(next.filter(pred) == prefix.filter(pred).push(next.last()));
            }
        } else {
            proof {
                assert(next.filter(pred) == prefix.filter(pred));
            }
            match fact {
                FactKey::Element(id) => {
                    proof {
                        if elements@.contains(id) {
                            let j = choose|j: int|
                                0 <= j < prefix.len() && #[trigger] prefix[j].0 == FactKey::Element(id) && !origin_live(live@, prefix[j].1);
                            assert(all[j].0 == all[i as int].0);
                        }
                    }
                    elements.push(id);
                },
                FactKey::AssociationOccurrence(id) => {
                    proof {
                        if occurrences@.contains(id) {
                            let j = choose|j: int|
                                0 <= j < prefix.len() && #[trigger] prefix[j].0 == FactKey::AssociationOccurrence(id)
                                    && !origin_live(live@, prefix[j].1);
                            assert(all[j].0 == all[i as int].0);
                        }
                    }
                    occurrences.push(id);
                },
                FactKey::Property { .. } => {},
            }
        }
        proof {
            broadcast use vstd::seq_lib::lemma_seq_contains_after_push;
            assert(alive == origin_live(live@, next[i as int].1));
            match fact {
                FactKey::Element(x) => {
                    if alive {
                        assert(elements@ == elements_before);
                    } else {
                        assert(elements@ == elements_before.push(x));
                    }
                    assert(occurrences@ == occurrences_before);
                },
                FactKey::AssociationOccurrence(x) => {
                    if alive {
                        assert(occurrences@ == occurrences_before);
                    } else {
                        assert(occurrences@ == occurrences_before.push(x));
                    }
                    assert(elements@ == elements_before);
                },
                FactKey::Property { .. } => {
                    assert(elements@ == elements_before);
                    assert(occurrences@ == occurrences_before);
                },
            }
            assert forall|id: ElementId| elements@.contains(id) <==> retired_element(next, live@, id) by {
                if retired_element(prefix, live@, id) {
                    let j = choose|j: int|
                        0 <= j < prefix.len() && #[trigger] prefix[j].0 == FactKey::Element(id) && !origin_live(live@, prefix[j].1);
                    assert(next[j] == prefix[j]);
                }
                if retired_element(next, live@, id) {
                    let j = choose|j: int|
                        0 <= j < next.len() && #[trigger] next[j].0 == FactKey::Element(id) && !origin_live(live@, next[j].1);
                    if j < i {
                        assert(prefix[j] == next[j]);
                    }
                }
                if !origin_live(live@, origin) && fact == FactKey::Element(id) {
                    assert(next[i as int].0 == FactKey::Element(id));
                }
            }
            assert forall|id: AssociationOccurrenceId| occurrences@.contains(id) <==> retired_occurrence(next, live@, id) by {
                if retired_occurrence(prefix, live@, id) {
                    let j = choose|j: int|
                        0 <= j < prefix.len() && #[trigger] prefix[j].0 == FactKey::AssociationOccurrence(id)
                            && !origin_live(live@, prefix[j].1);
                    assert(next[j] == prefix[j]);
                }
                if retired_occurrence(next, live@, id) {
                    let j = choose|j: int|
                        0 <= j < next.len() && #[trigger] next[j].0 == FactKey::AssociationOccurrence(id)
                            && !origin_live(live@, next[j].1);
                    if j < i {
                        assert(prefix[j] == next[j]);
                    }
                }
                if !origin_live(live@, origin) && fact == FactKey::AssociationOccurrence(id) {
                    assert(next[i as int].0 == FactKey::AssociationOccurrence(id));
                }
            }
        }
        i = i + 1;
    }
    proof {
        assert(all.subrange(0, all.len() as int) =~= all);
    }
    let r = Retirement { kept: LibrarySourceMap { entries: kept }, elements, occurrences };
    proof {
        let k = kept_entries(all, live@);
        assert(k == all.filter(pred));
        assert forall|a: int, b: int| 0 <= a < b < r.kept.entries@.len() implies r.kept.entries@[a].0
            != r.kept.entries@[b].0 by {
            lemma_filter_keeps_distinct_facts(all, pred, a, b);
        }
        if ledger.ascending() {
            assert forall|a: int, b: int| 0 <= a < b < r.kept.entries@.len() implies fact_key_lt(
                #[trigger] r.kept.entries@[a].0,
                #[trigger] r.kept.entries@[b].0,
            ) by {
                lemma_filter_keeps_ascending(all, pred, a, b);
            }
        }
    }
    r
}

/// Filtering a ledger with distinct facts keeps its facts distinct.
proof fn lemma_filter_keeps_distinct_facts(
    entries: Seq<(FactKey, SourceOrigin)>,
    pred: spec_fn((FactKey, SourceOrigin)) -> bool,
    a: int,
    b: int,
)
    requires
        forall|x: int, y: int| 0 <= x < y < entries.len() ==> entries[x].0 != entries[y].0,
        0 <= a < b < entries.filter(pred).len(),
    ensures
        entries.filter(pred)[a].0 != entries.filter(pred)[b].0,
    decreases entries.len(),
{
    reveal(Seq::filter);
    let rest = entries.drop_last();
    let f = rest.filter(pred);
    assert forall|x: int, y: int| 0 <= x < y < rest.len() implies rest[x].0 != rest[y].0 by {
        assert(rest[x] == entries[x] && rest[y] == entries[y]);
    }
    if pred(entries.last()) && b == entries.filter(pred).len() - 1 {
        // The last kept entry is the ledger's last entry; every earlier kept
        // entry comes from `rest`, whose facts differ from the last one.
        assert(entries.filter(pred)[a] == f[a]);
        rest.filter_lemma(pred);
        assert(f.contains(f[a]));
        lemma_filter_member(rest, pred, a);
        let j = choose|j: int| 0 <= j < rest.len() && rest[j] == f[a];
        assert(entries[j] == rest[j]);
        assert(entries[j].0 != entries[entries.len() - 1].0);
    } else {
        assert(entries.filter(pred)[a] == f[a]);
        assert(entries.filter(pred)[b] == f[b]);
        lemma_filter_keeps_distinct_facts(rest, pred, a, b);
    }
}

/// Filtering a ledger in fact order keeps it in fact order.
proof fn lemma_filter_keeps_ascending(
    entries: Seq<(FactKey, SourceOrigin)>,
    pred: spec_fn((FactKey, SourceOrigin)) -> bool,
    a: int,
    b: int,
)
    requires
        forall|x: int, y: int| 0 <= x < y < entries.len() ==> fact_key_lt(#[trigger] entries[x].0, #[trigger] entries[y].0),
        0 <= a < b < entries.filter(pred).len(),
    ensures
        fact_key_lt(entries.filter(pred)[a].0, entries.filter(pred)[b].0),
    decreases entries.len(),
{
    reveal(Seq::filter);
    let rest = entries.drop_last();
    let f = rest.filter(pred);
    assert forall|x: int, y: int| 0 <= x < y < rest.len() implies fact_key_lt(#[trigger] rest[x].0, #[trigger] rest[y].0) by {
        assert(rest[x] == entries[x] && rest[y] == entries[y]);
    }
    if pred(entries.last()) && b == entries.filter(pred).len() - 1 {
        assert(entries.filter(pred)[a] == f[a]);
        lemma_filter_member(rest, pred, a);
        let j = choose|j: int| 0 <= j < rest.len() && rest[j] == f[a];
        assert(entries[j] == rest[j]);
        assert(fact_key_lt(entries[j].0, entries[entries.len() - 1].0));
    } else {
        assert(entries.filter(pred)[a] == f[a]);
        assert(entries.filter(pred)[b] == f[b]);
        lemma_filter_keeps_ascending(rest, pred, a, b);
    }
}

/// Every entry of a filtered sequence is an entry of the sequence.
proof fn lemma_filter_member<T>(s: Seq<T>, pred: spec_fn(T) -> bool, a: int)
    requires
        0 <= a < s.filter(pred).len(),
    ensures
        exists|j: int| 0 <= j < s.len() && s[j] == s.filter(pred)[a],
    decreases s.len(),
{
    reveal(Seq::filter);
    let rest = s.drop_last();
    if pred(s.last()) && a == s.filter(pred).len() - 1 {
        assert(s[s.len() - 1] == s.filter(pred)[a]);
    } else {
        assert(s.filter(pred)[a] == rest.filter(pred)[a]);
        lemma_filter_member(rest, pred, a);
        let j = choose|j: int| 0 <= j < rest.len() && rest[j] == rest.filter(pred)[a];
        assert(s[j] == rest[j]);
    }
}

} // verus!
