//! Exact authored input and declared-fact deltas between two compilations:
//! changed source revisions, added, removed and changed syntax identities,
//! and added, removed and changed declared facts.
use crate::ids::{ByteRange, DocumentId, FactKey, MetaclassId, Origin, SourceRevisionId, SyntaxNodeId};
use crate::model::{occurrence_eq, slot_value_eq, AssociationOccurrence, OccurrenceView, SlotValue, SlotValueView};
use crate::table::{key_difference, Table};
use vstd::prelude::*;

verus! {

/// One syntax node as change detection reads it: identity, kind code, byte
/// range and the identities of its ordered children.
#[derive(Debug)]
pub struct SyntaxNodeShape {
    pub id: SyntaxNodeId,
    pub kind: u16,
    pub range: ByteRange,
    pub children: Vec<SyntaxNodeId>,
}

/// A parsed source revision: its bytes and its syntax nodes, each identity once.
#[derive(Debug)]
pub struct SyntaxSnapshot {
    pub source: Vec<u8>,
    pub nodes: Vec<SyntaxNodeShape>,
}

impl SyntaxSnapshot {
    pub open spec fn wf(&self) -> bool {
        forall|i: int, j: int|
            0 <= i < self.nodes@.len() && 0 <= j < self.nodes@.len() && i != j ==> (#[trigger] self.nodes@[i]).id
                != (#[trigger] self.nodes@[j]).id
    }
}

/// Some byte in `[start, end)` present in both sources differs.
pub open spec fn bytes_differ_within(before: Seq<u8>, after: Seq<u8>, start: int, end: int) -> bool {
    exists|i: int| start <= i < end && i < before.len() && i < after.len() && before[i] != after[i]
}

/// A retained node changed: kind, range, ordered children, or a source byte
/// inside its range.
pub open spec fn node_changed(prior: SyntaxNodeShape, node: SyntaxNodeShape, before: Seq<u8>, after: Seq<u8>) -> bool {
    ||| prior.kind != node.kind
    ||| prior.range != node.range
    ||| prior.children@ != node.children@
    ||| bytes_differ_within(before, after, node.range.start as int, node.range.end as int)
}

/// The node of `nodes` with identity `id`, if any.
pub open spec fn node_with_id(nodes: Seq<SyntaxNodeShape>, id: SyntaxNodeId) -> Option<SyntaxNodeShape> {
    if exists|i: int| 0 <= i < nodes.len() && (#[trigger] nodes[i]).id == id {
        Some(nodes[choose|i: int| 0 <= i < nodes.len() && (#[trigger] nodes[i]).id == id])
    } else {
        None
    }
}

/// Identities among the first `k` nodes of `after` that `before` retains and
/// that changed, in the order of `after`.
pub open spec fn changed_prefix(before: SyntaxSnapshot, after: SyntaxSnapshot, k: nat) -> Seq<SyntaxNodeId>
    decreases k,
{
    if k == 0 {
        seq![]
    } else {
        let prior = changed_prefix(before, after, (k - 1) as nat);
        let node = after.nodes@[k - 1];
        match node_with_id(before.nodes@, node.id) {
            Some(old) => if node_changed(old, node, before.source@, after.source@) {
                prior.push(node.id)
            } else {
                prior
            },
            None => prior,
        }
    }
}

/// Retained syntax identities of `after` whose shape or content changed.
pub open spec fn changed_syntax(before: SyntaxSnapshot, after: SyntaxSnapshot) -> Seq<SyntaxNodeId> {
    changed_prefix(before, after, after.nodes@.len())
}

/// Positions below both lengths where the sources differ, ascending.
fn differing_positions(before: &Vec<u8>, after: &Vec<u8>) -> (positions: Vec<u64>)
    requires
        before@.len() <= u64::MAX,
    ensures
        forall|a: int, b: int| 0 <= a < b < positions@.len() ==> positions@[a] < positions@[b],
        forall|i: int|
            0 <= i < before@.len() && i < after@.len() ==> (before@[i] != after@[i] <==> positions@.contains(
                i as u64,
            )),
        forall|k: int| 0 <= k < positions@.len() ==> positions@[k] < before@.len() && positions@[k] < after@.len(),
{
    let n = if before.len() < after.len() { before.len() } else { after.len() };
    let mut positions: Vec<u64> = Vec::new();
    let mut i: usize = 0;
    while i < n
        invariant
            n <= before@.len(),
            n <= after@.len(),
            n == before@.len() || n == after@.len(),
            before@.len() <= u64::MAX,
            i <= n,
            forall|a: int, b: int| 0 <= a < b < positions@.len() ==> positions@[a] < positions@[b],
            forall|k: int| 0 <= k < positions@.len() ==> positions@[k] < i,
            forall|j: int| 0 <= j < i ==> (before@[j] != after@[j] <==> positions@.contains(j as u64)),
        decreases n - i,
    {
        let ghost prior = positions@;
        if before[i] != after[i] {
            positions.push(i as u64);
        }
        proof {
            assert forall|j: int| 0 <= j < i + 1 implies (before@[j] != after@[j] <==> positions@.contains(j as u64)) by {
                if prior.contains(j as u64) {
                    let k = prior.index_of(j as u64);
                    assert(positions@[k] == j as u64);
                }
                if positions@.contains(j as u64) {
                    let k = positions@.index_of(j as u64);
                    if k < prior.len() {
                        assert(prior[k] == j as u64);
                    }
                }
                if j == i && before@[j] != after@[j] {
                    assert(positions@[positions@.len() - 1] == j as u64);
                }
            }
        }
        i = i + 1;
    }
    positions
}

/// First index of an ascending list whose value is at least `start`.
fn lower_bound(positions: &Vec<u64>, start: u64) -> (index: usize)
    requires
        forall|a: int, b: int| 0 <= a < b < positions@.len() ==> positions@[a] < positions@[b],
    ensures
        index <= positions@.len(),
        forall|k: int| 0 <= k < index ==> positions@[k] < start,
        forall|k: int| index <= k < positions@.len() ==> positions@[k] >= start,
{
    let mut lo: usize = 0;
    let mut hi: usize = positions.len();
    while lo < hi
        invariant
            lo <= hi <= positions@.len(),
            forall|a: int, b: int| 0 <= a < b < positions@.len() ==> positions@[a] < positions@[b],
            forall|k: int| 0 <= k < lo ==> positions@[k] < start,
            forall|k: int| hi <= k < positions@.len() ==> positions@[k] >= start,
        decreases hi - lo,
    {
        let mid = lo + (hi - lo) / 2;
        if positions[mid] < start {
            lo = mid + 1;
        } else {
            hi = mid;
        }
    }
    lo
}

fn same_children(a: &Vec<SyntaxNodeId>, b: &Vec<SyntaxNodeId>) -> (same: bool)
    ensures
        same == (a@ == b@),
{
    if a.len() != b.len() {
        return false;
    }
    let mut i: usize = 0;
    while i < a.len()
        invariant
            a@.len() == b@.len(),
            i <= a@.len(),
            forall|k: int| 0 <= k < i ==> a@[k] == b@[k],
        decreases a.len() - i,
    {
        if a[i] != b[i] {
            return false;
        }
        i = i + 1;
    }
    assert(a@ =~= b@);
    true
}

fn find_node(nodes: &Vec<SyntaxNodeShape>, id: SyntaxNodeId) -> (found: Option<usize>)
    requires
        forall|i: int, j: int|
            0 <= i < nodes@.len() && 0 <= j < nodes@.len() && i != j ==> (#[trigger] nodes@[i]).id
                != (#[trigger] nodes@[j]).id,
    ensures
        match found {
            Some(k) => k < nodes@.len() && node_with_id(nodes@, id) == Some(nodes@[k as int]),
            None => node_with_id(nodes@, id) is None,
        },
{
    let mut k: usize = 0;
    while k < nodes.len()
        invariant
            k <= nodes@.len(),
            forall|i: int, j: int|
                0 <= i < nodes@.len() && 0 <= j < nodes@.len() && i != j ==> (#[trigger] nodes@[i]).id
                    != (#[trigger] nodes@[j]).id,
            forall|j: int| 0 <= j < k ==> (#[trigger] nodes@[j]).id != id,
        decreases nodes.len() - k,
    {
        if nodes[k].id == id {
            proof {
                let c = choose|c: int| 0 <= c < nodes@.len() && (#[trigger] nodes@[c]).id == id;
                if c != k {
                    assert(nodes@[c].id != nodes@[k as int].id);
                }
            }
            return Some(k);
        }
        k = k + 1;
    }
    None
}

/// Exact retained-node comparison: differing bytes are indexed once; each
/// node compares its own shape and direct ordered child identities, and
/// looks up the first differing byte at or after its start.
pub fn changed_document_syntax(before: &SyntaxSnapshot, after: &SyntaxSnapshot) -> (changed: Vec<SyntaxNodeId>)
    requires
        before.wf(),
        before.source@.len() <= u64::MAX,
    ensures
        changed@ == changed_syntax(*before, *after),
        forall|id: SyntaxNodeId| changed@.contains(id) <==> exists|i: int, j: int|
            0 <= i < after.nodes@.len() && 0 <= j < before.nodes@.len() && #[trigger] after.nodes@[i].id == id
                && #[trigger] before.nodes@[j].id == id
                && retained_node_differs(before.nodes@[j], after.nodes@[i], before.source@, after.source@),
{
    proof {
        lemma_changed_prefix_members(*before, *after, after.nodes@.len());
    }
    let positions = differing_positions(&before.source, &after.source);
    let mut changed: Vec<SyntaxNodeId> = Vec::new();
    let mut k: usize = 0;
    while k < after.nodes.len()
        invariant
            before.wf(),
            k <= after.nodes@.len(),
            forall|a: int, b: int| 0 <= a < b < positions@.len() ==> positions@[a] < positions@[b],
            forall|i: int|
                0 <= i < before.source@.len() && i < after.source@.len() ==> (before.source@[i] != after.source@[i]
                    <==> positions@.contains(i as u64)),
            forall|p: int| 0 <= p < positions@.len() ==> positions@[p] < before.source@.len() && positions@[p]
                < after.source@.len(),
            changed@ == changed_prefix(*before, *after, k as nat),
        decreases after.nodes.len() - k,
    {
        let node = &after.nodes[k];
        match find_node(&before.nodes, node.id) {
            Some(p) => {
                let prior = &before.nodes[p];
                let range = node.range;
                let first = lower_bound(&positions, range.start);
                let byte_changed = first < positions.len() && positions[first] < range.end;
                proof {
                    let s = range.start as int;
                    let e = range.end as int;
                    if byte_changed {
                        let i = positions@[first as int] as int;
                        assert(positions@.contains(i as u64));
                        assert(before.source@[i] != after.source@[i]);
                        assert(bytes_differ_within(before.source@, after.source@, s, e));
                    } else {
                        if bytes_differ_within(before.source@, after.source@, s, e) {
                            let i = choose|i: int| s <= i < e && i < before.source@.len() && i < after.source@.len()
                                && before.source@[i] != after.source@[i];
                            assert(positions@.contains(i as u64));
                            let c = positions@.index_of(i as u64);
                            if c < first {
                                assert(positions@[c] < range.start);
                            } else if c > first {
                                assert(positions@[first as int] < positions@[c]);
                            }
                        }
                    }
                }
                let different = prior.kind != node.kind || prior.range != range || !same_children(
                    &prior.children,
                    &node.children,
                ) || byte_changed;
                if different {
                    changed.push(node.id);
                }
            },
            None => {},
        }
        k = k + 1;
    }
    changed
}

/// One source document of a compilation: identity, revision and, when it
/// was parsed, its syntax.
#[derive(Debug)]
pub struct FrontierDocument {
    pub id: DocumentId,
    pub revision: SourceRevisionId,
    pub syntax: Option<SyntaxSnapshot>,
}

/// The value of one declared canonical fact, compared for change.
#[derive(Debug)]
pub enum DeclaredFact {
    Element(MetaclassId, Origin),
    Slot(SlotValue, Origin),
    Occurrence(AssociationOccurrence),
}

pub enum DeclaredFactView {
    Element(MetaclassId, Origin),
    Slot(SlotValueView, Origin),
    Occurrence(OccurrenceView),
}

impl View for DeclaredFact {
    type V = DeclaredFactView;

    open spec fn view(&self) -> DeclaredFactView {
        match self {
            DeclaredFact::Element(m, o) => DeclaredFactView::Element(*m, *o),
            DeclaredFact::Slot(v, o) => DeclaredFactView::Slot(v@, *o),
            DeclaredFact::Occurrence(occurrence) => DeclaredFactView::Occurrence(occurrence@),
        }
    }
}

fn same_fact(a: &DeclaredFact, b: &DeclaredFact) -> (same: bool)
    ensures
        same == (a@ == b@),
{
    match (a, b) {
        (DeclaredFact::Element(m, o), DeclaredFact::Element(n, p)) => *m == *n && *o == *p,
        (DeclaredFact::Slot(v, o), DeclaredFact::Slot(w, p)) => slot_value_eq(v, w) && *o == *p,
        (DeclaredFact::Occurrence(x), DeclaredFact::Occurrence(y)) => occurrence_eq(x, y),
        _ => false,
    }
}

/// What the edit frontier reads of one compilation: its documents, each
/// identity once, and its declared facts, each key once.
#[derive(Debug)]
pub struct FrontierSource {
    pub documents: Vec<FrontierDocument>,
    pub facts: Vec<(FactKey, DeclaredFact)>,
}

impl FrontierSource {
    pub open spec fn wf(&self) -> bool {
        &&& forall|i: int, j: int|
            0 <= i < self.documents@.len() && 0 <= j < self.documents@.len() && i != j ==> (
            #[trigger] self.documents@[i]).id != (#[trigger] self.documents@[j]).id
        &&& forall|i: int|
            0 <= i < self.documents@.len() ==> match (#[trigger] self.documents@[i]).syntax {
                Some(s) => s.wf() && s.source@.len() <= u64::MAX,
                None => true,
            }
        &&& forall|i: int, j: int|
            0 <= i < self.facts@.len() && 0 <= j < self.facts@.len() && i != j ==> (#[trigger] self.facts@[i]).0
                != (#[trigger] self.facts@[j]).0
    }
}

/// The revision of document `id`, if present.
pub open spec fn revision_of(docs: Seq<FrontierDocument>, id: DocumentId) -> Option<SourceRevisionId> {
    if exists|i: int| 0 <= i < docs.len() && (#[trigger] docs[i]).id == id {
        Some(docs[choose|i: int| 0 <= i < docs.len() && (#[trigger] docs[i]).id == id].revision)
    } else {
        None
    }
}

/// Documents whose revision differs between the sides, with the old and the
/// new revision; an absent side means the document was added or removed.
pub open spec fn revision_changes(before: Seq<FrontierDocument>, after: Seq<FrontierDocument>) -> Map<
    DocumentId,
    (Option<SourceRevisionId>, Option<SourceRevisionId>),
> {
    Map::new(
        |id: DocumentId| revision_of(before, id) != revision_of(after, id),
        |id: DocumentId| (revision_of(before, id), revision_of(after, id)),
    )
}

/// Every syntax identity of the parsed documents.
pub open spec fn syntax_ids(docs: Seq<FrontierDocument>) -> Set<SyntaxNodeId> {
    Set::new(|n: SyntaxNodeId| exists|d: int, k: int|
        #![trigger docs[d].syntax->0.nodes@[k]]
        0 <= d < docs.len() && docs[d].syntax is Some && 0 <= k < docs[d].syntax->0.nodes@.len()
            && docs[d].syntax->0.nodes@[k].id == n)
}

/// The document of `before` with identity `id`, if present.
pub open spec fn document_of(docs: Seq<FrontierDocument>, id: DocumentId) -> Option<FrontierDocument> {
    if exists|i: int| 0 <= i < docs.len() && (#[trigger] docs[i]).id == id {
        Some(docs[choose|i: int| 0 <= i < docs.len() && (#[trigger] docs[i]).id == id])
    } else {
        None
    }
}

/// Retained syntax identities that changed in a document parsed on both sides.
pub open spec fn syntax_changes(before: Seq<FrontierDocument>, after: Seq<FrontierDocument>) -> Set<SyntaxNodeId> {
    Set::new(|n: SyntaxNodeId| exists|d: int|
        0 <= d < after.len() && (#[trigger] after[d]).syntax is Some && match document_of(before, after[d].id) {
            Some(old) => old.syntax is Some && changed_syntax(old.syntax->0, after[d].syntax->0).contains(n),
            None => false,
        })
}

/// The declared value of fact `key`, if present.
pub open spec fn fact_of(facts: Seq<(FactKey, DeclaredFact)>, key: FactKey) -> Option<DeclaredFactView> {
    if exists|i: int| 0 <= i < facts.len() && (#[trigger] facts[i]).0 == key {
        Some(facts[choose|i: int| 0 <= i < facts.len() && (#[trigger] facts[i]).0 == key].1@)
    } else {
        None
    }
}

pub open spec fn facts_added(before: Seq<(FactKey, DeclaredFact)>, after: Seq<(FactKey, DeclaredFact)>) -> Set<FactKey> {
    Set::new(|k: FactKey| fact_of(after, k) is Some && fact_of(before, k) is None)
}

pub open spec fn facts_changed(before: Seq<(FactKey, DeclaredFact)>, after: Seq<(FactKey, DeclaredFact)>) -> Set<FactKey> {
    Set::new(|k: FactKey| fact_of(after, k) is Some && fact_of(before, k) is Some && fact_of(after, k) != fact_of(before, k))
}

pub open spec fn ids_distinct(docs: Seq<FrontierDocument>) -> bool {
    forall|i: int, j: int| 0 <= i < docs.len() && 0 <= j < docs.len() && i != j ==> (#[trigger] docs[i]).id != (#[trigger] docs[j]).id
}

pub open spec fn syntaxes_wf(docs: Seq<FrontierDocument>) -> bool {
    forall|i: int| 0 <= i < docs.len() ==> match (#[trigger] docs[i]).syntax {
        Some(s) => s.wf() && s.source@.len() <= u64::MAX,
        None => true,
    }
}

pub open spec fn fact_keys_distinct(facts: Seq<(FactKey, DeclaredFact)>) -> bool {
    forall|i: int, j: int| 0 <= i < facts.len() && 0 <= j < facts.len() && i != j ==> (#[trigger] facts[i]).0 != (#[trigger] facts[j]).0
}

fn find_document(docs: &Vec<FrontierDocument>, id: DocumentId) -> (found: Option<usize>)
    requires
        ids_distinct(docs@),
    ensures
        match found {
            Some(i) => i < docs@.len() && docs@[i as int].id == id && document_of(docs@, id) == Some(docs@[i as int])
                && revision_of(docs@, id) == Some(docs@[i as int].revision),
            None => document_of(docs@, id) is None && revision_of(docs@, id) is None,
        },
{
    let mut i: usize = 0;
    while i < docs.len()
        invariant
            ids_distinct(docs@),
            i <= docs@.len(),
            forall|j: int| 0 <= j < i ==> (#[trigger] docs@[j]).id != id,
        decreases docs.len() - i,
    {
        if docs[i].id == id {
            proof {
                let c = choose|c: int| 0 <= c < docs@.len() && (#[trigger] docs@[c]).id == id;
                if c != i {
                    assert(docs@[c].id != docs@[i as int].id);
                }
            }
            return Some(i);
        }
        i = i + 1;
    }
    None
}

fn find_fact(facts: &Vec<(FactKey, DeclaredFact)>, key: FactKey) -> (found: Option<usize>)
    requires
        fact_keys_distinct(facts@),
    ensures
        match found {
            Some(i) => i < facts@.len() && facts@[i as int].0 == key && fact_of(facts@, key) == Some(facts@[i as int].1@),
            None => fact_of(facts@, key) is None,
        },
{
    let mut i: usize = 0;
    while i < facts.len()
        invariant
            fact_keys_distinct(facts@),
            i <= facts@.len(),
            forall|j: int| 0 <= j < i ==> (#[trigger] facts@[j]).0 != key,
        decreases facts.len() - i,
    {
        if facts[i].0 == key {
            proof {
                let c = choose|c: int| 0 <= c < facts@.len() && (#[trigger] facts@[c]).0 == key;
                if c != i {
                    assert(facts@[c].0 != facts@[i as int].0);
                }
            }
            return Some(i);
        }
        i = i + 1;
    }
    None
}

/// Revision changes found among the first `nb` documents of `before` and
/// the first `na` of `after`.
pub open spec fn revisions_seen(before: Seq<FrontierDocument>, after: Seq<FrontierDocument>, nb: int, na: int) -> Map<
    DocumentId,
    (Option<SourceRevisionId>, Option<SourceRevisionId>),
> {
    Map::new(
        |id: DocumentId| ((exists|j: int| 0 <= j < nb && (#[trigger] before[j]).id == id) || (exists|j: int| 0 <= j < na && (#[trigger] after[j]).id == id))
            && revision_of(before, id) != revision_of(after, id),
        |id: DocumentId| (revision_of(before, id), revision_of(after, id)),
    )
}

fn revisions(before: &Vec<FrontierDocument>, after: &Vec<FrontierDocument>) -> (t: Table<DocumentId, (Option<SourceRevisionId>, Option<SourceRevisionId>)>)
    requires
        ids_distinct(before@),
        ids_distinct(after@),
    ensures
        t.wf(),
        t@ == revision_changes(before@, after@),
{
    let mut t: Table<DocumentId, (Option<SourceRevisionId>, Option<SourceRevisionId>)> = Table::new();
    proof {
        assert(t@ =~= revisions_seen(before@, after@, 0, 0));
    }
    let mut i: usize = 0;
    while i < before.len()
        invariant
            ids_distinct(before@),
            ids_distinct(after@),
            t.wf(),
            i <= before@.len(),
            t@ == revisions_seen(before@, after@, i as int, 0),
        decreases before.len() - i,
    {
        let id = before[i].id;
        let old = Some(before[i].revision);
        let new = match find_document(after, id) {
            Some(k) => Some(after[k].revision),
            None => None,
        };
        proof {
            assert(revision_of(before@, id) == old) by {
                let c = choose|c: int| 0 <= c < before@.len() && (#[trigger] before@[c]).id == id;
                if c != i {
                    assert(before@[c].id != before@[i as int].id);
                }
            }
        }
        let ghost prior = t@;
        if old != new {
            t.insert(id, (old, new));
        }
        proof {
            assert(t@ =~= revisions_seen(before@, after@, i as int + 1, 0)) by {
                assert forall|x: DocumentId| #[trigger] t@.contains_key(x) == revisions_seen(before@, after@, i as int + 1, 0).contains_key(x) by {
                    if exists|j: int| 0 <= j < i + 1 && (#[trigger] before@[j]).id == x {
                        let j = choose|j: int| 0 <= j < i + 1 && (#[trigger] before@[j]).id == x;
                        if j < i {
                            assert(exists|j: int| 0 <= j < i && (#[trigger] before@[j]).id == x);
                        }
                    }
                    if prior.contains_key(x) {
                        let j = choose|j: int| 0 <= j < i && (#[trigger] before@[j]).id == x;
                        assert(0 <= j < i + 1 && before@[j].id == x);
                    }
                }
            }
        }
        i = i + 1;
    }
    let mut k: usize = 0;
    while k < after.len()
        invariant
            ids_distinct(before@),
            ids_distinct(after@),
            t.wf(),
            k <= after@.len(),
            t@ == revisions_seen(before@, after@, before@.len() as int, k as int),
        decreases after.len() - k,
    {
        let id = after[k].id;
        let new = Some(after[k].revision);
        proof {
            assert(revision_of(after@, id) == new) by {
                let c = choose|c: int| 0 <= c < after@.len() && (#[trigger] after@[c]).id == id;
                if c != k {
                    assert(after@[c].id != after@[k as int].id);
                }
            }
        }
        let ghost prior = t@;
        let present = find_document(before, id).is_some();
        if !present {
            t.insert(id, (None, new));
        }
        proof {
            assert(t@ =~= revisions_seen(before@, after@, before@.len() as int, k as int + 1)) by {
                assert forall|x: DocumentId| #[trigger] t@.contains_key(x) == revisions_seen(before@, after@, before@.len() as int, k as int + 1).contains_key(x) by {
                    if exists|j: int| 0 <= j < k + 1 && (#[trigger] after@[j]).id == x {
                        let j = choose|j: int| 0 <= j < k + 1 && (#[trigger] after@[j]).id == x;
                        if j < k {
                            assert(exists|j: int| 0 <= j < k && (#[trigger] after@[j]).id == x);
                        } else if present {
                            let b = choose|b: int| 0 <= b < before@.len() && (#[trigger] before@[b]).id == x;
                            assert(exists|j: int| 0 <= j < before@.len() && (#[trigger] before@[j]).id == x);
                        }
                    }
                    if prior.contains_key(x) {
                        if exists|j: int| 0 <= j < k && (#[trigger] after@[j]).id == x {
                            let j = choose|j: int| 0 <= j < k && (#[trigger] after@[j]).id == x;
                            assert(0 <= j < k + 1 && after@[j].id == x);
                        }
                    }
                }
            }
        }
        k = k + 1;
    }
    proof {
        assert(t@ =~= revision_changes(before@, after@)) by {
            assert forall|x: DocumentId| #[trigger] t@.contains_key(x) == revision_changes(before@, after@).contains_key(x) by {
                if revision_of(before@, x) != revision_of(after@, x) {
                    if revision_of(before@, x) is Some {
                        let j = choose|j: int| 0 <= j < before@.len() && (#[trigger] before@[j]).id == x;
                    } else {
                        let j = choose|j: int| 0 <= j < after@.len() && (#[trigger] after@[j]).id == x;
                    }
                }
            }
        }
    }
    t
}

/// Syntax identities of the first `d` documents and the first `k` nodes of
/// document `d`.
pub open spec fn syntax_ids_seen(docs: Seq<FrontierDocument>, d: int, k: int) -> Set<SyntaxNodeId> {
    Set::new(|n: SyntaxNodeId| exists|e: int, j: int|
        #![trigger docs[e].syntax->0.nodes@[j]]
        0 <= e < docs.len() && docs[e].syntax is Some && 0 <= j < docs[e].syntax->0.nodes@.len()
            && docs[e].syntax->0.nodes@[j].id == n && (e < d || (e == d && j < k)))
}

fn collect_syntax_ids(docs: &Vec<FrontierDocument>) -> (t: Table<SyntaxNodeId, ()>)
    ensures
        t.wf(),
        t@.dom() == syntax_ids(docs@),
{
    let mut t: Table<SyntaxNodeId, ()> = Table::new();
    proof {
        assert(t@.dom() =~= syntax_ids_seen(docs@, 0, 0));
    }
    let mut d: usize = 0;
    while d < docs.len()
        invariant
            t.wf(),
            d <= docs@.len(),
            t@.dom() == syntax_ids_seen(docs@, d as int, 0),
        decreases docs.len() - d,
    {
        match &docs[d].syntax {
            Some(syntax) => {
                let mut k: usize = 0;
                while k < syntax.nodes.len()
                    invariant
                        t.wf(),
                        d < docs@.len(),
                        docs@[d as int].syntax == Some(*syntax),
                        k <= syntax.nodes@.len(),
                        t@.dom() == syntax_ids_seen(docs@, d as int, k as int),
                    decreases syntax.nodes.len() - k,
                {
                    let ghost prior = t@.dom();
                    t.insert(syntax.nodes[k].id, ());
                    proof {
                        assert(t@.dom() =~= syntax_ids_seen(docs@, d as int, k as int + 1)) by {
                            assert forall|n: SyntaxNodeId| #[trigger] t@.dom().contains(n) == syntax_ids_seen(docs@, d as int, k as int + 1).contains(n) by {
                                if n == syntax.nodes@[k as int].id {
                                    assert(docs@[d as int].syntax->0.nodes@[k as int].id == n);
                                }
                                if syntax_ids_seen(docs@, d as int, k as int + 1).contains(n) && n != syntax.nodes@[k as int].id {
                                    let (e, j) = choose|e: int, j: int|
                                        #![trigger docs@[e].syntax->0.nodes@[j]]
                                        0 <= e < docs@.len() && docs@[e].syntax is Some && 0 <= j < docs@[e].syntax->0.nodes@.len()
                                            && docs@[e].syntax->0.nodes@[j].id == n && (e < d || (e == d && j < k + 1));
                                    assert(prior.contains(n));
                                }
                            }
                        }
                    }
                    k = k + 1;
                }
                proof {
                    assert(t@.dom() =~= syntax_ids_seen(docs@, d as int + 1, 0)) by {
                        assert forall|n: SyntaxNodeId| #[trigger] t@.dom().contains(n) == syntax_ids_seen(docs@, d as int + 1, 0).contains(n) by {
                            if syntax_ids_seen(docs@, d as int + 1, 0).contains(n) {
                                let (e, j) = choose|e: int, j: int|
                                    #![trigger docs@[e].syntax->0.nodes@[j]]
                                    0 <= e < docs@.len() && docs@[e].syntax is Some && 0 <= j < docs@[e].syntax->0.nodes@.len()
                                        && docs@[e].syntax->0.nodes@[j].id == n && (e < d + 1 || (e == d + 1 && j < 0));
                                assert(syntax_ids_seen(docs@, d as int, k as int).contains(n));
                            }
                        }
                    }
                }
            },
            None => {
                proof {
                    assert(t@.dom() =~= syntax_ids_seen(docs@, d as int + 1, 0)) by {
                        assert forall|n: SyntaxNodeId| #[trigger] t@.dom().contains(n) == syntax_ids_seen(docs@, d as int + 1, 0).contains(n) by {
                            if syntax_ids_seen(docs@, d as int + 1, 0).contains(n) {
                                let (e, j) = choose|e: int, j: int|
                                    #![trigger docs@[e].syntax->0.nodes@[j]]
                                    0 <= e < docs@.len() && docs@[e].syntax is Some && 0 <= j < docs@[e].syntax->0.nodes@.len()
                                        && docs@[e].syntax->0.nodes@[j].id == n && (e < d + 1 || (e == d + 1 && j < 0));
                                assert(syntax_ids_seen(docs@, d as int, 0).contains(n));
                            }
                        }
                    }
                }
            },
        }
        d = d + 1;
    }
    proof {
        assert(t@.dom() =~= syntax_ids(docs@)) by {
            assert forall|n: SyntaxNodeId| #[trigger] t@.dom().contains(n) == syntax_ids(docs@).contains(n) by {
                if syntax_ids(docs@).contains(n) {
                    let (e, j) = choose|e: int, j: int|
                        #![trigger docs@[e].syntax->0.nodes@[j]]
                        0 <= e < docs@.len() && docs@[e].syntax is Some && 0 <= j < docs@[e].syntax->0.nodes@.len()
                            && docs@[e].syntax->0.nodes@[j].id == n;
                    assert(syntax_ids_seen(docs@, d as int, 0).contains(n));
                }
            }
        }
    }
    t
}

/// Changed retained identities in the first `d` documents of `after`.
pub open spec fn syntax_changes_seen(before: Seq<FrontierDocument>, after: Seq<FrontierDocument>, d: int) -> Set<SyntaxNodeId> {
    Set::new(|n: SyntaxNodeId| exists|e: int|
        0 <= e < d && (#[trigger] after[e]).syntax is Some && match document_of(before, after[e].id) {
            Some(old) => old.syntax is Some && changed_syntax(old.syntax->0, after[e].syntax->0).contains(n),
            None => false,
        })
}

fn collect_syntax_changes(before: &Vec<FrontierDocument>, after: &Vec<FrontierDocument>) -> (t: Table<SyntaxNodeId, ()>)
    requires
        ids_distinct(before@),
        syntaxes_wf(before@),
    ensures
        t.wf(),
        t@.dom() == syntax_changes(before@, after@),
{
    let mut t: Table<SyntaxNodeId, ()> = Table::new();
    proof {
        assert(t@.dom() =~= syntax_changes_seen(before@, after@, 0));
    }
    let mut d: usize = 0;
    while d < after.len()
        invariant
            ids_distinct(before@),
            syntaxes_wf(before@),
            t.wf(),
            d <= after@.len(),
            t@.dom() == syntax_changes_seen(before@, after@, d as int),
        decreases after.len() - d,
    {
        let ghost prior = t@.dom();
        let mut found: Vec<SyntaxNodeId> = Vec::new();
        if let Some(new) = &after[d].syntax {
            if let Some(e) = find_document(before, after[d].id) {
                if let Some(old) = &before[e].syntax {
                    assert(old.wf() && old.source@.len() <= u64::MAX);
                    found = changed_document_syntax(old, new);
                }
            }
        }
        let ghost added = found@.to_set();
        proof {
            assert(added == Set::new(|n: SyntaxNodeId| after@[d as int].syntax is Some && match document_of(before@, after@[d as int].id) {
                Some(old) => old.syntax is Some && changed_syntax(old.syntax->0, after@[d as int].syntax->0).contains(n),
                None => false,
            })) by {
                assert forall|n: SyntaxNodeId| #[trigger] added.contains(n) == (after@[d as int].syntax is Some && match document_of(before@, after@[d as int].id) {
                    Some(old) => old.syntax is Some && changed_syntax(old.syntax->0, after@[d as int].syntax->0).contains(n),
                    None => false,
                }) by {
                    if found@.len() == 0 {
                        assert(!found@.contains(n));
                    }
                }
            }
        }
        let mut k: usize = 0;
        while k < found.len()
            invariant
                t.wf(),
                k <= found@.len(),
                t@.dom() == prior.union(found@.take(k as int).to_set()),
            decreases found.len() - k,
        {
            t.insert(found[k], ());
            proof {
                assert(found@.take(k as int + 1) =~= found@.take(k as int).push(found@[k as int]));
                assert(found@.take(k as int + 1).to_set() =~= found@.take(k as int).to_set().insert(found@[k as int])) by {
                    assert forall|x: SyntaxNodeId| #[trigger] found@.take(k as int + 1).to_set().contains(x) == found@.take(k as int).to_set().insert(found@[k as int]).contains(x) by {
                        if found@.take(k as int + 1).contains(x) {
                            let j = found@.take(k as int + 1).index_of(x);
                            if j < k {
                                assert(found@.take(k as int)[j] == x);
                            }
                        }
                        if found@.take(k as int).contains(x) {
                            let j = found@.take(k as int).index_of(x);
                            assert(found@.take(k as int + 1)[j] == x);
                        }
                        if x == found@[k as int] {
                            assert(found@.take(k as int + 1)[k as int] == x);
                        }
                    }
                }
                assert(t@.dom() =~= prior.union(found@.take(k as int + 1).to_set()));
            }
            k = k + 1;
        }
        proof {
            assert(found@.take(found@.len() as int) =~= found@);
            assert(t@.dom() =~= syntax_changes_seen(before@, after@, d as int + 1)) by {
                assert forall|n: SyntaxNodeId| #[trigger] t@.dom().contains(n) == syntax_changes_seen(before@, after@, d as int + 1).contains(n) by {
                    if syntax_changes_seen(before@, after@, d as int + 1).contains(n) {
                        let e = choose|e: int|
                            0 <= e < d + 1 && (#[trigger] after@[e]).syntax is Some && match document_of(before@, after@[e].id) {
                                Some(old) => old.syntax is Some && changed_syntax(old.syntax->0, after@[e].syntax->0).contains(n),
                                None => false,
                            };
                        if e < d {
                            assert(prior.contains(n));
                        } else {
                            assert(added.contains(n));
                        }
                    }
                    if prior.contains(n) {
                        let e = choose|e: int|
                            0 <= e < d && (#[trigger] after@[e]).syntax is Some && match document_of(before@, after@[e].id) {
                                Some(old) => old.syntax is Some && changed_syntax(old.syntax->0, after@[e].syntax->0).contains(n),
                                None => false,
                            };
                        assert(0 <= e < d + 1);
                    }
                }
            }
        }
        d = d + 1;
    }
    proof {
        assert(t@.dom() =~= syntax_changes(before@, after@));
    }
    t
}

/// Keys among the first `n` facts of `after` that `before` lacks (or, when
/// `changed`, holds with another value).
pub open spec fn facts_seen(before: Seq<(FactKey, DeclaredFact)>, after: Seq<(FactKey, DeclaredFact)>, changed: bool, n: int) -> Set<FactKey> {
    Set::new(|k: FactKey| exists|i: int| 0 <= i < n && (#[trigger] after[i]).0 == k && if changed {
        fact_of(before, k) is Some && fact_of(before, k) != Some(after[i].1@)
    } else {
        fact_of(before, k) is None
    })
}

/// Keys of `after` that `before` lacks, or, when `changed`, holds with another value.
fn fact_delta(before: &Vec<(FactKey, DeclaredFact)>, after: &Vec<(FactKey, DeclaredFact)>, changed: bool) -> (t: Table<FactKey, ()>)
    requires
        fact_keys_distinct(before@),
        fact_keys_distinct(after@),
    ensures
        t.wf(),
        t@.dom() == (if changed { facts_changed(before@, after@) } else { facts_added(before@, after@) }),
{
    let mut t: Table<FactKey, ()> = Table::new();
    proof {
        assert(t@.dom() =~= facts_seen(before@, after@, changed, 0));
    }
    let mut i: usize = 0;
    while i < after.len()
        invariant
            fact_keys_distinct(before@),
            fact_keys_distinct(after@),
            t.wf(),
            i <= after@.len(),
            t@.dom() == facts_seen(before@, after@, changed, i as int),
        decreases after.len() - i,
    {
        let key = after[i].0;
        let keep = match find_fact(before, key) {
            Some(j) => changed && !same_fact(&before[j].1, &after[i].1),
            None => !changed,
        };
        let ghost prior = t@.dom();
        if keep {
            t.insert(key, ());
        }
        proof {
            assert(t@.dom() =~= facts_seen(before@, after@, changed, i as int + 1)) by {
                assert forall|k: FactKey| #[trigger] t@.dom().contains(k) == facts_seen(before@, after@, changed, i as int + 1).contains(k) by {
                    if facts_seen(before@, after@, changed, i as int + 1).contains(k) {
                        let c = choose|c: int| 0 <= c < i + 1 && (#[trigger] after@[c]).0 == k && if changed {
                            fact_of(before@, k) is Some && fact_of(before@, k) != Some(after@[c].1@)
                        } else {
                            fact_of(before@, k) is None
                        };
                        if c < i {
                            assert(prior.contains(k));
                        }
                    }
                    if prior.contains(k) {
                        let c = choose|c: int| 0 <= c < i && (#[trigger] after@[c]).0 == k && if changed {
                            fact_of(before@, k) is Some && fact_of(before@, k) != Some(after@[c].1@)
                        } else {
                            fact_of(before@, k) is None
                        };
                        assert(0 <= c < i + 1);
                    }
                }
            }
        }
        i = i + 1;
    }
    proof {
        let target = if changed { facts_changed(before@, after@) } else { facts_added(before@, after@) };
        assert(t@.dom() =~= target) by {
            assert forall|k: FactKey| #[trigger] t@.dom().contains(k) == target.contains(k) by {
                if fact_of(after@, k) is Some {
                    let c = choose|c: int| 0 <= c < after@.len() && (#[trigger] after@[c]).0 == k;
                    assert(fact_of(after@, k) == Some(after@[c].1@));
                }
                if t@.dom().contains(k) {
                    let c = choose|c: int| 0 <= c < after@.len() && (#[trigger] after@[c]).0 == k && if changed {
                        fact_of(before@, k) is Some && fact_of(before@, k) != Some(after@[c].1@)
                    } else {
                        fact_of(before@, k) is None
                    };
                    let d = choose|d: int| 0 <= d < after@.len() && (#[trigger] after@[d]).0 == k;
                    if d != c {
                        assert(after@[d].0 != after@[c].0);
                    }
                }
            }
        }
    }
    t
}

/// Exact authored input and declared-fact delta between compilations.
/// Producer invalidation independently checks native query reads.
#[derive(Debug)]
pub struct SourceEditFrontier {
    /// Changed documents with old and new revisions; an absent side means
    /// the document was added or removed.
    pub source_revisions: Table<DocumentId, (Option<SourceRevisionId>, Option<SourceRevisionId>)>,
    /// New syntax identities, including replacement nodes.
    pub syntax_nodes_added: Table<SyntaxNodeId, ()>,
    /// Removed syntax identities, including nodes replaced by an edit.
    pub syntax_nodes_removed: Table<SyntaxNodeId, ()>,
    /// Retained syntax identities whose kind, range, content or ordered children changed.
    pub syntax_nodes_changed: Table<SyntaxNodeId, ()>,
    /// New declared canonical facts.
    pub declared_facts_added: Table<FactKey, ()>,
    /// Removed declared canonical facts.
    pub declared_facts_removed: Table<FactKey, ()>,
    /// Retained declared fact identities whose values or origins changed.
    pub declared_facts_changed: Table<FactKey, ()>,
}

pub struct FrontierView {
    pub source_revisions: Map<DocumentId, (Option<SourceRevisionId>, Option<SourceRevisionId>)>,
    pub syntax_nodes_added: Set<SyntaxNodeId>,
    pub syntax_nodes_removed: Set<SyntaxNodeId>,
    pub syntax_nodes_changed: Set<SyntaxNodeId>,
    pub declared_facts_added: Set<FactKey>,
    pub declared_facts_removed: Set<FactKey>,
    pub declared_facts_changed: Set<FactKey>,
}

/// The delta from one side (documents and facts) to the next.
pub open spec fn frontier_between(
    before: Seq<FrontierDocument>,
    before_facts: Seq<(FactKey, DeclaredFact)>,
    after: Seq<FrontierDocument>,
    after_facts: Seq<(FactKey, DeclaredFact)>,
) -> FrontierView {
    FrontierView {
        source_revisions: revision_changes(before, after),
        syntax_nodes_added: syntax_ids(after).difference(syntax_ids(before)),
        syntax_nodes_removed: syntax_ids(before).difference(syntax_ids(after)),
        syntax_nodes_changed: syntax_changes(before, after),
        declared_facts_added: facts_added(before_facts, after_facts),
        declared_facts_removed: facts_added(after_facts, before_facts),
        declared_facts_changed: facts_changed(before_facts, after_facts),
    }
}

impl SourceEditFrontier {
    pub open spec fn view_is(&self, v: FrontierView) -> bool {
        &&& self.source_revisions.wf() && self.source_revisions@ == v.source_revisions
        &&& self.syntax_nodes_added.wf() && self.syntax_nodes_added@.dom() == v.syntax_nodes_added
        &&& self.syntax_nodes_removed.wf() && self.syntax_nodes_removed@.dom() == v.syntax_nodes_removed
        &&& self.syntax_nodes_changed.wf() && self.syntax_nodes_changed@.dom() == v.syntax_nodes_changed
        &&& self.declared_facts_added.wf() && self.declared_facts_added@.dom() == v.declared_facts_added
        &&& self.declared_facts_removed.wf() && self.declared_facts_removed@.dom() == v.declared_facts_removed
        &&& self.declared_facts_changed.wf() && self.declared_facts_changed@.dom() == v.declared_facts_changed
    }

    /// The delta from `previous` (none for a first compilation) to `next`.
    pub fn between(previous: Option<&FrontierSource>, next: &FrontierSource) -> (frontier: SourceEditFrontier)
        requires
            next.wf(),
            previous matches Some(p) ==> p.wf(),
        ensures
            frontier.view_is(
                match previous {
                    Some(p) => frontier_between(p.documents@, p.facts@, next.documents@, next.facts@),
                    None => frontier_between(Seq::empty(), Seq::empty(), next.documents@, next.facts@),
                },
            ),
    {
        let no_documents: Vec<FrontierDocument> = Vec::new();
        let no_facts: Vec<(FactKey, DeclaredFact)> = Vec::new();
        let (before, before_facts) = match previous {
            Some(p) => (&p.documents, &p.facts),
            None => (&no_documents, &no_facts),
        };
        proof {
            assert(ids_distinct(before@) && syntaxes_wf(before@) && fact_keys_distinct(before_facts@));
            assert(ids_distinct(next.documents@) && syntaxes_wf(next.documents@) && fact_keys_distinct(next.facts@));
        }
        let old_nodes = collect_syntax_ids(before);
        let new_nodes = collect_syntax_ids(&next.documents);
        SourceEditFrontier {
            source_revisions: revisions(before, &next.documents),
            syntax_nodes_added: key_difference(&new_nodes, &old_nodes),
            syntax_nodes_removed: key_difference(&old_nodes, &new_nodes),
            syntax_nodes_changed: collect_syntax_changes(before, &next.documents),
            declared_facts_added: fact_delta(before_facts, &next.facts, false),
            declared_facts_removed: fact_delta(&next.facts, before_facts, false),
            declared_facts_changed: fact_delta(before_facts, &next.facts, true),
        }
    }
}

proof fn lemma_unchanged_prefix(s: SyntaxSnapshot, k: nat)
    requires
        s.wf(),
        k <= s.nodes@.len(),
    ensures
        changed_prefix(s, s, k) == Seq::<SyntaxNodeId>::empty(),
    decreases k,
{
    if k > 0 {
        lemma_unchanged_prefix(s, (k - 1) as nat);
        let node = s.nodes@[k - 1];
        let c = choose|c: int| 0 <= c < s.nodes@.len() && (#[trigger] s.nodes@[c]).id == node.id;
        if c != k - 1 {
            assert(s.nodes@[c].id != s.nodes@[k - 1].id);
        }
        assert(node_with_id(s.nodes@, node.id) == Some(node));
    }
}

/// The retained node `prior` of the earlier revision and the node `node` of
/// the later one differ: in kind, in byte range, in their ordered children, or
/// in some source byte inside the later range that both sources hold.
pub open spec fn retained_node_differs(prior: SyntaxNodeShape, node: SyntaxNodeShape, before: Seq<u8>, after: Seq<u8>) -> bool {
    ||| prior.kind != node.kind
    ||| prior.range != node.range
    ||| prior.children@ != node.children@
    ||| exists|b: int| node.range.start <= b < node.range.end && b < before.len() && b < after.len() && before[b] != after[b]
}

proof fn lemma_changed_prefix_members(before: SyntaxSnapshot, after: SyntaxSnapshot, k: nat)
    requires
        before.wf(),
        k <= after.nodes@.len(),
    ensures
        forall|id: SyntaxNodeId| changed_prefix(before, after, k).contains(id) <==> exists|i: int, j: int|
            0 <= i < k && 0 <= j < before.nodes@.len() && #[trigger] after.nodes@[i].id == id
                && #[trigger] before.nodes@[j].id == id
                && retained_node_differs(before.nodes@[j], after.nodes@[i], before.source@, after.source@),
    decreases k,
{
    if k > 0 {
        lemma_changed_prefix_members(before, after, (k - 1) as nat);
        let prior = changed_prefix(before, after, (k - 1) as nat);
        let node = after.nodes@[k - 1];
        assert forall|id: SyntaxNodeId| changed_prefix(before, after, k).contains(id) <==> exists|i: int, j: int|
            0 <= i < k && 0 <= j < before.nodes@.len() && #[trigger] after.nodes@[i].id == id
                && #[trigger] before.nodes@[j].id == id
                && retained_node_differs(before.nodes@[j], after.nodes@[i], before.source@, after.source@) by {
            let here = exists|j: int| 0 <= j < before.nodes@.len() && #[trigger] before.nodes@[j].id == node.id
                && retained_node_differs(before.nodes@[j], node, before.source@, after.source@);
            match node_with_id(before.nodes@, node.id) {
                Some(old) => {
                    let c = choose|c: int| 0 <= c < before.nodes@.len() && (#[trigger] before.nodes@[c]).id == node.id;
                    assert(old == before.nodes@[c]);
                    assert forall|j: int| 0 <= j < before.nodes@.len() && #[trigger] before.nodes@[j].id == node.id
                        implies j == c by {
                        if j != c {
                            assert(before.nodes@[j].id != before.nodes@[c].id);
                        }
                    }
                    assert(node_changed(old, node, before.source@, after.source@) == retained_node_differs(
                        old,
                        node,
                        before.source@,
                        after.source@,
                    ));
                    assert(here == node_changed(old, node, before.source@, after.source@));
                },
                None => {
                    assert(!here);
                },
            }
            if changed_prefix(before, after, k).contains(id) {
                if prior.contains(id) {
                    let (i, j) = choose|i: int, j: int|
                        0 <= i < k - 1 && 0 <= j < before.nodes@.len() && #[trigger] after.nodes@[i].id == id
                            && #[trigger] before.nodes@[j].id == id
                            && retained_node_differs(before.nodes@[j], after.nodes@[i], before.source@, after.source@);
                    assert(0 <= i < k);
                } else {
                    assert(id == node.id && here);
                    let j = choose|j: int| 0 <= j < before.nodes@.len() && #[trigger] before.nodes@[j].id == node.id
                        && retained_node_differs(before.nodes@[j], node, before.source@, after.source@);
                    assert(after.nodes@[k - 1].id == id && before.nodes@[j].id == id);
                }
            }
            if exists|i: int, j: int|
                0 <= i < k && 0 <= j < before.nodes@.len() && #[trigger] after.nodes@[i].id == id
                    && #[trigger] before.nodes@[j].id == id
                    && retained_node_differs(before.nodes@[j], after.nodes@[i], before.source@, after.source@) {
                let (i, j) = choose|i: int, j: int|
                    0 <= i < k && 0 <= j < before.nodes@.len() && #[trigger] after.nodes@[i].id == id
                        && #[trigger] before.nodes@[j].id == id
                        && retained_node_differs(before.nodes@[j], after.nodes@[i], before.source@, after.source@);
                if i < k - 1 {
                    assert(prior.contains(id));
                    let p = prior.index_of(id);
                    assert(changed_prefix(before, after, k).contains(id)) by {
                        if here {
                            assert(changed_prefix(before, after, k) == prior.push(node.id));
                            assert(changed_prefix(before, after, k)[p] == id);
                        } else {
                            assert(changed_prefix(before, after, k) == prior);
                        }
                    }
                } else {
                    assert(i == k - 1);
                    assert(here);
                    assert(changed_prefix(before, after, k) == prior.push(node.id));
                    assert(changed_prefix(before, after, k)[prior.len() as int] == id);
                }
            }
        }
    }
}

/// The changed syntax identities are exactly the identities of the later
/// revision whose node the earlier revision retains, at any position, and
/// whose kind, byte range, ordered children or source bytes in range differ.
/// A node is found again by its identity, never by its place in the list.
pub proof fn law_changed_syntax_members(before: SyntaxSnapshot, after: SyntaxSnapshot, id: SyntaxNodeId)
    requires
        before.wf(),
    ensures
        changed_syntax(before, after).contains(id) <==> exists|i: int, j: int|
            0 <= i < after.nodes@.len() && 0 <= j < before.nodes@.len() && #[trigger] after.nodes@[i].id == id
                && #[trigger] before.nodes@[j].id == id
                && retained_node_differs(before.nodes@[j], after.nodes@[i], before.source@, after.source@),
{
    lemma_changed_prefix_members(before, after, after.nodes@.len());
}

/// A revision compared with itself has no changed syntax identity.
pub proof fn law_unchanged_syntax_reports_nothing(s: SyntaxSnapshot)
    requires
        s.wf(),
    ensures
        changed_syntax(s, s) == Seq::<SyntaxNodeId>::empty(),
{
    lemma_unchanged_prefix(s, s.nodes@.len());
}

/// Recompiling identical inputs yields an empty frontier: no revision,
/// syntax identity or declared fact is reported added, removed or changed.
pub proof fn law_unchanged_source_has_empty_frontier(src: FrontierSource)
    requires
        src.wf(),
    ensures
        ({
            let f = frontier_between(src.documents@, src.facts@, src.documents@, src.facts@);
            &&& f.source_revisions == Map::<DocumentId, (Option<SourceRevisionId>, Option<SourceRevisionId>)>::empty()
            &&& f.syntax_nodes_added == Set::<SyntaxNodeId>::empty()
            &&& f.syntax_nodes_removed == Set::<SyntaxNodeId>::empty()
            &&& f.syntax_nodes_changed == Set::<SyntaxNodeId>::empty()
            &&& f.declared_facts_added == Set::<FactKey>::empty()
            &&& f.declared_facts_removed == Set::<FactKey>::empty()
            &&& f.declared_facts_changed == Set::<FactKey>::empty()
        }),
{
    let docs = src.documents@;
    let f = frontier_between(docs, src.facts@, docs, src.facts@);
    assert(f.source_revisions =~= Map::empty());
    assert(f.syntax_nodes_added =~= Set::empty());
    assert(f.syntax_nodes_removed =~= Set::empty());
    assert(f.declared_facts_added =~= Set::empty());
    assert(f.declared_facts_removed =~= Set::empty());
    assert(f.declared_facts_changed =~= Set::empty());
    assert forall|n: SyntaxNodeId| !#[trigger] f.syntax_nodes_changed.contains(n) by {
        if f.syntax_nodes_changed.contains(n) {
            let e = choose|e: int|
                0 <= e < docs.len() && (#[trigger] docs[e]).syntax is Some && match document_of(docs, docs[e].id) {
                    Some(old) => old.syntax is Some && changed_syntax(old.syntax->0, docs[e].syntax->0).contains(n),
                    None => false,
                };
            let c = choose|c: int| 0 <= c < docs.len() && (#[trigger] docs[c]).id == docs[e].id;
            if c != e {
                assert(docs[c].id != docs[e].id);
            }
            assert(document_of(docs, docs[e].id) == Some(docs[e]));
            law_unchanged_syntax_reports_nothing(docs[e].syntax->0);
        }
    }
    assert(f.syntax_nodes_changed =~= Set::empty());
}

/// What the frontier reports added and removed never overlaps, for syntax
/// identities and for declared facts alike.
pub proof fn law_added_and_removed_are_disjoint(
    before: Seq<FrontierDocument>,
    before_facts: Seq<(FactKey, DeclaredFact)>,
    after: Seq<FrontierDocument>,
    after_facts: Seq<(FactKey, DeclaredFact)>,
)
    ensures
        ({
            let f = frontier_between(before, before_facts, after, after_facts);
            &&& f.syntax_nodes_added.disjoint(f.syntax_nodes_removed)
            &&& f.declared_facts_added.disjoint(f.declared_facts_removed)
            &&& f.declared_facts_added.disjoint(f.declared_facts_changed)
        }),
{
}

} // verus!
