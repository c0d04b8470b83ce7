//! Validation of a persisted Systems publication facade against the exact
//! verified SysML sources it claims to describe, and against the local graph
//! restored beside it.
use crate::ids::{
    fact_key_less, fact_key_lt, lemma_fact_key_order, AssociationOccurrenceId, DeclaredOrigin, DocumentId, ElementId,
    FactKey, LibraryId, Origin, PropertyId, SourceOrigin, SourceRevisionId,
};
use crate::model::{AssociationOccurrence, ConstructionView, ElementRecord, ElementSet};
use crate::provenance::bumped;
use crate::publication::{
    checked_families, distinct_names, families_complete, SystemsPublicationAudit, SystemsPublicationCacheError,
    SystemsPublicationFamily, SystemsPublicationFinding, SYSTEMS_MANDATORY_REFERENCE_ASSERTIONS,
};
use crate::text::text_eq;
use vstd::prelude::*;

verus! {

/// Number of SysML documents in the pinned Systems source set.
pub const SYSTEMS_DOCUMENTS: usize = 21;

/// Persisted status of one Systems source document.
#[derive(Debug)]
pub struct DocumentMetadata {
    pub path: String,
    pub document: DocumentId,
    pub sha256: String,
    pub profile: String,
    pub parsed: bool,
    pub byte_exact: bool,
    pub recovery_count: usize,
    pub production_count: usize,
    pub construction_gap: Option<String>,
}

/// Persisted facade of a Systems publication: its identity, roots, ordered
/// source map, document statuses, reference counts and checked families.
#[derive(Debug)]
pub struct FacadeMetadata {
    pub format: String,
    pub source_content_set: String,
    pub roots: Vec<ElementId>,
    pub source_map: Vec<(FactKey, SourceOrigin)>,
    pub documents: Vec<DocumentMetadata>,
    pub mandatory_references: usize,
    pub complete_references: usize,
    /// Checked counts by family name, each name once.
    pub checked: Vec<(String, usize)>,
}

/// One verified SysML source: identity, path, digest, revision and bytes.
#[derive(Debug)]
pub struct VerifiedSource {
    pub document: DocumentId,
    pub path: String,
    pub sha256: String,
    pub revision: SourceRevisionId,
    pub source: Vec<u8>,
}

/// The verified source with identity `id`, if any.
pub open spec fn source_with_id(sources: Seq<VerifiedSource>, id: DocumentId) -> Option<VerifiedSource> {
    if exists|i: int| 0 <= i < sources.len() && (#[trigger] sources[i]).document == id {
        Some(sources[choose|i: int| 0 <= i < sources.len() && (#[trigger] sources[i]).document == id])
    } else {
        None
    }
}

/// A byte position of UTF-8 text that starts a character or ends the text.
pub open spec fn char_boundary(bytes: Seq<u8>, i: int) -> bool {
    i == 0 || i == bytes.len() || (0 <= i < bytes.len() && (bytes[i] < 0x80 || bytes[i] >= 0xc0))
}

/// The byte range `[start, end)` is a slice of the text.
pub open spec fn slice_exists(bytes: Seq<u8>, start: int, end: int) -> bool {
    start <= end && end <= bytes.len() && char_boundary(bytes, start) && char_boundary(bytes, end)
}

impl FacadeMetadata {
    /// Populations, identity and source map order.
    pub open spec fn populations_ok(&self, sources: Seq<VerifiedSource>, content_set_id: Seq<char>) -> bool {
        &&& self.format@ == "agq-sysml-publication-facade/1"@
        &&& self.source_content_set@ == content_set_id
        &&& self.mandatory_references == SYSTEMS_MANDATORY_REFERENCE_ASSERTIONS
        &&& self.complete_references == SYSTEMS_MANDATORY_REFERENCE_ASSERTIONS
        &&& self.documents@.len() == SYSTEMS_DOCUMENTS
        &&& sources.len() == SYSTEMS_DOCUMENTS
        &&& Set::new(|d: DocumentId| exists|i: int| 0 <= i < self.documents@.len() && (#[trigger] self.documents@[i]).document == d)
            == Set::new(|d: DocumentId| exists|i: int| 0 <= i < sources.len() && (#[trigger] sources[i]).document == d)
        &&& self.roots@.len() > 0
        &&& self.roots@.no_duplicates()
        &&& forall|i: int| 0 <= i < self.source_map@.len() - 1 ==> fact_key_lt(
            (#[trigger] self.source_map@[i]).0,
            self.source_map@[i + 1].0,
        )
    }

    /// One persisted document status is exact for its verified source.
    pub open spec fn document_ok(doc: DocumentMetadata, sources: Seq<VerifiedSource>, profile_id: Seq<char>) -> bool {
        &&& doc.profile@ == profile_id
        &&& doc.parsed
        &&& doc.byte_exact
        &&& doc.recovery_count == 0
        &&& doc.construction_gap is None
        &&& source_with_id(sources, doc.document) matches Some(source) && source.path@ == doc.path@
            && source.sha256@ == doc.sha256@
    }

    /// Source evidence names a slice of the exact revision of a verified
    /// source, with a syntax node.
    pub open spec fn provenance_ok(origin: SourceOrigin, sources: Seq<VerifiedSource>) -> bool {
        source_with_id(sources, origin.document) matches Some(source) && source.revision == origin.revision
            && origin.syntax_node is Some && slice_exists(
            source.source@,
            origin.range.start as int,
            origin.range.end as int,
        )
    }

    /// The outcome of validation, in check order.
    pub open spec fn validation(&self, sources: Seq<VerifiedSource>, content_set_id: Seq<char>, profile_id: Seq<char>) -> Result<(), SystemsPublicationCacheError> {
        if !self.populations_ok(sources, content_set_id) {
            Err(SystemsPublicationCacheError::Mismatch("facade populations or source map order"))
        } else if exists|i: int| 0 <= i < self.documents@.len() && !Self::document_ok(#[trigger] self.documents@[i], sources, profile_id) {
            Err(SystemsPublicationCacheError::Mismatch("exact document identity or status"))
        } else if exists|i: int| 0 <= i < self.source_map@.len() && !Self::provenance_ok((#[trigger] self.source_map@[i]).1, sources) {
            Err(SystemsPublicationCacheError::Mismatch("source provenance"))
        } else if !families_complete(self.checked@) {
            Err(SystemsPublicationCacheError::Mismatch("checked family population"))
        } else {
            Ok(())
        }
    }
}

pub open spec fn source_ids_distinct(sources: Seq<VerifiedSource>) -> bool {
    forall|i: int, j: int| 0 <= i < sources.len() && 0 <= j < sources.len() && i != j ==> (#[trigger] sources[i]).document
        != (#[trigger] sources[j]).document
}

fn find_source(sources: &[VerifiedSource], id: DocumentId) -> (found: Option<usize>)
    requires
        source_ids_distinct(sources@),
    ensures
        match found {
            Some(i) => i < sources@.len() && source_with_id(sources@, id) == Some(sources@[i as int]),
            None => source_with_id(sources@, id) is None,
        },
{
    let mut i: usize = 0;
    while i < sources.len()
        invariant
            source_ids_distinct(sources@),
            i <= sources@.len(),
            forall|k: int| 0 <= k < i ==> (#[trigger] sources@[k]).document != id,
        decreases sources.len() - i,
    {
        if sources[i].document == id {
            proof {
                let c = choose|c: int| 0 <= c < sources@.len() && (#[trigger] sources@[c]).document == id;
                if c != i {
                    assert(sources@[c].document != sources@[i as int].document);
                }
            }
            return Some(i);
        }
        i = i + 1;
    }
    None
}

fn char_boundary_exec(bytes: &Vec<u8>, i: u64) -> (boundary: bool)
    ensures
        boundary == char_boundary(bytes@, i as int),
{
    if i == 0 || i == bytes.len() as u64 {
        return true;
    }
    if i > bytes.len() as u64 {
        return false;
    }
    let b = bytes[i as usize];
    b < 0x80 || b >= 0xc0
}

fn no_duplicate_roots(roots: &Vec<ElementId>) -> (distinct: bool)
    ensures
        distinct == roots@.no_duplicates(),
{
    let mut i: usize = 0;
    while i < roots.len()
        invariant
            i <= roots@.len(),
            forall|a: int, b: int| 0 <= a < roots@.len() && 0 <= b < roots@.len() && a != b && a < i ==> roots@[a] != roots@[b],
        decreases roots.len() - i,
    {
        let mut j: usize = 0;
        while j < roots.len()
            invariant
                i < roots@.len(),
                j <= roots@.len(),
                forall|a: int, b: int| 0 <= a < roots@.len() && 0 <= b < roots@.len() && a != b && a < i ==> roots@[a] != roots@[b],
                forall|b: int| 0 <= b < j && b != i ==> roots@[i as int] != roots@[b],
            decreases roots.len() - j,
        {
            if j != i && roots[i] == roots[j] {
                return false;
            }
            j = j + 1;
        }
        i = i + 1;
    }
    true
}

impl FacadeMetadata {
    fn populations_exec(&self, sources: &[VerifiedSource], content_set_id: &str) -> (ok: bool)
        requires
            source_ids_distinct(sources@),
        ensures
            ok == self.populations_ok(sources@, content_set_id@),
    {
        proof {
            reveal_strlit("agq-sysml-publication-facade/1");
        }
        if !text_eq(self.format.as_str(), "agq-sysml-publication-facade/1") || !text_eq(
            self.source_content_set.as_str(),
            content_set_id,
        ) || self.mandatory_references != SYSTEMS_MANDATORY_REFERENCE_ASSERTIONS || self.complete_references
            != SYSTEMS_MANDATORY_REFERENCE_ASSERTIONS || self.documents.len() != SYSTEMS_DOCUMENTS || sources.len()
            != SYSTEMS_DOCUMENTS {
            return false;
        }
        let ghost persisted = Set::new(|d: DocumentId| exists|i: int| 0 <= i < self.documents@.len() && (#[trigger] self.documents@[i]).document == d);
        let ghost verified = Set::new(|d: DocumentId| exists|i: int| 0 <= i < sources@.len() && (#[trigger] sources@[i]).document == d);
        let mut i: usize = 0;
        while i < self.documents.len()
            invariant
                source_ids_distinct(sources@),
                persisted == Set::new(|d: DocumentId| exists|i: int| 0 <= i < self.documents@.len() && (#[trigger] self.documents@[i]).document == d),
                verified == Set::new(|d: DocumentId| exists|i: int| 0 <= i < sources@.len() && (#[trigger] sources@[i]).document == d),
                i <= self.documents@.len(),
                forall|k: int| 0 <= k < i ==> verified.contains((#[trigger] self.documents@[k]).document),
            decreases self.documents.len() - i,
        {
            match find_source(sources, self.documents[i].document) {
                Some(k) => {
                    assert(verified.contains(sources@[k as int].document));
                },
                None => {
                    proof {
                        let d = self.documents@[i as int].document;
                        assert(persisted.contains(d));
                        if verified.contains(d) {
                            let c = choose|c: int| 0 <= c < sources@.len() && (#[trigger] sources@[c]).document == d;
                            assert(sources@[c].document == d);
                        }
                        assert(!verified.contains(d));
                    }
                    return false;
                },
            }
            i = i + 1;
        }
        let mut k: usize = 0;
        while k < sources.len()
            invariant
                persisted == Set::new(|d: DocumentId| exists|i: int| 0 <= i < self.documents@.len() && (#[trigger] self.documents@[i]).document == d),
                verified == Set::new(|d: DocumentId| exists|i: int| 0 <= i < sources@.len() && (#[trigger] sources@[i]).document == d),
                forall|j: int| 0 <= j < self.documents@.len() ==> verified.contains((#[trigger] self.documents@[j]).document),
                k <= sources@.len(),
                forall|j: int| 0 <= j < k ==> persisted.contains((#[trigger] sources@[j]).document),
            decreases sources.len() - k,
        {
            let id = sources[k].document;
            let mut found = false;
            let mut i: usize = 0;
            while i < self.documents.len()
                invariant
                    persisted == Set::new(|d: DocumentId| exists|i: int| 0 <= i < self.documents@.len() && (#[trigger] self.documents@[i]).document == d),
                    k < sources@.len(),
                    id == sources@[k as int].document,
                    i <= self.documents@.len(),
                    found ==> persisted.contains(id),
                    !found ==> forall|j: int| 0 <= j < i ==> (#[trigger] self.documents@[j]).document != id,
                decreases self.documents.len() - i,
            {
                if self.documents[i].document == id {
                    found = true;
                    assert(persisted.contains(self.documents@[i as int].document));
                }
                i = i + 1;
            }
            if !found {
                proof {
                    assert(verified.contains(id));
                    assert(!persisted.contains(id));
                }
                return false;
            }
            k = k + 1;
        }
        proof {
            assert(persisted =~= verified);
        }
        if self.roots.len() == 0 || !no_duplicate_roots(&self.roots) {
            return false;
        }
        let n = self.source_map.len();
        let mut m: usize = 1;
        while m < n
            invariant
                n == self.source_map@.len(),
                1 <= m,
                m <= n || n == 0,
                forall|i: int| 0 <= i < m - 1 ==> fact_key_lt((#[trigger] self.source_map@[i]).0, self.source_map@[i + 1].0),
            decreases n - m,
        {
            if !fact_key_less(self.source_map[m - 1].0, self.source_map[m].0) {
                return false;
            }
            m = m + 1;
        }
        true
    }

    pub(crate) fn document_exec(doc: &DocumentMetadata, sources: &[VerifiedSource], profile_id: &str) -> (ok: bool)
        requires
            source_ids_distinct(sources@),
        ensures
            ok == Self::document_ok(*doc, sources@, profile_id@),
    {
        if !text_eq(doc.profile.as_str(), profile_id) || !doc.parsed || !doc.byte_exact || doc.recovery_count != 0
            || doc.construction_gap.is_some() {
            return false;
        }
        match find_source(sources, doc.document) {
            Some(i) => sources[i].path == doc.path && sources[i].sha256 == doc.sha256,
            None => false,
        }
    }

    fn provenance_exec(origin: &SourceOrigin, sources: &[VerifiedSource]) -> (ok: bool)
        requires
            source_ids_distinct(sources@),
        ensures
            ok == Self::provenance_ok(*origin, sources@),
    {
        match find_source(sources, origin.document) {
            Some(i) => {
                let source = &sources[i].source;
                sources[i].revision == origin.revision && origin.syntax_node.is_some() && origin.range.start
                    <= origin.range.end && origin.range.end <= source.len() as u64 && char_boundary_exec(
                    source,
                    origin.range.start,
                ) && char_boundary_exec(source, origin.range.end)
            },
            None => false,
        }
    }

    /// Validate the facade against the exact verified SysML sources, the
    /// verified content set identity and the operational syntax profile.
    pub fn validate(&self, sources: &[VerifiedSource], content_set_id: &str, profile_id: &str) -> (result: Result<
        (),
        SystemsPublicationCacheError,
    >)
        requires
            source_ids_distinct(sources@),
            distinct_names(self.checked@),
        ensures
            result == self.validation(sources@, content_set_id@, profile_id@),
    {
        if !self.populations_exec(sources, content_set_id) {
            return Err(SystemsPublicationCacheError::Mismatch("facade populations or source map order"));
        }
        let mut i: usize = 0;
        while i < self.documents.len()
            invariant
                source_ids_distinct(sources@),
                self.populations_ok(sources@, content_set_id@),
                i <= self.documents@.len(),
                forall|k: int| 0 <= k < i ==> Self::document_ok(#[trigger] self.documents@[k], sources@, profile_id@),
            decreases self.documents.len() - i,
        {
            if !Self::document_exec(&self.documents[i], sources, profile_id) {
                return Err(SystemsPublicationCacheError::Mismatch("exact document identity or status"));
            }
            i = i + 1;
        }
        let mut k: usize = 0;
        while k < self.source_map.len()
            invariant
                source_ids_distinct(sources@),
                self.populations_ok(sources@, content_set_id@),
                forall|i: int| 0 <= i < self.documents@.len() ==> Self::document_ok(#[trigger] self.documents@[i], sources@, profile_id@),
                k <= self.source_map@.len(),
                forall|j: int| 0 <= j < k ==> Self::provenance_ok((#[trigger] self.source_map@[j]).1, sources@),
            decreases self.source_map.len() - k,
        {
            if !Self::provenance_exec(&self.source_map[k].1, sources) {
                return Err(SystemsPublicationCacheError::Mismatch("source provenance"));
            }
            k = k + 1;
        }
        match checked_families(self.checked.as_slice()) {
            Ok(_) => Ok(()),
            Err(e) => Err(e),
        }
    }
}

/// Facts strictly ascend along the source map.
pub open spec fn facts_ascend(map: Seq<(FactKey, SourceOrigin)>) -> bool {
    forall|i: int| 0 <= i < map.len() - 1 ==> fact_key_lt(#[trigger] map[i].0, map[i + 1].0)
}

/// Whether `fact` is a key of the source map.
pub open spec fn map_has_fact(map: Seq<(FactKey, SourceOrigin)>, fact: FactKey) -> bool {
    exists|i: int| 0 <= i < map.len() && #[trigger] map[i].0 == fact
}

proof fn lemma_ascending(map: Seq<(FactKey, SourceOrigin)>, i: int, j: int)
    requires
        facts_ascend(map),
        0 <= i < j < map.len(),
    ensures
        fact_key_lt(map[i].0, map[j].0),
    decreases j - i,
{
    if j > i + 1 {
        lemma_ascending(map, i, j - 1);
        lemma_fact_key_order(map[i].0, map[j - 1].0, map[j].0);
    }
}

/// Binary search of an ascending source map.
fn map_contains(map: &Vec<(FactKey, SourceOrigin)>, fact: FactKey) -> (found: bool)
    requires
        facts_ascend(map@),
    ensures
        found == map_has_fact(map@, fact),
{
    let mut lo: usize = 0;
    let mut hi: usize = map.len();
    while lo < hi
        invariant
            facts_ascend(map@),
            lo <= hi <= map@.len(),
            forall|i: int| 0 <= i < lo ==> fact_key_lt(#[trigger] map@[i].0, fact),
            forall|i: int| hi <= i < map@.len() ==> fact_key_lt(fact, #[trigger] map@[i].0),
        decreases hi - lo,
    {
        let mid = lo + (hi - lo) / 2;
        let key = map[mid].0;
        if key == fact {
            return true;
        }
        if fact_key_less(key, fact) {
            proof {
                assert forall|i: int| 0 <= i < mid + 1 implies fact_key_lt(#[trigger] map@[i].0, fact) by {
                    if i < mid {
                        lemma_ascending(map@, i, mid as int);
                        lemma_fact_key_order(map@[i].0, key, fact);
                    }
                }
            }
            lo = mid + 1;
        } else {
            proof {
                lemma_fact_key_order(key, fact, key);
                assert forall|i: int| mid <= i < map@.len() implies fact_key_lt(fact, #[trigger] map@[i].0) by {
                    if i > mid {
                        lemma_ascending(map@, mid as int, i);
                        lemma_fact_key_order(fact, key, map@[i].0);
                    }
                }
            }
            hi = mid;
        }
    }
    proof {
        assert forall|i: int| 0 <= i < map@.len() implies #[trigger] map@[i].0 != fact by {
            lemma_fact_key_order(fact, fact, fact);
        }
    }
    false
}

/// The records of a local graph have distinct identities, in increasing order,
/// and each record's slots have increasing properties.
pub open spec fn local_graph_wf(local: ConstructionView) -> bool {
    &&& local.wf()
    &&& forall|i: int| 0 <= i < local.elements@.len() ==> (#[trigger] local.elements@[i]).wf()
}

/// The origin the local graph records for a fact, if the fact belongs to it.
pub open spec fn local_fact_origin(local: ConstructionView, fact: FactKey) -> Option<Origin> {
    match fact {
        FactKey::Element(id) => if exists|i: int| 0 <= i < local.elements@.len() && #[trigger] local.elements@[i].id == id {
            Some(local.elements@[choose|i: int| 0 <= i < local.elements@.len() && #[trigger] local.elements@[i].id == id].origin)
        } else {
            None
        },
        FactKey::Property { element, property } => if exists|i: int, j: int|
            0 <= i < local.elements@.len() && #[trigger] local.elements@[i].id == element && 0 <= j
                < local.elements@[i].slots@.len() && #[trigger] local.elements@[i].slots@[j].0 == property {
            let (i, j) = choose|i: int, j: int|
                0 <= i < local.elements@.len() && #[trigger] local.elements@[i].id == element && 0 <= j
                    < local.elements@[i].slots@.len() && #[trigger] local.elements@[i].slots@[j].0 == property;
            Some(local.elements@[i].slots@[j].2)
        } else {
            None
        },
        FactKey::AssociationOccurrence(id) => if exists|i: int| 0 <= i < local.occurrences@.len() && #[trigger] local.occurrences@[i].id == id {
            Some(local.occurrences@[choose|i: int| 0 <= i < local.occurrences@.len() && #[trigger] local.occurrences@[i].id == id].origin)
        } else {
            None
        },
    }
}

fn find_record(elements: &Vec<ElementRecord>, id: ElementId) -> (found: Option<usize>)
    requires
        forall|i: int, j: int| 0 <= i < j < elements@.len() ==> elements@[i].id.0 < elements@[j].id.0,
    ensures
        match found {
            Some(i) => i < elements@.len() && elements@[i as int].id == id,
            None => forall|i: int| 0 <= i < elements@.len() ==> #[trigger] elements@[i].id != id,
        },
{
    let mut lo: usize = 0;
    let mut hi: usize = elements.len();
    while lo < hi
        invariant
            forall|i: int, j: int| 0 <= i < j < elements@.len() ==> elements@[i].id.0 < elements@[j].id.0,
            lo <= hi <= elements@.len(),
            forall|i: int| 0 <= i < lo ==> (#[trigger] elements@[i]).id.0 < id.0,
            forall|i: int| hi <= i < elements@.len() ==> (#[trigger] elements@[i]).id.0 > id.0,
        decreases hi - lo,
    {
        let mid = lo + (hi - lo) / 2;
        let key = elements[mid].id.0;
        if key == id.0 {
            return Some(mid);
        } else if key < id.0 {
            lo = mid + 1;
        } else {
            hi = mid;
        }
    }
    None
}

fn find_slot(slots: &Vec<(PropertyId, crate::model::SlotValue, Origin)>, property: PropertyId) -> (found: Option<usize>)
    requires
        forall|i: int, j: int| 0 <= i < j < slots@.len() ==> slots@[i].0.0 < slots@[j].0.0,
    ensures
        match found {
            Some(i) => i < slots@.len() && slots@[i as int].0 == property,
            None => forall|i: int| 0 <= i < slots@.len() ==> #[trigger] slots@[i].0 != property,
        },
{
    let mut lo: usize = 0;
    let mut hi: usize = slots.len();
    while lo < hi
        invariant
            forall|i: int, j: int| 0 <= i < j < slots@.len() ==> slots@[i].0.0 < slots@[j].0.0,
            lo <= hi <= slots@.len(),
            forall|i: int| 0 <= i < lo ==> (#[trigger] slots@[i]).0.0 < property.0,
            forall|i: int| hi <= i < slots@.len() ==> (#[trigger] slots@[i]).0.0 > property.0,
        decreases hi - lo,
    {
        let mid = lo + (hi - lo) / 2;
        let key = slots[mid].0.0;
        if key == property.0 {
            return Some(mid);
        } else if key < property.0 {
            lo = mid + 1;
        } else {
            hi = mid;
        }
    }
    None
}

fn find_occurrence(occurrences: &Vec<AssociationOccurrence>, id: AssociationOccurrenceId) -> (found: Option<usize>)
    requires
        forall|i: int, j: int| 0 <= i < j < occurrences@.len() ==> occurrences@[i].id.0 < occurrences@[j].id.0,
    ensures
        match found {
            Some(i) => i < occurrences@.len() && occurrences@[i as int].id == id,
            None => forall|i: int| 0 <= i < occurrences@.len() ==> #[trigger] occurrences@[i].id != id,
        },
{
    let mut lo: usize = 0;
    let mut hi: usize = occurrences.len();
    while lo < hi
        invariant
            forall|i: int, j: int| 0 <= i < j < occurrences@.len() ==> occurrences@[i].id.0 < occurrences@[j].id.0,
            lo <= hi <= occurrences@.len(),
            forall|i: int| 0 <= i < lo ==> (#[trigger] occurrences@[i]).id.0 < id.0,
            forall|i: int| hi <= i < occurrences@.len() ==> (#[trigger] occurrences@[i]).id.0 > id.0,
        decreases hi - lo,
    {
        let mid = lo + (hi - lo) / 2;
        let key = occurrences[mid].id.0;
        if key == id.0 {
            return Some(mid);
        } else if key < id.0 {
            lo = mid + 1;
        } else {
            hi = mid;
        }
    }
    None
}

/// The origin of a fact in the local graph.
fn fact_origin(local: &ConstructionView, fact: FactKey) -> (origin: Option<Origin>)
    requires
        local_graph_wf(*local),
    ensures
        origin == local_fact_origin(*local, fact),
{
    match fact {
        FactKey::Element(id) => match find_record(&local.elements, id) {
            Some(i) => {
                proof {
                    let k = choose|k: int| 0 <= k < local.elements@.len() && #[trigger] local.elements@[k].id == id;
                    if k != i {
                        if k < i {
                            assert(local.elements@[k].id.0 < local.elements@[i as int].id.0);
                        } else {
                            assert(local.elements@[i as int].id.0 < local.elements@[k].id.0);
                        }
                    }
                }
                Some(local.elements[i].origin)
            },
            None => None,
        },
        FactKey::Property { element, property } => match find_record(&local.elements, element) {
            Some(i) => {
                assert(local.elements@[i as int].wf());
                match find_slot(&local.elements[i].slots, property) {
                    Some(j) => {
                        proof {
                            let (a, b) = choose|a: int, b: int|
                                0 <= a < local.elements@.len() && #[trigger] local.elements@[a].id == element && 0 <= b
                                    < local.elements@[a].slots@.len() && #[trigger] local.elements@[a].slots@[b].0 == property;
                            if a != i {
                                if a < i {
                                    assert(local.elements@[a].id.0 < local.elements@[i as int].id.0);
                                } else {
                                    assert(local.elements@[i as int].id.0 < local.elements@[a].id.0);
                                }
                            }
                            let slots = local.elements@[i as int].slots@;
                            if b != j {
                                if b < j {
                                    assert(slots[b].0.0 < slots[j as int].0.0);
                                } else {
                                    assert(slots[j as int].0.0 < slots[b].0.0);
                                }
                            }
                        }
                        Some(local.elements[i].slots[j].2)
                    },
                    None => {
                        proof {
                            if exists|a: int, b: int|
                                0 <= a < local.elements@.len() && #[trigger] local.elements@[a].id == element && 0 <= b
                                    < local.elements@[a].slots@.len() && #[trigger] local.elements@[a].slots@[b].0 == property {
                                let (a, b) = choose|a: int, b: int|
                                    0 <= a < local.elements@.len() && #[trigger] local.elements@[a].id == element && 0 <= b
                                        < local.elements@[a].slots@.len() && #[trigger] local.elements@[a].slots@[b].0 == property;
                                if a != i {
                                    if a < i {
                                        assert(local.elements@[a].id.0 < local.elements@[i as int].id.0);
                                    } else {
                                        assert(local.elements@[i as int].id.0 < local.elements@[a].id.0);
                                    }
                                }
                                assert(local.elements@[i as int].slots@[b].0 != property);
                            }
                        }
                        None
                    },
                }
            },
            None => None,
        },
        FactKey::AssociationOccurrence(id) => match find_occurrence(&local.occurrences, id) {
            Some(i) => {
                proof {
                    let k = choose|k: int| 0 <= k < local.occurrences@.len() && #[trigger] local.occurrences@[k].id == id;
                    if k != i {
                        if k < i {
                            assert(local.occurrences@[k].id.0 < local.occurrences@[i as int].id.0);
                        } else {
                            assert(local.occurrences@[i as int].id.0 < local.occurrences@[k].id.0);
                        }
                    }
                }
                Some(local.occurrences[i].origin)
            },
            None => None,
        },
    }
}

impl FacadeMetadata {
    /// The outcome of checking the facade against the restored local graph:
    /// the roots are local elements of the model, every source-map fact is a
    /// local fact declared by this library, and every local fact is mapped.
    /// Facts outside `local` belong to the accepted dependency and never carry
    /// this library's origin.
    pub open spec fn graph_validation(
        &self,
        local: ConstructionView,
        dependency: Set<ElementId>,
        model: Set<ElementId>,
        library: LibraryId,
    ) -> Result<(), SystemsPublicationCacheError> {
        let expected = Origin::Declared(DeclaredOrigin::StandardLibrary { library });
        if (exists|i: int| 0 <= i < self.roots@.len() && (dependency.contains(#[trigger] self.roots@[i]) || !model.contains(self.roots@[i])))
            || (exists|i: int| 0 <= i < self.source_map@.len() && local_fact_origin(local, #[trigger] self.source_map@[i].0) != Some(expected)) {
            Err(SystemsPublicationCacheError::Mismatch("source map graph provenance"))
        } else if exists|f: FactKey| #[trigger] local_fact_origin(local, f) is Some && !map_has_fact(self.source_map@, f) {
            Err(SystemsPublicationCacheError::Mismatch("complete declared source map"))
        } else {
            Ok(())
        }
    }

    /// Check the facade against the restored local graph, whose records and
    /// occurrences are the non-dependency ones, over an ascending source map.
    pub fn validate_graph(
        &self,
        local: &ConstructionView,
        dependency: &ElementSet,
        model: &ElementSet,
        library: LibraryId,
    ) -> (result: Result<(), SystemsPublicationCacheError>)
        requires
            local_graph_wf(*local),
            dependency.wf(),
            model.wf(),
            facts_ascend(self.source_map@),
        ensures
            result == self.graph_validation(*local, dependency@, model@, library),
    {
        let expected = Origin::Declared(DeclaredOrigin::StandardLibrary { library });
        let mut i: usize = 0;
        while i < self.roots.len()
            invariant
                dependency.wf(),
                model.wf(),
                i <= self.roots@.len(),
                forall|k: int| 0 <= k < i ==> !dependency@.contains(#[trigger] self.roots@[k]) && model@.contains(self.roots@[k]),
            decreases self.roots@.len() - i,
        {
            let root = self.roots[i];
            if dependency.contains(root) || !model.contains(root) {
                return Err(SystemsPublicationCacheError::Mismatch("source map graph provenance"));
            }
            i = i + 1;
        }
        let mut k: usize = 0;
        while k < self.source_map.len()
            invariant
                local_graph_wf(*local),
                expected == Origin::Declared(DeclaredOrigin::StandardLibrary { library }),
                k <= self.source_map@.len(),
                forall|i: int| 0 <= i < self.roots@.len() ==> !dependency@.contains(#[trigger] self.roots@[i]) && model@.contains(self.roots@[i]),
                forall|j: int| 0 <= j < k ==> local_fact_origin(*local, #[trigger] self.source_map@[j].0) == Some(expected),
            decreases self.source_map@.len() - k,
        {
            match fact_origin(local, self.source_map[k].0) {
                Some(origin) => {
                    if origin != expected {
                        return Err(SystemsPublicationCacheError::Mismatch("source map graph provenance"));
                    }
                },
                None => {
                    return Err(SystemsPublicationCacheError::Mismatch("source map graph provenance"));
                },
            }
            k = k + 1;
        }
        let result = self.check_local_facts_mapped(local);
        proof {
            assert(!(exists|i: int| 0 <= i < self.roots@.len() && (dependency@.contains(#[trigger] self.roots@[i]) || !model@.contains(self.roots@[i]))));
            assert(!(exists|i: int| 0 <= i < self.source_map@.len() && local_fact_origin(*local, #[trigger] self.source_map@[i].0) != Some(expected)));
        }
        result
    }

    fn check_local_facts_mapped(&self, local: &ConstructionView) -> (result: Result<(), SystemsPublicationCacheError>)
        requires
            local_graph_wf(*local),
            facts_ascend(self.source_map@),
        ensures
            result == (if exists|f: FactKey| #[trigger] local_fact_origin(*local, f) is Some && !map_has_fact(self.source_map@, f) {
                Err(SystemsPublicationCacheError::Mismatch("complete declared source map"))
            } else {
                Ok(())
            }),
    {
        let mut i: usize = 0;
        while i < local.elements.len()
            invariant
                local_graph_wf(*local),
                facts_ascend(self.source_map@),
                i <= local.elements@.len(),
                forall|a: int| 0 <= a < i ==> map_has_fact(self.source_map@, FactKey::Element(#[trigger] local.elements@[a].id)),
                forall|a: int, b: int|
                    0 <= a < i && 0 <= b < local.elements@[a].slots@.len() ==> map_has_fact(
                        self.source_map@,
                        FactKey::Property { element: local.elements@[a].id, property: #[trigger] local.elements@[a].slots@[b].0 },
                    ),
            decreases local.elements@.len() - i,
        {
            let record = &local.elements[i];
            if !map_contains(&self.source_map, FactKey::Element(record.id)) {
                proof {
                    assert(local_fact_origin(*local, FactKey::Element(record.id)) is Some);
                }
                return Err(SystemsPublicationCacheError::Mismatch("complete declared source map"));
            }
            let mut j: usize = 0;
            while j < record.slots.len()
                invariant
                    local_graph_wf(*local),
                    facts_ascend(self.source_map@),
                    i < local.elements@.len(),
                    record == local.elements@[i as int],
                    j <= record.slots@.len(),
                    forall|b: int| 0 <= b < j ==> map_has_fact(
                        self.source_map@,
                        FactKey::Property { element: record.id, property: #[trigger] record.slots@[b].0 },
                    ),
                decreases record.slots@.len() - j,
            {
                let fact = FactKey::Property { element: record.id, property: record.slots[j].0 };
                if !map_contains(&self.source_map, fact) {
                    proof {
                        assert(local.elements@[i as int].id == record.id);
                        assert(local.elements@[i as int].slots@[j as int].0 == record.slots@[j as int].0);
                        assert(local_fact_origin(*local, fact) is Some);
                    }
                    return Err(SystemsPublicationCacheError::Mismatch("complete declared source map"));
                }
                j = j + 1;
            }
            i = i + 1;
        }
        let mut k: usize = 0;
        while k < local.occurrences.len()
            invariant
                local_graph_wf(*local),
                facts_ascend(self.source_map@),
                k <= local.occurrences@.len(),
                forall|a: int| 0 <= a < local.elements@.len() ==> map_has_fact(self.source_map@, FactKey::Element(#[trigger] local.elements@[a].id)),
                forall|a: int, b: int|
                    0 <= a < local.elements@.len() && 0 <= b < local.elements@[a].slots@.len() ==> map_has_fact(
                        self.source_map@,
                        FactKey::Property { element: local.elements@[a].id, property: #[trigger] local.elements@[a].slots@[b].0 },
                    ),
                forall|c: int| 0 <= c < k ==> map_has_fact(self.source_map@, FactKey::AssociationOccurrence(#[trigger] local.occurrences@[c].id)),
            decreases local.occurrences@.len() - k,
        {
            let fact = FactKey::AssociationOccurrence(local.occurrences[k].id);
            if !map_contains(&self.source_map, fact) {
                proof {
                    assert(local_fact_origin(*local, fact) is Some);
                }
                return Err(SystemsPublicationCacheError::Mismatch("complete declared source map"));
            }
            k = k + 1;
        }
        proof {
            assert forall|f: FactKey| #[trigger] local_fact_origin(*local, f) is Some implies map_has_fact(self.source_map@, f) by {
                match f {
                    FactKey::Element(id) => {
                        let a = choose|a: int| 0 <= a < local.elements@.len() && #[trigger] local.elements@[a].id == id;
                    },
                    FactKey::Property { element, property } => {
                        let (a, b) = choose|a: int, b: int|
                            0 <= a < local.elements@.len() && #[trigger] local.elements@[a].id == element && 0 <= b
                                < local.elements@[a].slots@.len() && #[trigger] local.elements@[a].slots@[b].0 == property;
                    },
                    FactKey::AssociationOccurrence(id) => {
                        let c = choose|c: int| 0 <= c < local.occurrences@.len() && #[trigger] local.occurrences@[c].id == id;
                    },
                }
            }
        }
        Ok(())
    }
}

/// The document population of a candidate is exact: as many statuses as
/// verified SysML sources, the expected number of each, with the same identities.
pub open spec fn document_population_exact(docs: Seq<DocumentMetadata>, sources: Seq<VerifiedSource>) -> bool {
    &&& docs.len() == SYSTEMS_DOCUMENTS
    &&& sources.len() == SYSTEMS_DOCUMENTS
    &&& Set::new(|d: DocumentId| exists|i: int| 0 <= i < docs.len() && (#[trigger] docs[i]).document == d)
        == Set::new(|d: DocumentId| exists|i: int| 0 <= i < sources.len() && (#[trigger] sources[i]).document == d)
}

/// Why a document status fails: its construction gap, or the strict parse and
/// byte identity in general.
pub open spec fn failure_reason(doc: DocumentMetadata) -> Seq<char> {
    match doc.construction_gap {
        Some(gap) => gap@,
        None => "strict operational parse or original byte identity failed"@,
    }
}

/// Path and reason of each failing document status, in order.
pub open spec fn failed_documents(docs: Seq<DocumentMetadata>, sources: Seq<VerifiedSource>, profile_id: Seq<char>) -> Seq<
    (Seq<char>, Seq<char>),
>
    decreases docs.len(),
{
    if docs.len() == 0 {
        Seq::empty()
    } else {
        let rest = failed_documents(docs.drop_last(), sources, profile_id);
        if FacadeMetadata::document_ok(docs.last(), sources, profile_id) {
            rest
        } else {
            rest.push((docs.last().path@, failure_reason(docs.last())))
        }
    }
}

/// How many document statuses are exact.
pub open spec fn exact_documents(docs: Seq<DocumentMetadata>, sources: Seq<VerifiedSource>, profile_id: Seq<char>) -> nat
    decreases docs.len(),
{
    if docs.len() == 0 {
        0
    } else {
        exact_documents(docs.drop_last(), sources, profile_id) + if FacadeMetadata::document_ok(docs.last(), sources, profile_id) {
            1nat
        } else {
            0nat
        }
    }
}

/// The path and reason of a document finding.
pub open spec fn document_finding(f: SystemsPublicationFinding) -> Option<(Seq<char>, Seq<char>)> {
    match f {
        SystemsPublicationFinding::Document { path, reason } => Some((path@, reason@)),
        _ => None,
    }
}

proof fn lemma_exact_documents_bound(docs: Seq<DocumentMetadata>, sources: Seq<VerifiedSource>, profile_id: Seq<char>)
    ensures
        exact_documents(docs, sources, profile_id) <= docs.len(),
    decreases docs.len(),
{
    if docs.len() > 0 {
        lemma_exact_documents_bound(docs.drop_last(), sources, profile_id);
    }
}

fn document_population_exec(docs: &Vec<DocumentMetadata>, sources: &[VerifiedSource]) -> (exact: bool)
    requires
        source_ids_distinct(sources@),
    ensures
        exact == document_population_exact(docs@, sources@),
{
    if docs.len() != SYSTEMS_DOCUMENTS || sources.len() != SYSTEMS_DOCUMENTS {
        return false;
    }
    let ghost persisted = Set::new(|d: DocumentId| exists|i: int| 0 <= i < docs@.len() && (#[trigger] docs@[i]).document == d);
    let ghost verified = Set::new(|d: DocumentId| exists|i: int| 0 <= i < sources@.len() && (#[trigger] sources@[i]).document == d);
    let mut i: usize = 0;
    while i < docs.len()
        invariant
            source_ids_distinct(sources@),
            persisted == Set::new(|d: DocumentId| exists|i: int| 0 <= i < docs@.len() && (#[trigger] docs@[i]).document == d),
            verified == Set::new(|d: DocumentId| exists|i: int| 0 <= i < sources@.len() && (#[trigger] sources@[i]).document == d),
            i <= docs@.len(),
            forall|k: int| 0 <= k < i ==> verified.contains((#[trigger] docs@[k]).document),
        decreases docs@.len() - i,
    {
        match find_source(sources, docs[i].document) {
            Some(k) => {
                assert(verified.contains(sources@[k as int].document));
            },
            None => {
                proof {
                    let d = docs@[i as int].document;
                    assert(persisted.contains(d));
                    if verified.contains(d) {
                        let c = choose|c: int| 0 <= c < sources@.len() && (#[trigger] sources@[c]).document == d;
                        assert(sources@[c].document == d);
                    }
                }
                return false;
            },
        }
        i = i + 1;
    }
    let mut k: usize = 0;
    while k < sources.len()
        invariant
            persisted == Set::new(|d: DocumentId| exists|i: int| 0 <= i < docs@.len() && (#[trigger] docs@[i]).document == d),
            verified == Set::new(|d: DocumentId| exists|i: int| 0 <= i < sources@.len() && (#[trigger] sources@[i]).document == d),
            forall|j: int| 0 <= j < docs@.len() ==> verified.contains((#[trigger] docs@[j]).document),
            k <= sources@.len(),
            forall|j: int| 0 <= j < k ==> persisted.contains((#[trigger] sources@[j]).document),
        decreases sources@.len() - k,
    {
        let id = sources[k].document;
        let mut found = false;
        let mut i: usize = 0;
        while i < docs.len()
            invariant
                persisted == Set::new(|d: DocumentId| exists|i: int| 0 <= i < docs@.len() && (#[trigger] docs@[i]).document == d),
                k < sources@.len(),
                id == sources@[k as int].document,
                i <= docs@.len(),
                found ==> persisted.contains(id),
                !found ==> forall|j: int| 0 <= j < i ==> (#[trigger] docs@[j]).document != id,
            decreases docs@.len() - i,
        {
            if docs[i].document == id {
                found = true;
                assert(persisted.contains(docs@[i as int].document));
            }
            i = i + 1;
        }
        if !found {
            proof {
                assert(verified.contains(id));
                assert(!persisted.contains(id));
            }
            return false;
        }
        k = k + 1;
    }
    proof {
        assert(persisted =~= verified);
    }
    true
}

/// Audit a candidate's document statuses against the verified SysML sources:
/// the population must be exact, and each exact status counts once for syntax
/// and once for canonical lowering; any other status is a document finding.
pub fn audit_input_documents(
    docs: &Vec<DocumentMetadata>,
    sources: &[VerifiedSource],
    profile_id: &str,
    audit: &mut SystemsPublicationAudit,
)
    requires
        old(audit).wf(),
        source_ids_distinct(sources@),
        (match old(audit).checked.count(SystemsPublicationFamily::Syntax) {
            Some(c) => c as int,
            None => 0,
        }) + docs@.len() <= usize::MAX,
        (match old(audit).checked.count(SystemsPublicationFamily::CanonicalLowering) {
            Some(c) => c as int,
            None => 0,
        }) + docs@.len() <= usize::MAX,
    ensures
        final(audit).wf(),
        final(audit).mandatory_references == old(audit).mandatory_references,
        final(audit).complete_references == old(audit).complete_references,
        ({
            let base = old(audit).findings@.len() + if document_population_exact(docs@, sources@) { 0int } else { 1int };
            let failed = failed_documents(docs@, sources@, profile_id@);
            &&& final(audit).findings@.len() == base + failed.len()
            &&& forall|i: int| 0 <= i < old(audit).findings@.len() ==> final(audit).findings@[i] == old(audit).findings@[i]
            &&& !document_population_exact(docs@, sources@) ==> final(audit).findings@[old(audit).findings@.len() as int]
                == SystemsPublicationFinding::Identity("exact 21 Systems documents")
            &&& forall|j: int| 0 <= j < failed.len() ==> document_finding(#[trigger] final(audit).findings@[base + j]) == Some(
                failed[j],
            )
        }),
        final(audit).checked.count(SystemsPublicationFamily::Syntax) == bumped(
            old(audit).checked.count(SystemsPublicationFamily::Syntax),
            exact_documents(docs@, sources@, profile_id@),
        ),
        final(audit).checked.count(SystemsPublicationFamily::CanonicalLowering) == bumped(
            old(audit).checked.count(SystemsPublicationFamily::CanonicalLowering),
            exact_documents(docs@, sources@, profile_id@),
        ),
        forall|f: SystemsPublicationFamily|
            f != SystemsPublicationFamily::Syntax && f != SystemsPublicationFamily::CanonicalLowering
                ==> #[trigger] final(audit).checked.count(f) == old(audit).checked.count(f),
{
    let ghost start = *audit;
    if !document_population_exec(docs, sources) {
        audit.findings.push(SystemsPublicationFinding::Identity("exact 21 Systems documents"));
    }
    let ghost base = audit.findings@.len();
    let ghost mid = *audit;
    proof {
        lemma_exact_documents_bound(docs@, sources@, profile_id@);
    }
    let mut i: usize = 0;
    while i < docs.len()
        invariant
            audit.wf(),
            source_ids_distinct(sources@),
            i <= docs@.len(),
            base == mid.findings@.len(),
            mid.checked == start.checked,
            mid.findings@.len() == start.findings@.len() + if document_population_exact(docs@, sources@) { 0int } else { 1int },
            forall|k: int| 0 <= k < start.findings@.len() ==> mid.findings@[k] == start.findings@[k],
            !document_population_exact(docs@, sources@) ==> mid.findings@[start.findings@.len() as int]
                == SystemsPublicationFinding::Identity("exact 21 Systems documents"),
            audit.mandatory_references == start.mandatory_references,
            audit.complete_references == start.complete_references,
            (match start.checked.count(SystemsPublicationFamily::Syntax) {
                Some(c) => c as int,
                None => 0,
            }) + docs@.len() <= usize::MAX,
            (match start.checked.count(SystemsPublicationFamily::CanonicalLowering) {
                Some(c) => c as int,
                None => 0,
            }) + docs@.len() <= usize::MAX,
            audit.findings@.len() == base + failed_documents(docs@.subrange(0, i as int), sources@, profile_id@).len(),
            forall|k: int| 0 <= k < base ==> audit.findings@[k] == mid.findings@[k],
            forall|j: int| 0 <= j < failed_documents(docs@.subrange(0, i as int), sources@, profile_id@).len() ==> document_finding(
                #[trigger] audit.findings@[base + j],
            ) == Some(failed_documents(docs@.subrange(0, i as int), sources@, profile_id@)[j]),
            audit.checked.count(SystemsPublicationFamily::Syntax) == bumped(
                start.checked.count(SystemsPublicationFamily::Syntax),
                exact_documents(docs@.subrange(0, i as int), sources@, profile_id@),
            ),
            audit.checked.count(SystemsPublicationFamily::CanonicalLowering) == bumped(
                start.checked.count(SystemsPublicationFamily::CanonicalLowering),
                exact_documents(docs@.subrange(0, i as int), sources@, profile_id@),
            ),
            forall|f: SystemsPublicationFamily|
                f != SystemsPublicationFamily::Syntax && f != SystemsPublicationFamily::CanonicalLowering ==> #[trigger] audit.checked.count(f)
                    == start.checked.count(f),
        decreases docs@.len() - i,
    {
        let ghost prefix = docs@.subrange(0, i as int);
        let ghost next = docs@.subrange(0, i + 1);
        proof {
            assert(next.drop_last() =~= prefix);
            assert(next.last() == docs@[i as int]);
            lemma_exact_documents_bound(prefix, sources@, profile_id@);
        }
        let doc = &docs[i];
        if FacadeMetadata::document_exec(doc, sources, profile_id) {
            audit.checked(SystemsPublicationFamily::Syntax, 1);
            audit.checked(SystemsPublicationFamily::CanonicalLowering, 1);
        } else {
            let reason = match &doc.construction_gap {
                Some(gap) => gap.clone(),
                None => String::from_str("strict operational parse or original byte identity failed"),
            };
            proof {
                reveal_strlit("strict operational parse or original byte identity failed");
            }
            let ghost before = audit.findings@;
            audit.findings.push(SystemsPublicationFinding::Document { path: doc.path.clone(), reason });
            proof {
                let fp = failed_documents(prefix, sources@, profile_id@);
                assert forall|j: int| 0 <= j < fp.len() + 1 implies document_finding(#[trigger] audit.findings@[base + j]) == Some(
                    fp.push((doc.path@, failure_reason(*doc)))[j],
                ) by {
                    if j < fp.len() {
                        assert(audit.findings@[base + j] == before[base + j]);
                    }
                }
            }
        }
        i = i + 1;
    }
    proof {
        assert(docs@.subrange(0, docs@.len() as int) =~= docs@);
    }
}

} // verus!
