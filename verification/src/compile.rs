//! The decisions of an authored compilation around source preparation: whose
//! history it may continue, which documents are left out of lowering and why,
//! whether the result is a strict graph, which identity origins are recorded,
//! and the work it reports.
use crate::corrections::{LibraryLoadError, LoadErrorView};
use crate::ids::{DocumentId, FactKey, ProjectId, SourceOrigin, SourceRevisionId};
use crate::library::LibrarySourceMap;
use crate::source::{CompilationWork, DocumentStatus};
use crate::table::Table;
use vstd::prelude::*;
use vstd::string::*;

verus! {

/// A compilation continues only a history of its own project over the same
/// accepted dependency. `previous` gives the earlier compilation's project and
/// whether it shares this dependency.
pub fn check_history(project: ProjectId, previous: Option<(ProjectId, bool)>) -> (result: Result<(), LibraryLoadError>)
    ensures
        result is Ok <==> (previous matches Some((p, same)) ==> p == project && same),
        result matches Err(e) ==> e@ == LoadErrorView::Interpretation("foreign source compilation history"@),
{
    match previous {
        Some((p, same)) => if p.0 != project.0 || !same {
            return Err(LibraryLoadError::Interpretation(String::from_str("foreign source compilation history")));
        },
        None => {},
    }
    Ok(())
}

/// One input document as the compilation sees it.
#[derive(Clone, Copy, Debug, PartialEq, Eq, Structural)]
pub struct InputDocument {
    pub id: DocumentId,
    pub revision: SourceRevisionId,
    pub status: DocumentStatus,
}

/// A document left out of lowering because it did not parse cleanly.
#[derive(Clone, Copy, Debug, PartialEq, Eq, Structural)]
pub struct SyntaxDiagnostic {
    pub document: DocumentId,
    pub revision: SourceRevisionId,
    pub status: DocumentStatus,
}

/// The syntax diagnostics of the documents that did not parse cleanly, in order.
pub open spec fn syntax_diagnostics(documents: Seq<InputDocument>) -> Seq<SyntaxDiagnostic>
    decreases documents.len(),
{
    if documents.len() == 0 {
        Seq::empty()
    } else {
        let rest = syntax_diagnostics(documents.drop_last());
        let d = documents.last();
        if d.status != DocumentStatus::Parsed {
            rest.push(SyntaxDiagnostic { document: d.id, revision: d.revision, status: d.status })
        } else {
            rest
        }
    }
}

/// Whether some document of `documents` with identity `id` did not parse cleanly.
pub open spec fn unparsed(documents: Seq<InputDocument>, id: DocumentId) -> bool {
    exists|i: int| 0 <= i < documents.len() && #[trigger] documents[i].id == id && documents[i].status != DocumentStatus::Parsed
}

/// Documents left out of lowering.
#[derive(Debug)]
pub struct Omissions {
    omitted: Table<DocumentId, ()>,
}

impl Omissions {
    pub closed spec fn wf(&self) -> bool {
        self.omitted.wf()
    }

    /// The omitted documents.
    pub closed spec fn documents(&self) -> Set<DocumentId> {
        self.omitted@.dom()
    }

    /// Omit every document that did not parse cleanly, with its diagnostic.
    pub fn unparsed(documents: &Vec<InputDocument>) -> (result: (Omissions, Vec<SyntaxDiagnostic>))
        ensures
            result.0.wf(),
            forall|id: DocumentId| #[trigger] result.0.documents().contains(id) == unparsed(documents@, id),
            result.1@ == syntax_diagnostics(documents@),
    {
        let mut omitted: Table<DocumentId, ()> = Table::new();
        let mut diagnostics: Vec<SyntaxDiagnostic> = Vec::new();
        let mut i: usize = 0;
        while i < documents.len()
            invariant
                omitted.wf(),
                i <= documents@.len(),
                forall|id: DocumentId| #[trigger] omitted@.dom().contains(id) == unparsed(documents@.subrange(0, i as int), id),
                diagnostics@ == syntax_diagnostics(documents@.subrange(0, i as int)),
            decreases documents@.len() - i,
        {
            let d = documents[i];
            let ghost prefix = documents@.subrange(0, i as int);
            let ghost next = documents@.subrange(0, i + 1);
            proof {
                assert(next.drop_last() =~= prefix);
                assert(next.last() == d);
            }
            let clean = match d.status {
                DocumentStatus::Parsed => true,
                _ => false,
            };
            if !clean {
                omitted.insert(d.id, ());
                diagnostics.push(SyntaxDiagnostic { document: d.id, revision: d.revision, status: d.status });
            }
            proof {
                assert forall|id: DocumentId| #[trigger] omitted@.dom().contains(id) == unparsed(next, id) by {
                    if unparsed(prefix, id) {
                        let j = choose|j: int| 0 <= j < prefix.len() && #[trigger] prefix[j].id == id && prefix[j].status != DocumentStatus::Parsed;
                        assert(next[j] == prefix[j]);
                    }
                    if unparsed(next, id) {
                        let j = choose|j: int| 0 <= j < next.len() && #[trigger] next[j].id == id && next[j].status != DocumentStatus::Parsed;
                        if j < i {
                            assert(prefix[j] == next[j]);
                        }
                    }
                    if !clean && id == d.id {
                        assert(next[i as int].id == id);
                    }
                }
            }
            i = i + 1;
        }
        proof {
            assert(documents@.subrange(0, documents@.len() as int) =~= documents@);
        }
        (Omissions { omitted }, diagnostics)
    }

    /// Preparation refused a construct of `document`: omit the document and
    /// retry, unless it was omitted already, in which case the refusal stands.
    pub fn omit_unsupported(&mut self, document: DocumentId) -> (retry: bool)
        requires
            old(self).wf(),
        ensures
            final(self).wf(),
            retry == !old(self).documents().contains(document),
            final(self).documents() == old(self).documents().insert(document),
    {
        let existed = self.omitted.insert(document, ());
        proof {
            assert(self.omitted@.dom() =~= old(self).omitted@.dom().insert(document));
        }
        !existed
    }

    /// Whether `document` still takes part in lowering.
    pub fn includes(&self, document: DocumentId) -> (included: bool)
        requires
            self.wf(),
        ensures
            included == !self.documents().contains(document),
    {
        !self.omitted.contains(&document)
    }

    /// With any document omitted, the project root stays pending.
    pub fn root_pending(&self) -> (pending: bool)
        requires
            self.wf(),
        ensures
            pending == (self.documents() != Set::<DocumentId>::empty()),
    {
        proof {
            self.omitted.lemma_keys();
        }
        if self.omitted.len() == 0 {
            proof {
                assert(self.documents() =~= Set::<DocumentId>::empty());
            }
            false
        } else {
            proof {
                assert(self.documents().contains(self.omitted.key_at(0)));
            }
            true
        }
    }
}

/// The shape of a compiled result.
#[derive(Clone, Copy, Debug, PartialEq, Eq, Structural)]
pub enum FrontierKind {
    /// Declarations are complete and validated.
    Strict,
    /// A construction draft with pending references or open obligations.
    Construction,
}

/// A result is strict exactly when nothing is pending and construction left no
/// obligation; a semantic cache can only be restored onto a strict result.
pub fn choose_frontier(pending_empty: bool, obligations_empty: bool, semantic_cache: bool) -> (result: Result<
    FrontierKind,
    LibraryLoadError,
>)
    ensures
        pending_empty && obligations_empty ==> result matches Ok(FrontierKind::Strict),
        !(pending_empty && obligations_empty) && !semantic_cache ==> result matches Ok(FrontierKind::Construction),
        !(pending_empty && obligations_empty) && semantic_cache ==> (result matches Err(e) && e@
            == LoadErrorView::Interpretation("semantic cache requires strict source declarations"@)),
{
    if pending_empty && obligations_empty {
        Ok(FrontierKind::Strict)
    } else if semantic_cache {
        Err(LibraryLoadError::Interpretation(String::from_str("semantic cache requires strict source declarations")))
    } else {
        Ok(FrontierKind::Construction)
    }
}

/// Records and association occurrences carry identity origins; properties do not.
pub open spec fn identity_fact(fact: FactKey) -> bool {
    fact is Element || fact is AssociationOccurrence
}

/// Record the origins of the records and occurrences that a preparation
/// declared, over the earlier ledger, keeping it in fact order.
pub fn record_declared_origins(ledger: &mut LibrarySourceMap, source_map: &LibrarySourceMap)
    requires
        old(ledger).ascending(),
        source_map.wf(),
    ensures
        final(ledger).ascending(),
        final(ledger).wf(),
        forall|f: FactKey| #[trigger] final(ledger).lookup(f) == if identity_fact(f) && source_map.lookup(f) is Some {
            source_map.lookup(f)
        } else {
            old(ledger).lookup(f)
        },
{
    let ghost start = *ledger;
    let mut i: usize = 0;
    while i < source_map.entries.len()
        invariant
            ledger.ascending(),
            source_map.wf(),
            start == *old(ledger),
            i <= source_map.entries@.len(),
            forall|f: FactKey| #[trigger] ledger.lookup(f) == if identity_fact(f) && (exists|j: int|
                0 <= j < i && source_map.entries@[j].0 == f) {
                source_map.lookup(f)
            } else {
                start.lookup(f)
            },
        decreases source_map.entries@.len() - i,
    {
        let (fact, origin) = source_map.entries[i];
        proof {
            source_map.lemma_lookup_at(i as int);
        }
        let ghost before = *ledger;
        let identity = match fact {
            FactKey::Element(_) | FactKey::AssociationOccurrence(_) => true,
            FactKey::Property { .. } => false,
        };
        if identity {
            ledger.insert_ordered(fact, origin);
        }
        proof {
            assert forall|f: FactKey| #[trigger] ledger.lookup(f) == if identity_fact(f) && (exists|j: int|
                0 <= j < i + 1 && source_map.entries@[j].0 == f) {
                source_map.lookup(f)
            } else {
                start.lookup(f)
            } by {
                let seen_before = exists|j: int| 0 <= j < i && source_map.entries@[j].0 == f;
                let seen_now = exists|j: int| 0 <= j < i + 1 && source_map.entries@[j].0 == f;
                assert(before.lookup(f) == ledger.lookup(f) || f == fact);
                if f != fact {
                    if seen_now {
                        let j = choose|j: int| 0 <= j < i + 1 && source_map.entries@[j].0 == f;
                        assert(j != i);
                        assert(seen_before);
                    }
                } else {
                    assert(source_map.entries@[i as int].0 == f);
                    assert(seen_now);
                }
            }
        }
        i = i + 1;
    }
    proof {
        ledger.lemma_ascending_wf();
        assert forall|f: FactKey| #[trigger] ledger.lookup(f) == if identity_fact(f) && source_map.lookup(f) is Some {
            source_map.lookup(f)
        } else {
            start.lookup(f)
        } by {
            let seen = exists|j: int| 0 <= j < source_map.entries@.len() && source_map.entries@[j].0 == f;
            if seen {
                let j = choose|j: int| 0 <= j < source_map.entries@.len() && source_map.entries@[j].0 == f;
                source_map.lemma_lookup_at(j);
            }
        }
    }
}

impl CompilationWork {
    /// The work of one compilation: preparatory and final producer subjects
    /// add up, and the audit evaluated the subjects it did not reuse.
    pub fn measured(
        semantic_cache_used: bool,
        documents_reparsed: usize,
        documents_lowered: usize,
        lowering_cache_hits: usize,
        records_lowered: usize,
        records_rebuilt: usize,
        records_reused: usize,
        preparatory_producer_subjects: usize,
        final_producer_subjects: Option<usize>,
        audit_subjects: usize,
        audit_subjects_reused: usize,
        audit_checks_reused: usize,
    ) -> (work: CompilationWork)
        requires
            audit_subjects_reused <= audit_subjects,
            preparatory_producer_subjects + match final_producer_subjects {
                Some(n) => n as int,
                None => 0,
            } <= usize::MAX,
        ensures
            work.semantic_cache_used == semantic_cache_used,
            work.documents_reparsed == documents_reparsed,
            work.documents_lowered == documents_lowered,
            work.lowering_cache_hits == lowering_cache_hits,
            work.records_lowered == records_lowered,
            work.records_rebuilt == records_rebuilt,
            work.records_reused == records_reused,
            work.producer_subjects_evaluated == preparatory_producer_subjects + match final_producer_subjects {
                Some(n) => n as int,
                None => 0,
            },
            work.effective_audit_subjects_evaluated == audit_subjects - audit_subjects_reused,
            work.effective_audit_subjects_reused == audit_subjects_reused,
            work.effective_audit_checks_reused == audit_checks_reused,
    {
        let final_subjects = match final_producer_subjects {
            Some(n) => n,
            None => 0,
        };
        CompilationWork {
            semantic_cache_used,
            documents_reparsed,
            documents_lowered,
            lowering_cache_hits,
            records_lowered,
            records_rebuilt,
            records_reused,
            producer_subjects_evaluated: preparatory_producer_subjects + final_subjects,
            effective_audit_subjects_evaluated: audit_subjects - audit_subjects_reused,
            effective_audit_subjects_reused: audit_subjects_reused,
            effective_audit_checks_reused: audit_checks_reused,
        }
    }
}

} // verus!
