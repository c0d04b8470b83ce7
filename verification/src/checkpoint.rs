//! Authentication of a durable source identity checkpoint before its documents
//! are reparsed: format and publication identities, the document population,
//! unique document, syntax and path identities, exact source bytes, and a
//! ledger of identity origins without repeated facts.
use crate::digest::{sha256_digest, sha256_of};
use crate::ids::{DocumentId, FactKey, SourceOrigin, SyntaxNodeId};
use crate::library::LibrarySourceMap;
use crate::source::SourceSemanticCache;
use crate::table::Table;
use vstd::prelude::*;
use vstd::string::*;
use vstd::utf8::*;

verus! {

/// What a source checkpoint or a semantic cache failed to match, or why a
/// compilation cannot be exported as a semantic cache.
#[derive(Clone, Copy, Debug, PartialEq, Eq, Structural)]
pub enum CheckpointMismatch {
    FormatVersion,
    PublicationIdentities,
    SourcePopulation,
    DuplicateDocumentIdentity,
    DuplicateSyntaxIdentity,
    SourceBlob,
    SourceContentDigest,
    DuplicatePathLabel,
    DuplicateIdentityOrigin,
    CacheSourceIdentity,
    CacheArchiveChecksum,
    MissingClosureCertificate,
    NonStrictSourceGraph,
    UnacceptedCacheCandidate,
}

impl CheckpointMismatch {
    /// The part of the checkpoint that did not match.
    pub fn message(&self) -> (text: String)
        ensures
            text@ == match *self {
                CheckpointMismatch::FormatVersion => "format version"@,
                CheckpointMismatch::PublicationIdentities => "accepted publication identities"@,
                CheckpointMismatch::SourcePopulation => "source population"@,
                CheckpointMismatch::DuplicateDocumentIdentity => "duplicate document identity"@,
                CheckpointMismatch::DuplicateSyntaxIdentity => "duplicate syntax identity"@,
                CheckpointMismatch::SourceBlob => "source blob"@,
                CheckpointMismatch::SourceContentDigest => "source content digest"@,
                CheckpointMismatch::DuplicatePathLabel => "duplicate path label"@,
                CheckpointMismatch::DuplicateIdentityOrigin => "duplicate identity origin"@,
                CheckpointMismatch::CacheSourceIdentity => "semantic cache source identity or format"@,
                CheckpointMismatch::CacheArchiveChecksum => "semantic cache archive checksum"@,
                CheckpointMismatch::MissingClosureCertificate => "missing closure certificate"@,
                CheckpointMismatch::NonStrictSourceGraph => "non-strict source graph"@,
                CheckpointMismatch::UnacceptedCacheCandidate => "unaccepted authored cache candidate"@,
            },
    {
        match self {
            CheckpointMismatch::FormatVersion => String::from_str("format version"),
            CheckpointMismatch::PublicationIdentities => String::from_str("accepted publication identities"),
            CheckpointMismatch::SourcePopulation => String::from_str("source population"),
            CheckpointMismatch::DuplicateDocumentIdentity => String::from_str("duplicate document identity"),
            CheckpointMismatch::DuplicateSyntaxIdentity => String::from_str("duplicate syntax identity"),
            CheckpointMismatch::SourceBlob => String::from_str("source blob"),
            CheckpointMismatch::SourceContentDigest => String::from_str("source content digest"),
            CheckpointMismatch::DuplicatePathLabel => String::from_str("duplicate path label"),
            CheckpointMismatch::DuplicateIdentityOrigin => String::from_str("duplicate identity origin"),
            CheckpointMismatch::CacheSourceIdentity => String::from_str("semantic cache source identity or format"),
            CheckpointMismatch::CacheArchiveChecksum => String::from_str("semantic cache archive checksum"),
            CheckpointMismatch::MissingClosureCertificate => String::from_str("missing closure certificate"),
            CheckpointMismatch::NonStrictSourceGraph => String::from_str("non-strict source graph"),
            CheckpointMismatch::UnacceptedCacheCandidate => String::from_str("unaccepted authored cache candidate"),
        }
    }
}

fn same_digest(a: &[u8; 32], b: &[u8; 32]) -> (same: bool)
    ensures
        same == (a@ == b@),
{
    let mut i: usize = 0;
    while i < 32
        invariant
            a@.len() == 32,
            b@.len() == 32,
            i <= 32,
            forall|k: int| 0 <= k < i ==> a@[k] == b@[k],
        decreases 32 - i,
    {
        if a[i] != b[i] {
            return false;
        }
        i = i + 1;
    }
    assert(a@ =~= b@);
    true
}

/// The checks that precede any document: the representation version, the
/// accepted publications it was made against, and one source per document.
pub fn check_checkpoint_header(
    format_version: u32,
    accepted_kerml: &[u8; 32],
    accepted_sysml: &[u8; 32],
    expected_kerml: &[u8; 32],
    expected_sysml: &[u8; 32],
    sources: usize,
    documents: usize,
) -> (result: Result<(), CheckpointMismatch>)
    ensures
        result == (if format_version != 1 {
            Err(CheckpointMismatch::FormatVersion)
        } else if accepted_kerml@ != expected_kerml@ || accepted_sysml@ != expected_sysml@ {
            Err(CheckpointMismatch::PublicationIdentities)
        } else if sources != documents {
            Err(CheckpointMismatch::SourcePopulation)
        } else {
            Ok(())
        }),
{
    if format_version != 1 {
        return Err(CheckpointMismatch::FormatVersion);
    }
    if !same_digest(accepted_kerml, expected_kerml) || !same_digest(accepted_sysml, expected_sysml) {
        return Err(CheckpointMismatch::PublicationIdentities);
    }
    if sources != documents {
        return Err(CheckpointMismatch::SourcePopulation);
    }
    Ok(())
}

/// `nodes` repeat nothing and avoid every identity of `seen`.
pub open spec fn fresh_nodes(seen: Set<SyntaxNodeId>, nodes: Seq<SyntaxNodeId>) -> bool {
    &&& nodes.no_duplicates()
    &&& forall|i: int| 0 <= i < nodes.len() ==> !seen.contains(#[trigger] nodes[i])
}

/// The UTF-8 bytes of a text.
pub open spec fn text_bytes(text: Seq<char>) -> Seq<u8> {
    encode_utf8(text)
}

/// Identities admitted so far while a checkpoint is restored.
#[derive(Debug)]
pub struct RestoredIdentities {
    documents: Table<DocumentId, ()>,
    syntax: Table<SyntaxNodeId, ()>,
    paths: Table<String, ()>,
}

impl RestoredIdentities {
    pub closed spec fn wf(&self) -> bool {
        self.documents.wf() && self.syntax.wf() && self.paths.wf()
    }

    /// Documents admitted so far.
    pub closed spec fn document_ids(&self) -> Set<DocumentId> {
        self.documents@.dom()
    }

    /// Syntax identities admitted so far.
    pub closed spec fn syntax_ids(&self) -> Set<SyntaxNodeId> {
        self.syntax@.dom()
    }

    /// Path labels admitted so far.
    pub closed spec fn path_labels(&self) -> Set<Seq<char>> {
        self.paths@.dom()
    }

    pub fn new() -> (identities: RestoredIdentities)
        ensures
            identities.wf(),
            identities.document_ids() == Set::<DocumentId>::empty(),
            identities.syntax_ids() == Set::<SyntaxNodeId>::empty(),
            identities.path_labels() == Set::<Seq<char>>::empty(),
    {
        RestoredIdentities { documents: Table::new(), syntax: Table::new(), paths: Table::new() }
    }

    /// Admit one saved document before it is reparsed: its identity and its
    /// syntax identities are new, its source blob is present and the blob's
    /// SHA-256 is the saved content digest.
    pub fn admit_document(
        &mut self,
        document: DocumentId,
        syntax_nodes: &Vec<SyntaxNodeId>,
        content_digest: &[u8; 32],
        source: Option<&String>,
    ) -> (result: Result<(), CheckpointMismatch>)
        requires
            old(self).wf(),
        ensures
            final(self).wf(),
            result == (if old(self).document_ids().contains(document) {
                Err(CheckpointMismatch::DuplicateDocumentIdentity)
            } else if !fresh_nodes(old(self).syntax_ids(), syntax_nodes@) {
                Err(CheckpointMismatch::DuplicateSyntaxIdentity)
            } else if source is None {
                Err(CheckpointMismatch::SourceBlob)
            } else if sha256_digest(text_bytes(source.unwrap()@)) != content_digest@ {
                Err(CheckpointMismatch::SourceContentDigest)
            } else {
                Ok(())
            }),
            result is Ok ==> final(self).document_ids() == old(self).document_ids().insert(document)
                && final(self).syntax_ids() == old(self).syntax_ids() + syntax_nodes@.to_set()
                && final(self).path_labels() == old(self).path_labels(),
    {
        if self.documents.insert(document, ()) {
            return Err(CheckpointMismatch::DuplicateDocumentIdentity);
        }
        let ghost seen = self.syntax@.dom();
        let ghost nodes = syntax_nodes@;
        let ghost docs = self.documents@;
        let ghost labels = self.paths@;
        let mut i: usize = 0;
        while i < syntax_nodes.len()
            invariant
                self.syntax.wf(),
                self.documents.wf(),
                self.paths.wf(),
                self.documents@ == docs,
                self.paths@ == labels,
                !old(self).documents@.contains_key(document),
                old(self).syntax@.dom() == seen,
                i <= nodes.len(),
                nodes == syntax_nodes@,
                self.syntax@.dom() == seen + nodes.subrange(0, i as int).to_set(),
                fresh_nodes(seen, nodes.subrange(0, i as int)),
            decreases nodes.len() - i,
        {
            let node = syntax_nodes[i];
            if self.syntax.insert(node, ()) {
                proof {
                    assert(nodes[i as int] == node);
                    if !seen.contains(node) {
                        let prefix = nodes.subrange(0, i as int);
                        assert(prefix.to_set().contains(node));
                        let j = choose|j: int| 0 <= j < prefix.len() && prefix[j] == node;
                        assert(nodes[j] == nodes[i as int] && j != i);
                        assert(!nodes.no_duplicates());
                    } else {
                        assert(seen.contains(nodes[i as int]));
                    }
                    assert(!fresh_nodes(seen, nodes));
                }
                return Err(CheckpointMismatch::DuplicateSyntaxIdentity);
            }
            proof {
                let prefix = nodes.subrange(0, i as int);
                let next = nodes.subrange(0, i + 1);
                assert(next =~= prefix.push(node));
                assert(next.to_set() =~= prefix.to_set().insert(node)) by {
                    prefix.lemma_push_to_set_commute(node);
                }
                assert(self.syntax@.dom() =~= seen + next.to_set());
                assert forall|a: int, b: int| 0 <= a < next.len() && 0 <= b < next.len() && a != b implies next[a]
                    != next[b] by {
                    if a < i && b < i {
                        assert(prefix[a] != prefix[b]);
                    } else if a == i {
                        assert(prefix.to_set().contains(prefix[b]));
                    } else {
                        assert(prefix.to_set().contains(prefix[a]));
                    }
                }
            }
            i = i + 1;
        }
        proof {
            assert(nodes.subrange(0, nodes.len() as int) =~= nodes);
        }
        let text = match source {
            None => {
                return Err(CheckpointMismatch::SourceBlob);
            },
            Some(text) => text,
        };
        let digest = sha256_of(text.as_str().as_bytes());
        if !same_digest(&digest, content_digest) {
            return Err(CheckpointMismatch::SourceContentDigest);
        }
        Ok(())
    }

    /// Admit the path label of a reparsed document; labels never repeat.
    pub fn admit_path(&mut self, path: String) -> (result: Result<(), CheckpointMismatch>)
        requires
            old(self).wf(),
        ensures
            final(self).wf(),
            result == (if old(self).path_labels().contains(path@) {
                Err(CheckpointMismatch::DuplicatePathLabel)
            } else {
                Ok(())
            }),
            result is Ok ==> final(self).path_labels() == old(self).path_labels().insert(path@)
                && final(self).document_ids() == old(self).document_ids() && final(self).syntax_ids()
                == old(self).syntax_ids(),
    {
        if self.paths.insert(path, ()) {
            return Err(CheckpointMismatch::DuplicatePathLabel);
        }
        Ok(())
    }
}

/// The facts of saved identity origins, in order.
pub open spec fn origin_facts(origins: Seq<(FactKey, SourceOrigin)>) -> Seq<FactKey> {
    origins.map_values(|entry: (FactKey, SourceOrigin)| entry.0)
}

/// The origin listed for `fact`, if any.
pub open spec fn listed_origin(origins: Seq<(FactKey, SourceOrigin)>, fact: FactKey) -> Option<SourceOrigin> {
    if exists|i: int| 0 <= i < origins.len() && #[trigger] origins[i].0 == fact {
        Some(origins[listed_index(origins, fact)].1)
    } else {
        None
    }
}

/// A position at which `fact` is listed, when it is.
pub open spec fn listed_index(origins: Seq<(FactKey, SourceOrigin)>, fact: FactKey) -> int {
    choose|i: int| 0 <= i < origins.len() && #[trigger] origins[i].0 == fact
}

/// Listing one more origin of a new fact.
proof fn lemma_listed_origin_push(prefix: Seq<(FactKey, SourceOrigin)>, x: (FactKey, SourceOrigin), f: FactKey)
    requires
        origin_facts(prefix.push(x)).no_duplicates(),
    ensures
        listed_origin(prefix.push(x), f) == if f == x.0 {
            Some(x.1)
        } else {
            listed_origin(prefix, f)
        },
{
    let next = prefix.push(x);
    let facts = origin_facts(next);
    assert forall|i: int| 0 <= i < prefix.len() implies #[trigger] prefix[i] == next[i] by {}
    if f == x.0 {
        assert(next[prefix.len() as int].0 == f);
        let k = listed_index(next, f);
        if k != prefix.len() {
            assert(facts[k] == next[k].0);
            assert(facts[prefix.len() as int] == next[prefix.len() as int].0);
            assert(facts[k] == facts[prefix.len() as int]);
        }
        assert(k == prefix.len());
        assert(listed_origin(next, f) == Some(next[k].1));
        assert(next[k] == x);
    } else {
        if exists|i: int| 0 <= i < prefix.len() && #[trigger] prefix[i].0 == f {
            let j = listed_index(prefix, f);
            assert(next[j].0 == f);
            let k = listed_index(next, f);
            if k != j {
                assert(facts[k] == next[k].0);
                assert(facts[j] == next[j].0);
                assert(facts[k] == facts[j]);
            }
            assert(listed_origin(next, f) == Some(next[k].1));
            assert(listed_origin(prefix, f) == Some(prefix[j].1));
        } else {
            assert(!exists|i: int| 0 <= i < next.len() && #[trigger] next[i].0 == f) by {
                if exists|i: int| 0 <= i < next.len() && #[trigger] next[i].0 == f {
                    let i = choose|i: int| 0 <= i < next.len() && #[trigger] next[i].0 == f;
                    assert(i != prefix.len());
                    assert(prefix[i].0 == f);
                }
            }
        }
    }
}

/// The ledger of saved identity origins, ordered by fact; each fact has one origin.
pub fn identity_ledger(origins: Vec<(FactKey, SourceOrigin)>) -> (result: Result<LibrarySourceMap, CheckpointMismatch>)
    ensures
        result is Ok <==> origin_facts(origins@).no_duplicates(),
        result matches Ok(ledger) ==> ledger.ascending() && ledger.wf() && forall|f: FactKey| #[trigger] ledger.lookup(f)
            == listed_origin(origins@, f),
        result matches Err(e) ==> e == CheckpointMismatch::DuplicateIdentityOrigin,
{
    let mut seen: Table<FactKey, ()> = Table::new();
    let mut i: usize = 0;
    let ghost facts = origin_facts(origins@);
    while i < origins.len()
        invariant
            seen.wf(),
            i <= origins@.len(),
            facts == origin_facts(origins@),
            facts.len() == origins@.len(),
            seen@.dom() == facts.subrange(0, i as int).to_set(),
            facts.subrange(0, i as int).no_duplicates(),
        decreases origins@.len() - i,
    {
        let fact = origins[i].0;
        assert(facts[i as int] == fact);
        if seen.insert(fact, ()) {
            proof {
                let prefix = facts.subrange(0, i as int);
                assert(prefix.to_set().contains(fact));
                let j = choose|j: int| 0 <= j < prefix.len() && prefix[j] == fact;
                assert(facts[j] == facts[i as int]);
            }
            return Err(CheckpointMismatch::DuplicateIdentityOrigin);
        }
        proof {
            let prefix = facts.subrange(0, i as int);
            let next = facts.subrange(0, i + 1);
            assert(next =~= prefix.push(fact));
            prefix.lemma_push_to_set_commute(fact);
            assert(seen@.dom() =~= next.to_set());
            assert forall|a: int, b: int| 0 <= a < next.len() && 0 <= b < next.len() && a != b implies next[a]
                != next[b] by {
                if a < i && b < i {
                    assert(prefix[a] != prefix[b]);
                } else if a == i {
                    assert(prefix.to_set().contains(prefix[b]));
                } else {
                    assert(prefix.to_set().contains(prefix[a]));
                }
            }
        }
        i = i + 1;
    }
    proof {
        assert(facts.subrange(0, facts.len() as int) =~= facts);
    }
    let mut ledger = LibrarySourceMap { entries: Vec::new() };
    let mut k: usize = 0;
    while k < origins.len()
        invariant
            k <= origins@.len(),
            facts == origin_facts(origins@),
            facts.no_duplicates(),
            ledger.ascending(),
            forall|f: FactKey| #[trigger] ledger.lookup(f) == listed_origin(origins@.subrange(0, k as int), f),
        decreases origins@.len() - k,
    {
        let (fact, origin) = origins[k];
        let ghost prefix = origins@.subrange(0, k as int);
        proof {
            assert(origins@.subrange(0, k + 1) =~= prefix.push((fact, origin)));
            let sub = facts.subrange(0, k + 1);
            assert(origin_facts(prefix.push((fact, origin))) =~= sub);
            assert forall|a: int, b: int| 0 <= a < sub.len() && 0 <= b < sub.len() && a != b implies #[trigger] sub[a] != #[trigger] sub[b] by {
                assert(facts[a] != facts[b]);
            }
        }
        ledger.insert_ordered(fact, origin);
        proof {
            assert forall|f: FactKey| #[trigger] ledger.lookup(f) == listed_origin(origins@.subrange(0, k + 1), f) by {
                lemma_listed_origin_push(prefix, (fact, origin), f);
            }
        }
        k = k + 1;
    }
    proof {
        assert(origins@.subrange(0, origins@.len() as int) =~= origins@);
        ledger.lemma_ascending_wf();
    }
    Ok(ledger)
}

impl SourceSemanticCache {
    /// Before a cached restore: the cache is of the current format, belongs to
    /// the checkpoint whose identity digest is given, and its frontier archive
    /// still has its recorded SHA-256.
    pub fn check_restorable(&self, source_identity_digest: &[u8; 32]) -> (result: Result<(), CheckpointMismatch>)
        ensures
            result == (if self.format_version != 1 || self.source_identity_digest@ != source_identity_digest@ {
                Err(CheckpointMismatch::CacheSourceIdentity)
            } else if sha256_digest(self.kernel_frontier@) != self.kernel_frontier_digest@ {
                Err(CheckpointMismatch::CacheArchiveChecksum)
            } else {
                Ok(())
            }),
    {
        if self.format_version != 1 || !same_digest(&self.source_identity_digest, source_identity_digest) {
            return Err(CheckpointMismatch::CacheSourceIdentity);
        }
        let digest = sha256_of(self.kernel_frontier.as_slice());
        if !same_digest(&digest, &self.kernel_frontier_digest) {
            return Err(CheckpointMismatch::CacheArchiveChecksum);
        }
        Ok(())
    }
}

} // verus!
