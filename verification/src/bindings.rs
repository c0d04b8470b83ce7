//! Source identities of accepted bindings. Every bound element of an accepted
//! publication is traced to its recorded origin and to the verified source
//! document it came from, whose revision and library must be the bound ones.
use crate::corrections::{LibraryLoadError, LoadErrorView};
use crate::ids::{DocumentId, ElementId, FactKey, LibraryId, SourceOrigin, SourceRevisionId};
use crate::json::{json_eq, json_equal, json_wf, lemma_json_eq_reflexive, JsonValue};
use crate::library::LibrarySourceMap;
use vstd::prelude::*;
use vstd::string::*;

verus! {

/// A verified source document, as far as binding identities read it.
#[derive(Debug)]
pub struct BindingDocument {
    pub document: DocumentId,
    pub revision: SourceRevisionId,
    pub library: LibraryId,
}

/// Binding sources must identify this accepted publication.
pub fn check_binding_sources(same_content_set: bool) -> (result: Result<(), LibraryLoadError>)
    ensures
        result is Ok <==> same_content_set,
        result matches Err(e) ==> e@ == LoadErrorView::Interpretation(
            "Binding sources do not identify this accepted publication"@,
        ),
{
    if !same_content_set {
        return Err(LibraryLoadError::Interpretation(
            String::from_str("Binding sources do not identify this accepted publication"),
        ));
    }
    Ok(())
}

/// The position of the first document with identity `id`, if any.
pub open spec fn first_document(documents: Seq<BindingDocument>, id: DocumentId) -> Option<int> {
    if exists|i: int| 0 <= i < documents.len() && #[trigger] documents[i].document == id {
        Some(choose|i: int| 0 <= i < documents.len() && #[trigger] documents[i].document == id && forall|j: int| 0 <= j < i ==> documents[j].document != id)
    } else {
        None
    }
}

/// What tracing the bound element `target` of `role` gives.
pub open spec fn binding_source_outcome(
    role: Seq<char>,
    target: ElementId,
    bound_library: LibraryId,
    source_map: LibrarySourceMap,
    documents: Seq<BindingDocument>,
) -> Result<(SourceOrigin, int), LoadErrorView> {
    match source_map.lookup(FactKey::Element(target)) {
        None => Err(LoadErrorView::Interpretation("Missing accepted source for "@ + role)),
        Some(origin) => match first_document(documents, origin.document) {
            None => Err(LoadErrorView::Interpretation("Missing source document for "@ + role)),
            Some(i) => if documents[i].revision != origin.revision || documents[i].library != bound_library {
                Err(LoadErrorView::Interpretation("Accepted source identity mismatch for "@ + role))
            } else {
                Ok((origin, i))
            },
        },
    }
}

fn role_error(prefix: &str, role: &str) -> (e: LibraryLoadError)
    ensures
        e@ == LoadErrorView::Interpretation(prefix@ + role@),
{
    let mut message = String::from_str(prefix);
    message.append(role);
    LibraryLoadError::Interpretation(message)
}

/// Trace the bound element `target` of `role` to its origin and the position
/// of its verified source document.
pub fn binding_source(
    role: &str,
    target: ElementId,
    bound_library: LibraryId,
    source_map: &LibrarySourceMap,
    documents: &Vec<BindingDocument>,
) -> (result: Result<(SourceOrigin, usize), LibraryLoadError>)
    requires
        source_map.wf(),
    ensures
        match binding_source_outcome(role@, target, bound_library, *source_map, documents@) {
            Ok((origin, i)) => result matches Ok((o, j)) && o == origin && j == i,
            Err(e) => result matches Err(f) && f@ == e,
        },
{
    let origin = match source_map.get(FactKey::Element(target)) {
        None => {
            return Err(role_error("Missing accepted source for ", role));
        },
        Some(origin) => origin,
    };
    let mut i: usize = 0;
    while i < documents.len()
        invariant
            i <= documents@.len(),
            source_map.lookup(FactKey::Element(target)) == Some(origin),
            forall|j: int| 0 <= j < i ==> documents@[j].document != origin.document,
        decreases documents@.len() - i,
    {
        if documents[i].document.0 == origin.document.0 {
            proof {
                assert(documents@[i as int].document == origin.document);
                let k = choose|k: int|
                    0 <= k < documents@.len() && #[trigger] documents@[k].document == origin.document && forall|j: int|
                        0 <= j < k ==> documents@[j].document != origin.document;
                if k < i {
                } else if k > i {
                    assert(documents@[i as int].document != origin.document);
                }
                assert(first_document(documents@, origin.document) == Some(i as int));
            }
            let d = &documents[i];
            if d.revision.0 != origin.revision.0 || d.library.0 != bound_library.0 {
                return Err(role_error("Accepted source identity mismatch for ", role));
            }
            return Ok((origin, i));
        }
        i = i + 1;
    }
    Err(role_error("Missing source document for ", role))
}

/// An accepted binding manifest must equal the one the publication generates,
/// structurally: member order and line endings are not semantic.
pub fn check_binding_manifest(generated: &JsonValue, candidate: &JsonValue) -> (result: Result<(), LibraryLoadError>)
    requires
        json_wf(*generated),
        json_wf(*candidate),
    ensures
        result is Ok <==> json_eq(*generated, *candidate),
        result matches Err(e) ==> e@ == LoadErrorView::Interpretation("Accepted KerML binding manifest is stale"@),
{
    if !json_equal(generated, candidate) {
        return Err(LibraryLoadError::Interpretation(String::from_str("Accepted KerML binding manifest is stale")));
    }
    Ok(())
}


/// The manifest a publication generates passes its own currency check: the
/// check accepts exactly the structural equals of the generated manifest,
/// and every well-formed manifest is structurally equal to itself.
pub proof fn law_generated_manifest_is_current(generated: JsonValue)
    requires
        json_wf(generated),
    ensures
        json_eq(generated, generated),
{
    lemma_json_eq_reflexive(generated);
}

} // verus!
