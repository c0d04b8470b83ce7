//! The first refusals of a Systems library preparation: its sources must be the
//! very source set of the accepted KerML publication, and a slice must name a
//! nonempty set of exact pinned SysML document paths.
use crate::corrections::{LibraryLoadError, LoadErrorView};
use crate::source::SourceLanguage;
use crate::text::text_eq;
use vstd::prelude::*;
use vstd::string::*;

verus! {

/// One verified library source as the preparation sees it.
#[derive(Debug)]
pub struct PinnedSource {
    pub language: SourceLanguage,
    pub path: String,
}

/// Whether `path` is the exact path of a pinned SysML source.
pub open spec fn pinned_sysml_path(sources: Seq<PinnedSource>, path: Seq<char>) -> bool {
    exists|i: int| 0 <= i < sources.len() && #[trigger] sources[i].language == SourceLanguage::SysMl
        && sources[i].path@ == path
}

/// Whether a slice of `paths` may be prepared from `sources`.
pub open spec fn slice_admissible(sources: Seq<PinnedSource>, paths: Seq<String>) -> bool {
    &&& paths.len() > 0
    &&& forall|j: int| 0 <= j < paths.len() ==> pinned_sysml_path(sources, #[trigger] paths[j]@)
}

/// Whether `path` names a pinned SysML source.
fn is_pinned_sysml_path(sources: &[PinnedSource], path: &str) -> (found: bool)
    ensures
        found == pinned_sysml_path(sources@, path@),
{
    let mut i: usize = 0;
    while i < sources.len()
        invariant
            i <= sources@.len(),
            forall|k: int| 0 <= k < i ==> !(#[trigger] sources@[k].language == SourceLanguage::SysMl
                && sources@[k].path@ == path@),
        decreases sources.len() - i,
    {
        if sources[i].language == SourceLanguage::SysMl && text_eq(sources[i].path.as_str(), path) {
            return true;
        }
        i += 1;
    }
    false
}

/// A Systems slice names a nonempty set of exact pinned SysML document paths;
/// any other request is refused.
pub fn check_slice_paths(sources: &[PinnedSource], paths: &[String]) -> (result: Result<(), LibraryLoadError>)
    ensures
        result is Ok <==> slice_admissible(sources@, paths@),
        result matches Err(e) ==> e@ == LoadErrorView::Interpretation(
            "Systems slice requires a nonempty set of exact pinned SysML document paths"@,
        ),
{
    let mut ok = paths.len() > 0;
    let mut j: usize = 0;
    while ok && j < paths.len()
        invariant
            j <= paths@.len(),
            ok ==> paths@.len() > 0,
            ok ==> forall|k: int| 0 <= k < j ==> pinned_sysml_path(sources@, #[trigger] paths@[k]@),
            !ok ==> !slice_admissible(sources@, paths@),
        decreases paths.len() - j,
    {
        if !is_pinned_sysml_path(sources, paths[j].as_str()) {
            ok = false;
        }
        j += 1;
    }
    if ok {
        Ok(())
    } else {
        Err(LibraryLoadError::Interpretation(
            String::from_str("Systems slice requires a nonempty set of exact pinned SysML document paths"),
        ))
    }
}

/// Systems sources are interpreted only against the accepted KerML publication
/// of the very same source content set.
pub fn check_source_content_set(sources: &str, accepted: &str) -> (result: Result<(), LibraryLoadError>)
    ensures
        result is Ok <==> sources@ == accepted@,
        result matches Err(e) ==> e@ == LoadErrorView::Interpretation(
            "Systems sources and accepted KerML source set differ"@,
        ),
{
    if text_eq(sources, accepted) {
        Ok(())
    } else {
        Err(LibraryLoadError::Interpretation(String::from_str("Systems sources and accepted KerML source set differ")))
    }
}

} // verus!
