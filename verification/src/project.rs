//! Project-local document paths. A path is a label of a document, never its
//! identity: each non-empty path names at most one document and each document
//! has exactly one path. A batch of changes is checked step by step against
//! these paths; parsing and lowering happen between the steps.
use crate::ids::{DocumentId, RevisionId};
use crate::order::{lemma_path_order, path_less, path_lt};
use crate::table::Table;
use vstd::prelude::*;
use vstd::string::*;

verus! {

/// Project-level failures of path bookkeeping.
#[derive(Clone, Debug)]
pub enum ProjectError {
    /// The batch was prepared against another publication.
    StaleRevision(RevisionId),
    /// No document of the project has this identity.
    MissingDocument(DocumentId),
    /// The path is empty or already names a document.
    InvalidPath(String),
}

/// A project error as plain values.
pub enum ProjectErrorView {
    StaleRevision(RevisionId),
    MissingDocument(DocumentId),
    InvalidPath(Seq<char>),
}

impl View for ProjectError {
    type V = ProjectErrorView;

    open spec fn view(&self) -> ProjectErrorView {
        match self {
            ProjectError::StaleRevision(r) => ProjectErrorView::StaleRevision(*r),
            ProjectError::MissingDocument(d) => ProjectErrorView::MissingDocument(*d),
            ProjectError::InvalidPath(p) => ProjectErrorView::InvalidPath(p@),
        }
    }
}

/// One change of a batch, as far as paths are concerned. An addition carries
/// the fresh identity its document receives.
#[derive(Debug)]
pub enum PathChange {
    Add { path: String, document: DocumentId },
    Edit { document: DocumentId },
    Replace { document: DocumentId },
    Remove { document: DocumentId },
    RenameDocument { document: DocumentId, path: String },
}

/// A path change as plain values.
pub enum PathChangeView {
    Add { path: Seq<char>, document: DocumentId },
    Edit { document: DocumentId },
    Replace { document: DocumentId },
    Remove { document: DocumentId },
    RenameDocument { document: DocumentId, path: Seq<char> },
}

impl View for PathChange {
    type V = PathChangeView;

    open spec fn view(&self) -> PathChangeView {
        match self {
            PathChange::Add { path, document } => PathChangeView::Add { path: path@, document: *document },
            PathChange::Edit { document } => PathChangeView::Edit { document: *document },
            PathChange::Replace { document } => PathChangeView::Replace { document: *document },
            PathChange::Remove { document } => PathChangeView::Remove { document: *document },
            PathChange::RenameDocument { document, path } => PathChangeView::RenameDocument {
                document: *document,
                path: path@,
            },
        }
    }
}

/// Paths to documents, each document once.
pub open spec fn documents_distinct(m: Map<Seq<char>, DocumentId>) -> bool {
    forall|p: Seq<char>, q: Seq<char>|
        #![trigger m[p], m[q]]
        m.contains_key(p) && m.contains_key(q) && p != q ==> m[p] != m[q]
}

/// What every project layout satisfies.
pub open spec fn valid_paths(m: Map<Seq<char>, DocumentId>) -> bool {
    &&& !m.contains_key(Seq::<char>::empty())
    &&& documents_distinct(m)
}

/// Whether some path names document `d`.
pub open spec fn holds_document(m: Map<Seq<char>, DocumentId>, d: DocumentId) -> bool {
    exists|p: Seq<char>| #[trigger] m.contains_key(p) && m[p] == d
}

/// The path of document `d`.
pub open spec fn path_of_document(m: Map<Seq<char>, DocumentId>, d: DocumentId) -> Seq<char> {
    choose|p: Seq<char>| #[trigger] m.contains_key(p) && m[p] == d
}

/// A new path is refused when it is empty or already taken.
pub open spec fn path_refused(m: Map<Seq<char>, DocumentId>, p: Seq<char>) -> bool {
    p.len() == 0 || m.contains_key(p)
}

/// The layout after the document at `from` takes the label `to`.
pub open spec fn relabeled(m: Map<Seq<char>, DocumentId>, from: Seq<char>, to: Seq<char>) -> Map<Seq<char>, DocumentId> {
    m.remove(from).insert(to, m[from])
}

/// In a valid layout, the path of a held document is the one that names it.
pub proof fn lemma_path_of_document(m: Map<Seq<char>, DocumentId>, p: Seq<char>)
    requires
        valid_paths(m),
        m.contains_key(p),
    ensures
        holds_document(m, m[p]),
        path_of_document(m, m[p]) == p,
{
    let d = m[p];
    assert(m.contains_key(p) && m[p] == d);
    let q = path_of_document(m, d);
    if q != p {
        assert(m[q] != m[p]);
    }
}

/// Removing a document that was just added under a fresh path gives back the
/// layout from before the addition.
pub proof fn law_remove_undoes_add(m: Map<Seq<char>, DocumentId>, p: Seq<char>, d: DocumentId)
    requires
        valid_paths(m),
        !path_refused(m, p),
        !holds_document(m, d),
    ensures
        valid_paths(m.insert(p, d)),
        holds_document(m.insert(p, d), d),
        path_of_document(m.insert(p, d), d) == p,
        m.insert(p, d).remove(p) == m,
{
    let n = m.insert(p, d);
    assert forall|a: Seq<char>, b: Seq<char>| n.contains_key(a) && n.contains_key(b) && a != b implies #[trigger] n[a]
        != #[trigger] n[b] by {
        if a != p && b != p {
            assert(m[a] != m[b]);
        } else if a == p {
            assert(m.contains_key(b) && m[b] == n[b]);
        } else {
            assert(m.contains_key(a) && m[a] == n[a]);
        }
    }
    lemma_path_of_document(n, p);
    assert(n.remove(p) =~= m);
}

/// Relabeling a document keeps every document of the project, each under one
/// path, and the relabeled document is found under its new path.
pub proof fn law_rename_keeps_documents(m: Map<Seq<char>, DocumentId>, d: DocumentId, q: Seq<char>)
    requires
        valid_paths(m),
        holds_document(m, d),
        !path_refused(m, q),
    ensures
        valid_paths(relabeled(m, path_of_document(m, d), q)),
        forall|e: DocumentId| #[trigger] holds_document(relabeled(m, path_of_document(m, d), q), e) == holds_document(m, e),
        path_of_document(relabeled(m, path_of_document(m, d), q), d) == q,
{
    let p = path_of_document(m, d);
    let r = relabeled(m, p, q);
    assert(m.contains_key(p) && m[p] == d);
    assert forall|a: Seq<char>, b: Seq<char>| r.contains_key(a) && r.contains_key(b) && a != b implies #[trigger] r[a]
        != #[trigger] r[b] by {
        if a != q && b != q {
            assert(m[a] != m[b]);
        } else if a == q {
            assert(m.contains_key(b) && b != p);
            assert(m[p] != m[b]);
        } else {
            assert(m.contains_key(a) && a != p);
            assert(m[p] != m[a]);
        }
    }
    assert forall|e: DocumentId| #[trigger] holds_document(r, e) == holds_document(m, e) by {
        if holds_document(m, e) {
            let a = choose|a: Seq<char>| #[trigger] m.contains_key(a) && m[a] == e;
            if a == p {
                assert(r.contains_key(q) && r[q] == e);
            } else {
                assert(r.contains_key(a) && r[a] == e);
            }
        }
        if holds_document(r, e) {
            let a = choose|a: Seq<char>| #[trigger] r.contains_key(a) && r[a] == e;
            if a == q {
                assert(m.contains_key(p) && m[p] == e);
            } else {
                assert(m.contains_key(a) && m[a] == e);
            }
        }
    }
    lemma_path_of_document(r, q);
}

/// Relabeling a document and then relabeling it back restores the layout.
pub proof fn law_rename_back_restores(m: Map<Seq<char>, DocumentId>, d: DocumentId, q: Seq<char>)
    requires
        valid_paths(m),
        holds_document(m, d),
        !path_refused(m, q),
    ensures
        !path_refused(relabeled(m, path_of_document(m, d), q), path_of_document(m, d)),
        relabeled(relabeled(m, path_of_document(m, d), q), q, path_of_document(m, d)) == m,
{
    let p = path_of_document(m, d);
    assert(m.contains_key(p) && m[p] == d);
    assert(!m.contains_key(Seq::<char>::empty()));
    assert(p.len() != 0) by {
        if p.len() == 0 {
            assert(p =~= Seq::<char>::empty());
        }
    }
    let r = relabeled(m, p, q);
    assert(relabeled(r, q, p) =~= m);
}

/// The layout after one change, or the error that refuses it.
pub open spec fn apply_change(m: Map<Seq<char>, DocumentId>, c: PathChangeView) -> Result<
    Map<Seq<char>, DocumentId>,
    ProjectErrorView,
> {
    match c {
        PathChangeView::Add { path, document } => if path_refused(m, path) {
            Err(ProjectErrorView::InvalidPath(path))
        } else {
            Ok(m.insert(path, document))
        },
        PathChangeView::Edit { document } | PathChangeView::Replace { document } => if holds_document(m, document) {
            Ok(m)
        } else {
            Err(ProjectErrorView::MissingDocument(document))
        },
        PathChangeView::Remove { document } => if holds_document(m, document) {
            Ok(m.remove(path_of_document(m, document)))
        } else {
            Err(ProjectErrorView::MissingDocument(document))
        },
        PathChangeView::RenameDocument { document, path } => if !holds_document(m, document) {
            Err(ProjectErrorView::MissingDocument(document))
        } else if path_of_document(m, document) == path {
            Ok(m)
        } else if path_refused(m, path) {
            Err(ProjectErrorView::InvalidPath(path))
        } else {
            Ok(relabeled(m, path_of_document(m, document), path))
        },
    }
}

/// The layout after a batch, or the position and error of its first refused change.
pub open spec fn apply_changes(m: Map<Seq<char>, DocumentId>, cs: Seq<PathChangeView>) -> Result<
    Map<Seq<char>, DocumentId>,
    (int, ProjectErrorView),
>
    decreases cs.len(),
{
    if cs.len() == 0 {
        Ok(m)
    } else {
        match apply_changes(m, cs.drop_last()) {
            Err(e) => Err(e),
            Ok(n) => match apply_change(n, cs.last()) {
                Ok(next) => Ok(next),
                Err(e) => Err((cs.len() - 1, e)),
            },
        }
    }
}

/// Every addition of a batch brings an identity that no document of `m` and
/// no other addition has.
pub open spec fn fresh_additions(m: Map<Seq<char>, DocumentId>, cs: Seq<PathChangeView>) -> bool {
    forall|i: int| #![trigger cs[i]]
        0 <= i < cs.len() ==> match cs[i] {
            PathChangeView::Add { document, .. } => !holds_document(m, document) && forall|j: int|
                #![trigger cs[j]]
                0 <= j < cs.len() && j != i ==> !(cs[j] matches PathChangeView::Add { document: other, .. } && other == document),
            _ => true,
        }
}

/// The identity a change adds, if it is an addition.
pub open spec fn added_document(c: PathChangeView) -> Option<DocumentId> {
    match c {
        PathChangeView::Add { document, .. } => Some(document),
        _ => None,
    }
}

/// One change keeps a layout valid and adds no document but its own addition.
pub proof fn lemma_apply_change(m: Map<Seq<char>, DocumentId>, c: PathChangeView)
    requires
        valid_paths(m),
        c matches PathChangeView::Add { document, .. } ==> !holds_document(m, document),
    ensures
        apply_change(m, c) matches Ok(n) ==> valid_paths(n) && forall|e: DocumentId|
            #[trigger] holds_document(n, e) ==> holds_document(m, e) || added_document(c) == Some(e),
{
    match c {
        PathChangeView::Add { path, document } => {
            if !path_refused(m, path) {
                law_remove_undoes_add(m, path, document);
                let n = m.insert(path, document);
                assert forall|e: DocumentId| #[trigger] holds_document(n, e) implies holds_document(m, e) || added_document(c)
                    == Some(e) by {
                    let p = choose|p: Seq<char>| #[trigger] n.contains_key(p) && n[p] == e;
                    if p != path {
                        assert(m.contains_key(p) && m[p] == e);
                    }
                }
            }
        },
        PathChangeView::Edit { .. } | PathChangeView::Replace { .. } => {},
        PathChangeView::Remove { document } => {
            if holds_document(m, document) {
                let n = m.remove(path_of_document(m, document));
                assert forall|a: Seq<char>, b: Seq<char>| n.contains_key(a) && n.contains_key(b) && a != b implies #[trigger] n[a]
                    != #[trigger] n[b] by {
                    assert(m[a] != m[b]);
                }
                assert forall|e: DocumentId| #[trigger] holds_document(n, e) implies holds_document(m, e) by {
                    let p = choose|p: Seq<char>| #[trigger] n.contains_key(p) && n[p] == e;
                    assert(m.contains_key(p) && m[p] == e);
                }
            }
        },
        PathChangeView::RenameDocument { document, path } => {
            if holds_document(m, document) && path_of_document(m, document) != path && !path_refused(m, path) {
                law_rename_keeps_documents(m, document, path);
            }
        },
    }
}

/// Adding fresh documents stays fresh along a batch: what a prefix of the batch
/// produced holds no document that a later addition brings.
proof fn lemma_apply_changes(m: Map<Seq<char>, DocumentId>, cs: Seq<PathChangeView>)
    requires
        valid_paths(m),
        fresh_additions(m, cs),
    ensures
        apply_changes(m, cs) matches Ok(n) ==> valid_paths(n) && forall|e: DocumentId|
            #[trigger] holds_document(n, e) ==> holds_document(m, e) || exists|i: int|
                0 <= i < cs.len() && added_document(#[trigger] cs[i]) == Some(e),
    decreases cs.len(),
{
    if cs.len() > 0 {
        let front = cs.drop_last();
        assert(fresh_additions(m, front)) by {
            assert forall|i: int| 0 <= i < front.len() implies match #[trigger] front[i] {
                PathChangeView::Add { document, .. } => !holds_document(m, document) && forall|j: int|
                    #![trigger front[j]]
                    0 <= j < front.len() && j != i ==> !(front[j] matches PathChangeView::Add { document: other, .. } && other == document),
                _ => true,
            } by {
                assert(front[i] == cs[i]);
                assert forall|j: int| 0 <= j < front.len() implies #[trigger] front[j] == cs[j] by {}
            }
        }
        lemma_apply_changes(m, front);
        if let Ok(n) = apply_changes(m, front) {
            let c = cs.last();
            let k = cs.len() - 1;
            assert(cs[k] == c);
            if let PathChangeView::Add { document, .. } = c {
                if holds_document(n, document) {
                    if !holds_document(m, document) {
                        let i = choose|i: int| 0 <= i < front.len() && added_document(#[trigger] front[i]) == Some(document);
                        assert(front[i] == cs[i]);
                        assert(false);
                    }
                }
            }
            lemma_apply_change(n, c);
            if let Ok(next) = apply_change(n, c) {
                assert forall|e: DocumentId| #[trigger] holds_document(next, e) implies holds_document(m, e) || exists|i: int|
                    0 <= i < cs.len() && added_document(#[trigger] cs[i]) == Some(e) by {
                    if holds_document(n, e) {
                        if !holds_document(m, e) {
                            let i = choose|i: int| 0 <= i < front.len() && added_document(#[trigger] front[i]) == Some(e);
                            assert(front[i] == cs[i]);
                        }
                    } else {
                        assert(added_document(cs[k]) == Some(e));
                    }
                }
            }
        }
    }
}

/// Once a prefix of a batch is refused, the whole batch is refused the same way.
proof fn lemma_refusal_persists(m: Map<Seq<char>, DocumentId>, cs: Seq<PathChangeView>, k: int)
    requires
        0 <= k <= cs.len(),
        apply_changes(m, cs.subrange(0, k)) is Err,
    ensures
        apply_changes(m, cs) == apply_changes(m, cs.subrange(0, k)),
    decreases cs.len(),
{
    if k < cs.len() {
        assert(cs.drop_last().subrange(0, k) =~= cs.subrange(0, k));
        lemma_refusal_persists(m, cs.drop_last(), k);
    } else {
        assert(cs.subrange(0, k) =~= cs);
    }
}

/// Paths strictly ascend along `s`.
pub open spec fn sorted_paths(s: Seq<(Seq<char>, DocumentId)>) -> bool {
    forall|i: int, j: int| 0 <= i < j < s.len() ==> path_lt(#[trigger] s[i].0, #[trigger] s[j].0)
}

/// `s` lists the layout `m` in path order: each entry is one of `m`, each path
/// of `m` is listed, and paths strictly ascend.
pub open spec fn lists_in_path_order(m: Map<Seq<char>, DocumentId>, s: Seq<(Seq<char>, DocumentId)>) -> bool {
    &&& forall|i: int| 0 <= i < s.len() ==> m.contains_key(#[trigger] s[i].0) && m[s[i].0] == s[i].1
    &&& forall|p: Seq<char>| m.contains_key(p) ==> exists|i: int| 0 <= i < s.len() && #[trigger] s[i].0 == p
    &&& sorted_paths(s)
}

/// The documents of a layout are listed by path alone: any two listings in
/// path order are the same, whatever order the documents were added in.
pub proof fn law_listing_ignores_insertion_order(
    m: Map<Seq<char>, DocumentId>,
    s1: Seq<(Seq<char>, DocumentId)>,
    s2: Seq<(Seq<char>, DocumentId)>,
)
    requires
        lists_in_path_order(m, s1),
        lists_in_path_order(m, s2),
    ensures
        s1 == s2,
    decreases s1.len(),
{
    if s1.len() == 0 {
        if s2.len() > 0 {
            assert(m.contains_key(s2[0].0));
        }
        assert(s1 =~= s2);
    } else if s2.len() == 0 {
        assert(m.contains_key(s1[0].0));
    } else {
        let n1 = s1.len() - 1;
        let n2 = s2.len() - 1;
        let a = s1[n1].0;
        let b = s2[n2].0;
        if a != b {
            assert(m.contains_key(a) && m.contains_key(b));
            let i = choose|i: int| 0 <= i < s2.len() && #[trigger] s2[i].0 == a;
            let j = choose|j: int| 0 <= j < s1.len() && #[trigger] s1[j].0 == b;
            lemma_path_order(a, b, a);
            if i < n2 {
                assert(path_lt(a, b));
            }
            if j < n1 {
                assert(path_lt(b, a));
            }
            assert(false);
        }
        let rest = m.remove(a);
        let t1 = s1.drop_last();
        let t2 = s2.drop_last();
        assert forall|i: int| 0 <= i < t1.len() implies rest.contains_key(#[trigger] t1[i].0) && rest[t1[i].0] == t1[i].1 by {
            assert(t1[i] == s1[i]);
            assert(path_lt(s1[i].0, s1[n1].0));
            lemma_path_order(a, a, a);
        }
        assert forall|i: int| 0 <= i < t2.len() implies rest.contains_key(#[trigger] t2[i].0) && rest[t2[i].0] == t2[i].1 by {
            assert(t2[i] == s2[i]);
            assert(path_lt(s2[i].0, s2[n2].0));
            lemma_path_order(a, a, a);
        }
        assert forall|p: Seq<char>| rest.contains_key(p) implies exists|i: int| 0 <= i < t1.len() && #[trigger] t1[i].0 == p by {
            let i = choose|i: int| 0 <= i < s1.len() && #[trigger] s1[i].0 == p;
            assert(t1[i] == s1[i]);
        }
        assert forall|p: Seq<char>| rest.contains_key(p) implies exists|i: int| 0 <= i < t2.len() && #[trigger] t2[i].0 == p by {
            let i = choose|i: int| 0 <= i < s2.len() && #[trigger] s2[i].0 == p;
            assert(t2[i] == s2[i]);
        }
        assert(sorted_paths(t1)) by {
            assert forall|i: int, j: int| 0 <= i < j < t1.len() implies path_lt(#[trigger] t1[i].0, #[trigger] t1[j].0) by {
                assert(t1[i] == s1[i] && t1[j] == s1[j]);
            }
        }
        assert(sorted_paths(t2)) by {
            assert forall|i: int, j: int| 0 <= i < j < t2.len() implies path_lt(#[trigger] t2[i].0, #[trigger] t2[j].0) by {
                assert(t2[i] == s2[i] && t2[j] == s2[j]);
            }
        }
        law_listing_ignores_insertion_order(rest, t1, t2);
        assert(s1 =~= t1.push(s1[n1]));
        assert(s2 =~= t2.push(s2[n2]));
    }
}

/// Inserting `x` after every smaller path and before every larger one keeps
/// paths ascending.
proof fn lemma_insert_sorted(s: Seq<(Seq<char>, DocumentId)>, j: int, x: (Seq<char>, DocumentId))
    requires
        sorted_paths(s),
        0 <= j <= s.len(),
        forall|t: int| 0 <= t < j ==> path_lt(#[trigger] s[t].0, x.0),
        j < s.len() ==> path_lt(x.0, s[j].0),
    ensures
        sorted_paths(s.insert(j, x)),
{
    let n = s.insert(j, x);
    s.insert_ensures(j, x);
    assert forall|a: int, b: int| 0 <= a < b < n.len() implies path_lt(#[trigger] n[a].0, #[trigger] n[b].0) by {
        if b < j {
            assert(n[a] == s[a] && n[b] == s[b]);
        } else if b == j {
            assert(n[a] == s[a]);
        } else if a < j {
            assert(n[a] == s[a] && n[b] == s[b - 1]);
            lemma_path_order(s[a].0, x.0, s[b - 1].0);
            if b - 1 > j {
                lemma_path_order(x.0, s[j].0, s[b - 1].0);
            }
        } else if a == j {
            assert(n[b] == s[b - 1]);
            if b - 1 > j {
                lemma_path_order(x.0, s[j].0, s[b - 1].0);
            }
        } else {
            assert(n[a] == s[a - 1] && n[b] == s[b - 1]);
        }
    }
}

/// `p` is one of the first `k` keys.
pub open spec fn key_among(keys: Seq<Seq<char>>, k: int, p: Seq<char>) -> bool {
    exists|t: int| 0 <= t < k && #[trigger] keys[t] == p
}

/// `p` is listed in `lv`.
pub open spec fn path_listed(lv: Seq<(Seq<char>, DocumentId)>, p: Seq<char>) -> bool {
    exists|i: int| 0 <= i < lv.len() && #[trigger] lv[i].0 == p
}

/// `lv` lists, in path order, the layout entries of the first `k` of `keys`.
pub open spec fn listing_prefix(
    m: Map<Seq<char>, DocumentId>,
    keys: Seq<Seq<char>>,
    k: int,
    lv: Seq<(Seq<char>, DocumentId)>,
) -> bool {
    &&& lv.len() == k
    &&& forall|i: int| 0 <= i < lv.len() ==> key_among(keys, k, #[trigger] lv[i].0)
    &&& forall|t: int| 0 <= t < k ==> path_listed(lv, #[trigger] keys[t])
    &&& forall|i: int| 0 <= i < lv.len() ==> m.contains_key(#[trigger] lv[i].0) && m[lv[i].0] == lv[i].1
    &&& sorted_paths(lv)
}

/// The next key is not listed yet.
proof fn lemma_fresh_key(keys: Seq<Seq<char>>, k: int, lv: Seq<(Seq<char>, DocumentId)>)
    requires
        0 <= k < keys.len(),
        forall|t: int, u: int| 0 <= t < keys.len() && 0 <= u < keys.len() && t != u ==> #[trigger] keys[t] != #[trigger] keys[u],
        forall|i: int| 0 <= i < lv.len() ==> key_among(keys, k, #[trigger] lv[i].0),
    ensures
        forall|i: int| 0 <= i < lv.len() ==> #[trigger] lv[i].0 != keys[k],
{
    assert forall|i: int| 0 <= i < lv.len() implies #[trigger] lv[i].0 != keys[k] by {
        assert(key_among(keys, k, lv[i].0));
        let t = choose|t: int| 0 <= t < k && #[trigger] keys[t] == lv[i].0;
        assert(keys[t] != keys[k]);
    }
}

/// Inserting the next key at its place extends the listing by one key.
proof fn lemma_listing_extend(
    m: Map<Seq<char>, DocumentId>,
    keys: Seq<Seq<char>>,
    k: int,
    lv: Seq<(Seq<char>, DocumentId)>,
    j: int,
    x: (Seq<char>, DocumentId),
)
    requires
        listing_prefix(m, keys, k, lv),
        0 <= k < keys.len(),
        x.0 == keys[k],
        m.contains_key(x.0),
        m[x.0] == x.1,
        0 <= j <= lv.len(),
        forall|t: int| 0 <= t < j ==> path_lt(#[trigger] lv[t].0, x.0),
        j < lv.len() ==> path_lt(x.0, lv[j].0),
    ensures
        listing_prefix(m, keys, k + 1, lv.insert(j, x)),
{
    lv.insert_ensures(j, x);
    lemma_insert_sorted(lv, j, x);
    lemma_extend_sources(keys, k, lv, j, x);
    lemma_extend_covers(keys, k, lv, j, x);
    lemma_extend_entries(m, lv, j, x);
}

proof fn lemma_extend_sources(keys: Seq<Seq<char>>, k: int, lv: Seq<(Seq<char>, DocumentId)>, j: int, x: (Seq<char>, DocumentId))
    requires
        0 <= k < keys.len(),
        x.0 == keys[k],
        0 <= j <= lv.len(),
        forall|i: int| 0 <= i < lv.len() ==> key_among(keys, k, #[trigger] lv[i].0),
    ensures
        forall|i: int| 0 <= i < lv.len() + 1 ==> key_among(keys, k + 1, #[trigger] lv.insert(j, x)[i].0),
{
    let nv = lv.insert(j, x);
    lv.insert_ensures(j, x);
    assert forall|i: int| 0 <= i < nv.len() implies key_among(keys, k + 1, #[trigger] nv[i].0) by {
        if i == j {
            assert(keys[k] == nv[i].0);
        } else if i < j {
            assert(nv[i] == lv[i]);
            assert(key_among(keys, k, lv[i].0));
            let t = choose|t: int| 0 <= t < k && #[trigger] keys[t] == lv[i].0;
            assert(keys[t] == nv[i].0);
        } else {
            assert(nv[i] == lv[i - 1]);
            assert(key_among(keys, k, lv[i - 1].0));
            let t = choose|t: int| 0 <= t < k && #[trigger] keys[t] == lv[i - 1].0;
            assert(keys[t] == nv[i].0);
        }
    }
}

proof fn lemma_extend_covers(keys: Seq<Seq<char>>, k: int, lv: Seq<(Seq<char>, DocumentId)>, j: int, x: (Seq<char>, DocumentId))
    requires
        0 <= k < keys.len(),
        x.0 == keys[k],
        0 <= j <= lv.len(),
        forall|t: int| 0 <= t < k ==> path_listed(lv, #[trigger] keys[t]),
    ensures
        forall|t: int| 0 <= t < k + 1 ==> path_listed(lv.insert(j, x), #[trigger] keys[t]),
{
    let nv = lv.insert(j, x);
    lv.insert_ensures(j, x);
    assert forall|t: int| 0 <= t < k + 1 implies path_listed(nv, #[trigger] keys[t]) by {
        if t == k {
            assert(nv[j].0 == keys[t]);
        } else {
            assert(path_listed(lv, keys[t]));
            let i = choose|i: int| 0 <= i < lv.len() && #[trigger] lv[i].0 == keys[t];
            if i < j {
                assert(nv[i] == lv[i]);
            } else {
                assert(nv[i + 1] == lv[i]);
            }
        }
    }
}

proof fn lemma_extend_entries(m: Map<Seq<char>, DocumentId>, lv: Seq<(Seq<char>, DocumentId)>, j: int, x: (Seq<char>, DocumentId))
    requires
        m.contains_key(x.0),
        m[x.0] == x.1,
        0 <= j <= lv.len(),
        forall|i: int| 0 <= i < lv.len() ==> m.contains_key(#[trigger] lv[i].0) && m[lv[i].0] == lv[i].1,
    ensures
        forall|i: int| 0 <= i < lv.len() + 1 ==> m.contains_key(#[trigger] lv.insert(j, x)[i].0) && m[lv.insert(j, x)[i].0]
            == lv.insert(j, x)[i].1,
{
    let nv = lv.insert(j, x);
    lv.insert_ensures(j, x);
    assert forall|i: int| 0 <= i < nv.len() implies m.contains_key(#[trigger] nv[i].0) && m[nv[i].0] == nv[i].1 by {
        if i < j {
            assert(nv[i] == lv[i]);
        } else if i > j {
            assert(nv[i] == lv[i - 1]);
        }
    }
}

/// A listing of all keys of a layout lists the layout in path order.
proof fn lemma_listing_complete(m: Map<Seq<char>, DocumentId>, keys: Seq<Seq<char>>, lv: Seq<(Seq<char>, DocumentId)>)
    requires
        listing_prefix(m, keys, keys.len() as int, lv),
        forall|p: Seq<char>| m.contains_key(p) ==> exists|t: int| 0 <= t < keys.len() && #[trigger] keys[t] == p,
    ensures
        lists_in_path_order(m, lv),
{
    assert forall|p: Seq<char>| m.contains_key(p) implies exists|i: int| 0 <= i < lv.len() && #[trigger] lv[i].0 == p by {
        let t = choose|t: int| 0 <= t < keys.len() && #[trigger] keys[t] == p;
        assert(path_listed(lv, keys[t]));
        let i = choose|i: int| 0 <= i < lv.len() && #[trigger] lv[i].0 == keys[t];
    }
}

/// A batch applies only to the publication it was prepared against.
pub fn check_base(current: RevisionId, base: RevisionId) -> (result: Result<(), ProjectError>)
    ensures
        result is Ok <==> current == base,
        result matches Err(e) ==> e matches ProjectError::StaleRevision(r) && r == base,
{
    if current.0 != base.0 {
        return Err(ProjectError::StaleRevision(base));
    }
    Ok(())
}

/// The byte limit of a plain-text edit: replacing `range_len` of `source_len`
/// bytes with `replacement_len` bytes must leave at most `max_bytes` bytes.
pub fn edit_fits(source_len: usize, range_len: usize, replacement_len: usize, max_bytes: usize) -> (fits: bool)
    requires
        range_len <= source_len,
    ensures
        fits == (source_len - range_len + replacement_len <= max_bytes),
{
    let length = source_len - range_len;
    !(length > max_bytes || replacement_len > max_bytes.saturating_sub(length))
}

/// The kind of one change of a batch.
#[derive(Clone, Copy, Debug, PartialEq, Eq, Structural)]
pub enum ChangeKind {
    Add,
    Edit,
    Replace,
    Remove,
    RenameDocument,
}

/// Additions, edits and replacements parse a document; removals and renames do not.
pub open spec fn parses(kind: ChangeKind) -> bool {
    kind is Add || kind is Edit || kind is Replace
}

/// How many changes of a batch parse a document.
pub open spec fn parse_count(kinds: Seq<ChangeKind>) -> nat
    decreases kinds.len(),
{
    if kinds.len() == 0 {
        0
    } else {
        parse_count(kinds.drop_last()) + if parses(kinds.last()) { 1nat } else { 0nat }
    }
}

/// The number of documents a batch reparses.
pub fn documents_reparsed(changes: &Vec<ChangeKind>) -> (n: usize)
    ensures
        n == parse_count(changes@),
{
    let mut n: usize = 0;
    let mut i: usize = 0;
    while i < changes.len()
        invariant
            i <= changes@.len(),
            n == parse_count(changes@.subrange(0, i as int)),
            n <= i,
        decreases changes@.len() - i,
    {
        proof {
            assert(changes@.subrange(0, i + 1).drop_last() =~= changes@.subrange(0, i as int));
        }
        match changes[i] {
            ChangeKind::Add | ChangeKind::Edit | ChangeKind::Replace => {
                n = n + 1;
            },
            ChangeKind::Remove | ChangeKind::RenameDocument => {},
        }
        i = i + 1;
    }
    proof {
        assert(changes@.subrange(0, changes@.len() as int) =~= changes@);
    }
    n
}

/// The documents of one project revision, by path.
#[derive(Debug)]
pub struct ProjectPaths {
    paths: Table<String, DocumentId>,
}

impl View for ProjectPaths {
    type V = Map<Seq<char>, DocumentId>;

    closed spec fn view(&self) -> Map<Seq<char>, DocumentId> {
        self.paths@
    }
}

impl ProjectPaths {
    pub closed spec fn wf(&self) -> bool {
        self.paths.wf() && valid_paths(self@)
    }

    /// A project without documents.
    pub fn new() -> (paths: ProjectPaths)
        ensures
            paths.wf(),
            paths@ == Map::<Seq<char>, DocumentId>::empty(),
    {
        ProjectPaths { paths: Table::new() }
    }

    /// An equal layout, to work on without touching this one.
    pub fn duplicate(&self) -> (copy: ProjectPaths)
        requires
            self.wf(),
        ensures
            copy.wf(),
            copy@ == self@,
    {
        ProjectPaths { paths: self.paths.duplicate() }
    }

    /// Number of documents.
    pub fn len(&self) -> (n: usize)
        requires
            self.wf(),
        ensures
            n == self@.len(),
    {
        proof {
            self.lemma_len();
        }
        self.paths.len()
    }

    proof fn lemma_len(&self)
        requires
            self.wf(),
        ensures
            self.paths.size() == self@.len(),
            self@.dom().finite(),
    {
        self.paths.lemma_keys();
        let n = self.paths.size() as int;
        let keys = Seq::new(n as nat, |i: int| self.paths.key_at(i));
        assert(keys.to_set() =~= self@.dom()) by {
            assert forall|k: Seq<char>| #[trigger] keys.to_set().contains(k) == self@.dom().contains(k) by {
                if self@.dom().contains(k) {
                    let i = choose|i: int| 0 <= i < n && #[trigger] self.paths.key_at(i) == k;
                    assert(keys[i] == k);
                }
                if keys.to_set().contains(k) {
                    let i = choose|i: int| 0 <= i < keys.len() && keys[i] == k;
                    assert(self@.contains_key(self.paths.key_at(i)));
                }
            }
        }
        assert(keys.no_duplicates()) by {
            self.paths.lemma_distinct();
        }
        keys.unique_seq_to_set();
    }

    /// The document at `path`, if any.
    pub fn document_at(&self, path: &String) -> (found: Option<DocumentId>)
        requires
            self.wf(),
        ensures
            match found {
                Some(d) => self@.contains_key(path@) && self@[path@] == d,
                None => !self@.contains_key(path@),
            },
    {
        self.paths.get(path)
    }

    /// A new path must be non-empty and unused.
    pub fn check_path(&self, path: &String) -> (result: Result<(), ProjectError>)
        requires
            self.wf(),
        ensures
            result is Err <==> path_refused(self@, path@),
            result matches Err(e) ==> e matches ProjectError::InvalidPath(q) && q@ == path@,
    {
        if path.as_str().is_empty() || self.paths.contains(path) {
            return Err(ProjectError::InvalidPath(path.clone()));
        }
        Ok(())
    }

    /// The path of `document`.
    pub fn path_of(&self, document: DocumentId) -> (result: Result<String, ProjectError>)
        requires
            self.wf(),
        ensures
            result is Ok <==> holds_document(self@, document),
            result matches Ok(p) ==> p@ == path_of_document(self@, document) && self@.contains_key(p@)
                && self@[p@] == document,
            result matches Err(e) ==> e matches ProjectError::MissingDocument(d) && d == document,
    {
        proof {
            self.paths.lemma_keys();
            self.paths.lemma_values();
        }
        let mut i: usize = 0;
        while i < self.paths.len()
            invariant
                self.wf(),
                i <= self.paths.size(),
                forall|j: int| 0 <= j < self.paths.size() ==> self@.contains_key(#[trigger] self.paths.key_at(j)),
                forall|j: int| 0 <= j < self.paths.size() ==> self@[#[trigger] self.paths.key_at(j)] == self.paths.value_at(j),
                forall|k: Seq<char>| self@.contains_key(k) ==> exists|j: int| 0 <= j < self.paths.size() && #[trigger] self.paths.key_at(j) == k,
                forall|j: int| 0 <= j < i ==> #[trigger] self.paths.value_at(j) != document,
            decreases self.paths.size() - i,
        {
            let (path, d) = self.paths.pair_at(i);
            if d.0 == document.0 {
                proof {
                    lemma_path_of_document(self@, path@);
                }
                return Ok(path);
            }
            i = i + 1;
        }
        proof {
            if holds_document(self@, document) {
                let p = choose|p: Seq<char>| #[trigger] self@.contains_key(p) && self@[p] == document;
                let j = choose|j: int| 0 <= j < self.paths.size() && #[trigger] self.paths.key_at(j) == p;
                assert(self.paths.value_at(j) == document);
            }
        }
        Err(ProjectError::MissingDocument(document))
    }

    /// Whether some path names `document`.
    pub fn contains_document(&self, document: DocumentId) -> (found: bool)
        requires
            self.wf(),
        ensures
            found == holds_document(self@, document),
    {
        self.path_of(document).is_ok()
    }

    /// Give a new document the label `path`.
    pub fn add(&mut self, path: String, document: DocumentId) -> (result: Result<(), ProjectError>)
        requires
            old(self).wf(),
            !holds_document(old(self)@, document),
        ensures
            final(self).wf(),
            result is Err <==> path_refused(old(self)@, path@),
            result is Ok ==> final(self)@ == old(self)@.insert(path@, document),
            result matches Err(e) ==> final(self)@ == old(self)@ && (e matches ProjectError::InvalidPath(q) && q@
                == path@),
    {
        match self.check_path(&path) {
            Err(e) => Err(e),
            Ok(()) => {
                let ghost before = self@;
                self.paths.insert(path, document);
                proof {
                    let after = self@;
                    assert forall|p: Seq<char>, q: Seq<char>|
                        after.contains_key(p) && after.contains_key(q) && p != q implies #[trigger] after[p]
                        != #[trigger] after[q] by {
                        if p != path@ && q != path@ {
                            assert(before[p] != before[q]);
                        } else if p == path@ {
                            assert(before.contains_key(q) && before[q] == after[q]);
                        } else {
                            assert(before.contains_key(p) && before[p] == after[p]);
                        }
                    }
                }
                Ok(())
            },
        }
    }

    /// Drop `document`, handing back the path it had.
    pub fn remove(&mut self, document: DocumentId) -> (result: Result<String, ProjectError>)
        requires
            old(self).wf(),
        ensures
            final(self).wf(),
            result is Ok <==> holds_document(old(self)@, document),
            result matches Ok(p) ==> p@ == path_of_document(old(self)@, document) && final(self)@ == old(
                self,
            )@.remove(p@),
            result matches Err(e) ==> final(self)@ == old(self)@ && (e matches ProjectError::MissingDocument(d) && d
                == document),
    {
        match self.path_of(document) {
            Err(e) => Err(e),
            Ok(path) => {
                let ghost before = self@;
                self.paths.remove(&path);
                proof {
                    let after = self@;
                    assert forall|p: Seq<char>, q: Seq<char>|
                        after.contains_key(p) && after.contains_key(q) && p != q implies #[trigger] after[p]
                        != #[trigger] after[q] by {
                        assert(before[p] != before[q]);
                    }
                }
                Ok(path)
            },
        }
    }

    /// Give `document` the label `path`; declarations do not move.
    pub fn rename(&mut self, document: DocumentId, path: String) -> (result: Result<(), ProjectError>)
        requires
            old(self).wf(),
        ensures
            final(self).wf(),
            !holds_document(old(self)@, document) ==> final(self)@ == old(self)@ && (result matches Err(e) && e matches ProjectError::MissingDocument(d) && d == document),
            holds_document(old(self)@, document) ==> {
                let from = path_of_document(old(self)@, document);
                if from == path@ {
                    result is Ok && final(self)@ == old(self)@
                } else if path_refused(old(self)@, path@) {
                    final(self)@ == old(self)@ && (result matches Err(e) && e matches ProjectError::InvalidPath(q) && q@ == path@)
                } else {
                    result is Ok && final(self)@ == relabeled(old(self)@, from, path@)
                }
            },
    {
        let from = match self.path_of(document) {
            Err(e) => {
                return Err(e);
            },
            Ok(from) => from,
        };
        if from == path {
            return Ok(());
        }
        match self.check_path(&path) {
            Err(e) => Err(e),
            Ok(()) => {
                let ghost before = self@;
                self.paths.remove(&from);
                self.paths.insert(path, document);
                proof {
                    let after = self@;
                    assert(after =~= relabeled(before, from@, path@));
                    assert forall|p: Seq<char>, q: Seq<char>|
                        after.contains_key(p) && after.contains_key(q) && p != q implies #[trigger] after[p]
                        != #[trigger] after[q] by {
                        if p != path@ && q != path@ {
                            assert(before[p] != before[q]);
                        } else if p == path@ {
                            assert(before.contains_key(q) && before[q] == after[q]);
                            assert(q != from@);
                            assert(before[from@] != before[q]);
                        } else {
                            assert(before.contains_key(p) && before[p] == after[p]);
                            assert(p != from@);
                            assert(before[from@] != before[p]);
                        }
                    }
                }
                Ok(())
            },
        }
    }

    /// Apply the path part of a batch, all or nothing: the first refused
    /// change and its position are reported and the layout stays as it was.
    pub fn apply_batch(&mut self, changes: &Vec<PathChange>) -> (result: Result<(), (usize, ProjectError)>)
        requires
            old(self).wf(),
            fresh_additions(old(self)@, changes@.map_values(|c: PathChange| c@)),
        ensures
            final(self).wf(),
            match apply_changes(old(self)@, changes@.map_values(|c: PathChange| c@)) {
                Ok(n) => result is Ok && final(self)@ == n,
                Err((i, e)) => final(self)@ == old(self)@ && (result matches Err((j, f)) && j == i && f@ == e),
            },
    {
        let ghost start = self@;
        let ghost cs = changes@.map_values(|c: PathChange| c@);
        let mut work = self.duplicate();
        let mut i: usize = 0;
        while i < changes.len()
            invariant
                self@ == start,
                self.wf(),
                work.wf(),
                i <= changes@.len(),
                cs == changes@.map_values(|c: PathChange| c@),
                valid_paths(start),
                fresh_additions(start, cs),
                apply_changes(start, cs.subrange(0, i as int)) == Ok::<Map<Seq<char>, DocumentId>, (int, ProjectErrorView)>(work@),
            decreases changes@.len() - i,
        {
            let ghost before = work@;
            let ghost prefix = cs.subrange(0, i as int);
            let ghost next = cs.subrange(0, i + 1);
            proof {
                assert(next.drop_last() =~= prefix);
                assert(next.last() == cs[i as int]);
                assert(cs[i as int] == changes@[i as int]@);
                assert forall|j: int| 0 <= j < prefix.len() implies #[trigger] prefix[j] == cs[j] by {}
                assert(fresh_additions(start, prefix)) by {
                    assert forall|a: int| 0 <= a < prefix.len() implies match #[trigger] prefix[a] {
                        PathChangeView::Add { document, .. } => !holds_document(start, document) && forall|b: int|
                            #![trigger prefix[b]]
                            0 <= b < prefix.len() && b != a ==> !(prefix[b] matches PathChangeView::Add { document: other, .. } && other == document),
                        _ => true,
                    } by {
                        assert(prefix[a] == cs[a]);
                    }
                }
                lemma_apply_changes(start, prefix);
            }
            let step = match &changes[i] {
                PathChange::Add { path, document } => {
                    proof {
                        if holds_document(before, *document) {
                            if !holds_document(start, *document) {
                                let j = choose|j: int| 0 <= j < prefix.len() && added_document(#[trigger] prefix[j]) == Some(*document);
                                assert(prefix[j] == cs[j]);
                                assert(cs[i as int] matches PathChangeView::Add { document: d, .. } && d == *document);
                            }
                            assert(false);
                        }
                    }
                    work.add(path.clone(), *document)
                },
                PathChange::Edit { document } | PathChange::Replace { document } => match work.path_of(*document) {
                    Ok(_) => Ok(()),
                    Err(e) => Err(e),
                },
                PathChange::Remove { document } => match work.remove(*document) {
                    Ok(_) => Ok(()),
                    Err(e) => Err(e),
                },
                PathChange::RenameDocument { document, path } => work.rename(*document, path.clone()),
            };
            proof {
                match apply_change(before, cs[i as int]) {
                    Ok(n) => {
                        assert(step is Ok && work@ == n);
                    },
                    Err(x) => {
                        assert(step matches Err(f) && f@ == x);
                    },
                }
            }
            match step {
                Err(e) => {
                    proof {
                        assert(apply_changes(start, next) == Err::<Map<Seq<char>, DocumentId>, (int, ProjectErrorView)>((i as int, e@)));
                        lemma_refusal_persists(start, cs, i + 1);
                    }
                    return Err((i, e));
                },
                Ok(()) => {},
            }
            i = i + 1;
        }
        proof {
            assert(cs.subrange(0, changes@.len() as int) =~= cs);
        }
        *self = work;
        Ok(())
    }

    /// The documents with their paths, in path order.
    pub fn documents(&self) -> (listing: Vec<(String, DocumentId)>)
        requires
            self.wf(),
        ensures
            lists_in_path_order(self@, listing@.map_values(|e: (String, DocumentId)| (e.0@, e.1))),
    {
        proof {
            self.paths.lemma_keys();
            self.paths.lemma_values();
            self.paths.lemma_distinct();
        }
        let ghost m = self@;
        let ghost keys = Seq::new(self.paths.size(), |t: int| self.paths.key_at(t));
        let mut out: Vec<(String, DocumentId)> = Vec::new();
        let mut k: usize = 0;
        proof {
            assert(out@.map_values(|e: (String, DocumentId)| (e.0@, e.1)) =~= Seq::<(Seq<char>, DocumentId)>::empty());
        }
        while k < self.paths.len()
            invariant
                self.wf(),
                m == self@,
                keys.len() == self.paths.size(),
                forall|t: int| 0 <= t < keys.len() ==> #[trigger] keys[t] == self.paths.key_at(t),
                forall|t: int| 0 <= t < keys.len() ==> m.contains_key(#[trigger] keys[t]),
                forall|t: int| 0 <= t < keys.len() ==> m[#[trigger] keys[t]] == self.paths.value_at(t),
                forall|t: int, u: int| 0 <= t < keys.len() && 0 <= u < keys.len() && t != u ==> #[trigger] keys[t] != #[trigger] keys[u],
                k <= keys.len(),
                listing_prefix(m, keys, k as int, out@.map_values(|e: (String, DocumentId)| (e.0@, e.1))),
            decreases keys.len() - k,
        {
            let (path, document) = self.paths.pair_at(k);
            let ghost lv = out@.map_values(|e: (String, DocumentId)| (e.0@, e.1));
            proof {
                assert(keys[k as int] == path@);
                lemma_fresh_key(keys, k as int, lv);
            }
            let mut j: usize = 0;
            while j < out.len() && !path_less(path.as_str(), out[j].0.as_str())
                invariant
                    j <= out@.len(),
                    lv == out@.map_values(|e: (String, DocumentId)| (e.0@, e.1)),
                    forall|i: int| 0 <= i < lv.len() ==> #[trigger] lv[i].0 != path@,
                    forall|t: int| 0 <= t < j ==> path_lt(#[trigger] lv[t].0, path@),
                decreases out@.len() - j,
            {
                proof {
                    assert(lv[j as int].0 == out@[j as int].0@);
                    lemma_path_order(path@, lv[j as int].0, path@);
                }
                j = j + 1;
            }
            proof {
                if j < out@.len() {
                    assert(lv[j as int].0 == out@[j as int].0@);
                }
                lemma_listing_extend(m, keys, k as int, lv, j as int, (path@, document));
            }
            out.insert(j, (path, document));
            proof {
                assert(out@.map_values(|e: (String, DocumentId)| (e.0@, e.1)) =~= lv.insert(j as int, (path@, document)));
            }
            k = k + 1;
        }
        proof {
            assert forall|p: Seq<char>| m.contains_key(p) implies exists|t: int| 0 <= t < keys.len() && #[trigger] keys[t] == p by {
                let t = choose|t: int| 0 <= t < self.paths.size() && #[trigger] self.paths.key_at(t) == p;
                assert(keys[t] == p);
            }
            lemma_listing_complete(m, keys, out@.map_values(|e: (String, DocumentId)| (e.0@, e.1)));
        }
        out
    }
}


/// The published revisions of a project and which of them is current. Each
/// revision holds its path layout and the caller's data for it (its documents
/// and model). A batch is prepared against the current revision without
/// touching the history, and only a fully accepted batch is published.
pub struct ProjectHistory<V> {
    current: usize,
    revisions: Vec<(RevisionId, ProjectPaths, V)>,
}

impl<V> ProjectHistory<V> {
    pub closed spec fn wf(&self) -> bool {
        &&& self.current < self.revisions@.len()
        &&& forall|i: int| 0 <= i < self.revisions@.len() ==> (#[trigger] self.revisions@[i]).1.wf()
        &&& forall|i: int, j: int|
            0 <= i < self.revisions@.len() && 0 <= j < self.revisions@.len() && i != j ==> (#[trigger] self.revisions@[i]).0
                != (#[trigger] self.revisions@[j]).0
    }

    /// Every published revision by identity: its layout and its data.
    pub closed spec fn revisions(&self) -> Map<RevisionId, (Map<Seq<char>, DocumentId>, V)> {
        Map::new(
            |id: RevisionId| exists|i: int| 0 <= i < self.revisions@.len() && (#[trigger] self.revisions@[i]).0 == id,
            |id: RevisionId| {
                let i = choose|i: int| 0 <= i < self.revisions@.len() && (#[trigger] self.revisions@[i]).0 == id;
                (self.revisions@[i].1@, self.revisions@[i].2)
            },
        )
    }

    /// The identity of the current revision.
    pub closed spec fn current_id(&self) -> RevisionId {
        self.revisions@[self.current as int].0
    }

    proof fn lemma_entry(&self, i: int)
        requires
            self.wf(),
            0 <= i < self.revisions@.len(),
        ensures
            self.revisions().contains_key(self.revisions@[i].0),
            self.revisions()[self.revisions@[i].0] == (self.revisions@[i].1@, self.revisions@[i].2),
    {
        let id = self.revisions@[i].0;
        let c = choose|c: int| 0 <= c < self.revisions@.len() && (#[trigger] self.revisions@[c]).0 == id;
        if c != i {
            assert(self.revisions@[c].0 != self.revisions@[i].0);
        }
    }

    /// A history of one revision, which is current.
    pub fn new(first: RevisionId, paths: ProjectPaths, data: V) -> (history: ProjectHistory<V>)
        requires
            paths.wf(),
        ensures
            history.wf(),
            history.current_id() == first,
            history.revisions() == Map::<RevisionId, (Map<Seq<char>, DocumentId>, V)>::empty().insert(first, (paths@, data)),
    {
        let ghost view = paths@;
        let mut revisions = Vec::new();
        revisions.push((first, paths, data));
        let history = ProjectHistory { current: 0, revisions };
        proof {
            history.lemma_entry(0);
            assert(history.revisions() =~= Map::<RevisionId, (Map<Seq<char>, DocumentId>, V)>::empty().insert(first, (view, data)));
        }
        history
    }

    /// The identity of the current revision.
    pub fn current(&self) -> (id: RevisionId)
        requires
            self.wf(),
        ensures
            id == self.current_id(),
            self.revisions().contains_key(id),
    {
        proof {
            self.lemma_entry(self.current as int);
        }
        self.revisions[self.current].0
    }

    /// The layout and data of the current revision.
    pub fn current_revision(&self) -> (revision: (&ProjectPaths, &V))
        requires
            self.wf(),
        ensures
            revision.0.wf(),
            (revision.0@, *revision.1) == self.revisions()[self.current_id()],
    {
        proof {
            self.lemma_entry(self.current as int);
        }
        let entry = &self.revisions[self.current];
        (&entry.1, &entry.2)
    }

    /// The published revision `id`, if there is one.
    pub fn revision(&self, id: RevisionId) -> (revision: Option<(&ProjectPaths, &V)>)
        requires
            self.wf(),
        ensures
            match revision {
                Some(r) => self.revisions().contains_key(id) && r.0.wf() && (r.0@, *r.1) == self.revisions()[id],
                None => !self.revisions().contains_key(id),
            },
    {
        let mut i: usize = 0;
        while i < self.revisions.len()
            invariant
                self.wf(),
                i <= self.revisions@.len(),
                forall|k: int| 0 <= k < i ==> (#[trigger] self.revisions@[k]).0 != id,
            decreases self.revisions.len() - i,
        {
            if self.revisions[i].0.0 == id.0 {
                proof {
                    self.lemma_entry(i as int);
                }
                return Some((&self.revisions[i].1, &self.revisions[i].2));
            }
            i += 1;
        }
        None
    }

    /// Whether `id` names a published revision.
    pub fn contains_revision(&self, id: RevisionId) -> (found: bool)
        requires
            self.wf(),
        ensures
            found == self.revisions().contains_key(id),
    {
        self.revision(id).is_some()
    }

    /// The layout a batch prepared against `base` would give, leaving the
    /// history as it is. A batch against any revision but the current one is
    /// stale and refused before any change is looked at; otherwise the first
    /// refused change is reported with the number of changes before it.
    pub fn prepare(&self, base: RevisionId, changes: &Vec<PathChange>) -> (result: Result<ProjectPaths, (usize, ProjectError)>)
        requires
            self.wf(),
            fresh_additions(self.revisions()[self.current_id()].0, changes@.map_values(|c: PathChange| c@)),
        ensures
            base != self.current_id() ==> (result matches Err((i, e)) && i == 0 && e@ == ProjectErrorView::StaleRevision(base)),
            base == self.current_id() ==> match apply_changes(
                self.revisions()[self.current_id()].0,
                changes@.map_values(|c: PathChange| c@),
            ) {
                Ok(n) => result matches Ok(p) && p.wf() && p@ == n,
                Err((i, e)) => result matches Err((j, f)) && j == i && f@ == e,
            },
    {
        proof {
            self.lemma_entry(self.current as int);
        }
        let current = self.revisions[self.current].0;
        if let Err(e) = check_base(current, base) {
            return Err((0, e));
        }
        let mut working = self.revisions[self.current].1.duplicate();
        match working.apply_batch(changes) {
            Ok(()) => Ok(working),
            Err(refusal) => Err(refusal),
        }
    }

    /// Publish an accepted batch as revision `next`, which becomes current.
    /// Every revision published before keeps its layout and data.
    pub fn publish(&mut self, next: RevisionId, paths: ProjectPaths, data: V)
        requires
            old(self).wf(),
            paths.wf(),
            !old(self).revisions().contains_key(next),
        ensures
            final(self).wf(),
            final(self).current_id() == next,
            final(self).revisions() == old(self).revisions().insert(next, (paths@, data)),
            forall|id: RevisionId| #[trigger] old(self).revisions().contains_key(id) ==> final(self).revisions().contains_key(id)
                && final(self).revisions()[id] == old(self).revisions()[id],
    {
        let ghost before = old(self).revisions();
        let ghost entry = (paths@, data);
        let ghost old_revisions = self.revisions@;
        assert forall|i: int| 0 <= i < old_revisions.len() implies (#[trigger] old_revisions[i]).0 != next by {
            self.lemma_entry(i);
        }
        self.revisions.push((next, paths, data));
        self.current = self.revisions.len() - 1;
        proof {
            let n = self.revisions@.len() - 1;
            assert(self.revisions@[n].0 == next);
            assert forall|i: int| 0 <= i < old_revisions.len() implies #[trigger] self.revisions@[i] == old_revisions[i] by {}
            self.lemma_entry(n);
            assert forall|id: RevisionId| #[trigger] self.revisions().contains_key(id) <==> before.insert(next, entry).contains_key(id) by {
                if before.contains_key(id) {
                    let i = choose|i: int| 0 <= i < old_revisions.len() && (#[trigger] old_revisions[i]).0 == id;
                    assert(self.revisions@[i].0 == id);
                }
                if self.revisions().contains_key(id) && id != next {
                    let i = choose|i: int| 0 <= i < self.revisions@.len() && (#[trigger] self.revisions@[i]).0 == id;
                    assert(i < old_revisions.len());
                    assert(old_revisions[i].0 == id);
                }
            }
            assert forall|id: RevisionId| #[trigger] before.contains_key(id) implies self.revisions()[id] == before[id] by {
                let i = choose|i: int| 0 <= i < old_revisions.len() && (#[trigger] old_revisions[i]).0 == id;
                self.lemma_entry(i);
                old(self).lemma_entry(i);
            }
            assert(self.revisions() =~= before.insert(next, entry));
        }
    }
}

} // verus!
