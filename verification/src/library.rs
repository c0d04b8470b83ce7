//! Pending source reference assertions and source evidence maps.
use crate::ids::{fact_key_less, fact_key_lt, lemma_fact_key_order, ElementId, FactKey, MetaclassId, PropertyId, SourceOrigin};
use vstd::prelude::*;

verus! {

/// A possibly qualified name as written in source.
#[derive(Debug)]
pub struct QualifiedName {
    pub absolute: bool,
    pub segments: Vec<String>,
}

/// The segments of a name as character sequences.
pub open spec fn segments_view(segments: Seq<String>) -> Seq<Seq<char>> {
    segments.map_values(|s: String| s@)
}

/// A reference is an unlowered assertion until its target is established semantically.
#[derive(Debug)]
pub struct PendingLibraryReference {
    pub relationship: ElementId,
    pub property: PropertyId,
    pub expected: MetaclassId,
    pub name: QualifiedName,
    pub membership_target: bool,
    pub executable_expression: bool,
    pub origin: SourceOrigin,
}

/// Everything that distinguishes one source assertion from another.
pub type ReferenceKey = (
    ElementId,
    PropertyId,
    MetaclassId,
    bool,
    Seq<Seq<char>>,
    bool,
    bool,
    SourceOrigin,
);

pub open spec fn reference_key(r: PendingLibraryReference) -> ReferenceKey {
    (
        r.relationship,
        r.property,
        r.expected,
        r.name.absolute,
        segments_view(r.name.segments@),
        r.membership_target,
        r.executable_expression,
        r.origin,
    )
}

pub fn copy_segments(segments: &Vec<String>) -> (copy: Vec<String>)
    ensures
        segments_view(copy@) == segments_view(segments@),
{
    let mut copy: Vec<String> = Vec::new();
    let mut i: usize = 0;
    while i < segments.len()
        invariant
            i <= segments.len(),
            copy@.len() == i,
            forall|j: int| 0 <= j < i ==> copy@[j]@ == segments@[j]@,
        decreases segments.len() - i,
    {
        copy.push(segments[i].clone());
        i = i + 1;
    }
    assert(segments_view(copy@) =~= segments_view(segments@));
    copy
}

/// Whether two segment lists spell the same name path.
pub fn same_segments(a: &Vec<String>, b: &Vec<String>) -> (same: bool)
    ensures
        same == (segments_view(a@) == segments_view(b@)),
{
    if a.len() != b.len() {
        assert(segments_view(a@).len() != segments_view(b@).len());
        return false;
    }
    let mut i: usize = 0;
    while i < a.len()
        invariant
            a@.len() == b@.len(),
            i <= a@.len(),
            forall|j: int| 0 <= j < i ==> a@[j]@ == b@[j]@,
        decreases a.len() - i,
    {
        if a[i] != b[i] {
            assert(segments_view(a@)[i as int] != segments_view(b@)[i as int]);
            return false;
        }
        i = i + 1;
    }
    assert(segments_view(a@) =~= segments_view(b@));
    true
}

impl Clone for QualifiedName {
    fn clone(&self) -> (copy: Self)
        ensures
            copy.absolute == self.absolute,
            segments_view(copy.segments@) == segments_view(self.segments@),
    {
        QualifiedName { absolute: self.absolute, segments: copy_segments(&self.segments) }
    }
}

impl Clone for PendingLibraryReference {
    fn clone(&self) -> (copy: Self)
        ensures
            reference_key(copy) == reference_key(*self),
    {
        PendingLibraryReference {
            relationship: self.relationship,
            property: self.property,
            expected: self.expected,
            name: self.name.clone(),
            membership_target: self.membership_target,
            executable_expression: self.executable_expression,
            origin: self.origin,
        }
    }
}

/// Whether two references are the same source assertion.
pub fn same_reference(a: &PendingLibraryReference, b: &PendingLibraryReference) -> (same: bool)
    ensures
        same == (reference_key(*a) == reference_key(*b)),
{
    a.relationship == b.relationship && a.property == b.property && a.expected == b.expected
        && a.name.absolute == b.name.absolute && same_segments(&a.name.segments, &b.name.segments)
        && a.membership_target == b.membership_target && a.executable_expression
        == b.executable_expression && a.origin == b.origin
}

/// Source evidence per canonical fact; each fact appears at most once.
#[derive(Clone, Debug)]
pub struct LibrarySourceMap {
    pub entries: Vec<(FactKey, SourceOrigin)>,
}

impl LibrarySourceMap {
    pub open spec fn wf(&self) -> bool {
        forall|i: int, j: int|
            0 <= i < j < self.entries@.len() ==> self.entries@[i].0 != self.entries@[j].0
    }

    /// The evidence recorded for `fact`, if any.
    pub open spec fn lookup(&self, fact: FactKey) -> Option<SourceOrigin> {
        if exists|i: int| 0 <= i < self.entries@.len() && self.entries@[i].0 == fact {
            let i = choose|i: int| 0 <= i < self.entries@.len() && self.entries@[i].0 == fact;
            Some(self.entries@[i].1)
        } else {
            None
        }
    }

    pub fn get(&self, fact: FactKey) -> (found: Option<SourceOrigin>)
        requires
            self.wf(),
        ensures
            found == self.lookup(fact),
    {
        let mut i: usize = 0;
        while i < self.entries.len()
            invariant
                self.wf(),
                i <= self.entries@.len(),
                forall|j: int| 0 <= j < i ==> self.entries@[j].0 != fact,
            decreases self.entries.len() - i,
        {
            if self.entries[i].0 == fact {
                let found = self.entries[i].1;
                proof {
                    let k = choose|k: int|
                        0 <= k < self.entries@.len() && self.entries@[k].0 == fact;
                    assert(k == i);
                }
                return Some(found);
            }
            i = i + 1;
        }
        None
    }

    /// In a map without repeated facts, the entry at `i` is what its fact looks up.
    pub proof fn lemma_lookup_at(&self, i: int)
        requires
            self.wf(),
            0 <= i < self.entries@.len(),
        ensures
            self.lookup(self.entries@[i].0) == Some(self.entries@[i].1),
    {
        let fact = self.entries@[i].0;
        let k = choose|k: int| 0 <= k < self.entries@.len() && self.entries@[k].0 == fact;
        if k != i {
            if k < i {
                assert(self.entries@[k].0 != self.entries@[i].0);
            } else {
                assert(self.entries@[i].0 != self.entries@[k].0);
            }
        }
    }

    /// Facts strictly ascend, as in a map ordered by fact.
    pub open spec fn ascending(&self) -> bool {
        forall|i: int, j: int| 0 <= i < j < self.entries@.len() ==> fact_key_lt(#[trigger] self.entries@[i].0, #[trigger] self.entries@[j].0)
    }

    /// Ascending facts are distinct.
    pub proof fn lemma_ascending_wf(&self)
        requires
            self.ascending(),
        ensures
            self.wf(),
    {
        assert forall|i: int, j: int| 0 <= i < j < self.entries@.len() implies self.entries@[i].0 != self.entries@[j].0 by {
            lemma_fact_key_order(self.entries@[i].0, self.entries@[j].0, self.entries@[j].0);
        }
    }

    /// Record `origin` as the evidence of `fact` at its place in fact order,
    /// replacing earlier evidence.
    pub fn insert_ordered(&mut self, fact: FactKey, origin: SourceOrigin)
        requires
            old(self).ascending(),
        ensures
            final(self).ascending(),
            final(self).wf(),
            forall|f: FactKey| #[trigger] final(self).lookup(f) == if f == fact {
                Some(origin)
            } else {
                old(self).lookup(f)
            },
    {
        let ghost before = *self;
        proof {
            before.lemma_ascending_wf();
        }
        let mut i: usize = 0;
        while i < self.entries.len() && fact_key_less(self.entries[i].0, fact)
            invariant
                *self == before,
                before.ascending(),
                i <= self.entries@.len(),
                forall|j: int| 0 <= j < i ==> fact_key_lt(#[trigger] self.entries@[j].0, fact),
            decreases self.entries@.len() - i,
        {
            i = i + 1;
        }
        let ghost a = before.entries@;
        if i < self.entries.len() && self.entries[i].0 == fact {
            self.entries.set(i, (fact, origin));
            proof {
                let b = self.entries@;
                assert forall|x: int, y: int| 0 <= x < y < b.len() implies fact_key_lt(#[trigger] b[x].0, #[trigger] b[y].0) by {
                    assert(b[x].0 == a[x].0 && b[y].0 == a[y].0);
                }
                self.lemma_ascending_wf();
                assert forall|f: FactKey| #[trigger] self.lookup(f) == if f == fact {
                    Some(origin)
                } else {
                    before.lookup(f)
                } by {
                    if f == fact {
                        self.lemma_lookup_at(i as int);
                    } else if exists|j: int| 0 <= j < b.len() && b[j].0 == f {
                        let j = choose|j: int| 0 <= j < b.len() && b[j].0 == f;
                        self.lemma_lookup_at(j);
                        before.lemma_lookup_at(j);
                    } else {
                        assert(!exists|j: int| 0 <= j < a.len() && a[j].0 == f) by {
                            if exists|j: int| 0 <= j < a.len() && a[j].0 == f {
                                let j = choose|j: int| 0 <= j < a.len() && a[j].0 == f;
                                assert(b[j].0 == f);
                            }
                        }
                    }
                }
            }
        } else {
            proof {
                if i < a.len() {
                    lemma_fact_key_order(a[i as int].0, fact, a[i as int].0);
                    assert(fact_key_lt(fact, a[i as int].0));
                }
            }
            self.entries.insert(i, (fact, origin));
            proof {
                let b = self.entries@;
                a.insert_ensures(i as int, (fact, origin));
                assert(b == a.insert(i as int, (fact, origin)));
                assert forall|x: int, y: int| 0 <= x < y < b.len() implies fact_key_lt(#[trigger] b[x].0, #[trigger] b[y].0) by {
                    if y < i {
                        assert(b[x] == a[x] && b[y] == a[y]);
                    } else if y == i {
                        assert(b[x] == a[x]);
                    } else if x < i {
                        assert(b[x] == a[x] && b[y] == a[y - 1]);
                        lemma_fact_key_order(a[x].0, fact, a[y - 1].0);
                        if y - 1 > i {
                            lemma_fact_key_order(fact, a[i as int].0, a[y - 1].0);
                        }
                    } else if x == i {
                        assert(b[y] == a[y - 1]);
                        if y - 1 > i {
                            lemma_fact_key_order(fact, a[i as int].0, a[y - 1].0);
                        }
                    } else {
                        assert(b[x] == a[x - 1] && b[y] == a[y - 1]);
                    }
                }
                self.lemma_ascending_wf();
                assert forall|f: FactKey| #[trigger] self.lookup(f) == if f == fact {
                    Some(origin)
                } else {
                    before.lookup(f)
                } by {
                    if f == fact {
                        assert(b[i as int].0 == fact);
                        self.lemma_lookup_at(i as int);
                        assert(!exists|j: int| 0 <= j < a.len() && a[j].0 == f) by {
                            if exists|j: int| 0 <= j < a.len() && a[j].0 == f {
                                let j = choose|j: int| 0 <= j < a.len() && a[j].0 == f;
                                if j < i {
                                    lemma_fact_key_order(a[j].0, a[j].0, a[j].0);
                                } else {
                                    if j > i {
                                        lemma_fact_key_order(fact, a[i as int].0, a[j].0);
                                    }
                                    lemma_fact_key_order(fact, fact, fact);
                                }
                            }
                        }
                    } else if exists|j: int| 0 <= j < b.len() && b[j].0 == f {
                        let j = choose|j: int| 0 <= j < b.len() && b[j].0 == f;
                        self.lemma_lookup_at(j);
                        if j < i {
                            assert(b[j] == a[j]);
                            before.lemma_lookup_at(j);
                        } else {
                            assert(j != i);
                            assert(b[j] == a[j - 1]);
                            before.lemma_lookup_at(j - 1);
                        }
                    } else {
                        assert(!exists|j: int| 0 <= j < a.len() && a[j].0 == f) by {
                            if exists|j: int| 0 <= j < a.len() && a[j].0 == f {
                                let j = choose|j: int| 0 <= j < a.len() && a[j].0 == f;
                                if j < i {
                                    assert(b[j].0 == f);
                                } else {
                                    assert(b[j + 1].0 == f);
                                }
                            }
                        }
                    }
                }
            }
        }
    }
}

} // verus!
