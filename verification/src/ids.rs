//! Plain canonical identities. Each is an opaque 128-bit value; ordering and
//! equality are those of the underlying integer.
use vstd::prelude::*;

verus! {

/// Canonical element identity.
#[derive(Clone, Copy, Debug, PartialEq, Eq, PartialOrd, Ord, Hash, Structural)]
pub struct ElementId(pub u128);

/// Identity of a source document, independent of its path.
#[derive(Clone, Copy, Debug, PartialEq, Eq, PartialOrd, Ord, Hash, Structural)]
pub struct DocumentId(pub u128);

/// Identity of one immutable source revision.
#[derive(Clone, Copy, Debug, PartialEq, Eq, PartialOrd, Ord, Hash, Structural)]
pub struct SourceRevisionId(pub u128);

/// Identity of one syntax node in a revision's syntax arena.
#[derive(Clone, Copy, Debug, PartialEq, Eq, PartialOrd, Ord, Hash, Structural)]
pub struct SyntaxNodeId(pub u128);

/// Identity of a source project, independent of paths and documents.
#[derive(Clone, Copy, Debug, PartialEq, Eq, PartialOrd, Ord, Hash, Structural)]
pub struct ProjectId(pub u128);

/// Identity of one published model revision.
#[derive(Clone, Copy, Debug, PartialEq, Eq, PartialOrd, Ord, Hash, Structural)]
pub struct RevisionId(pub u128);

/// Identity of a metamodel property.
#[derive(Clone, Copy, Debug, PartialEq, Eq, PartialOrd, Ord, Hash, Structural)]
pub struct PropertyId(pub u128);

/// Identity of a metaclass.
#[derive(Clone, Copy, Debug, PartialEq, Eq, PartialOrd, Ord, Hash, Structural)]
pub struct MetaclassId(pub u128);

/// Identity of an enumeration literal.
#[derive(Clone, Copy, Debug, PartialEq, Eq, PartialOrd, Ord, Hash, Structural)]
pub struct EnumerationLiteralId(pub u128);

/// Identity of a pinned library.
#[derive(Clone, Copy, Debug, PartialEq, Eq, PartialOrd, Ord, Hash, Structural)]
pub struct LibraryId(pub u128);

/// Identity of one association occurrence.
#[derive(Clone, Copy, Debug, PartialEq, Eq, PartialOrd, Ord, Hash, Structural)]
pub struct AssociationOccurrenceId(pub u128);

impl ElementId {
    pub fn from_u128(value: u128) -> (id: ElementId)
        ensures
            id.0 == value,
    {
        ElementId(value)
    }

    pub fn as_u128(&self) -> (value: u128)
        ensures
            value == self.0,
    {
        self.0
    }
}

/// A canonical element identity from its integer value.
pub fn id(n: u128) -> (id: ElementId)
    ensures
        id.0 == n,
{
    ElementId(n)
}

/// A half-open source byte range whose start never exceeds its end.
#[derive(Clone, Copy, Debug, PartialEq, Eq, Structural)]
pub struct ByteRange {
    pub start: u64,
    pub end: u64,
}

impl ByteRange {
    /// `Some` exactly when `start <= end`.
    pub fn new(start: u64, end: u64) -> (range: Option<ByteRange>)
        ensures
            range is Some <==> start <= end,
            range matches Some(r) ==> r.start == start && r.end == end,
    {
        if start <= end {
            Some(ByteRange { start, end })
        } else {
            None
        }
    }
}

/// Exact source evidence of a canonical fact.
#[derive(Clone, Copy, Debug, PartialEq, Eq, Structural)]
pub struct SourceOrigin {
    pub document: DocumentId,
    pub revision: SourceRevisionId,
    pub range: ByteRange,
    pub syntax_node: Option<SyntaxNodeId>,
}

/// Key of one canonical fact: a record, one of its slots, or an occurrence.
#[derive(Clone, Copy, Debug, PartialEq, Eq, Structural)]
pub enum FactKey {
    Element(ElementId),
    Property { element: ElementId, property: PropertyId },
    AssociationOccurrence(AssociationOccurrenceId),
}

/// Declared origin of a canonical record or slot, as far as the audits read it.
#[derive(Clone, Copy, Debug, PartialEq, Eq, Structural)]
pub enum DeclaredOrigin {
    StandardLibrary { library: LibraryId },
    Authored { source: Option<SourceOrigin> },
    ReviewedCorrection,
}

/// Origin of a canonical record or slot.
#[derive(Clone, Copy, Debug, PartialEq, Eq, Structural)]
pub enum Origin {
    Declared(DeclaredOrigin),
    Derived,
}

/// Completeness of a semantic answer.
#[derive(Clone, Copy, Debug, PartialEq, Eq, Structural)]
pub enum Completeness {
    Complete,
    Incomplete,
    Invalid,
}

/// The order of fact keys: elements, then properties (by element, then
/// property), then occurrences, each by identity.
pub open spec fn fact_key_lt(a: FactKey, b: FactKey) -> bool {
    match (a, b) {
        (FactKey::Element(x), FactKey::Element(y)) => x.0 < y.0,
        (FactKey::Element(_), _) => true,
        (FactKey::Property { element: e, property: p }, FactKey::Property { element: f, property: q }) => e.0 < f.0
            || (e.0 == f.0 && p.0 < q.0),
        (FactKey::Property { .. }, FactKey::AssociationOccurrence(_)) => true,
        (FactKey::AssociationOccurrence(x), FactKey::AssociationOccurrence(y)) => x.0 < y.0,
        _ => false,
    }
}

pub fn fact_key_less(a: FactKey, b: FactKey) -> (less: bool)
    ensures
        less == fact_key_lt(a, b),
{
    match (a, b) {
        (FactKey::Element(x), FactKey::Element(y)) => x.0 < y.0,
        (FactKey::Element(_), _) => true,
        (FactKey::Property { element: e, property: p }, FactKey::Property { element: f, property: q }) => e.0 < f.0
            || (e.0 == f.0 && p.0 < q.0),
        (FactKey::Property { .. }, FactKey::AssociationOccurrence(_)) => true,
        (FactKey::AssociationOccurrence(x), FactKey::AssociationOccurrence(y)) => x.0 < y.0,
        _ => false,
    }
}

/// The order of fact keys is a strict total order.
pub proof fn lemma_fact_key_order(a: FactKey, b: FactKey, c: FactKey)
    ensures
        !fact_key_lt(a, a),
        a != b ==> fact_key_lt(a, b) || fact_key_lt(b, a),
        fact_key_lt(a, b) && fact_key_lt(b, c) ==> fact_key_lt(a, c),
{
}

} // verus!
