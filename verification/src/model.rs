//! Plain canonical graph data read by change detection and corrections:
//! records with slots, association occurrences, structural obligations and
//! containment edges.
use crate::ids::{AssociationOccurrenceId, ElementId, EnumerationLiteralId, MetaclassId, Origin, PropertyId};
use vstd::prelude::*;

verus! {

/// A stored slot value.
#[derive(Debug)]
pub enum Value {
    Boolean(bool),
    Integer(i64),
    String(String),
    Enumeration(EnumerationLiteralId),
    Reference(ElementId),
}

/// The mathematical content of a value.
pub enum ValueView {
    Boolean(bool),
    Integer(i64),
    String(Seq<char>),
    Enumeration(EnumerationLiteralId),
    Reference(ElementId),
}

impl View for Value {
    type V = ValueView;

    open spec fn view(&self) -> ValueView {
        match self {
            Value::Boolean(b) => ValueView::Boolean(*b),
            Value::Integer(i) => ValueView::Integer(*i),
            Value::String(s) => ValueView::String(s@),
            Value::Enumeration(e) => ValueView::Enumeration(*e),
            Value::Reference(r) => ValueView::Reference(*r),
        }
    }
}

impl Clone for Value {
    fn clone(&self) -> (copy: Self)
        ensures
            copy@ == self@,
    {
        match self {
            Value::Boolean(b) => Value::Boolean(*b),
            Value::Integer(i) => Value::Integer(*i),
            Value::String(s) => Value::String(s.clone()),
            Value::Enumeration(e) => Value::Enumeration(*e),
            Value::Reference(r) => Value::Reference(*r),
        }
    }
}

pub fn value_eq(a: &Value, b: &Value) -> (same: bool)
    ensures
        same == (a@ == b@),
{
    match (a, b) {
        (Value::Boolean(x), Value::Boolean(y)) => *x == *y,
        (Value::Integer(x), Value::Integer(y)) => *x == *y,
        (Value::String(x), Value::String(y)) => *x == *y,
        (Value::Enumeration(x), Value::Enumeration(y)) => *x == *y,
        (Value::Reference(x), Value::Reference(y)) => *x == *y,
        _ => false,
    }
}

pub open spec fn values_view(values: Seq<Value>) -> Seq<ValueView> {
    values.map_values(|v: Value| v@)
}

pub fn values_eq(a: &Vec<Value>, b: &Vec<Value>) -> (same: bool)
    ensures
        same == (values_view(a@) == values_view(b@)),
{
    if a.len() != b.len() {
        assert(values_view(a@).len() != values_view(b@).len());
        return false;
    }
    let mut i: usize = 0;
    while i < a.len()
        invariant
            a@.len() == b@.len(),
            i <= a@.len(),
            forall|k: int| 0 <= k < i ==> a@[k]@ == b@[k]@,
        decreases a.len() - i,
    {
        if !value_eq(&a[i], &b[i]) {
            assert(values_view(a@)[i as int] != values_view(b@)[i as int]);
            return false;
        }
        i = i + 1;
    }
    assert(values_view(a@) =~= values_view(b@));
    true
}

pub fn copy_values(values: &Vec<Value>) -> (copy: Vec<Value>)
    ensures
        values_view(copy@) == values_view(values@),
{
    let mut out: Vec<Value> = Vec::new();
    let mut i: usize = 0;
    while i < values.len()
        invariant
            i <= values@.len(),
            out@.len() == i,
            forall|k: int| 0 <= k < i ==> out@[k]@ == values@[k]@,
        decreases values.len() - i,
    {
        out.push(values[i].clone());
        i = i + 1;
    }
    assert(values_view(out@) =~= values_view(values@));
    out
}

/// A slot holds one value or an ordered list.
#[derive(Debug)]
pub enum SlotValue {
    Scalar(Value),
    Ordered(Vec<Value>),
}

pub enum SlotValueView {
    Scalar(ValueView),
    Ordered(Seq<ValueView>),
}

impl View for SlotValue {
    type V = SlotValueView;

    open spec fn view(&self) -> SlotValueView {
        match self {
            SlotValue::Scalar(v) => SlotValueView::Scalar(v@),
            SlotValue::Ordered(vs) => SlotValueView::Ordered(values_view(vs@)),
        }
    }
}

impl Clone for SlotValue {
    fn clone(&self) -> (copy: Self)
        ensures
            copy@ == self@,
    {
        match self {
            SlotValue::Scalar(v) => SlotValue::Scalar(v.clone()),
            SlotValue::Ordered(vs) => SlotValue::Ordered(copy_values(vs)),
        }
    }
}

/// Every value a slot holds, in order.
pub open spec fn slot_values(slot: SlotValueView) -> Seq<ValueView> {
    match slot {
        SlotValueView::Scalar(v) => seq![v],
        SlotValueView::Ordered(vs) => vs,
    }
}

pub fn slot_value_eq(a: &SlotValue, b: &SlotValue) -> (same: bool)
    ensures
        same == (a@ == b@),
{
    match (a, b) {
        (SlotValue::Scalar(x), SlotValue::Scalar(y)) => value_eq(x, y),
        (SlotValue::Ordered(x), SlotValue::Ordered(y)) => values_eq(x, y),
        _ => false,
    }
}

/// One canonical record: identity, metaclass, origin and its slots keyed by
/// property, in increasing property order, each with its own origin.
#[derive(Debug)]
pub struct ElementRecord {
    pub id: ElementId,
    pub metaclass: MetaclassId,
    pub origin: Origin,
    pub slots: Vec<(PropertyId, SlotValue, Origin)>,
}

pub struct RecordView {
    pub id: ElementId,
    pub metaclass: MetaclassId,
    pub origin: Origin,
    pub slots: Seq<(PropertyId, SlotValueView, Origin)>,
}

impl View for ElementRecord {
    type V = RecordView;

    open spec fn view(&self) -> RecordView {
        RecordView {
            id: self.id,
            metaclass: self.metaclass,
            origin: self.origin,
            slots: self.slots@.map_values(|s: (PropertyId, SlotValue, Origin)| (s.0, s.1@, s.2)),
        }
    }
}

impl ElementRecord {
    /// Slots are keyed by strictly increasing property.
    pub open spec fn wf(&self) -> bool {
        forall|i: int, j: int| 0 <= i < j < self.slots@.len() ==> self.slots@[i].0.0 < self.slots@[j].0.0
    }
}

/// The record itself and every element its slots reference.
pub open spec fn record_participants(r: RecordView) -> Set<ElementId> {
    Set::new(|x: ElementId| x == r.id || exists|i: int, j: int|
        0 <= i < r.slots.len() && 0 <= j < slot_values(r.slots[i].1).len()
            && slot_values(r.slots[i].1)[j] == ValueView::Reference(x))
}

pub fn record_eq(a: &ElementRecord, b: &ElementRecord) -> (same: bool)
    ensures
        same == (a@ == b@),
{
    if a.id != b.id || a.metaclass != b.metaclass || a.origin != b.origin || a.slots.len() != b.slots.len() {
        proof {
            if a.slots.len() != b.slots.len() {
                assert(a@.slots.len() != b@.slots.len());
            }
        }
        return false;
    }
    let mut i: usize = 0;
    while i < a.slots.len()
        invariant
            a.slots@.len() == b.slots@.len(),
            i <= a.slots@.len(),
            forall|k: int| 0 <= k < i ==> a@.slots[k] == b@.slots[k],
        decreases a.slots.len() - i,
    {
        let same = a.slots[i].0 == b.slots[i].0 && slot_value_eq(&a.slots[i].1, &b.slots[i].1) && a.slots[i].2 == b.slots[i].2;
        if !same {
            assert(a@.slots[i as int] != b@.slots[i as int]);
            return false;
        }
        i = i + 1;
    }
    assert(a@.slots =~= b@.slots);
    true
}

/// A link between elements, keyed by end property.
#[derive(Debug)]
pub struct AssociationOccurrence {
    pub id: AssociationOccurrenceId,
    pub association: MetaclassId,
    pub ends: Vec<(PropertyId, ElementId)>,
    pub positions: Vec<(PropertyId, u64)>,
    pub origin: Origin,
}

pub struct OccurrenceView {
    pub id: AssociationOccurrenceId,
    pub association: MetaclassId,
    pub ends: Seq<(PropertyId, ElementId)>,
    pub positions: Seq<(PropertyId, u64)>,
    pub origin: Origin,
}

impl View for AssociationOccurrence {
    type V = OccurrenceView;

    open spec fn view(&self) -> OccurrenceView {
        OccurrenceView {
            id: self.id,
            association: self.association,
            ends: self.ends@,
            positions: self.positions@,
            origin: self.origin,
        }
    }
}

/// Every element an occurrence links.
pub open spec fn occurrence_participants(o: OccurrenceView) -> Set<ElementId> {
    Set::new(|x: ElementId| exists|i: int| 0 <= i < o.ends.len() && o.ends[i].1 == x)
}

fn ends_eq(a: &Vec<(PropertyId, ElementId)>, b: &Vec<(PropertyId, ElementId)>) -> (same: bool)
    ensures
        same == (a@ == b@),
{
    if a.len() != b.len() {
        return false;
    }
    let mut i: usize = 0;
    while i < a.len()
        invariant
            a@.len() == b@.len(),
            i <= a@.len(),
            forall|k: int| 0 <= k < i ==> a@[k] == b@[k],
        decreases a.len() - i,
    {
        if !(a[i].0 == b[i].0 && a[i].1 == b[i].1) {
            return false;
        }
        i = i + 1;
    }
    assert(a@ =~= b@);
    true
}

fn positions_eq(a: &Vec<(PropertyId, u64)>, b: &Vec<(PropertyId, u64)>) -> (same: bool)
    ensures
        same == (a@ == b@),
{
    if a.len() != b.len() {
        return false;
    }
    let mut i: usize = 0;
    while i < a.len()
        invariant
            a@.len() == b@.len(),
            i <= a@.len(),
            forall|k: int| 0 <= k < i ==> a@[k] == b@[k],
        decreases a.len() - i,
    {
        if !(a[i].0 == b[i].0 && a[i].1 == b[i].1) {
            return false;
        }
        i = i + 1;
    }
    assert(a@ =~= b@);
    true
}

pub fn occurrence_eq(a: &AssociationOccurrence, b: &AssociationOccurrence) -> (same: bool)
    ensures
        same == (a@ == b@),
{
    a.id == b.id && a.association == b.association && ends_eq(&a.ends, &b.ends) && positions_eq(&a.positions, &b.positions) && a.origin == b.origin
}

/// An unmet structural storage requirement: element, property, actual count.
#[derive(Clone, Copy, Debug, PartialEq, Eq, Structural)]
pub struct ConstructionObligation {
    pub element: ElementId,
    pub property: PropertyId,
    pub actual: u64,
}

/// A canonical construction: records and occurrences in strictly increasing
/// identity order, outstanding obligations, and direct containment edges
/// (owner, owned) from owned-relationship and owned-related-element slots.
#[derive(Debug)]
pub struct ConstructionView {
    pub elements: Vec<ElementRecord>,
    pub occurrences: Vec<AssociationOccurrence>,
    pub obligations: Vec<ConstructionObligation>,
    pub containment: Vec<(ElementId, ElementId)>,
}

impl ConstructionView {
    pub open spec fn wf(&self) -> bool {
        &&& forall|i: int, j: int| 0 <= i < j < self.elements@.len() ==> self.elements@[i].id.0 < self.elements@[j].id.0
        &&& forall|i: int, j: int| 0 <= i < j < self.occurrences@.len() ==> self.occurrences@[i].id.0 < self.occurrences@[j].id.0
    }
}

/// A source reconstruction reproduces restored declarations when it leaves no
/// obligation and has exactly the restored records and occurrences, in order.
pub fn reproduces_declarations(reconstructed: &ConstructionView, restored: &ConstructionView) -> (same: bool)
    ensures
        same == (reconstructed.obligations@.len() == 0 && reconstructed.elements@.map_values(|r: ElementRecord| r@)
            == restored.elements@.map_values(|r: ElementRecord| r@) && reconstructed.occurrences@.map_values(
            |o: AssociationOccurrence| o@,
        ) == restored.occurrences@.map_values(|o: AssociationOccurrence| o@)),
{
    let ghost ra = reconstructed.elements@.map_values(|r: ElementRecord| r@);
    let ghost rb = restored.elements@.map_values(|r: ElementRecord| r@);
    let ghost oa = reconstructed.occurrences@.map_values(|o: AssociationOccurrence| o@);
    let ghost ob = restored.occurrences@.map_values(|o: AssociationOccurrence| o@);
    if reconstructed.obligations.len() != 0 {
        return false;
    }
    if reconstructed.elements.len() != restored.elements.len() {
        proof {
            assert(ra.len() != rb.len());
        }
        return false;
    }
    let mut i: usize = 0;
    while i < reconstructed.elements.len()
        invariant
            reconstructed.elements@.len() == restored.elements@.len(),
            ra == reconstructed.elements@.map_values(|r: ElementRecord| r@),
            rb == restored.elements@.map_values(|r: ElementRecord| r@),
            i <= reconstructed.elements@.len(),
            forall|k: int| 0 <= k < i ==> ra[k] == rb[k],
        decreases reconstructed.elements@.len() - i,
    {
        if !record_eq(&reconstructed.elements[i], &restored.elements[i]) {
            proof {
                assert(ra[i as int] != rb[i as int]);
            }
            return false;
        }
        i = i + 1;
    }
    proof {
        assert(ra =~= rb);
    }
    if reconstructed.occurrences.len() != restored.occurrences.len() {
        proof {
            assert(oa.len() != ob.len());
        }
        return false;
    }
    let mut k: usize = 0;
    while k < reconstructed.occurrences.len()
        invariant
            reconstructed.occurrences@.len() == restored.occurrences@.len(),
            oa == reconstructed.occurrences@.map_values(|o: AssociationOccurrence| o@),
            ob == restored.occurrences@.map_values(|o: AssociationOccurrence| o@),
            k <= reconstructed.occurrences@.len(),
            forall|j: int| 0 <= j < k ==> oa[j] == ob[j],
        decreases reconstructed.occurrences@.len() - k,
    {
        if !occurrence_eq(&reconstructed.occurrences[k], &restored.occurrences[k]) {
            proof {
                assert(oa[k as int] != ob[k as int]);
            }
            return false;
        }
        k = k + 1;
    }
    proof {
        assert(oa =~= ob);
    }
    true
}

/// A set of elements without repetition.
#[derive(Clone, Debug)]
pub struct ElementSet {
    items: Vec<ElementId>,
}

impl View for ElementSet {
    type V = Set<ElementId>;

    closed spec fn view(&self) -> Set<ElementId> {
        self.items@.to_set()
    }
}

impl ElementSet {
    pub closed spec fn wf(&self) -> bool {
        self.items@.no_duplicates()
    }

    pub fn new() -> (s: ElementSet)
        ensures
            s.wf(),
            s@ == Set::<ElementId>::empty(),
    {
        let s = ElementSet { items: Vec::new() };
        assert(s.items@.to_set() =~= Set::<ElementId>::empty());
        s
    }

    pub fn contains(&self, x: ElementId) -> (found: bool)
        requires
            self.wf(),
        ensures
            found == self@.contains(x),
    {
        let mut i: usize = 0;
        while i < self.items.len()
            invariant
                i <= self.items@.len(),
                forall|k: int| 0 <= k < i ==> self.items@[k] != x,
            decreases self.items.len() - i,
        {
            if self.items[i] == x {
                assert(self.items@.to_set().contains(self.items@[i as int]));
                return true;
            }
            i = i + 1;
        }
        assert(!self.items@.to_set().contains(x)) by {
            if self.items@.to_set().contains(x) {
                let k = self.items@.index_of(x);
                assert(self.items@[k] == x);
            }
        }
        false
    }

    pub fn insert(&mut self, x: ElementId)
        requires
            old(self).wf(),
        ensures
            final(self).wf(),
            final(self)@ == old(self)@.insert(x),
    {
        if !self.contains(x) {
            let ghost before = self.items@;
            self.items.push(x);
            assert(self.items@.to_set() =~= before.to_set().insert(x)) by {
                assert forall|y: ElementId| self.items@.to_set().contains(y) <==> before.to_set().insert(x).contains(y) by {
                    if self.items@.to_set().contains(y) && y != x {
                        let k = self.items@.index_of(y);
                        assert(before[k] == y);
                    }
                    if before.to_set().contains(y) {
                        let k = before.index_of(y);
                        assert(self.items@[k] == y);
                    }
                    if y == x {
                        assert(self.items@[before.len() as int] == x);
                    }
                }
            }
            assert(self.items@.no_duplicates()) by {
                assert forall|i: int, j: int| 0 <= i < self.items@.len() && 0 <= j < self.items@.len() && i != j implies self.items@[i] != self.items@[j] by {
                    if i == before.len() as int && j < before.len() {
                        assert(before.to_set().contains(before[j]));
                    }
                    if j == before.len() as int && i < before.len() {
                        assert(before.to_set().contains(before[i]));
                    }
                }
            }
        } else {
            assert(old(self)@.insert(x) =~= old(self)@);
        }
    }

    /// The members, each once.
    pub fn to_vec(&self) -> (v: Vec<ElementId>)
        requires
            self.wf(),
        ensures
            v@.to_set() == self@,
            v@.no_duplicates(),
    {
        self.items.clone()
    }

    pub fn len(&self) -> (n: usize)
        requires
            self.wf(),
        ensures
            n == self@.len(),
    {
        proof {
            self.items@.unique_seq_to_set();
        }
        self.items.len()
    }
}

} // verus!
