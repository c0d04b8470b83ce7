//! Small association tables: each key at most once, viewed as a finite map
//! from the keys' views to the values' views.
use crate::ids::{DocumentId, ElementId, FactKey, MetaclassId, PropertyId, SourceRevisionId, SyntaxNodeId};
use vstd::prelude::*;

verus! {

/// A key whose equality is equality of views.
pub trait TableKey: View + Sized {
    fn same_key(&self, other: &Self) -> (same: bool)
        ensures
            same == (self@ == other@),
    ;

    fn copy_key(&self) -> (copy: Self)
        ensures
            copy@ == self@,
    ;
}

/// A value that can be copied without changing its view.
pub trait TableValue: View + Sized {
    fn copy_value(&self) -> (copy: Self)
        ensures
            copy@ == self@,
    ;
}

impl View for ElementId {
    type V = ElementId;

    open spec fn view(&self) -> ElementId {
        *self
    }
}

impl View for PropertyId {
    type V = PropertyId;

    open spec fn view(&self) -> PropertyId {
        *self
    }
}

impl View for MetaclassId {
    type V = MetaclassId;

    open spec fn view(&self) -> MetaclassId {
        *self
    }
}

impl View for DocumentId {
    type V = DocumentId;

    open spec fn view(&self) -> DocumentId {
        *self
    }
}

impl View for SourceRevisionId {
    type V = SourceRevisionId;

    open spec fn view(&self) -> SourceRevisionId {
        *self
    }
}

impl View for SyntaxNodeId {
    type V = SyntaxNodeId;

    open spec fn view(&self) -> SyntaxNodeId {
        *self
    }
}

impl View for FactKey {
    type V = FactKey;

    open spec fn view(&self) -> FactKey {
        *self
    }
}

impl TableKey for DocumentId {
    fn same_key(&self, other: &Self) -> (same: bool) {
        self.0 == other.0
    }

    fn copy_key(&self) -> (copy: Self) {
        *self
    }
}

impl TableKey for SyntaxNodeId {
    fn same_key(&self, other: &Self) -> (same: bool) {
        self.0 == other.0
    }

    fn copy_key(&self) -> (copy: Self) {
        *self
    }
}

impl TableKey for FactKey {
    fn same_key(&self, other: &Self) -> (same: bool) {
        *self == *other
    }

    fn copy_key(&self) -> (copy: Self) {
        *self
    }
}

impl TableValue for (Option<SourceRevisionId>, Option<SourceRevisionId>) {
    fn copy_value(&self) -> (copy: Self) {
        (self.0, self.1)
    }
}

impl TableKey for ElementId {
    fn same_key(&self, other: &Self) -> (same: bool) {
        self.0 == other.0
    }

    fn copy_key(&self) -> (copy: Self) {
        *self
    }
}

impl TableKey for (ElementId, PropertyId) {
    fn same_key(&self, other: &Self) -> (same: bool) {
        self.0.0 == other.0.0 && self.1.0 == other.1.0
    }

    fn copy_key(&self) -> (copy: Self) {
        (self.0, self.1)
    }
}

impl TableKey for String {
    fn same_key(&self, other: &Self) -> (same: bool) {
        *self == *other
    }

    fn copy_key(&self) -> (copy: Self) {
        self.clone()
    }
}

impl TableKey for (String, String) {
    fn same_key(&self, other: &Self) -> (same: bool) {
        self.0 == other.0 && self.1 == other.1
    }

    fn copy_key(&self) -> (copy: Self) {
        (self.0.clone(), self.1.clone())
    }
}

impl TableValue for ElementId {
    fn copy_value(&self) -> (copy: Self) {
        *self
    }
}

impl TableValue for DocumentId {
    fn copy_value(&self) -> (copy: Self) {
        *self
    }
}

impl TableValue for MetaclassId {
    fn copy_value(&self) -> (copy: Self) {
        *self
    }
}

impl TableValue for () {
    fn copy_value(&self) -> (copy: Self) {
    }
}

/// Key-value pairs with pairwise distinct keys.
#[derive(Debug)]
pub struct Table<K, V> {
    items: Vec<(K, V)>,
}

/// Whether some pair of `items` has key `k`.
pub open spec fn has_key<K: View, V>(items: Seq<(K, V)>, k: K::V) -> bool {
    exists|i: int| 0 <= i < items.len() && #[trigger] items[i].0@ == k
}

/// The finite map that distinct-keyed pairs describe.
pub open spec fn pairs_map<K: View, V: View>(items: Seq<(K, V)>) -> Map<K::V, V::V> {
    Map::new(
        |k: K::V| has_key(items, k),
        |k: K::V| items[choose|i: int| 0 <= i < items.len() && #[trigger] items[i].0@ == k].1@,
    )
}

pub open spec fn distinct_keys<K: View, V>(items: Seq<(K, V)>) -> bool {
    forall|i: int, j: int|
        0 <= i < items.len() && 0 <= j < items.len() && i != j ==> #[trigger] items[i].0@
            != #[trigger] items[j].0@
}

/// In a distinct-keyed list, the pair at `i` gives the map's value at its key.
proof fn lemma_pairs_map_at<K: View, V: View>(items: Seq<(K, V)>, i: int)
    requires
        distinct_keys(items),
        0 <= i < items.len(),
    ensures
        pairs_map(items).contains_key(items[i].0@),
        pairs_map(items)[items[i].0@] == items[i].1@,
{
    let k = items[i].0@;
    assert(has_key(items, k));
    let j = choose|j: int| 0 <= j < items.len() && #[trigger] items[j].0@ == k;
    assert(j == i);
}

impl<K: TableKey, V: TableValue> View for Table<K, V> {
    type V = Map<K::V, V::V>;

    closed spec fn view(&self) -> Map<K::V, V::V> {
        pairs_map(self.items@)
    }
}

impl<K: TableKey, V: TableValue> Table<K, V> {
    pub closed spec fn wf(&self) -> bool {
        distinct_keys(self.items@)
    }

    pub fn new() -> (t: Self)
        ensures
            t.wf(),
            t@ == Map::<K::V, V::V>::empty(),
    {
        let t = Table { items: Vec::new() };
        assert(pairs_map(t.items@) =~= Map::<K::V, V::V>::empty());
        t
    }

    fn position(&self, k: &K) -> (pos: Option<usize>)
        requires
            self.wf(),
        ensures
            match pos {
                Some(i) => i < self.items@.len() && self.items@[i as int].0@ == k@,
                None => !has_key(self.items@, k@),
            },
    {
        let mut i: usize = 0;
        while i < self.items.len()
            invariant
                i <= self.items@.len(),
                forall|j: int| 0 <= j < i ==> self.items@[j].0@ != k@,
            decreases self.items.len() - i,
        {
            if self.items[i].0.same_key(k) {
                return Some(i);
            }
            i = i + 1;
        }
        None
    }

    pub fn contains(&self, k: &K) -> (found: bool)
        requires
            self.wf(),
        ensures
            found == self@.contains_key(k@),
    {
        match self.position(k) {
            Some(i) => {
                proof {
                    lemma_pairs_map_at(self.items@, i as int);
                }
                true
            },
            None => false,
        }
    }

    pub fn get(&self, k: &K) -> (found: Option<V>)
        requires
            self.wf(),
        ensures
            match found {
                Some(v) => self@.contains_key(k@) && v@ == self@[k@],
                None => !self@.contains_key(k@),
            },
    {
        match self.position(k) {
            Some(i) => {
                proof {
                    lemma_pairs_map_at(self.items@, i as int);
                }
                Some(self.items[i].1.copy_value())
            },
            None => None,
        }
    }

    /// Associate `v` with `k`; says whether `k` had a value before.
    pub fn insert(&mut self, k: K, v: V) -> (existed: bool)
        requires
            old(self).wf(),
        ensures
            final(self).wf(),
            existed == old(self)@.contains_key(k@),
            final(self)@ == old(self)@.insert(k@, v@),
    {
        let ghost before = self.items@;
        let ghost kv = k@;
        let ghost vv = v@;
        match self.position(&k) {
            Some(i) => {
                proof {
                    lemma_pairs_map_at(before, i as int);
                }
                self.items.set(i, (k, v));
                proof {
                    let after = self.items@;
                    assert(distinct_keys(after)) by {
                        assert forall|a: int, b: int|
                            0 <= a < after.len() && 0 <= b < after.len() && a != b implies #[trigger] after[a].0@
                            != #[trigger] after[b].0@ by {
                            assert(before[a].0@ != before[b].0@);
                        }
                    }
                    assert forall|x: K::V| #[trigger] pairs_map(after).contains_key(x) == pairs_map(before).insert(kv, vv).contains_key(x) by {
                        if has_key(before, x) {
                            let j = choose|j: int| 0 <= j < before.len() && #[trigger] before[j].0@ == x;
                            assert(after[j].0@ == x);
                        }
                        if has_key(after, x) {
                            let j = choose|j: int| 0 <= j < after.len() && #[trigger] after[j].0@ == x;
                            assert(before[j].0@ == x);
                        }
                    }
                    assert forall|x: K::V| #[trigger] pairs_map(after).contains_key(x) implies pairs_map(after)[x] == pairs_map(before).insert(kv, vv)[x] by {
                        let j = choose|j: int| 0 <= j < after.len() && #[trigger] after[j].0@ == x;
                        lemma_pairs_map_at(after, j);
                        if j != i {
                            lemma_pairs_map_at(before, j);
                        }
                    }
                    assert(pairs_map(after) =~= pairs_map(before).insert(kv, vv));
                }
                true
            },
            None => {
                self.items.push((k, v));
                proof {
                    let after = self.items@;
                    let n = before.len() as int;
                    assert(distinct_keys(after)) by {
                        assert forall|a: int, b: int|
                            0 <= a < after.len() && 0 <= b < after.len() && a != b implies #[trigger] after[a].0@
                            != #[trigger] after[b].0@ by {
                            if a < n && b < n {
                                assert(before[a].0@ != before[b].0@);
                            } else if a < n {
                                assert(before[a].0@ == after[a].0@);
                            } else {
                                assert(before[b].0@ == after[b].0@);
                            }
                        }
                    }
                    assert forall|x: K::V| #[trigger] pairs_map(after).contains_key(x) == pairs_map(before).insert(kv, vv).contains_key(x) by {
                        if has_key(before, x) {
                            let j = choose|j: int| 0 <= j < before.len() && #[trigger] before[j].0@ == x;
                            assert(after[j].0@ == x);
                        }
                        if x == kv {
                            assert(after[n].0@ == x);
                        }
                        if has_key(after, x) {
                            let j = choose|j: int| 0 <= j < after.len() && #[trigger] after[j].0@ == x;
                            if j < n {
                                assert(before[j].0@ == x);
                            }
                        }
                    }
                    assert forall|x: K::V| #[trigger] pairs_map(after).contains_key(x) implies pairs_map(after)[x] == pairs_map(before).insert(kv, vv)[x] by {
                        let j = choose|j: int| 0 <= j < after.len() && #[trigger] after[j].0@ == x;
                        lemma_pairs_map_at(after, j);
                        if j < n {
                            lemma_pairs_map_at(before, j);
                        }
                    }
                    assert(pairs_map(after) =~= pairs_map(before).insert(kv, vv));
                }
                false
            },
        }
    }

    /// Drop the pair with key `k`, handing back its value.
    pub fn remove(&mut self, k: &K) -> (removed: Option<V>)
        requires
            old(self).wf(),
        ensures
            final(self).wf(),
            final(self)@ == old(self)@.remove(k@),
            match removed {
                Some(v) => old(self)@.contains_key(k@) && v@ == old(self)@[k@],
                None => !old(self)@.contains_key(k@),
            },
    {
        let ghost before = self.items@;
        match self.position(k) {
            Some(i) => {
                proof {
                    lemma_pairs_map_at(before, i as int);
                }
                let (_, v) = self.items.remove(i);
                proof {
                    let after = self.items@;
                    let kv = k@;
                    assert(after =~= before.remove(i as int));
                    assert forall|j: int| 0 <= j < after.len() implies #[trigger] after[j] == before[if j < i { j } else { j + 1 }] by {}
                    assert(distinct_keys(after)) by {
                        assert forall|a: int, b: int|
                            0 <= a < after.len() && 0 <= b < after.len() && a != b implies #[trigger] after[a].0@
                            != #[trigger] after[b].0@ by {
                            let a2 = if a < i { a } else { a + 1 };
                            let b2 = if b < i { b } else { b + 1 };
                            assert(after[a] == before[a2]);
                            assert(after[b] == before[b2]);
                            assert(before[a2].0@ != before[b2].0@);
                        }
                    }
                    assert forall|x: K::V| #[trigger] pairs_map(after).contains_key(x) == pairs_map(before).remove(kv).contains_key(x) by {
                        if has_key(before, x) && x != kv {
                            let j = choose|j: int| 0 <= j < before.len() && #[trigger] before[j].0@ == x;
                            assert(j != i);
                            let j2 = if j < i { j } else { j - 1 };
                            assert(after[j2] == before[j]);
                        }
                        if has_key(after, x) {
                            let j = choose|j: int| 0 <= j < after.len() && #[trigger] after[j].0@ == x;
                            let j2 = if j < i { j } else { j + 1 };
                            assert(after[j] == before[j2]);
                            assert(before[j2].0@ == x);
                            assert(j2 != i);
                        }
                    }
                    assert forall|x: K::V| #[trigger] pairs_map(after).contains_key(x) implies pairs_map(after)[x] == pairs_map(before).remove(kv)[x] by {
                        let j = choose|j: int| 0 <= j < after.len() && #[trigger] after[j].0@ == x;
                        let j2 = if j < i { j } else { j + 1 };
                        assert(after[j] == before[j2]);
                        lemma_pairs_map_at(after, j);
                        lemma_pairs_map_at(before, j2);
                    }
                    assert(pairs_map(after) =~= pairs_map(before).remove(kv));
                }
                Some(v)
            },
            None => {
                proof {
                    assert(pairs_map(before).remove(k@) =~= pairs_map(before));
                }
                None
            },
        }
    }

    /// An equal table of copied pairs.
    pub fn duplicate(&self) -> (t: Self)
        requires
            self.wf(),
        ensures
            t.wf(),
            t@ == self@,
    {
        let mut items: Vec<(K, V)> = Vec::new();
        let mut i: usize = 0;
        while i < self.items.len()
            invariant
                i <= self.items@.len(),
                items@.len() == i,
                forall|j: int| 0 <= j < i ==> #[trigger] items@[j].0@ == self.items@[j].0@ && items@[j].1@ == self.items@[j].1@,
            decreases self.items@.len() - i,
        {
            items.push((self.items[i].0.copy_key(), self.items[i].1.copy_value()));
            i = i + 1;
        }
        let t = Table { items };
        proof {
            let a = self.items@;
            let b = t.items@;
            assert(forall|j: int| 0 <= j < b.len() ==> #[trigger] b[j].0@ == a[j].0@ && b[j].1@ == a[j].1@);
            assert(distinct_keys(b)) by {
                assert forall|x: int, y: int| 0 <= x < b.len() && 0 <= y < b.len() && x != y implies #[trigger] b[x].0@
                    != #[trigger] b[y].0@ by {
                    assert(a[x].0@ != a[y].0@);
                }
            }
            assert forall|k: K::V| #[trigger] pairs_map(b).contains_key(k) == pairs_map(a).contains_key(k) by {
                if has_key(a, k) {
                    let j = choose|j: int| 0 <= j < a.len() && #[trigger] a[j].0@ == k;
                    assert(b[j].0@ == k);
                }
                if has_key(b, k) {
                    let j = choose|j: int| 0 <= j < b.len() && #[trigger] b[j].0@ == k;
                    assert(a[j].0@ == k);
                }
            }
            assert forall|k: K::V| #[trigger] pairs_map(b).contains_key(k) implies pairs_map(b)[k] == pairs_map(a)[k] by {
                let j = choose|j: int| 0 <= j < b.len() && #[trigger] b[j].0@ == k;
                lemma_pairs_map_at(b, j);
                lemma_pairs_map_at(a, j);
            }
            assert(pairs_map(b) =~= pairs_map(a));
        }
        t
    }

    /// Number of pairs.
    pub closed spec fn size(&self) -> nat {
        self.items@.len()
    }

    /// Key of the pair at position `i`, in insertion order.
    pub closed spec fn key_at(&self, i: int) -> K::V {
        self.items@[i].0@
    }

    /// Value of the pair at position `i`.
    pub closed spec fn value_at(&self, i: int) -> V::V {
        self.items@[i].1@
    }

    /// The value at each position is the map's value at that position's key.
    pub proof fn lemma_values(&self)
        requires
            self.wf(),
        ensures
            forall|i: int| 0 <= i < self.size() ==> self@[#[trigger] self.key_at(i)] == self.value_at(i),
    {
        assert forall|i: int| 0 <= i < self.size() implies self@[#[trigger] self.key_at(i)] == self.value_at(i) by {
            lemma_pairs_map_at(self.items@, i);
        }
    }

    /// The keys at the positions are exactly the map's keys.
    pub proof fn lemma_keys(&self)
        requires
            self.wf(),
        ensures
            forall|i: int| 0 <= i < self.size() ==> self@.contains_key(#[trigger] self.key_at(i)),
            forall|k: K::V| self@.contains_key(k) ==> exists|i: int| 0 <= i < self.size() && #[trigger] self.key_at(i) == k,
    {
        assert forall|i: int| 0 <= i < self.size() implies self@.contains_key(#[trigger] self.key_at(i)) by {
            lemma_pairs_map_at(self.items@, i);
        }
        assert forall|k: K::V| self@.contains_key(k) implies exists|i: int| 0 <= i < self.size() && #[trigger] self.key_at(i) == k by {
            let j = choose|j: int| 0 <= j < self.items@.len() && #[trigger] self.items@[j].0@ == k;
            assert(self.key_at(j) == k);
        }
    }

    /// Distinct positions hold distinct keys.
    pub proof fn lemma_distinct(&self)
        requires
            self.wf(),
        ensures
            forall|i: int, j: int|
                0 <= i < self.size() && 0 <= j < self.size() && i != j ==> #[trigger] self.key_at(i)
                    != #[trigger] self.key_at(j),
    {
    }

    pub fn len(&self) -> (n: usize)
        ensures
            n == self.size(),
    {
        self.items.len()
    }

    /// The pair at position `i`, in insertion order.
    pub fn pair_at(&self, i: usize) -> (pair: (K, V))
        requires
            self.wf(),
            i < self.size(),
        ensures
            pair.0@ == self.key_at(i as int),
            pair.1@ == self.value_at(i as int),
            self@.contains_key(pair.0@),
            self@[pair.0@] == pair.1@,
    {
        proof {
            lemma_pairs_map_at(self.items@, i as int);
        }
        (self.items[i].0.copy_key(), self.items[i].1.copy_value())
    }
}

/// The keys of `a` that `b` lacks.
pub fn key_difference<K: TableKey>(a: &Table<K, ()>, b: &Table<K, ()>) -> (d: Table<K, ()>)
    requires
        a.wf(),
        b.wf(),
    ensures
        d.wf(),
        d@.dom() == a@.dom().difference(b@.dom()),
{
    let mut d: Table<K, ()> = Table::new();
    let mut i: usize = 0;
    proof {
        a.lemma_keys();
    }
    while i < a.len()
        invariant
            a.wf(),
            b.wf(),
            d.wf(),
            i <= a.size(),
            forall|j: int| 0 <= j < a.size() ==> a@.contains_key(#[trigger] a.key_at(j)),
            d@.dom() == Set::new(|k: K::V| (exists|j: int| 0 <= j < i && a.key_at(j) == k) && !b@.contains_key(k)),
        decreases a.size() - i,
    {
        let (k, _) = a.pair_at(i);
        let ghost before = d@.dom();
        if !b.contains(&k) {
            d.insert(k, ());
        }
        proof {
            let next = Set::new(|x: K::V| (exists|j: int| 0 <= j < i + 1 && a.key_at(j) == x) && !b@.contains_key(x));
            assert forall|x: K::V| #[trigger] d@.dom().contains(x) == next.contains(x) by {
                if next.contains(x) {
                    let j = choose|j: int| 0 <= j < i + 1 && a.key_at(j) == x;
                    if j < i {
                        assert(before.contains(x));
                    }
                }
                if before.contains(x) {
                    let j = choose|j: int| 0 <= j < i && a.key_at(j) == x;
                    assert(0 <= j < i + 1 && a.key_at(j) == x);
                }
            }
            assert(d@.dom() =~= next);
        }
        i = i + 1;
    }
    proof {
        a.lemma_keys();
        assert forall|x: K::V| #[trigger] d@.dom().contains(x) == a@.dom().difference(b@.dom()).contains(x) by {
            if a@.contains_key(x) {
                let j = choose|j: int| 0 <= j < a.size() && #[trigger] a.key_at(j) == x;
            }
        }
        assert(d@.dom() =~= a@.dom().difference(b@.dom()));
    }
    d
}

} // verus!
