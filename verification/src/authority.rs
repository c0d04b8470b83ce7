//! Finding declared library elements by owned-member name paths.
use crate::ids::ElementId;
use crate::text::text_eq;
use vstd::prelude::*;

verus! {

/// Owning memberships and declared names of a construction.
#[derive(Debug)]
pub struct Ownership {
    /// Owning memberships, in order: (owning scope, membership, owned member).
    pub members: Vec<(ElementId, ElementId, ElementId)>,
    /// Declared names: (element, name), each element at most once.
    pub names: Vec<(ElementId, String)>,
}

impl Ownership {
    pub open spec fn wf(&self) -> bool {
        forall|i: int, j: int|
            0 <= i < self.names@.len() && 0 <= j < self.names@.len() && i != j ==> (#[trigger] self.names@[i]).0
                != (#[trigger] self.names@[j]).0
    }

    /// The declared name of `element`, if it has one.
    pub open spec fn declared_name(&self, element: ElementId) -> Option<Seq<char>> {
        if exists|i: int| 0 <= i < self.names@.len() && (#[trigger] self.names@[i]).0 == element {
            Some(self.names@[choose|i: int| 0 <= i < self.names@.len() && (#[trigger] self.names@[i]).0 == element].1@)
        } else {
            None
        }
    }

    /// Among the first `k` memberships, those owned by `scope` whose member
    /// is declared with `name`, in order.
    pub open spec fn named_members(&self, scope: ElementId, name: Seq<char>, k: nat) -> Seq<(ElementId, ElementId)>
        decreases k,
    {
        if k == 0 {
            seq![]
        } else {
            let prior = self.named_members(scope, name, (k - 1) as nat);
            let m = self.members@[k - 1];
            if m.0 == scope && self.declared_name(m.2) == Some(name) {
                prior.push((m.1, m.2))
            } else {
                prior
            }
        }
    }

    /// The named members of the first `n` scopes, scope by scope.
    pub open spec fn step(&self, scopes: Seq<ElementId>, name: Seq<char>, n: nat) -> Seq<(ElementId, ElementId)>
        decreases n,
    {
        if n == 0 {
            seq![]
        } else {
            self.step(scopes, name, (n - 1) as nat) + self.named_members(scopes[n - 1], name, self.members@.len())
        }
    }

    /// After the first `i` path segments: the matching (membership, member)
    /// pairs and the scopes for the next segment.
    pub open spec fn walk(&self, roots: Seq<ElementId>, path: Seq<Seq<char>>, i: nat) -> (Seq<(ElementId, ElementId)>, Seq<ElementId>)
        decreases i,
    {
        if i == 0 {
            (seq![], roots)
        } else {
            let scopes = self.walk(roots, path, (i - 1) as nat).1;
            let found = self.step(scopes, path[i - 1], scopes.len());
            (found, found.map_values(|p: (ElementId, ElementId)| p.1))
        }
    }

    /// No segment of `path` matches more than one declaration.
    pub open spec fn unambiguous(&self, roots: Seq<ElementId>, path: Seq<Seq<char>>) -> bool {
        forall|i: int| 1 <= i <= path.len() ==> (#[trigger] self.walk(roots, path, i as nat)).0.len() <= 1
    }

    fn name_is(&self, element: ElementId, name: &str) -> (same: bool)
        requires
            self.wf(),
        ensures
            same == (self.declared_name(element) == Some(name@)),
    {
        let mut i: usize = 0;
        while i < self.names.len()
            invariant
                self.wf(),
                i <= self.names@.len(),
                forall|j: int| 0 <= j < i ==> (#[trigger] self.names@[j]).0 != element,
            decreases self.names.len() - i,
        {
            if self.names[i].0 == element {
                proof {
                    let c = choose|c: int| 0 <= c < self.names@.len() && (#[trigger] self.names@[c]).0 == element;
                    if c != i {
                        assert(self.names@[c].0 != self.names@[i as int].0);
                    }
                }
                return text_eq(self.names[i].1.as_str(), name);
            }
            i = i + 1;
        }
        false
    }
}

/// Follow `path` from `roots` through owned members by declared name. Each
/// segment matches members of every current scope, in scope order; the last
/// segment's matches are returned (empty once a segment matches nothing).
pub fn owned_path(ownership: &Ownership, roots: &[ElementId], path: &[&str]) -> (result: Vec<(ElementId, ElementId)>)
    requires
        ownership.wf(),
        ownership.unambiguous(roots@, path@.map_values(|s: &str| s@)),
    ensures
        result@ == ownership.walk(roots@, path@.map_values(|s: &str| s@), path@.len()).0,
{
    let ghost names = path@.map_values(|s: &str| s@);
    let mut scopes: Vec<ElementId> = Vec::new();
    let mut r: usize = 0;
    while r < roots.len()
        invariant
            r <= roots@.len(),
            scopes@ == roots@.subrange(0, r as int),
        decreases roots.len() - r,
    {
        scopes.push(roots[r]);
        r = r + 1;
    }
    assert(scopes@ =~= roots@);
    let mut result: Vec<(ElementId, ElementId)> = Vec::new();
    let mut i: usize = 0;
    while i < path.len()
        invariant
            ownership.wf(),
            ownership.unambiguous(roots@, names),
            names == path@.map_values(|s: &str| s@),
            i <= path@.len(),
            i == 0 ==> result@ == Seq::<(ElementId, ElementId)>::empty(),
            result@ == ownership.walk(roots@, names, i as nat).0,
            scopes@ == ownership.walk(roots@, names, i as nat).1,
        decreases path.len() - i,
    {
        let segment = path[i];
        let mut found: Vec<(ElementId, ElementId)> = Vec::new();
        let mut s: usize = 0;
        while s < scopes.len()
            invariant
                ownership.wf(),
                s <= scopes@.len(),
                segment@ == names[i as int],
                found@ == ownership.step(scopes@, segment@, s as nat),
            decreases scopes.len() - s,
        {
            let scope = scopes[s];
            let ghost before = found@;
            let mut k: usize = 0;
            while k < ownership.members.len()
                invariant
                    ownership.wf(),
                    k <= ownership.members@.len(),
                    found@ == before + ownership.named_members(scope, segment@, k as nat),
                decreases ownership.members.len() - k,
            {
                let m = ownership.members[k];
                if m.0 == scope && ownership.name_is(m.2, segment) {
                    found.push((m.1, m.2));
                    assert(found@ =~= before + ownership.named_members(scope, segment@, (k + 1) as nat));
                }
                k = k + 1;
            }
            s = s + 1;
        }
        proof {
            assert(ownership.walk(roots@, names, (i + 1) as nat).0 == found@);
        }
        let mut next: Vec<ElementId> = Vec::new();
        let mut f: usize = 0;
        while f < found.len()
            invariant
                f <= found@.len(),
                next@ == found@.subrange(0, f as int).map_values(|p: (ElementId, ElementId)| p.1),
            decreases found.len() - f,
        {
            next.push(found[f].1);
            assert(found@.subrange(0, f as int + 1).map_values(|p: (ElementId, ElementId)| p.1) =~= found@.subrange(0, f as int).map_values(|p: (ElementId, ElementId)| p.1).push(found@[f as int].1));
            f = f + 1;
        }
        assert(found@.subrange(0, found@.len() as int) =~= found@);
        result = found;
        scopes = next;
        i = i + 1;
    }
    result
}

} // verus!
