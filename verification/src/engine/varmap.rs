//! A small map from variables to what they were bound to, kept in the order
//! of the variables' identifiers.

use crate::engine::vars::{UntypedVar, VarRef, VarRefView};
use vstd::prelude::*;

verus! {

/// Bindings recorded for some variables. Each variable has at most one
/// entry, and the entries stand in the order of the identifiers.
#[derive(Debug)]
pub struct VarMap {
    pub keys: Vec<UntypedVar>,
    pub refs: Vec<VarRef>,
}

impl VarMap {
    /// One entry per key, and the keys in strictly increasing order.
    pub open spec fn wf(&self) -> bool {
        &&& self.keys.len() == self.refs.len()
        &&& forall|i: int, j: int|
            0 <= i < j < self.keys.len() ==> self.keys@[i].id < self.keys@[j].id
    }

    /// Whether `k` has an entry.
    pub open spec fn has(&self, k: UntypedVar) -> bool {
        self.keys@.contains(k)
    }

    /// Where the entry of `k` stands.
    pub open spec fn position(&self, k: UntypedVar) -> int {
        choose|i: int| 0 <= i < self.keys.len() && self.keys@[i] == k
    }

    /// What `k` was bound to, if it has an entry.
    pub open spec fn find(&self, k: UntypedVar) -> Option<VarRefView> {
        if self.has(k) {
            Some(self.refs@[self.position(k)]@)
        } else {
            None
        }
    }

    /// The set of variables that have an entry.
    pub open spec fn dom(&self) -> Set<UntypedVar> {
        Set::new(|k: UntypedVar| self.has(k))
    }

    /// The entry at `i` is the entry of its key.
    pub proof fn lemma_entry(&self, i: int)
        requires
            self.wf(),
            0 <= i < self.keys.len(),
        ensures
            self.has(self.keys@[i]),
            self.position(self.keys@[i]) == i,
            self.find(self.keys@[i]) == Some(self.refs@[i]@),
    {
        let k = self.keys@[i];
        assert(self.keys@.contains(k));
        let p = self.position(k);
        assert(0 <= p < self.keys.len() && self.keys@[p] == k);
        if p < i {
            assert(self.keys@[p].id < self.keys@[i].id);
        }
        if i < p {
            assert(self.keys@[i].id < self.keys@[p].id);
        }
    }

    /// A map without entries.
    pub fn new() -> (r: VarMap)
        ensures
            r.wf(),
            r.keys@.len() == 0,
            forall|k: UntypedVar| !r.has(k),
    {
        VarMap { keys: Vec::new(), refs: Vec::new() }
    }

    /// Whether there is no entry.
    pub fn is_empty(&self) -> (r: bool)
        ensures
            r == (self.keys@.len() == 0),
    {
        self.keys.len() == 0
    }

    /// The number of entries.
    pub fn len(&self) -> (r: usize)
        ensures
            r == self.keys@.len(),
    {
        self.keys.len()
    }

    /// The index of the entry of `k`.
    pub fn index_of(&self, k: &UntypedVar) -> (r: Option<usize>)
        requires
            self.wf(),
        ensures
            match r {
                Some(i) => self.has(*k) && i == self.position(*k) && i < self.keys.len()
                    && self.keys@[i as int] == *k,
                None => !self.has(*k),
            },
    {
        let mut i: usize = 0;
        while i < self.keys.len()
            invariant
                i <= self.keys.len(),
                self.wf(),
                forall|j: int| 0 <= j < i ==> self.keys@[j] != *k,
            decreases self.keys.len() - i,
        {
            if self.keys[i].id == k.id {
                proof {
                    self.lemma_entry(i as int);
                }
                return Some(i);
            }
            i = i + 1;
        }
        None
    }

    /// Whether `k` has an entry.
    pub fn contains_key(&self, k: &UntypedVar) -> (r: bool)
        requires
            self.wf(),
        ensures
            r == self.has(*k),
    {
        self.index_of(k).is_some()
    }

    /// What `k` was bound to, if it has an entry.
    pub fn get(&self, k: &UntypedVar) -> (r: Option<&VarRef>)
        requires
            self.wf(),
        ensures
            match r {
                Some(x) => self.find(*k) == Some(x@),
                None => self.find(*k).is_none(),
            },
    {
        match self.index_of(k) {
            Some(i) => Some(&self.refs[i]),
            None => None,
        }
    }

    /// Binds `k` to `r`, in place of what it was bound to before.
    #[verifier::rlimit(60)]
    #[verifier::spinoff_prover]
    pub fn set(&mut self, k: UntypedVar, r: VarRef)
        requires
            old(self).wf(),
        ensures
            final(self).wf(),
            final(self).find(k) == Some(r@),
            forall|o: UntypedVar| o != k ==> final(self).find(o) == old(self).find(o),
            forall|o: UntypedVar| final(self).has(o) <==> (o == k || old(self).has(o)),
    {
        let ghost before = *self;
        let mut i: usize = 0;
        while i < self.keys.len() && self.keys[i].id < k.id
            invariant
                i <= self.keys.len(),
                *self == before,
                self.wf(),
                forall|j: int| 0 <= j < i ==> self.keys@[j].id < k.id,
            decreases self.keys.len() - i,
        {
            i = i + 1;
        }
        if i < self.keys.len() && self.keys[i].id == k.id {
            self.refs.set(i, r);
            proof {
                assert(self.keys@ == before.keys@);
                before.lemma_entry(i as int);
                self.lemma_entry(i as int);
                assert forall|o: UntypedVar| o != k implies self.find(o) == before.find(o) by {
                    if self.has(o) {
                        let p = self.position(o);
                        assert(p == before.position(o));
                        assert(p != i);
                    }
                }
            }
        } else {
            self.keys.insert(i, k);
            self.refs.insert(i, r);
            proof {
                let n = i as int;
                assert(self.keys@ == before.keys@.insert(n, k));
                assert(self.refs@ == before.refs@.insert(n, r));
                assert(self.wf()) by {
                    assert forall|a: int, b: int| 0 <= a < b < self.keys.len() implies self.keys@[a].id
                        < self.keys@[b].id by {
                        if b < n {
                            assert(self.keys@[a] == before.keys@[a]);
                            assert(self.keys@[b] == before.keys@[b]);
                        } else if b == n {
                            assert(self.keys@[a] == before.keys@[a]);
                        } else if a < n {
                            assert(self.keys@[a] == before.keys@[a]);
                            assert(self.keys@[b] == before.keys@[b - 1]);
                        } else if a == n {
                            assert(self.keys@[b] == before.keys@[b - 1]);
                            assert(before.keys@[n].id <= before.keys@[b - 1].id);
                        } else {
                            assert(self.keys@[a] == before.keys@[a - 1]);
                            assert(self.keys@[b] == before.keys@[b - 1]);
                        }
                    }
                }
                assert(self.keys@[n] == k);
                self.lemma_entry(n);
                assert(!before.has(k)) by {
                    if before.has(k) {
                        let p = before.position(k);
                        if p < n {
                            assert(before.keys@[p].id < k.id);
                        } else {
                            assert(before.keys@[n].id <= before.keys@[p].id);
                        }
                    }
                }
                assert forall|o: UntypedVar| self.has(o) <==> (o == k || before.has(o)) by {
                    if self.has(o) {
                        let p = choose|p: int| 0 <= p < self.keys@.len() && self.keys@[p] == o;
                        if p < n {
                            assert(before.keys@[p] == o);
                        } else if p > n {
                            assert(before.keys@[p - 1] == o);
                        }
                    }
                    if before.has(o) {
                        let p = choose|p: int|
                            0 <= p < before.keys@.len() && before.keys@[p] == o;
                        if p < n {
                            assert(self.keys@[p] == o);
                        } else {
                            assert(self.keys@[p + 1] == o);
                        }
                    }
                }
                assert forall|o: UntypedVar| o != k implies self.find(o) == before.find(o) by {
                    if before.has(o) {
                        let p = before.position(o);
                        before.lemma_entry(p);
                        if p < n {
                            assert(self.keys@[p] == o);
                            self.lemma_entry(p);
                            assert(self.refs@[p] == before.refs@[p]);
                        } else {
                            assert(self.keys@[p + 1] == o);
                            self.lemma_entry(p + 1);
                            assert(self.refs@[p + 1] == before.refs@[p]);
                        }
                    }
                }
            }
        }
    }
}

impl Clone for VarMap {
    fn clone(&self) -> (r: Self)
        ensures
            r.keys@ == self.keys@,
            r.refs@.len() == self.refs@.len(),
            forall|i: int| 0 <= i < self.refs@.len() ==> (#[trigger] r.refs@[i])@ == self.refs@[i]@,
    {
        let mut keys: Vec<UntypedVar> = Vec::new();
        let mut refs: Vec<VarRef> = Vec::new();
        let mut i: usize = 0;
        while i < self.keys.len() && i < self.refs.len()
            invariant
                i <= self.keys.len(),
                i <= self.refs.len(),
                keys@ == self.keys@.subrange(0, i as int),
                refs@.len() == i,
                forall|k: int| 0 <= k < i ==> (#[trigger] refs@[k])@ == self.refs@[k]@,
            decreases self.keys.len() - i,
        {
            keys.push(self.keys[i]);
            refs.push(self.refs[i].clone());
            i = i + 1;
        }
        let mut j: usize = i;
        while j < self.keys.len()
            invariant
                i <= j <= self.keys.len(),
                keys@ == self.keys@.subrange(0, j as int),
            decreases self.keys.len() - j,
        {
            keys.push(self.keys[j]);
            j = j + 1;
        }
        while i < self.refs.len()
            invariant
                i <= self.refs.len(),
                refs@.len() == i,
                keys@ == self.keys@.subrange(0, self.keys.len() as int),
                forall|k: int| 0 <= k < i ==> (#[trigger] refs@[k])@ == self.refs@[k]@,
            decreases self.refs.len() - i,
        {
            refs.push(self.refs[i].clone());
            i = i + 1;
        }
        assert(self.keys@.subrange(0, self.keys.len() as int) == self.keys@);
        VarMap { keys, refs }
    }
}

impl VarMap {
    /// A map with the same entries has the same content.
    pub proof fn lemma_same_entries(&self, other: &VarMap)
        requires
            self.wf(),
            other.keys@ == self.keys@,
            other.refs@.len() == self.refs@.len(),
            forall|i: int| 0 <= i < self.refs@.len() ==> (#[trigger] other.refs@[i])@ == self.refs@[i]@,
        ensures
            other.wf(),
            forall|k: UntypedVar| other.has(k) == self.has(k),
            forall|k: UntypedVar| other.find(k) == self.find(k),
    {
        assert forall|k: UntypedVar| other.find(k) == self.find(k) by {
            if self.has(k) {
                assert(other.position(k) == self.position(k));
            }
        }
    }
}

} // verus!
