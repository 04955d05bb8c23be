//! A scratch state layered on a store. What is written goes to the scratch
//! state only; the store below is read and never changed, so dropping the
//! scratch state undoes everything.

use crate::engine::bindings::Bindings;
use crate::engine::store::Store;
use crate::engine::varmap::VarMap;
use crate::engine::vars::{TypeTag, UntypedVar, Value, VarRef, VarRefView};
use vstd::prelude::*;

verus! {

/// A scratch state over `parent`. `eqs` holds the cells written since the
/// scratch state was made; `changed` names the variables of the parent whose
/// cells changed since the last round of propagation.
pub struct StateProxy<'a> {
    pub parent: &'a Store,
    pub changed: &'a VarMap,
    pub eqs: VarMap,
    pub ok: bool,
    pub rank: Ghost<Seq<nat>>,
    pub top: Ghost<nat>,
}

/// What cell `i` holds once the cells in `written` are laid over `below`.
pub open spec fn overlaid(written: VarMap, below: Bindings, i: int) -> Option<VarRefView> {
    match written.find(UntypedVar { id: i as usize }) {
        Some(r) => Some(r),
        None => below.cells[i],
    }
}

/// What a scratch state has written: the cells, whether the scratch state
/// is still consistent, and the store that taking the cells over leaves.
pub struct Changes {
    pub written: VarMap,
    pub ok: bool,
    pub after: Ghost<Bindings>,
}

impl Changes {
    /// Whether these are the changes of a scratch state over the store `b`.
    pub open spec fn over(&self, b: Bindings) -> bool {
        &&& self.written.wf()
        &&& self.after@.wf()
        &&& self.after@.ok == self.ok
        &&& self.after@.ok ==> b.ok
        &&& self.after@.tags == b.tags
        &&& self.after@.cells.len() == b.cells.len()
        &&& forall|k: UntypedVar| self.written.has(k) ==> b.has(k)
        &&& forall|i: int|
            0 <= i < self.after@.cells.len() ==> #[trigger] self.after@.cells[i] == overlaid(
                self.written,
                b,
                i,
            )
    }
}

impl<'a> View for StateProxy<'a> {
    type V = Bindings;

    open spec fn view(&self) -> Bindings {
        Bindings {
            cells: Seq::new(self.parent@.cells.len(), |i: int| self.cell_at(i)),
            tags: self.parent@.tags,
            rank: self.rank@,
            top: self.top@,
            ok: self.ok,
        }
    }
}

impl<'a> StateProxy<'a> {
    /// What cell `i` holds: what was written to it here, or else what the
    /// parent holds.
    pub open spec fn cell_at(&self, i: int) -> Option<VarRefView> {
        match self.eqs.find(UntypedVar { id: i as usize }) {
            Some(r) => Some(r),
            None => self.parent@.cells[i],
        }
    }

    /// The invariant of a scratch state.
    pub open spec fn wf(&self) -> bool {
        &&& self.parent.wf()
        &&& self.changed.wf()
        &&& self.eqs.wf()
        &&& self@.wf()
        &&& self.ok ==> self.parent@.ok
        &&& forall|k: UntypedVar| self.eqs.has(k) ==> self.parent@.has(k)
    }

    /// Whether `other` is a scratch state over the same parent.
    pub open spec fn same_base(&self, other: &StateProxy<'a>) -> bool {
        self.parent == other.parent && self.changed == other.changed
    }

    /// A scratch state that holds what `parent` holds.
    pub fn new(parent: &'a Store, changed: &'a VarMap) -> (r: StateProxy<'a>)
        requires
            parent.wf(),
            changed.wf(),
        ensures
            r.wf(),
            r@ == parent@,
            r.parent == parent,
            r.changed == changed,
            r.eqs.keys@.len() == 0,
    {
        let r = StateProxy {
            parent,
            changed,
            eqs: VarMap::new(),
            ok: parent.ok,
            rank: Ghost(parent.rank@),
            top: Ghost(parent.top@),
        };
        assert(r@.cells =~= parent@.cells);
        assert(r@ =~= parent@);
        r
    }

    /// False once a unification has failed.
    pub fn ok(&self) -> (r: bool)
        ensures
            r == self@.ok,
    {
        self.ok
    }

    /// Whether `x` is a variable of this state.
    pub fn contains(&self, x: UntypedVar) -> (r: bool)
        ensures
            r == self@.has(x),
    {
        self.parent.contains(x)
    }

    /// The number of variables.
    pub fn len(&self) -> (n: usize)
        requires
            self.wf(),
        ensures
            n == self@.cells.len(),
    {
        self.parent.len()
    }

    /// What the cell of `x` holds.
    pub fn get_ref(&self, x: UntypedVar) -> (r: Option<&VarRef>)
        requires
            self.wf(),
            self@.has(x),
        ensures
            match r {
                Some(c) => self@.cell(x) == Some(c@),
                None => self@.cell(x).is_none(),
            },
    {
        match self.eqs.get(&x) {
            Some(c) => Some(c),
            None => self.parent.get_ref(x),
        }
    }

    /// The type tag of `x`.
    pub fn tag_of(&self, x: UntypedVar) -> (r: &TypeTag)
        requires
            self.wf(),
            self@.has(x),
        ensures
            *r == self@.tag(x),
    {
        self.parent.tag_of(x)
    }

    /// Marks the state as failed.
    pub fn fail(&mut self)
        requires
            old(self).wf(),
        ensures
            final(self).wf(),
            final(self)@ == old(self)@.fail(),
            final(self).same_base(old(self)),
            final(self).eqs == old(self).eqs,
    {
        let ghost before = self@;
        self.ok = false;
        proof {
            before.lemma_fail_wf();
            assert(self@.cells =~= before.cells);
            assert(self@ =~= before.fail());
        }
    }

    /// Writes `r` to the cell of `x`, and takes over the ranks given.
    fn write(&mut self, x: UntypedVar, r: VarRef, Ghost(after): Ghost<Bindings>)
        requires
            old(self).wf(),
            old(self)@.has(x),
            after.wf(),
            after == (Bindings {
                cells: old(self)@.cells.update(x.id as int, Some(r@)),
                rank: after.rank,
                top: after.top,
                ..old(self)@
            }),
        ensures
            final(self).wf(),
            final(self)@ == after,
            final(self).same_base(old(self)),
    {
        let ghost before = *self;
        self.eqs.set(x, r);
        proof {
            self.rank@ = after.rank;
            self.top@ = after.top;
            assert forall|i: int| 0 <= i < after.cells.len() implies self.cell_at(i)
                == after.cells[i] by {
                let k = UntypedVar { id: i as usize };
                assert(after.cells.len() == self.parent.cells.len());
                if i == x.id {
                    assert(k == x);
                } else {
                    assert(k != x);
                    assert(self.eqs.find(k) == before.eqs.find(k));
                    assert(before@.cells[i] == before.cell_at(i));
                }
            }
            assert(self@.cells =~= after.cells);
            assert(self@ =~= after);
        }
    }

    /// Binds the cell of `x` to `v`.
    pub(crate) fn bind(&mut self, x: UntypedVar, v: Value)
        requires
            old(self).wf(),
            old(self)@.has(x),
            old(self)@.value_ok(v@),
        ensures
            final(self).wf(),
            final(self)@ == old(self)@.bind(x, v@),
            final(self).same_base(old(self)),
    {
        let ghost after = self@.bind(x, v@);
        proof {
            self@.lemma_bind_wf(x, v@);
        }
        self.write(x, VarRef::Exactly(v), Ghost(after));
    }

    /// Merges the cell of `a` into the representative `t`.
    pub(crate) fn link(&mut self, a: UntypedVar, t: UntypedVar)
        requires
            old(self).wf(),
            old(self)@.has(a),
            old(self)@.is_root(t),
            a != t,
        ensures
            final(self).wf(),
            final(self)@ == old(self)@.link(a, t),
            final(self).same_base(old(self)),
    {
        let ghost after = self@.link(a, t);
        proof {
            self@.lemma_link_wf(a, t);
        }
        self.write(a, VarRef::EqualTo(t), Ghost(after));
    }

    /// The representative of `x`.
    pub fn follow_id(&self, x: UntypedVar) -> (r: UntypedVar)
        requires
            self.wf(),
            self@.has(x),
        ensures
            r == self@.follow(x),
            self@.is_root(r),
    {
        let mut cur = x;
        proof {
            self@.lemma_follow_ends(x);
        }
        loop
            invariant
                self.wf(),
                self@.has(cur),
                self@.follow(cur) == self@.follow(x),
                self@.is_root(self@.follow(x)),
            decreases self@.top - self@.rank[cur.id as int],
        {
            proof {
                assert(self@.cell_ok(cur.id as int));
            }
            match self.get_ref(cur) {
                Some(VarRef::EqualTo(y)) => {
                    proof {
                        assert(self@.cell_ok(y.id as int));
                        assert(self@.merged(cur));
                    }
                    cur = *y;
                },
                _ => {
                    proof {
                        assert(!self@.merged(cur));
                    }
                    return cur;
                },
            }
        }
    }

    /// The value that `x` resolves to, if its representative is bound.
    pub fn get_value(&self, x: UntypedVar) -> (r: Option<&Value>)
        requires
            self.wf(),
            self@.has(x),
        ensures
            match r {
                Some(v) => self@.value(x) == Some(v@),
                None => self@.value(x).is_none(),
            },
    {
        let root = self.follow_id(x);
        match self.get_ref(root) {
            Some(VarRef::Exactly(v)) => Some(v),
            _ => None,
        }
    }

    /// The value that `x` resolves to, if `x` is one of the variables whose
    /// cells changed since the last round of propagation.
    pub fn get_changed_value(&self, x: UntypedVar) -> (r: Option<&Value>)
        requires
            self.wf(),
            self@.has(x),
        ensures
            match r {
                Some(v) => self.changed.has(x) && self@.value(x) == Some(v@),
                None => !self.changed.has(x) || self@.value(x).is_none(),
            },
    {
        if self.changed.contains_key(&x) {
            self.get_value(x)
        } else {
            None
        }
    }

    /// Replaces the value of the representative of `x` by `v`.
    pub fn overwrite_var(&mut self, x: UntypedVar, v: Value)
        requires
            old(self).wf(),
            old(self)@.has(x),
            old(self)@.value_ok(v@),
        ensures
            final(self).wf(),
            final(self)@ == old(self)@.bind(old(self)@.follow(x), v@),
            final(self).same_base(old(self)),
    {
        let root = self.follow_id(x);
        self.bind(root, v);
    }

    /// The number of cells written since the scratch state was made.
    pub fn written(&self) -> (n: usize)
        ensures
            n == self.eqs.keys@.len(),
    {
        self.eqs.len()
    }

    /// The `j`-th written cell, in the order of the identifiers: its
    /// variable, what it holds, and whether that differs from what the
    /// parent holds.
    pub fn written_at(&self, j: usize) -> (r: (UntypedVar, &VarRef, bool))
        requires
            self.wf(),
            j < self.eqs.keys@.len(),
        ensures
            r.0 == self.eqs.keys@[j as int],
            self@.has(r.0),
            self@.cell(r.0) == Some(r.1@),
            r.2 == (self@.cell(r.0) != self.parent@.cell(r.0)),
    {
        let k = self.eqs.keys[j];
        let held = &self.eqs.refs[j];
        proof {
            self.eqs.lemma_entry(j as int);
            assert(self.eqs.has(k));
            assert(self@.cells[k.id as int] == self.cell_at(k.id as int));
        }
        let same = match self.parent.get_ref(k) {
            Some(c) => c.same(held),
            None => false,
        };
        (k, held, !same)
    }

    /// A cell that was not written holds what the parent holds.
    pub proof fn lemma_unwritten(&self, t: int)
        requires
            self.wf(),
            0 <= t < self@.cells.len(),
            !self.eqs.has(UntypedVar { id: t as usize }),
        ensures
            self@.cells[t] == self.parent@.cells[t],
    {
        assert(self@.cells[t] == self.cell_at(t));
    }

    /// Between two neighbouring written cells no cell was written.
    pub proof fn lemma_gap(&self, j: int, t: int)
        requires
            self.wf(),
            0 <= j <= self.eqs.keys@.len(),
            0 <= t < self@.cells.len(),
            j > 0 ==> self.eqs.keys@[j - 1].id < t,
            j < self.eqs.keys@.len() ==> t < self.eqs.keys@[j].id,
        ensures
            self@.cells[t] == self.parent@.cells[t],
    {
        let k = UntypedVar { id: t as usize };
        assert(self.parent.cells.len() == self@.cells.len());
        if self.eqs.has(k) {
            let p = self.eqs.position(k);
            if p < j {
                if p < j - 1 {
                    assert(self.eqs.keys@[p].id < self.eqs.keys@[j - 1].id);
                }
            } else {
                if p > j {
                    assert(self.eqs.keys@[j].id < self.eqs.keys@[p].id);
                }
            }
        }
        self.lemma_unwritten(t);
    }

    /// Gives up the scratch state for what was written to it.
    pub fn into_changes(self) -> (r: Changes)
        requires
            self.wf(),
        ensures
            r.over(self.parent@),
            r.after@ == self@,
    {
        let ghost view = self@;
        proof {
            assert forall|i: int| 0 <= i < self@.cells.len() implies #[trigger] self@.cells[i]
                == overlaid(self.eqs, self.parent@, i) by {
                assert(self@.cells[i] == self.cell_at(i));
            }
        }
        Changes { written: self.eqs, ok: self.ok, after: Ghost(view) }
    }
}

} // verus!
