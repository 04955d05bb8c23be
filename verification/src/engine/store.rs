//! The table of cells that a state owns.

use crate::engine::bindings::Bindings;
use crate::engine::proxy::overlaid;
use crate::engine::varmap::VarMap;
use crate::engine::vars::{TypeTag, UntypedVar, Value, VarRef, VarRefView};
use vstd::prelude::*;

verus! {

/// The cells of a state, one per variable, with the type tag of each.
pub struct Store {
    pub cells: Vec<Option<VarRef>>,
    pub tags: Vec<TypeTag>,
    pub ok: bool,
    pub rank: Ghost<Seq<nat>>,
    pub top: Ghost<nat>,
}

/// Whether `k` is one of the first `j` keys of `written`.
pub open spec fn taken(written: VarMap, k: UntypedVar, j: int) -> bool {
    written.has(k) && written.position(k) < j
}

/// The content of an optional cell.
pub open spec fn cell_view(c: Option<VarRef>) -> Option<VarRefView> {
    match c {
        Some(r) => Some(r@),
        None => None,
    }
}

/// The content of a cell that was made with an optional value.
pub open spec fn bound_to(value: Option<Value>) -> Option<VarRefView> {
    match value {
        Some(v) => Some(VarRefView::Exactly(v@)),
        None => None,
    }
}

impl View for Store {
    type V = Bindings;

    open spec fn view(&self) -> Bindings {
        Bindings {
            cells: Seq::new(self.cells@.len(), |i: int| cell_view(self.cells@[i])),
            tags: self.tags@,
            rank: self.rank@,
            top: self.top@,
            ok: self.ok,
        }
    }
}

impl Store {
    /// The invariant of the table.
    pub open spec fn wf(&self) -> bool {
        self@.wf()
    }

    /// The table without variables.
    pub fn new() -> (r: Store)
        ensures
            r.wf(),
            r@ == Bindings::empty(),
    {
        let r = Store {
            cells: Vec::new(),
            tags: Vec::new(),
            ok: true,
            rank: Ghost(Seq::empty()),
            top: Ghost(0),
        };
        assert(r@.cells =~= Seq::empty());
        r
    }

    /// The number of variables.
    pub fn len(&self) -> (n: usize)
        requires
            self.wf(),
        ensures
            n == self@.cells.len(),
    {
        self.cells.len()
    }

    /// Whether `x` is a variable of this table.
    pub fn contains(&self, x: UntypedVar) -> (r: bool)
        ensures
            r == self@.has(x),
    {
        x.id < self.cells.len()
    }

    /// What the cell of `x` holds.
    pub fn get_ref(&self, x: UntypedVar) -> (r: Option<&VarRef>)
        requires
            self@.has(x),
        ensures
            match r {
                Some(c) => self@.cell(x) == Some(c@),
                None => self@.cell(x).is_none(),
            },
    {
        self.cells[x.id].as_ref()
    }

    /// The type tag of `x`.
    pub fn tag_of(&self, x: UntypedVar) -> (r: &TypeTag)
        requires
            self.wf(),
            self@.has(x),
        ensures
            *r == self@.tag(x),
    {
        &self.tags[x.id]
    }

    /// The representative of `x`.
    pub fn follow_id(&self, x: UntypedVar) -> (r: UntypedVar)
        requires
            self.wf(),
            self@.has(x),
        ensures
            r == self@.follow(x),
            self@.is_root(r),
    {
        let mut cur = x;
        proof {
            self@.lemma_follow_ends(x);
        }
        loop
            invariant
                self.wf(),
                self@.has(cur),
                self@.follow(cur) == self@.follow(x),
                self@.is_root(self@.follow(x)),
            decreases self@.top - self@.rank[cur.id as int],
        {
            proof {
                assert(self@.cell_ok(cur.id as int));
            }
            match self.get_ref(cur) {
                Some(VarRef::EqualTo(y)) => {
                    proof {
                        assert(self@.cell_ok(y.id as int));
                        assert(self@.merged(cur));
                    }
                    cur = *y;
                },
                _ => {
                    proof {
                        assert(!self@.merged(cur));
                    }
                    return cur;
                },
            }
        }
    }

    /// Rewrites `x` to its representative. A variable that this table does
    /// not have is left as it is.
    pub fn update_var(&self, x: &mut UntypedVar)
        requires
            self.wf(),
        ensures
            *final(x) == (if self@.has(*old(x)) {
                self@.follow(*old(x))
            } else {
                *old(x)
            }),
            self@.has(*old(x)) ==> self@.is_root(*final(x)),
    {
        if self.contains(*x) {
            *x = self.follow_id(*x);
        }
    }

    /// The value that `x` resolves to, if its representative is bound.
    pub fn get_value(&self, x: UntypedVar) -> (r: Option<&Value>)
        requires
            self.wf(),
            self@.has(x),
        ensures
            match r {
                Some(v) => self@.value(x) == Some(v@),
                None => self@.value(x).is_none(),
            },
    {
        let root = self.follow_id(x);
        match self.get_ref(root) {
            Some(VarRef::Exactly(v)) => Some(v),
            _ => None,
        }
    }

    /// False once a unification or a constraint has failed.
    pub fn ok(&self) -> (r: bool)
        ensures
            r == self@.ok,
    {
        self.ok
    }

    /// Marks the table as failed.
    pub fn fail(&mut self)
        requires
            old(self).wf(),
        ensures
            final(self).wf(),
            final(self)@ == old(self)@.fail(),
    {
        let ghost before = self@;
        self.ok = false;
        proof {
            before.lemma_fail_wf();
            assert(self@.cells =~= before.cells);
            assert(self@ =~= before.fail());
        }
    }

    /// Adds a variable of type `tag`, bound to `value` if one is given.
    pub fn push_var(&mut self, tag: TypeTag, value: Option<Value>) -> (x: UntypedVar)
        requires
            old(self).wf(),
            value matches Some(v) ==> old(self)@.value_ok(v@),
        ensures
            final(self).wf(),
            x == old(self)@.fresh(),
            final(self)@.has(x),
            final(self)@ == old(self)@.extend(tag, bound_to(value)),
    {
        let ghost before = self@;
        let ghost r = bound_to(value);
        let id = self.cells.len();
        let cell = match value {
            Some(v) => Some(VarRef::Exactly(v)),
            None => None,
        };
        self.cells.push(cell);
        self.tags.push(tag);
        proof {
            self.rank@ = before.rank.push(0);
            before.lemma_extend_wf(tag, r);
            assert(self@.cells =~= before.extend(tag, r).cells);
            assert(self@ =~= before.extend(tag, r));
        }
        UntypedVar { id }
    }

    /// Takes over the cells in `written`, which were laid over this table,
    /// and adds to `dirty` the variables whose cells change by that.
    pub(crate) fn commit(
        &mut self,
        written: VarMap,
        ok: bool,
        dirty: &mut VarMap,
        after: Ghost<Bindings>,
    )
        requires
            old(self).wf(),
            written.wf(),
            old(dirty).wf(),
            after@.wf(),
            after@.ok == ok,
            after@.tags == old(self)@.tags,
            after@.cells.len() == old(self)@.cells.len(),
            forall|k: UntypedVar| written.has(k) ==> old(self)@.has(k),
            forall|i: int|
                0 <= i < after@.cells.len() ==> #[trigger] after@.cells[i] == overlaid(
                    written,
                    old(self)@,
                    i,
                ),
        ensures
            final(self).wf(),
            final(self)@ == after@,
            final(dirty).wf(),
            forall|k: UntypedVar|
                final(dirty).has(k) <==> old(dirty).has(k) || (old(self)@.has(k) && after@.cell(k)
                    != old(self)@.cell(k)),
    {
        let ghost after = after@;
        let ghost before = self@;
        let ghost dirty_before = *dirty;
        let n = written.len();
        let mut j: usize = 0;
        while j < n
            invariant
                j <= n,
                n == written.keys@.len(),
                written.wf(),
                dirty.wf(),
                self.cells.len() == before.cells.len(),
                self.tags == old(self).tags,
                before == old(self)@,
                after.cells.len() == before.cells.len(),
                forall|k: UntypedVar| written.has(k) ==> before.has(k),
                forall|i: int|
                    0 <= i < after.cells.len() ==> #[trigger] after.cells[i] == overlaid(
                        written,
                        before,
                        i,
                    ),
                forall|i: int|
                    0 <= i < self.cells.len() ==> cell_view(#[trigger] self.cells@[i]) == (if taken(
                        written,
                        UntypedVar { id: i as usize },
                        j as int,
                    ) {
                        after.cells[i]
                    } else {
                        before.cells[i]
                    }),
                forall|k: UntypedVar|
                    dirty.has(k) <==> dirty_before.has(k) || (taken(written, k, j as int)
                        && after.cell(k) != before.cell(k)),
            decreases n - j,
        {
            let ghost cells_now = self.cells@;
            let ghost dirty_now = *dirty;
            let k = written.keys[j];
            proof {
                written.lemma_entry(j as int);
                assert(before.has(k));
                assert(after.cells[k.id as int] == overlaid(written, before, k.id as int));
                assert(!taken(written, k, j as int));
                assert(cell_view(self.cells@[k.id as int]) == before.cells[k.id as int]);
            }
            let same = match &self.cells[k.id] {
                Some(c) => c.same(&written.refs[j]),
                None => false,
            };
            if !same {
                dirty.set(k, written.refs[j].clone());
            }
            self.cells.set(k.id, Some(written.refs[j].clone()));
            proof {
                assert forall|i: int| 0 <= i < self.cells.len() implies cell_view(
                    #[trigger] self.cells@[i],
                ) == (if taken(written, UntypedVar { id: i as usize }, j + 1) {
                    after.cells[i]
                } else {
                    before.cells[i]
                }) by {
                    let o = UntypedVar { id: i as usize };
                    if i != k.id {
                        assert(o != k);
                        assert(self.cells@[i] == cells_now[i]);
                        assert(taken(written, o, j + 1) == taken(written, o, j as int));
                    }
                }
                assert forall|o: UntypedVar|
                    dirty.has(o) <==> dirty_before.has(o) || (taken(written, o, j + 1)
                        && after.cell(o) != before.cell(o)) by {
                    assert(dirty_now.has(o) <==> dirty_before.has(o) || (taken(
                        written,
                        o,
                        j as int,
                    ) && after.cell(o) != before.cell(o)));
                    if o != k {
                        assert(taken(written, o, j + 1) == taken(written, o, j as int));
                    }
                }
            }
            j = j + 1;
        }
        self.ok = ok;
        proof {
            self.rank@ = after.rank;
            self.top@ = after.top;
            assert forall|i: int| 0 <= i < after.cells.len() implies self@.cells[i]
                == after.cells[i] by {
                let o = UntypedVar { id: i as usize };
                assert(after.cells[i] == overlaid(written, before, i));
                assert(cell_view(self.cells@[i]) == (if taken(written, o, n as int) {
                    after.cells[i]
                } else {
                    before.cells[i]
                }));
            }
            assert(self@.cells =~= after.cells);
            assert(self@ =~= after);
            assert forall|o: UntypedVar|
                dirty.has(o) <==> dirty_before.has(o) || (before.has(o) && after.cell(o)
                    != before.cell(o)) by {
                assert(dirty.has(o) <==> dirty_before.has(o) || (taken(written, o, n as int)
                    && after.cell(o) != before.cell(o)));
                if before.has(o) {
                    assert(after.cells[o.id as int] == overlaid(written, before, o.id as int));
                }
            }
        }
    }
}

impl Clone for Store {
    fn clone(&self) -> (r: Self)
        ensures
            r@ == self@,
    {
        let mut cells: Vec<Option<VarRef>> = Vec::new();
        let mut i: usize = 0;
        while i < self.cells.len()
            invariant
                i <= self.cells.len(),
                cells.len() == i,
                forall|k: int| 0 <= k < i ==> cell_view(#[trigger] cells@[k]) == cell_view(self.cells@[k]),
            decreases self.cells.len() - i,
        {
            let c = match &self.cells[i] {
                Some(r) => Some(r.clone()),
                None => None,
            };
            cells.push(c);
            i = i + 1;
        }
        let mut tags: Vec<TypeTag> = Vec::new();
        let mut j: usize = 0;
        while j < self.tags.len()
            invariant
                j <= self.tags.len(),
                tags@ == self.tags@.subrange(0, j as int),
            decreases self.tags.len() - j,
        {
            tags.push(self.tags[j].clone());
            j = j + 1;
        }
        assert(self.tags@.subrange(0, self.tags.len() as int) == self.tags@);
        let r = Store { cells, tags, ok: self.ok, rank: Ghost(self.rank@), top: Ghost(self.top@) };
        assert(r@.cells =~= self@.cells);
        assert(r@ =~= self@);
        r
    }
}

} // verus!
