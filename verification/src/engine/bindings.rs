//! The mathematical model of a variable store: which cell is bound to what,
//! and what following the merges of cells leads to.

use crate::engine::vars::{TypeTag, UntypedVar, ValueView, VarRefView};
use vstd::prelude::*;

verus! {

/// The content of a store. Cell `i` belongs to the variable with identifier
/// `i`; it is unbound (`None`), bound to a value, or merged into another
/// cell. `rank` and `top` witness that merges never form a cycle: a merged
/// cell ranks below the cell it was merged into, and no rank exceeds `top`.
#[verifier::ext_equal]
pub struct Bindings {
    pub cells: Seq<Option<VarRefView>>,
    pub tags: Seq<TypeTag>,
    pub rank: Seq<nat>,
    pub top: nat,
    pub ok: bool,
}

impl Bindings {
    /// The store without variables.
    pub open spec fn empty() -> Bindings {
        Bindings { cells: Seq::empty(), tags: Seq::empty(), rank: Seq::empty(), top: 0, ok: true }
    }

    /// Whether `x` is a variable of this store.
    pub open spec fn has(self, x: UntypedVar) -> bool {
        x.id < self.cells.len()
    }

    /// What the cell of `x` holds.
    pub open spec fn cell(self, x: UntypedVar) -> Option<VarRefView> {
        self.cells[x.id as int]
    }

    /// The type tag of `x`.
    pub open spec fn tag(self, x: UntypedVar) -> TypeTag {
        self.tags[x.id as int]
    }

    /// A value that may stand in a cell: a finite domain meets its invariant,
    /// and a structured value names variables of this store only.
    pub open spec fn value_ok(self, v: ValueView) -> bool {
        &&& v.sound()
        &&& forall|k: int| 0 <= k < v.subs().len() ==> self.has(#[trigger] v.subs()[k])
    }

    /// What the invariant asks of cell `i`.
    pub open spec fn cell_ok(self, i: int) -> bool {
        &&& self.rank[i] <= self.top
        &&& match self.cells[i] {
            Some(VarRefView::EqualTo(y)) => self.has(y) && self.rank[i] < self.rank[y.id as int],
            Some(VarRefView::Exactly(v)) => self.value_ok(v),
            None => true,
        }
    }

    /// The invariant of a store.
    pub open spec fn wf(self) -> bool {
        &&& self.tags.len() == self.cells.len()
        &&& self.rank.len() == self.cells.len()
        &&& forall|i: int| 0 <= i < self.cells.len() ==> #[trigger] self.cell_ok(i)
    }

    /// Whether the cell of `x` was merged into another cell that ranks
    /// higher.
    pub open spec fn merged(self, x: UntypedVar) -> bool {
        &&& self.has(x)
        &&& x.id < self.rank.len()
        &&& self.cell(x) matches Some(VarRefView::EqualTo(y))
        &&& y.id < self.rank.len()
        &&& self.rank[x.id as int] < self.rank[y.id as int] <= self.top
    }

    /// The cell that the cell of `x` was merged into.
    pub open spec fn next(self, x: UntypedVar) -> UntypedVar {
        match self.cell(x) {
            Some(VarRefView::EqualTo(y)) => y,
            _ => x,
        }
    }

    /// The representative of `x`: where following merges from `x` ends.
    pub open spec fn follow(self, x: UntypedVar) -> UntypedVar
        decreases self.top - self.rank[x.id as int],
    {
        if self.merged(x) {
            self.follow(self.next(x))
        } else {
            x
        }
    }

    /// The number of merges between `x` and its representative.
    pub open spec fn distance(self, x: UntypedVar) -> nat
        decreases self.top - self.rank[x.id as int],
    {
        if self.merged(x) {
            1 + self.distance(self.next(x))
        } else {
            0
        }
    }

    /// Whether `x` is a representative: a variable whose cell was not merged.
    pub open spec fn is_root(self, x: UntypedVar) -> bool {
        self.has(x) && !(self.cell(x) matches Some(VarRefView::EqualTo(_)))
    }

    /// The value that `x` resolves to, if its representative is bound.
    pub open spec fn value(self, x: UntypedVar) -> Option<ValueView> {
        match self.cell(self.follow(x)) {
            Some(VarRefView::Exactly(v)) => Some(v),
            _ => None,
        }
    }

    /// The store with the cell of `x` replaced.
    pub open spec fn set_cell(self, x: UntypedVar, r: Option<VarRefView>) -> Bindings {
        Bindings { cells: self.cells.update(x.id as int, r), ..self }
    }

    /// The store with `x` bound to `v`.
    pub open spec fn bind(self, x: UntypedVar, v: ValueView) -> Bindings {
        self.set_cell(x, Some(VarRefView::Exactly(v)))
    }

    /// The store with the cell of `a` merged into the representative `t`,
    /// which is ranked above everything else.
    pub open spec fn link(self, a: UntypedVar, t: UntypedVar) -> Bindings {
        Bindings {
            cells: self.cells.update(a.id as int, Some(VarRefView::EqualTo(t))),
            rank: self.rank.update(t.id as int, self.top + 1),
            top: self.top + 1,
            ..self
        }
    }

    /// The store with one more variable, of type `tag`, whose cell holds `r`.
    pub open spec fn extend(self, tag: TypeTag, r: Option<VarRefView>) -> Bindings {
        Bindings {
            cells: self.cells.push(r),
            tags: self.tags.push(tag),
            rank: self.rank.push(0),
            ..self
        }
    }

    /// The variable that the next `extend` adds.
    pub open spec fn fresh(self) -> UntypedVar {
        UntypedVar { id: self.cells.len() as usize }
    }

    /// The store marked as failed.
    pub open spec fn fail(self) -> Bindings {
        Bindings { ok: false, ..self }
    }

    /// Whether `other` has every variable of this store, with its tag.
    pub open spec fn grows_to(self, other: Bindings) -> bool {
        &&& self.cells.len() <= other.cells.len()
        &&& forall|i: int| 0 <= i < self.tags.len() ==> self.tags[i] == #[trigger] other.tags[i]
    }

    /// Following merges ends, after finitely many steps, at a
    /// representative of the store: a cell that is unbound or bound to a
    /// value. The number of steps is at most `top`.
    pub proof fn lemma_follow_ends(self, x: UntypedVar)
        requires
            self.wf(),
            self.has(x),
        ensures
            self.is_root(self.follow(x)),
            self.follow(self.follow(x)) == self.follow(x),
            self.distance(x) <= self.top - self.rank[x.id as int],
            self.cell(self.follow(x)) is None || self.cell(self.follow(x)) matches Some(
                VarRefView::Exactly(_),
            ),
        decreases self.top - self.rank[x.id as int],
    {
        assert(self.cell_ok(x.id as int));
        if self.merged(x) {
            let y = self.next(x);
            assert(self.cell_ok(y.id as int));
            self.lemma_follow_ends(y);
        } else {
            match self.cell(x) {
                Some(VarRefView::EqualTo(y)) => {
                    assert(self.cell_ok(y.id as int));
                },
                _ => {},
            }
        }
    }

    /// Every finite domain that a variable of a store resolves to meets the
    /// invariant of domains: an enumeration is strictly increasing and has
    /// at least two entries.
    pub proof fn lemma_domains_usable(self, x: UntypedVar)
        requires
            self.wf(),
            self.has(x),
        ensures
            self.value(x) matches Some(ValueView::Fd(d)) ==> d.wf(),
    {
        self.lemma_follow_ends(x);
        assert(self.cell_ok(self.follow(x).id as int));
    }

    /// A representative is its own representative.
    pub proof fn lemma_follow_root(self, x: UntypedVar)
        requires
            self.is_root(x),
        ensures
            self.follow(x) == x,
            self.distance(x) == 0,
    {
    }

    /// Marking a store as failed keeps the invariant.
    pub proof fn lemma_fail_wf(self)
        requires
            self.wf(),
        ensures
            self.fail().wf(),
    {
        let after = self.fail();
        assert forall|i: int| 0 <= i < after.cells.len() implies #[trigger] after.cell_ok(i) by {
            assert(self.cell_ok(i));
            match self.cells[i] {
                Some(VarRefView::Exactly(w)) => {
                    assert(after.value_ok(w));
                },
                _ => {},
            }
        }
    }

    /// Binding a variable to a value that may stand in a cell keeps the
    /// invariant.
    pub proof fn lemma_bind_wf(self, x: UntypedVar, v: ValueView)
        requires
            self.wf(),
            self.has(x),
            self.value_ok(v),
        ensures
            self.bind(x, v).wf(),
            self.grows_to(self.bind(x, v)),
    {
        let after = self.bind(x, v);
        assert forall|i: int| 0 <= i < after.cells.len() implies #[trigger] after.cell_ok(i) by {
            assert(self.cell_ok(i));
            if i != x.id {
                match self.cells[i] {
                    Some(VarRefView::Exactly(w)) => {
                        assert(after.value_ok(w));
                    },
                    _ => {},
                }
            } else {
                assert(after.value_ok(v));
            }
        }
    }

    /// Binding a representative leaves every representative where it was.
    pub proof fn lemma_bind_follow(self, x: UntypedVar, v: ValueView, z: UntypedVar)
        requires
            self.wf(),
            self.is_root(x),
        ensures
            self.bind(x, v).follow(z) == self.follow(z),
        decreases self.top - self.rank[z.id as int],
    {
        let after = self.bind(x, v);
        if self.merged(z) {
            assert(z != x);
            assert(after.merged(z));
            self.lemma_bind_follow(x, v, self.next(z));
        } else {
            assert(!after.merged(z));
        }
    }

    /// Adding a variable keeps the invariant.
    pub proof fn lemma_extend_wf(self, tag: TypeTag, r: Option<VarRefView>)
        requires
            self.wf(),
            r matches Some(c) ==> (c matches VarRefView::Exactly(v) && self.value_ok(v)),
        ensures
            self.extend(tag, r).wf(),
            self.grows_to(self.extend(tag, r)),
            self.extend(tag, r).has(self.fresh()) || self.cells.len() > usize::MAX,
    {
        let after = self.extend(tag, r);
        assert forall|i: int| 0 <= i < after.cells.len() implies #[trigger] after.cell_ok(i) by {
            if i < self.cells.len() {
                assert(self.cell_ok(i));
                match self.cells[i] {
                    Some(VarRefView::Exactly(w)) => {
                        assert(after.value_ok(w));
                    },
                    _ => {},
                }
            } else {
                match r {
                    Some(VarRefView::Exactly(w)) => {
                        assert(after.value_ok(w));
                    },
                    _ => {},
                }
            }
        }
    }

    /// Adding a variable leaves the representatives of the others where they
    /// were.
    pub proof fn lemma_extend_follow(self, tag: TypeTag, r: Option<VarRefView>, z: UntypedVar)
        requires
            self.wf(),
            self.has(z),
        ensures
            self.extend(tag, r).follow(z) == self.follow(z),
        decreases self.top - self.rank[z.id as int],
    {
        let after = self.extend(tag, r);
        assert(self.cell_ok(z.id as int));
        if self.merged(z) {
            assert(after.merged(z));
            self.lemma_extend_follow(tag, r, self.next(z));
        } else {
            assert(!after.merged(z));
        }
    }

    /// Merging a cell into another representative keeps the invariant.
    pub proof fn lemma_link_wf(self, a: UntypedVar, t: UntypedVar)
        requires
            self.wf(),
            self.has(a),
            self.is_root(t),
            a != t,
        ensures
            self.link(a, t).wf(),
            self.grows_to(self.link(a, t)),
    {
        let after = self.link(a, t);
        assert forall|i: int| 0 <= i < after.cells.len() implies #[trigger] after.cell_ok(i) by {
            assert(self.cell_ok(i));
            if i == a.id {
                assert(after.rank[t.id as int] == self.top + 1);
            } else {
                match self.cells[i] {
                    Some(VarRefView::Exactly(w)) => {
                        assert(after.value_ok(w));
                    },
                    Some(VarRefView::EqualTo(y)) => {
                        assert(self.cell_ok(y.id as int));
                    },
                    None => {},
                }
            }
        }
    }

    /// After a representative `a` was merged into another representative
    /// `t`, whatever led to `a` leads to `t`, and everything else leads
    /// where it led before.
    pub proof fn lemma_link_follow(self, a: UntypedVar, t: UntypedVar, z: UntypedVar)
        requires
            self.wf(),
            self.is_root(a),
            self.is_root(t),
            a != t,
            self.has(z),
        ensures
            self.link(a, t).follow(z) == (if self.follow(z) == a {
                t
            } else {
                self.follow(z)
            }),
        decreases self.top - self.rank[z.id as int],
    {
        let after = self.link(a, t);
        assert(self.cell_ok(z.id as int));
        assert(self.cell_ok(a.id as int));
        assert(self.cell_ok(t.id as int));
        if z == a {
            assert(after.merged(a));
            assert(!after.merged(t));
            assert(after.follow(t) == t);
        } else if self.merged(z) {
            let y = self.next(z);
            assert(self.cell_ok(y.id as int));
            assert(after.merged(z));
            self.lemma_link_follow(a, t, y);
        } else {
            match self.cell(z) {
                Some(VarRefView::EqualTo(y)) => {
                    assert(self.cell_ok(y.id as int));
                },
                _ => {},
            }
            assert(!after.merged(z));
        }
    }
}

} // verus!
