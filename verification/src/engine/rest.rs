//! When a constraint is at rest: what it reports depends on its own
//! variables only, so it keeps reporting `Unchanged` until the cell of one
//! of them changes.
//!
//! This holds of the sums, the order of finite domains, the bridge and the
//! difference of finite domains. It does not hold of a disequality, whose
//! report also depends on the terms nested in its variables; what holds of
//! a disequality between terms without nested variables is stated with the
//! shallow pairs.

use crate::engine::bindings::Bindings;
use crate::engine::propagator::Propagator;
use crate::engine::vars::UntypedVar;
use vstd::prelude::*;

verus! {

/// Whether one of three variables has an entry in `changed`.
pub open spec fn any_in(
    changed: Set<UntypedVar>,
    x: UntypedVar,
    y: UntypedVar,
    z: UntypedVar,
) -> bool {
    changed.contains(x) || changed.contains(y) || changed.contains(z)
}

/// Whether three variables are representatives.
pub open spec fn roots(b: Bindings, x: UntypedVar, y: UntypedVar, z: UntypedVar) -> bool {
    b.is_root(x) && b.is_root(y) && b.is_root(z)
}

/// Whether the cells of three variables are the same in both stores.
pub open spec fn same_cells(
    b: Bindings,
    c: Bindings,
    x: UntypedVar,
    y: UntypedVar,
    z: UntypedVar,
) -> bool {
    c.cell(x) == b.cell(x) && c.cell(y) == b.cell(y) && c.cell(z) == b.cell(z)
}

/// A representative whose cell is the same in another store is a
/// representative there, and resolves to the same value.
pub proof fn lemma_same_value(b: Bindings, c: Bindings, x: UntypedVar)
    requires
        b.is_root(x),
        c.has(x),
        c.cell(x) == b.cell(x),
    ensures
        c.is_root(x),
        c.follow(x) == x,
        b.follow(x) == x,
        c.value(x) == b.value(x),
{
    b.lemma_follow_root(x);
    c.lemma_follow_root(x);
}

/// A variable and its representative resolve to the same value.
pub proof fn lemma_root_value(b: Bindings, x: UntypedVar)
    requires
        b.wf(),
        b.has(x),
    ensures
        b.is_root(b.follow(x)),
        b.value(b.follow(x)) == b.value(x),
{
    b.lemma_follow_ends(x);
}

impl Propagator {
    /// Whether the report of the constraint depends on its own variables
    /// only.
    pub open spec fn plain(&self) -> bool {
        !(self is Disequal)
    }

    /// Whether a variable of the constraint has an entry in `changed`.
    pub open spec fn relevant_in(&self, changed: Set<UntypedVar>) -> bool {
        match self {
            Propagator::Sum(c) => any_in(changed, c.l.var, c.r.var, c.result.var),
            Propagator::SumUsize(c) => any_in(changed, c.l.var, c.r.var, c.result.var),
            Propagator::FdSum(c) => any_in(changed, c.l.var, c.r.var, c.result.var),
            Propagator::FdLessOrEqual(c) => any_in(changed, c.l.var, c.r.var, c.r.var),
            Propagator::AllDiff(c) => exists|i: int|
                0 <= i < c.fds.len() && changed.contains(#[trigger] c.fds@[i].var),
            Propagator::FdUsize(c) => any_in(changed, c.fd.var, c.u.var, c.u.var),
            Propagator::Disequal(c) => exists|i: int|
                0 <= i < c.pairs.len() && (changed.contains((#[trigger] c.pairs@[i]).0)
                    || changed.contains(c.pairs@[i].1)),
        }
    }

    /// Whether the variables of the constraint are representatives. Nothing
    /// is asked of the variables of a difference of finite domains, which
    /// rests whenever none of them has changed, and of a disequality.
    pub open spec fn rooted(&self, b: Bindings) -> bool {
        match self {
            Propagator::Sum(c) => roots(b, c.l.var, c.r.var, c.result.var),
            Propagator::SumUsize(c) => roots(b, c.l.var, c.r.var, c.result.var),
            Propagator::FdSum(c) => roots(b, c.l.var, c.r.var, c.result.var),
            Propagator::FdLessOrEqual(c) => roots(b, c.l.var, c.r.var, c.r.var),
            Propagator::FdUsize(c) => roots(b, c.fd.var, c.u.var, c.u.var),
            _ => true,
        }
    }

    /// Whether the cells of the variables of the constraint are the same in
    /// both stores.
    pub open spec fn untouched(&self, b: Bindings, c: Bindings) -> bool {
        match self {
            Propagator::Sum(k) => same_cells(b, c, k.l.var, k.r.var, k.result.var),
            Propagator::SumUsize(k) => same_cells(b, c, k.l.var, k.r.var, k.result.var),
            Propagator::FdSum(k) => same_cells(b, c, k.l.var, k.r.var, k.result.var),
            Propagator::FdLessOrEqual(k) => same_cells(b, c, k.l.var, k.r.var, k.r.var),
            Propagator::FdUsize(k) => same_cells(b, c, k.fd.var, k.u.var, k.u.var),
            _ => true,
        }
    }

    /// Whether the constraint reports `Unchanged` when it runs on `b` while
    /// none of its variables is marked as changed.
    pub open spec fn at_rest(&self, b: Bindings) -> bool {
        match self {
            Propagator::Sum(c) => c.resting(b),
            Propagator::SumUsize(c) => c.resting(b),
            Propagator::FdSum(c) => c.resting(b),
            Propagator::FdLessOrEqual(c) => c.resting(b),
            Propagator::FdUsize(c) => c.resting(b),
            _ => true,
        }
    }

    /// A constraint whose report depends on its own variables only, and none
    /// of whose variables is marked as changed, reports `Unchanged` exactly
    /// while it is at rest.
    pub proof fn lemma_at_rest(&self, parent: Bindings, b: Bindings, changed: Set<UntypedVar>)
        requires
            self.plain(),
            !self.relevant_in(changed),
        ensures
            (self.step(parent, b, changed).1 is Unchanged) == self.at_rest(b),
    {
        match self {
            Propagator::Sum(c) => {
                c.lemma_resting(b);
            },
            Propagator::SumUsize(c) => {
                c.lemma_resting(b);
            },
            Propagator::FdSum(c) => {
                c.lemma_resting(b);
            },
            Propagator::FdLessOrEqual(c) => {
                c.lemma_resting(b);
            },
            Propagator::FdUsize(c) => {
                c.lemma_resting(b);
            },
            Propagator::AllDiff(c) => {
                assert forall|i: int| 0 <= i < c.fds.len() implies !changed.contains(
                    #[trigger] c.fds@[i].var,
                ) by {}
                c.lemma_unchanged_when_quiet(b, changed);
            },
            Propagator::Disequal(_) => {},
        }
    }

    /// Whether the constraint has nothing to do in `b` unless it is marked
    /// for another run: one of its variables is marked as changed, or its
    /// variables are representatives and it is at rest.
    pub open spec fn calm(&self, b: Bindings, changed: Set<UntypedVar>) -> bool {
        !self.plain() || self.relevant_in(changed) || (self.rooted(b) && self.at_rest(b))
    }

    /// A constraint whose variables are representatives with the same cells
    /// in another store is at rest there if and only if it is at rest here.
    pub proof fn lemma_frame(&self, b: Bindings, c: Bindings)
        requires
            self.wf(b),
            self.wf(c),
            self.rooted(b),
            self.untouched(b, c),
        ensures
            self.rooted(c),
            self.at_rest(c) == self.at_rest(b),
    {
        match self {
            Propagator::Sum(k) => {
                lemma_same_value(b, c, k.l.var);
                lemma_same_value(b, c, k.r.var);
                lemma_same_value(b, c, k.result.var);
            },
            Propagator::SumUsize(k) => {
                lemma_same_value(b, c, k.l.var);
                lemma_same_value(b, c, k.r.var);
                lemma_same_value(b, c, k.result.var);
            },
            Propagator::FdSum(k) => {
                lemma_same_value(b, c, k.l.var);
                lemma_same_value(b, c, k.r.var);
                lemma_same_value(b, c, k.result.var);
            },
            Propagator::FdLessOrEqual(k) => {
                lemma_same_value(b, c, k.l.var);
                lemma_same_value(b, c, k.r.var);
            },
            Propagator::FdUsize(k) => {
                lemma_same_value(b, c, k.fd.var);
                lemma_same_value(b, c, k.u.var);
            },
            _ => {},
        }
    }

    /// A constraint with its variables rewritten to their representatives is
    /// at rest if and only if the constraint is.
    pub proof fn lemma_moved_rest(&self, b: Bindings, moved: Propagator)
        requires
            b.wf(),
            self.wf(b),
            self.moved_to(b, moved),
        ensures
            moved.plain() == self.plain(),
            moved.rooted(b),
            moved.at_rest(b) == self.at_rest(b),
    {
        match self {
            Propagator::Sum(k) => {
                lemma_root_value(b, k.l.var);
                lemma_root_value(b, k.r.var);
                lemma_root_value(b, k.result.var);
            },
            Propagator::SumUsize(k) => {
                lemma_root_value(b, k.l.var);
                lemma_root_value(b, k.r.var);
                lemma_root_value(b, k.result.var);
            },
            Propagator::FdSum(k) => {
                lemma_root_value(b, k.l.var);
                lemma_root_value(b, k.r.var);
                lemma_root_value(b, k.result.var);
            },
            Propagator::FdLessOrEqual(k) => {
                lemma_root_value(b, k.l.var);
                lemma_root_value(b, k.r.var);
            },
            Propagator::FdUsize(k) => {
                lemma_root_value(b, k.fd.var);
                lemma_root_value(b, k.u.var);
            },
            _ => {},
        }
    }

    /// A calm constraint stays calm when the store changes, as long as every
    /// variable that was marked as changed stays marked and every variable
    /// whose cell changes gets marked.
    pub proof fn lemma_calm_kept(
        &self,
        b: Bindings,
        changed: Set<UntypedVar>,
        c: Bindings,
        marked: Set<UntypedVar>,
    )
        requires
            self.wf(b),
            self.wf(c),
            self.calm(b, changed),
            forall|k: UntypedVar| changed.contains(k) ==> marked.contains(k),
            forall|k: UntypedVar| b.has(k) && c.cell(k) != b.cell(k) ==> marked.contains(k),
        ensures
            self.calm(c, marked),
    {
        if self.plain() && !self.relevant_in(changed) {
            if self.untouched(b, c) {
                self.lemma_frame(b, c);
            }
        }
        if self.plain() && self.relevant_in(changed) {
            match self {
                Propagator::AllDiff(k) => {
                    let i = choose|i: int|
                        0 <= i < k.fds.len() && changed.contains(#[trigger] k.fds@[i].var);
                    assert(marked.contains(k.fds@[i].var));
                },
                _ => {},
            }
        }
    }

    /// The same constraint is as calm.
    pub proof fn lemma_same_calm(
        &self,
        other: Propagator,
        b: Bindings,
        changed: Set<UntypedVar>,
    )
        requires
            self.same_as(other),
            self.calm(b, changed),
        ensures
            other.calm(b, changed),
    {
        match (*self, other) {
            (Propagator::AllDiff(a), Propagator::AllDiff(o)) => {
                if self.relevant_in(changed) {
                    let i = choose|i: int|
                        0 <= i < a.fds.len() && changed.contains(#[trigger] a.fds@[i].var);
                    assert(o.fds@[i] == a.fds@[i]);
                }
            },
            _ => {},
        }
    }

    /// A constraint that has run and reported `Unchanged` is at rest in the
    /// store that the run has left.
    pub proof fn lemma_rest_after_run(
        &self,
        parent: Bindings,
        b: Bindings,
        changed: Set<UntypedVar>,
    )
        requires
            b.wf(),
            self.wf(b),
            self.step(parent, b, changed).1 is Unchanged,
        ensures
            self.at_rest(self.step(parent, b, changed).0),
    {
        match self {
            Propagator::Sum(c) => {
                c.lemma_unchanged_again(b);
                c.lemma_resting(b);
            },
            Propagator::SumUsize(c) => {
                c.lemma_unchanged_again(b);
                c.lemma_resting(b);
            },
            Propagator::FdSum(c) => {
                c.lemma_unchanged_again(b);
                c.lemma_resting(b);
            },
            Propagator::FdLessOrEqual(c) => {
                c.lemma_unchanged_again(b);
                c.lemma_resting(c.step(b).0);
            },
            Propagator::FdUsize(c) => {
                c.lemma_unchanged_again(b);
                c.lemma_resting(b);
            },
            _ => {},
        }
    }

    /// A constraint at rest whose variables are representatives is calm
    /// after the store has changed, as long as every variable whose cell
    /// changes gets marked.
    pub proof fn lemma_rest_kept(&self, b: Bindings, c: Bindings, marked: Set<UntypedVar>)
        requires
            self.wf(b),
            self.wf(c),
            !self.plain() || (self.rooted(b) && self.at_rest(b)),
            forall|k: UntypedVar| b.has(k) && c.cell(k) != b.cell(k) ==> marked.contains(k),
        ensures
            self.calm(c, marked),
    {
        if self.plain() && self.untouched(b, c) {
            self.lemma_frame(b, c);
        }
    }

    /// What replaces a difference of finite domains or a disequality is
    /// calm.
    pub proof fn lemma_successor_calm(
        &self,
        next: Propagator,
        parent: Bindings,
        b: Bindings,
        changed: Set<UntypedVar>,
        c: Bindings,
        moved: Propagator,
        marked: Set<UntypedVar>,
    )
        requires
            self.succeeded_by(next, parent, b, changed),
            next.moved_to(c, moved),
        ensures
            moved.calm(c, marked),
    {
    }

    /// The same constraint is at rest in the same stores.
    pub proof fn lemma_same_rest(&self, other: Propagator, b: Bindings)
        requires
            self.same_as(other),
        ensures
            other.at_rest(b) == self.at_rest(b),
            other.plain() == self.plain(),
    {
    }
}

} // verus!
