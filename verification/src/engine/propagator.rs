//! The constraints that a state can hold, under one interface.

use crate::alldiff::AllDiffConstraint;
use crate::constraints::{FdLessOrEqual, FdSumConstraint, FdUsizeConstraint, SumConstraint};
use crate::engine::bindings::Bindings;
use crate::engine::constraint::{ConstraintResult, Verdict};
use crate::engine::disequal::{test_step, unify_pairs, Disequal};
use crate::engine::narrowing::{keeps, narrows};
use crate::engine::proxy::StateProxy;
use crate::engine::store::Store;
use crate::engine::varmap::VarMap;
use crate::engine::vars::{UntypedVar, Var};
use crate::finitedomain::Fd;
use vstd::prelude::*;

verus! {

/// A constraint whose arguments are all variables.
#[derive(Debug)]
pub enum Propagator {
    Sum(SumConstraint<i64, Var<i64>, Var<i64>, Var<i64>>),
    SumUsize(SumConstraint<usize, Var<usize>, Var<usize>, Var<usize>>),
    FdSum(FdSumConstraint<Var<Fd>, Var<Fd>, Var<Fd>>),
    FdLessOrEqual(FdLessOrEqual<Var<Fd>, Var<Fd>>),
    AllDiff(AllDiffConstraint),
    FdUsize(FdUsizeConstraint<Var<Fd>, Var<usize>>),
    Disequal(Disequal),
}

impl Clone for Propagator {
    fn clone(&self) -> (r: Self)
        ensures
            r.same_as(*self),
    {
        match self {
            Propagator::Sum(c) => Propagator::Sum(c.clone()),
            Propagator::SumUsize(c) => Propagator::SumUsize(c.clone()),
            Propagator::FdSum(c) => Propagator::FdSum(c.clone()),
            Propagator::FdLessOrEqual(c) => Propagator::FdLessOrEqual(c.clone()),
            Propagator::AllDiff(c) => Propagator::AllDiff(c.clone()),
            Propagator::FdUsize(c) => Propagator::FdUsize(c.clone()),
            Propagator::Disequal(c) => Propagator::Disequal(c.clone()),
        }
    }
}

impl Propagator {
    /// Whether both are the same constraint over the same variables.
    pub open spec fn same_as(self, other: Propagator) -> bool {
        match (self, other) {
            (Propagator::AllDiff(a), Propagator::AllDiff(b)) => a.fds@ == b.fds@,
            (Propagator::Disequal(a), Propagator::Disequal(b)) => a.pairs@ == b.pairs@,
            (Propagator::AllDiff(_), _) => false,
            (Propagator::Disequal(_), _) => false,
            _ => self == other,
        }
    }

    /// Whether the constraint speaks of variables of `b` only.
    pub open spec fn wf(&self, b: Bindings) -> bool {
        match self {
            Propagator::Sum(c) => c.wf(b),
            Propagator::SumUsize(c) => c.wf(b),
            Propagator::FdSum(c) => c.wf(b),
            Propagator::FdLessOrEqual(c) => c.wf(b),
            Propagator::AllDiff(c) => c.wf(b),
            Propagator::FdUsize(c) => c.wf(b),
            Propagator::Disequal(c) => c.wf(b),
        }
    }

    /// Whether what the constraint writes to its scratch state is meant to
    /// be kept. A disequality only tests: what it writes is dropped.
    pub open spec fn keeps_writes(&self) -> bool {
        !(self is Disequal)
    }

    /// What running the constraint does to the scratch state `b` over
    /// `parent`, and what it reports.
    pub open spec fn step(&self, parent: Bindings, b: Bindings, changed: Set<UntypedVar>) -> (
        Bindings,
        Verdict,
    ) {
        match self {
            Propagator::Sum(c) => c.step(b),
            Propagator::SumUsize(c) => c.step(b),
            Propagator::FdSum(c) => c.step(b),
            Propagator::FdLessOrEqual(c) => c.step(b),
            Propagator::AllDiff(c) => (c.step(b, changed).0, c.step(b, changed).1),
            Propagator::FdUsize(c) => c.step(b),
            Propagator::Disequal(c) => (unify_pairs(b, c.pairs@, 0), test_step(c.pairs@, parent, b).0),
        }
    }

    /// Whether `next` is what takes the place of the constraint where it
    /// reports `Updated`.
    pub open spec fn succeeded_by(
        &self,
        next: Propagator,
        parent: Bindings,
        b: Bindings,
        changed: Set<UntypedVar>,
    ) -> bool {
        match self {
            Propagator::AllDiff(c) => next matches Propagator::AllDiff(n) && n.vars() == c.step(
                b,
                changed,
            ).2,
            Propagator::Disequal(c) => next matches Propagator::Disequal(n) && n.pairs@
                == test_step(c.pairs@, parent, b).1,
            _ => false,
        }
    }

    /// The same constraint has the same invariant.
    pub proof fn lemma_same_wf(self, other: Propagator, b: Bindings)
        requires
            self.same_as(other),
            self.wf(b),
        ensures
            other.wf(b),
    {
    }

    /// A constraint over variables of a store is one over variables of every
    /// store with at least as many variables.
    pub proof fn lemma_wf_grows(self, b: Bindings, c: Bindings)
        requires
            self.wf(b),
            b.cells.len() <= c.cells.len(),
        ensures
            self.wf(c),
    {
    }

    /// A constraint whose writes are kept only narrows the store, and keeps
    /// its invariant.
    pub proof fn lemma_step_narrows(
        &self,
        parent: Bindings,
        b: Bindings,
        changed: Set<UntypedVar>,
    )
        requires
            b.wf(),
            self.wf(b),
            self.keeps_writes(),
        ensures
            narrows(b, self.step(parent, b, changed).0),
            keeps(b, self.step(parent, b, changed).0),
    {
        match self {
            Propagator::Sum(c) => {
                c.lemma_step_narrows(b);
            },
            Propagator::SumUsize(c) => {
                c.lemma_step_narrows(b);
            },
            Propagator::FdSum(c) => {
                c.lemma_step_narrows(b);
            },
            Propagator::FdLessOrEqual(c) => {
                c.lemma_step_narrows(b);
            },
            Propagator::AllDiff(c) => {
                c.lemma_step_narrows(b, changed);
            },
            Propagator::FdUsize(c) => {
                c.lemma_step_narrows(b);
            },
            Propagator::Disequal(_) => {},
        }
    }

    /// Runs the constraint on a scratch state.
    pub fn update(&self, proxy: &mut StateProxy) -> (verdict: ConstraintResult<Propagator>)
        requires
            old(proxy).wf(),
            self.wf(old(proxy)@),
        ensures
            final(proxy).wf(),
            final(proxy).same_base(old(proxy)),
            (final(proxy)@, verdict.kind()) == self.step(
                old(proxy).parent@,
                old(proxy)@,
                old(proxy).changed.dom(),
            ),
            verdict matches ConstraintResult::Updated(next) ==> next.wf(final(proxy)@)
                && self.succeeded_by(
                next,
                old(proxy).parent@,
                old(proxy)@,
                old(proxy).changed.dom(),
            ),
    {
        match self {
            Propagator::Sum(c) => match c.update(proxy) {
                ConstraintResult::Failed => ConstraintResult::Failed,
                ConstraintResult::Irrelevant => ConstraintResult::Irrelevant,
                ConstraintResult::Unchanged => ConstraintResult::Unchanged,
                ConstraintResult::Updated(n) => ConstraintResult::Updated(Propagator::Sum(n)),
            },
            Propagator::SumUsize(c) => match c.update(proxy) {
                ConstraintResult::Failed => ConstraintResult::Failed,
                ConstraintResult::Irrelevant => ConstraintResult::Irrelevant,
                ConstraintResult::Unchanged => ConstraintResult::Unchanged,
                ConstraintResult::Updated(n) => ConstraintResult::Updated(Propagator::SumUsize(n)),
            },
            Propagator::FdSum(c) => match c.update(proxy) {
                ConstraintResult::Failed => ConstraintResult::Failed,
                ConstraintResult::Irrelevant => ConstraintResult::Irrelevant,
                ConstraintResult::Unchanged => ConstraintResult::Unchanged,
                ConstraintResult::Updated(n) => ConstraintResult::Updated(Propagator::FdSum(n)),
            },
            Propagator::FdLessOrEqual(c) => match c.update(proxy) {
                ConstraintResult::Failed => ConstraintResult::Failed,
                ConstraintResult::Irrelevant => ConstraintResult::Irrelevant,
                ConstraintResult::Unchanged => ConstraintResult::Unchanged,
                ConstraintResult::Updated(n) => ConstraintResult::Updated(
                    Propagator::FdLessOrEqual(n),
                ),
            },
            Propagator::AllDiff(c) => match c.update(proxy) {
                ConstraintResult::Failed => ConstraintResult::Failed,
                ConstraintResult::Irrelevant => ConstraintResult::Irrelevant,
                ConstraintResult::Unchanged => ConstraintResult::Unchanged,
                ConstraintResult::Updated(n) => ConstraintResult::Updated(Propagator::AllDiff(n)),
            },
            Propagator::FdUsize(c) => match c.update(proxy) {
                ConstraintResult::Failed => ConstraintResult::Failed,
                ConstraintResult::Irrelevant => ConstraintResult::Irrelevant,
                ConstraintResult::Unchanged => ConstraintResult::Unchanged,
                ConstraintResult::Updated(n) => ConstraintResult::Updated(Propagator::FdUsize(n)),
            },
            Propagator::Disequal(c) => match c.test(proxy) {
                ConstraintResult::Failed => ConstraintResult::Failed,
                ConstraintResult::Irrelevant => ConstraintResult::Irrelevant,
                ConstraintResult::Unchanged => ConstraintResult::Unchanged,
                ConstraintResult::Updated(n) => ConstraintResult::Updated(Propagator::Disequal(n)),
            },
        }
    }

    /// Whether a variable of the constraint has an entry in `changes`.
    pub fn relevant(&self, changes: &VarMap) -> (r: bool)
        requires
            changes.wf(),
        ensures
            r == self.relevant_in(changes.dom()),
    {
        match self {
            Propagator::Sum(c) => c.relevant(changes),
            Propagator::SumUsize(c) => c.relevant(changes),
            Propagator::FdSum(c) => c.relevant(changes),
            Propagator::FdLessOrEqual(c) => c.relevant(changes),
            Propagator::AllDiff(c) => c.relevant(changes),
            Propagator::FdUsize(c) => c.relevant(changes),
            Propagator::Disequal(c) => c.relevant(changes),
        }
    }

    /// Whether the constraint has to run again after the variables in `vars`
    /// changed.
    pub fn need_update(&self, vars: &VarMap) -> (r: bool)
        requires
            vars.wf(),
        ensures
            r == self.relevant_in(vars.dom()),
    {
        match self {
            Propagator::AllDiff(c) => c.need_update(vars),
            _ => self.relevant(vars),
        }
    }

    /// Whether `moved` is this constraint with each variable rewritten to
    /// its representative in `b`.
    pub open spec fn moved_to(self, b: Bindings, moved: Propagator) -> bool {
        match (self, moved) {
            (Propagator::Sum(c), Propagator::Sum(m)) => m.l.var == b.follow(c.l.var) && m.r.var
                == b.follow(c.r.var) && m.result.var == b.follow(c.result.var),
            (Propagator::SumUsize(c), Propagator::SumUsize(m)) => m.l.var == b.follow(c.l.var)
                && m.r.var == b.follow(c.r.var) && m.result.var == b.follow(c.result.var),
            (Propagator::FdSum(c), Propagator::FdSum(m)) => m.l.var == b.follow(c.l.var) && m.r.var
                == b.follow(c.r.var) && m.result.var == b.follow(c.result.var),
            (Propagator::FdLessOrEqual(c), Propagator::FdLessOrEqual(m)) => m.l.var == b.follow(
                c.l.var,
            ) && m.r.var == b.follow(c.r.var),
            (Propagator::AllDiff(c), Propagator::AllDiff(m)) => m.fds.len() == c.fds.len()
                && forall|i: int|
                0 <= i < c.fds.len() ==> (#[trigger] m.fds@[i]).var == b.follow(c.fds@[i].var),
            (Propagator::FdUsize(c), Propagator::FdUsize(m)) => m.fd.var == b.follow(c.fd.var)
                && m.u.var == b.follow(c.u.var),
            (Propagator::Disequal(c), Propagator::Disequal(m)) => m.pairs.len() == c.pairs.len()
                && forall|i: int|
                0 <= i < c.pairs.len() ==> (#[trigger] m.pairs@[i]) == (
                    b.follow(c.pairs@[i].0),
                    b.follow(c.pairs@[i].1),
                    c.pairs@[i].2,
                ),
            _ => false,
        }
    }

    /// The constraint with each variable rewritten to its representative.
    pub fn update_vars(self, store: &Store) -> (r: Propagator)
        requires
            store.wf(),
            self.wf(store@),
        ensures
            r.wf(store@),
            self.moved_to(store@, r),
    {
        match self {
            Propagator::Sum(c) => {
                let mut c = c;
                c.update_vars(store);
                Propagator::Sum(c)
            },
            Propagator::SumUsize(c) => {
                let mut c = c;
                c.update_vars(store);
                Propagator::SumUsize(c)
            },
            Propagator::FdSum(c) => {
                let mut c = c;
                c.update_vars(store);
                Propagator::FdSum(c)
            },
            Propagator::FdLessOrEqual(c) => {
                let mut c = c;
                c.update_vars(store);
                Propagator::FdLessOrEqual(c)
            },
            Propagator::AllDiff(c) => {
                let mut c = c;
                c.update_vars(store);
                Propagator::AllDiff(c)
            },
            Propagator::FdUsize(c) => {
                let mut c = c;
                c.update_vars(store);
                Propagator::FdUsize(c)
            },
            Propagator::Disequal(c) => {
                let mut c = c;
                c.update_vars(store);
                Propagator::Disequal(c)
            },
        }
    }
}

} // verus!
