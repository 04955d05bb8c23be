//! The scheduler, stated on the model: what a run of one constraint, a round
//! of propagation and propagation to a fixpoint leave of a store and of the
//! live constraints.

use crate::alldiff::{all_diff_step, lemma_all_diff_narrows, vars_in};
use crate::constraints::{FdLessOrEqual, FdSumConstraint, FdUsizeConstraint, SumConstraint};
use crate::engine::bindings::Bindings;
use crate::engine::constraint::Verdict;
use crate::engine::disequal::{
    fresh_pairs, lemma_fresh_in, lemma_hopped_in, lemma_unify_pairs_keeps, pairs_in, test_step,
    unify_pairs, Pair,
};
use crate::engine::narrowing::{
    below, free_count, keeps, lemma_narrows_measure, lemma_narrows_trans, narrows, weight,
};
use crate::engine::propagator::Propagator;
use crate::engine::state::outcome;
use crate::engine::vars::{UntypedVar, Var};
use crate::finitedomain::Fd;
use std::marker::PhantomData;
use vstd::prelude::*;

verus! {

/// What a live constraint is: its kind and its variables.
#[verifier::ext_equal]
pub enum PropView {
    Sum(UntypedVar, UntypedVar, UntypedVar),
    SumUsize(UntypedVar, UntypedVar, UntypedVar),
    FdSum(UntypedVar, UntypedVar, UntypedVar),
    FdLessOrEqual(UntypedVar, UntypedVar),
    AllDiff(Seq<UntypedVar>),
    FdUsize(UntypedVar, UntypedVar),
    Disequal(Seq<Pair>),
}

impl View for Propagator {
    type V = PropView;

    open spec fn view(&self) -> PropView {
        match self {
            Propagator::Sum(c) => PropView::Sum(c.l.var, c.r.var, c.result.var),
            Propagator::SumUsize(c) => PropView::SumUsize(c.l.var, c.r.var, c.result.var),
            Propagator::FdSum(c) => PropView::FdSum(c.l.var, c.r.var, c.result.var),
            Propagator::FdLessOrEqual(c) => PropView::FdLessOrEqual(c.l.var, c.r.var),
            Propagator::AllDiff(c) => PropView::AllDiff(c.vars()),
            Propagator::FdUsize(c) => PropView::FdUsize(c.fd.var, c.u.var),
            Propagator::Disequal(c) => PropView::Disequal(c.pairs@),
        }
    }
}

/// The variable `x` with the static type `T`.
pub open spec fn typed<T>(x: UntypedVar) -> Var<T> {
    Var { var: x, marker: PhantomData }
}

/// The sum constraint over three variables.
pub open spec fn sum_over<A>(l: UntypedVar, r: UntypedVar, t: UntypedVar) -> SumConstraint<
    A,
    Var<A>,
    Var<A>,
    Var<A>,
> {
    SumConstraint { l: typed(l), r: typed(r), result: typed(t), marker: PhantomData }
}

/// The sum constraint over three finite domains.
pub open spec fn fd_sum_over(l: UntypedVar, r: UntypedVar, t: UntypedVar) -> FdSumConstraint<
    Var<Fd>,
    Var<Fd>,
    Var<Fd>,
> {
    FdSumConstraint { l: typed(l), r: typed(r), result: typed(t) }
}

/// The order constraint over two finite domains.
pub open spec fn fd_le_over(l: UntypedVar, r: UntypedVar) -> FdLessOrEqual<Var<Fd>, Var<Fd>> {
    FdLessOrEqual { l: typed(l), r: typed(r) }
}

/// The bridge between a finite domain and a plain integer.
pub open spec fn fd_usize_over(fd: UntypedVar, u: UntypedVar) -> FdUsizeConstraint<
    Var<Fd>,
    Var<usize>,
> {
    FdUsizeConstraint { fd: typed(fd), u: typed(u) }
}

impl PropView {
    /// Whether the constraint speaks of variables of `b` only.
    pub open spec fn wf(self, b: Bindings) -> bool {
        match self {
            PropView::Sum(l, r, t) => b.has(l) && b.has(r) && b.has(t),
            PropView::SumUsize(l, r, t) => b.has(l) && b.has(r) && b.has(t),
            PropView::FdSum(l, r, t) => b.has(l) && b.has(r) && b.has(t),
            PropView::FdLessOrEqual(l, r) => b.has(l) && b.has(r),
            PropView::AllDiff(vars) => vars_in(vars, b),
            PropView::FdUsize(fd, u) => b.has(fd) && b.has(u),
            PropView::Disequal(pairs) => pairs_in(pairs, b),
        }
    }

    /// Whether what the constraint writes to its scratch state is meant to
    /// be kept.
    pub open spec fn keeps_writes(self) -> bool {
        !(self is Disequal)
    }

    /// What running the constraint does to the scratch state `b` over
    /// `parent`, and what it reports.
    pub open spec fn step(self, parent: Bindings, b: Bindings, changed: Set<UntypedVar>) -> (
        Bindings,
        Verdict,
    ) {
        match self {
            PropView::Sum(l, r, t) => sum_over::<i64>(l, r, t).step(b),
            PropView::SumUsize(l, r, t) => sum_over::<usize>(l, r, t).step(b),
            PropView::FdSum(l, r, t) => fd_sum_over(l, r, t).step(b),
            PropView::FdLessOrEqual(l, r) => fd_le_over(l, r).step(b),
            PropView::AllDiff(vars) => (
                all_diff_step(vars, b, changed).0,
                all_diff_step(vars, b, changed).1,
            ),
            PropView::FdUsize(fd, u) => fd_usize_over(fd, u).step(b),
            PropView::Disequal(pairs) => (unify_pairs(b, pairs, 0), test_step(pairs, parent, b).0),
        }
    }

    /// The constraint that takes the place of this one where it reports
    /// `Updated`.
    pub open spec fn successor(self, parent: Bindings, b: Bindings, changed: Set<UntypedVar>) -> PropView {
        match self {
            PropView::AllDiff(vars) => PropView::AllDiff(all_diff_step(vars, b, changed).2),
            PropView::Disequal(pairs) => PropView::Disequal(test_step(pairs, parent, b).1),
            _ => self,
        }
    }

    /// The constraint with each variable rewritten to its representative.
    pub open spec fn moved(self, b: Bindings) -> PropView {
        match self {
            PropView::Sum(l, r, t) => PropView::Sum(b.follow(l), b.follow(r), b.follow(t)),
            PropView::SumUsize(l, r, t) => PropView::SumUsize(
                b.follow(l),
                b.follow(r),
                b.follow(t),
            ),
            PropView::FdSum(l, r, t) => PropView::FdSum(b.follow(l), b.follow(r), b.follow(t)),
            PropView::FdLessOrEqual(l, r) => PropView::FdLessOrEqual(b.follow(l), b.follow(r)),
            PropView::AllDiff(vars) => PropView::AllDiff(
                Seq::new(vars.len(), |i: int| b.follow(vars[i])),
            ),
            PropView::FdUsize(fd, u) => PropView::FdUsize(b.follow(fd), b.follow(u)),
            PropView::Disequal(pairs) => PropView::Disequal(
                Seq::new(
                    pairs.len(),
                    |i: int| (b.follow(pairs[i].0), b.follow(pairs[i].1), pairs[i].2),
                ),
            ),
        }
    }

    /// Whether a variable of the constraint is marked as changed.
    pub open spec fn relevant_in(self, changed: Set<UntypedVar>) -> bool {
        match self {
            PropView::Sum(l, r, t) => changed.contains(l) || changed.contains(r)
                || changed.contains(t),
            PropView::SumUsize(l, r, t) => changed.contains(l) || changed.contains(r)
                || changed.contains(t),
            PropView::FdSum(l, r, t) => changed.contains(l) || changed.contains(r)
                || changed.contains(t),
            PropView::FdLessOrEqual(l, r) => changed.contains(l) || changed.contains(r),
            PropView::AllDiff(vars) => exists|i: int|
                0 <= i < vars.len() && changed.contains(#[trigger] vars[i]),
            PropView::FdUsize(fd, u) => changed.contains(fd) || changed.contains(u),
            PropView::Disequal(pairs) => exists|i: int|
                0 <= i < pairs.len() && (changed.contains((#[trigger] pairs[i]).0)
                    || changed.contains(pairs[i].1)),
        }
    }

    /// A run only narrows the store and keeps its invariant, where what the
    /// constraint writes is kept.
    pub proof fn lemma_step_narrows(self, parent: Bindings, b: Bindings, changed: Set<UntypedVar>)
        requires
            b.wf(),
            self.wf(b),
            self.keeps_writes(),
        ensures
            narrows(b, self.step(parent, b, changed).0),
            keeps(b, self.step(parent, b, changed).0),
    {
        match self {
            PropView::Sum(l, r, t) => {
                sum_over::<i64>(l, r, t).lemma_step_narrows(b);
            },
            PropView::SumUsize(l, r, t) => {
                sum_over::<usize>(l, r, t).lemma_step_narrows(b);
            },
            PropView::FdSum(l, r, t) => {
                fd_sum_over(l, r, t).lemma_step_narrows(b);
            },
            PropView::FdLessOrEqual(l, r) => {
                fd_le_over(l, r).lemma_step_narrows(b);
            },
            PropView::AllDiff(vars) => {
                lemma_all_diff_narrows(vars, b, changed);
            },
            PropView::FdUsize(fd, u) => {
                fd_usize_over(fd, u).lemma_step_narrows(b);
            },
            PropView::Disequal(_) => {},
        }
    }

    /// A constraint with its variables rewritten to their representatives
    /// speaks of variables of the store only.
    pub proof fn lemma_moved_wf(self, b: Bindings)
        requires
            b.wf(),
            self.wf(b),
        ensures
            self.moved(b).wf(b),
    {
        match self {
            PropView::Sum(l, r, t) => {
                b.lemma_follow_ends(l);
                b.lemma_follow_ends(r);
                b.lemma_follow_ends(t);
            },
            PropView::SumUsize(l, r, t) => {
                b.lemma_follow_ends(l);
                b.lemma_follow_ends(r);
                b.lemma_follow_ends(t);
            },
            PropView::FdSum(l, r, t) => {
                b.lemma_follow_ends(l);
                b.lemma_follow_ends(r);
                b.lemma_follow_ends(t);
            },
            PropView::FdLessOrEqual(l, r) => {
                b.lemma_follow_ends(l);
                b.lemma_follow_ends(r);
            },
            PropView::AllDiff(vars) => {
                let moved = Seq::new(vars.len(), |i: int| b.follow(vars[i]));
                assert forall|i: int| 0 <= i < moved.len() implies b.has(#[trigger] moved[i]) by {
                    assert(b.has(vars[i]));
                    b.lemma_follow_ends(vars[i]);
                }
            },
            PropView::FdUsize(fd, u) => {
                b.lemma_follow_ends(fd);
                b.lemma_follow_ends(u);
            },
            PropView::Disequal(pairs) => {
                let moved = Seq::new(
                    pairs.len(),
                    |i: int| (b.follow(pairs[i].0), b.follow(pairs[i].1), pairs[i].2),
                );
                assert forall|i: int| 0 <= i < moved.len() implies b.has((#[trigger] moved[i]).0)
                    && b.has(moved[i].1) by {
                    assert(b.has(pairs[i].0) && b.has(pairs[i].1));
                    b.lemma_follow_ends(pairs[i].0);
                    b.lemma_follow_ends(pairs[i].1);
                }
            },
        }
    }

    /// A constraint over variables of a store is one over variables of every
    /// store with as many variables.
    pub proof fn lemma_wf_same_len(self, b: Bindings, c: Bindings)
        requires
            self.wf(b),
            b.cells.len() <= c.cells.len(),
        ensures
            self.wf(c),
    {
        match self {
            PropView::AllDiff(vars) => {
                assert forall|i: int| 0 <= i < vars.len() implies c.has(#[trigger] vars[i]) by {
                    assert(b.has(vars[i]));
                }
            },
            PropView::Disequal(pairs) => {
                assert forall|i: int| 0 <= i < pairs.len() implies c.has((#[trigger] pairs[i]).0)
                    && c.has(pairs[i].1) by {
                    assert(b.has(pairs[i].0) && b.has(pairs[i].1));
                }
            },
            _ => {},
        }
    }

    /// What takes the place of a constraint that reports `Updated` speaks
    /// of variables of the store only.
    pub proof fn lemma_successor_wf(self, b: Bindings, changed: Set<UntypedVar>)
        requires
            b.wf(),
            b.cells.len() <= usize::MAX,
            self.wf(b),
            self.step(b, b, changed).1 is Updated,
        ensures
            self.successor(b, b, changed).wf(outcome(
                b,
                self.step(b, b, changed).0,
                self.step(b, b, changed).1,
                self.keeps_writes(),
            )),
    {
        match self {
            PropView::AllDiff(vars) => {
                lemma_all_diff_narrows(vars, b, changed);
            },
            PropView::Disequal(pairs) => {
                let after = unify_pairs(b, pairs, 0);
                lemma_unify_pairs_keeps(b, pairs, 0);
                let fresh = fresh_pairs(pairs, b, after, 0, true);
                if fresh.len() > 0 {
                    lemma_fresh_in(pairs, b, after, 0, true);
                    PropView::Disequal(fresh).lemma_wf_same_len(after, b);
                } else {
                    lemma_hopped_in(pairs, b);
                }
            },
            _ => {},
        }
    }
}

/// What a run of one constraint leaves of the store, and what takes the
/// place of the constraint among the live constraints, if anything does.
///
/// A constraint that reports `Failed` marks the store as failed, and
/// nothing it wrote is kept; a constraint that reports `Failed` or
/// `Irrelevant` leaves the live constraints. A constraint that stays, and one
/// that takes the place of another, has its variables rewritten to their
/// representatives.
pub open spec fn run(pv: PropView, b: Bindings, dirty: Set<UntypedVar>) -> (
    Bindings,
    Option<PropView>,
) {
    let (after, verdict) = pv.step(b, b, dirty);
    let left = outcome(b, after, verdict, pv.keeps_writes());
    (
        left,
        match verdict {
            Verdict::Failed => None,
            Verdict::Irrelevant => None,
            Verdict::Unchanged => Some(pv.moved(left)),
            Verdict::Updated => Some(pv.successor(b, b, dirty).moved(left)),
        },
    )
}

/// Whether the constraint at position `i` runs in a round: the store is
/// consistent, and the constraint has not run yet or watches a variable that
/// is marked as changed.
pub open spec fn runs(
    pv: PropView,
    b: Bindings,
    i: nat,
    settled: nat,
    dirty: Set<UntypedVar>,
) -> bool {
    b.ok && (i >= settled || pv.relevant_in(dirty))
}

/// What a round of propagation leaves of the store and of the live
/// constraints, from the constraint at position `i` on: each constraint that
/// runs is replaced by what its run leaves, in place.
pub open spec fn round(
    b: Bindings,
    pending: Seq<PropView>,
    i: nat,
    settled: nat,
    dirty: Set<UntypedVar>,
    kept: Seq<PropView>,
) -> (Bindings, Seq<PropView>)
    decreases pending.len() - i,
{
    if i >= pending.len() {
        (b, kept)
    } else if runs(pending[i as int], b, i, settled, dirty) {
        let (left, stays) = run(pending[i as int], b, dirty);
        round(
            left,
            pending,
            i + 1,
            settled,
            dirty,
            match stays {
                Some(q) => kept.push(q),
                None => kept,
            },
        )
    } else {
        round(b, pending, i + 1, settled, dirty, kept.push(pending[i as int]))
    }
}

/// The variables whose cells differ between two stores.
pub open spec fn marks(before: Bindings, after: Bindings) -> Set<UntypedVar> {
    Set::new(|k: UntypedVar| after.has(k) && after.cell(k) != before.cell(k))
}

/// Whether no variable is marked.
pub open spec fn unmarked(changed: Set<UntypedVar>) -> bool {
    forall|k: UntypedVar| !changed.contains(k)
}

/// Whether every listed constraint speaks of variables of `b` only.
pub open spec fn all_wf(live: Seq<PropView>, b: Bindings) -> bool {
    forall|i: int| 0 <= i < live.len() ==> (#[trigger] live[i]).wf(b)
}

/// A run only narrows the store and keeps its invariant, and what it
/// leaves of the constraint speaks of variables of the store only.
pub proof fn lemma_run(pv: PropView, b: Bindings, dirty: Set<UntypedVar>)
    requires
        b.wf(),
        b.cells.len() <= usize::MAX,
        pv.wf(b),
    ensures
        keeps(b, run(pv, b, dirty).0),
        narrows(b, run(pv, b, dirty).0),
        run(pv, b, dirty).1 matches Some(q) ==> q.wf(run(pv, b, dirty).0),
{
    let (after, verdict) = pv.step(b, b, dirty);
    let left = outcome(b, after, verdict, pv.keeps_writes());
    b.lemma_fail_wf();
    if pv.keeps_writes() {
        pv.lemma_step_narrows(b, b, dirty);
    }
    match verdict {
        Verdict::Unchanged => {
            pv.lemma_wf_same_len(b, left);
            pv.lemma_moved_wf(left);
        },
        Verdict::Updated => {
            pv.lemma_successor_wf(b, dirty);
            pv.successor(b, b, dirty).lemma_moved_wf(left);
        },
        _ => {},
    }
}

/// A round only narrows the store and keeps its invariant, and the
/// constraints that it leaves speak of variables of the store only.
pub proof fn lemma_round(
    b: Bindings,
    pending: Seq<PropView>,
    i: nat,
    settled: nat,
    dirty: Set<UntypedVar>,
    kept: Seq<PropView>,
)
    requires
        b.wf(),
        b.cells.len() <= usize::MAX,
        all_wf(pending, b),
        all_wf(kept, b),
    ensures
        keeps(b, round(b, pending, i, settled, dirty, kept).0),
        narrows(b, round(b, pending, i, settled, dirty, kept).0),
        all_wf(
            round(b, pending, i, settled, dirty, kept).1,
            round(b, pending, i, settled, dirty, kept).0,
        ),
    decreases pending.len() - i,
{
    if i < pending.len() {
        let pv = pending[i as int];
        let (left, next) = if runs(pv, b, i, settled, dirty) {
            let (left, stays) = run(pv, b, dirty);
            lemma_run(pv, b, dirty);
            (
                left,
                match stays {
                    Some(q) => kept.push(q),
                    None => kept,
                },
            )
        } else {
            (b, kept.push(pv))
        };
        assert forall|k: int| 0 <= k < pending.len() implies (#[trigger] pending[k]).wf(left) by {
            pending[k].lemma_wf_same_len(b, left);
        }
        assert forall|k: int| 0 <= k < next.len() implies (#[trigger] next[k]).wf(left) by {
            if k < kept.len() {
                assert(next[k] == kept[k]);
                kept[k].lemma_wf_same_len(b, left);
            }
        }
        lemma_round(left, pending, i + 1, settled, dirty, next);
        lemma_narrows_trans(b, left, round(left, pending, i + 1, settled, dirty, next).0);
    }
}

/// Where propagation stands: the store, the live constraints, how many of
/// them have run, and the variables that are marked as changed.
#[verifier::ext_equal]
pub struct Stand {
    pub store: Bindings,
    pub live: Seq<PropView>,
    pub settled: nat,
    pub changed: Set<UntypedVar>,
}

impl Stand {
    /// Whether no round of propagation has anything left to do.
    pub open spec fn quiet(self) -> bool {
        self.settled == self.live.len() && unmarked(self.changed)
    }

    /// 1 while a round of propagation has something left to do, 0 after.
    pub open spec fn pending(self) -> nat {
        if self.quiet() {
            0
        } else {
            1
        }
    }

    /// The invariant: the store meets its invariant, and the live
    /// constraints speak of its variables only.
    pub open spec fn wf(self) -> bool {
        self.store.wf() && self.store.cells.len() <= usize::MAX && all_wf(self.live, self.store)
    }

    /// Where propagation stands after one more round.
    pub open spec fn after_round(self) -> Stand {
        let (left, live) = round(self.store, self.live, 0, self.settled, self.changed, Seq::empty());
        Stand { store: left, live, settled: live.len(), changed: marks(self.store, left) }
    }

    /// Where propagation stands when it ends: rounds follow one another
    /// until the store has failed or a round has nothing left to do.
    pub open spec fn fixpoint(self) -> Stand
        decreases free_count(self.store.cells), weight(self.store.cells), self.pending(),
        when self.wf()
    {
        if !self.store.ok || self.quiet() {
            self
        } else {
            proof {
                self.lemma_after_round();
            }
            self.after_round().fixpoint()
        }
    }

    /// A round keeps the invariant and narrows the store; it leaves the
    /// store below where it was in the measure, or leaves nothing to do.
    pub proof fn lemma_after_round(self)
        requires
            self.wf(),
        ensures
            self.after_round().wf(),
            narrows(self.store, self.after_round().store),
            keeps(self.store, self.after_round().store),
            below(self.after_round().store, self.store) || (self.after_round().store.cells
                == self.store.cells && self.after_round().quiet()),
    {
        lemma_round(self.store, self.live, 0, self.settled, self.changed, Seq::empty());
        lemma_narrows_measure(self.store, self.after_round().store);
    }
}

impl Propagator {
    /// What is said of a constraint is what is said of its kind and its
    /// variables.
    pub proof fn lemma_view(&self, parent: Bindings, b: Bindings, changed: Set<UntypedVar>)
        ensures
            self@.wf(b) == self.wf(b),
            self@.keeps_writes() == self.keeps_writes(),
            self@.step(parent, b, changed) == self.step(parent, b, changed),
            self@.relevant_in(changed) == self.relevant_in(changed),
    {
        match self {
            Propagator::AllDiff(c) => {
                c.lemma_by_vars(b, changed);
                let vars = c.vars();
                if self.relevant_in(changed) {
                    let i = choose|i: int|
                        0 <= i < c.fds.len() && changed.contains(#[trigger] c.fds@[i].var);
                    assert(changed.contains(vars[i]));
                }
                if self@.relevant_in(changed) {
                    let i = choose|i: int| 0 <= i < vars.len() && changed.contains(#[trigger] vars[i]);
                    assert(changed.contains(c.fds@[i].var));
                }
            },
            _ => {},
        }
    }

    /// The same constraint has the same kind and variables.
    pub proof fn lemma_view_same(&self, other: Propagator)
        requires
            self.same_as(other),
        ensures
            other@ == self@,
    {
        match (*self, other) {
            (Propagator::AllDiff(a), Propagator::AllDiff(o)) => {
                assert(o.vars() =~= a.vars());
            },
            _ => {},
        }
    }

    /// The constraint with its variables rewritten is the rewritten view.
    pub proof fn lemma_view_moved(&self, b: Bindings, moved: Propagator)
        requires
            self.moved_to(b, moved),
        ensures
            moved@ == self@.moved(b),
    {
        match (*self, moved) {
            (Propagator::AllDiff(c), Propagator::AllDiff(m)) => {
                let vars = c.vars();
                assert(m.vars() =~= Seq::new(vars.len(), |i: int| b.follow(vars[i])));
            },
            (Propagator::Disequal(c), Propagator::Disequal(m)) => {
                let pairs = c.pairs@;
                assert(m.pairs@ =~= Seq::new(
                    pairs.len(),
                    |i: int| (b.follow(pairs[i].0), b.follow(pairs[i].1), pairs[i].2),
                ));
            },
            _ => {},
        }
    }

    /// What takes the place of the constraint is the successor of its view.
    pub proof fn lemma_view_successor(
        &self,
        next: Propagator,
        parent: Bindings,
        b: Bindings,
        changed: Set<UntypedVar>,
    )
        requires
            self.succeeded_by(next, parent, b, changed),
        ensures
            next@ == self@.successor(parent, b, changed),
    {
        match self {
            Propagator::AllDiff(c) => {
                c.lemma_by_vars(b, changed);
            },
            _ => {},
        }
    }
}

} // verus!
