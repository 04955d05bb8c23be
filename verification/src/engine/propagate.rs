//! The propagation loop: running the live constraints until nothing changes
//! any more.

use crate::engine::constraint::ConstraintResult;
use crate::engine::narrowing::{
    below, cell_narrows, free_count, lemma_below_trans, lemma_cell_back, lemma_narrows_measure,
    lemma_narrows_trans, narrows, weight,
};
use crate::engine::propagator::Propagator;
use crate::engine::schedule::{marks, round, run, runs, PropView};
use crate::engine::proxy::StateProxy;
use crate::engine::state::State;
use crate::engine::varmap::VarMap;
use crate::engine::vars::UntypedVar;
use vstd::prelude::*;

verus! {

impl Propagator {
    /// Whether what the constraint writes to its scratch state is meant to
    /// be kept.
    pub fn keeps(&self) -> (r: bool)
        ensures
            r == self.keeps_writes(),
    {
        match self {
            Propagator::Disequal(_) => false,
            _ => true,
        }
    }
}

impl State {
    /// Runs one constraint on a scratch state over this state, takes over
    /// what it wrote, and returns what takes its place among the live
    /// constraints. A constraint that reports `Irrelevant` or `Failed`
    /// leaves the live constraints; one that reports `Failed` marks the
    /// state as failed, and nothing it wrote is kept. A constraint that stays
    /// has its variables rewritten to their representatives. `dirty` holds
    /// the variables that changed before the round.
    pub fn run_one(&mut self, p: &Propagator, dirty: &VarMap) -> (r: Option<Propagator>)
        requires
            old(self).wf(),
            dirty.wf(),
            p.wf(old(self)@),
        ensures
            final(self).wf(),
            final(self)@ == run(p@, old(self)@, dirty.dom()).0,
            match r {
                Some(q) => run(p@, old(self)@, dirty.dom()).1 == Some(q@),
                None => run(p@, old(self)@, dirty.dom()).1.is_none(),
            },
            r.is_none() <==> (p@.step(old(self)@, old(self)@, dirty.dom()).1 is Failed || p@.step(
                old(self)@,
                old(self)@,
                dirty.dom(),
            ).1 is Irrelevant),
            r matches Some(q) ==> q.wf(final(self)@) && q.calm(
                final(self)@,
                final(self).changed.dom(),
            ),
            final(self).constraints == old(self).constraints,
            final(self).settled == old(self).settled,
            final(self).marks_since(old(self)),
            narrows(old(self)@, final(self)@),
            final(self)@.tags == old(self)@.tags,
            final(self)@.ok ==> old(self)@.ok,
    {
        let ghost before = self@;
        let keep = p.keeps();
        proof {
            if p.keeps_writes() {
                p.lemma_step_narrows(before, before, dirty.dom());
            }
            p.lemma_view(before, before, dirty.dom());
        }
        let mut proxy = StateProxy::new(&self.eqs, dirty);
        let verdict = p.update(&mut proxy);
        let ghost after = proxy@;
        match verdict {
            ConstraintResult::Failed => {
                self.fail();
                None
            },
            ConstraintResult::Irrelevant => {
                if keep {
                    let changes = proxy.into_changes();
                    self.commit(changes);
                }
                None
            },
            ConstraintResult::Unchanged => {
                if keep {
                    let changes = proxy.into_changes();
                    self.commit(changes);
                }
                let q = p.clone();
                proof {
                    p.lemma_same_wf(q, before);
                    q.lemma_wf_grows(before, self@);
                }
                let moved = q.update_vars(&self.eqs);
                proof {
                    p.lemma_view_same(q);
                    q.lemma_view_moved(self@, moved);
                    if p.plain() {
                        p.lemma_rest_after_run(before, before, dirty.dom());
                        p.lemma_wf_grows(before, self@);
                        p.lemma_same_rest(q, self@);
                        q.lemma_moved_rest(self@, moved);
                    } else {
                        q.lemma_moved_rest(self@, moved);
                    }
                }
                Some(moved)
            },
            ConstraintResult::Updated(next) => {
                if keep {
                    let changes = proxy.into_changes();
                    self.commit(changes);
                }
                proof {
                    next.lemma_wf_grows(after, self@);
                }
                let moved = next.update_vars(&self.eqs);
                proof {
                    p.lemma_view_successor(next, before, before, dirty.dom());
                    next.lemma_view_moved(self@, moved);
                    p.lemma_successor_calm(
                        next,
                        before,
                        before,
                        dirty.dom(),
                        self@,
                        moved,
                        self.changed.dom(),
                    );
                }
                Some(moved)
            },
        }
    }

    /// Marks the state as failed.
    pub fn fail(&mut self)
        requires
            old(self).wf(),
        ensures
            final(self).wf(),
            final(self)@ == old(self)@.fail(),
            final(self).same_constraints(old(self)),
            final(self).constraints == old(self).constraints,
            final(self).changed == old(self).changed,
    {
        proof {
            self.lemma_constraints_stay(self@.fail());
        }
        self.eqs.fail();
    }

    /// One round of propagation: every live constraint that has not run
    /// yet, or that watches a variable that changed, runs once, in the order
    /// in which the constraints were added. The round stops running
    /// constraints once the state has failed. The variables that are marked
    /// as changed afterwards are those whose cells the round changed.
    pub fn round(&mut self)
        requires
            old(self).wf(),
        ensures
            final(self).wf(),
            final(self).stand() == old(self).stand().after_round(),
            final(self).constraints.len() <= old(self).constraints.len(),
            narrows(old(self)@, final(self)@),
            final(self)@.tags == old(self)@.tags,
    {
        let mut dirty = VarMap::new();
        std::mem::swap(&mut dirty, &mut self.changed);
        let mut pending: Vec<Propagator> = Vec::new();
        std::mem::swap(&mut pending, &mut self.constraints);
        let settled = self.settled;
        self.settled = 0;
        let ghost start = self@;
        let ghost pend = old(self).live();
        let ghost target = round(
            start,
            pend,
            0,
            settled as nat,
            dirty.dom(),
            Seq::<PropView>::empty(),
        );
        proof {
            assert(self.live() =~= Seq::<PropView>::empty());
            assert(pending@ == old(self).constraints@);
        }
        let mut i: usize = 0;
        while i < pending.len()
            invariant
                i <= pending.len(),
                pend.len() == pending.len(),
                forall|k: int| 0 <= k < pending.len() ==> #[trigger] pend[k] == pending@[k]@,
                round(self@, pend, i as nat, settled as nat, dirty.dom(), self.live()) == target,
                self.wf(),
                dirty.wf(),
                self.settled == 0,
                self.constraints.len() <= i,
                self@.cells.len() == start.cells.len(),
                self@.tags == start.tags,
                start == old(self)@,
                narrows(start, self@),
                self@.cells == start.cells || below(self@, start),
                forall|k: UntypedVar|
                    self.changed.has(k) <==> self@.has(k) && self@.cell(k) != start.cell(k),
                forall|k: int| 0 <= k < pending.len() ==> (#[trigger] pending@[k]).wf(self@),
                start.wf(),
                forall|k: int| 0 <= k < pending.len() ==> (#[trigger] pending@[k]).wf(start),
                settled <= pending.len(),
                self@.ok ==> start.ok,
                start.ok ==> forall|k: int|
                    0 <= k < settled ==> (#[trigger] pending@[k]).calm(start, dirty.dom()),
                self@.ok ==> forall|k: int|
                    0 <= k < self.constraints.len() ==> (#[trigger] self.constraints@[k]).calm(
                        self@,
                        self.changed.dom(),
                    ),
            decreases pending.len() - i,
        {
            let ghost before = *self;
            let p = &pending[i];
            let run = self.ok() && (i >= settled || p.need_update(&dirty));
            proof {
                p.lemma_view(before@, before@, dirty.dom());
                assert(pend[i as int] == p@);
                assert(run == runs(p@, before@, i as nat, settled as nat, dirty.dom()));
            }
            let kept = if run {
                self.run_one(p, &dirty)
            } else {
                let q = p.clone();
                proof {
                    p.lemma_view_same(q);
                }
                Some(q)
            };
            let ghost live_before = self.live();
            proof {
                assert(live_before == before.live());
            }
            proof {
                assert forall|k: int| 0 <= k < pending.len() implies (#[trigger] pending@[k]).wf(
                    self@,
                ) by {
                    pending@[k].lemma_wf_grows(before@, self@);
                }
                lemma_narrows_trans(start, before@, self@);
                lemma_narrows_measure(before@, self@);
                lemma_below_trans(start, before@, self@);
                assert forall|k: UntypedVar|
                    self.changed.has(k) <==> self@.has(k) && self@.cell(k) != start.cell(k) by {
                    if self@.has(k) {
                        assert(cell_narrows(start.cells[k.id as int], before@.cells[k.id as int]));
                        assert(cell_narrows(before@.cells[k.id as int], self@.cells[k.id as int]));
                        lemma_cell_back(
                            start.cells[k.id as int],
                            before@.cells[k.id as int],
                            self@.cells[k.id as int],
                        );
                    }
                }
            }
            proof {
                if self@.ok {
                    assert(before@.ok);
                    assert(start.ok);
                    assert forall|k: int| 0 <= k < self.constraints.len() implies (
                    #[trigger] self.constraints@[k]).calm(self@, self.changed.dom()) by {
                        let q = self.constraints@[k];
                        assert(q == before.constraints@[k]);
                        assert(q.wf(before@));
                        q.lemma_wf_grows(before@, self@);
                        assert forall|v: UntypedVar| before.changed.has(v) implies self.changed.has(
                            v,
                        ) by {
                            assert(cell_narrows(start.cells[v.id as int], before@.cells[v.id as int]));
                            assert(cell_narrows(before@.cells[v.id as int], self@.cells[v.id as int]));
                            lemma_cell_back(
                                start.cells[v.id as int],
                                before@.cells[v.id as int],
                                self@.cells[v.id as int],
                            );
                        }
                        assert forall|v: UntypedVar|
                            before@.has(v) && self@.cell(v) != before@.cell(v) implies self.changed.has(
                            v,
                        ) by {
                            assert(cell_narrows(start.cells[v.id as int], before@.cells[v.id as int]));
                            assert(cell_narrows(before@.cells[v.id as int], self@.cells[v.id as int]));
                            lemma_cell_back(
                                start.cells[v.id as int],
                                before@.cells[v.id as int],
                                self@.cells[v.id as int],
                            );
                        }
                        q.lemma_calm_kept(
                            before@,
                            before.changed.dom(),
                            self@,
                            self.changed.dom(),
                        );
                    }
                    if !run {
                        let q = kept->Some_0;
                        let orig = pending@[i as int];
                        assert(orig.calm(start, dirty.dom()));
                        assert(!orig.relevant_in(dirty.dom()));
                        orig.lemma_wf_grows(start, self@);
                        assert forall|v: UntypedVar|
                            start.has(v) && self@.cell(v) != start.cell(v) implies self.changed.has(
                            v,
                        ) by {}
                        orig.lemma_rest_kept(start, self@, self.changed.dom());
                        orig.lemma_same_calm(q, self@, self.changed.dom());
                    }
                }
            }
            match kept {
                Some(q) => {
                    self.keep(q);
                    proof {
                        assert(self.live() =~= live_before.push(q@));
                    }
                },
                None => {
                    proof {
                        assert(self.live() =~= live_before);
                    }
                },
            }
            i = i + 1;
        }
        self.settled = self.constraints.len();
        proof {
            assert(self.changed.dom() =~= marks(start, self@));
            assert(target == (self@, self.live()));
            assert(old(self).stand().after_round() =~= self.stand());
        }
    }

    /// Adds a constraint to the live constraints.
    fn keep(&mut self, q: Propagator)
        requires
            old(self).wf(),
            q.wf(old(self)@),
        ensures
            final(self).wf(),
            final(self)@ == old(self)@,
            final(self).settled == old(self).settled,
            final(self).changed == old(self).changed,
            final(self).constraints@ == old(self).constraints@.push(q),
    {
        self.constraints.push(q);
    }

    /// Whether no round of propagation has anything left to do: every live
    /// constraint has run, and no variable is marked as changed.
    pub open spec fn quiet(&self) -> bool {
        self.settled == self.constraints.len() && self.changed.keys@.len() == 0
    }

    /// 1 while a round of propagation has something left to do, 0 after.
    pub open spec fn pending(&self) -> nat {
        if self.quiet() {
            0
        } else {
            1
        }
    }

    /// Runs rounds of propagation until the state has failed or no round has
    /// anything left to do. Every round with something left to do that
    /// changes a cell narrows the store, which ends the rounds.
    pub fn propagate_to_fixpoint(&mut self)
        requires
            old(self).wf(),
        ensures
            final(self).wf(),
            final(self).stand() == old(self).stand().fixpoint(),
            !final(self)@.ok || final(self).quiet(),
            narrows(old(self)@, final(self)@),
            final(self)@.cells.len() == old(self)@.cells.len(),
            final(self)@.tags == old(self)@.tags,
            final(self).constraints.len() <= old(self).constraints.len(),
    {
        while self.ok() && (self.settled < self.constraints.len() || !self.changed.is_empty())
            invariant
                self.wf(),
                narrows(old(self)@, self@),
                self@.cells.len() == old(self)@.cells.len(),
                self@.tags == old(self)@.tags,
                self.constraints.len() <= old(self).constraints.len(),
                self.stand().fixpoint() == old(self).stand().fixpoint(),
            decreases free_count(self@.cells), weight(self@.cells), self.pending(),
        {
            let ghost before = *self;
            proof {
                before.lemma_stand_wf();
                before.stand().lemma_after_round();
            }
            self.round();
            proof {
                self.lemma_stand_wf();
                lemma_narrows_trans(old(self)@, before@, self@);
                assert(before.stand().fixpoint() == before.stand().after_round().fixpoint());
            }
        }
        proof {
            self.lemma_stand_wf();
        }
    }

    /// After propagation has ended in a consistent state, every live
    /// constraint whose report depends on its own variables only reports
    /// `Unchanged` when it runs again while no variable is marked as
    /// changed.
    pub proof fn lemma_quiet_is_fixpoint(&self, i: int)
        requires
            self.wf(),
            self@.ok,
            self.quiet(),
            0 <= i < self.constraints.len(),
            self.constraints@[i].plain(),
        ensures
            self.constraints@[i].step(self@, self@, Set::empty()).1 is Unchanged,
    {
        let p = self.constraints@[i];
        assert(p.calm(self@, self.changed.dom()));
        assert(forall|k: UntypedVar| !self.changed.has(k));
        assert(!p.relevant_in(self.changed.dom()));
        assert(!p.relevant_in(Set::empty()));
        p.lemma_at_rest(self@, self@, Set::empty());
    }
}

} // verus!
