//! The constraint that two terms never become equal.
//!
//! The constraint holds a list of pairs of variables and is satisfied as
//! long as the variables of at least one pair cannot be unified. It is
//! tested by unifying every pair in a scratch state, which is dropped
//! afterwards.

use crate::engine::bindings::Bindings;
use crate::engine::constraint::{ConstraintResult, Verdict};
use crate::engine::propagator::Propagator;
use crate::engine::proxy::StateProxy;
use crate::engine::state::State;
use crate::engine::toconstraint::{Constraint, ToConstraint};
use crate::engine::tovar::{lemma_grows_trans, ToVar};
use crate::engine::vars::Var;
use crate::engine::wrapper::VarWrapper;
use std::marker::PhantomData;
use crate::engine::store::Store;
use crate::engine::varmap::VarMap;
use crate::engine::vars::{TypeTag, UntypedVar, VarRef, VarRefView};
use vstd::prelude::*;

verus! {

/// Two variables and the type of both.
pub type Pair = (UntypedVar, UntypedVar, TypeTag);

/// Enforces that the variables of at least one pair stay different.
#[derive(Debug, PartialEq, Eq)]
pub struct Disequal {
    pub pairs: Vec<Pair>,
}

/// The store after the pairs were unified in order, from position `i` on,
/// up to the first pair that fails the store.
pub open spec fn unify_pairs(b: Bindings, pairs: Seq<Pair>, i: nat) -> Bindings
    decreases pairs.len() - i,
{
    if i >= pairs.len() || !b.ok {
        b
    } else {
        unify_pairs(b.typed_unify(pairs[i as int].0, pairs[i as int].1, pairs[i as int].2), pairs, i + 1)
    }
}

/// Whether `k` is a variable of one of the pairs.
pub open spec fn touches(pairs: Seq<Pair>, k: UntypedVar) -> bool {
    exists|i: int| 0 <= i < pairs.len() && ((#[trigger] pairs[i]).0 == k || pairs[i].1 == k)
}

/// Whether some cell of `after` differs from the same cell of `before`.
pub open spec fn differ(before: Bindings, after: Bindings) -> bool {
    exists|i: int| 0 <= i < after.cells.len() && #[trigger] after.cells[i] != before.cells[i]
}

/// The cell that cell `i` of `after` was merged into, if that merge is not
/// in `before`.
pub open spec fn new_merge(before: Bindings, after: Bindings, i: int) -> Option<UntypedVar> {
    match after.cells[i] {
        Some(VarRefView::EqualTo(e)) if after.cells[i] != before.cells[i] => Some(e),
        _ => None,
    }
}

/// The pairs that take the place of `pairs` after a test: one for each cell
/// from `i` on that `after` merges into another and `before` does not, in
/// the order of the cells. While `quiet`, merges of variables of `pairs` are
/// passed over; the first other merge ends that.
pub open spec fn fresh_pairs(
    pairs: Seq<Pair>,
    before: Bindings,
    after: Bindings,
    i: nat,
    quiet: bool,
) -> Seq<Pair>
    decreases after.cells.len() - i,
{
    if i >= after.cells.len() {
        Seq::empty()
    } else {
        let k = UntypedVar { id: i as usize };
        match new_merge(before, after, i as int) {
            Some(e) => if quiet && touches(pairs, k) {
                fresh_pairs(pairs, before, after, i + 1, true)
            } else {
                seq![(k, e, after.tag(after.follow(e)))] + fresh_pairs(
                    pairs,
                    before,
                    after,
                    i + 1,
                    false,
                )
            },
            None => fresh_pairs(pairs, before, after, i + 1, quiet),
        }
    }
}

/// Cells that are the same in both stores contribute no pair.
pub proof fn lemma_fresh_skip(
    pairs: Seq<Pair>,
    before: Bindings,
    after: Bindings,
    i: nat,
    j: nat,
    quiet: bool,
)
    requires
        i <= j <= after.cells.len(),
        forall|t: int| i <= t < j ==> after.cells[t] == before.cells[t],
    ensures
        fresh_pairs(pairs, before, after, i, quiet) == fresh_pairs(pairs, before, after, j, quiet),
    decreases j - i,
{
    if i < j {
        assert(after.cells[i as int] == before.cells[i as int]);
        lemma_fresh_skip(pairs, before, after, i + 1, j, quiet);
    }
}

/// The cell that the cell of `a` was merged into, or `a` itself if its cell
/// was not merged.
pub open spec fn hop(b: Bindings, a: UntypedVar) -> UntypedVar {
    match b.cell(a) {
        Some(VarRefView::EqualTo(x)) => x,
        _ => a,
    }
}

/// Whether the cell of a variable of one of the pairs was merged.
pub open spec fn stale(pairs: Seq<Pair>, b: Bindings) -> bool {
    exists|i: int|
        0 <= i < pairs.len() && (hop(b, (#[trigger] pairs[i]).0) != pairs[i].0 || hop(b, pairs[i].1)
            != pairs[i].1)
}

/// The pairs with each variable moved one merge on.
pub open spec fn hopped(pairs: Seq<Pair>, b: Bindings) -> Seq<Pair> {
    Seq::new(pairs.len(), |i: int| (hop(b, pairs[i].0), hop(b, pairs[i].1), pairs[i].2))
}

/// Whether every pair speaks of variables of `b` only.
pub open spec fn pairs_in(pairs: Seq<Pair>, b: Bindings) -> bool {
    forall|i: int| 0 <= i < pairs.len() ==> b.has((#[trigger] pairs[i]).0) && b.has(pairs[i].1)
}

/// What a test reports, and the pairs of the constraint that takes the
/// place of the tested one where it reports `Updated`.
///
/// The pairs are unified in `start`, a scratch state over `parent`. Where
/// that fails, some pair cannot be made equal: the constraint is satisfied
/// for good and retires. Where it succeeds without changing a cell both
/// sides are equal already, and the constraint fails. Otherwise the
/// constraint is replaced by the merges that the unification had to make,
/// unless all of them are merges of its own variables: then it stays, with
/// its variables moved one merge on where the parent has merged them.
pub open spec fn test_step(pairs: Seq<Pair>, parent: Bindings, start: Bindings) -> (
    Verdict,
    Seq<Pair>,
) {
    let after = unify_pairs(start, pairs, 0);
    if !after.ok {
        (Verdict::Irrelevant, pairs)
    } else if !differ(parent, after) {
        (Verdict::Failed, pairs)
    } else {
        let fresh = fresh_pairs(pairs, parent, after, 0, true);
        if fresh.len() > 0 {
            (Verdict::Updated, fresh)
        } else if stale(pairs, parent) {
            (Verdict::Updated, hopped(pairs, parent))
        } else {
            (Verdict::Unchanged, pairs)
        }
    }
}

/// Unifying the pairs keeps the invariant of the store, its variables and
/// their types.
pub proof fn lemma_unify_pairs_keeps(b: Bindings, pairs: Seq<Pair>, i: nat)
    requires
        b.wf(),
    ensures
        unify_pairs(b, pairs, i).unified_from(b),
    decreases pairs.len() - i,
{
    if i < pairs.len() && b.ok {
        let next = b.typed_unify(pairs[i as int].0, pairs[i as int].1, pairs[i as int].2);
        b.lemma_fail_wf();
        b.lemma_unify_keeps(pairs[i as int].0, pairs[i as int].1, Seq::empty(), b.cells.len());
        lemma_unify_pairs_keeps(next, pairs, i + 1);
    }
}

/// The pairs for new merges speak of variables of the store only.
pub proof fn lemma_fresh_in(
    pairs: Seq<Pair>,
    before: Bindings,
    after: Bindings,
    i: nat,
    quiet: bool,
)
    requires
        after.wf(),
        after.cells.len() <= usize::MAX,
    ensures
        pairs_in(fresh_pairs(pairs, before, after, i, quiet), after),
    decreases after.cells.len() - i,
{
    if i < after.cells.len() {
        let k = UntypedVar { id: i as usize };
        match new_merge(before, after, i as int) {
            Some(e) => {
                assert(after.cell_ok(i as int));
                if quiet && touches(pairs, k) {
                    lemma_fresh_in(pairs, before, after, i + 1, true);
                } else {
                    lemma_fresh_in(pairs, before, after, i + 1, false);
                    let rest = fresh_pairs(pairs, before, after, i + 1, false);
                    let out = fresh_pairs(pairs, before, after, i, quiet);
                    assert forall|t: int| 0 <= t < out.len() implies after.has(
                        (#[trigger] out[t]).0,
                    ) && after.has(out[t].1) by {
                        if t > 0 {
                            assert(out[t] == rest[t - 1]);
                        }
                    }
                }
            },
            None => {
                lemma_fresh_in(pairs, before, after, i + 1, quiet);
            },
        }
    }
}

/// The pairs moved one merge on speak of variables of the store only.
pub proof fn lemma_hopped_in(pairs: Seq<Pair>, b: Bindings)
    requires
        b.wf(),
        pairs_in(pairs, b),
    ensures
        pairs_in(hopped(pairs, b), b),
{
    assert forall|i: int| 0 <= i < pairs.len() implies b.has((#[trigger] hopped(pairs, b)[i]).0)
        && b.has(hopped(pairs, b)[i].1) by {
        assert(b.has(pairs[i].0) && b.has(pairs[i].1));
        assert(b.cell_ok(pairs[i].0.id as int));
        assert(b.cell_ok(pairs[i].1.id as int));
    }
}

impl Disequal {
    /// Whether the constraint speaks of variables of `b` only.
    pub open spec fn wf(&self, b: Bindings) -> bool {
        pairs_in(self.pairs@, b)
    }

    /// The constraint without pairs.
    pub fn new_empty() -> (r: Disequal)
        ensures
            r.pairs@.len() == 0,
    {
        Disequal { pairs: Vec::new() }
    }

    /// Whether `var` is a variable of one of the pairs.
    pub fn relevant_to(&self, var: UntypedVar) -> (r: bool)
        ensures
            r == touches(self.pairs@, var),
    {
        let mut i: usize = 0;
        while i < self.pairs.len()
            invariant
                i <= self.pairs.len(),
                forall|k: int|
                    0 <= k < i ==> !((#[trigger] self.pairs@[k]).0 == var || self.pairs@[k].1 == var),
            decreases self.pairs.len() - i,
        {
            if self.pairs[i].0 == var || self.pairs[i].1 == var {
                return true;
            }
            i = i + 1;
        }
        false
    }

    /// Whether a variable of one of the pairs has an entry in `changes`.
    pub fn relevant(&self, changes: &VarMap) -> (r: bool)
        requires
            changes.wf(),
        ensures
            r == exists|i: int|
                0 <= i < self.pairs.len() && (changes.has((#[trigger] self.pairs@[i]).0)
                    || changes.has(self.pairs@[i].1)),
    {
        let mut i: usize = 0;
        while i < self.pairs.len()
            invariant
                i <= self.pairs.len(),
                changes.wf(),
                forall|k: int|
                    0 <= k < i ==> !(changes.has((#[trigger] self.pairs@[k]).0) || changes.has(
                        self.pairs@[k].1,
                    )),
            decreases self.pairs.len() - i,
        {
            if changes.contains_key(&self.pairs[i].0) || changes.contains_key(&self.pairs[i].1) {
                return true;
            }
            i = i + 1;
        }
        false
    }

    /// The variable one merge on from `a`.
    fn hop_of(store: &Store, a: UntypedVar) -> (r: UntypedVar)
        requires
            store@.has(a),
        ensures
            r == hop(store@, a),
    {
        match store.get_ref(a) {
            Some(VarRef::EqualTo(x)) => *x,
            _ => a,
        }
    }

    /// Moves the variables of the pairs one merge on where the store has
    /// merged their cells, and reports `Unchanged` where it has merged none.
    pub fn disequal_update_vars(&self, store: &Store) -> (verdict: ConstraintResult<Disequal>)
        requires
            store.wf(),
            self.wf(store@),
        ensures
            match verdict {
                ConstraintResult::Updated(next) => stale(self.pairs@, store@) && next.pairs@
                    == hopped(self.pairs@, store@) && next.wf(store@),
                ConstraintResult::Unchanged => !stale(self.pairs@, store@),
                _ => false,
            },
    {
        let mut needs_update = false;
        let mut pairs: Vec<Pair> = Vec::new();
        let mut i: usize = 0;
        while i < self.pairs.len()
            invariant
                i <= self.pairs.len(),
                pairs.len() == i,
                store.wf(),
                self.wf(store@),
                forall|k: int| 0 <= k < i ==> pairs@[k] == hopped(self.pairs@, store@)[k],
                forall|k: int|
                    0 <= k < i ==> store@.has((#[trigger] pairs@[k]).0) && store@.has(pairs@[k].1),
                needs_update == exists|k: int|
                    0 <= k < i && (hop(store@, (#[trigger] self.pairs@[k]).0) != self.pairs@[k].0
                        || hop(store@, self.pairs@[k].1) != self.pairs@[k].1),
            decreases self.pairs.len() - i,
        {
            let ghost done = pairs@;
            let old_a = self.pairs[i].0;
            let old_b = self.pairs[i].1;
            assert(store@.has(self.pairs@[i as int].0) && store@.has(self.pairs@[i as int].1));
            let a = Self::hop_of(store, old_a);
            let b = Self::hop_of(store, old_b);
            proof {
                assert(store@.cell_ok(old_a.id as int));
                assert(store@.cell_ok(old_b.id as int));
            }
            if a != old_a || b != old_b {
                needs_update = true;
            }
            pairs.push((a, b, self.pairs[i].2.clone()));
            proof {
                assert forall|k: int| 0 <= k < i + 1 implies pairs@[k] == hopped(
                    self.pairs@,
                    store@,
                )[k] by {
                    if k < i {
                        assert(pairs@[k] == done[k]);
                    }
                }
                assert forall|k: int| 0 <= k < i + 1 implies store@.has((#[trigger] pairs@[k]).0)
                    && store@.has(pairs@[k].1) by {
                    if k < i {
                        assert(pairs@[k] == done[k]);
                    }
                }
            }
            i = i + 1;
        }
        if needs_update {
            assert(pairs@ =~= hopped(self.pairs@, store@));
            ConstraintResult::Updated(Disequal { pairs })
        } else {
            ConstraintResult::Unchanged
        }
    }

    /// Rewrites every variable of the pairs to its representative.
    pub fn update_vars(&mut self, store: &Store)
        requires
            store.wf(),
            old(self).wf(store@),
        ensures
            final(self).wf(store@),
            final(self).pairs.len() == old(self).pairs.len(),
            forall|i: int|
                0 <= i < old(self).pairs.len() ==> (#[trigger] final(self).pairs@[i]) == (
                    store@.follow(old(self).pairs@[i].0),
                    store@.follow(old(self).pairs@[i].1),
                    old(self).pairs@[i].2,
                ),
    {
        let ghost before = self.pairs@;
        let mut i: usize = 0;
        while i < self.pairs.len()
            invariant
                i <= self.pairs.len(),
                self.pairs.len() == before.len(),
                store.wf(),
                pairs_in(before, store@),
                forall|k: int|
                    0 <= k < i ==> (#[trigger] self.pairs@[k]) == (
                        store@.follow(before[k].0),
                        store@.follow(before[k].1),
                        before[k].2,
                    ),
                forall|k: int| i <= k < self.pairs.len() ==> self.pairs@[k] == #[trigger] before[k],
            decreases self.pairs.len() - i,
        {
            assert(store@.has(before[i as int].0) && store@.has(before[i as int].1));
            let a = store.follow_id(self.pairs[i].0);
            let b = store.follow_id(self.pairs[i].1);
            let ty = self.pairs[i].2.clone();
            self.pairs.set(i, (a, b, ty));
            i = i + 1;
        }
        proof {
            assert forall|k: int| 0 <= k < self.pairs.len() implies store@.has(
                (#[trigger] self.pairs@[k]).0,
            ) && store@.has(self.pairs@[k].1) by {
                assert(store@.has(before[k].0) && store@.has(before[k].1));
                store@.lemma_follow_ends(before[k].0);
                store@.lemma_follow_ends(before[k].1);
            }
        }
    }

    /// Whether some cell of `proxy` differs from the same cell of its
    /// parent.
    fn any_change(proxy: &StateProxy) -> (r: bool)
        requires
            proxy.wf(),
        ensures
            r == differ(proxy.parent@, proxy@),
    {
        let n = proxy.written();
        let mut j: usize = 0;
        while j < n
            invariant
                j <= n,
                n == proxy.eqs.keys@.len(),
                proxy.wf(),
                forall|t: int|
                    0 <= t < j ==> proxy@.cells[(#[trigger] proxy.eqs.keys@[t]).id as int]
                        == proxy.parent@.cells[proxy.eqs.keys@[t].id as int],
            decreases n - j,
        {
            let (k, _, changed) = proxy.written_at(j);
            if changed {
                assert(proxy@.cells[k.id as int] != proxy.parent@.cells[k.id as int]);
                return true;
            }
            j = j + 1;
        }
        proof {
            assert forall|i: int| 0 <= i < proxy@.cells.len() implies #[trigger] proxy@.cells[i]
                == proxy.parent@.cells[i] by {
                let k = UntypedVar { id: i as usize };
                assert(proxy.parent.cells.len() == proxy@.cells.len());
                if proxy.eqs.has(k) {
                    let p = proxy.eqs.position(k);
                    assert(proxy.eqs.keys@[p] == k);
                } else {
                    proxy.lemma_unwritten(i);
                }
            }
        }
        false
    }

    /// The pairs for the merges that `proxy` has made and its parent has
    /// not.
    fn collect_fresh(&self, proxy: &StateProxy) -> (out: Vec<Pair>)
        requires
            proxy.wf(),
        ensures
            out@ == fresh_pairs(self.pairs@, proxy.parent@, proxy@, 0, true),
            pairs_in(out@, proxy@),
    {
        let ghost before = proxy.parent@;
        let ghost after = proxy@;
        let ghost total = fresh_pairs(self.pairs@, before, after, 0, true);
        let n = proxy.written();
        let mut out: Vec<Pair> = Vec::new();
        let mut quiet = true;
        let mut j: usize = 0;
        let ghost mut at: nat = 0;
        while j < n
            invariant
                j <= n,
                n == proxy.eqs.keys@.len(),
                proxy.wf(),
                before == proxy.parent@,
                after == proxy@,
                at <= after.cells.len(),
                j > 0 ==> at == proxy.eqs.keys@[j - 1].id + 1,
                j == 0 ==> at == 0,
                out@ + fresh_pairs(self.pairs@, before, after, at, quiet) == total,
                pairs_in(out@, after),
            decreases n - j,
        {
            let ghost done = out@;
            let (k, held, changed) = proxy.written_at(j);
            proof {
                if j > 0 {
                    assert(proxy.eqs.keys@[j - 1].id < proxy.eqs.keys@[j as int].id);
                }
                assert forall|t: int| at <= t < k.id implies after.cells[t] == before.cells[t] by {
                    proxy.lemma_gap(j as int, t);
                }
                lemma_fresh_skip(self.pairs@, before, after, at, k.id as nat, quiet);
                assert(after.cell_ok(k.id as int));
            }
            match held {
                VarRef::EqualTo(e) => {
                    if changed {
                        if !(quiet && self.relevant_to(k)) {
                            quiet = false;
                            let root = proxy.follow_id(*e);
                            let ty = proxy.tag_of(root).clone();
                            out.push((k, *e, ty));
                            proof {
                                let rest = fresh_pairs(
                                    self.pairs@,
                                    before,
                                    after,
                                    (k.id + 1) as nat,
                                    false,
                                );
                                assert(out@ + rest =~= done + (seq![(k, *e, ty)] + rest));
                                assert forall|t: int| 0 <= t < out@.len() implies after.has(
                                    (#[trigger] out@[t]).0,
                                ) && after.has(out@[t].1) by {
                                    if t < done.len() {
                                        assert(out@[t] == done[t]);
                                    }
                                }
                            }
                        }
                    }
                },
                VarRef::Exactly(_) => {},
            }
            proof {
                at = (k.id + 1) as nat;
            }
            j = j + 1;
        }
        proof {
            assert forall|t: int| at <= t < after.cells.len() implies after.cells[t]
                == before.cells[t] by {
                proxy.lemma_gap(n as int, t);
            }
            lemma_fresh_skip(self.pairs@, before, after, at, after.cells.len(), quiet);
            assert(out@ + Seq::<Pair>::empty() =~= out@);
        }
        out
    }

    /// Tests the constraint in a scratch state, which holds the unified
    /// pairs afterwards and is meant to be dropped.
    pub fn test(&self, proxy: &mut StateProxy) -> (verdict: ConstraintResult<Disequal>)
        requires
            old(proxy).wf(),
            self.wf(old(proxy)@),
        ensures
            final(proxy).wf(),
            final(proxy).same_base(old(proxy)),
            final(proxy)@ == unify_pairs(old(proxy)@, self.pairs@, 0),
            verdict.kind() == test_step(self.pairs@, old(proxy).parent@, old(proxy)@).0,
            verdict matches ConstraintResult::Updated(next) ==> {
                &&& next.pairs@ == test_step(self.pairs@, old(proxy).parent@, old(proxy)@).1
                &&& next.wf(old(proxy).parent@)
            },
    {
        let ghost start = proxy@;
        let ghost base = *proxy;
        if !proxy.ok() {
            return ConstraintResult::Irrelevant;
        }
        let mut i: usize = 0;
        while i < self.pairs.len()
            invariant
                i <= self.pairs.len(),
                proxy.wf(),
                proxy.same_base(&base),
                base.same_base(old(proxy)),
                start == old(proxy)@,
                proxy.ok,
                unify_pairs(proxy@, self.pairs@, i as nat) == unify_pairs(start, self.pairs@, 0),
            decreases self.pairs.len() - i,
        {
            proxy.untyped_unify(self.pairs[i].0, self.pairs[i].1, &self.pairs[i].2);
            if !proxy.ok() {
                assert(unify_pairs(proxy@, self.pairs@, (i + 1) as nat) == proxy@);
                return ConstraintResult::Irrelevant;
            }
            i = i + 1;
        }
        if !Self::any_change(proxy) {
            return ConstraintResult::Failed;
        }
        let fresh = self.collect_fresh(proxy);
        if fresh.len() > 0 {
            return ConstraintResult::Updated(Disequal { pairs: fresh });
        }
        self.disequal_update_vars(proxy.parent)
    }
}

impl Clone for Disequal {
    fn clone(&self) -> (r: Self)
        ensures
            r.pairs@ == self.pairs@,
    {
        let mut pairs: Vec<Pair> = Vec::new();
        let mut i: usize = 0;
        while i < self.pairs.len()
            invariant
                i <= self.pairs.len(),
                pairs@ == self.pairs@.subrange(0, i as int),
            decreases self.pairs.len() - i,
        {
            let ty = self.pairs[i].2.clone();
            pairs.push((self.pairs[i].0, self.pairs[i].1, ty));
            i = i + 1;
        }
        assert(self.pairs@.subrange(0, self.pairs.len() as int) == self.pairs@);
        Disequal { pairs }
    }
}

/// The constraint that `a` and `b` never become equal, before its arguments
/// are lowered to variables.
#[derive(Debug)]
pub struct ToDisequal<A, B, C> {
    pub a: A,
    pub b: B,
    pub marker: PhantomData<C>,
}

impl Disequal {
    /// The constraint that `a` and `b` never become equal.
    pub fn new<A: ToVar<VarType = C>, B: ToVar<VarType = C>, C: VarWrapper>(a: A, b: B) -> (r:
        ToDisequal<A, B, C>)
        ensures
            r.a == a,
            r.b == b,
    {
        ToDisequal { a, b, marker: PhantomData }
    }

    /// Adds the pair of the representatives of `a` and `b`.
    pub fn push<A: VarWrapper>(&mut self, state: &State, a: Var<A>, b: Var<A>)
        requires
            state.wf(),
            state@.has(a.var),
            state@.has(b.var),
        ensures
            final(self).pairs@ == old(self).pairs@.push(
                (state@.follow(a.var), state@.follow(b.var), A::tag()),
            ),
            old(self).wf(state@) ==> final(self).wf(state@),
    {
        let ghost before = self.pairs@;
        let a = state.follow_id(a.var);
        let b = state.follow_id(b.var);
        self.pairs.push((a, b, A::type_tag()));
        proof {
            if pairs_in(before, state@) {
                assert forall|i: int| 0 <= i < self.pairs@.len() implies state@.has(
                    (#[trigger] self.pairs@[i]).0,
                ) && state@.has(self.pairs@[i].1) by {
                    if i < before.len() {
                        assert(self.pairs@[i] == before[i]);
                    }
                }
            }
        }
    }
}

impl Constraint for Disequal {
    open spec fn as_propagator(self) -> Propagator {
        Propagator::Disequal(self)
    }

    fn into_propagator(self) -> (p: Propagator) {
        Propagator::Disequal(self)
    }
}

impl<A: ToVar<VarType = C>, B: ToVar<VarType = C>, C: VarWrapper> ToConstraint for ToDisequal<A, B, C> {
    type ConstraintType = Disequal;

    open spec fn ready(self, b: Bindings) -> bool {
        self.a.ready(b) && self.b.ready(b)
    }

    open spec fn lowered(self, before: Bindings, after: Bindings, c: Disequal) -> bool {
        exists|mid: Bindings, x: UntypedVar, y: UntypedVar|
            #![trigger self.a.lowered(before, mid, x), self.b.lowered(mid, after, y)]
            self.a.lowered(before, mid, x) && self.b.lowered(mid, after, y) && c.pairs@ == seq![
                (after.follow(x), after.follow(y), C::tag()),
            ]
    }

    fn into_constraint(self, state: &mut State) -> (c: Disequal) {
        let ghost before = state@;
        let mut disequal = Disequal::new_empty();
        let a = state.make_var_of(self.a);
        let ghost mid = state@;
        proof {
            self.b.lemma_ready_grows(before, mid);
        }
        let b = state.make_var_of(self.b);
        proof {
            lemma_grows_trans(before, mid, state@);
        }
        disequal.push(state, a, b);
        proof {
            assert(self.a.lowered(before, mid, a.var) && self.b.lowered(mid, state@, b.var));
            assert(disequal.pairs@ =~= seq![
                (state@.follow(a.var), state@.follow(b.var), C::tag()),
            ]);
        }
        disequal
    }
}

} // verus!
