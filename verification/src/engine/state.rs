//! The state of a search branch: the variables, the constraints that are
//! still live, and the variables whose cells changed since the constraints
//! last ran.

use crate::engine::bindings::Bindings;
use crate::engine::constraint::Verdict;
use crate::engine::narrowing::narrows;
use crate::engine::propagator::Propagator;
use crate::engine::proxy::{Changes, StateProxy};
use crate::engine::schedule::{PropView, Stand};
use crate::engine::store::{bound_to, Store};
use crate::engine::varmap::VarMap;
use crate::engine::vars::{TypeTag, UntypedVar, Value, Var};
use crate::engine::wrapper::VarWrapper;
use vstd::prelude::*;

verus! {

/// The variables of a search branch and the constraints on them.
///
/// `constraints` are the live constraints in the order in which they were
/// added; the first `settled` of them have run at least once. `changed` holds
/// the variables whose cells changed since the last round of propagation.
pub struct State {
    pub eqs: Store,
    pub constraints: Vec<Propagator>,
    pub changed: VarMap,
    pub settled: usize,
}

impl View for State {
    type V = Bindings;

    open spec fn view(&self) -> Bindings {
        self.eqs@
    }
}

/// The store that a run of a constraint leaves: the store marked as failed
/// where the constraint fails, what the constraint wrote where that is
/// meant to be kept, and else the store as it was.
pub open spec fn outcome(before: Bindings, after: Bindings, verdict: Verdict, keep: bool) -> Bindings {
    match verdict {
        Verdict::Failed => before.fail(),
        _ => if keep {
            after
        } else {
            before
        },
    }
}

impl State {
    /// The invariant of a state.
    pub open spec fn wf(&self) -> bool {
        &&& self.eqs.wf()
        &&& self.changed.wf()
        &&& forall|k: UntypedVar| self.changed.has(k) ==> self@.has(k)
        &&& self.settled <= self.constraints.len()
        &&& forall|i: int| 0 <= i < self.constraints.len() ==> (#[trigger] self.constraints@[i]).wf(self@)
        &&& self@.ok ==> self.all_calm()
    }

    /// The live constraints, each as its kind and its variables.
    pub open spec fn live(&self) -> Seq<PropView> {
        Seq::new(self.constraints@.len(), |i: int| self.constraints@[i]@)
    }

    /// Where propagation stands in this state.
    pub open spec fn stand(&self) -> Stand {
        Stand {
            store: self@,
            live: self.live(),
            settled: self.settled as nat,
            changed: self.changed.dom(),
        }
    }

    /// Where propagation stands in a state meets the invariant of that.
    pub proof fn lemma_stand_wf(&self)
        requires
            self.wf(),
        ensures
            self.stand().wf(),
            self.stand().quiet() == (self.settled == self.constraints.len()
                && self.changed.keys@.len() == 0),
    {
        assert(self@.cells.len() == self.eqs.cells.len());
        assert forall|i: int| 0 <= i < self.live().len() implies (#[trigger] self.live()[i]).wf(
            self@,
        ) by {
            self.constraints@[i].lemma_view(self@, self@, Set::empty());
        }
        if self.changed.keys@.len() > 0 {
            assert(self.changed.has(self.changed.keys@[0]));
            assert(self.changed.dom().contains(self.changed.keys@[0]));
        }
    }

    /// Whether every live constraint that has run is calm: it is marked
    /// for another run, or it is at rest.
    pub open spec fn all_calm(&self) -> bool {
        forall|i: int|
            0 <= i < self.settled ==> (#[trigger] self.constraints@[i]).calm(
                self@,
                self.changed.dom(),
            )
    }

    /// Whether `other` has the constraints of this state, in the same
    /// order, and as many of them settled.
    pub open spec fn same_constraints(&self, other: &State) -> bool {
        &&& self.constraints@.len() == other.constraints@.len()
        &&& self.settled == other.settled
        &&& forall|i: int|
            0 <= i < self.constraints@.len() ==> (#[trigger] self.constraints@[i]).same_as(
                other.constraints@[i],
            )
    }

    /// Whether the variables marked as changed in this state are those of
    /// `before` and those whose cells differ between `before` and this state.
    pub open spec fn marks_since(&self, before: &State) -> bool {
        forall|k: UntypedVar|
            self.changed.has(k) <==> before.changed.has(k) || (before@.has(k) && self@.cell(k)
                != before@.cell(k))
    }

    /// The empty state.
    pub fn new() -> (r: State)
        ensures
            r.wf(),
            r@ == Bindings::empty(),
            r.constraints@.len() == 0,
    {
        State { eqs: Store::new(), constraints: Vec::new(), changed: VarMap::new(), settled: 0 }
    }

    /// False once a unification or a constraint has failed.
    pub fn ok(&self) -> (r: bool)
        ensures
            r == self@.ok,
    {
        self.eqs.ok()
    }

    /// The number of variables.
    pub fn len(&self) -> (n: usize)
        requires
            self.wf(),
        ensures
            n == self@.cells.len(),
    {
        self.eqs.len()
    }

    /// Whether `x` is a variable of this state.
    pub fn contains(&self, x: UntypedVar) -> (r: bool)
        ensures
            r == self@.has(x),
    {
        self.eqs.contains(x)
    }

    /// The constraints stay within the variables when the store changes
    /// without losing variables.
    pub proof fn lemma_constraints_stay(&self, after: Bindings)
        requires
            forall|i: int| 0 <= i < self.constraints.len() ==> (#[trigger] self.constraints@[i]).wf(self@),
            self@.cells.len() <= after.cells.len(),
        ensures
            forall|i: int| 0 <= i < self.constraints.len() ==> (#[trigger] self.constraints@[i]).wf(after),
    {
        assert forall|i: int| 0 <= i < self.constraints.len() implies (
        #[trigger] self.constraints@[i]).wf(after) by {
            self.constraints@[i].lemma_wf_grows(self@, after);
        }
    }

    /// The constraints stay calm when the store changes, as long as the
    /// variables that were marked as changed stay marked and every variable
    /// whose cell changes gets marked.
    pub proof fn lemma_calm_stays(&self, after: Bindings, marked: Set<UntypedVar>)
        requires
            self.settled <= self.constraints.len(),
            forall|i: int| 0 <= i < self.constraints.len() ==> (#[trigger] self.constraints@[i]).wf(self@),
            self.all_calm(),
            self@.cells.len() <= after.cells.len(),
            forall|k: UntypedVar| self.changed.has(k) ==> marked.contains(k),
            forall|k: UntypedVar|
                self@.has(k) && after.cell(k) != self@.cell(k) ==> marked.contains(k),
        ensures
            forall|i: int|
                0 <= i < self.settled ==> (#[trigger] self.constraints@[i]).calm(after, marked),
    {
        assert forall|i: int| 0 <= i < self.settled implies (#[trigger] self.constraints@[i]).calm(
            after,
            marked,
        ) by {
            let p = self.constraints@[i];
            p.lemma_wf_grows(self@, after);
            p.lemma_calm_kept(self@, self.changed.dom(), after, marked);
        }
    }

    /// Adds a variable of type `tag`, bound to `value` if one is given.
    pub fn push_var(&mut self, tag: TypeTag, value: Option<Value>) -> (x: UntypedVar)
        requires
            old(self).wf(),
            value matches Some(v) ==> old(self)@.value_ok(v@),
        ensures
            final(self).wf(),
            x == old(self)@.fresh(),
            final(self)@.has(x),
            final(self)@ == old(self)@.extend(tag, bound_to(value)),
            final(self).same_constraints(old(self)),
            final(self).changed == old(self).changed,
    {
        proof {
            let after = self@.extend(tag, bound_to(value));
            self.lemma_constraints_stay(after);
            if self@.ok {
                self.lemma_calm_stays(after, self.changed.dom());
            }
        }
        self.eqs.push_var(tag, value)
    }

    /// A fresh unbound variable of type `T`.
    pub fn make_var<T: VarWrapper>(&mut self) -> (r: Var<T>)
        requires
            old(self).wf(),
        ensures
            final(self).wf(),
            r.var == old(self)@.fresh(),
            final(self)@.has(r.var),
            final(self)@ == old(self)@.extend(T::tag(), None),
            final(self).same_constraints(old(self)),
            final(self).changed == old(self).changed,
    {
        Var::new(self.push_var(T::type_tag(), None))
    }

    /// A fresh variable bound to `v`.
    pub fn store_value<T: VarWrapper>(&mut self, v: T) -> (r: Var<T>)
        requires
            old(self).wf(),
            old(self)@.value_ok(v.content()),
        ensures
            final(self).wf(),
            r.var == old(self)@.fresh(),
            final(self)@.has(r.var),
            final(self)@ == old(self)@.extend(T::tag(), Some(
                crate::engine::vars::VarRefView::Exactly(v.content()),
            )),
            final(self).same_constraints(old(self)),
            final(self).changed == old(self).changed,
    {
        Var::new(self.push_var(T::type_tag(), Some(v.into_value())))
    }

    /// The representative of `x`.
    pub fn follow_id(&self, x: UntypedVar) -> (r: UntypedVar)
        requires
            self.wf(),
            self@.has(x),
        ensures
            r == self@.follow(x),
            self@.is_root(r),
    {
        self.eqs.follow_id(x)
    }

    /// Rewrites `x` to its representative. A variable that this state does
    /// not have is left as it is.
    pub fn update_var(&self, x: &mut UntypedVar)
        requires
            self.wf(),
        ensures
            *final(x) == (if self@.has(*old(x)) {
                self@.follow(*old(x))
            } else {
                *old(x)
            }),
    {
        self.eqs.update_var(x);
    }

    /// Whether `x` is a variable of the store whose type tag is that of `T`.
    pub open spec fn typed_as<T: VarWrapper>(b: Bindings, x: UntypedVar) -> bool {
        b.has(x) && b.tag(x) == T::tag()
    }

    /// The value that `var` resolves to: nothing where its representative is
    /// unbound, where the state has no variable of type `T` under that
    /// identifier, and where the value is not one of type `T`.
    pub fn get_value<T: VarWrapper>(&self, var: Var<T>) -> (r: Option<T>)
        requires
            self.wf(),
        ensures
            match r {
                Some(x) => Self::typed_as::<T>(self@, var.var) && self@.value(var.var) == Some(
                    x.content(),
                ),
                None => !Self::typed_as::<T>(self@, var.var) || (match self@.value(var.var) {
                    Some(v) => !T::holds(v),
                    None => true,
                }),
            },
    {
        if !self.eqs.contains(var.var) {
            return None;
        }
        if !self.eqs.tag_of(var.var).same(&T::type_tag()) {
            return None;
        }
        match self.eqs.get_value(var.var) {
            Some(v) => T::from_value(v),
            None => None,
        }
    }

    /// Takes over what a scratch state over this state has written, and
    /// marks the variables whose cells change by that.
    pub fn commit(&mut self, changes: Changes)
        requires
            old(self).wf(),
            changes.over(old(self)@),
        ensures
            final(self).wf(),
            final(self)@ == changes.after@,
            final(self).same_constraints(old(self)),
            final(self).constraints == old(self).constraints,
            final(self).marks_since(old(self)),
    {
        let ghost before = *self;
        let ghost after = changes.after@;
        proof {
            self.lemma_constraints_stay(after);
        }
        self.eqs.commit(changes.written, changes.ok, &mut self.changed, changes.after);
        proof {
            assert forall|k: UntypedVar| self.changed.has(k) implies self@.has(k) by {
                assert(before.changed.has(k) || (before@.has(k) && after.cell(k) != before@.cell(
                    k,
                )));
            }
            assert(self.constraints == before.constraints);
            if after.ok {
                assert forall|k: UntypedVar| before.changed.has(k) implies self.changed.has(k) by {
                    assert(self.changed.has(k) <==> before.changed.has(k) || (before@.has(k)
                        && after.cell(k) != before@.cell(k)));
                }
                assert forall|k: UntypedVar|
                    before@.has(k) && after.cell(k) != before@.cell(k) implies self.changed.has(
                    k,
                ) by {
                    assert(self.changed.has(k) <==> before.changed.has(k) || (before@.has(k)
                        && after.cell(k) != before@.cell(k)));
                }
                before.lemma_calm_stays(after, self.changed.dom());
            }
        }
    }

    /// Unifies `a` and `b`. On a conflict the state is marked as failed.
    pub fn unify_vars<T>(&mut self, a: Var<T>, b: Var<T>)
        requires
            old(self).wf(),
        ensures
            final(self).wf(),
            final(self)@ == old(self)@.unify(a.var, b.var, Seq::empty(), old(self)@.cells.len()),
            narrows(old(self)@, final(self)@),
            final(self).same_constraints(old(self)),
            final(self).marks_since(old(self)),
    {
        proof {
            self@.lemma_unify_narrows(a.var, b.var, Seq::empty(), self@.cells.len());
        }
        let mut proxy = StateProxy::new(&self.eqs, &self.changed);
        proxy.unify_vars(a.var, b.var);
        let changes = proxy.into_changes();
        self.commit(changes);
    }

    /// Unifies `var` with `value`. On a conflict the state is marked as
    /// failed.
    pub fn unify<T: VarWrapper>(&mut self, value: T, var: Var<T>)
        requires
            old(self).wf(),
            old(self)@.value_ok(value.content()),
        ensures
            final(self).wf(),
            final(self)@ == old(self)@.unify_value(
                var.var,
                value.content(),
                old(self)@.cells.len(),
            ),
            narrows(old(self)@, final(self)@),
            final(self).same_constraints(old(self)),
            final(self).marks_since(old(self)),
    {
        proof {
            self@.lemma_unify_value_narrows(var.var, value.content(), self@.cells.len());
        }
        let mut proxy = StateProxy::new(&self.eqs, &self.changed);
        proxy.unify(value.into_value(), var.var);
        let changes = proxy.into_changes();
        self.commit(changes);
    }

    /// Adds a constraint to the live constraints. It runs in the next round
    /// of propagation.
    pub fn add_propagator(&mut self, p: Propagator)
        requires
            old(self).wf(),
            p.wf(old(self)@),
        ensures
            final(self).wf(),
            final(self)@ == old(self)@,
            final(self).changed == old(self).changed,
            final(self).settled == old(self).settled,
            final(self).constraints@ == old(self).constraints@.push(p),
    {
        let ghost before = *self;
        self.constraints.push(p);
        proof {
            assert forall|i: int| 0 <= i < self.settled implies (#[trigger] self.constraints@[i])
                == before.constraints@[i] by {}
        }
    }

    /// A state of its own that holds what this state holds.
    pub fn fork(&self) -> (r: State)
        requires
            self.wf(),
        ensures
            r.wf(),
            r@ == self@,
            r.same_constraints(self),
            forall|k: UntypedVar| r.changed.has(k) == self.changed.has(k),
    {
        let eqs = self.eqs.clone();
        let changed = self.changed.clone();
        proof {
            self.changed.lemma_same_entries(&changed);
        }
        let mut constraints: Vec<Propagator> = Vec::new();
        let mut i: usize = 0;
        while i < self.constraints.len()
            invariant
                i <= self.constraints.len(),
                constraints.len() == i,
                forall|k: int|
                    0 <= k < i ==> (#[trigger] constraints@[k]).same_as(self.constraints@[k]),
            decreases self.constraints.len() - i,
        {
            constraints.push(self.constraints[i].clone());
            i = i + 1;
        }
        let r = State { eqs, constraints, changed, settled: self.settled };
        proof {
            assert forall|k: int| 0 <= k < r.constraints.len() implies (#[trigger] r.constraints@[k]).wf(
                r@,
            ) by {
                assert(r.constraints@[k].same_as(self.constraints@[k]));
                assert(self.constraints@[k].wf(self@));
                self.constraints@[k].lemma_same_wf(r.constraints@[k], self@);
            }
            if self@.ok {
                assert forall|k: int| 0 <= k < r.settled implies (#[trigger] r.constraints@[k]).calm(
                    r@,
                    r.changed.dom(),
                ) by {
                    let p = self.constraints@[k];
                    let q = r.constraints@[k];
                    assert(q.same_as(p));
                    assert(p.calm(self@, self.changed.dom()));
                    p.lemma_calm_kept(self@, self.changed.dom(), r@, r.changed.dom());
                    p.lemma_same_calm(q, r@, r.changed.dom());
                }
            }
        }
        r
    }
}

} // verus!
