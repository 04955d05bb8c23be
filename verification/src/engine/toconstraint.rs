//! Lowering a constraint whose arguments are values or variables to one
//! whose arguments are all variables, and adding it to a state.

use crate::engine::bindings::Bindings;
use crate::engine::propagator::Propagator;
use crate::engine::state::State;
use vstd::prelude::*;

verus! {

/// A constraint whose arguments are all variables.
pub trait Constraint: Sized {
    /// The constraint as one of the constraints that a state can hold.
    spec fn as_propagator(self) -> Propagator;

    /// The constraint as one of the constraints that a state can hold.
    fn into_propagator(self) -> (p: Propagator)
        ensures
            p == self.as_propagator(),
    ;
}

/// A constraint whose arguments may be values, variables or placeholders.
pub trait ToConstraint: Sized {
    /// The constraint once every argument is a variable.
    type ConstraintType: Constraint;

    /// What lowering needs of the store.
    spec fn ready(self, b: Bindings) -> bool;

    /// Whether lowering this in the store `before` can leave the store
    /// `after` and give the constraint `c`.
    spec fn lowered(self, before: Bindings, after: Bindings, c: Self::ConstraintType) -> bool;

    /// Lowers every argument to a variable of `state`.
    fn into_constraint(self, state: &mut State) -> (c: Self::ConstraintType)
        requires
            old(state).wf(),
            self.ready(old(state)@),
        ensures
            final(state).wf(),
            old(state)@.grows_to(final(state)@),
            c.as_propagator().wf(final(state)@),
            self.lowered(old(state)@, final(state)@, c),
            final(state).same_constraints(old(state)),
            final(state).changed == old(state).changed,
    ;
}

impl State {
    /// Lowers a constraint and adds it to the live constraints. It runs in
    /// the next round of propagation.
    pub fn add_constraint<C: ToConstraint>(&mut self, c: C)
        requires
            old(self).wf(),
            c.ready(old(self)@),
        ensures
            final(self).wf(),
            old(self)@.grows_to(final(self)@),
            final(self).changed == old(self).changed,
            final(self).settled == old(self).settled,
            final(self).constraints@.len() == old(self).constraints@.len() + 1,
            exists|k: C::ConstraintType| #[trigger]
                c.lowered(old(self)@, final(self)@, k) && final(self).constraints@.last()
                    == k.as_propagator(),
            forall|i: int|
                0 <= i < old(self).constraints@.len() ==> (#[trigger] final(self).constraints@[i]).same_as(
                    old(self).constraints@[i],
                ),
    {
        let ghost before = self@;
        let bound = c.into_constraint(self);
        let ghost lowered = bound;
        let ghost mid = *self;
        let p = bound.into_propagator();
        self.add_propagator(p);
        proof {
            assert(c.lowered(before, self@, lowered));
            assert forall|i: int| 0 <= i < old(self).constraints@.len() implies (
            #[trigger] self.constraints@[i]).same_as(old(self).constraints@[i]) by {
                assert(self.constraints@[i] == mid.constraints@[i]);
                assert(mid.constraints@[i].same_as(old(self).constraints@[i]));
            }
        }
    }
}

} // verus!
