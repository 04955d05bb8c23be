//! The built-in constraints: sums, order and difference of finite domains,
//! and the bridge between a finite domain and a plain integer.

use crate::engine::bindings::Bindings;
use crate::engine::constraint::{retired, ConstraintResult, Verdict};
use crate::engine::propagator::Propagator;
use crate::engine::narrowing::{cell_narrows, keeps, lemma_narrows_trans, narrows};
use crate::engine::proxy::StateProxy;
use crate::engine::state::State;
use crate::engine::toconstraint::{Constraint, ToConstraint};
use crate::engine::tovar::{lemma_grows_trans, ToVar};
use crate::engine::store::Store;
use crate::engine::varmap::VarMap;
use crate::engine::vars::{UntypedVar, Value, ValueView, Var};
use crate::finitedomain::{
    bounded, keep, lemma_canonical_unique, lemma_extremes, lemma_increasing_unique, lemma_keep,
    lemma_only, strictly_increasing, within, Fd, FdView,
};
use std::marker::PhantomData;
use vstd::prelude::*;

verus! {

impl Bindings {
    /// The finite domain that `x` resolves to, if it resolves to one.
    pub open spec fn fd_of(self, x: UntypedVar) -> Option<FdView> {
        match self.value(x) {
            Some(ValueView::Fd(d)) => Some(d),
            _ => None,
        }
    }

    /// The value of the finite domain that `x` resolves to, if that domain
    /// has exactly one.
    pub open spec fn single_of(self, x: UntypedVar) -> Option<usize> {
        match self.value(x) {
            Some(ValueView::Fd(FdView::Single(v))) => Some(v),
            _ => None,
        }
    }

    /// The plain integer that `x` resolves to, if it resolves to one.
    pub open spec fn usize_of(self, x: UntypedVar) -> Option<usize> {
        match self.value(x) {
            Some(ValueView::Usize(v)) => Some(v),
            _ => None,
        }
    }

    /// The store with the value of the representative of `x` replaced.
    pub open spec fn overwrite(self, x: UntypedVar, v: ValueView) -> Bindings {
        self.bind(self.follow(x), v)
    }
}

impl<'a> StateProxy<'a> {
    /// The finite domain that `x` resolves to, if it resolves to one.
    pub fn fd_value(&self, x: UntypedVar) -> (r: Option<&Fd>)
        requires
            self.wf(),
            self@.has(x),
        ensures
            match r {
                Some(d) => self@.fd_of(x) == Some(d@) && d@.wf(),
                None => self@.fd_of(x).is_none(),
            },
    {
        proof {
            self@.lemma_follow_ends(x);
            assert(self@.cell_ok(self@.follow(x).id as int));
        }
        match self.get_value(x) {
            Some(Value::Fd(d)) => Some(d),
            _ => None,
        }
    }

    /// The value of the finite domain that `x` resolves to, if that domain
    /// has exactly one.
    pub fn fd_single(&self, x: UntypedVar) -> (r: Option<usize>)
        requires
            self.wf(),
            self@.has(x),
        ensures
            r == self@.single_of(x),
    {
        match self.fd_value(x) {
            Some(d) => d.single_value(),
            None => None,
        }
    }

    /// The plain integer that `x` resolves to, if it resolves to one.
    pub fn usize_value(&self, x: UntypedVar) -> (r: Option<usize>)
        requires
            self.wf(),
            self@.has(x),
        ensures
            r == self@.usize_of(x),
    {
        match self.get_value(x) {
            Some(Value::Usize(v)) => Some(*v),
            _ => None,
        }
    }

    /// Unifies `x` with the domain that holds exactly `v`.
    pub fn unify_single(&mut self, x: UntypedVar, v: usize)
        requires
            old(self).wf(),
        ensures
            final(self).wf(),
            final(self).same_base(old(self)),
            final(self)@ == old(self)@.unify_value(
                x,
                ValueView::Fd(FdView::Single(v)),
                old(self)@.cells.len(),
            ),
    {
        let value = Value::Fd(Fd::new_single(v));
        assert(value@.subs().len() == 0);
        self.unify(value, x);
    }
}

/// Constrains `l + r` to equal `result`, over finite domains.
#[derive(Debug, PartialEq, Eq)]
pub struct FdSumConstraint<A, B, C> {
    pub l: A,
    pub r: B,
    pub result: C,
}

impl<A, B, C> FdSumConstraint<A, B, C> {
    /// The constraint `l + r = result`.
    pub fn new(l: A, r: B, result: C) -> (c: FdSumConstraint<A, B, C>)
        ensures
            c.l == l,
            c.r == r,
            c.result == result,
    {
        FdSumConstraint { l, r, result }
    }
}

impl FdSumConstraint<Var<Fd>, Var<Fd>, Var<Fd>> {
    /// Whether the constraint speaks of variables of `b` only.
    pub open spec fn wf(&self, b: Bindings) -> bool {
        b.has(self.l.var) && b.has(self.r.var) && b.has(self.result.var)
    }

    /// What running the constraint does to a store, and what it reports.
    ///
    /// Where two of the three domains hold one value each, the third
    /// variable is unified with the one value that completes the sum, and
    /// the constraint retires. It fails instead where the difference would
    /// be negative, and where the sum is too large for a machine integer.
    /// Otherwise nothing changes.
    pub open spec fn step(&self, b: Bindings) -> (Bindings, Verdict) {
        let n = b.cells.len();
        match (b.single_of(self.l.var), b.single_of(self.r.var), b.single_of(self.result.var)) {
            (Some(l), Some(r), _) => if l + r > usize::MAX {
                (b, Verdict::Failed)
            } else {
                let after = b.unify_value(
                    self.result.var,
                    ValueView::Fd(FdView::Single((l + r) as usize)),
                    n,
                );
                (after, retired(after.ok))
            },
            (Some(l), _, Some(t)) => if l > t {
                (b, Verdict::Failed)
            } else {
                let after = b.unify_value(
                    self.r.var,
                    ValueView::Fd(FdView::Single((t - l) as usize)),
                    n,
                );
                (after, retired(after.ok))
            },
            (_, Some(r), Some(t)) => if r > t {
                (b, Verdict::Failed)
            } else {
                let after = b.unify_value(
                    self.l.var,
                    ValueView::Fd(FdView::Single((t - r) as usize)),
                    n,
                );
                (after, retired(after.ok))
            },
            _ => (b, Verdict::Unchanged),
        }
    }

    /// Running the constraint only narrows the store, and keeps its
    /// invariant.
    pub proof fn lemma_step_narrows(&self, b: Bindings)
        requires
            b.wf(),
        ensures
            narrows(b, self.step(b).0),
            keeps(b, self.step(b).0),
    {
        let n = b.cells.len();
        b.lemma_fail_wf();
        assert forall|x: UntypedVar, v: usize|
            narrows(b, #[trigger] b.unify_value(x, ValueView::Fd(FdView::Single(v)), n))
                && b.unify_value(x, ValueView::Fd(FdView::Single(v)), n).unified_from(b) by {
            assert(ValueView::Fd(FdView::Single(v)).subs().len() == 0);
            b.lemma_unify_value_narrows(x, ValueView::Fd(FdView::Single(v)), n);
            b.lemma_unify_value_keeps(x, ValueView::Fd(FdView::Single(v)), n);
        }
    }

    /// A run that reports `Unchanged` has written nothing, so running the
    /// constraint again reports `Unchanged` again.
    pub proof fn lemma_unchanged_again(&self, b: Bindings)
        requires
            self.step(b).1 is Unchanged,
        ensures
            self.step(b).0 == b,
            self.step(self.step(b).0) == self.step(b),
    {
    }

    /// Whether fewer than two of the three domains hold one value each.
    pub open spec fn resting(&self, b: Bindings) -> bool {
        let l = b.single_of(self.l.var).is_some();
        let r = b.single_of(self.r.var).is_some();
        let t = b.single_of(self.result.var).is_some();
        !((l && r) || (l && t) || (r && t))
    }

    /// The constraint reports `Unchanged` exactly while it is resting.
    pub proof fn lemma_resting(&self, b: Bindings)
        ensures
            (self.step(b).1 is Unchanged) == self.resting(b),
    {
    }

    /// Runs the constraint on a scratch state.
    pub fn update(&self, state: &mut StateProxy) -> (verdict: ConstraintResult<
        FdSumConstraint<Var<Fd>, Var<Fd>, Var<Fd>>,
    >)
        requires
            old(state).wf(),
            self.wf(old(state)@),
        ensures
            final(state).wf(),
            final(state).same_base(old(state)),
            (final(state)@, verdict.kind()) == self.step(old(state)@),
    {
        let l = state.fd_single(self.l.var);
        let r = state.fd_single(self.r.var);
        let result = state.fd_single(self.result.var);
        match (l, r, result) {
            (Some(l), Some(r), _) => {
                match l.checked_add(r) {
                    Some(sum) => {
                        state.unify_single(self.result.var, sum);
                        if state.ok() {
                            ConstraintResult::Irrelevant
                        } else {
                            ConstraintResult::Failed
                        }
                    },
                    None => ConstraintResult::Failed,
                }
            },
            (Some(l), _, Some(result)) => {
                if l > result {
                    return ConstraintResult::Failed;
                }
                state.unify_single(self.r.var, result - l);
                if state.ok() {
                    ConstraintResult::Irrelevant
                } else {
                    ConstraintResult::Failed
                }
            },
            (_, Some(r), Some(result)) => {
                if r > result {
                    return ConstraintResult::Failed;
                }
                state.unify_single(self.l.var, result - r);
                if state.ok() {
                    ConstraintResult::Irrelevant
                } else {
                    ConstraintResult::Failed
                }
            },
            _ => ConstraintResult::Unchanged,
        }
    }

    /// Whether one of the variables of the constraint has an entry in
    /// `changes`.
    pub fn relevant(&self, changes: &VarMap) -> (r: bool)
        requires
            changes.wf(),
        ensures
            r == (changes.has(self.l.var) || changes.has(self.r.var) || changes.has(
                self.result.var,
            )),
    {
        changes.contains_key(&self.l.var) || changes.contains_key(&self.r.var)
            || changes.contains_key(&self.result.var)
    }

    /// Rewrites each variable of the constraint to its representative.
    pub fn update_vars(&mut self, store: &Store)
        requires
            store.wf(),
            old(self).wf(store@),
        ensures
            final(self).wf(store@),
            final(self).l.var == store@.follow(old(self).l.var),
            final(self).r.var == store@.follow(old(self).r.var),
            final(self).result.var == store@.follow(old(self).result.var),
    {
        self.l = Var::new(store.follow_id(self.l.var));
        self.r = Var::new(store.follow_id(self.r.var));
        self.result = Var::new(store.follow_id(self.result.var));
    }
}

/// A type of numbers that can be added and subtracted, and that variables
/// can hold. A sum or difference that the type cannot represent is no
/// number.
pub trait Summand: Sized + Copy {
    /// The number that the value `v` is, if it is one of this type.
    spec fn read(v: ValueView) -> Option<Self>;

    /// The number as a value.
    spec fn wrap(self) -> ValueView;

    /// The sum, where the type can represent it.
    spec fn plus(self, other: Self) -> Option<Self>;

    /// The difference, where the type can represent it.
    spec fn minus(self, other: Self) -> Option<Self>;

    /// The number that `v` is, if it is one of this type.
    fn from_value(v: &Value) -> (r: Option<Self>)
        ensures
            r == Self::read(v@),
    ;

    /// The number as a value.
    fn into_value(self) -> (v: Value)
        ensures
            v@ == self.wrap(),
            v@.subs().len() == 0,
            v@.sound(),
    ;

    /// The sum, where the type can represent it.
    fn sum_with(self, other: Self) -> (r: Option<Self>)
        ensures
            r == self.plus(other),
    ;

    /// The difference, where the type can represent it.
    fn diff_with(self, other: Self) -> (r: Option<Self>)
        ensures
            r == self.minus(other),
    ;

    /// A number as a value holds no variables.
    proof fn lemma_wrap_plain(self)
        ensures
            self.wrap().subs().len() == 0,
            self.wrap().sound(),
    ;
}

impl Summand for i64 {
    open spec fn read(v: ValueView) -> Option<i64> {
        match v {
            ValueView::Int(i) => Some(i),
            _ => None,
        }
    }

    open spec fn wrap(self) -> ValueView {
        ValueView::Int(self)
    }

    open spec fn plus(self, other: i64) -> Option<i64> {
        if i64::MIN <= self + other <= i64::MAX {
            Some((self + other) as i64)
        } else {
            None
        }
    }

    open spec fn minus(self, other: i64) -> Option<i64> {
        if i64::MIN <= self - other <= i64::MAX {
            Some((self - other) as i64)
        } else {
            None
        }
    }

    fn from_value(v: &Value) -> (r: Option<i64>) {
        match v {
            Value::Int(i) => Some(*i),
            _ => None,
        }
    }

    fn into_value(self) -> (v: Value) {
        Value::Int(self)
    }

    fn sum_with(self, other: i64) -> (r: Option<i64>) {
        self.checked_add(other)
    }

    fn diff_with(self, other: i64) -> (r: Option<i64>) {
        self.checked_sub(other)
    }

    proof fn lemma_wrap_plain(self) {
    }
}

impl Summand for usize {
    open spec fn read(v: ValueView) -> Option<usize> {
        match v {
            ValueView::Usize(u) => Some(u),
            _ => None,
        }
    }

    open spec fn wrap(self) -> ValueView {
        ValueView::Usize(self)
    }

    open spec fn plus(self, other: usize) -> Option<usize> {
        if self + other <= usize::MAX {
            Some((self + other) as usize)
        } else {
            None
        }
    }

    open spec fn minus(self, other: usize) -> Option<usize> {
        if self >= other {
            Some((self - other) as usize)
        } else {
            None
        }
    }

    fn from_value(v: &Value) -> (r: Option<usize>) {
        match v {
            Value::Usize(u) => Some(*u),
            _ => None,
        }
    }

    fn into_value(self) -> (v: Value) {
        Value::Usize(self)
    }

    fn sum_with(self, other: usize) -> (r: Option<usize>) {
        self.checked_add(other)
    }

    fn diff_with(self, other: usize) -> (r: Option<usize>) {
        self.checked_sub(other)
    }

    proof fn lemma_wrap_plain(self) {
    }
}

/// The number of type `A` that `x` resolves to, if it resolves to one.
pub open spec fn number_of<A: Summand>(b: Bindings, x: UntypedVar) -> Option<A> {
    match b.value(x) {
        Some(v) => A::read(v),
        None => None,
    }
}

/// Constrains `l + r` to equal `result`, over numbers of type `A`.
#[derive(Debug, PartialEq, Eq)]
pub struct SumConstraint<A, B, C, D> {
    pub l: B,
    pub r: C,
    pub result: D,
    pub marker: PhantomData<A>,
}

impl<A, B, C, D> SumConstraint<A, B, C, D> {
    /// The constraint `l + r = result`.
    pub fn new(l: B, r: C, result: D) -> (c: SumConstraint<A, B, C, D>)
        ensures
            c.l == l,
            c.r == r,
            c.result == result,
    {
        SumConstraint { l, r, result, marker: PhantomData }
    }
}

impl<A: Summand> SumConstraint<A, Var<A>, Var<A>, Var<A>> {
    /// Whether the constraint speaks of variables of `b` only.
    pub open spec fn wf(&self, b: Bindings) -> bool {
        b.has(self.l.var) && b.has(self.r.var) && b.has(self.result.var)
    }

    /// The store after `x` was unified with the number `v`, if there is
    /// one, and what the constraint then reports: it retires, or fails where
    /// the unification fails or there is no number.
    pub open spec fn settle(b: Bindings, x: UntypedVar, v: Option<A>) -> (Bindings, Verdict) {
        match v {
            Some(n) => {
                let after = b.unify_value(x, n.wrap(), b.cells.len());
                (after, retired(after.ok))
            },
            None => (b, Verdict::Failed),
        }
    }

    /// What running the constraint does to a store, and what it reports.
    ///
    /// Where `l` and `r` are known, `result` is unified with their sum; else
    /// where `l` and `result` are known, `r` is unified with their
    /// difference; else where `r` and `result` are known, `l` is. Otherwise
    /// nothing changes.
    pub open spec fn step(&self, b: Bindings) -> (Bindings, Verdict) {
        match (
            number_of::<A>(b, self.l.var),
            number_of::<A>(b, self.r.var),
            number_of::<A>(b, self.result.var),
        ) {
            (Some(l), Some(r), _) => Self::settle(b, self.result.var, l.plus(r)),
            (Some(l), _, Some(t)) => Self::settle(b, self.r.var, t.minus(l)),
            (_, Some(r), Some(t)) => Self::settle(b, self.l.var, t.minus(r)),
            _ => (b, Verdict::Unchanged),
        }
    }

    /// Running the constraint only narrows the store, and keeps its
    /// invariant.
    pub proof fn lemma_step_narrows(&self, b: Bindings)
        requires
            b.wf(),
        ensures
            narrows(b, self.step(b).0),
            keeps(b, self.step(b).0),
    {
        let n = b.cells.len();
        assert forall|x: UntypedVar, v: Option<A>|
            narrows(b, (#[trigger] Self::settle(b, x, v)).0) && Self::settle(
                b,
                x,
                v,
            ).0.unified_from(b) by {
            if let Some(k) = v {
                k.lemma_wrap_plain();
                b.lemma_unify_value_narrows(x, k.wrap(), n);
                b.lemma_unify_value_keeps(x, k.wrap(), n);
            }
        }
    }

    /// A run that reports `Unchanged` has written nothing, so running the
    /// constraint again reports `Unchanged` again.
    pub proof fn lemma_unchanged_again(&self, b: Bindings)
        requires
            self.step(b).1 is Unchanged,
        ensures
            self.step(b).0 == b,
            self.step(self.step(b).0) == self.step(b),
    {
    }

    /// Whether fewer than two of the three numbers are known.
    pub open spec fn resting(&self, b: Bindings) -> bool {
        let l = number_of::<A>(b, self.l.var).is_some();
        let r = number_of::<A>(b, self.r.var).is_some();
        let t = number_of::<A>(b, self.result.var).is_some();
        !((l && r) || (l && t) || (r && t))
    }

    /// The constraint reports `Unchanged` exactly while it is resting.
    pub proof fn lemma_resting(&self, b: Bindings)
        ensures
            (self.step(b).1 is Unchanged) == self.resting(b),
    {
    }

    /// The number that `x` resolves to in `state`.
    fn number(state: &StateProxy, x: UntypedVar) -> (r: Option<A>)
        requires
            state.wf(),
            state@.has(x),
        ensures
            r == number_of::<A>(state@, x),
    {
        match state.get_value(x) {
            Some(v) => A::from_value(v),
            None => None,
        }
    }

    /// Unifies `x` with the number `v`, if there is one.
    fn conclude(state: &mut StateProxy, x: UntypedVar, v: Option<A>) -> (verdict:
        ConstraintResult<SumConstraint<A, Var<A>, Var<A>, Var<A>>>)
        requires
            old(state).wf(),
        ensures
            final(state).wf(),
            final(state).same_base(old(state)),
            (final(state)@, verdict.kind()) == Self::settle(old(state)@, x, v),
    {
        match v {
            Some(n) => {
                state.unify(n.into_value(), x);
                if state.ok() {
                    ConstraintResult::Irrelevant
                } else {
                    ConstraintResult::Failed
                }
            },
            None => ConstraintResult::Failed,
        }
    }

    /// Runs the constraint on a scratch state.
    pub fn update(&self, state: &mut StateProxy) -> (verdict: ConstraintResult<
        SumConstraint<A, Var<A>, Var<A>, Var<A>>,
    >)
        requires
            old(state).wf(),
            self.wf(old(state)@),
        ensures
            final(state).wf(),
            final(state).same_base(old(state)),
            (final(state)@, verdict.kind()) == self.step(old(state)@),
    {
        let l = Self::number(state, self.l.var);
        let r = Self::number(state, self.r.var);
        let result = Self::number(state, self.result.var);
        match (l, r, result) {
            (Some(l), Some(r), _) => Self::conclude(state, self.result.var, l.sum_with(r)),
            (Some(l), _, Some(result)) => Self::conclude(state, self.r.var, result.diff_with(l)),
            (_, Some(r), Some(result)) => Self::conclude(state, self.l.var, result.diff_with(r)),
            _ => ConstraintResult::Unchanged,
        }
    }

    /// Whether one of the variables of the constraint has an entry in
    /// `changes`.
    pub fn relevant(&self, changes: &VarMap) -> (r: bool)
        requires
            changes.wf(),
        ensures
            r == (changes.has(self.l.var) || changes.has(self.r.var) || changes.has(
                self.result.var,
            )),
    {
        changes.contains_key(&self.l.var) || changes.contains_key(&self.r.var)
            || changes.contains_key(&self.result.var)
    }

    /// Rewrites each variable of the constraint to its representative.
    pub fn update_vars(&mut self, store: &Store)
        requires
            store.wf(),
            old(self).wf(store@),
        ensures
            final(self).wf(store@),
            final(self).l.var == store@.follow(old(self).l.var),
            final(self).r.var == store@.follow(old(self).r.var),
            final(self).result.var == store@.follow(old(self).result.var),
    {
        self.l = Var::new(store.follow_id(self.l.var));
        self.r = Var::new(store.follow_id(self.r.var));
        self.result = Var::new(store.follow_id(self.result.var));
    }
}

/// Constrains a finite domain and a plain integer to the same number.
#[derive(Debug, PartialEq, Eq)]
pub struct FdUsizeConstraint<A, B> {
    pub fd: A,
    pub u: B,
}

impl<A, B> FdUsizeConstraint<A, B> {
    /// The constraint that `fd` and `u` are the same number.
    pub fn new(fd: A, u: B) -> (c: FdUsizeConstraint<A, B>)
        ensures
            c.fd == fd,
            c.u == u,
    {
        FdUsizeConstraint { fd, u }
    }
}

impl FdUsizeConstraint<Var<Fd>, Var<usize>> {
    /// Whether the constraint speaks of variables of `b` only.
    pub open spec fn wf(&self, b: Bindings) -> bool {
        b.has(self.fd.var) && b.has(self.u.var)
    }

    /// The number that one of the two sides is known to be: the integer, or
    /// else the one value of the domain.
    pub open spec fn known(&self, b: Bindings) -> Option<usize> {
        match b.usize_of(self.u.var) {
            Some(x) => Some(x),
            None => b.single_of(self.fd.var),
        }
    }

    /// What running the constraint does to a store, and what it reports.
    ///
    /// Where one side is known, the domain is unified with the domain of
    /// that one number, then the integer with the number, and the
    /// constraint retires. Otherwise nothing changes.
    pub open spec fn step(&self, b: Bindings) -> (Bindings, Verdict) {
        let n = b.cells.len();
        match self.known(b) {
            Some(x) => (
                b.unify_value(self.fd.var, ValueView::Fd(FdView::Single(x)), n).unify_value(
                    self.u.var,
                    ValueView::Usize(x),
                    n,
                ),
                Verdict::Irrelevant,
            ),
            None => (b, Verdict::Unchanged),
        }
    }

    /// Running the constraint only narrows the store, and keeps its
    /// invariant.
    pub proof fn lemma_step_narrows(&self, b: Bindings)
        requires
            b.wf(),
        ensures
            narrows(b, self.step(b).0),
            keeps(b, self.step(b).0),
    {
        let n = b.cells.len();
        if let Some(x) = self.known(b) {
            let single = ValueView::Fd(FdView::Single(x));
            assert(single.subs().len() == 0);
            assert(ValueView::Usize(x).subs().len() == 0);
            let mid = b.unify_value(self.fd.var, single, n);
            b.lemma_unify_value_narrows(self.fd.var, single, n);
            b.lemma_unify_value_keeps(self.fd.var, single, n);
            mid.lemma_unify_value_narrows(self.u.var, ValueView::Usize(x), n);
            mid.lemma_unify_value_keeps(self.u.var, ValueView::Usize(x), n);
            lemma_narrows_trans(b, mid, mid.unify_value(self.u.var, ValueView::Usize(x), n));
        }
    }

    /// A run that reports `Unchanged` has written nothing, so running the
    /// constraint again reports `Unchanged` again.
    pub proof fn lemma_unchanged_again(&self, b: Bindings)
        requires
            self.step(b).1 is Unchanged,
        ensures
            self.step(b).0 == b,
            self.step(self.step(b).0) == self.step(b),
    {
    }

    /// Whether neither side is known.
    pub open spec fn resting(&self, b: Bindings) -> bool {
        self.known(b).is_none()
    }

    /// The constraint reports `Unchanged` exactly while it is resting.
    pub proof fn lemma_resting(&self, b: Bindings)
        ensures
            (self.step(b).1 is Unchanged) == self.resting(b),
    {
    }

    /// Runs the constraint on a scratch state.
    pub fn update(&self, state: &mut StateProxy) -> (verdict: ConstraintResult<
        FdUsizeConstraint<Var<Fd>, Var<usize>>,
    >)
        requires
            old(state).wf(),
            self.wf(old(state)@),
        ensures
            final(state).wf(),
            final(state).same_base(old(state)),
            (final(state)@, verdict.kind()) == self.step(old(state)@),
    {
        let single_value = match state.usize_value(self.u.var) {
            Some(u) => Some(u),
            None => state.fd_single(self.fd.var),
        };
        match single_value {
            Some(x) => {
                proof {
                    let single = ValueView::Fd(FdView::Single(x));
                    assert(single.subs().len() == 0);
                    state@.lemma_unify_value_keeps(self.fd.var, single, state@.cells.len());
                }
                state.unify_single(self.fd.var, x);
                state.unify(Value::Usize(x), self.u.var);
                ConstraintResult::Irrelevant
            },
            None => ConstraintResult::Unchanged,
        }
    }

    /// Whether one of the variables of the constraint has an entry in
    /// `changes`.
    pub fn relevant(&self, changes: &VarMap) -> (r: bool)
        requires
            changes.wf(),
        ensures
            r == (changes.has(self.fd.var) || changes.has(self.u.var)),
    {
        changes.contains_key(&self.fd.var) || changes.contains_key(&self.u.var)
    }

    /// Rewrites each variable of the constraint to its representative.
    pub fn update_vars(&mut self, store: &Store)
        requires
            store.wf(),
            old(self).wf(store@),
        ensures
            final(self).wf(store@),
            final(self).fd.var == store@.follow(old(self).fd.var),
            final(self).u.var == store@.follow(old(self).u.var),
    {
        self.fd = Var::new(store.follow_id(self.fd.var));
        self.u = Var::new(store.follow_id(self.u.var));
    }
}

/// The first position of the strictly increasing `vals` whose element is at
/// least `x`, or the length of `vals` if there is none.
fn first_at_least(vals: &[usize], x: usize) -> (at: usize)
    requires
        strictly_increasing(vals@),
    ensures
        at <= vals.len(),
        forall|i: int| 0 <= i < at ==> vals@[i] < x,
        forall|i: int| at <= i < vals.len() ==> vals@[i] >= x,
{
    let mut lo: usize = 0;
    let mut hi: usize = vals.len();
    while lo < hi
        invariant
            lo <= hi <= vals.len(),
            strictly_increasing(vals@),
            forall|i: int| 0 <= i < lo ==> vals@[i] < x,
            forall|i: int| hi <= i < vals.len() ==> vals@[i] >= x,
        decreases hi - lo,
    {
        let mid = lo + (hi - lo) / 2;
        if vals[mid] < x {
            lo = mid + 1;
        } else {
            hi = mid;
        }
    }
    lo
}

/// The part of the strictly increasing `vals` that lies within the bounds,
/// both inclusive and both optional, as an enumeration. The enumeration is
/// not collapsed: it may have one entry or none.
pub fn constrain_range(min: Option<usize>, max: Option<usize>, vals: &[usize]) -> (r: Fd)
    requires
        strictly_increasing(vals@),
    ensures
        r@ == FdView::Values(keep(vals@, bounded(min, max))),
{
    let end = match max {
        Some(max) => if max == usize::MAX {
            vals.len()
        } else {
            first_at_least(vals, max + 1)
        },
        None => vals.len(),
    };
    let start = match min {
        Some(min) => first_at_least(vals, min),
        None => 0,
    };
    let mut out: Vec<usize> = Vec::new();
    let mut i: usize = start;
    while i < end
        invariant
            end <= vals.len(),
            start <= i,
            i <= end || start >= end,
            start < end ==> out@ == vals@.subrange(start as int, i as int),
            start >= end ==> out@.len() == 0,
        decreases end - i,
    {
        out.push(vals[i]);
        i = i + 1;
    }
    proof {
        let kept = keep(vals@, bounded(min, max));
        lemma_keep(vals@, bounded(min, max));
        assert forall|x: usize| out@.contains(x) <==> kept.contains(x) by {
            if out@.contains(x) {
                let k = choose|k: int| 0 <= k < out@.len() && out@[k] == x;
                assert(vals@[start + k] == x);
                assert(vals@.contains(x));
                assert(within(min, max, x));
            }
            if kept.contains(x) {
                let k = choose|k: int| 0 <= k < vals@.len() && vals@[k] == x;
                assert(start <= k < end);
                assert(out@[k - start] == x);
            }
        }
        lemma_increasing_unique(out@, kept);
    }
    Fd::Values(out)
}

/// The lowest and the highest candidate of a usable domain.
fn extremes(d: &Fd) -> (r: (usize, usize))
    requires
        d@.wf(),
    ensures
        r.0 == d@.lowest(),
        r.1 == d@.highest(),
{
    match d {
        Fd::Single(v) => (*v, *v),
        Fd::Values(vs) => (vs[0], vs[vs.len() - 1]),
    }
}

/// The candidates of a usable domain that lie within the bounds, as a
/// domain.
fn clip(d: &Fd, min: Option<usize>, max: Option<usize>) -> (r: Fd)
    requires
        d@.wf(),
    ensures
        r@ == d@.clipped(min, max),
        r@.canonical(),
{
    proof {
        lemma_only(d@, bounded(min, max));
    }
    match d {
        Fd::Single(v) => {
            let inside = (match min {
                Some(lo) => lo <= *v,
                None => true,
            }) && (match max {
                Some(hi) => *v <= hi,
                None => true,
            });
            let ghost p = bounded(min, max);
            assert(seq![*v].drop_last() =~= Seq::<usize>::empty());
            assert(keep(seq![*v], p) =~= if p(*v) {
                seq![*v]
            } else {
                Seq::<usize>::empty()
            }) by {
                assert(keep(Seq::<usize>::empty(), p) =~= Seq::<usize>::empty());
            }
            if inside {
                Fd::Single(*v)
            } else {
                Fd::err()
            }
        },
        Fd::Values(vs) => constrain_range(min, max, vs.as_slice()).collapse(),
    }
}

/// Constrains one finite domain to be at most another.
#[derive(Debug, PartialEq, Eq)]
pub struct FdLessOrEqual<A, B> {
    pub l: A,
    pub r: B,
}

impl<A, B> FdLessOrEqual<A, B> {
    /// The constraint `l <= r`.
    pub fn new(l: A, r: B) -> (c: FdLessOrEqual<A, B>)
        ensures
            c.l == l,
            c.r == r,
    {
        FdLessOrEqual { l, r }
    }
}

impl FdLessOrEqual<Var<Fd>, Var<Fd>> {
    /// Whether the constraint speaks of variables of `b` only.
    pub open spec fn wf(&self, b: Bindings) -> bool {
        b.has(self.l.var) && b.has(self.r.var)
    }

    /// The left domain without what exceeds every candidate on the right.
    pub open spec fn lower_side(dl: FdView, dr: FdView) -> FdView {
        dl.clipped(None, Some(dr.highest()))
    }

    /// The right domain without what is below every candidate on the left.
    pub open spec fn upper_side(dl: FdView, dr: FdView) -> FdView {
        dr.clipped(Some(dl.lowest()), None)
    }

    /// What running the constraint does to a store, and what it reports.
    ///
    /// Where both variables resolve to domains, each domain loses the
    /// candidates that no candidate of the other can match. The constraint
    /// fails where a domain loses all of them. Otherwise both domains
    /// are written back, and the constraint retires if one of them is down to
    /// one value. Where a variable resolves to no domain nothing changes.
    pub open spec fn step(&self, b: Bindings) -> (Bindings, Verdict) {
        match (b.fd_of(self.l.var), b.fd_of(self.r.var)) {
            (Some(dl), Some(dr)) => {
                let nl = Self::lower_side(dl, dr);
                let nr = Self::upper_side(dl, dr);
                if nl.is_err() || nr.is_err() {
                    (b, Verdict::Failed)
                } else {
                    (
                        b.overwrite(self.l.var, ValueView::Fd(nl)).overwrite(
                            self.r.var,
                            ValueView::Fd(nr),
                        ),
                        if nl is Single || nr is Single {
                            Verdict::Irrelevant
                        } else {
                            Verdict::Unchanged
                        },
                    )
                }
            },
            _ => (b, Verdict::Unchanged),
        }
    }

    /// Running the constraint only narrows the store, and keeps its
    /// invariant.
    pub proof fn lemma_step_narrows(&self, b: Bindings)
        requires
            b.wf(),
            self.wf(b),
        ensures
            narrows(b, self.step(b).0),
            keeps(b, self.step(b).0),
    {
        match (b.fd_of(self.l.var), b.fd_of(self.r.var)) {
            (Some(dl), Some(dr)) => {
                let nl = Self::lower_side(dl, dr);
                let nr = Self::upper_side(dl, dr);
                let fl = b.follow(self.l.var);
                let fr = b.follow(self.r.var);
                b.lemma_follow_ends(self.l.var);
                b.lemma_follow_ends(self.r.var);
                assert(b.cell_ok(fl.id as int));
                assert(b.cell_ok(fr.id as int));
                lemma_only(dl, bounded(None, Some(dr.highest())));
                lemma_only(dr, bounded(Some(dl.lowest()), None));
                if !(nl.is_err() || nr.is_err()) {
                    let mid = b.overwrite(self.l.var, ValueView::Fd(nl));
                    assert(ValueView::Fd(nl).subs().len() == 0);
                    assert(ValueView::Fd(nr).subs().len() == 0);
                    b.lemma_bind_wf(fl, ValueView::Fd(nl));
                    b.lemma_bind_follow(fl, ValueView::Fd(nl), self.r.var);
                    mid.lemma_bind_wf(fr, ValueView::Fd(nr));
                    let after = mid.overwrite(self.r.var, ValueView::Fd(nr));
                    assert forall|i: int| 0 <= i < b.cells.len() implies cell_narrows(
                        #[trigger] b.cells[i],
                        after.cells[i],
                    ) by {
                        assert(forall|x: usize| nl.contains(x) ==> dl.contains(x));
                        assert(forall|x: usize| nr.contains(x) ==> dr.contains(x));
                    }
                }
            },
            _ => {},
        }
        b.lemma_fail_wf();
    }

    /// Whether a variable resolves to no domain, or both domains are
    /// narrowed to more than one candidate each.
    pub open spec fn resting(&self, b: Bindings) -> bool {
        match (b.fd_of(self.l.var), b.fd_of(self.r.var)) {
            (Some(dl), Some(dr)) => {
                let nl = Self::lower_side(dl, dr);
                let nr = Self::upper_side(dl, dr);
                !nl.is_err() && !nr.is_err() && !(nl is Single) && !(nr is Single)
            },
            _ => true,
        }
    }

    /// The constraint reports `Unchanged` exactly while it is resting.
    pub proof fn lemma_resting(&self, b: Bindings)
        ensures
            (self.step(b).1 is Unchanged) == self.resting(b),
    {
    }

    /// Narrowing two domains that are narrowed already takes nothing away:
    /// where both sides keep candidates, narrowing them again gives the same
    /// two domains.
    pub proof fn lemma_sides_settle(dl: FdView, dr: FdView)
        requires
            dl.wf(),
            dr.wf(),
            !Self::lower_side(dl, dr).is_err(),
            !Self::upper_side(dl, dr).is_err(),
        ensures
            Self::lower_side(Self::lower_side(dl, dr), Self::upper_side(dl, dr)) == Self::lower_side(
                dl,
                dr,
            ),
            Self::upper_side(Self::lower_side(dl, dr), Self::upper_side(dl, dr)) == Self::upper_side(
                dl,
                dr,
            ),
            Self::lower_side(dl, dr).wf(),
            Self::upper_side(dl, dr).wf(),
    {
        let nl = Self::lower_side(dl, dr);
        let nr = Self::upper_side(dl, dr);
        lemma_only(dl, bounded(None, Some(dr.highest())));
        lemma_only(dr, bounded(Some(dl.lowest()), None));
        lemma_extremes(dl);
        lemma_extremes(dr);
        lemma_extremes(nl);
        lemma_extremes(nr);
        assert(nl.contains(nl.lowest()));
        assert(dl.contains(nl.lowest()) && nl.lowest() <= dr.highest());
        assert(dl.lowest() <= dr.highest());
        assert(nl.contains(dl.lowest()));
        assert(nr.contains(dr.highest()));
        assert(nl.lowest() == dl.lowest());
        assert(nr.contains(nr.highest()));
        assert(dr.contains(nr.highest()));
        assert(nr.highest() == dr.highest());
        lemma_only(nl, bounded(None, Some(nr.highest())));
        lemma_only(nr, bounded(Some(nl.lowest()), None));
        assert forall|x: usize| nl.clipped(None, Some(nr.highest())).contains(x) <==> nl.contains(
            x,
        ) by {}
        assert forall|x: usize| nr.clipped(Some(nl.lowest()), None).contains(x) <==> nr.contains(
            x,
        ) by {}
        lemma_canonical_unique(nl.clipped(None, Some(nr.highest())), nl);
        lemma_canonical_unique(nr.clipped(Some(nl.lowest()), None), nr);
    }

    /// The constraint is idempotent: run on the store that a run with the
    /// report `Unchanged` has left, it reports `Unchanged` and leaves the
    /// store as it is.
    pub proof fn lemma_unchanged_again(&self, b: Bindings)
        requires
            b.wf(),
            self.wf(b),
            self.step(b).1 is Unchanged,
        ensures
            self.step(self.step(b).0).1 is Unchanged,
            self.step(self.step(b).0).0.cells == self.step(b).0.cells,
    {
        match (b.fd_of(self.l.var), b.fd_of(self.r.var)) {
            (Some(dl), Some(dr)) => {
                let nl = Self::lower_side(dl, dr);
                let nr = Self::upper_side(dl, dr);
                let fl = b.follow(self.l.var);
                let fr = b.follow(self.r.var);
                b.lemma_follow_ends(self.l.var);
                b.lemma_follow_ends(self.r.var);
                assert(b.cell_ok(fl.id as int));
                assert(b.cell_ok(fr.id as int));
                Self::lemma_sides_settle(dl, dr);
                let left = ValueView::Fd(nl);
                let right = ValueView::Fd(nr);
                assert(left.subs().len() == 0);
                assert(right.subs().len() == 0);
                let mid = b.overwrite(self.l.var, left);
                b.lemma_bind_wf(fl, left);
                b.lemma_bind_follow(fl, left, self.r.var);
                b.lemma_bind_follow(fl, left, self.l.var);
                let after = mid.overwrite(self.r.var, right);
                mid.lemma_bind_wf(fr, right);
                assert(mid.is_root(fr));
                mid.lemma_bind_follow(fr, right, self.r.var);
                mid.lemma_bind_follow(fr, right, self.l.var);
                assert(after.follow(self.l.var) == fl);
                assert(after.follow(self.r.var) == fr);
                if fl == fr {
                    assert(dl == dr);
                    assert(after.fd_of(self.l.var) == Some(nr));
                    lemma_extremes(dl);
                    lemma_only(dl, bounded(None, Some(dr.highest())));
                    lemma_only(dr, bounded(Some(dl.lowest()), None));
                    assert forall|x: usize| nl.contains(x) <==> nr.contains(x) by {}
                    lemma_canonical_unique(nl, nr);
                }
                assert(after.fd_of(self.l.var) == Some(nl));
                assert(after.fd_of(self.r.var) == Some(nr));
                let again = after.overwrite(self.l.var, left).overwrite(self.r.var, right);
                after.lemma_bind_follow(fl, left, self.r.var);
                assert(again.cells =~= after.cells);
            },
            _ => {},
        }
    }

    /// Runs the constraint on a scratch state.
    pub fn update(&self, state: &mut StateProxy) -> (verdict: ConstraintResult<
        FdLessOrEqual<Var<Fd>, Var<Fd>>,
    >)
        requires
            old(state).wf(),
            self.wf(old(state)@),
        ensures
            final(state).wf(),
            final(state).same_base(old(state)),
            (final(state)@, verdict.kind()) == self.step(old(state)@),
    {
        let (new_l, new_r) = {
            let (l, r) = match (state.fd_value(self.l.var), state.fd_value(self.r.var)) {
                (Some(l), Some(r)) => (l, r),
                _ => {
                    return ConstraintResult::Unchanged;
                },
            };
            let (lowest, _) = extremes(l);
            let (_, highest) = extremes(r);
            (clip(l, None, Some(highest)), clip(r, Some(lowest), None))
        };
        if !new_l.is_valid() || !new_r.is_valid() {
            return ConstraintResult::Failed;
        }
        let result = if new_l.single_value().is_some() || new_r.single_value().is_some() {
            ConstraintResult::Irrelevant
        } else {
            ConstraintResult::Unchanged
        };
        let left = Value::Fd(new_l);
        let right = Value::Fd(new_r);
        assert(left@.subs().len() == 0);
        assert(right@.subs().len() == 0);
        proof {
            state@.lemma_follow_ends(self.l.var);
            state@.lemma_follow_ends(self.r.var);
            state@.lemma_bind_follow(state@.follow(self.l.var), left@, self.r.var);
        }
        state.overwrite_var(self.l.var, left);
        state.overwrite_var(self.r.var, right);
        result
    }

    /// Whether one of the variables of the constraint has an entry in
    /// `changes`.
    pub fn relevant(&self, changes: &VarMap) -> (r: bool)
        requires
            changes.wf(),
        ensures
            r == (changes.has(self.l.var) || changes.has(self.r.var)),
    {
        changes.contains_key(&self.l.var) || changes.contains_key(&self.r.var)
    }

    /// Rewrites each variable of the constraint to its representative.
    pub fn update_vars(&mut self, store: &Store)
        requires
            store.wf(),
            old(self).wf(store@),
        ensures
            final(self).wf(store@),
            final(self).l.var == store@.follow(old(self).l.var),
            final(self).r.var == store@.follow(old(self).r.var),
    {
        self.l = Var::new(store.follow_id(self.l.var));
        self.r = Var::new(store.follow_id(self.r.var));
    }
}

impl Clone for FdSumConstraint<Var<Fd>, Var<Fd>, Var<Fd>> {
    fn clone(&self) -> (r: Self)
        ensures
            r == *self,
    {
        FdSumConstraint { l: self.l, r: self.r, result: self.result }
    }
}

impl<A: Summand> Clone for SumConstraint<A, Var<A>, Var<A>, Var<A>> {
    fn clone(&self) -> (r: Self)
        ensures
            r == *self,
    {
        SumConstraint { l: self.l, r: self.r, result: self.result, marker: PhantomData }
    }
}

impl Clone for FdUsizeConstraint<Var<Fd>, Var<usize>> {
    fn clone(&self) -> (r: Self)
        ensures
            r == *self,
    {
        FdUsizeConstraint { fd: self.fd, u: self.u }
    }
}

impl Clone for FdLessOrEqual<Var<Fd>, Var<Fd>> {
    fn clone(&self) -> (r: Self)
        ensures
            r == *self,
    {
        FdLessOrEqual { l: self.l, r: self.r }
    }
}

impl Constraint for FdSumConstraint<Var<Fd>, Var<Fd>, Var<Fd>> {
    open spec fn as_propagator(self) -> Propagator {
        Propagator::FdSum(self)
    }

    fn into_propagator(self) -> (p: Propagator) {
        Propagator::FdSum(self)
    }
}

impl<A: ToVar<VarType = Fd>, B: ToVar<VarType = Fd>, C: ToVar<VarType = Fd>> ToConstraint for FdSumConstraint<
    A,
    B,
    C,
> {
    type ConstraintType = FdSumConstraint<Var<Fd>, Var<Fd>, Var<Fd>>;

    open spec fn ready(self, b: Bindings) -> bool {
        self.l.ready(b) && self.r.ready(b) && self.result.ready(b)
    }

    open spec fn lowered(
        self,
        before: Bindings,
        after: Bindings,
        c: FdSumConstraint<Var<Fd>, Var<Fd>, Var<Fd>>,
    ) -> bool {
        exists|m1: Bindings, m2: Bindings|
            #![trigger self.l.lowered(before, m1, c.l.var), self.r.lowered(m1, m2, c.r.var)]
            self.l.lowered(before, m1, c.l.var) && self.r.lowered(m1, m2, c.r.var)
                && self.result.lowered(m2, after, c.result.var)
    }

    fn into_constraint(self, state: &mut State) -> (c: FdSumConstraint<Var<Fd>, Var<Fd>, Var<Fd>>) {
        let ghost before = state@;
        proof {
            self.r.lemma_ready_grows(before, before);
        }
        let l = state.make_var_of(self.l);
        let ghost m1 = state@;
        proof {
            self.r.lemma_ready_grows(before, m1);
            self.result.lemma_ready_grows(before, m1);
        }
        let r = state.make_var_of(self.r);
        let ghost m2 = state@;
        proof {
            self.result.lemma_ready_grows(m1, m2);
            lemma_grows_trans(before, m1, m2);
        }
        let result = state.make_var_of(self.result);
        proof {
            lemma_grows_trans(before, m2, state@);
            assert(self.l.lowered(before, m1, l.var) && self.r.lowered(m1, m2, r.var));
        }
        FdSumConstraint { l, r, result }
    }
}

impl Constraint for SumConstraint<i64, Var<i64>, Var<i64>, Var<i64>> {
    open spec fn as_propagator(self) -> Propagator {
        Propagator::Sum(self)
    }

    fn into_propagator(self) -> (p: Propagator) {
        Propagator::Sum(self)
    }
}

impl Constraint for SumConstraint<usize, Var<usize>, Var<usize>, Var<usize>> {
    open spec fn as_propagator(self) -> Propagator {
        Propagator::SumUsize(self)
    }

    fn into_propagator(self) -> (p: Propagator) {
        Propagator::SumUsize(self)
    }
}

impl<B: ToVar<VarType = i64>, C: ToVar<VarType = i64>, D: ToVar<VarType = i64>> ToConstraint for SumConstraint<
    i64,
    B,
    C,
    D,
> {
    type ConstraintType = SumConstraint<i64, Var<i64>, Var<i64>, Var<i64>>;

    open spec fn ready(self, b: Bindings) -> bool {
        self.l.ready(b) && self.r.ready(b) && self.result.ready(b)
    }

    open spec fn lowered(
        self,
        before: Bindings,
        after: Bindings,
        c: SumConstraint<i64, Var<i64>, Var<i64>, Var<i64>>,
    ) -> bool {
        exists|m1: Bindings, m2: Bindings|
            #![trigger self.l.lowered(before, m1, c.l.var), self.r.lowered(m1, m2, c.r.var)]
            self.l.lowered(before, m1, c.l.var) && self.r.lowered(m1, m2, c.r.var)
                && self.result.lowered(m2, after, c.result.var)
    }

    fn into_constraint(self, state: &mut State) -> (c: SumConstraint<
        i64,
        Var<i64>,
        Var<i64>,
        Var<i64>,
    >) {
        let ghost before = state@;
        let l = state.make_var_of(self.l);
        let ghost m1 = state@;
        proof {
            self.r.lemma_ready_grows(before, m1);
            self.result.lemma_ready_grows(before, m1);
        }
        let r = state.make_var_of(self.r);
        let ghost m2 = state@;
        proof {
            self.result.lemma_ready_grows(m1, m2);
            lemma_grows_trans(before, m1, m2);
        }
        let result = state.make_var_of(self.result);
        proof {
            lemma_grows_trans(before, m2, state@);
            assert(self.l.lowered(before, m1, l.var) && self.r.lowered(m1, m2, r.var));
        }
        SumConstraint { l, r, result, marker: PhantomData }
    }
}

impl<B: ToVar<VarType = usize>, C: ToVar<VarType = usize>, D: ToVar<VarType = usize>> ToConstraint for SumConstraint<
    usize,
    B,
    C,
    D,
> {
    type ConstraintType = SumConstraint<usize, Var<usize>, Var<usize>, Var<usize>>;

    open spec fn ready(self, b: Bindings) -> bool {
        self.l.ready(b) && self.r.ready(b) && self.result.ready(b)
    }

    open spec fn lowered(
        self,
        before: Bindings,
        after: Bindings,
        c: SumConstraint<usize, Var<usize>, Var<usize>, Var<usize>>,
    ) -> bool {
        exists|m1: Bindings, m2: Bindings|
            #![trigger self.l.lowered(before, m1, c.l.var), self.r.lowered(m1, m2, c.r.var)]
            self.l.lowered(before, m1, c.l.var) && self.r.lowered(m1, m2, c.r.var)
                && self.result.lowered(m2, after, c.result.var)
    }

    fn into_constraint(self, state: &mut State) -> (c: SumConstraint<
        usize,
        Var<usize>,
        Var<usize>,
        Var<usize>,
    >) {
        let ghost before = state@;
        let l = state.make_var_of(self.l);
        let ghost m1 = state@;
        proof {
            self.r.lemma_ready_grows(before, m1);
            self.result.lemma_ready_grows(before, m1);
        }
        let r = state.make_var_of(self.r);
        let ghost m2 = state@;
        proof {
            self.result.lemma_ready_grows(m1, m2);
            lemma_grows_trans(before, m1, m2);
        }
        let result = state.make_var_of(self.result);
        proof {
            lemma_grows_trans(before, m2, state@);
            assert(self.l.lowered(before, m1, l.var) && self.r.lowered(m1, m2, r.var));
        }
        SumConstraint { l, r, result, marker: PhantomData }
    }
}

impl Constraint for FdLessOrEqual<Var<Fd>, Var<Fd>> {
    open spec fn as_propagator(self) -> Propagator {
        Propagator::FdLessOrEqual(self)
    }

    fn into_propagator(self) -> (p: Propagator) {
        Propagator::FdLessOrEqual(self)
    }
}

impl<A: ToVar<VarType = Fd>, B: ToVar<VarType = Fd>> ToConstraint for FdLessOrEqual<A, B> {
    type ConstraintType = FdLessOrEqual<Var<Fd>, Var<Fd>>;

    open spec fn ready(self, b: Bindings) -> bool {
        self.l.ready(b) && self.r.ready(b)
    }

    open spec fn lowered(
        self,
        before: Bindings,
        after: Bindings,
        c: FdLessOrEqual<Var<Fd>, Var<Fd>>,
    ) -> bool {
        exists|mid: Bindings|
            #![trigger self.l.lowered(before, mid, c.l.var)]
            self.l.lowered(before, mid, c.l.var) && self.r.lowered(mid, after, c.r.var)
    }

    fn into_constraint(self, state: &mut State) -> (c: FdLessOrEqual<Var<Fd>, Var<Fd>>) {
        let ghost before = state@;
        let l = state.make_var_of(self.l);
        let ghost mid = state@;
        proof {
            self.r.lemma_ready_grows(before, mid);
        }
        let r = state.make_var_of(self.r);
        proof {
            lemma_grows_trans(before, mid, state@);
            assert(self.l.lowered(before, mid, l.var));
        }
        FdLessOrEqual { l, r }
    }
}

impl Constraint for FdUsizeConstraint<Var<Fd>, Var<usize>> {
    open spec fn as_propagator(self) -> Propagator {
        Propagator::FdUsize(self)
    }

    fn into_propagator(self) -> (p: Propagator) {
        Propagator::FdUsize(self)
    }
}

impl<A: ToVar<VarType = Fd>, B: ToVar<VarType = usize>> ToConstraint for FdUsizeConstraint<A, B> {
    type ConstraintType = FdUsizeConstraint<Var<Fd>, Var<usize>>;

    open spec fn ready(self, b: Bindings) -> bool {
        self.fd.ready(b) && self.u.ready(b)
    }

    open spec fn lowered(
        self,
        before: Bindings,
        after: Bindings,
        c: FdUsizeConstraint<Var<Fd>, Var<usize>>,
    ) -> bool {
        exists|mid: Bindings|
            #![trigger self.fd.lowered(before, mid, c.fd.var)]
            self.fd.lowered(before, mid, c.fd.var) && self.u.lowered(mid, after, c.u.var)
    }

    fn into_constraint(self, state: &mut State) -> (c: FdUsizeConstraint<Var<Fd>, Var<usize>>) {
        let ghost before = state@;
        let fd = state.make_var_of(self.fd);
        let ghost mid = state@;
        proof {
            self.u.lemma_ready_grows(before, mid);
        }
        let u = state.make_var_of(self.u);
        proof {
            lemma_grows_trans(before, mid, state@);
            assert(self.fd.lowered(before, mid, fd.var));
        }
        FdUsizeConstraint { fd, u }
    }
}

} // verus!
