use logic_core::alldiff::AllDiffConstraint;
use logic_core::constraints::{
    constrain_range, FdLessOrEqual, FdSumConstraint, FdUsizeConstraint, SumConstraint,
};
use logic_core::engine::constraint::ConstraintResult;
use logic_core::engine::propagator::Propagator;
use logic_core::engine::proxy::StateProxy;
use logic_core::engine::state::State;
use logic_core::engine::tovar::__;
use logic_core::engine::varmap::VarMap;
use logic_core::engine::vars::{Value, Var, VarRef};
use logic_core::finitedomain::Fd;

#[test]
fn constrain_range_with_upper_bound() {
    assert_eq!(constrain_range(None, Some(3), &[1, 2, 3, 4, 5]), Fd::Values(vec![1, 2, 3]));
    assert_eq!(constrain_range(None, Some(0), &[1, 2, 3]), Fd::Values(vec![]));
    assert_eq!(constrain_range(None, Some(9), &[1, 2, 3]), Fd::Values(vec![1, 2, 3]));
    assert_eq!(constrain_range(None, Some(usize::MAX), &[1, 2]), Fd::Values(vec![1, 2]));
}

#[test]
fn constrain_range_with_lower_bound() {
    assert_eq!(constrain_range(Some(3), None, &[1, 2, 3, 4, 5]), Fd::Values(vec![3, 4, 5]));
    assert_eq!(constrain_range(Some(6), None, &[1, 2, 3]), Fd::Values(vec![]));
    assert_eq!(constrain_range(Some(0), None, &[1, 2, 3]), Fd::Values(vec![1, 2, 3]));
}

#[test]
fn constrain_range_with_both_bounds() {
    assert_eq!(constrain_range(Some(2), Some(4), &[1, 2, 3, 4, 5]), Fd::Values(vec![2, 3, 4]));
    assert_eq!(constrain_range(Some(3), Some(3), &[1, 3, 5]), Fd::Values(vec![3]));
    assert_eq!(constrain_range(Some(4), Some(2), &[1, 2, 3, 4, 5]), Fd::Values(vec![]));
    assert_eq!(constrain_range(None, None, &[7, 8]), Fd::Values(vec![7, 8]));
    assert_eq!(constrain_range(Some(1), Some(2), &[]), Fd::Values(vec![]));
}

#[test]
fn fd_sum_forward() {
    let mut state = State::new();
    let l = state.store_value(Fd::new_single(3));
    let r = state.store_value(Fd::new_single(4));
    let result: Var<Fd> = state.make_var();
    state.add_constraint(FdSumConstraint::new(l, r, result));
    assert_eq!(state.constraints.len(), 1);
    state.propagate_to_fixpoint();
    assert!(state.ok());
    assert_eq!(state.get_value(result), Some(Fd::Single(7)));
    assert_eq!(state.constraints.len(), 0);
}

#[test]
fn fd_sum_backward() {
    let mut state = State::new();
    let l = state.store_value(Fd::new_single(3));
    let r: Var<Fd> = state.make_var();
    let result = state.store_value(Fd::new_single(10));
    state.add_constraint(FdSumConstraint::new(l, r, result));
    state.propagate_to_fixpoint();
    assert!(state.ok());
    assert_eq!(state.get_value(r), Some(Fd::Single(7)));
    assert_eq!(state.constraints.len(), 0);
}

#[test]
fn fd_sum_backward_for_left() {
    let mut state = State::new();
    let l: Var<Fd> = state.make_var();
    let r = state.store_value(Fd::new_single(6));
    let result = state.store_value(Fd::new_single(10));
    state.add_constraint(FdSumConstraint::new(l, r, result));
    state.propagate_to_fixpoint();
    assert!(state.ok());
    assert_eq!(state.get_value(l), Some(Fd::Single(4)));
}

#[test]
fn fd_sum_takes_values_and_placeholders() {
    let mut state = State::new();
    let result: Var<Fd> = state.make_var();
    state.add_constraint(FdSumConstraint::new(Fd::new_single(1), Fd::new_single(2), result));
    state.add_constraint(FdSumConstraint::new(Fd::new_single(1), __::<Fd>(), __::<Fd>()));
    state.propagate_to_fixpoint();
    assert!(state.ok());
    assert_eq!(state.get_value(result), Some(Fd::Single(3)));
    assert_eq!(state.constraints.len(), 1);
}

#[test]
fn fd_sum_guards_against_underflow() {
    let mut state = State::new();
    let l = state.store_value(Fd::new_single(5));
    let r: Var<Fd> = state.make_var();
    let result = state.store_value(Fd::new_single(3));
    state.add_constraint(FdSumConstraint::new(l, r, result));
    state.propagate_to_fixpoint();
    assert!(!state.ok());
    assert_eq!(state.get_value(r), None);
    assert_eq!(state.constraints.len(), 0);
}

#[test]
fn fd_sum_guards_against_underflow_on_the_right() {
    let mut state = State::new();
    let l: Var<Fd> = state.make_var();
    let r = state.store_value(Fd::new_single(5));
    let result = state.store_value(Fd::new_single(3));
    state.add_constraint(FdSumConstraint::new(l, r, result));
    state.propagate_to_fixpoint();
    assert!(!state.ok());
}

#[test]
fn fd_sum_fails_on_a_sum_that_is_too_large() {
    let mut state = State::new();
    let l = state.store_value(Fd::new_single(usize::MAX));
    let r = state.store_value(Fd::new_single(1));
    let result: Var<Fd> = state.make_var();
    state.add_constraint(FdSumConstraint::new(l, r, result));
    state.propagate_to_fixpoint();
    assert!(!state.ok());
}

#[test]
fn fd_sum_fails_on_a_conflicting_result() {
    let mut state = State::new();
    let l = state.store_value(Fd::new_single(3));
    let r = state.store_value(Fd::new_single(4));
    let result = state.store_value(Fd::new_single(8));
    state.add_constraint(FdSumConstraint::new(l, r, result));
    state.propagate_to_fixpoint();
    assert!(!state.ok());
}

#[test]
fn fd_sum_narrows_an_enumerated_result() {
    let mut state = State::new();
    let l = state.store_value(Fd::new_single(3));
    let r = state.store_value(Fd::new_single(4));
    let result = state.store_value(Fd::Values(vec![6, 7, 8]));
    state.add_constraint(FdSumConstraint::new(l, r, result));
    state.propagate_to_fixpoint();
    assert!(state.ok());
    assert_eq!(state.get_value(result), Some(Fd::Single(7)));
}

#[test]
fn fd_sum_waits_for_two_known_sides() {
    let mut state = State::new();
    let l = state.store_value(Fd::new_single(3));
    let r: Var<Fd> = state.make_var();
    let result: Var<Fd> = state.make_var();
    state.add_constraint(FdSumConstraint::new(l, r, result));
    state.propagate_to_fixpoint();
    assert!(state.ok());
    assert_eq!(state.constraints.len(), 1);
    assert_eq!(state.get_value(result), None);
    state.unify(Fd::new_single(9), result);
    state.propagate_to_fixpoint();
    assert_eq!(state.get_value(r), Some(Fd::Single(6)));
    assert_eq!(state.constraints.len(), 0);
}

#[test]
fn sum_forward_over_integers() {
    let mut state = State::new();
    let result: Var<i64> = state.make_var();
    state.add_constraint(SumConstraint::<i64, _, _, _>::new(3i64, -5i64, result));
    state.propagate_to_fixpoint();
    assert!(state.ok());
    assert_eq!(state.get_value(result), Some(-2));
    assert_eq!(state.constraints.len(), 0);
}

#[test]
fn sum_backward_over_integers() {
    let mut state = State::new();
    let l: Var<i64> = state.make_var();
    let r: Var<i64> = state.make_var();
    state.add_constraint(SumConstraint::<i64, _, _, _>::new(l, 4i64, 10i64));
    state.add_constraint(SumConstraint::<i64, _, _, _>::new(7i64, r, 3i64));
    state.propagate_to_fixpoint();
    assert!(state.ok());
    assert_eq!(state.get_value(l), Some(6));
    assert_eq!(state.get_value(r), Some(-4));
}

#[test]
fn sum_fails_on_conflict_and_overflow() {
    let mut state = State::new();
    state.add_constraint(SumConstraint::<i64, _, _, _>::new(1i64, 1i64, 3i64));
    state.propagate_to_fixpoint();
    assert!(!state.ok());

    let mut other = State::new();
    let result: Var<i64> = other.make_var();
    other.add_constraint(SumConstraint::<i64, _, _, _>::new(i64::MAX, 1i64, result));
    other.propagate_to_fixpoint();
    assert!(!other.ok());
}

#[test]
fn sum_over_plain_unsigned_integers() {
    let mut state = State::new();
    let r: Var<usize> = state.make_var();
    state.add_constraint(SumConstraint::<usize, _, _, _>::new(2usize, r, 9usize));
    state.propagate_to_fixpoint();
    assert!(state.ok());
    assert_eq!(state.get_value(r), Some(7));

    let mut failing = State::new();
    let l: Var<usize> = failing.make_var();
    failing.add_constraint(SumConstraint::<usize, _, _, _>::new(l, 9usize, 2usize));
    failing.propagate_to_fixpoint();
    assert!(!failing.ok());
}

#[test]
fn sum_is_unchanged_while_two_sides_are_unknown() {
    let mut state = State::new();
    let l: Var<i64> = state.make_var();
    let r: Var<i64> = state.make_var();
    state.add_constraint(SumConstraint::<i64, _, _, _>::new(l, r, 3i64));
    state.propagate_to_fixpoint();
    assert!(state.ok());
    assert_eq!(state.constraints.len(), 1);
}

#[test]
fn fd_le_narrowing() {
    let mut state = State::new();
    let l = state.store_value(Fd::Values(vec![1, 2, 3, 4, 5]));
    let r = state.store_value(Fd::Values(vec![2, 3]));
    let constraint = FdLessOrEqual::new(l, r);
    let changed = VarMap::new();
    let mut proxy = StateProxy::new(&state.eqs, &changed);
    let verdict = constraint.update(&mut proxy);
    assert_eq!(verdict, ConstraintResult::Unchanged);
    assert_eq!(proxy.get_value(l.var), Some(&Value::Fd(Fd::Values(vec![1, 2, 3]))));
    assert_eq!(proxy.get_value(r.var), Some(&Value::Fd(Fd::Values(vec![2, 3]))));

    state.add_constraint(FdLessOrEqual::new(l, r));
    state.propagate_to_fixpoint();
    assert!(state.ok());
    assert_eq!(state.get_value(l), Some(Fd::Values(vec![1, 2, 3])));
    assert_eq!(state.get_value(r), Some(Fd::Values(vec![2, 3])));
    assert_eq!(state.constraints.len(), 1);
}

#[test]
fn fd_le_narrows_the_right_side() {
    let mut state = State::new();
    let l = state.store_value(Fd::Values(vec![3, 4]));
    let r = state.store_value(Fd::Values(vec![1, 2, 3, 4, 5]));
    state.add_constraint(FdLessOrEqual::new(l, r));
    state.propagate_to_fixpoint();
    assert!(state.ok());
    assert_eq!(state.get_value(l), Some(Fd::Values(vec![3, 4])));
    assert_eq!(state.get_value(r), Some(Fd::Values(vec![3, 4, 5])));
}

#[test]
fn fd_le_with_a_single_on_the_right() {
    let mut state = State::new();
    let l = state.store_value(Fd::Values(vec![1, 2, 3, 4, 5]));
    let r = state.store_value(Fd::Single(2));
    state.add_constraint(FdLessOrEqual::new(l, r));
    state.propagate_to_fixpoint();
    assert!(state.ok());
    assert_eq!(state.get_value(l), Some(Fd::Values(vec![1, 2])));
    assert_eq!(state.get_value(r), Some(Fd::Single(2)));
    assert_eq!(state.constraints.len(), 0);
}

#[test]
fn fd_le_with_a_single_on_the_left() {
    let mut state = State::new();
    let l = state.store_value(Fd::Single(4));
    let r = state.store_value(Fd::Values(vec![1, 2, 3, 4, 5]));
    state.add_constraint(FdLessOrEqual::new(l, r));
    state.propagate_to_fixpoint();
    assert!(state.ok());
    assert_eq!(state.get_value(l), Some(Fd::Single(4)));
    assert_eq!(state.get_value(r), Some(Fd::Values(vec![4, 5])));
    assert_eq!(state.constraints.len(), 0);
}

#[test]
fn fd_le_collapses_to_single() {
    let mut state = State::new();
    let l = state.store_value(Fd::Values(vec![3, 7]));
    let r = state.store_value(Fd::Values(vec![1, 3]));
    state.add_constraint(FdLessOrEqual::new(l, r));
    state.propagate_to_fixpoint();
    assert!(state.ok());
    assert_eq!(state.get_value(l), Some(Fd::Single(3)));
    assert_eq!(state.get_value(r), Some(Fd::Single(3)));
    assert_eq!(state.constraints.len(), 0);
}

#[test]
fn fd_le_fails_when_nothing_fits() {
    let mut state = State::new();
    let l = state.store_value(Fd::Values(vec![5, 6]));
    let r = state.store_value(Fd::Values(vec![1, 2]));
    state.add_constraint(FdLessOrEqual::new(l, r));
    state.propagate_to_fixpoint();
    assert!(!state.ok());
    assert_eq!(state.get_value(l), Some(Fd::Values(vec![5, 6])));

    let mut singles = State::new();
    let a = singles.store_value(Fd::Single(3));
    let b = singles.store_value(Fd::Single(2));
    singles.add_constraint(FdLessOrEqual::new(a, b));
    singles.propagate_to_fixpoint();
    assert!(!singles.ok());

    let mut equal = State::new();
    let c = equal.store_value(Fd::Single(2));
    let d = equal.store_value(Fd::Single(2));
    equal.add_constraint(FdLessOrEqual::new(c, d));
    equal.propagate_to_fixpoint();
    assert!(equal.ok());
    assert_eq!(equal.constraints.len(), 0);
}

#[test]
fn fd_le_waits_for_both_domains() {
    let mut state = State::new();
    let l: Var<Fd> = state.make_var();
    let r = state.store_value(Fd::Values(vec![1, 2]));
    state.add_constraint(FdLessOrEqual::new(l, r));
    state.propagate_to_fixpoint();
    assert!(state.ok());
    assert_eq!(state.constraints.len(), 1);
    assert_eq!(state.get_value(l), None);
}

#[test]
fn fd_le_is_idempotent() {
    let mut state = State::new();
    let l = state.store_value(Fd::Values(vec![1, 2, 3, 4, 5]));
    let r = state.store_value(Fd::Values(vec![2, 3]));
    state.add_constraint(FdLessOrEqual::new(l, r));
    state.propagate_to_fixpoint();
    let constraint = FdLessOrEqual::new(l, r);
    let changed = VarMap::new();
    let mut proxy = StateProxy::new(&state.eqs, &changed);
    assert_eq!(constraint.update(&mut proxy), ConstraintResult::Unchanged);
    assert_eq!(proxy.get_value(l.var), Some(&Value::Fd(Fd::Values(vec![1, 2, 3]))));
    assert_eq!(proxy.get_value(r.var), Some(&Value::Fd(Fd::Values(vec![2, 3]))));
}

#[test]
fn alldiff_propagation() {
    let mut state = State::new();
    let a = state.store_value(Fd::Values(vec![1, 2]));
    let b = state.store_value(Fd::Values(vec![1, 2]));
    let c = state.store_value(Fd::Values(vec![1, 2, 3]));
    state.add_constraint(AllDiffConstraint::new(vec![a, b, c]));
    state.propagate_to_fixpoint();
    assert!(state.ok());
    assert_eq!(state.get_value(c), Some(Fd::Values(vec![1, 2, 3])));
    state.unify(Fd::new_single(1), a);
    state.unify(Fd::new_single(2), b);
    state.propagate_to_fixpoint();
    assert!(state.ok());
    assert_eq!(state.get_value(a), Some(Fd::Single(1)));
    assert_eq!(state.get_value(b), Some(Fd::Single(2)));
    assert_eq!(state.get_value(c), Some(Fd::Single(3)));
    assert_eq!(state.constraints.len(), 0);
}

#[test]
fn alldiff_fails_on_two_equal_singles() {
    let mut state = State::new();
    let a = state.store_value(Fd::Values(vec![1, 2]));
    let b = state.store_value(Fd::Values(vec![1, 2]));
    let c = state.store_value(Fd::Values(vec![1, 2, 3]));
    state.add_constraint(AllDiffConstraint::new(vec![a, b, c]));
    state.unify(Fd::new_single(1), a);
    state.unify(Fd::new_single(1), b);
    state.propagate_to_fixpoint();
    assert!(!state.ok());
    assert_eq!(state.constraints.len(), 0);
}

#[test]
fn alldiff_fails_when_a_domain_runs_empty() {
    let mut state = State::new();
    let a = state.store_value(Fd::Values(vec![1, 2]));
    let b = state.store_value(Fd::Values(vec![1, 2]));
    let c = state.store_value(Fd::Values(vec![1, 2]));
    state.add_constraint(AllDiffConstraint::new(vec![a, b, c]));
    state.unify(Fd::new_single(1), a);
    state.propagate_to_fixpoint();
    assert!(!state.ok());
}

#[test]
fn alldiff_chain_of_singles() {
    let mut state = State::new();
    let a = state.store_value(Fd::Values(vec![1, 2]));
    let b = state.store_value(Fd::Values(vec![2, 3]));
    let c = state.store_value(Fd::Values(vec![3, 4]));
    let d = state.store_value(Fd::Values(vec![4, 5, 6]));
    state.add_constraint(AllDiffConstraint::new(vec![a, b, c, d]));
    state.unify(Fd::new_single(2), a);
    state.propagate_to_fixpoint();
    assert!(state.ok());
    assert_eq!(state.get_value(b), Some(Fd::Single(3)));
    assert_eq!(state.get_value(c), Some(Fd::Single(4)));
    assert_eq!(state.get_value(d), Some(Fd::Values(vec![5, 6])));
    assert_eq!(state.constraints.len(), 1);
    match &state.constraints[0] {
        Propagator::AllDiff(rest) => assert_eq!(rest.fds, vec![d]),
        other => panic!("unexpected constraint {:?}", other),
    }
}

#[test]
fn alldiff_with_an_unbound_variable_stays() {
    let mut state = State::new();
    let a = state.store_value(Fd::Values(vec![1, 2]));
    let b = state.store_value(Fd::Values(vec![1, 2, 3]));
    let c: Var<Fd> = state.make_var();
    state.add_constraint(AllDiffConstraint::new(vec![a, b, c]));
    state.unify(Fd::new_single(1), a);
    state.propagate_to_fixpoint();
    assert!(state.ok());
    assert_eq!(state.get_value(b), Some(Fd::Values(vec![2, 3])));
    assert_eq!(state.get_value(c), None);
    assert_eq!(state.constraints.len(), 1);
    match &state.constraints[0] {
        Propagator::AllDiff(rest) => assert_eq!(rest.fds.len(), 3),
        other => panic!("unexpected constraint {:?}", other),
    }
}

#[test]
fn alldiff_is_unchanged_without_a_changed_single() {
    let mut state = State::new();
    let a = state.store_value(Fd::Single(1));
    let b = state.store_value(Fd::Values(vec![1, 2]));
    let constraint = AllDiffConstraint::new(vec![a, b]);
    let changed = VarMap::new();
    let mut proxy = StateProxy::new(&state.eqs, &changed);
    assert_eq!(constraint.update(&mut proxy), ConstraintResult::Unchanged);
    assert_eq!(proxy.get_value(b.var), Some(&Value::Fd(Fd::Values(vec![1, 2]))));

    let mut marked = VarMap::new();
    marked.set(a.var, VarRef::Exactly(Value::Fd(Fd::Single(1))));
    let mut second = StateProxy::new(&state.eqs, &marked);
    assert_eq!(constraint.update(&mut second), ConstraintResult::Irrelevant);
    assert_eq!(second.get_value(b.var), Some(&Value::Fd(Fd::Single(2))));
}

#[test]
fn fd_usize_from_the_integer() {
    let mut state = State::new();
    let fd = state.store_value(Fd::Values(vec![1, 2, 3]));
    let u = state.store_value(2usize);
    state.add_constraint(FdUsizeConstraint::new(fd, u));
    state.propagate_to_fixpoint();
    assert!(state.ok());
    assert_eq!(state.get_value(fd), Some(Fd::Single(2)));
    assert_eq!(state.constraints.len(), 0);
}

#[test]
fn fd_usize_from_the_domain() {
    let mut state = State::new();
    let fd = state.store_value(Fd::Single(5));
    let u: Var<usize> = state.make_var();
    state.add_constraint(FdUsizeConstraint::new(fd, u));
    state.propagate_to_fixpoint();
    assert!(state.ok());
    assert_eq!(state.get_value(u), Some(5));
    assert_eq!(state.constraints.len(), 0);
}

#[test]
fn fd_usize_waits_and_fails() {
    let mut state = State::new();
    let fd = state.store_value(Fd::Values(vec![1, 2]));
    let u: Var<usize> = state.make_var();
    state.add_constraint(FdUsizeConstraint::new(fd, u));
    state.propagate_to_fixpoint();
    assert!(state.ok());
    assert_eq!(state.constraints.len(), 1);
    assert_eq!(state.get_value(u), None);
    state.unify(7usize, u);
    state.propagate_to_fixpoint();
    assert!(!state.ok());
}

#[test]
fn update_vars_moves_to_representatives() {
    let mut state = State::new();
    let a: Var<Fd> = state.make_var();
    let b: Var<Fd> = state.make_var();
    let u: Var<usize> = state.make_var();
    let w: Var<usize> = state.make_var();
    state.unify_vars(a, b);
    state.unify_vars(w, u);
    let mut constraint = FdUsizeConstraint::new(b, w);
    constraint.update_vars(&state.eqs);
    assert_eq!(constraint.fd, a);
    assert_eq!(constraint.u, u);
    let mut sum = FdSumConstraint::new(b, b, a);
    sum.update_vars(&state.eqs);
    assert_eq!((sum.l, sum.r, sum.result), (a, a, a));
    let mut all = AllDiffConstraint::new(vec![b, a]);
    all.update_vars(&state.eqs);
    assert_eq!(all.fds, vec![a, a]);
}

#[test]
fn relevant_looks_at_the_watched_variables() {
    let mut state = State::new();
    let a: Var<Fd> = state.make_var();
    let b: Var<Fd> = state.make_var();
    let c: Var<Fd> = state.make_var();
    let mut changes = VarMap::new();
    assert!(!FdLessOrEqual::new(a, b).relevant(&changes));
    changes.set(b.var, VarRef::EqualTo(a.var));
    assert!(FdLessOrEqual::new(a, b).relevant(&changes));
    assert!(!FdLessOrEqual::new(a, c).relevant(&changes));
    assert!(FdSumConstraint::new(a, c, b).relevant(&changes));
    assert!(AllDiffConstraint::new(vec![c, b]).relevant(&changes));
    assert!(AllDiffConstraint::new(vec![c, b]).need_update(&changes));
    assert!(!AllDiffConstraint::new(vec![c, a]).need_update(&changes));
}

#[test]
fn constraint_follows_a_merged_variable() {
    let mut state = State::new();
    let first: Var<Fd> = state.make_var();
    let second: Var<Fd> = state.make_var();
    let result: Var<Fd> = state.make_var();
    state.unify_vars(second, first);
    state.add_constraint(FdSumConstraint::new(second, Fd::new_single(4), result));
    state.propagate_to_fixpoint();
    assert!(state.ok());
    assert_eq!(state.constraints.len(), 1);
    match &state.constraints[0] {
        Propagator::FdSum(c) => assert_eq!(c.l, first),
        other => panic!("unexpected constraint {:?}", other),
    }
    state.unify(Fd::new_single(3), first);
    state.propagate_to_fixpoint();
    assert!(state.ok());
    assert_eq!(state.get_value(result), Some(Fd::Single(7)));
    assert_eq!(state.constraints.len(), 0);
}

#[test]
fn propagation_ends_quiet() {
    let mut state = State::new();
    let a = state.store_value(Fd::Values(vec![1, 2, 3, 4, 5, 6]));
    let b = state.store_value(Fd::Values(vec![2, 3, 4]));
    let c = state.store_value(Fd::Values(vec![1, 2, 3]));
    state.add_constraint(FdLessOrEqual::new(a, b));
    state.add_constraint(FdLessOrEqual::new(b, c));
    state.propagate_to_fixpoint();
    assert!(state.ok());
    assert!(state.changed.is_empty());
    assert_eq!(state.settled, state.constraints.len());
    assert_eq!(state.get_value(a), Some(Fd::Values(vec![1, 2, 3])));
    assert_eq!(state.get_value(b), Some(Fd::Values(vec![2, 3])));
    assert_eq!(state.get_value(c), Some(Fd::Values(vec![2, 3])));
    let changed = VarMap::new();
    for p in &state.constraints {
        let mut proxy = StateProxy::new(&state.eqs, &changed);
        assert!(matches!(p.update(&mut proxy), ConstraintResult::Unchanged));
        assert!(!p.relevant(&state.changed));
    }
}

fn candidates(fd: &Fd) -> Vec<usize> {
    match fd {
        Fd::Single(v) => vec![*v],
        Fd::Values(vs) => vs.clone(),
    }
}

#[test]
fn alldiff_keeps_every_solution() {
    let first = vec![
        Fd::Single(2),
        Fd::Values(vec![1, 2]),
        Fd::Values(vec![1, 2, 3, 4]),
        Fd::Values(vec![2, 3, 4]),
    ];
    let mut state = State::new();
    let vars: Vec<Var<Fd>> = first.iter().map(|fd| state.store_value(fd.clone())).collect();
    let constraint = AllDiffConstraint::new(vars.clone());
    let mut marked = VarMap::new();
    marked.set(vars[0].var, VarRef::Exactly(Value::Fd(Fd::Single(2))));
    let mut proxy = StateProxy::new(&state.eqs, &marked);
    let verdict = constraint.update(&mut proxy);
    assert!(matches!(verdict, ConstraintResult::Updated(_)));
    let narrowed: Vec<Fd> = vars
        .iter()
        .map(|v| match proxy.get_value(v.var) {
            Some(Value::Fd(fd)) => fd.clone(),
            other => panic!("unexpected value {:?}", other),
        })
        .collect();
    assert_eq!(
        narrowed,
        vec![Fd::Single(2), Fd::Single(1), Fd::Values(vec![3, 4]), Fd::Values(vec![3, 4])]
    );
    let mut solutions = 0;
    for a in candidates(&first[0]) {
        for b in candidates(&first[1]) {
            for c in candidates(&first[2]) {
                for d in candidates(&first[3]) {
                    let all = [a, b, c, d];
                    let different = (0..4).all(|i| (0..i).all(|j| all[i] != all[j]));
                    if different {
                        solutions += 1;
                        for i in 0..4 {
                            assert!(narrowed[i].contains(all[i]));
                        }
                    }
                }
            }
        }
    }
    assert_eq!(solutions, 2);
}
