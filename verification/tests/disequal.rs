use logic_core::engine::constraint::ConstraintResult;
use logic_core::engine::disequal::Disequal;
use logic_core::engine::propagator::Propagator;
use logic_core::engine::proxy::StateProxy;
use logic_core::engine::state::State;
use logic_core::engine::vars::{TypeTag, Var};
use logic_core::engine::varmap::VarMap;
use logic_core::finitedomain::Fd;

#[test]
fn disequal_structural() {
    let mut state = State::new();
    let x: Var<usize> = state.make_var();
    let y: Var<usize> = state.make_var();
    let p = state.make_var_of((x, 1usize));
    let q = state.make_var_of((y, 2usize));
    state.add_constraint(Disequal::new(p, q));
    assert_eq!(state.constraints.len(), 1);
    state.propagate_to_fixpoint();
    assert!(state.ok());
    assert_eq!(state.constraints.len(), 0);
    assert_eq!(state.follow_id(x.var), x.var);
    assert_eq!(state.follow_id(y.var), y.var);
}

#[test]
fn disequal_deferred() {
    let mut state = State::new();
    let x: Var<usize> = state.make_var();
    let y: Var<usize> = state.make_var();
    state.add_constraint(Disequal::new(x, y));
    state.propagate_to_fixpoint();
    assert!(state.ok());
    assert_eq!(state.constraints.len(), 1);
    assert_eq!(state.follow_id(x.var), x.var);
    assert_eq!(state.follow_id(y.var), y.var);
    state.unify(5usize, x);
    state.propagate_to_fixpoint();
    assert!(state.ok());
    assert_eq!(state.constraints.len(), 1);
    assert_eq!(state.get_value(y), None);
    state.unify(5usize, y);
    state.propagate_to_fixpoint();
    assert!(!state.ok());
    assert_eq!(state.constraints.len(), 0);
}

#[test]
fn disequal_retires_once_the_sides_differ() {
    let mut state = State::new();
    let x: Var<usize> = state.make_var();
    let y: Var<usize> = state.make_var();
    state.add_constraint(Disequal::new(x, y));
    state.unify(5usize, x);
    state.unify(6usize, y);
    state.propagate_to_fixpoint();
    assert!(state.ok());
    assert_eq!(state.constraints.len(), 0);
}

#[test]
fn disequal_test_verdicts() {
    let mut state = State::new();
    let x: Var<usize> = state.make_var();
    let y: Var<usize> = state.make_var();
    let mut constraint = Disequal::new_empty();
    constraint.push(&state, x, y);
    assert_eq!(constraint.pairs, vec![(x.var, y.var, TypeTag::Usize)]);
    let changed = VarMap::new();
    {
        let mut proxy = StateProxy::new(&state.eqs, &changed);
        assert_eq!(constraint.test(&mut proxy), ConstraintResult::Unchanged);
        assert_eq!(proxy.follow_id(y.var), x.var);
    }
    assert_eq!(state.follow_id(y.var), y.var);
    state.unify_vars(x, y);
    {
        let mut proxy = StateProxy::new(&state.eqs, &changed);
        assert_eq!(constraint.test(&mut proxy), ConstraintResult::Failed);
    }
}

#[test]
fn disequal_is_replaced_by_the_merges_of_the_components() {
    let mut state = State::new();
    let x: Var<usize> = state.make_var();
    let y: Var<usize> = state.make_var();
    let p = state.make_var_of((x, 1usize));
    let q = state.make_var_of((y, 1usize));
    state.add_constraint(Disequal::new(p, q));
    state.propagate_to_fixpoint();
    assert!(state.ok());
    assert_eq!(state.constraints.len(), 1);
    match &state.constraints[0] {
        Propagator::Disequal(d) => {
            assert_eq!(d.pairs, vec![(y.var, x.var, TypeTag::Usize)]);
        },
        other => panic!("unexpected constraint {:?}", other),
    }
    state.unify(3usize, x);
    state.propagate_to_fixpoint();
    assert!(state.ok());
    state.unify(3usize, y);
    state.propagate_to_fixpoint();
    assert!(!state.ok());
}

#[test]
fn disequal_over_finite_domains() {
    let mut state = State::new();
    let a = state.store_value(Fd::Values(vec![1, 2]));
    let b = state.store_value(Fd::Values(vec![2, 3]));
    state.add_constraint(Disequal::new(a, b));
    state.propagate_to_fixpoint();
    assert!(state.ok());
    assert_eq!(state.constraints.len(), 1);
    assert_eq!(state.get_value(a), Some(Fd::Values(vec![1, 2])));

    let mut equal = State::new();
    let c = equal.store_value(Fd::Single(2));
    let d = equal.store_value(Fd::Single(2));
    equal.add_constraint(Disequal::new(c, d));
    equal.propagate_to_fixpoint();
    assert!(!equal.ok());

    let mut apart = State::new();
    let e = apart.store_value(Fd::Values(vec![1, 2]));
    let f = apart.store_value(Fd::Values(vec![3, 4]));
    apart.add_constraint(Disequal::new(e, f));
    apart.propagate_to_fixpoint();
    assert!(apart.ok());
    assert_eq!(apart.constraints.len(), 0);
}

#[test]
fn disequal_update_vars_and_relevance() {
    let mut state = State::new();
    let x: Var<usize> = state.make_var();
    let y: Var<usize> = state.make_var();
    let z: Var<usize> = state.make_var();
    let mut constraint = Disequal::new_empty();
    constraint.push(&state, y, z);
    assert!(constraint.relevant_to(y.var));
    assert!(!constraint.relevant_to(x.var));
    assert_eq!(constraint.disequal_update_vars(&state.eqs), ConstraintResult::Unchanged);
    state.unify_vars(x, y);
    assert!(constraint.relevant(&state.changed));
    match constraint.disequal_update_vars(&state.eqs) {
        ConstraintResult::Updated(next) => {
            assert_eq!(next.pairs, vec![(x.var, z.var, TypeTag::Usize)]);
        },
        other => panic!("unexpected verdict {:?}", other),
    }
    constraint.update_vars(&state.eqs);
    assert_eq!(constraint.pairs, vec![(x.var, z.var, TypeTag::Usize)]);
    let mut later = Disequal::new_empty();
    later.push(&state, y, z);
    assert_eq!(later.pairs, vec![(x.var, z.var, TypeTag::Usize)]);
}

#[test]
fn no_retired_constraint_stays_live() {
    let mut state = State::new();
    let a = state.store_value(Fd::new_single(1));
    let b = state.store_value(Fd::new_single(2));
    let c: Var<Fd> = state.make_var();
    let d: Var<Fd> = state.make_var();
    state.add_constraint(logic_core::constraints::FdSumConstraint::new(a, b, c));
    state.add_constraint(logic_core::constraints::FdSumConstraint::new(c, d, d));
    state.propagate_to_fixpoint();
    assert!(state.ok());
    assert_eq!(state.get_value(c), Some(Fd::Single(3)));
    assert_eq!(state.constraints.len(), 1);
    assert!(matches!(state.constraints[0], Propagator::FdSum(_)));
    assert!(state.changed.is_empty());
    assert_eq!(state.settled, 1);
}

#[test]
fn disequal_between_plain_variables_ignores_other_cells() {
    let mut state = State::new();
    let x: Var<usize> = state.make_var();
    let y: Var<usize> = state.make_var();
    let mut constraint = Disequal::new_empty();
    constraint.push(&state, x, y);
    let changed = VarMap::new();
    {
        let mut proxy = StateProxy::new(&state.eqs, &changed);
        assert_eq!(constraint.test(&mut proxy), ConstraintResult::Unchanged);
    }
    let z: Var<usize> = state.make_var();
    let w: Var<usize> = state.make_var();
    state.unify(9usize, z);
    state.unify_vars(z, w);
    assert!(state.ok());
    {
        let mut proxy = StateProxy::new(&state.eqs, &changed);
        assert_eq!(constraint.test(&mut proxy), ConstraintResult::Unchanged);
    }
    state.unify(5usize, x);
    {
        let mut proxy = StateProxy::new(&state.eqs, &changed);
        assert_eq!(constraint.test(&mut proxy), ConstraintResult::Unchanged);
    }
    state.unify(6usize, y);
    {
        let mut proxy = StateProxy::new(&state.eqs, &changed);
        assert_eq!(constraint.test(&mut proxy), ConstraintResult::Irrelevant);
    }
}

#[test]
fn disequal_between_terms_depends_on_nested_variables() {
    let mut state = State::new();
    let whole: Var<logic_core::list::List<usize>> = state.make_var();
    let head: Var<usize> = state.make_var();
    let tail: Var<logic_core::list::List<usize>> = state.make_var();
    let cell = state.store_value(logic_core::list::List::Cons(head, tail));
    state.add_constraint(Disequal::new(whole, cell));
    state.propagate_to_fixpoint();
    assert!(state.ok());
    assert_eq!(state.constraints.len(), 1);
    let watching = match &state.constraints[0] {
        Propagator::Disequal(d) => Disequal { pairs: d.pairs.clone() },
        other => panic!("unexpected constraint {:?}", other),
    };
    let changed = VarMap::new();
    {
        let mut proxy = StateProxy::new(&state.eqs, &changed);
        assert_eq!(watching.test(&mut proxy), ConstraintResult::Unchanged);
    }
    state.unify_vars(tail, whole);
    assert!(state.ok());
    assert_eq!(state.follow_id(tail.var), whole.var);
    {
        let mut proxy = StateProxy::new(&state.eqs, &changed);
        assert_eq!(watching.test(&mut proxy), ConstraintResult::Irrelevant);
    }
}
