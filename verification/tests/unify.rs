use logic_core::engine::proxy::StateProxy;
use logic_core::engine::state::State;
use logic_core::engine::tovar::__;
use logic_core::engine::varmap::VarMap;
use logic_core::engine::vars::{TypeList, TypeTag, UntypedVar, Value, Var, VarRef};
use logic_core::engine::wrapper::VarWrapper;
use logic_core::finitedomain::Fd;

#[test]
fn new_state_is_empty_and_ok() {
    let state = State::new();
    assert!(state.ok());
    assert_eq!(state.len(), 0);
    assert!(!state.contains(UntypedVar { id: 0 }));
}

#[test]
fn make_var_gives_fresh_unbound_variables() {
    let mut state = State::new();
    let a: Var<usize> = state.make_var();
    let b: Var<usize> = state.make_var();
    assert_ne!(a, b);
    assert_eq!(a.var.id, 0);
    assert_eq!(b.var.id, 1);
    assert_eq!(state.len(), 2);
    assert_eq!(state.get_value(a), None);
    assert_eq!(state.follow_id(a.var), a.var);
}

#[test]
fn store_value_binds() {
    let mut state = State::new();
    let a = state.store_value(5usize);
    let b = state.store_value(true);
    let c = state.store_value('x');
    let d = state.store_value(-3i64);
    let e = state.store_value(());
    assert_eq!(state.get_value(a), Some(5));
    assert_eq!(state.get_value(b), Some(true));
    assert_eq!(state.get_value(c), Some('x'));
    assert_eq!(state.get_value(d), Some(-3));
    assert_eq!(state.get_value(e), Some(()));
}

#[test]
fn get_value_checks_the_type() {
    let mut state = State::new();
    let a = state.store_value(5usize);
    let wrong: Var<bool> = Var::new(a.var);
    assert_eq!(state.get_value(wrong), None);
    let unknown: Var<usize> = Var::new(UntypedVar { id: 99 });
    assert_eq!(state.get_value(unknown), None);
}

#[test]
fn make_var_of_passes_variables_through() {
    let mut state = State::new();
    let a: Var<usize> = state.make_var();
    let same = state.make_var_of(a);
    assert_eq!(same, a);
    assert_eq!(state.len(), 1);
    let stored = state.make_var_of(4usize);
    assert_eq!(state.get_value(stored), Some(4));
    assert_eq!(state.len(), 2);
    let ignored = state.make_var_of(__::<usize>());
    assert_eq!(state.get_value(ignored), None);
    assert_eq!(state.len(), 3);
    let again = state.make_var_of(__::<usize>());
    assert_ne!(again, ignored);
}

#[test]
fn unify_two_free_variables_lower_id_wins() {
    let mut state = State::new();
    let a: Var<usize> = state.make_var();
    let b: Var<usize> = state.make_var();
    state.unify_vars(b, a);
    assert!(state.ok());
    assert_eq!(state.follow_id(b.var), a.var);
    assert_eq!(state.follow_id(a.var), a.var);
    state.unify(3usize, b);
    assert_eq!(state.get_value(a), Some(3));
    assert_eq!(state.get_value(b), Some(3));
}

#[test]
fn unify_is_symmetric() {
    let mut one = State::new();
    let a: Var<usize> = one.make_var();
    let b: Var<usize> = one.make_var();
    let c = one.store_value(8usize);
    let mut two = one.fork();
    one.unify_vars(a, b);
    two.unify_vars(b, a);
    assert_eq!(one.eqs.cells, two.eqs.cells);
    one.unify_vars(c, a);
    two.unify_vars(a, c);
    assert_eq!(one.eqs.cells, two.eqs.cells);
    assert_eq!(one.ok(), two.ok());
    assert_eq!(one.get_value(b), Some(8));
    assert_eq!(two.get_value(b), Some(8));
}

#[test]
fn unify_free_with_bound_merges_into_the_bound_one() {
    let mut state = State::new();
    let a: Var<usize> = state.make_var();
    let b = state.store_value(9usize);
    state.unify_vars(a, b);
    assert!(state.ok());
    assert_eq!(state.follow_id(a.var), b.var);
    assert_eq!(state.get_value(a), Some(9));
}

#[test]
fn unify_conflicting_values_fails() {
    let mut state = State::new();
    let a = state.store_value(1usize);
    let b = state.store_value(2usize);
    state.unify_vars(a, b);
    assert!(!state.ok());
}

#[test]
fn unify_equal_values_changes_nothing() {
    let mut state = State::new();
    let a = state.store_value(1usize);
    let b = state.store_value(1usize);
    let before = state.fork();
    state.unify_vars(a, b);
    assert!(state.ok());
    assert_eq!(state.eqs.cells, before.eqs.cells);
    assert!(state.changed.is_empty());
}

#[test]
fn unify_variables_of_different_types_fails() {
    let mut state = State::new();
    let a: Var<usize> = state.make_var();
    let b: Var<bool> = state.make_var();
    state.unify_vars(a, Var::new(b.var));
    assert!(!state.ok());
}

#[test]
fn unify_with_a_value_of_another_type_fails() {
    let mut state = State::new();
    let a: Var<usize> = state.make_var();
    state.unify(true, Var::new(a.var));
    assert!(!state.ok());
}

#[test]
fn unify_with_an_unknown_variable_fails() {
    let mut state = State::new();
    let a: Var<usize> = state.make_var();
    state.unify_vars(a, Var::new(UntypedVar { id: 7 }));
    assert!(!state.ok());
}

#[test]
fn a_failed_state_stays_as_it_is() {
    let mut state = State::new();
    let a = state.store_value(1usize);
    let b = state.store_value(2usize);
    let c: Var<usize> = state.make_var();
    state.unify_vars(a, b);
    assert!(!state.ok());
    state.unify(5usize, c);
    assert_eq!(state.get_value(c), None);
    state.unify_vars(c, a);
    assert_eq!(state.follow_id(c.var), c.var);
}

#[test]
fn unify_finite_domains_narrows_both() {
    let mut state = State::new();
    let a = state.store_value(Fd::Values(vec![1, 2, 3]));
    let b = state.store_value(Fd::Values(vec![2, 3, 4]));
    state.unify_vars(a, b);
    assert!(state.ok());
    assert_eq!(state.get_value(a), Some(Fd::Values(vec![2, 3])));
    assert_eq!(state.get_value(b), Some(Fd::Values(vec![2, 3])));
    assert!(state.changed.contains_key(&a.var));
    assert!(state.changed.contains_key(&b.var));
}

#[test]
fn unify_finite_domains_without_common_value_fails() {
    let mut state = State::new();
    let a = state.store_value(Fd::Values(vec![1, 2]));
    let b = state.store_value(Fd::Values(vec![3, 4]));
    state.unify_vars(a, b);
    assert!(!state.ok());
}

#[test]
fn unify_monotone_narrowing_first_gives_less() {
    let mut wide = State::new();
    let a = wide.store_value(Fd::Values(vec![1, 2, 3, 4]));
    let b = wide.store_value(Fd::Values(vec![2, 3, 4, 5]));
    let mut narrow = wide.fork();
    narrow.unify(Fd::Values(vec![1, 2, 3]), a);
    wide.unify_vars(a, b);
    narrow.unify_vars(a, b);
    assert_eq!(wide.get_value(a), Some(Fd::Values(vec![2, 3, 4])));
    assert_eq!(narrow.get_value(a), Some(Fd::Values(vec![2, 3])));
    assert_eq!(narrow.get_value(b), Some(Fd::Values(vec![2, 3])));
}

#[test]
fn unify_pairs_componentwise() {
    let mut state = State::new();
    let x: Var<usize> = state.make_var();
    let y: Var<usize> = state.make_var();
    let p = state.make_var_of((x, 1usize));
    let q = state.make_var_of((2usize, y));
    state.unify_vars(p, q);
    assert!(state.ok());
    assert_eq!(state.get_value(x), Some(2));
    assert_eq!(state.get_value(y), Some(1));
}

#[test]
fn unify_pairs_with_different_components_fails() {
    let mut state = State::new();
    let p = state.make_var_of((1usize, 1usize));
    let q = state.make_var_of((1usize, 2usize));
    state.unify_vars(p, q);
    assert!(!state.ok());
}

#[test]
fn unify_triples_componentwise() {
    let mut state = State::new();
    let x: Var<bool> = state.make_var();
    let p = state.make_var_of((1usize, x, 'c'));
    let q = state.make_var_of((1usize, true, 'c'));
    state.unify_vars(p, q);
    assert!(state.ok());
    assert_eq!(state.get_value(x), Some(true));
    let (first, second, third) = state.get_value(p).unwrap();
    assert_eq!(state.get_value(first), Some(1));
    assert_eq!(second, x);
    assert_eq!(state.get_value(third), Some('c'));
}

#[test]
fn unify_options() {
    let mut state = State::new();
    let x: Var<usize> = state.make_var();
    let some_x = state.make_var_of(Some(x));
    let some_3 = state.make_var_of(Some(3usize));
    let none = state.make_var_of(None::<usize>);
    let other_none = state.make_var_of(None::<usize>);
    state.unify_vars(none, other_none);
    assert!(state.ok());
    state.unify_vars(some_x, some_3);
    assert!(state.ok());
    assert_eq!(state.get_value(x), Some(3));
    state.unify_vars(some_x, none);
    assert!(!state.ok());
}

#[test]
fn unify_results() {
    let mut state = State::new();
    let x: Var<usize> = state.make_var();
    let ok_x = state.make_var_of(Ok::<Var<usize>, bool>(x));
    let ok_4 = state.make_var_of(Ok::<usize, bool>(4));
    let err = state.make_var_of(Err::<usize, bool>(true));
    let other_err = state.make_var_of(Err::<usize, bool>(true));
    state.unify_vars(err, other_err);
    assert!(state.ok());
    state.unify_vars(ok_x, ok_4);
    assert!(state.ok());
    assert_eq!(state.get_value(x), Some(4));
    state.unify_vars(ok_x, err);
    assert!(!state.ok());
}

#[test]
fn occurs_check_rejects_a_cyclic_binding() {
    let mut state = State::new();
    let x: Var<Option<Var<usize>>> = state.make_var();
    let inner: Var<usize> = state.make_var();
    let holder = state.make_var_of(Some(inner));
    state.unify_vars(x, holder);
    assert!(state.ok());

    let mut cyclic = State::new();
    let tail: Var<(Var<usize>, Var<usize>)> = cyclic.make_var();
    let head: Var<usize> = cyclic.make_var();
    let pair = cyclic.make_var_of((tail, head));
    assert!(cyclic.ok());
    let proxy_changed = VarMap::new();
    let proxy = StateProxy::new(&cyclic.eqs, &proxy_changed);
    assert!(proxy.occurs_check(tail.var, pair.var));
    assert!(proxy.occurs_check(pair.var, pair.var));
    assert!(!proxy.occurs_check(head.var, tail.var));
    assert!(proxy.occurs_below(head.var, tail.var, &Vec::new(), 0));
}

#[test]
fn binding_a_variable_into_its_own_term_fails() {
    let mut state = State::new();
    let x: Var<usize> = state.make_var();
    let holder = state.make_var_of((x, 1usize));
    let alias: Var<(Var<usize>, Var<usize>)> = Var::new(x.var);
    state.unify_vars(alias, holder);
    assert!(!state.ok());
}

#[test]
fn following_merges_ends_at_a_representative() {
    let mut state = State::new();
    let vars: Vec<Var<usize>> = (0..6).map(|_| state.make_var()).collect();
    let mut i = vars.len() - 1;
    while i > 0 {
        state.unify_vars(vars[i], vars[i - 1]);
        i -= 1;
    }
    for v in &vars {
        assert_eq!(state.follow_id(v.var), vars[0].var);
    }
    state.unify(11usize, vars[5]);
    for v in &vars {
        assert_eq!(state.get_value(*v), Some(11));
    }
    assert_eq!(state.eqs.get_ref(vars[0].var), Some(&VarRef::Exactly(Value::Usize(11))));
    assert_eq!(state.eqs.get_ref(vars[3].var), Some(&VarRef::EqualTo(vars[2].var)));
}

#[test]
fn update_var_rewrites_to_the_representative() {
    let mut state = State::new();
    let a: Var<usize> = state.make_var();
    let b: Var<usize> = state.make_var();
    state.unify_vars(a, b);
    let mut x = b.var;
    state.update_var(&mut x);
    assert_eq!(x, a.var);
    let mut unknown = UntypedVar { id: 50 };
    state.update_var(&mut unknown);
    assert_eq!(unknown, UntypedVar { id: 50 });
}

#[test]
fn fork_gives_an_independent_state() {
    let mut state = State::new();
    let a: Var<usize> = state.make_var();
    let mut branch = state.fork();
    branch.unify(1usize, a);
    state.unify(2usize, a);
    assert_eq!(branch.get_value(a), Some(1));
    assert_eq!(state.get_value(a), Some(2));
    assert!(branch.ok() && state.ok());
}

#[test]
fn scratch_state_leaves_the_parent_alone() {
    let mut state = State::new();
    let a: Var<usize> = state.make_var();
    let b = state.store_value(Fd::Values(vec![1, 2, 3]));
    let changed = VarMap::new();
    let mut proxy = StateProxy::new(&state.eqs, &changed);
    proxy.unify(Value::Usize(4), a.var);
    proxy.overwrite_var(b.var, Value::Fd(Fd::Single(2)));
    assert!(proxy.ok());
    assert_eq!(proxy.get_value(a.var), Some(&Value::Usize(4)));
    assert_eq!(proxy.get_value(b.var), Some(&Value::Fd(Fd::Single(2))));
    assert_eq!(proxy.get_changed_value(a.var), None);
    assert_eq!(proxy.written(), 2);
    assert_eq!(state.get_value(a), None);
    assert_eq!(state.get_value(b), Some(Fd::Values(vec![1, 2, 3])));
}

#[test]
fn get_changed_value_needs_a_changed_variable() {
    let mut state = State::new();
    let a = state.store_value(3usize);
    let b = state.store_value(4usize);
    let mut changed = VarMap::new();
    changed.set(a.var, VarRef::Exactly(Value::Usize(3)));
    let proxy = StateProxy::new(&state.eqs, &changed);
    assert_eq!(proxy.get_changed_value(a.var), Some(&Value::Usize(3)));
    assert_eq!(proxy.get_changed_value(b.var), None);
}

#[test]
fn var_iter_lists_the_variables_of_a_value() {
    let x = UntypedVar { id: 3 };
    let y = UntypedVar { id: 5 };
    assert_eq!(Value::Res(Ok(x)).var_iter(), Some(vec![x]));
    assert_eq!(Value::Res(Err(y)).var_iter(), Some(vec![y]));
    assert_eq!(Value::Opt(Some(y)).var_iter(), Some(vec![y]));
    assert_eq!(Value::Opt(None).var_iter(), None);
    assert_eq!(Value::Tuple(vec![x, y]).var_iter(), Some(vec![x, y]));
    assert_eq!(Value::Usize(1).var_iter(), None);
    assert_eq!(Value::Fd(Fd::Single(1)).var_iter(), None);
}

#[test]
fn can_contain_type_descends_through_the_type() {
    let pair = <(Var<usize>, Var<Option<Var<bool>>>)>::type_tag();
    assert!(pair.can_contain_type(&TypeList::Nil, &TypeTag::Bool));
    assert!(pair.can_contain_type(&TypeList::Nil, &TypeTag::Usize));
    assert!(pair.can_contain_type(&TypeList::Nil, &pair));
    assert!(pair.can_contain_type(&TypeList::Nil, &TypeTag::Opt(Box::new(TypeTag::Bool))));
    assert!(!pair.can_contain_type(&TypeList::Nil, &TypeTag::Char));
    assert!(!TypeTag::Usize.can_contain_type(&TypeList::Nil, &TypeTag::Bool));
    let visited = TypeList::Pair(&pair, &TypeList::Nil);
    assert!(!pair.can_contain_type(&visited, &TypeTag::Bool));
    assert!(!pair.can_contain_type(&visited, &pair));
    assert!(visited.contains_type(&pair));
    assert!(!visited.contains_type(&TypeTag::Bool));
}

#[test]
fn type_tags_of_structured_types() {
    assert_eq!(<Option<Var<usize>>>::type_tag(), TypeTag::Opt(Box::new(TypeTag::Usize)));
    assert_eq!(
        <Result<Var<usize>, Var<bool>>>::type_tag(),
        TypeTag::Res(Box::new(TypeTag::Usize), Box::new(TypeTag::Bool))
    );
    assert_eq!(
        <(Var<usize>, Var<Fd>)>::type_tag(),
        TypeTag::Tuple(
            Box::new(TypeTag::Usize),
            Box::new(TypeTag::Tuple(Box::new(TypeTag::Fd), Box::new(TypeTag::Unit)))
        )
    );
    assert!(TypeTag::Fd.same(&TypeTag::Fd));
    assert!(!TypeTag::Fd.same(&TypeTag::Usize));
}

#[test]
fn var_map_keeps_one_entry_per_variable_in_order() {
    let mut map = VarMap::new();
    assert!(map.is_empty());
    let a = UntypedVar { id: 4 };
    let b = UntypedVar { id: 1 };
    map.set(a, VarRef::EqualTo(b));
    map.set(b, VarRef::Exactly(Value::Bool(true)));
    map.set(a, VarRef::Exactly(Value::Usize(2)));
    assert_eq!(map.len(), 2);
    assert_eq!(map.keys, vec![b, a]);
    assert_eq!(map.get(&a), Some(&VarRef::Exactly(Value::Usize(2))));
    assert_eq!(map.get(&b), Some(&VarRef::Exactly(Value::Bool(true))));
    assert_eq!(map.get(&UntypedVar { id: 2 }), None);
    assert!(map.contains_key(&a));
    assert!(!map.contains_key(&UntypedVar { id: 0 }));
    assert_eq!(map.index_of(&a), Some(1));
}

#[test]
fn strings_are_compared_by_equality() {
    let mut state = State::new();
    let a = state.store_value(String::from("left"));
    let b = state.store_value(String::from("left"));
    let c = state.store_value(String::from("right"));
    let free: Var<String> = state.make_var();
    state.unify_vars(a, b);
    assert!(state.ok());
    state.unify_vars(free, c);
    assert_eq!(state.get_value(free), Some(String::from("right")));
    state.unify_vars(a, c);
    assert!(!state.ok());
}

#[test]
fn unify_larger_tuples_componentwise() {
    let mut state = State::new();
    let x: Var<usize> = state.make_var();
    let y: Var<char> = state.make_var();
    let four = state.make_var_of((1usize, x, true, 'a'));
    let other_four = state.make_var_of((1usize, 2usize, true, y));
    state.unify_vars(four, other_four);
    assert!(state.ok());
    assert_eq!(state.get_value(x), Some(2));
    assert_eq!(state.get_value(y), Some('a'));
    let five = state.make_var_of((x, y, 3i64, (), String::from("s")));
    let other_five = state.make_var_of((2usize, 'a', 3i64, (), String::from("t")));
    state.unify_vars(five, other_five);
    assert!(!state.ok());
    let (first, _, _, _, last) = state.get_value(five).unwrap();
    assert_eq!(first, x);
    assert_eq!(state.get_value(last), Some(String::from("s")));
}

#[test]
fn placeholders_are_never_equal() {
    let a = __::<usize>();
    let b = a;
    assert!(a != b);
    assert!(!(a == a));
}

#[test]
fn get_value_checks_the_type_tag_of_structured_values() {
    let mut state = State::new();
    let inner = state.store_value(true);
    let holder = state.make_var_of(Some(inner));
    assert_eq!(state.get_value(holder), Some(Some(inner)));
    let wrong: Var<Option<Var<usize>>> = Var::new(holder.var);
    assert_eq!(state.get_value(wrong), None);
}

#[test]
fn typed_handles_give_up_their_identifier() {
    let var: Var<usize> = Var::new(UntypedVar { id: 3 });
    assert_eq!(var.untyped(), UntypedVar { id: 3 });
    assert_eq!(*var.untyped_ref(), UntypedVar { id: 3 });
    assert_eq!(var.clone(), var);
}

#[test]
fn vectors_become_lists() {
    let mut state = State::new();
    let x: Var<usize> = state.make_var();
    let left = state.make_var_of(vec![1usize, 2, 3]);
    assert_eq!(logic_core::list::List::<usize>::type_tag(), TypeTag::List(Box::new(TypeTag::Usize)));
    let mut walk = left;
    let mut seen = Vec::new();
    loop {
        match state.get_value(walk) {
            Some(logic_core::list::List::Cons(head, tail)) => {
                seen.push(state.get_value(head).unwrap());
                walk = tail;
            },
            Some(logic_core::list::List::Nil) => break,
            None => panic!("open list"),
        }
    }
    assert_eq!(seen, vec![1, 2, 3]);
    let open = state.make_var_of(vec![x]);
    match state.get_value(open) {
        Some(logic_core::list::List::Cons(head, _)) => assert_eq!(head, x),
        other => panic!("unexpected list {:?}", other),
    }
}

#[test]
fn unify_lists_head_and_tail() {
    let mut state = State::new();
    let x: Var<usize> = state.make_var();
    let y: Var<usize> = state.make_var();
    let two = state.make_var_of(2usize);
    let one = state.make_var_of(1usize);
    let left = state.make_var_of(vec![x, two]);
    let right = state.make_var_of(vec![one, y]);
    state.unify_vars(left, right);
    assert!(state.ok());
    assert_eq!(state.get_value(x), Some(1));
    assert_eq!(state.get_value(y), Some(2));
    let shorter = state.make_var_of(vec![1usize]);
    state.unify_vars(left, shorter);
    assert!(!state.ok());

    let mut other = State::new();
    let empty = other.make_var_of(Vec::<usize>::new());
    let also_empty = other.make_var_of(Vec::<usize>::new());
    other.unify_vars(empty, also_empty);
    assert!(other.ok());
    let tail: Var<logic_core::list::List<usize>> = other.make_var();
    let head = other.make_var_of(7usize);
    let cell = other.store_value(logic_core::list::List::Cons(head, tail));
    let full = other.make_var_of(vec![7usize, 8]);
    other.unify_vars(cell, full);
    assert!(other.ok());
    match other.get_value(tail) {
        Some(logic_core::list::List::Cons(second, _)) => assert_eq!(other.get_value(second), Some(8)),
        other_value => panic!("unexpected tail {:?}", other_value),
    }
}

#[test]
fn changes_of_a_scratch_state_can_be_committed_or_dropped() {
    let mut state = State::new();
    let a: Var<usize> = state.make_var();
    let b = state.store_value(Fd::Values(vec![1, 2, 3]));
    {
        let mut dropped = StateProxy::new(&state.eqs, &state.changed);
        dropped.unify(Value::Usize(9), a.var);
        assert_eq!(dropped.get_value(a.var), Some(&Value::Usize(9)));
    }
    assert_eq!(state.get_value(a), None);
    assert!(state.changed.is_empty());
    let mut kept = StateProxy::new(&state.eqs, &state.changed);
    kept.unify(Value::Usize(4), a.var);
    kept.overwrite_var(b.var, Value::Fd(Fd::Values(vec![1, 2, 3])));
    let changes = kept.into_changes();
    assert!(changes.ok);
    state.commit(changes);
    assert_eq!(state.get_value(a), Some(4));
    assert_eq!(state.get_value(b), Some(Fd::Values(vec![1, 2, 3])));
    assert!(state.changed.contains_key(&a.var));
    assert!(!state.changed.contains_key(&b.var));

    let mut failing = StateProxy::new(&state.eqs, &state.changed);
    failing.unify(Value::Usize(5), a.var);
    assert!(!failing.ok());
    let changes = failing.into_changes();
    state.commit(changes);
    assert!(!state.ok());
    assert_eq!(state.get_value(a), Some(4));
}

#[test]
fn rounds_run_the_constraints_in_order() {
    let mut state = State::new();
    let a = state.store_value(Fd::new_single(1));
    let b: Var<Fd> = state.make_var();
    let c: Var<Fd> = state.make_var();
    state.add_constraint(logic_core::constraints::FdSumConstraint::new(b, a, c));
    state.add_constraint(logic_core::constraints::FdSumConstraint::new(a, a, b));
    assert_eq!(state.settled, 0);
    state.round();
    assert_eq!(state.settled, 1);
    assert_eq!(state.constraints.len(), 1);
    assert_eq!(state.get_value(b), Some(Fd::Single(2)));
    assert_eq!(state.get_value(c), None);
    assert!(state.changed.contains_key(&b.var));
    state.round();
    assert_eq!(state.constraints.len(), 0);
    assert_eq!(state.get_value(c), Some(Fd::Single(3)));
    assert!(state.changed.contains_key(&c.var));
    assert!(!state.changed.contains_key(&b.var));
    state.round();
    assert!(state.changed.is_empty());
}

#[test]
fn a_failed_state_runs_no_constraint() {
    let mut state = State::new();
    let a = state.store_value(Fd::new_single(1));
    let b: Var<Fd> = state.make_var();
    state.fail();
    state.add_constraint(logic_core::constraints::FdSumConstraint::new(a, a, b));
    state.propagate_to_fixpoint();
    assert!(!state.ok());
    assert_eq!(state.get_value(b), None);
    assert_eq!(state.constraints.len(), 1);
}

#[test]
fn a_list_cannot_equal_its_own_tail() {
    let mut state = State::new();
    let open: Var<logic_core::list::List<usize>> = state.make_var();
    let third = state.make_var_of(3usize);
    let inner = state.store_value(logic_core::list::List::Cons(third, open));
    let first = state.make_var_of(1usize);
    let outer = state.store_value(logic_core::list::List::Cons(first, inner));
    let head: Var<usize> = state.make_var();
    let longer = state.store_value(logic_core::list::List::Cons(head, outer));
    let before = state.len();
    state.unify_vars(outer, longer);
    assert!(!state.ok());
    assert_eq!(state.len(), before);
}

#[test]
fn long_lists_unify_to_their_end() {
    let mut state = State::new();
    let numbers: Vec<usize> = (0..40).collect();
    let left = state.make_var_of(numbers.clone());
    let holes: Vec<Var<usize>> = (0..40).map(|_| state.make_var()).collect();
    let right = state.make_var_of(holes.clone());
    state.unify_vars(left, right);
    assert!(state.ok());
    for (i, hole) in holes.iter().enumerate() {
        assert_eq!(state.get_value(*hole), Some(i));
    }
    let mut other: Vec<usize> = (0..40).collect();
    other[39] = 100;
    let different = state.make_var_of(other);
    state.unify_vars(right, different);
    assert!(!state.ok());
}

#[test]
fn a_shared_part_is_no_cycle() {
    let mut state = State::new();
    let shared = state.make_var_of((1usize, true));
    let left = state.make_var_of((shared, shared));
    let hole: Var<(Var<usize>, Var<bool>)> = state.make_var();
    let right = state.make_var_of((hole, shared));
    state.unify_vars(left, right);
    assert!(state.ok());
    assert_eq!(state.follow_id(hole.var), shared.var);
    let twin = state.make_var_of((1usize, true));
    let again = state.make_var_of((twin, shared));
    state.unify_vars(left, again);
    assert!(state.ok());
}
