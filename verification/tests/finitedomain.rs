use logic_core::finitedomain::Fd;
use std::collections::HashSet;

fn set_of(values: &[usize]) -> HashSet<usize> {
    let mut set = HashSet::new();
    for v in values {
        set.insert(*v);
    }
    set
}

#[test]
fn new_single_is_single() {
    assert_eq!(Fd::new_single(7), Fd::Single(7));
    assert_eq!(Fd::new_single(7).single_value(), Some(7));
    assert!(Fd::new_single(7).is_valid());
}

#[test]
fn single_value_of_enumeration_is_none() {
    assert_eq!(Fd::Values(vec![1, 2, 3]).single_value(), None);
}

#[test]
fn error_sentinel_is_invalid() {
    assert!(!Fd::err().is_valid());
    assert_eq!(Fd::err(), Fd::Values(vec![]));
    assert_eq!(Fd::err().single_value(), None);
}

#[test]
fn enumeration_is_valid() {
    assert!(Fd::Values(vec![1, 2]).is_valid());
}

#[test]
fn well_formedness_asks_for_order_and_two_entries() {
    assert!(Fd::Single(0).is_well_formed());
    assert!(Fd::Values(vec![1, 2]).is_well_formed());
    assert!(Fd::Values(vec![0, 5, 9]).is_well_formed());
    assert!(!Fd::Values(vec![]).is_well_formed());
    assert!(!Fd::Values(vec![4]).is_well_formed());
    assert!(!Fd::Values(vec![2, 2]).is_well_formed());
    assert!(!Fd::Values(vec![3, 1]).is_well_formed());
}

#[test]
fn collapse_turns_one_entry_into_single() {
    assert_eq!(Fd::Values(vec![4]).collapse(), Fd::Single(4));
    assert_eq!(Fd::Values(vec![4, 5]).collapse(), Fd::Values(vec![4, 5]));
    assert_eq!(Fd::Values(vec![]).collapse(), Fd::Values(vec![]));
    assert_eq!(Fd::Single(1).collapse(), Fd::Single(1));
}

#[test]
fn contains_finds_candidates() {
    assert!(Fd::Single(3).contains(3));
    assert!(!Fd::Single(3).contains(4));
    assert!(Fd::Values(vec![1, 4, 6]).contains(4));
    assert!(!Fd::Values(vec![1, 4, 6]).contains(5));
}

#[test]
fn remove_values_keeps_the_rest() {
    let mut fd = Fd::Values(vec![1, 2, 3, 4, 5]);
    fd.remove_values(&set_of(&[2, 4]));
    assert_eq!(fd, Fd::Values(vec![1, 3, 5]));
}

#[test]
fn remove_values_collapses_to_single() {
    let mut fd = Fd::Values(vec![1, 2, 3]);
    fd.remove_values(&set_of(&[1, 2]));
    assert_eq!(fd, Fd::Single(3));
}

#[test]
fn remove_values_marks_invalid_when_none_remain() {
    let mut fd = Fd::Values(vec![1, 2]);
    fd.remove_values(&set_of(&[1, 2, 9]));
    assert!(!fd.is_valid());
    assert_eq!(fd, Fd::err());
}

#[test]
fn remove_values_leaves_single_alone() {
    let mut fd = Fd::Single(2);
    fd.remove_values(&set_of(&[2]));
    assert_eq!(fd, Fd::Single(2));
}

#[test]
fn remove_nothing_changes_nothing() {
    let mut fd = Fd::Values(vec![3, 8]);
    fd.remove_values(&set_of(&[]));
    assert_eq!(fd, Fd::Values(vec![3, 8]));
}

#[test]
fn intersect_of_enumerations() {
    let a = Fd::Values(vec![1, 2, 3, 5, 8]);
    let b = Fd::Values(vec![2, 3, 4, 8, 9]);
    assert_eq!(a.intersect(&b), Fd::Values(vec![2, 3, 8]));
    assert_eq!(b.intersect(&a), Fd::Values(vec![2, 3, 8]));
}

#[test]
fn intersect_collapses_and_fails() {
    let a = Fd::Values(vec![1, 2, 3]);
    assert_eq!(a.intersect(&Fd::Values(vec![3, 4])), Fd::Single(3));
    assert_eq!(a.intersect(&Fd::Values(vec![4, 5])), Fd::err());
    assert_eq!(a.intersect(&Fd::Single(2)), Fd::Single(2));
    assert_eq!(Fd::Single(2).intersect(&a), Fd::Single(2));
    assert_eq!(Fd::Single(7).intersect(&a), Fd::err());
    assert_eq!(Fd::Single(7).intersect(&Fd::Single(7)), Fd::Single(7));
    assert_eq!(Fd::Single(7).intersect(&Fd::Single(8)), Fd::err());
}

#[test]
fn intersect_with_itself_is_itself() {
    let a = Fd::Values(vec![1, 4, 9]);
    assert_eq!(a.intersect(&a), a);
}

#[test]
fn same_compares_domains() {
    assert!(Fd::Values(vec![1, 2]).same(&Fd::Values(vec![1, 2])));
    assert!(!Fd::Values(vec![1, 2]).same(&Fd::Values(vec![1, 3])));
    assert!(!Fd::Values(vec![1, 2]).same(&Fd::Values(vec![1, 2, 3])));
    assert!(!Fd::Single(1).same(&Fd::Values(vec![1, 2])));
    assert!(Fd::Single(1).same(&Fd::Single(1)));
}

#[test]
fn clone_gives_the_same_domain() {
    let a = Fd::Values(vec![2, 5]);
    assert_eq!(a.clone(), a);
    assert_eq!(Fd::Single(9).clone(), Fd::Single(9));
}
