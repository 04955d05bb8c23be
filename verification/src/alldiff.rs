//! The constraint that a list of finite domains take pairwise different
//! values.
//!
//! The constraint works on one domain per listed variable. A domain that is
//! down to one value is resolved: its value is removed from the other domains
//! and the domain leaves the working list. This is repeated until no domain
//! is down to one value.

use crate::engine::bindings::Bindings;
use crate::engine::constraint::{ConstraintResult, Verdict};
use crate::engine::narrowing::{cell_narrows, keeps, narrows, same_roots};
use crate::engine::propagator::Propagator;
use crate::engine::proxy::StateProxy;
use crate::engine::state::State;
use crate::engine::toconstraint::{Constraint, ToConstraint};
use crate::engine::store::Store;
use crate::engine::varmap::VarMap;
use crate::engine::vars::{UntypedVar, Value, ValueView, Var};
use crate::finitedomain::{lemma_only, outside, Fd, FdView};
use std::collections::HashSet;
use vstd::prelude::*;

verus! {

broadcast use vstd::std_specs::hash::group_hash_axioms;

/// The working list: one optional domain per listed variable. An entry is
/// empty where the variable is unbound or resolved.
pub type Doms = Seq<Option<FdView>>;

/// Whether the entry is a domain with exactly one value.
pub open spec fn is_single(d: Option<FdView>) -> bool {
    d matches Some(FdView::Single(_))
}

/// The number of entries that hold a domain.
pub open spec fn live(doms: Doms) -> nat
    decreases doms.len(),
{
    if doms.len() == 0 {
        0
    } else {
        live(doms.drop_last()) + if doms.last().is_some() {
            1nat
        } else {
            0nat
        }
    }
}

/// Whether some entry is down to one value.
pub open spec fn any_single(doms: Doms) -> bool {
    exists|i: int| 0 <= i < doms.len() && is_single(#[trigger] doms[i])
}

/// The values of the entries that are down to one value.
pub open spec fn singles(doms: Doms) -> Set<usize> {
    Set::new(
        |v: usize| exists|i: int| 0 <= i < doms.len() && #[trigger] doms[i] == Some(FdView::Single(v)),
    )
}

/// Whether two entries are down to the same value.
pub open spec fn clash(doms: Doms) -> bool {
    exists|i: int, j: int|
        0 <= i < j < doms.len() && is_single(#[trigger] doms[i]) && doms[i] == #[trigger] doms[j]
}

/// The list with the entries emptied that are down to one value.
pub open spec fn blank(doms: Doms) -> Doms {
    Seq::new(
        doms.len(),
        |i: int| if is_single(doms[i]) {
            None
        } else {
            doms[i]
        },
    )
}

/// The list with the values in `gone` removed from every domain.
pub open spec fn strip(doms: Doms, gone: Set<usize>) -> Doms {
    Seq::new(
        doms.len(),
        |i: int| match doms[i] {
            Some(d) => Some(d.without(gone)),
            None => None,
        },
    )
}

/// Whether some domain has lost all its candidates.
pub open spec fn broken(doms: Doms) -> bool {
    exists|i: int| 0 <= i < doms.len() && (#[trigger] doms[i] matches Some(d) && d.is_err())
}

/// Whether every domain of the list is canonical.
pub open spec fn tidy(doms: Doms) -> bool {
    forall|i: int| 0 <= i < doms.len() ==> (#[trigger] doms[i] matches Some(d) ==> d.canonical())
}

/// Whether every domain of the list is usable.
pub open spec fn usable(doms: Doms) -> bool {
    forall|i: int| 0 <= i < doms.len() ==> (#[trigger] doms[i] matches Some(d) ==> d.wf())
}

/// Whether the entry `now` holds no candidate that the entry `before` did
/// not hold.
pub open spec fn within_entry(now: Option<FdView>, before: Option<FdView>) -> bool {
    match now {
        Some(d) => match before {
            Some(e) => forall|x: usize| d.contains(x) ==> e.contains(x),
            None => false,
        },
        None => true,
    }
}

/// Emptying entries does not add domains, and removes one where an entry is
/// down to one value.
pub proof fn lemma_blank_live(doms: Doms)
    ensures
        live(blank(doms)) <= live(doms),
        any_single(doms) ==> live(blank(doms)) < live(doms),
    decreases doms.len(),
{
    if doms.len() > 0 {
        let init = doms.drop_last();
        lemma_blank_live(init);
        assert(blank(doms).drop_last() =~= blank(init));
        if any_single(doms) {
            let i = choose|i: int| 0 <= i < doms.len() && is_single(#[trigger] doms[i]);
            if i < init.len() {
                assert(is_single(init[i]));
            }
        }
    }
}

/// Removing values from the domains keeps their number.
pub proof fn lemma_strip_live(doms: Doms, gone: Set<usize>)
    ensures
        live(strip(doms, gone)) == live(doms),
    decreases doms.len(),
{
    if doms.len() > 0 {
        let init = doms.drop_last();
        lemma_strip_live(init, gone);
        assert(strip(doms, gone).drop_last() =~= strip(init, gone));
    }
}

/// The store after the domains of the list were written back to their
/// variables, from position `i` on: all of them, or only those that are down
/// to one value.
pub open spec fn write_from(
    b: Bindings,
    vars: Seq<UntypedVar>,
    doms: Doms,
    i: nat,
    singles_only: bool,
) -> Bindings
    decreases doms.len() - i,
{
    if i >= doms.len() {
        b
    } else {
        let next = match doms[i as int] {
            Some(d) if !singles_only || d is Single => b.overwrite(vars[i as int], ValueView::Fd(d)),
            _ => b,
        };
        write_from(next, vars, doms, i + 1, singles_only)
    }
}

/// What the rounds of resolving do to a store and to the working list. The
/// list is `None` where the constraint cannot hold: two entries are down to
/// the same value, or a domain loses all its candidates.
///
/// A round resolves every entry that is down to one value: its value is
/// removed from the other domains and its entry is emptied. From the second
/// round on the resolved domains are first written back to their variables.
/// The rounds end when no entry is down to one value.
pub open spec fn resolve(b: Bindings, vars: Seq<UntypedVar>, doms: Doms, first: bool) -> (
    Bindings,
    Option<Doms>,
)
    decreases live(doms),
{
    if clash(doms) {
        (b, None)
    } else if !any_single(doms) {
        (b, Some(doms))
    } else {
        let written = if first {
            b
        } else {
            write_from(b, vars, doms, 0, true)
        };
        let next = strip(blank(doms), singles(doms));
        if broken(next) {
            (written, None)
        } else {
            proof {
                lemma_blank_live(doms);
                lemma_strip_live(blank(doms), singles(doms));
            }
            resolve(written, vars, next, false)
        }
    }
}

/// An assignment of one value to each listed variable that respects the
/// domains of the list.
pub open spec fn respects(a: Seq<usize>, doms: Doms) -> bool {
    &&& a.len() == doms.len()
    &&& forall|i: int| 0 <= i < doms.len() ==> (#[trigger] doms[i] matches Some(d) ==> d.contains(a[i]))
}

/// An assignment of pairwise different values.
pub open spec fn all_different(a: Seq<usize>) -> bool {
    forall|i: int, j: int| 0 <= i < j < a.len() ==> a[i] != a[j]
}

/// One round of resolving loses no solution: an assignment of pairwise
/// different values that respects the domains before the round respects them
/// after it. Where the round finds the constraint impossible there is no such
/// assignment.
pub proof fn lemma_round_refines(doms: Doms, a: Seq<usize>)
    requires
        tidy(doms),
        all_different(a),
        respects(a, doms),
    ensures
        !clash(doms),
        respects(a, strip(blank(doms), singles(doms))),
        !broken(strip(blank(doms), singles(doms))),
        tidy(strip(blank(doms), singles(doms))),
{
    let gone = singles(doms);
    let next = strip(blank(doms), gone);
    if clash(doms) {
        let (i, j) = choose|i: int, j: int|
            0 <= i < j < doms.len() && is_single(#[trigger] doms[i]) && doms[i] == #[trigger] doms[j];
        let v = doms[i]->Some_0->Single_0;
        assert(seq![v][0] == v);
        assert(a[i] == v);
        assert(a[j] == v);
    }
    assert forall|i: int| 0 <= i < next.len() implies (#[trigger] next[i] matches Some(d) ==> (
    d.contains(a[i]) && !d.is_err() && d.canonical())) by {
        if let Some(d) = next[i] {
            let before = doms[i]->Some_0;
            assert(blank(doms)[i] == Some(before));
            assert(before is Values);
            lemma_only(before, outside(gone));
            assert(before.contains(a[i]));
            if gone.contains(a[i]) {
                let j = choose|j: int|
                    0 <= j < doms.len() && #[trigger] doms[j] == Some(FdView::Single(a[i]));
                assert(seq![a[i]][0] == a[i]);
                assert(a[j] == a[i]);
                assert(i != j);
            }
            assert(d.contains(a[i]));
            assert(d.members().len() > 0);
        }
    }
}

/// Resolving loses no solution: an assignment of pairwise different values
/// that respects the domains of the list respects the domains that the
/// rounds leave, and where the rounds find the constraint impossible there is
/// no such assignment.
pub proof fn lemma_resolve_refines(
    b: Bindings,
    vars: Seq<UntypedVar>,
    doms: Doms,
    first: bool,
    a: Seq<usize>,
)
    requires
        tidy(doms),
        all_different(a),
        respects(a, doms),
    ensures
        resolve(b, vars, doms, first).1 matches Some(left) && respects(a, left),
    decreases live(doms),
{
    lemma_round_refines(doms, a);
    if any_single(doms) {
        let written = if first {
            b
        } else {
            write_from(b, vars, doms, 0, true)
        };
        let next = strip(blank(doms), singles(doms));
        lemma_blank_live(doms);
        lemma_strip_live(blank(doms), singles(doms));
        lemma_resolve_refines(written, vars, next, false, a);
    }
}

/// Resolving only narrows: a domain that the rounds leave holds no candidate
/// that the domain of the same entry did not hold before.
pub proof fn lemma_resolve_narrows(
    b: Bindings,
    vars: Seq<UntypedVar>,
    doms: Doms,
    first: bool,
)
    requires
        tidy(doms),
    ensures
        resolve(b, vars, doms, first).1 matches Some(left) ==> {
            &&& left.len() == doms.len()
            &&& tidy(left)
            &&& !any_single(left)
            &&& forall|i: int| 0 <= i < left.len() ==> within_entry(#[trigger] left[i], doms[i])
        },
    decreases live(doms),
{
    if !clash(doms) && any_single(doms) {
        let written = if first {
            b
        } else {
            write_from(b, vars, doms, 0, true)
        };
        let gone = singles(doms);
        let next = strip(blank(doms), gone);
        if !broken(next) {
            lemma_blank_live(doms);
            lemma_strip_live(blank(doms), gone);
            assert forall|i: int| 0 <= i < next.len() implies within_entry(
                #[trigger] next[i],
                doms[i],
            ) && (next[i] matches Some(d) ==> d.canonical()) by {
                if let Some(d) = next[i] {
                    let before = doms[i]->Some_0;
                    assert(blank(doms)[i] == Some(before));
                    lemma_only(before, outside(gone));
                }
            }
            assert(tidy(next));
            lemma_resolve_narrows(written, vars, next, false);
            let left = resolve(written, vars, next, false).1;
            if let Some(left) = left {
                assert forall|i: int| 0 <= i < left.len() implies within_entry(
                    #[trigger] left[i],
                    doms[i],
                ) by {
                    assert(within_entry(left[i], next[i]));
                    assert(within_entry(next[i], doms[i]));
                }
            }
        }
    }
}

/// Writing back only the domains that are down to one value changes nothing
/// where no domain is.
pub proof fn lemma_write_no_single(b: Bindings, vars: Seq<UntypedVar>, doms: Doms, i: nat)
    requires
        !any_single(doms),
    ensures
        write_from(b, vars, doms, i, true) == b,
    decreases doms.len() - i,
{
    if i < doms.len() {
        assert(!is_single(doms[i as int]));
        lemma_write_no_single(b, vars, doms, i + 1);
    }
}

/// The variables whose entries hold a domain, from position `i` on, in
/// order.
pub open spec fn left_over(vars: Seq<UntypedVar>, doms: Doms, i: nat) -> Seq<UntypedVar>
    decreases doms.len() - i,
{
    if i >= doms.len() {
        Seq::empty()
    } else if doms[i as int].is_some() {
        seq![vars[i as int]] + left_over(vars, doms, i + 1)
    } else {
        left_over(vars, doms, i + 1)
    }
}

/// Whether every candidate of `d` is a candidate of the domain `whole`.
pub open spec fn fd_within(d: FdView, whole: Option<FdView>) -> bool {
    match whole {
        Some(e) => forall|x: usize| d.contains(x) ==> e.contains(x),
        None => false,
    }
}

/// Whether the working list belongs to the listed variables of the store
/// `origin`: every domain of the list is usable and holds only candidates of
/// the domain that its variable resolves to in `origin`.
pub open spec fn covered(origin: Bindings, vars: Seq<UntypedVar>, doms: Doms) -> bool {
    &&& vars.len() == doms.len()
    &&& forall|i: int| 0 <= i < doms.len() ==> origin.has(#[trigger] vars[i])
    &&& forall|i: int|
        0 <= i < doms.len() ==> (#[trigger] doms[i] matches Some(d) ==> d.wf() && fd_within(
            d,
            origin.fd_of(vars[i]),
        ))
}

/// Writing a working list back only narrows the store that the list
/// belongs to, and moves no representative.
pub proof fn lemma_write_narrows(
    origin: Bindings,
    b: Bindings,
    vars: Seq<UntypedVar>,
    doms: Doms,
    i: nat,
    singles_only: bool,
)
    requires
        origin.wf(),
        keeps(origin, b),
        narrows(origin, b),
        same_roots(origin, b),
        covered(origin, vars, doms),
    ensures
        keeps(origin, write_from(b, vars, doms, i, singles_only)),
        narrows(origin, write_from(b, vars, doms, i, singles_only)),
        same_roots(origin, write_from(b, vars, doms, i, singles_only)),
    decreases doms.len() - i,
{
    if i < doms.len() {
        let next = match doms[i as int] {
            Some(d) if !singles_only || d is Single => b.overwrite(vars[i as int], ValueView::Fd(d)),
            _ => b,
        };
        if next != b {
            let d = doms[i as int]->Some_0;
            let x = vars[i as int];
            assert(origin.has(x));
            let root = b.follow(x);
            assert(root == origin.follow(x));
            b.lemma_follow_ends(x);
            origin.lemma_follow_ends(x);
            assert(origin.cell_ok(root.id as int));
            assert(ValueView::Fd(d).subs().len() == 0);
            b.lemma_bind_wf(root, ValueView::Fd(d));
            assert(fd_within(d, origin.fd_of(x)));
            assert forall|k: int| 0 <= k < origin.cells.len() implies cell_narrows(
                #[trigger] origin.cells[k],
                next.cells[k],
            ) by {
                assert(cell_narrows(origin.cells[k], b.cells[k]));
            }
            assert forall|z: UntypedVar| #[trigger] next.follow(z) == origin.follow(z) by {
                b.lemma_bind_follow(root, ValueView::Fd(d), z);
                assert(b.follow(z) == origin.follow(z));
            }
        }
        lemma_write_narrows(origin, next, vars, doms, i + 1, singles_only);
    }
}

/// Resolving only narrows the store that the working list belongs to, and
/// the list that it leaves belongs to that store too.
pub proof fn lemma_resolve_store(
    origin: Bindings,
    b: Bindings,
    vars: Seq<UntypedVar>,
    doms: Doms,
    first: bool,
)
    requires
        origin.wf(),
        keeps(origin, b),
        narrows(origin, b),
        same_roots(origin, b),
        covered(origin, vars, doms),
    ensures
        keeps(origin, resolve(b, vars, doms, first).0),
        narrows(origin, resolve(b, vars, doms, first).0),
        same_roots(origin, resolve(b, vars, doms, first).0),
        resolve(b, vars, doms, first).1 matches Some(left) ==> covered(origin, vars, left),
    decreases live(doms),
{
    if !clash(doms) && any_single(doms) {
        let written = if first {
            b
        } else {
            write_from(b, vars, doms, 0, true)
        };
        if !first {
            lemma_write_narrows(origin, b, vars, doms, 0, true);
        }
        let gone = singles(doms);
        let next = strip(blank(doms), gone);
        if !broken(next) {
            lemma_blank_live(doms);
            lemma_strip_live(blank(doms), gone);
            assert forall|i: int| 0 <= i < next.len() implies (#[trigger] next[i] matches Some(d)
                ==> d.wf() && fd_within(d, origin.fd_of(vars[i]))) by {
                if let Some(d) = next[i] {
                    let before = doms[i]->Some_0;
                    assert(blank(doms)[i] == Some(before));
                    lemma_only(before, outside(gone));
                    assert(fd_within(before, origin.fd_of(vars[i])));
                }
            }
            lemma_resolve_store(origin, written, vars, next, false);
        }
    }
}

/// The content of a working list.
pub open spec fn doms_of(slots: Seq<Option<Fd>>) -> Doms {
    Seq::new(
        slots.len(),
        |i: int| match slots[i] {
            Some(d) => Some(d@),
            None => None,
        },
    )
}

/// The identifiers of a list of variables.
pub open spec fn vars_of(fds: Seq<Var<Fd>>) -> Seq<UntypedVar> {
    Seq::new(fds.len(), |i: int| fds[i].var)
}

/// Whether every entry holds a domain.
pub open spec fn all_bound(doms: Doms) -> bool {
    forall|i: int| 0 <= i < doms.len() ==> (#[trigger] doms[i]).is_some()
}

/// Whether every listed variable is a variable of `b`.
pub open spec fn vars_in(vars: Seq<UntypedVar>, b: Bindings) -> bool {
    forall|i: int| 0 <= i < vars.len() ==> b.has(#[trigger] vars[i])
}

/// Whether a listed variable is marked as changed and resolves to a domain
/// that is down to one value.
pub open spec fn triggered_in(vars: Seq<UntypedVar>, b: Bindings, changed: Set<UntypedVar>) -> bool {
    exists|i: int|
        0 <= i < vars.len() && changed.contains(#[trigger] vars[i]) && b.single_of(vars[i]).is_some()
}

/// The domains that the listed variables resolve to.
pub open spec fn snapshot_of(vars: Seq<UntypedVar>, b: Bindings) -> Doms {
    Seq::new(vars.len(), |i: int| b.fd_of(vars[i]))
}

/// What running the constraint over the listed variables does to a store,
/// what it reports, and the variables of the constraint that takes its place
/// where it reports `Updated`.
///
/// Nothing happens unless the constraint is triggered. Then the domains of
/// the listed variables are resolved; where that finds the constraint
/// impossible it fails. Otherwise the narrowed domains are written back.
/// Where some listed variable is unbound the constraint stays as it is.
/// Where all are bound the resolved variables leave the constraint, which
/// retires if none is left.
pub open spec fn all_diff_step(vars: Seq<UntypedVar>, b: Bindings, changed: Set<UntypedVar>) -> (
    Bindings,
    Verdict,
    Seq<UntypedVar>,
) {
    if !triggered_in(vars, b, changed) {
        (b, Verdict::Unchanged, vars)
    } else {
        let doms = snapshot_of(vars, b);
        match resolve(b, vars, doms, true) {
            (after, None) => (after, Verdict::Failed, vars),
            (after, Some(left)) => {
                let done = write_from(after, vars, left, 0, false);
                if !all_bound(doms) {
                    (done, Verdict::Unchanged, vars)
                } else {
                    let rest = left_over(vars, left, 0);
                    if rest.len() == 0 {
                        (done, Verdict::Irrelevant, rest)
                    } else {
                        (done, Verdict::Updated, rest)
                    }
                }
            },
        }
    }
}

/// The constraint loses no solution: where an assignment of pairwise
/// different values respects the domains that the listed variables resolve
/// to, the constraint does not fail.
pub proof fn lemma_all_diff_sound(
    vars: Seq<UntypedVar>,
    b: Bindings,
    changed: Set<UntypedVar>,
    a: Seq<usize>,
)
    requires
        b.wf(),
        vars_in(vars, b),
        all_different(a),
        respects(a, snapshot_of(vars, b)),
    ensures
        !(all_diff_step(vars, b, changed).1 is Failed),
{
    let doms = snapshot_of(vars, b);
    assert forall|i: int| 0 <= i < doms.len() implies (#[trigger] doms[i] matches Some(d)
        ==> d.canonical()) by {
        b.lemma_domains_usable(vars[i]);
    }
    lemma_resolve_refines(b, vars, doms, true, a);
}

/// The variables that are left over are listed variables.
pub proof fn lemma_left_over_in(vars: Seq<UntypedVar>, doms: Doms, i: nat, b: Bindings)
    requires
        vars.len() == doms.len(),
        vars_in(vars, b),
    ensures
        vars_in(left_over(vars, doms, i), b),
    decreases doms.len() - i,
{
    if i < doms.len() {
        lemma_left_over_in(vars, doms, i + 1, b);
        let rest = left_over(vars, doms, i + 1);
        if doms[i as int].is_some() {
            let out = left_over(vars, doms, i);
            assert forall|k: int| 0 <= k < out.len() implies b.has(#[trigger] out[k]) by {
                if k == 0 {
                    assert(b.has(vars[i as int]));
                } else {
                    assert(out[k] == rest[k - 1]);
                }
            }
        }
    }
}

/// Running the constraint only narrows the store, keeps its invariant, and
/// leaves a constraint over variables of the store.
pub proof fn lemma_all_diff_narrows(vars: Seq<UntypedVar>, b: Bindings, changed: Set<UntypedVar>)
    requires
        b.wf(),
        vars_in(vars, b),
    ensures
        narrows(b, all_diff_step(vars, b, changed).0),
        keeps(b, all_diff_step(vars, b, changed).0),
        vars_in(all_diff_step(vars, b, changed).2, all_diff_step(vars, b, changed).0),
{
    if triggered_in(vars, b, changed) {
        let doms = snapshot_of(vars, b);
        assert forall|i: int| 0 <= i < doms.len() implies (#[trigger] doms[i] matches Some(d)
            ==> d.wf() && fd_within(d, b.fd_of(vars[i]))) by {
            if let Some(d) = doms[i] {
                let x = vars[i];
                assert(b.has(x));
                b.lemma_follow_ends(x);
                assert(b.cell_ok(b.follow(x).id as int));
            }
        }
        lemma_resolve_store(b, b, vars, doms, true);
        lemma_resolve_narrows(b, vars, doms, true);
        match resolve(b, vars, doms, true) {
            (after, Some(left)) => {
                lemma_write_narrows(b, after, vars, left, 0, false);
                let done = write_from(after, vars, left, 0, false);
                lemma_left_over_in(vars, left, 0, b);
                assert(vars_in(left_over(vars, left, 0), done));
                assert(vars_in(vars, done));
            },
            (after, None) => {
                assert(vars_in(vars, after));
            },
        }
    }
}

/// Constrains a list of finite domains to pairwise different values.
#[derive(Debug, PartialEq, Eq)]
pub struct AllDiffConstraint {
    pub fds: Vec<Var<Fd>>,
}

/// Writes the domains of the working list back to their variables: all of
/// them, or only those that are down to one value.
fn write_slots(
    fds: &Vec<Var<Fd>>,
    slots: &Vec<Option<Fd>>,
    state: &mut StateProxy,
    singles_only: bool,
)
    requires
        old(state).wf(),
        fds.len() == slots.len(),
        forall|i: int| 0 <= i < fds.len() ==> old(state)@.has(#[trigger] fds@[i].var),
        usable(doms_of(slots@)),
    ensures
        final(state).wf(),
        final(state).same_base(old(state)),
        final(state)@.cells.len() == old(state)@.cells.len(),
        final(state)@ == write_from(
            old(state)@,
            vars_of(fds@),
            doms_of(slots@),
            0,
            singles_only,
        ),
{
    let ghost start = state@;
    let ghost base = *state;
    let ghost vars = vars_of(fds@);
    let ghost doms = doms_of(slots@);
    let mut i: usize = 0;
    while i < slots.len()
        invariant
            i <= slots.len(),
            fds.len() == slots.len(),
            vars == vars_of(fds@),
            doms == doms_of(slots@),
            usable(doms),
            state.wf(),
            state.same_base(&base),
            state@.cells.len() == start.cells.len(),
            forall|k: int| 0 <= k < fds.len() ==> start.has(#[trigger] fds@[k].var),
            write_from(state@, vars, doms, i as nat, singles_only) == write_from(
                start,
                vars,
                doms,
                0,
                singles_only,
            ),
        decreases slots.len() - i,
    {
        assert(start.has(fds@[i as int].var));
        assert(doms[i as int] == doms_of(slots@)[i as int]);
        match &slots[i] {
            Some(d) => {
                if !singles_only || d.single_value().is_some() {
                    let v = Value::Fd(d.clone());
                    assert(v@.subs().len() == 0);
                    state.overwrite_var(fds[i].var, v);
                }
            },
            None => {},
        }
        i = i + 1;
    }
}

impl AllDiffConstraint {
    /// The constraint over the listed variables.
    pub fn new(fds: Vec<Var<Fd>>) -> (c: AllDiffConstraint)
        ensures
            c.fds == fds,
    {
        AllDiffConstraint { fds }
    }

    /// The identifiers of the listed variables.
    pub open spec fn vars(&self) -> Seq<UntypedVar> {
        vars_of(self.fds@)
    }

    /// Whether the constraint speaks of variables of `b` only.
    pub open spec fn wf(&self, b: Bindings) -> bool {
        forall|i: int| 0 <= i < self.fds.len() ==> b.has(#[trigger] self.fds@[i].var)
    }

    /// Whether a listed variable has an entry in `changed` and resolves to a
    /// domain that is down to one value.
    pub open spec fn triggered(&self, b: Bindings, changed: Set<UntypedVar>) -> bool {
        exists|i: int|
            0 <= i < self.fds.len() && changed.contains(#[trigger] self.fds@[i].var)
                && b.single_of(self.fds@[i].var).is_some()
    }

    /// The domains that the listed variables resolve to.
    pub open spec fn snapshot(&self, b: Bindings) -> Doms {
        Seq::new(self.fds@.len(), |i: int| b.fd_of(self.fds@[i].var))
    }

    /// What running the constraint does to a store, what it reports, and the
    /// variables of the constraint that takes its place where it reports
    /// `Updated`.
    ///
    /// Nothing happens unless the constraint is triggered. Then the domains
    /// of the listed variables are resolved; where that finds the
    /// constraint impossible it fails. Otherwise the narrowed domains are
    /// written back. Where some listed variable is unbound the constraint
    /// stays as it is. Where all are bound the resolved variables leave the
    /// constraint, which retires if none is left.
    pub open spec fn step(&self, b: Bindings, changed: Set<UntypedVar>) -> (
        Bindings,
        Verdict,
        Seq<UntypedVar>,
    ) {
        let vars = self.vars();
        if !self.triggered(b, changed) {
            (b, Verdict::Unchanged, vars)
        } else {
            let doms = self.snapshot(b);
            match resolve(b, vars, doms, true) {
                (after, None) => (after, Verdict::Failed, vars),
                (after, Some(left)) => {
                    let done = write_from(after, vars, left, 0, false);
                    if !all_bound(doms) {
                        (done, Verdict::Unchanged, vars)
                    } else {
                        let rest = left_over(vars, left, 0);
                        if rest.len() == 0 {
                            (done, Verdict::Irrelevant, rest)
                        } else {
                            (done, Verdict::Updated, rest)
                        }
                    }
                },
            }
        }
    }

    /// What is said of the constraint is what is said of its listed
    /// variables.
    pub proof fn lemma_by_vars(&self, b: Bindings, changed: Set<UntypedVar>)
        ensures
            self.wf(b) == vars_in(self.vars(), b),
            self.triggered(b, changed) == triggered_in(self.vars(), b, changed),
            self.snapshot(b) == snapshot_of(self.vars(), b),
            self.step(b, changed) == all_diff_step(self.vars(), b, changed),
    {
        let vars = self.vars();
        if self.wf(b) {
            assert forall|i: int| 0 <= i < vars.len() implies b.has(#[trigger] vars[i]) by {
                assert(b.has(self.fds@[i].var));
            }
        }
        if vars_in(vars, b) {
            assert forall|i: int| 0 <= i < self.fds.len() implies b.has(
                #[trigger] self.fds@[i].var,
            ) by {
                assert(b.has(vars[i]));
            }
        }
        if self.triggered(b, changed) {
            let i = choose|i: int|
                0 <= i < self.fds.len() && changed.contains(#[trigger] self.fds@[i].var)
                    && b.single_of(self.fds@[i].var).is_some();
            assert(changed.contains(vars[i]) && b.single_of(vars[i]).is_some());
        }
        if triggered_in(vars, b, changed) {
            let i = choose|i: int|
                0 <= i < vars.len() && changed.contains(#[trigger] vars[i]) && b.single_of(
                    vars[i],
                ).is_some();
            assert(changed.contains(self.fds@[i].var));
        }
        assert(self.snapshot(b) =~= snapshot_of(vars, b));
    }

    /// Running the constraint only narrows the store, and keeps its
    /// invariant.
    pub proof fn lemma_step_narrows(&self, b: Bindings, changed: Set<UntypedVar>)
        requires
            b.wf(),
            self.wf(b),
        ensures
            narrows(b, self.step(b, changed).0),
            keeps(b, self.step(b, changed).0),
    {
        self.lemma_by_vars(b, changed);
        lemma_all_diff_narrows(self.vars(), b, changed);
    }

    /// A constraint none of whose variables is marked as changed reports
    /// `Unchanged` and writes nothing.
    pub proof fn lemma_unchanged_when_quiet(&self, b: Bindings, changed: Set<UntypedVar>)
        requires
            forall|i: int|
                0 <= i < self.fds.len() ==> !changed.contains(#[trigger] self.fds@[i].var),
        ensures
            self.step(b, changed).0 == b,
            self.step(b, changed).1 is Unchanged,
    {
    }

    /// Whether the constraint is triggered in `state`.
    fn is_triggered(&self, state: &StateProxy) -> (r: bool)
        requires
            state.wf(),
            self.wf(state@),
        ensures
            r == self.triggered(state@, state.changed.dom()),
    {
        let mut i: usize = 0;
        while i < self.fds.len()
            invariant
                i <= self.fds.len(),
                state.wf(),
                self.wf(state@),
                forall|k: int|
                    0 <= k < i ==> !(state.changed.has(#[trigger] self.fds@[k].var)
                        && state@.single_of(self.fds@[k].var).is_some()),
            decreases self.fds.len() - i,
        {
            let x = self.fds[i].var;
            assert(state@.has(self.fds@[i as int].var));
            proof {
                state@.lemma_follow_ends(x);
                assert(state@.cell_ok(state@.follow(x).id as int));
            }
            let single = match state.get_changed_value(x) {
                Some(Value::Fd(d)) => d.single_value().is_some(),
                _ => false,
            };
            if single {
                return true;
            }
            i = i + 1;
        }
        false
    }

    /// The domains that the listed variables resolve to.
    fn take_snapshot(&self, state: &StateProxy) -> (r: (Vec<Option<Fd>>, bool))
        requires
            state.wf(),
            self.wf(state@),
        ensures
            r.0.len() == self.fds.len(),
            doms_of(r.0@) == self.snapshot(state@),
            usable(doms_of(r.0@)),
            r.1 == all_bound(self.snapshot(state@)),
    {
        let mut slots: Vec<Option<Fd>> = Vec::new();
        let mut all_set = true;
        let mut i: usize = 0;
        while i < self.fds.len()
            invariant
                i <= self.fds.len(),
                slots.len() == i,
                state.wf(),
                self.wf(state@),
                forall|k: int| 0 <= k < i ==> doms_of(slots@)[k] == state@.fd_of(self.fds@[k].var),
                usable(doms_of(slots@)),
                all_set == (forall|k: int| 0 <= k < i ==> (#[trigger] doms_of(slots@)[k]).is_some()),
            decreases self.fds.len() - i,
        {
            let ghost before = slots@;
            assert(state@.has(self.fds@[i as int].var));
            let entry = match state.fd_value(self.fds[i].var) {
                Some(d) => Some(d.clone()),
                None => None,
            };
            if entry.is_none() {
                all_set = false;
            }
            slots.push(entry);
            proof {
                assert forall|k: int| 0 <= k < i + 1 implies doms_of(slots@)[k] == state@.fd_of(
                    self.fds@[k].var,
                ) by {
                    if k < i {
                        assert(doms_of(before)[k] == state@.fd_of(self.fds@[k].var));
                        assert(slots@[k] == before[k]);
                    }
                }
                assert forall|k: int| 0 <= k < slots.len() implies (#[trigger] doms_of(
                    slots@,
                )[k] matches Some(d) ==> d.wf()) by {
                    if k < i {
                        assert(slots@[k] == before[k]);
                        assert(doms_of(before)[k] == doms_of(slots@)[k]);
                    }
                }
                if all_set {
                    assert forall|k: int| 0 <= k < i + 1 implies (#[trigger] doms_of(
                        slots@,
                    )[k]).is_some() by {
                        if k < i {
                            assert(slots@[k] == before[k]);
                            assert(doms_of(before)[k].is_some());
                        }
                    }
                } else {
                    if entry.is_none() {
                        assert(doms_of(slots@)[i as int].is_none());
                    } else {
                        let k = choose|k: int| 0 <= k < i && !(#[trigger] doms_of(before)[k]).is_some();
                        assert(slots@[k] == before[k]);
                        assert(!doms_of(slots@)[k].is_some());
                    }
                }
            }
            i = i + 1;
        }
        assert(doms_of(slots@) =~= self.snapshot(state@));
        (slots, all_set)
    }
}

/// Removes the values in `gone` from every domain of the working list, and
/// reports whether every domain has a candidate left.
fn strip_slots(slots: &mut Vec<Option<Fd>>, gone: &HashSet<usize>) -> (r: bool)
    requires
        tidy(doms_of(old(slots)@)),
    ensures
        r == !broken(strip(doms_of(old(slots)@), gone@)),
        r ==> doms_of(final(slots)@) == strip(doms_of(old(slots)@), gone@),
        r ==> usable(doms_of(final(slots)@)),
        final(slots).len() == old(slots).len(),
{
    let ghost before = doms_of(slots@);
    let ghost target = strip(before, gone@);
    let mut i: usize = 0;
    while i < slots.len()
        invariant
            i <= slots.len(),
            slots.len() == before.len(),
            slots.len() == old(slots).len(),
            before == doms_of(old(slots)@),
            tidy(before),
            target == strip(before, gone@),
            forall|k: int| 0 <= k < i ==> doms_of(slots@)[k] == #[trigger] target[k],
            forall|k: int| i <= k < slots.len() ==> doms_of(slots@)[k] == #[trigger] before[k],
            forall|k: int| 0 <= k < i ==> (#[trigger] target[k] matches Some(d) ==> d.wf()),
        decreases slots.len() - i,
    {
        let ghost held = slots@;
        assert(doms_of(held)[i as int] == before[i as int]);
        let narrowed = match &slots[i] {
            Some(d) => {
                let mut d = d.clone();
                d.remove_values(gone);
                Some(d)
            },
            None => None,
        };
        let valid = match &narrowed {
            Some(d) => d.is_valid(),
            None => true,
        };
        proof {
            assert(target[i as int] == match narrowed {
                Some(d) => Some(d@),
                None => None,
            });
        }
        if !valid {
            assert(broken(target));
            return false;
        }
        slots.set(i, narrowed);
        proof {
            assert forall|k: int| 0 <= k < i + 1 implies doms_of(slots@)[k] == #[trigger] target[k] by {
                if k < i {
                    assert(slots@[k] == held[k]);
                    assert(doms_of(held)[k] == target[k]);
                }
            }
            assert forall|k: int| i + 1 <= k < slots.len() implies doms_of(slots@)[k]
                == #[trigger] before[k] by {
                assert(slots@[k] == held[k]);
                assert(doms_of(held)[k] == before[k]);
            }
        }
        i = i + 1;
    }
    proof {
        assert(doms_of(slots@) =~= target);
        if broken(target) {
            let k = choose|k: int|
                0 <= k < target.len() && (#[trigger] target[k] matches Some(d) && d.is_err());
            assert(target[k] matches Some(d) ==> d.wf());
        }
        assert forall|k: int| 0 <= k < slots.len() implies (#[trigger] doms_of(
            slots@,
        )[k] matches Some(d) ==> d.wf()) by {
            assert(doms_of(slots@)[k] == target[k]);
        }
    }
    true
}

/// Collects the values of the entries that are down to one value, and
/// reports whether no two of them are the same.
fn collect_singles(slots: &Vec<Option<Fd>>, found: &mut HashSet<usize>) -> (r: bool)
    requires
        old(found)@ == Set::<usize>::empty(),
    ensures
        r == !clash(doms_of(slots@)),
        r ==> final(found)@ == singles(doms_of(slots@)),
{
    let ghost doms = doms_of(slots@);
    let mut i: usize = 0;
    while i < slots.len()
        invariant
            i <= slots.len(),
            doms == doms_of(slots@),
            forall|v: usize|
                found@.contains(v) <==> exists|k: int|
                    0 <= k < i && #[trigger] doms[k] == Some(FdView::Single(v)),
            forall|a: int, b: int|
                0 <= a < b < i ==> !(is_single(#[trigger] doms[a]) && doms[a] == #[trigger] doms[b]),
        decreases slots.len() - i,
    {
        let ghost seen = found@;
        let single = match &slots[i] {
            Some(d) => d.single_value(),
            None => None,
        };
        assert(doms[i as int] == doms_of(slots@)[i as int]);
        match single {
            Some(v) => {
                assert(doms[i as int] == Some(FdView::Single(v)));
                if !found.insert(v) {
                    proof {
                        let k = choose|k: int|
                            0 <= k < i && #[trigger] doms[k] == Some(FdView::Single(v));
                        assert(is_single(doms[k]) && doms[k] == doms[i as int]);
                    }
                    return false;
                }
                proof {
                    assert forall|w: usize| found@.contains(w) <==> exists|k: int|
                        0 <= k < i + 1 && #[trigger] doms[k] == Some(FdView::Single(w)) by {
                        if found@.contains(w) && w != v {
                            assert(seen.contains(w));
                            let k = choose|k: int|
                                0 <= k < i && #[trigger] doms[k] == Some(FdView::Single(w));
                            assert(doms[k] == Some(FdView::Single(w)));
                        }
                        if exists|k: int|
                            0 <= k < i + 1 && #[trigger] doms[k] == Some(FdView::Single(w)) {
                            let k = choose|k: int|
                                0 <= k < i + 1 && #[trigger] doms[k] == Some(FdView::Single(w));
                            if k < i {
                                assert(seen.contains(w));
                            }
                        }
                    }
                    assert forall|a: int, b: int| 0 <= a < b < i + 1 implies !(is_single(
                        #[trigger] doms[a],
                    ) && doms[a] == #[trigger] doms[b]) by {
                        if b == i && is_single(doms[a]) && doms[a] == doms[b] {
                            assert(doms[a] == Some(FdView::Single(v)));
                            assert(seen.contains(v));
                        }
                    }
                }
            },
            None => {
                proof {
                    assert(!is_single(doms[i as int]));
                    assert forall|w: usize| found@.contains(w) <==> exists|k: int|
                        0 <= k < i + 1 && #[trigger] doms[k] == Some(FdView::Single(w)) by {
                        if found@.contains(w) {
                            let k = choose|k: int|
                                0 <= k < i && #[trigger] doms[k] == Some(FdView::Single(w));
                            assert(doms[k] == Some(FdView::Single(w)));
                        }
                        if exists|k: int|
                            0 <= k < i + 1 && #[trigger] doms[k] == Some(FdView::Single(w)) {
                            let k = choose|k: int|
                                0 <= k < i + 1 && #[trigger] doms[k] == Some(FdView::Single(w));
                            assert(k < i);
                        }
                    }
                }
            },
        }
        i = i + 1;
    }
    assert(found@ =~= singles(doms));
    true
}

/// Empties the entries of the working list that are down to one value.
fn blank_slots(slots: &mut Vec<Option<Fd>>)
    ensures
        final(slots).len() == old(slots).len(),
        doms_of(final(slots)@) == blank(doms_of(old(slots)@)),
{
    let ghost before = doms_of(slots@);
    let ghost target = blank(before);
    let mut i: usize = 0;
    while i < slots.len()
        invariant
            i <= slots.len(),
            slots.len() == before.len(),
            target == blank(before),
            forall|k: int| 0 <= k < i ==> doms_of(slots@)[k] == #[trigger] target[k],
            forall|k: int| i <= k < slots.len() ==> doms_of(slots@)[k] == #[trigger] before[k],
        decreases slots.len() - i,
    {
        let ghost held = slots@;
        assert(doms_of(held)[i as int] == before[i as int]);
        let single = match &slots[i] {
            Some(d) => d.single_value().is_some(),
            None => false,
        };
        if single {
            slots.set(i, None);
        }
        proof {
            assert forall|k: int| 0 <= k < i + 1 implies doms_of(slots@)[k] == #[trigger] target[k] by {
                if k < i {
                    assert(slots@[k] == held[k]);
                    assert(doms_of(held)[k] == target[k]);
                }
            }
            assert forall|k: int| i + 1 <= k < slots.len() implies doms_of(slots@)[k]
                == #[trigger] before[k] by {
                assert(slots@[k] == held[k]);
                assert(doms_of(held)[k] == before[k]);
            }
        }
        i = i + 1;
    }
    assert(doms_of(slots@) =~= target);
}

/// The variables whose entries hold a domain, in order.
fn remaining(fds: &Vec<Var<Fd>>, slots: &Vec<Option<Fd>>) -> (out: Vec<Var<Fd>>)
    requires
        fds.len() == slots.len(),
    ensures
        vars_of(out@) == left_over(vars_of(fds@), doms_of(slots@), 0),
        forall|k: int| 0 <= k < out.len() ==> fds@.contains(#[trigger] out@[k]),
{
    let ghost vars = vars_of(fds@);
    let ghost doms = doms_of(slots@);
    let mut out: Vec<Var<Fd>> = Vec::new();
    let mut i: usize = 0;
    while i < slots.len()
        invariant
            i <= slots.len(),
            fds.len() == slots.len(),
            vars == vars_of(fds@),
            doms == doms_of(slots@),
            vars_of(out@) + left_over(vars, doms, i as nat) == left_over(vars, doms, 0),
            forall|k: int| 0 <= k < out.len() ==> fds@.contains(#[trigger] out@[k]),
        decreases slots.len() - i,
    {
        let ghost before = out@;
        assert(doms[i as int] == doms_of(slots@)[i as int]);
        if slots[i].is_some() {
            out.push(fds[i]);
            proof {
                assert(vars_of(out@) =~= vars_of(before) + seq![vars[i as int]]);
                assert(vars_of(out@) + left_over(vars, doms, (i + 1) as nat) =~= vars_of(before)
                    + left_over(vars, doms, i as nat));
                assert forall|k: int| 0 <= k < out.len() implies fds@.contains(
                    #[trigger] out@[k],
                ) by {
                    if k < before.len() {
                        assert(out@[k] == before[k]);
                    } else {
                        assert(fds@[i as int] == out@[k]);
                    }
                }
            }
        }
        i = i + 1;
    }
    assert(vars_of(out@) + Seq::<UntypedVar>::empty() =~= vars_of(out@));
    out
}

impl AllDiffConstraint {
    /// Resolves the entries of the working list that are down to one value:
    /// collects their values into `found` and empties the entries, and, if
    /// asked to, first writes their domains back to their variables. Reports
    /// whether no two entries were down to the same value; if two were,
    /// nothing is written.
    pub fn remove_singles(
        fds: &Vec<Var<Fd>>,
        slots: &mut Vec<Option<Fd>>,
        found: &mut HashSet<usize>,
        state: &mut StateProxy,
        write: bool,
    ) -> (r: bool)
        requires
            old(state).wf(),
            fds.len() == old(slots).len(),
            forall|i: int| 0 <= i < fds.len() ==> old(state)@.has(#[trigger] fds@[i].var),
            usable(doms_of(old(slots)@)),
            old(found)@ == Set::<usize>::empty(),
        ensures
            final(state).wf(),
            final(state).same_base(old(state)),
            final(state)@.cells.len() == old(state)@.cells.len(),
            final(slots).len() == old(slots).len(),
            r == !clash(doms_of(old(slots)@)),
            !r ==> final(state)@ == old(state)@,
            r ==> final(found)@ == singles(doms_of(old(slots)@)),
            r ==> doms_of(final(slots)@) == blank(doms_of(old(slots)@)),
            r ==> final(state)@ == (if write {
                write_from(old(state)@, vars_of(fds@), doms_of(old(slots)@), 0, true)
            } else {
                old(state)@
            }),
    {
        if !collect_singles(slots, found) {
            return false;
        }
        if write {
            write_slots(fds, slots, state, true);
        }
        blank_slots(slots);
        true
    }

    /// Runs the constraint on a scratch state.
    pub fn update(&self, state: &mut StateProxy) -> (verdict: ConstraintResult<AllDiffConstraint>)
        requires
            old(state).wf(),
            self.wf(old(state)@),
        ensures
            final(state).wf(),
            final(state).same_base(old(state)),
            final(state)@.cells.len() == old(state)@.cells.len(),
            (final(state)@, verdict.kind()) == (
                self.step(old(state)@, old(state).changed.dom()).0,
                self.step(old(state)@, old(state).changed.dom()).1,
            ),
            verdict matches ConstraintResult::Updated(next) ==> {
                &&& next.vars() == self.step(old(state)@, old(state).changed.dom()).2
                &&& next.wf(final(state)@)
            },
    {
        if !self.is_triggered(state) {
            return ConstraintResult::Unchanged;
        }
        let ghost start = state@;
        let ghost vars = self.vars();
        let ghost base = *state;
        let (mut slots, all_set) = self.take_snapshot(state);
        let ghost snap = doms_of(slots@);
        let ghost target = resolve(start, vars, snap, true);
        let mut seen: HashSet<usize> = HashSet::new();
        if !Self::remove_singles(&self.fds, &mut slots, &mut seen, state, false) {
            return ConstraintResult::Failed;
        }
        let ghost mut round_store = start;
        let ghost mut round_doms = snap;
        let ghost mut first = true;
        while !seen.is_empty()
            invariant
                state.wf(),
                state.same_base(&base),
                base.same_base(old(state)),
                start == old(state)@,
                self.triggered(start, old(state).changed.dom()),
                snap == self.snapshot(start),
                target == resolve(start, vars, snap, true),
                state@.cells.len() == start.cells.len(),
                self.wf(start),
                vars == vars_of(self.fds@),
                slots.len() == self.fds.len(),
                round_doms.len() == slots.len(),
                tidy(round_doms),
                !clash(round_doms),
                doms_of(slots@) == blank(round_doms),
                usable(doms_of(slots@)),
                seen@ == singles(round_doms),
                state@ == (if first {
                    round_store
                } else {
                    write_from(round_store, vars, round_doms, 0, true)
                }),
                resolve(round_store, vars, round_doms, first) == target,
            decreases live(round_doms),
        {
            proof {
                assert(!seen@.is_empty());
                let v = choose|v: usize| seen@.contains(v);
                let k = choose|k: int|
                    0 <= k < round_doms.len() && #[trigger] round_doms[k] == Some(FdView::Single(v));
                assert(is_single(round_doms[k]));
                assert(any_single(round_doms));
                lemma_blank_live(round_doms);
                lemma_strip_live(blank(round_doms), singles(round_doms));
            }
            let ghost next = strip(blank(round_doms), singles(round_doms));
            if !strip_slots(&mut slots, &seen) {
                assert(resolve(round_store, vars, round_doms, first) == (state@, None::<Doms>));
                return ConstraintResult::Failed;
            }
            seen.clear();
            let ghost written = state@;
            assert(tidy(next)) by {
                assert forall|k: int| 0 <= k < next.len() implies (#[trigger] next[k] matches Some(d)
                    ==> d.canonical()) by {
                    assert(doms_of(slots@)[k] == next[k]);
                }
            }
            if !Self::remove_singles(&self.fds, &mut slots, &mut seen, state, true) {
                assert(resolve(written, vars, next, false) == (written, None::<Doms>));
                assert(resolve(round_store, vars, round_doms, first) == (written, None::<Doms>));
                return ConstraintResult::Failed;
            }
            proof {
                round_store = written;
                round_doms = next;
                first = false;
            }
        }
        proof {
            assert(!any_single(round_doms)) by {
                if any_single(round_doms) {
                    let k = choose|k: int|
                        0 <= k < round_doms.len() && is_single(#[trigger] round_doms[k]);
                    let v = round_doms[k]->Some_0->Single_0;
                    assert(round_doms[k] == Some(FdView::Single(v)));
                    assert(singles(round_doms).contains(v));
                }
            }
            lemma_write_no_single(round_store, vars, round_doms, 0);
            assert(blank(round_doms) =~= round_doms);
            assert(target == (round_store, Some(round_doms)));
            assert(state@ == round_store);
        }
        write_slots(&self.fds, &slots, state, false);
        if all_set {
            let rest = remaining(&self.fds, &slots);
            if rest.len() == 0 {
                ConstraintResult::Irrelevant
            } else {
                let next = AllDiffConstraint::new(rest);
                proof {
                    assert forall|i: int| 0 <= i < next.fds.len() implies state@.has(
                        #[trigger] next.fds@[i].var,
                    ) by {
                        assert(self.fds@.contains(next.fds@[i]));
                        let j = choose|j: int|
                            0 <= j < self.fds@.len() && self.fds@[j] == next.fds@[i];
                        assert(start.has(self.fds@[j].var));
                    }
                }
                ConstraintResult::Updated(next)
            }
        } else {
            ConstraintResult::Unchanged
        }
    }

    /// Whether one of the listed variables has an entry in `changes`.
    pub fn relevant(&self, changes: &VarMap) -> (r: bool)
        requires
            changes.wf(),
        ensures
            r == exists|i: int| 0 <= i < self.fds.len() && changes.has(#[trigger] self.fds@[i].var),
    {
        let mut i: usize = 0;
        while i < self.fds.len()
            invariant
                i <= self.fds.len(),
                changes.wf(),
                forall|k: int| 0 <= k < i ==> !changes.has(#[trigger] self.fds@[k].var),
            decreases self.fds.len() - i,
        {
            if changes.contains_key(&self.fds[i].var) {
                return true;
            }
            i = i + 1;
        }
        false
    }

    /// Whether the constraint has to run again after the variables in `vars`
    /// changed.
    pub fn need_update(&self, vars: &VarMap) -> (r: bool)
        requires
            vars.wf(),
        ensures
            r == exists|i: int| 0 <= i < self.fds.len() && vars.has(#[trigger] self.fds@[i].var),
    {
        self.relevant(vars)
    }

    /// Rewrites each listed variable to its representative.
    pub fn update_vars(&mut self, store: &Store)
        requires
            store.wf(),
            old(self).wf(store@),
        ensures
            final(self).wf(store@),
            final(self).fds.len() == old(self).fds.len(),
            forall|i: int|
                0 <= i < old(self).fds.len() ==> (#[trigger] final(self).fds@[i]).var
                    == store@.follow(old(self).fds@[i].var),
    {
        let ghost before = self.fds@;
        let mut i: usize = 0;
        while i < self.fds.len()
            invariant
                i <= self.fds.len(),
                self.fds.len() == before.len(),
                store.wf(),
                forall|k: int| 0 <= k < before.len() ==> store@.has(#[trigger] before[k].var),
                forall|k: int|
                    0 <= k < i ==> (#[trigger] self.fds@[k]).var == store@.follow(before[k].var),
                forall|k: int| i <= k < self.fds.len() ==> self.fds@[k] == #[trigger] before[k],
            decreases self.fds.len() - i,
        {
            assert(store@.has(before[i as int].var));
            let root = store.follow_id(self.fds[i].var);
            self.fds.set(i, Var::new(root));
            i = i + 1;
        }
        proof {
            assert forall|k: int| 0 <= k < self.fds.len() implies store@.has(
                #[trigger] self.fds@[k].var,
            ) by {
                store@.lemma_follow_ends(before[k].var);
            }
        }
    }
}

impl Clone for AllDiffConstraint {
    fn clone(&self) -> (r: Self)
        ensures
            r.fds@ == self.fds@,
    {
        let mut fds: Vec<Var<Fd>> = Vec::new();
        let mut i: usize = 0;
        while i < self.fds.len()
            invariant
                i <= self.fds.len(),
                fds@ == self.fds@.subrange(0, i as int),
            decreases self.fds.len() - i,
        {
            fds.push(self.fds[i]);
            i = i + 1;
        }
        assert(self.fds@.subrange(0, self.fds.len() as int) == self.fds@);
        AllDiffConstraint { fds }
    }
}

impl Constraint for AllDiffConstraint {
    open spec fn as_propagator(self) -> Propagator {
        Propagator::AllDiff(self)
    }

    fn into_propagator(self) -> (p: Propagator) {
        Propagator::AllDiff(self)
    }
}

impl ToConstraint for AllDiffConstraint {
    type ConstraintType = AllDiffConstraint;

    open spec fn ready(self, b: Bindings) -> bool {
        self.wf(b)
    }

    open spec fn lowered(self, before: Bindings, after: Bindings, c: AllDiffConstraint) -> bool {
        after == before && c == self
    }

    fn into_constraint(self, state: &mut State) -> (c: AllDiffConstraint) {
        assert forall|i: int| 0 <= i < state@.tags.len() implies state@.tags[i]
            == #[trigger] state@.tags[i] by {}
        self
    }
}

} // verus!
