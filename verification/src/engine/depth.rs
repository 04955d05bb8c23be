//! Why a descent into nested values never runs out of fuel.
//!
//! A descent keeps the path of the representatives whose values it is
//! inside of. These are variables of the store, each bound to a value, and
//! none of them twice: so there are no more of them than the store has
//! variables. A descent that starts with as much fuel as the store has
//! variables therefore stops at a representative it has met before it
//! could use the fuel up, and gives what it would give with any more fuel.

use crate::engine::bindings::Bindings;
use crate::engine::narrowing::{cell_narrows, narrows};
use crate::engine::vars::{UntypedVar, ValueView, VarRefView};
use vstd::prelude::*;
use vstd::set_lib::{lemma_int_range, lemma_len_subset, set_int_range};

verus! {

/// The number that stands for a variable.
pub open spec fn id_of(v: UntypedVar) -> int {
    v.id as int
}

/// Different variables with identifiers below `n` are at most `n`.
pub proof fn lemma_path_short(path: Seq<UntypedVar>, n: nat)
    requires
        path.no_duplicates(),
        forall|i: int| 0 <= i < path.len() ==> (#[trigger] path[i]).id < n,
    ensures
        path.len() <= n,
{
    let ids = path.map_values(|v: UntypedVar| id_of(v));
    assert forall|i: int, j: int| 0 <= i < ids.len() && 0 <= j < ids.len() && i != j implies ids[i]
        != ids[j] by {
        assert(path[i] != path[j]);
        assert(path[i].id != path[j].id);
    }
    ids.unique_seq_to_set();
    lemma_int_range(0, n as int);
    assert forall|k: int| ids.to_set().contains(k) implies set_int_range(0, n as int).contains(
        k,
    ) by {
        let i = choose|i: int| 0 <= i < ids.len() && ids[i] == k;
        assert(path[i].id < n);
    }
    lemma_len_subset(ids.to_set(), set_int_range(0, n as int));
}

impl Bindings {
    /// Whether `path` can be the way into a nested value: its variables are
    /// variables of the store, each bound to a value, and none comes twice.
    pub open spec fn path_ok(self, path: Seq<UntypedVar>) -> bool {
        &&& path.no_duplicates()
        &&& forall|i: int|
            0 <= i < path.len() ==> self.has(#[trigger] path[i]) && self.cell(path[i]) matches Some(
                VarRefView::Exactly(_),
            )
    }

    /// A path that leaves out a variable of the store is shorter than the
    /// store.
    pub proof fn lemma_path_room(self, path: Seq<UntypedVar>, r: UntypedVar)
        requires
            self.path_ok(path),
            self.has(r),
            !path.contains(r),
        ensures
            path.push(r).no_duplicates(),
            path.len() < self.cells.len(),
    {
        let longer = path.push(r);
        assert forall|i: int, j: int|
            0 <= i < longer.len() && 0 <= j < longer.len() && i != j implies longer[i]
            != longer[j] by {
            if i < path.len() {
                assert(path.contains(longer[i]));
            }
            if j < path.len() {
                assert(path.contains(longer[j]));
            }
        }
        lemma_path_short(longer, self.cells.len());
    }

    /// A path with a bound variable that is not on it at its end is a path.
    pub proof fn lemma_path_longer(self, path: Seq<UntypedVar>, r: UntypedVar)
        requires
            self.path_ok(path),
            self.has(r),
            self.cell(r) matches Some(VarRefView::Exactly(_)),
            !path.contains(r),
        ensures
            self.path_ok(path.push(r)),
    {
        self.lemma_path_room(path, r);
    }

    /// A path stays a path where the store is narrowed.
    pub proof fn lemma_path_kept(self, after: Bindings, path: Seq<UntypedVar>)
        requires
            self.path_ok(path),
            narrows(self, after),
        ensures
            after.path_ok(path),
    {
        assert forall|i: int| 0 <= i < path.len() implies after.has(#[trigger] path[i])
            && after.cell(path[i]) matches Some(VarRefView::Exactly(_)) by {
            let k = path[i].id as int;
            assert(self.has(path[i]));
            assert(cell_narrows(self.cells[k], after.cells[k]));
        }
    }

    /// The occurs check does not depend on its fuel, once fuel and path
    /// together are as long as the store.
    pub proof fn lemma_occurs_fuel(
        self,
        needle: UntypedVar,
        x: UntypedVar,
        path: Seq<UntypedVar>,
        fuel: nat,
        more: nat,
    )
        requires
            self.wf(),
            self.has(x),
            self.path_ok(path),
            fuel + path.len() >= self.cells.len(),
            more >= fuel,
        ensures
            self.occurs(needle, x, path, more) == self.occurs(needle, x, path, fuel),
        decreases more, 0nat,
    {
        let r = self.follow(x);
        self.lemma_follow_ends(x);
        assert(self.cell_ok(r.id as int));
        if more > 0 && r != needle {
            if let Some(VarRefView::Exactly(v)) = self.cell(r) {
                if !path.contains(r) {
                    self.lemma_path_room(path, r);
                    self.lemma_path_longer(path, r);
                    self.lemma_occurs_in_fuel(
                        needle,
                        v,
                        path.push(r),
                        (fuel - 1) as nat,
                        (more - 1) as nat,
                    );
                }
            } else if !path.contains(r) {
                self.lemma_path_room(path, r);
            }
        }
    }

    /// The occurs check on a value does not depend on its fuel, once fuel
    /// and path together are as long as the store.
    pub proof fn lemma_occurs_in_fuel(
        self,
        needle: UntypedVar,
        v: ValueView,
        path: Seq<UntypedVar>,
        fuel: nat,
        more: nat,
    )
        requires
            self.wf(),
            self.value_ok(v),
            self.path_ok(path),
            fuel + path.len() >= self.cells.len(),
            more >= fuel,
        ensures
            self.occurs_in(needle, v, path, more) == self.occurs_in(needle, v, path, fuel),
        decreases more, 2nat,
    {
        assert forall|k: int| 0 <= k < v.subs().len() implies self.occurs_sub(
            needle,
            #[trigger] v.subs()[k],
            path,
            more,
        ) == self.occurs_sub(needle, v.subs()[k], path, fuel) by {
            self.lemma_occurs_fuel(needle, v.subs()[k], path, fuel, more);
        }
    }

    /// Unification does not depend on its fuel, once fuel and path together
    /// are as long as the store.
    pub proof fn lemma_unify_fuel(
        self,
        x: UntypedVar,
        y: UntypedVar,
        path: Seq<UntypedVar>,
        fuel: nat,
        more: nat,
    )
        requires
            self.wf(),
            self.path_ok(path),
            fuel + path.len() >= self.cells.len(),
            more >= fuel,
        ensures
            self.unify(x, y, path, more) == self.unify(x, y, path, fuel),
        decreases more, 0nat, 0nat,
    {
        if self.ok && self.has(x) && self.has(y) {
            let rx = self.follow(x);
            let ry = self.follow(y);
            self.lemma_follow_ends(x);
            self.lemma_follow_ends(y);
            if rx != ry && self.tag(rx) == self.tag(ry) {
                match (self.cell(rx), self.cell(ry)) {
                    (Some(VarRefView::Exactly(v)), Some(VarRefView::Exactly(w))) => {
                        if !path.contains(rx) && !path.contains(ry) {
                            let inside = Self::deeper(path, rx, ry);
                            if rx.id < ry.id {
                                self.lemma_path_longer(path, rx);
                                assert(!path.push(rx).contains(ry)) by {
                                    if path.push(rx).contains(ry) {
                                        let i = choose|i: int|
                                            0 <= i < path.push(rx).len() && path.push(rx)[i] == ry;
                                        if i < path.len() {
                                            assert(path.contains(ry));
                                        }
                                    }
                                }
                                self.lemma_path_longer(path.push(rx), ry);
                            } else {
                                self.lemma_path_longer(path, ry);
                                assert(!path.push(ry).contains(rx)) by {
                                    if path.push(ry).contains(rx) {
                                        let i = choose|i: int|
                                            0 <= i < path.push(ry).len() && path.push(ry)[i] == rx;
                                        if i < path.len() {
                                            assert(path.contains(rx));
                                        }
                                    }
                                }
                                self.lemma_path_longer(path.push(ry), rx);
                            }
                            self.lemma_path_room(path, rx);
                            assert(self.cell_ok(rx.id as int));
                            assert(self.cell_ok(ry.id as int));
                            self.lemma_unify_values_fuel(
                                Some(rx),
                                v,
                                Some(ry),
                                w,
                                inside,
                                (fuel - 1) as nat,
                                (more - 1) as nat,
                            );
                        }
                    },
                    _ => {},
                }
            }
        }
    }

    /// Unifying two values does not depend on the fuel, once fuel and path
    /// together are as long as the store.
    pub proof fn lemma_unify_values_fuel(
        self,
        rx: Option<UntypedVar>,
        v: ValueView,
        ry: Option<UntypedVar>,
        w: ValueView,
        path: Seq<UntypedVar>,
        fuel: nat,
        more: nat,
    )
        requires
            self.wf(),
            self.path_ok(path),
            fuel + path.len() >= self.cells.len(),
            more >= fuel,
        ensures
            self.unify_values(rx, v, ry, w, path, more) == self.unify_values(
                rx,
                v,
                ry,
                w,
                path,
                fuel,
            ),
        decreases more, 2nat, 0nat,
    {
        match (v, w) {
            (ValueView::Tuple(s), ValueView::Tuple(t)) => {
                if s.len() == t.len() {
                    self.lemma_unify_subs_fuel(s, t, 0, path, fuel, more);
                }
            },
            (ValueView::Opt(Some(a)), ValueView::Opt(Some(b))) => {
                self.lemma_unify_fuel(b, a, path, fuel, more);
            },
            (ValueView::Res(Ok(a)), ValueView::Res(Ok(b))) => {
                self.lemma_unify_fuel(b, a, path, fuel, more);
            },
            (ValueView::Res(Err(a)), ValueView::Res(Err(b))) => {
                self.lemma_unify_fuel(b, a, path, fuel, more);
            },
            _ => {},
        }
    }

    /// Unifying the components of two tuples does not depend on the fuel,
    /// once fuel and path together are as long as the store.
    pub proof fn lemma_unify_subs_fuel(
        self,
        s: Seq<UntypedVar>,
        t: Seq<UntypedVar>,
        i: nat,
        path: Seq<UntypedVar>,
        fuel: nat,
        more: nat,
    )
        requires
            self.wf(),
            self.path_ok(path),
            fuel + path.len() >= self.cells.len(),
            more >= fuel,
        ensures
            self.unify_subs(s, t, i, path, more) == self.unify_subs(s, t, i, path, fuel),
        decreases more, 1nat, s.len() - i,
    {
        if i < s.len() {
            let mid = self.unify(t[i as int], s[i as int], path, more);
            self.lemma_unify_fuel(t[i as int], s[i as int], path, fuel, more);
            self.lemma_unify_keeps(t[i as int], s[i as int], path, more);
            self.lemma_unify_narrows(t[i as int], s[i as int], path, more);
            self.lemma_path_kept(mid, path);
            mid.lemma_unify_subs_fuel(s, t, i + 1, path, fuel, more);
        }
    }

    /// Unifying two variables of a store never runs out of fuel: with as
    /// much fuel as the store has variables it leaves what it leaves with
    /// any more.
    pub proof fn lemma_unify_deep_enough(self, x: UntypedVar, y: UntypedVar, more: nat)
        requires
            self.wf(),
            more >= self.cells.len(),
        ensures
            self.unify(x, y, Seq::empty(), more) == self.unify(
                x,
                y,
                Seq::empty(),
                self.cells.len(),
            ),
    {
        self.lemma_unify_fuel(x, y, Seq::empty(), self.cells.len(), more);
    }

    /// Unifying a variable with a value never runs out of fuel: with as much
    /// fuel as the store has variables it leaves what it leaves with any
    /// more.
    pub proof fn lemma_unify_value_deep_enough(self, x: UntypedVar, v: ValueView, more: nat)
        requires
            self.wf(),
            more >= self.cells.len(),
        ensures
            self.unify_value(x, v, more) == self.unify_value(x, v, self.cells.len()),
    {
        if self.ok && self.has(x) {
            let r = self.follow(x);
            self.lemma_follow_ends(x);
            if let Some(VarRefView::Exactly(w)) = self.cell(r) {
                let path = seq![r];
                assert(self.path_ok(path));
                self.lemma_unify_values_fuel(
                    Some(r),
                    w,
                    None,
                    v,
                    path,
                    (self.cells.len() - 1) as nat,
                    (more - 1) as nat,
                );
            }
        }
    }

    /// The occurs check never runs out of fuel: with as much fuel as the
    /// store has variables it answers what it answers with any more.
    pub proof fn lemma_occurs_deep_enough(self, needle: UntypedVar, x: UntypedVar, more: nat)
        requires
            self.wf(),
            self.has(x),
            more >= self.cells.len(),
        ensures
            self.occurs(needle, x, Seq::empty(), more) == self.occurs_at(needle, x),
    {
        self.lemma_occurs_fuel(needle, x, Seq::empty(), self.cells.len(), more);
    }
}

} // verus!
