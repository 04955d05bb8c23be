//! What unification does to a store, stated on the model, and the laws that
//! follow.
//!
//! Unification descends through structured values. On its way down it
//! keeps the path of the representatives whose values it is inside of, and
//! fails where it meets one of them again: a term cannot equal one of its
//! own parts. The descent also counts down `fuel`, one unit for each value
//! it enters. The store hands in its number of variables, and that is never
//! used up: a path holds no representative twice.

use crate::engine::bindings::Bindings;
use crate::engine::narrowing::{cell_narrows, lemma_narrows_trans, narrows};
use crate::engine::vars::{TypeList, TypeTag, UntypedVar, ValueView, VarRefView};
use crate::finitedomain::{lemma_meet, lemma_meet_monotone, lemma_meet_symmetric, FdView};
use vstd::prelude::*;

verus! {

impl Bindings {
    /// Whether the variable `needle` is found when the term of `x` is
    /// walked: `x` resolves to it, or it is found in the value that `x`
    /// resolves to. Where the walk meets a representative of `path` again,
    /// and where the fuel runs out, the answer is yes.
    pub open spec fn occurs(
        self,
        needle: UntypedVar,
        x: UntypedVar,
        path: Seq<UntypedVar>,
        fuel: nat,
    ) -> bool
        decreases fuel, 0nat,
    {
        if fuel == 0 {
            true
        } else {
            let r = self.follow(x);
            r == needle || match self.cell(r) {
                Some(VarRefView::Exactly(v)) => path.contains(r) || self.occurs_in(
                    needle,
                    v,
                    path.push(r),
                    (fuel - 1) as nat,
                ),
                _ => false,
            }
        }
    }

    /// Whether `needle` is found at one of the components of the value `v`.
    pub open spec fn occurs_in(
        self,
        needle: UntypedVar,
        v: ValueView,
        path: Seq<UntypedVar>,
        fuel: nat,
    ) -> bool
        decreases fuel, 2nat,
    {
        exists|k: int|
            0 <= k < v.subs().len() && self.occurs_sub(needle, #[trigger] v.subs()[k], path, fuel)
    }

    /// Whether `needle` is found at the component `s` of a value: `s` is the
    /// needle, or the type of `s` can contain the type of the needle and the
    /// needle is found when the term of `s` is walked.
    pub open spec fn occurs_sub(
        self,
        needle: UntypedVar,
        s: UntypedVar,
        path: Seq<UntypedVar>,
        fuel: nat,
    ) -> bool
        decreases fuel, 1nat,
    {
        s == needle || (self.tag(s).can_contain(TypeList::Nil, self.tag(needle)) && self.occurs(
            needle,
            s,
            path,
            fuel,
        ))
    }

    /// Whether `needle` is found in the term of `x`, walked from its top.
    pub open spec fn occurs_at(self, needle: UntypedVar, x: UntypedVar) -> bool {
        self.occurs(needle, x, Seq::empty(), self.cells.len())
    }

    /// The path that leads into the values of the representatives `rx` and
    /// `ry`: the lower one comes first.
    pub open spec fn deeper(path: Seq<UntypedVar>, rx: UntypedVar, ry: UntypedVar) -> Seq<
        UntypedVar,
    > {
        if rx.id < ry.id {
            path.push(rx).push(ry)
        } else {
            path.push(ry).push(rx)
        }
    }

    /// The store with the domain of `x` replaced by `to`, where that differs
    /// from the domain `from` that `x` has. A domain that stands in no cell
    /// has nothing to replace.
    pub open spec fn narrow(self, x: Option<UntypedVar>, from: FdView, to: FdView) -> Bindings {
        match x {
            Some(r) if to != from => self.bind(r, ValueView::Fd(to)),
            _ => self,
        }
    }

    /// The store after `x` and `y` were unified.
    ///
    /// A failed store is left as it is. Otherwise both variables are
    /// resolved to their representatives. Where these are one variable
    /// nothing changes; where their types differ the store fails. Two
    /// unbound representatives are merged, the one with the higher
    /// identifier into the other. An unbound one is merged into a bound one
    /// unless it is found in the term of the bound one, which fails the store.
    /// Two bound ones have their values unified, unless one of them is on
    /// the path already, which fails the store.
    pub open spec fn unify(
        self,
        x: UntypedVar,
        y: UntypedVar,
        path: Seq<UntypedVar>,
        fuel: nat,
    ) -> Bindings
        decreases fuel, 0nat, 0nat,
    {
        if !self.ok {
            self
        } else if !self.has(x) || !self.has(y) {
            self.fail()
        } else {
            let rx = self.follow(x);
            let ry = self.follow(y);
            if rx == ry {
                self
            } else if self.tag(rx) != self.tag(ry) {
                self.fail()
            } else {
                match (self.cell(rx), self.cell(ry)) {
                    (None, None) => if rx.id < ry.id {
                        self.link(ry, rx)
                    } else {
                        self.link(rx, ry)
                    },
                    (None, Some(VarRefView::Exactly(_))) => if self.occurs_at(rx, ry) {
                        self.fail()
                    } else {
                        self.link(rx, ry)
                    },
                    (Some(VarRefView::Exactly(_)), None) => if self.occurs_at(ry, rx) {
                        self.fail()
                    } else {
                        self.link(ry, rx)
                    },
                    (Some(VarRefView::Exactly(v)), Some(VarRefView::Exactly(w))) => if fuel == 0
                        || path.contains(rx) || path.contains(ry) {
                        self.fail()
                    } else {
                        self.unify_values(
                            Some(rx),
                            v,
                            Some(ry),
                            w,
                            Self::deeper(path, rx, ry),
                            (fuel - 1) as nat,
                        )
                    },
                    _ => self.fail(),
                }
            }
        }
    }

    /// Whether the components of a tuple, from position `i` on, have the
    /// types that the tuple type `tag` lists.
    pub open spec fn tuple_fits(self, subs: Seq<UntypedVar>, i: nat, tag: TypeTag) -> bool
        decreases subs.len() - i,
    {
        if i >= subs.len() {
            tag == TypeTag::Unit
        } else {
            match tag {
                TypeTag::Tuple(first, rest) => self.has(subs[i as int]) && self.tag(subs[i as int])
                    == *first && self.tuple_fits(subs, i + 1, *rest),
                _ => false,
            }
        }
    }

    /// Whether the value `v` is of type `tag`: a scalar of that kind, or a
    /// structured value whose variables have the component types of `tag`.
    pub open spec fn fits(self, v: ValueView, tag: TypeTag) -> bool {
        match (v, tag) {
            (ValueView::Unit, TypeTag::Unit) => true,
            (ValueView::Bool(_), TypeTag::Bool) => true,
            (ValueView::Char(_), TypeTag::Char) => true,
            (ValueView::Str(_), TypeTag::Str) => true,
            (ValueView::Int(_), TypeTag::Int) => true,
            (ValueView::Usize(_), TypeTag::Usize) => true,
            (ValueView::Fd(_), TypeTag::Fd) => true,
            (ValueView::Opt(None), TypeTag::Opt(_)) => true,
            (ValueView::Opt(Some(a)), TypeTag::Opt(t)) => self.has(a) && self.tag(a) == *t,
            (ValueView::Res(Ok(a)), TypeTag::Res(t, _)) => self.has(a) && self.tag(a) == *t,
            (ValueView::Res(Err(a)), TypeTag::Res(_, e)) => self.has(a) && self.tag(a) == *e,
            (ValueView::Unit, TypeTag::List(_)) => true,
            (ValueView::Tuple(subs), TypeTag::List(a)) => subs.len() == 2 && self.has(subs[0])
                && self.tag(subs[0]) == *a && self.has(subs[1]) && self.tag(subs[1]) == tag,
            (ValueView::Tuple(subs), _) => self.tuple_fits(subs, 0, tag),
            _ => false,
        }
    }

    /// The store after `x` was unified with the value `v`.
    ///
    /// A failed store is left as it is. The store fails where `v` is not of
    /// the type of `x`. Where `x` resolves to an unbound representative,
    /// that becomes bound to `v`, unless it is found in `v`, which fails the
    /// store. Where it resolves to a value, that value and `v` are unified.
    pub open spec fn unify_value(self, x: UntypedVar, v: ValueView, fuel: nat) -> Bindings {
        if !self.ok {
            self
        } else if !self.has(x) {
            self.fail()
        } else {
            let r = self.follow(x);
            if !self.fits(v, self.tag(r)) || fuel == 0 {
                self.fail()
            } else {
                match self.cell(r) {
                    None => if self.occurs_in(r, v, Seq::empty(), self.cells.len()) {
                        self.fail()
                    } else {
                        self.bind(r, v)
                    },
                    Some(VarRefView::Exactly(w)) => self.unify_values(
                        Some(r),
                        w,
                        None,
                        v,
                        seq![r],
                        (fuel - 1) as nat,
                    ),
                    _ => self.fail(),
                }
            }
        }
    }

    /// The store after `a` and `b` were unified as variables of type `ty`:
    /// the store fails where one of them is not of that type.
    pub open spec fn typed_unify(self, a: UntypedVar, b: UntypedVar, ty: TypeTag) -> Bindings {
        if !self.ok {
            self
        } else if !self.has(a) || !self.has(b) || self.tag(a) != ty || self.tag(b) != ty {
            self.fail()
        } else {
            self.unify(a, b, Seq::empty(), self.cells.len())
        }
    }

    /// The store after the value `v` of the representative `rx` and the
    /// value `w` of the representative `ry` were unified. A value that
    /// stands in no cell has no representative.
    ///
    /// Two finite domains are both narrowed to the candidates they share,
    /// and fail the store where they share none. Two tuples of one length
    /// have their components unified in order; two options or results of
    /// one variant have their payloads unified. Any other two values
    /// must be equal.
    pub open spec fn unify_values(
        self,
        rx: Option<UntypedVar>,
        v: ValueView,
        ry: Option<UntypedVar>,
        w: ValueView,
        path: Seq<UntypedVar>,
        fuel: nat,
    ) -> Bindings
        decreases fuel, 2nat, 0nat,
    {
        match (v, w) {
            (ValueView::Fd(d), ValueView::Fd(e)) => {
                let m = d.meet(e);
                if m.is_err() {
                    self.fail()
                } else {
                    self.narrow(rx, d, m).narrow(ry, e, m)
                }
            },
            (ValueView::Tuple(s), ValueView::Tuple(t)) => if s.len() != t.len() {
                self.fail()
            } else {
                self.unify_subs(s, t, 0, path, fuel)
            },
            (ValueView::Opt(Some(a)), ValueView::Opt(Some(b))) => self.unify(b, a, path, fuel),
            (ValueView::Res(Ok(a)), ValueView::Res(Ok(b))) => self.unify(b, a, path, fuel),
            (ValueView::Res(Err(a)), ValueView::Res(Err(b))) => self.unify(b, a, path, fuel),
            _ => if v == w {
                self
            } else {
                self.fail()
            },
        }
    }

    /// The store after the components of two tuples were unified, from
    /// position `i` on, each in the store that the one before left.
    pub open spec fn unify_subs(
        self,
        s: Seq<UntypedVar>,
        t: Seq<UntypedVar>,
        i: nat,
        path: Seq<UntypedVar>,
        fuel: nat,
    ) -> Bindings
        decreases fuel, 1nat, s.len() - i,
    {
        if i >= s.len() {
            self
        } else {
            self.unify(t[i as int], s[i as int], path, fuel).unify_subs(s, t, i + 1, path, fuel)
        }
    }

    /// What every unification leaves as it was: the variables and their
    /// types, the invariant, and a failure that was there before.
    pub open spec fn unified_from(self, before: Bindings) -> bool {
        &&& self.wf()
        &&& self.cells.len() == before.cells.len()
        &&& self.tags == before.tags
        &&& self.ok ==> before.ok
        &&& !before.ok ==> self == before
    }

    /// Narrowing a bound variable to a usable domain keeps the invariant.
    pub proof fn lemma_narrow(self, x: Option<UntypedVar>, from: FdView, to: FdView)
        requires
            self.wf(),
            x matches Some(r) ==> self.has(r),
            to.wf(),
        ensures
            self.narrow(x, from, to).wf(),
            self.narrow(x, from, to).cells.len() == self.cells.len(),
            self.narrow(x, from, to).tags == self.tags,
            self.narrow(x, from, to).ok == self.ok,
    {
        if let Some(r) = x {
            if to != from {
                assert(ValueView::Fd(to).subs().len() == 0);
                self.lemma_bind_wf(r, ValueView::Fd(to));
            }
        }
    }

    /// Unification keeps the invariant, the variables and their types.
    pub proof fn lemma_unify_keeps(
        self,
        x: UntypedVar,
        y: UntypedVar,
        path: Seq<UntypedVar>,
        fuel: nat,
    )
        requires
            self.wf(),
        ensures
            self.unify(x, y, path, fuel).unified_from(self),
        decreases fuel, 0nat, 0nat,
    {
        self.lemma_fail_wf();
        if self.ok && self.has(x) && self.has(y) {
            let rx = self.follow(x);
            let ry = self.follow(y);
            self.lemma_follow_ends(x);
            self.lemma_follow_ends(y);
            if rx != ry && self.tag(rx) == self.tag(ry) {
                match (self.cell(rx), self.cell(ry)) {
                    (None, None) => {
                        self.lemma_link_wf(ry, rx);
                        self.lemma_link_wf(rx, ry);
                    },
                    (None, Some(VarRefView::Exactly(_))) => {
                        self.lemma_link_wf(rx, ry);
                    },
                    (Some(VarRefView::Exactly(_)), None) => {
                        self.lemma_link_wf(ry, rx);
                    },
                    (Some(VarRefView::Exactly(v)), Some(VarRefView::Exactly(w))) => {
                        if fuel > 0 {
                            assert(self.cell_ok(rx.id as int));
                            assert(self.cell_ok(ry.id as int));
                            self.lemma_unify_values_keeps(
                                Some(rx),
                                v,
                                Some(ry),
                                w,
                                Self::deeper(path, rx, ry),
                                (fuel - 1) as nat,
                            );
                        }
                    },
                    _ => {},
                }
            }
        }
    }

    /// Unifying two values keeps the invariant, the variables and their
    /// types.
    pub proof fn lemma_unify_values_keeps(
        self,
        rx: Option<UntypedVar>,
        v: ValueView,
        ry: Option<UntypedVar>,
        w: ValueView,
        path: Seq<UntypedVar>,
        fuel: nat,
    )
        requires
            self.wf(),
            self.ok,
            rx matches Some(r) ==> self.has(r),
            ry matches Some(r) ==> self.has(r),
            v.sound(),
            w.sound(),
        ensures
            self.unify_values(rx, v, ry, w, path, fuel).unified_from(self),
        decreases fuel, 2nat, 0nat,
    {
        self.lemma_fail_wf();
        match (v, w) {
            (ValueView::Fd(d), ValueView::Fd(e)) => {
                let m = d.meet(e);
                lemma_meet(d, e);
                if !m.is_err() {
                    self.lemma_narrow(rx, d, m);
                    self.narrow(rx, d, m).lemma_narrow(ry, e, m);
                }
            },
            (ValueView::Tuple(s), ValueView::Tuple(t)) => {
                if s.len() == t.len() {
                    self.lemma_unify_subs_keeps(s, t, 0, path, fuel);
                }
            },
            (ValueView::Opt(Some(a)), ValueView::Opt(Some(b))) => {
                self.lemma_unify_keeps(b, a, path, fuel);
            },
            (ValueView::Res(Ok(a)), ValueView::Res(Ok(b))) => {
                self.lemma_unify_keeps(b, a, path, fuel);
            },
            (ValueView::Res(Err(a)), ValueView::Res(Err(b))) => {
                self.lemma_unify_keeps(b, a, path, fuel);
            },
            _ => {},
        }
    }

    /// Unifying the components of two tuples keeps the invariant, the
    /// variables and their types.
    pub proof fn lemma_unify_subs_keeps(
        self,
        s: Seq<UntypedVar>,
        t: Seq<UntypedVar>,
        i: nat,
        path: Seq<UntypedVar>,
        fuel: nat,
    )
        requires
            self.wf(),
        ensures
            self.unify_subs(s, t, i, path, fuel).unified_from(self),
        decreases fuel, 1nat, s.len() - i,
    {
        if i < s.len() {
            let mid = self.unify(t[i as int], s[i as int], path, fuel);
            self.lemma_unify_keeps(t[i as int], s[i as int], path, fuel);
            mid.lemma_unify_subs_keeps(s, t, i + 1, path, fuel);
        }
    }

    /// Unification is symmetric: unifying `x` with `y` leaves the store that
    /// unifying `y` with `x` leaves.
    pub proof fn lemma_unify_symmetric(
        self,
        x: UntypedVar,
        y: UntypedVar,
        path: Seq<UntypedVar>,
        fuel: nat,
    )
        requires
            self.wf(),
        ensures
            self.unify(x, y, path, fuel) == self.unify(y, x, path, fuel),
        decreases fuel, 0nat, 0nat,
    {
        if self.ok && self.has(x) && self.has(y) {
            let rx = self.follow(x);
            let ry = self.follow(y);
            self.lemma_follow_ends(x);
            self.lemma_follow_ends(y);
            if rx != ry && self.tag(rx) == self.tag(ry) {
                match (self.cell(rx), self.cell(ry)) {
                    (Some(VarRefView::Exactly(v)), Some(VarRefView::Exactly(w))) => {
                        if fuel > 0 {
                            assert(self.cell_ok(rx.id as int));
                            assert(self.cell_ok(ry.id as int));
                            self.lemma_unify_values_symmetric(
                                Some(rx),
                                v,
                                Some(ry),
                                w,
                                Self::deeper(path, rx, ry),
                                (fuel - 1) as nat,
                            );
                        }
                    },
                    _ => {},
                }
            }
        }
    }

    /// Unifying two values does not depend on which of them comes first.
    pub proof fn lemma_unify_values_symmetric(
        self,
        rx: Option<UntypedVar>,
        v: ValueView,
        ry: Option<UntypedVar>,
        w: ValueView,
        path: Seq<UntypedVar>,
        fuel: nat,
    )
        requires
            self.wf(),
            rx matches Some(r) ==> self.has(r),
            ry matches Some(r) ==> self.has(r),
            rx is Some && ry is Some ==> rx != ry,
            v.sound(),
            w.sound(),
        ensures
            self.unify_values(rx, v, ry, w, path, fuel) == self.unify_values(
                ry,
                w,
                rx,
                v,
                path,
                fuel,
            ),
        decreases fuel, 2nat, 0nat,
    {
        match (v, w) {
            (ValueView::Fd(d), ValueView::Fd(e)) => {
                lemma_meet_symmetric(d, e);
                let m = d.meet(e);
                let one = self.narrow(rx, d, m).narrow(ry, e, m);
                let two = self.narrow(ry, e, m).narrow(rx, d, m);
                assert(one.cells =~= two.cells);
                assert(one =~= two);
            },
            (ValueView::Tuple(s), ValueView::Tuple(t)) => {
                if s.len() == t.len() {
                    self.lemma_unify_subs_symmetric(s, t, 0, path, fuel);
                }
            },
            (ValueView::Opt(Some(a)), ValueView::Opt(Some(b))) => {
                self.lemma_unify_symmetric(b, a, path, fuel);
            },
            (ValueView::Res(Ok(a)), ValueView::Res(Ok(b))) => {
                self.lemma_unify_symmetric(b, a, path, fuel);
            },
            (ValueView::Res(Err(a)), ValueView::Res(Err(b))) => {
                self.lemma_unify_symmetric(b, a, path, fuel);
            },
            _ => {},
        }
    }

    /// Unifying the components of two tuples does not depend on which tuple
    /// comes first.
    pub proof fn lemma_unify_subs_symmetric(
        self,
        s: Seq<UntypedVar>,
        t: Seq<UntypedVar>,
        i: nat,
        path: Seq<UntypedVar>,
        fuel: nat,
    )
        requires
            self.wf(),
            s.len() == t.len(),
        ensures
            self.unify_subs(s, t, i, path, fuel) == self.unify_subs(t, s, i, path, fuel),
        decreases fuel, 1nat, s.len() - i,
    {
        if i < s.len() {
            let mid = self.unify(t[i as int], s[i as int], path, fuel);
            self.lemma_unify_symmetric(t[i as int], s[i as int], path, fuel);
            self.lemma_unify_keeps(t[i as int], s[i as int], path, fuel);
            mid.lemma_unify_subs_symmetric(s, t, i + 1, path, fuel);
        }
    }

    /// Unifying a variable with a value keeps the invariant, the variables
    /// and their types.
    pub proof fn lemma_unify_value_keeps(self, x: UntypedVar, v: ValueView, fuel: nat)
        requires
            self.wf(),
            self.value_ok(v),
        ensures
            self.unify_value(x, v, fuel).unified_from(self),
    {
        self.lemma_fail_wf();
        if self.ok && self.has(x) {
            let r = self.follow(x);
            self.lemma_follow_ends(x);
            if self.fits(v, self.tag(r)) && fuel > 0 {
                match self.cell(r) {
                    None => {
                        self.lemma_bind_wf(r, v);
                    },
                    Some(VarRefView::Exactly(w)) => {
                        assert(self.cell_ok(r.id as int));
                        self.lemma_unify_values_keeps(Some(r), w, None, v, seq![r], (fuel - 1) as nat);
                    },
                    _ => {},
                }
            }
        }
    }

    /// Unification only narrows: it binds or merges unbound cells and takes
    /// candidates away from finite domains, and changes no other cell.
    pub proof fn lemma_unify_narrows(
        self,
        x: UntypedVar,
        y: UntypedVar,
        path: Seq<UntypedVar>,
        fuel: nat,
    )
        requires
            self.wf(),
        ensures
            narrows(self, self.unify(x, y, path, fuel)),
        decreases fuel, 0nat, 0nat,
    {
        if self.ok && self.has(x) && self.has(y) {
            let rx = self.follow(x);
            let ry = self.follow(y);
            self.lemma_follow_ends(x);
            self.lemma_follow_ends(y);
            if rx != ry && self.tag(rx) == self.tag(ry) {
                match (self.cell(rx), self.cell(ry)) {
                    (Some(VarRefView::Exactly(v)), Some(VarRefView::Exactly(w))) => {
                        if fuel > 0 {
                            assert(self.cell_ok(rx.id as int));
                            assert(self.cell_ok(ry.id as int));
                            self.lemma_unify_values_narrows(
                                Some(rx),
                                v,
                                Some(ry),
                                w,
                                Self::deeper(path, rx, ry),
                                (fuel - 1) as nat,
                            );
                        }
                    },
                    _ => {},
                }
            }
        }
    }

    /// Unifying the values of two cells only narrows.
    pub proof fn lemma_unify_values_narrows(
        self,
        rx: Option<UntypedVar>,
        v: ValueView,
        ry: Option<UntypedVar>,
        w: ValueView,
        path: Seq<UntypedVar>,
        fuel: nat,
    )
        requires
            self.wf(),
            rx matches Some(r) ==> self.has(r) && self.cell(r) == Some(VarRefView::Exactly(v)),
            ry matches Some(r) ==> self.has(r) && self.cell(r) == Some(VarRefView::Exactly(w)),
            rx is Some && ry is Some ==> rx != ry,
            v.sound(),
            w.sound(),
        ensures
            narrows(self, self.unify_values(rx, v, ry, w, path, fuel)),
        decreases fuel, 2nat, 0nat,
    {
        match (v, w) {
            (ValueView::Fd(d), ValueView::Fd(e)) => {
                let m = d.meet(e);
                lemma_meet(d, e);
                lemma_meet_symmetric(d, e);
                let after = self.narrow(rx, d, m).narrow(ry, e, m);
                if !m.is_err() {
                    assert forall|i: int| 0 <= i < self.cells.len() implies cell_narrows(
                        #[trigger] self.cells[i],
                        after.cells[i],
                    ) by {
                        assert(forall|x: usize| m.contains(x) ==> d.contains(x));
                        assert(forall|x: usize| m.contains(x) ==> e.contains(x));
                    }
                }
            },
            (ValueView::Tuple(s), ValueView::Tuple(t)) => {
                if s.len() == t.len() {
                    self.lemma_unify_subs_narrows(s, t, 0, path, fuel);
                }
            },
            (ValueView::Opt(Some(a)), ValueView::Opt(Some(b))) => {
                self.lemma_unify_narrows(b, a, path, fuel);
            },
            (ValueView::Res(Ok(a)), ValueView::Res(Ok(b))) => {
                self.lemma_unify_narrows(b, a, path, fuel);
            },
            (ValueView::Res(Err(a)), ValueView::Res(Err(b))) => {
                self.lemma_unify_narrows(b, a, path, fuel);
            },
            _ => {},
        }
    }

    /// Unifying the components of two tuples only narrows.
    pub proof fn lemma_unify_subs_narrows(
        self,
        s: Seq<UntypedVar>,
        t: Seq<UntypedVar>,
        i: nat,
        path: Seq<UntypedVar>,
        fuel: nat,
    )
        requires
            self.wf(),
        ensures
            narrows(self, self.unify_subs(s, t, i, path, fuel)),
        decreases fuel, 1nat, s.len() - i,
    {
        if i < s.len() {
            let mid = self.unify(t[i as int], s[i as int], path, fuel);
            self.lemma_unify_narrows(t[i as int], s[i as int], path, fuel);
            self.lemma_unify_keeps(t[i as int], s[i as int], path, fuel);
            mid.lemma_unify_subs_narrows(s, t, i + 1, path, fuel);
            lemma_narrows_trans(self, mid, mid.unify_subs(s, t, i + 1, path, fuel));
        }
    }

    /// Unifying a variable with a value only narrows.
    pub proof fn lemma_unify_value_narrows(self, x: UntypedVar, v: ValueView, fuel: nat)
        requires
            self.wf(),
            self.value_ok(v),
        ensures
            narrows(self, self.unify_value(x, v, fuel)),
    {
        if self.ok && self.has(x) {
            let r = self.follow(x);
            self.lemma_follow_ends(x);
            if self.fits(v, self.tag(r)) && fuel > 0 {
                match self.cell(r) {
                    Some(VarRefView::Exactly(w)) => {
                        assert(self.cell_ok(r.id as int));
                        self.lemma_unify_values_narrows(Some(r), w, None, v, seq![r], (fuel - 1) as nat);
                    },
                    _ => {},
                }
            }
        }
    }

    /// Unification is monotone: where a variable is narrowed to a part of
    /// its finite domain before it is unified, the unification fails if it
    /// fails without the narrowing, and else leaves a store that narrows the
    /// store that it leaves without the narrowing.
    pub proof fn lemma_unify_monotone(self, x: UntypedVar, y: UntypedVar, part: FdView, fuel: nat)
        requires
            self.wf(),
            self.has(x),
            self.value(x) matches Some(ValueView::Fd(d)) && forall|v: usize|
                part.contains(v) ==> d.contains(v),
            part.wf(),
        ensures
            self.bind(self.follow(x), ValueView::Fd(part)).unify(x, y, Seq::empty(), fuel).ok
                ==> self.unify(x, y, Seq::empty(), fuel).ok && narrows(
                self.unify(x, y, Seq::empty(), fuel),
                self.bind(self.follow(x), ValueView::Fd(part)).unify(x, y, Seq::empty(), fuel),
            ),
    {
        let rx = self.follow(x);
        let d = self.value(x)->Some_0->Fd_0;
        let tight = self.bind(rx, ValueView::Fd(part));
        self.lemma_follow_ends(x);
        assert(self.cell_ok(rx.id as int));
        assert(ValueView::Fd(part).subs().len() == 0);
        self.lemma_bind_wf(rx, ValueView::Fd(part));
        self.lemma_bind_follow(rx, ValueView::Fd(part), x);
        self.lemma_bind_follow(rx, ValueView::Fd(part), y);
        if self.ok && self.has(y) {
            let ry = self.follow(y);
            self.lemma_follow_ends(y);
            assert(self.cell_ok(ry.id as int));
            if rx != ry && self.tag(rx) == self.tag(ry) {
                match self.cell(ry) {
                    Some(VarRefView::Exactly(ValueView::Fd(e))) => {
                        if fuel > 0 {
                            lemma_meet(d, e);
                            lemma_meet(part, e);
                            lemma_meet_monotone(part, d, e);
                            let m = d.meet(e);
                            let n = part.meet(e);
                            if !n.is_err() {
                                let wide = self.narrow(Some(rx), d, m).narrow(Some(ry), e, m);
                                let narrow = tight.narrow(Some(rx), part, n).narrow(Some(ry), e, n);
                                assert forall|i: int| 0 <= i < wide.cells.len() implies cell_narrows(
                                    #[trigger] wide.cells[i],
                                    narrow.cells[i],
                                ) by {
                                    assert(forall|v: usize| n.contains(v) ==> m.contains(v));
                                    assert(forall|v: usize| n.contains(v) ==> e.contains(v));
                                    assert(forall|v: usize| n.contains(v) ==> part.contains(v));
                                }
                            }
                        }
                    },
                    Some(VarRefView::Exactly(w)) => {},
                    None => {
                        assert(ValueView::Fd(d).subs().len() == 0);
                        let top = self.cells.len();
                        let inside = Seq::<UntypedVar>::empty().push(rx);
                        if top > 0 {
                            assert(!self.occurs_in(ry, ValueView::Fd(d), inside, (top - 1) as nat));
                            assert(!tight.occurs_in(
                                ry,
                                ValueView::Fd(part),
                                inside,
                                (top - 1) as nat,
                            ));
                            assert(!Seq::<UntypedVar>::empty().contains(rx));
                            let wide = self.link(ry, rx);
                            let narrow = tight.link(ry, rx);
                            assert forall|i: int| 0 <= i < wide.cells.len() implies cell_narrows(
                                #[trigger] wide.cells[i],
                                narrow.cells[i],
                            ) by {}
                        }
                    },
                    _ => {},
                }
            } else if rx == ry {
                assert forall|i: int| 0 <= i < self.cells.len() implies cell_narrows(
                    #[trigger] self.cells[i],
                    tight.cells[i],
                ) by {}
            }
        }
    }
}

} // verus!
