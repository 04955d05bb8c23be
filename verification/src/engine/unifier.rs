//! Unification and the occurs check on a scratch state.

use crate::engine::bindings::Bindings;
use crate::engine::proxy::StateProxy;
use crate::engine::vars::{TypeList, TypeTag, UntypedVar, Value, VarRef};
use crate::finitedomain::Fd;
use vstd::prelude::*;

verus! {

/// Whether `r` is one of the variables of `path`.
fn on_path(path: &Vec<UntypedVar>, r: UntypedVar) -> (found: bool)
    ensures
        found == path@.contains(r),
{
    let mut i: usize = 0;
    while i < path.len()
        invariant
            i <= path.len(),
            forall|k: int| 0 <= k < i ==> path@[k] != r,
        decreases path.len() - i,
    {
        if path[i] == r {
            return true;
        }
        i = i + 1;
    }
    false
}

/// The path `path` with `r` at its end.
fn extended(path: &Vec<UntypedVar>, r: UntypedVar) -> (longer: Vec<UntypedVar>)
    ensures
        longer@ == path@.push(r),
{
    let mut longer: Vec<UntypedVar> = Vec::new();
    let mut i: usize = 0;
    while i < path.len()
        invariant
            i <= path.len(),
            longer@ == path@.subrange(0, i as int),
        decreases path.len() - i,
    {
        longer.push(path[i]);
        i = i + 1;
    }
    assert(path@.subrange(0, path.len() as int) == path@);
    longer.push(r);
    longer
}

/// The path `path` with `rx` and `ry` at its end, the lower one first.
fn extended_by(path: &Vec<UntypedVar>, rx: UntypedVar, ry: UntypedVar) -> (longer: Vec<UntypedVar>)
    ensures
        longer@ == Bindings::deeper(path@, rx, ry),
{
    if rx.id < ry.id {
        let first = extended(path, rx);
        extended(&first, ry)
    } else {
        let first = extended(path, ry);
        extended(&first, rx)
    }
}

impl<'a> StateProxy<'a> {
    /// Whether `needle` is found when the term of `x` is walked.
    pub fn occurs_check(&self, needle: UntypedVar, x: UntypedVar) -> (r: bool)
        requires
            self.wf(),
            self@.has(needle),
            self@.has(x),
        ensures
            r == self@.occurs_at(needle, x),
    {
        let path: Vec<UntypedVar> = Vec::new();
        assert(path@ == Seq::<UntypedVar>::empty());
        self.occurs_below(needle, x, &path, self.len())
    }

    /// Whether `needle` is found when the term of `x` is walked below the
    /// representatives of `path`, entering at most `fuel` nested values.
    pub fn occurs_below(
        &self,
        needle: UntypedVar,
        x: UntypedVar,
        path: &Vec<UntypedVar>,
        fuel: usize,
    ) -> (r: bool)
        requires
            self.wf(),
            self@.has(needle),
            self@.has(x),
        ensures
            r == self@.occurs(needle, x, path@, fuel as nat),
        decreases fuel, 0nat,
    {
        if fuel == 0 {
            return true;
        }
        let root = self.follow_id(x);
        if root == needle {
            return true;
        }
        proof {
            assert(self@.cell_ok(root.id as int));
        }
        match self.get_ref(root) {
            Some(VarRef::Exactly(v)) => {
                if on_path(path, root) {
                    true
                } else {
                    let inside = extended(path, root);
                    self.occurs_in_value(needle, v, &inside, fuel - 1)
                }
            },
            _ => false,
        }
    }

    /// Whether `needle` is found at one of the components of `v`, a value
    /// below the representatives of `path`.
    pub fn occurs_in_value(
        &self,
        needle: UntypedVar,
        v: &Value,
        path: &Vec<UntypedVar>,
        fuel: usize,
    ) -> (r: bool)
        requires
            self.wf(),
            self@.has(needle),
            self@.value_ok(v@),
        ensures
            r == self@.occurs_in(needle, v@, path@, fuel as nat),
        decreases fuel, 2nat,
    {
        let subs = match v.var_iter() {
            Some(subs) => subs,
            None => {
                return false;
            },
        };
        let mut i: usize = 0;
        while i < subs.len()
            invariant
                i <= subs.len(),
                self.wf(),
                self@.has(needle),
                self@.value_ok(v@),
                subs@ == v@.subs(),
                forall|k: int|
                    0 <= k < i ==> !self@.occurs_sub(
                        needle,
                        #[trigger] subs@[k],
                        path@,
                        fuel as nat,
                    ),
            decreases subs.len() - i,
        {
            let s = subs[i];
            assert(self@.has(v@.subs()[i as int]));
            if s == needle {
                assert(self@.occurs_sub(needle, v@.subs()[i as int], path@, fuel as nat));
                return true;
            }
            if self.tag_of(s).can_contain_type(&TypeList::Nil, self.tag_of(needle))
                && self.occurs_below(needle, s, path, fuel) {
                assert(self@.occurs_sub(needle, v@.subs()[i as int], path@, fuel as nat));
                return true;
            }
            i = i + 1;
        }
        false
    }

    /// Whether the components of a tuple have the types that `tag` lists.
    fn tuple_fits(&self, subs: &Vec<UntypedVar>, tag: &TypeTag) -> (r: bool)
        requires
            self.wf(),
        ensures
            r == self@.tuple_fits(subs@, 0, *tag),
    {
        let mut cur = tag;
        let mut i: usize = 0;
        while i < subs.len()
            invariant
                i <= subs.len(),
                self.wf(),
                self@.tuple_fits(subs@, i as nat, *cur) == self@.tuple_fits(subs@, 0, *tag),
            decreases subs.len() - i,
        {
            match cur {
                TypeTag::Tuple(first, rest) => {
                    let s = subs[i];
                    if !self.contains(s) || !self.tag_of(s).same(first) {
                        return false;
                    }
                    cur = rest;
                },
                _ => {
                    return false;
                },
            }
            i = i + 1;
        }
        cur.same(&TypeTag::Unit)
    }

    /// Whether `v` is a value of type `tag`.
    pub fn value_fits(&self, v: &Value, tag: &TypeTag) -> (r: bool)
        requires
            self.wf(),
        ensures
            r == self@.fits(v@, *tag),
    {
        match (v, tag) {
            (Value::Unit, TypeTag::Unit) => true,
            (Value::Bool(_), TypeTag::Bool) => true,
            (Value::Char(_), TypeTag::Char) => true,
            (Value::Str(_), TypeTag::Str) => true,
            (Value::Int(_), TypeTag::Int) => true,
            (Value::Usize(_), TypeTag::Usize) => true,
            (Value::Fd(_), TypeTag::Fd) => true,
            (Value::Opt(None), TypeTag::Opt(_)) => true,
            (Value::Opt(Some(a)), TypeTag::Opt(t)) => self.contains(*a) && self.tag_of(*a).same(t),
            (Value::Res(Ok(a)), TypeTag::Res(t, _)) => self.contains(*a) && self.tag_of(*a).same(
                t,
            ),
            (Value::Res(Err(a)), TypeTag::Res(_, e)) => self.contains(*a) && self.tag_of(*a).same(
                e,
            ),
            (Value::Unit, TypeTag::List(_)) => true,
            (Value::Tuple(subs), TypeTag::List(a)) => subs.len() == 2 && self.contains(subs[0])
                && self.tag_of(subs[0]).same(a) && self.contains(subs[1]) && self.tag_of(
                subs[1],
            ).same(tag),
            (Value::Tuple(subs), _) => self.tuple_fits(subs, tag),
            _ => false,
        }
    }

    /// Replaces the domain `from` of `x` by `to`, where the two differ.
    fn narrow(&mut self, x: Option<UntypedVar>, from: &Fd, to: &Fd)
        requires
            old(self).wf(),
            x matches Some(r) ==> old(self)@.has(r),
            to@.wf(),
        ensures
            final(self).wf(),
            final(self)@ == old(self)@.narrow(x, from@, to@),
            final(self).same_base(old(self)),
    {
        match x {
            Some(r) => {
                if !to.same(from) {
                    let v = Value::Fd(to.clone());
                    assert(v@.subs().len() == 0);
                    self.bind(r, v);
                }
            },
            None => {},
        }
    }

    /// Unifies `x` and `y` below the representatives of `path`, entering at
    /// most `fuel` nested values.
    pub fn unify_bounded(
        &mut self,
        x: UntypedVar,
        y: UntypedVar,
        path: &Vec<UntypedVar>,
        fuel: usize,
    )
        requires
            old(self).wf(),
        ensures
            final(self).wf(),
            final(self)@ == old(self)@.unify(x, y, path@, fuel as nat),
            final(self).same_base(old(self)),
        decreases fuel, 0nat, 0nat,
    {
        if !self.ok {
            return;
        }
        if !self.contains(x) || !self.contains(y) {
            self.fail();
            return;
        }
        let rx = self.follow_id(x);
        let ry = self.follow_id(y);
        if rx == ry {
            return;
        }
        if !self.tag_of(rx).same(self.tag_of(ry)) {
            self.fail();
            return;
        }
        proof {
            assert(self@.cell_ok(rx.id as int));
            assert(self@.cell_ok(ry.id as int));
        }
        let vx: Option<Value> = match self.get_ref(rx) {
            Some(VarRef::Exactly(v)) => Some(v.clone()),
            _ => None,
        };
        let vy: Option<Value> = match self.get_ref(ry) {
            Some(VarRef::Exactly(v)) => Some(v.clone()),
            _ => None,
        };
        match (vx, vy) {
            (None, None) => {
                if rx.id < ry.id {
                    self.link(ry, rx);
                } else {
                    self.link(rx, ry);
                }
            },
            (None, Some(_)) => {
                if self.occurs_check(rx, ry) {
                    self.fail();
                } else {
                    self.link(rx, ry);
                }
            },
            (Some(_), None) => {
                if self.occurs_check(ry, rx) {
                    self.fail();
                } else {
                    self.link(ry, rx);
                }
            },
            (Some(v), Some(w)) => {
                if fuel == 0 || on_path(path, rx) || on_path(path, ry) {
                    self.fail();
                } else {
                    let inside = extended_by(path, rx, ry);
                    self.unify_values(Some(rx), &v, Some(ry), &w, &inside, fuel - 1);
                }
            },
        }
    }

    /// Unifies the value `v` of `rx` with the value `w` of `ry`.
    pub fn unify_values(
        &mut self,
        rx: Option<UntypedVar>,
        v: &Value,
        ry: Option<UntypedVar>,
        w: &Value,
        path: &Vec<UntypedVar>,
        fuel: usize,
    )
        requires
            old(self).wf(),
            rx matches Some(r) ==> old(self)@.has(r),
            ry matches Some(r) ==> old(self)@.has(r),
            v@.sound(),
            w@.sound(),
        ensures
            final(self).wf(),
            final(self)@ == old(self)@.unify_values(rx, v@, ry, w@, path@, fuel as nat),
            final(self).same_base(old(self)),
        decreases fuel, 2nat, 0nat,
    {
        match (v, w) {
            (Value::Fd(d), Value::Fd(e)) => {
                let m = d.intersect(e);
                if !m.is_valid() {
                    self.fail();
                } else {
                    self.narrow(rx, d, &m);
                    self.narrow(ry, e, &m);
                }
            },
            (Value::Tuple(s), Value::Tuple(t)) => {
                if s.len() != t.len() {
                    self.fail();
                } else {
                    self.unify_subs(s, t, path, fuel);
                }
            },
            (Value::Opt(Some(a)), Value::Opt(Some(b))) => {
                self.unify_bounded(*b, *a, path, fuel);
            },
            (Value::Res(Ok(a)), Value::Res(Ok(b))) => {
                self.unify_bounded(*b, *a, path, fuel);
            },
            (Value::Res(Err(a)), Value::Res(Err(b))) => {
                self.unify_bounded(*b, *a, path, fuel);
            },
            _ => {
                if !v.same(w) {
                    self.fail();
                }
            },
        }
    }

    /// Unifies the components of two tuples of one length, in order.
    fn unify_subs(
        &mut self,
        s: &Vec<UntypedVar>,
        t: &Vec<UntypedVar>,
        path: &Vec<UntypedVar>,
        fuel: usize,
    )
        requires
            old(self).wf(),
            s.len() == t.len(),
        ensures
            final(self).wf(),
            final(self)@ == old(self)@.unify_subs(s@, t@, 0, path@, fuel as nat),
            final(self).same_base(old(self)),
        decreases fuel, 1nat, s.len(),
    {
        let ghost start = self@;
        let ghost base = *self;
        let mut i: usize = 0;
        while i < s.len()
            invariant
                i <= s.len(),
                s.len() == t.len(),
                self.wf(),
                self.same_base(&base),
                self@.unify_subs(s@, t@, i as nat, path@, fuel as nat) == start.unify_subs(
                    s@,
                    t@,
                    0,
                    path@,
                    fuel as nat,
                ),
            decreases s.len() - i,
        {
            self.unify_bounded(t[i], s[i], path, fuel);
            i = i + 1;
        }
    }

    /// Unifies `x` with the value `v`, entering at most `fuel` nested
    /// values.
    pub fn unify_value_bounded(&mut self, x: UntypedVar, v: Value, fuel: usize)
        requires
            old(self).wf(),
            old(self)@.value_ok(v@),
        ensures
            final(self).wf(),
            final(self)@ == old(self)@.unify_value(x, v@, fuel as nat),
            final(self).same_base(old(self)),
    {
        if !self.ok {
            return;
        }
        if !self.contains(x) {
            self.fail();
            return;
        }
        let r = self.follow_id(x);
        if !self.value_fits(&v, self.tag_of(r)) || fuel == 0 {
            self.fail();
            return;
        }
        proof {
            assert(self@.cell_ok(r.id as int));
        }
        let held: Option<Value> = match self.get_ref(r) {
            Some(VarRef::Exactly(w)) => Some(w.clone()),
            _ => None,
        };
        match held {
            None => {
                let path: Vec<UntypedVar> = Vec::new();
                assert(path@ == Seq::<UntypedVar>::empty());
                if self.occurs_in_value(r, &v, &path, self.len()) {
                    self.fail();
                } else {
                    self.bind(r, v);
                }
            },
            Some(w) => {
                let path: Vec<UntypedVar> = Vec::new();
                let inside = extended(&path, r);
                assert(inside@ == seq![r]);
                self.unify_values(Some(r), &w, None, &v, &inside, fuel - 1);
            },
        }
    }

    /// Unifies `x` and `y`. On a conflict the state is marked as failed.
    pub fn unify_vars(&mut self, x: UntypedVar, y: UntypedVar)
        requires
            old(self).wf(),
        ensures
            final(self).wf(),
            final(self)@ == old(self)@.unify(x, y, Seq::empty(), old(self)@.cells.len()),
            final(self).same_base(old(self)),
    {
        let fuel = self.len();
        let path: Vec<UntypedVar> = Vec::new();
        assert(path@ == Seq::<UntypedVar>::empty());
        self.unify_bounded(x, y, &path, fuel);
    }

    /// Unifies `a` and `b` if both are of type `ty`, and fails the state if
    /// one of them is not.
    pub fn untyped_unify(&mut self, a: UntypedVar, b: UntypedVar, ty: &TypeTag)
        requires
            old(self).wf(),
        ensures
            final(self).wf(),
            final(self)@ == old(self)@.typed_unify(a, b, *ty),
            final(self).same_base(old(self)),
    {
        if !self.ok {
            return;
        }
        if !self.contains(a) || !self.contains(b) || !self.tag_of(a).same(ty) || !self.tag_of(
            b,
        ).same(ty) {
            self.fail();
            return;
        }
        self.unify_vars(a, b);
    }

    /// Unifies `x` with the value `v`. On a conflict the state is marked as
    /// failed.
    pub fn unify(&mut self, v: Value, x: UntypedVar)
        requires
            old(self).wf(),
            old(self)@.value_ok(v@),
        ensures
            final(self).wf(),
            final(self)@ == old(self)@.unify_value(x, v@, old(self)@.cells.len()),
            final(self).same_base(old(self)),
    {
        let fuel = self.len();
        self.unify_value_bounded(x, v, fuel);
    }
}

} // verus!
