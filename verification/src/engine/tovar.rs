//! Lowering the arguments of a constraint to variables: a variable stays
//! what it is, a value is stored in a fresh variable, and a placeholder
//! becomes a fresh unbound variable.

use crate::engine::bindings::Bindings;
use crate::engine::state::State;
use crate::engine::vars::{TypeTag, UntypedVar, ValueView, Var, VarRefView};
use crate::engine::wrapper::VarWrapper;
use crate::finitedomain::Fd;
use std::marker::PhantomData;
use vstd::prelude::*;

verus! {

/// Something that can stand where a constraint expects a variable.
pub trait ToVar: Sized {
    /// The type of the values of the variable that this is lowered to.
    type VarType: VarWrapper;

    /// What lowering needs of the store: a variable is one of the store, and
    /// a finite domain meets its invariant.
    spec fn ready(self, b: Bindings) -> bool;

    /// Whether lowering this in the store `before` can leave the store
    /// `after` and give the variable `r`.
    spec fn lowered(self, before: Bindings, after: Bindings, r: UntypedVar) -> bool;

    /// What is ready for a store is ready for every store that the store
    /// grows to.
    proof fn lemma_ready_grows(self, b: Bindings, c: Bindings)
        requires
            self.ready(b),
            b.grows_to(c),
        ensures
            self.ready(c),
    ;

    /// Lowers this to a variable of `state`.
    fn into_var(self, state: &mut State) -> (r: Var<Self::VarType>)
        requires
            old(state).wf(),
            self.ready(old(state)@),
        ensures
            final(state).wf(),
            old(state)@.grows_to(final(state)@),
            final(state)@.has(r.var),
            self.lowered(old(state)@, final(state)@, r.var),
            final(state).same_constraints(old(state)),
            final(state).changed == old(state).changed,
    ;
}

/// The store with one more variable of type `T`, bound to `v`.
pub open spec fn stored<T: VarWrapper>(b: Bindings, v: ValueView) -> Bindings {
    b.extend(T::tag(), Some(VarRefView::Exactly(v)))
}

/// A store grows to the store with one more variable.
pub proof fn lemma_extend_grows(b: Bindings, tag: TypeTag, r: Option<VarRefView>)
    ensures
        b.grows_to(b.extend(tag, r)),
{
    assert forall|i: int| 0 <= i < b.tags.len() implies b.tags[i] == #[trigger] b.extend(tag, r).tags[i] by {}
}

/// Growing is transitive.
pub proof fn lemma_grows_trans(a: Bindings, b: Bindings, c: Bindings)
    requires
        a.wf(),
        b.wf(),
        a.grows_to(b),
        b.grows_to(c),
    ensures
        a.grows_to(c),
{
    assert forall|i: int| 0 <= i < a.tags.len() implies a.tags[i] == #[trigger] c.tags[i] by {
        assert(a.tags[i] == b.tags[i]);
        assert(b.tags[i] == c.tags[i]);
    }
}

impl<T: VarWrapper> ToVar for Var<T> {
    type VarType = T;

    open spec fn ready(self, b: Bindings) -> bool {
        b.has(self.var)
    }

    open spec fn lowered(self, before: Bindings, after: Bindings, r: UntypedVar) -> bool {
        after == before && r == self.var
    }

    proof fn lemma_ready_grows(self, b: Bindings, c: Bindings) {
    }

    fn into_var(self, state: &mut State) -> (r: Var<T>) {
        assert forall|i: int| 0 <= i < state@.tags.len() implies state@.tags[i]
            == #[trigger] state@.tags[i] by {}
        self
    }
}

/// A placeholder for a variable whose value is of no interest. Each use
/// becomes a fresh unbound variable.
#[derive(Debug)]
pub struct IgnoreVar<A>(pub PhantomData<A>);

impl<A> Clone for IgnoreVar<A> {
    fn clone(&self) -> (r: IgnoreVar<A>) {
        IgnoreVar(PhantomData)
    }
}

impl<A> Copy for IgnoreVar<A> {

}

impl<A> PartialEq for IgnoreVar<A> {
    fn eq(&self, other: &IgnoreVar<A>) -> (r: bool) {
        false
    }
}

impl<A> vstd::std_specs::cmp::PartialEqSpecImpl for IgnoreVar<A> {
    open spec fn obeys_eq_spec() -> bool {
        true
    }

    open spec fn eq_spec(&self, other: &IgnoreVar<A>) -> bool {
        false
    }
}

/// A placeholder: provides a fresh variable each time it is lowered.
pub fn __<A>() -> IgnoreVar<A> {
    IgnoreVar(PhantomData)
}

impl<A: VarWrapper> ToVar for IgnoreVar<A> {
    type VarType = A;

    open spec fn ready(self, b: Bindings) -> bool {
        true
    }

    open spec fn lowered(self, before: Bindings, after: Bindings, r: UntypedVar) -> bool {
        after == before.extend(A::tag(), None) && r == before.fresh()
    }

    proof fn lemma_ready_grows(self, b: Bindings, c: Bindings) {
    }

    fn into_var(self, state: &mut State) -> (r: Var<A>) {
        proof {
            lemma_extend_grows(state@, A::tag(), None);
        }
        state.make_var()
    }
}

/// Stores `v` in a fresh variable.
fn store_plain<T: VarWrapper>(v: T, state: &mut State) -> (r: Var<T>)
    requires
        old(state).wf(),
        old(state)@.value_ok(v.content()),
    ensures
        final(state).wf(),
        old(state)@.grows_to(final(state)@),
        final(state)@.has(r.var),
        final(state)@ == stored::<T>(old(state)@, v.content()),
        r.var == old(state)@.fresh(),
        final(state).same_constraints(old(state)),
        final(state).changed == old(state).changed,
{
    proof {
        lemma_extend_grows(state@, T::tag(), Some(VarRefView::Exactly(v.content())));
    }
    state.store_value(v)
}

impl ToVar for () {
    type VarType = ();

    open spec fn ready(self, b: Bindings) -> bool {
        true
    }

    open spec fn lowered(self, before: Bindings, after: Bindings, r: UntypedVar) -> bool {
        after == stored::<()>(before, self.content()) && r == before.fresh()
    }

    proof fn lemma_ready_grows(self, b: Bindings, c: Bindings) {
    }

    fn into_var(self, state: &mut State) -> (r: Var<()>) {
        assert(self.content().subs().len() == 0);
        store_plain(self, state)
    }
}

impl ToVar for bool {
    type VarType = bool;

    open spec fn ready(self, b: Bindings) -> bool {
        true
    }

    open spec fn lowered(self, before: Bindings, after: Bindings, r: UntypedVar) -> bool {
        after == stored::<bool>(before, self.content()) && r == before.fresh()
    }

    proof fn lemma_ready_grows(self, b: Bindings, c: Bindings) {
    }

    fn into_var(self, state: &mut State) -> (r: Var<bool>) {
        assert(self.content().subs().len() == 0);
        store_plain(self, state)
    }
}

impl ToVar for char {
    type VarType = char;

    open spec fn ready(self, b: Bindings) -> bool {
        true
    }

    open spec fn lowered(self, before: Bindings, after: Bindings, r: UntypedVar) -> bool {
        after == stored::<char>(before, self.content()) && r == before.fresh()
    }

    proof fn lemma_ready_grows(self, b: Bindings, c: Bindings) {
    }

    fn into_var(self, state: &mut State) -> (r: Var<char>) {
        assert(self.content().subs().len() == 0);
        store_plain(self, state)
    }
}

impl ToVar for String {
    type VarType = String;

    open spec fn ready(self, b: Bindings) -> bool {
        true
    }

    open spec fn lowered(self, before: Bindings, after: Bindings, r: UntypedVar) -> bool {
        after == stored::<String>(before, self.content()) && r == before.fresh()
    }

    proof fn lemma_ready_grows(self, b: Bindings, c: Bindings) {
    }

    fn into_var(self, state: &mut State) -> (r: Var<String>) {
        assert(self.content().subs().len() == 0);
        store_plain(self, state)
    }
}

impl ToVar for i64 {
    type VarType = i64;

    open spec fn ready(self, b: Bindings) -> bool {
        true
    }

    open spec fn lowered(self, before: Bindings, after: Bindings, r: UntypedVar) -> bool {
        after == stored::<i64>(before, self.content()) && r == before.fresh()
    }

    proof fn lemma_ready_grows(self, b: Bindings, c: Bindings) {
    }

    fn into_var(self, state: &mut State) -> (r: Var<i64>) {
        assert(self.content().subs().len() == 0);
        store_plain(self, state)
    }
}

impl ToVar for usize {
    type VarType = usize;

    open spec fn ready(self, b: Bindings) -> bool {
        true
    }

    open spec fn lowered(self, before: Bindings, after: Bindings, r: UntypedVar) -> bool {
        after == stored::<usize>(before, self.content()) && r == before.fresh()
    }

    proof fn lemma_ready_grows(self, b: Bindings, c: Bindings) {
    }

    fn into_var(self, state: &mut State) -> (r: Var<usize>) {
        assert(self.content().subs().len() == 0);
        store_plain(self, state)
    }
}

impl ToVar for Fd {
    type VarType = Fd;

    open spec fn ready(self, b: Bindings) -> bool {
        self@.wf()
    }

    open spec fn lowered(self, before: Bindings, after: Bindings, r: UntypedVar) -> bool {
        after == stored::<Fd>(before, self.content()) && r == before.fresh()
    }

    proof fn lemma_ready_grows(self, b: Bindings, c: Bindings) {
    }

    fn into_var(self, state: &mut State) -> (r: Var<Fd>) {
        assert(self.content().subs().len() == 0);
        store_plain(self, state)
    }
}

impl<A: ToVar> ToVar for Option<A> {
    type VarType = Option<Var<A::VarType>>;

    open spec fn ready(self, b: Bindings) -> bool {
        match self {
            Some(x) => x.ready(b),
            None => true,
        }
    }

    open spec fn lowered(self, before: Bindings, after: Bindings, r: UntypedVar) -> bool {
        match self {
            Some(x) => exists|mid: Bindings, inner: UntypedVar|
                #![trigger x.lowered(before, mid, inner)]
                x.lowered(before, mid, inner) && after == stored::<Option<Var<A::VarType>>>(
                    mid,
                    ValueView::Opt(Some(inner)),
                ) && r == mid.fresh(),
            None => after == stored::<Option<Var<A::VarType>>>(before, ValueView::Opt(None)) && r
                == before.fresh(),
        }
    }

    proof fn lemma_ready_grows(self, b: Bindings, c: Bindings) {
        match self {
            Some(x) => {
                x.lemma_ready_grows(b, c);
            },
            None => {},
        }
    }

    fn into_var(self, state: &mut State) -> (r: Var<Option<Var<A::VarType>>>) {
        let ghost before = state@;
        match self {
            Some(x) => {
                let inner = x.into_var(state);
                let ghost mid = state@;
                let held: Option<Var<A::VarType>> = Some(inner);
                assert(held.content().subs() =~= seq![inner.var]);
                let r = store_plain(held, state);
                proof {
                    lemma_grows_trans(before, mid, state@);
                    assert(x.lowered(before, mid, inner.var));
                }
                r
            },
            None => {
                let held: Option<Var<A::VarType>> = None;
                assert(held.content().subs().len() == 0);
                store_plain(held, state)
            },
        }
    }
}

impl<A: ToVar, B: ToVar> ToVar for Result<A, B> {
    type VarType = Result<Var<A::VarType>, Var<B::VarType>>;

    open spec fn ready(self, b: Bindings) -> bool {
        match self {
            Ok(x) => x.ready(b),
            Err(x) => x.ready(b),
        }
    }

    open spec fn lowered(self, before: Bindings, after: Bindings, r: UntypedVar) -> bool {
        match self {
            Ok(x) => exists|mid: Bindings, inner: UntypedVar|
                #![trigger x.lowered(before, mid, inner)]
                x.lowered(before, mid, inner) && after == stored::<
                    Result<Var<A::VarType>, Var<B::VarType>>,
                >(mid, ValueView::Res(Ok(inner))) && r == mid.fresh(),
            Err(x) => exists|mid: Bindings, inner: UntypedVar|
                #![trigger x.lowered(before, mid, inner)]
                x.lowered(before, mid, inner) && after == stored::<
                    Result<Var<A::VarType>, Var<B::VarType>>,
                >(mid, ValueView::Res(Err(inner))) && r == mid.fresh(),
        }
    }

    proof fn lemma_ready_grows(self, b: Bindings, c: Bindings) {
        match self {
            Ok(x) => {
                x.lemma_ready_grows(b, c);
            },
            Err(x) => {
                x.lemma_ready_grows(b, c);
            },
        }
    }

    fn into_var(self, state: &mut State) -> (r: Var<Result<Var<A::VarType>, Var<B::VarType>>>) {
        let ghost before = state@;
        match self {
            Ok(x) => {
                let inner = x.into_var(state);
                let ghost mid = state@;
                let held: Result<Var<A::VarType>, Var<B::VarType>> = Ok(inner);
                assert(held.content().subs() =~= seq![inner.var]);
                let r = store_plain(held, state);
                proof {
                    lemma_grows_trans(before, mid, state@);
                    assert(x.lowered(before, mid, inner.var));
                }
                r
            },
            Err(x) => {
                let inner = x.into_var(state);
                let ghost mid = state@;
                let held: Result<Var<A::VarType>, Var<B::VarType>> = Err(inner);
                assert(held.content().subs() =~= seq![inner.var]);
                let r = store_plain(held, state);
                proof {
                    lemma_grows_trans(before, mid, state@);
                    assert(x.lowered(before, mid, inner.var));
                }
                r
            },
        }
    }
}

impl<A: ToVar, B: ToVar> ToVar for (A, B) {
    type VarType = (Var<A::VarType>, Var<B::VarType>);

    open spec fn ready(self, b: Bindings) -> bool {
        self.0.ready(b) && self.1.ready(b)
    }

    open spec fn lowered(self, before: Bindings, after: Bindings, r: UntypedVar) -> bool {
        exists|m1: Bindings, x: UntypedVar, m2: Bindings, y: UntypedVar|
            #![trigger self.0.lowered(before, m1, x), self.1.lowered(m1, m2, y)]
            self.0.lowered(before, m1, x) && self.1.lowered(m1, m2, y) && after == stored::<
                (Var<A::VarType>, Var<B::VarType>),
            >(m2, ValueView::Tuple(seq![x, y])) && r == m2.fresh()
    }

    proof fn lemma_ready_grows(self, b: Bindings, c: Bindings) {
        self.0.lemma_ready_grows(b, c);
        self.1.lemma_ready_grows(b, c);
    }

    fn into_var(self, state: &mut State) -> (r: Var<(Var<A::VarType>, Var<B::VarType>)>) {
        let ghost before = state@;
        let (a, b) = self;
        let x = a.into_var(state);
        let ghost m1 = state@;
        proof {
            b.lemma_ready_grows(before, m1);
        }
        let y = b.into_var(state);
        let ghost m2 = state@;
        let held = (x, y);
        proof {
            lemma_grows_trans(before, m1, m2);
            assert(held.content().subs() =~= seq![x.var, y.var]);
            assert(m2.has(x.var));
        }
        let r = store_plain(held, state);
        proof {
            lemma_grows_trans(before, m2, state@);
            assert(a.lowered(before, m1, x.var) && b.lowered(m1, m2, y.var));
        }
        r
    }
}

impl<A: ToVar, B: ToVar, C: ToVar> ToVar for (A, B, C) {
    type VarType = (Var<A::VarType>, Var<B::VarType>, Var<C::VarType>);

    open spec fn ready(self, b: Bindings) -> bool {
        self.0.ready(b) && self.1.ready(b) && self.2.ready(b)
    }

    open spec fn lowered(self, before: Bindings, after: Bindings, r: UntypedVar) -> bool {
        exists|m1: Bindings, x: UntypedVar, m2: Bindings, y: UntypedVar, m3: Bindings, z: UntypedVar|
            #![trigger self.0.lowered(before, m1, x), self.1.lowered(m1, m2, y), self.2.lowered(m2, m3, z)]
            self.0.lowered(before, m1, x) && self.1.lowered(m1, m2, y) && self.2.lowered(m2, m3, z)
                && after == stored::<(Var<A::VarType>, Var<B::VarType>, Var<C::VarType>)>(
                m3,
                ValueView::Tuple(seq![x, y, z]),
            ) && r == m3.fresh()
    }

    proof fn lemma_ready_grows(self, b: Bindings, c: Bindings) {
        self.0.lemma_ready_grows(b, c);
        self.1.lemma_ready_grows(b, c);
        self.2.lemma_ready_grows(b, c);
    }

    fn into_var(self, state: &mut State) -> (r: Var<
        (Var<A::VarType>, Var<B::VarType>, Var<C::VarType>),
    >) {
        let ghost before = state@;
        let (a, b, c) = self;
        let x = a.into_var(state);
        let ghost m1 = state@;
        proof {
            b.lemma_ready_grows(before, m1);
            c.lemma_ready_grows(before, m1);
        }
        let y = b.into_var(state);
        let ghost m2 = state@;
        proof {
            c.lemma_ready_grows(m1, m2);
            lemma_grows_trans(before, m1, m2);
        }
        let z = c.into_var(state);
        let ghost m3 = state@;
        let held = (x, y, z);
        proof {
            lemma_grows_trans(before, m2, m3);
            assert(held.content().subs() =~= seq![x.var, y.var, z.var]);
            assert(m3.has(x.var));
            assert(m3.has(y.var));
        }
        let r = store_plain(held, state);
        proof {
            lemma_grows_trans(before, m3, state@);
            assert(a.lowered(before, m1, x.var) && b.lowered(m1, m2, y.var) && c.lowered(
                m2,
                m3,
                z.var,
            ));
        }
        r
    }
}

impl<A: ToVar, B: ToVar, C: ToVar, D: ToVar> ToVar for (A, B, C, D) {
    type VarType = (Var<A::VarType>, Var<B::VarType>, Var<C::VarType>, Var<D::VarType>);

    open spec fn ready(self, b: Bindings) -> bool {
        self.0.ready(b) && self.1.ready(b) && self.2.ready(b) && self.3.ready(b)
    }

    open spec fn lowered(self, before: Bindings, after: Bindings, r: UntypedVar) -> bool {
        exists|
            m1: Bindings,
            x: UntypedVar,
            m2: Bindings,
            y: UntypedVar,
            m3: Bindings,
            z: UntypedVar,
            m4: Bindings,
            u: UntypedVar,
        |
            #![trigger
                self.0.lowered(before, m1, x),
                self.1.lowered(m1, m2, y),
                self.2.lowered(m2, m3, z),
                self.3.lowered(m3, m4, u)
            ]
            self.0.lowered(before, m1, x)
                && self.1.lowered(m1, m2, y)
                && self.2.lowered(m2, m3, z)
                && self.3.lowered(m3, m4, u)
                && after == stored::<(Var<A::VarType>, Var<B::VarType>, Var<C::VarType>, Var<D::VarType>)>(m4, ValueView::Tuple(seq![x, y, z, u]))
                && r == m4.fresh()
    }

    proof fn lemma_ready_grows(self, b: Bindings, c: Bindings) {
        self.0.lemma_ready_grows(b, c);
        self.1.lemma_ready_grows(b, c);
        self.2.lemma_ready_grows(b, c);
        self.3.lemma_ready_grows(b, c);
    }

    fn into_var(self, state: &mut State) -> (r: Var<(Var<A::VarType>, Var<B::VarType>, Var<C::VarType>, Var<D::VarType>)>) {
        let ghost before = state@;
        let (a, b, c, d) = self;
        let x = a.into_var(state);
        let ghost m1 = state@;
        proof {
            b.lemma_ready_grows(before, m1);
            c.lemma_ready_grows(before, m1);
            d.lemma_ready_grows(before, m1);
        }
        let y = b.into_var(state);
        let ghost m2 = state@;
        proof {
            lemma_grows_trans(before, m1, m2);
            c.lemma_ready_grows(m1, m2);
            d.lemma_ready_grows(m1, m2);
        }
        let z = c.into_var(state);
        let ghost m3 = state@;
        proof {
            lemma_grows_trans(before, m2, m3);
            d.lemma_ready_grows(m2, m3);
        }
        let u = d.into_var(state);
        let ghost m4 = state@;
        proof {
            lemma_grows_trans(before, m3, m4);
        }
        let held = (x, y, z, u);
        proof {
            assert(held.content().subs() =~= seq![x.var, y.var, z.var, u.var]);
            assert(m4.has(x.var));
            assert(m4.has(y.var));
            assert(m4.has(z.var));
        }
        let r = store_plain(held, state);
        proof {
            lemma_grows_trans(before, m4, state@);
            assert(a.lowered(before, m1, x.var) && b.lowered(m1, m2, y.var) && c.lowered(m2, m3, z.var) && d.lowered(m3, m4, u.var));
        }
        r
    }
}

impl<A: ToVar, B: ToVar, C: ToVar, D: ToVar, E: ToVar> ToVar for (A, B, C, D, E) {
    type VarType = (Var<A::VarType>, Var<B::VarType>, Var<C::VarType>, Var<D::VarType>, Var<E::VarType>);

    open spec fn ready(self, b: Bindings) -> bool {
        self.0.ready(b) && self.1.ready(b) && self.2.ready(b) && self.3.ready(b) && self.4.ready(b)
    }

    open spec fn lowered(self, before: Bindings, after: Bindings, r: UntypedVar) -> bool {
        exists|
            m1: Bindings,
            x: UntypedVar,
            m2: Bindings,
            y: UntypedVar,
            m3: Bindings,
            z: UntypedVar,
            m4: Bindings,
            u: UntypedVar,
            m5: Bindings,
            w: UntypedVar,
        |
            #![trigger
                self.0.lowered(before, m1, x),
                self.1.lowered(m1, m2, y),
                self.2.lowered(m2, m3, z),
                self.3.lowered(m3, m4, u),
                self.4.lowered(m4, m5, w)
            ]
            self.0.lowered(before, m1, x)
                && self.1.lowered(m1, m2, y)
                && self.2.lowered(m2, m3, z)
                && self.3.lowered(m3, m4, u)
                && self.4.lowered(m4, m5, w)
                && after == stored::<(Var<A::VarType>, Var<B::VarType>, Var<C::VarType>, Var<D::VarType>, Var<E::VarType>)>(m5, ValueView::Tuple(seq![x, y, z, u, w]))
                && r == m5.fresh()
    }

    proof fn lemma_ready_grows(self, b: Bindings, c: Bindings) {
        self.0.lemma_ready_grows(b, c);
        self.1.lemma_ready_grows(b, c);
        self.2.lemma_ready_grows(b, c);
        self.3.lemma_ready_grows(b, c);
        self.4.lemma_ready_grows(b, c);
    }

    fn into_var(self, state: &mut State) -> (r: Var<(Var<A::VarType>, Var<B::VarType>, Var<C::VarType>, Var<D::VarType>, Var<E::VarType>)>) {
        let ghost before = state@;
        let (a, b, c, d, e) = self;
        let x = a.into_var(state);
        let ghost m1 = state@;
        proof {
            b.lemma_ready_grows(before, m1);
            c.lemma_ready_grows(before, m1);
            d.lemma_ready_grows(before, m1);
            e.lemma_ready_grows(before, m1);
        }
        let y = b.into_var(state);
        let ghost m2 = state@;
        proof {
            lemma_grows_trans(before, m1, m2);
            c.lemma_ready_grows(m1, m2);
            d.lemma_ready_grows(m1, m2);
            e.lemma_ready_grows(m1, m2);
        }
        let z = c.into_var(state);
        let ghost m3 = state@;
        proof {
            lemma_grows_trans(before, m2, m3);
            d.lemma_ready_grows(m2, m3);
            e.lemma_ready_grows(m2, m3);
        }
        let u = d.into_var(state);
        let ghost m4 = state@;
        proof {
            lemma_grows_trans(before, m3, m4);
            e.lemma_ready_grows(m3, m4);
        }
        let w = e.into_var(state);
        let ghost m5 = state@;
        proof {
            lemma_grows_trans(before, m4, m5);
        }
        let held = (x, y, z, u, w);
        proof {
            assert(held.content().subs() =~= seq![x.var, y.var, z.var, u.var, w.var]);
            assert(m5.has(x.var));
            assert(m5.has(y.var));
            assert(m5.has(z.var));
            assert(m5.has(u.var));
        }
        let r = store_plain(held, state);
        proof {
            lemma_grows_trans(before, m5, state@);
            assert(a.lowered(before, m1, x.var) && b.lowered(m1, m2, y.var) && c.lowered(m2, m3, z.var) && d.lowered(m3, m4, u.var) && e.lowered(m4, m5, w.var));
        }
        r
    }
}

impl State {
    /// Lowers a value or a variable to a variable of this state.
    pub fn make_var_of<A: ToVar>(&mut self, x: A) -> (r: Var<A::VarType>)
        requires
            old(self).wf(),
            x.ready(old(self)@),
        ensures
            final(self).wf(),
            old(self)@.grows_to(final(self)@),
            final(self)@.has(r.var),
            x.lowered(old(self)@, final(self)@, r.var),
            final(self).same_constraints(old(self)),
            final(self).changed == old(self).changed,
    {
        x.into_var(self)
    }
}

} // verus!
