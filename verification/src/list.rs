//! Lists of variables: a list is empty, or it has a head and a tail that is
//! a list again.

use crate::engine::bindings::Bindings;
use crate::engine::state::State;
use crate::engine::tovar::{lemma_extend_grows, lemma_grows_trans, stored, ToVar};
use crate::engine::vars::{TypeTag, UntypedVar, Value, ValueView, Var, VarRefView};
use crate::engine::wrapper::VarWrapper;
use vstd::prelude::*;

verus! {

/// A cell of a list: the empty list, or a head and the rest of the list.
/// The store holds the empty list as the empty tuple and any other cell as
/// the pair of its head and its tail.
#[derive(Debug, PartialEq, Eq)]
pub enum List<A> {
    Nil,
    Cons(Var<A>, Var<List<A>>),
}

impl<A: VarWrapper> VarWrapper for List<A> {
    open spec fn tag() -> TypeTag {
        TypeTag::List(Box::new(A::tag()))
    }

    open spec fn content(self) -> ValueView {
        match self {
            List::Nil => ValueView::Unit,
            List::Cons(head, tail) => ValueView::Tuple(seq![head.var, tail.var]),
        }
    }

    open spec fn holds(v: ValueView) -> bool {
        v is Unit || (v matches ValueView::Tuple(s) && s.len() == 2)
    }

    fn type_tag() -> (t: TypeTag) {
        TypeTag::List(Box::new(A::type_tag()))
    }

    fn into_value(self) -> (v: Value) {
        match self {
            List::Nil => Value::Unit,
            List::Cons(head, tail) => {
                let mut subs: Vec<UntypedVar> = Vec::new();
                subs.push(head.var);
                subs.push(tail.var);
                assert(subs@ =~= seq![head.var, tail.var]);
                Value::Tuple(subs)
            },
        }
    }

    fn from_value(v: &Value) -> (r: Option<List<A>>) {
        match v {
            Value::Unit => Some(List::Nil),
            Value::Tuple(s) => {
                if s.len() == 2 {
                    let r = List::Cons(Var::new(s[0]), Var::new(s[1]));
                    assert(s@ =~= seq![s@[0], s@[1]]);
                    Some(r)
                } else {
                    None
                }
            },
            _ => None,
        }
    }
}

/// Whether lowering the elements before position `k`, last first, onto the
/// list `tail` of the store `before` can leave the store `after` and give
/// the list `r`.
pub open spec fn listed<A: ToVar>(
    elems: Seq<A>,
    k: nat,
    before: Bindings,
    tail: UntypedVar,
    after: Bindings,
    r: UntypedVar,
) -> bool
    decreases k,
{
    if k == 0 {
        after == before && r == tail
    } else {
        exists|mid: Bindings, head: UntypedVar|
            #![trigger elems[k - 1].lowered(before, mid, head)]
            elems[k - 1].lowered(before, mid, head) && listed(
                elems,
                (k - 1) as nat,
                stored::<List<A::VarType>>(mid, ValueView::Tuple(seq![head, tail])),
                mid.fresh(),
                after,
                r,
            )
    }
}

impl<A: ToVar> ToVar for Vec<A> {
    type VarType = List<A::VarType>;

    open spec fn ready(self, b: Bindings) -> bool {
        forall|i: int| 0 <= i < self.len() ==> (#[trigger] self@[i]).ready(b)
    }

    open spec fn lowered(self, before: Bindings, after: Bindings, r: UntypedVar) -> bool {
        listed(
            self@,
            self@.len(),
            stored::<List<A::VarType>>(before, ValueView::Unit),
            before.fresh(),
            after,
            r,
        )
    }

    proof fn lemma_ready_grows(self, b: Bindings, c: Bindings) {
        assert forall|i: int| 0 <= i < self.len() implies (#[trigger] self@[i]).ready(c) by {
            self@[i].lemma_ready_grows(b, c);
        }
    }

    fn into_var(self, state: &mut State) -> (r: Var<List<A::VarType>>) {
        let ghost before = state@;
        let ghost elems = self@;
        let mut rest = self;
        let empty: List<A::VarType> = List::Nil;
        assert(empty.content().subs().len() == 0);
        let mut list = state.store_value(empty);
        proof {
            lemma_extend_grows(
                before,
                List::<A::VarType>::tag(),
                Some(VarRefView::Exactly(ValueView::Unit)),
            );
            assert forall|i: int| 0 <= i < rest@.len() implies (#[trigger] rest@[i]).ready(
                state@,
            ) by {
                rest@[i].lemma_ready_grows(before, state@);
            }
        }
        while rest.len() > 0
            invariant
                state.wf(),
                state.same_constraints(old(state)),
                state.changed == old(state).changed,
                before == old(state)@,
                before.wf(),
                before.grows_to(state@),
                state@.has(list.var),
                rest@.len() <= elems.len(),
                forall|i: int| 0 <= i < rest@.len() ==> rest@[i] == elems[i],
                forall|i: int| 0 <= i < rest@.len() ==> (#[trigger] rest@[i]).ready(state@),
                forall|after: Bindings, r: UntypedVar|
                    listed(elems, rest@.len() as nat, state@, list.var, after, r) ==> #[trigger] listed(
                        elems,
                        elems.len(),
                        stored::<List<A::VarType>>(before, ValueView::Unit),
                        before.fresh(),
                        after,
                        r,
                    ),
            decreases rest.len(),
        {
            let ghost start = state@;
            let ghost tail = list.var;
            let ghost k = rest@.len() as nat;
            let ghost held_before = rest@;
            let x = rest.pop().unwrap();
            proof {
                assert(x == elems[k - 1]);
                assert(x.ready(start));
            }
            let head = x.into_var(state);
            let ghost mid = state@;
            let cell: List<A::VarType> = List::Cons(head, list);
            proof {
                assert(cell.content().subs() =~= seq![head.var, list.var]);
                assert(mid.has(list.var));
                lemma_extend_grows(
                    mid,
                    List::<A::VarType>::tag(),
                    Some(VarRefView::Exactly(cell.content())),
                );
            }
            list = state.store_value(cell);
            proof {
                lemma_grows_trans(start, mid, state@);
                lemma_grows_trans(before, start, state@);
                assert forall|i: int| 0 <= i < rest@.len() implies (#[trigger] rest@[i]).ready(
                    state@,
                ) by {
                    assert(rest@[i] == held_before[i]);
                    rest@[i].lemma_ready_grows(start, state@);
                }
                assert forall|after: Bindings, r: UntypedVar|
                    listed(elems, rest@.len() as nat, state@, list.var, after, r) implies #[trigger] listed(
                    elems,
                    elems.len(),
                    stored::<List<A::VarType>>(before, ValueView::Unit),
                    before.fresh(),
                    after,
                    r,
                ) by {
                    assert(elems[k - 1].lowered(start, mid, head.var));
                    assert(listed(elems, k, start, tail, after, r));
                }
            }
        }
        list
    }
}

} // verus!
