//! The types of values that variables can hold, seen from the typed side.

use crate::engine::vars::{TypeTag, UntypedVar, Value, ValueView, Var};
use crate::finitedomain::Fd;
use vstd::prelude::*;

verus! {

/// A type of values that a variable can hold.
pub trait VarWrapper: Sized {
    /// The runtime type of variables of this type.
    spec fn tag() -> TypeTag;

    /// The value as the store holds it.
    spec fn content(self) -> ValueView;

    /// Whether `v` is a value of this type.
    spec fn holds(v: ValueView) -> bool;

    /// The runtime type of variables of this type.
    fn type_tag() -> (t: TypeTag)
        ensures
            t == Self::tag(),
    ;

    /// The value as the store holds it.
    fn into_value(self) -> (v: Value)
        ensures
            v@ == self.content(),
            Self::holds(v@),
    ;

    /// The value of this type that `v` is, if it is one.
    fn from_value(v: &Value) -> (r: Option<Self>)
        ensures
            r.is_some() == Self::holds(v@),
            r matches Some(x) ==> x.content() == v@,
    ;
}

impl VarWrapper for () {
    open spec fn tag() -> TypeTag {
        TypeTag::Unit
    }

    open spec fn content(self) -> ValueView {
        ValueView::Unit
    }

    open spec fn holds(v: ValueView) -> bool {
        v is Unit
    }

    fn type_tag() -> (t: TypeTag) {
        TypeTag::Unit
    }

    fn into_value(self) -> (v: Value) {
        Value::Unit
    }

    fn from_value(v: &Value) -> (r: Option<()>) {
        match v {
            Value::Unit => Some(()),
            _ => None,
        }
    }
}

impl VarWrapper for bool {
    open spec fn tag() -> TypeTag {
        TypeTag::Bool
    }

    open spec fn content(self) -> ValueView {
        ValueView::Bool(self)
    }

    open spec fn holds(v: ValueView) -> bool {
        v is Bool
    }

    fn type_tag() -> (t: TypeTag) {
        TypeTag::Bool
    }

    fn into_value(self) -> (v: Value) {
        Value::Bool(self)
    }

    fn from_value(v: &Value) -> (r: Option<bool>) {
        match v {
            Value::Bool(b) => Some(*b),
            _ => None,
        }
    }
}

impl VarWrapper for char {
    open spec fn tag() -> TypeTag {
        TypeTag::Char
    }

    open spec fn content(self) -> ValueView {
        ValueView::Char(self)
    }

    open spec fn holds(v: ValueView) -> bool {
        v is Char
    }

    fn type_tag() -> (t: TypeTag) {
        TypeTag::Char
    }

    fn into_value(self) -> (v: Value) {
        Value::Char(self)
    }

    fn from_value(v: &Value) -> (r: Option<char>) {
        match v {
            Value::Char(c) => Some(*c),
            _ => None,
        }
    }
}

impl VarWrapper for String {
    open spec fn tag() -> TypeTag {
        TypeTag::Str
    }

    open spec fn content(self) -> ValueView {
        ValueView::Str(self@)
    }

    open spec fn holds(v: ValueView) -> bool {
        v is Str
    }

    fn type_tag() -> (t: TypeTag) {
        TypeTag::Str
    }

    fn into_value(self) -> (v: Value) {
        Value::Str(self)
    }

    fn from_value(v: &Value) -> (r: Option<String>) {
        match v {
            Value::Str(t) => Some(t.clone()),
            _ => None,
        }
    }
}

impl VarWrapper for i64 {
    open spec fn tag() -> TypeTag {
        TypeTag::Int
    }

    open spec fn content(self) -> ValueView {
        ValueView::Int(self)
    }

    open spec fn holds(v: ValueView) -> bool {
        v is Int
    }

    fn type_tag() -> (t: TypeTag) {
        TypeTag::Int
    }

    fn into_value(self) -> (v: Value) {
        Value::Int(self)
    }

    fn from_value(v: &Value) -> (r: Option<i64>) {
        match v {
            Value::Int(i) => Some(*i),
            _ => None,
        }
    }
}

impl VarWrapper for usize {
    open spec fn tag() -> TypeTag {
        TypeTag::Usize
    }

    open spec fn content(self) -> ValueView {
        ValueView::Usize(self)
    }

    open spec fn holds(v: ValueView) -> bool {
        v is Usize
    }

    fn type_tag() -> (t: TypeTag) {
        TypeTag::Usize
    }

    fn into_value(self) -> (v: Value) {
        Value::Usize(self)
    }

    fn from_value(v: &Value) -> (r: Option<usize>) {
        match v {
            Value::Usize(u) => Some(*u),
            _ => None,
        }
    }
}

impl VarWrapper for Fd {
    open spec fn tag() -> TypeTag {
        TypeTag::Fd
    }

    open spec fn content(self) -> ValueView {
        ValueView::Fd(self@)
    }

    open spec fn holds(v: ValueView) -> bool {
        v is Fd
    }

    fn type_tag() -> (t: TypeTag) {
        TypeTag::Fd
    }

    fn into_value(self) -> (v: Value) {
        Value::Fd(self)
    }

    fn from_value(v: &Value) -> (r: Option<Fd>) {
        match v {
            Value::Fd(d) => Some(d.clone()),
            _ => None,
        }
    }
}

impl<A: VarWrapper> VarWrapper for Option<Var<A>> {
    open spec fn tag() -> TypeTag {
        TypeTag::Opt(Box::new(A::tag()))
    }

    open spec fn content(self) -> ValueView {
        match self {
            Some(x) => ValueView::Opt(Some(x.var)),
            None => ValueView::Opt(None),
        }
    }

    open spec fn holds(v: ValueView) -> bool {
        v is Opt
    }

    fn type_tag() -> (t: TypeTag) {
        TypeTag::Opt(Box::new(A::type_tag()))
    }

    fn into_value(self) -> (v: Value) {
        match self {
            Some(x) => Value::Opt(Some(x.var)),
            None => Value::Opt(None),
        }
    }

    fn from_value(v: &Value) -> (r: Option<Option<Var<A>>>) {
        match v {
            Value::Opt(Some(x)) => Some(Some(Var::new(*x))),
            Value::Opt(None) => Some(None),
            _ => None,
        }
    }
}

impl<A: VarWrapper, B: VarWrapper> VarWrapper for Result<Var<A>, Var<B>> {
    open spec fn tag() -> TypeTag {
        TypeTag::Res(Box::new(A::tag()), Box::new(B::tag()))
    }

    open spec fn content(self) -> ValueView {
        match self {
            Ok(x) => ValueView::Res(Ok(x.var)),
            Err(x) => ValueView::Res(Err(x.var)),
        }
    }

    open spec fn holds(v: ValueView) -> bool {
        v is Res
    }

    fn type_tag() -> (t: TypeTag) {
        TypeTag::Res(Box::new(A::type_tag()), Box::new(B::type_tag()))
    }

    fn into_value(self) -> (v: Value) {
        match self {
            Ok(x) => Value::Res(Ok(x.var)),
            Err(x) => Value::Res(Err(x.var)),
        }
    }

    fn from_value(v: &Value) -> (r: Option<Result<Var<A>, Var<B>>>) {
        match v {
            Value::Res(Ok(x)) => Some(Ok(Var::new(*x))),
            Value::Res(Err(x)) => Some(Err(Var::new(*x))),
            _ => None,
        }
    }
}

impl<A: VarWrapper, B: VarWrapper> VarWrapper for (Var<A>, Var<B>) {
    open spec fn tag() -> TypeTag {
        TypeTag::Tuple(
            Box::new(A::tag()),
            Box::new(TypeTag::Tuple(Box::new(B::tag()), Box::new(TypeTag::Unit))),
        )
    }

    open spec fn content(self) -> ValueView {
        ValueView::Tuple(seq![self.0.var, self.1.var])
    }

    open spec fn holds(v: ValueView) -> bool {
        v matches ValueView::Tuple(s) && s.len() == 2
    }

    fn type_tag() -> (t: TypeTag) {
        TypeTag::Tuple(
            Box::new(A::type_tag()),
            Box::new(TypeTag::Tuple(Box::new(B::type_tag()), Box::new(TypeTag::Unit))),
        )
    }

    fn into_value(self) -> (v: Value) {
        let mut subs: Vec<UntypedVar> = Vec::new();
        subs.push(self.0.var);
        subs.push(self.1.var);
        assert(subs@ =~= seq![self.0.var, self.1.var]);
        Value::Tuple(subs)
    }

    fn from_value(v: &Value) -> (r: Option<(Var<A>, Var<B>)>) {
        match v {
            Value::Tuple(s) => {
                if s.len() == 2 {
                    let r = (Var::new(s[0]), Var::new(s[1]));
                    assert(s@ =~= seq![s@[0], s@[1]]);
                    Some(r)
                } else {
                    None
                }
            },
            _ => None,
        }
    }
}

impl<A: VarWrapper, B: VarWrapper, C: VarWrapper> VarWrapper for (Var<A>, Var<B>, Var<C>) {
    open spec fn tag() -> TypeTag {
        TypeTag::Tuple(
            Box::new(A::tag()),
            Box::new(
                TypeTag::Tuple(
                    Box::new(B::tag()),
                    Box::new(TypeTag::Tuple(Box::new(C::tag()), Box::new(TypeTag::Unit))),
                ),
            ),
        )
    }

    open spec fn content(self) -> ValueView {
        ValueView::Tuple(seq![self.0.var, self.1.var, self.2.var])
    }

    open spec fn holds(v: ValueView) -> bool {
        v matches ValueView::Tuple(s) && s.len() == 3
    }

    fn type_tag() -> (t: TypeTag) {
        TypeTag::Tuple(
            Box::new(A::type_tag()),
            Box::new(
                TypeTag::Tuple(
                    Box::new(B::type_tag()),
                    Box::new(TypeTag::Tuple(Box::new(C::type_tag()), Box::new(TypeTag::Unit))),
                ),
            ),
        )
    }

    fn into_value(self) -> (v: Value) {
        let mut subs: Vec<UntypedVar> = Vec::new();
        subs.push(self.0.var);
        subs.push(self.1.var);
        subs.push(self.2.var);
        assert(subs@ =~= seq![self.0.var, self.1.var, self.2.var]);
        Value::Tuple(subs)
    }

    fn from_value(v: &Value) -> (r: Option<(Var<A>, Var<B>, Var<C>)>) {
        match v {
            Value::Tuple(s) => {
                if s.len() == 3 {
                    let r = (Var::new(s[0]), Var::new(s[1]), Var::new(s[2]));
                    assert(s@ =~= seq![s@[0], s@[1], s@[2]]);
                    Some(r)
                } else {
                    None
                }
            },
            _ => None,
        }
    }
}

impl<A: VarWrapper, B: VarWrapper, C: VarWrapper, D: VarWrapper> VarWrapper for (Var<A>, Var<B>, Var<C>, Var<D>) {
    open spec fn tag() -> TypeTag {
        TypeTag::Tuple(Box::new(A::tag()), Box::new(TypeTag::Tuple(Box::new(B::tag()), Box::new(TypeTag::Tuple(Box::new(C::tag()), Box::new(TypeTag::Tuple(Box::new(D::tag()), Box::new(TypeTag::Unit))))))))
    }

    open spec fn content(self) -> ValueView {
        ValueView::Tuple(seq![self.0.var, self.1.var, self.2.var, self.3.var])
    }

    open spec fn holds(v: ValueView) -> bool {
        v matches ValueView::Tuple(s) && s.len() == 4
    }

    fn type_tag() -> (t: TypeTag) {
        TypeTag::Tuple(Box::new(A::type_tag()), Box::new(TypeTag::Tuple(Box::new(B::type_tag()), Box::new(TypeTag::Tuple(Box::new(C::type_tag()), Box::new(TypeTag::Tuple(Box::new(D::type_tag()), Box::new(TypeTag::Unit))))))))
    }

    fn into_value(self) -> (v: Value) {
        let mut subs: Vec<UntypedVar> = Vec::new();
        subs.push(self.0.var);
        subs.push(self.1.var);
        subs.push(self.2.var);
        subs.push(self.3.var);
        assert(subs@ =~= seq![self.0.var, self.1.var, self.2.var, self.3.var]);
        Value::Tuple(subs)
    }

    fn from_value(v: &Value) -> (r: Option<(Var<A>, Var<B>, Var<C>, Var<D>)>) {
        match v {
            Value::Tuple(s) => {
                if s.len() == 4 {
                    let r = (Var::new(s[0]), Var::new(s[1]), Var::new(s[2]), Var::new(s[3]));
                    assert(s@ =~= seq![s@[0], s@[1], s@[2], s@[3]]);
                    Some(r)
                } else {
                    None
                }
            },
            _ => None,
        }
    }
}

impl<A: VarWrapper, B: VarWrapper, C: VarWrapper, D: VarWrapper, E: VarWrapper> VarWrapper for (Var<A>, Var<B>, Var<C>, Var<D>, Var<E>) {
    open spec fn tag() -> TypeTag {
        TypeTag::Tuple(Box::new(A::tag()), Box::new(TypeTag::Tuple(Box::new(B::tag()), Box::new(TypeTag::Tuple(Box::new(C::tag()), Box::new(TypeTag::Tuple(Box::new(D::tag()), Box::new(TypeTag::Tuple(Box::new(E::tag()), Box::new(TypeTag::Unit))))))))))
    }

    open spec fn content(self) -> ValueView {
        ValueView::Tuple(seq![self.0.var, self.1.var, self.2.var, self.3.var, self.4.var])
    }

    open spec fn holds(v: ValueView) -> bool {
        v matches ValueView::Tuple(s) && s.len() == 5
    }

    fn type_tag() -> (t: TypeTag) {
        TypeTag::Tuple(Box::new(A::type_tag()), Box::new(TypeTag::Tuple(Box::new(B::type_tag()), Box::new(TypeTag::Tuple(Box::new(C::type_tag()), Box::new(TypeTag::Tuple(Box::new(D::type_tag()), Box::new(TypeTag::Tuple(Box::new(E::type_tag()), Box::new(TypeTag::Unit))))))))))
    }

    fn into_value(self) -> (v: Value) {
        let mut subs: Vec<UntypedVar> = Vec::new();
        subs.push(self.0.var);
        subs.push(self.1.var);
        subs.push(self.2.var);
        subs.push(self.3.var);
        subs.push(self.4.var);
        assert(subs@ =~= seq![self.0.var, self.1.var, self.2.var, self.3.var, self.4.var]);
        Value::Tuple(subs)
    }

    fn from_value(v: &Value) -> (r: Option<(Var<A>, Var<B>, Var<C>, Var<D>, Var<E>)>) {
        match v {
            Value::Tuple(s) => {
                if s.len() == 5 {
                    let r = (Var::new(s[0]), Var::new(s[1]), Var::new(s[2]), Var::new(s[3]), Var::new(s[4]));
                    assert(s@ =~= seq![s@[0], s@[1], s@[2], s@[3], s@[4]]);
                    Some(r)
                } else {
                    None
                }
            },
            _ => None,
        }
    }
}

} // verus!
