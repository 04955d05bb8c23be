//! Variables, the values they can be bound to, and the type tags of both.

use crate::finitedomain::{Fd, FdView};
use std::marker::PhantomData;
use vstd::prelude::*;

verus! {

/// Identifies a cell of the store. Two identifiers denote the same cell
/// exactly when they are equal.
#[derive(Clone, Copy, Debug, PartialEq, Eq, Structural, Hash)]
pub struct UntypedVar {
    pub id: usize,
}

/// A variable together with the static type of the values it can hold.
#[derive(Debug, PartialEq, Eq)]
pub struct Var<T> {
    pub var: UntypedVar,
    pub marker: PhantomData<T>,
}

impl<T> Clone for Var<T> {
    fn clone(&self) -> (r: Var<T>)
        ensures
            r == *self,
    {
        Var { var: self.var, marker: PhantomData }
    }
}

impl<T> Copy for Var<T> {

}

impl<T> Var<T> {
    /// Gives an identifier its static type.
    pub fn new(var: UntypedVar) -> (r: Var<T>)
        ensures
            r.var == var,
    {
        Var { var, marker: PhantomData }
    }

    /// The identifier without its static type.
    pub fn untyped(&self) -> (r: UntypedVar)
        ensures
            r == self.var,
    {
        self.var
    }

    /// A reference to the identifier.
    pub fn untyped_ref(&self) -> (r: &UntypedVar)
        ensures
            *r == self.var,
    {
        &self.var
    }
}

/// The runtime type of a variable. A tuple type is the type of its first
/// component followed by the tuple type of the rest; the empty tuple is
/// `Unit`. A list is the empty tuple, or the pair of its head and its tail.
#[derive(Debug, PartialEq, Eq)]
pub enum TypeTag {
    Unit,
    Bool,
    Char,
    Str,
    Int,
    Usize,
    Fd,
    Opt(Box<TypeTag>),
    Res(Box<TypeTag>, Box<TypeTag>),
    Tuple(Box<TypeTag>, Box<TypeTag>),
    List(Box<TypeTag>),
}

/// The types already visited while descending through a type.
pub enum TypeList<'a> {
    Nil,
    Pair(&'a TypeTag, &'a TypeList<'a>),
}

impl<'a> TypeList<'a> {
    /// Whether `t` is one of the listed types.
    pub open spec fn has(self, t: TypeTag) -> bool
        decreases self,
    {
        match self {
            TypeList::Nil => false,
            TypeList::Pair(head, rest) => *head == t || rest.has(t),
        }
    }

    /// Whether `t` is one of the listed types.
    pub fn contains_type(&self, t: &TypeTag) -> (r: bool)
        ensures
            r == self.has(*t),
        decreases *self,
    {
        match self {
            TypeList::Nil => false,
            TypeList::Pair(head, rest) => head.same(t) || rest.contains_type(t),
        }
    }
}

impl Clone for TypeTag {
    fn clone(&self) -> (r: TypeTag)
        ensures
            r == *self,
        decreases *self,
    {
        match self {
            TypeTag::Unit => TypeTag::Unit,
            TypeTag::Bool => TypeTag::Bool,
            TypeTag::Char => TypeTag::Char,
            TypeTag::Str => TypeTag::Str,
            TypeTag::Int => TypeTag::Int,
            TypeTag::Usize => TypeTag::Usize,
            TypeTag::Fd => TypeTag::Fd,
            TypeTag::Opt(a) => TypeTag::Opt(Box::new((**a).clone())),
            TypeTag::Res(a, b) => TypeTag::Res(Box::new((**a).clone()), Box::new((**b).clone())),
            TypeTag::Tuple(a, b) => TypeTag::Tuple(
                Box::new((**a).clone()),
                Box::new((**b).clone()),
            ),
            TypeTag::List(a) => TypeTag::List(Box::new((**a).clone())),
        }
    }
}

impl TypeTag {
    /// Whether both tags are the same type.
    pub fn same(&self, other: &TypeTag) -> (r: bool)
        ensures
            r == (*self == *other),
        decreases *self,
    {
        match (self, other) {
            (TypeTag::Unit, TypeTag::Unit) => true,
            (TypeTag::Bool, TypeTag::Bool) => true,
            (TypeTag::Char, TypeTag::Char) => true,
            (TypeTag::Str, TypeTag::Str) => true,
            (TypeTag::Int, TypeTag::Int) => true,
            (TypeTag::Usize, TypeTag::Usize) => true,
            (TypeTag::Fd, TypeTag::Fd) => true,
            (TypeTag::Opt(a), TypeTag::Opt(b)) => a.same(b),
            (TypeTag::Res(a, c), TypeTag::Res(b, d)) => a.same(b) && c.same(d),
            (TypeTag::Tuple(a, c), TypeTag::Tuple(b, d)) => a.same(b) && c.same(d),
            (TypeTag::List(a), TypeTag::List(b)) => a.same(b),
            _ => false,
        }
    }

    /// Whether a value of this type can hold, at any depth, a variable of
    /// type `needle`: no if this type was already visited, yes if it is the
    /// needle itself, and otherwise whatever holds of its component types.
    /// The tail of a list has the type of the list, which is visited by
    /// then: only the type of the head is left to look at.
    pub open spec fn can_contain(self, visited: TypeList, needle: TypeTag) -> bool
        decreases self,
    {
        if visited.has(self) {
            false
        } else if self == needle {
            true
        } else {
            match self {
                TypeTag::Opt(a) => a.can_contain(TypeList::Pair(&self, &visited), needle),
                TypeTag::Res(a, b) => a.can_contain(TypeList::Pair(&self, &visited), needle)
                    || b.can_contain(TypeList::Pair(&self, &visited), needle),
                TypeTag::Tuple(a, b) => a.can_contain(TypeList::Pair(&self, &visited), needle)
                    || b.can_contain(TypeList::Pair(&self, &visited), needle),
                TypeTag::List(a) => a.can_contain(TypeList::Pair(&self, &visited), needle),
                _ => false,
            }
        }
    }

    /// Decides [`TypeTag::can_contain`].
    pub fn can_contain_type(&self, visited: &TypeList, needle: &TypeTag) -> (r: bool)
        ensures
            r == self.can_contain(*visited, *needle),
        decreases *self,
    {
        if visited.contains_type(self) {
            return false;
        }
        if self.same(needle) {
            return true;
        }
        let seen = TypeList::Pair(self, visited);
        match self {
            TypeTag::Opt(a) => a.can_contain_type(&seen, needle),
            TypeTag::Res(a, b) => a.can_contain_type(&seen, needle) || b.can_contain_type(
                &seen,
                needle,
            ),
            TypeTag::Tuple(a, b) => a.can_contain_type(&seen, needle) || b.can_contain_type(
                &seen,
                needle,
            ),
            TypeTag::List(a) => a.can_contain_type(&seen, needle),
            _ => false,
        }
    }
}

/// A value that a variable can be bound to. Structured values hold
/// variables, not values.
#[derive(Debug, PartialEq, Eq)]
pub enum Value {
    Unit,
    Bool(bool),
    Char(char),
    Str(String),
    Int(i64),
    Usize(usize),
    Fd(Fd),
    Opt(Option<UntypedVar>),
    Res(Result<UntypedVar, UntypedVar>),
    Tuple(Vec<UntypedVar>),
}

/// The mathematical content of a [`Value`].
#[verifier::ext_equal]
pub enum ValueView {
    Unit,
    Bool(bool),
    Char(char),
    Str(Seq<char>),
    Int(i64),
    Usize(usize),
    Fd(FdView),
    Opt(Option<UntypedVar>),
    Res(Result<UntypedVar, UntypedVar>),
    Tuple(Seq<UntypedVar>),
}

impl View for Value {
    type V = ValueView;

    open spec fn view(&self) -> ValueView {
        match self {
            Value::Unit => ValueView::Unit,
            Value::Bool(b) => ValueView::Bool(*b),
            Value::Char(c) => ValueView::Char(*c),
            Value::Str(t) => ValueView::Str(t@),
            Value::Int(i) => ValueView::Int(*i),
            Value::Usize(u) => ValueView::Usize(*u),
            Value::Fd(fd) => ValueView::Fd(fd@),
            Value::Opt(o) => ValueView::Opt(*o),
            Value::Res(r) => ValueView::Res(*r),
            Value::Tuple(vs) => ValueView::Tuple(vs@),
        }
    }
}

impl ValueView {
    /// The variables that the value holds, in order.
    pub open spec fn subs(self) -> Seq<UntypedVar> {
        match self {
            ValueView::Opt(Some(v)) => seq![v],
            ValueView::Res(Ok(v)) => seq![v],
            ValueView::Res(Err(v)) => seq![v],
            ValueView::Tuple(vs) => vs,
            _ => Seq::empty(),
        }
    }

    /// Whether this is a finite domain that breaks the invariant of
    /// domains. Every other value is sound.
    pub open spec fn sound(self) -> bool {
        self matches ValueView::Fd(fd) ==> fd.wf()
    }
}

impl Clone for Value {
    fn clone(&self) -> (r: Value)
        ensures
            r@ == self@,
    {
        match self {
            Value::Unit => Value::Unit,
            Value::Bool(b) => Value::Bool(*b),
            Value::Char(c) => Value::Char(*c),
            Value::Str(t) => Value::Str(t.clone()),
            Value::Int(i) => Value::Int(*i),
            Value::Usize(u) => Value::Usize(*u),
            Value::Fd(fd) => Value::Fd(fd.clone()),
            Value::Opt(o) => Value::Opt(*o),
            Value::Res(r) => Value::Res(*r),
            Value::Tuple(vs) => Value::Tuple(copy_vars(vs)),
        }
    }
}

/// A copy of a list of variables.
pub fn copy_vars(vs: &Vec<UntypedVar>) -> (out: Vec<UntypedVar>)
    ensures
        out@ == vs@,
{
    let mut out: Vec<UntypedVar> = Vec::new();
    let mut i: usize = 0;
    while i < vs.len()
        invariant
            i <= vs.len(),
            out@ == vs@.subrange(0, i as int),
        decreases vs.len() - i,
    {
        out.push(vs[i]);
        i = i + 1;
    }
    assert(vs@.subrange(0, vs.len() as int) == vs@);
    out
}

/// Whether two lists hold the same variables in the same order.
pub fn same_vars(a: &Vec<UntypedVar>, b: &Vec<UntypedVar>) -> (r: bool)
    ensures
        r == (a@ == b@),
{
    if a.len() != b.len() {
        return false;
    }
    let mut i: usize = 0;
    while i < a.len()
        invariant
            i <= a.len(),
            a.len() == b.len(),
            forall|k: int| 0 <= k < i ==> a@[k] == b@[k],
        decreases a.len() - i,
    {
        if a[i] != b[i] {
            assert(a@[i as int] != b@[i as int]);
            return false;
        }
        i = i + 1;
    }
    assert(a@ =~= b@);
    true
}

/// `ref_slice::ref_slice` views one element as a slice: the slice has
/// length one and holds that element.
#[allow(deprecated)]
pub assume_specification<A>[ ref_slice::ref_slice::<A> ](s: &A) -> (r: &[A])
    ensures
        r@ == seq![*s],
;

/// The one variable as a list.
#[allow(deprecated)]
pub fn one_var(x: &UntypedVar) -> (out: Vec<UntypedVar>)
    ensures
        out@ == seq![*x],
{
    let slice = ref_slice::ref_slice(x);
    let mut out: Vec<UntypedVar> = Vec::new();
    let mut i: usize = 0;
    while i < slice.len()
        invariant
            i <= slice.len(),
            out@ == slice@.subrange(0, i as int),
        decreases slice.len() - i,
    {
        out.push(slice[i]);
        i = i + 1;
    }
    assert(slice@.subrange(0, slice.len() as int) == slice@);
    out
}

impl Value {
    /// The variables that a structured value holds, in order. A value that
    /// holds none has nothing to walk.
    pub fn var_iter(&self) -> (r: Option<Vec<UntypedVar>>)
        ensures
            match r {
                Some(subs) => subs@ == self@.subs() && !(self@ matches ValueView::Opt(None)),
                None => self@.subs().len() == 0 && !(self@ is Tuple) && !(self@ is Res),
            },
    {
        match self {
            Value::Opt(Some(x)) => Some(one_var(x)),
            Value::Res(Ok(x)) => Some(one_var(x)),
            Value::Res(Err(x)) => Some(one_var(x)),
            Value::Tuple(vs) => Some(copy_vars(vs)),
            _ => None,
        }
    }

    /// Whether both values are the same value.
    pub fn same(&self, other: &Value) -> (r: bool)
        ensures
            r == (self@ == other@),
    {
        match (self, other) {
            (Value::Unit, Value::Unit) => true,
            (Value::Bool(a), Value::Bool(b)) => *a == *b,
            (Value::Char(a), Value::Char(b)) => *a == *b,
            (Value::Str(a), Value::Str(b)) => *a == *b,
            (Value::Int(a), Value::Int(b)) => *a == *b,
            (Value::Usize(a), Value::Usize(b)) => *a == *b,
            (Value::Fd(a), Value::Fd(b)) => a.same(b),
            (Value::Opt(a), Value::Opt(b)) => match (a, b) {
                (None, None) => true,
                (Some(x), Some(y)) => *x == *y,
                _ => false,
            },
            (Value::Res(a), Value::Res(b)) => match (a, b) {
                (Ok(x), Ok(y)) => *x == *y,
                (Err(x), Err(y)) => *x == *y,
                _ => false,
            },
            (Value::Tuple(a), Value::Tuple(b)) => same_vars(a, b),
            _ => false,
        }
    }
}

/// What a cell of the store holds once it is bound.
#[derive(Debug, PartialEq, Eq)]
pub enum VarRef {
    /// Bound to a value.
    Exactly(Value),
    /// Merged into another cell.
    EqualTo(UntypedVar),
}

/// The mathematical content of a [`VarRef`].
#[verifier::ext_equal]
pub enum VarRefView {
    Exactly(ValueView),
    EqualTo(UntypedVar),
}

impl View for VarRef {
    type V = VarRefView;

    open spec fn view(&self) -> VarRefView {
        match self {
            VarRef::Exactly(v) => VarRefView::Exactly(v@),
            VarRef::EqualTo(x) => VarRefView::EqualTo(*x),
        }
    }
}

impl Clone for VarRef {
    fn clone(&self) -> (r: VarRef)
        ensures
            r@ == self@,
    {
        match self {
            VarRef::Exactly(v) => VarRef::Exactly(v.clone()),
            VarRef::EqualTo(x) => VarRef::EqualTo(*x),
        }
    }
}

impl VarRef {
    /// Whether both hold the same thing.
    pub fn same(&self, other: &VarRef) -> (r: bool)
        ensures
            r == (self@ == other@),
    {
        match (self, other) {
            (VarRef::Exactly(a), VarRef::Exactly(b)) => a.same(b),
            (VarRef::EqualTo(a), VarRef::EqualTo(b)) => *a == *b,
            _ => false,
        }
    }
}

} // verus!
