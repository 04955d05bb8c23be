//! Finite domains: the candidate values of an integer variable.
//!
//! A domain is either one value, or an enumeration of at least two values in
//! strictly increasing order. The empty enumeration is the error sentinel: it
//! stands for a domain from which every candidate has been removed.

use std::collections::HashSet;
use vstd::prelude::*;

verus! {

broadcast use vstd::std_specs::hash::group_hash_axioms;

/// Each element is smaller than every later one.
pub open spec fn strictly_increasing(s: Seq<usize>) -> bool {
    forall|i: int, j: int| 0 <= i < j < s.len() ==> s[i] < s[j]
}

/// Whether `x` lies within the optional bounds, both inclusive.
pub open spec fn within(min: Option<usize>, max: Option<usize>, x: usize) -> bool {
    &&& (min matches Some(lo) ==> lo <= x)
    &&& (max matches Some(hi) ==> x <= hi)
}

/// The test for not being an element of `gone`.
pub open spec fn outside(gone: Set<usize>) -> spec_fn(usize) -> bool {
    |x: usize| !gone.contains(x)
}

/// The test for lying within the optional bounds.
pub open spec fn bounded(min: Option<usize>, max: Option<usize>) -> spec_fn(usize) -> bool {
    |x: usize| within(min, max, x)
}

/// A finite domain of non-negative integers.
#[derive(Debug, PartialEq, Eq)]
pub enum Fd {
    /// Exactly this value.
    Single(usize),
    /// One of these values, listed in strictly increasing order.
    Values(Vec<usize>),
}

/// The mathematical content of an [`Fd`].
#[verifier::ext_equal]
pub enum FdView {
    Single(usize),
    Values(Seq<usize>),
}

impl View for Fd {
    type V = FdView;

    open spec fn view(&self) -> FdView {
        match self {
            Fd::Single(v) => FdView::Single(*v),
            Fd::Values(vs) => FdView::Values(vs@),
        }
    }
}

impl FdView {
    /// The candidates, in the order in which the domain lists them.
    pub open spec fn members(self) -> Seq<usize> {
        match self {
            FdView::Single(v) => seq![v],
            FdView::Values(s) => s,
        }
    }

    /// Whether `x` is a candidate.
    pub open spec fn contains(self, x: usize) -> bool {
        self.members().contains(x)
    }

    /// The invariant of a usable domain: an enumeration is strictly
    /// increasing and has at least two entries.
    pub open spec fn wf(self) -> bool {
        match self {
            FdView::Single(_) => true,
            FdView::Values(s) => s.len() >= 2 && strictly_increasing(s),
        }
    }

    /// The error sentinel: an enumeration without entries.
    pub open spec fn is_err(self) -> bool {
        self matches FdView::Values(s) && s.len() == 0
    }

    /// Either a usable domain or the error sentinel. Two canonical domains
    /// with the same candidates are the same domain.
    pub open spec fn canonical(self) -> bool {
        self.wf() || self.is_err()
    }

    /// An enumeration with a single entry becomes `Single`; anything else is
    /// left as it is.
    pub open spec fn collapsed(self) -> FdView {
        match self {
            FdView::Values(s) if s.len() == 1 => FdView::Single(s[0]),
            _ => self,
        }
    }

    /// The smallest candidate of a non-empty domain that is in order.
    pub open spec fn lowest(self) -> usize
        recommends
            self.members().len() > 0,
    {
        self.members()[0]
    }

    /// The largest candidate of a non-empty domain that is in order.
    pub open spec fn highest(self) -> usize
        recommends
            self.members().len() > 0,
    {
        self.members().last()
    }

    /// The candidates that this domain shares with `other`, as a domain:
    /// `Single` where exactly one is shared, the error sentinel where none
    /// is.
    pub open spec fn meet(self, other: FdView) -> FdView {
        self.only(other.holds())
    }

    /// The test for being a candidate of this domain.
    pub open spec fn holds(self) -> spec_fn(usize) -> bool {
        |x: usize| self.contains(x)
    }

    /// The candidates that satisfy `p`, as a domain: `Single` where exactly
    /// one does, the error sentinel where none does.
    pub open spec fn only(self, p: spec_fn(usize) -> bool) -> FdView {
        FdView::Values(keep(self.members(), p)).collapsed()
    }

    /// The domain without the candidates in `gone`. A `Single` is left as
    /// it is.
    pub open spec fn without(self, gone: Set<usize>) -> FdView {
        match self {
            FdView::Single(_) => self,
            FdView::Values(_) => self.only(outside(gone)),
        }
    }

    /// The candidates within the optional bounds, both inclusive, as a
    /// domain.
    pub open spec fn clipped(self, min: Option<usize>, max: Option<usize>) -> FdView {
        self.only(bounded(min, max))
    }
}

/// Two strictly increasing sequences with the same elements are equal.
pub proof fn lemma_increasing_unique(s: Seq<usize>, t: Seq<usize>)
    requires
        strictly_increasing(s),
        strictly_increasing(t),
        forall|x: usize| s.contains(x) <==> t.contains(x),
    ensures
        s == t,
    decreases s.len(),
{
    if s.len() == 0 {
        if t.len() > 0 {
            assert(t.contains(t[0]));
            assert(s.contains(t[0]));
        }
        assert(s =~= t);
    } else {
        assert(s.contains(s[0]));
        assert(t.contains(s[0]));
        assert(t.len() > 0);
        let a = s.last();
        let b = t.last();
        assert(s.contains(a));
        assert(t.contains(b));
        assert(t.contains(a));
        assert(s.contains(b));
        assert(a == b);
        let s1 = s.drop_last();
        let t1 = t.drop_last();
        assert forall|x: usize| s1.contains(x) <==> t1.contains(x) by {
            if s1.contains(x) {
                let i = choose|i: int| 0 <= i < s1.len() && s1[i] == x;
                assert(s[i] == x);
                assert(s.contains(x));
                assert(x < a);
                let j = choose|j: int| 0 <= j < t.len() && t[j] == x;
                assert(j < t.len() - 1);
                assert(t1[j] == x);
            }
            if t1.contains(x) {
                let i = choose|i: int| 0 <= i < t1.len() && t1[i] == x;
                assert(t[i] == x);
                assert(t.contains(x));
                assert(x < b);
                let j = choose|j: int| 0 <= j < s.len() && s[j] == x;
                assert(j < s.len() - 1);
                assert(s1[j] == x);
            }
        }
        lemma_increasing_unique(s1, t1);
        assert(s =~= s1.push(a));
        assert(t =~= t1.push(b));
    }
}

/// A canonical domain is determined by its candidates.
pub proof fn lemma_canonical_unique(a: FdView, b: FdView)
    requires
        a.canonical(),
        b.canonical(),
        forall|x: usize| a.contains(x) <==> b.contains(x),
    ensures
        a == b,
{
    let s = a.members();
    let t = b.members();
    assert(strictly_increasing(s));
    assert(strictly_increasing(t));
    assert forall|x: usize| s.contains(x) <==> t.contains(x) by {
        assert(a.contains(x) <==> b.contains(x));
    }
    lemma_increasing_unique(s, t);
    match (a, b) {
        (FdView::Single(v), FdView::Single(w)) => {
            assert(s[0] == t[0]);
        },
        (FdView::Values(x), FdView::Values(y)) => {},
        _ => {
            assert(s.len() == t.len());
        },
    }
}

/// The elements of `s` that satisfy `p`, in the order of `s`.
pub open spec fn keep(s: Seq<usize>, p: spec_fn(usize) -> bool) -> Seq<usize>
    decreases s.len(),
{
    if s.len() == 0 {
        Seq::empty()
    } else if p(s.last()) {
        keep(s.drop_last(), p).push(s.last())
    } else {
        keep(s.drop_last(), p)
    }
}

/// `keep` keeps the order, and keeps exactly the elements that satisfy `p`.
pub proof fn lemma_keep(s: Seq<usize>, p: spec_fn(usize) -> bool)
    requires
        strictly_increasing(s),
    ensures
        strictly_increasing(keep(s, p)),
        keep(s, p).len() <= s.len(),
        forall|x: usize|
            #![trigger keep(s, p).contains(x)]
            #![trigger s.contains(x)]
            keep(s, p).contains(x) <==> s.contains(x) && p(x),
    decreases s.len(),
{
    if s.len() > 0 {
        let init = s.drop_last();
        let last = s.last();
        let rest = keep(init, p);
        let out = keep(s, p);
        lemma_keep(init, p);
        assert(s =~= init.push(last));
        assert forall|i: int| 0 <= i < rest.len() implies rest[i] < last by {
            assert(rest.contains(rest[i]));
            assert(init.contains(rest[i]));
            let j = choose|j: int| 0 <= j < init.len() && init[j] == rest[i];
            assert(s[j] == rest[i]);
        }
        if p(last) {
            assert(out == rest.push(last));
            lemma_push_keeps_order(rest, last);
        } else {
            assert(out == rest);
        }
        assert forall|x: usize| out.contains(x) implies s.contains(x) && p(x) by {
            let i = choose|i: int| 0 <= i < out.len() && out[i] == x;
            if i < rest.len() {
                assert(rest[i] == x);
                assert(rest.contains(x));
                assert(init.contains(x) && p(x));
                let j = choose|j: int| 0 <= j < init.len() && init[j] == x;
                assert(s[j] == x);
            } else {
                assert(x == last);
                assert(s[s.len() - 1] == x);
            }
        }
        assert forall|x: usize| s.contains(x) && p(x) implies out.contains(x) by {
            let j = choose|j: int| 0 <= j < s.len() && s[j] == x;
            if j < init.len() {
                assert(init[j] == x);
                assert(init.contains(x));
                assert(rest.contains(x));
                let i = choose|i: int| 0 <= i < rest.len() && rest[i] == x;
                assert(out[i] == x);
            } else {
                assert(x == last);
                assert(out[out.len() - 1] == x);
            }
        }
    }
}

/// A canonical domain restricted to the candidates that satisfy `p` is the
/// canonical domain of those candidates.
pub proof fn lemma_only(a: FdView, p: spec_fn(usize) -> bool)
    requires
        a.canonical(),
    ensures
        a.only(p).canonical(),
        a.only(p).members().len() <= a.members().len(),
        forall|x: usize|
            #![trigger a.only(p).contains(x)]
            #![trigger a.contains(x)]
            a.only(p).contains(x) <==> a.contains(x) && p(x),
{
    let kept = keep(a.members(), p);
    lemma_keep(a.members(), p);
    if kept.len() == 1 {
        assert(a.only(p).members() =~= kept);
    }
}

/// A canonical domain that has these candidates is that restriction.
pub proof fn lemma_only_is(a: FdView, p: spec_fn(usize) -> bool, r: FdView)
    requires
        a.canonical(),
        r.canonical(),
        forall|x: usize| r.contains(x) <==> a.contains(x) && p(x),
    ensures
        r == a.only(p),
{
    lemma_only(a, p);
    assert forall|x: usize| r.contains(x) <==> a.only(p).contains(x) by {
        assert(a.only(p).contains(x) <==> a.contains(x) && p(x));
    }
    lemma_canonical_unique(r, a.only(p));
}

/// The meet of two canonical domains is the canonical domain of the
/// candidates they share.
pub proof fn lemma_meet(a: FdView, b: FdView)
    requires
        a.canonical(),
    ensures
        a.meet(b).canonical(),
        forall|x: usize| a.meet(b).contains(x) <==> a.contains(x) && b.contains(x),
{
    lemma_only(a, b.holds());
}

/// The meet does not depend on the order of the two domains.
pub proof fn lemma_meet_symmetric(a: FdView, b: FdView)
    requires
        a.canonical(),
        b.canonical(),
    ensures
        a.meet(b) == b.meet(a),
{
    lemma_meet(a, b);
    lemma_meet(b, a);
    assert forall|x: usize| a.meet(b).contains(x) <==> b.meet(a).contains(x) by {
        assert(a.meet(b).contains(x) <==> a.contains(x) && b.contains(x));
        assert(b.meet(a).contains(x) <==> b.contains(x) && a.contains(x));
    }
    lemma_canonical_unique(a.meet(b), b.meet(a));
}

/// A strictly increasing sequence whose elements all occur in another one is
/// no longer than the other, and is the other if it is as long.
pub proof fn lemma_part_is_shorter(s: Seq<usize>, t: Seq<usize>)
    requires
        strictly_increasing(s),
        strictly_increasing(t),
        forall|x: usize| s.contains(x) ==> t.contains(x),
    ensures
        s.len() <= t.len(),
        s.len() == t.len() ==> s == t,
    decreases t.len(),
{
    if s.len() == 0 {
        if t.len() == 0 {
            assert(s =~= t);
        }
    } else {
        assert(s.contains(s[0]));
        assert(t.contains(s[0]));
        let a = s.last();
        let b = t.last();
        assert(s.contains(a));
        assert(t.contains(a));
        let t1 = t.drop_last();
        let ja = choose|j: int| 0 <= j < t.len() && t[j] == a;
        if a == b {
            let s1 = s.drop_last();
            assert forall|x: usize| s1.contains(x) implies t1.contains(x) by {
                let i = choose|i: int| 0 <= i < s1.len() && s1[i] == x;
                assert(s[i] == x);
                assert(s.contains(x));
                let j = choose|j: int| 0 <= j < t.len() && t[j] == x;
                assert(x < a);
                assert(j < t.len() - 1);
                assert(t1[j] == x);
            }
            lemma_part_is_shorter(s1, t1);
            if s.len() == t.len() {
                assert(s =~= s1.push(a));
                assert(t =~= t1.push(b));
            }
        } else {
            assert(ja < t.len() - 1);
            assert forall|x: usize| s.contains(x) implies t1.contains(x) by {
                let i = choose|i: int| 0 <= i < s.len() && s[i] == x;
                assert(x <= a);
                let j = choose|j: int| 0 <= j < t.len() && t[j] == x;
                assert(j < t.len() - 1);
                assert(t1[j] == x);
            }
            lemma_part_is_shorter(s, t1);
        }
    }
}

/// A usable domain whose candidates are all candidates of another usable
/// domain has no more candidates than the other, and is the other if it has
/// as many.
pub proof fn lemma_narrower_is_smaller(e: FdView, d: FdView)
    requires
        e.wf(),
        d.wf(),
        forall|x: usize| e.contains(x) ==> d.contains(x),
    ensures
        e.members().len() <= d.members().len(),
        e.members().len() == d.members().len() ==> e == d,
{
    assert forall|x: usize| e.members().contains(x) implies d.members().contains(x) by {
        assert(e.contains(x));
    }
    lemma_part_is_shorter(e.members(), d.members());
    if e.members().len() == d.members().len() {
        match (e, d) {
            (FdView::Single(v), FdView::Single(w)) => {
                assert(e.members()[0] == d.members()[0]);
            },
            _ => {},
        }
    }
}

/// The lowest and the highest candidate of a usable domain are candidates,
/// and every candidate lies between them.
pub proof fn lemma_extremes(d: FdView)
    requires
        d.wf(),
    ensures
        d.contains(d.lowest()),
        d.contains(d.highest()),
        forall|x: usize| d.contains(x) ==> d.lowest() <= x <= d.highest(),
{
    let s = d.members();
    assert(s[0] == d.lowest());
    assert(s[s.len() - 1] == d.highest());
    assert forall|x: usize| d.contains(x) implies d.lowest() <= x <= d.highest() by {
        let i = choose|i: int| 0 <= i < s.len() && s[i] == x;
        if 0 < i {
            assert(s[0] < s[i]);
        }
        if i < s.len() - 1 {
            assert(s[i] < s[s.len() - 1]);
        }
    }
}

/// The meet grows with its first domain: what a part of a domain shares
/// with another domain is shared by the whole domain.
pub proof fn lemma_meet_monotone(part: FdView, whole: FdView, other: FdView)
    requires
        part.canonical(),
        whole.canonical(),
        forall|x: usize| part.contains(x) ==> whole.contains(x),
    ensures
        forall|x: usize| part.meet(other).contains(x) ==> whole.meet(other).contains(x),
        whole.meet(other).is_err() ==> part.meet(other).is_err(),
{
    lemma_meet(part, other);
    lemma_meet(whole, other);
    assert forall|x: usize| part.meet(other).contains(x) implies whole.meet(other).contains(x) by {
        assert(part.contains(x) && other.contains(x));
    }
    if whole.meet(other).is_err() && !part.meet(other).is_err() {
        let m = part.meet(other).members();
        assert(m.len() > 0);
        assert(part.meet(other).contains(m[0]));
        assert(whole.meet(other).contains(m[0]));
    }
}

/// Appending something larger than every element keeps the order.
proof fn lemma_push_keeps_order(s: Seq<usize>, x: usize)
    requires
        strictly_increasing(s),
        forall|i: int| 0 <= i < s.len() ==> s[i] < x,
    ensures
        strictly_increasing(s.push(x)),
{
}

impl Clone for Fd {
    fn clone(&self) -> (r: Fd)
        ensures
            r@ == self@,
    {
        match self {
            Fd::Single(v) => Fd::Single(*v),
            Fd::Values(vs) => {
                let mut out: Vec<usize> = Vec::new();
                let mut i: usize = 0;
                while i < vs.len()
                    invariant
                        i <= vs.len(),
                        out@ == vs@.subrange(0, i as int),
                    decreases vs.len() - i,
                {
                    out.push(vs[i]);
                    i = i + 1;
                }
                assert(vs@.subrange(0, vs.len() as int) == vs@);
                Fd::Values(out)
            },
        }
    }
}

impl Fd {
    /// The domain that holds exactly `v`.
    pub fn new_single(v: usize) -> (r: Fd)
        ensures
            r@ == FdView::Single(v),
    {
        Fd::Single(v)
    }

    /// The error sentinel.
    pub fn err() -> (r: Fd)
        ensures
            r@ == FdView::Values(Seq::<usize>::empty()),
            r@.is_err(),
    {
        Fd::Values(Vec::new())
    }

    /// The value of a `Single`, and nothing for an enumeration.
    pub fn single_value(&self) -> (r: Option<usize>)
        ensures
            r == match self@ {
                FdView::Single(v) => Some(v),
                FdView::Values(_) => None::<usize>,
            },
    {
        match self {
            Fd::Single(v) => Some(*v),
            Fd::Values(_) => None,
        }
    }

    /// False exactly for the error sentinel, the domain without candidates.
    pub fn is_valid(&self) -> (r: bool)
        ensures
            r == !self@.is_err(),
    {
        match self {
            Fd::Single(_) => true,
            Fd::Values(vs) => vs.len() != 0,
        }
    }

    /// Whether the domain meets its invariant: a check for values that come
    /// from outside verified code.
    pub fn is_well_formed(&self) -> (r: bool)
        ensures
            r == self@.wf(),
    {
        match self {
            Fd::Single(_) => true,
            Fd::Values(vs) => {
                if vs.len() < 2 {
                    return false;
                }
                let mut i: usize = 1;
                while i < vs.len()
                    invariant
                        1 <= i <= vs.len(),
                        self@ == FdView::Values(vs@),
                        strictly_increasing(vs@.subrange(0, i as int)),
                    decreases vs.len() - i,
                {
                    if vs[i - 1] >= vs[i] {
                        assert(!(vs@[i - 1] < vs@[i as int]));
                        return false;
                    }
                    proof {
                        let p = vs@.subrange(0, i as int);
                        assert forall|k: int| 0 <= k < p.len() implies p[k] < vs@[i as int] by {
                            assert(p[i - 1] == vs@[i - 1]);
                        }
                        lemma_push_keeps_order(p, vs@[i as int]);
                        assert(vs@.subrange(0, i + 1) =~= p.push(vs@[i as int]));
                    }
                    i = i + 1;
                }
                assert(vs@.subrange(0, vs.len() as int) == vs@);
                true
            },
        }
    }

    /// Turns an enumeration with one entry into a `Single`.
    pub fn collapse(self) -> (r: Fd)
        ensures
            r@ == self@.collapsed(),
    {
        match self {
            Fd::Single(v) => Fd::Single(v),
            Fd::Values(vs) => {
                if vs.len() == 1 {
                    Fd::Single(vs[0])
                } else {
                    Fd::Values(vs)
                }
            },
        }
    }

    /// Whether `x` is a candidate.
    pub fn contains(&self, x: usize) -> (r: bool)
        ensures
            r == self@.contains(x),
    {
        match self {
            Fd::Single(v) => {
                assert(seq![*v][0] == *v);
                *v == x
            },
            Fd::Values(vs) => {
                let mut i: usize = 0;
                while i < vs.len()
                    invariant
                        i <= vs.len(),
                        self@ == FdView::Values(vs@),
                        forall|k: int| 0 <= k < i ==> vs@[k] != x,
                    decreases vs.len() - i,
                {
                    if vs[i] == x {
                        assert(vs@[i as int] == x);
                        return true;
                    }
                    i = i + 1;
                }
                false
            },
        }
    }

    /// Whether both domains are the same domain.
    pub fn same(&self, other: &Fd) -> (r: bool)
        ensures
            r == (self@ == other@),
    {
        match (self, other) {
            (Fd::Single(v), Fd::Single(w)) => *v == *w,
            (Fd::Values(a), Fd::Values(b)) => {
                if a.len() != b.len() {
                    return false;
                }
                let mut i: usize = 0;
                while i < a.len()
                    invariant
                        i <= a.len(),
                        a.len() == b.len(),
                        self@ == FdView::Values(a@),
                        other@ == FdView::Values(b@),
                        forall|k: int| 0 <= k < i ==> a@[k] == b@[k],
                    decreases a.len() - i,
                {
                    if a[i] != b[i] {
                        assert(a@[i as int] != b@[i as int]);
                        return false;
                    }
                    i = i + 1;
                }
                assert(a@ =~= b@);
                true
            },
            _ => false,
        }
    }

    /// Removes the listed values from an enumeration. If one candidate is
    /// left the domain becomes `Single`; if none is left it becomes the error
    /// sentinel. A `Single` is left as it is.
    pub fn remove_values(&mut self, set: &HashSet<usize>)
        requires
            old(self)@.canonical(),
        ensures
            final(self)@ == old(self)@.without(set@),
            final(self)@.canonical(),
            old(self)@ is Single ==> final(self)@ == old(self)@,
            old(self)@ is Values ==> (forall|x: usize|
                final(self)@.contains(x) <==> (old(self)@.contains(x) && !set@.contains(x))),
    {
        let ghost before = self@;
        let narrowed = self.dropped(set);
        proof {
            if before is Values {
                lemma_only_is(before, outside(set@), narrowed@);
            }
        }
        *self = narrowed;
    }

    /// The domain without the listed values.
    fn dropped(&self, set: &HashSet<usize>) -> (r: Fd)
        requires
            self@.canonical(),
        ensures
            r@.canonical(),
            self@ is Single ==> r@ == self@,
            self@ is Values ==> (forall|x: usize|
                r@.contains(x) <==> (self@.contains(x) && !set@.contains(x))),
    {
        match self {
            Fd::Single(v) => Fd::Single(*v),
            Fd::Values(vs) => {
                let mut out: Vec<usize> = Vec::new();
                let mut i: usize = 0;
                while i < vs.len()
                    invariant
                        i <= vs.len(),
                        strictly_increasing(vs@),
                        strictly_increasing(out@),
                        forall|k: int, m: int|
                            0 <= k < out.len() && i <= m < vs.len() ==> out@[k] < vs@[m],
                        forall|x: usize|
                            out@.contains(x) <==> vs@.subrange(0, i as int).contains(x)
                                && !set@.contains(x),
                    decreases vs.len() - i,
                {
                    let v = vs[i];
                    let ghost before = out@;
                    let ghost seen = vs@.subrange(0, i as int);
                    let ghost seen_next = vs@.subrange(0, i + 1);
                    proof {
                        assert(seen_next =~= seen.push(v));
                    }
                    if !set.contains(&v) {
                        out.push(v);
                        proof {
                            lemma_push_keeps_order(before, v);
                            assert forall|x: usize|
                                out@.contains(x) <==> seen_next.contains(x) && !set@.contains(
                                    x,
                                ) by {
                                if out@.contains(x) {
                                    let k = choose|k: int| 0 <= k < out@.len() && out@[k] == x;
                                    if k < before.len() {
                                        assert(before[k] == x);
                                        assert(before.contains(x));
                                        let m = choose|m: int| 0 <= m < seen.len() && seen[m] == x;
                                        assert(seen_next[m] == x);
                                    } else {
                                        assert(seen_next[i as int] == x);
                                    }
                                }
                                if seen_next.contains(x) && !set@.contains(x) {
                                    let m = choose|m: int|
                                        0 <= m < seen_next.len() && seen_next[m] == x;
                                    if m < i {
                                        assert(seen[m] == x);
                                        assert(seen.contains(x));
                                        let k = choose|k: int|
                                            0 <= k < before.len() && before[k] == x;
                                        assert(out@[k] == x);
                                    } else {
                                        assert(out@[before.len() as int] == x);
                                    }
                                }
                            }
                        }
                    } else {
                        proof {
                            assert forall|x: usize|
                                out@.contains(x) <==> seen_next.contains(x) && !set@.contains(
                                    x,
                                ) by {
                                if out@.contains(x) {
                                    let m = choose|m: int| 0 <= m < seen.len() && seen[m] == x;
                                    assert(seen_next[m] == x);
                                }
                                if seen_next.contains(x) && !set@.contains(x) {
                                    let m = choose|m: int|
                                        0 <= m < seen_next.len() && seen_next[m] == x;
                                    assert(m < i);
                                    assert(seen[m] == x);
                                    assert(seen.contains(x));
                                }
                            }
                        }
                    }
                    i = i + 1;
                }
                assert(vs@.subrange(0, vs.len() as int) == vs@);
                let ghost kept = out@;
                let narrowed = Fd::Values(out).collapse();
                proof {
                    if kept.len() == 1 {
                        assert(narrowed@.members() =~= kept);
                    }
                }
                narrowed
            },
        }
    }

    /// The candidates that both domains share.
    pub fn intersect(&self, other: &Fd) -> (r: Fd)
        requires
            self@.canonical(),
            other@.canonical(),
        ensures
            r@ == self@.meet(other@),
            r@.canonical(),
            forall|x: usize| r@.contains(x) <==> self@.contains(x) && other@.contains(x),
    {
        let r = self.shared_with(other);
        proof {
            lemma_meet(self@, other@);
            lemma_canonical_unique(r@, self@.meet(other@));
        }
        r
    }

    /// The canonical domain of the shared candidates.
    fn shared_with(&self, other: &Fd) -> (r: Fd)
        requires
            self@.canonical(),
            other@.canonical(),
        ensures
            r@.canonical(),
            forall|x: usize| r@.contains(x) <==> self@.contains(x) && other@.contains(x),
    {
        match (self, other) {
            (Fd::Single(v), _) => {
                assert(seq![*v][0] == *v);
                if other.contains(*v) {
                    Fd::Single(*v)
                } else {
                    Fd::err()
                }
            },
            (_, Fd::Single(w)) => {
                assert(seq![*w][0] == *w);
                if self.contains(*w) {
                    Fd::Single(*w)
                } else {
                    Fd::err()
                }
            },
            (Fd::Values(a), Fd::Values(b)) => {
                let out = shared_values(a, b);
                let ghost kept = out@;
                let r = Fd::Values(out).collapse();
                proof {
                    if kept.len() == 1 {
                        assert(r@.members() =~= kept);
                    }
                }
                r
            },
        }
    }
}

/// The elements that two strictly increasing lists have in common, in order.
fn shared_values(a: &Vec<usize>, b: &Vec<usize>) -> (out: Vec<usize>)
    requires
        strictly_increasing(a@),
        strictly_increasing(b@),
    ensures
        strictly_increasing(out@),
        forall|x: usize| out@.contains(x) <==> a@.contains(x) && b@.contains(x),
{
    let mut out: Vec<usize> = Vec::new();
    let mut i: usize = 0;
    let mut j: usize = 0;
    while i < a.len() && j < b.len()
        invariant
            i <= a.len(),
            j <= b.len(),
            strictly_increasing(a@),
            strictly_increasing(b@),
            strictly_increasing(out@),
            forall|k: int, m: int| 0 <= k < out.len() && i <= m < a.len() ==> out@[k] < a@[m],
            forall|k: int, m: int| 0 <= k < out.len() && j <= m < b.len() ==> out@[k] < b@[m],
            forall|k: int| 0 <= k < out.len() ==> a@.contains(#[trigger] out@[k]) && b@.contains(out@[k]),
            forall|m: int, n: int|
                0 <= m < a.len() && 0 <= n < b.len() && a@[m] == b@[n] ==> (m >= i && n >= j)
                    || out@.contains(a@[m]),
        decreases a.len() - i + b.len() - j,
    {
        let x = a[i];
        let y = b[j];
        let ghost before = out@;
        if x < y {
            i = i + 1;
        } else if y < x {
            j = j + 1;
        } else {
            out.push(x);
            proof {
                lemma_push_keeps_order(before, x);
                assert(a@[i as int] == x);
                assert(b@[j as int] == x);
                assert forall|k: int| 0 <= k < out.len() implies a@.contains(#[trigger] out@[k])
                    && b@.contains(out@[k]) by {
                    if k < before.len() {
                        assert(out@[k] == before[k]);
                    }
                }
                assert forall|m: int, n: int|
                    0 <= m < a.len() && 0 <= n < b.len() && a@[m] == b@[n] implies (m >= i + 1
                    && n >= j + 1) || out@.contains(a@[m]) by {
                    if m >= i && n >= j {
                        if m == i || n == j {
                            assert(out@[before.len() as int] == x);
                        }
                    } else {
                        assert(before.contains(a@[m]));
                        let k = choose|k: int| 0 <= k < before.len() && before[k] == a@[m];
                        assert(out@[k] == a@[m]);
                    }
                }
            }
            i = i + 1;
            j = j + 1;
        }
    }
    proof {
        assert forall|x: usize| out@.contains(x) <==> a@.contains(x) && b@.contains(x) by {
            if a@.contains(x) && b@.contains(x) {
                let m = choose|m: int| 0 <= m < a@.len() && a@[m] == x;
                let n = choose|n: int| 0 <= n < b@.len() && b@[n] == x;
                assert(a@[m] == b@[n]);
            }
        }
    }
    out
}

} // verus!
