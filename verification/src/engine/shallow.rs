//! What a disequality between shallow terms depends on.
//!
//! A test unifies the pairs of a disequality in a scratch state. Where the
//! variables of the pairs hold no structured values, unifying them reads
//! and writes the cells of these variables and no others. Two stores that
//! agree on these cells therefore get the same report: such a disequality
//! keeps reporting what it reported until the cell of one of its variables
//! changes.
//!
//! This does not hold of a disequality between structured terms: its report
//! also depends on the variables nested in them, which it does not watch.

use crate::engine::bindings::Bindings;
use crate::engine::disequal::{
    differ, fresh_pairs, hop, hopped, lemma_unify_pairs_keeps, new_merge, stale, test_step,
    touches, unify_pairs, Pair,
};
use crate::engine::vars::{UntypedVar, ValueView, VarRefView};
use vstd::prelude::*;

verus! {

/// Whether every variable of the pairs is unbound, bound to a value without
/// components, or merged into a variable of the pairs.
pub open spec fn shallow(pairs: Seq<Pair>, b: Bindings) -> bool {
    forall|k: UntypedVar| #[trigger]
        touches(pairs, k) ==> b.has(k) && match b.cell(k) {
            None => true,
            Some(VarRefView::Exactly(v)) => v.subs().len() == 0,
            Some(VarRefView::EqualTo(w)) => touches(pairs, w),
        }
}

/// Whether `c` has the variables of `b` with their types, has failed if
/// and only if `b` has, and holds what `b` holds in the cells of the
/// variables of the pairs.
pub open spec fn alike(pairs: Seq<Pair>, b: Bindings, c: Bindings) -> bool {
    &&& b.grows_to(c)
    &&& c.ok == b.ok
    &&& forall|k: UntypedVar| #[trigger] touches(pairs, k) ==> c.cell(k) == b.cell(k)
}

/// Whether `after` holds what `before` holds in every cell but those of the
/// variables of the pairs.
pub open spec fn elsewhere_kept(pairs: Seq<Pair>, before: Bindings, after: Bindings) -> bool {
    &&& after.cells.len() == before.cells.len()
    &&& forall|k: UntypedVar|
        before.has(k) && !touches(pairs, k) ==> #[trigger] after.cell(k) == before.cell(k)
}

/// In stores that are alike, a variable of shallow pairs has the same
/// representative, which is a variable of the pairs.
pub proof fn lemma_follow_alike(pairs: Seq<Pair>, b: Bindings, c: Bindings, x: UntypedVar)
    requires
        b.wf(),
        c.wf(),
        shallow(pairs, b),
        alike(pairs, b, c),
        touches(pairs, x),
    ensures
        c.follow(x) == b.follow(x),
        touches(pairs, b.follow(x)),
    decreases b.top - b.rank[x.id as int],
{
    assert(b.cell_ok(x.id as int));
    assert(c.cell_ok(x.id as int));
    if b.merged(x) {
        let y = b.next(x);
        assert(b.cell_ok(y.id as int));
        assert(c.cell_ok(y.id as int));
        assert(c.merged(x));
        lemma_follow_alike(pairs, b, c, y);
    } else {
        match b.cell(x) {
            Some(VarRefView::EqualTo(y)) => {
                assert(b.cell_ok(y.id as int));
            },
            _ => {},
        }
    }
}

/// Unifying two variables of shallow pairs in stores that are alike leaves
/// stores that are alike, keeps the pairs shallow and leaves every other
/// cell as it was.
pub proof fn lemma_unify_alike(
    pairs: Seq<Pair>,
    b: Bindings,
    c: Bindings,
    x: UntypedVar,
    y: UntypedVar,
)
    requires
        b.wf(),
        c.wf(),
        shallow(pairs, b),
        alike(pairs, b, c),
        touches(pairs, x),
        touches(pairs, y),
    ensures
        shallow(pairs, b.unify(x, y, Seq::empty(), b.cells.len())),
        alike(
            pairs,
            b.unify(x, y, Seq::empty(), b.cells.len()),
            c.unify(x, y, Seq::empty(), c.cells.len()),
        ),
        b.unify(x, y, Seq::empty(), b.cells.len()).tags == b.tags,
        c.unify(x, y, Seq::empty(), c.cells.len()).tags == c.tags,
        elsewhere_kept(pairs, b, b.unify(x, y, Seq::empty(), b.cells.len())),
        elsewhere_kept(pairs, c, c.unify(x, y, Seq::empty(), c.cells.len())),
{
    let n = b.cells.len();
    let m = c.cells.len();
    let none = Seq::<UntypedVar>::empty();
    let bb = b.unify(x, y, none, n);
    let cc = c.unify(x, y, none, m);
    if b.ok {
        let rx = b.follow(x);
        let ry = b.follow(y);
        lemma_follow_alike(pairs, b, c, x);
        lemma_follow_alike(pairs, b, c, y);
        b.lemma_follow_ends(x);
        b.lemma_follow_ends(y);
        c.lemma_follow_ends(x);
        c.lemma_follow_ends(y);
        b.lemma_follow_root(rx);
        b.lemma_follow_root(ry);
        c.lemma_follow_root(rx);
        c.lemma_follow_root(ry);
        assert(c.cell(rx) == b.cell(rx));
        assert(c.cell(ry) == b.cell(ry));
        assert(c.tag(rx) == b.tag(rx) && c.tag(ry) == b.tag(ry)) by {
            assert(c.tags[rx.id as int] == b.tags[rx.id as int]);
            assert(c.tags[ry.id as int] == b.tags[ry.id as int]);
        }
        if rx != ry && b.tag(rx) == b.tag(ry) {
            match (b.cell(rx), b.cell(ry)) {
                (None, None) => {},
                (None, Some(VarRefView::Exactly(v))) => {
                    assert(v.subs().len() == 0);
                    assert(!none.contains(ry));
                    assert(!b.occurs_in(rx, v, none.push(ry), (n - 1) as nat));
                    assert(!c.occurs_in(rx, v, none.push(ry), (m - 1) as nat));
                    assert(!b.occurs_at(rx, ry));
                    assert(!c.occurs_at(rx, ry));
                },
                (Some(VarRefView::Exactly(v)), None) => {
                    assert(v.subs().len() == 0);
                    assert(!none.contains(rx));
                    assert(!b.occurs_in(ry, v, none.push(rx), (n - 1) as nat));
                    assert(!c.occurs_in(ry, v, none.push(rx), (m - 1) as nat));
                    assert(!b.occurs_at(ry, rx));
                    assert(!c.occurs_at(ry, rx));
                },
                (Some(VarRefView::Exactly(v)), Some(VarRefView::Exactly(w))) => {
                    assert(v.subs().len() == 0);
                    assert(w.subs().len() == 0);
                    assert(!none.contains(rx));
                    assert(!none.contains(ry));
                    let path = Bindings::deeper(none, rx, ry);
                    let fuel = (n - 1) as nat;
                    let more = (m - 1) as nat;
                    assert(bb == b.unify_values(Some(rx), v, Some(ry), w, path, fuel));
                    assert(cc == c.unify_values(Some(rx), v, Some(ry), w, path, more));
                    match (v, w) {
                        (ValueView::Tuple(s), ValueView::Tuple(t)) => {
                            assert(s.len() == 0 && t.len() == 0);
                            assert(b.unify_subs(s, t, 0, path, fuel) == b);
                            assert(c.unify_subs(s, t, 0, path, more) == c);
                        },
                        _ => {},
                    }
                },
                _ => {},
            }
        }
    }
}

/// Unifying shallow pairs in stores that are alike leaves stores that are
/// alike, keeps the pairs shallow and leaves every other cell as it was.
pub proof fn lemma_pairs_alike(pairs: Seq<Pair>, b: Bindings, c: Bindings, i: nat)
    requires
        b.wf(),
        c.wf(),
        shallow(pairs, b),
        alike(pairs, b, c),
    ensures
        shallow(pairs, unify_pairs(b, pairs, i)),
        alike(pairs, unify_pairs(b, pairs, i), unify_pairs(c, pairs, i)),
        elsewhere_kept(pairs, b, unify_pairs(b, pairs, i)),
        elsewhere_kept(pairs, c, unify_pairs(c, pairs, i)),
    decreases pairs.len() - i,
{
    if i < pairs.len() && b.ok {
        let p = pairs[i as int];
        assert(touches(pairs, p.0));
        assert(touches(pairs, p.1));
        let bb = b.typed_unify(p.0, p.1, p.2);
        let cc = c.typed_unify(p.0, p.1, p.2);
        lemma_unify_alike(pairs, b, c, p.0, p.1);
        b.lemma_fail_wf();
        c.lemma_fail_wf();
        b.lemma_unify_keeps(p.0, p.1, Seq::empty(), b.cells.len());
        c.lemma_unify_keeps(p.0, p.1, Seq::empty(), c.cells.len());
        assert(c.tag(p.0) == b.tag(p.0) && c.tag(p.1) == b.tag(p.1)) by {
            assert(c.tags[p.0.id as int] == b.tags[p.0.id as int]);
            assert(c.tags[p.1.id as int] == b.tags[p.1.id as int]);
        }
        assert(shallow(pairs, bb));
        assert(alike(pairs, bb, cc));
        lemma_pairs_alike(pairs, bb, cc, i + 1);
    }
}

/// The new merges of shallow pairs are the same in stores that are alike.
pub proof fn lemma_fresh_alike(
    pairs: Seq<Pair>,
    b: Bindings,
    c: Bindings,
    bb: Bindings,
    cc: Bindings,
    i: nat,
    quiet: bool,
)
    requires
        b.wf(),
        c.wf(),
        bb.wf(),
        cc.wf(),
        c.cells.len() <= usize::MAX,
        alike(pairs, b, c),
        shallow(pairs, bb),
        alike(pairs, bb, cc),
        elsewhere_kept(pairs, b, bb),
        elsewhere_kept(pairs, c, cc),
    ensures
        fresh_pairs(pairs, b, bb, i, quiet) == fresh_pairs(pairs, c, cc, i, quiet),
    decreases cc.cells.len() - i,
{
    if i >= bb.cells.len() && i < cc.cells.len() {
        let k = UntypedVar { id: i as usize };
        assert(c.has(k));
        assert(!touches(pairs, k));
        assert(cc.cell(k) == cc.cells[i as int]);
        assert(c.cell(k) == c.cells[i as int]);
        assert(new_merge(c, cc, i as int) is None);
        lemma_fresh_alike(pairs, b, c, bb, cc, i + 1, quiet);
    } else if i < bb.cells.len() {
        let k = UntypedVar { id: i as usize };
        assert(b.has(k) && c.has(k));
        assert(bb.cell(k) == bb.cells[i as int]);
        assert(cc.cell(k) == cc.cells[i as int]);
        assert(b.cell(k) == b.cells[i as int]);
        assert(c.cell(k) == c.cells[i as int]);
        assert(new_merge(b, bb, i as int) == new_merge(c, cc, i as int));
        match new_merge(b, bb, i as int) {
            Some(e) => {
                assert(touches(pairs, k));
                assert(touches(pairs, e));
                lemma_follow_alike(pairs, bb, cc, e);
                assert(cc.tags[bb.follow(e).id as int] == bb.tags[bb.follow(e).id as int]);
                lemma_fresh_alike(pairs, b, c, bb, cc, i + 1, true);
                lemma_fresh_alike(pairs, b, c, bb, cc, i + 1, false);
            },
            None => {
                lemma_fresh_alike(pairs, b, c, bb, cc, i + 1, quiet);
            },
        }
    }
}

/// A disequality between shallow terms reports the same in two stores that
/// hold the same in the cells of its variables.
pub proof fn lemma_test_alike(pairs: Seq<Pair>, b: Bindings, c: Bindings)
    requires
        b.wf(),
        c.wf(),
        c.cells.len() <= usize::MAX,
        shallow(pairs, b),
        alike(pairs, b, c),
    ensures
        test_step(pairs, c, c) == test_step(pairs, b, b),
{
    let bb = unify_pairs(b, pairs, 0);
    let cc = unify_pairs(c, pairs, 0);
    lemma_pairs_alike(pairs, b, c, 0);
    lemma_unify_pairs_keeps(b, pairs, 0);
    lemma_unify_pairs_keeps(c, pairs, 0);
    lemma_fresh_alike(pairs, b, c, bb, cc, 0, true);
    assert(differ(b, bb) == differ(c, cc)) by {
        if differ(b, bb) {
            let i = choose|i: int| 0 <= i < bb.cells.len() && #[trigger] bb.cells[i] != b.cells[i];
            let k = UntypedVar { id: i as usize };
            assert(bb.cell(k) != b.cell(k));
            assert(touches(pairs, k));
            assert(cc.cells[i] != c.cells[i]);
        }
        if differ(c, cc) {
            let i = choose|i: int| 0 <= i < cc.cells.len() && #[trigger] cc.cells[i] != c.cells[i];
            let k = UntypedVar { id: i as usize };
            assert(cc.cell(k) != c.cell(k));
            assert(touches(pairs, k));
            assert(b.has(k));
            assert(bb.cells[i] != b.cells[i]);
        }
    }
    assert(stale(pairs, b) == stale(pairs, c)) by {
        assert forall|i: int| 0 <= i < pairs.len() implies hop(b, (#[trigger] pairs[i]).0) == hop(
            c,
            pairs[i].0,
        ) && hop(b, pairs[i].1) == hop(c, pairs[i].1) by {
            assert(touches(pairs, pairs[i].0));
            assert(touches(pairs, pairs[i].1));
        }
    }
    assert(hopped(pairs, b) =~= hopped(pairs, c)) by {
        assert forall|i: int| 0 <= i < pairs.len() implies hop(b, (#[trigger] pairs[i]).0) == hop(
            c,
            pairs[i].0,
        ) && hop(b, pairs[i].1) == hop(c, pairs[i].1) by {
            assert(touches(pairs, pairs[i].0));
            assert(touches(pairs, pairs[i].1));
        }
    }
}

} // verus!
