//! The order in which stores only lose possibilities: an unbound cell may
//! become bound or merged, and a finite domain may lose candidates. Nothing
//! else changes. A measure on stores decreases along that order, which is
//! why propagation ends.

use crate::engine::bindings::Bindings;
use crate::engine::vars::{UntypedVar, ValueView, VarRefView};
use crate::finitedomain::lemma_narrower_is_smaller;
use vstd::prelude::*;

verus! {

/// The cells of a store.
pub type Cells = Seq<Option<VarRefView>>;

/// Whether the cell `after` holds what `before` holds, or `before` is
/// unbound, or both hold usable finite domains and every candidate of
/// `after` is a candidate of `before`.
pub open spec fn cell_narrows(before: Option<VarRefView>, after: Option<VarRefView>) -> bool {
    ||| before == after
    ||| before is None
    ||| (before matches Some(VarRefView::Exactly(ValueView::Fd(d))) && after matches Some(
        VarRefView::Exactly(ValueView::Fd(e)),
    ) && d.wf() && e.wf() && forall|x: usize| e.contains(x) ==> d.contains(x))
}

/// Whether `after` has the variables of `before` and each of its cells
/// narrows the same cell of `before`.
pub open spec fn narrows(before: Bindings, after: Bindings) -> bool {
    &&& after.cells.len() == before.cells.len()
    &&& forall|i: int|
        0 <= i < before.cells.len() ==> cell_narrows(#[trigger] before.cells[i], after.cells[i])
}

/// 1 for an unbound cell, 0 for any other.
pub open spec fn openness(c: Option<VarRefView>) -> nat {
    if c is None {
        1
    } else {
        0
    }
}

/// The number of candidates of a cell that holds a finite domain, 0 for any
/// other cell.
pub open spec fn width(c: Option<VarRefView>) -> nat {
    match c {
        Some(VarRefView::Exactly(ValueView::Fd(d))) => d.members().len(),
        _ => 0,
    }
}

/// The number of unbound cells.
pub open spec fn free_count(cells: Cells) -> nat
    decreases cells.len(),
{
    if cells.len() == 0 {
        0
    } else {
        free_count(cells.drop_last()) + openness(cells.last())
    }
}

/// The number of candidates of all finite domains together.
pub open spec fn weight(cells: Cells) -> nat
    decreases cells.len(),
{
    if cells.len() == 0 {
        0
    } else {
        weight(cells.drop_last()) + width(cells.last())
    }
}

/// Whether the store `after` is below the store `before` in the measure:
/// it has fewer unbound cells, or as many and fewer candidates.
pub open spec fn below(after: Bindings, before: Bindings) -> bool {
    free_count(after.cells) < free_count(before.cells) || (free_count(after.cells) == free_count(
        before.cells,
    ) && weight(after.cells) < weight(before.cells))
}

/// Narrowing is transitive.
pub proof fn lemma_narrows_trans(a: Bindings, b: Bindings, c: Bindings)
    requires
        narrows(a, b),
        narrows(b, c),
    ensures
        narrows(a, c),
{
    assert forall|i: int| 0 <= i < a.cells.len() implies cell_narrows(
        #[trigger] a.cells[i],
        c.cells[i],
    ) by {
        assert(cell_narrows(a.cells[i], b.cells[i]));
        assert(cell_narrows(b.cells[i], c.cells[i]));
    }
}

/// A cell that narrows another is no more open and, if as open, no wider;
/// and it is less open or less wide unless it is the same.
pub proof fn lemma_cell_measure(before: Option<VarRefView>, after: Option<VarRefView>)
    requires
        cell_narrows(before, after),
    ensures
        openness(after) <= openness(before),
        openness(after) == openness(before) ==> width(after) <= width(before),
        openness(after) == openness(before) && width(after) == width(before) ==> after == before,
{
    if before != after && before.is_some() {
        let d = before->Some_0->Exactly_0->Fd_0;
        let e = after->Some_0->Exactly_0->Fd_0;
        lemma_narrower_is_smaller(e, d);
    }
}

/// A cell that was narrowed away from what it held does not come back to
/// it by narrowing.
pub proof fn lemma_cell_back(
    first: Option<VarRefView>,
    second: Option<VarRefView>,
    third: Option<VarRefView>,
)
    requires
        cell_narrows(first, second),
        cell_narrows(second, third),
    ensures
        third == first ==> second == first,
{
    lemma_cell_measure(first, second);
    lemma_cell_measure(second, third);
}

/// Cells that narrow other cells have no more unbound cells and, if as
/// many, no more candidates; and they have fewer of the one or the other
/// unless they are the same cells.
pub proof fn lemma_cells_measure(before: Cells, after: Cells)
    requires
        after.len() == before.len(),
        forall|i: int| 0 <= i < before.len() ==> cell_narrows(#[trigger] before[i], after[i]),
    ensures
        free_count(after) <= free_count(before),
        free_count(after) == free_count(before) ==> weight(after) <= weight(before),
        free_count(after) == free_count(before) && weight(after) == weight(before) ==> after
            == before,
    decreases before.len(),
{
    if before.len() == 0 {
        assert(after =~= before);
    } else {
        let b1 = before.drop_last();
        let a1 = after.drop_last();
        assert forall|i: int| 0 <= i < b1.len() implies cell_narrows(#[trigger] b1[i], a1[i]) by {
            assert(cell_narrows(before[i], after[i]));
        }
        lemma_cells_measure(b1, a1);
        assert(cell_narrows(before[before.len() - 1], after[before.len() - 1]));
        lemma_cell_measure(before.last(), after.last());
        if free_count(after) == free_count(before) && weight(after) == weight(before) {
            assert(after =~= a1.push(after.last()));
            assert(before =~= b1.push(before.last()));
        }
    }
}

/// A store that narrows another is the same in its cells or below it in
/// the measure.
pub proof fn lemma_narrows_measure(before: Bindings, after: Bindings)
    requires
        narrows(before, after),
    ensures
        after.cells == before.cells || below(after, before),
{
    lemma_cells_measure(before.cells, after.cells);
}

/// Being below is transitive, also through a store that is the same in the
/// measure.
pub proof fn lemma_below_trans(a: Bindings, b: Bindings, c: Bindings)
    requires
        below(b, a) || b.cells == a.cells,
        below(c, b) || c.cells == b.cells,
    ensures
        below(c, a) || c.cells == a.cells,
        (below(b, a) || below(c, b)) ==> below(c, a),
{
}

/// Whether `after` meets the invariant of stores and has the variables of
/// `before`, with their types.
pub open spec fn keeps(before: Bindings, after: Bindings) -> bool {
    &&& after.wf()
    &&& after.cells.len() == before.cells.len()
    &&& after.tags == before.tags
    &&& after.ok ==> before.ok
}

/// Whether every variable has the representative in `after` that it has in
/// `before`.
pub open spec fn same_roots(before: Bindings, after: Bindings) -> bool {
    forall|x: UntypedVar| #[trigger] after.follow(x) == before.follow(x)
}

} // verus!
