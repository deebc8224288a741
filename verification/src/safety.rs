use crate::interval::{before, effect_of, lemma_before_order, BoundModel};
use crate::sequence::{category, lemma_statement_order, statement_number};
use crate::types::PlanRowModel;
use vstd::prelude::*;

verus! {

/// Whether the intervals `[af, au)` and `[bf, bu)` have a point in common.
pub open spec fn overlapping(af: BoundModel, au: BoundModel, bf: BoundModel, bu: BoundModel, n: bool) -> bool {
    before(af, bu, n) && before(bf, au, n)
}

/// Whether a row of the plan reads or leaves a row of the table: an update
/// and a deletion read one, an update and an insertion leave one.
pub open spec fn reads_row(r: PlanRowModel) -> bool {
    r.operation is Update || r.operation is Delete
}

pub open spec fn leaves_row(r: PlanRowModel) -> bool {
    r.operation is Update || r.operation is Insert
}

/// Whether a row of the plan is in itself as the planner makes it: it has
/// the bounds of the row of the table that it reads and of the row that it
/// leaves, neither of which is empty, and an update has the effect that its
/// bounds show.
pub open spec fn is_sound(r: PlanRowModel, n: bool) -> bool {
    &&& reads_row(r) ==> r.old_valid_from is Some && r.old_valid_until is Some && before(
        r.old_valid_from->0,
        r.old_valid_until->0,
        n,
    )
    &&& leaves_row(r) ==> r.new_valid_from is Some && r.new_valid_until is Some && before(
        r.new_valid_from->0,
        r.new_valid_until->0,
        n,
    )
    &&& r.operation is Update ==> r.update_effect == Some(
        effect_of(
            r.old_valid_from->0,
            r.old_valid_until->0,
            r.new_valid_from->0,
            r.new_valid_until->0,
            n,
        ),
    )
}

/// Whether the rows that `x` and `y` read do not overlap, nor the rows that
/// they leave: the rows of one entity overlap neither before the plan is
/// executed nor after it.
pub open spec fn apart_before_and_after(x: PlanRowModel, y: PlanRowModel, n: bool) -> bool {
    &&& reads_row(x) && reads_row(y) ==> !overlapping(
        x.old_valid_from->0,
        x.old_valid_until->0,
        y.old_valid_from->0,
        y.old_valid_until->0,
        n,
    )
    &&& leaves_row(x) && leaves_row(y) ==> !overlapping(
        x.new_valid_from->0,
        x.new_valid_until->0,
        y.new_valid_from->0,
        y.new_valid_until->0,
        n,
    )
}

/// Whether the row that `x` leaves overlaps the row that `y` reads: what
/// the table holds of the two once `x` is executed and `y` is not.
pub open spec fn overlap_between(x: PlanRowModel, y: PlanRowModel, n: bool) -> bool {
    leaves_row(x) && reads_row(y) && overlapping(
        x.new_valid_from->0,
        x.new_valid_until->0,
        y.old_valid_from->0,
        y.old_valid_until->0,
        n,
    )
}

/// The order of the categories is safe: of two rows of one entity of which
/// the first is of a lower category, the first can be executed before the
/// second without the two overlapping in between.
pub proof fn lemma_lower_category_first(x: PlanRowModel, y: PlanRowModel, n: bool)
    requires
        is_sound(x, n),
        is_sound(y, n),
        apart_before_and_after(x, y, n),
        category(x) != 0,
        category(y) != 0,
        category(x) < category(y),
    ensures
        !overlap_between(x, y, n),
{
    if leaves_row(x) && reads_row(y) {
        let xf = x.old_valid_from->0;
        let xu = x.old_valid_until->0;
        let xnf = x.new_valid_from->0;
        let xnu = x.new_valid_until->0;
        let yf = y.old_valid_from->0;
        let yu = y.old_valid_until->0;
        let ynf = y.new_valid_from->0;
        let ynu = y.new_valid_until->0;
        if category(x) == 2 {
            // The row that `x` leaves lies within the row that it reads.
            lemma_before_order(xnf, xf, yu, n);
            lemma_before_order(xf, xnf, yu, n);
            lemma_before_order(yf, xnu, xu, n);
            lemma_before_order(yf, xu, xnu, n);
        } else {
            // `y` grows: the row that it reads lies within the row that it leaves.
            assert(category(y) == 4);
            lemma_before_order(xnf, yu, ynu, n);
            lemma_before_order(xnf, ynu, yu, n);
            lemma_before_order(ynf, yf, xnu, n);
            lemma_before_order(yf, ynf, xnu, n);
        }
    }
}

/// The order of the statements is safe: of two rows of one entity that are
/// not both moves, the one with the lower statement number can be executed
/// before the other without the two overlapping in between.
pub proof fn lemma_lower_statement_first(rows: Seq<PlanRowModel>, i: int, j: int, n: bool)
    requires
        0 <= i < rows.len(),
        0 <= j < rows.len(),
        is_sound(rows[i], n),
        is_sound(rows[j], n),
        apart_before_and_after(rows[i], rows[j], n),
        category(rows[i]) != 0,
        category(rows[j]) != 0,
        !(category(rows[i]) == 3 && category(rows[j]) == 3),
        statement_number(rows, i) < statement_number(rows, j),
    ensures
        !overlap_between(rows[i], rows[j], n),
{
    lemma_statement_order(rows, i, j);
    lemma_statement_order(rows, j, i);
    lemma_lower_category_first(rows[i], rows[j], n);
}

} // verus!
