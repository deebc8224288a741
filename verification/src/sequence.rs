use crate::classify::{number_after, or_blank, sequence_number};
use crate::interval::{before, lemma_before_order, level, precedes, Bound, BoundModel, UpdateEffect};
use crate::keys::{json_map_to_key, map_key};
use crate::sorting::{in_order, insert_before, lemma_sort_in_order, ranks, sort_by, sort_vec};
use crate::text::{
    lemma_lex_irreflexive, lemma_lex_total, lemma_lex_transitive, lex_lt, same_text, text_lt,
};
use crate::types::{PlanAction, PlanRow, PlanRowModel, PlannerContext};
use crate::views::{lemma_take_all, lemma_take_step};
use vstd::prelude::*;

verus! {

/// The keys of the entity of a row as one text, empty where it has none.
pub open spec fn entity_text(r: PlanRowModel) -> Seq<char> {
    match r.entity_keys {
        Some(k) => map_key(k),
        None => Seq::empty(),
    }
}

/// The place of an operation in the order of execution: deletions, then
/// updates, then insertions, then the rest.
pub open spec fn operation_rank(a: PlanAction) -> int {
    match a {
        PlanAction::Delete => 1,
        PlanAction::Update => 2,
        PlanAction::Insert => 3,
        _ => 4,
    }
}

/// Whether the row is an update that moves its interval.
pub open spec fn is_move(r: PlanRowModel) -> bool {
    r.update_effect == Some(UpdateEffect::Move)
}

/// The bound by which a row is placed in time: where its old interval
/// starts, else where its new one does.
pub open spec fn time_key(r: PlanRowModel) -> BoundModel {
    match r.old_valid_from {
        Some(b) => b,
        None => or_blank(r.new_valid_from),
    }
}

/// The first row id of a row, or 0.
pub open spec fn first_id(r: PlanRowModel) -> i64 {
    if r.row_ids.len() > 0 {
        r.row_ids[0]
    } else {
        0
    }
}

/// Whether row `a` with the entity text `ak` stands before row `b` with
/// `bk` in the plan.
///
/// Rows are ordered by grouping key, rows without one last; then by the
/// keys of the entity; then by operation; then rows without update effect
/// first; then the moves behind all other rows; then by time, moves from
/// the latest to the earliest and all others from the earliest on; then by
/// the start of the new interval; then by the first row id.
pub open spec fn stands_before(ak: Seq<char>, a: PlanRowModel, bk: Seq<char>, b: PlanRowModel, n: bool) -> bool {
    let a_last = a.grouping_key.len() == 0;
    let b_last = b.grouping_key.len() == 0;
    if a_last != b_last {
        b_last
    } else if a.grouping_key != b.grouping_key {
        lex_lt(a.grouping_key, b.grouping_key)
    } else if ak != bk {
        lex_lt(ak, bk)
    } else if operation_rank(a.operation) != operation_rank(b.operation) {
        operation_rank(a.operation) < operation_rank(b.operation)
    } else if (a.update_effect is Some) != (b.update_effect is Some) {
        b.update_effect is Some
    } else if is_move(a) != is_move(b) {
        is_move(b)
    } else if !level(time_key(a), time_key(b), n) {
        if is_move(a) {
            before(time_key(b), time_key(a), n)
        } else {
            before(time_key(a), time_key(b), n)
        }
    } else if !level(or_blank(a.new_valid_from), or_blank(b.new_valid_from), n) {
        before(or_blank(a.new_valid_from), or_blank(b.new_valid_from), n)
    } else {
        first_id(a) < first_id(b)
    }
}

/// The order of the rows of a plan.
pub open spec fn plan_order(n: bool) -> spec_fn(PlanRowModel, PlanRowModel) -> bool {
    |a: PlanRowModel, b: PlanRowModel| stands_before(entity_text(a), a, entity_text(b), b, n)
}

/// The order of the rows of a plan, each with its entity text beside it.
pub open spec fn keyed_order(n: bool) -> spec_fn((Seq<char>, PlanRowModel), (Seq<char>, PlanRowModel)) -> bool {
    |a: (Seq<char>, PlanRowModel), b: (Seq<char>, PlanRowModel)| stands_before(a.0, a.1, b.0, b.1, n)
}

/// A row with its entity text beside it.
pub open spec fn keyed(r: PlanRowModel) -> (Seq<char>, PlanRowModel) {
    (entity_text(r), r)
}

/// The order of texts puts them in ranks.
proof fn lemma_lex_ranks(a: Seq<char>, b: Seq<char>, c: Seq<char>)
    ensures
        !(lex_lt(a, b) && lex_lt(b, a)),
        lex_lt(a, b) && lex_lt(b, c) ==> lex_lt(a, c),
        a != b ==> lex_lt(a, b) || lex_lt(b, a),
        !lex_lt(a, a),
{
    lemma_lex_irreflexive(a);
    lemma_lex_total(a, b);
    if lex_lt(a, b) && lex_lt(b, c) {
        lemma_lex_transitive(a, b, c);
    }
}

/// Of two rows at most one stands before the other, and a row that stands
/// before neither of two others does not stand between them.
pub proof fn lemma_stands_before_ranks(
    ak: Seq<char>,
    a: PlanRowModel,
    bk: Seq<char>,
    b: PlanRowModel,
    ck: Seq<char>,
    c: PlanRowModel,
    n: bool,
)
    ensures
        !(stands_before(ak, a, bk, b, n) && stands_before(bk, b, ak, a, n)),
        !stands_before(ak, a, bk, b, n) && !stands_before(bk, b, ck, c, n) ==> !stands_before(
            ak,
            a,
            ck,
            c,
            n,
        ),
{
    lemma_lex_ranks(a.grouping_key, b.grouping_key, c.grouping_key);
    lemma_lex_ranks(b.grouping_key, a.grouping_key, c.grouping_key);
    lemma_lex_ranks(a.grouping_key, c.grouping_key, b.grouping_key);
    lemma_lex_ranks(c.grouping_key, a.grouping_key, b.grouping_key);
    lemma_lex_ranks(b.grouping_key, c.grouping_key, a.grouping_key);
    lemma_lex_ranks(c.grouping_key, b.grouping_key, a.grouping_key);
    lemma_lex_ranks(ak, bk, ck);
    lemma_lex_ranks(bk, ak, ck);
    lemma_lex_ranks(ak, ck, bk);
    lemma_lex_ranks(ck, ak, bk);
    lemma_lex_ranks(bk, ck, ak);
    lemma_lex_ranks(ck, bk, ak);
    let ta = time_key(a);
    let tb = time_key(b);
    let tc = time_key(c);
    lemma_before_order(ta, tb, tc, n);
    lemma_before_order(tb, ta, tc, n);
    lemma_before_order(ta, tc, tb, n);
    lemma_before_order(tc, ta, tb, n);
    lemma_before_order(tb, tc, ta, n);
    lemma_before_order(tc, tb, ta, n);
    let na = or_blank(a.new_valid_from);
    let nb = or_blank(b.new_valid_from);
    let nc = or_blank(c.new_valid_from);
    lemma_before_order(na, nb, nc, n);
    lemma_before_order(nb, na, nc, n);
    lemma_before_order(na, nc, nb, n);
    lemma_before_order(nc, na, nb, n);
    lemma_before_order(nb, nc, na, n);
    lemma_before_order(nc, nb, na, n);
}

/// The order of the plan puts its rows in ranks.
pub proof fn lemma_plan_order_ranks(n: bool)
    ensures
        ranks(plan_order(n)),
{
    let lt = plan_order(n);
    assert forall|a: PlanRowModel, b: PlanRowModel| #[trigger] lt(a, b) implies !lt(b, a) by {
        lemma_stands_before_ranks(entity_text(a), a, entity_text(b), b, entity_text(a), a, n);
    }
    assert forall|a: PlanRowModel, b: PlanRowModel, c: PlanRowModel|
        !(#[trigger] lt(a, b)) && !(#[trigger] lt(b, c)) implies !lt(a, c) by {
        lemma_stands_before_ranks(entity_text(a), a, entity_text(b), b, entity_text(c), c, n);
    }
}

/// A sequenced plan is in the order of the plan: no row stands before one
/// that comes before it. Its rows are the sorted rows with their numbers.
pub proof fn lemma_sequenced_in_order(rows: Seq<PlanRowModel>, n: bool)
    ensures
        in_order(sort_by(rows, plan_order(n)), plan_order(n)),
        sequenced(rows, n).len() == sort_by(rows, plan_order(n)).len(),
        forall|i: int, j: int|
            0 <= i < j < sequenced(rows, n).len() ==> !stands_before(
                entity_text(#[trigger] sequenced(rows, n)[j]),
                sequenced(rows, n)[j],
                entity_text(#[trigger] sequenced(rows, n)[i]),
                sequenced(rows, n)[i],
                n,
            ),
{
    lemma_plan_order_ranks(n);
    lemma_sort_in_order(rows, plan_order(n));
    let sorted = sort_by(rows, plan_order(n));
    let out = sequenced(rows, n);
    assert forall|i: int, j: int| 0 <= i < j < out.len() implies !stands_before(
        entity_text(#[trigger] out[j]),
        out[j],
        entity_text(#[trigger] out[i]),
        out[i],
        n,
    ) by {
        assert(out[i] == numbered_row(sorted, i));
        assert(out[j] == numbered_row(sorted, j));
        assert(!plan_order(n)(sorted[j], sorted[i]));
    }
}

/// The statement category of a row: 1 for a deletion, 2 for an update that
/// leaves or shrinks the interval, 3 for one that moves it, 4 for one that
/// grows it, 5 for an insertion, 0 for a row that changes nothing.
pub open spec fn category(r: PlanRowModel) -> int {
    match r.operation {
        PlanAction::Delete => 1,
        PlanAction::Update => match r.update_effect {
            Some(UpdateEffect::Move) => 3,
            Some(UpdateEffect::Grow) => 4,
            _ => 2,
        },
        PlanAction::Insert => 5,
        _ => 0,
    }
}

/// How many of the rows are of category `c`.
pub open spec fn count_of(rows: Seq<PlanRowModel>, c: int) -> nat
    decreases rows.len(),
{
    if rows.len() == 0 {
        0
    } else if category(rows.last()) == c {
        count_of(rows.drop_last(), c) + 1
    } else {
        count_of(rows.drop_last(), c)
    }
}

/// 1 if a row is of category `c`, else 0.
pub open spec fn present(rows: Seq<PlanRowModel>, c: int) -> int {
    if count_of(rows, c) > 0 {
        1
    } else {
        0
    }
}

/// The number of the statement that the row at `i` is executed in.
///
/// The categories that occur are numbered from 1 in the order deletions,
/// updates that leave or shrink, moves, updates that grow, insertions. Each
/// move has a number of its own, in the order of the plan. Rows that change
/// nothing have the number after the last.
pub open spec fn statement_number(rows: Seq<PlanRowModel>, i: int) -> int {
    let nd = present(rows, 1);
    let nu = present(rows, 2);
    let m = count_of(rows, 3) as int;
    let ng = present(rows, 4);
    let ni = present(rows, 5);
    let c = category(rows[i]);
    if c == 1 {
        1
    } else if c == 2 {
        nd + 1
    } else if c == 3 {
        nd + nu + count_of(rows.take(i), 3) + 1
    } else if c == 4 {
        nd + nu + m + 1
    } else if c == 5 {
        nd + nu + m + ng + 1
    } else {
        nd + nu + m + ng + ni + 1
    }
}

/// A statement number as it fits the plan, which stops at the largest one.
pub open spec fn clipped(k: int) -> i32 {
    if k <= i32::MAX {
        k as i32
    } else {
        i32::MAX
    }
}

/// The row at `i` with its numbers.
pub open spec fn numbered_row(rows: Seq<PlanRowModel>, i: int) -> PlanRowModel {
    PlanRowModel {
        plan_op_seq: sequence_number(i + 1),
        statement_seq: clipped(statement_number(rows, i)),
        ..rows[i]
    }
}

/// The rows, numbered in their order.
pub open spec fn numbered(rows: Seq<PlanRowModel>) -> Seq<PlanRowModel> {
    Seq::new(rows.len(), |i: int| numbered_row(rows, i))
}

/// The plan in its final order, with sequence and statement numbers.
pub open spec fn sequenced(rows: Seq<PlanRowModel>, n: bool) -> Seq<PlanRowModel> {
    numbered(sort_by(rows, plan_order(n)))
}

/// The count of a category is at most the number of rows, and rises with them.
pub proof fn lemma_count_bounds(rows: Seq<PlanRowModel>, c: int, i: int)
    requires
        0 <= i <= rows.len(),
    ensures
        count_of(rows.take(i), c) <= count_of(rows, c) <= rows.len(),
        i < rows.len() && category(rows[i]) == c ==> count_of(rows.take(i), c) < count_of(rows, c),
    decreases rows.len() - i,
{
    lemma_count_len(rows, c);
    if i < rows.len() {
        lemma_take_step(rows, i);
        lemma_count_bounds(rows, c, i + 1);
    } else {
        lemma_take_all(rows);
    }
}

proof fn lemma_count_len(rows: Seq<PlanRowModel>, c: int)
    ensures
        count_of(rows, c) <= rows.len(),
    decreases rows.len(),
{
    if rows.len() > 0 {
        lemma_count_len(rows.drop_last(), c);
    }
}

/// A row of category `c` makes the count of `c` positive.
pub proof fn lemma_present(rows: Seq<PlanRowModel>, i: int)
    requires
        0 <= i < rows.len(),
    ensures
        count_of(rows, category(rows[i])) > 0,
{
    lemma_count_bounds(rows, category(rows[i]), i);
}

/// The statements run in the order of their categories: a row that deletes
/// runs before one that leaves or shrinks an interval, that before one that
/// moves, that before one that grows, that before one that inserts; rows
/// that change nothing come last. Two moves never share a statement.
pub proof fn lemma_statement_order(rows: Seq<PlanRowModel>, i: int, j: int)
    requires
        0 <= i < rows.len(),
        0 <= j < rows.len(),
    ensures
        statement_number(rows, i) >= 1,
        category(rows[i]) == category(rows[j]) && category(rows[i]) != 3 ==> statement_number(
            rows,
            i,
        ) == statement_number(rows, j),
        category(rows[i]) != 0 && category(rows[j]) != 0 && category(rows[i]) < category(rows[j])
            ==> statement_number(rows, i) < statement_number(rows, j),
        category(rows[i]) != 0 && category(rows[j]) == 0 ==> statement_number(rows, i)
            < statement_number(rows, j),
        category(rows[i]) == 3 && category(rows[j]) == 3 && i < j ==> statement_number(rows, i)
            < statement_number(rows, j),
{
    lemma_present(rows, i);
    lemma_present(rows, j);
    lemma_count_bounds(rows, 3, i);
    lemma_count_bounds(rows, 3, j);
    if category(rows[i]) == 3 && category(rows[j]) == 3 && i < j {
        lemma_moves_rise(rows, i, j);
    }
}

proof fn lemma_moves_rise(rows: Seq<PlanRowModel>, i: int, j: int)
    requires
        0 <= i < j <= rows.len(),
        category(rows[i]) == 3,
    ensures
        count_of(rows.take(i), 3) < count_of(rows.take(j), 3),
    decreases j - i,
{
    if j == i + 1 {
        lemma_take_step(rows, i);
    } else {
        lemma_moves_rise(rows, i, j - 1);
        lemma_take_step(rows, j - 1);
    }
}

/// Sorting rows with their entity texts beside them is sorting the rows.
proof fn lemma_keyed_sort(rows: Seq<PlanRowModel>, n: bool)
    ensures
        sort_by(rows.map_values(|r: PlanRowModel| keyed(r)), keyed_order(n)) == sort_by(
            rows,
            plan_order(n),
        ).map_values(|r: PlanRowModel| keyed(r)),
    decreases rows.len(),
{
    let f = |r: PlanRowModel| keyed(r);
    if rows.len() == 0 {
        assert(rows.map_values(f) =~= Seq::empty());
        assert(sort_by(rows, plan_order(n)).map_values(f) =~= Seq::empty());
    } else {
        lemma_keyed_sort(rows.drop_first(), n);
        assert(rows.map_values(f).drop_first() =~= rows.drop_first().map_values(f));
        lemma_keyed_insert(rows[0], sort_by(rows.drop_first(), plan_order(n)), n);
    }
}

proof fn lemma_keyed_insert(x: PlanRowModel, t: Seq<PlanRowModel>, n: bool)
    ensures
        insert_before(keyed(x), t.map_values(|r: PlanRowModel| keyed(r)), keyed_order(n))
            == insert_before(x, t, plan_order(n)).map_values(|r: PlanRowModel| keyed(r)),
    decreases t.len(),
{
    let f = |r: PlanRowModel| keyed(r);
    let tk = t.map_values(f);
    if t.len() == 0 {
        assert(insert_before(keyed(x), tk, keyed_order(n)) =~= insert_before(
            x,
            t,
            plan_order(n),
        ).map_values(f));
    } else {
        assert(tk[0] == keyed(t[0]));
        assert(tk.drop_first() =~= t.drop_first().map_values(f));
        if plan_order(n)(t[0], x) {
            lemma_keyed_insert(x, t.drop_first(), n);
            assert(insert_before(keyed(x), tk, keyed_order(n)) =~= insert_before(
                x,
                t,
                plan_order(n),
            ).map_values(f));
        } else {
            assert(insert_before(keyed(x), tk, keyed_order(n)) =~= insert_before(
                x,
                t,
                plan_order(n),
            ).map_values(f));
        }
    }
}

fn rank_of_operation(a: PlanAction) -> (r: u8)
    ensures
        r == operation_rank(a),
{
    match a {
        PlanAction::Delete => 1,
        PlanAction::Update => 2,
        PlanAction::Insert => 3,
        _ => 4,
    }
}

fn row_is_move(r: &PlanRow) -> (b: bool)
    ensures
        b == is_move(r.deep_view()),
{
    match r.update_effect {
        Some(UpdateEffect::Move) => true,
        _ => false,
    }
}

fn row_before(ak: &String, a: &PlanRow, bk: &String, b: &PlanRow, n: bool) -> (r: bool)
    ensures
        r == stands_before(ak@, a.deep_view(), bk@, b.deep_view(), n),
{
    let a_last = a.grouping_key.as_str().is_empty();
    let b_last = b.grouping_key.as_str().is_empty();
    if a_last != b_last {
        return b_last;
    }
    if !same_text(a.grouping_key.as_str(), b.grouping_key.as_str()) {
        return text_lt(a.grouping_key.as_str(), b.grouping_key.as_str());
    }
    if !same_text(ak.as_str(), bk.as_str()) {
        return text_lt(ak.as_str(), bk.as_str());
    }
    let a_op = rank_of_operation(a.operation);
    let b_op = rank_of_operation(b.operation);
    if a_op != b_op {
        return a_op < b_op;
    }
    if a.update_effect.is_some() != b.update_effect.is_some() {
        return b.update_effect.is_some();
    }
    let blank = Bound::blank();
    let a_time = match &a.old_valid_from {
        Some(x) => x,
        None => match &a.new_valid_from {
            Some(x) => x,
            None => &blank,
        },
    };
    let b_time = match &b.old_valid_from {
        Some(x) => x,
        None => match &b.new_valid_from {
            Some(x) => x,
            None => &blank,
        },
    };
    let a_move = row_is_move(a);
    if a_move != row_is_move(b) {
        return !a_move;
    }
    let ax = if a_move {
        b_time
    } else {
        a_time
    };
    let bx = if a_move {
        a_time
    } else {
        b_time
    };
    if precedes(ax, bx, n) {
        return true;
    }
    if precedes(bx, ax, n) {
        return false;
    }
    let a_new = match &a.new_valid_from {
        Some(x) => x,
        None => &blank,
    };
    let b_new = match &b.new_valid_from {
        Some(x) => x,
        None => &blank,
    };
    if precedes(a_new, b_new, n) {
        return true;
    }
    if precedes(b_new, a_new, n) {
        return false;
    }
    let a_id: i64 = if a.row_ids.len() > 0 {
        a.row_ids[0]
    } else {
        0
    };
    let b_id: i64 = if b.row_ids.len() > 0 {
        b.row_ids[0]
    } else {
        0
    };
    a_id < b_id
}

fn category_of(r: &PlanRow) -> (c: u8)
    ensures
        c == category(r.deep_view()),
{
    match r.operation {
        PlanAction::Delete => 1,
        PlanAction::Update => match r.update_effect {
            Some(UpdateEffect::Move) => 3,
            Some(UpdateEffect::Grow) => 4,
            _ => 2,
        },
        PlanAction::Insert => 5,
        _ => 0,
    }
}

fn clip(k: u128) -> (r: i32)
    ensures
        r == clipped(k as int),
{
    if k <= 0x7fff_ffff {
        k as i32
    } else {
        0x7fff_ffff
    }
}

/// Puts the rows of the plan into their final order and numbers them and
/// the statements that they are executed in.
pub fn sequence_statements(plan_rows: &mut Vec<PlanRow>, ctx: &PlannerContext)
    ensures
        final(plan_rows).deep_view() == sequenced(old(plan_rows).deep_view(), ctx.deep_view().numeric),
{
    let ghost rows0 = plan_rows.deep_view();
    let n = ctx.is_numeric();
    let mut taken: Vec<PlanRow> = Vec::new();
    std::mem::swap(plan_rows, &mut taken);
    let mut pairs: Vec<(String, PlanRow)> = Vec::new();
    for r in it: taken.into_iter()
        invariant
            it.seq().len() == rows0.len(),
            forall|j: int| 0 <= j < rows0.len() ==> (#[trigger] it.seq()[j]).deep_view() == rows0[j],
            pairs.len() == it.index(),
            forall|j: int| 0 <= j < it.index() ==> (#[trigger] pairs[j]).deep_view() == keyed(rows0[j]),
    {
        let key = match &r.entity_keys {
            Some(k) => json_map_to_key(k),
            None => String::new(),
        };
        pairs.push((key, r));
    }
    assert(pairs.deep_view() =~= rows0.map_values(|r: PlanRowModel| keyed(r)));
    let less = |a: &(String, PlanRow), b: &(String, PlanRow)| -> (r: bool)
        ensures
            r == stands_before(a.deep_view().0, a.deep_view().1, b.deep_view().0, b.deep_view().1, n),
        { row_before(&a.0, &a.1, &b.0, &b.1, n) };
    let sorted = sort_vec(pairs, less, Ghost(keyed_order(n)));
    let ghost rows = sort_by(rows0, plan_order(n));
    proof {
        lemma_keyed_sort(rows0, n);
        assert(sorted.deep_view() == rows.map_values(|r: PlanRowModel| keyed(r)));
        assert(sorted.len() == rows.len());
        assert forall|j: int| 0 <= j < rows.len() implies (#[trigger] sorted@[j]).1.deep_view()
            == rows[j] by {
            assert(sorted.deep_view()[j] == keyed(rows[j]));
        }
    }
    // How many rows there are of each category.
    let mut counts: Vec<usize> = Vec::new();
    let mut c: usize = 0;
    while c < 6
        invariant
            c <= 6,
            counts.len() == c,
            forall|j: int| 0 <= j < c ==> counts[j] == 0,
        decreases 6 - c,
    {
        counts.push(0);
        c += 1;
    }
    let mut i: usize = 0;
    assert(rows.take(0) =~= Seq::empty());
    while i < sorted.len()
        invariant
            i <= sorted.len(),
            sorted.len() == rows.len(),
            forall|j: int| 0 <= j < rows.len() ==> (#[trigger] sorted@[j]).1.deep_view() == rows[j],
            counts.len() == 6,
            forall|k: int| 0 <= k < 6 ==> counts[k] == count_of(rows.take(i as int), k),
        decreases sorted.len() - i,
    {
        proof {
            lemma_take_step(rows, i as int);
            lemma_count_len(rows.take(i as int), category(rows[i as int]));
        }
        let cat = category_of(&sorted[i].1) as usize;
        let old_count = counts[cat];
        counts.set(cat, old_count + 1);
        i += 1;
    }
    proof {
        lemma_take_all(rows);
    }
    let nd: u128 = if counts[1] > 0 {
        1
    } else {
        0
    };
    let nu: u128 = if counts[2] > 0 {
        1
    } else {
        0
    };
    let m: u128 = counts[3] as u128;
    let ng: u128 = if counts[4] > 0 {
        1
    } else {
        0
    };
    let ni: u128 = if counts[5] > 0 {
        1
    } else {
        0
    };
    let mut out: Vec<PlanRow> = Vec::new();
    let mut moves: usize = 0;
    assert(rows.take(0) =~= Seq::empty());
    for p in it: sorted.into_iter()
        invariant
            it.seq().len() == rows.len(),
            forall|j: int| 0 <= j < rows.len() ==> (#[trigger] it.seq()[j]).1.deep_view() == rows[j],
            nd == present(rows, 1),
            nu == present(rows, 2),
            m == count_of(rows, 3),
            m <= usize::MAX,
            ng == present(rows, 4),
            ni == present(rows, 5),
            moves == count_of(rows.take(it.index() as int), 3),
            out.len() == it.index(),
            forall|j: int| 0 <= j < it.index() ==> (#[trigger] out[j]).deep_view() == numbered_row(rows, j),
    {
        let ghost k = it.index() as int;
        proof {
            lemma_take_step(rows, k);
            lemma_count_bounds(rows, 3, k);
        }
        let mut row = p.1;
        let cat = category_of(&row);
        let number: u128 = if cat == 1 {
            1
        } else if cat == 2 {
            nd + 1
        } else if cat == 3 {
            nd + nu + moves as u128 + 1
        } else if cat == 4 {
            nd + nu + m + 1
        } else if cat == 5 {
            nd + nu + m + ng + 1
        } else {
            nd + nu + m + ng + ni + 1
        };
        if cat == 3 {
            moves += 1;
        }
        row.plan_op_seq = number_after(out.len());
        row.statement_seq = clip(number);
        out.push(row);
    }
    assert(out.deep_view() =~= numbered(rows));
    *plan_rows = out;
}

} // verus!
