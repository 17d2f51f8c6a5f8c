//! Lemmas about the abstract board.
use crate::board::{
    count_cells,
    count_row,
    dx,
    dy,
    hits_from,
    indicator,
    is_neighbor,
    offset_index,
    tallied,
    GridView,
    Tally,
};
use crate::grid::{Cell, Outcome};
use vstd::prelude::*;

verus! {

pub(crate) proof fn lemma_count_row_update(row: Seq<Cell>, x: int, c: Cell, t: Tally)
    requires
        0 <= x < row.len(),
    ensures
        count_row(row.update(x, c), t) == count_row(row, t) - indicator(tallied(row[x], t))
            + indicator(tallied(c, t)),
    decreases row.len(),
{
    let r2 = row.update(x, c);
    if x == row.len() - 1 {
        assert(r2.drop_last() =~= row.drop_last());
    } else {
        assert(r2.drop_last() =~= row.drop_last().update(x, c));
        lemma_count_row_update(row.drop_last(), x, c, t);
    }
}

pub(crate) proof fn lemma_count_cells_update(rows: Seq<Seq<Cell>>, x: int, y: int, c: Cell, t: Tally)
    requires
        0 <= y < rows.len(),
        0 <= x < rows[y].len(),
    ensures
        count_cells(rows.update(y, rows[y].update(x, c)), t) == count_cells(rows, t)
            - indicator(tallied(rows[y][x], t)) + indicator(tallied(c, t)),
    decreases rows.len(),
{
    let r2 = rows.update(y, rows[y].update(x, c));
    lemma_count_row_update(rows[y], x, c, t);
    if y == rows.len() - 1 {
        assert(r2.drop_last() =~= rows.drop_last());
    } else {
        assert(r2.drop_last() =~= rows.drop_last().update(y, rows[y].update(x, c)));
        lemma_count_cells_update(rows.drop_last(), x, y, c, t);
    }
}

pub(crate) proof fn lemma_count_row_bound(row: Seq<Cell>, t: Tally)
    ensures
        count_row(row, t) <= row.len(),
    decreases row.len(),
{
    if row.len() > 0 {
        lemma_count_row_bound(row.drop_last(), t);
    }
}

pub(crate) proof fn lemma_count_cells_bound(rows: Seq<Seq<Cell>>, t: Tally, w: nat)
    requires
        forall|y: int| 0 <= y < rows.len() ==> (#[trigger] rows[y]).len() == w,
    ensures
        count_cells(rows, t) <= rows.len() * w,
    decreases rows.len(),
{
    if rows.len() > 0 {
        lemma_count_cells_bound(rows.drop_last(), t, w);
        lemma_count_row_bound(rows.last(), t);
        assert((rows.len() - 1) * w + w == rows.len() * w) by (nonlinear_arith);
    }
}

pub(crate) proof fn lemma_count_row_none(row: Seq<Cell>, t: Tally)
    requires
        forall|x: int| 0 <= x < row.len() ==> !tallied(#[trigger] row[x], t),
    ensures
        count_row(row, t) == 0,
    decreases row.len(),
{
    if row.len() > 0 {
        lemma_count_row_none(row.drop_last(), t);
    }
}

pub(crate) proof fn lemma_count_cells_none(rows: Seq<Seq<Cell>>, t: Tally)
    requires
        forall|x: int, y: int|
            0 <= y < rows.len() && 0 <= x < rows[y].len() ==> !tallied(#[trigger] rows[y][x], t),
    ensures
        count_cells(rows, t) == 0,
    decreases rows.len(),
{
    if rows.len() > 0 {
        let last = rows.last();
        assert forall|x: int| 0 <= x < last.len() implies !tallied(#[trigger] last[x], t) by {
            assert(last[x] == rows[rows.len() - 1][x]);
        }
        lemma_count_row_none(last, t);
        lemma_count_cells_none(rows.drop_last(), t);
    }
}

pub(crate) proof fn lemma_mines_within_same(v1: GridView, v2: GridView, x: int, y: int, d: int)
    requires
        forall|a: int, b: int| #[trigger] v1.is_mine(a, b) == v2.is_mine(a, b),
    ensures
        v1.mines_within(x, y, d) == v2.mines_within(x, y, d),
    decreases d,
{
    if d > 0 {
        lemma_mines_within_same(v1, v2, x, y, d - 1);
        assert(v1.is_mine(x + dx(d - 1), y + dy(d - 1)) == v2.is_mine(x + dx(d - 1), y + dy(d - 1)));
    }
}

/// Numbers stay consistent when only marks or cover change.
pub(crate) proof fn lemma_consistent_same(v1: GridView, v2: GridView)
    requires
        v1.same_values(v2),
        v1.numbers_consistent(),
    ensures
        v2.numbers_consistent(),
{
    assert forall|x: int, y: int|
        v2.in_bounds(x, y) && !v2.is_mine(x, y) implies #[trigger] v2.cell(x, y).value
        == v2.adjacent_mines(x, y) by {
        assert(v1.cell(x, y).value == v2.cell(x, y).value);
        assert forall|a: int, b: int| #[trigger] v1.is_mine(a, b) == v2.is_mine(a, b) by {
            if v1.in_bounds(a, b) {
                assert(v1.cell(a, b).value == v2.cell(a, b).value);
            }
        }
        lemma_mines_within_same(v1, v2, x, y, 8);
    }
}

pub(crate) proof fn lemma_hits_mono(px: int, py: int, qx: int, qy: int, d: int, e: int)
    requires
        0 <= d <= e,
    ensures
        hits_from(px, py, qx, qy, d) <= hits_from(px, py, qx, qy, e),
    decreases e,
{
    if d < e {
        lemma_hits_mono(px, py, qx, qy, d, e - 1);
    }
}

pub(crate) proof fn lemma_hits_all(px: int, py: int, qx: int, qy: int)
    ensures
        hits_from(px, py, qx, qy, 8) == indicator(is_neighbor(px, py, qx, qy)),
{
    reveal_with_fuel(hits_from, 9);
}

pub(crate) proof fn lemma_mines_within_bound(v: GridView, x: int, y: int, d: int)
    requires
        0 <= d,
    ensures
        0 <= v.mines_within(x, y, d) <= d,
    decreases d,
{
    if d > 0 {
        lemma_mines_within_bound(v, x, y, d - 1);
    }
}

/// Adding the mine at `(px, py)` raises the count of each of its neighbours by one.
pub(crate) proof fn lemma_add_mine(v1: GridView, v2: GridView, px: int, py: int, qx: int, qy: int)
    requires
        v1.in_bounds(px, py),
        !v1.is_mine(px, py),
        v2.width == v1.width,
        v2.height == v1.height,
        forall|x: int, y: int| #[trigger] v2.is_mine(x, y) == (v1.is_mine(x, y) || (x == px && y == py)),
    ensures
        v2.adjacent_mines(qx, qy) == v1.adjacent_mines(qx, qy) + indicator(is_neighbor(qx, qy, px, py)),
{
    lemma_add_mine_within(v1, v2, px, py, qx, qy, 8);
    lemma_hits_all(qx, qy, px, py);
}

proof fn lemma_add_mine_within(v1: GridView, v2: GridView, px: int, py: int, qx: int, qy: int, d: int)
    requires
        v1.in_bounds(px, py),
        !v1.is_mine(px, py),
        forall|x: int, y: int| #[trigger] v2.is_mine(x, y) == (v1.is_mine(x, y) || (x == px && y == py)),
    ensures
        v2.mines_within(qx, qy, d) == v1.mines_within(qx, qy, d) + hits_from(qx, qy, px, py, d),
    decreases d,
{
    if d > 0 {
        lemma_add_mine_within(v1, v2, px, py, qx, qy, d - 1);
        let (nx, ny) = (qx + dx(d - 1), qy + dy(d - 1));
        assert(v2.is_mine(nx, ny) == (v1.is_mine(nx, ny) || (nx == px && ny == py)));
    }
}

/// No mines anywhere: every count is zero.
pub(crate) proof fn lemma_no_mines_within(v: GridView, x: int, y: int, d: int)
    requires
        forall|a: int, b: int| !(#[trigger] v.is_mine(a, b)),
    ensures
        v.mines_within(x, y, d) == 0,
    decreases d,
{
    if d > 0 {
        lemma_no_mines_within(v, x, y, d - 1);
        assert(!v.is_mine(x + dx(d - 1), y + dy(d - 1)));
    }
}

/// A cell with no mine around it has no mine among its neighbours.
pub(crate) proof fn lemma_zero_no_mines(v: GridView, x: int, y: int, d: int, e: int)
    requires
        0 <= e < d,
        v.mines_within(x, y, d) == 0,
    ensures
        !v.is_mine(x + dx(e), y + dy(e)),
    decreases d,
{
    lemma_mines_within_bound(v, x, y, d - 1);
    if e < d - 1 {
        lemma_zero_no_mines(v, x, y, d - 1, e);
    }
}

pub(crate) proof fn lemma_closed_upto_grows(v1: GridView, v2: GridView, a: int, b: int, k: int)
    requires
        v2.grows_from(v1),
        v1.closed_upto(a, b, k),
    ensures
        v2.closed_upto(a, b, k),
    decreases k,
{
    if k > 0 {
        lemma_closed_upto_grows(v1, v2, a, b, k - 1);
        let (c, d) = (a + dx(k - 1), b + dy(k - 1));
        if v2.in_bounds(c, d) {
            assert(v2.cell(c, d).mark == v1.cell(c, d).mark);
        }
    }
}

pub(crate) proof fn lemma_closed_around_grows(v1: GridView, v2: GridView, a: int, b: int)
    requires
        v2.grows_from(v1),
        v1.closed_around(a, b),
    ensures
        v2.closed_around(a, b),
{
    assert forall|c: int, d: int| is_neighbor(a, b, c, d) && v2.in_bounds(c, d) implies #[trigger] v2.is_closed(c, d) by {
        assert(v1.is_closed(c, d));
        assert(v2.cell(c, d).mark == v1.cell(c, d).mark);
    }
}

pub(crate) proof fn lemma_closed_upto_all(v: GridView, a: int, b: int)
    requires
        v.closed_upto(a, b, 8),
    ensures
        v.closed_around(a, b),
{
    reveal_with_fuel(GridView::closed_upto, 9);
    assert forall|c: int, d: int| is_neighbor(a, b, c, d) && v.in_bounds(c, d) implies #[trigger] v.is_closed(c, d) by {
        lemma_offset_index(a, b, c, d);
    }
}

/// Chaining one more reveal of a chord: the cells it uncovers extend the
/// witness of the earlier ones.
pub(crate) proof fn lemma_chord_chain_step(
    pre: GridView,
    v1: GridView,
    v2: GridView,
    x: int,
    y: int,
    na: int,
    nb: int,
    r: Outcome,
    o1: Seq<(int, int)>,
    p1: Seq<int>,
) -> (res: (Seq<(int, int)>, Seq<int>))
    requires
        v1.chord_chain(pre, x, y, o1, p1),
        v1.initialized,
        v1.grows_from(pre),
        v2.grows_from(v1),
        v2.same_values(v1),
        v2.reveal_result(v1, na, nb, r),
        is_neighbor(x, y, na, nb),
    ensures
        v2.chord_chain(pre, x, y, res.0, res.1),
{
    let mut order = o1;
    let mut parent = p1;
    if r != Outcome::NoOp {
        assert(v1.is_open(na, nb));
        assert(v1.cell(na, nb).mark == pre.cell(na, nb).mark);
        assert(pre.is_open(na, nb));
    }
    assert forall|a: int, b: int| #[trigger] v2.newly(pre, a, b) implies v1.newly(pre, a, b) || v2.newly(v1, a, b) by {
    }
    if r == Outcome::NoOp {
        assert(v2 == v1);
    } else if r == Outcome::Detonated {
        order = o1.push((na, nb));
        parent = p1.push(0);
        assert(v2.newly(v1, na, nb));
        assert(v2.newly(pre, na, nb));
        assert forall|a: int, b: int| #[trigger] v2.newly(pre, a, b) implies order.contains((a, b)) by {
            if v1.newly(pre, a, b) {
                let i = choose|i: int| 0 <= i < o1.len() && o1[i] == (a, b);
                assert(order[i] == (a, b));
            } else {
                assert(order[o1.len() as int] == (a, b));
            }
        }
        assert forall|k: int| 0 <= k < order.len() implies {
            let q = #[trigger] order[k];
            let p = order[parent[k]];
            ||| is_neighbor(x, y, q.0, q.1) && pre.is_open(q.0, q.1)
            ||| 0 <= parent[k] < k && is_neighbor(p.0, p.1, q.0, q.1) && v2.cell(p.0, p.1).value == 0
        } by {
            if k < o1.len() {
                assert(order[k] == o1[k]);
                assert(parent[k] == p1[k]);
                if 0 <= p1[k] < k {
                    assert(order[parent[k]] == o1[p1[k]]);
                    let p = o1[p1[k]];
                    assert(v1.cell(p.0, p.1).value == v2.cell(p.0, p.1).value);
                }
            }
        }
        assert forall|k: int| 0 <= k < order.len() implies v2.newly(pre, (#[trigger] order[k]).0, order[k].1) by {
            if k < o1.len() {
                assert(order[k] == o1[k]);
                assert(v1.newly(pre, o1[k].0, o1[k].1));
            }
        }
    } else {
        assert(v2.flooded_from(v1, na, nb));
        let (o2, p2) = choose|o2: Seq<(int, int)>, p2: Seq<int>| v2.flood_chain(v1, na, nb, o2, p2);
        let n1 = o1.len() as int;
        order = o1 + o2;
        parent = p1 + p2.map_values(|i: int| i + n1);
        assert forall|a: int, b: int| #[trigger] v2.newly(pre, a, b) implies order.contains((a, b)) by {
            if v1.newly(pre, a, b) {
                let i = choose|i: int| 0 <= i < o1.len() && o1[i] == (a, b);
                assert(order[i] == (a, b));
            } else {
                assert(v2.newly(v1, a, b));
                assert(o2.contains((a, b)));
                let i = choose|i: int| 0 <= i < o2.len() && o2[i] == (a, b);
                assert(order[n1 + i] == (a, b));
            }
        }
        assert forall|k: int| 0 <= k < order.len() implies {
            let q = #[trigger] order[k];
            let p = order[parent[k]];
            ||| is_neighbor(x, y, q.0, q.1) && pre.is_open(q.0, q.1)
            ||| 0 <= parent[k] < k && is_neighbor(p.0, p.1, q.0, q.1) && v2.cell(p.0, p.1).value == 0
        } by {
            if k < n1 {
                assert(order[k] == o1[k]);
                assert(parent[k] == p1[k]);
                if 0 <= p1[k] < k {
                    assert(order[parent[k]] == o1[p1[k]]);
                    let p = o1[p1[k]];
                    assert(v1.cell(p.0, p.1).value == v2.cell(p.0, p.1).value);
                }
            } else {
                let k2 = k - n1;
                assert(order[k] == o2[k2]);
                if k2 == 0 {
                    assert(o2[0] == (na, nb));
                } else {
                    assert(parent[k] == p2[k2] + n1);
                    let p = o2[p2[k2]];
                    assert(o2[p2[k2]] == o2[p2[k2]]);
                    assert(order[parent[k]] == o2[p2[k2]]);
                }
            }
        }
        assert forall|k: int| 0 <= k < order.len() implies v2.newly(pre, (#[trigger] order[k]).0, order[k].1) by {
            if k < n1 {
                assert(order[k] == o1[k]);
                assert(v1.newly(pre, o1[k].0, o1[k].1));
            } else {
                assert(order[k] == o2[k - n1]);
                assert(v2.newly(v1, o2[k - n1].0, o2[k - n1].1));
            }
        }
    }
    (order, parent)
}

pub(crate) proof fn lemma_offset_index(x1: int, y1: int, x2: int, y2: int)
    requires
        is_neighbor(x1, y1, x2, y2),
    ensures
        0 <= offset_index(x1, y1, x2, y2) < 8,
        x1 + dx(offset_index(x1, y1, x2, y2)) == x2,
        y1 + dy(offset_index(x1, y1, x2, y2)) == y2,
{
}

} // verus!
