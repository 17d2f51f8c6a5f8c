//! The abstract board that the contracts speak of: cells by row and column,
//! neighbourhoods, counts, and the relations that reveals and chords leave
//! between two boards.
use crate::grid::{Cell, Mark, Outcome};
use vstd::prelude::*;

verus! {

/// A covered, unmarked cell with no mine around it.
pub open spec fn blank_cell() -> Cell {
    Cell { value: 0, cleared: false, mark: Mark::Unmarked }
}

/// A covered mine is shown uncovered, without its mark; any other cell
/// stays as it is.
pub open spec fn shown(c: Cell) -> Cell {
    if c.value == -1 && !c.cleared {
        Cell { cleared: true, mark: Mark::Unmarked, ..c }
    } else {
        c
    }
}

/// Column offset of the `d`-th of the eight neighbours.
pub open spec fn dx(d: int) -> int {
    if d == 0 || d == 3 || d == 5 {
        -1
    } else if d == 1 || d == 6 {
        0
    } else {
        1
    }
}

/// Row offset of the `d`-th of the eight neighbours.
pub open spec fn dy(d: int) -> int {
    if d <= 2 {
        -1
    } else if d <= 4 {
        0
    } else {
        1
    }
}

/// Two distinct positions that touch by a side or a corner.
pub open spec fn is_neighbor(x1: int, y1: int, x2: int, y2: int) -> bool {
    &&& !(x1 == x2 && y1 == y2)
    &&& -1 <= x2 - x1 <= 1
    &&& -1 <= y2 - y1 <= 1
}

/// What a count over the board counts.
pub enum Tally {
    Mine,
    ClearedSafe,
    Flag,
}

/// Whether the cell `c` is one that `t` counts.
pub open spec fn tallied(c: Cell, t: Tally) -> bool {
    match t {
        Tally::Mine => c.value == -1,
        Tally::ClearedSafe => c.cleared && c.value != -1,
        Tally::Flag => c.mark == Mark::Flagged,
    }
}

/// The cells of a row that `t` counts.
pub open spec fn count_row(row: Seq<Cell>, t: Tally) -> nat
    decreases row.len(),
{
    if row.len() == 0 {
        0
    } else {
        count_row(row.drop_last(), t) + if tallied(row.last(), t) {
            1nat
        } else {
            0nat
        }
    }
}

/// The cells of a board that `t` counts.
pub open spec fn count_cells(rows: Seq<Seq<Cell>>, t: Tally) -> nat
    decreases rows.len(),
{
    if rows.len() == 0 {
        0
    } else {
        count_cells(rows.drop_last(), t) + count_row(rows.last(), t)
    }
}

/// One for true, zero for false.
pub open spec fn indicator(b: bool) -> int {
    if b {
        1
    } else {
        0
    }
}

/// The abstract state of a board: cells are addressed as `cells[row][column]`.
pub struct GridView {
    pub width: nat,
    pub height: nat,
    pub cells: Seq<Seq<Cell>>,
    pub mine_count: nat,
    pub cleared_count: nat,
    pub flag_count: int,
    pub initialized: bool,
}

impl GridView {
    pub open spec fn in_bounds(&self, x: int, y: int) -> bool {
        0 <= x < self.width && 0 <= y < self.height
    }

    pub open spec fn cell(&self, x: int, y: int) -> Cell {
        self.cells[y][x]
    }

    /// The cells with the one at `(x, y)` replaced by `c`.
    pub open spec fn with_cell(&self, x: int, y: int, c: Cell) -> Seq<Seq<Cell>> {
        self.cells.update(y, self.cells[y].update(x, c))
    }

    pub open spec fn is_mine(&self, x: int, y: int) -> bool {
        self.in_bounds(x, y) && self.cell(x, y).value == -1
    }

    pub open spec fn is_flagged(&self, x: int, y: int) -> bool {
        self.in_bounds(x, y) && self.cell(x, y).mark == Mark::Flagged
    }

    /// Mines among the first `d` neighbours of `(x, y)`.
    pub open spec fn mines_within(&self, x: int, y: int, d: int) -> int
        decreases d,
    {
        if d <= 0 {
            0
        } else {
            self.mines_within(x, y, d - 1) + if self.is_mine(x + dx(d - 1), y + dy(d - 1)) {
                1int
            } else {
                0int
            }
        }
    }

    /// Flags among the first `d` neighbours of `(x, y)`.
    pub open spec fn flags_within(&self, x: int, y: int, d: int) -> int
        decreases d,
    {
        if d <= 0 {
            0
        } else {
            self.flags_within(x, y, d - 1) + if self.is_flagged(x + dx(d - 1), y + dy(d - 1)) {
                1int
            } else {
                0int
            }
        }
    }

    pub open spec fn adjacent_mines(&self, x: int, y: int) -> int {
        self.mines_within(x, y, 8)
    }

    pub open spec fn adjacent_flags(&self, x: int, y: int) -> int {
        self.flags_within(x, y, 8)
    }

    /// Every cell that is not a mine holds its count of neighbouring mines.
    pub open spec fn numbers_consistent(&self) -> bool {
        forall|x: int, y: int|
            self.in_bounds(x, y) && !self.is_mine(x, y) ==> #[trigger] self.cell(x, y).value
                == self.adjacent_mines(x, y)
    }

    pub open spec fn num_mines(&self) -> nat {
        count_cells(self.cells, Tally::Mine)
    }

    pub open spec fn num_cleared_safe(&self) -> nat {
        count_cells(self.cells, Tally::ClearedSafe)
    }

    pub open spec fn num_flagged(&self) -> nat {
        count_cells(self.cells, Tally::Flag)
    }

    pub open spec fn area(&self) -> int {
        (self.width * self.height) as int
    }

    pub open spec fn well_formed(&self) -> bool {
        &&& self.width >= 1
        &&& self.height >= 1
        &&& self.area() <= isize::MAX
        &&& self.cells.len() == self.height
        &&& forall|y: int| 0 <= y < self.height ==> (#[trigger] self.cells[y]).len() == self.width
        &&& self.mine_count <= self.area()
        &&& self.cleared_count == self.num_cleared_safe()
        &&& self.flag_count == self.num_flagged()
        &&& forall|x: int, y: int|
            self.in_bounds(x, y) ==> {
                let c = #[trigger] self.cell(x, y);
                &&& -1 <= c.value <= 8
                &&& c.cleared ==> c.mark == Mark::Unmarked
                &&& !self.initialized ==> c.value == 0 && !c.cleared
            }
        &&& self.initialized ==> self.num_mines() == self.mine_count && self.numbers_consistent()
    }

    /// Same shape and the same number in every cell.
    pub open spec fn same_values(&self, other: GridView) -> bool {
        &&& self.width == other.width
        &&& self.height == other.height
        &&& forall|x: int, y: int|
            self.in_bounds(x, y) ==> (#[trigger] self.cell(x, y)).value == other.cell(x, y).value
    }

    /// Same shape, counters, marks and cover as `pre`; the numbers are
    /// consistent with the mines laid so far, `left` short of the total.
    pub open spec fn placing(&self, pre: GridView, left: nat) -> bool {
        &&& pre.well_formed()
        &&& !pre.initialized
        &&& self.width == pre.width
        &&& self.height == pre.height
        &&& self.cells.len() == pre.cells.len()
        &&& forall|y: int| 0 <= y < self.height ==> (#[trigger] self.cells[y]).len() == self.width
        &&& self.mine_count == pre.mine_count
        &&& self.cleared_count == pre.cleared_count
        &&& self.flag_count == pre.flag_count
        &&& !self.initialized
        &&& self.cleared_count == self.num_cleared_safe()
        &&& self.flag_count == self.num_flagged()
        &&& forall|x: int, y: int|
            self.in_bounds(x, y) ==> {
                let c = #[trigger] self.cell(x, y);
                &&& -1 <= c.value <= 8
                &&& c.cleared == pre.cell(x, y).cleared
                &&& c.mark == pre.cell(x, y).mark
            }
        &&& self.numbers_consistent()
        &&& self.num_mines() + left == self.mine_count
    }

    /// `(a, b)` is uncovered here but was covered in `pre`.
    pub open spec fn newly(&self, pre: GridView, a: int, b: int) -> bool {
        self.in_bounds(a, b) && self.cell(a, b).cleared && !pre.cell(a, b).cleared
    }

    /// `(a, b)` is covered and carries no mark.
    pub open spec fn is_open(&self, a: int, b: int) -> bool {
        self.in_bounds(a, b) && !self.cell(a, b).cleared && self.cell(a, b).mark == Mark::Unmarked
    }

    /// The cells uncovered since `pre`, listed in `order` from `(x, y)` on,
    /// each after `parent[k]`, an earlier one that touches it and has no mine
    /// around it.
    pub open spec fn flood_chain(
        &self,
        pre: GridView,
        x: int,
        y: int,
        order: Seq<(int, int)>,
        parent: Seq<int>,
    ) -> bool {
        &&& order.len() >= 1
        &&& parent.len() == order.len()
        &&& order[0] == (x, y)
        &&& forall|k: int| 0 <= k < order.len() ==> self.newly(pre, (#[trigger] order[k]).0, order[k].1)
        &&& forall|k: int|
            1 <= k < order.len() ==> {
                let p = order[#[trigger] parent[k]];
                &&& 0 <= parent[k] < k
                &&& is_neighbor(p.0, p.1, order[k].0, order[k].1)
                &&& self.cell(p.0, p.1).value == 0
            }
        &&& forall|a: int, b: int| #[trigger] self.newly(pre, a, b) ==> order.contains((a, b))
    }

    /// The cells uncovered since `pre` are exactly those that a flood fill
    /// from `(x, y)` reaches: each was covered, unmarked and free of mines,
    /// and each touches the start through uncovered cells with no mine around;
    /// around every uncovered cell with no mine near it, nothing is left
    /// covered but marked cells.
    pub open spec fn flooded_from(&self, pre: GridView, x: int, y: int) -> bool {
        &&& self.newly(pre, x, y)
        &&& exists|order: Seq<(int, int)>, parent: Seq<int>| self.flood_chain(pre, x, y, order, parent)
        &&& forall|a: int, b: int|
            #[trigger] self.newly(pre, a, b) ==> pre.cell(a, b).mark == Mark::Unmarked && !self.is_mine(a, b)
        &&& forall|a: int, b: int, c: int, d: int|
            #![trigger self.newly(pre, a, b), self.cell(c, d)]
            self.newly(pre, a, b) && self.cell(a, b).value == 0 && is_neighbor(a, b, c, d) && self.in_bounds(c, d)
                ==> self.cell(c, d).cleared || self.cell(c, d).mark != Mark::Unmarked
    }

    /// This board is what a reveal at `(x, y)` with outcome `r` leaves of a
    /// board whose cover and marks were those of `pre`.
    pub open spec fn revealed_from(&self, pre: GridView, x: int, y: int, r: Outcome) -> bool {
        &&& forall|a: int, b: int|
            self.in_bounds(a, b) ==> (#[trigger] self.cell(a, b)).mark == pre.cell(a, b).mark && (pre.cell(
                a,
                b,
            ).cleared ==> self.cell(a, b).cleared)
        &&& if !pre.is_open(x, y) {
            &&& r == Outcome::NoOp
            &&& forall|a: int, b: int| !(#[trigger] self.newly(pre, a, b))
        } else if self.is_mine(x, y) {
            &&& r == Outcome::Detonated
            &&& forall|a: int, b: int| #[trigger] self.newly(pre, a, b) <==> (a == x && b == y)
        } else {
            &&& r == Outcome::Revealed
            &&& self.flooded_from(pre, x, y)
        }
    }

    /// `(c, d)` is uncovered or marked: a flood does not open it.
    pub open spec fn is_closed(&self, c: int, d: int) -> bool {
        self.cell(c, d).cleared || self.cell(c, d).mark != Mark::Unmarked
    }

    /// Every neighbour of `(a, b)` on the board is closed.
    pub open spec fn closed_around(&self, a: int, b: int) -> bool {
        forall|c: int, d: int|
            is_neighbor(a, b, c, d) && self.in_bounds(c, d) ==> #[trigger] self.is_closed(c, d)
    }

    /// The first `k` neighbours of `(a, b)` that lie on the board are closed.
    pub open spec fn closed_upto(&self, a: int, b: int, k: int) -> bool
        decreases k,
    {
        if k <= 0 {
            true
        } else {
            &&& self.closed_upto(a, b, k - 1)
            &&& self.in_bounds(a + dx(k - 1), b + dy(k - 1)) ==> self.is_closed(a + dx(k - 1), b + dy(k - 1))
        }
    }

    /// Same shape and marks as `other`, and at least its uncovered cells.
    pub open spec fn grows_from(&self, other: GridView) -> bool {
        &&& self.width == other.width
        &&& self.height == other.height
        &&& forall|a: int, b: int|
            self.in_bounds(a, b) ==> (#[trigger] self.cell(a, b)).mark == other.cell(a, b).mark && (other.cell(
                a,
                b,
            ).cleared ==> self.cell(a, b).cleared)
    }

    /// What a reveal at `(x, y)` with outcome `r` leaves of `pre`: the mines
    /// are laid if they were not yet, sparing the start; the numbers stay
    /// once laid; the cover changes as `revealed_from` says; a `NoOp` on a
    /// board with its mines changes nothing.
    pub open spec fn reveal_result(&self, pre: GridView, x: int, y: int, r: Outcome) -> bool {
        &&& self.initialized
        &&& self.width == pre.width
        &&& self.height == pre.height
        &&& self.mine_count == pre.mine_count
        &&& self.flag_count == pre.flag_count
        &&& pre.initialized ==> self.same_values(pre)
        &&& !pre.initialized ==> self.safe_start(x, y)
        &&& self.revealed_from(pre, x, y, r)
        &&& r == Outcome::NoOp && pre.initialized ==> *self == pre
    }

    /// The cells uncovered since `pre`, listed in `order`: each is an open
    /// neighbour of `(x, y)`, or comes after `parent[k]`, an earlier one that
    /// touches it and has no mine around it.
    pub open spec fn chord_chain(
        &self,
        pre: GridView,
        x: int,
        y: int,
        order: Seq<(int, int)>,
        parent: Seq<int>,
    ) -> bool {
        &&& parent.len() == order.len()
        &&& forall|k: int| 0 <= k < order.len() ==> self.newly(pre, (#[trigger] order[k]).0, order[k].1)
        &&& forall|k: int|
            0 <= k < order.len() ==> {
                let q = #[trigger] order[k];
                let p = order[parent[k]];
                ||| is_neighbor(x, y, q.0, q.1) && pre.is_open(q.0, q.1)
                ||| 0 <= parent[k] < k && is_neighbor(p.0, p.1, q.0, q.1) && self.cell(p.0, p.1).value == 0
            }
        &&& forall|a: int, b: int| #[trigger] self.newly(pre, a, b) ==> order.contains((a, b))
    }

    /// Chording on `(x, y)` of `pre` left this board with outcome `r`. It acts
    /// only on an uncovered cell whose number is positive and equals the flags
    /// around it; then every open neighbour is uncovered, a mine among them
    /// makes the outcome `Detonated`, and floods run from those without a mine
    /// around them.
    pub open spec fn chorded_from(&self, pre: GridView, x: int, y: int, r: Outcome) -> bool {
        let c = pre.cell(x, y);
        if !(c.cleared && c.value > 0 && pre.adjacent_flags(x, y) == c.value) {
            r == Outcome::NoOp && *self == pre
        } else {
            &&& r != Outcome::NoOp
            &&& self.initialized
            &&& self.mine_count == pre.mine_count
            &&& self.flag_count == pre.flag_count
            &&& self.same_values(pre)
            &&& self.grows_from(pre)
            &&& exists|order: Seq<(int, int)>, parent: Seq<int>| self.chord_chain(pre, x, y, order, parent)
            &&& forall|a: int, b: int|
                is_neighbor(x, y, a, b) && #[trigger] pre.is_open(a, b) ==> self.cell(a, b).cleared
            &&& forall|a: int, b: int|
                #[trigger] self.newly(pre, a, b) && self.is_mine(a, b) ==> is_neighbor(x, y, a, b) && pre.is_open(a, b)
            &&& forall|a: int, b: int|
                #[trigger] self.newly(pre, a, b) && self.cell(a, b).value == 0 ==> self.closed_around(a, b)
            &&& (r == Outcome::Detonated) == exists|a: int, b: int|
                is_neighbor(x, y, a, b) && #[trigger] pre.is_open(a, b) && pre.is_mine(a, b)
        }
    }

    /// The board with every mine uncovered.
    pub open spec fn with_mines_shown(&self) -> GridView {
        let cells = Seq::new(self.height, |y: int| Seq::new(self.width, |x: int| shown(self.cells[y][x])));
        GridView { cells, flag_count: count_cells(cells, Tally::Flag) as int, ..*self }
    }

    /// The board after a flag toggle at `(x, y)`.
    pub open spec fn flag_toggled(&self, x: int, y: int) -> GridView {
        let c = self.cell(x, y);
        if c.cleared {
            *self
        } else if c.mark == Mark::Flagged {
            GridView {
                cells: self.with_cell(x, y, Cell { mark: Mark::Unmarked, ..c }),
                flag_count: self.flag_count - 1,
                ..*self
            }
        } else {
            GridView {
                cells: self.with_cell(x, y, Cell { mark: Mark::Flagged, ..c }),
                flag_count: self.flag_count + 1,
                ..*self
            }
        }
    }

    /// The board after a question-mark toggle at `(x, y)`.
    pub open spec fn question_toggled(&self, x: int, y: int) -> GridView {
        let c = self.cell(x, y);
        if c.cleared {
            *self
        } else if c.mark == Mark::Questioned {
            GridView { cells: self.with_cell(x, y, Cell { mark: Mark::Unmarked, ..c }), ..*self }
        } else {
            GridView {
                cells: self.with_cell(x, y, Cell { mark: Mark::Questioned, ..c }),
                flag_count: self.flag_count - indicator(c.mark == Mark::Flagged),
                ..*self
            }
        }
    }

    /// Cells of the board away from `(x, y)` and its neighbours.
    pub open spec fn cells_outside_zone(&self, x: int, y: int) -> int {
        eligible_in_rows(self.width as int, 2, x, y, self.height as int)
    }

    /// The mines spare a first reveal at `(x, y)`: its neighbours too where
    /// enough cells lie away from them, else the cell itself where the board
    /// is not all mines.
    pub open spec fn safe_start(&self, x: int, y: int) -> bool {
        &&& self.mine_count <= self.cells_outside_zone(x, y) ==> forall|a: int, b: int|
            #![trigger self.is_mine(a, b)]
            excluded(2, x, y, a, b) ==> !self.is_mine(a, b)
        &&& self.mine_count < self.area() ==> !self.is_mine(x, y)
    }

    /// Every cell that holds no mine has been uncovered.
    pub open spec fn is_complete(&self) -> bool {
        self.cleared_count == self.area() - self.mine_count
    }
}

/// How many of the first `d` neighbour offsets lead from `(px, py)` to `(qx, qy)`.
pub open spec fn hits_from(px: int, py: int, qx: int, qy: int, d: int) -> int
    decreases d,
{
    if d <= 0 {
        0
    } else {
        hits_from(px, py, qx, qy, d - 1) + indicator(px + dx(d - 1) == qx && py + dy(d - 1) == qy)
    }
}

/// Whether `(x, y)` is kept free of mines when the first reveal is at
/// `(cx, cy)`: with `mode` 2 the clicked cell and its neighbours, with 1 the
/// clicked cell alone, with 0 none.
pub open spec fn excluded(mode: int, cx: int, cy: int, x: int, y: int) -> bool {
    if mode == 2 {
        -1 <= x - cx <= 1 && -1 <= y - cy <= 1
    } else if mode == 1 {
        x == cx && y == cy
    } else {
        false
    }
}

/// Cells of row `y` before column `n` that are not excluded.
pub open spec fn eligible_in_row(mode: int, cx: int, cy: int, y: int, n: int) -> int
    decreases n,
{
    if n <= 0 {
        0
    } else {
        eligible_in_row(mode, cx, cy, y, n - 1) + indicator(!excluded(mode, cx, cy, n - 1, y))
    }
}

/// Cells of the first `rows` rows, `w` wide, that are not excluded.
pub open spec fn eligible_in_rows(w: int, mode: int, cx: int, cy: int, rows: int) -> int
    decreases rows,
{
    if rows <= 0 {
        0
    } else {
        eligible_in_rows(w, mode, cx, cy, rows - 1) + eligible_in_row(mode, cx, cy, rows - 1, w)
    }
}

/// `(x1, y1)` comes before `(x2, y2)` in row-major order.
pub open spec fn before(x1: int, y1: int, x2: int, y2: int) -> bool {
    y1 < y2 || (y1 == y2 && x1 < x2)
}

/// `(a, b)` is one of the positions held in `stack`.
pub open spec fn in_stack(stack: Seq<(usize, usize)>, a: int, b: int) -> bool {
    exists|i: int| 0 <= i < stack.len() && stack[i].0 == a && stack[i].1 == b
}

/// The index of the neighbour offset from `(x1, y1)` to `(x2, y2)`.
pub open spec fn offset_index(x1: int, y1: int, x2: int, y2: int) -> int {
    let (ox, oy) = (x2 - x1, y2 - y1);
    if oy == -1 {
        ox + 1
    } else if oy == 0 {
        if ox == -1 {
            3
        } else {
            4
        }
    } else {
        ox + 6
    }
}

} // verus!
