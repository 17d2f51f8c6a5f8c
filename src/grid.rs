//! The board: cells and their marks, the mine layout laid at the first
//! reveal, reveal with its flood fill, chording, and the flag count.
use crate::board::{
    before,
    blank_cell,
    dx,
    dy,
    eligible_in_row,
    eligible_in_rows,
    excluded,
    hits_from,
    in_stack,
    indicator,
    is_neighbor,
    offset_index,
    shown,
    tallied,
    GridView,
    Tally,
};
use crate::proofs::{
    lemma_add_mine,
    lemma_chord_chain_step,
    lemma_closed_around_grows,
    lemma_closed_upto_all,
    lemma_closed_upto_grows,
    lemma_consistent_same,
    lemma_count_cells_bound,
    lemma_count_cells_none,
    lemma_count_cells_update,
    lemma_hits_all,
    lemma_hits_mono,
    lemma_mines_within_bound,
    lemma_mines_within_same,
    lemma_no_mines_within,
    lemma_offset_index,
    lemma_zero_no_mines,
};
use crate::random::{draw_below, random_seed, seeded_rng};
use vstd::prelude::*;

verus! {

/// How a covered cell is marked by the player.
#[derive(Clone, Copy, Debug, PartialEq, Eq, Structural)]
pub enum Mark {
    Unmarked,
    Flagged,
    Questioned,
}

/// One position of the board: its number (`-1` for a mine, else the count of
/// neighbouring mines), whether it has been uncovered, and its mark.
#[derive(Clone, Copy, Debug)]
pub struct Cell {
    pub value: i8,
    pub cleared: bool,
    pub mark: Mark,
}

impl Cell {
    fn new(value: i8) -> (r: Cell)
        ensures
            r == (Cell { value, cleared: false, mark: Mark::Unmarked }),
    {
        Cell { value, cleared: false, mark: Mark::Unmarked }
    }

    /// The cell's number: `-1` for a mine, else its count of neighbouring mines.
    pub fn get_value(&self) -> (r: i8)
        ensures
            r == self.value,
    {
        self.value
    }
}

/// What a reveal did.
#[derive(Clone, Copy, Debug, PartialEq, Eq, Structural)]
pub enum Outcome {
    /// Nothing changed: the cell was already uncovered or carries a mark.
    NoOp,
    /// Cells without mines were uncovered.
    Revealed,
    /// A mine was uncovered.
    Detonated,
}

/// Column and row offsets of the `d`-th neighbour.
fn offset(d: usize) -> (r: (i8, i8))
    requires
        d < 8,
    ensures
        r.0 == dx(d as int),
        r.1 == dy(d as int),
{
    if d == 0 {
        (-1, -1)
    } else if d == 1 {
        (0, -1)
    } else if d == 2 {
        (1, -1)
    } else if d == 3 {
        (-1, 0)
    } else if d == 4 {
        (1, 0)
    } else if d == 5 {
        (-1, 1)
    } else if d == 6 {
        (0, 1)
    } else {
        (1, 1)
    }
}

/// The `d`-th neighbour of `(x, y)` on a board of `w` columns and `h` rows,
/// if it lies on the board.
fn neighbor(w: usize, h: usize, x: usize, y: usize, d: usize) -> (r: Option<(usize, usize)>)
    requires
        x < w,
        y < h,
        d < 8,
    ensures
        match r {
            Some(n) => n.0 == x + dx(d as int) && n.1 == y + dy(d as int) && n.0 < w && n.1 < h,
            None => !(0 <= x + dx(d as int) < w && 0 <= y + dy(d as int) < h),
        },
{
    let (ox, oy) = offset(d);
    let nx: usize;
    if ox < 0 {
        if x == 0 {
            return None;
        }
        nx = x - 1;
    } else if ox == 0 {
        nx = x;
    } else {
        if x + 1 >= w {
            return None;
        }
        nx = x + 1;
    }
    let ny: usize;
    if oy < 0 {
        if y == 0 {
            return None;
        }
        ny = y - 1;
    } else if oy == 0 {
        ny = y;
    } else {
        if y + 1 >= h {
            return None;
        }
        ny = y + 1;
    }
    Some((nx, ny))
}

/// The cells of a `w` by `h` board that are not excluded, in row-major order.
fn candidates(w: usize, h: usize, cx: usize, cy: usize, mode: u8) -> (r: Vec<(usize, usize)>)
    requires
        w >= 1,
        h >= 1,
        w * h <= isize::MAX,
        cx < w,
        cy < h,
        mode <= 2,
    ensures
        forall|i: int|
            0 <= i < r@.len() ==> {
                let p = #[trigger] r@[i];
                &&& p.0 < w
                &&& p.1 < h
                &&& !excluded(mode as int, cx as int, cy as int, p.0 as int, p.1 as int)
            },
        forall|i: int, j: int| 0 <= i < j < r@.len() ==> r@[i] != r@[j],
        r@.len() == eligible_in_rows(w as int, mode as int, cx as int, cy as int, h as int),
        mode == 0 ==> r@.len() == w * h,
        mode == 1 ==> r@.len() == w * h - 1,
{
    let mut r: Vec<(usize, usize)> = Vec::new();
    let mut y: usize = 0;
    while y < h
        invariant
            w >= 1,
            h >= 1,
            w * h <= isize::MAX,
            cx < w,
            cy < h,
            mode <= 2,
            y <= h,
            forall|i: int|
                0 <= i < r@.len() ==> {
                    let p = #[trigger] r@[i];
                    &&& p.0 < w
                    &&& p.1 < y
                    &&& !excluded(mode as int, cx as int, cy as int, p.0 as int, p.1 as int)
                },
            forall|i: int, j: int| 0 <= i < j < r@.len() ==> r@[i] != r@[j],
            r@.len() == eligible_in_rows(w as int, mode as int, cx as int, cy as int, y as int),
            mode == 0 ==> r@.len() == y * w,
            mode == 1 ==> r@.len() == y * w - indicator(cy < y),
        decreases h - y,
    {
        let mut x: usize = 0;
        while x < w
            invariant
                w >= 1,
                h >= 1,
                w * h <= isize::MAX,
                cx < w,
                cy < h,
                mode <= 2,
                y < h,
                x <= w,
                forall|i: int|
                    0 <= i < r@.len() ==> {
                        let p = #[trigger] r@[i];
                        &&& p.0 < w
                        &&& p.1 <= y
                        &&& before(p.0 as int, p.1 as int, x as int, y as int)
                        &&& !excluded(mode as int, cx as int, cy as int, p.0 as int, p.1 as int)
                    },
                forall|i: int, j: int| 0 <= i < j < r@.len() ==> r@[i] != r@[j],
                r@.len() == eligible_in_rows(w as int, mode as int, cx as int, cy as int, y as int)
                    + eligible_in_row(mode as int, cx as int, cy as int, y as int, x as int),
                mode == 0 ==> r@.len() == y * w + x,
                mode == 1 ==> r@.len() == y * w + x - indicator(before(cx as int, cy as int, x as int, y as int)),
            decreases w - x,
        {
            let skip = if mode == 2 {
                x + 1 >= cx && x <= cx + 1 && y + 1 >= cy && y <= cy + 1
            } else if mode == 1 {
                x == cx && y == cy
            } else {
                false
            };
            proof {
                assert(y * w + x < w * h) by (nonlinear_arith)
                    requires
                        x < w,
                        y < h,
                ;
            }
            if !skip {
                r.push((x, y));
            }
            x = x + 1;
        }
        proof {
            assert(y * w + w == (y + 1) * w) by (nonlinear_arith);
        }
        y = y + 1;
    }
    proof {
        assert(h * w == w * h) by (nonlinear_arith);
    }
    r
}

/// A minesweeper board.
pub struct Grid {
    grid: Vec<Cell>,
    shape: (usize, usize),
    number_of_mines: usize,
    number_of_cleared: usize,
    number_of_flags: isize,
    initialized: bool,
    /// Seeds the generator that lays out the mines.
    seed: u64,
}

impl View for Grid {
    type V = GridView;

    closed spec fn view(&self) -> GridView {
        GridView {
            width: self.shape.0 as nat,
            height: self.shape.1 as nat,
            cells: Seq::new(
                self.shape.1 as nat,
                |y: int| Seq::new(self.shape.0 as nat, |x: int| self.grid@[y * self.shape.0 + x]),
            ),
            mine_count: self.number_of_mines as nat,
            cleared_count: self.number_of_cleared as nat,
            flag_count: self.number_of_flags as int,
            initialized: self.initialized,
        }
    }
}

proof fn lemma_index(w: int, h: int, x: int, y: int)
    requires
        0 <= x < w,
        0 <= y < h,
    ensures
        0 <= y * w + x < w * h,
{
    assert(0 <= y * w) by (nonlinear_arith)
        requires
            0 <= y,
            0 <= w,
    ;
    assert(y * w + x < w * h) by (nonlinear_arith)
        requires
            0 <= x < w,
            0 <= y < h,
    ;
}

proof fn lemma_index_injective(w: int, x1: int, y1: int, x2: int, y2: int)
    requires
        0 <= x1 < w,
        0 <= x2 < w,
        0 <= y1,
        0 <= y2,
        y1 * w + x1 == y2 * w + x2,
    ensures
        x1 == x2,
        y1 == y2,
{
    if y1 < y2 {
        assert(y1 * w + w <= y2 * w) by (nonlinear_arith)
            requires
                y1 < y2,
                0 <= w,
        ;
    } else if y2 < y1 {
        assert(y2 * w + w <= y1 * w) by (nonlinear_arith)
            requires
                y2 < y1,
                0 <= w,
        ;
    }
}

impl Grid {
    /// The layout of the vector matches the shape.
    closed spec fn shaped(&self) -> bool {
        &&& self.grid@.len() == self.shape.0 * self.shape.1
        &&& self.shape.0 >= 1
        &&& self.shape.1 >= 1
        &&& self.shape.0 * self.shape.1 <= isize::MAX
    }

    /// Where the view finds the cell `(x, y)` in the vector.
    proof fn lemma_view_cell(&self, x: int, y: int)
        requires
            self.shaped(),
            0 <= x < self.shape.0,
            0 <= y < self.shape.1,
        ensures
            0 <= y * self.shape.0 + x < self.grid@.len(),
            self@.cells[y][x] == self.grid@[y * self.shape.0 + x],
            self@.cells[y].len() == self.shape.0,
    {
        lemma_index(self.shape.0 as int, self.shape.1 as int, x, y);
    }

    /// The board is consistent: see `GridView::well_formed`.
    pub closed spec fn wf(&self) -> bool {
        self.shaped() && self@.well_formed()
    }

    /// A consistent board has a well-formed view.
    pub proof fn lemma_wf_view(&self)
        requires
            self.wf(),
        ensures
            self@.well_formed(),
    {
    }

    /// A covered board of `shape.0` columns and `shape.1` rows that will hold
    /// `number_of_mines` mines; they are laid out at the first reveal.
    pub fn new(shape: (usize, usize), number_of_mines: usize) -> (r: Self)
        requires
            shape.0 >= 1,
            shape.1 >= 1,
            shape.0 * shape.1 <= isize::MAX,
            number_of_mines <= shape.0 * shape.1,
        ensures
            r.wf(),
            r@.width == shape.0,
            r@.height == shape.1,
            r@.mine_count == number_of_mines,
            r@.cleared_count == 0,
            r@.flag_count == 0,
            !r@.initialized,
            forall|x: int, y: int|
                r@.in_bounds(x, y) ==> (#[trigger] r@.cell(x, y)) == blank_cell(),
    {
        Grid::with_seed(shape, number_of_mines, random_seed())
    }

    /// As `new`, with the mine layout drawn from a generator seeded with
    /// `seed`: the same seed and first reveal give the same layout.
    pub fn with_seed(shape: (usize, usize), number_of_mines: usize, seed: u64) -> (r: Self)
        requires
            shape.0 >= 1,
            shape.1 >= 1,
            shape.0 * shape.1 <= isize::MAX,
            number_of_mines <= shape.0 * shape.1,
        ensures
            r.wf(),
            r@.width == shape.0,
            r@.height == shape.1,
            r@.mine_count == number_of_mines,
            r@.cleared_count == 0,
            r@.flag_count == 0,
            !r@.initialized,
            forall|x: int, y: int|
                r@.in_bounds(x, y) ==> (#[trigger] r@.cell(x, y)) == blank_cell(),
    {
        let n = shape.0 * shape.1;
        let mut grid: Vec<Cell> = Vec::new();
        let mut i: usize = 0;
        while i < n
            invariant
                i <= n,
                grid@.len() == i,
                forall|j: int| 0 <= j < i ==> grid@[j] == blank_cell(),
            decreases n - i,
        {
            grid.push(Cell::new(0));
            i = i + 1;
        }
        let r = Grid {
            grid,
            shape,
            number_of_mines,
            number_of_cleared: 0,
            number_of_flags: 0,
            initialized: false,
            seed,
        };
        proof {
            assert forall|x: int, y: int|
                0 <= y < r@.cells.len() && 0 <= x < r@.cells[y].len() implies (#[trigger] r@.cells[y][x])
                == blank_cell() by {
                r.lemma_view_cell(x, y);
            }
            assert forall|y: int| 0 <= y < r@.height implies (#[trigger] r@.cells[y]).len() == r@.width by {
                r.lemma_view_cell(0, y);
            }
            lemma_count_cells_none(r@.cells, Tally::ClearedSafe);
            lemma_count_cells_none(r@.cells, Tally::Flag);
        }
        r
    }

    /// Replaces the board by a fresh covered one of the given shape and
    /// number of mines.
    pub fn reshape(&mut self, shape: (usize, usize), number_of_mines: usize)
        requires
            shape.0 >= 1,
            shape.1 >= 1,
            shape.0 * shape.1 <= isize::MAX,
            number_of_mines <= shape.0 * shape.1,
        ensures
            final(self).wf(),
            final(self)@.width == shape.0,
            final(self)@.height == shape.1,
            final(self)@.mine_count == number_of_mines,
            final(self)@.cleared_count == 0,
            final(self)@.flag_count == 0,
            !final(self)@.initialized,
            forall|x: int, y: int|
                final(self)@.in_bounds(x, y) ==> (#[trigger] final(self)@.cell(x, y)) == blank_cell(),
    {
        *self = Grid::new(shape, number_of_mines);
    }

    /// The cell in column `x` and row `y`.
    pub fn get(&self, x: usize, y: usize) -> (r: &Cell)
        requires
            self.wf(),
            x < self@.width,
            y < self@.height,
        ensures
            *r == self@.cell(x as int, y as int),
    {
        proof {
            self.lemma_view_cell(x as int, y as int);
        }
        &self.grid[y * self.shape.0 + x]
    }

    /// Columns and rows.
    pub fn get_shape(&self) -> (r: (usize, usize))
        ensures
            r.0 == self@.width,
            r.1 == self@.height,
    {
        self.shape
    }

    /// Whether every cell without a mine has been uncovered.
    pub fn all_cleared(&self) -> (r: bool)
        requires
            self.wf(),
        ensures
            r == self@.is_complete(),
    {
        self.number_of_cleared == self.shape.0 * self.shape.1 - self.number_of_mines
    }

    /// The number of mines less the number of flags; negative when the
    /// player has placed more flags than there are mines.
    pub fn get_number_of_remaining_mines(&self) -> (r: isize)
        requires
            self.wf(),
        ensures
            r == self@.mine_count - self@.flag_count,
    {
        proof {
            lemma_count_cells_bound(self@.cells, Tally::Flag, self@.width);
            assert(self@.height * self@.width == self@.area()) by (nonlinear_arith);
        }
        self.number_of_mines as isize - self.number_of_flags
    }

    /// Flags a covered cell, or takes its flag away; a question mark gives way
    /// to the flag. An uncovered cell is left alone.
    pub fn toggle_flagged(&mut self, x: usize, y: usize)
        requires
            old(self).wf(),
            x < old(self)@.width,
            y < old(self)@.height,
        ensures
            final(self).wf(),
            final(self)@ == old(self)@.flag_toggled(x as int, y as int),
    {
        let c = *self.get(x, y);
        if !c.cleared {
            let flagged = c.mark == Mark::Flagged;
            let mark = if flagged { Mark::Unmarked } else { Mark::Flagged };
            self.remark(x, y, mark);
        }
    }

    /// Puts a question mark on a covered cell, or takes it away; a flag gives
    /// way to the question mark. An uncovered cell is left alone.
    pub fn toggle_question_marked(&mut self, x: usize, y: usize)
        requires
            old(self).wf(),
            x < old(self)@.width,
            y < old(self)@.height,
        ensures
            final(self).wf(),
            final(self)@ == old(self)@.question_toggled(x as int, y as int),
    {
        let c = *self.get(x, y);
        if !c.cleared {
            let questioned = c.mark == Mark::Questioned;
            let mark = if questioned { Mark::Unmarked } else { Mark::Questioned };
            self.remark(x, y, mark);
        }
    }

    /// Gives a covered cell a new mark and keeps the flag count.
    fn remark(&mut self, x: usize, y: usize, mark: Mark)
        requires
            old(self).wf(),
            x < old(self)@.width,
            y < old(self)@.height,
            !old(self)@.cell(x as int, y as int).cleared,
        ensures
            final(self).wf(),
            ({
                let pre = old(self)@;
                let c = pre.cell(x as int, y as int);
                final(self)@ == (GridView {
                    cells: pre.with_cell(x as int, y as int, Cell { mark, ..c }),
                    flag_count: pre.flag_count - indicator(c.mark == Mark::Flagged)
                        + indicator(mark == Mark::Flagged),
                    ..pre
                })
            }),
    {
        let ghost pre = self@;
        let c = *self.get(x, y);
        let was_flagged = c.mark == Mark::Flagged;
        self.set_cell(x, y, Cell { mark, ..c });
        proof {
            let nc = Cell { mark, ..c };
            lemma_count_cells_update(pre.cells, x as int, y as int, nc, Tally::Flag);
            assert forall|y2: int| 0 <= y2 < self@.height implies (#[trigger] self@.cells[y2]).len() == pre.width by {
                assert(pre.cells[y2].len() == pre.width);
            }
            lemma_count_cells_bound(self@.cells, Tally::Flag, pre.width);
            assert(pre.height * pre.width == pre.area()) by (nonlinear_arith);
        }
        if was_flagged {
            self.number_of_flags = self.number_of_flags - 1;
        }
        if mark == Mark::Flagged {
            self.number_of_flags = self.number_of_flags + 1;
        }
        proof {
            let nc = Cell { mark, ..c };
            let v = self@;
            lemma_count_cells_update(pre.cells, x as int, y as int, nc, Tally::Flag);
            lemma_count_cells_update(pre.cells, x as int, y as int, nc, Tally::Mine);
            lemma_count_cells_update(pre.cells, x as int, y as int, nc, Tally::ClearedSafe);
            assert forall|y2: int| 0 <= y2 < v.height implies (#[trigger] v.cells[y2]).len() == v.width by {
                assert(pre.cells[y2].len() == pre.width);
            }
            assert forall|xx: int, yy: int| v.in_bounds(xx, yy) implies (#[trigger] v.cell(xx, yy)).value == pre.cell(xx, yy).value by {
            }
            if pre.initialized {
                lemma_consistent_same(pre, v);
            }
        }
    }

    /// Lays out the mines for a first reveal at `(x, y)`. Each candidate cell
    /// in turn holds a mine with probability (mines left) / (candidates left),
    /// which places exactly the required number in one pass. The candidates are
    /// the cells away from `(x, y)` and its neighbours; where too few of those
    /// exist, every cell but `(x, y)`; where even that is too few, every cell.
    #[verifier::spinoff_prover]
    fn lay_mines(&mut self, x: usize, y: usize)
        requires
            old(self).wf(),
            !old(self)@.initialized,
            old(self)@.in_bounds(x as int, y as int),
        ensures
            final(self).wf(),
            final(self)@.initialized,
            final(self)@.width == old(self)@.width,
            final(self)@.height == old(self)@.height,
            final(self)@.mine_count == old(self)@.mine_count,
            final(self)@.cleared_count == old(self)@.cleared_count,
            final(self)@.flag_count == old(self)@.flag_count,
            forall|a: int, b: int|
                final(self)@.in_bounds(a, b) ==> (#[trigger] final(self)@.cell(a, b)).cleared == old(
                    self,
                )@.cell(a, b).cleared && final(self)@.cell(a, b).mark == old(self)@.cell(a, b).mark,
            final(self)@.safe_start(x as int, y as int),
    {
        let w = self.shape.0;
        let h = self.shape.1;
        let mines = self.number_of_mines;
        let ghost pre = self@;
        let mut mode: u8 = 2;
        let mut cands = candidates(w, h, x, y, 2);
        if cands.len() < mines {
            mode = 1;
            cands = candidates(w, h, x, y, 1);
            if cands.len() < mines {
                mode = 0;
                cands = candidates(w, h, x, y, 0);
            }
        }
        proof {
            assert forall|a: int, b: int| !(#[trigger] pre.is_mine(a, b)) by {
            }
            assert forall|a: int, b: int| pre.in_bounds(a, b) && !pre.is_mine(a, b) implies #[trigger] pre.cell(a, b).value
                == pre.adjacent_mines(a, b) by {
                lemma_no_mines_within(pre, a, b, 8);
            }
            assert forall|a: int, b: int|
                0 <= b < pre.cells.len() && 0 <= a < pre.cells[b].len() implies !tallied(
                #[trigger] pre.cells[b][a],
                Tally::Mine,
            ) by {
                assert(pre.in_bounds(a, b));
                assert(pre.cell(a, b).value == 0);
            }
            lemma_count_cells_none(pre.cells, Tally::Mine);
        }
        let n = cands.len();
        let mut rng = seeded_rng(self.seed);
        let mut left = mines;
        let mut k: usize = 0;
        while k < n
            invariant
                self.shaped(),
                w == self@.width,
                h == self@.height,
                n == cands@.len(),
                mode <= 2,
                k <= n,
                left <= n - k,
                self@.placing(pre, left as nat),
                forall|i: int|
                    0 <= i < n ==> {
                        let p = #[trigger] cands@[i];
                        &&& p.0 < w
                        &&& p.1 < h
                        &&& !excluded(mode as int, x as int, y as int, p.0 as int, p.1 as int)
                    },
                forall|i: int, j: int| 0 <= i < j < n ==> cands@[i] != cands@[j],
                forall|i: int| k <= i < n ==> !self@.is_mine(#[trigger] cands@[i].0 as int, cands@[i].1 as int),
                forall|a: int, b: int| #[trigger] self@.is_mine(a, b) ==> !excluded(mode as int, x as int, y as int, a, b),
            decreases n - k,
        {
            if left > 0 {
                let r = draw_below(&mut rng, n - k);
                if r < left {
                    let (px, py) = cands[k];
                    let ghost vk = self@;
                    self.plant(px, py, Ghost(pre), Ghost(left as nat));
                    left = left - 1;
                    proof {
                        assert forall|i: int| k < i < n implies !self@.is_mine(#[trigger] cands@[i].0 as int, cands@[i].1 as int) by {
                            assert(cands@[i] != cands@[k as int]);
                            assert(!vk.is_mine(cands@[i].0 as int, cands@[i].1 as int));
                        }
                        assert forall|a: int, b: int| #[trigger] self@.is_mine(a, b) implies !excluded(mode as int, x as int, y as int, a, b) by {
                            if !(a == px && b == py) {
                                assert(vk.is_mine(a, b));
                            }
                        }
                    }
                }
            }
            k = k + 1;
        }
        let ghost vend = self@;
        self.finish_layout(Ghost(pre));
        proof {
            let v = self@;
            assert forall|a: int, b: int| #[trigger] v.is_mine(a, b) == vend.is_mine(a, b) by {
            }
            assert forall|a: int, b: int|
                v.in_bounds(a, b) implies (#[trigger] v.cell(a, b)).cleared == pre.cell(a, b).cleared
                && v.cell(a, b).mark == pre.cell(a, b).mark by {
                assert(vend.in_bounds(a, b));
                assert(v.cells == vend.cells);
                assert(vend.cell(a, b).cleared == pre.cell(a, b).cleared);
            }
            if mode == 2 {
                assert(v.mine_count <= v.cells_outside_zone(x as int, y as int));
            } else {
                assert(v.cells_outside_zone(x as int, y as int) < v.mine_count);
                assert(h * w == w * h) by (nonlinear_arith);
            }
            assert forall|a: int, b: int| #![auto] v.is_mine(a, b) == (v.in_bounds(a, b) && v.cell(a, b).value == -1) by {
            }
        }
    }

    /// Marks a finished layout as laid.
    fn finish_layout(&mut self, Ghost(pre): Ghost<GridView>)
        requires
            old(self).shaped(),
            old(self)@.placing(pre, 0),
        ensures
            final(self).wf(),
            final(self)@ == (GridView { initialized: true, ..old(self)@ }),
    {
        let ghost vend = self@;
        self.initialized = true;
        proof {
            let v = self@;
            assert(v.cells == vend.cells);
            assert(v.same_values(vend));
            assert(vend.same_values(v));
            lemma_consistent_same(vend, v);
            assert forall|a: int, b: int| v.in_bounds(a, b) implies {
                let c = #[trigger] v.cell(a, b);
                &&& -1 <= c.value <= 8
                &&& c.cleared ==> c.mark == Mark::Unmarked
            } by {
                assert(pre.in_bounds(a, b));
                assert(vend.in_bounds(a, b));
            }
            assert(v.well_formed());
        }
    }

    /// A board with its mines at the given distinct positions, laid out from
    /// the start instead of at the first reveal.
    #[verifier::spinoff_prover]
    pub fn with_mines(shape: (usize, usize), mines: &Vec<(usize, usize)>) -> (r: Self)
        requires
            shape.0 >= 1,
            shape.1 >= 1,
            shape.0 * shape.1 <= isize::MAX,
            mines@.len() <= shape.0 * shape.1,
            forall|i: int| 0 <= i < mines@.len() ==> (#[trigger] mines@[i]).0 < shape.0 && mines@[i].1 < shape.1,
            forall|i: int, j: int| 0 <= i < j < mines@.len() ==> mines@[i] != mines@[j],
        ensures
            r.wf(),
            r@.initialized,
            r@.width == shape.0,
            r@.height == shape.1,
            r@.mine_count == mines@.len(),
            r@.cleared_count == 0,
            r@.flag_count == 0,
            forall|a: int, b: int|
                r@.in_bounds(a, b) ==> !(#[trigger] r@.cell(a, b)).cleared && r@.cell(a, b).mark == Mark::Unmarked,
            forall|a: int, b: int|
                #[trigger] r@.is_mine(a, b) <==> exists|i: int|
                    0 <= i < mines@.len() && mines@[i].0 == a && mines@[i].1 == b,
    {
        let n = mines.len();
        let mut g = Grid::new(shape, n);
        let ghost pre = g@;
        proof {
            assert forall|a: int, b: int| !(#[trigger] pre.is_mine(a, b)) by {
            }
            assert forall|a: int, b: int| pre.in_bounds(a, b) && !pre.is_mine(a, b) implies #[trigger] pre.cell(a, b).value
                == pre.adjacent_mines(a, b) by {
                lemma_no_mines_within(pre, a, b, 8);
            }
            assert forall|a: int, b: int|
                0 <= b < pre.cells.len() && 0 <= a < pre.cells[b].len() implies !tallied(
                #[trigger] pre.cells[b][a],
                Tally::Mine,
            ) by {
                assert(pre.in_bounds(a, b));
                assert(pre.cell(a, b) == blank_cell());
            }
            lemma_count_cells_none(pre.cells, Tally::Mine);
        }
        let mut k: usize = 0;
        while k < n
            invariant
                g.shaped(),
                n == mines@.len(),
                k <= n,
                pre.width == shape.0,
                pre.height == shape.1,
                g@.placing(pre, (n - k) as nat),
                forall|i: int| 0 <= i < n ==> (#[trigger] mines@[i]).0 < shape.0 && mines@[i].1 < shape.1,
                forall|i: int, j: int| 0 <= i < j < n ==> mines@[i] != mines@[j],
                forall|a: int, b: int|
                    #[trigger] g@.is_mine(a, b) <==> exists|i: int|
                        0 <= i < k && mines@[i].0 == a && mines@[i].1 == b,
            decreases n - k,
        {
            let (mx, my) = mines[k];
            let ghost vk = g@;
            proof {
                if vk.is_mine(mx as int, my as int) {
                    let i = choose|i: int| 0 <= i < k && mines@[i].0 == mx && mines@[i].1 == my;
                    assert(mines@[i] != mines@[k as int]);
                }
            }
            g.plant(mx, my, Ghost(pre), Ghost((n - k) as nat));
            proof {
                assert forall|a: int, b: int|
                    #[trigger] g@.is_mine(a, b) <==> exists|i: int|
                        0 <= i < k + 1 && mines@[i].0 == a && mines@[i].1 == b by {
                    if g@.is_mine(a, b) && !(a == mx && b == my) {
                        assert(vk.is_mine(a, b));
                    }
                    if exists|i: int| 0 <= i < k + 1 && mines@[i].0 == a && mines@[i].1 == b {
                        let i = choose|i: int| 0 <= i < k + 1 && mines@[i].0 == a && mines@[i].1 == b;
                        if i < k {
                            assert(vk.is_mine(a, b));
                        }
                    }
                }
            }
            k = k + 1;
        }
        let ghost vend = g@;
        g.finish_layout(Ghost(pre));
        proof {
            let v = g@;
            assert forall|a: int, b: int| #[trigger] v.is_mine(a, b) == vend.is_mine(a, b) by {
            }
            assert forall|a: int, b: int|
                v.in_bounds(a, b) implies !(#[trigger] v.cell(a, b)).cleared && v.cell(a, b).mark == Mark::Unmarked by {
                assert(vend.in_bounds(a, b));
                assert(pre.cell(a, b) == blank_cell());
                assert(v.cells == vend.cells);
                assert(vend.cell(a, b).cleared == pre.cell(a, b).cleared);
            }
        }
        g
    }

    /// Uncovers a covered, unmarked cell and counts it if it holds no mine.
    fn uncover(&mut self, x: usize, y: usize)
        requires
            old(self).wf(),
            old(self)@.initialized,
            old(self)@.is_open(x as int, y as int),
        ensures
            final(self).wf(),
            ({
                let pre = old(self)@;
                let c = pre.cell(x as int, y as int);
                final(self)@ == (GridView {
                    cells: pre.with_cell(x as int, y as int, Cell { cleared: true, ..c }),
                    cleared_count: (pre.cleared_count + indicator(c.value != -1)) as nat,
                    ..pre
                })
            }),
    {
        let ghost pre = self@;
        let c = self.cell_at(x, y);
        let nc = Cell { cleared: true, ..c };
        self.set_cell(x, y, nc);
        proof {
            lemma_count_cells_update(pre.cells, x as int, y as int, nc, Tally::Mine);
            lemma_count_cells_update(pre.cells, x as int, y as int, nc, Tally::Flag);
            lemma_count_cells_update(pre.cells, x as int, y as int, nc, Tally::ClearedSafe);
            assert forall|y2: int| 0 <= y2 < self@.height implies (#[trigger] self@.cells[y2]).len() == pre.width by {
                assert(pre.cells[y2].len() == pre.width);
            }
            lemma_count_cells_bound(self@.cells, Tally::ClearedSafe, pre.width);
            assert(pre.height * pre.width == pre.area()) by (nonlinear_arith);
        }
        if c.value != -1 {
            self.number_of_cleared = self.number_of_cleared + 1;
        }
        proof {
            let v = self@;
            assert forall|y2: int| 0 <= y2 < v.height implies (#[trigger] v.cells[y2]).len() == v.width by {
                assert(pre.cells[y2].len() == pre.width);
            }
            assert forall|a: int, b: int| v.in_bounds(a, b) implies (#[trigger] v.cell(a, b)).value == pre.cell(a, b).value by {
            }
            lemma_consistent_same(pre, v);
        }
    }

    /// Uncovers every mine, taking away its mark, to show the board after a
    /// loss. No reveal logic runs and the count of uncovered cells stays.
    #[verifier::spinoff_prover]
    pub fn reveal_mines(&mut self)
        requires
            old(self).wf(),
        ensures
            final(self).wf(),
            final(self)@ == old(self)@.with_mines_shown(),
    {
        let ghost pre = self@;
        let w = self.shape.0;
        let h = self.shape.1;
        let mut y: usize = 0;
        while y < h
            invariant
                self.wf(),
                w == pre.width,
                h == pre.height,
                y <= h,
                self@.width == pre.width,
                self@.height == pre.height,
                self@.mine_count == pre.mine_count,
                self@.cleared_count == pre.cleared_count,
                self@.initialized == pre.initialized,
                forall|a: int, b: int|
                    self@.in_bounds(a, b) ==> #[trigger] self@.cell(a, b) == if b < y {
                        shown(pre.cell(a, b))
                    } else {
                        pre.cell(a, b)
                    },
            decreases h - y,
        {
            let mut x: usize = 0;
            while x < w
                invariant
                    self.wf(),
                    w == pre.width,
                    h == pre.height,
                    y < h,
                    x <= w,
                    self@.width == pre.width,
                    self@.height == pre.height,
                    self@.mine_count == pre.mine_count,
                    self@.cleared_count == pre.cleared_count,
                    self@.initialized == pre.initialized,
                    forall|a: int, b: int|
                        self@.in_bounds(a, b) ==> #[trigger] self@.cell(a, b) == if before(a, b, x as int, y as int) {
                            shown(pre.cell(a, b))
                        } else {
                            pre.cell(a, b)
                        },
                decreases w - x,
            {
                let c = self.cell_at(x, y);
                if c.value == -1 && !c.cleared {
                    let ghost v0 = self@;
                    let nc = Cell { cleared: true, mark: Mark::Unmarked, ..c };
                    let was_flagged = c.mark == Mark::Flagged;
                    self.set_cell(x, y, nc);
                    proof {
                        lemma_count_cells_update(v0.cells, x as int, y as int, nc, Tally::Mine);
                        lemma_count_cells_update(v0.cells, x as int, y as int, nc, Tally::Flag);
                        lemma_count_cells_update(v0.cells, x as int, y as int, nc, Tally::ClearedSafe);
                        lemma_count_cells_bound(v0.cells, Tally::Flag, v0.width);
                        assert(v0.height * v0.width == v0.area()) by (nonlinear_arith);
                    }
                    if was_flagged {
                        self.number_of_flags = self.number_of_flags - 1;
                    }
                    proof {
                        let v = self@;
                        assert forall|y2: int| 0 <= y2 < v.height implies (#[trigger] v.cells[y2]).len() == v.width by {
                            assert(v0.cells[y2].len() == v0.width);
                        }
                        assert forall|a: int, b: int| v.in_bounds(a, b) implies (#[trigger] v.cell(a, b)).value == v0.cell(a, b).value by {
                        }
                        assert forall|a: int, b: int| v0.in_bounds(a, b) implies (#[trigger] v0.cell(a, b)).value == v.cell(a, b).value by {
                        }
                        if v0.initialized {
                            lemma_consistent_same(v0, v);
                        }
                        assert(v.well_formed());
                    }
                }
                x = x + 1;
            }
            y = y + 1;
        }
        proof {
            let v = self@;
            let t = pre.with_mines_shown();
            assert forall|b: int| 0 <= b < v.height implies #[trigger] v.cells[b] =~= t.cells[b] by {
                assert forall|a: int| 0 <= a < v.width implies v.cells[b][a] == #[trigger] t.cells[b][a] by {
                    assert(v.cell(a, b) == shown(pre.cell(a, b)));
                }
            }
            assert(v.cells =~= t.cells);
        }
    }

    /// Flags among the neighbours of `(x, y)`.
    fn surrounding_flags(&self, x: usize, y: usize) -> (r: i8)
        requires
            self.wf(),
            self@.in_bounds(x as int, y as int),
        ensures
            r == self@.adjacent_flags(x as int, y as int),
    {
        let mut n: i8 = 0;
        for d in 0..8
            invariant
                self.wf(),
                self@.in_bounds(x as int, y as int),
                n == self@.flags_within(x as int, y as int, d as int),
                0 <= n <= d,
        {
            match neighbor(self.shape.0, self.shape.1, x, y, d) {
                Some((nx, ny)) => {
                    let c = self.cell_at(nx, ny);
                    if c.mark == Mark::Flagged {
                        n = n + 1;
                    }
                },
                None => {},
            }
        }
        n
    }

    /// Chording: on an uncovered cell whose number equals the flags around
    /// it, reveals every neighbour. Any other call leaves the board as it is.
    /// The outcome is `Detonated` when one of the revealed neighbours was a
    /// mine, else `Revealed`.
    #[verifier::spinoff_prover]
    pub fn clear_adjacent(&mut self, x: usize, y: usize) -> (r: Outcome)
        requires
            old(self).wf(),
            old(self)@.in_bounds(x as int, y as int),
        ensures
            final(self).wf(),
            final(self)@.chorded_from(old(self)@, x as int, y as int, r),
    {
        let ghost pre = self@;
        let c = self.cell_at(x, y);
        if !c.cleared || c.value <= 0 {
            return Outcome::NoOp;
        }
        if self.surrounding_flags(x, y) != c.value {
            return Outcome::NoOp;
        }
        let mut hit = false;
        let ghost mut order: Seq<(int, int)> = Seq::empty();
        let ghost mut parent: Seq<int> = Seq::empty();
        proof {
            assert forall|a: int, b: int| #[trigger] self@.newly(pre, a, b) implies order.contains((a, b)) by {
                assert(self@ == pre);
            }
        }
        for d in 0..8
            invariant
                self.wf(),
                self@.chord_chain(pre, x as int, y as int, order, parent),
                self@.initialized,
                pre.in_bounds(x as int, y as int),
                self@.width == pre.width,
                self@.height == pre.height,
                self@.mine_count == pre.mine_count,
                self@.flag_count == pre.flag_count,
                self@.same_values(pre),
                pre.same_values(self@),
                self@.grows_from(pre),
                forall|a: int, b: int|
                    is_neighbor(x as int, y as int, a, b) && offset_index(x as int, y as int, a, b) < d
                        && #[trigger] pre.is_open(a, b) ==> self@.cell(a, b).cleared,
                forall|a: int, b: int|
                    #[trigger] self@.newly(pre, a, b) && self@.is_mine(a, b) ==> is_neighbor(x as int, y as int, a, b)
                        && offset_index(x as int, y as int, a, b) < d && pre.is_open(a, b),
                forall|a: int, b: int|
                    #[trigger] self@.newly(pre, a, b) && self@.cell(a, b).value == 0 ==> self@.closed_around(a, b),
                hit ==> exists|a: int, b: int|
                    is_neighbor(x as int, y as int, a, b) && #[trigger] pre.is_open(a, b) && pre.is_mine(a, b),
                forall|a: int, b: int|
                    is_neighbor(x as int, y as int, a, b) && offset_index(x as int, y as int, a, b) < d
                        && #[trigger] pre.is_open(a, b) && pre.is_mine(a, b) ==> hit,
        {
            let ghost v1 = self@;
            match neighbor(self.shape.0, self.shape.1, x, y, d) {
                Some((nx, ny)) => {
                    let r = self.set_cleared(nx, ny);
                    if r == Outcome::Detonated {
                        hit = true;
                    }
                    proof {
                        let v2 = self@;
                        let (na, nb) = (nx as int, ny as int);
                        assert(offset_index(x as int, y as int, na, nb) == d);
                        assert forall|a: int, b: int| v2.in_bounds(a, b) implies (#[trigger] v2.cell(a, b)).value == pre.cell(a, b).value by {
                            assert(v1.cell(a, b).value == pre.cell(a, b).value);
                        }
                        assert forall|a: int, b: int| pre.in_bounds(a, b) implies (#[trigger] pre.cell(a, b)).value == v2.cell(a, b).value by {
                            assert(v1.cell(a, b).value == pre.cell(a, b).value);
                        }
                        assert forall|a: int, b: int| v2.in_bounds(a, b) implies (#[trigger] v2.cell(a, b)).mark == pre.cell(a, b).mark && (pre.cell(a, b).cleared ==> v2.cell(a, b).cleared) by {
                            assert(v1.cell(a, b).mark == pre.cell(a, b).mark);
                        }
                        assert(v2.grows_from(v1));
                        assert forall|a: int, b: int| #[trigger] v2.newly(pre, a, b) implies v1.newly(pre, a, b) || v2.newly(v1, a, b) by {
                        }
                        assert forall|a: int, b: int|
                            is_neighbor(x as int, y as int, a, b) && offset_index(x as int, y as int, a, b) < d + 1
                                && #[trigger] pre.is_open(a, b) implies v2.cell(a, b).cleared by {
                            lemma_offset_index(x as int, y as int, a, b);
                            if offset_index(x as int, y as int, a, b) < d {
                                assert(v1.cell(a, b).cleared);
                            } else {
                                assert(a == na && b == nb);
                                if !v1.is_open(a, b) {
                                    assert(v1.cell(a, b).cleared);
                                } else {
                                    assert(v2.revealed_from(v1, na, nb, r));
                                    if v2.is_mine(na, nb) {
                                        assert(v2.newly(v1, na, nb));
                                    } else {
                                        assert(v2.flooded_from(v1, na, nb));
                                        assert(v2.newly(v1, na, nb));
                                    }
                                }
                            }
                        }
                        assert forall|a: int, b: int|
                            #[trigger] v2.newly(pre, a, b) && v2.is_mine(a, b) implies is_neighbor(x as int, y as int, a, b)
                                && offset_index(x as int, y as int, a, b) < d + 1 && pre.is_open(a, b) by {
                            assert(v1.is_mine(a, b) == v2.is_mine(a, b));
                            if v1.newly(pre, a, b) {
                            } else {
                                assert(v2.newly(v1, a, b));
                                if r == Outcome::Revealed {
                                    assert(!v2.is_mine(a, b));
                                }
                                assert(a == na && b == nb);
                            }
                        }
                        assert forall|a: int, b: int|
                            #[trigger] v2.newly(pre, a, b) && v2.cell(a, b).value == 0 implies v2.closed_around(a, b) by {
                            if v1.newly(pre, a, b) {
                                assert(v1.cell(a, b).value == v2.cell(a, b).value);
                                lemma_closed_around_grows(v1, v2, a, b);
                            } else {
                                assert(v2.newly(v1, a, b));
                                if r == Outcome::Revealed {
                                    assert forall|c: int, e: int| is_neighbor(a, b, c, e) && v2.in_bounds(c, e) implies #[trigger] v2.is_closed(c, e) by {
                                        assert(v2.newly(v1, a, b) && v2.cell(a, b).value == 0 && is_neighbor(a, b, c, e) && v2.in_bounds(c, e));
                                        assert(v2.cell(c, e) == v2.cell(c, e));
                                    }
                                } else {
                                    assert(a == na && b == nb);
                                }
                            }
                        }
                        if r == Outcome::Detonated {
                            assert(v1.is_open(na, nb));
                            assert(pre.is_open(na, nb));
                            assert(pre.is_mine(na, nb));
                        }
                        let (o, p) = lemma_chord_chain_step(pre, v1, v2, x as int, y as int, na, nb, r, order, parent);
                        order = o;
                        parent = p;
                        assert(v2.chord_chain(pre, x as int, y as int, order, parent));
                        assert forall|a: int, b: int|
                            is_neighbor(x as int, y as int, a, b) && offset_index(x as int, y as int, a, b) < d + 1
                                && #[trigger] pre.is_open(a, b) && pre.is_mine(a, b) implies hit by {
                            lemma_offset_index(x as int, y as int, a, b);
                            if offset_index(x as int, y as int, a, b) == d {
                                assert(a == na && b == nb);
                                assert(v1.is_mine(a, b));
                                if v1.cell(a, b).cleared {
                                    assert(v1.newly(pre, a, b));
                                }
                                assert(v1.is_open(a, b));
                            }
                        }
                    }
                },
                None => {
                    proof {
                        assert forall|a: int, b: int|
                            is_neighbor(x as int, y as int, a, b) && offset_index(x as int, y as int, a, b) < d + 1
                                && #[trigger] pre.is_open(a, b) implies self@.cell(a, b).cleared by {
                            lemma_offset_index(x as int, y as int, a, b);
                        }
                        assert forall|a: int, b: int|
                            is_neighbor(x as int, y as int, a, b) && offset_index(x as int, y as int, a, b) < d + 1
                                && #[trigger] pre.is_open(a, b) && pre.is_mine(a, b) implies hit by {
                            lemma_offset_index(x as int, y as int, a, b);
                        }
                    }
                },
            }
        }
        proof {
            assert(self@.chord_chain(pre, x as int, y as int, order, parent));
            assert forall|a: int, b: int|
                is_neighbor(x as int, y as int, a, b) && #[trigger] pre.is_open(a, b) implies self@.cell(a, b).cleared by {
                lemma_offset_index(x as int, y as int, a, b);
            }
            assert forall|a: int, b: int|
                is_neighbor(x as int, y as int, a, b) && #[trigger] pre.is_open(a, b) && pre.is_mine(a, b) implies hit by {
                lemma_offset_index(x as int, y as int, a, b);
            }
        }
        if hit {
            Outcome::Detonated
        } else {
            Outcome::Revealed
        }
    }

    /// Uncovers the cell in column `x` and row `y`. The first reveal on the
    /// board lays out the mines (see `lay_mines`). A cell that is uncovered
    /// or marked is left alone; otherwise it is uncovered, and when no mine
    /// lies around it the flood goes on through its neighbours.
    #[verifier::spinoff_prover]
    pub fn set_cleared(&mut self, x: usize, y: usize) -> (r: Outcome)
        requires
            old(self).wf(),
            old(self)@.in_bounds(x as int, y as int),
        ensures
            final(self).wf(),
            final(self)@.reveal_result(old(self)@, x as int, y as int, r),
    {
        let ghost start = self@;
        if !self.initialized {
            self.lay_mines(x, y);
        }
        let ghost laid = self@;
        proof {
            if start.initialized {
                assert(laid == start);
            }
            assert forall|a: int, b: int| laid.in_bounds(a, b) implies (#[trigger] laid.cell(a, b)).value == start.cell(a, b).value || !start.initialized by {
            }
        }
        let c = self.cell_at(x, y);
        if c.cleared || c.mark != Mark::Unmarked {
            proof {
                assert forall|a: int, b: int| !(#[trigger] laid.newly(start, a, b)) by {
                }
            }
            return Outcome::NoOp;
        }
        self.uncover(x, y);
        proof {
            let v = self@;
            assert forall|a: int, b: int| v.in_bounds(a, b) implies (#[trigger] v.cell(a, b)).value == laid.cell(a, b).value by {
            }
            assert forall|a: int, b: int| #[trigger] v.newly(start, a, b) <==> (a == x && b == y) by {
            }
            if start.initialized {
                assert(v.same_values(start));
            }
            assert(v.is_mine(x as int, y as int) == (c.value == -1));
        }
        if c.value == -1 {
            return Outcome::Detonated;
        }
        if c.value == 0 {
            let ghost before = self@;
            self.flood(x, y, Ghost(start));
            proof {
                let v = self@;
                if start.initialized {
                    assert forall|a: int, b: int| v.in_bounds(a, b) implies (#[trigger] v.cell(a, b)).value == start.cell(a, b).value by {
                        assert(before.cell(a, b).value == v.cell(a, b).value);
                    }
                }
                assert forall|a: int, b: int| v.in_bounds(a, b) implies #[trigger] v.is_mine(a, b) == laid.is_mine(a, b) by {
                    assert(before.cell(a, b).value == v.cell(a, b).value);
                }
                if !start.initialized {
                    assert(v.safe_start(x as int, y as int));
                }
                assert(v.grows_from(start));
                assert(start.is_open(x as int, y as int));
                assert(v.cell(x as int, y as int).value == 0);
                assert(!v.is_mine(x as int, y as int));
                assert(v.flooded_from(start, x as int, y as int));
                assert(v.revealed_from(start, x as int, y as int, Outcome::Revealed));
                assert(v.reveal_result(start, x as int, y as int, Outcome::Revealed));
            }
        } else {
            proof {
                let v = self@;
                let order = seq![(x as int, y as int)];
                let parent = seq![0int];
                assert forall|a: int, b: int| #[trigger] v.newly(start, a, b) implies order.contains((a, b)) by {
                    assert(order[0] == (a, b));
                }
                assert(v.flood_chain(start, x as int, y as int, order, parent));
                assert(v.flooded_from(start, x as int, y as int));
                assert(v.revealed_from(start, x as int, y as int, Outcome::Revealed));
                assert(v.reveal_result(start, x as int, y as int, Outcome::Revealed));
            }
        }
        Outcome::Revealed
    }

    /// Uncovers every cell that a flood from `(x, y)` reaches, where `(x, y)`
    /// has just been uncovered and has no mine around it. The pending cells
    /// wait on an explicit work-list, so the depth of the call stack does not
    /// grow with the board.
    #[verifier::spinoff_prover]
    fn flood(&mut self, x: usize, y: usize, Ghost(pre): Ghost<GridView>)
        requires
            old(self).wf(),
            old(self)@.initialized,
            pre.is_open(x as int, y as int),
            pre.width == old(self)@.width,
            pre.height == old(self)@.height,
            forall|a: int, b: int|
                old(self)@.in_bounds(a, b) ==> (#[trigger] old(self)@.cell(a, b)).mark == pre.cell(a, b).mark
                    && old(self)@.cell(a, b).cleared == (pre.cell(a, b).cleared || (a == x && b == y)),
            old(self)@.cell(x as int, y as int).value == 0,
        ensures
            final(self).wf(),
            final(self)@.initialized,
            final(self)@.same_values(old(self)@),
            final(self)@.mine_count == old(self)@.mine_count,
            final(self)@.flag_count == old(self)@.flag_count,
            final(self)@.grows_from(pre),
            final(self)@.flooded_from(pre, x as int, y as int),
    {
        let ghost start = self@;
        let w = self.shape.0;
        let h = self.shape.1;
        let area = w * h;
        let mut stack: Vec<(usize, usize)> = Vec::new();
        stack.push((x, y));
        let ghost mut order: Seq<(int, int)> = seq![(x as int, y as int)];
        let ghost mut parent: Seq<int> = seq![0int];
        proof {
            assert forall|a: int, b: int| #[trigger] start.newly(pre, a, b) implies order.contains((a, b)) by {
                assert(order[0] == (a, b));
            }
            assert(in_stack(stack@, x as int, y as int)) by {
                assert(stack@[0] == (x, y));
            }
            lemma_count_cells_bound(start.cells, Tally::ClearedSafe, start.width);
            assert(start.height * start.width == area) by (nonlinear_arith)
                requires
                    area == w * h,
                    start.height == h,
                    start.width == w,
            ;
            assert(start.grows_from(pre));
        }
        while stack.len() > 0
            invariant
                self.wf(),
                self@.initialized,
                w == self@.width,
                h == self@.height,
                area == w * h,
                self.number_of_cleared <= area,
                self@.same_values(start),
                start.same_values(self@),
                self@.mine_count == start.mine_count,
                self@.flag_count == start.flag_count,
                pre.width == w,
                pre.height == h,
                self@.grows_from(pre),
                self@.flood_chain(pre, x as int, y as int, order, parent),
                forall|a: int, b: int|
                    #[trigger] self@.newly(pre, a, b) ==> pre.cell(a, b).mark == Mark::Unmarked && !self@.is_mine(a, b),
                forall|i: int|
                    0 <= i < stack@.len() ==> {
                        let p = #[trigger] stack@[i];
                        self@.newly(pre, p.0 as int, p.1 as int) && self@.cell(p.0 as int, p.1 as int).value == 0
                    },
                forall|a: int, b: int|
                    #[trigger] self@.newly(pre, a, b) && self@.cell(a, b).value == 0 && !in_stack(stack@, a, b)
                        ==> self@.closed_around(a, b),
            decreases 9 * (area - self.number_of_cleared) + stack@.len(),
        {
            let ghost m0 = 9 * (area - self.number_of_cleared) + stack@.len();
            let ghost s0 = stack@;
            let (cx, cy) = stack.pop().unwrap();
            proof {
                assert(s0[s0.len() - 1] == (cx, cy));
                assert(stack@ == s0.drop_last());
                assert(self@.newly(pre, cx as int, cy as int));
                assert forall|a: int, b: int|
                    #[trigger] self@.newly(pre, a, b) && self@.cell(a, b).value == 0 && !in_stack(stack@, a, b)
                        && !(a == cx && b == cy) implies self@.closed_around(a, b) by {
                    if in_stack(s0, a, b) {
                        let i = choose|i: int| 0 <= i < s0.len() && s0[i].0 == a && s0[i].1 == b;
                        assert(i < s0.len() - 1);
                        assert(stack@[i] == s0[i]);
                    }
                }
            }
            let ghost pi = choose|i: int| 0 <= i < order.len() && order[i] == (cx as int, cy as int);
            for d in 0..8
                invariant
                    self.wf(),
                    self@.initialized,
                    w == self@.width,
                    h == self@.height,
                    area == w * h,
                    self.number_of_cleared <= area,
                    self@.same_values(start),
                    start.same_values(self@),
                    self@.mine_count == start.mine_count,
                    self@.flag_count == start.flag_count,
                    pre.width == w,
                    pre.height == h,
                    self@.grows_from(pre),
                    self@.flood_chain(pre, x as int, y as int, order, parent),
                    forall|a: int, b: int|
                        #[trigger] self@.newly(pre, a, b) ==> pre.cell(a, b).mark == Mark::Unmarked && !self@.is_mine(a, b),
                    forall|i: int|
                        0 <= i < stack@.len() ==> {
                            let p = #[trigger] stack@[i];
                            self@.newly(pre, p.0 as int, p.1 as int) && self@.cell(p.0 as int, p.1 as int).value == 0
                        },
                    forall|a: int, b: int|
                        #[trigger] self@.newly(pre, a, b) && self@.cell(a, b).value == 0 && !in_stack(stack@, a, b)
                            && !(a == cx && b == cy) ==> self@.closed_around(a, b),
                    self@.newly(pre, cx as int, cy as int),
                    self@.cell(cx as int, cy as int).value == 0,
                    0 <= pi < order.len(),
                    order[pi] == (cx as int, cy as int),
                    self@.closed_upto(cx as int, cy as int, d as int),
                    9 * (area - self.number_of_cleared) + stack@.len() < m0,
            {
                let ghost v0 = self@;
                let ghost st0 = stack@;
                match neighbor(w, h, cx, cy, d) {
                    Some((nx, ny)) => {
                        let n = self.cell_at(nx, ny);
                        if !n.cleared && n.mark == Mark::Unmarked {
                            proof {
                                assert(v0.cell(cx as int, cy as int).value == v0.adjacent_mines(cx as int, cy as int));
                                lemma_zero_no_mines(v0, cx as int, cy as int, 8, d as int);
                                lemma_count_cells_bound(v0.cells, Tally::ClearedSafe, v0.width);
                                assert(v0.height * v0.width == area) by (nonlinear_arith)
                                    requires
                                        area == w * h,
                                        v0.height == h,
                                        v0.width == w,
                                ;
                                assert(!pre.cell(nx as int, ny as int).cleared);
                            }
                            self.uncover(nx, ny);
                            proof {
                                lemma_count_cells_bound(self@.cells, Tally::ClearedSafe, v0.width);
                                assert forall|y2: int| 0 <= y2 < self@.height implies (#[trigger] self@.cells[y2]).len() == self@.width by {
                                }
                                assert(v0.height * v0.width == area) by (nonlinear_arith)
                                    requires
                                        area == w * h,
                                        v0.height == h,
                                        v0.width == w,
                                ;
                            }
                            if n.value == 0 {
                                stack.push((nx, ny));
                            }
                            proof {
                                let v = self@;
                                let n2 = (nx as int, ny as int);
                                let o0 = order;
                                let p0 = parent;
                                order = order.push(n2);
                                parent = parent.push(pi);
                                assert(v.grows_from(v0));
                                assert forall|a: int, b: int| v.in_bounds(a, b) implies (#[trigger] v.cell(a, b)).value == start.cell(a, b).value by {
                                    assert(v0.cell(a, b).value == start.cell(a, b).value);
                                }
                                assert forall|a: int, b: int| start.in_bounds(a, b) implies (#[trigger] start.cell(a, b)).value == v.cell(a, b).value by {
                                    assert(v0.cell(a, b).value == start.cell(a, b).value);
                                }
                                assert forall|a: int, b: int| v.in_bounds(a, b) implies (#[trigger] v.cell(a, b)).mark == pre.cell(a, b).mark && (pre.cell(a, b).cleared ==> v.cell(a, b).cleared) by {
                                    assert(v0.cell(a, b).mark == pre.cell(a, b).mark);
                                }
                                assert forall|a: int, b: int| #[trigger] v.newly(pre, a, b) implies v0.newly(pre, a, b) || (a == nx && b == ny) by {
                                }
                                assert forall|k: int| 0 <= k < order.len() implies v.newly(pre, (#[trigger] order[k]).0, order[k].1) by {
                                    if k < o0.len() {
                                        assert(o0[k] == order[k]);
                                        assert(v0.newly(pre, o0[k].0, o0[k].1));
                                    }
                                }
                                assert forall|k: int| 1 <= k < order.len() implies {
                                    let p = order[#[trigger] parent[k]];
                                    &&& 0 <= parent[k] < k
                                    &&& is_neighbor(p.0, p.1, order[k].0, order[k].1)
                                    &&& v.cell(p.0, p.1).value == 0
                                } by {
                                    if k < o0.len() {
                                        assert(p0[k] == parent[k]);
                                        assert(o0[k] == order[k]);
                                        assert(o0[p0[k]] == order[parent[k]]);
                                        let p = o0[p0[k]];
                                        assert(v0.newly(pre, p.0, p.1));
                                        assert(v0.cell(p.0, p.1).value == start.cell(p.0, p.1).value);
                                    } else {
                                        assert(order[parent[k]] == (cx as int, cy as int));
                                    }
                                }
                                assert forall|a: int, b: int| #[trigger] v.newly(pre, a, b) implies order.contains((a, b)) by {
                                    if a == nx && b == ny {
                                        assert(order[o0.len() as int] == (a, b));
                                    } else {
                                        assert(v0.newly(pre, a, b));
                                        assert(o0.contains((a, b)));
                                        let i = choose|i: int| 0 <= i < o0.len() && o0[i] == (a, b);
                                        assert(order[i] == (a, b));
                                    }
                                }
                                assert(v.flood_chain(pre, x as int, y as int, order, parent));
                                assert forall|a: int, b: int| #[trigger] v.newly(pre, a, b) implies pre.cell(a, b).mark == Mark::Unmarked && !v.is_mine(a, b) by {
                                    if !(a == nx && b == ny) {
                                        assert(v0.newly(pre, a, b));
                                    }
                                    assert(v0.cell(a, b).value == v.cell(a, b).value);
                                }
                                assert forall|i: int| 0 <= i < stack@.len() implies {
                                    let p = #[trigger] stack@[i];
                                    v.newly(pre, p.0 as int, p.1 as int) && v.cell(p.0 as int, p.1 as int).value == 0
                                } by {
                                    if i < st0.len() {
                                        assert(stack@[i] == st0[i]);
                                        let p = st0[i];
                                        assert(v0.newly(pre, p.0 as int, p.1 as int));
                                        assert(v0.cell(p.0 as int, p.1 as int).value == v.cell(p.0 as int, p.1 as int).value);
                                    }
                                }
                                assert forall|a: int, b: int|
                                    #[trigger] v.newly(pre, a, b) && v.cell(a, b).value == 0 && !in_stack(stack@, a, b)
                                        && !(a == cx && b == cy) implies v.closed_around(a, b) by {
                                    if a == nx && b == ny {
                                        if n.value == 0 {
                                            assert(stack@[stack@.len() - 1] == (nx, ny));
                                        }
                                    } else {
                                        assert(v0.newly(pre, a, b));
                                        assert(v0.cell(a, b).value == v.cell(a, b).value);
                                        if in_stack(st0, a, b) {
                                            let i = choose|i: int| 0 <= i < st0.len() && st0[i].0 == a && st0[i].1 == b;
                                            assert(stack@[i] == st0[i]);
                                        }
                                        lemma_closed_around_grows(v0, v, a, b);
                                    }
                                }
                                lemma_closed_upto_grows(v0, v, cx as int, cy as int, d as int);
                                assert(v.is_closed(nx as int, ny as int));
                                assert(v.closed_upto(cx as int, cy as int, d + 1));
                            }
                        } else {
                            proof {
                                assert(v0.is_closed(nx as int, ny as int));
                            }
                        }
                    },
                    None => {
                    },
                }
            }
            proof {
                lemma_closed_upto_all(self@, cx as int, cy as int);
            }
        }
        proof {
            let v = self@;
            assert(v.flood_chain(pre, x as int, y as int, order, parent));
            assert forall|a: int, b: int, c: int, d: int|
                #![trigger v.newly(pre, a, b), v.cell(c, d)]
                v.newly(pre, a, b) && v.cell(a, b).value == 0 && is_neighbor(a, b, c, d) && v.in_bounds(c, d)
                    implies v.cell(c, d).cleared || v.cell(c, d).mark != Mark::Unmarked by {
                assert(!in_stack(stack@, a, b));
                assert(v.closed_around(a, b));
                assert(v.is_closed(c, d));
            }
        }
    }

    /// The cell in column `x` and row `y`, by value.
    fn cell_at(&self, x: usize, y: usize) -> (r: Cell)
        requires
            self.shaped(),
            x < self@.width,
            y < self@.height,
        ensures
            r == self@.cell(x as int, y as int),
    {
        proof {
            self.lemma_view_cell(x as int, y as int);
        }
        self.grid[y * self.shape.0 + x]
    }

    /// Lays a mine at `(px, py)` and raises the numbers around it.
    #[verifier::spinoff_prover]
    fn plant(&mut self, px: usize, py: usize, Ghost(pre): Ghost<GridView>, Ghost(left): Ghost<nat>)
        requires
            old(self).shaped(),
            old(self)@.placing(pre, left),
            left >= 1,
            old(self)@.in_bounds(px as int, py as int),
            !old(self)@.is_mine(px as int, py as int),
        ensures
            final(self).shaped(),
            final(self)@.placing(pre, (left - 1) as nat),
            forall|x: int, y: int|
                #[trigger] final(self)@.is_mine(x, y) == (old(self)@.is_mine(x, y) || (x == px && y == py)),
    {
        let ghost v0 = self@;
        let w = self.shape.0;
        let h = self.shape.1;
        let c = self.cell_at(px, py);
        let mine = Cell { value: -1, ..c };
        self.set_cell(px, py, mine);
        let ghost v1 = self@;
        proof {
            lemma_count_cells_update(v0.cells, px as int, py as int, mine, Tally::Mine);
            lemma_count_cells_update(v0.cells, px as int, py as int, mine, Tally::Flag);
            lemma_count_cells_update(v0.cells, px as int, py as int, mine, Tally::ClearedSafe);
            assert forall|x: int, y: int| #[trigger] v1.is_mine(x, y) == (v0.is_mine(x, y) || (x == px && y == py)) by {
            }
            assert forall|y: int| 0 <= y < v1.height implies (#[trigger] v1.cells[y]).len() == v1.width by {
                assert(v0.cells[y].len() == v0.width);
            }
        }
        for d in 0..8
            invariant
                self.shaped(),
                w == self@.width,
                h == self@.height,
                v0.placing(pre, left),
                v1.width == v0.width,
                v1.height == v0.height,
                v0.in_bounds(px as int, py as int),
                !v0.is_mine(px as int, py as int),
                forall|x: int, y: int| #[trigger] v1.is_mine(x, y) == (v0.is_mine(x, y) || (x == px && y == py)),
                self@.width == v0.width,
                self@.height == v0.height,
                self@.cells.len() == v0.cells.len(),
                forall|y: int| 0 <= y < self@.height ==> (#[trigger] self@.cells[y]).len() == self@.width,
                self@.mine_count == v0.mine_count,
                self@.cleared_count == v0.cleared_count,
                self@.flag_count == v0.flag_count,
                !self@.initialized,
                self@.num_mines() == v0.num_mines() + 1,
                self@.num_flagged() == v0.num_flagged(),
                self@.num_cleared_safe() == v0.num_cleared_safe(),
                forall|x: int, y: int| #[trigger] self@.is_mine(x, y) == v1.is_mine(x, y),
                forall|x: int, y: int|
                    self@.in_bounds(x, y) ==> {
                        let c = #[trigger] self@.cell(x, y);
                        &&& -1 <= c.value <= 8
                        &&& c.cleared == v0.cell(x, y).cleared
                        &&& c.mark == v0.cell(x, y).mark
                        &&& c.value != -1 ==> c.value == v0.adjacent_mines(x, y) + hits_from(
                            px as int,
                            py as int,
                            x,
                            y,
                            d as int,
                        )
                    },
        {
            let ghost vd = self@;
            match neighbor(w, h, px, py, d) {
                Some((nx, ny)) => {
                    let n = self.cell_at(nx, ny);
                    if n.value != -1 {
                        proof {
                            assert(!vd.is_mine(nx as int, ny as int));
                            lemma_add_mine(v0, v1, px as int, py as int, nx as int, ny as int);
                            lemma_mines_within_bound(v1, nx as int, ny as int, 8);
                            lemma_hits_mono(px as int, py as int, nx as int, ny as int, d as int + 1, 8);
                            lemma_hits_all(px as int, py as int, nx as int, ny as int);
                            assert(v0.cell(nx as int, ny as int).value != -1);
                        }
                        let bumped = Cell { value: n.value + 1, ..n };
                        self.set_cell(nx, ny, bumped);
                        proof {
                            lemma_count_cells_update(vd.cells, nx as int, ny as int, bumped, Tally::Mine);
                            lemma_count_cells_update(vd.cells, nx as int, ny as int, bumped, Tally::Flag);
                            lemma_count_cells_update(vd.cells, nx as int, ny as int, bumped, Tally::ClearedSafe);
                            assert forall|y: int| 0 <= y < self@.height implies (#[trigger] self@.cells[y]).len() == self@.width by {
                                assert(vd.cells[y].len() == vd.width);
                            }
                            assert forall|x: int, y: int| #[trigger] self@.is_mine(x, y) == v1.is_mine(x, y) by {
                                assert(vd.is_mine(x, y) == v1.is_mine(x, y));
                            }
                            assert forall|x: int, y: int| self@.in_bounds(x, y) implies {
                                let c = #[trigger] self@.cell(x, y);
                                &&& -1 <= c.value <= 8
                                &&& c.cleared == v0.cell(x, y).cleared
                                &&& c.mark == v0.cell(x, y).mark
                                &&& c.value != -1 ==> c.value == v0.adjacent_mines(x, y) + hits_from(
                                    px as int,
                                    py as int,
                                    x,
                                    y,
                                    d as int + 1,
                                )
                            } by {
                                assert(vd.in_bounds(x, y));
                                let c0 = vd.cell(x, y);
                                if x == nx && y == ny {
                                } else {
                                    assert(self@.cell(x, y) == c0);
                                }
                            }
                        }
                    } else {
                        proof {
                            assert forall|x: int, y: int| self@.in_bounds(x, y) implies {
                                let c = #[trigger] self@.cell(x, y);
                                c.value != -1 ==> c.value == v0.adjacent_mines(x, y) + hits_from(
                                    px as int,
                                    py as int,
                                    x,
                                    y,
                                    d as int + 1,
                                )
                            } by {
                            }
                        }
                    }
                },
                None => {
                    proof {
                        assert forall|x: int, y: int| self@.in_bounds(x, y) implies {
                            let c = #[trigger] self@.cell(x, y);
                            c.value != -1 ==> c.value == v0.adjacent_mines(x, y) + hits_from(
                                px as int,
                                py as int,
                                x,
                                y,
                                d as int + 1,
                            )
                        } by {
                        }
                    }
                },
            }
        }
        proof {
            let v = self@;
            assert forall|x: int, y: int| v.in_bounds(x, y) && !v.is_mine(x, y) implies #[trigger] v.cell(x, y).value
                == v.adjacent_mines(x, y) by {
                lemma_hits_all(px as int, py as int, x, y);
                lemma_add_mine(v0, v1, px as int, py as int, x, y);
                lemma_mines_within_same(v, v1, x, y, 8);
                assert(!v0.is_mine(x, y));
            }
            assert forall|x: int, y: int| v.in_bounds(x, y) implies {
                let c = #[trigger] v.cell(x, y);
                &&& c.cleared == pre.cell(x, y).cleared
                &&& c.mark == pre.cell(x, y).mark
            } by {
                assert(v0.in_bounds(x, y));
            }
        }
    }

    /// Replaces the cell in column `x` and row `y`.
    fn set_cell(&mut self, x: usize, y: usize, c: Cell)
        requires
            old(self).shaped(),
            x < old(self)@.width,
            y < old(self)@.height,
        ensures
            final(self).shaped(),
            final(self)@ == (GridView {
                cells: old(self)@.cells.update(y as int, old(self)@.cells[y as int].update(x as int, c)),
                ..old(self)@
            }),
    {
        proof {
            self.lemma_view_cell(x as int, y as int);
        }
        let i = y * self.shape.0 + x;
        let ghost pre = *self;
        self.grid.set(i, c);
        proof {
            let w = self.shape.0 as int;
            let target = pre@.cells.update(y as int, pre@.cells[y as int].update(x as int, c));
            assert forall|yy: int| 0 <= yy < self.shape.1 implies #[trigger] self@.cells[yy] =~= target[yy] by {
                assert forall|xx: int| 0 <= xx < w implies self@.cells[yy][xx] == #[trigger] target[yy][xx] by {
                    pre.lemma_view_cell(xx, yy);
                    if yy * w + xx == y * w + x {
                        lemma_index_injective(w, xx, yy, x as int, y as int);
                    }
                }
            }
            assert(self@.cells =~= target);
        }
    }
}

} // verus!
