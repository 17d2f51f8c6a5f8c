//! Properties that hold across calls, stated over the views that the
//! operations' own contracts use.
use crate::game::{concluded, Game, GameState};
use crate::board::{excluded, is_neighbor, GridView};
use crate::grid::{Mark, Outcome};
use vstd::prelude::*;

verus! {

/// After the first reveal the board holds exactly its number of mines, and
/// they spare the revealed cell and its neighbours, unless too few cells lie
/// away from those (then only the revealed cell is spared, where the board
/// is not all mines).
pub proof fn first_reveal_layout(pre: GridView, post: GridView, x: int, y: int, r: Outcome)
    requires
        !pre.initialized,
        post.well_formed(),
        post.reveal_result(pre, x, y, r),
    ensures
        post.num_mines() == post.mine_count,
        post.mine_count <= post.cells_outside_zone(x, y) ==> forall|a: int, b: int|
            #![trigger post.is_mine(a, b)]
            excluded(2, x, y, a, b) ==> !post.is_mine(a, b),
        post.mine_count < post.area() ==> !post.is_mine(x, y),
{
}

/// A reveal that floods leaves no open cell next to an uncovered cell with
/// no mine around it, and uncovers no mine.
pub proof fn flood_is_maximal(pre: GridView, post: GridView, x: int, y: int, r: Outcome)
    requires
        post.reveal_result(pre, x, y, r),
        r == Outcome::Revealed,
    ensures
        forall|a: int, b: int, c: int, d: int|
            #![trigger post.newly(pre, a, b), pre.is_open(c, d)]
            post.newly(pre, a, b) && post.cell(a, b).value == 0 && is_neighbor(a, b, c, d) && pre.is_open(c, d)
                ==> post.cell(c, d).cleared,
        forall|a: int, b: int| #[trigger] post.newly(pre, a, b) ==> !post.is_mine(a, b),
{
    assert forall|a: int, b: int, c: int, d: int|
        #![trigger post.newly(pre, a, b), pre.is_open(c, d)]
        post.newly(pre, a, b) && post.cell(a, b).value == 0 && is_neighbor(a, b, c, d) && pre.is_open(c, d)
            implies post.cell(c, d).cleared by {
        assert(post.cell(c, d).mark == pre.cell(c, d).mark);
    }
}

/// A move that uncovers the last cell without a mine, and no mine, wins.
pub proof fn last_reveal_wins(g: Game, b: GridView, o: Outcome, start: u64, now: u64)
    requires
        concluded(g, b, o, start, now),
        o != Outcome::Detonated,
        b.is_complete(),
    ensures
        g.state() == GameState::Won,
{
}

/// Chording where the flags around the cell do not match its number changes
/// nothing.
pub proof fn chord_mismatch_changes_nothing(pre: GridView, post: GridView, x: int, y: int, r: Outcome)
    requires
        post.chorded_from(pre, x, y, r),
        pre.adjacent_flags(x, y) != pre.cell(x, y).value,
    ensures
        r == Outcome::NoOp,
        post == pre,
{
}

/// On a consistent board a cell holds at most one of flag and question mark,
/// and an uncovered cell holds neither.
pub proof fn marks_exclusive(v: GridView, x: int, y: int)
    requires
        v.well_formed(),
        v.in_bounds(x, y),
    ensures
        !(v.cell(x, y).mark == Mark::Flagged && v.cell(x, y).mark == Mark::Questioned),
        v.cell(x, y).cleared ==> v.cell(x, y).mark != Mark::Flagged && v.cell(x, y).mark != Mark::Questioned,
{
}

/// Revealing the same cell twice: the second reveal is a `NoOp` and changes
/// nothing.
pub proof fn reveal_is_idempotent(
    pre: GridView,
    mid: GridView,
    post: GridView,
    x: int,
    y: int,
    r1: Outcome,
    r2: Outcome,
)
    requires
        pre.in_bounds(x, y),
        mid.reveal_result(pre, x, y, r1),
        post.reveal_result(mid, x, y, r2),
    ensures
        r2 == Outcome::NoOp,
        post == mid,
{
    assert(mid.cell(x, y).mark == pre.cell(x, y).mark);
    if pre.is_open(x, y) {
        if mid.is_mine(x, y) {
            assert(mid.newly(pre, x, y));
        } else {
            assert(mid.flooded_from(pre, x, y));
        }
    }
    assert(!mid.is_open(x, y));
}

} // verus!
