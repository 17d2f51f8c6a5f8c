use crate::board::GridView;
use crate::grid::{Grid, Outcome};
use crate::settings::{Action, Direction};
use vstd::prelude::*;

verus! {

/// Where a game stands; every state but `Playing` is final.
#[derive(Clone, Copy, Debug, PartialEq, Eq, Structural)]
pub enum GameState {
    Won,
    Lost,
    Playing,
    Abandoned,
}

impl GameState {
    /// The state's name, as scores record it.
    pub fn name(&self) -> (r: String)
        ensures
            r@ == match self {
                GameState::Won => "Won"@,
                GameState::Lost => "Lost"@,
                GameState::Playing => "Playing"@,
                GameState::Abandoned => "Abandoned"@,
            },
    {
        match self {
            GameState::Won => "Won".to_owned(),
            GameState::Lost => "Lost".to_owned(),
            GameState::Playing => "Playing".to_owned(),
            GameState::Abandoned => "Abandoned".to_owned(),
        }
    }
}

/// Milliseconds from `start` to `now`; none if the clock went back.
pub open spec fn elapsed(start: u64, now: u64) -> u64 {
    if now >= start {
        (now - start) as u64
    } else {
        0
    }
}

/// One step from `sel` in direction `dir` on a `w` by `h` board, staying put
/// at the edge.
pub open spec fn moved(sel: (usize, usize), dir: Direction, w: nat, h: nat) -> (usize, usize) {
    match dir {
        Direction::Left => if sel.0 > 0 {
            ((sel.0 - 1) as usize, sel.1)
        } else {
            sel
        },
        Direction::Right => if sel.0 + 1 < w {
            ((sel.0 + 1) as usize, sel.1)
        } else {
            sel
        },
        Direction::Up => if sel.1 > 0 {
            (sel.0, (sel.1 - 1) as usize)
        } else {
            sel
        },
        Direction::Down => if sel.1 + 1 < h {
            (sel.0, (sel.1 + 1) as usize)
        } else {
            sel
        },
    }
}

/// A game: a board, the selected cell, the state, the time it started (in
/// milliseconds of some clock) and, once over, how long it lasted.
pub struct Game {
    grid: Grid,
    last_hovered_cell: Option<(usize, usize)>,
    game_state: GameState,
    time: u64,
    final_time: Option<u64>,
}

/// `g` is where a move on the board that left `b` with outcome `o` takes a
/// game that started at `start`: lost on a mine, with all mines shown; won
/// when no covered cell without a mine is left; else still playing.
pub open spec fn concluded(g: Game, b: GridView, o: Outcome, start: u64, now: u64) -> bool {
    if o == Outcome::Detonated {
        &&& g.state() == GameState::Lost
        &&& g.board() == b.with_mines_shown()
        &&& g.final_elapsed() == Some(elapsed(start, now))
    } else if b.is_complete() {
        &&& g.state() == GameState::Won
        &&& g.board() == b
        &&& g.final_elapsed() == Some(elapsed(start, now))
    } else {
        &&& g.state() == GameState::Playing
        &&& g.board() == b
        &&& g.final_elapsed() == None::<u64>
    }
}

impl Game {
    /// The board, as a view.
    pub closed spec fn board(&self) -> GridView {
        self.grid@
    }

    /// The selected cell, if any.
    pub closed spec fn selection(&self) -> Option<(usize, usize)> {
        self.last_hovered_cell
    }

    /// Where the game stands.
    pub closed spec fn state(&self) -> GameState {
        self.game_state
    }

    /// When the game started, in milliseconds.
    pub closed spec fn start(&self) -> u64 {
        self.time
    }

    /// How long the game lasted, once it is over.
    pub closed spec fn final_elapsed(&self) -> Option<u64> {
        self.final_time
    }

    /// The board is consistent, the selection lies on it, and the time is
    /// frozen exactly when the game is over.
    pub closed spec fn wf(&self) -> bool {
        &&& self.grid.wf()
        &&& match self.last_hovered_cell {
            Some(p) => self.grid@.in_bounds(p.0 as int, p.1 as int),
            None => true,
        }
        &&& (self.game_state == GameState::Playing) == (self.final_time == None::<u64>)
    }

    /// A game on a fresh board of `shape.0` columns and `shape.1` rows with
    /// `number_of_mines` mines, started at `now`.
    pub fn new(shape: (usize, usize), number_of_mines: usize, now: u64) -> (r: Self)
        requires
            shape.0 >= 1,
            shape.1 >= 1,
            shape.0 * shape.1 <= isize::MAX,
            number_of_mines <= shape.0 * shape.1,
        ensures
            r.wf(),
            r.board().width == shape.0,
            r.board().height == shape.1,
            r.board().mine_count == number_of_mines,
            !r.board().initialized,
            r.board().cleared_count == 0,
            r.board().flag_count == 0,
            r.selection() == None::<(usize, usize)>,
            r.state() == GameState::Playing,
            r.start() == now,
            r.final_elapsed() == None::<u64>,
    {
        Game::from_grid(Grid::new(shape, number_of_mines), now)
    }

    /// A game on the given board, started at `now`.
    pub fn from_grid(grid: Grid, now: u64) -> (r: Self)
        requires
            grid.wf(),
        ensures
            r.wf(),
            r.board() == grid@,
            r.selection() == None::<(usize, usize)>,
            r.state() == GameState::Playing,
            r.start() == now,
            r.final_elapsed() == None::<u64>,
    {
        Game { grid, last_hovered_cell: None, game_state: GameState::Playing, time: now, final_time: None }
    }

    /// The board.
    pub fn get_grid(&self) -> (r: &Grid)
        requires
            self.wf(),
        ensures
            r.wf(),
            r@ == self.board(),
    {
        &self.grid
    }

    /// Where the game stands.
    pub fn get_state(&self) -> (r: GameState)
        ensures
            r == self.state(),
    {
        self.game_state
    }

    /// The selected cell, if any.
    pub fn selected_cell(&self) -> (r: Option<(usize, usize)>)
        ensures
            r == self.selection(),
    {
        self.last_hovered_cell
    }

    /// How long the game lasted, in milliseconds, once it is over.
    pub fn get_final_time(&self) -> (r: Option<u64>)
        ensures
            r == self.final_elapsed(),
    {
        self.final_time
    }

    /// How long the game has lasted at `now`; frozen once it is over.
    pub fn elapsed_at(&self, now: u64) -> (r: u64)
        ensures
            r == match self.final_elapsed() {
                Some(t) => t,
                None => elapsed(self.start(), now),
            },
    {
        match self.final_time {
            Some(t) => t,
            None => if now >= self.time {
                now - self.time
            } else {
                0
            },
        }
    }

    /// Ends the game in `state` and freezes its duration.
    fn freeze(&mut self, state: GameState, now: u64)
        ensures
            final(self).grid == old(self).grid,
            final(self).last_hovered_cell == old(self).last_hovered_cell,
            final(self).time == old(self).time,
            final(self).game_state == state,
            final(self).final_time == Some(elapsed(old(self).time, now)),
    {
        self.game_state = state;
        self.final_time = Some(if now >= self.time {
            now - self.time
        } else {
            0
        });
    }

    /// Ends the game as won.
    fn win(&mut self, now: u64) -> (r: GameState)
        ensures
            final(self).grid == old(self).grid,
            final(self).last_hovered_cell == old(self).last_hovered_cell,
            final(self).time == old(self).time,
            final(self).game_state == GameState::Won,
            final(self).final_time == Some(elapsed(old(self).time, now)),
            r == GameState::Won,
    {
        self.freeze(GameState::Won, now);
        GameState::Won
    }

    /// Ends the game as lost and shows every mine.
    fn lose(&mut self, now: u64) -> (r: GameState)
        requires
            old(self).grid.wf(),
        ensures
            final(self).grid.wf(),
            final(self).grid@ == old(self).grid@.with_mines_shown(),
            final(self).last_hovered_cell == old(self).last_hovered_cell,
            final(self).time == old(self).time,
            final(self).game_state == GameState::Lost,
            final(self).final_time == Some(elapsed(old(self).time, now)),
            r == GameState::Lost,
    {
        self.grid.reveal_mines();
        self.freeze(GameState::Lost, now);
        GameState::Lost
    }

    /// Settles the state after a move on the board that had outcome `o`.
    fn conclude(&mut self, o: Outcome, now: u64) -> (r: GameState)
        requires
            old(self).wf(),
            old(self).game_state == GameState::Playing,
        ensures
            final(self).wf(),
            concluded(*final(self), old(self).grid@, o, old(self).time, now),
            final(self).last_hovered_cell == old(self).last_hovered_cell,
            final(self).time == old(self).time,
            r == final(self).game_state,
    {
        if o == Outcome::Detonated {
            self.lose(now)
        } else if self.grid.all_cleared() {
            self.win(now)
        } else {
            GameState::Playing
        }
    }

    /// Ends a game still being played as abandoned; a finished game stays as
    /// it is.
    pub fn abandon(&mut self, now: u64) -> (r: GameState)
        requires
            old(self).wf(),
        ensures
            final(self).wf(),
            old(self).state() != GameState::Playing ==> *final(self) == *old(self),
            old(self).state() == GameState::Playing ==> {
                &&& final(self).board() == old(self).board()
                &&& final(self).selection() == old(self).selection()
                &&& final(self).start() == old(self).start()
                &&& final(self).state() == GameState::Abandoned
                &&& final(self).final_elapsed() == Some(elapsed(old(self).start(), now))
            },
            r == final(self).state(),
    {
        if self.game_state == GameState::Playing {
            self.freeze(GameState::Abandoned, now);
        }
        self.game_state
    }

    /// The pointer moved over `cell` (none when it is off the board): while
    /// the game is being played that cell becomes the selection.
    pub fn mouse_motion_event(&mut self, cell: Option<(usize, usize)>)
        requires
            old(self).wf(),
        ensures
            final(self).wf(),
            old(self).state() != GameState::Playing ==> *final(self) == *old(self),
            old(self).state() == GameState::Playing ==> {
                &&& final(self).board() == old(self).board()
                &&& final(self).state() == old(self).state()
                &&& final(self).start() == old(self).start()
                &&& final(self).final_elapsed() == old(self).final_elapsed()
                &&& final(self).selection() == match cell {
                    Some(p) if old(self).board().in_bounds(p.0 as int, p.1 as int) => Some(p),
                    _ => None::<(usize, usize)>,
                }
            },
    {
        if self.game_state != GameState::Playing {
            return;
        }
        let (w, h) = self.grid.get_shape();
        self.last_hovered_cell = match cell {
            Some((x, y)) => if x < w && y < h {
                Some((x, y))
            } else {
                None
            },
            None => None,
        };
    }

    /// The pointer entered or left the window; leaving drops the selection
    /// while the game is being played.
    pub fn mouse_enter_or_leave(&mut self, entered: bool)
        requires
            old(self).wf(),
        ensures
            final(self).wf(),
            old(self).state() == GameState::Playing && !entered ==> {
                &&& final(self).board() == old(self).board()
                &&& final(self).state() == old(self).state()
                &&& final(self).start() == old(self).start()
                &&& final(self).final_elapsed() == old(self).final_elapsed()
                &&& final(self).selection() == None::<(usize, usize)>
            },
            !(old(self).state() == GameState::Playing && !entered) ==> *final(self) == *old(self),
    {
        if self.game_state == GameState::Playing && !entered {
            self.last_hovered_cell = None;
        }
    }

    /// A click on the cell `cell` (none when the pointer is off the board)
    /// at time `now`: reveals it and settles the state. A finished game, or a
    /// position off the board, changes nothing.
    #[verifier::spinoff_prover]
    pub fn mouse_button_up_event(&mut self, cell: Option<(usize, usize)>, now: u64) -> (r: GameState)
        requires
            old(self).wf(),
        ensures
            final(self).wf(),
            r == final(self).state(),
            final(self).selection() == old(self).selection(),
            final(self).start() == old(self).start(),
            old(self).state() != GameState::Playing ==> *final(self) == *old(self),
            old(self).state() == GameState::Playing ==> match cell {
                Some(p) if old(self).board().in_bounds(p.0 as int, p.1 as int) => exists|b: GridView, o: Outcome|
                    b.reveal_result(old(self).board(), p.0 as int, p.1 as int, o) && concluded(
                        *final(self),
                        b,
                        o,
                        old(self).start(),
                        now,
                    ),
                _ => *final(self) == *old(self),
            },
    {
        if self.game_state != GameState::Playing {
            return self.game_state;
        }
        match cell {
            Some((x, y)) => {
                let (w, h) = self.grid.get_shape();
                if x < w && y < h {
                    self.reveal_at(x, y, now)
                } else {
                    GameState::Playing
                }
            },
            None => GameState::Playing,
        }
    }

    /// Reveals the cell `(x, y)` and settles the state.
    #[verifier::spinoff_prover]
    fn reveal_at(&mut self, x: usize, y: usize, now: u64) -> (r: GameState)
        requires
            old(self).wf(),
            old(self).game_state == GameState::Playing,
            old(self).grid@.in_bounds(x as int, y as int),
        ensures
            final(self).wf(),
            r == final(self).game_state,
            final(self).last_hovered_cell == old(self).last_hovered_cell,
            final(self).time == old(self).time,
            exists|b: GridView, o: Outcome|
                b.reveal_result(old(self).board(), x as int, y as int, o) && concluded(
                    *final(self),
                    b,
                    o,
                    old(self).start(),
                    now,
                ),
    {
        let ghost g0 = *self;
        let o = self.grid.set_cleared(x, y);
        let ghost b = self.grid@;
        let r = self.conclude(o, now);
        proof {
            assert(b.reveal_result(g0.board(), x as int, y as int, o));
            assert(concluded(*self, b, o, g0.start(), now));
        }
        r
    }

    /// Chords on the cell `(x, y)` and settles the state.
    #[verifier::spinoff_prover]
    fn chord_at(&mut self, x: usize, y: usize, now: u64) -> (r: GameState)
        requires
            old(self).wf(),
            old(self).game_state == GameState::Playing,
            old(self).grid@.in_bounds(x as int, y as int),
        ensures
            final(self).wf(),
            r == final(self).game_state,
            final(self).last_hovered_cell == old(self).last_hovered_cell,
            final(self).time == old(self).time,
            exists|b: GridView, o: Outcome|
                b.chorded_from(old(self).board(), x as int, y as int, o) && concluded(
                    *final(self),
                    b,
                    o,
                    old(self).start(),
                    now,
                ),
    {
        let ghost g0 = *self;
        let o = self.grid.clear_adjacent(x, y);
        let ghost b = self.grid@;
        let r = self.conclude(o, now);
        proof {
            assert(b.chorded_from(g0.board(), x as int, y as int, o));
            assert(concluded(*self, b, o, g0.start(), now));
        }
        r
    }

    /// Applies a decoded command at time `now`. A finished game ignores it.
    /// `Move` steps the selection (from the top-left cell if there is none);
    /// the other commands act on the selected cell, and do nothing without
    /// one: `Clear` reveals, `Flag` and `QuestionMark` toggle marks, and
    /// `ClearAdjacent` chords.
    #[verifier::spinoff_prover]
    pub fn handle(&mut self, action: Action, now: u64) -> (r: GameState)
        requires
            old(self).wf(),
        ensures
            final(self).wf(),
            r == final(self).state(),
            final(self).start() == old(self).start(),
            old(self).state() != GameState::Playing ==> *final(self) == *old(self),
            old(self).state() == GameState::Playing ==> match action {
                Action::Move(dir) => {
                    let from = match old(self).selection() {
                        Some(p) => p,
                        None => (0usize, 0usize),
                    };
                    &&& final(self).selection() == Some(
                        moved(from, dir, old(self).board().width, old(self).board().height),
                    )
                    &&& final(self).board() == old(self).board()
                    &&& final(self).state() == GameState::Playing
                    &&& final(self).final_elapsed() == old(self).final_elapsed()
                },
                _ => {
                    &&& final(self).selection() == old(self).selection()
                    &&& match old(self).selection() {
                        None => *final(self) == *old(self),
                        Some(p) => {
                            let (x, y) = (p.0 as int, p.1 as int);
                            match action {
                                Action::Clear => exists|b: GridView, o: Outcome|
                                    b.reveal_result(old(self).board(), x, y, o) && concluded(
                                        *final(self),
                                        b,
                                        o,
                                        old(self).start(),
                                        now,
                                    ),
                                Action::ClearAdjacent => exists|b: GridView, o: Outcome|
                                    b.chorded_from(old(self).board(), x, y, o) && concluded(
                                        *final(self),
                                        b,
                                        o,
                                        old(self).start(),
                                        now,
                                    ),
                                Action::Flag => {
                                    &&& final(self).board() == old(self).board().flag_toggled(x, y)
                                    &&& final(self).state() == GameState::Playing
                                    &&& final(self).final_elapsed() == old(self).final_elapsed()
                                },
                                Action::QuestionMark => {
                                    &&& final(self).board() == old(self).board().question_toggled(x, y)
                                    &&& final(self).state() == GameState::Playing
                                    &&& final(self).final_elapsed() == old(self).final_elapsed()
                                },
                                _ => *final(self) == *old(self),
                            }
                        },
                    }
                },
            },
    {
        if self.game_state != GameState::Playing {
            return self.game_state;
        }
        match action {
            Action::Move(dir) => {
                proof {
                    self.grid.lemma_wf_view();
                }
                let (x, y) = match self.last_hovered_cell {
                    Some(p) => p,
                    None => (0, 0),
                };
                let (w, h) = self.grid.get_shape();
                let to = match dir {
                    Direction::Left => if x > 0 {
                        (x - 1, y)
                    } else {
                        (x, y)
                    },
                    Direction::Right => if x + 1 < w {
                        (x + 1, y)
                    } else {
                        (x, y)
                    },
                    Direction::Up => if y > 0 {
                        (x, y - 1)
                    } else {
                        (x, y)
                    },
                    Direction::Down => if y + 1 < h {
                        (x, y + 1)
                    } else {
                        (x, y)
                    },
                };
                self.last_hovered_cell = Some(to);
                GameState::Playing
            },
            _ => match self.last_hovered_cell {
                None => GameState::Playing,
                Some((x, y)) => match action {
                    Action::Clear => self.reveal_at(x, y, now),
                    Action::ClearAdjacent => self.chord_at(x, y, now),
                    Action::Flag => {
                        self.grid.toggle_flagged(x, y);
                        GameState::Playing
                    },
                    Action::QuestionMark => {
                        self.grid.toggle_question_marked(x, y);
                        GameState::Playing
                    },
                    _ => GameState::Playing,
                },
            },
        }
    }
}

} // verus!
