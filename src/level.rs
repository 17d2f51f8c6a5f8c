use vstd::prelude::*;

verus! {

/// The three standard difficulties.
#[derive(Clone, Copy, Debug, PartialEq, Eq, Hash, Structural)]
pub enum Level {
    Easy,
    Medium,
    Hard,
}

/// Name, board size (columns, rows) and mine count of a level.
pub struct LevelInfo {
    pub name: String,
    pub grid_size: (usize, usize),
    pub number_of_mines: usize,
}

impl Level {
    /// Easy is 9 by 9 with 10 mines, Medium 16 by 16 with 40, Hard 30 by 16
    /// with 99.
    pub fn level_info(&self) -> (r: LevelInfo)
        ensures
            match self {
                Level::Easy => r.name@ == "Easy"@ && r.grid_size == (9usize, 9usize) && r.number_of_mines == 10,
                Level::Medium => r.name@ == "Medium"@ && r.grid_size == (16usize, 16usize) && r.number_of_mines
                    == 40,
                Level::Hard => r.name@ == "Hard"@ && r.grid_size == (30usize, 16usize) && r.number_of_mines == 99,
            },
            r.grid_size.0 >= 1,
            r.grid_size.1 >= 1,
            r.number_of_mines <= r.grid_size.0 * r.grid_size.1,
    {
        match self {
            Level::Easy => LevelInfo { name: "Easy".to_owned(), grid_size: (9, 9), number_of_mines: 10 },
            Level::Medium => LevelInfo { name: "Medium".to_owned(), grid_size: (16, 16), number_of_mines: 40 },
            Level::Hard => LevelInfo { name: "Hard".to_owned(), grid_size: (30, 16), number_of_mines: 99 },
        }
    }
}

} // verus!
