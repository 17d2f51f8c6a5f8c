use minezweeper::grid::{Grid, Mark, Outcome};

fn count_mines(g: &Grid) -> usize {
    let (w, h) = g.get_shape();
    let mut n = 0;
    for y in 0..h {
        for x in 0..w {
            if g.get(x, y).get_value() == -1 {
                n += 1;
            }
        }
    }
    n
}

fn count_cleared(g: &Grid) -> usize {
    let (w, h) = g.get_shape();
    let mut n = 0;
    for y in 0..h {
        for x in 0..w {
            if g.get(x, y).cleared {
                n += 1;
            }
        }
    }
    n
}

fn snapshot(g: &Grid) -> Vec<(i8, bool, Mark)> {
    let (w, h) = g.get_shape();
    let mut v = Vec::new();
    for y in 0..h {
        for x in 0..w {
            let c = g.get(x, y);
            v.push((c.value, c.cleared, c.mark));
        }
    }
    v
}

fn neighbours(g: &Grid, x: usize, y: usize) -> Vec<(usize, usize)> {
    let (w, h) = g.get_shape();
    let mut v = Vec::new();
    for dy in -1i64..=1 {
        for dx in -1i64..=1 {
            if dx == 0 && dy == 0 {
                continue;
            }
            let nx = x as i64 + dx;
            let ny = y as i64 + dy;
            if nx >= 0 && ny >= 0 && (nx as usize) < w && (ny as usize) < h {
                v.push((nx as usize, ny as usize));
            }
        }
    }
    v
}

fn check_numbers(g: &Grid) {
    let (w, h) = g.get_shape();
    for y in 0..h {
        for x in 0..w {
            let v = g.get(x, y).get_value();
            if v != -1 {
                let around = neighbours(g, x, y)
                    .into_iter()
                    .filter(|&(a, b)| g.get(a, b).get_value() == -1)
                    .count();
                assert_eq!(v as usize, around, "number at ({}, {})", x, y);
            }
        }
    }
}

#[test]
fn first_reveal_spares_centre_block() {
    for _ in 0..50 {
        let mut g = Grid::new((9, 9), 10);
        let r = g.set_cleared(4, 4);
        assert_eq!(r, Outcome::Revealed);
        for y in 3..=5 {
            for x in 3..=5 {
                assert_ne!(g.get(x, y).get_value(), -1);
            }
        }
        assert_eq!(count_mines(&g), 10);
        check_numbers(&g);
    }
}

#[test]
fn first_reveal_in_corner_lays_exact_count() {
    for _ in 0..50 {
        let mut g = Grid::new((16, 16), 40);
        g.set_cleared(0, 0);
        assert_eq!(count_mines(&g), 40);
        for (x, y) in [(0, 0), (1, 0), (0, 1), (1, 1)] {
            assert_ne!(g.get(x, y).get_value(), -1);
        }
        check_numbers(&g);
    }
}

#[test]
fn crowded_board_relaxes_to_clicked_cell() {
    // 3x3 with 8 mines: no cell lies outside the safe zone of the centre.
    for _ in 0..20 {
        let mut g = Grid::new((3, 3), 8);
        let r = g.set_cleared(1, 1);
        assert_eq!(r, Outcome::Revealed);
        assert_eq!(count_mines(&g), 8);
        assert_eq!(g.get(1, 1).get_value(), 8);
        assert!(g.all_cleared());
    }
}

#[test]
fn board_full_of_mines_detonates() {
    let mut g = Grid::new((2, 2), 4);
    assert_eq!(g.set_cleared(0, 0), Outcome::Detonated);
    assert_eq!(count_mines(&g), 4);
    assert!(g.get(0, 0).cleared);
    assert_eq!(count_cleared(&g), 1);
}

#[test]
fn single_cell_without_mines() {
    let mut g = Grid::new((1, 1), 0);
    assert!(!g.all_cleared());
    assert_eq!(g.set_cleared(0, 0), Outcome::Revealed);
    assert!(g.all_cleared());
}

#[test]
fn flood_reaches_whole_zero_region() {
    let g0 = Grid::with_mines((4, 4), &vec![(0, 0)]);
    let mut g = g0;
    assert_eq!(g.set_cleared(3, 3), Outcome::Revealed);
    assert_eq!(count_cleared(&g), 15);
    assert!(!g.get(0, 0).cleared);
    assert!(g.all_cleared());
    assert_eq!(g.get(1, 1).get_value(), 1);
    assert_eq!(g.get(2, 2).get_value(), 0);
}

#[test]
fn flood_stops_at_numbers_and_marks() {
    // A wall of mines in column 2 of a 5x3 board.
    let mut g = Grid::with_mines((5, 3), &vec![(2, 0), (2, 1), (2, 2)]);
    g.toggle_flagged(0, 2);
    assert_eq!(g.set_cleared(0, 0), Outcome::Revealed);
    // Column 0 has zeros, column 1 holds numbers; the flagged cell stays covered.
    assert!(g.get(0, 0).cleared);
    assert!(g.get(0, 1).cleared);
    assert!(!g.get(0, 2).cleared);
    assert!(g.get(1, 0).cleared);
    assert!(g.get(1, 1).cleared);
    assert!(g.get(1, 2).cleared);
    for y in 0..3 {
        for x in 2..5 {
            assert!(!g.get(x, y).cleared);
        }
    }
    assert_eq!(count_cleared(&g), 5);
    // Every uncovered zero has no open neighbour left.
    for y in 0..3 {
        for x in 0..5 {
            let c = g.get(x, y);
            if c.cleared && c.get_value() == 0 {
                for (a, b) in neighbours(&g, x, y) {
                    let n = g.get(a, b);
                    assert!(n.cleared || n.mark != Mark::Unmarked);
                }
            }
        }
    }
}

#[test]
fn numbered_cell_reveals_alone() {
    let mut g = Grid::with_mines((3, 3), &vec![(0, 0)]);
    assert_eq!(g.set_cleared(1, 1), Outcome::Revealed);
    assert_eq!(g.get(1, 1).get_value(), 1);
    assert_eq!(count_cleared(&g), 1);
}

#[test]
fn reveal_twice_is_noop() {
    let mut g = Grid::with_mines((3, 3), &vec![(0, 0)]);
    assert_eq!(g.set_cleared(1, 1), Outcome::Revealed);
    let before = snapshot(&g);
    assert_eq!(g.set_cleared(1, 1), Outcome::NoOp);
    assert_eq!(snapshot(&g), before);
}

#[test]
fn reveal_flagged_or_questioned_is_noop() {
    let mut g = Grid::with_mines((3, 3), &vec![(0, 0)]);
    g.toggle_flagged(2, 2);
    g.toggle_question_marked(1, 1);
    let before = snapshot(&g);
    assert_eq!(g.set_cleared(2, 2), Outcome::NoOp);
    assert_eq!(g.set_cleared(1, 1), Outcome::NoOp);
    assert_eq!(snapshot(&g), before);
}

#[test]
fn reveal_mine_detonates() {
    let mut g = Grid::with_mines((3, 3), &vec![(0, 0), (2, 2)]);
    assert_eq!(g.set_cleared(0, 0), Outcome::Detonated);
    assert!(g.get(0, 0).cleared);
    assert_eq!(count_cleared(&g), 1);
    assert!(!g.all_cleared());
}

#[test]
fn chord_reveals_remaining_neighbour() {
    // Mines at (0,0) and (1,0) on a 2x2 board: (0,1) shows 2.
    let mut g = Grid::with_mines((2, 2), &vec![(0, 0), (1, 0)]);
    assert_eq!(g.set_cleared(0, 1), Outcome::Revealed);
    assert_eq!(g.get(0, 1).get_value(), 2);
    assert_eq!(count_cleared(&g), 1);
    g.toggle_flagged(0, 0);
    g.toggle_flagged(1, 0);
    assert_eq!(g.clear_adjacent(0, 1), Outcome::Revealed);
    assert!(g.get(1, 1).cleared);
    assert!(!g.get(0, 0).cleared);
    assert!(!g.get(1, 0).cleared);
    assert_eq!(count_cleared(&g), 2);
    assert!(g.all_cleared());
}

#[test]
fn chord_with_too_few_flags_is_noop() {
    let mut g = Grid::with_mines((2, 2), &vec![(0, 0), (1, 0)]);
    g.set_cleared(0, 1);
    g.toggle_flagged(0, 0);
    let before = snapshot(&g);
    assert_eq!(g.clear_adjacent(0, 1), Outcome::NoOp);
    assert_eq!(snapshot(&g), before);
}

#[test]
fn chord_on_covered_cell_is_noop() {
    let mut g = Grid::with_mines((2, 2), &vec![(0, 0)]);
    g.set_cleared(1, 1);
    let before = snapshot(&g);
    assert_eq!(g.clear_adjacent(0, 1), Outcome::NoOp);
    assert_eq!(snapshot(&g), before);
}

#[test]
fn chord_on_wrong_flag_detonates() {
    // (0,1) shows 1 because of the mine at (0,0); the flag sits on (1,1).
    let mut g = Grid::with_mines((3, 2), &vec![(0, 0), (2, 0)]);
    g.set_cleared(0, 1);
    assert_eq!(g.get(0, 1).get_value(), 1);
    g.toggle_flagged(1, 1);
    assert_eq!(g.clear_adjacent(0, 1), Outcome::Detonated);
    assert!(g.get(0, 0).cleared);
    assert!(g.get(1, 0).cleared);
    assert!(!g.get(1, 1).cleared);
}

#[test]
fn flag_and_question_exclude_each_other() {
    let mut g = Grid::new((3, 3), 1);
    g.toggle_flagged(1, 1);
    assert_eq!(g.get(1, 1).mark, Mark::Flagged);
    assert_eq!(g.get_number_of_remaining_mines(), 0);
    g.toggle_question_marked(1, 1);
    assert_eq!(g.get(1, 1).mark, Mark::Questioned);
    assert_eq!(g.get_number_of_remaining_mines(), 1);
    g.toggle_flagged(1, 1);
    assert_eq!(g.get(1, 1).mark, Mark::Flagged);
    assert_eq!(g.get_number_of_remaining_mines(), 0);
    g.toggle_flagged(1, 1);
    assert_eq!(g.get(1, 1).mark, Mark::Unmarked);
    g.toggle_question_marked(1, 1);
    g.toggle_question_marked(1, 1);
    assert_eq!(g.get(1, 1).mark, Mark::Unmarked);
    assert_eq!(g.get_number_of_remaining_mines(), 1);
}

#[test]
fn marks_ignored_on_uncovered_cell() {
    let mut g = Grid::with_mines((3, 3), &vec![(0, 0)]);
    g.set_cleared(2, 2);
    g.toggle_flagged(2, 2);
    g.toggle_question_marked(2, 2);
    assert_eq!(g.get(2, 2).mark, Mark::Unmarked);
    assert_eq!(g.get_number_of_remaining_mines(), 1);
}

#[test]
fn remaining_mines_goes_negative() {
    let mut g = Grid::new((3, 3), 1);
    g.toggle_flagged(0, 0);
    g.toggle_flagged(1, 0);
    g.toggle_flagged(2, 0);
    assert_eq!(g.get_number_of_remaining_mines(), -2);
}

#[test]
fn fresh_board_is_covered() {
    let g = Grid::new((30, 16), 99);
    assert_eq!(g.get_shape(), (30, 16));
    assert_eq!(g.get_number_of_remaining_mines(), 99);
    assert_eq!(count_cleared(&g), 0);
    assert_eq!(count_mines(&g), 0);
    assert!(!g.all_cleared());
}

#[test]
fn reveal_mines_shows_all_mines() {
    let mut g = Grid::with_mines((3, 3), &vec![(0, 0), (2, 2)]);
    g.toggle_flagged(2, 2);
    g.set_cleared(0, 0);
    g.reveal_mines();
    assert!(g.get(0, 0).cleared);
    assert!(g.get(2, 2).cleared);
    assert_eq!(g.get(2, 2).mark, Mark::Unmarked);
    assert_eq!(g.get_number_of_remaining_mines(), 2);
    assert!(!g.get(1, 1).cleared);
}

#[test]
fn reshape_gives_fresh_board() {
    let mut g = Grid::with_mines((3, 3), &vec![(0, 0)]);
    g.set_cleared(2, 2);
    g.toggle_flagged(0, 0);
    g.reshape((5, 4), 3);
    assert_eq!(g.get_shape(), (5, 4));
    assert_eq!(g.get_number_of_remaining_mines(), 3);
    assert_eq!(count_cleared(&g), 0);
    assert_eq!(count_mines(&g), 0);
    g.set_cleared(2, 2);
    assert_eq!(count_mines(&g), 3);
}

#[test]
fn same_seed_same_layout() {
    let mut a = Grid::with_seed((16, 16), 40, 7);
    let mut b = Grid::with_seed((16, 16), 40, 7);
    a.set_cleared(3, 5);
    b.set_cleared(3, 5);
    assert_eq!(snapshot(&a), snapshot(&b));
    assert_eq!(count_mines(&a), 40);
    check_numbers(&a);
    let mut c = Grid::with_seed((16, 16), 40, 8);
    c.set_cleared(3, 5);
    assert_eq!(count_mines(&c), 40);
}

#[test]
fn seeded_layouts_differ_across_seeds() {
    let mut layouts = Vec::new();
    for seed in 0..8u64 {
        let mut g = Grid::with_seed((9, 9), 10, seed);
        g.set_cleared(0, 0);
        layouts.push(snapshot(&g));
    }
    assert!(layouts.iter().any(|l| *l != layouts[0]));
}
