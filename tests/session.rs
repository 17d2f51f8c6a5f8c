use minezweeper::game::{Game, GameState};
use minezweeper::grid::{Grid, Mark};
use minezweeper::level::Level;
use minezweeper::settings::{Action, Direction};

#[test]
fn last_safe_cell_wins() {
    let g = Grid::with_mines((4, 4), &vec![(0, 0)]);
    let mut game = Game::from_grid(g, 1_000);
    assert_eq!(game.mouse_button_up_event(Some((3, 3)), 3_500), GameState::Won);
    let mut cleared = 0;
    for y in 0..4 {
        for x in 0..4 {
            if game.get_grid().get(x, y).cleared {
                cleared += 1;
            }
        }
    }
    assert_eq!(cleared, 15);
    assert!(game.get_grid().all_cleared());
    assert_eq!(game.get_state(), GameState::Won);
    assert_eq!(game.get_final_time(), Some(2_500));
}

#[test]
fn mine_loses_and_shows_mines() {
    let g = Grid::with_mines((3, 3), &vec![(0, 0), (2, 2), (2, 0)]);
    let mut game = Game::from_grid(g, 0);
    game.handle(Action::Move(Direction::Right), 10);
    game.handle(Action::Move(Direction::Right), 20);
    game.handle(Action::Flag, 30);
    assert_eq!(game.mouse_button_up_event(Some((0, 0)), 700), GameState::Lost);
    let grid = game.get_grid();
    assert!(grid.get(0, 0).cleared);
    assert!(grid.get(2, 2).cleared);
    assert!(grid.get(2, 0).cleared);
    assert_eq!(grid.get(2, 0).mark, Mark::Unmarked);
    assert!(!grid.get(1, 1).cleared);
    assert_eq!(game.get_final_time(), Some(700));
    // Frozen from now on.
    assert_eq!(game.handle(Action::Clear, 900), GameState::Lost);
    assert_eq!(game.mouse_button_up_event(Some((1, 1)), 1_000), GameState::Lost);
    assert_eq!(game.abandon(2_000), GameState::Lost);
    assert_eq!(game.get_final_time(), Some(700));
    assert_eq!(game.elapsed_at(5_000), 700);
    assert!(!game.get_grid().get(1, 1).cleared);
}

#[test]
fn keyboard_clear_and_chord() {
    let g = Grid::with_mines((2, 2), &vec![(0, 0), (1, 0)]);
    let mut game = Game::from_grid(g, 0);
    assert_eq!(game.handle(Action::Move(Direction::Down), 1), GameState::Playing);
    assert_eq!(game.selected_cell(), Some((0, 1)));
    assert_eq!(game.handle(Action::Clear, 2), GameState::Playing);
    assert!(game.get_grid().get(0, 1).cleared);
    // Only one flag: chording does nothing.
    game.handle(Action::Move(Direction::Up), 3);
    game.handle(Action::Flag, 4);
    game.handle(Action::Move(Direction::Down), 5);
    assert_eq!(game.handle(Action::ClearAdjacent, 6), GameState::Playing);
    assert!(!game.get_grid().get(1, 1).cleared);
    game.handle(Action::Move(Direction::Up), 7);
    game.handle(Action::Move(Direction::Right), 8);
    game.handle(Action::Flag, 9);
    game.handle(Action::Move(Direction::Left), 10);
    game.handle(Action::Move(Direction::Down), 11);
    assert_eq!(game.handle(Action::ClearAdjacent, 12), GameState::Won);
    assert_eq!(game.get_final_time(), Some(12));
}

#[test]
fn move_starts_at_origin_and_clamps() {
    let mut game = Game::new((3, 2), 1, 0);
    assert_eq!(game.selected_cell(), None);
    game.handle(Action::Move(Direction::Left), 1);
    assert_eq!(game.selected_cell(), Some((0, 0)));
    game.handle(Action::Move(Direction::Up), 1);
    assert_eq!(game.selected_cell(), Some((0, 0)));
    game.handle(Action::Move(Direction::Right), 1);
    game.handle(Action::Move(Direction::Right), 1);
    game.handle(Action::Move(Direction::Right), 1);
    assert_eq!(game.selected_cell(), Some((2, 0)));
    game.handle(Action::Move(Direction::Down), 1);
    game.handle(Action::Move(Direction::Down), 1);
    assert_eq!(game.selected_cell(), Some((2, 1)));
    game.handle(Action::Move(Direction::Left), 1);
    assert_eq!(game.selected_cell(), Some((1, 1)));
}

#[test]
fn commands_without_selection_do_nothing() {
    let mut game = Game::new((3, 3), 1, 0);
    assert_eq!(game.handle(Action::Clear, 1), GameState::Playing);
    assert_eq!(game.handle(Action::Flag, 1), GameState::Playing);
    assert_eq!(game.handle(Action::Nothing, 1), GameState::Playing);
    assert_eq!(game.get_grid().get_number_of_remaining_mines(), 1);
    for y in 0..3 {
        for x in 0..3 {
            assert!(!game.get_grid().get(x, y).cleared);
        }
    }
}

#[test]
fn question_mark_through_game() {
    let mut game = Game::new((3, 3), 1, 0);
    game.handle(Action::Move(Direction::Down), 1);
    game.handle(Action::Flag, 2);
    assert_eq!(game.get_grid().get(0, 1).mark, Mark::Flagged);
    game.handle(Action::QuestionMark, 3);
    assert_eq!(game.get_grid().get(0, 1).mark, Mark::Questioned);
    assert_eq!(game.get_grid().get_number_of_remaining_mines(), 1);
}

#[test]
fn click_off_board_does_nothing() {
    let mut game = Game::new((3, 3), 1, 0);
    assert_eq!(game.mouse_button_up_event(None, 5), GameState::Playing);
    assert_eq!(game.mouse_button_up_event(Some((3, 0)), 5), GameState::Playing);
    assert_eq!(game.mouse_button_up_event(Some((0, 7)), 5), GameState::Playing);
    assert_eq!(game.get_final_time(), None);
}

#[test]
fn abandon_freezes_without_sweep() {
    let g = Grid::with_mines((3, 3), &vec![(0, 0)]);
    let mut game = Game::from_grid(g, 100);
    assert_eq!(game.elapsed_at(400), 300);
    assert_eq!(game.abandon(600), GameState::Abandoned);
    assert_eq!(game.get_final_time(), Some(500));
    assert!(!game.get_grid().get(0, 0).cleared);
    assert_eq!(game.handle(Action::Move(Direction::Right), 700), GameState::Abandoned);
    assert_eq!(game.selected_cell(), None);
    assert_eq!(game.get_final_time(), Some(500));
}

#[test]
fn clock_going_back_counts_zero() {
    let mut game = Game::new((2, 2), 0, 1_000);
    assert_eq!(game.elapsed_at(10), 0);
    assert_eq!(game.mouse_button_up_event(Some((0, 0)), 10), GameState::Won);
    assert_eq!(game.get_final_time(), Some(0));
}

#[test]
fn first_click_through_game_never_loses() {
    for _ in 0..30 {
        let info = Level::Easy.level_info();
        let mut game = Game::new(info.grid_size, info.number_of_mines, 0);
        assert_ne!(game.mouse_button_up_event(Some((4, 4)), 1), GameState::Lost);
    }
}

#[test]
fn level_sizes() {
    let e = Level::Easy.level_info();
    assert_eq!(e.name, "Easy");
    assert_eq!(e.grid_size, (9, 9));
    assert_eq!(e.number_of_mines, 10);
    let m = Level::Medium.level_info();
    assert_eq!(m.name, "Medium");
    assert_eq!(m.grid_size, (16, 16));
    assert_eq!(m.number_of_mines, 40);
    let h = Level::Hard.level_info();
    assert_eq!(h.name, "Hard");
    assert_eq!(h.grid_size, (30, 16));
    assert_eq!(h.number_of_mines, 99);
}

#[test]
fn state_names() {
    assert_eq!(GameState::Won.name(), "Won");
    assert_eq!(GameState::Lost.name(), "Lost");
    assert_eq!(GameState::Playing.name(), "Playing");
    assert_eq!(GameState::Abandoned.name(), "Abandoned");
}

#[test]
fn pointer_hover_selects_cell() {
    let mut game = Game::new((3, 3), 1, 0);
    game.mouse_motion_event(Some((2, 1)));
    assert_eq!(game.selected_cell(), Some((2, 1)));
    game.mouse_motion_event(Some((5, 1)));
    assert_eq!(game.selected_cell(), None);
    game.mouse_motion_event(Some((1, 1)));
    game.mouse_enter_or_leave(true);
    assert_eq!(game.selected_cell(), Some((1, 1)));
    game.mouse_enter_or_leave(false);
    assert_eq!(game.selected_cell(), None);
}
