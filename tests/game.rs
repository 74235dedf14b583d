use minesweeper::board::{Board, BoardError, CellState};
use minesweeper::cursor::{wrap_back, wrap_forward};
use minesweeper::game::{glyph, key_from_char, new_game, Game, Glyph, Key, Status};

fn layout(width: u8, mines: &[(u8, u8)]) -> Vec<bool> {
    let mut v = vec![false; width as usize * width as usize];
    for &(x, y) in mines {
        v[y as usize * width as usize + x as usize] = true;
    }
    v
}

fn game_at(width: u8, x: u8, y: u8) -> Game {
    let mut g = new_game(width, 0, 5).unwrap();
    for _ in 0..x {
        g.handle_key(Key::Right);
    }
    for _ in 0..y {
        g.handle_key(Key::Down);
    }
    assert_eq!(g.cursor(), (x, y));
    g
}

#[test]
fn cursor_left_wraps_from_first_column() {
    let mut g = game_at(5, 0, 3);
    g.cursor_left();
    assert_eq!(g.cursor(), (4, 3));
}

#[test]
fn cursor_up_wraps_from_first_row() {
    let mut g = game_at(5, 2, 0);
    g.cursor_up();
    assert_eq!(g.cursor(), (2, 4));
}

#[test]
fn cursor_right_wraps_from_last_column() {
    let mut g = game_at(5, 4, 1);
    g.cursor_right();
    assert_eq!(g.cursor(), (0, 1));
}

#[test]
fn cursor_down_wraps_from_last_row() {
    let mut g = game_at(5, 3, 4);
    g.cursor_down();
    assert_eq!(g.cursor(), (3, 0));
}

#[test]
fn cursor_moves_by_one_inside() {
    let mut g = game_at(5, 2, 2);
    g.handle_key(Key::Up);
    assert_eq!(g.cursor(), (2, 1));
    g.handle_key(Key::Left);
    assert_eq!(g.cursor(), (1, 1));
    g.handle_key(Key::Down);
    g.handle_key(Key::Right);
    assert_eq!(g.cursor(), (2, 2));
}

#[test]
fn wrap_steps_on_an_axis() {
    assert_eq!(wrap_back(0, 10), 9);
    assert_eq!(wrap_back(5, 10), 4);
    assert_eq!(wrap_forward(9, 10), 0);
    assert_eq!(wrap_forward(5, 10), 6);
    assert_eq!(wrap_back(0, 1), 0);
    assert_eq!(wrap_forward(0, 1), 0);
}

#[test]
fn single_cell_game_is_won_on_first_reveal() {
    let mut g = new_game(1, 0, 9).unwrap();
    let c = g.get_cell(0, 0);
    assert_eq!(c.adjacent_mine_count, 0);
    assert!(!c.is_mine);
    assert_eq!(g.status(), Status::Running);
    g.handle_key(Key::Reveal);
    assert_eq!(g.status(), Status::Won);
    assert_eq!(g.get_cell(0, 0).state, CellState::Revealed);
}

#[test]
fn new_game_rejects_too_many_mines() {
    assert_eq!(new_game(2, 5, 0).err(), Some(BoardError::TooManyMines));
    assert_eq!(new_game(0, 0, 0).err(), Some(BoardError::ZeroWidth));
}

#[test]
fn revealing_a_mine_loses() {
    let board = Board::with_mines(2, &layout(2, &[(0, 0)])).unwrap();
    let mut g = Game::from_board(board);
    g.handle_key(Key::Reveal);
    assert_eq!(g.status(), Status::Lost);
    g.handle_key(Key::Right);
    assert_eq!(g.cursor(), (0, 0));
}

#[test]
fn cascade_in_game_wins() {
    let board = Board::with_mines(3, &layout(3, &[(2, 2)])).unwrap();
    let mut g = Game::from_board(board);
    g.handle_key(Key::Reveal);
    assert_eq!(g.status(), Status::Won);
}

#[test]
fn partial_reveal_keeps_running() {
    let board = Board::with_mines(3, &layout(3, &[(2, 2)])).unwrap();
    let mut g = Game::from_board(board);
    g.handle_key(Key::Right);
    g.handle_key(Key::Down);
    g.handle_key(Key::Reveal);
    assert_eq!(g.status(), Status::Running);
    assert_eq!(g.get_cell(1, 1).state, CellState::Revealed);
    assert_eq!(g.get_cell(0, 0).state, CellState::Hidden);
}

#[test]
fn flag_key_toggles_and_blocks_reveal() {
    let board = Board::with_mines(2, &layout(2, &[(1, 1)])).unwrap();
    let mut g = Game::from_board(board);
    g.handle_key(Key::Flag);
    assert_eq!(g.get_cell(0, 0).state, CellState::Flagged);
    g.handle_key(Key::Reveal);
    assert_eq!(g.get_cell(0, 0).state, CellState::Flagged);
    assert_eq!(g.status(), Status::Running);
    g.handle_key(Key::Flag);
    assert_eq!(g.get_cell(0, 0).state, CellState::Hidden);
}

#[test]
fn quit_is_final() {
    let mut g = new_game(4, 2, 1).unwrap();
    g.handle_key(Key::Quit);
    assert_eq!(g.status(), Status::Quit);
    g.handle_key(Key::Down);
    assert_eq!(g.cursor(), (0, 0));
}

#[test]
fn other_key_changes_nothing() {
    let mut g = new_game(4, 2, 1).unwrap();
    g.handle_key(Key::Other);
    assert_eq!(g.cursor(), (0, 0));
    assert_eq!(g.status(), Status::Running);
}

#[test]
fn characters_map_to_keys() {
    assert_eq!(key_from_char('w'), Key::Up);
    assert_eq!(key_from_char('a'), Key::Left);
    assert_eq!(key_from_char('s'), Key::Down);
    assert_eq!(key_from_char('d'), Key::Right);
    assert_eq!(key_from_char(' '), Key::Reveal);
    assert_eq!(key_from_char('f'), Key::Flag);
    assert_eq!(key_from_char('q'), Key::Quit);
    assert_eq!(key_from_char('x'), Key::Other);
}

#[test]
fn glyphs_follow_cell_state() {
    let mut board = Board::with_mines(2, &layout(2, &[(1, 1)])).unwrap();
    assert_eq!(glyph(board.get_cell(0, 0)), Glyph::Hidden);
    board.toggle_flag(1, 0);
    assert_eq!(glyph(board.get_cell(1, 0)), Glyph::Flagged);
    board.reveal_cell(0, 0);
    assert_eq!(glyph(board.get_cell(0, 0)), Glyph::Number(1));
    board.reveal_cell(1, 1);
    assert_eq!(glyph(board.get_cell(1, 1)), Glyph::Mine);
    let mut empty = Board::with_mines(1, &vec![false]).unwrap();
    empty.reveal_cell(0, 0);
    assert_eq!(glyph(empty.get_cell(0, 0)), Glyph::Empty);
}
