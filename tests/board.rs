use minesweeper::board::{coords_to_idx, Board, BoardError, Cell, CellState, RevealOutcome};

fn mines_on(board: &Board) -> usize {
    let w = board.width();
    let mut n = 0;
    for y in 0..w {
        for x in 0..w {
            if board.get_cell(x, y).is_mine {
                n += 1;
            }
        }
    }
    n
}

fn brute_force_count(board: &Board, x: u8, y: u8) -> u8 {
    let w = board.width() as i32;
    let mut n = 0;
    for dy in -1i32..=1 {
        for dx in -1i32..=1 {
            if dx == 0 && dy == 0 {
                continue;
            }
            let (nx, ny) = (x as i32 + dx, y as i32 + dy);
            if nx >= 0 && ny >= 0 && nx < w && ny < w && board.get_cell(nx as u8, ny as u8).is_mine {
                n += 1;
            }
        }
    }
    n
}

fn counts_consistent(board: &Board) -> bool {
    let w = board.width();
    for y in 0..w {
        for x in 0..w {
            let c = board.get_cell(x, y);
            if !c.is_mine && c.adjacent_mine_count != brute_force_count(board, x, y) {
                return false;
            }
        }
    }
    true
}

fn layout(width: u8, mines: &[(u8, u8)]) -> Vec<bool> {
    let mut v = vec![false; width as usize * width as usize];
    for &(x, y) in mines {
        v[y as usize * width as usize + x as usize] = true;
    }
    v
}

#[test]
fn generate_places_exact_mine_count() {
    for &(w, m) in &[(1u8, 0usize), (1, 1), (3, 0), (3, 4), (3, 9), (5, 24), (10, 10), (16, 100)] {
        let b = Board::generate(w, m, 7).unwrap();
        assert_eq!(b.width(), w);
        assert_eq!(mines_on(&b), m);
        let total = w as usize * w as usize;
        assert_eq!(total - mines_on(&b), total - m);
        for y in 0..w {
            for x in 0..w {
                assert_eq!(b.get_cell(x, y).state, CellState::Hidden);
            }
        }
    }
}

#[test]
fn generate_full_board_is_all_mines() {
    let b = Board::generate(4, 16, 3).unwrap();
    assert_eq!(mines_on(&b), 16);
}

#[test]
fn generate_is_deterministic_for_a_seed() {
    let a = Board::generate(8, 12, 42).unwrap();
    let b = Board::generate(8, 12, 42).unwrap();
    for y in 0..8 {
        for x in 0..8 {
            assert_eq!(a.get_cell(x, y), b.get_cell(x, y));
        }
    }
}

#[test]
fn generate_rejects_too_many_mines() {
    assert_eq!(Board::generate(3, 10, 1).err(), Some(BoardError::TooManyMines));
    assert_eq!(Board::generate(1, 2, 1).err(), Some(BoardError::TooManyMines));
    assert_eq!(Board::generate(10, 101, 1).err(), Some(BoardError::TooManyMines));
}

#[test]
fn generate_rejects_zero_width() {
    assert_eq!(Board::generate(0, 0, 1).err(), Some(BoardError::ZeroWidth));
}

#[test]
fn with_mines_rejects_wrong_layout_length() {
    assert_eq!(Board::with_mines(3, &vec![false; 8]).err(), Some(BoardError::LayoutSize));
    assert_eq!(Board::with_mines(0, &vec![]).err(), Some(BoardError::ZeroWidth));
}

#[test]
fn adjacency_matches_brute_force_on_fixed_layout() {
    let b = Board::with_mines(4, &layout(4, &[(0, 0), (1, 0), (3, 3), (2, 1)])).unwrap();
    assert!(counts_consistent(&b));
    assert_eq!(b.get_cell(0, 1).adjacent_mine_count, 2);
    assert_eq!(b.get_cell(1, 1).adjacent_mine_count, 3);
    assert_eq!(b.get_cell(3, 0).adjacent_mine_count, 1);
    assert_eq!(b.get_cell(2, 2).adjacent_mine_count, 2);
    assert_eq!(b.get_cell(0, 3).adjacent_mine_count, 0);
}

#[test]
fn adjacency_corner_surrounded_is_three() {
    let b = Board::with_mines(3, &layout(3, &[(1, 0), (0, 1), (1, 1)])).unwrap();
    assert_eq!(b.get_cell(0, 0).adjacent_mine_count, 3);
    let full = Board::with_mines(3, &layout(3, &[(0, 0), (1, 0), (2, 0), (0, 1), (2, 1), (0, 2), (1, 2), (2, 2)])).unwrap();
    assert_eq!(full.get_cell(1, 1).adjacent_mine_count, 8);
}

#[test]
fn adjacency_matches_brute_force_on_generated_boards() {
    for seed in 0..50u64 {
        let b = Board::generate(9, 20, seed).unwrap();
        assert!(counts_consistent(&b));
    }
}

#[test]
fn thousand_seeds_give_consistent_boards() {
    for seed in 0..1000u64 {
        let b = Board::generate(10, 10, seed).unwrap();
        assert_eq!(mines_on(&b), 10);
        assert!(counts_consistent(&b));
    }
}

#[test]
fn coords_to_idx_is_row_major() {
    assert_eq!(coords_to_idx(10, 3, 2), 23);
    assert_eq!(coords_to_idx(255, 254, 254), 65024);
}

#[test]
fn flag_then_unflag_restores_hidden() {
    let mut b = Board::with_mines(3, &layout(3, &[(2, 2)])).unwrap();
    let before: Vec<Cell> = (0..9u8).map(|i| b.get_cell(i % 3, i / 3)).collect();
    b.toggle_flag(1, 1);
    assert_eq!(b.get_cell(1, 1).state, CellState::Flagged);
    b.toggle_flag(1, 1);
    let after: Vec<Cell> = (0..9u8).map(|i| b.get_cell(i % 3, i / 3)).collect();
    assert_eq!(before, after);
}

#[test]
fn flag_on_revealed_cell_is_a_no_op() {
    let mut b = Board::with_mines(2, &layout(2, &[(1, 1)])).unwrap();
    assert_eq!(b.reveal_cell(0, 0), RevealOutcome::Cleared);
    b.toggle_flag(0, 0);
    assert_eq!(b.get_cell(0, 0).state, CellState::Revealed);
}

#[test]
fn flagged_cell_cannot_be_revealed() {
    let mut b = Board::with_mines(2, &layout(2, &[(1, 1)])).unwrap();
    b.toggle_flag(0, 0);
    assert_eq!(b.reveal_cell(0, 0), RevealOutcome::Ignored);
    assert_eq!(b.get_cell(0, 0).state, CellState::Flagged);
}

#[test]
fn cascade_reveals_all_but_the_mine() {
    let mut b = Board::with_mines(3, &layout(3, &[(2, 2)])).unwrap();
    assert_eq!(b.get_cell(0, 0).adjacent_mine_count, 0);
    assert_eq!(b.reveal_cell(0, 0), RevealOutcome::Cleared);
    for y in 0..3 {
        for x in 0..3 {
            let expected = if (x, y) == (2, 2) { CellState::Hidden } else { CellState::Revealed };
            assert_eq!(b.get_cell(x, y).state, expected);
        }
    }
    assert!(b.all_safe_revealed());
}

#[test]
fn cascade_stops_at_numbered_cells() {
    // A wall of mines in column 2 splits the board.
    let mut b = Board::with_mines(5, &layout(5, &[(2, 0), (2, 1), (2, 2), (2, 3), (2, 4)])).unwrap();
    assert_eq!(b.reveal_cell(0, 0), RevealOutcome::Cleared);
    for y in 0..5 {
        assert_eq!(b.get_cell(0, y).state, CellState::Revealed);
        assert_eq!(b.get_cell(1, y).state, CellState::Revealed);
        assert_eq!(b.get_cell(3, y).state, CellState::Hidden);
        assert_eq!(b.get_cell(4, y).state, CellState::Hidden);
    }
    assert!(!b.all_safe_revealed());
}

#[test]
fn cascade_skips_flagged_cells() {
    let mut b = Board::with_mines(3, &layout(3, &[(2, 2)])).unwrap();
    b.toggle_flag(1, 0);
    assert_eq!(b.reveal_cell(0, 0), RevealOutcome::Cleared);
    assert_eq!(b.get_cell(1, 0).state, CellState::Flagged);
    assert_eq!(b.get_cell(0, 2).state, CellState::Revealed);
    assert_eq!(b.get_cell(1, 2).state, CellState::Revealed);
    // Reached only through the flag or through numbered cells.
    assert_eq!(b.get_cell(2, 0).state, CellState::Hidden);
}

#[test]
fn numbered_cell_reveals_alone() {
    let mut b = Board::with_mines(3, &layout(3, &[(2, 2)])).unwrap();
    assert_eq!(b.reveal_cell(1, 1), RevealOutcome::Cleared);
    assert_eq!(b.get_cell(1, 1).state, CellState::Revealed);
    assert_eq!(b.get_cell(0, 0).state, CellState::Hidden);
}

#[test]
fn revealing_a_mine_reports_it() {
    let mut b = Board::with_mines(3, &layout(3, &[(2, 2)])).unwrap();
    assert_eq!(b.reveal_cell(2, 2), RevealOutcome::HitMine);
    assert_eq!(b.get_cell(2, 2).state, CellState::Revealed);
    assert_eq!(b.get_cell(0, 0).state, CellState::Hidden);
    assert_eq!(b.reveal_cell(2, 2), RevealOutcome::Ignored);
}
