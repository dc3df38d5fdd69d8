use connect4::grid::{GameError, GameMove, GridState, Player, COLUMNS, ROWS};

fn play(columns: &[usize]) -> GridState {
    let mut grid = GridState::new();
    for &c in columns {
        grid.insert(c).unwrap();
    }
    grid
}

fn same_cells(a: &GridState, b: &GridState) -> bool {
    for r in 0..ROWS {
        for c in 0..COLUMNS {
            if a.cell(r, c) != b.cell(r, c) {
                return false;
            }
        }
    }
    true
}

#[test]
fn test_detect_row_win() {
    let mut grid = GridState::new();
    grid.insert(1).unwrap();
    grid.insert(8).unwrap();
    grid.insert(2).unwrap();
    grid.insert(7).unwrap();
    grid.insert(3).unwrap();
    grid.insert(6).unwrap();
    grid.insert(0).unwrap();
    assert_eq!(grid.winner.unwrap(), Player::Yellow);
}

#[test]
fn test_cannot_insert_after_win() {
    let mut grid = GridState::new();
    grid.insert(0).unwrap();
    grid.insert(8).unwrap();
    grid.insert(1).unwrap();
    grid.insert(7).unwrap();
    grid.insert(2).unwrap();
    grid.insert(6).unwrap();
    grid.insert(3).unwrap();
    assert!(grid.insert(5).is_err());
}

#[test]
fn test_detect_column_win() {
    let mut grid = GridState::new();
    grid.insert(0).unwrap();
    grid.insert(8).unwrap();
    grid.insert(0).unwrap();
    grid.insert(7).unwrap();
    grid.insert(0).unwrap();
    grid.insert(6).unwrap();
    grid.insert(0).unwrap();
    assert_eq!(grid.winner.unwrap(), Player::Yellow);
}

#[test]
fn test_detect_rising_win() {
    let mut grid = GridState::new();
    grid.insert(0).unwrap();
    grid.insert(1).unwrap();
    grid.insert(1).unwrap();
    grid.insert(2).unwrap();
    grid.insert(3).unwrap();
    grid.insert(2).unwrap();
    grid.insert(2).unwrap();
    grid.insert(3).unwrap();
    grid.insert(4).unwrap();
    grid.insert(3).unwrap();
    grid.insert(3).unwrap();
    assert_eq!(grid.winner.unwrap(), Player::Yellow);
}

#[test]
fn test_no_early_winner() {
    let mut grid = GridState::new();
    grid.insert(0).unwrap();
    grid.insert(8).unwrap();
    grid.insert(0).unwrap();
    grid.insert(7).unwrap();
    grid.insert(0).unwrap();
    grid.insert(6).unwrap();
    assert_eq!(grid.winner, None);
}

#[test]
fn test_no_moves_after_win() {
    let mut grid = GridState::new();
    grid.insert(0).unwrap();
    grid.insert(8).unwrap();
    grid.insert(0).unwrap();
    grid.insert(7).unwrap();
    grid.insert(0).unwrap();
    grid.insert(6).unwrap();
    grid.insert(0).unwrap();
    assert_eq!(grid.get_moves().len(), 0);
}

#[test]
fn new_board_is_empty_with_yellow_to_move() {
    let grid = GridState::new();
    assert_eq!(grid.turn, Player::Yellow);
    assert_eq!(grid.winner, None);
    for r in 0..ROWS {
        for c in 0..COLUMNS {
            assert_eq!(grid.cell(r, c), None);
        }
    }
}

#[test]
fn invalid_column_is_refused() {
    let mut grid = play(&[4]);
    let before = grid;
    assert_eq!(grid.insert(9), Err(GameError::InvalidColumn));
    assert_eq!(grid.insert(100), Err(GameError::InvalidColumn));
    assert!(same_cells(&grid, &before));
    assert_eq!(grid.turn, Player::Red);
}

#[test]
fn full_column_is_refused() {
    let mut grid = play(&[2, 2, 2, 2, 2, 2]);
    assert_eq!(grid.winner, None);
    let before = grid;
    assert_eq!(grid.insert(2), Err(GameError::ColumnFull));
    assert!(same_cells(&grid, &before));
    assert_eq!(grid.turn, before.turn);
    assert_eq!(grid.get_moves().len(), COLUMNS - 1);
}

#[test]
fn game_over_refuses_every_column_and_keeps_board() {
    let mut grid = play(&[0, 8, 1, 7, 2, 6, 3]);
    assert_eq!(grid.winner, Some(Player::Yellow));
    let before = grid;
    for c in 0..COLUMNS {
        assert_eq!(grid.insert(c), Err(GameError::GameOver));
    }
    assert!(same_cells(&grid, &before));
    assert_eq!(grid.turn, Player::Red);
    assert_eq!(grid.winner, Some(Player::Yellow));
}

#[test]
fn full_column_takes_precedence_over_game_over() {
    let mut grid = play(&[5, 5, 5, 5, 5, 5, 0, 8, 1, 7, 2, 6, 3]);
    assert_eq!(grid.winner, Some(Player::Yellow));
    assert_eq!(grid.insert(5), Err(GameError::ColumnFull));
    assert_eq!(grid.insert(4), Err(GameError::GameOver));
}

#[test]
fn tiles_stack_bottom_to_top() {
    let mut grid = GridState::new();
    for k in 0..ROWS {
        grid.insert(4).unwrap();
        let row = ROWS - 1 - k;
        let expected = if k % 2 == 0 { Player::Yellow } else { Player::Red };
        assert_eq!(grid.cell(row, 4), Some(expected));
        if row > 0 {
            assert_eq!(grid.cell(row - 1, 4), None);
        }
    }
}

#[test]
fn turn_alternates_on_success_only() {
    let mut grid = GridState::new();
    grid.insert(0).unwrap();
    assert_eq!(grid.turn, Player::Red);
    grid.insert(0).unwrap();
    assert_eq!(grid.turn, Player::Yellow);
    assert!(grid.insert(COLUMNS).is_err());
    assert_eq!(grid.turn, Player::Yellow);
}

#[test]
fn vertical_win_goes_to_first_and_third_placer() {
    let grid = play(&[8, 0, 8, 0, 7, 0, 7, 0]);
    assert_eq!(grid.winner, Some(Player::Red));
}

#[test]
fn falling_diagonal_win() {
    // Yellow ends on (2,0), (3,1), (4,2), (5,3).
    let grid = play(&[3, 2, 2, 1, 1, 0, 1, 0, 0, 8, 0]);
    assert_eq!(grid.winner, Some(Player::Yellow));
}

#[test]
fn three_in_a_row_then_elsewhere_is_no_win() {
    let grid = play(&[0, 8, 1, 8, 2, 7, 5]);
    assert_eq!(grid.winner, None);
}

#[test]
fn empty_board_offers_every_column_in_order() {
    let grid = GridState::new();
    let moves = grid.get_moves();
    assert_eq!(moves.len(), COLUMNS);
    for (c, m) in moves.iter().enumerate() {
        assert!(same_cells(&m.previous, &grid));
        assert_eq!(m.previous.turn, Player::Yellow);
        assert_eq!(m.next.turn, Player::Red);
        assert_eq!(m.next.cell(ROWS - 1, c), Some(Player::Yellow));
    }
}

#[test]
fn moves_skip_full_columns() {
    let grid = play(&[1, 1, 1, 1, 1, 1]);
    let moves = grid.get_moves();
    assert_eq!(moves.len(), COLUMNS - 1);
    assert_eq!(moves[0].next.cell(ROWS - 1, 0), Some(Player::Yellow));
    assert_eq!(moves[1].next.cell(ROWS - 1, 2), Some(Player::Yellow));
}

#[test]
fn inserting_into_a_copy_leaves_the_original() {
    let original = play(&[3, 4]);
    let mut copy = original.clone();
    copy.insert(3).unwrap();
    assert_eq!(original.cell(4, 3), None);
    assert_eq!(copy.cell(4, 3), Some(Player::Yellow));
    assert_eq!(original.turn, Player::Yellow);
    assert_eq!(copy.turn, Player::Red);
    assert_eq!(original.winner, None);
}

#[test]
fn row_markers_draw_cells() {
    let grid = play(&[0, 1]);
    let bottom: String = grid.row_markers(ROWS - 1).into_iter().collect();
    assert_eq!(bottom, "YR_______");
    let top: String = grid.row_markers(0).into_iter().collect();
    assert_eq!(top, "_________");
}

#[test]
fn empty_game_move_holds_two_empty_boards() {
    let m = GameMove::new();
    assert_eq!(m.previous.turn, Player::Yellow);
    assert_eq!(m.next.turn, Player::Yellow);
    assert!(same_cells(&m.previous, &GridState::new()));
    assert!(same_cells(&m.next, &GridState::new()));
}

#[test]
fn other_player() {
    assert_eq!(Player::Yellow.other(), Player::Red);
    assert_eq!(Player::Red.other(), Player::Yellow);
}
