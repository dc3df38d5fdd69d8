use connect4::grid::{GameError, GridState, Player};
use connect4::mcts::{estimate_score, finish, get_best_move, min_index, rollout_step, tally, Finish};

fn play(columns: &[usize]) -> GridState {
    let mut grid = GridState::new();
    for &c in columns {
        grid.insert(c).unwrap();
    }
    grid
}

#[test]
fn test_win_is_best_move() {
    let mut test_grid = GridState::new();
    test_grid.insert(0).unwrap();
    test_grid.insert(8).unwrap();
    test_grid.insert(1).unwrap();
    test_grid.insert(8).unwrap();
    test_grid.insert(2).unwrap();
    test_grid.insert(8).unwrap();
    let best_move = get_best_move(test_grid.get_moves(), 10).unwrap();
    assert_eq!(best_move.next.winner, Some(Player::Yellow));
}

#[test]
fn no_moves_is_an_error() {
    assert_eq!(get_best_move(Vec::new(), 5).err(), Some(GameError::NoMovesAvailable));
    let won = play(&[0, 8, 0, 7, 0, 6, 0]);
    assert_eq!(get_best_move(won.get_moves(), 5).err(), Some(GameError::NoMovesAvailable));
}

#[test]
fn score_of_lost_board_is_minus_rollouts() {
    let won = play(&[0, 8, 0, 7, 0, 6, 0]);
    assert_eq!(won.turn, Player::Red);
    assert_eq!(estimate_score(&won, 25), -25);
}

#[test]
fn score_of_won_board_is_rollouts() {
    let mut won = play(&[0, 8, 0, 7, 0, 6, 0]);
    won.turn = Player::Yellow;
    assert_eq!(estimate_score(&won, 25), 25);
}

#[test]
fn score_with_no_rollouts_is_zero() {
    assert_eq!(estimate_score(&GridState::new(), 0), 0);
}

#[test]
fn score_is_bounded_by_rollouts() {
    let s = estimate_score(&GridState::new(), 20);
    assert!(-20 <= s && s <= 20);
}

#[test]
fn finish_is_seen_by_the_mover() {
    let won = play(&[0, 8, 0, 7, 0, 6, 0]);
    assert_eq!(finish(Player::Yellow, &won), Finish::Win);
    assert_eq!(finish(Player::Red, &won), Finish::Lose);
    assert_eq!(finish(Player::Red, &GridState::new()), Finish::Draw);
}

#[test]
fn min_index_takes_first_least() {
    assert_eq!(min_index(&vec![3, -2, 5, -2, 0]), 1);
    assert_eq!(min_index(&vec![7]), 0);
    assert_eq!(min_index(&vec![4, 4, 4]), 0);
    assert_eq!(min_index(&vec![9, 8, 7]), 2);
}

#[test]
fn best_move_is_one_of_the_moves() {
    let grid = play(&[4]);
    let best = get_best_move(grid.get_moves(), 3).unwrap();
    assert_eq!(best.previous.turn, Player::Red);
    assert_eq!(best.next.turn, Player::Yellow);
}

#[test]
fn tally_counts_wins_minus_losses() {
    assert_eq!(tally(&vec![]), 0);
    assert_eq!(tally(&vec![Finish::Win, Finish::Draw, Finish::Win, Finish::Lose]), 1);
    assert_eq!(tally(&vec![Finish::Lose, Finish::Lose, Finish::Draw]), -2);
}

#[test]
fn rollout_step_follows_the_drawn_move() {
    let grid = play(&[2, 2, 2, 2, 2, 2]);
    assert_eq!(grid.move_count(), 8);
    let next = rollout_step(&grid, 2).unwrap();
    assert_eq!(next.cell(5, 3), Some(Player::Yellow));
    assert_eq!(next.turn, Player::Red);
    assert!(rollout_step(&grid, 8).is_none());
    let won = play(&[0, 8, 0, 7, 0, 6, 0]);
    assert_eq!(won.move_count(), 0);
    assert!(rollout_step(&won, 0).is_none());
}

#[test]
fn non_empty_list_always_yields_a_move() {
    let grid = GridState::new();
    assert!(get_best_move(grid.get_moves(), 2).is_ok());
    assert!(get_best_move(grid.get_moves(), 0).is_ok());
}
