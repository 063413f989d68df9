use tic_tac_toe::ai::{calculate_opportunity, perturbation, select, turn};
use tic_tac_toe::models::{Cell, GameError, GameState};

fn score(array: [u16; 9], opponent: Cell) -> i64 {
    calculate_opportunity(&GameState::from_array(array), opponent, 0)
}

#[test]
fn empty_board_is_worth_nothing() {
    assert_eq!(score([0; 9], Cell::X), 0);
    assert_eq!(score([0; 9], Cell::O), 0);
}

#[test]
fn single_mark_is_worth_one_point_a_line() {
    assert_eq!(score([0, 0, 0, 0, 2, 0, 0, 0, 0], Cell::O), 4000);
    assert_eq!(score([0, 0, 0, 0, 2, 0, 0, 0, 0], Cell::X), -4000);
    assert_eq!(score([2, 0, 0, 0, 0, 0, 0, 0, 0], Cell::O), 3000);
    assert_eq!(score([0, 2, 0, 0, 0, 0, 0, 0, 0], Cell::O), 2000);
}

#[test]
fn full_line_of_the_opponent_counts_its_cube_alone() {
    assert_eq!(score([6, 1, 3, 2, 0, 0, 4, 5, 0], Cell::X), -27000);
}

#[test]
fn full_line_of_the_player_counts_its_cube_and_the_bonus() {
    let state = GameState::from_array([0, 1, 3, 2, 0, 0, 4, 0, 5]).turn(0).unwrap();
    assert_eq!(state.array, [6, 1, 3, 2, 0, 0, 4, 0, 5]);
    assert_eq!(calculate_opportunity(&state, Cell::O, 0), 20000);
}

#[test]
fn contested_lines_get_the_bonus_of_eight() {
    assert_eq!(score([2, 1, 3, 0, 0, 0, 0, 0, 0], Cell::O), -8000);
    assert_eq!(score([2, 1, 3, 0, 0, 0, 0, 0, 0], Cell::X), 0);
    assert_eq!(score([2, 4, 1, 0, 0, 0, 0, 0, 0], Cell::O), 0);
}

#[test]
fn expiring_mark_is_left_out_of_the_score() {
    assert_eq!(score([2, 4, 6, 0, 0, 0, 0, 0, 0], Cell::O), 11000);
}

#[test]
fn opponent_without_a_mark_of_its_own_takes_nothing_away() {
    assert_eq!(score([2, 4, 6, 0, 0, 0, 0, 0, 0], Cell::E), 11000);
    assert_eq!(score([1, 3, 0, 0, 0, 0, 0, 0, 0], Cell::E), 0);
    assert_eq!(score([1, 3, 2, 0, 0, 0, 0, 0, 0], Cell::N), 11000);
}

#[test]
fn noise_is_none_at_temperature_zero() {
    assert_eq!(perturbation(0, 0), 0);
    assert_eq!(perturbation(0, 12345), 0);
    assert_eq!(perturbation(0, u64::MAX), 0);
}

#[test]
fn noise_lies_strictly_within_the_temperature() {
    assert_eq!(perturbation(1, 0), 0);
    assert_eq!(perturbation(1, 77), 0);
    assert_eq!(perturbation(500, 0), -499);
    assert_eq!(perturbation(500, 499), 0);
    assert_eq!(perturbation(500, 998), 499);
    assert_eq!(perturbation(500, 999), -499);
    assert_eq!(perturbation(2, 4), 0);
    assert_eq!(perturbation(u32::MAX, 0), -(u32::MAX as i64) + 1);
    assert_eq!(perturbation(u32::MAX, u32::MAX as u64), 1);
    assert_eq!(perturbation(u32::MAX, 2 * (u32::MAX as u64) - 2), u32::MAX as i64 - 1);
    assert_eq!(perturbation(u32::MAX, 2 * (u32::MAX as u64) - 1), -(u32::MAX as i64) + 1);
    for word in 0..5000u64 {
        let noise = perturbation(1000, word.wrapping_mul(0x9E37_79B9_7F4A_7C15));
        assert!(-1000 < noise && noise < 1000);
    }
}

#[test]
fn score_at_a_temperature_stays_within_it() {
    let state = GameState::from_array([6, 1, 3, 2, 0, 0, 4, 5, 0]);
    let mut seen = std::collections::BTreeSet::new();
    for _ in 0..500 {
        let score = calculate_opportunity(&state, Cell::X, 300);
        assert!(-27300 < score && score < -26700, "{}", score);
        seen.insert(score);
    }
    assert!(seen.len() > 1);
}

#[test]
fn highest_score_is_selected_and_the_last_of_equals() {
    assert_eq!(select(&vec![]), None);
    assert_eq!(select(&vec![(5, 3)]), Some(3));
    assert_eq!(select(&vec![(5, 3), (9, 4), (-2, 7)]), Some(4));
    assert_eq!(select(&vec![(9, 1), (5, 3), (9, 4), (-2, 7)]), Some(4));
    assert_eq!(select(&vec![(-1, 0), (-1, 2), (-1, 6), (-3, 7)]), Some(6));
    assert_eq!(select(&vec![(i64::MIN, 2), (i64::MAX, 5), (0, 8)]), Some(5));
}

#[test]
fn reply_completes_a_line_when_it_can() {
    let state = GameState::from_array([0, 1, 3, 2, 0, 0, 4, 0, 5]);
    assert_eq!(turn(&state, 0), Ok(0));
}

#[test]
fn reply_on_an_empty_board_is_the_centre() {
    assert_eq!(turn(&GameState::new(), 0), Ok(4));
}

#[test]
fn last_of_the_equally_good_replies_is_taken() {
    assert_eq!(turn(&GameState::from_array([0, 0, 0, 0, 1, 0, 0, 0, 0]), 0), Ok(8));
    assert_eq!(turn(&GameState::from_array([6, 0, 0, 0, 0, 0, 0, 0, 0]), 0), Ok(8));
}

#[test]
fn reply_without_noise_is_the_same_every_time() {
    let state = GameState::from_array([0, 1, 0, 2, 0, 0, 3, 0, 0]);
    let first = turn(&state, 0);
    assert_eq!(first, Ok(4));
    for _ in 0..50 {
        assert_eq!(turn(&state, 0), first);
    }
}

#[test]
fn reply_at_a_temperature_is_a_free_cell() {
    let state = GameState::from_array([0, 1, 0, 2, 0, 0, 3, 0, 0]);
    for _ in 0..200 {
        let tile = turn(&state, 100_000).unwrap();
        assert!(tile < 9);
        assert_eq!(state.get(tile), Cell::N);
    }
}

#[test]
fn no_reply_on_a_full_board() {
    let state = GameState::from_array([1, 2, 3, 4, 5, 5, 5, 5, 5]);
    assert_eq!(turn(&state, 0), Err(GameError::NoMovesAvailable));
    assert_eq!(turn(&state, 900), Err(GameError::NoMovesAvailable));
}

#[test]
fn reply_wins_on_the_board_after_the_sixth_move() {
    let state = GameState::from_array([0, 1, 3, 2, 6, 0, 4, 0, 5]);
    assert_eq!(turn(&state, 0), Ok(5));
    assert_eq!(state.turn(5).unwrap().array, [0, 0, 3, 2, 6, 7, 4, 0, 5]);
    assert_eq!(tic_tac_toe::check_winner(vec![0, 0, 3, 2, 6, 7, 4, 0, 5]), -1);
}

#[test]
fn reply_on_a_state_that_was_written_by_hand() {
    let mut state = GameState::new();
    state.set(4, Cell::O);
    assert_eq!(state.array, [0; 9]);
    assert_eq!(turn(&state, 0), Ok(7));
    let next = state.turn(0).unwrap();
    assert_eq!(next.array, [1, 0, 0, 0, 0, 0, 0, 0, 0]);
    assert_eq!(next.get(0), Cell::O);
    assert_eq!(next.get(4), Cell::O);
    assert_eq!(state.turn(4), None);
}
