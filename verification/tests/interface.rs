use tic_tac_toe::models::GameError;
use tic_tac_toe::{ai_turn, ai_turn_wrapper, check_winner, make_move, make_move_wrapper};

#[test]
fn nobody_wins_without_three_like_marks_on_a_line() {
    assert_eq!(check_winner(vec![0; 9]), 0);
    assert_eq!(check_winner(vec![2, 4, 1, 0, 3, 0, 0, 0, 0]), 0);
    assert_eq!(check_winner(vec![2, 1, 4, 3, 5, 0, 0, 0, 0]), 0);
}

#[test]
fn expiring_mark_does_not_count_for_a_win() {
    assert_eq!(check_winner(vec![6, 8, 10, 7, 9, 0, 0, 0, 11]), 0);
    assert_eq!(check_winner(vec![12, 14, 16, 0, 0, 0, 0, 0, 0]), 0);
    assert_eq!(check_winner(vec![12, 14, 16, 11, 0, 0, 0, 0, 0]), 1);
}

#[test]
fn first_line_in_order_decides_between_two() {
    assert_eq!(check_winner(vec![8, 10, 12, 7, 9, 11, 5, 0, 0]), 1);
    assert_eq!(check_winner(vec![7, 9, 11, 8, 10, 12, 5, 0, 0]), -1);
}

#[test]
fn winner_is_found_on_columns_and_diagonals() {
    assert_eq!(check_winner(vec![2, 0, 0, 4, 1, 0, 0, 3, 0]), 0);
    assert_eq!(check_winner(vec![2, 1, 0, 4, 3, 0, 6, 7, 5]), 1);
    assert_eq!(check_winner(vec![3, 2, 0, 0, 5, 4, 0, 6, 7]), -1);
    assert_eq!(check_winner(vec![0, 3, 4, 5, 6, 0, 8, 7, 0]), 1);
}

#[test]
fn list_of_any_length_is_checked_as_a_board() {
    assert_eq!(check_winner(vec![]), 0);
    assert_eq!(check_winner(vec![1, 3, 5]), -1);
    assert_eq!(check_winner(vec![0, 0, 0, 0, 0, 0, 2, 4, 0, 6, 8]), 0);
}

#[test]
fn move_that_completes_a_line_reports_the_winner() {
    assert_eq!(
        make_move([1, 3, 0, 2, 4, 0, 0, 0, 0], 2),
        Some(([1, 3, 5, 2, 4, 0, 0, 0, 0], -1))
    );
    assert_eq!(
        make_move([2, 4, 0, 1, 3, 0, 5, 0, 0], 2),
        Some(([2, 4, 6, 1, 3, 0, 5, 0, 0], 1))
    );
}

#[test]
fn move_on_the_expiring_cell_is_refused() {
    assert_eq!(make_move([0, 3, 0, 4, 6, 5, 0, 7, 2], 8), None);
}

#[test]
fn wrapper_returns_board_and_winner_in_one_list() {
    assert_eq!(
        make_move_wrapper(vec![0, 15, 0, 13, 11, 14, 12, 16, 0], 8),
        Some(vec![0, 15, 0, 13, 0, 14, 12, 16, 17, 0])
    );
    assert_eq!(make_move_wrapper(vec![1, 3, 0, 2, 4], 2), Some(vec![1, 3, 5, 2, 4, 0, 0, 0, 0, -1]));
    assert_eq!(make_move_wrapper(vec![0, 15, 0, 13, 11, 14, 12, 16, 0], 1), None);
}

#[test]
fn machine_replies_with_the_best_cell() {
    assert_eq!(
        ai_turn([0, 1, 0, 2, 0, 0, 0, 0, 0], 6, 0),
        Ok(([0, 1, 0, 2, 4, 0, 3, 0, 0], 0))
    );
    assert_eq!(
        ai_turn_wrapper(vec![0, 1, 0, 2], 6, 0),
        Some(vec![0, 1, 0, 2, 4, 0, 3, 0, 0, 0])
    );
}

#[test]
fn machine_does_not_reply_to_a_winning_move() {
    assert_eq!(
        ai_turn([1, 3, 0, 2, 4, 0, 0, 0, 0], 2, 0),
        Ok(([1, 3, 5, 2, 4, 0, 0, 0, 0], -1))
    );
    assert_eq!(
        ai_turn_wrapper(vec![1, 3, 0, 2, 4, 0, 0, 0, 0], 2, 700),
        Some(vec![1, 3, 5, 2, 4, 0, 0, 0, 0, -1])
    );
}

#[test]
fn machine_wins_where_it_can() {
    assert_eq!(
        ai_turn([0, 1, 0, 2, 0, 0, 4, 0, 0], 2, 0),
        Ok(([6, 1, 5, 2, 0, 0, 4, 0, 0], 1))
    );
}

#[test]
fn illegal_move_of_the_player_is_an_error() {
    assert_eq!(ai_turn([0, 1, 0, 2, 0, 0, 0, 0, 0], 1, 0), Err(GameError::IllegalMove));
    assert_eq!(ai_turn([0, 1, 0, 2, 0, 0, 0, 0, 0], 3, 250), Err(GameError::IllegalMove));
    assert_eq!(ai_turn_wrapper(vec![0, 1, 0, 2], 1, 0), None);
}

#[test]
fn full_board_leaves_no_reply() {
    assert_eq!(
        ai_turn([1, 2, 1, 1, 2, 2, 2, 1, 0], 8, 0),
        Err(GameError::NoMovesAvailable)
    );
    assert_eq!(ai_turn_wrapper(vec![1, 2, 1, 1, 2, 2, 2, 1, 0], 8, 0), None);
}

#[test]
fn reply_at_a_temperature_is_one_that_the_noise_allows() {
    for _ in 0..200 {
        let cool = ai_turn([0, 1, 0, 2, 0, 0, 0, 0, 0], 6, 500);
        assert_eq!(cool, Ok(([0, 1, 0, 2, 4, 0, 3, 0, 0], 0)));

        let (board, code) = ai_turn([0, 1, 0, 2, 0, 0, 0, 0, 0], 6, 1500).unwrap();
        assert_eq!(code, 0);
        assert!(
            board == [0, 1, 0, 2, 4, 0, 3, 0, 0] || board == [0, 1, 0, 2, 0, 4, 3, 0, 0],
            "{:?}",
            board
        );
    }
}
