use tic_tac_toe::ai::turn;
use tic_tac_toe::models::GameState;

#[test]
fn ai_test_winning_1() {
    let array = [
        0, 1, 3,
        2, 0, 0,
        4, 0, 0
    ];
    let _ex_array = [
        6, 1, 3,
        2, 0, 0,
        4, 5, 0
    ];
    let game_state = GameState::from_array(array);
    let result = turn(&game_state, 0).unwrap();

    assert_eq!(result, 0);
}
