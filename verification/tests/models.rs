use tic_tac_toe::models::{Cell, GameState};

#[test]
/// Parsing a game state that has an expiring move in it
fn game_state_correct_full() {
    let array = [
        0, 3, 0,
        4, 6, 5,
        0, 7, 2
    ];
    let expected = [
        [Cell::N, Cell::O, Cell::N],
        [Cell::X, Cell::X, Cell::O],
        [Cell::N, Cell::O, Cell::E],
    ];

    let game_state = GameState::from_array(array);
    assert_eq!(game_state.state, expected);
}

#[test]
/// Parsing a game state that does not contain an
/// expiring move, ie, an early game state
fn game_state_correct_partial() {
    let array = [
        0, 3, 0,
        4, 1, 5,
        0, 0, 2
    ];
    let expected = [
        [Cell::N, Cell::O, Cell::N],
        [Cell::X, Cell::O, Cell::O],
        [Cell::N, Cell::N, Cell::X],
    ];

    let game_state = GameState::from_array(array);
    assert_eq!(game_state.state, expected);
}

#[test]
fn game_state_getter() {
    let array = [
        0, 3, 0,
        4, 6, 5,
        0, 7, 2
    ];

    let game_state = GameState::from_array(array);
    let got = game_state.get(4);
    let expected = Cell::X;
    assert_eq!(got, expected);
}

#[test]
fn game_state_setter() {
    let array = [
        0, 3, 0,
        4, 6, 5,
        0, 7, 2
    ];
    let ex_array = [
        0, 3, 0,
        4, 0, 5,
        0, 7, 2
    ];
    let expected = GameState::from_array(ex_array);

    let mut game_state = GameState::from_array(array);
    game_state.set(4, Cell::N);

    assert_eq!(game_state.state, expected.state);
}

#[test]
/// test an early game turn that has no expiring
/// move in it or even after it
fn game_state_turn_partial_1() {
    let array = [
        0, 0, 0,
        0, 1, 0,
        2, 0, 3,
    ];
    let ex_array = [
        0, 0, 0,
        4, 1, 0,
        2, 0, 3,
    ];

    let mut game_state = GameState::from_array(array);
    let expected = GameState::from_array(ex_array);

    game_state = game_state.turn(3).unwrap();

    assert_eq!(game_state, expected);
}

#[test]
/// tests the boundary game state that itself
/// has no expiring move but the resultant
/// state has it, it happens exactly at turn 6
fn game_state_turn_partial_2() {
    let array = [
        0, 5, 0,
        4, 1, 0,
        2, 0, 3,
    ];
    let ex_array = [
        0, 5, 6,
        4, 1, 0,
        2, 0, 3,
    ];

    let mut game_state = GameState::from_array(array);
    let expected = GameState::from_array(ex_array);

    game_state = game_state.turn(2).unwrap();

    assert_eq!(game_state, expected);
}

#[test]
/// tests a turn right after the boundry
/// condition at turn 7
fn game_state_turn_full_1() {
    let array = [
        0, 5, 0,
        4, 1, 0,
        2, 6, 3,
    ];
    let ex_array = [
        0, 5, 7,
        4, 0, 0,
        2, 6, 3,
    ];

    let mut game_state = GameState::from_array(array);
    let expected = GameState::from_array(ex_array);

    game_state = game_state.turn(2).unwrap();

    assert_eq!(game_state, expected);
}

#[test]
/// tests any random turn that has no
/// special cases
fn game_state_turn_full_2() {
    let array = [
        0, 15, 0,
        14, 11, 0,
        12, 16, 13,
    ];
    let ex_array = [
        0, 15, 17,
        14, 0, 0,
        12, 16, 13,
    ];

    let mut game_state = GameState::from_array(array);
    let expected = GameState::from_array(ex_array);

    game_state = game_state.turn(2).unwrap();

    assert_eq!(game_state, expected);
}

#[test]
/// tests the handling of an illegal turn by
/// returning None
fn game_state_illegal_turn() {
    let array = [
        0, 15, 0,
        14, 11, 0,
        12, 16, 13,
    ];

    let game_state = GameState::from_array(array);
    let game_state = game_state.turn(1);
    assert_eq!(game_state, None);
}
