use tic_tac_toe::{check_winner, make_move};

#[test]
fn verify_check_winner_x() {
    let array = vec![
        0, 15, 0,
        13, 11, 0,
        12, 16, 14,
    ];
    let result = check_winner(array);
    assert_eq!(result, 1);
}

#[test]
fn verify_check_winner_o() {
    let array = vec![
        0, 17, 0,
        16, 15, 0,
        12, 13, 14,
    ];
    let result = check_winner(array);
    assert_eq!(result, -1);
}

#[test]
fn verify_check_winner_none() {
    let array = vec![
        0, 15, 0,
        13, 11, 14,
        12, 16, 0,
    ];
    let result = check_winner(array);
    assert_eq!(result, 0);
}

#[test]
fn verify_turn_valid() {
    let array = [
        0, 15, 0,
        13, 11, 14,
        12, 16, 0,
    ];
    let expected = [
        0, 15, 0,
        13, 0, 14,
        12, 16, 17
    ];
    let result = make_move(array, 8);
    assert_eq!(result, Some((expected, 0)));
}

#[test]
fn verify_turn_invalid() {
    let array = [
        0, 15, 0,
        13, 11, 14,
        12, 16, 0,
    ];
    let expected = None;
    let result = make_move(array, 1);
    assert_eq!(result, expected);
}
