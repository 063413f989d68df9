//! Tic-tac-toe in which marks expire: from the sixth move on, every move
//! takes the oldest mark off the board, so that no more than five marks of
//! the players stand on it. The crate keeps the state of such a game, tells
//! who has won, and chooses replies for a machine player.
//!
//! Every function here is verified against a contract. The contracts speak
//! of a state through the `Position` that it stands for.

pub mod ai;
pub mod consistency;
pub mod models;
pub mod play;
pub mod position;
pub mod utils;

use crate::ai::{
    acceptable_reply, best_cell, lemma_best_cell, lemma_quiet_reply, lemma_reply_free, likes,
};
use crate::models::{Cell, GameError, GameState};
use crate::consistency::lemma_next_board;
use crate::position::{board_after, derived, highest};
use crate::utils::{get_possibilities, line_cell, padded, state_vec_to_array};
use vstd::prelude::*;
use vstd::slice::slice_to_vec;

verus! {

/// Line `k` holds three marks of one player.
pub open spec fn line_won(marks: Seq<Cell>, k: int) -> bool {
    let first = marks[line_cell(k, 0)];
    &&& first == Cell::X || first == Cell::O
    &&& marks[line_cell(k, 1)] == first
    &&& marks[line_cell(k, 2)] == first
}

/// The first line that is won, eight where none is.
pub open spec fn won_line(marks: Seq<Cell>) -> int {
    if line_won(marks, 0) {
        0
    } else if line_won(marks, 1) {
        1
    } else if line_won(marks, 2) {
        2
    } else if line_won(marks, 3) {
        3
    } else if line_won(marks, 4) {
        4
    } else if line_won(marks, 5) {
        5
    } else if line_won(marks, 6) {
        6
    } else if line_won(marks, 7) {
        7
    } else {
        8
    }
}

/// The mark of the player who has won: the one that fills the first line that
/// is won, and `N` where no line is won.
pub open spec fn winner(marks: Seq<Cell>) -> Cell {
    if won_line(marks) < 8 {
        marks[line_cell(won_line(marks), 0)]
    } else {
        Cell::N
    }
}

/// A line is won where one of the players has three marks on it that count;
/// a mark that is about to vanish does not.
pub proof fn lemma_line_won(marks: Seq<Cell>, k: int)
    ensures
        line_won(marks, k) <==> likes(marks, k, Cell::X) == 3 || likes(marks, k, Cell::O) == 3,
{
}

/// Nobody has won where no player has three marks that count on any line.
pub proof fn lemma_no_winner(marks: Seq<Cell>)
    requires
        forall|k: int|
            0 <= k < 8 ==> likes(marks, k, Cell::X) < 3 && #[trigger] likes(marks, k, Cell::O) < 3,
    ensures
        winner(marks) == Cell::N,
{
    assert forall|k: int| 0 <= k < 8 implies !line_won(marks, k) by {
        lemma_line_won(marks, k);
        assert(likes(marks, k, Cell::O) < 3);
    }
}

/// Tells who has won on the board that the numbers stand for: 1 for `X`, -1
/// for `O`, 0 where nobody has. The winner is the player whose marks fill the
/// first of the lines that are won, in the order of `get_possibilities`.
pub fn check_winner(array: Vec<u16>) -> (code: i32)
    ensures
        code == winner(derived(padded(array@)).marks).code(),
        code == 0 <==> forall|k: int| 0 <= k < 8 ==> !line_won(derived(padded(array@)).marks, k),
{
    let board = state_vec_to_array(array);
    let game_state = GameState::from_array(board);
    let possibilities = get_possibilities();

    let mut k: usize = 0;
    while k < possibilities.len()
        invariant
            k <= 8,
            possibilities.len() == 8,
            game_state@ == derived(padded(array@)),
            forall|k: int, j: int|
                0 <= k < 8 && 0 <= j < 3 ==> #[trigger] possibilities[k][j] == line_cell(k, j),
            forall|l: int| 0 <= l < k ==> !line_won(game_state@.marks, l),
        decreases 8 - k,
    {
        let possibility = possibilities[k];
        let cell = game_state.get(possibility[0]);
        if cell != Cell::N && cell != Cell::E {
            if game_state.get(possibility[1]) == cell && game_state.get(possibility[2]) == cell {
                assert(line_won(game_state@.marks, k as int));
                return cell.number();
            }
        }
        k += 1;
    }
    Cell::N.number()
}

/// The board after a move on `tile` of the board `array`, and the code of who
/// has won on it.
pub open spec fn moved(array: Seq<u16>, tile: int) -> (Seq<u16>, int) {
    let board = board_after(derived(array), tile);
    (board, winner(derived(board).marks).code())
}

/// Makes the next move on cell `tile` of the board and tells who has won by
/// it. `None` is the answer to a move on a cell that is not free.
pub fn make_move(array: [u16; 9], tile: u16) -> (done: Option<([u16; 9], i32)>)
    requires
        tile < 9,
        highest(array@) < u16::MAX,
    ensures
        done is None <==> !derived(array@).free(tile as int),
        done matches Some((board, code)) ==> (board@, code as int) == moved(array@, tile as int),
{
    let game_state = GameState::from_array(array);

    match game_state.turn(tile) {
        Some(gs) => {
            let winner = check_winner(slice_to_vec(&gs.array));
            proof {
                assert(padded(gs.array@) =~= gs.array@);
            }
            Some((gs.array, winner))
        },
        None => None,
    }
}

/// The nine numbers of a board followed by the code of who has won.
pub open spec fn packed(board: Seq<u16>, code: int) -> Seq<i32> {
    Seq::new(
        10,
        |p: int|
            if p < 9 {
                board[p] as i32
            } else {
                code as i32
            },
    )
}

/// Puts the numbers of a board and the code of who has won into one list.
fn pack(board: &[u16; 9], code: i32) -> (vec: Vec<i32>)
    ensures
        vec@ == packed(board@, code as int),
{
    let mut vec: Vec<i32> = Vec::new();
    let mut p: usize = 0;
    while p < 9
        invariant
            p <= 9,
            vec.len() == p,
            forall|q: int| 0 <= q < p ==> vec[q] == board[q] as i32,
        decreases 9 - p,
    {
        vec.push(board[p] as i32);
        p += 1;
    }
    vec.push(code);
    vec
}

/// `make_move` for a board that comes as a list of any length, with the
/// answer as one list: the nine numbers of the new board and then the code of
/// who has won.
pub fn make_move_wrapper(array: Vec<u16>, tile: u16) -> (done: Option<Vec<i32>>)
    requires
        tile < 9,
        highest(padded(array@)) < u16::MAX,
    ensures
        done is None <==> !derived(padded(array@)).free(tile as int),
        done matches Some(vec) ==> vec@ == packed(
            moved(padded(array@), tile as int).0,
            moved(padded(array@), tile as int).1,
        ),
{
    let array = state_vec_to_array(array);
    match make_move(array, tile) {
        Some((arr, winner)) => Some(pack(&arr, winner)),
        None => None,
    }
}

/// An answer of `ai_turn` with the board as a sequence of numbers.
pub open spec fn seen(done: Result<([u16; 9], i32), GameError>) -> Result<(Seq<u16>, int), GameError> {
    match done {
        Ok((board, code)) => Ok((board@, code as int)),
        Err(e) => Err(e),
    }
}

/// What `ai_turn` may answer to a move on `tile` of the board `array` at the
/// temperature. A move on a cell that is not free is illegal. Where the move
/// wins, the answer is the board after it. Else there must be a free cell for
/// the reply, and the answer is the board after a reply that may be chosen at
/// the temperature, with the code of who has won by then.
pub open spec fn answered(
    array: Seq<u16>,
    tile: int,
    temperature: u32,
    done: Result<(Seq<u16>, int), GameError>,
) -> bool {
    let first = moved(array, tile);
    match done {
        Err(GameError::IllegalMove) => !derived(array).free(tile),
        Err(GameError::NoMovesAvailable) => {
            &&& derived(array).free(tile)
            &&& first.1 == 0
            &&& forall|p: int| !derived(first.0).free(p)
        },
        Ok(second) => {
            &&& derived(array).free(tile)
            &&& if first.1 != 0 {
                second == first
            } else {
                exists|reply: int|
                    #[trigger] acceptable_reply(derived(first.0), temperature, reply) && second
                        == moved(first.0, reply)
            }
        },
    }
}

/// What `ai_turn` answers at temperature zero to a move on `tile` of the
/// board `array`: the reply is the best one.
pub open spec fn quiet_answer(array: Seq<u16>, tile: int) -> Result<(Seq<u16>, int), GameError> {
    let first = moved(array, tile);
    if !derived(array).free(tile) {
        Err(GameError::IllegalMove)
    } else if first.1 != 0 {
        Ok(first)
    } else if best_cell(derived(first.0)) < 9 {
        Ok(moved(first.0, best_cell(derived(first.0))))
    } else {
        Err(GameError::NoMovesAvailable)
    }
}

/// Makes the move of the player on cell `tile` and then, unless the player
/// has won by it, the reply that is chosen at the temperature, which is in
/// thousandths of a point. The answer is the board after both and the code of
/// who has won.
pub fn ai_turn(array: [u16; 9], tile: u16, temperature: u32) -> (done: Result<
    ([u16; 9], i32),
    GameError,
>)
    requires
        tile < 9,
        highest(array@) < u16::MAX - 1,
    ensures
        answered(array@, tile as int, temperature, seen(done)),
        temperature == 0 ==> seen(done) == quiet_answer(array@, tile as int),
{
    match make_move(array, tile) {
        Some((array1, result)) => {
            if result != 0 {
                Ok((array1, result))
            } else {
                proof {
                    lemma_next_board(array@, tile as int);
                }
                let game_state = GameState::from_array(array1);
                match ai::turn(&game_state, temperature) {
                    Ok(next) => {
                        proof {
                            lemma_reply_free(derived(array1@), temperature, next as int);
                            if temperature == 0 {
                                lemma_quiet_reply(derived(array1@), next as int);
                            }
                        }
                        match make_move(array1, next) {
                            Some(replied) => {
                                proof {
                                    let first = moved(array@, tile as int);
                                    assert(first == (array1@, 0int));
                                    assert(acceptable_reply(
                                        derived(first.0),
                                        temperature,
                                        next as int,
                                    ));
                                    assert((replied.0@, replied.1 as int) == moved(
                                        first.0,
                                        next as int,
                                    ));
                                }
                                Ok(replied)
                            },
                            None => Err(GameError::IllegalMove),
                        }
                    },
                    Err(e) => {
                        proof {
                            lemma_best_cell(derived(array1@));
                        }
                        Err(e)
                    },
                }
            }
        },
        None => Err(GameError::IllegalMove),
    }
}

/// `ai_turn` for a board that comes as a list of any length, with the answer
/// as one list: the nine numbers of the new board and then the code of who
/// has won. There is no list where `ai_turn` gives an error.
pub fn ai_turn_wrapper(array: Vec<u16>, tile: u16, temperature: u32) -> (done: Option<Vec<i32>>)
    requires
        tile < 9,
        highest(padded(array@)) < u16::MAX - 1,
    ensures
        match done {
            Some(vec) => exists|board: Seq<u16>, code: int|
                answered(padded(array@), tile as int, temperature, Ok((board, code))) && vec@
                    == #[trigger] packed(board, code),
            None => answered(
                padded(array@),
                tile as int,
                temperature,
                Err(GameError::IllegalMove),
            ) || answered(
                padded(array@),
                tile as int,
                temperature,
                Err(GameError::NoMovesAvailable),
            ),
        },
        temperature == 0 ==> match quiet_answer(padded(array@), tile as int) {
            Ok((board, code)) => done matches Some(vec) && vec@ == packed(board, code),
            Err(_) => done is None,
        },
{
    let array = state_vec_to_array(array);
    let (new, winner) = match ai_turn(array, tile, temperature) {
        Ok(tuple) => tuple,
        Err(_) => return None,
    };
    Some(pack(&new, winner))
}

} // verus!
