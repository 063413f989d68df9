//! The mathematical model of a game state, and what a move does to it.

use crate::models::Cell;
use vstd::prelude::*;

verus! {

/// A game state as plain mathematical values: the nine slots of the board with
/// the move number that each holds (zero for none), the mark that each cell
/// shows, the number of the move that is about to vanish (zero for none) and
/// the number of the latest move.
#[verifier::ext_equal]
pub struct Position {
    pub board: Seq<u16>,
    pub marks: Seq<Cell>,
    pub expiring: u16,
    pub last: u16,
}

/// The mark that move number `n` leaves on the board: none for zero, `X` for an
/// even number, `O` for an odd one.
pub open spec fn mark_of_move(n: u16) -> Cell {
    if n == 0 {
        Cell::N
    } else if n % 2 == 0 {
        Cell::X
    } else {
        Cell::O
    }
}

/// The later of two move numbers.
pub open spec fn later(a: u16, b: u16) -> u16 {
    if a >= b {
        a
    } else {
        b
    }
}

/// The earlier of two move numbers, zero standing for no move at all.
pub open spec fn earlier(a: u16, b: u16) -> u16 {
    if a == 0 {
        b
    } else if b == 0 || a <= b {
        a
    } else {
        b
    }
}

/// The largest move number on the board, zero on an empty board.
pub open spec fn highest(board: Seq<u16>) -> u16 {
    later(
        board[0],
        later(
            board[1],
            later(
                board[2],
                later(
                    board[3],
                    later(board[4], later(board[5], later(board[6], later(board[7], board[8])))),
                ),
            ),
        ),
    )
}

/// The smallest move number on the board that is not zero, zero on an empty board.
pub open spec fn lowest(board: Seq<u16>) -> u16 {
    earlier(
        board[0],
        earlier(
            board[1],
            earlier(
                board[2],
                earlier(
                    board[3],
                    earlier(
                        board[4],
                        earlier(board[5], earlier(board[6], earlier(board[7], board[8]))),
                    ),
                ),
            ),
        ),
    )
}

/// The first slot of the board that holds `n`, nine when none does.
pub open spec fn slot_of(board: Seq<u16>, n: u16) -> int {
    if board[0] == n {
        0
    } else if board[1] == n {
        1
    } else if board[2] == n {
        2
    } else if board[3] == n {
        3
    } else if board[4] == n {
        4
    } else if board[5] == n {
        5
    } else if board[6] == n {
        6
    } else if board[7] == n {
        7
    } else if board[8] == n {
        8
    } else {
        9
    }
}

/// The mark of cell `p`: none on a free slot, `E` on the first slot that holds
/// the expiring move, and otherwise the mark of the move that the slot holds.
pub open spec fn mark_at(board: Seq<u16>, expiring: u16, p: int) -> Cell {
    if board[p] == 0 {
        Cell::N
    } else if expiring != 0 && slot_of(board, expiring) == p {
        Cell::E
    } else {
        mark_of_move(board[p])
    }
}

/// The marks of all nine cells.
pub open spec fn marks_of(board: Seq<u16>, expiring: u16) -> Seq<Cell> {
    Seq::new(9, |p: int| mark_at(board, expiring, p))
}

/// The move that is about to vanish on a board taken as it is: the oldest one
/// once the sixth move has been made, none before.
pub open spec fn expiring_of(board: Seq<u16>) -> u16 {
    if highest(board) >= 6 {
        lowest(board)
    } else {
        0
    }
}

/// The position that a board stands for.
pub open spec fn derived(board: Seq<u16>) -> Position {
    Position {
        board,
        marks: marks_of(board, expiring_of(board)),
        expiring: expiring_of(board),
        last: highest(board),
    }
}

/// The board with the first slot that holds `n` set free.
pub open spec fn vacated(board: Seq<u16>, n: u16) -> Seq<u16> {
    if slot_of(board, n) < 9 {
        board.update(slot_of(board, n), 0)
    } else {
        board
    }
}

/// The number of the expiring move after a move is made on a position whose
/// expiring and latest moves are `expiring` and `last`: the next one where
/// there was one, the first move when the sixth is made, none otherwise.
pub open spec fn expiring_after(expiring: u16, last: u16) -> u16 {
    if expiring != 0 {
        (expiring + 1) as u16
    } else if last + 1 == 6 {
        1
    } else {
        0
    }
}

/// The board after a move on cell `p`: the cell holds the next move number,
/// and the slot of the move that was expiring is free again.
pub open spec fn board_after(v: Position, p: int) -> Seq<u16> {
    let placed = v.board.update(p, (v.last + 1) as u16);
    if v.expiring != 0 {
        vacated(placed, v.expiring)
    } else {
        placed
    }
}

/// The marks with `mark` written on cell `p`, then cell `wiped` cleared and
/// cell `flagged` set to `E`; nine in place of a cell leaves that step out.
pub open spec fn rewritten(marks: Seq<Cell>, p: int, mark: Cell, wiped: int, flagged: int) -> Seq<
    Cell,
> {
    let placed = marks.update(p, mark);
    let cleared = if wiped < 9 {
        placed.update(wiped, Cell::N)
    } else {
        placed
    };
    if flagged < 9 {
        cleared.update(flagged, Cell::E)
    } else {
        cleared
    }
}

/// The marks after a move on cell `p`. The mark of the new move is written on
/// the cell. Where a move was expiring, the cell of its slot is cleared. Then
/// the cell of the slot that holds the move that expires from now on, if
/// there is such a move and such a slot, is set to `E`.
pub open spec fn marks_after(v: Position, p: int) -> Seq<Cell> {
    rewritten(
        v.marks,
        p,
        mark_of_move((v.last + 1) as u16),
        if v.expiring != 0 {
            slot_of(v.board.update(p, (v.last + 1) as u16), v.expiring)
        } else {
            9
        },
        if expiring_after(v.expiring, v.last) != 0 {
            slot_of(board_after(v, p), expiring_after(v.expiring, v.last))
        } else {
            9
        },
    )
}

/// The position after a move on cell `p`.
pub open spec fn step(v: Position, p: int) -> Position {
    Position {
        board: board_after(v, p),
        marks: marks_after(v, p),
        expiring: expiring_after(v.expiring, v.last),
        last: (v.last + 1) as u16,
    }
}

impl Position {
    /// The parts of the position agree: the marks are those that the board and
    /// the expiring move give, the latest move is the largest on the board,
    /// and the expiring move is not after it.
    pub open spec fn well_formed(self) -> bool {
        &&& self.board.len() == 9
        &&& self.marks =~= marks_of(self.board, self.expiring)
        &&& self.last == highest(self.board)
        &&& self.expiring <= self.last
    }

    /// Whether a move on cell `p` is allowed: the cell is on the board and shows no mark.
    pub open spec fn free(self, p: int) -> bool {
        0 <= p < 9 && self.marks[p] == Cell::N
    }
}

/// The position of a game in which no move was made.
pub open spec fn fresh() -> Position {
    derived(Seq::new(9, |p: int| 0u16))
}

} // verus!
