//! The marks of the cells and the state of a game.

use crate::consistency::lemma_step_well_formed;
use crate::play::{in_play, lemma_fresh_in_play, lemma_step_in_play};
use crate::position::{
    derived, fresh, highest, lowest, mark_of_move, marks_of, slot_of, step, Position,
};
use vstd::prelude::*;

verus! {

/// What a cell of the board shows: the mark of the first player, the mark of
/// the second player, a mark that is about to vanish, or nothing.
#[derive(Copy, Clone, PartialEq, Eq, Structural, Debug)]
pub enum Cell {
    X,
    O,
    E,
    N,
}

impl Cell {
    /// The number by which a mark is known outside: 1 for `X`, -1 for `O`, 0 for the others.
    pub open spec fn code(self) -> int {
        match self {
            Cell::X => 1,
            Cell::O => -1,
            _ => 0,
        }
    }

    /// The number of the mark, for callers that know marks as numbers.
    pub fn number(&self) -> (n: i32)
        ensures
            n == self.code(),
    {
        match self {
            Cell::X => 1,
            Cell::O => -1,
            _ => 0,
        }
    }

    /// The mark of a player by its number; any other number gives `N`.
    pub fn cell(i: i32) -> (c: Self)
        ensures
            c == (if i == 1 {
                Cell::X
            } else if i == -1 {
                Cell::O
            } else {
                Cell::N
            }),
    {
        match i {
            1 => Self::X,
            -1 => Self::O,
            _ => Self::N,
        }
    }
}

/// Why a move was not made.
#[derive(Copy, Clone, PartialEq, Eq, Structural, Debug)]
pub enum GameError {
    /// The cell is not free.
    IllegalMove,
    /// No cell is free.
    NoMovesAvailable,
}

/// One state of a game: the board as an array of move numbers, the marks that
/// the cells show, and the numbers of the expiring and of the latest move.
#[derive(PartialEq, Debug, Clone, Copy)]
pub struct GameState {
    pub array: [u16; 9],
    pub state: [[Cell; 3]; 3],
    pub expiring: u16,
    pub last: u16,
}

impl View for GameState {
    type V = Position;

    open spec fn view(&self) -> Position {
        Position {
            board: self.array@,
            marks: Seq::new(9, |p: int| self.state[p / 3][p % 3]),
            expiring: self.expiring,
            last: self.last,
        }
    }
}

/// A state is no more than the position that it stands for: two states with
/// one position are the same state. So to read one board twice gives one and
/// the same state, with the same latest move, expiring move and marks.
pub proof fn lemma_one_state(first: GameState, second: GameState)
    requires
        first@ == second@,
    ensures
        first == second,
{
    assert(first.array =~= second.array);
    assert forall|r: int| 0 <= r < 3 implies first.state[r] == second.state[r] by {
        assert forall|c: int| 0 <= c < 3 implies first.state[r][c] == second.state[r][c] by {
            let p = 3 * r + c;
            assert(p / 3 == r && p % 3 == c);
            assert(first@.marks[p] == first.state[r][c]);
            assert(second@.marks[p] == second.state[r][c]);
        }
        assert(first.state[r] =~= second.state[r]);
    }
    assert(first.state =~= second.state);
}

/// The first slot of the board that holds `n`.
fn locate(array: &[u16; 9], n: u16) -> (found: Option<usize>)
    ensures
        match found {
            Some(p) => p < 9 && p == slot_of(array@, n),
            None => slot_of(array@, n) == 9,
        },
{
    let mut p: usize = 0;
    while p < 9
        invariant
            p <= 9,
            forall|q: int| 0 <= q < p ==> array[q] != n,
        decreases 9 - p,
    {
        if array[p] == n {
            return Some(p);
        }
        p += 1;
    }
    None
}

impl GameState {
    /// The state stands for a well-formed position.
    pub open spec fn wf(&self) -> bool {
        self@.well_formed()
    }

    /// The state of a game before the first move.
    pub fn new() -> (s: Self)
        ensures
            s@ == fresh(),
            s.wf(),
            in_play(s@),
    {
        proof {
            lemma_fresh_in_play();
        }
        GameState::from_array([0;9])
    }

    /// Reads a state from a board, that is from the move numbers in its nine
    /// slots, zero for a free slot. The latest move is the largest number.
    /// From the sixth move on the oldest move expires: the smallest number on
    /// the board, in the first slot that holds it. Every board is read.
    pub fn from_array(array: [u16; 9]) -> (s: Self)
        ensures
            s@ == derived(array@),
            s.wf(),
    {
        let mut state = [[Cell::N;3];3];
        let mut smallest: u16 = 0;
        let mut slot: usize = 0;
        let mut largest: u16 = 0;
        let mut p: usize = 0;
        while p < 9
            invariant
                p <= 9,
                forall|q: int| 0 <= q < p ==> state[q / 3][q % 3] == mark_of_move(#[trigger] array[q]),
                forall|q: int| 0 <= q < p ==> #[trigger] array[q] <= largest,
                largest == 0 || exists|q: int| 0 <= q < p && #[trigger] array[q] == largest,
                forall|q: int|
                    0 <= q < p && #[trigger] array[q] != 0 ==> 0 < smallest <= array[q],
                smallest != 0 ==> slot < p && array[slot as int] == smallest,
                forall|q: int| 0 <= q < slot ==> #[trigger] array[q] != smallest,
            decreases 9 - p,
        {
            let num = array[p];
            state[p / 3][p % 3] =
            if num == 0 {
                Cell::N
            } else if num % 2 == 0 {
                Cell::X
            } else {
                Cell::O
            };
            if num != 0 && (smallest == 0 || num < smallest) {
                smallest = num;
                slot = p;
            }
            if num > largest {
                largest = num;
            }
            p += 1;
        }
        let mut expiring: u16 = 0;
        if largest >= 6 {
            state[slot / 3][slot % 3] = Cell::E;
            expiring = smallest;
        }
        let s = GameState { array, state, expiring, last: largest };
        proof {
            assert(largest == highest(array@));
            assert(smallest == lowest(array@));
            assert(s@.marks =~= marks_of(array@, expiring));
        }
        s
    }

    /// What cell `i` shows.
    pub fn get(&self, i: u16) -> (c: Cell)
        requires
            i < 9,
        ensures
            c == self@.marks[i as int],
    {
        let j = (i % 3) as usize;
        let i = (i / 3) as usize;
        self.state[i][j]
    }

    /// Writes what cell `i` shows and nothing else: the board and the numbers
    /// of the latest and the expiring move stay, whether they agree with the
    /// new mark or not.
    pub fn set(&mut self, i: u16, cell: Cell)
        requires
            i < 9,
        ensures
            final(self)@ == (Position { marks: old(self)@.marks.update(i as int, cell), ..old(self)@ }),
    {
        let j = (i % 3) as usize;
        let i = (i / 3) as usize;
        self.state[i][j] = cell;
    }

    /// Makes the next move on cell `i` and gives the state after it; the state
    /// that it is called on stays as it is. There is no move, and `None`
    /// comes back, on a cell that shows a mark, be it one that is about to
    /// vanish. The move gets the number after the latest, and the mark that
    /// goes with the number. A move that was expiring leaves the board, and
    /// the one after it expires from now on; with the sixth move the first
    /// one begins to expire and stays for one more move.
    pub fn turn(&self, i: u16) -> (next: Option<Self>)
        requires
            i < 9,
            self.last < u16::MAX,
            self.expiring < u16::MAX,
        ensures
            next is None <==> self@.marks[i as int] != Cell::N,
            next matches Some(s) ==> s@ == step(self@, i as int),
            self.wf() ==> (next matches Some(s) ==> s.wf()),
            in_play(self@) ==> (next matches Some(s) ==> in_play(s@)),
    {
        if Cell::N != self.get(i) {
            return None;
        }
        let mut new = self.clone();

        new.last += 1;
        let cell = if new.last % 2 == 0 {
            Cell::X
        } else {
            Cell::O
        };
        new.array[i as usize] = new.last;
        new.set(i, cell);

        if new.expiring != 0 {
            match locate(&new.array, new.expiring) {
                Some(index) => {
                    new.set(index as u16, Cell::N);
                    new.array[index] = 0;
                },
                None => {},
            }
            new.expiring += 1;
            match locate(&new.array, new.expiring) {
                Some(index) => {
                    new.set(index as u16, Cell::E);
                },
                None => {},
            }
        } else if new.last == 6 {
            new.expiring += 1;
            match locate(&new.array, new.expiring) {
                Some(index) => {
                    new.set(index as u16, Cell::E);
                },
                None => {},
            }
        }
        proof {
            assert(new@ =~= step(self@, i as int));
            if self.wf() {
                lemma_step_well_formed(self@, i as int);
            }
            if in_play(self@) {
                lemma_step_in_play(self@, i as int);
            }
        }
        Some(new)
    }
}

} // verus!
