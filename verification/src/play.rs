//! What holds of every game that is played from the start.

use crate::ai::counts;
use crate::consistency::{lemma_highest, lemma_slot_of, lemma_step_well_formed};
use crate::models::Cell;
use crate::position::{board_after, derived, fresh, lowest, mark_at, slot_of, step, Position};
use vstd::prelude::*;

verus! {

/// The position that a game reaches from the start by moves on the given
/// cells in turn, where every one of them is on a free cell and the number of
/// the move can be written down.
pub open spec fn played(moves: Seq<int>) -> Option<Position>
    decreases moves.len(),
{
    if moves.len() == 0 {
        Some(fresh())
    } else {
        match played(moves.drop_last()) {
            Some(v) => if v.free(moves.last()) && v.last < u16::MAX {
                Some(step(v, moves.last()))
            } else {
                None
            },
            None => None,
        }
    }
}

/// 1 for a cell that shows a mark, 0 for one that shows none.
pub open spec fn shown(mark: Cell) -> int {
    if mark != Cell::N {
        1
    } else {
        0
    }
}

/// 1 for a cell that shows the mark of a player, 0 for any other.
pub open spec fn alive(mark: Cell) -> int {
    if counts(mark) {
        1
    } else {
        0
    }
}

/// How many cells show a mark, the one that is about to vanish included.
pub open spec fn occupied(marks: Seq<Cell>) -> int {
    shown(marks[0]) + shown(marks[1]) + shown(marks[2]) + shown(marks[3]) + shown(marks[4]) + shown(
        marks[5],
    ) + shown(marks[6]) + shown(marks[7]) + shown(marks[8])
}

/// How many cells show the mark of a player.
pub open spec fn live(marks: Seq<Cell>) -> int {
    alive(marks[0]) + alive(marks[1]) + alive(marks[2]) + alive(marks[3]) + alive(marks[4]) + alive(
        marks[5],
    ) + alive(marks[6]) + alive(marks[7]) + alive(marks[8])
}

/// The move that was made `back` moves before the latest is on the board, if
/// there was such a move.
pub open spec fn kept(v: Position, back: int) -> bool {
    v.last - back < 1 || slot_of(v.board, (v.last - back) as u16) < 9
}

/// What holds of every position of a game that is played from the start: the
/// board holds the latest six moves, or all of them while there are fewer,
/// each in one slot, and nothing else; from the sixth move on the oldest of
/// them is the one that expires.
pub open spec fn in_play(v: Position) -> bool {
    &&& v.well_formed()
    &&& v.expiring == (if v.last >= 6 {
        v.last - 5
    } else {
        0
    })
    &&& forall|p: int| 0 <= p < 9 ==> #[trigger] v.board[p] == 0 || v.last - 5 <= v.board[p]
    &&& forall|p: int, q: int|
        0 <= p < q < 9 && v.board[p] != 0 ==> #[trigger] v.board[p] != #[trigger] v.board[q]
    &&& kept(v, 0) && kept(v, 1) && kept(v, 2) && kept(v, 3) && kept(v, 4) && kept(v, 5)
    &&& occupied(v.marks) == (if v.last >= 6 {
        6
    } else {
        v.last as int
    })
}

/// 1 for a slot that holds a move, 0 for a free one.
pub open spec fn taken(n: u16) -> int {
    if n != 0 {
        1
    } else {
        0
    }
}

/// How many slots of the board hold a move.
pub open spec fn filled(board: Seq<u16>) -> int {
    taken(board[0]) + taken(board[1]) + taken(board[2]) + taken(board[3]) + taken(board[4]) + taken(
        board[5],
    ) + taken(board[6]) + taken(board[7]) + taken(board[8])
}

/// In a well-formed position the cells that show a mark are the slots that hold a move.
proof fn lemma_occupied_is_filled(v: Position)
    requires
        v.well_formed(),
    ensures
        occupied(v.marks) == filled(v.board),
{
    assert forall|p: int| 0 <= p < 9 implies shown(#[trigger] v.marks[p]) == taken(v.board[p]) by {
        assert(v.marks[p] == mark_at(v.board, v.expiring, p));
    }
}

/// The count of the slots that hold a move changes with one slot by what the
/// slot held and what it holds.
proof fn lemma_filled_update(board: Seq<u16>, p: int, n: u16)
    requires
        board.len() == 9,
        0 <= p < 9,
    ensures
        filled(board.update(p, n)) == filled(board) - taken(board[p]) + taken(n),
{
    let next = board.update(p, n);
    assert forall|q: int| 0 <= q < 9 implies taken(#[trigger] next[q]) == if q == p {
        taken(n)
    } else {
        taken(board[q])
    } by {}
}

/// A number that some slot holds has a first slot.
proof fn lemma_holds(board: Seq<u16>, n: u16, p: int)
    requires
        0 <= p < 9,
        board[p] == n,
    ensures
        slot_of(board, n) < 9,
{
}

/// What a move on a free cell of a well-formed position does to the board:
/// the cell gets the number of the move, the first slot of the expiring move
/// is set free, and every other slot is left as it was.
proof fn lemma_board_after(v: Position, p: int)
    requires
        v.well_formed(),
        v.free(p),
        v.last < u16::MAX,
    ensures
        v.board[p] == 0,
        board_after(v, p).len() == 9,
        board_after(v, p)[p] == v.last + 1,
        forall|q: int|
            0 <= q < 9 && q != p ==> #[trigger] board_after(v, p)[q] == (if v.expiring != 0 && q
                == slot_of(v.board, v.expiring) {
                0
            } else {
                v.board[q]
            }),
{
    let placed = v.board.update(p, (v.last + 1) as u16);
    assert(v.marks[p] == mark_at(v.board, v.expiring, p));
    lemma_highest(v.board);
    lemma_slot_of(v.board, v.expiring);
    lemma_slot_of(placed, v.expiring);
    if v.expiring != 0 {
        let j0 = slot_of(v.board, v.expiring);
        let j = slot_of(placed, v.expiring);
        assert(j == j0) by {
            if j0 < 9 {
                assert(placed[j0] == v.expiring);
            }
            if j < 9 {
                assert(v.board[j] == v.expiring);
            }
        }
    }
}

/// The count of the cells that show a mark goes up by one with a move, and
/// down by one where an expiring move leaves the board.
proof fn lemma_step_occupied(v: Position, p: int)
    requires
        v.well_formed(),
        v.free(p),
        v.last < u16::MAX,
        v.expiring != 0 ==> slot_of(v.board, v.expiring) < 9,
    ensures
        occupied(step(v, p).marks) == occupied(v.marks) + 1 - taken(v.expiring),
{
    let n = (v.last + 1) as u16;
    let placed = v.board.update(p, n);
    lemma_step_well_formed(v, p);
    lemma_occupied_is_filled(v);
    lemma_occupied_is_filled(step(v, p));
    lemma_board_after(v, p);
    lemma_filled_update(v.board, p, n);
    if v.expiring != 0 {
        let j = slot_of(v.board, v.expiring);
        lemma_slot_of(v.board, v.expiring);
        assert(board_after(v, p) =~= placed.update(j, 0));
        lemma_filled_update(placed, j, 0);
    } else {
        assert(board_after(v, p) =~= placed);
    }
}

/// A move that was on the board and does not expire is on the board after
/// the next move, as that move itself is.
proof fn lemma_step_kept(v: Position, p: int, back: int)
    requires
        v.well_formed(),
        v.free(p),
        v.last < u16::MAX,
        0 <= back <= 5,
        v.expiring == 0 || v.expiring <= v.last - 5,
        back >= 1 ==> kept(v, back - 1),
    ensures
        kept(step(v, p), back),
{
    let n = (v.last + 1) as u16;
    let after = board_after(v, p);
    lemma_board_after(v, p);
    if back == 0 {
        lemma_holds(after, n, p);
    } else if n - back >= 1 {
        let m = (n - back) as u16;
        lemma_slot_of(v.board, m);
        lemma_slot_of(v.board, v.expiring);
        let q = slot_of(v.board, m);
        assert(after[q] == m);
        lemma_holds(after, m, q);
    }
}

/// A move on a free cell of a position of a game that is played from the
/// start gives such a position again.
pub proof fn lemma_step_in_play(v: Position, p: int)
    requires
        in_play(v),
        v.free(p),
        v.last < u16::MAX,
    ensures
        in_play(step(v, p)),
{
    let n = (v.last + 1) as u16;
    let after = board_after(v, p);
    lemma_step_well_formed(v, p);
    lemma_board_after(v, p);
    lemma_highest(v.board);
    assert(kept(v, 5));
    lemma_slot_of(v.board, v.expiring);
    lemma_step_occupied(v, p);
    assert forall|q: int| 0 <= q < 9 implies #[trigger] after[q] == 0 || n - 5 <= after[q] by {
        if q != p && after[q] != 0 {
            assert(after[q] == v.board[q]);
        }
    }
    assert forall|q: int, r: int| 0 <= q < r < 9 && after[q] != 0 implies #[trigger] after[q]
        != #[trigger] after[r] by {
        if q != p && r != p && after[r] != 0 {
            assert(after[q] == v.board[q]);
            assert(after[r] == v.board[r]);
        }
    }
    lemma_step_kept(v, p, 0);
    lemma_step_kept(v, p, 1);
    lemma_step_kept(v, p, 2);
    lemma_step_kept(v, p, 3);
    lemma_step_kept(v, p, 4);
    lemma_step_kept(v, p, 5);
}

/// Before the first move the game is in play.
pub proof fn lemma_fresh_in_play()
    ensures
        in_play(fresh()),
{
}

/// Every position that a game reaches from the start is one of a game in play.
pub proof fn lemma_played_in_play(moves: Seq<int>)
    requires
        played(moves) is Some,
    ensures
        in_play(played(moves).unwrap()),
    decreases moves.len(),
{
    if moves.len() == 0 {
        lemma_fresh_in_play();
    } else {
        lemma_played_in_play(moves.drop_last());
        lemma_step_in_play(played(moves.drop_last()).unwrap(), moves.last());
    }
}

/// The cells that show the mark of a player are those that show a mark, less
/// the one that is about to vanish.
proof fn lemma_live(v: Position)
    requires
        v.well_formed(),
    ensures
        live(v.marks) == occupied(v.marks) - (if v.expiring != 0 && slot_of(v.board, v.expiring)
            < 9 {
            1int
        } else {
            0
        }),
{
    lemma_slot_of(v.board, v.expiring);
    let slot = slot_of(v.board, v.expiring);
    assert forall|q: int| 0 <= q < 9 implies alive(#[trigger] v.marks[q]) == shown(v.marks[q]) - (
    if v.expiring != 0 && q == slot {
        1int
    } else {
        0
    }) by {
        assert(v.marks[q] == mark_at(v.board, v.expiring, q));
    }
}

/// The expiry rule. In a position of a game in play, at most five cells show
/// the mark of a player and at most six show any mark. From the sixth move on
/// the numbers are exactly five and six: the sixth cell shows the mark that
/// is about to vanish. Before, every move that was made shows its mark.
pub proof fn lemma_expiry(v: Position)
    requires
        in_play(v),
    ensures
        live(v.marks) <= 5,
        occupied(v.marks) <= 6,
        v.last >= 6 ==> live(v.marks) == 5 && occupied(v.marks) == 6,
        v.last < 6 ==> live(v.marks) == v.last && occupied(v.marks) == v.last,
{
    lemma_live(v);
    assert(kept(v, 5));
}

/// The expiry rule holds of every position that a game reaches from the start.
pub proof fn lemma_expiry_of_played(moves: Seq<int>)
    requires
        played(moves) is Some,
    ensures
        live(played(moves).unwrap().marks) <= 5,
        occupied(played(moves).unwrap().marks) <= 6,
        played(moves).unwrap().last >= 6 ==> live(played(moves).unwrap().marks) == 5,
{
    lemma_played_in_play(moves);
    lemma_expiry(played(moves).unwrap());
}

/// A position of a game in play is the one that its board stands for: to
/// make a move and to read the new board afresh give the same.
pub proof fn lemma_in_play_is_derived(v: Position)
    requires
        in_play(v),
    ensures
        v == derived(v.board),
{
    lemma_highest(v.board);
    assert(kept(v, 5));
    lemma_slot_of(v.board, v.expiring);
    assert(v.last >= 6 ==> lowest(v.board) == v.expiring);
}

} // verus!
