//! Proofs that the positions that boards stand for are well-formed and that
//! moves keep them so.

use crate::models::Cell;
use crate::position::{
    board_after, derived, expiring_after, highest, mark_at, mark_of_move, marks_after, rewritten,
    slot_of, step, Position,
};
use vstd::prelude::*;

verus! {

/// `k` is the first slot of the board that holds `n`, or nine where none does.
pub open spec fn first_holding(board: Seq<u16>, n: u16, k: int) -> bool {
    &&& 0 <= k <= 9
    &&& k < 9 ==> board[k] == n
    &&& forall|q: int| 0 <= q < k ==> #[trigger] board[q] != n
}

/// `m` is the largest move number on the board, zero on an empty board.
pub open spec fn tops(board: Seq<u16>, m: u16) -> bool {
    &&& forall|q: int| 0 <= q < 9 ==> #[trigger] board[q] <= m
    &&& m == 0 || exists|q: int| 0 <= q < 9 && #[trigger] board[q] == m
}

/// The mark of cell `p` where `slot` is the cell of the expiring move.
pub open spec fn mark_with(board: Seq<u16>, expiring: u16, slot: int, p: int) -> Cell {
    if board[p] == 0 {
        Cell::N
    } else if expiring != 0 && slot == p {
        Cell::E
    } else {
        mark_of_move(board[p])
    }
}

/// What `slot_of` gives is the first slot that holds the number.
pub proof fn lemma_slot_of(board: Seq<u16>, n: u16)
    ensures
        first_holding(board, n, slot_of(board, n)),
{
}

/// What `highest` gives bounds every slot and stands in one of them.
pub proof fn lemma_highest(board: Seq<u16>)
    ensures
        tops(board, highest(board)),
{
}

/// A number that bounds every slot and stands in one of them is what `highest` gives.
pub proof fn lemma_highest_is(board: Seq<u16>, m: u16)
    requires
        tops(board, m),
    ensures
        highest(board) == m,
{
}

/// The number of a new move tops the board on which it is placed, also when
/// another slot is set free.
proof fn lemma_tops_after(b0: Seq<u16>, last: u16, i: int, j: int)
    requires
        b0.len() == 9,
        0 <= i < 9,
        0 <= j <= 9,
        j != i,
        last < u16::MAX,
        tops(b0, last),
    ensures
        tops(b0.update(i, (last + 1) as u16), (last + 1) as u16),
        j < 9 ==> tops(b0.update(i, (last + 1) as u16).update(j, 0), (last + 1) as u16),
{
    let n = (last + 1) as u16;
    let b1 = b0.update(i, n);
    assert(b1[i] == n);
    if j < 9 {
        assert(b1.update(j, 0)[i] == n);
    }
}

/// One cell of the marks that a move rewrites shows what the new board and the
/// new expiring move give it. The slots come as they are found: `j0` that of
/// the expiring move before the move, `j` the same after the new number is
/// placed, `k` that of the move that expires from now on.
proof fn lemma_rewrite_cell(
    b0: Seq<u16>,
    m0: Seq<Cell>,
    e: u16,
    last: u16,
    i: int,
    j0: int,
    j: int,
    k: int,
    q: int,
)
    requires
        b0.len() == 9,
        m0.len() == 9,
        0 <= i < 9,
        0 <= q < 9,
        last < u16::MAX,
        e <= last,
        forall|c: int| 0 <= c < 9 ==> #[trigger] b0[c] <= last,
        b0[i] == 0,
        first_holding(b0, e, j0),
        forall|c: int| 0 <= c < 9 ==> #[trigger] m0[c] == mark_with(b0, e, j0, c),
        e != 0 ==> first_holding(b0.update(i, (last + 1) as u16), e, j),
        e == 0 ==> j == 9,
        expiring_after(e, last) != 0 ==> first_holding(
            if j < 9 {
                b0.update(i, (last + 1) as u16).update(j, 0)
            } else {
                b0.update(i, (last + 1) as u16)
            },
            expiring_after(e, last),
            k,
        ),
        expiring_after(e, last) == 0 ==> k == 9,
    ensures
        rewritten(m0, i, mark_of_move((last + 1) as u16), j, k)[q] == mark_with(
            if j < 9 {
                b0.update(i, (last + 1) as u16).update(j, 0)
            } else {
                b0.update(i, (last + 1) as u16)
            },
            expiring_after(e, last),
            k,
            q,
        ),
{
    let n = (last + 1) as u16;
    let b1 = b0.update(i, n);
    assert(m0[q] == mark_with(b0, e, j0, q));
    if e != 0 {
        assert(j == j0) by {
            if j0 < 9 {
                assert(b1[j0] == e);
            }
            if j < 9 {
                assert(b0[j] == e);
            }
        }
    }
}

/// After a move on a free cell of a well-formed position the latest move is
/// the largest on the board.
proof fn lemma_step_last(v: Position, p: int)
    requires
        v.well_formed(),
        v.free(p),
        v.last < u16::MAX,
    ensures
        highest(board_after(v, p)) == v.last + 1,
{
    let n = (v.last + 1) as u16;
    let placed = v.board.update(p, n);
    let j = if v.expiring != 0 {
        slot_of(placed, v.expiring)
    } else {
        9
    };
    lemma_highest(v.board);
    lemma_slot_of(placed, v.expiring);
    assert(j != p);
    lemma_tops_after(v.board, v.last, p, j);
    lemma_highest_is(board_after(v, p), n);
}

/// After a move on a free cell of a well-formed position the marks are those
/// that the new board and the new expiring move give.
proof fn lemma_step_marks(v: Position, p: int, q: int)
    requires
        v.well_formed(),
        v.free(p),
        v.last < u16::MAX,
        0 <= q < 9,
    ensures
        marks_after(v, p)[q] == mark_at(board_after(v, p), expiring_after(v.expiring, v.last), q),
{
    let n = (v.last + 1) as u16;
    let placed = v.board.update(p, n);
    let after = expiring_after(v.expiring, v.last);
    let j0 = slot_of(v.board, v.expiring);
    let j = if v.expiring != 0 {
        slot_of(placed, v.expiring)
    } else {
        9
    };
    let k = if after != 0 {
        slot_of(board_after(v, p), after)
    } else {
        9
    };
    lemma_highest(v.board);
    lemma_slot_of(v.board, v.expiring);
    lemma_slot_of(placed, v.expiring);
    lemma_slot_of(board_after(v, p), after);
    assert(v.marks[p] == mark_at(v.board, v.expiring, p));
    assert forall|c: int| 0 <= c < 9 implies #[trigger] v.marks[c] == mark_with(
        v.board,
        v.expiring,
        j0,
        c,
    ) by {
        assert(v.marks[c] == mark_at(v.board, v.expiring, c));
    }
    lemma_rewrite_cell(v.board, v.marks, v.expiring, v.last, p, j0, j, k, q);
}

/// A move on a free cell of a well-formed position gives a well-formed position.
pub proof fn lemma_step_well_formed(v: Position, p: int)
    requires
        v.well_formed(),
        v.free(p),
        v.last < u16::MAX,
    ensures
        step(v, p).well_formed(),
{
    lemma_step_last(v, p);
    assert forall|q: int| 0 <= q < 9 implies marks_after(v, p)[q] == mark_at(
        board_after(v, p),
        expiring_after(v.expiring, v.last),
        q,
    ) by {
        lemma_step_marks(v, p, q);
    }
}

/// The position that a board stands for is well-formed.
pub proof fn lemma_derived_well_formed(board: Seq<u16>)
    requires
        board.len() == 9,
    ensures
        derived(board).well_formed(),
{
}

/// After a move on a free cell of a board, the latest move on the new board
/// is the one after the latest on the old.
pub proof fn lemma_next_board(board: Seq<u16>, p: int)
    requires
        board.len() == 9,
        derived(board).free(p),
        highest(board) < u16::MAX,
    ensures
        board_after(derived(board), p).len() == 9,
        highest(board_after(derived(board), p)) == highest(board) + 1,
{
    lemma_derived_well_formed(board);
    lemma_step_last(derived(board), p);
}

} // verus!
