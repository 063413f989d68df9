//! The lines of the board, and boards that come as lists.

use vstd::prelude::*;

verus! {

/// The first nine of the numbers, with zero wherever there are fewer than nine.
pub open spec fn padded(numbers: Seq<u16>) -> Seq<u16> {
    Seq::new(
        9,
        |p: int|
            if p < numbers.len() {
                numbers[p]
            } else {
                0u16
            },
    )
}

/// The cell at place `j` of line `k`. Lines 0 to 2 are the rows, lines 3 to 5
/// the columns, line 6 the diagonal from cell 0 and line 7 the one from cell 2.
pub open spec fn line_cell(k: int, j: int) -> int {
    if k < 3 {
        3 * k + j
    } else if k < 6 {
        k - 3 + 3 * j
    } else if k == 6 {
        4 * j
    } else {
        2 + 2 * j
    }
}

/// Turns a list of numbers of any length into a board: what is beyond the
/// ninth number is dropped, what is missing is zero.
pub fn state_vec_to_array(array: Vec<u16>) -> (new: [u16; 9])
    ensures
        new@ == padded(array@),
{
    let mut new = [0;9];
    let mut i: usize = 0;
    while i < 9 && i < array.len()
        invariant
            i <= 9,
            i <= array.len(),
            forall|p: int| 0 <= p < i ==> new[p] == array[p],
            forall|p: int| i <= p < 9 ==> new[p] == 0,
        decreases 9 - i,
    {
        new[i] = array[i];
        i += 1;
    }
    new
}

/// The rows, columns and diagonals on which the game can be won, in the order
/// in which they are looked at.
pub fn get_possibilities() -> (lines: Vec<[u16; 3]>)
    ensures
        lines.len() == 8,
        forall|k: int, j: int| 0 <= k < 8 && 0 <= j < 3 ==> #[trigger] lines[k][j] == line_cell(k, j),
{
    vec![
        [0, 1, 2],
        [3, 4, 5],
        [6, 7, 8],
        [0, 3, 6],
        [1, 4, 7],
        [2, 5, 8],
        [0, 4, 8],
        [2, 4, 6],
    ]
}

} // verus!
