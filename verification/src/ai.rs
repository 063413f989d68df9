//! The machine player: how a state is scored and how a reply is chosen.
//!
//! Scores and temperatures are whole numbers of thousandths of a point.

use crate::models::{Cell, GameError, GameState};
use crate::position::{step, Position};
use crate::utils::{get_possibilities, line_cell};
use vstd::arithmetic::div_mod::lemma_small_mod;
use vstd::prelude::*;

verus! {

/// Whether a mark counts on a line: the marks of the two players do, a mark
/// that is about to vanish does not.
pub open spec fn counts(mark: Cell) -> bool {
    mark == Cell::X || mark == Cell::O
}

/// 1 where the cell at place `j` of line `k` shows a mark that counts and is `who`.
pub open spec fn like_at(marks: Seq<Cell>, k: int, j: int, who: Cell) -> int {
    if counts(marks[line_cell(k, j)]) && marks[line_cell(k, j)] == who {
        1
    } else {
        0
    }
}

/// 1 where the cell at place `j` of line `k` shows a mark that counts and is not `who`.
pub open spec fn unlike_at(marks: Seq<Cell>, k: int, j: int, who: Cell) -> int {
    if counts(marks[line_cell(k, j)]) && marks[line_cell(k, j)] != who {
        1
    } else {
        0
    }
}

/// How many cells of line `k` show a mark that counts and is `who`.
pub open spec fn likes(marks: Seq<Cell>, k: int, who: Cell) -> int {
    like_at(marks, k, 0, who) + like_at(marks, k, 1, who) + like_at(marks, k, 2, who)
}

/// How many cells of line `k` show a mark that counts and is not `who`.
pub open spec fn unlikes(marks: Seq<Cell>, k: int, who: Cell) -> int {
    unlike_at(marks, k, 0, who) + unlike_at(marks, k, 1, who) + unlike_at(marks, k, 2, who)
}

/// The player who plays against `opponent`: `O` against `X`, and `X` against
/// anything else.
pub open spec fn rival_of(opponent: Cell) -> Cell {
    if opponent == Cell::X {
        Cell::O
    } else {
        Cell::X
    }
}

/// The third power.
pub open spec fn cube(n: int) -> int {
    n * n * n
}

/// What a line is worth to the player who has `like` marks on it, the other
/// having `unlike`: nothing without a mark, else the cube of `like`, and 8
/// more for a full line, and 8 more where the other has two.
pub open spec fn attack(like: int, unlike: int) -> int {
    if like > 0 {
        cube(like) + (if like == 3 {
            8int
        } else {
            0
        }) + (if unlike == 2 {
            8int
        } else {
            0
        })
    } else {
        0
    }
}

/// What a line is worth to the opponent: as `attack`, but the first 8 is for
/// two marks, not for three.
pub open spec fn threat(like: int, unlike: int) -> int {
    if like > 0 {
        cube(like) + (if like == 2 {
            8int
        } else {
            0
        }) + (if unlike == 2 {
            8int
        } else {
            0
        })
    } else {
        0
    }
}

/// What line `k` is worth to the player who plays against `opponent`.
pub open spec fn attack_on(marks: Seq<Cell>, opponent: Cell, k: int) -> int {
    attack(likes(marks, k, rival_of(opponent)), unlikes(marks, k, rival_of(opponent)))
}

/// What line `k` is worth to `opponent`.
pub open spec fn threat_on(marks: Seq<Cell>, opponent: Cell, k: int) -> int {
    threat(likes(marks, k, opponent), unlikes(marks, k, opponent))
}

/// What the eight lines are worth to the player who plays against `opponent`.
pub open spec fn offense(marks: Seq<Cell>, opponent: Cell) -> int {
    attack_on(marks, opponent, 0) + attack_on(marks, opponent, 1) + attack_on(marks, opponent, 2)
        + attack_on(marks, opponent, 3) + attack_on(marks, opponent, 4) + attack_on(
        marks,
        opponent,
        5,
    ) + attack_on(marks, opponent, 6) + attack_on(marks, opponent, 7)
}

/// What the eight lines are worth to `opponent`.
pub open spec fn defense(marks: Seq<Cell>, opponent: Cell) -> int {
    threat_on(marks, opponent, 0) + threat_on(marks, opponent, 1) + threat_on(marks, opponent, 2)
        + threat_on(marks, opponent, 3) + threat_on(marks, opponent, 4) + threat_on(
        marks,
        opponent,
        5,
    ) + threat_on(marks, opponent, 6) + threat_on(marks, opponent, 7)
}

/// The opportunity that the marks give the player who plays against
/// `opponent`: what the lines are worth to that player, less what they are
/// worth to the opponent.
pub open spec fn opportunity(marks: Seq<Cell>, opponent: Cell) -> int {
    offense(marks, opponent) - defense(marks, opponent)
}

/// The noise that a random number stands for at a temperature, both in
/// thousandths of a point: none at temperature zero, and otherwise one of the
/// whole numbers that lie strictly between minus the temperature and the
/// temperature.
pub open spec fn noise(temperature: u32, word: u64) -> int {
    if temperature == 0 {
        0
    } else {
        word as int % (2 * temperature - 1) - (temperature - 1)
    }
}

/// What the first `k` lines are worth to the player who plays against `opponent`.
pub closed spec fn offense_upto(marks: Seq<Cell>, opponent: Cell, k: int) -> int
    decreases k,
{
    if k <= 0 {
        0
    } else {
        offense_upto(marks, opponent, k - 1) + attack_on(marks, opponent, k - 1)
    }
}

/// What the first `k` lines are worth to `opponent`.
pub closed spec fn defense_upto(marks: Seq<Cell>, opponent: Cell, k: int) -> int
    decreases k,
{
    if k <= 0 {
        0
    } else {
        defense_upto(marks, opponent, k - 1) + threat_on(marks, opponent, k - 1)
    }
}

proof fn lemma_all_lines(marks: Seq<Cell>, opponent: Cell)
    ensures
        offense_upto(marks, opponent, 8) == offense(marks, opponent),
        defense_upto(marks, opponent, 8) == defense(marks, opponent),
{
    reveal_with_fuel(offense_upto, 9);
    reveal_with_fuel(defense_upto, 9);
}

/// At a temperature above zero the noise lies strictly between minus the
/// temperature and the temperature, and every whole number there is the
/// noise that some random number stands for.
pub proof fn lemma_noise(temperature: u32, word: u64, n: int)
    requires
        temperature > 0,
        -temperature < n < temperature,
    ensures
        -temperature < noise(temperature, word) < temperature,
        noise(temperature, (n + temperature - 1) as u64) == n,
{
    lemma_small_mod((n + temperature - 1) as nat, (2 * temperature - 1) as nat);
}

/// A random number of 64 bits: what `rand::random` gives at the type `u64`,
/// from the generator of the thread. Nothing is claimed of the number, so
/// that what is proved of the callers holds whatever number comes back. The
/// generator is seeded by the system when a thread first uses it, and `rand`
/// panics where the system has no seed to give.
#[verifier::external_body]
fn random_word() -> u64 {
    rand::random::<u64>()
}

/// The noise that a random number stands for at a temperature.
pub fn perturbation(temperature: u32, word: u64) -> (random: i64)
    ensures
        random == noise(temperature, word),
        temperature > 0 ==> -temperature < random < temperature,
{
    if temperature > 0 {
        let span: u64 = 2 * (temperature as u64) - 1;
        (word % span) as i64 - (temperature as i64 - 1)
    } else {
        0
    }
}

/// The third power of a count of marks on a line.
fn cubed(n: i32) -> (c: i32)
    requires
        0 <= n <= 3,
    ensures
        c == cube(n as int),
        0 <= c <= 27,
{
    assert(0 <= n * n <= 9) by (nonlinear_arith)
        requires
            0 <= n <= 3,
    ;
    assert(cube(n as int) == if n == 0 {
        0int
    } else if n == 1 {
        1
    } else if n == 2 {
        8
    } else {
        27
    }) by (nonlinear_arith)
        requires
            0 <= n <= 3,
    ;
    n * n * n
}

/// Counts on one line the marks that are `who` and the marks of the other player.
fn tally(game_state: &GameState, possibility: &[u16; 3], who: Cell, Ghost(k): Ghost<int>) -> (found: (
    i32,
    i32,
))
    requires
        0 <= k < 8,
        forall|j: int| 0 <= j < 3 ==> possibility[j] == line_cell(k, j),
    ensures
        found.0 == likes(game_state@.marks, k, who),
        found.1 == unlikes(game_state@.marks, k, who),
        0 <= found.0 <= 3,
        0 <= found.1 <= 3,
        found.0 + found.1 <= 3,
{
    let ghost marks = game_state@.marks;
    let mut like: i32 = 0;
    let mut unlike: i32 = 0;
    let mut j: usize = 0;
    while j < 3
        invariant
            j <= 3,
            0 <= k < 8,
            marks == game_state@.marks,
            forall|j: int| 0 <= j < 3 ==> possibility[j] == line_cell(k, j),
            like == (if j > 0 {
                like_at(marks, k, 0, who)
            } else {
                0
            }) + (if j > 1 {
                like_at(marks, k, 1, who)
            } else {
                0
            }) + (if j > 2 {
                like_at(marks, k, 2, who)
            } else {
                0
            }),
            unlike == (if j > 0 {
                unlike_at(marks, k, 0, who)
            } else {
                0
            }) + (if j > 1 {
                unlike_at(marks, k, 1, who)
            } else {
                0
            }) + (if j > 2 {
                unlike_at(marks, k, 2, who)
            } else {
                0
            }),
            0 <= like,
            0 <= unlike,
            like + unlike <= j,
        decreases 3 - j,
    {
        assert(possibility[j as int] == line_cell(k, j as int));
        let index = possibility[j];
        match game_state.get(index) {
            Cell::X => {
                if let Cell::X = who {
                    like += 1;
                } else {
                    unlike += 1;
                }
            },
            Cell::O => {
                if let Cell::O = who {
                    like += 1;
                } else {
                    unlike += 1;
                }
            },
            Cell::E => {},
            Cell::N => {},
        }
        j += 1;
    }
    (like, unlike)
}

/// Scores a state for the player who plays against `opponent`, in thousandths
/// of a point: a thousand times the opportunity, and at a temperature above
/// zero the noise that one random number stands for. The number is drawn once
/// for the whole score, and the noise lies strictly between minus the
/// temperature and the temperature.
pub fn calculate_opportunity(game_state: &GameState, opponent: Cell, temperature: u32) -> (score:
    i64)
    ensures
        exists|word: u64|
            score == 1000 * opportunity(game_state@.marks, opponent) + #[trigger] noise(
                temperature,
                word,
            ),
        temperature == 0 ==> score == 1000 * opportunity(game_state@.marks, opponent),
        temperature > 0 ==> -temperature < score - 1000 * opportunity(game_state@.marks, opponent)
            < temperature,
{
    let possibilities = get_possibilities();
    let this = if let Cell::X = opponent {
        Cell::O
    } else {
        Cell::X
    };
    let ghost marks = game_state@.marks;

    let mut offense: i32 = 0;
    let mut defense: i32 = 0;
    let mut k: usize = 0;
    while k < possibilities.len()
        invariant
            k <= 8,
            possibilities.len() == 8,
            forall|k: int, j: int|
                0 <= k < 8 && 0 <= j < 3 ==> #[trigger] possibilities[k][j] == line_cell(k, j),
            marks == game_state@.marks,
            this == rival_of(opponent),
            0 <= offense <= 35 * k,
            0 <= defense <= 35 * k,
            offense == offense_upto(marks, opponent, k as int),
            defense == defense_upto(marks, opponent, k as int),
        decreases 8 - k,
    {
        let possibility = possibilities[k];
        let (like, unlike) = tally(game_state, &possibility, this, Ghost(k as int));
        if like > 0 {
            offense += cubed(like);
            if like == 3 {
                offense += 8;
            }
            if unlike == 2 {
                offense += 8;
            }
        }

        let (like, unlike) = tally(game_state, &possibility, opponent, Ghost(k as int));
        if like > 0 {
            defense += cubed(like);
            if like == 2 {
                defense += 8;
            }
            if unlike == 2 {
                defense += 8;
            }
        }
        k += 1;
    }
    proof {
        lemma_all_lines(marks, opponent);
    }

    let word = if temperature > 0 {
        random_word()
    } else {
        0
    };
    let random = perturbation(temperature, word);

    (offense - defense) as i64 * 1000 + random
}

/// Whether cell `p` shows a mark and holds the latest move.
pub open spec fn moved_last(v: Position, p: int) -> bool {
    v.marks[p] != Cell::N && v.board[p] == v.last
}

/// The mark of the player who moved last: what the last cell that holds the
/// latest move shows, and `X` where no cell shows a mark and holds it.
pub open spec fn last_mover(v: Position) -> Cell {
    if moved_last(v, 8) {
        v.marks[8]
    } else if moved_last(v, 7) {
        v.marks[7]
    } else if moved_last(v, 6) {
        v.marks[6]
    } else if moved_last(v, 5) {
        v.marks[5]
    } else if moved_last(v, 4) {
        v.marks[4]
    } else if moved_last(v, 3) {
        v.marks[3]
    } else if moved_last(v, 2) {
        v.marks[2]
    } else if moved_last(v, 1) {
        v.marks[1]
    } else if moved_last(v, 0) {
        v.marks[0]
    } else {
        Cell::X
    }
}

/// What a reply on the free cell `p` is worth before any noise: the
/// opportunity that the position after the move gives against the player who
/// moved last.
#[verifier::opaque]
pub open spec fn reply_value(v: Position, p: int) -> int {
    opportunity(step(v, p).marks, last_mover(v))
}

/// For each of the nine cells, whether it is free.
pub open spec fn frees(v: Position) -> Seq<bool> {
    Seq::new(9, |p: int| v.free(p))
}

/// For each of the nine cells, the score of a reply on it in thousandths of
/// a point: a thousand times its value, and the noise of the cell.
pub open spec fn scores(v: Position, noise: Seq<int>) -> Seq<int> {
    Seq::new(9, |p: int| 1000 * reply_value(v, p) + noise[p])
}

/// No noise on any cell.
pub open spec fn quiet() -> Seq<int> {
    Seq::new(9, |p: int| 0int)
}

/// The noise of the nine cells fits the temperature: it is none at zero, and
/// otherwise lies strictly between minus the temperature and the temperature.
pub open spec fn fits(noise: Seq<int>, temperature: u32) -> bool {
    &&& noise.len() == 9
    &&& forall|p: int|
        0 <= p < 9 ==> if temperature == 0 {
            #[trigger] noise[p] == 0
        } else {
            -temperature < #[trigger] noise[p] < temperature
        }
}

/// Who leads once cell `p` has been looked at, where `held` led before it,
/// nine standing for nobody: `p` where it is free and scores no less than `held`.
pub open spec fn contest(free: Seq<bool>, values: Seq<int>, held: int, p: int) -> int {
    if free[p] && (held == 9 || values[p] >= values[held]) {
        p
    } else {
        held
    }
}

/// The last of the free cells with the highest score, nine where no cell is free.
pub open spec fn last_best(free: Seq<bool>, values: Seq<int>) -> int {
    contest(
        free,
        values,
        contest(
            free,
            values,
            contest(
                free,
                values,
                contest(
                    free,
                    values,
                    contest(
                        free,
                        values,
                        contest(
                            free,
                            values,
                            contest(
                                free,
                                values,
                                contest(free, values, contest(free, values, 9, 0), 1),
                                2,
                            ),
                            3,
                        ),
                        4,
                    ),
                    5,
                ),
                6,
            ),
            7,
        ),
        8,
    )
}

/// The cell of the reply that is chosen under the noise, nine where no cell is free.
pub open spec fn reply_under(v: Position, noise: Seq<int>) -> int {
    last_best(frees(v), scores(v, noise))
}

/// The cell of the reply that is chosen without noise, nine where no cell is free.
pub open spec fn best_cell(v: Position) -> int {
    reply_under(v, quiet())
}

/// What is chosen on a position under the noise: the cell of the reply, or
/// nothing where no cell is free.
pub open spec fn choice(v: Position, noise: Seq<int>) -> Result<u16, GameError> {
    if reply_under(v, noise) < 9 {
        Ok(reply_under(v, noise) as u16)
    } else {
        Err(GameError::NoMovesAvailable)
    }
}

/// `p` is a reply that may be chosen at the temperature, which is in
/// thousandths of a point: the reply that is chosen under some noise that
/// fits the temperature.
pub open spec fn acceptable_reply(v: Position, temperature: u32, p: int) -> bool {
    exists|noise: Seq<int>| #[trigger]
        fits(noise, temperature) && 0 <= p < 9 && p == reply_under(v, noise)
}

/// `p` is the best reply: a free cell whose value no free cell exceeds, and
/// the last of the cells with that value.
pub open spec fn best_reply(v: Position, p: int) -> bool {
    &&& v.free(p)
    &&& forall|q: int| #[trigger]
        v.free(q) ==> reply_value(v, q) < reply_value(v, p) || (reply_value(v, q) == reply_value(
            v,
            p,
        ) && q <= p)
}

/// Entry `k` leads the list: no entry has a higher score, and of the entries
/// with its score it is the last.
pub open spec fn leads(entries: Seq<(i64, u16)>, k: int) -> bool {
    &&& 0 <= k < entries.len()
    &&& forall|j: int|
        0 <= j < entries.len() ==> (#[trigger] entries[j]).0 < entries[k].0 || (entries[j].0
            == entries[k].0 && j <= k)
}

proof fn lemma_last_best(free: Seq<bool>, values: Seq<int>)
    requires
        free.len() == 9,
        values.len() == 9,
    ensures
        0 <= last_best(free, values) <= 9,
        last_best(free, values) == 9 <==> forall|p: int| 0 <= p < 9 ==> !#[trigger] free[p],
        last_best(free, values) < 9 ==> free[last_best(free, values)],
        forall|q: int|
            0 <= q < 9 && #[trigger] free[q] ==> values[q] < values[last_best(free, values)] || (
            values[q] == values[last_best(free, values)] && q <= last_best(free, values)),
{
}

/// The reply that is chosen under some noise is a free cell whose score no
/// free cell exceeds, and the last of the cells with that score; there is
/// none only where no cell is free.
pub proof fn lemma_reply_under(v: Position, noise: Seq<int>)
    ensures
        0 <= reply_under(v, noise) <= 9,
        reply_under(v, noise) == 9 <==> forall|p: int| !v.free(p),
        reply_under(v, noise) < 9 ==> v.free(reply_under(v, noise)),
        forall|q: int| #[trigger]
            v.free(q) ==> scores(v, noise)[q] < scores(v, noise)[reply_under(v, noise)] || (scores(
                v,
                noise,
            )[q] == scores(v, noise)[reply_under(v, noise)] && q <= reply_under(v, noise)),
{
    lemma_last_best(frees(v), scores(v, noise));
    assert forall|p: int| v.free(p) implies reply_under(v, noise) != 9 by {
        assert(frees(v)[p]);
    }
    if reply_under(v, noise) < 9 {
        assert(frees(v)[reply_under(v, noise)]);
    }
    assert forall|q: int| #[trigger] v.free(q) implies scores(v, noise)[q] < scores(
        v,
        noise,
    )[reply_under(v, noise)] || (scores(v, noise)[q] == scores(v, noise)[reply_under(v, noise)]
        && q <= reply_under(v, noise)) by {
        assert(frees(v)[q]);
    }
}

/// Without noise the choice is the best reply, and there is one wherever a cell is free.
pub proof fn lemma_best_cell(v: Position)
    ensures
        0 <= best_cell(v) <= 9,
        best_cell(v) == 9 <==> forall|p: int| !v.free(p),
        best_cell(v) < 9 ==> best_reply(v, best_cell(v)),
{
    lemma_reply_under(v, quiet());
    if best_cell(v) < 9 {
        assert forall|q: int| #[trigger] v.free(q) implies reply_value(v, q) < reply_value(
            v,
            best_cell(v),
        ) || (reply_value(v, q) == reply_value(v, best_cell(v)) && q <= best_cell(v)) by {
            assert(scores(v, quiet())[q] == 1000 * reply_value(v, q));
            assert(scores(v, quiet())[best_cell(v)] == 1000 * reply_value(v, best_cell(v)));
        }
    }
}

/// A reply that may be chosen is a free cell.
pub proof fn lemma_reply_free(v: Position, temperature: u32, p: int)
    requires
        acceptable_reply(v, temperature, p),
    ensures
        v.free(p),
{
    let noise = choose|noise: Seq<int>| #[trigger]
        fits(noise, temperature) && 0 <= p < 9 && p == reply_under(v, noise);
    lemma_reply_under(v, noise);
}

/// At temperature zero one reply alone may be chosen, the best one: without
/// noise the choice is a function of the position.
pub proof fn lemma_quiet_reply(v: Position, p: int)
    requires
        acceptable_reply(v, 0, p),
    ensures
        p == best_cell(v),
        best_reply(v, p),
{
    let noise = choose|noise: Seq<int>| #[trigger]
        fits(noise, 0) && 0 <= p < 9 && p == reply_under(v, noise);
    assert(noise =~= quiet());
    lemma_best_cell(v);
}

/// A reply that may be chosen at a temperature above zero is worth less than
/// twice the temperature below any other, in thousandths of a point.
pub proof fn lemma_noisy_reply(v: Position, temperature: u32, p: int, q: int)
    requires
        temperature > 0,
        acceptable_reply(v, temperature, p),
        v.free(q),
    ensures
        v.free(p),
        1000 * reply_value(v, q) - 1000 * reply_value(v, p) <= 2 * temperature - 2,
{
    let noise = choose|noise: Seq<int>| #[trigger]
        fits(noise, temperature) && 0 <= p < 9 && p == reply_under(v, noise);
    lemma_reply_under(v, noise);
    assert(scores(v, noise)[q] == 1000 * reply_value(v, q) + noise[q]);
    assert(scores(v, noise)[p] == 1000 * reply_value(v, p) + noise[p]);
}

/// Picks the cell of the entry with the highest score from a list of scores
/// and cells; of several entries with that score the last one counts. There
/// is no cell to pick in an empty list.
pub fn select(entries: &Vec<(i64, u16)>) -> (tile: Option<u16>)
    ensures
        tile is None <==> entries.len() == 0,
        tile matches Some(t) ==> exists|k: int| leads(entries@, k) && entries[k].1 == t,
{
    if entries.len() == 0 {
        return None;
    }
    let mut best: usize = 0;
    let mut i: usize = 1;
    while i < entries.len()
        invariant
            0 <= best < i <= entries.len(),
            forall|j: int|
                0 <= j < i ==> (#[trigger] entries[j]).0 < entries[best as int].0 || (entries[j].0
                    == entries[best as int].0 && j <= best),
        decreases entries.len() - i,
    {
        if entries[i].0 >= entries[best].0 {
            best = i;
        }
        i += 1;
    }
    assert(leads(entries@, best as int));
    Some(entries[best].1)
}

/// What a reply is worth is the opportunity after the move against the
/// player who moved last.
pub proof fn lemma_reply_value(v: Position, p: int)
    ensures
        reply_value(v, p) == opportunity(step(v, p).marks, last_mover(v)),
{
    reveal(reply_value);
}

/// Lists the free cells in their order and finds the mark of the player who
/// moved last.
fn survey(game_state: &GameState) -> (found: (Vec<u16>, Cell))
    ensures
        found.1 == last_mover(game_state@),
        forall|a: int| 0 <= a < found.0.len() ==> game_state@.free(#[trigger] found.0[a] as int),
        forall|a: int, b: int|
            0 <= a < b < found.0.len() ==> #[trigger] found.0[a] < #[trigger] found.0[b],
        forall|q: int| #[trigger]
            game_state@.free(q) ==> exists|a: int|
                0 <= a < found.0.len() && #[trigger] found.0[a] == q,
{
    let ghost v = game_state@;
    let mut empty_tiles: Vec<u16> = Vec::new();
    let mut player = Cell::X;
    let ghost mut mover: int = -1;
    let mut i: u16 = 0;
    while i < 9
        invariant
            i <= 9,
            v == game_state@,
            forall|a: int| 0 <= a < empty_tiles.len() ==> #[trigger] empty_tiles[a] < i && v.free(
                empty_tiles[a] as int,
            ),
            forall|a: int, b: int|
                0 <= a < b < empty_tiles.len() ==> #[trigger] empty_tiles[a] < #[trigger] empty_tiles[b],
            forall|q: int|
                0 <= q < i && #[trigger] v.free(q) ==> exists|a: int|
                    0 <= a < empty_tiles.len() && #[trigger] empty_tiles[a] == q,
            -1 <= mover < i,
            mover == -1 ==> player == Cell::X,
            mover >= 0 ==> moved_last(v, mover) && player == v.marks[mover],
            forall|q: int| mover < q < i ==> !moved_last(v, q),
        decreases 9 - i,
    {
        let ghost listed = empty_tiles@;
        if let Cell::N = game_state.get(i) {
            empty_tiles.push(i);
        } else if game_state.array[i as usize] == game_state.last {
            player = game_state.get(i);
            proof {
                mover = i as int;
            }
        }
        assert forall|q: int| 0 <= q <= i && #[trigger] v.free(q) implies exists|a: int|
            0 <= a < empty_tiles.len() && #[trigger] empty_tiles[a] == q by {
            if q == i {
                assert(empty_tiles[empty_tiles.len() - 1] == q);
            } else {
                let a = choose|a: int| 0 <= a < listed.len() && #[trigger] listed[a] == q;
                assert(empty_tiles[a] == q);
            }
        }
        i += 1;
    }
    let found = (empty_tiles, player);
    assert forall|q: int| #[trigger] v.free(q) implies exists|a: int|
        0 <= a < found.0.len() && #[trigger] found.0[a] == q by {
        let a = choose|a: int| 0 <= a < found.0.len() && #[trigger] found.0[a] == q;
        assert(found.0[a] == q);
    }
    found
}

/// The entry that leads a list of the scores of all free cells, in the order
/// of the cells, is that of the last of the free cells with the highest score.
proof fn lemma_leader_is_last_best(
    free: Seq<bool>,
    values: Seq<int>,
    tiles: Seq<u16>,
    entries: Seq<(i64, u16)>,
    k: int,
)
    requires
        free.len() == 9,
        values.len() == 9,
        tiles.len() == entries.len(),
        forall|a: int| 0 <= a < tiles.len() ==> #[trigger] tiles[a] < 9 && free[tiles[a] as int],
        forall|a: int, b: int| 0 <= a < b < tiles.len() ==> #[trigger] tiles[a] < #[trigger] tiles[b],
        forall|q: int|
            0 <= q < 9 && #[trigger] free[q] ==> exists|a: int|
                0 <= a < tiles.len() && #[trigger] tiles[a] == q,
        forall|a: int|
            0 <= a < tiles.len() ==> (#[trigger] entries[a]).1 == tiles[a] && entries[a].0
                == values[tiles[a] as int],
        leads(entries, k),
    ensures
        entries[k].1 == last_best(free, values),
{
    lemma_last_best(free, values);
    let tile = tiles[k] as int;
    let best = last_best(free, values);
    assert(entries[k].1 == tiles[k]);
    assert(free[tile]);
    let b = choose|b: int| 0 <= b < tiles.len() && #[trigger] tiles[b] == best;
    assert(entries[b].1 == best);
    if b < k {
        assert(tiles[b] < tiles[k]);
    }
    if k < b {
        assert(tiles[k] < tiles[b]);
    }
}

/// Chooses the reply to the player who moved last: every free cell is tried,
/// the state after the move is scored against that player at the temperature,
/// and the cell with the highest score is taken, the last one of several. The
/// temperature is in thousandths of a point. Whatever noise the scores carry,
/// it fits the temperature, so that at temperature zero the reply is the best
/// one. With no free cell there is no reply.
pub fn turn(game_state: &GameState, temperature: u32) -> (chosen: Result<u16, GameError>)
    requires
        game_state.last < u16::MAX,
        game_state.expiring < u16::MAX,
    ensures
        exists|noise: Seq<int>| #[trigger]
            fits(noise, temperature) && chosen == choice(game_state@, noise),
        temperature == 0 ==> chosen == choice(game_state@, quiet()),
        chosen is Err <==> forall|p: int| !game_state@.free(p),
        chosen matches Ok(p) ==> acceptable_reply(game_state@, temperature, p as int),
{
    let ghost v = game_state@;
    let (empty_tiles, player) = survey(game_state);

    let mut candidates: Vec<(i64, u16)> = Vec::new();
    let ghost mut noise = quiet();
    let mut t: usize = 0;
    while t < empty_tiles.len()
        invariant
            t <= empty_tiles.len(),
            candidates.len() == t,
            v == game_state@,
            game_state.last < u16::MAX,
            game_state.expiring < u16::MAX,
            player == last_mover(v),
            fits(noise, temperature),
            forall|a: int| 0 <= a < empty_tiles.len() ==> v.free(#[trigger] empty_tiles[a] as int),
            forall|a: int, b: int|
                0 <= a < b < empty_tiles.len() ==> #[trigger] empty_tiles[a] < #[trigger] empty_tiles[b],
            forall|a: int|
                0 <= a < t ==> (#[trigger] candidates[a]).1 == empty_tiles[a] && candidates[a].0
                    == scores(v, noise)[empty_tiles[a] as int],
        decreases empty_tiles.len() - t,
    {
        let tile = empty_tiles[t];
        let new = game_state.turn(tile).unwrap();
        let opportunity = calculate_opportunity(&new, player, temperature);
        proof {
            lemma_reply_value(v, tile as int);
            let before = noise;
            noise = noise.update(tile as int, opportunity - 1000 * reply_value(v, tile as int));
            assert forall|a: int| 0 <= a < t implies candidates[a].0 == scores(
                v,
                noise,
            )[#[trigger] empty_tiles[a] as int] by {
                assert(empty_tiles[a] < empty_tiles[t as int]);
                assert(candidates[a].0 == scores(v, before)[empty_tiles[a] as int]);
            }
        }
        candidates.push((opportunity, tile));
        t += 1;
    }

    let picked = select(&candidates);
    proof {
        assert forall|q: int| 0 <= q < 9 && #[trigger] frees(v)[q] implies exists|a: int|
            0 <= a < empty_tiles.len() && #[trigger] empty_tiles[a] == q by {
            assert(v.free(q));
        }
        lemma_reply_under(v, noise);
        if picked is Some {
            let k = choose|k: int| leads(candidates@, k) && candidates[k].1 == picked.unwrap();
            lemma_leader_is_last_best(frees(v), scores(v, noise), empty_tiles@, candidates@, k);
        } else {
            assert forall|p: int| !v.free(p) by {
                if v.free(p) {
                    let a = choose|a: int| 0 <= a < empty_tiles.len() && empty_tiles[a] == p;
                }
            }
        }
        if temperature == 0 {
            assert(noise =~= quiet());
        }
    }
    match picked {
        Some(tile) => Ok(tile),
        None => Err(GameError::NoMovesAvailable),
    }
}

} // verus!
