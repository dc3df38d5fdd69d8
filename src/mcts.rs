//! Move evaluation by random playouts.

use crate::grid::{empty_count, BoardView, COLUMNS, GameError, GameMove, GridState, Player};
use rayon::iter::{IntoParallelRefIterator, ParallelIterator};
use vstd::prelude::*;

verus! {

/// How a playout ended for the player who was to move at its start.
#[derive(Debug, Copy, Clone, PartialEq, Eq, Structural)]
pub enum Finish {
    Win,
    Lose,
    Draw,
}

/// The ending of a game won by `winner` (or drawn), seen by `mover`.
pub open spec fn finish_of(mover: Player, winner: Option<Player>) -> Finish {
    match winner {
        None => Finish::Draw,
        Some(w) => if w == mover {
            Finish::Win
        } else {
            Finish::Lose
        },
    }
}

/// Wins count one, losses minus one, draws nothing.
pub open spec fn finish_value(f: Finish) -> int {
    match f {
        Finish::Win => 1,
        Finish::Lose => -1,
        Finish::Draw => 0,
    }
}

/// Wins minus losses over a list of playout endings.
pub open spec fn net(s: Seq<Finish>) -> int
    decreases s.len(),
{
    if s.len() == 0 {
        0
    } else {
        net(s.drop_last()) + finish_value(s.last())
    }
}

/// `f` is how a playout from `start` can end: some board with no move left
/// that legal insertions lead to from `start`, seen by `start`'s mover.
pub open spec fn possible_finish(start: BoardView, f: Finish) -> bool {
    exists|end: BoardView, n: nat|
        #![trigger start.reaches(end, n)]
        start.reaches(end, n) && end.terminal() && f == finish_of(start.turn, end.winner)
}

/// `score` is wins minus losses over `rollouts` playouts from `start`.
pub open spec fn possible_score(start: BoardView, rollouts: nat, score: int) -> bool {
    exists|s: Seq<Finish>|
        #![trigger net(s)]
        s.len() == rollouts && score == net(s) && forall|i: int|
            0 <= i < s.len() ==> possible_finish(start, #[trigger] s[i])
}

/// The ending of a finished game for `mover`.
pub fn finish(mover: Player, end: &GridState) -> (r: Finish)
    ensures
        r == finish_of(mover, end@.winner),
{
    match end.get_winner() {
        None => Finish::Draw,
        Some(w) => if w == mover {
            Finish::Win
        } else {
            Finish::Lose
        },
    }
}

/// Relies on `rand::Rng::gen_range` with `rand::thread_rng`: a value drawn
/// from `0..n`, which panics only when the range is empty.
#[verifier::external_body]
fn random_below(n: usize) -> (r: usize)
    requires
        0 < n,
    ensures
        r < n,
{
    rand::Rng::gen_range(&mut rand::thread_rng(), 0..n)
}

/// One step of a playout: the board after the legal move at position
/// `draw` of the list of legal moves (in ascending column order), or `None`
/// when there is no such move.
pub fn rollout_step(current: &GridState, draw: usize) -> (r: Option<GridState>)
    ensures
        r is None <==> draw >= current@.legal_columns(COLUMNS as int).len(),
        r matches Some(next) ==> next@ == current@.inserted(
            current@.legal_columns(COLUMNS as int)[draw as int],
        ),
{
    let moves = current.get_moves();
    if draw < moves.len() {
        Some(moves[draw].next)
    } else {
        None
    }
}

/// Plays uniformly random legal moves from `start` until none is left, and
/// reports the ending for the player to move in `start`.
fn rollout(start: &GridState) -> (r: Finish)
    ensures
        possible_finish(start@, r),
{
    let mover = start.get_turn();
    let mut current = *start;
    let ghost mut steps: nat = 0;
    proof {
        current.lemma_sized();
    }
    loop
        invariant
            current@.sized(),
            start@.reaches(current@, steps),
        ensures
            current@.terminal(),
            start@.reaches(current@, steps),
        decreases empty_count(current@.cells),
    {
        let count = current.move_count();
        if count == 0 {
            break;
        }
        let k = random_below(count);
        match rollout_step(&current, k) {
            Some(next) => {
                proof {
                    current@.lemma_legal_columns(COLUMNS as int);
                    let c = current@.legal_columns(COLUMNS as int)[k as int];
                    current@.lemma_inserted_fills_one(c);
                    start@.lemma_reaches_extend(current@, steps, c);
                    steps = steps + 1;
                }
                current = next;
            },
            None => {
                break;
            },
        }
    }
    finish(mover, &current)
}

/// Wins minus losses over `rollouts` random playouts from `current_state`,
/// for the player to move there. On a board with no move left every playout
/// ends at once, so the score is `rollouts`, `-rollouts` or zero.
pub fn estimate_score(current_state: &GridState, rollouts: u32) -> (r: i32)
    requires
        rollouts <= i32::MAX,
    ensures
        possible_score(current_state@, rollouts as nat, r as int),
        -(rollouts as int) <= r <= rollouts,
        current_state@.terminal() ==> r == rollouts * finish_value(
            finish_of(current_state@.turn, current_state@.winner),
        ),
        current_state@.winner == Some(current_state@.turn) ==> r == rollouts,
        current_state@.winner == Some(current_state@.turn.opponent()) ==> r == -(rollouts as int),
{
    proof {
        if current_state@.winner.is_some() {
            current_state@.lemma_legal_columns_empty(COLUMNS as int);
            assert forall|c: int| 0 <= c < COLUMNS implies !#[trigger] current_state@.can_insert(
                c,
            ) by {
                current_state@.lemma_no_insert_after_win(c);
            }
        }
    }
    let mut endings: Vec<Finish> = Vec::new();
    for i in 0..rollouts
        invariant
            rollouts <= i32::MAX,
            endings@.len() == i,
            -(i as int) <= net(endings@) <= i,
            forall|j: int|
                0 <= j < endings@.len() ==> possible_finish(current_state@, #[trigger] endings@[j]),
            current_state@.terminal() ==> net(endings@) == i * finish_value(
                finish_of(current_state@.turn, current_state@.winner),
            ),
    {
        let f = rollout(current_state);
        proof {
            assert(endings@.push(f).drop_last() =~= endings@);
            if current_state@.terminal() {
                let (end, n) = choose|end: BoardView, n: nat|
                    current_state@.reaches(end, n) && end.terminal() && f == finish_of(
                        current_state@.turn,
                        end.winner,
                    );
                current_state@.lemma_reaches_from_terminal(end, n);
                assert((i + 1) * finish_value(f) == i * finish_value(f) + finish_value(f))
                    by (nonlinear_arith);
            }
        }
        endings.push(f);
    }
    let r = tally(&endings);
    assert(finish_of(current_state@.turn, Some(current_state@.turn.opponent())) == Finish::Lose);
    assert(rollouts * finish_value(Finish::Lose) == -(rollouts as int));
    r
}

/// Wins minus losses over the playout endings `endings`.
pub fn tally(endings: &Vec<Finish>) -> (r: i32)
    requires
        endings@.len() <= i32::MAX,
    ensures
        r == net(endings@),
{
    let mut wins: i32 = 0;
    let mut losses: i32 = 0;
    for i in 0..endings.len()
        invariant
            endings@.len() <= i32::MAX,
            0 <= wins,
            0 <= losses,
            wins + losses <= i,
            wins - losses == net(endings@.take(i as int)),
    {
        assert(endings@.take(i + 1).drop_last() =~= endings@.take(i as int));
        match endings[i] {
            Finish::Win => wins = wins + 1,
            Finish::Lose => losses = losses + 1,
            Finish::Draw => {},
        }
    }
    assert(endings@.take(endings@.len() as int) =~= endings@);
    wins - losses
}

/// Wins minus losses lies between minus the number of endings and that
/// number.
pub proof fn lemma_net_bounds(s: Seq<Finish>)
    ensures
        -(s.len() as int) <= net(s) <= s.len(),
    decreases s.len(),
{
    if s.len() > 0 {
        lemma_net_bounds(s.drop_last());
    }
}

proof fn lemma_net_all_lost(s: Seq<Finish>)
    requires
        forall|i: int| 0 <= i < s.len() ==> s[i] == Finish::Lose,
    ensures
        net(s) == -(s.len() as int),
    decreases s.len(),
{
    if s.len() > 0 {
        lemma_net_all_lost(s.drop_last());
    }
}

/// A board already won by the player who just moved scores `-rollouts` for
/// the player to move there, and no score is lower than that.
pub proof fn lemma_lost_board_score(b: BoardView, rollouts: nat, score: int)
    requires
        possible_score(b, rollouts, score),
    ensures
        -(rollouts as int) <= score <= rollouts,
        b.winner == Some(b.turn.opponent()) ==> score == -(rollouts as int),
{
    let s = choose|s: Seq<Finish>|
        s.len() == rollouts && score == net(s) && forall|i: int|
            0 <= i < s.len() ==> possible_finish(b, #[trigger] s[i]);
    assert(net(s) == score);
    lemma_net_bounds(s);
    if b.winner == Some(b.turn.opponent()) {
        b.lemma_legal_columns_empty(COLUMNS as int);
        assert forall|c: int| 0 <= c < COLUMNS implies !#[trigger] b.can_insert(c) by {
            b.lemma_no_insert_after_win(c);
        }
        assert forall|i: int| 0 <= i < s.len() implies s[i] == Finish::Lose by {
            assert(possible_finish(b, s[i]));
            let (end, n) = choose|end: BoardView, n: nat|
                b.reaches(end, n) && end.terminal() && s[i] == finish_of(b.turn, end.winner);
            b.lemma_reaches_from_terminal(end, n);
        }
        lemma_net_all_lost(s);
    }
}

/// A move that wins at once is never outscored: when some candidate's next
/// board is already won by the player who moved, the least score, which
/// `get_best_move` picks, is `-rollouts`, and it stands no later than that
/// candidate.
pub proof fn lemma_immediate_win_scores_least(
    moves: Seq<GameMove>,
    rollouts: nat,
    scores: Seq<i32>,
    k: int,
    j: int,
)
    requires
        scores.len() == moves.len(),
        first_min(scores, k),
        forall|i: int|
            0 <= i < scores.len() ==> possible_score(
                moves[i].next@,
                rollouts,
                #[trigger] scores[i] as int,
            ),
        0 <= j < moves.len(),
        moves[j].next@.winner == Some(moves[j].next@.turn.opponent()),
    ensures
        scores[k] == -(rollouts as int),
        k <= j,
{
    lemma_lost_board_score(moves[j].next@, rollouts, scores[j] as int);
    lemma_lost_board_score(moves[k].next@, rollouts, scores[k] as int);
}

/// `k` is the first position of a least element of `scores`.
pub open spec fn first_min(scores: Seq<i32>, k: int) -> bool {
    &&& 0 <= k < scores.len()
    &&& forall|j: int| 0 <= j < scores.len() ==> scores[k] <= #[trigger] scores[j]
    &&& forall|j: int| 0 <= j < k ==> scores[k] < #[trigger] scores[j]
}

/// The first position of a least score.
pub fn min_index(scores: &Vec<i32>) -> (k: usize)
    requires
        scores@.len() > 0,
    ensures
        first_min(scores@, k as int),
{
    let mut k: usize = 0;
    for i in 1..scores.len()
        invariant
            scores@.len() > 0,
            0 <= k < i,
            forall|j: int| 0 <= j < i ==> scores@[k as int] <= #[trigger] scores@[j],
            forall|j: int| 0 <= j < k ==> scores@[k as int] < #[trigger] scores@[j],
    {
        if scores[i] < scores[k] {
            k = i;
        }
    }
    k
}

/// Relies on rayon's `par_iter().map(..).collect()` into a `Vec`, which
/// keeps the length and the order of the items: the score of each move's
/// next board, computed in parallel.
#[verifier::external_body]
fn parallel_scores(moves: &Vec<GameMove>, rollouts: u32) -> (scores: Vec<i32>)
    requires
        rollouts <= i32::MAX,
    ensures
        scores@.len() == moves@.len(),
        forall|i: int|
            0 <= i < moves@.len() ==> possible_score(
                (#[trigger] moves@[i]).next@,
                rollouts as nat,
                scores@[i] as int,
            ),
{
    moves.par_iter().map(|m| estimate_score(&m.next, rollouts)).collect()
}

/// The move whose next board scores lowest for the opponent, who moves
/// there; the first such move on ties.
pub fn get_best_move(move_list: Vec<GameMove>, rollouts: u32) -> (r: Result<GameMove, GameError>)
    requires
        rollouts <= i32::MAX,
    ensures
        move_list@.len() == 0 <==> r == Err::<GameMove, GameError>(GameError::NoMovesAvailable),
        move_list@.len() > 0 <==> r is Ok,
        r is Ok ==> exists|scores: Seq<i32>, k: int|
            #![trigger first_min(scores, k)]
            scores.len() == move_list@.len() && first_min(scores, k) && r == Ok::<
                GameMove,
                GameError,
            >(move_list@[k]) && forall|i: int|
                0 <= i < scores.len() ==> possible_score(
                    move_list@[i].next@,
                    rollouts as nat,
                    #[trigger] scores[i] as int,
                ),
{
    if move_list.len() == 0 {
        return Err(GameError::NoMovesAvailable);
    }
    let scores = parallel_scores(&move_list, rollouts);
    let k = min_index(&scores);
    let best = move_list[k];
    assert(first_min(scores@, k as int));
    Ok(best)
}

} // verus!
