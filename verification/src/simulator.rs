//! Game simulation: each turn a shape is drawn, a bot ranks the placements
//! that the board offers for it, and the best one is played. A game runs
//! until no placement is left or enough lines have been cleared.

use crate::board::{lemma_filled_bounds, lemma_fills_without_clear};
use crate::chance::random_u64;
use crate::piece::{lemma_rotated, lemma_spawn, Mino, MinoShape};
use crate::search::{lemma_reached_sinks, reaches};
use crate::state::{lemma_completes_at_most_four, State};
use vstd::prelude::*;

verus! {

/// Largest ceiling on the lines of a game for which no score can leave the
/// range of the counters.
pub const MAX_CEILING: i32 = 8000;

/// A simulatable Tetris bot.
pub trait Bot {
    /// Take a state and output a score based on how desirable that state is
    /// (higher = better).
    fn evaluate(&self, state: &State) -> i64;
}

/// The shape that stands for a number: its remainder by seven picks among
/// I, J, L, O, S, T and Z.
pub open spec fn shape_of_index(i: int) -> MinoShape {
    if i % 7 == 0 {
        MinoShape::I
    } else if i % 7 == 1 {
        MinoShape::J
    } else if i % 7 == 2 {
        MinoShape::L
    } else if i % 7 == 3 {
        MinoShape::O
    } else if i % 7 == 4 {
        MinoShape::S
    } else if i % 7 == 5 {
        MinoShape::T
    } else {
        MinoShape::Z
    }
}

/// Whether the score at index `i` is the largest, and the first that large.
pub open spec fn is_first_max(scores: Seq<i64>, i: int) -> bool {
    &&& 0 <= i < scores.len()
    &&& forall|j: int| 0 <= j < scores.len() ==> scores[j] <= scores[i]
    &&& forall|j: int| 0 <= j < i ==> scores[j] < scores[i]
}

/// Whether `scores` holds, for each placement in turn, a score that the bot
/// gave to its state.
pub open spec fn scored_by<B: Bot>(bot: &B, cands: Seq<(State, Mino)>, scores: Seq<i64>) -> bool {
    &&& scores.len() == cands.len()
    &&& forall|j: int|
        0 <= j < cands.len() ==> call_ensures(B::evaluate, (bot, &(#[trigger] cands[j]).0), scores[j])
}

/// Whether the bot picks the placement at index `i`: of the scores it gave,
/// that one is the largest, and the first that large.
pub open spec fn chosen_by<B: Bot>(bot: &B, cands: Seq<(State, Mino)>, i: int) -> bool {
    exists|scores: Seq<i64>| #[trigger] scored_by(bot, cands, scores) && is_first_max(scores, i)
}

impl State {
    /// Whether `cands` lists what the board offers for a piece of shape
    /// `next` that may start in any of the first `k` rotation states at the
    /// spawn position: each entry is a position where the piece rests and
    /// that it can reach, with the state that placing it there gives, and no
    /// such position is left out.
    pub open spec fn offers_within(
        self,
        next: MinoShape,
        k: int,
        cands: Seq<(State, Mino)>,
    ) -> bool {
        &&& forall|i: int|
            0 <= i < cands.len() ==> {
                let (state, mino) = #[trigger] cands[i];
                &&& mino.wf()
                &&& mino.spec_y() >= 0
                &&& self.board.rests(mino)
                &&& self.places_to(mino, state)
                &&& state.valid()
                &&& exists|n: int|
                    0 <= n < k && #[trigger] reaches(
                        self.board,
                        Mino::spawn(next).spec_rotated(n),
                        mino,
                    )
            }
        &&& forall|m: Mino, n: int|
            0 <= n < k && m.wf() && #[trigger] reaches(
                self.board,
                Mino::spawn(next).spec_rotated(n),
                m,
            ) && self.board.rests(m) ==> exists|i: int|
                0 <= i < cands.len() && (#[trigger] cands[i]).1 == m
    }

    /// Whether `cands` lists what the board offers for a piece of shape
    /// `next`, whichever rotation state it starts in.
    pub open spec fn offers(self, next: MinoShape, cands: Seq<(State, Mino)>) -> bool {
        self.offers_within(next, next.spec_n_rotations(), cands)
    }

    /// Whether the state is that of a game about to begin.
    pub open spec fn is_fresh(self) -> bool {
        &&& self.board.is_blank()
        &&& self.score == 0
        &&& self.level == 0
        &&& self.lines == 0
    }
}

/// Whether `r` is the outcome of a turn in which the piece `next` comes up
/// and the bot decides: nothing where the board offers no placement, else
/// the placement that the bot picks among those it offers.
pub open spec fn is_turn<B: Bot>(
    bot: &B,
    state: State,
    next: MinoShape,
    r: Option<(State, Mino)>,
) -> bool {
    exists|cands: Seq<(State, Mino)>| #[trigger]
        state.offers(next, cands) && match r {
            None => cands.len() == 0,
            Some(c) => exists|i: int| #[trigger] chosen_by(bot, cands, i) && cands[i] == c,
        }
}

/// Whether `states` is the course of a game that the bot plays up to a
/// ceiling on the lines: it begins fresh; every state but the last is below
/// the ceiling, and a turn of the bot leads from it to the next; the last
/// has reached the ceiling, or some piece has no placement there.
pub open spec fn is_game<B: Bot>(bot: &B, ceiling: int, states: Seq<State>) -> bool {
    &&& states.len() >= 1
    &&& states[0].is_fresh()
    &&& forall|i: int|
        0 <= i < states.len() - 1 ==> (#[trigger] states[i]).lines < ceiling && exists|
            next: MinoShape,
            m: Mino,
        | #[trigger] is_turn(bot, states[i], next, Some((states[i + 1], m)))
    &&& (states.last().lines >= ceiling || exists|next: MinoShape| #[trigger]
        is_turn(bot, states.last(), next, None))
}

/// Whether a game that the bot plays up to the ceiling can end in `end`.
pub open spec fn plays<B: Bot>(bot: &B, ceiling: int, end: State) -> bool {
    exists|states: Seq<State>| #[trigger] is_game(bot, ceiling, states) && states.last() == end
}

/// The scores of the states, added up.
pub open spec fn total_score(ends: Seq<State>) -> int
    decreases ends.len(),
{
    if ends.len() == 0 {
        0
    } else {
        total_score(ends.drop_last()) + ends.last().score
    }
}

/// Why a simulation could not be run.
#[derive(Clone, Copy, Debug, PartialEq, Eq, Structural)]
pub enum SimulationError {
    /// No games were asked for, so there is no average to give.
    NoGames,
}

/// The outcome of a simulation: how many games were played and what their
/// final scores add up to. The average score is their quotient.
#[derive(Clone, Copy, Debug, PartialEq, Eq, Structural)]
pub struct Tally {
    pub games: u32,
    pub total_score: i64,
}

/// The shape that stands for a number.
pub fn shape_from_index(i: u64) -> (shape: MinoShape)
    ensures
        shape == shape_of_index(i as int),
{
    let r = i % 7;
    if r == 0 {
        MinoShape::I
    } else if r == 1 {
        MinoShape::J
    } else if r == 2 {
        MinoShape::L
    } else if r == 3 {
        MinoShape::O
    } else if r == 4 {
        MinoShape::S
    } else if r == 5 {
        MinoShape::T
    } else {
        MinoShape::Z
    }
}

/// Draw the shape of the next piece. Not uniformly distributed, but close.
pub fn random_mino() -> (shape: MinoShape)
    ensures
        exists|i: int| shape == #[trigger] shape_of_index(i),
{
    let i = random_u64();
    let shape = shape_from_index(i);
    assert(shape == shape_of_index(i as int));
    shape
}

/// All that the board offers for a piece of shape `next`: the placements
/// found from each rotation state of the new piece in turn.
pub fn candidates(state: &State, next: MinoShape) -> (cands: Vec<(State, Mino)>)
    requires
        state.valid(),
        state.has_headroom(),
    ensures
        state.offers(next, cands@),
{
    let spawn = Mino::new(next);
    let turns = next.n_rotations();
    let mut cands: Vec<(State, Mino)> = Vec::new();
    let mut n: i32 = 0;
    while n < turns
        invariant
            0 <= n <= turns,
            turns == next.spec_n_rotations(),
            spawn == Mino::spawn(next),
            spawn.wf(),
            state.valid(),
            state.has_headroom(),
            state.offers_within(next, n as int, cands@),
        decreases turns - n,
    {
        let start = spawn.rotated(n);
        proof {
            lemma_spawn(next);
            lemma_rotated(spawn, n as int);
        }
        let mut found = state.possibilities_from(start);
        let ghost earlier = cands@;
        let ghost part = found@;
        cands.append(&mut found);
        proof {
            assert(cands@ == earlier + part);
            assert forall|i: int| 0 <= i < cands@.len() implies {
                let (after, mino) = #[trigger] cands@[i];
                &&& mino.wf()
                &&& mino.spec_y() >= 0
                &&& state.board.rests(mino)
                &&& state.places_to(mino, after)
                &&& after.valid()
                &&& exists|k: int|
                    0 <= k < n + 1 && #[trigger] reaches(
                        state.board,
                        Mino::spawn(next).spec_rotated(k),
                        mino,
                    )
            } by {
                if i < earlier.len() {
                    assert(cands@[i] == earlier[i]);
                    let k = choose|k: int|
                        0 <= k < n && #[trigger] reaches(
                            state.board,
                            Mino::spawn(next).spec_rotated(k),
                            earlier[i].1,
                        );
                    assert(0 <= k < n + 1);
                } else {
                    assert(cands@[i] == part[i - earlier.len()]);
                    lemma_reached_sinks(state.board, start, part[i - earlier.len()].1);
                    assert(reaches(
                        state.board,
                        Mino::spawn(next).spec_rotated(n as int),
                        cands@[i].1,
                    ));
                }
            }
            assert forall|m: Mino, k: int|
                0 <= k < n + 1 && m.wf() && #[trigger] reaches(
                    state.board,
                    Mino::spawn(next).spec_rotated(k),
                    m,
                ) && state.board.rests(m) implies exists|i: int|
                0 <= i < cands@.len() && (#[trigger] cands@[i]).1 == m by {
                if k < n {
                    let i = choose|i: int| 0 <= i < earlier.len() && (#[trigger] earlier[i]).1 == m;
                    assert(cands@[i] == earlier[i]);
                } else {
                    let i = choose|i: int| 0 <= i < part.len() && (#[trigger] part[i]).1 == m;
                    assert(cands@[earlier.len() + i] == part[i]);
                }
            }
        }
        n += 1;
    }
    cands
}

/// The placement that the bot likes best: the index of the first among
/// those whose state it scores highest, or nothing where there is none to
/// pick from.
pub fn best_placement<B: Bot>(cands: &Vec<(State, Mino)>, bot: &B) -> (best: Option<usize>)
    ensures
        best is None <==> cands.len() == 0,
        best matches Some(i) ==> chosen_by(bot, cands@, i as int),
{
    if cands.len() == 0 {
        return None;
    }
    let mut best: usize = 0;
    let mut top = bot.evaluate(&cands[0].0);
    let ghost mut scores: Seq<i64> = seq![top];
    let mut j: usize = 1;
    while j < cands.len()
        invariant
            1 <= j <= cands.len(),
            scores.len() == j,
            forall|k: int|
                0 <= k < j ==> call_ensures(
                    B::evaluate,
                    (bot, &(#[trigger] cands@[k]).0),
                    scores[k],
                ),
            is_first_max(scores, best as int),
            top == scores[best as int],
        decreases cands.len() - j,
    {
        let score = bot.evaluate(&cands[j].0);
        proof {
            scores = scores.push(score);
        }
        if score > top {
            best = j;
            top = score;
        }
        j += 1;
    }
    proof {
        assert(scored_by(bot, cands@, scores));
    }
    Some(best)
}

/// Run a single turn in the game. Finds and feeds possible future states to
/// the bot, and returns the one that evaluates highest + the mino placed that
/// got it there.
pub fn turn<B: Bot>(state: &State, next: MinoShape, bot: &B) -> (r: Option<(State, Mino)>)
    requires
        state.valid(),
        state.has_headroom(),
    ensures
        is_turn(bot, *state, next, r),
{
    let cands = candidates(state, next);
    match best_placement(&cands, bot) {
        Some(i) => {
            let choice = cands[i];
            assert(chosen_by(bot, cands@, i as int) && cands@[i as int] == choice);
            Some(choice)
        },
        None => None,
    }
}

/// What a turn that places a piece does to the counters of a game in
/// progress, and why such turns cannot go on for ever.
proof fn lemma_turn_advances<B: Bot>(bot: &B, state: State, next: MinoShape, after: State, m: Mino)
    requires
        is_turn(bot, state, next, Some((after, m))),
        state.valid(),
        state.level == state.lines / 10,
        state.score <= 240300 * state.lines,
        state.lines < MAX_CEILING,
    ensures
        after.valid(),
        after.level == after.lines / 10,
        after.score <= 240300 * after.lines,
        state.lines <= after.lines <= state.lines + 4,
        after.lines == state.lines ==> state.board.filled() < after.board.filled(),
{
    let cands = choose|cands: Seq<(State, Mino)>| #[trigger]
        state.offers(next, cands) && exists|i: int| #[trigger]
            chosen_by(bot, cands, i) && cands[i] == (after, m);
    let i = choose|i: int| #[trigger] chosen_by(bot, cands, i) && cands[i] == (after, m);
    let scores = choose|scores: Seq<i64>| #[trigger]
        scored_by(bot, cands, scores) && is_first_max(scores, i);
    assert(0 <= i < cands.len());
    assert(cands[i] == (after, m));
    assert(state.places_to(m, after));
    lemma_completes_at_most_four(state.board, m);
    if after.lines == state.lines {
        lemma_fills_without_clear(state.board, m, after.board);
    }
}

/// Play one game from a fresh state: turn after turn a shape is drawn and
/// the bot's choice is played, until the lines reach the ceiling or the
/// piece drawn has no placement.
pub fn play<B: Bot>(bot: &B, ceiling: i32) -> (end: State)
    requires
        ceiling <= MAX_CEILING,
    ensures
        plays(bot, ceiling as int, end),
        end.valid(),
{
    let mut state = State::new();
    let ghost mut states: Seq<State> = seq![state];
    loop
        invariant
            ceiling <= MAX_CEILING,
            state.valid(),
            state.level == state.lines / 10,
            state.score <= 240300 * state.lines,
            state.lines <= ceiling + 3 || state.lines == 0,
            states.len() >= 1,
            states[0].is_fresh(),
            states.last() == state,
            forall|i: int|
                0 <= i < states.len() - 1 ==> (#[trigger] states[i]).lines < ceiling && exists|
                    next: MinoShape,
                    m: Mino,
                | #[trigger] is_turn(bot, states[i], next, Some((states[i + 1], m))),
        decreases MAX_CEILING + 4 - state.lines, 200 - state.board.filled(),
    {
        if state.lines >= ceiling {
            assert(is_game(bot, ceiling as int, states));
            return state;
        }
        let next = random_mino();
        match turn(&state, next, bot) {
            Some((after, m)) => {
                proof {
                    lemma_turn_advances(bot, state, next, after, m);
                    lemma_filled_bounds(after.board);
                    let longer = states.push(after);
                    assert forall|i: int| 0 <= i < longer.len() - 1 implies (
                    #[trigger] longer[i]).lines < ceiling && exists|n: MinoShape, p: Mino| #[trigger]
                        is_turn(bot, longer[i], n, Some((longer[i + 1], p))) by {
                        if i < states.len() - 1 {
                            assert(longer[i] == states[i]);
                            assert(longer[i + 1] == states[i + 1]);
                        } else {
                            assert(longer[i] == state);
                            assert(longer[i + 1] == after);
                            assert(is_turn(bot, longer[i], next, Some((longer[i + 1], m))));
                        }
                    }
                    assert(longer[0] == states[0]);
                    states = longer;
                }
                state = after;
            },
            None => {
                assert(is_turn(bot, states.last(), next, None));
                assert(is_game(bot, ceiling as int, states));
                return state;
            },
        }
    }
}

/// Simulate `n` games played by `bot`, each up to `ceiling` lines, and
/// return the number of games with the sum of their final scores. Without
/// a game there is no average, so `n` must not be 0.
pub fn simulate<B: Bot>(n: u32, bot: &B, ceiling: i32) -> (r: Result<Tally, SimulationError>)
    requires
        ceiling <= MAX_CEILING,
    ensures
        n == 0 <==> r is Err,
        r matches Ok(tally) ==> tally.games == n && exists|ends: Seq<State>|
            ends.len() == n && (forall|i: int|
                0 <= i < n ==> #[trigger] plays(bot, ceiling as int, ends[i])) && tally.total_score
                == #[trigger] total_score(ends),
{
    if n == 0 {
        return Err(SimulationError::NoGames);
    }
    let mut total: i64 = 0;
    let ghost mut ends: Seq<State> = Seq::empty();
    let mut game: u32 = 0;
    while game < n
        invariant
            game <= n,
            ceiling <= MAX_CEILING,
            ends.len() == game,
            forall|i: int| 0 <= i < game ==> #[trigger] plays(bot, ceiling as int, ends[i]),
            total == total_score(ends),
            0 <= total <= game * 0x7fff_ffff,
        decreases n - game,
    {
        let end = play(bot, ceiling);
        proof {
            let longer = ends.push(end);
            assert(longer.drop_last() == ends);
            assert(longer.last() == end);
            assert forall|i: int| 0 <= i < game + 1 implies #[trigger] plays(
                bot,
                ceiling as int,
                longer[i],
            ) by {
                if i < game {
                    assert(longer[i] == ends[i]);
                }
            }
            ends = longer;
        }
        total = total + end.score as i64;
        game = game + 1;
    }
    Ok(Tally { games: n, total_score: total })
}

} // verus!
