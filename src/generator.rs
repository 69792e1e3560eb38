//! The decisions of the board generator between two moves of a game: how
//! many balls it adds, how it replays the previous answer, and how one new
//! ball is placed. The random values are drawn by the caller.
use vstd::prelude::*;

use crate::board::{
    board_is_full, cell, idx, is_drop_result, line_drop_score, move_error, moved, GameBoard,
};
use crate::checker::{added_score, Submission};
use crate::common::{BallColor, GameScore};
use crate::location::GameBoardLocation;

verus! {

/// Number of balls that start a game.
pub const BALLS_AT_START: u32 = 5;

/// Number of balls added after each move.
pub const BALLS_PER_MOVE: u32 = 3;

/// The colour drawn as `index`, the colours being numbered in declaration
/// order.
pub open spec fn color_of_index(index: int) -> BallColor {
    if index == 0 {
        BallColor::Green
    } else if index == 1 {
        BallColor::Pink
    } else if index == 2 {
        BallColor::Red
    } else if index == 3 {
        BallColor::Maroon
    } else if index == 4 {
        BallColor::Cyan
    } else if index == 5 {
        BallColor::Blue
    } else {
        BallColor::Yellow
    }
}

/// The colour numbered `index`, for a number drawn below seven.
pub fn ball_color_from_index(index: u32) -> (r: BallColor)
    requires
        index < 7,
    ensures
        r == color_of_index(index as int),
{
    match index {
        0 => BallColor::Green,
        1 => BallColor::Pink,
        2 => BallColor::Red,
        3 => BallColor::Maroon,
        4 => BallColor::Cyan,
        5 => BallColor::Blue,
        _ => BallColor::Yellow,
    }
}

/// Whether iteration `game_iteration` starts a new game.
pub fn starts_game(game_iteration: u32, moves_per_game: u32) -> (r: bool)
    requires
        moves_per_game > 0,
    ensures
        r == (game_iteration % moves_per_game == 0),
{
    game_iteration % moves_per_game == 0
}

/// The number of balls to add at iteration `game_iteration`.
pub fn balls_for_iteration(game_iteration: u32, moves_per_game: u32) -> (r: u32)
    requires
        moves_per_game > 0,
    ensures
        game_iteration % moves_per_game == 0 ==> r == BALLS_AT_START,
        game_iteration % moves_per_game != 0 ==> r == BALLS_PER_MOVE,
{
    if starts_game(game_iteration, moves_per_game) {
        BALLS_AT_START
    } else {
        BALLS_PER_MOVE
    }
}

/// How the previous answer was replayed.
#[derive(Debug, Clone, Copy, PartialEq, Eq, Structural)]
pub struct Replay {
    /// The answer was a legal move, or there was no room for one.
    pub valid: bool,
    /// The move removed some line.
    pub scored: bool,
    /// The score after the move.
    pub score: GameScore,
}

/// Replays the previous answer on `board`. A move that removes a line adds
/// its score; an answer that is no move counts as valid only on a full board.
pub fn replay_answer(board: &mut GameBoard, score: GameScore, answer: &Submission) -> (r: Replay)
    requires
        old(board).wf(),
    ensures
        final(board).wf(),
        match *answer {
            Submission::Unreadable => r == Replay { valid: false, scored: false, score }
                && final(board)@ == old(board)@,
            Submission::Malformed(_) | Submission::Empty => r == Replay {
                valid: board_is_full(old(board)@),
                scored: false,
                score,
            } && final(board)@ == old(board)@,
            Submission::Move(m) => {
                let b = old(board)@;
                let from = (m.from.x(), m.from.y());
                let to = (m.to.x(), m.to.y());
                let delta = line_drop_score(moved(b, from, to), to.0, to.1);
                match move_error(b, from, to) {
                    Some(_) => r == Replay { valid: false, scored: false, score } && final(board)@
                        == b,
                    None => {
                        &&& r.valid
                        &&& r.scored == (delta > 0)
                        &&& r.score.spec_value() == added_score(score, delta)
                        &&& is_drop_result(moved(b, from, to), to.0, to.1, final(board)@)
                    },
                }
            },
        },
{
    match answer {
        Submission::Unreadable => Replay { valid: false, scored: false, score },
        Submission::Malformed(_) | Submission::Empty => Replay {
            valid: board.is_full(),
            scored: false,
            score,
        },
        Submission::Move(m) => match board.move_ball(m) {
            Ok(delta) => Replay {
                valid: true,
                scored: delta.value() > 0,
                score: score.saturating_add(delta),
            },
            Err(_) => Replay { valid: false, scored: false, score },
        },
    }
}

/// The state of seeding new balls: the score and the balls still to add.
#[derive(Debug, Clone, Copy, PartialEq, Eq, Structural)]
pub struct Seeding {
    pub score: GameScore,
    pub remaining: u32,
    /// No more balls are to be added.
    pub done: bool,
}

/// Tries to put a ball of `color` at the drawn `location`. On a free cell the
/// ball is placed, its score added and one ball fewer remains; on a taken one
/// nothing changes, and seeding ends once the board is full.
pub fn place_generated_ball(
    board: &mut GameBoard,
    state: Seeding,
    location: &GameBoardLocation,
    color: BallColor,
) -> (r: Seeding)
    requires
        old(board).wf(),
        state.remaining > 0,
    ensures
        final(board).wf(),
        ({
            let b = old(board)@;
            let (x, y) = (location.x(), location.y());
            let placed = b.update(idx(x, y), Some(color));
            if cell(b, x, y) is None {
                &&& r.score.spec_value() == added_score(state.score, line_drop_score(placed, x, y))
                &&& r.remaining == state.remaining - 1
                &&& r.done == (r.remaining == 0)
                &&& is_drop_result(placed, x, y, final(board)@)
            } else {
                &&& r == Seeding { score: state.score, remaining: state.remaining, done: board_is_full(b) }
                &&& final(board)@ == b
            }
        }),
{
    match board.add_ball(location, color) {
        Ok(delta) => {
            let remaining = state.remaining - 1;
            Seeding { score: state.score.saturating_add(delta), remaining, done: remaining == 0 }
        },
        Err(_) => Seeding { score: state.score, remaining: state.remaining, done: board.is_full() },
    }
}

} // verus!
