//! Judging a player's answer: the verdict that follows from the board, the
//! score so far, the move that the player submitted and the score that had to
//! be reached.
use vstd::prelude::*;

use crate::board::{board_is_full, is_drop_result, line_drop_score, move_error, moved, GameBoard};
use crate::common::{GameError, GameScore};
use crate::location::GameBoardMove;

verus! {

/// What a player submitted as a move.
#[derive(Debug, Clone, Copy)]
pub enum Submission {
    /// The answer could not be read.
    Unreadable,
    /// The answer is not a move.
    Malformed(GameError),
    /// The answer is empty: no move.
    Empty,
    /// A well-formed move.
    Move(GameBoardMove),
}

/// Why an answer is refused for its form.
#[derive(Debug, Clone, Copy, PartialEq, Eq, Structural)]
pub enum PresentationReason {
    Unreadable,
    InvalidMove(GameError),
}

/// Why a well-formed answer is refused.
#[derive(Debug, Clone, Copy, PartialEq, Eq, Structural)]
pub enum WrongAnswerReason {
    /// No move was made while the board still had room.
    NoMove,
    /// The move breaks the rules.
    MoveRefused(GameError),
    /// The score reached falls short of the one expected.
    ScoreNotReached { expected: GameScore, reached: GameScore },
}

/// The verdict on a player's answer.
#[derive(Debug, Clone, Copy, PartialEq, Eq, Structural)]
pub enum CheckerVerdict {
    OK,
    WrongAnswer(WrongAnswerReason),
    PresentationError(PresentationReason),
}

/// The score after adding `delta` to `score`, held at the largest score.
pub open spec fn added_score(score: GameScore, delta: nat) -> nat {
    if score.spec_value() + delta <= u64::MAX {
        score.spec_value() + delta
    } else {
        u64::MAX as nat
    }
}

/// Plays the submitted move on `board`, unless the board is full, and returns
/// the new score, or the verdict where the submission already decides it.
pub fn play_submission(board: &mut GameBoard, score: GameScore, submission: &Submission) -> (r:
    Result<GameScore, CheckerVerdict>)
    requires
        old(board).wf(),
    ensures
        final(board).wf(),
        board_is_full(old(board)@) ==> r == Ok::<GameScore, CheckerVerdict>(score)
            && final(board)@ == old(board)@,
        !board_is_full(old(board)@) ==> match *submission {
            Submission::Unreadable => r == Err::<GameScore, CheckerVerdict>(
                CheckerVerdict::PresentationError(PresentationReason::Unreadable),
            ) && final(board)@ == old(board)@,
            Submission::Malformed(e) => r == Err::<GameScore, CheckerVerdict>(
                CheckerVerdict::PresentationError(PresentationReason::InvalidMove(e)),
            ) && final(board)@ == old(board)@,
            Submission::Empty => r == Err::<GameScore, CheckerVerdict>(
                CheckerVerdict::WrongAnswer(WrongAnswerReason::NoMove),
            ) && final(board)@ == old(board)@,
            Submission::Move(m) => {
                let b = old(board)@;
                let from = (m.from.x(), m.from.y());
                let to = (m.to.x(), m.to.y());
                match move_error(b, from, to) {
                    Some(e) => r == Err::<GameScore, CheckerVerdict>(
                        CheckerVerdict::WrongAnswer(WrongAnswerReason::MoveRefused(e)),
                    ) && final(board)@ == b,
                    None => {
                        &&& r is Ok
                        &&& r->Ok_0.spec_value() == added_score(
                            score,
                            line_drop_score(moved(b, from, to), to.0, to.1),
                        )
                        &&& is_drop_result(moved(b, from, to), to.0, to.1, final(board)@)
                    },
                }
            },
        },
{
    if board.is_full() {
        return Ok(score);
    }
    match submission {
        Submission::Unreadable => Err(CheckerVerdict::PresentationError(PresentationReason::Unreadable)),
        Submission::Malformed(e) => Err(
            CheckerVerdict::PresentationError(PresentationReason::InvalidMove(*e)),
        ),
        Submission::Empty => Err(CheckerVerdict::WrongAnswer(WrongAnswerReason::NoMove)),
        Submission::Move(m) => match board.move_ball(m) {
            Ok(delta) => Ok(score.saturating_add(delta)),
            Err(e) => Err(CheckerVerdict::WrongAnswer(WrongAnswerReason::MoveRefused(e))),
        },
    }
}

/// The verdict once the move is played: accepted when the score reached is at
/// least the one expected.
pub fn compare_score(reached: GameScore, expected: GameScore) -> (r: CheckerVerdict)
    ensures
        reached.spec_value() < expected.spec_value() ==> r == CheckerVerdict::WrongAnswer(
            WrongAnswerReason::ScoreNotReached { expected, reached },
        ),
        reached.spec_value() >= expected.spec_value() ==> r == CheckerVerdict::OK,
{
    if reached.value() < expected.value() {
        CheckerVerdict::WrongAnswer(WrongAnswerReason::ScoreNotReached { expected, reached })
    } else {
        CheckerVerdict::OK
    }
}

} // verus!
