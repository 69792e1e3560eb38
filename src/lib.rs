//! Rules engine for the "Lines" board game: a square grid of cells holding
//! balls of seven colours, moves of one ball along a path of empty cells, and
//! removal of runs of five or more balls of one colour, which score.
//!
//! - `common`: colours, cells, scores and errors;
//! - `location`: positions on the board, steps and walks along a direction;
//! - `board`: the board, placing and moving balls, removing lines and scoring;
//! - `zones`: the connected zones of empty cells, which decide whether a move
//!   can reach its destination;
//! - `text`: the text of a board, of a move and of a score;
//! - `checker`: the verdict on a player's move;
//! - `generator`: the decisions of the board generator between two moves.

pub mod board;
pub mod checker;
pub mod common;
pub mod generator;
pub mod location;
pub mod text;
pub mod zones;

pub use board::GameBoard;
pub use checker::{CheckerVerdict, PresentationReason, Submission, WrongAnswerReason};
pub use common::{BallColor, GameBoardCell, GameError, GameScore, GAME_BOARD_SIZE};
pub use location::{GameBoardLocation, GameBoardMove, GameBoardWalker};
pub use zones::{ConnectedZoneCell, ConnectedZoneId, GameBoardConnectedZones};
