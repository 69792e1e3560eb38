//! Colours, cells, scores and errors shared by the engine.
use vstd::prelude::*;

verus! {

/// Side length of the square game board.
pub const GAME_BOARD_SIZE: usize = 9;

/// The colour of a ball.
#[derive(Debug, Clone, Copy, PartialEq, Eq, Structural)]
pub enum BallColor {
    Green,
    Pink,
    Red,
    Maroon,
    Cyan,
    Blue,
    Yellow,
}

/// The one-character code of a colour in the board text.
pub open spec fn color_code(c: BallColor) -> char {
    match c {
        BallColor::Green => 'G',
        BallColor::Pink => 'P',
        BallColor::Red => 'R',
        BallColor::Maroon => 'M',
        BallColor::Cyan => 'C',
        BallColor::Blue => 'B',
        BallColor::Yellow => 'Y',
    }
}

/// The colour whose code is `c`, if any.
pub open spec fn color_of_code(c: char) -> Option<BallColor> {
    if c == 'G' {
        Some(BallColor::Green)
    } else if c == 'P' {
        Some(BallColor::Pink)
    } else if c == 'R' {
        Some(BallColor::Red)
    } else if c == 'M' {
        Some(BallColor::Maroon)
    } else if c == 'C' {
        Some(BallColor::Cyan)
    } else if c == 'B' {
        Some(BallColor::Blue)
    } else if c == 'Y' {
        Some(BallColor::Yellow)
    } else {
        None
    }
}

/// The character that stands for a cell in the board text: `_` when empty.
pub open spec fn cell_code(cell: Option<BallColor>) -> char {
    match cell {
        Some(c) => color_code(c),
        None => '_',
    }
}

/// The cell content that the character `c` stands for, if it is a cell code.
pub open spec fn cell_of_code(c: char) -> Option<Option<BallColor>> {
    if c == '_' {
        Some(None)
    } else {
        match color_of_code(c) {
            Some(color) => Some(Some(color)),
            None => None,
        }
    }
}

/// Every cell code reads back as its cell.
pub proof fn lemma_cell_code_round_trip(cell: Option<BallColor>)
    ensures
        cell_of_code(cell_code(cell)) == Some(cell),
{
}

impl BallColor {
    pub fn to_char(&self) -> (r: char)
        ensures
            r == color_code(*self),
    {
        match *self {
            BallColor::Green => 'G',
            BallColor::Pink => 'P',
            BallColor::Red => 'R',
            BallColor::Maroon => 'M',
            BallColor::Cyan => 'C',
            BallColor::Blue => 'B',
            BallColor::Yellow => 'Y',
        }
    }

    pub fn from_char(c: char) -> (r: Result<BallColor, GameError>)
        ensures
            match color_of_code(c) {
                Some(color) => r == Ok::<BallColor, GameError>(color),
                None => r == Err::<BallColor, GameError>(GameError::InvalidColorCode),
            },
    {
        match c {
            'G' => Ok(BallColor::Green),
            'P' => Ok(BallColor::Pink),
            'R' => Ok(BallColor::Red),
            'M' => Ok(BallColor::Maroon),
            'C' => Ok(BallColor::Cyan),
            'B' => Ok(BallColor::Blue),
            'Y' => Ok(BallColor::Yellow),
            _ => Err(GameError::InvalidColorCode),
        }
    }
}

/// Why an operation of the engine was refused.
#[derive(Debug, Clone, Copy, PartialEq, Eq, Structural)]
pub enum GameError {
    /// A coordinate or an offset lies outside the board.
    OutOfRange,
    /// A character is neither a colour code nor `_`.
    InvalidColorCode,
    /// Text does not have the expected shape.
    MalformedInput,
    /// The target cell already holds a ball.
    CellOccupied,
    /// The source cell of a move holds no ball.
    EmptySource,
    /// No path of empty cells leads from the source to the destination.
    Unreachable,
}

/// A score, or the change of a score that one action brings.
#[derive(Debug, Clone, Copy, PartialEq, Eq, Structural, PartialOrd, Ord)]
pub struct GameScore(u64);

impl GameScore {
    pub closed spec fn spec_value(self) -> nat {
        self.0 as nat
    }

    /// A score fits in 64 bits.
    pub proof fn lemma_value_bound(self)
        ensures
            self.spec_value() <= u64::MAX,
    {
    }

    pub fn new(value: u64) -> (r: GameScore)
        ensures
            r.spec_value() == value,
    {
        GameScore(value)
    }

    pub fn value(&self) -> (r: u64)
        ensures
            r == self.spec_value(),
    {
        self.0
    }

    /// The sum of two scores, or `None` where it does not fit in 64 bits.
    pub fn checked_add(&self, other: GameScore) -> (r: Option<GameScore>)
        ensures
            self.spec_value() + other.spec_value() <= u64::MAX ==> r is Some
                && r->Some_0.spec_value() == self.spec_value() + other.spec_value(),
            self.spec_value() + other.spec_value() > u64::MAX ==> r is None,
    {
        match self.0.checked_add(other.0) {
            Some(v) => Some(GameScore(v)),
            None => None,
        }
    }
}

impl GameScore {
    /// The sum of two scores, or the largest score where it does not fit.
    pub fn saturating_add(&self, other: GameScore) -> (r: GameScore)
        ensures
            self.spec_value() + other.spec_value() <= u64::MAX ==> r.spec_value()
                == self.spec_value() + other.spec_value(),
            self.spec_value() + other.spec_value() > u64::MAX ==> r.spec_value() == u64::MAX,
    {
        match self.0.checked_add(other.0) {
            Some(v) => GameScore(v),
            None => GameScore(u64::MAX),
        }
    }
}

/// One cell of the board: empty, or holding a ball of some colour.
#[derive(Debug, Clone, Copy)]
pub struct GameBoardCell(pub Option<BallColor>);

impl GameBoardCell {
    pub fn from_char(c: char) -> (r: Result<GameBoardCell, GameError>)
        ensures
            match cell_of_code(c) {
                Some(cell) => r is Ok && r->Ok_0.0 == cell,
                None => r == Err::<GameBoardCell, GameError>(GameError::InvalidColorCode),
            },
    {
        if c == '_' {
            Ok(GameBoardCell(None))
        } else {
            match BallColor::from_char(c) {
                Ok(color) => Ok(GameBoardCell(Some(color))),
                Err(e) => Err(e),
            }
        }
    }

    pub fn is_empty(&self) -> (r: bool)
        ensures
            r == (self.0 is None),
    {
        self.0.is_none()
    }

    pub fn to_char(&self) -> (r: char)
        ensures
            r == cell_code(self.0),
    {
        match self.0 {
            Some(color) => color.to_char(),
            None => '_',
        }
    }
}

/// Whether two cell contents are equal.
pub fn same_cell(a: Option<BallColor>, b: Option<BallColor>) -> (r: bool)
    ensures
        r == (a == b),
{
    match (a, b) {
        (Some(x), Some(y)) => x == y,
        (None, None) => true,
        _ => false,
    }
}

impl PartialEq for GameBoardCell {
    fn eq(&self, other: &GameBoardCell) -> (r: bool) {
        same_cell(self.0, other.0)
    }
}

impl vstd::std_specs::cmp::PartialEqSpecImpl for GameBoardCell {
    open spec fn obeys_eq_spec() -> bool {
        true
    }

    open spec fn eq_spec(&self, other: &GameBoardCell) -> bool {
        self.0 == other.0
    }
}

} // verus!
