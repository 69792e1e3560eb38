//! Positions on the board, stepping by a direction, and walks along a direction.
use vstd::prelude::*;

use crate::common::{GameError, GAME_BOARD_SIZE};

verus! {

/// Whether the offsets `(x, y)` lie on the board.
pub open spec fn in_board(x: int, y: int) -> bool {
    0 <= x < GAME_BOARD_SIZE as int && 0 <= y < GAME_BOARD_SIZE as int
}

/// The rook-adjacent positions of `(x, y)` that lie on the board, in the order
/// west, east, north, south.
pub open spec fn neighbour_coords(x: int, y: int) -> Seq<(int, int)> {
    on_board_only(x - 1, y) + on_board_only(x + 1, y) + on_board_only(x, y - 1) + on_board_only(
        x,
        y + 1,
    )
}

/// `(x, y)` alone where it lies on the board, nothing otherwise.
pub open spec fn on_board_only(x: int, y: int) -> Seq<(int, int)> {
    if in_board(x, y) {
        seq![(x, y)]
    } else {
        seq![]
    }
}

/// The offsets of each location of `s`.
pub open spec fn coords_of(s: Seq<GameBoardLocation>) -> Seq<(int, int)> {
    s.map_values(|l: GameBoardLocation| (l.x(), l.y()))
}

/// A position on the board, as zero-based column (`x`) and row (`y`) offsets.
#[derive(Debug, Clone, Copy, PartialEq, Eq, Structural)]
pub struct GameBoardLocation {
    x_offset: usize,
    y_offset: usize,
}

/// `v + d` where it lies in `[0, GAME_BOARD_SIZE)`.
fn shifted(v: usize, d: isize) -> (r: Option<usize>)
    requires
        v < GAME_BOARD_SIZE,
    ensures
        0 <= v + d < GAME_BOARD_SIZE ==> r == Some((v + d) as usize),
        !(0 <= v + d < GAME_BOARD_SIZE) ==> r is None,
{
    let n: isize = GAME_BOARD_SIZE as isize;
    if d >= n || d <= -n {
        None
    } else {
        let s: isize = v as isize + d;
        if 0 <= s && s < n {
            Some(s as usize)
        } else {
            None
        }
    }
}

impl GameBoardLocation {
    #[verifier::type_invariant]
    spec fn inv(self) -> bool {
        self.x_offset < GAME_BOARD_SIZE && self.y_offset < GAME_BOARD_SIZE
    }

    /// The column offset.
    pub closed spec fn x(self) -> int {
        self.x_offset as int
    }

    /// The row offset.
    pub closed spec fn y(self) -> int {
        self.y_offset as int
    }

    #[inline]
    pub fn from_offsets(x_offset: usize, y_offset: usize) -> (r: Result<
        GameBoardLocation,
        GameError,
    >)
        ensures
            in_board(x_offset as int, y_offset as int) ==> r is Ok && r->Ok_0.x() == x_offset
                && r->Ok_0.y() == y_offset,
            !in_board(x_offset as int, y_offset as int) ==> r == Err::<
                GameBoardLocation,
                GameError,
            >(GameError::OutOfRange),
    {
        if x_offset < GAME_BOARD_SIZE && y_offset < GAME_BOARD_SIZE {
            Ok(GameBoardLocation { x_offset, y_offset })
        } else {
            Err(GameError::OutOfRange)
        }
    }

    /// The location at one-based column `x` and row `y`.
    #[inline]
    pub fn from_coords(x: usize, y: usize) -> (r: Result<GameBoardLocation, GameError>)
        ensures
            in_board(x - 1, y - 1) ==> r is Ok && r->Ok_0.x() == x - 1 && r->Ok_0.y() == y - 1,
            !in_board(x - 1, y - 1) ==> r == Err::<GameBoardLocation, GameError>(
                GameError::OutOfRange,
            ),
    {
        if x > 0 && x <= GAME_BOARD_SIZE && y > 0 && y <= GAME_BOARD_SIZE {
            Self::from_offsets(x - 1, y - 1)
        } else {
            Err(GameError::OutOfRange)
        }
    }

    #[inline]
    pub fn zero() -> (r: GameBoardLocation)
        ensures
            r.x() == 0 && r.y() == 0,
    {
        GameBoardLocation { x_offset: 0, y_offset: 0 }
    }

    #[inline]
    pub fn x_offset(&self) -> (r: usize)
        ensures
            r == self.x(),
            r < GAME_BOARD_SIZE,
    {
        proof {
            use_type_invariant(self);
        }
        self.x_offset
    }

    #[inline]
    pub fn y_offset(&self) -> (r: usize)
        ensures
            r == self.y(),
            r < GAME_BOARD_SIZE,
    {
        proof {
            use_type_invariant(self);
        }
        self.y_offset
    }

    /// Moves the location by `(dx, dy)`. Where the result would leave the board,
    /// the location stays as it was and `OutOfRange` is returned.
    pub fn update(&mut self, dx: isize, dy: isize) -> (r: Result<(), GameError>)
        ensures
            in_board(old(self).x() + dx, old(self).y() + dy) ==> r is Ok && final(self).x()
                == old(self).x() + dx && final(self).y() == old(self).y() + dy,
            !in_board(old(self).x() + dx, old(self).y() + dy) ==> r == Err::<(), GameError>(
                GameError::OutOfRange,
            ) && *final(self) == *old(self),
    {
        proof {
            use_type_invariant(&*self);
        }
        match shifted(self.x_offset, dx) {
            None => Err(GameError::OutOfRange),
            Some(x_offset) => match shifted(self.y_offset, dy) {
                None => Err(GameError::OutOfRange),
                Some(y_offset) => {
                    *self = GameBoardLocation { x_offset, y_offset };
                    Ok(())
                },
            },
        }
    }

    /// A walk that starts at this location and steps by `(dx, dy)` until it
    /// would leave the board.
    pub fn walk(&self, dx: isize, dy: isize) -> (r: GameBoardWalker)
        ensures
            r.next_location() == Some(*self),
            r.dx() == dx,
            r.dy() == dy,
    {
        GameBoardWalker::new(*self, dx, dy)
    }

    /// Appends to `r` the location one step away by `(dx, dy)`, where it lies
    /// on the board.
    fn push_step(&self, r: &mut Vec<GameBoardLocation>, dx: isize, dy: isize)
        ensures
            coords_of(final(r)@) == coords_of(old(r)@) + on_board_only(
                self.x() + dx,
                self.y() + dy,
            ),
    {
        let mut walker = self.walk(dx, dy);
        let _ = walker.next();
        let next = walker.next();
        if let Some(location) = next {
            r.push(location);
            assert(coords_of(r@) =~= coords_of(old(r)@) + seq![(location.x(), location.y())]);
        } else {
            assert(coords_of(r@) =~= coords_of(old(r)@));
        }
    }

    /// The rook-adjacent locations that lie on the board: west, east, north,
    /// south, in this order.
    pub fn neighbours(&self) -> (r: Vec<GameBoardLocation>)
        ensures
            coords_of(r@) == neighbour_coords(self.x(), self.y()),
    {
        let mut r: Vec<GameBoardLocation> = Vec::new();
        assert(coords_of(r@) =~= Seq::<(int, int)>::empty());
        self.push_step(&mut r, -1, 0);
        self.push_step(&mut r, 1, 0);
        self.push_step(&mut r, 0, -1);
        self.push_step(&mut r, 0, 1);
        assert(coords_of(r@) =~= neighbour_coords(self.x(), self.y()));
        r
    }
}

/// A pair of locations: where a ball is taken from and where it goes.
#[derive(Debug, Clone, Copy)]
pub struct GameBoardMove {
    pub from: GameBoardLocation,
    pub to: GameBoardLocation,
}

/// A walk along a direction: each step yields the current location and then
/// moves by `(dx, dy)`; it ends once a step would leave the board.
#[derive(Debug, Clone, Copy)]
pub struct GameBoardWalker {
    next_location: Option<GameBoardLocation>,
    dx: isize,
    dy: isize,
}

impl GameBoardWalker {
    /// The location that the next step yields, if the walk has not ended.
    pub closed spec fn next_location(self) -> Option<GameBoardLocation> {
        self.next_location
    }

    pub closed spec fn dx(self) -> int {
        self.dx as int
    }

    pub closed spec fn dy(self) -> int {
        self.dy as int
    }

    fn new(start_location: GameBoardLocation, dx: isize, dy: isize) -> (r: GameBoardWalker)
        ensures
            r.next_location() == Some(start_location),
            r.dx() == dx,
            r.dy() == dy,
    {
        GameBoardWalker { next_location: Some(start_location), dx, dy }
    }

    /// Yields the current location of the walk and moves on by one step.
    pub fn next(&mut self) -> (r: Option<GameBoardLocation>)
        ensures
            r == old(self).next_location(),
            final(self).dx() == old(self).dx(),
            final(self).dy() == old(self).dy(),
            match old(self).next_location() {
                None => final(self).next_location() is None,
                Some(l) => if in_board(l.x() + old(self).dx(), l.y() + old(self).dy()) {
                    &&& final(self).next_location() is Some
                    &&& final(self).next_location()->Some_0.x() == l.x() + old(self).dx()
                    &&& final(self).next_location()->Some_0.y() == l.y() + old(self).dy()
                } else {
                    final(self).next_location() is None
                },
            },
    {
        let current_location = self.next_location;
        match current_location {
            None => None,
            Some(location) => {
                let mut stepped = location;
                match stepped.update(self.dx, self.dy) {
                    Ok(()) => {
                        self.next_location = Some(stepped);
                    },
                    Err(_) => {
                        self.next_location = None;
                    },
                }
                current_location
            },
        }
    }
}

} // verus!
