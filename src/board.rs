//! The board: its cells, placing and moving balls, and removing lines.
use vstd::prelude::*;

use vstd::arithmetic::power2::{lemma2_to64, lemma_pow2_strictly_increases, lemma_pow2_unfold, pow2};

use crate::common::{same_cell, BallColor, GameBoardCell, GameError, GameScore, GAME_BOARD_SIZE};
use crate::location::{
    coords_of, in_board, neighbour_coords, on_board_only, GameBoardLocation, GameBoardMove,
};
use crate::zones::{
    adjacent, connected, is_free, lemma_connected_ends_free, lemma_neighbour_entry_adjacent,
    lemma_neighbour_positions, same_zone, GameBoardConnectedZones,
};

verus! {

/// The contents of a sequence of cells.
pub open spec fn cells_view(cells: Seq<GameBoardCell>) -> Seq<Option<BallColor>> {
    cells.map_values(|c: GameBoardCell| c.0)
}

/// Number of cells on the board.
pub open spec fn board_cells() -> int {
    GAME_BOARD_SIZE as int * GAME_BOARD_SIZE as int
}

/// Position of the cell at offsets `(x, y)` in the row-major sequence of cells.
pub open spec fn idx(x: int, y: int) -> int {
    y * GAME_BOARD_SIZE as int + x
}

/// The content of the cell at offsets `(x, y)`.
pub open spec fn cell(b: Seq<Option<BallColor>>, x: int, y: int) -> Option<BallColor> {
    b[idx(x, y)]
}

/// No cell holds a ball.
pub open spec fn board_is_empty(b: Seq<Option<BallColor>>) -> bool {
    forall|i: int| 0 <= i < b.len() ==> (#[trigger] b[i]) is None
}

/// Every cell holds a ball.
pub open spec fn board_is_full(b: Seq<Option<BallColor>>) -> bool {
    forall|i: int| 0 <= i < b.len() ==> (#[trigger] b[i]) is Some
}

/// A board is never both empty and full: it has at least one cell.
pub proof fn lemma_not_empty_and_full(b: Seq<Option<BallColor>>)
    requires
        b.len() == board_cells(),
    ensures
        !(board_is_empty(b) && board_is_full(b)),
{
    assert(b[0] is None || b[0] is Some);
}

/// How many further steps along `d` stay on the board from `v`, plus one.
pub open spec fn axis_left(v: int, d: int) -> int {
    if d > 0 {
        GAME_BOARD_SIZE as int - v
    } else if d < 0 {
        v + 1
    } else {
        0
    }
}

/// The number of consecutive cells holding `c`, counted from the cell one step
/// away from `(x, y)` along `(dx, dy)`, up to the first other cell or the edge.
pub open spec fn run_length(
    b: Seq<Option<BallColor>>,
    x: int,
    y: int,
    dx: int,
    dy: int,
    c: Option<BallColor>,
) -> nat
    decreases axis_left(x, dx) + axis_left(y, dy),
{
    if dx == 0 && dy == 0 {
        0
    } else if in_board(x + dx, y + dy) && cell(b, x + dx, y + dy) == c {
        1 + run_length(b, x + dx, y + dy, dx, dy, c)
    } else {
        0
    }
}

/// The column step of the `k`-th line direction: horizontal, vertical, main
/// diagonal, anti-diagonal.
pub open spec fn dir_dx(k: int) -> int {
    if k == 1 {
        0
    } else {
        1
    }
}

/// The row step of the `k`-th line direction.
pub open spec fn dir_dy(k: int) -> int {
    if k == 0 {
        0
    } else if k == 3 {
        -1
    } else {
        1
    }
}

/// Balls of the colour at `(x, y)` that continue the line backwards along
/// direction `k`.
pub open spec fn west_count(b: Seq<Option<BallColor>>, x: int, y: int, k: int) -> nat {
    run_length(b, x, y, -dir_dx(k), -dir_dy(k), cell(b, x, y))
}

/// Balls of the colour at `(x, y)` that continue the line forwards along
/// direction `k`.
pub open spec fn east_count(b: Seq<Option<BallColor>>, x: int, y: int, k: int) -> nat {
    run_length(b, x, y, dir_dx(k), dir_dy(k), cell(b, x, y))
}

/// The length of the line through `(x, y)` along direction `k`.
pub open spec fn line_size(b: Seq<Option<BallColor>>, x: int, y: int, k: int) -> nat {
    west_count(b, x, y, k) + east_count(b, x, y, k) + 1
}

/// The balls that direction `k` removes: the whole line where it has five or more.
pub open spec fn dropped_in(b: Seq<Option<BallColor>>, x: int, y: int, k: int) -> nat {
    if line_size(b, x, y, k) >= 5 {
        line_size(b, x, y, k)
    } else {
        0
    }
}

/// The balls removed over all four directions; a cell in two removed lines
/// counts twice.
pub open spec fn dropped_total(b: Seq<Option<BallColor>>, x: int, y: int) -> nat {
    dropped_in(b, x, y, 0) + dropped_in(b, x, y, 1) + dropped_in(b, x, y, 2) + dropped_in(
        b,
        x,
        y,
        3,
    )
}

/// The balls removed by the first `k` directions.
pub open spec fn dropped_upto(b: Seq<Option<BallColor>>, x: int, y: int, k: int) -> nat
    decreases k,
{
    if k <= 0 {
        0
    } else {
        dropped_upto(b, x, y, k - 1) + dropped_in(b, x, y, k - 1)
    }
}

/// The score for removing `d` balls at once.
pub open spec fn drop_score(d: nat) -> nat {
    if d < 5 {
        0
    } else {
        pow2((d - 4) as nat) + 8
    }
}

/// The score that filling `(x, y)` brings on board `b`.
pub open spec fn line_drop_score(b: Seq<Option<BallColor>>, x: int, y: int) -> nat {
    if cell(b, x, y) is None {
        0
    } else {
        drop_score(dropped_total(b, x, y))
    }
}

/// The coordinate `j` steps of `d` away from `v`.
pub open spec fn along(v: int, j: int, d: int) -> int {
    v + j * d
}

/// `(px, py)` is one of the first `n` steps from `(x, y)` along `(dx, dy)`.
pub open spec fn on_ray(x: int, y: int, dx: int, dy: int, n: int, px: int, py: int) -> bool {
    exists|j: int| 1 <= j <= n && px == #[trigger] along(x, j, dx) && py == along(y, j, dy)
}

/// Direction `k` removes the cell `(px, py)` when `(x, y)` was filled.
pub open spec fn cleared_by(
    b: Seq<Option<BallColor>>,
    x: int,
    y: int,
    k: int,
    px: int,
    py: int,
) -> bool {
    &&& line_size(b, x, y, k) >= 5
    &&& {
        ||| px == x && py == y
        ||| on_ray(x, y, -dir_dx(k), -dir_dy(k), west_count(b, x, y, k) as int, px, py)
        ||| on_ray(x, y, dir_dx(k), dir_dy(k), east_count(b, x, y, k) as int, px, py)
    }
}

/// Some direction removes the cell `(px, py)` when `(x, y)` was filled.
pub open spec fn cleared(b: Seq<Option<BallColor>>, x: int, y: int, px: int, py: int) -> bool {
    &&& cell(b, x, y) is Some
    &&& exists|k: int| 0 <= k < 4 && #[trigger] cleared_by(b, x, y, k, px, py)
}

/// `nb` is board `b` once the lines through the filled cell `(x, y)` are removed.
pub open spec fn is_drop_result(
    b: Seq<Option<BallColor>>,
    x: int,
    y: int,
    nb: Seq<Option<BallColor>>,
) -> bool {
    &&& nb.len() == board_cells()
    &&& forall|px: int, py: int|
        in_board(px, py) ==> #[trigger] cell(nb, px, py) == if cleared(b, x, y, px, py) {
            None
        } else {
            cell(b, px, py)
        }
}

/// A run continues through a next cell that holds the same content.
proof fn lemma_run_step(
    b: Seq<Option<BallColor>>,
    x: int,
    y: int,
    dx: int,
    dy: int,
    c: Option<BallColor>,
)
    requires
        dx != 0 || dy != 0,
    ensures
        in_board(x + dx, y + dy) && cell(b, x + dx, y + dy) == c ==> run_length(b, x, y, dx, dy, c)
            == 1 + run_length(b, x + dx, y + dy, dx, dy, c),
        !(in_board(x + dx, y + dy) && cell(b, x + dx, y + dy) == c) ==> run_length(
            b,
            x,
            y,
            dx,
            dy,
            c,
        ) == 0,
{
}

/// A ball at `from` can roll to `to`: some rook-neighbour of `from` is joined
/// to `to` by a path of empty cells.
pub open spec fn reachable(b: Seq<Option<BallColor>>, from: (int, int), to: (int, int)) -> bool {
    exists|nx: int, ny: int| adjacent(from, (nx, ny)) && #[trigger] connected(b, (nx, ny), to)
}

/// Why the ball at `from` cannot be moved to `to`, if it can't: no ball there,
/// a ball already at `to`, or no way there.
pub open spec fn move_error(b: Seq<Option<BallColor>>, from: (int, int), to: (int, int)) -> Option<
    GameError,
> {
    if cell(b, from.0, from.1) is None {
        Some(GameError::EmptySource)
    } else if cell(b, to.0, to.1) is Some {
        Some(GameError::CellOccupied)
    } else if !reachable(b, from, to) {
        Some(GameError::Unreachable)
    } else {
        None
    }
}

/// Board `b` with the ball at `from` taken to `to`.
pub open spec fn moved(b: Seq<Option<BallColor>>, from: (int, int), to: (int, int)) -> Seq<
    Option<BallColor>,
> {
    b.update(idx(from.0, from.1), None).update(idx(to.0, to.1), cell(b, from.0, from.1))
}

/// How far a run may go from `v` along `d` before it leaves the board.
pub open spec fn room(v: int, d: int) -> int {
    if d > 0 {
        GAME_BOARD_SIZE as int - 1 - v
    } else {
        v
    }
}

/// A run never reaches past the edge of the board.
pub proof fn lemma_run_room(
    b: Seq<Option<BallColor>>,
    x: int,
    y: int,
    dx: int,
    dy: int,
    c: Option<BallColor>,
)
    requires
        in_board(x, y),
        -1 <= dx <= 1,
        -1 <= dy <= 1,
    ensures
        dx != 0 ==> run_length(b, x, y, dx, dy, c) <= room(x, dx),
        dy != 0 ==> run_length(b, x, y, dx, dy, c) <= room(y, dy),
    decreases axis_left(x, dx) + axis_left(y, dy),
{
    if dx == 0 && dy == 0 {
    } else if in_board(x + dx, y + dy) && cell(b, x + dx, y + dy) == c {
        lemma_run_room(b, x + dx, y + dy, dx, dy, c);
    }
}

/// A line has at most as many balls as the board is wide.
pub proof fn lemma_line_size_bound(b: Seq<Option<BallColor>>, x: int, y: int, k: int)
    requires
        in_board(x, y),
        0 <= k < 4,
    ensures
        line_size(b, x, y, k) <= GAME_BOARD_SIZE,
{
    let c = cell(b, x, y);
    lemma_run_room(b, x, y, -dir_dx(k), -dir_dy(k), c);
    lemma_run_room(b, x, y, dir_dx(k), dir_dy(k), c);
}

/// One step more along a ray adds exactly the cell reached by that step.
proof fn lemma_on_ray_step(x: int, y: int, dx: int, dy: int, n: int, px: int, py: int)
    requires
        n >= 0,
    ensures
        on_ray(x, y, dx, dy, n + 1, px, py) <==> (on_ray(x, y, dx, dy, n, px, py) || (px == x
            + (n + 1) * dx && py == y + (n + 1) * dy)),
{
    if on_ray(x, y, dx, dy, n + 1, px, py) {
        let j = choose|j: int| 1 <= j <= n + 1 && px == along(x, j, dx) && py == along(y, j, dy);
        if j <= n {
            assert(1 <= j <= n && px == along(x, j, dx) && py == along(y, j, dy));
        }
    }
    if on_ray(x, y, dx, dy, n, px, py) {
        let j = choose|j: int| 1 <= j <= n && px == along(x, j, dx) && py == along(y, j, dy);
        assert(1 <= j <= n + 1 && px == along(x, j, dx) && py == along(y, j, dy));
    }
    if px == x + (n + 1) * dx && py == y + (n + 1) * dy {
        assert(1 <= n + 1 <= n + 1 && px == along(x, n + 1, dx) && py == along(y, n + 1, dy));
    }
}

/// The steps `(dx, dy)` of the `k`-th line direction.
fn direction(k: usize) -> (r: (isize, isize))
    requires
        k < 4,
    ensures
        r.0 == dir_dx(k as int),
        r.1 == dir_dy(k as int),
{
    if k == 0 {
        (1, 0)
    } else if k == 1 {
        (0, 1)
    } else if k == 2 {
        (1, 1)
    } else {
        (1, -1)
    }
}

/// `2^k`, for `k` up to 32.
fn pow2_u64(k: u64) -> (r: u64)
    requires
        k <= 32,
    ensures
        r == pow2(k as nat),
{
    proof {
        lemma2_to64();
    }
    let mut r: u64 = 1;
    let mut i: u64 = 0;
    while i < k
        invariant
            i <= k <= 32,
            r == pow2(i as nat),
            pow2(32) == 0x1_0000_0000,
        decreases k - i,
    {
        proof {
            lemma_pow2_unfold((i + 1) as nat);
            if i + 1 < 32 {
                lemma_pow2_strictly_increases((i + 1) as nat, 32);
            }
        }
        r = r * 2;
        i = i + 1;
    }
    r
}

/// The game board: a square grid of cells, each empty or holding one ball.
#[derive(Debug)]
pub struct GameBoard {
    cells: Vec<GameBoardCell>,
}

impl View for GameBoard {
    type V = Seq<Option<BallColor>>;

    /// The cells in row-major order.
    closed spec fn view(&self) -> Seq<Option<BallColor>> {
        cells_view(self.cells@)
    }
}

impl GameBoard {
    /// The board holds one cell for each position.
    pub open spec fn wf(&self) -> bool {
        self@.len() == board_cells()
    }

    /// The board with the given cells, in row-major order.
    pub(crate) fn from_cells(cells: Vec<GameBoardCell>) -> (r: GameBoard)
        requires
            cells@.len() == board_cells(),
        ensures
            r.wf(),
            r@ == cells_view(cells@),
    {
        GameBoard { cells }
    }

    pub(crate) fn get(&self, x: usize, y: usize) -> (r: Option<BallColor>)
        requires
            self.wf(),
            x < GAME_BOARD_SIZE,
            y < GAME_BOARD_SIZE,
        ensures
            r == cell(self@, x as int, y as int),
    {
        self.cells[y * GAME_BOARD_SIZE + x].0
    }

    fn set(&mut self, x: usize, y: usize, v: Option<BallColor>)
        requires
            old(self).wf(),
            x < GAME_BOARD_SIZE,
            y < GAME_BOARD_SIZE,
        ensures
            final(self).wf(),
            final(self)@ == old(self)@.update(idx(x as int, y as int), v),
    {
        self.cells.set(y * GAME_BOARD_SIZE + x, GameBoardCell(v));
        assert(self@ =~= old(self)@.update(idx(x as int, y as int), v));
    }

    /// The cell at `location`.
    pub fn at(&self, location: &GameBoardLocation) -> (r: &GameBoardCell)
        requires
            self.wf(),
        ensures
            r.0 == cell(self@, location.x(), location.y()),
    {
        &self.cells[location.y_offset() * GAME_BOARD_SIZE + location.x_offset()]
    }

    /// Counts the balls equal to `c` that follow `start` along `(dx, dy)`.
    fn count_run(&self, start: &GameBoardLocation, dx: isize, dy: isize, c: Option<BallColor>) -> (n: usize)
        requires
            self.wf(),
            -1 <= dx <= 1,
            -1 <= dy <= 1,
            dx != 0 || dy != 0,
        ensures
            n == run_length(self@, start.x(), start.y(), dx as int, dy as int, c),
    {
        let ghost b = self@;
        let ghost total = run_length(b, start.x(), start.y(), dx as int, dy as int, c);
        // The start lies on the board, which bounds the run.
        let _ = start.x_offset();
        let _ = start.y_offset();
        proof {
            lemma_run_room(b, start.x(), start.y(), dx as int, dy as int, c);
        }
        let mut cur = *start;
        let mut n: usize = 0;
        loop
            invariant
                self.wf(),
                self@ == b,
                -1 <= dx <= 1,
                -1 <= dy <= 1,
                dx != 0 || dy != 0,
                total == n + run_length(b, cur.x(), cur.y(), dx as int, dy as int, c),
                total <= GAME_BOARD_SIZE,
            ensures
                n == total,
            decreases run_length(b, cur.x(), cur.y(), dx as int, dy as int, c),
        {
            let mut next = cur;
            proof {
                lemma_run_step(b, cur.x(), cur.y(), dx as int, dy as int, c);
            }
            match next.update(dx, dy) {
                Err(_) => {
                    break;
                },
                Ok(()) => {},
            }
            let content = self.get(next.x_offset(), next.y_offset());
            if !same_cell(content, c) {
                break;
            }
            cur = next;
            n = n + 1;
        }
        n
    }

    /// Empties the first `n` cells that follow `start` along `(dx, dy)`; they
    /// all lie on the board, being part of a run on board `b`.
    fn clear_ray(
        &mut self,
        start: &GameBoardLocation,
        dx: isize,
        dy: isize,
        n: usize,
        Ghost(b): Ghost<Seq<Option<BallColor>>>,
        Ghost(c): Ghost<Option<BallColor>>,
    )
        requires
            old(self).wf(),
            -1 <= dx <= 1,
            -1 <= dy <= 1,
            dx != 0 || dy != 0,
            n <= run_length(b, start.x(), start.y(), dx as int, dy as int, c),
        ensures
            final(self).wf(),
            forall|px: int, py: int|
                in_board(px, py) ==> #[trigger] cell(final(self)@, px, py) == if on_ray(
                    start.x(),
                    start.y(),
                    dx as int,
                    dy as int,
                    n as int,
                    px,
                    py,
                ) {
                    None
                } else {
                    cell(old(self)@, px, py)
                },
    {
        let ghost b0 = self@;
        let ghost sx = start.x();
        let ghost sy = start.y();
        let ghost total = run_length(b, sx, sy, dx as int, dy as int, c);
        let mut cur = *start;
        let mut j: usize = 0;
        while j < n
            invariant
                self.wf(),
                -1 <= dx <= 1,
                -1 <= dy <= 1,
                dx != 0 || dy != 0,
                j <= n,
                n <= total,
                total == j + run_length(b, cur.x(), cur.y(), dx as int, dy as int, c),
                cur.x() == sx + j * dx,
                cur.y() == sy + j * dy,
                b0.len() == board_cells(),
                forall|px: int, py: int|
                    in_board(px, py) ==> #[trigger] cell(self@, px, py) == if on_ray(
                        sx,
                        sy,
                        dx as int,
                        dy as int,
                        j as int,
                        px,
                        py,
                    ) {
                        None
                    } else {
                        cell(b0, px, py)
                    },
            decreases n - j,
        {
            let r = cur.update(dx, dy);
            assert(r is Ok);
            let x = cur.x_offset();
            let y = cur.y_offset();
            proof {
                assert(sx + (j + 1) * dx == sx + j * dx + dx) by (nonlinear_arith);
                assert(sy + (j + 1) * dy == sy + j * dy + dy) by (nonlinear_arith);
            }
            let ghost before = self@;
            self.set(x, y, None);
            proof {
                assert forall|px: int, py: int| in_board(px, py) implies #[trigger] cell(
                    self@,
                    px,
                    py,
                ) == if on_ray(sx, sy, dx as int, dy as int, j + 1, px, py) {
                    None
                } else {
                    cell(b0, px, py)
                } by {
                    lemma_on_ray_step(sx, sy, dx as int, dy as int, j as int, px, py);
                    assert(cell(before, px, py) == if on_ray(
                        sx,
                        sy,
                        dx as int,
                        dy as int,
                        j as int,
                        px,
                        py,
                    ) {
                        None
                    } else {
                        cell(b0, px, py)
                    });
                    if px != x || py != y {
                        assert(idx(px, py) != idx(x as int, y as int));
                    }
                }
            }
            j = j + 1;
        }
    }

    /// Removes every line of five or more balls through the ball at `location`
    /// and returns the score for it. All four directions are measured on the
    /// board as it was before any cell is emptied.
    fn drop_lines_if_any(&mut self, location: &GameBoardLocation) -> (r: GameScore)
        requires
            old(self).wf(),
        ensures
            final(self).wf(),
            r.spec_value() == line_drop_score(old(self)@, location.x(), location.y()),
            is_drop_result(old(self)@, location.x(), location.y(), final(self)@),
    {
        let ghost b = self@;
        let x = location.x_offset();
        let y = location.y_offset();
        let current = self.get(x, y);
        if current.is_none() {
            return GameScore::new(0);
        }
        let mut wests: Vec<usize> = Vec::new();
        let mut easts: Vec<usize> = Vec::new();
        let mut k: usize = 0;
        while k < 4
            invariant
                self.wf(),
                self@ == b,
                x == location.x(),
                y == location.y(),
                current == cell(b, x as int, y as int),
                k <= 4,
                wests@.len() == k,
                easts@.len() == k,
                forall|j: int|
                    0 <= j < k ==> wests@[j] == west_count(b, x as int, y as int, j) && easts@[j]
                        == east_count(b, x as int, y as int, j),
            decreases 4 - k,
        {
            let (dx, dy) = direction(k);
            let w = self.count_run(location, -dx, -dy, current);
            let e = self.count_run(location, dx, dy, current);
            wests.push(w);
            easts.push(e);
            k = k + 1;
        }
        let mut dropped: u64 = 0;
        k = 0;
        while k < 4
            invariant
                self.wf(),
                b.len() == board_cells(),
                x == location.x(),
                y == location.y(),
                x < GAME_BOARD_SIZE,
                y < GAME_BOARD_SIZE,
                current == cell(b, x as int, y as int),
                k <= 4,
                wests@.len() == 4,
                easts@.len() == 4,
                forall|j: int|
                    0 <= j < 4 ==> wests@[j] == west_count(b, x as int, y as int, j) && easts@[j]
                        == east_count(b, x as int, y as int, j),
                dropped == dropped_upto(b, x as int, y as int, k as int),
                dropped <= 9 * k,
                forall|px: int, py: int|
                    in_board(px, py) ==> #[trigger] cell(self@, px, py) == if exists|j: int|
                        0 <= j < k && #[trigger] cleared_by(b, x as int, y as int, j, px, py) {
                        None
                    } else {
                        cell(b, px, py)
                    },
            decreases 4 - k,
        {
            let (dx, dy) = direction(k);
            proof {
                lemma_line_size_bound(b, x as int, y as int, k as int);
            }
            let size = wests[k] + easts[k] + 1;
            let ghost before = self@;
            if size >= 5 {
                dropped = dropped + size as u64;
                self.clear_ray(location, -dx, -dy, wests[k], Ghost(b), Ghost(current));
                let ghost mid = self@;
                self.clear_ray(location, dx, dy, easts[k], Ghost(b), Ghost(current));
                let ghost mid2 = self@;
                self.set(x, y, None);
                proof {
                    assert forall|px: int, py: int| in_board(px, py) implies #[trigger] cell(
                        self@,
                        px,
                        py,
                    ) == if exists|j: int|
                        0 <= j < k + 1 && #[trigger] cleared_by(b, x as int, y as int, j, px, py) {
                        None
                    } else {
                        cell(b, px, py)
                    } by {
                        assert(cell(mid, px, py) == if on_ray(
                            x as int,
                            y as int,
                            -dx as int,
                            -dy as int,
                            wests@[k as int] as int,
                            px,
                            py,
                        ) {
                            None
                        } else {
                            cell(before, px, py)
                        });
                        assert(cell(mid2, px, py) == if on_ray(
                            x as int,
                            y as int,
                            dx as int,
                            dy as int,
                            easts@[k as int] as int,
                            px,
                            py,
                        ) {
                            None
                        } else {
                            cell(mid, px, py)
                        });
                        if px != x || py != y {
                            assert(idx(px, py) != idx(x as int, y as int));
                        }
                        if cleared_by(b, x as int, y as int, k as int, px, py) {
                            assert(0 <= k < k + 1);
                        }
                        if exists|j: int|
                            0 <= j < k + 1 && #[trigger] cleared_by(
                                b,
                                x as int,
                                y as int,
                                j,
                                px,
                                py,
                            ) {
                            let j = choose|j: int|
                                0 <= j < k + 1 && #[trigger] cleared_by(
                                    b,
                                    x as int,
                                    y as int,
                                    j,
                                    px,
                                    py,
                                );
                            if j < k {
                                assert(cell(before, px, py) is None);
                            }
                        }
                    }
                }
            } else {
                proof {
                    assert forall|px: int, py: int| in_board(px, py) implies #[trigger] cell(
                        self@,
                        px,
                        py,
                    ) == if exists|j: int|
                        0 <= j < k + 1 && #[trigger] cleared_by(b, x as int, y as int, j, px, py) {
                        None
                    } else {
                        cell(b, px, py)
                    } by {
                        if exists|j: int|
                            0 <= j < k + 1 && #[trigger] cleared_by(
                                b,
                                x as int,
                                y as int,
                                j,
                                px,
                                py,
                            ) {
                            let j = choose|j: int|
                                0 <= j < k + 1 && #[trigger] cleared_by(
                                    b,
                                    x as int,
                                    y as int,
                                    j,
                                    px,
                                    py,
                                );
                            assert(j < k);
                        }
                    }
                }
            }
            k = k + 1;
        }
        proof {
            reveal_with_fuel(dropped_upto, 5);
        }
        if dropped < 5 {
            GameScore::new(0)
        } else {
            let p = pow2_u64(dropped - 4);
            proof {
                lemma2_to64();
                if dropped - 4 < 32 {
                    lemma_pow2_strictly_increases((dropped - 4) as nat, 32);
                }
            }
            GameScore::new(p + 8)
        }
    }

    /// Whether no cell holds a ball.
    pub fn is_empty(&self) -> (r: bool)
        requires
            self.wf(),
        ensures
            r == board_is_empty(self@),
    {
        let mut i: usize = 0;
        while i < self.cells.len()
            invariant
                self.wf(),
                i <= self.cells@.len(),
                forall|j: int| 0 <= j < i ==> (#[trigger] self@[j]) is None,
            decreases self.cells@.len() - i,
        {
            if !self.cells[i].is_empty() {
                assert(self@[i as int] is Some);
                return false;
            }
            i = i + 1;
        }
        true
    }

    /// Whether every cell holds a ball.
    pub fn is_full(&self) -> (r: bool)
        requires
            self.wf(),
        ensures
            r == board_is_full(self@),
    {
        let mut i: usize = 0;
        while i < self.cells.len()
            invariant
                self.wf(),
                i <= self.cells@.len(),
                forall|j: int| 0 <= j < i ==> (#[trigger] self@[j]) is Some,
            decreases self.cells@.len() - i,
        {
            if self.cells[i].is_empty() {
                assert(self@[i as int] is None);
                return false;
            }
            i = i + 1;
        }
        true
    }

    /// Puts a ball of `ball_color` on the empty cell at `location`, removes the
    /// lines that it completes and returns the score for them.
    pub fn add_ball(&mut self, location: &GameBoardLocation, ball_color: BallColor) -> (r: Result<
        GameScore,
        GameError,
    >)
        requires
            old(self).wf(),
        ensures
            final(self).wf(),
            cell(old(self)@, location.x(), location.y()) is Some ==> r == Err::<
                GameScore,
                GameError,
            >(GameError::CellOccupied) && final(self)@ == old(self)@,
            cell(old(self)@, location.x(), location.y()) is None ==> ({
                let placed = old(self)@.update(
                    idx(location.x(), location.y()),
                    Some(ball_color),
                );
                &&& r is Ok
                &&& r->Ok_0.spec_value() == line_drop_score(placed, location.x(), location.y())
                &&& is_drop_result(placed, location.x(), location.y(), final(self)@)
            }),
    {
        if !self.at(location).is_empty() {
            return Err(GameError::CellOccupied);
        }
        self.set(location.x_offset(), location.y_offset(), Some(ball_color));
        Ok(self.drop_lines_if_any(location))
    }

    /// The connected zones of the empty cells of this board.
    pub fn connected_zones(&self) -> (r: GameBoardConnectedZones)
        requires
            self.wf(),
        ensures
            r.are_zones_of(self@),
    {
        GameBoardConnectedZones::new(self)
    }

    /// Moves the ball at `game_move.from` to the empty cell `game_move.to`
    /// where a path of empty cells leads there, removes the lines that it
    /// completes and returns the score for them.
    pub fn move_ball(&mut self, game_move: &GameBoardMove) -> (r: Result<GameScore, GameError>)
        requires
            old(self).wf(),
        ensures
            final(self).wf(),
            ({
                let b = old(self)@;
                let from = (game_move.from.x(), game_move.from.y());
                let to = (game_move.to.x(), game_move.to.y());
                match move_error(b, from, to) {
                    Some(e) => r == Err::<GameScore, GameError>(e) && final(self)@ == b,
                    None => {
                        &&& r is Ok
                        &&& r->Ok_0.spec_value() == line_drop_score(moved(b, from, to), to.0, to.1)
                        &&& is_drop_result(moved(b, from, to), to.0, to.1, final(self)@)
                    },
                }
            }),
    {
        let ghost b = self@;
        let from = &game_move.from;
        let to = &game_move.to;
        let ghost f = (from.x(), from.y());
        let ghost t = (to.x(), to.y());
        let fx = from.x_offset();
        let fy = from.y_offset();
        let tx = to.x_offset();
        let ty = to.y_offset();
        let ball = self.get(fx, fy);
        if ball.is_none() {
            return Err(GameError::EmptySource);
        }
        if self.get(tx, ty).is_some() {
            return Err(GameError::CellOccupied);
        }
        let zones = self.connected_zones();
        let destination_zone_id = zones.at(to);
        let neighbours = from.neighbours();
        let mut found = false;
        let mut i: usize = 0;
        while i < neighbours.len()
            invariant
                zones.are_zones_of(b),
                destination_zone_id == zones.zone(t.0, t.1),
                coords_of(neighbours@) == neighbour_coords(f.0, f.1),
                i <= neighbours@.len(),
                found ==> reachable(b, f, t),
                !found ==> forall|u: int|
                    0 <= u < i ==> zones.zone((#[trigger] neighbours@[u]).x(), neighbours@[u].y())
                        != destination_zone_id,
                is_free(b, t.0, t.1),
            decreases neighbours@.len() - i,
        {
            let n = neighbours[i];
            // The neighbour lies on the board.
            let _ = n.x_offset();
            let _ = n.y_offset();
            if same_zone(zones.at(&n), destination_zone_id) {
                proof {
                    lemma_neighbour_positions(f.0, f.1);
                    assert(coords_of(neighbours@)[i as int] == (n.x(), n.y()));
                    lemma_neighbour_entry_adjacent(f.0, f.1, i as int);
                    assert(connected(b, (n.x(), n.y()), t));
                }
                found = true;
            }
            i = i + 1;
        }
        if !found {
            proof {
                if reachable(b, f, t) {
                    let (nx, ny) = choose|nx: int, ny: int|
                        adjacent(f, (nx, ny)) && #[trigger] connected(b, (nx, ny), t);
                    lemma_connected_ends_free(b, (nx, ny), t);
                    lemma_neighbour_positions(f.0, f.1);
                    let nc = neighbour_coords(f.0, f.1);
                    let w = on_board_only(f.0 - 1, f.1).len() as int;
                    let e = on_board_only(f.0 + 1, f.1).len() as int;
                    let nn = on_board_only(f.0, f.1 - 1).len() as int;
                    let u = if nx == f.0 - 1 {
                        0
                    } else if nx == f.0 + 1 {
                        w
                    } else if ny == f.1 - 1 {
                        w + e
                    } else {
                        w + e + nn
                    };
                    assert(nc[u] == (nx, ny));
                    assert(coords_of(neighbours@)[u] == (neighbours@[u].x(), neighbours@[u].y()));
                    assert(zones.zone(nx, ny) == zones.zone(t.0, t.1));
                    assert(false);
                }
            }
            return Err(GameError::Unreachable);
        }
        self.set(fx, fy, None);
        self.set(tx, ty, ball);
        proof {
            assert(self@ == moved(b, f, t));
        }
        Ok(self.drop_lines_if_any(to))
    }
}

impl Default for GameBoard {
    /// The board with every cell empty.
    fn default() -> (r: GameBoard)
        ensures
            r.wf(),
            board_is_empty(r@),
    {
        let mut cells: Vec<GameBoardCell> = Vec::new();
        let mut i: usize = 0;
        while i < GAME_BOARD_SIZE * GAME_BOARD_SIZE
            invariant
                i <= board_cells(),
                cells@.len() == i,
                forall|j: int| 0 <= j < i ==> (#[trigger] cells@[j]).0 is None,
            decreases board_cells() - i,
        {
            cells.push(GameBoardCell(None));
            i = i + 1;
        }
        GameBoard { cells }
    }
}

} // verus!
