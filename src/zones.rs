//! Connected zones: the partition of the empty cells into regions whose cells
//! are joined by paths of rook-adjacent empty cells.
use vstd::prelude::*;

use vstd::set_lib::{lemma_int_range, lemma_len_subset, set_int_range};

use crate::board::{board_cells, cell, idx, GameBoard};
use crate::common::{BallColor, GAME_BOARD_SIZE};
use crate::location::{coords_of, in_board, neighbour_coords, on_board_only, GameBoardLocation};

verus! {

/// The cell at `(x, y)` lies on the board and is empty.
pub open spec fn is_free(b: Seq<Option<BallColor>>, x: int, y: int) -> bool {
    in_board(x, y) && cell(b, x, y) is None
}

/// The positions `a` and `c` are rook-adjacent.
pub open spec fn adjacent(a: (int, int), c: (int, int)) -> bool {
    ||| a.0 == c.0 && (a.1 == c.1 + 1 || a.1 + 1 == c.1)
    ||| a.1 == c.1 && (a.0 == c.0 + 1 || a.0 + 1 == c.0)
}

/// `p` is a non-empty walk over empty cells in which each position is
/// rook-adjacent to the next.
pub open spec fn is_free_path(b: Seq<Option<BallColor>>, p: Seq<(int, int)>) -> bool {
    &&& p.len() > 0
    &&& forall|i: int| 0 <= i < p.len() ==> is_free(b, (#[trigger] p[i]).0, p[i].1)
    &&& forall|i: int| 0 <= i < p.len() - 1 ==> #[trigger] linked(p, i)
}

/// Position `i` of `p` is rook-adjacent to the next one.
pub open spec fn linked(p: Seq<(int, int)>, i: int) -> bool {
    adjacent(p[i], p[i + 1])
}

/// A path of empty cells leads from `a` to `c`.
pub open spec fn connected(b: Seq<Option<BallColor>>, a: (int, int), c: (int, int)) -> bool {
    exists|p: Seq<(int, int)>| #[trigger] is_free_path(b, p) && p[0] == a && p.last() == c
}

/// An empty cell is connected to itself.
pub proof fn lemma_connected_refl(b: Seq<Option<BallColor>>, a: (int, int))
    requires
        is_free(b, a.0, a.1),
    ensures
        connected(b, a, a),
{
    let p = seq![a];
    assert(is_free_path(b, p));
}

/// Two adjacent empty cells are connected.
pub proof fn lemma_connected_adjacent(b: Seq<Option<BallColor>>, a: (int, int), c: (int, int))
    requires
        is_free(b, a.0, a.1),
        is_free(b, c.0, c.1),
        adjacent(a, c),
    ensures
        connected(b, a, c),
{
    let p = seq![a, c];
    assert(linked(p, 0));
    assert(is_free_path(b, p));
}

/// Connectedness is symmetric.
pub proof fn lemma_connected_sym(b: Seq<Option<BallColor>>, a: (int, int), c: (int, int))
    requires
        connected(b, a, c),
    ensures
        connected(b, c, a),
{
    let p = choose|p: Seq<(int, int)>| #[trigger] is_free_path(b, p) && p[0] == a && p.last() == c;
    let n = p.len();
    let q = Seq::new(n, |i: int| p[n - 1 - i]);
    assert forall|i: int| 0 <= i < q.len() - 1 implies #[trigger] linked(q, i) by {
        assert(linked(p, n - 2 - i));
    }
    assert forall|i: int| 0 <= i < q.len() implies is_free(b, (#[trigger] q[i]).0, q[i].1) by {
        assert(is_free(b, p[n - 1 - i].0, p[n - 1 - i].1));
    }
    assert(is_free_path(b, q));
}

/// Connectedness is transitive.
pub proof fn lemma_connected_trans(
    b: Seq<Option<BallColor>>,
    a: (int, int),
    c: (int, int),
    d: (int, int),
)
    requires
        connected(b, a, c),
        connected(b, c, d),
    ensures
        connected(b, a, d),
{
    let p = choose|p: Seq<(int, int)>| #[trigger] is_free_path(b, p) && p[0] == a && p.last() == c;
    let r = choose|r: Seq<(int, int)>| #[trigger] is_free_path(b, r) && r[0] == c && r.last() == d;
    let q = p + r.drop_first();
    assert forall|i: int| 0 <= i < q.len() - 1 implies #[trigger] linked(q, i) by {
        if i < p.len() - 1 {
            assert(linked(p, i));
        } else if i == p.len() - 1 {
            assert(linked(r, 0));
        } else {
            let k = i - p.len() + 1;
            assert(linked(r, k));
        }
    }
    assert forall|i: int| 0 <= i < q.len() implies is_free(b, (#[trigger] q[i]).0, q[i].1) by {
        if i < p.len() {
            assert(is_free(b, p[i].0, p[i].1));
        } else {
            let k = i - p.len() + 1;
            assert(is_free(b, r[k].0, r[k].1));
        }
    }
    assert(is_free_path(b, q));
    if r.len() == 1 {
        assert(q =~= p);
    }
}

/// On a board where every cell holds a ball, no cell has a zone.
pub proof fn lemma_full_board_has_no_zones(zones: GameBoardConnectedZones, b: Seq<Option<BallColor>>)
    requires
        b.len() == board_cells(),
        zones.are_zones_of(b),
        crate::board::board_is_full(b),
    ensures
        forall|x: int, y: int| in_board(x, y) ==> (#[trigger] zones.zone(x, y)) is None,
{
    assert forall|x: int, y: int| in_board(x, y) implies (#[trigger] zones.zone(x, y)) is None by {
        assert(b[idx(x, y)] is Some);
    }
}

/// Cells that no path of empty cells joins lie in different zones, and a cell
/// holding a ball lies in none.
pub proof fn lemma_separated_cells_differ(
    zones: GameBoardConnectedZones,
    b: Seq<Option<BallColor>>,
    a: (int, int),
    c: (int, int),
)
    requires
        zones.are_zones_of(b),
        is_free(b, a.0, a.1),
        is_free(b, c.0, c.1),
        !connected(b, a, c),
    ensures
        zones.zone(a.0, a.1) != zones.zone(c.0, c.1),
        forall|x: int, y: int|
            in_board(x, y) && cell(b, x, y) is Some ==> (#[trigger] zones.zone(x, y)) is None,
{
}

/// The identifier of a connected zone.
#[derive(Debug, Clone, Copy, PartialEq, Eq, Structural)]
pub struct ConnectedZoneId(pub u8);

/// The zone of a cell: none for a cell that holds a ball.
pub type ConnectedZoneCell = Option<ConnectedZoneId>;

/// The number of a zone; -1 for no zone.
pub open spec fn zone_number(z: Option<ConnectedZoneId>) -> int {
    match z {
        Some(ConnectedZoneId(n)) => n as int,
        None => -1,
    }
}

/// The zone of the cell at `(x, y)` in the row-major sequence `z`.
pub open spec fn zone_of(z: Seq<Option<ConnectedZoneId>>, x: int, y: int) -> Option<
    ConnectedZoneId,
> {
    z[idx(x, y)]
}

/// Where `(nx, ny)` is an empty cell, it lies in the zone of `(x, y)`.
pub open spec fn agrees(
    b: Seq<Option<BallColor>>,
    z: Seq<Option<ConnectedZoneId>>,
    x: int,
    y: int,
    nx: int,
    ny: int,
) -> bool {
    is_free(b, nx, ny) ==> zone_of(z, nx, ny) == zone_of(z, x, y)
}

/// Every empty rook-neighbour of `(x, y)` lies in the zone of `(x, y)`.
pub open spec fn closed_at(
    b: Seq<Option<BallColor>>,
    z: Seq<Option<ConnectedZoneId>>,
    x: int,
    y: int,
) -> bool {
    &&& agrees(b, z, x, y, x - 1, y)
    &&& agrees(b, z, x, y, x + 1, y)
    &&& agrees(b, z, x, y, x, y - 1)
    &&& agrees(b, z, x, y, x, y + 1)
}

/// Some location of `s` is `(x, y)`.
pub open spec fn in_stack(s: Seq<GameBoardLocation>, x: int, y: int) -> bool {
    exists|j: int| 0 <= j < s.len() && (#[trigger] s[j]).x() == x && s[j].y() == y
}

/// What holds of the zones while they are being filled: zones only on empty
/// cells, identifiers below `next`, each zoned cell connected to the first cell
/// of its zone, and every zoned cell closed but those still to be visited.
pub open spec fn fill_inv(
    b: Seq<Option<BallColor>>,
    z: Seq<Option<ConnectedZoneId>>,
    seeds: Seq<(int, int)>,
    next: int,
    pending: Seq<GameBoardLocation>,
    visiting: Option<(int, int)>,
) -> bool {
    &&& z.len() == board_cells()
    &&& seeds.len() == next
    &&& forall|x: int, y: int|
        in_board(x, y) && (#[trigger] zone_of(z, x, y)) is Some ==> {
            &&& cell(b, x, y) is None
            &&& zone_number(zone_of(z, x, y)) < next
            &&& connected(b, seeds[zone_number(zone_of(z, x, y))], (x, y))
            &&& (!in_stack(pending, x, y) && visiting != Some((x, y)) ==> closed_at(b, z, x, y))
        }
}

/// Along a path of empty cells that starts in zone `id`, where every cell of
/// that zone is closed, the first `i + 1` positions lie in zone `id`.
proof fn lemma_path_in_zone(
    b: Seq<Option<BallColor>>,
    z: Seq<Option<ConnectedZoneId>>,
    id: ConnectedZoneId,
    p: Seq<(int, int)>,
    i: int,
)
    requires
        forall|x: int, y: int|
            in_board(x, y) && (#[trigger] zone_of(z, x, y)) == Some(id) ==> closed_at(b, z, x, y),
        is_free_path(b, p),
        zone_of(z, p[0].0, p[0].1) == Some(id),
        0 <= i < p.len(),
    ensures
        zone_of(z, p[i].0, p[i].1) == Some(id),
    decreases i,
{
    if i > 0 {
        lemma_path_in_zone(b, z, id, p, i - 1);
        assert(linked(p, i - 1));
        assert(is_free(b, p[i - 1].0, p[i - 1].1));
        assert(is_free(b, p[i].0, p[i].1));
        assert(closed_at(b, z, p[i - 1].0, p[i - 1].1));
    }
}

/// No cell joined to `s` by empty cells has a zone in `z`.
pub open spec fn region_unmarked(
    b: Seq<Option<BallColor>>,
    z: Seq<Option<ConnectedZoneId>>,
    s: (int, int),
) -> bool {
    forall|x: int, y: int|
        in_board(x, y) && connected(b, s, (x, y)) ==> (#[trigger] zone_of(z, x, y)) is None
}

/// No cell has zone `id` in `z`.
pub open spec fn id_unused(z: Seq<Option<ConnectedZoneId>>, id: ConnectedZoneId) -> bool {
    forall|x: int, y: int| in_board(x, y) ==> (#[trigger] zone_of(z, x, y)) != Some(id)
}

/// What holds while the region of `s` is filled with zone `id`, starting from
/// the zones `z0`: each cell keeps its zone of `z0` or has been given `id` and
/// is joined to `s`; each cell of zone `id` is joined to `s`, and closed unless
/// it is still to be visited.
pub open spec fn region_fill_inv(
    b: Seq<Option<BallColor>>,
    z0: Seq<Option<ConnectedZoneId>>,
    z: Seq<Option<ConnectedZoneId>>,
    s: (int, int),
    id: ConnectedZoneId,
    pending: Seq<GameBoardLocation>,
    visiting: Option<(int, int)>,
) -> bool {
    &&& z.len() == board_cells()
    &&& forall|x: int, y: int|
        in_board(x, y) ==> {
            ||| (#[trigger] zone_of(z, x, y)) == zone_of(z0, x, y)
            ||| connected(b, s, (x, y)) && zone_of(z, x, y) == Some(id)
        }
    &&& forall|x: int, y: int|
        in_board(x, y) && (#[trigger] zone_of(z, x, y)) == Some(id) ==> {
            &&& connected(b, s, (x, y))
            &&& (!in_stack(pending, x, y) && visiting != Some((x, y)) ==> closed_at(b, z, x, y))
        }
}

/// A free neighbour `(nx, ny)` of a cell `(x, y)` of the region of `s` is in
/// zone `id` where the whole region is.
proof fn lemma_agrees_in_region(
    b: Seq<Option<BallColor>>,
    z: Seq<Option<ConnectedZoneId>>,
    s: (int, int),
    id: ConnectedZoneId,
    x: int,
    y: int,
    nx: int,
    ny: int,
)
    requires
        forall|x: int, y: int|
            in_board(x, y) && connected(b, s, (x, y)) ==> #[trigger] zone_of(z, x, y) == Some(id),
        connected(b, s, (x, y)),
        in_board(x, y),
        adjacent((x, y), (nx, ny)),
    ensures
        agrees(b, z, x, y, nx, ny),
{
    if is_free(b, nx, ny) {
        lemma_connected_ends_free(b, s, (x, y));
        lemma_connected_adjacent(b, (x, y), (nx, ny));
        lemma_connected_trans(b, s, (x, y), (nx, ny));
        assert(zone_of(z, nx, ny) == Some(id));
        assert(zone_of(z, x, y) == Some(id));
    }
}

/// A cell of the region of `s` is closed where the whole region is in zone `id`.
proof fn lemma_closed_in_region(
    b: Seq<Option<BallColor>>,
    z: Seq<Option<ConnectedZoneId>>,
    s: (int, int),
    id: ConnectedZoneId,
    x: int,
    y: int,
)
    requires
        forall|x: int, y: int|
            in_board(x, y) && connected(b, s, (x, y)) ==> #[trigger] zone_of(z, x, y) == Some(id),
        connected(b, s, (x, y)),
        in_board(x, y),
    ensures
        closed_at(b, z, x, y),
{
    lemma_agrees_in_region(b, z, s, id, x, y, x - 1, y);
    lemma_agrees_in_region(b, z, s, id, x, y, x + 1, y);
    lemma_agrees_in_region(b, z, s, id, x, y, x, y - 1);
    lemma_agrees_in_region(b, z, s, id, x, y, x, y + 1);
}

/// A closed cell outside the region of `s` stays closed when only that
/// region, which had no zone, changes zones.
proof fn lemma_closed_outside_region(
    b: Seq<Option<BallColor>>,
    z0: Seq<Option<ConnectedZoneId>>,
    z: Seq<Option<ConnectedZoneId>>,
    s: (int, int),
    x: int,
    y: int,
)
    requires
        region_unmarked(b, z0, s),
        forall|x: int, y: int|
            in_board(x, y) && !connected(b, s, (x, y)) ==> #[trigger] zone_of(z, x, y) == zone_of(
                z0,
                x,
                y,
            ),
        in_board(x, y),
        zone_of(z0, x, y) is Some,
        zone_of(z, x, y) == zone_of(z0, x, y),
        closed_at(b, z0, x, y),
    ensures
        closed_at(b, z, x, y),
{
    assert forall|nx: int, ny: int|
        adjacent((x, y), (nx, ny)) && is_free(b, nx, ny) implies zone_of(z, nx, ny) == zone_of(
        z0,
        nx,
        ny,
    ) by {
        if connected(b, s, (nx, ny)) {
            assert(zone_of(z0, nx, ny) is None);
        }
    }
    assert(adjacent((x, y), (x - 1, y)));
    assert(adjacent((x, y), (x + 1, y)));
    assert(adjacent((x, y), (x, y - 1)));
    assert(adjacent((x, y), (x, y + 1)));
}

/// Each position in the neighbour list of `(x, y)` is an adjacent position on
/// the board.
proof fn lemma_neighbours_adjacent(x: int, y: int)
    ensures
        forall|u: int|
            0 <= u < neighbour_coords(x, y).len() ==> adjacent(
                (x, y),
                #[trigger] neighbour_coords(x, y)[u],
            ) && in_board(neighbour_coords(x, y)[u].0, neighbour_coords(x, y)[u].1),
{
    let a = on_board_only(x - 1, y);
    let bb = on_board_only(x + 1, y);
    let c = on_board_only(x, y - 1);
    let d = on_board_only(x, y + 1);
    let nc = neighbour_coords(x, y);
    assert(nc == a + bb + c + d);
    assert forall|u: int| 0 <= u < nc.len() implies adjacent((x, y), #[trigger] nc[u]) && in_board(
        nc[u].0,
        nc[u].1,
    ) by {
        if u < a.len() {
            assert(nc[u] == a[u]);
        } else if u < a.len() + bb.len() {
            assert(nc[u] == bb[u - a.len()]);
        } else if u < a.len() + bb.len() + c.len() {
            assert(nc[u] == c[u - a.len() - bb.len()]);
        } else {
            assert(nc[u] == d[u - a.len() - bb.len() - c.len()]);
        }
    }
}

/// Entry `u` of the neighbour list of `(x, y)` is adjacent to `(x, y)`.
pub proof fn lemma_neighbour_entry_adjacent(x: int, y: int, u: int)
    requires
        0 <= u < neighbour_coords(x, y).len(),
    ensures
        adjacent((x, y), neighbour_coords(x, y)[u]),
        in_board(neighbour_coords(x, y)[u].0, neighbour_coords(x, y)[u].1),
{
    lemma_neighbours_adjacent(x, y);
}

/// Both ends of a path of empty cells are empty cells on the board.
pub proof fn lemma_connected_ends_free(b: Seq<Option<BallColor>>, a: (int, int), c: (int, int))
    requires
        connected(b, a, c),
    ensures
        is_free(b, a.0, a.1),
        is_free(b, c.0, c.1),
{
    let p = choose|p: Seq<(int, int)>| #[trigger] is_free_path(b, p) && p[0] == a && p.last() == c;
    assert(is_free(b, p[0].0, p[0].1));
    assert(is_free(b, p[p.len() - 1].0, p[p.len() - 1].1));
}

/// Giving a zone to an empty cell that had none keeps every other zoned cell
/// closed: no closed cell borders an empty cell without a zone.
proof fn lemma_mark_keeps_closed(
    b: Seq<Option<BallColor>>,
    z: Seq<Option<ConnectedZoneId>>,
    px: int,
    py: int,
    v: Option<ConnectedZoneId>,
    x: int,
    y: int,
)
    requires
        z.len() == board_cells(),
        is_free(b, px, py),
        zone_of(z, px, py) is None,
        in_board(x, y),
        zone_of(z, x, y) is Some,
        closed_at(b, z, x, y),
    ensures
        closed_at(b, z.update(idx(px, py), v), x, y),
        zone_of(z.update(idx(px, py), v), x, y) == zone_of(z, x, y),
{
    let z2 = z.update(idx(px, py), v);
    assert(idx(x, y) != idx(px, py));
    assert forall|nx: int, ny: int| in_board(nx, ny) && (nx != px || ny != py) implies zone_of(
        z2,
        nx,
        ny,
    ) == zone_of(z, nx, ny) by {
        assert(idx(nx, ny) != idx(px, py));
    }
}

/// Whether two cells lie in the same zone.
pub fn same_zone(a: Option<ConnectedZoneId>, b: Option<ConnectedZoneId>) -> (r: bool)
    ensures
        r == (a == b),
{
    match (a, b) {
        (Some(x), Some(y)) => x.0 == y.0,
        (None, None) => true,
        _ => false,
    }
}

/// Where the offsets of the in-board rook-neighbours of `(x, y)` stand.
pub proof fn lemma_neighbour_positions(x: int, y: int)
    ensures
        ({
            let nc = neighbour_coords(x, y);
            let w = on_board_only(x - 1, y).len() as int;
            let e = on_board_only(x + 1, y).len() as int;
            let n = on_board_only(x, y - 1).len() as int;
            &&& in_board(x - 1, y) ==> nc[0] == (x - 1, y) && 0 < nc.len()
            &&& in_board(x + 1, y) ==> nc[w] == (x + 1, y) && w < nc.len()
            &&& in_board(x, y - 1) ==> nc[w + e] == (x, y - 1) && w + e < nc.len()
            &&& in_board(x, y + 1) ==> nc[w + e + n] == (x, y + 1) && w + e + n < nc.len()
        }),
{
    let a = on_board_only(x - 1, y);
    let bb = on_board_only(x + 1, y);
    let c = on_board_only(x, y - 1);
    let d = on_board_only(x, y + 1);
    assert(neighbour_coords(x, y) == a + bb + c + d);
    assert((a + bb + c + d).len() == a.len() + bb.len() + c.len() + d.len());
}

/// The zones of all cells of one board.
#[derive(Debug)]
pub struct GameBoardConnectedZones(Vec<Option<ConnectedZoneId>>);

impl GameBoardConnectedZones {
    /// The zone of the cell at offsets `(x, y)`.
    pub closed spec fn zone(&self, x: int, y: int) -> Option<ConnectedZoneId> {
        zone_of(self.0@, x, y)
    }

    pub closed spec fn wf(&self) -> bool {
        self.0@.len() == board_cells()
    }

    /// These are the zones of board `b`: a cell has no zone exactly when it
    /// holds a ball, and two empty cells share a zone exactly when a path of
    /// empty cells joins them.
    pub open spec fn are_zones_of(&self, b: Seq<Option<BallColor>>) -> bool {
        &&& self.wf()
        &&& forall|x: int, y: int|
            in_board(x, y) ==> ((#[trigger] self.zone(x, y)) is None <==> cell(b, x, y) is Some)
        &&& forall|ax: int, ay: int, cx: int, cy: int|
            #![trigger self.zone(ax, ay), self.zone(cx, cy)]
            #![trigger connected(b, (ax, ay), (cx, cy))]
            is_free(b, ax, ay) && is_free(b, cx, cy) ==> (self.zone(ax, ay) == self.zone(cx, cy)
                <==> connected(b, (ax, ay), (cx, cy)))
    }

    /// Computes the zones of `game_board`: each empty cell gets the zone of the
    /// cells that a path of empty cells joins it to, and a cell with a ball gets
    /// none.
    pub fn new(game_board: &GameBoard) -> (r: GameBoardConnectedZones)
        requires
            game_board.wf(),
        ensures
            r.are_zones_of(game_board@),
    {
        let ghost b = game_board@;
        let mut zones: Vec<Option<ConnectedZoneId>> = Vec::new();
        let mut i: usize = 0;
        while i < GAME_BOARD_SIZE * GAME_BOARD_SIZE
            invariant
                i <= board_cells(),
                zones@.len() == i,
                forall|j: int| 0 <= j < i ==> (#[trigger] zones@[j]) is None,
            decreases board_cells() - i,
        {
            zones.push(None);
            i = i + 1;
        }
        let mut connected_zones = GameBoardConnectedZones(zones);
        let mut zone_id: u8 = 1;
        let ghost mut seeds: Seq<(int, int)> = seq![(0, 0)];
        assert(fill_inv(b, connected_zones.0@, seeds, 1, seq![], None));
        let mut y: usize = 0;
        while y < GAME_BOARD_SIZE
            invariant
                game_board.wf(),
                game_board@ == b,
                y <= GAME_BOARD_SIZE,
                zone_id as int <= y * GAME_BOARD_SIZE + 1,
                fill_inv(b, connected_zones.0@, seeds, zone_id as int, seq![], None),
                forall|px: int, py: int|
                    in_board(px, py) && py < y ==> (#[trigger] zone_of(
                        connected_zones.0@,
                        px,
                        py,
                    )) is Some || cell(b, px, py) is Some,
            decreases GAME_BOARD_SIZE - y,
        {
            let mut x: usize = 0;
            while x < GAME_BOARD_SIZE
                invariant
                    game_board.wf(),
                    game_board@ == b,
                    y < GAME_BOARD_SIZE,
                    x <= GAME_BOARD_SIZE,
                    zone_id as int <= y * GAME_BOARD_SIZE + x + 1,
                    fill_inv(b, connected_zones.0@, seeds, zone_id as int, seq![], None),
                    forall|px: int, py: int|
                        in_board(px, py) && (py < y || (py == y && px < x)) ==> (#[trigger] zone_of(
                            connected_zones.0@,
                            px,
                            py,
                        )) is Some || cell(b, px, py) is Some,
                decreases GAME_BOARD_SIZE - x,
            {
                if connected_zones.0[y * GAME_BOARD_SIZE + x].is_none() {
                    let location = GameBoardLocation::from_offsets(x, y);
                    let location = match location {
                        Ok(l) => l,
                        Err(_) => {
                            // Both offsets are below the board size.
                            assert(false);
                            return connected_zones;
                        },
                    };
                    let ghost old_seeds = seeds;
                    let ghost zb = connected_zones.0@;
                    let ghost st = (x as int, y as int);
                    let ghost id = ConnectedZoneId(zone_id);
                    proof {
                        seeds = seeds.push(st);
                        assert(seeds.drop_last() =~= old_seeds);
                        assert(location.x() == x && location.y() == y);
                        assert forall|px: int, py: int| in_board(px, py) implies (#[trigger] zone_of(
                            zb,
                            px,
                            py,
                        )) != Some(id) by {
                            if zone_of(zb, px, py) is Some {
                                assert(zone_number(zone_of(zb, px, py)) < zone_id);
                            }
                        }
                        assert forall|px: int, py: int|
                            in_board(px, py) && connected(b, st, (px, py)) implies (#[trigger] zone_of(
                            zb,
                            px,
                            py,
                        )) is None by {
                            if zone_of(zb, px, py) is Some {
                                let k = zone_of(zb, px, py)->0;
                                assert forall|qx: int, qy: int|
                                    in_board(qx, qy) && (#[trigger] zone_of(zb, qx, qy)) == Some(k)
                                    implies closed_at(b, zb, qx, qy) by {
                                    assert(!in_stack(seq![], qx, qy));
                                }
                                lemma_connected_sym(b, st, (px, py));
                                let q = choose|q: Seq<(int, int)>|
                                    #[trigger] is_free_path(b, q) && q[0] == (px, py) && q.last()
                                        == st;
                                lemma_path_in_zone(b, zb, k, q, q.len() - 1);
                            }
                        }
                    }
                    connected_zones.walk_and_mark(game_board, &location, ConnectedZoneId(zone_id));
                    proof {
                        let z = connected_zones.0@;
                        assert forall|px: int, py: int|
                            in_board(px, py) && (#[trigger] zone_of(z, px, py)) is Some implies {
                            &&& cell(b, px, py) is None
                            &&& zone_number(zone_of(z, px, py)) < zone_id + 1
                            &&& connected(b, seeds[zone_number(zone_of(z, px, py))], (px, py))
                            &&& (!in_stack(seq![], px, py) && None::<(int, int)> != Some((px, py))
                                ==> closed_at(b, z, px, py))
                        } by {
                            if connected(b, st, (px, py)) {
                                lemma_connected_ends_free(b, st, (px, py));
                                assert(seeds[zone_id as int] == st);
                                lemma_closed_in_region(b, z, st, id, px, py);
                            } else {
                                assert(zone_of(zb, px, py) is Some);
                                let k = zone_number(zone_of(zb, px, py));
                                assert(seeds[k] == old_seeds[k]);
                                assert(!in_stack(seq![], px, py));
                                lemma_closed_outside_region(b, zb, z, st, px, py);
                            }
                        }
                        assert(fill_inv(b, z, seeds, zone_id + 1, seq![], None));
                        assert forall|px: int, py: int|
                            in_board(px, py) && (py < y || (py == y && px < x + 1)) implies (
                            #[trigger] zone_of(z, px, py)) is Some || cell(
                            b,
                            px,
                            py,
                        ) is Some by {
                            if px != x || py != y {
                                assert(zone_of(zb, px, py) is Some || cell(b, px, py) is Some);
                                if zone_of(zb, px, py) is Some && connected(b, st, (px, py)) {
                                    assert(zone_of(zb, px, py) is None);
                                }
                            } else if cell(b, px, py) is None {
                                lemma_connected_refl(b, st);
                            }
                        }
                    }
                    zone_id = zone_id + 1;
                }
                x = x + 1;
            }
            y = y + 1;
        }
        proof {
            let z = connected_zones.0@;
            assert forall|ax: int, ay: int, cx: int, cy: int|
                is_free(b, ax, ay) && is_free(b, cx, cy) implies (zone_of(z, ax, ay) == zone_of(
                z,
                cx,
                cy,
            ) <==> connected(b, (ax, ay), (cx, cy))) by {
                assert(zone_of(z, ax, ay) is Some);
                assert(zone_of(z, cx, cy) is Some);
                if zone_of(z, ax, ay) == zone_of(z, cx, cy) {
                    let s = seeds[zone_number(zone_of(z, ax, ay))];
                    lemma_connected_sym(b, s, (ax, ay));
                    lemma_connected_trans(b, (ax, ay), s, (cx, cy));
                }
                if connected(b, (ax, ay), (cx, cy)) {
                    let k = zone_of(z, ax, ay)->0;
                    assert forall|qx: int, qy: int|
                        in_board(qx, qy) && (#[trigger] zone_of(z, qx, qy)) == Some(k) implies closed_at(
                        b,
                        z,
                        qx,
                        qy,
                    ) by {
                        assert(!in_stack(seq![], qx, qy));
                    }
                    let p = choose|p: Seq<(int, int)>|
                        #[trigger] is_free_path(b, p) && p[0] == (ax, ay) && p.last() == (cx, cy);
                    lemma_path_in_zone(b, z, k, p, p.len() - 1);
                }
            }
        }
        connected_zones
    }

    /// Gives `zone_id` to every cell that a path of empty cells joins to `start`
    /// (none where `start` holds a ball) and leaves every other cell as it was.
    fn walk_and_mark(&mut self, game_board: &GameBoard, start: &GameBoardLocation, zone_id: ConnectedZoneId)
        requires
            game_board.wf(),
            old(self).0@.len() == board_cells(),
            region_unmarked(game_board@, old(self).0@, (start.x(), start.y())),
            id_unused(old(self).0@, zone_id),
        ensures
            final(self).0@.len() == board_cells(),
            forall|x: int, y: int|
                in_board(x, y) && connected(game_board@, (start.x(), start.y()), (x, y))
                    ==> #[trigger] zone_of(final(self).0@, x, y) == Some(zone_id),
            forall|x: int, y: int|
                in_board(x, y) && !connected(game_board@, (start.x(), start.y()), (x, y))
                    ==> #[trigger] zone_of(final(self).0@, x, y) == zone_of(old(self).0@, x, y),
    {
        let ghost b = game_board@;
        let ghost z0 = self.0@;
        let ghost s = (start.x(), start.y());
        if !game_board.at(start).is_empty() {
            proof {
                assert forall|x: int, y: int| in_board(x, y) implies !connected(b, s, (x, y)) by {
                    if connected(b, s, (x, y)) {
                        lemma_connected_ends_free(b, s, (x, y));
                    }
                }
            }
            return;
        }
        let sx = start.x_offset();
        let sy = start.y_offset();
        proof {
            lemma_connected_refl(b, s);
        }
        self.0.set(sy * GAME_BOARD_SIZE + sx, Some(zone_id));
        let mut stack: Vec<GameBoardLocation> = Vec::new();
        stack.push(*start);
        proof {
            assert forall|x: int, y: int| in_board(x, y) implies {
                ||| (#[trigger] zone_of(self.0@, x, y)) == zone_of(z0, x, y)
                ||| connected(b, s, (x, y)) && zone_of(self.0@, x, y) == Some(zone_id)
            } by {
                if x != sx || y != sy {
                    assert(idx(x, y) != idx(sx as int, sy as int));
                }
            }
            assert forall|x: int, y: int|
                in_board(x, y) && (#[trigger] zone_of(self.0@, x, y)) == Some(zone_id) implies {
                &&& connected(b, s, (x, y))
                &&& (!in_stack(stack@, x, y) && None::<(int, int)> != Some((x, y)) ==> closed_at(
                    b,
                    self.0@,
                    x,
                    y,
                ))
            } by {
                if x == sx && y == sy {
                    assert(stack@[0].x() == x && stack@[0].y() == y);
                } else {
                    assert(idx(x, y) != idx(sx as int, sy as int));
                    assert(zone_of(z0, x, y) != Some(zone_id));
                }
            }
        }
        let ghost mut unmarked: Set<int> = Set::new(
            |i: int| 0 <= i < board_cells() && self.0@[i] is None,
        );
        proof {
            lemma_int_range(0, board_cells());
            assert(unmarked.subset_of(set_int_range(0, board_cells())));
            lemma_len_subset(unmarked, set_int_range(0, board_cells()));
        }
        while stack.len() > 0
            invariant
                game_board.wf(),
                game_board@ == b,
                s == (sx as int, sy as int),
                in_board(sx as int, sy as int),
                region_unmarked(b, z0, s),
                region_fill_inv(b, z0, self.0@, s, zone_id, stack@, None),
                forall|j: int|
                    0 <= j < stack@.len() ==> zone_of(self.0@, (#[trigger] stack@[j]).x(), stack@[j].y())
                        == Some(zone_id) && in_board(stack@[j].x(), stack@[j].y()),
                zone_of(self.0@, sx as int, sy as int) == Some(zone_id),
                unmarked == Set::new(|i: int| 0 <= i < board_cells() && self.0@[i] is None),
                unmarked.finite(),
            decreases 5 * unmarked.len() + stack@.len(),
        {
            let ghost m0 = 5 * unmarked.len() + stack@.len();
            let ghost before_pop = stack@;
            let cur = match stack.pop() {
                Some(l) => l,
                None => {
                    return;
                },
            };
            let cxu = cur.x_offset();
            let cyu = cur.y_offset();
            assert(stack@ =~= before_pop.drop_last());
            let ghost cx = cur.x();
            let ghost cy = cur.y();
            assert(before_pop[before_pop.len() - 1] == cur);
            assert(zone_of(self.0@, cx, cy) == Some(zone_id));
            proof {
                assert forall|x: int, y: int|
                    in_board(x, y) && (#[trigger] zone_of(self.0@, x, y)) == Some(zone_id)
                        && !in_stack(stack@, x, y) && Some((cx, cy)) != Some((x, y)) implies closed_at(
                    b,
                    self.0@,
                    x,
                    y,
                ) by {
                    if in_stack(before_pop, x, y) {
                        let j = choose|j: int|
                            0 <= j < before_pop.len() && (#[trigger] before_pop[j]).x() == x
                                && before_pop[j].y() == y;
                        if j < stack@.len() {
                            assert(stack@[j] == before_pop[j]);
                        }
                    }
                }
                lemma_neighbours_adjacent(cx, cy);
                lemma_connected_ends_free(b, s, (cx, cy));
            }
            let ns = cur.neighbours();
            let mut t: usize = 0;
            while t < ns.len()
                invariant
                    game_board.wf(),
                    game_board@ == b,
                    s == (sx as int, sy as int),
                    in_board(sx as int, sy as int),
                    region_unmarked(b, z0, s),
                    cx == cxu,
                    cy == cyu,
                    is_free(b, cx, cy),
                    connected(b, s, (cx, cy)),
                    zone_of(self.0@, cx, cy) == Some(zone_id),
                    region_fill_inv(b, z0, self.0@, s, zone_id, stack@, Some((cx, cy))),
                    forall|j: int|
                        0 <= j < stack@.len() ==> zone_of(
                            self.0@,
                            (#[trigger] stack@[j]).x(),
                            stack@[j].y(),
                        ) == Some(zone_id) && in_board(stack@[j].x(), stack@[j].y()),
                    zone_of(self.0@, sx as int, sy as int) == Some(zone_id),
                    unmarked == Set::new(|i: int| 0 <= i < board_cells() && self.0@[i] is None),
                    unmarked.finite(),
                    5 * unmarked.len() + stack@.len() < m0,
                    coords_of(ns@) == neighbour_coords(cx, cy),
                    forall|u: int|
                        0 <= u < neighbour_coords(cx, cy).len() ==> adjacent(
                            (cx, cy),
                            #[trigger] neighbour_coords(cx, cy)[u],
                        ) && in_board(
                            neighbour_coords(cx, cy)[u].0,
                            neighbour_coords(cx, cy)[u].1,
                        ),
                    t <= ns@.len(),
                    forall|u: int|
                        0 <= u < t ==> is_free(b, (#[trigger] ns@[u]).x(), ns@[u].y()) ==> zone_of(
                            self.0@,
                            ns@[u].x(),
                            ns@[u].y(),
                        ) == Some(zone_id),
                decreases ns@.len() - t,
            {
                let n = ns[t];
                let nxu = n.x_offset();
                let nyu = n.y_offset();
                let ghost nx = n.x();
                let ghost ny = n.y();
                assert(coords_of(ns@)[t as int] == (nx, ny));
                assert(adjacent((cx, cy), (nx, ny)));
                let ni = nyu * GAME_BOARD_SIZE + nxu;
                if self.0[ni].is_none() && game_board.at(&n).is_empty() {
                    let ghost zb = self.0@;
                    proof {
                        lemma_connected_adjacent(b, (cx, cy), (nx, ny));
                        lemma_connected_trans(b, s, (cx, cy), (nx, ny));
                        assert forall|x: int, y: int|
                            in_board(x, y) && (#[trigger] zone_of(zb, x, y)) == Some(zone_id)
                                && !in_stack(stack@, x, y) && Some((cx, cy)) != Some((x, y)) implies closed_at(
                            b,
                            zb.update(idx(nx, ny), Some(zone_id)),
                            x,
                            y,
                        ) by {
                            lemma_mark_keeps_closed(b, zb, nx, ny, Some(zone_id), x, y);
                        }
                    }
                    self.0.set(ni, Some(zone_id));
                    let ghost before_push = stack@;
                    stack.push(n);
                    proof {
                        assert(unmarked.contains(idx(nx, ny)));
                        unmarked = unmarked.remove(idx(nx, ny));
                        assert(unmarked =~= Set::new(
                            |i: int| 0 <= i < board_cells() && self.0@[i] is None,
                        ));
                        assert forall|x: int, y: int| in_board(x, y) implies {
                            ||| (#[trigger] zone_of(self.0@, x, y)) == zone_of(z0, x, y)
                            ||| connected(b, s, (x, y)) && zone_of(self.0@, x, y) == Some(zone_id)
                        } by {
                            if x != nx || y != ny {
                                assert(idx(x, y) != idx(nx, ny));
                                assert(zone_of(zb, x, y) == zone_of(self.0@, x, y));
                            }
                        }
                        assert forall|x: int, y: int|
                            in_board(x, y) && (#[trigger] zone_of(self.0@, x, y)) == Some(zone_id) implies {
                            &&& connected(b, s, (x, y))
                            &&& (!in_stack(stack@, x, y) && Some((cx, cy)) != Some((x, y))
                                ==> closed_at(b, self.0@, x, y))
                        } by {
                            if x == nx && y == ny {
                                assert(stack@[stack@.len() - 1] == n);
                            } else {
                                assert(idx(x, y) != idx(nx, ny));
                                assert(zone_of(zb, x, y) == Some(zone_id));
                                if in_stack(before_push, x, y) {
                                    let j = choose|j: int|
                                        0 <= j < before_push.len() && (#[trigger] before_push[j]).x()
                                            == x && before_push[j].y() == y;
                                    assert(stack@[j] == before_push[j]);
                                }
                            }
                        }
                        assert forall|j: int| 0 <= j < stack@.len() implies zone_of(
                            self.0@,
                            (#[trigger] stack@[j]).x(),
                            stack@[j].y(),
                        ) == Some(zone_id) && in_board(stack@[j].x(), stack@[j].y()) by {
                            if j == before_push.len() {
                                assert(stack@[j] == n);
                            } else {
                                assert(stack@[j] == before_push[j]);
                                assert(zone_of(zb, stack@[j].x(), stack@[j].y()) == Some(zone_id));
                                if stack@[j].x() != nx || stack@[j].y() != ny {
                                    assert(idx(stack@[j].x(), stack@[j].y()) != idx(nx, ny));
                                }
                            }
                        }
                        if sx != nx || sy != ny {
                            assert(idx(sx as int, sy as int) != idx(nx, ny));
                        }
                        if cx != nx || cy != ny {
                            assert(idx(cx, cy) != idx(nx, ny));
                        }
                        assert forall|u: int|
                            0 <= u < t + 1 && is_free(
                                b,
                                (#[trigger] ns@[u]).x(),
                                ns@[u].y(),
                            ) implies zone_of(self.0@, ns@[u].x(), ns@[u].y()) == Some(zone_id) by {
                            if u < t {
                                assert(zone_of(zb, ns@[u].x(), ns@[u].y()) == Some(zone_id));
                                if ns@[u].x() != nx || ns@[u].y() != ny {
                                    assert(idx(ns@[u].x(), ns@[u].y()) != idx(nx, ny));
                                }
                            }
                        }
                    }
                } else {
                    proof {
                        if is_free(b, nx, ny) {
                            lemma_connected_adjacent(b, (cx, cy), (nx, ny));
                            lemma_connected_trans(b, s, (cx, cy), (nx, ny));
                            assert(zone_of(z0, nx, ny) is None);
                            assert(zone_of(self.0@, nx, ny) is Some);
                        }
                    }
                }
                t = t + 1;
            }
            proof {
                lemma_neighbour_positions(cx, cy);
                let nc = neighbour_coords(cx, cy);
                assert forall|u: int| 0 <= u < nc.len() implies #[trigger] nc[u] == (
                    ns@[u].x(),
                    ns@[u].y(),
                ) by {
                    assert(coords_of(ns@)[u] == (ns@[u].x(), ns@[u].y()));
                }
                assert(closed_at(b, self.0@, cx, cy));
            }
        }
        proof {
            let z = self.0@;
            assert forall|x: int, y: int|
                in_board(x, y) && (#[trigger] zone_of(z, x, y)) == Some(zone_id) implies closed_at(
                b,
                z,
                x,
                y,
            ) by {
                assert(!in_stack(stack@, x, y));
            }
            assert forall|x: int, y: int|
                in_board(x, y) && connected(b, s, (x, y)) implies #[trigger] zone_of(z, x, y) == Some(
                zone_id,
            ) by {
                let p = choose|p: Seq<(int, int)>|
                    #[trigger] is_free_path(b, p) && p[0] == s && p.last() == (x, y);
                lemma_path_in_zone(b, z, zone_id, p, p.len() - 1);
            }
        }
    }

    /// The zone of the cell at `location`.
    #[inline]
    pub fn at(&self, location: &GameBoardLocation) -> (r: Option<ConnectedZoneId>)
        requires
            self.wf(),
        ensures
            r == self.zone(location.x(), location.y()),
    {
        self.0[location.y_offset() * GAME_BOARD_SIZE + location.x_offset()]
    }
}

} // verus!
