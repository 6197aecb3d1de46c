//! The office floor plan and shortest-path search on it.
use vstd::prelude::*;
use crate::path_order::{
    bfs_order, is_first_shortest_path, lemma_found_path_is_first, lemma_order_init,
    lemma_order_next_dir, lemma_order_next_head, lemma_tree_path, lemma_visit_keeps_order,
    lemma_walk_back, tree_path,
};

verus! {

/// Tiles across the office.
pub const GRID_WIDTH: usize = 16;

/// Tiles down the office.
pub const GRID_HEIGHT: usize = 12;

/// Pixels along one side of a tile.
pub const TILE_SIZE: u32 = 16;

/// A tile coordinate; `x` runs right, `y` runs down.
#[derive(Debug, Clone, Copy, PartialEq, Eq, Hash, Structural)]
pub struct Pos {
    pub x: usize,
    pub y: usize,
}

/// What stands on a tile; desks and chairs carry the desk number.
#[derive(Debug, Clone, Copy, PartialEq, Eq, Structural)]
pub enum Tile {
    Floor,
    Wall,
    Desk(usize),
    Chair(usize),
    WaterCooler,
}

/// The office: its tiles (row by row), the seat in front of each desk, and
/// the tiles around the water cooler where agents without a desk gather.
pub struct Grid {
    pub tiles: [[Tile; GRID_WIDTH]; GRID_HEIGHT],
    pub desk_positions: Vec<Pos>,
    pub overflow_ring: Vec<Pos>,
}

/// The office's tiles as rows of tiles.
pub type Tiles = [[Tile; GRID_WIDTH]; GRID_HEIGHT];

pub open spec fn in_bounds(p: Pos) -> bool {
    p.x < GRID_WIDTH && p.y < GRID_HEIGHT
}

/// The tile at `p` (meaningful when `p` is in bounds).
pub open spec fn cell(tiles: Tiles, p: Pos) -> Tile {
    tiles[p.y as int][p.x as int]
}

/// Floor, chairs and the water cooler can be walked on; walls and desks cannot.
pub open spec fn tile_walkable(t: Tile) -> bool {
    match t {
        Tile::Floor | Tile::Chair(_) | Tile::WaterCooler => true,
        _ => false,
    }
}

/// An agent can stand on `p`.
pub open spec fn passable(tiles: Tiles, p: Pos) -> bool {
    in_bounds(p) && tile_walkable(cell(tiles, p))
}

// ---------------------------------------------------------------------------
// The default office
// ---------------------------------------------------------------------------

pub open spec fn on_perimeter(x: int, y: int) -> bool {
    x == 0 || y == 0 || x == GRID_WIDTH - 1 || y == GRID_HEIGHT - 1
}

pub open spec fn desk_column(x: int) -> bool {
    x == 3 || x == 7 || x == 11
}

/// The desk number at a desk column `x` in desk row `row` (0 or 1).
pub open spec fn desk_id_at(x: int, row: int) -> int {
    row * 3 + (x - 3) / 4
}

/// The tile of the office once `ndesks` desks (with their chairs) are placed,
/// and the water cooler if `cooler`.
pub open spec fn layout_tile(ndesks: int, cooler: bool, x: int, y: int) -> Tile {
    if on_perimeter(x, y) {
        Tile::Wall
    } else if (y == 3 || y == 7) && desk_column(x) && desk_id_at(x, (y - 3) / 4) < ndesks {
        Tile::Desk(desk_id_at(x, (y - 3) / 4) as usize)
    } else if (y == 4 || y == 8) && desk_column(x) && desk_id_at(x, (y - 4) / 4) < ndesks {
        Tile::Chair(desk_id_at(x, (y - 4) / 4) as usize)
    } else if cooler && x == 13 && y == 5 {
        Tile::WaterCooler
    } else {
        Tile::Floor
    }
}

/// The tile at `(x, y)` of the default office: walls around the edge, six
/// desks with a chair below each, the water cooler at (13, 5), floor elsewhere.
pub open spec fn office_tile(x: int, y: int) -> Tile {
    layout_tile(6, true, x, y)
}

/// The seat of each desk, in desk order.
pub open spec fn office_desk_positions() -> Seq<Pos> {
    seq![
        Pos { x: 3, y: 4 },
        Pos { x: 7, y: 4 },
        Pos { x: 11, y: 4 },
        Pos { x: 3, y: 8 },
        Pos { x: 7, y: 8 },
        Pos { x: 11, y: 8 },
    ]
}

/// The eight tiles around (cx, cy), row by row, skipping the centre.
pub open spec fn ring_candidates(cx: int, cy: int) -> Seq<(int, int)> {
    seq![
        (cx - 1, cy - 1),
        (cx, cy - 1),
        (cx + 1, cy - 1),
        (cx - 1, cy),
        (cx + 1, cy),
        (cx - 1, cy + 1),
        (cx, cy + 1),
        (cx + 1, cy + 1),
    ]
}

/// A ring tile is kept when it is inside the office and is floor or a chair.
pub open spec fn ring_keeps(tiles: Tiles, c: (int, int)) -> bool {
    0 <= c.0 < GRID_WIDTH && 0 <= c.1 < GRID_HEIGHT && match tiles[c.1][c.0] {
        Tile::Floor | Tile::Chair(_) => true,
        _ => false,
    }
}

pub open spec fn pos_of(c: (int, int)) -> Pos {
    Pos { x: c.0 as usize, y: c.1 as usize }
}

/// The kept tiles among the first `n` ring candidates, in order.
pub open spec fn ring_prefix(tiles: Tiles, cx: int, cy: int, n: int) -> Seq<Pos>
    decreases n,
{
    if n <= 0 {
        seq![]
    } else {
        let c = ring_candidates(cx, cy)[n - 1];
        let before = ring_prefix(tiles, cx, cy, n - 1);
        if ring_keeps(tiles, c) {
            before.push(pos_of(c))
        } else {
            before
        }
    }
}

/// The tiles around the water cooler at (13, 5) that are floor or a chair.
pub open spec fn overflow_ring_of(tiles: Tiles) -> Seq<Pos> {
    ring_prefix(tiles, 13, 5, 8)
}

/// The rows of `tiles` are those of the default office.
pub open spec fn is_office_layout(tiles: Tiles, ndesks: int, cooler: bool) -> bool {
    forall|y: int, x: int|
        0 <= y < GRID_HEIGHT && 0 <= x < GRID_WIDTH ==> #[trigger] tiles[y][x] == layout_tile(
            ndesks,
            cooler,
            x,
            y,
        )
}

/// Builds the row-by-row perimeter: walls on the edges, floor inside.
fn office_walls() -> (tiles: Tiles)
    ensures
        is_office_layout(tiles, 0, false),
{
    let mut tiles = [[Tile::Floor; GRID_WIDTH]; GRID_HEIGHT];
    let mut x: usize = 0;
    while x < GRID_WIDTH
        invariant
            x <= GRID_WIDTH,
            forall|yy: int, xx: int|
                0 <= yy < GRID_HEIGHT && 0 <= xx < GRID_WIDTH ==> #[trigger] tiles[yy][xx] == (
                if (yy == 0 || yy == GRID_HEIGHT - 1) && xx < x {
                    Tile::Wall
                } else {
                    Tile::Floor
                }),
        decreases GRID_WIDTH - x,
    {
        tiles[0][x] = Tile::Wall;
        tiles[GRID_HEIGHT - 1][x] = Tile::Wall;
        x = x + 1;
    }
    let mut y: usize = 0;
    while y < GRID_HEIGHT
        invariant
            y <= GRID_HEIGHT,
            forall|yy: int, xx: int|
                0 <= yy < GRID_HEIGHT && 0 <= xx < GRID_WIDTH ==> #[trigger] tiles[yy][xx] == (
                if yy == 0 || yy == GRID_HEIGHT - 1 || ((xx == 0 || xx == GRID_WIDTH - 1) && yy
                    < y) {
                    Tile::Wall
                } else {
                    Tile::Floor
                }),
        decreases GRID_HEIGHT - y,
    {
        tiles[y][0] = Tile::Wall;
        tiles[y][GRID_WIDTH - 1] = Tile::Wall;
        y = y + 1;
    }
    tiles
}

impl Grid {
    /// The default 16x12 office: walls around the edge, two rows of three
    /// desks (x = 3, 7, 11 at y = 3, 7) each with a chair just below, the
    /// water cooler at (13, 5), and the ring of floor and chair tiles around
    /// the cooler.
    pub fn default_office() -> (g: Grid)
        ensures
            forall|y: int, x: int|
                0 <= y < GRID_HEIGHT && 0 <= x < GRID_WIDTH ==> #[trigger] g.tiles[y][x]
                    == office_tile(x, y),
            g.desk_positions@ == office_desk_positions(),
            g.overflow_ring@ == overflow_ring_of(g.tiles),
    {
        let mut tiles = office_walls();

        // 6 desks: 2 rows of 3; the chair of each sits just below it
        let desk_xs: [usize; 3] = [3, 7, 11];
        let desk_ys: [usize; 2] = [3, 7];
        let mut desk_id: usize = 0;
        let mut desk_positions: Vec<Pos> = Vec::new();

        let mut i: usize = 0;
        while i < 2
            invariant
                i <= 2,
                desk_id == 3 * i,
                desk_xs@ == seq![3usize, 7, 11],
                desk_ys@ == seq![3usize, 7],
                is_office_layout(tiles, desk_id as int, false),
                desk_positions@ == office_desk_positions().take(desk_id as int),
            decreases 2 - i,
        {
            let dy = desk_ys[i];
            let mut j: usize = 0;
            while j < 3
                invariant
                    i < 2,
                    j <= 3,
                    dy == desk_ys@[i as int],
                    desk_id == 3 * i + j,
                    desk_xs@ == seq![3usize, 7, 11],
                    desk_ys@ == seq![3usize, 7],
                    is_office_layout(tiles, desk_id as int, false),
                    desk_positions@ == office_desk_positions().take(desk_id as int),
                decreases 3 - j,
            {
                let dx = desk_xs[j];
                let ghost before = tiles;
                tiles[dy][dx] = Tile::Desk(desk_id);
                tiles[dy + 1][dx] = Tile::Chair(desk_id);
                desk_positions.push(Pos { x: dx, y: dy + 1 });
                proof {
                    assert forall|yy: int, xx: int|
                        0 <= yy < GRID_HEIGHT && 0 <= xx < GRID_WIDTH implies #[trigger] tiles[yy][xx]
                        == layout_tile(desk_id + 1, false, xx, yy) by {
                        if (yy == dy || yy == dy + 1) && xx == dx {
                        } else {
                            assert(tiles[yy][xx] == before[yy][xx]);
                        }
                    }
                    assert(desk_positions@ =~= office_desk_positions().take(desk_id + 1));
                }
                desk_id = desk_id + 1;
                j = j + 1;
            }
            i = i + 1;
        }

        // the water cooler
        let ghost before = tiles;
        tiles[5][13] = Tile::WaterCooler;
        assert(is_office_layout(tiles, 6, true)) by {
            assert forall|yy: int, xx: int|
                0 <= yy < GRID_HEIGHT && 0 <= xx < GRID_WIDTH implies #[trigger] tiles[yy][xx]
                == layout_tile(6, true, xx, yy) by {
                if yy == 5 && xx == 13 {
                } else {
                    assert(tiles[yy][xx] == before[yy][xx]);
                }
            }
        }

        // the ring around the cooler: its floor and chair tiles
        let cooler_x: i32 = 13;
        let cooler_y: i32 = 5;
        let mut overflow_ring: Vec<Pos> = Vec::new();
        let mut dy: i32 = -1;
        let mut n: i32 = 0;
        while dy <= 1
            invariant
                -1 <= dy <= 2,
                cooler_x == 13,
                cooler_y == 5,
                n == 3 * (dy + 1) - (if dy >= 1 { 1int } else { 0 }),
                is_office_layout(tiles, 6, true),
                overflow_ring@ == ring_prefix(tiles, 13, 5, n as int),
            decreases 2 - dy,
        {
            let mut dx: i32 = -1;
            while dx <= 1
                invariant
                    -1 <= dy <= 1,
                    -1 <= dx <= 2,
                    cooler_x == 13,
                    cooler_y == 5,
                    n == 3 * (dy + 1) + (dx + 1) - (if dy > 0 || (dy == 0 && dx > 0) {
                        1int
                    } else {
                        0
                    }),
                    is_office_layout(tiles, 6, true),
                    overflow_ring@ == ring_prefix(tiles, 13, 5, n as int),
                decreases 2 - dx,
            {
                if dx == 0 && dy == 0 {
                    dx = dx + 1;
                    continue;
                }
                let nx = cooler_x + dx;
                let ny = cooler_y + dy;
                assert(ring_candidates(13, 5)[n as int] == (nx as int, ny as int));
                if nx >= 0 && ny >= 0 && (nx as usize) < GRID_WIDTH && (ny as usize) < GRID_HEIGHT {
                    let pos = Pos { x: nx as usize, y: ny as usize };
                    let tile = tiles[ny as usize][nx as usize];
                    if matches!(tile, Tile::Floor | Tile::Chair(_)) {
                        overflow_ring.push(pos);
                    }
                }
                n = n + 1;
                dx = dx + 1;
            }
            dy = dy + 1;
        }
        Grid { tiles, desk_positions, overflow_ring }
    }

    /// Whether an agent can stand on `pos`.
    pub fn is_walkable(&self, pos: Pos) -> (r: bool)
        ensures
            r == passable(self.tiles, pos),
    {
        if pos.x >= GRID_WIDTH || pos.y >= GRID_HEIGHT {
            return false;
        }
        matches!(self.tiles[pos.y][pos.x], Tile::Floor | Tile::Chair(_) | Tile::WaterCooler)
    }
}

// ---------------------------------------------------------------------------
// Paths
// ---------------------------------------------------------------------------

/// `a` and `b` are side by side (one step up, down, left or right).
pub open spec fn adjacent(a: Pos, b: Pos) -> bool {
    (a.x == b.x && (a.y + 1 == b.y || b.y + 1 == a.y)) || (a.y == b.y && (a.x + 1 == b.x || b.x
        + 1 == a.x))
}

/// The position before step `i` of a walk that starts at `from`.
pub open spec fn step_before(from: Pos, path: Seq<Pos>, i: int) -> Pos {
    if i == 0 {
        from
    } else {
        path[i - 1]
    }
}

/// `path` lists the tiles of a walk that starts at `from` (not listed):
/// each is passable and one step from the one before.
pub open spec fn is_walk(tiles: Tiles, from: Pos, path: Seq<Pos>) -> bool {
    forall|i: int|
        0 <= i < path.len() ==> passable(tiles, #[trigger] path[i]) && adjacent(
            step_before(from, path, i),
            path[i],
        )
}

/// Where a walk from `from` ends.
pub open spec fn walk_end(from: Pos, path: Seq<Pos>) -> Pos {
    if path.len() == 0 {
        from
    } else {
        path.last()
    }
}

/// `path` is a walk from `from` that ends at `to`.
pub open spec fn is_path(tiles: Tiles, from: Pos, to: Pos, path: Seq<Pos>) -> bool {
    is_walk(tiles, from, path) && walk_end(from, path) == to
}

/// Some walk leads from `from` to `to`.
pub open spec fn reachable(tiles: Tiles, from: Pos, to: Pos) -> bool {
    exists|path: Seq<Pos>| is_path(tiles, from, to, path)
}

/// `path` is a walk from `from` to `to` and no walk between them is shorter.
pub open spec fn is_shortest_path(tiles: Tiles, from: Pos, to: Pos, path: Seq<Pos>) -> bool {
    is_path(tiles, from, to, path) && forall|other: Seq<Pos>|
        is_path(tiles, from, to, other) ==> path.len() <= #[trigger] other.len()
}

/// Index of a tile in row-major order.
pub open spec fn cell_id(p: Pos) -> int {
    p.y * GRID_WIDTH + p.x
}

/// Tiles in the office.
pub open spec fn num_cells() -> int {
    GRID_WIDTH * GRID_HEIGHT
}

// The state of the breadth-first search, as the proof sees it:
// `queue` lists every tile ever reached, in the order reached; the first
// `head` of them are done. `index[p]` is where `p` stands in `queue`, and
// `dist[p]` is the number of steps by which it was reached.

/// Facts that hold of the search state between tiles.
pub open spec fn bfs_shape(
    tiles: Tiles,
    from: Pos,
    visited: Seq<bool>,
    came: Seq<Option<Pos>>,
    queue: Seq<Pos>,
    index: Map<Pos, int>,
    dist: Map<Pos, int>,
) -> bool {
    &&& visited.len() == num_cells()
    &&& came.len() == num_cells()
    &&& queue.len() >= 1
    &&& queue[0] == from
    &&& index.dom() == dist.dom()
    &&& forall|p: Pos| in_bounds(p) ==> (visited[cell_id(p)] <==> #[trigger] index.dom().contains(p))
    &&& forall|p: Pos| #[trigger]
        index.dom().contains(p) ==> in_bounds(p) && 0 <= index[p] < queue.len() && queue[index[p]]
            == p
    &&& forall|i: int| 0 <= i < queue.len() ==> #[trigger] index.dom().contains(queue[i]) && index[queue[i]] == i
    &&& dist[from] == 0
    &&& forall|i: int, j: int|
        0 <= i <= j < queue.len() ==> dist[#[trigger] queue[i]] <= dist[#[trigger] queue[j]]
    &&& forall|i: int| 0 <= i < queue.len() ==> 0 <= dist[#[trigger] queue[i]] <= i
    &&& forall|i: int|
        1 <= i < queue.len() ==> {
            let p = #[trigger] queue[i];
            let c = came[cell_id(p)];
            &&& c is Some
            &&& index.dom().contains(c->0)
            &&& index[c->0] < i
            &&& adjacent(c->0, p)
            &&& dist[p] == dist[c->0] + 1
            &&& passable(tiles, p)
        }
}

/// Every passable neighbour of the first `done` tiles of the queue was reached,
/// at most one step further than that tile.
pub open spec fn bfs_closed(
    tiles: Tiles,
    queue: Seq<Pos>,
    done: int,
    index: Map<Pos, int>,
    dist: Map<Pos, int>,
) -> bool {
    forall|i: int, p: Pos|
        0 <= i < done && passable(tiles, p) && adjacent(#[trigger] queue[i], p)
            ==> #[trigger] index.dom().contains(p) && dist[p] <= dist[queue[i]] + 1
}

/// How far a walk of `k` steps can get: a reached tile was reached in at most `k`
/// steps, and a tile not yet reached is more than `bound` steps away.
#[verifier::rlimit(50)]
pub proof fn lemma_walk_bound(
    tiles: Tiles,
    from: Pos,
    visited: Seq<bool>,
    came: Seq<Option<Pos>>,
    queue: Seq<Pos>,
    head: int,
    index: Map<Pos, int>,
    dist: Map<Pos, int>,
    bound: int,
    path: Seq<Pos>,
)
    requires
        bfs_shape(tiles, from, visited, came, queue, index, dist),
        0 <= head <= queue.len(),
        bfs_closed(tiles, queue, head, index, dist),
        forall|i: int| head <= i < queue.len() ==> dist[#[trigger] queue[i]] >= bound,
        forall|i: int| 0 <= i < queue.len() ==> dist[#[trigger] queue[i]] <= bound + 1,
        is_walk(tiles, from, path),
    ensures
        index.dom().contains(walk_end(from, path)) ==> dist[walk_end(from, path)] <= path.len(),
        !index.dom().contains(walk_end(from, path)) ==> path.len() >= bound + 1,
    decreases path.len(),
{
    if path.len() == 0 {
        assert(index.dom().contains(queue[0]));
    } else {
        let k = path.len();
        let prefix = path.take(k - 1);
        assert(is_walk(tiles, from, prefix)) by {
            assert forall|i: int| 0 <= i < prefix.len() implies passable(tiles, #[trigger] prefix[i])
                && adjacent(step_before(from, prefix, i), prefix[i]) by {
                assert(prefix[i] == path[i]);
                if i > 0 {
                    assert(prefix[i - 1] == path[i - 1]);
                }
            }
        }
        lemma_walk_bound(tiles, from, visited, came, queue, head, index, dist, bound, prefix);
        let p = walk_end(from, prefix);
        let c = path[k - 1];
        assert(walk_end(from, path) == c);
        assert(passable(tiles, c) && adjacent(step_before(from, path, k - 1), c));
        assert(step_before(from, path, k - 1) == p) by {
            if k > 1 {
                assert(prefix.last() == path[k - 2]);
            }
        }
        if index.dom().contains(p) {
            let ip = index[p];
            assert(queue[ip] == p);
            if ip < head {
                assert(index.dom().contains(c) && dist[c] <= dist[queue[ip]] + 1);
            } else {
                assert(dist[queue[ip]] >= bound);
                if index.dom().contains(c) {
                    assert(dist[queue[index[c]]] <= bound + 1);
                }
            }
        } else {
            if index.dom().contains(c) {
                assert(dist[queue[index[c]]] <= bound + 1);
            }
        }
    }
}

/// The tile one step from `p` in direction `d` (0 up, 1 down, 2 left, 3 right),
/// when it is inside the office.
pub open spec fn neighbour_of(p: Pos, d: int) -> Option<Pos> {
    if d == 0 {
        if p.y == 0 {
            None
        } else {
            Some(Pos { x: p.x, y: (p.y - 1) as usize })
        }
    } else if d == 1 {
        if p.y + 1 >= GRID_HEIGHT {
            None
        } else {
            Some(Pos { x: p.x, y: (p.y + 1) as usize })
        }
    } else if d == 2 {
        if p.x == 0 {
            None
        } else {
            Some(Pos { x: (p.x - 1) as usize, y: p.y })
        }
    } else {
        if p.x + 1 >= GRID_WIDTH {
            None
        } else {
            Some(Pos { x: (p.x + 1) as usize, y: p.y })
        }
    }
}

fn neighbour(p: Pos, d: usize) -> (r: Option<Pos>)
    requires
        in_bounds(p),
        d < 4,
    ensures
        r == neighbour_of(p, d as int),
        r matches Some(q) ==> in_bounds(q) && adjacent(p, q),
{
    if d == 0 {
        if p.y == 0 {
            None
        } else {
            Some(Pos { x: p.x, y: p.y - 1 })
        }
    } else if d == 1 {
        if p.y + 1 >= GRID_HEIGHT {
            None
        } else {
            Some(Pos { x: p.x, y: p.y + 1 })
        }
    } else if d == 2 {
        if p.x == 0 {
            None
        } else {
            Some(Pos { x: p.x - 1, y: p.y })
        }
    } else {
        if p.x + 1 >= GRID_WIDTH {
            None
        } else {
            Some(Pos { x: p.x + 1, y: p.y })
        }
    }
}

/// Every tile inside the office next to `p` is one of its four neighbours.
proof fn lemma_neighbours_cover(p: Pos, q: Pos)
    requires
        in_bounds(p),
        in_bounds(q),
        adjacent(p, q),
    ensures
        exists|d: int| 0 <= d < 4 && #[trigger] neighbour_of(p, d) == Some(q),
{
    if q.y + 1 == p.y {
        assert(neighbour_of(p, 0) == Some(q));
    } else if p.y + 1 == q.y {
        assert(neighbour_of(p, 1) == Some(q));
    } else if q.x + 1 == p.x {
        assert(neighbour_of(p, 2) == Some(q));
    } else {
        assert(neighbour_of(p, 3) == Some(q));
    }
}

fn filled_bools(n: usize, b: bool) -> (v: Vec<bool>)
    ensures
        v@.len() == n,
        forall|i: int| 0 <= i < n ==> v@[i] == b,
{
    let mut v: Vec<bool> = Vec::new();
    let mut i: usize = 0;
    while i < n
        invariant
            i <= n,
            v@.len() == i,
            forall|j: int| 0 <= j < i ==> v@[j] == b,
        decreases n - i,
    {
        v.push(b);
        i = i + 1;
    }
    v
}

fn filled_nones(n: usize) -> (v: Vec<Option<Pos>>)
    ensures
        v@.len() == n,
        forall|i: int| 0 <= i < n ==> v@[i] is None,
{
    let mut v: Vec<Option<Pos>> = Vec::new();
    let mut i: usize = 0;
    while i < n
        invariant
            i <= n,
            v@.len() == i,
            forall|j: int| 0 <= j < i ==> v@[j] is None,
        decreases n - i,
    {
        v.push(None);
        i = i + 1;
    }
    v
}

/// The positions of `v` in reverse order.
fn reversed(v: &Vec<Pos>) -> (r: Vec<Pos>)
    ensures
        r@ == v@.reverse(),
{
    let mut r: Vec<Pos> = Vec::new();
    let mut i: usize = v.len();
    while i > 0
        invariant
            i <= v@.len(),
            r@.len() == v@.len() - i,
            forall|j: int| 0 <= j < r@.len() ==> r@[j] == v@[v@.len() - 1 - j],
        decreases i,
    {
        i = i - 1;
        r.push(v[i]);
    }
    assert(r@ =~= v@.reverse());
    r
}

/// The search state between tiles: its shape, the first `head` tiles done
/// (none of them `to`), later tiles at most one step further than the next
/// one to do, and `unseen` holding the index of every tile not yet reached.
pub open spec fn bfs_state(
    tiles: Tiles,
    from: Pos,
    to: Pos,
    visited: Seq<bool>,
    came: Seq<Option<Pos>>,
    queue: Seq<Pos>,
    head: int,
    index: Map<Pos, int>,
    dist: Map<Pos, int>,
    unseen: Set<int>,
) -> bool {
    &&& bfs_shape(tiles, from, visited, came, queue, index, dist)
    &&& 0 <= head <= queue.len()
    &&& bfs_closed(tiles, queue, head, index, dist)
    &&& head < queue.len() ==> forall|i: int|
        0 <= i < queue.len() ==> dist[#[trigger] queue[i]] <= dist[queue[head]] + 1
    &&& forall|i: int| 0 <= i < head ==> #[trigger] queue[i] != to
    &&& unseen.finite()
    &&& unseen.len() + queue.len() == num_cells()
    &&& forall|p: Pos|
        in_bounds(p) && !index.dom().contains(p) ==> #[trigger] unseen.contains(cell_id(p))
}

/// The search state while the tile at the queue's head is being expanded.
pub open spec fn bfs_expanding(
    tiles: Tiles,
    from: Pos,
    to: Pos,
    visited: Seq<bool>,
    came: Seq<Option<Pos>>,
    queue: Seq<Pos>,
    head: int,
    index: Map<Pos, int>,
    dist: Map<Pos, int>,
    unseen: Set<int>,
) -> bool {
    &&& bfs_shape(tiles, from, visited, came, queue, index, dist)
    &&& 0 <= head < queue.len()
    &&& queue[head] != to
    &&& bfs_closed(tiles, queue, head, index, dist)
    &&& forall|i: int| 0 <= i < queue.len() ==> dist[#[trigger] queue[i]] <= dist[queue[head]] + 1
    &&& forall|i: int| 0 <= i < head ==> #[trigger] queue[i] != to
    &&& unseen.finite()
    &&& unseen.len() + queue.len() == num_cells()
    &&& forall|p: Pos|
        in_bounds(p) && !index.dom().contains(p) ==> #[trigger] unseen.contains(cell_id(p))
}

/// Considers the tile `next` beside the head tile: reaches it if it is new and
/// passable.
#[verifier::rlimit(50)]
fn visit(
    grid: &Grid,
    from: Pos,
    to: Pos,
    head: usize,
    next: Pos,
    Ghost(d): Ghost<int>,
    visited: &mut Vec<bool>,
    came_from: &mut Vec<Option<Pos>>,
    queue: &mut Vec<Pos>,
    Ghost(index): Ghost<Map<Pos, int>>,
    Ghost(dist): Ghost<Map<Pos, int>>,
    Ghost(unseen): Ghost<Set<int>>,
) -> (r: (Ghost<Map<Pos, int>>, Ghost<Map<Pos, int>>, Ghost<Set<int>>))
    requires
        0 <= d < 4,
        neighbour_of(old(queue)@[head as int], d) == Some(next),
        bfs_order(old(came_from)@, old(queue)@, index, head as int, d),
        bfs_expanding(
            grid.tiles,
            from,
            to,
            old(visited)@,
            old(came_from)@,
            old(queue)@,
            head as int,
            index,
            dist,
            unseen,
        ),
        in_bounds(next),
        adjacent(old(queue)@[head as int], next),
    ensures
        bfs_expanding(
            grid.tiles,
            from,
            to,
            final(visited)@,
            final(came_from)@,
            final(queue)@,
            head as int,
            r.0@,
            r.1@,
            r.2@,
        ),
        final(queue)@[head as int] == old(queue)@[head as int],
        forall|p: Pos| #[trigger] index.dom().contains(p) ==> r.0@.dom().contains(p) && r.1@[p]
            == dist[p],
        passable(grid.tiles, next) ==> r.0@.dom().contains(next) && r.1@[next] <= dist[old(
            queue,
        )@[head as int]] + 1,
        bfs_order(final(came_from)@, final(queue)@, r.0@, head as int, d + 1),
{
    let current = queue[head];
    assert(index.dom().contains(queue@[head as int]));
    let nid = next.y * GRID_WIDTH + next.x;
    if visited[nid] {
        assert(index.dom().contains(next));
        assert(queue@[index[next]] == next);
        proof {
            lemma_order_next_dir(came_from@, queue@, index, head as int, d);
        }
        return (Ghost(index), Ghost(dist), Ghost(unseen));
    }
    // walkable, or the destination chair
    let tile = grid.tiles[next.y][next.x];
    let passable_here = matches!(tile, Tile::Floor | Tile::Chair(_) | Tile::WaterCooler) || (next
        == to && matches!(tile, Tile::Chair(_)));
    if !passable_here {
        proof {
            lemma_order_next_dir(came_from@, queue@, index, head as int, d);
        }
        return (Ghost(index), Ghost(dist), Ghost(unseen));
    }
    let ghost n = queue@.len() as int;
    proof {
        assert(!index.dom().contains(next));
        assert(unseen.contains(cell_id(next)));
        lemma_visit_keeps_shape(
            grid.tiles,
            from,
            visited@,
            came_from@,
            queue@,
            index,
            dist,
            head as int,
            current,
            next,
        );
        lemma_visit_keeps_order(
            grid.tiles,
            from,
            visited@,
            came_from@,
            queue@,
            index,
            dist,
            head as int,
            current,
            next,
            d,
        );
    }
    visited.set(nid, true);
    came_from.set(nid, Some(current));
    queue.push(next);
    let ghost index2 = index.insert(next, n);
    let ghost dist2 = dist.insert(next, dist[current] + 1);
    let ghost unseen2 = unseen.remove(cell_id(next));
    proof {
        assert forall|p: Pos| in_bounds(p) && !index2.dom().contains(p) implies #[trigger] unseen2.contains(
            cell_id(p),
        ) by {
            assert(cell_id(p) != cell_id(next));
        }
        assert forall|i: int| 0 <= i < head implies #[trigger] queue@[i] != to by {
            assert(queue@[i] == old(queue)@[i]);
        }
        assert(queue@[head as int] == current);
    }
    (Ghost(index2), Ghost(dist2), Ghost(unseen2))
}

/// Tries the four neighbours of the tile at the queue's head and appends those
/// reached for the first time; the head tile is then done.
#[verifier::spinoff_prover]
#[verifier::rlimit(100)]
fn expand(
    grid: &Grid,
    from: Pos,
    to: Pos,
    head: usize,
    visited: &mut Vec<bool>,
    came_from: &mut Vec<Option<Pos>>,
    queue: &mut Vec<Pos>,
    Ghost(index): Ghost<Map<Pos, int>>,
    Ghost(dist): Ghost<Map<Pos, int>>,
    Ghost(unseen): Ghost<Set<int>>,
) -> (r: (Ghost<Map<Pos, int>>, Ghost<Map<Pos, int>>, Ghost<Set<int>>))
    requires
        bfs_state(
            grid.tiles,
            from,
            to,
            old(visited)@,
            old(came_from)@,
            old(queue)@,
            head as int,
            index,
            dist,
            unseen,
        ),
        head < old(queue)@.len(),
        old(queue)@[head as int] != to,
        bfs_order(old(came_from)@, old(queue)@, index, head as int, 0),
    ensures
        bfs_order(final(came_from)@, final(queue)@, r.0@, head + 1, 0),
        bfs_state(
            grid.tiles,
            from,
            to,
            final(visited)@,
            final(came_from)@,
            final(queue)@,
            head + 1,
            r.0@,
            r.1@,
            r.2@,
        ),
{
    let current = queue[head];
    let ghost mut index = index;
    let ghost mut dist = dist;
    let ghost mut unseen = unseen;
    proof {
        assert(index.dom().contains(queue@[head as int]));
        assert(in_bounds(current));
    }
    let mut d: usize = 0;
    while d < 4
        invariant
            bfs_expanding(
                grid.tiles,
                from,
                to,
                visited@,
                came_from@,
                queue@,
                head as int,
                index,
                dist,
                unseen,
            ),
            current == queue@[head as int],
            in_bounds(current),
            d <= 4,
            bfs_order(came_from@, queue@, index, head as int, d as int),
            forall|dd: int|
                0 <= dd < d ==> match #[trigger] neighbour_of(current, dd) {
                    Some(p) => passable(grid.tiles, p) ==> index.dom().contains(p) && dist[p] <= dist[current] + 1,
                    None => true,
                },
        decreases 4 - d,
    {
        let ghost prev_index = index;
        let ghost prev_dist = dist;
        match neighbour(current, d) {
            None => {
                proof {
                    lemma_order_next_dir(came_from@, queue@, index, head as int, d as int);
                }
            },
            Some(next) => {
                let (Ghost(i2), Ghost(d2), Ghost(u2)) = visit(
                    grid,
                    from,
                    to,
                    head,
                    next,
                    Ghost(d as int),
                    visited,
                    came_from,
                    queue,
                    Ghost(index),
                    Ghost(dist),
                    Ghost(unseen),
                );
                proof {
                    index = i2;
                    dist = d2;
                    unseen = u2;
                }
            },
        }
        proof {
            assert forall|dd: int|
                0 <= dd <= d implies match #[trigger] neighbour_of(current, dd) {
                    Some(p) => passable(grid.tiles, p) ==> index.dom().contains(p) && dist[p] <= dist[current] + 1,
                    None => true,
                } by {
                if dd < d {
                    if let Some(p) = neighbour_of(current, dd) {
                        if passable(grid.tiles, p) {
                            assert(prev_index.dom().contains(p));
                        }
                    }
                }
            }
        }
        d = d + 1;
    }
    proof {
        lemma_expand_done(grid.tiles, queue@, head as int, current, index, dist);
        lemma_order_next_head(came_from@, queue@, index, head as int);
    }
    (Ghost(index), Ghost(dist), Ghost(unseen))
}

/// A shortest walk from `from` to `to` over walkable tiles, by breadth-first
/// search (neighbours tried up, down, left, right). The walk lists every tile
/// after `from`, ending with `to`; it is empty when `from == to`. Of several
/// shortest walks it is the one whose moves come first in dictionary order
/// (up before down before left before right). `None` when no walk exists.
#[verifier::rlimit(50)]
pub fn pathfind(grid: &Grid, from: Pos, to: Pos) -> (r: Option<Vec<Pos>>)
    requires
        from == to || in_bounds(from),
    ensures
        r is Some <==> reachable(grid.tiles, from, to),
        r matches Some(path) ==> is_shortest_path(grid.tiles, from, to, path@),
        r matches Some(path) ==> is_first_shortest_path(grid.tiles, from, to, path@),
{
    if from == to {
        let path: Vec<Pos> = Vec::new();
        assert(is_path(grid.tiles, from, to, path@));
        assert forall|other: Seq<Pos>| #[trigger] is_shortest_path(grid.tiles, from, to, other)
            implies crate::path_order::lex_le(
            crate::path_order::moves(from, path@),
            crate::path_order::moves(from, other),
        ) by {
            assert(other.len() == 0);
            assert(crate::path_order::moves(from, other) =~= crate::path_order::moves(from, path@));
        }
        return Some(path);
    }
    let num: usize = GRID_WIDTH * GRID_HEIGHT;
    let mut visited = filled_bools(num, false);
    let mut came_from = filled_nones(num);
    let mut queue: Vec<Pos> = Vec::new();

    let fid = from.y * GRID_WIDTH + from.x;
    visited.set(fid, true);
    queue.push(from);
    let mut head: usize = 0;
    let ghost mut index: Map<Pos, int> = map![from => 0int];
    let ghost mut dist: Map<Pos, int> = map![from => 0int];
    let ghost mut unseen: Set<int> = vstd::set_lib::set_int_range(0, num_cells()).remove(
        cell_id(from),
    );
    proof {
        vstd::set_lib::lemma_int_range(0, num_cells());
        assert forall|p: Pos| in_bounds(p) implies (visited@[cell_id(p)] <==> #[trigger] index.dom().contains(p)) by {
            if cell_id(p) == cell_id(from) {
                assert(p == from);
            }
        }
        assert forall|p: Pos|
            in_bounds(p) && !index.dom().contains(p) implies #[trigger] unseen.contains(cell_id(p)) by {
            assert(cell_id(p) != cell_id(from));
        }
        assert(bfs_shape(grid.tiles, from, visited@, came_from@, queue@, index, dist));
        assert(queue@ =~= seq![from]);
        lemma_order_init(came_from@, from, index);
    }

    while head < queue.len()
        invariant
            from != to,
            bfs_state(grid.tiles, from, to, visited@, came_from@, queue@, head as int, index, dist, unseen),
            bfs_order(came_from@, queue@, index, head as int, 0),
        decreases num_cells() - head,
    {
        let current = queue[head];
        if current == to {
            return Some(
                reconstruct(
                    grid,
                    from,
                    to,
                    &came_from,
                    Ghost(visited@),
                    Ghost(queue@),
                    Ghost(head as int),
                    Ghost(index),
                    Ghost(dist),
                ),
            );
        }
        let (Ghost(index2), Ghost(dist2), Ghost(unseen2)) = expand(
            grid,
            from,
            to,
            head,
            &mut visited,
            &mut came_from,
            &mut queue,
            Ghost(index),
            Ghost(dist),
            Ghost(unseen),
        );
        proof {
            index = index2;
            dist = dist2;
            unseen = unseen2;
        }
        head = head + 1;
    }
    proof {
        if reachable(grid.tiles, from, to) {
            let path = choose|path: Seq<Pos>| is_path(grid.tiles, from, to, path);
            let bound: int = queue@.len() as int + path.len() as int;
            lemma_walk_bound(
                grid.tiles,
                from,
                visited@,
                came_from@,
                queue@,
                head as int,
                index,
                dist,
                bound,
                path,
            );
            if index.dom().contains(to) {
                assert(queue@[index[to]] == to);
            }
        }
    }
    None
}

/// Reaching `next` from `current` keeps the shape of the search state.
#[verifier::rlimit(50)]
proof fn lemma_visit_keeps_shape(
    tiles: Tiles,
    from: Pos,
    visited: Seq<bool>,
    came: Seq<Option<Pos>>,
    queue: Seq<Pos>,
    index: Map<Pos, int>,
    dist: Map<Pos, int>,
    head: int,
    current: Pos,
    next: Pos,
)
    requires
        bfs_shape(tiles, from, visited, came, queue, index, dist),
        0 <= head < queue.len(),
        current == queue[head],
        forall|i: int| 0 <= i < queue.len() ==> dist[#[trigger] queue[i]] <= dist[current] + 1,
        passable(tiles, next),
        adjacent(current, next),
        !index.dom().contains(next),
    ensures
        ({
            let queue2 = queue.push(next);
            let index2 = index.insert(next, queue.len() as int);
            let dist2 = dist.insert(next, dist[current] + 1);
            &&& bfs_shape(
                tiles,
                from,
                visited.update(cell_id(next), true),
                came.update(cell_id(next), Some(current)),
                queue2,
                index2,
                dist2,
            )
            &&& bfs_closed(tiles, queue, head, index, dist) ==> bfs_closed(
                tiles,
                queue2,
                head,
                index2,
                dist2,
            )
            &&& forall|i: int|
                0 <= i < queue2.len() ==> dist2[#[trigger] queue2[i]] <= dist[current] + 1
            &&& forall|p: Pos| #[trigger] index.dom().contains(p) ==> dist2[p] == dist[p]
        }),
{
    let n = queue.len() as int;
    let queue2 = queue.push(next);
    let index2 = index.insert(next, n);
    let dist2 = dist.insert(next, dist[current] + 1);
    let visited2 = visited.update(cell_id(next), true);
    let came2 = came.update(cell_id(next), Some(current));
    assert(index.dom().contains(current));
    assert(next != from);
    assert forall|p: Pos| in_bounds(p) implies (visited2[cell_id(p)] <==> #[trigger] index2.dom().contains(p)) by {
        if p != next {
            assert(cell_id(p) != cell_id(next));
        }
    }
    assert forall|p: Pos| #[trigger] index2.dom().contains(p) implies in_bounds(p) && 0 <= index2[p] < queue2.len()
        && queue2[index2[p]] == p by {
        if p != next {
            assert(queue2[index[p]] == queue[index[p]]);
        }
    }
    assert forall|i: int| 0 <= i < queue2.len() implies #[trigger] index2.dom().contains(queue2[i]) && index2[queue2[i]] == i by {
        if i < n {
            assert(queue2[i] == queue[i]);
            assert(index.dom().contains(queue[i]));
        }
    }
    assert forall|i: int, j: int|
        0 <= i <= j < queue2.len() implies dist2[#[trigger] queue2[i]] <= dist2[#[trigger] queue2[j]] by {
        if j < n {
            assert(queue2[i] == queue[i] && queue2[j] == queue[j]);
            assert(index.dom().contains(queue[i]) && index.dom().contains(queue[j]));
        } else if i < n {
            assert(queue2[i] == queue[i]);
            assert(index.dom().contains(queue[i]));
            assert(dist[queue[i]] <= dist[current] + 1);
        }
    }
    assert forall|i: int| 0 <= i < queue2.len() implies 0 <= dist2[#[trigger] queue2[i]] <= i by {
        if i < n {
            assert(queue2[i] == queue[i]);
            assert(index.dom().contains(queue[i]));
        } else {
            assert(dist[queue[head]] <= head);
        }
    }
    assert forall|i: int| 1 <= i < queue2.len() implies {
        let p = #[trigger] queue2[i];
        let c = came2[cell_id(p)];
        &&& c is Some
        &&& index2.dom().contains(c->0)
        &&& index2[c->0] < i
        &&& adjacent(c->0, p)
        &&& dist2[p] == dist2[c->0] + 1
        &&& passable(tiles, p)
    } by {
        if i < n {
            let p = queue[i];
            assert(queue2[i] == p);
            assert(index.dom().contains(p));
            assert(cell_id(p) != cell_id(next));
            let c = came[cell_id(p)];
            assert(c is Some && index.dom().contains(c->0));
        }
    }
    assert(bfs_shape(tiles, from, visited2, came2, queue2, index2, dist2));
    if bfs_closed(tiles, queue, head, index, dist) {
        assert forall|i: int, p: Pos|
            0 <= i < head && passable(tiles, p) && adjacent(#[trigger] queue2[i], p)
            implies #[trigger] index2.dom().contains(p) && dist2[p] <= dist2[queue2[i]] + 1 by {
            assert(queue2[i] == queue[i]);
            assert(adjacent(queue[i], p));
            assert(index.dom().contains(p));
            assert(index.dom().contains(queue[i]));
        }
    }
    assert forall|i: int| 0 <= i < queue2.len() implies dist2[#[trigger] queue2[i]] <= dist[current] + 1 by {
        if i < n {
            assert(queue2[i] == queue[i]);
            assert(index.dom().contains(queue[i]));
        }
    }
}

/// Walks back from `to` (the tile at the queue's head) along the recorded
/// predecessors and returns the walk from `from` to `to`.
#[verifier::rlimit(50)]
fn reconstruct(
    grid: &Grid,
    from: Pos,
    to: Pos,
    came_from: &Vec<Option<Pos>>,
    Ghost(visited): Ghost<Seq<bool>>,
    Ghost(queue): Ghost<Seq<Pos>>,
    Ghost(head): Ghost<int>,
    Ghost(index): Ghost<Map<Pos, int>>,
    Ghost(dist): Ghost<Map<Pos, int>>,
) -> (path: Vec<Pos>)
    requires
        from != to,
        bfs_shape(grid.tiles, from, visited, came_from@, queue, index, dist),
        0 <= head < queue.len(),
        queue[head] == to,
        bfs_closed(grid.tiles, queue, head, index, dist),
        forall|i: int| 0 <= i < queue.len() ==> dist[#[trigger] queue[i]] <= dist[to] + 1,
        bfs_order(came_from@, queue, index, head, 0),
    ensures
        is_shortest_path(grid.tiles, from, to, path@),
        is_first_shortest_path(grid.tiles, from, to, path@),
{
    let mut rev: Vec<Pos> = Vec::new();
    let mut pos = to;
    assert(index.dom().contains(queue[head]));
    while pos != from
        invariant
            bfs_shape(grid.tiles, from, visited, came_from@, queue, index, dist),
            index.dom().contains(pos),
            index.dom().contains(to),
            rev@.len() + dist[pos] == dist[to],
            rev@.len() == 0 ==> pos == to,
            rev@.len() > 0 ==> rev@[0] == to && adjacent(pos, rev@.last()),
            forall|i: int|
                0 <= i < rev@.len() ==> passable(grid.tiles, #[trigger] rev@[i]),
            forall|i: int| 0 <= i < rev@.len() - 1 ==> adjacent(#[trigger] rev@[i + 1], rev@[i]),
            tree_path(came_from@, to, dist[to] as nat) == tree_path(
                came_from@,
                pos,
                dist[pos] as nat,
            ) + rev@.reverse(),
        decreases dist[pos],
    {
        proof {
            lemma_parent(grid.tiles, from, visited, came_from@, queue, index, dist, pos);
            lemma_tree_path(grid.tiles, from, visited, came_from@, queue, index, dist, pos);
            let c = came_from@[cell_id(pos)]->0;
            lemma_walk_back(
                tree_path(came_from@, pos, dist[pos] as nat),
                tree_path(came_from@, c, dist[c] as nat),
                pos,
                rev@,
            );
        }
        let ghost c = came_from@[cell_id(pos)];
        rev.push(pos);
        let pid = pos.y * GRID_WIDTH + pos.x;
        pos = came_from[pid].unwrap();
        assert(pos == c->0);
    }
    let path = reversed(&rev);
    proof {
        assert(dist[from] == 0);
        assert(rev@.len() >= 1) by {
            assert(queue[head] == to && head >= 1);
        }
        lemma_reversed_walk(grid.tiles, from, to, rev@, path@);
        lemma_no_shorter(grid.tiles, from, to, visited, came_from@, queue, head, index, dist);
        assert(tree_path(came_from@, from, 0) =~= Seq::<Pos>::empty());
        assert(path@ =~= tree_path(came_from@, to, dist[to] as nat));
        lemma_found_path_is_first(
            grid.tiles,
            from,
            to,
            visited,
            came_from@,
            queue,
            head,
            index,
            dist,
            path@,
        );
    }
    path
}

/// A walk recorded backwards from `to` to a tile next to `from`, reversed, is a
/// path from `from` to `to`.
proof fn lemma_reversed_walk(tiles: Tiles, from: Pos, to: Pos, rev: Seq<Pos>, path: Seq<Pos>)
    requires
        rev.len() >= 1,
        path == rev.reverse(),
        rev[0] == to,
        adjacent(from, rev.last()),
        forall|i: int| 0 <= i < rev.len() ==> passable(tiles, #[trigger] rev[i]),
        forall|i: int| 0 <= i < rev.len() - 1 ==> adjacent(#[trigger] rev[i + 1], rev[i]),
    ensures
        is_path(tiles, from, to, path),
        path.len() == rev.len(),
{
    let n = rev.len() as int;
    assert forall|j: int| 0 <= j < path.len() implies passable(tiles, #[trigger] path[j])
        && adjacent(step_before(from, path, j), path[j]) by {
        assert(path[j] == rev[n - 1 - j]);
        if j > 0 {
            assert(path[j - 1] == rev[n - j]);
            assert(adjacent(rev[(n - 1 - j) + 1], rev[n - 1 - j]));
        }
    }
    assert(path.last() == rev[0]);
}

/// When `to` is at the head of the queue, no walk reaches it in fewer steps
/// than the steps by which it was reached.
proof fn lemma_no_shorter(
    tiles: Tiles,
    from: Pos,
    to: Pos,
    visited: Seq<bool>,
    came: Seq<Option<Pos>>,
    queue: Seq<Pos>,
    head: int,
    index: Map<Pos, int>,
    dist: Map<Pos, int>,
)
    requires
        bfs_shape(tiles, from, visited, came, queue, index, dist),
        0 <= head < queue.len(),
        queue[head] == to,
        bfs_closed(tiles, queue, head, index, dist),
        forall|i: int| 0 <= i < queue.len() ==> dist[#[trigger] queue[i]] <= dist[to] + 1,
    ensures
        forall|other: Seq<Pos>|
            is_path(tiles, from, to, other) ==> dist[to] <= #[trigger] other.len(),
{
    assert(index.dom().contains(queue[head]));
    assert forall|i: int| head <= i < queue.len() implies dist[#[trigger] queue[i]] >= dist[to] by {
        assert(dist[queue[head]] <= dist[queue[i]]);
    }
    assert forall|other: Seq<Pos>| is_path(tiles, from, to, other) implies dist[to]
        <= #[trigger] other.len() by {
        lemma_walk_bound(tiles, from, visited, came, queue, head, index, dist, dist[to], other);
    }
}

/// A reached tile other than the start has a recorded predecessor, reached one
/// step earlier, next to it.
pub proof fn lemma_parent(
    tiles: Tiles,
    from: Pos,
    visited: Seq<bool>,
    came: Seq<Option<Pos>>,
    queue: Seq<Pos>,
    index: Map<Pos, int>,
    dist: Map<Pos, int>,
    pos: Pos,
)
    requires
        bfs_shape(tiles, from, visited, came, queue, index, dist),
        index.dom().contains(pos),
        pos != from,
    ensures
        in_bounds(pos),
        0 <= cell_id(pos) < num_cells(),
        came[cell_id(pos)] is Some,
        index.dom().contains(came[cell_id(pos)]->0),
        adjacent(came[cell_id(pos)]->0, pos),
        dist[pos] == dist[came[cell_id(pos)]->0] + 1,
        dist[came[cell_id(pos)]->0] >= 0,
        passable(tiles, pos),
{
    let i = index[pos];
    assert(queue[i] == pos);
    assert(i != 0);
    let c = came[cell_id(pos)]->0;
    assert(queue[index[c]] == c);
}

// ---------------------------------------------------------------------------
// Laws of the office and of paths
// ---------------------------------------------------------------------------

/// The way from a tile to itself is empty.
pub proof fn law_same_position_empty_path(tiles: Tiles, p: Pos, path: Seq<Pos>)
    ensures
        reachable(tiles, p, p),
        is_shortest_path(tiles, p, p, path) ==> path.len() == 0,
{
    let empty = Seq::<Pos>::empty();
    assert(is_path(tiles, p, p, empty));
}

/// A shortest path never passes through its start.
pub proof fn law_shortest_path_avoids_start(tiles: Tiles, from: Pos, to: Pos, path: Seq<Pos>)
    requires
        is_shortest_path(tiles, from, to, path),
    ensures
        !path.contains(from),
{
    if path.contains(from) {
        let i = choose|i: int| 0 <= i < path.len() && path[i] == from;
        let rest = path.skip(i + 1);
        assert(is_path(tiles, from, to, rest)) by {
            assert forall|j: int| 0 <= j < rest.len() implies passable(tiles, #[trigger] rest[j])
                && adjacent(step_before(from, rest, j), rest[j]) by {
                assert(rest[j] == path[i + 1 + j]);
                assert(passable(tiles, path[i + 1 + j]));
                if j > 0 {
                    assert(rest[j - 1] == path[i + j]);
                }
            }
            if rest.len() == 0 {
                assert(path.last() == path[i]);
            } else {
                assert(rest.last() == path.last());
            }
        }
        assert(path.len() <= rest.len());
    }
}

/// Every tile of a path can be walked on: none is a wall or a desk, and all lie
/// inside the office.
pub proof fn law_path_tiles_walkable(tiles: Tiles, from: Pos, to: Pos, path: Seq<Pos>, i: int)
    requires
        is_path(tiles, from, to, path),
        0 <= i < path.len(),
    ensures
        in_bounds(path[i]),
        cell(tiles, path[i]) != Tile::Wall,
        !(cell(tiles, path[i]) is Desk),
{
    assert(passable(tiles, path[i]));
}

/// The seat of each desk of the default office is that desk's chair.
pub proof fn law_office_seats_are_chairs(i: int)
    requires
        0 <= i < 6,
    ensures
        office_tile(office_desk_positions()[i].x as int, office_desk_positions()[i].y as int)
            == Tile::Chair(i as usize),
{
}

/// Around the water cooler of the default office all eight tiles are floor, so
/// all eight make up the ring, row by row.
pub proof fn law_office_ring(tiles: Tiles)
    requires
        is_office_layout(tiles, 6, true),
    ensures
        overflow_ring_of(tiles) == seq![
            Pos { x: 12, y: 4 },
            Pos { x: 13, y: 4 },
            Pos { x: 14, y: 4 },
            Pos { x: 12, y: 5 },
            Pos { x: 14, y: 5 },
            Pos { x: 12, y: 6 },
            Pos { x: 13, y: 6 },
            Pos { x: 14, y: 6 },
        ],
        forall|i: int| 0 <= i < 8 ==> passable(tiles, #[trigger] overflow_ring_of(tiles)[i]),
{
    reveal_with_fuel(ring_prefix, 9);
    assert(tiles[4][12] == Tile::Floor);
    assert(tiles[4][13] == Tile::Floor);
    assert(tiles[4][14] == Tile::Floor);
    assert(tiles[5][12] == Tile::Floor);
    assert(tiles[5][14] == Tile::Floor);
    assert(tiles[6][12] == Tile::Floor);
    assert(tiles[6][13] == Tile::Floor);
    assert(tiles[6][14] == Tile::Floor);
    assert(overflow_ring_of(tiles) =~= seq![
        Pos { x: 12, y: 4 },
        Pos { x: 13, y: 4 },
        Pos { x: 14, y: 4 },
        Pos { x: 12, y: 5 },
        Pos { x: 14, y: 5 },
        Pos { x: 12, y: 6 },
        Pos { x: 13, y: 6 },
        Pos { x: 14, y: 6 },
    ]);
}

/// Once all four neighbours of the head tile are tried, the head tile is done.
#[verifier::spinoff_prover]
#[verifier::rlimit(30)]
proof fn lemma_expand_done(
    tiles: Tiles,
    queue: Seq<Pos>,
    head: int,
    current: Pos,
    index: Map<Pos, int>,
    dist: Map<Pos, int>,
)
    requires
        0 <= head < queue.len(),
        current == queue[head],
        in_bounds(current),
        bfs_closed(tiles, queue, head, index, dist),
        forall|i: int| 0 <= i <= head ==> dist[#[trigger] queue[i]] <= dist[queue[head]],
        forall|dd: int|
            0 <= dd < 4 ==> match #[trigger] neighbour_of(current, dd) {
                Some(p) => passable(tiles, p) ==> index.dom().contains(p) && dist[p] <= dist[current] + 1,
                None => true,
            },
    ensures
        bfs_closed(tiles, queue, head + 1, index, dist),
{
    assert forall|i: int, p: Pos|
        0 <= i < head + 1 && passable(tiles, p) && adjacent(#[trigger] queue[i], p)
        implies #[trigger] index.dom().contains(p) && dist[p] <= dist[queue[i]] + 1 by {
        if i == head {
            lemma_neighbours_cover(current, p);
            let dd = choose|dd: int| 0 <= dd < 4 && #[trigger] neighbour_of(current, dd) == Some(p);
            assert(neighbour_of(current, dd) == Some(p));
            assert(passable(tiles, p) ==> index.dom().contains(p) && dist[p] <= dist[current] + 1);
        } else {
            lemma_closed_at(tiles, queue, head, index, dist, i, p);
        }
    }
}

/// What `bfs_closed` says of one done tile and one neighbour.
#[verifier::spinoff_prover]
proof fn lemma_closed_at(tiles: Tiles, queue: Seq<Pos>, head: int, index: Map<Pos, int>, dist: Map<Pos, int>, i: int, p: Pos)
    requires
        bfs_closed(tiles, queue, head, index, dist),
        0 <= i < head,
        passable(tiles, p),
        adjacent(queue[i], p),
    ensures
        index.dom().contains(p) && dist[p] <= dist[queue[i]] + 1,
{
    let q = queue[i];
    assert(passable(tiles, p) && adjacent(q, p));
}

} // verus!
