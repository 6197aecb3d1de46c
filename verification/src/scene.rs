//! Scene compositor: the office tiles, then the agents on top, lower rows first.
use vstd::prelude::*;
use crate::agent::AgentState;
use crate::grid::{cell, Grid, Pos, Tile, Tiles, GRID_HEIGHT, GRID_WIDTH, TILE_SIZE};
use crate::pixels::{fill_rect, in_rect, Rgba, RgbaImage};
use crate::sprites::{generate_sprite, sprite_pixel, SPRITE_HEIGHT, SPRITE_WIDTH};

verus! {

/// Width of the office picture in pixels (256).
pub const SCENE_WIDTH: u32 = 256;

/// Height of the office picture in pixels (192).
pub const SCENE_HEIGHT: u32 = 192;

/// Below this bound a tile coordinate times 16 fits in `u32`; the sprite's
/// offsets are computed from coordinates taken as `u32`.
pub const MAX_AGENT_COORD: u32 = 0x1000_0000;

/// The row whose pixel offset, 2^31 - 16, overflows `i32` when the sprite is
/// bottom-aligned; an agent cannot be drawn there.
pub const OVERFLOW_ROW: u32 = 0x07ff_ffff;

/// An agent as drawn: where it stands, its body and head colours, and what
/// it is doing, its walking frame and the way it faces.
#[derive(Debug, Clone, Copy, PartialEq, Eq)]
pub struct AgentView {
    pub pos: Pos,
    pub body: Rgba,
    pub head: Rgba,
    pub state: AgentState,
    pub frame: u32,
    pub direction: u8,
}

/// The colour a tile is painted with.
pub open spec fn tile_color(t: Tile) -> Rgba {
    match t {
        Tile::Floor => Rgba { r: 60, g: 60, b: 70, a: 255 },
        Tile::Wall => Rgba { r: 100, g: 100, b: 110, a: 255 },
        Tile::Desk(_) => Rgba { r: 139, g: 90, b: 43, a: 255 },
        Tile::Chair(_) => Rgba { r: 80, g: 80, b: 90, a: 255 },
        Tile::WaterCooler => Rgba { r: 100, g: 150, b: 255, a: 255 },
    }
}

fn color_of(t: Tile) -> (c: Rgba)
    ensures
        c == tile_color(t),
{
    match t {
        Tile::Floor => Rgba::opaque(60, 60, 70),
        Tile::Wall => Rgba::opaque(100, 100, 110),
        Tile::Desk(_) => Rgba::opaque(139, 90, 43),
        Tile::Chair(_) => Rgba::opaque(80, 80, 90),
        Tile::WaterCooler => Rgba::opaque(100, 150, 255),
    }
}

/// `agents` with `a` placed after every agent on its row or above it
/// (scanning from the back), so agents on one row keep their order.
pub open spec fn insert_by_y(sorted: Seq<AgentView>, a: AgentView) -> Seq<AgentView>
    decreases sorted.len(),
{
    if sorted.len() == 0 || sorted.last().pos.y <= a.pos.y {
        sorted.push(a)
    } else {
        insert_by_y(sorted.drop_last(), a).push(sorted.last())
    }
}

/// The agents stably sorted by row.
pub open spec fn sort_by_y(agents: Seq<AgentView>) -> Seq<AgentView>
    decreases agents.len(),
{
    if agents.len() == 0 {
        seq![]
    } else {
        insert_by_y(sort_by_y(agents.drop_last()), agents.last())
    }
}

/// Left edge of an agent's sprite: centred in its tile (the column taken as `u32`).
pub open spec fn sprite_left(a: AgentView) -> int {
    (a.pos.x as u32) * TILE_SIZE + (TILE_SIZE - SPRITE_WIDTH) / 2
}

/// Top edge of an agent's sprite: its bottom row on the tile's bottom row (the
/// row taken as `u32`).
pub open spec fn sprite_top(a: AgentView) -> int {
    (a.pos.y as u32) * TILE_SIZE + TILE_SIZE - SPRITE_HEIGHT
}

/// An agent at `p` can be drawn: its coordinates, taken as `u32`, are below
/// `MAX_AGENT_COORD` and its row is not `OVERFLOW_ROW`.
pub open spec fn drawable(p: Pos) -> bool {
    (p.x as u32) < MAX_AGENT_COORD && (p.y as u32) < MAX_AGENT_COORD && (p.y as u32)
        != OVERFLOW_ROW
}

/// Whether an agent at `p` can be drawn.
pub fn is_drawable(p: Pos) -> (r: bool)
    ensures
        r == drawable(p),
{
    let x = p.x as u32;
    let y = p.y as u32;
    x < MAX_AGENT_COORD && y < MAX_AGENT_COORD && y != OVERFLOW_ROW
}

/// What `sprite` (12x16), drawn with its top-left corner at (left, top), shows
/// at (x, y), if anything: its pixel there unless that pixel is fully transparent.
pub open spec fn blit_pixel(sprite: RgbaImage, left: int, top: int, x: int, y: int) -> Option<
    Rgba,
> {
    let sx = x - left;
    let sy = y - top;
    if 0 <= sx < SPRITE_WIDTH && 0 <= sy < SPRITE_HEIGHT && sprite.pixel(sx, sy).a != 0 {
        Some(sprite.pixel(sx, sy))
    } else {
        None
    }
}

/// What an agent's sprite shows at scene pixel (x, y), if anything opaque.
pub open spec fn agent_pixel(a: AgentView, x: int, y: int) -> Option<Rgba> {
    let sx = x - sprite_left(a);
    let sy = y - sprite_top(a);
    if 0 <= sx < SPRITE_WIDTH && 0 <= sy < SPRITE_HEIGHT {
        let p = sprite_pixel(a.body, a.head, a.state, a.frame, a.direction, sx, sy);
        if p.a != 0 {
            Some(p)
        } else {
            None
        }
    } else {
        None
    }
}

/// The scene pixel at (x, y) when `agents` are drawn over the tiles in order:
/// the last agent with an opaque pixel there, else the tile's colour.
pub open spec fn scene_pixel(tiles: Tiles, agents: Seq<AgentView>, x: int, y: int) -> Rgba
    decreases agents.len(),
{
    if agents.len() == 0 {
        tile_color(cell(tiles, Pos { x: (x / 16) as usize, y: (y / 16) as usize }))
    } else {
        match agent_pixel(agents.last(), x, y) {
            Some(p) => p,
            None => scene_pixel(tiles, agents.drop_last(), x, y),
        }
    }
}

/// Inserts `a` into `v` as `insert_by_y` does.
fn insert_sorted(v: &mut Vec<AgentView>, a: AgentView)
    ensures
        final(v)@ == insert_by_y(old(v)@, a),
{
    let mut i = v.len();
    while i > 0 && v[i - 1].pos.y > a.pos.y
        invariant
            i <= v@.len(),
            v@ == old(v)@,
            forall|j: int| i <= j < v@.len() ==> #[trigger] v@[j].pos.y > a.pos.y,
        decreases i,
    {
        i = i - 1;
    }
    proof {
        lemma_insert_at(v@, a, i as int);
    }
    v.insert(i, a);
    assert(v@ =~= old(v)@.take(i as int).push(a) + old(v)@.skip(i as int));
}

proof fn lemma_insert_at(s: Seq<AgentView>, a: AgentView, k: int)
    requires
        0 <= k <= s.len(),
        forall|j: int| k <= j < s.len() ==> #[trigger] s[j].pos.y > a.pos.y,
        k == 0 || s[k - 1].pos.y <= a.pos.y,
    ensures
        insert_by_y(s, a) == s.take(k).push(a) + s.skip(k),
    decreases s.len(),
{
    if k == s.len() {
        assert(s.take(k) =~= s);
        assert(s.skip(k) =~= seq![]);
        assert(s.push(a) =~= s.take(k).push(a) + s.skip(k));
    } else {
        lemma_insert_at(s.drop_last(), a, k);
        assert(s.drop_last().take(k) =~= s.take(k));
        assert(s.drop_last().skip(k).push(s.last()) =~= s.skip(k));
        assert((s.take(k).push(a) + s.drop_last().skip(k)).push(s.last()) =~= s.take(k).push(a)
            + s.skip(k));
    }
}

/// The agents stably sorted by row.
pub fn sorted_by_y(agents: &[AgentView]) -> (r: Vec<AgentView>)
    ensures
        r@ == sort_by_y(agents@),
{
    let mut r: Vec<AgentView> = Vec::new();
    let mut i: usize = 0;
    while i < agents.len()
        invariant
            i <= agents@.len(),
            r@ == sort_by_y(agents@.take(i as int)),
        decreases agents@.len() - i,
    {
        proof {
            assert(agents@.take(i + 1).drop_last() =~= agents@.take(i as int));
        }
        insert_sorted(&mut r, agents[i]);
        i = i + 1;
    }
    assert(agents@.take(agents@.len() as int) =~= agents@);
    r
}

/// Paints the tile at `pos` (a 16x16 square) with its colour.
fn draw_tile(img: &mut RgbaImage, pos: Pos, tile: Tile)
    requires
        old(img).wf(),
        old(img).spec_width() == SCENE_WIDTH,
        old(img).spec_height() == SCENE_HEIGHT,
        pos.x < GRID_WIDTH,
        pos.y < GRID_HEIGHT,
    ensures
        final(img).wf(),
        final(img).spec_width() == SCENE_WIDTH,
        final(img).spec_height() == SCENE_HEIGHT,
        forall|x: int, y: int|
            0 <= x < SCENE_WIDTH && 0 <= y < SCENE_HEIGHT ==> #[trigger] final(img).pixel(x, y)
                == (if x / 16 == pos.x && y / 16 == pos.y {
                tile_color(tile)
            } else {
                old(img).pixel(x, y)
            }),
{
    let color = color_of(tile);
    let px = pos.x as u32 * TILE_SIZE;
    let py = pos.y as u32 * TILE_SIZE;
    fill_rect(img, px, px + TILE_SIZE, py, py + TILE_SIZE, color);
    assert forall|x: int, y: int| 0 <= x < SCENE_WIDTH && 0 <= y < SCENE_HEIGHT implies (#[trigger] in_rect(
        x,
        y,
        px as int,
        px + 16,
        py as int,
        py + 16,
    ) <==> (x / 16 == pos.x && y / 16 == pos.y)) by {
        assert(px == pos.x * 16 && py == pos.y * 16);
    }
}

/// Copies the opaque pixels of a 12x16 `sprite` onto `img`, centred on tile
/// `pos` with the sprite's bottom row on the tile's bottom row; fully
/// transparent pixels and pixels off the image change nothing.
fn blit_sprite(img: &mut RgbaImage, sprite: &RgbaImage, pos: Pos)
    requires
        old(img).wf(),
        sprite.wf(),
        sprite.spec_width() == SPRITE_WIDTH,
        sprite.spec_height() == SPRITE_HEIGHT,
        pos.x < OVERFLOW_ROW,
        pos.y < OVERFLOW_ROW,
    ensures
        final(img).wf(),
        final(img).spec_width() == old(img).spec_width(),
        final(img).spec_height() == old(img).spec_height(),
        forall|x: int, y: int|
            0 <= x < old(img).spec_width() && 0 <= y < old(img).spec_height()
                ==> #[trigger] final(img).pixel(x, y) == match blit_pixel(
                *sprite,
                pos.x * 16 + 2,
                pos.y * 16,
                x,
                y,
            ) {
                Some(p) => p,
                None => old(img).pixel(x, y),
            },
{
    let ghost start = *img;
    let ghost left = pos.x * 16 + 2;
    let ghost top = pos.y * 16;
    let tile_px = pos.x as u32 * TILE_SIZE;
    let tile_py = pos.y as u32 * TILE_SIZE;
    // centre horizontally; bottom-align vertically
    let h_offset: i32 = ((TILE_SIZE as i32) - (SPRITE_WIDTH as i32)) / 2;
    let v_offset: i32 = tile_py as i32 + TILE_SIZE as i32 - SPRITE_HEIGHT as i32;
    assert(h_offset == 2);
    let w = img.width();
    let h = img.height();
    let mut sy: u32 = 0;
    while sy < SPRITE_HEIGHT
        invariant
            sy <= SPRITE_HEIGHT,
            img.wf(),
            img.spec_width() == start.spec_width() == w,
            img.spec_height() == start.spec_height() == h,
            sprite.wf(),
            sprite.spec_width() == SPRITE_WIDTH,
            sprite.spec_height() == SPRITE_HEIGHT,
            tile_px == pos.x * 16,
            v_offset == pos.y * 16,
            h_offset == 2,
            left == pos.x * 16 + 2,
            top == pos.y * 16,
            pos.x < OVERFLOW_ROW,
            pos.y < OVERFLOW_ROW,
            forall|x: int, y: int|
                0 <= x < w && 0 <= y < h ==> #[trigger] img.pixel(x, y) == (if y - top < sy {
                    match blit_pixel(*sprite, left, top, x, y) {
                        Some(p) => p,
                        None => start.pixel(x, y),
                    }
                } else {
                    start.pixel(x, y)
                }),
        decreases SPRITE_HEIGHT - sy,
    {
        let mut sx: u32 = 0;
        while sx < SPRITE_WIDTH
            invariant
                sy < SPRITE_HEIGHT,
                sx <= SPRITE_WIDTH,
                img.wf(),
                img.spec_width() == start.spec_width() == w,
                img.spec_height() == start.spec_height() == h,
                sprite.wf(),
                sprite.spec_width() == SPRITE_WIDTH,
                sprite.spec_height() == SPRITE_HEIGHT,
                tile_px == pos.x * 16,
                v_offset == pos.y * 16,
                h_offset == 2,
                left == pos.x * 16 + 2,
                top == pos.y * 16,
                pos.x < OVERFLOW_ROW,
                pos.y < OVERFLOW_ROW,
                forall|x: int, y: int|
                    0 <= x < w && 0 <= y < h ==> #[trigger] img.pixel(x, y) == (if y - top < sy
                        || (y - top == sy && x - left < sx) {
                        match blit_pixel(*sprite, left, top, x, y) {
                            Some(p) => p,
                            None => start.pixel(x, y),
                        }
                    } else {
                        start.pixel(x, y)
                    }),
            decreases SPRITE_WIDTH - sx,
        {
            let pixel = sprite.get_pixel(sx, sy);
            if pixel.a != 0 {
                let ix = tile_px as i32 + h_offset + sx as i32;
                let iy = v_offset + sy as i32;
                if ix >= 0 && iy >= 0 && (ix as u32) < w && (iy as u32) < h {
                    img.put_pixel(ix as u32, iy as u32, pixel);
                }
            }
            sx = sx + 1;
        }
        sy = sy + 1;
    }
}

/// Composites the office: every tile in its colour, then each agent's sprite,
/// agents on lower rows (smaller y) first so that agents further down are drawn
/// over them.
pub fn composite_scene(grid: &Grid, agents: &[AgentView]) -> (img: RgbaImage)
    requires
        forall|i: int| 0 <= i < agents@.len() ==> drawable(#[trigger] agents@[i].pos),
    ensures
        img.wf(),
        img.spec_width() == SCENE_WIDTH,
        img.spec_height() == SCENE_HEIGHT,
        forall|x: int, y: int|
            0 <= x < SCENE_WIDTH && 0 <= y < SCENE_HEIGHT ==> #[trigger] img.pixel(x, y)
                == scene_pixel(grid.tiles, sort_by_y(agents@), x, y),
{
    let width = GRID_WIDTH as u32 * TILE_SIZE;
    let height = GRID_HEIGHT as u32 * TILE_SIZE;
    let mut img = RgbaImage::new(width, height);

    // tiles
    let mut ty: usize = 0;
    while ty < GRID_HEIGHT
        invariant
            ty <= GRID_HEIGHT,
            img.wf(),
            img.spec_width() == SCENE_WIDTH,
            img.spec_height() == SCENE_HEIGHT,
            forall|x: int, y: int|
                0 <= x < SCENE_WIDTH && 0 <= y < SCENE_HEIGHT ==> #[trigger] img.pixel(x, y) == (
                if y / 16 < ty {
                    tile_color(grid.tiles[y / 16][x / 16])
                } else {
                    Rgba::transparent()
                }),
        decreases GRID_HEIGHT - ty,
    {
        let mut tx: usize = 0;
        while tx < GRID_WIDTH
            invariant
                ty < GRID_HEIGHT,
                tx <= GRID_WIDTH,
                img.wf(),
                img.spec_width() == SCENE_WIDTH,
                img.spec_height() == SCENE_HEIGHT,
                forall|x: int, y: int|
                    0 <= x < SCENE_WIDTH && 0 <= y < SCENE_HEIGHT ==> #[trigger] img.pixel(x, y)
                        == (if y / 16 < ty || (y / 16 == ty && x / 16 < tx) {
                        tile_color(grid.tiles[y / 16][x / 16])
                    } else {
                        Rgba::transparent()
                    }),
            decreases GRID_WIDTH - tx,
        {
            let pos = Pos { x: tx, y: ty };
            let tile = grid.tiles[ty][tx];
            draw_tile(&mut img, pos, tile);
            tx = tx + 1;
        }
        ty = ty + 1;
    }

    // agents, lower rows first
    let sorted = sorted_by_y(agents);
    proof {
        lemma_sort_keeps_members(agents@);
    }
    let mut k: usize = 0;
    while k < sorted.len()
        invariant
            k <= sorted@.len(),
            sorted@ == sort_by_y(agents@),
            forall|i: int| 0 <= i < sorted@.len() ==> drawable(#[trigger] sorted@[i].pos),
            img.wf(),
            img.spec_width() == SCENE_WIDTH,
            img.spec_height() == SCENE_HEIGHT,
            forall|x: int, y: int|
                0 <= x < SCENE_WIDTH && 0 <= y < SCENE_HEIGHT ==> #[trigger] img.pixel(x, y)
                    == scene_pixel(grid.tiles, sorted@.take(k as int), x, y),
        decreases sorted@.len() - k,
    {
        let a = sorted[k];
        let px = a.pos.x as u32;
        let py = a.pos.y as u32;
        // an agent off the office draws nothing on it
        if px < GRID_WIDTH as u32 && py < GRID_HEIGHT as u32 {
            let sprite = generate_sprite(a.body, a.head, a.state, a.frame, a.direction);
            let ghost before = img;
            blit_sprite(&mut img, &sprite, Pos { x: px as usize, y: py as usize });
            proof {
                assert forall|x: int, y: int|
                    0 <= x < SCENE_WIDTH && 0 <= y < SCENE_HEIGHT implies #[trigger] agent_pixel(
                    a,
                    x,
                    y,
                ) == blit_pixel(sprite, px * 16 + 2, py * 16, x, y) by {
                    let sx = x - (px * 16 + 2);
                    let sy = y - py * 16;
                    if 0 <= sx < SPRITE_WIDTH && 0 <= sy < SPRITE_HEIGHT {
                        assert(sprite.pixel(sx, sy) == sprite_pixel(
                            a.body,
                            a.head,
                            a.state,
                            a.frame,
                            a.direction,
                            sx,
                            sy,
                        ));
                    }
                }
            }
        } else {
            proof {
                assert forall|x: int, y: int|
                    0 <= x < SCENE_WIDTH && 0 <= y < SCENE_HEIGHT implies #[trigger] agent_pixel(
                    a,
                    x,
                    y,
                ) is None by {}
            }
        }
        proof {
            assert(sorted@.take(k + 1).drop_last() =~= sorted@.take(k as int));
            assert(sorted@.take(k + 1).last() == a);
        }
        k = k + 1;
    }
    assert(sorted@.take(sorted@.len() as int) =~= sorted@);
    img
}

/// Sorting keeps the agents: every sorted agent is one of the given ones.
pub proof fn lemma_sort_keeps_members(agents: Seq<AgentView>)
    ensures
        sort_by_y(agents).len() == agents.len(),
        forall|i: int|
            0 <= i < sort_by_y(agents).len() ==> agents.contains(#[trigger] sort_by_y(agents)[i]),
    decreases agents.len(),
{
    if agents.len() > 0 {
        lemma_sort_keeps_members(agents.drop_last());
        lemma_insert_members(sort_by_y(agents.drop_last()), agents.last());
        assert forall|i: int|
            0 <= i < sort_by_y(agents).len() implies agents.contains(
            #[trigger] sort_by_y(agents)[i],
        ) by {
            let b = sort_by_y(agents)[i];
            if b == agents.last() {
                assert(agents[agents.len() - 1] == b);
            } else {
                let j = choose|j: int|
                    0 <= j < sort_by_y(agents.drop_last()).len() && sort_by_y(agents.drop_last())[j]
                        == b;
                assert(agents.drop_last().contains(b));
                let m = choose|m: int| 0 <= m < agents.drop_last().len() && agents.drop_last()[m] == b;
                assert(agents[m] == b);
            }
        }
    }
}

proof fn lemma_insert_members(s: Seq<AgentView>, a: AgentView)
    ensures
        insert_by_y(s, a).len() == s.len() + 1,
        forall|i: int|
            0 <= i < insert_by_y(s, a).len() ==> #[trigger] insert_by_y(s, a)[i] == a || exists|
                j: int,
            |
                0 <= j < s.len() && s[j] == insert_by_y(s, a)[i],
    decreases s.len(),
{
    if s.len() > 0 && s.last().pos.y > a.pos.y {
        lemma_insert_members(s.drop_last(), a);
        assert forall|i: int| 0 <= i < insert_by_y(s, a).len() implies #[trigger] insert_by_y(s, a)[i]
            == a || exists|j: int| 0 <= j < s.len() && s[j] == insert_by_y(s, a)[i] by {
            let r = insert_by_y(s, a);
            if i == r.len() - 1 {
                assert(s[s.len() - 1] == r[i]);
            } else {
                let r0 = insert_by_y(s.drop_last(), a);
                assert(r[i] == r0[i]);
                if r0[i] != a {
                    let j = choose|j: int| 0 <= j < s.drop_last().len() && s.drop_last()[j] == r0[i];
                    assert(s[j] == r[i]);
                }
            }
        }
    } else {
        assert forall|i: int| 0 <= i < insert_by_y(s, a).len() implies #[trigger] insert_by_y(s, a)[i]
            == a || exists|j: int| 0 <= j < s.len() && s[j] == insert_by_y(s, a)[i] by {
            if i < s.len() {
                assert(s[i] == insert_by_y(s, a)[i]);
            }
        }
    }
}

/// Agents in order of rows: no agent comes after one on a lower row.
pub open spec fn sorted_by_row(s: Seq<AgentView>) -> bool {
    forall|i: int, j: int| 0 <= i < j < s.len() ==> s[i].pos.y <= s[j].pos.y
}

proof fn lemma_insert_sorted(s: Seq<AgentView>, a: AgentView)
    requires
        sorted_by_row(s),
    ensures
        sorted_by_row(insert_by_y(s, a)),
        insert_by_y(s, a).len() == s.len() + 1,
    decreases s.len(),
{
    if s.len() == 0 || s.last().pos.y <= a.pos.y {
    } else {
        let t = s.drop_last();
        lemma_insert_sorted(t, a);
        lemma_insert_members(t, a);
        let r = insert_by_y(t, a);
        assert forall|i: int, j: int| 0 <= i < j < r.len() + 1 implies r.push(s.last())[i].pos.y
            <= r.push(s.last())[j].pos.y by {
            if j == r.len() {
                // every element of r is a or an element of t, all on rows up to s.last()'s
                if r[i] != a {
                    let k = choose|k: int| 0 <= k < t.len() && t[k] == r[i];
                    assert(s[k] == t[k]);
                }
            }
        }
    }
}

/// Sorting puts the agents in order of rows, and agents on one row keep the order
/// they were given in.
pub proof fn law_sort_by_row(agents: Seq<AgentView>)
    ensures
        sorted_by_row(sort_by_y(agents)),
        sort_by_y(agents).len() == agents.len(),
    decreases agents.len(),
{
    if agents.len() > 0 {
        law_sort_by_row(agents.drop_last());
        lemma_insert_sorted(sort_by_y(agents.drop_last()), agents.last());
    }
}

/// No two agents stand on the same row.
pub open spec fn distinct_rows(s: Seq<AgentView>) -> bool {
    forall|i: int, j: int| 0 <= i < j < s.len() ==> s[i].pos.y != s[j].pos.y
}

/// Inserting by row puts the agent at some place of the sequence.
proof fn lemma_insert_by_y_places(u: Seq<AgentView>, a: AgentView)
    ensures
        exists|k: int| 0 <= k <= u.len() && insert_by_y(u, a) == u.insert(k, a),
    decreases u.len(),
{
    if u.len() == 0 || u.last().pos.y <= a.pos.y {
        assert(insert_by_y(u, a) =~= u.insert(u.len() as int, a));
    } else {
        let t = u.drop_last();
        lemma_insert_by_y_places(t, a);
        let k = choose|k: int| 0 <= k <= t.len() && insert_by_y(t, a) == t.insert(k, a);
        assert(insert_by_y(u, a) =~= u.insert(k, a));
    }
}

/// Sorting keeps the agents, each as often as it was given, and keeps the rows
/// distinct when they were.
proof fn lemma_sort_permutes(s: Seq<AgentView>)
    ensures
        sort_by_y(s).to_multiset() == s.to_multiset(),
        distinct_rows(s) ==> distinct_rows(sort_by_y(s)),
    decreases s.len(),
{
    broadcast use vstd::seq_lib::group_to_multiset_ensures;

    if s.len() > 0 {
        let t = s.drop_last();
        let a = s.last();
        lemma_sort_permutes(t);
        lemma_sort_keeps_members(t);
        let u = sort_by_y(t);
        lemma_insert_by_y_places(u, a);
        let k = choose|k: int| 0 <= k <= u.len() && insert_by_y(u, a) == u.insert(k, a);
        assert(s =~= t.push(a));
        assert(sort_by_y(s).to_multiset() =~= s.to_multiset());
        if distinct_rows(s) {
            let r = u.insert(k, a);
            assert forall|i: int| 0 <= i < u.len() implies (#[trigger] u[i]).pos.y != a.pos.y by {
                let m = choose|m: int| 0 <= m < t.len() && t[m] == u[i];
                assert(s[m] == t[m]);
                assert(s[s.len() - 1] == a);
            }
            assert forall|i: int, j: int| 0 <= i < j < r.len() implies r[i].pos.y != r[j].pos.y by {
                if i < k {
                    assert(r[i] == u[i]);
                } else if i > k {
                    assert(r[i] == u[i - 1]);
                }
                if j < k {
                    assert(r[j] == u[j]);
                } else if j > k {
                    assert(r[j] == u[j - 1]);
                }
            }
        }
    }
}

/// Two row-sorted sequences with distinct rows that hold the same agents are
/// the same sequence.
proof fn lemma_sorted_unique(u: Seq<AgentView>, v: Seq<AgentView>)
    requires
        sorted_by_row(u),
        sorted_by_row(v),
        distinct_rows(u),
        distinct_rows(v),
        u.to_multiset() == v.to_multiset(),
    ensures
        u == v,
    decreases u.len(),
{
    broadcast use vstd::seq_lib::group_to_multiset_ensures;
    broadcast use vstd::multiset::group_multiset_axioms;

    u.to_multiset_ensures();
    v.to_multiset_ensures();
    assert(u.len() == u.to_multiset().len());
    assert(v.len() == v.to_multiset().len());
    assert(u.len() == v.len());
    if u.len() > 0 {
        let n = u.len() - 1;
        let a = u.last();
        let b = v.last();
        assert(u.contains(a)) by {
            assert(u[n] == a);
        }
        assert(v.contains(b)) by {
            assert(v[n] == b);
        }
        assert(v.to_multiset().count(a) > 0);
        assert(u.to_multiset().count(b) > 0);
        let ka = choose|k: int| 0 <= k < v.len() && v[k] == a;
        let kb = choose|k: int| 0 <= k < u.len() && u[k] == b;
        assert(a.pos.y <= b.pos.y);
        assert(b.pos.y <= a.pos.y);
        assert(kb == n);
        assert(a == b);
        let u1 = u.drop_last();
        let v1 = v.drop_last();
        assert(u =~= u1.push(a));
        assert(v =~= v1.push(a));
        assert(u1.to_multiset() =~= u.to_multiset().remove(a));
        assert(v1.to_multiset() =~= v.to_multiset().remove(a));
        lemma_sorted_unique(u1, v1);
    }
}

/// A permutation of agents on distinct rows has distinct rows too.
proof fn lemma_permutation_distinct_rows(s: Seq<AgentView>, t: Seq<AgentView>)
    requires
        distinct_rows(s),
        s.to_multiset() == t.to_multiset(),
    ensures
        distinct_rows(t),
{
    broadcast use vstd::seq_lib::group_to_multiset_ensures;
    broadcast use vstd::multiset::group_multiset_axioms;

    assert forall|i: int, j: int| 0 <= i < j < t.len() implies t[i].pos.y != t[j].pos.y by {
        if t[i].pos.y == t[j].pos.y {
            let e = t[i];
            assert(t.contains(e));
            assert(s.to_multiset().count(e) > 0);
            let p = choose|p: int| 0 <= p < s.len() && s[p] == e;
            assert(t.contains(t[j]));
            assert(s.to_multiset().count(t[j]) > 0);
            let q = choose|q: int| 0 <= q < s.len() && s[q] == t[j];
            assert(p == q);
            // e stands twice in t but once in s
            assert(t.remove(j)[i] == e);
            assert(t.remove(j).contains(e));
            assert(t.remove(j).to_multiset() == t.to_multiset().remove(t[j]));
            assert(t.to_multiset().remove(e).count(e) > 0);
            assert forall|m: int| 0 <= m < s.remove(p).len() implies #[trigger] s.remove(p)[m] != e by {
                if m < p {
                    assert(s.remove(p)[m] == s[m]);
                } else {
                    assert(s.remove(p)[m] == s[m + 1]);
                }
            }
            assert(!s.remove(p).contains(e));
            assert(s.remove(p).to_multiset() == s.to_multiset().remove(e));
        }
    }
}

/// When no two agents share a row, the order in which the agents are given
/// does not matter: any permutation of them is drawn as the same picture.
pub proof fn law_picture_ignores_order(tiles: Tiles, s: Seq<AgentView>, t: Seq<AgentView>)
    requires
        distinct_rows(s),
        s.to_multiset() == t.to_multiset(),
    ensures
        sort_by_y(s) == sort_by_y(t),
        forall|x: int, y: int|
            #[trigger] scene_pixel(tiles, sort_by_y(s), x, y) == scene_pixel(
                tiles,
                sort_by_y(t),
                x,
                y,
            ),
{
    lemma_permutation_distinct_rows(s, t);
    lemma_sort_permutes(s);
    lemma_sort_permutes(t);
    law_sort_by_row(s);
    law_sort_by_row(t);
    lemma_sorted_unique(sort_by_y(s), sort_by_y(t));
}

} // verus!
