use pixel_agents::agent::AgentState;
use pixel_agents::grid::{Grid, Pos, GRID_HEIGHT, GRID_WIDTH, TILE_SIZE};
use pixel_agents::pixels::Rgba;
use pixel_agents::scene::{composite_scene, sorted_by_y, AgentView};

// Body and head colours of hue 120.
const GREEN_BODY: Rgba = Rgba { r: 38, g: 217, b: 38, a: 255 };
const GREEN_HEAD: Rgba = Rgba { r: 112, g: 219, b: 112, a: 255 };

// 1. Empty office produces an image with correct dimensions (256x192)
#[test]
fn test_scene_dimensions() {
    let grid = Grid::default_office();
    let img = composite_scene(&grid, &[]);
    assert_eq!(img.width(), GRID_WIDTH as u32 * TILE_SIZE);
    assert_eq!(img.height(), GRID_HEIGHT as u32 * TILE_SIZE);
    assert_eq!(img.width(), 256);
    assert_eq!(img.height(), 192);
}

// 2. Empty office has non-transparent pixels (walls and floor are drawn)
#[test]
fn test_empty_scene_not_blank() {
    let grid = Grid::default_office();
    let img = composite_scene(&grid, &[]);
    let mut has_opaque = false;
    for y in 0..img.height() {
        for x in 0..img.width() {
            if img.get_pixel(x, y).a == 255 {
                has_opaque = true;
            }
        }
    }
    assert!(has_opaque, "scene should have opaque pixels from tile rendering");
}

// 3. Scene with an agent differs from scene without
#[test]
fn test_agent_appears_in_scene() {
    let grid = Grid::default_office();

    let without_agent = composite_scene(&grid, &[]);

    let agent = AgentView {
        pos: Pos { x: 5, y: 5 },
        body: GREEN_BODY,
        head: GREEN_HEAD,
        state: AgentState::Idle,
        frame: 0,
        direction: 0,
    };
    let with_agent = composite_scene(&grid, &[agent]);

    let mut differs = false;
    for y in 0..192 {
        for x in 0..256 {
            if without_agent.get_pixel(x, y) != with_agent.get_pixel(x, y) {
                differs = true;
            }
        }
    }
    assert!(differs, "scene with agent should differ from scene without agent");
}

// ---- further cases ----

#[test]
fn tiles_are_painted_in_their_colours() {
    let grid = Grid::default_office();
    let img = composite_scene(&grid, &[]);
    // wall at (0,0), floor at (1,1), desk at (3,3), chair at (3,4), cooler at (13,5)
    assert_eq!(img.get_pixel(0, 0), Rgba { r: 100, g: 100, b: 110, a: 255 });
    assert_eq!(img.get_pixel(16, 16), Rgba { r: 60, g: 60, b: 70, a: 255 });
    assert_eq!(img.get_pixel(3 * 16 + 15, 3 * 16 + 15), Rgba { r: 139, g: 90, b: 43, a: 255 });
    assert_eq!(img.get_pixel(3 * 16, 4 * 16), Rgba { r: 80, g: 80, b: 90, a: 255 });
    assert_eq!(img.get_pixel(13 * 16 + 7, 5 * 16 + 7), Rgba { r: 100, g: 150, b: 255, a: 255 });
}

#[test]
fn sprite_sits_centred_and_bottom_aligned() {
    let grid = Grid::default_office();
    let agent = AgentView {
        pos: Pos { x: 5, y: 5 },
        body: GREEN_BODY,
        head: GREEN_HEAD,
        state: AgentState::Idle,
        frame: 0,
        direction: 0,
    };
    let img = composite_scene(&grid, &[agent]);
    let floor = Rgba { r: 60, g: 60, b: 70, a: 255 };
    // sprite columns 2..14 of the tile; head from sprite row 1, body from row 5
    assert_eq!(img.get_pixel(5 * 16 + 2 + 2, 5 * 16 + 5), GREEN_BODY);
    assert_eq!(img.get_pixel(5 * 16 + 2 + 3, 5 * 16 + 1), GREEN_HEAD);
    assert_eq!(img.get_pixel(5 * 16 + 2 + 3, 5 * 16), floor);
    assert_eq!(img.get_pixel(5 * 16 + 2 + 2, 5 * 16 + 7), GREEN_BODY);
    assert_eq!(img.get_pixel(5 * 16 + 2 + 1, 5 * 16 + 7), floor);
    assert_eq!(img.get_pixel(5 * 16 + 2 + 3, 5 * 16 + 2), GREEN_HEAD);
    // transparent sprite pixels leave the floor
    assert_eq!(img.get_pixel(5 * 16, 5 * 16), floor);
}

#[test]
fn lower_agent_is_drawn_over_upper_one() {
    let grid = Grid::default_office();
    let red_body = Rgba { r: 217, g: 38, b: 38, a: 255 };
    let red_head = Rgba { r: 219, g: 112, b: 112, a: 255 };
    let lower = AgentView {
        pos: Pos { x: 5, y: 6 },
        body: GREEN_BODY,
        head: GREEN_HEAD,
        state: AgentState::Idle,
        frame: 0,
        direction: 0,
    };
    let upper = AgentView {
        pos: Pos { x: 5, y: 5 },
        body: red_body,
        head: red_head,
        state: AgentState::Idle,
        frame: 0,
        direction: 0,
    };
    // given lower first, it is still drawn last
    let a = composite_scene(&grid, &[lower, upper]);
    let b = composite_scene(&grid, &[upper, lower]);
    for y in 0..192 {
        for x in 0..256 {
            assert_eq!(a.get_pixel(x, y), b.get_pixel(x, y));
        }
    }
    // two agents on one tile: the later one wins
    let c = composite_scene(&grid, &[upper, AgentView { pos: Pos { x: 5, y: 5 }, ..lower }]);
    assert_eq!(c.get_pixel(5 * 16 + 4, 5 * 16 + 10), GREEN_BODY);
}

#[test]
fn sorting_by_row_is_stable() {
    let at = |x: usize, y: usize, frame: u32| AgentView {
        pos: Pos { x, y },
        body: GREEN_BODY,
        head: GREEN_HEAD,
        state: AgentState::Idle,
        frame,
        direction: 0,
    };
    let agents = [at(1, 7, 0), at(2, 3, 1), at(3, 7, 2), at(4, 1, 3), at(5, 3, 4)];
    let sorted = sorted_by_y(&agents);
    let frames: Vec<u32> = sorted.iter().map(|a| a.frame).collect();
    assert_eq!(frames, vec![3, 1, 4, 0, 2]);
}

#[test]
fn agents_on_distinct_rows_draw_the_same_in_any_order() {
    let grid = Grid::default_office();
    let at = |x: usize, y: usize, body: Rgba| AgentView {
        pos: Pos { x, y },
        body,
        head: GREEN_HEAD,
        state: AgentState::Idle,
        frame: 0,
        direction: 0,
    };
    let red = Rgba { r: 217, g: 38, b: 38, a: 255 };
    let a = at(5, 5, GREEN_BODY);
    let b = at(5, 6, red);
    let c = at(6, 4, GREEN_BODY);
    let one = composite_scene(&grid, &[a, b, c]);
    let two = composite_scene(&grid, &[c, b, a]);
    let three = composite_scene(&grid, &[b, a, c]);
    for y in 0..192 {
        for x in 0..256 {
            assert_eq!(one.get_pixel(x, y), two.get_pixel(x, y));
            assert_eq!(one.get_pixel(x, y), three.get_pixel(x, y));
        }
    }
}
