use pixel_agents::grid::{pathfind, Grid, Pos, Tile, GRID_HEIGHT, GRID_WIDTH};

#[test]
fn test_default_office_has_six_desks() {
    let grid = Grid::default_office();
    assert_eq!(grid.desk_positions.len(), 6);

    // all desk_positions should have Chair tiles
    for pos in &grid.desk_positions {
        assert!(
            matches!(grid.tiles[pos.y][pos.x], Tile::Chair(_)),
            "expected Chair at {:?}, got {:?}",
            pos,
            grid.tiles[pos.y][pos.x]
        );
    }
}

#[test]
fn test_default_office_has_walls() {
    let grid = Grid::default_office();

    // corners
    assert_eq!(grid.tiles[0][0], Tile::Wall);
    assert_eq!(grid.tiles[0][GRID_WIDTH - 1], Tile::Wall);
    assert_eq!(grid.tiles[GRID_HEIGHT - 1][0], Tile::Wall);
    assert_eq!(grid.tiles[GRID_HEIGHT - 1][GRID_WIDTH - 1], Tile::Wall);

    // top and bottom edges
    for x in 0..GRID_WIDTH {
        assert_eq!(grid.tiles[0][x], Tile::Wall);
        assert_eq!(grid.tiles[GRID_HEIGHT - 1][x], Tile::Wall);
    }

    // left and right edges
    for y in 0..GRID_HEIGHT {
        assert_eq!(grid.tiles[y][0], Tile::Wall);
        assert_eq!(grid.tiles[y][GRID_WIDTH - 1], Tile::Wall);
    }
}

#[test]
fn test_default_office_has_floor_interior() {
    let grid = Grid::default_office();
    assert_eq!(grid.tiles[1][1], Tile::Floor);
    assert_eq!(grid.tiles[5][5], Tile::Floor);
}

#[test]
fn test_pathfind_straight_line() {
    let grid = Grid::default_office();
    let from = Pos { x: 1, y: 1 };
    let to = Pos { x: 4, y: 1 };
    let path = pathfind(&grid, from, to).expect("should find path");

    // path should not include start, should include destination
    assert!(!path.is_empty());
    assert_eq!(*path.last().unwrap(), to);
    assert!(!path.contains(&from));

    // length should be 3 steps (1,1)->(2,1)->(3,1)->(4,1)
    assert_eq!(path.len(), 3);
}

#[test]
fn test_pathfind_same_position() {
    let grid = Grid::default_office();
    let pos = Pos { x: 5, y: 5 };
    let path = pathfind(&grid, pos, pos).expect("same position should return Some");
    assert!(path.is_empty());
}

#[test]
fn test_pathfind_around_obstacle() {
    // walls at (2,2), (2,3), (2,4) force a detour around the column
    let mut grid = Grid::default_office();
    grid.tiles[2][2] = Tile::Wall;
    grid.tiles[3][2] = Tile::Wall;
    grid.tiles[4][2] = Tile::Wall;

    let from = Pos { x: 1, y: 3 };
    let to = Pos { x: 4, y: 3 };

    let path = pathfind(&grid, from, to).expect("should find detour path");
    assert!(!path.is_empty());
    assert_eq!(*path.last().unwrap(), to);

    // path must avoid the wall tiles
    for step in &path {
        assert!(
            !matches!(grid.tiles[step.y][step.x], Tile::Wall),
            "path stepped on wall at {:?}",
            step
        );
    }

    // detour means longer than direct (direct would be 3 steps)
    assert!(path.len() > 3);
}

#[test]
fn test_pathfind_no_path() {
    let mut grid = Grid::default_office();

    // wall off a section: surround (5,5) with walls
    grid.tiles[4][5] = Tile::Wall;
    grid.tiles[6][5] = Tile::Wall;
    grid.tiles[5][4] = Tile::Wall;
    grid.tiles[5][6] = Tile::Wall;

    let from = Pos { x: 1, y: 1 };
    let to = Pos { x: 5, y: 5 };

    assert!(pathfind(&grid, from, to).is_none());
}

#[test]
fn test_overflow_ring_exists() {
    let grid = Grid::default_office();
    assert!(
        grid.overflow_ring.len() >= 4,
        "expected at least 4 overflow ring tiles, got {}",
        grid.overflow_ring.len()
    );
}

// ---- further cases ----

#[test]
fn office_layout_desks_chairs_cooler() {
    let grid = Grid::default_office();
    let mut id = 0;
    for dy in [3usize, 7] {
        for dx in [3usize, 7, 11] {
            assert_eq!(grid.tiles[dy][dx], Tile::Desk(id));
            assert_eq!(grid.tiles[dy + 1][dx], Tile::Chair(id));
            assert_eq!(grid.desk_positions[id], Pos { x: dx, y: dy + 1 });
            id += 1;
        }
    }
    assert_eq!(grid.tiles[5][13], Tile::WaterCooler);
    assert_eq!(
        grid.overflow_ring,
        vec![
            Pos { x: 12, y: 4 },
            Pos { x: 13, y: 4 },
            Pos { x: 14, y: 4 },
            Pos { x: 12, y: 5 },
            Pos { x: 14, y: 5 },
            Pos { x: 12, y: 6 },
            Pos { x: 13, y: 6 },
            Pos { x: 14, y: 6 },
        ]
    );
}

#[test]
fn is_walkable_by_tile_kind() {
    let grid = Grid::default_office();
    assert!(!grid.is_walkable(Pos { x: 0, y: 0 }));
    assert!(!grid.is_walkable(Pos { x: 3, y: 3 }));
    assert!(grid.is_walkable(Pos { x: 3, y: 4 }));
    assert!(grid.is_walkable(Pos { x: 13, y: 5 }));
    assert!(grid.is_walkable(Pos { x: 1, y: 1 }));
    assert!(!grid.is_walkable(Pos { x: 16, y: 1 }));
    assert!(!grid.is_walkable(Pos { x: 1, y: 12 }));
}

#[test]
fn path_to_a_desk_seat_is_shortest_and_adjacent() {
    let grid = Grid::default_office();
    let from = Pos { x: 8, y: 10 };
    let to = Pos { x: 3, y: 4 };
    let path = pathfind(&grid, from, to).expect("seat reachable");
    // Manhattan distance is 5 + 6 = 11; the desks do not block the way
    assert_eq!(path.len(), 11);
    let mut prev = from;
    for step in &path {
        let d = prev.x.abs_diff(step.x) + prev.y.abs_diff(step.y);
        assert_eq!(d, 1);
        assert!(grid.is_walkable(*step));
        prev = *step;
    }
    assert_eq!(prev, to);
}

#[test]
fn path_to_a_wall_or_outside_is_none() {
    let grid = Grid::default_office();
    assert!(pathfind(&grid, Pos { x: 1, y: 1 }, Pos { x: 0, y: 0 }).is_none());
    assert!(pathfind(&grid, Pos { x: 1, y: 1 }, Pos { x: 3, y: 3 }).is_none());
    assert!(pathfind(&grid, Pos { x: 1, y: 1 }, Pos { x: 40, y: 3 }).is_none());
}

#[test]
fn path_first_step_goes_up_first() {
    // neighbours are tried up, down, left, right
    let grid = Grid::default_office();
    let path = pathfind(&grid, Pos { x: 5, y: 5 }, Pos { x: 6, y: 4 }).unwrap();
    assert_eq!(path, vec![Pos { x: 5, y: 4 }, Pos { x: 6, y: 4 }]);
}

#[test]
fn of_equal_paths_the_first_in_move_order_is_taken() {
    let grid = Grid::default_office();
    // down then right comes before right then down
    let path = pathfind(&grid, Pos { x: 1, y: 1 }, Pos { x: 2, y: 2 }).unwrap();
    assert_eq!(path, vec![Pos { x: 1, y: 2 }, Pos { x: 2, y: 2 }]);
    // up then left comes before left then up
    let path = pathfind(&grid, Pos { x: 2, y: 2 }, Pos { x: 1, y: 1 }).unwrap();
    assert_eq!(path, vec![Pos { x: 2, y: 1 }, Pos { x: 1, y: 1 }]);
    // around the desk at (3, 3): through the left side before the right
    let path = pathfind(&grid, Pos { x: 3, y: 2 }, Pos { x: 3, y: 4 }).unwrap();
    assert_eq!(path, vec![Pos { x: 2, y: 2 }, Pos { x: 2, y: 3 }, Pos { x: 2, y: 4 }, Pos { x: 3, y: 4 }]);
}

#[test]
fn path_lengths_are_the_same_both_ways() {
    let grid = Grid::default_office();
    let pairs = [
        (Pos { x: 8, y: 10 }, Pos { x: 3, y: 4 }),
        (Pos { x: 1, y: 1 }, Pos { x: 14, y: 10 }),
        (Pos { x: 12, y: 5 }, Pos { x: 7, y: 8 }),
    ];
    for (a, b) in pairs {
        let there = pathfind(&grid, a, b).unwrap();
        let back = pathfind(&grid, b, a).unwrap();
        assert_eq!(there.len(), back.len());
    }
}
