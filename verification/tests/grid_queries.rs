use walkmap::consts::{NOT_WALKABLE, UNKNOWN, WALKABLE};
use walkmap::scratch::Scratch;
use walkmap::{
    can_walk_path, is_walkable, prepare_map, Coord, GData, GGeometry, GMap, GSpawn, Grid,
    PrepareError, World,
};

fn coord(v: f32) -> Coord {
    Coord { bits: v.to_bits() }
}

fn spawn(x: f32, y: f32) -> GSpawn {
    GSpawn { x: coord(x), y: coord(y) }
}

fn geometry(
    min_x: i32,
    min_y: i32,
    max_x: i32,
    max_y: i32,
    x_lines: Vec<Vec<i32>>,
    y_lines: Vec<Vec<i32>>,
) -> GGeometry {
    GGeometry { min_x, max_x, min_y, max_y, x_lines: Some(x_lines), y_lines: Some(y_lines) }
}

fn map(name: &str, spawns: Vec<GSpawn>) -> GMap {
    GMap { doors: Vec::new(), ignore: None, name: name.to_string(), npcs: None, spawns }
}

fn world_of(name: &str, geometry: GGeometry, spawns: Vec<GSpawn>) -> GData {
    GData {
        geometry: vec![(name.to_string(), geometry)],
        maps: vec![(name.to_string(), map(name, spawns))],
        npcs: Vec::new(),
        version: 1,
    }
}

fn grid_from_rows(rows: &[&str], min_x: i32, min_y: i32) -> Grid {
    let height = rows.len() as i32;
    let width = rows[0].len() as i32;
    let mut scratch = Scratch::new(width, height);
    for (y, row) in rows.iter().enumerate() {
        for (x, ch) in row.chars().enumerate() {
            let value = match ch {
                '.' => WALKABLE,
                '#' => NOT_WALKABLE,
                _ => UNKNOWN,
            };
            scratch.set(x as i32, y as i32, value);
        }
    }
    Grid::from_scratch(&scratch, min_x, min_y)
}

/// The line walk as it is usually written, with one branch for each major
/// axis; cells outside the grid count as blocked.
fn reference_walk(grid: &Grid, x1: i32, y1: i32, x2: i32, y2: i32) -> bool {
    let open = |x: i64, y: i64| -> bool {
        if x < 0 || y < 0 || x >= grid.width as i64 || y >= grid.height as i64 {
            return false;
        }
        let index = y * grid.width as i64 + x;
        grid.data.get(index as usize).unwrap_or(false)
    };
    let mut x = (x1 - grid.min_x) as i64;
    let mut y = (y1 - grid.min_y) as i64;
    let mut dx = (x2 - x1) as i64;
    let mut dy = (y2 - y1) as i64;
    if !open(x, y) {
        return false;
    }
    let y_step = if dy < 0 {
        dy = -dy;
        -1
    } else {
        1
    };
    let x_step = if dx < 0 {
        dx = -dx;
        -1
    } else {
        1
    };
    let ddy = 2 * dy;
    let ddx = 2 * dx;
    if ddx >= ddy {
        let mut error_prev = dx;
        let mut error = dx;
        for _ in 0..dx {
            x += x_step;
            error += ddy;
            if error > ddx {
                y += y_step;
                error -= ddx;
                if error + error_prev < ddx {
                    if !open(x, y - y_step) {
                        return false;
                    }
                } else if error + error_prev > ddx {
                    if !open(x - x_step, y) {
                        return false;
                    }
                } else {
                    if !open(x, y - y_step) {
                        return false;
                    }
                    if !open(x - x_step, y) {
                        return false;
                    }
                }
            }
            if !open(x, y) {
                return false;
            }
            error_prev = error;
        }
    } else {
        let mut error_prev = dy;
        let mut error = dy;
        for _ in 0..dy {
            y += y_step;
            error += ddx;
            if error > ddy {
                x += x_step;
                error -= ddy;
                if error + error_prev < ddy {
                    if !open(x - x_step, y) {
                        return false;
                    }
                } else if error + error_prev > ddy {
                    if !open(x, y - y_step) {
                        return false;
                    }
                } else {
                    if !open(x - x_step, y) {
                        return false;
                    }
                    if !open(x, y - y_step) {
                        return false;
                    }
                }
            }
            if !open(x, y) {
                return false;
            }
            error_prev = error;
        }
    }
    true
}

/// Whether the segment touches the closed unit square around `(cx, cy)`.
fn touches(x1: i32, y1: i32, x2: i32, y2: i32, cx: i32, cy: i32) -> bool {
    let (x1, y1, x2, y2, cx, cy) =
        (x1 as i64, y1 as i64, x2 as i64, y2 as i64, cx as i64, cy as i64);
    cx >= x1.min(x2)
        && cx <= x1.max(x2)
        && cy >= y1.min(y2)
        && cy <= y1.max(y2)
        && 2 * ((y2 - y1) * (cx - x1) - (x2 - x1) * (cy - y1)).abs()
            <= (x2 - x1).abs() + (y2 - y1).abs()
}

#[test]
fn minimal_map() {
    let g = world_of("m", geometry(0, 0, 10, 10, vec![], vec![vec![5, 0, 10]]), vec![spawn(2.5, 2.5)]);
    let mut world = World::new();
    let site = prepare_map(&mut world, &g, &"m".to_string());
    assert!(site.is_ok());
    assert_eq!(is_walkable(&world, "m", 2, 2), true);
    assert_eq!(is_walkable(&world, "m", 4, 5), false);
    assert_eq!(can_walk_path(&world, "m", 2, 2, 2, 0), true);
    assert_eq!(can_walk_path(&world, "m", 2, 2, 2, 8), false);
}

#[test]
fn minimal_map_every_cell() {
    let g = world_of("m", geometry(0, 0, 10, 10, vec![], vec![vec![5, 0, 10]]), vec![spawn(2.5, 2.5)]);
    let mut world = World::new();
    let site = prepare_map(&mut world, &g, &"m".to_string()).unwrap();
    for y in 0..10 {
        for x in 0..10 {
            // The wall at row 5 blocks rows 3 to 11; the fill reaches rows 0 to 2.
            let expected = y < 3;
            assert_eq!(is_walkable(&world, "m", x, y), expected);
            let state = site.scratch.get(x, y);
            if y < 3 {
                assert_eq!(state, WALKABLE);
            } else if y < 12 {
                assert_eq!(state, NOT_WALKABLE);
            }
        }
    }
}

#[test]
fn two_regions_only_the_spawn_side_is_walkable() {
    let g = world_of(
        "split",
        geometry(0, 0, 12, 30, vec![], vec![vec![10, 0, 12]]),
        vec![spawn(3.0, 2.0)],
    );
    let mut world = World::new();
    let site = prepare_map(&mut world, &g, &"split".to_string()).unwrap();
    for x in 0..12 {
        for y in 0..8 {
            assert_eq!(site.scratch.get(x, y), WALKABLE);
            assert!(is_walkable(&world, "split", x, y));
        }
        for y in 8..17 {
            assert_eq!(site.scratch.get(x, y), NOT_WALKABLE);
            assert!(!is_walkable(&world, "split", x, y));
        }
        for y in 17..30 {
            assert_eq!(site.scratch.get(x, y), UNKNOWN);
            assert!(!is_walkable(&world, "split", x, y));
        }
    }
}

#[test]
fn wall_clearance_is_asymmetric() {
    // One wall cell wide at column 20, row 20, in a 40 by 40 box.
    let g = world_of(
        "pad",
        geometry(0, 0, 40, 40, vec![], vec![vec![20, 20, 20]]),
        vec![spawn(1.0, 1.0)],
    );
    let mut world = World::new();
    prepare_map(&mut world, &g, &"pad".to_string()).unwrap();
    for y in 0..40 {
        for x in 0..40 {
            let blocked = (18..27).contains(&y) && (12..28).contains(&x);
            assert_eq!(is_walkable(&world, "pad", x, y), !blocked, "cell {} {}", x, y);
        }
    }
}

#[test]
fn x_line_clearance() {
    let g = world_of(
        "col",
        geometry(0, 0, 40, 40, vec![vec![20, 10, 12]], vec![]),
        vec![spawn(1.0, 1.0)],
    );
    let mut world = World::new();
    prepare_map(&mut world, &g, &"col".to_string()).unwrap();
    for y in 0..40 {
        for x in 0..40 {
            let blocked = (12..28).contains(&x) && (8..19).contains(&y);
            assert_eq!(is_walkable(&world, "col", x, y), !blocked, "cell {} {}", x, y);
        }
    }
}

#[test]
fn world_offset_is_applied() {
    let g = world_of(
        "off",
        geometry(-100, 50, -90, 60, vec![], vec![vec![55, -100, -90]]),
        vec![spawn(-97.5, 51.5)],
    );
    let mut world = World::new();
    prepare_map(&mut world, &g, &"off".to_string()).unwrap();
    assert!(is_walkable(&world, "off", -98, 52));
    assert!(is_walkable(&world, "off", -100, 50));
    assert!(!is_walkable(&world, "off", -96, 55));
    assert!(!is_walkable(&world, "off", -101, 50));
    assert!(!is_walkable(&world, "off", -100, 49));
    assert!(!is_walkable(&world, "off", -100, 60));
    assert!(can_walk_path(&world, "off", -100, 50, -91, 52));
    assert!(!can_walk_path(&world, "off", -100, 50, -91, 53));
}

#[test]
fn every_spawn_outside_walls_is_walkable() {
    let spawns = vec![spawn(2.5, 2.5), spawn(9.9, 0.1), spawn(0.0, 2.9)];
    let g = world_of("m", geometry(0, 0, 10, 10, vec![], vec![vec![5, 0, 10]]), spawns.clone());
    let mut world = World::new();
    prepare_map(&mut world, &g, &"m".to_string()).unwrap();
    for s in &spawns {
        assert!(is_walkable(&world, "m", s.x.cell(), s.y.cell()));
    }
}

#[test]
fn spawn_inside_a_wall_fills_nothing() {
    let g = world_of("m", geometry(0, 0, 10, 10, vec![], vec![vec![5, 0, 10]]), vec![spawn(4.0, 5.0)]);
    let mut world = World::new();
    let site = prepare_map(&mut world, &g, &"m".to_string()).unwrap();
    for y in 0..10 {
        for x in 0..10 {
            assert!(!is_walkable(&world, "m", x, y));
            assert_eq!(site.scratch.get(x, y), if y < 3 { UNKNOWN } else { NOT_WALKABLE });
        }
    }
}

#[test]
fn unknown_map_is_never_walkable() {
    let world = World::new();
    assert_eq!(is_walkable(&world, "nowhere", 0, 0), false);
    assert_eq!(can_walk_path(&world, "nowhere", 0, 0, 0, 0), false);
}

#[test]
fn negative_and_far_cells_are_not_walkable() {
    let grid = grid_from_rows(&["...", "...", "..."], 0, 0);
    assert!(grid.is_walkable(0, 0));
    assert!(grid.is_walkable(2, 2));
    assert!(!grid.is_walkable(-1, 0));
    assert!(!grid.is_walkable(-1, 1));
    assert!(!grid.is_walkable(0, -1));
    assert!(!grid.is_walkable(0, 3));
    assert!(!grid.is_walkable(i32::MAX, i32::MAX));
    assert!(!grid.is_walkable(i32::MIN, i32::MIN));
}

#[test]
fn column_past_the_right_edge_is_not_walkable() {
    let grid = grid_from_rows(&["#..", ".##"], 0, 0);
    // Index 3 is the first cell of the second row, which is walkable; the
    // position (3, 0) is no cell of the grid.
    assert_eq!(grid.is_walkable(0, 1), true);
    assert_eq!(grid.is_walkable(3, 0), false);
    assert_eq!(grid.is_walkable(4, 0), false);
    assert_eq!(grid.is_walkable(3, 1), false);
    assert_eq!(grid.is_walkable(2, 0), true);
    let open = grid_from_rows(&["...", "...", "..."], 0, 0);
    for y in -1..4 {
        for x in [3, 4, 5, 6, 100] {
            assert_eq!(open.is_walkable(x, y), false, "{} {}", x, y);
        }
    }
}

#[test]
fn positions_past_the_right_edge_of_a_prepared_map() {
    let g = world_of("m", geometry(0, 0, 10, 10, vec![], vec![vec![5, 0, 10]]), vec![spawn(2.5, 2.5)]);
    let mut world = World::new();
    prepare_map(&mut world, &g, &"m".to_string()).unwrap();
    assert_eq!(is_walkable(&world, "m", 9, 0), true);
    assert_eq!(is_walkable(&world, "m", 10, 0), false);
    assert_eq!(is_walkable(&world, "m", 11, 1), false);
    assert_eq!(can_walk_path(&world, "m", 8, 0, 9, 0), true);
    assert_eq!(can_walk_path(&world, "m", 8, 0, 11, 0), false);
    assert_eq!(can_walk_path(&world, "m", 11, 0, 8, 0), false);
    assert_eq!(can_walk_path(&world, "m", 10, 0, 10, 0), false);

    // A wall whose clearance reaches past the right edge.
    let g = world_of(
        "w",
        geometry(0, 0, 20, 20, vec![], vec![vec![1, 15, 19]]),
        vec![spawn(2.5, 2.5)],
    );
    prepare_map(&mut world, &g, &"w".to_string()).unwrap();
    assert_eq!(is_walkable(&world, "w", 0, 1), true);
    for y in -1..8 {
        for x in 7..27 {
            assert_eq!(is_walkable(&world, "w", x, y), false, "{} {}", x, y);
        }
    }
}

#[test]
fn packed_bits_follow_the_scratch_grid() {
    let grid = grid_from_rows(&[".#?", "?.#"], 0, 0);
    let expected = [true, false, false, false, true, false];
    for (i, &bit) in expected.iter().enumerate() {
        assert_eq!(grid.data.get(i), Some(bit));
    }
    assert_eq!(grid.data.len(), 6);
    assert_eq!(grid.data.get(6), None);
}

#[test]
fn path_to_self_equals_point_query() {
    let grid = grid_from_rows(&[".#..", "..#.", "#..."], 0, 0);
    for y in -2..6 {
        for x in -2..7 {
            assert_eq!(grid.can_walk_path(x, y, x, y), grid.is_walkable(x, y));
        }
    }
}

#[test]
fn path_is_symmetric() {
    let grid = grid_from_rows(
        &["........", "..#.....", ".....#..", "........", "...#....", "........"],
        0,
        0,
    );
    for y1 in -1..7 {
        for x1 in -1..9 {
            for y2 in -1..7 {
                for x2 in -1..9 {
                    assert_eq!(
                        grid.can_walk_path(x1, y1, x2, y2),
                        grid.can_walk_path(x2, y2, x1, y1),
                        "{} {} {} {}",
                        x1,
                        y1,
                        x2,
                        y2
                    );
                }
            }
        }
    }
}

#[test]
fn path_holds_exactly_when_every_touched_cell_is_walkable() {
    let grid = grid_from_rows(
        &["........", "..#.....", ".....#..", "........", "...#....", "........"],
        0,
        0,
    );
    for y1 in 0..6 {
        for x1 in 0..8 {
            for y2 in 0..6 {
                for x2 in 0..8 {
                    let mut all_open = true;
                    for cy in 0..6 {
                        for cx in 0..8 {
                            if touches(x1, y1, x2, y2, cx, cy) && !grid.is_walkable(cx, cy) {
                                all_open = false;
                            }
                        }
                    }
                    assert_eq!(grid.can_walk_path(x1, y1, x2, y2), all_open);
                }
            }
        }
    }
}

#[test]
fn path_agrees_with_the_two_branch_walk() {
    let grid = grid_from_rows(
        &[".........", "..#...#..", ".........", "....#....", ".#.....#.", ".........", "...#.#..."],
        3,
        -2,
    );
    for y1 in -2..5 {
        for x1 in 3..12 {
            for y2 in -2..5 {
                for x2 in 3..12 {
                    assert_eq!(
                        grid.can_walk_path(x1, y1, x2, y2),
                        reference_walk(&grid, x1, y1, x2, y2),
                        "{} {} {} {}",
                        x1,
                        y1,
                        x2,
                        y2
                    );
                }
            }
        }
    }
}

#[test]
fn diagonal_through_a_corner_tests_both_neighbours() {
    let open = grid_from_rows(&["..", ".."], 0, 0);
    assert_eq!(open.can_walk_path(0, 0, 1, 1), true);
    let right_blocked = grid_from_rows(&[".#", ".."], 0, 0);
    assert_eq!(right_blocked.can_walk_path(0, 0, 1, 1), false);
    let below_blocked = grid_from_rows(&["..", "#."], 0, 0);
    assert_eq!(below_blocked.can_walk_path(0, 0, 1, 1), false);
    // A longer diagonal with one wall cell beside its midpoint.
    let long = grid_from_rows(&["....", "....", ".#..", "...."], 0, 0);
    assert_eq!(long.can_walk_path(0, 0, 3, 3), false);
    assert_eq!(long.can_walk_path(3, 3, 0, 0), false);
    assert_eq!(long.can_walk_path(0, 3, 3, 0), false);
    let clear = grid_from_rows(&["....", "....", "#...", "...."], 0, 0);
    assert_eq!(clear.can_walk_path(0, 0, 3, 3), true);
}

#[test]
fn shallow_line_through_a_corner_touches_four_cells() {
    // From (0, 0) to (3, 1) the line changes rows at the corner shared by
    // (1, 0), (2, 0), (1, 1) and (2, 1), so it touches all four of them.
    let open = grid_from_rows(&["....", "...."], 0, 0);
    assert!(open.can_walk_path(0, 0, 3, 1));
    for (x, y, expected) in [
        (0, 0, false),
        (1, 0, false),
        (2, 0, false),
        (3, 0, true),
        (0, 1, true),
        (1, 1, false),
        (2, 1, false),
        (3, 1, false),
    ] {
        let mut rows = vec![vec!['.'; 4], vec!['.'; 4]];
        rows[y][x] = '#';
        let a: String = rows[0].iter().collect();
        let b: String = rows[1].iter().collect();
        let grid = grid_from_rows(&[a.as_str(), b.as_str()], 0, 0);
        assert_eq!(grid.can_walk_path(0, 0, 3, 1), expected, "wall at {} {}", x, y);
    }
}

#[test]
fn path_leaving_the_grid_is_blocked() {
    let grid = grid_from_rows(&["...", "...", "..."], 0, 0);
    assert!(grid.can_walk_path(1, 1, 2, 1));
    assert!(!grid.can_walk_path(1, 1, 3, 1));
    assert!(!grid.can_walk_path(1, 1, 5, 1));
    assert!(!grid.can_walk_path(5, 1, 1, 1));
    assert!(!grid.can_walk_path(0, 0, 3, 0));
    assert!(!grid.can_walk_path(2, 0, 3, 1));
    assert!(!grid.can_walk_path(1, 1, 1, 5));
    assert!(!grid.can_walk_path(1, 1, -3, 1));
    assert!(!grid.can_walk_path(1, 1, 1, -1));
    assert!(!grid.can_walk_path(0, 0, i32::MAX, i32::MAX));
    assert!(!grid.can_walk_path(i32::MIN, 0, i32::MAX, 0));
    assert!(!grid.can_walk_path(2, 2, i32::MIN, i32::MIN));
}

#[test]
fn preparing_twice_gives_the_same_answers() {
    let make = || {
        world_of(
            "m",
            geometry(0, 0, 30, 30, vec![vec![15, 0, 9]], vec![vec![20, 14, 30]]),
            vec![spawn(2.5, 2.5)],
        )
    };
    let mut first = World::new();
    prepare_map(&mut first, &make(), &"m".to_string()).unwrap();
    let mut second = World::new();
    prepare_map(&mut second, &make(), &"m".to_string()).unwrap();
    prepare_map(&mut second, &make(), &"m".to_string()).unwrap();
    for y in -1..31 {
        for x in -1..31 {
            assert_eq!(is_walkable(&first, "m", x, y), is_walkable(&second, "m", x, y));
            assert_eq!(
                can_walk_path(&first, "m", 2, 2, x, y),
                can_walk_path(&second, "m", 2, 2, x, y)
            );
        }
    }
}

#[test]
fn fill_goes_around_walls() {
    // A wall along column 20 from row 0 to row 20 leaves a gap below it.
    let g = world_of(
        "bend",
        geometry(0, 0, 40, 40, vec![vec![20, 0, 20]], vec![]),
        vec![spawn(1.0, 1.0)],
    );
    let mut world = World::new();
    prepare_map(&mut world, &g, &"bend".to_string()).unwrap();
    // The far side is reached through the gap under the wall.
    assert!(is_walkable(&world, "bend", 35, 1));
    assert!(is_walkable(&world, "bend", 20, 35));
    assert!(!is_walkable(&world, "bend", 20, 10));
    assert!(!can_walk_path(&world, "bend", 1, 1, 35, 1));
    assert!(can_walk_path(&world, "bend", 1, 35, 35, 35));
}

#[test]
fn second_spawn_fills_a_second_region() {
    let walls = vec![vec![10, 0, 12]];
    let one = world_of("a", geometry(0, 0, 12, 30, vec![], walls.clone()), vec![spawn(3.0, 2.0)]);
    let two = world_of(
        "a",
        geometry(0, 0, 12, 30, vec![], walls),
        vec![spawn(3.0, 2.0), spawn(5.0, 25.0), spawn(6.0, 3.0)],
    );
    let mut w1 = World::new();
    prepare_map(&mut w1, &one, &"a".to_string()).unwrap();
    let mut w2 = World::new();
    prepare_map(&mut w2, &two, &"a".to_string()).unwrap();
    assert!(!is_walkable(&w1, "a", 5, 20));
    assert!(is_walkable(&w2, "a", 5, 20));
    assert!(is_walkable(&w2, "a", 0, 29));
    assert!(is_walkable(&w2, "a", 3, 2));
    assert!(!is_walkable(&w2, "a", 3, 12));
}

#[test]
fn malformed_inputs_are_rejected() {
    let name = "m".to_string();
    // No geometry for the map.
    let mut g = world_of("m", geometry(0, 0, 10, 10, vec![], vec![]), vec![spawn(1.0, 1.0)]);
    g.geometry.clear();
    let mut world = World::new();
    assert_eq!(prepare_map(&mut world, &g, &name).err(), Some(PrepareError::MalformedInput));
    // No such map.
    let g = world_of("other", geometry(0, 0, 10, 10, vec![], vec![]), vec![]);
    assert_eq!(prepare_map(&mut world, &g, &name).err(), Some(PrepareError::MalformedInput));
    // A spawn outside the box, on each side.
    for (x, y) in [(-1.0, 1.0), (10.0, 1.0), (1.0, -1.5), (1.0, 10.0)] {
        let g = world_of("m", geometry(0, 0, 10, 10, vec![], vec![]), vec![spawn(x, y)]);
        assert_eq!(prepare_map(&mut world, &g, &name).err(), Some(PrepareError::MalformedInput));
    }
    // A wall that lacks a number.
    let g = world_of("m", geometry(0, 0, 10, 10, vec![vec![1, 2]], vec![]), vec![]);
    assert_eq!(prepare_map(&mut world, &g, &name).err(), Some(PrepareError::MalformedInput));
    let g = world_of("m", geometry(0, 0, 10, 10, vec![], vec![vec![]]), vec![]);
    assert_eq!(prepare_map(&mut world, &g, &name).err(), Some(PrepareError::MalformedInput));
    // An inverted box.
    let g = world_of("m", geometry(5, 0, 4, 10, vec![], vec![]), vec![]);
    assert_eq!(prepare_map(&mut world, &g, &name).err(), Some(PrepareError::MalformedInput));
    // Nothing was stored by any of the failures.
    assert!(!is_walkable(&world, "m", 1, 1));
    assert_eq!(world.registry.names.len(), 0);
    assert_eq!(world.grids.names.len(), 0);
}

#[test]
fn oversized_box_is_rejected() {
    let g = world_of("big", geometry(0, 0, 100_000, 100_000, vec![], vec![]), vec![]);
    let mut world = World::new();
    assert_eq!(
        prepare_map(&mut world, &g, &"big".to_string()).err(),
        Some(PrepareError::CapacityExceeded)
    );
    let g = world_of("wide", geometry(i32::MIN, 0, i32::MAX, 0, vec![], vec![]), vec![]);
    assert_eq!(
        prepare_map(&mut world, &g, &"wide".to_string()).err(),
        Some(PrepareError::CapacityExceeded)
    );
    assert_eq!(world.grids.names.len(), 0);
}

#[test]
fn error_messages() {
    assert_eq!(PrepareError::MalformedInput.message(), "malformed input");
    assert_eq!(PrepareError::CapacityExceeded.message(), "capacity exceeded");
}

#[test]
fn empty_box_has_no_walkable_cell() {
    let g = world_of("none", geometry(3, 3, 3, 3, vec![], vec![]), vec![]);
    let mut world = World::new();
    let site = prepare_map(&mut world, &g, &"none".to_string()).unwrap();
    assert_eq!(site.corners.len(), 0);
    assert!(!is_walkable(&world, "none", 3, 3));
    assert!(!can_walk_path(&world, "none", 3, 3, 3, 3));
}

#[test]
fn missing_wall_lists_mean_no_walls() {
    let g = GData {
        geometry: vec![(
            "m".to_string(),
            GGeometry { min_x: 0, max_x: 4, min_y: 0, max_y: 4, x_lines: None, y_lines: None },
        )],
        maps: vec![("m".to_string(), map("m", vec![spawn(0.5, 0.5)]))],
        npcs: Vec::new(),
        version: 7,
    };
    let mut world = World::new();
    prepare_map(&mut world, &g, &"m".to_string()).unwrap();
    for y in 0..4 {
        for x in 0..4 {
            assert!(is_walkable(&world, "m", x, y));
        }
    }
}

#[test]
fn shallow_line_tests_the_cell_on_the_side_it_passes() {
    // From (0, 0) to (4, 1) the line changes rows between columns 1 and 3
    // and is over the middle of column 2 at the boundary: it touches
    // (0,0), (1,0), (2,0) and (2,1), (3,1), (4,1).
    for y in 0..2usize {
        for x in 0..5usize {
            let mut rows = vec![vec!['.'; 5], vec!['.'; 5]];
            rows[y][x] = '#';
            let a: String = rows[0].iter().collect();
            let b: String = rows[1].iter().collect();
            let grid = grid_from_rows(&[a.as_str(), b.as_str()], 0, 0);
            let touched = (y == 0 && x <= 2) || (y == 1 && x >= 2);
            assert_eq!(grid.can_walk_path(0, 0, 4, 1), !touched, "wall at {} {}", x, y);
        }
    }
}
