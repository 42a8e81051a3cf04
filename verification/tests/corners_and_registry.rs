use walkmap::consts::{
    BASE_H, BASE_V, BASE_VN, DOOR, ENTER, INSIDE_1, INSIDE_1_IGNORE, INSIDE_2, INSIDE_2_IGNORE,
    INSIDE_3, INSIDE_3_IGNORE, INSIDE_4, INSIDE_4_IGNORE, NOT_WALKABLE, OUTSIDE_1, OUTSIDE_2,
    OUTSIDE_3, OUTSIDE_4, TOWN, TRANSPORT, TRANSPORT_RADIUS, UNKNOWN, WALK, WALKABLE,
};
use walkmap::corners::{corner_mask, detect_corners, mask_at};
use walkmap::flood::flood;
use walkmap::scratch::Scratch;
use walkmap::{get_map_name, get_or_create_map_id, MapRegistry};

fn scratch_from_rows(rows: &[&str]) -> Scratch {
    let height = rows.len() as i32;
    let width = rows[0].len() as i32;
    let mut scratch = Scratch::new(width, height);
    for (y, row) in rows.iter().enumerate() {
        for (x, ch) in row.chars().enumerate() {
            let value = match ch {
                '.' => WALKABLE,
                '#' => NOT_WALKABLE,
                _ => UNKNOWN,
            };
            scratch.set(x as i32, y as i32, value);
        }
    }
    scratch
}

fn rows_of(scratch: &Scratch) -> Vec<String> {
    (0..scratch.height)
        .map(|y| {
            (0..scratch.width)
                .map(|x| match scratch.get(x, y) {
                    WALKABLE => '.',
                    NOT_WALKABLE => '#',
                    _ => '?',
                })
                .collect()
        })
        .collect()
}

#[test]
fn constants_have_their_published_values() {
    assert_eq!((BASE_H, BASE_V, BASE_VN), (8, 7, 2));
    assert_eq!((UNKNOWN, NOT_WALKABLE, WALKABLE), (0, 1, 2));
    assert_eq!(TRANSPORT_RADIUS, 150);
    assert_eq!((WALK, TOWN, DOOR, TRANSPORT, ENTER), (1, 2, 4, 8, 16));
    assert_eq!((INSIDE_1, INSIDE_1_IGNORE), (0b0010_1111, 0b0010_0100));
    assert_eq!((INSIDE_2, INSIDE_2_IGNORE), (0b1001_0111, 0b1000_0001));
    assert_eq!((INSIDE_3, INSIDE_3_IGNORE), (0b1111_0100, 0b0010_0100));
    assert_eq!((INSIDE_4, INSIDE_4_IGNORE), (0b1110_1001, 0b1000_0001));
    assert_eq!(
        (OUTSIDE_1, OUTSIDE_2, OUTSIDE_3, OUTSIDE_4),
        (0b0111_1111, 0b1101_1111, 0b1111_1011, 0b1111_1110)
    );
}

#[test]
fn corner_beside_a_block_of_walls() {
    let scratch = scratch_from_rows(&[
        "##.....", "##.....", ".......", ".......", ".......", ".......", ".......",
    ]);
    let corners = detect_corners(&scratch, 0, 0);
    assert_eq!(corners, vec![(2, 2)]);
    assert_eq!(mask_at(&scratch, 2, 2), OUTSIDE_4);
    assert_eq!(mask_at(&scratch, 4, 4), 0b1111_1111);
    assert!(!corner_mask(mask_at(&scratch, 4, 4)));
}

#[test]
fn corners_are_given_in_world_coordinates_row_by_row() {
    let scratch = scratch_from_rows(&[
        "##...##", "##...##", ".......", ".......", ".......", "##...##", "##...##",
    ]);
    let corners = detect_corners(&scratch, 100, -50);
    assert_eq!(corners, vec![(102, -48), (104, -48), (102, -46), (104, -46)]);
}

#[test]
fn each_pattern_is_recognised() {
    let all = 0b1111_1111u8;
    let expected = |mask: u8| -> bool {
        (mask | 0b0010_0100) == 0b0010_1111
            || (mask | 0b1000_0001) == 0b1001_0111
            || (mask | 0b0010_0100) == 0b1111_0100
            || (mask | 0b1000_0001) == 0b1110_1001
            || mask == 0b0111_1111
            || mask == 0b1101_1111
            || mask == 0b1111_1011
            || mask == 0b1111_1110
    };
    let mut matches = 0;
    for mask in 0..=all {
        assert_eq!(corner_mask(mask), expected(mask), "mask {:08b}", mask);
        if corner_mask(mask) {
            matches += 1;
        }
    }
    // Four patterns with two free bits each, and four exact patterns.
    assert_eq!(matches, 4 * 4 + 4);
    for mask in [0b0010_1011u8, 0b0010_1111, 0b0000_1011, 0b0000_1111] {
        assert!(corner_mask(mask));
    }
    for mask in [0b0001_0110u8, 0b1001_0111, 0b1101_0000, 0b1111_0100, 0b0110_1000, 0b1110_1001] {
        assert!(corner_mask(mask));
    }
    assert!(!corner_mask(all));
    assert!(!corner_mask(0));
}

#[test]
fn mask_bits_are_in_reading_order() {
    let single = |x: usize, y: usize| -> u8 {
        let mut rows = vec![vec!['#'; 3]; 3];
        rows[1][1] = '.';
        rows[y][x] = '.';
        let text: Vec<String> = rows.iter().map(|r| r.iter().collect()).collect();
        let refs: Vec<&str> = text.iter().map(|s| s.as_str()).collect();
        mask_at(&scratch_from_rows(&refs), 1, 1)
    };
    assert_eq!(single(0, 0), 1);
    assert_eq!(single(1, 0), 2);
    assert_eq!(single(2, 0), 4);
    assert_eq!(single(0, 1), 8);
    assert_eq!(single(2, 1), 16);
    assert_eq!(single(0, 2), 32);
    assert_eq!(single(1, 2), 64);
    assert_eq!(single(2, 2), 128);
}

#[test]
fn cells_on_the_border_are_never_corners() {
    let scratch = scratch_from_rows(&["...", "...", "..."]);
    assert_eq!(detect_corners(&scratch, 0, 0), Vec::<(i32, i32)>::new());
    let narrow = scratch_from_rows(&["..", ".."]);
    assert_eq!(detect_corners(&narrow, 0, 0), Vec::<(i32, i32)>::new());
    let unknown_counts_as_wall = scratch_from_rows(&["?..", "...", "..."]);
    assert_eq!(detect_corners(&unknown_counts_as_wall, 5, 5), vec![(6, 6)]);
}

#[test]
fn flood_fills_the_region_of_the_seed() {
    let mut scratch = scratch_from_rows(&[
        "???#???", "?#?#?#?", "?#???#?", "?#####?", "???????", "#######", "???????",
    ]);
    flood(&mut scratch, 0, 0);
    assert_eq!(
        rows_of(&scratch),
        vec!["...#...", ".#.#.#.", ".#...#.", ".#####.", ".......", "#######", "???????"]
    );
}

#[test]
fn flood_stops_at_walls_and_edges() {
    let mut scratch = scratch_from_rows(&["??#??", "??#??", "#####", "??#??"]);
    flood(&mut scratch, 1, 1);
    assert_eq!(rows_of(&scratch), vec!["..#??", "..#??", "#####", "??#??"]);
    flood(&mut scratch, 4, 3);
    assert_eq!(rows_of(&scratch), vec!["..#??", "..#??", "#####", "??#.."]);
}

#[test]
fn flood_from_a_cell_that_is_not_unknown_changes_nothing() {
    let mut scratch = scratch_from_rows(&["#??", "?.?", "???"]);
    flood(&mut scratch, 0, 0);
    assert_eq!(rows_of(&scratch), vec!["#??", "?.?", "???"]);
    flood(&mut scratch, 1, 1);
    assert_eq!(rows_of(&scratch), vec!["#??", "?.?", "???"]);
}

#[test]
fn flood_does_not_cross_diagonals() {
    let mut scratch = scratch_from_rows(&["?#?", "#?#", "?#?"]);
    flood(&mut scratch, 1, 1);
    assert_eq!(rows_of(&scratch), vec!["?#?", "#.#", "?#?"]);
}

#[test]
fn flood_fills_a_spiral() {
    let mut scratch = scratch_from_rows(&[
        "?????????",
        "########?",
        "???????#?",
        "?#####?#?",
        "?#???#?#?",
        "?#?###?#?",
        "?#?????#?",
        "?#######?",
        "?????????",
    ]);
    flood(&mut scratch, 3, 4);
    let rows = rows_of(&scratch);
    for row in &rows {
        assert!(!row.contains('?'), "{:?}", rows);
    }
}

#[test]
fn registry_gives_ids_in_order_of_arrival() {
    let mut registry = MapRegistry::new();
    assert_eq!(get_or_create_map_id(&mut registry, "main"), 0);
    assert_eq!(get_or_create_map_id(&mut registry, "cave"), 1);
    assert_eq!(get_or_create_map_id(&mut registry, "main"), 0);
    assert_eq!(get_or_create_map_id(&mut registry, "bank"), 2);
    assert_eq!(get_or_create_map_id(&mut registry, "cave"), 1);
    assert_eq!(get_or_create_map_id(&mut registry, ""), 3);
    assert_eq!(get_map_name(&registry, 0), Some("main".to_string()));
    assert_eq!(get_map_name(&registry, 1), Some("cave".to_string()));
    assert_eq!(get_map_name(&registry, 2), Some("bank".to_string()));
    assert_eq!(get_map_name(&registry, 3), Some(String::new()));
    assert_eq!(get_map_name(&registry, 4), None);
    assert_eq!(get_map_name(&registry, u32::MAX), None);
    assert_eq!(registry.find(&"bank".to_string()), Some(2));
    assert_eq!(registry.find(&"Bank".to_string()), None);
}

#[test]
fn registry_starts_empty() {
    let registry = MapRegistry::new();
    assert_eq!(get_map_name(&registry, 0), None);
    assert_eq!(registry.find(&"main".to_string()), None);
}
