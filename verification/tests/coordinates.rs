use walkmap::{decode_door, decode_doors, decode_spawn, decode_spawns, Coord, Field, PrepareError};

fn coord(v: f32) -> Coord {
    Coord { bits: v.to_bits() }
}

fn number(v: f64) -> Field {
    let whole = if v >= 0.0 && v.fract() == 0.0 && v < 1.0e19 { Some(v as u64) } else { None };
    Field::Number { value: coord(v as f32), whole }
}

fn text(s: &str) -> Field {
    Field::Text(s.to_string())
}

fn door_tuple() -> Vec<Field> {
    vec![
        number(-10.5),
        number(20.0),
        number(40.0),
        number(30.25),
        text("cave"),
        number(2.0),
        number(300.0),
        number(9.0),
        text("extra"),
    ]
}

#[test]
fn cell_is_the_float_truncated_toward_zero() {
    for (v, cell) in [
        (0.0f32, 0),
        (-0.0, 0),
        (0.999_999, 0),
        (-0.999_999, 0),
        (1.0, 1),
        (-1.0, -1),
        (2.5, 2),
        (-2.5, -2),
        (2.999, 2),
        (150.0, 150),
        (-97.5, -97),
        (8_388_607.5, 8_388_607),
        (8_388_608.0, 8_388_608),
        (16_777_216.0, 16_777_216),
        (16_777_218.0, 16_777_218),
        (-16_777_218.0, -16_777_218),
        (2_147_483_520.0, 2_147_483_520),
        (2_147_483_648.0, i32::MAX),
        (-2_147_483_648.0, i32::MIN),
        (-2_147_483_904.0, i32::MIN),
        (1.0e30, i32::MAX),
        (-1.0e30, i32::MIN),
        (f32::INFINITY, i32::MAX),
        (f32::NEG_INFINITY, i32::MIN),
        (f32::NAN, 0),
        (f32::MIN_POSITIVE, 0),
        (1.0e-45, 0),
        (f32::MAX, i32::MAX),
        (f32::MIN, i32::MIN),
    ] {
        assert_eq!(coord(v).cell(), cell, "{}", v);
        assert_eq!(coord(v).cell(), v.trunc() as i32, "{}", v);
    }
}

#[test]
fn cell_agrees_with_the_cast_on_many_patterns() {
    // Every exponent, with a spread of fractions, in both signs.
    for exponent in 0u32..=255 {
        for fraction in [0u32, 1, 2, 0x3f_ffff, 0x40_0000, 0x40_0001, 0x55_5555, 0x7f_fffe, 0x7f_ffff] {
            for sign in [0u32, 0x8000_0000] {
                let bits = sign | (exponent << 23) | fraction;
                let expected = f32::from_bits(bits) as i32;
                assert_eq!(Coord { bits }.cell(), expected, "{:#010x}", bits);
            }
        }
    }
    // A stride through all patterns.
    let mut bits: u32 = 0;
    loop {
        let expected = f32::from_bits(bits) as i32;
        assert_eq!(Coord { bits }.cell(), expected, "{:#010x}", bits);
        match bits.checked_add(65_521) {
            Some(next) => bits = next,
            None => break,
        }
    }
}

#[test]
fn cell_of_small_integers_is_exact() {
    for v in -70_000i32..70_000 {
        assert_eq!(coord(v as f32).cell(), v);
    }
    for v in [16_777_215i32, 16_777_216, -16_777_215, -16_777_216, 4_194_304, 1 << 23] {
        assert_eq!(coord(v as f32).cell(), v);
    }
}

#[test]
fn spawn_tuple_is_decoded() {
    let spawn = decode_spawn(&vec![number(2.5), number(-3.75), number(1.0)]).unwrap();
    assert_eq!(spawn.x, coord(2.5));
    assert_eq!(spawn.y, coord(-3.75));
    assert_eq!((spawn.x.cell(), spawn.y.cell()), (2, -3));
}

#[test]
fn malformed_spawn_tuples_are_rejected() {
    for tuple in [
        vec![],
        vec![number(1.0)],
        vec![text("1"), number(2.0)],
        vec![number(1.0), Field::Other],
        vec![Field::Other, Field::Other, number(1.0), number(2.0)],
    ] {
        assert_eq!(decode_spawn(&tuple).err(), Some(PrepareError::MalformedInput));
    }
}

#[test]
fn door_tuple_is_decoded() {
    let door = decode_door(&door_tuple()).unwrap();
    assert_eq!(door.x, coord(-10.5));
    assert_eq!(door.y, coord(20.0));
    assert_eq!(door.width, coord(40.0));
    assert_eq!(door.height, coord(30.25));
    assert_eq!(door.map_to, "cave");
    assert_eq!(door.spawn_to, 2);
    // An index is cut down to eight bits.
    assert_eq!(door.spawn_from, 44);
}

#[test]
fn malformed_door_tuples_are_rejected() {
    let mut short = door_tuple();
    short.truncate(6);
    assert_eq!(decode_door(&short).err(), Some(PrepareError::MalformedInput));
    assert_eq!(decode_door(&Vec::new()).err(), Some(PrepareError::MalformedInput));
    for (position, wrong) in [
        (0, text("x")),
        (1, Field::Other),
        (2, text("w")),
        (3, Field::Other),
        (4, number(4.0)),
        (5, number(-1.0)),
        (5, number(1.5)),
        (6, text("0")),
        (6, number(-3.0)),
    ] {
        let mut tuple = door_tuple();
        tuple[position] = wrong;
        assert_eq!(
            decode_door(&tuple).err(),
            Some(PrepareError::MalformedInput),
            "entry {}",
            position
        );
    }
}

#[test]
fn lists_are_decoded_in_order_or_not_at_all() {
    let spawns = decode_spawns(&vec![
        vec![number(1.0), number(2.0)],
        vec![number(3.0), number(4.0), text("north")],
    ])
    .unwrap();
    assert_eq!(spawns.len(), 2);
    assert_eq!((spawns[0].x, spawns[0].y), (coord(1.0), coord(2.0)));
    assert_eq!((spawns[1].x, spawns[1].y), (coord(3.0), coord(4.0)));
    assert_eq!(decode_spawns(&Vec::new()).map(|s| s.len()), Ok(0));
    assert_eq!(
        decode_spawns(&vec![vec![number(1.0), number(2.0)], vec![number(3.0)]]).err(),
        Some(PrepareError::MalformedInput)
    );

    let doors = decode_doors(&vec![door_tuple(), door_tuple()]).unwrap();
    assert_eq!(doors.len(), 2);
    assert_eq!(doors[1].map_to, "cave");
    assert_eq!(
        decode_doors(&vec![door_tuple(), vec![number(1.0)]]).err(),
        Some(PrepareError::MalformedInput)
    );
}

#[test]
fn coordinate_of_a_cell_is_the_nearest_float() {
    for v in [
        0i32,
        1,
        -1,
        2,
        3,
        150,
        -97,
        65_535,
        8_388_607,
        8_388_608,
        16_777_215,
        16_777_216,
        16_777_217,
        16_777_218,
        16_777_219,
        -16_777_217,
        -16_777_219,
        33_554_430,
        33_554_431,
        33_554_433,
        33_554_434,
        33_554_435,
        1_000_000_007,
        2_147_483_519,
        2_147_483_520,
        2_147_483_583,
        2_147_483_584,
        2_147_483_585,
        i32::MAX,
        i32::MIN,
        i32::MIN + 1,
        i32::MIN + 64,
        i32::MIN + 65,
    ] {
        assert_eq!(Coord::from_cell(v).bits, (v as f32).to_bits(), "{}", v);
    }
}

#[test]
fn coordinate_of_a_cell_agrees_with_the_cast_on_many_cells() {
    for v in -100_000i32..100_000 {
        assert_eq!(Coord::from_cell(v).bits, (v as f32).to_bits(), "{}", v);
    }
    // Around each power of two, where the spacing of the floats changes,
    // and at the ties between two floats.
    for k in 1..31 {
        let power = 1i64 << k;
        for delta in -300i64..300 {
            for v in [power + delta, -power - delta, 3 * (power / 2) + delta] {
                if v >= i32::MIN as i64 && v <= i32::MAX as i64 {
                    let v = v as i32;
                    assert_eq!(Coord::from_cell(v).bits, (v as f32).to_bits(), "{}", v);
                }
            }
        }
    }
    // A stride through all cells.
    let mut v = i32::MIN;
    loop {
        assert_eq!(Coord::from_cell(v).bits, (v as f32).to_bits(), "{}", v);
        match v.checked_add(104_729) {
            Some(next) => v = next,
            None => break,
        }
    }
}

#[test]
fn small_cells_survive_the_round_trip() {
    for v in [-16_777_215i32, -70_000, -1, 0, 1, 2, 777, 16_777_215] {
        assert_eq!(Coord::from_cell(v).cell(), v);
    }
    // Beyond 2^24 the nearest float may fall in another cell.
    assert_eq!(Coord::from_cell(16_777_217).cell(), 16_777_216);
    assert_eq!(Coord::from_cell(16_777_219).cell(), 16_777_220);
    assert_eq!(Coord::from_cell(i32::MAX).cell(), i32::MAX);
    assert_eq!(Coord::from_cell(i32::MIN).cell(), i32::MIN);
}
