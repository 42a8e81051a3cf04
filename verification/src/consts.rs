//! Fixed parameters of the world model.

use vstd::prelude::*;

verus! {

/// Horizontal clearance, in cells, on both sides of a wall.
pub const BASE_H: i32 = 8;

/// Clearance, in cells, below a wall.
pub const BASE_V: i32 = 7;

/// Clearance, in cells, above a wall.
pub const BASE_VN: i32 = 2;

/// Scratch value of a cell that no wall and no fill has touched.
pub const UNKNOWN: u8 = 0;

/// Scratch value of a cell inside the clearance of a wall.
pub const NOT_WALKABLE: u8 = 1;

/// Scratch value of a cell that a fill has reached.
pub const WALKABLE: u8 = 2;

/// Distance from a transporter within which waypoints are linked to it.
pub const TRANSPORT_RADIUS: u8 = 150;

/// Edge label: the link is walked.
pub const WALK: u8 = 1;

/// Edge label: reserved for town portals.
pub const TOWN: u8 = 2;

/// Edge label: reserved for doors.
pub const DOOR: u8 = 4;

/// Edge label: the link is a transporter jump to another map.
pub const TRANSPORT: u8 = 8;

/// Edge label: reserved for entering an instance.
pub const ENTER: u8 = 16;

pub const INSIDE_1: u8 = 0b0010_1111;

pub const INSIDE_1_IGNORE: u8 = 0b0010_0100;

pub const INSIDE_2: u8 = 0b1001_0111;

pub const INSIDE_2_IGNORE: u8 = 0b1000_0001;

pub const INSIDE_3: u8 = 0b1111_0100;

pub const INSIDE_3_IGNORE: u8 = 0b0010_0100;

pub const INSIDE_4: u8 = 0b1110_1001;

pub const INSIDE_4_IGNORE: u8 = 0b1000_0001;

pub const OUTSIDE_1: u8 = 0b0111_1111;

pub const OUTSIDE_2: u8 = 0b1101_1111;

pub const OUTSIDE_3: u8 = 0b1111_1011;

pub const OUTSIDE_4: u8 = 0b1111_1110;

} // verus!
