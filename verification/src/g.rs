//! The world description as the library takes it.
//!
//! The host writes positions as 32-bit floats.  The library takes each such
//! number as a [`Coord`], the bit pattern of the float.

use crate::consts::{BASE_H, BASE_V, BASE_VN};
use crate::coord::Coord;
use crate::error::PrepareError;
use vstd::prelude::*;

verus! {

/// A door: a rectangle that leads to a spawn of another map.
#[derive(Debug)]
pub struct GDoor {
    pub x: Coord,
    pub y: Coord,
    pub width: Coord,
    pub height: Coord,
    pub map_to: String,
    pub spawn_to: u8,
    pub spawn_from: u8,
}

/// A spawn point of a map.
#[derive(Clone, Copy, Debug)]
pub struct GSpawn {
    pub x: Coord,
    pub y: Coord,
}

/// The bounding box and the walls of a map.
///
/// An entry of `y_lines` is `[y, x_from, x_to]`, a wall along a row; an
/// entry of `x_lines` is `[x, y_from, y_to]`, a wall along a column.
#[derive(Debug)]
pub struct GGeometry {
    pub min_x: i32,
    pub max_x: i32,
    pub min_y: i32,
    pub max_y: i32,
    pub x_lines: Option<Vec<Vec<i32>>>,
    pub y_lines: Option<Vec<Vec<i32>>>,
}

/// A map: its doors, its spawn points and the characters placed on it.
#[derive(Debug)]
pub struct GMap {
    pub doors: Vec<GDoor>,
    pub ignore: Option<bool>,
    pub name: String,
    pub npcs: Option<Vec<GNpc>>,
    pub spawns: Vec<GSpawn>,
}

/// A character placed on a map, at one position or at several.  A position
/// is a pair `[x, y]`.
#[derive(Debug)]
pub struct GNpc {
    pub id: String,
    pub position: Option<Vec<Coord>>,
    pub positions: Option<Vec<Vec<Coord>>>,
}

/// What the catalogue says of one kind of character: for a transporter, the
/// maps it leads to, each with the index of the spawn where one arrives.
#[derive(Debug)]
pub struct GNpcKind {
    pub places: Option<Vec<(String, u32)>>,
}

/// The whole world: geometry and maps by map name, the catalogue of
/// characters by id.  Entries are looked up by name from the front, so a
/// name stands for the first entry that carries it; an entry that repeats
/// the name of an earlier one is never read.
#[derive(Debug)]
pub struct GData {
    pub geometry: Vec<(String, GGeometry)>,
    pub maps: Vec<(String, GMap)>,
    pub npcs: Vec<(String, GNpcKind)>,
    pub version: u32,
}

/// The walls in a list that may be absent.
pub open spec fn lines_of(lines: Option<Vec<Vec<i32>>>) -> Seq<Vec<i32>> {
    match lines {
        Some(v) => v@,
        None => Seq::empty(),
    }
}

/// Whether every wall in a list has its three numbers.
pub open spec fn lines_complete(lines: Seq<Vec<i32>>) -> bool {
    forall|i: int| 0 <= i < lines.len() ==> (#[trigger] lines[i])@.len() >= 3
}

impl GGeometry {
    /// The number of columns of the box.
    pub open spec fn width(&self) -> int {
        self.max_x - self.min_x
    }

    /// The number of rows of the box.
    pub open spec fn height(&self) -> int {
        self.max_y - self.min_y
    }

    /// Whether the box is inverted or a wall lacks one of its numbers.
    pub open spec fn malformed(&self) -> bool {
        ||| self.max_x < self.min_x
        ||| self.max_y < self.min_y
        ||| !lines_complete(lines_of(self.x_lines))
        ||| !lines_complete(lines_of(self.y_lines))
    }

    /// Whether the box has a side or a number of cells that a grid cannot
    /// count.
    pub open spec fn oversized(&self) -> bool {
        ||| self.width() > i32::MAX
        ||| self.height() > i32::MAX
        ||| self.width() * self.height() > i32::MAX
    }

    /// Why no grid can be built from the geometry and the spawn points, if
    /// none can: `MalformedInput` when the geometry is malformed,
    /// `CapacityExceeded` when it is sound but oversized, `MalformedInput`
    /// again when a spawn point falls outside the box.
    pub open spec fn build_failure(&self, spawns: Seq<GSpawn>) -> Option<PrepareError> {
        if self.malformed() {
            Some(PrepareError::MalformedInput)
        } else if self.oversized() {
            Some(PrepareError::CapacityExceeded)
        } else if !self.holds_all(spawns) {
            Some(PrepareError::MalformedInput)
        } else {
            None
        }
    }

    /// Whether `(x, y)` is a cell of the box, in grid coordinates.
    pub open spec fn contains(&self, x: int, y: int) -> bool {
        0 <= x < self.width() && 0 <= y < self.height()
    }

    /// Whether the clearance around the wall `[y, x_from, x_to]` holds the
    /// cell `(x, y)`: two rows above the wall to seven below, eight columns
    /// to either side.
    pub open spec fn y_line_covers(&self, line: Seq<i32>, x: int, y: int) -> bool {
        &&& line[0] - self.min_y - BASE_VN <= y < line[0] - self.min_y + BASE_V
        &&& line[1] - self.min_x - BASE_H <= x < line[2] - self.min_x + BASE_H
    }

    /// Whether the clearance around the wall `[x, y_from, y_to]` holds the
    /// cell `(x, y)`.
    pub open spec fn x_line_covers(&self, line: Seq<i32>, x: int, y: int) -> bool {
        &&& line[0] - self.min_x - BASE_H <= x < line[0] - self.min_x + BASE_H
        &&& line[1] - self.min_y - BASE_VN <= y < line[2] - self.min_y + BASE_V
    }

    /// Whether the clearance of one of the first `ny` walls along rows or
    /// of the first `nx` walls along columns holds the cell `(x, y)`.
    pub open spec fn walled_by(&self, ny: int, nx: int, x: int, y: int) -> bool {
        ||| exists|i: int|
            0 <= i < ny && self.y_line_covers((#[trigger] lines_of(self.y_lines)[i])@, x, y)
        ||| exists|i: int|
            0 <= i < nx && self.x_line_covers((#[trigger] lines_of(self.x_lines)[i])@, x, y)
    }

    /// Whether the clearance of some wall holds the cell `(x, y)`, in grid
    /// coordinates.
    pub open spec fn walled(&self, x: int, y: int) -> bool {
        self.walled_by(lines_of(self.y_lines).len() as int, lines_of(self.x_lines).len() as int, x, y)
    }

    /// Whether `(x, y)` is a cell of the box outside the clearance of every
    /// wall.
    pub open spec fn open_cell(&self, x: int, y: int) -> bool {
        self.contains(x, y) && !self.walled(x, y)
    }

    /// The cell that a spawn point falls in, in grid coordinates.
    pub open spec fn seed_of(&self, spawn: GSpawn) -> (int, int) {
        (spawn.x.cell_of() - self.min_x, spawn.y.cell_of() - self.min_y)
    }

    /// Whether each of the spawn points falls in a cell of the box.
    pub open spec fn holds_all(&self, spawns: Seq<GSpawn>) -> bool {
        forall|i: int|
            0 <= i < spawns.len() ==> self.contains(
                self.seed_of(#[trigger] spawns[i]).0,
                self.seed_of(spawns[i]).1,
            )
    }
}

} // verus!

verus! {

/// Whether some entry of a list carries `name`.
pub open spec fn has_entry<T>(entries: Seq<(String, T)>, name: Seq<char>) -> bool {
    exists|i: int| 0 <= i < entries.len() && (#[trigger] entries[i]).0@ == name
}

/// Whether entry `i` is the first of a list that carries `name`.
pub open spec fn first_named<T>(entries: Seq<(String, T)>, name: Seq<char>, i: int) -> bool {
    &&& 0 <= i < entries.len()
    &&& entries[i].0@ == name
    &&& forall|k: int| 0 <= k < i ==> (#[trigger] entries[k]).0@ != name
}

/// The position of the first entry of a list that carries `name`.
pub open spec fn entry_index<T>(entries: Seq<(String, T)>, name: Seq<char>) -> int {
    choose|i: int| first_named(entries, name, i)
}

/// A list has one first entry under a name.
pub proof fn lemma_first_named_unique<T>(entries: Seq<(String, T)>, name: Seq<char>, i: int, j: int)
    requires
        first_named(entries, name, i),
        first_named(entries, name, j),
    ensures
        i == j,
{
    if i < j {
        assert(entries[i].0@ != name);
    }
    if j < i {
        assert(entries[j].0@ != name);
    }
}

/// The position of the first entry of a list that carries `name`, if
/// there is one.
pub fn find_entry<T>(entries: &Vec<(String, T)>, name: &String) -> (found: Option<usize>)
    ensures
        match found {
            Some(i) => has_entry(entries@, name@) && i == entry_index(entries@, name@)
                && first_named(entries@, name@, i as int),
            None => !has_entry(entries@, name@),
        },
{
    let mut i: usize = 0;
    while i < entries.len()
        invariant
            0 <= i <= entries.len(),
            forall|k: int| 0 <= k < i ==> (#[trigger] entries@[k]).0@ != name@,
        decreases entries.len() - i,
    {
        if entries[i].0 == *name {
            proof {
                assert(first_named(entries@, name@, i as int));
                lemma_first_named_unique(
                    entries@,
                    name@,
                    i as int,
                    entry_index(entries@, name@),
                );
            }
            return Some(i);
        }
        i = i + 1;
    }
    None
}

impl GData {
    /// The geometry of the map `name`.
    pub open spec fn geometry_of(&self, name: Seq<char>) -> GGeometry {
        self.geometry@[entry_index(self.geometry@, name)].1
    }

    /// The map `name`.
    pub open spec fn map_of(&self, name: Seq<char>) -> GMap {
        self.maps@[entry_index(self.maps@, name)].1
    }

    /// Whether the world has both a map and a geometry under `name`.
    pub open spec fn describes(&self, name: Seq<char>) -> bool {
        has_entry(self.maps@, name) && has_entry(self.geometry@, name)
    }
}

} // verus!
