//! The packed walkability grid of one map and the queries on it.

use crate::bitstore::{bit_contents, bits_filled, bits_get, bits_set};
use crate::builder::{build_scratch, cell_state, filled, lemma_connected_ends, lemma_connected_self, reached};
use crate::consts::WALKABLE;
use crate::error::PrepareError;
use crate::g::{GGeometry, GSpawn};
use crate::scratch::{lemma_index_bound, Scratch};
use crate::supercover::{
    cell_x, cell_y, lemma_column, lemma_minor_offset, lemma_offsets, lemma_supercover_ends,
    lemma_supercover_point, lemma_supercover_symmetric, on_supercover, signed, touches,
};
use bit_vec::BitVec;
use vstd::prelude::*;

verus! {

/// The walkable cells of one map.
///
/// Cell `(x, y)` of the grid stands for world position
/// `(x + min_x, y + min_y)`; its bit is stored at index `y * width + x`.
/// A position outside the box is no cell and is not walkable.
pub struct Grid {
    pub width: i32,
    pub height: i32,
    pub min_x: i32,
    pub min_y: i32,
    pub data: BitVec,
}

impl Grid {
    /// The stored bits, row by row.
    pub open spec fn bits(&self) -> Seq<bool> {
        bit_contents(self.data)
    }

    /// The grid has a bit for each cell of a `width` by `height` box.
    pub open spec fn wf(&self) -> bool {
        &&& 0 <= self.width
        &&& 0 <= self.height
        &&& self.width * self.height <= i32::MAX
        &&& self.bits().len() == self.width * self.height
    }

    /// Whether the cell at grid position `(x, y)` is walkable: the
    /// position is one of the box, and the bit of the cell is set.
    pub open spec fn cell_open(&self, x: int, y: int) -> bool {
        &&& 0 <= x < self.width
        &&& 0 <= y < self.height
        &&& self.bits()[y * self.width + x]
    }

    /// Whether world position `(x, y)` is walkable.
    pub open spec fn walkable_at(&self, x: int, y: int) -> bool {
        self.cell_open(x - self.min_x, y - self.min_y)
    }

    /// Whether every cell that the segment between two grid positions
    /// touches is walkable.
    pub open spec fn path_open(&self, x1: int, y1: int, x2: int, y2: int) -> bool {
        forall|cx: int, cy: int| #[trigger]
            on_supercover(x1, y1, x2, y2, cx, cy) ==> self.cell_open(cx, cy)
    }

    /// Whether every cell that the segment between two world positions
    /// touches is walkable.
    pub open spec fn walkable_path(&self, x1: int, y1: int, x2: int, y2: int) -> bool {
        self.path_open(x1 - self.min_x, y1 - self.min_y, x2 - self.min_x, y2 - self.min_y)
    }

    /// Whether the grid is the one that the geometry and the spawn points
    /// describe: it has the box of the geometry, and a cell of the box is
    /// walkable exactly when a route over open cells leads to it from the
    /// cell of some spawn point.
    pub open spec fn built_from(&self, g: GGeometry, spawns: Seq<GSpawn>) -> bool {
        &&& self.wf()
        &&& self.width == g.width()
        &&& self.height == g.height()
        &&& self.min_x == g.min_x
        &&& self.min_y == g.min_y
        &&& forall|x: int, y: int|
            g.contains(x, y) ==> #[trigger] self.cell_open(x, y) == reached(
                g,
                spawns,
                spawns.len() as int,
                x,
                y,
            )
    }

    /// Packs a scratch grid: the bit of a cell is set exactly when the
    /// scratch grid holds `WALKABLE` there.
    pub fn from_scratch(scratch: &Scratch, min_x: i32, min_y: i32) -> (grid: Grid)
        requires
            scratch.wf(),
        ensures
            grid.wf(),
            grid.width == scratch.width,
            grid.height == scratch.height,
            grid.min_x == min_x,
            grid.min_y == min_y,
            forall|i: int|
                0 <= i < scratch.cells@.len() ==> #[trigger] grid.bits()[i] == (scratch.cells@[i]
                    == WALKABLE),
    {
        let size: usize = scratch.cells.len();
        let mut data: BitVec = bits_filled(size, false);
        let mut i: usize = 0;
        while i < size
            invariant
                size == scratch.cells@.len(),
                0 <= i <= size,
                bit_contents(data).len() == size,
                forall|k: int|
                    0 <= k < size ==> #[trigger] bit_contents(data)[k] == (k < i
                        && scratch.cells@[k] == WALKABLE),
            decreases size - i,
        {
            if scratch.cells[i] == WALKABLE {
                bits_set(&mut data, i, true);
            }
            i = i + 1;
        }
        Grid { width: scratch.width, height: scratch.height, min_x, min_y, data }
    }

    /// Builds the grid of a map from its geometry and its spawn points,
    /// and hands back the scratch grid it was packed from.
    ///
    /// Fails with `MalformedInput` when the geometry is malformed or a spawn
    /// point falls outside the box, and with `CapacityExceeded` when the box
    /// is larger than a grid can be.
    pub fn build(geometry: &GGeometry, spawns: &Vec<GSpawn>) -> (result: Result<
        (Grid, Scratch),
        PrepareError,
    >)
        ensures
            match result {
                Ok((grid, scratch)) => {
                    &&& geometry.build_failure(spawns@).is_none()
                    &&& filled(*geometry, scratch, spawns@, spawns@.len() as int)
                    &&& grid.built_from(*geometry, spawns@)
                },
                Err(e) => geometry.build_failure(spawns@) == Some(e),
            },
    {
        match build_scratch(geometry, spawns) {
            Err(e) => Err(e),
            Ok(scratch) => {
                let grid = Grid::from_scratch(&scratch, geometry.min_x, geometry.min_y);
                proof {
                    assert forall|x: int, y: int| geometry.contains(x, y) implies #[trigger]
                        grid.cell_open(x, y) == reached(
                        *geometry,
                        spawns@,
                        spawns@.len() as int,
                        x,
                        y,
                    ) by {
                        lemma_index_bound(grid.width as int, grid.height as int, x, y);
                        assert(scratch.at(x, y) == cell_state(
                            *geometry,
                            spawns@,
                            spawns@.len() as int,
                            x,
                            y,
                        ));
                        assert(grid.bits()[y * grid.width + x] == (scratch.cells@[y * grid.width
                            + x] == WALKABLE));
                        if reached(*geometry, spawns@, spawns@.len() as int, x, y) {
                            let k = choose|k: int|
                                0 <= k < spawns@.len() && crate::builder::connected(
                                    *geometry,
                                    geometry.seed_of(#[trigger] spawns@[k]).0,
                                    geometry.seed_of(spawns@[k]).1,
                                    x,
                                    y,
                                );
                            lemma_connected_ends(
                                *geometry,
                                geometry.seed_of(spawns@[k]).0,
                                geometry.seed_of(spawns@[k]).1,
                                x,
                                y,
                            );
                        }
                    }
                }
                Ok((grid, scratch))
            },
        }
    }

    /// Tests one cell, given in grid coordinates.
    fn cell(&self, x: i64, y: i64) -> (open: bool)
        requires
            self.wf(),
        ensures
            open == self.cell_open(x as int, y as int),
    {
        if x < 0 || y < 0 || x >= self.width as i64 || y >= self.height as i64 {
            return false;
        }
        proof {
            lemma_index_bound(self.width as int, self.height as int, x as int, y as int);
        }
        let index: i64 = y * (self.width as i64) + x;
        match bits_get(&self.data, index as usize) {
            Some(bit) => bit,
            None => false,
        }
    }

    /// Whether world position `(x, y)` is walkable.
    pub fn is_walkable(&self, x: i32, y: i32) -> (open: bool)
        requires
            self.wf(),
        ensures
            open == self.walkable_at(x as int, y as int),
    {
        self.cell(x as i64 - self.min_x as i64, y as i64 - self.min_y as i64)
    }

    /// Tests the cell `a` steps along the longer axis of a segment and `b`
    /// steps along its shorter axis.
    fn probe(
        &self,
        steep: bool,
        x0: i64,
        y0: i64,
        x_forward: bool,
        y_forward: bool,
        a: i64,
        b: i64,
    ) -> (open: bool)
        requires
            self.wf(),
            -0x1_0000_0000 <= x0 <= 0x1_0000_0000,
            -0x1_0000_0000 <= y0 <= 0x1_0000_0000,
            -1 <= a <= 0x1_0000_0000,
            -1 <= b <= 0x1_0000_0000,
        ensures
            open == self.cell_open(
                cell_x(steep, x0 as int, x_forward, a as int, b as int),
                cell_y(steep, y0 as int, y_forward, a as int, b as int),
            ),
    {
        let along_x: i64 = if steep { b } else { a };
        let along_y: i64 = if steep { a } else { b };
        let x: i64 = if x_forward { x0 + along_x } else { x0 - along_x };
        let y: i64 = if y_forward { y0 + along_y } else { y0 - along_y };
        self.cell(x, y)
    }

    /// Whether the straight segment between two world positions can be
    /// walked: every cell that it touches is walkable, both end cells
    /// included.
    ///
    /// The walk advances one cell at a time along the longer axis of the
    /// segment and keeps a running error term.  Whenever the shorter axis
    /// advances too, the error term tells on which side of the shared corner
    /// the segment passes, and the cell on that side is tested as well; if
    /// it passes through the corner, both are.
    pub fn can_walk_path(&self, x1: i32, y1: i32, x2: i32, y2: i32) -> (open: bool)
        requires
            self.wf(),
        ensures
            open == self.walkable_path(x1 as int, y1 as int, x2 as int, y2 as int),
    {
        let x0: i64 = x1 as i64 - self.min_x as i64;
        let y0: i64 = y1 as i64 - self.min_y as i64;
        let x_forward: bool = x2 >= x1;
        let y_forward: bool = y2 >= y1;
        let dx: i64 = if x_forward { x2 as i64 - x1 as i64 } else { x1 as i64 - x2 as i64 };
        let dy: i64 = if y_forward { y2 as i64 - y1 as i64 } else { y1 as i64 - y2 as i64 };
        let steep: bool = dx < dy;
        let major: i64 = if steep { dy } else { dx };
        let minor: i64 = if steep { dx } else { dy };
        let ghost gx2: int = x2 - self.min_x;
        let ghost gy2: int = y2 - self.min_y;
        proof {
            assert(gx2 == cell_x(steep, x0 as int, x_forward, major as int, minor as int));
            assert(gy2 == cell_y(steep, y0 as int, y_forward, major as int, minor as int));
        }

        if !self.probe(steep, x0, y0, x_forward, y_forward, 0, 0) {
            proof {
                lemma_supercover_ends(x0 as int, y0 as int, gx2, gy2);
            }
            return false;
        }
        if major == 0 {
            assert forall|cx: int, cy: int| #[trigger]
                on_supercover(x0 as int, y0 as int, gx2, gy2, cx, cy) implies self.cell_open(
                cx,
                cy,
            ) by {}
            return true;
        }
        let mut a: i64 = 0;
        let mut b: i64 = 0;
        let mut error: i64 = major;
        let mut error_prev: i64 = major;
        proof {
            assert(minor * 0 == 0 && major * 0 == 0) by (nonlinear_arith);
            assert forall|p: int, q: int| #[trigger]
                touches(major as int, minor as int, p, q) && p < 0 implies self.cell_open(
                cell_x(steep, x0 as int, x_forward, p, q),
                cell_y(steep, y0 as int, y_forward, p, q),
            ) by {}
            lemma_column(major as int, minor as int, 0, 0, major as int, -1);
        }
        while a < major
            invariant
                self.wf(),
                x0 == x1 - self.min_x,
                y0 == y1 - self.min_y,
                gx2 == x2 - self.min_x,
                gy2 == y2 - self.min_y,
                0 <= minor <= major <= 0xffff_ffff,
                0 < major,
                0 <= a <= major,
                0 <= b <= minor,
                error == major + 2 * (minor * a - major * b),
                0 < error <= 2 * major,
                error_prev == error,
                gx2 == cell_x(steep, x0 as int, x_forward, major as int, minor as int),
                gy2 == cell_y(steep, y0 as int, y_forward, major as int, minor as int),
                forall|p: int, q: int| #[trigger]
                    touches(major as int, minor as int, p, q) && p < a ==> self.cell_open(
                        cell_x(steep, x0 as int, x_forward, p, q),
                        cell_y(steep, y0 as int, y_forward, p, q),
                    ),
                self.cell_open(
                    cell_x(steep, x0 as int, x_forward, a as int, b as int),
                    cell_y(steep, y0 as int, y_forward, a as int, b as int),
                ),
                touches(major as int, minor as int, a as int, b - 1) ==> self.cell_open(
                    cell_x(steep, x0 as int, x_forward, a as int, b - 1),
                    cell_y(steep, y0 as int, y_forward, a as int, b - 1),
                ),
            decreases major - a,
        {
            let ghost a0: int = a as int;
            let ghost b0: int = b as int;
            let ghost e0: int = error as int;
            proof {
                lemma_column(major as int, minor as int, a0, b0, e0, 1);
                assert(minor * (a0 + 1) == minor * a0 + minor) by (nonlinear_arith);
                assert(major * (b0 + 1) == major * b0 + major) by (nonlinear_arith);
            }
            a = a + 1;
            error = error + 2 * minor;
            if error > 2 * major {
                b = b + 1;
                error = error - 2 * major;
                proof {
                    lemma_minor_offset(major as int, minor as int, a as int, b as int, error as int
                    );
                    lemma_column(major as int, minor as int, a as int, b as int, error as int, -1);
                }
                if error + error_prev < 2 * major {
                    if !self.probe(steep, x0, y0, x_forward, y_forward, a, b - 1) {
                        proof {
                            self.lemma_blocked(
                                steep,
                                x0 as int,
                                y0 as int,
                                x_forward,
                                y_forward,
                                major as int,
                                minor as int,
                                a as int,
                                b - 1,
                            );
                        }
                        return false;
                    }
                } else if error + error_prev > 2 * major {
                    if !self.probe(steep, x0, y0, x_forward, y_forward, a - 1, b) {
                        proof {
                            self.lemma_blocked(
                                steep,
                                x0 as int,
                                y0 as int,
                                x_forward,
                                y_forward,
                                major as int,
                                minor as int,
                                a - 1,
                                b as int,
                            );
                        }
                        return false;
                    }
                } else {
                    if !self.probe(steep, x0, y0, x_forward, y_forward, a, b - 1) {
                        proof {
                            self.lemma_blocked(
                                steep,
                                x0 as int,
                                y0 as int,
                                x_forward,
                                y_forward,
                                major as int,
                                minor as int,
                                a as int,
                                b - 1,
                            );
                        }
                        return false;
                    }
                    if !self.probe(steep, x0, y0, x_forward, y_forward, a - 1, b) {
                        proof {
                            self.lemma_blocked(
                                steep,
                                x0 as int,
                                y0 as int,
                                x_forward,
                                y_forward,
                                major as int,
                                minor as int,
                                a - 1,
                                b as int,
                            );
                        }
                        return false;
                    }
                }
            } else {
                proof {
                    lemma_column(major as int, minor as int, a as int, b as int, error as int, -1);
                }
            }
            proof {
                assert forall|p: int, q: int| #[trigger]
                    touches(major as int, minor as int, p, q) && p < a implies self.cell_open(
                    cell_x(steep, x0 as int, x_forward, p, q),
                    cell_y(steep, y0 as int, y_forward, p, q),
                ) by {
                    if p == a0 {
                        lemma_column(major as int, minor as int, a0, b0, e0, q - b0);
                    }
                }
            }
            if !self.probe(steep, x0, y0, x_forward, y_forward, a, b) {
                proof {
                    self.lemma_blocked(
                        steep,
                        x0 as int,
                        y0 as int,
                        x_forward,
                        y_forward,
                        major as int,
                        minor as int,
                        a as int,
                        b as int,
                    );
                }
                return false;
            }
            error_prev = error;
        }
        proof {
            self.lemma_walked(
                steep,
                x0 as int,
                y0 as int,
                x_forward,
                y_forward,
                major as int,
                minor as int,
                b as int,
                error as int,
            );
        }
        true
    }

    /// One touched cell that is not walkable blocks the whole segment.
    proof fn lemma_blocked(
        &self,
        steep: bool,
        x0: int,
        y0: int,
        x_forward: bool,
        y_forward: bool,
        major: int,
        minor: int,
        a: int,
        b: int,
    )
        requires
            0 <= minor <= major,
            touches(major, minor, a, b),
            !self.cell_open(
                cell_x(steep, x0, x_forward, a, b),
                cell_y(steep, y0, y_forward, a, b),
            ),
        ensures
            !self.path_open(
                x0,
                y0,
                cell_x(steep, x0, x_forward, major, minor),
                cell_y(steep, y0, y_forward, major, minor),
            ),
    {
        lemma_offsets(steep, x0, y0, x_forward, y_forward, major, minor, a, b);
    }

    /// Once the walk has reached the far end with every tested cell
    /// walkable, every touched cell is walkable.
    proof fn lemma_walked(
        &self,
        steep: bool,
        x0: int,
        y0: int,
        x_forward: bool,
        y_forward: bool,
        major: int,
        minor: int,
        b: int,
        error: int,
    )
        requires
            0 <= minor <= major,
            0 < major,
            0 <= b <= minor,
            error == major + 2 * (minor * major - major * b),
            0 < error <= 2 * major,
            forall|p: int, q: int| #[trigger]
                touches(major, minor, p, q) && p < major ==> self.cell_open(
                    cell_x(steep, x0, x_forward, p, q),
                    cell_y(steep, y0, y_forward, p, q),
                ),
            self.cell_open(
                cell_x(steep, x0, x_forward, major, b),
                cell_y(steep, y0, y_forward, major, b),
            ),
            touches(major, minor, major, b - 1) ==> self.cell_open(
                cell_x(steep, x0, x_forward, major, b - 1),
                cell_y(steep, y0, y_forward, major, b - 1),
            ),
        ensures
            self.path_open(
                x0,
                y0,
                cell_x(steep, x0, x_forward, major, minor),
                cell_y(steep, y0, y_forward, major, minor),
            ),
    {
        let x2 = cell_x(steep, x0, x_forward, major, minor);
        let y2 = cell_y(steep, y0, y_forward, major, minor);
        lemma_minor_offset(major, minor, major, b, error);
        assert forall|cx: int, cy: int| #[trigger]
            on_supercover(x0, y0, x2, y2, cx, cy) implies self.cell_open(cx, cy) by {
            let px = signed(x_forward, cx - x0);
            let py = signed(y_forward, cy - y0);
            let p = if steep { py } else { px };
            let q = if steep { px } else { py };
            assert(cell_x(steep, x0, x_forward, p, q) == cx);
            assert(cell_y(steep, y0, y_forward, p, q) == cy);
            lemma_offsets(steep, x0, y0, x_forward, y_forward, major, minor, p, q);
            assert(touches(major, minor, p, q));
            if p == major {
                lemma_column(major, minor, major, b, error, q - b);
            }
        }
    }
}

/// Every spawn point whose cell lies outside the clearance of every wall
/// is walkable in the grid of its map.
pub proof fn lemma_spawn_walkable(grid: Grid, g: GGeometry, spawns: Seq<GSpawn>, i: int)
    requires
        grid.built_from(g, spawns),
        0 <= i < spawns.len(),
        g.open_cell(g.seed_of(spawns[i]).0, g.seed_of(spawns[i]).1),
    ensures
        grid.walkable_at(spawns[i].x.cell_of(), spawns[i].y.cell_of()),
{
    let (sx, sy) = g.seed_of(spawns[i]);
    lemma_connected_self(g, sx, sy);
    assert(reached(g, spawns, spawns.len() as int, sx, sy));
    assert(grid.cell_open(sx, sy) == reached(g, spawns, spawns.len() as int, sx, sy));
}

/// No position inside the clearance of a wall is walkable.
pub proof fn lemma_wall_blocks(grid: Grid, g: GGeometry, spawns: Seq<GSpawn>, x: int, y: int)
    requires
        grid.built_from(g, spawns),
        g.walled(x - g.min_x, y - g.min_y),
    ensures
        !grid.walkable_at(x, y),
{
    let cx = x - g.min_x;
    let cy = y - g.min_y;
    if g.contains(cx, cy) {
        assert(grid.cell_open(cx, cy) == reached(g, spawns, spawns.len() as int, cx, cy));
        if reached(g, spawns, spawns.len() as int, cx, cy) {
            let k = choose|k: int|
                0 <= k < spawns.len() && crate::builder::connected(
                    g,
                    g.seed_of(#[trigger] spawns[k]).0,
                    g.seed_of(spawns[k]).1,
                    cx,
                    cy,
                );
            lemma_connected_ends(g, g.seed_of(spawns[k]).0, g.seed_of(spawns[k]).1, cx, cy);
        }
    }
}

/// A segment from a position to itself can be walked exactly when the
/// position is walkable.
pub proof fn lemma_path_to_self(grid: Grid, x: int, y: int)
    ensures
        grid.walkable_path(x, y, x, y) == grid.walkable_at(x, y),
{
    let cx = x - grid.min_x;
    let cy = y - grid.min_y;
    lemma_supercover_point(cx, cy, cx, cy);
    assert(on_supercover(cx, cy, cx, cy, cx, cy));
    if grid.cell_open(cx, cy) {
        assert forall|px: int, py: int| #[trigger]
            on_supercover(cx, cy, cx, cy, px, py) implies grid.cell_open(px, py) by {
            lemma_supercover_point(cx, cy, px, py);
        }
    }
}

/// A segment can be walked in one direction exactly when it can be walked
/// in the other.
pub proof fn lemma_path_symmetric(grid: Grid, x1: int, y1: int, x2: int, y2: int)
    ensures
        grid.walkable_path(x1, y1, x2, y2) == grid.walkable_path(x2, y2, x1, y1),
{
    let ax = x1 - grid.min_x;
    let ay = y1 - grid.min_y;
    let bx = x2 - grid.min_x;
    let by = y2 - grid.min_y;
    if grid.path_open(ax, ay, bx, by) {
        assert forall|px: int, py: int| #[trigger]
            on_supercover(bx, by, ax, ay, px, py) implies grid.cell_open(px, py) by {
            lemma_supercover_symmetric(ax, ay, bx, by, px, py);
            assert(on_supercover(ax, ay, bx, by, px, py));
        }
    }
    if grid.path_open(bx, by, ax, ay) {
        assert forall|px: int, py: int| #[trigger]
            on_supercover(ax, ay, bx, by, px, py) implies grid.cell_open(px, py) by {
            lemma_supercover_symmetric(ax, ay, bx, by, px, py);
            assert(on_supercover(bx, by, ax, ay, px, py));
        }
    }
}

/// Where a segment can be walked, every position that it touches is
/// walkable.
pub proof fn lemma_path_cells_walkable(
    grid: Grid,
    x1: int,
    y1: int,
    x2: int,
    y2: int,
    x: int,
    y: int,
)
    requires
        grid.walkable_path(x1, y1, x2, y2),
        on_supercover(x1, y1, x2, y2, x, y),
    ensures
        grid.walkable_at(x, y),
{
    let mx = grid.min_x as int;
    let my = grid.min_y as int;
    assert(((y2 - my) - (y1 - my)) * ((x - mx) - (x1 - mx)) - ((x2 - mx) - (x1 - mx)) * ((y - my)
        - (y1 - my)) == (y2 - y1) * (x - x1) - (x2 - x1) * (y - y1)) by (nonlinear_arith);
    assert(on_supercover(x1 - mx, y1 - my, x2 - mx, y2 - my, x - mx, y - my));
}

/// Two grids built from one description hold the same cells.
pub proof fn lemma_same_cells(a: Grid, b: Grid, g: GGeometry, spawns: Seq<GSpawn>, x: int, y: int)
    requires
        a.built_from(g, spawns),
        b.built_from(g, spawns),
    ensures
        a.cell_open(x, y) == b.cell_open(x, y),
{
    if g.contains(x, y) {
        assert(a.cell_open(x, y) == reached(g, spawns, spawns.len() as int, x, y));
        assert(b.cell_open(x, y) == reached(g, spawns, spawns.len() as int, x, y));
    }
}

/// Building the grid of a map again from the same description changes no
/// answer: two grids built from one description agree on every position and
/// on every segment.
pub proof fn lemma_same_answers(a: Grid, b: Grid, g: GGeometry, spawns: Seq<GSpawn>)
    requires
        a.built_from(g, spawns),
        b.built_from(g, spawns),
    ensures
        forall|x: int, y: int| a.walkable_at(x, y) == b.walkable_at(x, y),
        forall|x1: int, y1: int, x2: int, y2: int|
            a.walkable_path(x1, y1, x2, y2) == b.walkable_path(x1, y1, x2, y2),
{
    assert forall|x: int, y: int| a.cell_open(x, y) == b.cell_open(x, y) by {
        lemma_same_cells(a, b, g, spawns, x, y);
    }
    assert forall|x1: int, y1: int, x2: int, y2: int|
        a.path_open(x1, y1, x2, y2) == b.path_open(x1, y1, x2, y2) by {
        if a.path_open(x1, y1, x2, y2) {
            assert forall|cx: int, cy: int| #[trigger]
                on_supercover(x1, y1, x2, y2, cx, cy) implies b.cell_open(cx, cy) by {
                assert(a.cell_open(cx, cy));
            }
        }
        if b.path_open(x1, y1, x2, y2) {
            assert forall|cx: int, cy: int| #[trigger]
                on_supercover(x1, y1, x2, y2, cx, cy) implies a.cell_open(cx, cy) by {
                assert(b.cell_open(cx, cy));
            }
        }
    }
}

} // verus!
