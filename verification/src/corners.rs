//! Waypoints at the corners of the walkable area.
//!
//! A walkable cell strictly inside the box is a corner when the pattern of
//! walkable cells among its eight neighbours is one of eight: four in
//! which the cell is closed in on two adjacent sides and open on the two
//! others, and four in which a single diagonal neighbour is all that is
//! not walkable.

use crate::consts::{
    INSIDE_1, INSIDE_1_IGNORE, INSIDE_2, INSIDE_2_IGNORE, INSIDE_3, INSIDE_3_IGNORE, INSIDE_4,
    INSIDE_4_IGNORE, OUTSIDE_1, OUTSIDE_2, OUTSIDE_3, OUTSIDE_4, WALKABLE,
};
use crate::scratch::Scratch;
use vstd::prelude::*;

verus! {

/// One if the cell `(x, y)` is `WALKABLE`, else zero.
pub open spec fn walk_bit(s: Scratch, x: int, y: int) -> int {
    if s.at(x, y) == WALKABLE {
        1
    } else {
        0
    }
}

/// The walkable neighbours of `(x, y)` as a mask, lowest bit first: upper
/// left, upper centre, upper right, middle left, middle right, lower left,
/// lower centre, lower right.  The upper row is the row `y - 1`.
pub open spec fn neighbour_mask(s: Scratch, x: int, y: int) -> int {
    walk_bit(s, x - 1, y - 1) + 2 * walk_bit(s, x, y - 1) + 4 * walk_bit(s, x + 1, y - 1) + 8
        * walk_bit(s, x - 1, y) + 16 * walk_bit(s, x + 1, y) + 32 * walk_bit(s, x - 1, y + 1) + 64
        * walk_bit(s, x, y + 1) + 128 * walk_bit(s, x + 1, y + 1)
}

/// Whether a neighbour mask is one of the eight corner patterns.
pub open spec fn is_corner_mask(mask: u8) -> bool {
    ||| (mask | INSIDE_1_IGNORE) == INSIDE_1
    ||| (mask | INSIDE_2_IGNORE) == INSIDE_2
    ||| (mask | INSIDE_3_IGNORE) == INSIDE_3
    ||| (mask | INSIDE_4_IGNORE) == INSIDE_4
    ||| mask == OUTSIDE_1
    ||| mask == OUTSIDE_2
    ||| mask == OUTSIDE_3
    ||| mask == OUTSIDE_4
}

/// Whether the cell `(x, y)` is a corner of the walkable area.
pub open spec fn is_corner(s: Scratch, x: int, y: int) -> bool {
    &&& 1 <= x < s.width - 1
    &&& 1 <= y < s.height - 1
    &&& s.at(x, y) == WALKABLE
    &&& is_corner_mask(neighbour_mask(s, x, y) as u8)
}

/// Whether `a` comes before `b` when cells are read row by row.
pub open spec fn row_major_before(a: (i32, i32), b: (i32, i32)) -> bool {
    a.1 < b.1 || (a.1 == b.1 && a.0 < b.0)
}

/// Whether `points` lists, row by row and each once, the corners among the
/// cells that come before `(x, y)`, each moved by `(min_x, min_y)`.
pub open spec fn corners_before(
    s: Scratch,
    min_x: int,
    min_y: int,
    points: Seq<(i32, i32)>,
    x: int,
    y: int,
) -> bool {
    &&& forall|k: int|
        0 <= k < points.len() ==> {
            let p = #[trigger] points[k];
            &&& is_corner(s, p.0 - min_x, p.1 - min_y)
            &&& (p.1 - min_y < y || (p.1 - min_y == y && p.0 - min_x < x))
        }
    &&& forall|cx: int, cy: int|
        #[trigger] is_corner(s, cx, cy) && (cy < y || (cy == y && cx < x)) ==> exists|k: int|
            0 <= k < points.len() && #[trigger] points[k] == ((cx + min_x) as i32, (cy + min_y) as i32)
    &&& forall|j: int, k: int|
        0 <= j < k < points.len() ==> row_major_before(#[trigger] points[j], #[trigger] points[k])
}

/// Whether `points` lists the corners of the walkable area, row by row and
/// each once, each moved by `(min_x, min_y)`.
pub open spec fn lists_corners(s: Scratch, min_x: int, min_y: int, points: Seq<(i32, i32)>) -> bool {
    corners_before(s, min_x, min_y, points, 0, s.height as int)
}

/// Whether a neighbour mask is one of the eight corner patterns.
pub fn corner_mask(mask: u8) -> (corner: bool)
    ensures
        corner == is_corner_mask(mask),
{
    (mask | INSIDE_1_IGNORE) == INSIDE_1 || (mask | INSIDE_2_IGNORE) == INSIDE_2 || (mask
        | INSIDE_3_IGNORE) == INSIDE_3 || (mask | INSIDE_4_IGNORE) == INSIDE_4 || mask == OUTSIDE_1
        || mask == OUTSIDE_2 || mask == OUTSIDE_3 || mask == OUTSIDE_4
}

/// The walkable neighbours of a cell strictly inside the box, as a mask.
pub fn mask_at(scratch: &Scratch, x: i32, y: i32) -> (mask: u8)
    requires
        scratch.wf(),
        1 <= x < scratch.width - 1,
        1 <= y < scratch.height - 1,
    ensures
        mask == neighbour_mask(*scratch, x as int, y as int),
{
    let mut mask: u8 = 0;
    if scratch.get(x - 1, y - 1) == WALKABLE {
        mask = mask + 1;
    }
    if scratch.get(x, y - 1) == WALKABLE {
        mask = mask + 2;
    }
    if scratch.get(x + 1, y - 1) == WALKABLE {
        mask = mask + 4;
    }
    if scratch.get(x - 1, y) == WALKABLE {
        mask = mask + 8;
    }
    if scratch.get(x + 1, y) == WALKABLE {
        mask = mask + 16;
    }
    if scratch.get(x - 1, y + 1) == WALKABLE {
        mask = mask + 32;
    }
    if scratch.get(x, y + 1) == WALKABLE {
        mask = mask + 64;
    }
    if scratch.get(x + 1, y + 1) == WALKABLE {
        mask = mask + 128;
    }
    mask
}

/// Lists the corners of the walkable area in world coordinates, row by row.
pub fn detect_corners(scratch: &Scratch, min_x: i32, min_y: i32) -> (points: Vec<(i32, i32)>)
    requires
        scratch.wf(),
        min_x + scratch.width <= i32::MAX,
        min_y + scratch.height <= i32::MAX,
    ensures
        lists_corners(*scratch, min_x as int, min_y as int, points@),
        points@.len() <= scratch.width * scratch.height,
{
    let mut points: Vec<(i32, i32)> = Vec::new();
    let width: i32 = scratch.width;
    let height: i32 = scratch.height;
    assert(0 <= width * height) by (nonlinear_arith)
        requires
            0 <= width,
            0 <= height,
    ;
    if height < 2 {
        return points;
    }
    let mut y: i32 = 1;
    while y < height - 1
        invariant
            scratch.wf(),
            width == scratch.width,
            height == scratch.height,
            min_x + width <= i32::MAX,
            min_y + height <= i32::MAX,
            1 <= y <= height - 1,
            corners_before(*scratch, min_x as int, min_y as int, points@, 0, y as int),
            points@.len() <= (y - 1) * width,
        decreases height - y,
    {
        let mut x: i32 = 1;
        proof {
            assert(corners_before(*scratch, min_x as int, min_y as int, points@, 1, y as int));
            assert(y * width == (y - 1) * width + width) by (nonlinear_arith);
        }
        while x < width - 1
            invariant
                scratch.wf(),
                width == scratch.width,
                height == scratch.height,
                min_x + width <= i32::MAX,
                min_y + height <= i32::MAX,
                1 <= y < height - 1,
                1 <= x,
                x <= width - 1 || x == 1,
                corners_before(*scratch, min_x as int, min_y as int, points@, x as int, y as int),
                points@.len() <= (y - 1) * width + (x - 1),
            decreases width - x,
        {
            let ghost before = points@;
            let mut found: bool = false;
            if scratch.get(x, y) == WALKABLE {
                let mask: u8 = mask_at(scratch, x, y);
                if corner_mask(mask) {
                    points.push((x + min_x, y + min_y));
                    found = true;
                }
            }
            proof {
                assert(found == is_corner(*scratch, x as int, y as int));
                let s = *scratch;
                let after = points@;
                assert forall|k: int| 0 <= k < after.len() implies {
                    let p = #[trigger] after[k];
                    &&& is_corner(s, p.0 - min_x, p.1 - min_y)
                    &&& (p.1 - min_y < y || (p.1 - min_y == y && p.0 - min_x < x + 1))
                } by {
                    if k < before.len() {
                        assert(after[k] == before[k]);
                    }
                }
                assert forall|cx: int, cy: int|
                    #[trigger] is_corner(s, cx, cy) && (cy < y || (cy == y && cx < x
                        + 1)) implies exists|k: int|
                    0 <= k < after.len() && #[trigger] after[k] == ((cx + min_x) as i32, (cy
                        + min_y) as i32) by {
                    if cy == y && cx == x {
                        assert(after[after.len() - 1] == ((cx + min_x) as i32, (cy + min_y) as i32));
                    } else {
                        let k = choose|k: int|
                            0 <= k < before.len() && #[trigger] before[k] == ((cx + min_x) as i32, (
                            cy + min_y) as i32);
                        assert(after[k] == before[k]);
                    }
                }
                assert forall|j: int, k: int| 0 <= j < k < after.len() implies row_major_before(
                    #[trigger] after[j],
                    #[trigger] after[k],
                ) by {
                    assert(after[j] == before[j]);
                    if k < before.len() {
                        assert(after[k] == before[k]);
                    }
                }
            }
            x = x + 1;
        }
        proof {
            let s = *scratch;
            assert forall|cx: int, cy: int|
                #[trigger] is_corner(s, cx, cy) && (cy < y + 1 || (cy == y + 1 && cx
                    < 0)) implies exists|k: int|
                0 <= k < points@.len() && #[trigger] points@[k] == ((cx + min_x) as i32, (cy
                    + min_y) as i32) by {
                assert(cy < y || (cy == y && cx < x));
            }
        }
        y = y + 1;
    }
    proof {
        assert((y - 1) * width <= width * height) by (nonlinear_arith)
            requires
                1 <= y <= height,
                0 <= width,
        ;
        let s = *scratch;
        assert forall|cx: int, cy: int|
            #[trigger] is_corner(s, cx, cy) && (cy < height || (cy == height && cx
                < 0)) implies exists|k: int|
            0 <= k < points@.len() && #[trigger] points@[k] == ((cx + min_x) as i32, (cy
                + min_y) as i32) by {
            assert(cy < y || (cy == y && cx < 0));
        }
    }
    points
}

} // verus!
