//! The cells that a straight segment between two cell centres touches.
//!
//! A cell is the closed unit square around its integer centre.  The segment
//! from `(x1, y1)` to `(x2, y2)` touches the square around `(cx, cy)` exactly
//! when the centre lies in the bounding box of the two end points and is no
//! further from the line than the half-width of the square allows, which for
//! integer end points is the inequality in [`on_supercover`].  A segment
//! that runs through a corner shared by four cells touches all four.

use vstd::prelude::*;

verus! {

pub open spec fn abs(v: int) -> int {
    if v < 0 {
        -v
    } else {
        v
    }
}

pub open spec fn min(a: int, b: int) -> int {
    if a <= b {
        a
    } else {
        b
    }
}

pub open spec fn max(a: int, b: int) -> int {
    if a <= b {
        b
    } else {
        a
    }
}

/// Whether the segment from `(x1, y1)` to `(x2, y2)` touches the cell
/// `(cx, cy)`.
pub open spec fn on_supercover(x1: int, y1: int, x2: int, y2: int, cx: int, cy: int) -> bool {
    &&& min(x1, x2) <= cx <= max(x1, x2)
    &&& min(y1, y2) <= cy <= max(y1, y2)
    &&& 2 * abs((y2 - y1) * (cx - x1) - (x2 - x1) * (cy - y1)) <= abs(x2 - x1) + abs(y2 - y1)
}

/// `k` steps forward or backward.
pub open spec fn signed(forward: bool, k: int) -> int {
    if forward {
        k
    } else {
        -k
    }
}

/// The segment seen from its start: it runs `major` cells along its longer
/// axis and `minor` cells along the other.  Whether it touches the cell
/// `a` steps along the longer axis and `b` steps along the shorter one.
pub open spec fn touches(major: int, minor: int, a: int, b: int) -> bool {
    &&& 0 <= a <= major
    &&& 0 <= b <= minor
    &&& 2 * abs(minor * a - major * b) <= major + minor
}

/// The column of the cell `a` steps along the longer axis and `b` along the
/// shorter one; `steep` says that the longer axis is the vertical one.
pub open spec fn cell_x(steep: bool, x0: int, x_forward: bool, a: int, b: int) -> int {
    x0 + signed(x_forward, if steep { b } else { a })
}

/// The row of the cell `a` steps along the longer axis and `b` along the
/// shorter one.
pub open spec fn cell_y(steep: bool, y0: int, y_forward: bool, a: int, b: int) -> int {
    y0 + signed(y_forward, if steep { a } else { b })
}

/// The two views of a segment agree: a cell is touched in world terms exactly
/// when its offsets along the longer and the shorter axis are.
pub proof fn lemma_offsets(
    steep: bool,
    x0: int,
    y0: int,
    x_forward: bool,
    y_forward: bool,
    major: int,
    minor: int,
    a: int,
    b: int,
)
    requires
        0 <= minor <= major,
    ensures
        touches(major, minor, a, b) <==> on_supercover(
            x0,
            y0,
            cell_x(steep, x0, x_forward, major, minor),
            cell_y(steep, y0, y_forward, major, minor),
            cell_x(steep, x0, x_forward, a, b),
            cell_y(steep, y0, y_forward, a, b),
        ),
{
    let ex = signed(x_forward, if steep { minor } else { major });
    let ey = signed(y_forward, if steep { major } else { minor });
    let px = signed(x_forward, if steep { b } else { a });
    let py = signed(y_forward, if steep { a } else { b });
    let cross = ey * px - ex * py;
    let flat = minor * a - major * b;
    assert(cross == flat || cross == -flat) by (nonlinear_arith)
        requires
            cross == ey * px - ex * py,
            flat == minor * a - major * b,
            ex == signed(x_forward, if steep { minor } else { major }),
            ey == signed(y_forward, if steep { major } else { minor }),
            px == signed(x_forward, if steep { b } else { a }),
            py == signed(y_forward, if steep { a } else { b }),
    ;
}

/// Which cells of one column a shallow segment touches, read off the
/// running error term of the line walk.
pub proof fn lemma_column(major: int, minor: int, a: int, b: int, error: int, k: int)
    requires
        0 <= minor <= major,
        0 < major,
        0 <= a <= major,
        0 <= b <= minor,
        error == major + 2 * (minor * a - major * b),
        0 < error <= 2 * major,
    ensures
        touches(major, minor, a, b),
        touches(major, minor, a, b + k) ==> -1 <= k <= 1,
        touches(major, minor, a, b + 1) <==> (b + 1 <= minor && error >= 2 * major - minor),
        touches(major, minor, a, b - 1) <==> (1 <= b && error <= minor),
{
    assert(major * (b + k) == major * b + major * k) by (nonlinear_arith);
    assert(major * (b + 1) == major * b + major) by (nonlinear_arith);
    assert(major * (b - 1) == major * b - major) by (nonlinear_arith);
    if k >= 2 {
        assert(major * k >= 2 * major) by (nonlinear_arith)
            requires
                k >= 2,
                major > 0,
        ;
    }
    if k <= -2 {
        assert(major * k <= -2 * major) by (nonlinear_arith)
            requires
                k <= -2,
                major > 0,
        ;
    }
}

/// The error term of the line walk pins the offset along the shorter axis.
pub proof fn lemma_minor_offset(major: int, minor: int, a: int, b: int, error: int)
    requires
        0 <= minor <= major,
        0 < major,
        0 <= a <= major,
        error == major + 2 * (minor * a - major * b),
        0 < error <= 2 * major,
    ensures
        0 <= b <= minor,
        a == major ==> b == minor,
{
    assert(0 <= minor * a <= minor * major) by (nonlinear_arith)
        requires
            0 <= a <= major,
            0 <= minor,
    ;
    if b >= minor + 1 {
        assert(major * b >= major * (minor + 1)) by (nonlinear_arith)
            requires
                b >= minor + 1,
                major > 0,
        ;
        assert(major * (minor + 1) == minor * major + major) by (nonlinear_arith);
    }
    if b <= -1 {
        assert(major * b <= -major) by (nonlinear_arith)
            requires
                b <= -1,
                major > 0,
        ;
    }
    if a == major {
        assert(minor * a - major * b == major * (minor - b)) by (nonlinear_arith)
            requires
                a == major,
        ;
        if minor - b >= 1 {
            assert(major * (minor - b) >= major) by (nonlinear_arith)
                requires
                    minor - b >= 1,
                    major > 0,
            ;
        }
    }
}

/// A segment touches the same cells in either direction.
pub proof fn lemma_supercover_symmetric(x1: int, y1: int, x2: int, y2: int, cx: int, cy: int)
    ensures
        on_supercover(x1, y1, x2, y2, cx, cy) == on_supercover(x2, y2, x1, y1, cx, cy),
{
    assert((y1 - y2) * (cx - x2) - (x1 - x2) * (cy - y2) == -((y2 - y1) * (cx - x1) - (x2 - x1) * (
    cy - y1))) by (nonlinear_arith);
}

/// A segment of length zero touches its own cell and no other.
pub proof fn lemma_supercover_point(x: int, y: int, cx: int, cy: int)
    ensures
        on_supercover(x, y, x, y, cx, cy) <==> (cx == x && cy == y),
{
    assert((y - y) * (cx - x) - (x - x) * (cy - y) == 0) by (nonlinear_arith);
}

/// Both end points of a segment are among the cells it touches.
pub proof fn lemma_supercover_ends(x1: int, y1: int, x2: int, y2: int)
    ensures
        on_supercover(x1, y1, x2, y2, x1, y1),
        on_supercover(x1, y1, x2, y2, x2, y2),
{
    assert((y2 - y1) * (x1 - x1) - (x2 - x1) * (y1 - y1) == 0) by (nonlinear_arith);
    assert((y2 - y1) * (x2 - x1) - (x2 - x1) * (y2 - y1) == 0) by (nonlinear_arith);
}

} // verus!
