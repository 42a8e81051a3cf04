//! Building the scratch grid of a map: walls first, then one fill from each
//! spawn point.
//!
//! The result is stated over the geometry alone.  A cell inside the clearance
//! of a wall is `NOT_WALKABLE`.  Any other cell is `WALKABLE` exactly when a
//! route of such cells, each next to the one before it in its row or its
//! column, leads to it from the cell of some spawn point; else it stays
//! `UNKNOWN`.

use crate::consts::{BASE_H, BASE_V, BASE_VN, NOT_WALKABLE, UNKNOWN, WALKABLE};
use crate::error::PrepareError;
use crate::flood::{adjacent, flood, is_trail, linked};
use crate::g::{lines_complete, lines_of, GGeometry, GSpawn};
use crate::scratch::Scratch;
use vstd::prelude::*;

verus! {

/// Whether `route` is a non-empty walk over open cells of the geometry in
/// which each cell shares an edge with the next.
pub open spec fn is_route(g: GGeometry, route: Seq<(int, int)>) -> bool {
    &&& route.len() > 0
    &&& forall|i: int| 0 <= i < route.len() ==> g.open_cell((#[trigger] route[i]).0, route[i].1)
    &&& forall|i: int|
        0 <= i < route.len() - 1 ==> adjacent(
            (#[trigger] route[i]).0,
            route[i].1,
            route[i + 1].0,
            route[i + 1].1,
        )
}

/// Whether a route over open cells leads from `(sx, sy)` to `(x, y)`.
pub open spec fn connected(g: GGeometry, sx: int, sy: int, x: int, y: int) -> bool {
    exists|route: Seq<(int, int)>| #[trigger]
        is_route(g, route) && route[0] == (sx, sy) && route.last() == (x, y)
}

/// Whether a route over open cells leads to `(x, y)` from the cell of one
/// of the first `n` spawn points.
pub open spec fn reached(g: GGeometry, spawns: Seq<GSpawn>, n: int, x: int, y: int) -> bool {
    exists|k: int|
        0 <= k < n && connected(
            g,
            g.seed_of(#[trigger] spawns[k]).0,
            g.seed_of(spawns[k]).1,
            x,
            y,
        )
}

/// What the scratch grid holds at `(x, y)` once the walls are painted and
/// the first `n` spawn points have been filled from.
pub open spec fn cell_state(g: GGeometry, spawns: Seq<GSpawn>, n: int, x: int, y: int) -> u8 {
    if g.walled(x, y) {
        NOT_WALKABLE
    } else if reached(g, spawns, n, x, y) {
        WALKABLE
    } else {
        UNKNOWN
    }
}

/// Whether `s` is the scratch grid of the geometry after the walls and the
/// first `n` spawn points.
pub open spec fn filled(g: GGeometry, s: Scratch, spawns: Seq<GSpawn>, n: int) -> bool {
    &&& s.wf()
    &&& s.width == g.width()
    &&& s.height == g.height()
    &&& forall|x: int, y: int|
        s.contains(x, y) ==> #[trigger] s.at(x, y) == cell_state(g, spawns, n, x, y)
}

/// Both ends of a route are open cells.
pub proof fn lemma_connected_ends(g: GGeometry, sx: int, sy: int, x: int, y: int)
    requires
        connected(g, sx, sy, x, y),
    ensures
        g.open_cell(sx, sy),
        g.open_cell(x, y),
{
    let route = choose|route: Seq<(int, int)>| #[trigger]
        is_route(g, route) && route[0] == (sx, sy) && route.last() == (x, y);
    assert(g.open_cell(route[0].0, route[0].1));
    assert(g.open_cell(route[route.len() - 1].0, route[route.len() - 1].1));
}

/// An open cell is connected to itself.
pub proof fn lemma_connected_self(g: GGeometry, x: int, y: int)
    requires
        g.open_cell(x, y),
    ensures
        connected(g, x, y, x, y),
{
    let route = seq![(x, y)];
    assert(is_route(g, route));
    assert(route[0] == (x, y) && route.last() == (x, y));
}

/// Every cell of a route is connected to the start of the route, and the
/// end of the route to it.
pub proof fn lemma_route_split(g: GGeometry, route: Seq<(int, int)>, i: int)
    requires
        is_route(g, route),
        0 <= i < route.len(),
    ensures
        connected(g, route[0].0, route[0].1, route[i].0, route[i].1),
        connected(g, route[i].0, route[i].1, route.last().0, route.last().1),
{
    let front = route.subrange(0, i + 1);
    assert forall|j: int| 0 <= j < front.len() implies g.open_cell(
        (#[trigger] front[j]).0,
        front[j].1,
    ) by {
        assert(front[j] == route[j]);
    }
    assert forall|j: int| 0 <= j < front.len() - 1 implies adjacent(
        (#[trigger] front[j]).0,
        front[j].1,
        front[j + 1].0,
        front[j + 1].1,
    ) by {
        assert(front[j] == route[j]);
        assert(front[j + 1] == route[j + 1]);
    }
    assert(is_route(g, front));
    assert(front[0] == route[0] && front.last() == route[i]);
    let back = route.subrange(i, route.len() as int);
    assert forall|j: int| 0 <= j < back.len() implies g.open_cell(
        (#[trigger] back[j]).0,
        back[j].1,
    ) by {
        assert(back[j] == route[i + j]);
    }
    assert forall|j: int| 0 <= j < back.len() - 1 implies adjacent(
        (#[trigger] back[j]).0,
        back[j].1,
        back[j + 1].0,
        back[j + 1].1,
    ) by {
        assert(back[j] == route[i + j]);
        assert(back[j + 1] == route[i + j + 1]);
    }
    assert(is_route(g, back));
    assert(back[0] == route[i] && back.last() == route.last());
}

/// Routes can be walked one after the other.
pub proof fn lemma_connected_join(
    g: GGeometry,
    ax: int,
    ay: int,
    bx: int,
    by: int,
    cx: int,
    cy: int,
)
    requires
        connected(g, ax, ay, bx, by),
        connected(g, bx, by, cx, cy),
    ensures
        connected(g, ax, ay, cx, cy),
{
    let first = choose|route: Seq<(int, int)>| #[trigger]
        is_route(g, route) && route[0] == (ax, ay) && route.last() == (bx, by);
    let second = choose|route: Seq<(int, int)>| #[trigger]
        is_route(g, route) && route[0] == (bx, by) && route.last() == (cx, cy);
    let rest = second.subrange(1, second.len() as int);
    let joined = first + rest;
    let n = first.len() as int;
    assert forall|j: int| 0 <= j < joined.len() implies g.open_cell(
        (#[trigger] joined[j]).0,
        joined[j].1,
    ) by {
        if j < n {
            assert(joined[j] == first[j]);
        } else {
            assert(joined[j] == second[j - n + 1]);
        }
    }
    assert forall|j: int| 0 <= j < joined.len() - 1 implies adjacent(
        (#[trigger] joined[j]).0,
        joined[j].1,
        joined[j + 1].0,
        joined[j + 1].1,
    ) by {
        if j + 1 < n {
            assert(joined[j] == first[j]);
            assert(joined[j + 1] == first[j + 1]);
        } else if j + 1 == n {
            assert(joined[j] == first[j]);
            assert(first[j] == second[0]);
            assert(joined[j + 1] == second[1]);
        } else {
            assert(joined[j] == second[j - n + 1]);
            assert(joined[j + 1] == second[j - n + 1 + 1]);
        }
    }
    assert(is_route(g, joined));
    assert(joined[0] == first[0]);
    if rest.len() == 0 {
        assert(joined.last() == first.last());
        assert(second.last() == second[0]);
    } else {
        assert(joined.last() == second.last());
    }
}

/// Filling from the cell of the next spawn point takes the scratch grid
/// from the state after `n` spawn points to the state after `n + 1`.
proof fn lemma_fill_step(g: GGeometry, spawns: Seq<GSpawn>, n: int, s: Scratch, s2: Scratch)
    requires
        0 <= n < spawns.len(),
        filled(g, s, spawns, n),
        s.contains(g.seed_of(spawns[n]).0, g.seed_of(spawns[n]).1),
        s2.wf(),
        s2.width == s.width,
        s2.height == s.height,
        forall|x: int, y: int|
            s.contains(x, y) ==> #[trigger] s2.at(x, y) == if linked(
                s,
                g.seed_of(spawns[n]).0,
                g.seed_of(spawns[n]).1,
                x,
                y,
            ) {
                WALKABLE
            } else {
                s.at(x, y)
            },
    ensures
        filled(g, s2, spawns, n + 1),
{
    let (sx, sy) = g.seed_of(spawns[n]);
    assert forall|x: int, y: int| s2.contains(x, y) implies #[trigger] s2.at(x, y) == cell_state(
        g,
        spawns,
        n + 1,
        x,
        y,
    ) by {
        assert(s.at(x, y) == cell_state(g, spawns, n, x, y));
        if linked(s, sx, sy, x, y) {
            lemma_trail_routes(g, spawns, n, s, sx, sy, x, y);
            assert(g.seed_of(spawns[n]) == (sx, sy));
        } else if connected(g, sx, sy, x, y) {
            lemma_connected_ends(g, sx, sy, x, y);
            if !reached(g, spawns, n, x, y) {
                lemma_route_trails(g, spawns, n, s, sx, sy, x, y);
            }
        } else {
            if reached(g, spawns, n + 1, x, y) {
                let k = choose|k: int|
                    0 <= k < n + 1 && connected(
                        g,
                        g.seed_of(#[trigger] spawns[k]).0,
                        g.seed_of(spawns[k]).1,
                        x,
                        y,
                    );
                assert(k < n);
            }
        }
        if reached(g, spawns, n, x, y) {
            let k = choose|k: int|
                0 <= k < n && connected(
                    g,
                    g.seed_of(#[trigger] spawns[k]).0,
                    g.seed_of(spawns[k]).1,
                    x,
                    y,
                );
            assert(0 <= k < n + 1);
            lemma_connected_ends(g, g.seed_of(spawns[k]).0, g.seed_of(spawns[k]).1, x, y);
        }
    }
}

/// A trail over the `UNKNOWN` cells of the scratch grid is a route over
/// open cells of the geometry.
proof fn lemma_trail_routes(
    g: GGeometry,
    spawns: Seq<GSpawn>,
    n: int,
    s: Scratch,
    sx: int,
    sy: int,
    x: int,
    y: int,
)
    requires
        filled(g, s, spawns, n),
        linked(s, sx, sy, x, y),
    ensures
        connected(g, sx, sy, x, y),
{
    let trail = choose|trail: Seq<(int, int)>| #[trigger]
        is_trail(s, trail) && trail[0] == (sx, sy) && trail.last() == (x, y);
    assert forall|i: int| 0 <= i < trail.len() implies g.open_cell(
        (#[trigger] trail[i]).0,
        trail[i].1,
    ) by {
        assert(s.unknown_at(trail[i].0, trail[i].1));
        assert(s.at(trail[i].0, trail[i].1) == cell_state(g, spawns, n, trail[i].0, trail[i].1));
    }
    assert(is_route(g, trail));
}

/// A route to a cell that no earlier spawn point reaches runs over cells
/// that none of them reaches, which are the `UNKNOWN` cells of the scratch
/// grid.
proof fn lemma_route_trails(
    g: GGeometry,
    spawns: Seq<GSpawn>,
    n: int,
    s: Scratch,
    sx: int,
    sy: int,
    x: int,
    y: int,
)
    requires
        filled(g, s, spawns, n),
        connected(g, sx, sy, x, y),
        !reached(g, spawns, n, x, y),
    ensures
        linked(s, sx, sy, x, y),
{
    let route = choose|route: Seq<(int, int)>| #[trigger]
        is_route(g, route) && route[0] == (sx, sy) && route.last() == (x, y);
    assert forall|i: int| 0 <= i < route.len() implies s.unknown_at(
        (#[trigger] route[i]).0,
        route[i].1,
    ) by {
        let (cx, cy) = route[i];
        assert(g.open_cell(route[i].0, route[i].1));
        assert(s.at(cx, cy) == cell_state(g, spawns, n, cx, cy));
        if reached(g, spawns, n, cx, cy) {
            let k = choose|k: int|
                0 <= k < n && connected(
                    g,
                    g.seed_of(#[trigger] spawns[k]).0,
                    g.seed_of(spawns[k]).1,
                    cx,
                    cy,
                );
            lemma_route_split(g, route, i);
            lemma_connected_join(
                g,
                g.seed_of(spawns[k]).0,
                g.seed_of(spawns[k]).1,
                cx,
                cy,
                x,
                y,
            );
        }
    }
    assert(is_trail(s, route));
}

/// Paints `NOT_WALKABLE` over the part of a rectangle that lies in the
/// box: the columns from `x_from` up to `x_to` of the rows from `y_from`
/// up to `y_to`.
pub fn paint_rect(scratch: &mut Scratch, x_from: i64, x_to: i64, y_from: i64, y_to: i64)
    requires
        old(scratch).wf(),
    ensures
        final(scratch).wf(),
        final(scratch).width == old(scratch).width,
        final(scratch).height == old(scratch).height,
        forall|x: int, y: int|
            old(scratch).contains(x, y) ==> #[trigger] final(scratch).at(x, y) == if x_from <= x
                < x_to && y_from <= y < y_to {
                NOT_WALKABLE
            } else {
                old(scratch).at(x, y)
            },
{
    let ghost before = *scratch;
    let width: i64 = scratch.width as i64;
    let height: i64 = scratch.height as i64;
    let x_low: i64 = if x_from < 0 { 0 } else { x_from };
    let x_high: i64 = if x_to > width { width } else { x_to };
    let y_low: i64 = if y_from < 0 { 0 } else { y_from };
    let y_high: i64 = if y_to > height { height } else { y_to };
    let mut y: i64 = y_low;
    while y < y_high
        invariant
            scratch.wf(),
            scratch.width == before.width,
            scratch.height == before.height,
            width == before.width,
            height == before.height,
            0 <= x_low,
            x_high <= width,
            x_low == if x_from < 0 { 0 } else { x_from },
            x_high == if x_to > width { width } else { x_to },
            y_low == if y_from < 0 { 0 } else { y_from },
            y_high == if y_to > height { height } else { y_to },
            0 <= y_low <= y,
            y <= y_high || y == y_low,
            forall|cx: int, cy: int|
                before.contains(cx, cy) ==> #[trigger] scratch.at(cx, cy) == if x_from <= cx < x_to
                    && y_from <= cy < y {
                    NOT_WALKABLE
                } else {
                    before.at(cx, cy)
                },
        decreases y_high - y,
    {
        let mut x: i64 = x_low;
        while x < x_high
            invariant
                scratch.wf(),
                scratch.width == before.width,
                scratch.height == before.height,
                width == before.width,
                height == before.height,
                0 <= x_low <= x,
                x_high <= width,
                x <= x_high || x == x_low,
                x_low == if x_from < 0 { 0 } else { x_from },
                x_high == if x_to > width { width } else { x_to },
                y_low == if y_from < 0 { 0 } else { y_from },
                0 <= y_low <= y < y_high <= height,
                forall|cx: int, cy: int|
                    before.contains(cx, cy) ==> #[trigger] scratch.at(cx, cy) == if x_from <= cx
                        < x_to && (y_from <= cy < y || (cy == y && cx < x)) {
                        NOT_WALKABLE
                    } else {
                        before.at(cx, cy)
                    },
            decreases x_high - x,
        {
            let ghost s1 = *scratch;
            scratch.set(x as i32, y as i32, NOT_WALKABLE);
            proof {
                assert forall|cx: int, cy: int| before.contains(cx, cy) implies #[trigger]
                    scratch.at(cx, cy) == if x_from <= cx < x_to && (y_from <= cy < y || (cy == y
                    && cx < x + 1)) {
                    NOT_WALKABLE
                } else {
                    before.at(cx, cy)
                } by {
                    if !(cx == x && cy == y) {
                        assert(scratch.at(cx, cy) == s1.at(cx, cy));
                    }
                }
            }
            x = x + 1;
        }
        y = y + 1;
    }
}

/// Paints the clearance of every wall of the geometry onto a scratch grid
/// whose cells are all `UNKNOWN`.
pub(crate) fn paint_walls(geometry: &GGeometry, scratch: &mut Scratch)
    requires
        !geometry.malformed(),
        old(scratch).wf(),
        old(scratch).width == geometry.width(),
        old(scratch).height == geometry.height(),
        forall|x: int, y: int|
            old(scratch).contains(x, y) ==> #[trigger] old(scratch).at(x, y) == UNKNOWN,
    ensures
        filled(*geometry, *final(scratch), Seq::empty(), 0),
{
    let ghost g = *geometry;
    let min_x: i64 = geometry.min_x as i64;
    let min_y: i64 = geometry.min_y as i64;
    let ghost mut ny: int = 0;
    match &geometry.y_lines {
        None => {},
        Some(lines) => {
            let mut i: usize = 0;
            while i < lines.len()
                invariant
                    g == *geometry,
                    geometry.y_lines == Some(*lines),
                    lines_complete(lines@),
                    min_x == geometry.min_x,
                    min_y == geometry.min_y,
                    0 <= i <= lines.len(),
                    scratch.wf(),
                    scratch.width == geometry.width(),
                    scratch.height == geometry.height(),
                    forall|x: int, y: int|
                        scratch.contains(x, y) ==> #[trigger] scratch.at(x, y) == if g.walled_by(
                            i as int,
                            0,
                            x,
                            y,
                        ) {
                            NOT_WALKABLE
                        } else {
                            UNKNOWN
                        },
                decreases lines.len() - i,
            {
                let line = &lines[i];
                assert(line@.len() >= 3);
                let ghost s1 = *scratch;
                paint_rect(
                    scratch,
                    line[1] as i64 - min_x - BASE_H as i64,
                    line[2] as i64 - min_x + BASE_H as i64,
                    line[0] as i64 - min_y - BASE_VN as i64,
                    line[0] as i64 - min_y + BASE_V as i64,
                );
                proof {
                    assert forall|x: int, y: int| scratch.contains(x, y) implies #[trigger]
                        scratch.at(x, y) == if g.walled_by(i + 1, 0, x, y) {
                        NOT_WALKABLE
                    } else {
                        UNKNOWN
                    } by {
                        assert(s1.at(x, y) == if g.walled_by(i as int, 0, x, y) {
                            NOT_WALKABLE
                        } else {
                            UNKNOWN
                        });
                        assert(lines_of(g.y_lines)[i as int] == *line);
                        if g.walled_by(i + 1, 0, x, y) && !g.walled_by(i as int, 0, x, y) {
                            let k = choose|k: int|
                                0 <= k < i + 1 && g.y_line_covers(
                                    (#[trigger] lines_of(g.y_lines)[k])@,
                                    x,
                                    y,
                                );
                            assert(k == i);
                        }
                    }
                }
                i = i + 1;
            }
            proof {
                ny = lines.len() as int;
            }
        },
    }
    assert(ny == lines_of(g.y_lines).len());
    match &geometry.x_lines {
        None => {},
        Some(lines) => {
            let mut i: usize = 0;
            while i < lines.len()
                invariant
                    g == *geometry,
                    ny == lines_of(g.y_lines).len(),
                    geometry.x_lines == Some(*lines),
                    lines_complete(lines@),
                    min_x == geometry.min_x,
                    min_y == geometry.min_y,
                    0 <= i <= lines.len(),
                    scratch.wf(),
                    scratch.width == geometry.width(),
                    scratch.height == geometry.height(),
                    forall|x: int, y: int|
                        scratch.contains(x, y) ==> #[trigger] scratch.at(x, y) == if g.walled_by(
                            ny,
                            i as int,
                            x,
                            y,
                        ) {
                            NOT_WALKABLE
                        } else {
                            UNKNOWN
                        },
                decreases lines.len() - i,
            {
                let line = &lines[i];
                assert(line@.len() >= 3);
                let ghost s1 = *scratch;
                paint_rect(
                    scratch,
                    line[0] as i64 - min_x - BASE_H as i64,
                    line[0] as i64 - min_x + BASE_H as i64,
                    line[1] as i64 - min_y - BASE_VN as i64,
                    line[2] as i64 - min_y + BASE_V as i64,
                );
                proof {
                    assert forall|x: int, y: int| scratch.contains(x, y) implies #[trigger]
                        scratch.at(x, y) == if g.walled_by(ny, i + 1, x, y) {
                        NOT_WALKABLE
                    } else {
                        UNKNOWN
                    } by {
                        assert(s1.at(x, y) == if g.walled_by(ny, i as int, x, y) {
                            NOT_WALKABLE
                        } else {
                            UNKNOWN
                        });
                        assert(lines_of(g.x_lines)[i as int] == *line);
                        if g.walled_by(ny, i + 1, x, y) && !g.walled_by(ny, i as int, x, y) {
                            let k = choose|k: int|
                                0 <= k < i + 1 && g.x_line_covers(
                                    (#[trigger] lines_of(g.x_lines)[k])@,
                                    x,
                                    y,
                                );
                            assert(k == i);
                        }
                    }
                }
                i = i + 1;
            }
        },
    }
    proof {
        assert forall|x: int, y: int| scratch.contains(x, y) implies #[trigger] scratch.at(x, y)
            == cell_state(g, Seq::empty(), 0, x, y) by {
            assert(!reached(g, Seq::empty(), 0, x, y));
        }
    }
}

/// Whether every wall in a list has its three numbers.
pub fn check_lines(lines: &Option<Vec<Vec<i32>>>) -> (complete: bool)
    ensures
        complete == lines_complete(lines_of(*lines)),
{
    match lines {
        None => true,
        Some(v) => {
            let mut i: usize = 0;
            while i < v.len()
                invariant
                    *lines == Some(*v),
                    0 <= i <= v.len(),
                    forall|k: int| 0 <= k < i ==> (#[trigger] v@[k])@.len() >= 3,
                decreases v.len() - i,
            {
                if v[i].len() < 3 {
                    assert(lines_of(*lines)[i as int]@.len() < 3);
                    return false;
                }
                i = i + 1;
            }
            true
        },
    }
}

/// Builds the scratch grid of a map: paints the clearance of its walls and
/// fills from the cell of each spawn point in turn.
///
/// Fails with `MalformedInput` when the geometry is malformed or a spawn
/// point falls outside the box, and with `CapacityExceeded` when the box has
/// more than `i32::MAX` cells.
pub fn build_scratch(geometry: &GGeometry, spawns: &Vec<GSpawn>) -> (result: Result<
    Scratch,
    PrepareError,
>)
    ensures
        match result {
            Ok(scratch) => geometry.build_failure(spawns@).is_none() && filled(
                *geometry,
                scratch,
                spawns@,
                spawns@.len() as int,
            ),
            Err(e) => geometry.build_failure(spawns@) == Some(e),
        },
{
    if geometry.max_x < geometry.min_x || geometry.max_y < geometry.min_y {
        return Err(PrepareError::MalformedInput);
    }
    if !check_lines(&geometry.x_lines) || !check_lines(&geometry.y_lines) {
        return Err(PrepareError::MalformedInput);
    }
    let width: i64 = geometry.max_x as i64 - geometry.min_x as i64;
    let height: i64 = geometry.max_y as i64 - geometry.min_y as i64;
    assert(0 <= width * height <= 0x1_0000_0000 * 0x1_0000_0000) by (nonlinear_arith)
        requires
            0 <= width <= 0x1_0000_0000,
            0 <= height <= 0x1_0000_0000,
    ;
    if width > i32::MAX as i64 || height > i32::MAX as i64 || (width as i128) * (height as i128)
        > i32::MAX as i128 {
        return Err(PrepareError::CapacityExceeded);
    }
    let mut scratch = Scratch::new(width as i32, height as i32);
    paint_walls(geometry, &mut scratch);
    let mut n: usize = 0;
    while n < spawns.len()
        invariant
            !geometry.malformed(),
            !geometry.oversized(),
            width == geometry.width(),
            height == geometry.height(),
            0 <= n <= spawns.len(),
            filled(*geometry, scratch, spawns@, n as int),
            forall|i: int|
                0 <= i < n ==> geometry.contains(
                    geometry.seed_of(#[trigger] spawns@[i]).0,
                    geometry.seed_of(spawns@[i]).1,
                ),
        decreases spawns.len() - n,
    {
        let spawn = &spawns[n];
        let x: i64 = spawn.x.cell() as i64 - geometry.min_x as i64;
        let y: i64 = spawn.y.cell() as i64 - geometry.min_y as i64;
        if x < 0 || x >= width || y < 0 || y >= height {
            proof {
                assert(!geometry.contains(
                    geometry.seed_of(spawns@[n as int]).0,
                    geometry.seed_of(spawns@[n as int]).1,
                ));
            }
            return Err(PrepareError::MalformedInput);
        }
        let ghost s1 = scratch;
        flood(&mut scratch, x as i32, y as i32);
        proof {
            lemma_fill_step(*geometry, spawns@, n as int, s1, scratch);
        }
        n = n + 1;
    }
    Ok(scratch)
}

} // verus!
