//! Filling the region of `UNKNOWN` cells around a seed cell.
//!
//! Two cells are linked when a trail of `UNKNOWN` cells, each next to the
//! one before it in its row or its column, leads from one to the other.
//! [`flood`] turns exactly the cells linked to the seed into `WALKABLE`.
//!
//! The fill works row by row.  It takes a cell from a stack, moves left to
//! the start of the run of `UNKNOWN` cells around it, and fills that run from
//! left to right; on the way it pushes one cell for each run of `UNKNOWN`
//! cells that it passes in the row above and in the row below.

use crate::consts::{UNKNOWN, WALKABLE};
use crate::scratch::Scratch;
use vstd::prelude::*;

verus! {

/// Whether two cells share an edge.
pub open spec fn adjacent(x1: int, y1: int, x2: int, y2: int) -> bool {
    ||| (x1 == x2 && (y1 == y2 + 1 || y2 == y1 + 1))
    ||| (y1 == y2 && (x1 == x2 + 1 || x2 == x1 + 1))
}

/// Whether `trail` is a non-empty walk over `UNKNOWN` cells of `s` in
/// which each cell shares an edge with the next.
pub open spec fn is_trail(s: Scratch, trail: Seq<(int, int)>) -> bool {
    &&& trail.len() > 0
    &&& forall|i: int| 0 <= i < trail.len() ==> s.unknown_at((#[trigger] trail[i]).0, trail[i].1)
    &&& forall|i: int|
        0 <= i < trail.len() - 1 ==> adjacent(
            (#[trigger] trail[i]).0,
            trail[i].1,
            trail[i + 1].0,
            trail[i + 1].1,
        )
}

/// Whether a trail over `UNKNOWN` cells of `s` leads from `(sx, sy)` to
/// `(x, y)`.
pub open spec fn linked(s: Scratch, sx: int, sy: int, x: int, y: int) -> bool {
    exists|trail: Seq<(int, int)>| #[trigger]
        is_trail(s, trail) && trail[0] == (sx, sy) && trail.last() == (x, y)
}

/// An `UNKNOWN` cell is linked to itself.
pub proof fn lemma_linked_self(s: Scratch, x: int, y: int)
    requires
        s.unknown_at(x, y),
    ensures
        linked(s, x, y, x, y),
{
    let trail = seq![(x, y)];
    assert(is_trail(s, trail));
    assert(trail[0] == (x, y) && trail.last() == (x, y));
}

/// Both ends of a link are `UNKNOWN` cells.
pub proof fn lemma_linked_ends(s: Scratch, sx: int, sy: int, x: int, y: int)
    requires
        linked(s, sx, sy, x, y),
    ensures
        s.unknown_at(sx, sy),
        s.unknown_at(x, y),
{
    let trail = choose|trail: Seq<(int, int)>| #[trigger]
        is_trail(s, trail) && trail[0] == (sx, sy) && trail.last() == (x, y);
    assert(s.unknown_at(trail[0].0, trail[0].1));
    assert(s.unknown_at(trail[trail.len() - 1].0, trail[trail.len() - 1].1));
}

/// A link reaches on to an `UNKNOWN` cell next to its end.
pub proof fn lemma_linked_step(s: Scratch, sx: int, sy: int, x: int, y: int, nx: int, ny: int)
    requires
        linked(s, sx, sy, x, y),
        s.unknown_at(nx, ny),
        adjacent(x, y, nx, ny),
    ensures
        linked(s, sx, sy, nx, ny),
{
    let trail = choose|trail: Seq<(int, int)>| #[trigger]
        is_trail(s, trail) && trail[0] == (sx, sy) && trail.last() == (x, y);
    let longer = trail.push((nx, ny));
    assert forall|i: int| 0 <= i < longer.len() implies s.unknown_at(
        (#[trigger] longer[i]).0,
        longer[i].1,
    ) by {
        if i < trail.len() {
            assert(longer[i] == trail[i]);
        }
    }
    assert forall|i: int| 0 <= i < longer.len() - 1 implies adjacent(
        (#[trigger] longer[i]).0,
        longer[i].1,
        longer[i + 1].0,
        longer[i + 1].1,
    ) by {
        assert(longer[i] == trail[i]);
        if i + 1 < trail.len() {
            assert(longer[i + 1] == trail[i + 1]);
        }
    }
    assert(is_trail(s, longer));
    assert(longer[0] == trail[0]);
    assert(longer.last() == (nx, ny));
}

/// Whether `(x, y)` was `UNKNOWN` in `before` and is `WALKABLE` in `now`.
pub open spec fn fresh(before: Scratch, now: Scratch, x: int, y: int) -> bool {
    before.unknown_at(x, y) && now.at(x, y) == WALKABLE
}

/// Whether `(x, y)` is an `UNKNOWN` cell of `now` that the fill still has
/// to reach: it is the seed, or a cell next to it has just been filled.
pub open spec fn frontier(before: Scratch, now: Scratch, sx: int, sy: int, x: int, y: int) -> bool {
    &&& now.unknown_at(x, y)
    &&& {
        ||| (x == sx && y == sy)
        ||| fresh(before, now, x - 1, y)
        ||| fresh(before, now, x + 1, y)
        ||| fresh(before, now, x, y - 1)
        ||| fresh(before, now, x, y + 1)
    }
}

/// Whether the cells of row `y` from column `x1` to column `x2`, in either
/// order, are all `UNKNOWN`.
pub open spec fn run_unknown(s: Scratch, y: int, x1: int, x2: int) -> bool {
    forall|t: int|
        #![trigger s.at(t, y)]
        (x1 <= t <= x2 || x2 <= t <= x1) ==> s.at(t, y) == UNKNOWN && s.contains(t, y)
}

/// Whether some cell on the stack lies in the same run of `UNKNOWN` cells
/// as `(x, y)`.  Stack entries hold the row first.
pub open spec fn covered(stack: Seq<(i32, i32)>, s: Scratch, x: int, y: int) -> bool {
    exists|i: int|
        0 <= i < stack.len() && (#[trigger] stack[i]).0 == y && run_unknown(s, y, stack[i].1 as int, x)
}

/// Whether `(x, y)` lies in row `row` at or after column `from` with only
/// `UNKNOWN` cells between.
pub open spec fn pending(s: Scratch, row: int, from: int, x: int, y: int) -> bool {
    y == row && from <= x && run_unknown(s, row, from, x)
}

/// Whether `now` differs from `before` only in cells that `before` links
/// to the seed, which are `WALKABLE` in `now`.
#[verifier::opaque]
pub open spec fn fill_progress(before: Scratch, now: Scratch, sx: int, sy: int) -> bool {
    forall|x: int, y: int|
        before.contains(x, y) ==> #[trigger] now.at(x, y) == before.at(x, y) || (fresh(
            before,
            now,
            x,
            y,
        ) && linked(before, sx, sy, x, y))
}

/// Whether every entry of the stack is a cell linked to the seed.
#[verifier::opaque]
pub open spec fn stack_linked(before: Scratch, stack: Seq<(i32, i32)>, sx: int, sy: int) -> bool {
    forall|i: int|
        0 <= i < stack.len() ==> linked(
            before,
            sx,
            sy,
            (#[trigger] stack[i]).1 as int,
            stack[i].0 as int,
        )
}

/// Whether every cell that the fill still has to reach is covered by the
/// stack, or lies ahead in the run that is being filled in row `row` from
/// column `from` on.
#[verifier::opaque]
pub open spec fn reach_ok(
    before: Scratch,
    now: Scratch,
    stack: Seq<(i32, i32)>,
    sx: int,
    sy: int,
    row: int,
    from: int,
) -> bool {
    forall|x: int, y: int| #[trigger]
        frontier(before, now, sx, sy, x, y) ==> covered(stack, now, x, y) || pending(
            now,
            row,
            from,
            x,
            y,
        )
}

/// The state of one run while it is filled in row `y`: the cells from
/// `start` up to `x` have been filled, the cells from `x` to the popped
/// column `px` are still `UNKNOWN`, and the run does not reach left of
/// `start`.
#[verifier::opaque]
pub open spec fn scan_state(
    before: Scratch,
    now: Scratch,
    sx: int,
    sy: int,
    y: int,
    start: int,
    x: int,
    px: int,
) -> bool {
    &&& linked(before, sx, sy, px, y)
    &&& forall|t: int|
        start <= t < x ==> #[trigger] now.at(t, y) == WALKABLE && before.unknown_at(t, y)
    &&& forall|t: int|
        x <= t <= px ==> #[trigger] now.at(t, y) == UNKNOWN && linked(before, sx, sy, t, y)
    &&& (start == 0 || now.at(start - 1, y) != UNKNOWN)
}

/// Whether `s2` is `s1` with the cell `(x, y)` overwritten.
pub open spec fn only_changed(s1: Scratch, s2: Scratch, x: int, y: int) -> bool {
    &&& s2.width == s1.width
    &&& s2.height == s1.height
    &&& forall|cx: int, cy: int|
        s1.contains(cx, cy) && !(cx == x && cy == y) ==> #[trigger] s2.at(cx, cy) == s1.at(cx, cy)
}

/// A fill starts with its seed on the stack.
proof fn lemma_start(before: Scratch, stack: Seq<(i32, i32)>, sx: int, sy: int)
    requires
        before.unknown_at(sx, sy),
        stack.len() == 1,
        stack[0].0 == sy,
        stack[0].1 == sx,
    ensures
        fill_progress(before, before, sx, sy),
        stack_linked(before, stack, sx, sy),
        reach_ok(before, before, stack, sx, sy, 0, before.width as int),
{
    reveal(fill_progress);
    reveal(stack_linked);
    reveal(reach_ok);
    lemma_linked_self(before, sx, sy);
    assert forall|x: int, y: int| #[trigger]
        frontier(before, before, sx, sy, x, y) implies covered(stack, before, x, y) by {
        assert(stack[0].0 == y && run_unknown(before, y, stack[0].1 as int, x));
    }
}

/// After a cell has been popped and the start of its run found, every
/// cell that the popped entry covered lies ahead in that run.
proof fn lemma_pop(
    before: Scratch,
    now: Scratch,
    stack: Seq<(i32, i32)>,
    rest: Seq<(i32, i32)>,
    sx: int,
    sy: int,
    y: int,
    px: int,
    start: int,
)
    requires
        now.width == before.width,
        now.height == before.height,
        stack.len() > 0,
        rest == stack.drop_last(),
        stack.last() == (y as i32, px as i32),
        -0x8000_0000 <= y < 0x8000_0000,
        -0x8000_0000 <= px < 0x8000_0000,
        reach_ok(before, now, stack, sx, sy, 0, now.width as int),
        stack_linked(before, stack, sx, sy),
        0 <= start <= px + 1,
        forall|t: int| start <= t <= px ==> #[trigger] now.at(t, y) == UNKNOWN,
        start == 0 || now.at(start - 1, y) != UNKNOWN,
        start == px + 1 ==> !now.unknown_at(px, y),
    ensures
        reach_ok(before, now, rest, sx, sy, y, start),
        stack_linked(before, rest, sx, sy),
        linked(before, sx, sy, px, y),
{
    reveal(reach_ok);
    reveal(stack_linked);
    assert(stack[stack.len() - 1] == (y as i32, px as i32));
    assert forall|i: int| 0 <= i < rest.len() implies linked(
        before,
        sx,
        sy,
        (#[trigger] rest[i]).1 as int,
        rest[i].0 as int,
    ) by {
        assert(rest[i] == stack[i]);
    }
    assert forall|cx: int, cy: int| #[trigger]
        frontier(before, now, sx, sy, cx, cy) implies covered(rest, now, cx, cy) || pending(
        now,
        y,
        start,
        cx,
        cy,
    ) by {
        assert(!pending(now, 0, now.width as int, cx, cy)) by {
            if pending(now, 0, now.width as int, cx, cy) {
                assert(now.at(now.width as int, 0) == UNKNOWN && now.contains(now.width as int, 0));
            }
        }
        let i = choose|i: int|
            0 <= i < stack.len() && (#[trigger] stack[i]).0 == cy && run_unknown(
                now,
                cy,
                stack[i].1 as int,
                cx,
            );
        if i < rest.len() {
            assert(rest[i] == stack[i]);
        } else {
            assert(now.at(px, y) == UNKNOWN && now.contains(px, y));
            assert(start <= px);
            if cx < start {
                assert(now.at(start - 1, y) == UNKNOWN && now.contains(start - 1, y));
            }
            assert forall|t: int| (start <= t <= cx || cx <= t <= start) implies now.contains(t, y)
                && #[trigger] now.at(t, y) == UNKNOWN by {
                if t > px {
                    assert(now.at(t, y) == UNKNOWN && now.contains(t, y));
                } else {
                    assert(now.contains(px, y));
                }
            }
        }
    }
}

/// Filling the cell `(x, y)` of a run, and pushing the cells above and
/// below it where a run of `UNKNOWN` cells begins there, keeps the fill on
/// course.
proof fn lemma_scan_step(
    before: Scratch,
    s1: Scratch,
    s2: Scratch,
    stack1: Seq<(i32, i32)>,
    stack2: Seq<(i32, i32)>,
    stack3: Seq<(i32, i32)>,
    pushed_above: bool,
    pushed_below: bool,
    sx: int,
    sy: int,
    x: int,
    y: int,
    start: int,
    px: int,
)
    requires
        s1.wf(),
        before.width == s1.width,
        before.height == s1.height,
        s1.contains(x, y),
        s1.contains(px, y),
        s1.at(x, y) == UNKNOWN,
        s2.at(x, y) == WALKABLE,
        only_changed(s1, s2, x, y),
        0 <= start <= x,
        start <= px + 1,
        fill_progress(before, s1, sx, sy),
        scan_state(before, s1, sx, sy, y, start, x, px),
        reach_ok(before, s1, stack1, sx, sy, y, x),
        stack_linked(before, stack1, sx, sy),
        stack2 == if pushed_above {
            stack1.push(((y - 1) as i32, x as i32))
        } else {
            stack1
        },
        stack3 == if pushed_below {
            stack2.push(((y + 1) as i32, x as i32))
        } else {
            stack2
        },
        pushed_above ==> 0 < y && s1.at(x, y - 1) == UNKNOWN,
        pushed_below ==> y < s1.height - 1 && s1.at(x, y + 1) == UNKNOWN,
        (!pushed_above && 0 < y && s1.at(x, y - 1) == UNKNOWN) ==> start < x && s1.at(x - 1, y - 1)
            == UNKNOWN,
        (!pushed_below && y < s1.height - 1 && s1.at(x, y + 1) == UNKNOWN) ==> start < x && s1.at(
            x - 1,
            y + 1,
        ) == UNKNOWN,
    ensures
        fill_progress(before, s2, sx, sy),
        scan_state(before, s2, sx, sy, y, start, x + 1, px),
        reach_ok(before, s2, stack3, sx, sy, y, x + 1),
        stack_linked(before, stack3, sx, sy),
{
    lemma_cell_linked(before, s1, sx, sy, x, y, start, px);
    lemma_progress_step(before, s1, s2, sx, sy, x, y);
    assert(scan_state(before, s2, sx, sy, y, start, x + 1, px)) by {
        reveal(scan_state);
        reveal(fill_progress);
        assert(s1.at(x, y) == before.at(x, y));
        assert forall|t: int| start <= t < x + 1 implies #[trigger] s2.at(t, y) == WALKABLE
            && before.unknown_at(t, y) by {
            if t < x {
                assert(s1.at(t, y) == WALKABLE);
            }
        }
        assert forall|t: int| x + 1 <= t <= px implies #[trigger] s2.at(t, y) == UNKNOWN && linked(
            before,
            sx,
            sy,
            t,
            y,
        ) by {
            assert(s1.at(t, y) == UNKNOWN);
        }
    }
    assert(stack_linked(before, stack3, sx, sy)) by {
        reveal(stack_linked);
        reveal(fill_progress);
        if pushed_above {
            assert(s1.at(x, y - 1) == before.at(x, y - 1));
            lemma_linked_step(before, sx, sy, x, y, x, y - 1);
        }
        if pushed_below {
            assert(s1.at(x, y + 1) == before.at(x, y + 1));
            lemma_linked_step(before, sx, sy, x, y, x, y + 1);
        }
        assert forall|i: int| 0 <= i < stack3.len() implies linked(
            before,
            sx,
            sy,
            (#[trigger] stack3[i]).1 as int,
            stack3[i].0 as int,
        ) by {
            if i < stack1.len() {
                assert(stack3[i] == stack1[i]);
            }
        }
    }
    assert(reach_ok(before, s2, stack3, sx, sy, y, x + 1)) by {
        lemma_reach_step(
            before,
            s1,
            s2,
            stack1,
            stack2,
            stack3,
            pushed_above,
            pushed_below,
            sx,
            sy,
            x,
            y,
            start,
            px,
        );
    }
}

/// The cell that a run is about to fill is linked to the seed.
proof fn lemma_cell_linked(
    before: Scratch,
    s1: Scratch,
    sx: int,
    sy: int,
    x: int,
    y: int,
    start: int,
    px: int,
)
    requires
        before.width == s1.width,
        before.height == s1.height,
        s1.contains(x, y),
        s1.contains(px, y),
        s1.at(x, y) == UNKNOWN,
        0 <= start <= x,
        start <= px + 1,
        fill_progress(before, s1, sx, sy),
        scan_state(before, s1, sx, sy, y, start, x, px),
    ensures
        linked(before, sx, sy, x, y),
        before.unknown_at(x, y),
{
    reveal(scan_state);
    reveal(fill_progress);
    assert(s1.at(x, y) == before.at(x, y));
    if x <= px {
        assert(s1.at(x, y) == UNKNOWN && linked(before, sx, sy, x, y));
    } else {
        if x - 1 >= start {
            assert(s1.at(x - 1, y) == WALKABLE && before.unknown_at(x - 1, y));
            assert(s1.at(x - 1, y) == before.at(x - 1, y) || linked(before, sx, sy, x - 1, y));
        }
        lemma_linked_step(before, sx, sy, x - 1, y, x, y);
    }
}

/// Filling a cell that is linked to the seed keeps the grid within what
/// the fill may change.
proof fn lemma_progress_step(
    before: Scratch,
    s1: Scratch,
    s2: Scratch,
    sx: int,
    sy: int,
    x: int,
    y: int,
)
    requires
        before.width == s1.width,
        before.height == s1.height,
        s1.contains(x, y),
        s2.at(x, y) == WALKABLE,
        only_changed(s1, s2, x, y),
        fill_progress(before, s1, sx, sy),
        linked(before, sx, sy, x, y),
        before.unknown_at(x, y),
    ensures
        fill_progress(before, s2, sx, sy),
{
    reveal(fill_progress);
    assert forall|cx: int, cy: int| before.contains(cx, cy) implies #[trigger] s2.at(cx, cy)
        == before.at(cx, cy) || (fresh(before, s2, cx, cy) && linked(before, sx, sy, cx, cy)) by {
        if !(cx == x && cy == y) {
            assert(s2.at(cx, cy) == s1.at(cx, cy));
            assert(s1.at(cx, cy) == before.at(cx, cy) || (fresh(before, s1, cx, cy) && linked(
                before,
                sx,
                sy,
                cx,
                cy,
            )));
        }
    }
}

/// A run of `UNKNOWN` cells that does not hold the cell that was filled
/// is still a run of `UNKNOWN` cells, and so is each part of it.
proof fn lemma_run_kept(
    s1: Scratch,
    s2: Scratch,
    x: int,
    y: int,
    row: int,
    w1: int,
    w2: int,
    x1: int,
    x2: int,
)
    requires
        only_changed(s1, s2, x, y),
        run_unknown(s1, row, w1, w2),
        (w1 <= x1 <= w2 || w2 <= x1 <= w1),
        (w1 <= x2 <= w2 || w2 <= x2 <= w1),
        !(row == y && (x1 <= x <= x2 || x2 <= x <= x1)),
    ensures
        run_unknown(s2, row, x1, x2),
{
    assert forall|t: int| (x1 <= t <= x2 || x2 <= t <= x1) implies s2.contains(t, row)
        && #[trigger] s2.at(t, row) == UNKNOWN by {
        assert(w1 <= t <= w2 || w2 <= t <= w1);
        assert(s1.at(t, row) == UNKNOWN);
        assert(s1.contains(t, row));
        assert(!(t == x && row == y));
    }
}

/// A cell that the stack covers stays covered when the stack grows.
proof fn lemma_cover_grows(
    stack1: Seq<(i32, i32)>,
    stack2: Seq<(i32, i32)>,
    s: Scratch,
    x: int,
    y: int,
)
    requires
        covered(stack1, s, x, y),
        stack1.len() <= stack2.len(),
        forall|i: int| 0 <= i < stack1.len() ==> stack2[i] == stack1[i],
    ensures
        covered(stack2, s, x, y),
{
    let i = choose|i: int|
        0 <= i < stack1.len() && (#[trigger] stack1[i]).0 == y && run_unknown(
            s,
            y,
            stack1[i].1 as int,
            x,
        );
    assert(stack2[i] == stack1[i]);
    assert(stack2[i].0 == y && run_unknown(s, y, stack2[i].1 as int, x));
}

/// The `UNKNOWN` cell above or below the cell that was just filled, for
/// which nothing was pushed, lies in a run that the stack covers already:
/// the cell to its left is `UNKNOWN` too and sits next to a filled cell.
proof fn lemma_cover_extends(
    before: Scratch,
    s1: Scratch,
    s2: Scratch,
    stack1: Seq<(i32, i32)>,
    sx: int,
    sy: int,
    x: int,
    y: int,
    start: int,
    px: int,
    row: int,
)
    requires
        before.width == s1.width,
        before.height == s1.height,
        s1.contains(x, y),
        s1.contains(x, row),
        row == y - 1 || row == y + 1,
        s1.at(x, row) == UNKNOWN,
        only_changed(s1, s2, x, y),
        0 <= start < x,
        s1.at(x - 1, row) == UNKNOWN,
        scan_state(before, s1, sx, sy, y, start, x, px),
        reach_ok(before, s1, stack1, sx, sy, y, x),
    ensures
        covered(stack1, s2, x, row),
{
    reveal(scan_state);
    reveal(reach_ok);
    assert(s1.at(x - 1, y) == WALKABLE && before.unknown_at(x - 1, y));
    assert(fresh(before, s1, x - 1, y));
    assert(frontier(before, s1, sx, sy, x - 1, row));
    assert(!pending(s1, y, x, x - 1, row));
    let i = choose|i: int|
        0 <= i < stack1.len() && (#[trigger] stack1[i]).0 == row && run_unknown(
            s1,
            row,
            stack1[i].1 as int,
            x - 1,
        );
    let ex = stack1[i].1 as int;
    assert forall|t: int| (ex <= t <= x || x <= t <= ex) implies s2.contains(t, row)
        && #[trigger] s2.at(t, row) == UNKNOWN by {
        if t != x {
            assert(s1.at(t, row) == UNKNOWN && s1.contains(t, row));
        }
        assert(s2.at(t, row) == s1.at(t, row));
    }
    assert(stack1[i].0 == row && run_unknown(s2, row, stack1[i].1 as int, x));
}

/// The part of [`lemma_scan_step`] that speaks of the cells still to reach.
proof fn lemma_reach_step(
    before: Scratch,
    s1: Scratch,
    s2: Scratch,
    stack1: Seq<(i32, i32)>,
    stack2: Seq<(i32, i32)>,
    stack3: Seq<(i32, i32)>,
    pushed_above: bool,
    pushed_below: bool,
    sx: int,
    sy: int,
    x: int,
    y: int,
    start: int,
    px: int,
)
    requires
        s1.wf(),
        before.width == s1.width,
        before.height == s1.height,
        s1.contains(x, y),
        s1.at(x, y) == UNKNOWN,
        s2.at(x, y) == WALKABLE,
        only_changed(s1, s2, x, y),
        0 <= start <= x,
        scan_state(before, s1, sx, sy, y, start, x, px),
        reach_ok(before, s1, stack1, sx, sy, y, x),
        stack2 == if pushed_above {
            stack1.push(((y - 1) as i32, x as i32))
        } else {
            stack1
        },
        stack3 == if pushed_below {
            stack2.push(((y + 1) as i32, x as i32))
        } else {
            stack2
        },
        pushed_above ==> 0 < y && s1.at(x, y - 1) == UNKNOWN,
        pushed_below ==> y < s1.height - 1 && s1.at(x, y + 1) == UNKNOWN,
        (!pushed_above && 0 < y && s1.at(x, y - 1) == UNKNOWN) ==> start < x && s1.at(x - 1, y - 1)
            == UNKNOWN,
        (!pushed_below && y < s1.height - 1 && s1.at(x, y + 1) == UNKNOWN) ==> start < x && s1.at(
            x - 1,
            y + 1,
        ) == UNKNOWN,
    ensures
        reach_ok(before, s2, stack3, sx, sy, y, x + 1),
{
    assert forall|i: int| 0 <= i < stack1.len() implies stack3[i] == stack1[i] by {}
    assert forall|cx: int, cy: int| #[trigger]
        frontier(before, s2, sx, sy, cx, cy) implies covered(stack3, s2, cx, cy) || pending(
        s2,
        y,
        x + 1,
        cx,
        cy,
    ) by {
        assert(s2.at(cx, cy) == s1.at(cx, cy));
        if frontier(before, s1, sx, sy, cx, cy) {
            assert(covered(stack1, s1, cx, cy) || pending(s1, y, x, cx, cy)) by {
                reveal(reach_ok);
            }
            if pending(s1, y, x, cx, cy) {
                lemma_run_kept(s1, s2, x, y, y, x, cx, x + 1, cx);
            } else {
                let i = choose|i: int|
                    0 <= i < stack1.len() && (#[trigger] stack1[i]).0 == cy && run_unknown(
                        s1,
                        cy,
                        stack1[i].1 as int,
                        cx,
                    );
                let ex = stack1[i].1 as int;
                assert(stack3[i] == stack1[i]);
                if cy == y && (ex <= x <= cx || cx <= x <= ex) {
                    assert(s1.contains(x - 1, y) ==> s1.at(x - 1, y) != UNKNOWN) by {
                        reveal(scan_state);
                        if start < x {
                            assert(s1.at(x - 1, y) == WALKABLE);
                        }
                    }
                    if cx < x {
                        assert(s1.at(x - 1, y) == UNKNOWN && s1.contains(x - 1, y));
                    }
                    lemma_run_kept(s1, s2, x, y, y, ex, cx, x + 1, cx);
                } else {
                    lemma_run_kept(s1, s2, x, y, cy, ex, cx, ex, cx);
                    assert(stack3[i].0 == cy && run_unknown(s2, cy, stack3[i].1 as int, cx));
                }
            }
        } else {
            // No cell but `(x, y)` has just been filled, so the cell is next to it.
            assert(fresh(before, s2, x, y));
            if cy == y && cx == x + 1 {
                assert(run_unknown(s2, y, x + 1, cx));
            } else if cy == y && cx == x - 1 {
                reveal(scan_state);
                if start < x {
                    assert(s1.at(x - 1, y) == WALKABLE);
                }
            } else if cy == y - 1 && cx == x {
                if pushed_above {
                    let last = stack1.len() as int;
                    assert(stack3[last] == ((y - 1) as i32, x as i32));
                    assert(stack3[last].0 == cy && run_unknown(s2, cy, stack3[last].1 as int, cx));
                } else {
                    lemma_cover_extends(before, s1, s2, stack1, sx, sy, x, y, start, px, y - 1);
                    lemma_cover_grows(stack1, stack3, s2, cx, cy);
                }
            } else if cy == y + 1 && cx == x {
                if pushed_below {
                    let last = stack3.len() - 1;
                    assert(stack3[last] == ((y + 1) as i32, x as i32));
                    assert(stack3[last].0 == cy && run_unknown(s2, cy, stack3[last].1 as int, cx));
                } else {
                    lemma_cover_extends(before, s1, s2, stack1, sx, sy, x, y, start, px, y + 1);
                    lemma_cover_grows(stack1, stack3, s2, cx, cy);
                }
            } else {
                assert(fresh(before, s1, cx - 1, cy) || fresh(before, s1, cx + 1, cy) || fresh(
                    before,
                    s1,
                    cx,
                    cy - 1,
                ) || fresh(before, s1, cx, cy + 1));
            }
        }
    }
    reveal(reach_ok);
}

/// When a run ends, no cell that the fill still has to reach lies ahead in
/// it.
proof fn lemma_scan_end(
    before: Scratch,
    now: Scratch,
    stack: Seq<(i32, i32)>,
    sx: int,
    sy: int,
    y: int,
    x: int,
)
    requires
        reach_ok(before, now, stack, sx, sy, y, x),
        x == now.width || (now.contains(x, y) && now.at(x, y) != UNKNOWN),
    ensures
        reach_ok(before, now, stack, sx, sy, 0, now.width as int),
{
    reveal(reach_ok);
    assert forall|cx: int, cy: int| #[trigger]
        frontier(before, now, sx, sy, cx, cy) implies covered(stack, now, cx, cy) || pending(
        now,
        0,
        now.width as int,
        cx,
        cy,
    ) by {
        if pending(now, y, x, cx, cy) {
            assert(now.at(x, y) == UNKNOWN && now.contains(x, y));
        }
    }
}

/// Once the stack is empty, exactly the cells linked to the seed have been
/// filled.
proof fn lemma_finish(before: Scratch, now: Scratch, stack: Seq<(i32, i32)>, sx: int, sy: int)
    requires
        now.width == before.width,
        now.height == before.height,
        fill_progress(before, now, sx, sy),
        reach_ok(before, now, stack, sx, sy, 0, now.width as int),
        stack.len() == 0,
    ensures
        forall|x: int, y: int|
            before.contains(x, y) ==> #[trigger] now.at(x, y) == if linked(before, sx, sy, x, y) {
                WALKABLE
            } else {
                before.at(x, y)
            },
{
    assert forall|x: int, y: int| !#[trigger] frontier(before, now, sx, sy, x, y) by {
        reveal(reach_ok);
        if frontier(before, now, sx, sy, x, y) {
            assert(covered(stack, now, x, y) || pending(now, 0, now.width as int, x, y));
            if pending(now, 0, now.width as int, x, y) {
                assert(now.at(now.width as int, 0) == UNKNOWN && now.contains(now.width as int, 0));
            }
        }
    }
    assert forall|x: int, y: int| before.contains(x, y) implies #[trigger] now.at(x, y)
        == if linked(before, sx, sy, x, y) {
        WALKABLE
    } else {
        before.at(x, y)
    } by {
        if linked(before, sx, sy, x, y) {
            let trail = choose|trail: Seq<(int, int)>| #[trigger]
                is_trail(before, trail) && trail[0] == (sx, sy) && trail.last() == (x, y);
            lemma_trail_filled(before, now, sx, sy, trail, trail.len() - 1);
        } else {
            reveal(fill_progress);
        }
    }
}

/// Once no cell is left for the fill to reach, every cell on a trail from
/// the seed has been filled.
proof fn lemma_trail_filled(
    before: Scratch,
    now: Scratch,
    sx: int,
    sy: int,
    trail: Seq<(int, int)>,
    i: int,
)
    requires
        now.width == before.width,
        now.height == before.height,
        fill_progress(before, now, sx, sy),
        forall|x: int, y: int| !#[trigger] frontier(before, now, sx, sy, x, y),
        is_trail(before, trail),
        trail[0] == (sx, sy),
        0 <= i < trail.len(),
    ensures
        now.at(trail[i].0, trail[i].1) == WALKABLE,
    decreases i,
{
    reveal(fill_progress);
    let (x, y) = trail[i];
    assert(before.unknown_at(trail[i].0, trail[i].1));
    assert(now.at(x, y) == before.at(x, y) || fresh(before, now, x, y));
    assert(!frontier(before, now, sx, sy, x, y));
    if i > 0 {
        lemma_trail_filled(before, now, sx, sy, trail, i - 1);
        let (px, py) = trail[i - 1];
        assert(before.unknown_at(trail[i - 1].0, trail[i - 1].1));
        assert(adjacent(trail[i - 1].0, trail[i - 1].1, trail[i - 1 + 1].0, trail[i - 1 + 1].1));
        assert(fresh(before, now, px, py));
    }
}

/// Fills the region of `UNKNOWN` cells around the seed `(seed_x, seed_y)`:
/// every cell linked to the seed becomes `WALKABLE`, and no other cell
/// changes.  A seed that is not `UNKNOWN` is linked to nothing.
pub fn flood(scratch: &mut Scratch, seed_x: i32, seed_y: i32)
    requires
        old(scratch).wf(),
        old(scratch).contains(seed_x as int, seed_y as int),
    ensures
        final(scratch).wf(),
        final(scratch).width == old(scratch).width,
        final(scratch).height == old(scratch).height,
        forall|x: int, y: int|
            old(scratch).contains(x, y) ==> #[trigger] final(scratch).at(x, y) == if linked(
                *old(scratch),
                seed_x as int,
                seed_y as int,
                x,
                y,
            ) {
                WALKABLE
            } else {
                old(scratch).at(x, y)
            },
{
    let ghost before = *scratch;
    let ghost sx = seed_x as int;
    let ghost sy = seed_y as int;
    let width: i32 = scratch.width;
    let height: i32 = scratch.height;
    if scratch.get(seed_x, seed_y) != UNKNOWN {
        proof {
            assert forall|x: int, y: int| !linked(before, sx, sy, x, y) by {
                if linked(before, sx, sy, x, y) {
                    lemma_linked_ends(before, sx, sy, x, y);
                }
            }
        }
        return ;
    }
    let mut stack: Vec<(i32, i32)> = Vec::new();
    stack.push((seed_y, seed_x));
    proof {
        lemma_start(before, stack@, sx, sy);
    }
    while stack.len() > 0
        invariant
            scratch.wf(),
            width == before.width,
            height == before.height,
            scratch.width == width,
            scratch.height == height,
            fill_progress(before, *scratch, sx, sy),
            stack_linked(before, stack@, sx, sy),
            reach_ok(before, *scratch, stack@, sx, sy, 0, width as int),
        decreases scratch.unknown_count(), stack.len(),
    {
        let ghost count_before = scratch.unknown_count();
        let ghost stack_before = stack@;
        let (y, px) = stack.pop().unwrap();
        let ghost rest = stack@;
        proof {
            assert(rest =~= stack_before.drop_last());
            assert(stack_before.last() == (y, px));
            assert(linked(before, sx, sy, px as int, y as int)) by {
                reveal(stack_linked);
                assert(stack_before[stack_before.len() - 1] == (y, px));
            }
            lemma_linked_ends(before, sx, sy, px as int, y as int);
        }
        let mut x: i32 = px;
        while x >= 0 && scratch.get(x, y) == UNKNOWN
            invariant
                scratch.wf(),
                scratch.width == width,
                scratch.height == height,
                0 <= y < height,
                -1 <= x <= px < width,
                forall|t: int| x < t <= px ==> #[trigger] scratch.at(t, y as int) == UNKNOWN,
            decreases x + 1,
        {
            x = x - 1;
        }
        x = x + 1;
        let ghost start = x as int;
        let mut span_above: bool = false;
        let mut span_below: bool = false;
        proof {
            lemma_pop(
                before,
                *scratch,
                stack_before,
                rest,
                sx,
                sy,
                y as int,
                px as int,
                start,
            );
            lemma_scan_begin(before, *scratch, sx, sy, y as int, start, px as int);
        }
        while x < width && scratch.get(x, y) == UNKNOWN
            invariant
                scratch.wf(),
                width == before.width,
                height == before.height,
                scratch.width == width,
                scratch.height == height,
                0 <= y < height,
                0 <= start <= x <= width,
                0 <= px < width,
                start <= px + 1,
                fill_progress(before, *scratch, sx, sy),
                stack_linked(before, stack@, sx, sy),
                scan_state(before, *scratch, sx, sy, y as int, start, x as int, px as int),
                reach_ok(before, *scratch, stack@, sx, sy, y as int, x as int),
                span_above ==> start < x && 0 < y && scratch.at(x - 1, y - 1) == UNKNOWN,
                span_below ==> start < x && y < height - 1 && scratch.at(x - 1, y + 1) == UNKNOWN,
                scratch.unknown_count() + (x - start) == count_before,
                x == start ==> stack@ == rest,
            decreases width - x,
        {
            let ghost s1 = *scratch;
            let ghost stack1 = stack@;
            let ghost mut pushed_above = false;
            let ghost mut pushed_below = false;
            scratch.set(x, y, WALKABLE);
            if y > 0 {
                let above: u8 = scratch.get(x, y - 1);
                if !span_above && above == UNKNOWN {
                    stack.push((y - 1, x));
                    span_above = true;
                    proof {
                        pushed_above = true;
                    }
                } else if span_above && above != UNKNOWN {
                    span_above = false;
                }
            }
            let ghost stack2 = stack@;
            if y < height - 1 {
                let below: u8 = scratch.get(x, y + 1);
                if !span_below && below == UNKNOWN {
                    stack.push((y + 1, x));
                    span_below = true;
                    proof {
                        pushed_below = true;
                    }
                } else if span_below && below != UNKNOWN {
                    span_below = false;
                }
            }
            proof {
                assert(only_changed(s1, *scratch, x as int, y as int));
                if y > 0 {
                    assert(scratch.at(x as int, y - 1) == s1.at(x as int, y - 1));
                }
                if y < height - 1 {
                    assert(scratch.at(x as int, y + 1) == s1.at(x as int, y + 1));
                }
                lemma_scan_step(
                    before,
                    s1,
                    *scratch,
                    stack1,
                    stack2,
                    stack@,
                    pushed_above,
                    pushed_below,
                    sx,
                    sy,
                    x as int,
                    y as int,
                    start,
                    px as int,
                );
            }
            x = x + 1;
        }
        proof {
            lemma_scan_end(before, *scratch, stack@, sx, sy, y as int, x as int);
        }
    }
    proof {
        lemma_finish(before, *scratch, stack@, sx, sy);
    }
}

/// Before the first cell of a run is filled, nothing of it has been.
proof fn lemma_scan_begin(
    before: Scratch,
    now: Scratch,
    sx: int,
    sy: int,
    y: int,
    start: int,
    px: int,
)
    requires
        now.width == before.width,
        now.height == before.height,
        now.contains(px, y),
        0 <= start <= px + 1,
        fill_progress(before, now, sx, sy),
        linked(before, sx, sy, px, y),
        forall|t: int| start <= t <= px ==> #[trigger] now.at(t, y) == UNKNOWN,
        start == 0 || now.at(start - 1, y) != UNKNOWN,
    ensures
        scan_state(before, now, sx, sy, y, start, start, px),
    decreases px - start,
{
    reveal(scan_state);
    reveal(fill_progress);
    assert forall|t: int| start <= t <= px implies #[trigger] now.at(t, y) == UNKNOWN && linked(
        before,
        sx,
        sy,
        t,
        y,
    ) by {
        lemma_run_linked(before, now, sx, sy, y, t, px);
    }
}

/// Every cell of a run of `UNKNOWN` cells that ends in a linked cell is
/// linked.
proof fn lemma_run_linked(before: Scratch, now: Scratch, sx: int, sy: int, y: int, t: int, px: int)
    requires
        now.width == before.width,
        now.height == before.height,
        now.contains(px, y),
        0 <= t <= px,
        fill_progress(before, now, sx, sy),
        linked(before, sx, sy, px, y),
        forall|u: int| t <= u <= px ==> #[trigger] now.at(u, y) == UNKNOWN,
    ensures
        linked(before, sx, sy, t, y),
    decreases px - t,
{
    if t < px {
        lemma_run_linked(before, now, sx, sy, y, t + 1, px);
        assert(now.at(t, y) == UNKNOWN);
        assert(before.at(t, y) == UNKNOWN) by {
            reveal(fill_progress);
        }
        lemma_linked_step(before, sx, sy, t + 1, y, t, y);
    }
}

} // verus!

