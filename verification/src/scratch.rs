//! The tri-state scratch grid that a map's walkable grid is built on.

use crate::consts::{UNKNOWN, WALKABLE};
use vstd::prelude::*;

verus! {

/// One byte per cell, row by row: the cell at column `x` of row `y` is
/// stored at index `y * width + x`.
pub struct Scratch {
    pub width: i32,
    pub height: i32,
    pub cells: Vec<u8>,
}

/// How many cells of a sequence are still `UNKNOWN`.
pub open spec fn count_unknown(cells: Seq<u8>) -> nat
    decreases cells.len(),
{
    if cells.len() == 0 {
        0
    } else {
        count_unknown(cells.drop_last()) + if cells.last() == UNKNOWN {
            1nat
        } else {
            0nat
        }
    }
}

/// Overwriting one cell changes the count of `UNKNOWN` cells by what that
/// cell alone contributes.
pub proof fn lemma_count_update(cells: Seq<u8>, i: int, value: u8)
    requires
        0 <= i < cells.len(),
    ensures
        count_unknown(cells.update(i, value)) + (if cells[i] == UNKNOWN {
            1nat
        } else {
            0nat
        }) == count_unknown(cells) + (if value == UNKNOWN {
            1nat
        } else {
            0nat
        }),
    decreases cells.len(),
{
    let updated = cells.update(i, value);
    if i == cells.len() - 1 {
        assert(updated.drop_last() =~= cells.drop_last());
    } else {
        assert(updated.drop_last() =~= cells.drop_last().update(i, value));
        lemma_count_update(cells.drop_last(), i, value);
    }
}

/// A cell index determines its row and column.
pub proof fn lemma_index_unique(width: int, x1: int, y1: int, x2: int, y2: int)
    requires
        0 <= x1 < width,
        0 <= x2 < width,
        y1 * width + x1 == y2 * width + x2,
    ensures
        x1 == x2,
        y1 == y2,
{
    if y1 < y2 {
        assert(y2 * width >= (y1 + 1) * width) by (nonlinear_arith)
            requires
                y1 < y2,
                width > 0,
        ;
        assert((y1 + 1) * width == y1 * width + width) by (nonlinear_arith);
    }
    if y2 < y1 {
        assert(y1 * width >= (y2 + 1) * width) by (nonlinear_arith)
            requires
                y2 < y1,
                width > 0,
        ;
        assert((y2 + 1) * width == y2 * width + width) by (nonlinear_arith);
    }
}

/// A cell inside the box has an index inside the storage.
pub proof fn lemma_index_bound(width: int, height: int, x: int, y: int)
    requires
        0 <= x < width,
        0 <= y < height,
    ensures
        0 <= y * width + x < width * height,
        0 <= y * width,
{
    assert(0 <= y * width && (y + 1) * width <= height * width && (y + 1) * width == y * width
        + width && height * width == width * height) by (nonlinear_arith)
        requires
            0 <= y < height,
            0 < width,
    ;
}

impl Scratch {
    /// The storage holds one byte for each cell of the box.
    pub open spec fn wf(&self) -> bool {
        &&& 0 <= self.width
        &&& 0 <= self.height
        &&& self.width * self.height <= i32::MAX
        &&& self.cells@.len() == self.width * self.height
    }

    /// Whether `(x, y)` is a cell of the box.
    pub open spec fn contains(&self, x: int, y: int) -> bool {
        0 <= x < self.width && 0 <= y < self.height
    }

    /// The value of the cell `(x, y)`.
    pub open spec fn at(&self, x: int, y: int) -> u8 {
        self.cells@[y * self.width + x]
    }

    /// Whether `(x, y)` is a cell of the box that is still `UNKNOWN`.
    pub open spec fn unknown_at(&self, x: int, y: int) -> bool {
        self.contains(x, y) && self.at(x, y) == UNKNOWN
    }

    /// Whether `(x, y)` is a cell of the box that a fill has reached.
    pub open spec fn walkable_at(&self, x: int, y: int) -> bool {
        self.contains(x, y) && self.at(x, y) == WALKABLE
    }

    /// How many cells are still `UNKNOWN`.
    pub open spec fn unknown_count(&self) -> nat {
        count_unknown(self.cells@)
    }

    /// A box of `width` by `height` cells, all `UNKNOWN`.
    pub fn new(width: i32, height: i32) -> (scratch: Scratch)
        requires
            0 <= width,
            0 <= height,
            width * height <= i32::MAX,
        ensures
            scratch.wf(),
            scratch.width == width,
            scratch.height == height,
            forall|x: int, y: int| scratch.contains(x, y) ==> #[trigger] scratch.at(x, y) == UNKNOWN,
    {
        assert(0 <= width * height) by (nonlinear_arith)
            requires
                0 <= width,
                0 <= height,
        ;
        let size: usize = (width as i64 * height as i64) as usize;
        let cells: Vec<u8> = vec![UNKNOWN; size];
        let scratch = Scratch { width, height, cells };
        assert forall|x: int, y: int| scratch.contains(x, y) implies #[trigger] scratch.at(x, y)
            == UNKNOWN by {
            lemma_index_bound(width as int, height as int, x, y);
        }
        scratch
    }

    /// Reads the cell `(x, y)`.
    pub fn get(&self, x: i32, y: i32) -> (value: u8)
        requires
            self.wf(),
            self.contains(x as int, y as int),
        ensures
            value == self.at(x as int, y as int),
    {
        proof {
            lemma_index_bound(self.width as int, self.height as int, x as int, y as int);
        }
        self.cells[(y as i64 * self.width as i64 + x as i64) as usize]
    }

    /// Overwrites the cell `(x, y)` and leaves every other cell as it was.
    pub fn set(&mut self, x: i32, y: i32, value: u8)
        requires
            old(self).wf(),
            old(self).contains(x as int, y as int),
        ensures
            final(self).wf(),
            final(self).width == old(self).width,
            final(self).height == old(self).height,
            final(self).at(x as int, y as int) == value,
            forall|cx: int, cy: int|
                old(self).contains(cx, cy) && !(cx == x && cy == y) ==> #[trigger] final(self).at(
                    cx,
                    cy,
                ) == old(self).at(cx, cy),
            final(self).unknown_count() + (if old(self).at(x as int, y as int) == UNKNOWN {
                1nat
            } else {
                0nat
            }) == old(self).unknown_count() + (if value == UNKNOWN {
                1nat
            } else {
                0nat
            }),
    {
        proof {
            lemma_index_bound(self.width as int, self.height as int, x as int, y as int);
            lemma_count_update(self.cells@, y * self.width + x, value);
        }
        let ghost before = *self;
        let index: usize = (y as i64 * self.width as i64 + x as i64) as usize;
        self.cells[index] = value;
        proof {
            assert forall|cx: int, cy: int|
                before.contains(cx, cy) && !(cx == x && cy == y) implies #[trigger] self.at(cx, cy)
                == before.at(cx, cy) by {
                lemma_index_bound(self.width as int, self.height as int, cx, cy);
                if cy * self.width + cx == y * self.width + x {
                    lemma_index_unique(self.width as int, cx, cy, x as int, y as int);
                }
            }
        }
    }
}

} // verus!
