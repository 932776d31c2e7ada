//! Grid coordinates and the row-major layout that every layer of the map shares.

use vstd::prelude::*;

verus! {

/// A tile coordinate: `x` counts columns from the left, `y` rows from the top.
#[derive(Clone, Copy, Debug, PartialEq, Eq, Structural)]
pub struct Coord {
    pub x: i32,
    pub y: i32,
}

/// Whether `(x, y)` lies on a grid of `width` columns and `height` rows.
pub open spec fn on_grid(x: int, y: int, width: int, height: int) -> bool {
    0 <= x < width && 0 <= y < height
}

/// The place of `(x, y)` in a row-major layer of `width` columns.
pub open spec fn cell_index(x: int, y: int, width: int) -> int {
    y * width + x
}

/// Every tile of the grid has a place inside a layer of `width * height` cells.
pub proof fn lemma_cell_index_bounds(x: int, y: int, width: int, height: int)
    requires
        on_grid(x, y, width, height),
    ensures
        0 <= y * width <= cell_index(x, y, width) < width * height,
{
    assert(0 <= y * width && y * width + width <= height * width) by (nonlinear_arith)
        requires
            0 <= y < height,
            0 < width,
    ;
    assert(height * width == width * height) by (nonlinear_arith);
}

/// Two tiles of the grid share a place only if they are the same tile.
pub proof fn lemma_cell_index_injective(x1: int, y1: int, x2: int, y2: int, width: int)
    requires
        0 <= x1 < width,
        0 <= x2 < width,
        cell_index(x1, y1, width) == cell_index(x2, y2, width),
    ensures
        x1 == x2,
        y1 == y2,
{
    vstd::arithmetic::div_mod::lemma_fundamental_div_mod_converse(
        cell_index(x1, y1, width),
        width,
        y1,
        x1,
    );
    vstd::arithmetic::div_mod::lemma_fundamental_div_mod_converse(
        cell_index(x2, y2, width),
        width,
        y2,
        x2,
    );
}

/// Every place in a layer belongs to exactly one tile of the grid: column
/// `i % width` of row `i / width`.
pub proof fn lemma_index_cell(i: int, width: int, height: int)
    requires
        0 <= width,
        0 <= height,
        0 <= i < width * height,
    ensures
        on_grid(i % width, i / width, width, height),
        cell_index(i % width, i / width, width) == i,
{
    assert(width > 0) by (nonlinear_arith)
        requires
            0 <= width,
            0 <= i < width * height,
    ;
    vstd::arithmetic::div_mod::lemma_fundamental_div_mod(i, width);
    vstd::arithmetic::div_mod::lemma_mod_bound(i, width);
    let q = i / width;
    assert(0 <= q < height) by (nonlinear_arith)
        requires
            0 < width,
            0 <= i < width * height,
            i == width * q + i % width,
            0 <= i % width < width,
    ;
    assert(width * q == q * width) by (nonlinear_arith);
}

/// What `pick` yields for the first `x_end` tiles of row `y`, left to right.
pub open spec fn scan_row<T>(y: int, x_end: int, pick: spec_fn(int, int) -> Option<T>) -> Seq<T>
    decreases x_end,
{
    if x_end <= 0 {
        Seq::empty()
    } else {
        match pick(x_end - 1, y) {
            Some(v) => scan_row(y, x_end - 1, pick).push(v),
            None => scan_row(y, x_end - 1, pick),
        }
    }
}

/// What `pick` yields for the first `y_end` rows of a grid `width` wide, row by
/// row from the top, each row left to right.
pub open spec fn scan_grid<T>(width: int, y_end: int, pick: spec_fn(int, int) -> Option<T>) -> Seq<
    T,
>
    decreases y_end,
{
    if y_end <= 0 {
        Seq::empty()
    } else {
        scan_grid(width, y_end - 1, pick) + scan_row(y_end - 1, width, pick)
    }
}

/// The row-major index of a tile: `y * width + x`.
pub fn xy_idx(x: i32, y: i32, width: i32) -> (idx: usize)
    requires
        0 <= x < width,
        0 <= y,
        y * width + x <= i32::MAX,
    ensures
        idx == cell_index(x as int, y as int, width as int),
{
    assert(0 <= y * width) by (nonlinear_arith)
        requires
            0 <= y,
            0 < width,
    ;
    (y * width + x) as usize
}

} // verus!
