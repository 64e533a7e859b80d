//! The occupancy grid over which rooms are found: cells, neighbours, runs
//! of free and blocked cells, and the flood fill of the outside.
//!
//! A grid of `w` by `h` cells is a row-major sequence of `w * h` flags, the
//! cell `(x, y)` at position `y * w + x`.

use vstd::prelude::*;

verus! {

/// The grid dimensions fit the flags: both positive, `w * h` flags, and
/// `w * h` within `i32`.
pub open spec fn grid_ok(len: int, w: int, h: int) -> bool {
    w > 0 && h > 0 && w * h == len && w * h <= i32::MAX
}

/// `(x, y)` is a cell of the grid.
pub open spec fn in_grid(w: int, h: int, x: int, y: int) -> bool {
    0 <= x < w && 0 <= y < h
}

/// Position of cell `(x, y)` in the flags.
pub open spec fn cell(w: int, x: int, y: int) -> int {
    y * w + x
}

/// `(x, y)` is a cell of the grid and it is set in `flags`.
pub open spec fn set_at(flags: Seq<bool>, w: int, h: int, x: int, y: int) -> bool {
    in_grid(w, h, x, y) && flags[cell(w, x, y)]
}

/// Cell positions lie in the flags, and distinct cells have distinct
/// positions.
pub proof fn lemma_cell(w: int, h: int, x: int, y: int)
    requires
        w > 0,
        h > 0,
        in_grid(w, h, x, y),
    ensures
        0 <= cell(w, x, y) < w * h,
        forall|x2: int, y2: int|
            in_grid(w, h, x2, y2) && #[trigger] cell(w, x2, y2) == cell(w, x, y) ==> x2 == x && y2
                == y,
{
    assert(0 <= y * w + x < w * h) by (nonlinear_arith)
        requires
            w > 0,
            h > 0,
            0 <= x < w,
            0 <= y < h,
    ;
    assert forall|x2: int, y2: int|
        in_grid(w, h, x2, y2) && #[trigger] cell(w, x2, y2) == cell(w, x, y) implies x2 == x && y2
        == y by {
        assert(x2 == x && y2 == y) by (nonlinear_arith)
            requires
                w > 0,
                0 <= x < w,
                0 <= x2 < w,
                y2 * w + x2 == y * w + x,
        ;
    }
}

/// Index of cell `(x, y)` in a grid `grid_w` cells wide.
pub fn idx(grid_w: i32, grid_h: i32, x: i32, y: i32) -> (r: usize)
    requires
        grid_w > 0,
        grid_h > 0,
        grid_w * grid_h <= i32::MAX,
        in_grid(grid_w as int, grid_h as int, x as int, y as int),
    ensures
        r == cell(grid_w as int, x as int, y as int),
        r < grid_w * grid_h,
{
    proof {
        lemma_cell(grid_w as int, grid_h as int, x as int, y as int);
    }
    (y * grid_w + x) as usize
}

/// The four orthogonal neighbours of a cell: right, left, down, up.
pub fn neighbors4(x: i32, y: i32) -> (r: [(i32, i32); 4])
    requires
        i32::MIN < x < i32::MAX,
        i32::MIN < y < i32::MAX,
    ensures
        r@ == seq![
            ((x + 1) as i32, y),
            ((x - 1) as i32, y),
            (x, (y + 1) as i32),
            (x, (y - 1) as i32),
        ],
{
    let r = [(x + 1, y), (x - 1, y), (x, y + 1), (x, y - 1)];
    assert(r@ =~= seq![
        ((x + 1) as i32, y),
        ((x - 1) as i32, y),
        (x, (y + 1) as i32),
        (x, (y - 1) as i32),
    ]);
    r
}

/// The eight neighbours of a cell: the four orthogonal ones, then the
/// diagonals.
pub fn neighbors8(x: i32, y: i32) -> (r: [(i32, i32); 8])
    requires
        i32::MIN < x < i32::MAX,
        i32::MIN < y < i32::MAX,
    ensures
        r@ == seq![
            ((x + 1) as i32, y),
            ((x - 1) as i32, y),
            (x, (y + 1) as i32),
            (x, (y - 1) as i32),
            ((x + 1) as i32, (y + 1) as i32),
            ((x + 1) as i32, (y - 1) as i32),
            ((x - 1) as i32, (y + 1) as i32),
            ((x - 1) as i32, (y - 1) as i32),
        ],
{
    let r = [
        (x + 1, y),
        (x - 1, y),
        (x, y + 1),
        (x, y - 1),
        (x + 1, y + 1),
        (x + 1, y - 1),
        (x - 1, y + 1),
        (x - 1, y - 1),
    ];
    assert(r@ =~= seq![
        ((x + 1) as i32, y),
        ((x - 1) as i32, y),
        (x, (y + 1) as i32),
        (x, (y - 1) as i32),
        ((x + 1) as i32, (y + 1) as i32),
        ((x + 1) as i32, (y - 1) as i32),
        ((x - 1) as i32, (y + 1) as i32),
        ((x - 1) as i32, (y - 1) as i32),
    ]);
    r
}

} // verus!
