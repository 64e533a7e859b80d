//! Straight-line scans over the grid, and the inflation of blocked space.

use vstd::prelude::*;
use super::grid::{cell, grid_ok, idx, in_grid, lemma_cell, set_at};

verus! {

/// A unit step along one of the two axes.
pub open spec fn axis_step(dx: int, dy: int) -> bool {
    (dx == 0 && (dy == 1 || dy == -1)) || (dy == 0 && (dx == 1 || dx == -1))
}

/// Number of free cells met stepping by `(dx, dy)` from `(x, y)`, not
/// counting `(x, y)`, before a blocked cell or the edge, and at most `limit`.
pub open spec fn free_run(
    free: Seq<bool>,
    w: int,
    h: int,
    x: int,
    y: int,
    dx: int,
    dy: int,
    limit: nat,
) -> nat
    decreases limit,
{
    if limit == 0 {
        0
    } else if set_at(free, w, h, x + dx, y + dy) {
        1 + free_run(free, w, h, x + dx, y + dy, dx, dy, (limit - 1) as nat)
    } else {
        0
    }
}

/// Number of blocked cells met stepping by `(dx, dy)` from `(x, y)`,
/// counting `(x, y)`, before a free cell or the edge, and at most `limit`.
pub open spec fn blocked_run(
    free: Seq<bool>,
    w: int,
    h: int,
    x: int,
    y: int,
    dx: int,
    dy: int,
    limit: nat,
) -> nat
    decreases limit,
{
    if limit == 0 {
        0
    } else if in_grid(w, h, x, y) && !free[cell(w, x, y)] {
        1 + blocked_run(free, w, h, x + dx, y + dy, dx, dy, (limit - 1) as nat)
    } else {
        0
    }
}

/// Whether cell `(x, y)` is blocked.
pub fn is_blocked(free: &[bool], grid_w: i32, grid_h: i32, x: i32, y: i32) -> (r: bool)
    requires
        grid_ok(free@.len() as int, grid_w as int, grid_h as int),
        in_grid(grid_w as int, grid_h as int, x as int, y as int),
    ensures
        r == !free@[cell(grid_w as int, x as int, y as int)],
{
    !free[idx(grid_w, grid_h, x, y)]
}

/// Number of free cells in a straight line from `(x, y)` by unit steps of
/// `(dx, dy)`, not counting `(x, y)`, up to `max_steps`.
pub fn span(
    free: &[bool],
    grid_w: i32,
    grid_h: i32,
    x: i32,
    y: i32,
    dx: i32,
    dy: i32,
    max_steps: i32,
) -> (r: i32)
    requires
        grid_ok(free@.len() as int, grid_w as int, grid_h as int),
        in_grid(grid_w as int, grid_h as int, x as int, y as int),
        axis_step(dx as int, dy as int),
    ensures
        r == free_run(
            free@,
            grid_w as int,
            grid_h as int,
            x as int,
            y as int,
            dx as int,
            dy as int,
            if max_steps < 0 { 0nat } else { max_steps as nat },
        ),
{
    let ghost limit: nat = if max_steps < 0 {
        0nat
    } else {
        max_steps as nat
    };
    let mut steps: i32 = 0;
    let mut cx = x;
    let mut cy = y;
    while steps < max_steps
        invariant_except_break
            grid_ok(free@.len() as int, grid_w as int, grid_h as int),
            axis_step(dx as int, dy as int),
            in_grid(grid_w as int, grid_h as int, cx as int, cy as int),
            0 <= steps <= limit,
            limit == (if max_steps < 0 { 0nat } else { max_steps as nat }),
            free_run(free@, grid_w as int, grid_h as int, x as int, y as int, dx as int, dy as int, limit)
                == steps + free_run(
                free@,
                grid_w as int,
                grid_h as int,
                cx as int,
                cy as int,
                dx as int,
                dy as int,
                (limit - steps) as nat,
            ),
        ensures
            steps == free_run(
                free@,
                grid_w as int,
                grid_h as int,
                x as int,
                y as int,
                dx as int,
                dy as int,
                limit,
            ),
        decreases max_steps - steps,
    {
        cx = cx + dx;
        cy = cy + dy;
        if cx < 0 || cy < 0 || cx >= grid_w || cy >= grid_h {
            break;
        }
        if !free[idx(grid_w, grid_h, cx, cy)] {
            break;
        }
        steps = steps + 1;
    }
    steps
}

/// Number of blocked cells in a straight line from `(x, y)` by unit steps of
/// `(dx, dy)`, counting `(x, y)`, up to the first free cell or the edge.
pub fn blocked_depth(
    free: &[bool],
    grid_w: i32,
    grid_h: i32,
    x: i32,
    y: i32,
    dx: i32,
    dy: i32,
) -> (r: i32)
    requires
        grid_ok(free@.len() as int, grid_w as int, grid_h as int),
        in_grid(grid_w as int, grid_h as int, x as int, y as int),
        axis_step(dx as int, dy as int),
    ensures
        r == blocked_run(
            free@,
            grid_w as int,
            grid_h as int,
            x as int,
            y as int,
            dx as int,
            dy as int,
            (grid_w + grid_h) as nat,
        ),
        0 <= r <= grid_w + grid_h,
{
    let ghost limit: nat = (grid_w + grid_h) as nat;
    let mut depth: i32 = 0;
    let mut cx = x;
    let mut cy = y;
    while cx >= 0 && cy >= 0 && cx < grid_w && cy < grid_h && is_blocked(
        free,
        grid_w,
        grid_h,
        cx,
        cy,
    )
        invariant
            grid_ok(free@.len() as int, grid_w as int, grid_h as int),
            axis_step(dx as int, dy as int),
            limit == grid_w + grid_h,
            cx == x + (if dx == 1 { depth as int } else if dx == -1 { -depth } else { 0 }),
            cy == y + (if dy == 1 { depth as int } else if dy == -1 { -depth } else { 0 }),
            0 <= depth,
            -1 <= cx <= grid_w,
            -1 <= cy <= grid_h,
            in_grid(grid_w as int, grid_h as int, x as int, y as int),
            depth <= (if dx == 1 {
                cx - x
            } else if dx == -1 {
                x - cx
            } else if dy == 1 {
                cy - y
            } else {
                y - cy
            }),
            blocked_run(free@, grid_w as int, grid_h as int, x as int, y as int, dx as int, dy as int, limit)
                == depth + blocked_run(
                free@,
                grid_w as int,
                grid_h as int,
                cx as int,
                cy as int,
                dx as int,
                dy as int,
                (limit - depth) as nat,
            ),
        decreases (if dx == 1 {
            grid_w - cx
        } else if dx == -1 {
            cx + 1
        } else if dy == 1 {
            grid_h - cy
        } else {
            cy + 1
        }),
    {
        depth = depth + 1;
        cx = cx + dx;
        cy = cy + dy;
    }
    depth
}

/// Blocked space grown by one cell: a cell is blocked when it, or one of
/// its eight neighbours, is blocked in `blocked`.
pub open spec fn inflated_at(blocked: Seq<bool>, w: int, h: int, x: int, y: int) -> bool {
    exists|ox: int, oy: int|
        -1 <= ox <= 1 && -1 <= oy <= 1 && #[trigger] set_at(blocked, w, h, x + ox, y + oy)
}

/// Whether `(x, y)` or one of its eight neighbours is blocked in `blocked`.
fn near_blocked(blocked: &[bool], w: i32, h: i32, x: i32, y: i32) -> (r: bool)
    requires
        grid_ok(blocked@.len() as int, w as int, h as int),
        in_grid(w as int, h as int, x as int, y as int),
    ensures
        r == inflated_at(blocked@, w as int, h as int, x as int, y as int),
{
    let mut oy: i32 = -1;
    while oy <= 1
        invariant
            grid_ok(blocked@.len() as int, w as int, h as int),
            in_grid(w as int, h as int, x as int, y as int),
            -1 <= oy <= 2,
            forall|ox2: int, oy2: int|
                -1 <= ox2 <= 1 && -1 <= oy2 < oy ==> !#[trigger] set_at(
                    blocked@,
                    w as int,
                    h as int,
                    x + ox2,
                    y + oy2,
                ),
        decreases 2 - oy,
    {
        let mut ox: i32 = -1;
        while ox <= 1
            invariant
                grid_ok(blocked@.len() as int, w as int, h as int),
                in_grid(w as int, h as int, x as int, y as int),
                -1 <= oy <= 1,
                -1 <= ox <= 2,
                forall|ox2: int, oy2: int|
                    -1 <= ox2 <= 1 && -1 <= oy2 < oy ==> !#[trigger] set_at(
                        blocked@,
                        w as int,
                        h as int,
                        x + ox2,
                        y + oy2,
                    ),
                forall|ox2: int|
                    -1 <= ox2 < ox ==> !#[trigger] set_at(
                        blocked@,
                        w as int,
                        h as int,
                        x + ox2,
                        y + oy,
                    ),
            decreases 2 - ox,
        {
            let nx = x + ox;
            let ny = y + oy;
            if nx >= 0 && ny >= 0 && nx < w && ny < h {
                if blocked[idx(w, h, nx, ny)] {
                    assert(set_at(blocked@, w as int, h as int, x + ox, y + oy));
                    return true;
                }
            }
            ox = ox + 1;
        }
        oy = oy + 1;
    }
    false
}

/// Grow blocked space by one cell in every direction, so that the rooms
/// found leave room for an actor: a cell comes out blocked when it, or one
/// of its eight neighbours, is blocked in `blocked`.
pub fn inflate_blocked(blocked: &[bool], grid_w: i32, grid_h: i32) -> (r: Vec<bool>)
    requires
        grid_ok(blocked@.len() as int, grid_w as int, grid_h as int),
    ensures
        r@.len() == blocked@.len(),
        forall|x: int, y: int|
            in_grid(grid_w as int, grid_h as int, x, y) ==> (#[trigger] r@[cell(grid_w as int, x, y)]
                == inflated_at(blocked@, grid_w as int, grid_h as int, x, y)),
{
    let w = grid_w;
    let h = grid_h;
    let ghost wi = w as int;
    let ghost hi = h as int;
    let mut inflated: Vec<bool> = vec![false; blocked.len()];
    let mut gy: i32 = 0;
    while gy < h
        invariant
            grid_ok(blocked@.len() as int, wi, hi),
            wi == w,
            hi == h,
            0 <= gy <= h,
            inflated@.len() == blocked@.len(),
            forall|x: int, y: int|
                in_grid(wi, hi, x, y) && y < gy ==> (#[trigger] inflated@[cell(wi, x, y)]
                    == inflated_at(blocked@, wi, hi, x, y)),
        decreases h - gy,
    {
        let mut gx: i32 = 0;
        while gx < w
            invariant
                grid_ok(blocked@.len() as int, wi, hi),
                wi == w,
                hi == h,
                0 <= gy < h,
                0 <= gx <= w,
                inflated@.len() == blocked@.len(),
                forall|x: int, y: int|
                    in_grid(wi, hi, x, y) && (y < gy || (y == gy && x < gx)) ==> (
                    #[trigger] inflated@[cell(wi, x, y)] == inflated_at(blocked@, wi, hi, x, y)),
            decreases w - gx,
        {
            let v = near_blocked(blocked, w, h, gx, gy);
            let i = idx(w, h, gx, gy);
            inflated.set(i, v);
            proof {
                assert forall|x: int, y: int|
                    in_grid(wi, hi, x, y) && (y < gy || (y == gy && x < gx + 1)) implies (
                    #[trigger] inflated@[cell(wi, x, y)] == inflated_at(blocked@, wi, hi, x, y)) by {
                    lemma_cell(wi, hi, gx as int, gy as int);
                    lemma_cell(wi, hi, x, y);
                }
            }
            gx = gx + 1;
        }
        gy = gy + 1;
    }
    inflated
}

} // verus!
