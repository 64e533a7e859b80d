//! Which doorway clusters are sealed off before rooms are counted.

use vstd::prelude::*;
use super::components::{adjacent, as_points};
use super::doors::DoorCluster;
use super::grid::{cell, grid_ok, idx, in_grid, lemma_cell, neighbors8, set_at};
use super::scan::{blocked_depth, blocked_run, is_blocked};

verus! {

/// Blocked cells on both sides of a doorway must continue this far.
pub const DOOR_WALL_CONTINUATION_MIN_CELLS: i32 = 5;

/// Some cell of the cluster has a neighbour (in all eight directions) off
/// the cluster that is free and outside.
pub open spec fn touches_outside(cells: Seq<(i32, i32)>, free: Seq<bool>, outside: Seq<bool>, w: int, h: int) -> bool {
    exists|k: int, nx: int, ny: int|
        0 <= k < cells.len() && #[trigger] adjacent(
            true,
            cells[k].0 as int,
            cells[k].1 as int,
            nx,
            ny,
        ) && in_grid(w, h, nx, ny) && !as_points(cells).contains((nx, ny)) && free[cell(w, nx, ny)]
            && outside[cell(w, nx, ny)]
}

/// The deepest run of blocked cells met stepping by `(dx, dy)` from the
/// cells `(x, y)` of a line, for `x` from `x0` below `x1` (when `horizontal`)
/// or `y` from `x0` below `x1` at column `at` (otherwise).
pub open spec fn deepest_run(
    free: Seq<bool>,
    w: int,
    h: int,
    horizontal: bool,
    at: int,
    x0: int,
    x1: int,
    dx: int,
    dy: int,
) -> int
    decreases x1 - x0,
{
    if x1 <= x0 {
        0
    } else {
        let rest = deepest_run(free, w, h, horizontal, at, x0, x1 - 1, dx, dy);
        let d: int = if horizontal {
            blocked_run(free, w, h, x1 - 1, at, dx, dy, (w + h) as nat) as int
        } else {
            blocked_run(free, w, h, at, x1 - 1, dx, dy, (w + h) as nat) as int
        };
        if d > rest {
            d
        } else {
            rest
        }
    }
}

/// Blocked space continues past both sides of the cluster: above and below
/// a cluster at least as wide as it is tall, left and right of a taller one,
/// at least the continuation length deep, the sides lying inside the grid.
pub open spec fn wall_continues(c: DoorCluster, free: Seq<bool>, w: int, h: int) -> bool {
    let bw = c.max_x - c.min_x + 1;
    let bh = c.max_y - c.min_y + 1;
    if bw >= bh {
        let y_up = c.min_y - 1;
        let y_down = c.max_y + 1;
        y_up >= 0 && y_down < h && deepest_run(free, w, h, true, y_up, c.min_x as int, c.max_x + 1, 0, -1)
            >= DOOR_WALL_CONTINUATION_MIN_CELLS && deepest_run(
            free,
            w,
            h,
            true,
            y_down,
            c.min_x as int,
            c.max_x + 1,
            0,
            1,
        ) >= DOOR_WALL_CONTINUATION_MIN_CELLS
    } else {
        let x_left = c.min_x - 1;
        let x_right = c.max_x + 1;
        x_left >= 0 && x_right < w && deepest_run(
            free,
            w,
            h,
            false,
            x_left,
            c.min_y as int,
            c.max_y + 1,
            -1,
            0,
        ) >= DOOR_WALL_CONTINUATION_MIN_CELLS && deepest_run(
            free,
            w,
            h,
            false,
            x_right,
            c.min_y as int,
            c.max_y + 1,
            1,
            0,
        ) >= DOOR_WALL_CONTINUATION_MIN_CELLS
    }
}

/// The cluster's bounding box lies in the grid.
pub open spec fn cluster_in_grid(c: DoorCluster, w: int, h: int) -> bool {
    0 <= c.min_x <= c.max_x < w && 0 <= c.min_y <= c.max_y < h
}

/// Neighbour `n` does not make the cluster touch the outside.
spec fn nb_clear(cs: Seq<(i32, i32)>, free: Seq<bool>, outside: Seq<bool>, w: int, h: int, n: (i32, i32)) -> bool {
    in_grid(w, h, n.0 as int, n.1 as int) && !as_points(cs).contains((n.0 as int, n.1 as int)) ==> !(
    free[cell(w, n.0 as int, n.1 as int)] && outside[cell(w, n.0 as int, n.1 as int)])
}

/// Whether `(x, y)` is among the cells.
fn listed(cells: &Vec<(i32, i32)>, x: i32, y: i32) -> (r: bool)
    ensures
        r == as_points(cells@).contains((x as int, y as int)),
{
    let mut k: usize = 0;
    while k < cells.len()
        invariant
            0 <= k <= cells@.len(),
            forall|j: int| 0 <= j < k ==> (#[trigger] cells@[j]) != (x, y),
        decreases cells@.len() - k,
    {
        if cells[k].0 == x && cells[k].1 == y {
            assert(as_points(cells@)[k as int] == (x as int, y as int));
            return true;
        }
        k = k + 1;
    }
    proof {
        if as_points(cells@).contains((x as int, y as int)) {
            let j = choose|j: int| 0 <= j < as_points(cells@).len() && as_points(cells@)[j] == (x as int, y as int);
            assert(cells@[j] == (x, y));
        }
    }
    false
}

/// Whether the cluster touches free space connected to the outside.
pub fn cluster_touches_outside(
    cluster: &DoorCluster,
    free: &[bool],
    outside_unsealed: &[bool],
    grid_w: i32,
    grid_h: i32,
) -> (r: bool)
    requires
        grid_ok(free@.len() as int, grid_w as int, grid_h as int),
        outside_unsealed@.len() == free@.len(),
        forall|k: int|
            0 <= k < cluster.cells@.len() ==> in_grid(
                grid_w as int,
                grid_h as int,
                (#[trigger] cluster.cells@[k]).0 as int,
                cluster.cells@[k].1 as int,
            ),
    ensures
        r == touches_outside(cluster.cells@, free@, outside_unsealed@, grid_w as int, grid_h as int),
{
    let ghost wi = grid_w as int;
    let ghost hi = grid_h as int;
    let ghost cs = cluster.cells@;
    let mut k: usize = 0;
    while k < cluster.cells.len()
        invariant
            grid_ok(free@.len() as int, wi, hi),
            wi == grid_w,
            hi == grid_h,
            cs == cluster.cells@,
            outside_unsealed@.len() == free@.len(),
            forall|j: int| 0 <= j < cs.len() ==> in_grid(wi, hi, (#[trigger] cs[j]).0 as int, cs[j].1 as int),
            0 <= k <= cs.len(),
            forall|j: int, nx: int, ny: int|
                0 <= j < k && #[trigger] adjacent(true, cs[j].0 as int, cs[j].1 as int, nx, ny)
                    && in_grid(wi, hi, nx, ny) && !as_points(cs).contains((nx, ny)) ==> !(free@[cell(
                    wi,
                    nx,
                    ny,
                )] && outside_unsealed@[cell(wi, nx, ny)]),
        decreases cs.len() - k,
    {
        let (cx, cy) = cluster.cells[k];
        let nbs = neighbors8(cx, cy);
        let mut q: usize = 0;
        while q < 8
            invariant
                grid_ok(free@.len() as int, wi, hi),
                wi == grid_w,
                hi == grid_h,
                cs == cluster.cells@,
                outside_unsealed@.len() == free@.len(),
                0 <= k < cs.len(),
                cs[k as int] == (cx, cy),
                in_grid(wi, hi, cx as int, cy as int),
                0 <= q <= 8,
                nbs@ == seq![
                    ((cx + 1) as i32, cy),
                    ((cx - 1) as i32, cy),
                    (cx, (cy + 1) as i32),
                    (cx, (cy - 1) as i32),
                    ((cx + 1) as i32, (cy + 1) as i32),
                    ((cx + 1) as i32, (cy - 1) as i32),
                    ((cx - 1) as i32, (cy + 1) as i32),
                    ((cx - 1) as i32, (cy - 1) as i32),
                ],
                forall|j: int, nx: int, ny: int|
                    0 <= j < k && #[trigger] adjacent(true, cs[j].0 as int, cs[j].1 as int, nx, ny)
                        && in_grid(wi, hi, nx, ny) && !as_points(cs).contains((nx, ny)) ==> !(free@[cell(
                        wi,
                        nx,
                        ny,
                    )] && outside_unsealed@[cell(wi, nx, ny)]),
                forall|q2: int|
                    0 <= q2 < q ==> nb_clear(cs, free@, outside_unsealed@, wi, hi, #[trigger] nbs@[q2]),
            decreases 8 - q,
        {
            let (nx, ny) = nbs[q];
            if nx >= 0 && ny >= 0 && nx < grid_w && ny < grid_h {
                if !listed(&cluster.cells, nx, ny) {
                    let ni = idx(grid_w, grid_h, nx, ny);
                    if free[ni] && outside_unsealed[ni] {
                        proof {
                            assert(adjacent(true, cs[k as int].0 as int, cs[k as int].1 as int, nx as int, ny as int));
                        }
                        return true;
                    }
                }
            }
            q = q + 1;
        }
        proof {
            assert forall|j: int, nx: int, ny: int|
                0 <= j < k + 1 && #[trigger] adjacent(true, cs[j].0 as int, cs[j].1 as int, nx, ny)
                    && in_grid(wi, hi, nx, ny) && !as_points(cs).contains((nx, ny)) implies !(free@[cell(
                    wi,
                    nx,
                    ny,
                )] && outside_unsealed@[cell(wi, nx, ny)]) by {
                if j == k {
                    assert(nb_clear(cs, free@, outside_unsealed@, wi, hi, nbs@[0]));
                    assert(nb_clear(cs, free@, outside_unsealed@, wi, hi, nbs@[1]));
                    assert(nb_clear(cs, free@, outside_unsealed@, wi, hi, nbs@[2]));
                    assert(nb_clear(cs, free@, outside_unsealed@, wi, hi, nbs@[3]));
                    assert(nb_clear(cs, free@, outside_unsealed@, wi, hi, nbs@[4]));
                    assert(nb_clear(cs, free@, outside_unsealed@, wi, hi, nbs@[5]));
                    assert(nb_clear(cs, free@, outside_unsealed@, wi, hi, nbs@[6]));
                    assert(nb_clear(cs, free@, outside_unsealed@, wi, hi, nbs@[7]));
                    if nx == cx + 1 && ny == cy {
                        assert(nbs@[0] == (nx as i32, ny as i32));
                    } else if nx == cx - 1 && ny == cy {
                        assert(nbs@[1] == (nx as i32, ny as i32));
                    } else if nx == cx && ny == cy + 1 {
                        assert(nbs@[2] == (nx as i32, ny as i32));
                    } else if nx == cx && ny == cy - 1 {
                        assert(nbs@[3] == (nx as i32, ny as i32));
                    } else if nx == cx + 1 && ny == cy + 1 {
                        assert(nbs@[4] == (nx as i32, ny as i32));
                    } else if nx == cx + 1 && ny == cy - 1 {
                        assert(nbs@[5] == (nx as i32, ny as i32));
                    } else if nx == cx - 1 && ny == cy + 1 {
                        assert(nbs@[6] == (nx as i32, ny as i32));
                    } else {
                        assert(nbs@[7] == (nx as i32, ny as i32));
                    }
                }
            }
        }
        k = k + 1;
    }
    false
}

/// The deepest blocked run from the cells of a line of the grid, when it is
/// horizontal, the cells `(x, at)` for `x0 <= x <= x1`, else `(at, y)`.
fn deepest_blocked(
    free: &[bool],
    grid_w: i32,
    grid_h: i32,
    horizontal: bool,
    at: i32,
    x0: i32,
    x1: i32,
    dx: i32,
    dy: i32,
) -> (r: i32)
    requires
        grid_ok(free@.len() as int, grid_w as int, grid_h as int),
        (dx == 0 && (dy == 1 || dy == -1)) || (dy == 0 && (dx == 1 || dx == -1)),
        horizontal ==> 0 <= at < grid_h && 0 <= x0 <= x1 < grid_w,
        !horizontal ==> 0 <= at < grid_w && 0 <= x0 <= x1 < grid_h,
    ensures
        r == deepest_run(
            free@,
            grid_w as int,
            grid_h as int,
            horizontal,
            at as int,
            x0 as int,
            x1 + 1,
            dx as int,
            dy as int,
        ),
{
    let mut depth: i32 = 0;
    let mut x = x0;
    while x <= x1
        invariant
            grid_ok(free@.len() as int, grid_w as int, grid_h as int),
            (dx == 0 && (dy == 1 || dy == -1)) || (dy == 0 && (dx == 1 || dx == -1)),
            horizontal ==> 0 <= at < grid_h && 0 <= x0 <= x1 < grid_w,
            !horizontal ==> 0 <= at < grid_w && 0 <= x0 <= x1 < grid_h,
            x0 <= x <= x1 + 1,
            depth == deepest_run(
                free@,
                grid_w as int,
                grid_h as int,
                horizontal,
                at as int,
                x0 as int,
                x as int,
                dx as int,
                dy as int,
            ),
            0 <= depth <= grid_w + grid_h,
        decreases x1 + 1 - x,
    {
        let (cx, cy) = if horizontal {
            (x, at)
        } else {
            (at, x)
        };
        let d = if is_blocked(free, grid_w, grid_h, cx, cy) {
            blocked_depth(free, grid_w, grid_h, cx, cy, dx, dy)
        } else {
            proof {
                lemma_cell(grid_w as int, grid_h as int, cx as int, cy as int);
                assert(blocked_run(free@, grid_w as int, grid_h as int, cx as int, cy as int, dx as int, dy as int, (grid_w + grid_h) as nat) == 0);
            }
            0
        };
        if d > depth {
            depth = d;
        }
        x = x + 1;
    }
    depth
}

/// Whether blocked space continues past both sides of the cluster, so that
/// it separates two rooms.
pub fn cluster_has_wall_continuation(cluster: &DoorCluster, free: &[bool], grid_w: i32, grid_h: i32) -> (r: bool)
    requires
        grid_ok(free@.len() as int, grid_w as int, grid_h as int),
        cluster_in_grid(*cluster, grid_w as int, grid_h as int),
    ensures
        r == wall_continues(*cluster, free@, grid_w as int, grid_h as int),
{
    let bbox_w = cluster.max_x - cluster.min_x + 1;
    let bbox_h = cluster.max_y - cluster.min_y + 1;
    if bbox_w >= bbox_h {
        let y_up = cluster.min_y - 1;
        let y_down = cluster.max_y + 1;
        if y_up < 0 || y_down >= grid_h {
            return false;
        }
        let up_depth = deepest_blocked(free, grid_w, grid_h, true, y_up, cluster.min_x, cluster.max_x, 0, -1);
        let down_depth = deepest_blocked(free, grid_w, grid_h, true, y_down, cluster.min_x, cluster.max_x, 0, 1);
        up_depth >= DOOR_WALL_CONTINUATION_MIN_CELLS && down_depth >= DOOR_WALL_CONTINUATION_MIN_CELLS
    } else {
        let x_left = cluster.min_x - 1;
        let x_right = cluster.max_x + 1;
        if x_left < 0 || x_right >= grid_w {
            return false;
        }
        let left_depth = deepest_blocked(free, grid_w, grid_h, false, x_left, cluster.min_y, cluster.max_y, -1, 0);
        let right_depth = deepest_blocked(free, grid_w, grid_h, false, x_right, cluster.min_y, cluster.max_y, 1, 0);
        left_depth >= DOOR_WALL_CONTINUATION_MIN_CELLS && right_depth >= DOOR_WALL_CONTINUATION_MIN_CELLS
    }
}

/// A doorway cluster is sealed when it touches the outside or when walls
/// continue past both its sides.
pub fn should_seal_cluster(
    cluster: &DoorCluster,
    free: &[bool],
    outside_unsealed: &[bool],
    grid_w: i32,
    grid_h: i32,
) -> (r: bool)
    requires
        grid_ok(free@.len() as int, grid_w as int, grid_h as int),
        outside_unsealed@.len() == free@.len(),
        cluster_in_grid(*cluster, grid_w as int, grid_h as int),
        forall|k: int|
            0 <= k < cluster.cells@.len() ==> in_grid(
                grid_w as int,
                grid_h as int,
                (#[trigger] cluster.cells@[k]).0 as int,
                cluster.cells@[k].1 as int,
            ),
    ensures
        r == (touches_outside(cluster.cells@, free@, outside_unsealed@, grid_w as int, grid_h as int)
            || wall_continues(*cluster, free@, grid_w as int, grid_h as int)),
{
    cluster_touches_outside(cluster, free, outside_unsealed, grid_w, grid_h)
        || cluster_has_wall_continuation(cluster, free, grid_w, grid_h)
}

} // verus!
