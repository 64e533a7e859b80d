//! Narrow doorways: free cells squeezed between walls that open into wider
//! space, grouped into clusters that may be sealed off to split rooms.

use vstd::prelude::*;
use super::components::{
    as_points, components_in_order, connected, is_leader, is_path, leaders,
    lemma_leaders_are_leaders, lists_component,
};
use super::grid::{cell, grid_ok, idx, in_grid, lemma_cell, set_at};
use super::scan::{free_run, span};

verus! {

/// Narrowest doorway, in cells.
pub const DOOR_MIN_WIDTH_CELLS: i32 = 1;
/// Widest doorway, in cells.
pub const DOOR_MAX_WIDTH_CELLS: i32 = 5;
/// A doorway must connect into space at least this long on one axis.
pub const DOOR_EXPANSION_MIN_CELLS: i32 = 6;
/// Longest side of a doorway cluster's bounding box.
pub const DOOR_CLUSTER_MAX_MAJOR_CELLS: i32 = 12;
/// Most cells of a doorway cluster.
pub const DOOR_CLUSTER_MAX_AREA_CELLS: usize = 80;
/// How far the width scans look in each direction.
pub const DOOR_SCAN_LIMIT: i32 = 13;

/// `(x, y)` is a doorway candidate: a free cell whose narrower axis (the
/// free run across it, both ways plus itself) is between the doorway
/// widths, and whose wider axis reaches open space.
pub open spec fn door_candidate(free: Seq<bool>, w: int, h: int, x: int, y: int) -> bool {
    let l = free_run(free, w, h, x, y, -1, 0, DOOR_SCAN_LIMIT as nat);
    let r = free_run(free, w, h, x, y, 1, 0, DOOR_SCAN_LIMIT as nat);
    let u = free_run(free, w, h, x, y, 0, -1, DOOR_SCAN_LIMIT as nat);
    let d = free_run(free, w, h, x, y, 0, 1, DOOR_SCAN_LIMIT as nat);
    let wh = 1 + l + r;
    let wv = 1 + u + d;
    let local = if wh < wv { wh } else { wv };
    let long = if wh < wv { wv } else { wh };
    &&& set_at(free, w, h, x, y)
    &&& DOOR_MIN_WIDTH_CELLS <= local <= DOOR_MAX_WIDTH_CELLS
    &&& long >= DOOR_EXPANSION_MIN_CELLS
}

/// The set of cells connected to `a`.
pub open spec fn comp_set(mask: Seq<bool>, w: int, h: int, diag: bool, a: (int, int)) -> Set<
    (int, int),
> {
    Set::new(|c: (int, int)| connected(mask, w, h, diag, a, c))
}

/// `b = (min_x, min_y, max_x, max_y)` is the bounding box of `s`.
pub open spec fn set_bbox(s: Set<(int, int)>, b: (int, int, int, int)) -> bool {
    &&& forall|c: (int, int)| #[trigger] s.contains(c) ==> b.0 <= c.0 <= b.2 && b.1 <= c.1 <= b.3
    &&& exists|c: (int, int)| #[trigger] s.contains(c) && c.0 == b.0
    &&& exists|c: (int, int)| #[trigger] s.contains(c) && c.1 == b.1
    &&& exists|c: (int, int)| #[trigger] s.contains(c) && c.0 == b.2
    &&& exists|c: (int, int)| #[trigger] s.contains(c) && c.1 == b.3
}

/// A doorway cluster's shape passes: its bounding box is at most a doorway
/// wide and at most the longest side long, and it has at most the most
/// cells.
pub open spec fn door_shape_ok(b: (int, int, int, int), n: int) -> bool {
    let bw = b.2 - b.0 + 1;
    let bh = b.3 - b.1 + 1;
    let minor = if bw < bh { bw } else { bh };
    let major = if bw < bh { bh } else { bw };
    minor <= DOOR_MAX_WIDTH_CELLS && major <= DOOR_CLUSTER_MAX_MAJOR_CELLS && n
        <= DOOR_CLUSTER_MAX_AREA_CELLS
}

/// The component of candidate `a` has a doorway's shape.
pub open spec fn door_ok(cand: Seq<bool>, w: int, h: int, a: (int, int)) -> bool {
    forall|b: (int, int, int, int)|
        #[trigger] set_bbox(comp_set(cand, w, h, true, a), b) ==> door_shape_ok(
            b,
            comp_set(cand, w, h, true, a).len() as int,
        )
}

/// The first cells of the doorway clusters of the candidate mask `cand`, in
/// row-major order.
pub open spec fn door_leaders(cand: Seq<bool>, w: int, h: int) -> Seq<(int, int)> {
    leaders(cand, w, h, true).filter(|a: (int, int)| door_ok(cand, w, h, a))
}

/// A cluster of doorway candidate cells with its bounding box.
#[derive(Clone, Debug)]
pub struct DoorCluster {
    pub cells: Vec<(i32, i32)>,
    pub min_x: i32,
    pub min_y: i32,
    pub max_x: i32,
    pub max_y: i32,
}

/// `c` is the doorway cluster of the component of `a`.
pub open spec fn is_cluster_of(c: DoorCluster, cand: Seq<bool>, w: int, h: int, a: (int, int)) -> bool {
    &&& lists_component(cand, w, h, true, a, c.cells@)
    &&& set_bbox(
        comp_set(cand, w, h, true, a),
        (c.min_x as int, c.min_y as int, c.max_x as int, c.max_y as int),
    )
}

/// The doorway candidates of the grid, one flag per cell.
pub fn door_candidates(free: &[bool], grid_w: i32, grid_h: i32) -> (r: Vec<bool>)
    requires
        grid_ok(free@.len() as int, grid_w as int, grid_h as int),
    ensures
        r@.len() == free@.len(),
        forall|x: int, y: int|
            in_grid(grid_w as int, grid_h as int, x, y) ==> (#[trigger] r@[cell(grid_w as int, x, y)]
                == door_candidate(free@, grid_w as int, grid_h as int, x, y)),
{
    let w = grid_w;
    let h = grid_h;
    let ghost wi = w as int;
    let ghost hi = h as int;
    let mut candidate: Vec<bool> = vec![false; free.len()];
    proof {
        assert forall|x: int, y: int| in_grid(wi, hi, x, y) implies (#[trigger] candidate@[cell(
            wi,
            x,
            y,
        )] == (y < 0 && door_candidate(free@, wi, hi, x, y))) by {
            lemma_cell(wi, hi, x, y);
        }
    }
    let mut gy: i32 = 0;
    while gy < h
        invariant
            grid_ok(free@.len() as int, wi, hi),
            wi == w,
            hi == h,
            0 <= gy <= h,
            candidate@.len() == free@.len(),
            forall|x: int, y: int|
                in_grid(wi, hi, x, y) ==> (#[trigger] candidate@[cell(wi, x, y)] == (y < gy
                    && door_candidate(free@, wi, hi, x, y))),
        decreases h - gy,
    {
        let mut gx: i32 = 0;
        while gx < w
            invariant
                grid_ok(free@.len() as int, wi, hi),
                wi == w,
                hi == h,
                0 <= gy < h,
                0 <= gx <= w,
                candidate@.len() == free@.len(),
                forall|x: int, y: int|
                    in_grid(wi, hi, x, y) ==> (#[trigger] candidate@[cell(wi, x, y)] == ((y < gy || (
                    y == gy && x < gx)) && door_candidate(free@, wi, hi, x, y))),
            decreases w - gx,
        {
            let i = idx(w, h, gx, gy);
            if free[i] {
                let left = span(free, w, h, gx, gy, -1, 0, DOOR_SCAN_LIMIT);
                let right = span(free, w, h, gx, gy, 1, 0, DOOR_SCAN_LIMIT);
                let up = span(free, w, h, gx, gy, 0, -1, DOOR_SCAN_LIMIT);
                let down = span(free, w, h, gx, gy, 0, 1, DOOR_SCAN_LIMIT);
                proof {
                    lemma_free_run_bound(free@, wi, hi, gx as int, gy as int, -1, 0, 13);
                    lemma_free_run_bound(free@, wi, hi, gx as int, gy as int, 1, 0, 13);
                    lemma_free_run_bound(free@, wi, hi, gx as int, gy as int, 0, -1, 13);
                    lemma_free_run_bound(free@, wi, hi, gx as int, gy as int, 0, 1, 13);
                }
                let width_h = 1 + left + right;
                let width_v = 1 + up + down;
                let local_width = if width_h < width_v {
                    width_h
                } else {
                    width_v
                };
                let long_axis = if width_h < width_v {
                    width_v
                } else {
                    width_h
                };
                let is_narrow = local_width >= DOOR_MIN_WIDTH_CELLS && local_width
                    <= DOOR_MAX_WIDTH_CELLS;
                let reaches_open_space = long_axis >= DOOR_EXPANSION_MIN_CELLS;
                if is_narrow && reaches_open_space {
                    candidate.set(i, true);
                }
            }
            proof {
                assert forall|x: int, y: int| in_grid(wi, hi, x, y) implies (
                #[trigger] candidate@[cell(wi, x, y)] == ((y < gy || (y == gy && x < gx + 1))
                    && door_candidate(free@, wi, hi, x, y))) by {
                    lemma_cell(wi, hi, x, y);
                    lemma_cell(wi, hi, gx as int, gy as int);
                }
            }
            gx = gx + 1;
        }
        gy = gy + 1;
    }
    candidate
}

proof fn lemma_free_run_bound(
    free: Seq<bool>,
    w: int,
    h: int,
    x: int,
    y: int,
    dx: int,
    dy: int,
    limit: nat,
)
    ensures
        free_run(free, w, h, x, y, dx, dy, limit) <= limit,
    decreases limit,
{
    if limit > 0 {
        lemma_free_run_bound(free, w, h, x + dx, y + dy, dx, dy, (limit - 1) as nat);
    }
}

/// The bounding box `(min_x, min_y, max_x, max_y)` of some cells.
pub fn bounding_box(cells: &Vec<(i32, i32)>) -> (b: (i32, i32, i32, i32))
    requires
        cells@.len() > 0,
    ensures
        set_bbox(as_points(cells@).to_set(), (b.0 as int, b.1 as int, b.2 as int, b.3 as int)),
{
    let ghost ps = as_points(cells@);
    let mut min_x = cells[0].0;
    let mut min_y = cells[0].1;
    let mut max_x = cells[0].0;
    let mut max_y = cells[0].1;
    let mut k: usize = 1;
    while k < cells.len()
        invariant
            ps == as_points(cells@),
            1 <= k <= cells@.len(),
            forall|j: int|
                0 <= j < k ==> min_x <= (#[trigger] cells@[j]).0 <= max_x && min_y <= cells@[j].1
                    <= max_y,
            exists|j: int| 0 <= j < k && (#[trigger] cells@[j]).0 == min_x,
            exists|j: int| 0 <= j < k && (#[trigger] cells@[j]).1 == min_y,
            exists|j: int| 0 <= j < k && (#[trigger] cells@[j]).0 == max_x,
            exists|j: int| 0 <= j < k && (#[trigger] cells@[j]).1 == max_y,
        decreases cells@.len() - k,
    {
        let (cx, cy) = cells[k];
        if cx < min_x {
            min_x = cx;
        }
        if cy < min_y {
            min_y = cy;
        }
        if cx > max_x {
            max_x = cx;
        }
        if cy > max_y {
            max_y = cy;
        }
        k = k + 1;
    }
    proof {
        let s = ps.to_set();
        let b = (min_x as int, min_y as int, max_x as int, max_y as int);
        assert forall|c: (int, int)| #[trigger] s.contains(c) implies b.0 <= c.0 <= b.2 && b.1 <= c.1
            <= b.3 by {
            let j = choose|j: int| 0 <= j < ps.len() && ps[j] == c;
            assert(cells@[j].0 as int == c.0);
        }
        let j0 = choose|j: int| 0 <= j < k && (#[trigger] cells@[j]).0 == min_x;
        assert(s.contains(ps[j0]));
        let j1 = choose|j: int| 0 <= j < k && (#[trigger] cells@[j]).1 == min_y;
        assert(s.contains(ps[j1]));
        let j2 = choose|j: int| 0 <= j < k && (#[trigger] cells@[j]).0 == max_x;
        assert(s.contains(ps[j2]));
        let j3 = choose|j: int| 0 <= j < k && (#[trigger] cells@[j]).1 == max_y;
        assert(s.contains(ps[j3]));
    }
    (min_x, min_y, max_x, max_y)
}

/// A listing of a component holds the component's cells, once each.
proof fn lemma_listing_is_set(
    mask: Seq<bool>,
    w: int,
    h: int,
    diag: bool,
    a: (int, int),
    cells: Seq<(i32, i32)>,
)
    requires
        lists_component(mask, w, h, diag, a, cells),
    ensures
        as_points(cells).to_set() == comp_set(mask, w, h, diag, a),
        as_points(cells).to_set().len() == cells.len(),
{
    let ps = as_points(cells);
    assert forall|c: (int, int)| #[trigger] ps.to_set().contains(c) <==> comp_set(mask, w, h, diag, a).contains(c) by {
        if ps.to_set().contains(c) {
            let j = choose|j: int| 0 <= j < ps.len() && ps[j] == c;
            assert(cells[j].0 as int == c.0 && cells[j].1 as int == c.1);
        }
        if comp_set(mask, w, h, diag, a).contains(c) {
            assert(connected(mask, w, h, diag, a, (c.0, c.1)));
        }
    }
    assert(ps.to_set() =~= comp_set(mask, w, h, diag, a));
    assert forall|i: int, j: int| 0 <= i < ps.len() && 0 <= j < ps.len() && i != j implies ps[i] != ps[j] by {
        assert(cells[i] != cells[j]);
    }
    assert(ps.no_duplicates());
    ps.unique_seq_to_set();
}

proof fn lemma_bbox_unique(s: Set<(int, int)>, b1: (int, int, int, int), b2: (int, int, int, int))
    requires
        set_bbox(s, b1),
        set_bbox(s, b2),
    ensures
        b1 == b2,
{
    let c0 = choose|c: (int, int)| #[trigger] s.contains(c) && c.0 == b1.0;
    let d0 = choose|c: (int, int)| #[trigger] s.contains(c) && c.0 == b2.0;
    let c1 = choose|c: (int, int)| #[trigger] s.contains(c) && c.1 == b1.1;
    let d1 = choose|c: (int, int)| #[trigger] s.contains(c) && c.1 == b2.1;
    let c2 = choose|c: (int, int)| #[trigger] s.contains(c) && c.0 == b1.2;
    let d2 = choose|c: (int, int)| #[trigger] s.contains(c) && c.0 == b2.2;
    let c3 = choose|c: (int, int)| #[trigger] s.contains(c) && c.1 == b1.3;
    let d3 = choose|c: (int, int)| #[trigger] s.contains(c) && c.1 == b2.3;
}

/// The doorway cluster of some cells of the grid, when they have a
/// doorway's shape.
fn shape_cluster(cells: Vec<(i32, i32)>, Ghost(w): Ghost<int>, Ghost(h): Ghost<int>) -> (r: Option<
    DoorCluster,
>)
    requires
        cells@.len() > 0,
        w <= i32::MAX,
        h <= i32::MAX,
        forall|k: int|
            0 <= k < cells@.len() ==> in_grid(w, h, (#[trigger] cells@[k]).0 as int, cells@[k].1 as int),
    ensures
        exists|b: (int, int, int, int)|
            #[trigger] set_bbox(as_points(cells@).to_set(), b) && (r is Some <==> door_shape_ok(
                b,
                cells@.len() as int,
            )) && (r matches Some(c) ==> c.cells@ == cells@ && b == (
                c.min_x as int,
                c.min_y as int,
                c.max_x as int,
                c.max_y as int,
            )),
{
    let (min_x, min_y, max_x, max_y) = bounding_box(&cells);
    let ghost b = (min_x as int, min_y as int, max_x as int, max_y as int);
    proof {
        let s = as_points(cells@).to_set();
        let c0 = choose|c: (int, int)| #[trigger] s.contains(c) && c.0 == b.0;
        let c3 = choose|c: (int, int)| #[trigger] s.contains(c) && c.1 == b.3;
        let c2 = choose|c: (int, int)| #[trigger] s.contains(c) && c.0 == b.2;
        let c1 = choose|c: (int, int)| #[trigger] s.contains(c) && c.1 == b.1;
        let j0 = choose|j: int| 0 <= j < as_points(cells@).len() && as_points(cells@)[j] == c0;
        let j1 = choose|j: int| 0 <= j < as_points(cells@).len() && as_points(cells@)[j] == c1;
        let j2 = choose|j: int| 0 <= j < as_points(cells@).len() && as_points(cells@)[j] == c2;
        let j3 = choose|j: int| 0 <= j < as_points(cells@).len() && as_points(cells@)[j] == c3;
        assert(in_grid(w, h, cells@[j0].0 as int, cells@[j0].1 as int));
        assert(in_grid(w, h, cells@[j1].0 as int, cells@[j1].1 as int));
        assert(in_grid(w, h, cells@[j2].0 as int, cells@[j2].1 as int));
        assert(in_grid(w, h, cells@[j3].0 as int, cells@[j3].1 as int));
    }
    let bbox_w = max_x - min_x + 1;
    let bbox_h = max_y - min_y + 1;
    let minor = if bbox_w < bbox_h {
        bbox_w
    } else {
        bbox_h
    };
    let major = if bbox_w < bbox_h {
        bbox_h
    } else {
        bbox_w
    };
    if minor <= DOOR_MAX_WIDTH_CELLS && major <= DOOR_CLUSTER_MAX_MAJOR_CELLS && cells.len()
        <= DOOR_CLUSTER_MAX_AREA_CELLS {
        let ghost cv = cells@;
        let r = Some(DoorCluster { cells, min_x, min_y, max_x, max_y });
        assert(set_bbox(as_points(cv).to_set(), b));
        r
    } else {
        assert(set_bbox(as_points(cells@).to_set(), b));
        None
    }
}

/// The bounding box of a listing is that of the component, the only one,
/// with corners in the grid; the listing has as many cells as the component.
proof fn lemma_cluster_shape(
    cand: Seq<bool>,
    w: int,
    h: int,
    a: (int, int),
    cells: Seq<(i32, i32)>,
    b: (int, int, int, int),
)
    requires
        lists_component(cand, w, h, true, a, cells),
        set_bbox(as_points(cells).to_set(), b),
    ensures
        set_bbox(comp_set(cand, w, h, true, a), b),
        comp_set(cand, w, h, true, a).len() == cells.len(),
        forall|b2: (int, int, int, int)| #[trigger] set_bbox(comp_set(cand, w, h, true, a), b2) ==> b2 == b,
        0 <= b.0 < w,
        0 <= b.1 < h,
        0 <= b.2 < w,
        0 <= b.3 < h,
        door_ok(cand, w, h, a) == door_shape_ok(b, cells.len() as int),
{
    lemma_listing_is_set(cand, w, h, true, a, cells);
    let s = comp_set(cand, w, h, true, a);
    assert forall|b2: (int, int, int, int)| #[trigger] set_bbox(s, b2) implies b2 == b by {
        lemma_bbox_unique(s, b, b2);
    }
    let c0 = choose|c: (int, int)| #[trigger] s.contains(c) && c.0 == b.0;
    let c1 = choose|c: (int, int)| #[trigger] s.contains(c) && c.1 == b.1;
    let c2 = choose|c: (int, int)| #[trigger] s.contains(c) && c.0 == b.2;
    let c3 = choose|c: (int, int)| #[trigger] s.contains(c) && c.1 == b.3;
    lemma_set_in_grid(cand, w, h, a, cells, c0);
    lemma_set_in_grid(cand, w, h, a, cells, c1);
    lemma_set_in_grid(cand, w, h, a, cells, c2);
    lemma_set_in_grid(cand, w, h, a, cells, c3);
}

proof fn lemma_set_in_grid(
    cand: Seq<bool>,
    w: int,
    h: int,
    a: (int, int),
    cells: Seq<(i32, i32)>,
    c: (int, int),
)
    requires
        lists_component(cand, w, h, true, a, cells),
        comp_set(cand, w, h, true, a).contains(c),
    ensures
        in_grid(w, h, c.0, c.1),
{
    assert(connected(cand, w, h, true, a, (c.0, c.1)));
    let j = choose|j: int| 0 <= j < as_points(cells).len() && as_points(cells)[j] == (c.0, c.1);
    assert(in_grid(w, h, cells[j].0 as int, cells[j].1 as int));
}

/// Group the doorway candidates into clusters: the components of candidate
/// cells, by steps in all eight directions, in the row-major order of their
/// first cells, keeping those with a doorway's shape.
pub fn cluster_door_candidates(cand: &[bool], grid_w: i32, grid_h: i32) -> (r: Vec<DoorCluster>)
    requires
        grid_ok(cand@.len() as int, grid_w as int, grid_h as int),
    ensures
        r@.len() == door_leaders(cand@, grid_w as int, grid_h as int).len(),
        forall|k: int|
            0 <= k < r@.len() ==> is_cluster_of(
                #[trigger] r@[k],
                cand@,
                grid_w as int,
                grid_h as int,
                door_leaders(cand@, grid_w as int, grid_h as int)[k],
            ),
{
    let ghost wi = grid_w as int;
    let ghost hi = grid_h as int;
    let ghost ls = leaders(cand@, wi, hi, true);
    let ghost okf = |a: (int, int)| door_ok(cand@, wi, hi, a);
    let mut comps = components_in_order(cand, grid_w, grid_h, true);
    proof {
        lemma_leaders_are_leaders(cand@, wi, hi, true);
    }
    let mut clusters: Vec<DoorCluster> = Vec::new();
    let n = comps.len();
    let mut k: usize = 0;
    while k < n
        invariant
            grid_ok(cand@.len() as int, wi, hi),
            wi == grid_w,
            hi == grid_h,
            ls == leaders(cand@, wi, hi, true),
            okf == (|a: (int, int)| door_ok(cand@, wi, hi, a)),
            n == comps@.len(),
            n == ls.len(),
            0 <= k <= n,
            forall|j: int| 0 <= j < n ==> is_leader(cand@, wi, hi, true, (#[trigger] ls[j]).0, ls[j].1),
            forall|j: int| k <= j < n ==> lists_component(cand@, wi, hi, true, ls[j], #[trigger] comps@[j]@),
            clusters@.len() == ls.take(k as int).filter(okf).len(),
            forall|j: int|
                0 <= j < clusters@.len() ==> is_cluster_of(
                    #[trigger] clusters@[j],
                    cand@,
                    wi,
                    hi,
                    ls.take(k as int).filter(okf)[j],
                ),
        decreases n - k,
    {
        let mut cells: Vec<(i32, i32)> = Vec::new();
        let ghost before = comps@;
        std::mem::swap(&mut cells, &mut comps[k]);
        let ghost a = ls[k as int];
        proof {
            assert(cells@ == before[k as int]@);
            assert(is_leader(cand@, wi, hi, true, a.0, a.1));
            assert forall|j: int| k + 1 <= j < n implies lists_component(
                cand@,
                wi,
                hi,
                true,
                ls[j],
                #[trigger] comps@[j]@,
            ) by {
                assert(comps@[j] == before[j]);
            }
            assert(ls.take(k + 1).drop_last() =~= ls.take(k as int));
        }
        let ghost prev = clusters@;
        let ghost cv = cells@;
        proof {
            lemma_connected_self_listed(cand@, wi, hi, a, cv);
        }
        let shaped = shape_cluster(cells, Ghost(wi), Ghost(hi));
        let ghost b = choose|b: (int, int, int, int)|
            #[trigger] set_bbox(as_points(cv).to_set(), b) && (shaped is Some <==> door_shape_ok(
                b,
                cv.len() as int,
            )) && (shaped matches Some(c) ==> c.cells@ == cv && b == (
                c.min_x as int,
                c.min_y as int,
                c.max_x as int,
                c.max_y as int,
            ));
        proof {
            lemma_cluster_shape(cand@, wi, hi, a, cv, b);
        }
        match shaped {
            Some(c) => {
                clusters.push(c);
                proof {
                    reveal(Seq::filter);
                    assert(ls.take(k + 1).last() == a);
                    assert(okf(a));
                    assert(ls.take(k + 1).filter(okf) == ls.take(k as int).filter(okf).push(a));
                    assert forall|j: int| 0 <= j < clusters@.len() implies is_cluster_of(
                        #[trigger] clusters@[j],
                        cand@,
                        wi,
                        hi,
                        ls.take(k + 1).filter(okf)[j],
                    ) by {
                        if j < prev.len() {
                            assert(clusters@[j] == prev[j]);
                        }
                    }
                }
            },
            None => {
                proof {
                    reveal(Seq::filter);
                    assert(ls.take(k + 1).last() == a);
                    assert(!okf(a));
                    assert(ls.take(k + 1).filter(okf) == ls.take(k as int).filter(okf));
                }
            },
        }
        k = k + 1;
    }
    proof {
        assert(ls.take(n as int) =~= ls);
    }
    clusters
}

/// A listing of the component of a leader is never empty.
proof fn lemma_connected_self_listed(cand: Seq<bool>, w: int, h: int, a: (int, int), cells: Seq<(i32, i32)>)
    requires
        lists_component(cand, w, h, true, a, cells),
        set_at(cand, w, h, a.0, a.1),
    ensures
        cells.len() > 0,
{
    let p = seq![a];
    assert(is_path(cand, w, h, true, p));
    assert(connected(cand, w, h, true, a, (a.0, a.1)));
    assert(as_points(cells).contains((a.0, a.1)));
}

/// The doorway clusters of the grid: the candidates grouped by
/// [`cluster_door_candidates`].
pub fn detect_door_clusters(free: &[bool], grid_w: i32, grid_h: i32) -> (r: Vec<DoorCluster>)
    requires
        grid_ok(free@.len() as int, grid_w as int, grid_h as int),
    ensures
        exists|cand: Seq<bool>|
            #[trigger] candidates_of(free@, grid_w as int, grid_h as int, cand) && r@.len()
                == door_leaders(cand, grid_w as int, grid_h as int).len() && forall|k: int|
                0 <= k < r@.len() ==> is_cluster_of(
                    #[trigger] r@[k],
                    cand,
                    grid_w as int,
                    grid_h as int,
                    door_leaders(cand, grid_w as int, grid_h as int)[k],
                ),
{
    let cand = door_candidates(free, grid_w, grid_h);
    let r = cluster_door_candidates(&cand, grid_w, grid_h);
    assert(candidates_of(free@, grid_w as int, grid_h as int, cand@));
    r
}

/// `cand` holds the doorway candidate flag of each cell of the grid.
pub open spec fn candidates_of(free: Seq<bool>, w: int, h: int, cand: Seq<bool>) -> bool {
    cand.len() == free.len() && forall|x: int, y: int|
        in_grid(w, h, x, y) ==> (#[trigger] cand[cell(w, x, y)] == door_candidate(free, w, h, x, y))
}

} // verus!
