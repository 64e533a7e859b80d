//! The doorway links between regions: which rooms (or the outside) each
//! sealed doorway cluster touches.

use vstd::prelude::*;
use super::components::{adjacent, as_points};
use super::doors::DoorCluster;
use super::grid::{cell, grid_ok, idx, in_grid, lemma_cell, neighbors4, set_at};
use super::regions::OUTSIDE_REGION_ID;

verus! {

/// A doorway link between two regions (`None` is the outside), through
/// doorway cluster `cluster`, `width_cells` wide.
#[derive(Clone, Copy, Debug, PartialEq, Eq, Structural)]
pub struct GapLink {
    pub cluster: usize,
    pub from_room: Option<usize>,
    pub to_room: Option<usize>,
    pub width_cells: usize,
}

/// The room of a region id; the outside has none.
pub open spec fn room_of_region(id: i32) -> Option<usize> {
    if id == OUTSIDE_REGION_ID {
        None
    } else {
        Some(id as usize)
    }
}

/// The room of region `id`: `None` for the outside.
pub fn region_id_to_room(id: i32) -> (r: Option<usize>)
    requires
        id >= -1,
    ensures
        r == room_of_region(id),
{
    if id == OUTSIDE_REGION_ID {
        None
    } else {
        Some(id as usize)
    }
}

/// The two regions of a link, the lower id first, as rooms.
pub fn normalize_pair(a: i32, b: i32) -> (r: (Option<usize>, Option<usize>))
    requires
        a >= -1,
        b >= -1,
    ensures
        r == (if a <= b {
            (room_of_region(a), room_of_region(b))
        } else {
            (room_of_region(b), room_of_region(a))
        }),
{
    let (lo, hi) = if a <= b {
        (a, b)
    } else {
        (b, a)
    };
    (region_id_to_room(lo), region_id_to_room(hi))
}

/// The region of cell `(x, y)`: its room id, else `-1` when it is outside,
/// else none.
pub open spec fn region_at(lookup: Seq<i32>, outside: Seq<bool>, w: int, x: int, y: int) -> Option<int> {
    if lookup[cell(w, x, y)] >= 0 {
        Some(lookup[cell(w, x, y)] as int)
    } else if outside[cell(w, x, y)] {
        Some(-1)
    } else {
        None
    }
}

/// Some cell of the cluster has an orthogonal neighbour in the grid, free,
/// of region `id`.
pub open spec fn touches_region(
    cells: Seq<(i32, i32)>,
    free: Seq<bool>,
    lookup: Seq<i32>,
    outside: Seq<bool>,
    w: int,
    h: int,
    id: int,
) -> bool {
    exists|k: int, nx: int, ny: int|
        0 <= k < cells.len() && #[trigger] adjacent(false, cells[k].0 as int, cells[k].1 as int, nx, ny)
            && in_grid(w, h, nx, ny) && free[cell(w, nx, ny)] && region_at(lookup, outside, w, nx, ny)
            == Some(id)
}

/// The region ids from `lo` below `hi` that the cluster touches, ascending.
pub open spec fn touched_ids(
    cells: Seq<(i32, i32)>,
    free: Seq<bool>,
    lookup: Seq<i32>,
    outside: Seq<bool>,
    w: int,
    h: int,
    lo: int,
    hi: int,
) -> Seq<i32>
    decreases hi - lo,
{
    if hi <= lo {
        Seq::empty()
    } else if touches_region(cells, free, lookup, outside, w, h, hi - 1) {
        touched_ids(cells, free, lookup, outside, w, h, lo, hi - 1).push((hi - 1) as i32)
    } else {
        touched_ids(cells, free, lookup, outside, w, h, lo, hi - 1)
    }
}

/// The regions a cluster touches, each once, ascending: the outside (`-1`)
/// first, then rooms by id.
pub fn cluster_endpoints(
    cells: &Vec<(i32, i32)>,
    free: &[bool],
    lookup: &[i32],
    outside: &[bool],
    grid_w: i32,
    grid_h: i32,
    room_count: i32,
) -> (r: Vec<i32>)
    requires
        grid_ok(free@.len() as int, grid_w as int, grid_h as int),
        lookup@.len() == free@.len(),
        outside@.len() == free@.len(),
        0 <= room_count < i32::MAX,
        forall|x: int, y: int|
            in_grid(grid_w as int, grid_h as int, x, y) ==> -1 <= #[trigger] lookup@[cell(
                grid_w as int,
                x,
                y,
            )] < room_count,
        forall|k: int|
            0 <= k < cells@.len() ==> in_grid(
                grid_w as int,
                grid_h as int,
                (#[trigger] cells@[k]).0 as int,
                cells@[k].1 as int,
            ),
    ensures
        r@ == touched_ids(
            cells@,
            free@,
            lookup@,
            outside@,
            grid_w as int,
            grid_h as int,
            -1,
            room_count as int,
        ),
{
    let ghost wi = grid_w as int;
    let ghost hi = grid_h as int;
    let mut found: Vec<i32> = Vec::new();
    let mut k: usize = 0;
    while k < cells.len()
        invariant
            grid_ok(free@.len() as int, wi, hi),
            wi == grid_w,
            hi == grid_h,
            lookup@.len() == free@.len(),
            outside@.len() == free@.len(),
            forall|x: int, y: int|
                in_grid(wi, hi, x, y) ==> -1 <= #[trigger] lookup@[cell(wi, x, y)] < room_count,
            forall|j: int| 0 <= j < cells@.len() ==> in_grid(wi, hi, (#[trigger] cells@[j]).0 as int, cells@[j].1 as int),
            0 <= k <= cells@.len(),
            forall|v: i32|
                #[trigger] found@.contains(v) ==> touches_region(
                    cells@,
                    free@,
                    lookup@,
                    outside@,
                    wi,
                    hi,
                    v as int,
                ),
            forall|q: int| 0 <= q < found@.len() ==> -1 <= #[trigger] found@[q] < room_count,
            forall|j: int, nx: int, ny: int|
                0 <= j < k && #[trigger] adjacent(false, cells@[j].0 as int, cells@[j].1 as int, nx, ny)
                    && in_grid(wi, hi, nx, ny) && free@[cell(wi, nx, ny)] && region_at(
                    lookup@,
                    outside@,
                    wi,
                    nx,
                    ny,
                ) is Some ==> found@.contains(region_at(lookup@, outside@, wi, nx, ny)->0 as i32),
        decreases cells@.len() - k,
    {
        let (cx, cy) = cells[k];
        let nbs = neighbors4(cx, cy);
        let mut q: usize = 0;
        while q < 4
            invariant
                grid_ok(free@.len() as int, wi, hi),
                wi == grid_w,
                hi == grid_h,
                lookup@.len() == free@.len(),
                outside@.len() == free@.len(),
                forall|x: int, y: int|
                    in_grid(wi, hi, x, y) ==> -1 <= #[trigger] lookup@[cell(wi, x, y)] < room_count,
                0 <= k < cells@.len(),
                cells@[k as int] == (cx, cy),
                in_grid(wi, hi, cx as int, cy as int),
                0 <= q <= 4,
                nbs@ == seq![
                    ((cx + 1) as i32, cy),
                    ((cx - 1) as i32, cy),
                    (cx, (cy + 1) as i32),
                    (cx, (cy - 1) as i32),
                ],
                forall|v: i32|
                    #[trigger] found@.contains(v) ==> touches_region(
                        cells@,
                        free@,
                        lookup@,
                        outside@,
                        wi,
                        hi,
                        v as int,
                    ),
                forall|q2: int| 0 <= q2 < found@.len() ==> -1 <= #[trigger] found@[q2] < room_count,
                forall|j: int, nx: int, ny: int|
                    0 <= j < k && #[trigger] adjacent(false, cells@[j].0 as int, cells@[j].1 as int, nx, ny)
                        && in_grid(wi, hi, nx, ny) && free@[cell(wi, nx, ny)] && region_at(
                        lookup@,
                        outside@,
                        wi,
                        nx,
                        ny,
                    ) is Some ==> found@.contains(region_at(lookup@, outside@, wi, nx, ny)->0 as i32),
                forall|q2: int|
                    0 <= q2 < q ==> nb_recorded(found@, free@, lookup@, outside@, wi, hi, #[trigger] nbs@[q2]),
            decreases 4 - q,
        {
            let (nx, ny) = nbs[q];
            if nx >= 0 && ny >= 0 && nx < grid_w && ny < grid_h {
                let ni = idx(grid_w, grid_h, nx, ny);
                if free[ni] {
                    let rid = lookup[ni];
                    let ghost f0 = found@;
                    proof {
                        assert(adjacent(false, cx as int, cy as int, nx as int, ny as int));
                    }
                    proof {
                        lemma_cell(wi, hi, nx as int, ny as int);
                        assert(adjacent(false, cells@[k as int].0 as int, cells@[k as int].1 as int, nx as int, ny as int));
                        assert(free@[cell(wi, nx as int, ny as int)]);
                        if rid >= 0 {
                            assert(region_at(lookup@, outside@, wi, nx as int, ny as int) == Some(rid as int));
                            assert(touches_region(cells@, free@, lookup@, outside@, wi, hi, rid as int));
                        } else if outside@[ni as int] {
                            assert(region_at(lookup@, outside@, wi, nx as int, ny as int) == Some(-1int));
                            assert(touches_region(cells@, free@, lookup@, outside@, wi, hi, -1));
                        }
                    }
                    if rid >= 0 {
                        found.push(rid);
                        proof {
                            assert(found@[f0.len() as int] == rid);
                            lemma_found_push(f0, rid, found@);
                        }
                    } else if outside[ni] {
                        found.push(OUTSIDE_REGION_ID);
                        proof {
                            assert(found@[f0.len() as int] == -1i32);
                            lemma_found_push(f0, -1i32, found@);
                        }
                    }
                }
            }
            q = q + 1;
        }
        proof {
            assert forall|j: int, nx: int, ny: int|
                0 <= j < k + 1 && #[trigger] adjacent(false, cells@[j].0 as int, cells@[j].1 as int, nx, ny)
                    && in_grid(wi, hi, nx, ny) && free@[cell(wi, nx, ny)] && region_at(
                    lookup@,
                    outside@,
                    wi,
                    nx,
                    ny,
                ) is Some implies found@.contains(region_at(lookup@, outside@, wi, nx, ny)->0 as i32) by {
                if j == k {
                    assert(nb_recorded(found@, free@, lookup@, outside@, wi, hi, nbs@[0]));
                    assert(nb_recorded(found@, free@, lookup@, outside@, wi, hi, nbs@[1]));
                    assert(nb_recorded(found@, free@, lookup@, outside@, wi, hi, nbs@[2]));
                    assert(nb_recorded(found@, free@, lookup@, outside@, wi, hi, nbs@[3]));
                    if nx == cx + 1 {
                        assert(nbs@[0] == (nx as i32, ny as i32));
                    } else if nx == cx - 1 {
                        assert(nbs@[1] == (nx as i32, ny as i32));
                    } else if ny == cy + 1 {
                        assert(nbs@[2] == (nx as i32, ny as i32));
                    } else {
                        assert(nbs@[3] == (nx as i32, ny as i32));
                    }
                }
            }
        }
        k = k + 1;
    }
    let mut out: Vec<i32> = Vec::new();
    let mut id: i32 = -1;
    while id < room_count
        invariant
            grid_ok(free@.len() as int, wi, hi),
            wi == grid_w,
            hi == grid_h,
            lookup@.len() == free@.len(),
            outside@.len() == free@.len(),
            forall|x: int, y: int|
                in_grid(wi, hi, x, y) ==> -1 <= #[trigger] lookup@[cell(wi, x, y)] < room_count,
            -1 <= id <= room_count,
            forall|v: i32|
                #[trigger] found@.contains(v) ==> touches_region(
                    cells@,
                    free@,
                    lookup@,
                    outside@,
                    wi,
                    hi,
                    v as int,
                ),
            forall|j: int, nx: int, ny: int|
                0 <= j < cells@.len() && #[trigger] adjacent(false, cells@[j].0 as int, cells@[j].1 as int, nx, ny)
                    && in_grid(wi, hi, nx, ny) && free@[cell(wi, nx, ny)] && region_at(
                    lookup@,
                    outside@,
                    wi,
                    nx,
                    ny,
                ) is Some ==> found@.contains(region_at(lookup@, outside@, wi, nx, ny)->0 as i32),
            out@ == touched_ids(cells@, free@, lookup@, outside@, wi, hi, -1, id as int),
        decreases room_count - id,
    {
        let present = contains_id(&found, id);
        proof {
            if touches_region(cells@, free@, lookup@, outside@, wi, hi, id as int) {
                let (j, nx, ny) = choose|j: int, nx: int, ny: int|
                    0 <= j < cells@.len() && #[trigger] adjacent(
                        false,
                        cells@[j].0 as int,
                        cells@[j].1 as int,
                        nx,
                        ny,
                    ) && in_grid(wi, hi, nx, ny) && free@[cell(wi, nx, ny)] && region_at(
                        lookup@,
                        outside@,
                        wi,
                        nx,
                        ny,
                    ) == Some(id as int);
                assert(found@.contains(id));
            }
            if present {
            }
        }
        if present {
            out.push(id);
        }
        id = id + 1;
    }
    out
}

/// Neighbour `n` of the cell being scanned has its region recorded in
/// `found`, when it has one.
spec fn nb_recorded(
    found: Seq<i32>,
    free: Seq<bool>,
    lookup: Seq<i32>,
    outside: Seq<bool>,
    w: int,
    h: int,
    n: (i32, i32),
) -> bool {
    in_grid(w, h, n.0 as int, n.1 as int) && free[cell(w, n.0 as int, n.1 as int)] && region_at(
        lookup,
        outside,
        w,
        n.0 as int,
        n.1 as int,
    ) is Some ==> found.contains(region_at(lookup, outside, w, n.0 as int, n.1 as int)->0 as i32)
}

proof fn lemma_found_push(f0: Seq<i32>, v: i32, f1: Seq<i32>)
    requires
        f1 == f0.push(v),
    ensures
        forall|x: i32| f0.contains(x) ==> #[trigger] f1.contains(x),
        forall|x: i32| #[trigger] f1.contains(x) ==> f0.contains(x) || x == v,
        f1.contains(v),
{
    assert(f1[f0.len() as int] == v);
    assert forall|x: i32| #[trigger] f1.contains(x) implies f0.contains(x) || x == v by {
        let j = choose|j: int| 0 <= j < f1.len() && f1[j] == x;
        if j < f0.len() {
            assert(f0[j] == x);
        }
    }
    assert forall|x: i32| f0.contains(x) implies #[trigger] f1.contains(x) by {
        let j = choose|j: int| 0 <= j < f0.len() && f0[j] == x;
        assert(f1[j] == x);
    }
}

/// Whether `id` is among the ids.
fn contains_id(ids: &Vec<i32>, id: i32) -> (r: bool)
    ensures
        r == ids@.contains(id),
{
    let mut k: usize = 0;
    while k < ids.len()
        invariant
            0 <= k <= ids@.len(),
            forall|j: int| 0 <= j < k ==> ids@[j] != id,
        decreases ids@.len() - k,
    {
        if ids[k] == id {
            return true;
        }
        k = k + 1;
    }
    false
}

/// The width of a doorway cluster: the shorter side of its bounding box, at
/// least `1`.
pub open spec fn cluster_width(c: DoorCluster) -> int {
    let bw = c.max_x - c.min_x + 1;
    let bh = c.max_y - c.min_y + 1;
    let m = if bw < bh { bw } else { bh };
    if m < 1 {
        1
    } else {
        m
    }
}

/// The link between regions `a` and `b` through cluster `ci`.
pub open spec fn make_link(ci: int, a: i32, b: i32, width: int) -> GapLink {
    let (from_room, to_room) = if a <= b {
        (room_of_region(a), room_of_region(b))
    } else {
        (room_of_region(b), room_of_region(a))
    };
    GapLink { cluster: ci as usize, from_room, to_room, width_cells: width as usize }
}

/// The links from region `ep[i]` to the regions `ep[i + 1 .. j]`.
pub open spec fn row_links(ep: Seq<i32>, ci: int, width: int, i: int, j: int) -> Seq<GapLink>
    decreases j - i,
{
    if j <= i + 1 {
        Seq::empty()
    } else {
        row_links(ep, ci, width, i, j - 1).push(make_link(ci, ep[i], ep[j - 1], width))
    }
}

/// The links between every two of the first `i` regions of `ep` and any
/// later one, pair by pair in order.
pub open spec fn rows_links(ep: Seq<i32>, ci: int, width: int, i: int) -> Seq<GapLink>
    decreases i,
{
    if i <= 0 {
        Seq::empty()
    } else {
        rows_links(ep, ci, width, i - 1) + row_links(ep, ci, width, i - 1, ep.len() as int)
    }
}

/// The links of cluster `ci` touching the regions `ep`: none unless it
/// touches two regions and has a doorway's width; else one per pair of
/// regions.
pub open spec fn cluster_links(ep: Seq<i32>, ci: int, width: int) -> Seq<GapLink> {
    if ep.len() < 2 || width < 1 || width > 5 {
        Seq::empty()
    } else {
        rows_links(ep, ci, width, ep.len() as int)
    }
}

/// The links of the first `k` clusters, cluster by cluster.
pub open spec fn links_upto(
    clusters: Seq<DoorCluster>,
    free: Seq<bool>,
    lookup: Seq<i32>,
    outside: Seq<bool>,
    w: int,
    h: int,
    room_count: int,
    k: int,
) -> Seq<GapLink>
    decreases k,
{
    if k <= 0 {
        Seq::empty()
    } else {
        links_upto(clusters, free, lookup, outside, w, h, room_count, k - 1) + cluster_links(
            touched_ids(clusters[k - 1].cells@, free, lookup, outside, w, h, -1, room_count),
            k - 1,
            cluster_width(clusters[k - 1]),
        )
    }
}

proof fn lemma_touched_bounds(
    cells: Seq<(i32, i32)>,
    free: Seq<bool>,
    lookup: Seq<i32>,
    outside: Seq<bool>,
    w: int,
    h: int,
    lo: int,
    hi: int,
)
    ensures
        forall|i: int|
            0 <= i < touched_ids(cells, free, lookup, outside, w, h, lo, hi).len() ==> lo <= #[trigger] touched_ids(
                cells,
                free,
                lookup,
                outside,
                w,
                h,
                lo,
                hi,
            )[i] < hi,
        touched_ids(cells, free, lookup, outside, w, h, lo, hi).len() <= if hi > lo { hi - lo } else { 0 },
    decreases hi - lo,
{
    if hi > lo {
        lemma_touched_bounds(cells, free, lookup, outside, w, h, lo, hi - 1);
    }
}

proof fn lemma_row_links(ep: Seq<i32>, ci: int, width: int, i: int, j: int)
    ensures
        forall|q: int|
            0 <= q < row_links(ep, ci, width, i, j).len() ==> (#[trigger] row_links(
                ep,
                ci,
                width,
                i,
                j,
            )[q]).cluster == ci as usize && row_links(ep, ci, width, i, j)[q].width_cells
                == width as usize,
        i >= 0 && j > i + 1 ==> row_links(ep, ci, width, i, j)[0] == make_link(ci, ep[i], ep[i + 1], width),
    decreases j - i,
{
    if j > i + 1 {
        lemma_row_links(ep, ci, width, i, j - 1);
    }
}

proof fn lemma_rows_links(ep: Seq<i32>, ci: int, width: int, i: int)
    ensures
        forall|q: int|
            0 <= q < rows_links(ep, ci, width, i).len() ==> (#[trigger] rows_links(
                ep,
                ci,
                width,
                i,
            )[q]).cluster == ci as usize && rows_links(ep, ci, width, i)[q].width_cells
                == width as usize,
        i >= 1 && ep.len() >= 2 ==> rows_links(ep, ci, width, i).len() > 0 && rows_links(
            ep,
            ci,
            width,
            i,
        )[0] == make_link(ci, ep[0], ep[1], width),
    decreases i,
{
    if i > 0 {
        lemma_rows_links(ep, ci, width, i - 1);
        lemma_row_links(ep, ci, width, i - 1, ep.len() as int);
        let a = rows_links(ep, ci, width, i - 1);
        let b = row_links(ep, ci, width, i - 1, ep.len() as int);
        assert forall|q: int| 0 <= q < (a + b).len() implies (#[trigger] (a + b)[q]).cluster
            == ci as usize && (a + b)[q].width_cells == width as usize by {
            if q >= a.len() {
                assert((a + b)[q] == b[q - a.len()]);
            }
        }
        if i == 1 && ep.len() >= 2 {
            assert(a.len() == 0);
            assert((a + b)[0] == b[0]);
        }
    }
}

/// Every link of the first `k` clusters goes through one of them, is as
/// wide as that cluster, and that width is a doorway's.
proof fn lemma_links_upto(
    clusters: Seq<DoorCluster>,
    free: Seq<bool>,
    lookup: Seq<i32>,
    outside: Seq<bool>,
    w: int,
    h: int,
    room_count: int,
    k: int,
)
    requires
        0 <= k <= clusters.len(),
        clusters.len() <= usize::MAX,
    ensures
        forall|q: int|
            0 <= q < links_upto(clusters, free, lookup, outside, w, h, room_count, k).len() ==> {
                let l = #[trigger] links_upto(clusters, free, lookup, outside, w, h, room_count, k)[q];
                &&& (l.cluster as int) < k
                &&& l.width_cells as int == cluster_width(clusters[l.cluster as int])
                &&& 1 <= cluster_width(clusters[l.cluster as int]) <= 5
            },
    decreases k,
{
    if k > 0 {
        lemma_links_upto(clusters, free, lookup, outside, w, h, room_count, k - 1);
        let a = links_upto(clusters, free, lookup, outside, w, h, room_count, k - 1);
        let ep = touched_ids(clusters[k - 1].cells@, free, lookup, outside, w, h, -1, room_count);
        let wd = cluster_width(clusters[k - 1]);
        let b = cluster_links(ep, k - 1, wd);
        if !(ep.len() < 2 || wd < 1 || wd > 5) {
            lemma_rows_links(ep, k - 1, wd, ep.len() as int);
        }
        assert forall|q: int| 0 <= q < (a + b).len() implies {
            let l = #[trigger] (a + b)[q];
            &&& (l.cluster as int) < k
            &&& l.width_cells as int == cluster_width(clusters[l.cluster as int])
            &&& 1 <= cluster_width(clusters[l.cluster as int]) <= 5
        } by {
            if q >= a.len() {
                assert((a + b)[q] == b[q - a.len()]);
            }
        }
    }
}

/// The links of the first `k` clusters come first among those of more.
proof fn lemma_links_upto_prefix(
    clusters: Seq<DoorCluster>,
    free: Seq<bool>,
    lookup: Seq<i32>,
    outside: Seq<bool>,
    w: int,
    h: int,
    room_count: int,
    k: int,
    n: int,
)
    requires
        0 <= k <= n,
    ensures
        links_upto(clusters, free, lookup, outside, w, h, room_count, k).len() <= links_upto(
            clusters,
            free,
            lookup,
            outside,
            w,
            h,
            room_count,
            n,
        ).len(),
        forall|q: int|
            0 <= q < links_upto(clusters, free, lookup, outside, w, h, room_count, k).len() ==> links_upto(
                clusters,
                free,
                lookup,
                outside,
                w,
                h,
                room_count,
                n,
            )[q] == #[trigger] links_upto(clusters, free, lookup, outside, w, h, room_count, k)[q],
    decreases n - k,
{
    if n > k {
        lemma_links_upto_prefix(clusters, free, lookup, outside, w, h, room_count, k, n - 1);
    }
}

/// Law: every doorway link is as wide as the shorter side of its cluster's
/// bounding box, between one and five cells; and every cluster whose
/// shorter side is between one and five cells and that touches two or more
/// regions gives at least one link.
pub proof fn law_links_follow_doorway_width(
    clusters: Seq<DoorCluster>,
    free: Seq<bool>,
    lookup: Seq<i32>,
    outside: Seq<bool>,
    w: int,
    h: int,
    room_count: int,
)
    requires
        clusters.len() <= usize::MAX,
        forall|c: int|
            0 <= c < clusters.len() ==> (#[trigger] clusters[c]).min_x <= clusters[c].max_x
                && clusters[c].min_y <= clusters[c].max_y,
    ensures
        ({
            let r = links_upto(clusters, free, lookup, outside, w, h, room_count, clusters.len() as int);
            &&& forall|q: int|
                0 <= q < r.len() ==> {
                    let c = clusters[(#[trigger] r[q]).cluster as int];
                    &&& (r[q].cluster as int) < clusters.len()
                    &&& r[q].width_cells as int <= c.max_x - c.min_x + 1
                    &&& r[q].width_cells as int <= c.max_y - c.min_y + 1
                    &&& (r[q].width_cells as int == c.max_x - c.min_x + 1 || r[q].width_cells as int
                        == c.max_y - c.min_y + 1)
                    &&& 1 <= r[q].width_cells <= 5
                }
            &&& forall|ci: int|
                0 <= ci < clusters.len() && 1 <= (#[trigger] clusters[ci]).max_x - clusters[ci].min_x
                    + 1 <= 5 && clusters[ci].max_x - clusters[ci].min_x <= clusters[ci].max_y
                    - clusters[ci].min_y && touched_ids(
                    clusters[ci].cells@,
                    free,
                    lookup,
                    outside,
                    w,
                    h,
                    -1,
                    room_count,
                ).len() >= 2 ==> exists|q: int| 0 <= q < r.len() && r[q].cluster == ci as usize
            &&& forall|ci: int|
                0 <= ci < clusters.len() && 1 <= (#[trigger] clusters[ci]).max_y - clusters[ci].min_y
                    + 1 <= 5 && clusters[ci].max_y - clusters[ci].min_y <= clusters[ci].max_x
                    - clusters[ci].min_x && touched_ids(
                    clusters[ci].cells@,
                    free,
                    lookup,
                    outside,
                    w,
                    h,
                    -1,
                    room_count,
                ).len() >= 2 ==> exists|q: int| 0 <= q < r.len() && r[q].cluster == ci as usize
        }),
{
    let n = clusters.len() as int;
    lemma_links_upto(clusters, free, lookup, outside, w, h, room_count, n);
    assert forall|ci: int|
        0 <= ci < n && 1 <= cluster_width(#[trigger] clusters[ci]) <= 5 && touched_ids(
            clusters[ci].cells@,
            free,
            lookup,
            outside,
            w,
            h,
            -1,
            room_count,
        ).len() >= 2 implies exists|q: int|
        0 <= q < links_upto(clusters, free, lookup, outside, w, h, room_count, n).len()
            && links_upto(clusters, free, lookup, outside, w, h, room_count, n)[q].cluster
            == ci as usize by {
        let ep = touched_ids(clusters[ci].cells@, free, lookup, outside, w, h, -1, room_count);
        let wd = cluster_width(clusters[ci]);
        lemma_rows_links(ep, ci, wd, ep.len() as int);
        let a = links_upto(clusters, free, lookup, outside, w, h, room_count, ci);
        let b = cluster_links(ep, ci, wd);
        assert(links_upto(clusters, free, lookup, outside, w, h, room_count, ci + 1) == a + b);
        assert((a + b)[a.len() as int] == b[0]);
        lemma_links_upto_prefix(clusters, free, lookup, outside, w, h, room_count, ci + 1, n);
        let r = links_upto(clusters, free, lookup, outside, w, h, room_count, n);
        assert(r[a.len() as int] == b[0]);
    }
}

/// The doorway links of the sealed clusters: for each cluster that touches
/// at least two regions and has a doorway's width, one link per pair of the
/// regions it touches.
pub fn gap_links(
    clusters: &Vec<DoorCluster>,
    free: &[bool],
    lookup: &[i32],
    outside: &[bool],
    grid_w: i32,
    grid_h: i32,
    room_count: i32,
) -> (r: Vec<GapLink>)
    requires
        grid_ok(free@.len() as int, grid_w as int, grid_h as int),
        lookup@.len() == free@.len(),
        outside@.len() == free@.len(),
        0 <= room_count < i32::MAX,
        forall|x: int, y: int|
            in_grid(grid_w as int, grid_h as int, x, y) ==> -1 <= #[trigger] lookup@[cell(
                grid_w as int,
                x,
                y,
            )] < room_count,
        forall|c: int, k: int|
            0 <= c < clusters@.len() && 0 <= k < clusters@[c].cells@.len() ==> in_grid(
                grid_w as int,
                grid_h as int,
                (#[trigger] clusters@[c].cells@[k]).0 as int,
                clusters@[c].cells@[k].1 as int,
            ),
        forall|c: int|
            0 <= c < clusters@.len() ==> 0 <= (#[trigger] clusters@[c]).min_x <= clusters@[c].max_x
                < grid_w && 0 <= clusters@[c].min_y <= clusters@[c].max_y < grid_h,
    ensures
        r@ == links_upto(
            clusters@,
            free@,
            lookup@,
            outside@,
            grid_w as int,
            grid_h as int,
            room_count as int,
            clusters@.len() as int,
        ),
        forall|q: int|
            0 <= q < r@.len() ==> {
                let c = clusters@[(#[trigger] r@[q]).cluster as int];
                &&& (r@[q].cluster as int) < clusters@.len()
                &&& r@[q].width_cells as int <= c.max_x - c.min_x + 1
                &&& r@[q].width_cells as int <= c.max_y - c.min_y + 1
                &&& (r@[q].width_cells as int == c.max_x - c.min_x + 1 || r@[q].width_cells as int
                    == c.max_y - c.min_y + 1)
                &&& 1 <= r@[q].width_cells <= 5
            },
{
    proof {
        assert forall|c: int|
            0 <= c < clusters@.len() implies (#[trigger] clusters@[c]).min_x <= clusters@[c].max_x
            && clusters@[c].min_y <= clusters@[c].max_y by {}
    }
    let ghost wi = grid_w as int;
    let ghost hi = grid_h as int;
    let mut edges: Vec<GapLink> = Vec::new();
    let mut c: usize = 0;
    while c < clusters.len()
        invariant
            grid_ok(free@.len() as int, wi, hi),
            wi == grid_w,
            hi == grid_h,
            lookup@.len() == free@.len(),
            outside@.len() == free@.len(),
            0 <= room_count < i32::MAX,
            forall|x: int, y: int|
                in_grid(wi, hi, x, y) ==> -1 <= #[trigger] lookup@[cell(wi, x, y)] < room_count,
            forall|c2: int, k: int|
                0 <= c2 < clusters@.len() && 0 <= k < clusters@[c2].cells@.len() ==> in_grid(
                    wi,
                    hi,
                    (#[trigger] clusters@[c2].cells@[k]).0 as int,
                    clusters@[c2].cells@[k].1 as int,
                ),
            forall|c2: int|
                0 <= c2 < clusters@.len() ==> 0 <= (#[trigger] clusters@[c2]).min_x
                    <= clusters@[c2].max_x < wi && 0 <= clusters@[c2].min_y <= clusters@[c2].max_y < hi,
            0 <= c <= clusters@.len(),
            edges@ == links_upto(clusters@, free@, lookup@, outside@, wi, hi, room_count as int, c as int),
        decreases clusters@.len() - c,
    {
        let cluster = &clusters[c];
        let ghost base = edges@;
        assert(cluster.min_x <= cluster.max_x < wi);
        let ep = cluster_endpoints(&cluster.cells, free, lookup, outside, grid_w, grid_h, room_count);
        proof {
            lemma_touched_bounds(cluster.cells@, free@, lookup@, outside@, wi, hi, -1, room_count as int);
        }
        let bbox_w = cluster.max_x - cluster.min_x + 1;
        let bbox_h = cluster.max_y - cluster.min_y + 1;
        let m = if bbox_w < bbox_h {
            bbox_w
        } else {
            bbox_h
        };
        let width: i32 = if m < 1 {
            1
        } else {
            m
        };
        if ep.len() >= 2 && width >= 1 && width <= 5 {
            let n = ep.len();
            let mut i: usize = 0;
            while i < n
                invariant
                    n == ep@.len(),
                    n <= room_count + 1,
                    forall|q: int| 0 <= q < n ==> -1 <= #[trigger] ep@[q] < room_count,
                    0 <= i <= n,
                    1 <= width <= 5,
                    edges@ == base + rows_links(ep@, c as int, width as int, i as int),
                decreases n - i,
            {
                let mut j: usize = i + 1;
                let ghost mid = edges@;
                while j < n
                    invariant
                        n == ep@.len(),
                        n <= room_count + 1,
                        forall|q: int| 0 <= q < n ==> -1 <= #[trigger] ep@[q] < room_count,
                        0 <= i < n,
                        i + 1 <= j <= n,
                        1 <= width <= 5,
                        edges@ == mid + row_links(ep@, c as int, width as int, i as int, j as int),
                    decreases n - j,
                {
                    let (from_room, to_room) = normalize_pair(ep[i], ep[j]);
                    edges.push(GapLink { cluster: c, from_room, to_room, width_cells: width as usize });
                    proof {
                        assert(edges@ =~= mid + row_links(ep@, c as int, width as int, i as int, j + 1));
                    }
                    j = j + 1;
                }
                proof {
                    assert(edges@ =~= base + rows_links(ep@, c as int, width as int, i + 1));
                }
                i = i + 1;
            }
        }
        proof {
            assert(edges@ =~= links_upto(clusters@, free@, lookup@, outside@, wi, hi, room_count as int, c + 1));
        }
        c = c + 1;
    }
    proof {
        law_links_follow_doorway_width(
            clusters@,
            free@,
            lookup@,
            outside@,
            wi,
            hi,
            room_count as int,
        );
    }
    edges
}

} // verus!
