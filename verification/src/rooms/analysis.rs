//! The whole room analysis of an occupancy grid: doorway detection,
//! sealing, the outside, the rooms and the links between them.

use vstd::prelude::*;
use super::components::{as_points, connected, leaders, lemma_leaders_count, lists_component};
use super::doors::{candidates_of, comp_set, detect_door_clusters, door_leaders, is_cluster_of, set_bbox, DoorCluster};
use super::flood::{flood_outside, outside_of};
use super::gaps::{gap_links, links_upto, GapLink};
use super::grid::{cell, grid_ok, idx, in_grid, lemma_cell};
use super::regions::{extract_rooms, is_room, lookup_ok, room_leaders, GridRoom, MIN_ROOM_AREA_CELLS};
use super::seal::{should_seal_cluster, touches_outside, wall_continues};

verus! {

/// Everything the analysis finds on a grid.
pub struct GridAnalysis {
    /// The doorway clusters that were sealed, in row-major order.
    pub door_clusters: Vec<DoorCluster>,
    /// One flag per cell: outside once the doorways are sealed.
    pub outside: Vec<bool>,
    /// How many cells are outside.
    pub outside_cells: usize,
    /// The rooms, by id.
    pub rooms: Vec<GridRoom>,
    /// The room id of each cell, `-1` for none.
    pub room_lookup: Vec<i32>,
    /// The doorway links between regions.
    pub gap_links: Vec<GapLink>,
}

/// Number of set flags.
pub open spec fn count_set(s: Seq<bool>) -> nat
    decreases s.len(),
{
    if s.len() == 0 {
        0
    } else {
        count_set(s.drop_last()) + if s.last() {
            1nat
        } else {
            0nat
        }
    }
}

/// A doorway cluster is sealed: it touches the outside of the unsealed
/// grid, or walls continue past both its sides.
pub open spec fn seals(c: DoorCluster, free: Seq<bool>, outside: Seq<bool>, w: int, h: int) -> bool {
    touches_outside(c.cells@, free, outside, w, h) || wall_continues(c, free, w, h)
}

/// `sealed` is `free` with the cells of the clusters blocked.
pub open spec fn sealed_grid(free: Seq<bool>, clusters: Seq<DoorCluster>, w: int, h: int, sealed: Seq<bool>) -> bool {
    &&& sealed.len() == free.len()
    &&& forall|x: int, y: int|
        in_grid(w, h, x, y) ==> #[trigger] sealed[cell(w, x, y)] == (free[cell(w, x, y)] && !exists|k: int|
            0 <= k < clusters.len() && as_points(#[trigger] clusters[k].cells@).contains((x, y)))
}

/// `outside` flags the outside cells of `free`.
pub open spec fn outside_flags(free: Seq<bool>, w: int, h: int, outside: Seq<bool>) -> bool {
    &&& outside.len() == free.len()
    &&& forall|x: int, y: int|
        in_grid(w, h, x, y) ==> (#[trigger] outside[cell(w, x, y)] == outside_of(free, w, h, x, y))
}

/// `mask` flags the cells of `sealed` that are not outside.
pub open spec fn room_mask(sealed: Seq<bool>, outside: Seq<bool>, w: int, h: int, mask: Seq<bool>) -> bool {
    &&& mask.len() == sealed.len()
    &&& forall|x: int, y: int|
        in_grid(w, h, x, y) ==> #[trigger] mask[cell(w, x, y)] == (sealed[cell(w, x, y)] && !outside[cell(
            w,
            x,
            y,
        )])
}

/// The clusters of `cand`, one per doorway leader.
pub open spec fn clusters_of(all: Seq<DoorCluster>, cand: Seq<bool>, w: int, h: int) -> bool {
    all.len() == door_leaders(cand, w, h).len() && forall|k: int|
        0 <= k < all.len() ==> is_cluster_of(#[trigger] all[k], cand, w, h, door_leaders(cand, w, h)[k])
}

/// Cells in the grid, and a bounding box in the grid.
spec fn cluster_fits(c: DoorCluster, w: int, h: int) -> bool {
    &&& 0 <= c.min_x <= c.max_x < w
    &&& 0 <= c.min_y <= c.max_y < h
    &&& forall|k: int|
        0 <= k < c.cells@.len() ==> in_grid(w, h, (#[trigger] c.cells@[k]).0 as int, c.cells@[k].1 as int)
}

proof fn lemma_cluster_fits(c: DoorCluster, cand: Seq<bool>, w: int, h: int, a: (int, int))
    requires
        is_cluster_of(c, cand, w, h, a),
    ensures
        cluster_fits(c, w, h),
{
    let s = comp_set(cand, w, h, true, a);
    let b = (c.min_x as int, c.min_y as int, c.max_x as int, c.max_y as int);
    let c0 = choose|p: (int, int)| #[trigger] s.contains(p) && p.0 == b.0;
    let c1 = choose|p: (int, int)| #[trigger] s.contains(p) && p.1 == b.1;
    let c2 = choose|p: (int, int)| #[trigger] s.contains(p) && p.0 == b.2;
    let c3 = choose|p: (int, int)| #[trigger] s.contains(p) && p.1 == b.3;
    assert forall|p: (int, int)| #[trigger] s.contains(p) implies in_grid(w, h, p.0, p.1) by {
        assert(connected(cand, w, h, true, a, (p.0, p.1)));
        let j = choose|j: int| 0 <= j < as_points(c.cells@).len() && as_points(c.cells@)[j] == (p.0, p.1);
        assert(in_grid(w, h, c.cells@[j].0 as int, c.cells@[j].1 as int));
    }
    assert(s.contains(c0) && s.contains(c1) && s.contains(c2) && s.contains(c3));
}

/// Block the given cells of a grid.
fn clear_cells(grid: &mut Vec<bool>, cells: &Vec<(i32, i32)>, grid_w: i32, grid_h: i32)
    requires
        grid_ok(old(grid)@.len() as int, grid_w as int, grid_h as int),
        forall|j: int|
            0 <= j < cells@.len() ==> in_grid(
                grid_w as int,
                grid_h as int,
                (#[trigger] cells@[j]).0 as int,
                cells@[j].1 as int,
            ),
    ensures
        final(grid)@.len() == old(grid)@.len(),
        forall|x: int, y: int|
            in_grid(grid_w as int, grid_h as int, x, y) ==> #[trigger] final(grid)@[cell(
                grid_w as int,
                x,
                y,
            )] == (old(grid)@[cell(grid_w as int, x, y)] && !as_points(cells@).contains((x, y))),
{
    let ghost wi = grid_w as int;
    let ghost hi = grid_h as int;
    let ghost g0 = grid@;
    let mut q: usize = 0;
    while q < cells.len()
        invariant
            grid_ok(g0.len() as int, wi, hi),
            wi == grid_w,
            hi == grid_h,
            forall|j: int| 0 <= j < cells@.len() ==> in_grid(wi, hi, (#[trigger] cells@[j]).0 as int, cells@[j].1 as int),
            0 <= q <= cells@.len(),
            grid@.len() == g0.len(),
            forall|x: int, y: int|
                in_grid(wi, hi, x, y) ==> #[trigger] grid@[cell(wi, x, y)] == (g0[cell(wi, x, y)]
                    && !exists|j: int| 0 <= j < q && #[trigger] cells@[j] == (x as i32, y as i32)),
        decreases cells@.len() - q,
    {
        let (x, y) = cells[q];
        let i = idx(grid_w, grid_h, x, y);
        let ghost before = grid@;
        grid.set(i, false);
        proof {
            assert forall|x2: int, y2: int| in_grid(wi, hi, x2, y2) implies #[trigger] grid@[cell(
                wi,
                x2,
                y2,
            )] == (g0[cell(wi, x2, y2)] && !exists|j: int|
                0 <= j < q + 1 && #[trigger] cells@[j] == (x2 as i32, y2 as i32)) by {
                lemma_cell(wi, hi, x2, y2);
                lemma_cell(wi, hi, x as int, y as int);
                if x2 == x && y2 == y {
                    assert(cells@[q as int] == (x2 as i32, y2 as i32));
                } else {
                    assert(grid@[cell(wi, x2, y2)] == before[cell(wi, x2, y2)]);
                    if exists|j: int| 0 <= j < q + 1 && #[trigger] cells@[j] == (x2 as i32, y2 as i32) {
                        let j = choose|j: int| 0 <= j < q + 1 && #[trigger] cells@[j] == (x2 as i32, y2 as i32);
                        assert(j < q);
                    }
                }
            }
        }
        q = q + 1;
    }
    proof {
        assert forall|x: int, y: int| in_grid(wi, hi, x, y) implies #[trigger] grid@[cell(wi, x, y)] == (
        g0[cell(wi, x, y)] && !as_points(cells@).contains((x, y))) by {
            if as_points(cells@).contains((x, y)) {
                let j = choose|j: int| 0 <= j < as_points(cells@).len() && as_points(cells@)[j] == (x, y);
                assert(cells@[j] == (x as i32, y as i32));
            }
            if exists|j: int| 0 <= j < q && #[trigger] cells@[j] == (x as i32, y as i32) {
                let j = choose|j: int| 0 <= j < q && #[trigger] cells@[j] == (x as i32, y as i32);
                assert(as_points(cells@)[j] == (x, y));
            }
        }
    }
}

/// Number of set flags of a grid.
fn count_flags(flags: &Vec<bool>) -> (r: usize)
    ensures
        r == count_set(flags@),
{
    let mut n: usize = 0;
    let mut i: usize = 0;
    while i < flags.len()
        invariant
            0 <= i <= flags@.len(),
            n == count_set(flags@.take(i as int)),
            n <= i,
        decreases flags@.len() - i,
    {
        proof {
            assert(flags@.take(i + 1).drop_last() =~= flags@.take(i as int));
        }
        if flags[i] {
            n = n + 1;
        }
        i = i + 1;
    }
    proof {
        assert(flags@.take(i as int) =~= flags@);
    }
    n
}

/// Analyse the grid of free cells:
/// 1) doorway detection, 2) sealing the doorways that touch the outside or
/// separate walls, 3) the flood fill of the outside of the sealed grid,
/// 4) the rooms among what is left, 5) the links through the sealed
/// doorways.
pub fn analyze_grid(free: &[bool], grid_w: i32, grid_h: i32) -> (r: GridAnalysis)
    requires
        grid_ok(free@.len() as int, grid_w as int, grid_h as int),
        free@.len() < 0x7fff_ffff,
    ensures
        ({
            let w = grid_w as int;
            let h = grid_h as int;
            exists|cand: Seq<bool>, all: Seq<DoorCluster>, unsealed: Seq<bool>, sealed: Seq<bool>, mask: Seq<bool>|
                #[trigger] candidates_of(free@, w, h, cand) && #[trigger] clusters_of(all, cand, w, h)
                    && #[trigger] outside_flags(free@, w, h, unsealed) && r.door_clusters@ == all.filter(
                    |c: DoorCluster| seals(c, free@, unsealed, w, h),
                ) && #[trigger] sealed_grid(free@, r.door_clusters@, w, h, sealed) && outside_flags(
                    sealed,
                    w,
                    h,
                    r.outside@,
                ) && r.outside_cells == count_set(r.outside@) && #[trigger] room_mask(
                    sealed,
                    r.outside@,
                    w,
                    h,
                    mask,
                ) && r.rooms@.len() == room_leaders(mask, w, h).len() && (forall|k: int|
                    0 <= k < r.rooms@.len() ==> is_room(#[trigger] r.rooms@[k], mask, w, h, k))
                    && lookup_ok(r.room_lookup@, mask, w, h) && r.gap_links@ == links_upto(
                    r.door_clusters@,
                    free@,
                    r.room_lookup@,
                    r.outside@,
                    w,
                    h,
                    r.rooms@.len() as int,
                    r.door_clusters@.len() as int,
                )
        }),
{
    let ghost wi = grid_w as int;
    let ghost hi = grid_h as int;
    let outside_unsealed = flood_outside(free, grid_w, grid_h);
    let mut all = detect_door_clusters(free, grid_w, grid_h);
    let ghost all0 = all@;
    let ghost cand = choose|cand: Seq<bool>|
        #[trigger] candidates_of(free@, wi, hi, cand) && all0.len() == door_leaders(cand, wi, hi).len()
            && forall|k: int|
            0 <= k < all0.len() ==> is_cluster_of(#[trigger] all0[k], cand, wi, hi, door_leaders(cand, wi, hi)[k]);
    let ghost sealf = |c: DoorCluster| seals(c, free@, outside_unsealed@, wi, hi);
    proof {
        assert(clusters_of(all0, cand, wi, hi));
        assert forall|q: int| 0 <= q < all0.len() implies cluster_fits(#[trigger] all0[q], wi, hi) by {
            lemma_cluster_fits(all0[q], cand, wi, hi, door_leaders(cand, wi, hi)[q]);
        }
    }
    let mut sealed_clusters: Vec<DoorCluster> = Vec::new();
    let mut sealed_free: Vec<bool> = copy_flags(free);
    proof {
        reveal(Seq::filter);
        assert(all0.take(0) =~= Seq::<DoorCluster>::empty());
        assert forall|x: int, y: int| in_grid(wi, hi, x, y) implies #[trigger] sealed_free@[cell(wi, x, y)]
            == (free@[cell(wi, x, y)] && !exists|q: int|
            0 <= q < sealed_clusters@.len() && as_points(#[trigger] sealed_clusters@[q].cells@).contains((x, y))) by {}
    }
    let n = all.len();
    let mut k: usize = 0;
    while k < n
        invariant
            grid_ok(free@.len() as int, wi, hi),
            wi == grid_w,
            hi == grid_h,
            outside_unsealed@.len() == free@.len(),
            sealf == (|c: DoorCluster| seals(c, free@, outside_unsealed@, wi, hi)),
            n == all0.len(),
            all@.len() == n,
            forall|q: int| k <= q < n ==> #[trigger] all@[q] == all0[q],
            forall|q: int| 0 <= q < n ==> cluster_fits(#[trigger] all0[q], wi, hi),
            0 <= k <= n,
            sealed_clusters@ == all0.take(k as int).filter(sealf),
            sealed_grid(free@, sealed_clusters@, wi, hi, sealed_free@),
        decreases n - k,
    {
        let mut c = DoorCluster { cells: Vec::new(), min_x: 0, min_y: 0, max_x: 0, max_y: 0 };
        let ghost before = all@;
        std::mem::swap(&mut c, &mut all[k]);
        proof {
            assert(c == all0[k as int]);
            assert forall|q: int| k + 1 <= q < n implies #[trigger] all@[q] == all0[q] by {
                assert(all@[q] == before[q]);
            }
            reveal(Seq::filter);
            assert(all0.take(k + 1).drop_last() =~= all0.take(k as int));
            assert(all0.take(k + 1).last() == c);
            assert(cluster_fits(c, wi, hi));
        }
        if should_seal_cluster(&c, free, &outside_unsealed, grid_w, grid_h) {
            let ghost g0 = sealed_free@;
            let ghost sc0 = sealed_clusters@;
            clear_cells(&mut sealed_free, &c.cells, grid_w, grid_h);
            let ghost cv = c;
            sealed_clusters.push(c);
            proof {
                assert(sealf(cv));
                assert(sealed_clusters@ == all0.take(k + 1).filter(sealf));
                let sc1 = sealed_clusters@;
                assert forall|x: int, y: int| in_grid(wi, hi, x, y) implies #[trigger] sealed_free@[cell(
                    wi,
                    x,
                    y,
                )] == (free@[cell(wi, x, y)] && !exists|q: int|
                    0 <= q < sc1.len() && as_points(#[trigger] sc1[q].cells@).contains((x, y))) by {
                    if exists|q: int| 0 <= q < sc1.len() && as_points(#[trigger] sc1[q].cells@).contains((x, y)) {
                        let q = choose|q: int| 0 <= q < sc1.len() && as_points(#[trigger] sc1[q].cells@).contains((x, y));
                        if q < sc0.len() {
                            assert(sc1[q] == sc0[q]);
                        }
                    }
                    if exists|q: int| 0 <= q < sc0.len() && as_points(#[trigger] sc0[q].cells@).contains((x, y)) {
                        let q = choose|q: int| 0 <= q < sc0.len() && as_points(#[trigger] sc0[q].cells@).contains((x, y));
                        assert(sc1[q] == sc0[q]);
                    }
                    if as_points(cv.cells@).contains((x, y)) {
                        assert(sc1[sc0.len() as int] == cv);
                    }
                }
            }
        } else {
            proof {
                assert(!sealf(c));
                assert(all0.take(k + 1).filter(sealf) == all0.take(k as int).filter(sealf));
            }
        }
        k = k + 1;
    }
    proof {
        assert(all0.take(n as int) =~= all0);
    }
    let outside = flood_outside(&sealed_free, grid_w, grid_h);
    let outside_cells = count_flags(&outside);
    let mask = room_mask_flags(&sealed_free, &outside);
    proof {
        assert forall|x: int, y: int| in_grid(wi, hi, x, y) implies #[trigger] mask@[cell(wi, x, y)] == (
        sealed_free@[cell(wi, x, y)] && !outside@[cell(wi, x, y)]) by {
            lemma_cell(wi, hi, x, y);
        }
    }
    let rooms_and_lookup = extract_rooms(&mask, grid_w, grid_h);
    let (rooms, room_lookup) = rooms_and_lookup;
    proof {
        lemma_leaders_count(mask@, wi, hi, false);
        leaders(mask@, wi, hi, false).lemma_filter_len(
            |a: (int, int)| comp_set(mask@, wi, hi, false, a).len() >= MIN_ROOM_AREA_CELLS,
        );
        assert(rooms@.len() <= wi * hi);
        let sc = sealed_clusters@;
        assert forall|c2: int| 0 <= c2 < sc.len() implies cluster_fits(#[trigger] sc[c2], wi, hi) by {
            assert(sc.contains(sc[c2]));
            all0.lemma_filter_contains_rev(sealf, sc[c2]);
            let q = choose|q: int| 0 <= q < all0.len() && all0[q] == sc[c2];
            assert(cluster_fits(all0[q], wi, hi));
        }
    }
    let links = gap_links(
        &sealed_clusters,
        free,
        &room_lookup,
        &outside,
        grid_w,
        grid_h,
        rooms.len() as i32,
    );
    let r = GridAnalysis {
        door_clusters: sealed_clusters,
        outside,
        outside_cells,
        rooms,
        room_lookup,
        gap_links: links,
    };
    proof {
        assert(candidates_of(free@, wi, hi, cand));
        assert(clusters_of(all0, cand, wi, hi));
        assert(outside_flags(free@, wi, hi, outside_unsealed@));
        assert(sealed_grid(free@, r.door_clusters@, wi, hi, sealed_free@));
        assert(room_mask(sealed_free@, r.outside@, wi, hi, mask@));
    }
    r
}

impl GridAnalysis {
    /// The room that holds cell `(gx, gy)`: the room id the lookup gives it,
    /// none for a cell off the grid or in no room.
    pub fn room_at_cell(&self, grid_w: i32, grid_h: i32, gx: i32, gy: i32) -> (r: Option<usize>)
        requires
            grid_ok(self.room_lookup@.len() as int, grid_w as int, grid_h as int),
        ensures
            r == (if in_grid(grid_w as int, grid_h as int, gx as int, gy as int) && self.room_lookup@[cell(
                grid_w as int,
                gx as int,
                gy as int,
            )] >= 0 {
                Some(self.room_lookup@[cell(grid_w as int, gx as int, gy as int)] as usize)
            } else {
                None
            }),
    {
        if gx >= 0 && gy >= 0 && gx < grid_w && gy < grid_h {
            let rid = self.room_lookup[idx(grid_w, grid_h, gx, gy)];
            if rid >= 0 {
                return Some(rid as usize);
            }
        }
        None
    }
}

/// A copy of the flags.
fn copy_flags(flags: &[bool]) -> (r: Vec<bool>)
    ensures
        r@ == flags@,
{
    let mut r: Vec<bool> = Vec::new();
    let mut i: usize = 0;
    while i < flags.len()
        invariant
            0 <= i <= flags@.len(),
            r@ == flags@.take(i as int),
        decreases flags@.len() - i,
    {
        r.push(flags[i]);
        i = i + 1;
        proof {
            assert(r@ =~= flags@.take(i as int));
        }
    }
    assert(r@ =~= flags@);
    r
}

/// The cells that are set in `sealed` and not in `outside`.
fn room_mask_flags(sealed: &Vec<bool>, outside: &Vec<bool>) -> (r: Vec<bool>)
    requires
        sealed@.len() == outside@.len(),
    ensures
        r@.len() == sealed@.len(),
        forall|i: int| 0 <= i < r@.len() ==> #[trigger] r@[i] == (sealed@[i] && !outside@[i]),
{
    let mut r: Vec<bool> = Vec::new();
    let mut i: usize = 0;
    while i < sealed.len()
        invariant
            sealed@.len() == outside@.len(),
            0 <= i <= sealed@.len(),
            r@.len() == i,
            forall|j: int| 0 <= j < i ==> #[trigger] r@[j] == (sealed@[j] && !outside@[j]),
        decreases sealed@.len() - i,
    {
        r.push(sealed[i] && !outside[i]);
        i = i + 1;
    }
    r
}

} // verus!
