//! Rooms: the enclosed components of free space once doorways are sealed,
//! and the doorways that link them.

use vstd::prelude::*;
use super::components::{
    adjacent, as_points, components_in_order, connected, earlier, is_leader, leaders,
    lemma_connected_symm, lemma_connected_trans, lemma_leaders_are_leaders, lemma_leaders_count, lemma_leaders_sorted,
    lists_component,
};
use super::doors::{bounding_box, comp_set, set_bbox, DoorCluster};
use super::grid::{cell, grid_ok, idx, in_grid, lemma_cell, neighbors4, set_at};

verus! {

/// Enclosed pockets smaller than this many cells are not rooms.
pub const MIN_ROOM_AREA_CELLS: usize = 10;

/// Region id of the outside.
pub const OUTSIDE_REGION_ID: i32 = -1;

/// A room of the grid: its id, its cells and its bounding box.
#[derive(Clone, Debug)]
pub struct GridRoom {
    pub id: usize,
    pub cells: Vec<(i32, i32)>,
    pub min_x: i32,
    pub min_y: i32,
    pub max_x: i32,
    pub max_y: i32,
}

/// The first cells of the rooms of `mask`, in row-major order: components
/// by orthogonal steps of at least the minimum area.
pub open spec fn room_leaders(mask: Seq<bool>, w: int, h: int) -> Seq<(int, int)> {
    leaders(mask, w, h, false).filter(
        |a: (int, int)| comp_set(mask, w, h, false, a).len() >= MIN_ROOM_AREA_CELLS,
    )
}

/// `room` is room `k` of `mask`.
pub open spec fn is_room(room: GridRoom, mask: Seq<bool>, w: int, h: int, k: int) -> bool {
    let a = room_leaders(mask, w, h)[k];
    &&& room.id == k
    &&& lists_component(mask, w, h, false, a, room.cells@)
    &&& set_bbox(
        comp_set(mask, w, h, false, a),
        (room.min_x as int, room.min_y as int, room.max_x as int, room.max_y as int),
    )
}

/// The room id of each cell: the room whose component holds it, `-1` for
/// none.
pub open spec fn lookup_ok(lookup: Seq<i32>, mask: Seq<bool>, w: int, h: int) -> bool {
    lookup_upto(lookup, mask, w, h, room_leaders(mask, w, h))
}

/// Give the listed cells the room id `id` in `lookup`.
fn label_cells(lookup: &mut Vec<i32>, cells: &Vec<(i32, i32)>, id: i32, grid_w: i32, grid_h: i32)
    requires
        grid_ok(old(lookup)@.len() as int, grid_w as int, grid_h as int),
        forall|j: int|
            0 <= j < cells@.len() ==> in_grid(
                grid_w as int,
                grid_h as int,
                (#[trigger] cells@[j]).0 as int,
                cells@[j].1 as int,
            ),
    ensures
        final(lookup)@.len() == old(lookup)@.len(),
        forall|x: int, y: int|
            in_grid(grid_w as int, grid_h as int, x, y) ==> #[trigger] final(lookup)@[cell(
                grid_w as int,
                x,
                y,
            )] == (if as_points(cells@).contains((x, y)) {
                id
            } else {
                old(lookup)@[cell(grid_w as int, x, y)]
            }),
{
    let ghost wi = grid_w as int;
    let ghost hi = grid_h as int;
    let ghost lk0 = lookup@;
    let mut q: usize = 0;
    while q < cells.len()
        invariant
            grid_ok(lk0.len() as int, wi, hi),
            wi == grid_w,
            hi == grid_h,
            forall|j: int| 0 <= j < cells@.len() ==> in_grid(wi, hi, (#[trigger] cells@[j]).0 as int, cells@[j].1 as int),
            0 <= q <= cells@.len(),
            lookup@.len() == lk0.len(),
            forall|x: int, y: int|
                in_grid(wi, hi, x, y) ==> #[trigger] lookup@[cell(wi, x, y)] == (if exists|j: int|
                    0 <= j < q && #[trigger] cells@[j] == (x as i32, y as i32) {
                    id
                } else {
                    lk0[cell(wi, x, y)]
                }),
        decreases cells@.len() - q,
    {
        let (x, y) = cells[q];
        let i = idx(grid_w, grid_h, x, y);
        let ghost before = lookup@;
        lookup.set(i, id);
        proof {
            assert forall|x2: int, y2: int| in_grid(wi, hi, x2, y2) implies #[trigger] lookup@[cell(
                wi,
                x2,
                y2,
            )] == (if exists|j: int| 0 <= j < q + 1 && #[trigger] cells@[j] == (x2 as i32, y2 as i32) {
                id
            } else {
                lk0[cell(wi, x2, y2)]
            }) by {
                lemma_cell(wi, hi, x2, y2);
                lemma_cell(wi, hi, x as int, y as int);
                if x2 == x && y2 == y {
                    assert(cells@[q as int] == (x2 as i32, y2 as i32));
                } else {
                    assert(lookup@[cell(wi, x2, y2)] == before[cell(wi, x2, y2)]);
                    if exists|j: int| 0 <= j < q + 1 && #[trigger] cells@[j] == (x2 as i32, y2 as i32) {
                        let j = choose|j: int| 0 <= j < q + 1 && #[trigger] cells@[j] == (x2 as i32, y2 as i32);
                        assert(j < q);
                    }
                }
            }
        }
        q = q + 1;
    }
    proof {
        assert forall|x: int, y: int| in_grid(wi, hi, x, y) implies #[trigger] lookup@[cell(wi, x, y)] == (
        if as_points(cells@).contains((x, y)) {
            id
        } else {
            lk0[cell(wi, x, y)]
        }) by {
            if as_points(cells@).contains((x, y)) {
                let j = choose|j: int| 0 <= j < as_points(cells@).len() && as_points(cells@)[j] == (x, y);
                assert(cells@[j] == (x as i32, y as i32));
            }
            if exists|j: int| 0 <= j < q && #[trigger] cells@[j] == (x as i32, y as i32) {
                let j = choose|j: int| 0 <= j < q && #[trigger] cells@[j] == (x as i32, y as i32);
                assert(as_points(cells@)[j] == (x, y));
            }
        }
    }
}

/// Find the rooms among the cells that are free after sealing and not
/// outside, and fill in the room id of each cell.
pub fn extract_rooms(room_mask: &[bool], grid_w: i32, grid_h: i32) -> (r: (Vec<GridRoom>, Vec<i32>))
    requires
        grid_ok(room_mask@.len() as int, grid_w as int, grid_h as int),
        room_mask@.len() < 0x7fff_ffff,
    ensures
        r.0@.len() == room_leaders(room_mask@, grid_w as int, grid_h as int).len(),
        forall|k: int|
            0 <= k < r.0@.len() ==> is_room(#[trigger] r.0@[k], room_mask@, grid_w as int, grid_h as int, k),
        lookup_ok(r.1@, room_mask@, grid_w as int, grid_h as int),
{
    let ghost m = room_mask@;
    let ghost wi = grid_w as int;
    let ghost hi = grid_h as int;
    let ghost ls = leaders(m, wi, hi, false);
    let ghost okf = |a: (int, int)| comp_set(m, wi, hi, false, a).len() >= MIN_ROOM_AREA_CELLS;
    let mut comps = components_in_order(room_mask, grid_w, grid_h, false);
    proof {
        lemma_leaders_are_leaders(m, wi, hi, false);
        lemma_leaders_count(m, wi, hi, false);
    }
    let mut lookup: Vec<i32> = vec![-1i32; room_mask.len()];
    let mut rooms: Vec<GridRoom> = Vec::new();
    proof {
        reveal(Seq::filter);
        assert(ls.take(0) =~= Seq::<(int, int)>::empty());
        assert forall|x: int, y: int| in_grid(wi, hi, x, y) implies #[trigger] lookup@[cell(wi, x, y)] == -1 by {
            lemma_cell(wi, hi, x, y);
        }
    }
    let n = comps.len();
    let mut k: usize = 0;
    while k < n
        invariant
            grid_ok(m.len() as int, wi, hi),
            m == room_mask@,
            m.len() < 0x7fff_ffff,
            wi == grid_w,
            hi == grid_h,
            ls == leaders(m, wi, hi, false),
            okf == (|a: (int, int)| comp_set(m, wi, hi, false, a).len() >= MIN_ROOM_AREA_CELLS),
            n == comps@.len(),
            n == ls.len(),
            n <= m.len(),
            0 <= k <= n,
            forall|j: int| 0 <= j < n ==> is_leader(m, wi, hi, false, (#[trigger] ls[j]).0, ls[j].1),
            forall|j: int| k <= j < n ==> lists_component(m, wi, hi, false, ls[j], #[trigger] comps@[j]@),
            rooms@.len() == ls.take(k as int).filter(okf).len(),
            forall|j: int|
                0 <= j < rooms@.len() ==> (#[trigger] rooms@[j]).id == j && lists_component(
                    m,
                    wi,
                    hi,
                    false,
                    ls.take(k as int).filter(okf)[j],
                    rooms@[j].cells@,
                ) && set_bbox(
                    comp_set(m, wi, hi, false, ls.take(k as int).filter(okf)[j]),
                    (rooms@[j].min_x as int, rooms@[j].min_y as int, rooms@[j].max_x as int, rooms@[j].max_y as int),
                ),
            lookup_upto(lookup@, m, wi, hi, ls.take(k as int).filter(okf)),
        decreases n - k,
    {
        let mut cells: Vec<(i32, i32)> = Vec::new();
        let ghost before = comps@;
        std::mem::swap(&mut cells, &mut comps[k]);
        let ghost a = ls[k as int];
        let ghost kept = ls.take(k as int).filter(okf);
        proof {
            assert(cells@ == before[k as int]@);
            assert forall|j: int| k + 1 <= j < n implies lists_component(
                m,
                wi,
                hi,
                false,
                ls[j],
                #[trigger] comps@[j]@,
            ) by {
                assert(comps@[j] == before[j]);
            }
            assert(ls.take(k + 1).drop_last() =~= ls.take(k as int));
            assert(ls.take(k + 1).last() == a);
            lemma_room_listing(m, wi, hi, a, cells@);
            reveal(Seq::filter);
            ls.take(k as int).lemma_filter_len(okf);
        }
        if cells.len() >= MIN_ROOM_AREA_CELLS {
            let room_id = rooms.len();
            let ghost lk0 = lookup@;
            label_cells(&mut lookup, &cells, room_id as i32, grid_w, grid_h);
            let (min_x, min_y, max_x, max_y) = bounding_box(&cells);
            let ghost cells_v = cells@;
            rooms.push(GridRoom { id: room_id, cells, min_x, min_y, max_x, max_y });
            proof {
                assert(okf(a));
                assert(ls.take(k + 1).filter(okf) == kept.push(a));
                lemma_room_kept(m, wi, hi, ls, okf, k as int, cells_v, lk0, lookup@);
            }
        } else {
            proof {
                assert(!okf(a));
                assert(ls.take(k + 1).filter(okf) == kept);
            }
        }
        k = k + 1;
    }
    proof {
        assert(ls.take(n as int) =~= ls);
        assert(okf == (|a: (int, int)| comp_set(m, wi, hi, false, a).len() >= MIN_ROOM_AREA_CELLS));
    }
    (rooms, lookup)
}

proof fn lemma_room_listing(m: Seq<bool>, w: int, h: int, a: (int, int), cells: Seq<(i32, i32)>)
    requires
        lists_component(m, w, h, false, a, cells),
    ensures
        comp_set(m, w, h, false, a).len() == cells.len(),
        forall|b: (int, int, int, int)|
            #[trigger] set_bbox(as_points(cells).to_set(), b) ==> set_bbox(comp_set(m, w, h, false, a), b),
{
    let ps = as_points(cells);
    assert forall|c: (int, int)| #[trigger] ps.to_set().contains(c) <==> comp_set(m, w, h, false, a).contains(c) by {
        if ps.to_set().contains(c) {
            let j = choose|j: int| 0 <= j < ps.len() && ps[j] == c;
            assert(cells[j].0 as int == c.0 && cells[j].1 as int == c.1);
        }
        if comp_set(m, w, h, false, a).contains(c) {
            assert(connected(m, w, h, false, a, (c.0, c.1)));
        }
    }
    assert(ps.to_set() =~= comp_set(m, w, h, false, a));
    assert forall|i: int, j: int| 0 <= i < ps.len() && 0 <= j < ps.len() && i != j implies ps[i] != ps[j] by {
        assert(cells[i] != cells[j]);
    }
    assert(ps.no_duplicates());
    ps.unique_seq_to_set();
}

/// `lk` gives each cell the position in `kept` of the first cell of its
/// component, `-1` when it is none of them.
pub open spec fn lookup_upto(lk: Seq<i32>, m: Seq<bool>, w: int, h: int, kept: Seq<(int, int)>) -> bool {
    &&& lk.len() == m.len()
    &&& forall|x: int, y: int| in_grid(w, h, x, y) ==> -1 <= #[trigger] lk[cell(w, x, y)] < kept.len()
    &&& forall|x: int, y: int|
        in_grid(w, h, x, y) && #[trigger] lk[cell(w, x, y)] >= 0 ==> connected(
            m,
            w,
            h,
            false,
            kept[lk[cell(w, x, y)] as int],
            (x, y),
        )
    &&& forall|j: int, x: int, y: int|
        0 <= j < kept.len() && in_grid(w, h, x, y) && #[trigger] connected(m, w, h, false, kept[j], (x, y))
            ==> lk[cell(w, x, y)] == j
}

proof fn lemma_room_kept(
    m: Seq<bool>,
    w: int,
    h: int,
    ls: Seq<(int, int)>,
    okf: spec_fn((int, int)) -> bool,
    k: int,
    cells: Seq<(i32, i32)>,
    lk0: Seq<i32>,
    lk: Seq<i32>,
)
    requires
        grid_ok(m.len() as int, w, h),
        ls == leaders(m, w, h, false),
        0 <= k < ls.len(),
        lists_component(m, w, h, false, ls[k], cells),
        lookup_upto(lk0, m, w, h, ls.take(k).filter(okf)),
        lk.len() == lk0.len(),
        forall|x: int, y: int|
            in_grid(w, h, x, y) ==> #[trigger] lk[cell(w, x, y)] == (if as_points(cells).contains((x, y)) {
                ls.take(k).filter(okf).len() as i32
            } else {
                lk0[cell(w, x, y)]
            }),
        ls.take(k).filter(okf).len() < 0x7fff_ffff,
    ensures
        lookup_upto(lk, m, w, h, ls.take(k).filter(okf).push(ls[k])),
{
    let a = ls[k];
    let kept = ls.take(k).filter(okf);
    let kept2 = kept.push(a);
    lemma_leaders_are_leaders(m, w, h, false);
    lemma_leaders_sorted(m, w, h, false);
    assert(is_leader(m, w, h, false, a.0, a.1));
    assert forall|x: int, y: int| in_grid(w, h, x, y) && #[trigger] lk[cell(w, x, y)] >= 0 implies connected(
        m,
        w,
        h,
        false,
        kept2[lk[cell(w, x, y)] as int],
        (x, y),
    ) by {
        if as_points(cells).contains((x, y)) {
            let j = choose|j: int| 0 <= j < as_points(cells).len() && as_points(cells)[j] == (x, y);
            assert(cells[j].0 as int == x && cells[j].1 as int == y);
        } else {
            assert(lk0[cell(w, x, y)] >= 0);
        }
    }
    assert forall|j: int, x: int, y: int|
        0 <= j < kept2.len() && in_grid(w, h, x, y) && #[trigger] connected(m, w, h, false, kept2[j], (x, y))
            implies lk[cell(w, x, y)] == j by {
        if j == kept.len() {
            assert(kept2[j] == a);
        } else {
            assert(kept2[j] == kept[j]);
            assert(lk0[cell(w, x, y)] == j);
            if as_points(cells).contains((x, y)) {
                assert(connected(m, w, h, false, a, (x, y)));
                assert(kept.contains(kept[j]));
                ls.take(k).lemma_filter_contains_rev(okf, kept[j]);
                let i = choose|i: int| 0 <= i < ls.take(k).len() && ls.take(k)[i] == kept[j];
                assert(ls[i] == kept[j]);
                assert(earlier(ls[i].0, ls[i].1, a.0, a.1));
                lemma_connected_symm(m, w, h, false, kept[j], (x, y));
                lemma_connected_trans(m, w, h, false, a, (x, y), kept[j]);
                assert(is_leader(m, w, h, false, ls[i].0, ls[i].1));
                assert(in_grid(w, h, ls[i].0, ls[i].1));
                assert(!connected(m, w, h, false, (a.0, a.1), (ls[i].0, ls[i].1)));
            }
        }
    }
}

} // verus!
